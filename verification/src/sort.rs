//! Sorting the registry by modification time.
//!
//! The sort is stable: entries that share a modification time keep their
//! discovery order. The specification is a sequence-level insertion sort,
//! [`sort_spec`]; the lemmas below give its essential properties — it keeps
//! the length, it loses and invents no entry, its result is ordered by
//! modification time, and for every time value it keeps the subsequence of
//! entries carrying that value unchanged.

use vstd::prelude::*;
use crate::registry::Entry;
use crate::registry::Registry;
use crate::registry::admissible;
use crate::paths::file_name_spec;

verus! {

/// The entries are ordered by non-decreasing modification time.
pub open spec fn sorted_by_modified(s: Seq<Entry>) -> bool {
    forall|i: int, j: int| #![trigger s[i], s[j]]
        0 <= i < j < s.len() ==> s[i].modified <= s[j].modified
}

/// The subsequence of entries whose modification time is `t`, in order.
pub open spec fn entries_with_time(s: Seq<Entry>, t: u64) -> Seq<Entry> {
    s.filter(|e: Entry| e.modified == t)
}

/// Inserts `e` after every element of `s` whose modification time is at
/// most `e.modified`, and before every later one.
pub open spec fn insert_sorted(e: Entry, s: Seq<Entry>) -> Seq<Entry>
    decreases s.len(),
{
    if s.len() == 0 {
        seq![e]
    } else if s.last().modified > e.modified {
        insert_sorted(e, s.drop_last()).push(s.last())
    } else {
        s.push(e)
    }
}

/// Stable insertion sort of a sequence of entries by modification time.
pub open spec fn sort_spec(s: Seq<Entry>) -> Seq<Entry>
    decreases s.len(),
{
    if s.len() == 0 {
        s
    } else {
        insert_sorted(s.last(), sort_spec(s.drop_last()))
    }
}

/// Inserting grows the length by one, and the elements afterwards are the
/// inserted one and those of the original.
pub proof fn lemma_insert_sorted_elems(e: Entry, s: Seq<Entry>)
    ensures
        insert_sorted(e, s).len() == s.len() + 1,
        insert_sorted(e, s).contains(e),
        forall|x: Entry| insert_sorted(e, s).contains(x) <==> (x == e || s.contains(x)),
    decreases s.len(),
{
    if s.len() == 0 {
        assert forall|x: Entry| insert_sorted(e, s).contains(x) implies (x == e || s.contains(x)) by {
            let i = choose|i: int| 0 <= i < insert_sorted(e, s).len() && insert_sorted(e, s)[i] == x;
        }
        assert(insert_sorted(e, s)[0] == e);
        assert(insert_sorted(e, s).contains(e));
    } else if s.last().modified > e.modified {
        lemma_insert_sorted_elems(e, s.drop_last());
        let sub = insert_sorted(e, s.drop_last());
        let whole = sub.push(s.last());
        assert forall|x: Entry| whole.contains(x) implies (x == e || s.contains(x)) by {
            let i = choose|i: int| 0 <= i < whole.len() && whole[i] == x;
            if i < sub.len() {
                assert(sub.contains(x));
                if x != e {
                    assert(s.drop_last().contains(x));
                    let j = choose|j: int| 0 <= j < s.drop_last().len() && s.drop_last()[j] == x;
                    assert(s.drop_last()[j] == s[j]);
                    assert(s[j] == x);
                }
            } else {
                assert(x == s.last());
                assert(s[s.len() - 1] == x);
            }
        }
        assert forall|x: Entry| (x == e || s.contains(x)) implies whole.contains(x) by {
            if x == e {
                assert(sub.contains(e));
                let i = choose|i: int| 0 <= i < sub.len() && sub[i] == e;
                assert(whole[i] == e);
            } else {
                let j = choose|j: int| 0 <= j < s.len() && s[j] == x;
                if j < s.len() - 1 {
                    assert(s.drop_last()[j] == x);
                    assert(s.drop_last().contains(x));
                    assert(sub.contains(x));
                    let i = choose|i: int| 0 <= i < sub.len() && sub[i] == x;
                    assert(whole[i] == x);
                } else {
                    assert(whole[whole.len() - 1] == x);
                }
            }
        }
    } else {
        let whole = s.push(e);
        assert forall|x: Entry| whole.contains(x) implies (x == e || s.contains(x)) by {
            let i = choose|i: int| 0 <= i < whole.len() && whole[i] == x;
            if i < s.len() {
                assert(s[i] == x);
            }
        }
        assert forall|x: Entry| (x == e || s.contains(x)) implies whole.contains(x) by {
            if x == e {
                assert(whole[whole.len() - 1] == x);
            } else {
                let j = choose|j: int| 0 <= j < s.len() && s[j] == x;
                assert(whole[j] == x);
            }
        }
    }
}

/// Inserting into an ordered sequence keeps it ordered.
pub proof fn lemma_insert_sorted_sorted(e: Entry, s: Seq<Entry>)
    requires
        sorted_by_modified(s),
    ensures
        sorted_by_modified(insert_sorted(e, s)),
    decreases s.len(),
{
    if s.len() == 0 {
    } else if s.last().modified > e.modified {
        assert(sorted_by_modified(s.drop_last()));
        lemma_insert_sorted_sorted(e, s.drop_last());
        lemma_insert_sorted_elems(e, s.drop_last());
        let sub = insert_sorted(e, s.drop_last());
        let whole = sub.push(s.last());
        assert forall|i: int, j: int| #![trigger whole[i], whole[j]]
            0 <= i < j < whole.len() implies whole[i].modified <= whole[j].modified by {
            if j < sub.len() {
                assert(sub[i].modified <= sub[j].modified);
            } else {
                assert(whole[j] == s.last());
                assert(sub.contains(sub[i]));
                let x = sub[i];
                if x == e {
                } else {
                    assert(s.drop_last().contains(x));
                    let k = choose|k: int| 0 <= k < s.drop_last().len() && s.drop_last()[k] == x;
                    assert(s.drop_last()[k] == s[k]);
                    assert(s[k] == x);
                    assert(s[k].modified <= s.last().modified);
                }
            }
        }
    } else {
        let whole = s.push(e);
        assert forall|i: int, j: int| #![trigger whole[i], whole[j]]
            0 <= i < j < whole.len() implies whole[i].modified <= whole[j].modified by {
            if j < s.len() {
                assert(s[i].modified <= s[j].modified);
            } else {
                assert(whole[j] == e);
                assert(s[i].modified <= s.last().modified);
            }
        }
    }
}

/// Inserting appends the element to the subsequence of its own time value
/// and leaves every other time value's subsequence unchanged.
pub proof fn lemma_insert_sorted_filter(e: Entry, s: Seq<Entry>, t: u64)
    ensures
        entries_with_time(insert_sorted(e, s), t) == (if e.modified == t {
            entries_with_time(s, t).push(e)
        } else {
            entries_with_time(s, t)
        }),
    decreases s.len(),
{
    let pred = |x: Entry| x.modified == t;
    reveal_with_fuel(Seq::<_>::filter, 2);
    if s.len() == 0 {
        assert(seq![e].drop_last() =~= Seq::<Entry>::empty());
        assert(entries_with_time(seq![e], t) == if pred(e) {
            Seq::<Entry>::empty().push(e)
        } else {
            Seq::<Entry>::empty()
        });
        assert(entries_with_time(s, t) =~= Seq::<Entry>::empty());
        if e.modified == t {
            assert(entries_with_time(s, t).push(e) =~= Seq::<Entry>::empty().push(e));
        }
    } else if s.last().modified > e.modified {
        lemma_insert_sorted_filter(e, s.drop_last(), t);
        let sub = insert_sorted(e, s.drop_last());
        let whole = sub.push(s.last());
        assert(whole.drop_last() =~= sub);
        assert(whole.last() == s.last());
        // filter of whole unfolds over its last element
        assert(whole.filter(pred) == if pred(s.last()) {
            sub.filter(pred).push(s.last())
        } else {
            sub.filter(pred)
        });
        assert(s.drop_last().push(s.last()) =~= s);
        assert(s.filter(pred) == if pred(s.last()) {
            s.drop_last().filter(pred).push(s.last())
        } else {
            s.drop_last().filter(pred)
        });
        if e.modified == t {
            // then s.last().modified > t is false to matter: s.last() may or may not match
            if pred(s.last()) {
                assert(s.last().modified == t);
                assert(false);  // s.last().modified > e.modified == t and == t
            }
            assert(whole.filter(pred) == sub.filter(pred));
            assert(sub.filter(pred) == s.drop_last().filter(pred).push(e));
            assert(s.filter(pred) == s.drop_last().filter(pred));
        } else {
            assert(sub.filter(pred) == s.drop_last().filter(pred));
        }
    } else {
        let whole = s.push(e);
        assert(whole.drop_last() =~= s);
        assert(whole.last() == e);
        assert(whole.filter(pred) == if pred(e) {
            s.filter(pred).push(e)
        } else {
            s.filter(pred)
        });
    }
}

/// The sorted sequence has the same length, consists of the original
/// entries, and is ordered by modification time.
pub proof fn lemma_sort_spec_basic(s: Seq<Entry>)
    ensures
        sort_spec(s).len() == s.len(),
        forall|x: Entry| sort_spec(s).contains(x) <==> s.contains(x),
        sorted_by_modified(sort_spec(s)),
    decreases s.len(),
{
    if s.len() == 0 {
    } else {
        lemma_sort_spec_basic(s.drop_last());
        lemma_insert_sorted_elems(s.last(), sort_spec(s.drop_last()));
        lemma_insert_sorted_sorted(s.last(), sort_spec(s.drop_last()));
        assert forall|x: Entry| sort_spec(s).contains(x) implies s.contains(x) by {
            if x == s.last() {
                assert(s[s.len() - 1] == x);
            } else {
                assert(s.drop_last().contains(x));
                let j = choose|j: int| 0 <= j < s.drop_last().len() && s.drop_last()[j] == x;
                assert(s[j] == x);
            }
        }
        assert forall|x: Entry| s.contains(x) implies sort_spec(s).contains(x) by {
            let j = choose|j: int| 0 <= j < s.len() && s[j] == x;
            if j < s.len() - 1 {
                assert(s.drop_last()[j] == x);
                assert(s.drop_last().contains(x));
            } else {
                assert(x == s.last());
            }
        }
    }
}

/// Sorting keeps, for every time value, the subsequence of entries with
/// that time unchanged: the sort is stable.
pub proof fn lemma_sort_spec_stable(s: Seq<Entry>, t: u64)
    ensures
        entries_with_time(sort_spec(s), t) == entries_with_time(s, t),
    decreases s.len(),
{
    let pred = |x: Entry| x.modified == t;
    if s.len() == 0 {
    } else {
        lemma_sort_spec_stable(s.drop_last(), t);
        lemma_insert_sorted_filter(s.last(), sort_spec(s.drop_last()), t);
        reveal_with_fuel(Seq::<_>::filter, 2);
        assert(s.drop_last().push(s.last()) =~= s);
        assert(s.filter(pred) == if pred(s.last()) {
            s.drop_last().filter(pred).push(s.last())
        } else {
            s.drop_last().filter(pred)
        });
    }
}

impl Registry {
    /// Reorders the entries by ascending modification time. Entries whose
    /// time is unknown carry time zero and therefore sort first. The sort
    /// is stable: entries with equal times keep their discovery order.
    pub fn sort_by_modified(&mut self)
        requires
            old(self).wf(),
        ensures
            final(self).wf(),
            final(self).valid_extensions == old(self).valid_extensions,
            final(self).entries@ == sort_spec(old(self).entries@),
            final(self).entries@.len() == old(self).entries@.len(),
            sorted_by_modified(final(self).entries@),
            forall|t: u64| #[trigger] entries_with_time(final(self).entries@, t)
                == entries_with_time(old(self).entries@, t),
    {
        let ghost orig = self.entries@;
        let n = self.entries.len();
        let mut i: usize = 0;
        while i < n
            invariant
                i <= n,
                n == self.entries@.len(),
                self.entries@.len() == orig.len(),
                self.valid_extensions == old(self).valid_extensions,
                self.entries@.subrange(0, i as int) == sort_spec(orig.subrange(0, i as int)),
                self.entries@.subrange(i as int, n as int) == orig.subrange(i as int, n as int),
            decreases n - i,
        {
            let ghost pre = self.entries@;
            proof {
                assert(pre[i as int] == orig.subrange(i as int, n as int)[0]);
            }
            let e = self.entries.remove(i);
            let ghost removed = self.entries@;
            proof {
                assert(removed =~= pre.subrange(0, i as int) + pre.subrange(i as int + 1, n as int));
            }
            let mut j: usize = i;
            while j > 0 && self.entries[j - 1].modified > e.modified
                invariant
                    j <= i,
                    i < n,
                    n == orig.len(),
                    self.entries@ == removed,
                    removed.len() == n - 1,
                    removed =~= pre.subrange(0, i as int) + pre.subrange(i as int + 1, n as int),
                    pre.len() == n,
                    insert_sorted(e, pre.subrange(0, i as int)) == insert_sorted(e, pre.subrange(0, j as int)) + pre.subrange(j as int, i as int),
                decreases j,
            {
                proof {
                    let pj = pre.subrange(0, j as int);
                    let pj1 = pre.subrange(0, j as int - 1);
                    assert(self.entries@[j as int - 1] == pre[j as int - 1]);
                    assert(pj.last() == pre[j as int - 1]);
                    assert(pj.drop_last() =~= pj1);
                    assert(insert_sorted(e, pj) == insert_sorted(e, pj1).push(pre[j as int - 1]));
                    assert(insert_sorted(e, pj1).push(pre[j as int - 1]) + pre.subrange(j as int, i as int)
                        =~= insert_sorted(e, pj1) + pre.subrange(j as int - 1, i as int));
                }
                j = j - 1;
            }
            proof {
                let pj = pre.subrange(0, j as int);
                if j > 0 {
                    assert(self.entries@[j as int - 1] == pre[j as int - 1]);
                    assert(pj.last() == pre[j as int - 1]);
                    assert(insert_sorted(e, pj) == pj.push(e));
                } else {
                    assert(pj =~= Seq::<Entry>::empty());
                    assert(insert_sorted(e, pj) =~= pj.push(e));
                }
            }
            self.entries.insert(j, e);
            proof {
                let pj = pre.subrange(0, j as int);
                assert(self.entries@ =~= removed.subrange(0, j as int) + seq![e] + removed.subrange(j as int, n as int - 1));
                assert(removed.subrange(0, j as int) =~= pj);
                assert(self.entries@.subrange(0, i as int + 1)
                    =~= pj + seq![e] + pre.subrange(j as int, i as int));
                assert(pj.push(e) + pre.subrange(j as int, i as int) =~= pj + seq![e] + pre.subrange(j as int, i as int));
                // the sorted prefix now matches the specification one step further
                let osub = orig.subrange(0, i as int + 1);
                assert(osub.last() == orig[i as int]);
                assert(orig[i as int] == pre[i as int]);
                assert(pre[i as int] == e);
                assert(osub.drop_last() =~= orig.subrange(0, i as int));
                assert(pre.subrange(0, i as int) == sort_spec(orig.subrange(0, i as int)));
                assert(sort_spec(osub) == insert_sorted(e, pre.subrange(0, i as int)));
                assert(self.entries@.subrange(0, i as int + 1) == sort_spec(osub));
                // the unsorted suffix is untouched
                assert(self.entries@.subrange(i as int + 1, n as int)
                    =~= pre.subrange(i as int + 1, n as int));
                assert forall|k: int| i <= k < n implies pre[k] == orig[k] by {
                    assert(pre.subrange(i as int, n as int)[k - i] == orig.subrange(i as int, n as int)[k - i]);
                }
                assert(pre.subrange(i as int + 1, n as int) =~= orig.subrange(i as int + 1, n as int));
            }
            i = i + 1;
        }
        proof {
            assert(self.entries@.subrange(0, n as int) =~= self.entries@);
            assert(orig.subrange(0, n as int) =~= orig);
            lemma_sort_spec_basic(orig);
            assert forall|t: u64| #[trigger] entries_with_time(self.entries@, t)
                == entries_with_time(orig, t) by {
                lemma_sort_spec_stable(orig, t);
            }
            assert forall|k: int| 0 <= k < self.entries@.len()
                implies admissible(file_name_spec(#[trigger] self.entries@[k].path), self.valid_extensions.deep_view()) by {
                assert(self.entries@.contains(self.entries@[k]));
                assert(orig.contains(self.entries@[k]));
                let m = choose|m: int| 0 <= m < orig.len() && orig[m] == self.entries@[k];
                assert(admissible(file_name_spec(orig[m].path), old(self).valid_extensions.deep_view()));
            }
        }
    }
}

} // verus!
