//! Rendering the registry to a byte stream.
//!
//! Each entry becomes one record — its path, shell-quoted on request —
//! followed by exactly one separator byte: NUL when the null separator is
//! chosen, else newline. Every record, the last included, is followed by
//! its separator. [`lemma_separator_exactness`] counts the separators: when
//! no record itself holds the separator byte, the output holds exactly one
//! separator per entry and none elsewhere.

use vstd::prelude::*;
use crate::paths::full_path_spec;
use crate::paths::append_bytes;
use crate::quoting::quoted_spec;
use crate::quoting::quote;
use crate::registry::Entry;
use crate::registry::Registry;

verus! {

/// The NUL byte.
pub const NUL_BYTE: u8 = 0;

/// The newline byte.
pub const NEWLINE_BYTE: u8 = 10;

/// The separator that follows each record.
pub open spec fn separator_byte(separator_null: bool) -> u8 {
    if separator_null {
        NUL_BYTE
    } else {
        NEWLINE_BYTE
    }
}

/// One output record: the path of the entry, shell-quoted on request.
pub open spec fn record_spec(e: Entry, quote_paths: bool) -> Seq<u8> {
    if quote_paths {
        quoted_spec(full_path_spec(e.path))
    } else {
        full_path_spec(e.path)
    }
}

/// The whole output: each record followed by one separator, in order.
pub open spec fn rendered_spec(entries: Seq<Entry>, quote_paths: bool, separator_null: bool) -> Seq<u8>
    decreases entries.len(),
{
    if entries.len() == 0 {
        Seq::empty()
    } else {
        rendered_spec(entries.drop_last(), quote_paths, separator_null)
            + record_spec(entries.last(), quote_paths)
            + seq![separator_byte(separator_null)]
    }
}

/// How often the byte `b` occurs in `s`.
pub open spec fn count_byte(s: Seq<u8>, b: u8) -> nat {
    s.filter(|x: u8| x == b).len()
}

/// A byte string without any occurrence of `b` contributes nothing to the
/// count of `b`.
pub proof fn lemma_count_byte_absent(s: Seq<u8>, b: u8)
    requires
        !s.contains(b),
    ensures
        count_byte(s, b) == 0,
    decreases s.len(),
{
    reveal_with_fuel(Seq::<_>::filter, 2);
    if s.len() == 0 {
    } else {
        assert(s[s.len() - 1] == s.last());
        assert(s.last() != b);
        assert forall|j: int| 0 <= j < s.drop_last().len() implies s.drop_last()[j] != b by {
            assert(s.drop_last()[j] == s[j]);
        }
        assert(!s.drop_last().contains(b));
        lemma_count_byte_absent(s.drop_last(), b);
    }
}

/// Counting distributes over concatenation.
pub proof fn lemma_count_byte_add(a: Seq<u8>, c: Seq<u8>, b: u8)
    ensures
        count_byte(a + c, b) == count_byte(a, b) + count_byte(c, b),
{
    Seq::filter_distributes_over_add(a, c, |x: u8| x == b);
}

/// Separator exactness: when no record holds the separator byte itself,
/// the rendered output holds exactly one separator per entry — one right
/// after each record, none elsewhere.
pub proof fn lemma_separator_exactness(entries: Seq<Entry>, quote_paths: bool, separator_null: bool)
    requires
        forall|i: int| 0 <= i < entries.len()
            ==> !record_spec(#[trigger] entries[i], quote_paths).contains(separator_byte(separator_null)),
    ensures
        count_byte(rendered_spec(entries, quote_paths, separator_null), separator_byte(separator_null))
            == entries.len(),
    decreases entries.len(),
{
    let sep = separator_byte(separator_null);
    reveal_with_fuel(Seq::<_>::filter, 3);
    if entries.len() == 0 {
    } else {
        assert forall|i: int| 0 <= i < entries.drop_last().len()
            implies !record_spec(#[trigger] entries.drop_last()[i], quote_paths).contains(sep) by {
            assert(entries.drop_last()[i] == entries[i]);
        }
        lemma_separator_exactness(entries.drop_last(), quote_paths, separator_null);
        assert(entries[entries.len() - 1] == entries.last());
        let head = rendered_spec(entries.drop_last(), quote_paths, separator_null);
        let rec = record_spec(entries.last(), quote_paths);
        lemma_count_byte_absent(rec, sep);
        lemma_count_byte_add(head, rec, sep);
        lemma_count_byte_add(head + rec, seq![sep], sep);
        assert(seq![sep].drop_last() =~= Seq::<u8>::empty());
        assert(count_byte(seq![sep], sep) == 1);
        assert(rendered_spec(entries, quote_paths, separator_null) == (head + rec) + seq![sep]);
    }
}

/// Separator exactness under quoting: when no entry's path holds the
/// separator byte, the quoted output still holds exactly one separator
/// per entry — quoting introduces only quotes and backslashes, never a
/// NUL or a newline.
pub proof fn lemma_separator_exactness_quoted(entries: Seq<Entry>, separator_null: bool)
    requires
        forall|i: int| 0 <= i < entries.len()
            ==> !full_path_spec((#[trigger] entries[i]).path).contains(separator_byte(separator_null)),
    ensures
        count_byte(rendered_spec(entries, true, separator_null), separator_byte(separator_null))
            == entries.len(),
{
    let sep = separator_byte(separator_null);
    assert forall|i: int| 0 <= i < entries.len()
        implies !record_spec(#[trigger] entries[i], true).contains(sep) by {
        lemma_quoted_keeps_absence(full_path_spec(entries[i].path), sep);
    }
    lemma_separator_exactness(entries, true, separator_null);
}

/// Quoting never introduces a byte other than quotes and backslashes: a
/// separator byte absent from a path is absent from its quoted form too.
pub proof fn lemma_quoted_keeps_absence(s: Seq<u8>, b: u8)
    requires
        !s.contains(b),
        b != crate::quoting::QUOTE_BYTE,
        b != crate::quoting::BACKSLASH_BYTE,
    ensures
        !quoted_spec(s).contains(b),
    decreases s.len(),
{
    assert forall|i: int| 0 <= i < quoted_spec(s).len() implies quoted_spec(s)[i] != b by {
        lemma_quoted_body_bytes(s, b);
        let body = crate::quoting::quoted_body(s);
        if 1 <= i < 1 + body.len() {
            assert(quoted_spec(s)[i] == body[i - 1]);
        }
    }
    if quoted_spec(s).contains(b) {
        let i = choose|i: int| 0 <= i < quoted_spec(s).len() && quoted_spec(s)[i] == b;
        assert(false);
    }
}

/// Every byte of the quoted body is a byte of the path, a quote or a
/// backslash.
proof fn lemma_quoted_body_bytes(s: Seq<u8>, b: u8)
    requires
        !s.contains(b),
        b != crate::quoting::QUOTE_BYTE,
        b != crate::quoting::BACKSLASH_BYTE,
    ensures
        forall|i: int| 0 <= i < crate::quoting::quoted_body(s).len()
            ==> #[trigger] crate::quoting::quoted_body(s)[i] != b,
    decreases s.len(),
{
    if s.len() == 0 {
    } else {
        assert(s[0] == s.first());
        assert(s.first() != b);
        assert forall|j: int| 0 <= j < s.drop_first().len() implies s.drop_first()[j] != b by {
            assert(s.drop_first()[j] == s[j + 1]);
        }
        assert(!s.drop_first().contains(b));
        lemma_quoted_body_bytes(s.drop_first(), b);
        let head = crate::quoting::quoted_byte(s.first());
        let tail = crate::quoting::quoted_body(s.drop_first());
        assert forall|i: int| 0 <= i < crate::quoting::quoted_body(s).len()
            implies #[trigger] crate::quoting::quoted_body(s)[i] != b by {
            assert(crate::quoting::quoted_body(s) == head + tail);
            if i < head.len() {
                assert(crate::quoting::quoted_body(s)[i] == head[i]);
            } else {
                assert(crate::quoting::quoted_body(s)[i] == tail[i - head.len()]);
            }
        }
    }
}

impl Registry {
    /// Writes every entry, in registry order, into the byte buffer: the
    /// path (shell-quoted when `quote_paths` is set), then one separator —
    /// NUL when `separator_null` is set, else newline — after each record,
    /// the last included.
    pub fn write_all(&self, out: &mut Vec<u8>, separator_null: bool, quote_paths: bool)
        ensures
            final(out)@ == old(out)@ + rendered_spec(self.entries@, quote_paths, separator_null),
    {
        let ghost out0 = out@;
        let sep: u8 = if separator_null {
            NUL_BYTE
        } else {
            NEWLINE_BYTE
        };
        let mut i: usize = 0;
        proof {
            assert(self.entries@.subrange(0, 0) =~= Seq::<Entry>::empty());
            assert(out@ =~= out0 + rendered_spec(self.entries@.subrange(0, 0), quote_paths, separator_null));
        }
        while i < self.entries.len()
            invariant
                i <= self.entries@.len(),
                sep == separator_byte(separator_null),
                out@ == out0 + rendered_spec(self.entries@.subrange(0, i as int), quote_paths, separator_null),
            decreases self.entries@.len() - i,
        {
            let path = self.entries[i].path.full_path();
            if quote_paths {
                let rec = quote(&path);
                append_bytes(out, &rec);
            } else {
                append_bytes(out, &path);
            }
            out.push(sep);
            proof {
                let sub = self.entries@.subrange(0, i + 1);
                assert(sub.drop_last() =~= self.entries@.subrange(0, i as int));
                assert(sub.last() == self.entries@[i as int]);
                assert(out@ =~= out0 + rendered_spec(sub, quote_paths, separator_null));
            }
            i = i + 1;
        }
        proof {
            assert(self.entries@.subrange(0, self.entries@.len() as int) =~= self.entries@);
        }
    }
}

} // verus!
