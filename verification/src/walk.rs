//! The traversal engine.
//!
//! The walk is a step machine. It keeps a stack of pending work — targets
//! not yet examined, directories to list, discovered children awaiting
//! their metadata — and owns the registry it fills. The caller runs the
//! loop: it asks [`Walk::next_request`] which filesystem question to put to
//! the host (stat a target following symlinks, list a directory, stat a
//! child without following), performs it, and hands the answer to the
//! matching `on_*` method. Every decision — hidden-name filtering, the
//! refusal to enter or register symbolic links, extension filtering,
//! error tolerance — is made here, under contract; the caller only moves
//! bytes between the host and the machine.
//!
//! Errors during traversal are never fatal: the offending task is dropped
//! and the walk goes on. Each `on_*` method that can observe a failure
//! returns the diagnostic to report, already gated by the verbosity level:
//! a negative verbosity suppresses every diagnostic.

use vstd::prelude::*;
use crate::names::DOT_BYTE;
use crate::names::final_segment_spec;
use crate::names::is_hidden_name;
use crate::names::is_hidden_name_spec;
use crate::paths::EntryPath;
use crate::paths::copy_bytes;
use crate::paths::file_name_spec;
use crate::paths::full_path_spec;
use crate::paths::rel_all_visible;
use crate::registry::AddOutcome;
use crate::registry::Entry;
use crate::registry::Registry;
use crate::registry::admissible;
use crate::registry::undecodable_extension;

verus! {

/// A unit of pending work.
pub enum Task {
    /// A user-supplied target, not yet examined.
    Target(Vec<u8>),
    /// A directory whose entries are still to be listed.
    Dir(EntryPath),
    /// A discovered child awaiting its metadata.
    Child(EntryPath),
}

/// The filesystem question the walk wants answered next.
pub enum Request {
    /// Fetch the metadata of this target, following symbolic links.
    StatTarget(Vec<u8>),
    /// List the immediate entries of this directory.
    ListDir(Vec<u8>),
    /// Fetch the metadata of this entry, not following symbolic links.
    StatChild(Vec<u8>),
}

/// A diagnostic owed to the error stream.
#[derive(Debug, PartialEq, Eq, Structural)]
pub enum DiagKind {
    /// A directory could not be listed; it was skipped.
    DirUnreadable,
    /// An entry's metadata could not be read; it was skipped.
    ChildUnreadable,
    /// A file's extension is not valid text; the file was excluded.
    UndecodableExtension,
}

/// The target bytes of a target task.
pub open spec fn task_target_bytes(t: Task) -> Seq<u8> {
    match t {
        Task::Target(v) => v@,
        Task::Dir(p) => Seq::empty(),
        Task::Child(p) => Seq::empty(),
    }
}

/// The path carried by a directory or child task.
pub open spec fn task_path(t: Task) -> EntryPath {
    match t {
        Task::Target(v) => arbitrary(),
        Task::Dir(p) => p,
        Task::Child(p) => p,
    }
}

/// No relative segment of the task's path is hidden.
pub open spec fn task_visible(t: Task) -> bool {
    match t {
        Task::Target(v) => true,
        Task::Dir(p) => rel_all_visible(p),
        Task::Child(p) => rel_all_visible(p),
    }
}

/// Whether a listed name survives the hidden-name policy.
pub open spec fn keep_pred(include_hidden: bool) -> spec_fn(Seq<u8>) -> bool {
    |n: Seq<u8>| include_hidden || !is_hidden_name_spec(n)
}

/// The names of a listing that survive the hidden-name policy, in
/// listing order.
pub open spec fn kept_names(names: Seq<Seq<u8>>, include_hidden: bool) -> Seq<Seq<u8>> {
    names.filter(keep_pred(include_hidden))
}

/// The kept names of `names[from..]`, in the order they are pushed onto
/// the work stack: last listed first, so that the stack pops them in
/// listing order.
pub open spec fn pushed_names(names: Seq<Seq<u8>>, from: int, include_hidden: bool) -> Seq<Seq<u8>>
    decreases names.len() - from,
{
    if from < 0 || from >= names.len() {
        Seq::empty()
    } else {
        pushed_names(names, from + 1, include_hidden)
            + (if include_hidden || !is_hidden_name_spec(names[from]) {
                seq![names[from]]
            } else {
                Seq::empty()
            })
    }
}

/// What a listing pushes for the suffix `names[from..]` is its kept
/// names, reversed.
proof fn lemma_pushed_names_suffix(names: Seq<Seq<u8>>, from: int, include_hidden: bool)
    requires
        0 <= from <= names.len(),
    ensures
        pushed_names(names, from, include_hidden)
            == names.subrange(from, names.len() as int).filter(keep_pred(include_hidden)).reverse(),
    decreases names.len() - from,
{
    let pred = keep_pred(include_hidden);
    reveal_with_fuel(Seq::<_>::filter, 2);
    if from == names.len() {
        assert(names.subrange(from, names.len() as int) =~= Seq::<Seq<u8>>::empty());
        assert(Seq::<Seq<u8>>::empty().filter(pred).reverse() =~= Seq::<Seq<u8>>::empty());
    } else {
        lemma_pushed_names_suffix(names, from + 1, include_hidden);
        let x = names[from];
        let here = names.subrange(from, names.len() as int);
        let rest = names.subrange(from + 1, names.len() as int);
        assert(here =~= seq![x] + rest);
        Seq::filter_distributes_over_add(seq![x], rest, pred);
        assert(seq![x].drop_last() =~= Seq::<Seq<u8>>::empty());
        assert(seq![x].filter(pred) == if pred(x) {
            Seq::<Seq<u8>>::empty().push(x)
        } else {
            Seq::<Seq<u8>>::empty()
        });
        assert((seq![x].filter(pred) + rest.filter(pred)).reverse()
            =~= rest.filter(pred).reverse() + seq![x].filter(pred).reverse());
        if pred(x) {
            assert(seq![x].filter(pred).reverse() =~= seq![x]);
        } else {
            assert(seq![x].filter(pred).reverse() =~= Seq::<Seq<u8>>::empty());
        }
        assert(pushed_names(names, from, include_hidden)
            =~= here.filter(pred).reverse());
    }
}

/// Children are examined in listing order: what a listing pushes onto the
/// stack is exactly the kept names — those surviving the hidden-name
/// policy — in reverse, so that popping yields them first to last.
pub proof fn lemma_listing_order(names: Seq<Seq<u8>>, include_hidden: bool)
    ensures
        pushed_names(names, 0, include_hidden)
            == kept_names(names, include_hidden).reverse(),
{
    lemma_pushed_names_suffix(names, 0, include_hidden);
    assert(names.subrange(0, names.len() as int) =~= names);
}

/// Filtering a sequence and collecting the result is collecting the
/// sequence and filtering the multiset.
proof fn lemma_filter_to_multiset<A>(s: Seq<A>, p: spec_fn(A) -> bool)
    ensures
        s.filter(p).to_multiset() == s.to_multiset().filter(p),
    decreases s.len(),
{
    broadcast use vstd::seq_lib::group_to_multiset_ensures;
    broadcast use vstd::multiset::group_multiset_axioms;

    reveal_with_fuel(Seq::<_>::filter, 2);
    if s.len() == 0 {
        assert(forall|a: A| !s.contains(a));
        assert(forall|a: A| !s.filter(p).contains(a)) by {
            Seq::lemma_filter_len(s, p);
        }
        assert(s.filter(p).to_multiset() =~= s.to_multiset().filter(p));
    } else {
        let d = s.drop_last();
        let x = s.last();
        lemma_filter_to_multiset(d, p);
        assert(d.push(x) =~= s);
        assert(s.to_multiset() =~= d.to_multiset().insert(x));
        if p(x) {
            assert(s.filter(p) == d.filter(p).push(x));
            assert(s.filter(p).to_multiset() =~= d.filter(p).to_multiset().insert(x));
            assert(d.to_multiset().filter(p).insert(x) =~= d.to_multiset().insert(x).filter(p));
        } else {
            assert(s.filter(p) == d.filter(p));
            assert(d.to_multiset().filter(p) =~= d.to_multiset().insert(x).filter(p));
        }
    }
}

/// The kept names of a listing do not depend on the order the host
/// returned it in: two listings holding the same names, however ordered,
/// keep the same names. Which files a traversal accepts therefore cannot
/// change with the host's listing order; only their order can.
pub proof fn lemma_kept_names_order_independent(
    names1: Seq<Seq<u8>>,
    names2: Seq<Seq<u8>>,
    include_hidden: bool,
)
    requires
        names1.to_multiset() == names2.to_multiset(),
    ensures
        kept_names(names1, include_hidden).to_multiset()
            == kept_names(names2, include_hidden).to_multiset(),
{
    lemma_filter_to_multiset(names1, keep_pred(include_hidden));
    lemma_filter_to_multiset(names2, keep_pred(include_hidden));
}

/// A child task of directory `dir` named `name`.
pub open spec fn is_child_task_of(t: Task, dir: EntryPath, name: Seq<u8>) -> bool {
    &&& t is Child
    &&& task_path(t).base@ == dir.base@
    &&& task_path(t).rel.deep_view() == dir.rel.deep_view().push(name)
}

/// The traversal state: the registry being filled, the policy switches,
/// and the stack of pending work. The top of the stack is the next task.
pub struct Walk {
    /// The registry the walk fills.
    pub registry: Registry,
    /// Whether hidden entries discovered during descent are processed.
    pub include_hidden: bool,
    /// Diagnostics are emitted only when this is not negative.
    pub verbosity: i64,
    /// Pending work; the last element is examined next.
    pub stack: Vec<Task>,
}

impl Walk {
    /// The machine invariant: the registry is well formed, and — when
    /// hidden entries are excluded — neither a pending task nor a
    /// registered entry carries a hidden segment below its target.
    pub open spec fn inv(self) -> bool {
        &&& self.registry.wf()
        &&& !self.include_hidden ==> forall|i: int| 0 <= i < self.registry.entries@.len()
            ==> rel_all_visible(#[trigger] self.registry.entries@[i].path)
        &&& !self.include_hidden ==> forall|i: int| 0 <= i < self.stack@.len()
            ==> task_visible(#[trigger] self.stack@[i])
    }

    /// The machine's configuration is unchanged by a step.
    pub open spec fn same_config(self, other: Walk) -> bool {
        &&& other.include_hidden == self.include_hidden
        &&& other.verbosity == self.verbosity
        &&& other.registry.valid_extensions == self.registry.valid_extensions
    }

    /// A new walk over the given targets, in the order supplied. An empty
    /// target list defaults to the current directory, `.`.
    pub fn new(registry: Registry, targets: Vec<Vec<u8>>, include_hidden: bool, verbosity: i64) -> (r: Walk)
        requires
            registry.wf(),
            registry.entries@.len() == 0,
        ensures
            r.registry == registry,
            r.include_hidden == include_hidden,
            r.verbosity == verbosity,
            r.inv(),
            targets@.len() == 0 ==> r.stack@.len() == 1
                && r.stack@[0] is Target
                && task_target_bytes(r.stack@[0]) == seq![DOT_BYTE],
            targets@.len() > 0 ==> r.stack@.len() == targets@.len()
                && forall|i: int| 0 <= i < targets@.len()
                    ==> (#[trigger] r.stack@[i]) is Target
                        && task_target_bytes(r.stack@[i])
                            == targets.deep_view()[targets@.len() - 1 - i],
    {
        let mut stack: Vec<Task> = Vec::new();
        if targets.len() == 0 {
            let mut dot: Vec<u8> = Vec::new();
            dot.push(DOT_BYTE);
            proof {
                assert(dot@ =~= seq![DOT_BYTE]);
            }
            stack.push(Task::Target(dot));
        } else {
            let mut i: usize = targets.len();
            while i > 0
                invariant
                    i <= targets@.len(),
                    stack@.len() == targets@.len() - i,
                    forall|k: int| 0 <= k < stack@.len()
                        ==> (#[trigger] stack@[k]) is Target
                            && task_target_bytes(stack@[k])
                                == targets.deep_view()[targets@.len() - 1 - k],
                decreases i,
            {
                i = i - 1;
                let t = copy_bytes(&targets[i]);
                stack.push(Task::Target(t));
                proof {
                    assert(targets.deep_view()[i as int] == targets@[i as int]@);
                }
            }
        }
        Walk { registry, include_hidden, verbosity, stack }
    }

    /// Whether the walk is finished: nothing is pending.
    pub fn done(&self) -> (r: bool)
        ensures
            r == (self.stack@.len() == 0),
    {
        self.stack.len() == 0
    }

    /// The filesystem question to answer next, or nothing when the walk is
    /// done: stat for the top target (following symbolic links — the
    /// symlink policy applies only to entries discovered during descent),
    /// a listing for the top directory, or a no-follow stat for the top
    /// child.
    pub fn next_request(&self) -> (r: Option<Request>)
        ensures
            r is Some <==> self.stack@.len() > 0,
            r is Some ==> match (self.stack@.last(), r.unwrap()) {
                (Task::Target(t), Request::StatTarget(p)) => p@ == t@,
                (Task::Dir(d), Request::ListDir(p)) => p@ == full_path_spec(d),
                (Task::Child(c), Request::StatChild(p)) => p@ == full_path_spec(c),
                _ => false,
            },
    {
        if self.stack.len() == 0 {
            return None;
        }
        match &self.stack[self.stack.len() - 1] {
            Task::Target(t) => Some(Request::StatTarget(copy_bytes(t))),
            Task::Dir(d) => Some(Request::ListDir(d.full_path())),
            Task::Child(c) => Some(Request::StatChild(c.full_path())),
        }
    }

    /// Whether a diagnostic of any kind may be emitted at all.
    fn reporting(&self) -> (r: bool)
        ensures
            r == (self.verbosity >= 0),
    {
        self.verbosity >= 0
    }

    /// The top target resolved to a regular file: it goes through the
    /// extension filter — hidden-name filtering never applies to an
    /// explicit target — and is registered when it passes.
    pub fn on_target_file(&mut self, modified: u64) -> (r: Option<DiagKind>)
        requires
            old(self).inv(),
            old(self).stack@.len() > 0,
            old(self).stack@.last() is Target,
        ensures
            final(self).inv(),
            old(self).same_config(*final(self)),
            final(self).stack@ == old(self).stack@.drop_last(),
            ({
                let name = final_segment_spec(task_target_bytes(old(self).stack@.last()));
                let exts = old(self).registry.valid_extensions.deep_view();
                &&& admissible(name, exts) ==> {
                    &&& final(self).registry.entries@.len() == old(self).registry.entries@.len() + 1
                    &&& final(self).registry.entries@.drop_last() == old(self).registry.entries@
                    &&& final(self).registry.entries@.last().path.base@
                        == task_target_bytes(old(self).stack@.last())
                    &&& final(self).registry.entries@.last().path.rel.deep_view() == Seq::<Seq<u8>>::empty()
                    &&& final(self).registry.entries@.last().modified == modified
                    &&& r is None
                }
                &&& !admissible(name, exts) ==> {
                    &&& final(self).registry.entries@ == old(self).registry.entries@
                    &&& r == (if undecodable_extension(name) && old(self).verbosity >= 0 {
                        Some(DiagKind::UndecodableExtension)
                    } else {
                        None::<DiagKind>
                    })
                }
            }),
    {
        let task = self.stack.pop().unwrap();
        let target = match task {
            Task::Target(t) => t,
            Task::Dir(d) => d.base,
            Task::Child(c) => c.base,
        };
        let path = EntryPath::for_target(target);
        let outcome = self.registry.add_file(path, modified);
        proof {
            assert(self.stack@ =~= old(self).stack@.drop_last());
        }
        match outcome {
            AddOutcome::Added => {
                proof {
                    if !self.include_hidden {
                        assert forall|i: int| 0 <= i < self.registry.entries@.len()
                            implies rel_all_visible(#[trigger] self.registry.entries@[i].path) by {
                            if i < self.registry.entries@.len() - 1 {
                                assert(self.registry.entries@[i]
                                    == old(self).registry.entries@[i]);
                            }
                        }
                    }
                }
                None
            },
            AddOutcome::Rejected => None,
            AddOutcome::Undecodable => {
                if self.reporting() {
                    Some(DiagKind::UndecodableExtension)
                } else {
                    None
                }
            },
        }
    }

    /// The top target resolved to a directory: it is scheduled for a
    /// listing. The target itself is never registered.
    pub fn on_target_dir(&mut self)
        requires
            old(self).inv(),
            old(self).stack@.len() > 0,
            old(self).stack@.last() is Target,
        ensures
            final(self).inv(),
            old(self).same_config(*final(self)),
            final(self).registry == old(self).registry,
            final(self).stack@.len() == old(self).stack@.len(),
            final(self).stack@.drop_last() == old(self).stack@.drop_last(),
            final(self).stack@.last() is Dir,
            task_path(final(self).stack@.last()).base@
                == task_target_bytes(old(self).stack@.last()),
            task_path(final(self).stack@.last()).rel.deep_view() == Seq::<Seq<u8>>::empty(),
    {
        let task = self.stack.pop().unwrap();
        let target = match task {
            Task::Target(t) => t,
            Task::Dir(d) => d.base,
            Task::Child(c) => c.base,
        };
        let path = EntryPath::for_target(target);
        self.stack.push(Task::Dir(path));
        proof {
            assert(final(self).stack@.drop_last() =~= old(self).stack@.drop_last());
        }
    }

    /// The top target resolved to nothing usable — it does not exist, or
    /// is some special file: it is dropped silently, as targets are.
    pub fn on_target_other(&mut self)
        requires
            old(self).inv(),
            old(self).stack@.len() > 0,
            old(self).stack@.last() is Target,
        ensures
            final(self).inv(),
            old(self).same_config(*final(self)),
            final(self).registry == old(self).registry,
            final(self).stack@ == old(self).stack@.drop_last(),
    {
        let _ = self.stack.pop();
    }

    /// The top directory was listed: each entry whose name survives the
    /// hidden-name policy is scheduled for examination, in listing order;
    /// a name beginning with a dot is skipped unless hidden entries are
    /// included. The directory itself is never registered.
    pub fn on_dir_listing(&mut self, names: Vec<Vec<u8>>)
        requires
            old(self).inv(),
            old(self).stack@.len() > 0,
            old(self).stack@.last() is Dir,
        ensures
            final(self).inv(),
            old(self).same_config(*final(self)),
            final(self).registry == old(self).registry,
            ({
                let dir = task_path(old(self).stack@.last());
                let pushed = pushed_names(names.deep_view(), 0, old(self).include_hidden);
                let base_len = old(self).stack@.len() - 1;
                &&& final(self).stack@.len() == base_len + pushed.len()
                &&& final(self).stack@.subrange(0, base_len as int) == old(self).stack@.drop_last()
                &&& forall|k: int| 0 <= k < pushed.len()
                    ==> is_child_task_of(#[trigger] final(self).stack@[base_len + k], dir, pushed[k])
            }),
    {
        let task = self.stack.pop().unwrap();
        let dir = match task {
            Task::Target(t) => EntryPath::for_target(t),
            Task::Dir(d) => d,
            Task::Child(c) => c,
        };
        let ghost base = self.stack@;
        let ghost nv = names.deep_view();
        let mut i: usize = names.len();
        proof {
            assert(pushed_names(nv, i as int, self.include_hidden) =~= Seq::<Seq<u8>>::empty());
        }
        while i > 0
            invariant
                i <= names@.len(),
                nv == names.deep_view(),
                nv.len() == names@.len(),
                self.registry == old(self).registry,
                self.include_hidden == old(self).include_hidden,
                self.verbosity == old(self).verbosity,
                self.stack@.len() == base.len() + pushed_names(nv, i as int, self.include_hidden).len(),
                self.stack@.subrange(0, base.len() as int) == base,
                forall|k: int| 0 <= k < pushed_names(nv, i as int, self.include_hidden).len()
                    ==> is_child_task_of(#[trigger] self.stack@[base.len() + k], dir,
                        pushed_names(nv, i as int, self.include_hidden)[k]),
                !self.include_hidden ==> rel_all_visible(dir),
                !self.include_hidden ==> forall|k: int| 0 <= k < self.stack@.len()
                    ==> task_visible(#[trigger] self.stack@[k]),
            decreases i,
        {
            i = i - 1;
            let ghost before = pushed_names(nv, i as int + 1, self.include_hidden);
            let name = &names[i];
            proof {
                assert(nv[i as int] == names@[i as int]@);
            }
            if self.include_hidden || !is_hidden_name(name) {
                let child = dir.child(name);
                proof {
                    if !self.include_hidden {
                        assert forall|k: int| 0 <= k < child.rel.deep_view().len()
                            implies !is_hidden_name_spec(#[trigger] child.rel.deep_view()[k]) by {
                            if k < dir.rel.deep_view().len() {
                                assert(child.rel.deep_view()[k] == dir.rel.deep_view()[k]);
                            } else {
                                assert(child.rel.deep_view()[k] == name@);
                            }
                        }
                    }
                }
                self.stack.push(Task::Child(child));
                proof {
                    assert(pushed_names(nv, i as int, self.include_hidden)
                        =~= before + seq![nv[i as int]]);
                    assert(self.stack@.subrange(0, base.len() as int) =~= base);
                    assert forall|k: int| 0 <= k < pushed_names(nv, i as int, self.include_hidden).len()
                        implies is_child_task_of(#[trigger] self.stack@[base.len() + k], dir,
                            pushed_names(nv, i as int, self.include_hidden)[k]) by {
                        if k < before.len() {
                            assert(self.stack@[base.len() + k]
                                == self.stack@.drop_last()[base.len() + k]);
                        } else {
                            assert(self.stack@[base.len() + k] == self.stack@.last());
                        }
                    }
                }
            } else {
                proof {
                    assert(pushed_names(nv, i as int, self.include_hidden) =~= before);
                }
            }
        }
    }

    /// The top directory could not be listed: it is skipped, the walk goes
    /// on, and the failure is reported when the verbosity allows.
    pub fn on_dir_error(&mut self) -> (r: Option<DiagKind>)
        requires
            old(self).inv(),
            old(self).stack@.len() > 0,
            old(self).stack@.last() is Dir,
        ensures
            final(self).inv(),
            old(self).same_config(*final(self)),
            final(self).registry == old(self).registry,
            final(self).stack@ == old(self).stack@.drop_last(),
            r == (if old(self).verbosity >= 0 {
                Some(DiagKind::DirUnreadable)
            } else {
                None::<DiagKind>
            }),
    {
        let _ = self.stack.pop();
        if self.reporting() {
            Some(DiagKind::DirUnreadable)
        } else {
            None
        }
    }

    /// The top child is a regular file: it goes through the extension
    /// filter and is registered when it passes.
    pub fn on_child_file(&mut self, modified: u64) -> (r: Option<DiagKind>)
        requires
            old(self).inv(),
            old(self).stack@.len() > 0,
            old(self).stack@.last() is Child,
        ensures
            final(self).inv(),
            old(self).same_config(*final(self)),
            final(self).stack@ == old(self).stack@.drop_last(),
            ({
                let p = task_path(old(self).stack@.last());
                let exts = old(self).registry.valid_extensions.deep_view();
                &&& admissible(file_name_spec(p), exts) ==> {
                    &&& final(self).registry.entries@
                        == old(self).registry.entries@.push((Entry { path: p, modified }))
                    &&& r is None
                }
                &&& !admissible(file_name_spec(p), exts) ==> {
                    &&& final(self).registry.entries@ == old(self).registry.entries@
                    &&& r == (if undecodable_extension(file_name_spec(p)) && old(self).verbosity >= 0 {
                        Some(DiagKind::UndecodableExtension)
                    } else {
                        None::<DiagKind>
                    })
                }
            }),
    {
        let task = self.stack.pop().unwrap();
        let path = match task {
            Task::Target(t) => EntryPath::for_target(t),
            Task::Dir(d) => d,
            Task::Child(c) => c,
        };
        let outcome = self.registry.add_file(path, modified);
        proof {
            assert(self.stack@ =~= old(self).stack@.drop_last());
        }
        match outcome {
            AddOutcome::Added => {
                proof {
                    if !self.include_hidden {
                        assert forall|i: int| 0 <= i < self.registry.entries@.len()
                            implies rel_all_visible(#[trigger] self.registry.entries@[i].path) by {
                            if i < self.registry.entries@.len() - 1 {
                                assert(self.registry.entries@[i]
                                    == old(self).registry.entries@[i]);
                            } else {
                                assert(self.registry.entries@[i]
                                    == old(self).registry.entries@.push(
                                        (Entry { path: task_path(old(self).stack@.last()), modified }))[i]);
                            }
                        }
                    }
                }
                None
            },
            AddOutcome::Rejected => None,
            AddOutcome::Undecodable => {
                if self.reporting() {
                    Some(DiagKind::UndecodableExtension)
                } else {
                    None
                }
            },
        }
    }

    /// The top child is a directory: it is scheduled for a listing.
    pub fn on_child_dir(&mut self)
        requires
            old(self).inv(),
            old(self).stack@.len() > 0,
            old(self).stack@.last() is Child,
        ensures
            final(self).inv(),
            old(self).same_config(*final(self)),
            final(self).registry == old(self).registry,
            final(self).stack@
                == old(self).stack@.drop_last().push(Task::Dir(task_path(old(self).stack@.last()))),
    {
        let task = self.stack.pop().unwrap();
        let path = match task {
            Task::Target(t) => EntryPath::for_target(t),
            Task::Dir(d) => d,
            Task::Child(c) => c,
        };
        self.stack.push(Task::Dir(path));
    }

    /// The top child is a symbolic link: it is dropped unconditionally —
    /// never registered, never entered — whatever it points to.
    pub fn on_child_symlink(&mut self)
        requires
            old(self).inv(),
            old(self).stack@.len() > 0,
            old(self).stack@.last() is Child,
        ensures
            final(self).inv(),
            old(self).same_config(*final(self)),
            final(self).registry == old(self).registry,
            final(self).stack@ == old(self).stack@.drop_last(),
    {
        let _ = self.stack.pop();
    }

    /// The top child is neither a regular file, a directory nor a symbolic
    /// link — a device, socket or similar: it is ignored silently.
    pub fn on_child_other(&mut self)
        requires
            old(self).inv(),
            old(self).stack@.len() > 0,
            old(self).stack@.last() is Child,
        ensures
            final(self).inv(),
            old(self).same_config(*final(self)),
            final(self).registry == old(self).registry,
            final(self).stack@ == old(self).stack@.drop_last(),
    {
        let _ = self.stack.pop();
    }

    /// The top child's metadata could not be read: it is skipped, and the
    /// failure is reported when the verbosity allows.
    pub fn on_child_error(&mut self) -> (r: Option<DiagKind>)
        requires
            old(self).inv(),
            old(self).stack@.len() > 0,
            old(self).stack@.last() is Child,
        ensures
            final(self).inv(),
            old(self).same_config(*final(self)),
            final(self).registry == old(self).registry,
            final(self).stack@ == old(self).stack@.drop_last(),
            r == (if old(self).verbosity >= 0 {
                Some(DiagKind::ChildUnreadable)
            } else {
                None::<DiagKind>
            }),
    {
        let _ = self.stack.pop();
        if self.reporting() {
            Some(DiagKind::ChildUnreadable)
        } else {
            None
        }
    }

    /// Hands the filled registry over once the walk is done.
    pub fn finish(self) -> (r: Registry)
        ensures
            r == self.registry,
    {
        self.registry
    }
}

} // verus!
