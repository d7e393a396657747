//! The library's standing guarantees, stated on their own.
//!
//! Each lemma here restates, over the public specification functions, a
//! guarantee that the traversal and the registry maintain. Further
//! guarantees of the same standing live beside the functions they belong
//! to: the symlink policy is the contract of [`crate::walk::Walk::on_child_symlink`],
//! the sort's order and stability are the contract of
//! [`crate::sort::sort_spec`] via [`crate::registry::Registry`]'s sort, the
//! quoting round trip is [`crate::quoting::lemma_quote_round_trip`], and
//! separator exactness is [`crate::output::lemma_separator_exactness`].

use vstd::prelude::*;
use crate::paths::file_name_spec;
use crate::paths::rel_all_visible;
use crate::registry::Registry;
use crate::registry::admissible;
use crate::walk::Walk;

verus! {

/// Every entry a well-formed registry holds was admitted by the extension
/// filter: its file name has an extension, the extension is valid text,
/// and the extension is a member of the configured set — compared exactly,
/// byte for byte, case-sensitively, without a leading dot.
pub proof fn lemma_all_entries_admitted(r: Registry)
    requires
        r.wf(),
    ensures
        forall|i: int| 0 <= i < r.entries@.len()
            ==> admissible(file_name_spec(#[trigger] r.entries@[i].path), r.valid_extensions.deep_view()),
{
}

/// With hidden entries excluded, no entry the walk has registered carries
/// a path segment beginning with a dot below its target — at any depth.
/// Only the explicitly supplied target itself escapes the hidden-name
/// policy.
pub proof fn lemma_no_hidden_entries(w: Walk)
    requires
        w.inv(),
        !w.include_hidden,
    ensures
        forall|i: int| 0 <= i < w.registry.entries@.len()
            ==> rel_all_visible(#[trigger] w.registry.entries@[i].path),
{
}

} // verus!
