//! Structured paths for discovered filesystem entries.
//!
//! An [`EntryPath`] keeps the user-supplied target it was discovered under
//! (`base`) apart from the relative segments appended while descending
//! directories (`rel`). The flat byte form of the path joins the segments
//! with slashes; keeping them apart lets contracts speak about each segment
//! that the descent appended.

use vstd::prelude::*;
use crate::names::SLASH_BYTE;
use crate::names::final_segment_spec;
use crate::names::is_hidden_name_spec;

verus! {

/// The path of an entry: the target it was found under, and the directory
/// segments appended below that target, in order.
pub struct EntryPath {
    /// The user-supplied target path this entry was discovered under.
    pub base: Vec<u8>,
    /// The names appended while descending below the target, outermost first.
    pub rel: Vec<Vec<u8>>,
}

/// The byte form of relative segments: a slash before each one.
pub open spec fn joined_rel(rel: Seq<Seq<u8>>) -> Seq<u8>
    decreases rel.len(),
{
    if rel.len() == 0 {
        Seq::empty()
    } else {
        joined_rel(rel.drop_last()) + seq![SLASH_BYTE] + rel.last()
    }
}

/// The flat byte form of an entry path: the base, then a slash before each
/// relative segment.
pub open spec fn full_path_spec(p: EntryPath) -> Seq<u8> {
    p.base@ + joined_rel(p.rel.deep_view())
}

/// The file name of an entry path: its innermost relative segment, or the
/// final segment of the base when the path is the target itself.
pub open spec fn file_name_spec(p: EntryPath) -> Seq<u8> {
    if p.rel.deep_view().len() > 0 {
        p.rel.deep_view().last()
    } else {
        final_segment_spec(p.base@)
    }
}

/// Holds when no relative segment of the path is hidden. The base itself is
/// deliberately not constrained: hidden filtering never applies to an
/// explicitly supplied target.
pub open spec fn rel_all_visible(p: EntryPath) -> bool {
    forall|i: int| 0 <= i < p.rel.deep_view().len() ==> !is_hidden_name_spec(#[trigger] p.rel.deep_view()[i])
}

/// Copies a byte vector.
pub fn copy_bytes(src: &Vec<u8>) -> (r: Vec<u8>)
    ensures
        r@ == src@,
{
    let mut out: Vec<u8> = Vec::new();
    let mut j: usize = 0;
    while j < src.len()
        invariant
            j <= src.len(),
            out@ == src@.subrange(0, j as int),
        decreases src.len() - j,
    {
        out.push(src[j]);
        proof {
            assert(out@ =~= src@.subrange(0, j + 1));
        }
        j = j + 1;
    }
    proof {
        assert(out@ =~= src@);
    }
    out
}

/// Appends the bytes of `src` to `dst`.
pub fn append_bytes(dst: &mut Vec<u8>, src: &Vec<u8>)
    ensures
        final(dst)@ == old(dst)@ + src@,
{
    let ghost dst0 = dst@;
    let mut j: usize = 0;
    while j < src.len()
        invariant
            j <= src.len(),
            dst@ == dst0 + src@.subrange(0, j as int),
        decreases src.len() - j,
    {
        dst.push(src[j]);
        proof {
            assert(dst@ =~= dst0 + src@.subrange(0, j + 1));
        }
        j = j + 1;
    }
    proof {
        assert(dst@ =~= dst0 + src@);
    }
}

impl EntryPath {
    /// A path that is a target itself: no relative segments.
    pub fn for_target(base: Vec<u8>) -> (r: EntryPath)
        ensures
            r.base == base,
            r.rel.deep_view() == Seq::<Seq<u8>>::empty(),
            full_path_spec(r) == base@,
    {
        let p = EntryPath { base, rel: Vec::new() };
        proof {
            assert(p.rel.deep_view() =~~= Seq::<Seq<u8>>::empty());
            assert(full_path_spec(p) =~= p.base@);
        }
        p
    }

    /// The path of a child named `name` inside the directory at `self`.
    pub fn child(&self, name: &Vec<u8>) -> (r: EntryPath)
        ensures
            r.base@ == self.base@,
            r.rel.deep_view() == self.rel.deep_view().push(name@),
            file_name_spec(r) == name@,
    {
        let base = copy_bytes(&self.base);
        let mut rel: Vec<Vec<u8>> = Vec::new();
        let mut k: usize = 0;
        while k < self.rel.len()
            invariant
                k <= self.rel.len(),
                rel@.len() == k,
                rel.deep_view() == self.rel.deep_view().subrange(0, k as int),
            decreases self.rel.len() - k,
        {
            let seg = copy_bytes(&self.rel[k]);
            rel.push(seg);
            proof {
                assert(rel.deep_view() =~~= self.rel.deep_view().subrange(0, k + 1));
            }
            k = k + 1;
        }
        proof {
            assert(rel.deep_view() =~~= self.rel.deep_view());
        }
        rel.push(copy_bytes(name));
        let r = EntryPath { base, rel };
        proof {
            assert(r.rel.deep_view() =~~= self.rel.deep_view().push(name@));
        }
        r
    }

    /// The flat byte form of this path.
    pub fn full_path(&self) -> (r: Vec<u8>)
        ensures
            r@ == full_path_spec(*self),
    {
        let mut out = copy_bytes(&self.base);
        let mut k: usize = 0;
        while k < self.rel.len()
            invariant
                k <= self.rel.len(),
                out@ == self.base@ + joined_rel(self.rel.deep_view().subrange(0, k as int)),
            decreases self.rel.len() - k,
        {
            out.push(SLASH_BYTE);
            append_bytes(&mut out, &self.rel[k]);
            proof {
                let pre = self.rel.deep_view().subrange(0, k as int);
                let post = self.rel.deep_view().subrange(0, k + 1);
                assert(post.drop_last() =~= pre);
                assert(post.last() == self.rel.deep_view()[k as int]);
                assert(out@ =~= self.base@ + joined_rel(post));
            }
            k = k + 1;
        }
        proof {
            assert(self.rel.deep_view().subrange(0, self.rel.deep_view().len() as int) =~= self.rel.deep_view());
        }
        out
    }
}

} // verus!
