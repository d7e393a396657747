//! The registry of accepted entries.
//!
//! A [`Registry`] owns the configured extension set and the ordered sequence
//! of accepted `(path, modification time)` pairs. A file is admitted exactly
//! when the extension of its file name is valid text and a member of the
//! extension set; the comparison is on the raw bytes, exact and
//! case-sensitive. A file whose extension is not valid UTF-8 is excluded and
//! the exclusion is distinguished so the caller can report it; a file with
//! no extension is excluded silently.

use vstd::prelude::*;
use crate::names::extension_of_spec;
use crate::names::extension_of;
use crate::paths::EntryPath;
use crate::paths::copy_bytes;
use crate::paths::file_name_spec;
use crate::names::final_segment;
use crate::utf8::utf8_valid;
use crate::utf8::is_utf8;

verus! {

/// An accepted entry: a path and the file's last-modified time, in
/// nanoseconds since the epoch. A time that could not be determined is
/// zero, the earliest possible value.
pub struct Entry {
    /// Where the file was discovered.
    pub path: EntryPath,
    /// Last-modified time; zero when unknown.
    pub modified: u64,
}

/// How `add_file` disposed of a candidate.
#[derive(Debug, PartialEq, Eq, Structural)]
pub enum AddOutcome {
    /// The extension is a member of the set; the entry was appended.
    Added,
    /// No extension, or an extension outside the set; excluded silently.
    Rejected,
    /// The extension is not valid UTF-8 text; excluded, and the exclusion
    /// is reported as a decode failure.
    Undecodable,
}

/// A file name is admissible when it has an extension, the extension is
/// valid text, and the extension is a member of the set.
pub open spec fn admissible(name: Seq<u8>, exts: Seq<Seq<u8>>) -> bool {
    match extension_of_spec(name) {
        Some(e) => utf8_valid(e) && exts.contains(e),
        None => false,
    }
}

/// A file name has an extension that is not valid text.
pub open spec fn undecodable_extension(name: Seq<u8>) -> bool {
    match extension_of_spec(name) {
        Some(e) => !utf8_valid(e),
        None => false,
    }
}

/// The ordered collection of accepted entries.
pub struct Registry {
    /// Accepted entries, in discovery order until sorted.
    pub entries: Vec<Entry>,
    /// The accepted extensions, as raw bytes, without a leading dot.
    pub valid_extensions: Vec<Vec<u8>>,
}

impl Registry {
    /// Every stored entry was admitted by the extension filter.
    pub open spec fn wf(self) -> bool {
        forall|i: int| 0 <= i < self.entries@.len()
            ==> admissible(file_name_spec(#[trigger] self.entries@[i].path), self.valid_extensions.deep_view())
    }

    /// An empty registry over the given extension set.
    pub fn new(valid_extensions: Vec<Vec<u8>>) -> (r: Registry)
        ensures
            r.entries@ == Seq::<Entry>::empty(),
            r.valid_extensions == valid_extensions,
            r.wf(),
    {
        let r = Registry { entries: Vec::new(), valid_extensions };
        proof {
            assert(r.entries@ =~= Seq::<Entry>::empty());
        }
        r
    }

    /// Runs the extension filter on a candidate file and appends it when it
    /// passes: the entry is appended exactly when its file name is
    /// admissible, and an extension that is not valid text is answered with
    /// [`AddOutcome::Undecodable`] so the caller can report it.
    pub fn add_file(&mut self, path: EntryPath, modified: u64) -> (r: AddOutcome)
        requires
            old(self).wf(),
        ensures
            final(self).wf(),
            final(self).valid_extensions == old(self).valid_extensions,
            admissible(file_name_spec(path), old(self).valid_extensions.deep_view()) ==> {
                &&& final(self).entries@ == old(self).entries@.push((Entry { path, modified }))
                &&& r == AddOutcome::Added
            },
            !admissible(file_name_spec(path), old(self).valid_extensions.deep_view()) ==> {
                &&& final(self).entries@ == old(self).entries@
                &&& r == (if undecodable_extension(file_name_spec(path)) {
                    AddOutcome::Undecodable
                } else {
                    AddOutcome::Rejected
                })
            },
    {
        let name = file_name(&path);
        match extension_of(&name) {
            None => AddOutcome::Rejected,
            Some(ext) => {
                if !is_utf8(&ext) {
                    AddOutcome::Undecodable
                } else if ext_in_set(&ext, &self.valid_extensions) {
                    let ghost pre = self.entries@;
                    self.entries.push(Entry { path, modified });
                    proof {
                        assert forall|i: int| 0 <= i < self.entries@.len()
                            implies admissible(file_name_spec(#[trigger] self.entries@[i].path), self.valid_extensions.deep_view()) by {
                            if i < pre.len() {
                                assert(self.entries@[i] == pre[i]);
                            }
                        }
                    }
                    AddOutcome::Added
                } else {
                    AddOutcome::Rejected
                }
            },
        }
    }
}

/// The file name of an entry path: the innermost segment appended during
/// descent, or the final segment of the target itself.
pub fn file_name(p: &EntryPath) -> (r: Vec<u8>)
    ensures
        r@ == file_name_spec(*p),
{
    if p.rel.len() > 0 {
        let r = copy_bytes(&p.rel[p.rel.len() - 1]);
        proof {
            assert(p.rel.deep_view().last() == p.rel@[p.rel@.len() - 1]@);
        }
        r
    } else {
        proof {
            assert(p.rel.deep_view().len() == 0);
        }
        final_segment(&p.base)
    }
}

/// Compares two byte strings for equality.
pub fn bytes_equal(a: &Vec<u8>, b: &Vec<u8>) -> (r: bool)
    ensures
        r == (a@ == b@),
{
    if a.len() != b.len() {
        return false;
    }
    let mut i: usize = 0;
    while i < a.len()
        invariant
            i <= a.len(),
            a@.len() == b@.len(),
            forall|j: int| 0 <= j < i ==> a@[j] == b@[j],
        decreases a.len() - i,
    {
        if a[i] != b[i] {
            return false;
        }
        i = i + 1;
    }
    proof {
        assert(a@ =~= b@);
    }
    true
}

/// Decides membership of an extension in the extension set, comparing the
/// raw bytes exactly.
pub fn ext_in_set(ext: &Vec<u8>, exts: &Vec<Vec<u8>>) -> (r: bool)
    ensures
        r == exts.deep_view().contains(ext@),
{
    let mut i: usize = 0;
    while i < exts.len()
        invariant
            i <= exts.len(),
            forall|j: int| 0 <= j < i ==> exts.deep_view()[j] != ext@,
        decreases exts.len() - i,
    {
        if bytes_equal(&exts[i], ext) {
            proof {
                assert(exts.deep_view()[i as int] == ext@);
            }
            return true;
        }
        proof {
            assert(exts.deep_view()[i as int] == exts@[i as int]@);
        }
        i = i + 1;
    }
    proof {
        assert(exts.deep_view().len() == exts@.len());
        if exts.deep_view().contains(ext@) {
            let j = choose|j: int| 0 <= j < exts.deep_view().len() && exts.deep_view()[j] == ext@;
            assert(false);
        }
    }
    false
}

} // verus!
