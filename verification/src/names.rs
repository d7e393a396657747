//! Byte-level reasoning about file names and path strings.
//!
//! File names are byte sequences as the host filesystem reports them.
//! This module decides whether a name is hidden (leading dot) and extracts
//! the extension of a name: the bytes after the last dot, where a dot in
//! the leading position does not count as an extension separator.

use vstd::prelude::*;

verus! {

/// The byte value of `.`.
pub const DOT_BYTE: u8 = 46;

/// The byte value of `/`.
pub const SLASH_BYTE: u8 = 47;

/// A name is hidden when its first byte is a dot.
pub open spec fn is_hidden_name_spec(name: Seq<u8>) -> bool {
    name.len() > 0 && name[0] == DOT_BYTE
}

/// Decides whether a file name is hidden.
pub fn is_hidden_name(name: &Vec<u8>) -> (r: bool)
    ensures
        r == is_hidden_name_spec(name@),
{
    name.len() > 0 && name[0] == DOT_BYTE
}

/// The index just past the last dot of `name`, provided that dot is not the
/// leading byte; `None` when the name has no such dot and hence no extension.
pub open spec fn extension_start(name: Seq<u8>) -> Option<int>
    decreases name.len(),
{
    if name.len() <= 1 {
        None
    } else if name[name.len() - 1] == DOT_BYTE {
        Some(name.len() as int)
    } else {
        extension_start(name.drop_last())
    }
}

/// The extension of a file name: the bytes after the last dot, where a
/// leading dot does not begin an extension (`.config` has none).
pub open spec fn extension_of_spec(name: Seq<u8>) -> Option<Seq<u8>> {
    match extension_start(name) {
        Some(i) => Some(name.subrange(i, name.len() as int)),
        None => None,
    }
}

/// Finds where the extension of `name` begins.
pub fn find_extension_start(name: &Vec<u8>) -> (r: Option<usize>)
    ensures
        match r {
            Some(i) => extension_start(name@) == Some(i as int) && 1 <= i <= name.len(),
            None => extension_start(name@) is None,
        },
{
    proof {
        assert(name@.subrange(0, name@.len() as int) =~= name@);
    }
    let mut i: usize = name.len();
    while i > 1
        invariant
            i <= name.len(),
            extension_start(name@) == extension_start(name@.subrange(0, i as int)),
        decreases i,
    {
        if name[i - 1] == DOT_BYTE {
            assert(name@.subrange(0, i as int).last() == name@[i - 1]);
            return Some(i);
        }
        i = i - 1;
        proof {
            assert(name@.subrange(0, i + 1).drop_last() =~= name@.subrange(0, i as int));
        }
    }
    None
}

/// Extracts the extension of a file name, if it has one.
pub fn extension_of(name: &Vec<u8>) -> (r: Option<Vec<u8>>)
    ensures
        match r {
            Some(e) => extension_of_spec(name@) == Some(e@),
            None => extension_of_spec(name@) is None,
        },
{
    match find_extension_start(name) {
        None => None,
        Some(start) => {
            let mut ext: Vec<u8> = Vec::new();
            let mut j: usize = start;
            while j < name.len()
                invariant
                    start <= j <= name.len(),
                    ext@ == name@.subrange(start as int, j as int),
                decreases name.len() - j,
            {
                ext.push(name[j]);
                proof {
                    assert(ext@ =~= name@.subrange(start as int, j + 1));
                }
                j = j + 1;
            }
            proof {
                assert(ext@ =~= name@.subrange(start as int, name@.len() as int));
            }
            Some(ext)
        },
    }
}

/// The index where the final path segment of `path` begins: just after the
/// last slash, or zero when the path contains no slash.
pub open spec fn segment_start(path: Seq<u8>) -> int
    decreases path.len(),
{
    if path.len() == 0 {
        0
    } else if path[path.len() - 1] == SLASH_BYTE {
        path.len() as int
    } else {
        segment_start(path.drop_last())
    }
}

/// The final segment of a path string: the bytes after the last slash.
pub open spec fn final_segment_spec(path: Seq<u8>) -> Seq<u8> {
    path.subrange(segment_start(path), path.len() as int)
}

/// Finds where the final path segment of `path` begins.
pub fn find_segment_start(path: &Vec<u8>) -> (r: usize)
    ensures
        segment_start(path@) == r as int,
        r <= path.len(),
{
    proof {
        assert(path@.subrange(0, path@.len() as int) =~= path@);
    }
    let mut i: usize = path.len();
    while i > 0
        invariant
            i <= path.len(),
            segment_start(path@) == segment_start(path@.subrange(0, i as int)),
        decreases i,
    {
        if path[i - 1] == SLASH_BYTE {
            assert(path@.subrange(0, i as int).last() == path@[i - 1]);
            return i;
        }
        i = i - 1;
        proof {
            assert(path@.subrange(0, i + 1).drop_last() =~= path@.subrange(0, i as int));
        }
    }
    proof {
        assert(path@.subrange(0, 0) =~= Seq::<u8>::empty());
    }
    0
}

/// Extracts the final segment of a path string.
pub fn final_segment(path: &Vec<u8>) -> (r: Vec<u8>)
    ensures
        r@ == final_segment_spec(path@),
{
    let start: usize = find_segment_start(path);
    let mut seg: Vec<u8> = Vec::new();
    let mut j: usize = start;
    while j < path.len()
        invariant
            start <= j <= path.len(),
            seg@ == path@.subrange(start as int, j as int),
        decreases path.len() - j,
    {
        seg.push(path[j]);
        proof {
            assert(seg@ =~= path@.subrange(start as int, j + 1));
        }
        j = j + 1;
    }
    proof {
        assert(seg@ =~= final_segment_spec(path@));
    }
    seg
}

} // verus!
