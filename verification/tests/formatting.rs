//! Tests for the sort and the output formatter: order and stability of the
//! modification-time sort, separator placement, shell quoting, and the
//! round trip of quoted records through a real POSIX tokenizer.

use getimages::paths::EntryPath;
use getimages::quoting::quote;
use getimages::registry::Registry;

fn ext_set(exts: &[&str]) -> Vec<Vec<u8>> {
    exts.iter().map(|e| e.as_bytes().to_vec()).collect()
}

fn registry_with(files: &[(&[u8], u64)]) -> Registry {
    let mut reg = Registry::new(ext_set(&["png", "jpg"]));
    for (name, modified) in files {
        let path = EntryPath::for_target(name.to_vec());
        reg.add_file(path, *modified);
    }
    reg
}

fn rendered(reg: &Registry, null_sep: bool, quote: bool) -> Vec<u8> {
    let mut out = Vec::new();
    reg.write_all(&mut out, null_sep, quote);
    out
}

/// Sorting orders entries by ascending modification time.
#[test]
fn sort_orders_by_modification_time() {
    let mut reg = registry_with(&[(b"late.png", 30), (b"early.png", 10), (b"mid.png", 20)]);
    reg.sort_by_modified();
    assert_eq!(
        rendered(&reg, false, false),
        b"early.png\nmid.png\nlate.png\n".to_vec()
    );
}

/// Entries sharing a modification time keep their discovery order: the
/// sort is stable.
#[test]
fn sort_is_stable_for_equal_times() {
    let mut reg = registry_with(&[
        (b"first.png", 7),
        (b"second.png", 7),
        (b"third.png", 7),
        (b"older.png", 3),
    ]);
    reg.sort_by_modified();
    assert_eq!(
        rendered(&reg, false, false),
        b"older.png\nfirst.png\nsecond.png\nthird.png\n".to_vec()
    );
}

/// An entry whose modification time is unknown carries time zero and
/// sorts before everything else.
#[test]
fn unknown_time_sorts_first() {
    let mut reg = registry_with(&[(b"known.png", 5), (b"unknown.png", 0)]);
    reg.sort_by_modified();
    assert_eq!(
        rendered(&reg, false, false),
        b"unknown.png\nknown.png\n".to_vec()
    );
}

/// Without sorting, output keeps pure discovery order.
#[test]
fn no_sort_keeps_discovery_order() {
    let reg = registry_with(&[(b"late.png", 30), (b"early.png", 10)]);
    assert_eq!(
        rendered(&reg, false, false),
        b"late.png\nearly.png\n".to_vec()
    );
}

/// Each record is followed by exactly one separator, the last included,
/// and the separator occurs nowhere else: N entries, N separators.
#[test]
fn one_separator_per_record() {
    let reg = registry_with(&[(b"a.png", 1), (b"b.png", 2), (b"c.png", 3)]);
    let newline = rendered(&reg, false, false);
    assert_eq!(newline.iter().filter(|b| **b == b'\n').count(), 3);
    assert_eq!(newline.last(), Some(&b'\n'));
    let null = rendered(&reg, true, false);
    assert_eq!(null.iter().filter(|b| **b == 0).count(), 3);
    assert_eq!(null.last(), Some(&0u8));
    assert!(!null.contains(&b'\n'));
}

/// An empty registry renders as empty output.
#[test]
fn empty_registry_renders_nothing() {
    let reg = registry_with(&[]);
    assert_eq!(rendered(&reg, false, false), Vec::<u8>::new());
}

/// A path with an embedded space is quoted as one single-quoted word.
#[test]
fn embedded_space_is_quoted() {
    let reg = registry_with(&[(b"weird name.png", 1)]);
    assert_eq!(
        rendered(&reg, false, true),
        b"'weird name.png'\n".to_vec()
    );
}

/// Null-separated quoted output: the record, then NUL.
#[test]
fn quoted_with_null_separator() {
    let reg = registry_with(&[(b"weird name.png", 1)]);
    assert_eq!(
        rendered(&reg, true, true),
        b"'weird name.png'\0".to_vec()
    );
}

/// Quoting wraps in single quotes and escapes embedded single quotes.
#[test]
fn quote_escapes_single_quotes() {
    let q = quote(&b"it's.png".to_vec());
    assert_eq!(q, b"'it'\\''s.png'".to_vec());
}

/// Feeding a quoted record through a real POSIX-shell tokenizer
/// reproduces the original path exactly — spaces, quotes, backslashes,
/// globs and all.
#[test]
fn quoted_records_round_trip_through_shlex() {
    let cases: &[&[u8]] = &[
        b"plain.png",
        b"weird name.png",
        b"it's.png",
        b"back\\slash.png",
        b"two  spaces.png",
        b"tab\there.png",
        b"new\nline.png",
        b"quote'and\"double.png",
        b"glob*?.png",
        b"$dollar `tick`.png",
        b"",
    ];
    for case in cases {
        let q = quote(&case.to_vec());
        let text = String::from_utf8(q).expect("quoted ASCII-extended text");
        let words = shlex::split(&text).expect("quoted form must tokenize");
        assert_eq!(words.len(), 1, "one word for {:?}", text);
        assert_eq!(words[0].as_bytes(), *case);
    }
}

/// The registry survives a sort-then-render pipeline unchanged in content:
/// the same paths come out, reordered only.
#[test]
fn sort_loses_no_entry() {
    let mut reg = registry_with(&[(b"c.png", 3), (b"a.png", 1), (b"b.png", 2)]);
    reg.sort_by_modified();
    let out = rendered(&reg, false, false);
    let mut lines: Vec<&[u8]> = out.split(|b| *b == b'\n').filter(|s| !s.is_empty()).collect();
    lines.sort();
    assert_eq!(lines, vec![&b"a.png"[..], &b"b.png"[..], &b"c.png"[..]]);
}
