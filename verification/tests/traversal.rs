//! Scenario tests for the traversal engine: hidden-entry policy, symlink
//! policy, extension filtering, defaulting of the target list, and the
//! verbosity gate on diagnostics.

use getimages::registry::{AddOutcome, Registry};
use getimages::walk::{DiagKind, Request, Walk};

fn ext_set(exts: &[&str]) -> Vec<Vec<u8>> {
    exts.iter().map(|e| e.as_bytes().to_vec()).collect()
}

fn names(ns: &[&[u8]]) -> Vec<Vec<u8>> {
    ns.iter().map(|n| n.to_vec()).collect()
}

fn paths_of(reg: &Registry) -> Vec<Vec<u8>> {
    let mut out = Vec::new();
    let mut i = 0;
    while i < reg.entries.len() {
        out.push(reg.entries[i].path.full_path());
        i += 1;
    }
    out
}

/// The request the walk asks next must name this path.
fn expect_request(walk: &Walk) -> Request {
    walk.next_request().expect("walk should not be done")
}

fn assert_stat_child(walk: &Walk, path: &[u8]) {
    match expect_request(walk) {
        Request::StatChild(p) => assert_eq!(p, path.to_vec()),
        _ => panic!("expected a no-follow stat request"),
    }
}

fn assert_list_dir(walk: &Walk, path: &[u8]) {
    match expect_request(walk) {
        Request::ListDir(p) => assert_eq!(p, path.to_vec()),
        _ => panic!("expected a listing request"),
    }
}

fn assert_stat_target(walk: &Walk, path: &[u8]) {
    match expect_request(walk) {
        Request::StatTarget(p) => assert_eq!(p, path.to_vec()),
        _ => panic!("expected a target stat request"),
    }
}

/// A directory holding `a.jpg`, `b.txt`, `.hidden.png` and `sub/c.png`,
/// hidden entries excluded: only `a.jpg` and `sub/c.png` are accepted;
/// `b.txt` fails the extension filter and `.hidden.png` is hidden.
#[test]
fn tree_with_hidden_excluded() {
    let reg = Registry::new(ext_set(&["jpg", "png"]));
    let mut walk = Walk::new(reg, vec![b"root".to_vec()], false, 0);

    assert_stat_target(&walk, b"root");
    walk.on_target_dir();

    assert_list_dir(&walk, b"root");
    walk.on_dir_listing(names(&[b"a.jpg", b"b.txt", b".hidden.png", b"sub"]));

    assert_stat_child(&walk, b"root/a.jpg");
    assert_eq!(walk.on_child_file(5), None);

    assert_stat_child(&walk, b"root/b.txt");
    assert_eq!(walk.on_child_file(3), None);

    assert_stat_child(&walk, b"root/sub");
    walk.on_child_dir();

    assert_list_dir(&walk, b"root/sub");
    walk.on_dir_listing(names(&[b"c.png"]));

    assert_stat_child(&walk, b"root/sub/c.png");
    assert_eq!(walk.on_child_file(1), None);

    assert!(walk.done());
    let reg = walk.finish();
    assert_eq!(paths_of(&reg), vec![b"root/a.jpg".to_vec(), b"root/sub/c.png".to_vec()]);
}

/// The same tree with hidden entries included: `.hidden.png` is accepted
/// too, in listing order.
#[test]
fn tree_with_hidden_included() {
    let reg = Registry::new(ext_set(&["jpg", "png"]));
    let mut walk = Walk::new(reg, vec![b"root".to_vec()], true, 0);

    assert_stat_target(&walk, b"root");
    walk.on_target_dir();
    walk.on_dir_listing(names(&[b"a.jpg", b"b.txt", b".hidden.png", b"sub"]));

    assert_stat_child(&walk, b"root/a.jpg");
    assert_eq!(walk.on_child_file(5), None);
    assert_stat_child(&walk, b"root/b.txt");
    assert_eq!(walk.on_child_file(3), None);
    assert_stat_child(&walk, b"root/.hidden.png");
    assert_eq!(walk.on_child_file(4), None);
    assert_stat_child(&walk, b"root/sub");
    walk.on_child_dir();
    walk.on_dir_listing(names(&[b"c.png"]));
    assert_stat_child(&walk, b"root/sub/c.png");
    assert_eq!(walk.on_child_file(1), None);

    assert!(walk.done());
    let reg = walk.finish();
    assert_eq!(
        paths_of(&reg),
        vec![
            b"root/a.jpg".to_vec(),
            b"root/.hidden.png".to_vec(),
            b"root/sub/c.png".to_vec(),
        ]
    );
}

/// A symbolic link named like a valid image never appears in the results,
/// and a directory reached only through a link is never listed.
#[test]
fn symlink_never_registered_nor_descended() {
    let reg = Registry::new(ext_set(&["png"]));
    let mut walk = Walk::new(reg, vec![b"sub".to_vec()], false, 0);

    walk.on_target_dir();
    walk.on_dir_listing(names(&[b"link.png", b"dirlink", b"real.png"]));

    assert_stat_child(&walk, b"sub/link.png");
    walk.on_child_symlink();

    assert_stat_child(&walk, b"sub/dirlink");
    walk.on_child_symlink();
    // the walk never asks to list the linked directory
    assert_stat_child(&walk, b"sub/real.png");
    assert_eq!(walk.on_child_file(2), None);

    assert!(walk.done());
    let reg = walk.finish();
    assert_eq!(paths_of(&reg), vec![b"sub/real.png".to_vec()]);
}

/// An empty target list defaults to the current directory.
#[test]
fn empty_targets_default_to_current_directory() {
    let reg = Registry::new(ext_set(&["png"]));
    let walk = Walk::new(reg, Vec::new(), false, 0);
    assert_stat_target(&walk, b".");
}

/// Targets are processed in the order supplied; an explicit file target is
/// filtered by extension but never by the hidden-name policy.
#[test]
fn explicit_hidden_target_is_not_hidden_filtered() {
    let reg = Registry::new(ext_set(&["png"]));
    let mut walk = Walk::new(reg, vec![b".hidden.png".to_vec(), b"b.png".to_vec()], false, 0);

    assert_stat_target(&walk, b".hidden.png");
    assert_eq!(walk.on_target_file(9), None);
    assert_stat_target(&walk, b"b.png");
    assert_eq!(walk.on_target_file(8), None);

    assert!(walk.done());
    let reg = walk.finish();
    assert_eq!(paths_of(&reg), vec![b".hidden.png".to_vec(), b"b.png".to_vec()]);
}

/// A target that resolves to nothing usable is ignored silently.
#[test]
fn missing_target_is_ignored() {
    let reg = Registry::new(ext_set(&["png"]));
    let mut walk = Walk::new(reg, vec![b"gone".to_vec(), b"a.png".to_vec()], false, 0);
    walk.on_target_other();
    assert_eq!(walk.on_target_file(1), None);
    let reg = walk.finish();
    assert_eq!(paths_of(&reg), vec![b"a.png".to_vec()]);
}

/// An unreadable directory is skipped, reported when verbosity allows,
/// and the walk continues.
#[test]
fn unreadable_directory_is_skipped_and_reported() {
    let reg = Registry::new(ext_set(&["png"]));
    let mut walk = Walk::new(reg, vec![b"locked".to_vec(), b"ok.png".to_vec()], false, 0);
    walk.on_target_dir();
    assert_eq!(walk.on_dir_error(), Some(DiagKind::DirUnreadable));
    assert_eq!(walk.on_target_file(1), None);
    let reg = walk.finish();
    assert_eq!(paths_of(&reg), vec![b"ok.png".to_vec()]);
}

/// An entry whose metadata cannot be read is skipped and reported.
#[test]
fn unreadable_child_is_skipped_and_reported() {
    let reg = Registry::new(ext_set(&["png"]));
    let mut walk = Walk::new(reg, vec![b"d".to_vec()], false, 0);
    walk.on_target_dir();
    walk.on_dir_listing(names(&[b"broken.png", b"fine.png"]));
    assert_eq!(walk.on_child_error(), Some(DiagKind::ChildUnreadable));
    assert_eq!(walk.on_child_file(1), None);
    let reg = walk.finish();
    assert_eq!(paths_of(&reg), vec![b"d/fine.png".to_vec()]);
}

/// A negative verbosity suppresses every diagnostic; zero emits them.
#[test]
fn verbosity_gates_diagnostics() {
    let reg = Registry::new(ext_set(&["png"]));
    let mut walk = Walk::new(reg, vec![b"d".to_vec(), b"e".to_vec()], false, -1);
    walk.on_target_dir();
    assert_eq!(walk.on_dir_error(), None);
    walk.on_target_dir();
    walk.on_dir_listing(names(&[b"x.png"]));
    assert_eq!(walk.on_child_error(), None);
    assert!(walk.finish().entries.is_empty());
}

/// A file whose extension is not valid UTF-8 is excluded and reported as a
/// decode failure — not silently dropped, and never accepted.
#[test]
fn undecodable_extension_is_reported() {
    let reg = Registry::new(ext_set(&["png"]));
    let mut walk = Walk::new(reg, vec![b"d".to_vec()], false, 0);
    walk.on_target_dir();
    walk.on_dir_listing(names(&[b"bad.\xff\xfe", b"good.png"]));
    assert_eq!(walk.on_child_file(1), Some(DiagKind::UndecodableExtension));
    assert_eq!(walk.on_child_file(2), None);
    let reg = walk.finish();
    assert_eq!(paths_of(&reg), vec![b"d/good.png".to_vec()]);
}

/// The same decode failure is suppressed by a negative verbosity, but the
/// file stays excluded.
#[test]
fn undecodable_extension_suppressed_when_quiet() {
    let reg = Registry::new(ext_set(&["png"]));
    let mut walk = Walk::new(reg, vec![b"d".to_vec()], false, -2);
    walk.on_target_dir();
    walk.on_dir_listing(names(&[b"bad.\xff\xfe"]));
    assert_eq!(walk.on_child_file(1), None);
    assert!(walk.finish().entries.is_empty());
}

/// Devices, sockets and other special entries are ignored silently.
#[test]
fn other_entry_kinds_are_ignored() {
    let reg = Registry::new(ext_set(&["png"]));
    let mut walk = Walk::new(reg, vec![b"d".to_vec()], false, 0);
    walk.on_target_dir();
    walk.on_dir_listing(names(&[b"fifo.png", b"ok.png"]));
    walk.on_child_other();
    assert_eq!(walk.on_child_file(1), None);
    let reg = walk.finish();
    assert_eq!(paths_of(&reg), vec![b"d/ok.png".to_vec()]);
}

/// Extension matching is exact and case-sensitive, on the text after the
/// last dot: no normalization, no leading dot, no multi-part suffixes.
#[test]
fn extension_matching_is_exact() {
    let mut reg = Registry::new(ext_set(&["png", "gz"]));
    let add = |reg: &mut Registry, name: &[u8]| {
        let path = getimages::paths::EntryPath::for_target(name.to_vec());
        reg.add_file(path, 0)
    };
    assert_eq!(add(&mut reg, b"a.png"), AddOutcome::Added);
    assert_eq!(add(&mut reg, b"a.PNG"), AddOutcome::Rejected);
    assert_eq!(add(&mut reg, b"a.pngx"), AddOutcome::Rejected);
    assert_eq!(add(&mut reg, b"archive.tar.gz"), AddOutcome::Added);
    assert_eq!(add(&mut reg, b"noext"), AddOutcome::Rejected);
    assert_eq!(add(&mut reg, b".png"), AddOutcome::Rejected);
    assert_eq!(add(&mut reg, b".hidden.png"), AddOutcome::Added);
    assert_eq!(add(&mut reg, b"trailingdot."), AddOutcome::Rejected);
    assert_eq!(add(&mut reg, b"bad.\xc3"), AddOutcome::Undecodable);
    assert_eq!(reg.entries.len(), 3);
}

/// Running the same event sequence twice from the same configuration
/// yields the same accepted entries: the traversal adds no nondeterminism
/// of its own.
#[test]
fn replaying_the_same_events_gives_the_same_result() {
    let run = || {
        let reg = Registry::new(ext_set(&["png", "jpg"]));
        let mut walk = Walk::new(reg, vec![b"root".to_vec()], false, 0);
        walk.on_target_dir();
        walk.on_dir_listing(names(&[b"a.png", b".skip.png", b"sub", b"b.txt"]));
        walk.on_child_file(7);
        walk.on_child_dir();
        walk.on_dir_listing(names(&[b"deep.jpg"]));
        walk.on_child_file(3);
        walk.on_child_file(9);
        paths_of(&walk.finish())
    };
    let first = run();
    let second = run();
    assert_eq!(first, second);
    assert_eq!(
        first,
        vec![b"root/a.png".to_vec(), b"root/sub/deep.jpg".to_vec()]
    );
}
