use gpm::errors::WalkError;
use gpm::walk::{walk_root, DirEntry, FsNode};

fn dir(entries: Vec<DirEntry>) -> FsNode {
    FsNode::Dir {
        readable: true,
        entries,
    }
}

fn entry(name: &str, node: FsNode) -> DirEntry {
    DirEntry {
        name: name.to_string(),
        node,
    }
}

#[test]
fn walk_collects_one_triple() {
    let root = dir(vec![entry(
        "github.com",
        dir(vec![entry("axetroy", dir(vec![entry("gpm.rs", dir(vec![]))]))]),
    )]);

    let r = walk_root("/home/u/gpm", &root).unwrap();

    assert_eq!(r, vec!["/home/u/gpm/github.com/axetroy/gpm.rs".to_string()]);
}

#[test]
fn walk_two_repositories_in_listing_order() {
    let root = dir(vec![entry(
        "github.com",
        dir(vec![
            entry("another_owner", dir(vec![entry("project", dir(vec![]))])),
            entry("axetroy", dir(vec![entry("gpm.rs", dir(vec![]))])),
        ]),
    )]);

    let r = walk_root("/w/__test__/gpm", &root).unwrap();

    assert_eq!(
        r,
        vec![
            "/w/__test__/gpm/github.com/another_owner/project".to_string(),
            "/w/__test__/gpm/github.com/axetroy/gpm.rs".to_string(),
        ]
    );
}

#[test]
fn walk_of_empty_root_is_empty() {
    let root = dir(vec![]);

    let r = walk_root("/srv/gpm", &root).unwrap();

    assert_eq!(r, Vec::<String>::new());
}

#[test]
fn file_at_host_level_is_skipped() {
    let root = dir(vec![
        entry("README", FsNode::File),
        entry("github.com", dir(vec![entry("o", dir(vec![entry("r", dir(vec![]))]))])),
    ]);

    let r = walk_root("/srv/gpm", &root).unwrap();

    assert_eq!(r, vec!["/srv/gpm/github.com/o/r".to_string()]);
}

#[test]
fn files_at_owner_and_name_level_are_skipped() {
    let root = dir(vec![entry(
        "h",
        dir(vec![
            entry("stray", FsNode::File),
            entry("o", dir(vec![entry("note.txt", FsNode::File), entry("r", dir(vec![]))])),
        ]),
    )]);

    let r = walk_root("/x", &root).unwrap();

    assert_eq!(r, vec!["/x/h/o/r".to_string()]);
}

#[test]
fn unreadable_root_fails() {
    let root = FsNode::Dir {
        readable: false,
        entries: vec![],
    };

    assert_eq!(walk_root("/srv", &root).unwrap_err(), WalkError::Unreadable);
}

#[test]
fn unreadable_owner_directory_aborts_the_walk() {
    let root = dir(vec![entry(
        "h",
        dir(vec![entry(
            "o",
            FsNode::Dir {
                readable: false,
                entries: vec![],
            },
        )]),
    )]);

    assert_eq!(walk_root("/srv", &root).unwrap_err(), WalkError::Unreadable);
}

#[test]
fn non_directory_root_fails() {
    assert_eq!(
        walk_root("/srv", &FsNode::File).unwrap_err(),
        WalkError::Unreadable
    );
}
