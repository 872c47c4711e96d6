use gix_index::extension::tree::SIGNATURE;
use gix_index::extension::Tree;
use gix_index::hash::ObjectId;

/// A valid tree whose id depends on its name.
fn tree(name: &str, children: Vec<Tree>) -> Tree {
    let mut id = [0; 20];
    id[..name.len()].copy_from_slice(name.as_bytes());
    Tree {
        name: name.into(),
        id: ObjectId::Sha1(id),
        num_entries: Some(children.len() as u32 + 1),
        children,
    }
}

/// A tree with several levels.
fn example() -> Tree {
    tree(
        "",
        vec![
            tree("a", vec![tree("b", vec![tree("c", vec![])]), tree("d", vec![])]),
            tree("b", vec![]),
            tree("bb", vec![tree("x", vec![])]),
            tree("c", vec![]),
        ],
    )
}

fn show(tree: &Tree) -> String {
    format!("{tree:?}")
}

#[test]
fn size_of_tree() {
    let actual = std::mem::size_of::<Tree>();
    let sha1 = 88;
    let sha256_extra = 16;
    let expected = sha1 + sha256_extra;
    assert!(
        actual <= expected,
        "the size of this structure should not change unexpectedly: {actual} <~ {expected}"
    );
}

#[test]
fn signature_is_readable() {
    assert_eq!(&SIGNATURE, b"TREE");
    assert_eq!(&gix_index::extension::fs_monitor::SIGNATURE, b"FSMN");
    assert_eq!(&gix_index::extension::untracked_cache::SIGNATURE, b"UNTR");
}

#[test]
fn root_level_path_invalidates_the_root_only() {
    let before = example();
    let mut root = before.clone();
    assert_eq!(show(&root), show(&before), "a clone is the same");
    root.invalidate_path(b"new-root-file");
    assert_eq!(root.num_entries, None);
    assert_eq!(root.id, before.id);
    assert_eq!(root.name, before.name);
    assert_eq!(root.children.len(), 4);
    for (actual, expected) in root.children.iter().zip(&before.children) {
        assert_eq!(show(actual), show(expected), "siblings remain valid");
    }
}

#[test]
fn ancestors_are_invalidated_and_siblings_remain() {
    let before = example();
    let mut root = before.clone();
    root.invalidate_path(b"a/b/file");
    assert_eq!(root.num_entries, None);
    let a = &root.children[0];
    assert_eq!((a.num_entries, a.id), (None, before.children[0].id));
    let b = &a.children[0];
    assert_eq!((b.name.as_slice(), b.num_entries), (&b"b"[..], None));
    assert_eq!(show(&b.children[0]), show(&before.children[0].children[0].children[0]));
    assert_eq!(show(&a.children[1]), show(&before.children[0].children[1]));
    for index in 1..4 {
        assert_eq!(show(&root.children[index]), show(&before.children[index]));
    }
}

#[test]
fn directory_that_is_named_is_removed() {
    let before = example();
    for (path, position) in [("a", 0), ("b", 1), ("bb", 2), ("c", 3)] {
        let mut root = before.clone();
        root.invalidate_path(path.as_bytes());
        assert_eq!(root.num_entries, None);
        let mut expected = before.clone();
        expected.num_entries = None;
        expected.children.remove(position);
        assert_eq!(show(&root), show(&expected), "{path}");
    }

    let mut root = before.clone();
    root.invalidate_path(b"a/b");
    assert_eq!(root.children[0].num_entries, None);
    assert_eq!(root.children[0].children.len(), 1);
    assert_eq!(show(&root.children[0].children[0]), show(&before.children[0].children[1]));
}

#[test]
fn unknown_directories_stop_the_search() {
    let before = example();
    let mut root = before.clone();
    root.invalidate_path(b"a/unknown/b/c");
    let mut expected = before.clone();
    expected.num_entries = None;
    expected.children[0].num_entries = None;
    assert_eq!(show(&root), show(&expected));

    let mut root = before.clone();
    root.invalidate_path(b"unknown/b");
    let mut expected = before;
    expected.num_entries = None;
    assert_eq!(show(&root), show(&expected));
}

#[test]
fn separators_may_lead_or_trail() {
    let mut root = tree("", vec![tree("", vec![]), tree("a", vec![tree("", vec![])])]);
    root.invalidate_path(b"a/");
    assert_eq!(root.children[1].num_entries, None);
    assert_eq!(root.children[1].children.len(), 0, "the empty name is that of a child");
    root.invalidate_path(b"/x");
    assert_eq!(root.children[0].num_entries, None);
    root.invalidate_path(b"");
    assert_eq!(root.children.len(), 1);
}

#[test]
fn invalidation_twice_changes_nothing_more() {
    for path in ["a", "a/b", "a/b/c", "bb/x", "new"] {
        let mut once = example();
        once.invalidate_path(path.as_bytes());
        let mut twice = once.clone();
        twice.invalidate_path(path.as_bytes());
        assert_eq!(show(&once), show(&twice), "{path}");
    }
}

#[test]
fn invalidated_tree_extension_roundtrips_with_unaffected_subtrees() {
    let mut actual_tree = tree("", vec![tree("d", vec![tree("e", vec![])]), tree("f", vec![])]);
    let original_child = actual_tree.children.iter().find(|child| child.name.as_slice() == b"d").cloned();
    assert!(original_child.is_some(), "there is a reusable directory subtree");
    assert!(actual_tree.num_entries.is_some());

    actual_tree.invalidate_path(b"new-root-file");
    assert_eq!(
        actual_tree.num_entries, None,
        "changing a root-level path must invalidate the existing root cache-tree"
    );
    let actual_child = actual_tree.children.iter().find(|child| child.name.as_slice() == b"d");
    assert_eq!(
        actual_child.map(show),
        original_child.as_ref().map(show),
        "valid unaffected subtrees must survive without losing their object IDs"
    );
}

#[test]
fn order_of_invalidation_does_not_matter() {
    let paths = ["a", "a/b", "a/b/c", "a/d", "b", "bb/x", "bb", "c", "new", "a/new", ""];
    for path in paths {
        for other in paths {
            let mut one = example();
            one.invalidate_path(path.as_bytes());
            one.invalidate_path(other.as_bytes());
            let mut two = example();
            two.invalidate_path(other.as_bytes());
            two.invalidate_path(path.as_bytes());
            assert_eq!(show(&one), show(&two), "{path} and {other}");
        }
    }
}

/// The amount of directories in `tree`.
fn size(tree: &Tree) -> usize {
    1 + tree.children.iter().map(size).sum::<usize>()
}

#[test]
fn only_the_named_directory_is_lost() {
    for (path, lost) in [("a", 4), ("a/b", 2), ("a/b/c", 1), ("bb", 2), ("a/b/new", 0), ("new", 0)] {
        let mut root = example();
        let before = size(&root);
        root.invalidate_path(path.as_bytes());
        assert_eq!(size(&root) + lost, before, "{path}");
        assert!(root.children.windows(2).all(|pair| pair[0].name < pair[1].name), "the order is kept");
    }
}
