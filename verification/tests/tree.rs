use filetree_mdx::listing::EntryKind;
use filetree_mdx::tree::Tree;

fn paths(tree: &Tree) -> Vec<String> {
    (0..tree.len()).map(|i| tree.entry(i).path.clone()).collect()
}

#[test]
fn new_tree_is_empty() {
    let tree = Tree::new();
    assert_eq!(tree.len(), 0);
}

#[test]
fn insert_keeps_paths_ascending() {
    let mut tree = Tree::new();
    for path in ["c.txt", "a/b.txt", "a", "b", "a/a"] {
        tree.insert(path.to_string(), EntryKind::File);
    }
    assert_eq!(paths(&tree), ["a", "a/a", "a/b.txt", "b", "c.txt"]);
}

#[test]
fn insert_overwrites_kind_of_known_path() {
    let mut tree = Tree::new();
    tree.insert("a".to_string(), EntryKind::File);
    tree.insert("b".to_string(), EntryKind::File);
    tree.insert("a".to_string(), EntryKind::Directory);
    assert_eq!(tree.len(), 2);
    assert_eq!(tree.entry(0).path, "a");
    assert_eq!(tree.entry(0).kind, EntryKind::Directory);
    assert_eq!(tree.entry(1).path, "b");
    assert_eq!(tree.entry(1).kind, EntryKind::File);
}

#[test]
fn entries_sort_by_full_path_not_by_hierarchy() {
    let mut tree = Tree::new();
    tree.insert("a/b".to_string(), EntryKind::File);
    tree.insert("a".to_string(), EntryKind::Directory);
    tree.insert("a-b".to_string(), EntryKind::File);
    tree.insert("b".to_string(), EntryKind::File);
    tree.insert("a/z".to_string(), EntryKind::File);
    assert_eq!(paths(&tree), ["a", "a-b", "a/b", "a/z", "b"]);
}

#[test]
fn listing_is_the_same_for_every_insertion_order() {
    let names = ["d", "a", "c/x", "c", "b", "c/a"];
    let mut forward = Tree::new();
    for name in names {
        forward.insert(name.to_string(), EntryKind::File);
    }
    let mut backward = Tree::new();
    for name in names.iter().rev() {
        backward.insert(name.to_string(), EntryKind::File);
    }
    assert_eq!(paths(&forward), paths(&backward));
    assert_eq!(paths(&forward), ["a", "b", "c", "c/a", "c/x", "d"]);
}

#[test]
fn listing_order_is_that_of_string_comparison() {
    let mut tree = Tree::new();
    for name in ["é", "z", "a", "B", ".env", "日本", "a/é", "a/b"] {
        tree.insert(name.to_string(), EntryKind::File);
    }
    let listed = paths(&tree);
    let mut sorted = listed.clone();
    sorted.sort();
    assert_eq!(listed, sorted);
    for i in 0..listed.len() {
        for j in 0..listed.len() {
            assert_eq!(i < j, listed[i] < listed[j]);
        }
    }
}
