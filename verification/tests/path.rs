use filetree_mdx::path::{depth, display_name, join_components, leading_name};

#[test]
fn depth_counts_separators() {
    assert_eq!(depth(""), 0);
    assert_eq!(depth("c.txt"), 0);
    assert_eq!(depth("a/b.txt"), 1);
    assert_eq!(depth("a/b/c/d"), 3);
}

#[test]
fn display_name_is_last_component() {
    assert_eq!(display_name("c.txt"), "c.txt");
    assert_eq!(display_name("a/b.txt"), "b.txt");
    assert_eq!(display_name("a/b/c/d"), "d");
    assert_eq!(display_name(""), "");
}

#[test]
fn leading_name_is_first_component() {
    assert_eq!(leading_name("c.txt"), "c.txt");
    assert_eq!(leading_name("a/b.txt"), "a");
    assert_eq!(leading_name(".git/objects/ab"), ".git");
    assert_eq!(leading_name(""), "");
}

#[test]
fn empty_components_are_kept() {
    assert_eq!(depth("a//b"), 2);
    assert_eq!(display_name("a//b"), "b");
    assert_eq!(leading_name("/a"), "");
    assert_eq!(depth("dir/"), 1);
    assert_eq!(display_name("dir/"), "");
}

#[test]
fn components_are_counted_in_characters() {
    assert_eq!(depth("日本/語"), 1);
    assert_eq!(display_name("日本/語.txt"), "語.txt");
    assert_eq!(leading_name("日本/語.txt"), "日本");
}

#[test]
fn join_components_puts_a_separator_between_components() {
    let parts = ["a".to_string(), "b".to_string(), "c.txt".to_string()];
    assert_eq!(join_components(&parts), "a/b/c.txt");
    assert_eq!(join_components(&["c.txt".to_string()]), "c.txt");
    assert_eq!(join_components(&[]), "");
}

#[test]
fn joined_path_has_the_components_it_was_made_of() {
    let parts = ["src".to_string(), "日本".to_string(), "lib.rs".to_string()];
    let path = join_components(&parts);
    assert_eq!(depth(&path), parts.len() - 1);
    assert_eq!(leading_name(&path), "src");
    assert_eq!(display_name(&path), "lib.rs");
}
