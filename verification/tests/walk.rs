use filetree_mdx::listing::EntryKind;
use filetree_mdx::walk::{admits, generate_tree, TreeError, Visit};

fn file(path: &str) -> Visit {
    Visit::Found { path: path.to_string(), is_dir: false }
}

fn dir(path: &str) -> Visit {
    Visit::Found { path: path.to_string(), is_dir: true }
}

#[test]
fn admits_ordinary_and_hidden_entries() {
    assert!(admits("src", "src"));
    assert!(admits("lib.rs", "src/lib.rs"));
    assert!(admits(".env", ".env"));
    assert!(admits(".github", ".github"));
    assert!(admits("project", ""));
}

#[test]
fn admits_refuses_metadata_directory_by_name() {
    assert!(!admits(".git", ".git"));
    assert!(!admits(".git", "vendor/lib/.git"));
    assert!(!admits(".git", ""));
}

#[test]
fn admits_refuses_paths_beneath_metadata_directory() {
    assert!(!admits("config", ".git/config"));
    assert!(!admits("ab", ".git/objects/ab"));
}

#[test]
fn admits_keeps_names_that_only_resemble_the_metadata_directory() {
    assert!(admits(".gitignore", ".gitignore"));
    assert!(admits(".gi", ".gi"));
    assert!(admits("x.git", "x.git"));
    assert!(admits("config", ".github/config"));
    assert!(admits("config", "a/.gitx/config"));
    assert!(admits(".GIT", ".GIT"));
}

#[test]
fn generate_tree_skips_root_and_unreadable_nodes() {
    let visits = vec![
        Visit::Root,
        file("b.txt"),
        Visit::Unreadable { depth: Some(2) },
        Visit::Unreadable { depth: None },
        dir("a"),
    ];
    let tree = generate_tree(&visits).unwrap();
    assert_eq!(tree.len(), 2);
    assert_eq!(tree.entry(0).path, "a");
    assert_eq!(tree.entry(1).path, "b.txt");
}

#[test]
fn generate_tree_shuts_out_the_metadata_directory() {
    let visits = vec![
        Visit::Root,
        dir(".git"),
        file(".git/config"),
        dir(".git/objects"),
        file("a"),
        dir("vendor"),
        dir("vendor/.git"),
        file(".gitignore"),
    ];
    let tree = generate_tree(&visits).unwrap();
    assert_eq!(tree.len(), 3);
    assert_eq!(tree.entry(0).path, ".gitignore");
    assert_eq!(tree.entry(1).path, "a");
    assert_eq!(tree.entry(2).path, "vendor");
}

#[test]
fn generate_tree_keeps_what_the_traversal_may_enter() {
    let below_root = [
        (".git", ".git"),
        ("config", ".git/config"),
        ("src", "src"),
        ("lib.rs", "src/lib.rs"),
        (".git", "src/.git"),
        (".env", ".env"),
    ];
    let visits: Vec<Visit> = below_root.iter().map(|(_, relative)| file(relative)).collect();
    let tree = generate_tree(&visits).unwrap();
    let listed: Vec<&str> = (0..tree.len()).map(|i| tree.entry(i).path.as_str()).collect();
    for (name, relative) in below_root {
        assert_eq!(listed.contains(&relative), admits(name, relative));
    }
}

#[test]
fn generate_tree_classifies_nodes() {
    let visits = vec![dir("a"), file("a/b.txt")];
    let tree = generate_tree(&visits).unwrap();
    assert_eq!(tree.entry(0).kind, EntryKind::Directory);
    assert_eq!(tree.entry(1).kind, EntryKind::File);
}

#[test]
fn generate_tree_of_nothing_is_empty() {
    assert_eq!(generate_tree(&[]).unwrap().len(), 0);
    assert_eq!(generate_tree(&[Visit::Root]).unwrap().len(), 0);
}

#[test]
fn generate_tree_fails_on_unreadable_root() {
    let visits = vec![Visit::Unreadable { depth: Some(0) }];
    assert_eq!(generate_tree(&visits).unwrap_err(), TreeError::InvalidRootPath);
}

#[test]
fn generate_tree_fails_on_unrelated_path() {
    let visits = vec![Visit::Root, file("a"), Visit::Unrelated, file("b")];
    assert_eq!(generate_tree(&visits).unwrap_err(), TreeError::PathRelativization);
}

#[test]
fn generate_tree_reports_the_first_fault() {
    let visits = vec![Visit::Unrelated, Visit::Unreadable { depth: Some(0) }];
    assert_eq!(generate_tree(&visits).unwrap_err(), TreeError::PathRelativization);
    let visits = vec![Visit::Unreadable { depth: Some(0) }, Visit::Unrelated];
    assert_eq!(generate_tree(&visits).unwrap_err(), TreeError::InvalidRootPath);
}

#[test]
fn generate_tree_later_visit_overwrites_earlier() {
    let visits = vec![file("a"), file("b"), dir("a")];
    let tree = generate_tree(&visits).unwrap();
    assert_eq!(tree.len(), 2);
    assert_eq!(tree.entry(0).path, "a");
    assert_eq!(tree.entry(0).kind, EntryKind::Directory);
}

#[test]
fn generate_tree_lists_every_node_found() {
    let names = ["z", "m/n", "m", "a/b/c", "a/b", "a", ".env"];
    let visits: Vec<Visit> = names.iter().map(|name| file(name)).collect();
    let tree = generate_tree(&visits).unwrap();
    assert_eq!(tree.len(), names.len());
    for name in names {
        assert!((0..tree.len()).any(|i| tree.entry(i).path == name));
    }
}
