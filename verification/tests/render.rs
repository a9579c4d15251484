use filetree_mdx::render::{generate_filetree_mdx, write_line, write_tree};
use filetree_mdx::listing::EntryKind;
use filetree_mdx::tree::Tree;
use filetree_mdx::walk::{admits, TreeError, Visit};

const HEADER: &str = "import { FileTree } from '@astrojs/starlight/components';\n\n";

fn file(path: &str) -> Visit {
    Visit::Found { path: path.to_string(), is_dir: false }
}

fn dir(path: &str) -> Visit {
    Visit::Found { path: path.to_string(), is_dir: true }
}

fn line_of(path: &str, kind: EntryKind) -> String {
    let mut out = String::new();
    write_line(&mut out, path, kind);
    out
}

fn text_of(visits: &[Visit], include_import: bool) -> String {
    let mut out = String::new();
    generate_filetree_mdx(visits, &mut out, include_import).unwrap();
    out
}

#[test]
fn write_line_file_at_top_level_is_not_indented() {
    assert_eq!(line_of("c.txt", EntryKind::File), "- c.txt\n");
}

#[test]
fn write_line_directory_gets_suffix() {
    assert_eq!(line_of("a", EntryKind::Directory), "- a/\n");
    assert_eq!(line_of("a/b", EntryKind::Directory), "  - b/\n");
}

#[test]
fn write_line_indents_two_spaces_per_separator() {
    assert_eq!(line_of("a/b.txt", EntryKind::File), "  - b.txt\n");
    assert_eq!(line_of("a/b/c.txt", EntryKind::File), "    - c.txt\n");
    assert_eq!(line_of("a/b/c/d/e", EntryKind::File), "        - e\n");
    for levels in 0..6 {
        let path = format!("{}leaf", "d/".repeat(levels));
        let line = line_of(&path, EntryKind::File);
        assert_eq!(line.len() - line.trim_start_matches(' ').len(), 2 * levels);
    }
}

#[test]
fn write_line_appends_to_what_is_there() {
    let mut out = String::from("<FileTree>\n");
    write_line(&mut out, "a", EntryKind::Directory);
    write_line(&mut out, "a/b", EntryKind::File);
    assert_eq!(out, "<FileTree>\n- a/\n  - b\n");
}

#[test]
fn write_line_emits_names_verbatim() {
    assert_eq!(line_of("<b>&amp;.md", EntryKind::File), "- <b>&amp;.md\n");
    assert_eq!(line_of("docs/- [x] *.md", EntryKind::File), "  - - [x] *.md\n");
    assert_eq!(line_of("日本/語", EntryKind::Directory), "  - 語/\n");
}

#[test]
fn write_tree_lists_in_path_order() {
    let mut tree = Tree::new();
    tree.insert("b".to_string(), EntryKind::File);
    tree.insert("a/z".to_string(), EntryKind::File);
    tree.insert("a".to_string(), EntryKind::Directory);
    let mut out = String::new();
    write_tree(&tree, &mut out);
    assert_eq!(out, "- a/\n  - z\n- b\n");
}

#[test]
fn write_tree_of_empty_tree_appends_nothing() {
    let mut out = String::from("kept");
    write_tree(&Tree::new(), &mut out);
    assert_eq!(out, "kept");
}

#[test]
fn nested_file_and_top_level_file() {
    let visits = [Visit::Root, file("c.txt"), dir("a"), file("a/b.txt")];
    assert_eq!(text_of(&visits, false), "<FileTree>\n- a/\n  - b.txt\n- c.txt\n</FileTree>\n");
}

#[test]
fn import_header_opens_the_text_and_changes_nothing_else() {
    let visits = [Visit::Root, file("c.txt"), dir("a"), file("a/b.txt")];
    let with = text_of(&visits, true);
    let without = text_of(&visits, false);
    assert_eq!(with, format!("{}{}", HEADER, without));
    assert_eq!(
        with,
        "import { FileTree } from '@astrojs/starlight/components';\n\n<FileTree>\n- a/\n  - b.txt\n- c.txt\n</FileTree>\n"
    );
}

#[test]
fn root_with_only_metadata_directory_gives_empty_tree() {
    let reported = [Visit::Root, dir(".git"), file(".git/config")];
    assert_eq!(text_of(&reported, false), "<FileTree>\n</FileTree>\n");

    let below_root = [(".git", ".git", true), ("config", ".git/config", false)];
    let mut entered = vec![Visit::Root];
    for (name, relative, is_dir) in below_root {
        if admits(name, relative) {
            entered.push(Visit::Found { path: relative.to_string(), is_dir });
        }
    }
    assert_eq!(entered.len(), 1);
    assert_eq!(text_of(&entered, false), "<FileTree>\n</FileTree>\n");
}

#[test]
fn metadata_directory_is_never_rendered() {
    let visits = [dir(".git"), file(".git/HEAD"), dir("docs"), file("docs/.git"), file("docs/a.md")];
    assert_eq!(text_of(&visits, false), "<FileTree>\n- docs/\n  - a.md\n</FileTree>\n");
}

#[test]
fn empty_traversal_gives_empty_tree() {
    assert_eq!(text_of(&[], false), "<FileTree>\n</FileTree>\n");
    assert_eq!(text_of(&[], true), format!("{}<FileTree>\n</FileTree>\n", HEADER));
}

#[test]
fn second_run_gives_identical_text() {
    let visits = [Visit::Root, dir("src"), file("src/main.rs"), file("README.md"), file(".env")];
    assert_eq!(text_of(&visits, true), text_of(&visits, true));
    assert_eq!(text_of(&visits, false), text_of(&visits, false));
}

#[test]
fn text_does_not_depend_on_visit_order() {
    let one = [Visit::Root, dir("src"), file("src/main.rs"), file("README.md"), file(".env")];
    let other = [file(".env"), file("README.md"), file("src/main.rs"), Visit::Root, dir("src")];
    assert_eq!(text_of(&one, false), text_of(&other, false));
    assert_eq!(text_of(&one, false), "<FileTree>\n- .env\n- README.md\n- src/\n  - main.rs\n</FileTree>\n");
}

#[test]
fn lines_follow_the_order_of_full_paths() {
    let visits = [file("b"), file("a/z"), dir("a"), file("a-b"), dir("a/y"), file("a/y/k")];
    assert_eq!(
        text_of(&visits, false),
        "<FileTree>\n- a/\n- a-b\n  - y/\n    - k\n  - z\n- b\n</FileTree>\n"
    );
}

#[test]
fn failed_run_leaves_the_preamble() {
    let visits = [file("a"), Visit::Unrelated, file("b")];
    let mut out = String::from("before\n");
    let result = generate_filetree_mdx(&visits, &mut out, true);
    assert_eq!(result, Err(TreeError::PathRelativization));
    assert_eq!(out, format!("before\n{}<FileTree>\n", HEADER));

    let visits = [Visit::Unreadable { depth: Some(0) }];
    let mut out = String::new();
    let result = generate_filetree_mdx(&visits, &mut out, false);
    assert_eq!(result, Err(TreeError::InvalidRootPath));
    assert_eq!(out, "<FileTree>\n");
}

#[test]
fn text_is_appended_to_what_is_there() {
    let mut out = String::from("# Layout\n\n");
    generate_filetree_mdx(&[file("a")], &mut out, false).unwrap();
    assert_eq!(out, "# Layout\n\n<FileTree>\n- a\n</FileTree>\n");
}

#[test]
fn duplicate_path_is_listed_once_with_its_last_kind() {
    let visits = [file("a"), dir("a")];
    assert_eq!(text_of(&visits, false), "<FileTree>\n- a/\n</FileTree>\n");
}
