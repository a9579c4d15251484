use filetree_mdx::order::{path_precedes, same_text};

#[test]
fn first_difference_decides() {
    assert!(path_precedes("abc", "abd"));
    assert!(!path_precedes("abd", "abc"));
    assert!(path_precedes("Zebra", "apple"));
}

#[test]
fn prefix_sorts_before_longer_path() {
    assert!(path_precedes("a", "a/b"));
    assert!(!path_precedes("a/b", "a"));
    assert!(path_precedes("", "a"));
    assert!(!path_precedes("a", ""));
}

#[test]
fn nested_path_sorts_before_later_sibling() {
    assert!(path_precedes("a/z", "b"));
    assert!(!path_precedes("b", "a/z"));
}

#[test]
fn path_never_precedes_itself() {
    assert!(!path_precedes("", ""));
    assert!(!path_precedes("src/lib.rs", "src/lib.rs"));
}

#[test]
fn order_agrees_with_string_comparison() {
    let samples = [
        "",
        "a",
        "a-b",
        "a/b",
        "a/b.txt",
        "a0",
        "b",
        "B",
        ".git",
        ".gitignore",
        "é",
        "z",
        "日本語",
        "\u{ffff}",
        "\u{10000}",
        "a\u{e9}",
        "a\u{65}\u{301}",
    ];
    for a in samples {
        for b in samples {
            assert_eq!(path_precedes(a, b), a < b, "{:?} against {:?}", a, b);
        }
    }
}

#[test]
fn any_two_paths_are_equal_or_ordered_one_way() {
    let samples = ["", "a", "a/b", "ab", "b", "é"];
    for a in samples {
        for b in samples {
            let ways = [same_text(a, b), path_precedes(a, b), path_precedes(b, a)];
            assert_eq!(ways.iter().filter(|&&way| way).count(), 1);
        }
    }
}

#[test]
fn same_text_tells_equal_from_unequal() {
    assert!(same_text("", ""));
    assert!(same_text(".git", ".git"));
    assert!(!same_text(".git", ".gi"));
    assert!(!same_text(".gi", ".git"));
    assert!(!same_text(".git", ".giT"));
    assert!(!same_text("a", ""));
}
