use explorer::paths::{components_of, same_path_str};

fn components(p: &str) -> Vec<String> {
    components_of(&p.chars().collect()).into_iter().map(|c| c.into_iter().collect()).collect()
}

#[test]
fn components_as_path_gives_them() {
    assert_eq!(components("/a//b/./c/"), vec!["/", "a", "b", "c"]);
    assert_eq!(components("./a/../b"), vec![".", "a", "..", "b"]);
    assert_eq!(components("a/."), vec!["a"]);
    assert_eq!(components("."), vec!["."]);
    assert_eq!(components("/"), vec!["/"]);
    assert_eq!(components("/./a"), vec!["/", "a"]);
    assert!(components("").is_empty());
}

#[test]
fn same_path_ignores_repeated_slashes_and_dots() {
    assert!(same_path_str("/a//b.png", "/a/b.png"));
    assert!(same_path_str("/a/./b/", "/a/b"));
    assert!(same_path_str("a", "a/."));
    assert!(!same_path_str("./a", "a"));
    assert!(!same_path_str("/a", "a"));
    assert!(!same_path_str("/a/../b", "/b"));
}
