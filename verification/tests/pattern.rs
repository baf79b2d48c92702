use cord::pattern::Pattern;

#[test]
fn test_ord_equal() {
    assert_eq!(Pattern::new("/a"), Pattern::new("/a"));
}

#[test]
fn test_ord_unequal() {
    assert!(!Pattern::new("/a/b").contains(&Pattern::new("/ab")))
}

#[test]
fn test_ord_greater() {
    assert!(Pattern::new("/a").contains(&Pattern::new("/a/b")))
}

#[test]
fn test_ord_less() {
    assert!(!Pattern::new("/a/b").contains(&Pattern::new("/a")))
}

#[test]
fn contains_is_reflexive() {
    let p = Pattern::new("/users/admin");
    assert!(p.contains(&p.clone()));
}

#[test]
fn contains_is_transitive() {
    let a = Pattern::new("/a");
    let b = Pattern::new("/a/b");
    let c = Pattern::new("/a/b/c");
    assert!(a.contains(&b) && b.contains(&c) && a.contains(&c));
}

#[test]
fn contains_needs_a_separator() {
    assert!(!Pattern::new("/a").contains(&Pattern::new("/abc")));
    assert!(Pattern::new("/a").contains(&Pattern::new("/a/")));
}

#[test]
fn contains_reads_the_character_at_the_byte_length() {
    // "é" takes two bytes, so the character at index 2 of the inner
    // pattern is checked for the separator.
    assert!(Pattern::new("é").contains(&Pattern::new("éx/")));
    assert!(!Pattern::new("é").contains(&Pattern::new("é/x")));
}

#[test]
fn empty_pattern_contains_only_rooted_paths() {
    assert!(Pattern::new("").contains(&Pattern::new("/a")));
    assert!(!Pattern::new("").contains(&Pattern::new("a")));
}

#[test]
fn pattern_text_and_length() {
    let p = Pattern::new("/ab");
    assert_eq!(p.as_str(), "/ab");
    assert_eq!(p.len(), 3);
    assert_eq!(Pattern::from_string(String::from("/x")), Pattern::new("/x"));
}
