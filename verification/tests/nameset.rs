use ts_bnf_tool::nameset::NameSet;

fn items(s: &NameSet) -> Vec<String> {
    (0..s.len()).map(|i| s.get(i).to_string()).collect()
}

/// Names keep their insertion order; a repeated insert changes nothing.
#[test]
fn nameset_insert_keeps_order_and_skips_repeats() {
    let mut s = NameSet::new();
    assert!(s.is_empty());
    assert!(s.insert("b"));
    assert!(s.insert("a"));
    assert!(!s.insert("b"));
    assert_eq!(items(&s), vec!["b", "a"]);
    assert!(s.contains("a"));
    assert!(!s.contains("c"));
}

/// Removing a name keeps the others in order; removing an absent one
/// changes nothing.
#[test]
fn nameset_remove_keeps_order() {
    let mut s = NameSet::new();
    for n in ["a", "b", "c", "d"] {
        s.insert(n);
    }
    assert!(s.remove("b"));
    assert_eq!(items(&s), vec!["a", "c", "d"]);
    assert!(!s.remove("x"));
    assert_eq!(items(&s), vec!["a", "c", "d"]);
}

/// A copy holds the same names in the same order, and extending adds the
/// missing ones at the end.
#[test]
fn nameset_duplicate_and_extend() {
    let mut s = NameSet::new();
    s.insert("x");
    s.insert("y");
    let d = s.duplicate();
    assert_eq!(items(&d), vec!["x", "y"]);
    let mut t = NameSet::new();
    t.insert("y");
    t.insert("z");
    assert!(s.extend(&t));
    assert_eq!(items(&s), vec!["x", "y", "z"]);
    assert!(!s.extend(&d));
}
