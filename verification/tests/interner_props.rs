use batchopt::interner::Interner;

fn s(x: &str) -> String {
    x.to_string()
}

#[test]
fn intern_is_idempotent() {
    let mut it = Interner::new();
    let first = it.intern(s("tomato"));
    let again = it.intern(s("tomato"));
    assert_eq!(first, again);
    assert_eq!(it.count(), 1);
}

#[test]
fn distinct_labels_get_distinct_tokens() {
    let mut it = Interner::new();
    let a = it.intern(s("a"));
    let b = it.intern(s("b"));
    let c = it.intern(s("c"));
    assert_ne!(a, b);
    assert_ne!(b, c);
    assert_ne!(a, c);
}

#[test]
fn tokens_are_dense_from_one() {
    let mut it = Interner::new();
    assert_eq!(it.intern(s("x")), 1);
    assert_eq!(it.intern(s("y")), 2);
    assert_eq!(it.intern(s("x")), 1);
    assert_eq!(it.intern(s("z")), 3);
    assert_eq!(it.count(), 3);
}

#[test]
fn name_of_inverts_intern() {
    let mut it = Interner::new();
    let a = it.intern(s("basil"));
    let b = it.intern(s("olive"));
    assert_eq!(it.name_of(a).as_str(), "basil");
    assert_eq!(it.name_of(b).as_str(), "olive");
}
