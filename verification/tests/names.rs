use registry_index::name::PackageName;

#[test]
fn normalizes_case_and_separators() {
    let pn = PackageName::new(&b"Foo.Bar_baz".to_vec()).unwrap();
    assert_eq!(pn.bytes, b"foo-bar-baz".to_vec());
}

#[test]
fn collapses_separator_runs() {
    let pn = PackageName::new(&b"foo-_.bar".to_vec()).unwrap();
    assert_eq!(pn.bytes, b"foo-bar".to_vec());
}

#[test]
fn plain_name_unchanged() {
    let pn = PackageName::new(&b"requests2".to_vec()).unwrap();
    assert_eq!(pn.bytes, b"requests2".to_vec());
}

#[test]
fn rejects_empty_and_bad_spellings() {
    assert!(PackageName::new(&b"".to_vec()).is_none());
    assert!(PackageName::new(&b"-foo".to_vec()).is_none());
    assert!(PackageName::new(&b"foo-".to_vec()).is_none());
    assert!(PackageName::new(&b"foo bar".to_vec()).is_none());
}

#[test]
fn equality_ignores_casing_and_separator_style() {
    let a = PackageName::new(&b"Foo_Bar".to_vec()).unwrap();
    let b = PackageName::new(&b"foo.bar".to_vec()).unwrap();
    assert!(a.eq_name(&b));
    let c = PackageName::new(&b"foobar".to_vec()).unwrap();
    assert!(!a.eq_name(&c));
}
