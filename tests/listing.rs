use nodedir::listing::sort_names;

fn names(v: &[&str]) -> Vec<Vec<u8>> {
    v.iter().map(|s| s.as_bytes().to_vec()).collect()
}

#[test]
fn listing_order_does_not_matter() {
    let a = sort_names(names(&["edon-test-c", "@scope", "edon-test-a", "b"]));
    let b = sort_names(names(&["b", "edon-test-a", "@scope", "edon-test-c"]));
    assert_eq!(a, names(&["@scope", "b", "edon-test-a", "edon-test-c"]));
    assert_eq!(a, b);
}

#[test]
fn listing_edge_cases() {
    assert_eq!(sort_names(vec![]), Vec::<Vec<u8>>::new());
    assert_eq!(sort_names(names(&["x", "x", "a"])), names(&["a", "x"]));
    assert_eq!(sort_names(names(&["ab", "a", ""])), names(&["", "a", "ab"]));
}
