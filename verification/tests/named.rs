use blindcoder::named::Named;

#[test]
fn names_stand_once_in_ascending_order() {
    let list = [("b", 1), ("a", 2), ("c", 3), ("a", 4), ("", 5), ("ab", 6), ("b", 7)];
    let named = Named::from_pairs(list.iter().map(|(n, v)| (n.to_string(), *v)).collect());
    let pairs: Vec<(&str, i32)> = named.pairs().iter().map(|(n, v)| (n.as_str(), *v)).collect();
    assert_eq!(pairs, [("", 5), ("a", 4), ("ab", 6), ("b", 7), ("c", 3)]);
    let map: std::collections::BTreeMap<&str, i32> = list.into_iter().collect();
    assert_eq!(pairs, map.into_iter().collect::<Vec<_>>());
    assert_eq!(named.get("a"), Some(&4));
    assert_eq!(named.get("A"), None);
}

#[test]
fn no_pairs_make_no_names() {
    assert!(Named::<bool>::new().pairs().is_empty());
    assert!(Named::<bool>::from_pairs(vec![]).pairs().is_empty());
    assert_eq!(Named::<bool>::new().get(""), None);
}
