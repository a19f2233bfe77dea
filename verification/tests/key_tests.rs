use rbtree_db::key::{compare_str, KeyComparison, OrderedKey};

#[test]
fn strings_compare_by_characters() {
    assert_eq!(compare_str("ana", "bruno"), KeyComparison::Less);
    assert_eq!(compare_str("bruno", "ana"), KeyComparison::Greater);
    assert_eq!(compare_str("ana", "ana"), KeyComparison::Equal);
    assert_eq!(compare_str("an", "ana"), KeyComparison::Less);
    assert_eq!(compare_str("", "a"), KeyComparison::Less);
    assert_eq!(compare_str("Z", "a"), KeyComparison::Less);
    assert_eq!(compare_str("é", "z"), KeyComparison::Greater);
}

#[test]
fn string_keys_order_as_std_does() {
    let words = ["", "a", "ab", "B", "b", "ção", "çã", "zz", "€", "a\u{0}"];
    for x in words {
        for y in words {
            let (a, b) = (x.to_string(), y.to_string());
            let expected = match a.cmp(&b) {
                std::cmp::Ordering::Less => KeyComparison::Less,
                std::cmp::Ordering::Equal => KeyComparison::Equal,
                std::cmp::Ordering::Greater => KeyComparison::Greater,
            };
            assert_eq!(a.compare(&b), expected);
        }
    }
}

#[test]
fn integer_keys_compare() {
    assert_eq!(3i32.compare(&4), KeyComparison::Less);
    assert_eq!((-3i32).compare(&-3), KeyComparison::Equal);
    assert_eq!(i32::MAX.compare(&i32::MIN), KeyComparison::Greater);
}
