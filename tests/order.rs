use light_river::order::{bytes_lt, label_less};

#[test]
fn labels_order_as_strings() {
    let pairs = [("ant", "cat"), ("a", "ab"), ("", "a"), ("B", "a"), ("z", "é"), ("ab", "ab")];
    for (a, b) in pairs {
        assert_eq!(label_less(&a.to_string(), &b.to_string()), a < b);
        assert_eq!(label_less(&b.to_string(), &a.to_string()), b < a);
    }
    assert!(bytes_lt(&[1, 2], &[1, 3]));
    assert!(!bytes_lt(&[1, 3], &[1, 2, 0]));
    assert!(!bytes_lt(&[], &[]));
}
