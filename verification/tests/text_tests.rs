use mimirsbrunn::admin::AdminSet;
use mimirsbrunn::street::StreetKey;
use mimirsbrunn::text::{compare_ids, compare_text, decimal_string, Placement};

#[test]
fn decimal_text_of_integers() {
    assert_eq!(decimal_string(0), "0");
    assert_eq!(decimal_string(7), "7");
    assert_eq!(decimal_string(10), "10");
    assert_eq!(decimal_string(1234567890), "1234567890");
    assert_eq!(decimal_string(-1), "-1");
    assert_eq!(decimal_string(-100), "-100");
    assert_eq!(decimal_string(i64::MAX), "9223372036854775807");
    assert_eq!(decimal_string(i64::MIN), "-9223372036854775808");
    for n in [-1001_i64, -99, -10, -9, 9, 11, 99, 100, 101, 4096, 65535] {
        assert_eq!(decimal_string(n), n.to_string());
    }
}

#[test]
fn texts_are_ordered_by_code_point() {
    assert_eq!(compare_text("", ""), Placement::Same);
    assert_eq!(compare_text("", "a"), Placement::Before);
    assert_eq!(compare_text("a", ""), Placement::After);
    assert_eq!(compare_text("Rue", "Rue"), Placement::Same);
    assert_eq!(compare_text("Rue", "Rue de la Paix"), Placement::Before);
    assert_eq!(compare_text("Rue de la Paix", "Rue"), Placement::After);
    assert_eq!(compare_text("Avenue", "Rue"), Placement::Before);
    assert_eq!(compare_text("rue", "Rue"), Placement::After);
    assert_eq!(compare_text("Allée", "Allee"), Placement::After);
    assert_eq!(compare_text("Zoo", "École"), Placement::Before);
    assert_eq!(compare_text("ab", "b"), Placement::Before);
}

#[test]
fn text_order_is_the_order_of_strings() {
    let names = ["", "A", "a", "Rue", "Rue ", "Rue É", "Rue Z", "École", "日本", "~", "\u{10000}"];
    for a in names {
        for b in names {
            let expected = if a < b {
                Placement::Before
            } else if a == b {
                Placement::Same
            } else {
                Placement::After
            };
            assert_eq!(compare_text(a, b), expected);
        }
    }
}

#[test]
fn identifier_lists_are_ordered_lexicographically() {
    assert_eq!(compare_ids(&vec![], &vec![]), Placement::Same);
    assert_eq!(compare_ids(&vec![], &vec![0]), Placement::Before);
    assert_eq!(compare_ids(&vec![1, 2], &vec![1, 2]), Placement::Same);
    assert_eq!(compare_ids(&vec![1, 2], &vec![1, 3]), Placement::Before);
    assert_eq!(compare_ids(&vec![1, 2, 9], &vec![1, 3]), Placement::Before);
    assert_eq!(compare_ids(&vec![2], &vec![1, 3]), Placement::After);
    assert_eq!(compare_ids(&vec![1, 3, 0], &vec![1, 3]), Placement::After);
    assert_eq!(compare_ids(&vec![u64::MAX], &vec![0, u64::MAX]), Placement::After);
}

fn key(name: &str, ids: &[u64]) -> StreetKey {
    let mut admins = AdminSet::new();
    for id in ids {
        admins.insert(*id);
    }
    StreetKey { name: name.to_string(), admins }
}

#[test]
fn street_keys_are_ordered_by_name_then_regions() {
    assert_eq!(key("Rue A", &[5]).compare(&key("Rue B", &[1])), Placement::Before);
    assert_eq!(key("Rue B", &[1]).compare(&key("Rue A", &[5])), Placement::After);
    assert_eq!(key("Rue A", &[1]).compare(&key("Rue A", &[5])), Placement::Before);
    assert_eq!(key("Rue A", &[5, 1]).compare(&key("Rue A", &[1, 5])), Placement::Same);
    assert_eq!(key("Rue A", &[]).compare(&key("Rue A", &[0])), Placement::Before);
    assert_eq!(key("Rue A", &[2]).compare(&key("Rue A", &[1, 3])), Placement::After);
    assert_eq!(key("", &[]).compare(&key("", &[])), Placement::Same);
    assert_eq!(key("Rue A", &[1, 5]), key("Rue A", &[5, 1, 5]));
}
