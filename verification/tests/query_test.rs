use sorcerers::query::{NumericFilter, StringFilter, ValueFilter, VecFilter};

#[test]
fn string_filters() {
    assert!(StringFilter::Equals("Pit Vipers".to_string()).matches("Pit Vipers"));
    assert!(!StringFilter::Equals("Pit Vipers".to_string()).matches("Pit Viper"));
    assert!(StringFilter::NotEquals("Pit Vipers".to_string()).matches("Fireball"));
    assert!(StringFilter::ContainsSubstr("Viper".to_string()).matches("Pit Vipers"));
    assert!(!StringFilter::ContainsSubstr("viper".to_string()).matches("Pit Vipers"));
    assert!(StringFilter::ContainsSubstr(String::new()).matches(""));
    let one_of = StringFilter::OneOf(vec!["A".to_string(), "B".to_string()]);
    assert!(one_of.matches("B"));
    assert!(!one_of.matches("C"));
}

#[test]
fn value_filters() {
    assert!(ValueFilter::OneOf(vec![1u8, 2, 3]).matches(&2));
    assert!(!ValueFilter::NoneOf(vec![1u8, 2, 3]).matches(&2));
    assert!(ValueFilter::Equals(5u8).matches(&5));
    assert!(ValueFilter::NotEquals(5u8).matches(&6));
    let id = uuid::Uuid::new_v4();
    assert!(ValueFilter::Equals(id).matches(&id));
}

#[test]
fn vec_filters() {
    let vals = [1u8, 2, 3];
    assert!(VecFilter::WithAll(vec![1u8, 3]).matches(&vals));
    assert!(!VecFilter::WithAll(vec![1u8, 4]).matches(&vals));
    assert!(VecFilter::WithoutAny(vec![4u8, 5]).matches(&vals));
    assert!(!VecFilter::WithoutAny(vec![4u8, 1]).matches(&vals));
    assert!(VecFilter::With(2u8).matches(&vals));
    assert!(VecFilter::Without(9u8).matches(&vals));
    // WithAny holds when some listed value is missing from the card's values.
    assert!(VecFilter::WithAny(vec![1u8, 9]).matches(&vals));
    assert!(!VecFilter::WithAny(vec![1u8, 2]).matches(&vals));
}

#[test]
fn numeric_filters() {
    assert!(NumericFilter::GreaterThan(3u16).matches(4));
    assert!(!NumericFilter::GreaterThan(3u16).matches(3));
    assert!(NumericFilter::GreaterThanOrEqualTo(3u8).matches(3));
    assert!(NumericFilter::LessThan(3u8).matches(2));
    assert!(NumericFilter::LessThanOrEqualTo(3u8).matches(3));
    assert!(!NumericFilter::LessThanOrEqualTo(3u8).matches(4));
    assert!(NumericFilter::EqualTo(7u16).matches(7));
}
