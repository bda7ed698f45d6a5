use sorcerers::game::{Element, Thresholds, ThresholdsDiff};

fn t(fire: u8, air: u8, earth: u8, water: u8) -> Thresholds {
    Thresholds { fire, air, earth, water }
}

#[test]
fn parse_counts_element_letters() {
    assert_eq!(Thresholds::parse("FFAW"), t(2, 1, 0, 1));
    assert_eq!(Thresholds::parse("E x E ?"), t(0, 0, 2, 0));
    assert_eq!(Thresholds::parse(""), Thresholds::new());
    assert_eq!(Thresholds::parse("fae"), t(0, 0, 0, 0));
}

#[test]
fn parse_is_additive() {
    let a = Thresholds::parse("FFA");
    let b = Thresholds::parse("AWE");
    assert_eq!(&a + &b, Thresholds::parse("FFAAWE"));
}

#[test]
fn element_picks_one_count() {
    let x = t(1, 2, 3, 4);
    assert_eq!(x.element(&Element::Fire), 1);
    assert_eq!(x.element(&Element::Air), 2);
    assert_eq!(x.element(&Element::Earth), 3);
    assert_eq!(x.element(&Element::Water), 4);
}

#[test]
fn negate_flips_signs() {
    let d = ThresholdsDiff { fire: 1, air: -2, earth: 0, water: 127 };
    let n = d.negate();
    assert_eq!(n, ThresholdsDiff { fire: -1, air: 2, earth: 0, water: -127 });
    assert_eq!(n.negate(), d);
}

#[test]
fn adding_a_diff_clamps_and_wraps() {
    let x = t(3, 0, 200, 10);
    let d = ThresholdsDiff { fire: -1, air: -1, earth: 0, water: 5 };
    assert_eq!(&x + &d, t(2, 255, 127, 15));
}

#[test]
fn diff_from_thresholds_wraps_large_counts() {
    let d = ThresholdsDiff::from(&t(1, 127, 128, 255));
    assert_eq!(d, ThresholdsDiff { fire: 1, air: 127, earth: -128, water: -1 });
}

#[test]
fn scaling_saturates() {
    assert_eq!(3u8 * &t(1, 2, 100, 0), t(3, 6, 255, 0));
}

#[test]
fn sum_adds_elementwise() {
    let items = [t(1, 0, 0, 2), t(0, 3, 1, 0), t(2, 2, 2, 2)];
    assert_eq!(Thresholds::sum(&items), t(3, 5, 3, 4));
    assert_eq!(Thresholds::sum(&[]), Thresholds::new());
}

#[test]
fn reading_thresholds_ignores_the_order_of_letters() {
    assert_eq!(Thresholds::parse("FFAW"), Thresholds::parse("WAFF"));
    assert_eq!(Thresholds::parse("E x F"), Thresholds::parse("FE"));
}
