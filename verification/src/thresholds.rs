//! Elemental thresholds: how many fire, air, earth and water symbols a
//! player's sites provide, or a card requires.

use vstd::prelude::*;
use vstd::std_specs::cmp::PartialEqSpecImpl;
use vstd::std_specs::convert::FromSpecImpl;
use vstd::std_specs::ops::{AddSpecImpl, MulSpecImpl};

verus! {

/// One of the four elements.
#[derive(Debug, Clone, Copy, Eq)]
pub enum Element {
    Fire,
    Air,
    Earth,
    Water,
}

/// Two values are equal when they are the same variant.
impl PartialEq for Element {
    fn eq(&self, other: &Element) -> (r: bool) {
        match (self, other) {
            (Element::Fire, Element::Fire) => true,
            (Element::Air, Element::Air) => true,
            (Element::Earth, Element::Earth) => true,
            (Element::Water, Element::Water) => true,
            _ => false,
        }
    }
}

impl PartialEqSpecImpl for Element {
    open spec fn obeys_eq_spec() -> bool {
        true
    }

    open spec fn eq_spec(&self, other: &Element) -> bool {
        *self == *other
    }
}

/// A count of symbols of each element.
#[derive(Debug, Clone, Copy, PartialEq, Eq, Default, Structural)]
pub struct Thresholds {
    pub fire: u8,
    pub air: u8,
    pub earth: u8,
    pub water: u8,
}

/// A signed change to each element's count.
#[derive(Debug, Clone, Copy, PartialEq, Eq, Default, Structural)]
pub struct ThresholdsDiff {
    pub fire: i8,
    pub air: i8,
    pub earth: i8,
    pub water: i8,
}

/// The mana and thresholds a player has available.
#[derive(Debug, Clone, Copy)]
pub struct Resources {
    pub mana: u8,
    pub thresholds: Thresholds,
}

/// The number of times `c` occurs in `s`.
pub open spec fn count_char(s: Seq<char>, c: char) -> nat
    decreases s.len(),
{
    if s.len() == 0 {
        0
    } else {
        count_char(s.drop_last(), c) + if s.last() == c {
            1nat
        } else {
            0nat
        }
    }
}

/// Whether no element letter occurs more than 255 times in `s`.
pub open spec fn parse_fits(s: Seq<char>) -> bool {
    count_char(s, 'F') <= 255 && count_char(s, 'A') <= 255 && count_char(s, 'E') <= 255
        && count_char(s, 'W') <= 255
}

/// The thresholds written as the letters `F`, `A`, `E` and `W`, one per
/// symbol, any other character being ignored.
pub open spec fn parsed(s: Seq<char>) -> Thresholds {
    Thresholds {
        fire: count_char(s, 'F') as u8,
        air: count_char(s, 'A') as u8,
        earth: count_char(s, 'E') as u8,
        water: count_char(s, 'W') as u8,
    }
}

/// An unsigned count read as a signed one, wrapping as `as i8` does.
pub open spec fn wrap_i8(x: u8) -> i8 {
    if x < 128 {
        x as i8
    } else {
        (x - 256) as i8
    }
}

/// `t + d`, clamped to the range of `i8` and then read back as unsigned,
/// wrapping as `as u8` does.
pub open spec fn add_diff_count(t: u8, d: i8) -> u8 {
    let v = d + t;
    let c = if v > 127 {
        127
    } else {
        v
    };
    if c < 0 {
        (c + 256) as u8
    } else {
        c as u8
    }
}

/// `a * b`, capped at 255.
pub open spec fn sat_mul(a: u8, b: u8) -> u8 {
    if a * b > 255 {
        255
    } else {
        (a * b) as u8
    }
}

/// Whether adding two thresholds stays within 255 for every element.
pub open spec fn sum_fits(a: Thresholds, b: Thresholds) -> bool {
    a.fire + b.fire <= 255 && a.air + b.air <= 255 && a.earth + b.earth <= 255 && a.water
        + b.water <= 255
}

/// The sum of a sequence of thresholds, element by element.
pub open spec fn total(items: Seq<Thresholds>) -> (int, int, int, int)
    decreases items.len(),
{
    if items.len() == 0 {
        (0, 0, 0, 0)
    } else {
        let (f, a, e, w) = total(items.drop_last());
        let t = items.last();
        (f + t.fire, a + t.air, e + t.earth, w + t.water)
    }
}

impl Thresholds {
    /// No symbols of any element.
    pub fn new() -> (r: Thresholds)
        ensures
            r == (Thresholds { fire: 0, air: 0, earth: 0, water: 0 }),
    {
        Thresholds { fire: 0, air: 0, earth: 0, water: 0 }
    }

    /// Reads thresholds written as the letters `F`, `A`, `E` and `W`, one
    /// per symbol; any other character is ignored.
    pub fn parse(s: &str) -> (r: Thresholds)
        requires
            parse_fits(s@),
        ensures
            r == parsed(s@),
    {
        let mut thresholds = Thresholds::new();
        let mut i: usize = 0;
        let n = s.unicode_len();
        while i < n
            invariant
                n == s@.len(),
                i <= n,
                parse_fits(s@),
                thresholds.fire == count_char(s@.take(i as int), 'F'),
                thresholds.air == count_char(s@.take(i as int), 'A'),
                thresholds.earth == count_char(s@.take(i as int), 'E'),
                thresholds.water == count_char(s@.take(i as int), 'W'),
            decreases n - i,
        {
            let c = s.get_char(i);
            let ghost t = s@.take(i + 1);
            assert(t.drop_last() =~= s@.take(i as int));
            proof {
                lemma_count_prefix(s@, i + 1, 'F');
                lemma_count_prefix(s@, i + 1, 'A');
                lemma_count_prefix(s@, i + 1, 'E');
                lemma_count_prefix(s@, i + 1, 'W');
            }
            if c == 'F' {
                thresholds.fire += 1;
            } else if c == 'A' {
                thresholds.air += 1;
            } else if c == 'E' {
                thresholds.earth += 1;
            } else if c == 'W' {
                thresholds.water += 1;
            }
            i += 1;
        }
        assert(s@.take(n as int) =~= s@);
        thresholds
    }

    /// The count of one element.
    pub fn element(&self, element: &Element) -> (r: u8)
        ensures
            r == match *element {
                Element::Fire => self.fire,
                Element::Air => self.air,
                Element::Earth => self.earth,
                Element::Water => self.water,
            },
    {
        match element {
            Element::Fire => self.fire,
            Element::Air => self.air,
            Element::Earth => self.earth,
            Element::Water => self.water,
        }
    }

    /// The sum of `items`, element by element.
    pub fn sum(items: &[Thresholds]) -> (r: Thresholds)
        requires
            total(items@).0 <= 255,
            total(items@).1 <= 255,
            total(items@).2 <= 255,
            total(items@).3 <= 255,
        ensures
            (r.fire as int, r.air as int, r.earth as int, r.water as int) == total(items@),
    {
        let mut t = Thresholds::new();
        let mut i: usize = 0;
        while i < items.len()
            invariant
                i <= items.len(),
                total(items@).0 <= 255,
                total(items@).1 <= 255,
                total(items@).2 <= 255,
                total(items@).3 <= 255,
                (t.fire as int, t.air as int, t.earth as int, t.water as int) == total(
                    items@.take(i as int),
                ),
            decreases items.len() - i,
        {
            assert(items@.take(i + 1).drop_last() =~= items@.take(i as int));
            proof {
                lemma_total_prefix(items@, i + 1);
            }
            t.fire = t.fire + items[i].fire;
            t.air = t.air + items[i].air;
            t.earth = t.earth + items[i].earth;
            t.water = t.water + items[i].water;
            i += 1;
        }
        assert(items@.take(items.len() as int) =~= items@);
        t
    }
}

proof fn lemma_count_prefix(s: Seq<char>, k: int, c: char)
    requires
        0 <= k <= s.len(),
    ensures
        count_char(s.take(k), c) <= count_char(s, c),
    decreases s.len() - k,
{
    if k < s.len() {
        lemma_count_prefix(s, k + 1, c);
        assert(s.take(k + 1).drop_last() =~= s.take(k));
    } else {
        assert(s.take(k) =~= s);
    }
}

proof fn lemma_total_prefix(s: Seq<Thresholds>, k: int)
    requires
        0 <= k <= s.len(),
    ensures
        total(s.take(k)).0 <= total(s).0,
        total(s.take(k)).1 <= total(s).1,
        total(s.take(k)).2 <= total(s).2,
        total(s.take(k)).3 <= total(s).3,
    decreases s.len() - k,
{
    if k < s.len() {
        lemma_total_prefix(s, k + 1);
        assert(s.take(k + 1).drop_last() =~= s.take(k));
    } else {
        assert(s.take(k) =~= s);
    }
}

impl ThresholdsDiff {
    /// The opposite change.
    pub fn negate(&self) -> (r: ThresholdsDiff)
        requires
            self.fire != i8::MIN,
            self.air != i8::MIN,
            self.earth != i8::MIN,
            self.water != i8::MIN,
        ensures
            r.fire == -self.fire,
            r.air == -self.air,
            r.earth == -self.earth,
            r.water == -self.water,
    {
        ThresholdsDiff { fire: -self.fire, air: -self.air, earth: -self.earth, water: -self.water }
    }
}

/// An unsigned count read as a signed one, wrapping past 127.
fn to_i8_wrapping(x: u8) -> (r: i8)
    ensures
        r == wrap_i8(x),
{
    if x < 128 {
        x as i8
    } else {
        (x as i16 - 256) as i8
    }
}

/// `t + d` clamped to the range of `i8`, read back as unsigned.
fn add_diff_to_count(t: u8, d: i8) -> (r: u8)
    ensures
        r == add_diff_count(t, d),
{
    let v: i16 = d as i16 + t as i16;
    let c: i16 = if v > 127 {
        127
    } else {
        v
    };
    if c < 0 {
        (c + 256) as u8
    } else {
        c as u8
    }
}

impl<'a> From<&'a Thresholds> for ThresholdsDiff {
    fn from(val: &'a Thresholds) -> (r: ThresholdsDiff) {
        ThresholdsDiff {
            fire: to_i8_wrapping(val.fire),
            air: to_i8_wrapping(val.air),
            earth: to_i8_wrapping(val.earth),
            water: to_i8_wrapping(val.water),
        }
    }
}

impl<'a> FromSpecImpl<&'a Thresholds> for ThresholdsDiff {
    open spec fn obeys_from_spec() -> bool {
        true
    }

    open spec fn from_spec(val: &'a Thresholds) -> ThresholdsDiff {
        ThresholdsDiff {
            fire: wrap_i8(val.fire),
            air: wrap_i8(val.air),
            earth: wrap_i8(val.earth),
            water: wrap_i8(val.water),
        }
    }
}

impl<'a, 'b> std::ops::Add<&'b ThresholdsDiff> for &'a Thresholds {
    type Output = Thresholds;

    fn add(self, other: &'b ThresholdsDiff) -> (r: Thresholds) {
        Thresholds {
            fire: add_diff_to_count(self.fire, other.fire),
            air: add_diff_to_count(self.air, other.air),
            earth: add_diff_to_count(self.earth, other.earth),
            water: add_diff_to_count(self.water, other.water),
        }
    }
}

impl<'a, 'b> AddSpecImpl<&'b ThresholdsDiff> for &'a Thresholds {
    open spec fn obeys_add_spec() -> bool {
        true
    }

    open spec fn add_req(self, other: &'b ThresholdsDiff) -> bool {
        true
    }

    open spec fn add_spec(self, other: &'b ThresholdsDiff) -> Thresholds {
        Thresholds {
            fire: add_diff_count(self.fire, other.fire),
            air: add_diff_count(self.air, other.air),
            earth: add_diff_count(self.earth, other.earth),
            water: add_diff_count(self.water, other.water),
        }
    }
}

impl<'a, 'b> std::ops::Add<&'b Thresholds> for &'a Thresholds {
    type Output = Thresholds;

    fn add(self, other: &'b Thresholds) -> (r: Thresholds) {
        Thresholds {
            fire: self.fire + other.fire,
            air: self.air + other.air,
            earth: self.earth + other.earth,
            water: self.water + other.water,
        }
    }
}

impl<'a, 'b> AddSpecImpl<&'b Thresholds> for &'a Thresholds {
    open spec fn obeys_add_spec() -> bool {
        true
    }

    open spec fn add_req(self, other: &'b Thresholds) -> bool {
        sum_fits(*self, *other)
    }

    open spec fn add_spec(self, other: &'b Thresholds) -> Thresholds {
        Thresholds {
            fire: (self.fire + other.fire) as u8,
            air: (self.air + other.air) as u8,
            earth: (self.earth + other.earth) as u8,
            water: (self.water + other.water) as u8,
        }
    }
}

/// `a * b`, capped at 255.
fn saturating_product(a: u8, b: u8) -> (r: u8)
    ensures
        r == sat_mul(a, b),
{
    assert(a as int * b as int <= 255 * 255) by (nonlinear_arith)
        requires
            a <= 255,
            b <= 255,
    ;
    let p: u16 = a as u16 * b as u16;
    if p > 255 {
        255
    } else {
        p as u8
    }
}

impl<'a> std::ops::Mul<&'a Thresholds> for u8 {
    type Output = Thresholds;

    fn mul(self, rhs: &'a Thresholds) -> (r: Thresholds) {
        Thresholds {
            fire: saturating_product(rhs.fire, self),
            air: saturating_product(rhs.air, self),
            earth: saturating_product(rhs.earth, self),
            water: saturating_product(rhs.water, self),
        }
    }
}

impl<'a> MulSpecImpl<&'a Thresholds> for u8 {
    open spec fn obeys_mul_spec() -> bool {
        true
    }

    open spec fn mul_req(self, rhs: &'a Thresholds) -> bool {
        true
    }

    open spec fn mul_spec(self, rhs: &'a Thresholds) -> Thresholds {
        Thresholds {
            fire: sat_mul(rhs.fire, self),
            air: sat_mul(rhs.air, self),
            earth: sat_mul(rhs.earth, self),
            water: sat_mul(rhs.water, self),
        }
    }
}


proof fn lemma_count_concat(a: Seq<char>, b: Seq<char>, c: char)
    ensures
        count_char(a + b, c) == count_char(a, c) + count_char(b, c),
    decreases b.len(),
{
    if b.len() > 0 {
        lemma_count_concat(a, b.drop_last(), c);
        assert((a + b).drop_last() =~= a + b.drop_last());
    } else {
        assert(a + b =~= a);
    }
}

/// Reading thresholds is additive: the thresholds of two strings written
/// one after the other are the sums of their thresholds.
pub proof fn parse_is_additive(a: Seq<char>, b: Seq<char>)
    requires
        parse_fits(a + b),
    ensures
        parse_fits(a),
        parse_fits(b),
        sum_fits(parsed(a), parsed(b)),
        parsed(a + b).fire == parsed(a).fire + parsed(b).fire,
        parsed(a + b).air == parsed(a).air + parsed(b).air,
        parsed(a + b).earth == parsed(a).earth + parsed(b).earth,
        parsed(a + b).water == parsed(a).water + parsed(b).water,
{
    lemma_count_concat(a, b, 'F');
    lemma_count_concat(a, b, 'A');
    lemma_count_concat(a, b, 'E');
    lemma_count_concat(a, b, 'W');
}

/// Negating a change twice gives it back.
pub proof fn negate_is_an_involution(d: ThresholdsDiff)
    requires
        d.fire != i8::MIN,
        d.air != i8::MIN,
        d.earth != i8::MIN,
        d.water != i8::MIN,
    ensures
        -(-d.fire) == d.fire,
        -(-d.air) == d.air,
        -(-d.earth) == d.earth,
        -(-d.water) == d.water,
        -d.fire != i8::MIN,
        -d.air != i8::MIN,
        -d.earth != i8::MIN,
        -d.water != i8::MIN,
{
}

/// Adding a change of nothing leaves counts up to 127 unchanged.
pub proof fn adding_no_change_keeps_small_counts(t: Thresholds)
    requires
        t.fire <= 127,
        t.air <= 127,
        t.earth <= 127,
        t.water <= 127,
    ensures
        add_diff_count(t.fire, 0) == t.fire,
        add_diff_count(t.air, 0) == t.air,
        add_diff_count(t.earth, 0) == t.earth,
        add_diff_count(t.water, 0) == t.water,
{
}

/// The number of times `c` occurs in `s` is its count in the multiset of
/// the characters of `s`.
proof fn lemma_count_char_multiset(s: Seq<char>, c: char)
    ensures
        count_char(s, c) == s.to_multiset().count(c),
    decreases s.len(),
{
    broadcast use vstd::multiset::group_multiset_axioms;

    if s.len() == 0 {
        s.to_multiset_ensures();
        assert(s.to_multiset().len() == 0);
    } else {
        let p = s.drop_last();
        lemma_count_char_multiset(p, c);
        p.to_multiset_ensures();
        assert(p.push(s.last()) =~= s);
    }
}

/// Reading thresholds does not depend on the order of the characters: two
/// strings made of the same characters read the same.
pub proof fn parse_ignores_order(a: Seq<char>, b: Seq<char>)
    requires
        a.to_multiset() == b.to_multiset(),
    ensures
        parsed(a) == parsed(b),
        parse_fits(a) == parse_fits(b),
{
    lemma_count_char_multiset(a, 'F');
    lemma_count_char_multiset(a, 'A');
    lemma_count_char_multiset(a, 'E');
    lemma_count_char_multiset(a, 'W');
    lemma_count_char_multiset(b, 'F');
    lemma_count_char_multiset(b, 'A');
    lemma_count_char_multiset(b, 'E');
    lemma_count_char_multiset(b, 'W');
}

} // verus!
