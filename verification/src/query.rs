//! The filters that card queries are built from: on a card's name, on one
//! of its values, on a list of its values, and on one of its numbers.

use vstd::prelude::*;
use vstd::std_specs::cmp::{PartialEqIs, PartialEqSpec, PartialOrdIs, PartialOrdSpec};

verus! {

/// A condition on a card's name.
#[derive(Debug, Clone)]
pub enum StringFilter {
    OneOf(Vec<String>),
    Equals(String),
    NotEquals(String),
    ContainsSubstr(String),
}

/// Whether `sub` occurs in `s` starting at position `i`.
pub open spec fn occurs_at(s: Seq<char>, sub: Seq<char>, i: int) -> bool {
    0 <= i && i + sub.len() <= s.len() && s.subrange(i, i + sub.len()) == sub
}

/// Whether `sub` occurs somewhere in `s`.
pub open spec fn contains_substr(s: Seq<char>, sub: Seq<char>) -> bool {
    exists|i: int| occurs_at(s, sub, i)
}

/// Whether a name `val` meets filter `f`.
pub open spec fn string_filter_matches(f: StringFilter, val: Seq<char>) -> bool {
    match f {
        StringFilter::OneOf(items) => exists|i: int| 0 <= i < items.len() && #[trigger] items@[i]@ == val,
        StringFilter::Equals(item) => item@ == val,
        StringFilter::NotEquals(item) => item@ != val,
        StringFilter::ContainsSubstr(sub) => contains_substr(val, sub@),
    }
}

/// The characters of `s`.
fn chars_of(s: &str) -> (r: Vec<char>)
    ensures
        r@ == s@,
{
    let n = s.unicode_len();
    let mut r: Vec<char> = Vec::new();
    let mut i: usize = 0;
    while i < n
        invariant
            n == s@.len(),
            i <= n,
            r@ =~= s@.take(i as int),
        decreases n - i,
    {
        r.push(s.get_char(i));
        i += 1;
    }
    assert(s@.take(n as int) =~= s@);
    r
}

/// Whether two character sequences are equal.
fn same_chars(a: &Vec<char>, b: &Vec<char>) -> (r: bool)
    ensures
        r == (a@ == b@),
{
    if a.len() != b.len() {
        return false;
    }
    let mut i: usize = 0;
    while i < a.len()
        invariant
            a.len() == b.len(),
            i <= a.len(),
            forall|j: int| 0 <= j < i ==> a@[j] == b@[j],
        decreases a.len() - i,
    {
        if a[i] != b[i] {
            return false;
        }
        i += 1;
    }
    assert(a@ =~= b@);
    true
}

/// Whether `sub` occurs in `s` starting at position `i`.
fn occurs_at_exec(s: &Vec<char>, sub: &Vec<char>, i: usize) -> (r: bool)
    requires
        i + sub.len() <= s.len(),
    ensures
        r == occurs_at(s@, sub@, i as int),
{
    let mut j: usize = 0;
    while j < sub.len()
        invariant
            i + sub.len() <= s.len(),
            j <= sub.len(),
            forall|k: int| 0 <= k < j ==> s@[i + k] == sub@[k],
        decreases sub.len() - j,
    {
        if s[i + j] != sub[j] {
            assert(s@.subrange(i as int, i + sub.len())[j as int] != sub@[j as int]);
            return false;
        }
        j += 1;
    }
    assert(s@.subrange(i as int, i + sub.len()) =~= sub@);
    true
}

/// Whether `sub` occurs somewhere in `s`.
fn has_substr(s: &Vec<char>, sub: &Vec<char>) -> (r: bool)
    ensures
        r == contains_substr(s@, sub@),
{
    if sub.len() > s.len() {
        return false;
    }
    if sub.len() == 0 {
        assert(s@.subrange(0, 0) =~= sub@);
        assert(occurs_at(s@, sub@, 0));
        return true;
    }
    let mut i: usize = 0;
    while i <= s.len() - sub.len()
        invariant
            0 < sub.len() <= s.len(),
            i <= s.len() - sub.len() + 1,
            forall|k: int| 0 <= k < i ==> !occurs_at(s@, sub@, k),
        decreases s.len() - sub.len() + 1 - i,
    {
        if occurs_at_exec(s, sub, i) {
            return true;
        }
        i += 1;
    }
    false
}

impl StringFilter {
    /// Whether a card named `val` meets this filter.
    #[verifier::loop_isolation(false)]
    pub fn matches(&self, val: &str) -> (r: bool)
        ensures
            r == string_filter_matches(*self, val@),
    {
        let v = chars_of(val);
        match self {
            StringFilter::OneOf(items) => {
                let mut i: usize = 0;
                while i < items.len()
                    invariant
                        i <= items.len(),
                        v@ == val@,
                        forall|j: int| 0 <= j < i ==> (#[trigger] items@[j])@ != val@,
                    decreases items.len() - i,
                {
                    if same_chars(&chars_of(items[i].as_str()), &v) {
                        assert(items@[i as int]@ == val@);
                        return true;
                    }
                    i += 1;
                }
                false
            },
            StringFilter::Equals(item) => same_chars(&chars_of(item.as_str()), &v),
            StringFilter::NotEquals(item) => !same_chars(&chars_of(item.as_str()), &v),
            StringFilter::ContainsSubstr(substr) => has_substr(&v, &chars_of(substr.as_str())),
        }
    }
}

/// A condition on one value of a card.
#[derive(Debug, Clone)]
pub enum ValueFilter<T> {
    OneOf(Vec<T>),
    NoneOf(Vec<T>),
    Equals(T),
    NotEquals(T),
}

/// Whether `items` holds a value equal to `val`.
pub open spec fn holds_equal<T: PartialEq>(items: Seq<T>, val: T) -> bool {
    exists|i: int| 0 <= i < items.len() && (#[trigger] items[i]).is_eq(&val)
}

/// Whether value `val` meets filter `f`.
pub open spec fn value_filter_matches<T: PartialEq>(f: ValueFilter<T>, val: T) -> bool {
    match f {
        ValueFilter::OneOf(items) => holds_equal(items@, val),
        ValueFilter::NoneOf(items) => !holds_equal(items@, val),
        ValueFilter::Equals(item) => item.is_eq(&val),
        ValueFilter::NotEquals(item) => !item.is_eq(&val),
    }
}

/// Whether `items` holds a value equal to `val`.
fn contains_value<T: PartialEq>(items: &[T], val: &T) -> (r: bool)
    ensures
        T::obeys_eq_spec() ==> r == holds_equal(items@, *val),
{
    let mut i: usize = 0;
    while i < items.len()
        invariant
            i <= items.len(),
            T::obeys_eq_spec() ==> forall|j: int| 0 <= j < i ==> !(#[trigger] items@[j]).is_eq(val),
        decreases items.len() - i,
    {
        if items[i] == *val {
            return true;
        }
        i += 1;
    }
    false
}

impl<T: PartialEq> ValueFilter<T> {
    /// Whether `val` meets this filter. Values are compared with `T`'s
    /// `==`; when that follows its specification, the result is exact.
    pub fn matches(&self, val: &T) -> (r: bool)
        ensures
            T::obeys_eq_spec() ==> r == value_filter_matches(*self, *val),
    {
        match self {
            ValueFilter::OneOf(items) => contains_value(items.as_slice(), val),
            ValueFilter::NoneOf(items) => !contains_value(items.as_slice(), val),
            ValueFilter::Equals(item) => *item == *val,
            ValueFilter::NotEquals(item) => *item != *val,
        }
    }
}

/// A condition on a list of values of a card.
#[derive(Debug, Clone)]
pub enum VecFilter<T> {
    WithAll(Vec<T>),
    WithoutAny(Vec<T>),
    WithAny(Vec<T>),
    With(T),
    Without(T),
}

/// Whether the values `vals` meet filter `f`. `WithAny` holds when some
/// value of the filter is missing from `vals`.
pub open spec fn vec_filter_matches<T: PartialEq>(f: VecFilter<T>, vals: Seq<T>) -> bool {
    match f {
        VecFilter::WithAll(items) => forall|i: int|
            0 <= i < items.len() ==> holds_equal(vals, #[trigger] items@[i]),
        VecFilter::WithoutAny(items) => forall|i: int|
            0 <= i < items.len() ==> !holds_equal(vals, #[trigger] items@[i]),
        VecFilter::WithAny(items) => exists|i: int|
            0 <= i < items.len() && !holds_equal(vals, #[trigger] items@[i]),
        VecFilter::With(item) => holds_equal(vals, item),
        VecFilter::Without(item) => !holds_equal(vals, item),
    }
}

impl<T: PartialEq> VecFilter<T> {
    /// Whether the values `vals` meet this filter. Values are compared with
    /// `T`'s `==`; when that follows its specification, the result is
    /// exact.
    #[verifier::loop_isolation(false)]
    pub fn matches(&self, vals: &[T]) -> (r: bool)
        ensures
            T::obeys_eq_spec() ==> r == vec_filter_matches(*self, vals@),
    {
        match self {
            VecFilter::WithAll(items) => {
                let mut i: usize = 0;
                while i < items.len()
                    invariant
                        i <= items.len(),
                        T::obeys_eq_spec() ==> forall|j: int|
                            0 <= j < i ==> holds_equal(vals@, #[trigger] items@[j]),
                    decreases items.len() - i,
                {
                    if !contains_value(vals, &items[i]) {
                        assert(T::obeys_eq_spec() ==> !holds_equal(vals@, items@[i as int]));
                        return false;
                    }
                    i += 1;
                }
                true
            },
            VecFilter::WithoutAny(items) => {
                let mut i: usize = 0;
                while i < items.len()
                    invariant
                        i <= items.len(),
                        T::obeys_eq_spec() ==> forall|j: int|
                            0 <= j < i ==> !holds_equal(vals@, #[trigger] items@[j]),
                    decreases items.len() - i,
                {
                    if contains_value(vals, &items[i]) {
                        assert(T::obeys_eq_spec() ==> holds_equal(vals@, items@[i as int]));
                        return false;
                    }
                    i += 1;
                }
                true
            },
            VecFilter::WithAny(items) => {
                let mut i: usize = 0;
                while i < items.len()
                    invariant
                        i <= items.len(),
                        T::obeys_eq_spec() ==> forall|j: int|
                            0 <= j < i ==> holds_equal(vals@, #[trigger] items@[j]),
                    decreases items.len() - i,
                {
                    if !contains_value(vals, &items[i]) {
                        assert(T::obeys_eq_spec() ==> !holds_equal(vals@, items@[i as int]));
                        return true;
                    }
                    i += 1;
                }
                false
            },
            VecFilter::With(item) => contains_value(vals, item),
            VecFilter::Without(item) => !contains_value(vals, item),
        }
    }
}

/// A condition on a number of a card.
#[derive(Debug, Clone, Copy)]
pub enum NumericFilter<T> {
    GreaterThan(T),
    GreaterThanOrEqualTo(T),
    LessThan(T),
    LessThanOrEqualTo(T),
    EqualTo(T),
}

/// Whether the number `mc` meets filter `f`.
pub open spec fn numeric_filter_matches<T: PartialOrd>(f: NumericFilter<T>, mc: T) -> bool {
    match f {
        NumericFilter::GreaterThan(val) => mc.is_gt(&val),
        NumericFilter::GreaterThanOrEqualTo(val) => mc.is_ge(&val),
        NumericFilter::LessThan(val) => mc.is_lt(&val),
        NumericFilter::LessThanOrEqualTo(val) => mc.is_le(&val),
        NumericFilter::EqualTo(val) => mc.is_eq(&val),
    }
}

impl<T: PartialOrd + PartialEq> NumericFilter<T> {
    /// Whether the number `mc` meets this filter. Numbers are compared with
    /// `T`'s comparisons; when they follow their specifications, the result
    /// is exact.
    pub fn matches(&self, mc: T) -> (r: bool)
        ensures
            T::obeys_partial_cmp_spec() && T::obeys_eq_spec() ==> r == numeric_filter_matches(
                *self,
                mc,
            ),
    {
        match self {
            NumericFilter::GreaterThan(val) => mc > *val,
            NumericFilter::GreaterThanOrEqualTo(val) => mc >= *val,
            NumericFilter::LessThan(val) => mc < *val,
            NumericFilter::LessThanOrEqualTo(val) => mc <= *val,
            NumericFilter::EqualTo(val) => mc == *val,
        }
    }
}

} // verus!
