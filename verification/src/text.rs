//! Reading and writing the small pieces of text the game stores: decimal
//! numbers and names with surrounding whitespace.

use vstd::prelude::*;

verus! {

/// Whether `c` is whitespace as Unicode defines it (the `White_Space`
/// property, which `char::is_whitespace` follows).
pub open spec fn is_ws(c: char) -> bool {
    ('\u{9}' <= c && c <= '\u{d}') || c == ' ' || c == '\u{85}' || c == '\u{a0}' || c
        == '\u{1680}' || ('\u{2000}' <= c && c <= '\u{200a}') || c == '\u{2028}' || c
        == '\u{2029}' || c == '\u{202f}' || c == '\u{205f}' || c == '\u{3000}'
}

/// `s` without its leading whitespace.
pub open spec fn trim_start(s: Seq<char>) -> Seq<char>
    decreases s.len(),
{
    if s.len() > 0 && is_ws(s[0]) {
        trim_start(s.drop_first())
    } else {
        s
    }
}

/// `s` without its trailing whitespace.
pub open spec fn trim_end(s: Seq<char>) -> Seq<char>
    decreases s.len(),
{
    if s.len() > 0 && is_ws(s.last()) {
        trim_end(s.drop_last())
    } else {
        s
    }
}

/// `s` without leading and trailing whitespace.
pub open spec fn trimmed(s: Seq<char>) -> Seq<char> {
    trim_end(trim_start(s))
}

/// Whether `c` is whitespace.
fn is_whitespace_char(c: char) -> (r: bool)
    ensures
        r == is_ws(c),
{
    ('\u{9}' <= c && c <= '\u{d}') || c == ' ' || c == '\u{85}' || c == '\u{a0}' || c
        == '\u{1680}' || ('\u{2000}' <= c && c <= '\u{200a}') || c == '\u{2028}' || c
        == '\u{2029}' || c == '\u{202f}' || c == '\u{205f}' || c == '\u{3000}'
}

proof fn lemma_trim_start_skip(s: Seq<char>, i: int)
    requires
        0 <= i <= s.len(),
        forall|j: int| 0 <= j < i ==> is_ws(s[j]),
    ensures
        trim_start(s) == trim_start(s.skip(i)),
    decreases i,
{
    if i > 0 {
        assert(s.skip(1) =~= s.drop_first());
        lemma_trim_start_skip(s.drop_first(), i - 1);
        assert(s.drop_first().skip(i - 1) =~= s.skip(i));
    } else {
        assert(s.skip(0) =~= s);
    }
}

proof fn lemma_trim_end_take(s: Seq<char>, i: int)
    requires
        0 <= i <= s.len(),
        forall|j: int| i <= j < s.len() ==> is_ws(s[j]),
    ensures
        trim_end(s) == trim_end(s.take(i)),
    decreases s.len() - i,
{
    if i < s.len() {
        lemma_trim_end_take(s.drop_last(), i);
        assert(s.drop_last().take(i) =~= s.take(i));
    } else {
        assert(s.take(i) =~= s);
    }
}

/// `s` without leading and trailing whitespace, as `str::trim` gives it.
pub fn trim(s: &str) -> (r: &str)
    ensures
        r@ == trimmed(s@),
{
    let n = s.unicode_len();
    let mut lo: usize = 0;
    while lo < n && is_whitespace_char(s.get_char(lo))
        invariant
            n == s@.len(),
            lo <= n,
            forall|j: int| 0 <= j < lo ==> is_ws(s@[j]),
        decreases n - lo,
    {
        lo += 1;
    }
    proof {
        lemma_trim_start_skip(s@, lo as int);
    }
    let mut hi: usize = n;
    while hi > lo && is_whitespace_char(s.get_char(hi - 1))
        invariant
            n == s@.len(),
            lo <= hi <= n,
            forall|j: int| hi <= j < n ==> is_ws(s@[j]),
        decreases hi,
    {
        hi -= 1;
    }
    let r = s.substring_char(lo, hi);
    proof {
        let t = s@.skip(lo as int);
        assert(lo == n || !is_ws(s@[lo as int]));
        assert(trim_start(t) == t);
        lemma_trim_end_take(t, hi - lo);
        assert(t.take(hi - lo) =~= s@.subrange(lo as int, hi as int));
        assert(hi == lo || !is_ws(t.take(hi - lo).last()));
    }
    r
}

/// The decimal digit `d`.
pub open spec fn digit_char(d: nat) -> char {
    if d == 0 {
        '0'
    } else if d == 1 {
        '1'
    } else if d == 2 {
        '2'
    } else if d == 3 {
        '3'
    } else if d == 4 {
        '4'
    } else if d == 5 {
        '5'
    } else if d == 6 {
        '6'
    } else if d == 7 {
        '7'
    } else if d == 8 {
        '8'
    } else {
        '9'
    }
}

/// The value of the decimal digit `c`.
pub open spec fn digit_value(c: char) -> nat {
    (c as u32 - '0' as u32) as nat
}

/// Whether `c` is one of the ASCII digits.
pub open spec fn is_digit(c: char) -> bool {
    '0' <= c && c <= '9'
}

/// `n` written in decimal, without leading zeros.
pub open spec fn decimal(n: nat) -> Seq<char>
    decreases n,
{
    if n < 10 {
        seq![digit_char(n)]
    } else {
        decimal(n / 10).push(digit_char(n % 10))
    }
}

/// The number that the digits `s` write.
pub open spec fn digits_value(s: Seq<char>) -> nat
    decreases s.len(),
{
    if s.len() == 0 {
        0
    } else {
        digits_value(s.drop_last()) * 10 + digit_value(s.last())
    }
}

/// The text of an unsigned integer without its optional leading `+`.
pub open spec fn unsigned_digits(s: Seq<char>) -> Seq<char> {
    if s.len() > 0 && s[0] == '+' {
        s.drop_first()
    } else {
        s
    }
}

/// Whether every character of `s` is an ASCII digit.
pub open spec fn all_digits(s: Seq<char>) -> bool {
    forall|i: int| 0 <= i < s.len() ==> is_digit(#[trigger] s[i])
}

/// The number an unsigned integer's text gives, as `str::parse::<u8>`
/// reads it: an optional `+` and then one or more ASCII digits, whose value
/// is at most 255.
pub open spec fn parsed_u8(s: Seq<char>) -> Option<u8> {
    let d = unsigned_digits(s);
    if d.len() == 0 || !all_digits(d) {
        None
    } else if digits_value(d) > 255 {
        None
    } else {
        Some(digits_value(d) as u8)
    }
}

/// The digit `d` as text.
fn digit_str(d: u64) -> (r: &'static str)
    requires
        d < 10,
    ensures
        r@ == seq![digit_char(d as nat)],
{
    proof {
        reveal_strlit("0");
        reveal_strlit("1");
        reveal_strlit("2");
        reveal_strlit("3");
        reveal_strlit("4");
        reveal_strlit("5");
        reveal_strlit("6");
        reveal_strlit("7");
        reveal_strlit("8");
        reveal_strlit("9");
    }
    if d == 0 {
        "0"
    } else if d == 1 {
        "1"
    } else if d == 2 {
        "2"
    } else if d == 3 {
        "3"
    } else if d == 4 {
        "4"
    } else if d == 5 {
        "5"
    } else if d == 6 {
        "6"
    } else if d == 7 {
        "7"
    } else if d == 8 {
        "8"
    } else {
        "9"
    }
}

/// Appends `n` written in decimal to `out`.
pub fn push_decimal(out: &mut String, n: u64)
    ensures
        final(out)@ == old(out)@ + decimal(n as nat),
    decreases n,
{
    if n < 10 {
        out.append(digit_str(n));
    } else {
        push_decimal(out, n / 10);
        out.append(digit_str(n % 10));
        assert(old(out)@ + decimal((n / 10) as nat) + seq![digit_char((n % 10) as nat)] =~= old(out)@
            + decimal(n as nat));
    }
}

/// `n` written in decimal.
pub fn decimal_string(n: u64) -> (r: String)
    ensures
        r@ == decimal(n as nat),
{
    let mut s = String::new();
    push_decimal(&mut s, n);
    assert(s@ =~= decimal(n as nat));
    s
}

/// Reads an unsigned integer of at most 255 as `str::parse::<u8>` does.
pub fn parse_u8(s: &str) -> (r: Option<u8>)
    ensures
        r == parsed_u8(s@),
{
    let n = s.unicode_len();
    let ghost d = unsigned_digits(s@);
    let start: usize = if n > 0 && s.get_char(0) == '+' {
        1
    } else {
        0
    };
    assert(d =~= s@.skip(start as int));
    if start == n {
        return None;
    }
    let mut value: u32 = 0;
    let mut i: usize = start;
    while i < n
        invariant
            n == s@.len(),
            start <= i <= n,
            d == s@.skip(start as int),
            d == unsigned_digits(s@),
            value <= 256,
            forall|j: int| start <= j < i ==> is_digit(s@[j]),
            value == digits_value(s@.subrange(start as int, i as int)) || (value == 256
                && digits_value(s@.subrange(start as int, i as int)) > 255),
        decreases n - i,
    {
        let c = s.get_char(i);
        if !('0' <= c && c <= '9') {
            assert(d[i - start] == c);
            assert(!is_digit(d[i - start]));
            assert(!all_digits(d));
            return None;
        }
        let ghost prev = s@.subrange(start as int, i as int);
        assert(s@.subrange(start as int, i + 1) =~= prev.push(c));
        assert(prev.push(c).drop_last() =~= prev);
        let dv = (c as u32) - ('0' as u32);
        if value == 256 {
            assert(digits_value(prev.push(c)) >= digits_value(prev) * 10);
        } else {
            let next = value * 10 + dv;
            value = if next > 255 {
                256
            } else {
                next
            };
        }
        i += 1;
    }
    assert(s@.subrange(start as int, n as int) =~= d);
    assert(all_digits(d)) by {
        assert forall|k: int| 0 <= k < d.len() implies is_digit(#[trigger] d[k]) by {
            assert(d[k] == s@[k + start]);
        }
    }
    if value > 255 {
        None
    } else {
        Some(value as u8)
    }
}


/// Facts about a number written in decimal: it is one or more digits, and
/// it reads back as the number.
pub proof fn lemma_decimal_digits(n: nat)
    ensures
        decimal(n).len() > 0,
        all_digits(decimal(n)),
        digits_value(decimal(n)) == n,
    decreases n,
{
    if n >= 10 {
        lemma_decimal_digits(n / 10);
        lemma_digit_round_trip(n % 10);
        let d = decimal(n / 10).push(digit_char(n % 10));
        assert(d.drop_last() =~= decimal(n / 10));
        assert(digits_value(d) == digits_value(decimal(n / 10)) * 10 + digit_value(digit_char(n % 10)));
        assert((n / 10) * 10 + n % 10 == n);
        assert(decimal(n) == d);
        assert forall|i: int| 0 <= i < d.len() implies is_digit(#[trigger] d[i]) by {
            if i < d.len() - 1 {
                assert(d[i] == decimal(n / 10)[i]);
            }
        }
    } else {
        lemma_digit_round_trip(n);
        let d = seq![digit_char(n)];
        assert(d.drop_last() =~= Seq::<char>::empty());
        assert(decimal(n) == d);
        assert(digits_value(d) == digits_value(d.drop_last()) * 10 + digit_value(d.last()));
        assert(digits_value(Seq::<char>::empty()) == 0);
    }
}

proof fn lemma_digit_round_trip(k: nat)
    requires
        k < 10,
    ensures
        digit_value(digit_char(k)) == k,
        is_digit(digit_char(k)),
{
    assert('0' as u32 == 48);
    assert('9' as u32 == 57);
    if k == 0 {
        assert('0' as u32 - '0' as u32 == 0);
    } else if k == 1 {
        assert('1' as u32 == 49);
    } else if k == 2 {
        assert('2' as u32 == 50);
    } else if k == 3 {
        assert('3' as u32 == 51);
    } else if k == 4 {
        assert('4' as u32 == 52);
    } else if k == 5 {
        assert('5' as u32 == 53);
    } else if k == 6 {
        assert('6' as u32 == 54);
    } else if k == 7 {
        assert('7' as u32 == 55);
    } else if k == 8 {
        assert('8' as u32 == 56);
    }
}

/// A number of at most 255 written in decimal reads back as itself.
pub proof fn lemma_decimal_parses(n: u8)
    ensures
        parsed_u8(decimal(n as nat)) == Some(n),
        trimmed(decimal(n as nat)) == decimal(n as nat),
{
    lemma_decimal_digits(n as nat);
    let d = decimal(n as nat);
    assert(is_digit(d[0]));
    assert(unsigned_digits(d) == d);
    assert(is_digit(d.last()));
    assert(trim_start(d) == d);
    assert(trim_end(d) == d);
}

/// Removing whitespace from text with a space in front of it that has no
/// surrounding whitespace of its own gives the text back.
pub proof fn lemma_trim_space_prefix(name: Seq<char>)
    requires
        trimmed(name) == name,
    ensures
        trimmed(seq![' '] + name) == name,
{
    assert((seq![' '] + name).drop_first() =~= name);
}

} // verus!
