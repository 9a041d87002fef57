use vstd::prelude::*;

use crate::text::{chars_of, push_char};

verus! {

/// A calendar date as written in a task line, `YYYY-MM-DD`.
///
/// A year of zero marks the date as unset; an unset date formats to the empty
/// string.
#[derive(Debug, Clone, Copy, PartialEq, Eq, Structural)]
pub struct Date {
    pub year: u16,
    pub month: u8,
    pub day: u8,
}

/// The unset date.
pub open spec fn unset_date() -> Date {
    Date { year: 0, month: 0, day: 0 }
}

pub open spec fn is_digit(c: char) -> bool {
    '0' <= c && c <= '9'
}

pub open spec fn digit_value(c: char) -> nat {
    (c as nat - '0' as nat) as nat
}

pub open spec fn digit_char(d: nat) -> char {
    (d + '0' as nat) as char
}

/// The value of the decimal digits `s[from..to]`.
pub open spec fn decimal_value(s: Seq<char>, from: int, to: int) -> nat
    decreases to - from,
{
    if to <= from {
        0
    } else {
        decimal_value(s, from, to - 1) * 10 + digit_value(s[to - 1])
    }
}

/// Whether `s` has the shape `DDDD-DD-DD`.
pub open spec fn has_date_shape(s: Seq<char>) -> bool {
    &&& s.len() == 10
    &&& s[4] == '-'
    &&& s[7] == '-'
    &&& forall|i: int| 0 <= i < 10 && i != 4 && i != 7 ==> is_digit(#[trigger] s[i])
}

/// What a date token means: a set date when it reads `YYYY-MM-DD` with a month
/// below 13 and a day below 32, the unset date otherwise.
pub open spec fn parse_date(s: Seq<char>) -> Date {
    if has_date_shape(s) && decimal_value(s, 5, 7) < 13 && decimal_value(s, 8, 10) < 32 {
        Date {
            year: decimal_value(s, 0, 4) as u16,
            month: decimal_value(s, 5, 7) as u8,
            day: decimal_value(s, 8, 10) as u8,
        }
    } else {
        unset_date()
    }
}

/// The `w` lowest decimal digits of `n`, most significant first.
pub open spec fn fixed_digits(n: nat, w: nat) -> Seq<char>
    decreases w,
{
    if w == 0 {
        Seq::empty()
    } else {
        fixed_digits(n / 10, (w - 1) as nat).push(digit_char(n % 10))
    }
}

/// The number of decimal digits of `n`.
pub open spec fn digit_count(n: nat) -> nat
    decreases n,
{
    if n < 10 {
        1
    } else {
        1 + digit_count(n / 10)
    }
}

/// `n` in decimal, padded with leading zeros to at least `w` digits.
pub open spec fn padded_decimal(n: nat, w: nat) -> Seq<char> {
    fixed_digits(n, if digit_count(n) > w { digit_count(n) } else { w })
}

/// The text of a date: empty when unset, `YYYY-MM-DD` otherwise.
pub open spec fn date_text(d: Date) -> Seq<char> {
    if d.year == 0 {
        Seq::empty()
    } else {
        padded_decimal(d.year as nat, 4) + seq!['-'] + padded_decimal(d.month as nat, 2) + seq!['-']
            + padded_decimal(d.day as nat, 2)
    }
}

/// The digit character for `d`, which is below ten.
fn digit_of(d: u32) -> (c: char)
    requires
        d < 10,
    ensures
        c == digit_char(d as nat),
{
    (d as u8 + 48u8) as char
}

/// Appends the `w` lowest decimal digits of `n` to `out`.
fn push_fixed_digits(out: &mut String, n: u32, w: u32)
    ensures
        final(out)@ == old(out)@ + fixed_digits(n as nat, w as nat),
    decreases w,
{
    if w > 0 {
        push_fixed_digits(out, n / 10, w - 1);
        push_char(out, digit_of(n % 10));
    } else {
        assert(old(out)@ + fixed_digits(n as nat, 0) =~= old(out)@);
    }
}

/// The number of decimal digits of `n`.
fn count_digits(n: u32) -> (r: u32)
    ensures
        r == digit_count(n as nat),
        r <= n as nat + 1,
    decreases n,
{
    if n < 10 {
        1
    } else {
        let k = count_digits(n / 10);
        1 + k
    }
}

/// Appends `n` in decimal, padded with zeros to at least `w` digits.
fn push_padded(out: &mut String, n: u32, w: u32)
    ensures
        final(out)@ == old(out)@ + padded_decimal(n as nat, w as nat),
{
    let k = count_digits(n);
    let width = if k > w { k } else { w };
    push_fixed_digits(out, n, width);
}

/// The value of the decimal digits `cs[from..to]`, all of which are digits.
fn read_decimal(cs: &Vec<char>, from: usize, to: usize) -> (r: u32)
    requires
        from <= to <= cs@.len(),
        to - from <= 4,
        forall|i: int| from <= i < to ==> is_digit(#[trigger] cs@[i]),
    ensures
        r == decimal_value(cs@, from as int, to as int),
        r < 10000,
{
    let mut r: u32 = 0;
    let mut i = from;
    while i < to
        invariant
            from <= i <= to <= cs@.len(),
            to - from <= 4,
            forall|j: int| from <= j < to ==> is_digit(#[trigger] cs@[j]),
            r == decimal_value(cs@, from as int, i as int),
            r < pow10((i - from) as nat),
        decreases to - i,
    {
        let c = cs[i];
        assert(is_digit(cs@[i as int]));
        proof {
            reveal_with_fuel(pow10, 5);
        }
        r = r * 10 + (c as u32 - 48);
        i = i + 1;
    }
    proof {
        reveal_with_fuel(pow10, 5);
    }
    r
}

spec fn pow10(n: nat) -> nat
    decreases n,
{
    if n == 0 {
        1
    } else {
        10 * pow10((n - 1) as nat)
    }
}

/// `decimal_value` reads the same digits wherever they stand.
proof fn lemma_decimal_value_shift(s: Seq<char>, from: int, u: Seq<char>, len: int)
    requires
        0 <= len,
        0 <= from,
        from + len <= s.len(),
        len <= u.len(),
        forall|i: int| 0 <= i < len ==> s[from + i] == u[i],
    ensures
        decimal_value(s, from, from + len) == decimal_value(u, 0, len),
    decreases len,
{
    if len > 0 {
        lemma_decimal_value_shift(s, from, u, len - 1);
        assert(s[from + (len - 1)] == u[len - 1]);
    }
}

proof fn lemma_fixed_digits(n: nat, w: nat)
    requires
        n < pow10(w),
    ensures
        fixed_digits(n, w).len() == w,
        forall|i: int| 0 <= i < w ==> is_digit(#[trigger] fixed_digits(n, w)[i]),
        decimal_value(fixed_digits(n, w), 0, w as int) == n,
    decreases w,
{
    if w > 0 {
        let p = fixed_digits(n / 10, (w - 1) as nat);
        assert(n / 10 < pow10((w - 1) as nat));
        lemma_fixed_digits(n / 10, (w - 1) as nat);
        let f = fixed_digits(n, w);
        assert(f == p.push(digit_char(n % 10)));
        lemma_decimal_value_shift(f, 0, p, w - 1);
        assert(digit_value(f[w - 1]) == n % 10);
        assert forall|i: int| 0 <= i < w implies is_digit(#[trigger] f[i]) by {
            if i < w - 1 {
                assert(f[i] == p[i]);
            }
        }
    } else {
        assert(n == 0);
    }
}

/// Formatting a date with a year of at most four digits and a month and day
/// in range, reading the text back and formatting again gives the same text.
pub proof fn lemma_date_text_round_trip(d: Date)
    requires
        d.year <= 9999,
        1 <= d.month <= 12,
        1 <= d.day <= 31,
    ensures
        date_text(parse_date(date_text(d))) == date_text(d),
{
    if d.year != 0 {
        reveal_with_fuel(digit_count, 5);
        reveal_with_fuel(pow10, 5);
        let a = fixed_digits(d.year as nat, 4);
        let b = fixed_digits(d.month as nat, 2);
        let c = fixed_digits(d.day as nat, 2);
        lemma_fixed_digits(d.year as nat, 4);
        lemma_fixed_digits(d.month as nat, 2);
        lemma_fixed_digits(d.day as nat, 2);
        let t = date_text(d);
        assert(t == a + seq!['-'] + b + seq!['-'] + c);
        assert(t.len() == 10);
        assert forall|i: int| 0 <= i < 10 && i != 4 && i != 7 implies is_digit(#[trigger] t[i]) by {
            if i < 4 {
                assert(t[i] == a[i]);
            } else if i < 7 {
                assert(t[i] == b[i - 5]);
            } else {
                assert(t[i] == c[i - 8]);
            }
        }
        lemma_decimal_value_shift(t, 0, a, 4);
        lemma_decimal_value_shift(t, 5, b, 2);
        lemma_decimal_value_shift(t, 8, c, 2);
        assert(parse_date(t) == d);
    }
}

impl Date {
    /// A date with the given parts.
    pub fn new(year: u16, month: u8, day: u8) -> (r: Date)
        ensures
            r == (Date { year, month, day }),
    {
        Date { year, month, day }
    }

    /// `YYYY-MM-DD` for a set date, the empty string for an unset one.
    pub fn format_date(&self) -> (r: String)
        ensures
            r@ == date_text(*self),
    {
        let mut r = String::new();
        if self.year != 0 {
            push_padded(&mut r, self.year as u32, 4);
            push_char(&mut r, '-');
            push_padded(&mut r, self.month as u32, 2);
            push_char(&mut r, '-');
            push_padded(&mut r, self.day as u32, 2);
        }
        r
    }

    /// Whether the date is set, that is whether its year is not zero.
    pub fn is_set(&self) -> (r: bool)
        ensures
            r == (self.year != 0),
    {
        self.year != 0
    }
}

impl Default for Date {
    /// The unset date.
    fn default() -> (r: Date)
        ensures
            r == unset_date(),
    {
        Date { year: 0, month: 0, day: 0 }
    }
}

/// Reads a date token; anything but `YYYY-MM-DD` with a month below 13 and a
/// day below 32 gives the unset date.
pub fn deserialise_date(input: &str) -> (r: Date)
    ensures
        r == parse_date(input@),
{
    let cs = chars_of(input);
    date_of_chars(&cs)
}

/// Reads a date token given as characters.
pub fn date_of_chars(cs: &Vec<char>) -> (r: Date)
    ensures
        r == parse_date(cs@),
{
    if cs.len() != 10 || cs[4] != '-' || cs[7] != '-' {
        return Date { year: 0, month: 0, day: 0 };
    }
    let mut i: usize = 0;
    while i < 10
        invariant
            cs@.len() == 10,
            cs@[4] == '-',
            cs@[7] == '-',
            0 <= i <= 10,
            forall|j: int| 0 <= j < i && j != 4 && j != 7 ==> is_digit(#[trigger] cs@[j]),
        decreases 10 - i,
    {
        if i != 4 && i != 7 && !('0' <= cs[i] && cs[i] <= '9') {
            assert(!is_digit(cs@[i as int]));
            assert(!has_date_shape(cs@));
            return Date { year: 0, month: 0, day: 0 };
        }
        i = i + 1;
    }
    assert(has_date_shape(cs@));
    let year = read_decimal(&cs, 0, 4);
    let month = read_decimal(&cs, 5, 7);
    let day = read_decimal(&cs, 8, 10);
    if month < 13 && day < 32 {
        Date { year: year as u16, month: month as u8, day: day as u8 }
    } else {
        Date { year: 0, month: 0, day: 0 }
    }
}

impl std::str::FromStr for Date {
    type Err = ();

    fn from_str(s: &str) -> Result<Date, ()> {
        Ok(deserialise_date(s))
    }
}

impl From<&str> for Date {
    fn from(input: &str) -> (r: Date) {
        deserialise_date(input)
    }
}

impl vstd::std_specs::convert::FromSpecImpl<&str> for Date {
    open spec fn obeys_from_spec() -> bool {
        true
    }

    open spec fn from_spec(input: &str) -> Date {
        parse_date(input@)
    }
}

impl From<String> for Date {
    fn from(input: String) -> (r: Date) {
        deserialise_date(input.as_str())
    }
}

impl vstd::std_specs::convert::FromSpecImpl<String> for Date {
    open spec fn obeys_from_spec() -> bool {
        true
    }

    open spec fn from_spec(input: String) -> Date {
        parse_date(input@)
    }
}

} // verus!
