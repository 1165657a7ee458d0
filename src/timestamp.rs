//! Capture timestamps: the fixed `yyMMdd_HHmmssSSS` text form and its value.
use vstd::prelude::*;

verus! {

/// A capture time with millisecond precision.
///
/// The calendar fields are what the text form shows; `instant` is the same
/// moment as milliseconds since the Unix epoch, which is what ordering and
/// time differences go by.
#[derive(Debug, Clone, Copy, PartialEq, Eq, Structural)]
pub struct Timestamp {
    pub year: i32,
    pub month: u32,
    pub day: u32,
    pub hour: u32,
    pub minute: u32,
    pub second: u32,
    pub milli: u32,
    pub instant: i64,
}

/// Number of characters in the text form of a timestamp.
pub const STAMP_LEN: usize = 16;

pub open spec fn is_digit(c: char) -> bool {
    48 <= (c as u32) <= 57
}

pub open spec fn digit_value(c: char) -> int {
    (c as u32) - 48
}

/// The two-digit number at positions `i` and `i + 1`.
pub open spec fn num2(s: Seq<char>, i: int) -> int {
    10 * digit_value(s[i]) + digit_value(s[i + 1])
}

/// Shape of the text form: sixteen characters, digits everywhere but an
/// underscore at position six.
pub open spec fn is_stamp_text(s: Seq<char>) -> bool {
    &&& s.len() == 16
    &&& s[6] == '_'
    &&& forall|i: int| 0 <= i < 16 && i != 6 ==> is_digit(#[trigger] s[i])
}

/// The full year a two-digit year stands for: 1970 through 2069.
pub open spec fn full_year(yy: int) -> int {
    if yy < 70 {
        2000 + yy
    } else {
        1900 + yy
    }
}

pub open spec fn is_leap_year(y: int) -> bool {
    (y % 4 == 0 && y % 100 != 0) || y % 400 == 0
}

pub open spec fn days_in_month(y: int, m: int) -> int {
    if m == 2 {
        if is_leap_year(y) {
            29
        } else {
            28
        }
    } else if m == 4 || m == 6 || m == 9 || m == 11 {
        30
    } else {
        31
    }
}

pub open spec fn text_year(s: Seq<char>) -> int {
    full_year(num2(s, 0))
}

pub open spec fn text_milli(s: Seq<char>) -> int {
    100 * digit_value(s[13]) + 10 * digit_value(s[14]) + digit_value(s[15])
}

/// The digits of a well-shaped text name a real date and a time of day whose
/// seconds are at most `max_second`.
pub open spec fn text_in_range(s: Seq<char>, max_second: int) -> bool {
    &&& 1 <= num2(s, 2) <= 12
    &&& 1 <= num2(s, 4) <= days_in_month(text_year(s), num2(s, 2))
    &&& num2(s, 7) <= 23
    &&& num2(s, 9) <= 59
    &&& num2(s, 11) <= max_second
}

/// A text that denotes an ordinary (non-leap-second) moment.
pub open spec fn is_valid_stamp_text(s: Seq<char>) -> bool {
    is_stamp_text(s) && text_in_range(s, 59)
}

/// The calendar fields of `t` are the ones written in `s`.
pub open spec fn fields_match(t: Timestamp, s: Seq<char>) -> bool {
    &&& t.year == text_year(s)
    &&& t.month == num2(s, 2)
    &&& t.day == num2(s, 4)
    &&& t.hour == num2(s, 7)
    &&& t.minute == num2(s, 9)
    &&& t.second == num2(s, 11)
    &&& t.milli == text_milli(s)
}

/// What chrono's parser makes of a sixteen-character text in the fixed format.
pub uninterp spec fn stamp_of(s: Seq<char>) -> Option<Timestamp>;

/// Relies on `chrono::NaiveDateTime::parse_from_str` with the format
/// `%y%m%d_%H%M%S%3f`, and on chrono's calendar accessors and
/// `timestamp_millis` for the fields of the result. On a text of digits in the
/// fixed shape, chrono reads two digits per field (three for the
/// milliseconds), maps a two-digit year below 70 to 20yy and any other to
/// 19yy, and accepts the date exactly when the month, day, hour, minute and
/// second (up to a leap second 60) are in range.
#[verifier::external_body]
fn parse_stamp(text: &str) -> (r: Option<Timestamp>)
    ensures
        r == stamp_of(text@),
        is_valid_stamp_text(text@) ==> r is Some && fields_match(r->0, text@),
        is_stamp_text(text@) && !text_in_range(text@, 60) ==> r is None,
{
    let dt = chrono::NaiveDateTime::parse_from_str(text, "%y%m%d_%H%M%S%3f").ok()?;
    let utc = dt.and_utc();
    Some(Timestamp {
        year: chrono::Datelike::year(&dt),
        month: chrono::Datelike::month(&dt),
        day: chrono::Datelike::day(&dt),
        hour: chrono::Timelike::hour(&dt),
        minute: chrono::Timelike::minute(&dt),
        second: chrono::Timelike::second(&dt),
        milli: utc.timestamp_subsec_millis(),
        instant: utc.timestamp_millis(),
    })
}


impl Timestamp {
    /// Calendar fields in their ordinary ranges, a year that is not negative
    /// and milliseconds below one second.
    pub open spec fn is_valid(&self) -> bool {
        &&& self.year >= 0
        &&& 1 <= self.month <= 12
        &&& 1 <= self.day <= days_in_month(self.year as int, self.month as int)
        &&& self.hour <= 23
        &&& self.minute <= 59
        &&& self.second <= 59
        &&& self.milli <= 999
    }

    /// Writes the timestamp in the fixed `yyMMdd_HHmmssSSS` form.
    pub fn format(&self) -> (r: String)
        requires
            self.is_valid(),
        ensures
            r@ == text_of(*self),
    {
        let mut out = String::new();
        push_two(&mut out, (self.year % 100) as u32);
        push_two(&mut out, self.month);
        push_two(&mut out, self.day);
        proof {
            reveal_strlit("_");
        }
        out.append("_");
        push_two(&mut out, self.hour);
        push_two(&mut out, self.minute);
        push_two(&mut out, self.second);
        let hundreds = self.milli / 100;
        out.append(digit_text(hundreds));
        push_two(&mut out, self.milli % 100);
        proof {
            lemma_three_digits_split(self.milli as int);
            assert(out@ =~= text_of(*self));
        }
        out
    }
}

/// The character of a decimal digit.
pub open spec fn digit_char(d: int) -> char {
    if d == 0 {
        '0'
    } else if d == 1 {
        '1'
    } else if d == 2 {
        '2'
    } else if d == 3 {
        '3'
    } else if d == 4 {
        '4'
    } else if d == 5 {
        '5'
    } else if d == 6 {
        '6'
    } else if d == 7 {
        '7'
    } else if d == 8 {
        '8'
    } else {
        '9'
    }
}

pub open spec fn two_digits(v: int) -> Seq<char> {
    seq![digit_char(v / 10), digit_char(v % 10)]
}

pub open spec fn three_digits(v: int) -> Seq<char> {
    seq![digit_char(v / 100), digit_char((v / 10) % 10), digit_char(v % 10)]
}

/// The text form of a timestamp: two digits each for the year within its
/// century, month, day, hour, minute and second, three for the milliseconds.
pub open spec fn text_of(t: Timestamp) -> Seq<char> {
    two_digits(t.year as int % 100) + two_digits(t.month as int) + two_digits(t.day as int) + seq!['_']
        + two_digits(t.hour as int) + two_digits(t.minute as int) + two_digits(t.second as int)
        + three_digits(t.milli as int)
}

proof fn lemma_three_digits_split(v: int)
    requires
        0 <= v <= 999,
    ensures
        three_digits(v) == seq![digit_char(v / 100)] + two_digits(v % 100),
{
    assert((v % 100) / 10 == (v / 10) % 10) by (nonlinear_arith)
        requires
            0 <= v <= 999,
    ;
    assert((v % 100) % 10 == v % 10) by (nonlinear_arith)
        requires
            0 <= v <= 999,
    ;
    assert(three_digits(v) =~= seq![digit_char(v / 100)] + two_digits(v % 100));
}

fn digit_text(d: u32) -> (r: &'static str)
    requires
        d < 10,
    ensures
        r@ == seq![digit_char(d as int)],
{
    proof {
        reveal_strlit("0");
        reveal_strlit("1");
        reveal_strlit("2");
        reveal_strlit("3");
        reveal_strlit("4");
        reveal_strlit("5");
        reveal_strlit("6");
        reveal_strlit("7");
        reveal_strlit("8");
        reveal_strlit("9");
    }
    match d {
        0 => "0",
        1 => "1",
        2 => "2",
        3 => "3",
        4 => "4",
        5 => "5",
        6 => "6",
        7 => "7",
        8 => "8",
        _ => "9",
    }
}

fn push_two(out: &mut String, v: u32)
    requires
        v < 100,
    ensures
        final(out)@ == old(out)@ + two_digits(v as int),
{
    out.append(digit_text(v / 10));
    out.append(digit_text(v % 10));
    proof {
        assert(final(out)@ =~= old(out)@ + two_digits(v as int));
    }
}

/// Reads a timestamp from its sixteen-character text form.
///
/// Any other length gives `None`; a text of that length gives what chrono's
/// parser makes of it.
pub fn parse_timestamp(text: &str) -> (r: Option<Timestamp>)
    ensures
        r == (if text@.len() == STAMP_LEN {
            stamp_of(text@)
        } else {
            None
        }),
        is_valid_stamp_text(text@) ==> r is Some && fields_match(r->0, text@),
{
    if text.unicode_len() != STAMP_LEN {
        return None;
    }
    parse_stamp(text)
}

proof fn lemma_digit_round_trip(c: char)
    requires
        is_digit(c),
    ensures
        digit_char(digit_value(c)) == c,
        0 <= digit_value(c) <= 9,
{
}

proof fn lemma_char_round_trip(d: int)
    requires
        0 <= d <= 9,
    ensures
        is_digit(digit_char(d)),
        digit_value(digit_char(d)) == d,
{
}

proof fn lemma_split_two(x: int, y: int)
    requires
        0 <= x <= 9,
        0 <= y <= 9,
    ensures
        (10 * x + y) / 10 == x,
        (10 * x + y) % 10 == y,
{
    assert((10 * x + y) / 10 == x) by (nonlinear_arith)
        requires
            0 <= x <= 9,
            0 <= y <= 9,
    ;
    assert((10 * x + y) % 10 == y) by (nonlinear_arith)
        requires
            0 <= x <= 9,
            0 <= y <= 9,
    ;
}

proof fn lemma_split_three(x: int, y: int, z: int)
    requires
        0 <= x <= 9,
        0 <= y <= 9,
        0 <= z <= 9,
    ensures
        (100 * x + 10 * y + z) / 100 == x,
        ((100 * x + 10 * y + z) / 10) % 10 == y,
        (100 * x + 10 * y + z) % 10 == z,
{
    assert((100 * x + 10 * y + z) / 100 == x) by (nonlinear_arith)
        requires
            0 <= x <= 9,
            0 <= y <= 9,
            0 <= z <= 9,
    ;
    assert((100 * x + 10 * y + z) / 10 == 10 * x + y) by (nonlinear_arith)
        requires
            0 <= x <= 9,
            0 <= y <= 9,
            0 <= z <= 9,
    ;
    lemma_split_two(x, y);
    assert((100 * x + 10 * y + z) % 10 == z) by (nonlinear_arith)
        requires
            0 <= x <= 9,
            0 <= y <= 9,
            0 <= z <= 9,
    ;
}

proof fn lemma_two_chars(s: Seq<char>, i: int)
    requires
        0 <= i,
        i + 1 < s.len(),
        is_digit(s[i]),
        is_digit(s[i + 1]),
    ensures
        two_digits(num2(s, i)) == s.subrange(i, i + 2),
{
    lemma_digit_round_trip(s[i]);
    lemma_digit_round_trip(s[i + 1]);
    lemma_split_two(digit_value(s[i]), digit_value(s[i + 1]));
    assert(two_digits(num2(s, i)) =~= s.subrange(i, i + 2));
}

/// Writing out what was read from a text in the fixed form gives back that
/// text: for every sixteen-character text `s` of that shape and every
/// timestamp `t` whose fields are the ones written in `s` (as `parse_timestamp`
/// returns for a text that denotes an ordinary moment), `text_of(t) == s`.
pub proof fn lemma_text_round_trip(s: Seq<char>, t: Timestamp)
    requires
        is_stamp_text(s),
        fields_match(t, s),
    ensures
        text_of(t) == s,
{
    assert(is_digit(s[0]) && is_digit(s[1]) && is_digit(s[2]) && is_digit(s[3]));
    assert(is_digit(s[4]) && is_digit(s[5]) && is_digit(s[7]) && is_digit(s[8]));
    assert(is_digit(s[9]) && is_digit(s[10]) && is_digit(s[11]) && is_digit(s[12]));
    assert(is_digit(s[13]) && is_digit(s[14]) && is_digit(s[15]));
    lemma_two_chars(s, 0);
    lemma_two_chars(s, 2);
    lemma_two_chars(s, 4);
    lemma_two_chars(s, 7);
    lemma_two_chars(s, 9);
    lemma_two_chars(s, 11);
    lemma_digit_round_trip(s[13]);
    lemma_digit_round_trip(s[14]);
    lemma_digit_round_trip(s[15]);
    lemma_split_three(digit_value(s[13]), digit_value(s[14]), digit_value(s[15]));
    assert(three_digits(t.milli as int) =~= s.subrange(13, 16));
    assert(t.year as int % 100 == num2(s, 0));
    assert(s =~= s.subrange(0, 2) + s.subrange(2, 4) + s.subrange(4, 6) + seq!['_'] + s.subrange(
        7,
        9,
    ) + s.subrange(9, 11) + s.subrange(11, 13) + s.subrange(13, 16));
}

/// Reading back the text form of a valid timestamp in the years that a
/// two-digit year denotes gives the same calendar fields: `text_of(t)` has
/// the fixed shape, denotes an ordinary moment, and its fields are `t`'s.
pub proof fn lemma_value_round_trip(t: Timestamp)
    requires
        t.is_valid(),
        1970 <= t.year <= 2069,
    ensures
        is_valid_stamp_text(text_of(t)),
        fields_match(t, text_of(t)),
{
    let s = text_of(t);
    let yy = t.year as int % 100;
    lemma_char_round_trip(yy / 10);
    lemma_char_round_trip(yy % 10);
    lemma_char_round_trip(t.month as int / 10);
    lemma_char_round_trip(t.month as int % 10);
    lemma_char_round_trip(t.day as int / 10);
    lemma_char_round_trip(t.day as int % 10);
    lemma_char_round_trip(t.hour as int / 10);
    lemma_char_round_trip(t.hour as int % 10);
    lemma_char_round_trip(t.minute as int / 10);
    lemma_char_round_trip(t.minute as int % 10);
    lemma_char_round_trip(t.second as int / 10);
    lemma_char_round_trip(t.second as int % 10);
    lemma_char_round_trip(t.milli as int / 100);
    lemma_char_round_trip((t.milli as int / 10) % 10);
    lemma_char_round_trip(t.milli as int % 10);
    assert(s.len() == 16);
    assert(s[6] == '_');
    assert(num2(s, 0) == yy);
    assert(text_year(s) == t.year);
    assert(num2(s, 2) == t.month);
    assert(num2(s, 4) == t.day);
    assert(num2(s, 7) == t.hour);
    assert(num2(s, 9) == t.minute);
    assert(num2(s, 11) == t.second);
    assert(text_milli(s) == t.milli);
}

} // verus!
