use vstd::prelude::*;
use vstd::string::*;

use crate::parse_error::ParseError;

verus! {

/// A calendar day: a day-of-month and a month, with no year.
/// Equality and hashing are structural on (day, month).
#[derive(Debug, Hash, Eq, PartialEq, Copy, Clone, Structural)]
pub struct Date {
    pub day: u32,
    pub month: u32,
}

// ---------------------------------------------------------------------------
// Decimal numerals
// ---------------------------------------------------------------------------

pub open spec fn is_digit_char(c: char) -> bool {
    '0' as u32 <= c as u32 && c as u32 <= '9' as u32
}

pub open spec fn digit_val(c: char) -> nat {
    (c as u32 - '0' as u32) as nat
}

/// The value of a sequence of decimal digits, most significant first.
pub open spec fn digits_val(s: Seq<char>) -> nat
    decreases s.len(),
{
    if s.len() == 0 {
        0
    } else {
        digits_val(s.drop_last()) * 10 + digit_val(s.last())
    }
}

pub open spec fn all_digits(s: Seq<char>) -> bool {
    forall|i: int| 0 <= i < s.len() ==> is_digit_char(#[trigger] s[i])
}

/// The digits of a numeral, after an optional leading `+` sign.
pub open spec fn numeral_body(s: Seq<char>) -> Seq<char> {
    if s.len() > 0 && s[0] == '+' {
        s.skip(1)
    } else {
        s
    }
}

/// Whether `s` is a decimal numeral (optional `+`, then one or more digits)
/// whose value fits in `u32`.
pub open spec fn is_u32_numeral(s: Seq<char>) -> bool {
    let b = numeral_body(s);
    b.len() > 0 && all_digits(b) && digits_val(b) <= u32::MAX
}

pub open spec fn u32_numeral_val(s: Seq<char>) -> nat {
    digits_val(numeral_body(s))
}

proof fn lemma_digits_val_prefix(s: Seq<char>, k: int)
    requires
        0 <= k <= s.len(),
    ensures
        digits_val(s.subrange(0, k)) <= digits_val(s),
    decreases s.len(),
{
    if k == s.len() {
        assert(s.subrange(0, k) =~= s);
    } else {
        assert(s.drop_last().subrange(0, k) =~= s.subrange(0, k));
        lemma_digits_val_prefix(s.drop_last(), k);
    }
}

/// Parses a decimal numeral into a `u32`, accepting an optional leading `+`,
/// exactly like the numeric fields of a date string.
fn parse_u32_field(s: &str) -> (r: Result<u32, ParseError>)
    ensures
        r is Ok <==> is_u32_numeral(s@),
        r is Ok ==> r->Ok_0 == u32_numeral_val(s@),
        r is Err ==> r == Err::<u32, ParseError>(ParseError::ParseIntError),
{
    let n = s.unicode_len();
    let start: usize = if n > 0 && s.get_char(0) == '+' {
        1
    } else {
        0
    };
    if n == start {
        assert(numeral_body(s@).len() == 0);
        return Err(ParseError::ParseIntError);
    }
    let ghost body = numeral_body(s@);
    assert(body =~= s@.skip(start as int));
    let mut acc: u64 = 0;
    let mut i: usize = start;
    while i < n
        invariant
            start <= i <= n,
            n == s@.len(),
            start <= 1,
            n > start,
            body == numeral_body(s@),
            body =~= s@.skip(start as int),
            all_digits(body.subrange(0, i - start)),
            acc == digits_val(body.subrange(0, i - start)),
            acc <= u32::MAX,
        decreases n - i,
    {
        let c = s.get_char(i);
        let cv = c as u32;
        proof {
            assert(body.subrange(0, i + 1 - start).drop_last() =~= body.subrange(0, i - start));
            assert(body[i - start] == s@[i as int]);
        }
        if cv < 48 || cv > 57 {
            assert(!all_digits(body)) by {
                assert(!is_digit_char(body[i - start]));
            }
            return Err(ParseError::ParseIntError);
        }
        acc = acc * 10 + (cv - 48) as u64;
        assert(acc == digits_val(body.subrange(0, i + 1 - start)));
        if acc > 0xFFFF_FFFFu64 {
            proof {
                if all_digits(body) {
                    lemma_digits_val_prefix(body, i + 1 - start);
                }
            }
            return Err(ParseError::ParseIntError);
        }
        i += 1;
    }
    proof {
        assert(body.subrange(0, n - start) =~= body);
    }
    Ok(acc as u32)
}

// ---------------------------------------------------------------------------
// Date strings
// ---------------------------------------------------------------------------

/// How many times `c` occurs in `s`.
pub open spec fn count_char(s: Seq<char>, c: char) -> nat
    decreases s.len(),
{
    if s.len() == 0 {
        0
    } else {
        count_char(s.drop_last(), c) + if s.last() == c {
            1nat
        } else {
            0nat
        }
    }
}

/// The index of the first occurrence of `c` in `s`, or -1 if there is none.
pub open spec fn first_at(s: Seq<char>, c: char) -> int
    decreases s.len(),
{
    if s.len() == 0 {
        -1
    } else {
        let p = first_at(s.drop_last(), c);
        if p >= 0 {
            p
        } else if s.last() == c {
            s.len() - 1
        } else {
            -1
        }
    }
}

proof fn lemma_first_at_prefix(s: Seq<char>, k: int, c: char)
    requires
        0 <= k <= s.len(),
        first_at(s.subrange(0, k), c) >= 0,
    ensures
        first_at(s, c) == first_at(s.subrange(0, k), c),
    decreases s.len(),
{
    if k == s.len() {
        assert(s.subrange(0, k) =~= s);
    } else {
        assert(s.drop_last().subrange(0, k) =~= s.subrange(0, k));
        lemma_first_at_prefix(s.drop_last(), k, c);
    }
}

/// Finds the first occurrence of `c` in `s`, scanning left to right.
pub fn find_first_char(s: &str, c: char) -> (r: Option<usize>)
    ensures
        r is Some ==> 0 <= first_at(s@, c) < s@.len() && r->0 == first_at(s@, c),
        r is None ==> first_at(s@, c) == -1,
{
    let n = s.unicode_len();
    let mut i: usize = 0;
    proof {
        assert(first_at(s@.subrange(0, 0), c) == -1) by {
            assert(s@.subrange(0, 0) =~= Seq::<char>::empty());
        }
    }
    while i < n
        invariant
            0 <= i <= n,
            n == s@.len(),
            first_at(s@.subrange(0, i as int), c) == -1,
        decreases n - i,
    {
        proof {
            assert(s@.subrange(0, i + 1).drop_last() =~= s@.subrange(0, i as int));
            assert(s@.subrange(0, i + 1).last() == s@[i as int]);
        }
        let ch = s.get_char(i);
        if ch == c {
            proof {
                assert(first_at(s@.subrange(0, i + 1), c) == i as int);
                lemma_first_at_prefix(s@, i + 1, c);
            }
            return Some(i);
        }
        i += 1;
    }
    proof {
        assert(s@.subrange(0, n as int) =~= s@);
    }
    None
}

pub open spec fn day_field(s: Seq<char>) -> Seq<char> {
    s.subrange(0, first_at(s, '/'))
}

pub open spec fn month_field(s: Seq<char>) -> Seq<char> {
    s.subrange(first_at(s, '/') + 1, s.len() as int)
}

/// A date string is well-formed when it has exactly one `/` and both sides
/// are `u32` numerals. No range check is made on the values themselves:
/// out-of-range days and months are accepted here by design.
pub open spec fn date_str_ok(s: Seq<char>) -> bool {
    &&& count_char(s, '/') == 1
    &&& is_u32_numeral(day_field(s))
    &&& is_u32_numeral(month_field(s))
}

impl Date {
    /// Parses a date from the two-field form `day/month`, e.g. `17/05`.
    ///
    /// Fails with `IncorrectNumberOfTokensError` unless the string has exactly
    /// one `/`, and with `ParseIntError` unless both fields are `u32` numerals.
    pub fn from_str(s: &str) -> (r: Result<Date, ParseError>)
        ensures
            r is Ok <==> date_str_ok(s@),
            r is Ok ==> (r->Ok_0).day == u32_numeral_val(day_field(s@)),
            r is Ok ==> (r->Ok_0).month == u32_numeral_val(month_field(s@)),
            count_char(s@, '/') != 1 ==> r == Err::<Date, ParseError>(
                ParseError::IncorrectNumberOfTokensError,
            ),
            count_char(s@, '/') == 1 && !date_str_ok(s@) ==> r == Err::<Date, ParseError>(
                ParseError::ParseIntError,
            ),
    {
        let n = s.unicode_len();
        let mut i: usize = 0;
        let mut count: usize = 0;
        let mut first: usize = 0;
        while i < n
            invariant
                0 <= i <= n,
                n == s@.len(),
                count <= i,
                count == count_char(s@.subrange(0, i as int), '/'),
                count > 0 ==> first < i && first == first_at(s@.subrange(0, i as int), '/'),
                count == 0 ==> first_at(s@.subrange(0, i as int), '/') == -1,
            decreases n - i,
        {
            proof {
                assert(s@.subrange(0, i + 1).drop_last() =~= s@.subrange(0, i as int));
                assert(s@.subrange(0, i + 1).last() == s@[i as int]);
            }
            let c = s.get_char(i);
            if c == '/' {
                if count == 0 {
                    first = i;
                }
                count += 1;
            }
            i += 1;
        }
        proof {
            assert(s@.subrange(0, n as int) =~= s@);
        }
        if count != 1 {
            return Err(ParseError::IncorrectNumberOfTokensError);
        }
        let day_str = s.substring_char(0, first);
        let month_str = s.substring_char(first + 1, n);
        assert(day_str@ == day_field(s@));
        assert(month_str@ == month_field(s@));
        let day = match parse_u32_field(day_str) {
            Ok(v) => v,
            Err(_) => {
                return Err(ParseError::ParseIntError);
            },
        };
        let month = match parse_u32_field(month_str) {
            Ok(v) => v,
            Err(_) => {
                return Err(ParseError::ParseIntError);
            },
        };
        Ok(Date { day, month })
    }
}

// ---------------------------------------------------------------------------
// Display
// ---------------------------------------------------------------------------

pub open spec fn month_name_spec(m: int) -> Seq<char> {
    if m == 1 {
        "January"@
    } else if m == 2 {
        "February"@
    } else if m == 3 {
        "March"@
    } else if m == 4 {
        "April"@
    } else if m == 5 {
        "May"@
    } else if m == 6 {
        "June"@
    } else if m == 7 {
        "July"@
    } else if m == 8 {
        "August"@
    } else if m == 9 {
        "September"@
    } else if m == 10 {
        "October"@
    } else if m == 11 {
        "November"@
    } else {
        "December"@
    }
}

pub open spec fn digit_char(v: int) -> char {
    if v == 0 {
        '0'
    } else if v == 1 {
        '1'
    } else if v == 2 {
        '2'
    } else if v == 3 {
        '3'
    } else if v == 4 {
        '4'
    } else if v == 5 {
        '5'
    } else if v == 6 {
        '6'
    } else if v == 7 {
        '7'
    } else if v == 8 {
        '8'
    } else {
        '9'
    }
}

/// The decimal rendering of a day-of-month, space-padded to two characters
/// as the long display form prints it.
pub open spec fn day_digits(d: int) -> Seq<char> {
    if d < 10 {
        seq![' ', digit_char(d)]
    } else {
        seq![digit_char(d / 10), digit_char(d % 10)]
    }
}

/// The number of days of each month in a common (non-leap) year; the display
/// routine anchors every date in such a year.
pub open spec fn days_in_month(m: int) -> int {
    if m == 2 {
        28
    } else if m == 4 || m == 6 || m == 9 || m == 11 {
        30
    } else {
        31
    }
}

fn month_name(m: u32) -> (r: &'static str)
    requires
        1 <= m <= 12,
    ensures
        r@ == month_name_spec(m as int),
{
    match m {
        1 => "January",
        2 => "February",
        3 => "March",
        4 => "April",
        5 => "May",
        6 => "June",
        7 => "July",
        8 => "August",
        9 => "September",
        10 => "October",
        11 => "November",
        _ => "December",
    }
}

fn digit_str(v: u32) -> (r: &'static str)
    requires
        v <= 9,
    ensures
        r@ == seq![digit_char(v as int)],
{
    let r: &'static str = match v {
        0 => "0",
        1 => "1",
        2 => "2",
        3 => "3",
        4 => "4",
        5 => "5",
        6 => "6",
        7 => "7",
        8 => "8",
        _ => "9",
    };
    proof {
        reveal_strlit("0");
        reveal_strlit("1");
        reveal_strlit("2");
        reveal_strlit("3");
        reveal_strlit("4");
        reveal_strlit("5");
        reveal_strlit("6");
        reveal_strlit("7");
        reveal_strlit("8");
        reveal_strlit("9");
        assert(r@ =~= seq![digit_char(v as int)]);
    }
    r
}

fn day_string(d: u32) -> (r: String)
    requires
        d <= 99,
    ensures
        r@ == day_digits(d as int),
{
    let mut out = String::new();
    if d >= 10 {
        out.append(digit_str(d / 10));
    } else {
        out.append(" ");
    }
    out.append(digit_str(d % 10));
    proof {
        reveal_strlit(" ");
        assert(out@ =~= day_digits(d as int));
    }
    out
}

impl Date {
    /// A date the long-form display accepts: a real day of a common year.
    pub open spec fn valid_calendar_date(self) -> bool {
        &&& 1 <= self.month <= 12
        &&& 1 <= self.day <= days_in_month(self.month as int)
    }

    /// The long-form rendering of a date, e.g. `May 17`, the day space-padded
    /// to two characters, with a ` (today)` suffix when day and month equal
    /// those of `today`.
    pub open spec fn display_spec(self, today: Date) -> Seq<char> {
        month_name_spec(self.month as int) + " "@ + day_digits(self.day as int) + if self.day
            == today.day && self.month == today.month {
            " (today)"@
        } else {
            Seq::<char>::empty()
        }
    }

    pub fn is_displayable(&self) -> (r: bool)
        ensures
            r == self.valid_calendar_date(),
    {
        let dim: u32 = if self.month == 2 {
            28
        } else if self.month == 4 || self.month == 6 || self.month == 9 || self.month == 11 {
            30
        } else {
            31
        };
        1 <= self.month && self.month <= 12 && 1 <= self.day && self.day <= dim
    }

    /// Renders the date long-form against an explicitly supplied current date,
    /// so that the clock is injected rather than read ambiently.
    pub fn display_string(&self, today: Date) -> (r: String)
        requires
            self.valid_calendar_date(),
        ensures
            r@ == self.display_spec(today),
    {
        let mut out = String::from_str(month_name(self.month));
        out.append(" ");
        let ds = day_string(self.day);
        out.append(ds.as_str());
        if self.day == today.day && self.month == today.month {
            out.append(" (today)");
        }
        proof {
            assert(out@ =~= self.display_spec(today));
        }
        out
    }

    /// Renders the date long-form against the system clock: the result is
    /// this date's rendering for one valid clock date.
    pub fn display_string_now(&self) -> (r: String)
        requires
            self.valid_calendar_date(),
        ensures
            exists|t: Date|
                1 <= t.day <= 31 && 1 <= t.month <= 12 && r@ == #[trigger] self.display_spec(t),
    {
        let today = current_date();
        let r = self.display_string(today);
        proof {
            assert(r@ == self.display_spec(today));
        }
        r
    }
}

/// Relies on `chrono::Utc::now` and `chrono::Datelike::{day, month}`:
/// `day()` ranges over 1..=31 and `month()` over 1..=12. Which date comes
/// back depends on the wall clock, so nothing more is stated.
#[verifier::external_body]
pub(crate) fn current_date() -> (d: Date)
    ensures
        1 <= d.day <= 31,
        1 <= d.month <= 12,
{
    let now = chrono::Utc::now();
    Date { day: chrono::Datelike::day(&now), month: chrono::Datelike::month(&now) }
}

} // verus!
