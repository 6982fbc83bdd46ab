use vstd::prelude::*;
use vstd::string::*;

use crate::date::{
    count_char, date_str_ok, day_field, find_first_char, first_at, month_field, u32_numeral_val,
    Date,
};
use crate::national_day::NationalDay;
use crate::parse_error::ParseError;

verus! {

/// The index of the second occurrence of `c` in `s`, or -1 if there is none.
pub open spec fn second_at(s: Seq<char>, c: char) -> int {
    let f = first_at(s, c);
    if f < 0 {
        -1
    } else {
        let r = first_at(s.skip(f + 1), c);
        if r < 0 {
            -1
        } else {
            f + 1 + r
        }
    }
}

/// A record line splits into three top-level fields when it has at least two
/// commas; the third field is everything after the second comma.
pub open spec fn line_has_three_fields(s: Seq<char>) -> bool {
    second_at(s, ',') >= 0
}

pub open spec fn country_of(s: Seq<char>) -> Seq<char> {
    s.subrange(0, first_at(s, ','))
}

pub open spec fn date_field_of(s: Seq<char>) -> Seq<char> {
    s.subrange(first_at(s, ',') + 1, second_at(s, ','))
}

/// `s` with one surrounding pair of double quotes stripped, when it both
/// starts and ends with one; otherwise unchanged. Interior quotes stay.
pub open spec fn strip_outer_quotes(s: Seq<char>) -> Seq<char> {
    if s.len() >= 2 && s[0] == '"' && s.last() == '"' {
        s.subrange(1, s.len() - 1)
    } else {
        s
    }
}

pub open spec fn extra_of(s: Seq<char>) -> Seq<char> {
    strip_outer_quotes(s.subrange(second_at(s, ',') + 1, s.len() as int))
}

/// A line parses when it has three comma fields and its middle field is a
/// well-formed date string.
#[verifier::opaque]
pub open spec fn line_ok(s: Seq<char>) -> bool {
    line_has_three_fields(s) && date_str_ok(date_field_of(s))
}

#[verifier::opaque]
pub open spec fn line_date(s: Seq<char>) -> Date {
    Date {
        day: u32_numeral_val(day_field(date_field_of(s))) as u32,
        month: u32_numeral_val(month_field(date_field_of(s))) as u32,
    }
}

/// The record a well-formed line describes, field by field.
#[verifier::opaque]
pub open spec fn record_matches_line(r: NationalDay, s: Seq<char>) -> bool {
    &&& r.country@ == country_of(s)
    &&& r.date == line_date(s)
    &&& r.extra_info@ == extra_of(s)
}

/// The error a malformed line produces: a token-count error when the line
/// has fewer than three comma fields or its date field has not exactly two
/// slash fields, else a numeric error.
pub open spec fn line_error(s: Seq<char>) -> ParseError {
    if !line_has_three_fields(s) {
        ParseError::IncorrectNumberOfTokensError
    } else if count_char(date_field_of(s), '/') != 1 {
        ParseError::IncorrectNumberOfTokensError
    } else {
        ParseError::ParseIntError
    }
}

fn strip_quotes(s: &str) -> (r: String)
    ensures
        r@ == strip_outer_quotes(s@),
{
    let n = s.unicode_len();
    if n >= 2 && s.get_char(0) == '"' && s.get_char(n - 1) == '"' {
        s.substring_char(1, n - 1).to_owned()
    } else {
        s.to_owned()
    }
}

/// Parses one line of the national-day list, of the form
/// `country,day/month,extra info`. The extra-info field is the whole rest of
/// the line after the second comma, so it may itself hold commas; a pair of
/// double quotes surrounding it is stripped.
pub fn read_national_day_from_line(line: String) -> (r: Result<NationalDay, ParseError>)
    ensures
        r is Ok <==> line_ok(line@),
        r is Ok ==> record_matches_line(r->Ok_0, line@),
        r is Err ==> r->Err_0 == line_error(line@),
{
    proof {
        reveal(line_ok);
        reveal(line_date);
        reveal(record_matches_line);
    }
    let s = line.as_str();
    let n = s.unicode_len();
    let c1 = match find_first_char(s, ',') {
        Some(i) => i,
        None => {
            return Err(ParseError::IncorrectNumberOfTokensError);
        },
    };
    let rest = s.substring_char(c1 + 1, n);
    proof {
        assert(rest@ =~= s@.skip(c1 + 1));
    }
    let c2 = match find_first_char(rest, ',') {
        Some(i) => c1 + 1 + i,
        None => {
            return Err(ParseError::IncorrectNumberOfTokensError);
        },
    };
    assert(second_at(s@, ',') == c2 as int);
    let country_str = s.substring_char(0, c1);
    let raw_date = s.substring_char(c1 + 1, c2);
    let extra_str = s.substring_char(c2 + 1, n);
    assert(country_str@ == country_of(s@));
    assert(raw_date@ == date_field_of(s@));
    let date = match Date::from_str(raw_date) {
        Ok(d) => d,
        Err(e) => {
            return Err(e);
        },
    };
    let extra_info = strip_quotes(extra_str);
    let country = country_str.to_owned();
    Ok(NationalDay { country, date, extra_info })
}

} // verus!
