use vstd::prelude::*;
use vstd::string::*;

use crate::date::{find_first_char, first_at};

verus! {

/// The index of the last occurrence of `c` in `s`, or -1 if there is none.
pub open spec fn last_at(s: Seq<char>, c: char) -> int
    decreases s.len(),
{
    if s.len() == 0 {
        -1
    } else if s.last() == c {
        s.len() - 1
    } else {
        last_at(s.drop_last(), c)
    }
}

/// A file name up to (not including) its first `.`; the whole name when it
/// has none.
pub open spec fn stem_of(s: Seq<char>) -> Seq<char> {
    if first_at(s, '.') >= 0 {
        s.subrange(0, first_at(s, '.'))
    } else {
        s
    }
}

/// The text after the last `.`; the whole text when it has none.
pub open spec fn ext_of(s: Seq<char>) -> Seq<char> {
    if last_at(s, '.') >= 0 {
        s.subrange(last_at(s, '.') + 1, s.len() as int)
    } else {
        s
    }
}

fn str_eq(a: &str, b: &str) -> (r: bool)
    ensures
        r == (a@ == b@),
{
    let na = a.unicode_len();
    let nb = b.unicode_len();
    if na != nb {
        return false;
    }
    let mut i: usize = 0;
    while i < na
        invariant
            0 <= i <= na,
            na == a@.len(),
            na == b@.len(),
            forall|j: int| 0 <= j < i ==> a@[j] == b@[j],
        decreases na - i,
    {
        if a.get_char(i) != b.get_char(i) {
            return false;
        }
        i += 1;
    }
    proof {
        assert(a@ =~= b@);
    }
    true
}

/// Finds the last occurrence of `c` in `s`.
pub fn find_last_char(s: &str, c: char) -> (r: Option<usize>)
    ensures
        r is Some ==> 0 <= last_at(s@, c) < s@.len() && r->0 == last_at(s@, c),
        r is None ==> last_at(s@, c) == -1,
{
    let n = s.unicode_len();
    let mut i: usize = 0;
    let mut found = false;
    let mut last: usize = 0;
    proof {
        assert(last_at(s@.subrange(0, 0), c) == -1) by {
            assert(s@.subrange(0, 0) =~= Seq::<char>::empty());
        }
    }
    while i < n
        invariant
            0 <= i <= n,
            n == s@.len(),
            found ==> last < i && last_at(s@.subrange(0, i as int), c) == last as int,
            !found ==> last_at(s@.subrange(0, i as int), c) == -1,
        decreases n - i,
    {
        proof {
            assert(s@.subrange(0, i + 1).drop_last() =~= s@.subrange(0, i as int));
            assert(s@.subrange(0, i + 1).last() == s@[i as int]);
        }
        let ch = s.get_char(i);
        if ch == c {
            last = i;
            found = true;
        }
        i += 1;
    }
    proof {
        assert(s@.subrange(0, n as int) =~= s@);
    }
    if found {
        Some(last)
    } else {
        None
    }
}

/// Whether a picture file names this country: the file name's stem equals
/// the country name exactly.
pub fn file_matches_country(filename: &String, country: &String) -> (r: bool)
    ensures
        r == (stem_of(filename@) == country@),
{
    let s = filename.as_str();
    let stem: &str = match find_first_char(s, '.') {
        Some(i) => s.substring_char(0, i),
        None => s,
    };
    assert(stem@ == stem_of(filename@));
    str_eq(stem, country.as_str())
}

/// The output image's file name: a fixed stem carrying the source file's
/// extension over.
pub fn output_file_name(source: &String) -> (r: String)
    ensures
        r@ == "todays_picture."@ + ext_of(source@),
{
    let s = source.as_str();
    let n = s.unicode_len();
    let ext: &str = match find_last_char(s, '.') {
        Some(i) => s.substring_char(i + 1, n),
        None => s,
    };
    assert(ext@ == ext_of(source@));
    let mut out = String::from_str("todays_picture.");
    out.append(ext);
    out
}

} // verus!
