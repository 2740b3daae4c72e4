//! The date grammar used in puzzle titles. Two textual forms are accepted,
//! tried in order: an abbreviated weekday/month form (`"Wed, Aug 30, 2023"`)
//! and a full weekday/month form (`"Wednesday, August 30, 2023"`). The day
//! has one or two digits, the year exactly four, and the named weekday must
//! agree with the calendar date; nothing may follow the year.

use vstd::prelude::*;
use crate::date::{Date, valid_date, weekday_number};

verus! {

/// `Some(rest)` when `p` is a prefix of `t`, with `rest` the remainder.
pub open spec fn strip_prefix(t: Seq<char>, p: Seq<char>) -> Option<Seq<char>> {
    if p.len() <= t.len() && t.subrange(0, p.len() as int) == p {
        Some(t.skip(p.len() as int))
    } else {
        None
    }
}

pub open spec fn weekday_name(long: bool, w: int) -> Seq<char> {
    if long {
        if w == 0 {
            "Sunday"@
        } else if w == 1 {
            "Monday"@
        } else if w == 2 {
            "Tuesday"@
        } else if w == 3 {
            "Wednesday"@
        } else if w == 4 {
            "Thursday"@
        } else if w == 5 {
            "Friday"@
        } else {
            "Saturday"@
        }
    } else {
        if w == 0 {
            "Sun"@
        } else if w == 1 {
            "Mon"@
        } else if w == 2 {
            "Tue"@
        } else if w == 3 {
            "Wed"@
        } else if w == 4 {
            "Thu"@
        } else if w == 5 {
            "Fri"@
        } else {
            "Sat"@
        }
    }
}

pub open spec fn month_name(long: bool, m: int) -> Seq<char> {
    if long {
        if m == 1 {
            "January"@
        } else if m == 2 {
            "February"@
        } else if m == 3 {
            "March"@
        } else if m == 4 {
            "April"@
        } else if m == 5 {
            "May"@
        } else if m == 6 {
            "June"@
        } else if m == 7 {
            "July"@
        } else if m == 8 {
            "August"@
        } else if m == 9 {
            "September"@
        } else if m == 10 {
            "October"@
        } else if m == 11 {
            "November"@
        } else {
            "December"@
        }
    } else {
        if m == 1 {
            "Jan"@
        } else if m == 2 {
            "Feb"@
        } else if m == 3 {
            "Mar"@
        } else if m == 4 {
            "Apr"@
        } else if m == 5 {
            "May"@
        } else if m == 6 {
            "Jun"@
        } else if m == 7 {
            "Jul"@
        } else if m == 8 {
            "Aug"@
        } else if m == 9 {
            "Sep"@
        } else if m == 10 {
            "Oct"@
        } else if m == 11 {
            "Nov"@
        } else {
            "Dec"@
        }
    }
}

/// First weekday name at index `w` or later that prefixes `t`, with the rest.
pub open spec fn parse_weekday_from(t: Seq<char>, long: bool, w: int) -> Option<(int, Seq<char>)>
    decreases 7 - w,
{
    if w >= 7 {
        None
    } else {
        match strip_prefix(t, weekday_name(long, w)) {
            Some(rest) => Some((w, rest)),
            None => parse_weekday_from(t, long, w + 1),
        }
    }
}

/// First month name at number `m` or later that prefixes `t`, with the rest.
pub open spec fn parse_month_from(t: Seq<char>, long: bool, m: int) -> Option<(int, Seq<char>)>
    decreases 13 - m,
{
    if m >= 13 {
        None
    } else {
        match strip_prefix(t, month_name(long, m)) {
            Some(rest) => Some((m, rest)),
            None => parse_month_from(t, long, m + 1),
        }
    }
}

pub open spec fn is_digit(c: char) -> bool {
    48 <= c as int <= 57
}

pub open spec fn digit_val(c: char) -> int {
    c as int - 48
}

/// A one- or two-digit day number at the head of `t`, read greedily.
pub open spec fn parse_day(t: Seq<char>) -> Option<(int, Seq<char>)> {
    if t.len() >= 2 && is_digit(t[0]) && is_digit(t[1]) {
        Some((10 * digit_val(t[0]) + digit_val(t[1]), t.skip(2)))
    } else if t.len() >= 1 && is_digit(t[0]) {
        Some((digit_val(t[0]), t.skip(1)))
    } else {
        None
    }
}

/// A four-digit year that must be all that is left of `t`.
pub open spec fn parse_year(t: Seq<char>) -> Option<int> {
    if t.len() == 4 && is_digit(t[0]) && is_digit(t[1]) && is_digit(t[2]) && is_digit(t[3]) {
        Some(1000 * digit_val(t[0]) + 100 * digit_val(t[1]) + 10 * digit_val(t[2]) + digit_val(
            t[3],
        ))
    } else {
        None
    }
}

/// One date form: weekday name, `", "`, month name, `" "`, day, `", "`,
/// four-digit year, with the weekday consistent with the date.
pub open spec fn spec_parse_form(t: Seq<char>, long: bool) -> Option<Date> {
    match parse_weekday_from(t, long, 0) {
        None => None,
        Some((w, t1)) => match strip_prefix(t1, ", "@) {
            None => None,
            Some(t2) => match parse_month_from(t2, long, 1) {
                None => None,
                Some((m, t3)) => match strip_prefix(t3, " "@) {
                    None => None,
                    Some(t4) => match parse_day(t4) {
                        None => None,
                        Some((d, t5)) => match strip_prefix(t5, ", "@) {
                            None => None,
                            Some(t6) => match parse_year(t6) {
                                None => None,
                                Some(y) => if valid_date(y, m, d) && weekday_number(y, m, d)
                                    == w {
                                    Some(
                                        Date {
                                            year: y as u32,
                                            month: m as u32,
                                            day: d as u32,
                                        },
                                    )
                                } else {
                                    None
                                },
                            },
                        },
                    },
                },
            },
        },
    }
}

/// The date a title remainder names: the abbreviated form if it parses, the
/// full form otherwise.
pub open spec fn spec_parse_title_date(t: Seq<char>) -> Option<Date> {
    match spec_parse_form(t, false) {
        Some(d) => Some(d),
        None => spec_parse_form(t, true),
    }
}

/// Whatever either form accepts is a real calendar date.
pub proof fn lemma_parse_form_valid(t: Seq<char>, long: bool)
    ensures
        spec_parse_form(t, long) matches Some(d) ==> d.valid(),
{
}

proof fn lemma_skip_skip(s: Seq<char>, a: int, b: int)
    requires
        0 <= a,
        0 <= b,
        a + b <= s.len(),
    ensures
        s.skip(a).skip(b) == s.skip(a + b),
{
    assert(s.skip(a).skip(b) =~= s.skip(a + b));
}

/// Whether the characters of `lit` occur in `s` starting at `pos`.
pub(crate) fn match_at(s: &str, pos: usize, lit: &str) -> (b: bool)
    requires
        pos <= s@.len(),
    ensures
        b == (strip_prefix(s@.skip(pos as int), lit@) is Some),
{
    let ghost t = s@.skip(pos as int);
    let sn = s.unicode_len();
    let ln = lit.unicode_len();
    if sn - pos < ln {
        assert(t.len() < lit@.len());
        return false;
    }
    let mut i: usize = 0;
    while i < ln
        invariant
            sn == s@.len(),
            ln == lit@.len(),
            pos + ln <= sn,
            t == s@.skip(pos as int),
            i <= ln,
            forall|j: int| 0 <= j < i ==> s@[pos + j] == lit@[j],
        decreases ln - i,
    {
        let cs = s.get_char(pos + i);
        let cl = lit.get_char(i);
        if cs != cl {
            proof {
                assert(t[i as int] == s@[pos + i]);
                if strip_prefix(t, lit@) is Some {
                    assert(t.subrange(0, ln as int) == lit@);
                    assert(t.subrange(0, ln as int)[i as int] == lit@[i as int]);
                    assert(false);
                }
            }
            return false;
        }
        i = i + 1;
    }
    proof {
        assert forall|j: int| 0 <= j < ln implies t.subrange(0, ln as int)[j] == lit@[j] by {
            assert(t[j] == s@[pos + j]);
        };
        assert(t.subrange(0, ln as int) =~= lit@);
    }
    true
}

/// Whether two strings hold the same characters.
pub(crate) fn str_eq(a: &str, b: &str) -> (r: bool)
    ensures
        r == (a@ == b@),
{
    let ghost t = a@;
    proof {
        assert(t.skip(0) =~= t);
    }
    if a.unicode_len() != b.unicode_len() {
        proof {
            assert(a@.len() != b@.len());
        }
        return false;
    }
    let r = match_at(a, 0, b);
    proof {
        if r {
            assert(t.subrange(0, b@.len() as int) =~= t);
        } else {
            if a@ == b@ {
                assert(t.subrange(0, b@.len() as int) =~= b@);
            }
        }
    }
    r
}

fn weekday_name_str(long: bool, w: u32) -> (r: &'static str)
    requires
        w < 7,
    ensures
        r@ == weekday_name(long, w as int),
{
    if long {
        match w {
            0 => "Sunday",
            1 => "Monday",
            2 => "Tuesday",
            3 => "Wednesday",
            4 => "Thursday",
            5 => "Friday",
            _ => "Saturday",
        }
    } else {
        match w {
            0 => "Sun",
            1 => "Mon",
            2 => "Tue",
            3 => "Wed",
            4 => "Thu",
            5 => "Fri",
            _ => "Sat",
        }
    }
}

fn month_name_str(long: bool, m: u32) -> (r: &'static str)
    requires
        1 <= m <= 12,
    ensures
        r@ == month_name(long, m as int),
{
    if long {
        match m {
            1 => "January",
            2 => "February",
            3 => "March",
            4 => "April",
            5 => "May",
            6 => "June",
            7 => "July",
            8 => "August",
            9 => "September",
            10 => "October",
            11 => "November",
            _ => "December",
        }
    } else {
        match m {
            1 => "Jan",
            2 => "Feb",
            3 => "Mar",
            4 => "Apr",
            5 => "May",
            6 => "Jun",
            7 => "Jul",
            8 => "Aug",
            9 => "Sep",
            10 => "Oct",
            11 => "Nov",
            _ => "Dec",
        }
    }
}

fn find_weekday(s: &str, pos: usize, long: bool) -> (r: Option<(u32, usize)>)
    requires
        pos <= s@.len(),
    ensures
        match r {
            Some(wp) => wp.0 < 7 && pos <= wp.1 <= s@.len() && parse_weekday_from(
                s@.skip(pos as int),
                long,
                0,
            ) == Some((wp.0 as int, s@.skip(wp.1 as int))),
            None => parse_weekday_from(s@.skip(pos as int), long, 0) is None,
        },
{
    let n = s.unicode_len();
    let ghost t = s@.skip(pos as int);
    let mut w: u32 = 0;
    while w < 7
        invariant
            pos <= s@.len(),
            n == s@.len(),
            t == s@.skip(pos as int),
            w <= 7,
            parse_weekday_from(t, long, 0) == parse_weekday_from(t, long, w as int),
        decreases 7 - w,
    {
        let name = weekday_name_str(long, w);
        if match_at(s, pos, name) {
            let ghost rest = strip_prefix(t, name@).unwrap();
            proof {
                assert(name@.len() <= t.len());
                lemma_skip_skip(s@, pos as int, name@.len() as int);
                assert(rest == s@.skip(pos + name@.len()));
                assert(pos + name@.len() <= n);
            }
            let end = pos + name.unicode_len();
            return Some((w, end));
        }
        w = w + 1;
    }
    None
}

fn find_month(s: &str, pos: usize, long: bool) -> (r: Option<(u32, usize)>)
    requires
        pos <= s@.len(),
    ensures
        match r {
            Some(mp) => 1 <= mp.0 <= 12 && pos <= mp.1 <= s@.len() && parse_month_from(
                s@.skip(pos as int),
                long,
                1,
            ) == Some((mp.0 as int, s@.skip(mp.1 as int))),
            None => parse_month_from(s@.skip(pos as int), long, 1) is None,
        },
{
    let n = s.unicode_len();
    let ghost t = s@.skip(pos as int);
    let mut m: u32 = 1;
    while m < 13
        invariant
            pos <= s@.len(),
            n == s@.len(),
            t == s@.skip(pos as int),
            1 <= m <= 13,
            parse_month_from(t, long, 1) == parse_month_from(t, long, m as int),
        decreases 13 - m,
    {
        let name = month_name_str(long, m);
        if match_at(s, pos, name) {
            let ghost rest = strip_prefix(t, name@).unwrap();
            proof {
                assert(name@.len() <= t.len());
                lemma_skip_skip(s@, pos as int, name@.len() as int);
                assert(rest == s@.skip(pos + name@.len()));
                assert(pos + name@.len() <= n);
            }
            let end = pos + name.unicode_len();
            return Some((m, end));
        }
        m = m + 1;
    }
    None
}

fn digit_at(s: &str, pos: usize) -> (r: Option<u32>)
    requires
        pos < s@.len(),
    ensures
        match r {
            Some(v) => is_digit(s@[pos as int]) && v == digit_val(s@[pos as int]),
            None => !is_digit(s@[pos as int]),
        },
{
    let c = s.get_char(pos) as u32;
    if 48 <= c && c <= 57 {
        Some(c - 48)
    } else {
        None
    }
}

fn take_day(s: &str, pos: usize) -> (r: Option<(u32, usize)>)
    requires
        pos <= s@.len(),
    ensures
        match r {
            Some(dp) => pos < dp.1 <= s@.len() && parse_day(s@.skip(pos as int)) == Some((
                dp.0 as int,
                s@.skip(dp.1 as int),
            )),
            None => parse_day(s@.skip(pos as int)) is None,
        },
{
    let ghost t = s@.skip(pos as int);
    let n = s.unicode_len();
    if pos < n {
        proof {
            assert(t[0] == s@[pos as int]);
        }
        if let Some(d0) = digit_at(s, pos) {
            if pos + 1 < n {
                proof {
                    assert(t[1] == s@[pos as int + 1]);
                }
                if let Some(d1) = digit_at(s, pos + 1) {
                    proof {
                        lemma_skip_skip(s@, pos as int, 2);
                    }
                    return Some((10 * d0 + d1, pos + 2));
                }
            }
            proof {
                lemma_skip_skip(s@, pos as int, 1);
            }
            return Some((d0, pos + 1));
        }
    }
    None
}

fn take_year(s: &str, pos: usize) -> (r: Option<u32>)
    requires
        pos <= s@.len(),
    ensures
        match r {
            Some(y) => parse_year(s@.skip(pos as int)) == Some(y as int),
            None => parse_year(s@.skip(pos as int)) is None,
        },
{
    let ghost t = s@.skip(pos as int);
    let n = s.unicode_len();
    if n - pos != 4 {
        return None;
    }
    proof {
        assert(t[0] == s@[pos as int]);
        assert(t[1] == s@[pos as int + 1]);
        assert(t[2] == s@[pos as int + 2]);
        assert(t[3] == s@[pos as int + 3]);
    }
    let d0 = match digit_at(s, pos) {
        Some(v) => v,
        None => {
            return None;
        },
    };
    let d1 = match digit_at(s, pos + 1) {
        Some(v) => v,
        None => {
            return None;
        },
    };
    let d2 = match digit_at(s, pos + 2) {
        Some(v) => v,
        None => {
            return None;
        },
    };
    let d3 = match digit_at(s, pos + 3) {
        Some(v) => v,
        None => {
            return None;
        },
    };
    Some(1000 * d0 + 100 * d1 + 10 * d2 + d3)
}

#[verifier::rlimit(50)]
fn parse_form(s: &str, long: bool) -> (r: Option<Date>)
    ensures
        r == spec_parse_form(s@, long),
{
    let ghost t = s@;
    let n = s.unicode_len();
    proof {
        assert(t.skip(0) =~= t);
    }
    let (w, p1) = match find_weekday(s, 0, long) {
        Some(x) => x,
        None => {
            return None;
        },
    };
    if !match_at(s, p1, ", ") {
        return None;
    }
    proof {
        reveal_strlit(", ");
        assert((", "@).len() == 2);
        assert(p1 + 2 <= n);
        lemma_skip_skip(s@, p1 as int, 2);
    }
    let p2 = p1 + 2;
    let (m, p3) = match find_month(s, p2, long) {
        Some(x) => x,
        None => {
            return None;
        },
    };
    if !match_at(s, p3, " ") {
        return None;
    }
    proof {
        reveal_strlit(" ");
        assert((" "@).len() == 1);
        assert(p3 + 1 <= n);
        lemma_skip_skip(s@, p3 as int, 1);
    }
    let p4 = p3 + 1;
    let (d, p5) = match take_day(s, p4) {
        Some(x) => x,
        None => {
            return None;
        },
    };
    if !match_at(s, p5, ", ") {
        return None;
    }
    proof {
        reveal_strlit(", ");
        assert((", "@).len() == 2);
        assert(p5 + 2 <= n);
        lemma_skip_skip(s@, p5 as int, 2);
    }
    let p6 = p5 + 2;
    let y = match take_year(s, p6) {
        Some(x) => x,
        None => {
            return None;
        },
    };
    match Date::from_ymd_opt(y, m, d) {
        Some(date) => {
            if date.weekday() == w {
                Some(date)
            } else {
                None
            }
        },
        None => None,
    }
}

/// The calendar date named by a title remainder, or `None` when neither
/// accepted form matches. Any returned date is valid.
pub fn parse_date_text(s: &str) -> (r: Option<Date>)
    ensures
        r == spec_parse_title_date(s@),
        r matches Some(d) ==> d.valid(),
{
    proof {
        lemma_parse_form_valid(s@, false);
        lemma_parse_form_valid(s@, true);
    }
    match parse_form(s, false) {
        Some(d) => Some(d),
        None => parse_form(s, true),
    }
}

} // verus!
