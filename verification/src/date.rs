//! A minimal date/time value.
//!
//! A date-valued scalar is cut at its first `T` or space into a
//! calendar part — three dash-separated numeric fields — and a
//! time-of-day part that is kept verbatim.  No calendar validation is
//! performed.  A text whose calendar part does not parse is kept whole
//! as a timestamp instead, so construction never fails.

use vstd::prelude::*;

use crate::text::{
    all_digits, digits_val, find_char, find_from, has_char, lemma_find_from, parse_num,
};

verus! {

/// A date/time value: optional numeric year, month and day, and an
/// optional verbatim time-of-day text.
#[derive(Clone, Debug, PartialEq)]
pub struct Date {
    year: Option<u16>,
    month: Option<u16>,
    day: Option<u16>,
    timestamp: Option<String>,
}

/// Mathematical image of a [`Date`].
#[verifier::ext_equal]
pub struct DateModel {
    pub year: Option<u16>,
    pub month: Option<u16>,
    pub day: Option<u16>,
    pub timestamp: Option<Seq<char>>,
}

impl View for Date {
    type V = DateModel;

    closed spec fn view(&self) -> DateModel {
        DateModel {
            year: self.year,
            month: self.month,
            day: self.day,
            timestamp: match self.timestamp {
                Some(t) => Some(t@),
                None => None,
            },
        }
    }
}

/// A numeric calendar field: non-empty, all digits, at most `65535`.
pub open spec fn num_ok(p: Seq<char>) -> bool {
    all_digits(p) && digits_val(p) <= 65535
}

/// Whether `s` is exactly three dash-separated numeric fields.
pub open spec fn ymd_ok(s: Seq<char>) -> bool {
    let i = find_from(s, '-', 0);
    let j = find_from(s, '-', i + 1);
    i < s.len() && j < s.len() && find_from(s, '-', j + 1) == s.len() && num_ok(
        s.subrange(0, i),
    ) && num_ok(s.subrange(i + 1, j)) && num_ok(s.subrange(j + 1, s.len() as int))
}

/// The three fields of a text satisfying [`ymd_ok`].
pub open spec fn ymd_of(s: Seq<char>) -> (u16, u16, u16) {
    let i = find_from(s, '-', 0);
    let j = find_from(s, '-', i + 1);
    (
        digits_val(s.subrange(0, i)) as u16,
        digits_val(s.subrange(i + 1, j)) as u16,
        digits_val(s.subrange(j + 1, s.len() as int)) as u16,
    )
}

/// The date built from a text cut at separator index `k`: calendar
/// fields from the left part and a verbatim timestamp from the right
/// part, or the whole text as a timestamp when the left part does not
/// parse.
pub open spec fn date_from_split(s: Seq<char>, k: int) -> DateModel {
    let left = s.subrange(0, k);
    let right = s.subrange(k + 1, s.len() as int);
    if ymd_ok(left) {
        DateModel {
            year: Some(ymd_of(left).0),
            month: Some(ymd_of(left).1),
            day: Some(ymd_of(left).2),
            timestamp: Some(right),
        }
    } else {
        DateModel { year: None, month: None, day: None, timestamp: Some(s) }
    }
}

/// What [`Date::new`] builds from a text: cut at the first `T`, else at
/// the first space; else an undivided text is a calendar date when it
/// holds a dash and parses as one, and a bare timestamp otherwise.
pub open spec fn date_new_spec(s: Seq<char>) -> DateModel {
    if has_char(s, 'T') {
        date_from_split(s, find_from(s, 'T', 0))
    } else if has_char(s, ' ') {
        date_from_split(s, find_from(s, ' ', 0))
    } else if has_char(s, '-') && ymd_ok(s) {
        DateModel {
            year: Some(ymd_of(s).0),
            month: Some(ymd_of(s).1),
            day: Some(ymd_of(s).2),
            timestamp: None,
        }
    } else {
        DateModel { year: None, month: None, day: None, timestamp: Some(s) }
    }
}

/// The character of one decimal digit.
pub open spec fn digit_char(d: int) -> char {
    if d == 0 {
        '0'
    } else if d == 1 {
        '1'
    } else if d == 2 {
        '2'
    } else if d == 3 {
        '3'
    } else if d == 4 {
        '4'
    } else if d == 5 {
        '5'
    } else if d == 6 {
        '6'
    } else if d == 7 {
        '7'
    } else if d == 8 {
        '8'
    } else {
        '9'
    }
}

/// The decimal rendering of a non-negative number, without leading
/// zeros.
pub open spec fn dec_str(n: int) -> Seq<char>
    decreases n,
{
    if n < 10 {
        seq![digit_char(n)]
    } else {
        dec_str(n / 10) + seq![digit_char(n % 10)]
    }
}

/// A missing calendar field renders as zero.
pub open spec fn or_zero(x: Option<u16>) -> int {
    match x {
        Some(v) => v as int,
        None => 0,
    }
}

/// What [`Date::to_string`] renders: `year-month-day timestamp`, with
/// zero for a missing field and nothing for a missing timestamp.
pub open spec fn date_render_spec(m: DateModel) -> Seq<char> {
    dec_str(or_zero(m.year)) + seq!['-'] + dec_str(or_zero(m.month)) + seq!['-'] + dec_str(
        or_zero(m.day),
    ) + seq![' '] + (match m.timestamp {
        Some(t) => t,
        None => Seq::empty(),
    })
}

/// Appends one digit character.
fn push_digit(out: &mut String, d: u16)
    requires
        d < 10,
    ensures
        final(out)@ == old(out)@ + seq![digit_char(d as int)],
{
    proof {
        reveal_strlit("0");
        reveal_strlit("1");
        reveal_strlit("2");
        reveal_strlit("3");
        reveal_strlit("4");
        reveal_strlit("5");
        reveal_strlit("6");
        reveal_strlit("7");
        reveal_strlit("8");
        reveal_strlit("9");
    }
    if d == 0 {
        out.append("0");
    } else if d == 1 {
        out.append("1");
    } else if d == 2 {
        out.append("2");
    } else if d == 3 {
        out.append("3");
    } else if d == 4 {
        out.append("4");
    } else if d == 5 {
        out.append("5");
    } else if d == 6 {
        out.append("6");
    } else if d == 7 {
        out.append("7");
    } else if d == 8 {
        out.append("8");
    } else {
        out.append("9");
    }
    proof {
        assert(out@ =~= old(out)@ + seq![digit_char(d as int)]);
    }
}

/// Appends the decimal rendering of `n`.
fn push_num(out: &mut String, n: u16)
    ensures
        final(out)@ == old(out)@ + dec_str(n as int),
    decreases n,
{
    if n >= 10 {
        push_num(out, n / 10);
        push_digit(out, n % 10);
        proof {
            assert(out@ =~= old(out)@ + dec_str(n as int));
        }
    } else {
        push_digit(out, n);
    }
}

/// Equality of two optional numeric fields.
fn opt_num_eq(x: Option<u16>, y: Option<u16>) -> (r: bool)
    ensures
        r == (x == y),
{
    match (x, y) {
        (Some(a), Some(b)) => a == b,
        (None, None) => true,
        _ => false,
    }
}

/// Deep equality of two date values.
pub fn date_eq(a: &Date, b: &Date) -> (r: bool)
    ensures
        r == (a@ == b@),
{
    let ymd = opt_num_eq(a.year, b.year) && opt_num_eq(a.month, b.month) && opt_num_eq(
        a.day,
        b.day,
    );
    let ts = match (&a.timestamp, &b.timestamp) {
        (Some(x), Some(y)) => x.eq(y),
        (None, None) => true,
        _ => false,
    };
    let r = ymd && ts;
    proof {
        if r {
            assert(a@ =~= b@);
        }
        if a@ == b@ {
            assert(a.year == b.year);
            assert(a.month == b.month);
            assert(a.day == b.day);
        }
    }
    r
}

/// Reads a calendar part: exactly three dash-separated numeric fields.
fn try_ymd(s: &str) -> (r: Option<(u16, u16, u16)>)
    ensures
        r is Some <==> ymd_ok(s@),
        r is Some ==> r->Some_0 == ymd_of(s@),
{
    let len = s.unicode_len();
    let i = find_char(s, '-', 0, len);
    proof {
        lemma_find_from(s@, '-', 0);
    }
    if i >= len {
        return None;
    }
    let j = find_char(s, '-', i + 1, len);
    proof {
        lemma_find_from(s@, '-', i + 1);
    }
    if j >= len {
        return None;
    }
    let k = find_char(s, '-', j + 1, len);
    proof {
        lemma_find_from(s@, '-', j + 1);
    }
    if k < len {
        return None;
    }
    let pa = s.substring_char(0, i);
    let pb = s.substring_char(i + 1, j);
    let pc = s.substring_char(j + 1, len);
    let a = parse_num(pa);
    let b = parse_num(pb);
    let c = parse_num(pc);
    match (a, b, c) {
        (Some(y), Some(m), Some(d)) => {
            proof {
                assert(num_ok(s@.subrange(0, i as int)));
                assert(num_ok(s@.subrange(i + 1, j as int)));
                assert(num_ok(s@.subrange(j + 1, s@.len() as int)));
                assert(ymd_ok(s@));
            }
            Some((y, m, d))
        },
        _ => None,
    }
}

impl Date {
    /// Builds a date value from a scalar text; never fails.  Every
    /// non-empty text leaves either the calendar fields or the
    /// timestamp present, and the three calendar fields are present or
    /// absent together.
    pub fn new(date: String) -> (r: Self)
        ensures
            r@ == date_new_spec(date@),
            r@.year is Some <==> r@.month is Some,
            r@.year is Some <==> r@.day is Some,
            r@.year is Some || r@.timestamp is Some,
    {
        let s = date.as_str();
        let len = s.unicode_len();
        let t_pos = find_char(s, 'T', 0, len);
        proof {
            lemma_find_from(s@, 'T', 0);
        }
        if t_pos < len {
            return Self::from_split(date, t_pos);
        }
        let sp_pos = find_char(s, ' ', 0, len);
        proof {
            lemma_find_from(s@, ' ', 0);
        }
        if sp_pos < len {
            return Self::from_split(date, sp_pos);
        }
        let dash_pos = find_char(s, '-', 0, len);
        proof {
            lemma_find_from(s@, '-', 0);
        }
        if dash_pos < len {
            match try_ymd(s) {
                Some((y, m, d)) => {
                    return Date { year: Some(y), month: Some(m), day: Some(d), timestamp: None };
                },
                None => {
                    return Date { year: None, month: None, day: None, timestamp: Some(date) };
                },
            }
        }
        Date { year: None, month: None, day: None, timestamp: Some(date) }
    }

    /// Renders the value as `year-month-day timestamp`, substituting
    /// zero for a missing calendar field and an empty text for a
    /// missing timestamp.  This is a debug rendering, not a
    /// serialization.
    pub fn to_string(&self) -> (r: String)
        ensures
            r@ == date_render_spec(self@),
    {
        let mut out = String::new();
        match self.year {
            Some(y) => push_num(&mut out, y),
            None => push_num(&mut out, 0),
        }
        out.append("-");
        match self.month {
            Some(m) => push_num(&mut out, m),
            None => push_num(&mut out, 0),
        }
        out.append("-");
        match self.day {
            Some(d) => push_num(&mut out, d),
            None => push_num(&mut out, 0),
        }
        out.append(" ");
        match &self.timestamp {
            Some(t) => out.append(t.as_str()),
            None => {},
        }
        proof {
            reveal_strlit("-");
            reveal_strlit(" ");
            assert("-"@ =~= seq!['-']);
            assert(" "@ =~= seq![' ']);
            assert(out@ =~= date_render_spec(self@));
        }
        out
    }

    /// Cuts `date` at separator index `k` and builds the value.
    fn from_split(date: String, k: usize) -> (r: Self)
        requires
            k < date@.len(),
        ensures
            r@ == date_from_split(date@, k as int),
    {
        let s = date.as_str();
        let len = s.unicode_len();
        let left = s.substring_char(0, k);
        let right = s.substring_char(k + 1, len);
        match try_ymd(left) {
            Some((y, m, d)) => {
                let ts = right.to_owned();
                Date { year: Some(y), month: Some(m), day: Some(d), timestamp: Some(ts) }
            },
            None => Date { year: None, month: None, day: None, timestamp: Some(date) },
        }
    }
}

} // verus!
