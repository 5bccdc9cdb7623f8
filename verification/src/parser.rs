//! Directive and value types, and deep structural equality on values.
//!
//! The parsing functions that build these values live here as well:
//! the line classifier, the recursive value decoder, and the balanced
//! bracket and comma scans they rely on.

use vstd::prelude::*;

use crate::date::{date_eq, date_new_spec, Date, DateModel};
use crate::table::{table_update_spec, Table, TableModel};
use crate::text::{
    all_digits, digit, digits_stop, digits_val, find_char, is_digit, lemma_find_from,
    lemma_find_from_offset, lemma_skip_digits, parse_i64, skip_digits, split_on,
};
use crate::tokenizer::{lines_view, toks_view, Token, TokenModel};

verus! {

/// One decoded directive.
pub enum TOML {
    /// A key/value pair found on one line.
    Assign(String, Value),
    /// A section header path, outermost segment first.
    Title(Vec<String>),
}

/// Mathematical image of a [`TOML`] directive.
#[verifier::ext_equal]
pub enum TomlModel {
    Assign(Seq<char>, ValueModel),
    Title(Seq<Seq<char>>),
}

/// The sequence of character-sequence images of a string vector.
pub open spec fn strs_view(v: Seq<String>) -> Seq<Seq<char>> {
    Seq::new(v.len(), |i: int| v[i]@)
}

impl View for TOML {
    type V = TomlModel;

    open spec fn view(&self) -> TomlModel {
        match self {
            TOML::Assign(k, v) => TomlModel::Assign(k@, v@),
            TOML::Title(ps) => TomlModel::Title(strs_view(ps@)),
        }
    }
}

/// One decoded value.
pub enum Value {
    /// A quoted literal, with its first and last character removed.
    Str(String),
    /// An all-digit scalar.
    Int(i64),
    /// A scalar of digits with a decimal point, kept as its source
    /// text; the embedding application converts it at the precision it
    /// chooses.
    Float(String),
    /// A scalar of date/time shape.
    Date(Date),
    /// A bracketed sequence of values.
    Array(Vec<Value>),
    /// A braced sequence of key/value entries.
    Table(Table),
    /// The placeholder for a malformed value site.
    Empty,
}

/// Mathematical image of a [`Value`].
#[verifier::ext_equal]
pub enum ValueModel {
    Str(Seq<char>),
    Int(i64),
    Float(Seq<char>),
    Date(DateModel),
    Array(Seq<ValueModel>),
    Table(TableModel),
    Empty,
}

impl View for Value {
    type V = ValueModel;

    open spec fn view(&self) -> ValueModel
        decreases self,
    {
        match self {
            Value::Str(s) => ValueModel::Str(s@),
            Value::Int(i) => ValueModel::Int(*i),
            Value::Float(f) => ValueModel::Float(f@),
            Value::Date(d) => ValueModel::Date(d@),
            Value::Array(vs) => ValueModel::Array(vals_view(vs@)),
            Value::Table(t) => ValueModel::Table(t@),
            Value::Empty => ValueModel::Empty,
        }
    }
}

/// The sequence of value images of a value vector.
pub open spec fn vals_view(v: Seq<Value>) -> Seq<ValueModel>
    decreases v,
{
    Seq::new(
        v.len(),
        |i: int|
            if 0 <= i < v.len() {
                v[i]@
            } else {
                ValueModel::Empty
            },
    )
}

/// The sequence of directive images of a directive vector.
pub open spec fn directives_view(v: Seq<TOML>) -> Seq<TomlModel> {
    Seq::new(v.len(), |i: int| v[i]@)
}

/// A time-of-day shape at index `i`: a digit run, a colon, a digit
/// run, a colon, and a third digit run; anything may follow.
pub open spec fn time_at(s: Seq<char>, i: int) -> bool {
    let a = skip_digits(s, i);
    a > i && a < s.len() && s[a] == ':' && {
        let b = skip_digits(s, a + 1);
        b > a + 1 && b < s.len() && s[b] == ':' && skip_digits(s, b + 1) > b + 1
    }
}

/// A date/time shape: a time-of-day shape, optionally preceded by
/// three dash-separated digit runs and an optional `T` or space
/// separator.  Without a separator the calendar's last digit run and
/// the hour's run merge, so that run must hold at least two digits.
pub open spec fn date_shape(s: Seq<char>) -> bool {
    let a = skip_digits(s, 0);
    if a > 0 && a < s.len() && s[a] == '-' {
        let b = skip_digits(s, a + 1);
        b > a + 1 && b < s.len() && s[b] == '-' && {
            let c = skip_digits(s, b + 1);
            c > b + 1 && c < s.len() && (((s[c] == 'T' || s[c] == ' ') && time_at(s, c + 1)) || (
            s[c] == ':' && c >= b + 3 && time_at(s, c - 1)))
        }
    } else {
        time_at(s, 0)
    }
}

/// A decimal-literal shape: only digits and points, with at least one
/// of each.
pub open spec fn float_shape(s: Seq<char>) -> bool {
    s.len() > 0 && (forall|k: int|
        0 <= k < s.len() ==> is_digit(#[trigger] s[k]) || s[k] == '.') && (exists|k: int|
        0 <= k < s.len() && s[k] == '.') && (exists|k: int| 0 <= k < s.len() && is_digit(s[k]))
}

/// A scalar's text with its first and last character removed.
pub open spec fn strip_ends(s: Seq<char>) -> Seq<char> {
    if s.len() <= 1 {
        Seq::empty()
    } else {
        s.subrange(1, s.len() - 1)
    }
}

/// What a scalar token decodes to, trying in order: a date/time shape,
/// a decimal-literal shape, an all-digit shape (a 64-bit integer, or
/// the placeholder when larger), and any other non-empty text as a
/// string with its first and last character removed.
pub open spec fn classify_spec(s: Seq<char>) -> ValueModel {
    if date_shape(s) {
        ValueModel::Date(date_new_spec(s))
    } else if float_shape(s) {
        ValueModel::Float(s)
    } else if all_digits(s) {
        if digits_val(s) <= i64::MAX {
            ValueModel::Int(digits_val(s) as i64)
        } else {
            ValueModel::Empty
        }
    } else if s.len() > 0 {
        ValueModel::Str(strip_ends(s))
    } else {
        ValueModel::Empty
    }
}

/// Executable time-of-day test at `from`.
fn time_check(s: &str, from: usize, len: usize) -> (r: bool)
    requires
        len == s@.len(),
        from <= len,
    ensures
        r == time_at(s@, from as int),
{
    let a = digits_stop(s, from, len);
    if !(a > from && a < len) {
        return false;
    }
    if s.get_char(a) != ':' {
        return false;
    }
    let b = digits_stop(s, a + 1, len);
    if !(b > a + 1 && b < len) {
        return false;
    }
    if s.get_char(b) != ':' {
        return false;
    }
    let c = digits_stop(s, b + 1, len);
    c > b + 1
}

/// Executable date/time shape test.
fn date_check(s: &str, len: usize) -> (r: bool)
    requires
        len == s@.len(),
    ensures
        r == date_shape(s@),
{
    let a = digits_stop(s, 0, len);
    if a > 0 && a < len && s.get_char(a) == '-' {
        let b = digits_stop(s, a + 1, len);
        if !(b > a + 1 && b < len) {
            return false;
        }
        if s.get_char(b) != '-' {
            return false;
        }
        let c = digits_stop(s, b + 1, len);
        if !(c > b + 1 && c < len) {
            return false;
        }
        let sep = s.get_char(c);
        if (sep == 'T' || sep == ' ') && time_check(s, c + 1, len) {
            return true;
        }
        proof {
            lemma_skip_digits(s@, b + 1);
        }
        sep == ':' && c >= b + 3 && time_check(s, c - 1, len)
    } else {
        time_check(s, 0, len)
    }
}

/// Executable decimal-literal shape test.
fn float_check(s: &str, len: usize) -> (r: bool)
    requires
        len == s@.len(),
    ensures
        r == float_shape(s@),
{
    if len == 0 {
        return false;
    }
    let mut has_dot = false;
    let mut has_digit = false;
    let mut i: usize = 0;
    while i < len
        invariant
            0 <= i <= len,
            len == s@.len(),
            forall|k: int| 0 <= k < i ==> is_digit(#[trigger] s@[k]) || s@[k] == '.',
            has_dot == exists|k: int| 0 <= k < i && s@[k] == '.',
            has_digit == exists|k: int| 0 <= k < i && is_digit(#[trigger] s@[k]),
        decreases len - i,
    {
        let c = s.get_char(i);
        if digit(c) {
            has_digit = true;
        } else if c == '.' {
            has_dot = true;
        } else {
            assert(!(is_digit(s@[i as int]) || s@[i as int] == '.'));
            return false;
        }
        i = i + 1;
    }
    has_dot && has_digit
}

/// Decodes one scalar's text into a value.
fn classify(s: &String) -> (r: Value)
    ensures
        r@ == classify_spec(s@),
{
    let st = s.as_str();
    let len = st.unicode_len();
    if date_check(st, len) {
        Value::Date(Date::new(s.clone()))
    } else if float_check(st, len) {
        Value::Float(s.clone())
    } else {
        match parse_i64(st) {
            Some(v) => Value::Int(v),
            None => {
                if all_digits_check(st, len) {
                    Value::Empty
                } else if len > 0 {
                    if len <= 1 {
                        Value::Str(String::new())
                    } else {
                        Value::Str(st.substring_char(1, len - 1).to_owned())
                    }
                } else {
                    Value::Empty
                }
            },
        }
    }
}

/// Executable all-digit test.
fn all_digits_check(s: &str, len: usize) -> (r: bool)
    requires
        len == s@.len(),
    ensures
        r == all_digits(s@),
{
    if len == 0 {
        return false;
    }
    let e = digits_stop(s, 0, len);
    proof {
        lemma_skip_digits(s@, 0);
    }
    e == len
}

/// Deep structural equality of two values.
pub fn value_eq(a: &Value, b: &Value) -> (r: bool)
    ensures
        r == (a@ == b@),
    decreases a,
{
    match (a, b) {
        (Value::Str(x), Value::Str(y)) => x.eq(y),
        (Value::Int(x), Value::Int(y)) => *x == *y,
        (Value::Float(x), Value::Float(y)) => x.eq(y),
        (Value::Date(x), Value::Date(y)) => date_eq(x, y),
        (Value::Array(xs), Value::Array(ys)) => {
            let r = vals_eq(xs, ys);
            proof {
                if r {
                    assert(a@ =~= b@);
                }
            }
            r
        },
        (Value::Table(x), Value::Table(y)) => crate::table::table_eq(x, y),
        (Value::Empty, Value::Empty) => true,
        _ => {
            proof {
                assert(a@ != b@);
            }
            false
        },
    }
}

/// Deep structural equality of two value vectors.
pub fn vals_eq(xs: &Vec<Value>, ys: &Vec<Value>) -> (r: bool)
    ensures
        r == (vals_view(xs@) == vals_view(ys@)),
    decreases xs,
{
    let n = xs.len();
    if n != ys.len() {
        proof {
            assert(vals_view(xs@).len() != vals_view(ys@).len());
        }
        return false;
    }
    let mut i: usize = 0;
    while i < n
        invariant
            0 <= i <= n,
            n == xs@.len(),
            n == ys@.len(),
            forall|k: int| 0 <= k < i ==> vals_view(xs@)[k] == vals_view(ys@)[k],
        decreases n - i,
    {
        if !value_eq(&xs[i], &ys[i]) {
            proof {
                assert(vals_view(xs@)[i as int] != vals_view(ys@)[i as int]);
            }
            return false;
        }
        i = i + 1;
    }
    proof {
        assert(vals_view(xs@) =~= vals_view(ys@));
    }
    true
}

/// First index in `[i, hi)` holding the punctuation `c`, or `hi`.
pub open spec fn punct_slot(ts: Seq<TokenModel>, c: char, i: int, hi: int) -> int
    decreases hi - i,
{
    if i < hi && 0 <= i && hi <= ts.len() {
        if ts[i] == TokenModel::Punctuation(c) {
            i
        } else {
            punct_slot(ts, c, i + 1, hi)
        }
    } else {
        hi
    }
}

pub proof fn lemma_punct_slot(ts: Seq<TokenModel>, c: char, i: int, hi: int)
    requires
        0 <= i <= hi <= ts.len(),
    ensures
        i <= punct_slot(ts, c, i, hi) <= hi,
        punct_slot(ts, c, i, hi) < hi ==> ts[punct_slot(ts, c, i, hi)] == TokenModel::Punctuation(
            c,
        ),
        forall|k: int| i <= k < punct_slot(ts, c, i, hi) ==> ts[k] != TokenModel::Punctuation(c),
    decreases hi - i,
{
    if i < hi && ts[i] != TokenModel::Punctuation(c) {
        lemma_punct_slot(ts, c, i + 1, hi);
    }
}

/// Index of the closing marker that brings the running depth back to
/// zero: `+1` on each `open`, `-1` on each `close`, scanning from `i`
/// with depth `depth`; nothing when the tokens run out first.
pub open spec fn goto_spec(
    ts: Seq<TokenModel>,
    i: int,
    depth: int,
    open: char,
    close: char,
) -> Option<int>
    decreases ts.len() - i,
{
    if !(0 <= i < ts.len()) {
        None
    } else {
        let d2 = if ts[i] == TokenModel::Punctuation(open) {
            depth + 1
        } else if ts[i] == TokenModel::Punctuation(close) {
            depth - 1
        } else {
            depth
        };
        if d2 == 0 && ts[i] == TokenModel::Punctuation(close) {
            Some(i)
        } else {
            goto_spec(ts, i + 1, d2, open, close)
        }
    }
}

pub proof fn lemma_goto_spec(ts: Seq<TokenModel>, i: int, depth: int, open: char, close: char)
    requires
        0 <= i,
    ensures
        goto_spec(ts, i, depth, open, close) is Some ==> i <= goto_spec(
            ts,
            i,
            depth,
            open,
            close,
        )->Some_0 < ts.len(),
    decreases ts.len() - i,
{
    if 0 <= i < ts.len() {
        let d2 = if ts[i] == TokenModel::Punctuation(open) {
            depth + 1
        } else if ts[i] == TokenModel::Punctuation(close) {
            depth - 1
        } else {
            depth
        };
        if !(d2 == 0 && ts[i] == TokenModel::Punctuation(close)) {
            lemma_goto_spec(ts, i + 1, d2, open, close);
        }
    }
}

/// First comma at bracket depth zero in `[i, hi)`, or `hi`; `[` and `{`
/// raise the depth, `]` and `}` lower it.
pub open spec fn comma_scan_spec(ts: Seq<TokenModel>, i: int, hi: int, depth: int) -> int
    decreases hi - i,
{
    if i < hi && 0 <= i && hi <= ts.len() {
        if depth == 0 && ts[i] == TokenModel::Punctuation(',') {
            i
        } else {
            let d2 = if ts[i] == TokenModel::Punctuation('[') || ts[i] == TokenModel::Punctuation(
                '{',
            ) {
                depth + 1
            } else if ts[i] == TokenModel::Punctuation(']') || ts[i]
                == TokenModel::Punctuation('}') {
                depth - 1
            } else {
                depth
            };
            comma_scan_spec(ts, i + 1, hi, d2)
        }
    } else {
        hi
    }
}

pub proof fn lemma_comma_scan_spec(ts: Seq<TokenModel>, i: int, hi: int, depth: int)
    requires
        0 <= i <= hi <= ts.len(),
    ensures
        i <= comma_scan_spec(ts, i, hi, depth) <= hi,
    decreases hi - i,
{
    if i < hi && !(depth == 0 && ts[i] == TokenModel::Punctuation(',')) {
        let d2 = if ts[i] == TokenModel::Punctuation('[') || ts[i] == TokenModel::Punctuation(
            '{',
        ) {
            depth + 1
        } else if ts[i] == TokenModel::Punctuation(']') || ts[i] == TokenModel::Punctuation('}') {
            depth - 1
        } else {
            depth
        };
        lemma_comma_scan_spec(ts, i + 1, hi, d2);
    }
}

/// What the line classifier yields on the token range `[lo, hi)`: at
/// the first `=`, an assignment of the scalar just before it to the
/// decoded value just after it; with no `=`, a section header read
/// from a `[`, a scalar and a `]`; otherwise nothing.
pub open spec fn parse_head_spec(ts: Seq<TokenModel>, lo: int, hi: int) -> Option<TomlModel>
    decreases ts.len() - lo, 0int,
{
    let e = punct_slot(ts, '=', lo, hi);
    if e < hi {
        if lo < e && ts[e - 1] is Scalar {
            Some(TomlModel::Assign(ts[e - 1]->Scalar_0, parse_child_spec(ts, e + 1).0))
        } else {
            None
        }
    } else {
        let b = punct_slot(ts, '[', lo, hi);
        if b < hi && b + 2 < hi && ts[b + 1] is Scalar && ts[b + 2] == TokenModel::Punctuation(
            ']',
        ) {
            Some(TomlModel::Title(split_on(ts[b + 1]->Scalar_0, '.')))
        } else {
            None
        }
    }
}

/// What the value decoder yields at `start`: the value and the number
/// of tokens it spans.  A scalar spans one token; an array or inline
/// table spans through its matching close bracket; anything else is
/// the placeholder spanning nothing.
pub open spec fn parse_child_spec(ts: Seq<TokenModel>, start: int) -> (ValueModel, int)
    decreases ts.len() - start, 1int,
{
    if !(0 <= start < ts.len()) {
        (ValueModel::Empty, 0)
    } else {
        match ts[start] {
            TokenModel::Scalar(s) => (classify_spec(s), 1),
            TokenModel::Punctuation(p) => if p == '[' {
                match goto_spec(ts, start, 0, '[', ']') {
                    Some(close) => (
                        ValueModel::Array(parse_elems_spec(ts, start + 1, close)),
                        close - start + 1,
                    ),
                    None => (ValueModel::Empty, 0),
                }
            } else if p == '{' {
                match goto_spec(ts, start, 0, '{', '}') {
                    Some(close) => (
                        ValueModel::Table(
                            parse_entries_spec(
                                ts,
                                start + 1,
                                close,
                                TableModel {
                                    keys: Seq::<ValueModel>::empty(),
                                    values: Seq::<ValueModel>::empty(),
                                },
                            ),
                        ),
                        close - start + 1,
                    ),
                    None => (ValueModel::Empty, 0),
                }
            } else {
                (ValueModel::Empty, 0)
            },
            TokenModel::Comment => (ValueModel::Empty, 0),
        }
    }
}

/// The elements of an array body in `[pos, close)`: one decoded value,
/// then, after a comma, the rest.  A value that spans no token, or a
/// token other than a comma after a value, ends the array there.
pub open spec fn parse_elems_spec(ts: Seq<TokenModel>, pos: int, close: int) -> Seq<ValueModel>
    decreases ts.len() - pos, 2int,
{
    if pos >= close || !(0 <= pos < ts.len()) {
        seq![]
    } else {
        let v = parse_child_spec(ts, pos).0;
        let used = parse_child_spec(ts, pos).1;
        if used < 1 {
            seq![v]
        } else {
            let next = pos + used;
            if next >= close {
                seq![v]
            } else if next < ts.len() && ts[next] == TokenModel::Punctuation(',') {
                seq![v] + parse_elems_spec(ts, next + 1, close)
            } else {
                seq![v]
            }
        }
    }
}

/// The table built from the entries of an inline-table body in
/// `[pos, close)`: each comma-bounded range is classified, and every
/// assignment it yields is upserted into the table; a range that
/// yields no assignment is skipped.
pub open spec fn parse_entries_spec(
    ts: Seq<TokenModel>,
    pos: int,
    close: int,
    acc: TableModel,
) -> TableModel
    decreases ts.len() - pos, 2int,
{
    if pos >= close || !(0 <= pos) {
        acc
    } else {
        let e = comma_scan_spec(ts, pos, close, 0);
        let acc2 = match parse_head_spec(ts, pos, e) {
            Some(TomlModel::Assign(k, v)) => table_update_spec(acc, ValueModel::Str(k), v),
            _ => acc,
        };
        if pos <= e && e < close {
            parse_entries_spec(ts, e + 1, close, acc2)
        } else {
            acc2
        }
    }
}

pub proof fn lemma_parse_child_used(ts: Seq<TokenModel>, start: int)
    requires
        0 <= start <= ts.len(),
    ensures
        0 <= parse_child_spec(ts, start).1 <= ts.len() - start,
{
    if start < ts.len() {
        match ts[start] {
            TokenModel::Punctuation(p) => {
                if p == '[' {
                    lemma_goto_spec(ts, start, 0, '[', ']');
                } else if p == '{' {
                    lemma_goto_spec(ts, start, 0, '{', '}');
                }
            },
            _ => {},
        }
    }
}

/// Whether a token is the given punctuation character.
fn token_is(t: &Token, c: char) -> (r: bool)
    ensures
        r == (t@ == TokenModel::Punctuation(c)),
{
    match t {
        Token::Punctuation(p) => *p == c,
        _ => false,
    }
}

/// First index in `[lo, hi)` holding the punctuation `c`, or `hi`.
fn punct_find(tokens: &Vec<Token>, c: char, lo: usize, hi: usize) -> (r: usize)
    requires
        lo <= hi <= tokens@.len(),
    ensures
        r == punct_slot(toks_view(tokens@), c, lo as int, hi as int),
        lo <= r <= hi,
{
    proof {
        lemma_punct_slot(toks_view(tokens@), c, lo as int, hi as int);
    }
    let mut i: usize = lo;
    while i < hi
        invariant
            lo <= i <= hi,
            hi <= tokens@.len(),
            punct_slot(toks_view(tokens@), c, lo as int, hi as int) == punct_slot(
                toks_view(tokens@),
                c,
                i as int,
                hi as int,
            ),
        decreases hi - i,
    {
        if token_is(&tokens[i], c) {
            proof {
                assert(toks_view(tokens@)[i as int] == tokens@[i as int]@);
            }
            return i;
        }
        proof {
            assert(toks_view(tokens@)[i as int] == tokens@[i as int]@);
        }
        i = i + 1;
    }
    i
}

/// Balanced-marker scan: the index of the `close` that brings the
/// running depth back to zero, scanning from `from`.
pub fn goto(tokens: &Vec<Token>, from: usize, open: char, close: char) -> (r: Option<usize>)
    ensures
        match r {
            Some(j) => goto_spec(toks_view(tokens@), from as int, 0, open, close) == Some(
                j as int,
            ),
            None => goto_spec(toks_view(tokens@), from as int, 0, open, close) is None,
        },
{
    let n = tokens.len();
    let mut i: usize = from;
    let mut depth: i128 = 0;
    while i < n
        invariant
            from <= i,
            n == tokens@.len(),
            -(i as int) - 1 <= depth <= i as int + 1,
            goto_spec(toks_view(tokens@), from as int, 0, open, close) == goto_spec(
                toks_view(tokens@),
                i as int,
                depth as int,
                open,
                close,
            ),
        decreases n - i,
    {
        proof {
            assert(toks_view(tokens@)[i as int] == tokens@[i as int]@);
        }
        let d2: i128 = if token_is(&tokens[i], open) {
            depth + 1
        } else if token_is(&tokens[i], close) {
            depth - 1
        } else {
            depth
        };
        if d2 == 0 && token_is(&tokens[i], close) {
            return Some(i);
        }
        depth = d2;
        i = i + 1;
    }
    None
}

/// First comma at bracket depth zero in `[pos, hi)`, or `hi`.
fn comma_scan(tokens: &Vec<Token>, pos: usize, hi: usize) -> (r: usize)
    requires
        pos <= hi <= tokens@.len(),
    ensures
        r == comma_scan_spec(toks_view(tokens@), pos as int, hi as int, 0),
        pos <= r <= hi,
{
    proof {
        lemma_comma_scan_spec(toks_view(tokens@), pos as int, hi as int, 0);
    }
    let mut i: usize = pos;
    let mut depth: i128 = 0;
    while i < hi
        invariant
            pos <= i <= hi,
            hi <= tokens@.len(),
            -(i as int) - 1 <= depth <= i as int + 1,
            comma_scan_spec(toks_view(tokens@), pos as int, hi as int, 0) == comma_scan_spec(
                toks_view(tokens@),
                i as int,
                hi as int,
                depth as int,
            ),
        decreases hi - i,
    {
        proof {
            assert(toks_view(tokens@)[i as int] == tokens@[i as int]@);
        }
        if depth == 0 && token_is(&tokens[i], ',') {
            return i;
        }
        let d2: i128 = if token_is(&tokens[i], '[') || token_is(&tokens[i], '{') {
            depth + 1
        } else if token_is(&tokens[i], ']') || token_is(&tokens[i], '}') {
            depth - 1
        } else {
            depth
        };
        depth = d2;
        i = i + 1;
    }
    i
}

/// Decodes one value starting at token index `start`; yields the
/// value and the number of tokens it spans.
fn parse_child(tokens: &Vec<Token>, start: usize) -> (r: (Value, usize))
    requires
        start <= tokens@.len(),
    ensures
        r.0@ == parse_child_spec(toks_view(tokens@), start as int).0,
        r.1 as int == parse_child_spec(toks_view(tokens@), start as int).1,
    decreases tokens@.len() - start, 1int,
{
    let ghost ts = toks_view(tokens@);
    if start >= tokens.len() {
        return (Value::Empty, 0);
    }
    proof {
        assert(ts[start as int] == tokens@[start as int]@);
    }
    match &tokens[start] {
        Token::Scalar(s) => {
            let v = classify(s);
            (v, 1)
        },
        Token::Comment => (Value::Empty, 0),
        Token::Punctuation(p) => {
            if *p == '[' {
                match goto(tokens, start, '[', ']') {
                    Some(close) => {
                        proof {
                            lemma_goto_spec(ts, start as int, 0, '[', ']');
                        }
                        let elems = parse_elems(tokens, start + 1, close);
                        (Value::Array(elems), close - start + 1)
                    },
                    None => (Value::Empty, 0),
                }
            } else if *p == '{' {
                match goto(tokens, start, '{', '}') {
                    Some(close) => {
                        proof {
                            lemma_goto_spec(ts, start as int, 0, '{', '}');
                        }
                        let fresh = Table::new();
                        proof {
                            assert(fresh@ =~= TableModel {
                                keys: Seq::<ValueModel>::empty(),
                                values: Seq::<ValueModel>::empty(),
                            });
                        }
                        let t = parse_entries(tokens, start + 1, close, fresh);
                        (Value::Table(t), close - start + 1)
                    },
                    None => (Value::Empty, 0),
                }
            } else {
                (Value::Empty, 0)
            }
        },
    }
}

/// Decodes the comma-separated elements of an array body.
fn parse_elems(tokens: &Vec<Token>, pos: usize, close: usize) -> (r: Vec<Value>)
    requires
        pos <= tokens@.len(),
        close <= tokens@.len(),
    ensures
        vals_view(r@) == parse_elems_spec(toks_view(tokens@), pos as int, close as int),
    decreases tokens@.len() - pos, 2int,
{
    let ghost ts = toks_view(tokens@);
    if pos >= close || pos >= tokens.len() {
        let r: Vec<Value> = Vec::new();
        proof {
            assert(vals_view(r@) =~= parse_elems_spec(ts, pos as int, close as int));
        }
        return r;
    }
    let (v, used) = parse_child(tokens, pos);
    proof {
        lemma_parse_child_used(ts, pos as int);
    }
    let mut r: Vec<Value> = Vec::new();
    let ghost spec_v = parse_child_spec(ts, pos as int).0;
    if used >= 1 {
        let next = pos + used;
        if next < close {
            proof {
                assert(ts[next as int] == tokens@[next as int]@);
            }
            if token_is(&tokens[next], ',') {
                r = parse_elems(tokens, next + 1, close);
            }
        }
    }
    let ghost rest_view = vals_view(r@);
    r.insert(0, v);
    proof {
        assert(vals_view(r@) =~= seq![spec_v] + rest_view);
        if rest_view.len() == 0 {
            assert(vals_view(r@) =~= seq![spec_v]);
        }
        assert(vals_view(r@) =~= parse_elems_spec(ts, pos as int, close as int));
    }
    r
}

/// Decodes the comma-bounded entries of an inline-table body into a
/// table, upserting each assignment.
fn parse_entries(tokens: &Vec<Token>, pos: usize, close: usize, acc: Table) -> (r: Table)
    requires
        close <= tokens@.len(),
        acc@.wf(),
    ensures
        r@ == parse_entries_spec(toks_view(tokens@), pos as int, close as int, acc@),
        r@.wf(),
    decreases tokens@.len() - pos, 2int,
{
    let ghost ts = toks_view(tokens@);
    if pos >= close {
        return acc;
    }
    let e = comma_scan(tokens, pos, close);
    let mut table = acc;
    let ghost acc0 = table@;
    match parse_head(tokens, pos, e) {
        Some(TOML::Assign(k, v)) => {
            table.update(Value::Str(k), v);
        },
        _ => {},
    }
    proof {
        assert(table@ == (match parse_head_spec(ts, pos as int, e as int) {
            Some(TomlModel::Assign(k, v)) => table_update_spec(acc0, ValueModel::Str(k), v),
            _ => acc0,
        }));
    }
    if e < close {
        parse_entries(tokens, e + 1, close, table)
    } else {
        table
    }
}

/// Splits a section header's scalar on every `.` into path segments.
fn split_dots(s: &String) -> (r: Vec<String>)
    ensures
        strs_view(r@) == split_on(s@, '.'),
{
    let st = s.as_str();
    let len = st.unicode_len();
    let mut out: Vec<String> = Vec::new();
    let mut pos: usize = 0;
    proof {
        assert(st@.subrange(0, len as int) =~= st@);
        assert(strs_view(out@) + split_on(st@, '.') =~= split_on(st@, '.'));
    }
    loop
        invariant_except_break
            split_on(st@, '.') == strs_view(out@) + split_on(
                st@.subrange(pos as int, len as int),
                '.',
            ),
        invariant
            pos <= len,
            len == st@.len(),
            st@ == s@,
        ensures
            strs_view(out@) == split_on(s@, '.'),
        decreases len - pos,
    {
        let ghost suffix = st@.subrange(pos as int, len as int);
        let j = find_char(st, '.', pos, len);
        proof {
            lemma_find_from(st@, '.', pos as int);
            lemma_find_from_offset(st@, '.', pos as int, 0);
            assert(suffix.subrange(0, j - pos) =~= st@.subrange(pos as int, j as int));
        }
        let piece = st.substring_char(pos, j).to_owned();
        let ghost old_out = out@;
        out.push(piece);
        proof {
            assert(strs_view(out@) =~= strs_view(old_out).push(suffix.subrange(0, j - pos)));
            let rest = split_on(suffix, '.');
            if j < len {
                assert(rest == seq![suffix.subrange(0, j - pos)] + split_on(
                    suffix.subrange(j - pos + 1, suffix.len() as int),
                    '.',
                ));
                assert(suffix.subrange(j - pos + 1, suffix.len() as int) =~= st@.subrange(
                    j + 1,
                    len as int,
                ));
                assert(strs_view(out@) + split_on(st@.subrange(j + 1, len as int), '.')
                    =~= strs_view(old_out) + rest);
            } else {
                assert(suffix =~= suffix.subrange(0, j - pos));
                assert(rest == seq![suffix]);
                assert(strs_view(out@) =~= strs_view(old_out) + rest);
            }
        }
        if j == len {
            break;
        }
        pos = j + 1;
    }
    out
}

/// Classifies the token range `[lo, hi)` as at most one directive: an
/// assignment at the first `=`, else a section header, else nothing.
fn parse_head(tokens: &Vec<Token>, lo: usize, hi: usize) -> (r: Option<TOML>)
    requires
        lo <= hi <= tokens@.len(),
    ensures
        match r {
            Some(d) => parse_head_spec(toks_view(tokens@), lo as int, hi as int) == Some(d@),
            None => parse_head_spec(toks_view(tokens@), lo as int, hi as int) is None,
        },
    decreases tokens@.len() - lo, 0int,
{
    let ghost ts = toks_view(tokens@);
    let e = punct_find(tokens, '=', lo, hi);
    if e < hi {
        if lo < e {
            proof {
                assert(ts[e - 1] == tokens@[e - 1]@);
            }
            match &tokens[e - 1] {
                Token::Scalar(k) => {
                    let (v, _used) = parse_child(tokens, e + 1);
                    Some(TOML::Assign(k.clone(), v))
                },
                _ => None,
            }
        } else {
            None
        }
    } else {
        let b = punct_find(tokens, '[', lo, hi);
        if b < hi && hi - b >= 3 {
            proof {
                assert(ts[b + 1] == tokens@[b + 1]@);
                assert(ts[b + 2] == tokens@[b + 2]@);
            }
            match &tokens[b + 1] {
                Token::Scalar(s) => {
                    if token_is(&tokens[b + 2], ']') {
                        let path = split_dots(s);
                        Some(TOML::Title(path))
                    } else {
                        None
                    }
                },
                _ => None,
            }
        } else {
            None
        }
    }
}

/// Classifies every token line in order, keeping each line's
/// directive when it yields one.
pub fn parse(stream: Vec<Vec<Token>>) -> (r: Vec<TOML>)
    ensures
        directives_view(r@) == parse_lines_spec(lines_view(stream@)),
{
    let mut result: Vec<TOML> = Vec::new();
    let n = stream.len();
    let mut i: usize = 0;
    proof {
        assert(lines_view(stream@).subrange(0, n as int) =~= lines_view(stream@));
        assert(directives_view(result@) + parse_lines_spec(lines_view(stream@))
            =~= parse_lines_spec(lines_view(stream@)));
    }
    while i < n
        invariant
            0 <= i <= n,
            n == stream@.len(),
            parse_lines_spec(lines_view(stream@)) == directives_view(result@) + parse_lines_spec(
                lines_view(stream@).subrange(i as int, n as int),
            ),
        decreases n - i,
    {
        let ghost ls = lines_view(stream@).subrange(i as int, n as int);
        proof {
            assert(ls[0] == toks_view(stream@[i as int]@));
            assert(ls.drop_first() =~= lines_view(stream@).subrange(i + 1, n as int));
        }
        let line = &stream[i];
        let ghost old_result = result@;
        match parse_head(line, 0, line.len()) {
            Some(d) => {
                let ghost dv = d@;
                result.push(d);
                proof {
                    assert(directives_view(result@) =~= directives_view(old_result).push(dv));
                    assert(directives_view(result@) + parse_lines_spec(ls.drop_first())
                        =~= directives_view(old_result) + parse_lines_spec(ls));
                }
            },
            None => {
                proof {
                    assert(parse_lines_spec(ls) == parse_lines_spec(ls.drop_first()));
                }
            },
        }
        i = i + 1;
    }
    proof {
        assert(lines_view(stream@).subrange(n as int, n as int) =~= Seq::<Seq<TokenModel>>::empty());
        assert(directives_view(result@) =~= parse_lines_spec(lines_view(stream@)));
    }
    result
}

/// Deep structural equality of two directives.
pub fn toml_eq(a: &TOML, b: &TOML) -> (r: bool)
    ensures
        r == (a@ == b@),
{
    match (a, b) {
        (TOML::Assign(k1, v1), TOML::Assign(k2, v2)) => {
            let r = k1.eq(k2) && value_eq(v1, v2);
            proof {
                if r {
                    assert(a@ =~= b@);
                }
            }
            r
        },
        (TOML::Title(p1), TOML::Title(p2)) => {
            let r = strings_eq(p1, p2);
            proof {
                if r {
                    assert(a@ =~= b@);
                }
            }
            r
        },
        _ => {
            proof {
                assert(a@ != b@);
            }
            false
        },
    }
}

/// Equality of two string vectors.
fn strings_eq(xs: &Vec<String>, ys: &Vec<String>) -> (r: bool)
    ensures
        r == (strs_view(xs@) == strs_view(ys@)),
{
    let n = xs.len();
    if n != ys.len() {
        proof {
            assert(strs_view(xs@).len() != strs_view(ys@).len());
        }
        return false;
    }
    let mut i: usize = 0;
    while i < n
        invariant
            0 <= i <= n,
            n == xs@.len(),
            n == ys@.len(),
            forall|k: int| 0 <= k < i ==> strs_view(xs@)[k] == strs_view(ys@)[k],
        decreases n - i,
    {
        if !xs[i].eq(&ys[i]) {
            proof {
                assert(strs_view(xs@)[i as int] != strs_view(ys@)[i as int]);
            }
            return false;
        }
        i = i + 1;
    }
    proof {
        assert(strs_view(xs@) =~= strs_view(ys@));
    }
    true
}

/// Deep structural equality of two directive vectors.
pub fn directives_eq(a: &Vec<TOML>, b: &Vec<TOML>) -> (r: bool)
    ensures
        r == (directives_view(a@) == directives_view(b@)),
{
    let n = a.len();
    if n != b.len() {
        proof {
            assert(directives_view(a@).len() != directives_view(b@).len());
        }
        return false;
    }
    let mut i: usize = 0;
    while i < n
        invariant
            0 <= i <= n,
            n == a@.len(),
            n == b@.len(),
            forall|k: int| 0 <= k < i ==> directives_view(a@)[k] == directives_view(b@)[k],
        decreases n - i,
    {
        if !toml_eq(&a[i], &b[i]) {
            proof {
                assert(directives_view(a@)[i as int] != directives_view(b@)[i as int]);
            }
            return false;
        }
        i = i + 1;
    }
    proof {
        assert(directives_view(a@) =~= directives_view(b@));
    }
    true
}

/// What [`parse`] yields: each line's directive, in order, with lines
/// that yield none dropped.
pub open spec fn parse_lines_spec(lines: Seq<Seq<TokenModel>>) -> Seq<TomlModel>
    decreases lines.len(),
{
    if lines.len() == 0 {
        seq![]
    } else {
        match parse_head_spec(lines[0], 0, lines[0].len() as int) {
            Some(d) => seq![d] + parse_lines_spec(lines.drop_first()),
            None => parse_lines_spec(lines.drop_first()),
        }
    }
}

} // verus!
