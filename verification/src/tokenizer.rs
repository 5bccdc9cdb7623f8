//! Line-oriented tokenizer.
//!
//! The input text is split on newlines; each line is trimmed and cut
//! into punctuation and scalar tokens.  A line that carries a comment
//! marker, or that yields no tokens, is dropped entirely.

use vstd::prelude::*;

use crate::text::{
    find_char, lemma_find_from, lemma_find_from_offset, split_on, trim, trim_spec,
};

verus! {

/// One token of a line.  `Comment` is declared for completeness but is
/// never produced: comment text is discarded during tokenization.
#[derive(Clone, Debug, PartialEq)]
pub enum Token {
    /// One of the characters `{ } [ ] = ,`.
    Punctuation(char),
    /// A trimmed, non-empty run of characters between punctuation.
    Scalar(String),
    /// Never constructed; comments are dropped, not materialized.
    Comment,
}

/// Mathematical image of a [`Token`].
#[verifier::ext_equal]
pub enum TokenModel {
    Punctuation(char),
    Scalar(Seq<char>),
    Comment,
}

impl View for Token {
    type V = TokenModel;

    open spec fn view(&self) -> TokenModel {
        match self {
            Token::Punctuation(c) => TokenModel::Punctuation(*c),
            Token::Scalar(s) => TokenModel::Scalar(s@),
            Token::Comment => TokenModel::Comment,
        }
    }
}

/// The sequence of token images of a token vector.
pub open spec fn toks_view(v: Seq<Token>) -> Seq<TokenModel> {
    Seq::new(v.len(), |i: int| v[i]@)
}

/// The sequence of line images of a vector of token lines.
pub open spec fn lines_view(v: Seq<Vec<Token>>) -> Seq<Seq<TokenModel>> {
    Seq::new(v.len(), |i: int| toks_view(v[i]@))
}

/// The characters that tokenize as punctuation.
pub open spec fn is_punct(c: char) -> bool {
    c == '{' || c == '}' || c == '[' || c == ']' || c == '=' || c == ','
}

/// First index `j >= i` holding a punctuation character, or `s.len()`:
/// the end of the scalar run starting at `i`.
pub open spec fn run_end(s: Seq<char>, i: int) -> int
    decreases s.len() - i,
{
    if 0 <= i < s.len() && !is_punct(s[i]) {
        run_end(s, i + 1)
    } else {
        i
    }
}

pub proof fn lemma_run_end(s: Seq<char>, i: int)
    requires
        0 <= i <= s.len(),
    ensures
        i <= run_end(s, i) <= s.len(),
        run_end(s, i) < s.len() ==> is_punct(s[run_end(s, i)]),
        forall|k: int| i <= k < run_end(s, i) ==> !is_punct(s[k]),
    decreases s.len() - i,
{
    if i < s.len() && !is_punct(s[i]) {
        lemma_run_end(s, i + 1);
    }
}

/// Whether a line carries a comment marker: a `#` followed by at least
/// one more character.  Such a line is dropped whole.
pub open spec fn has_comment(s: Seq<char>) -> bool {
    exists|j: int| 0 <= j < s.len() - 1 && s[j] == '#'
}

/// The raw token sequence of a trimmed, comment-free line, scanning
/// from index `i`: maximal scalar runs (their content trimmed) between
/// single-character punctuation tokens.
pub open spec fn scan_from(s: Seq<char>, i: int) -> Seq<TokenModel>
    decreases s.len() - i,
{
    if !(0 <= i < s.len()) {
        seq![]
    } else if is_punct(s[i]) {
        seq![TokenModel::Punctuation(s[i])] + scan_from(s, i + 1)
    } else {
        let j = run_end(s, i);
        if i < j <= s.len() {
            seq![TokenModel::Scalar(trim_spec(s.subrange(i, j)))] + scan_from(s, j)
        } else {
            seq![]
        }
    }
}

/// `ts` with every empty scalar token removed.
pub open spec fn strip_spec(ts: Seq<TokenModel>) -> Seq<TokenModel>
    decreases ts.len(),
{
    if ts.len() == 0 {
        seq![]
    } else if ts[0] == TokenModel::Scalar(Seq::<char>::empty()) {
        strip_spec(ts.drop_first())
    } else {
        seq![ts[0]] + strip_spec(ts.drop_first())
    }
}

pub proof fn lemma_strip_spec_wf(ts: Seq<TokenModel>)
    ensures
        forall|i: int|
            0 <= i < strip_spec(ts).len() ==> strip_spec(ts)[i] != TokenModel::Scalar(
                Seq::<char>::empty(),
            ),
    decreases ts.len(),
{
    if ts.len() > 0 {
        lemma_strip_spec_wf(ts.drop_first());
    }
}

/// The kept tokens of one raw (untrimmed) line.
pub open spec fn line_tokens(line: Seq<char>) -> Seq<TokenModel> {
    let t = trim_spec(line);
    if has_comment(t) {
        seq![]
    } else {
        strip_spec(scan_from(t, 0))
    }
}

/// The kept lines of a sequence of raw lines: each line's tokens, with
/// empty lines dropped.
pub open spec fn lines_tokens(ls: Seq<Seq<char>>) -> Seq<Seq<TokenModel>>
    decreases ls.len(),
{
    if ls.len() == 0 {
        seq![]
    } else if line_tokens(ls[0]).len() > 0 {
        seq![line_tokens(ls[0])] + lines_tokens(ls.drop_first())
    } else {
        lines_tokens(ls.drop_first())
    }
}

/// What [`tokenize`] returns: the non-empty token lines of the text.
pub open spec fn tokenize_spec(text: Seq<char>) -> Seq<Seq<TokenModel>> {
    lines_tokens(split_on(text, '\n'))
}

pub proof fn lemma_lines_tokens_wf(ls: Seq<Seq<char>>)
    ensures
        forall|i: int| 0 <= i < lines_tokens(ls).len() ==> #[trigger] lines_tokens(ls)[i].len()
            > 0,
        forall|i: int, j: int|
            0 <= i < lines_tokens(ls).len() && 0 <= j < lines_tokens(ls)[i].len()
                ==> #[trigger] lines_tokens(ls)[i][j] != TokenModel::Scalar(
                Seq::<char>::empty(),
            ),
    decreases ls.len(),
{
    if ls.len() > 0 {
        lemma_lines_tokens_wf(ls.drop_first());
        lemma_strip_spec_wf(scan_from(trim_spec(ls[0]), 0));
    }
}

/// A fresh token with the same image.
fn token_copy(t: &Token) -> (r: Token)
    ensures
        r@ == t@,
{
    match t {
        Token::Punctuation(c) => Token::Punctuation(*c),
        Token::Scalar(s) => Token::Scalar(s.clone()),
        Token::Comment => Token::Comment,
    }
}

/// Executable punctuation test.
fn punct(c: char) -> (r: bool)
    ensures
        r == is_punct(c),
{
    c == '{' || c == '}' || c == '[' || c == ']' || c == '=' || c == ','
}

/// Whether the line holds a `#` with at least one character after it.
fn comment_in(s: &str, len: usize) -> (r: bool)
    requires
        len == s@.len(),
    ensures
        r == has_comment(s@),
{
    if len == 0 {
        return false;
    }
    let mut j: usize = 0;
    while j + 1 < len
        invariant
            0 <= j,
            j + 1 <= len,
            len == s@.len(),
            forall|k: int| 0 <= k < j ==> s@[k] != '#',
        decreases len - j,
    {
        if s.get_char(j) == '#' {
            assert(has_comment(s@));
            return true;
        }
        j = j + 1;
    }
    false
}

/// End of the scalar run beginning at `from`.
fn run_stop(s: &str, from: usize, len: usize) -> (r: usize)
    requires
        len == s@.len(),
        from <= len,
    ensures
        r == run_end(s@, from as int),
        from <= r <= len,
{
    let mut i: usize = from;
    while i < len && !punct(s.get_char(i))
        invariant
            from <= i <= len,
            len == s@.len(),
            run_end(s@, from as int) == run_end(s@, i as int),
        decreases len - i,
    {
        i = i + 1;
    }
    i
}

/// Cuts one trimmed, comment-free line into raw tokens.
fn scan_line(s: &str) -> (r: Vec<Token>)
    ensures
        toks_view(r@) == scan_from(s@, 0),
{
    let len = s.unicode_len();
    let mut out: Vec<Token> = Vec::new();
    let mut i: usize = 0;
    proof {
        assert(toks_view(out@) + scan_from(s@, 0) =~= scan_from(s@, 0));
    }
    while i < len
        invariant
            0 <= i <= len,
            len == s@.len(),
            scan_from(s@, 0) == toks_view(out@) + scan_from(s@, i as int),
        decreases len - i,
    {
        let c = s.get_char(i);
        if punct(c) {
            out.push(Token::Punctuation(c));
            proof {
                assert(toks_view(out@) =~= toks_view(out@.drop_last()).push(
                    TokenModel::Punctuation(c),
                ));
                assert(toks_view(out@) + scan_from(s@, i + 1) =~= toks_view(out@.drop_last())
                    + scan_from(s@, i as int));
            }
            i = i + 1;
        } else {
            let j = run_stop(s, i, len);
            proof {
                lemma_run_end(s@, i as int);
            }
            let piece = s.substring_char(i, j);
            let content = trim(piece);
            out.push(Token::Scalar(content));
            proof {
                assert(toks_view(out@) =~= toks_view(out@.drop_last()).push(
                    TokenModel::Scalar(trim_spec(s@.subrange(i as int, j as int))),
                ));
                assert(toks_view(out@) + scan_from(s@, j as int) =~= toks_view(out@.drop_last())
                    + scan_from(s@, i as int));
            }
            i = j;
        }
    }
    assert(toks_view(out@) =~= toks_view(out@) + scan_from(s@, i as int));
    out
}

/// Removes every empty scalar token; yields nothing when no token is
/// left.
pub fn strip(stream: Vec<Token>) -> (r: Option<Vec<Token>>)
    ensures
        match r {
            Some(v) => toks_view(v@) == strip_spec(toks_view(stream@)) && v@.len() > 0,
            None => strip_spec(toks_view(stream@)).len() == 0,
        },
{
    let mut ret: Vec<Token> = Vec::new();
    let mut i: usize = 0;
    let n = stream.len();
    proof {
        assert(toks_view(stream@).subrange(0, n as int) =~= toks_view(stream@));
        assert(toks_view(ret@) + strip_spec(toks_view(stream@)) =~= strip_spec(
            toks_view(stream@),
        ));
    }
    while i < n
        invariant
            0 <= i <= n,
            n == stream@.len(),
            strip_spec(toks_view(stream@)) == toks_view(ret@) + strip_spec(
                toks_view(stream@).subrange(i as int, n as int),
            ),
        decreases n - i,
    {
        let keep = match &stream[i] {
            Token::Scalar(s) => s.as_str().unicode_len() > 0,
            _ => true,
        };
        proof {
            let tail = toks_view(stream@).subrange(i as int, n as int);
            assert(tail[0] == stream@[i as int]@);
            assert(tail.drop_first() =~= toks_view(stream@).subrange(i + 1, n as int));
            if !keep {
                assert(stream@[i as int]@ is Scalar);
                assert(stream@[i as int]@->Scalar_0.len() == 0);
                assert(stream@[i as int]@ =~= TokenModel::Scalar(Seq::<char>::empty()));
            } else {
                assert(stream@[i as int]@ != TokenModel::Scalar(Seq::<char>::empty()))
                    by {
                    if stream@[i as int]@ is Scalar {
                        assert(stream@[i as int]@->Scalar_0.len() > 0);
                    }
                };
            }
        }
        if keep {
            let t = token_copy(&stream[i]);
            ret.push(t);
            proof {
                assert(toks_view(ret@) =~= toks_view(ret@.drop_last()).push(
                    stream@[i as int]@,
                ));
                assert(toks_view(ret@) + strip_spec(
                    toks_view(stream@).subrange(i + 1, n as int),
                ) =~= toks_view(ret@.drop_last()) + strip_spec(
                    toks_view(stream@).subrange(i as int, n as int),
                ));
            }
        }
        i = i + 1;
    }
    proof {
        assert(toks_view(stream@).subrange(n as int, n as int) =~= Seq::<TokenModel>::empty());
        assert(strip_spec(toks_view(stream@)) =~= toks_view(ret@));
    }
    if ret.len() == 0 {
        None
    } else {
        Some(ret)
    }
}

/// Splits the text into lines and the lines into tokens.  Every
/// returned line holds at least one token, and no token is an empty
/// scalar.
pub fn tokenize(code: &str) -> (r: Vec<Vec<Token>>)
    ensures
        lines_view(r@) == tokenize_spec(code@),
        forall|i: int| 0 <= i < r@.len() ==> (#[trigger] r@[i]@).len() > 0,
        forall|i: int, j: int|
            0 <= i < r@.len() && 0 <= j < r@[i]@.len() ==> (#[trigger] r@[i]@[j])@
                != TokenModel::Scalar(Seq::<char>::empty()),
{
    let len = code.unicode_len();
    let mut out: Vec<Vec<Token>> = Vec::new();
    let mut pos: usize = 0;
    proof {
        assert(code@.subrange(0, len as int) =~= code@);
        assert(lines_view(out@) + tokenize_spec(code@) =~= tokenize_spec(code@));
    }
    loop
        invariant_except_break
            tokenize_spec(code@) == lines_view(out@) + lines_tokens(
                split_on(code@.subrange(pos as int, len as int), '\n'),
            ),
        invariant
            pos <= len,
            len == code@.len(),
        ensures
            lines_view(out@) == tokenize_spec(code@),
        decreases len - pos,
    {
        let ghost suffix = code@.subrange(pos as int, len as int);
        let j = find_char(code, '\n', pos, len);
        proof {
            lemma_find_from(code@, '\n', pos as int);
            lemma_find_from_offset(code@, '\n', pos as int, 0);
            assert(suffix.subrange(0, j - pos) =~= code@.subrange(pos as int, j as int));
        }
        let raw = code.substring_char(pos, j);
        let line = trim(raw);
        let lstr = line.as_str();
        let llen = lstr.unicode_len();
        let kept: Option<Vec<Token>> = if comment_in(lstr, llen) {
            None
        } else {
            strip(scan_line(lstr))
        };
        let ghost kept_g: Option<Seq<TokenModel>> = if kept is Some {
            Some(toks_view(kept->Some_0@))
        } else {
            None
        };
        proof {
            if kept_g is Some {
                assert(line_tokens(suffix.subrange(0, j - pos)) == kept_g->Some_0);
                assert(kept_g->Some_0.len() > 0);
            } else {
                assert(line_tokens(suffix.subrange(0, j - pos)).len() == 0);
            }
        }
        let ghost old_out = out@;
        match kept {
            Option::Some(v) => {
                out.push(v);
            },
            Option::None => {},
        }
        proof {
            let rest = split_on(suffix, '\n');
            if j < len {
                assert(rest == seq![suffix.subrange(0, j - pos)] + split_on(
                    suffix.subrange(j - pos + 1, suffix.len() as int),
                    '\n',
                ));
                assert(suffix.subrange(j - pos + 1, suffix.len() as int) =~= code@.subrange(
                    j + 1,
                    len as int,
                ));
                assert(rest.drop_first() =~= split_on(code@.subrange(j + 1, len as int), '\n'));
            } else {
                assert(rest == seq![suffix]);
                assert(suffix =~= suffix.subrange(0, j - pos));
                assert(rest.drop_first() =~= Seq::<Seq<char>>::empty());
            }
            assert(rest[0] == suffix.subrange(0, j - pos));
            if kept_g is Some {
                assert(lines_view(out@) =~= lines_view(old_out).push(kept_g->Some_0));
                assert(lines_view(out@) + lines_tokens(rest.drop_first()) =~= lines_view(old_out)
                    + lines_tokens(rest));
            } else {
                assert(lines_tokens(rest) == lines_tokens(rest.drop_first()));
            }
        }
        if j == len {
            proof {
                assert(lines_tokens(Seq::<Seq<char>>::empty()) =~= Seq::<Seq<TokenModel>>::empty());
                assert(lines_view(out@) + Seq::<Seq<TokenModel>>::empty() =~= lines_view(out@));
                assert(lines_view(out@) == tokenize_spec(code@));
            }
            break;
        }
        pos = j + 1;
    }
    proof {
        lemma_lines_tokens_wf(split_on(code@, '\n'));
        assert forall|i: int| 0 <= i < out@.len() implies (#[trigger] out@[i]@).len() > 0 by {
            assert(lines_view(out@)[i] == toks_view(out@[i]@));
            assert(tokenize_spec(code@)[i].len() > 0);
        };
        assert forall|i: int, j: int|
            0 <= i < out@.len() && 0 <= j < out@[i]@.len() implies (#[trigger] out@[i]@[j])@
            != TokenModel::Scalar(Seq::<char>::empty()) by {
            assert(lines_view(out@)[i] == toks_view(out@[i]@));
            assert(tokenize_spec(code@)[i][j] != TokenModel::Scalar(Seq::<char>::empty()));
            assert(toks_view(out@[i]@)[j] == out@[i]@[j]@);
        };
    }
    out
}

} // verus!
