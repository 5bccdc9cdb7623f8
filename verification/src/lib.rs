//! A small, best-effort decoder for a TOML-flavored configuration
//! language.  The input text is tokenized line by line, each line is
//! classified as a section header or a key/value assignment, and values
//! are decoded recursively into strings, integers, decimal literals,
//! dates, arrays, and inline tables.  The result is a flat, ordered
//! sequence of directives; building a tree out of section paths is left
//! to the embedding application.

pub mod date;
pub mod parser;
pub mod table;
pub mod text;
pub mod tokenizer;

use vstd::prelude::*;

use crate::parser::{directives_view, parse_lines_spec, TomlModel, TOML};
use crate::tokenizer::tokenize_spec;

verus! {

/// What [`parse`] yields for a text: its token lines, each classified
/// into at most one directive.
pub open spec fn parse_spec(text: Seq<char>) -> Seq<TomlModel> {
    parse_lines_spec(tokenize_spec(text))
}

/// Decodes a configuration text into its flat directive sequence.
pub fn parse(code: String) -> (r: Vec<TOML>)
    ensures
        directives_view(r@) == parse_spec(code@),
{
    parser::parse(tokenizer::tokenize(code.as_str()))
}

/// An empty text decodes to an empty directive sequence.
pub proof fn lemma_parse_empty()
    ensures
        parse_spec(Seq::<char>::empty()) == Seq::<TomlModel>::empty(),
{
    let text = Seq::<char>::empty();
    assert(crate::text::split_on(text, '\n') == seq![text]);
    assert(crate::text::trim_spec(text) =~= text);
    assert(seq![text][0] == text);
    assert(crate::tokenizer::line_tokens(text).len() == 0);
    assert(seq![text].drop_first() =~= Seq::<Seq<char>>::empty());
    assert(tokenize_spec(text) == crate::tokenizer::lines_tokens(seq![text]));
    assert(crate::tokenizer::lines_tokens(seq![text]) == crate::tokenizer::lines_tokens(
        seq![text].drop_first(),
    ));
    assert(tokenize_spec(text) =~= Seq::<Seq<tokenizer::TokenModel>>::empty());
}

/// Decoding is deterministic: the directive sequence is a function of
/// the input text alone, so decoding the same text twice yields
/// structurally equal directive sequences.
pub proof fn lemma_parse_deterministic(
    text: Seq<char>,
    first: Seq<TomlModel>,
    second: Seq<TomlModel>,
)
    requires
        first == parse_spec(text),
        second == parse_spec(text),
    ensures
        first == second,
{
}

} // verus!
