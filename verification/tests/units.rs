use brittle::date::Date;
use brittle::parser::goto;
use brittle::table::Table;
use brittle::parser::Value;
use brittle::tokenizer::{strip, tokenize, Token};

#[test]
fn tokenizer_emits_no_empty_lines_or_empty_scalars() {
    let lines = tokenize("a = [ ]\n   \n# full comment\nx=1\n");
    assert_eq!(lines.len(), 2);
    for line in &lines {
        assert!(!line.is_empty());
        for t in line {
            assert_ne!(*t, Token::Scalar(String::new()));
        }
    }
}

#[test]
fn tokenizer_splits_punctuation_and_scalars() {
    let lines = tokenize("point = { x = 1 }");
    assert_eq!(
        lines[0],
        vec![
            Token::Scalar("point".to_string()),
            Token::Punctuation('='),
            Token::Punctuation('{'),
            Token::Scalar("x".to_string()),
            Token::Punctuation('='),
            Token::Scalar("1".to_string()),
            Token::Punctuation('}'),
        ]
    );
}

#[test]
fn strip_removes_empty_scalars() {
    let kept = strip(vec![
        Token::Punctuation('='),
        Token::Scalar(String::new()),
        Token::Scalar("a".to_string()),
    ]);
    assert_eq!(
        kept,
        Some(vec![Token::Punctuation('='), Token::Scalar("a".to_string())])
    );
    assert_eq!(strip(vec![Token::Scalar(String::new())]), None);
    assert_eq!(strip(Vec::new()), None);
}

#[test]
fn goto_finds_matching_close() {
    let lines = tokenize("a = [1, [2], 3]");
    let line = &lines[0];
    assert_eq!(goto(line, 2, '[', ']'), Some(10));
    assert_eq!(goto(line, 5, '[', ']'), Some(7));
    let open_lines = tokenize("a = [1");
    assert_eq!(goto(&open_lines[0], 2, '[', ']'), None);
}

#[test]
fn table_register_keeps_duplicates_and_index_finds_first() {
    let mut t = Table::new();
    t.register(Value::Str("k".to_string()), Value::Int(1));
    t.register(Value::Str("k".to_string()), Value::Int(2));
    assert_eq!(t.index(Value::Str("k".to_string())), Some(0));
    assert_eq!(t.index(Value::Int(1)), None);
}

#[test]
fn date_round_trip() {
    let d = Date::new("2021-06-01T12:00:00Z".to_string());
    assert_eq!(d.to_string(), "2021-6-1 12:00:00Z");
}

#[test]
fn date_space_separator() {
    let d = Date::new("2021-06-01 12:00".to_string());
    assert_eq!(d.to_string(), "2021-6-1 12:00");
}

#[test]
fn date_timestamp_only() {
    let d = Date::new("12:00:00".to_string());
    assert_eq!(d.to_string(), "0-0-0 12:00:00");
}

#[test]
fn date_calendar_only() {
    let d = Date::new("1-2-3".to_string());
    assert_eq!(d.to_string(), "1-2-3 ");
}

#[test]
fn date_malformed_calendar_kept_verbatim() {
    let d = Date::new("123456-1-1T5".to_string());
    assert_eq!(d.to_string(), "0-0-0 123456-1-1T5");
}

#[test]
fn date_equality_is_structural() {
    let a = Date::new("2021-06-01T12:00:00Z".to_string());
    let b = Date::new("2021-06-01T12:00:00Z".to_string());
    assert_eq!(a, b);
    let c = Date::new("2021-06-02T12:00:00Z".to_string());
    assert_ne!(a, c);
}
