use brittle::parse;
use brittle::parser::{directives_eq, toml_eq, value_eq, TOML, Value};
use brittle::table::Table;

#[test]
fn cargo_test() {
    let code = String::from(
        "[package]\nname = \"brittle\"\nversion = \"0.1.0\"\nauthors = [\"ZippyMagician <zippymagician1@gmail.com>\"]\nedition = \"2018\"\n\n[dependencies]\nregex = \"1.3.9\"\n",
    );
    let summary = vec![
        TOML::Title(vec!["package".to_string()]),
        TOML::Assign("name".to_string(), Value::Str("brittle".to_string())),
        TOML::Assign("version".to_string(), Value::Str("0.1.0".to_string())),
        TOML::Assign(
            "authors".to_string(),
            Value::Array(vec![Value::Str(
                "ZippyMagician <zippymagician1@gmail.com>".to_string(),
            )]),
        ),
        TOML::Assign("edition".to_string(), Value::Str("2018".to_string())),
        TOML::Title(vec!["dependencies".to_string()]),
        TOML::Assign("regex".to_string(), Value::Str("1.3.9".to_string())),
    ];
    assert!(directives_eq(&parse(code), &summary));
}

#[test]
fn multiline_test() {
    let code = String::from("[main]\ncount = 0.75\n\n[main.child]\ncount = 0.5\n");
    let summary = vec![
        TOML::Title(vec!["main".to_string()]),
        TOML::Assign("count".to_string(), Value::Float("0.75".to_string())),
        TOML::Title(vec!["main".to_string(), "child".to_string()]),
        TOML::Assign("count".to_string(), Value::Float("0.5".to_string())),
    ];
    assert!(directives_eq(&parse(code), &summary));
}

#[test]
fn empty_input_yields_no_directives() {
    assert!(parse(String::new()).is_empty());
}

#[test]
fn header_and_quoted_strings() {
    let got = parse(String::from("[package]\nname = \"demo\"\nversion = \"0.1.0\""));
    let expected = vec![
        TOML::Title(vec!["package".to_string()]),
        TOML::Assign("name".to_string(), Value::Str("demo".to_string())),
        TOML::Assign("version".to_string(), Value::Str("0.1.0".to_string())),
    ];
    assert!(directives_eq(&got, &expected));
}

#[test]
fn float_and_int_scalars() {
    let got = parse(String::from("count = 0.75"));
    let expected = vec![TOML::Assign(
        "count".to_string(),
        Value::Float("0.75".to_string()),
    )];
    assert!(directives_eq(&got, &expected));

    let got = parse(String::from("count = 5"));
    let expected = vec![TOML::Assign("count".to_string(), Value::Int(5))];
    assert!(directives_eq(&got, &expected));
}

#[test]
fn one_element_array() {
    let got = parse(String::from("authors = [\"a\"]"));
    let expected = vec![TOML::Assign(
        "authors".to_string(),
        Value::Array(vec![Value::Str("a".to_string())]),
    )];
    assert!(directives_eq(&got, &expected));
}

#[test]
fn two_element_array_keeps_order() {
    let got = parse(String::from("authors = [\"a\", \"b\"]"));
    let expected = vec![TOML::Assign(
        "authors".to_string(),
        Value::Array(vec![
            Value::Str("a".to_string()),
            Value::Str("b".to_string()),
        ]),
    )];
    assert!(directives_eq(&got, &expected));
    match &got[0] {
        TOML::Assign(_, Value::Array(elems)) => assert_eq!(elems.len(), 2),
        _ => panic!("expected an array assignment"),
    }
}

#[test]
fn nested_array() {
    let got = parse(String::from("a = [1, [2], 3]"));
    let expected = vec![TOML::Assign(
        "a".to_string(),
        Value::Array(vec![
            Value::Int(1),
            Value::Array(vec![Value::Int(2)]),
            Value::Int(3),
        ]),
    )];
    assert!(directives_eq(&got, &expected));
}

#[test]
fn inline_table_two_entries_in_order() {
    let got = parse(String::from("point = { x = 1, y = 2 }"));
    let mut table = Table::new();
    table.update(Value::Str("x".to_string()), Value::Int(1));
    table.update(Value::Str("y".to_string()), Value::Int(2));
    let expected = vec![TOML::Assign("point".to_string(), Value::Table(table))];
    assert!(directives_eq(&got, &expected));
    match &got[0] {
        TOML::Assign(_, Value::Table(t)) => {
            assert_eq!(t.index(Value::Str("x".to_string())), Some(0));
            assert_eq!(t.index(Value::Str("y".to_string())), Some(1));
            assert_eq!(t.index(Value::Str("z".to_string())), None);
        }
        _ => panic!("expected a table assignment"),
    }
}

#[test]
fn inline_table_upserts_duplicate_key() {
    let got = parse(String::from("p = { a = 1, a = 2 }"));
    let mut table = Table::new();
    table.update(Value::Str("a".to_string()), Value::Int(1));
    table.update(Value::Str("a".to_string()), Value::Int(2));
    let expected = vec![TOML::Assign("p".to_string(), Value::Table(table))];
    assert!(directives_eq(&got, &expected));
    match &got[0] {
        TOML::Assign(_, Value::Table(t)) => {
            assert_eq!(t.index(Value::Str("a".to_string())), Some(0));
        }
        _ => panic!("expected a table assignment"),
    }
}

#[test]
fn dotted_header_path() {
    let got = parse(String::from("[a.b.c]"));
    let expected = vec![TOML::Title(vec![
        "a".to_string(),
        "b".to_string(),
        "c".to_string(),
    ])];
    assert!(directives_eq(&got, &expected));
}

#[test]
fn decoding_twice_is_structurally_equal() {
    let code = "[main]\ncount = 0.75\npoint = { x = 1, y = 2 }\nwhen = 12:00:00\n";
    let first = parse(String::from(code));
    let second = parse(String::from(code));
    assert!(directives_eq(&first, &second));
}

#[test]
fn date_valued_scalar() {
    let got = parse(String::from("when = 2021-06-01T12:00:00Z"));
    let expected = vec![TOML::Assign(
        "when".to_string(),
        Value::Date(brittle::date::Date::new("2021-06-01T12:00:00Z".to_string())),
    )];
    assert!(directives_eq(&got, &expected));
}

#[test]
fn unquoted_scalar_loses_first_and_last_character() {
    let got = parse(String::from("k = hello"));
    let expected = vec![TOML::Assign("k".to_string(), Value::Str("ell".to_string()))];
    assert!(directives_eq(&got, &expected));

    let got = parse(String::from("k = x"));
    let expected = vec![TOML::Assign("k".to_string(), Value::Str(String::new()))];
    assert!(directives_eq(&got, &expected));
}

#[test]
fn unterminated_array_becomes_empty_value() {
    let got = parse(String::from("a = [1, 2"));
    let expected = vec![TOML::Assign("a".to_string(), Value::Empty)];
    assert!(directives_eq(&got, &expected));
}

#[test]
fn oversized_integer_becomes_empty_value() {
    let got = parse(String::from("n = 99999999999999999999"));
    let expected = vec![TOML::Assign("n".to_string(), Value::Empty)];
    assert!(directives_eq(&got, &expected));
}

#[test]
fn malformed_lines_are_skipped() {
    assert!(parse(String::from("= 5")).is_empty());
    assert!(parse(String::from("[broken")).is_empty());
    assert!(parse(String::from("just some words")).is_empty());
}

#[test]
fn comment_line_drops_whole_line() {
    let got = parse(String::from("x = 1 # note\ny = 2"));
    let expected = vec![TOML::Assign("y".to_string(), Value::Int(2))];
    assert!(directives_eq(&got, &expected));
}

#[test]
fn empty_array() {
    let got = parse(String::from("a = [ ]"));
    let expected = vec![TOML::Assign("a".to_string(), Value::Array(Vec::new()))];
    assert!(directives_eq(&got, &expected));
}

#[test]
fn date_scalar_with_space_separator() {
    let got = parse(String::from("when = 2021-06-01 12:00:00"));
    let expected = vec![TOML::Assign(
        "when".to_string(),
        Value::Date(brittle::date::Date::new("2021-06-01 12:00:00".to_string())),
    )];
    assert!(directives_eq(&got, &expected));
}

#[test]
fn value_equality_is_deep() {
    let a = Value::Array(vec![Value::Int(1), Value::Str("s".to_string())]);
    let b = Value::Array(vec![Value::Int(1), Value::Str("s".to_string())]);
    let c = Value::Array(vec![Value::Int(1), Value::Str("t".to_string())]);
    assert!(value_eq(&a, &b));
    assert!(!value_eq(&a, &c));
    assert!(!toml_eq(
        &TOML::Title(vec!["a".to_string()]),
        &TOML::Assign("a".to_string(), Value::Empty),
    ));
}
