use json_parser::config::Config;
use json_parser::error::{ParserErrors, SyntaxError, SyntaxErrorKind};
use json_parser::lexer::tokenize;
use json_parser::literal::{classify_word, is_float_text};
use json_parser::parser::{parse_list, parse_object, parse_value, JSONDocument, MAX_DEPTH};
use json_parser::token::Tokens;
use json_parser::value::Value;

fn check(text: &str) -> Result<bool, ParserErrors> {
    let tokens = tokenize(text.to_string())?;
    JSONDocument {}.parse(tokens)
}

fn syntax_error(text: &str) -> SyntaxError {
    match check(text) {
        Err(ParserErrors::ParsingError(e)) => e,
        other => panic!("expected a syntax error, got {:?}", other),
    }
}

fn chars(text: &str) -> Vec<char> {
    text.chars().collect()
}

#[test]
fn empty_containers_with_whitespace_are_valid() {
    for text in ["{}", "[]", "{ }", "[\t]", " {\n\r } ", "\n[  \t\n]\r"] {
        assert!(check(text).unwrap(), "{:?}", text);
    }
}

#[test]
fn unrecognized_characters_fail_to_tokenize() {
    for text in ["?", "#", "{\"a\": 1 ; }", "*", "'"] {
        assert!(matches!(tokenize(text.to_string()), Err(ParserErrors::TokenizeError)), "{:?}", text);
    }
}

#[test]
fn empty_input_is_only_the_end_marker() {
    assert_eq!(tokenize(String::new()).unwrap(), vec![Tokens::EOF]);
    assert_eq!(tokenize(" \t\r\n".to_string()).unwrap(), vec![Tokens::EOF]);
}

#[test]
fn short_token_sequences_are_rejected() {
    for tokens in [vec![], vec![Tokens::EOF], vec![Tokens::LeftBrace]] {
        match (JSONDocument {}).parse(tokens) {
            Err(ParserErrors::ParsingError(e)) => {
                assert_eq!(e, SyntaxError { kind: SyntaxErrorKind::NotEnoughElements, position: 0 });
            }
            other => panic!("unexpected {:?}", other),
        }
    }
}

#[test]
fn scenario_empty_object() {
    assert!(check("{}").unwrap());
}

#[test]
fn scenario_string_member() {
    let tokens = tokenize("{\"key\": \"value\"}".to_string()).unwrap();
    assert_eq!(
        tokens,
        vec![
            Tokens::LeftBrace,
            Tokens::DoubleQuote,
            Tokens::StringValue("key".into()),
            Tokens::DoubleQuote,
            Tokens::Colon,
            Tokens::DoubleQuote,
            Tokens::StringValue("value".into()),
            Tokens::DoubleQuote,
            Tokens::RightBrace,
            Tokens::EOF,
        ]
    );
    assert!(JSONDocument {}.parse(tokens).unwrap());
}

#[test]
fn scenario_boolean_members() {
    let tokens = tokenize("{\"key\": true, \"key2\": false}".to_string()).unwrap();
    assert_eq!(tokens[5], Tokens::BooleanValue(true));
    assert_eq!(tokens[11], Tokens::BooleanValue(false));
    assert!(JSONDocument {}.parse(tokens).unwrap());
}

#[test]
fn scenario_scientific_float() {
    let tokens = tokenize("{\"key\": -3E3}".to_string()).unwrap();
    assert_eq!(tokens[5], Tokens::FloatValue("-3E3".into()));
    match &tokens[5] {
        Tokens::FloatValue(text) => assert_eq!(text.parse::<f64>().unwrap(), -3000.0),
        other => panic!("unexpected {:?}", other),
    }
    assert!(JSONDocument {}.parse(tokens).unwrap());
}

#[test]
fn scenario_mixed_array() {
    let tokens = tokenize("[\"one\", 2, {\"k\": true}]".to_string()).unwrap();
    assert_eq!(tokens[2], Tokens::StringValue("one".into()));
    assert_eq!(tokens[5], Tokens::IntegerValue(2));
    assert_eq!(tokens[7], Tokens::LeftBrace);
    assert!(JSONDocument {}.parse(tokens).unwrap());
}

#[test]
fn scenario_missing_value() {
    assert_eq!(syntax_error("{\"key\": }"), SyntaxError { kind: SyntaxErrorKind::ExpectedValue, position: 5 });
}

#[test]
fn scenario_question_mark() {
    assert!(matches!(check("?"), Err(ParserErrors::TokenizeError)));
}

#[test]
fn nested_documents_are_valid() {
    assert!(check("{\"a\": [1, -2.5e3, null, [], {}], \"b\": {\"c\": [true, \"x y\"]}}").unwrap());
    assert!(check("[[[[]]], {\"k\": [{}]}]").unwrap());
}

#[test]
fn each_syntax_error_kind() {
    let cases: [(&str, SyntaxErrorKind, usize); 10] = [
        ("1", SyntaxErrorKind::InvalidInitialToken, 0),
        ("{\"a\"", SyntaxErrorKind::ExpectedColon, 4),
        ("{1: 2}", SyntaxErrorKind::ExpectedDoubleQuote, 1),
        ("{\"a\", 1}", SyntaxErrorKind::ExpectedColon, 4),
        ("[:]", SyntaxErrorKind::ExpectedValue, 1),
        ("{\"a\": 1 2}", SyntaxErrorKind::ExpectedRightBraceOrComma, 6),
        ("[1 2]", SyntaxErrorKind::ExpectedRightBracketOrComma, 2),
        ("{\"a\": 1", SyntaxErrorKind::MissingRightBrace, 6),
        ("[1, 2", SyntaxErrorKind::MissingRightBracket, 4),
        ("{}}", SyntaxErrorKind::TrailingTokens, 2),
    ];
    for (text, kind, position) in cases {
        assert_eq!(syntax_error(text), SyntaxError { kind, position }, "{:?}", text);
    }
}

#[test]
fn tokens_ending_inside_a_member() {
    match (JSONDocument {}).parse(vec![Tokens::LeftBrace, Tokens::DoubleQuote]) {
        Err(ParserErrors::ParsingError(e)) => {
            assert_eq!(e, SyntaxError { kind: SyntaxErrorKind::ExpectedMoreTokens, position: 2 });
        }
        other => panic!("unexpected {:?}", other),
    }
}

#[test]
fn string_without_text_between_quotes() {
    let tokens = vec![Tokens::LeftBracket, Tokens::DoubleQuote, Tokens::DoubleQuote, Tokens::RightBracket];
    match (JSONDocument {}).parse(tokens) {
        Err(ParserErrors::ParsingError(e)) => {
            assert_eq!(e, SyntaxError { kind: SyntaxErrorKind::ExpectedStringValue, position: 2 });
        }
        other => panic!("unexpected {:?}", other),
    }
}

#[test]
fn trailing_comma_is_rejected() {
    assert_eq!(syntax_error("{\"a\": 1,}"), SyntaxError { kind: SyntaxErrorKind::ExpectedDoubleQuote, position: 7 });
    assert_eq!(syntax_error("[1,]"), SyntaxError { kind: SyntaxErrorKind::ExpectedValue, position: 3 });
}

#[test]
fn quote_followed_by_space_does_not_close() {
    // the key's text would run on to the end: `a" 1}`, with no closing quote
    assert!(matches!(check("{\"a\" 1}"), Err(ParserErrors::TokenizeError)));
    let tokens = tokenize("{\"a\" 1\"}".to_string()).unwrap();
    assert_eq!(tokens[2], Tokens::StringValue("a\" 1".into()));
}

#[test]
fn unterminated_string_is_a_tokenize_error() {
    for text in ["{\"abc", "[\"ab", "[\"a\" b"] {
        assert!(matches!(tokenize(text.to_string()), Err(ParserErrors::TokenizeError)), "{:?}", text);
    }
    // a quote at the very end closes the string
    assert_eq!(
        tokenize("\"ab\"".to_string()).unwrap(),
        vec![Tokens::DoubleQuote, Tokens::StringValue("ab".into()), Tokens::DoubleQuote, Tokens::EOF]
    );
}

#[test]
fn quote_inside_string_is_text() {
    let tokens = tokenize("[\"say \"hi\" now\"]".to_string()).unwrap();
    assert_eq!(tokens[2], Tokens::StringValue("say \"hi\" now".into()));
    assert_eq!(tokens.len(), 6);
    let tokens = tokenize("[\"a\"]".to_string()).unwrap();
    assert_eq!(tokens[2], Tokens::StringValue("a".into()));
}

#[test]
fn integer_out_of_range_is_a_parse_int_error() {
    assert!(matches!(tokenize("[99999999999999999999]".to_string()), Err(ParserErrors::ParseIntError(_))));
    assert!(matches!(tokenize("[12abc]".to_string()), Err(ParserErrors::ParseIntError(_))));
    let tokens = tokenize("[9223372036854775807, -9223372036854775808, +7]".to_string()).unwrap();
    assert_eq!(tokens[1], Tokens::IntegerValue(i64::MAX));
    assert_eq!(tokens[3], Tokens::IntegerValue(i64::MIN));
    assert_eq!(tokens[5], Tokens::IntegerValue(7));
}

#[test]
fn malformed_float_is_a_parse_float_error() {
    match tokenize("[1.2.3]".to_string()) {
        Err(ParserErrors::ParseFloatError(text)) => assert_eq!(text, "1.2.3"),
        other => panic!("unexpected {:?}", other),
    }
    assert!(matches!(tokenize("[1e]".to_string()), Err(ParserErrors::ParseFloatError(_))));
    assert!(matches!(tokenize("[.]".to_string()), Err(ParserErrors::ParseFloatError(_))));
}

#[test]
fn literal_at_end_of_input_is_kept() {
    assert_eq!(tokenize("true".to_string()).unwrap(), vec![Tokens::BooleanValue(true), Tokens::EOF]);
    assert_eq!(tokenize("-12".to_string()).unwrap(), vec![Tokens::IntegerValue(-12), Tokens::EOF]);
}

#[test]
fn float_text_follows_rust_grammar() {
    for text in ["1.5", "-.5", "+1.", "1e5", "1E+5", "2.5e-3", "007.0"] {
        assert!(is_float_text(&chars(text)), "{:?}", text);
        assert!(text.parse::<f64>().is_ok(), "{:?}", text);
    }
    for text in [".", "1e", "e5", "1.2.3", "1e5.0", "--1.0", "1e+", "1.0e5e5"] {
        assert!(!is_float_text(&chars(text)), "{:?}", text);
        assert!(text.parse::<f64>().is_err(), "{:?}", text);
    }
}

#[test]
fn words_are_classified() {
    assert_eq!(classify_word(&chars("null")).unwrap(), Tokens::NullValue);
    assert_eq!(classify_word(&chars("false")).unwrap(), Tokens::BooleanValue(false));
    assert_eq!(classify_word(&chars("0.25")).unwrap(), Tokens::FloatValue("0.25".into()));
    assert_eq!(classify_word(&chars("-40")).unwrap(), Tokens::IntegerValue(-40));
    assert!(matches!(classify_word(&chars("nul")), Err(ParserErrors::ParseIntError(_))));
}

#[test]
fn non_ascii_letters_start_literals() {
    assert!(matches!(tokenize("[é]".to_string()), Err(ParserErrors::ParseIntError(_))));
    let tokens = tokenize("[\"ünï\"]".to_string()).unwrap();
    assert_eq!(tokens[2], Tokens::StringValue("ünï".into()));
}

#[test]
fn value_positions_are_reported() {
    let tokens = tokenize("[1, {\"a\": [true]}]".to_string()).unwrap();
    assert_eq!(parse_list(&tokens, 0, 0).map(|(_, e)| e), Ok(tokens.len() - 1));
    let inner = Value::Object(vec![("a".to_string(), Value::Array(vec![Value::Boolean(true)]))]);
    assert_eq!(parse_object(&tokens, 3, 1), Ok((inner, tokens.len() - 2)));
    assert_eq!(parse_value(&tokens, 1, 1), Ok((Value::Integer(1), 2)));
    assert_eq!(parse_value(&tokens, 2, 1), Err(SyntaxError { kind: SyntaxErrorKind::ExpectedValue, position: 2 }));
    assert_eq!(Tokens::parse_string_value(&tokens, 5), Ok(("a".to_string(), 7)));
}

fn tree(text: &str) -> Value {
    let tokens = tokenize(text.to_string()).unwrap();
    JSONDocument {}.parse_tree(tokens).unwrap()
}

#[test]
fn scenario_trees() {
    assert_eq!(tree("{}"), Value::Object(vec![]));
    assert_eq!(
        tree("{\"key\": \"value\"}"),
        Value::Object(vec![("key".to_string(), Value::String("value".to_string()))])
    );
    assert_eq!(
        tree("{\"key\": true, \"key2\": false}"),
        Value::Object(vec![
            ("key".to_string(), Value::Boolean(true)),
            ("key2".to_string(), Value::Boolean(false)),
        ])
    );
    assert_eq!(tree("{\"key\": -3E3}"), Value::Object(vec![("key".to_string(), Value::Float("-3E3".to_string()))]));
    assert_eq!(
        tree("[\"one\", 2, {\"k\": true}]"),
        Value::Array(vec![
            Value::String("one".to_string()),
            Value::Integer(2),
            Value::Object(vec![("k".to_string(), Value::Boolean(true))]),
        ])
    );
}

#[test]
fn canonical_text_reads_back_as_its_tree() {
    let expected = Value::Object(vec![
        (
            "a".to_string(),
            Value::Array(vec![
                Value::Integer(1),
                Value::Integer(-2),
                Value::Float("3.5e1".to_string()),
                Value::Null,
                Value::Boolean(true),
                Value::Boolean(false),
                Value::String("x y".to_string()),
            ]),
        ),
        ("b".to_string(), Value::Object(vec![])),
        ("c".to_string(), Value::Array(vec![Value::Array(vec![])])),
    ]);
    assert_eq!(tree("{\"a\":[1,-2,3.5e1,null,true,false,\"x y\"],\"b\":{},\"c\":[[]]}"), expected);
}

#[test]
fn repeated_key_last_one_wins() {
    let v = tree("{\"a\": 1, \"b\": 2, \"a\": 3}");
    assert_eq!(v.get(&"a".to_string()), Some(&Value::Integer(3)));
    assert_eq!(v.get(&"b".to_string()), Some(&Value::Integer(2)));
    assert_eq!(v.get(&"c".to_string()), None);
    assert_eq!(tree("[1]").get(&"a".to_string()), None);
}

#[test]
fn nesting_up_to_the_limit_is_accepted() {
    let depth = MAX_DEPTH;
    let text = "[".repeat(depth) + &"]".repeat(depth);
    assert!(check(&text).unwrap());
    let text = "{\"a\":".repeat(depth - 1) + "[]" + &"}".repeat(depth - 1);
    assert!(check(&text).unwrap());
}

#[test]
fn nesting_beyond_the_limit_is_rejected() {
    let depth = MAX_DEPTH + 1;
    let text = "[".repeat(depth) + &"]".repeat(depth);
    assert_eq!(syntax_error(&text), SyntaxError { kind: SyntaxErrorKind::DepthExceeded, position: MAX_DEPTH });
    let tokens = tokenize("[[{}]]".to_string()).unwrap();
    assert_eq!(
        parse_list(&tokens, 0, MAX_DEPTH - 1),
        Err(SyntaxError { kind: SyntaxErrorKind::DepthExceeded, position: 1 })
    );
}

#[test]
fn parse_tree_reports_syntax_errors() {
    let tokens = tokenize("{\"key\": }".to_string()).unwrap();
    match (JSONDocument {}).parse_tree(tokens) {
        Err(ParserErrors::ParsingError(e)) => {
            assert_eq!(e, SyntaxError { kind: SyntaxErrorKind::ExpectedValue, position: 5 });
        }
        other => panic!("unexpected {:?}", other),
    }
}

#[test]
fn config_needs_exactly_one_path() {
    let args = |v: &[&str]| v.iter().map(|s| s.to_string()).collect::<Vec<String>>();
    match Config::build(args(&["prog"])) {
        Err(ParserErrors::ArgumentError(m)) => assert_eq!(m, "please provide a filename"),
        _ => panic!("expected an argument error"),
    }
    match Config::build(args(&["prog", "a", "b"])) {
        Err(ParserErrors::ArgumentError(m)) => assert_eq!(m, "too many arguments"),
        _ => panic!("expected an argument error"),
    }
    match Config::build(args(&["prog", "doc.json"])) {
        Ok(c) => assert_eq!(c.file_path, "doc.json"),
        _ => panic!("expected a config"),
    }
}

#[test]
fn tokens_end_once_and_strings_are_quoted() {
    for text in ["{\"a\": [\"x\", 1, \"y z\"], \"b\": null}", "[\"\"\"]", "[]", ""] {
        let tokens = tokenize(text.to_string()).unwrap();
        assert_eq!(tokens.last(), Some(&Tokens::EOF));
        assert_eq!(tokens.iter().filter(|t| **t == Tokens::EOF).count(), 1);
        let strings = tokens.iter().filter(|t| matches!(t, Tokens::StringValue(_))).count();
        let quotes = tokens.iter().filter(|t| **t == Tokens::DoubleQuote).count();
        assert_eq!(quotes, 2 * strings, "{:?}", text);
        for (i, t) in tokens.iter().enumerate() {
            if let Tokens::StringValue(_) = t {
                assert_eq!(tokens[i - 1], Tokens::DoubleQuote);
                assert_eq!(tokens[i + 1], Tokens::DoubleQuote);
            }
        }
    }
}

#[test]
fn accepted_tokens_are_the_tree_written_out() {
    let tokens = tokenize("{\"k\": [1, \"s\"]}".to_string()).unwrap();
    let value = JSONDocument {}.parse_tree(tokens.clone()).unwrap();
    let expected = Value::Object(vec![(
        "k".to_string(),
        Value::Array(vec![Value::Integer(1), Value::String("s".to_string())]),
    )]);
    assert_eq!(value, expected);
    assert_eq!(tokens.len(), 14);
}
