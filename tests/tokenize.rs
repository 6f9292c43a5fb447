use json_parser::lexer::tokenize;
use json_parser::token::Tokens;

/// The number that a float token's text stands for.
fn float_of(token: &Tokens) -> f32 {
    match token {
        Tokens::FloatValue(text) => text.parse::<f32>().unwrap(),
        other => panic!("not a float token: {:?}", other),
    }
}

#[test]
fn test_tokenize_on_braces() {
    let tokens = tokenize("{}".into()).unwrap();

    assert_eq!(tokens.len(), 3);
    assert_eq!(Tokens::LeftBrace, tokens[0]);
    assert_eq!(Tokens::RightBrace, tokens[1]);
}
#[test]
fn test_tokenize_string_values() {
    //{"key": "value"}
    let tokens = tokenize("{\"key\": \"value\"}".into()).unwrap();
    assert_eq!(tokens.len(), 10);
    assert_eq!(Tokens::LeftBrace, tokens[0]);
    assert_eq!(Tokens::DoubleQuote, tokens[1]);
    assert_eq!(Tokens::StringValue("key".into()), tokens[2]);
    assert_eq!(Tokens::DoubleQuote, tokens[3]);
    assert_eq!(Tokens::Colon, tokens[4]);
    assert_eq!(Tokens::DoubleQuote, tokens[5]);
    assert_eq!(Tokens::StringValue("value".into()), tokens[6]);
    assert_eq!(Tokens::DoubleQuote, tokens[7]);
    assert_eq!(Tokens::RightBrace, tokens[8]);
}

#[test]
fn test_tokenize_errors_on_unknown() {
    assert!(tokenize("?".into()).is_err());
}

#[test]
fn test_tokenize_bool_values() {
    let tokens = tokenize("{\"key\": true, \"key2\": false}".into()).unwrap();
    assert_eq!(tokens.len(), 14);
    assert_eq!(Tokens::LeftBrace, tokens[0]);
    assert_eq!(Tokens::DoubleQuote, tokens[1]);
    assert_eq!(Tokens::StringValue("key".into()), tokens[2]);
    assert_eq!(Tokens::DoubleQuote, tokens[3]);
    assert_eq!(Tokens::Colon, tokens[4]);
    assert_eq!(Tokens::BooleanValue(true), tokens[5]);
    assert_eq!(Tokens::Comma, tokens[6]);
    assert_eq!(Tokens::DoubleQuote, tokens[7]);
    assert_eq!(Tokens::StringValue("key2".into()), tokens[8]);
    assert_eq!(Tokens::DoubleQuote, tokens[9]);
    assert_eq!(Tokens::Colon, tokens[10]);
    assert_eq!(Tokens::BooleanValue(false), tokens[11]);
    assert_eq!(Tokens::RightBrace, tokens[12]);
}

#[test]
fn test_tokenize_integer_values() {
    let tokens = tokenize("{\"key\": -32, \"key2\": 14}".into()).unwrap();
    assert_eq!(tokens.len(), 14);
    assert_eq!(Tokens::LeftBrace, tokens[0]);
    assert_eq!(Tokens::DoubleQuote, tokens[1]);
    assert_eq!(Tokens::StringValue("key".into()), tokens[2]);
    assert_eq!(Tokens::DoubleQuote, tokens[3]);
    assert_eq!(Tokens::Colon, tokens[4]);
    assert_eq!(Tokens::IntegerValue(-32), tokens[5]);
    assert_eq!(Tokens::Comma, tokens[6]);
    assert_eq!(Tokens::DoubleQuote, tokens[7]);
    assert_eq!(Tokens::StringValue("key2".into()), tokens[8]);
    assert_eq!(Tokens::DoubleQuote, tokens[9]);
    assert_eq!(Tokens::Colon, tokens[10]);
    assert_eq!(Tokens::IntegerValue(14), tokens[11]);
    assert_eq!(Tokens::RightBrace, tokens[12]);
}

#[test]
fn test_tokenize_float_values() {
    let tokens = tokenize("{\"key\": -3.2, \"key2\": 0.14}".into()).unwrap();
    assert_eq!(tokens.len(), 14);
    assert_eq!(Tokens::LeftBrace, tokens[0]);
    assert_eq!(Tokens::DoubleQuote, tokens[1]);
    assert_eq!(Tokens::StringValue("key".into()), tokens[2]);
    assert_eq!(Tokens::DoubleQuote, tokens[3]);
    assert_eq!(Tokens::Colon, tokens[4]);
    assert_eq!(float_of(&tokens[5]), -3.2);
    assert_eq!(Tokens::Comma, tokens[6]);
    assert_eq!(Tokens::DoubleQuote, tokens[7]);
    assert_eq!(Tokens::StringValue("key2".into()), tokens[8]);
    assert_eq!(Tokens::DoubleQuote, tokens[9]);
    assert_eq!(Tokens::Colon, tokens[10]);
    assert_eq!(float_of(&tokens[11]), 0.14);
    assert_eq!(Tokens::RightBrace, tokens[12]);
}

#[test]
fn test_tokenize_float_scientific_notation_values() {
    let tokens = tokenize("{\"key\": -3E3, \"key2\": 14E-4}".into()).unwrap();
    //not parsing negative exponent e-1
    assert_eq!(tokens.len(), 14);
    assert_eq!(Tokens::LeftBrace, tokens[0]);
    assert_eq!(Tokens::DoubleQuote, tokens[1]);
    assert_eq!(Tokens::StringValue("key".into()), tokens[2]);
    assert_eq!(Tokens::DoubleQuote, tokens[3]);
    assert_eq!(Tokens::Colon, tokens[4]);
    assert_eq!(float_of(&tokens[5]), -3000.0);
    assert_eq!(Tokens::Comma, tokens[6]);
    assert_eq!(Tokens::DoubleQuote, tokens[7]);
    assert_eq!(Tokens::StringValue("key2".into()), tokens[8]);
    assert_eq!(Tokens::DoubleQuote, tokens[9]);
    assert_eq!(Tokens::Colon, tokens[10]);
    assert_eq!(float_of(&tokens[11]), 0.0014);
    assert_eq!(Tokens::RightBrace, tokens[12]);
}

#[test]
fn test_tokenize_null_values() {
    let tokens = tokenize("{\"key\": null, \"key2\": null}".into()).unwrap();
    assert_eq!(tokens.len(), 14);
    assert_eq!(Tokens::LeftBrace, tokens[0]);
    assert_eq!(Tokens::DoubleQuote, tokens[1]);
    assert_eq!(Tokens::StringValue("key".into()), tokens[2]);
    assert_eq!(Tokens::DoubleQuote, tokens[3]);
    assert_eq!(Tokens::Colon, tokens[4]);
    assert_eq!(Tokens::NullValue, tokens[5]);
    assert_eq!(Tokens::Comma, tokens[6]);
    assert_eq!(Tokens::DoubleQuote, tokens[7]);
    assert_eq!(Tokens::StringValue("key2".into()), tokens[8]);
    assert_eq!(Tokens::DoubleQuote, tokens[9]);
    assert_eq!(Tokens::Colon, tokens[10]);
    assert_eq!(Tokens::NullValue, tokens[11]);
    assert_eq!(Tokens::RightBrace, tokens[12]);
}

#[test]
fn test_tokenize_on_brackets() {
    let tokens = tokenize("[]".into()).unwrap();

    assert_eq!(tokens.len(), 3);
    assert_eq!(Tokens::LeftBracket, tokens[0]);
    assert_eq!(Tokens::RightBracket, tokens[1]);
}

#[test]
fn test_tokenize_list() {
    let tokens = tokenize("[\"one\", 2, true]".into()).unwrap();

    assert_eq!(tokens.len(), 10);
    assert_eq!(Tokens::LeftBracket, tokens[0]);
    assert_eq!(Tokens::DoubleQuote, tokens[1]);
    assert_eq!(Tokens::StringValue("one".into()), tokens[2]);
    assert_eq!(Tokens::DoubleQuote, tokens[3]);
    assert_eq!(Tokens::Comma, tokens[4]);
    assert_eq!(Tokens::IntegerValue(2), tokens[5]);
    assert_eq!(Tokens::Comma, tokens[6]);
    assert_eq!(Tokens::BooleanValue(true), tokens[7]);
    assert_eq!(Tokens::RightBracket, tokens[8]);
}

#[test]
fn test_tokenize_list_nested_object() {
    let tokens = tokenize("[\"one\", 2, { \"inner key\": true}]".into()).unwrap();

    assert_eq!(tokens.len(), 16);
    assert_eq!(Tokens::LeftBracket, tokens[0]);
    assert_eq!(Tokens::DoubleQuote, tokens[1]);
    assert_eq!(Tokens::StringValue("one".into()), tokens[2]);
    assert_eq!(Tokens::DoubleQuote, tokens[3]);
    assert_eq!(Tokens::Comma, tokens[4]);
    assert_eq!(Tokens::IntegerValue(2), tokens[5]);
    assert_eq!(Tokens::Comma, tokens[6]);

    assert_eq!(Tokens::LeftBrace, tokens[7]);
    assert_eq!(Tokens::DoubleQuote, tokens[8]);
    assert_eq!(Tokens::StringValue("inner key".into()), tokens[9]);
    assert_eq!(Tokens::DoubleQuote, tokens[10]);
    assert_eq!(Tokens::Colon, tokens[11]);
    assert_eq!(Tokens::BooleanValue(true), tokens[12]);
    assert_eq!(Tokens::RightBrace, tokens[13]);
    assert_eq!(Tokens::RightBracket, tokens[14]);
}

#[test]
fn test_tokenize_quote() {
    let input: String = "{\"key\": \"\"\"}".into();

    let tokens = tokenize(input).unwrap();

    assert_eq!(tokens.len(), 10);
    assert_eq!(Tokens::LeftBrace, tokens[0]);
    assert_eq!(Tokens::DoubleQuote, tokens[1]);
    assert_eq!(Tokens::StringValue("key".into()), tokens[2]);
    assert_eq!(Tokens::DoubleQuote, tokens[3]);
    assert_eq!(Tokens::Colon, tokens[4]);
    assert_eq!(Tokens::DoubleQuote, tokens[5]);
    assert_eq!(Tokens::StringValue("\"".into()), tokens[6]);
    assert_eq!(Tokens::DoubleQuote, tokens[7]);
    assert_eq!(Tokens::RightBrace, tokens[8]);
}
