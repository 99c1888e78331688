use json_tree::lex::{remove_whitespace, LexError, Lexer, Token};
use json_tree::parse::{
    parse_object, parse_value, Array, Elements, JSONNumber, Members, Object, ParseError, Value,
};

fn tokenize(text: &str) -> Result<Vec<Token>, LexError> {
    let mut lexer = Lexer::new(text);
    lexer.lex()
}

fn parse_document(text: &str) -> Result<Result<Object, ParseError>, LexError> {
    let tokens = tokenize(text)?;
    let tokens = remove_whitespace(tokens);
    let mut pos: usize = 0;
    Ok(parse_object(&tokens, &mut pos))
}

#[test]
fn tokenize_zero() {
    assert_eq!(tokenize("0"), Ok(vec![Token::Integer(0)]));
}

#[test]
fn tokenize_ten() {
    assert_eq!(tokenize("10"), Ok(vec![Token::Integer(10)]));
}

#[test]
fn tokenize_one_point_five() {
    // The float literal 1.5 is the digit-run pair (1, 5).
    assert_eq!(tokenize("1.5"), Ok(vec![Token::Float(1, 5)]));
}

#[test]
fn tokenize_fraction_leading_zero() {
    // The fractional run is decoded as a number, so 1.05 and 1.5 carry
    // the same pair, exactly as the textual-join reading of the grammar
    // prescribes.
    assert_eq!(tokenize("1.05"), Ok(vec![Token::Float(1, 5)]));
}

#[test]
fn tokenize_structural_and_literals() {
    assert_eq!(
        tokenize("{}[],:true false null"),
        Ok(vec![
            Token::ObjectStart,
            Token::ObjectEnd,
            Token::ArrayStart,
            Token::ArrayEnd,
            Token::Comma,
            Token::Colon,
            Token::True,
            Token::Whitespace,
            Token::False,
            Token::Whitespace,
            Token::Null,
        ])
    );
}

#[test]
fn tokenize_string_verbatim_backslash() {
    // Backslash sequences are copied as literal characters, not decoded.
    assert_eq!(
        tokenize("\"a\\nb\""),
        Ok(vec![Token::String("a\\nb".to_string())])
    );
}

#[test]
fn tokenize_unterminated_string() {
    assert_eq!(tokenize("{\"a"), Err(LexError::InvalidToken));
}

#[test]
fn tokenize_unrecognized_character() {
    assert_eq!(tokenize("{@}"), Err(LexError::InvalidToken));
}

#[test]
fn tokenize_misspelled_literal() {
    assert_eq!(tokenize("twue"), Err(LexError::InvalidToken));
    assert_eq!(tokenize("tru"), Err(LexError::InvalidToken));
    assert_eq!(tokenize("falze"), Err(LexError::InvalidToken));
    assert_eq!(tokenize("nul"), Err(LexError::InvalidToken));
}

#[test]
fn tokenize_point_without_digits() {
    assert_eq!(tokenize("1."), Err(LexError::InvalidToken));
    assert_eq!(tokenize("1.x"), Err(LexError::InvalidToken));
}

#[test]
fn tokenize_integer_too_large() {
    // A digit run whose value does not fit in an i32 is an invalid token.
    assert_eq!(tokenize("2147483647"), Ok(vec![Token::Integer(2147483647)]));
    assert_eq!(tokenize("2147483648"), Err(LexError::InvalidToken));
}

#[test]
fn tokenize_leading_zero_splits() {
    // A leading zero is a complete integer token of its own; the digits
    // after it are tokenized separately.
    assert_eq!(tokenize("01"), Ok(vec![Token::Integer(0), Token::Integer(1)]));
}

#[test]
fn tokenize_zero_point_five_rejected() {
    // Since 0 is tokenized alone, the following point is unrecognized.
    assert_eq!(tokenize("0.5"), Err(LexError::InvalidToken));
}

#[test]
fn parse_empty_object_document() {
    assert_eq!(parse_document("{}"), Ok(Ok(Object::Empty)));
}

#[test]
fn parse_array_value_empty() {
    let tokens = vec![Token::ArrayStart, Token::ArrayEnd];
    let mut pos: usize = 0;
    assert_eq!(parse_value(&tokens, &mut pos), Ok(Value::Array(Array::Empty)));
}

#[test]
fn parse_single_pair_document() {
    assert_eq!(
        parse_document("{\"key\":\"value\"}"),
        Ok(Ok(Object::Nonempty(Box::new(Members::Pair(
            "key".to_string(),
            Value::String("value".to_string())
        )))))
    );
}

#[test]
fn parse_integer_pair_document() {
    assert_eq!(
        parse_document("{\"key\":5}"),
        Ok(Ok(Object::Nonempty(Box::new(Members::Pair(
            "key".to_string(),
            Value::Number(JSONNumber::Integer(5))
        )))))
    );
}

#[test]
fn parse_trailing_comma_rejected() {
    assert_eq!(
        parse_document("{\"a\":1,}"),
        Ok(Err(ParseError::ExpectedToken))
    );
}

#[test]
fn parse_leading_comma_rejected() {
    assert_eq!(
        parse_document("{,\"a\":1}"),
        Ok(Err(ParseError::ExpectedToken))
    );
}

#[test]
fn parse_missing_colon_rejected() {
    assert_eq!(
        parse_document("{\"a\" 1}"),
        Ok(Err(ParseError::ExpectedToken))
    );
}

#[test]
fn parse_missing_close_rejected() {
    assert_eq!(parse_document("{\"a\":1"), Ok(Err(ParseError::ExpectedToken)));
}

#[test]
fn parse_top_level_array_rejected() {
    // Parsing always starts at the object production.
    assert_eq!(parse_document("[]"), Ok(Err(ParseError::ExpectedToken)));
}

#[test]
fn parse_nested_document() {
    // An object whose only value is an array containing an object:
    // structural equality against the hand-built tree.
    assert_eq!(
        parse_document("{\"a\":[{}]}"),
        Ok(Ok(Object::Nonempty(Box::new(Members::Pair(
            "a".to_string(),
            Value::Array(Array::Nonempty(Box::new(Elements::Single(Value::Object(
                Object::Empty
            )))))
        )))))
    );
}

#[test]
fn parse_document_with_whitespace() {
    assert_eq!(
        parse_document(" {\n\t\"a\" :\r1 ,  \"b\" : true } "),
        Ok(Ok(Object::Nonempty(Box::new(Members::Pairs(
            "a".to_string(),
            Value::Number(JSONNumber::Integer(1)),
            Box::new(Members::Pair("b".to_string(), Value::True))
        )))))
    );
}

#[test]
fn parse_duplicate_keys_kept_in_order() {
    assert_eq!(
        parse_document("{\"k\":1,\"k\":2}"),
        Ok(Ok(Object::Nonempty(Box::new(Members::Pairs(
            "k".to_string(),
            Value::Number(JSONNumber::Integer(1)),
            Box::new(Members::Pair(
                "k".to_string(),
                Value::Number(JSONNumber::Integer(2))
            ))
        )))))
    );
}

#[test]
fn remove_whitespace_keeps_order() {
    let tokens = vec![
        Token::Whitespace,
        Token::ObjectStart,
        Token::Whitespace,
        Token::Integer(1),
        Token::ObjectEnd,
        Token::Whitespace,
    ];
    assert_eq!(
        remove_whitespace(tokens),
        vec![Token::ObjectStart, Token::Integer(1), Token::ObjectEnd]
    );
}

#[test]
fn lexer_keeps_its_buffer() {
    let mut lexer = Lexer::new("{}");
    let first = lexer.lex();
    let second = lexer.lex();
    assert_eq!(first, second);
}
