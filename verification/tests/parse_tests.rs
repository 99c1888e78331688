use json_tree::lex::Token;
use json_tree::parse::{
    parse_object, parse_value, Array, Elements, JSONNumber, Members, Object, ParseError, Value,
};

#[test]
fn parse_test_parse_value_string() {
    let tokens = vec![Token::String("string".to_string())];
    let mut pos: usize = 0;
    let result = parse_value(&tokens, &mut pos);
    assert_eq!(result, Ok(Value::String("string".to_string())));
}

#[test]
fn parse_test_parse_value_number() {
    let tokens = vec![Token::Integer(5)];
    let mut pos: usize = 0;
    let result = parse_value(&tokens, &mut pos);
    assert_eq!(result, Ok(Value::Number(JSONNumber::Integer(5))));
}

#[test]
fn parse_test_parse_value_true() {
    let tokens = vec![Token::True];
    let mut pos: usize = 0;
    let result = parse_value(&tokens, &mut pos);
    assert_eq!(result, Ok(Value::True));
}

#[test]
fn parse_test_parse_value_false() {
    let tokens = vec![Token::False];
    let mut pos: usize = 0;
    let result = parse_value(&tokens, &mut pos);
    assert_eq!(result, Ok(Value::False));
}

#[test]
fn parse_test_parse_value_null() {
    let tokens = vec![Token::Null];
    let mut pos: usize = 0;
    let result = parse_value(&tokens, &mut pos);
    assert_eq!(result, Ok(Value::Null));
}

#[test]
fn parse_test_parse_value_no_token() {
    let tokens = vec![];
    let mut pos: usize = 0;
    let result = parse_value(&tokens, &mut pos);
    assert_eq!(result, Err(ParseError::ExpectedToken));
}

#[test]
fn parse_test_parse_value_invalid_token() {
    let tokens = vec![Token::ObjectStart];
    let mut pos: usize = 0;
    let result = parse_value(&tokens, &mut pos);
    assert_eq!(result, Err(ParseError::ExpectedToken));
}

#[test]
fn parse_test_parse_object_empty() {
    let tokens = vec![Token::ObjectStart, Token::ObjectEnd];
    let mut pos: usize = 0;
    let result = parse_object(&tokens, &mut pos);
    assert_eq!(result, Ok(Object::Empty));
}

#[test]
fn test_parse_object_member_string() {
    let tokens = vec![
        Token::ObjectStart,
        Token::String("key".to_string()),
        Token::Colon,
        Token::String("value".to_string()),
        Token::ObjectEnd,
    ];
    let mut pos: usize = 0;
    let result = parse_object(&tokens, &mut pos);
    assert_eq!(
        result,
        Ok(Object::Nonempty(Box::new(Members::Pair(
            "key".to_string(),
            Value::String("value".to_string())
        ))))
    );
}

#[test]
fn test_parse_object_members() {
    let tokens = vec![
        Token::ObjectStart,
        Token::String("key1".to_string()),
        Token::Colon,
        Token::String("value1".to_string()),
        Token::Comma,
        Token::String("key2".to_string()),
        Token::Colon,
        Token::String("value2".to_string()),
        Token::ObjectEnd,
    ];
    let mut pos: usize = 0;
    let result = parse_object(&tokens, &mut pos);
    assert_eq!(
        result,
        Ok(Object::Nonempty(Box::new(Members::Pairs(
            "key1".to_string(),
            Value::String("value1".to_string()),
            Box::new(Members::Pair(
                "key2".to_string(),
                Value::String("value2".to_string())
            ))
        ))))
    );
}

#[test]
fn test_parse_object_member_int() {
    let tokens = vec![
        Token::ObjectStart,
        Token::String("key".to_string()),
        Token::Colon,
        Token::Integer(5),
        Token::ObjectEnd,
    ];
    let mut pos: usize = 0;
    let result = parse_object(&tokens, &mut pos);
    assert_eq!(
        result,
        Ok(Object::Nonempty(Box::new(Members::Pair(
            "key".to_string(),
            Value::Number(JSONNumber::Integer(5))
        ))))
    );
}

#[test]
fn test_parse_object_member_float() {
    // The float literal 0.5: whole digit run 0, fractional digit run 5.
    let tokens = vec![
        Token::ObjectStart,
        Token::String("key".to_string()),
        Token::Colon,
        Token::Float(0, 5),
        Token::ObjectEnd,
    ];
    let mut pos: usize = 0;
    let result = parse_object(&tokens, &mut pos);
    assert_eq!(
        result,
        Ok(Object::Nonempty(Box::new(Members::Pair(
            "key".to_string(),
            Value::Number(JSONNumber::Float(0, 5))
        ))))
    );
}

#[test]
fn test_parse_object_member_true() {
    let tokens = vec![
        Token::ObjectStart,
        Token::String("key".to_string()),
        Token::Colon,
        Token::True,
        Token::ObjectEnd,
    ];
    let mut pos: usize = 0;
    let result = parse_object(&tokens, &mut pos);
    assert_eq!(
        result,
        Ok(Object::Nonempty(Box::new(Members::Pair(
            "key".to_string(),
            Value::True
        ))))
    );
}

#[test]
fn test_parse_object_member_false() {
    let tokens = vec![
        Token::ObjectStart,
        Token::String("key".to_string()),
        Token::Colon,
        Token::False,
        Token::ObjectEnd,
    ];
    let mut pos: usize = 0;
    let result = parse_object(&tokens, &mut pos);
    assert_eq!(
        result,
        Ok(Object::Nonempty(Box::new(Members::Pair(
            "key".to_string(),
            Value::False
        ))))
    );
}

#[test]
fn test_parse_object_member_null() {
    let tokens = vec![
        Token::ObjectStart,
        Token::String("key".to_string()),
        Token::Colon,
        Token::Null,
        Token::ObjectEnd,
    ];
    let mut pos: usize = 0;
    let result = parse_object(&tokens, &mut pos);
    assert_eq!(
        result,
        Ok(Object::Nonempty(Box::new(Members::Pair(
            "key".to_string(),
            Value::Null
        ))))
    );
}

#[test]
fn test_parse_object_member_array_empty() {
    let tokens = vec![
        Token::ObjectStart,
        Token::String("key".to_string()),
        Token::Colon,
        Token::ArrayStart,
        Token::ArrayEnd,
        Token::ObjectEnd,
    ];
    let mut pos: usize = 0;
    let result = parse_object(&tokens, &mut pos);
    assert_eq!(
        result,
        Ok(Object::Nonempty(Box::new(Members::Pair(
            "key".to_string(),
            Value::Array(Array::Empty)
        ))))
    );
}

#[test]
fn test_parse_object_member_array_element() {
    let tokens = vec![
        Token::ObjectStart,
        Token::String("key".to_string()),
        Token::Colon,
        Token::ArrayStart,
        Token::Integer(5),
        Token::ArrayEnd,
        Token::ObjectEnd,
    ];
    let mut pos: usize = 0;
    let result = parse_object(&tokens, &mut pos);
    assert_eq!(
        result,
        Ok(Object::Nonempty(Box::new(Members::Pair(
            "key".to_string(),
            Value::Array(Array::Nonempty(Box::new(Elements::Single(Value::Number(
                JSONNumber::Integer(5)
            )))))
        ))))
    );
}

#[test]
fn test_parse_object_member_array_elements() {
    let tokens = vec![
        Token::ObjectStart,
        Token::String("key".to_string()),
        Token::Colon,
        Token::ArrayStart,
        Token::Integer(5),
        Token::Comma,
        Token::String("elements".to_string()),
        Token::ArrayEnd,
        Token::ObjectEnd,
    ];
    let mut pos: usize = 0;
    let result = parse_object(&tokens, &mut pos);
    assert_eq!(
        result,
        Ok(Object::Nonempty(Box::new(Members::Pair(
            "key".to_string(),
            Value::Array(Array::Nonempty(Box::new(Elements::Many(
                Value::Number(JSONNumber::Integer(5)),
                Box::new(Elements::Single(Value::String("elements".to_string())))
            ))))
        ))))
    );
}

#[test]
fn test_parse_object_member_object() {
    let tokens = vec![
        Token::ObjectStart,
        Token::String("key".to_string()),
        Token::Colon,
        Token::ObjectStart,
        Token::ObjectEnd,
        Token::ObjectEnd,
    ];
    let mut pos: usize = 0;
    let result = parse_object(&tokens, &mut pos);
    assert_eq!(
        result,
        Ok(Object::Nonempty(Box::new(Members::Pair(
            "key".to_string(),
            Value::Object(Object::Empty)
        ))))
    );
}

#[test]
fn mod_test_parse_value_string() {
    let tokens = vec![Token::String("string".to_string())];
    let mut pos: usize = 0;
    let result = parse_value(&tokens, &mut pos);
    assert_eq!(result, Ok(Value::String("string".to_string())));
}

#[test]
fn mod_test_parse_value_number() {
    let tokens = vec![Token::Integer(5)];
    let mut pos: usize = 0;
    let result = parse_value(&tokens, &mut pos);
    assert_eq!(result, Ok(Value::Number(JSONNumber::Integer(5))));
}

#[test]
fn mod_test_parse_value_true() {
    let tokens = vec![Token::True];
    let mut pos: usize = 0;
    let result = parse_value(&tokens, &mut pos);
    assert_eq!(result, Ok(Value::True));
}

#[test]
fn mod_test_parse_value_false() {
    let tokens = vec![Token::False];
    let mut pos: usize = 0;
    let result = parse_value(&tokens, &mut pos);
    assert_eq!(result, Ok(Value::False));
}

#[test]
fn mod_test_parse_value_null() {
    let tokens = vec![Token::Null];
    let mut pos: usize = 0;
    let result = parse_value(&tokens, &mut pos);
    assert_eq!(result, Ok(Value::Null));
}

#[test]
fn mod_test_parse_value_no_token() {
    let tokens = vec![];
    let mut pos: usize = 0;
    let result = parse_value(&tokens, &mut pos);
    assert_eq!(result, Err(ParseError::ExpectedToken));
}

#[test]
fn mod_test_parse_value_invalid_token() {
    let tokens = vec![Token::ObjectStart];
    let mut pos: usize = 0;
    let result = parse_value(&tokens, &mut pos);
    assert_eq!(result, Err(ParseError::ExpectedToken));
}

#[test]
fn mod_test_parse_object_empty() {
    let tokens = vec![Token::ObjectStart, Token::ObjectEnd];
    let mut pos: usize = 0;
    let result = parse_object(&tokens, &mut pos);
    assert_eq!(result, Ok(Object::Empty));
}

#[test]
fn test_parse_object_basic() {
    let tokens = vec![
        Token::ObjectStart,
        Token::String("key".to_string()),
        Token::Colon,
        Token::String("value".to_string()),
        Token::ObjectEnd,
    ];
    let mut pos: usize = 0;
    let result = parse_object(&tokens, &mut pos);
    assert_eq!(
        result,
        Ok(Object::Nonempty(Box::new(Members::Pair(
            "key".to_string(),
            Value::String("value".to_string())
        ))))
    );
}
