use bencode::BencodeValue;
use bencode::ErrorCode;
use bencode::Parser;

#[test]
fn test_int_parsing() {
    let data = b"i42e";
    let mut parser = Parser::new(data.to_vec());
    let result = parser.parse();
    assert!(result.is_ok());
    assert_eq!(result.unwrap(), BencodeValue::Integer(42));
}

#[test]
fn test_string_parsing() {
    let data = b"4:spam";
    let mut parser = Parser::new(data.to_vec());
    let result = parser.parse();
    assert!(result.is_ok());
    assert_eq!(result.unwrap(), BencodeValue::ByteString(b"spam".to_vec()));
}

#[test]
fn test_empty_list_parsing() {
    let data = b"le";
    let mut parser = Parser::new(data.to_vec());
    let result = parser.parse();
    assert!(result.is_ok());
    assert_eq!(result.unwrap(), BencodeValue::List(vec![]));
}

#[test]
fn test_list_parsing() {
    let data = b"l4:spam4:eggsi42e4:spame";
    let mut parser = Parser::new(data.to_vec());
    let result = parser.parse();
    assert!(result.is_ok());
    assert_eq!(
        result.unwrap(),
        BencodeValue::List(vec![
            BencodeValue::ByteString(b"spam".to_vec()),
            BencodeValue::ByteString(b"eggs".to_vec()),
            BencodeValue::Integer(42),
            BencodeValue::ByteString(b"spam".to_vec())
        ])
    );
}

#[test]
fn test_int_list_parsing() {
    let data = b"li42ei43ee";
    let mut parser = Parser::new(data.to_vec());
    let result = parser.parse();
    assert!(result.is_ok());
    assert_eq!(
        result.unwrap(),
        BencodeValue::List(vec![BencodeValue::Integer(42), BencodeValue::Integer(43)])
    );
}

#[test]
fn test_dict_parsing() {
    let data = b"d4:spami42ee";
    let mut parser = Parser::new(data.to_vec());
    let result = parser.parse();
    assert!(result.is_ok());
    assert_eq!(
        result.unwrap(),
        BencodeValue::Dict(vec![(b"spam".to_vec(), BencodeValue::Integer(42))])
    );
}

#[test]
fn test_nested_list_parsing() {
    let data = b"ll4:spamei99ee";
    let mut parser = Parser::new(data.to_vec());
    let result = parser.parse();
    assert!(result.is_ok());
    assert_eq!(
        result.unwrap(),
        BencodeValue::List(vec![
            BencodeValue::List(vec![BencodeValue::ByteString(b"spam".to_vec())]),
            BencodeValue::Integer(99)
        ])
    );
}

#[test]
fn test_empty_dict_parsing() {
    let data = b"de";
    let mut parser = Parser::new(data.to_vec());
    let result = parser.parse();
    assert!(result.is_ok());
    assert_eq!(result.unwrap(), BencodeValue::Dict(vec![]));
}

#[test]
fn test_dict_with_multiple_entries() {
    let data = b"d3:foo3:bar3:bazi123ee";
    let mut parser = Parser::new(data.to_vec());
    let result = parser.parse();
    assert_eq!(
        result.unwrap(),
        BencodeValue::Dict(vec![
            (b"foo".to_vec(), BencodeValue::ByteString(b"bar".to_vec())),
            (b"baz".to_vec(), BencodeValue::Integer(123))
        ])
    );
}

#[test]
fn test_dict_with_list_value() {
    let data = b"d4:listl4:spami42eee";
    let mut parser = Parser::new(data.to_vec());
    let result = parser.parse();
    assert_eq!(
        result.unwrap(),
        BencodeValue::Dict(vec![(
            b"list".to_vec(),
            BencodeValue::List(vec![
                BencodeValue::ByteString(b"spam".to_vec()),
                BencodeValue::Integer(42)
            ])
        )])
    );
}

#[test]
fn test_invalid_bencode_returns_err() {
    let data = b"i42"; // missing 'e' at the end
    let mut parser = Parser::new(data.to_vec());
    let result = parser.parse();
    assert!(result.is_err());
}

#[test]
fn test_zero_length_string() {
    let data = b"0:";
    let mut parser = Parser::new(data.to_vec());
    let result = parser.parse();
    assert!(result.is_ok());
    assert_eq!(result.unwrap(), BencodeValue::ByteString(vec![]));
}

#[test]
fn test_dict_with_empty_string_key() {
    let data = b"d0:3:fooee";
    let mut parser = Parser::new(data.to_vec());
    let result = parser.parse();
    assert!(result.is_ok());
    assert_eq!(
        result.unwrap(),
        BencodeValue::Dict(vec![(
            vec![],
            BencodeValue::ByteString(b"foo".to_vec())
        )])
    );
}

#[test]
fn test_missing_terminator_reports_integer_parse_error() {
    let mut parser = Parser::new(b"i42".to_vec());
    let err = parser.parse().unwrap_err();
    assert_eq!(err.code(), ErrorCode::IntegerParseError);
    assert_eq!(err.position(), 1);
}

#[test]
fn test_same_buffer_decodes_identically() {
    let data = b"d3:foo3:bar3:bazli1ei2eee";
    let first = Parser::new(data.to_vec()).parse();
    let second = Parser::new(data.to_vec()).parse();
    assert_eq!(first.unwrap(), second.unwrap());
}

#[test]
fn test_same_buffer_fails_identically() {
    let data = b"l4:spam";
    let first = Parser::new(data.to_vec()).parse().unwrap_err();
    let second = Parser::new(data.to_vec()).parse().unwrap_err();
    assert_eq!(first.code(), second.code());
    assert_eq!(first.position(), second.position());
}

#[test]
fn test_duplicate_dict_keys_last_wins() {
    let data = b"d3:fooi1e3:fooi2ee";
    let result = Parser::new(data.to_vec()).parse();
    assert_eq!(
        result.unwrap(),
        BencodeValue::Dict(vec![(b"foo".to_vec(), BencodeValue::Integer(2))])
    );
}

#[test]
fn test_list_of_string_and_int() {
    let data = b"l4:spami42ee";
    let result = Parser::new(data.to_vec()).parse();
    assert_eq!(
        result.unwrap(),
        BencodeValue::List(vec![
            BencodeValue::ByteString(b"spam".to_vec()),
            BencodeValue::Integer(42)
        ])
    );
}

#[test]
fn test_negative_integer() {
    let result = Parser::new(b"i-42e".to_vec()).parse();
    assert_eq!(result.unwrap(), BencodeValue::Integer(-42));
}

#[test]
fn test_integer_with_leading_plus() {
    // the native signed parser accepts a leading plus sign
    let result = Parser::new(b"i+42e".to_vec()).parse();
    assert_eq!(result.unwrap(), BencodeValue::Integer(42));
}

#[test]
fn test_integer_bounds() {
    let max = Parser::new(b"i9223372036854775807e".to_vec()).parse();
    assert_eq!(max.unwrap(), BencodeValue::Integer(i64::MAX));
    let min = Parser::new(b"i-9223372036854775808e".to_vec()).parse();
    assert_eq!(min.unwrap(), BencodeValue::Integer(i64::MIN));
    let over = Parser::new(b"i9223372036854775808e".to_vec())
        .parse()
        .unwrap_err();
    assert_eq!(over.code(), ErrorCode::IntegerParseError);
}

#[test]
fn test_empty_buffer_is_unexpected_end() {
    let err = Parser::new(vec![]).parse().unwrap_err();
    assert_eq!(err.code(), ErrorCode::UnexpectedEnd);
    assert_eq!(err.position(), 0);
}

#[test]
fn test_unexpected_character() {
    let err = Parser::new(b"x".to_vec()).parse().unwrap_err();
    assert_eq!(err.code(), ErrorCode::UnexpectedCharacter);
    assert_eq!(err.position(), 0);
}

#[test]
fn test_truncated_string_payload() {
    let err = Parser::new(b"10:abc".to_vec()).parse().unwrap_err();
    assert_eq!(err.code(), ErrorCode::UnexpectedEnd);
    assert_eq!(err.position(), 3);
}

#[test]
fn test_missing_length_separator() {
    let err = Parser::new(b"4spam".to_vec()).parse().unwrap_err();
    assert_eq!(err.code(), ErrorCode::StringParseError);
    assert_eq!(err.position(), 0);
}

#[test]
fn test_unterminated_list() {
    let err = Parser::new(b"li42e".to_vec()).parse().unwrap_err();
    assert_eq!(err.code(), ErrorCode::UnexpectedEnd);
    assert_eq!(err.position(), 5);
}

#[test]
fn test_dict_key_must_be_byte_string() {
    let err = Parser::new(b"di42ei43ee".to_vec()).parse().unwrap_err();
    assert_eq!(err.code(), ErrorCode::InvalidDictionary);
    assert_eq!(err.position(), 1);
}

#[test]
fn test_dict_bad_value_reports_invalid_dictionary() {
    let err = Parser::new(b"d3:fooxe".to_vec()).parse().unwrap_err();
    assert_eq!(err.code(), ErrorCode::InvalidDictionary);
    assert_eq!(err.position(), 6);
}

#[test]
fn test_depth_limit_is_enforced() {
    let within = Parser::with_max_depth(b"lllleeee".to_vec(), 4).parse();
    assert!(within.is_ok());
    let err = Parser::with_max_depth(b"lllleeee".to_vec(), 3)
        .parse()
        .unwrap_err();
    assert_eq!(err.code(), ErrorCode::DepthLimitExceeded);
    assert_eq!(err.position(), 3);
}

#[test]
fn test_error_to_string_format() {
    let err = Parser::new(b"i42".to_vec()).parse().unwrap_err();
    let text = err.to_string();
    assert_eq!(
        text,
        "Integer parsing error. Position: 1. Message: missing terminator after integer"
    );
}

#[test]
fn test_error_kind_names() {
    assert_eq!(ErrorCode::UnexpectedCharacter.to_string(), "Unexpected character");
    assert_eq!(ErrorCode::IntegerParseError.to_string(), "Integer parsing error");
    assert_eq!(ErrorCode::StringParseError.to_string(), "String parsing error");
    assert_eq!(ErrorCode::InvalidList.to_string(), "Invalid list");
    assert_eq!(ErrorCode::InvalidDictionary.to_string(), "Invalid dictionary");
    assert_eq!(ErrorCode::UnexpectedEnd.to_string(), "Unexpected end of input");
    assert_eq!(ErrorCode::DepthLimitExceeded.to_string(), "Depth limit exceeded");
}

#[test]
fn test_trailing_bytes_are_left_unread() {
    // one decode reads exactly one value; what follows it is not touched
    let mut parser = Parser::new(b"i42extra".to_vec());
    let result = parser.parse();
    assert_eq!(result.unwrap(), BencodeValue::Integer(42));
}
