use redis_starter_rust::parser::{parse, parse_int, ParsingError, Value};

#[test]
fn parse_int_one_digit() {
    let input = "OOPS1\r\nOOPS".as_bytes();
    let result = parse_int(input, 4);
    assert_eq!(result.is_ok(), true);
    let (value, position) = result.unwrap();
    assert_eq!(value, Value::Int { value: 1 });
    assert_eq!(position, 7);
}

#[test]
fn parse_int_three_digit() {
    let input = "OOPS123\r\nOOPS".as_bytes();
    let result = parse_int(input, 4);
    assert_eq!(result.is_ok(), true);
    let (value, position) = result.unwrap();
    assert_eq!(value, Value::Int { value: 123 });
    assert_eq!(position, 9);
}

#[test]
fn parse_return_int() {
    let input = "OOPS:123\r\nOOPS".as_bytes();
    let result = parse(input, 4);
    assert_eq!(result.is_ok(), true);
    let (value, position) = result.unwrap();
    assert_eq!(value, Value::Int { value: 123 });
    assert_eq!(position, 10);
}

#[test]
fn parse_return_string() {
    let input = "OOPS$4\r\necho\r\nOOPS".as_bytes();
    let result = parse(input, 4);
    assert_eq!(result.is_ok(), true);
    let (value, position) = result.unwrap();
    assert_eq!(value, Value::String { value: "echo".as_bytes().to_vec() });
    assert_eq!(position, 14);
}

#[test]
fn parse_return_empty_string() {
    let input = "OOPS$0\r\n\r\nOOPS".as_bytes();
    let result = parse(input, 4);
    assert_eq!(result.is_ok(), true);
    let (value, position) = result.unwrap();
    assert_eq!(value, Value::String { value: Vec::new() });
    assert_eq!(position, 10);
}

#[test]
fn parse_return_null() {
    let input = "OOPS$-1\r\n\r\nOOPS".as_bytes();
    let result = parse(input, 4);
    assert_eq!(result.is_ok(), true);
    let (value, position) = result.unwrap();
    assert_eq!(value, Value::Null);
    assert_eq!(position, 11);
    assert_eq!(input[position], b'O');
}

#[test]
fn parse_return_empty_array() {
    let input = "OUPS*0\r\nOUPS".as_bytes();
    let result = parse(input, 4);
    assert_eq!(result.is_ok(), true);
    let (value, position) = result.unwrap();
    assert_eq!(value, Value::Array { items: vec![] });
    assert_eq!(position, 8);
}

#[test]
fn parse_return_array_of_2_string() {
    let input = "OUPS*2\r\n$5\r\nhello\r\n$5\r\nworld\r\nOUPS".as_bytes();
    let result = parse(input, 4);
    assert_eq!(result.is_ok(), true);
    let (value, position) = result.unwrap();
    assert_eq!(
        value,
        Value::Array {
            items: vec![
                Value::String { value: "hello".as_bytes().to_vec() },
                Value::String { value: "world".as_bytes().to_vec() },
            ]
        }
    );
    assert_eq!(position, 30);
    assert_eq!(input[position], b'O');
}

#[test]
fn parse_negative_int() {
    let input = ":-42\r\n".as_bytes();
    let result = parse(input, 0);
    let (value, position) = result.unwrap();
    assert_eq!(value, Value::Int { value: -42 });
    assert_eq!(position, 6);
}

#[test]
fn parse_int_rejects_non_digits() {
    let input = "abc\r\n".as_bytes();
    let result = parse_int(input, 0);
    assert_eq!(result, Err(ParsingError::NumberError));
}

#[test]
fn parse_int_rejects_out_of_range() {
    let input = "99999999999\r\n".as_bytes();
    let result = parse_int(input, 0);
    assert_eq!(result, Err(ParsingError::NumberError));
}

#[test]
fn parse_int_rejects_missing_terminator() {
    let input = "123".as_bytes();
    let result = parse_int(input, 0);
    assert_eq!(result, Err(ParsingError::FormatError));
}

#[test]
fn parse_rejects_invalid_utf8_payload() {
    let mut input: Vec<u8> = "$4\r\n".as_bytes().to_vec();
    input.extend_from_slice(&[0xFF, 0xFE, 0xFD, 0xFC]);
    input.extend_from_slice("\r\n".as_bytes());
    let result = parse(&input, 0);
    assert_eq!(result, Err(ParsingError::Utf8Error));
}

#[test]
fn parse_rejects_unknown_marker() {
    let input = "hello\r\n".as_bytes();
    let result = parse(input, 0);
    assert_eq!(result, Err(ParsingError::FormatError));
}

#[test]
fn parse_rejects_truncated_bulk_string() {
    let input = "$10\r\nshort\r\n".as_bytes();
    let result = parse(input, 0);
    assert_eq!(result, Err(ParsingError::FormatError));
}
