use redis_starter_rust::command::Command;
use redis_starter_rust::get_command;
use redis_starter_rust::parser::ParsingError;

#[test]
fn parse_input_return_unknown_if_empty() {
    let result = get_command(&[]);
    assert_eq!(result.is_err(), true);
}

#[test]
fn parse_input_return_ping() {
    let input = "*1\r\n$4\r\nping\r\n".as_bytes();
    let result = get_command(input);
    assert_eq!(result.is_ok(), true);
    assert_eq!(result.unwrap(), Command::Ping);
}

#[test]
fn parse_input_return_echo() {
    let input = "*2\r\n$4\r\necho\r\n$8\r\ntititoto\r\n".as_bytes();
    let result = get_command(input);
    assert_eq!(result.is_ok(), true);
    assert_eq!(result.unwrap(), Command::Echo { print: "tititoto".as_bytes().to_vec() });
}

#[test]
fn parse_input_return_get() {
    let input = "*2\r\n$3\r\nget\r\n$8\r\ntititoto\r\n".as_bytes();
    let result = get_command(input);
    assert_eq!(result.is_ok(), true);
    assert_eq!(result.unwrap(), Command::Get { key: "tititoto".as_bytes().to_vec() });
}

#[test]
fn parse_input_return_set() {
    let input = "*3\r\n$3\r\nset\r\n$4\r\ntiti\r\n$4\r\ntoto\r\n".as_bytes();
    let result = get_command(input);
    assert_eq!(result.is_ok(), true);
    assert_eq!(
        result.unwrap(),
        Command::SetValue {
            key: "titi".as_bytes().to_vec(),
            value: "toto".as_bytes().to_vec(),
            expiry: None
        }
    );
}

#[test]
fn parse_input_return_set_with_expiry() {
    let input =
        "*5\r\n$3\r\nset\r\n$4\r\ntiti\r\n$4\r\ntoto\r\n$2\r\npx\r\n$4\r\n1234\r\n".as_bytes();
    let result = get_command(input);
    assert_eq!(result.is_ok(), true);
    assert_eq!(
        result.unwrap(),
        Command::SetValue {
            key: "titi".as_bytes().to_vec(),
            value: "toto".as_bytes().to_vec(),
            expiry: Some(1234)
        }
    );
}

#[test]
fn echo_without_argument_fails() {
    let input = "*1\r\n$4\r\necho\r\n".as_bytes();
    let result = get_command(input);
    assert_eq!(result, Err(ParsingError::FormatError));
}

#[test]
fn get_without_argument_fails() {
    let input = "*1\r\n$3\r\nget\r\n".as_bytes();
    let result = get_command(input);
    assert_eq!(result, Err(ParsingError::FormatError));
}

#[test]
fn set_without_value_fails() {
    let input = "*2\r\n$3\r\nset\r\n$4\r\ntiti\r\n".as_bytes();
    let result = get_command(input);
    assert_eq!(result, Err(ParsingError::FormatError));
}

#[test]
fn set_with_bad_expiry_number_still_succeeds() {
    let input = "*5\r\n$3\r\nset\r\n$1\r\na\r\n$1\r\nb\r\n$2\r\npx\r\n$3\r\nxyz\r\n".as_bytes();
    let result = get_command(input);
    assert_eq!(
        result.unwrap(),
        Command::SetValue {
            key: "a".as_bytes().to_vec(),
            value: "b".as_bytes().to_vec(),
            expiry: None
        }
    );
}

#[test]
fn set_with_trailing_content_is_lenient() {
    let input = "*4\r\n$3\r\nset\r\n$1\r\na\r\n$1\r\nb\r\n$5\r\nextra\r\n".as_bytes();
    let result = get_command(input);
    assert_eq!(
        result.unwrap(),
        Command::SetValue {
            key: "a".as_bytes().to_vec(),
            value: "b".as_bytes().to_vec(),
            expiry: None
        }
    );
}

#[test]
fn unknown_command_name_is_not_an_error() {
    let input = "*1\r\n$5\r\nhello\r\n".as_bytes();
    let result = get_command(input);
    assert_eq!(result.unwrap(), Command::Unknown);
}

#[test]
fn upper_case_name_is_unknown() {
    let input = "*1\r\n$4\r\nPING\r\n".as_bytes();
    let result = get_command(input);
    assert_eq!(result.unwrap(), Command::Unknown);
}

#[test]
fn buffer_not_starting_with_star_fails() {
    let input = "$4\r\nping\r\n".as_bytes();
    let result = get_command(input);
    assert_eq!(result, Err(ParsingError::FormatError));
}
