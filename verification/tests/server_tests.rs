use redis_starter_rust::server::handle_message;
use redis_starter_rust::Store;

#[test]
fn ping_gets_pong() {
    let mut store = Store::new();
    let reply = handle_message(&mut store, "*1\r\n$4\r\nping\r\n".as_bytes());
    assert_eq!(reply, "+PONG\r\n".as_bytes().to_vec());
}

#[test]
fn echo_returns_its_argument() {
    let mut store = Store::new();
    let reply = handle_message(&mut store, "*2\r\n$4\r\necho\r\n$5\r\nhello\r\n".as_bytes());
    assert_eq!(reply, "+hello\r\n".as_bytes().to_vec());
}

#[test]
fn set_then_get_round_trip() {
    let mut store = Store::new();
    let set_reply =
        handle_message(&mut store, "*3\r\n$3\r\nset\r\n$1\r\na\r\n$1\r\nb\r\n".as_bytes());
    assert_eq!(set_reply, "+OK\r\n".as_bytes().to_vec());
    let get_reply = handle_message(&mut store, "*2\r\n$3\r\nget\r\n$1\r\na\r\n".as_bytes());
    assert_eq!(get_reply, "+b\r\n".as_bytes().to_vec());
}

#[test]
fn get_on_empty_store_replies_null() {
    let mut store = Store::new();
    let reply = handle_message(&mut store, "*2\r\n$3\r\nget\r\n$1\r\nz\r\n".as_bytes());
    assert_eq!(reply, "$-1\r\n".as_bytes().to_vec());
}

#[test]
fn unknown_command_replies_error() {
    let mut store = Store::new();
    let reply = handle_message(&mut store, "*1\r\n$4\r\nnope\r\n".as_bytes());
    assert_eq!(reply, "-Unknown command\r\n".as_bytes().to_vec());
}

#[test]
fn malformed_input_replies_error() {
    let mut store = Store::new();
    let reply = handle_message(&mut store, "garbage".as_bytes());
    assert_eq!(reply, "-Unknown error\r\n".as_bytes().to_vec());
}
