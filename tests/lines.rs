use resp_server::lines::{char_to_type, get_cmd, get_string_after_cmd, has_cmd, parse_req, RESPType};

#[test]
fn char_to_type_returns_proper_type() {
    let type_array = char_to_type('*');
    assert_eq!(type_array, RESPType::Array);

    let type_string = char_to_type('+');
    assert_eq!(type_string, RESPType::String);

    let type_error = char_to_type('-');
    assert_eq!(type_error, RESPType::Error);

    let type_integer = char_to_type(':');
    assert_eq!(type_integer, RESPType::Integer);

    let type_bulk_string = char_to_type('$');
    assert_eq!(type_bulk_string, RESPType::BulkString);
}

#[test]
fn unknown_type_char_is_told_apart() {
    assert_eq!(char_to_type('?'), RESPType::Unknown);
    assert_ne!(char_to_type('?'), char_to_type('-'));
}

fn answer(input: &[u8]) -> Option<Vec<u8>> {
    parse_req(input)
}

#[test]
fn parse_req_answers_frames() {
    assert_eq!(answer(b"*1\r\n$4\r\nping\r\n"), Some(b"+PONG\r\n".to_vec()));
    assert_eq!(answer(b"*1\r\n$4\r\nPING\r\n"), Some(b"+PONG\r\n".to_vec()));
    assert_eq!(answer(b"*2\r\n$4\r\nECHO\r\n$3\r\nhey\r\n"), Some(b"$3\r\nhey\r\n".to_vec()));
    assert_eq!(answer(b"*2\r\n$4\r\necho\r\n$2\r\nhi\r\n"), Some(b"$2\r\nhi\r\n".to_vec()));
    assert_eq!(answer(b"*1\r\n$4\r\npi"), None);
    assert_eq!(answer(b""), None);
    assert_eq!(answer(b"*1\r\n$7\r\nbadcmd\r\n"), Some(b"-ERR protocol error\r\n".to_vec()));
    assert_eq!(answer(b"hello\r\n"), Some(b"-ERR protocol error\r\n".to_vec()));
    assert_eq!(answer(b"*x\r\n"), Some(b"-ERR protocol error\r\n".to_vec()));
    assert_eq!(answer(b"*-1\r\n"), Some(b"-ERR protocol error\r\n".to_vec()));
    assert_eq!(answer(b"+OK\r\n"), Some(b"-ERR invalid request\r\n".to_vec()));
    assert_eq!(answer(b"*0\r\n"), Some(b"-ERR invalid request\r\n".to_vec()));
    assert_eq!(answer(b"*1\r\n:5\r\n"), Some(b"-ERR invalid request\r\n".to_vec()));
    assert_eq!(answer(b"*1\r\n$3\r\nfoo\r\n"), Some(b"-ERR unknown command\r\n".to_vec()));
}

#[test]
fn remaining_string_edge_cases() {
    let none = get_string_after_cmd(String::from("*1\r\n$4\r\nping\r\n"), String::from("echo"));
    assert_eq!(none, Some(b"*0\r\n".to_vec()));
    let only = get_string_after_cmd(String::from("*1\r\n$2\r\n$2\r\n"), String::from("$2"));
    assert_eq!(only, Some(b"*0\r\n".to_vec()));
    let upper = get_string_after_cmd(String::from("*2\r\n$4\r\nECHO\r\n$2\r\nhi\r\n"), String::from("echo"));
    assert_eq!(upper, Some(b"*1\r\n$2\r\nhi\r\n".to_vec()));
    assert_eq!(get_string_after_cmd(String::from("+OK\r\n"), String::from("echo")), None);
    assert_eq!(get_cmd(String::from("*0\r\n")), None);
    assert!(!has_cmd(String::from("*1\r\n:5\r\n"), String::from("echo")));
}

#[test]
fn test_get_cmd_length() {
    let test: String = String::from("3");

    assert_eq!(3, test.parse::<i32>().unwrap());

    let test: String = String::from("*32");
    assert_eq!(32, test[1..].parse::<i32>().unwrap());
}

#[test]
fn test_get_remaining_string() {
    let test: String = String::from("*3\r\n$4\r\necho\r\n$3\r\nhey\r\n$2\r\nyo\r\n");

    let test3 = String::from_utf8(get_string_after_cmd(test, String::from("echo")).unwrap()).unwrap();
    assert_eq!(test3, "*2\r\n$3\r\nhey\r\n$2\r\nyo\r\n");
}

#[test]
fn test_has_cmd() {
    let test: String = String::from("*3\r\n$4\r\necho\r\n$3\r\nhey\r\n$2\r\nyo\r\n");

    assert_eq!(has_cmd(test.clone(), "echo".to_string()), true);
    assert_eq!(has_cmd(test.clone(), "kjhkh".to_string()), false);

    assert_eq!(String::from_utf8(get_cmd(test.clone()).unwrap()).unwrap(), "echo");
}
