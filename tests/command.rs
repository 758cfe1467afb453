use serial_session::command::normalize_command;

#[test]
fn plain_command_gets_one_carriage_return() {
    assert_eq!(normalize_command("PING"), b"PING\r".to_vec());
}

#[test]
fn trailing_terminators_are_replaced() {
    assert_eq!(normalize_command("PING\r\n"), b"PING\r".to_vec());
    assert_eq!(normalize_command("PING\n"), b"PING\r".to_vec());
    assert_eq!(normalize_command("PING\r"), b"PING\r".to_vec());
    assert_eq!(normalize_command("PING\n\r\n\r"), b"PING\r".to_vec());
}

#[test]
fn normalising_twice_is_normalising_once() {
    let once = normalize_command("AT+RST\n");
    let twice = normalize_command(std::str::from_utf8(&once).unwrap());
    assert_eq!(once, twice);
}

#[test]
fn inner_terminators_and_spaces_are_kept() {
    assert_eq!(normalize_command("A\nB "), b"A\nB \r".to_vec());
}

#[test]
fn empty_command_is_a_bare_carriage_return() {
    assert_eq!(normalize_command(""), b"\r".to_vec());
    assert_eq!(normalize_command("\r\n"), b"\r".to_vec());
}
