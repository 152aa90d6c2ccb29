use zappy_server::net::WELCOME;

#[test]
fn welcome_bytes_match_subject() {
    assert_eq!(&WELCOME, b"WELCOME\n");
    assert_eq!(std::str::from_utf8(&WELCOME).unwrap(), "WELCOME\n");
}
