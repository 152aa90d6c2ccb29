use std::io::{Error as IoError, ErrorKind};

use zappy_server::harden::format_serve_error;

#[test]
fn addr_in_use_message_matches_audit() {
    let err = IoError::from(ErrorKind::AddrInUse);
    assert_eq!(format_serve_error(&err), "ERROR : Address already in use");
}

#[test]
fn other_errors_keep_server_prefix() {
    let err = IoError::new(ErrorKind::PermissionDenied, "denied");
    let msg = format_serve_error(&err);
    assert!(msg.starts_with("server: "), "{msg}");
}
