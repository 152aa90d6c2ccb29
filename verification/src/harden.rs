//! Hardening helpers: the message printed when serving fails.
//!
//! Bind conflicts print the fixed line `ERROR : Address already in use`.

use std::io::{Error as IoError, ErrorKind};

use vstd::prelude::*;

use crate::text::{push_str, to_owned_string};

verus! {

/// `std::io::Error`, carried as an opaque value.
#[verifier::external_type_specification]
#[verifier::external_body]
pub struct ExIoError(IoError);

/// Whether `io::Error::kind` gives `ErrorKind::AddrInUse` for `err`.
pub uninterp spec fn kind_is_addr_in_use(err: IoError) -> bool;

/// `io::Error::kind`, told apart as `AddrInUse` or another kind.
#[verifier::external_body]
fn is_addr_in_use(err: &IoError) -> (b: bool)
    ensures
        b == kind_is_addr_in_use(*err),
{
    err.kind() == ErrorKind::AddrInUse
}

/// `err.to_string()`: the error's own description. Nothing is stated of the
/// text: for errors of the operating system it comes from the system's
/// message table.
#[verifier::external_body]
fn describe(err: &IoError) -> String {
    err.to_string()
}

/// Message for an address conflict.
pub open spec fn addr_in_use_text() -> Seq<char> {
    "ERROR : Address already in use"@
}

/// The stderr line for a serve failure: the fixed address-conflict message,
/// or `server: ` followed by the error's description.
pub fn serve_error_text(addr_in_use: bool, detail: &str) -> (s: String)
    ensures
        s@ == (if addr_in_use {
            addr_in_use_text()
        } else {
            "server: "@ + detail@
        }),
{
    if addr_in_use {
        to_owned_string("ERROR : Address already in use")
    } else {
        let mut s = to_owned_string("server: ");
        push_str(&mut s, detail);
        s
    }
}

/// Format a listen/serve failure for stderr.
pub fn format_serve_error(err: &IoError) -> (s: String)
    ensures
        kind_is_addr_in_use(*err) ==> s@ == addr_in_use_text(),
        !kind_is_addr_in_use(*err) ==> exists|d: Seq<char>| s@ == "server: "@ + d,
{
    if is_addr_in_use(err) {
        serve_error_text(true, "")
    } else {
        let d = describe(err);
        serve_error_text(false, d.as_str())
    }
}

} // verus!
