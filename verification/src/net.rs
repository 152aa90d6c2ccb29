//! Protocol constants of the connection loop.

use vstd::prelude::*;

verus! {

/// Exact welcome line from the subject handshake table (`WELCOME\n`), as bytes.
pub const WELCOME: [u8; 8] = [87, 69, 76, 67, 79, 77, 69, 10];

} // verus!
