//! Bearer token validation.
//!
//! Every call carries the token as the value of a metadata entry, and
//! the transport accepts only some characters there.  A bad token is a
//! configuration error, found here before any connection is opened.

use vstd::prelude::*;

verus! {

/// An error while opening the authenticated channel.
#[derive(Clone, Copy, Debug, PartialEq, Eq, Structural)]
pub enum ConnectionError {
    /// The token holds a character that cannot stand in metadata.
    InvalidToken,
    /// The server address does not parse as an endpoint URI.
    InvalidAddress,
    /// The transport handshake did not complete.
    HandshakeFailed,
}

/// A character accepted in the value of a metadata entry: tab, or any
/// character other than the remaining controls and delete.
pub open spec fn metadata_value_char_ok(c: char) -> bool {
    c == '\t' || (c as u32 >= 32 && c as u32 != 127)
}

/// Whether a whole string may stand as the value of a metadata entry.
pub open spec fn metadata_value_ok(s: Seq<char>) -> bool {
    forall|i: int| 0 <= i < s.len() ==> metadata_value_char_ok(#[trigger] s[i])
}

/// Relies on tonic's `MetadataValue::<Ascii>::try_from(&String)`: it
/// accepts exactly the strings whose characters are tab or anything
/// other than the remaining control characters and delete.
#[verifier::external_body]
fn tonic_accepts_token(token: &String) -> (r: bool)
    ensures
        r == metadata_value_ok(token@),
{
    tonic::metadata::MetadataValue::<tonic::metadata::Ascii>::try_from(token).is_ok()
}

/// Check the bearer token before any connection is opened: rejected
/// exactly when some character of it cannot stand in metadata.
pub fn validate_token(token: &String) -> (r: Result<(), ConnectionError>)
    ensures
        r is Ok <==> metadata_value_ok(token@),
        r is Err ==> r == Err::<(), ConnectionError>(ConnectionError::InvalidToken),
{
    if tonic_accepts_token(token) {
        Ok(())
    } else {
        Err(ConnectionError::InvalidToken)
    }
}

} // verus!
