//! Decoding of a stored validator set: a SCALE-encoded list of 32-byte accounts.

use vstd::prelude::*;
use crate::types::AccountId;
use parity_scale_codec::Decode;

verus! {

#[verifier::external_type_specification]
#[verifier::external_body]
pub struct ExCodecError(parity_scale_codec::Error);

/// Little-endian value of the two bytes at `at`.
pub open spec fn le16(b: Seq<u8>, at: int) -> int {
    b[at] as int + 256 * b[at + 1] as int
}

/// Little-endian value of the four bytes at `at`.
pub open spec fn le32(b: Seq<u8>, at: int) -> int {
    b[at] as int + 256 * b[at + 1] as int + 65536 * b[at + 2] as int + 16777216 * b[at + 3] as int
}

/// The compact-encoded `u32` at the start of `b` and the number of bytes it takes, where
/// it is well formed: each width holds only values that no narrower width could.
pub open spec fn compact_u32_prefix(b: Seq<u8>) -> Option<(int, int)> {
    if b.len() == 0 {
        None
    } else if b[0] as int % 4 == 0 {
        Some((b[0] as int / 4, 1))
    } else if b[0] as int % 4 == 1 {
        if b.len() < 2 || le16(b, 0) / 4 <= 63 {
            None
        } else {
            Some((le16(b, 0) / 4, 2int))
        }
    } else if b[0] as int % 4 == 2 {
        if b.len() < 4 || le32(b, 0) / 4 <= 16383 {
            None
        } else {
            Some((le32(b, 0) / 4, 4int))
        }
    } else if b[0] as int / 4 != 0 || b.len() < 5 || le32(b, 1) <= 1073741823 {
        None
    } else {
        Some((le32(b, 1), 5int))
    }
}

/// The bytes start with a well-formed length `n` followed by at least `n` accounts.
pub open spec fn holds_accounts(b: Seq<u8>) -> bool {
    compact_u32_prefix(b) matches Some((n, k)) && k + 32 * n <= b.len()
}

/// The accounts read from `b`: the `i`-th takes the 32 bytes after the length prefix
/// and the `i` accounts before it.
pub open spec fn accounts_read(b: Seq<u8>, v: Seq<AccountId>) -> bool {
    compact_u32_prefix(b) matches Some((n, k)) && v.len() == n && forall|i: int, j: int|
        0 <= i < n && 0 <= j < 32 ==> #[trigger] v[i][j] == b[k + 32 * i + j]
}

/// Relies on `parity_scale_codec::Decode` for `Vec<[u8; 32]>`: a compact `u32` length
/// (rejected where a narrower width would hold it), then that many 32-byte arrays; bytes
/// after them are left unread.
#[verifier::external_body]
fn decode_accounts(bytes: &Vec<u8>) -> (r: Result<Vec<AccountId>, parity_scale_codec::Error>)
    ensures
        r is Ok <==> holds_accounts(bytes@),
        r matches Ok(v) ==> accounts_read(bytes@, v@),
{
    Vec::<AccountId>::decode(&mut &bytes[..])
}

/// A stored validator set that could not be decoded.
#[derive(Clone, Copy, Debug, PartialEq, Eq)]
pub enum ValidatorSetError {
    Undecodable,
}

/// The validator set held by a storage entry: none where the entry is absent, else the
/// SCALE-decoded list of accounts.
pub fn session_validators_from_storage(raw: &Option<Vec<u8>>) -> (r: Result<
    Vec<AccountId>,
    ValidatorSetError,
>)
    ensures
        raw is None ==> (r matches Ok(v) && v@.len() == 0),
        raw matches Some(b) ==> (r is Ok <==> holds_accounts(b@)),
        raw matches Some(b) ==> r matches Ok(v) ==> accounts_read(b@, v@),
        r is Err ==> r == Err::<Vec<AccountId>, ValidatorSetError>(ValidatorSetError::Undecodable),
{
    match raw {
        None => Ok(Vec::new()),
        Some(bytes) => match decode_accounts(bytes) {
            Ok(v) => Ok(v),
            Err(_) => Err(ValidatorSetError::Undecodable),
        },
    }
}

} // verus!
