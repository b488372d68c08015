use vstd::prelude::*;

use crate::runtime::ApiError;

verus! {

/// The value of a hexadecimal digit.
pub open spec fn hex_val(c: u8) -> Option<u8> {
    if 48 <= c <= 57 {
        Some((c - 48) as u8)
    } else if 97 <= c <= 102 {
        Some((c - 87) as u8)
    } else if 65 <= c <= 70 {
        Some((c - 55) as u8)
    } else {
        None
    }
}

/// The bytes that a hexadecimal string stands for, two digits each.
pub open spec fn spec_decode_hex(s: Seq<u8>) -> Option<Seq<u8>> {
    if s.len() % 2 == 0 && forall|i: int| 0 <= i < s.len() ==> #[trigger] hex_val(s[i]) is Some {
        Some(
            Seq::new(
                (s.len() / 2) as nat,
                |i: int| (hex_val(s[2 * i])->Some_0 * 16 + hex_val(s[2 * i + 1])->Some_0) as u8,
            ),
        )
    } else {
        None
    }
}

/// Relies on `base16::decode_slice`: it fails on an odd length or a byte that is
/// not a hexadecimal digit; else it writes the decoded bytes at the front of
/// the buffer and gives their count.
#[verifier::external_body]
fn decode_hex_32(hex: &[u8]) -> (r: Option<(usize, [u8; 32])>)
    requires
        hex@.len() <= 64,
    ensures
        match r {
            Some((n, buf)) => spec_decode_hex(hex@) == Some(buf@.subrange(0, n as int)) && n
                == hex@.len() / 2,
            None => spec_decode_hex(hex@) is None,
        },
{
    let mut buf = [0u8; 32];
    base16::decode_slice(hex, &mut buf).ok().map(|n| (n, buf))
}

/// A user code: the account to create exists already.
pub const ACCOUNT_ALREADY_EXISTS: u16 = 10;

/// A user code: the transfer to the new account failed.
pub const TRANSFER_FAILED: u16 = 11;

/// A user code: the account hash is not 64 hexadecimal digits.
pub const FAILED_TO_PARSE_ACCOUNT_HASH: u16 = 12;

/// Reads an account hash written as 64 hexadecimal digits.
pub fn parse_account_hash(hex: &[u8; 64]) -> (r: Result<[u8; 32], ApiError>)
    ensures
        match spec_decode_hex(hex@) {
            Some(b) => r is Ok && r->Ok_0@ == b,
            None => r == Err::<[u8; 32], ApiError>(ApiError::User(FAILED_TO_PARSE_ACCOUNT_HASH)),
        },
{
    match decode_hex_32(vstd::array::array_as_slice(hex)) {
        Some((n, buf)) => {
            if n != 32 {
                return Err(ApiError::User(FAILED_TO_PARSE_ACCOUNT_HASH));
            }
            assert(buf@.subrange(0, 32) =~= buf@);
            Ok(buf)
        },
        None => Err(ApiError::User(FAILED_TO_PARSE_ACCOUNT_HASH)),
    }
}

/// Where a transfer of motes went.
#[derive(PartialEq, Eq, Structural, Clone, Copy, Debug)]
pub enum TransferredTo {
    NewAccount,
    ExistingAccount,
}

/// What creating an account comes to, given how the transfer to it went: it
/// must have made a new account.
pub fn create_account_outcome(transfer: Result<TransferredTo, ApiError>) -> (r: Result<(), ApiError>)
    ensures
        transfer is Err ==> r == Err::<(), ApiError>(ApiError::User(TRANSFER_FAILED)),
        transfer == Ok::<TransferredTo, ApiError>(TransferredTo::NewAccount) ==> r is Ok,
        transfer == Ok::<TransferredTo, ApiError>(TransferredTo::ExistingAccount) ==> r == Err::<
            (),
            ApiError,
        >(ApiError::User(ACCOUNT_ALREADY_EXISTS)),
{
    match transfer {
        Err(_) => Err(ApiError::User(TRANSFER_FAILED)),
        Ok(TransferredTo::NewAccount) => Ok(()),
        Ok(TransferredTo::ExistingAccount) => Err(ApiError::User(ACCOUNT_ALREADY_EXISTS)),
    }
}

} // verus!
