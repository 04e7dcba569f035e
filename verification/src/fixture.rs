//! Tiny sample functions used by the test suite as search targets.

use vstd::prelude::*;
use vstd::string::*;
use crate::text::str_eq;

verus! {

/// Spec-level checksum: a left fold over the UTF-8 bytes with wrapping
/// multiply-by-31 accumulation.
pub open spec fn checksum_spec(bytes: Seq<u8>) -> u64
    decreases bytes.len(),
{
    if bytes.len() == 0 {
        0u64
    } else {
        vstd::wrapping::u64_specs::wrapping_add(
            vstd::wrapping::u64_specs::wrapping_mul(checksum_spec(bytes.drop_last()), 31u64),
            bytes.last() as u64,
        )
    }
}

/// Returns a token exactly for the one accepted credential pair.
pub fn login_user(username: &str, password: &str) -> (r: Option<String>)
    ensures
        r is Some <==> (username@ == "admin"@ && password@ == "swe"@),
        r matches Some(t) ==> t@ == "token-admin"@,
{
    if str_eq(username, "admin") && str_eq(password, "swe") {
        Some(String::from_str("token-admin"))
    } else {
        None
    }
}

/// Computes the wrapping polynomial checksum of the input's UTF-8 bytes.
pub fn compute_checksum(input: &str) -> (r: u64)
    ensures
        r == checksum_spec(input.spec_bytes()),
{
    let bytes = input.as_bytes();
    let mut acc: u64 = 0;
    let mut i: usize = 0;
    while i < bytes.len()
        invariant
            bytes@ == input.spec_bytes(),
            i <= bytes@.len(),
            acc == checksum_spec(bytes@.take(i as int)),
        decreases bytes@.len() - i,
    {
        acc = acc.wrapping_mul(31).wrapping_add(bytes[i] as u64);
        proof {
            assert(bytes@.take(i + 1 as int).drop_last() =~= bytes@.take(i as int));
            assert(bytes@.take(i + 1 as int).last() == bytes@[i as int]);
        }
        i += 1;
    }
    proof {
        assert(bytes@.take(bytes@.len() as int) =~= bytes@);
    }
    acc
}

} // verus!
