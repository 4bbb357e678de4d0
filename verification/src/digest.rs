//! Trusted wrappers over the bitcoin crate: digests, signet address
//! parsing, and the difficulty quotient. Each digest's result is a pure
//! function of the input bytes and is given a name here; the contracts of
//! the rest of the library speak of those names.

use vstd::prelude::*;

verus! {

/// The double-sha256 digest of a byte string.
pub uninterp spec fn sha256d_of(b: Seq<u8>) -> Seq<u8>;

/// The sha256 digest of a byte string.
pub uninterp spec fn sha256_of(b: Seq<u8>) -> Seq<u8>;

/// The hash160 (ripemd160 of sha256) digest of a byte string.
pub uninterp spec fn hash160_of(b: Seq<u8>) -> Seq<u8>;

/// The sha512/256 digest of a byte string.
pub uninterp spec fn sha512_256_of(b: Seq<u8>) -> Seq<u8>;

/// The signet locking script of an address string, or `None` when the
/// string is not a valid signet address.
pub uninterp spec fn spk_of_addr(s: Seq<char>) -> Option<Seq<u8>>;

/// Relies on bitcoin's sha256d::Hash::hash: a 32-byte digest of the
/// input bytes alone.
#[verifier::external_body]
pub(crate) fn sha256d(b: &Vec<u8>) -> (r: Vec<u8>)
    ensures
        r@ == sha256d_of(b@),
        r@.len() == 32,
{
    let h = <bitcoin::hashes::sha256d::Hash as bitcoin::hashes::Hash>::hash(b.as_slice());
    <bitcoin::hashes::sha256d::Hash as bitcoin::hashes::Hash>::to_byte_array(h).to_vec()
}

/// Relies on bitcoin's sha256::Hash::hash: a 32-byte digest of the
/// input bytes alone.
#[verifier::external_body]
pub(crate) fn sha256(b: &Vec<u8>) -> (r: Vec<u8>)
    ensures
        r@ == sha256_of(b@),
        r@.len() == 32,
{
    let h = <bitcoin::hashes::sha256::Hash as bitcoin::hashes::Hash>::hash(b.as_slice());
    <bitcoin::hashes::sha256::Hash as bitcoin::hashes::Hash>::to_byte_array(h).to_vec()
}

/// Relies on bitcoin's hash160::Hash::hash: a 20-byte digest of the
/// input bytes alone.
#[verifier::external_body]
pub(crate) fn hash160(b: &Vec<u8>) -> (r: Vec<u8>)
    ensures
        r@ == hash160_of(b@),
        r@.len() == 20,
{
    let h = <bitcoin::hashes::hash160::Hash as bitcoin::hashes::Hash>::hash(b.as_slice());
    <bitcoin::hashes::hash160::Hash as bitcoin::hashes::Hash>::to_byte_array(h).to_vec()
}

/// Relies on bitcoin's sha512_256::Hash::hash: a 32-byte digest of the
/// input bytes alone.
#[verifier::external_body]
pub(crate) fn sha512_256(b: &Vec<u8>) -> (r: Vec<u8>)
    ensures
        r@ == sha512_256_of(b@),
        r@.len() == 32,
{
    let h = <bitcoin::hashes::sha512_256::Hash as bitcoin::hashes::Hash>::hash(b.as_slice());
    <bitcoin::hashes::sha512_256::Hash as bitcoin::hashes::Hash>::to_byte_array(h).to_vec()
}

/// Relies on bitcoin's address parsing (Address::from_str followed by
/// require_network and script_pubkey): the locking script the address
/// stands for on signet, or `None` when the string does not parse.
#[verifier::external_body]
pub(crate) fn parse_address(s: &str) -> (r: Option<Vec<u8>>)
    ensures
        r is Some <==> spk_of_addr(s@) is Some,
        r matches Some(v) ==> spk_of_addr(s@) == Some(v@),
{
    let unchecked = match s.parse::<bitcoin::Address<bitcoin::address::NetworkUnchecked>>() {
        Ok(a) => a,
        Err(_) => {
            return None;
        },
    };
    match unchecked.require_network(bitcoin::Network::Signet) {
        Ok(a) => Some(a.script_pubkey().to_bytes()),
        Err(_) => None,
    }
}

/// The target that a compact `bits` field encodes: a 24-bit mantissa
/// scaled by a byte-wise exponent, zero when the sign bit of the
/// mantissa is set.
pub open spec fn target_of_bits(bits: u32) -> int {
    let e = bits >> 24;
    let m0 = bits & 0xFFFFFF;
    let mant: int = if e <= 3 {
        (m0 >> ((8 * (3 - e)) as u32)) as int
    } else {
        m0 as int
    };
    let sh: nat = if e <= 3 {
        0
    } else {
        (8 * (e - 3)) as nat
    };
    if mant > 0x7FFFFF {
        0
    } else {
        mant * (vstd::arithmetic::power2::pow2(sh) as int)
    }
}

/// Signet's maximum attainable target.
pub open spec fn signet_max_target() -> int {
    0x0377ae00 * (vstd::arithmetic::power2::pow2(208) as int)
}

/// The difficulty quotient for a compact target: signet's maximum
/// attainable target divided by the encoded target, saturated to u128
/// and truncated to 64 bits.
pub open spec fn difficulty_of_bits_spec(bits: u32) -> u64 {
    let q = signet_max_target() / target_of_bits(bits);
    let s: int = if q > u128::MAX {
        u128::MAX as int
    } else {
        q
    };
    (s % 0x1_0000_0000_0000_0000) as u64
}

/// Relies on bitcoin's Target::from_compact and Target::difficulty:
/// the quotient of signet's maximum attainable target by the target
/// `bits` encodes, saturated to u128; truncated here to u64.
#[verifier::external_body]
pub(crate) fn difficulty_of_bits(bits: u32) -> (r: u64)
    requires
        target_of_bits(bits) != 0,
        bits >> 24 <= 32,
    ensures
        r == difficulty_of_bits_spec(bits),
{
    let target = bitcoin::pow::Target::from_compact(bitcoin::pow::CompactTarget::from_consensus(
        bits,
    ));
    target.difficulty(bitcoin::Network::Signet) as u64
}

} // verus!
