//! Sidechain addresses and opaque main-chain identifiers.

use vstd::prelude::*;
use crate::hashes::{Hash256, hash_eq, blake2b256_of};

verus! {

/// A sidechain address: the 32-byte digest of an Ed25519 public key.
#[derive(Clone, Copy, Debug, PartialEq, Eq)]
pub struct Address(pub Hash256);

impl Address {
    pub fn eq_addr(&self, other: &Address) -> (r: bool)
        ensures
            r == (*self == *other),
    {
        hash_eq(&self.0, &other.0)
    }
}

/// The address an Ed25519 public key owns: the BLAKE2b-256 digest of its
/// 32 bytes.
pub open spec fn spec_address_of_pubkey(public_key: [u8; 32]) -> Address {
    Address(blake2b256_of(public_key@))
}

/// An opaque fixed-width encoding of a main-chain address. The core never
/// reads it; it is carried through withdrawal outputs verbatim.
#[derive(Clone, Copy, Debug, PartialEq, Eq)]
pub struct MainAddress(pub [u8; 32]);

impl MainAddress {
    pub fn eq_addr(&self, other: &MainAddress) -> (r: bool)
        ensures
            r == (*self == *other),
    {
        hash_eq(&self.0, &other.0)
    }
}

/// The Base58Check rendering of a byte string, as ASCII bytes. A function
/// of the bytes alone; its value is not stated here.
pub uninterp spec fn base58check_of(data: Seq<u8>) -> Seq<u8>;

/// Relies on `bs58::encode` with `with_check`: the rendering depends on
/// the input bytes alone.
#[verifier::external_body]
fn base58check_bytes(data: &[u8]) -> (r: Vec<u8>)
    ensures
        r@ == base58check_of(data@),
{
    bs58::encode(data).with_check().into_vec()
}

/// The SHA-256 digest of a byte sequence. A function of the bytes alone;
/// its value is not stated here. This digest serves only the deposit
/// display checksum; content hashing uses BLAKE2b-256.
pub uninterp spec fn sha256_of(data: Seq<u8>) -> [u8; 32];

/// Relies on `bitcoin::hashes::sha256`: the digest depends on the input
/// bytes alone.
#[verifier::external_body]
fn sha256(data: &[u8]) -> (r: [u8; 32])
    ensures
        r == sha256_of(data@),
{
    <bitcoin::hashes::sha256::Hash as bitcoin::hashes::Hash>::to_byte_array(
        <bitcoin::hashes::sha256::Hash as bitcoin::hashes::Hash>::hash(data),
    )
}

/// The characters a byte string renders to. A function of the bytes
/// alone; its value is not stated here.
pub uninterp spec fn string_of_bytes(data: Seq<u8>) -> Seq<char>;

/// Relies on `String::from_utf8_lossy`: the result depends on the bytes
/// alone, and the call never fails.
#[verifier::external_body]
fn bytes_to_string(data: &Vec<u8>) -> (r: String)
    ensures
        r@ == string_of_bytes(data@),
{
    String::from_utf8_lossy(data).into_owned()
}

/// The ASCII decimal digits of `n`, most significant first.
pub open spec fn spec_decimal(n: u64) -> Seq<u8>
    decreases n,
{
    if n < 10 {
        seq![(n + 48) as u8]
    } else {
        spec_decimal((n / 10) as u64) + seq![(n % 10 + 48) as u8]
    }
}

/// Appends the decimal digits of `n`.
fn push_decimal(dst: &mut Vec<u8>, n: u64)
    ensures
        final(dst)@ == old(dst)@ + spec_decimal(n),
    decreases n,
{
    if n < 10 {
        dst.push((n as u8) + 48);
        assert(dst@ =~= old(dst)@ + spec_decimal(n));
    } else {
        push_decimal(dst, n / 10);
        dst.push(((n % 10) as u8) + 48);
        assert(dst@ =~= old(dst)@ + spec_decimal(n));
    }
}

/// The ASCII digit for a value below sixteen, lower case.
pub open spec fn spec_hex_digit(v: u8) -> u8 {
    if v < 10 {
        (v + 48) as u8
    } else {
        (v + 87) as u8
    }
}

/// The two lower-case hex digits of one byte, high nibble first.
pub open spec fn spec_hex_byte(v: u8) -> Seq<u8> {
    seq![spec_hex_digit((v / 16) as u8), spec_hex_digit((v % 16) as u8)]
}

fn push_hex_byte(dst: &mut Vec<u8>, v: u8)
    ensures
        final(dst)@ == old(dst)@ + spec_hex_byte(v),
{
    let hi = v >> 4u8;
    let lo = v & 15u8;
    assert((v >> 4u8) == v / 16 && (v & 15u8) == v % 16) by (bit_vector);
    assert((v >> 4u8) < 16 && (v & 15u8) < 16) by (bit_vector);
    if hi < 10 {
        dst.push(hi + 48);
    } else {
        dst.push(hi + 87);
    }
    if lo < 10 {
        dst.push(lo + 48);
    } else {
        dst.push(lo + 87);
    }
    assert(dst@ =~= old(dst)@ + spec_hex_byte(v));
}

/// The bare deposit prefix: `s<N>_<base58check>_` over the address bytes.
pub open spec fn spec_deposit_prefix(sidechain_number: u64, address: Address) -> Seq<u8> {
    seq![115u8] + spec_decimal(sidechain_number) + seq![95u8] + base58check_of(address.0@)
        + seq![95u8]
}

/// The deposit display form's bytes: the bare prefix, then its checksum —
/// the first six hex digits of the SHA-256 of the prefix.
pub open spec fn spec_deposit_string_bytes(sidechain_number: u64, address: Address) -> Seq<u8> {
    let prefix = spec_deposit_prefix(sidechain_number, address);
    let digest = sha256_of(prefix);
    prefix + spec_hex_byte(digest[0]) + spec_hex_byte(digest[1]) + spec_hex_byte(digest[2])
}

impl Address {
    /// The address as main-chain deposit UX shows it:
    /// `s<N>_<base58check>_<hex6>`, tagging the sidechain number onto the
    /// Base58Check form and closing with a six-digit checksum of the
    /// prefix.
    pub fn deposit_string(&self, sidechain_number: u64) -> (r: String)
        ensures
            r@ == string_of_bytes(spec_deposit_string_bytes(sidechain_number, *self)),
    {
        let mut buf: Vec<u8> = Vec::new();
        buf.push(115u8);
        push_decimal(&mut buf, sidechain_number);
        buf.push(95u8);
        let b58 = base58check_bytes(self.0.as_slice());
        crate::codec::push_slice(&mut buf, b58.as_slice());
        buf.push(95u8);
        assert(buf@ =~= spec_deposit_prefix(sidechain_number, *self));
        let digest = sha256(buf.as_slice());
        push_hex_byte(&mut buf, digest[0]);
        push_hex_byte(&mut buf, digest[1]);
        push_hex_byte(&mut buf, digest[2]);
        assert(buf@ =~= spec_deposit_string_bytes(sidechain_number, *self));
        bytes_to_string(&buf)
    }

    /// The plain Base58Check rendering of the address bytes.
    pub fn to_base58check(&self) -> (r: String)
        ensures
            r@ == string_of_bytes(base58check_of(self.0@)),
    {
        let b58 = base58check_bytes(self.0.as_slice());
        bytes_to_string(&b58)
    }
}

} // verus!
