//! Canonical byte encoding of the value model.
//!
//! Every content-addressed value is hashed over the bytes this module
//! produces. The encoding is deterministic: fixed field order, fixed-width
//! little-endian integers, one tag byte per enum variant, and a 64-bit
//! length prefix before every sequence. It is consensus-critical: a change
//! here forks the chain.

use vstd::prelude::*;
use crate::hashes::{Hash256, BlockHash, MerkleRoot, Txid, blake2b256_of, hash};
use crate::types::{OutPoint, Output, Content, Transaction, Body, Header};
use crate::authorization::Authorization;

verus! {

/// The four bytes of `v`, least significant first.
pub open spec fn spec_u32_le(v: u32) -> Seq<u8> {
    seq![v as u8, (v >> 8u32) as u8, (v >> 16u32) as u8, (v >> 24u32) as u8]
}

/// The eight bytes of `v`, least significant first.
pub open spec fn spec_u64_le(v: u64) -> Seq<u8> {
    seq![
        v as u8,
        (v >> 8u64) as u8,
        (v >> 16u64) as u8,
        (v >> 24u64) as u8,
        (v >> 32u64) as u8,
        (v >> 40u64) as u8,
        (v >> 48u64) as u8,
        (v >> 56u64) as u8,
    ]
}

/// One tag byte, then the identifying hash, then the output index.
pub open spec fn spec_encode_outpoint(op: OutPoint) -> Seq<u8> {
    match op {
        OutPoint::Regular { txid, vout } => seq![0u8] + txid.0@ + spec_u32_le(vout),
        OutPoint::Coinbase { merkle_root, vout } => seq![1u8] + merkle_root.0@ + spec_u32_le(vout),
        OutPoint::Deposit(p) => seq![2u8] + p.txid@ + spec_u32_le(p.vout),
    }
}

/// One tag byte, then the variant's fields in declaration order.
pub open spec fn spec_encode_content(c: Content) -> Seq<u8> {
    match c {
        Content::Custom(custom) => seq![0u8] + spec_u64_le(custom.value) + custom.data@,
        Content::Value(value) => seq![1u8] + spec_u64_le(value),
        Content::Withdrawal { value, main_fee, main_address } => seq![2u8] + spec_u64_le(value)
            + spec_u64_le(main_fee) + main_address.0@,
    }
}

pub open spec fn spec_encode_output(o: Output) -> Seq<u8> {
    o.address.0@ + spec_encode_content(o.content)
}

pub open spec fn spec_encode_authorization(a: Authorization) -> Seq<u8> {
    a.public_key@ + a.signature@
}

pub open spec fn spec_encode_outpoint_elems(s: Seq<OutPoint>) -> Seq<u8>
    decreases s.len(),
{
    if s.len() == 0 {
        Seq::empty()
    } else {
        spec_encode_outpoint_elems(s.drop_last()) + spec_encode_outpoint(s.last())
    }
}

/// Length-prefixed encoding of a sequence of outpoints.
pub open spec fn spec_encode_outpoints(s: Seq<OutPoint>) -> Seq<u8> {
    spec_u64_le(s.len() as u64) + spec_encode_outpoint_elems(s)
}

pub open spec fn spec_encode_output_elems(s: Seq<Output>) -> Seq<u8>
    decreases s.len(),
{
    if s.len() == 0 {
        Seq::empty()
    } else {
        spec_encode_output_elems(s.drop_last()) + spec_encode_output(s.last())
    }
}

/// Length-prefixed encoding of a sequence of outputs.
pub open spec fn spec_encode_outputs(s: Seq<Output>) -> Seq<u8> {
    spec_u64_le(s.len() as u64) + spec_encode_output_elems(s)
}

pub open spec fn spec_encode_authorization_elems(s: Seq<Authorization>) -> Seq<u8>
    decreases s.len(),
{
    if s.len() == 0 {
        Seq::empty()
    } else {
        spec_encode_authorization_elems(s.drop_last()) + spec_encode_authorization(s.last())
    }
}

/// Length-prefixed encoding of a sequence of authorizations.
pub open spec fn spec_encode_authorizations(s: Seq<Authorization>) -> Seq<u8> {
    spec_u64_le(s.len() as u64) + spec_encode_authorization_elems(s)
}

/// A transaction's fields in declaration order.
pub open spec fn spec_encode_transaction(tx: Transaction) -> Seq<u8> {
    spec_encode_outpoints(tx.inputs@) + spec_encode_authorizations(tx.authorizations@)
        + spec_encode_outputs(tx.outputs@)
}

pub open spec fn spec_encode_transaction_elems(s: Seq<Transaction>) -> Seq<u8>
    decreases s.len(),
{
    if s.len() == 0 {
        Seq::empty()
    } else {
        spec_encode_transaction_elems(s.drop_last()) + spec_encode_transaction(s.last())
    }
}

/// Length-prefixed encoding of a sequence of transactions.
pub open spec fn spec_encode_transactions(s: Seq<Transaction>) -> Seq<u8> {
    spec_u64_le(s.len() as u64) + spec_encode_transaction_elems(s)
}

/// The signing image: the transaction with its authorizations cleared.
/// Signatures cover this encoding, so an authorization never signs itself.
pub open spec fn spec_signing_image(tx: Transaction) -> Seq<u8> {
    spec_encode_outpoints(tx.inputs@) + spec_encode_authorizations(Seq::empty())
        + spec_encode_outputs(tx.outputs@)
}

/// A transaction's id: the digest of its signing image.
pub open spec fn spec_txid(tx: Transaction) -> Txid {
    Txid(blake2b256_of(spec_signing_image(tx)))
}

/// A body's commitment encoding: coinbase outputs, then transactions.
pub open spec fn spec_encode_body(b: Body) -> Seq<u8> {
    spec_encode_outputs(b.coinbase@) + spec_encode_transactions(b.transactions@)
}

/// A body's Merkle root: the digest of the body's canonical encoding.
/// This is a flat hash commitment, not a binary Merkle tree; the flat form
/// is a known limitation kept deliberately, since changing it would fork
/// the chain.
pub open spec fn spec_merkle_root(b: Body) -> MerkleRoot {
    MerkleRoot(blake2b256_of(spec_encode_body(b)))
}

/// A header's fields in declaration order.
pub open spec fn spec_encode_header(h: Header) -> Seq<u8> {
    h.prev_side_block_hash.0@ + h.prev_main_block_hash@ + h.merkle_root.0@
}

/// A block's hash: the digest of its header's canonical encoding.
pub open spec fn spec_block_hash(h: Header) -> BlockHash {
    BlockHash(blake2b256_of(spec_encode_header(h)))
}

/// Law: a transaction's id never depends on its authorizations. Two
/// transactions with the same inputs and outputs share their id, whatever
/// either carries as authorizations: the signing image clears them.
pub proof fn lemma_txid_ignores_authorizations(a: Transaction, b: Transaction)
    requires
        a.inputs == b.inputs,
        a.outputs == b.outputs,
    ensures
        spec_txid(a) == spec_txid(b),
{
}

/// Appends every byte of `src` to `dst`.
pub fn push_slice(dst: &mut Vec<u8>, src: &[u8])
    ensures
        final(dst)@ == old(dst)@ + src@,
{
    let mut i: usize = 0;
    assert(old(dst)@ + src@.subrange(0, 0) =~= old(dst)@);
    while i < src.len()
        invariant
            0 <= i <= src@.len(),
            dst@ == old(dst)@ + src@.subrange(0, i as int),
        decreases src@.len() - i,
    {
        dst.push(src[i]);
        assert(src@.subrange(0, i + 1) =~= src@.subrange(0, i as int).push(src@[i as int]));
        assert(dst@ =~= old(dst)@ + src@.subrange(0, i + 1));
        i += 1;
    }
    assert(src@.subrange(0, src@.len() as int) =~= src@);
}

pub fn push_u32_le(dst: &mut Vec<u8>, v: u32)
    ensures
        final(dst)@ == old(dst)@ + spec_u32_le(v),
{
    dst.push(#[verifier::truncate] (v as u8));
    dst.push(#[verifier::truncate] ((v >> 8u32) as u8));
    dst.push(#[verifier::truncate] ((v >> 16u32) as u8));
    dst.push(#[verifier::truncate] ((v >> 24u32) as u8));
    assert(dst@ =~= old(dst)@ + spec_u32_le(v));
}

pub fn push_u64_le(dst: &mut Vec<u8>, v: u64)
    ensures
        final(dst)@ == old(dst)@ + spec_u64_le(v),
{
    dst.push(#[verifier::truncate] (v as u8));
    dst.push(#[verifier::truncate] ((v >> 8u64) as u8));
    dst.push(#[verifier::truncate] ((v >> 16u64) as u8));
    dst.push(#[verifier::truncate] ((v >> 24u64) as u8));
    dst.push(#[verifier::truncate] ((v >> 32u64) as u8));
    dst.push(#[verifier::truncate] ((v >> 40u64) as u8));
    dst.push(#[verifier::truncate] ((v >> 48u64) as u8));
    dst.push(#[verifier::truncate] ((v >> 56u64) as u8));
    assert(dst@ =~= old(dst)@ + spec_u64_le(v));
}

pub fn encode_outpoint(dst: &mut Vec<u8>, op: &OutPoint)
    ensures
        final(dst)@ == old(dst)@ + spec_encode_outpoint(*op),
{
    match op {
        OutPoint::Regular { txid, vout } => {
            dst.push(0u8);
            push_slice(dst, txid.0.as_slice());
            push_u32_le(dst, *vout);
            assert(dst@ =~= old(dst)@ + spec_encode_outpoint(*op));
        },
        OutPoint::Coinbase { merkle_root, vout } => {
            dst.push(1u8);
            push_slice(dst, merkle_root.0.as_slice());
            push_u32_le(dst, *vout);
            assert(dst@ =~= old(dst)@ + spec_encode_outpoint(*op));
        },
        OutPoint::Deposit(p) => {
            dst.push(2u8);
            push_slice(dst, p.txid.as_slice());
            push_u32_le(dst, p.vout);
            assert(dst@ =~= old(dst)@ + spec_encode_outpoint(*op));
        },
    }
}

pub fn encode_content(dst: &mut Vec<u8>, c: &Content)
    ensures
        final(dst)@ == old(dst)@ + spec_encode_content(*c),
{
    match c {
        Content::Custom(custom) => {
            dst.push(0u8);
            push_u64_le(dst, custom.value);
            push_slice(dst, custom.data.as_slice());
            assert(dst@ =~= old(dst)@ + spec_encode_content(*c));
        },
        Content::Value(value) => {
            dst.push(1u8);
            push_u64_le(dst, *value);
            assert(dst@ =~= old(dst)@ + spec_encode_content(*c));
        },
        Content::Withdrawal { value, main_fee, main_address } => {
            dst.push(2u8);
            push_u64_le(dst, *value);
            push_u64_le(dst, *main_fee);
            push_slice(dst, main_address.0.as_slice());
            assert(dst@ =~= old(dst)@ + spec_encode_content(*c));
        },
    }
}

pub fn encode_output(dst: &mut Vec<u8>, o: &Output)
    ensures
        final(dst)@ == old(dst)@ + spec_encode_output(*o),
{
    push_slice(dst, o.address.0.as_slice());
    encode_content(dst, &o.content);
    assert(dst@ =~= old(dst)@ + spec_encode_output(*o));
}

pub fn encode_authorization(dst: &mut Vec<u8>, a: &Authorization)
    ensures
        final(dst)@ == old(dst)@ + spec_encode_authorization(*a),
{
    push_slice(dst, a.public_key.as_slice());
    push_slice(dst, a.signature.as_slice());
    assert(dst@ =~= old(dst)@ + spec_encode_authorization(*a));
}

proof fn lemma_encode_outpoint_elems_prefix(s: Seq<OutPoint>, i: int)
    requires
        0 <= i < s.len(),
    ensures
        spec_encode_outpoint_elems(s.subrange(0, i + 1)) == spec_encode_outpoint_elems(
            s.subrange(0, i),
        ) + spec_encode_outpoint(s[i]),
{
    let pre = s.subrange(0, i + 1);
    assert(pre.drop_last() =~= s.subrange(0, i));
    assert(pre.last() == s[i]);
}

pub fn encode_outpoints(dst: &mut Vec<u8>, v: &Vec<OutPoint>)
    ensures
        final(dst)@ == old(dst)@ + spec_encode_outpoints(v@),
{
    push_u64_le(dst, v.len() as u64);
    let ghost mid = dst@;
    let mut i: usize = 0;
    assert(spec_encode_outpoint_elems(v@.subrange(0, 0)) =~= Seq::<u8>::empty());
    assert(mid + spec_encode_outpoint_elems(v@.subrange(0, 0)) =~= mid);
    while i < v.len()
        invariant
            0 <= i <= v@.len(),
            dst@ == mid + spec_encode_outpoint_elems(v@.subrange(0, i as int)),
        decreases v@.len() - i,
    {
        encode_outpoint(dst, &v[i]);
        proof {
            lemma_encode_outpoint_elems_prefix(v@, i as int);
            assert(dst@ =~= mid + spec_encode_outpoint_elems(v@.subrange(0, i + 1)));
        }
        i += 1;
    }
    assert(v@.subrange(0, v@.len() as int) =~= v@);
    assert(dst@ =~= old(dst)@ + spec_encode_outpoints(v@));
}

proof fn lemma_encode_output_elems_prefix(s: Seq<Output>, i: int)
    requires
        0 <= i < s.len(),
    ensures
        spec_encode_output_elems(s.subrange(0, i + 1)) == spec_encode_output_elems(
            s.subrange(0, i),
        ) + spec_encode_output(s[i]),
{
    let pre = s.subrange(0, i + 1);
    assert(pre.drop_last() =~= s.subrange(0, i));
    assert(pre.last() == s[i]);
}

pub fn encode_outputs(dst: &mut Vec<u8>, v: &Vec<Output>)
    ensures
        final(dst)@ == old(dst)@ + spec_encode_outputs(v@),
{
    push_u64_le(dst, v.len() as u64);
    let ghost mid = dst@;
    let mut i: usize = 0;
    assert(spec_encode_output_elems(v@.subrange(0, 0)) =~= Seq::<u8>::empty());
    assert(mid + spec_encode_output_elems(v@.subrange(0, 0)) =~= mid);
    while i < v.len()
        invariant
            0 <= i <= v@.len(),
            dst@ == mid + spec_encode_output_elems(v@.subrange(0, i as int)),
        decreases v@.len() - i,
    {
        encode_output(dst, &v[i]);
        proof {
            lemma_encode_output_elems_prefix(v@, i as int);
            assert(dst@ =~= mid + spec_encode_output_elems(v@.subrange(0, i + 1)));
        }
        i += 1;
    }
    assert(v@.subrange(0, v@.len() as int) =~= v@);
    assert(dst@ =~= old(dst)@ + spec_encode_outputs(v@));
}

proof fn lemma_encode_authorization_elems_prefix(s: Seq<Authorization>, i: int)
    requires
        0 <= i < s.len(),
    ensures
        spec_encode_authorization_elems(s.subrange(0, i + 1)) == spec_encode_authorization_elems(
            s.subrange(0, i),
        ) + spec_encode_authorization(s[i]),
{
    let pre = s.subrange(0, i + 1);
    assert(pre.drop_last() =~= s.subrange(0, i));
    assert(pre.last() == s[i]);
}

pub fn encode_authorizations(dst: &mut Vec<u8>, v: &Vec<Authorization>)
    ensures
        final(dst)@ == old(dst)@ + spec_encode_authorizations(v@),
{
    push_u64_le(dst, v.len() as u64);
    let ghost mid = dst@;
    let mut i: usize = 0;
    assert(spec_encode_authorization_elems(v@.subrange(0, 0)) =~= Seq::<u8>::empty());
    assert(mid + spec_encode_authorization_elems(v@.subrange(0, 0)) =~= mid);
    while i < v.len()
        invariant
            0 <= i <= v@.len(),
            dst@ == mid + spec_encode_authorization_elems(v@.subrange(0, i as int)),
        decreases v@.len() - i,
    {
        encode_authorization(dst, &v[i]);
        proof {
            lemma_encode_authorization_elems_prefix(v@, i as int);
            assert(dst@ =~= mid + spec_encode_authorization_elems(v@.subrange(0, i + 1)));
        }
        i += 1;
    }
    assert(v@.subrange(0, v@.len() as int) =~= v@);
    assert(dst@ =~= old(dst)@ + spec_encode_authorizations(v@));
}

pub fn encode_transaction(dst: &mut Vec<u8>, tx: &Transaction)
    ensures
        final(dst)@ == old(dst)@ + spec_encode_transaction(*tx),
{
    encode_outpoints(dst, &tx.inputs);
    encode_authorizations(dst, &tx.authorizations);
    encode_outputs(dst, &tx.outputs);
    assert(dst@ =~= old(dst)@ + spec_encode_transaction(*tx));
}

proof fn lemma_encode_transaction_elems_prefix(s: Seq<Transaction>, i: int)
    requires
        0 <= i < s.len(),
    ensures
        spec_encode_transaction_elems(s.subrange(0, i + 1)) == spec_encode_transaction_elems(
            s.subrange(0, i),
        ) + spec_encode_transaction(s[i]),
{
    let pre = s.subrange(0, i + 1);
    assert(pre.drop_last() =~= s.subrange(0, i));
    assert(pre.last() == s[i]);
}

pub fn encode_transactions(dst: &mut Vec<u8>, v: &Vec<Transaction>)
    ensures
        final(dst)@ == old(dst)@ + spec_encode_transactions(v@),
{
    push_u64_le(dst, v.len() as u64);
    let ghost mid = dst@;
    let mut i: usize = 0;
    assert(spec_encode_transaction_elems(v@.subrange(0, 0)) =~= Seq::<u8>::empty());
    assert(mid + spec_encode_transaction_elems(v@.subrange(0, 0)) =~= mid);
    while i < v.len()
        invariant
            0 <= i <= v@.len(),
            dst@ == mid + spec_encode_transaction_elems(v@.subrange(0, i as int)),
        decreases v@.len() - i,
    {
        encode_transaction(dst, &v[i]);
        proof {
            lemma_encode_transaction_elems_prefix(v@, i as int);
            assert(dst@ =~= mid + spec_encode_transaction_elems(v@.subrange(0, i + 1)));
        }
        i += 1;
    }
    assert(v@.subrange(0, v@.len() as int) =~= v@);
    assert(dst@ =~= old(dst)@ + spec_encode_transactions(v@));
}

/// The id of a transaction: the digest of its signing image, which clears
/// the authorizations. Mutating the authorizations never changes the id.
pub fn compute_txid(tx: &Transaction) -> (r: Txid)
    ensures
        r == spec_txid(*tx),
{
    let mut buf: Vec<u8> = Vec::new();
    encode_outpoints(&mut buf, &tx.inputs);
    push_u64_le(&mut buf, 0u64);
    encode_outputs(&mut buf, &tx.outputs);
    proof {
        assert(spec_encode_authorization_elems(Seq::<Authorization>::empty())
            == Seq::<u8>::empty());
        assert(Seq::<Authorization>::empty().len() == 0);
        assert(buf@ =~= spec_signing_image(*tx));
    }
    Txid(hash(buf.as_slice()))
}

/// The body's commitment: the digest of its canonical encoding.
pub fn compute_merkle_root(b: &Body) -> (r: MerkleRoot)
    ensures
        r == spec_merkle_root(*b),
{
    let mut buf: Vec<u8> = Vec::new();
    encode_outputs(&mut buf, &b.coinbase);
    encode_transactions(&mut buf, &b.transactions);
    assert(buf@ =~= spec_encode_body(*b));
    MerkleRoot(hash(buf.as_slice()))
}

/// The block hash: the digest of the header's canonical encoding.
pub fn compute_block_hash(h: &Header) -> (r: BlockHash)
    ensures
        r == spec_block_hash(*h),
{
    let mut buf: Vec<u8> = Vec::new();
    push_slice(&mut buf, h.prev_side_block_hash.0.as_slice());
    push_slice(&mut buf, h.prev_main_block_hash.as_slice());
    push_slice(&mut buf, h.merkle_root.0.as_slice());
    assert(buf@ =~= spec_encode_header(*h));
    BlockHash(hash(buf.as_slice()))
}

} // verus!
