//! Ed25519 authorizations: one per transaction input.

use vstd::prelude::*;
use crate::hashes::Hash256;
use crate::address::{Address, spec_address_of_pubkey};

verus! {

/// An input's authorization: the owner's public key and a signature over the
/// transaction's signing image (the transaction with authorizations cleared).
#[derive(Clone, Copy, Debug, PartialEq, Eq)]
pub struct Authorization {
    pub public_key: [u8; 32],
    pub signature: [u8; 64],
}

/// Whether `signature` is a valid Ed25519 signature by `public_key` over
/// `message`: the public key parses to a curve point, the signature parses,
/// and the verification equation holds. A function of the bytes alone; its
/// value is not stated here.
pub uninterp spec fn ed25519_valid(public_key: Seq<u8>, signature: Seq<u8>, message: Seq<u8>) -> bool;

impl Authorization {
    /// The address this authorization speaks for.
    pub fn get_address(&self) -> (r: Address)
        ensures
            r == self.spec_get_address(),
    {
        Address(crate::hashes::hash(self.public_key.as_slice()))
    }

    pub open spec fn spec_get_address(&self) -> Address {
        spec_address_of_pubkey(self.public_key)
    }

    /// Whether this authorization validly signs the 32-byte message.
    pub fn is_valid(&self, message: &Hash256) -> (r: bool)
        ensures
            r == ed25519_valid(self.public_key@, self.signature@, message@),
    {
        ed25519_verify(&self.public_key, &self.signature, message)
    }
}

/// Relies on `ed25519_dalek::PublicKey::from_bytes`, `ed25519::Signature::from_bytes`
/// and `ed25519_dalek::PublicKey::verify`: parsing and verification are
/// deterministic functions of the three byte strings; `from_bytes` and
/// `verify` return a `Result` and do not panic.
#[verifier::external_body]
fn ed25519_verify(public_key: &[u8; 32], signature: &[u8; 64], message: &Hash256) -> (r: bool)
    ensures
        r == ed25519_valid(public_key@, signature@, message@),
{
    let pk = match ed25519_dalek::PublicKey::from_bytes(public_key) {
        Ok(pk) => pk,
        Err(_) => return false,
    };
    let sig = match ed25519_dalek::ed25519::signature::Signature::from_bytes(signature) {
        Ok(sig) => sig,
        Err(_) => return false,
    };
    ed25519_dalek::Verifier::verify(&pk, message, &sig).is_ok()
}

/// Relies on `ed25519_dalek::verify_batch`: when every triple satisfies the
/// individual verification equation, each term of the batch equation is the
/// identity, so the batch equation holds for any choice of scalars and the
/// call returns `Ok`. Nothing is assumed of any other outcome: the batch
/// scalars come from a randomized, transcript-seeded generator, so no two
/// runs need agree on a rejection.
#[verifier::external_body]
fn ed25519_verify_batch(
    messages: &Vec<[u8; 32]>,
    signatures: &Vec<[u8; 64]>,
    public_keys: &Vec<[u8; 32]>,
) -> (r: bool)
    requires
        messages@.len() == signatures@.len(),
        signatures@.len() == public_keys@.len(),
    ensures
        (forall|i: int|
            0 <= i < messages@.len() ==> ed25519_valid(
                public_keys@[i]@,
                signatures@[i]@,
                messages@[i]@,
            )) ==> r,
{
    let msgs: Vec<&[u8]> = messages.iter().map(|m| m.as_slice()).collect();
    let sigs: Result<Vec<ed25519_dalek::Signature>, _> = signatures.iter().map(
        |s| ed25519_dalek::ed25519::signature::Signature::from_bytes(s),
    ).collect();
    let pks: Result<Vec<ed25519_dalek::PublicKey>, _> = public_keys.iter().map(
        |p| ed25519_dalek::PublicKey::from_bytes(p),
    ).collect();
    match (sigs, pks) {
        (Ok(sigs), Ok(pks)) => ed25519_dalek::verify_batch(&msgs, &sigs, &pks).is_ok(),
        _ => false,
    }
}

/// Every authorization of the transaction validly signs the transaction's
/// id, which is the digest of its signing image.
pub open spec fn spec_tx_sigs_valid(tx: crate::types::Transaction) -> bool {
    forall|i: int|
        0 <= i < tx.authorizations@.len() ==> ed25519_valid(
            (#[trigger] tx.authorizations@[i]).public_key@,
            tx.authorizations@[i].signature@,
            crate::codec::spec_txid(tx).0@,
        )
}

/// Every signature of every transaction is individually valid.
pub open spec fn spec_txs_sigs_valid(txs: Seq<crate::types::Transaction>) -> bool {
    forall|t: int| 0 <= t < txs.len() ==> spec_tx_sigs_valid(#[trigger] txs[t])
}

/// The number of authorizations of the transactions before `t`, and so
/// the flat position, counted across the transactions in body order, at
/// which transaction `t`'s signatures start.
pub open spec fn spec_auth_offset(txs: Seq<crate::types::Transaction>, t: int) -> int
    decreases t,
{
    if t <= 0 {
        0
    } else {
        spec_auth_offset(txs, t - 1) + txs[t - 1].authorizations@.len()
    }
}

/// Flat positions never go negative and grow with the transaction index.
pub proof fn lemma_auth_offset_mono(txs: Seq<crate::types::Transaction>, a: int, b: int)
    requires
        0 <= a <= b,
    ensures
        spec_auth_offset(txs, a) <= spec_auth_offset(txs, b),
        spec_auth_offset(txs, a) >= 0,
    decreases a + b,
{
    if a > 0 {
        lemma_auth_offset_mono(txs, a - 1, a - 1);
    }
    if a < b {
        lemma_auth_offset_mono(txs, a, b - 1);
    }
}

/// The signature standing at flat position `index` fails individual
/// verification.
pub open spec fn spec_invalid_sig_at(txs: Seq<crate::types::Transaction>, index: usize) -> bool {
    exists|t: int, i: int|
        0 <= t < txs.len() && 0 <= i < txs[t].authorizations@.len() && index == spec_auth_offset(
            txs,
            t,
        ) + i && !ed25519_valid(
            (#[trigger] txs[t].authorizations@[i]).public_key@,
            txs[t].authorizations@[i].signature@,
            crate::codec::spec_txid(txs[t]).0@,
        )
}

/// The triple `(m, s, p)` is drawn from some authorization of `txs`: `p`
/// and `s` are an authorization's key and signature, and `m` is the id of
/// the transaction that authorization belongs to.
pub open spec fn spec_triple_of(
    txs: Seq<crate::types::Transaction>,
    m: [u8; 32],
    s: [u8; 64],
    p: [u8; 32],
) -> bool {
    exists|a: int, b: int|
        0 <= a < txs.len() && 0 <= b < txs[a].authorizations@.len() && m
            == crate::codec::spec_txid(txs[a]).0 && s == (#[trigger] txs[a].authorizations@[b]).signature
            && p == txs[a].authorizations@[b].public_key
}

/// Checks the signatures of a sequence of transactions in one batched
/// verification pass; when the batch pass rejects, falls back to checking
/// each signature alone to name the failing position.
///
/// When every signature is individually valid the batch pass accepts, so
/// `Ok` is returned. An `InvalidSignature` error carries the flat position,
/// counted across the transactions in order, of a signature that fails
/// individual verification.
pub fn verify_signatures(transactions: &Vec<crate::types::Transaction>) -> (r: Result<
    (),
    crate::validator::Error,
>)
    ensures
        spec_txs_sigs_valid(transactions@) ==> r.is_ok(),
        match r {
            Ok(()) => true,
            Err(e) => !spec_txs_sigs_valid(transactions@) && (e matches
            crate::validator::Error::InvalidSignature { index } && spec_invalid_sig_at(
                transactions@,
                index,
            )),
        },
{
    let mut messages: Vec<[u8; 32]> = Vec::new();
    let mut signatures: Vec<[u8; 64]> = Vec::new();
    let mut public_keys: Vec<[u8; 32]> = Vec::new();
    let mut t: usize = 0;
    while t < transactions.len()
        invariant
            0 <= t <= transactions@.len(),
            messages@.len() == spec_auth_offset(transactions@, t as int),
            messages@.len() == signatures@.len(),
            signatures@.len() == public_keys@.len(),
            forall|k: int|
                0 <= k < messages@.len() ==> spec_triple_of(
                    transactions@,
                    #[trigger] messages@[k],
                    signatures@[k],
                    public_keys@[k],
                ),
        decreases transactions@.len() - t,
    {
        let tx = &transactions[t];
        let txid = tx.txid();
        let mut i: usize = 0;
        while i < tx.authorizations.len()
            invariant
                0 <= t < transactions@.len(),
                0 <= i <= tx.authorizations@.len(),
                tx == &transactions@[t as int],
                txid == crate::codec::spec_txid(*tx),
                messages@.len() == spec_auth_offset(transactions@, t as int) + i,
                messages@.len() == signatures@.len(),
                signatures@.len() == public_keys@.len(),
                forall|k: int|
                    0 <= k < messages@.len() ==> spec_triple_of(
                        transactions@,
                        #[trigger] messages@[k],
                        signatures@[k],
                        public_keys@[k],
                    ),
            decreases tx.authorizations@.len() - i,
        {
            let auth = &tx.authorizations[i];
            let ghost old_messages = messages@;
            let ghost old_signatures = signatures@;
            let ghost old_public_keys = public_keys@;
            messages.push(txid.0);
            signatures.push(auth.signature);
            public_keys.push(auth.public_key);
            proof {
                let n = old_messages.len() as int;
                assert(spec_triple_of(
                    transactions@,
                    messages@[n],
                    signatures@[n],
                    public_keys@[n],
                )) by {
                    let a = t as int;
                    let b = i as int;
                    assert(0 <= a < transactions@.len() && 0 <= b
                        < transactions@[a].authorizations@.len() && messages@[n]
                        == crate::codec::spec_txid(transactions@[a]).0 && signatures@[n]
                        == transactions@[a].authorizations@[b].signature && public_keys@[n]
                        == transactions@[a].authorizations@[b].public_key);
                }
                assert forall|k: int|
                    0 <= k < messages@.len() implies spec_triple_of(
                    transactions@,
                    #[trigger] messages@[k],
                    signatures@[k],
                    public_keys@[k],
                ) by {
                    if k < n {
                        assert(messages@[k] == old_messages[k]);
                        assert(signatures@[k] == old_signatures[k]);
                        assert(public_keys@[k] == old_public_keys[k]);
                    }
                }
            }
            i += 1;
        }
        t += 1;
    }
    proof {
        if spec_txs_sigs_valid(transactions@) {
            assert forall|k: int|
                0 <= k < messages@.len() implies ed25519_valid(
                public_keys@[k]@,
                signatures@[k]@,
                messages@[k]@,
            ) by {
                assert(spec_triple_of(
                    transactions@,
                    messages@[k],
                    signatures@[k],
                    public_keys@[k],
                ));
                let (a, b) = choose|a: int, b: int|
                    0 <= a < transactions@.len() && 0 <= b
                        < transactions@[a].authorizations@.len() && messages@[k]
                        == crate::codec::spec_txid(transactions@[a]).0 && signatures@[k]
                        == (#[trigger] transactions@[a].authorizations@[b]).signature
                        && public_keys@[k] == transactions@[a].authorizations@[b].public_key;
                assert(spec_tx_sigs_valid(transactions@[a]));
                assert(ed25519_valid(
                    transactions@[a].authorizations@[b].public_key@,
                    transactions@[a].authorizations@[b].signature@,
                    crate::codec::spec_txid(transactions@[a]).0@,
                ));
            }
        }
    }
    if ed25519_verify_batch(&messages, &signatures, &public_keys) {
        return Ok(());
    }
    // Debugging fallback: name the first flat position whose signature
    // fails individual verification. The position count stays below the
    // batch vectors' length, so it cannot overflow.
    let total = messages.len();
    let mut index: usize = 0;
    let mut t: usize = 0;
    while t < transactions.len()
        invariant
            0 <= t <= transactions@.len(),
            total == spec_auth_offset(transactions@, transactions@.len() as int),
            index == spec_auth_offset(transactions@, t as int),
            forall|a: int| 0 <= a < t ==> spec_tx_sigs_valid(#[trigger] transactions@[a]),
        decreases transactions@.len() - t,
    {
        let tx = &transactions[t];
        let txid = tx.txid();
        let mut i: usize = 0;
        while i < tx.authorizations.len()
            invariant
                0 <= t < transactions@.len(),
                0 <= i <= tx.authorizations@.len(),
                tx == &transactions@[t as int],
                txid == crate::codec::spec_txid(*tx),
                total == spec_auth_offset(transactions@, transactions@.len() as int),
                index == spec_auth_offset(transactions@, t as int) + i,
                forall|b: int|
                    0 <= b < i ==> ed25519_valid(
                        (#[trigger] tx.authorizations@[b]).public_key@,
                        tx.authorizations@[b].signature@,
                        crate::codec::spec_txid(*tx).0@,
                    ),
            decreases tx.authorizations@.len() - i,
        {
            if !tx.authorizations[i].is_valid(&txid.0) {
                proof {
                    assert(!spec_tx_sigs_valid(transactions@[t as int]));
                    assert(!spec_txs_sigs_valid(transactions@));
                    let ti = t as int;
                    let ii = i as int;
                    assert(0 <= ti < transactions@.len() && 0 <= ii
                        < transactions@[ti].authorizations@.len() && index == spec_auth_offset(
                        transactions@,
                        ti,
                    ) + ii && !ed25519_valid(
                        (#[trigger] transactions@[ti].authorizations@[ii]).public_key@,
                        transactions@[ti].authorizations@[ii].signature@,
                        crate::codec::spec_txid(transactions@[ti]).0@,
                    ));
                    assert(spec_invalid_sig_at(transactions@, index));
                }
                return Err(crate::validator::Error::InvalidSignature { index });
            }
            proof {
                lemma_auth_offset_mono(transactions@, t + 1, transactions@.len() as int);
            }
            index = index + 1;
            i += 1;
        }
        t += 1;
    }
    Ok(())
}

} // verus!
