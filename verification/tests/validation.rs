//! Unit tests for the pure validator, the canonical codec and the
//! cryptographic boundary.

use blake2::Digest;
use ed25519_dalek::Signer;
use sidechain_ledger::address::{Address, MainAddress};
use sidechain_ledger::authorization::{verify_signatures, Authorization};
use sidechain_ledger::collections::AssocMap;
use sidechain_ledger::hashes::hash;
use sidechain_ledger::traits::{validate_transaction_with, CustomValidator, UtxoMap};
use sidechain_ledger::types::{Body, Content, CustomContent, GetValue, MainOutPoint, OutPoint, Output, Transaction};
use sidechain_ledger::validator::{validate_body, validate_transaction, Error};

fn keypair(seed: u8) -> ed25519_dalek::Keypair {
    let secret = ed25519_dalek::SecretKey::from_bytes(&[seed; 32]).unwrap();
    let public = ed25519_dalek::PublicKey::from(&secret);
    ed25519_dalek::Keypair { secret, public }
}

fn address_of(kp: &ed25519_dalek::Keypair) -> Address {
    Address(hash(&kp.public.to_bytes()))
}

fn value_output(address: Address, value: u64) -> Output {
    Output {
        address,
        content: Content::Value(value),
    }
}

fn dummy_auth(seed: u8) -> Authorization {
    Authorization {
        public_key: [seed; 32],
        signature: [0u8; 64],
    }
}

fn outpoint(byte: u8, vout: u32) -> OutPoint {
    OutPoint::Deposit(MainOutPoint {
        txid: [byte; 32],
        vout,
    })
}

#[test]
fn content_hash_is_blake2b_256() {
    let data = b"sidechain".to_vec();
    let mut hasher = blake2::Blake2b::<digest::consts::U32>::new();
    hasher.update(&data);
    let expected: [u8; 32] = hasher.finalize().into();
    assert_eq!(hash(&data), expected);
    assert_ne!(hash(&data), hash(b"mainchain"));
}

#[test]
fn txid_ignores_authorizations() {
    let kp = keypair(1);
    let a = address_of(&kp);
    let bare = Transaction {
        inputs: vec![outpoint(0, 1)],
        authorizations: vec![],
        outputs: vec![value_output(a, 5)],
    };
    let mut signed = bare.clone();
    let auth = Authorization {
        public_key: kp.public.to_bytes(),
        signature: kp.sign(&bare.txid().0).to_bytes(),
    };
    signed.authorizations = vec![auth];
    assert_eq!(bare.txid(), signed.txid());

    // The id does depend on the inputs and outputs.
    let mut other = bare.clone();
    other.outputs = vec![value_output(a, 6)];
    assert_ne!(bare.txid(), other.txid());
}

#[test]
fn merkle_root_commits_to_the_body() {
    let kp = keypair(1);
    let a = address_of(&kp);
    let body1 = Body::new(vec![], vec![value_output(a, 1)]);
    let body2 = Body::new(vec![], vec![value_output(a, 1)]);
    let body3 = Body::new(vec![], vec![value_output(a, 2)]);
    assert_eq!(body1.compute_merkle_root(), body2.compute_merkle_root());
    assert_ne!(body1.compute_merkle_root(), body3.compute_merkle_root());
}

#[test]
fn fee_is_value_in_minus_value_out() {
    let auth = dummy_auth(7);
    let owner = auth.get_address();
    let spent = vec![value_output(owner, 40), value_output(owner, 60)];
    let tx = Transaction {
        inputs: vec![outpoint(0, 0), outpoint(0, 1)],
        authorizations: vec![auth, auth],
        outputs: vec![value_output(owner, 30), value_output(owner, 63)],
    };
    assert_eq!(validate_transaction(&spent, &tx), Ok(7));
}

#[test]
fn output_sum_overflow_is_rejected_not_wrapped() {
    let auth = dummy_auth(7);
    let owner = auth.get_address();
    let spent = vec![value_output(owner, u64::MAX)];
    let tx = Transaction {
        inputs: vec![outpoint(0, 0)],
        authorizations: vec![auth],
        outputs: vec![value_output(owner, u64::MAX), value_output(owner, 1)],
    };
    assert_eq!(validate_transaction(&spent, &tx), Err(Error::FeeOverflow));
}

#[test]
fn input_sum_overflow_is_rejected() {
    let auth = dummy_auth(7);
    let owner = auth.get_address();
    let spent = vec![
        value_output(owner, u64::MAX),
        value_output(owner, u64::MAX),
    ];
    let tx = Transaction {
        inputs: vec![outpoint(0, 0), outpoint(0, 1)],
        authorizations: vec![auth, auth],
        outputs: vec![],
    };
    assert_eq!(validate_transaction(&spent, &tx), Err(Error::FeeOverflow));
}

#[test]
fn body_fees_accumulate_and_coinbase_is_capped() {
    let auth = dummy_auth(7);
    let owner = auth.get_address();
    let tx1 = Transaction {
        inputs: vec![outpoint(0, 0)],
        authorizations: vec![auth],
        outputs: vec![value_output(owner, 8)],
    };
    let tx2 = Transaction {
        inputs: vec![outpoint(0, 1)],
        authorizations: vec![auth],
        outputs: vec![value_output(owner, 5)],
    };
    let spent = vec![vec![value_output(owner, 10)], vec![value_output(owner, 10)]];
    // Fees: 2 + 5 = 7; a coinbase of 7 captures them exactly.
    let body = Body::new(vec![tx1.clone(), tx2.clone()], vec![value_output(owner, 7)]);
    assert_eq!(validate_body(&spent, &body), Ok(7));
    // A coinbase of 8 overpays.
    let body = Body::new(vec![tx1, tx2], vec![value_output(owner, 8)]);
    assert_eq!(
        validate_body(&spent, &body),
        Err(Error::CoinbaseExceedsFees {
            coinbase_value: 8,
            fees: 7
        })
    );
}

#[test]
fn batch_and_individual_verification_agree() {
    let kps: Vec<ed25519_dalek::Keypair> = (1..4).map(keypair).collect();
    let mut txs = Vec::new();
    for kp in &kps {
        let a = address_of(kp);
        let mut tx = Transaction {
            inputs: vec![outpoint(1, 0)],
            authorizations: vec![],
            outputs: vec![value_output(a, 1)],
        };
        let txid = tx.txid();
        let auth = Authorization {
            public_key: kp.public.to_bytes(),
            signature: kp.sign(&txid.0).to_bytes(),
        };
        tx.authorizations = vec![auth];
        // Each signature is individually valid.
        assert!(tx.authorizations[0].is_valid(&txid.0));
        txs.push(tx);
    }
    // All individually valid, so the batch accepts.
    assert!(verify_signatures(&txs).is_ok());

    // One corrupted signature: its individual check fails, and so does
    // the batch, naming the flat position.
    txs[1].authorizations[0].signature[0] ^= 0x01;
    let txid1 = txs[1].txid();
    assert!(!txs[1].authorizations[0].is_valid(&txid1.0));
    assert_eq!(
        verify_signatures(&txs),
        Err(Error::InvalidSignature { index: 1 })
    );
}

#[test]
fn authorization_address_is_pubkey_digest() {
    let kp = keypair(5);
    let auth = Authorization {
        public_key: kp.public.to_bytes(),
        signature: [0u8; 64],
    };
    assert_eq!(auth.get_address(), Address(hash(&kp.public.to_bytes())));
}

#[test]
fn content_kinds_and_values() {
    let custom = Content::Custom(CustomContent {
        value: 3,
        data: [1u8; 32],
    });
    let regular = Content::Value(4);
    let withdrawal = Content::Withdrawal {
        value: 5,
        main_fee: 1,
        main_address: MainAddress([2u8; 32]),
    };
    assert!(custom.is_custom() && !custom.is_regular() && !custom.is_withdrawal());
    assert!(regular.is_regular() && !regular.is_custom() && !regular.is_withdrawal());
    assert!(withdrawal.is_withdrawal() && !withdrawal.is_custom() && !withdrawal.is_regular());
    assert_eq!(custom.get_value(), 3);
    assert_eq!(regular.get_value(), 4);
    assert_eq!(withdrawal.get_value(), 5);
}

#[test]
fn coinbase_value_reports_overflow() {
    let owner = dummy_auth(7).get_address();
    let ok = Body::new(vec![], vec![value_output(owner, 2), value_output(owner, 3)]);
    assert_eq!(ok.get_coinbase_value(), Some(5));
    let over = Body::new(
        vec![],
        vec![value_output(owner, u64::MAX), value_output(owner, 1)],
    );
    assert_eq!(over.get_coinbase_value(), None);
}

#[test]
fn txid_as_slice_exposes_the_digest() {
    let tx = Transaction {
        inputs: vec![],
        authorizations: vec![],
        outputs: vec![],
    };
    let txid = tx.txid();
    assert_eq!(txid.as_slice(), &txid.0[..]);
    assert_eq!(txid.as_slice().len(), 32);
}

#[test]
fn utxo_map_lookups() {
    let owner = dummy_auth(7).get_address();
    let mut table: AssocMap<OutPoint, Output> = AssocMap::new();
    table.insert(outpoint(1, 0), value_output(owner, 10));
    table.insert(outpoint(2, 0), value_output(owner, 20));

    assert_eq!(
        UtxoMap::get_utxo(&table, &outpoint(1, 0)),
        Some(value_output(owner, 10))
    );
    assert_eq!(UtxoMap::get_utxo(&table, &outpoint(3, 0)), None);
    assert!(!UtxoMap::is_spent(&table, &outpoint(2, 0)));
    assert!(UtxoMap::is_spent(&table, &outpoint(3, 0)));
    assert_eq!(
        UtxoMap::get_utxos(&table, &vec![outpoint(2, 0), outpoint(1, 0)]),
        Some(vec![value_output(owner, 20), value_output(owner, 10)])
    );
    assert_eq!(
        UtxoMap::get_utxos(&table, &vec![outpoint(1, 0), outpoint(3, 0)]),
        None
    );
    assert!(!UtxoMap::any_spent(
        &table,
        &vec![outpoint(1, 0), outpoint(2, 0)]
    ));
    assert!(UtxoMap::any_spent(
        &table,
        &vec![outpoint(1, 0), outpoint(3, 0)]
    ));
}

struct RejectBigOutputs;

impl CustomValidator for RejectBigOutputs {
    fn custom_validate_transaction(
        &self,
        _spent_utxos: &Vec<Output>,
        transaction: &Transaction,
    ) -> Result<(), String> {
        for output in &transaction.outputs {
            if output.get_value() > 50 {
                return Err(String::from("output too large"));
            }
        }
        Ok(())
    }
}

#[test]
fn custom_rule_runs_before_regular_validation() {
    let auth = dummy_auth(7);
    let owner = auth.get_address();
    let spent = vec![value_output(owner, 100)];
    let big = Transaction {
        inputs: vec![outpoint(0, 0)],
        authorizations: vec![auth],
        outputs: vec![value_output(owner, 60)],
    };
    assert_eq!(
        validate_transaction_with(&RejectBigOutputs, &spent, &big),
        Err(Error::CustomRule {
            message: String::from("output too large")
        })
    );
    let small = Transaction {
        inputs: vec![outpoint(0, 0)],
        authorizations: vec![auth],
        outputs: vec![value_output(owner, 40)],
    };
    assert_eq!(
        validate_transaction_with(&RejectBigOutputs, &spent, &small),
        Ok(60)
    );
}

#[test]
fn deposit_string_form_and_checksum() {
    let address = Address([3u8; 32]);
    let rendered = address.deposit_string(2);

    let b58 = bs58::encode(&address.0).with_check().into_string();
    let prefix = format!("s2_{}_", b58);
    let digest = <bitcoin::hashes::sha256::Hash as bitcoin::hashes::Hash>::hash(prefix.as_bytes());
    let digest_bytes: [u8; 32] =
        <bitcoin::hashes::sha256::Hash as bitcoin::hashes::Hash>::to_byte_array(digest);
    let checksum = hex::encode(&digest_bytes[..3]);
    assert_eq!(rendered, format!("{}{}", prefix, checksum));

    assert_eq!(address.to_base58check(), b58);

    // A different sidechain number changes the prefix and the checksum.
    assert_ne!(address.deposit_string(31), rendered);
}

#[test]
fn deposit_string_decimal_edges() {
    let address = Address([0u8; 32]);
    let zero = address.deposit_string(0);
    assert!(zero.starts_with("s0_"));
    let large = address.deposit_string(18_446_744_073_709_551_615);
    assert!(large.starts_with("s18446744073709551615_"));
    // Bare prefix, then exactly six hex digits.
    let b58 = bs58::encode(&address.0).with_check().into_string();
    assert_eq!(zero.len(), "s0__".len() + b58.len() + 6);
}

#[test]
fn assoc_map_insert_overwrites_and_remove_deletes() {
    let owner = dummy_auth(7).get_address();
    let mut table: AssocMap<OutPoint, Output> = AssocMap::new();
    table.insert(outpoint(1, 0), value_output(owner, 10));
    table.insert(outpoint(1, 0), value_output(owner, 11));
    assert_eq!(table.get(&outpoint(1, 0)), Some(&value_output(owner, 11)));
    assert!(table.contains_key(&outpoint(1, 0)));
    table.remove(&outpoint(1, 0));
    assert_eq!(table.get(&outpoint(1, 0)), None);
    // Removing an absent key is a no-op.
    table.remove(&outpoint(1, 0));
    assert!(!table.contains_key(&outpoint(1, 0)));
}
