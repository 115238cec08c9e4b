//! End-to-end scenarios against the ledger state machine.

use std::collections::{HashMap, HashSet};

use ed25519_dalek::Signer;
use sidechain_ledger::address::{Address, MainAddress};
use sidechain_ledger::authorization::Authorization;
use sidechain_ledger::hashes::hash;
use sidechain_ledger::state_machine::{StateMachine, WithdrawalOutput};
use sidechain_ledger::types::{Body, Content, Header, MainOutPoint, OutPoint, Output, Transaction};
use sidechain_ledger::validator::Error;

fn keypair(seed: u8) -> ed25519_dalek::Keypair {
    let secret = ed25519_dalek::SecretKey::from_bytes(&[seed; 32]).unwrap();
    let public = ed25519_dalek::PublicKey::from(&secret);
    ed25519_dalek::Keypair { secret, public }
}

fn address_of(kp: &ed25519_dalek::Keypair) -> Address {
    Address(hash(&kp.public.to_bytes()))
}

fn value_output(address: Address, value: u64) -> Output {
    Output {
        address,
        content: Content::Value(value),
    }
}

fn authorize(kp: &ed25519_dalek::Keypair, tx: &Transaction) -> Authorization {
    let txid = tx.txid();
    Authorization {
        public_key: kp.public.to_bytes(),
        signature: kp.sign(&txid.0).to_bytes(),
    }
}

fn deposit_outpoint(txid_byte: u8, vout: u32) -> OutPoint {
    OutPoint::Deposit(MainOutPoint {
        txid: [txid_byte; 32],
        vout,
    })
}

fn header_for(state: &StateMachine, body: &Body) -> Header {
    Header {
        prev_side_block_hash: state.get_best_block_hash(),
        prev_main_block_hash: [0u8; 32],
        merkle_root: body.compute_merkle_root(),
    }
}

/// Deposit of 100 to `A`, spent into 1 + 98 with a coinbase of 1 (fee 1);
/// the state after connecting is returned with the bits needed by the
/// other scenarios.
fn deposit_then_spend() -> (StateMachine, ed25519_dalek::Keypair, OutPoint, Header, Body) {
    let kp = keypair(1);
    let a = address_of(&kp);
    let mut state = StateMachine::new();
    let d = deposit_outpoint(0, 2);
    state.connect_main_block(&vec![(d, value_output(a, 100))], &vec![], &vec![]);

    let mut tx = Transaction {
        inputs: vec![d],
        authorizations: vec![],
        outputs: vec![value_output(a, 1), value_output(a, 98)],
    };
    let auth = authorize(&kp, &tx);
    tx.authorizations = vec![auth];
    let body = Body::new(vec![tx], vec![value_output(a, 1)]);
    let header = header_for(&state, &body);
    assert!(state.validate_block(&header, &body).is_ok());
    assert!(matches!(state.try_connect_block(&header, &body), Ok(true)));
    (state, kp, d, header, body)
}

#[test]
fn deposit_then_spend_updates_outputs_and_unspent() {
    let (state, kp, d, _header, body) = deposit_then_spend();
    let a = address_of(&kp);
    let txid = body.transactions[0].txid();
    let merkle_root = body.compute_merkle_root();

    let r0 = OutPoint::Regular { txid, vout: 0 };
    let r1 = OutPoint::Regular { txid, vout: 1 };
    let c0 = OutPoint::Coinbase {
        merkle_root,
        vout: 0,
    };

    assert_eq!(state.get_output(&d), Some(&value_output(a, 100)));
    assert_eq!(state.get_output(&r0), Some(&value_output(a, 1)));
    assert_eq!(state.get_output(&r1), Some(&value_output(a, 98)));
    assert_eq!(state.get_output(&c0), Some(&value_output(a, 1)));

    assert!(!state.is_unspent(&d));
    assert!(state.is_unspent(&r0));
    assert!(state.is_unspent(&r1));
    assert!(state.is_unspent(&c0));
    assert_eq!(state.get_unspent_outpoints().len(), 3);
    assert_eq!(state.num_blocks(), 1);
}

#[test]
fn disconnect_restores_post_deposit_state() {
    let (mut state, kp, d, header, body) = deposit_then_spend();
    let a = address_of(&kp);
    let txid = body.transactions[0].txid();
    let merkle_root = body.compute_merkle_root();

    assert!(state.try_disconnect_block(&header, &body));

    // The state equals the post-deposit state exactly, all four
    // components included.
    let mut expected = StateMachine::new();
    expected.connect_main_block(&vec![(d, value_output(a, 100))], &vec![], &vec![]);
    assert!(state.state_eq(&expected));

    // The same, observed piecewise: one known output, unspent; nothing
    // produced by the block remains; the chain is empty again.
    assert_eq!(state.get_output(&d), Some(&value_output(a, 100)));
    assert!(state.is_unspent(&d));
    assert_eq!(state.get_unspent_outpoints(), vec![d]);
    assert!(state
        .get_output(&OutPoint::Regular { txid, vout: 0 })
        .is_none());
    assert!(state
        .get_output(&OutPoint::Regular { txid, vout: 1 })
        .is_none());
    assert!(state
        .get_output(&OutPoint::Coinbase {
            merkle_root,
            vout: 0
        })
        .is_none());
    assert_eq!(state.num_blocks(), 0);
    assert!(state.get_header(&header.hash()).is_none());
    assert_eq!(state.get_best_block_hash().0, [0u8; 32]);
}

#[test]
fn missing_authorizations_rejected() {
    let kp = keypair(1);
    let a = address_of(&kp);
    let mut state = StateMachine::new();
    let d = deposit_outpoint(0, 2);
    state.connect_main_block(&vec![(d, value_output(a, 100))], &vec![], &vec![]);

    let tx = Transaction {
        inputs: vec![d],
        authorizations: vec![],
        outputs: vec![value_output(a, 1), value_output(a, 98)],
    };
    assert_eq!(
        state.validate_transaction(&tx),
        Err(Error::MissingAuthorizations {
            inputs: 1,
            authorizations: 0
        })
    );
}

#[test]
fn wrong_signer_rejected() {
    let kp = keypair(1);
    let other = keypair(2);
    let a = address_of(&kp);
    let b = address_of(&other);
    assert_ne!(a, b);
    let mut state = StateMachine::new();
    let d = deposit_outpoint(0, 2);
    state.connect_main_block(&vec![(d, value_output(a, 100))], &vec![], &vec![]);

    let mut tx = Transaction {
        inputs: vec![d],
        authorizations: vec![],
        outputs: vec![value_output(a, 1), value_output(a, 98)],
    };
    let auth = authorize(&other, &tx);
    tx.authorizations = vec![auth];
    assert_eq!(
        state.validate_transaction(&tx),
        Err(Error::AddressMismatch {
            authorization_address: b,
            utxo_address: a
        })
    );
}

#[test]
fn over_spend_rejected() {
    let kp = keypair(1);
    let a = address_of(&kp);
    let mut state = StateMachine::new();
    let d = deposit_outpoint(0, 2);
    state.connect_main_block(&vec![(d, value_output(a, 100))], &vec![], &vec![]);

    let mut tx = Transaction {
        inputs: vec![d],
        authorizations: vec![],
        outputs: vec![value_output(a, 60), value_output(a, 50)],
    };
    let auth = authorize(&kp, &tx);
    tx.authorizations = vec![auth];
    assert_eq!(
        state.validate_transaction(&tx),
        Err(Error::ValueInLessThanValueOut {
            value_in: 100,
            value_out: 110
        })
    );
}

#[test]
fn coinbase_over_pays_rejected() {
    let kp = keypair(1);
    let a = address_of(&kp);
    let mut state = StateMachine::new();
    let d = deposit_outpoint(0, 2);
    state.connect_main_block(&vec![(d, value_output(a, 100))], &vec![], &vec![]);

    let mut tx = Transaction {
        inputs: vec![d],
        authorizations: vec![],
        outputs: vec![value_output(a, 1), value_output(a, 98)],
    };
    let auth = authorize(&kp, &tx);
    tx.authorizations = vec![auth];
    // Fee is 1, but the coinbase claims 2.
    let body = Body::new(vec![tx], vec![value_output(a, 2)]);
    let header = header_for(&state, &body);
    assert_eq!(
        state.validate_block(&header, &body),
        Err(Error::CoinbaseExceedsFees {
            coinbase_value: 2,
            fees: 1
        })
    );
}

#[test]
fn withdrawal_lock_and_unlock() {
    let kp = keypair(1);
    let a = address_of(&kp);
    let main_address = MainAddress([9u8; 32]);
    let mut state = StateMachine::new();
    let d = deposit_outpoint(0, 2);
    state.connect_main_block(&vec![(d, value_output(a, 100))], &vec![], &vec![]);

    let withdrawal = Output {
        address: a,
        content: Content::Withdrawal {
            value: 50,
            main_fee: 2,
            main_address,
        },
    };
    let mut tx = Transaction {
        inputs: vec![d],
        authorizations: vec![],
        outputs: vec![withdrawal, value_output(a, 49)],
    };
    let auth = authorize(&kp, &tx);
    tx.authorizations = vec![auth];
    let body = Body::new(vec![tx], vec![value_output(a, 1)]);
    let header = header_for(&state, &body);
    assert!(matches!(state.try_connect_block(&header, &body), Ok(true)));

    let w = OutPoint::Regular {
        txid: body.transactions[0].txid(),
        vout: 0,
    };
    assert!(state.is_unspent(&w));
    let pending = state.get_unspent_withdrawals();
    assert_eq!(
        pending,
        vec![(
            w,
            WithdrawalOutput {
                value: 50,
                main_fee: 2,
                main_address
            }
        )]
    );

    // The main chain confirms the peg-out: the withdrawal leaves the
    // unspent set but stays known, for reversibility.
    state.connect_main_block(&vec![], &vec![w], &vec![]);
    assert!(!state.is_unspent(&w));
    assert!(state.get_output(&w).is_some());
    assert!(state.get_unspent_withdrawals().is_empty());

    // A main-chain reorg undoes the confirmation: the withdrawal is
    // spendable again.
    state.connect_main_block(&vec![], &vec![], &vec![(w, withdrawal)]);
    assert!(state.is_unspent(&w));
    assert_eq!(state.get_unspent_withdrawals().len(), 1);
}

#[test]
fn same_body_chaining_validates_with_owning_authorization() {
    let kp = keypair(1);
    let heir = keypair(3);
    let a = address_of(&kp);
    let b = address_of(&heir);
    let mut state = StateMachine::new();
    let d = deposit_outpoint(0, 2);
    state.connect_main_block(&vec![(d, value_output(a, 100))], &vec![], &vec![]);

    let mut tx_a = Transaction {
        inputs: vec![d],
        authorizations: vec![],
        outputs: vec![value_output(b, 100)],
    };
    let auth_a = authorize(&kp, &tx_a);
    tx_a.authorizations = vec![auth_a];
    let chained = OutPoint::Regular {
        txid: tx_a.txid(),
        vout: 0,
    };
    let mut tx_b = Transaction {
        inputs: vec![chained],
        authorizations: vec![],
        outputs: vec![value_output(a, 100)],
    };
    let auth_b = authorize(&heir, &tx_b);
    tx_b.authorizations = vec![auth_b];

    let body = Body::new(vec![tx_a.clone(), tx_b.clone()], vec![]);
    let header = header_for(&state, &body);
    assert!(state.validate_block(&header, &body).is_ok());

    // The post-deposit state, kept aside to check the disconnect below.
    let mut before = StateMachine::new();
    before.connect_main_block(&vec![(d, value_output(a, 100))], &vec![], &vec![]);
    assert!(state.state_eq(&before));

    assert!(matches!(state.try_connect_block(&header, &body), Ok(true)));
    assert!(!state.is_unspent(&chained));

    // A block with same-body chaining disconnects like any other, and
    // restores the exact prior state.
    assert!(state.try_disconnect_block(&header, &body));
    assert!(state.state_eq(&before));
    assert!(matches!(state.try_connect_block(&header, &body), Ok(true)));

    // The same chained spend signed by a non-owner is rejected.
    let mut state2 = StateMachine::new();
    state2.connect_main_block(&vec![(d, value_output(a, 100))], &vec![], &vec![]);
    let wrong = keypair(4);
    let mut tx_b_bad = Transaction {
        inputs: vec![chained],
        authorizations: vec![],
        outputs: vec![value_output(a, 100)],
    };
    let auth_bad = authorize(&wrong, &tx_b_bad);
    tx_b_bad.authorizations = vec![auth_bad];
    let body_bad = Body::new(vec![tx_a, tx_b_bad], vec![]);
    let header_bad = header_for(&state2, &body_bad);
    assert_eq!(
        state2.validate_block(&header_bad, &body_bad),
        Err(Error::AddressMismatch {
            authorization_address: address_of(&wrong),
            utxo_address: b
        })
    );
}

#[test]
fn double_spend_within_one_transaction_rejected() {
    let kp = keypair(1);
    let a = address_of(&kp);
    let mut state = StateMachine::new();
    let d = deposit_outpoint(0, 2);
    state.connect_main_block(&vec![(d, value_output(a, 100))], &vec![], &vec![]);

    let mut tx = Transaction {
        inputs: vec![d, d],
        authorizations: vec![],
        outputs: vec![value_output(a, 150)],
    };
    let auth0 = authorize(&kp, &tx);
    let auth1 = auth0;
    tx.authorizations = vec![auth0, auth1];
    assert_eq!(
        state.validate_transaction(&tx),
        Err(Error::DoubleSpentWithin { outpoint: d })
    );
}

#[test]
fn double_spend_across_body_rejected() {
    let kp = keypair(1);
    let a = address_of(&kp);
    let mut state = StateMachine::new();
    let d = deposit_outpoint(0, 2);
    state.connect_main_block(&vec![(d, value_output(a, 100))], &vec![], &vec![]);

    let mut tx1 = Transaction {
        inputs: vec![d],
        authorizations: vec![],
        outputs: vec![value_output(a, 100)],
    };
    let auth1 = authorize(&kp, &tx1);
    tx1.authorizations = vec![auth1];
    let mut tx2 = Transaction {
        inputs: vec![d],
        authorizations: vec![],
        outputs: vec![value_output(a, 99)],
    };
    let auth2 = authorize(&kp, &tx2);
    tx2.authorizations = vec![auth2];

    let body = Body::new(vec![tx1, tx2], vec![]);
    let header = header_for(&state, &body);
    assert_eq!(
        state.validate_block(&header, &body),
        Err(Error::DoubleSpentInBody { outpoint: d })
    );
}

#[test]
fn invalid_signature_rejected() {
    let kp = keypair(1);
    let a = address_of(&kp);
    let mut state = StateMachine::new();
    let d = deposit_outpoint(0, 2);
    state.connect_main_block(&vec![(d, value_output(a, 100))], &vec![], &vec![]);

    let mut tx = Transaction {
        inputs: vec![d],
        authorizations: vec![],
        outputs: vec![value_output(a, 100)],
    };
    let mut auth = authorize(&kp, &tx);
    // Corrupt the signature; the address still matches, so only the
    // cryptographic check can reject.
    auth.signature[5] ^= 0xff;
    tx.authorizations = vec![auth];
    assert_eq!(
        state.validate_transaction(&tx),
        Err(Error::InvalidSignature { index: 0 })
    );

    let body = Body::new(vec![tx], vec![]);
    let header = header_for(&state, &body);
    assert_eq!(
        state.validate_block(&header, &body),
        Err(Error::InvalidSignature { index: 0 })
    );
}

#[test]
fn prev_hash_and_merkle_root_must_match() {
    let kp = keypair(1);
    let a = address_of(&kp);
    let mut state = StateMachine::new();
    let d = deposit_outpoint(0, 2);
    state.connect_main_block(&vec![(d, value_output(a, 100))], &vec![], &vec![]);

    let body = Body::new(vec![], vec![]);
    let good = header_for(&state, &body);

    let bad_prev = Header {
        prev_side_block_hash: sidechain_ledger::hashes::BlockHash([7u8; 32]),
        ..good
    };
    assert!(matches!(
        state.validate_block(&bad_prev, &body),
        Err(Error::PrevHashMismatch { .. })
    ));

    let bad_root = Header {
        merkle_root: sidechain_ledger::hashes::MerkleRoot([7u8; 32]),
        ..good
    };
    assert!(matches!(
        state.validate_block(&bad_root, &body),
        Err(Error::MerkleRootMismatch { .. })
    ));

    assert!(state.validate_block(&good, &body).is_ok());
}

#[test]
fn unknown_and_spent_inputs_are_told_apart() {
    let kp = keypair(1);
    let a = address_of(&kp);
    let mut state = StateMachine::new();
    let d = deposit_outpoint(0, 2);
    state.connect_main_block(&vec![(d, value_output(a, 100))], &vec![], &vec![]);

    let ghost_op = deposit_outpoint(5, 0);
    let mut tx = Transaction {
        inputs: vec![ghost_op],
        authorizations: vec![],
        outputs: vec![],
    };
    let auth = authorize(&kp, &tx);
    tx.authorizations = vec![auth];
    assert_eq!(
        state.validate_transaction(&tx),
        Err(Error::OutputDoesNotExist { outpoint: ghost_op })
    );

    // Lock the deposit away (spent but known): spending it now reports
    // `OutputSpent`.
    state.connect_main_block(&vec![], &vec![d], &vec![]);
    let mut tx2 = Transaction {
        inputs: vec![d],
        authorizations: vec![],
        outputs: vec![],
    };
    let auth2 = authorize(&kp, &tx2);
    tx2.authorizations = vec![auth2];
    assert_eq!(
        state.validate_transaction(&tx2),
        Err(Error::OutputSpent { outpoint: d })
    );
}

#[test]
fn unspent_outpoints_always_resolve() {
    // The ledger invariant, observed: after a workout of connects and
    // disconnects, every unspent outpoint still names a known output.
    let (mut state, kp, d, header, body) = deposit_then_spend();
    let a = address_of(&kp);
    assert!(state.try_disconnect_block(&header, &body));
    assert!(matches!(state.try_connect_block(&header, &body), Ok(true)));
    state.connect_main_block(
        &vec![(deposit_outpoint(8, 0), value_output(a, 7))],
        &vec![],
        &vec![],
    );
    state.disconnect_main_block(&vec![deposit_outpoint(8, 0)], &vec![], &vec![]);
    assert!(!state.is_unspent(&d));
    for op in state.get_unspent_outpoints() {
        assert!(state.get_output(&op).is_some());
    }
}

#[test]
fn disconnect_main_block_is_inverse() {
    let kp = keypair(1);
    let a = address_of(&kp);
    let mut state = StateMachine::new();
    let d1 = deposit_outpoint(1, 0);
    let d2 = deposit_outpoint(2, 0);
    state.connect_main_block(
        &vec![(d1, value_output(a, 10)), (d2, value_output(a, 20))],
        &vec![],
        &vec![],
    );
    state.disconnect_main_block(&vec![d1, d2], &vec![], &vec![]);
    assert!(state.get_output(&d1).is_none());
    assert!(state.get_output(&d2).is_none());
    assert!(state.get_unspent_outpoints().is_empty());

    // With all three effects at once — a fresh deposit, a locked
    // withdrawal, a reorg-unlocked withdrawal — undoing the main block
    // restores the exact prior state.
    let w_locked = deposit_outpoint(3, 0);
    let w_unlocked = deposit_outpoint(4, 0);
    let locked_out = value_output(a, 30);
    let unlocked_out = value_output(a, 40);
    state.connect_main_block(
        &vec![(w_locked, locked_out), (w_unlocked, unlocked_out)],
        &vec![w_unlocked],
        &vec![],
    );
    let mut before = StateMachine::new();
    before.connect_main_block(
        &vec![(w_locked, locked_out), (w_unlocked, unlocked_out)],
        &vec![w_unlocked],
        &vec![],
    );
    assert!(state.state_eq(&before));

    state.connect_main_block(
        &vec![(d1, value_output(a, 10))],
        &vec![w_locked],
        &vec![(w_unlocked, unlocked_out)],
    );
    assert!(state.is_unspent(&d1));
    assert!(!state.is_unspent(&w_locked));
    assert!(state.is_unspent(&w_unlocked));

    state.disconnect_main_block(
        &vec![d1],
        &vec![(w_locked, locked_out)],
        &vec![w_unlocked],
    );
    assert!(state.state_eq(&before));
}

#[test]
fn get_fee_and_addresses_and_inputs() {
    let kp = keypair(1);
    let a = address_of(&kp);
    let mut state = StateMachine::new();
    let d = deposit_outpoint(0, 2);
    state.connect_main_block(&vec![(d, value_output(a, 100))], &vec![], &vec![]);

    let mut tx = Transaction {
        inputs: vec![d],
        authorizations: vec![],
        outputs: vec![value_output(a, 1), value_output(a, 98)],
    };
    let auth = authorize(&kp, &tx);
    tx.authorizations = vec![auth];

    assert_eq!(state.get_fee(&tx), Ok(1));
    assert_eq!(state.get_addresses(&tx), Ok(vec![a]));
    assert_eq!(state.get_inputs(&tx), Ok(vec![value_output(a, 100)]));

    let ghost_op = deposit_outpoint(5, 0);
    let unknown = Transaction {
        inputs: vec![ghost_op],
        authorizations: vec![],
        outputs: vec![],
    };
    assert_eq!(
        state.get_fee(&unknown),
        Err(Error::OutputDoesNotExist { outpoint: ghost_op })
    );
}

#[test]
fn test() {
    // Ten keys, five deposits, two single-input transactions and one
    // coinbase output, batch-verified and validated as a body, then
    // applied to a plain UTXO table.
    let keypairs: Vec<ed25519_dalek::Keypair> = (0..10).map(|i| keypair(20 + i)).collect();
    let addresses: Vec<Address> = keypairs.iter().map(address_of).collect();

    let mut utxo_map: HashMap<OutPoint, Output> = HashMap::new();
    for (i, address) in addresses.iter().take(5).enumerate() {
        let outpoint = deposit_outpoint(i as u8, i as u32);
        utxo_map.insert(outpoint, value_output(*address, 1_000 + i as u64));
    }
    let mut utxo_set: HashSet<OutPoint> = utxo_map.keys().copied().collect();

    let mut transactions = Vec::new();
    for i in 0..2 {
        let outpoint = deposit_outpoint(i as u8, i as u32);
        let spent = utxo_map[&outpoint];
        let mut tx = Transaction {
            inputs: vec![outpoint],
            authorizations: vec![],
            outputs: vec![value_output(spent.address, 1_000 + i as u64)],
        };
        let auth = authorize(&keypairs[i], &tx);
        tx.authorizations = vec![auth];
        transactions.push(tx);
    }

    let body = Body::new(transactions, vec![value_output(addresses[9], 0)]);
    sidechain_ledger::authorization::verify_signatures(&body.transactions).unwrap();

    let body_spent_utxos: Vec<Vec<Output>> = body
        .transactions
        .iter()
        .map(|tx| tx.inputs.iter().map(|op| utxo_map[op]).collect())
        .collect();
    let fees = sidechain_ledger::validator::validate_body(&body_spent_utxos, &body).unwrap();
    assert_eq!(fees, 0);

    for input in &body.get_inputs() {
        utxo_set.remove(input);
    }
    for (outpoint, output) in body.get_outputs() {
        utxo_set.insert(outpoint);
        utxo_map.insert(outpoint, output);
    }
    assert_eq!(utxo_set.len(), 6);
    assert_eq!(utxo_map.len(), 8);
}

#[test]
fn two_blocks_chain_and_unwind() {
    let kp = keypair(1);
    let a = address_of(&kp);
    let mut state = StateMachine::new();
    let d = deposit_outpoint(0, 2);
    state.connect_main_block(&vec![(d, value_output(a, 100))], &vec![], &vec![]);

    let mut tx1 = Transaction {
        inputs: vec![d],
        authorizations: vec![],
        outputs: vec![value_output(a, 100)],
    };
    let auth1 = authorize(&kp, &tx1);
    tx1.authorizations = vec![auth1];
    let body1 = Body::new(vec![tx1.clone()], vec![]);
    let header1 = header_for(&state, &body1);
    assert!(matches!(state.try_connect_block(&header1, &body1), Ok(true)));
    assert_eq!(state.get_best_block_hash(), header1.hash());

    let spent = OutPoint::Regular {
        txid: tx1.txid(),
        vout: 0,
    };
    let mut tx2 = Transaction {
        inputs: vec![spent],
        authorizations: vec![],
        outputs: vec![value_output(a, 99)],
    };
    let auth2 = authorize(&kp, &tx2);
    tx2.authorizations = vec![auth2];
    let body2 = Body::new(vec![tx2], vec![value_output(a, 1)]);
    // A header that does not extend the tip is refused.
    let stale = Header {
        prev_side_block_hash: sidechain_ledger::hashes::BlockHash([0u8; 32]),
        prev_main_block_hash: [0u8; 32],
        merkle_root: body2.compute_merkle_root(),
    };
    assert!(matches!(
        state.validate_block(&stale, &body2),
        Err(Error::PrevHashMismatch { .. })
    ));
    let header2 = header_for(&state, &body2);
    assert!(matches!(state.try_connect_block(&header2, &body2), Ok(true)));
    assert_eq!(state.num_blocks(), 2);
    assert_eq!(state.get_best_block_hash(), header2.hash());
    assert_eq!(state.get_header(&header1.hash()), Some(&header1));
    assert_eq!(state.get_header(&header2.hash()), Some(&header2));

    // Unwind the tip: the first block's output is spendable again.
    assert!(state.try_disconnect_block(&header2, &body2));
    assert_eq!(state.num_blocks(), 1);
    assert_eq!(state.get_best_block_hash(), header1.hash());
    assert!(state.is_unspent(&spent));

    // Disconnecting a block that is not the tip is refused.
    assert!(!state.try_disconnect_block(&header2, &body2));
}
