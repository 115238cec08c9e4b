//! Pure validation rules for transactions and block bodies.
//!
//! The functions here judge a transaction against the outputs it spends,
//! already resolved from the ledger in input order, and a body against the
//! per-transaction resolutions. Cryptographic signature checking is a
//! separate step (see the authorization module); these rules cover
//! structure, ownership by address, double spends and value conservation.

use vstd::prelude::*;
use crate::hashes::{BlockHash, MerkleRoot};
use crate::address::Address;
use crate::types::{
    OutPoint, Output, Transaction, Body, GetAddress, GetValue, spec_sum_values,
    lemma_sum_values_prefix, lemma_sum_values_sub_bound, spec_flat_inputs,
};
use crate::authorization::Authorization;

verus! {

/// Typed validation and ledger failures.
#[derive(Clone, Debug, PartialEq, Eq)]
pub enum Error {
    /// An input refers to an outpoint the ledger has never seen.
    OutputDoesNotExist { outpoint: OutPoint },
    /// An input refers to a known but already-spent outpoint.
    OutputSpent { outpoint: OutPoint },
    /// A transaction has a different number of inputs and authorizations.
    MissingAuthorizations { inputs: usize, authorizations: usize },
    /// An authorization does not own the output its input spends.
    AddressMismatch { authorization_address: Address, utxo_address: Address },
    /// Signature verification failed at this position in the batch.
    InvalidSignature { index: usize },
    /// A transaction creates more value than it spends.
    ValueInLessThanValueOut { value_in: u64, value_out: u64 },
    /// A value or fee accumulation overflowed `u64`.
    FeeOverflow,
    /// Two inputs of one transaction name the same outpoint.
    DoubleSpentWithin { outpoint: OutPoint },
    /// Two transactions in one body name the same outpoint.
    DoubleSpentInBody { outpoint: OutPoint },
    /// A body pays itself more than its transactions pay in fees.
    CoinbaseExceedsFees { coinbase_value: u64, fees: u64 },
    /// A header does not extend the current tip.
    PrevHashMismatch { expected: BlockHash, found: BlockHash },
    /// A header does not commit to its body.
    MerkleRootMismatch { expected: MerkleRoot, found: MerkleRoot },
    /// An application-defined rule rejected the transaction.
    CustomRule { message: String },
}

/// Every authorization owns the output its input spends.
pub open spec fn spec_addresses_match(spent: Seq<Output>, auths: Seq<Authorization>) -> bool {
    forall|i: int|
        0 <= i < spent.len() && i < auths.len() ==> (#[trigger] auths[i]).spec_get_address()
            == spent[i].address
}

/// No outpoint occurs twice.
pub open spec fn spec_no_dup_inputs(inputs: Seq<OutPoint>) -> bool {
    forall|i: int, j: int| 0 <= i < j < inputs.len() ==> inputs[i] != inputs[j]
}

/// All structural rules a transaction must pass against its resolved spent
/// outputs: matching authorization count, ownership by address, no
/// double spend within the transaction, sums that fit in `u64`, and value
/// conservation.
pub open spec fn spec_validate_transaction_ok(spent: Seq<Output>, tx: Transaction) -> bool {
    &&& tx.inputs@.len() == tx.authorizations@.len()
    &&& spec_addresses_match(spent, tx.authorizations@)
    &&& spec_no_dup_inputs(tx.inputs@)
    &&& spec_sum_values(spent) <= u64::MAX
    &&& spec_sum_values(tx.outputs@) <= u64::MAX
    &&& spec_sum_values(tx.outputs@) <= spec_sum_values(spent)
}

/// The fee a valid transaction pays: value in minus value out.
pub open spec fn spec_fee(spent: Seq<Output>, tx: Transaction) -> int {
    spec_sum_values(spent) - spec_sum_values(tx.outputs@)
}

/// Which failed rule an error names, and with which payload, when regular
/// validation rejects. Each arm also records that every rule checked
/// earlier passed.
pub open spec fn spec_tx_error_witness(spent: Seq<Output>, tx: Transaction, e: Error) -> bool {
    match e {
        Error::MissingAuthorizations { inputs, authorizations } => {
            &&& inputs == tx.inputs@.len()
            &&& authorizations == tx.authorizations@.len()
            &&& tx.inputs@.len() != tx.authorizations@.len()
        },
        Error::AddressMismatch { authorization_address, utxo_address } => {
            &&& tx.inputs@.len() == tx.authorizations@.len()
            &&& authorization_address != utxo_address
            &&& exists|i: int|
                0 <= i < spent.len() && (#[trigger] tx.authorizations@[i]).spec_get_address()
                    == authorization_address && spent[i].address == utxo_address
        },
        Error::DoubleSpentWithin { outpoint } => {
            &&& tx.inputs@.len() == tx.authorizations@.len()
            &&& spec_addresses_match(spent, tx.authorizations@)
            &&& exists|i: int, j: int|
                0 <= i < j < tx.inputs@.len() && tx.inputs@[i] == outpoint && tx.inputs@[j]
                    == outpoint
        },
        Error::FeeOverflow => {
            &&& tx.inputs@.len() == tx.authorizations@.len()
            &&& spec_addresses_match(spent, tx.authorizations@)
            &&& spec_no_dup_inputs(tx.inputs@)
            &&& (spec_sum_values(spent) > u64::MAX || spec_sum_values(tx.outputs@) > u64::MAX)
        },
        Error::ValueInLessThanValueOut { value_in, value_out } => {
            &&& tx.inputs@.len() == tx.authorizations@.len()
            &&& spec_addresses_match(spent, tx.authorizations@)
            &&& spec_no_dup_inputs(tx.inputs@)
            &&& value_in == spec_sum_values(spent)
            &&& value_out == spec_sum_values(tx.outputs@)
            &&& value_in < value_out
        },
        _ => false,
    }
}

/// Regular transaction validation: returns the fee the transaction pays if
/// every structural rule passes, and the first failed rule otherwise.
///
/// `spent_utxos` are the outputs the inputs spend, resolved in input order.
/// Signatures are not checked here.
pub fn validate_transaction(spent_utxos: &Vec<Output>, transaction: &Transaction) -> (r: Result<
    u64,
    Error,
>)
    requires
        spent_utxos@.len() == transaction.inputs@.len(),
    ensures
        match r {
            Ok(fee) => spec_validate_transaction_ok(spent_utxos@, *transaction) && fee == spec_fee(
                spent_utxos@,
                *transaction,
            ),
            Err(e) => !spec_validate_transaction_ok(spent_utxos@, *transaction)
                && spec_tx_error_witness(spent_utxos@, *transaction, e),
        },
{
    // Rule: one authorization per input.
    if transaction.inputs.len() != transaction.authorizations.len() {
        return Err(
            Error::MissingAuthorizations {
                inputs: transaction.inputs.len(),
                authorizations: transaction.authorizations.len(),
            },
        );
    }
    // Rule: each authorization owns the output its input spends.
    let mut i: usize = 0;
    while i < spent_utxos.len()
        invariant
            spent_utxos@.len() == transaction.inputs@.len(),
            transaction.inputs@.len() == transaction.authorizations@.len(),
            0 <= i <= spent_utxos@.len(),
            forall|j: int|
                0 <= j < i ==> (#[trigger] transaction.authorizations@[j]).spec_get_address()
                    == spent_utxos@[j].address,
        decreases spent_utxos@.len() - i,
    {
        let authorization_address = transaction.authorizations[i].get_address();
        let utxo_address = spent_utxos[i].get_address();
        if !authorization_address.eq_addr(&utxo_address) {
            return Err(Error::AddressMismatch { authorization_address, utxo_address });
        }
        i += 1;
    }
    // Rule: no outpoint is spent twice by this transaction.
    let mut j: usize = 1;
    while j < transaction.inputs.len()
        invariant
            spent_utxos@.len() == transaction.inputs@.len(),
            transaction.inputs@.len() == transaction.authorizations@.len(),
            spec_addresses_match(spent_utxos@, transaction.authorizations@),
            0 <= j <= transaction.inputs@.len() || transaction.inputs@.len() == 0,
            forall|x: int, y: int| 0 <= x < y < j ==> transaction.inputs@[x]
                != transaction.inputs@[y],
        decreases transaction.inputs@.len() - j,
    {
        let mut x: usize = 0;
        while x < j
            invariant
                spent_utxos@.len() == transaction.inputs@.len(),
                transaction.inputs@.len() == transaction.authorizations@.len(),
                spec_addresses_match(spent_utxos@, transaction.authorizations@),
                0 <= x <= j < transaction.inputs@.len(),
                forall|y: int| 0 <= y < x ==> transaction.inputs@[y] != transaction.inputs@[j as int],
            decreases j - x,
        {
            if transaction.inputs[x].eq_point(&transaction.inputs[j]) {
                proof {
                    let xi = x as int;
                    let ji = j as int;
                    assert(transaction.inputs@[xi] == transaction.inputs@[ji]);
                    assert(!spec_no_dup_inputs(transaction.inputs@));
                    assert(exists|a: int, b: int|
                        0 <= a < b < transaction.inputs@.len() && transaction.inputs@[a]
                            == transaction.inputs@[ji] && transaction.inputs@[b]
                            == transaction.inputs@[ji]) by {
                        assert(0 <= xi < ji < transaction.inputs@.len()
                            && transaction.inputs@[xi] == transaction.inputs@[ji]
                            && transaction.inputs@[ji] == transaction.inputs@[ji]);
                    }
                    assert(spec_addresses_match(spent_utxos@, transaction.authorizations@));
                }
                return Err(Error::DoubleSpentWithin { outpoint: transaction.inputs[j] });
            }
            x += 1;
        }
        j += 1;
    }
    assert(spec_no_dup_inputs(transaction.inputs@));
    // Rule: the sums fit and value is conserved.
    let value_in = match crate::types::sum_values(spent_utxos) {
        Some(v) => v,
        None => return Err(Error::FeeOverflow),
    };
    let value_out = match crate::types::sum_values(&transaction.outputs) {
        Some(v) => v,
        None => return Err(Error::FeeOverflow),
    };
    if value_in < value_out {
        return Err(Error::ValueInLessThanValueOut { value_in, value_out });
    }
    Ok(value_in - value_out)
}

/// The resolved spent outputs of every transaction of a body, in body
/// order: one sequence per transaction, outputs in input order.
pub open spec fn spec_spent_shape_ok(spent: Seq<Seq<Output>>, txs: Seq<Transaction>) -> bool {
    &&& spent.len() == txs.len()
    &&& forall|i: int| 0 <= i < txs.len() ==> (#[trigger] spent[i]).len() == txs[i].inputs@.len()
}

/// Every transaction of the body passes regular validation.
pub open spec fn spec_all_txs_ok(spent: Seq<Seq<Output>>, txs: Seq<Transaction>) -> bool {
    forall|i: int|
        0 <= i < txs.len() ==> spec_validate_transaction_ok(#[trigger] spent[i], txs[i])
}

/// Total fees of the body's transactions, as an unbounded integer.
pub open spec fn spec_body_fees(spent: Seq<Seq<Output>>, txs: Seq<Transaction>) -> int
    decreases txs.len(),
{
    if txs.len() == 0 {
        0
    } else {
        spec_body_fees(spent.drop_last(), txs.drop_last()) + spec_fee(
            spent[txs.len() - 1],
            txs.last(),
        )
    }
}

pub proof fn lemma_body_fees_prefix(spent: Seq<Seq<Output>>, txs: Seq<Transaction>, i: int)
    requires
        0 <= i < txs.len() <= spent.len(),
    ensures
        spec_body_fees(spent.subrange(0, i + 1), txs.subrange(0, i + 1)) == spec_body_fees(
            spent.subrange(0, i),
            txs.subrange(0, i),
        ) + spec_fee(spent[i], txs[i]),
{
    let ps = spent.subrange(0, i + 1);
    let pt = txs.subrange(0, i + 1);
    assert(ps.drop_last() =~= spent.subrange(0, i));
    assert(pt.drop_last() =~= txs.subrange(0, i));
    assert(pt.last() == txs[i]);
    assert(ps[pt.len() - 1] == spent[i]);
}

/// All structural rules a body must pass: every transaction valid, no
/// outpoint spent twice across the body, a fee total that fits in `u64`,
/// and a coinbase that pays out at most the fees.
pub open spec fn spec_validate_body_ok(spent: Seq<Seq<Output>>, b: Body) -> bool {
    &&& spec_all_txs_ok(spent, b.transactions@)
    &&& spec_no_dup_inputs(spec_flat_inputs(b.transactions@))
    &&& spec_body_fees(spent, b.transactions@) <= u64::MAX
    &&& spec_sum_values(b.coinbase@) <= spec_body_fees(spent, b.transactions@)
}

/// Which failed rule a body-validation error names. Per-transaction errors
/// carry the failing transaction's witness, after every earlier
/// transaction passed.
pub open spec fn spec_body_error_witness(spent: Seq<Seq<Output>>, b: Body, e: Error) -> bool {
    match e {
        Error::DoubleSpentInBody { outpoint } => {
            &&& spec_all_txs_ok(spent, b.transactions@)
            &&& spec_body_fees(spent, b.transactions@) <= u64::MAX
            &&& exists|i: int, j: int|
                0 <= i < j < spec_flat_inputs(b.transactions@).len() && spec_flat_inputs(
                    b.transactions@,
                )[i] == outpoint && spec_flat_inputs(b.transactions@)[j] == outpoint
        },
        Error::CoinbaseExceedsFees { coinbase_value, fees } => {
            &&& spec_all_txs_ok(spent, b.transactions@)
            &&& spec_no_dup_inputs(spec_flat_inputs(b.transactions@))
            &&& spec_body_fees(spent, b.transactions@) <= u64::MAX
            &&& fees == spec_body_fees(spent, b.transactions@)
            &&& coinbase_value == spec_sum_values(b.coinbase@)
            &&& coinbase_value > fees
        },
        Error::FeeOverflow => {
            ||| exists|i: int|
                0 <= i < b.transactions@.len() && (forall|j: int|
                    0 <= j < i ==> spec_validate_transaction_ok(
                        #[trigger] spent[j],
                        b.transactions@[j],
                    )) && spec_tx_error_witness(spent[i], b.transactions@[i], e)
            ||| exists|i: int|
                0 <= i <= b.transactions@.len() && (forall|j: int|
                    0 <= j < i ==> spec_validate_transaction_ok(
                        #[trigger] spent[j],
                        b.transactions@[j],
                    )) && spec_body_fees(spent.subrange(0, i), b.transactions@.subrange(0, i))
                    > u64::MAX
            ||| {
                &&& spec_all_txs_ok(spent, b.transactions@)
                &&& spec_no_dup_inputs(spec_flat_inputs(b.transactions@))
                &&& spec_body_fees(spent, b.transactions@) <= u64::MAX
                &&& spec_sum_values(b.coinbase@) > u64::MAX
            }
        },
        _ => exists|i: int|
            0 <= i < b.transactions@.len() && (forall|j: int|
                0 <= j < i ==> spec_validate_transaction_ok(
                    #[trigger] spent[j],
                    b.transactions@[j],
                )) && spec_tx_error_witness(spent[i], b.transactions@[i], e),
    }
}

/// Body validation: returns the total fees if every rule passes, and the
/// first failed rule otherwise. Signatures are not checked here; block
/// validation runs a batch verification separately.
pub fn validate_body(spent_utxos: &Vec<Vec<Output>>, body: &Body) -> (r: Result<u64, Error>)
    requires
        spec_spent_shape_ok(
            spent_utxos@.map_values(|v: Vec<Output>| v@),
            body.transactions@,
        ),
    ensures
        match r {
            Ok(fees) => spec_validate_body_ok(
                spent_utxos@.map_values(|v: Vec<Output>| v@),
                *body,
            ) && fees == spec_body_fees(
                spent_utxos@.map_values(|v: Vec<Output>| v@),
                body.transactions@,
            ),
            Err(e) => !spec_validate_body_ok(
                spent_utxos@.map_values(|v: Vec<Output>| v@),
                *body,
            ) && spec_body_error_witness(
                spent_utxos@.map_values(|v: Vec<Output>| v@),
                *body,
                e,
            ),
        },
{
    let ghost spent = spent_utxos@.map_values(|v: Vec<Output>| v@);
    // Rule: every transaction passes regular validation; fees accumulate.
    let mut fees: u64 = 0;
    let mut i: usize = 0;
    assert(spent.subrange(0, 0) =~= Seq::<Seq<Output>>::empty());
    assert(body.transactions@.subrange(0, 0) =~= Seq::<Transaction>::empty());
    while i < body.transactions.len()
        invariant
            spec_spent_shape_ok(spent, body.transactions@),
            spent == spent_utxos@.map_values(|v: Vec<Output>| v@),
            0 <= i <= body.transactions@.len(),
            forall|j: int|
                0 <= j < i ==> spec_validate_transaction_ok(
                    #[trigger] spent[j],
                    body.transactions@[j],
                ),
            fees == spec_body_fees(spent.subrange(0, i as int), body.transactions@.subrange(0, i as int)),
            fees <= u64::MAX,
        decreases body.transactions@.len() - i,
    {
        assert(spent[i as int] == spent_utxos@[i as int]@);
        let fee = match validate_transaction(&spent_utxos[i], &body.transactions[i]) {
            Ok(fee) => fee,
            Err(e) => {
                return Err(e);
            },
        };
        proof {
            lemma_body_fees_prefix(spent, body.transactions@, i as int);
        }
        fees = match fees.checked_add(fee) {
            Some(f) => f,
            None => {
                proof {
                    if spec_all_txs_ok(spent, body.transactions@) {
                        lemma_body_fees_bound(spent, body.transactions@, i + 1);
                    }
                }
                return Err(Error::FeeOverflow);
            },
        };
        i += 1;
    }
    proof {
        assert(spent.subrange(0, spent.len() as int) =~= spent);
        assert(body.transactions@.subrange(0, body.transactions@.len() as int)
            =~= body.transactions@);
        assert(spent.subrange(0, i as int) =~= spent);
        assert(body.transactions@.subrange(0, i as int) =~= body.transactions@);
    }
    // Rule: no outpoint is spent twice across the body.
    let flat = body.get_inputs();
    let mut j: usize = 1;
    while j < flat.len()
        invariant
            spent == spent_utxos@.map_values(|v: Vec<Output>| v@),
            spec_all_txs_ok(spent, body.transactions@),
            fees == spec_body_fees(spent, body.transactions@),
            flat@ == spec_flat_inputs(body.transactions@),
            0 <= j <= flat@.len() || flat@.len() == 0,
            forall|x: int, y: int| 0 <= x < y < j ==> flat@[x] != flat@[y],
        decreases flat@.len() - j,
    {
        let mut x: usize = 0;
        while x < j
            invariant
                spent == spent_utxos@.map_values(|v: Vec<Output>| v@),
                spec_all_txs_ok(spent, body.transactions@),
                fees == spec_body_fees(spent, body.transactions@),
                flat@ == spec_flat_inputs(body.transactions@),
                0 <= x <= j < flat@.len(),
                forall|y: int| 0 <= y < x ==> flat@[y] != flat@[j as int],
            decreases j - x,
        {
            if flat[x].eq_point(&flat[j]) {
                proof {
                    let xi = x as int;
                    let ji = j as int;
                    assert(flat@[xi] == flat@[ji]);
                    assert(!spec_no_dup_inputs(flat@));
                    assert(exists|a: int, b: int|
                        0 <= a < b < flat@.len() && flat@[a] == flat@[ji] && flat@[b]
                            == flat@[ji]) by {
                        assert(0 <= xi < ji < flat@.len() && flat@[xi] == flat@[ji] && flat@[ji]
                            == flat@[ji]);
                    }
                }
                return Err(Error::DoubleSpentInBody { outpoint: flat[j] });
            }
            x += 1;
        }
        j += 1;
    }
    assert(spec_no_dup_inputs(spec_flat_inputs(body.transactions@)));
    // Rule: the coinbase pays out at most the fees.
    let coinbase_value = match body.get_coinbase_value() {
        Some(v) => v,
        None => {
            return Err(Error::FeeOverflow);
        },
    };
    if coinbase_value > fees {
        return Err(Error::CoinbaseExceedsFees { coinbase_value, fees });
    }
    Ok(fees)
}

/// Law: the fee of a valid transaction is exactly its value in minus its
/// value out, and never negative.
pub proof fn lemma_fee_conservation(spent: Seq<Output>, tx: Transaction)
    requires
        spec_validate_transaction_ok(spent, tx),
    ensures
        spec_fee(spent, tx) == spec_sum_values(spent) - spec_sum_values(tx.outputs@),
        spec_fee(spent, tx) >= 0,
{
}

/// Law: a transaction whose outputs' total value exceeds `u64` never
/// passes validation — the overflow is rejected, not wrapped.
pub proof fn lemma_output_overflow_rejected(spent: Seq<Output>, tx: Transaction)
    requires
        spec_sum_values(tx.outputs@) > u64::MAX,
    ensures
        !spec_validate_transaction_ok(spent, tx),
{
}

/// Law: a transaction that names the same outpoint in two input positions
/// never passes validation.
pub proof fn lemma_double_spend_within_rejected(
    spent: Seq<Output>,
    tx: Transaction,
    i: int,
    j: int,
)
    requires
        0 <= i < j < tx.inputs@.len(),
        tx.inputs@[i] == tx.inputs@[j],
    ensures
        !spec_validate_transaction_ok(spent, tx),
{
    assert(!spec_no_dup_inputs(tx.inputs@));
}

/// The number of inputs of the transactions before `t`, and so the index
/// in the body's flat input sequence where transaction `t`'s inputs start.
pub open spec fn spec_input_offset(txs: Seq<Transaction>, t: int) -> int
    decreases t,
{
    if t <= 0 {
        0
    } else {
        spec_input_offset(txs, t - 1) + txs[t - 1].inputs@.len()
    }
}

/// Where each transaction's inputs sit inside the body's flat inputs.
pub proof fn lemma_flat_inputs_index(txs: Seq<Transaction>, t: int, p: int)
    requires
        0 <= t < txs.len(),
        0 <= p < txs[t].inputs@.len(),
    ensures
        0 <= spec_input_offset(txs, t) + p < spec_flat_inputs(txs).len(),
        spec_flat_inputs(txs)[spec_input_offset(txs, t) + p] == txs[t].inputs@[p],
        spec_input_offset(txs, t) + txs[t].inputs@.len() <= spec_flat_inputs(txs).len(),
    decreases txs.len(),
{
    lemma_input_offset_nonneg(txs, t);
    if t == txs.len() - 1 {
        lemma_flat_inputs_len(txs.drop_last(), txs.drop_last().len() as int);
        assert(txs.drop_last().subrange(0, txs.drop_last().len() as int) =~= txs.drop_last());
        assert(spec_flat_inputs(txs) == spec_flat_inputs(txs.drop_last()) + txs.last().inputs@);
        lemma_input_offset_agrees(txs, txs.drop_last(), t);
        assert(spec_input_offset(txs, t) == spec_flat_inputs(txs.drop_last()).len());
    } else {
        lemma_flat_inputs_index(txs.drop_last(), t, p);
        lemma_input_offset_agrees(txs, txs.drop_last(), t);
        assert(spec_flat_inputs(txs) == spec_flat_inputs(txs.drop_last()) + txs.last().inputs@);
    }
}

/// Input offsets never go negative, and count the prefix's inputs.
pub proof fn lemma_input_offset_nonneg(txs: Seq<Transaction>, t: int)
    ensures
        spec_input_offset(txs, t) >= 0,
    decreases t,
{
    if t > 0 {
        lemma_input_offset_nonneg(txs, t - 1);
    }
}

/// The offset of a transaction depends only on the transactions before it.
proof fn lemma_input_offset_agrees(a: Seq<Transaction>, b: Seq<Transaction>, t: int)
    requires
        0 <= t <= a.len(),
        t <= b.len(),
        forall|i: int| 0 <= i < t ==> a[i] == b[i],
    ensures
        spec_input_offset(a, t) == spec_input_offset(b, t),
    decreases t,
{
    if t > 0 {
        lemma_input_offset_agrees(a, b, t - 1);
    }
}

/// The flat inputs of the first `t` transactions count
/// `spec_input_offset(txs, t)` entries.
pub proof fn lemma_flat_inputs_len(txs: Seq<Transaction>, t: int)
    requires
        0 <= t <= txs.len(),
    ensures
        spec_flat_inputs(txs.subrange(0, t)).len() == spec_input_offset(txs, t),
    decreases t,
{
    if t > 0 {
        lemma_flat_inputs_len(txs, t - 1);
        assert(txs.subrange(0, t).drop_last() =~= txs.subrange(0, t - 1));
        assert(txs.subrange(0, t).last() == txs[t - 1]);
    } else {
        assert(txs.subrange(0, 0) =~= Seq::<Transaction>::empty());
    }
}

/// Law: two transactions of one body that spend the same outpoint make
/// the whole body invalid, whatever else holds of it.
pub proof fn lemma_double_spend_in_body_rejected(
    spent: Seq<Seq<Output>>,
    b: Body,
    ti: int,
    tj: int,
    pi: int,
    pj: int,
)
    requires
        0 <= ti < tj < b.transactions@.len(),
        0 <= pi < b.transactions@[ti].inputs@.len(),
        0 <= pj < b.transactions@[tj].inputs@.len(),
        b.transactions@[ti].inputs@[pi] == b.transactions@[tj].inputs@[pj],
    ensures
        !spec_no_dup_inputs(spec_flat_inputs(b.transactions@)),
        !spec_validate_body_ok(spent, b),
{
    let txs = b.transactions@;
    lemma_flat_inputs_index(txs, ti, pi);
    lemma_flat_inputs_index(txs, tj, pj);
    let x = spec_input_offset(txs, ti) + pi;
    let y = spec_input_offset(txs, tj) + pj;
    assert(x < y) by {
        lemma_input_offset_mono(txs, ti + 1, tj);
        assert(spec_input_offset(txs, ti) + txs[ti].inputs@.len() == spec_input_offset(
            txs,
            ti + 1,
        ));
    }
    assert(spec_flat_inputs(txs)[x] == spec_flat_inputs(txs)[y]);
}

/// Offsets grow with the transaction index.
pub proof fn lemma_input_offset_mono(txs: Seq<Transaction>, a: int, b: int)
    requires
        0 <= a <= b,
    ensures
        spec_input_offset(txs, a) <= spec_input_offset(txs, b),
    decreases b - a,
{
    if a < b {
        lemma_input_offset_mono(txs, a, b - 1);
    }
}

/// Any prefix's fees are at most the total, and fees never go negative.
pub proof fn lemma_body_fees_bound(spent: Seq<Seq<Output>>, txs: Seq<Transaction>, i: int)
    requires
        0 <= i <= txs.len() <= spent.len(),
        forall|j: int| 0 <= j < txs.len() ==> spec_validate_transaction_ok(#[trigger] spent[j], txs[j]),
    ensures
        spec_body_fees(spent, txs) >= spec_body_fees(spent.subrange(0, i), txs.subrange(0, i)),
    decreases txs.len() - i,
{
    if i < txs.len() {
        lemma_body_fees_prefix(spent, txs, i);
        lemma_body_fees_bound(spent, txs, i + 1);
        crate::types::lemma_sum_values_nonneg(spent[i]);
        crate::types::lemma_sum_values_nonneg(txs[i].outputs@);
        assert(spec_fee(spent[i], txs[i]) >= 0);
    } else {
        assert(txs.subrange(0, i) =~= txs);
        lemma_body_fees_ignores_extra(spent.subrange(0, i), spent, txs);
    }
}

/// Body fees depend only on the first `txs.len()` entries of `spent`.
proof fn lemma_body_fees_ignores_extra(s1: Seq<Seq<Output>>, s2: Seq<Seq<Output>>, txs: Seq<Transaction>)
    requires
        txs.len() <= s1.len(),
        txs.len() <= s2.len(),
        forall|i: int| 0 <= i < txs.len() ==> s1[i] == s2[i],
    ensures
        spec_body_fees(s1, txs) == spec_body_fees(s2, txs),
    decreases txs.len(),
{
    if txs.len() > 0 {
        lemma_body_fees_ignores_extra(s1.drop_last(), s2.drop_last(), txs.drop_last());
    }
}

} // verus!
