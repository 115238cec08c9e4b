//! The value model: outpoints, outputs, transactions, bodies and headers.

use vstd::prelude::*;
use crate::hashes::{Hash256, BlockHash, MerkleRoot, Txid, hash_eq};
use crate::address::{Address, MainAddress};
use crate::authorization::Authorization;

verus! {

/// A main-chain outpoint, carried verbatim by deposit outputs: the
/// main-chain transaction id and output index.
#[derive(Clone, Copy, Debug, PartialEq, Eq, Hash)]
pub struct MainOutPoint {
    pub txid: Hash256,
    pub vout: u32,
}

impl MainOutPoint {
    pub fn eq_point(&self, other: &MainOutPoint) -> (r: bool)
        ensures
            r == (*self == *other),
    {
        self.vout == other.vout && hash_eq(&self.txid, &other.txid)
    }
}

/// Identifies an output uniquely across its origin.
#[derive(Clone, Copy, Debug, PartialEq, Eq, Hash)]
pub enum OutPoint {
    /// Produced by a sidechain transaction.
    Regular { txid: Txid, vout: u32 },
    /// Produced by a block body's coinbase; keyed by the body's Merkle root
    /// so that it is stable under alternative headers for the same body.
    Coinbase { merkle_root: MerkleRoot, vout: u32 },
    /// Produced by a main-chain deposit event.
    Deposit(MainOutPoint),
}

impl OutPoint {
    pub fn eq_point(&self, other: &OutPoint) -> (r: bool)
        ensures
            r == (*self == *other),
    {
        match (self, other) {
            (
                OutPoint::Regular { txid: t1, vout: v1 },
                OutPoint::Regular { txid: t2, vout: v2 },
            ) => *v1 == *v2 && t1.eq_hash(t2),
            (
                OutPoint::Coinbase { merkle_root: m1, vout: v1 },
                OutPoint::Coinbase { merkle_root: m2, vout: v2 },
            ) => *v1 == *v2 && m1.eq_hash(m2),
            (OutPoint::Deposit(p1), OutPoint::Deposit(p2)) => p1.eq_point(p2),
            _ => false,
        }
    }
}

/// An application-defined payload for the extension slot: the value it
/// carries on the sidechain and an opaque fixed-width datum.
#[derive(Clone, Copy, Debug, PartialEq, Eq)]
pub struct CustomContent {
    pub value: u64,
    pub data: [u8; 32],
}

/// What an output holds besides its owning address.
#[derive(Clone, Copy, Debug, PartialEq, Eq)]
pub enum Content {
    /// The extension slot for application-defined output contents.
    Custom(CustomContent),
    /// Spendable value on the sidechain.
    Value(u64),
    /// A pending peg-out to the main chain; `value` counts toward sidechain
    /// accounting until the main chain commits it.
    Withdrawal { value: u64, main_fee: u64, main_address: MainAddress },
}

impl Content {
    pub fn is_custom(&self) -> (r: bool)
        ensures
            r == (self is Custom),
    {
        matches!(self, Content::Custom(_))
    }

    pub fn is_regular(&self) -> (r: bool)
        ensures
            r == (self is Value),
    {
        matches!(self, Content::Value(_))
    }

    pub fn is_withdrawal(&self) -> (r: bool)
        ensures
            r == (self is Withdrawal),
    {
        matches!(self, Content::Withdrawal { .. })
    }

    pub fn eq_content(&self, other: &Content) -> (r: bool)
        ensures
            r == (*self == *other),
    {
        match (self, other) {
            (Content::Custom(c1), Content::Custom(c2)) => c1.value == c2.value
                && hash_eq(&c1.data, &c2.data),
            (Content::Value(v1), Content::Value(v2)) => *v1 == *v2,
            (
                Content::Withdrawal { value: v1, main_fee: f1, main_address: a1 },
                Content::Withdrawal { value: v2, main_fee: f2, main_address: a2 },
            ) => *v1 == *v2 && *f1 == *f2 && a1.eq_addr(a2),
            _ => false,
        }
    }
}

/// The sidechain value a content contributes to accounting.
pub open spec fn spec_content_value(c: Content) -> u64 {
    match c {
        Content::Custom(custom) => custom.value,
        Content::Value(value) => value,
        Content::Withdrawal { value, .. } => value,
    }
}

/// An output: an owning address and a content.
#[derive(Clone, Copy, Debug, PartialEq, Eq)]
pub struct Output {
    pub address: Address,
    pub content: Content,
}

/// The sidechain value of an output.
pub open spec fn spec_output_value(o: Output) -> u64 {
    spec_content_value(o.content)
}

impl Output {
    pub fn eq_output(&self, other: &Output) -> (r: bool)
        ensures
            r == (*self == *other),
    {
        self.address.eq_addr(&other.address) && self.content.eq_content(&other.content)
    }
}

/// Capability to report an owning address.
pub trait GetAddress {
    spec fn spec_get_address(&self) -> Address;

    fn get_address(&self) -> (r: Address)
        ensures
            r == self.spec_get_address(),
    ;
}

/// Capability to report a sidechain value.
pub trait GetValue {
    spec fn spec_get_value(&self) -> u64;

    fn get_value(&self) -> (r: u64)
        ensures
            r == self.spec_get_value(),
    ;
}

impl GetValue for CustomContent {
    open spec fn spec_get_value(&self) -> u64 {
        self.value
    }

    fn get_value(&self) -> (r: u64) {
        self.value
    }
}

impl GetValue for Content {
    open spec fn spec_get_value(&self) -> u64 {
        spec_content_value(*self)
    }

    fn get_value(&self) -> (r: u64) {
        match self {
            Content::Custom(custom) => custom.get_value(),
            Content::Value(value) => *value,
            Content::Withdrawal { value, .. } => *value,
        }
    }
}

impl GetValue for Output {
    open spec fn spec_get_value(&self) -> u64 {
        spec_output_value(*self)
    }

    fn get_value(&self) -> (r: u64) {
        self.content.get_value()
    }
}

impl GetAddress for Output {
    open spec fn spec_get_address(&self) -> Address {
        self.address
    }

    fn get_address(&self) -> (r: Address) {
        self.address
    }
}

/// A transaction: inputs it spends, one authorization per input, and the
/// outputs it produces.
#[derive(Clone, Debug, PartialEq, Eq)]
pub struct Transaction {
    pub inputs: Vec<OutPoint>,
    pub authorizations: Vec<Authorization>,
    pub outputs: Vec<Output>,
}

/// A block body: the outputs the block pays to itself and its transactions.
#[derive(Clone, Debug, PartialEq, Eq)]
pub struct Body {
    pub coinbase: Vec<Output>,
    pub transactions: Vec<Transaction>,
}

/// A block header.
#[derive(Clone, Copy, Debug, PartialEq, Eq)]
pub struct Header {
    /// Hash of the sidechain block this one extends; all zero for the first.
    pub prev_side_block_hash: BlockHash,
    /// Hash of the newest main-chain block seen when this block was made.
    pub prev_main_block_hash: Hash256,
    /// Commitment to the block's body.
    pub merkle_root: MerkleRoot,
}

impl Header {
    pub fn eq_header(&self, other: &Header) -> (r: bool)
        ensures
            r == (*self == *other),
    {
        self.prev_side_block_hash.eq_hash(&other.prev_side_block_hash)
            && hash_eq(&self.prev_main_block_hash, &other.prev_main_block_hash)
            && self.merkle_root.eq_hash(&other.merkle_root)
    }
}

/// Sum, as an unbounded integer, of the values of a sequence of outputs.
pub open spec fn spec_sum_values(s: Seq<Output>) -> int
    decreases s.len(),
{
    if s.len() == 0 {
        0
    } else {
        spec_sum_values(s.drop_last()) + spec_output_value(s.last())
    }
}

/// A sum of output values never goes negative.
pub proof fn lemma_sum_values_nonneg(s: Seq<Output>)
    ensures
        spec_sum_values(s) >= 0,
    decreases s.len(),
{
    if s.len() > 0 {
        lemma_sum_values_nonneg(s.drop_last());
    }
}

/// Extending a prefix by one output adds that output's value to its sum.
pub proof fn lemma_sum_values_prefix(s: Seq<Output>, i: int)
    requires
        0 <= i < s.len(),
    ensures
        spec_sum_values(s.subrange(0, i + 1)) == spec_sum_values(s.subrange(0, i))
            + spec_output_value(s[i]),
{
    let pre = s.subrange(0, i + 1);
    assert(pre.drop_last() =~= s.subrange(0, i));
    assert(pre.last() == s[i]);
}

impl Body {
    pub fn new(transactions: Vec<Transaction>, coinbase: Vec<Output>) -> (r: Body)
        ensures
            r.transactions == transactions,
            r.coinbase == coinbase,
    {
        Body { coinbase, transactions }
    }

    /// Total value of the coinbase outputs; `None` when the sum does not fit
    /// in a `u64`.
    pub fn get_coinbase_value(&self) -> (r: Option<u64>)
        ensures
            match r {
                Some(v) => v == spec_sum_values(self.coinbase@),
                None => spec_sum_values(self.coinbase@) > u64::MAX,
            },
    {
        sum_values(&self.coinbase)
    }
}

/// Total value of a vector of outputs; `None` when the sum exceeds `u64`.
pub fn sum_values(outputs: &Vec<Output>) -> (r: Option<u64>)
    ensures
        match r {
            Some(v) => v == spec_sum_values(outputs@),
            None => spec_sum_values(outputs@) > u64::MAX,
        },
{
    let mut acc: u64 = 0;
    let mut i: usize = 0;
    assert(outputs@.subrange(0, 0) =~= Seq::<Output>::empty());
    while i < outputs.len()
        invariant
            0 <= i <= outputs@.len(),
            acc == spec_sum_values(outputs@.subrange(0, i as int)),
        decreases outputs@.len() - i,
    {
        proof {
            lemma_sum_values_prefix(outputs@, i as int);
        }
        let v = outputs[i].get_value();
        match acc.checked_add(v) {
            Some(next) => {
                acc = next;
            },
            None => {
                proof {
                    lemma_sum_values_sub_bound(outputs@, i + 1);
                }
                return None;
            },
        }
        i += 1;
    }
    assert(outputs@.subrange(0, outputs@.len() as int) =~= outputs@);
    Some(acc)
}

/// The total is at least the sum of any prefix.
pub proof fn lemma_sum_values_sub_bound(s: Seq<Output>, i: int)
    requires
        0 <= i <= s.len(),
    ensures
        spec_sum_values(s) >= spec_sum_values(s.subrange(0, i)),
    decreases s.len() - i,
{
    if i < s.len() {
        lemma_sum_values_prefix(s, i);
        lemma_sum_values_sub_bound(s, i + 1);
    } else {
        assert(s.subrange(0, s.len() as int) =~= s);
    }
}

impl Transaction {
    /// The transaction id: the digest of the signing image, which is this
    /// transaction with its authorizations cleared.
    pub fn txid(&self) -> (r: Txid)
        ensures
            r == crate::codec::spec_txid(*self),
    {
        crate::codec::compute_txid(self)
    }
}

impl Header {
    /// The block hash of this header.
    pub fn hash(&self) -> (r: BlockHash)
        ensures
            r == crate::codec::spec_block_hash(*self),
    {
        crate::codec::compute_block_hash(self)
    }
}

/// All inputs of the given transactions, in body order.
pub open spec fn spec_flat_inputs(txs: Seq<Transaction>) -> Seq<OutPoint>
    decreases txs.len(),
{
    if txs.len() == 0 {
        Seq::empty()
    } else {
        spec_flat_inputs(txs.drop_last()) + txs.last().inputs@
    }
}

/// Extending a prefix by one transaction appends that transaction's inputs.
pub proof fn lemma_flat_inputs_prefix(txs: Seq<Transaction>, i: int)
    requires
        0 <= i < txs.len(),
    ensures
        spec_flat_inputs(txs.subrange(0, i + 1)) == spec_flat_inputs(txs.subrange(0, i))
            + txs[i].inputs@,
{
    let pre = txs.subrange(0, i + 1);
    assert(pre.drop_last() =~= txs.subrange(0, i));
    assert(pre.last() == txs[i]);
}

/// The outpoint-output pairs a transaction produces: its outputs, keyed by
/// its id and their index.
pub open spec fn spec_tx_produced(tx: Transaction) -> Seq<(OutPoint, Output)> {
    Seq::new(
        tx.outputs@.len(),
        |i: int|
            (
                OutPoint::Regular { txid: crate::codec::spec_txid(tx), vout: i as u32 },
                tx.outputs@[i],
            ),
    )
}

/// The pairs produced by a sequence of transactions, in body order.
pub open spec fn spec_txs_produced(txs: Seq<Transaction>) -> Seq<(OutPoint, Output)>
    decreases txs.len(),
{
    if txs.len() == 0 {
        Seq::empty()
    } else {
        spec_txs_produced(txs.drop_last()) + spec_tx_produced(txs.last())
    }
}

pub proof fn lemma_txs_produced_prefix(txs: Seq<Transaction>, i: int)
    requires
        0 <= i < txs.len(),
    ensures
        spec_txs_produced(txs.subrange(0, i + 1)) == spec_txs_produced(txs.subrange(0, i))
            + spec_tx_produced(txs[i]),
{
    let pre = txs.subrange(0, i + 1);
    assert(pre.drop_last() =~= txs.subrange(0, i));
    assert(pre.last() == txs[i]);
}

/// The coinbase pairs of a body: its coinbase outputs, keyed by the body's
/// Merkle root and their index.
pub open spec fn spec_coinbase_produced(b: Body) -> Seq<(OutPoint, Output)> {
    Seq::new(
        b.coinbase@.len(),
        |i: int|
            (
                OutPoint::Coinbase {
                    merkle_root: crate::codec::spec_merkle_root(b),
                    vout: i as u32,
                },
                b.coinbase@[i],
            ),
    )
}

/// Every outpoint-output pair a body creates when connected: the coinbase
/// pairs, then each transaction's pairs in body order.
pub open spec fn spec_body_produced(b: Body) -> Seq<(OutPoint, Output)> {
    spec_coinbase_produced(b) + spec_txs_produced(b.transactions@)
}

impl Body {
    /// The body's commitment, as the header must carry it.
    pub fn compute_merkle_root(&self) -> (r: MerkleRoot)
        ensures
            r == crate::codec::spec_merkle_root(*self),
    {
        crate::codec::compute_merkle_root(self)
    }

    /// All inputs spent by the body's transactions, in body order.
    pub fn get_inputs(&self) -> (r: Vec<OutPoint>)
        ensures
            r@ == spec_flat_inputs(self.transactions@),
    {
        let mut r: Vec<OutPoint> = Vec::new();
        let mut i: usize = 0;
        assert(spec_flat_inputs(self.transactions@.subrange(0, 0)) =~= Seq::<OutPoint>::empty());
        while i < self.transactions.len()
            invariant
                0 <= i <= self.transactions@.len(),
                r@ == spec_flat_inputs(self.transactions@.subrange(0, i as int)),
            decreases self.transactions@.len() - i,
        {
            let tx = &self.transactions[i];
            let mut j: usize = 0;
            assert(r@ + tx.inputs@.subrange(0, 0) =~= r@);
            let ghost r_start = r@;
            while j < tx.inputs.len()
                invariant
                    0 <= j <= tx.inputs@.len(),
                    tx == &self.transactions@[i as int],
                    r@ == r_start + tx.inputs@.subrange(0, j as int),
                decreases tx.inputs@.len() - j,
            {
                r.push(tx.inputs[j]);
                assert(tx.inputs@.subrange(0, j + 1) =~= tx.inputs@.subrange(0, j as int).push(
                    tx.inputs@[j as int],
                ));
                assert(r@ =~= r_start + tx.inputs@.subrange(0, j + 1));
                j += 1;
            }
            proof {
                assert(tx.inputs@.subrange(0, tx.inputs@.len() as int) =~= tx.inputs@);
                lemma_flat_inputs_prefix(self.transactions@, i as int);
            }
            i += 1;
        }
        assert(self.transactions@.subrange(0, self.transactions@.len() as int)
            =~= self.transactions@);
        r
    }

    /// Every outpoint-output pair this body creates when connected: the
    /// coinbase pairs, then each transaction's pairs in body order.
    pub fn get_outputs(&self) -> (r: Vec<(OutPoint, Output)>)
        ensures
            r@ == spec_body_produced(*self),
    {
        let merkle_root = self.compute_merkle_root();
        let mut r: Vec<(OutPoint, Output)> = Vec::new();
        let mut i: usize = 0;
        while i < self.coinbase.len()
            invariant
                0 <= i <= self.coinbase@.len(),
                merkle_root == crate::codec::spec_merkle_root(*self),
                r@.len() == i,
                forall|k: int| 0 <= k < i ==> r@[k] == spec_coinbase_produced(*self)[k],
            decreases self.coinbase@.len() - i,
        {
            let vout: u32 = #[verifier::truncate] (i as u32);
            r.push((OutPoint::Coinbase { merkle_root, vout }, self.coinbase[i]));
            i += 1;
        }
        assert(r@ =~= spec_coinbase_produced(*self));
        let ghost cb = spec_coinbase_produced(*self);
        let mut t: usize = 0;
        assert(cb + spec_txs_produced(self.transactions@.subrange(0, 0)) =~= cb);
        while t < self.transactions.len()
            invariant
                0 <= t <= self.transactions@.len(),
                cb == spec_coinbase_produced(*self),
                r@ == cb + spec_txs_produced(self.transactions@.subrange(0, t as int)),
            decreases self.transactions@.len() - t,
        {
            let tx = &self.transactions[t];
            let txid = tx.txid();
            let ghost r_start = r@;
            let mut j: usize = 0;
            while j < tx.outputs.len()
                invariant
                    0 <= j <= tx.outputs@.len(),
                    tx == &self.transactions@[t as int],
                    txid == crate::codec::spec_txid(*tx),
                    r@.len() == r_start.len() + j,
                    forall|k: int| 0 <= k < r_start.len() ==> r@[k] == r_start[k],
                    forall|k: int|
                        0 <= k < j ==> r@[r_start.len() + k] == spec_tx_produced(*tx)[k],
                decreases tx.outputs@.len() - j,
            {
                let vout: u32 = #[verifier::truncate] (j as u32);
                r.push((OutPoint::Regular { txid, vout }, tx.outputs[j]));
                j += 1;
            }
            proof {
                assert(r@ =~= r_start + spec_tx_produced(*tx));
                lemma_txs_produced_prefix(self.transactions@, t as int);
                assert(r@ =~= cb + spec_txs_produced(self.transactions@.subrange(0, t + 1)));
            }
            t += 1;
        }
        assert(self.transactions@.subrange(0, self.transactions@.len() as int)
            =~= self.transactions@);
        r
    }
}

} // verus!
