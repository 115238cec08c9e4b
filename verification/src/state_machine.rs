//! The ledger state machine: the committed chain, its headers, every output
//! ever created and not yet disconnected, and the unspent subset.

use vstd::prelude::*;
use crate::hashes::{Hash256, BlockHash};
use crate::address::{Address, MainAddress};
use crate::types::{OutPoint, Output, Content, Transaction, Body, Header, GetAddress, spec_sum_values};
use crate::collections::{AssocMap, KeySet};
use crate::validator::{Error, spec_validate_transaction_ok, spec_fee};
use crate::codec::spec_block_hash;

verus! {

/// What a pending withdrawal asks of the main chain: the value leaving the
/// sidechain, the fee offered on the main chain, and the receiving
/// main-chain address.
#[derive(Clone, Copy, Debug, PartialEq, Eq)]
pub struct WithdrawalOutput {
    pub value: u64,
    pub main_fee: u64,
    pub main_address: MainAddress,
}

/// The mathematical shadow of the ledger state.
#[verifier::ext_equal]
pub struct StateView {
    /// The committed chain, newest last.
    pub block_order: Seq<BlockHash>,
    /// Every committed header, by block hash.
    pub headers: Map<BlockHash, Header>,
    /// Every output created and not yet disconnected, by outpoint.
    pub outputs: Map<OutPoint, Output>,
    /// The unspent outpoints: always a subset of the outputs' keys.
    pub unspent: Set<OutPoint>,
}

/// The ledger invariant: every unspent outpoint resolves to an output.
pub open spec fn spec_state_inv(s: StateView) -> bool {
    s.unspent.subset_of(s.outputs.dom())
}

/// The zero block hash: what an empty chain reports as its tip.
pub open spec fn spec_genesis_hash() -> BlockHash {
    BlockHash(vstd::array::spec_array_fill_for_copy_type::<u8, 32>(0u8))
}

/// The chain tip, or the zero hash for an empty chain.
pub open spec fn spec_best_or_genesis(s: StateView) -> BlockHash {
    if s.block_order.len() == 0 {
        spec_genesis_hash()
    } else {
        s.block_order.last()
    }
}

/// The ledger state machine.
pub struct StateMachine {
    block_order: Vec<BlockHash>,
    headers: AssocMap<BlockHash, Header>,
    outputs: AssocMap<OutPoint, Output>,
    unspent_outpoints: KeySet<OutPoint>,
}

impl View for StateMachine {
    type V = StateView;

    closed spec fn view(&self) -> StateView {
        StateView {
            block_order: self.block_order@,
            headers: self.headers@,
            outputs: self.outputs@,
            unspent: self.unspent_outpoints@,
        }
    }
}

impl StateMachine {
    /// Well-formed: the backing collections keep unique keys.
    pub closed spec fn wf(self) -> bool {
        &&& self.headers.wf()
        &&& self.outputs.wf()
        &&& self.unspent_outpoints.wf()
    }

    /// An empty ledger: no blocks, no outputs.
    pub fn new() -> (r: StateMachine)
        ensures
            r.wf(),
            r@.block_order == Seq::<BlockHash>::empty(),
            r@.headers == Map::<BlockHash, Header>::empty(),
            r@.outputs == Map::<OutPoint, Output>::empty(),
            r@.unspent == Set::<OutPoint>::empty(),
    {
        StateMachine {
            block_order: Vec::new(),
            headers: AssocMap::new(),
            outputs: AssocMap::new(),
            unspent_outpoints: KeySet::new(),
        }
    }

    /// The chain tip, or the zero hash for an empty chain.
    pub fn get_best_block_hash(&self) -> (r: BlockHash)
        ensures
            r == spec_best_or_genesis(self@),
    {
        if self.block_order.len() == 0 {
            let zero: Hash256 = [0u8; 32];
            BlockHash(zero)
        } else {
            self.block_order[self.block_order.len() - 1]
        }
    }

    /// The output an outpoint names, when the ledger knows it.
    pub fn get_output(&self, outpoint: &OutPoint) -> (r: Option<&Output>)
        requires
            self.wf(),
        ensures
            match r {
                Some(o) => self@.outputs.contains_key(*outpoint) && *o == self@.outputs[*outpoint],
                None => !self@.outputs.contains_key(*outpoint),
            },
    {
        self.outputs.get(outpoint)
    }

    /// The committed header a block hash names, if any.
    pub fn get_header(&self, block_hash: &BlockHash) -> (r: Option<&Header>)
        requires
            self.wf(),
        ensures
            match r {
                Some(h) => self@.headers.contains_key(*block_hash) && *h == self@.headers.index(
                    *block_hash,
                ),
                None => !self@.headers.contains_key(*block_hash),
            },
    {
        self.headers.get(block_hash)
    }

    /// How many blocks the committed chain holds.
    pub fn num_blocks(&self) -> (r: usize)
        ensures
            r == self@.block_order.len(),
    {
        self.block_order.len()
    }

    /// Whether an outpoint is currently unspent.
    pub fn is_unspent(&self, outpoint: &OutPoint) -> (r: bool)
        requires
            self.wf(),
        ensures
            r == self@.unspent.contains(*outpoint),
    {
        self.unspent_outpoints.contains(outpoint)
    }

    /// Whether an outpoint is spent: anything but a known unspent outpoint.
    pub fn is_spent(&self, outpoint: &OutPoint) -> (r: bool)
        requires
            self.wf(),
        ensures
            r == !self@.unspent.contains(*outpoint),
    {
        !self.unspent_outpoints.contains(outpoint)
    }

    /// Every currently unspent outpoint, in insertion order.
    pub fn get_unspent_outpoints(&self) -> (r: Vec<OutPoint>)
        requires
            self.wf(),
        ensures
            forall|i: int, j: int| 0 <= i < j < r@.len() ==> r@[i] != r@[j],
            forall|i: int| 0 <= i < r@.len() ==> self@.unspent.contains(#[trigger] r@[i]),
            forall|op: OutPoint|
                #[trigger] self@.unspent.contains(op) ==> exists|i: int|
                    0 <= i < r@.len() && r@[i] == op,
    {
        proof {
            self.unspent_outpoints.lemma_keys();
        }
        let mut r: Vec<OutPoint> = Vec::new();
        let n = self.unspent_outpoints.num_keys();
        let mut i: usize = 0;
        while i < n
            invariant
                n == self.unspent_outpoints.keys_view().len(),
                0 <= i <= n,
                r@ == self.unspent_outpoints.keys_view().subrange(0, i as int),
            decreases n - i,
        {
            r.push(self.unspent_outpoints.key_at(i));
            assert(r@ =~= self.unspent_outpoints.keys_view().subrange(0, i + 1));
            i += 1;
        }
        proof {
            assert(r@ =~= self.unspent_outpoints.keys_view());
            self.unspent_outpoints.lemma_keys();
        }
        r
    }

    /// The pending withdrawals among the unspent outputs: every unspent
    /// outpoint whose output is a withdrawal, with what it asks of the
    /// main chain.
    pub fn get_unspent_withdrawals(&self) -> (r: Vec<(OutPoint, WithdrawalOutput)>)
        requires
            self.wf(),
        ensures
            forall|i: int|
                0 <= i < r@.len() ==> {
                    let (op, w) = #[trigger] r@[i];
                    &&& self@.unspent.contains(op)
                    &&& self@.outputs.contains_key(op)
                    &&& (self@.outputs[op].content matches Content::Withdrawal {
                        value,
                        main_fee,
                        main_address,
                    } && w == WithdrawalOutput { value, main_fee, main_address })
                },
            forall|op: OutPoint|
                #[trigger] self@.unspent.contains(op) && self@.outputs.contains_key(op) && (
                self@.outputs[op].content is Withdrawal) ==> exists|i: int|
                    0 <= i < r@.len() && (#[trigger] r@[i]).0 == op,
            forall|i: int, j: int| 0 <= i < j < r@.len() ==> (#[trigger] r@[i]).0 != (
            #[trigger] r@[j]).0,
    {
        let unspent = self.get_unspent_outpoints();
        let mut r: Vec<(OutPoint, WithdrawalOutput)> = Vec::new();
        let mut i: usize = 0;
        while i < unspent.len()
            invariant
                self.wf(),
                forall|a: int, b: int| 0 <= a < b < unspent@.len() ==> unspent@[a] != unspent@[b],
                forall|a: int|
                    0 <= a < unspent@.len() ==> self@.unspent.contains(#[trigger] unspent@[a]),
                forall|op: OutPoint|
                    #[trigger] self@.unspent.contains(op) ==> exists|a: int|
                        0 <= a < unspent@.len() && unspent@[a] == op,
                0 <= i <= unspent@.len(),
                forall|k: int|
                    0 <= k < r@.len() ==> {
                        let (op, w) = #[trigger] r@[k];
                        &&& self@.unspent.contains(op)
                        &&& self@.outputs.contains_key(op)
                        &&& (self@.outputs[op].content matches Content::Withdrawal {
                            value,
                            main_fee,
                            main_address,
                        } && w == WithdrawalOutput { value, main_fee, main_address })
                    },
                forall|a: int|
                    0 <= a < i && self@.outputs.contains_key(#[trigger] unspent@[a]) && (
                    self@.outputs[unspent@[a]].content is Withdrawal) ==> exists|k: int|
                        0 <= k < r@.len() && (#[trigger] r@[k]).0 == unspent@[a],
                forall|k: int|
                    0 <= k < r@.len() ==> exists|a: int|
                        0 <= a < i && unspent@[a] == (#[trigger] r@[k]).0,
                forall|k1: int, k2: int| 0 <= k1 < k2 < r@.len() ==> (#[trigger] r@[k1]).0 != (
                #[trigger] r@[k2]).0,
        decreases unspent@.len() - i,
        {
            let op = unspent[i];
            if let Some(output) = self.outputs.get(&op) {
                match &output.content {
                    Content::Withdrawal { value, main_fee, main_address } => {
                        let w = WithdrawalOutput {
                            value: *value,
                            main_fee: *main_fee,
                            main_address: *main_address,
                        };
                        let ghost old_r = r@;
                        r.push((op, w));
                        proof {
                            assert forall|a: int|
                                0 <= a < i + 1 && self@.outputs.contains_key(
                                    #[trigger] unspent@[a],
                                ) && (self@.outputs[unspent@[a]].content
                                    is Withdrawal) implies exists|k: int|
                                0 <= k < r@.len() && (#[trigger] r@[k]).0 == unspent@[a] by {
                                if a == i {
                                    assert(r@[r@.len() - 1].0 == unspent@[a]);
                                } else {
                                    let k = choose|k: int|
                                        0 <= k < old_r.len() && (#[trigger] old_r[k]).0
                                            == unspent@[a];
                                    assert(r@[k] == old_r[k]);
                                }
                            }
                            assert forall|k: int|
                                0 <= k < r@.len() implies exists|a: int|
                                0 <= a < i + 1 && unspent@[a] == (#[trigger] r@[k]).0 by {
                                if k == r@.len() - 1 {
                                    assert(unspent@[i as int] == r@[k].0);
                                } else {
                                    let a = choose|a: int|
                                        0 <= a < i && unspent@[a] == (#[trigger] old_r[k]).0;
                                    assert(r@[k] == old_r[k]);
                                }
                            }
                            assert forall|k1: int, k2: int|
                                0 <= k1 < k2 < r@.len() implies (#[trigger] r@[k1]).0 != (
                            #[trigger] r@[k2]).0 by {
                                if k2 == r@.len() - 1 {
                                    assert(r@[k1] == old_r[k1]);
                                    let a = choose|a: int|
                                        0 <= a < i && unspent@[a] == (#[trigger] old_r[k1]).0;
                                    assert(unspent@[a] != unspent@[i as int]);
                                    assert(r@[k2].0 == unspent@[i as int]);
                                } else {
                                    assert(r@[k1] == old_r[k1] && r@[k2] == old_r[k2]);
                                }
                            }
                        }
                    },
                    _ => {},
                }
            }
            i += 1;
        }
        proof {
            assert forall|op: OutPoint|
                #[trigger] self@.unspent.contains(op) && self@.outputs.contains_key(op) && (
                self@.outputs[op].content is Withdrawal) implies exists|k: int|
                0 <= k < r@.len() && (#[trigger] r@[k]).0 == op by {
                let a = choose|a: int| 0 <= a < unspent@.len() && unspent@[a] == op;
                assert(self@.outputs.contains_key(unspent@[a]));
                assert(self@.outputs[unspent@[a]].content is Withdrawal);
            }
        }
        r
    }

    /// Ingests one main-chain block's effects: new deposit outputs enter
    /// the ledger unspent; withdrawal outpoints the main chain confirmed
    /// leave the unspent set but stay known, for reversibility; withdrawal
    /// outpoints whose confirmation a main-chain reorg undid re-enter the
    /// unspent set.
    pub fn connect_main_block(
        &mut self,
        deposit_outputs: &Vec<(OutPoint, Output)>,
        locked_withdrawal_outpoints: &Vec<OutPoint>,
        unlocked_withdrawal_outputs: &Vec<(OutPoint, Output)>,
    )
        requires
            old(self).wf(),
        ensures
            final(self).wf(),
            final(self)@ == spec_connect_main(
                old(self)@,
                deposit_outputs@,
                locked_withdrawal_outpoints@,
                unlocked_withdrawal_outputs@,
            ),
    {
        let mut i: usize = 0;
        while i < deposit_outputs.len()
            invariant
                self.wf(),
                0 <= i <= deposit_outputs@.len(),
                self@ == spec_add_pairs_state(
                    old(self)@,
                    deposit_outputs@.subrange(0, i as int),
                ),
            decreases deposit_outputs@.len() - i,
        {
            let (op, out) = deposit_outputs[i];
            self.outputs.insert(op, out);
            self.unspent_outpoints.insert(op);
            proof {
                assert(deposit_outputs@.subrange(0, i + 1).drop_last() =~= deposit_outputs@
                    .subrange(0, i as int));
                assert(self@ =~~= spec_add_pairs_state(
                    old(self)@,
                    deposit_outputs@.subrange(0, i + 1),
                ));
            }
            i += 1;
        }
        assert(deposit_outputs@.subrange(0, deposit_outputs@.len() as int) =~= deposit_outputs@);
        let ghost mid1 = self@;
        let mut j: usize = 0;
        while j < locked_withdrawal_outpoints.len()
            invariant
                self.wf(),
                0 <= j <= locked_withdrawal_outpoints@.len(),
                self@ == spec_remove_unspent(mid1, locked_withdrawal_outpoints@.subrange(0, j as int)),
            decreases locked_withdrawal_outpoints@.len() - j,
        {
            self.unspent_outpoints.remove(&locked_withdrawal_outpoints[j]);
            proof {
                assert(locked_withdrawal_outpoints@.subrange(0, j + 1).drop_last()
                    =~= locked_withdrawal_outpoints@.subrange(0, j as int));
                assert(self@ =~~= spec_remove_unspent(
                    mid1,
                    locked_withdrawal_outpoints@.subrange(0, j + 1),
                ));
            }
            j += 1;
        }
        assert(locked_withdrawal_outpoints@.subrange(
            0,
            locked_withdrawal_outpoints@.len() as int,
        ) =~= locked_withdrawal_outpoints@);
        let ghost mid2 = self@;
        let mut k: usize = 0;
        while k < unlocked_withdrawal_outputs.len()
            invariant
                self.wf(),
                0 <= k <= unlocked_withdrawal_outputs@.len(),
                self@ == spec_add_pairs_state(
                    mid2,
                    unlocked_withdrawal_outputs@.subrange(0, k as int),
                ),
            decreases unlocked_withdrawal_outputs@.len() - k,
        {
            let (op, out) = unlocked_withdrawal_outputs[k];
            self.outputs.insert(op, out);
            self.unspent_outpoints.insert(op);
            proof {
                assert(unlocked_withdrawal_outputs@.subrange(0, k + 1).drop_last()
                    =~= unlocked_withdrawal_outputs@.subrange(0, k as int));
                assert(self@ =~~= spec_add_pairs_state(
                    mid2,
                    unlocked_withdrawal_outputs@.subrange(0, k + 1),
                ));
            }
            k += 1;
        }
        proof {
            assert(unlocked_withdrawal_outputs@.subrange(
                0,
                unlocked_withdrawal_outputs@.len() as int,
            ) =~= unlocked_withdrawal_outputs@);
            assert(final(self)@ =~~= spec_connect_main(
                old(self)@,
                deposit_outputs@,
                locked_withdrawal_outpoints@,
                unlocked_withdrawal_outputs@,
            ));
        }
    }

    /// Undoes one main-chain block's effects: its deposit outputs leave the
    /// ledger entirely; withdrawal outpoints it had confirmed re-enter the
    /// unspent set; withdrawal outpoints it had un-confirmed leave it.
    pub fn disconnect_main_block(
        &mut self,
        deposit_outpoints: &Vec<OutPoint>,
        locked_withdrawal_outputs: &Vec<(OutPoint, Output)>,
        unlocked_withdrawal_outpoints: &Vec<OutPoint>,
    )
        requires
            old(self).wf(),
        ensures
            final(self).wf(),
            final(self)@ == spec_disconnect_main(
                old(self)@,
                deposit_outpoints@,
                locked_withdrawal_outputs@,
                unlocked_withdrawal_outpoints@,
            ),
    {
        let mut i: usize = 0;
        while i < deposit_outpoints.len()
            invariant
                self.wf(),
                0 <= i <= deposit_outpoints@.len(),
                self@ == spec_drop_pairs_state(old(self)@, deposit_outpoints@.subrange(0, i as int)),
            decreases deposit_outpoints@.len() - i,
        {
            let op = deposit_outpoints[i];
            self.unspent_outpoints.remove(&op);
            self.outputs.remove(&op);
            proof {
                assert(deposit_outpoints@.subrange(0, i + 1).drop_last() =~= deposit_outpoints@
                    .subrange(0, i as int));
                assert(self@ =~~= spec_drop_pairs_state(
                    old(self)@,
                    deposit_outpoints@.subrange(0, i + 1),
                ));
            }
            i += 1;
        }
        assert(deposit_outpoints@.subrange(0, deposit_outpoints@.len() as int)
            =~= deposit_outpoints@);
        let ghost mid1 = self@;
        let mut j: usize = 0;
        while j < locked_withdrawal_outputs.len()
            invariant
                self.wf(),
                0 <= j <= locked_withdrawal_outputs@.len(),
                self@ == spec_add_pairs_state(
                    mid1,
                    locked_withdrawal_outputs@.subrange(0, j as int),
                ),
            decreases locked_withdrawal_outputs@.len() - j,
        {
            let (op, out) = locked_withdrawal_outputs[j];
            self.outputs.insert(op, out);
            self.unspent_outpoints.insert(op);
            proof {
                assert(locked_withdrawal_outputs@.subrange(0, j + 1).drop_last()
                    =~= locked_withdrawal_outputs@.subrange(0, j as int));
                assert(self@ =~~= spec_add_pairs_state(
                    mid1,
                    locked_withdrawal_outputs@.subrange(0, j + 1),
                ));
            }
            j += 1;
        }
        assert(locked_withdrawal_outputs@.subrange(0, locked_withdrawal_outputs@.len() as int)
            =~= locked_withdrawal_outputs@);
        let ghost mid2 = self@;
        let mut k: usize = 0;
        while k < unlocked_withdrawal_outpoints.len()
            invariant
                self.wf(),
                0 <= k <= unlocked_withdrawal_outpoints@.len(),
                self@ == spec_remove_unspent(
                    mid2,
                    unlocked_withdrawal_outpoints@.subrange(0, k as int),
                ),
            decreases unlocked_withdrawal_outpoints@.len() - k,
        {
            self.unspent_outpoints.remove(&unlocked_withdrawal_outpoints[k]);
            proof {
                assert(unlocked_withdrawal_outpoints@.subrange(0, k + 1).drop_last()
                    =~= unlocked_withdrawal_outpoints@.subrange(0, k as int));
                assert(self@ =~~= spec_remove_unspent(
                    mid2,
                    unlocked_withdrawal_outpoints@.subrange(0, k + 1),
                ));
            }
            k += 1;
        }
        proof {
            assert(unlocked_withdrawal_outpoints@.subrange(
                0,
                unlocked_withdrawal_outpoints@.len() as int,
            ) =~= unlocked_withdrawal_outpoints@);
            assert(final(self)@ =~~= spec_disconnect_main(
                old(self)@,
                deposit_outpoints@,
                locked_withdrawal_outputs@,
                unlocked_withdrawal_outpoints@,
            ));
        }
    }
}

/// Every input names an output the ledger knows.
pub open spec fn spec_inputs_known(s: StateView, inputs: Seq<OutPoint>) -> bool {
    forall|i: int| 0 <= i < inputs.len() ==> s.outputs.contains_key(#[trigger] inputs[i])
}

/// Every input names a known output that is currently unspent.
pub open spec fn spec_resolve_ok(s: StateView, inputs: Seq<OutPoint>) -> bool {
    forall|i: int|
        0 <= i < inputs.len() ==> s.outputs.contains_key(#[trigger] inputs[i])
            && s.unspent.contains(inputs[i])
}

/// The outputs the inputs spend, in input order.
pub open spec fn spec_resolved(s: StateView, inputs: Seq<OutPoint>) -> Seq<Output> {
    Seq::new(inputs.len(), |i: int| s.outputs[inputs[i]])
}

impl StateMachine {
    /// Resolves the inputs against the known outputs, spent or not.
    fn resolve_known(&self, inputs: &Vec<OutPoint>) -> (r: Result<Vec<Output>, Error>)
        requires
            self.wf(),
        ensures
            match r {
                Ok(v) => spec_inputs_known(self@, inputs@) && v@ == spec_resolved(self@, inputs@),
                Err(e) => !spec_inputs_known(self@, inputs@) && (e matches
                Error::OutputDoesNotExist { outpoint } && inputs@.contains(outpoint)
                    && !self@.outputs.contains_key(outpoint)),
            },
    {
        let mut v: Vec<Output> = Vec::new();
        let mut i: usize = 0;
        while i < inputs.len()
            invariant
                self.wf(),
                0 <= i <= inputs@.len(),
                v@.len() == i,
                forall|k: int|
                    0 <= k < i ==> self@.outputs.contains_key(#[trigger] inputs@[k]) && v@[k]
                        == self@.outputs[inputs@[k]],
            decreases inputs@.len() - i,
        {
            let op = inputs[i];
            match self.outputs.get(&op) {
                Some(o) => v.push(*o),
                None => {
                    return Err(Error::OutputDoesNotExist { outpoint: op });
                },
            }
            i += 1;
        }
        assert(v@ =~= spec_resolved(self@, inputs@));
        Ok(v)
    }

    /// Resolves the inputs against the known outputs and demands that each
    /// is currently unspent, telling a known-but-spent outpoint apart from
    /// one the ledger has never seen.
    fn resolve_spendable(&self, inputs: &Vec<OutPoint>) -> (r: Result<Vec<Output>, Error>)
        requires
            self.wf(),
        ensures
            match r {
                Ok(v) => spec_resolve_ok(self@, inputs@) && v@ == spec_resolved(self@, inputs@),
                Err(e) => !spec_resolve_ok(self@, inputs@) && match e {
                    Error::OutputDoesNotExist { outpoint } => inputs@.contains(outpoint)
                        && !self@.outputs.contains_key(outpoint),
                    Error::OutputSpent { outpoint } => inputs@.contains(outpoint)
                        && self@.outputs.contains_key(outpoint) && !self@.unspent.contains(
                        outpoint,
                    ),
                    _ => false,
                },
            },
    {
        let mut v: Vec<Output> = Vec::new();
        let mut i: usize = 0;
        while i < inputs.len()
            invariant
                self.wf(),
                0 <= i <= inputs@.len(),
                v@.len() == i,
                forall|k: int|
                    0 <= k < i ==> self@.outputs.contains_key(#[trigger] inputs@[k])
                        && self@.unspent.contains(inputs@[k]) && v@[k]
                        == self@.outputs[inputs@[k]],
            decreases inputs@.len() - i,
        {
            let op = inputs[i];
            match self.outputs.get(&op) {
                Some(o) => {
                    if !self.unspent_outpoints.contains(&op) {
                        return Err(Error::OutputSpent { outpoint: op });
                    }
                    v.push(*o);
                },
                None => {
                    return Err(Error::OutputDoesNotExist { outpoint: op });
                },
            }
            i += 1;
        }
        assert(v@ =~= spec_resolved(self@, inputs@));
        Ok(v)
    }

    /// The outputs a transaction's inputs spend, in input order.
    pub fn get_inputs(&self, transaction: &Transaction) -> (r: Result<Vec<Output>, Error>)
        requires
            self.wf(),
        ensures
            match r {
                Ok(v) => spec_inputs_known(self@, transaction.inputs@) && v@ == spec_resolved(
                    self@,
                    transaction.inputs@,
                ),
                Err(e) => !spec_inputs_known(self@, transaction.inputs@) && (e matches
                Error::OutputDoesNotExist { outpoint: _ }),
            },
    {
        self.resolve_known(&transaction.inputs)
    }

    /// The owning address of each output a transaction spends.
    pub fn get_addresses(&self, transaction: &Transaction) -> (r: Result<Vec<Address>, Error>)
        requires
            self.wf(),
        ensures
            match r {
                Ok(v) => spec_inputs_known(self@, transaction.inputs@) && v@.len()
                    == transaction.inputs@.len() && forall|i: int|
                    0 <= i < v@.len() ==> v@[i] == spec_resolved(
                        self@,
                        transaction.inputs@,
                    )[i].address,
                Err(e) => !spec_inputs_known(self@, transaction.inputs@) && (e matches
                Error::OutputDoesNotExist { outpoint: _ }),
            },
    {
        let resolved = match self.resolve_known(&transaction.inputs) {
            Ok(v) => v,
            Err(e) => {
                return Err(e);
            },
        };
        let mut r: Vec<Address> = Vec::new();
        let mut i: usize = 0;
        while i < resolved.len()
            invariant
                0 <= i <= resolved@.len(),
                r@.len() == i,
                forall|k: int| 0 <= k < i ==> r@[k] == resolved@[k].address,
            decreases resolved@.len() - i,
        {
            r.push(resolved[i].get_address());
            i += 1;
        }
        Ok(r)
    }

    /// The fee a transaction pays, judged against the known outputs: regular
    /// validation over the resolved inputs. An input the ledger has never
    /// seen makes the fee unknowable and is reported as such.
    pub fn get_fee(&self, transaction: &Transaction) -> (r: Result<u64, Error>)
        requires
            self.wf(),
        ensures
            match r {
                Ok(fee) => spec_inputs_known(self@, transaction.inputs@)
                    && spec_validate_transaction_ok(
                    spec_resolved(self@, transaction.inputs@),
                    *transaction,
                ) && fee == spec_fee(spec_resolved(self@, transaction.inputs@), *transaction),
                Err(e) => match e {
                    Error::OutputDoesNotExist { outpoint: _ } => !spec_inputs_known(
                        self@,
                        transaction.inputs@,
                    ),
                    _ => spec_inputs_known(self@, transaction.inputs@)
                        && !spec_validate_transaction_ok(
                        spec_resolved(self@, transaction.inputs@),
                        *transaction,
                    ),
                },
            },
    {
        let resolved = match self.resolve_known(&transaction.inputs) {
            Ok(v) => v,
            Err(e) => {
                return Err(e);
            },
        };
        crate::validator::validate_transaction(&resolved, transaction)
    }

    /// Judges a transaction against the current ledger: every input must
    /// resolve to a known unspent output, the structural rules of regular
    /// validation must pass, and every authorization must validly sign the
    /// transaction's id. Telling a spent input apart from an unknown one
    /// matters for client diagnostics.
    pub fn validate_transaction(&self, transaction: &Transaction) -> (r: Result<(), Error>)
        requires
            self.wf(),
        ensures
            r.is_ok() <==> (spec_resolve_ok(self@, transaction.inputs@)
                && spec_validate_transaction_ok(
                spec_resolved(self@, transaction.inputs@),
                *transaction,
            ) && crate::authorization::spec_tx_sigs_valid(*transaction)),
            match r {
                Ok(()) => true,
                Err(e) => match e {
                    Error::OutputDoesNotExist { outpoint } => transaction.inputs@.contains(
                        outpoint,
                    ) && !self@.outputs.contains_key(outpoint),
                    Error::OutputSpent { outpoint } => transaction.inputs@.contains(outpoint)
                        && self@.outputs.contains_key(outpoint) && !self@.unspent.contains(
                        outpoint,
                    ),
                    Error::InvalidSignature { index } => spec_resolve_ok(
                        self@,
                        transaction.inputs@,
                    ) && spec_validate_transaction_ok(
                        spec_resolved(self@, transaction.inputs@),
                        *transaction,
                    ) && 0 <= index < transaction.authorizations@.len()
                        && !crate::authorization::ed25519_valid(
                        transaction.authorizations@[index as int].public_key@,
                        transaction.authorizations@[index as int].signature@,
                        crate::codec::spec_txid(*transaction).0@,
                    ),
                    _ => spec_resolve_ok(self@, transaction.inputs@)
                        && crate::validator::spec_tx_error_witness(
                        spec_resolved(self@, transaction.inputs@),
                        *transaction,
                        e,
                    ),
                },
            },
    {
        let resolved = match self.resolve_spendable(&transaction.inputs) {
            Ok(v) => v,
            Err(e) => {
                return Err(e);
            },
        };
        match crate::validator::validate_transaction(&resolved, transaction) {
            Ok(_fee) => {},
            Err(e) => {
                return Err(e);
            },
        }
        let txid = transaction.txid();
        let mut i: usize = 0;
        while i < transaction.authorizations.len()
            invariant
                self.wf(),
                spec_resolve_ok(self@, transaction.inputs@),
                spec_validate_transaction_ok(
                    spec_resolved(self@, transaction.inputs@),
                    *transaction,
                ),
                txid == crate::codec::spec_txid(*transaction),
                0 <= i <= transaction.authorizations@.len(),
                forall|k: int|
                    0 <= k < i ==> crate::authorization::ed25519_valid(
                        (#[trigger] transaction.authorizations@[k]).public_key@,
                        transaction.authorizations@[k].signature@,
                        crate::codec::spec_txid(*transaction).0@,
                    ),
            decreases transaction.authorizations@.len() - i,
        {
            if !transaction.authorizations[i].is_valid(&txid.0) {
                return Err(Error::InvalidSignature { index: i });
            }
            i += 1;
        }
        Ok(())
    }
}

/// The outputs available for spending: the unspent subset of the outputs.
pub open spec fn spec_avail(s: StateView) -> Map<OutPoint, Output> {
    s.outputs.restrict(s.unspent)
}

/// Inserts outpoint-output pairs into a map, later pairs winning.
pub open spec fn spec_insert_pairs(m: Map<OutPoint, Output>, ps: Seq<(OutPoint, Output)>) -> Map<
    OutPoint,
    Output,
>
    decreases ps.len(),
{
    if ps.len() == 0 {
        m
    } else {
        spec_insert_pairs(m, ps.drop_last()).insert(ps.last().0, ps.last().1)
    }
}

/// Membership and lookup in `spec_insert_pairs`.
pub proof fn lemma_insert_pairs_props(m: Map<OutPoint, Output>, ps: Seq<(OutPoint, Output)>)
    ensures
        forall|k: OutPoint|
            #[trigger] spec_insert_pairs(m, ps).contains_key(k) <==> (m.contains_key(k)
                || crate::collections::seq_has_key(ps, k)),
        forall|k: OutPoint|
            m.contains_key(k) && !crate::collections::seq_has_key(ps, k)
                ==> #[trigger] spec_insert_pairs(m, ps)[k] == m[k],
        crate::collections::no_dup_keys(ps) ==> forall|i: int|
            0 <= i < ps.len() ==> spec_insert_pairs(m, ps).contains_key(#[trigger] ps[i].0)
                && spec_insert_pairs(m, ps)[ps[i].0] == ps[i].1,
    decreases ps.len(),
{
    if ps.len() > 0 {
        let pre = ps.drop_last();
        lemma_insert_pairs_props(m, pre);
        assert forall|k: OutPoint|
            #[trigger] spec_insert_pairs(m, ps).contains_key(k) implies (m.contains_key(k)
            || crate::collections::seq_has_key(ps, k)) by {
            if k == ps.last().0 {
                assert(ps[ps.len() - 1] == ps.last());
                assert(crate::collections::seq_has_key(ps, k));
            } else {
                assert(spec_insert_pairs(m, pre).contains_key(k));
                if crate::collections::seq_has_key(pre, k) {
                    let i = choose|i: int| 0 <= i < pre.len() && (#[trigger] pre[i]).0 == k;
                    assert(ps[i] == pre[i]);
                    assert(crate::collections::seq_has_key(ps, k));
                }
            }
        }
        assert forall|k: OutPoint|
            (m.contains_key(k) || crate::collections::seq_has_key(ps, k)) implies #[trigger] spec_insert_pairs(
            m,
            ps,
        ).contains_key(k) by {
            if m.contains_key(k) {
                assert(spec_insert_pairs(m, pre).contains_key(k));
            } else {
                let i = choose|i: int| 0 <= i < ps.len() && (#[trigger] ps[i]).0 == k;
                if i == ps.len() - 1 {
                    assert(ps[i] == ps.last());
                } else {
                    assert(pre[i] == ps[i]);
                    assert(crate::collections::seq_has_key(pre, k));
                    assert(spec_insert_pairs(m, pre).contains_key(k));
                }
            }
        }
        assert forall|k: OutPoint|
            m.contains_key(k) && !crate::collections::seq_has_key(ps, k)
                implies #[trigger] spec_insert_pairs(m, ps)[k] == m[k] by {
            assert(!crate::collections::seq_has_key(pre, k)) by {
                if crate::collections::seq_has_key(pre, k) {
                    let i = choose|i: int| 0 <= i < pre.len() && (#[trigger] pre[i]).0 == k;
                    assert(ps[i] == pre[i]);
                    assert(crate::collections::seq_has_key(ps, k));
                }
            }
            assert(ps[ps.len() - 1] == ps.last());
            assert(k != ps.last().0);
            assert(spec_insert_pairs(m, pre)[k] == m[k]);
        }
        if crate::collections::no_dup_keys(ps) {
            assert(crate::collections::no_dup_keys(pre)) by {
                assert forall|x: int, y: int| 0 <= x < y < pre.len() implies (#[trigger] pre[x]).0
                    != (#[trigger] pre[y]).0 by {
                    assert(pre[x] == ps[x] && pre[y] == ps[y]);
                }
            }
            assert forall|i: int| 0 <= i < ps.len() implies spec_insert_pairs(m, ps).contains_key(
                #[trigger] ps[i].0,
            ) && spec_insert_pairs(m, ps)[ps[i].0] == ps[i].1 by {
                if i == ps.len() - 1 {
                    assert(ps[i] == ps.last());
                } else {
                    assert(ps[i].0 != ps[ps.len() - 1].0);
                    assert(pre[i] == ps[i]);
                }
            }
        }
    }
}

proof fn lemma_insert_pairs_prefix(m: Map<OutPoint, Output>, ps: Seq<(OutPoint, Output)>, j: int)
    requires
        0 <= j < ps.len(),
    ensures
        spec_insert_pairs(m, ps.subrange(0, j + 1)) == spec_insert_pairs(
            m,
            ps.subrange(0, j),
        ).insert(ps[j].0, ps[j].1),
{
    let pre = ps.subrange(0, j + 1);
    assert(pre.drop_last() =~= ps.subrange(0, j));
    assert(pre.last() == ps[j]);
}

/// Every input is available in the staged view.
pub open spec fn spec_inputs_avail(avail: Map<OutPoint, Output>, inputs: Seq<OutPoint>) -> bool {
    forall|i: int| 0 <= i < inputs.len() ==> avail.contains_key(#[trigger] inputs[i])
}

/// The outputs the inputs spend, resolved from the staged view.
pub open spec fn spec_resolved_from(avail: Map<OutPoint, Output>, inputs: Seq<OutPoint>) -> Seq<
    Output,
> {
    Seq::new(inputs.len(), |i: int| avail[inputs[i]])
}

/// One staged step: the transaction's inputs leave the available view and
/// its produced outputs enter it.
pub open spec fn spec_apply_tx(avail: Map<OutPoint, Output>, tx: Transaction) -> Map<
    OutPoint,
    Output,
> {
    spec_insert_pairs(avail.remove_keys(tx.inputs@.to_set()), crate::types::spec_tx_produced(tx))
}

/// Every transaction, in body order, resolves against the staged view —
/// the ledger snapshot plus the outputs produced by preceding transactions
/// of the same body, minus the inputs they consumed — and passes regular
/// validation there. This is what lets a later transaction spend an output
/// produced earlier in the same body.
pub open spec fn spec_staged_ok(avail: Map<OutPoint, Output>, txs: Seq<Transaction>) -> bool
    decreases txs.len(),
{
    txs.len() == 0 || {
        &&& spec_inputs_avail(avail, txs[0].inputs@)
        &&& spec_validate_transaction_ok(spec_resolved_from(avail, txs[0].inputs@), txs[0])
        &&& spec_staged_ok(spec_apply_tx(avail, txs[0]), txs.drop_first())
    }
}

/// Total fees of the transactions, each judged against its staged view.
pub open spec fn spec_staged_fees(avail: Map<OutPoint, Output>, txs: Seq<Transaction>) -> int
    decreases txs.len(),
{
    if txs.len() == 0 {
        0
    } else {
        spec_fee(spec_resolved_from(avail, txs[0].inputs@), txs[0]) + spec_staged_fees(
            spec_apply_tx(avail, txs[0]),
            txs.drop_first(),
        )
    }
}

/// Valid transactions pay non-negative fees, so the total never goes
/// negative.
pub proof fn lemma_staged_fees_nonneg(avail: Map<OutPoint, Output>, txs: Seq<Transaction>)
    requires
        spec_staged_ok(avail, txs),
    ensures
        spec_staged_fees(avail, txs) >= 0,
    decreases txs.len(),
{
    if txs.len() > 0 {
        lemma_staged_fees_nonneg(spec_apply_tx(avail, txs[0]), txs.drop_first());
    }
}

/// All structural rules a block must pass to extend the state: it extends
/// the tip, commits to its body, spends nothing twice across the body,
/// every transaction passes staged validation, the fee total fits, and the
/// coinbase pays out at most the fees. Signature validity is a separate,
/// cryptographic concern.
pub open spec fn spec_block_struct_ok(s: StateView, h: Header, b: Body) -> bool {
    &&& h.prev_side_block_hash == spec_best_or_genesis(s)
    &&& h.merkle_root == crate::codec::spec_merkle_root(b)
    &&& crate::validator::spec_no_dup_inputs(crate::types::spec_flat_inputs(b.transactions@))
    &&& spec_staged_ok(spec_avail(s), b.transactions@)
    &&& spec_staged_fees(spec_avail(s), b.transactions@) <= u64::MAX
    &&& spec_sum_values(b.coinbase@) <= spec_staged_fees(spec_avail(s), b.transactions@)
}

/// Which failed rule a block-validation error names. A header that does
/// not extend the tip, or one that does not commit to its body, is pinned
/// with its witnesses; a failed batch verification names a flat signature
/// position that fails individual verification, reached only after every
/// structural rule passed; any other error reports a structurally invalid
/// block.
pub open spec fn spec_block_error_witness(s: StateView, h: Header, b: Body, e: Error) -> bool {
    match e {
        Error::PrevHashMismatch { expected, found } => expected == spec_best_or_genesis(s) && found
            == h.prev_side_block_hash && expected != found,
        Error::MerkleRootMismatch { expected, found } => h.prev_side_block_hash
            == spec_best_or_genesis(s) && expected == crate::codec::spec_merkle_root(b) && found
            == h.merkle_root && expected != found,
        Error::InvalidSignature { index } => spec_block_struct_ok(s, h, b)
            && !crate::authorization::spec_txs_sigs_valid(b.transactions@)
            && crate::authorization::spec_invalid_sig_at(b.transactions@, index),
        _ => !spec_block_struct_ok(s, h, b),
    }
}

impl StateMachine {
    /// The staged view a block's first transaction is judged against: the
    /// unspent outputs, as one association map.
    fn build_available(&self) -> (r: AssocMap<OutPoint, Output>)
        requires
            self.wf(),
        ensures
            r.wf(),
            r@ == spec_avail(self@),
    {
        proof {
            self.outputs.lemma_entries();
        }
        let mut r: AssocMap<OutPoint, Output> = AssocMap::new();
        let n = self.outputs.num_entries();
        let mut i: usize = 0;
        while i < n
            invariant
                self.wf(),
                r.wf(),
                n == self.outputs.entries_view().len(),
                0 <= i <= n,
                forall|j: int|
                    0 <= j < self.outputs.entries_view().len() ==> self@.outputs.contains_key(
                        (#[trigger] self.outputs.entries_view()[j]).0,
                    ) && self@.outputs[self.outputs.entries_view()[j].0]
                        == self.outputs.entries_view()[j].1,
                forall|k: OutPoint|
                    #[trigger] r@.contains_key(k) ==> self@.outputs.contains_key(k)
                        && self@.unspent.contains(k) && r@[k] == self@.outputs[k],
                forall|j: int|
                    0 <= j < i && self@.unspent.contains(
                        (#[trigger] self.outputs.entries_view()[j]).0,
                    ) ==> r@.contains_key(self.outputs.entries_view()[j].0),
            decreases n - i,
        {
            let entry = self.outputs.entry_at(i);
            let op = entry.0;
            if self.unspent_outpoints.contains(&op) {
                let out = entry.1;
                r.insert(op, out);
            }
            i += 1;
        }
        proof {
            self.outputs.lemma_entries();
            assert forall|k: OutPoint| spec_avail(self@).contains_key(k) implies r@.contains_key(
                k,
            ) by {
                assert(self@.outputs.contains_key(k));
                let j = choose|j: int|
                    0 <= j < self.outputs.entries_view().len() && self.outputs.entries_view()[j].0
                        == k;
                assert(self@.unspent.contains(self.outputs.entries_view()[j].0));
            }
            assert(r@ =~= spec_avail(self@));
        }
        r
    }

    /// Resolves a transaction's inputs from the staged view, telling a
    /// known-but-unavailable outpoint apart from an unknown one.
    fn resolve_staged(&self, avail: &AssocMap<OutPoint, Output>, inputs: &Vec<OutPoint>) -> (r:
        Result<Vec<Output>, Error>)
        requires
            self.wf(),
            avail.wf(),
        ensures
            match r {
                Ok(v) => spec_inputs_avail(avail@, inputs@) && v@ == spec_resolved_from(
                    avail@,
                    inputs@,
                ),
                Err(e) => !spec_inputs_avail(avail@, inputs@) && (e matches Error::OutputSpent {
                    outpoint: _,
                } || e matches Error::OutputDoesNotExist { outpoint: _ }),
            },
    {
        let mut v: Vec<Output> = Vec::new();
        let mut i: usize = 0;
        while i < inputs.len()
            invariant
                self.wf(),
                avail.wf(),
                0 <= i <= inputs@.len(),
                v@.len() == i,
                forall|k: int|
                    0 <= k < i ==> avail@.contains_key(#[trigger] inputs@[k]) && v@[k]
                        == avail@[inputs@[k]],
            decreases inputs@.len() - i,
        {
            let op = inputs[i];
            match avail.get(&op) {
                Some(o) => v.push(*o),
                None => {
                    if self.outputs.contains_key(&op) {
                        return Err(Error::OutputSpent { outpoint: op });
                    } else {
                        return Err(Error::OutputDoesNotExist { outpoint: op });
                    }
                },
            }
            i += 1;
        }
        assert(v@ =~= spec_resolved_from(avail@, inputs@));
        Ok(v)
    }

    /// Judges a block against the current ledger: the header must extend
    /// the tip and commit to the body, the body must spend nothing twice,
    /// every transaction must pass staged validation, the coinbase must pay
    /// out at most the fees, and every signature must pass one batched
    /// verification.
    pub fn validate_block(&self, header: &Header, body: &Body) -> (r: Result<(), Error>)
        requires
            self.wf(),
        ensures
            r.is_ok() ==> spec_block_struct_ok(self@, *header, *body),
            spec_block_struct_ok(self@, *header, *body) && crate::authorization::spec_txs_sigs_valid(
                body.transactions@,
            ) ==> r.is_ok(),
            header.prev_side_block_hash != spec_best_or_genesis(self@) ==> r == Err::<(), Error>(
                Error::PrevHashMismatch {
                    expected: spec_best_or_genesis(self@),
                    found: header.prev_side_block_hash,
                },
            ),
            header.prev_side_block_hash == spec_best_or_genesis(self@) && header.merkle_root
                != crate::codec::spec_merkle_root(*body) ==> r == Err::<(), Error>(
                Error::MerkleRootMismatch {
                    expected: crate::codec::spec_merkle_root(*body),
                    found: header.merkle_root,
                },
            ),
            match r {
                Ok(()) => true,
                Err(e) => spec_block_error_witness(self@, *header, *body, e),
            },
    {
        // Rule: the header extends the current tip.
        let best = self.get_best_block_hash();
        if !best.eq_hash(&header.prev_side_block_hash) {
            return Err(
                Error::PrevHashMismatch { expected: best, found: header.prev_side_block_hash },
            );
        }
        // Rule: the header commits to this body.
        let computed = body.compute_merkle_root();
        if !computed.eq_hash(&header.merkle_root) {
            return Err(Error::MerkleRootMismatch { expected: computed, found: header.merkle_root });
        }
        // Rule: no outpoint is spent twice across the body.
        let flat = body.get_inputs();
        let mut j: usize = 1;
        while j < flat.len()
            invariant
                header.prev_side_block_hash == spec_best_or_genesis(self@),
                header.merkle_root == crate::codec::spec_merkle_root(*body),
                flat@ == crate::types::spec_flat_inputs(body.transactions@),
                0 <= j <= flat@.len() || flat@.len() == 0,
                forall|x: int, y: int| 0 <= x < y < j ==> flat@[x] != flat@[y],
            decreases flat@.len() - j,
        {
            let mut x: usize = 0;
            while x < j
                invariant
                    header.prev_side_block_hash == spec_best_or_genesis(self@),
                    header.merkle_root == crate::codec::spec_merkle_root(*body),
                    flat@ == crate::types::spec_flat_inputs(body.transactions@),
                    0 <= x <= j < flat@.len(),
                    forall|y: int| 0 <= y < x ==> flat@[y] != flat@[j as int],
                decreases j - x,
            {
                if flat[x].eq_point(&flat[j]) {
                    proof {
                        assert(flat@[x as int] == flat@[j as int]);
                        assert(!crate::validator::spec_no_dup_inputs(flat@));
                    }
                    return Err(Error::DoubleSpentInBody { outpoint: flat[j] });
                }
                x += 1;
            }
            j += 1;
        }
        assert(crate::validator::spec_no_dup_inputs(crate::types::spec_flat_inputs(
            body.transactions@,
        )));
        // Rule: every transaction passes regular validation against the
        // staged view, and the fees fit.
        let ghost avail0 = spec_avail(self@);
        let mut avail = self.build_available();
        let mut fees: u64 = 0;
        let mut t: usize = 0;
        proof {
            assert(body.transactions@.subrange(0, body.transactions@.len() as int)
                =~= body.transactions@);
        }
        while t < body.transactions.len()
            invariant
                self.wf(),
                avail.wf(),
                header.prev_side_block_hash == spec_best_or_genesis(self@),
                header.merkle_root == crate::codec::spec_merkle_root(*body),
                crate::validator::spec_no_dup_inputs(crate::types::spec_flat_inputs(
                    body.transactions@,
                )),
                avail0 == spec_avail(self@),
                0 <= t <= body.transactions@.len(),
                spec_staged_ok(avail0, body.transactions@) == spec_staged_ok(
                    avail@,
                    body.transactions@.subrange(t as int, body.transactions@.len() as int),
                ),
                spec_staged_fees(avail0, body.transactions@) == fees + spec_staged_fees(
                    avail@,
                    body.transactions@.subrange(t as int, body.transactions@.len() as int),
                ),
                fees <= u64::MAX,
            decreases body.transactions@.len() - t,
        {
            let ghost txs = body.transactions@;
            let ghost rem = txs.subrange(t as int, txs.len() as int);
            let tx = &body.transactions[t];
            proof {
                assert(rem[0] == txs[t as int]);
                assert(rem.drop_first() =~= txs.subrange(t + 1, txs.len() as int));
            }
            let resolved = match self.resolve_staged(&avail, &tx.inputs) {
                Ok(v) => v,
                Err(e) => {
                    proof {
                        assert(!spec_staged_ok(avail@, rem));
                    }
                    return Err(e);
                },
            };
            let fee = match crate::validator::validate_transaction(&resolved, tx) {
                Ok(fee) => fee,
                Err(e) => {
                    proof {
                        assert(!spec_staged_ok(avail@, rem));
                    }
                    return Err(e);
                },
            };
            fees = match fees.checked_add(fee) {
                Some(f) => f,
                None => {
                    proof {
                        if spec_staged_ok(avail0, txs) {
                            assert(spec_staged_ok(avail@, rem));
                            lemma_staged_fees_nonneg(
                                spec_apply_tx(avail@, rem[0]),
                                rem.drop_first(),
                            );
                            assert(spec_staged_fees(avail0, txs) > u64::MAX);
                        }
                    }
                    return Err(Error::FeeOverflow);
                },
            };
            // Stage the transaction's effect: its inputs leave, its
            // produced outputs enter.
            let ghost avail_before = avail@;
            let mut a: usize = 0;
            while a < tx.inputs.len()
                invariant
                    avail.wf(),
                    0 <= a <= tx.inputs@.len(),
                    avail@ == avail_before.remove_keys(
                        tx.inputs@.subrange(0, a as int).to_set(),
                    ),
                decreases tx.inputs@.len() - a,
            {
                avail.remove(&tx.inputs[a]);
                proof {
                    broadcast use vstd::prelude::Seq::lemma_push_to_set_commute;

                    assert(tx.inputs@.subrange(0, a + 1) =~= tx.inputs@.subrange(
                        0,
                        a as int,
                    ).push(tx.inputs@[a as int]));
                    assert(avail@ =~= avail_before.remove_keys(
                        tx.inputs@.subrange(0, a + 1).to_set(),
                    ));
                }
                a += 1;
            }
            proof {
                assert(tx.inputs@.subrange(0, tx.inputs@.len() as int) =~= tx.inputs@);
            }
            let ghost avail_mid = avail@;
            let txid = tx.txid();
            let ghost produced = crate::types::spec_tx_produced(*tx);
            let mut b: usize = 0;
            while b < tx.outputs.len()
                invariant
                    avail.wf(),
                    0 <= b <= tx.outputs@.len(),
                    txid == crate::codec::spec_txid(*tx),
                    tx == &body.transactions@[t as int],
                    produced == crate::types::spec_tx_produced(*tx),
                    avail@ == spec_insert_pairs(avail_mid, produced.subrange(0, b as int)),
                decreases tx.outputs@.len() - b,
            {
                let vout: u32 = #[verifier::truncate] (b as u32);
                let op = OutPoint::Regular { txid, vout };
                avail.insert(op, tx.outputs[b]);
                proof {
                    lemma_insert_pairs_prefix(avail_mid, produced, b as int);
                    assert(produced[b as int] == (op, tx.outputs@[b as int]));
                }
                b += 1;
            }
            proof {
                assert(produced.subrange(0, produced.len() as int) =~= produced);
                assert(avail@ == spec_apply_tx(avail_before, txs[t as int]));
                assert(spec_staged_ok(avail_before, rem) == spec_staged_ok(
                    avail@,
                    txs.subrange(t + 1, txs.len() as int),
                ));
                assert(spec_staged_fees(avail_before, rem) == spec_fee(
                    spec_resolved_from(avail_before, txs[t as int].inputs@),
                    txs[t as int],
                ) + spec_staged_fees(avail@, txs.subrange(t + 1, txs.len() as int)));
            }
            t += 1;
        }
        proof {
            assert(body.transactions@.subrange(0, body.transactions@.len() as int)
                =~= body.transactions@);
            assert(body.transactions@.subrange(
                body.transactions@.len() as int,
                body.transactions@.len() as int,
            ) =~= Seq::<Transaction>::empty());
            assert(spec_staged_ok(avail0, body.transactions@));
            assert(spec_staged_fees(avail0, body.transactions@) == fees);
        }
        // Rule: the coinbase pays out at most the fees.
        let coinbase_value = match body.get_coinbase_value() {
            Some(v) => v,
            None => {
                return Err(Error::FeeOverflow);
            },
        };
        if coinbase_value > fees {
            return Err(Error::CoinbaseExceedsFees { coinbase_value, fees });
        }
        // Rule: one batched signature verification over the whole body.
        match crate::authorization::verify_signatures(&body.transactions) {
            Ok(()) => Ok(()),
            Err(e) => Err(e),
        }
    }
}

/// `s` with each pair's output inserted and each pair's outpoint unspent.
pub open spec fn spec_add_pairs_state(s: StateView, ps: Seq<(OutPoint, Output)>) -> StateView
    decreases ps.len(),
{
    if ps.len() == 0 {
        s
    } else {
        let prev = spec_add_pairs_state(s, ps.drop_last());
        StateView {
            outputs: prev.outputs.insert(ps.last().0, ps.last().1),
            unspent: prev.unspent.insert(ps.last().0),
            ..prev
        }
    }
}

/// `s` with the outpoints removed from the unspent set only.
pub open spec fn spec_remove_unspent(s: StateView, ops: Seq<OutPoint>) -> StateView
    decreases ops.len(),
{
    if ops.len() == 0 {
        s
    } else {
        let prev = spec_remove_unspent(s, ops.drop_last());
        StateView { unspent: prev.unspent.remove(ops.last()), ..prev }
    }
}

/// `s` with the outpoints removed from both the outputs and the unspent
/// set.
pub open spec fn spec_drop_pairs_state(s: StateView, ops: Seq<OutPoint>) -> StateView
    decreases ops.len(),
{
    if ops.len() == 0 {
        s
    } else {
        let prev = spec_drop_pairs_state(s, ops.drop_last());
        StateView {
            outputs: prev.outputs.remove(ops.last()),
            unspent: prev.unspent.remove(ops.last()),
            ..prev
        }
    }
}

/// `s` with the outpoints inserted into the unspent set only.
pub open spec fn spec_add_unspent(s: StateView, ops: Seq<OutPoint>) -> StateView
    decreases ops.len(),
{
    if ops.len() == 0 {
        s
    } else {
        let prev = spec_add_unspent(s, ops.drop_last());
        StateView { unspent: prev.unspent.insert(ops.last()), ..prev }
    }
}

/// The outpoints a transaction's outputs get: its id with each index.
pub open spec fn spec_produced_keys(tx: Transaction) -> Seq<OutPoint> {
    Seq::new(
        tx.outputs@.len(),
        |i: int|
            OutPoint::Regular { txid: crate::codec::spec_txid(tx), vout: i as u32 },
    )
}

/// The outpoints a body's coinbase outputs get: the body's Merkle root with
/// each index.
pub open spec fn spec_coinbase_keys(b: Body) -> Seq<OutPoint> {
    Seq::new(
        b.coinbase@.len(),
        |i: int|
            OutPoint::Coinbase { merkle_root: crate::codec::spec_merkle_root(b), vout: i as u32 },
    )
}

/// Connecting one transaction: its inputs leave the unspent set; its
/// produced outputs enter the output store and the unspent set.
pub open spec fn spec_connect_tx_state(s: StateView, tx: Transaction) -> StateView {
    spec_add_pairs_state(
        spec_remove_unspent(s, tx.inputs@),
        crate::types::spec_tx_produced(tx),
    )
}

/// Connecting a body's transactions, in body order.
pub open spec fn spec_connect_txs_state(s: StateView, txs: Seq<Transaction>) -> StateView
    decreases txs.len(),
{
    if txs.len() == 0 {
        s
    } else {
        spec_connect_txs_state(spec_connect_tx_state(s, txs[0]), txs.drop_first())
    }
}

/// Disconnecting one transaction: its inputs re-enter the unspent set; its
/// produced outpoints leave the output store and the unspent set.
pub open spec fn spec_disconnect_tx_state(s: StateView, tx: Transaction) -> StateView {
    spec_drop_pairs_state(spec_add_unspent(s, tx.inputs@), spec_produced_keys(tx))
}

/// Disconnecting a body's transactions, in reverse body order: the first
/// transaction's effect is undone last.
pub open spec fn spec_disconnect_txs_state(s: StateView, txs: Seq<Transaction>) -> StateView
    decreases txs.len(),
{
    if txs.len() == 0 {
        s
    } else {
        spec_disconnect_tx_state(spec_disconnect_txs_state(s, txs.drop_first()), txs[0])
    }
}

/// The effect of connecting a block: each transaction in body order, then
/// the coinbase outputs, then the header joins the chain.
pub open spec fn spec_connect_block(s: StateView, h: Header, b: Body) -> StateView {
    let s1 = spec_connect_txs_state(s, b.transactions@);
    let s2 = spec_add_pairs_state(s1, crate::types::spec_coinbase_produced(b));
    StateView {
        block_order: s2.block_order.push(spec_block_hash(h)),
        headers: s2.headers.insert(spec_block_hash(h), h),
        ..s2
    }
}

/// The effect of disconnecting a block: the exact inverse of connecting
/// it — the header leaves the chain, the coinbase outputs leave the
/// ledger, and each transaction is undone in reverse body order.
pub open spec fn spec_disconnect_block(s: StateView, h: Header, b: Body) -> StateView {
    let s1 = StateView {
        block_order: s.block_order.drop_last(),
        headers: s.headers.remove(spec_block_hash(h)),
        ..s
    };
    let s2 = spec_drop_pairs_state(s1, spec_coinbase_keys(b));
    spec_disconnect_txs_state(s2, b.transactions@)
}

/// The block's produced outpoints are mutually distinct and new to the
/// ledger, and its hash names no committed header. On honest data this
/// always holds: the keys come from fresh digests.
pub open spec fn spec_block_fresh(s: StateView, h: Header, b: Body) -> bool {
    let ps = crate::types::spec_body_produced(b);
    &&& forall|i: int, j: int| 0 <= i < j < ps.len() ==> ps[i].0 != ps[j].0
    &&& forall|i: int| 0 <= i < ps.len() ==> !s.outputs.contains_key((#[trigger] ps[i]).0)
    &&& !s.headers.contains_key(spec_block_hash(h))
}

/// What disconnecting a block demands of the state: the block is the tip,
/// and every input the body spent can be restored. An input either names
/// an output of a transaction ordered at or before its spender in the
/// same body — the reverse walk restores and then removes it again — or a
/// known output the body did not produce at all. Both hold right after
/// the block was connected, same-body chaining included.
pub open spec fn spec_disconnect_ok(s: StateView, h: Header, b: Body) -> bool {
    let txs = b.transactions@;
    &&& s.block_order.len() > 0
    &&& s.block_order.last() == spec_block_hash(h)
    &&& forall|j: int, q: int|
        0 <= j < txs.len() && 0 <= q < txs[j].inputs@.len() ==> spec_input_restorable(
            s,
            b,
            j,
            (#[trigger] txs[j].inputs@[q]),
        )
}

/// Whether the input `k`, spent by the body's transaction `j`, can be
/// restored on disconnect: produced by a transaction at or before `j`, or
/// a known output the body did not produce.
pub open spec fn spec_input_restorable(s: StateView, b: Body, j: int, k: OutPoint) -> bool {
    ||| spec_some_tx_produces(b.transactions@.subrange(0, j + 1), k)
    ||| (s.outputs.contains_key(k) && !crate::collections::seq_has_key(
        crate::types::spec_body_produced(b),
        k,
    ))
}

/// Unfolding `spec_connect_txs_state` at the back: connecting all of `txs`
/// is connecting all but the last, then the last.
pub proof fn lemma_connect_txs_snoc(s: StateView, txs: Seq<Transaction>)
    requires
        txs.len() > 0,
    ensures
        spec_connect_txs_state(s, txs) == spec_connect_tx_state(
            spec_connect_txs_state(s, txs.drop_last()),
            txs.last(),
        ),
    decreases txs.len(),
{
    if txs.len() == 1 {
        assert(txs.drop_last() =~= Seq::<Transaction>::empty());
        assert(txs.drop_first() =~= Seq::<Transaction>::empty());
        assert(spec_connect_txs_state(s, txs) == spec_connect_txs_state(
            spec_connect_tx_state(s, txs[0]),
            txs.drop_first(),
        ));
        assert(txs.last() == txs[0]);
        assert(spec_connect_txs_state(s, txs.drop_last()) == s);
    } else {
        lemma_connect_txs_snoc(spec_connect_tx_state(s, txs[0]), txs.drop_first());
        assert(txs.drop_first().drop_last() =~= txs.drop_last().drop_first());
        assert(txs.drop_first().last() == txs.last());
        assert(txs.drop_last()[0] == txs[0]);
        assert(txs.drop_last().len() > 0);
        assert(spec_connect_txs_state(s, txs) == spec_connect_txs_state(
            spec_connect_tx_state(s, txs[0]),
            txs.drop_first(),
        ));
        assert(spec_connect_txs_state(s, txs.drop_last()) == spec_connect_txs_state(
            spec_connect_tx_state(s, txs.drop_last()[0]),
            txs.drop_last().drop_first(),
        ));
    }
}

impl StateMachine {
    /// Applies a block to the ledger. The caller has established validity;
    /// freshness of the produced outpoints holds on honest data, where
    /// every key comes from a fresh digest. `try_connect_block` checks
    /// both and is the safe entry point.
    pub fn connect_block(&mut self, header: &Header, body: &Body)
        requires
            old(self).wf(),
            spec_block_struct_ok(old(self)@, *header, *body),
            spec_block_fresh(old(self)@, *header, *body),
        ensures
            final(self).wf(),
            final(self)@ == spec_connect_block(old(self)@, *header, *body),
    {
        let ghost txs = body.transactions@;
        let mut t: usize = 0;
        while t < body.transactions.len()
            invariant
                self.wf(),
                txs == body.transactions@,
                0 <= t <= txs.len(),
                self@ == spec_connect_txs_state(old(self)@, txs.subrange(0, t as int)),
            decreases txs.len() - t,
        {
            let tx = &body.transactions[t];
            let ghost before_tx = self@;
            let mut a: usize = 0;
            while a < tx.inputs.len()
                invariant
                    self.wf(),
                    tx == &body.transactions@[t as int],
                    0 <= a <= tx.inputs@.len(),
                    self@ == spec_remove_unspent(before_tx, tx.inputs@.subrange(0, a as int)),
                decreases tx.inputs@.len() - a,
            {
                self.unspent_outpoints.remove(&tx.inputs[a]);
                proof {
                    assert(tx.inputs@.subrange(0, a + 1).drop_last() =~= tx.inputs@.subrange(
                        0,
                        a as int,
                    ));
                    assert(self@ =~~= spec_remove_unspent(
                        before_tx,
                        tx.inputs@.subrange(0, a + 1),
                    ));
                }
                a += 1;
            }
            proof {
                assert(tx.inputs@.subrange(0, tx.inputs@.len() as int) =~= tx.inputs@);
            }
            let ghost mid = self@;
            let txid = tx.txid();
            let ghost produced = crate::types::spec_tx_produced(*tx);
            let mut b2: usize = 0;
            while b2 < tx.outputs.len()
                invariant
                    self.wf(),
                    tx == &body.transactions@[t as int],
                    txid == crate::codec::spec_txid(*tx),
                    produced == crate::types::spec_tx_produced(*tx),
                    0 <= b2 <= tx.outputs@.len(),
                    self@ == spec_add_pairs_state(mid, produced.subrange(0, b2 as int)),
                decreases tx.outputs@.len() - b2,
            {
                let vout: u32 = #[verifier::truncate] (b2 as u32);
                let op = OutPoint::Regular { txid, vout };
                self.outputs.insert(op, tx.outputs[b2]);
                self.unspent_outpoints.insert(op);
                proof {
                    assert(produced.subrange(0, b2 + 1).drop_last() =~= produced.subrange(
                        0,
                        b2 as int,
                    ));
                    assert(produced[b2 as int] == (op, tx.outputs@[b2 as int]));
                    assert(self@ =~~= spec_add_pairs_state(mid, produced.subrange(0, b2 + 1)));
                }
                b2 += 1;
            }
            proof {
                assert(produced.subrange(0, produced.len() as int) =~= produced);
                assert(self@ == spec_connect_tx_state(before_tx, txs[t as int]));
                lemma_connect_txs_snoc(old(self)@, txs.subrange(0, t + 1));
                assert(txs.subrange(0, t + 1).drop_last() =~= txs.subrange(0, t as int));
                assert(txs.subrange(0, t + 1).last() == txs[t as int]);
            }
            t += 1;
        }
        proof {
            assert(txs.subrange(0, txs.len() as int) =~= txs);
        }
        let ghost after_txs = self@;
        let merkle_root = body.compute_merkle_root();
        let ghost cb = crate::types::spec_coinbase_produced(*body);
        let mut c: usize = 0;
        while c < body.coinbase.len()
            invariant
                self.wf(),
                merkle_root == crate::codec::spec_merkle_root(*body),
                cb == crate::types::spec_coinbase_produced(*body),
                0 <= c <= body.coinbase@.len(),
                self@ == spec_add_pairs_state(after_txs, cb.subrange(0, c as int)),
            decreases body.coinbase@.len() - c,
        {
            let vout: u32 = #[verifier::truncate] (c as u32);
            let op = OutPoint::Coinbase { merkle_root, vout };
            self.outputs.insert(op, body.coinbase[c]);
            self.unspent_outpoints.insert(op);
            proof {
                assert(cb.subrange(0, c + 1).drop_last() =~= cb.subrange(0, c as int));
                assert(cb[c as int] == (op, body.coinbase@[c as int]));
                assert(self@ =~~= spec_add_pairs_state(after_txs, cb.subrange(0, c + 1)));
            }
            c += 1;
        }
        proof {
            assert(cb.subrange(0, cb.len() as int) =~= cb);
        }
        let block_hash = header.hash();
        self.block_order.push(block_hash);
        self.headers.insert(block_hash, *header);
        proof {
            assert(self@ =~~= spec_connect_block(old(self)@, *header, *body));
        }
    }

    /// Undoes a block's effect on the ledger. The caller has established
    /// that the block is the tip and its spent inputs are restorable, as
    /// they are right after the block was connected; `try_disconnect_block`
    /// checks this and is the safe entry point.
    pub fn disconnect_block(&mut self, header: &Header, body: &Body)
        requires
            old(self).wf(),
            spec_disconnect_ok(old(self)@, *header, *body),
        ensures
            final(self).wf(),
            final(self)@ == spec_disconnect_block(old(self)@, *header, *body),
    {
        let block_hash = header.hash();
        self.block_order.pop();
        self.headers.remove(&block_hash);
        let ghost s1 = self@;
        // Remove the coinbase outputs.
        let merkle_root = body.compute_merkle_root();
        let ghost cbk = spec_coinbase_keys(*body);
        let mut c: usize = 0;
        while c < body.coinbase.len()
            invariant
                self.wf(),
                merkle_root == crate::codec::spec_merkle_root(*body),
                cbk == spec_coinbase_keys(*body),
                0 <= c <= body.coinbase@.len(),
                self@ == spec_drop_pairs_state(s1, cbk.subrange(0, c as int)),
            decreases body.coinbase@.len() - c,
        {
            let vout: u32 = #[verifier::truncate] (c as u32);
            let op = OutPoint::Coinbase { merkle_root, vout };
            self.outputs.remove(&op);
            self.unspent_outpoints.remove(&op);
            proof {
                assert(cbk.subrange(0, c + 1).drop_last() =~= cbk.subrange(0, c as int));
                assert(cbk[c as int] == op);
                assert(self@ =~~= spec_drop_pairs_state(s1, cbk.subrange(0, c + 1)));
            }
            c += 1;
        }
        proof {
            assert(cbk.subrange(0, cbk.len() as int) =~= cbk);
        }
        let ghost s2 = self@;
        // Undo the transactions in reverse body order.
        let ghost txs = body.transactions@;
        let mut t: usize = body.transactions.len();
        while t > 0
            invariant
                self.wf(),
                txs == body.transactions@,
                0 <= t <= txs.len(),
                self@ == spec_disconnect_txs_state(s2, txs.subrange(t as int, txs.len() as int)),
            decreases t,
        {
            t -= 1;
            let tx = &body.transactions[t];
            let ghost before_tx = self@;
            let mut a: usize = 0;
            while a < tx.inputs.len()
                invariant
                    self.wf(),
                    tx == &body.transactions@[t as int],
                    0 <= a <= tx.inputs@.len(),
                    self@ == spec_add_unspent(before_tx, tx.inputs@.subrange(0, a as int)),
                decreases tx.inputs@.len() - a,
            {
                self.unspent_outpoints.insert(tx.inputs[a]);
                proof {
                    assert(tx.inputs@.subrange(0, a + 1).drop_last() =~= tx.inputs@.subrange(
                        0,
                        a as int,
                    ));
                    assert(self@ =~~= spec_add_unspent(before_tx, tx.inputs@.subrange(0, a + 1)));
                }
                a += 1;
            }
            proof {
                assert(tx.inputs@.subrange(0, tx.inputs@.len() as int) =~= tx.inputs@);
            }
            let ghost mid = self@;
            let txid = tx.txid();
            let ghost pk = spec_produced_keys(*tx);
            let mut b2: usize = 0;
            while b2 < tx.outputs.len()
                invariant
                    self.wf(),
                    tx == &body.transactions@[t as int],
                    txid == crate::codec::spec_txid(*tx),
                    pk == spec_produced_keys(*tx),
                    0 <= b2 <= tx.outputs@.len(),
                    self@ == spec_drop_pairs_state(mid, pk.subrange(0, b2 as int)),
                decreases tx.outputs@.len() - b2,
            {
                let vout: u32 = #[verifier::truncate] (b2 as u32);
                let op = OutPoint::Regular { txid, vout };
                self.outputs.remove(&op);
                self.unspent_outpoints.remove(&op);
                proof {
                    assert(pk.subrange(0, b2 + 1).drop_last() =~= pk.subrange(0, b2 as int));
                    assert(pk[b2 as int] == op);
                    assert(self@ =~~= spec_drop_pairs_state(mid, pk.subrange(0, b2 + 1)));
                }
                b2 += 1;
            }
            proof {
                assert(pk.subrange(0, pk.len() as int) =~= pk);
                assert(self@ == spec_disconnect_tx_state(before_tx, txs[t as int]));
                assert(txs.subrange(t as int, txs.len() as int).drop_first() =~= txs.subrange(
                    t + 1,
                    txs.len() as int,
                ));
                assert(txs.subrange(t as int, txs.len() as int)[0] == txs[t as int]);
            }
        }
        proof {
            assert(txs.subrange(0, txs.len() as int) =~= txs);
            assert(self@ =~~= spec_disconnect_block(old(self)@, *header, *body));
        }
    }
}

impl StateMachine {
    /// Whether two ledgers hold exactly the same state: the same chain in
    /// the same order, the same headers, the same outputs and the same
    /// unspent set.
    pub fn state_eq(&self, other: &StateMachine) -> (r: bool)
        requires
            self.wf(),
            other.wf(),
        ensures
            r == (self@ == other@),
    {
        if self.block_order.len() != other.block_order.len() {
            proof {
                assert(self@.block_order.len() != other@.block_order.len());
            }
            return false;
        }
        let mut i: usize = 0;
        while i < self.block_order.len()
            invariant
                self@.block_order.len() == other@.block_order.len(),
                0 <= i <= self@.block_order.len(),
                forall|j: int| 0 <= j < i ==> self@.block_order[j] == other@.block_order[j],
            decreases self@.block_order.len() - i,
        {
            if !self.block_order[i].eq_hash(&other.block_order[i]) {
                proof {
                    assert(self@.block_order[i as int] != other@.block_order[i as int]);
                }
                return false;
            }
            i += 1;
        }
        assert(self@.block_order =~= other@.block_order);
        if !self.headers.map_eq(&other.headers) {
            return false;
        }
        if !self.outputs.map_eq(&other.outputs) {
            return false;
        }
        if !self.unspent_outpoints.set_eq(&other.unspent_outpoints) {
            return false;
        }
        proof {
            assert(self@ =~~= other@);
        }
        true
    }
}

impl Default for StateMachine {
    /// The empty ledger.
    fn default() -> (r: StateMachine)
        ensures
            r.wf(),
            r@.block_order == Seq::<BlockHash>::empty(),
            r@.headers == Map::<BlockHash, Header>::empty(),
            r@.outputs == Map::<OutPoint, Output>::empty(),
            r@.unspent == Set::<OutPoint>::empty(),
    {
        StateMachine::new()
    }
}

/// Whether some pair of `pairs` carries the key `k`.
fn pairs_contain_key(pairs: &Vec<(OutPoint, Output)>, k: &OutPoint) -> (r: bool)
    ensures
        r == crate::collections::seq_has_key(pairs@, *k),
{
    let mut i: usize = 0;
    while i < pairs.len()
        invariant
            0 <= i <= pairs@.len(),
            forall|j: int| 0 <= j < i ==> (#[trigger] pairs@[j]).0 != *k,
        decreases pairs@.len() - i,
    {
        if pairs[i].0.eq_point(k) {
            assert(crate::collections::seq_has_key(pairs@, *k));
            return true;
        }
        i += 1;
    }
    proof {
        if crate::collections::seq_has_key(pairs@, *k) {
            let j = choose|j: int| 0 <= j < pairs@.len() && (#[trigger] pairs@[j]).0 == *k;
            assert(false);
        }
    }
    false
}

impl StateMachine {
    /// Whether every outpoint the block would create is new to the ledger,
    /// the outpoints are mutually distinct, and the block hash names no
    /// committed header. On honest data this always holds.
    fn check_block_fresh(&self, header: &Header, body: &Body) -> (r: bool)
        requires
            self.wf(),
        ensures
            r == spec_block_fresh(self@, *header, *body),
    {
        let block_hash = header.hash();
        if self.headers.contains_key(&block_hash) {
            assert(!spec_block_fresh(self@, *header, *body));
            return false;
        }
        let produced = body.get_outputs();
        let mut i: usize = 0;
        while i < produced.len()
            invariant
                self.wf(),
                produced@ == crate::types::spec_body_produced(*body),
                !self@.headers.contains_key(spec_block_hash(*header)),
                0 <= i <= produced@.len(),
                forall|a: int, b: int| 0 <= a < b < i ==> (#[trigger] produced@[a]).0 != (
                #[trigger] produced@[b]).0,
                forall|a: int|
                    0 <= a < i ==> !self@.outputs.contains_key((#[trigger] produced@[a]).0),
            decreases produced@.len() - i,
        {
            let key = produced[i].0;
            if self.outputs.contains_key(&key) {
                return false;
            }
            let mut j: usize = 0;
            while j < i
                invariant
                    produced@ == crate::types::spec_body_produced(*body),
                    0 <= j <= i < produced@.len(),
                    key == produced@[i as int].0,
                    forall|a: int| 0 <= a < j ==> (#[trigger] produced@[a]).0 != key,
                decreases i - j,
            {
                if produced[j].0.eq_point(&key) {
                    return false;
                }
                j += 1;
            }
            i += 1;
        }
        true
    }

    /// Validates a block and, when it passes and its produced outpoints
    /// are new to the ledger, connects it.
    ///
    /// `Ok(true)`: the block was connected. `Ok(false)`: the block is
    /// structurally valid but some outpoint it creates, or its hash,
    /// collides with the existing ledger — which honest digests never
    /// produce — and the state is unchanged. `Err`: validation failed and
    /// the state is unchanged.
    pub fn try_connect_block(&mut self, header: &Header, body: &Body) -> (r: Result<bool, Error>)
        requires
            old(self).wf(),
        ensures
            final(self).wf(),
            match r {
                Ok(true) => spec_block_struct_ok(old(self)@, *header, *body) && spec_block_fresh(
                    old(self)@,
                    *header,
                    *body,
                ) && final(self)@ == spec_connect_block(old(self)@, *header, *body),
                Ok(false) => final(self)@ == old(self)@ && spec_block_struct_ok(
                    old(self)@,
                    *header,
                    *body,
                ) && !spec_block_fresh(old(self)@, *header, *body),
                Err(e) => final(self)@ == old(self)@ && spec_block_error_witness(
                    old(self)@,
                    *header,
                    *body,
                    e,
                ),
            },
            spec_block_struct_ok(old(self)@, *header, *body)
                && crate::authorization::spec_txs_sigs_valid(body.transactions@)
                && spec_block_fresh(old(self)@, *header, *body) ==> (r matches Ok(true)),
    {
        match self.validate_block(header, body) {
            Ok(()) => {},
            Err(e) => {
                return Err(e);
            },
        }
        if !self.check_block_fresh(header, body) {
            return Ok(false);
        }
        self.connect_block(header, body);
        Ok(true)
    }

    /// Checks that the block is the current tip and that every input its
    /// body spent can be restored — each is either produced by a
    /// transaction at or before its spender in the same body, or a known
    /// output the body did not produce — and then disconnects it,
    /// restoring the prior state, same-body chaining included. Returns
    /// whether the checks passed; when they fail, the state is unchanged.
    pub fn try_disconnect_block(&mut self, header: &Header, body: &Body) -> (r: bool)
        requires
            old(self).wf(),
        ensures
            final(self).wf(),
            r ==> spec_disconnect_ok(old(self)@, *header, *body) && final(self)@
                == spec_disconnect_block(old(self)@, *header, *body),
            !r ==> final(self)@ == old(self)@ && !spec_disconnect_ok(old(self)@, *header, *body),
    {
        let block_hash = header.hash();
        if self.block_order.len() == 0 {
            return false;
        }
        if !self.block_order[self.block_order.len() - 1].eq_hash(&block_hash) {
            return false;
        }
        let produced = body.get_outputs();
        let produced_keys = produced_keys_per_tx(&body.transactions);
        let mut j: usize = 0;
        while j < body.transactions.len()
            invariant
                self.wf(),
                self@ == old(self)@,
                self@.block_order.len() > 0,
                self@.block_order.last() == spec_block_hash(*header),
                produced@ == crate::types::spec_body_produced(*body),
                produced_keys@.len() == body.transactions@.len(),
                forall|i: int|
                    0 <= i < produced_keys@.len() ==> (#[trigger] produced_keys@[i])@
                        == spec_produced_keys(body.transactions@[i]),
                0 <= j <= body.transactions@.len(),
                forall|a: int, q: int|
                    0 <= a < j && 0 <= q < body.transactions@[a].inputs@.len()
                        ==> spec_input_restorable(
                        self@,
                        *body,
                        a,
                        (#[trigger] body.transactions@[a].inputs@[q]),
                    ),
            decreases body.transactions@.len() - j,
        {
            let tx = &body.transactions[j];
            let mut q: usize = 0;
            while q < tx.inputs.len()
                invariant
                    self.wf(),
                    self@ == old(self)@,
                    tx == &body.transactions@[j as int],
                    0 <= j < body.transactions@.len(),
                    produced@ == crate::types::spec_body_produced(*body),
                    produced_keys@.len() == body.transactions@.len(),
                    forall|i: int|
                        0 <= i < produced_keys@.len() ==> (#[trigger] produced_keys@[i])@
                            == spec_produced_keys(body.transactions@[i]),
                    0 <= q <= tx.inputs@.len(),
                    forall|p: int|
                        0 <= p < q ==> spec_input_restorable(
                            self@,
                            *body,
                            j as int,
                            (#[trigger] tx.inputs@[p]),
                        ),
                decreases tx.inputs@.len() - q,
            {
                let input = tx.inputs[q];
                if !produced_at_or_before(
                    &produced_keys,
                    Ghost(body.transactions@),
                    j,
                    &input,
                ) {
                    if !self.outputs.contains_key(&input) {
                        proof {
                            assert(!spec_input_restorable(self@, *body, j as int, input));
                            assert(!spec_disconnect_ok(self@, *header, *body));
                        }
                        return false;
                    }
                    if pairs_contain_key(&produced, &input) {
                        proof {
                            assert(!spec_input_restorable(self@, *body, j as int, input));
                            assert(!spec_disconnect_ok(self@, *header, *body));
                        }
                        return false;
                    }
                }
                q += 1;
            }
            j += 1;
        }
        proof {
            assert(spec_disconnect_ok(self@, *header, *body));
        }
        self.disconnect_block(header, body);
        true
    }
}

/// Whether `keys` holds the outpoint `k`.
fn keys_contain(keys: &Vec<OutPoint>, k: &OutPoint) -> (r: bool)
    ensures
        r == keys@.contains(*k),
{
    let mut i: usize = 0;
    while i < keys.len()
        invariant
            0 <= i <= keys@.len(),
            forall|a: int| 0 <= a < i ==> keys@[a] != *k,
        decreases keys@.len() - i,
    {
        if keys[i].eq_point(k) {
            assert(keys@.contains(*k));
            return true;
        }
        i += 1;
    }
    proof {
        if keys@.contains(*k) {
            let a = choose|a: int| 0 <= a < keys@.len() && keys@[a] == *k;
            assert(false);
        }
    }
    false
}

/// The produced keys of each transaction, in body order.
fn produced_keys_per_tx(transactions: &Vec<Transaction>) -> (r: Vec<Vec<OutPoint>>)
    ensures
        r@.len() == transactions@.len(),
        forall|i: int|
            0 <= i < r@.len() ==> (#[trigger] r@[i])@ == spec_produced_keys(transactions@[i]),
{
    let mut r: Vec<Vec<OutPoint>> = Vec::new();
    let mut t: usize = 0;
    while t < transactions.len()
        invariant
            0 <= t <= transactions@.len(),
            r@.len() == t,
            forall|i: int|
                0 <= i < t ==> (#[trigger] r@[i])@ == spec_produced_keys(transactions@[i]),
        decreases transactions@.len() - t,
    {
        let tx = &transactions[t];
        let txid = tx.txid();
        let mut keys: Vec<OutPoint> = Vec::new();
        let mut v: usize = 0;
        while v < tx.outputs.len()
            invariant
                tx == &transactions@[t as int],
                txid == crate::codec::spec_txid(*tx),
                0 <= v <= tx.outputs@.len(),
                keys@.len() == v,
                forall|u: int| 0 <= u < v ==> keys@[u] == spec_produced_keys(*tx)[u],
            decreases tx.outputs@.len() - v,
        {
            let vout: u32 = #[verifier::truncate] (v as u32);
            keys.push(OutPoint::Regular { txid, vout });
            v += 1;
        }
        assert(keys@ =~= spec_produced_keys(*tx));
        r.push(keys);
        t += 1;
    }
    r
}

/// Whether any transaction at or before position `j` produces `k`.
fn produced_at_or_before(
    produced_keys: &Vec<Vec<OutPoint>>,
    Ghost(txs): Ghost<Seq<Transaction>>,
    j: usize,
    k: &OutPoint,
) -> (r: bool)
    requires
        produced_keys@.len() == txs.len(),
        j < txs.len(),
        forall|i: int|
            0 <= i < txs.len() ==> (#[trigger] produced_keys@[i])@ == spec_produced_keys(txs[i]),
    ensures
        r == spec_some_tx_produces(txs.subrange(0, j + 1), *k),
{
    let n = produced_keys.len();
    let mut i: usize = 0;
    while i <= j
        invariant
            n == produced_keys@.len(),
            produced_keys@.len() == txs.len(),
            j < n,
            forall|a: int|
                0 <= a < txs.len() ==> (#[trigger] produced_keys@[a])@ == spec_produced_keys(
                    txs[a],
                ),
            0 <= i <= j + 1,
            forall|a: int| 0 <= a < i ==> !(#[trigger] produced_keys@[a])@.contains(*k),
        decreases j + 1 - i,
    {
        if keys_contain(&produced_keys[i], k) {
            proof {
                lemma_produced_keys_match(txs[i as int]);
                assert(crate::collections::seq_has_key(
                    crate::types::spec_tx_produced(txs[i as int]),
                    *k,
                ));
                let u = choose|u: int|
                    0 <= u < crate::types::spec_tx_produced(txs[i as int]).len() && (
                    #[trigger] crate::types::spec_tx_produced(txs[i as int])[u]).0 == *k;
                let sub = txs.subrange(0, j + 1);
                assert(sub[i as int] == txs[i as int]);
                assert(crate::types::spec_tx_produced(sub[i as int])[u].0 == *k);
                assert(spec_some_tx_produces(sub, *k));
            }
            return true;
        }
        i += 1;
    }
    proof {
        if spec_some_tx_produces(txs.subrange(0, j + 1), *k) {
            let sub = txs.subrange(0, j + 1);
            let (a, u) = choose|a: int, u: int|
                0 <= a < sub.len() && 0 <= u < crate::types::spec_tx_produced(sub[a]).len() && (
                #[trigger] crate::types::spec_tx_produced(sub[a])[u]).0 == *k;
            assert(sub[a] == txs[a]);
            lemma_produced_keys_match(txs[a]);
            assert(produced_keys@[a]@.contains(*k)) by {
                assert(spec_produced_keys(txs[a]).contains(*k));
            }
            assert(false);
        }
    }
    false
}

/// The effect of ingesting one main-chain block: deposits enter unspent,
/// confirmed withdrawals leave the unspent set, reorg-reverted withdrawals
/// re-enter it.
pub open spec fn spec_connect_main(
    s: StateView,
    deposits: Seq<(OutPoint, Output)>,
    locked: Seq<OutPoint>,
    unlocked: Seq<(OutPoint, Output)>,
) -> StateView {
    spec_add_pairs_state(spec_remove_unspent(spec_add_pairs_state(s, deposits), locked), unlocked)
}

/// The inverse of `spec_connect_main`, applied to the same main-chain
/// block's data.
pub open spec fn spec_disconnect_main(
    s: StateView,
    deposit_outpoints: Seq<OutPoint>,
    locked: Seq<(OutPoint, Output)>,
    unlocked: Seq<OutPoint>,
) -> StateView {
    spec_remove_unspent(spec_add_pairs_state(spec_drop_pairs_state(s, deposit_outpoints), locked), unlocked)
}

/// The set of keys a pair sequence carries.
pub open spec fn spec_pairs_key_set(ps: Seq<(OutPoint, Output)>) -> Set<OutPoint> {
    Set::new(|k: OutPoint| crate::collections::seq_has_key(ps, k))
}

/// What adding pairs does to each state component.
pub proof fn lemma_add_pairs_char(s: StateView, ps: Seq<(OutPoint, Output)>)
    ensures
        spec_add_pairs_state(s, ps).block_order == s.block_order,
        spec_add_pairs_state(s, ps).headers == s.headers,
        spec_add_pairs_state(s, ps).outputs == spec_insert_pairs(s.outputs, ps),
        spec_add_pairs_state(s, ps).unspent == s.unspent.union(spec_pairs_key_set(ps)),
    decreases ps.len(),
{
    if ps.len() == 0 {
        assert(s.unspent.union(spec_pairs_key_set(ps)) =~= s.unspent);
    } else {
        lemma_add_pairs_char(s, ps.drop_last());
        crate::collections::lemma_seq_has_key_snoc(ps);
        assert(spec_add_pairs_state(s, ps).unspent =~= s.unspent.union(spec_pairs_key_set(ps)));
    }
}

/// What removing unspent outpoints does to each state component.
pub proof fn lemma_remove_unspent_char(s: StateView, ops: Seq<OutPoint>)
    ensures
        spec_remove_unspent(s, ops).block_order == s.block_order,
        spec_remove_unspent(s, ops).headers == s.headers,
        spec_remove_unspent(s, ops).outputs == s.outputs,
        spec_remove_unspent(s, ops).unspent == s.unspent.difference(ops.to_set()),
    decreases ops.len(),
{
    if ops.len() == 0 {
        assert(s.unspent.difference(ops.to_set()) =~= s.unspent);
    } else {
        lemma_remove_unspent_char(s, ops.drop_last());
        assert(ops.drop_last().push(ops.last()) =~= ops);
        assert forall|k: OutPoint| #[trigger] ops.to_set().contains(k) <==> (ops.drop_last()
            .to_set().contains(k) || ops.last() == k) by {
            if ops.contains(k) {
                let i = choose|i: int| 0 <= i < ops.len() && ops[i] == k;
                if i < ops.len() - 1 {
                    assert(ops.drop_last()[i] == k);
                }
            }
            if ops.drop_last().contains(k) {
                let i = choose|i: int| 0 <= i < ops.drop_last().len() && ops.drop_last()[i] == k;
                assert(ops[i] == k);
            }
            if ops.last() == k {
                assert(ops[ops.len() - 1] == k);
            }
        }
        assert(spec_remove_unspent(s, ops).unspent =~= s.unspent.difference(ops.to_set()));
    }
}

/// What inserting unspent outpoints does to each state component.
pub proof fn lemma_add_unspent_char(s: StateView, ops: Seq<OutPoint>)
    ensures
        spec_add_unspent(s, ops).block_order == s.block_order,
        spec_add_unspent(s, ops).headers == s.headers,
        spec_add_unspent(s, ops).outputs == s.outputs,
        spec_add_unspent(s, ops).unspent == s.unspent.union(ops.to_set()),
    decreases ops.len(),
{
    if ops.len() == 0 {
        assert(s.unspent.union(ops.to_set()) =~= s.unspent);
    } else {
        lemma_add_unspent_char(s, ops.drop_last());
        assert forall|k: OutPoint| #[trigger] ops.to_set().contains(k) <==> (ops.drop_last()
            .to_set().contains(k) || ops.last() == k) by {
            if ops.contains(k) {
                let i = choose|i: int| 0 <= i < ops.len() && ops[i] == k;
                if i < ops.len() - 1 {
                    assert(ops.drop_last()[i] == k);
                }
            }
            if ops.drop_last().contains(k) {
                let i = choose|i: int| 0 <= i < ops.drop_last().len() && ops.drop_last()[i] == k;
                assert(ops[i] == k);
            }
            if ops.last() == k {
                assert(ops[ops.len() - 1] == k);
            }
        }
        assert(spec_add_unspent(s, ops).unspent =~= s.unspent.union(ops.to_set()));
    }
}

/// What dropping outpoints from both stores does to each state component.
pub proof fn lemma_drop_pairs_char(s: StateView, ops: Seq<OutPoint>)
    ensures
        spec_drop_pairs_state(s, ops).block_order == s.block_order,
        spec_drop_pairs_state(s, ops).headers == s.headers,
        spec_drop_pairs_state(s, ops).outputs == s.outputs.remove_keys(ops.to_set()),
        spec_drop_pairs_state(s, ops).unspent == s.unspent.difference(ops.to_set()),
    decreases ops.len(),
{
    if ops.len() == 0 {
        assert(s.outputs.remove_keys(ops.to_set()) =~= s.outputs);
        assert(s.unspent.difference(ops.to_set()) =~= s.unspent);
    } else {
        lemma_drop_pairs_char(s, ops.drop_last());
        assert forall|k: OutPoint| #[trigger] ops.to_set().contains(k) <==> (ops.drop_last()
            .to_set().contains(k) || ops.last() == k) by {
            if ops.contains(k) {
                let i = choose|i: int| 0 <= i < ops.len() && ops[i] == k;
                if i < ops.len() - 1 {
                    assert(ops.drop_last()[i] == k);
                }
            }
            if ops.drop_last().contains(k) {
                let i = choose|i: int| 0 <= i < ops.drop_last().len() && ops.drop_last()[i] == k;
                assert(ops[i] == k);
            }
            if ops.last() == k {
                assert(ops[ops.len() - 1] == k);
            }
        }
        assert(spec_drop_pairs_state(s, ops).outputs =~= s.outputs.remove_keys(ops.to_set()));
        assert(spec_drop_pairs_state(s, ops).unspent =~= s.unspent.difference(ops.to_set()));
    }
}

/// Inserting a concatenation of pair sequences is inserting each in turn.
pub proof fn lemma_insert_pairs_concat(
    m: Map<OutPoint, Output>,
    a: Seq<(OutPoint, Output)>,
    b: Seq<(OutPoint, Output)>,
)
    ensures
        spec_insert_pairs(m, a + b) == spec_insert_pairs(spec_insert_pairs(m, a), b),
    decreases b.len(),
{
    if b.len() == 0 {
        assert(a + b =~= a);
    } else {
        lemma_insert_pairs_concat(m, a, b.drop_last());
        assert((a + b).drop_last() =~= a + b.drop_last());
        assert((a + b).last() == b.last());
        assert((a + b).len() > 0);
    }
}

/// A transaction sequence's produced pairs, peeled at the front.
pub proof fn lemma_txs_produced_cons(txs: Seq<Transaction>)
    requires
        txs.len() > 0,
    ensures
        crate::types::spec_txs_produced(txs) == crate::types::spec_tx_produced(txs[0])
            + crate::types::spec_txs_produced(txs.drop_first()),
    decreases txs.len(),
{
    if txs.len() == 1 {
        assert(txs.drop_last() =~= Seq::<Transaction>::empty());
        assert(txs.drop_first() =~= Seq::<Transaction>::empty());
        assert(txs.last() == txs[0]);
        assert(crate::types::spec_tx_produced(txs[0]) + crate::types::spec_txs_produced(
            txs.drop_first(),
        ) =~= crate::types::spec_tx_produced(txs[0]));
        assert(crate::types::spec_txs_produced(txs.drop_last()) + crate::types::spec_tx_produced(
            txs.last(),
        ) =~= crate::types::spec_tx_produced(txs[0]));
    } else {
        lemma_txs_produced_cons(txs.drop_last());
        assert(txs.drop_last()[0] == txs[0]);
        assert(txs.drop_last().drop_first() =~= txs.drop_first().drop_last());
        assert(txs.drop_first().last() == txs.last());
        assert(txs.drop_first().len() > 0);
        assert(crate::types::spec_txs_produced(txs.drop_first())
            == crate::types::spec_txs_produced(txs.drop_first().drop_last())
            + crate::types::spec_tx_produced(txs.drop_first().last()));
        assert(crate::types::spec_txs_produced(txs) == (crate::types::spec_tx_produced(txs[0])
            + crate::types::spec_txs_produced(txs.drop_first().drop_last()))
            + crate::types::spec_tx_produced(txs.last()));
        assert((crate::types::spec_tx_produced(txs[0]) + crate::types::spec_txs_produced(
            txs.drop_first().drop_last(),
        )) + crate::types::spec_tx_produced(txs.last()) =~= crate::types::spec_tx_produced(txs[0])
            + (crate::types::spec_txs_produced(txs.drop_first().drop_last())
            + crate::types::spec_tx_produced(txs.last())));
    }
}

/// What connecting one transaction does to each state component, and that
/// it keeps the ledger invariant.
pub proof fn lemma_connect_tx_char(s: StateView, tx: Transaction)
    ensures
        spec_connect_tx_state(s, tx).block_order == s.block_order,
        spec_connect_tx_state(s, tx).headers == s.headers,
        spec_connect_tx_state(s, tx).outputs == spec_insert_pairs(
            s.outputs,
            crate::types::spec_tx_produced(tx),
        ),
        spec_connect_tx_state(s, tx).unspent == s.unspent.difference(tx.inputs@.to_set()).union(
            spec_pairs_key_set(crate::types::spec_tx_produced(tx)),
        ),
        spec_state_inv(s) ==> spec_state_inv(spec_connect_tx_state(s, tx)),
{
    let p = crate::types::spec_tx_produced(tx);
    lemma_remove_unspent_char(s, tx.inputs@);
    lemma_add_pairs_char(spec_remove_unspent(s, tx.inputs@), p);
    if spec_state_inv(s) {
        lemma_insert_pairs_props(s.outputs, p);
        assert forall|k: OutPoint|
            spec_connect_tx_state(s, tx).unspent.contains(k) implies spec_connect_tx_state(
            s,
            tx,
        ).outputs.dom().contains(k) by {
            if spec_pairs_key_set(p).contains(k) {
                assert(spec_insert_pairs(s.outputs, p).contains_key(k));
            } else {
                assert(s.unspent.contains(k));
                assert(s.outputs.contains_key(k));
                assert(spec_insert_pairs(s.outputs, p).contains_key(k));
            }
        }
    }
}

/// What connecting a transaction sequence does: the outputs gain every
/// produced pair, the chain and headers are untouched, and the ledger
/// invariant is preserved.
pub proof fn lemma_connect_txs_frame(s: StateView, txs: Seq<Transaction>)
    ensures
        spec_connect_txs_state(s, txs).block_order == s.block_order,
        spec_connect_txs_state(s, txs).headers == s.headers,
        spec_connect_txs_state(s, txs).outputs == spec_insert_pairs(
            s.outputs,
            crate::types::spec_txs_produced(txs),
        ),
        spec_state_inv(s) ==> spec_state_inv(spec_connect_txs_state(s, txs)),
    decreases txs.len(),
{
    if txs.len() == 0 {
        assert(spec_insert_pairs(s.outputs, crate::types::spec_txs_produced(txs)) == s.outputs);
    } else {
        let s1 = spec_connect_tx_state(s, txs[0]);
        lemma_connect_tx_char(s, txs[0]);
        lemma_connect_txs_frame(s1, txs.drop_first());
        lemma_txs_produced_cons(txs);
        lemma_insert_pairs_concat(
            s.outputs,
            crate::types::spec_tx_produced(txs[0]),
            crate::types::spec_txs_produced(txs.drop_first()),
        );
    }
}

/// Connecting a transaction and then looking at the available view gives
/// the staged step applied to the previous available view.
pub proof fn lemma_avail_connect_tx(s: StateView, tx: Transaction)
    requires
        spec_state_inv(s),
        spec_inputs_avail(spec_avail(s), tx.inputs@),
        forall|i: int, j: int|
            0 <= i < j < crate::types::spec_tx_produced(tx).len()
                ==> crate::types::spec_tx_produced(tx)[i].0 != crate::types::spec_tx_produced(
                tx,
            )[j].0,
        forall|i: int|
            0 <= i < crate::types::spec_tx_produced(tx).len() ==> !s.outputs.contains_key(
                (#[trigger] crate::types::spec_tx_produced(tx)[i]).0,
            ),
    ensures
        spec_avail(spec_connect_tx_state(s, tx)) == spec_apply_tx(spec_avail(s), tx),
{
    let p = crate::types::spec_tx_produced(tx);
    let iset = tx.inputs@.to_set();
    let lhs = spec_avail(spec_connect_tx_state(s, tx));
    let rhs = spec_apply_tx(spec_avail(s), tx);
    lemma_connect_tx_char(s, tx);
    lemma_insert_pairs_props(s.outputs, p);
    lemma_insert_pairs_props(spec_avail(s).remove_keys(iset), p);
    assert forall|k: OutPoint| #[trigger] lhs.contains_key(k) implies rhs.contains_key(k) && lhs[k]
        == rhs[k] by {
        if crate::collections::seq_has_key(p, k) {
            let i = choose|i: int| 0 <= i < p.len() && (#[trigger] p[i]).0 == k;
            assert(lhs[k] == p[i].1);
            assert(rhs.contains_key(k) && rhs[k] == p[i].1);
        } else {
            assert(s.outputs.contains_key(k) && s.unspent.contains(k) && !iset.contains(k));
            assert(spec_avail(s).contains_key(k));
            assert(spec_avail(s).remove_keys(iset).contains_key(k));
            assert(rhs.contains_key(k));
            assert(rhs[k] == spec_avail(s)[k]);
            assert(lhs[k] == s.outputs[k]);
        }
    }
    assert forall|k: OutPoint| #[trigger] rhs.contains_key(k) implies lhs.contains_key(k) by {
        if crate::collections::seq_has_key(p, k) {
            assert(spec_insert_pairs(s.outputs, p).contains_key(k));
            assert(spec_pairs_key_set(p).contains(k));
            assert(spec_connect_tx_state(s, tx).unspent.contains(k));
        } else {
            assert(spec_avail(s).remove_keys(iset).contains_key(k));
            assert(s.outputs.contains_key(k) && s.unspent.contains(k) && !iset.contains(k));
            assert(spec_insert_pairs(s.outputs, p).contains_key(k));
            assert(spec_connect_tx_state(s, tx).unspent.contains(k));
        }
    }
    assert(lhs =~= rhs);
}

/// Disconnecting a transaction right after connecting it restores the
/// state exactly.
pub proof fn lemma_disconnect_connect_tx(s: StateView, tx: Transaction)
    requires
        spec_state_inv(s),
        spec_inputs_avail(spec_avail(s), tx.inputs@),
        forall|i: int, j: int|
            0 <= i < j < crate::types::spec_tx_produced(tx).len()
                ==> crate::types::spec_tx_produced(tx)[i].0 != crate::types::spec_tx_produced(
                tx,
            )[j].0,
        forall|i: int|
            0 <= i < crate::types::spec_tx_produced(tx).len() ==> !s.outputs.contains_key(
                (#[trigger] crate::types::spec_tx_produced(tx)[i]).0,
            ),
    ensures
        spec_disconnect_tx_state(spec_connect_tx_state(s, tx), tx) == s,
{
    let p = crate::types::spec_tx_produced(tx);
    let pk = spec_produced_keys(tx);
    let iset = tx.inputs@.to_set();
    let s1 = spec_connect_tx_state(s, tx);
    lemma_connect_tx_char(s, tx);
    lemma_add_unspent_char(s1, tx.inputs@);
    lemma_drop_pairs_char(spec_add_unspent(s1, tx.inputs@), pk);
    lemma_insert_pairs_props(s.outputs, p);
    assert forall|k: OutPoint| #[trigger] pk.to_set().contains(k) <==> spec_pairs_key_set(
        p,
    ).contains(k) by {
        if pk.contains(k) {
            let i = choose|i: int| 0 <= i < pk.len() && pk[i] == k;
            assert(p[i].0 == k);
            assert(crate::collections::seq_has_key(p, k));
        }
        if crate::collections::seq_has_key(p, k) {
            let i = choose|i: int| 0 <= i < p.len() && (#[trigger] p[i]).0 == k;
            assert(pk[i] == k);
            assert(pk.contains(k));
        }
    }
    let kp = spec_pairs_key_set(p);
    // Inputs are unspent, so they are known outputs and none is freshly
    // produced.
    assert forall|k: OutPoint| #[trigger] iset.contains(k) implies s.unspent.contains(k)
        && s.outputs.contains_key(k) && !kp.contains(k) by {
        let i = choose|i: int| 0 <= i < tx.inputs@.len() && tx.inputs@[i] == k;
        assert(spec_avail(s).contains_key(tx.inputs@[i]));
        if kp.contains(k) {
            let j = choose|j: int| 0 <= j < p.len() && (#[trigger] p[j]).0 == k;
            assert(!s.outputs.contains_key(k));
        }
    }
    // The produced keys never belonged to the ledger.
    assert forall|k: OutPoint| #[trigger] kp.contains(k) implies !s.outputs.contains_key(k)
        && !s.unspent.contains(k) by {
        let j = choose|j: int| 0 <= j < p.len() && (#[trigger] p[j]).0 == k;
    }
    let d = spec_disconnect_tx_state(s1, tx);
    assert(d.outputs =~= s.outputs) by {
        assert forall|k: OutPoint| #[trigger] d.outputs.contains_key(k) implies s.outputs
            .contains_key(k) && d.outputs[k] == s.outputs[k] by {
            assert(!kp.contains(k));
            assert(spec_insert_pairs(s.outputs, p).contains_key(k));
            assert(spec_insert_pairs(s.outputs, p)[k] == s.outputs[k]);
        }
        assert forall|k: OutPoint| #[trigger] s.outputs.contains_key(k) implies d.outputs
            .contains_key(k) by {
            assert(!kp.contains(k));
            assert(spec_insert_pairs(s.outputs, p).contains_key(k));
        }
    }
    assert(d.unspent =~= s.unspent) by {
        assert forall|k: OutPoint| #[trigger] d.unspent.contains(k) implies s.unspent.contains(
            k,
        ) by {}
        assert forall|k: OutPoint| #[trigger] s.unspent.contains(k) implies d.unspent.contains(
            k,
        ) by {
            assert(!kp.contains(k));
            if iset.contains(k) {
            } else {
                assert(s1.unspent.contains(k));
            }
        }
    }
    assert(d =~~= s);
}

/// Disconnecting a body's transactions right after connecting them
/// restores the state exactly.
pub proof fn lemma_disconnect_connect_txs(s: StateView, txs: Seq<Transaction>)
    requires
        spec_state_inv(s),
        spec_staged_ok(spec_avail(s), txs),
        forall|i: int, j: int|
            0 <= i < j < crate::types::spec_txs_produced(txs).len()
                ==> crate::types::spec_txs_produced(txs)[i].0 != crate::types::spec_txs_produced(
                txs,
            )[j].0,
        forall|i: int|
            0 <= i < crate::types::spec_txs_produced(txs).len() ==> !s.outputs.contains_key(
                (#[trigger] crate::types::spec_txs_produced(txs)[i]).0,
            ),
    ensures
        spec_disconnect_txs_state(spec_connect_txs_state(s, txs), txs) == s,
    decreases txs.len(),
{
    if txs.len() > 0 {
        let t0 = txs[0];
        let p0 = crate::types::spec_tx_produced(t0);
        let rest = txs.drop_first();
        let restp = crate::types::spec_txs_produced(rest);
        lemma_txs_produced_cons(txs);
        // Transfer the freshness facts to the head and the tail.
        assert forall|i: int, j: int| 0 <= i < j < p0.len() implies p0[i].0 != p0[j].0 by {
            assert(crate::types::spec_txs_produced(txs)[i] == p0[i]);
            assert(crate::types::spec_txs_produced(txs)[j] == p0[j]);
        }
        assert forall|i: int| 0 <= i < p0.len() implies !s.outputs.contains_key(
            (#[trigger] p0[i]).0,
        ) by {
            assert(crate::types::spec_txs_produced(txs)[i] == p0[i]);
        }
        // The head resolves against the available view.
        assert(spec_inputs_avail(spec_avail(s), t0.inputs@));
        let s1 = spec_connect_tx_state(s, t0);
        lemma_connect_tx_char(s, t0);
        lemma_avail_connect_tx(s, t0);
        lemma_insert_pairs_props(s.outputs, p0);
        // The tail's produced keys are fresh for the new state too.
        assert forall|i: int, j: int| 0 <= i < j < restp.len() implies restp[i].0 != restp[j].0 by {
            assert(crate::types::spec_txs_produced(txs)[p0.len() + i] == restp[i]);
            assert(crate::types::spec_txs_produced(txs)[p0.len() + j] == restp[j]);
        }
        assert forall|i: int| 0 <= i < restp.len() implies !s1.outputs.contains_key(
            (#[trigger] restp[i]).0,
        ) by {
            assert(crate::types::spec_txs_produced(txs)[p0.len() + i] == restp[i]);
            assert(!s.outputs.contains_key(restp[i].0));
            if crate::collections::seq_has_key(p0, restp[i].0) {
                let j = choose|j: int| 0 <= j < p0.len() && (#[trigger] p0[j]).0 == restp[i].0;
                assert(crate::types::spec_txs_produced(txs)[j] == p0[j]);
                assert(crate::types::spec_txs_produced(txs)[j].0 == crate::types::spec_txs_produced(
                    txs,
                )[p0.len() + i].0);
                assert(false);
            }
        }
        lemma_disconnect_connect_txs(s1, rest);
        assert(spec_connect_txs_state(s, txs) == spec_connect_txs_state(s1, rest));
        assert(spec_disconnect_txs_state(spec_connect_txs_state(s1, rest), txs)
            == spec_disconnect_tx_state(
            spec_disconnect_txs_state(spec_connect_txs_state(s1, rest), rest),
            t0,
        ));
        lemma_disconnect_connect_tx(s, t0);
    }
}

/// Law: disconnecting a block immediately after connecting it restores
/// the exact prior state — every component of the ledger is equal again.
pub proof fn lemma_connect_then_disconnect(s: StateView, h: Header, b: Body)
    requires
        spec_state_inv(s),
        spec_block_struct_ok(s, h, b),
        spec_block_fresh(s, h, b),
    ensures
        spec_disconnect_block(spec_connect_block(s, h, b), h, b) == s,
{
    let txs = b.transactions@;
    let cbp = crate::types::spec_coinbase_produced(b);
    let txp = crate::types::spec_txs_produced(txs);
    let bp = crate::types::spec_body_produced(b);
    let bh = spec_block_hash(h);
    let cbk = spec_coinbase_keys(b);
    // Split the freshness facts between the coinbase and the transactions.
    assert forall|i: int, j: int| 0 <= i < j < txp.len() implies txp[i].0 != txp[j].0 by {
        assert(bp[cbp.len() + i] == txp[i]);
        assert(bp[cbp.len() + j] == txp[j]);
    }
    assert forall|i: int| 0 <= i < txp.len() implies !s.outputs.contains_key(
        (#[trigger] txp[i]).0,
    ) by {
        assert(bp[cbp.len() + i] == txp[i]);
    }
    assert forall|i: int, j: int| 0 <= i < j < cbp.len() implies cbp[i].0 != cbp[j].0 by {
        assert(bp[i] == cbp[i]);
        assert(bp[j] == cbp[j]);
    }
    assert forall|i: int| 0 <= i < cbp.len() implies !s.outputs.contains_key(
        (#[trigger] cbp[i]).0,
    ) by {
        assert(bp[i] == cbp[i]);
    }
    let s1 = spec_connect_txs_state(s, txs);
    lemma_connect_txs_frame(s, txs);
    let s2 = spec_add_pairs_state(s1, cbp);
    lemma_add_pairs_char(s1, cbp);
    lemma_insert_pairs_props(s.outputs, txp);
    lemma_insert_pairs_props(s1.outputs, cbp);
    // The coinbase keys are new to the post-transaction state as well.
    assert forall|k: OutPoint| #[trigger] spec_pairs_key_set(cbp).contains(k) implies !s1.outputs
        .contains_key(k) && !s1.unspent.contains(k) by {
        let i = choose|i: int| 0 <= i < cbp.len() && (#[trigger] cbp[i]).0 == k;
        assert(!s.outputs.contains_key(k));
        if crate::collections::seq_has_key(txp, k) {
            let j = choose|j: int| 0 <= j < txp.len() && (#[trigger] txp[j]).0 == k;
            assert(bp[i] == cbp[i]);
            assert(bp[cbp.len() + j] == txp[j]);
            assert(false);
        }
        assert(!s1.outputs.contains_key(k));
        assert(spec_state_inv(s1));
    }
    let c = spec_connect_block(s, h, b);
    // The header undo: the pushed hash and inserted header leave again.
    let d1 = StateView {
        block_order: c.block_order.drop_last(),
        headers: c.headers.remove(bh),
        ..c
    };
    assert(c.block_order.drop_last() =~= s2.block_order);
    assert(!s2.headers.contains_key(bh));
    assert(c.headers.remove(bh) =~= s2.headers);
    assert(d1 =~~= s2);
    // The coinbase undo.
    lemma_drop_pairs_char(s2, cbk);
    assert forall|k: OutPoint| #[trigger] cbk.to_set().contains(k) <==> spec_pairs_key_set(
        cbp,
    ).contains(k) by {
        if cbk.contains(k) {
            let i = choose|i: int| 0 <= i < cbk.len() && cbk[i] == k;
            assert(cbp[i].0 == k);
            assert(crate::collections::seq_has_key(cbp, k));
        }
        if crate::collections::seq_has_key(cbp, k) {
            let i = choose|i: int| 0 <= i < cbp.len() && (#[trigger] cbp[i]).0 == k;
            assert(cbk[i] == k);
            assert(cbk.contains(k));
        }
    }
    let d2 = spec_drop_pairs_state(d1, cbk);
    assert(d2.outputs =~= s1.outputs) by {
        assert forall|k: OutPoint| #[trigger] d2.outputs.contains_key(k) implies s1.outputs
            .contains_key(k) && d2.outputs[k] == s1.outputs[k] by {
            assert(!crate::collections::seq_has_key(cbp, k));
            assert(s2.outputs[k] == s1.outputs[k]);
        }
        assert forall|k: OutPoint| #[trigger] s1.outputs.contains_key(k) implies d2.outputs
            .contains_key(k) by {
            assert(!spec_pairs_key_set(cbp).contains(k));
            assert(s2.outputs.contains_key(k));
        }
    }
    assert(d2.unspent =~= s1.unspent) by {
        assert forall|k: OutPoint| #[trigger] s1.unspent.contains(k) implies d2.unspent.contains(
            k,
        ) by {
            assert(!spec_pairs_key_set(cbp).contains(k));
        }
    }
    assert(d2 =~~= s1);
    // The transaction undo.
    lemma_disconnect_connect_txs(s, txs);
    assert(spec_disconnect_block(c, h, b) == spec_disconnect_txs_state(d2, txs));
    assert(spec_disconnect_txs_state(d2, txs) == spec_disconnect_txs_state(s1, txs));
    assert(spec_disconnect_block(c, h, b) == s);
}

/// The number of outputs of the transactions before `t`, and so the index
/// in the produced pair sequence where transaction `t`'s pairs start.
pub open spec fn spec_produced_offset(txs: Seq<Transaction>, t: int) -> int
    decreases t,
{
    if t <= 0 {
        0
    } else {
        spec_produced_offset(txs, t - 1) + txs[t - 1].outputs@.len()
    }
}

proof fn lemma_produced_offset_nonneg(txs: Seq<Transaction>, t: int)
    ensures
        spec_produced_offset(txs, t) >= 0,
    decreases t,
{
    if t > 0 {
        lemma_produced_offset_nonneg(txs, t - 1);
    }
}

proof fn lemma_produced_offset_agrees(a: Seq<Transaction>, b: Seq<Transaction>, t: int)
    requires
        0 <= t <= a.len(),
        t <= b.len(),
        forall|i: int| 0 <= i < t ==> a[i] == b[i],
    ensures
        spec_produced_offset(a, t) == spec_produced_offset(b, t),
    decreases t,
{
    if t > 0 {
        lemma_produced_offset_agrees(a, b, t - 1);
    }
}

proof fn lemma_produced_offset_mono(txs: Seq<Transaction>, a: int, b: int)
    requires
        0 <= a <= b,
    ensures
        spec_produced_offset(txs, a) <= spec_produced_offset(txs, b),
    decreases b - a,
{
    if a < b {
        lemma_produced_offset_mono(txs, a, b - 1);
    }
}

proof fn lemma_txs_produced_len(txs: Seq<Transaction>, t: int)
    requires
        0 <= t <= txs.len(),
    ensures
        crate::types::spec_txs_produced(txs.subrange(0, t)).len() == spec_produced_offset(txs, t),
    decreases t,
{
    if t > 0 {
        lemma_txs_produced_len(txs, t - 1);
        assert(txs.subrange(0, t).drop_last() =~= txs.subrange(0, t - 1));
        assert(txs.subrange(0, t).last() == txs[t - 1]);
    } else {
        assert(txs.subrange(0, 0) =~= Seq::<Transaction>::empty());
    }
}

/// Where each transaction's produced pairs sit inside the sequence of all
/// pairs the body's transactions produce.
pub proof fn lemma_txs_produced_index(txs: Seq<Transaction>, t: int, u: int)
    requires
        0 <= t < txs.len(),
        0 <= u < txs[t].outputs@.len(),
    ensures
        0 <= spec_produced_offset(txs, t) + u < crate::types::spec_txs_produced(txs).len(),
        crate::types::spec_txs_produced(txs)[spec_produced_offset(txs, t) + u]
            == crate::types::spec_tx_produced(txs[t])[u],
    decreases txs.len(),
{
    lemma_produced_offset_nonneg(txs, t);
    if t == txs.len() - 1 {
        lemma_txs_produced_len(txs.drop_last(), txs.drop_last().len() as int);
        assert(txs.drop_last().subrange(0, txs.drop_last().len() as int) =~= txs.drop_last());
        assert(crate::types::spec_txs_produced(txs) == crate::types::spec_txs_produced(
            txs.drop_last(),
        ) + crate::types::spec_tx_produced(txs.last()));
        lemma_produced_offset_agrees(txs, txs.drop_last(), t);
        assert(spec_produced_offset(txs, t) == crate::types::spec_txs_produced(
            txs.drop_last(),
        ).len());
    } else {
        lemma_txs_produced_index(txs.drop_last(), t, u);
        lemma_produced_offset_agrees(txs, txs.drop_last(), t);
        assert(crate::types::spec_txs_produced(txs) == crate::types::spec_txs_produced(
            txs.drop_last(),
        ) + crate::types::spec_tx_produced(txs.last()));
    }
}

/// While the staged walk runs on, an available entry that no transaction
/// of the window spends or re-produces survives with its value, and when
/// a transaction finally spends it, that transaction's authorization at
/// the spending position speaks for the entry's address.
proof fn lemma_staged_key_owner(
    avail: Map<OutPoint, Output>,
    txs: Seq<Transaction>,
    key: OutPoint,
    value: Output,
    bi: int,
    p: int,
)
    requires
        spec_staged_ok(avail, txs),
        0 <= bi < txs.len(),
        0 <= p < txs[bi].inputs@.len(),
        txs[bi].inputs@[p] == key,
        avail.contains_key(key),
        avail[key] == value,
        forall|j: int, q: int|
            0 <= j < bi && 0 <= q < txs[j].inputs@.len() ==> (#[trigger] txs[j].inputs@[q]) != key,
        forall|j: int, u: int|
            0 <= j < bi && 0 <= u < crate::types::spec_tx_produced(txs[j]).len() ==> (
            #[trigger] crate::types::spec_tx_produced(txs[j])[u]).0 != key,
    ensures
        txs[bi].authorizations@[p].spec_get_address() == value.address,
    decreases bi,
{
    if bi == 0 {
        assert(spec_inputs_avail(avail, txs[0].inputs@));
        let resolved = spec_resolved_from(avail, txs[0].inputs@);
        assert(resolved[p] == value);
        assert(spec_validate_transaction_ok(resolved, txs[0]));
        assert(txs[0].authorizations@[p].spec_get_address() == resolved[p].address);
    } else {
        let next = spec_apply_tx(avail, txs[0]);
        lemma_insert_pairs_props(
            avail.remove_keys(txs[0].inputs@.to_set()),
            crate::types::spec_tx_produced(txs[0]),
        );
        assert(!txs[0].inputs@.to_set().contains(key)) by {
            if txs[0].inputs@.contains(key) {
                let q = choose|q: int| 0 <= q < txs[0].inputs@.len() && txs[0].inputs@[q] == key;
                assert(txs[0].inputs@[q] == key);
                assert(false);
            }
        }
        assert(!crate::collections::seq_has_key(crate::types::spec_tx_produced(txs[0]), key)) by {
            if crate::collections::seq_has_key(crate::types::spec_tx_produced(txs[0]), key) {
                let u = choose|u: int|
                    0 <= u < crate::types::spec_tx_produced(txs[0]).len() && (
                    #[trigger] crate::types::spec_tx_produced(txs[0])[u]).0 == key;
                assert(crate::types::spec_tx_produced(txs[0])[u].0 == key);
                assert(false);
            }
        }
        assert(next.contains_key(key) && next[key] == value) by {
            assert(avail.remove_keys(txs[0].inputs@.to_set()).contains_key(key));
            assert(avail.remove_keys(txs[0].inputs@.to_set())[key] == value);
        }
        let rest = txs.drop_first();
        assert(spec_staged_ok(next, rest));
        assert(rest[bi - 1] == txs[bi]);
        assert forall|j: int, q: int|
            0 <= j < bi - 1 && 0 <= q < rest[j].inputs@.len() implies (
        #[trigger] rest[j].inputs@[q]) != key by {
            assert(rest[j] == txs[j + 1]);
            assert(txs[j + 1].inputs@[q] != key);
        }
        assert forall|j: int, u: int|
            0 <= j < bi - 1 && 0 <= u < crate::types::spec_tx_produced(rest[j]).len() implies (
        #[trigger] crate::types::spec_tx_produced(rest[j])[u]).0 != key by {
            assert(rest[j] == txs[j + 1]);
            assert(crate::types::spec_tx_produced(txs[j + 1])[u].0 != key);
        }
        lemma_staged_key_owner(next, rest, key, value, bi - 1, p);
    }
}

/// Law: in a structurally valid block, a transaction that spends an
/// output produced by an earlier transaction of the same body is
/// authorized by that output's owner — the authorization standing at the
/// spending input position speaks for the produced output's address.
#[verifier::rlimit(60)]
pub proof fn lemma_same_body_chaining_authorized(
    s: StateView,
    h: Header,
    b: Body,
    a: int,
    bi: int,
    p: int,
    vout: u32,
)
    requires
        spec_state_inv(s),
        spec_block_struct_ok(s, h, b),
        spec_block_fresh(s, h, b),
        0 <= a < bi < b.transactions@.len(),
        0 <= p < b.transactions@[bi].inputs@.len(),
        vout < b.transactions@[a].outputs@.len(),
        b.transactions@[bi].inputs@[p] == (OutPoint::Regular {
            txid: crate::codec::spec_txid(b.transactions@[a]),
            vout,
        }),
    ensures
        b.transactions@[bi].authorizations@[p].spec_get_address()
            == b.transactions@[a].outputs@[vout as int].address,
{
    let txs = b.transactions@;
    let key = txs[bi].inputs@[p];
    let v = vout as int;
    let cbp = crate::types::spec_coinbase_produced(b);
    let txp = crate::types::spec_txs_produced(txs);
    let bp = crate::types::spec_body_produced(b);
    let value = txs[a].outputs@[v];
    assert(crate::types::spec_tx_produced(txs[a])[v] == (key, value));
    // The spent key is never in the ledger beforehand: it is freshly
    // produced by transaction `a`.
    assert(!spec_avail(s).contains_key(key)) by {
        lemma_txs_produced_index(txs, a, v);
        assert(bp[cbp.len() + spec_produced_offset(txs, a) + v] == txp[spec_produced_offset(
            txs,
            a,
        ) + v]);
        assert(!s.outputs.contains_key(key));
    }
    // No transaction other than `a` produces the key, and no transaction
    // before `bi` spends it.
    assert forall|j: int, u: int|
        0 <= j < txs.len() && j != a && 0 <= u < crate::types::spec_tx_produced(
            txs[j],
        ).len() implies (#[trigger] crate::types::spec_tx_produced(txs[j])[u]).0 != key by {
        lemma_txs_produced_index(txs, j, u);
        lemma_txs_produced_index(txs, a, v);
        let x = spec_produced_offset(txs, j) + u;
        let y = spec_produced_offset(txs, a) + v;
        assert(x != y) by {
            if j < a {
                lemma_produced_offset_mono(txs, j + 1, a);
                assert(spec_produced_offset(txs, j) + txs[j].outputs@.len()
                    == spec_produced_offset(txs, j + 1));
            } else {
                lemma_produced_offset_mono(txs, a + 1, j);
                assert(spec_produced_offset(txs, a) + txs[a].outputs@.len()
                    == spec_produced_offset(txs, a + 1));
            }
        }
        assert(bp[cbp.len() + x] == txp[x]);
        assert(bp[cbp.len() + y] == txp[y]);
    }
    assert forall|j: int, q: int|
        0 <= j < txs.len() && 0 <= q < txs[j].inputs@.len() && (j != bi || q != p) implies (
    #[trigger] txs[j].inputs@[q]) != key by {
        crate::validator::lemma_flat_inputs_index(txs, j, q);
        crate::validator::lemma_flat_inputs_index(txs, bi, p);
        let x = crate::validator::spec_input_offset(txs, j) + q;
        let y = crate::validator::spec_input_offset(txs, bi) + p;
        assert(x != y) by {
            if j < bi {
                crate::validator::lemma_input_offset_mono(txs, j + 1, bi);
                assert(crate::validator::spec_input_offset(txs, j) + txs[j].inputs@.len()
                    == crate::validator::spec_input_offset(txs, j + 1));
            } else if j > bi {
                crate::validator::lemma_input_offset_mono(txs, bi + 1, j);
                assert(crate::validator::spec_input_offset(txs, bi) + txs[bi].inputs@.len()
                    == crate::validator::spec_input_offset(txs, bi + 1));
            }
        }
        if x < y {
            assert(crate::types::spec_flat_inputs(txs)[x] != crate::types::spec_flat_inputs(
                txs,
            )[y]);
        } else {
            assert(crate::types::spec_flat_inputs(txs)[y] != crate::types::spec_flat_inputs(
                txs,
            )[x]);
        }
    }
    // The producer's own pairs carry distinct keys.
    assert forall|i: int, j: int|
        0 <= i < j < crate::types::spec_tx_produced(txs[a]).len() implies crate::types::spec_tx_produced(
        txs[a],
    )[i].0 != crate::types::spec_tx_produced(txs[a])[j].0 by {
        lemma_txs_produced_index(txs, a, i);
        lemma_txs_produced_index(txs, a, j);
        let x = spec_produced_offset(txs, a) + i;
        let y = spec_produced_offset(txs, a) + j;
        assert(bp[cbp.len() + x] == txp[x]);
        assert(bp[cbp.len() + y] == txp[y]);
    }
    // Walk the staged chain up to transaction `a`, where the key enters
    // the available view, then hand over to the survival argument.
    lemma_staged_chain_to_producer(spec_avail(s), txs, key, value, a, v, bi, p);
}

/// Peels the staged chain until the producing transaction inserts the
/// key, then lets the survival argument carry it to the spender.
#[verifier::rlimit(60)]
proof fn lemma_staged_chain_to_producer(
    avail: Map<OutPoint, Output>,
    txs: Seq<Transaction>,
    key: OutPoint,
    value: Output,
    a: int,
    v: int,
    bi: int,
    p: int,
)
    requires
        spec_staged_ok(avail, txs),
        0 <= a < bi < txs.len(),
        0 <= v < txs[a].outputs@.len(),
        crate::types::spec_tx_produced(txs[a])[v] == (key, value),
        0 <= p < txs[bi].inputs@.len(),
        txs[bi].inputs@[p] == key,
        !avail.contains_key(key),
        forall|j: int, u: int|
            0 <= j < txs.len() && j != a && 0 <= u < crate::types::spec_tx_produced(
                txs[j],
            ).len() ==> (#[trigger] crate::types::spec_tx_produced(txs[j])[u]).0 != key,
        forall|i: int, j: int|
            0 <= i < j < crate::types::spec_tx_produced(txs[a]).len()
                ==> crate::types::spec_tx_produced(txs[a])[i].0 != crate::types::spec_tx_produced(
                txs[a],
            )[j].0,
        forall|j: int, q: int|
            0 <= j < txs.len() && 0 <= q < txs[j].inputs@.len() && (j != bi || q != p) ==> (
            #[trigger] txs[j].inputs@[q]) != key,
    ensures
        txs[bi].authorizations@[p].spec_get_address() == value.address,
    decreases a,
{
    let t0 = txs[0];
    let next = spec_apply_tx(avail, t0);
    let rest = txs.drop_first();
    lemma_insert_pairs_props(
        avail.remove_keys(t0.inputs@.to_set()),
        crate::types::spec_tx_produced(t0),
    );
    if a == 0 {
        // The producer runs: the key enters the available view with its
        // output.
        assert(next.contains_key(key) && next[key] == value) by {
            assert(crate::collections::no_dup_keys(crate::types::spec_tx_produced(t0)));
        }
        assert(rest[bi - 1] == txs[bi]);
        assert forall|j: int, q: int|
            0 <= j < bi - 1 && 0 <= q < rest[j].inputs@.len() implies (
        #[trigger] rest[j].inputs@[q]) != key by {
            assert(rest[j] == txs[j + 1]);
            assert(txs[j + 1].inputs@[q] != key);
        }
        assert forall|j: int, u: int|
            0 <= j < bi - 1 && 0 <= u < crate::types::spec_tx_produced(rest[j]).len() implies (
        #[trigger] crate::types::spec_tx_produced(rest[j])[u]).0 != key by {
            assert(rest[j] == txs[j + 1]);
            assert(crate::types::spec_tx_produced(txs[j + 1])[u].0 != key);
        }
        lemma_staged_key_owner(next, rest, key, value, bi - 1, p);
    } else {
        // A transaction before the producer runs: the key stays absent.
        assert(!next.contains_key(key)) by {
            assert(!crate::collections::seq_has_key(crate::types::spec_tx_produced(t0), key)) by {
                if crate::collections::seq_has_key(crate::types::spec_tx_produced(t0), key) {
                    let u = choose|u: int|
                        0 <= u < crate::types::spec_tx_produced(t0).len() && (
                        #[trigger] crate::types::spec_tx_produced(t0)[u]).0 == key;
                    assert(crate::types::spec_tx_produced(txs[0])[u].0 != key);
                }
            }
        }
        assert(rest[a - 1] == txs[a]);
        assert(rest[bi - 1] == txs[bi]);
        assert forall|j: int, u: int|
            0 <= j < rest.len() && j != a - 1 && 0 <= u < crate::types::spec_tx_produced(
                rest[j],
            ).len() implies (#[trigger] crate::types::spec_tx_produced(rest[j])[u]).0 != key by {
            assert(rest[j] == txs[j + 1]);
            assert(crate::types::spec_tx_produced(txs[j + 1])[u].0 != key);
        }
        assert forall|j: int, q: int|
            0 <= j < rest.len() && 0 <= q < rest[j].inputs@.len() && (j != bi - 1 || q != p)
            implies (#[trigger] rest[j].inputs@[q]) != key by {
            assert(rest[j] == txs[j + 1]);
            assert(txs[j + 1].inputs@[q] != key);
        }
        lemma_staged_chain_to_producer(next, rest, key, value, a - 1, v, bi - 1, p);
    }
}

/// Every input of a staged-valid transaction sequence is either available
/// before the sequence runs or produced by a transaction before its
/// spender.
proof fn lemma_staged_inputs_source(
    avail: Map<OutPoint, Output>,
    txs: Seq<Transaction>,
    j: int,
    q: int,
)
    requires
        spec_staged_ok(avail, txs),
        0 <= j < txs.len(),
        0 <= q < txs[j].inputs@.len(),
    ensures
        avail.contains_key(txs[j].inputs@[q]) || spec_some_tx_produces(
            txs.subrange(0, j),
            txs[j].inputs@[q],
        ),
    decreases j,
{
    let k = txs[j].inputs@[q];
    if j == 0 {
        assert(spec_inputs_avail(avail, txs[0].inputs@));
    } else {
        let next = spec_apply_tx(avail, txs[0]);
        let rest = txs.drop_first();
        assert(rest[j - 1] == txs[j]);
        lemma_staged_inputs_source(next, rest, j - 1, q);
        lemma_insert_pairs_props(
            avail.remove_keys(txs[0].inputs@.to_set()),
            crate::types::spec_tx_produced(txs[0]),
        );
        if next.contains_key(k) {
            if crate::collections::seq_has_key(crate::types::spec_tx_produced(txs[0]), k) {
                let u = choose|u: int|
                    0 <= u < crate::types::spec_tx_produced(txs[0]).len() && (
                    #[trigger] crate::types::spec_tx_produced(txs[0])[u]).0 == k;
                assert(txs.subrange(0, j)[0] == txs[0]);
                assert(crate::types::spec_tx_produced(txs.subrange(0, j)[0])[u].0 == k);
                assert(spec_some_tx_produces(txs.subrange(0, j), k));
            } else {
                assert(avail.remove_keys(txs[0].inputs@.to_set()).contains_key(k));
            }
        } else {
            assert(spec_some_tx_produces(rest.subrange(0, j - 1), k));
            let (a, u) = choose|a: int, u: int|
                0 <= a < rest.subrange(0, j - 1).len() && 0 <= u
                    < crate::types::spec_tx_produced(rest.subrange(0, j - 1)[a]).len() && (
                #[trigger] crate::types::spec_tx_produced(rest.subrange(0, j - 1)[a])[u]).0 == k;
            assert(rest.subrange(0, j - 1)[a] == txs[a + 1]);
            assert(txs.subrange(0, j)[a + 1] == txs[a + 1]);
            assert(crate::types::spec_tx_produced(txs.subrange(0, j)[a + 1])[u].0 == k);
            assert(spec_some_tx_produces(txs.subrange(0, j), k));
        }
    }
}

/// Law: a block just connected can always be disconnected — its hash is
/// the chain tip and every input it spent is restorable, whether it came
/// from the prior ledger or from an earlier transaction of the same body.
pub proof fn lemma_connected_block_disconnect_ok(s: StateView, h: Header, b: Body)
    requires
        spec_state_inv(s),
        spec_block_struct_ok(s, h, b),
        spec_block_fresh(s, h, b),
    ensures
        spec_disconnect_ok(spec_connect_block(s, h, b), h, b),
{
    let txs = b.transactions@;
    let c = spec_connect_block(s, h, b);
    let cbp = crate::types::spec_coinbase_produced(b);
    let bp = crate::types::spec_body_produced(b);
    let s1 = spec_connect_txs_state(s, txs);
    lemma_connect_txs_frame(s, txs);
    lemma_add_pairs_char(s1, cbp);
    lemma_insert_pairs_props(s.outputs, crate::types::spec_txs_produced(txs));
    lemma_insert_pairs_props(s1.outputs, cbp);
    assert(c.block_order.last() == spec_block_hash(h));
    assert forall|j: int, q: int|
        0 <= j < txs.len() && 0 <= q < txs[j].inputs@.len() implies spec_input_restorable(
        c,
        b,
        j,
        (#[trigger] txs[j].inputs@[q]),
    ) by {
        let k = txs[j].inputs@[q];
        lemma_staged_inputs_source(spec_avail(s), txs, j, q);
        if spec_avail(s).contains_key(k) {
            // A pre-existing output: the body produced nothing the ledger
            // already knew, and connecting only adds outputs.
            assert(s.outputs.contains_key(k));
            assert(!crate::collections::seq_has_key(bp, k)) by {
                if crate::collections::seq_has_key(bp, k) {
                    let i = choose|i: int| 0 <= i < bp.len() && (#[trigger] bp[i]).0 == k;
                    assert(!s.outputs.contains_key(bp[i].0));
                }
            }
            assert(s1.outputs.contains_key(k));
            assert(c.outputs.contains_key(k));
        } else {
            // Produced by an earlier transaction of the same body.
            assert(spec_some_tx_produces(txs.subrange(0, j), k));
            let (a, u) = choose|a: int, u: int|
                0 <= a < txs.subrange(0, j).len() && 0 <= u < crate::types::spec_tx_produced(
                    txs.subrange(0, j)[a],
                ).len() && (#[trigger] crate::types::spec_tx_produced(
                    txs.subrange(0, j)[a],
                )[u]).0 == k;
            assert(txs.subrange(0, j)[a] == txs[a]);
            assert(txs.subrange(0, j + 1)[a] == txs[a]);
            assert(crate::types::spec_tx_produced(txs.subrange(0, j + 1)[a])[u].0 == k);
            assert(spec_some_tx_produces(txs.subrange(0, j + 1), k));
        }
    }
}

/// Law: connecting a block preserves the ledger invariant — the unspent
/// set stays a subset of the known outputs.
pub proof fn lemma_connect_block_preserves_inv(s: StateView, h: Header, b: Body)
    requires
        spec_state_inv(s),
    ensures
        spec_state_inv(spec_connect_block(s, h, b)),
{
    let txs = b.transactions@;
    let cbp = crate::types::spec_coinbase_produced(b);
    let s1 = spec_connect_txs_state(s, txs);
    lemma_connect_txs_frame(s, txs);
    lemma_add_pairs_char(s1, cbp);
    lemma_insert_pairs_props(s1.outputs, cbp);
    let s2 = spec_add_pairs_state(s1, cbp);
    assert forall|k: OutPoint| #[trigger] s2.unspent.contains(k) implies s2.outputs.dom().contains(
        k,
    ) by {
        if spec_pairs_key_set(cbp).contains(k) {
            assert(spec_insert_pairs(s1.outputs, cbp).contains_key(k));
        } else {
            assert(s1.unspent.contains(k));
            assert(s1.outputs.contains_key(k));
            assert(spec_insert_pairs(s1.outputs, cbp).contains_key(k));
        }
    }
}

/// Some transaction of `txs` produces the key `k`.
pub open spec fn spec_some_tx_produces(txs: Seq<Transaction>, k: OutPoint) -> bool {
    exists|j: int, u: int|
        0 <= j < txs.len() && 0 <= u < crate::types::spec_tx_produced(txs[j]).len() && (
        #[trigger] crate::types::spec_tx_produced(txs[j])[u]).0 == k
}

/// Disconnecting transactions removes only their produced keys from the
/// output store and leaves the chain and headers alone.
pub proof fn lemma_disconnect_txs_outputs(s: StateView, txs: Seq<Transaction>)
    ensures
        spec_disconnect_txs_state(s, txs).block_order == s.block_order,
        spec_disconnect_txs_state(s, txs).headers == s.headers,
        forall|k: OutPoint|
            #[trigger] spec_disconnect_txs_state(s, txs).outputs.contains_key(k) <==> (
            s.outputs.contains_key(k) && !spec_some_tx_produces(txs, k)),
    decreases txs.len(),
{
    if txs.len() == 0 {
        assert forall|k: OutPoint| !spec_some_tx_produces(txs, k) by {}
    } else {
        let rest = txs.drop_first();
        let inner = spec_disconnect_txs_state(s, rest);
        lemma_disconnect_txs_outputs(s, rest);
        lemma_add_unspent_char(inner, txs[0].inputs@);
        lemma_drop_pairs_char(spec_add_unspent(inner, txs[0].inputs@), spec_produced_keys(txs[0]));
        let d = spec_disconnect_tx_state(inner, txs[0]);
        assert forall|k: OutPoint| #[trigger] d.outputs.contains_key(k) implies (
        s.outputs.contains_key(k) && !spec_some_tx_produces(txs, k)) by {
            assert(inner.outputs.contains_key(k));
            assert(!spec_produced_keys(txs[0]).to_set().contains(k));
            if spec_some_tx_produces(txs, k) {
                let (j, u) = choose|j: int, u: int|
                    0 <= j < txs.len() && 0 <= u < crate::types::spec_tx_produced(txs[j]).len()
                        && (#[trigger] crate::types::spec_tx_produced(txs[j])[u]).0 == k;
                if j == 0 {
                    assert(spec_produced_keys(txs[0])[u] == k);
                    assert(spec_produced_keys(txs[0]).contains(k));
                } else {
                    assert(rest[j - 1] == txs[j]);
                    assert(crate::types::spec_tx_produced(rest[j - 1])[u].0 == k);
                    assert(spec_some_tx_produces(rest, k));
                }
            }
        }
        assert forall|k: OutPoint|
            s.outputs.contains_key(k) && !spec_some_tx_produces(txs, k) implies #[trigger] d.outputs
            .contains_key(k) by {
            assert(!spec_some_tx_produces(rest, k)) by {
                if spec_some_tx_produces(rest, k) {
                    let (j, u) = choose|j: int, u: int|
                        0 <= j < rest.len() && 0 <= u < crate::types::spec_tx_produced(
                            rest[j],
                        ).len() && (#[trigger] crate::types::spec_tx_produced(rest[j])[u]).0 == k;
                    assert(rest[j] == txs[j + 1]);
                    assert(crate::types::spec_tx_produced(txs[j + 1])[u].0 == k);
                    assert(spec_some_tx_produces(txs, k));
                }
            }
            assert(inner.outputs.contains_key(k));
            assert(!spec_produced_keys(txs[0]).to_set().contains(k)) by {
                if spec_produced_keys(txs[0]).contains(k) {
                    let u = choose|u: int|
                        0 <= u < spec_produced_keys(txs[0]).len() && spec_produced_keys(
                            txs[0],
                        )[u] == k;
                    assert(crate::types::spec_tx_produced(txs[0])[u].0 == k);
                    assert(spec_some_tx_produces(txs, k));
                }
            }
        }
    }
}

/// A transaction produces `k` exactly when one of its produced keys is
/// `k`.
pub proof fn lemma_produced_keys_match(tx: Transaction)
    ensures
        forall|k: OutPoint|
            #[trigger] spec_produced_keys(tx).contains(k) <==> crate::collections::seq_has_key(
                crate::types::spec_tx_produced(tx),
                k,
            ),
{
    assert forall|k: OutPoint|
        #[trigger] spec_produced_keys(tx).contains(k) <==> crate::collections::seq_has_key(
        crate::types::spec_tx_produced(tx),
        k,
    ) by {
        if spec_produced_keys(tx).contains(k) {
            let u = choose|u: int|
                0 <= u < spec_produced_keys(tx).len() && spec_produced_keys(tx)[u] == k;
            assert(crate::types::spec_tx_produced(tx)[u].0 == k);
            assert(crate::collections::seq_has_key(crate::types::spec_tx_produced(tx), k));
        }
        if crate::collections::seq_has_key(crate::types::spec_tx_produced(tx), k) {
            let u = choose|u: int|
                0 <= u < crate::types::spec_tx_produced(tx).len() && (
                #[trigger] crate::types::spec_tx_produced(tx)[u]).0 == k;
            assert(spec_produced_keys(tx)[u] == k);
            assert(spec_produced_keys(tx).contains(k));
        }
    }
}

/// Peeling the first transaction off `spec_some_tx_produces`.
pub proof fn lemma_some_tx_produces_cons(txs: Seq<Transaction>, k: OutPoint)
    requires
        txs.len() > 0,
    ensures
        spec_some_tx_produces(txs, k) <==> (crate::collections::seq_has_key(
            crate::types::spec_tx_produced(txs[0]),
            k,
        ) || spec_some_tx_produces(txs.drop_first(), k)),
{
    let rest = txs.drop_first();
    if spec_some_tx_produces(txs, k) {
        let (j, u) = choose|j: int, u: int|
            0 <= j < txs.len() && 0 <= u < crate::types::spec_tx_produced(txs[j]).len() && (
            #[trigger] crate::types::spec_tx_produced(txs[j])[u]).0 == k;
        if j == 0 {
            assert(crate::collections::seq_has_key(crate::types::spec_tx_produced(txs[0]), k));
        } else {
            assert(rest[j - 1] == txs[j]);
            assert(crate::types::spec_tx_produced(rest[j - 1])[u].0 == k);
            assert(spec_some_tx_produces(rest, k));
        }
    }
    if crate::collections::seq_has_key(crate::types::spec_tx_produced(txs[0]), k) {
        let u = choose|u: int|
            0 <= u < crate::types::spec_tx_produced(txs[0]).len() && (
            #[trigger] crate::types::spec_tx_produced(txs[0])[u]).0 == k;
        assert(spec_some_tx_produces(txs, k));
    }
    if spec_some_tx_produces(rest, k) {
        let (j, u) = choose|j: int, u: int|
            0 <= j < rest.len() && 0 <= u < crate::types::spec_tx_produced(rest[j]).len() && (
            #[trigger] crate::types::spec_tx_produced(rest[j])[u]).0 == k;
        assert(txs[j + 1] == rest[j]);
        assert(crate::types::spec_tx_produced(txs[j + 1])[u].0 == k);
        assert(spec_some_tx_produces(txs, k));
    }
}

/// Which outpoints are unspent after disconnecting transactions: those
/// that were unspent and that no transaction produced, plus every
/// restored input — unless a transaction ordered at or before its
/// spender produced it, in which case the reverse walk removes it again
/// after restoring it.
pub proof fn lemma_disconnect_txs_unspent(s: StateView, txs: Seq<Transaction>)
    ensures
        forall|k: OutPoint|
            #[trigger] spec_disconnect_txs_state(s, txs).unspent.contains(k) <==> {
                ||| (s.unspent.contains(k) && !spec_some_tx_produces(txs, k))
                ||| exists|j: int, q: int|
                    0 <= j < txs.len() && 0 <= q < txs[j].inputs@.len() && (
                    #[trigger] txs[j].inputs@[q]) == k && !spec_some_tx_produces(
                        txs.subrange(0, j + 1),
                        k,
                    )
            },
    decreases txs.len(),
{
    if txs.len() == 0 {
        assert forall|k: OutPoint| !spec_some_tx_produces(txs, k) by {}
    } else {
        let rest = txs.drop_first();
        let inner = spec_disconnect_txs_state(s, rest);
        lemma_disconnect_txs_unspent(s, rest);
        lemma_add_unspent_char(inner, txs[0].inputs@);
        lemma_drop_pairs_char(spec_add_unspent(inner, txs[0].inputs@), spec_produced_keys(txs[0]));
        lemma_produced_keys_match(txs[0]);
        let d = spec_disconnect_tx_state(inner, txs[0]);
        assert forall|k: OutPoint| #[trigger] d.unspent.contains(k) implies {
            ||| (s.unspent.contains(k) && !spec_some_tx_produces(txs, k))
            ||| exists|j: int, q: int|
                0 <= j < txs.len() && 0 <= q < txs[j].inputs@.len() && (
                #[trigger] txs[j].inputs@[q]) == k && !spec_some_tx_produces(
                    txs.subrange(0, j + 1),
                    k,
                )
        } by {
            assert(!spec_produced_keys(txs[0]).to_set().contains(k));
            lemma_some_tx_produces_cons(txs, k);
            if txs[0].inputs@.to_set().contains(k) {
                let q = choose|q: int| 0 <= q < txs[0].inputs@.len() && txs[0].inputs@[q] == k;
                assert(txs.subrange(0, 1) =~= seq![txs[0]]);
                assert(!spec_some_tx_produces(txs.subrange(0, 1), k)) by {
                    if spec_some_tx_produces(txs.subrange(0, 1), k) {
                        lemma_some_tx_produces_cons(txs.subrange(0, 1), k);
                        assert(txs.subrange(0, 1).drop_first() =~= Seq::<Transaction>::empty());
                    }
                }
                assert(0 <= 0 < txs.len() && 0 <= q < txs[0].inputs@.len() && txs[0].inputs@[q]
                    == k && !spec_some_tx_produces(txs.subrange(0, 1), k));
            } else {
                assert(inner.unspent.contains(k));
                if s.unspent.contains(k) && !spec_some_tx_produces(rest, k) {
                    assert(!spec_some_tx_produces(txs, k));
                } else {
                    let (j, q) = choose|j: int, q: int|
                        0 <= j < rest.len() && 0 <= q < rest[j].inputs@.len() && (
                        #[trigger] rest[j].inputs@[q]) == k && !spec_some_tx_produces(
                            rest.subrange(0, j + 1),
                            k,
                        );
                    assert(txs[j + 1] == rest[j]);
                    assert(txs.subrange(0, j + 2).drop_first() =~= rest.subrange(0, j + 1));
                    assert(txs.subrange(0, j + 2)[0] == txs[0]);
                    assert(!spec_some_tx_produces(txs.subrange(0, j + 2), k)) by {
                        lemma_some_tx_produces_cons(txs.subrange(0, j + 2), k);
                    }
                    assert(0 <= j + 1 < txs.len() && 0 <= q < txs[j + 1].inputs@.len()
                        && txs[j + 1].inputs@[q] == k && !spec_some_tx_produces(
                        txs.subrange(0, (j + 1) + 1),
                        k,
                    ));
                }
            }
        }
        assert forall|k: OutPoint|
            {
                ||| (s.unspent.contains(k) && !spec_some_tx_produces(txs, k))
                ||| exists|j: int, q: int|
                    0 <= j < txs.len() && 0 <= q < txs[j].inputs@.len() && (
                    #[trigger] txs[j].inputs@[q]) == k && !spec_some_tx_produces(
                        txs.subrange(0, j + 1),
                        k,
                    )
            } implies #[trigger] d.unspent.contains(k) by {
            lemma_some_tx_produces_cons(txs, k);
            if s.unspent.contains(k) && !spec_some_tx_produces(txs, k) {
                assert(inner.unspent.contains(k));
                assert(!spec_produced_keys(txs[0]).to_set().contains(k));
            } else {
                let (j, q) = choose|j: int, q: int|
                    0 <= j < txs.len() && 0 <= q < txs[j].inputs@.len() && (
                    #[trigger] txs[j].inputs@[q]) == k && !spec_some_tx_produces(
                        txs.subrange(0, j + 1),
                        k,
                    );
                lemma_some_tx_produces_cons(txs.subrange(0, j + 1), k);
                assert(txs.subrange(0, j + 1)[0] == txs[0]);
                assert(!crate::collections::seq_has_key(
                    crate::types::spec_tx_produced(txs[0]),
                    k,
                ));
                assert(!spec_produced_keys(txs[0]).to_set().contains(k));
                if j == 0 {
                    assert(txs[0].inputs@.to_set().contains(k));
                } else {
                    assert(rest[j - 1] == txs[j]);
                    assert(txs.subrange(0, j + 1).drop_first() =~= rest.subrange(0, j));
                    assert(!spec_some_tx_produces(rest.subrange(0, (j - 1) + 1), k));
                    assert(0 <= j - 1 < rest.len() && 0 <= q < rest[j - 1].inputs@.len()
                        && rest[j - 1].inputs@[q] == k);
                    assert(inner.unspent.contains(k));
                }
            }
        }
    }
}

/// Law: disconnecting a disconnectable block preserves the ledger
/// invariant, same-body chaining included.
pub proof fn lemma_disconnect_block_preserves_inv(s: StateView, h: Header, b: Body)
    requires
        spec_state_inv(s),
        spec_disconnect_ok(s, h, b),
    ensures
        spec_state_inv(spec_disconnect_block(s, h, b)),
{
    let txs = b.transactions@;
    let cbk = spec_coinbase_keys(b);
    let cbp = crate::types::spec_coinbase_produced(b);
    let bp = crate::types::spec_body_produced(b);
    let txp = crate::types::spec_txs_produced(txs);
    let d1 = StateView {
        block_order: s.block_order.drop_last(),
        headers: s.headers.remove(spec_block_hash(h)),
        ..s
    };
    lemma_drop_pairs_char(d1, cbk);
    let d2 = spec_drop_pairs_state(d1, cbk);
    assert(spec_state_inv(d2));
    lemma_disconnect_txs_unspent(d2, txs);
    lemma_disconnect_txs_outputs(d2, txs);
    let d3 = spec_disconnect_txs_state(d2, txs);
    assert forall|k: OutPoint| #[trigger] d3.unspent.contains(k) implies d3.outputs.dom().contains(
        k,
    ) by {
        if d2.unspent.contains(k) && !spec_some_tx_produces(txs, k) {
            assert(d2.outputs.contains_key(k));
        } else {
            let (j, q) = choose|j: int, q: int|
                0 <= j < txs.len() && 0 <= q < txs[j].inputs@.len() && (
                #[trigger] txs[j].inputs@[q]) == k && !spec_some_tx_produces(
                    txs.subrange(0, j + 1),
                    k,
                );
            assert(spec_input_restorable(s, b, j, k));
            assert(s.outputs.contains_key(k) && !crate::collections::seq_has_key(bp, k));
            assert(!cbk.to_set().contains(k)) by {
                if cbk.contains(k) {
                    let u = choose|u: int| 0 <= u < cbk.len() && cbk[u] == k;
                    assert(cbp[u].0 == k);
                    assert(bp[u] == cbp[u]);
                    assert(crate::collections::seq_has_key(bp, k));
                }
            }
            assert(d2.outputs.contains_key(k));
            assert(!spec_some_tx_produces(txs, k)) by {
                if spec_some_tx_produces(txs, k) {
                    let (t, u) = choose|t: int, u: int|
                        0 <= t < txs.len() && 0 <= u < crate::types::spec_tx_produced(
                            txs[t],
                        ).len() && (#[trigger] crate::types::spec_tx_produced(txs[t])[u]).0 == k;
                    lemma_txs_produced_index(txs, t, u);
                    assert(txp[spec_produced_offset(txs, t) + u].0 == k);
                    assert(bp[cbp.len() + spec_produced_offset(txs, t) + u]
                        == txp[spec_produced_offset(txs, t) + u]);
                    assert(crate::collections::seq_has_key(bp, k));
                }
            }
        }
    }
}

/// Law: undoing a main-chain block right after ingesting it restores the
/// exact prior state, when the block's data is proper: the deposits are
/// new to the ledger and mutually distinct, the locked withdrawals were
/// distinct unspent outputs, and the unlocked withdrawals are distinct
/// known spent outputs re-entering with their recorded values. The
/// disconnect receives the deposits' outpoints, the locked outputs with
/// their recorded values, and the unlocked outpoints.
pub proof fn lemma_connect_main_then_disconnect(
    s: StateView,
    deposits: Seq<(OutPoint, Output)>,
    locked: Seq<OutPoint>,
    unlocked: Seq<(OutPoint, Output)>,
    deposit_outpoints: Seq<OutPoint>,
    locked_outputs: Seq<(OutPoint, Output)>,
    unlocked_outpoints: Seq<OutPoint>,
)
    requires
        spec_state_inv(s),
        forall|i: int, j: int| 0 <= i < j < deposits.len() ==> deposits[i].0 != deposits[j].0,
        forall|i: int|
            0 <= i < deposits.len() ==> !s.outputs.contains_key((#[trigger] deposits[i]).0),
        deposit_outpoints.len() == deposits.len(),
        forall|i: int|
            0 <= i < deposits.len() ==> deposit_outpoints[i] == (#[trigger] deposits[i]).0,
        forall|i: int, j: int| 0 <= i < j < locked.len() ==> locked[i] != locked[j],
        forall|i: int| 0 <= i < locked.len() ==> s.unspent.contains(#[trigger] locked[i]),
        locked_outputs.len() == locked.len(),
        forall|i: int|
            0 <= i < locked.len() ==> locked_outputs[i] == (
                locked[i],
                s.outputs[#[trigger] locked[i]],
            ),
        forall|i: int, j: int| 0 <= i < j < unlocked.len() ==> unlocked[i].0 != unlocked[j].0,
        forall|i: int|
            0 <= i < unlocked.len() ==> s.outputs.contains_key((#[trigger] unlocked[i]).0)
                && s.outputs[unlocked[i].0] == unlocked[i].1 && !s.unspent.contains(unlocked[i].0)
                && !locked.contains(unlocked[i].0),
        unlocked_outpoints.len() == unlocked.len(),
        forall|i: int|
            0 <= i < unlocked.len() ==> unlocked_outpoints[i] == (#[trigger] unlocked[i]).0,
    ensures
        spec_disconnect_main(
            spec_connect_main(s, deposits, locked, unlocked),
            deposit_outpoints,
            locked_outputs,
            unlocked_outpoints,
        ) == s,
{
    let s1 = spec_add_pairs_state(s, deposits);
    let s2 = spec_remove_unspent(s1, locked);
    let s3 = spec_add_pairs_state(s2, unlocked);
    lemma_add_pairs_char(s, deposits);
    lemma_remove_unspent_char(s1, locked);
    lemma_add_pairs_char(s2, unlocked);
    let d1 = spec_drop_pairs_state(s3, deposit_outpoints);
    let d2 = spec_add_pairs_state(d1, locked_outputs);
    let d3 = spec_remove_unspent(d2, unlocked_outpoints);
    lemma_drop_pairs_char(s3, deposit_outpoints);
    lemma_add_pairs_char(d1, locked_outputs);
    lemma_remove_unspent_char(d2, unlocked_outpoints);
    lemma_insert_pairs_props(s.outputs, deposits);
    lemma_insert_pairs_props(s1.outputs, unlocked);
    lemma_insert_pairs_props(d1.outputs, locked_outputs);
    // Key-set memberships, translated to the pair sequences.
    assert forall|k: OutPoint| #[trigger] deposit_outpoints.to_set().contains(k)
        <==> crate::collections::seq_has_key(deposits, k) by {
        if deposit_outpoints.contains(k) {
            let i = choose|i: int|
                0 <= i < deposit_outpoints.len() && deposit_outpoints[i] == k;
            assert(deposits[i].0 == k);
            assert(crate::collections::seq_has_key(deposits, k));
        }
        if crate::collections::seq_has_key(deposits, k) {
            let i = choose|i: int| 0 <= i < deposits.len() && (#[trigger] deposits[i]).0 == k;
            assert(deposit_outpoints[i] == k);
            assert(deposit_outpoints.contains(k));
        }
    }
    assert forall|k: OutPoint| #[trigger] unlocked_outpoints.to_set().contains(k)
        <==> crate::collections::seq_has_key(unlocked, k) by {
        if unlocked_outpoints.contains(k) {
            let i = choose|i: int|
                0 <= i < unlocked_outpoints.len() && unlocked_outpoints[i] == k;
            assert(unlocked[i].0 == k);
            assert(crate::collections::seq_has_key(unlocked, k));
        }
        if crate::collections::seq_has_key(unlocked, k) {
            let i = choose|i: int| 0 <= i < unlocked.len() && (#[trigger] unlocked[i]).0 == k;
            assert(unlocked_outpoints[i] == k);
            assert(unlocked_outpoints.contains(k));
        }
    }
    assert forall|k: OutPoint| #[trigger] locked.to_set().contains(k)
        <==> crate::collections::seq_has_key(locked_outputs, k) by {
        if locked.contains(k) {
            let i = choose|i: int| 0 <= i < locked.len() && locked[i] == k;
            assert(locked_outputs[i].0 == k);
            assert(crate::collections::seq_has_key(locked_outputs, k));
        }
        if crate::collections::seq_has_key(locked_outputs, k) {
            let i = choose|i: int|
                0 <= i < locked_outputs.len() && (#[trigger] locked_outputs[i]).0 == k;
            assert(locked_outputs[i] == (locked[i], s.outputs[locked[i]]));
            assert(locked[i] == k);
            assert(locked.contains(k));
        }
    }
    // Facts per key class: deposits are fresh; locked and unlocked keys
    // are known outputs, so they are no deposit keys.
    assert forall|k: OutPoint|
        crate::collections::seq_has_key(deposits, k) implies !s.outputs.contains_key(k)
        && !s.unspent.contains(k) by {
        let i = choose|i: int| 0 <= i < deposits.len() && (#[trigger] deposits[i]).0 == k;
    }
    assert forall|k: OutPoint|
        crate::collections::seq_has_key(locked_outputs, k) implies s.unspent.contains(k)
        && s.outputs.contains_key(k) && !crate::collections::seq_has_key(deposits, k)
        && !crate::collections::seq_has_key(unlocked, k) by {
        let i = choose|i: int|
            0 <= i < locked_outputs.len() && (#[trigger] locked_outputs[i]).0 == k;
        assert(locked_outputs[i] == (locked[i], s.outputs[locked[i]]));
        assert(s.unspent.contains(locked[i]));
        if crate::collections::seq_has_key(unlocked, k) {
            let u = choose|u: int| 0 <= u < unlocked.len() && (#[trigger] unlocked[u]).0 == k;
            assert(!locked.contains(unlocked[u].0));
            assert(locked.contains(k));
        }
    }
    assert forall|k: OutPoint|
        crate::collections::seq_has_key(unlocked, k) implies s.outputs.contains_key(k)
        && !s.unspent.contains(k) && !crate::collections::seq_has_key(deposits, k) by {
        let i = choose|i: int| 0 <= i < unlocked.len() && (#[trigger] unlocked[i]).0 == k;
    }
    // The outputs store returns to its prior contents.
    assert(d2.outputs =~= s.outputs) by {
        assert forall|k: OutPoint| #[trigger] d2.outputs.contains_key(k) implies s.outputs
            .contains_key(k) && d2.outputs[k] == s.outputs[k] by {
            if crate::collections::seq_has_key(locked_outputs, k) {
                let i = choose|i: int|
                    0 <= i < locked_outputs.len() && (#[trigger] locked_outputs[i]).0 == k;
                assert(locked_outputs[i] == (locked[i], s.outputs[locked[i]]));
                assert(d2.outputs[k] == s.outputs[k]) by {
                    assert forall|a: int|
                        0 <= a < locked_outputs.len() && (#[trigger] locked_outputs[a]).0
                            == k implies locked_outputs[a].1 == s.outputs[k] by {
                        assert(locked_outputs[a] == (locked[a], s.outputs[locked[a]]));
                    }
                    lemma_insert_pairs_value(d1.outputs, locked_outputs, k, s.outputs[k]);
                }
            } else {
                assert(d1.outputs.contains_key(k));
                assert(!crate::collections::seq_has_key(deposits, k));
                assert(s3.outputs.contains_key(k));
                if crate::collections::seq_has_key(unlocked, k) {
                    assert(s3.outputs[k] == s.outputs[k]) by {
                        assert forall|a: int|
                            0 <= a < unlocked.len() && (#[trigger] unlocked[a]).0 == k implies
                            unlocked[a].1 == s.outputs[k] by {
                            assert(s.outputs[unlocked[a].0] == unlocked[a].1);
                        }
                        lemma_insert_pairs_value(s1.outputs, unlocked, k, s.outputs[k]);
                    }
                } else {
                    assert(s3.outputs[k] == s1.outputs[k]);
                    assert(s1.outputs[k] == s.outputs[k]);
                }
            }
        }
        assert forall|k: OutPoint| #[trigger] s.outputs.contains_key(k) implies d2.outputs
            .contains_key(k) by {
            assert(!crate::collections::seq_has_key(deposits, k));
            assert(s1.outputs.contains_key(k));
            assert(s3.outputs.contains_key(k));
            assert(d1.outputs.contains_key(k));
        }
    }
    // The unspent set returns to its prior contents.
    assert(d3.unspent =~= s.unspent) by {
        assert forall|k: OutPoint| #[trigger] d3.unspent.contains(k) implies s.unspent.contains(
            k,
        ) by {
            if crate::collections::seq_has_key(locked_outputs, k) {
            } else {
                assert(d1.unspent.contains(k));
                assert(s3.unspent.contains(k));
                assert(!crate::collections::seq_has_key(deposits, k));
                assert(!crate::collections::seq_has_key(unlocked, k));
                assert(s2.unspent.contains(k));
            }
        }
        assert forall|k: OutPoint| #[trigger] s.unspent.contains(k) implies d3.unspent.contains(
            k,
        ) by {
            assert(!crate::collections::seq_has_key(deposits, k));
            assert(!crate::collections::seq_has_key(unlocked, k));
            if crate::collections::seq_has_key(locked_outputs, k) {
                assert(d2.unspent.contains(k));
            } else {
                assert(s2.unspent.contains(k));
                assert(s3.unspent.contains(k));
                assert(d1.unspent.contains(k));
                assert(d2.unspent.contains(k));
            }
        }
    }
    assert(spec_disconnect_main(
        spec_connect_main(s, deposits, locked, unlocked),
        deposit_outpoints,
        locked_outputs,
        unlocked_outpoints,
    ) =~~= s);
}

/// Inserting pairs that all carry an expected value leaves that value at
/// any of their keys.
proof fn lemma_insert_pairs_value(
    m: Map<OutPoint, Output>,
    ps: Seq<(OutPoint, Output)>,
    k: OutPoint,
    v: Output,
)
    requires
        crate::collections::seq_has_key(ps, k),
        forall|i: int| 0 <= i < ps.len() && (#[trigger] ps[i]).0 == k ==> ps[i].1 == v,
    ensures
        spec_insert_pairs(m, ps).contains_key(k),
        spec_insert_pairs(m, ps)[k] == v,
    decreases ps.len(),
{
    lemma_insert_pairs_props(m, ps);
    let i = choose|i: int| 0 <= i < ps.len() && (#[trigger] ps[i]).0 == k;
    let pre = ps.drop_last();
    if k == ps.last().0 {
        assert(ps[ps.len() - 1] == ps.last());
    } else {
        assert(i < ps.len() - 1);
        assert(pre[i] == ps[i]);
        assert(crate::collections::seq_has_key(pre, k));
        assert forall|a: int| 0 <= a < pre.len() && (#[trigger] pre[a]).0 == k implies pre[a].1
            == v by {
            assert(pre[a] == ps[a]);
        }
        lemma_insert_pairs_value(m, pre, k, v);
    }
}

/// Law: ingesting a main-chain block preserves the ledger invariant.
pub proof fn lemma_connect_main_preserves_inv(
    s: StateView,
    deposits: Seq<(OutPoint, Output)>,
    locked: Seq<OutPoint>,
    unlocked: Seq<(OutPoint, Output)>,
)
    requires
        spec_state_inv(s),
    ensures
        spec_state_inv(spec_connect_main(s, deposits, locked, unlocked)),
{
    let s1 = spec_add_pairs_state(s, deposits);
    lemma_add_pairs_char(s, deposits);
    lemma_insert_pairs_props(s.outputs, deposits);
    assert(spec_state_inv(s1)) by {
        assert forall|k: OutPoint| #[trigger] s1.unspent.contains(k) implies s1.outputs
            .dom().contains(k) by {
            if spec_pairs_key_set(deposits).contains(k) {
                assert(spec_insert_pairs(s.outputs, deposits).contains_key(k));
            } else {
                assert(spec_insert_pairs(s.outputs, deposits).contains_key(k));
            }
        }
    }
    let s2 = spec_remove_unspent(s1, locked);
    lemma_remove_unspent_char(s1, locked);
    lemma_add_pairs_char(s2, unlocked);
    lemma_insert_pairs_props(s2.outputs, unlocked);
    assert forall|k: OutPoint|
        #[trigger] spec_connect_main(s, deposits, locked, unlocked).unspent.contains(
            k,
        ) implies spec_connect_main(s, deposits, locked, unlocked).outputs.dom().contains(k) by {
        if spec_pairs_key_set(unlocked).contains(k) {
            assert(spec_insert_pairs(s2.outputs, unlocked).contains_key(k));
        } else {
            assert(s2.unspent.contains(k));
            assert(s2.outputs.contains_key(k));
            assert(spec_insert_pairs(s2.outputs, unlocked).contains_key(k));
        }
    }
}

/// Law: undoing a main-chain block preserves the ledger invariant.
pub proof fn lemma_disconnect_main_preserves_inv(
    s: StateView,
    deposit_outpoints: Seq<OutPoint>,
    locked: Seq<(OutPoint, Output)>,
    unlocked: Seq<OutPoint>,
)
    requires
        spec_state_inv(s),
    ensures
        spec_state_inv(spec_disconnect_main(s, deposit_outpoints, locked, unlocked)),
{
    let s1 = spec_drop_pairs_state(s, deposit_outpoints);
    lemma_drop_pairs_char(s, deposit_outpoints);
    assert(spec_state_inv(s1));
    let s2 = spec_add_pairs_state(s1, locked);
    lemma_add_pairs_char(s1, locked);
    lemma_insert_pairs_props(s1.outputs, locked);
    assert(spec_state_inv(s2)) by {
        assert forall|k: OutPoint| #[trigger] s2.unspent.contains(k) implies s2.outputs
            .dom().contains(k) by {
            if spec_pairs_key_set(locked).contains(k) {
                assert(spec_insert_pairs(s1.outputs, locked).contains_key(k));
            } else {
                assert(spec_insert_pairs(s1.outputs, locked).contains_key(k));
            }
        }
    }
    lemma_remove_unspent_char(s2, unlocked);
}

} // verus!
