//! Reusable interfaces around the validator: a UTXO lookup capability, a
//! ledger-snapshot abstraction, and the application-rule hook.

use vstd::prelude::*;
use crate::types::{OutPoint, Output, Transaction, Body};
use crate::collections::AssocMap;
use crate::validator::{Error, spec_validate_transaction_ok, spec_fee, spec_tx_error_witness};

verus! {

/// A lookup table of unspent outputs keyed by outpoint.
pub trait UtxoMap<P, O> {
    /// The outpoint-to-output mapping this table denotes.
    spec fn spec_utxos(&self) -> Map<P, O>;

    /// The table's own well-formedness.
    spec fn utxo_wf(&self) -> bool;

    /// The output an outpoint names, when the table holds it.
    fn get_utxo(&self, outpoint: &P) -> (r: Option<O>)
        requires
            self.utxo_wf(),
        ensures
            match r {
                Some(o) => self.spec_utxos().contains_key(*outpoint) && o == self.spec_utxos().index(
                    *outpoint,
                ),
                None => !self.spec_utxos().contains_key(*outpoint),
            },
    ;

    /// All outputs the outpoints name, in order; `None` when any is
    /// missing.
    fn get_utxos(&self, outpoints: &Vec<P>) -> (r: Option<Vec<O>>)
        requires
            self.utxo_wf(),
        ensures
            match r {
                Some(v) => v@.len() == outpoints@.len() && forall|i: int|
                    0 <= i < outpoints@.len() ==> self.spec_utxos().contains_key(
                        #[trigger] outpoints@[i],
                    ) && v@[i] == self.spec_utxos()[outpoints@[i]],
                None => exists|i: int|
                    0 <= i < outpoints@.len() && !self.spec_utxos().contains_key(
                        #[trigger] outpoints@[i],
                    ),
            },
    ;

    /// Whether the table no longer holds the outpoint.
    fn is_spent(&self, outpoint: &P) -> (r: bool)
        requires
            self.utxo_wf(),
        ensures
            r == !self.spec_utxos().contains_key(*outpoint),
    ;

    /// Whether any of the outpoints is no longer held.
    fn any_spent(&self, outpoints: &Vec<P>) -> (r: bool)
        requires
            self.utxo_wf(),
        ensures
            r == exists|i: int|
                0 <= i < outpoints@.len() && !self.spec_utxos().contains_key(
                    #[trigger] outpoints@[i],
                ),
    ;
}

impl UtxoMap<OutPoint, Output> for AssocMap<OutPoint, Output> {
    open spec fn spec_utxos(&self) -> Map<OutPoint, Output> {
        self@
    }

    open spec fn utxo_wf(&self) -> bool {
        self.wf()
    }

    fn get_utxo(&self, outpoint: &OutPoint) -> (r: Option<Output>) {
        match self.get(outpoint) {
            Some(o) => Some(*o),
            None => None,
        }
    }

    fn get_utxos(&self, outpoints: &Vec<OutPoint>) -> (r: Option<Vec<Output>>) {
        let mut v: Vec<Output> = Vec::new();
        let mut i: usize = 0;
        while i < outpoints.len()
            invariant
                self.wf(),
                0 <= i <= outpoints@.len(),
                v@.len() == i,
                forall|k: int|
                    0 <= k < i ==> self@.contains_key(#[trigger] outpoints@[k]) && v@[k]
                        == self@[outpoints@[k]],
            decreases outpoints@.len() - i,
        {
            match self.get(&outpoints[i]) {
                Some(o) => v.push(*o),
                None => {
                    return None;
                },
            }
            i += 1;
        }
        Some(v)
    }

    fn is_spent(&self, outpoint: &OutPoint) -> (r: bool) {
        !self.contains_key(outpoint)
    }

    fn any_spent(&self, outpoints: &Vec<OutPoint>) -> (r: bool) {
        let mut i: usize = 0;
        while i < outpoints.len()
            invariant
                self.wf(),
                0 <= i <= outpoints@.len(),
                forall|k: int| 0 <= k < i ==> self@.contains_key(#[trigger] outpoints@[k]),
            decreases outpoints@.len() - i,
        {
            if !self.contains_key(&outpoints[i]) {
                return true;
            }
            i += 1;
        }
        false
    }
}

/// A ledger snapshot a caller can judge transactions and bodies against,
/// and extend. Users implement this for their own state types; no
/// behavior is promised of an implementation beyond its own contracts.
pub trait State {
    type Err;

    fn validate_transaction(&self, transaction: &Transaction) -> Result<(), Self::Err>;

    fn validate_body(&self, body: &Body) -> Result<(), Self::Err>;

    fn connect_body(&mut self, body: &Body) -> Result<(), Self::Err>;
}

/// An application-defined rule, run before regular validation. The rule
/// sees the transaction and its resolved spent outputs; no behavior is
/// promised of an implementation.
pub trait CustomValidator {
    fn custom_validate_transaction(&self, spent_utxos: &Vec<Output>, transaction: &Transaction)
        -> Result<(), String>;
}

/// Runs the application-defined rule, then regular validation. A rule
/// failure surfaces as `CustomRule` with the rule's message; otherwise
/// the result is exactly that of regular validation.
pub fn validate_transaction_with<V: CustomValidator>(
    validator: &V,
    spent_utxos: &Vec<Output>,
    transaction: &Transaction,
) -> (r: Result<u64, Error>)
    requires
        spent_utxos@.len() == transaction.inputs@.len(),
    ensures
        match r {
            Ok(fee) => spec_validate_transaction_ok(spent_utxos@, *transaction) && fee == spec_fee(
                spent_utxos@,
                *transaction,
            ),
            Err(e) => (e matches Error::CustomRule { message: _ }) || (
            !spec_validate_transaction_ok(spent_utxos@, *transaction) && spec_tx_error_witness(
                spent_utxos@,
                *transaction,
                e,
            )),
        },
{
    match validator.custom_validate_transaction(spent_utxos, transaction) {
        Ok(()) => crate::validator::validate_transaction(spent_utxos, transaction),
        Err(message) => Err(Error::CustomRule { message }),
    }
}

} // verus!
