//! Replays a log of ledger events (deposits, withdrawals, disputes,
//! resolves and chargebacks) against per-client accounts.
//!
//! Amounts are fixed-point: an [`transaction_parser::Amount`] counts
//! ten-thousandths of a currency unit, so repeated additions and
//! subtractions never drift.
pub mod account_manager;
pub mod transaction_parser;
pub mod writer;

use vstd::prelude::*;

use crate::account_manager::{apply_all, empty_ledger, snapshot_spec, AccountManager};
use crate::transaction_parser::Transaction;
use crate::writer::AccountSummary;

verus! {

/// Applies the events to the ledger, in order.
pub fn process(events: &Vec<Transaction>, processor: &mut AccountManager)
    requires
        old(processor).wf(),
    ensures
        final(processor).wf(),
        final(processor)@ == apply_all(old(processor)@, events@),
{
    let mut i: usize = 0;
    while i < events.len()
        invariant
            i <= events@.len(),
            processor.wf(),
            processor@ == apply_all(old(processor)@, events@.take(i as int)),
        decreases events@.len() - i,
    {
        proof {
            assert(events@.take(i + 1).drop_last() =~= events@.take(i as int));
        }
        processor.process_row(events[i]);
        i = i + 1;
    }
    assert(events@.take(i as int) =~= events@);
}

/// Replays the events against a fresh ledger and returns one summary per
/// client, in order of first appearance.
pub fn run(events: &Vec<Transaction>) -> (r: Vec<AccountSummary>)
    ensures
        r@ == snapshot_spec(apply_all(empty_ledger(), events@)),
{
    let mut processor = AccountManager::new();
    process(events, &mut processor);
    processor.iter()
}

} // verus!
