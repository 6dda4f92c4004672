//! The per-account summary that the ledger reports.
use vstd::prelude::*;

use crate::transaction_parser::{Amount, ClientId, AMOUNT_SCALE};

verus! {

/// Read-only projection of one account.
#[derive(Debug, Clone, Copy, PartialEq, Eq, Structural)]
pub struct AccountSummary {
    pub client: ClientId,
    pub available: Amount,
    pub held: Amount,
    pub total: Amount,
    pub locked: bool,
}

/// Decimal digits of an amount, for printing as `[-]whole.fraction` with the
/// fraction written on four digits.
pub struct AmountDigits {
    pub negative: bool,
    pub whole: u64,
    pub fraction: u64,
}

/// Splits an amount into its sign, whole currency units and remaining units.
pub fn split_amount(a: Amount) -> (r: AmountDigits)
    ensures
        r.negative == (a < 0),
        r.fraction < AMOUNT_SCALE,
        r.whole * AMOUNT_SCALE + r.fraction == if a < 0 {
            -a
        } else {
            a as int
        },
{
    let magnitude: u64 = if a < 0 {
        (-(a as i128)) as u64
    } else {
        a as u64
    };
    AmountDigits {
        negative: a < 0,
        whole: magnitude / (AMOUNT_SCALE as u64),
        fraction: magnitude % (AMOUNT_SCALE as u64),
    }
}

} // verus!
