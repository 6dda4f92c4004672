//! The event records that drive the ledger.
use vstd::prelude::*;

verus! {

/// Identifies an account holder.
pub type ClientId = u16;

/// Identifies a transaction.
pub type TxId = u32;

/// A signed fixed-point quantity, counted in units of `1 / AMOUNT_SCALE`.
pub type Amount = i64;

/// Number of amount units in one currency unit (four fractional digits).
pub const AMOUNT_SCALE: i64 = 10000;

/// The kind of a ledger event.
#[derive(Debug, Clone, Copy, PartialEq, Eq, Structural)]
pub enum TransactionType {
    Deposit,
    Withdrawal,
    Dispute,
    Resolve,
    Chargeback,
}

/// One ledger event. `amount` is required for deposits and withdrawals and
/// ignored for the other kinds.
#[derive(Debug, Clone, Copy, PartialEq, Eq, Structural)]
pub struct Transaction {
    pub kind: TransactionType,
    pub client: ClientId,
    pub tx: TxId,
    pub amount: Option<Amount>,
}

impl Transaction {
    /// Deposits and withdrawals carry an amount.
    pub open spec fn well_formed(&self) -> bool {
        match self.kind {
            TransactionType::Deposit | TransactionType::Withdrawal => self.amount.is_some(),
            _ => true,
        }
    }

    /// Executable form of `well_formed`, for callers that build events from
    /// untrusted input.
    pub fn is_well_formed(&self) -> (r: bool)
        ensures
            r == self.well_formed(),
    {
        match self.kind {
            TransactionType::Deposit | TransactionType::Withdrawal => self.amount.is_some(),
            _ => true,
        }
    }
}

/// Number of fractional digits that an amount keeps.
pub const AMOUNT_DIGITS: usize = 4;

pub open spec fn is_digit(b: u8) -> bool {
    48 <= b <= 57
}

pub open spec fn all_digits(s: Seq<u8>) -> bool {
    forall|i: int| 0 <= i < s.len() ==> is_digit(#[trigger] s[i])
}

/// Value of a string of decimal digits.
pub open spec fn digits_value(s: Seq<u8>) -> int
    decreases s.len(),
{
    if s.len() == 0 {
        0
    } else {
        digits_value(s.drop_last()) * 10 + (s.last() - 48)
    }
}

/// Position of the first `.` in `s`, or `s.len()` when there is none.
pub open spec fn dot_position(s: Seq<u8>) -> int
    decreases s.len(),
{
    if s.len() == 0 {
        0
    } else if s[0] == 46 {
        0
    } else {
        1 + dot_position(s.subrange(1, s.len() as int))
    }
}

pub open spec fn pow10(n: nat) -> int
    decreases n,
{
    if n == 0 {
        1
    } else {
        10 * pow10((n - 1) as nat)
    }
}

/// The digits before the decimal point.
pub open spec fn whole_part(s: Seq<u8>) -> Seq<u8> {
    s.take(dot_position(s))
}

/// The digits after the decimal point (empty when there is no point).
pub open spec fn fraction_part(s: Seq<u8>) -> Seq<u8> {
    if dot_position(s) < s.len() {
        s.skip(dot_position(s) + 1)
    } else {
        Seq::empty()
    }
}

/// Text of the form `digits[.digits]`, with at least one digit and at most
/// `AMOUNT_DIGITS` after the point.
pub open spec fn is_decimal(s: Seq<u8>) -> bool {
    &&& all_digits(whole_part(s))
    &&& all_digits(fraction_part(s))
    &&& fraction_part(s).len() <= AMOUNT_DIGITS
    &&& whole_part(s).len() + fraction_part(s).len() > 0
}

/// Number of amount units that decimal text denotes.
pub open spec fn decimal_units(s: Seq<u8>) -> int {
    digits_value(whole_part(s)) * AMOUNT_SCALE + digits_value(fraction_part(s)) * pow10(
        (AMOUNT_DIGITS - fraction_part(s).len()) as nat,
    )
}

/// Saturating accumulation bound: any value at or above it is out of range.
const UNITS_CAP: u128 = 9223372036854775808;

proof fn lemma_digits_step(s: Seq<u8>, i: int)
    requires
        0 <= i < s.len(),
    ensures
        digits_value(s.take(i + 1)) == digits_value(s.take(i)) * 10 + (s[i] - 48),
{
    assert(s.take(i + 1).drop_last() =~= s.take(i));
}

proof fn lemma_dot_position(s: Seq<u8>)
    ensures
        0 <= dot_position(s) <= s.len(),
        dot_position(s) < s.len() ==> s[dot_position(s)] == 46,
        forall|k: int| 0 <= k < dot_position(s) ==> s[k] != 46,
    decreases s.len(),
{
    if s.len() > 0 && s[0] != 46 {
        let t = s.subrange(1, s.len() as int);
        lemma_dot_position(t);
        assert forall|k: int| 0 <= k < dot_position(s) implies s[k] != 46 by {
            if k > 0 {
                assert(s[k] == t[k - 1]);
            }
        }
    }
}

/// Reads the digits of `s[start..end]`, saturating at `UNITS_CAP`.
fn read_digits(s: &[u8], start: usize, end: usize) -> (r: Option<u128>)
    requires
        start <= end <= s@.len(),
    ensures
        match r {
            Some(v) => all_digits(s@.subrange(start as int, end as int)) && v as int == if digits_value(
                s@.subrange(start as int, end as int),
            ) < UNITS_CAP {
                digits_value(s@.subrange(start as int, end as int))
            } else {
                UNITS_CAP as int
            },
            None => !all_digits(s@.subrange(start as int, end as int)),
        },
{
    let ghost d = s@.subrange(start as int, end as int);
    let mut v: u128 = 0;
    let mut i: usize = start;
    while i < end
        invariant
            start <= i <= end <= s@.len(),
            d == s@.subrange(start as int, end as int),
            all_digits(d.take(i - start)),
            v as int == if digits_value(d.take(i - start)) < UNITS_CAP {
                digits_value(d.take(i - start))
            } else {
                UNITS_CAP as int
            },
            digits_value(d.take(i - start)) >= 0,
        decreases end - i,
    {
        let b = s[i];
        if b < 48 || b > 57 {
            assert(d[i - start] == b);
            return None;
        }
        proof {
            lemma_digits_step(d, i - start);
            assert(d.take(i - start + 1) =~= d.take(i - start).push(b));
        }
        let next = v * 10 + (b - 48) as u128;
        v = if next < UNITS_CAP {
            next
        } else {
            UNITS_CAP
        };
        i = i + 1;
    }
    assert(d.take(end - start) =~= d);
    Some(v)
}

/// Parses decimal text such as `12.5` into amount units. `None` when the
/// text is not of the form `digits[.digits]` with at most `AMOUNT_DIGITS`
/// fractional digits, or when the value exceeds the `Amount` range.
pub fn parse_amount(s: &[u8]) -> (r: Option<Amount>)
    ensures
        r == if is_decimal(s@) && decimal_units(s@) <= i64::MAX {
            Some(decimal_units(s@) as i64)
        } else {
            None::<i64>
        },
{
    proof {
        lemma_dot_position(s@);
    }
    let mut dot: usize = 0;
    while dot < s.len() && s[dot] != 46
        invariant
            dot <= s@.len(),
            dot <= dot_position(s@),
            0 <= dot_position(s@) <= s@.len(),
            dot_position(s@) < s@.len() ==> s@[dot_position(s@)] == 46,
        decreases s@.len() - dot,
    {
        dot = dot + 1;
    }
    assert(dot == dot_position(s@));
    let frac_start: usize = if dot < s.len() {
        dot + 1
    } else {
        s.len()
    };
    assert(s@.subrange(0, dot as int) =~= whole_part(s@));
    assert(s@.subrange(frac_start as int, s@.len() as int) =~= fraction_part(s@));
    let whole = match read_digits(s, 0, dot) {
        Some(v) => v,
        None => {
            return None;
        },
    };
    let frac = match read_digits(s, frac_start, s.len()) {
        Some(v) => v,
        None => {
            return None;
        },
    };
    let frac_len = s.len() - frac_start;
    if frac_len > AMOUNT_DIGITS || dot + frac_len == 0 {
        return None;
    }
    let scale: u128 = match frac_len {
        0 => 10000,
        1 => 1000,
        2 => 100,
        3 => 10,
        _ => 1,
    };
    proof {
        assert(pow10(0) == 1);
        assert(pow10(1) == 10);
        assert(pow10(2) == 100);
        assert(pow10(3) == 1000);
        assert(pow10(4) == 10000);
        assert(scale as int == pow10((AMOUNT_DIGITS - frac_len) as nat));
        assert(digits_value(fraction_part(s@)) < pow10(frac_len as nat)) by {
            lemma_digits_bound(fraction_part(s@));
        }
    }
    if whole >= UNITS_CAP {
        return None;
    }
    assert(frac < 10000);
    assert(whole * 10000 <= UNITS_CAP * 10000) by (nonlinear_arith)
        requires
            whole < UNITS_CAP,
    ;
    assert(frac * scale <= 10000 * 10000) by (nonlinear_arith)
        requires
            frac < 10000,
            scale <= 10000,
    ;
    let units = whole * 10000 + frac * scale;
    if units > i64::MAX as u128 {
        return None;
    }
    Some(units as i64)
}

proof fn lemma_digits_bound(s: Seq<u8>)
    requires
        all_digits(s),
    ensures
        0 <= digits_value(s) < pow10(s.len()),
    decreases s.len(),
{
    if s.len() > 0 {
        let t = s.drop_last();
        assert(all_digits(t)) by {
            assert forall|i: int| 0 <= i < t.len() implies is_digit(#[trigger] t[i]) by {
                assert(t[i] == s[i]);
            }
        }
        lemma_digits_bound(t);
        assert(is_digit(s[s.len() - 1]));
    }
}

} // verus!
