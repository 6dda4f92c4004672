//! The ledger: per-client accounts and the rules that apply each event.
use std::collections::HashMap;

use vstd::prelude::*;
use vstd::std_specs::hash::group_hash_axioms;

use crate::transaction_parser::{Amount, ClientId, Transaction, TransactionType, TxId};
use crate::writer::AccountSummary;

verus! {

broadcast use group_hash_axioms;

/// Whether `x` is representable as an `Amount`.
pub open spec fn fits(x: int) -> bool {
    i64::MIN <= x <= i64::MAX
}

/// Sum of the amounts of a list of holds.
pub open spec fn held_sum(h: Seq<(TxId, Amount)>) -> int
    decreases h.len(),
{
    if h.len() == 0 {
        0
    } else {
        held_sum(h.drop_last()) + h.last().1
    }
}

/// Position of the hold for `tx`, or -1 when there is none.
pub open spec fn held_find(h: Seq<(TxId, Amount)>, tx: TxId) -> int
    decreases h.len(),
{
    if h.len() == 0 {
        -1
    } else if h.last().0 == tx {
        h.len() - 1
    } else {
        held_find(h.drop_last(), tx)
    }
}

/// No transaction is held twice.
pub open spec fn keys_unique(h: Seq<(TxId, Amount)>) -> bool {
    forall|i: int, j: int| 0 <= i < j < h.len() ==> h[i].0 != h[j].0
}

/// Mathematical state of one account.
pub ghost struct AccountModel {
    /// Funds that can be withdrawn.
    pub available: int,
    /// Disputed transactions and the amounts frozen for them.
    pub held: Seq<(TxId, Amount)>,
    /// Amount of the last deposit recorded under each transaction id.
    pub deposits: Map<TxId, Amount>,
    /// Set by a chargeback; a locked account accepts no further change.
    pub locked: bool,
}

impl AccountModel {
    pub open spec fn held_total(self) -> int {
        held_sum(self.held)
    }

    pub open spec fn total(self) -> int {
        self.available + held_sum(self.held)
    }

    /// Every balance that a summary reports is representable.
    pub open spec fn in_range(self) -> bool {
        &&& fits(self.available)
        &&& fits(self.held_total())
        &&& fits(self.total())
    }
}

/// A freshly created account: no funds, no holds, unlocked.
pub open spec fn empty_account() -> AccountModel {
    AccountModel { available: 0, held: Seq::empty(), deposits: Map::empty(), locked: false }
}

/// A deposit adds to `available` and records its amount (last write wins).
pub open spec fn deposit_spec(a: AccountModel, amount: Amount, tx: TxId) -> AccountModel {
    AccountModel {
        available: a.available + amount,
        deposits: a.deposits.insert(tx, amount),
        ..a
    }
}

/// A withdrawal goes through only when it does not exceed `available`.
pub open spec fn withdraw_spec(a: AccountModel, amount: Amount) -> AccountModel {
    if amount <= a.available {
        AccountModel { available: a.available - amount, ..a }
    } else {
        a
    }
}

/// A dispute of a recorded deposit moves its amount from `available` into a
/// hold (replacing an earlier hold of the same transaction).
pub open spec fn dispute_spec(a: AccountModel, tx: TxId) -> AccountModel {
    if a.deposits.contains_key(tx) {
        let amount = a.deposits[tx];
        let i = held_find(a.held, tx);
        AccountModel {
            available: a.available - amount,
            held: if i >= 0 {
                a.held.update(i, (tx, amount))
            } else {
                a.held.push((tx, amount))
            },
            ..a
        }
    } else {
        a
    }
}

/// A resolve releases a hold back into `available`.
pub open spec fn resolve_spec(a: AccountModel, tx: TxId) -> AccountModel {
    let i = held_find(a.held, tx);
    if i >= 0 {
        AccountModel { available: a.available + a.held[i].1, held: a.held.remove(i), ..a }
    } else {
        a
    }
}

/// A chargeback forfeits a hold and locks the account.
pub open spec fn chargeback_spec(a: AccountModel, tx: TxId) -> AccountModel {
    let i = held_find(a.held, tx);
    if i >= 0 {
        AccountModel { held: a.held.remove(i), locked: true, ..a }
    } else {
        a
    }
}

/// The state an unlocked account would reach, before the range check.
pub open spec fn proposed(a: AccountModel, t: Transaction) -> AccountModel {
    match t.kind {
        TransactionType::Deposit => match t.amount {
            Some(x) => deposit_spec(a, x, t.tx),
            None => a,
        },
        TransactionType::Withdrawal => match t.amount {
            Some(x) => withdraw_spec(a, x),
            None => a,
        },
        TransactionType::Dispute => dispute_spec(a, t.tx),
        TransactionType::Resolve => resolve_spec(a, t.tx),
        TransactionType::Chargeback => chargeback_spec(a, t.tx),
    }
}

/// Effect of one event on its account. A locked account ignores every event;
/// an event whose outcome would leave a balance outside the `Amount` range is
/// ignored like any other rejected event.
pub open spec fn step(a: AccountModel, t: Transaction) -> AccountModel {
    if a.locked {
        a
    } else if proposed(a, t).in_range() {
        proposed(a, t)
    } else {
        a
    }
}

/// The reported projection of an account.
pub open spec fn summary_of(client: ClientId, a: AccountModel) -> AccountSummary {
    AccountSummary {
        client,
        available: a.available as i64,
        held: a.held_total() as i64,
        total: a.total() as i64,
        locked: a.locked,
    }
}

proof fn lemma_sum_push(h: Seq<(TxId, Amount)>, x: (TxId, Amount))
    ensures
        held_sum(h.push(x)) == held_sum(h) + x.1,
{
    assert(h.push(x).drop_last() =~= h);
}

proof fn lemma_sum_update(h: Seq<(TxId, Amount)>, i: int, x: (TxId, Amount))
    requires
        0 <= i < h.len(),
    ensures
        held_sum(h.update(i, x)) == held_sum(h) - h[i].1 + x.1,
    decreases h.len(),
{
    if i == h.len() - 1 {
        assert(h.update(i, x).drop_last() =~= h.drop_last());
    } else {
        lemma_sum_update(h.drop_last(), i, x);
        assert(h.update(i, x).drop_last() =~= h.drop_last().update(i, x));
    }
}

proof fn lemma_sum_remove(h: Seq<(TxId, Amount)>, i: int)
    requires
        0 <= i < h.len(),
    ensures
        held_sum(h.remove(i)) == held_sum(h) - h[i].1,
    decreases h.len(),
{
    if i == h.len() - 1 {
        assert(h.remove(i) =~= h.drop_last());
    } else {
        lemma_sum_remove(h.drop_last(), i);
        assert(h.remove(i).drop_last() =~= h.drop_last().remove(i));
    }
}

proof fn lemma_find(h: Seq<(TxId, Amount)>, tx: TxId)
    requires
        keys_unique(h),
    ensures
        -1 <= held_find(h, tx) < h.len(),
        held_find(h, tx) >= 0 ==> h[held_find(h, tx)].0 == tx,
        held_find(h, tx) < 0 ==> forall|k: int| 0 <= k < h.len() ==> h[k].0 != tx,
        forall|k: int| 0 <= k < h.len() && h[k].0 == tx ==> held_find(h, tx) == k,
    decreases h.len(),
{
    if h.len() > 0 {
        let t = h.drop_last();
        lemma_find(t, tx);
        assert(keys_unique(t));
        assert forall|k: int| 0 <= k < t.len() implies t[k] == h[k] by {}
    }
}


/// Keeps `next` when all its balances are representable, else `a`.
pub open spec fn guarded(a: AccountModel, next: AccountModel) -> AccountModel {
    if next.in_range() {
        next
    } else {
        a
    }
}

/// Whether `x` lies in the `Amount` range.
fn amount_fits(x: i128) -> (r: bool)
    ensures
        r == fits(x as int),
{
    i64::MIN as i128 <= x && x <= i64::MAX as i128
}

/// State of one client's account.
pub struct Account {
    available: Amount,
    held: Vec<(TxId, Amount)>,
    held_total: Amount,
    deposit_amounts: HashMap<TxId, Amount>,
    locked: bool,
}

impl View for Account {
    type V = AccountModel;

    closed spec fn view(&self) -> AccountModel {
        AccountModel {
            available: self.available as int,
            held: self.held@,
            deposits: self.deposit_amounts@,
            locked: self.locked,
        }
    }
}

impl Account {
    /// Holds are keyed uniquely, the cached held balance is their sum, and
    /// every reported balance is representable.
    pub closed spec fn wf(&self) -> bool {
        &&& keys_unique(self.held@)
        &&& self.held_total as int == held_sum(self.held@)
        &&& self@.in_range()
    }

    /// An account with no funds, no holds, unlocked.
    pub fn new() -> (r: Account)
        ensures
            r.wf(),
            r@ == empty_account(),
    {
        Account {
            available: 0,
            held: Vec::new(),
            held_total: 0,
            deposit_amounts: HashMap::new(),
            locked: false,
        }
    }

    /// Sum of the amounts currently held.
    pub fn held_amount(&self) -> (r: Amount)
        requires
            self.wf(),
        ensures
            r as int == self@.held_total(),
    {
        self.held_total
    }

    /// Available plus held.
    pub fn total(&self) -> (r: Amount)
        requires
            self.wf(),
        ensures
            r as int == self@.total(),
    {
        self.available + self.held_total
    }

    /// The account's projection under the given client id.
    pub fn summary(&self, client: ClientId) -> (r: AccountSummary)
        requires
            self.wf(),
        ensures
            r == summary_of(client, self@),
            r.total as int == r.available as int + r.held as int,
    {
        AccountSummary {
            client,
            available: self.available,
            held: self.held_amount(),
            total: self.total(),
            locked: self.locked,
        }
    }

    fn find_hold(&self, tx: TxId) -> (r: Option<usize>)
        requires
            self.wf(),
        ensures
            match r {
                Some(i) => i as int == held_find(self.held@, tx) && i < self.held@.len(),
                None => held_find(self.held@, tx) < 0,
            },
    {
        let mut i: usize = 0;
        while i < self.held.len()
            invariant
                i <= self.held@.len(),
                self.wf(),
                forall|k: int| 0 <= k < i ==> self.held@[k].0 != tx,
            decreases self.held@.len() - i,
        {
            if self.held[i].0 == tx {
                proof {
                    lemma_find(self.held@, tx);
                }
                return Some(i);
            }
            i = i + 1;
        }
        proof {
            lemma_find(self.held@, tx);
        }
        None
    }

    fn deposit(&mut self, amount: Amount, tx: TxId)
        requires
            old(self).wf(),
        ensures
            final(self).wf(),
            final(self)@ == guarded(old(self)@, deposit_spec(old(self)@, amount, tx)),
    {
        let avail = self.available as i128 + amount as i128;
        let total = avail + self.held_total as i128;
        if amount_fits(avail) && amount_fits(total) {
            self.available = avail as i64;
            self.deposit_amounts.insert(tx, amount);
        }
    }

    fn withdraw(&mut self, amount: Amount)
        requires
            old(self).wf(),
        ensures
            final(self).wf(),
            final(self)@ == guarded(old(self)@, withdraw_spec(old(self)@, amount)),
    {
        if amount <= self.available {
            let avail = self.available as i128 - amount as i128;
            let total = avail + self.held_total as i128;
            if amount_fits(avail) && amount_fits(total) {
                self.available = avail as i64;
            }
        }
    }

    fn dispute(&mut self, tx: TxId)
        requires
            old(self).wf(),
        ensures
            final(self).wf(),
            final(self)@ == guarded(old(self)@, dispute_spec(old(self)@, tx)),
    {
        let amount = match self.deposit_amounts.get(&tx) {
            Some(a) => *a,
            None => {
                return;
            },
        };
        let avail = self.available as i128 - amount as i128;
        let found = self.find_hold(tx);
        let held = match found {
            Some(i) => self.held_total as i128 - self.held[i].1 as i128 + amount as i128,
            None => self.held_total as i128 + amount as i128,
        };
        let total = avail + held;
        proof {
            lemma_find(self.held@, tx);
            match found {
                Some(i) => lemma_sum_update(self.held@, i as int, (tx, amount)),
                None => lemma_sum_push(self.held@, (tx, amount)),
            }
        }
        if amount_fits(avail) && amount_fits(held) && amount_fits(total) {
            match found {
                Some(i) => {
                    self.held.set(i, (tx, amount));
                },
                None => {
                    self.held.push((tx, amount));
                },
            }
            self.available = avail as i64;
            self.held_total = held as i64;
        }
    }

    fn resolve(&mut self, tx: TxId)
        requires
            old(self).wf(),
        ensures
            final(self).wf(),
            final(self)@ == guarded(old(self)@, resolve_spec(old(self)@, tx)),
    {
        if let Some(i) = self.find_hold(tx) {
            let amount = self.held[i].1;
            let avail = self.available as i128 + amount as i128;
            let held = self.held_total as i128 - amount as i128;
            proof {
                lemma_sum_remove(self.held@, i as int);
                lemma_find(self.held@, tx);
            }
            if amount_fits(avail) && amount_fits(held) {
                self.held.remove(i);
                self.available = avail as i64;
                self.held_total = held as i64;
            }
        }
    }

    fn chargeback(&mut self, tx: TxId)
        requires
            old(self).wf(),
        ensures
            final(self).wf(),
            final(self)@ == guarded(old(self)@, chargeback_spec(old(self)@, tx)),
    {
        if let Some(i) = self.find_hold(tx) {
            let amount = self.held[i].1;
            let held = self.held_total as i128 - amount as i128;
            let total = self.available as i128 + held;
            proof {
                lemma_sum_remove(self.held@, i as int);
                lemma_find(self.held@, tx);
            }
            if amount_fits(held) && amount_fits(total) {
                self.held.remove(i);
                self.held_total = held as i64;
                self.locked = true;
            }
        }
    }

    /// Applies one event to this account.
    pub fn apply(&mut self, t: Transaction)
        requires
            old(self).wf(),
        ensures
            final(self).wf(),
            final(self)@ == step(old(self)@, t),
    {
        if self.locked {
            return;
        }
        match t.kind {
            TransactionType::Deposit => {
                if let Some(x) = t.amount {
                    self.deposit(x, t.tx);
                }
            },
            TransactionType::Withdrawal => {
                if let Some(x) = t.amount {
                    self.withdraw(x);
                }
            },
            TransactionType::Dispute => self.dispute(t.tx),
            TransactionType::Resolve => self.resolve(t.tx),
            TransactionType::Chargeback => self.chargeback(t.tx),
        }
    }
}

/// Mathematical state of the whole ledger: the clients in order of first
/// appearance, and each one's account.
pub ghost struct LedgerModel {
    pub clients: Seq<ClientId>,
    pub accounts: Map<ClientId, AccountModel>,
}

/// A ledger that has seen no event.
pub open spec fn empty_ledger() -> LedgerModel {
    LedgerModel { clients: Seq::empty(), accounts: Map::empty() }
}

/// Effect of one event on the ledger: the addressed account is created on
/// first reference, then the event is applied to it.
pub open spec fn apply_spec(l: LedgerModel, t: Transaction) -> LedgerModel {
    let c = t.client;
    if l.accounts.contains_key(c) {
        LedgerModel { clients: l.clients, accounts: l.accounts.insert(c, step(l.accounts[c], t)) }
    } else {
        LedgerModel {
            clients: l.clients.push(c),
            accounts: l.accounts.insert(c, step(empty_account(), t)),
        }
    }
}

/// Effect of a sequence of events, applied in order.
pub open spec fn apply_all(l: LedgerModel, ts: Seq<Transaction>) -> LedgerModel
    decreases ts.len(),
{
    if ts.len() == 0 {
        l
    } else {
        apply_spec(apply_all(l, ts.drop_last()), ts.last())
    }
}

/// One summary per known client, in order of first appearance.
pub open spec fn snapshot_spec(l: LedgerModel) -> Seq<AccountSummary> {
    l.clients.map_values(|c: ClientId| summary_of(c, l.accounts[c]))
}

/// All accounts, keyed by client.
pub struct AccountManager {
    accounts: HashMap<ClientId, Account>,
    clients: Vec<ClientId>,
}

impl View for AccountManager {
    type V = LedgerModel;

    closed spec fn view(&self) -> LedgerModel {
        LedgerModel {
            clients: self.clients@,
            accounts: self.accounts@.map_values(|a: Account| a@),
        }
    }
}

impl Default for AccountManager {
    fn default() -> (r: AccountManager)
        ensures
            r.wf(),
            r@ == empty_ledger(),
    {
        AccountManager::new()
    }
}

impl AccountManager {
    /// Each known client is listed once, and each account is well formed.
    pub closed spec fn wf(&self) -> bool {
        &&& self.clients@.no_duplicates()
        &&& forall|c: ClientId| #[trigger]
            self.accounts@.contains_key(c) <==> self.clients@.contains(c)
        &&& forall|c: ClientId| #[trigger]
            self.accounts@.contains_key(c) ==> self.accounts@[c].wf()
    }

    /// A ledger with no accounts.
    pub fn new() -> (r: AccountManager)
        ensures
            r.wf(),
            r@ == empty_ledger(),
    {
        let r = AccountManager { accounts: HashMap::new(), clients: Vec::new() };
        assert(r@.accounts =~= Map::empty());
        r
    }

    /// Applies one event to the account of its client, creating the account
    /// on first reference. Rejected events leave the ledger unchanged apart
    /// from that creation.
    pub fn process_row(&mut self, row: Transaction)
        requires
            old(self).wf(),
        ensures
            final(self).wf(),
            final(self)@ == apply_spec(old(self)@, row),
    {
        let c = row.client;
        let mut account = match self.accounts.remove(&c) {
            Some(a) => a,
            None => {
                self.clients.push(c);
                Account::new()
            },
        };
        account.apply(row);
        self.accounts.insert(c, account);
        proof {
            let o = old(self)@;
            assert(self@.accounts =~= apply_spec(o, row).accounts);
            if !o.accounts.contains_key(c) {
                assert(self.clients@ =~= o.clients.push(c));
                assert forall|k: ClientId| #[trigger]
                    self.accounts@.contains_key(k) <==> self.clients@.contains(k) by {
                    if k != c && old(self).clients@.contains(k) {
                        let j = choose|j: int|
                            0 <= j < old(self).clients@.len() && old(self).clients@[j] == k;
                        assert(self.clients@[j] == k);
                    }
                    if self.clients@.contains(k) && k != c {
                        let j = choose|j: int|
                            0 <= j < self.clients@.len() && self.clients@[j] == k;
                        assert(old(self).clients@[j] == k);
                    }
                    if k == c {
                        assert(self.clients@[self.clients@.len() - 1] == c);
                    }
                }
            }
        }
    }

    /// Summaries of all accounts, one per known client.
    pub fn iter(&self) -> (r: Vec<AccountSummary>)
        requires
            self.wf(),
        ensures
            r@ == snapshot_spec(self@),
            forall|i: int|
                0 <= i < r@.len() ==> #[trigger] r@[i].total as int == r@[i].available as int
                    + r@[i].held as int,
    {
        let mut r: Vec<AccountSummary> = Vec::new();
        let mut i: usize = 0;
        while i < self.clients.len()
            invariant
                self.wf(),
                i <= self.clients@.len(),
                r@ =~= snapshot_spec(self@).take(i as int),
                forall|k: int|
                    0 <= k < r@.len() ==> #[trigger] r@[k].total as int == r@[k].available as int
                        + r@[k].held as int,
            decreases self.clients@.len() - i,
        {
            let c = self.clients[i];
            assert(self.clients@.contains(c));
            match self.accounts.get(&c) {
                Some(a) => {
                    r.push(a.summary(c));
                },
                None => {
                    assert(false);
                },
            }
            i = i + 1;
        }
        assert(r@ =~= snapshot_spec(self@));
        r
    }
}

proof fn lemma_replay_in_range(ts: Seq<Transaction>)
    ensures
        forall|c: ClientId| #[trigger]
            apply_all(empty_ledger(), ts).accounts.contains_key(c) ==> apply_all(
                empty_ledger(),
                ts,
            ).accounts[c].in_range(),
    decreases ts.len(),
{
    if ts.len() > 0 {
        let prev = apply_all(empty_ledger(), ts.drop_last());
        let t = ts.last();
        lemma_replay_in_range(ts.drop_last());
        assert(held_sum(empty_account().held) == 0);
        assert(empty_account().in_range());
        assert forall|c: ClientId| #[trigger]
            apply_all(empty_ledger(), ts).accounts.contains_key(c) implies apply_all(
            empty_ledger(),
            ts,
        ).accounts[c].in_range() by {
            if c != t.client {
                assert(prev.accounts.contains_key(c));
            }
        }
    }
}

/// Balance identity: in a ledger built by replaying any events, every account
/// has representable balances, and its reported total is its available funds
/// plus the sum of the amounts it holds.
pub proof fn lemma_total_is_available_plus_held(ts: Seq<Transaction>, c: ClientId)
    requires
        apply_all(empty_ledger(), ts).accounts.contains_key(c),
    ensures
        ({
            let a = apply_all(empty_ledger(), ts).accounts[c];
            let s = summary_of(c, a);
            &&& a.in_range()
            &&& a.total() == a.available + held_sum(a.held)
            &&& s.available as int == a.available
            &&& s.held as int == held_sum(a.held)
            &&& s.total as int == s.available as int + s.held as int
        }),
{
    lemma_replay_in_range(ts);
}

/// Lock finality: once a client's account is locked, no later sequence of
/// events changes any part of it.
pub proof fn lemma_locked_account_frozen(l: LedgerModel, ts: Seq<Transaction>, c: ClientId)
    requires
        l.accounts.contains_key(c),
        l.accounts[c].locked,
    ensures
        apply_all(l, ts).accounts.contains_key(c),
        apply_all(l, ts).accounts[c] == l.accounts[c],
    decreases ts.len(),
{
    if ts.len() > 0 {
        lemma_locked_account_frozen(l, ts.drop_last(), c);
    }
}

/// Withdrawal boundary: on an unlocked account, withdrawing exactly the
/// available funds succeeds and leaves nothing available, with the holds
/// untouched.
pub proof fn lemma_withdraw_all_available(a: AccountModel, t: Transaction)
    requires
        a.in_range(),
        !a.locked,
        t.kind == TransactionType::Withdrawal,
        t.amount == Some(a.available as i64),
    ensures
        step(a, t).available == 0,
        step(a, t).held == a.held,
        step(a, t).deposits == a.deposits,
        !step(a, t).locked,
{
}

} // verus!
