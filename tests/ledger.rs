use std::collections::HashMap;

use transaction_manager::account_manager::AccountManager;
use transaction_manager::transaction_parser::{
    Amount, ClientId, Transaction, TransactionType, TxId, AMOUNT_SCALE,
};
use transaction_manager::writer::AccountSummary;
use transaction_manager::{process, run};

use TransactionType::{Chargeback, Deposit, Dispute, Resolve, Withdrawal};

fn amount(x: f64) -> Amount {
    (x * AMOUNT_SCALE as f64).round() as Amount
}

fn create_processor() -> AccountManager {
    AccountManager::default()
}

fn compare(processor: &AccountManager, expected_data: &[(ClientId, f64, f64, bool)]) -> bool {
    let data: HashMap<ClientId, AccountSummary> = processor
        .iter()
        .into_iter()
        .map(|summary| (summary.client, summary))
        .collect();
    let expected_data: HashMap<ClientId, AccountSummary> = expected_data
        .iter()
        .map(|&(client, available, held, locked)| {
            let summary = AccountSummary {
                client,
                available: amount(available),
                held: amount(held),
                total: amount(available + held),
                locked,
            };
            (client, summary)
        })
        .collect();
    data == expected_data
}

fn apply_actions(
    processor: &mut AccountManager,
    actions: Vec<(TransactionType, ClientId, TxId, Option<f64>)>,
) {
    for (kind, client, tx, a) in actions {
        processor.process_row(Transaction {
            kind,
            client,
            tx,
            amount: a.map(amount),
        })
    }
}

#[test]
fn test_deposit() {
    let mut processor = create_processor();

    let actions = vec![(Deposit, 1, 1, Some(1.0)), (Deposit, 1, 1, Some(2.0))];
    apply_actions(&mut processor, actions);

    assert!(compare(&processor, &[(1, 3.0, 0.0, false)]));
}

#[test]
fn test_withdrawal() {
    let mut processor = create_processor();

    let actions = vec![
        (Deposit, 1, 1, Some(3.0)),
        (Withdrawal, 1, 2, Some(1.0)),
        (Withdrawal, 1, 3, Some(3.0)), // rejected
    ];
    apply_actions(&mut processor, actions);

    assert!(compare(&processor, &[(1, 2.0, 0.0, false)]));
}

#[test]
fn test_dispute() {
    let mut processor = create_processor();

    let actions = vec![
        (Deposit, 1, 1, Some(3.0)),
        (Dispute, 1, 1, None),
        (Dispute, 1, 2, None), // rejected
    ];
    apply_actions(&mut processor, actions);

    assert!(compare(&processor, &[(1, 0.0, 3.0, false)]));
}

#[test]
fn test_resolve() {
    let mut processor = create_processor();

    let actions = vec![
        (Deposit, 1, 1, Some(3.0)),
        (Dispute, 1, 1, None),
        (Resolve, 1, 1, None),
        (Resolve, 1, 2, None), // rejected
    ];
    apply_actions(&mut processor, actions);

    assert!(compare(&processor, &[(1, 3.0, 0.0, false)]));
}

#[test]
fn test_chargeback() {
    let mut processor = create_processor();

    let actions = vec![
        (Deposit, 1, 1, Some(3.0)),
        (Dispute, 1, 1, None),
        (Chargeback, 1, 1, None),
    ];
    apply_actions(&mut processor, actions);

    assert!(compare(&processor, &[(1, 0.0, 0.0, true)]));
}

#[test]
fn withdrawal_of_exactly_available_succeeds() {
    let mut processor = create_processor();
    apply_actions(
        &mut processor,
        vec![(Deposit, 1, 1, Some(2.5)), (Withdrawal, 1, 2, Some(2.5))],
    );
    assert!(compare(&processor, &[(1, 0.0, 0.0, false)]));
}

#[test]
fn withdrawal_just_over_available_is_rejected() {
    let mut processor = create_processor();
    processor.process_row(Transaction { kind: Deposit, client: 1, tx: 1, amount: Some(10000) });
    processor.process_row(Transaction { kind: Withdrawal, client: 1, tx: 2, amount: Some(10001) });
    let s = processor.iter();
    assert_eq!(s.len(), 1);
    assert_eq!(s[0].available, 10000);
}

#[test]
fn snapshot_twice_gives_same_result() {
    let mut processor = create_processor();
    apply_actions(
        &mut processor,
        vec![
            (Deposit, 1, 1, Some(1.0)),
            (Deposit, 2, 2, Some(2.0)),
            (Dispute, 2, 2, None),
            (Deposit, 3, 3, Some(4.0)),
        ],
    );
    let first = processor.iter();
    let second = processor.iter();
    assert_eq!(first, second);
    assert_eq!(first.len(), 3);
}

#[test]
fn snapshot_lists_clients_in_order_of_first_appearance() {
    let mut processor = create_processor();
    apply_actions(
        &mut processor,
        vec![(Deposit, 7, 1, Some(1.0)), (Deposit, 3, 2, Some(2.0)), (Deposit, 7, 3, Some(1.0))],
    );
    let s = processor.iter();
    let clients: Vec<ClientId> = s.iter().map(|x| x.client).collect();
    assert_eq!(clients, vec![7, 3]);
    assert_eq!(s[0].available, amount(2.0));
}

#[test]
fn locked_account_ignores_every_event() {
    let mut processor = create_processor();
    apply_actions(
        &mut processor,
        vec![
            (Deposit, 1, 1, Some(3.0)),
            (Deposit, 1, 2, Some(5.0)),
            (Dispute, 1, 1, None),
            (Chargeback, 1, 1, None),
            (Deposit, 1, 3, Some(1.0)),
            (Withdrawal, 1, 4, Some(1.0)),
            (Dispute, 1, 2, None),
            (Resolve, 1, 2, None),
        ],
    );
    assert!(compare(&processor, &[(1, 5.0, 0.0, true)]));
}

#[test]
fn total_is_available_plus_held() {
    let mut processor = create_processor();
    apply_actions(
        &mut processor,
        vec![
            (Deposit, 1, 1, Some(3.0)),
            (Deposit, 1, 2, Some(1.25)),
            (Withdrawal, 1, 3, Some(4.0)),
            (Dispute, 1, 1, None),
            (Dispute, 1, 2, None),
            (Deposit, 2, 4, Some(9.0)),
            (Resolve, 1, 2, None),
        ],
    );
    for s in processor.iter() {
        assert_eq!(s.total, s.available + s.held);
    }
    assert!(compare(&processor, &[(1, -2.75, 3.0, false), (2, 9.0, 0.0, false)]));
}

#[test]
fn dispute_may_make_available_negative() {
    let mut processor = create_processor();
    apply_actions(
        &mut processor,
        vec![(Deposit, 1, 1, Some(3.0)), (Withdrawal, 1, 2, Some(3.0)), (Dispute, 1, 1, None)],
    );
    assert!(compare(&processor, &[(1, -3.0, 3.0, false)]));
}

#[test]
fn withdrawal_cannot_be_disputed() {
    let mut processor = create_processor();
    apply_actions(
        &mut processor,
        vec![(Deposit, 1, 1, Some(3.0)), (Withdrawal, 1, 2, Some(1.0)), (Dispute, 1, 2, None)],
    );
    assert!(compare(&processor, &[(1, 2.0, 0.0, false)]));
}

#[test]
fn redispute_subtracts_again_and_replaces_hold() {
    let mut processor = create_processor();
    apply_actions(
        &mut processor,
        vec![(Deposit, 1, 1, Some(3.0)), (Dispute, 1, 1, None), (Dispute, 1, 1, None)],
    );
    assert!(compare(&processor, &[(1, -3.0, 3.0, false)]));
}

#[test]
fn resolved_deposit_can_be_disputed_again() {
    let mut processor = create_processor();
    apply_actions(
        &mut processor,
        vec![
            (Deposit, 1, 1, Some(3.0)),
            (Dispute, 1, 1, None),
            (Resolve, 1, 1, None),
            (Dispute, 1, 1, None),
        ],
    );
    assert!(compare(&processor, &[(1, 0.0, 3.0, false)]));
}

#[test]
fn reused_tx_id_dispute_recovers_last_deposit() {
    let mut processor = create_processor();
    apply_actions(
        &mut processor,
        vec![(Deposit, 1, 1, Some(1.0)), (Deposit, 1, 1, Some(2.0)), (Dispute, 1, 1, None)],
    );
    assert!(compare(&processor, &[(1, 1.0, 2.0, false)]));
}

#[test]
fn chargeback_of_unheld_tx_is_ignored() {
    let mut processor = create_processor();
    apply_actions(&mut processor, vec![(Deposit, 1, 1, Some(3.0)), (Chargeback, 1, 1, None)]);
    assert!(compare(&processor, &[(1, 3.0, 0.0, false)]));
}

#[test]
fn any_event_creates_the_account() {
    let mut processor = create_processor();
    apply_actions(&mut processor, vec![(Dispute, 4, 1, None), (Withdrawal, 5, 2, Some(1.0))]);
    assert!(compare(&processor, &[(4, 0.0, 0.0, false), (5, 0.0, 0.0, false)]));
}

#[test]
fn deposit_without_amount_is_ignored() {
    let mut processor = create_processor();
    processor.process_row(Transaction { kind: Deposit, client: 1, tx: 1, amount: None });
    assert!(compare(&processor, &[(1, 0.0, 0.0, false)]));
}

#[test]
fn deposit_that_would_overflow_is_ignored() {
    let mut processor = create_processor();
    processor.process_row(Transaction { kind: Deposit, client: 1, tx: 1, amount: Some(i64::MAX) });
    processor.process_row(Transaction { kind: Deposit, client: 1, tx: 2, amount: Some(1) });
    let s = processor.iter();
    assert_eq!(s[0].available, i64::MAX);
    assert_eq!(s[0].total, i64::MAX);
}

#[test]
fn run_replays_events_from_scratch() {
    let events = vec![
        Transaction { kind: Deposit, client: 1, tx: 1, amount: Some(amount(3.0)) },
        Transaction { kind: Dispute, client: 1, tx: 1, amount: None },
        Transaction { kind: Chargeback, client: 1, tx: 1, amount: None },
        Transaction { kind: Deposit, client: 2, tx: 2, amount: Some(amount(1.5)) },
    ];
    let r = run(&events);
    assert_eq!(
        r,
        vec![
            AccountSummary { client: 1, available: 0, held: 0, total: 0, locked: true },
            AccountSummary {
                client: 2,
                available: 15000,
                held: 0,
                total: 15000,
                locked: false
            },
        ]
    );
    let mut processor = create_processor();
    process(&events, &mut processor);
    assert_eq!(processor.iter(), r);
}

#[test]
fn well_formedness_requires_amounts_on_deposits_and_withdrawals() {
    let t = |kind, amount| Transaction { kind, client: 1, tx: 1, amount };
    assert!(t(Deposit, Some(1)).is_well_formed());
    assert!(!t(Deposit, None).is_well_formed());
    assert!(!t(Withdrawal, None).is_well_formed());
    assert!(t(Dispute, None).is_well_formed());
    assert!(t(Resolve, Some(4)).is_well_formed());
    assert!(t(Chargeback, None).is_well_formed());
}
