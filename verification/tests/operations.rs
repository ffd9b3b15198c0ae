use bank_system::{Balance, OpKind};

#[test]
fn new_balance() {
    let balance = Balance::new();
    assert_eq!(balance.result, 0);
    assert_eq!(balance.last_ops.len(), 0);
}

#[test]
fn process_successful_operations() {
    let mut balance = Balance::new();
    let ops = [
        &OpKind::Deposit(50),
        &OpKind::Withdraw(30),
        &OpKind::Deposit(20),
    ];

    let failed = balance.process(&ops);

    assert_eq!(balance.result, 40);
    assert_eq!(failed.len(), 0);
    assert_eq!(balance.last_ops.len(), 3);
}

#[test]
fn process_insufficient_funds() {
    let mut balance = Balance::new();
    let ops = [
        &OpKind::Deposit(50),
        &OpKind::Withdraw(30),
        &OpKind::Withdraw(30),
        &OpKind::Deposit(100),
    ];

    let failed = balance.process(&ops);

    assert_eq!(balance.result, 20);
    assert_eq!(failed.len(), 2);
    assert_eq!(balance.last_ops.len(), 2);
}

#[test]
fn process_close_account() {
    let mut balance = Balance::new();
    let ops = [
        &OpKind::Deposit(32),
        &OpKind::Withdraw(64),
        &OpKind::CloseAccount,
    ];

    let failed = balance.process(&ops);

    assert_eq!(balance.result, 32);
    assert_eq!(failed.len(), 2);
    assert_eq!(balance.last_ops.len(), 1);
}

#[test]
fn default_balance_is_empty() {
    let balance = Balance::default();
    assert_eq!(balance, Balance::new());
}

#[test]
fn process_empty_batch_changes_nothing() {
    let mut balance = Balance::new();
    balance.result = 7;
    let ops: [&OpKind; 0] = [];

    let failed = balance.process(&ops);

    assert!(failed.is_empty());
    assert_eq!(balance.result, 7);
    assert!(balance.last_ops.is_empty());
}

#[test]
fn process_returns_the_refused_in_their_order() {
    let mut balance = Balance::new();
    let ops = [
        &OpKind::Deposit(10),
        &OpKind::Withdraw(11),
        &OpKind::Deposit(5),
        &OpKind::CloseAccount,
    ];

    let failed = balance.process(&ops);

    assert_eq!(
        failed,
        vec![
            &OpKind::Withdraw(11),
            &OpKind::Deposit(5),
            &OpKind::CloseAccount
        ]
    );
    assert_eq!(balance.result, 10);
    assert_eq!(balance.last_ops, vec![OpKind::Deposit(10)]);
}

#[test]
fn process_records_what_it_applied() {
    let mut balance = Balance::new();
    let ops = [
        &OpKind::Deposit(50),
        &OpKind::Withdraw(50),
        &OpKind::Deposit(1),
    ];

    let failed = balance.process(&ops);

    assert!(failed.is_empty());
    assert_eq!(balance.result, 1);
    assert_eq!(
        balance.last_ops,
        vec![
            OpKind::Deposit(50),
            OpKind::Withdraw(50),
            OpKind::Deposit(1)
        ]
    );
}

#[test]
fn process_balance_is_deposits_minus_withdrawals() {
    let mut balance = Balance::new();
    let ops = [
        &OpKind::Deposit(1000),
        &OpKind::Withdraw(1),
        &OpKind::Deposit(4_000_000_000),
        &OpKind::Withdraw(999),
        &OpKind::Deposit(4_000_000_000),
        &OpKind::Withdraw(4_000_000_000),
    ];

    let failed = balance.process(&ops);

    assert!(failed.is_empty());
    let deposits: u64 = 1000 + 4_000_000_000 + 4_000_000_000;
    let withdrawals: u64 = 1 + 999 + 4_000_000_000;
    assert_eq!(balance.result, deposits - withdrawals);
}

#[test]
fn process_withdrawal_over_the_funds_changes_nothing() {
    let mut balance = Balance::new();
    balance.result = 29;
    balance.last_ops = vec![OpKind::Deposit(29)];
    let ops = [&OpKind::Withdraw(30)];

    let failed = balance.process(&ops);

    assert_eq!(failed, vec![&OpKind::Withdraw(30)]);
    assert_eq!(balance.result, 29);
    assert_eq!(balance.last_ops, vec![OpKind::Deposit(29)]);
}

#[test]
fn process_withdrawal_of_all_funds_is_applied() {
    let mut balance = Balance::new();
    balance.result = 30;
    let ops = [&OpKind::Withdraw(30)];

    let failed = balance.process(&ops);

    assert!(failed.is_empty());
    assert_eq!(balance.result, 0);
}

#[test]
fn process_close_account_first_stops_at_once() {
    let mut balance = Balance::new();
    let ops = [&OpKind::CloseAccount, &OpKind::Deposit(5)];

    let failed = balance.process(&ops);

    assert_eq!(failed, vec![&OpKind::CloseAccount, &OpKind::Deposit(5)]);
    assert_eq!(balance.result, 0);
    assert!(balance.last_ops.is_empty());
}

#[test]
fn clone_copies_funds_and_history() {
    let mut balance = Balance::new();
    let ops = [&OpKind::Deposit(3), &OpKind::Withdraw(1)];
    balance.process(&ops);

    let copy = balance.clone();

    assert_eq!(copy, balance);
    assert_eq!(copy.result, 2);
    assert_eq!(copy.last_ops, vec![OpKind::Deposit(3), OpKind::Withdraw(1)]);
}

#[test]
fn process_keeps_the_funds_what_the_history_accounts_for() {
    let mut balance = Balance::new();
    let first = [
        &OpKind::Deposit(70),
        &OpKind::Withdraw(20),
        &OpKind::Withdraw(60),
    ];
    let second = [&OpKind::Withdraw(50), &OpKind::Deposit(5)];

    balance.process(&first);
    balance.process(&second);

    let mut deposits: u64 = 0;
    let mut withdrawals: u64 = 0;
    for op in &balance.last_ops {
        match op {
            OpKind::Deposit(amount) => deposits += *amount as u64,
            OpKind::Withdraw(amount) => withdrawals += *amount as u64,
            OpKind::CloseAccount => {}
        }
    }
    assert_eq!(balance.result, 5);
    assert_eq!(balance.result, deposits - withdrawals);
}

#[test]
fn can_process_tells_whether_the_funds_stay_in_64_bits() {
    let mut balance = Balance::new();
    balance.result = u64::MAX - 10;

    assert!(balance.can_process(&[]));
    assert!(balance.can_process(&[&OpKind::Deposit(10)]));
    assert!(!balance.can_process(&[&OpKind::Deposit(11)]));
    assert!(balance.can_process(&[&OpKind::Withdraw(1), &OpKind::Deposit(11)]));
    assert!(!balance.can_process(&[
        &OpKind::Withdraw(1),
        &OpKind::Deposit(11),
        &OpKind::Deposit(1)
    ]));
    assert_eq!(balance.result, u64::MAX - 10);
    assert!(balance.last_ops.is_empty());
}

#[test]
fn can_process_looks_no_further_than_the_first_refused() {
    let mut balance = Balance::new();
    balance.result = u64::MAX;

    assert!(balance.can_process(&[&OpKind::CloseAccount, &OpKind::Deposit(1)]));
    assert!(balance.can_process(&[
        &OpKind::Withdraw(1),
        &OpKind::Withdraw(u32::MAX),
        &OpKind::Withdraw(u32::MAX),
        &OpKind::Deposit(5)
    ]));

    let mut small = Balance::new();
    small.result = 3;
    assert!(small.can_process(&[&OpKind::Withdraw(4), &OpKind::Deposit(u32::MAX)]));

    let ops = [&OpKind::CloseAccount, &OpKind::Deposit(1)];
    let failed = balance.process(&ops);
    assert_eq!(failed.len(), 2);
    assert_eq!(balance.result, u64::MAX);
}

#[test]
fn balance_deposit_records_the_amount_in_operations_of_32_bits() {
    let mut balance = Balance::new();

    balance.deposit(0);
    balance.deposit(7);
    balance.deposit(3 * 0xffff_ffff + 1);

    assert_eq!(balance.result, 7 + 3 * 0xffff_ffff + 1);
    assert_eq!(
        balance.last_ops,
        vec![
            OpKind::Deposit(0),
            OpKind::Deposit(7),
            OpKind::Deposit(u32::MAX),
            OpKind::Deposit(u32::MAX),
            OpKind::Deposit(u32::MAX),
            OpKind::Deposit(1)
        ]
    );
}

#[test]
fn balance_withdraw_records_the_amount_in_operations_of_32_bits() {
    let mut balance = Balance::new();
    balance.result = 0x3_0000_0000;

    balance.withdraw(0);
    balance.withdraw(0x2_0000_0000);

    assert_eq!(balance.result, 0x1_0000_0000);
    assert_eq!(
        balance.last_ops,
        vec![
            OpKind::Withdraw(0),
            OpKind::Withdraw(u32::MAX),
            OpKind::Withdraw(u32::MAX),
            OpKind::Withdraw(2)
        ]
    );
}
