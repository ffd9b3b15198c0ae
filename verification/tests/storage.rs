use bank_system::{Accounts, Balance, BalanceManager, BalanceManagerError, OpKind, Storage};
use std::io::{BufRead, BufReader, BufWriter, Cursor, Write};

#[test]
fn new_storage_is_empty() {
    let bank = Storage::new();
    assert_eq!(bank.accounts.len(), 0);
}

#[test]
fn add_user() {
    let mut storage = Storage::new();
    assert_eq!(storage.add_user("Alice".to_string()), Some(0));
    assert_eq!(storage.add_user("Alice".to_string()), None);
}

#[test]
fn remove_user() {
    let mut storage = Storage::new();
    storage.add_user("Bob".to_string());
    storage.deposit(&"Bob".to_string(), 100).unwrap();

    let removed = storage.remove_user(&"Bob".to_string());
    assert!(removed.is_some());
    assert_eq!(removed.unwrap().result, 100);
    assert_eq!(storage.remove_user(&"Bob".to_string()), None);
}

#[test]
fn nonexistent_user() {
    let mut storage = Storage::new();

    assert!(storage.deposit(&"Dana".to_string(), 100).is_err());

    assert!(storage.withdraw(&"Dana".to_string(), 50).is_err());

    assert_eq!(storage.get_balance(&"Dana".to_string()), None);
}

#[test]
fn load_data_existing_cursor() {
    let data = b"John,100\nAlice,200\nBob,50\n";
    let mut cursor = Cursor::new(&data[..]);

    let mut storage = Storage::new();
    let reader = BufReader::new(&mut cursor);
    for line in reader.lines() {
        let line = line.unwrap();
        let parts: Vec<&str> = line.trim().split(',').collect();
        if parts.len() == 2 {
            let name = parts[0].to_string();
            let balance: u64 = parts[1].parse().unwrap_or(0);
            storage.add_user(name.clone());
            storage.deposit(&name, balance).unwrap();
        }
    }

    assert_eq!(
        storage.get_balance(&"John".to_string()).unwrap().result,
        100
    );
    assert_eq!(
        storage.get_balance(&"Alice".to_string()).unwrap().result,
        200
    );
    assert_eq!(storage.get_balance(&"Bob".to_string()).unwrap().result, 50);
    assert_eq!(storage.get_balance(&"Vasya".to_string()), None);
}

#[test]
fn save_writes_to_cursor_correctly() {
    let mut storage = Storage::new();
    storage.add_user("John".to_string());
    storage.add_user("Alice".to_string());
    storage.deposit(&"John".to_string(), 150).unwrap();
    storage.deposit(&"Alice".to_string(), 300).unwrap();

    let buffer = Vec::new();
    let mut cursor = Cursor::new(buffer);
    {
        let mut writer = BufWriter::new(&mut cursor);
        for (name, balance) in storage.get_all() {
            writer
                .write_all(format!("{},{}\n", name, balance).as_bytes())
                .unwrap();
        }
        writer.flush().unwrap();
    }

    cursor.set_position(0);
    let mut lines: Vec<String> = BufReader::new(cursor).lines().map(|l| l.unwrap()).collect();
    lines.sort();

    assert_eq!(lines, vec!["Alice,300", "John,150"]);
}

#[test]
fn process_if_deposit_success() {
    let mut storage = Storage::new();
    storage.add_user("Alice".to_string());
    storage.add_user("Bob".to_string());

    let operations = vec![
        (true, "Alice".to_string(), 100),
        (true, "Bob".to_string(), 200),
        (false, "Alice".to_string(), 50),
    ];

    let result = storage.process_if_deposit(&operations);
    assert!(result.is_ok());
    assert_eq!(
        storage.get_balance(&"Alice".to_string()).unwrap().result,
        50
    );
    assert_eq!(storage.get_balance(&"Bob".to_string()).unwrap().result, 200);
}

#[test]
fn process_if_deposit_user_not_found() {
    let mut storage = Storage::new();
    storage.add_user("Alice".to_string());

    let operations = vec![
        (true, "Alice".to_string(), 100),
        (true, "Unknown".to_string(), 50),
    ];

    let result = storage.process_if_deposit(&operations);
    assert!(result.is_err());

    match result {
        Err(BalanceManagerError::UserNotFound(name)) => {
            assert_eq!(name, "Unknown");
        }
        _ => panic!("Ожидалась ошибка UserNotFound"),
    }
}

#[test]
fn process_if_deposit_not_enough_money() {
    let mut storage = Storage::new();
    storage.add_user("Alice".to_string());
    storage.deposit(&"Alice".to_string(), 50).unwrap();

    let operations = vec![(false, "Alice".to_string(), 100)];

    let result = storage.process_if_deposit(&operations);
    assert!(result.is_err());

    match result {
        Err(BalanceManagerError::NotEnoughMoney {
            required,
            available,
        }) => {
            assert_eq!(required, 100);
            assert_eq!(available, 50);
        }
        _ => panic!("Ожидалась ошибка NotEnoughMoney"),
    }
}

#[test]
fn default_storage_is_empty() {
    let storage = Storage::default();
    assert!(storage.accounts.is_empty());
    assert!(storage.get_all().is_empty());
}

#[test]
fn add_user_twice_keeps_the_funds() {
    let mut storage = Storage::new();
    assert_eq!(storage.add_user("Alice".to_string()), Some(0));
    storage.deposit(&"Alice".to_string(), 75).unwrap();

    assert_eq!(storage.add_user("Alice".to_string()), None);

    let balance = storage.get_balance(&"Alice".to_string()).unwrap();
    assert_eq!(balance.result, 75);
    assert_eq!(balance.last_ops, vec![OpKind::Deposit(75)]);
    assert_eq!(storage.accounts.len(), 1);
}

#[test]
fn remove_user_that_is_missing_changes_nothing() {
    let mut storage = Storage::new();
    storage.add_user("Alice".to_string());
    storage.deposit(&"Alice".to_string(), 5).unwrap();

    assert_eq!(storage.remove_user(&"Bob".to_string()), None);

    assert_eq!(storage.get_all(), vec![("Alice".to_string(), 5)]);
}

#[test]
fn remove_user_returns_funds_and_history() {
    let mut storage = Storage::new();
    storage.add_user("Bob".to_string());
    storage.deposit(&"Bob".to_string(), 100).unwrap();
    storage.withdraw(&"Bob".to_string(), 30).unwrap();

    let removed = storage.remove_user(&"Bob".to_string()).unwrap();

    assert_eq!(removed.result, 70);
    assert_eq!(
        removed.last_ops,
        vec![OpKind::Deposit(100), OpKind::Withdraw(30)]
    );
    assert!(storage.accounts.is_empty());
}

#[test]
fn remove_user_keeps_the_order_of_the_others() {
    let mut storage = Storage::new();
    storage.add_user("A".to_string());
    storage.add_user("B".to_string());
    storage.add_user("C".to_string());
    storage.deposit(&"C".to_string(), 3).unwrap();

    storage.remove_user(&"B".to_string());

    assert_eq!(
        storage.get_all(),
        vec![("A".to_string(), 0), ("C".to_string(), 3)]
    );
    assert_eq!(storage.get_balance(&"C".to_string()).unwrap().result, 3);
}

#[test]
fn deposit_records_the_operation() {
    let mut storage = Storage::new();
    storage.add_user("Alice".to_string());

    storage.deposit(&"Alice".to_string(), 0).unwrap();
    storage.deposit(&"Alice".to_string(), 9).unwrap();

    let balance = storage.get_balance(&"Alice".to_string()).unwrap();
    assert_eq!(balance.result, 9);
    assert_eq!(balance.last_ops, vec![OpKind::Deposit(0), OpKind::Deposit(9)]);
}

#[test]
fn deposit_of_more_than_32_bits_adds_the_whole_amount() {
    let mut storage = Storage::new();
    storage.add_user("Alice".to_string());

    storage
        .deposit(&"Alice".to_string(), 0x1_0000_0000 + 5)
        .unwrap();

    let balance = storage.get_balance(&"Alice".to_string()).unwrap();
    assert_eq!(balance.result, 0x1_0000_0000 + 5);
    assert_eq!(
        balance.last_ops,
        vec![OpKind::Deposit(u32::MAX), OpKind::Deposit(6)]
    );
}

#[test]
fn deposit_of_the_most_that_32_bits_hold_is_one_operation() {
    let mut storage = Storage::new();
    storage.add_user("Alice".to_string());

    storage.deposit(&"Alice".to_string(), 0xffff_ffff).unwrap();

    let balance = storage.get_balance(&"Alice".to_string()).unwrap();
    assert_eq!(balance.result, 0xffff_ffff);
    assert_eq!(balance.last_ops, vec![OpKind::Deposit(u32::MAX)]);
}

#[test]
fn deposit_of_twice_the_most_that_32_bits_hold_is_two_operations() {
    let mut storage = Storage::new();
    storage.add_user("Alice".to_string());

    storage
        .deposit(&"Alice".to_string(), 2 * 0xffff_ffff)
        .unwrap();

    let balance = storage.get_balance(&"Alice".to_string()).unwrap();
    assert_eq!(balance.result, 2 * 0xffff_ffff);
    assert_eq!(
        balance.last_ops,
        vec![OpKind::Deposit(u32::MAX), OpKind::Deposit(u32::MAX)]
    );
}

#[test]
fn withdraw_of_more_than_32_bits_takes_the_whole_amount() {
    let mut storage = Storage::new();
    storage.add_user("Alice".to_string());
    storage.accounts.get_mut("Alice").unwrap().result = 0x2_0000_0000;

    storage
        .withdraw(&"Alice".to_string(), 0x1_0000_0000 + 7)
        .unwrap();

    let balance = storage.get_balance(&"Alice".to_string()).unwrap();
    assert_eq!(balance.result, 0x2_0000_0000 - (0x1_0000_0000 + 7));
    assert_eq!(
        balance.last_ops,
        vec![OpKind::Withdraw(u32::MAX), OpKind::Withdraw(8)]
    );
}

#[test]
fn withdraw_of_more_than_32_bits_over_the_funds_changes_nothing() {
    let mut storage = Storage::new();
    storage.add_user("Alice".to_string());
    storage.deposit(&"Alice".to_string(), 0x1_0000_0000).unwrap();

    let result = storage.withdraw(&"Alice".to_string(), 0x1_0000_0001);

    match result {
        Err(BalanceManagerError::NotEnoughMoney {
            required,
            available,
        }) => {
            assert_eq!(required, 0x1_0000_0001);
            assert_eq!(available, 0x1_0000_0000);
        }
        _ => panic!("expected NotEnoughMoney"),
    }
    let balance = storage.get_balance(&"Alice".to_string()).unwrap();
    assert_eq!(balance.result, 0x1_0000_0000);
    assert_eq!(
        balance.last_ops,
        vec![OpKind::Deposit(u32::MAX), OpKind::Deposit(1)]
    );
}

#[test]
fn deposit_and_withdraw_keep_the_funds_what_the_history_accounts_for() {
    let mut storage = Storage::new();
    storage.add_user("Alice".to_string());
    storage
        .deposit(&"Alice".to_string(), 10_000_000_000)
        .unwrap();
    storage.withdraw(&"Alice".to_string(), 9_000_000_001).unwrap();
    storage.deposit(&"Alice".to_string(), 2).unwrap();

    let balance = storage.get_balance(&"Alice".to_string()).unwrap();
    let mut deposits: u64 = 0;
    let mut withdrawals: u64 = 0;
    for op in &balance.last_ops {
        match op {
            OpKind::Deposit(amount) => deposits += *amount as u64,
            OpKind::Withdraw(amount) => withdrawals += *amount as u64,
            OpKind::CloseAccount => {}
        }
    }
    assert_eq!(balance.result, 1_000_000_001);
    assert_eq!(deposits, 10_000_000_002);
    assert_eq!(withdrawals, 9_000_000_001);
}

#[test]
fn withdraw_over_the_funds_changes_nothing() {
    let mut storage = Storage::new();
    storage.add_user("Alice".to_string());
    storage.deposit(&"Alice".to_string(), 50).unwrap();

    let result = storage.withdraw(&"Alice".to_string(), 51);

    match result {
        Err(BalanceManagerError::NotEnoughMoney {
            required,
            available,
        }) => {
            assert_eq!(required, 51);
            assert_eq!(available, 50);
        }
        _ => panic!("expected NotEnoughMoney"),
    }
    let balance = storage.get_balance(&"Alice".to_string()).unwrap();
    assert_eq!(balance.result, 50);
    assert_eq!(balance.last_ops, vec![OpKind::Deposit(50)]);
}

#[test]
fn withdraw_of_all_funds_is_applied() {
    let mut storage = Storage::new();
    storage.add_user("Alice".to_string());
    storage.deposit(&"Alice".to_string(), 50).unwrap();

    storage.withdraw(&"Alice".to_string(), 50).unwrap();

    let balance = storage.get_balance(&"Alice".to_string()).unwrap();
    assert_eq!(balance.result, 0);
    assert_eq!(
        balance.last_ops,
        vec![OpKind::Deposit(50), OpKind::Withdraw(50)]
    );
}

#[test]
fn deposit_to_a_missing_account_names_it() {
    let mut storage = Storage::new();

    match storage.deposit(&"Dana".to_string(), 100) {
        Err(BalanceManagerError::UserNotFound(name)) => assert_eq!(name, "Dana"),
        _ => panic!("expected UserNotFound"),
    }
    assert!(storage.accounts.is_empty());
}

#[test]
fn withdraw_from_a_missing_account_names_it() {
    let mut storage = Storage::new();

    match storage.withdraw(&"Dana".to_string(), 0) {
        Err(BalanceManagerError::UserNotFound(name)) => assert_eq!(name, "Dana"),
        _ => panic!("expected UserNotFound"),
    }
}

#[test]
fn get_balance_is_a_copy() {
    let mut storage = Storage::new();
    storage.add_user("Alice".to_string());
    storage.deposit(&"Alice".to_string(), 10).unwrap();

    let mut copy = storage.get_balance(&"Alice".to_string()).unwrap();
    copy.result = 0;
    copy.last_ops.clear();

    assert_eq!(storage.get_balance(&"Alice".to_string()).unwrap().result, 10);
}

#[test]
fn get_all_lists_in_the_order_of_opening() {
    let mut storage = Storage::new();
    storage.add_user("Zed".to_string());
    storage.add_user("Alice".to_string());
    storage.add_user("Mike".to_string());
    storage.deposit(&"Alice".to_string(), 2).unwrap();

    assert_eq!(
        storage.get_all(),
        vec![
            ("Zed".to_string(), 0),
            ("Alice".to_string(), 2),
            ("Mike".to_string(), 0)
        ]
    );
}

#[test]
fn process_if_deposit_empty_batch() {
    let mut storage = Storage::new();
    storage.add_user("Alice".to_string());

    assert!(storage.process_if_deposit(&[]).is_ok());

    assert_eq!(storage.get_all(), vec![("Alice".to_string(), 0)]);
}

#[test]
fn process_if_deposit_keeps_what_was_applied_before_the_failure() {
    let mut storage = Storage::new();
    storage.add_user("Alice".to_string());
    storage.add_user("Bob".to_string());

    let operations = vec![
        (true, "Alice".to_string(), 100),
        (false, "Bob".to_string(), 1),
        (true, "Bob".to_string(), 200),
    ];

    let result = storage.process_if_deposit(&operations);

    match result {
        Err(BalanceManagerError::NotEnoughMoney {
            required,
            available,
        }) => {
            assert_eq!(required, 1);
            assert_eq!(available, 0);
        }
        _ => panic!("expected NotEnoughMoney"),
    }
    assert_eq!(
        storage.get_all(),
        vec![("Alice".to_string(), 100), ("Bob".to_string(), 0)]
    );
}

#[test]
fn seed_then_list_gives_the_pairs_back() {
    let pairs = vec![
        ("John".to_string(), 100),
        ("Alice".to_string(), 200),
        ("Bob".to_string(), 0),
        ("Rich".to_string(), 0xffff_ffff),
    ];

    let storage = Storage::seed(&pairs).unwrap();

    assert_eq!(storage.get_all(), pairs);
}

#[test]
fn seed_adds_up_a_name_that_comes_twice() {
    let pairs = vec![
        ("John".to_string(), 100),
        ("Alice".to_string(), 1),
        ("John".to_string(), 11),
    ];

    let storage = Storage::seed(&pairs).unwrap();

    assert_eq!(
        storage.get_all(),
        vec![("John".to_string(), 111), ("Alice".to_string(), 1)]
    );
}

#[test]
fn seed_records_one_deposit_for_each_pair() {
    let pairs = vec![("John".to_string(), 100)];

    let storage = Storage::seed(&pairs).unwrap();

    assert_eq!(
        storage.get_balance(&"John".to_string()).unwrap().last_ops,
        vec![OpKind::Deposit(100)]
    );
}

#[test]
fn seed_from_nothing_is_empty() {
    let storage = Storage::seed(&[]).unwrap();
    assert!(storage.accounts.is_empty());
}

#[test]
fn default_users_are_four_empty_accounts() {
    let storage = Storage::default_users();

    assert_eq!(
        storage.get_all(),
        vec![
            ("John".to_string(), 0),
            ("Alice".to_string(), 0),
            ("Bob".to_string(), 0),
            ("Vasya".to_string(), 0)
        ]
    );
    assert!(storage
        .get_balance(&"Vasya".to_string())
        .unwrap()
        .last_ops
        .is_empty());
}

#[test]
fn accounts_insert_replaces_and_returns_the_old_balance() {
    let mut accounts = Accounts::new();
    let mut first = Balance::new();
    first.result = 1;
    let mut second = Balance::new();
    second.result = 2;

    assert_eq!(accounts.insert("A".to_string(), first), None);
    accounts.insert("B".to_string(), Balance::new());
    let old = accounts.insert("A".to_string(), second);

    assert_eq!(old.unwrap().result, 1);
    assert_eq!(accounts.len(), 2);
    assert_eq!(accounts.get("A").unwrap().result, 2);
    assert_eq!(accounts.position("A"), Some(0));
    assert_eq!(accounts.position("B"), Some(1));
    assert_eq!(accounts.position("C"), None);
}

#[test]
fn accounts_tell_names_apart_by_every_character() {
    let mut accounts = Accounts::new();
    accounts.insert("Ann".to_string(), Balance::new());
    accounts.insert("Anna".to_string(), Balance::new());
    accounts.insert("ann".to_string(), Balance::new());
    accounts.get_mut("Anna").unwrap().result = 4;

    assert_eq!(accounts.len(), 3);
    assert!(accounts.contains_key("ann"));
    assert!(!accounts.contains_key("An"));
    assert!(!accounts.contains_key(""));
    assert_eq!(accounts.get("Ann").unwrap().result, 0);
    assert_eq!(accounts.get("Anna").unwrap().result, 4);
}

#[test]
fn accounts_get_index_walks_in_order() {
    let mut accounts = Accounts::new();
    accounts.insert("B".to_string(), Balance::new());
    accounts.insert("A".to_string(), Balance::new());
    accounts.get_mut("A").unwrap().result = 9;

    let (name, balance) = accounts.get_index(1).unwrap();
    assert_eq!(name, "A");
    assert_eq!(balance.result, 9);
    assert_eq!(accounts.get_index(0).unwrap().0, "B");
    assert!(accounts.get_index(2).is_none());
}

#[test]
fn accounts_entry_or_default_opens_once() {
    let mut accounts = Accounts::new();

    accounts.entry_or_default("A".to_string()).result = 3;
    accounts.entry_or_default("A".to_string()).result += 1;

    assert_eq!(accounts.len(), 1);
    assert_eq!(accounts.get("A").unwrap().result, 4);
}

#[test]
fn accounts_remove_gives_the_balance_once() {
    let mut accounts = Accounts::new();
    accounts.entry_or_default("A".to_string()).result = 3;
    accounts.entry_or_default("B".to_string()).result = 4;

    assert_eq!(accounts.remove("A").unwrap().result, 3);
    assert_eq!(accounts.remove("A"), None);
    assert_eq!(accounts.get("B").unwrap().result, 4);
    assert_eq!(accounts.position("B"), Some(0));
}

#[test]
fn seed_then_list_gives_amounts_of_more_than_32_bits_back() {
    let pairs = vec![
        ("John".to_string(), 0x1_0000_0000),
        ("Alice".to_string(), 0xffff_ffff),
        ("Bob".to_string(), 1_000_000_000_000),
        ("Carol".to_string(), 0),
    ];

    let storage = Storage::seed(&pairs).unwrap();

    assert_eq!(storage.get_all(), pairs);
}

#[test]
fn add_user_and_deposit_for_each_pair_then_list_gives_the_pairs_back() {
    let pairs = vec![
        ("John".to_string(), 100),
        ("Alice".to_string(), 5_000_000_000),
        ("Bob".to_string(), 0x1_0000_0000),
    ];

    let mut storage = Storage::new();
    for (name, funds) in &pairs {
        storage.add_user(name.clone());
        storage.deposit(name, *funds).unwrap();
    }

    assert_eq!(storage.get_all(), pairs);
}

#[test]
fn seed_adds_up_amounts_of_more_than_32_bits_for_a_name_that_comes_twice() {
    let pairs = vec![
        ("John".to_string(), 0x1_0000_0000),
        ("John".to_string(), 0x1_0000_0000),
    ];

    let storage = Storage::seed(&pairs).unwrap();

    assert_eq!(storage.get_all(), vec![("John".to_string(), 0x2_0000_0000)]);
}

#[test]
fn can_deposit_tells_whether_the_funds_stay_in_64_bits() {
    let mut storage = Storage::new();
    storage.add_user("Alice".to_string());
    storage.accounts.get_mut("Alice").unwrap().result = u64::MAX - 5;

    assert!(storage.can_deposit(&"Alice".to_string(), 5));
    assert!(!storage.can_deposit(&"Alice".to_string(), 6));
    assert!(!storage.can_deposit(&"Alice".to_string(), 0x1_0000_0000 + 5));
    assert!(!storage.can_deposit(&"Alice".to_string(), u64::MAX));
    assert!(storage.can_deposit(&"Nobody".to_string(), u64::MAX));

    storage.deposit(&"Alice".to_string(), 5).unwrap();
    assert_eq!(
        storage.get_balance(&"Alice".to_string()).unwrap().result,
        u64::MAX
    );
}

#[test]
fn clone_of_a_store_is_apart_from_it() {
    let mut storage = Storage::new();
    storage.add_user("Alice".to_string());
    storage.add_user("Bob".to_string());
    storage.deposit(&"Bob".to_string(), 8).unwrap();

    let mut copy = storage.clone();
    copy.deposit(&"Alice".to_string(), 1).unwrap();
    copy.remove_user(&"Bob".to_string());

    assert_eq!(
        storage.get_all(),
        vec![("Alice".to_string(), 0), ("Bob".to_string(), 8)]
    );
    assert_eq!(
        storage.get_balance(&"Bob".to_string()).unwrap().last_ops,
        vec![OpKind::Deposit(8)]
    );
    assert_eq!(copy.get_all(), vec![("Alice".to_string(), 1)]);
}

#[test]
fn process_if_deposit_leaves_deposits_minus_withdrawals() {
    let mut storage = Storage::new();
    storage.add_user("Alice".to_string());
    storage.add_user("Bob".to_string());
    storage.deposit(&"Alice".to_string(), 10).unwrap();

    let operations = vec![
        (true, "Alice".to_string(), 100),
        (false, "Alice".to_string(), 110),
        (true, "Bob".to_string(), 7),
        (true, "Alice".to_string(), 0x1_0000_0000 + 3),
        (false, "Alice".to_string(), 2),
        (false, "Alice".to_string(), 0x1_0000_0000),
    ];

    assert!(storage.process_if_deposit(&operations).is_ok());

    assert_eq!(
        storage.get_all(),
        vec![
            (
                "Alice".to_string(),
                10 + (100 + 0x1_0000_0000 + 3) - (110 + 2 + 0x1_0000_0000)
            ),
            ("Bob".to_string(), 7)
        ]
    );
}

#[test]
fn can_process_if_deposit_tells_whether_the_funds_stay_in_64_bits() {
    let mut storage = Storage::new();
    storage.add_user("Alice".to_string());
    storage.accounts.get_mut("Alice").unwrap().result = u64::MAX - 10;
    let request = |deposit: bool, name: &str, amount: u64| (deposit, name.to_string(), amount);

    assert!(storage.can_process_if_deposit(&[]));
    assert!(storage.can_process_if_deposit(&[request(true, "Alice", 10)]));
    assert!(!storage.can_process_if_deposit(&[request(true, "Alice", 11)]));
    assert!(storage.can_process_if_deposit(&[
        request(false, "Alice", 1),
        request(true, "Alice", 11)
    ]));
    assert!(!storage.can_process_if_deposit(&[
        request(true, "Alice", 5),
        request(true, "Alice", 6)
    ]));
    assert!(storage.can_process_if_deposit(&[
        request(true, "Nobody", 5),
        request(true, "Alice", 11)
    ]));
    assert!(storage.can_process_if_deposit(&[
        request(false, "Alice", u64::MAX),
        request(true, "Alice", 11)
    ]));

    assert_eq!(storage.get_all(), vec![("Alice".to_string(), u64::MAX - 10)]);
    assert!(storage
        .get_balance(&"Alice".to_string())
        .unwrap()
        .last_ops
        .is_empty());
}
