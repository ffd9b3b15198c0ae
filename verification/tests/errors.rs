use bank_system::BalanceManagerError;

#[test]
fn user_not_found_display() {
    let err = BalanceManagerError::UserNotFound("Alice".to_string());
    assert_eq!(err.message(), "Пользователь 'Alice' не найден");
}

#[test]
fn not_enough_money_display() {
    let err = BalanceManagerError::NotEnoughMoney {
        required: 100,
        available: 50,
    };
    assert_eq!(
        err.message(),
        "Недостаточно средств: требуется 100, доступно 50"
    );
}

#[test]
fn error_debug() {
    let err = BalanceManagerError::UserNotFound("Bob".to_string());
    assert!(format!("{:?}", err).contains("UserNotFound"));
}

#[test]
fn not_enough_money_message_with_zero_and_largest() {
    let err = BalanceManagerError::NotEnoughMoney {
        required: u64::MAX,
        available: 0,
    };
    assert_eq!(
        err.message(),
        "Недостаточно средств: требуется 18446744073709551615, доступно 0"
    );
}

#[test]
fn user_not_found_message_with_empty_name() {
    let err = BalanceManagerError::UserNotFound(String::new());
    assert_eq!(err.message(), "Пользователь '' не найден");
}
