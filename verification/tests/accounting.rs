use octopus::accounting::Accounts;
use octopus::errors::AccountError;
use octopus::tx::Tx;

type TestResult = Result<(), AccountError>;

#[test]
fn test_accounts_withdraw_successful() -> TestResult {
    let mut ledger = Accounts::new();
    ledger.deposit("test_account", 50)?;

    let actual = ledger.withdraw("test_account", 10);
    assert_eq!(
        actual,
        Ok(Tx::Withdraw {
            account: "test_account".to_string(),
            amount: 10,
        })
    );

    Ok(())
}

#[test]
fn test_accounts_withdraw_missing() -> TestResult {
    let mut ledger = Accounts::new();

    let actual = ledger.withdraw("non_existant_account", 10);
    assert_eq!(
        actual,
        Err(AccountError::NotFound("non_existant_account".to_string()))
    );

    Ok(())
}

#[test]
fn test_accounts_withdraw_underfunded() -> TestResult {
    let mut ledger = Accounts::new();
    ledger.deposit("test_account", 50)?;

    let actual = ledger.withdraw("test_account", 60);
    assert_eq!(
        actual,
        Err(AccountError::UnderFunded("test_account".to_string()))
    );

    Ok(())
}

#[test]
fn test_accounts_deposit_successful() -> TestResult {
    let mut ledger = Accounts::new();

    let actual = ledger.deposit("test_account", 50);
    assert_eq!(
        actual,
        Ok(Tx::Deposit {
            account: "test_account".to_string(),
            amount: 50
        })
    );

    Ok(())
}

#[test]
fn test_accounts_deposit_overfunded() -> TestResult {
    let mut ledger = Accounts::new();
    ledger.deposit("test_account", 10)?;

    let actual = ledger.deposit("test_account", u64::MAX);
    assert_eq!(
        actual,
        Err(AccountError::OverFunded("test_account".to_string(), u64::MAX))
    );

    Ok(())
}

#[test]
fn test_accounts_send_successful() -> TestResult {
    let mut ledger = Accounts::new();
    ledger.deposit("sender", 50)?;
    ledger.deposit("recipient", 10)?;

    let (actual_tx_1, actual_tx_2) = ledger.send("sender", "recipient", 30)?;

    assert_eq!(
        actual_tx_1,
        Tx::Withdraw {
            account: "sender".to_string(),
            amount: 30
        }
    );

    assert_eq!(
        actual_tx_2,
        Tx::Deposit {
            account: "recipient".to_string(),
            amount: 30
        }
    );

    Ok(())
}

#[test]
fn test_accounts_send_missing_sender() -> TestResult {
    let mut ledger = Accounts::new();
    ledger.deposit("recipient", 10)?;

    let actual = ledger.send("non_existant_account", "recipient", 30);
    assert_eq!(
        actual,
        Err(AccountError::NotFound("non_existant_account".to_string()))
    );

    Ok(())
}

#[test]
fn accounting_test_accounts_withdraw_successful() -> TestResult {
    let mut ledger = Accounts::new();
    ledger.deposit("test_account", 50)?;

    let actual = ledger.withdraw("test_account", 10);
    assert_eq!(
        actual,
        Ok(Tx::Withdraw {
            account: "test_account".to_string(),
            amount: 10,
        })
    );

    Ok(())
}

#[test]
fn accounting_test_accounts_withdraw_underfunded() -> TestResult {
    let mut ledger = Accounts::new();
    ledger.deposit("test_account", 50)?;

    let actual = ledger.withdraw("test_account", 60);
    assert_eq!(
        actual,
        Err(AccountError::UnderFunded("test_account".to_string()))
    );

    Ok(())
}
