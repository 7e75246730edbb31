use minichain::{LedgerError, User, UserMap};

fn ledger_with_admin() -> (UserMap, String) {
    let mut users = UserMap::new();
    let admin = users
        .add_user(User::with_balance("0xadmin".to_string(), 9_999_999))
        .unwrap();
    users.set_admin(admin.clone(), true);
    (users, admin)
}

fn balance_of(users: &mut UserMap, addr: &String) -> u128 {
    *users.get_user(addr).unwrap().get_balance()
}

#[test]
fn insufficient_funds_leaves_balance_and_pool() {
    let mut users = UserMap::new();
    let user = users.add_user(User::new(Some("0xuser".to_string()))).unwrap();
    let r = users.submit_tx(&user, b"payload".to_vec(), 1);
    assert_eq!(r.unwrap_err(), LedgerError::InsufficientFunds);
    assert_eq!(balance_of(&mut users, &user), 0);
    let pool = minichain::Mempool::new(&"0xadmin".to_string());
    assert_eq!(pool.len(), 0);
}

#[test]
fn duplicate_registration_keeps_first() {
    let mut users = UserMap::new();
    let first = users
        .add_user(User::with_balance("0xsame".to_string(), 7))
        .unwrap();
    assert_eq!(first, "0xsame");
    let second = users.add_user(User::with_balance("0xsame".to_string(), 500));
    assert_eq!(second.unwrap_err(), LedgerError::DuplicateAccount);
    assert_eq!(balance_of(&mut users, &first), 7);
}

#[test]
fn fund_by_non_admin_fails_and_changes_nothing() {
    let (mut users, admin) = ledger_with_admin();
    let user = users.add_user(User::new(None)).unwrap();
    let r = users.fund_user(&user, &user, 1000);
    assert_eq!(r.unwrap_err(), LedgerError::NotAdmin);
    assert_eq!(balance_of(&mut users, &user), 0);
    assert_eq!(balance_of(&mut users, &admin), 9_999_999);
    let r = users.fund_user(&"0xnobody".to_string(), &admin, 5);
    assert_eq!(r.unwrap_err(), LedgerError::NotAdmin);
    assert_eq!(balance_of(&mut users, &admin), 9_999_999);
}

#[test]
fn fund_mints_without_debiting_the_admin() {
    let (mut users, admin) = ledger_with_admin();
    let user = users.add_user(User::new(None)).unwrap();
    users.fund_user(&admin, &user, 1000).unwrap();
    users.fund_user(&admin, &user, 234).unwrap();
    assert_eq!(balance_of(&mut users, &user), 1234);
    assert_eq!(balance_of(&mut users, &admin), 9_999_999);
}

#[test]
fn fund_unknown_account_fails() {
    let (mut users, admin) = ledger_with_admin();
    let r = users.fund_user(&admin, &"0xmissing".to_string(), 10);
    assert_eq!(r.unwrap_err(), LedgerError::UnknownAccount);
    assert!(users.get_user(&"0xmissing".to_string()).is_none());
}

#[test]
fn fund_past_the_largest_balance_fails() {
    let (mut users, admin) = ledger_with_admin();
    let rich = users
        .add_user(User::with_balance("0xrich".to_string(), u128::MAX - 5))
        .unwrap();
    let r = users.fund_user(&admin, &rich, 6);
    assert_eq!(r.unwrap_err(), LedgerError::BalanceOverflow);
    assert_eq!(balance_of(&mut users, &rich), u128::MAX - 5);
    users.fund_user(&admin, &rich, 5).unwrap();
    assert_eq!(balance_of(&mut users, &rich), u128::MAX);
}

#[test]
fn submit_from_unknown_account_fails() {
    let mut users = UserMap::new();
    let r = users.submit_tx(&"0xghost".to_string(), vec![1, 2, 3], 0);
    assert_eq!(r.unwrap_err(), LedgerError::UnknownAccount);
}

#[test]
fn submit_debits_exactly_the_fee() {
    let (mut users, admin) = ledger_with_admin();
    let user = users.add_user(User::new(None)).unwrap();
    users.fund_user(&admin, &user, 100).unwrap();
    let tx = users.submit_tx(&user, b"abc".to_vec(), 100).unwrap();
    assert_eq!(tx.gas(), 100);
    assert_eq!(tx.data(), &b"abc".to_vec());
    assert_eq!(tx.sender(), &user);
    assert_eq!(balance_of(&mut users, &user), 0);
    let again = users.submit_tx(&user, b"abc".to_vec(), 1);
    assert_eq!(again.unwrap_err(), LedgerError::InsufficientFunds);
    assert_eq!(balance_of(&mut users, &user), 0);
}

#[test]
fn balances_stay_nonnegative_over_a_run_of_operations() {
    let (mut users, admin) = ledger_with_admin();
    let a = users.add_user(User::new(None)).unwrap();
    let b = users.add_user(User::new(None)).unwrap();
    let fees: [u128; 6] = [5, 50, 500, 1, 0, 30];
    users.fund_user(&admin, &a, 60).unwrap();
    for fee in fees {
        let before = balance_of(&mut users, &a);
        let r = users.submit_tx(&a, vec![], fee);
        if fee <= before {
            assert!(r.is_ok());
            assert_eq!(balance_of(&mut users, &a), before - fee);
        } else {
            assert_eq!(r.unwrap_err(), LedgerError::InsufficientFunds);
            assert_eq!(balance_of(&mut users, &a), before);
        }
        let _ = users.fund_user(&a, &b, fee);
    }
    assert_eq!(balance_of(&mut users, &a), 60 - 5 - 50 - 1 - 0);
    assert_eq!(balance_of(&mut users, &b), 0);
}

#[test]
fn refund_credits_the_fee_back() {
    let (mut users, admin) = ledger_with_admin();
    let user = users.add_user(User::new(None)).unwrap();
    users.fund_user(&admin, &user, 80).unwrap();
    let tx = users.submit_tx(&user, vec![9], 30).unwrap();
    assert_eq!(balance_of(&mut users, &user), 50);
    users.refund(&tx).unwrap();
    assert_eq!(balance_of(&mut users, &user), 80);
}

#[test]
fn set_admin_grants_and_withdraws() {
    let mut users = UserMap::new();
    let a = users.add_user(User::new(Some("0xa".to_string()))).unwrap();
    assert!(!users.is_admin(&a));
    users.set_admin(a.clone(), true);
    users.set_admin(a.clone(), true);
    assert!(users.is_admin(&a));
    users.set_admin(a.clone(), false);
    assert!(!users.is_admin(&a));
}

#[test]
fn set_admin_ignores_unregistered_identifiers() {
    let mut users = UserMap::new();
    let target = users.add_user(User::new(None)).unwrap();
    let stranger = "0xstranger".to_string();
    users.set_admin(stranger.clone(), true);
    assert!(!users.is_admin(&stranger));
    let r = users.fund_user(&stranger, &target, 10);
    assert_eq!(r.unwrap_err(), LedgerError::NotAdmin);
    assert_eq!(balance_of(&mut users, &target), 0);
    users.set_admin(stranger.clone(), false);
    assert!(!users.is_admin(&stranger));
}

#[test]
fn new_user_has_zero_balance_and_given_address() {
    let u = User::new(Some("0xabc".to_string()));
    assert_eq!(u.get_address(), "0xabc");
    assert_eq!(*u.get_balance(), 0);
    let r = User::new(None);
    assert_eq!(r.get_address().len(), 42);
    assert!(r.get_address().starts_with("0x"));
}

#[test]
fn user_send_tx_checks_its_own_balance() {
    let mut u = User::with_balance("0xu".to_string(), 10);
    assert_eq!(u.send_tx(vec![], 11).unwrap_err(), LedgerError::InsufficientFunds);
    assert_eq!(*u.get_balance(), 10);
    let tx = u.send_tx(vec![1], 10).unwrap();
    assert_eq!(*u.get_balance(), 0);
    assert_eq!(tx.sender(), "0xu");
    assert_eq!(tx.id().len(), 42);
}

#[test]
fn error_messages() {
    assert_eq!(LedgerError::NotAdmin.message(), "Funder is not an admin.");
    assert_eq!(LedgerError::DuplicateAccount.message(), "User was already registered");
}
