use ink_env::DefaultEnvironment;
use mytoken::ledger::{Error, MyToken};
use mytoken::AccountId;

fn alice() -> AccountId {
    AccountId::new([1u8; 32])
}

fn bob() -> AccountId {
    AccountId::new([2u8; 32])
}

fn carol() -> AccountId {
    AccountId::new([3u8; 32])
}

fn dave() -> AccountId {
    AccountId::new([4u8; 32])
}

fn id(account: &ink_env::AccountId) -> AccountId {
    let bytes: &[u8; 32] = account.as_ref();
    AccountId::new(*bytes)
}

#[test]
fn total_supply_works() {
    let accounts = ink_env::test::default_accounts::<DefaultEnvironment>();
    let mytoken = MyToken::new_token(1000, id(&accounts.alice));
    assert_eq!(mytoken.total_supply(), 1000);
}

#[test]
fn balance_of_works() {
    let accounts = ink_env::test::default_accounts::<DefaultEnvironment>();
    let mytoken = MyToken::new_token(1000, id(&accounts.alice));
    assert_eq!(mytoken.balance_of(id(&accounts.alice)), 1000);
    assert_eq!(mytoken.balance_of(id(&accounts.bob)), 0);
}

#[test]
fn transfer_works() {
    let accounts = ink_env::test::default_accounts::<DefaultEnvironment>();
    let mut mytoken = MyToken::new_token(1000, id(&accounts.alice));
    assert_eq!(mytoken.balance_of(id(&accounts.alice)), 1000);
    assert_eq!(mytoken.balance_of(id(&accounts.bob)), 0);
    assert_eq!(mytoken.transfer(id(&accounts.alice), id(&accounts.bob), 100), Ok(()));
    assert_eq!(mytoken.balance_of(id(&accounts.alice)), 900);
    assert_eq!(mytoken.balance_of(id(&accounts.bob)), 100);
}

#[test]
fn transfer_more_than_held_fails_and_changes_nothing() {
    let mut mytoken = MyToken::new_token(1000, alice());
    assert_eq!(mytoken.transfer(alice(), bob(), 100), Ok(()));
    assert_eq!(mytoken.transfer(bob(), alice(), 1000), Err(Error::InsufficientBalance));
    assert_eq!(mytoken.balance_of(alice()), 900);
    assert_eq!(mytoken.balance_of(bob()), 100);
    assert_eq!(mytoken.total_supply(), 1000);
}

#[test]
fn self_transfer_keeps_balance() {
    let mut mytoken = MyToken::new_token(500, carol());
    assert_eq!(mytoken.transfer(carol(), carol(), 500), Ok(()));
    assert_eq!(mytoken.balance_of(carol()), 500);
    assert_eq!(mytoken.transfer(carol(), carol(), 501), Err(Error::InsufficientBalance));
    assert_eq!(mytoken.balance_of(carol()), 500);
}

#[test]
fn zero_supply_ledger() {
    let mut mytoken = MyToken::new_token(0, dave());
    assert_eq!(mytoken.total_supply(), 0);
    assert_eq!(mytoken.balance_of(dave()), 0);
    assert_eq!(mytoken.transfer(dave(), alice(), 1), Err(Error::InsufficientBalance));
    assert_eq!(mytoken.balance_of(alice()), 0);
    assert_eq!(mytoken.transfer(dave(), alice(), 0), Ok(()));
}

#[test]
fn untouched_accounts_hold_nothing() {
    let mut mytoken = MyToken::new_token(1000, alice());
    assert_eq!(mytoken.transfer(alice(), bob(), 10), Ok(()));
    assert_eq!(mytoken.balance_of(carol()), 0);
    assert_eq!(mytoken.balance_of(dave()), 0);
}

#[test]
fn balances_sum_to_supply_after_transfers() {
    let mut mytoken = MyToken::new_token(u32::MAX, alice());
    assert_eq!(mytoken.transfer(alice(), bob(), 7), Ok(()));
    assert_eq!(mytoken.transfer(bob(), carol(), 3), Ok(()));
    assert_eq!(mytoken.transfer(carol(), alice(), 1), Ok(()));
    let a = mytoken.balance_of(alice()) as u64;
    let b = mytoken.balance_of(bob()) as u64;
    let c = mytoken.balance_of(carol()) as u64;
    assert_eq!(a, u32::MAX as u64 - 6);
    assert_eq!(b, 4);
    assert_eq!(c, 2);
    assert_eq!(a + b + c, u32::MAX as u64);
}

#[test]
fn wide_supply_is_rejected() {
    assert!(matches!(
        MyToken::try_new_token(u32::MAX as u64 + 1, alice()),
        Err(Error::InvalidSupply)
    ));
    let t = MyToken::try_new_token(42, alice()).ok().unwrap();
    assert_eq!(t.total_supply(), 42);
    assert_eq!(t.balance_of(alice()), 42);
}

#[test]
fn account_identity_compares_bytes() {
    let mut x = [9u8; 32];
    let y = x;
    assert!(AccountId::new(x).same(&AccountId::new(y)));
    x[31] = 8;
    assert!(!AccountId::new(x).same(&AccountId::new(y)));
}
