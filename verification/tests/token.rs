use staking_pool::token::{Error, TokenContract, DEFAULT_DECIMALS, FAUCET_AMOUNT};

const TOKEN_ID: u64 = 10;

#[test]
fn metadata_defaults_then_init() {
    let mut t = TokenContract::new(TOKEN_ID);
    assert_eq!(t.decimals(), DEFAULT_DECIMALS);
    assert_eq!(t.decimals(), 7);
    assert_eq!(t.name(), String::new());
    assert_eq!(t.symbol(), String::new());
    assert_eq!(t.init(1, 9, String::from("Stake"), String::from("STK")), Ok(()));
    assert_eq!(t.decimals(), 9);
    assert_eq!(t.name(), String::from("Stake"));
    assert_eq!(t.symbol(), String::from("STK"));
}

#[test]
fn init_only_once() {
    let mut t = TokenContract::new(TOKEN_ID);
    t.init(1, 7, String::from("A"), String::from("B")).unwrap();
    assert_eq!(t.init(2, 3, String::from("C"), String::from("D")), Err(Error::AlreadyInitialized));
    assert_eq!(t.decimals(), 7);
    assert_eq!(t.name(), String::from("A"));
}

#[test]
fn mint_rules() {
    let mut t = TokenContract::new(TOKEN_ID);
    assert_eq!(t.mint(5, 10), Err(Error::NotInitialized));
    assert_eq!(t.mint(5, -1), Err(Error::NegativeAmount));
    t.init(1, 7, String::new(), String::new()).unwrap();
    assert_eq!(t.mint(5, -1), Err(Error::NegativeAmount));
    assert_eq!(t.mint(5, 0), Ok(()));
    assert_eq!(t.mint(5, 10), Ok(()));
    assert_eq!(t.mint(5, 15), Ok(()));
    assert_eq!(t.balance(5), 25);
    assert_eq!(t.balance(6), 0);
}

#[test]
fn transfer_rules() {
    let mut t = TokenContract::new(TOKEN_ID);
    t.init(1, 7, String::new(), String::new()).unwrap();
    t.mint(5, 100).unwrap();
    assert_eq!(t.transfer(5, 6, -1), Err(Error::NegativeAmount));
    assert_eq!(t.transfer(5, 6, 101), Err(Error::InsufficientBalance));
    assert_eq!(t.transfer(6, 5, 1), Err(Error::InsufficientBalance));
    assert_eq!(t.transfer(5, 6, 40), Ok(()));
    assert_eq!(t.balance(5), 60);
    assert_eq!(t.balance(6), 40);
    // A transfer to oneself changes nothing.
    assert_eq!(t.transfer(5, 5, 60), Ok(()));
    assert_eq!(t.balance(5), 60);
    // Transfers need no initialization, and zero is allowed.
    let mut fresh = TokenContract::new(TOKEN_ID);
    assert_eq!(fresh.transfer(1, 2, 0), Ok(()));
    assert_eq!(fresh.transfer(1, 2, 1), Err(Error::InsufficientBalance));
}

#[test]
fn transfer_conserves_supply() {
    let mut t = TokenContract::new(TOKEN_ID);
    t.init(1, 7, String::new(), String::new()).unwrap();
    t.mint(5, 300).unwrap();
    t.mint(6, 200).unwrap();
    t.transfer(5, 6, 120).unwrap();
    t.transfer(6, 7, 50).unwrap();
    assert_eq!(t.balance(5) + t.balance(6) + t.balance(7), 500);
}

#[test]
fn faucet_once_per_address() {
    let mut t = TokenContract::new(TOKEN_ID);
    assert!(!t.faucet_claimed(4));
    assert_eq!(t.faucet(4), Ok(FAUCET_AMOUNT));
    assert_eq!(t.faucet(4), Err(Error::AlreadyClaimed));
    assert!(t.faucet_claimed(4));
    assert_eq!(t.balance(4), 10_000_000_000);
    assert_eq!(t.faucet(3), Ok(10_000_000_000));
    assert_eq!(t.faucet(4), Err(Error::AlreadyClaimed));
    assert_eq!(t.balance(4), 10_000_000_000);
}

#[test]
fn token_stored_entries_round_trip() {
    let t = TokenContract::from_stored(
        TOKEN_ID,
        Some(1),
        3,
        String::from("N"),
        String::from("S"),
        vec![(5, 10), (6, 20), (5, 30)],
        vec![6],
    );
    assert_eq!(t.balance(5), 30);
    assert_eq!(t.balance_entry(6), Some(20));
    assert_eq!(t.balance_entry(7), None);
    assert!(t.faucet_claimed(6));
    assert!(!t.faucet_claimed(5));
    assert_eq!(t.decimals(), 3);
    assert_eq!(t.name(), String::from("N"));
    assert_eq!(t.symbol(), String::from("S"));
}

#[test]
fn token_overflow_guards() {
    let t = TokenContract::from_stored(TOKEN_ID, None, 7, String::new(), String::new(), vec![(5, i128::MAX - 1)], vec![]);
    // Minting needs an admin first; refused mints cannot overflow.
    assert!(t.mint_fits(5, 10));
    let t = TokenContract::from_stored(TOKEN_ID, Some(1), 7, String::new(), String::new(), vec![(5, i128::MAX - 1), (6, 10)], vec![]);
    assert!(t.mint_fits(5, 1));
    assert!(!t.mint_fits(5, 2));
    assert!(!t.transfer_fits(6, 5, 2));
    assert!(t.transfer_fits(6, 5, 1));
    assert!(t.transfer_fits(6, 5, 11));
    assert!(t.transfer_fits(5, 5, 100));
    assert!(!t.faucet_fits(5));
    assert!(t.faucet_fits(6));
}

#[test]
fn mint_grows_supply_by_amount() {
    let mut t = TokenContract::new(TOKEN_ID);
    t.init(1, 7, String::new(), String::new()).unwrap();
    t.mint(5, 70).unwrap();
    t.mint(6, 30).unwrap();
    let before = t.balance(5) + t.balance(6);
    t.mint(6, 25).unwrap();
    assert_eq!(t.balance(5) + t.balance(6), before + 25);
    assert_eq!(t.balance(5), 70);
}

#[test]
fn faucet_claimed_tracks_successful_claims() {
    let mut t = TokenContract::new(TOKEN_ID);
    assert!(!t.faucet_claimed(4));
    t.init(1, 7, String::new(), String::new()).unwrap();
    t.mint(4, 100).unwrap();
    t.transfer(4, 5, 10).unwrap();
    assert!(!t.faucet_claimed(4));
    assert!(!t.faucet_claimed(5));
    assert_eq!(t.faucet(5), Ok(FAUCET_AMOUNT));
    assert!(t.faucet_claimed(5));
    assert!(!t.faucet_claimed(4));
    t.transfer(5, 4, 50).unwrap();
    assert_eq!(t.faucet(5), Err(Error::AlreadyClaimed));
    assert!(t.faucet_claimed(5));
    assert!(!t.faucet_claimed(4));
}

#[test]
fn token_knows_its_address() {
    let t = TokenContract::new(42);
    assert_eq!(t.address(), 42);
    let t = TokenContract::from_stored(43, None, 7, String::new(), String::new(), vec![], vec![]);
    assert_eq!(t.address(), 43);
}
