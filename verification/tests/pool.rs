use amm_pool::pool::{Pool, PoolError, Token};

// Amounts are in subunits: 10_000 subunits per whole token.
const S: u64 = 10_000;

#[test]
fn first_deposit_mints_geometric_mean() {
    let mut p = Pool::new();
    let minted = p.deposit(4, 9, "alice".to_string());
    assert_eq!(minted, Ok(6));
    assert_eq!(p.get_total_shares(), 6);
    assert_eq!(p.get_reserves(), (4, 9));
    assert_eq!(p.get_invariant_k(), 36);
    assert_eq!(p.get_provider_shares(&"alice".to_string()), Ok(6));
}

#[test]
fn first_deposit_rounds_the_square_root_down() {
    let mut p = Pool::new();
    // sqrt(77) = 8.77..., so 8 shares
    assert_eq!(p.deposit(7, 11, "alice".to_string()), Ok(8));
    assert_eq!(p.get_total_shares(), 8);
}

#[test]
fn zero_amounts_are_rejected() {
    let mut p = Pool::new();
    assert_eq!(p.deposit(0, 5, "alice".to_string()), Err(PoolError::InvalidAmount));
    assert_eq!(p.deposit(5, 0, "alice".to_string()), Err(PoolError::InvalidAmount));
    assert_eq!(p.get_reserves(), (0, 0));
    assert_eq!(p.get_total_shares(), 0);
    assert_eq!(p.swap(0, Token::Base), Err(PoolError::InvalidAmount));
}

#[test]
fn ratio_mismatch_is_rejected_and_pool_unchanged() {
    let mut p = Pool::new();
    assert_eq!(p.deposit(10, 20, "alice".to_string()), Ok(14));
    let r = p.deposit(10, 19, "bob".to_string());
    assert_eq!(r, Err(PoolError::InvariantViolation));
    assert_eq!(p.get_reserves(), (10, 20));
    assert_eq!(p.get_total_shares(), 14);
    assert_eq!(
        p.get_provider_shares(&"bob".to_string()),
        Err(PoolError::ProviderNotFound)
    );
}

#[test]
fn matched_second_deposit_mints_like_the_first() {
    let mut p = Pool::new();
    let ma = p.deposit(5, 10, "alice".to_string()).unwrap();
    assert_eq!(ma, 7); // sqrt(50) rounded down
    let mb = p.deposit(5, 10, "bob".to_string()).unwrap();
    assert_eq!(mb, ma);
    assert_eq!(p.get_total_shares(), 14);
    assert_eq!(p.get_reserves(), (10, 20));
}

#[test]
fn tripled_matched_deposit_mints_thrice_the_shares() {
    let mut p = Pool::new();
    let ma = p.deposit(5, 10, "alice".to_string()).unwrap();
    let mb = p.deposit(15, 30, "bob".to_string()).unwrap();
    assert_eq!(mb, 3 * ma);
}

#[test]
fn repeated_deposit_accumulates_provider_balance() {
    let mut p = Pool::new();
    assert_eq!(p.deposit(4, 9, "alice".to_string()), Ok(6));
    assert_eq!(p.deposit(4, 9, "alice".to_string()), Ok(6));
    assert_eq!(p.get_provider_shares(&"alice".to_string()), Ok(12));
    assert_eq!(p.get_total_shares(), 12);
}

#[test]
fn full_exit_returns_the_deposit_exactly() {
    let mut p = Pool::new();
    p.deposit(7, 11, "alice".to_string()).unwrap();
    let out = p.withdraw(&"alice".to_string());
    assert_eq!(out, Ok((7, 11)));
    assert_eq!(p.get_total_shares(), 0);
    assert_eq!(p.get_reserves(), (0, 0));
    assert_eq!(p.get_invariant_k(), 0);
    assert_eq!(
        p.get_provider_shares(&"alice".to_string()),
        Err(PoolError::ProviderNotFound)
    );
    assert_eq!(p.get_price(), Err(PoolError::UndefinedPrice));
}

#[test]
fn partial_exit_pays_pro_rata_and_keeps_the_rest_running() {
    let mut p = Pool::new();
    let ma = p.deposit(1000, 1000, "alice".to_string()).unwrap();
    let mb = p.deposit(1000, 1000, "bob".to_string()).unwrap();
    assert_eq!((ma, mb), (1000, 1000));
    // alice holds half the shares, so she gets half of each reserve
    assert_eq!(p.withdraw(&"alice".to_string()), Ok((1000, 1000)));
    assert_eq!(p.get_reserves(), (1000, 1000));
    assert_eq!(p.get_total_shares(), 1000);
    assert_eq!(p.get_provider_shares(&"bob".to_string()), Ok(1000));
}

#[test]
fn unknown_provider_is_rejected_and_pool_unchanged() {
    let mut p = Pool::new();
    p.deposit(10, 20, "alice".to_string()).unwrap();
    assert_eq!(
        p.withdraw(&"carol".to_string()),
        Err(PoolError::ProviderNotFound)
    );
    assert_eq!(
        p.get_provider_shares(&"carol".to_string()),
        Err(PoolError::ProviderNotFound)
    );
    assert_eq!(p.get_reserves(), (10, 20));
    assert_eq!(p.get_total_shares(), 14);
}

#[test]
fn swap_follows_the_constant_product_formula() {
    let mut p = Pool::new();
    p.deposit(1000, 1000, "alice".to_string()).unwrap();
    let k = p.get_invariant_k();
    assert_eq!(k, 1_000_000);
    // receive base: out = 1000 - k / (1000 + 10) = 1000 - 990 = 10
    let out = p.swap(10, Token::Base).unwrap();
    assert_eq!(out, 10);
    assert_eq!(p.get_reserves(), (990, 1010));
    // k itself is held fixed across the swap
    assert_eq!(p.get_invariant_k(), 1_000_000);
    // the invariant is preserved up to the rounded unit: (1000+10)*(1000-10) <= k
    assert!(1010 * 990 <= k && k < 1010 * (990 + 1));
}

#[test]
fn swap_output_is_monotone_in_the_input_and_below_the_reserve() {
    let outs: Vec<u64> = [1u64, 2, 10, 20, 500, 5_000]
        .iter()
        .map(|&x| {
            let mut p = Pool::new();
            p.deposit(1000, 1000, "alice".to_string()).unwrap();
            let out = p.swap(x, Token::Other).unwrap();
            assert!(out < 1000);
            out
        })
        .collect();
    for w in outs.windows(2) {
        assert!(w[0] <= w[1]);
    }
    // adjacent integer inputs can tie: 1000 - 10^6/1010 == 1000 - 10^6/1011 == 10
    let mut p = Pool::new();
    p.deposit(1000, 1000, "alice".to_string()).unwrap();
    assert_eq!(p.swap(10, Token::Base), Ok(10));
}

#[test]
fn swap_that_would_drain_the_pool_is_rejected() {
    let mut p = Pool::new();
    assert_eq!(p.swap(5, Token::Base), Err(PoolError::InsufficientLiquidity));
    p.deposit(2, 2, "alice".to_string()).unwrap();
    assert_eq!(p.swap(10, Token::Base), Err(PoolError::InsufficientLiquidity));
    assert_eq!(p.get_reserves(), (2, 2));
    assert_eq!(p.get_total_shares(), 2);
}

#[test]
fn price_is_the_exact_reserve_ratio() {
    let mut p = Pool::new();
    assert_eq!(p.get_price(), Err(PoolError::UndefinedPrice));
    p.deposit(5000 * S, 10000 * S, "alice".to_string()).unwrap();
    // base : other = 1 : 2, i.e. a spot price of 0.5
    assert_eq!(p.get_price(), Ok((50_000_000, 100_000_000)));
}

#[test]
fn two_providers_and_a_swap_scenario() {
    let mut p = Pool::new();
    let ma = p.deposit(5000 * S, 10000 * S, "Alice".to_string()).unwrap();
    // sqrt(5000 * 10000) = 7071.0678...
    assert_eq!(ma, 70_710_678);
    assert_eq!(p.get_total_shares(), 70_710_678);
    let mb = p.deposit(5000 * S, 10000 * S, "Bob".to_string()).unwrap();
    assert_eq!(mb, 70_710_678);
    assert_eq!(p.get_total_shares(), 141_421_356);
    assert_eq!(p.get_reserves(), (100_000_000, 200_000_000));
    let k = p.get_invariant_k();
    assert_eq!(k, 20_000_000_000_000_000);
    // swap 50 whole tokens in, asking for the base token
    let out = p.swap(50 * S, Token::Base).unwrap();
    assert_eq!(out, 249_377); // 24.9377 base tokens
    assert_eq!(p.get_reserves(), (99_750_623, 200_500_000));
    assert_eq!(p.get_invariant_k(), k);
    let (rb, ro) = p.get_reserves();
    assert!((ro as u128) * ((rb as u128) + 1) > k && (ro as u128) * (rb as u128) <= k);
    // shares were untouched by the swap
    assert_eq!(p.get_provider_shares(&"Alice".to_string()), Ok(70_710_678));
    assert_eq!(p.get_provider_shares(&"Bob".to_string()), Ok(70_710_678));
}
