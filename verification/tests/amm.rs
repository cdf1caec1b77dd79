//! Behavioural tests of the AMM ledger engine: minting, pool creation,
//! the constant-product invariant, price movement, reversibility, and the
//! error conditions.

use amm_ledger::amm::{AmmContract, AmmError};

fn create_test_contract() -> AmmContract {
    AmmContract::default()
}

fn get_user_balance_value(contract: &AmmContract, user: &str, token: &str) -> u128 {
    contract.get_user_balance(user.to_string(), token.to_string())
}

fn get_pool_reserves(contract: &AmmContract, token_a: &str, token_b: &str) -> (u128, u128, u128) {
    contract
        .get_reserves(token_a.to_string(), token_b.to_string())
        .unwrap()
}

// ========================================================================
// MINTING TESTS
// ========================================================================

#[test]
fn test_minting_increases_balance() {
    let mut contract = create_test_contract();

    // Test initial zero balance
    assert_eq!(get_user_balance_value(&contract, "bob", "USDC"), 0);

    // Mint tokens increases balance
    contract
        .mint_tokens("bob".to_string(), "USDC".to_string(), 1000)
        .unwrap();
    assert_eq!(get_user_balance_value(&contract, "bob", "USDC"), 1000);

    // Additional minting adds to existing balance
    contract
        .mint_tokens("bob".to_string(), "USDC".to_string(), 500)
        .unwrap();
    assert_eq!(get_user_balance_value(&contract, "bob", "USDC"), 1500);
}

#[test]
fn test_minting_multiple_users_and_tokens() {
    let mut contract = create_test_contract();

    // Mint different amounts for different users and tokens
    contract
        .mint_tokens("alice".to_string(), "USDC".to_string(), 2000)
        .unwrap();
    contract
        .mint_tokens("alice".to_string(), "ETH".to_string(), 1000)
        .unwrap();
    contract
        .mint_tokens("bob".to_string(), "USDC".to_string(), 500)
        .unwrap();

    // Verify independent balances
    assert_eq!(get_user_balance_value(&contract, "alice", "USDC"), 2000);
    assert_eq!(get_user_balance_value(&contract, "alice", "ETH"), 1000);
    assert_eq!(get_user_balance_value(&contract, "bob", "USDC"), 500);
    assert_eq!(get_user_balance_value(&contract, "bob", "ETH"), 0);
}

// ========================================================================
// POOL INITIALIZATION TESTS
// ========================================================================

#[test]
fn test_pool_initialization_with_different_prices() {
    let mut contract = create_test_contract();

    // Setup user funds (increased amounts to handle multiple pools)
    contract
        .mint_tokens("alice".to_string(), "USDC".to_string(), 20000)
        .unwrap();
    contract
        .mint_tokens("alice".to_string(), "ETH".to_string(), 10000)
        .unwrap();
    contract
        .mint_tokens("alice".to_string(), "BTC".to_string(), 1000)
        .unwrap();
    contract
        .mint_tokens("alice".to_string(), "GOLD".to_string(), 1000)
        .unwrap();
    contract
        .mint_tokens("alice".to_string(), "SILVER".to_string(), 10000)
        .unwrap();

    // Test 1:1 price pool
    contract
        .add_liquidity(
            "alice".to_string(),
            "USDC".to_string(),
            "ETH".to_string(),
            1000,
            1000,
        )
        .unwrap();
    let (reserve_a, reserve_b, _) = get_pool_reserves(&contract, "USDC", "ETH");
    assert_eq!(reserve_a, 1000);
    assert_eq!(reserve_b, 1000);

    // Test 2:1 price pool (different tokens)
    contract
        .add_liquidity(
            "alice".to_string(),
            "USDC".to_string(),
            "BTC".to_string(),
            2000,
            100,
        )
        .unwrap();
    let (reserve_a, reserve_b, _) = get_pool_reserves(&contract, "USDC", "BTC");
    // BTC comes first alphabetically, so reserve_a=100(BTC), reserve_b=2000(USDC)
    assert_eq!(reserve_a, 100); // BTC
    assert_eq!(reserve_b, 2000); // USDC

    // Test 10:1 price pool
    contract
        .add_liquidity(
            "alice".to_string(),
            "GOLD".to_string(),
            "SILVER".to_string(),
            100,
            1000,
        )
        .unwrap();
    let (reserve_a, reserve_b, _) = get_pool_reserves(&contract, "GOLD", "SILVER");
    assert_eq!(reserve_a, 100); // GOLD
    assert_eq!(reserve_b, 1000); // SILVER
}

#[test]
fn test_pool_funding_on_initialization() {
    let mut contract = create_test_contract();

    // Setup: alice has 2000 USDC and 2000 ETH
    contract
        .mint_tokens("alice".to_string(), "USDC".to_string(), 2000)
        .unwrap();
    contract
        .mint_tokens("alice".to_string(), "ETH".to_string(), 2000)
        .unwrap();

    // Initialize pool with 1000 USDC and 1000 ETH
    contract
        .add_liquidity(
            "alice".to_string(),
            "USDC".to_string(),
            "ETH".to_string(),
            1000,
            1000,
        )
        .unwrap();

    // Check pool has the funds
    let (reserve_a, reserve_b, liquidity) = get_pool_reserves(&contract, "USDC", "ETH");
    assert_eq!(reserve_a, 1000); // ETH (alphabetically first)
    assert_eq!(reserve_b, 1000); // USDC
    assert_eq!(liquidity, 1000); // sqrt(1000 * 1000) = 1000

    // Check alice's balances were deducted
    assert_eq!(get_user_balance_value(&contract, "alice", "USDC"), 1000); // 2000 - 1000
    assert_eq!(get_user_balance_value(&contract, "alice", "ETH"), 1000); // 2000 - 1000
}

// ========================================================================
// POOL INVARIANT TESTS
// ========================================================================

#[test]
fn test_constant_product_invariant_with_no_fees() {
    let mut contract = create_test_contract();

    // Setup equal liquidity pool
    contract
        .mint_tokens("alice".to_string(), "USDC".to_string(), 1000)
        .unwrap();
    contract
        .mint_tokens("alice".to_string(), "ETH".to_string(), 1000)
        .unwrap();
    contract
        .add_liquidity(
            "alice".to_string(),
            "USDC".to_string(),
            "ETH".to_string(),
            1000,
            1000,
        )
        .unwrap();

    let (initial_reserve_a, initial_reserve_b, _) = get_pool_reserves(&contract, "USDC", "ETH");
    let initial_k = initial_reserve_a * initial_reserve_b;

    // Give bob tokens to swap
    contract
        .mint_tokens("bob".to_string(), "ETH".to_string(), 100)
        .unwrap();

    // Perform swap: 100 ETH for USDC
    contract
        .swap_exact_tokens_for_tokens(
            "bob".to_string(),
            "ETH".to_string(),
            "USDC".to_string(),
            100,
            0,
        )
        .unwrap();

    let (final_reserve_a, final_reserve_b, _) = get_pool_reserves(&contract, "USDC", "ETH");
    let final_k = final_reserve_a * final_reserve_b;

    // With integer arithmetic, k should increase slightly (benefits liquidity providers)
    // Allow up to 0.2% increase in k due to rounding
    let k_increase_percentage = ((final_k as f64 - initial_k as f64) / initial_k as f64) * 100.0;
    assert!(
        k_increase_percentage >= 0.0,
        "K should not decrease: {} -> {}",
        initial_k,
        final_k
    );
    assert!(
        k_increase_percentage <= 0.2,
        "K increase should be minimal: {}% ({}->{})",
        k_increase_percentage,
        initial_k,
        final_k
    );
}

#[test]
fn test_liquidity_provision_preserves_ratios() {
    let mut contract = create_test_contract();

    // Setup initial pool with 2:1 ratio (USDC:ETH)
    contract
        .mint_tokens("alice".to_string(), "USDC".to_string(), 4000)
        .unwrap();
    contract
        .mint_tokens("alice".to_string(), "ETH".to_string(), 4000)
        .unwrap();
    contract
        .add_liquidity(
            "alice".to_string(),
            "USDC".to_string(),
            "ETH".to_string(),
            2000,
            1000,
        )
        .unwrap();

    let (initial_reserve_a, initial_reserve_b, initial_liquidity) =
        get_pool_reserves(&contract, "USDC", "ETH");
    let initial_ratio = initial_reserve_b as f64 / initial_reserve_a as f64; // USDC/ETH ratio

    // Bob adds liquidity maintaining the same ratio (1000 USDC : 500 ETH maintains 2:1)
    contract
        .mint_tokens("bob".to_string(), "USDC".to_string(), 1000)
        .unwrap();
    contract
        .mint_tokens("bob".to_string(), "ETH".to_string(), 1000)
        .unwrap();
    contract
        .add_liquidity(
            "bob".to_string(),
            "USDC".to_string(),
            "ETH".to_string(),
            1000,
            500,
        )
        .unwrap();

    let (final_reserve_a, final_reserve_b, final_liquidity) =
        get_pool_reserves(&contract, "USDC", "ETH");
    let final_ratio = final_reserve_b as f64 / final_reserve_a as f64;

    // Ratio should be preserved within 0.1%
    let ratio_change_percentage = ((final_ratio - initial_ratio).abs() / initial_ratio) * 100.0;
    assert!(
        ratio_change_percentage < 0.1,
        "Ratio should be preserved: {} vs {} ({}% change)",
        initial_ratio,
        final_ratio,
        ratio_change_percentage
    );

    // Total reserves should increase proportionally
    assert_eq!(final_reserve_a, initial_reserve_a + 500); // ETH
    assert_eq!(final_reserve_b, initial_reserve_b + 1000); // USDC
    assert!(
        final_liquidity > initial_liquidity,
        "Liquidity should increase"
    );
}

// ========================================================================
// PRICE CHANGE TESTS
// ========================================================================

#[test]
fn test_swap_changes_price_correctly() {
    let mut contract = create_test_contract();

    // Setup 1:1 pool (1000 USDC : 1000 ETH)
    contract
        .mint_tokens("alice".to_string(), "USDC".to_string(), 1000)
        .unwrap();
    contract
        .mint_tokens("alice".to_string(), "ETH".to_string(), 1000)
        .unwrap();
    contract
        .add_liquidity(
            "alice".to_string(),
            "USDC".to_string(),
            "ETH".to_string(),
            1000,
            1000,
        )
        .unwrap();

    let (initial_eth, initial_usdc, _) = get_pool_reserves(&contract, "USDC", "ETH");
    let initial_price_eth_per_usdc = initial_eth as f64 / initial_usdc as f64; // ETH per USDC

    // Bob swaps USDC for ETH
    contract
        .mint_tokens("bob".to_string(), "USDC".to_string(), 100)
        .unwrap();
    contract
        .swap_exact_tokens_for_tokens(
            "bob".to_string(),
            "USDC".to_string(),
            "ETH".to_string(),
            100,
            0,
        )
        .unwrap();

    let (final_eth, final_usdc, _) = get_pool_reserves(&contract, "USDC", "ETH");
    let final_price_eth_per_usdc = final_eth as f64 / final_usdc as f64;

    // After swapping USDC for ETH:
    // - More USDC in pool, less ETH in pool
    // - Price of ETH (in USDC terms) should increase
    // - Price of USDC (in ETH terms) should decrease
    assert!(final_usdc > initial_usdc, "USDC reserves should increase");
    assert!(final_eth < initial_eth, "ETH reserves should decrease");
    assert!(
        final_price_eth_per_usdc < initial_price_eth_per_usdc,
        "ETH per USDC should decrease (ETH price in USDC increased)"
    );
}

#[test]
fn test_swap_direction_affects_price_correctly() {
    let mut contract = create_test_contract();

    // Setup asymmetric pool (500 USDC : 1000 ETH) - ETH is cheaper
    contract
        .mint_tokens("alice".to_string(), "USDC".to_string(), 500)
        .unwrap();
    contract
        .mint_tokens("alice".to_string(), "ETH".to_string(), 1000)
        .unwrap();
    contract
        .add_liquidity(
            "alice".to_string(),
            "USDC".to_string(),
            "ETH".to_string(),
            500,
            1000,
        )
        .unwrap();

    let (initial_eth, initial_usdc, _) = get_pool_reserves(&contract, "USDC", "ETH");

    // Test 1: Swap ETH for USDC (selling ETH)
    contract
        .mint_tokens("bob".to_string(), "ETH".to_string(), 100)
        .unwrap();
    contract
        .swap_exact_tokens_for_tokens(
            "bob".to_string(),
            "ETH".to_string(),
            "USDC".to_string(),
            100,
            0,
        )
        .unwrap();

    let (mid_eth, mid_usdc, _) = get_pool_reserves(&contract, "USDC", "ETH");

    // After selling ETH: more ETH in pool, less USDC, so ETH price should drop
    assert!(
        mid_eth > initial_eth,
        "ETH reserves should increase after selling ETH"
    );
    assert!(
        mid_usdc < initial_usdc,
        "USDC reserves should decrease after buying USDC"
    );

    // Test 2: Swap back USDC for ETH (buying ETH)
    let usdc_received = initial_usdc - mid_usdc;
    contract
        .swap_exact_tokens_for_tokens(
            "bob".to_string(),
            "USDC".to_string(),
            "ETH".to_string(),
            usdc_received,
            0,
        )
        .unwrap();

    let (final_eth, final_usdc, _) = get_pool_reserves(&contract, "USDC", "ETH");

    // After buying ETH back: less ETH in pool, more USDC, so ETH price should increase
    assert!(
        final_eth < mid_eth,
        "ETH reserves should decrease after buying ETH"
    );
    assert!(
        final_usdc > mid_usdc,
        "USDC reserves should increase after selling USDC"
    );
}

// ========================================================================
// NO-FEE REVERSIBILITY TESTS
// ========================================================================

#[test]
fn test_swapping_back_and_forth_preserves_balances() {
    let mut contract = create_test_contract();

    // Setup equal pool
    contract
        .mint_tokens("alice".to_string(), "USDC".to_string(), 1000)
        .unwrap();
    contract
        .mint_tokens("alice".to_string(), "ETH".to_string(), 1000)
        .unwrap();
    contract
        .add_liquidity(
            "alice".to_string(),
            "USDC".to_string(),
            "ETH".to_string(),
            1000,
            1000,
        )
        .unwrap();

    // Give bob initial tokens
    contract
        .mint_tokens("bob".to_string(), "USDC".to_string(), 100)
        .unwrap();
    let initial_usdc = get_user_balance_value(&contract, "bob", "USDC");
    let initial_eth = get_user_balance_value(&contract, "bob", "ETH");

    // Swap USDC for ETH
    contract
        .swap_exact_tokens_for_tokens(
            "bob".to_string(),
            "USDC".to_string(),
            "ETH".to_string(),
            100,
            0,
        )
        .unwrap();
    let eth_received = get_user_balance_value(&contract, "bob", "ETH");

    // Swap all ETH back for USDC
    contract
        .swap_exact_tokens_for_tokens(
            "bob".to_string(),
            "ETH".to_string(),
            "USDC".to_string(),
            eth_received,
            0,
        )
        .unwrap();

    let final_usdc = get_user_balance_value(&contract, "bob", "USDC");
    let final_eth = get_user_balance_value(&contract, "bob", "ETH");

    // With integer arithmetic, allow small losses due to rounding (up to 2% of original amount)
    let usdc_loss_percentage =
        ((initial_usdc as f64 - final_usdc as f64) / initial_usdc as f64) * 100.0;
    assert!(
        usdc_loss_percentage >= 0.0,
        "USDC balance should not increase"
    );
    assert!(
        usdc_loss_percentage <= 2.0,
        "USDC loss should be minimal: {}% ({} -> {})",
        usdc_loss_percentage,
        initial_usdc,
        final_usdc
    );
    assert_eq!(initial_eth, final_eth, "ETH balance should be preserved");
}

#[test]
fn test_multiple_round_trip_swaps_preserve_pool_state() {
    let mut contract = create_test_contract();

    // Setup pool
    contract
        .mint_tokens("alice".to_string(), "USDC".to_string(), 1000)
        .unwrap();
    contract
        .mint_tokens("alice".to_string(), "ETH".to_string(), 1000)
        .unwrap();
    contract
        .add_liquidity(
            "alice".to_string(),
            "USDC".to_string(),
            "ETH".to_string(),
            1000,
            1000,
        )
        .unwrap();

    let (initial_eth, initial_usdc, initial_liquidity) =
        get_pool_reserves(&contract, "USDC", "ETH");

    // Perform multiple round-trip swaps
    for i in 1..=5 {
        contract
            .mint_tokens("bob".to_string(), "USDC".to_string(), 50)
            .unwrap();

        // Swap USDC -> ETH
        contract
            .swap_exact_tokens_for_tokens(
                "bob".to_string(),
                "USDC".to_string(),
                "ETH".to_string(),
                50,
                0,
            )
            .unwrap();
        let eth_received = get_user_balance_value(&contract, "bob", "ETH");

        // Swap ETH -> USDC
        contract
            .swap_exact_tokens_for_tokens(
                "bob".to_string(),
                "ETH".to_string(),
                "USDC".to_string(),
                eth_received,
                0,
            )
            .unwrap();

        println!("Completed round-trip swap {}", i);
    }

    let (final_eth, final_usdc, final_liquidity) = get_pool_reserves(&contract, "USDC", "ETH");

    // Allow small pool growth due to accumulated rounding (up to 1% increase)
    let eth_growth_percentage =
        ((final_eth as f64 - initial_eth as f64) / initial_eth as f64) * 100.0;
    let usdc_growth_percentage =
        ((final_usdc as f64 - initial_usdc as f64) / initial_usdc as f64) * 100.0;

    assert!(
        eth_growth_percentage >= 0.0 && eth_growth_percentage <= 1.0,
        "ETH reserves should grow minimally: {}% ({} -> {})",
        eth_growth_percentage,
        initial_eth,
        final_eth
    );
    assert!(
        usdc_growth_percentage >= 0.0 && usdc_growth_percentage <= 1.0,
        "USDC reserves should grow minimally: {}% ({} -> {})",
        usdc_growth_percentage,
        initial_usdc,
        final_usdc
    );
    assert_eq!(
        initial_liquidity, final_liquidity,
        "Total liquidity should be preserved"
    );
}

// ========================================================================
// EDGE CASES AND ERROR CONDITIONS
// ========================================================================

#[test]
fn test_insufficient_balance_errors() {
    let mut contract = create_test_contract();

    // Test minting doesn't affect insufficient balance checks
    contract
        .mint_tokens("bob".to_string(), "USDC".to_string(), 50)
        .unwrap();

    // Setup pool
    contract
        .mint_tokens("alice".to_string(), "USDC".to_string(), 1000)
        .unwrap();
    contract
        .mint_tokens("alice".to_string(), "ETH".to_string(), 1000)
        .unwrap();
    contract
        .add_liquidity(
            "alice".to_string(),
            "USDC".to_string(),
            "ETH".to_string(),
            1000,
            1000,
        )
        .unwrap();

    // Try to swap more than balance
    let result = contract.swap_exact_tokens_for_tokens(
        "bob".to_string(),
        "USDC".to_string(),
        "ETH".to_string(),
        100,
        0,
    );
    assert!(result.is_err());
    assert_eq!(
        result.unwrap_err(),
        AmmError::InsufficientBalance("USDC".to_string())
    );

    // Try to add liquidity with insufficient balance
    let result = contract.add_liquidity(
        "bob".to_string(),
        "USDC".to_string(),
        "ETH".to_string(),
        100,
        100,
    );
    assert!(result.is_err());
    assert!(matches!(
        result.unwrap_err(),
        AmmError::InsufficientBalance(_)
    ));
}

#[test]
fn test_nonexistent_pool_error() {
    let mut contract = create_test_contract();

    contract
        .mint_tokens("bob".to_string(), "USDC".to_string(), 100)
        .unwrap();

    let result = contract.swap_exact_tokens_for_tokens(
        "bob".to_string(),
        "USDC".to_string(),
        "UNKNOWN".to_string(),
        50,
        0,
    );
    assert!(result.is_err());
    assert_eq!(result.unwrap_err(), AmmError::PoolNotFound);
}

#[test]
fn test_slippage_protection() {
    let mut contract = create_test_contract();

    // Setup uneven pool (2:1 ratio)
    contract
        .mint_tokens("alice".to_string(), "USDC".to_string(), 1000)
        .unwrap();
    contract
        .mint_tokens("alice".to_string(), "ETH".to_string(), 500)
        .unwrap();
    contract
        .add_liquidity(
            "alice".to_string(),
            "USDC".to_string(),
            "ETH".to_string(),
            1000,
            500,
        )
        .unwrap();

    contract
        .mint_tokens("bob".to_string(), "USDC".to_string(), 100)
        .unwrap();

    // Calculate expected output: (100 * 500) / (1000 + 100) = ~45.45, so expect ~45 ETH
    // Try to demand 50 ETH (more than possible) - should fail
    let result = contract.swap_exact_tokens_for_tokens(
        "bob".to_string(),
        "USDC".to_string(),
        "ETH".to_string(),
        100,
        50,
    );
    assert!(result.is_err(), "Should fail due to slippage protection");
    assert_eq!(result.unwrap_err(), AmmError::SlippageExceeded);
}

#[test]
fn test_pair_key_consistency() {
    let contract = create_test_contract();

    // Test that pair key is consistent regardless of token order
    assert_eq!(
        contract.get_pair_key("USDC", "ETH"),
        contract.get_pair_key("ETH", "USDC")
    );
    assert_eq!(
        contract.get_pair_key("ABC", "XYZ"),
        contract.get_pair_key("XYZ", "ABC")
    );
    assert_eq!(
        contract.get_pair_key("TOKEN1", "TOKEN2"),
        ("TOKEN1".to_string(), "TOKEN2".to_string())
    );
    assert_eq!(
        contract.get_pair_key("TOKEN2", "TOKEN1"),
        ("TOKEN1".to_string(), "TOKEN2".to_string())
    );
}

// ========================================================================
// COMPLEX SCENARIOS
// ========================================================================

#[test]
fn test_multiple_pools_independent_operation() {
    let mut contract = create_test_contract();

    // Setup multiple pools with different ratios
    contract
        .mint_tokens("alice".to_string(), "USDC".to_string(), 5000)
        .unwrap();
    contract
        .mint_tokens("alice".to_string(), "ETH".to_string(), 2000)
        .unwrap();
    contract
        .mint_tokens("alice".to_string(), "BTC".to_string(), 100)
        .unwrap();

    // Pool 1: USDC/ETH (2:1 ratio)
    contract
        .add_liquidity(
            "alice".to_string(),
            "USDC".to_string(),
            "ETH".to_string(),
            2000,
            1000,
        )
        .unwrap();

    // Pool 2: USDC/BTC (30:1 ratio)
    contract
        .add_liquidity(
            "alice".to_string(),
            "USDC".to_string(),
            "BTC".to_string(),
            3000,
            100,
        )
        .unwrap();

    let (usdc_eth_reserve_a, usdc_eth_reserve_b, _) = get_pool_reserves(&contract, "USDC", "ETH");
    let (btc_usdc_reserve_a, btc_usdc_reserve_b, _) = get_pool_reserves(&contract, "BTC", "USDC");

    // Verify pools are independent and correctly set up
    assert_eq!(usdc_eth_reserve_a, 1000); // ETH
    assert_eq!(usdc_eth_reserve_b, 2000); // USDC
    assert_eq!(btc_usdc_reserve_a, 100); // BTC
    assert_eq!(btc_usdc_reserve_b, 3000); // USDC

    // Trade in one pool shouldn't affect the other
    contract
        .mint_tokens("bob".to_string(), "ETH".to_string(), 100)
        .unwrap();
    contract
        .swap_exact_tokens_for_tokens(
            "bob".to_string(),
            "ETH".to_string(),
            "USDC".to_string(),
            100,
            0,
        )
        .unwrap();

    // BTC/USDC pool should be unchanged
    let (btc_usdc_reserve_a_after, btc_usdc_reserve_b_after, _) =
        get_pool_reserves(&contract, "BTC", "USDC");
    assert_eq!(btc_usdc_reserve_a, btc_usdc_reserve_a_after);
    assert_eq!(btc_usdc_reserve_b, btc_usdc_reserve_b_after);
}

#[test]
fn test_large_liquidity_operations() {
    let mut contract = create_test_contract();

    // Test with large numbers to check for overflow issues
    let large_amount = 1_000_000_000u128; // 1 billion

    contract
        .mint_tokens("whale".to_string(), "USDC".to_string(), large_amount)
        .unwrap();
    contract
        .mint_tokens("whale".to_string(), "ETH".to_string(), large_amount)
        .unwrap();

    // Add large liquidity
    contract
        .add_liquidity(
            "whale".to_string(),
            "USDC".to_string(),
            "ETH".to_string(),
            large_amount / 2,
            large_amount / 2,
        )
        .unwrap();

    let (reserve_a, reserve_b, liquidity) = get_pool_reserves(&contract, "USDC", "ETH");
    assert_eq!(reserve_a, large_amount / 2);
    assert_eq!(reserve_b, large_amount / 2);
    assert_eq!(liquidity, large_amount / 2); // sqrt(x*x) = x

    // Verify whale's remaining balance
    assert_eq!(
        get_user_balance_value(&contract, "whale", "USDC"),
        large_amount / 2
    );
    assert_eq!(
        get_user_balance_value(&contract, "whale", "ETH"),
        large_amount / 2
    );
}
