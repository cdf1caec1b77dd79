//! Scenario tests for the engine's stated properties: exact bootstrap
//! values, the fee formula, query idempotence, failure atomicity, the
//! action entry points, and the digit and hashing helpers.

use amm_ledger::amm::{AmmAction, AmmContract, AmmError, AmmOutput, AmmSnapshot, LiquidityPool};
use amm_ledger::identity::{IdentityAction, IdentityContract, IdentityOutput};
use amm_ledger::math::integer_sqrt;
use amm_ledger::digits::u64_to_decimal;
use amm_ledger::noir::{evaluate_auth_request, AuthDecision, NoirAuthRequest, NoirProof, NoirProver};

fn funded_pool(fee_bps: u64) -> AmmContract {
    let mut c = AmmContract::new(fee_bps);
    c.mint_tokens("alice".to_string(), "USDC".to_string(), 1000)
        .unwrap();
    c.mint_tokens("alice".to_string(), "ETH".to_string(), 1000)
        .unwrap();
    c.add_liquidity(
        "alice".to_string(),
        "USDC".to_string(),
        "ETH".to_string(),
        1000,
        1000,
    )
    .unwrap();
    c
}

#[test]
fn bootstrap_deposit_exact_values() {
    // Mint 1000 USDC and 1000 ETH for alice; the first deposit must create
    // a pool with reserves 1000/1000 and total liquidity 1000 (the integer
    // square root of 1,000,000), and drain both balances to zero.
    let mut c = AmmContract::new(0);
    c.mint_tokens("alice".to_string(), "USDC".to_string(), 1000)
        .unwrap();
    c.mint_tokens("alice".to_string(), "ETH".to_string(), 1000)
        .unwrap();
    let minted = c
        .add_liquidity(
            "alice".to_string(),
            "USDC".to_string(),
            "ETH".to_string(),
            1000,
            1000,
        )
        .unwrap();
    assert_eq!(minted, 1000);
    let (ra, rb, total) = c
        .get_reserves("USDC".to_string(), "ETH".to_string())
        .unwrap();
    assert_eq!(ra, 1000);
    assert_eq!(rb, 1000);
    assert_eq!(total, 1000);
    assert_eq!(c.get_user_balance("alice".to_string(), "USDC".to_string()), 0);
    assert_eq!(c.get_user_balance("alice".to_string(), "ETH".to_string()), 0);
    assert_eq!(
        c.get_lp_balance("alice".to_string(), "USDC".to_string(), "ETH".to_string()),
        1000
    );
}

#[test]
fn swap_with_fee_exact_output() {
    // With the 1000/1000 pool and a 0.3% fee, swapping 100 USDC must pay
    // out floor(1000 * 99700 / (1000*1000 + 99700)) = 90 ETH and leave the
    // swapper's USDC balance at zero.
    let mut c = funded_pool(30);
    c.mint_tokens("bob".to_string(), "USDC".to_string(), 100)
        .unwrap();
    let out = c
        .swap_exact_tokens_for_tokens(
            "bob".to_string(),
            "USDC".to_string(),
            "ETH".to_string(),
            100,
            0,
        )
        .unwrap();
    assert_eq!(out, 1000 * 99700 / (1000 * 1000 + 99700));
    assert_eq!(out, 90);
    assert_eq!(c.get_user_balance("bob".to_string(), "USDC".to_string()), 0);
    assert_eq!(c.get_user_balance("bob".to_string(), "ETH".to_string()), 90);
}

#[test]
fn swap_no_fee_exact_output() {
    // Into a 1000 USDC : 500 ETH pool, 100 USDC buys floor(100*500/1100) = 45 ETH.
    let mut c = AmmContract::new(0);
    c.mint_tokens("alice".to_string(), "USDC".to_string(), 1000)
        .unwrap();
    c.mint_tokens("alice".to_string(), "ETH".to_string(), 500)
        .unwrap();
    c.add_liquidity(
        "alice".to_string(),
        "USDC".to_string(),
        "ETH".to_string(),
        1000,
        500,
    )
    .unwrap();
    c.mint_tokens("bob".to_string(), "USDC".to_string(), 100)
        .unwrap();
    let out = c
        .swap_exact_tokens_for_tokens(
            "bob".to_string(),
            "USDC".to_string(),
            "ETH".to_string(),
            100,
            0,
        )
        .unwrap();
    assert_eq!(out, 45);
}

#[test]
fn swap_missing_pool_leaves_balance_unchanged() {
    // A swap into a pair with no pool must fail PoolNotFound and leave the
    // caller's balance untouched.
    let mut c = AmmContract::new(0);
    c.mint_tokens("bob".to_string(), "USDC".to_string(), 100)
        .unwrap();
    let r = c.swap_exact_tokens_for_tokens(
        "bob".to_string(),
        "USDC".to_string(),
        "ETH".to_string(),
        50,
        0,
    );
    assert_eq!(r.unwrap_err(), AmmError::PoolNotFound);
    assert_eq!(c.get_user_balance("bob".to_string(), "USDC".to_string()), 100);
}

#[test]
fn remove_more_than_held_is_rejected_without_mutation() {
    // Requesting more liquidity shares than held must fail
    // InsufficientLiquidity with zero state mutation.
    let mut c = funded_pool(0);
    let held = c.get_lp_balance("alice".to_string(), "USDC".to_string(), "ETH".to_string());
    let before = c
        .get_reserves("USDC".to_string(), "ETH".to_string())
        .unwrap();
    let r = c.remove_liquidity(
        "alice".to_string(),
        "USDC".to_string(),
        "ETH".to_string(),
        held + 1,
    );
    assert_eq!(r.unwrap_err(), AmmError::InsufficientLiquidity);
    let after = c
        .get_reserves("USDC".to_string(), "ETH".to_string())
        .unwrap();
    assert_eq!(before, after);
    assert_eq!(
        c.get_lp_balance("alice".to_string(), "USDC".to_string(), "ETH".to_string()),
        held
    );
}

#[test]
fn remove_liquidity_proportional_payout() {
    let mut c = funded_pool(0);
    let (out_a, out_b) = c
        .remove_liquidity(
            "alice".to_string(),
            "USDC".to_string(),
            "ETH".to_string(),
            400,
        )
        .unwrap();
    // 400 of 1000 shares of a 1000/1000 pool pay out 400 of each token.
    assert_eq!(out_a, 400);
    assert_eq!(out_b, 400);
    let (ra, rb, total) = c
        .get_reserves("USDC".to_string(), "ETH".to_string())
        .unwrap();
    assert_eq!((ra, rb, total), (600, 600, 600));
    assert_eq!(c.get_user_balance("alice".to_string(), "USDC".to_string()), 400);
    assert_eq!(c.get_user_balance("alice".to_string(), "ETH".to_string()), 400);
}

#[test]
fn remove_all_liquidity_drains_pool() {
    let mut c = funded_pool(0);
    let (out_a, out_b) = c
        .remove_liquidity(
            "alice".to_string(),
            "USDC".to_string(),
            "ETH".to_string(),
            1000,
        )
        .unwrap();
    assert_eq!((out_a, out_b), (1000, 1000));
    let (ra, rb, total) = c
        .get_reserves("USDC".to_string(), "ETH".to_string())
        .unwrap();
    assert_eq!((ra, rb, total), (0, 0, 0));
}

#[test]
fn queries_are_idempotent() {
    // Pure reads give identical results however often they are repeated.
    let c = funded_pool(0);
    let first = c.get_reserves("USDC".to_string(), "ETH".to_string());
    let second = c.get_reserves("USDC".to_string(), "ETH".to_string());
    let third = c.get_reserves("USDC".to_string(), "ETH".to_string());
    assert_eq!(first, second);
    assert_eq!(second, third);
    let b1 = c.get_user_balance("alice".to_string(), "USDC".to_string());
    let b2 = c.get_user_balance("alice".to_string(), "USDC".to_string());
    assert_eq!(b1, b2);
}

#[test]
fn mismatched_ratio_is_rejected_atomically() {
    let mut c = funded_pool(0);
    c.mint_tokens("bob".to_string(), "USDC".to_string(), 100)
        .unwrap();
    c.mint_tokens("bob".to_string(), "ETH".to_string(), 99)
        .unwrap();
    let r = c.add_liquidity(
        "bob".to_string(),
        "USDC".to_string(),
        "ETH".to_string(),
        100,
        99,
    );
    assert_eq!(r.unwrap_err(), AmmError::InvalidRatio);
    // Nothing moved.
    assert_eq!(c.get_user_balance("bob".to_string(), "USDC".to_string()), 100);
    assert_eq!(c.get_user_balance("bob".to_string(), "ETH".to_string()), 99);
    let (ra, rb, total) = c
        .get_reserves("USDC".to_string(), "ETH".to_string())
        .unwrap();
    assert_eq!((ra, rb, total), (1000, 1000, 1000));
}

#[test]
fn same_token_pair_is_rejected() {
    let mut c = AmmContract::new(0);
    c.mint_tokens("alice".to_string(), "USDC".to_string(), 100)
        .unwrap();
    let r = c.add_liquidity(
        "alice".to_string(),
        "USDC".to_string(),
        "USDC".to_string(),
        50,
        50,
    );
    assert_eq!(r.unwrap_err(), AmmError::InvalidRatio);
}

#[test]
fn bootstrap_with_zero_side_is_rejected() {
    // A founding deposit must fund both sides of the pool.
    let mut c = AmmContract::new(0);
    c.mint_tokens("alice".to_string(), "USDC".to_string(), 100)
        .unwrap();
    c.mint_tokens("alice".to_string(), "ETH".to_string(), 100)
        .unwrap();
    let r = c.add_liquidity(
        "alice".to_string(),
        "USDC".to_string(),
        "ETH".to_string(),
        100,
        0,
    );
    assert_eq!(r.unwrap_err(), AmmError::InvalidRatio);
    assert!(c
        .get_reserves("USDC".to_string(), "ETH".to_string())
        .is_err());
}

#[test]
fn swap_on_drained_pool_reports_insufficient_liquidity() {
    let mut c = funded_pool(0);
    c.remove_liquidity(
        "alice".to_string(),
        "USDC".to_string(),
        "ETH".to_string(),
        1000,
    )
    .unwrap();
    c.mint_tokens("bob".to_string(), "USDC".to_string(), 10)
        .unwrap();
    let r = c.swap_exact_tokens_for_tokens(
        "bob".to_string(),
        "USDC".to_string(),
        "ETH".to_string(),
        10,
        0,
    );
    assert_eq!(r.unwrap_err(), AmmError::InsufficientLiquidity);
}

#[test]
fn geometric_mean_bootstrap_values() {
    // sqrt(2000 * 100) = floor(sqrt(200000)) = 447.
    let mut c = AmmContract::new(0);
    c.mint_tokens("alice".to_string(), "USDC".to_string(), 2000)
        .unwrap();
    c.mint_tokens("alice".to_string(), "BTC".to_string(), 100)
        .unwrap();
    let minted = c
        .add_liquidity(
            "alice".to_string(),
            "USDC".to_string(),
            "BTC".to_string(),
            2000,
            100,
        )
        .unwrap();
    assert_eq!(minted, 447);
}

#[test]
fn integer_sqrt_exact_values() {
    assert_eq!(integer_sqrt(0), 0);
    assert_eq!(integer_sqrt(1), 1);
    assert_eq!(integer_sqrt(2), 1);
    assert_eq!(integer_sqrt(3), 1);
    assert_eq!(integer_sqrt(4), 2);
    assert_eq!(integer_sqrt(15), 3);
    assert_eq!(integer_sqrt(16), 4);
    assert_eq!(integer_sqrt(1_000_000), 1000);
    assert_eq!(integer_sqrt(200_000), 447);
    assert_eq!(integer_sqrt(u128::MAX), (1u128 << 64) - 1);
}

#[test]
fn execute_dispatches_amm_actions() {
    let mut c = AmmContract::new(0);
    let minted = c.execute(AmmAction::MintTokens {
        user: "alice".to_string(),
        token: "USDC".to_string(),
        amount: 700,
    });
    assert_eq!(minted.unwrap(), AmmOutput::Minted(700));
    let bal = c.execute(AmmAction::GetUserBalance {
        user: "alice".to_string(),
        token: "USDC".to_string(),
    });
    assert_eq!(bal.unwrap(), AmmOutput::Balance(700));
    let missing = c.execute(AmmAction::GetReserves {
        token_a: "USDC".to_string(),
        token_b: "ETH".to_string(),
    });
    assert_eq!(missing.unwrap_err(), AmmError::PoolNotFound);
    c.execute(AmmAction::MintTokens {
        user: "alice".to_string(),
        token: "ETH".to_string(),
        amount: 300,
    })
    .unwrap();
    let added = c.execute(AmmAction::AddLiquidity {
        user: "alice".to_string(),
        token_a: "USDC".to_string(),
        token_b: "ETH".to_string(),
        amount_a: 300,
        amount_b: 300,
    });
    assert_eq!(added.unwrap(), AmmOutput::LiquidityAdded(300));
    let swapped = c.execute(AmmAction::SwapExactTokensForTokens {
        user: "alice".to_string(),
        token_in: "USDC".to_string(),
        token_out: "ETH".to_string(),
        amount_in: 100,
        min_amount_out: 0,
    });
    assert_eq!(swapped.unwrap(), AmmOutput::Swapped(100 * 300 / 400));
    let removed = c.execute(AmmAction::RemoveLiquidity {
        user: "alice".to_string(),
        token_a: "USDC".to_string(),
        token_b: "ETH".to_string(),
        liquidity_amount: 300,
    });
    match removed.unwrap() {
        AmmOutput::LiquidityRemoved(a, b) => {
            assert_eq!(a, 400);
            assert_eq!(b, 225);
        }
        other => panic!("unexpected output: {:?}", other),
    }
}

#[test]
fn identity_execute_dispatches_actions() {
    let mut c = IdentityContract::new();
    let verified = c.execute(IdentityAction::VerifyIdentity {
        user: "alice".to_string(),
        country_code: "CAN".to_string(),
        proof_data: (0..40).collect(),
    });
    match verified.unwrap() {
        IdentityOutput::Verified(v) => assert!(v.is_allowed),
        other => panic!("unexpected output: {:?}", other),
    }
    let allowed = c.execute(IdentityAction::IsUserAllowed {
        user: "alice".to_string(),
    });
    match allowed.unwrap() {
        IdentityOutput::Allowed(b) => assert!(b),
        other => panic!("unexpected output: {:?}", other),
    }
    let status = c.execute(IdentityAction::GetVerificationStatus {
        user: "alice".to_string(),
    });
    match status.unwrap() {
        IdentityOutput::Status(Some(v)) => assert_eq!(v.country_code, "CAN"),
        other => panic!("unexpected output: {:?}", other),
    }
}

#[test]
fn proof_hash_exact_rendering() {
    // The digest is "proof_" plus the byte sum as eight hex digits.
    let c = IdentityContract::new();
    assert_eq!(c.hash_proof(&[1, 2, 3, 4]), "proof_0000000a");
    assert_eq!(c.hash_proof(&[255, 255]), "proof_000001fe");
    assert_eq!(c.hash_proof(&[]), "proof_00000000");
}

#[test]
fn decimal_rendering_exact_values() {
    assert_eq!(u64_to_decimal(0), "0");
    assert_eq!(u64_to_decimal(7), "7");
    assert_eq!(u64_to_decimal(10), "10");
    assert_eq!(u64_to_decimal(1234567890), "1234567890");
    assert_eq!(u64_to_decimal(u64::MAX), "18446744073709551615");
}

#[test]
fn noir_proof_structure_bounds() {
    let valid = NoirProof {
        proof_data: vec![0u8; 32],
        public_inputs: vec!["1".to_string()],
        verification_key: vec![1],
    };
    assert!(valid.validate_structure());

    let short = NoirProof {
        proof_data: vec![0u8; 31],
        public_inputs: vec!["1".to_string()],
        verification_key: vec![1],
    };
    assert!(!short.validate_structure());

    let oversized = NoirProof {
        proof_data: vec![0u8; 1048577],
        public_inputs: vec!["1".to_string()],
        verification_key: vec![1],
    };
    assert!(!oversized.validate_structure());

    let no_key = NoirProof {
        proof_data: vec![0u8; 32],
        public_inputs: vec!["1".to_string()],
        verification_key: vec![],
    };
    assert!(!no_key.validate_structure());

    let no_inputs = NoirProof {
        proof_data: vec![0u8; 32],
        public_inputs: vec![],
        verification_key: vec![1],
    };
    assert!(!no_inputs.validate_structure());
}

#[test]
fn hash_to_field_matches_reference_fold() {
    // The witness hash folds bytes as h = h * 31 + byte over 64 bits.
    let prover = NoirProver::new("circuit.json".to_string());
    let mut expected: u64 = 0;
    for &b in "bob".as_bytes() {
        expected = expected.wrapping_mul(31).wrapping_add(b as u64);
    }
    assert_eq!(prover.hash_to_field("bob", 0), expected.to_string());

    let mut expected_pw: u64 = 1;
    for &b in "secret".as_bytes() {
        expected_pw = expected_pw.wrapping_mul(31).wrapping_add(b as u64);
    }
    let inputs = prover.extract_public_inputs("bob", "secret");
    assert_eq!(inputs.len(), 2);
    assert_eq!(inputs[0], expected_pw.to_string());
    assert_eq!(inputs[1], expected.to_string());
}

#[test]
fn auth_request_decisions() {
    let accept = NoirAuthRequest {
        username: "bob".to_string(),
        user_field: "12345".to_string(),
        password_field: "54321".to_string(),
        proof_type: "noir_circuit".to_string(),
    };
    assert_eq!(evaluate_auth_request(&accept), AuthDecision::Accepted);

    let wrong_type = NoirAuthRequest {
        proof_type: "groth16".to_string(),
        ..accept_clone(&accept)
    };
    assert_eq!(
        evaluate_auth_request(&wrong_type),
        AuthDecision::InvalidProofType
    );

    let wrong_user = NoirAuthRequest {
        username: "mallory".to_string(),
        ..accept_clone(&accept)
    };
    assert_eq!(
        evaluate_auth_request(&wrong_user),
        AuthDecision::InvalidCredentials
    );

    let zero_field = NoirAuthRequest {
        user_field: "0".to_string(),
        ..accept_clone(&accept)
    };
    assert_eq!(
        evaluate_auth_request(&zero_field),
        AuthDecision::InvalidCredentials
    );

    let zero_password = NoirAuthRequest {
        password_field: "0".to_string(),
        ..accept_clone(&accept)
    };
    assert_eq!(
        evaluate_auth_request(&zero_password),
        AuthDecision::InvalidCredentials
    );
}

#[test]
fn shares_always_account_for_pool_liquidity() {
    // The share holdings of a pool always sum to its total liquidity.
    let mut c = funded_pool(0);
    c.mint_tokens("bob".to_string(), "USDC".to_string(), 500)
        .unwrap();
    c.mint_tokens("bob".to_string(), "ETH".to_string(), 500)
        .unwrap();
    c.add_liquidity(
        "bob".to_string(),
        "USDC".to_string(),
        "ETH".to_string(),
        500,
        500,
    )
    .unwrap();
    let alice = c.get_lp_balance("alice".to_string(), "USDC".to_string(), "ETH".to_string());
    let bob = c.get_lp_balance("bob".to_string(), "USDC".to_string(), "ETH".to_string());
    let (_, _, total) = c
        .get_reserves("USDC".to_string(), "ETH".to_string())
        .unwrap();
    assert_eq!(alice + bob, total);

    c.remove_liquidity(
        "alice".to_string(),
        "USDC".to_string(),
        "ETH".to_string(),
        300,
    )
    .unwrap();
    let alice = c.get_lp_balance("alice".to_string(), "USDC".to_string(), "ETH".to_string());
    let bob = c.get_lp_balance("bob".to_string(), "USDC".to_string(), "ETH".to_string());
    let (_, _, total) = c
        .get_reserves("USDC".to_string(), "ETH".to_string())
        .unwrap();
    assert_eq!(alice + bob, total);
}

#[test]
fn snapshot_round_trip_restores_state() {
    let mut c = funded_pool(30);
    c.mint_tokens("bob".to_string(), "USDC".to_string(), 100)
        .unwrap();
    c.swap_exact_tokens_for_tokens(
        "bob".to_string(),
        "USDC".to_string(),
        "ETH".to_string(),
        60,
        0,
    )
    .unwrap();

    let snapshot = c.export_state();
    let restored = AmmContract::restore(&snapshot).expect("an exported snapshot restores");

    assert_eq!(restored.fee_bps(), c.fee_bps());
    assert_eq!(
        restored.get_reserves("USDC".to_string(), "ETH".to_string()),
        c.get_reserves("USDC".to_string(), "ETH".to_string())
    );
    for user in ["alice", "bob"] {
        for token in ["USDC", "ETH"] {
            assert_eq!(
                restored.get_user_balance(user.to_string(), token.to_string()),
                c.get_user_balance(user.to_string(), token.to_string())
            );
        }
        assert_eq!(
            restored.get_lp_balance(user.to_string(), "USDC".to_string(), "ETH".to_string()),
            c.get_lp_balance(user.to_string(), "USDC".to_string(), "ETH".to_string())
        );
    }
}

#[test]
fn restore_rejects_invalid_snapshots() {
    // Fee beyond 100% is refused.
    let bad_fee = AmmSnapshot {
        fee_bps: 10001,
        balances: vec![],
        lp_balances: vec![],
        pools: vec![],
    };
    assert!(AmmContract::restore(&bad_fee).is_none());

    // A pool with its pair out of canonical order is refused.
    let bad_order = AmmSnapshot {
        fee_bps: 0,
        balances: vec![],
        lp_balances: vec![],
        pools: vec![LiquidityPool {
            token_a: "USDC".to_string(),
            token_b: "ETH".to_string(),
            reserve_a: 1,
            reserve_b: 1,
            total_liquidity: 1,
        }],
    };
    assert!(AmmContract::restore(&bad_order).is_none());

    // A pool with shares outstanding but an empty reserve is refused.
    let bad_health = AmmSnapshot {
        fee_bps: 0,
        balances: vec![],
        lp_balances: vec![],
        pools: vec![LiquidityPool {
            token_a: "ETH".to_string(),
            token_b: "USDC".to_string(),
            reserve_a: 0,
            reserve_b: 5,
            total_liquidity: 3,
        }],
    };
    assert!(AmmContract::restore(&bad_health).is_none());

    // A well-formed snapshot is accepted.
    let good = AmmSnapshot {
        fee_bps: 30,
        balances: vec![("alice".to_string(), "USDC".to_string(), 7)],
        lp_balances: vec![(
            "alice".to_string(),
            "ETH".to_string(),
            "USDC".to_string(),
            2,
        )],
        pools: vec![LiquidityPool {
            token_a: "ETH".to_string(),
            token_b: "USDC".to_string(),
            reserve_a: 4,
            reserve_b: 4,
            total_liquidity: 2,
        }],
    };
    let c = AmmContract::restore(&good).unwrap();
    assert_eq!(c.get_user_balance("alice".to_string(), "USDC".to_string()), 7);
    assert_eq!(
        c.get_reserves("ETH".to_string(), "USDC".to_string()).unwrap(),
        (4, 4, 2)
    );
    assert_eq!(
        c.get_lp_balance("alice".to_string(), "USDC".to_string(), "ETH".to_string()),
        2
    );
}

fn accept_clone(r: &NoirAuthRequest) -> NoirAuthRequest {
    NoirAuthRequest {
        username: r.username.clone(),
        user_field: r.user_field.clone(),
        password_field: r.password_field.clone(),
        proof_type: r.proof_type.clone(),
    }
}
