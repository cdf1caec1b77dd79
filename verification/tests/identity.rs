//! Behavioural tests of the identity-verification ledger: country-code
//! decisions, proof validation, status queries, re-verification, and the
//! proof digest.

use amm_ledger::identity::{IdentityContract, IdentityError};

fn create_test_contract() -> IdentityContract {
    IdentityContract::new()
}

fn create_test_proof_data() -> Vec<u8> {
    // Simulate valid proof data (32+ bytes)
    (0..64).collect::<Vec<u8>>()
}

#[test]
fn test_verify_identity_non_us_citizen() {
    let mut contract = create_test_contract();
    let proof_data = create_test_proof_data();

    // Test non-US citizen should be allowed
    let result = contract.verify_identity(
        "alice".to_string(),
        "CAN".to_string(), // Canada
        proof_data.clone(),
    );
    assert!(result.is_ok());

    let record = result.unwrap();
    assert!(record.is_allowed);
    assert_eq!(record.user, "alice");
    assert_eq!(record.country_code, "CAN");

    // Check user was added to allowed list
    assert!(contract.is_user_allowed("alice".to_string()));

    // Check verification was stored
    let stored = contract.get_verification_status("alice".to_string());
    assert!(stored.is_some());
    let verification = stored.unwrap();
    assert_eq!(verification.user, "alice");
    assert_eq!(verification.country_code, "CAN");
    assert!(verification.is_allowed);
}

#[test]
fn test_verify_identity_us_citizen_blocked() {
    let mut contract = create_test_contract();
    let proof_data = create_test_proof_data();

    // Test US citizen should be blocked
    let result = contract.verify_identity("bob".to_string(), "USA".to_string(), proof_data.clone());
    assert!(result.is_ok());

    let record = result.unwrap();
    assert!(!record.is_allowed);
    assert_eq!(record.user, "bob");
    assert_eq!(record.country_code, "USA");

    // Check user was NOT added to allowed list
    assert!(!contract.is_user_allowed("bob".to_string()));

    // Check verification was stored with is_allowed = false
    let stored = contract.get_verification_status("bob".to_string());
    assert!(stored.is_some());
    let verification = stored.unwrap();
    assert_eq!(verification.user, "bob");
    assert_eq!(verification.country_code, "USA");
    assert!(!verification.is_allowed);
}

#[test]
fn test_verify_identity_us_variants() {
    let mut contract = create_test_contract();
    let proof_data = create_test_proof_data();

    // Test different US country code variants
    let us_codes = ["USA", "US", "840"]; // ISO codes for US

    for (i, code) in us_codes.iter().enumerate() {
        let user = format!("user{}", i);
        let result = contract.verify_identity(user.clone(), code.to_string(), proof_data.clone());
        assert!(result.is_ok());

        let record = result.unwrap();
        assert!(!record.is_allowed);
        assert!(!contract.is_user_allowed(user));
    }
}

#[test]
fn test_verify_identity_invalid_proof() {
    let mut contract = create_test_contract();

    // Test with proof data that's too short
    let short_proof = vec![1, 2, 3]; // Only 3 bytes, needs 32+

    let result = contract.verify_identity("alice".to_string(), "CAN".to_string(), short_proof);
    assert!(result.is_err());
    assert_eq!(result.unwrap_err(), IdentityError::ProofTooShort);

    // Check no verification was stored
    assert!(contract
        .get_verification_status("alice".to_string())
        .is_none());
    assert!(!contract.is_user_allowed("alice".to_string()));
}

#[test]
fn test_get_verification_status() {
    let mut contract = create_test_contract();
    let proof_data = create_test_proof_data();

    // Test getting status for non-verified user
    let result = contract.get_verification_status("alice".to_string());
    assert!(result.is_none());

    // Verify a user first
    contract
        .verify_identity("alice".to_string(), "CAN".to_string(), proof_data)
        .unwrap();

    // Test getting status for verified user
    let result = contract.get_verification_status("alice".to_string());
    assert!(result.is_some());
    let verification = result.unwrap();
    assert_eq!(verification.user, "alice");
    assert_eq!(verification.country_code, "CAN");
    assert!(verification.is_allowed);
    assert!(verification.proof_hash.starts_with("proof_"));
}

#[test]
fn test_is_user_allowed() {
    let mut contract = create_test_contract();
    let proof_data = create_test_proof_data();

    // Test user not yet verified
    assert!(!contract.is_user_allowed("alice".to_string()));

    // Verify non-US user
    contract
        .verify_identity("alice".to_string(), "CAN".to_string(), proof_data.clone())
        .unwrap();

    assert!(contract.is_user_allowed("alice".to_string()));

    // Verify US user
    contract
        .verify_identity("bob".to_string(), "USA".to_string(), proof_data.clone())
        .unwrap();

    assert!(!contract.is_user_allowed("bob".to_string()));
}

#[test]
fn test_multiple_verifications_same_user() {
    let mut contract = create_test_contract();
    let proof_data = create_test_proof_data();

    // First verification: allowed
    contract
        .verify_identity("alice".to_string(), "CAN".to_string(), proof_data.clone())
        .unwrap();
    assert!(contract.is_user_allowed("alice".to_string()));

    // Second verification: blocked (user moved to US)
    contract
        .verify_identity("alice".to_string(), "USA".to_string(), proof_data)
        .unwrap();
    assert!(!contract.is_user_allowed("alice".to_string()));

    // Check latest verification status
    let result = contract.get_verification_status("alice".to_string());
    let verification = result.unwrap();
    assert_eq!(verification.country_code, "USA");
    assert!(!verification.is_allowed);
}

#[test]
fn test_proof_hash_generation() {
    let contract = create_test_contract();
    let proof_data1 = vec![1, 2, 3, 4]; // Different data
    let proof_data2 = vec![5, 6, 7, 8]; // Should generate different hash

    let hash1 = contract.hash_proof(&proof_data1);
    let hash2 = contract.hash_proof(&proof_data2);

    // Hashes should be different for different data
    assert_ne!(hash1, hash2);

    // Hash should be deterministic
    let hash1_again = contract.hash_proof(&proof_data1);
    assert_eq!(hash1, hash1_again);

    // Hash should have expected format
    assert!(hash1.starts_with("proof_"));
}

#[test]
fn test_timestamp_generation() {
    let mut contract = create_test_contract();

    let timestamp1 = contract.get_current_timestamp();

    // Add a verification to increment internal counter
    let proof_data = create_test_proof_data();
    contract
        .verify_identity("alice".to_string(), "CAN".to_string(), proof_data)
        .unwrap();

    let timestamp2 = contract.get_current_timestamp();

    // Timestamp should increment
    assert!(timestamp2 > timestamp1);
}

#[test]
fn test_edge_case_empty_user() {
    let mut contract = create_test_contract();
    let proof_data = create_test_proof_data();

    // Test with empty user string
    let result = contract.verify_identity("".to_string(), "CAN".to_string(), proof_data);
    assert!(result.is_ok()); // Should still work, just with empty user

    // Check verification was stored with empty key
    assert!(contract.get_verification_status("".to_string()).is_some());
}

#[test]
fn test_case_sensitivity_country_codes() {
    let mut contract = create_test_contract();
    let proof_data = create_test_proof_data();

    // Test that lowercase "usa" is NOT blocked (only exact matches)
    let result = contract.verify_identity(
        "alice".to_string(),
        "usa".to_string(), // lowercase
        proof_data,
    );
    assert!(result.is_ok());
    let record = result.unwrap();
    assert!(record.is_allowed); // Should be allowed since it's not exact "USA"
}
