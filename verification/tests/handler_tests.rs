use voterium_backend::counting::user_id_hash_u128_from_bytes;
use voterium_backend::errors::AppError;
use voterium_backend::handlers::{submit_vote_core, verify_valid_choice};
use voterium_backend::models::{Choice, Vote};
use voterium_backend::utils::{
    decode_backend_salt, gen_random_b64_string, hash_user_id, validate_unique_choice_keys,
};

fn mk_choice(key: &str) -> Choice {
    Choice {
        key: key.to_string(),
        label: format!("Option {}", key),
        color: "#336699".to_string(),
    }
}

fn choices_012() -> Vec<Choice> {
    vec![mk_choice("0"), mk_choice("1"), mk_choice("2")]
}

const SALT_B64: &str = "QUJDREVGR0g";

#[test]
fn backend_salt_decodes_to_its_bytes() {
    let bytes = decode_backend_salt(SALT_B64).unwrap();
    assert_eq!(bytes, b"ABCDEFGH".to_vec());
}

#[test]
fn backend_salt_rejects_bad_base64() {
    assert!(decode_backend_salt("!!!not base64!!!").is_err());
}

#[test]
fn backend_salt_rejects_wrong_length() {
    // "QUJD" decodes to the three bytes "ABC".
    assert!(decode_backend_salt("QUJD").is_err());
}

#[test]
fn random_vote_ids_have_receipt_shape() {
    let a = gen_random_b64_string(12);
    let b = gen_random_b64_string(12);
    assert_eq!(a.len(), 16);
    assert_eq!(b.len(), 16);
    assert!(a.chars().all(|c| c.is_ascii_alphanumeric() || c == '-' || c == '_'));
    // Two fresh ids collide only with negligible probability.
    assert_ne!(a, b);
}

#[test]
fn user_hash_is_deterministic_and_short() {
    let h1 = hash_user_id("voter-1", SALT_B64, b"saltsalt").unwrap();
    let h2 = hash_user_id("voter-1", SALT_B64, b"saltsalt").unwrap();
    assert_eq!(h1, h2);
    assert_eq!(h1.len(), 16);
    assert!(h1.chars().all(|c| c.is_ascii_alphanumeric() || c == '-' || c == '_'));
}

#[test]
fn user_hash_depends_on_subject_and_salts() {
    let base = hash_user_id("voter-1", SALT_B64, b"saltsalt").unwrap();
    assert_ne!(hash_user_id("voter-2", SALT_B64, b"saltsalt").unwrap(), base);
    assert_ne!(hash_user_id("voter-1", "QUJDREVGR0k", b"saltsalt").unwrap(), base);
    assert_ne!(hash_user_id("voter-1", SALT_B64, b"SALTSALT").unwrap(), base);
}

#[test]
fn user_hash_rejects_bad_salt() {
    let r = hash_user_id("voter-1", "***", b"saltsalt");
    assert!(matches!(r, Err(AppError::BadRequest { .. })));
}

#[test]
fn choice_validation_accepts_configured_keys() {
    let choices = choices_012();
    assert!(verify_valid_choice(&Vote { choice: "1".to_string() }, &choices).is_ok());
}

#[test]
fn choice_validation_rejects_unknown_keys() {
    let choices = choices_012();
    let r = verify_valid_choice(&Vote { choice: "9".to_string() }, &choices);
    assert!(matches!(r, Err(AppError::BadRequest { .. })));
}

#[test]
fn config_validation_checks_uniqueness_and_shape() {
    assert!(validate_unique_choice_keys(&choices_012()));
    assert!(!validate_unique_choice_keys(&[mk_choice("ab"), mk_choice("ac")]));
    assert!(!validate_unique_choice_keys(&[mk_choice("")]));
    assert!(validate_unique_choice_keys(&[]));
}

#[test]
fn submit_vote_core_assembles_consistent_messages() {
    let choices = choices_012();
    let vote_id = gen_random_b64_string(12);
    let r = submit_vote_core(
        "voter-1",
        SALT_B64,
        b"saltsalt",
        &Vote { choice: "1".to_string() },
        &choices,
        1700000000005,
        vote_id.clone(),
    );
    let (ballot, msg, cwb) = r.unwrap();
    assert_eq!(ballot.vote_id, vote_id);
    assert_eq!(ballot.timestamp, 1700000000005);
    assert_eq!(ballot.choice, "1");
    assert_eq!(ballot.user_id_hash, hash_user_id("voter-1", SALT_B64, b"saltsalt").unwrap());
    assert_eq!(msg.cl_data, ballot.to_cl_line().into_bytes());
    assert_eq!(msg.vl_data, ballot.to_vl_line().into_bytes());
    assert_eq!(cwb.choice_key, b'1');
    assert_eq!(
        cwb.user_id_hash,
        user_id_hash_u128_from_bytes(ballot.user_id_hash.as_bytes())
    );
}

#[test]
fn submit_vote_core_rejects_unknown_choice() {
    let choices = choices_012();
    let r = submit_vote_core(
        "voter-1",
        SALT_B64,
        b"saltsalt",
        &Vote { choice: "9".to_string() },
        &choices,
        1700000000005,
        gen_random_b64_string(12),
    );
    assert!(matches!(r, Err(AppError::BadRequest { .. })));
}

#[test]
fn submit_vote_core_rejects_bad_salt() {
    let choices = choices_012();
    let r = submit_vote_core(
        "voter-1",
        "%%%",
        b"saltsalt",
        &Vote { choice: "1".to_string() },
        &choices,
        1700000000005,
        gen_random_b64_string(12),
    );
    assert!(matches!(r, Err(AppError::BadRequest { .. })));
}
