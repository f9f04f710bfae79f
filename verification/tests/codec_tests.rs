use voterium_backend::codec::{parse_cl_line, VLCLMessage};
use voterium_backend::counting::user_id_hash_u128_from_bytes;
use voterium_backend::models::Ballot;
use voterium_backend::numfmt::{fmt_i64, fmt_u64, parse_i64};

fn sample_ballot() -> Ballot {
    Ballot {
        vote_id: "QUJDREVGR0hJSktM".to_string(),
        user_id_hash: "aaaaaaaaaaaaaaaa".to_string(),
        timestamp: 1700000000001,
        choice: "0".to_string(),
    }
}

#[test]
fn cl_line_has_canonical_format() {
    let line = sample_ballot().to_cl_line();
    assert_eq!(line, "aaaaaaaaaaaaaaaa,1700000000001,0\n");
    assert_eq!(line.len(), 33);
}

#[test]
fn vl_line_has_canonical_format() {
    let line = sample_ballot().to_vl_line();
    assert_eq!(line, "QUJDREVGR0hJSktM,0\n");
}

#[test]
fn ledger_message_carries_both_lines() {
    let b = sample_ballot();
    let msg = VLCLMessage::from_ballot(&b);
    assert_eq!(msg.cl_data, b"aaaaaaaaaaaaaaaa,1700000000001,0\n".to_vec());
    assert_eq!(msg.vl_data, b"QUJDREVGR0hJSktM,0\n".to_vec());
    // Exactly one newline in each line, at the end.
    assert_eq!(msg.cl_data.iter().filter(|&&b| b == b'\n').count(), 1);
    assert_eq!(msg.vl_data.iter().filter(|&&b| b == b'\n').count(), 1);
}

#[test]
fn parse_formatted_line_round_trips() {
    let b = sample_ballot();
    let line = b.to_cl_line();
    let parsed = parse_cl_line(line.as_bytes()).unwrap();
    assert_eq!(parsed.user_id_hash, b.user_id_hash);
    assert_eq!(parsed.timestamp, b.timestamp);
    assert_eq!(parsed.choice, b.choice);
}

#[test]
fn parse_negative_timestamp_round_trips() {
    let b = Ballot { timestamp: -42, ..sample_ballot() };
    let parsed = parse_cl_line(b.to_cl_line().as_bytes()).unwrap();
    assert_eq!(parsed.timestamp, -42);
}

#[test]
fn parse_rejects_malformed_lines() {
    assert!(parse_cl_line(b"").is_none());
    assert!(parse_cl_line(b"\n").is_none());
    assert!(parse_cl_line(b"no commas here\n").is_none());
    assert!(parse_cl_line(b"a,b\n").is_none());
    assert!(parse_cl_line(b"a,b,c,d\n").is_none());
    assert!(parse_cl_line(b"hash,not_a_number,0\n").is_none());
}

#[test]
fn parse_trims_surrounding_whitespace() {
    let parsed = parse_cl_line(b"  aaaaaaaaaaaaaaaa,17,0 \r\n").unwrap();
    assert_eq!(parsed.user_id_hash, "aaaaaaaaaaaaaaaa");
    assert_eq!(parsed.timestamp, 17);
    assert_eq!(parsed.choice, "0");
}

#[test]
fn fmt_u64_writes_decimal() {
    assert_eq!(fmt_u64(0), b"0".to_vec());
    assert_eq!(fmt_u64(7), b"7".to_vec());
    assert_eq!(fmt_u64(1700000000001), b"1700000000001".to_vec());
    assert_eq!(fmt_u64(u64::MAX), b"18446744073709551615".to_vec());
}

#[test]
fn fmt_i64_writes_sign() {
    assert_eq!(fmt_i64(-1), b"-1".to_vec());
    assert_eq!(fmt_i64(0), b"0".to_vec());
    assert_eq!(fmt_i64(i64::MIN), b"-9223372036854775808".to_vec());
    assert_eq!(fmt_i64(i64::MAX), b"9223372036854775807".to_vec());
}

#[test]
fn parse_i64_accepts_what_std_accepts() {
    assert_eq!(parse_i64(b"0"), Some(0));
    assert_eq!(parse_i64(b"-0"), Some(0));
    assert_eq!(parse_i64(b"+17"), Some(17));
    assert_eq!(parse_i64(b"007"), Some(7));
    assert_eq!(parse_i64(b"-9223372036854775808"), Some(i64::MIN));
    assert_eq!(parse_i64(b"9223372036854775807"), Some(i64::MAX));
    assert_eq!(parse_i64(b"9223372036854775808"), None);
    assert_eq!(parse_i64(b"-9223372036854775809"), None);
    assert_eq!(parse_i64(b""), None);
    assert_eq!(parse_i64(b"+"), None);
    assert_eq!(parse_i64(b"-"), None);
    assert_eq!(parse_i64(b"12a"), None);
    assert_eq!(parse_i64(b" 12"), None);
    // Agreement with the standard parser on the same inputs.
    for s in ["0", "-0", "+17", "007", "12a", "", "99999999999999999999"] {
        assert_eq!(parse_i64(s.as_bytes()), s.parse::<i64>().ok());
    }
}

#[test]
fn user_hash_reads_little_endian() {
    assert_eq!(
        user_id_hash_u128_from_bytes(b"aaaaaaaaaaaaaaaa"),
        0x61616161616161616161616161616161u128
    );
    let mut bytes = [0u8; 16];
    bytes[0] = 1;
    assert_eq!(user_id_hash_u128_from_bytes(&bytes), 1);
    bytes[0] = 0;
    bytes[15] = 1;
    assert_eq!(user_id_hash_u128_from_bytes(&bytes), 1u128 << 120);
}
