use voterium_backend::counting::{
    count_votes_35, make_choices_lookup, user_id_hash_u128_from_bytes,
};
use voterium_backend::models::{Choice, CountWorkerBallot, VoteCount};
use voterium_backend::tally::{add_vote, bootstrap_counts};

fn mk_choice(key: &str) -> Choice {
    Choice {
        key: key.to_string(),
        label: format!("Option {}", key),
        color: "#336699".to_string(),
    }
}

fn choices_012() -> Vec<Choice> {
    vec![mk_choice("0"), mk_choice("1"), mk_choice("2")]
}

fn counts_of(vcs: &[VoteCount]) -> Vec<(String, u32)> {
    vcs.iter().map(|vc| (vc.choice.clone(), vc.count)).collect()
}

fn expect_tally(vcs: &[VoteCount], expected: &[(&str, u32)]) {
    let got = counts_of(vcs);
    let want: Vec<(String, u32)> = expected
        .iter()
        .map(|(k, c)| (k.to_string(), *c))
        .collect();
    assert_eq!(got, want);
}

#[test]
fn single_vote() {
    let data = b"aaaaaaaaaaaaaaaa,1700000000001,0\n";
    let tally = count_votes_35(data, &choices_012()).unwrap();
    expect_tally(&tally, &[("0", 1), ("1", 0), ("2", 0)]);
}

#[test]
fn revote_collapses() {
    let data = b"aaaaaaaaaaaaaaaa,1700000000001,0\naaaaaaaaaaaaaaaa,1700000000002,1\n";
    let tally = count_votes_35(data, &choices_012()).unwrap();
    expect_tally(&tally, &[("0", 0), ("1", 1), ("2", 0)]);
}

#[test]
fn three_distinct_voters_mixed_choices() {
    let data = b"aaaaaaaaaaaaaaaa,1700000000001,0\nbbbbbbbbbbbbbbbb,1700000000002,1\ncccccccccccccccc,1700000000003,0\n";
    let tally = count_votes_35(data, &choices_012()).unwrap();
    expect_tally(&tally, &[("0", 2), ("1", 1), ("2", 0)]);
}

#[test]
fn unknown_choice_tolerated() {
    let data = b"aaaaaaaaaaaaaaaa,1700000000001,9\n";
    let tally = count_votes_35(data, &choices_012()).unwrap();
    expect_tally(&tally, &[("0", 0), ("1", 0), ("2", 0)]);
}

#[test]
fn unknown_choice_blocks_older_vote() {
    // The voter's latest ballot names an unknown choice: the voter is seen,
    // so the older valid ballot must not be counted either.
    let data = b"aaaaaaaaaaaaaaaa,1700000000001,0\naaaaaaaaaaaaaaaa,1700000000002,9\n";
    let tally = count_votes_35(data, &choices_012()).unwrap();
    expect_tally(&tally, &[("0", 0), ("1", 0), ("2", 0)]);
}

#[test]
fn bootstrap_then_incremental_agree() {
    let data = b"aaaaaaaaaaaaaaaa,1700000000001,0\nbbbbbbbbbbbbbbbb,1700000000002,1\ncccccccccccccccc,1700000000003,0\n";
    let choices = choices_012();
    let (mut latest_votes, mut vote_counts) = bootstrap_counts(data, &choices);
    expect_tally(&vote_counts, &[("0", 2), ("1", 1), ("2", 0)]);

    let lookup = make_choices_lookup(&choices);
    let ballot = CountWorkerBallot {
        choice_key: b'2',
        user_id_hash: user_id_hash_u128_from_bytes(b"aaaaaaaaaaaaaaaa"),
    };
    add_vote(&ballot, &lookup, &mut vote_counts, &mut latest_votes);
    expect_tally(&vote_counts, &[("0", 1), ("1", 1), ("2", 1)]);

    // The incremental state agrees with a fresh bootstrap of the extended
    // ledger.
    let mut extended = data.to_vec();
    extended.extend_from_slice(b"aaaaaaaaaaaaaaaa,1700000000004,2\n");
    let rebuilt = count_votes_35(&extended, &choices).unwrap();
    assert_eq!(counts_of(&rebuilt), counts_of(&vote_counts));
}

#[test]
fn malformed_line_skipped() {
    let mut data: Vec<u8> = Vec::new();
    data.extend_from_slice(b"aaaaaaaaaaaaaa\n"); // 15-byte truncated line
    data.extend_from_slice(b"aaaaaaaaaaaaaaaa,1700000000001,0\n");
    let tally = count_votes_35(&data, &choices_012()).unwrap();
    expect_tally(&tally, &[("0", 1), ("1", 0), ("2", 0)]);
}

#[test]
fn empty_buffer_zero_tally() {
    let tally = count_votes_35(b"", &choices_012()).unwrap();
    expect_tally(&tally, &[("0", 0), ("1", 0), ("2", 0)]);
}

#[test]
fn malformed_only_zero_tally() {
    let data = b"not a record at all, not even close!!!!!!!!!\ngarbage\n";
    let tally = count_votes_35(data, &choices_012()).unwrap();
    expect_tally(&tally, &[("0", 0), ("1", 0), ("2", 0)]);
}

#[test]
fn alternating_voter_counts_once() {
    // One voter alternating between two choices: only the last ballot
    // counts, and it counts exactly once.
    let mut data: Vec<u8> = Vec::new();
    for i in 0..6u8 {
        let choice = if i % 2 == 0 { b'0' } else { b'1' };
        let ts = 1700000000001u64 + i as u64;
        data.extend_from_slice(b"aaaaaaaaaaaaaaaa,");
        data.extend_from_slice(ts.to_string().as_bytes());
        data.push(b',');
        data.push(choice);
        data.push(b'\n');
    }
    let tally = count_votes_35(&data, &choices_012()).unwrap();
    expect_tally(&tally, &[("0", 0), ("1", 1), ("2", 0)]);
}

#[test]
fn sum_equals_distinct_counted_voters() {
    let data = b"aaaaaaaaaaaaaaaa,1700000000001,0\nbbbbbbbbbbbbbbbb,1700000000002,9\naaaaaaaaaaaaaaaa,1700000000003,1\ncccccccccccccccc,1700000000004,2\n";
    let tally = count_votes_35(data, &choices_012()).unwrap();
    // Three distinct voters, one of whom last chose an unknown key.
    let sum: u32 = tally.iter().map(|vc| vc.count).sum();
    assert_eq!(sum, 2);
}
