use voterium_backend::counting::count_votes_35;
use voterium_backend::errors::AppError;
use voterium_backend::models::{Choice, VoteCount};
use voterium_backend::variants::{count_votes_01, count_votes_03};

fn mk_choice(key: &str) -> Choice {
    Choice {
        key: key.to_string(),
        label: format!("Option {}", key),
        color: "#336699".to_string(),
    }
}

fn choices_012() -> Vec<Choice> {
    vec![mk_choice("0"), mk_choice("1"), mk_choice("2")]
}

fn sorted(vote_counts: Vec<VoteCount>) -> Vec<(String, u32)> {
    let mut pairs: Vec<(String, u32)> = vote_counts
        .into_iter()
        .map(|vc| (vc.choice, vc.count))
        .collect();
    pairs.sort_by(|a, b| a.0.cmp(&b.0));
    pairs
}

fn nonzero_sorted(vote_counts: Vec<VoteCount>) -> Vec<(String, u32)> {
    sorted(
        vote_counts
            .into_iter()
            .filter(|vc| vc.count > 0)
            .collect(),
    )
}

#[test]
fn test_all_count_votes_functions_return_same_value() {
    // The surviving tally variants agree on the same ledger. The
    // line-parsing variants report only choices that received votes, so
    // the comparison drops zero entries.
    let data = b"aaaaaaaaaaaaaaaa,1700000000001,0\nbbbbbbbbbbbbbbbb,1700000000002,1\naaaaaaaaaaaaaaaa,1700000000003,2\ncccccccccccccccc,1700000000004,1\n";
    let choices = choices_012();

    let reference_counts = nonzero_sorted(count_votes_35(data, &choices).unwrap());
    assert_eq!(sorted(count_votes_01(data).unwrap()), reference_counts);
    assert_eq!(sorted(count_votes_03(data).unwrap()), reference_counts);
    assert_eq!(
        nonzero_sorted(count_votes_35(data, &choices).unwrap()),
        reference_counts
    );
}

#[test]
fn count_votes_01_latest_timestamp_wins() {
    let data = b"aaaaaaaaaaaaaaaa,1700000000002,1\naaaaaaaaaaaaaaaa,1700000000001,0\n";
    // The second line is older; the first one must win.
    let tally = count_votes_01(data).unwrap();
    assert_eq!(sorted(tally), vec![("1".to_string(), 1)]);
}

#[test]
fn count_votes_01_equal_timestamp_keeps_first() {
    let data = b"aaaaaaaaaaaaaaaa,1700000000001,0\naaaaaaaaaaaaaaaa,1700000000001,1\n";
    let tally = count_votes_01(data).unwrap();
    assert_eq!(sorted(tally), vec![("0".to_string(), 1)]);
}

#[test]
fn count_votes_01_bad_timestamp_is_error() {
    let data = b"aaaaaaaaaaaaaaaa,not_a_number,0\n";
    let r = count_votes_01(data);
    assert!(matches!(r, Err(AppError::InternalError { .. })));
}

#[test]
fn count_votes_01_skips_malformed_lines() {
    let data = b"too,few\nway,too,many,parts\naaaaaaaaaaaaaaaa,1700000000001,0\n\n";
    // "way,too,many,parts" splits into four parts and is skipped; the
    // four-part rule differs from the overwrite variant below.
    let tally = count_votes_01(data).unwrap();
    assert_eq!(sorted(tally), vec![("0".to_string(), 1)]);
}

#[test]
fn count_votes_03_append_order_wins() {
    let data = b"aaaaaaaaaaaaaaaa,1700000000002,1\naaaaaaaaaaaaaaaa,1700000000001,0\n";
    // No timestamp comparison here: the later line wins.
    let tally = count_votes_03(data).unwrap();
    assert_eq!(sorted(tally), vec![("0".to_string(), 1)]);
}

#[test]
fn count_votes_03_choice_is_rest_after_second_comma() {
    let data = b"aaaaaaaaaaaaaaaa,1700000000001,x,y\n";
    let tally = count_votes_03(data).unwrap();
    assert_eq!(sorted(tally), vec![("x,y".to_string(), 1)]);
}

#[test]
fn count_votes_03_skips_short_lines() {
    let data = b"only one comma,\n\naaaaaaaaaaaaaaaa,1700000000001,2\n";
    let tally = count_votes_03(data).unwrap();
    assert_eq!(sorted(tally), vec![("2".to_string(), 1)]);
}

#[test]
fn variants_alternating_voter_counts_once() {
    let mut data: Vec<u8> = Vec::new();
    for i in 0..5u8 {
        let choice = if i % 2 == 0 { b'0' } else { b'1' };
        let ts = 1700000000001u64 + i as u64;
        data.extend_from_slice(b"aaaaaaaaaaaaaaaa,");
        data.extend_from_slice(ts.to_string().as_bytes());
        data.push(b',');
        data.push(choice);
        data.push(b'\n');
    }
    assert_eq!(
        sorted(count_votes_01(&data).unwrap()),
        vec![("0".to_string(), 1)]
    );
    assert_eq!(
        sorted(count_votes_03(&data).unwrap()),
        vec![("0".to_string(), 1)]
    );
}
