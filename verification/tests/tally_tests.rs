use voterium_backend::counting::{
    indexed_counts_to_vote_counts, make_choices_lookup, make_latest_votes_hashmap,
};
use voterium_backend::models::{Choice, CountWorkerBallot, VoteCount};
use voterium_backend::tally::{add_vote, bootstrap_counts, clone_vote_counts, counts_from_latest_votes};

fn mk_choice(key: &str) -> Choice {
    Choice {
        key: key.to_string(),
        label: format!("Option {}", key),
        color: "#336699".to_string(),
    }
}

fn choices_012() -> Vec<Choice> {
    vec![mk_choice("0"), mk_choice("1"), mk_choice("2")]
}

fn counts_of(vcs: &[VoteCount]) -> Vec<u32> {
    vcs.iter().map(|vc| vc.count).collect()
}

#[test]
fn fresh_vote_increments_its_choice() {
    let choices = choices_012();
    let lookup = make_choices_lookup(&choices);
    let (mut index, mut counts) = bootstrap_counts(b"", &choices);
    assert_eq!(counts_of(&counts), vec![0, 0, 0]);

    add_vote(
        &CountWorkerBallot { choice_key: b'1', user_id_hash: 7 },
        &lookup,
        &mut counts,
        &mut index,
    );
    assert_eq!(counts_of(&counts), vec![0, 1, 0]);
    assert_eq!(index.len(), 1);
}

#[test]
fn revote_moves_the_count() {
    let choices = choices_012();
    let lookup = make_choices_lookup(&choices);
    let (mut index, mut counts) = bootstrap_counts(b"", &choices);

    add_vote(
        &CountWorkerBallot { choice_key: b'0', user_id_hash: 7 },
        &lookup,
        &mut counts,
        &mut index,
    );
    add_vote(
        &CountWorkerBallot { choice_key: b'2', user_id_hash: 7 },
        &lookup,
        &mut counts,
        &mut index,
    );
    assert_eq!(counts_of(&counts), vec![0, 0, 1]);
    assert_eq!(index.len(), 1);
}

#[test]
fn repeated_same_choice_counts_once() {
    let choices = choices_012();
    let lookup = make_choices_lookup(&choices);
    let (mut index, mut counts) = bootstrap_counts(b"", &choices);

    for _ in 0..5 {
        add_vote(
            &CountWorkerBallot { choice_key: b'1', user_id_hash: 9 },
            &lookup,
            &mut counts,
            &mut index,
        );
    }
    assert_eq!(counts_of(&counts), vec![0, 1, 0]);
}

#[test]
fn unknown_choice_update_changes_nothing() {
    let choices = choices_012();
    let lookup = make_choices_lookup(&choices);
    let (mut index, mut counts) = bootstrap_counts(b"", &choices);

    add_vote(
        &CountWorkerBallot { choice_key: b'9', user_id_hash: 7 },
        &lookup,
        &mut counts,
        &mut index,
    );
    assert_eq!(counts_of(&counts), vec![0, 0, 0]);
    assert_eq!(index.len(), 0);
}

#[test]
fn tally_sum_tracks_distinct_voters() {
    let choices = choices_012();
    let lookup = make_choices_lookup(&choices);
    let (mut index, mut counts) = bootstrap_counts(b"", &choices);

    for voter in 0..10u128 {
        let key = if voter % 2 == 0 { b'0' } else { b'2' };
        add_vote(
            &CountWorkerBallot { choice_key: key, user_id_hash: voter },
            &lookup,
            &mut counts,
            &mut index,
        );
    }
    // A few revotes must not change the sum.
    add_vote(
        &CountWorkerBallot { choice_key: b'1', user_id_hash: 0 },
        &lookup,
        &mut counts,
        &mut index,
    );
    add_vote(
        &CountWorkerBallot { choice_key: b'1', user_id_hash: 3 },
        &lookup,
        &mut counts,
        &mut index,
    );
    let sum: u32 = counts_of(&counts).iter().sum();
    assert_eq!(sum as usize, index.len());
    assert_eq!(sum, 10);
}

#[test]
fn snapshot_equals_the_live_tally() {
    let choices = choices_012();
    let (_, counts) = bootstrap_counts(b"aaaaaaaaaaaaaaaa,1700000000001,0\n", &choices);
    let snap = clone_vote_counts(&counts);
    assert_eq!(snap, counts);
}

#[test]
fn worker_composition_matches_fused_bootstrap() {
    // Building the index and the counts in separate passes gives the same
    // state as the single-scan bootstrap.
    let data = b"aaaaaaaaaaaaaaaa,1700000000001,0\nbbbbbbbbbbbbbbbb,1700000000002,9\naaaaaaaaaaaaaaaa,1700000000003,1\ncccccccccccccccc,1700000000004,2\n";
    let choices = choices_012();

    let lookup = make_choices_lookup(&choices);
    let index = make_latest_votes_hashmap(data, &lookup);
    let raw_counts = counts_from_latest_votes(&index, &choices);
    let vote_counts = indexed_counts_to_vote_counts(&raw_counts, &choices);

    let (index2, vote_counts2) = bootstrap_counts(data, &choices);
    assert_eq!(index, index2);
    assert_eq!(vote_counts, vote_counts2);
    assert_eq!(counts_of(&vote_counts), vec![0, 1, 1]);
    // The voter whose latest ballot names an unknown choice has no entry.
    assert_eq!(index.len(), 2);
}
