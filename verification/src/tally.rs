use vstd::prelude::*;

use std::collections::HashMap;

use crate::counting::{
    index_users, indexed_counts_to_vote_counts, key_bytes_of, known_users, latest_map,
    lemma_index_of_map_users, lemma_sum_vote_counts_matches, make_latest_votes_and_counts,
    spec_latest_index, sum_vote_counts, wf_choices,
};
use crate::models::{Choice, CountWorkerBallot, VoteCount};
use vstd::set_lib::lemma_len_subset;

verus! {

broadcast use vstd::std_specs::hash::group_hash_axioms;

/// The tally worker's state is correct for a latest-vote index when each
/// entry's count is the number of voters the index maps to that choice,
/// the choice labels are the configured ones, and every index value is in
/// range.
pub open spec fn counts_wf(
    index: Map<u128, usize>,
    counts: Seq<VoteCount>,
    choices: Seq<Choice>,
) -> bool {
    &&& counts.len() == choices.len()
    &&& forall|i: int| 0 <= i < counts.len() ==> (#[trigger] counts[i]).choice@ == choices[i].key@
    &&& forall|i: int|
        0 <= i < counts.len() ==> (#[trigger] counts[i]).count == index_users(index, i).len()
    &&& forall|u: u128| #[trigger] index.contains_key(u) ==> index[u] < choices.len()
}

/// How overwriting one voter's entry changes each per-choice voter set.
proof fn lemma_index_insert(m: Map<u128, usize>, u: u128, ci: usize)
    requires
        m.dom().finite(),
    ensures
        forall|i: int|
            #[trigger] index_users(m.insert(u, ci), i) =~= if ci == i {
                index_users(m, i).insert(u)
            } else {
                index_users(m, i).remove(u)
            },
        forall|i: int| #[trigger] index_users(m.insert(u, ci), i).len() == index_users(m, i).len()
            + (if ci == i && !(m.contains_key(u) && m[u] == i) {
            1int
        } else {
            0
        }) - (if m.contains_key(u) && m[u] == i && ci != i {
            1int
        } else {
            0
        }),
{
    assert forall|i: int|
        #[trigger] index_users(m.insert(u, ci), i) =~= (if ci == i {
            index_users(m, i).insert(u)
        } else {
            index_users(m, i).remove(u)
        }) by {}
    assert forall|i: int|
        #[trigger] index_users(m.insert(u, ci), i).len() == index_users(m, i).len() + (if ci == i
            && !(m.contains_key(u) && m[u] == i) {
            1int
        } else {
            0
        }) - (if m.contains_key(u) && m[u] == i && ci != i {
            1int
        } else {
            0
        }) by {
        lemma_len_subset(index_users(m, i), m.dom());
        if ci == i {
            if m.contains_key(u) && m[u] == i {
                assert(index_users(m, i).insert(u) =~= index_users(m, i));
            }
        } else {
            if !(m.contains_key(u) && m[u] == i) {
                assert(index_users(m, i).remove(u) =~= index_users(m, i));
            }
        }
    }
}

/// How an update to one entry of a tally vector changes its sum.
proof fn lemma_sum_vote_counts_update(s: Seq<VoteCount>, i: int, v: VoteCount)
    requires
        0 <= i < s.len(),
    ensures
        sum_vote_counts(s.update(i, v)) == sum_vote_counts(s) - s[i].count + v.count,
    decreases s.len(),
{
    if i == s.len() - 1 {
        assert(s.update(i, v).drop_last() =~= s.drop_last());
    } else {
        assert(s.update(i, v).drop_last() =~= s.drop_last().update(i, v));
        lemma_sum_vote_counts_update(s.drop_last(), i, v);
    }
}

/// Applies one accepted ballot to the live tally: the voter's index entry
/// is overwritten with the new choice, the count of the voter's previous
/// choice (if any) goes down by one, and the count of the new choice goes
/// up by one. A ballot whose choice byte is not configured changes
/// nothing; the submission handler never produces one.
pub fn add_vote(
    ballot: &CountWorkerBallot,
    choice_idx_map: &HashMap<u8, usize>,
    vote_counts: &mut Vec<VoteCount>,
    latest_votes: &mut HashMap<u128, usize>,
)
    requires
        forall|b: u8| #[trigger]
            choice_idx_map@.contains_key(b) ==> choice_idx_map@[b] < old(vote_counts)@.len(),
        forall|i: int|
            0 <= i < old(vote_counts)@.len() ==> (#[trigger] old(vote_counts)@[i]).count
                == index_users(old(latest_votes)@, i).len(),
        forall|u: u128| #[trigger]
            old(latest_votes)@.contains_key(u) ==> old(latest_votes)@[u] < old(vote_counts)@.len(),
        old(latest_votes)@.dom().len() < 0xFFFF_FFFF,
    ensures
        final(vote_counts)@.len() == old(vote_counts)@.len(),
        forall|i: int|
            0 <= i < final(vote_counts)@.len() ==> (#[trigger] final(vote_counts)@[i]).choice@
                == old(vote_counts)@[i].choice@,
        choice_idx_map@.contains_key(ballot.choice_key) ==> final(latest_votes)@ == old(latest_votes)@.insert(ballot.user_id_hash, choice_idx_map@[ballot.choice_key]),
        !choice_idx_map@.contains_key(ballot.choice_key) ==> final(latest_votes)@ == old(latest_votes)@ && final(vote_counts)@ == old(vote_counts)@,
        forall|i: int|
            0 <= i < final(vote_counts)@.len() ==> (#[trigger] final(vote_counts)@[i]).count
                == index_users(final(latest_votes)@, i).len(),
        forall|u: u128| #[trigger]
            final(latest_votes)@.contains_key(u) ==> final(latest_votes)@[u] < final(vote_counts)@.len(),
        sum_vote_counts(final(vote_counts)@) == sum_vote_counts(old(vote_counts)@)
            + if choice_idx_map@.contains_key(ballot.choice_key) && !old(
            latest_votes,
        )@.contains_key(ballot.user_id_hash) {
            1int
        } else {
            0
        },
{
    let ci_opt = choice_idx_map.get(&ballot.choice_key);
    match ci_opt {
        Some(ci_ref) => {
            let ci: usize = *ci_ref;
            let ghost m0 = latest_votes@;
            let old_ci_opt = latest_votes.insert(ballot.user_id_hash, ci);
            proof {
                lemma_index_insert(m0, ballot.user_id_hash, ci);
            }
            match old_ci_opt {
                Some(old_ci) => {
                    proof {
                        assert(m0.contains_key(ballot.user_id_hash));
                        assert(m0[ballot.user_id_hash] == old_ci);
                        assert(index_users(m0, old_ci as int).contains(ballot.user_id_hash));
                        lemma_len_subset(index_users(m0, old_ci as int), m0.dom());
                        assert(index_users(m0, old_ci as int).remove(ballot.user_id_hash).len()
                            == index_users(m0, old_ci as int).len() - 1);
                    }
                    let c_old = vote_counts[old_ci].count;
                    let entry_old = VoteCount {
                        choice: vote_counts[old_ci].choice.clone(),
                        count: c_old - 1,
                    };
                    proof {
                        lemma_sum_vote_counts_update(vote_counts@, old_ci as int, entry_old);
                    }
                    vote_counts.set(old_ci, entry_old);
                    proof {
                        lemma_len_subset(index_users(m0, ci as int), m0.dom());
                    }
                    let c_new = vote_counts[ci].count;
                    let entry_new = VoteCount {
                        choice: vote_counts[ci].choice.clone(),
                        count: c_new + 1,
                    };
                    proof {
                        lemma_sum_vote_counts_update(vote_counts@, ci as int, entry_new);
                    }
                    vote_counts.set(ci, entry_new);
                },
                None => {
                    proof {
                        assert(!m0.contains_key(ballot.user_id_hash));
                        lemma_len_subset(index_users(m0, ci as int), m0.dom());
                    }
                    let c_new = vote_counts[ci].count;
                    let entry_new = VoteCount {
                        choice: vote_counts[ci].choice.clone(),
                        count: c_new + 1,
                    };
                    proof {
                        lemma_sum_vote_counts_update(vote_counts@, ci as int, entry_new);
                    }
                    vote_counts.set(ci, entry_new);
                },
            }
        },
        None => {},
    }
}

/// The tally worker's bootstrap: reads the whole count-ledger buffer once
/// and seeds the latest-vote index and the live tally from it.
pub fn bootstrap_counts(data: &[u8], choices: &[Choice]) -> (r: (
    HashMap<u128, usize>,
    Vec<VoteCount>,
))
    requires
        wf_choices(choices@),
        data@.len() <= 33 * 0xFFFF_FFFF,
    ensures
        r.0@ == spec_latest_index(data@, key_bytes_of(choices@)),
        counts_wf(r.0@, r.1@, choices@),
        sum_vote_counts(r.1@) == r.0@.dom().len(),
{
    let nch: usize = choices.len();
    let (latest_votes, counts) = make_latest_votes_and_counts(data, choices);
    let vote_counts = indexed_counts_to_vote_counts(counts.as_slice(), choices);
    proof {
        assert(key_bytes_of(choices@).len() == nch);
        lemma_index_of_map_users(latest_map(data@), key_bytes_of(choices@));
        lemma_sum_vote_counts_matches(vote_counts@, counts@);
        assert(latest_votes@.dom() =~= known_users(latest_map(data@), key_bytes_of(choices@)));
    }
    (latest_votes, vote_counts)
}

/// The voters among `seen` whose index entry is choice `i`.
spec fn seen_users(seen: Set<u128>, m: Map<u128, usize>, i: int) -> Set<u128> {
    seen.filter(|u: u128| m[u] == i)
}

/// Derives the per-choice counts from a latest-vote index, visiting each
/// voter once: each count comes out as the number of voters the index
/// maps to that choice.
pub fn counts_from_latest_votes(latest_votes: &HashMap<u128, usize>, choices: &Vec<Choice>) -> (r:
    Vec<u32>)
    requires
        forall|u: u128| #[trigger]
            latest_votes@.contains_key(u) ==> latest_votes@[u] < choices@.len(),
        latest_votes@.dom().len() < 0xFFFF_FFFF,
    ensures
        r@.len() == choices@.len(),
        forall|i: int|
            0 <= i < choices@.len() ==> (#[trigger] r@[i]) == index_users(latest_votes@, i).len(),
{
    broadcast use vstd::seq_lib::seq_to_set_is_finite;

    let ghost m = latest_votes@;
    let mut counts: Vec<u32> = Vec::new();
    let mut t: usize = 0;
    while t < choices.len()
        invariant
            0 <= t <= choices@.len(),
            counts@.len() == t,
            forall|j: int| 0 <= j < t ==> counts@[j] == 0,
        decreases choices@.len() - t,
    {
        counts.push(0);
        t = t + 1;
    }
    proof {
        assert forall|ks: Seq<u128>, i: int|
            0 <= i < counts@.len() implies counts@[i] == (#[trigger] seen_users(
            ks.subrange(0, 0).to_set(),
            m,
            i,
        )).len() by {
            assert(seen_users(ks.subrange(0, 0).to_set(), m, i) =~= Set::<u128>::empty());
        }
    }
    for k in it: latest_votes.keys()
        invariant
            m == latest_votes@,
            counts@.len() == choices@.len(),
            forall|u: u128| #[trigger] m.contains_key(u) ==> m[u] < choices@.len(),
            m.dom().len() < 0xFFFF_FFFF,
            it.seq().unref().to_set() == m.dom(),
            it.seq().no_duplicates(),
            it.seq().len() == m.dom().len(),
            it.seq().unref().subrange(0, it.seq().len() as int) =~= it.seq().unref(),
            0 <= it.index() <= it.seq().len(),
            forall|i: int|
                0 <= i < counts@.len() ==> (#[trigger] counts@[i]) == seen_users(
                    it.seq().unref().subrange(0, it.index() as int).to_set(),
                    m,
                    i,
                ).len(),
    {
        let ghost ks = it.seq().unref();
        let ghost idx = it.index() as int;
        let ghost seen = ks.subrange(0, idx).to_set();
        proof {
            assert(*k == ks[idx]);
            assert(ks.to_set().contains(ks[idx]));
            assert(m.contains_key(*k));
            assert(!seen.contains(*k)) by {
                if seen.contains(*k) {
                    let j = choose|j: int| 0 <= j < idx && ks.subrange(0, idx)[j] == *k;
                    assert(ks[j] == ks[idx]);
                    assert(*it.seq()[j] == *it.seq()[idx]);
                    assert(it.seq()[j] == it.seq()[idx]);
                }
            }
        }
        let ci: usize = *latest_votes.get(k).unwrap();
        proof {
            assert(ci == m[*k]);
            assert(ci < choices@.len());
            let seen2 = ks.subrange(0, idx + 1).to_set();
            assert(ks.subrange(0, idx + 1) =~= ks.subrange(0, idx).push(ks[idx]));
            assert(seen2 =~= seen.insert(*k));
            ks.subrange(0, idx).lemma_cardinality_of_set();
            lemma_len_subset(seen_users(seen, m, ci as int), seen);
            assert forall|i: int|
                0 <= i < counts@.len() implies seen_users(seen2, m, i).len() == seen_users(
                seen,
                m,
                i,
            ).len() + (if i == ci {
                1int
            } else {
                0
            }) by {
                if i == ci {
                    assert(seen_users(seen2, m, i) =~= seen_users(seen, m, i).insert(*k));
                } else {
                    assert(seen_users(seen2, m, i) =~= seen_users(seen, m, i));
                }
            }
        }
        let c = counts[ci];
        counts.set(ci, c + 1);
    }
    proof {
        assert forall|i: int| 0 <= i < counts@.len() implies (#[trigger] counts@[i])
            == index_users(m, i).len() by {
            assert(seen_users(m.dom(), m, i) =~= index_users(m, i));
        }
    }
    counts
}

/// A by-value snapshot of the live tally, as the worker answers a
/// read-tally request.
pub fn clone_vote_counts(v: &Vec<VoteCount>) -> (r: Vec<VoteCount>)
    ensures
        r@.len() == v@.len(),
        forall|i: int| 0 <= i < v@.len() ==> #[trigger] r@[i] == v@[i],
{
    let mut r: Vec<VoteCount> = Vec::new();
    let mut i: usize = 0;
    while i < v.len()
        invariant
            0 <= i <= v@.len(),
            r@.len() == i,
            forall|j: int| 0 <= j < i ==> #[trigger] r@[j] == v@[j],
        decreases v@.len() - i,
    {
        let entry = VoteCount { choice: v[i].choice.clone(), count: v[i].count };
        r.push(entry);
        i = i + 1;
    }
    r
}

/// The result of applying a sequence of tally updates in order: each
/// update overwrites one voter's index entry.
pub open spec fn apply_updates(m: Map<u128, usize>, ups: Seq<(u128, usize)>) -> Map<u128, usize>
    decreases ups.len(),
{
    if ups.len() == 0 {
        m
    } else {
        apply_updates(m, ups.drop_last()).insert(ups.last().0, ups.last().1)
    }
}

/// However many ballots one voter casts in sequence, the index afterwards
/// holds exactly one entry for that voter, carrying the last choice cast:
/// the voter is counted once, for the last ballot, and for no other choice.
pub proof fn lemma_single_voter_last_wins(m: Map<u128, usize>, ups: Seq<(u128, usize)>, v: u128)
    requires
        ups.len() > 0,
        forall|j: int| 0 <= j < ups.len() ==> (#[trigger] ups[j]).0 == v,
    ensures
        apply_updates(m, ups) =~= m.insert(v, ups.last().1),
        index_users(apply_updates(m, ups), ups.last().1 as int).contains(v),
        forall|i: int|
            i != ups.last().1 as int ==> !(#[trigger] index_users(apply_updates(m, ups), i)).contains(v),
    decreases ups.len(),
{
    assert(ups.last() == ups[ups.len() - 1]);
    assert(ups.last().0 == v);
    if ups.len() == 1 {
        assert(apply_updates(m, ups.drop_last()) == m);
        assert(apply_updates(m, ups) =~= m.insert(v, ups.last().1));
    } else {
        assert(forall|j: int|
            0 <= j < ups.drop_last().len() ==> (#[trigger] ups.drop_last()[j]) == ups[j]);
        lemma_single_voter_last_wins(m, ups.drop_last(), v);
        assert(apply_updates(m, ups) == apply_updates(m, ups.drop_last()).insert(
            ups.last().0,
            ups.last().1,
        ));
        assert(apply_updates(m, ups.drop_last()) == m.insert(v, ups.drop_last().last().1));
        assert(apply_updates(m, ups) =~= m.insert(v, ups.last().1));
    }
}

/// The incremental-agreement law: bootstrapping from a ledger extended by
/// one well-formed record with a configured choice yields the same
/// latest-vote index as bootstrapping from the original ledger and then
/// applying the worker's per-ballot update for that record. Since every
/// count is the size of a per-choice voter set of the index, the tallies
/// agree as well.
pub proof fn lemma_bootstrap_then_update_agree(data: Seq<u8>, line: Seq<u8>, keys: Seq<u8>)
    requires
        line.len() == 33,
        crate::counting::wf_record(line),
        crate::counting::key_index(keys, crate::counting::rec_choice(line)) is Some,
        keys.len() <= usize::MAX,
    ensures
        spec_latest_index(data + line, keys) =~= apply_updates(
            spec_latest_index(data, keys),
            seq![
                (
                    crate::counting::rec_key(line),
                    crate::counting::key_index(
                        keys,
                        crate::counting::rec_choice(line),
                    )->Some_0 as usize,
                ),
            ],
        ),
{
    crate::counting::lemma_count_append(data, line, keys);
    crate::counting::lemma_key_index_props(keys, crate::counting::rec_choice(line));
    let up = (
        crate::counting::rec_key(line),
        crate::counting::key_index(keys, crate::counting::rec_choice(line))->Some_0 as usize,
    );
    let m = spec_latest_index(data, keys);
    assert(seq![up].drop_last() =~= Seq::<(u128, usize)>::empty());
    assert(seq![up].last() == up);
    assert(apply_updates(m, Seq::<(u128, usize)>::empty()) == m);
    assert(apply_updates(m, seq![up]) == apply_updates(m, seq![up].drop_last()).insert(
        seq![up].last().0,
        seq![up].last().1,
    ));
    assert(apply_updates(m, seq![up]) == m.insert(up.0, up.1));
}

/// A voter who had not voted before and then casts any number of ballots
/// raises the count of the last choice cast by exactly one, and no other
/// count at all.
pub proof fn lemma_new_voter_adds_one(m: Map<u128, usize>, ups: Seq<(u128, usize)>, v: u128)
    requires
        m.dom().finite(),
        !m.contains_key(v),
        ups.len() > 0,
        forall|j: int| 0 <= j < ups.len() ==> (#[trigger] ups[j]).0 == v,
    ensures
        index_users(apply_updates(m, ups), ups.last().1 as int).len() == index_users(
            m,
            ups.last().1 as int,
        ).len() + 1,
        forall|i: int|
            i != ups.last().1 as int ==> (#[trigger] index_users(apply_updates(m, ups), i)).len()
                == index_users(m, i).len(),
{
    lemma_single_voter_last_wins(m, ups, v);
    lemma_index_insert(m, v, ups.last().1);
    assert(apply_updates(m, ups) == m.insert(v, ups.last().1));
    assert forall|i: int|
        i != ups.last().1 as int implies (#[trigger] index_users(apply_updates(m, ups), i)).len()
        == index_users(m, i).len() by {
        assert(index_users(m.insert(v, ups.last().1), i).len() == index_users(m, i).len());
    }
}

} // verus!
