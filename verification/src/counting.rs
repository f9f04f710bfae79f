use vstd::prelude::*;

use std::collections::HashMap;
use std::collections::HashSet;

use crate::errors::AppResult;
use crate::models::{Choice, VoteCount};
use vstd::arithmetic::div_mod::lemma_fundamental_div_mod;
use vstd::set_lib::lemma_len_subset;
use vstd::slice::{slice_index_get, slice_subrange};

verus! {

broadcast use vstd::std_specs::hash::group_hash_axioms;

/// Length in bytes of one canonical count-ledger record:
/// 16-byte user hash text, a comma, 13 timestamp digits, a comma,
/// one choice byte and a newline.
pub const RECORD_SIZE: usize = 33;

/// The integer a byte sequence denotes when read little-endian.
pub open spec fn le_value(s: Seq<u8>) -> int
    decreases s.len(),
{
    if s.len() == 0 {
        0
    } else {
        s[0] + 256 * le_value(s.drop_first())
    }
}

/// 256 raised to `n`; bounds the value of an `n`-byte little-endian integer.
pub open spec fn pow256(n: nat) -> int
    decreases n,
{
    if n == 0 {
        1
    } else {
        256 * pow256((n - 1) as nat)
    }
}

pub proof fn lemma_le_value_bound(s: Seq<u8>)
    ensures
        0 <= le_value(s) < pow256(s.len()),
    decreases s.len(),
{
    if s.len() == 0 {
    } else {
        lemma_le_value_bound(s.drop_first());
        assert(s[0] < 256);
        assert(256 * le_value(s.drop_first()) <= 256 * (pow256((s.len() - 1) as nat) - 1))
            by (nonlinear_arith)
            requires
                le_value(s.drop_first()) <= pow256((s.len() - 1) as nat) - 1,
        ;
    }
}

pub proof fn lemma_pow256_16()
    ensures
        pow256(16) == 0x1_0000_0000_0000_0000_0000_0000_0000_0000,
{
    reveal_with_fuel(pow256, 17);
}

pub proof fn lemma_pow256_le(a: nat, b: nat)
    requires
        a <= b,
    ensures
        pow256(a) <= pow256(b),
        pow256(a) >= 1,
    decreases b,
{
    if b == 0 {
    } else if a == b {
        lemma_pow256_le((a - 1) as nat, (b - 1) as nat);
        assert(pow256(a) == 256 * pow256((a - 1) as nat));
        assert(pow256(a) >= pow256((a - 1) as nat)) by (nonlinear_arith)
            requires
                pow256((a - 1) as nat) >= 1,
                pow256(a) == 256 * pow256((a - 1) as nat),
        ;
    } else {
        lemma_pow256_le(a, (b - 1) as nat);
        assert(pow256(b) == 256 * pow256((b - 1) as nat));
        assert(pow256(b) >= pow256((b - 1) as nat)) by (nonlinear_arith)
            requires
                pow256((b - 1) as nat) >= 1,
                pow256(b) == 256 * pow256((b - 1) as nat),
        ;
    }
}

/// The 128-bit key denoted by 16 bytes of user hash text, little-endian.
pub open spec fn le_u128_of(s: Seq<u8>) -> u128 {
    le_value(s) as u128
}

/// Reads a 16-byte user hash as the 128-bit integer key used by the
/// latest-vote index.
pub fn user_id_hash_u128_from_bytes(bytes: &[u8]) -> (r: u128)
    requires
        bytes@.len() == 16,
    ensures
        r == le_u128_of(bytes@),
{
    proof {
        lemma_le_value_bound(bytes@);
        lemma_pow256_16();
    }
    let mut r: u128 = 0;
    let mut i: usize = 16;
    while i > 0
        invariant
            bytes@.len() == 16,
            0 <= i <= 16,
            r == le_value(bytes@.subrange(i as int, 16)),
        decreases i,
    {
        proof {
            lemma_le_value_bound(bytes@.subrange(i as int, 16));
            lemma_pow256_le((16 - i) as nat, 15);
            assert(bytes@.subrange(i - 1, 16).drop_first() =~= bytes@.subrange(i as int, 16));
            assert(r * 256 <= (pow256(15) - 1) * 256) by (nonlinear_arith)
                requires
                    r <= pow256(15) - 1,
            ;
            lemma_pow256_16();
            reveal_with_fuel(pow256, 17);
        }
        let b = *slice_index_get(bytes, i - 1);
        r = r * 256 + (b as u128);
        i = i - 1;
        assert(r == le_value(bytes@.subrange(i as int, 16)));
    }
    proof {
        assert(bytes@.subrange(0, 16) =~= bytes@);
    }
    r
}

// ------------------------------------------------------------------
// The record model of a count-ledger buffer.
//
// Records are 33 bytes wide and aligned to the END of the buffer: a
// partial record at the start (for instance after log truncation) is
// ignored. Record 0 is the oldest, record `n_records - 1` the newest.
// ------------------------------------------------------------------

/// How many whole records the buffer holds.
pub open spec fn n_records(data: Seq<u8>) -> int {
    (data.len() as int) / 33
}

/// Byte offset of record `i`, counting records from the end of the buffer.
pub open spec fn rec_start(data: Seq<u8>, i: int) -> int {
    (data.len() as int) % 33 + 33 * i
}

/// The bytes of record `i`.
pub open spec fn record_at(data: Seq<u8>, i: int) -> Seq<u8> {
    data.subrange(rec_start(data, i), rec_start(data, i) + 33)
}

/// A well-formed record: commas after the 16-byte hash and the 13-digit
/// timestamp, and a final newline. Anything else is skipped by the engine.
pub open spec fn wf_record(r: Seq<u8>) -> bool {
    &&& r.len() == 33
    &&& r[16] == 44u8
    &&& r[30] == 44u8
    &&& r[32] == 10u8
}

/// The 128-bit voter key of a record: its first 16 bytes, little-endian.
pub open spec fn rec_key(r: Seq<u8>) -> u128 {
    le_u128_of(r.subrange(0, 16))
}

/// The choice byte of a record.
pub open spec fn rec_choice(r: Seq<u8>) -> u8 {
    r[31]
}

// ------------------------------------------------------------------
// The latest-vote map: which choice byte each voter's most recent
// well-formed record carries.
// ------------------------------------------------------------------

/// The latest-vote map after the oldest `i` records: walking records in
/// file order, a later record for the same voter overwrites an earlier one.
pub open spec fn latest_map_upto(data: Seq<u8>, i: int) -> Map<u128, u8>
    decreases i,
{
    if i <= 0 {
        Map::empty()
    } else {
        let m = latest_map_upto(data, i - 1);
        let r = record_at(data, i - 1);
        if wf_record(r) {
            m.insert(rec_key(r), rec_choice(r))
        } else {
            m
        }
    }
}

/// The latest-vote map of the whole buffer: each voter's key maps to the
/// choice byte of their most recent well-formed record.
pub open spec fn latest_map(data: Seq<u8>) -> Map<u128, u8> {
    latest_map_upto(data, n_records(data))
}

/// The latest-vote map of records `i..n`, built the way the reverse scan
/// builds it: newest first, inserting only voters not seen yet.
spec fn suffix_latest(data: Seq<u8>, i: int) -> Map<u128, u8>
    decreases n_records(data) - i,
{
    if i < 0 || i >= n_records(data) {
        Map::empty()
    } else {
        let m = suffix_latest(data, i + 1);
        let r = record_at(data, i);
        if wf_record(r) && !m.contains_key(rec_key(r)) {
            m.insert(rec_key(r), rec_choice(r))
        } else {
            m
        }
    }
}

proof fn lemma_suffix_finite(data: Seq<u8>, i: int)
    ensures
        suffix_latest(data, i).dom().finite(),
        suffix_latest(data, i).dom().len() <= if n_records(data) - i >= 0 {
            n_records(data) - i
        } else {
            0
        },
    decreases n_records(data) - i,
{
    if i < 0 || i >= n_records(data) {
    } else {
        lemma_suffix_finite(data, i + 1);
    }
}

/// The forward fold over all records equals the forward fold over the first
/// `i` records combined with the reverse scan over the rest.
proof fn lemma_prefix_suffix(data: Seq<u8>, i: int)
    requires
        0 <= i <= n_records(data),
    ensures
        latest_map(data) =~= latest_map_upto(data, i).union_prefer_right(suffix_latest(data, i)),
    decreases n_records(data) - i,
{
    let n = n_records(data);
    if i == n {
        assert(suffix_latest(data, n) =~= Map::<u128, u8>::empty());
    } else {
        lemma_prefix_suffix(data, i + 1);
        let r = record_at(data, i);
        let pre = latest_map_upto(data, i);
        let suf = suffix_latest(data, i + 1);
        assert(latest_map_upto(data, i + 1) == if wf_record(r) {
            pre.insert(rec_key(r), rec_choice(r))
        } else {
            pre
        });
        if wf_record(r) {
            let k = rec_key(r);
            let c = rec_choice(r);
            if suf.contains_key(k) {
                assert(pre.insert(k, c).union_prefer_right(suf) =~= pre.union_prefer_right(
                    suffix_latest(data, i),
                ));
            } else {
                assert(suffix_latest(data, i) == suf.insert(k, c));
                assert(pre.insert(k, c).union_prefer_right(suf) =~= pre.union_prefer_right(
                    suf.insert(k, c),
                ));
            }
        }
    }
}

/// The reverse scan over the whole buffer computes the latest-vote map.
proof fn lemma_suffix_is_latest(data: Seq<u8>)
    ensures
        suffix_latest(data, 0) =~= latest_map(data),
{
    lemma_prefix_suffix(data, 0);
    assert(latest_map_upto(data, 0) =~= Map::<u128, u8>::empty());
}

// ------------------------------------------------------------------
// Choice sets and the choice-byte lookup.
// ------------------------------------------------------------------

/// The identifying first bytes of a choice set, in configuration order.
pub open spec fn key_bytes_of(choices: Seq<Choice>) -> Seq<u8> {
    choices.map(|i: int, c: Choice| c.key_byte())
}

/// A usable choice set: every key nonempty ASCII, and first bytes unique.
pub open spec fn wf_choices(choices: Seq<Choice>) -> bool {
    &&& forall|i: int| 0 <= i < choices.len() ==> (#[trigger] choices[i]).wf()
    &&& forall|i: int, j: int|
        0 <= i < j < choices.len() ==> (#[trigger] choices[i]).key_byte() != (
        #[trigger] choices[j]).key_byte()
}

/// The dense index a choice byte maps to: the position of the first key
/// whose first byte is `b`, if any.
pub open spec fn key_index(keys: Seq<u8>, b: u8) -> Option<int>
    decreases keys.len(),
{
    if keys.len() == 0 {
        None
    } else if keys[0] == b {
        Some(0)
    } else {
        match key_index(keys.drop_first(), b) {
            Some(i) => Some(i + 1),
            None => None,
        }
    }
}

pub proof fn lemma_key_index_props(keys: Seq<u8>, b: u8)
    ensures
        match key_index(keys, b) {
            Some(i) => 0 <= i < keys.len() && keys[i] == b,
            None => forall|j: int| 0 <= j < keys.len() ==> keys[j] != b,
        },
    decreases keys.len(),
{
    if keys.len() == 0 {
    } else if keys[0] == b {
    } else {
        lemma_key_index_props(keys.drop_first(), b);
        match key_index(keys.drop_first(), b) {
            Some(i) => {
                assert(keys[i + 1] == keys.drop_first()[i]);
            },
            None => {
                assert forall|j: int| 0 <= j < keys.len() implies keys[j] != b by {
                    if j >= 1 {
                        assert(keys.drop_first()[j - 1] != b);
                    }
                }
            },
        }
    }
}

/// In a set with unique bytes, the index of each byte is its position.
pub proof fn lemma_key_index_of_position(keys: Seq<u8>, i: int)
    requires
        0 <= i < keys.len(),
        forall|p: int, q: int| 0 <= p < q < keys.len() ==> keys[p] != keys[q],
    ensures
        key_index(keys, keys[i]) == Some(i),
    decreases keys.len(),
{
    if i == 0 {
    } else {
        assert(keys[0] != keys[i]);
        lemma_key_index_of_position(keys.drop_first(), i - 1);
        assert(keys.drop_first()[i - 1] == keys[i]);
    }
}

// ------------------------------------------------------------------
// The tally as cardinalities over the latest-vote map.
// ------------------------------------------------------------------

/// The voters whose latest choice byte names configured choice `i`.
pub open spec fn users_for(m: Map<u128, u8>, keys: Seq<u8>, i: int) -> Set<u128> {
    m.dom().filter(|u: u128| key_index(keys, m[u]) == Some(i))
}

/// The voters whose latest choice byte names any configured choice.
pub open spec fn known_users(m: Map<u128, u8>, keys: Seq<u8>) -> Set<u128> {
    m.dom().filter(|u: u128| key_index(keys, m[u]) is Some)
}

/// Sum of a tally vector.
pub open spec fn sum_counts(s: Seq<u32>) -> int
    decreases s.len(),
{
    if s.len() == 0 {
        0
    } else {
        sum_counts(s.drop_last()) + s.last()
    }
}

/// Sum of the counts of a tally result.
pub open spec fn sum_vote_counts(s: Seq<VoteCount>) -> int
    decreases s.len(),
{
    if s.len() == 0 {
        0
    } else {
        sum_vote_counts(s.drop_last()) + s.last().count
    }
}

proof fn lemma_sum_update(s: Seq<u32>, i: int, v: u32)
    requires
        0 <= i < s.len(),
    ensures
        sum_counts(s.update(i, v)) == sum_counts(s) - s[i] + v,
    decreases s.len(),
{
    if i == s.len() - 1 {
        assert(s.update(i, v).drop_last() =~= s.drop_last());
    } else {
        assert(s.update(i, v).drop_last() =~= s.drop_last().update(i, v));
        lemma_sum_update(s.drop_last(), i, v);
    }
}

/// How inserting a fresh voter changes the per-choice voter sets.
proof fn lemma_users_insert(m: Map<u128, u8>, keys: Seq<u8>, k: u128, c: u8)
    requires
        !m.dom().contains(k),
        m.dom().finite(),
    ensures
        forall|i: int|
            #[trigger] users_for(m.insert(k, c), keys, i).len() == users_for(m, keys, i).len()
                + if key_index(keys, c) == Some(i) {
                1int
            } else {
                0
            },
        known_users(m.insert(k, c), keys).len() == known_users(m, keys).len() + if key_index(
            keys,
            c,
        ) is Some {
            1int
        } else {
            0
        },
{
    assert forall|i: int|
        #[trigger] users_for(m.insert(k, c), keys, i).len() == users_for(m, keys, i).len()
            + if key_index(keys, c) == Some(i) {
            1int
        } else {
            0
        } by {
        lemma_len_subset(users_for(m, keys, i), m.dom());
        if key_index(keys, c) == Some(i) {
            assert(users_for(m.insert(k, c), keys, i) =~= users_for(m, keys, i).insert(k));
        } else {
            assert(users_for(m.insert(k, c), keys, i) =~= users_for(m, keys, i));
        }
    }
    lemma_len_subset(known_users(m, keys), m.dom());
    if key_index(keys, c) is Some {
        assert(known_users(m.insert(k, c), keys) =~= known_users(m, keys).insert(k));
    } else {
        assert(known_users(m.insert(k, c), keys) =~= known_users(m, keys));
    }
}

// ------------------------------------------------------------------
// Executable helpers.
// ------------------------------------------------------------------

/// An empty voter set sized for the buffer, as the scan expects it.
pub fn init_seen_hashset(data: &[u8]) -> (s: HashSet<u128>)
    ensures
        s@ == Set::<u128>::empty(),
{
    proof {
        assert((data@.len() as int) / 33 <= data@.len() as int) by (nonlinear_arith);
    }
    let max_n_lines: usize = data.len() / RECORD_SIZE + 1;
    let seen: HashSet<u128> = HashSet::with_capacity(max_n_lines);
    seen
}

/// An empty latest-vote index sized for the buffer.
pub fn init_latest_votes_hashmap(data: &[u8]) -> (m: HashMap<u128, usize>)
    ensures
        m@ == Map::<u128, usize>::empty(),
{
    proof {
        assert((data@.len() as int) / 33 <= data@.len() as int) by (nonlinear_arith);
    }
    let max_n_lines: usize = data.len() / RECORD_SIZE + 1;
    let latest_votes: HashMap<u128, usize> = HashMap::with_capacity(max_n_lines);
    latest_votes
}

/// Builds the lookup from a choice's first byte to its dense index.
pub fn make_choices_lookup(choices: &[Choice]) -> (m: HashMap<u8, usize>)
    requires
        wf_choices(choices@),
    ensures
        forall|b: u8| #[trigger]
            m@.contains_key(b) <==> key_index(key_bytes_of(choices@), b) is Some,
        forall|b: u8| #[trigger]
            m@.contains_key(b) ==> key_index(key_bytes_of(choices@), b) == Some(m@[b] as int),
        forall|b: u8| m@.contains_key(b) ==> m@[b] < choices@.len(),
{
    let ghost keys = key_bytes_of(choices@);
    let mut choice_to_index: HashMap<u8, usize> = HashMap::with_capacity(choices.len());
    let mut idx: usize = 0;
    while idx < choices.len()
        invariant
            wf_choices(choices@),
            keys == key_bytes_of(choices@),
            0 <= idx <= choices@.len(),
            forall|b: u8| #[trigger]
                choice_to_index@.contains_key(b) ==> exists|j: int|
                    0 <= j < idx && keys[j] == b && choice_to_index@[b] == j,
            forall|j: int| 0 <= j < idx ==> choice_to_index@.contains_key(#[trigger] keys[j]),
        decreases choices@.len() - idx,
    {
        let b = slice_index_get(choices, idx).key_u8();
        proof {
            assert(keys[idx as int] == choices@[idx as int].key_byte());
        }
        choice_to_index.insert(b, idx);
        idx = idx + 1;
    }
    proof {
        assert forall|b: u8| #[trigger]
            choice_to_index@.contains_key(b) <==> key_index(keys, b) is Some by {
            lemma_key_index_props(keys, b);
            if choice_to_index@.contains_key(b) {
                let j = choose|j: int|
                    0 <= j < choices@.len() && keys[j] == b && choice_to_index@[b] == j;
                lemma_key_index_of_position(keys, j);
            }
        }
        assert forall|b: u8| #[trigger]
            choice_to_index@.contains_key(b) implies key_index(keys, b) == Some(
            choice_to_index@[b] as int,
        ) by {
            let j = choose|j: int|
                0 <= j < choices@.len() && keys[j] == b && choice_to_index@[b] == j;
            lemma_key_index_of_position(keys, j);
        }
    }
    choice_to_index
}

/// Pairs each configured choice with its count, in configuration order.
pub fn indexed_counts_to_vote_counts(counts: &[u32], choices: &[Choice]) -> (r: Vec<VoteCount>)
    ensures
        r@.len() == if counts@.len() <= choices@.len() {
            counts@.len()
        } else {
            choices@.len()
        },
        forall|i: int|
            0 <= i < r@.len() ==> (#[trigger] r@[i]).choice@ == choices@[i].key@ && r@[i].count
                == counts@[i],
{
    let n: usize = if counts.len() < choices.len() {
        counts.len()
    } else {
        choices.len()
    };
    let mut r: Vec<VoteCount> = Vec::new();
    let mut i: usize = 0;
    while i < n
        invariant
            n <= counts@.len(),
            n <= choices@.len(),
            0 <= i <= n,
            r@.len() == i,
            forall|j: int|
                0 <= j < i ==> (#[trigger] r@[j]).choice@ == choices@[j].key@ && r@[j].count
                    == counts@[j],
        decreases n - i,
    {
        let vc = VoteCount {
            choice: slice_index_get(choices, i).key.clone(),
            count: *slice_index_get(counts, i),
        };
        r.push(vc);
        i = i + 1;
    }
    r
}

/// Counts current votes per configured choice over a count-ledger buffer.
///
/// The result pairs each configured choice, in configuration order, with
/// the number of voters whose most recent well-formed record carries that
/// choice's byte; the summed tally equals the number of voters whose most
/// recent well-formed record names any configured choice, so a voter whose
/// latest choice byte is unknown is seen but not tallied.
pub fn count_votes_35(data: &[u8], choices: &[Choice]) -> (r: AppResult<Vec<VoteCount>>)
    requires
        wf_choices(choices@),
        data@.len() <= 33 * 0xFFFF_FFFF,
    ensures
        r is Ok,
        r->Ok_0@.len() == choices@.len(),
        forall|i: int|
            0 <= i < choices@.len() ==> (#[trigger] r->Ok_0@[i]).choice@ == choices@[i].key@,
        forall|i: int|
            0 <= i < choices@.len() ==> (#[trigger] r->Ok_0@[i]).count == users_for(
                latest_map(data@),
                key_bytes_of(choices@),
                i,
            ).len(),
        sum_vote_counts(r->Ok_0@) == known_users(latest_map(data@), key_bytes_of(choices@)).len(),
{
    let ghost keys = key_bytes_of(choices@);
    let choice_to_index = make_choices_lookup(choices);
    let mut seen_users = init_seen_hashset(data);
    let mut counts: Vec<u32> = Vec::new();
    let mut t: usize = 0;
    while t < choices.len()
        invariant
            0 <= t <= choices@.len(),
            counts@.len() == t,
            forall|j: int| 0 <= j < t ==> counts@[j] == 0,
        decreases choices@.len() - t,
    {
        counts.push(0);
        t = t + 1;
    }
    let data_len: usize = data.len();
    let n: usize = data_len / RECORD_SIZE;
    let rem: usize = data_len % RECORD_SIZE;
    proof {
        lemma_fundamental_div_mod(data@.len() as int, 33);
    }
    let ghost mut m: Map<u128, u8> = Map::empty();
    proof {
        assert(m =~= suffix_latest(data@, n as int));
        assert forall|ci: int| 0 <= ci < counts@.len() implies counts@[ci] == users_for(
            m,
            keys,
            ci,
        ).len() by {
            assert(users_for(m, keys, ci) =~= Set::<u128>::empty());
        }
        assert(known_users(m, keys) =~= Set::<u128>::empty());
        assert(sum_counts(counts@) == 0) by {
            lemma_sum_zero(counts@);
        }
    }
    let mut i: usize = n;
    while i > 0
        invariant
            wf_choices(choices@),
            keys == key_bytes_of(choices@),
            counts@.len() == choices@.len(),
            n == n_records(data@),
            rem == (data@.len() as int) % 33,
            data@.len() == rem + 33 * n,
            data@.len() == data_len,
            data@.len() <= 33 * 0xFFFF_FFFF,
            0 <= i <= n,
            forall|b: u8| #[trigger]
                choice_to_index@.contains_key(b) <==> key_index(keys, b) is Some,
            forall|b: u8| #[trigger]
                choice_to_index@.contains_key(b) ==> key_index(keys, b) == Some(
                    choice_to_index@[b] as int,
                ),
            forall|b: u8| choice_to_index@.contains_key(b) ==> choice_to_index@[b]
                < choices@.len(),
            seen_users@ == m.dom(),
            m == suffix_latest(data@, i as int),
            m.dom().finite(),
            m.dom().len() <= n - i,
            forall|ci: int|
                0 <= ci < counts@.len() ==> (#[trigger] counts@[ci]) == users_for(
                    m,
                    keys,
                    ci,
                ).len(),
            sum_counts(counts@) == known_users(m, keys).len(),
        decreases i,
    {
        i = i - 1;
        proof {
            assert(33 * (i as int) <= 33 * (n - 1)) by (nonlinear_arith)
                requires
                    i as int <= n - 1,
            ;
            assert(rem + 33 * (i as int) + 33 <= data@.len());
        }
        let start: usize = rem + RECORD_SIZE * i;
        let rec = slice_subrange(data, start, start + RECORD_SIZE);
        proof {
            assert(rec@ =~= record_at(data@, i as int));
        }
        let ghost m_next = m;
        let is_wf = *slice_index_get(rec, 16) == 44u8 && *slice_index_get(rec, 30) == 44u8
            && *slice_index_get(rec, 32) == 10u8;
        proof {
            assert(is_wf == wf_record(record_at(data@, i as int)));
        }
        if is_wf {
            let key = user_id_hash_u128_from_bytes(slice_subrange(rec, 0, 16));
            proof {
                assert(rec@.subrange(0, 16) == record_at(data@, i as int).subrange(0, 16));
                assert(key == rec_key(record_at(data@, i as int)));
            }
            let newly_seen = seen_users.insert(key);
            if newly_seen {
                let cb = *slice_index_get(rec, 31);
                proof {
                    assert(cb == rec_choice(record_at(data@, i as int)));
                    m = m_next.insert(key, cb);
                    assert(m == suffix_latest(data@, i as int));
                    lemma_users_insert(m_next, keys, key, cb);
                    lemma_suffix_finite(data@, i + 1);
                }
                match choice_to_index.get(&cb) {
                    Some(ci_ref) => {
                        let ci: usize = *ci_ref;
                        proof {
                            assert(key_index(keys, cb) == Some(ci as int));
                            lemma_len_subset(users_for(m_next, keys, ci as int), m_next.dom());
                            lemma_sum_update(counts@, ci as int, (counts@[ci as int] + 1) as u32);
                        }
                        let c = counts[ci];
                        counts.set(ci, c + 1);
                    },
                    None => {
                        proof {
                            assert(key_index(keys, cb) is None);
                            assert forall|ci: int| 0 <= ci < counts@.len() implies (
                            #[trigger] counts@[ci]) == users_for(m, keys, ci).len() by {
                                assert(key_index(keys, cb) != Some(ci));
                            }
                        }
                    },
                }
            } else {
                proof {
                    assert(m_next.contains_key(key));
                    assert(m == suffix_latest(data@, i as int));
                }
            }
        } else {
            proof {
                assert(m == suffix_latest(data@, i as int));
            }
        }
    }
    proof {
        lemma_suffix_is_latest(data@);
        assert(m =~= latest_map(data@));
    }
    let vote_counts = indexed_counts_to_vote_counts(counts.as_slice(), choices);
    proof {
        lemma_sum_vote_counts_matches(vote_counts@, counts@);
    }
    Ok(vote_counts)
}

// ------------------------------------------------------------------
// The latest-vote index handed to the tally worker, and how appends
// change it.
// ------------------------------------------------------------------

/// The voters of a latest-vote map whose choice is configured, each mapped
/// to the dense index of that choice.
pub open spec fn index_of_map(m: Map<u128, u8>, keys: Seq<u8>) -> Map<u128, usize> {
    Map::new(
        |u: u128| m.contains_key(u) && key_index(keys, m[u]) is Some,
        |u: u128| key_index(keys, m[u])->Some_0 as usize,
    )
}

/// The latest-vote index of a buffer: every voter whose most recent
/// well-formed record names a configured choice, mapped to its index.
pub open spec fn spec_latest_index(data: Seq<u8>, keys: Seq<u8>) -> Map<u128, usize> {
    index_of_map(latest_map(data), keys)
}

/// The voters an index maps to dense choice index `i`.
pub open spec fn index_users(m: Map<u128, usize>, i: int) -> Set<u128> {
    m.dom().filter(|u: u128| m[u] == i)
}

/// The per-choice voter sets of an index agree with those of the
/// latest-vote map it came from.
pub proof fn lemma_index_of_map_users(m: Map<u128, u8>, keys: Seq<u8>)
    requires
        keys.len() <= usize::MAX,
    ensures
        forall|i: int| #[trigger] index_users(index_of_map(m, keys), i) =~= users_for(m, keys, i),
        index_of_map(m, keys).dom() =~= known_users(m, keys),
{
    assert forall|i: int| #[trigger]
        index_users(index_of_map(m, keys), i) =~= users_for(m, keys, i) by {
        assert forall|u: u128|
            index_users(index_of_map(m, keys), i).contains(u) <==> users_for(
                m,
                keys,
                i,
            ).contains(u) by {
            if m.contains_key(u) && key_index(keys, m[u]) is Some {
                lemma_key_index_props(keys, m[u]);
                assert(0 <= key_index(keys, m[u])->Some_0 < keys.len());
            }
        }
    }
}

/// Two buffers with the same records have the same partial latest maps.
proof fn lemma_upto_congruent(data: Seq<u8>, data2: Seq<u8>, i: int)
    requires
        forall|j: int| 0 <= j < i ==> record_at(data2, j) =~= record_at(data, j),
    ensures
        latest_map_upto(data2, i) == latest_map_upto(data, i),
    decreases i,
{
    if i <= 0 {
    } else {
        lemma_upto_congruent(data, data2, i - 1);
        assert(record_at(data2, i - 1) =~= record_at(data, i - 1));
    }
}

/// Appending one record adds it as the newest while leaving every existing
/// record where it was.
proof fn lemma_append_records(data: Seq<u8>, line: Seq<u8>)
    requires
        line.len() == 33,
    ensures
        n_records(data + line) == n_records(data) + 1,
        ((data + line).len() as int) % 33 == (data.len() as int) % 33,
        forall|j: int|
            0 <= j < n_records(data) ==> record_at(data + line, j) =~= record_at(data, j),
        record_at(data + line, n_records(data)) =~= line,
{
    let len = data.len() as int;
    let n = n_records(data);
    let rem = len % 33;
    lemma_fundamental_div_mod(len, 33);
    vstd::arithmetic::div_mod::lemma_fundamental_div_mod_converse(len + 33, 33, n + 1, rem);
    assert forall|j: int|
        0 <= j < n implies record_at(data + line, j) =~= record_at(data, j) by {
        assert(33 * j <= 33 * (n - 1)) by (nonlinear_arith)
            requires
                j <= n - 1,
        ;
        assert(rem + 33 * j + 33 <= len);
    }
}

/// The append law for the latest-vote map: appending one well-formed
/// record overwrites exactly that voter's latest choice.
pub proof fn lemma_latest_map_append(data: Seq<u8>, line: Seq<u8>)
    requires
        line.len() == 33,
        wf_record(line),
    ensures
        latest_map(data + line) =~= latest_map(data).insert(rec_key(line), rec_choice(line)),
{
    let n = n_records(data);
    lemma_append_records(data, line);
    lemma_upto_congruent(data, data + line, n);
    assert(latest_map(data + line) == latest_map_upto(data + line, n + 1));
    assert(wf_record(record_at(data + line, n)));
    assert(rec_key(record_at(data + line, n)) == rec_key(line));
    assert(rec_choice(record_at(data + line, n)) == rec_choice(line));
}

/// The incremental-agreement law: appending one well-formed record whose
/// choice is configured changes the latest-vote index exactly as the tally
/// worker's per-ballot update does, an overwrite of that voter's entry.
/// Counting the extended buffer therefore agrees with updating the counts
/// of the original buffer.
pub proof fn lemma_count_append(data: Seq<u8>, line: Seq<u8>, keys: Seq<u8>)
    requires
        line.len() == 33,
        wf_record(line),
        key_index(keys, rec_choice(line)) is Some,
    ensures
        spec_latest_index(data + line, keys) =~= spec_latest_index(data, keys).insert(
            rec_key(line),
            key_index(keys, rec_choice(line))->Some_0 as usize,
        ),
{
    lemma_latest_map_append(data, line);
    let m = latest_map(data);
    let m2 = latest_map(data + line);
    assert forall|u: u128|
        #![trigger spec_latest_index(data + line, keys).dom().contains(u)]
        true implies {
        &&& spec_latest_index(data + line, keys).dom().contains(u) <==> spec_latest_index(
            data,
            keys,
        ).insert(rec_key(line), key_index(keys, rec_choice(line))->Some_0 as usize).dom().contains(
            u,
        )
        &&& spec_latest_index(data + line, keys).dom().contains(u)
            ==> spec_latest_index(data + line, keys)[u] == spec_latest_index(data, keys).insert(
            rec_key(line),
            key_index(keys, rec_choice(line))->Some_0 as usize,
        )[u]
    } by {
        assert(m2 =~= m.insert(rec_key(line), rec_choice(line)));
    }
}

/// Two bootstrap runs over the same buffer and choice set render the same
/// tally, entry for entry: the counting engine's result is a function of
/// its input alone.
pub proof fn lemma_bootstrap_deterministic(
    r1: Seq<VoteCount>,
    r2: Seq<VoteCount>,
    data: Seq<u8>,
    choices: Seq<Choice>,
)
    requires
        r1.len() == choices.len(),
        r2.len() == choices.len(),
        forall|i: int| 0 <= i < choices.len() ==> (#[trigger] r1[i]).choice@ == choices[i].key@,
        forall|i: int| 0 <= i < choices.len() ==> (#[trigger] r2[i]).choice@ == choices[i].key@,
        forall|i: int|
            0 <= i < choices.len() ==> (#[trigger] r1[i]).count == users_for(
                latest_map(data),
                key_bytes_of(choices),
                i,
            ).len(),
        forall|i: int|
            0 <= i < choices.len() ==> (#[trigger] r2[i]).count == users_for(
                latest_map(data),
                key_bytes_of(choices),
                i,
            ).len(),
    ensures
        forall|i: int|
            0 <= i < choices.len() ==> (#[trigger] r1[i]).choice@ == r2[i].choice@ && r1[i].count
                == r2[i].count,
{
}

/// An empty count-ledger buffer tallies as all zeroes.
pub proof fn lemma_empty_buffer_zero_tally(keys: Seq<u8>)
    ensures
        latest_map(Seq::<u8>::empty()) =~= Map::<u128, u8>::empty(),
        forall|i: int| #[trigger] users_for(latest_map(Seq::<u8>::empty()), keys, i).len() == 0,
        known_users(latest_map(Seq::<u8>::empty()), keys).len() == 0,
{
    lemma_malformed_only_zero_tally(Seq::<u8>::empty(), keys);
}

/// A buffer none of whose records is well-formed tallies as empty: the
/// engine treats it as holding no votes rather than as an error.
pub proof fn lemma_malformed_only_zero_tally(data: Seq<u8>, keys: Seq<u8>)
    requires
        forall|j: int| 0 <= j < n_records(data) ==> !wf_record(record_at(data, j)),
    ensures
        latest_map(data) =~= Map::<u128, u8>::empty(),
        forall|i: int| #[trigger] users_for(latest_map(data), keys, i).len() == 0,
        known_users(latest_map(data), keys).len() == 0,
{
    lemma_malformed_upto(data, n_records(data));
    assert forall|i: int| #[trigger] users_for(latest_map(data), keys, i).len() == 0 by {
        assert(users_for(latest_map(data), keys, i) =~= Set::<u128>::empty());
    }
    assert(known_users(latest_map(data), keys) =~= Set::<u128>::empty());
}

proof fn lemma_malformed_upto(data: Seq<u8>, i: int)
    requires
        forall|j: int| 0 <= j < i ==> !wf_record(record_at(data, j)),
    ensures
        latest_map_upto(data, i) =~= Map::<u128, u8>::empty(),
    decreases i,
{
    if i <= 0 {
    } else {
        lemma_malformed_upto(data, i - 1);
    }
}

/// A voter whose latest choice byte names no configured choice is seen but
/// never tallied: it belongs to no per-choice voter set and does not count
/// toward the tally's sum.
pub proof fn lemma_unknown_choice_not_tallied(m: Map<u128, u8>, keys: Seq<u8>, u: u128)
    requires
        m.contains_key(u),
        key_index(keys, m[u]) is None,
    ensures
        forall|i: int| !(#[trigger] users_for(m, keys, i).contains(u)),
        !known_users(m, keys).contains(u),
{
}

/// The voters of a latest-vote map whose choice byte the lookup knows,
/// each mapped through the lookup.
pub open spec fn index_from_lookup(m: Map<u128, u8>, lk: Map<u8, usize>) -> Map<u128, usize> {
    Map::new(
        |u: u128| m.contains_key(u) && lk.contains_key(m[u]),
        |u: u128| lk[m[u]],
    )
}

/// When the lookup is the one built from the choice set, mapping the
/// latest-vote map through it gives the latest-vote index.
pub proof fn lemma_index_from_lookup_matches(m: Map<u128, u8>, lk: Map<u8, usize>, keys: Seq<u8>)
    requires
        forall|b: u8| #[trigger] lk.contains_key(b) <==> key_index(keys, b) is Some,
        forall|b: u8| #[trigger] lk.contains_key(b) ==> key_index(keys, b) == Some(lk[b] as int),
    ensures
        index_from_lookup(m, lk) =~= index_of_map(m, keys),
{
    assert forall|u: u128|
        #![trigger index_from_lookup(m, lk).dom().contains(u)]
        true implies {
        &&& index_from_lookup(m, lk).dom().contains(u) <==> index_of_map(m, keys).dom().contains(u)
        &&& index_from_lookup(m, lk).dom().contains(u) ==> index_from_lookup(m, lk)[u]
            == index_of_map(m, keys)[u]
    } by {
        if m.contains_key(u) && lk.contains_key(m[u]) {
            lemma_key_index_props(keys, m[u]);
        }
    }
}

/// One reverse scan building the latest-vote index: each voter whose most
/// recent well-formed record carries a choice byte the lookup knows is
/// mapped to that choice's index. Voters whose latest choice byte is
/// unknown are seen, blocking their older ballots, but get no entry.
pub fn make_latest_votes_hashmap(data: &[u8], choice_to_idx: &HashMap<u8, usize>) -> (r: HashMap<
    u128,
    usize,
>)
    requires
        data@.len() <= 33 * 0xFFFF_FFFF,
    ensures
        r@ == index_from_lookup(latest_map(data@), choice_to_idx@),
{
    let mut seen_users = init_seen_hashset(data);
    let mut latest_votes = init_latest_votes_hashmap(data);
    let data_len: usize = data.len();
    let n: usize = data_len / RECORD_SIZE;
    let rem: usize = data_len % RECORD_SIZE;
    proof {
        lemma_fundamental_div_mod(data@.len() as int, 33);
    }
    let ghost mut m: Map<u128, u8> = Map::empty();
    proof {
        assert(m =~= suffix_latest(data@, n as int));
        assert(latest_votes@ =~= index_from_lookup(m, choice_to_idx@));
    }
    let mut i: usize = n;
    while i > 0
        invariant
            n == n_records(data@),
            rem == (data@.len() as int) % 33,
            data@.len() == rem + 33 * n,
            data@.len() == data_len,
            data@.len() <= 33 * 0xFFFF_FFFF,
            0 <= i <= n,
            seen_users@ == m.dom(),
            m == suffix_latest(data@, i as int),
            latest_votes@ == index_from_lookup(m, choice_to_idx@),
        decreases i,
    {
        i = i - 1;
        proof {
            assert(33 * (i as int) <= 33 * (n - 1)) by (nonlinear_arith)
                requires
                    i as int <= n - 1,
            ;
            assert(rem + 33 * (i as int) + 33 <= data@.len());
        }
        let start: usize = rem + RECORD_SIZE * i;
        let rec = slice_subrange(data, start, start + RECORD_SIZE);
        proof {
            assert(rec@ =~= record_at(data@, i as int));
        }
        let ghost m_prev = m;
        let is_wf = *slice_index_get(rec, 16) == 44u8 && *slice_index_get(rec, 30) == 44u8
            && *slice_index_get(rec, 32) == 10u8;
        proof {
            assert(is_wf == wf_record(record_at(data@, i as int)));
        }
        if is_wf {
            let key = user_id_hash_u128_from_bytes(slice_subrange(rec, 0, 16));
            proof {
                assert(rec@.subrange(0, 16) == record_at(data@, i as int).subrange(0, 16));
                assert(key == rec_key(record_at(data@, i as int)));
            }
            let newly_seen = seen_users.insert(key);
            if newly_seen {
                let cb = *slice_index_get(rec, 31);
                proof {
                    assert(cb == rec_choice(record_at(data@, i as int)));
                    m = m_prev.insert(key, cb);
                    assert(m == suffix_latest(data@, i as int));
                }
                match choice_to_idx.get(&cb) {
                    Some(ci_ref) => {
                        let ci: usize = *ci_ref;
                        latest_votes.insert(key, ci);
                        proof {
                            assert(latest_votes@ =~= index_from_lookup(m, choice_to_idx@));
                        }
                    },
                    None => {
                        proof {
                            assert(latest_votes@ =~= index_from_lookup(m, choice_to_idx@));
                        }
                    },
                }
            } else {
                proof {
                    assert(m_prev.contains_key(key));
                    assert(m == suffix_latest(data@, i as int));
                }
            }
        } else {
            proof {
                assert(m == suffix_latest(data@, i as int));
            }
        }
    }
    proof {
        lemma_suffix_is_latest(data@);
        assert(m =~= latest_map(data@));
        assert(latest_votes@ =~= index_from_lookup(latest_map(data@), choice_to_idx@));
    }
    latest_votes
}

/// One reverse scan producing both the latest-vote index and the per-choice
/// counts, as the tally worker's bootstrap needs them. Voters whose latest
/// record names no configured choice are seen (they block their older
/// ballots) but get no index entry and no count.
pub fn make_latest_votes_and_counts(data: &[u8], choices: &[Choice]) -> (r: (
    HashMap<u128, usize>,
    Vec<u32>,
))
    requires
        wf_choices(choices@),
        data@.len() <= 33 * 0xFFFF_FFFF,
    ensures
        r.0@ == spec_latest_index(data@, key_bytes_of(choices@)),
        r.1@.len() == choices@.len(),
        forall|i: int|
            0 <= i < choices@.len() ==> (#[trigger] r.1@[i]) == users_for(
                latest_map(data@),
                key_bytes_of(choices@),
                i,
            ).len(),
        sum_counts(r.1@) == known_users(latest_map(data@), key_bytes_of(choices@)).len(),
        forall|u: u128| #[trigger] r.0@.contains_key(u) ==> r.0@[u] < choices@.len(),
{
    let ghost keys = key_bytes_of(choices@);
    let choice_to_index = make_choices_lookup(choices);
    let mut seen_users = init_seen_hashset(data);
    let mut latest_votes = init_latest_votes_hashmap(data);
    let mut counts: Vec<u32> = Vec::new();
    let mut t: usize = 0;
    while t < choices.len()
        invariant
            0 <= t <= choices@.len(),
            counts@.len() == t,
            forall|j: int| 0 <= j < t ==> counts@[j] == 0,
        decreases choices@.len() - t,
    {
        counts.push(0);
        t = t + 1;
    }
    let data_len: usize = data.len();
    let n: usize = data_len / RECORD_SIZE;
    let rem: usize = data_len % RECORD_SIZE;
    proof {
        lemma_fundamental_div_mod(data@.len() as int, 33);
    }
    let ghost mut m: Map<u128, u8> = Map::empty();
    proof {
        assert(m =~= suffix_latest(data@, n as int));
        assert(latest_votes@ =~= index_of_map(m, keys));
        assert forall|ci: int| 0 <= ci < counts@.len() implies counts@[ci] == users_for(
            m,
            keys,
            ci,
        ).len() by {
            assert(users_for(m, keys, ci) =~= Set::<u128>::empty());
        }
        assert(known_users(m, keys) =~= Set::<u128>::empty());
        lemma_sum_zero(counts@);
    }
    let mut i: usize = n;
    while i > 0
        invariant
            wf_choices(choices@),
            keys == key_bytes_of(choices@),
            counts@.len() == choices@.len(),
            n == n_records(data@),
            rem == (data@.len() as int) % 33,
            data@.len() == rem + 33 * n,
            data@.len() == data_len,
            data@.len() <= 33 * 0xFFFF_FFFF,
            0 <= i <= n,
            forall|b: u8| #[trigger]
                choice_to_index@.contains_key(b) <==> key_index(keys, b) is Some,
            forall|b: u8| #[trigger]
                choice_to_index@.contains_key(b) ==> key_index(keys, b) == Some(
                    choice_to_index@[b] as int,
                ),
            forall|b: u8| choice_to_index@.contains_key(b) ==> choice_to_index@[b]
                < choices@.len(),
            seen_users@ == m.dom(),
            m == suffix_latest(data@, i as int),
            m.dom().finite(),
            m.dom().len() <= n - i,
            latest_votes@ == index_of_map(m, keys),
            forall|ci: int|
                0 <= ci < counts@.len() ==> (#[trigger] counts@[ci]) == users_for(
                    m,
                    keys,
                    ci,
                ).len(),
            sum_counts(counts@) == known_users(m, keys).len(),
        decreases i,
    {
        i = i - 1;
        proof {
            assert(33 * (i as int) <= 33 * (n - 1)) by (nonlinear_arith)
                requires
                    i as int <= n - 1,
            ;
            assert(rem + 33 * (i as int) + 33 <= data@.len());
        }
        let start: usize = rem + RECORD_SIZE * i;
        let rec = slice_subrange(data, start, start + RECORD_SIZE);
        proof {
            assert(rec@ =~= record_at(data@, i as int));
        }
        let ghost m_next = m;
        let is_wf = *slice_index_get(rec, 16) == 44u8 && *slice_index_get(rec, 30) == 44u8
            && *slice_index_get(rec, 32) == 10u8;
        proof {
            assert(is_wf == wf_record(record_at(data@, i as int)));
        }
        if is_wf {
            let key = user_id_hash_u128_from_bytes(slice_subrange(rec, 0, 16));
            proof {
                assert(rec@.subrange(0, 16) == record_at(data@, i as int).subrange(0, 16));
                assert(key == rec_key(record_at(data@, i as int)));
            }
            let newly_seen = seen_users.insert(key);
            if newly_seen {
                let cb = *slice_index_get(rec, 31);
                proof {
                    assert(cb == rec_choice(record_at(data@, i as int)));
                    m = m_next.insert(key, cb);
                    assert(m == suffix_latest(data@, i as int));
                    lemma_users_insert(m_next, keys, key, cb);
                    lemma_suffix_finite(data@, i + 1);
                }
                match choice_to_index.get(&cb) {
                    Some(ci_ref) => {
                        let ci: usize = *ci_ref;
                        proof {
                            assert(key_index(keys, cb) == Some(ci as int));
                            lemma_len_subset(users_for(m_next, keys, ci as int), m_next.dom());
                            lemma_sum_update(counts@, ci as int, (counts@[ci as int] + 1) as u32);
                        }
                        latest_votes.insert(key, ci);
                        proof {
                            assert(latest_votes@ =~= index_of_map(m, keys));
                        }
                        let c = counts[ci];
                        counts.set(ci, c + 1);
                    },
                    None => {
                        proof {
                            assert(key_index(keys, cb) is None);
                            assert(latest_votes@ =~= index_of_map(m, keys));
                            assert forall|ci: int| 0 <= ci < counts@.len() implies (
                            #[trigger] counts@[ci]) == users_for(m, keys, ci).len() by {
                                assert(key_index(keys, cb) != Some(ci));
                            }
                        }
                    },
                }
            } else {
                proof {
                    assert(m_next.contains_key(key));
                    assert(m == suffix_latest(data@, i as int));
                }
            }
        } else {
            proof {
                assert(m == suffix_latest(data@, i as int));
            }
        }
    }
    proof {
        lemma_suffix_is_latest(data@);
        assert(m =~= latest_map(data@));
        assert forall|u: u128| #[trigger]
            latest_votes@.contains_key(u) implies latest_votes@[u] < choices@.len() by {
            lemma_key_index_props(keys, latest_map(data@)[u]);
        }
    }
    (latest_votes, counts)
}

proof fn lemma_sum_zero(s: Seq<u32>)
    requires
        forall|j: int| 0 <= j < s.len() ==> s[j] == 0,
    ensures
        sum_counts(s) == 0,
    decreases s.len(),
{
    if s.len() == 0 {
    } else {
        lemma_sum_zero(s.drop_last());
    }
}

/// When a tally result carries exactly the counts of a vector, the two sums
/// agree.
pub proof fn lemma_sum_vote_counts_matches(r: Seq<VoteCount>, counts: Seq<u32>)
    requires
        r.len() == counts.len(),
        forall|i: int| 0 <= i < r.len() ==> (#[trigger] r[i]).count == counts[i],
    ensures
        sum_vote_counts(r) == sum_counts(counts),
    decreases r.len(),
{
    if r.len() == 0 {
    } else {
        lemma_sum_vote_counts_matches(r.drop_last(), counts.drop_last());
    }
}

} // verus!
