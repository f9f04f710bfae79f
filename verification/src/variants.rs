use vstd::prelude::*;

use crate::codec::split3;
use crate::errors::{AppError, AppResult};
use crate::models::VoteCount;
use crate::numfmt::parse_i64_spec;
use crate::scan::{find_byte, lemma_find_byte, split_bytes, trim_bytes};
use crate::text::ascii_bytes;
use vstd::slice::{slice_index_get, slice_subrange, slice_to_vec};
use vstd::string::StringExecFns as _;

verus! {

/// The three delimiters a record scanner distinguishes.
pub enum MatchChar {
    Comma1,
    Comma2,
    Newline,
}

// ------------------------------------------------------------------
// The counting table shared by the line-based tallies: choices in order
// of first appearance, each with its running count.
// ------------------------------------------------------------------

/// Position of a choice in a counting table, or the length when absent.
pub open spec fn find_count_key(cs: Seq<(Seq<u8>, int)>, key: Seq<u8>) -> int
    decreases cs.len(),
{
    if cs.len() == 0 {
        0
    } else if cs[0].0 == key {
        0
    } else {
        1 + find_count_key(cs.drop_first(), key)
    }
}

pub proof fn lemma_find_count_key(cs: Seq<(Seq<u8>, int)>, key: Seq<u8>)
    ensures
        0 <= find_count_key(cs, key) <= cs.len(),
        find_count_key(cs, key) < cs.len() ==> cs[find_count_key(cs, key)].0 == key,
        forall|j: int| 0 <= j < find_count_key(cs, key) ==> (#[trigger] cs[j]).0 != key,
    decreases cs.len(),
{
    if cs.len() == 0 {
    } else if cs[0].0 == key {
    } else {
        lemma_find_count_key(cs.drop_first(), key);
        let f = find_count_key(cs, key);
        if f < cs.len() {
            assert(cs.drop_first()[f - 1].0 == key);
        }
        assert forall|j: int| 0 <= j < f implies (#[trigger] cs[j]).0 != key by {
            if j >= 1 {
                assert(cs.drop_first()[j - 1].0 != key);
            }
        }
    }
}

pub proof fn lemma_find_count_key_unique(cs: Seq<(Seq<u8>, int)>, key: Seq<u8>, i: int)
    requires
        0 <= i <= cs.len(),
        forall|j: int| 0 <= j < i ==> (#[trigger] cs[j]).0 != key,
        i < cs.len() ==> cs[i].0 == key,
    ensures
        find_count_key(cs, key) == i,
    decreases cs.len(),
{
    if cs.len() == 0 {
    } else if i == 0 {
    } else {
        assert(cs[0].0 != key);
        assert forall|j: int| 0 <= j < i - 1 implies (#[trigger] cs.drop_first()[j]).0 != key by {
            assert(cs.drop_first()[j] == cs[j + 1]);
        }
        lemma_find_count_key_unique(cs.drop_first(), key, i - 1);
    }
}

/// Adds one vote for `key` to a counting table: an existing entry grows
/// by one, a new choice is appended with count one.
pub open spec fn bump_count(cs: Seq<(Seq<u8>, int)>, key: Seq<u8>) -> Seq<(Seq<u8>, int)> {
    let f = find_count_key(cs, key);
    if f < cs.len() {
        cs.update(f, (key, cs[f].1 + 1))
    } else {
        cs.push((key, 1))
    }
}

// ------------------------------------------------------------------
// The latest-vote table of the timestamp-comparing tally: voters in order
// of first appearance, each with the timestamp and choice of their newest
// ballot so far.
// ------------------------------------------------------------------

/// Position of a voter in the table, or the length when absent.
pub open spec fn find_voter1(s: Seq<(Seq<u8>, i64, Seq<u8>)>, key: Seq<u8>) -> int
    decreases s.len(),
{
    if s.len() == 0 {
        0
    } else if s[0].0 == key {
        0
    } else {
        1 + find_voter1(s.drop_first(), key)
    }
}

pub proof fn lemma_find_voter1_unique(s: Seq<(Seq<u8>, i64, Seq<u8>)>, key: Seq<u8>, i: int)
    requires
        0 <= i <= s.len(),
        forall|j: int| 0 <= j < i ==> (#[trigger] s[j]).0 != key,
        i < s.len() ==> s[i].0 == key,
    ensures
        find_voter1(s, key) == i,
    decreases s.len(),
{
    if s.len() == 0 {
    } else if i == 0 {
    } else {
        assert(s[0].0 != key);
        assert forall|j: int| 0 <= j < i - 1 implies (#[trigger] s.drop_first()[j]).0 != key by {
            assert(s.drop_first()[j] == s[j + 1]);
        }
        lemma_find_voter1_unique(s.drop_first(), key, i - 1);
    }
}

/// Records a parsed ballot: a strictly newer timestamp overwrites the
/// voter's entry, an unknown voter is appended, anything else is kept.
pub open spec fn upsert_latest1(
    s: Seq<(Seq<u8>, i64, Seq<u8>)>,
    key: Seq<u8>,
    ts: i64,
    choice: Seq<u8>,
) -> Seq<(Seq<u8>, i64, Seq<u8>)> {
    let f = find_voter1(s, key);
    if f < s.len() {
        if ts > s[f].1 {
            s.update(f, (key, ts, choice))
        } else {
            s
        }
    } else {
        s.push((key, ts, choice))
    }
}

/// How one line changes the table: a line that does not split into three
/// comma-separated parts is skipped, a timestamp that does not parse
/// stops the whole tally with an error, and otherwise the voter's entry
/// is updated.
pub open spec fn step01(s: Seq<(Seq<u8>, i64, Seq<u8>)>, line: Seq<u8>) -> Option<
    Seq<(Seq<u8>, i64, Seq<u8>)>,
> {
    let parts = split_bytes(trim_bytes(line), 44);
    if parts.len() != 3 {
        Some(s)
    } else {
        match parse_i64_spec(parts[1]) {
            None => None,
            Some(ts) => Some(upsert_latest1(s, parts[0], ts, parts[2])),
        }
    }
}

/// The table after every newline-separated line of the buffer.
pub open spec fn fold01(s: Option<Seq<(Seq<u8>, i64, Seq<u8>)>>, data: Seq<u8>) -> Option<
    Seq<(Seq<u8>, i64, Seq<u8>)>,
>
    decreases data.len(),
    via fold01_decreases
{
    match s {
        None => None,
        Some(st) => {
            let f = find_byte(data, 10);
            if f >= data.len() {
                step01(st, data)
            } else {
                fold01(step01(st, data.subrange(0, f)), data.subrange(f + 1, data.len() as int))
            }
        },
    }
}

#[via_fn]
proof fn fold01_decreases(s: Option<Seq<(Seq<u8>, i64, Seq<u8>)>>, data: Seq<u8>) {
    lemma_find_byte(data, 10);
}

// ------------------------------------------------------------------
// Executable table representations and their views.
// ------------------------------------------------------------------

pub open spec fn table1_view(v: Seq<(Vec<u8>, i64, Vec<u8>)>) -> Seq<(Seq<u8>, i64, Seq<u8>)> {
    v.map(|i: int, e: (Vec<u8>, i64, Vec<u8>)| (e.0@, e.1, e.2@))
}

pub open spec fn counts_table_view(v: Seq<(Vec<u8>, u32)>) -> Seq<(Seq<u8>, int)> {
    v.map(|i: int, e: (Vec<u8>, u32)| (e.0@, e.1 as int))
}

/// Byte-for-byte equality of two slices.
fn bytes_eq(a: &[u8], b: &[u8]) -> (r: bool)
    ensures
        r == (a@ == b@),
{
    if a.len() != b.len() {
        proof {
            if a@ == b@ {
                assert(a@.len() == b@.len());
            }
        }
        return false;
    }
    let mut i: usize = 0;
    while i < a.len()
        invariant
            a@.len() == b@.len(),
            0 <= i <= a@.len(),
            forall|j: int| 0 <= j < i ==> a@[j] == b@[j],
        decreases a@.len() - i,
    {
        if *slice_index_get(a, i) != *slice_index_get(b, i) {
            return false;
        }
        i = i + 1;
    }
    proof {
        assert(a@ =~= b@);
    }
    true
}

/// The position of a voter in the executable table, as `find_voter1`
/// determines it.
fn find_voter1_exec(latest: &Vec<(Vec<u8>, i64, Vec<u8>)>, key: &[u8]) -> (r: usize)
    ensures
        r <= latest@.len(),
        r as int == find_voter1(table1_view(latest@), key@),
{
    let ghost view = table1_view(latest@);
    let mut i: usize = 0;
    while i < latest.len()
        invariant
            view == table1_view(latest@),
            0 <= i <= latest@.len(),
            view.len() == latest@.len(),
            forall|j: int| 0 <= j < i ==> (#[trigger] view[j]).0 != key@,
        decreases latest@.len() - i,
    {
        if bytes_eq(latest[i].0.as_slice(), key) {
            proof {
                assert(view[i as int].0 == key@);
                lemma_find_voter1_unique(view, key@, i as int);
            }
            return i;
        }
        proof {
            assert(view[i as int].0 == latest@[i as int].0@);
        }
        i = i + 1;
    }
    proof {
        lemma_find_voter1_unique(view, key@, latest@.len() as int);
    }
    latest.len()
}

/// The position of a choice in the executable counting table, as
/// `find_count_key` determines it.
fn find_count_key_exec(cs: &Vec<(Vec<u8>, u32)>, key: &[u8]) -> (r: usize)
    ensures
        r <= cs@.len(),
        r as int == find_count_key(counts_table_view(cs@), key@),
{
    let ghost view = counts_table_view(cs@);
    let mut i: usize = 0;
    while i < cs.len()
        invariant
            view == counts_table_view(cs@),
            0 <= i <= cs@.len(),
            view.len() == cs@.len(),
            forall|j: int| 0 <= j < i ==> (#[trigger] view[j]).0 != key@,
        decreases cs@.len() - i,
    {
        if bytes_eq(cs[i].0.as_slice(), key) {
            proof {
                assert(view[i as int].0 == key@);
                lemma_find_count_key_unique(view, key@, i as int);
            }
            return i;
        }
        proof {
            assert(view[i as int].0 == cs@[i as int].0@);
        }
        i = i + 1;
    }
    proof {
        lemma_find_count_key_unique(view, key@, cs@.len() as int);
    }
    cs.len()
}

/// The choice strings of a latest-vote table, in table order.
pub open spec fn choices_of1(s: Seq<(Seq<u8>, i64, Seq<u8>)>) -> Seq<Seq<u8>> {
    s.map(|i: int, e: (Seq<u8>, i64, Seq<u8>)| e.2)
}

/// The counting table over the first `i` choice strings.
pub open spec fn counts_over(keys: Seq<Seq<u8>>, i: int) -> Seq<(Seq<u8>, int)>
    decreases i,
{
    if i <= 0 {
        Seq::<(Seq<u8>, int)>::empty()
    } else {
        bump_count(counts_over(keys, i - 1), keys[i - 1])
    }
}

pub open spec fn vecs_view(v: Seq<Vec<u8>>) -> Seq<Seq<u8>> {
    v.map(|i: int, e: Vec<u8>| e@)
}

/// Tallies a list of choice strings: each distinct string gets one entry,
/// in order of first appearance, counting its occurrences.
fn tally_choice_strings(keys: &Vec<Vec<u8>>) -> (r: Vec<VoteCount>)
    requires
        keys@.len() < 0xFFFF_FFFF,
        forall|j: int| 0 <= j < keys@.len() ==> ascii_bytes((#[trigger] keys@[j])@),
    ensures
        ({
            let cs = counts_over(vecs_view(keys@), keys@.len() as int);
            &&& r@.len() == cs.len()
            &&& forall|i: int|
                0 <= i < cs.len() ==> crate::text::bytes_of((#[trigger] r@[i]).choice@) == cs[i].0
                    && r@[i].count == cs[i].1
            &&& forall|i: int|
                0 <= i < r@.len() ==> vstd::utf8::is_ascii_chars((#[trigger] r@[i]).choice@)
        }),
{
    let ghost kview = vecs_view(keys@);
    let mut counts: Vec<(Vec<u8>, u32)> = Vec::new();
    let mut i: usize = 0;
    while i < keys.len()
        invariant
            kview == vecs_view(keys@),
            kview.len() == keys@.len(),
            keys@.len() < 0xFFFF_FFFF,
            forall|j: int| 0 <= j < keys@.len() ==> ascii_bytes((#[trigger] keys@[j])@),
            0 <= i <= keys@.len(),
            counts_table_view(counts@) == counts_over(kview, i as int),
            counts@.len() <= i,
            forall|j: int|
                0 <= j < counts@.len() ==> (#[trigger] counts_table_view(counts@)[j]).1 <= i,
            forall|j: int| 0 <= j < counts@.len() ==> ascii_bytes((#[trigger] counts@[j]).0@),
        decreases keys@.len() - i,
    {
        let ghost cview = counts_table_view(counts@);
        let key = keys[i].as_slice();
        proof {
            assert(kview[i as int] == keys@[i as int]@);
        }
        let f = find_count_key_exec(&counts, key);
        if f < counts.len() {
            let c = counts[f].1;
            proof {
                lemma_find_count_key(cview, key@);
                assert(cview[f as int] == (counts@[f as int].0@, counts@[f as int].1 as int));
                assert(cview[f as int].1 <= i);
                assert(cview[f as int].0 == key@);
            }
            let k2 = slice_to_vec(counts[f].0.as_slice());
            counts.set(f, (k2, c + 1));
            proof {
                assert(counts_table_view(counts@) =~= cview.update(f as int, (key@, c + 1)));
                assert(counts_table_view(counts@) == bump_count(cview, kview[i as int]));
            }
        } else {
            counts.push((slice_to_vec(key), 1));
            proof {
                assert(counts_table_view(counts@) =~= cview.push((key@, 1)));
                assert(counts_table_view(counts@) == bump_count(cview, kview[i as int]));
            }
        }
        i = i + 1;
    }
    let mut out: Vec<VoteCount> = Vec::new();
    let mut j: usize = 0;
    while j < counts.len()
        invariant
            0 <= j <= counts@.len(),
            out@.len() == j,
            forall|p: int| 0 <= p < counts@.len() ==> ascii_bytes((#[trigger] counts@[p]).0@),
            forall|p: int|
                0 <= p < j ==> crate::text::bytes_of((#[trigger] out@[p]).choice@)
                    == counts_table_view(counts@)[p].0 && out@[p].count as int
                    == counts_table_view(counts@)[p].1,
            forall|p: int| 0 <= p < j ==> vstd::utf8::is_ascii_chars((#[trigger] out@[p]).choice@),
        decreases counts@.len() - j,
    {
        let name = crate::text::ascii_to_string(slice_to_vec(counts[j].0.as_slice()));
        proof {
            crate::text::lemma_ascii_to_string_bytes(counts@[j as int].0@, name@);
        }
        let entry = VoteCount { choice: name, count: counts[j].1 };
        out.push(entry);
        j = j + 1;
    }
    proof {
        assert(counts_table_view(counts@).len() == counts@.len());
    }
    out
}

/// Tallies the count ledger by parsing it line by line: each line is
/// trimmed and split at commas into hash, timestamp and choice; malformed
/// lines are skipped; a timestamp that does not parse is an error; for
/// each voter the ballot with the greatest timestamp wins; the result
/// counts the distinct latest choices in order of first appearance.
#[verifier::rlimit(60)]
pub fn count_votes_01(data: &[u8]) -> (r: AppResult<Vec<VoteCount>>)
    requires
        ascii_bytes(data@),
        data@.len() < 0xFFFF_0000,
    ensures
        r is Ok <==> fold01(Some(Seq::<(Seq<u8>, i64, Seq<u8>)>::empty()), data@) is Some,
        r is Err ==> r->Err_0.is_internal(),
        r is Ok ==> ({
            let latest = fold01(Some(Seq::<(Seq<u8>, i64, Seq<u8>)>::empty()), data@)->Some_0;
            let cs = counts_over(choices_of1(latest), latest.len() as int);
            &&& r->Ok_0@.len() == cs.len()
            &&& forall|i: int|
                0 <= i < cs.len() ==> crate::text::bytes_of((#[trigger] r->Ok_0@[i]).choice@)
                    == cs[i].0 && r->Ok_0@[i].count == cs[i].1
        }),
{
    let ghost goal = fold01(Some(Seq::<(Seq<u8>, i64, Seq<u8>)>::empty()), data@);
    let mut latest: Vec<(Vec<u8>, i64, Vec<u8>)> = Vec::new();
    let data_len: usize = data.len();
    let mut pos: usize = 0;
    proof {
        assert(data@.subrange(0, data@.len() as int) =~= data@);
        assert(table1_view(latest@) =~= Seq::<(Seq<u8>, i64, Seq<u8>)>::empty());
    }
    while pos <= data_len
        invariant
            ascii_bytes(data@),
            data@.len() < 0xFFFF_0000,
            data@.len() == data_len,
            goal == fold01(Some(Seq::<(Seq<u8>, i64, Seq<u8>)>::empty()), data@),
            0 <= pos <= data@.len() + 1,
            pos <= data@.len() ==> fold01(
                Some(table1_view(latest@)),
                data@.subrange(pos as int, data@.len() as int),
            ) == goal,
            pos == data@.len() + 1 ==> Some(table1_view(latest@)) == goal,
            latest@.len() <= pos + 1,
            forall|j: int|
                0 <= j < latest@.len() ==> ascii_bytes((#[trigger] table1_view(latest@)[j]).2),
        decreases data@.len() + 1 - pos,
    {
        let ghost cur = table1_view(latest@);
        let ghost suffix = data@.subrange(pos as int, data@.len() as int);
        let nl = crate::scan::find_from(data, pos, 10);
        let line = slice_subrange(data, pos, nl);
        proof {
            assert forall|j: int| 0 <= j < nl - pos implies suffix[j] != 10 by {
                assert(suffix[j] == data@[pos + j]);
            }
            if (nl as int) < data@.len() {
                assert(suffix[nl - pos] == data@[nl as int]);
            }
            crate::scan::lemma_find_byte_unique(suffix, 10, nl - pos);
            assert(line@ =~= suffix.subrange(0, nl - pos));
            assert forall|j: int| 0 <= j < line@.len() implies #[trigger] line@[j] < 128 by {
                assert(line@[j] == data@[pos + j]);
            }
        }
        let ghost stepped = step01(cur, line@);
        let (lo, hi) = crate::scan::trim_range(line);
        let mut failed: bool = false;
        if lo < hi {
            let t = slice_subrange(line, lo, hi);
            proof {
                assert(t@ =~= trim_bytes(line@));
                assert forall|j: int| 0 <= j < t@.len() implies #[trigger] t@[j] < 128 by {
                    assert(t@[j] == line@[lo + j]);
                }
            }
            match split3(t) {
                None => {
                    proof {
                        assert(stepped == Some(cur));
                    }
                },
                Some(cs) => {
                    let (c1, c2) = cs;
                    let p1 = slice_subrange(t, c1 + 1, c2);
                    match crate::numfmt::parse_i64(p1) {
                        None => {
                            proof {
                                assert(stepped is None);
                            }
                            failed = true;
                        },
                        Some(ts) => {
                            let key = slice_subrange(t, 0, c1);
                            let choice = slice_subrange(t, c2 + 1, t.len());
                            proof {
                                assert forall|j: int|
                                    0 <= j < choice@.len() implies #[trigger] choice@[j]
                                    < 128 by {
                                    assert(choice@[j] == t@[c2 + 1 + j]);
                                }
                            }
                            let f = find_voter1_exec(&latest, key);
                            if f < latest.len() {
                                let prev_ts = latest[f].1;
                                if ts > prev_ts {
                                    let entry = (slice_to_vec(key), ts, slice_to_vec(choice));
                                    latest.set(f, entry);
                                    proof {
                                        assert(table1_view(latest@) =~= cur.update(
                                            f as int,
                                            (key@, ts, choice@),
                                        ));
                                    }
                                } else {
                                    proof {
                                        assert(cur[f as int].1 == prev_ts);
                                    }
                                }
                            } else {
                                latest.push((slice_to_vec(key), ts, slice_to_vec(choice)));
                                proof {
                                    assert(table1_view(latest@) =~= cur.push((key@, ts, choice@)));
                                }
                            }
                            proof {
                                assert(stepped == Some(
                                    upsert_latest1(cur, key@, ts, choice@),
                                ));
                                assert(Some(table1_view(latest@)) == stepped);
                            }
                        },
                    }
                },
            }
        } else {
            proof {
                assert(trim_bytes(line@) =~= Seq::<u8>::empty());
                crate::scan::lemma_split_no_delim(trim_bytes(line@), 44);
                assert(stepped == Some(cur));
            }
        }
        if failed {
            proof {
                if (nl as int) < data@.len() {
                    assert(fold01(Some(cur), suffix) == fold01(
                        stepped,
                        suffix.subrange(nl - pos + 1, suffix.len() as int),
                    ));
                    assert(fold01(
                        stepped,
                        suffix.subrange(nl - pos + 1, suffix.len() as int),
                    ) is None);
                } else {
                    assert(suffix =~= line@);
                    assert(fold01(Some(cur), suffix) == stepped);
                }
                assert(goal is None);
            }
            return Err(
                AppError::InternalError {
                    title: String::from_str("I/O error"),
                    message: String::from_str("a count-ledger timestamp does not parse"),
                },
            );
        }
        proof {
            assert(Some(table1_view(latest@)) == stepped);
            if (nl as int) < data@.len() {
                assert(fold01(Some(cur), suffix) == fold01(
                    stepped,
                    suffix.subrange(nl - pos + 1, suffix.len() as int),
                ));
                assert(suffix.subrange(nl - pos + 1, suffix.len() as int) =~= data@.subrange(
                    nl as int + 1,
                    data@.len() as int,
                ));
            } else {
                assert(suffix =~= line@);
                assert(fold01(Some(cur), suffix) == stepped);
            }
        }
        if nl == data_len {
            pos = data_len + 1;
        } else {
            pos = nl + 1;
        }
    }
    let mut chkeys: Vec<Vec<u8>> = Vec::new();
    let mut i: usize = 0;
    while i < latest.len()
        invariant
            0 <= i <= latest@.len(),
            chkeys@.len() == i,
            forall|j: int|
                0 <= j < latest@.len() ==> ascii_bytes((#[trigger] table1_view(latest@)[j]).2),
            forall|j: int|
                0 <= j < i ==> (#[trigger] vecs_view(chkeys@)[j]) == choices_of1(
                    table1_view(latest@),
                )[j],
            latest@.len() < 0xFFFF_FFFF,
        decreases latest@.len() - i,
    {
        let ghost ck_old = chkeys@;
        let c = slice_to_vec(latest[i].2.as_slice());
        chkeys.push(c);
        proof {
            assert forall|j: int|
                0 <= j < i + 1 implies (#[trigger] vecs_view(chkeys@)[j]) == choices_of1(
                table1_view(latest@),
            )[j] by {
                assert(vecs_view(chkeys@)[j] == chkeys@[j]@);
                if j < i {
                    assert(chkeys@[j] == ck_old[j]);
                    assert(vecs_view(ck_old)[j] == ck_old[j]@);
                } else {
                    assert(chkeys@[j]@ == latest@[i as int].2@);
                    assert(choices_of1(table1_view(latest@))[j] == table1_view(latest@)[j].2);
                    assert(table1_view(latest@)[j].2 == latest@[j].2@);
                }
            }
        }
        i = i + 1;
    }
    proof {
        assert(vecs_view(chkeys@) =~= choices_of1(table1_view(latest@)));
        assert forall|j: int| 0 <= j < chkeys@.len() implies ascii_bytes(
            (#[trigger] chkeys@[j])@,
        ) by {
            assert(vecs_view(chkeys@)[j] == chkeys@[j]@);
            assert(ascii_bytes(table1_view(latest@)[j].2));
        }
    }
    let result = tally_choice_strings(&chkeys);
    Ok(result)
}

// ------------------------------------------------------------------
// The overwrite tally: no timestamps, append order wins, and the choice
// is everything after the second comma.
// ------------------------------------------------------------------

/// Position of a voter in the overwrite table, or the length when absent.
pub open spec fn find_voter3(s: Seq<(Seq<u8>, Seq<u8>)>, key: Seq<u8>) -> int
    decreases s.len(),
{
    if s.len() == 0 {
        0
    } else if s[0].0 == key {
        0
    } else {
        1 + find_voter3(s.drop_first(), key)
    }
}

pub proof fn lemma_find_voter3_unique(s: Seq<(Seq<u8>, Seq<u8>)>, key: Seq<u8>, i: int)
    requires
        0 <= i <= s.len(),
        forall|j: int| 0 <= j < i ==> (#[trigger] s[j]).0 != key,
        i < s.len() ==> s[i].0 == key,
    ensures
        find_voter3(s, key) == i,
    decreases s.len(),
{
    if s.len() == 0 {
    } else if i == 0 {
    } else {
        assert(s[0].0 != key);
        assert forall|j: int| 0 <= j < i - 1 implies (#[trigger] s.drop_first()[j]).0 != key by {
            assert(s.drop_first()[j] == s[j + 1]);
        }
        lemma_find_voter3_unique(s.drop_first(), key, i - 1);
    }
}

/// Records a ballot with append order winning: the voter's entry is
/// overwritten, or appended for a new voter.
pub open spec fn upsert_latest3(s: Seq<(Seq<u8>, Seq<u8>)>, key: Seq<u8>, choice: Seq<u8>) -> Seq<
    (Seq<u8>, Seq<u8>),
> {
    let f = find_voter3(s, key);
    if f < s.len() {
        s.update(f, (key, choice))
    } else {
        s.push((key, choice))
    }
}

/// How one line changes the overwrite table: a trimmed line with fewer
/// than two commas is skipped; otherwise the text before the first comma
/// is the voter and everything after the second comma is the choice.
pub open spec fn step03(s: Seq<(Seq<u8>, Seq<u8>)>, line: Seq<u8>) -> Seq<(Seq<u8>, Seq<u8>)> {
    let t = trim_bytes(line);
    let c1 = find_byte(t, 44);
    if c1 >= t.len() {
        s
    } else {
        let rest = t.subrange(c1 + 1, t.len() as int);
        let c2 = find_byte(rest, 44);
        if c2 >= rest.len() {
            s
        } else {
            upsert_latest3(s, t.subrange(0, c1), rest.subrange(c2 + 1, rest.len() as int))
        }
    }
}

/// The overwrite table after every newline-separated line of the buffer.
pub open spec fn fold03(s: Seq<(Seq<u8>, Seq<u8>)>, data: Seq<u8>) -> Seq<(Seq<u8>, Seq<u8>)>
    decreases data.len(),
    via fold03_decreases
{
    let f = find_byte(data, 10);
    if f >= data.len() {
        step03(s, data)
    } else {
        fold03(step03(s, data.subrange(0, f)), data.subrange(f + 1, data.len() as int))
    }
}

#[via_fn]
proof fn fold03_decreases(s: Seq<(Seq<u8>, Seq<u8>)>, data: Seq<u8>) {
    lemma_find_byte(data, 10);
}

/// The choice strings of an overwrite table, in table order.
pub open spec fn choices_of3(s: Seq<(Seq<u8>, Seq<u8>)>) -> Seq<Seq<u8>> {
    s.map(|i: int, e: (Seq<u8>, Seq<u8>)| e.1)
}

pub open spec fn table3_view(v: Seq<(Vec<u8>, Vec<u8>)>) -> Seq<(Seq<u8>, Seq<u8>)> {
    v.map(|i: int, e: (Vec<u8>, Vec<u8>)| (e.0@, e.1@))
}

/// The position of a voter in the executable overwrite table, as
/// `find_voter3` determines it.
fn find_voter3_exec(latest: &Vec<(Vec<u8>, Vec<u8>)>, key: &[u8]) -> (r: usize)
    ensures
        r <= latest@.len(),
        r as int == find_voter3(table3_view(latest@), key@),
{
    let ghost view = table3_view(latest@);
    let mut i: usize = 0;
    while i < latest.len()
        invariant
            view == table3_view(latest@),
            0 <= i <= latest@.len(),
            view.len() == latest@.len(),
            forall|j: int| 0 <= j < i ==> (#[trigger] view[j]).0 != key@,
        decreases latest@.len() - i,
    {
        if bytes_eq(latest[i].0.as_slice(), key) {
            proof {
                assert(view[i as int].0 == key@);
                lemma_find_voter3_unique(view, key@, i as int);
            }
            return i;
        }
        proof {
            assert(view[i as int].0 == latest@[i as int].0@);
        }
        i = i + 1;
    }
    proof {
        lemma_find_voter3_unique(view, key@, latest@.len() as int);
    }
    latest.len()
}

/// Tallies the count ledger with append order winning: each line is
/// trimmed; lines with fewer than two commas are skipped; the text before
/// the first comma identifies the voter and everything after the second
/// comma is the choice; a voter's later line overwrites an earlier one;
/// the result counts the distinct latest choices in order of first
/// appearance.
#[verifier::rlimit(60)]
pub fn count_votes_03(data: &[u8]) -> (r: AppResult<Vec<VoteCount>>)
    requires
        ascii_bytes(data@),
        data@.len() < 0xFFFF_0000,
    ensures
        r is Ok,
        ({
            let latest = fold03(Seq::<(Seq<u8>, Seq<u8>)>::empty(), data@);
            let cs = counts_over(choices_of3(latest), latest.len() as int);
            &&& r->Ok_0@.len() == cs.len()
            &&& forall|i: int|
                0 <= i < cs.len() ==> crate::text::bytes_of((#[trigger] r->Ok_0@[i]).choice@)
                    == cs[i].0 && r->Ok_0@[i].count == cs[i].1
        }),
{
    let ghost goal = fold03(Seq::<(Seq<u8>, Seq<u8>)>::empty(), data@);
    let mut latest: Vec<(Vec<u8>, Vec<u8>)> = Vec::new();
    let data_len: usize = data.len();
    let mut pos: usize = 0;
    proof {
        assert(data@.subrange(0, data@.len() as int) =~= data@);
        assert(table3_view(latest@) =~= Seq::<(Seq<u8>, Seq<u8>)>::empty());
    }
    while pos <= data_len
        invariant
            ascii_bytes(data@),
            data@.len() < 0xFFFF_0000,
            data@.len() == data_len,
            goal == fold03(Seq::<(Seq<u8>, Seq<u8>)>::empty(), data@),
            0 <= pos <= data@.len() + 1,
            pos <= data@.len() ==> fold03(
                table3_view(latest@),
                data@.subrange(pos as int, data@.len() as int),
            ) == goal,
            pos == data@.len() + 1 ==> table3_view(latest@) == goal,
            latest@.len() <= pos + 1,
            forall|j: int|
                0 <= j < latest@.len() ==> ascii_bytes((#[trigger] table3_view(latest@)[j]).1),
        decreases data@.len() + 1 - pos,
    {
        let ghost cur = table3_view(latest@);
        let ghost suffix = data@.subrange(pos as int, data@.len() as int);
        let nl = crate::scan::find_from(data, pos, 10);
        let line = slice_subrange(data, pos, nl);
        proof {
            assert forall|j: int| 0 <= j < nl - pos implies suffix[j] != 10 by {
                assert(suffix[j] == data@[pos + j]);
            }
            if (nl as int) < data@.len() {
                assert(suffix[nl - pos] == data@[nl as int]);
            }
            crate::scan::lemma_find_byte_unique(suffix, 10, nl - pos);
            assert(line@ =~= suffix.subrange(0, nl - pos));
            assert forall|j: int| 0 <= j < line@.len() implies #[trigger] line@[j] < 128 by {
                assert(line@[j] == data@[pos + j]);
            }
        }
        let ghost stepped = step03(cur, line@);
        let (lo, hi) = crate::scan::trim_range(line);
        if lo < hi {
            let t = slice_subrange(line, lo, hi);
            proof {
                assert(t@ =~= trim_bytes(line@));
                assert forall|j: int| 0 <= j < t@.len() implies #[trigger] t@[j] < 128 by {
                    assert(t@[j] == line@[lo + j]);
                }
            }
            let tlen = t.len();
            let c1 = crate::scan::find_from(t, 0, 44);
            if c1 < tlen {
                proof {
                    crate::scan::lemma_find_byte_unique(t@, 44, c1 as int);
                }
                let ghost rest = t@.subrange(c1 as int + 1, tlen as int);
                let c2 = crate::scan::find_from(t, c1 + 1, 44);
                if c2 < tlen {
                    proof {
                        assert forall|j: int| 0 <= j < c2 - c1 - 1 implies rest[j] != 44 by {
                            assert(rest[j] == t@[c1 + 1 + j]);
                        }
                        assert(rest[c2 - c1 - 1] == t@[c2 as int]);
                        crate::scan::lemma_find_byte_unique(rest, 44, c2 - c1 - 1);
                    }
                    let key = slice_subrange(t, 0, c1);
                    let choice = slice_subrange(t, c2 + 1, tlen);
                    proof {
                        assert(choice@ =~= rest.subrange(c2 - c1 - 1 + 1, rest.len() as int));
                        assert forall|j: int|
                            0 <= j < choice@.len() implies #[trigger] choice@[j] < 128 by {
                            assert(choice@[j] == t@[c2 + 1 + j]);
                        }
                    }
                    let f = find_voter3_exec(&latest, key);
                    if f < latest.len() {
                        let entry = (slice_to_vec(key), slice_to_vec(choice));
                        latest.set(f, entry);
                        proof {
                            assert(table3_view(latest@) =~= cur.update(
                                f as int,
                                (key@, choice@),
                            ));
                        }
                    } else {
                        latest.push((slice_to_vec(key), slice_to_vec(choice)));
                        proof {
                            assert(table3_view(latest@) =~= cur.push((key@, choice@)));
                        }
                    }
                    proof {
                        assert(stepped == upsert_latest3(cur, key@, choice@));
                        assert(table3_view(latest@) == stepped);
                    }
                } else {
                    proof {
                        assert forall|j: int| 0 <= j < rest.len() implies rest[j] != 44 by {
                            assert(rest[j] == t@[c1 + 1 + j]);
                        }
                        crate::scan::lemma_find_byte_unique(rest, 44, rest.len() as int);
                        assert(stepped == cur);
                    }
                }
            } else {
                proof {
                    crate::scan::lemma_find_byte_unique(t@, 44, t@.len() as int);
                    assert(stepped == cur);
                }
            }
        } else {
            proof {
                assert(trim_bytes(line@) =~= Seq::<u8>::empty());
                assert(stepped == cur);
            }
        }
        proof {
            assert(table3_view(latest@) == stepped);
            if (nl as int) < data@.len() {
                assert(fold03(cur, suffix) == fold03(
                    stepped,
                    suffix.subrange(nl - pos + 1, suffix.len() as int),
                ));
                assert(suffix.subrange(nl - pos + 1, suffix.len() as int) =~= data@.subrange(
                    nl as int + 1,
                    data@.len() as int,
                ));
            } else {
                assert(suffix =~= line@);
                assert(fold03(cur, suffix) == stepped);
            }
        }
        if nl == data_len {
            pos = data_len + 1;
        } else {
            pos = nl + 1;
        }
    }
    let mut chkeys: Vec<Vec<u8>> = Vec::new();
    let mut i: usize = 0;
    while i < latest.len()
        invariant
            0 <= i <= latest@.len(),
            chkeys@.len() == i,
            forall|j: int|
                0 <= j < latest@.len() ==> ascii_bytes((#[trigger] table3_view(latest@)[j]).1),
            forall|j: int|
                0 <= j < i ==> (#[trigger] vecs_view(chkeys@)[j]) == choices_of3(
                    table3_view(latest@),
                )[j],
            latest@.len() < 0xFFFF_FFFF,
        decreases latest@.len() - i,
    {
        let ghost ck_old = chkeys@;
        let c = slice_to_vec(latest[i].1.as_slice());
        chkeys.push(c);
        proof {
            assert forall|j: int|
                0 <= j < i + 1 implies (#[trigger] vecs_view(chkeys@)[j]) == choices_of3(
                table3_view(latest@),
            )[j] by {
                assert(vecs_view(chkeys@)[j] == chkeys@[j]@);
                if j < i {
                    assert(chkeys@[j] == ck_old[j]);
                    assert(vecs_view(ck_old)[j] == ck_old[j]@);
                } else {
                    assert(chkeys@[j]@ == latest@[i as int].1@);
                    assert(choices_of3(table3_view(latest@))[j] == table3_view(latest@)[j].1);
                    assert(table3_view(latest@)[j].1 == latest@[j].1@);
                }
            }
        }
        i = i + 1;
    }
    proof {
        assert(vecs_view(chkeys@) =~= choices_of3(table3_view(latest@)));
        assert forall|j: int| 0 <= j < chkeys@.len() implies ascii_bytes(
            (#[trigger] chkeys@[j])@,
        ) by {
            assert(vecs_view(chkeys@)[j] == chkeys@[j]@);
            assert(ascii_bytes(table3_view(latest@)[j].1));
        }
    }
    let result = tally_choice_strings(&chkeys);
    Ok(result)
}

} // verus!
