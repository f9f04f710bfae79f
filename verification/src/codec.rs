use vstd::prelude::*;

use crate::models::Ballot;
use crate::numfmt::{dec_digits, dec_int_bytes, fmt_i64, lemma_dec_digits_wf, parse_i64,
    parse_i64_spec};
use crate::scan::{find_byte, is_ascii_ws, lemma_find_byte_unique, lemma_first_non_ws_unique,
    lemma_last_non_ws_end_unique, lemma_split_no_delim, lemma_split_prepend, split_bytes,
    trim_bytes, trim_range, find_from};
use crate::text::{ascii_bytes, ascii_to_string, bytes_of, lemma_ascii_chars_bytes};
use vstd::slice::{slice_index_get, slice_subrange, slice_to_vec};

verus! {

/// One record a voter can check against the public verification ledger.
#[derive(Clone)]
pub struct CLVote {
    pub user_id_hash: String,
    pub timestamp: i64,
    pub choice: String,
}

/// The pair of ledger lines written for one accepted ballot: one line for
/// the verification ledger and one for the count ledger.
pub struct VLCLMessage {
    pub vl_data: Vec<u8>,
    pub cl_data: Vec<u8>,
}

/// The canonical count-ledger line of a ballot:
/// `user-id-hash,timestamp,choice` and a newline.
pub open spec fn cl_line_bytes(b: Ballot) -> Seq<u8> {
    bytes_of(b.user_id_hash@) + seq![44u8] + dec_int_bytes(b.timestamp as int) + seq![44u8]
        + bytes_of(b.choice@) + seq![10u8]
}

/// The verification-ledger line of a ballot: `vote-id,choice` and a newline.
pub open spec fn vl_line_bytes(b: Ballot) -> Seq<u8> {
    bytes_of(b.vote_id@) + seq![44u8] + bytes_of(b.choice@) + seq![10u8]
}

/// Appends the bytes of an ASCII string.
fn push_ascii_str(out: &mut Vec<u8>, s: &str)
    requires
        vstd::utf8::is_ascii_chars(s@),
    ensures
        final(out)@ == old(out)@ + bytes_of(s@),
{
    proof {
        lemma_ascii_chars_bytes(s@);
    }
    let bs: &[u8] = s.as_bytes();
    let mut i: usize = 0;
    while i < bs.len()
        invariant
            bs@ == bytes_of(s@),
            0 <= i <= bs@.len(),
            out@ == old(out)@ + bs@.subrange(0, i as int),
        decreases bs@.len() - i,
    {
        let b = *slice_index_get(bs, i);
        out.push(b);
        i = i + 1;
        proof {
            assert(bs@.subrange(0, i as int) =~= bs@.subrange(0, i - 1).push(bs@[i - 1]));
            assert(out@ =~= old(out)@ + bs@.subrange(0, i as int));
        }
    }
    proof {
        assert(bs@.subrange(0, bs@.len() as int) =~= bs@);
    }
}

/// Appends all bytes of a vector.
fn push_all(out: &mut Vec<u8>, bytes: &Vec<u8>)
    ensures
        final(out)@ == old(out)@ + bytes@,
{
    let mut i: usize = 0;
    while i < bytes.len()
        invariant
            0 <= i <= bytes@.len(),
            out@ == old(out)@ + bytes@.subrange(0, i as int),
        decreases bytes@.len() - i,
    {
        let b = bytes[i];
        out.push(b);
        i = i + 1;
        proof {
            assert(bytes@.subrange(0, i as int) =~= bytes@.subrange(0, i - 1).push(
                bytes@[i - 1],
            ));
            assert(out@ =~= old(out)@ + bytes@.subrange(0, i as int));
        }
    }
    proof {
        assert(bytes@.subrange(0, bytes@.len() as int) =~= bytes@);
    }
}

/// The count-ledger line of a ballot, as bytes.
pub fn ballot_cl_bytes(b: &Ballot) -> (r: Vec<u8>)
    requires
        b.wf(),
    ensures
        r@ == cl_line_bytes(*b),
{
    let mut out: Vec<u8> = Vec::new();
    push_ascii_str(&mut out, b.user_id_hash.as_str());
    out.push(44u8);
    let ts = fmt_i64(b.timestamp);
    push_all(&mut out, &ts);
    out.push(44u8);
    push_ascii_str(&mut out, b.choice.as_str());
    out.push(10u8);
    proof {
        assert(out@ =~= cl_line_bytes(*b));
    }
    out
}

/// The verification-ledger line of a ballot, as bytes.
pub fn ballot_vl_bytes(b: &Ballot) -> (r: Vec<u8>)
    requires
        b.wf(),
    ensures
        r@ == vl_line_bytes(*b),
{
    let mut out: Vec<u8> = Vec::new();
    push_ascii_str(&mut out, b.vote_id.as_str());
    out.push(44u8);
    push_ascii_str(&mut out, b.choice.as_str());
    out.push(10u8);
    proof {
        assert(out@ =~= vl_line_bytes(*b));
    }
    out
}

/// Every byte of a ballot's ledger lines is ASCII.
pub proof fn lemma_line_bytes_ascii(b: Ballot)
    requires
        b.wf(),
    ensures
        ascii_bytes(cl_line_bytes(b)),
        ascii_bytes(vl_line_bytes(b)),
{
    lemma_ascii_chars_bytes(b.user_id_hash@);
    lemma_ascii_chars_bytes(b.vote_id@);
    lemma_ascii_chars_bytes(b.choice@);
    if b.timestamp < 0 {
        lemma_dec_digits_wf(-(b.timestamp as int));
    } else {
        lemma_dec_digits_wf(b.timestamp as int);
    }
}

impl Ballot {
    /// Renders the ballot as its count-ledger line.
    pub fn to_cl_line(&self) -> (r: String)
        requires
            self.wf(),
        ensures
            bytes_of(r@) == cl_line_bytes(*self),
            vstd::utf8::is_ascii_chars(r@),
    {
        let bytes = ballot_cl_bytes(self);
        proof {
            lemma_line_bytes_ascii(*self);
        }
        let s = ascii_to_string(bytes);
        proof {
            crate::text::lemma_ascii_to_string_bytes(cl_line_bytes(*self), s@);
        }
        s
    }

    /// Renders the ballot as its verification-ledger line.
    pub fn to_vl_line(&self) -> (r: String)
        requires
            self.wf(),
        ensures
            bytes_of(r@) == vl_line_bytes(*self),
            vstd::utf8::is_ascii_chars(r@),
    {
        let bytes = ballot_vl_bytes(self);
        proof {
            lemma_line_bytes_ascii(*self);
        }
        let s = ascii_to_string(bytes);
        proof {
            crate::text::lemma_ascii_to_string_bytes(vl_line_bytes(*self), s@);
        }
        s
    }
}

impl VLCLMessage {
    /// The two ledger lines of one ballot, ready for the ledger writer.
    pub fn from_ballot(b: &Ballot) -> (r: VLCLMessage)
        requires
            b.wf(),
        ensures
            r.cl_data@ == cl_line_bytes(*b),
            r.vl_data@ == vl_line_bytes(*b),
    {
        VLCLMessage { vl_data: ballot_vl_bytes(b), cl_data: ballot_cl_bytes(b) }
    }
}

/// What parsing a count-ledger line yields: the line is trimmed of ASCII
/// whitespace and must split at commas into exactly a user hash, a
/// timestamp and a choice, the timestamp a 64-bit decimal.
pub open spec fn parse_cl_spec(line: Seq<u8>) -> Option<(Seq<u8>, i64, Seq<u8>)> {
    let parts = split_bytes(trim_bytes(line), 44);
    if parts.len() != 3 {
        None
    } else {
        match parse_i64_spec(parts[1]) {
            Some(ts) => Some((parts[0], ts, parts[2])),
            None => None,
        }
    }
}

/// What parsing a verification-ledger line yields: a vote id and a choice.
pub open spec fn parse_vl_spec(line: Seq<u8>) -> Option<(Seq<u8>, Seq<u8>)> {
    let parts = split_bytes(trim_bytes(line), 44);
    if parts.len() != 2 {
        None
    } else {
        Some((parts[0], parts[1]))
    }
}

proof fn lemma_split_nonempty(s: Seq<u8>, d: u8)
    ensures
        split_bytes(s, d).len() >= 1,
{
    if find_byte(s, d) >= s.len() {
    } else {
    }
}

/// Locates the comma structure of a text that splits into exactly three
/// comma-separated parts: the two comma positions, or nothing when the
/// number of parts differs.
pub fn split3(t: &[u8]) -> (r: Option<(usize, usize)>)
    ensures
        match r {
            Some(cs) => {
                let parts = split_bytes(t@, 44);
                &&& 0 <= cs.0 < cs.1 < t@.len()
                &&& parts.len() == 3
                &&& parts[0] == t@.subrange(0, cs.0 as int)
                &&& parts[1] == t@.subrange(cs.0 as int + 1, cs.1 as int)
                &&& parts[2] == t@.subrange(cs.1 as int + 1, t@.len() as int)
            },
            None => split_bytes(t@, 44).len() != 3,
        },
{
    let tlen = t.len();
    let c1 = find_from(t, 0, 44);
    if c1 == tlen {
        proof {
            lemma_split_no_delim(t@, 44);
        }
        return None;
    }
    let ghost rest1 = t@.subrange(c1 as int + 1, tlen as int);
    proof {
        lemma_find_byte_unique(t@, 44, c1 as int);
        assert(split_bytes(t@, 44) == seq![t@.subrange(0, c1 as int)] + split_bytes(rest1, 44));
    }
    let c2 = find_from(t, c1 + 1, 44);
    if c2 == tlen {
        proof {
            assert forall|j: int| 0 <= j < rest1.len() implies rest1[j] != 44 by {
                assert(rest1[j] == t@[c1 + 1 + j]);
            }
            lemma_split_no_delim(rest1, 44);
        }
        return None;
    }
    let ghost rest2 = t@.subrange(c2 as int + 1, tlen as int);
    proof {
        assert forall|j: int| 0 <= j < c2 - c1 - 1 implies rest1[j] != 44 by {
            assert(rest1[j] == t@[c1 + 1 + j]);
        }
        assert(rest1[c2 - c1 - 1] == t@[c2 as int]);
        lemma_find_byte_unique(rest1, 44, c2 - c1 - 1);
        assert(split_bytes(rest1, 44) == seq![rest1.subrange(0, c2 - c1 - 1)] + split_bytes(
            rest1.subrange(c2 - c1 - 1 + 1, rest1.len() as int),
            44,
        ));
        assert(rest1.subrange(c2 - c1 - 1 + 1, rest1.len() as int) =~= rest2);
    }
    let c3 = find_from(t, c2 + 1, 44);
    if c3 < tlen {
        proof {
            assert forall|j: int| 0 <= j < c3 - c2 - 1 implies rest2[j] != 44 by {
                assert(rest2[j] == t@[c2 + 1 + j]);
            }
            assert(rest2[c3 - c2 - 1] == t@[c3 as int]);
            lemma_find_byte_unique(rest2, 44, c3 - c2 - 1);
            lemma_split_nonempty(rest2.subrange(c3 - c2 - 1 + 1, rest2.len() as int), 44);
            assert(split_bytes(rest2, 44).len() >= 2);
            assert(split_bytes(t@, 44).len() >= 4);
        }
        return None;
    }
    proof {
        assert forall|j: int| 0 <= j < rest2.len() implies rest2[j] != 44 by {
            assert(rest2[j] == t@[c2 + 1 + j]);
        }
        lemma_split_no_delim(rest2, 44);
        assert(split_bytes(t@, 44) =~= seq![
            t@.subrange(0, c1 as int),
            rest1.subrange(0, c2 - c1 - 1),
            rest2,
        ]);
        assert(rest1.subrange(0, c2 - c1 - 1) =~= t@.subrange(c1 as int + 1, c2 as int));
    }
    Some((c1, c2))
}

/// Parses one count-ledger line into a record.
pub fn parse_cl_line(line: &[u8]) -> (r: Option<CLVote>)
    requires
        ascii_bytes(line@),
    ensures
        r is Some <==> parse_cl_spec(line@) is Some,
        r is Some ==> {
            let v = r->Some_0;
            let p = parse_cl_spec(line@)->Some_0;
            &&& bytes_of(v.user_id_hash@) == p.0
            &&& v.timestamp == p.1
            &&& bytes_of(v.choice@) == p.2
            &&& vstd::utf8::is_ascii_chars(v.user_id_hash@)
            &&& vstd::utf8::is_ascii_chars(v.choice@)
        },
{
    let (lo, hi) = trim_range(line);
    let ghost t_spec = trim_bytes(line@);
    if lo >= hi {
        proof {
            assert(t_spec =~= Seq::<u8>::empty());
            lemma_split_no_delim(t_spec, 44);
        }
        return None;
    }
    let t = slice_subrange(line, lo, hi);
    proof {
        assert(t@ =~= t_spec);
    }
    match split3(t) {
        None => None,
        Some(cs) => {
            let (c1, c2) = cs;
            let p1 = slice_subrange(t, c1 + 1, c2);
            let ts_opt = parse_i64(p1);
            match ts_opt {
                None => {
                    proof {
                        assert(parse_i64_spec(split_bytes(trim_bytes(line@), 44)[1]) is None);
                    }
                    None
                },
                Some(ts) => {
                    let p0 = slice_subrange(t, 0, c1);
                    let p2 = slice_subrange(t, c2 + 1, t.len());
                    let user_id_hash = ascii_to_string(slice_to_vec(p0));
                    let choice = ascii_to_string(slice_to_vec(p2));
                    proof {
                        crate::text::lemma_ascii_to_string_bytes(p0@, user_id_hash@);
                        crate::text::lemma_ascii_to_string_bytes(p2@, choice@);
                    }
                    Some(CLVote { user_id_hash, timestamp: ts, choice })
                },
            }
        },
    }
}

/// A ledger field that cannot disturb the line format: no byte is a comma
/// and none is ASCII whitespace.
pub open spec fn field_clean(bs: Seq<u8>) -> bool {
    forall|i: int| 0 <= i < bs.len() ==> !is_ascii_ws(#[trigger] bs[i]) && bs[i] != 44
}

/// A ballot whose fields are safe to put on ledger lines. The submission
/// handler only produces such ballots: hashes and vote ids are URL-safe
/// base64 and choice keys are validated.
pub open spec fn ledger_safe(b: Ballot) -> bool {
    &&& b.wf()
    &&& field_clean(bytes_of(b.user_id_hash@))
    &&& field_clean(bytes_of(b.vote_id@))
    &&& field_clean(bytes_of(b.choice@))
}

proof fn lemma_dec_int_bytes_clean(n: int)
    ensures
        field_clean(dec_int_bytes(n)),
        dec_int_bytes(n).len() >= 1,
{
    if n < 0 {
        lemma_dec_digits_wf(-n);
        assert forall|i: int|
            0 <= i < dec_int_bytes(n).len() implies !is_ascii_ws(#[trigger] dec_int_bytes(n)[i])
            && dec_int_bytes(n)[i] != 44 by {
            if i >= 1 {
                assert(dec_int_bytes(n)[i] == dec_digits(-n)[i - 1]);
                assert(crate::numfmt::is_digit(dec_digits(-n)[i - 1]));
            }
        }
    } else {
        lemma_dec_digits_wf(n);
        assert forall|i: int|
            0 <= i < dec_int_bytes(n).len() implies !is_ascii_ws(#[trigger] dec_int_bytes(n)[i])
            && dec_int_bytes(n)[i] != 44 by {
            assert(crate::numfmt::is_digit(dec_digits(n)[i]));
        }
    }
}

/// Round trip for the count-ledger line format: parsing a formatted line
/// recovers the ballot's user hash, timestamp and choice.
pub proof fn lemma_cl_round_trip(b: Ballot)
    requires
        ledger_safe(b),
    ensures
        parse_cl_spec(cl_line_bytes(b)) == Some(
            (bytes_of(b.user_id_hash@), b.timestamp, bytes_of(b.choice@)),
        ),
{
    let h = bytes_of(b.user_id_hash@);
    let mid = dec_int_bytes(b.timestamp as int);
    let c = bytes_of(b.choice@);
    let line = cl_line_bytes(b);
    lemma_dec_int_bytes_clean(b.timestamp as int);
    let body = h + seq![44u8] + mid + seq![44u8] + c;
    assert(line =~= body + seq![10u8]);
    assert(line[0] == h[0]);
    lemma_first_non_ws_unique(line, 0);
    assert(line[line.len() - 1] == 10u8);
    assert(line[line.len() - 2] == c[c.len() - 1]);
    lemma_last_non_ws_end_unique(line, line.len() - 1);
    assert(trim_bytes(line) =~= body);
    let tail = mid + seq![44u8] + c;
    assert(body =~= h + seq![44u8] + tail);
    lemma_split_prepend(h, tail, 44);
    lemma_split_prepend(mid, c, 44);
    assert(tail =~= mid + seq![44u8] + c);
    lemma_split_no_delim(c, 44);
    assert(split_bytes(body, 44) =~= seq![h, mid, c]);
    crate::numfmt::lemma_dec_int_round_trip(b.timestamp);
    assert(split_bytes(body, 44)[1] == mid);
}

/// Round trip for the verification-ledger line format.
pub proof fn lemma_vl_round_trip(b: Ballot)
    requires
        ledger_safe(b),
    ensures
        parse_vl_spec(vl_line_bytes(b)) == Some((bytes_of(b.vote_id@), bytes_of(b.choice@))),
{
    let v = bytes_of(b.vote_id@);
    let c = bytes_of(b.choice@);
    let line = vl_line_bytes(b);
    let body = v + seq![44u8] + c;
    assert(line =~= body + seq![10u8]);
    assert(line[0] == v[0]);
    lemma_first_non_ws_unique(line, 0);
    assert(line[line.len() - 1] == 10u8);
    assert(line[line.len() - 2] == c[c.len() - 1]);
    lemma_last_non_ws_end_unique(line, line.len() - 1);
    assert(trim_bytes(line) =~= body);
    lemma_split_prepend(v, c, 44);
    lemma_split_no_delim(c, 44);
    assert(split_bytes(body, 44) =~= seq![v, c]);
}

/// For each accepted ballot the ledger writer receives exactly one
/// count-ledger line and one verification-ledger line: each is newline
/// terminated with no interior newline, and the two lines refer to the
/// same ballot, carrying the same choice, with the ballot's user hash and
/// timestamp on the count line and its vote id on the verification line.
pub proof fn lemma_ledger_lines_same_ballot(b: Ballot)
    requires
        ledger_safe(b),
    ensures
        cl_line_bytes(b).len() >= 1 && cl_line_bytes(b).last() == 10u8,
        vl_line_bytes(b).len() >= 1 && vl_line_bytes(b).last() == 10u8,
        forall|i: int| 0 <= i < cl_line_bytes(b).len() - 1 ==> cl_line_bytes(b)[i] != 10u8,
        forall|i: int| 0 <= i < vl_line_bytes(b).len() - 1 ==> vl_line_bytes(b)[i] != 10u8,
        parse_cl_spec(cl_line_bytes(b)) == Some(
            (bytes_of(b.user_id_hash@), b.timestamp, bytes_of(b.choice@)),
        ),
        parse_vl_spec(vl_line_bytes(b)) == Some((bytes_of(b.vote_id@), bytes_of(b.choice@))),
{
    lemma_cl_round_trip(b);
    lemma_vl_round_trip(b);
    let h = bytes_of(b.user_id_hash@);
    let mid = dec_int_bytes(b.timestamp as int);
    let c = bytes_of(b.choice@);
    let v = bytes_of(b.vote_id@);
    lemma_dec_int_bytes_clean(b.timestamp as int);
    assert forall|i: int|
        0 <= i < cl_line_bytes(b).len() - 1 implies cl_line_bytes(b)[i] != 10u8 by {
        let line = cl_line_bytes(b);
        if i < h.len() {
            assert(line[i] == h[i]);
        } else if i == h.len() {
            assert(line[i] == 44u8);
        } else if i < h.len() + 1 + mid.len() {
            assert(line[i] == mid[i - h.len() - 1]);
        } else if i == h.len() + 1 + mid.len() {
            assert(line[i] == 44u8);
        } else {
            assert(line[i] == c[i - h.len() - mid.len() - 2]);
        }
    }
    assert forall|i: int|
        0 <= i < vl_line_bytes(b).len() - 1 implies vl_line_bytes(b)[i] != 10u8 by {
        let line = vl_line_bytes(b);
        if i < v.len() {
            assert(line[i] == v[i]);
        } else if i == v.len() {
            assert(line[i] == 44u8);
        } else {
            assert(line[i] == c[i - v.len() - 1]);
        }
    }
}

} // verus!
