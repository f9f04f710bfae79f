use vstd::prelude::*;

use crate::text::bytes_of;

verus! {

/// Request body for a vote submission: the key of the chosen option.
pub struct Vote {
    pub choice: String,
}

/// One tally entry: a choice key and the number of current votes for it.
#[derive(Debug, Clone, PartialEq)]
pub struct VoteCount {
    pub choice: String,
    pub count: u32,
}

/// A configured option voters may pick. Only the first byte of `key` is
/// used on the hot paths, so first bytes must be unique across the set.
#[derive(Debug, Clone)]
pub struct Choice {
    pub key: String,
    pub label: String,
    pub color: String,
}

/// The choice configuration loaded at startup.
#[derive(Debug, Clone)]
pub struct Config {
    pub choices: Vec<Choice>,
}

/// Claims carried by a validated bearer token.
#[derive(Debug, Clone)]
pub struct Claims {
    pub sub: String,
    pub salt: String,
    pub exp: usize,
}

impl Choice {
    /// A usable choice: a nonempty ASCII key.
    pub open spec fn wf(self) -> bool {
        &&& self.key@.len() >= 1
        &&& vstd::utf8::is_ascii_chars(self.key@)
    }

    /// The byte that identifies this choice in ledger records.
    pub open spec fn key_byte(self) -> u8 {
        self.key@[0] as u8
    }

    /// First byte of the key.
    pub fn key_u8(&self) -> (r: u8)
        requires
            self.wf(),
        ensures
            r == self.key_byte(),
    {
        proof {
            crate::text::lemma_ascii_chars_bytes(self.key@);
        }
        let bytes: &[u8] = self.key.as_str().as_bytes();
        bytes[0]
    }
}

/// One accepted submission, ready to be written to the ledgers and
/// applied to the tally.
pub struct Ballot {
    pub vote_id: String,
    pub user_id_hash: String,
    pub timestamp: i64,
    pub choice: String,
}

/// The compact summary of a ballot handed to the tally worker.
pub struct CountWorkerBallot {
    pub choice_key: u8,
    pub user_id_hash: u128,
}

impl Ballot {
    /// A ballot as the submission handler produces it: a 16-character
    /// ASCII user hash, a 16-character ASCII vote id and a nonempty
    /// ASCII choice key.
    pub open spec fn wf(self) -> bool {
        &&& self.user_id_hash@.len() == 16
        &&& vstd::utf8::is_ascii_chars(self.user_id_hash@)
        &&& self.vote_id@.len() == 16
        &&& vstd::utf8::is_ascii_chars(self.vote_id@)
        &&& self.choice@.len() >= 1
        &&& vstd::utf8::is_ascii_chars(self.choice@)
    }

    /// The byte that identifies the ballot's choice in ledger records.
    pub open spec fn choice_byte(self) -> u8 {
        self.choice@[0] as u8
    }

    /// First byte of the choice key.
    pub fn choice_key_u8(&self) -> (r: u8)
        requires
            self.choice@.len() >= 1,
            vstd::utf8::is_ascii_chars(self.choice@),
        ensures
            r == self.choice_byte(),
    {
        proof {
            crate::text::lemma_ascii_chars_bytes(self.choice@);
        }
        let bytes: &[u8] = self.choice.as_str().as_bytes();
        bytes[0]
    }

    /// The user hash text reinterpreted as a little-endian 128-bit key.
    pub open spec fn hash_u128(self) -> u128 {
        crate::counting::le_u128_of(bytes_of(self.user_id_hash@))
    }

    /// The user hash as the 128-bit key used by the latest-vote index.
    pub fn user_id_hash_u128(&self) -> (r: u128)
        requires
            self.user_id_hash@.len() == 16,
            vstd::utf8::is_ascii_chars(self.user_id_hash@),
        ensures
            r == self.hash_u128(),
    {
        proof {
            crate::text::lemma_ascii_chars_bytes(self.user_id_hash@);
        }
        let bytes: &[u8] = self.user_id_hash.as_str().as_bytes();
        crate::counting::user_id_hash_u128_from_bytes(bytes)
    }
}

impl CountWorkerBallot {
    /// The summary sent to the tally worker: choice byte and 128-bit user key.
    pub fn from_ballot(ballot: &Ballot) -> (r: CountWorkerBallot)
        requires
            ballot.wf(),
        ensures
            r.choice_key == ballot.choice_byte(),
            r.user_id_hash == ballot.hash_u128(),
    {
        CountWorkerBallot {
            choice_key: ballot.choice_key_u8(),
            user_id_hash: ballot.user_id_hash_u128(),
        }
    }
}

} // verus!
