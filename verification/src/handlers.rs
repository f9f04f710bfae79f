use vstd::prelude::*;

use crate::codec::{cl_line_bytes, vl_line_bytes, VLCLMessage};
use crate::counting::wf_choices;
use crate::errors::{AppError, AppResult};
use crate::models::{Ballot, Choice, CountWorkerBallot, Vote};
use crate::utils::{b64url_decode_of, hash_user_id, user_hash_of};
use vstd::slice::slice_index_get;
use vstd::string::StringExecFns as _;

verus! {

/// Whether a choice key is in the configured set.
pub open spec fn choice_in_set(choice: Seq<char>, choices: Seq<Choice>) -> bool {
    exists|i: int| 0 <= i < choices.len() && (#[trigger] choices[i]).key@ == choice
}

/// Rejects a vote whose choice key is not configured: succeeds exactly
/// when the key is one of the configured ones, and otherwise reports a
/// bad request without touching any state.
pub fn verify_valid_choice(vote: &Vote, choices: &[Choice]) -> (r: AppResult<()>)
    ensures
        r is Ok <==> choice_in_set(vote.choice@, choices@),
        r is Err ==> r->Err_0.is_bad_request(),
{
    let mut i: usize = 0;
    while i < choices.len()
        invariant
            0 <= i <= choices@.len(),
            forall|j: int| 0 <= j < i ==> (#[trigger] choices@[j]).key@ != vote.choice@,
        decreases choices@.len() - i,
    {
        if slice_index_get(choices, i).key == vote.choice {
            return Ok(());
        }
        i = i + 1;
    }
    Err(
        AppError::BadRequest {
            title: String::from_str("Invalid choice"),
            message: String::from_str("the chosen key is not in the configured choice set"),
        },
    )
}

/// The submission handler's decision path: derives the pseudonymous user
/// hash, validates the choice, and assembles the ballot together with the
/// two messages it fans out, the ledger-line pair and the compact tally
/// update. It succeeds exactly when the voter salt decodes and the choice
/// is configured; the caller supplies the entry timestamp and a freshly
/// generated vote id, sends the messages, and answers with the vote id.
pub fn submit_vote_core(
    user_id: &str,
    user_salt: &str,
    backend_salt: &[u8],
    vote: &Vote,
    choices: &[Choice],
    timestamp: i64,
    vote_id: String,
) -> (r: AppResult<(Ballot, VLCLMessage, CountWorkerBallot)>)
    requires
        wf_choices(choices@),
        vote_id@.len() == 16,
        vstd::utf8::is_ascii_chars(vote_id@),
    ensures
        r is Ok <==> (b64url_decode_of(user_salt@) is Some && choice_in_set(
            vote.choice@,
            choices@,
        )),
        r is Err ==> r->Err_0.is_bad_request(),
        r is Ok ==> {
            let b = r->Ok_0.0;
            &&& b.wf()
            &&& b.user_id_hash@ == user_hash_of(
                user_id@,
                b64url_decode_of(user_salt@)->Some_0,
                backend_salt@,
            )
            &&& b.vote_id@ == vote_id@
            &&& b.timestamp == timestamp
            &&& b.choice@ == vote.choice@
            &&& r->Ok_0.1.cl_data@ == cl_line_bytes(b)
            &&& r->Ok_0.1.vl_data@ == vl_line_bytes(b)
            &&& r->Ok_0.2.choice_key == b.choice_byte()
            &&& r->Ok_0.2.user_id_hash == b.hash_u128()
        },
{
    let user_id_hash = match hash_user_id(user_id, user_salt, backend_salt) {
        Ok(h) => h,
        Err(e) => {
            return Err(e);
        },
    };
    if let Err(e) = verify_valid_choice(vote, choices) {
        return Err(e);
    }
    let ballot = Ballot {
        vote_id,
        user_id_hash,
        timestamp,
        choice: vote.choice.clone(),
    };
    proof {
        let i = choose|i: int|
            0 <= i < choices@.len() && (#[trigger] choices@[i]).key@ == vote.choice@;
        assert(choices@[i].wf());
        assert(ballot.wf());
    }
    let msg = VLCLMessage::from_ballot(&ballot);
    let cwb = CountWorkerBallot::from_ballot(&ballot);
    Ok((ballot, msg, cwb))
}

} // verus!
