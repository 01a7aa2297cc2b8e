//! The decisions behind the command and poll-answer handlers.
//!
//! The surrounding process receives commands and poll answers from the chat
//! platform and sends messages back; what it decides in between — how a
//! poll answer changes the store, and what the mention message says — is
//! here, with exact contracts.

use crate::store::{
    spec_add_user, spec_get_message_id, spec_poll2chat, spec_remove_user, ChatStorage,
};
use crate::text::push_char;
use vstd::prelude::*;
use vstd::string::{StrSliceExecFns, StringExecFns};

verus! {

/// The options of the consent poll: the first opts in, the second opts out,
/// anything else is not ours.
#[derive(Debug, PartialEq, Eq, Structural, Clone, Copy)]
pub enum PollOption {
    Consent,
    Decline,
    Other,
}

pub open spec fn spec_classify(v: u32) -> PollOption {
    if v == 0 {
        PollOption::Consent
    } else if v == 1 {
        PollOption::Decline
    } else {
        PollOption::Other
    }
}

/// Reads one option index as a poll option.
pub fn classify_option(v: u32) -> (r: PollOption)
    ensures
        r == spec_classify(v),
{
    if v == 0 {
        PollOption::Consent
    } else if v == 1 {
        PollOption::Decline
    } else {
        PollOption::Other
    }
}

/// What one poll answer did to the store.
#[derive(Debug, PartialEq, Eq, Structural, Clone, Copy)]
pub enum AnswerOutcome {
    /// The poll id resolves to no conversation; nothing changed.
    UnknownPoll,
    /// The answerer chose to be mentioned and was recorded.
    Added,
    /// The answerer chose to be mentioned, but the conversation has no
    /// active message; nothing changed.
    NotTracked,
    /// The answerer declined; nothing changed.
    Declined,
    /// The answer was retracted and the answerer removed.
    Removed,
    /// An option index outside the poll; nothing changed, worth a log line.
    Anomaly,
}

/// Applies one poll answer: the chosen option decides whether the answering
/// user joins or leaves the membership set of the conversation the poll
/// belongs to.
pub fn update_users(
    storage: &mut ChatStorage,
    poll_id: &String,
    username: String,
    option_ids: &Vec<u32>,
) -> (r: AnswerOutcome)
    requires
        old(storage).wf(),
    ensures
        final(storage).wf(),
        (match spec_poll2chat(old(storage)@, poll_id@) {
            None => final(storage)@ == old(storage)@ && r == AnswerOutcome::UnknownPoll,
            Some(c) => {
                if option_ids@.len() == 0 {
                    final(storage)@ == spec_remove_user(old(storage)@, c, username@) && r
                        == AnswerOutcome::Removed
                } else if option_ids@[0] == 0 {
                    if spec_get_message_id(old(storage)@, c) is Some {
                        final(storage)@ == spec_add_user(old(storage)@, c, username@) && r
                            == AnswerOutcome::Added
                    } else {
                        final(storage)@ == old(storage)@ && r == AnswerOutcome::NotTracked
                    }
                } else if option_ids@[0] == 1 {
                    final(storage)@ == old(storage)@ && r == AnswerOutcome::Declined
                } else {
                    final(storage)@ == old(storage)@ && r == AnswerOutcome::Anomaly
                }
            },
        }),
{
    let chat_id = match storage.poll2chat(poll_id) {
        Some(c) => c,
        None => {
            return AnswerOutcome::UnknownPoll;
        },
    };
    if option_ids.len() == 0 {
        let _removed = storage.remove_user(chat_id, username);
        return AnswerOutcome::Removed;
    }
    match classify_option(option_ids[0]) {
        PollOption::Consent => {
            if storage.get_message_id(chat_id).is_some() {
                let _added = storage.add_user(chat_id, username);
                AnswerOutcome::Added
            } else {
                AnswerOutcome::NotTracked
            }
        },
        PollOption::Decline => AnswerOutcome::Declined,
        PollOption::Other => AnswerOutcome::Anomaly,
    }
}

/// The mention text for a list of opted-in usernames: each prefixed with an
/// at sign, separated by single spaces.
pub open spec fn spec_mentions(us: Seq<Seq<char>>) -> Seq<char>
    decreases us.len(),
{
    if us.len() == 0 {
        Seq::empty()
    } else if us.len() == 1 {
        seq!['@'] + us[0]
    } else {
        spec_mentions(us.drop_last()) + seq![' ', '@'] + us.last()
    }
}

/// The message `tag_everyone` sends: the mention text, or the fixed answer
/// when nobody opted in.
pub fn mention_message(users: &Vec<String>) -> (r: String)
    ensures
        users@.len() == 0 ==> r@ == "No user provided any @username!!!"@,
        users@.len() > 0 ==> r@ == spec_mentions(users@.map_values(|u: String| u@)),
{
    if users.len() == 0 {
        return String::from_str("No user provided any @username!!!");
    }
    let mut out = String::new();
    let mut k: usize = 0;
    let ghost us = users@.map_values(|u: String| u@);
    proof {
        assert(out@ =~= spec_mentions(us.take(0)));
    }
    while k < users.len()
        invariant
            k <= users@.len(),
            us == users@.map_values(|u: String| u@),
            out@ == spec_mentions(us.take(k as int)),
        decreases users@.len() - k,
    {
        if k > 0 {
            push_char(&mut out, ' ');
        }
        push_char(&mut out, '@');
        out.append(users[k].as_str());
        proof {
            assert(us.take(k as int + 1).drop_last() =~= us.take(k as int));
            assert(us.take(k as int + 1).last() == us[k as int]);
            assert(us[k as int] == users@[k as int]@);
            if k == 0 {
                assert(out@ =~= spec_mentions(us.take(1)));
            } else {
                assert(out@ =~= spec_mentions(us.take(k as int + 1)));
            }
        }
        k += 1;
    }
    proof {
        assert(us.take(us.len() as int) =~= us);
    }
    out
}

} // verus!
