//! The in-memory conversation store.
//!
//! Three collections, all keyed by the 64-bit conversation id: the membership
//! set of each tracked conversation, the active poll message of each
//! conversation, and a reverse index from poll identifier to conversation.
//! The store is a plain value; the surrounding process puts it behind one
//! lock guarding all three collections together, so no reader ever sees a
//! conversation with a message entry but no membership entry.

use crate::kvlist::{
    assoc_map, distinct_keys, find_i64_key, find_str_key, lemma_assoc_map_dom,
    lemma_assoc_map_index, lemma_assoc_map_len, lemma_assoc_map_push, lemma_assoc_map_remove,
    lemma_assoc_map_update,
};
use vstd::pervasive::VecAdditionalExecFns;
use vstd::prelude::*;

verus! {

/// The mathematical reading of a store: three finite maps over plain values.
pub struct StoreModel {
    /// Conversation id to the set of usernames who opted in.
    pub users: Map<int, Set<Seq<char>>>,
    /// Conversation id to the active poll message id.
    pub messages: Map<int, int>,
    /// Poll identifier to the conversation that owns it.
    pub polls: Map<Seq<char>, int>,
}

/// The set of usernames a list of strings stands for.
pub open spec fn names_of(list: Seq<String>) -> Set<Seq<char>> {
    list.map_values(|s: String| s@).to_set()
}

/// No two strings of the list have the same characters.
pub open spec fn distinct_views(list: Seq<String>) -> bool {
    forall|i: int, j: int| 0 <= i < j < list.len() ==> list[i]@ != list[j]@
}

pub open spec fn user_entries(s: Seq<(i64, Vec<String>)>) -> Seq<(int, Set<Seq<char>>)> {
    s.map_values(|p: (i64, Vec<String>)| (p.0 as int, names_of(p.1@)))
}

pub open spec fn message_entries(s: Seq<(i64, i32)>) -> Seq<(int, int)> {
    s.map_values(|p: (i64, i32)| (p.0 as int, p.1 as int))
}

pub open spec fn poll_entries(s: Seq<(String, i64)>) -> Seq<(Seq<char>, int)> {
    s.map_values(|p: (String, i64)| (p.0@, p.1 as int))
}

/// The conversation store. One file of the snapshot directory corresponds to
/// one entry of `users` and `messages`; `polls` may keep stale entries whose
/// conversation is no longer tracked.
pub struct ChatStorage {
    users: Vec<(i64, Vec<String>)>,
    messages: Vec<(i64, i32)>,
    polls: Vec<(String, i64)>,
}

impl View for ChatStorage {
    type V = StoreModel;

    closed spec fn view(&self) -> StoreModel {
        StoreModel {
            users: assoc_map(user_entries(self.users@)),
            messages: assoc_map(message_entries(self.messages@)),
            polls: assoc_map(poll_entries(self.polls@)),
        }
    }
}

// What each operation does to the model, stated once and shared by the
// operation contracts and the laws about their compositions.
pub open spec fn spec_add_chat(m: StoreModel, c: int, msg: int) -> StoreModel {
    StoreModel {
        users: m.users.insert(c, Set::empty()),
        messages: m.messages.insert(c, msg),
        polls: m.polls,
    }
}

pub open spec fn spec_add_user(m: StoreModel, c: int, u: Seq<char>) -> StoreModel {
    if m.users.dom().contains(c) {
        StoreModel { users: m.users.insert(c, m.users[c].insert(u)), ..m }
    } else {
        m
    }
}

pub open spec fn spec_remove_user(m: StoreModel, c: int, u: Seq<char>) -> StoreModel {
    if m.users.dom().contains(c) {
        StoreModel { users: m.users.insert(c, m.users[c].remove(u)), ..m }
    } else {
        m
    }
}

pub open spec fn spec_clean_users(m: StoreModel, c: int) -> StoreModel {
    if m.users.dom().contains(c) {
        StoreModel { users: m.users.insert(c, Set::empty()), ..m }
    } else {
        m
    }
}

pub open spec fn spec_update_message(m: StoreModel, c: int, msg: int) -> StoreModel {
    StoreModel { messages: m.messages.insert(c, msg), ..m }
}

pub open spec fn spec_update_poll(m: StoreModel, c: int, p: Seq<char>) -> StoreModel {
    StoreModel { polls: m.polls.insert(p, c), ..m }
}

pub open spec fn spec_remove_chat(m: StoreModel, c: int) -> StoreModel {
    if m.users.dom().contains(c) {
        StoreModel { users: m.users.remove(c), messages: m.messages.remove(c), ..m }
    } else {
        m
    }
}

pub open spec fn spec_get_users(m: StoreModel, c: int) -> Option<Set<Seq<char>>> {
    if m.users.dom().contains(c) {
        Some(m.users[c])
    } else {
        None
    }
}

pub open spec fn spec_get_message_id(m: StoreModel, c: int) -> Option<int> {
    if m.messages.dom().contains(c) {
        Some(m.messages[c])
    } else {
        None
    }
}

pub open spec fn spec_poll2chat(m: StoreModel, p: Seq<char>) -> Option<int> {
    if m.polls.dom().contains(p) {
        Some(m.polls[p])
    } else {
        None
    }
}

impl ChatStorage {
    /// Internal shape the operations keep: distinct keys in each collection,
    /// distinct usernames within a conversation, and a membership entry only
    /// for conversations that also have a message entry.
    pub closed spec fn wf(&self) -> bool {
        &&& distinct_keys(user_entries(self.users@))
        &&& distinct_keys(message_entries(self.messages@))
        &&& distinct_keys(poll_entries(self.polls@))
        &&& forall|i: int| 0 <= i < self.users@.len() ==> distinct_views(#[trigger] self.users@[i].1@)
        &&& self@.users.dom().subset_of(self@.messages.dom())
    }

    pub fn new() -> (r: Self)
        ensures
            r.wf(),
            r@.users == Map::<int, Set<Seq<char>>>::empty(),
            r@.messages == Map::<int, int>::empty(),
            r@.polls == Map::<Seq<char>, int>::empty(),
    {
        let r = ChatStorage { users: Vec::new(), messages: Vec::new(), polls: Vec::new() };
        proof {
            assert(user_entries(r.users@) =~= Seq::empty());
            assert(message_entries(r.messages@) =~= Seq::empty());
            assert(poll_entries(r.polls@) =~= Seq::empty());
        }
        r
    }

    /// Begins tracking a conversation: an empty membership set and the given
    /// active message. Re-calling overwrites both.
    pub fn add_chat(&mut self, chat_id: i64, message_id: i32)
        requires
            old(self).wf(),
        ensures
            final(self).wf(),
            final(self)@ == spec_add_chat(old(self)@, chat_id as int, message_id as int),
    {
        self.set_message_entry(chat_id, message_id);
        self.set_users_entry(chat_id, Vec::new());
        proof {
            assert(names_of(Seq::<String>::empty()) =~= Set::<Seq<char>>::empty());
        }
    }

    /// Adds a username to a tracked conversation's membership set; a duplicate
    /// add is a no-op. Reports `None`, touching nothing, when the conversation
    /// is untracked.
    pub fn add_user(&mut self, chat_id: i64, new_user: String) -> (r: Option<()>)
        requires
            old(self).wf(),
        ensures
            final(self).wf(),
            final(self)@ == spec_add_user(old(self)@, chat_id as int, new_user@),
            r is Some <==> old(self)@.users.dom().contains(chat_id as int),
    {
        proof {
            lemma_assoc_map_dom(user_entries(self.users@), chat_id as int);
        }
        match find_i64_key(&self.users, chat_id) {
            Some(i) => {
                let mut names = self.users[i].1.clone();
                let ghost old_names = self.users@[i as int].1@;
                proof {
                    assert(names@ =~= old_names);
                }
                let present = contains_name(&names, &new_user);
                let ghost u = new_user@;
                if !present {
                    names.push(new_user);
                }
                proof {
                    if present {
                        assert(names_of(names@) =~= names_of(old_names).insert(u));
                    } else {
                        assert(names@ == old_names.push(names@.last()));
                        assert(names@.last()@ == u);
                        lemma_names_of_push(old_names, names@.last());
                        assert(names_of(names@) =~= names_of(old_names).insert(u));
                        assert forall|j: int| 0 <= j < old_names.len() implies old_names[j]@
                            != u by {
                            if old_names[j]@ == u {
                                let mapped = old_names.map_values(|s: String| s@);
                                assert(mapped[j] == u);
                                assert(names_of(old_names).contains(u));
                            }
                        }
                        assert(distinct_views(names@));
                    }
                }
                let ghost before = self.users@;
                self.users.set(i, (chat_id, names));
                proof {
                    assert(user_entries(self.users@) =~= user_entries(before).update(
                        i as int,
                        (chat_id as int, names_of(old_names).insert(u)),
                    ));
                    lemma_assoc_map_update(
                        user_entries(before),
                        i as int,
                        chat_id as int,
                        names_of(old_names).insert(u),
                    );
                    lemma_assoc_map_index(user_entries(before), i as int);
                    assert(self@.users =~= spec_add_user(old(self)@, chat_id as int, u).users);
                    assert forall|k: int| 0 <= k < self.users@.len() implies distinct_views(
                        #[trigger] self.users@[k].1@,
                    ) by {
                        if k != i as int {
                            assert(self.users@[k] == before[k]);
                            assert(distinct_views(before[k].1@));
                        }
                    }
                    assert(self@.users.dom() =~= old(self)@.users.dom().insert(chat_id as int));
                }
                Some(())
            },
            None => None,
        }
    }

    /// Removes a username from a tracked conversation's membership set;
    /// removing an absent name is a no-op. Reports `None` when the
    /// conversation is untracked.
    pub fn remove_user(&mut self, chat_id: i64, user: String) -> (r: Option<()>)
        requires
            old(self).wf(),
        ensures
            final(self).wf(),
            final(self)@ == spec_remove_user(old(self)@, chat_id as int, user@),
            r is Some <==> old(self)@.users.dom().contains(chat_id as int),
    {
        proof {
            lemma_assoc_map_dom(user_entries(self.users@), chat_id as int);
        }
        match find_i64_key(&self.users, chat_id) {
            Some(i) => {
                let names = remove_name(&self.users[i].1, &user);
                let ghost before = self.users@;
                self.users.set(i, (chat_id, names));
                proof {
                    assert(user_entries(self.users@) =~= user_entries(before).update(
                        i as int,
                        (chat_id as int, names_of(before[i as int].1@).remove(user@)),
                    ));
                    lemma_assoc_map_update(
                        user_entries(before),
                        i as int,
                        chat_id as int,
                        names_of(before[i as int].1@).remove(user@),
                    );
                    lemma_assoc_map_index(user_entries(before), i as int);
                    assert(self@.users =~= spec_remove_user(
                        old(self)@,
                        chat_id as int,
                        user@,
                    ).users);
                    assert forall|k: int| 0 <= k < self.users@.len() implies distinct_views(
                        #[trigger] self.users@[k].1@,
                    ) by {
                        if k != i as int {
                            assert(self.users@[k] == before[k]);
                            assert(distinct_views(before[k].1@));
                        }
                    }
                    assert(self@.users.dom() =~= old(self)@.users.dom().insert(chat_id as int));
                }
                Some(())
            },
            None => None,
        }
    }

    /// Overwrites the active message of a conversation, creating the message
    /// entry when absent.
    pub fn update_message(&mut self, chat_id: i64, message_id: i32)
        requires
            old(self).wf(),
        ensures
            final(self).wf(),
            final(self)@ == spec_update_message(old(self)@, chat_id as int, message_id as int),
    {
        self.set_message_entry(chat_id, message_id);
    }

    /// A copy of the membership set, or `None` for an untracked conversation.
    pub fn get_users(&self, chat_id: i64) -> (r: Option<Vec<String>>)
        requires
            self.wf(),
        ensures
            match r {
                Some(names) => {
                    &&& spec_get_users(self@, chat_id as int) == Some(names_of(names@))
                    &&& distinct_views(names@)
                },
                None => spec_get_users(self@, chat_id as int) is None,
            },
    {
        proof {
            lemma_assoc_map_dom(user_entries(self.users@), chat_id as int);
        }
        match find_i64_key(&self.users, chat_id) {
            Some(i) => {
                let names = self.users[i].1.clone();
                proof {
                    assert(names@ =~= self.users@[i as int].1@);
                    lemma_assoc_map_index(user_entries(self.users@), i as int);
                }
                Some(names)
            },
            None => None,
        }
    }

    /// The active message of a conversation, or `None` when it has none.
    pub fn get_message_id(&self, chat_id: i64) -> (r: Option<i32>)
        requires
            self.wf(),
        ensures
            match r {
                Some(msg) => spec_get_message_id(self@, chat_id as int) == Some(msg as int),
                None => spec_get_message_id(self@, chat_id as int) is None,
            },
    {
        proof {
            lemma_assoc_map_dom(message_entries(self.messages@), chat_id as int);
        }
        match find_i64_key(&self.messages, chat_id) {
            Some(i) => {
                proof {
                    lemma_assoc_map_index(message_entries(self.messages@), i as int);
                }
                Some(self.messages[i].1)
            },
            None => None,
        }
    }

    /// Empties the membership set of a tracked conversation in place;
    /// `None` when the conversation is untracked.
    pub fn clean_users(&mut self, chat_id: i64) -> (r: Option<()>)
        requires
            old(self).wf(),
        ensures
            final(self).wf(),
            final(self)@ == spec_clean_users(old(self)@, chat_id as int),
            r is Some <==> old(self)@.users.dom().contains(chat_id as int),
    {
        proof {
            lemma_assoc_map_dom(user_entries(self.users@), chat_id as int);
        }
        match find_i64_key(&self.users, chat_id) {
            Some(i) => {
                let ghost before = self.users@;
                self.users.set(i, (chat_id, Vec::new()));
                proof {
                    assert(names_of(self.users@[i as int].1@) =~= Set::empty());
                    assert(user_entries(self.users@) =~= user_entries(before).update(
                        i as int,
                        (chat_id as int, Set::empty()),
                    ));
                    lemma_assoc_map_update(
                        user_entries(before),
                        i as int,
                        chat_id as int,
                        Set::empty(),
                    );
                    assert(self@.users =~= spec_clean_users(old(self)@, chat_id as int).users);
                    assert forall|k: int| 0 <= k < self.users@.len() implies distinct_views(
                        #[trigger] self.users@[k].1@,
                    ) by {
                        if k != i as int {
                            assert(self.users@[k] == before[k]);
                            assert(distinct_views(before[k].1@));
                        }
                    }
                    assert(self@.users.dom() =~= old(self)@.users.dom().insert(chat_id as int));
                }
                Some(())
            },
            None => None,
        }
    }

    /// Inserts or overwrites the poll-to-conversation mapping.
    pub fn update_poll(&mut self, chat_id: i64, poll_id: String)
        requires
            old(self).wf(),
        ensures
            final(self).wf(),
            final(self)@ == spec_update_poll(old(self)@, chat_id as int, poll_id@),
    {
        proof {
            lemma_assoc_map_dom(poll_entries(self.polls@), poll_id@);
        }
        let ghost before = self.polls@;
        match find_str_key(&self.polls, &poll_id) {
            Some(i) => {
                self.polls.set(i, (poll_id, chat_id));
                proof {
                    assert(poll_entries(self.polls@) =~= poll_entries(before).update(
                        i as int,
                        (old(self).polls@[i as int].0@, chat_id as int),
                    ));
                    lemma_assoc_map_update(
                        poll_entries(before),
                        i as int,
                        before[i as int].0@,
                        chat_id as int,
                    );
                }
            },
            None => {
                self.polls.push((poll_id, chat_id));
                proof {
                    assert(poll_entries(self.polls@) =~= poll_entries(before).push(
                        (before.push((poll_id, chat_id)).last().0@, chat_id as int),
                    ));
                    lemma_assoc_map_push(poll_entries(before), poll_id@, chat_id as int);
                    assert(distinct_keys(poll_entries(self.polls@)));
                }
            },
        }
        proof {
            assert(self@.polls =~= spec_update_poll(old(self)@, chat_id as int, poll_id@).polls);
        }
    }

    /// The conversation a poll identifier resolves to, or `None` for an
    /// unknown identifier.
    pub fn poll2chat(&self, poll_id: &String) -> (r: Option<i64>)
        requires
            self.wf(),
        ensures
            match r {
                Some(c) => spec_poll2chat(self@, poll_id@) == Some(c as int),
                None => spec_poll2chat(self@, poll_id@) is None,
            },
    {
        proof {
            lemma_assoc_map_dom(poll_entries(self.polls@), poll_id@);
        }
        match find_str_key(&self.polls, poll_id) {
            Some(i) => {
                proof {
                    lemma_assoc_map_index(poll_entries(self.polls@), i as int);
                }
                Some(self.polls[i].1)
            },
            None => None,
        }
    }

    /// Stops tracking a conversation: membership and message entry go
    /// together. Poll-index entries pointing at it are left in place, as
    /// stale entries are tolerated. `None` when the conversation was
    /// untracked.
    pub fn remove_chat(&mut self, chat_id: i64) -> (r: Option<()>)
        requires
            old(self).wf(),
        ensures
            final(self).wf(),
            final(self)@ == spec_remove_chat(old(self)@, chat_id as int),
            r is Some <==> old(self)@.users.dom().contains(chat_id as int),
    {
        proof {
            lemma_assoc_map_dom(user_entries(self.users@), chat_id as int);
            lemma_assoc_map_dom(message_entries(self.messages@), chat_id as int);
        }
        match find_i64_key(&self.users, chat_id) {
            Some(i) => {
                let ghost ubefore = self.users@;
                self.users.remove(i);
                proof {
                    assert(user_entries(self.users@) =~= user_entries(ubefore).remove(i as int));
                    lemma_assoc_map_remove(user_entries(ubefore), i as int);
                    assert forall|j: int| 0 <= j < self.users@.len() implies distinct_views(
                        #[trigger] self.users@[j].1@,
                    ) by {
                        if j < i as int {
                            assert(self.users@[j] == ubefore[j]);
                            assert(distinct_views(ubefore[j].1@));
                        } else {
                            assert(self.users@[j] == ubefore[j + 1]);
                            assert(distinct_views(ubefore[j + 1].1@));
                        }
                    }
                }
                match find_i64_key(&self.messages, chat_id) {
                    Some(j) => {
                        let ghost mbefore = self.messages@;
                        self.messages.remove(j);
                        proof {
                            assert(message_entries(self.messages@) =~= message_entries(
                                mbefore,
                            ).remove(j as int));
                            lemma_assoc_map_remove(message_entries(mbefore), j as int);
                            assert(self@.users =~= spec_remove_chat(
                                old(self)@,
                                chat_id as int,
                            ).users);
                            assert(self@.messages =~= spec_remove_chat(
                                old(self)@,
                                chat_id as int,
                            ).messages);
                        }
                        Some(())
                    },
                    None => {
                        // Unreachable while membership entries imply message
                        // entries; the contract still has to cover it.
                        proof {
                            assert(old(self)@.messages.dom().contains(chat_id as int));
                            assert(false);
                        }
                        None
                    },
                }
            },
            None => None,
        }
    }

    /// A well-formed store has a message entry for every membership entry,
    /// so every tracked conversation can be written out with its message.
    pub proof fn lemma_users_have_messages(&self)
        requires
            self.wf(),
        ensures
            self@.users.dom().subset_of(self@.messages.dom()),
    {
    }

    /// Every stored message id fits its 32-bit type.
    pub proof fn lemma_message_ids_fit(&self)
        requires
            self.wf(),
        ensures
            forall|c: int|
                self@.messages.dom().contains(c) ==> -2147483648 <= #[trigger] self@.messages[c]
                    <= 2147483647,
    {
        assert forall|c: int| self@.messages.dom().contains(c) implies -2147483648
            <= #[trigger] self@.messages[c] <= 2147483647 by {
            lemma_assoc_map_dom(message_entries(self.messages@), c);
            let i = choose|i: int|
                0 <= i < message_entries(self.messages@).len() && message_entries(
                    self.messages@,
                )[i].0 == c;
            lemma_assoc_map_index(message_entries(self.messages@), i);
            assert(self@.messages[c] == self.messages@[i].1 as int);
        }
    }

    /// The tracked conversations with a copy of their membership lists, ids
    /// distinct, together covering exactly the membership map.
    pub fn tracked_entries(&self) -> (r: Vec<(i64, Vec<String>)>)
        requires
            self.wf(),
        ensures
            r@.len() == self@.users.dom().len(),
            forall|x: int, y: int| 0 <= x < y < r@.len() ==> r@[x].0 != r@[y].0,
            forall|x: int|
                0 <= x < r@.len() ==> self@.users.dom().contains(#[trigger] r@[x].0 as int)
                    && names_of(r@[x].1@) == self@.users[r@[x].0 as int] && distinct_views(
                    r@[x].1@,
                ),
            forall|c: int|
                self@.users.dom().contains(c) ==> exists|x: int|
                    0 <= x < r@.len() && #[trigger] r@[x].0 as int == c,
    {
        let mut out: Vec<(i64, Vec<String>)> = Vec::new();
        let mut i: usize = 0;
        while i < self.users.len()
            invariant
                self.wf(),
                i <= self.users@.len(),
                out@.len() == i,
                forall|x: int|
                    0 <= x < i ==> (#[trigger] out@[x]).0 == self.users@[x].0 && out@[x].1@
                        == self.users@[x].1@,
            decreases self.users@.len() - i,
        {
            let names = self.users[i].1.clone();
            proof {
                assert(names@ =~= self.users@[i as int].1@);
            }
            out.push((self.users[i].0, names));
            i += 1;
        }
        proof {
            lemma_assoc_map_len(user_entries(self.users@));
            assert forall|x: int, y: int| 0 <= x < y < out@.len() implies out@[x].0
                != out@[y].0 by {
                assert(user_entries(self.users@)[x].0 == self.users@[x].0 as int);
                assert(user_entries(self.users@)[y].0 == self.users@[y].0 as int);
            }
            assert forall|x: int| 0 <= x < out@.len() implies self@.users.dom().contains(
                #[trigger] out@[x].0 as int,
            ) && names_of(out@[x].1@) == self@.users[out@[x].0 as int] && distinct_views(
                out@[x].1@,
            ) by {
                lemma_assoc_map_index(user_entries(self.users@), x);
                assert(distinct_views(self.users@[x].1@));
            }
            assert forall|c: int| self@.users.dom().contains(c) implies exists|x: int|
                0 <= x < out@.len() && #[trigger] out@[x].0 as int == c by {
                lemma_assoc_map_dom(user_entries(self.users@), c);
                let x = choose|x: int|
                    0 <= x < user_entries(self.users@).len() && user_entries(self.users@)[x].0
                        == c;
                assert(out@[x].0 as int == c);
            }
        }
        out
    }

    /// Some poll identifier that resolves to the conversation, when one does.
    pub fn poll_for(&self, chat_id: i64) -> (r: Option<String>)
        requires
            self.wf(),
        ensures
            match r {
                Some(p) => self@.polls.dom().contains(p@) && self@.polls[p@] == chat_id as int,
                None => forall|q: Seq<char>|
                    self@.polls.dom().contains(q) ==> self@.polls[q] != chat_id as int,
            },
    {
        let mut i: usize = 0;
        while i < self.polls.len()
            invariant
                self.wf(),
                i <= self.polls@.len(),
                forall|x: int| 0 <= x < i ==> (#[trigger] self.polls@[x]).1 != chat_id,
            decreases self.polls@.len() - i,
        {
            if self.polls[i].1 == chat_id {
                let p = self.polls[i].0.clone();
                proof {
                    lemma_assoc_map_index(poll_entries(self.polls@), i as int);
                }
                return Some(p);
            }
            i += 1;
        }
        proof {
            assert forall|q: Seq<char>| self@.polls.dom().contains(q) implies self@.polls[q]
                != chat_id as int by {
                lemma_assoc_map_dom(poll_entries(self.polls@), q);
                let x = choose|x: int|
                    0 <= x < poll_entries(self.polls@).len() && poll_entries(self.polls@)[x].0
                        == q;
                lemma_assoc_map_index(poll_entries(self.polls@), x);
                assert(self.polls@[x].1 != chat_id);
            }
        }
        None
    }

    /// Sets the membership entry of `chat_id` to exactly `names`.
    fn set_users_entry(&mut self, chat_id: i64, names: Vec<String>)
        requires
            old(self).wf(),
            distinct_views(names@),
            old(self)@.messages.dom().contains(chat_id as int),
        ensures
            final(self).wf(),
            final(self)@.users == old(self)@.users.insert(chat_id as int, names_of(names@)),
            final(self)@.messages == old(self)@.messages,
            final(self)@.polls == old(self)@.polls,
    {
        proof {
            lemma_assoc_map_dom(user_entries(self.users@), chat_id as int);
        }
        let ghost before = self.users@;
        let ghost nview = names@;
        match find_i64_key(&self.users, chat_id) {
            Some(i) => {
                self.users.set(i, (chat_id, names));
                proof {
                    assert(user_entries(self.users@) =~= user_entries(before).update(
                        i as int,
                        (chat_id as int, names_of(nview)),
                    ));
                    lemma_assoc_map_update(
                        user_entries(before),
                        i as int,
                        chat_id as int,
                        names_of(nview),
                    );
                    assert(self@.users =~= old(self)@.users.insert(
                        chat_id as int,
                        names_of(nview),
                    ));
                    assert forall|k: int| 0 <= k < self.users@.len() implies distinct_views(
                        #[trigger] self.users@[k].1@,
                    ) by {
                        if k != i as int {
                            assert(self.users@[k] == before[k]);
                            assert(distinct_views(before[k].1@));
                        }
                    }
                }
            },
            None => {
                self.users.push((chat_id, names));
                proof {
                    assert(user_entries(self.users@) =~= user_entries(before).push(
                        (chat_id as int, names_of(nview)),
                    ));
                    lemma_assoc_map_push(user_entries(before), chat_id as int, names_of(nview));
                    assert(distinct_keys(user_entries(self.users@)));
                    assert forall|k: int| 0 <= k < self.users@.len() implies distinct_views(
                        #[trigger] self.users@[k].1@,
                    ) by {
                        if k < before.len() {
                            assert(self.users@[k] == before[k]);
                            assert(distinct_views(before[k].1@));
                        } else {
                            assert(self.users@[k].1@ == nview);
                        }
                    }
                }
            },
        }
        proof {
            assert(self@.users.dom() =~= old(self)@.users.dom().insert(chat_id as int));
        }
    }

    /// Sets the message entry of `chat_id` to exactly `message_id`.
    fn set_message_entry(&mut self, chat_id: i64, message_id: i32)
        requires
            old(self).wf(),
        ensures
            final(self).wf(),
            final(self)@.messages == old(self)@.messages.insert(chat_id as int, message_id as int),
            final(self)@.users == old(self)@.users,
            final(self)@.polls == old(self)@.polls,
    {
        proof {
            lemma_assoc_map_dom(message_entries(self.messages@), chat_id as int);
        }
        let ghost before = self.messages@;
        match find_i64_key(&self.messages, chat_id) {
            Some(i) => {
                self.messages.set(i, (chat_id, message_id));
                proof {
                    assert(message_entries(self.messages@) =~= message_entries(before).update(
                        i as int,
                        (chat_id as int, message_id as int),
                    ));
                    lemma_assoc_map_update(
                        message_entries(before),
                        i as int,
                        chat_id as int,
                        message_id as int,
                    );
                }
            },
            None => {
                self.messages.push((chat_id, message_id));
                proof {
                    assert(message_entries(self.messages@) =~= message_entries(before).push(
                        (chat_id as int, message_id as int),
                    ));
                    lemma_assoc_map_push(message_entries(before), chat_id as int, message_id as int);
                    assert(distinct_keys(message_entries(self.messages@)));
                }
            },
        }
        proof {
            assert(self@.messages.dom() =~= old(self)@.messages.dom().insert(chat_id as int));
        }
    }
}

/// Whether some string of the list has the same characters as `name`.
fn contains_name(list: &Vec<String>, name: &String) -> (r: bool)
    ensures
        r <==> names_of(list@).contains(name@),
{
    let mut i: usize = 0;
    while i < list.len()
        invariant
            i <= list@.len(),
            forall|j: int| 0 <= j < i ==> list@[j]@ != name@,
        decreases list@.len() - i,
    {
        if list[i] == *name {
            proof {
                assert(list@.map_values(|s: String| s@)[i as int] == name@);
            }
            return true;
        }
        i += 1;
    }
    proof {
        if names_of(list@).contains(name@) {
            let mapped = list@.map_values(|s: String| s@);
            let j = choose|j: int| 0 <= j < mapped.len() && #[trigger] mapped[j] == name@;
            assert(list@[j]@ == name@);
        }
    }
    false
}

/// A copy of the list without any string whose characters equal `name`'s.
fn remove_name(list: &Vec<String>, name: &String) -> (r: Vec<String>)
    requires
        distinct_views(list@),
    ensures
        names_of(r@) == names_of(list@).remove(name@),
        distinct_views(r@),
{
    let mut out: Vec<String> = Vec::new();
    let mut i: usize = 0;
    proof {
        assert(list@.take(0) =~= Seq::<String>::empty());
        assert(names_of(out@) =~= names_of(list@.take(0)).remove(name@));
    }
    while i < list.len()
        invariant
            i <= list@.len(),
            distinct_views(list@),
            names_of(out@) == names_of(list@.take(i as int)).remove(name@),
            distinct_views(out@),
            forall|j: int|
                0 <= j < out@.len() ==> names_of(list@.take(i as int)).contains(
                    #[trigger] out@[j]@,
                ),
        decreases list@.len() - i,
    {
        let ghost prev = out@;
        let ghost taken = list@.take(i as int);
        proof {
            assert(list@.take(i as int + 1) =~= taken.push(list@[i as int]));
            lemma_names_of_push(taken, list@[i as int]);
        }
        if !(list[i] == *name) {
            proof {
                assert forall|j: int| 0 <= j < prev.len() implies prev[j]@
                    != list@[i as int]@ by {
                    let tm = taken.map_values(|s: String| s@);
                    let k = choose|k: int| 0 <= k < tm.len() && #[trigger] tm[k] == prev[j]@;
                    assert(list@[k]@ == prev[j]@);
                    assert(list@[k]@ != list@[i as int]@);
                }
            }
            out.push(list[i].clone());
            proof {
                assert(out@ =~= prev.push(list@[i as int]));
                lemma_names_of_push(prev, list@[i as int]);
                assert(names_of(out@) =~= names_of(list@.take(i as int + 1)).remove(name@));
            }
        } else {
            proof {
                assert(list@[i as int]@ == name@);
                assert(names_of(out@) =~= names_of(list@.take(i as int + 1)).remove(name@));
            }
        }
        i += 1;
        proof {
            assert forall|j: int| 0 <= j < out@.len() implies names_of(
                list@.take(i as int),
            ).contains(#[trigger] out@[j]@) by {
                assert(names_of(list@.take(i as int)) == names_of(taken).insert(
                    list@[i as int - 1]@,
                ));
            }
        }
    }
    proof {
        assert(list@.take(list@.len() as int) =~= list@);
    }
    out
}

/// Appending a string adds its characters to the set the list stands for.
pub proof fn lemma_names_of_push(list: Seq<String>, s: String)
    ensures
        names_of(list.push(s)) == names_of(list).insert(s@),
{
    let mapped = list.map_values(|t: String| t@);
    let pushed = list.push(s).map_values(|t: String| t@);
    assert(pushed =~= mapped.push(s@));
    assert(mapped.push(s@).to_set() =~= mapped.to_set().insert(s@)) by {
        assert forall|x: Seq<char>| mapped.push(s@).contains(x) implies mapped.to_set().insert(
            s@,
        ).contains(x) by {
            let i = choose|i: int| 0 <= i < mapped.push(s@).len() && mapped.push(s@)[i] == x;
            if i < mapped.len() {
                assert(mapped[i] == x);
            }
        }
        assert forall|x: Seq<char>| mapped.to_set().insert(s@).contains(x) implies mapped.push(
            s@,
        ).contains(x) by {
            if mapped.contains(x) {
                let i = choose|i: int| 0 <= i < mapped.len() && mapped[i] == x;
                assert(mapped.push(s@)[i] == x);
            } else {
                assert(x == s@);
                assert(mapped.push(s@)[mapped.len() as int] == x);
            }
        }
    }
    assert(names_of(list.push(s)) =~= names_of(list).insert(s@));
}

} // verus!
