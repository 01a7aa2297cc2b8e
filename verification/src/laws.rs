//! Laws the store operations obey, stated over the model and proved once.
//!
//! Every operation's contract already pins its effect on the model; these
//! proof functions state what compositions of the operations do, for any
//! store and any inputs.

use crate::store::{
    spec_add_chat, spec_add_user, spec_get_message_id, spec_get_users, spec_poll2chat,
    spec_remove_chat, spec_remove_user, spec_update_poll, StoreModel,
};
use vstd::prelude::*;

verus! {

/// One membership operation: `true` adds the username, `false` removes it.
pub open spec fn apply_user_op(s: Set<Seq<char>>, op: (bool, Seq<char>)) -> Set<Seq<char>> {
    if op.0 {
        s.insert(op.1)
    } else {
        s.remove(op.1)
    }
}

/// The membership set implied by a sequence of add and remove operations.
pub open spec fn apply_user_ops(s: Set<Seq<char>>, ops: Seq<(bool, Seq<char>)>) -> Set<Seq<char>>
    decreases ops.len(),
{
    if ops.len() == 0 {
        s
    } else {
        apply_user_op(apply_user_ops(s, ops.drop_last()), ops.last())
    }
}

/// The same sequence of operations, run through the store.
pub open spec fn run_user_ops(m: StoreModel, c: int, ops: Seq<(bool, Seq<char>)>) -> StoreModel
    decreases ops.len(),
{
    if ops.len() == 0 {
        m
    } else {
        let prev = run_user_ops(m, c, ops.drop_last());
        if ops.last().0 {
            spec_add_user(prev, c, ops.last().1)
        } else {
            spec_remove_user(prev, c, ops.last().1)
        }
    }
}

/// On a tracked conversation, any sequence of membership additions and
/// removals leaves exactly the set implied by the sequence, and the
/// conversation stays tracked.
pub proof fn lemma_user_ops_exact(m: StoreModel, c: int, ops: Seq<(bool, Seq<char>)>)
    requires
        m.users.dom().contains(c),
    ensures
        run_user_ops(m, c, ops).users.dom().contains(c),
        spec_get_users(run_user_ops(m, c, ops), c) == Some(apply_user_ops(m.users[c], ops)),
        run_user_ops(m, c, ops).messages == m.messages,
        run_user_ops(m, c, ops).polls == m.polls,
    decreases ops.len(),
{
    if ops.len() == 0 {
    } else {
        lemma_user_ops_exact(m, c, ops.drop_last());
    }
}

/// A duplicate addition is a no-op at the set level.
pub proof fn lemma_duplicate_add_noop(s: Set<Seq<char>>, u: Seq<char>)
    requires
        s.contains(u),
    ensures
        s.insert(u) == s,
{
    assert(s.insert(u) =~= s);
}

/// Removing an absent username is a no-op at the set level.
pub proof fn lemma_remove_absent_noop(s: Set<Seq<char>>, u: Seq<char>)
    requires
        !s.contains(u),
    ensures
        s.remove(u) == s,
{
    assert(s.remove(u) =~= s);
}

/// Creating a conversation gives it the stated message and an empty
/// membership set.
pub proof fn lemma_add_chat_fresh(m: StoreModel, c: int, msg: int)
    ensures
        spec_get_message_id(spec_add_chat(m, c, msg), c) == Some(msg),
        spec_get_users(spec_add_chat(m, c, msg), c) == Some(Set::<Seq<char>>::empty()),
{
}

/// After a tracked conversation is removed, neither its membership set nor
/// its message can be found.
pub proof fn lemma_remove_chat_gone(m: StoreModel, c: int)
    requires
        m.users.dom().contains(c),
    ensures
        spec_get_users(spec_remove_chat(m, c), c) is None,
        spec_get_message_id(spec_remove_chat(m, c), c) is None,
{
}

/// A registered poll resolves to its conversation; an unknown poll
/// identifier resolves to nothing.
pub proof fn lemma_poll_index_exact(m: StoreModel, p: Seq<char>, c: int, q: Seq<char>)
    requires
        !m.polls.dom().contains(q),
    ensures
        spec_poll2chat(spec_update_poll(m, c, p), p) == Some(c),
        spec_poll2chat(m, q) is None,
{
}

/// The usernames a sequence of additions carries.
pub open spec fn added_names(ops: Seq<(bool, Seq<char>)>) -> Set<Seq<char>> {
    ops.map_values(|op: (bool, Seq<char>)| op.1).to_set()
}

/// Additions lose nothing: a sequence of pure additions leaves the earlier
/// members together with every added username, so no addition can erase
/// another once the calls are serialized by the store's guard.
pub proof fn lemma_adds_accumulate(s: Set<Seq<char>>, ops: Seq<(bool, Seq<char>)>)
    requires
        forall|i: int| 0 <= i < ops.len() ==> (#[trigger] ops[i]).0,
    ensures
        apply_user_ops(s, ops) == s.union(added_names(ops)),
    decreases ops.len(),
{
    if ops.len() == 0 {
        assert(added_names(ops) =~= Set::<Seq<char>>::empty());
        assert(s.union(added_names(ops)) =~= s);
    } else {
        lemma_adds_accumulate(s, ops.drop_last());
        let mapped = ops.map_values(|op: (bool, Seq<char>)| op.1);
        let dmapped = ops.drop_last().map_values(|op: (bool, Seq<char>)| op.1);
        assert(mapped =~= dmapped.push(ops.last().1));
        assert(mapped.to_set() =~= dmapped.to_set().insert(ops.last().1)) by {
            assert forall|x: Seq<char>| mapped.contains(x) implies dmapped.to_set().insert(
                ops.last().1,
            ).contains(x) by {
                let i = choose|i: int| 0 <= i < mapped.len() && mapped[i] == x;
                if i < dmapped.len() {
                    assert(dmapped[i] == x);
                }
            }
            assert forall|x: Seq<char>| dmapped.to_set().insert(ops.last().1).contains(
                x,
            ) implies mapped.contains(x) by {
                if dmapped.contains(x) {
                    let i = choose|i: int| 0 <= i < dmapped.len() && dmapped[i] == x;
                    assert(mapped[i] == x);
                } else {
                    assert(mapped[mapped.len() - 1] == x);
                }
            }
        }
        assert(ops.last().0);
        assert(apply_user_ops(s, ops) =~= s.union(added_names(ops)));
    }
}

/// Additions of pairwise distinct usernames to an empty membership set
/// leave exactly one member per addition: none is lost.
pub proof fn lemma_distinct_adds_count(ops: Seq<(bool, Seq<char>)>)
    requires
        forall|i: int| 0 <= i < ops.len() ==> (#[trigger] ops[i]).0,
        forall|i: int, j: int| 0 <= i < j < ops.len() ==> ops[i].1 != ops[j].1,
    ensures
        apply_user_ops(Set::empty(), ops) == added_names(ops),
        apply_user_ops(Set::empty(), ops).len() == ops.len(),
{
    lemma_adds_accumulate(Set::empty(), ops);
    let mapped = ops.map_values(|op: (bool, Seq<char>)| op.1);
    assert(Set::<Seq<char>>::empty().union(added_names(ops)) =~= added_names(ops));
    assert(mapped.no_duplicates());
    mapped.unique_seq_to_set();
}

} // verus!
