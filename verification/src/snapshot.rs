//! Snapshots: the store as a directory of per-conversation files.
//!
//! `dump` turns a store into name and body pairs, one file `<id>.json` per
//! tracked conversation; `load` rebuilds a store from such pairs, all or
//! nothing. The surrounding process does the actual reading and writing of
//! the directory and hands the file contents through unchanged.

use crate::json::{
    encode_record, lemma_record_roundtrip, parse_record, spec_encode_record, spec_parse_record,
    RecordModel, SnapshotRecord,
};
use crate::kvlist::lemma_to_set_push;
use crate::numeral::{dec_i64, i64_dec_chars, parse_i64_chars, spec_parse_i64};
use crate::store::{names_of, ChatStorage, StoreModel};
use crate::text::string_from_chars;
use vstd::prelude::*;
use vstd::string::StringExecFns;

verus! {

/// Why a load failed: a file whose name is not a decimal conversation id,
/// or a body that is not a record of the format.
#[derive(Debug, PartialEq, Eq, Structural, Clone, Copy)]
pub enum SnapshotError {
    MalformedName,
    MalformedRecord,
}

/// Where the stem of a file name ends, scanning for the last dot; a dot in
/// the first position does not separate an extension.
pub open spec fn stem_end(name: Seq<char>, i: int) -> int
    decreases i,
{
    if i <= 1 || i > name.len() {
        name.len() as int
    } else if name[i - 1] == '.' {
        i - 1
    } else {
        stem_end(name, i - 1)
    }
}

/// The stem of a file name: what stands before the last dot, or the whole
/// name when no dot separates an extension.
pub open spec fn file_stem(name: Seq<char>) -> Seq<char> {
    name.take(stem_end(name, name.len() as int))
}

/// What one loaded file contributes: membership becomes the set of listed
/// users, the message is set, and the poll index gains an entry unless the
/// poll field holds the literal text `null`.
pub open spec fn snapshot_model(c: int, rec: RecordModel, m: StoreModel) -> StoreModel {
    StoreModel {
        users: m.users.insert(c, rec.users.to_set()),
        messages: m.messages.insert(c, rec.message_id),
        polls: if rec.poll_id != "null"@ {
            m.polls.insert(rec.poll_id, c)
        } else {
            m.polls
        },
    }
}

pub open spec fn empty_model() -> StoreModel {
    StoreModel { users: Map::empty(), messages: Map::empty(), polls: Map::empty() }
}

/// Loading from file `i` on: the first malformed file name or body fails
/// the whole load; later files overwrite earlier ones with the same id.
pub open spec fn spec_load_from(
    m: StoreModel,
    files: Seq<(Seq<char>, Seq<char>)>,
    i: int,
) -> Result<StoreModel, SnapshotError>
    decreases files.len() - i,
{
    if !(0 <= i < files.len()) {
        Ok(m)
    } else {
        match spec_parse_i64(file_stem(files[i].0)) {
            None => Err(SnapshotError::MalformedName),
            Some(c) => match spec_parse_record(files[i].1) {
                None => Err(SnapshotError::MalformedRecord),
                Some(rec) => spec_load_from(snapshot_model(c, rec, m), files, i + 1),
            },
        }
    }
}

pub open spec fn spec_load(files: Seq<(Seq<char>, Seq<char>)>) -> Result<
    StoreModel,
    SnapshotError,
> {
    spec_load_from(empty_model(), files, 0)
}

/// The name and body views of the given files.
pub open spec fn files_model(files: Seq<(String, String)>) -> Seq<(Seq<char>, Seq<char>)> {
    files.map_values(|p: (String, String)| (p.0@, p.1@))
}

/// One dumped file is in order: its name is the decimal id with the `.json`
/// extension, and its body encodes a record carrying the conversation's
/// message, exactly its membership set, and a poll id that resolves to the
/// conversation when any does, the literal text `null` otherwise.
pub open spec fn entry_ok(m: StoreModel, e: (i64, String, String)) -> bool {
    &&& e.1@ == dec_i64(e.0 as int) + ".json"@
    &&& exists|rec: RecordModel|
        {
            &&& e.2@ == #[trigger] spec_encode_record(rec)
            &&& rec.message_id == m.messages[e.0 as int]
            &&& rec.users.to_set() == m.users[e.0 as int]
            &&& poll_choice_ok(m, e.0 as int, rec.poll_id)
        }
}

/// Whether any poll identifier resolves to conversation `c`.
pub open spec fn has_poll(m: StoreModel, c: int) -> bool {
    exists|q: Seq<char>| m.polls.dom().contains(q) && #[trigger] m.polls[q] == c
}

/// The poll id written for conversation `c`.
pub open spec fn poll_choice_ok(m: StoreModel, c: int, p: Seq<char>) -> bool {
    if has_poll(m, c) {
        m.polls.dom().contains(p) && m.polls[p] == c
    } else {
        p == "null"@
    }
}

fn stem_of(name: &Vec<char>) -> (r: Vec<char>)
    ensures
        r@ == file_stem(name@),
{
    let mut i = name.len();
    while i > 1 && !(name[i - 1] == '.')
        invariant
            i <= name@.len(),
            stem_end(name@, name@.len() as int) == stem_end(name@, i as int),
        decreases i,
    {
        i -= 1;
    }
    let e: usize = if i <= 1 {
        name.len()
    } else {
        i - 1
    };
    let mut out: Vec<char> = Vec::new();
    let mut k: usize = 0;
    proof {
        assert(out@ =~= name@.take(0));
    }
    while k < e
        invariant
            k <= e <= name@.len(),
            out@ == name@.take(k as int),
        decreases e - k,
    {
        out.push(name[k]);
        proof {
            assert(out@ =~= name@.take(k as int + 1));
        }
        k += 1;
    }
    out
}

impl ChatStorage {
    /// The snapshot files of this store: for each tracked conversation its
    /// id, the file name `<id>.json`, and the encoded body. One entry per
    /// tracked conversation, each id once.
    pub fn dump(&self) -> (r: Vec<(i64, String, String)>)
        requires
            self.wf(),
        ensures
            r@.len() == self@.users.dom().len(),
            forall|x: int, y: int| 0 <= x < y < r@.len() ==> r@[x].0 != r@[y].0,
            forall|x: int|
                0 <= x < r@.len() ==> self@.users.dom().contains(#[trigger] r@[x].0 as int)
                    && entry_ok(self@, r@[x]),
            forall|c: int|
                self@.users.dom().contains(c) ==> exists|x: int|
                    0 <= x < r@.len() && #[trigger] r@[x].0 as int == c,
    {
        proof {
            self.lemma_users_have_messages();
        }
        let entries = self.tracked_entries();
        let mut out: Vec<(i64, String, String)> = Vec::new();
        let mut i: usize = 0;
        while i < entries.len()
            invariant
                self.wf(),
                i <= entries@.len(),
                out@.len() == i,
                self@.users.dom().subset_of(self@.messages.dom()),
                forall|x: int, y: int| 0 <= x < y < entries@.len() ==> entries@[x].0
                    != entries@[y].0,
                forall|x: int|
                    0 <= x < entries@.len() ==> self@.users.dom().contains(
                        #[trigger] entries@[x].0 as int,
                    ) && names_of(entries@[x].1@) == self@.users[entries@[x].0 as int],
                forall|x: int| 0 <= x < i ==> (#[trigger] out@[x]).0 == entries@[x].0,
                forall|x: int|
                    0 <= x < i ==> self@.users.dom().contains(#[trigger] out@[x].0 as int)
                        && entry_ok(self@, out@[x]),
            decreases entries@.len() - i,
        {
            let (c, names) = {
                let entry = &entries[i];
                (entry.0, entry.1.clone())
            };
            proof {
                assert(names@ =~= entries@[i as int].1@);
            }
            let msg: i32 = match self.get_message_id(c) {
                Some(m) => m,
                None => {
                    proof {
                        assert(false);
                    }
                    0
                },
            };
            let poll: String = match self.poll_for(c) {
                Some(p) => p,
                None => String::from_str("null"),
            };
            let ghost poll_view = poll@;
            let rec = SnapshotRecord { message_id: msg, poll_id: poll, users: names };
            let body = encode_record(&rec);
            let digits = i64_dec_chars(c);
            let mut name = string_from_chars(&digits);
            name.append(".json");
            out.push((c, name, body));
            proof {
                assert(entry_ok(self@, (c, name, body))) by {
                    assert(body@ == spec_encode_record(rec@));
                    assert(rec@.message_id == self@.messages[c as int]);
                    assert(rec@.users.to_set() == self@.users[c as int]) by {
                        assert(rec@.users.to_set() == names_of(names@));
                    }
                    assert(poll_choice_ok(self@, c as int, rec@.poll_id));
                }
                assert forall|x: int| 0 <= x < i + 1 implies self@.users.dom().contains(
                    #[trigger] out@[x].0 as int,
                ) && entry_ok(self@, out@[x]) by {
                    if x < i {
                        assert(out@[x] == out@.drop_last()[x]);
                    }
                }
            }
            i += 1;
        }
        proof {
            assert forall|c: int| self@.users.dom().contains(c) implies exists|x: int|
                0 <= x < out@.len() && #[trigger] out@[x].0 as int == c by {
                let x = choose|x: int| 0 <= x < entries@.len() && #[trigger] entries@[x].0 as int
                    == c;
                assert(out@[x].0 as int == c);
            }
        }
        out
    }

    /// Rebuilds a store from the files of a snapshot directory, given as
    /// name and body pairs in directory order. All or nothing: the first
    /// malformed file name or body fails the whole load.
    pub fn load(files: &Vec<(String, String)>) -> (r: Result<ChatStorage, SnapshotError>)
        ensures
            match r {
                Ok(st) => st.wf() && spec_load(files_model(files@)) == Ok::<
                    StoreModel,
                    SnapshotError,
                >(st@),
                Err(e) => spec_load(files_model(files@)) == Err::<StoreModel, SnapshotError>(e),
            },
    {
        let ghost fm = files_model(files@);
        let mut st = ChatStorage::new();
        proof {
            assert(st@ == empty_model());
        }
        let mut i: usize = 0;
        while i < files.len()
            invariant
                i <= files@.len(),
                fm == files_model(files@),
                st.wf(),
                spec_load(fm) == spec_load_from(st@, fm, i as int),
            decreases files@.len() - i,
        {
            let ghost before = st@;
            let name_chars = crate::text::chars_of(files[i].0.as_str());
            let stem = stem_of(&name_chars);
            proof {
                assert(fm[i as int].0 == files@[i as int].0@);
                assert(stem@ == file_stem(fm[i as int].0));
            }
            let c: i64 = match parse_i64_chars(&stem) {
                Some(c) => c,
                None => {
                    return Err(SnapshotError::MalformedName);
                },
            };
            let rec: SnapshotRecord = match parse_record(files[i].1.as_str()) {
                Some(rec) => rec,
                None => {
                    return Err(SnapshotError::MalformedRecord);
                },
            };
            let ghost rec_model = rec@;
            st.add_chat(c, rec.message_id);
            let ghost base = st@;
            let users = rec.users;
            let mut k: usize = 0;
            proof {
                assert(rec_model.users.take(0).to_set() =~= Set::<Seq<char>>::empty());
                assert(base.users == before.users.insert(c as int, rec_model.users.take(0).to_set()));
            }
            while k < users.len()
                invariant
                    k <= users@.len(),
                    st.wf(),
                    users@.map_values(|u: String| u@) == rec_model.users,
                    st@.users == before.users.insert(c as int, rec_model.users.take(k as int).to_set()),
                    st@.messages == before.messages.insert(c as int, rec_model.message_id),
                    st@.polls == before.polls,
                decreases users@.len() - k,
            {
                let ghost pre = st@;
                let added = st.add_user(c, users[k].clone());
                proof {
                    assert(pre.users.dom().contains(c as int));
                    assert(added is Some);
                    assert(users@[k as int]@ == rec_model.users[k as int]);
                    assert(rec_model.users.take(k as int + 1) =~= rec_model.users.take(
                        k as int,
                    ).push(rec_model.users[k as int]));
                    lemma_to_set_push(rec_model.users.take(k as int), rec_model.users[k as int]);
                    assert(pre.users[c as int] == rec_model.users.take(k as int).to_set());
                    assert(st@.users =~= before.users.insert(
                        c as int,
                        rec_model.users.take(k as int + 1).to_set(),
                    ));
                }
                k += 1;
            }
            proof {
                assert(rec_model.users.take(users@.len() as int) =~= rec_model.users);
            }
            let null_text = String::from_str("null");
            if !(rec.poll_id == null_text) {
                st.update_poll(c, rec.poll_id);
            }
            proof {
                assert(st@ == snapshot_model(c as int, rec_model, before)) by {
                    assert(st@.users =~= snapshot_model(c as int, rec_model, before).users);
                    assert(st@.messages =~= snapshot_model(c as int, rec_model, before).messages);
                    if rec_model.poll_id != "null"@ {
                        assert(st@.polls =~= before.polls.insert(rec_model.poll_id, c as int));
                    }
                }
                assert(spec_parse_i64(file_stem(fm[i as int].0)) == Some(c as int));
                assert(spec_parse_record(fm[i as int].1) == Some(rec_model));
            }
            i += 1;
        }
        Ok(st)
    }
}

/// A dumped file name carries its conversation id back: the stem of
/// `<id>.json` is the decimal text of `id`, and parsing it yields `id`.
pub proof fn lemma_dump_name_roundtrip(c: int)
    requires
        i64::MIN <= c <= i64::MAX,
    ensures
        file_stem(dec_i64(c) + ".json"@) == dec_i64(c),
        spec_parse_i64(file_stem(dec_i64(c) + ".json"@)) == Some(c),
{
    reveal_strlit(".json");
    if c >= 0 {
        crate::numeral::lemma_dec_digits_val(c as nat);
    } else {
        crate::numeral::lemma_dec_digits_val((-c) as nat);
    }
    let dec = dec_i64(c);
    let name = dec + ".json"@;
    let l = dec.len() as int;
    assert(name.len() == l + 5);
    assert(name[l] == '.' && name[l + 1] == 'j' && name[l + 2] == 's' && name[l + 3] == 'o'
        && name[l + 4] == 'n');
    assert(stem_end(name, l + 1) == l);
    assert(stem_end(name, l + 2) == l);
    assert(stem_end(name, l + 3) == l);
    assert(stem_end(name, l + 4) == l);
    assert(stem_end(name, l + 5) == l);
    assert(file_stem(name) =~= dec);
    crate::numeral::lemma_parse_dec_i64(c);
}

/// The name and body views of dumped entries, as `load` would receive them.
pub open spec fn dump_files_model(out: Seq<(i64, String, String)>) -> Seq<(Seq<char>, Seq<char>)> {
    out.map_values(|e: (i64, String, String)| (e.1@, e.2@))
}

/// The record a dumped entry encodes, named from its body.
pub open spec fn dump_rec_of(m: StoreModel, e: (i64, String, String)) -> RecordModel {
    choose|rec: RecordModel|
        {
            &&& e.2@ == #[trigger] spec_encode_record(rec)
            &&& rec.message_id == m.messages[e.0 as int]
            &&& rec.users.to_set() == m.users[e.0 as int]
            &&& poll_choice_ok(m, e.0 as int, rec.poll_id)
        }
}

#[verifier::rlimit(100)]
proof fn lemma_load_of_dump_step(
    m: StoreModel,
    out: Seq<(i64, String, String)>,
    i: int,
    acc: StoreModel,
)
    requires
        m.users.dom().subset_of(m.messages.dom()),
        forall|c: int|
            m.messages.dom().contains(c) ==> -2147483648 <= #[trigger] m.messages[c]
                <= 2147483647,
        !m.polls.dom().contains("null"@),
        forall|x: int|
            0 <= x < out.len() ==> m.users.dom().contains(#[trigger] out[x].0 as int) && entry_ok(
                m,
                out[x],
            ),
        0 <= i < out.len(),
        forall|p: Seq<char>|
            #[trigger] acc.polls.dom().contains(p) ==> m.polls.dom().contains(p) && acc.polls[p]
                == m.polls[p],
    ensures
        ({
            let acc2 = snapshot_model(
                out[i].0 as int,
                dump_rec_of(m, out[i]),
                acc,
            );
            let rec = dump_rec_of(m, out[i]);
            let c = out[i].0 as int;
            &&& spec_load_from(acc, dump_files_model(out), i) == spec_load_from(
                acc2,
                dump_files_model(out),
                i + 1,
            )
            &&& acc2.users == acc.users.insert(c, m.users[c])
            &&& acc2.messages == acc.messages.insert(c, m.messages[c])
            &&& forall|p: Seq<char>|
                #[trigger] acc2.polls.dom().contains(p) ==> m.polls.dom().contains(p)
                    && acc2.polls[p] == m.polls[p]
            &&& forall|p: Seq<char>|
                #[trigger] acc.polls.dom().contains(p) ==> acc2.polls.dom().contains(p)
                    && acc2.polls[p] == acc.polls[p]
            &&& (has_poll(m, c) ==> exists|p: Seq<char>|
                acc2.polls.dom().contains(p) && #[trigger] acc2.polls[p] == c)
        }),
{
    let fm = dump_files_model(out);
    let c64 = out[i].0;
    let c = c64 as int;
    assert(m.users.dom().contains(c) && entry_ok(m, out[i]));
    let rec = dump_rec_of(m, out[i]);
    assert(out[i].2@ == spec_encode_record(rec) && rec.message_id == m.messages[c]
        && rec.users.to_set() == m.users[c] && poll_choice_ok(m, c, rec.poll_id)) by {
        let w = choose|w: RecordModel|
            {
                &&& out[i].2@ == #[trigger] spec_encode_record(w)
                &&& w.message_id == m.messages[out[i].0 as int]
                &&& w.users.to_set() == m.users[out[i].0 as int]
                &&& poll_choice_ok(m, out[i].0 as int, w.poll_id)
            };
        assert(out[i].2@ == spec_encode_record(w));
    }
    assert(fm[i].0 == out[i].1@ && fm[i].1 == out[i].2@);
    lemma_dump_name_roundtrip(c);
    assert(spec_parse_i64(file_stem(fm[i].0)) == Some(c));
    assert(m.messages.dom().contains(c));
    assert(-2147483648 <= rec.message_id <= 2147483647);
    lemma_record_roundtrip(rec);
    assert(spec_parse_record(fm[i].1) == Some(rec));
    let acc2 = snapshot_model(c, rec, acc);
    assert(spec_load_from(acc, fm, i) == spec_load_from(acc2, fm, i + 1));
    if rec.poll_id != "null"@ {
        assert(has_poll(m, c)) by {
            if !has_poll(m, c) {
                assert(rec.poll_id == "null"@);
            }
        }
        assert(m.polls.dom().contains(rec.poll_id) && m.polls[rec.poll_id] == c);
        assert(acc2.polls.dom().contains(rec.poll_id) && acc2.polls[rec.poll_id] == c);
    } else {
        if has_poll(m, c) {
            assert(poll_choice_ok(m, c, rec.poll_id));
            assert(m.polls.dom().contains(rec.poll_id));
            assert(false);
        }
    }
    assert forall|p: Seq<char>| #[trigger] acc2.polls.dom().contains(p) implies m.polls.dom()
        .contains(p) && acc2.polls[p] == m.polls[p] by {
        if !(rec.poll_id != "null"@ && p == rec.poll_id) {
            assert(acc.polls.dom().contains(p));
            assert(acc.polls[p] == m.polls[p]);
        }
    }
    assert forall|p: Seq<char>| #[trigger] acc.polls.dom().contains(p) implies acc2.polls.dom()
        .contains(p) && acc2.polls[p] == acc.polls[p] by {
        if rec.poll_id != "null"@ && p == rec.poll_id {
            assert(acc.polls[p] == m.polls[p]);
        }
    }
    assert(acc2.users =~= acc.users.insert(c, m.users[c]));
    assert(acc2.messages =~= acc.messages.insert(c, m.messages[c]));
}

#[verifier::rlimit(100)]
proof fn lemma_load_of_dump_from(
    m: StoreModel,
    out: Seq<(i64, String, String)>,
    i: int,
    acc: StoreModel,
)
    requires
        m.users.dom().subset_of(m.messages.dom()),
        forall|c: int|
            m.messages.dom().contains(c) ==> -2147483648 <= #[trigger] m.messages[c]
                <= 2147483647,
        !m.polls.dom().contains("null"@),
        forall|x: int, y: int| 0 <= x < y < out.len() ==> out[x].0 != out[y].0,
        forall|x: int|
            0 <= x < out.len() ==> m.users.dom().contains(#[trigger] out[x].0 as int) && entry_ok(
                m,
                out[x],
            ),
        0 <= i <= out.len(),
        forall|c: int|
            acc.users.dom().contains(c) ==> exists|x: int|
                0 <= x < i && #[trigger] out[x].0 as int == c,
        forall|x: int| 0 <= x < i ==> acc.users.dom().contains(#[trigger] out[x].0 as int),
        forall|c: int| acc.users.dom().contains(c) ==> #[trigger] acc.users[c] == m.users[c],
        acc.messages.dom() == acc.users.dom(),
        forall|c: int| acc.users.dom().contains(c) ==> #[trigger] acc.messages[c] == m.messages[c],
        forall|p: Seq<char>|
            #[trigger] acc.polls.dom().contains(p) ==> m.polls.dom().contains(p) && acc.polls[p]
                == m.polls[p],
        forall|x: int|
            0 <= x < i && #[trigger] has_poll(m, out[x].0 as int) ==> exists|p: Seq<char>|
                acc.polls.dom().contains(p) && #[trigger] acc.polls[p] == out[x].0 as int,
    ensures
        spec_load_from(acc, dump_files_model(out), i) is Ok,
        ({
            let m2 = spec_load_from(acc, dump_files_model(out), i).unwrap();
            &&& forall|c: int|
                m2.users.dom().contains(c) ==> (acc.users.dom().contains(c) || exists|x: int|
                    i <= x < out.len() && #[trigger] out[x].0 as int == c)
            &&& forall|x: int|
                i <= x < out.len() ==> m2.users.dom().contains(#[trigger] out[x].0 as int)
            &&& forall|c: int| m2.users.dom().contains(c) ==> #[trigger] m2.users[c] == m.users[c]
            &&& m2.messages.dom() == m2.users.dom()
            &&& forall|c: int|
                m2.users.dom().contains(c) ==> #[trigger] m2.messages[c] == m.messages[c]
            &&& forall|p: Seq<char>|
                #[trigger] m2.polls.dom().contains(p) ==> m.polls.dom().contains(p)
                    && m2.polls[p] == m.polls[p]
            &&& forall|x: int|
                0 <= x < out.len() && #[trigger] has_poll(m, out[x].0 as int) ==> exists|
                    p: Seq<char>,
                |
                    m2.polls.dom().contains(p) && #[trigger] m2.polls[p] == out[x].0 as int
            &&& forall|c: int|
                acc.users.dom().contains(c) ==> #[trigger] m2.users.dom().contains(c)
        }),
    decreases out.len() - i,
{
    if i == out.len() {
    } else {
        let c = out[i].0 as int;
        lemma_load_of_dump_step(m, out, i, acc);
        let rec = dump_rec_of(m, out[i]);
        let acc2 = snapshot_model(c, rec, acc);
        assert(acc2.messages.dom() =~= acc2.users.dom());
        assert forall|x: int| 0 <= x < i + 1 && #[trigger] has_poll(m, out[x].0 as int) implies
            exists|p: Seq<char>|
            acc2.polls.dom().contains(p) && #[trigger] acc2.polls[p] == out[x].0 as int by {
            if x < i {
                let p = choose|p: Seq<char>|
                    acc.polls.dom().contains(p) && #[trigger] acc.polls[p] == out[x].0 as int;
                assert(acc2.polls.dom().contains(p) && acc2.polls[p] == out[x].0 as int);
            }
        }
        lemma_load_of_dump_from(m, out, i + 1, acc2);
    }
}

/// Loading what was dumped restores the store: membership and messages come
/// back exactly for every tracked conversation, the rebuilt poll index is a
/// part of the one dumped, and every tracked conversation that had a poll
/// still has one. Message entries of untracked conversations are not
/// written, so they do not return; a poll whose identifier is the literal
/// text `null` cannot be told apart from the absence of one.
pub proof fn lemma_dump_then_load(m: StoreModel, out: Seq<(i64, String, String)>)
    requires
        m.users.dom().subset_of(m.messages.dom()),
        forall|c: int|
            m.messages.dom().contains(c) ==> -2147483648 <= #[trigger] m.messages[c]
                <= 2147483647,
        !m.polls.dom().contains("null"@),
        forall|x: int, y: int| 0 <= x < y < out.len() ==> out[x].0 != out[y].0,
        forall|x: int|
            0 <= x < out.len() ==> m.users.dom().contains(#[trigger] out[x].0 as int) && entry_ok(
                m,
                out[x],
            ),
        forall|c: int|
            m.users.dom().contains(c) ==> exists|x: int|
                0 <= x < out.len() && #[trigger] out[x].0 as int == c,
    ensures
        spec_load(dump_files_model(out)) is Ok,
        ({
            let m2 = spec_load(dump_files_model(out)).unwrap();
            &&& m2.users == m.users
            &&& m2.messages.dom() == m.users.dom()
            &&& forall|c: int|
                m.users.dom().contains(c) ==> #[trigger] m2.messages[c] == m.messages[c]
            &&& forall|p: Seq<char>|
                #[trigger] m2.polls.dom().contains(p) ==> m.polls.dom().contains(p)
                    && m2.polls[p] == m.polls[p]
            &&& forall|c: int|
                m.users.dom().contains(c) && has_poll(m, c) ==> exists|p: Seq<char>|
                    m2.polls.dom().contains(p) && #[trigger] m2.polls[p] == c
        }),
{
    let fm = dump_files_model(out);
    assert(empty_model().messages.dom() =~= empty_model().users.dom());
    lemma_load_of_dump_from(m, out, 0, empty_model());
    let m2 = spec_load_from(empty_model(), fm, 0).unwrap();
    assert(m2.users =~= m.users) by {
        assert forall|c: int| m.users.dom().contains(c) implies m2.users.dom().contains(c) by {
            let x = choose|x: int| 0 <= x < out.len() && #[trigger] out[x].0 as int == c;
            assert(m2.users.dom().contains(out[x].0 as int));
        }
    }
    assert forall|c: int| m.users.dom().contains(c) && has_poll(m, c) implies exists|
        p: Seq<char>,
    |
        m2.polls.dom().contains(p) && #[trigger] m2.polls[p] == c by {
        let x = choose|x: int| 0 <= x < out.len() && #[trigger] out[x].0 as int == c;
        assert(has_poll(m, out[x].0 as int));
    }
}

proof fn lemma_load_from_err(
    m: StoreModel,
    files: Seq<(Seq<char>, Seq<char>)>,
    j: int,
    i: int,
)
    requires
        0 <= j <= i < files.len(),
        spec_parse_i64(file_stem(files[i].0)) is None || spec_parse_record(files[i].1) is None,
    ensures
        spec_load_from(m, files, j) is Err,
    decreases i - j,
{
    if j < i {
        if spec_parse_i64(file_stem(files[j].0)) is Some && spec_parse_record(files[j].1)
            is Some {
            let c = spec_parse_i64(file_stem(files[j].0)).unwrap();
            let rec = spec_parse_record(files[j].1).unwrap();
            lemma_load_from_err(snapshot_model(c, rec, m), files, j + 1, i);
        }
    }
}

/// Load is all or nothing: one file whose name is not a decimal id, or
/// whose body is not a record of the format, fails the whole load.
pub proof fn lemma_load_all_or_nothing(files: Seq<(Seq<char>, Seq<char>)>, i: int)
    requires
        0 <= i < files.len(),
        spec_parse_i64(file_stem(files[i].0)) is None || spec_parse_record(files[i].1) is None,
    ensures
        spec_load(files) is Err,
{
    lemma_load_from_err(empty_model(), files, 0, i);
}

proof fn lemma_load_from_poll(
    m: StoreModel,
    files: Seq<(Seq<char>, Seq<char>)>,
    j: int,
    p: Seq<char>,
)
    requires
        0 <= j,
        spec_load_from(m, files, j) is Ok,
        spec_load_from(m, files, j).unwrap().polls.dom().contains(p),
    ensures
        m.polls.dom().contains(p) || (p != "null"@ && exists|i: int|
            j <= i < files.len() && spec_parse_record(#[trigger] files[i].1) is Some
                && spec_parse_record(files[i].1).unwrap().poll_id == p),
    decreases files.len() - j,
{
    if !(0 <= j < files.len()) {
    } else {
        let c = spec_parse_i64(file_stem(files[j].0)).unwrap();
        let rec = spec_parse_record(files[j].1).unwrap();
        let m2 = snapshot_model(c, rec, m);
        lemma_load_from_poll(m2, files, j + 1, p);
        if m2.polls.dom().contains(p) && !m.polls.dom().contains(p) {
            assert(rec.poll_id != "null"@ && p == rec.poll_id);
        }
    }
}

/// Loading never invents a poll entry: every key of the loaded poll index
/// is the poll id of some file's record and is never the literal text
/// `null` — in particular, a file whose `poll_id` field holds `null`
/// contributes no entry.
pub proof fn lemma_load_poll_provenance(files: Seq<(Seq<char>, Seq<char>)>, p: Seq<char>)
    requires
        spec_load(files) is Ok,
        spec_load(files).unwrap().polls.dom().contains(p),
    ensures
        p != "null"@,
        exists|i: int|
            0 <= i < files.len() && spec_parse_record(#[trigger] files[i].1) is Some
                && spec_parse_record(files[i].1).unwrap().poll_id == p,
{
    lemma_load_from_poll(empty_model(), files, 0, p);
}

} // verus!
