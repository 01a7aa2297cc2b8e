//! The snapshot body format.
//!
//! One conversation is stored as one JSON object with three members:
//! `message_id` (an integer), `poll_id` (a string, the literal text `null`
//! when no poll points at the conversation), and `users` (an array of
//! strings in arbitrary order). The grammar here is the library's own:
//! parsing and encoding are both specified over character sequences and the
//! executable code is proved to follow those specifications exactly.
//!
//! The parser accepts exactly objects of this shape: the three members in
//! any order, each possibly repeated (the last occurrence wins), surrounded
//! by arbitrary JSON whitespace. Strings may use the JSON escapes
//! `\" \\ \/ \b \f \n \r \t` and `\uXXXX` for codes outside the surrogate
//! range; the encoder escapes quotes, backslashes, and control characters.

use crate::numeral::{
    all_digits, dec_digits, dec_i64, digit_char, digit_val, digits_val, i64_dec_chars, is_digit,
    lemma_digits_val_prefix,
};
use crate::text::{char_from_u32, chars_of, push_char, push_chars, string_from_chars};
use vstd::prelude::*;
use vstd::string::StringExecFns;

verus! {

/// A snapshot record, as read from or written to one file body.
pub struct SnapshotRecord {
    pub message_id: i32,
    pub poll_id: String,
    pub users: Vec<String>,
}

/// The plain values a record carries.
pub struct RecordModel {
    pub message_id: int,
    pub poll_id: Seq<char>,
    pub users: Seq<Seq<char>>,
}

impl View for SnapshotRecord {
    type V = RecordModel;

    open spec fn view(&self) -> RecordModel {
        RecordModel {
            message_id: self.message_id as int,
            poll_id: self.poll_id@,
            users: self.users@.map_values(|u: String| u@),
        }
    }
}

pub open spec fn is_ws(c: char) -> bool {
    c == ' ' || c == '\t' || c == '\n' || c == '\r'
}

/// First position at or after `i` that does not hold whitespace.
pub open spec fn spec_skip_ws(s: Seq<char>, i: int) -> int
    decreases s.len() - i,
{
    if 0 <= i < s.len() && is_ws(s[i]) {
        spec_skip_ws(s, i + 1)
    } else {
        i
    }
}

/// The character named by a single-character JSON escape.
pub open spec fn escape_target(e: char) -> Option<char> {
    if e == '"' {
        Some('"')
    } else if e == '\\' {
        Some('\\')
    } else if e == '/' {
        Some('/')
    } else if e == 'b' {
        Some('\u{0008}')
    } else if e == 'f' {
        Some('\u{000C}')
    } else if e == 'n' {
        Some('\n')
    } else if e == 'r' {
        Some('\r')
    } else if e == 't' {
        Some('\t')
    } else {
        None
    }
}

pub open spec fn is_hex(c: char) -> bool {
    is_digit(c) || (97 <= c as u32 && c as u32 <= 102) || (65 <= c as u32 && c as u32 <= 70)
}

pub open spec fn hex_val(c: char) -> int {
    if is_digit(c) {
        digit_val(c)
    } else if 97 <= c as u32 {
        c as u32 - 87
    } else {
        c as u32 - 55
    }
}

/// The code named by the four hex digits at `i`.
pub open spec fn hex4_val(s: Seq<char>, i: int) -> int {
    ((hex_val(s[i]) * 16 + hex_val(s[i + 1])) * 16 + hex_val(s[i + 2])) * 16 + hex_val(s[i + 3])
}

/// The character with scalar value `v`.
pub open spec fn code_char(v: int) -> char {
    (v as u32) as char
}

/// Parses the inside of a JSON string, starting just after the opening
/// quote; yields the decoded characters and the position just past the
/// closing quote.
pub open spec fn spec_parse_string_body(s: Seq<char>, i: int) -> Option<(Seq<char>, int)>
    decreases s.len() - i,
{
    if !(0 <= i < s.len()) {
        None
    } else if s[i] == '"' {
        Some((Seq::empty(), i + 1))
    } else if s[i] == '\\' {
        if i + 1 >= s.len() {
            None
        } else if s[i + 1] == 'u' {
            if i + 6 <= s.len() && is_hex(s[i + 2]) && is_hex(s[i + 3]) && is_hex(s[i + 4])
                && is_hex(s[i + 5]) {
                let code = hex4_val(s, i + 2);
                if 0xD800 <= code < 0xE000 {
                    None
                } else {
                    match spec_parse_string_body(s, i + 6) {
                        Some(r) => Some((seq![code_char(code)] + r.0, r.1)),
                        None => None,
                    }
                }
            } else {
                None
            }
        } else {
            match escape_target(s[i + 1]) {
                Some(c) => match spec_parse_string_body(s, i + 2) {
                    Some(r) => Some((seq![c] + r.0, r.1)),
                    None => None,
                },
                None => None,
            }
        }
    } else if s[i] as u32 >= 32 {
        match spec_parse_string_body(s, i + 1) {
            Some(r) => Some((seq![s[i]] + r.0, r.1)),
            None => None,
        }
    } else {
        None
    }
}

pub proof fn lemma_parse_string_body_bounds(s: Seq<char>, i: int)
    requires
        spec_parse_string_body(s, i) is Some,
    ensures
        i < spec_parse_string_body(s, i).unwrap().1 <= s.len(),
    decreases s.len() - i,
{
    if s[i] == '"' {
    } else if s[i] == '\\' {
        if s[i + 1] == 'u' {
            lemma_parse_string_body_bounds(s, i + 6);
        } else {
            lemma_parse_string_body_bounds(s, i + 2);
        }
    } else {
        lemma_parse_string_body_bounds(s, i + 1);
    }
}

/// First position at or after `i` without a decimal digit.
pub open spec fn digit_run_end(s: Seq<char>, i: int) -> int
    decreases s.len() - i,
{
    if 0 <= i < s.len() && is_digit(s[i]) {
        digit_run_end(s, i + 1)
    } else {
        i
    }
}

pub proof fn lemma_digit_run_end(s: Seq<char>, i: int)
    requires
        0 <= i <= s.len(),
    ensures
        i <= digit_run_end(s, i) <= s.len(),
        forall|k: int| i <= k < digit_run_end(s, i) ==> is_digit(#[trigger] s[k]),
        digit_run_end(s, i) == s.len() || !is_digit(s[digit_run_end(s, i)]),
    decreases s.len() - i,
{
    if 0 <= i < s.len() && is_digit(s[i]) {
        lemma_digit_run_end(s, i + 1);
    }
}

/// Parses a JSON integer at `i`: an optional minus sign, then digits with no
/// superfluous leading zero, naming a value within the signed 64-bit range.
pub open spec fn spec_parse_int(s: Seq<char>, i: int) -> Option<(int, int)> {
    let d0 = if 0 <= i < s.len() && s[i] == '-' {
        i + 1
    } else {
        i
    };
    let e = digit_run_end(s, d0);
    if e == d0 {
        None
    } else if s[d0] == '0' && e > d0 + 1 {
        None
    } else {
        let v0 = digits_val(s.subrange(d0, e));
        let v = if d0 == i {
            v0
        } else {
            -v0
        };
        if -9223372036854775808 <= v <= 9223372036854775807 {
            Some((v, e))
        } else {
            None
        }
    }
}

/// Parses the tail of a `users` array: either the closing bracket or a comma
/// followed by one more string.
pub open spec fn spec_parse_more_users(s: Seq<char>, i: int) -> Option<(Seq<Seq<char>>, int)>
    decreases s.len() - i,
{
    if !(0 <= i <= s.len()) {
        None
    } else {
        let j = spec_skip_ws(s, i);
        if j < s.len() && s[j] == ']' {
            Some((Seq::empty(), j + 1))
        } else if j < s.len() && s[j] == ',' {
            let k = spec_skip_ws(s, j + 1);
            if k < s.len() && s[k] == '"' {
                match spec_parse_string_body(s, k + 1) {
                    Some(u) => {
                        if u.1 <= i || u.1 > s.len() {
                            None
                        } else {
                            match spec_parse_more_users(s, u.1) {
                                Some(rest) => Some((seq![u.0] + rest.0, rest.1)),
                                None => None,
                            }
                        }
                    },
                    None => None,
                }
            } else {
                None
            }
        } else {
            None
        }
    }
}

/// Parses a `users` array at `i`: strings between brackets, separated by
/// commas.
pub open spec fn spec_parse_users(s: Seq<char>, i: int) -> Option<(Seq<Seq<char>>, int)> {
    if 0 <= i < s.len() && s[i] == '[' {
        let j = spec_skip_ws(s, i + 1);
        if j < s.len() && s[j] == ']' {
            Some((Seq::empty(), j + 1))
        } else if j < s.len() && s[j] == '"' {
            match spec_parse_string_body(s, j + 1) {
                Some(u) => {
                    if u.1 <= i || u.1 > s.len() {
                        None
                    } else {
                        match spec_parse_more_users(s, u.1) {
                            Some(rest) => Some((seq![u.0] + rest.0, rest.1)),
                            None => None,
                        }
                    }
                },
                None => None,
            }
        } else {
            None
        }
    } else {
        None
    }
}

/// A record in the making: members seen so far.
pub struct PartialRecord {
    pub message_id: Option<int>,
    pub poll_id: Option<Seq<char>>,
    pub users: Option<Seq<Seq<char>>>,
}

/// Parses one member at `i` (the opening quote of its key) and folds its
/// value into `acc`. A key other than the three of the format is refused.
pub open spec fn spec_parse_member(s: Seq<char>, i: int, acc: PartialRecord) -> Option<
    (PartialRecord, int),
> {
    if 0 <= i < s.len() && s[i] == '"' {
        match spec_parse_string_body(s, i + 1) {
            Some(k) => {
                let j = spec_skip_ws(s, k.1);
                if 0 <= j < s.len() && s[j] == ':' {
                    let v = spec_skip_ws(s, j + 1);
                    if k.0 == "message_id"@ {
                        match spec_parse_int(s, v) {
                            Some(n) => Some((PartialRecord { message_id: Some(n.0), ..acc }, n.1)),
                            None => None,
                        }
                    } else if k.0 == "poll_id"@ {
                        if 0 <= v < s.len() && s[v] == '"' {
                            match spec_parse_string_body(s, v + 1) {
                                Some(p) => Some((PartialRecord { poll_id: Some(p.0), ..acc }, p.1)),
                                None => None,
                            }
                        } else {
                            None
                        }
                    } else if k.0 == "users"@ {
                        match spec_parse_users(s, v) {
                            Some(u) => Some((PartialRecord { users: Some(u.0), ..acc }, u.1)),
                            None => None,
                        }
                    } else {
                        None
                    }
                } else {
                    None
                }
            },
            None => None,
        }
    } else {
        None
    }
}

/// Parses the members after position `i`: a comma and a member, repeated,
/// until the closing brace.
pub open spec fn spec_parse_members(s: Seq<char>, i: int, acc: PartialRecord) -> Option<
    (PartialRecord, int),
>
    decreases s.len() - i,
{
    if !(0 <= i <= s.len()) {
        None
    } else {
        let j = spec_skip_ws(s, i);
        if j < s.len() && s[j] == '}' {
            Some((acc, j + 1))
        } else if j < s.len() && s[j] == ',' {
            let k = spec_skip_ws(s, j + 1);
            match spec_parse_member(s, k, acc) {
                Some(m) => {
                    if m.1 <= i || m.1 > s.len() {
                        None
                    } else {
                        spec_parse_members(s, m.1, m.0)
                    }
                },
                None => None,
            }
        } else {
            None
        }
    }
}

pub open spec fn empty_partial() -> PartialRecord {
    PartialRecord { message_id: None, poll_id: None, users: None }
}

/// Turns the members seen into a record: all three must be present and the
/// message id must fit its 32-bit type.
pub open spec fn finish_record(p: PartialRecord) -> Option<RecordModel> {
    match (p.message_id, p.poll_id, p.users) {
        (Some(mid), Some(pid), Some(us)) => {
            if -2147483648 <= mid <= 2147483647 {
                Some(RecordModel { message_id: mid, poll_id: pid, users: us })
            } else {
                None
            }
        },
        _ => None,
    }
}

/// Parses one whole snapshot body. `None` exactly on text that is not one
/// object of the format, carrying all three members, with nothing but
/// whitespace around it.
pub open spec fn spec_parse_record(s: Seq<char>) -> Option<RecordModel> {
    let i = spec_skip_ws(s, 0);
    if i < s.len() && s[i] == '{' {
        let j = spec_skip_ws(s, i + 1);
        let parsed = if j < s.len() && s[j] == '}' {
            Some((empty_partial(), j + 1))
        } else {
            match spec_parse_member(s, j, empty_partial()) {
                Some(m) => {
                    if m.1 < 0 || m.1 > s.len() {
                        None
                    } else {
                        spec_parse_members(s, m.1, m.0)
                    }
                },
                None => None,
            }
        };
        match parsed {
            Some(p) => {
                if spec_skip_ws(s, p.1) == s.len() {
                    finish_record(p.0)
                } else {
                    None
                }
            },
            None => None,
        }
    } else {
        None
    }
}

fn ws_char(c: char) -> (r: bool)
    ensures
        r == is_ws(c),
{
    c == ' ' || c == '\t' || c == '\n' || c == '\r'
}

fn skip_ws(s: &Vec<char>, i: usize) -> (r: usize)
    requires
        i <= s@.len(),
    ensures
        r == spec_skip_ws(s@, i as int),
        i <= r <= s@.len(),
{
    let mut j = i;
    while j < s.len() && ws_char(s[j])
        invariant
            i <= j <= s@.len(),
            spec_skip_ws(s@, i as int) == spec_skip_ws(s@, j as int),
        decreases s@.len() - j,
    {
        j += 1;
    }
    j
}

fn digit_test(c: char) -> (r: bool)
    ensures
        r == is_digit(c),
{
    let cu = c as u32;
    48 <= cu && cu <= 57
}

fn hex_digit_of(c: char) -> (r: Option<u32>)
    ensures
        match r {
            Some(v) => is_hex(c) && v == hex_val(c) && v < 16,
            None => !is_hex(c),
        },
{
    let cu = c as u32;
    if 48 <= cu && cu <= 57 {
        Some(cu - 48)
    } else if 97 <= cu && cu <= 102 {
        Some(cu - 87)
    } else if 65 <= cu && cu <= 70 {
        Some(cu - 55)
    } else {
        None
    }
}

fn escape_of(e: char) -> (r: Option<char>)
    ensures
        r == escape_target(e),
{
    if e == '"' {
        Some('"')
    } else if e == '\\' {
        Some('\\')
    } else if e == '/' {
        Some('/')
    } else if e == 'b' {
        Some('\u{0008}')
    } else if e == 'f' {
        Some('\u{000C}')
    } else if e == 'n' {
        Some('\n')
    } else if e == 'r' {
        Some('\r')
    } else if e == 't' {
        Some('\t')
    } else {
        None
    }
}

/// Decodes a JSON string from just after its opening quote.
fn parse_string_body(s: &Vec<char>, start: usize) -> (r: Option<(Vec<char>, usize)>)
    requires
        start <= s@.len(),
    ensures
        match r {
            Some(p) => spec_parse_string_body(s@, start as int) == Some((p.0@, p.1 as int))
                && start < p.1 <= s@.len(),
            None => spec_parse_string_body(s@, start as int) is None,
        },
{
    let mut out: Vec<char> = Vec::new();
    let mut i = start;
    proof {
        let sp = spec_parse_string_body(s@, start as int);
        if sp is Some {
            assert(out@ + sp.unwrap().0 =~= sp.unwrap().0);
        }
    }
    loop
        invariant
            start <= i <= s@.len(),
            (match spec_parse_string_body(s@, i as int) {
                Some(rest) => spec_parse_string_body(s@, start as int) == Some(
                    (out@ + rest.0, rest.1),
                ),
                None => spec_parse_string_body(s@, start as int) is None,
            }),
        decreases s@.len() - i,
    {
        if i >= s.len() {
            return None;
        }
        let c = s[i];
        if c == '"' {
            proof {
                lemma_parse_string_body_bounds(s@, i as int);
                assert(out@ + Seq::<char>::empty() =~= out@);
            }
            return Some((out, i + 1));
        }
        let ghost prev = out@;
        if c == '\\' {
            if s.len() - i < 2 {
                return None;
            }
            let e = s[i + 1];
            if e == 'u' {
                if s.len() - i < 6 {
                    return None;
                }
                let h1 = match hex_digit_of(s[i + 2]) {
                    Some(h) => h,
                    None => {
                        return None;
                    },
                };
                let h2 = match hex_digit_of(s[i + 3]) {
                    Some(h) => h,
                    None => {
                        return None;
                    },
                };
                let h3 = match hex_digit_of(s[i + 4]) {
                    Some(h) => h,
                    None => {
                        return None;
                    },
                };
                let h4 = match hex_digit_of(s[i + 5]) {
                    Some(h) => h,
                    None => {
                        return None;
                    },
                };
                let code = ((h1 * 16 + h2) * 16 + h3) * 16 + h4;
                proof {
                    assert(code == hex4_val(s@, i as int + 2));
                    assert(code < 0x10000);
                }
                if 0xD800 <= code && code < 0xE000 {
                    return None;
                }
                let ch = match char_from_u32(code) {
                    Some(ch) => ch,
                    None => {
                        proof {
                            assert(false);
                        }
                        return None;
                    },
                };
                out.push(ch);
                proof {
                    vstd::utf8::char_u32_cast(ch, code);
                    assert(code_char(hex4_val(s@, i as int + 2)) == ch);
                    let nxt = spec_parse_string_body(s@, i as int + 6);
                    if nxt is Some {
                        let r0 = nxt.unwrap().0;
                        assert(spec_parse_string_body(s@, i as int) == Some(
                            (seq![ch] + r0, nxt.unwrap().1),
                        ));
                        assert(prev + (seq![ch] + r0) =~= out@ + r0);
                    }
                }
                i += 6;
            } else {
                let ch = match escape_of(e) {
                    Some(ch) => ch,
                    None => {
                        return None;
                    },
                };
                out.push(ch);
                proof {
                    let nxt = spec_parse_string_body(s@, i as int + 2);
                    if nxt is Some {
                        let r0 = nxt.unwrap().0;
                        assert(spec_parse_string_body(s@, i as int) == Some(
                            (seq![ch] + r0, nxt.unwrap().1),
                        ));
                        assert(prev + (seq![ch] + r0) =~= out@ + r0);
                    }
                }
                i += 2;
            }
        } else {
            let cu = c as u32;
            if cu < 32 {
                return None;
            }
            out.push(c);
            proof {
                let nxt = spec_parse_string_body(s@, i as int + 1);
                if nxt is Some {
                    let r0 = nxt.unwrap().0;
                    assert(spec_parse_string_body(s@, i as int) == Some(
                        (seq![c] + r0, nxt.unwrap().1),
                    ));
                    assert(prev + (seq![c] + r0) =~= out@ + r0);
                }
            }
            i += 1;
        }
    }
}

/// Parses a JSON integer, as `spec_parse_int` reads it.
fn parse_int(s: &Vec<char>, i: usize) -> (r: Option<(i64, usize)>)
    requires
        i <= s@.len(),
    ensures
        match r {
            Some(p) => spec_parse_int(s@, i as int) == Some((p.0 as int, p.1 as int)) && i < p.1
                <= s@.len(),
            None => spec_parse_int(s@, i as int) is None,
        },
{
    let neg = i < s.len() && s[i] == '-';
    let d0: usize = if neg {
        i + 1
    } else {
        i
    };
    let mut e: usize = d0;
    while e < s.len() && digit_test(s[e])
        invariant
            d0 <= e <= s@.len(),
            digit_run_end(s@, d0 as int) == digit_run_end(s@, e as int),
        decreases s@.len() - e,
    {
        e += 1;
    }
    proof {
        assert(digit_run_end(s@, d0 as int) == e as int);
        lemma_digit_run_end(s@, d0 as int);
    }
    if e == d0 {
        return None;
    }
    if s[d0] == '0' && e > d0 + 1 {
        return None;
    }
    let ghost ds = s@.subrange(d0 as int, e as int);
    proof {
        assert forall|k: int| 0 <= k < ds.len() implies is_digit(#[trigger] ds[k]) by {
            assert(ds[k] == s@[d0 + k]);
        }
    }
    let mut acc: u64 = 0;
    let mut j = d0;
    proof {
        assert(s@.subrange(d0 as int, d0 as int) =~= Seq::<char>::empty());
    }
    while j < e
        invariant
            i <= d0 <= j <= e <= s@.len(),
            neg ==> d0 == i + 1 && i < s@.len() && s@[i as int] == '-',
            !neg ==> d0 == i,
            ds == s@.subrange(d0 as int, e as int),
            all_digits(ds),
            digit_run_end(s@, d0 as int) == e as int,
            e > d0,
            !(s@[d0 as int] == '0' && e > d0 + 1),
            acc == digits_val(s@.subrange(d0 as int, j as int)),
            acc <= 9223372036854775808u64,
        decreases e - j,
    {
        let ghost prefix = s@.subrange(d0 as int, j as int);
        let c = s[j];
        let cu = c as u32;
        proof {
            assert(ds[j - d0] == s@[j as int]);
            assert(is_digit(s@[j as int]));
        }
        let d = (cu - 48) as u64;
        let ghost longer = s@.subrange(d0 as int, j as int + 1);
        proof {
            assert(longer.drop_last() =~= prefix);
            assert(longer.last() == s@[j as int]);
            assert(digits_val(longer) == acc * 10 + d);
            assert(longer =~= ds.take(j as int + 1 - d0));
        }
        if acc > 922337203685477580u64 {
            proof {
                lemma_digits_val_prefix(ds, j as int + 1 - d0);
            }
            return None;
        }
        acc = acc * 10 + d;
        if acc > 9223372036854775808u64 {
            proof {
                lemma_digits_val_prefix(ds, j as int + 1 - d0);
            }
            return None;
        }
        j += 1;
    }
    proof {
        assert(s@.subrange(d0 as int, j as int) =~= ds);
    }
    if neg {
        if acc == 9223372036854775808u64 {
            Some((i64::MIN, e))
        } else {
            Some((-(acc as i64), e))
        }
    } else {
        if acc == 9223372036854775808u64 {
            None
        } else {
            Some((acc as i64, e))
        }
    }
}

/// Parses a `users` array of strings.
fn parse_users(s: &Vec<char>, i: usize) -> (r: Option<(Vec<String>, usize)>)
    requires
        i <= s@.len(),
    ensures
        match r {
            Some(p) => spec_parse_users(s@, i as int) == Some(
                (p.0@.map_values(|u: String| u@), p.1 as int),
            ) && i < p.1 <= s@.len(),
            None => spec_parse_users(s@, i as int) is None,
        },
{
    if i >= s.len() || !(s[i] == '[') {
        return None;
    }
    let j = skip_ws(s, i + 1);
    if j < s.len() && s[j] == ']' {
        let out: Vec<String> = Vec::new();
        proof {
            assert(out@.map_values(|u: String| u@) =~= Seq::<Seq<char>>::empty());
        }
        return Some((out, j + 1));
    }
    if !(j < s.len()) || !(s[j] == '"') {
        return None;
    }
    match parse_string_body(s, j + 1) {
        None => None,
        Some((u0, p1)) => {
            let mut out: Vec<String> = Vec::new();
            out.push(string_from_chars(&u0));
            let mut pos = p1;
            proof {
                let more = spec_parse_more_users(s@, p1 as int);
                if more is Some {
                    assert(out@.map_values(|u: String| u@) =~= seq![u0@]);
                    assert(seq![u0@] + more.unwrap().0 =~= out@.map_values(|u: String| u@)
                        + more.unwrap().0);
                }
            }
            loop
                invariant
                    i < pos <= s@.len(),
                    (match spec_parse_more_users(s@, pos as int) {
                        Some(rest) => spec_parse_users(s@, i as int) == Some(
                            (out@.map_values(|u: String| u@) + rest.0, rest.1),
                        ),
                        None => spec_parse_users(s@, i as int) is None,
                    }),
                decreases s@.len() - pos,
            {
                let ghost model = out@.map_values(|u: String| u@);
                let j2 = skip_ws(s, pos);
                if j2 < s.len() && s[j2] == ']' {
                    proof {
                        assert(model + Seq::<Seq<char>>::empty() =~= model);
                    }
                    return Some((out, j2 + 1));
                }
                if !(j2 < s.len()) || !(s[j2] == ',') {
                    return None;
                }
                let k = skip_ws(s, j2 + 1);
                if !(k < s.len()) || !(s[k] == '"') {
                    return None;
                }
                match parse_string_body(s, k + 1) {
                    None => {
                        return None;
                    },
                    Some((u, p2)) => {
                        out.push(string_from_chars(&u));
                        proof {
                            let nxt = spec_parse_more_users(s@, p2 as int);
                            if nxt is Some {
                                let r0 = nxt.unwrap().0;
                                assert(spec_parse_more_users(s@, pos as int) == Some(
                                    (seq![u@] + r0, nxt.unwrap().1),
                                ));
                                assert(out@.map_values(|t: String| t@) =~= model.push(u@));
                                assert(model + (seq![u@] + r0) =~= model.push(u@) + r0);
                            }
                        }
                        pos = p2;
                    },
                }
            }
        },
    }
}

/// The members seen so far while reading one record.
struct PartialExec {
    message_id: Option<i64>,
    poll_id: Option<String>,
    users: Option<Vec<String>>,
}

impl View for PartialExec {
    type V = PartialRecord;

    closed spec fn view(&self) -> PartialRecord {
        PartialRecord {
            message_id: match self.message_id {
                Some(v) => Some(v as int),
                None => None,
            },
            poll_id: match self.poll_id {
                Some(ref p) => Some(p@),
                None => None,
            },
            users: match self.users {
                Some(ref us) => Some(us@.map_values(|u: String| u@)),
                None => None,
            },
        }
    }
}

/// Parses one member starting at the opening quote of its key.
fn parse_member(s: &Vec<char>, i: usize, acc: PartialExec) -> (r: Option<(PartialExec, usize)>)
    requires
        i <= s@.len(),
    ensures
        match r {
            Some(p) => spec_parse_member(s@, i as int, acc@) == Some((p.0@, p.1 as int)) && i < p.1
                <= s@.len(),
            None => spec_parse_member(s@, i as int, acc@) is None,
        },
{
    let mut acc = acc;
    if i >= s.len() || !(s[i] == '"') {
        return None;
    }
    match parse_string_body(s, i + 1) {
        None => None,
        Some((key, k1)) => {
            let j = skip_ws(s, k1);
            if !(j < s.len()) || !(s[j] == ':') {
                return None;
            }
            let v = skip_ws(s, j + 1);
            let key_text = string_from_chars(&key);
            if key_text == String::from_str("message_id") {
                match parse_int(s, v) {
                    Some((n, e)) => {
                        acc.message_id = Some(n);
                        Some((acc, e))
                    },
                    None => None,
                }
            } else if key_text == String::from_str("poll_id") {
                if v < s.len() && s[v] == '"' {
                    match parse_string_body(s, v + 1) {
                        Some((p, e)) => {
                            acc.poll_id = Some(string_from_chars(&p));
                            Some((acc, e))
                        },
                        None => None,
                    }
                } else {
                    None
                }
            } else if key_text == String::from_str("users") {
                match parse_users(s, v) {
                    Some((us, e)) => {
                        acc.users = Some(us);
                        Some((acc, e))
                    },
                    None => None,
                }
            } else {
                None
            }
        },
    }
}

/// What the whole record parse yields once the members from `i` on are read
/// into `acc`.
pub open spec fn spec_members_outcome(s: Seq<char>, i: int, acc: PartialRecord) -> Option<
    RecordModel,
> {
    match spec_parse_members(s, i, acc) {
        Some(p) => {
            if spec_skip_ws(s, p.1) == s.len() {
                finish_record(p.0)
            } else {
                None
            }
        },
        None => None,
    }
}

/// Turns members into a finished record, exactly as `finish_record` does.
fn finish_partial(acc: PartialExec) -> (r: Option<SnapshotRecord>)
    ensures
        match r {
            Some(rec) => finish_record(acc@) == Some(rec@),
            None => finish_record(acc@) is None,
        },
{
    match (acc.message_id, acc.poll_id, acc.users) {
        (Some(mid), Some(pid), Some(us)) => {
            if -2147483648i64 <= mid && mid <= 2147483647i64 {
                Some(SnapshotRecord { message_id: mid as i32, poll_id: pid, users: us })
            } else {
                None
            }
        },
        _ => None,
    }
}

/// Parses one snapshot body, exactly as `spec_parse_record` reads it.
pub fn parse_record(body: &str) -> (r: Option<SnapshotRecord>)
    ensures
        match r {
            Some(rec) => spec_parse_record(body@) == Some(rec@),
            None => spec_parse_record(body@) is None,
        },
{
    let s = chars_of(body);
    let i = skip_ws(&s, 0);
    if !(i < s.len()) || !(s[i] == '{') {
        return None;
    }
    let j = skip_ws(&s, i + 1);
    if j < s.len() && s[j] == '}' {
        let t = skip_ws(&s, j + 1);
        if t == s.len() {
            return None;
        } else {
            return None;
        }
    }
    let first = parse_member(&s, j, PartialExec { message_id: None, poll_id: None, users: None });
    match first {
        None => None,
        Some((a0, p0)) => {
            let mut acc = a0;
            let mut pos = p0;
            loop
                invariant
                    0 < pos <= s@.len(),
                    spec_parse_record(body@) == spec_members_outcome(s@, pos as int, acc@),
                    s@ == body@,
                decreases s@.len() - pos,
            {
                let j2 = skip_ws(&s, pos);
                if j2 < s.len() && s[j2] == '}' {
                    let t = skip_ws(&s, j2 + 1);
                    if t == s.len() {
                        return finish_partial(acc);
                    } else {
                        return None;
                    }
                }
                if !(j2 < s.len()) || !(s[j2] == ',') {
                    return None;
                }
                let k = skip_ws(&s, j2 + 1);
                match parse_member(&s, k, acc) {
                    None => {
                        return None;
                    },
                    Some((a, p)) => {
                        acc = a;
                        pos = p;
                    },
                }
            }
        },
    }
}

/// The character of one hexadecimal digit, lower case.
pub open spec fn hex_digit_char(d: int) -> char
    recommends
        0 <= d < 16,
{
    if d < 10 {
        digit_char(d)
    } else {
        ((87 + d) as u8) as char
    }
}

/// One character as it stands inside an encoded JSON string: quotes and
/// backslashes carry a backslash, control characters become `\u00XX`.
pub open spec fn enc_char(c: char) -> Seq<char> {
    if c == '"' {
        seq!['\\', '"']
    } else if c == '\\' {
        seq!['\\', '\\']
    } else if (c as u32) < 32 {
        seq!['\\', 'u', '0', '0', hex_digit_char((c as u32 / 16) as int), hex_digit_char(
            (c as u32 % 16) as int,
        )]
    } else {
        seq![c]
    }
}

pub open spec fn enc_str_body(s: Seq<char>) -> Seq<char>
    decreases s.len(),
{
    if s.len() == 0 {
        Seq::empty()
    } else {
        enc_str_body(s.drop_last()) + enc_char(s.last())
    }
}

/// A string as encoded: its characters between quotes.
pub open spec fn enc_string(s: Seq<char>) -> Seq<char> {
    seq!['"'] + enc_str_body(s) + seq!['"']
}

/// The members of the `users` array, comma-separated.
pub open spec fn enc_users(us: Seq<Seq<char>>) -> Seq<char>
    decreases us.len(),
{
    if us.len() == 0 {
        Seq::empty()
    } else if us.len() == 1 {
        enc_string(us[0])
    } else {
        enc_users(us.drop_last()) + seq![','] + enc_string(us.last())
    }
}

/// The snapshot body written for a record.
pub open spec fn spec_encode_record(r: RecordModel) -> Seq<char> {
    "{\"message_id\":"@ + dec_i64(r.message_id) + ",\"poll_id\":"@ + enc_string(r.poll_id)
        + ",\"users\":["@ + enc_users(r.users) + "]}"@
}

fn hex_digit_exec(d: u32) -> (r: char)
    requires
        d < 16,
    ensures
        r == hex_digit_char(d as int),
{
    if d < 10 {
        (48u8 + d as u8) as char
    } else {
        (87u8 + d as u8) as char
    }
}

/// Appends `enc_string` of the text to `out`.
fn append_json_string(out: &mut String, text: &String)
    ensures
        final(out)@ == old(out)@ + enc_string(text@),
{
    push_char(out, '"');
    let cs = chars_of(text.as_str());
    let mut i: usize = 0;
    proof {
        assert(enc_str_body(cs@.take(0)) =~= Seq::<char>::empty());
        assert(out@ =~= old(out)@ + seq!['"'] + enc_str_body(cs@.take(0)));
    }
    while i < cs.len()
        invariant
            i <= cs@.len(),
            cs@ == text@,
            out@ == old(out)@ + seq!['"'] + enc_str_body(cs@.take(i as int)),
        decreases cs@.len() - i,
    {
        let c = cs[i];
        let ghost pre = out@;
        if c == '"' {
            push_char(out, '\\');
            push_char(out, '"');
            proof {
                assert(out@ =~= pre + enc_char(c));
            }
        } else if c == '\\' {
            push_char(out, '\\');
            push_char(out, '\\');
            proof {
                assert(out@ =~= pre + enc_char(c));
            }
        } else {
            let cu = c as u32;
            if cu < 32 {
                push_char(out, '\\');
                push_char(out, 'u');
                push_char(out, '0');
                push_char(out, '0');
                push_char(out, hex_digit_exec(cu / 16));
                push_char(out, hex_digit_exec(cu % 16));
                proof {
                    assert(out@ =~= pre + enc_char(c));
                }
            } else {
                push_char(out, c);
                proof {
                    assert(out@ =~= pre + enc_char(c));
                }
            }
        }
        proof {
            assert(cs@.take(i as int + 1).drop_last() =~= cs@.take(i as int));
            assert(cs@.take(i as int + 1).last() == cs@[i as int]);
            assert(out@ =~= old(out)@ + seq!['"'] + enc_str_body(cs@.take(i as int + 1)));
        }
        i += 1;
    }
    push_char(out, '"');
    proof {
        assert(cs@.take(cs@.len() as int) =~= cs@);
        assert(out@ =~= old(out)@ + enc_string(text@));
    }
}

/// Writes one record as its snapshot body, character for character what
/// `spec_encode_record` states.
pub fn encode_record(rec: &SnapshotRecord) -> (r: String)
    ensures
        r@ == spec_encode_record(rec@),
{
    let mut out = String::new();
    out.append("{\"message_id\":");
    let digits = i64_dec_chars(rec.message_id as i64);
    push_chars(&mut out, &digits);
    out.append(",\"poll_id\":");
    append_json_string(&mut out, &rec.poll_id);
    out.append(",\"users\":[");
    let ghost head = out@;
    let mut k: usize = 0;
    proof {
        let us = rec.users@.map_values(|u: String| u@);
        assert(enc_users(us.take(0)) =~= Seq::<char>::empty());
        assert(out@ =~= head + enc_users(us.take(0)));
    }
    while k < rec.users.len()
        invariant
            k <= rec.users@.len(),
            out@ == head + enc_users(rec.users@.map_values(|u: String| u@).take(k as int)),
        decreases rec.users@.len() - k,
    {
        let ghost pre = out@;
        if k > 0 {
            push_char(&mut out, ',');
        }
        append_json_string(&mut out, &rec.users[k]);
        proof {
            let us = rec.users@.map_values(|u: String| u@);
            assert(us.take(k as int + 1).drop_last() =~= us.take(k as int));
            assert(us.take(k as int + 1).last() == us[k as int]);
            assert(us[k as int] == rec.users@[k as int]@);
            if k == 0 {
                assert(out@ =~= head + enc_users(us.take(1)));
            } else {
                assert(out@ =~= head + enc_users(us.take(k as int + 1)));
            }
        }
        k += 1;
    }
    out.append("]}");
    proof {
        let us = rec.users@.map_values(|u: String| u@);
        assert(us.take(us.len() as int) =~= us);
        assert(out@ =~= spec_encode_record(rec@));
    }
    out
}

proof fn lemma_hex_digit_char_val(d: int)
    requires
        0 <= d < 16,
    ensures
        is_hex(hex_digit_char(d)),
        hex_val(hex_digit_char(d)) == d,
{
    if d < 10 {
        assert((((48 + d) as u8) as char) as u32 == 48 + d);
    } else {
        assert((((87 + d) as u8) as char) as u32 == 87 + d);
    }
}

proof fn lemma_enc_str_body_front(s: Seq<char>)
    requires
        s.len() > 0,
    ensures
        enc_str_body(s) == enc_char(s[0]) + enc_str_body(s.drop_first()),
    decreases s.len(),
{
    if s.len() == 1 {
        assert(s.drop_last() =~= Seq::<char>::empty());
        assert(s.drop_first() =~= Seq::<char>::empty());
        assert(enc_str_body(s.drop_last()) + enc_char(s.last()) =~= enc_char(s[0]) + enc_str_body(
            s.drop_first(),
        ));
    } else {
        lemma_enc_str_body_front(s.drop_last());
        assert(s.drop_last().drop_first() =~= s.drop_first().drop_last());
        assert(s.drop_last()[0] == s[0]);
        assert(s.drop_first().last() == s.last());
        assert(enc_str_body(s) =~= enc_char(s[0]) + enc_str_body(s.drop_first()));
    }
}

proof fn lemma_parse_enc_string(full: Seq<char>, i: int, s: Seq<char>, j: int)
    requires
        0 <= i <= j <= full.len(),
        full.subrange(i, j) == enc_str_body(s) + seq!['"'],
    ensures
        spec_parse_string_body(full, i) == Some((s, j)),
    decreases s.len(),
{
    if s.len() == 0 {
        assert(enc_str_body(s) + seq!['"'] =~= seq!['"']);
        assert(j - i == 1);
        assert(full[i] == full.subrange(i, j)[0]);
        assert(full[i] == '"');
    } else {
        lemma_enc_str_body_front(s);
        let c = s[0];
        let ec = enc_char(c);
        let rest = s.drop_first();
        let win = full.subrange(i, j);
        assert(win =~= ec + (enc_str_body(rest) + seq!['"']));
        let i2 = i + ec.len() as int;
        assert(full.subrange(i2, j) =~= win.subrange(ec.len() as int, j - i));
        assert(win.subrange(ec.len() as int, j - i) =~= enc_str_body(rest) + seq!['"']);
        lemma_parse_enc_string(full, i2, rest, j);
        assert(seq![c] + rest =~= s);
        assert(win[0] == full[i]);
        if c == '"' {
            assert(win[0] == '\\' && win[1] == '"');
            assert(full[i + 1] == win[1]);
        } else if c == '\\' {
            assert(win[0] == '\\' && win[1] == '\\');
            assert(full[i + 1] == win[1]);
        } else if (c as u32) < 32 {
            let hi = (c as u32 / 16) as int;
            let lo = (c as u32 % 16) as int;
            lemma_hex_digit_char_val(hi);
            lemma_hex_digit_char_val(lo);
            assert(win[0] == '\\' && win[1] == 'u' && win[2] == '0' && win[3] == '0' && win[4]
                == hex_digit_char(hi) && win[5] == hex_digit_char(lo));
            assert(full[i + 1] == win[1] && full[i + 2] == win[2] && full[i + 3] == win[3]
                && full[i + 4] == win[4] && full[i + 5] == win[5]);
            assert(('0' as u32) == 48);
            assert(is_hex('0') && hex_val('0') == 0);
            assert(hex4_val(full, i + 2) == hi * 16 + lo);
            assert(hex4_val(full, i + 2) == c as u32);
            vstd::utf8::char_u32_cast(c, c as u32);
            assert(code_char(hex4_val(full, i + 2)) == c);
        } else {
            assert(win[0] == c);
        }
    }
}

proof fn lemma_digit_run_end_exact(s: Seq<char>, d0: int, j: int)
    requires
        0 <= d0 <= j <= s.len(),
        forall|k: int| d0 <= k < j ==> is_digit(#[trigger] s[k]),
        j == s.len() || !is_digit(s[j]),
    ensures
        digit_run_end(s, d0) == j,
    decreases j - d0,
{
    if d0 < j {
        lemma_digit_run_end_exact(s, d0 + 1, j);
    }
}

proof fn lemma_parse_enc_int(full: Seq<char>, i: int, n: int, j: int)
    requires
        0 <= i <= j <= full.len(),
        i64::MIN <= n <= i64::MAX,
        full.subrange(i, j) == dec_i64(n),
        j == full.len() || !is_digit(full[j]),
    ensures
        spec_parse_int(full, i) == Some((n, j)),
{
    let mag: nat = if n < 0 {
        (-n) as nat
    } else {
        n as nat
    };
    crate::numeral::lemma_dec_digits_val(mag);
    crate::numeral::lemma_dec_digits_first(mag);
    let digits = dec_digits(mag);
    let win = full.subrange(i, j);
    let d0 = if n < 0 {
        i + 1
    } else {
        i
    };
    assert(win[0] == full[i]);
    if n >= 0 {
        assert(win == digits);
        assert(is_digit(full[i]));
        assert(('-' as u32) == 45);
        assert(full[i] != '-');
        assert forall|k: int| i <= k < j implies is_digit(#[trigger] full[k]) by {
            assert(win[k - i] == full[k]);
            assert(is_digit(digits[k - i]));
        }
        lemma_digit_run_end_exact(full, i, j);
        if j > i + 1 {
            assert(digits.len() >= 2);
            assert(mag >= 10);
            assert(full[i] == digits[0]);
            assert(full[i] != '0');
        }
        assert(full.subrange(d0, j) == digits);
    } else {
        assert(win =~= seq!['-'] + digits);
        assert(win[0] == '-');
        assert(full[i] == '-');
        assert(full.subrange(i + 1, j) =~= win.subrange(1, j - i));
        assert(win.subrange(1, j - i) =~= digits);
        assert forall|k: int| i + 1 <= k < j implies is_digit(#[trigger] full[k]) by {
            assert(win[k - i] == full[k]);
            assert(digits[k - i - 1] == win[k - i]);
            assert(is_digit(digits[k - i - 1]));
        }
        lemma_digit_run_end_exact(full, i + 1, j);
        assert(mag >= 1);
        if j > i + 2 {
            assert(digits.len() >= 2);
            assert(mag >= 10);
            assert(full[i + 1] == digits[0]);
            assert(full[i + 1] != '0');
        }
        assert(full.subrange(d0, j) == digits);
    }
}

spec fn enc_more(us: Seq<Seq<char>>) -> Seq<char>
    decreases us.len(),
{
    if us.len() == 0 {
        Seq::empty()
    } else {
        seq![','] + enc_string(us[0]) + enc_more(us.drop_first())
    }
}

proof fn lemma_enc_users_front(us: Seq<Seq<char>>)
    requires
        us.len() > 1,
    ensures
        enc_users(us) == enc_string(us[0]) + seq![','] + enc_users(us.drop_first()),
    decreases us.len(),
{
    if us.len() == 2 {
        assert(us.drop_last().len() == 1);
        assert(us.drop_last()[0] == us[0]);
        assert(us.drop_first().len() == 1);
        assert(us.drop_first()[0] == us[1]);
        assert(enc_users(us.drop_last()) == enc_string(us[0]));
        assert(enc_users(us.drop_first()) == enc_string(us[1]));
        assert(us.last() == us[1]);
        assert(enc_users(us) == enc_users(us.drop_last()) + seq![','] + enc_string(us.last()));
        assert(enc_users(us) =~= enc_string(us[0]) + seq![','] + enc_users(us.drop_first()));
    } else {
        lemma_enc_users_front(us.drop_last());
        assert(us.drop_last()[0] == us[0]);
        assert(us.drop_last().drop_first() =~= us.drop_first().drop_last());
        assert(us.drop_first().last() == us.last());
        assert(us.drop_first().len() > 1);
        assert(enc_users(us) =~= enc_string(us[0]) + seq![','] + enc_users(us.drop_first()));
    }
}

proof fn lemma_enc_users_more(us: Seq<Seq<char>>)
    requires
        us.len() >= 1,
    ensures
        enc_users(us) == enc_string(us[0]) + enc_more(us.drop_first()),
    decreases us.len(),
{
    if us.len() == 1 {
        assert(enc_more(us.drop_first()) =~= Seq::<char>::empty());
        assert(enc_users(us) =~= enc_string(us[0]) + enc_more(us.drop_first()));
    } else {
        lemma_enc_users_front(us);
        lemma_enc_users_more(us.drop_first());
        assert(enc_more(us.drop_first()) =~= seq![','] + enc_string(us.drop_first()[0])
            + enc_more(us.drop_first().drop_first()));
        assert(enc_users(us) =~= enc_string(us[0]) + enc_more(us.drop_first()));
    }
}

proof fn lemma_parse_enc_more(full: Seq<char>, i: int, us: Seq<Seq<char>>, j: int)
    requires
        0 <= i <= j <= full.len(),
        full.subrange(i, j) == enc_more(us) + seq![']'],
    ensures
        spec_parse_more_users(full, i) == Some((us, j)),
    decreases us.len(),
{
    let win = full.subrange(i, j);
    if us.len() == 0 {
        assert(win =~= seq![']']);
        assert(full[i] == win[0]);
        assert(!is_ws(']'));
        assert(spec_skip_ws(full, i) == i);
        assert(j == i + 1);
    } else {
        let e0 = enc_string(us[0]);
        assert(win =~= seq![','] + (e0 + (enc_more(us.drop_first()) + seq![']'])));
        assert(full[i] == win[0]);
        assert(win[0] == ',');
        assert(!is_ws(','));
        assert(spec_skip_ws(full, i) == i);
        assert(e0[0] == '"');
        assert(win[1] == '"');
        assert(full[i + 1] == win[1]);
        assert(!is_ws('"'));
        assert(spec_skip_ws(full, i + 1) == i + 1);
        let send = i + 1 + e0.len() as int;
        assert(full.subrange(i + 2, send) =~= win.subrange(2, 1 + e0.len() as int));
        assert(win.subrange(2, 1 + e0.len() as int) =~= enc_str_body(us[0]) + seq!['"']);
        lemma_parse_enc_string(full, i + 2, us[0], send);
        assert(full.subrange(send, j) =~= win.subrange(1 + e0.len() as int, j - i));
        assert(win.subrange(1 + e0.len() as int, j - i) =~= enc_more(us.drop_first())
            + seq![']']);
        lemma_parse_enc_more(full, send, us.drop_first(), j);
        assert(seq![us[0]] + us.drop_first() =~= us);
    }
}

proof fn lemma_parse_enc_users(full: Seq<char>, i: int, us: Seq<Seq<char>>, j: int)
    requires
        0 <= i <= j <= full.len(),
        full.subrange(i, j) == seq!['['] + enc_users(us) + seq![']'],
    ensures
        spec_parse_users(full, i) == Some((us, j)),
{
    let win = full.subrange(i, j);
    assert(win.len() == j - i);
    assert(win.len() == 2 + enc_users(us).len());
    assert(full[i] == win[0]);
    assert(win[0] == '[');
    if us.len() == 0 {
        assert(win =~= seq!['[', ']']);
        assert(full[i + 1] == win[1]);
        assert(win[1] == ']');
        assert(!is_ws(']'));
        assert(spec_skip_ws(full, i + 1) == i + 1);
        assert(j == i + 2);
    } else {
        lemma_enc_users_more(us);
        let e0 = enc_string(us[0]);
        assert(win =~= seq!['['] + (e0 + (enc_more(us.drop_first()) + seq![']'])));
        assert(e0[0] == '"');
        assert(win[1] == '"');
        assert(full[i + 1] == win[1]);
        assert(!is_ws('"'));
        assert(spec_skip_ws(full, i + 1) == i + 1);
        let send = i + 1 + e0.len() as int;
        assert(full.subrange(i + 2, send) =~= win.subrange(2, 1 + e0.len() as int));
        assert(win.subrange(2, 1 + e0.len() as int) =~= enc_str_body(us[0]) + seq!['"']);
        lemma_parse_enc_string(full, i + 2, us[0], send);
        assert(full.subrange(send, j) =~= win.subrange(1 + e0.len() as int, j - i));
        assert(win.subrange(1 + e0.len() as int, j - i) =~= enc_more(us.drop_first())
            + seq![']']);
        lemma_parse_enc_more(full, send, us.drop_first(), j);
        assert(seq![us[0]] + us.drop_first() =~= us);
    }
}

/// Decoding undoes encoding: a string written by the encoder reads back as
/// exactly itself, with the parse ending at the closing quote.
pub proof fn lemma_string_roundtrip(s: Seq<char>)
    ensures
        spec_parse_string_body(enc_string(s), 1) == Some((s, enc_string(s).len() as int)),
{
    let full = enc_string(s);
    assert(full.subrange(1, full.len() as int) =~= enc_str_body(s) + seq!['"']);
    lemma_parse_enc_string(full, 1, s, full.len() as int);
}

proof fn lemma_enc_str_body_raw(s: Seq<char>)
    requires
        forall|k: int|
            0 <= k < s.len() ==> (#[trigger] s[k]) != '"' && s[k] != '\\' && s[k] as u32 >= 32,
    ensures
        enc_str_body(s) == s,
    decreases s.len(),
{
    if s.len() == 0 {
        assert(enc_str_body(s) =~= s);
    } else {
        lemma_enc_str_body_raw(s.drop_last());
        assert(enc_char(s.last()) =~= seq![s.last()]);
        assert(enc_str_body(s) =~= s.drop_last() + seq![s.last()]);
        assert(s.drop_last() + seq![s.last()] =~= s);
    }
}

/// Parsing undoes encoding for a whole record: any record the encoder can
/// write is read back as exactly itself.
#[verifier::rlimit(100)]
pub proof fn lemma_record_roundtrip(r: RecordModel)
    requires
        -2147483648 <= r.message_id <= 2147483647,
    ensures
        spec_parse_record(spec_encode_record(r)) == Some(r),
{
    reveal_strlit("{\"message_id\":");
    reveal_strlit(",\"poll_id\":");
    reveal_strlit(",\"users\":[");
    reveal_strlit("]}");
    reveal_strlit("message_id");
    reveal_strlit("poll_id");
    reveal_strlit("users");
    let a = "{\"message_id\":"@;
    let dec = dec_i64(r.message_id);
    let b = ",\"poll_id\":"@;
    let ps = enc_string(r.poll_id);
    let c = ",\"users\":["@;
    let eu = enc_users(r.users);
    let d = "]}"@;
    let full = spec_encode_record(r);
    assert(full == a + dec + b + ps + c + eu + d);
    let key_m = "message_id"@;
    let key_p = "poll_id"@;
    let key_u = "users"@;
    assert(a.len() == 14 && b.len() == 11 && c.len() == 10 && d.len() == 2);
    assert(key_m.len() == 10 && key_p.len() == 7 && key_u.len() == 5);
    if r.message_id >= 0 {
        crate::numeral::lemma_dec_digits_val(r.message_id as nat);
        crate::numeral::lemma_dec_digits_first(r.message_id as nat);
    } else {
        crate::numeral::lemma_dec_digits_val((-r.message_id) as nat);
        assert(dec[0] == '-');
    }
    assert(dec.len() >= 1);
    assert(ps.len() >= 2 && ps[0] == '"');
    let t = full.len() as int;
    let e1 = 14 + dec.len() as int;
    let e2 = e1 + 11 + ps.len() as int;
    let e3 = e2 + 10 + eu.len() as int;
    assert(t == e3 + 2);
    // where each piece of the text stands
    assert forall|k: int| 0 <= k < 14 implies full[k] == a[k] by {
        assert(full.subrange(0, 14) =~= a);
        assert(full.subrange(0, 14)[k] == a[k]);
    }
    assert forall|k: int| 0 <= k < dec.len() implies full[14 + k] == dec[k] by {
        assert(full.subrange(14, e1) =~= dec);
        assert(full.subrange(14, e1)[k] == dec[k]);
    }
    assert forall|k: int| 0 <= k < 11 implies full[e1 + k] == b[k] by {
        assert(full.subrange(e1, e1 + 11) =~= b);
        assert(full.subrange(e1, e1 + 11)[k] == b[k]);
    }
    assert forall|k: int| 0 <= k < ps.len() implies full[e1 + 11 + k] == ps[k] by {
        assert(full.subrange(e1 + 11, e2) =~= ps);
        assert(full.subrange(e1 + 11, e2)[k] == ps[k]);
    }
    assert forall|k: int| 0 <= k < 10 implies full[e2 + k] == c[k] by {
        assert(full.subrange(e2, e2 + 10) =~= c);
        assert(full.subrange(e2, e2 + 10)[k] == c[k]);
    }
    assert forall|k: int| 0 <= k < 2 implies full[e3 + k] == d[k] by {
        assert(full.subrange(e3, t) =~= d);
        assert(full.subrange(e3, t)[k] == d[k]);
    }
    assert((' ' as u32) == 32 && ('\t' as u32) == 9 && ('\n' as u32) == 10 && ('\r' as u32)
        == 13);
    // the opening brace and the first key
    assert(full[0] == '{' && full[1] == '"');
    assert(spec_skip_ws(full, 0) == 0);
    assert(spec_skip_ws(full, 1) == 1);
    assert forall|k: int| 0 <= k < key_m.len() implies (#[trigger] key_m[k]) != '"' && key_m[k]
        != '\\' && key_m[k] as u32 >= 32 by {}
    lemma_enc_str_body_raw(key_m);
    assert(full.subrange(2, 13) =~= key_m + seq!['"']) by {
        assert forall|k: int| 0 <= k < 11 implies full.subrange(2, 13)[k] == (key_m
            + seq!['"'])[k] by {
            assert(full[2 + k] == a[2 + k]);
        }
    }
    lemma_parse_enc_string(full, 2, key_m, 13);
    assert(full[13] == ':' && !is_ws(':'));
    assert(spec_skip_ws(full, 13) == 13);
    assert(full[14 + 0int] == dec[0]);
    assert(!is_ws(dec[0]));
    assert(spec_skip_ws(full, 14) == 14);
    // the message id member
    assert(full.subrange(14, e1) =~= dec);
    assert(full[e1 + 0] == ',');
    assert((',' as u32) == 44 && !is_digit(','));
    lemma_parse_enc_int(full, 14, r.message_id, e1);
    let acc1 = PartialRecord { message_id: Some(r.message_id), ..empty_partial() };
    assert(spec_parse_member(full, 1, empty_partial()) == Some((acc1, e1)));
    // the poll id member
    assert(!is_ws(','));
    assert(spec_skip_ws(full, e1) == e1);
    assert(full[e1 + 1] == '"' && !is_ws('"'));
    assert(spec_skip_ws(full, e1 + 1) == e1 + 1);
    assert forall|k: int| 0 <= k < key_p.len() implies (#[trigger] key_p[k]) != '"' && key_p[k]
        != '\\' && key_p[k] as u32 >= 32 by {}
    lemma_enc_str_body_raw(key_p);
    assert(full.subrange(e1 + 2, e1 + 10) =~= key_p + seq!['"']) by {
        assert forall|k: int| 0 <= k < 8 implies full.subrange(e1 + 2, e1 + 10)[k] == (key_p
            + seq!['"'])[k] by {
            assert(full[e1 + (2 + k)] == b[2 + k]);
        }
    }
    lemma_parse_enc_string(full, e1 + 2, key_p, e1 + 10);
    assert(full[e1 + 10] == ':');
    assert(spec_skip_ws(full, e1 + 10) == e1 + 10);
    assert(full[e1 + 11 + 0] == '"');
    assert(spec_skip_ws(full, e1 + 11) == e1 + 11);
    assert(key_p != key_m);
    assert(full.subrange(e1 + 12, e2) =~= enc_str_body(r.poll_id) + seq!['"']) by {
        assert(ps =~= seq!['"'] + enc_str_body(r.poll_id) + seq!['"']);
        assert forall|k: int| 0 <= k < ps.len() - 1 implies full.subrange(e1 + 12, e2)[k] == (
        enc_str_body(r.poll_id) + seq!['"'])[k] by {
            assert(full[e1 + 11 + (k + 1)] == ps[k + 1]);
        }
    }
    lemma_parse_enc_string(full, e1 + 12, r.poll_id, e2);
    let acc2 = PartialRecord { poll_id: Some(r.poll_id), ..acc1 };
    assert(spec_parse_member(full, e1 + 1, acc1) == Some((acc2, e2)));
    // the users member
    assert(full[e2 + 0] == ',');
    assert(spec_skip_ws(full, e2) == e2);
    assert(full[e2 + 1] == '"');
    assert(spec_skip_ws(full, e2 + 1) == e2 + 1);
    assert forall|k: int| 0 <= k < key_u.len() implies (#[trigger] key_u[k]) != '"' && key_u[k]
        != '\\' && key_u[k] as u32 >= 32 by {}
    lemma_enc_str_body_raw(key_u);
    assert(full.subrange(e2 + 2, e2 + 8) =~= key_u + seq!['"']) by {
        assert forall|k: int| 0 <= k < 6 implies full.subrange(e2 + 2, e2 + 8)[k] == (key_u
            + seq!['"'])[k] by {
            assert(full[e2 + (2 + k)] == c[2 + k]);
        }
    }
    lemma_parse_enc_string(full, e2 + 2, key_u, e2 + 8);
    assert(full[e2 + 8] == ':');
    assert(spec_skip_ws(full, e2 + 8) == e2 + 8);
    assert(full[e2 + 9] == '[' && !is_ws('['));
    assert(spec_skip_ws(full, e2 + 9) == e2 + 9);
    assert(key_u != key_m && key_u != key_p);
    assert(full.subrange(e2 + 9, e3 + 1) =~= seq!['['] + eu + seq![']']) by {
        assert(full[e3 + 0] == ']');
        assert forall|k: int| 0 <= k < eu.len() + 2 implies full.subrange(e2 + 9, e3 + 1)[k] == (
        seq!['['] + eu + seq![']'])[k] by {
            if k == 0 {
                assert(full[e2 + 9] == c[9]);
            } else if k < eu.len() + 1 {
                assert(full[e2 + 10 + (k - 1)] == eu[k - 1]);
            } else {
                assert(full[e3 + 0] == d[0]);
            }
        }
    }
    lemma_parse_enc_users(full, e2 + 9, r.users, e3 + 1);
    let acc3 = PartialRecord { users: Some(r.users), ..acc2 };
    assert(spec_parse_member(full, e2 + 1, acc2) == Some((acc3, e3 + 1)));
    // the closing brace, and nothing after it
    assert(full[e3 + 1] == '}' && !is_ws('}'));
    assert(spec_skip_ws(full, e3 + 1) == e3 + 1);
    assert(spec_parse_members(full, e3 + 1, acc3) == Some((acc3, t)));
    assert(spec_parse_members(full, e2, acc2) == Some((acc3, t)));
    assert(spec_parse_members(full, e1, acc1) == Some((acc3, t)));
    assert(spec_skip_ws(full, t) == t);
    assert(finish_record(acc3) == Some(r));
}

} // verus!
