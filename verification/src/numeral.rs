//! Decimal text for 64-bit integers: rendering and parsing, each against an
//! exact specification. Snapshot file names are the decimal conversation id,
//! and the snapshot body carries the message id as a decimal numeral.

use vstd::prelude::*;

verus! {

/// The character of one decimal digit.
pub open spec fn digit_char(d: int) -> char
    recommends
        0 <= d < 10,
{
    ((48 + d) as u8) as char
}

pub open spec fn is_digit(c: char) -> bool {
    48 <= c as u32 && c as u32 <= 57
}

pub open spec fn digit_val(c: char) -> int {
    c as u32 - 48
}

/// Decimal digits of a nonnegative number, most significant first.
pub open spec fn dec_digits(n: nat) -> Seq<char>
    decreases n,
{
    if n < 10 {
        seq![digit_char(n as int)]
    } else {
        dec_digits(n / 10).push(digit_char((n % 10) as int))
    }
}

/// Decimal text of a signed number.
pub open spec fn dec_i64(n: int) -> Seq<char> {
    if n < 0 {
        seq!['-'] + dec_digits((-n) as nat)
    } else {
        dec_digits(n as nat)
    }
}

/// The number a digit string names, most significant digit first.
pub open spec fn digits_val(s: Seq<char>) -> int
    decreases s.len(),
{
    if s.len() == 0 {
        0
    } else {
        digits_val(s.drop_last()) * 10 + digit_val(s.last())
    }
}

pub open spec fn all_digits(s: Seq<char>) -> bool {
    forall|i: int| 0 <= i < s.len() ==> is_digit(#[trigger] s[i])
}

/// What `i64::from_str` accepts: an optional sign, then one or more digits,
/// naming a value within the signed 64-bit range.
pub open spec fn spec_parse_i64(s: Seq<char>) -> Option<int> {
    if s.len() == 0 {
        None
    } else {
        let neg = s[0] == '-';
        let ds = if s[0] == '-' || s[0] == '+' {
            s.drop_first()
        } else {
            s
        };
        if ds.len() == 0 || !all_digits(ds) {
            None
        } else {
            let v = if neg {
                -digits_val(ds)
            } else {
                digits_val(ds)
            };
            if i64::MIN <= v <= i64::MAX {
                Some(v)
            } else {
                None
            }
        }
    }
}

pub proof fn lemma_digits_val_nonneg(s: Seq<char>)
    requires
        all_digits(s),
    ensures
        digits_val(s) >= 0,
    decreases s.len(),
{
    if s.len() == 0 {
    } else {
        assert(all_digits(s.drop_last())) by {
            assert(forall|i: int|
                0 <= i < s.drop_last().len() ==> is_digit(#[trigger] s.drop_last()[i]));
        }
        lemma_digits_val_nonneg(s.drop_last());
        assert(is_digit(s.last()));
    }
}

/// More digits never shrink the value.
pub proof fn lemma_digits_val_prefix(s: Seq<char>, k: int)
    requires
        all_digits(s),
        0 <= k <= s.len(),
    ensures
        digits_val(s) >= digits_val(s.take(k)),
    decreases s.len() - k,
{
    if k == s.len() {
        assert(s.take(k) =~= s);
    } else {
        lemma_digits_val_prefix(s, k + 1);
        let t = s.take(k + 1);
        assert(t.drop_last() =~= s.take(k));
        assert(t.last() == s[k]);
        assert(is_digit(s[k]));
        assert(all_digits(s.take(k))) by {
            assert(forall|i: int| 0 <= i < k ==> is_digit(#[trigger] s.take(k)[i]));
        }
        lemma_digits_val_nonneg(s.take(k));
        assert(digits_val(t) >= digits_val(s.take(k)));
    }
}

pub proof fn lemma_digit_char_val(d: int)
    requires
        0 <= d < 10,
    ensures
        is_digit(digit_char(d)),
        digit_val(digit_char(d)) == d,
{
    assert((((48 + d) as u8) as char) as u32 == 48 + d);
}

/// Rendering is faithful: the digits of `n` name `n` again.
pub proof fn lemma_dec_digits_val(n: nat)
    ensures
        dec_digits(n).len() >= 1,
        all_digits(dec_digits(n)),
        digits_val(dec_digits(n)) == n,
    decreases n,
{
    if n < 10 {
        lemma_digit_char_val(n as int);
        let s = dec_digits(n);
        assert(s == seq![digit_char(n as int)]);
        assert(s.drop_last() =~= Seq::<char>::empty());
        assert(digits_val(s.drop_last()) == 0);
        assert(s.last() == digit_char(n as int));
        assert(digits_val(s) == 0 * 10 + digit_val(digit_char(n as int)));
    } else {
        lemma_dec_digits_val(n / 10);
        lemma_digit_char_val((n % 10) as int);
        let s = dec_digits(n);
        assert(s.drop_last() =~= dec_digits(n / 10));
        assert(s.last() == digit_char((n % 10) as int));
        assert forall|i: int| 0 <= i < s.len() implies is_digit(#[trigger] s[i]) by {
            if i < s.len() - 1 {
                assert(s[i] == dec_digits(n / 10)[i]);
            }
        }
        assert(digits_val(s) == (n / 10) * 10 + (n % 10));
    }
}

/// The first digit: always a digit, and never a superfluous zero.
pub proof fn lemma_dec_digits_first(n: nat)
    ensures
        is_digit(dec_digits(n)[0]),
        n >= 1 ==> dec_digits(n)[0] != '0',
    decreases n,
{
    if n < 10 {
        lemma_digit_char_val(n as int);
        assert(('0' as u32) == 48);
    } else {
        lemma_dec_digits_first(n / 10);
        assert(dec_digits(n)[0] == dec_digits(n / 10)[0]);
    }
}

/// Parsing undoes rendering for every 64-bit value.
pub proof fn lemma_parse_dec_i64(n: int)
    requires
        i64::MIN <= n <= i64::MAX,
    ensures
        spec_parse_i64(dec_i64(n)) == Some(n),
{
    if n >= 0 {
        lemma_dec_digits_val(n as nat);
        let s = dec_i64(n);
        assert(is_digit(s[0]));
        assert('-' as u32 == 45 && '+' as u32 == 43);
        assert(s[0] != '-' && s[0] != '+');
    } else {
        lemma_dec_digits_val((-n) as nat);
        let s = dec_i64(n);
        assert(s[0] == '-');
        assert(s.drop_first() =~= dec_digits((-n) as nat));
    }
}

/// Digits of `n`, exactly as `dec_digits` spells them.
fn u64_dec_chars(n: u64) -> (r: Vec<char>)
    ensures
        r@ == dec_digits(n as nat),
    decreases n,
{
    if n < 10 {
        let mut v: Vec<char> = Vec::new();
        v.push((48u8 + n as u8) as char);
        proof {
            assert(v@ =~= seq![digit_char(n as int)]);
        }
        v
    } else {
        let mut v = u64_dec_chars(n / 10);
        v.push((48u8 + (n % 10) as u8) as char);
        proof {
            assert(v@ =~= dec_digits((n / 10) as nat).push(digit_char((n % 10) as int)));
        }
        v
    }
}

/// Decimal text of a signed 64-bit number, as `i64::to_string` writes it.
pub fn i64_dec_chars(n: i64) -> (r: Vec<char>)
    ensures
        r@ == dec_i64(n as int),
{
    if n >= 0 {
        u64_dec_chars(n as u64)
    } else {
        let mag = (-(n as i128)) as u64;
        proof {
            assert(mag as nat == (-(n as int)) as nat);
        }
        let mut digits = u64_dec_chars(mag);
        let mut v: Vec<char> = Vec::new();
        v.push('-');
        v.append(&mut digits);
        proof {
            assert(v@ =~= seq!['-'] + dec_digits((-(n as int)) as nat));
        }
        v
    }
}

/// Parses a signed 64-bit number as `i64::from_str` does: `None` exactly when
/// the text is empty, has a stray character, lacks digits, or names a value
/// outside the 64-bit range.
pub fn parse_i64_chars(s: &Vec<char>) -> (r: Option<i64>)
    ensures
        match r {
            Some(v) => spec_parse_i64(s@) == Some(v as int),
            None => spec_parse_i64(s@) is None,
        },
{
    if s.len() == 0 {
        return None;
    }
    let c0 = s[0];
    let neg = c0 == '-';
    let start: usize = if c0 == '-' || c0 == '+' {
        1
    } else {
        0
    };
    let ghost ds = if s@[0] == '-' || s@[0] == '+' {
        s@.drop_first()
    } else {
        s@
    };
    proof {
        assert(ds =~= s@.subrange(start as int, s@.len() as int));
    }
    if start == s.len() {
        return None;
    }
    let mut j: usize = start;
    let mut acc: u64 = 0;
    while j < s.len()
        invariant
            start <= j <= s@.len(),
            start < s@.len(),
            start == 1 <==> (s@[0] == '-' || s@[0] == '+'),
            start == 0 || start == 1,
            neg <==> s@[0] == '-',
            ds == s@.subrange(start as int, s@.len() as int),
            all_digits(s@.subrange(start as int, j as int)),
            acc == digits_val(s@.subrange(start as int, j as int)),
            acc <= 9223372036854775808u64,
        decreases s@.len() - j,
    {
        let ghost prefix = s@.subrange(start as int, j as int);
        let c = s[j];
        let cu = c as u32;
        if cu < 48 || cu > 57 {
            proof {
                assert(ds[j - start] == s@[j as int]);
                assert(!is_digit(ds[j - start]));
            }
            return None;
        }
        let d = (cu - 48) as u64;
        let ghost longer = s@.subrange(start as int, j as int + 1);
        proof {
            assert(longer.drop_last() =~= prefix);
            assert(longer.last() == s@[j as int]);
            assert(forall|i: int| 0 <= i < longer.len() ==> is_digit(#[trigger] longer[i]));
            assert(digits_val(longer) == acc * 10 + d);
        }
        if acc > 922337203685477580u64 {
            proof {
                lemma_overlong_digits(s@, start as int, j as int + 1);
            }
            return None;
        }
        acc = acc * 10 + d;
        if acc > 9223372036854775808u64 {
            proof {
                lemma_overlong_digits(s@, start as int, j as int + 1);
            }
            return None;
        }
        j += 1;
    }
    proof {
        assert(s@.subrange(start as int, j as int) =~= ds);
    }
    if neg {
        if acc == 9223372036854775808u64 {
            Some(i64::MIN)
        } else {
            Some(-(acc as i64))
        }
    } else {
        if acc == 9223372036854775808u64 {
            None
        } else {
            Some(acc as i64)
        }
    }
}

/// When an initial run of digits already names more than `2^63`, the whole
/// text cannot name a 64-bit value, whatever follows.
proof fn lemma_overlong_digits(s: Seq<char>, start: int, k: int)
    requires
        0 < s.len(),
        (s[0] == '-' || s[0] == '+') ==> start == 1,
        !(s[0] == '-' || s[0] == '+') ==> start == 0,
        start <= k <= s.len(),
        all_digits(s.subrange(start, k)),
        digits_val(s.subrange(start, k)) > 9223372036854775808,
    ensures
        spec_parse_i64(s) is None,
{
    let ds = if s[0] == '-' || s[0] == '+' {
        s.drop_first()
    } else {
        s
    };
    assert(ds =~= s.subrange(start, s.len() as int));
    if all_digits(ds) {
        lemma_digits_val_prefix(ds, k - start);
        assert(ds.take(k - start) =~= s.subrange(start, k));
        assert(digits_val(ds) >= digits_val(s.subrange(start, k)));
    }
}

} // verus!
