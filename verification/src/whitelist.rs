//! The whitelist as it is stored: text, one user id in decimal per line,
//! every line closed by a newline.

use crate::recorder::{initial, lemma_initial_whitelist, RecorderView};
use vstd::prelude::*;

verus! {

/// The byte that closes a line.
pub const NEWLINE: u8 = 10;

/// The byte is one of the digits `0` to `9`.
pub open spec fn is_digit(b: u8) -> bool {
    48 <= b <= 57
}

/// What a byte counts for in a number: a digit its value, anything else
/// nothing.
pub open spec fn digit_value(b: u8) -> nat {
    if is_digit(b) {
        (b - 48) as nat
    } else {
        0
    }
}

/// The decimal digits of `n`, most significant first, without leading
/// zeros.
pub open spec fn digits(n: nat) -> Seq<u8>
    decreases n,
{
    if n < 10 {
        seq![(48 + n) as u8]
    } else {
        digits(n / 10).push((48 + n % 10) as u8)
    }
}

/// The number that a run of digits writes.
pub open spec fn value(s: Seq<u8>) -> nat
    decreases s.len(),
{
    if s.len() == 0 {
        0
    } else {
        value(s.drop_last()) * 10 + digit_value(s.last())
    }
}

/// The user id that `s` writes: `s` is one or more digits, starts with a
/// zero only if it is the single digit zero, and fits 64 bits.
pub open spec fn number_of(s: Seq<u8>) -> Option<u64> {
    if s.len() >= 1 && (forall|i: int| 0 <= i < s.len() ==> is_digit(#[trigger] s[i])) && (s.len()
        > 1 ==> s[0] != 48) && value(s) <= u64::MAX {
        Some(value(s) as u64)
    } else {
        None
    }
}

/// The stored form of `list`: a line for each user, in order.
pub open spec fn encoded(list: Seq<u64>) -> Seq<u8>
    decreases list.len(),
{
    if list.len() == 0 {
        Seq::empty()
    } else {
        digits(list[0] as nat).push(NEWLINE) + encoded(list.skip(1))
    }
}

/// `i` is where the first line of `b` ends.
pub open spec fn ends_first_line(b: Seq<u8>, i: int) -> bool {
    &&& 0 <= i < b.len()
    &&& b[i] == NEWLINE
    &&& forall|j: int| 0 <= j < i ==> #[trigger] b[j] != NEWLINE
}

/// Some line of `b` is closed by a newline.
pub open spec fn has_line(b: Seq<u8>) -> bool {
    exists|i: int| ends_first_line(b, i)
}

/// Where the first line of `b` ends.
pub open spec fn first_line_end(b: Seq<u8>) -> int {
    choose|i: int| ends_first_line(b, i)
}

/// `front` followed by what `rest` holds, if it holds anything.
pub open spec fn prepend(front: Seq<u64>, rest: Option<Seq<u64>>) -> Option<Seq<u64>> {
    match rest {
        Some(r) => Some(front + r),
        None => None,
    }
}

/// The list that `b` stores: every line of `b` is closed by a newline and
/// writes a user id. Anything else stores no list.
pub open spec fn decoded(b: Seq<u8>) -> Option<Seq<u64>>
    decreases b.len(),
{
    if b.len() == 0 {
        Some(Seq::empty())
    } else if !has_line(b) {
        None
    } else {
        let i = first_line_end(b);
        match number_of(b.take(i)) {
            Some(n) => prepend(seq![n], decoded(b.skip(i + 1))),
            None => None,
        }
    }
}

/// The digits of a number are one or more digits without a leading zero,
/// and they write that number.
pub proof fn lemma_digits(n: nat)
    ensures
        digits(n).len() >= 1,
        forall|i: int| 0 <= i < digits(n).len() ==> is_digit(#[trigger] digits(n)[i]),
        digits(n).len() > 1 ==> digits(n)[0] != 48,
        value(digits(n)) == n,
    decreases n,
{
    if n < 10 {
        let s = digits(n);
        assert(s.drop_last() =~= Seq::<u8>::empty());
        assert(value(s.drop_last()) == 0);
    } else {
        lemma_digits(n / 10);
        let front = digits(n / 10);
        let s = digits(n);
        assert(s.drop_last() =~= front);
        assert(s[0] == front[0]);
        if front.len() == 1 {
            assert(value(front.drop_last()) == 0) by {
                assert(front.drop_last() =~= Seq::<u8>::empty());
            }
            assert(front[0] != 48);
        }
    }
}

/// A front part of a run of bytes writes no more than the whole run.
pub proof fn lemma_value_prefix(s: Seq<u8>, k: int)
    requires
        0 <= k <= s.len(),
    ensures
        value(s.take(k)) <= value(s),
    decreases s.len(),
{
    if k == s.len() {
        assert(s.take(k) =~= s);
    } else {
        lemma_value_prefix(s.drop_last(), k);
        assert(s.drop_last().take(k) =~= s.take(k));
    }
}

/// Every user id is read back from its own digits.
pub proof fn lemma_number_of_digits(n: u64)
    ensures
        number_of(digits(n as nat)) == Some(n),
{
    lemma_digits(n as nat);
}

/// What was stored is read back: same users, same order.
#[verifier::rlimit(50)]
pub proof fn lemma_decoded_encoded(list: Seq<u64>)
    ensures
        decoded(encoded(list)) == Some(list),
    decreases list.len(),
{
    if list.len() > 0 {
        let d = digits(list[0] as nat);
        let rest = encoded(list.skip(1));
        let b = encoded(list);
        lemma_digits(list[0] as nat);
        lemma_decoded_encoded(list.skip(1));
        let i = d.len() as int;
        assert(b[i] == NEWLINE);
        assert forall|j: int| 0 <= j < i implies #[trigger] b[j] != NEWLINE by {
            assert(b[j] == d[j]);
        }
        assert(ends_first_line(b, i));
        let c = first_line_end(b);
        assert(ends_first_line(b, c));
        assert(c == i);
        assert(b.take(i) =~= d);
        assert(b.skip(i + 1) =~= rest);
        assert(seq![list[0]] + list.skip(1) =~= list);
    }
}

/// A recorder that is started from the stored whitelist of another has
/// that whitelist.
pub proof fn lemma_whitelist_survives_restart(v: RecorderView, capacity: nat, expiration: u64)
    requires
        v.wf(),
    ensures
        decoded(encoded(v.whitelist)) == Some(v.whitelist),
        initial(capacity, expiration, v.whitelist).whitelist == v.whitelist,
        initial(capacity, expiration, v.whitelist).wf(),
{
    lemma_decoded_encoded(v.whitelist);
    lemma_initial_whitelist(v.whitelist);
}

fn put_digits(out: &mut Vec<u8>, n: u64)
    ensures
        final(out)@ == old(out)@ + digits(n as nat),
    decreases n,
{
    if n >= 10 {
        put_digits(out, n / 10);
    }
    out.push(48 + (n % 10) as u8);
    assert(out@ =~= old(out)@ + digits(n as nat));
}

/// Writes `list` in its stored form.
pub fn encode(list: &[u64]) -> (out: Vec<u8>)
    ensures
        out@ == encoded(list@),
        decoded(out@) == Some(list@),
{
    let mut out: Vec<u8> = Vec::new();
    let n = list.len();
    let mut i: usize = 0;
    assert(list@.skip(0) =~= list@);
    while i < n
        invariant
            n == list@.len(),
            i <= n,
            encoded(list@) == out@ + encoded(list@.skip(i as int)),
        decreases n - i,
    {
        let ghost before = out@;
        put_digits(&mut out, list[i]);
        out.push(NEWLINE);
        proof {
            let rest = list@.skip(i as int);
            assert(rest[0] == list@[i as int]);
            assert(rest.skip(1) =~= list@.skip(i + 1));
            assert(out@ + encoded(list@.skip(i + 1)) =~= before + encoded(rest));
        }
        i = i + 1;
    }
    proof {
        assert(encoded(list@.skip(n as int)) =~= Seq::<u8>::empty());
        assert(out@ =~= encoded(list@));
        lemma_decoded_encoded(list@);
    }
    out
}

fn parse_number(b: &[u8], from: usize, to: usize) -> (r: Option<u64>)
    requires
        from <= to <= b@.len(),
    ensures
        r == number_of(b@.subrange(from as int, to as int)),
{
    let ghost s = b@.subrange(from as int, to as int);
    if from == to {
        return None;
    }
    if to - from > 1 && b[from] == 48 {
        assert(s[0] == 48);
        return None;
    }
    let mut acc: u64 = 0;
    let mut i: usize = from;
    assert(s.take(0) =~= Seq::<u8>::empty());
    while i < to
        invariant
            from <= i <= to <= b@.len(),
            s == b@.subrange(from as int, to as int),
            forall|j: int| 0 <= j < i - from ==> is_digit(#[trigger] s[j]),
            acc == value(s.take(i - from)),
        decreases to - i,
    {
        let c = b[i];
        assert(s[i - from] == c);
        if c < 48 || c > 57 {
            return None;
        }
        let d = (c - 48) as u64;
        proof {
            let next = s.take(i - from + 1);
            assert(next.drop_last() =~= s.take(i - from));
            assert(next.last() == c);
            assert(value(next) == acc * 10 + d);
            lemma_value_prefix(s, i - from + 1);
        }
        if acc > (u64::MAX - d) / 10 {
            return None;
        }
        acc = acc * 10 + d;
        i = i + 1;
    }
    assert(s.take(to - from) =~= s);
    Some(acc)
}

/// Reads a stored whitelist.
///
/// Answers with the list that `bytes` stores, and with nothing where
/// `bytes` stores none: a line that is not a user id, or a last line that
/// no newline closes.
#[verifier::rlimit(50)]
pub fn decode(bytes: &[u8]) -> (r: Option<Vec<u64>>)
    ensures
        match r {
            Some(v) => decoded(bytes@) == Some(v@),
            None => decoded(bytes@).is_none(),
        },
{
    let mut out: Vec<u64> = Vec::new();
    let n = bytes.len();
    let mut at: usize = 0;
    assert(bytes@.skip(0) =~= bytes@);
    assert(Seq::<u64>::empty() + Seq::<u64>::empty() =~= Seq::<u64>::empty());
    proof {
        match decoded(bytes@) {
            Some(l) => {
                assert(Seq::<u64>::empty() + l =~= l);
            },
            None => {},
        }
    }
    while at < n
        invariant
            n == bytes@.len(),
            at <= n,
            decoded(bytes@) == prepend(out@, decoded(bytes@.skip(at as int))),
        decreases n - at,
    {
        let ghost rest = bytes@.skip(at as int);
        let mut end: usize = at;
        while end < n && bytes[end] != NEWLINE
            invariant
                n == bytes@.len(),
                at <= end <= n,
                forall|j: int| at <= j < end ==> #[trigger] bytes@[j] != NEWLINE,
            decreases n - end,
        {
            end = end + 1;
        }
        if end == n {
            proof {
                if has_line(rest) {
                    let c = first_line_end(rest);
                    assert(ends_first_line(rest, c));
                    assert(rest[c] == bytes@[at + c]);
                }
            }
            return None;
        }
        proof {
            let i = end - at;
            assert forall|j: int| 0 <= j < i implies #[trigger] rest[j] != NEWLINE by {
                assert(rest[j] == bytes@[at + j]);
            }
            assert(ends_first_line(rest, i));
            let c = first_line_end(rest);
            assert(ends_first_line(rest, c));
            assert(c == i);
            assert(rest.take(i) =~= bytes@.subrange(at as int, end as int));
            assert(rest.skip(i + 1) =~= bytes@.skip(end + 1));
        }
        match parse_number(bytes, at, end) {
            Some(u) => {
                proof {
                    match decoded(bytes@.skip(end + 1)) {
                        Some(l) => {
                            assert(out@ + (seq![u] + l) =~= out@.push(u) + l);
                        },
                        None => {},
                    }
                }
                out.push(u);
            },
            None => {
                return None;
            },
        }
        at = end + 1;
    }
    proof {
        assert(bytes@.skip(n as int) =~= Seq::<u8>::empty());
        assert(out@ + Seq::<u64>::empty() =~= out@);
    }
    Some(out)
}

} // verus!
