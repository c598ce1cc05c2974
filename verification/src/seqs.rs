//! Facts about filtered sequences and about sequences whose items carry
//! distinct keys.

use vstd::prelude::*;

verus! {

/// No two items of `s` have the same key.
pub open spec fn distinct_by<A, K>(s: Seq<A>, key: spec_fn(A) -> K) -> bool {
    forall|i: int, j: int|
        0 <= i < s.len() && 0 <= j < s.len() && i != j ==> key(#[trigger] s[i]) != key(
            #[trigger] s[j],
        )
}

/// Some item of `s` has the key `k`.
pub open spec fn has_key<A, K>(s: Seq<A>, key: spec_fn(A) -> K, k: K) -> bool {
    exists|i: int| 0 <= i < s.len() && key(#[trigger] s[i]) == k
}

/// The place of an item of `s` with the key `k`.
pub open spec fn index_of_key<A, K>(s: Seq<A>, key: spec_fn(A) -> K, k: K) -> int {
    choose|i: int| 0 <= i < s.len() && key(#[trigger] s[i]) == k
}

/// Where keys are distinct, an item with the key `k` stands at one place only.
pub proof fn lemma_index_of_key<A, K>(s: Seq<A>, key: spec_fn(A) -> K, i: int)
    requires
        distinct_by(s, key),
        0 <= i < s.len(),
    ensures
        has_key(s, key, key(s[i])),
        index_of_key(s, key, key(s[i])) == i,
{
    let k = key(s[i]);
    assert(0 <= i < s.len() && key(s[i]) == k);
    let c = index_of_key(s, key, k);
    assert(0 <= c < s.len() && key(s[c]) == k);
}

/// Every item that a filter keeps meets the test and stood in the
/// sequence that was filtered.
pub proof fn lemma_filter_members<A>(s: Seq<A>, p: spec_fn(A) -> bool)
    ensures
        forall|j: int|
            0 <= j < s.filter(p).len() ==> p(#[trigger] s.filter(p)[j]) && s.contains(
                s.filter(p)[j],
            ),
        forall|i: int| 0 <= i < s.len() && p(s[i]) ==> s.filter(p).contains(#[trigger] s[i]),
        s.filter(p).len() <= s.len(),
{
    let f = s.filter(p);
    assert forall|j: int| 0 <= j < f.len() implies p(#[trigger] f[j]) && s.contains(f[j]) by {
        s.lemma_filter_pred(p, j);
        assert(f.contains(f[j]));
        s.lemma_filter_contains_rev(p, f[j]);
    }
    assert forall|i: int| 0 <= i < s.len() && p(s[i]) implies f.contains(#[trigger] s[i]) by {
        s.lemma_filter_contains(p, i);
    }
    s.lemma_filter_len(p);
}

/// A filter that keeps everything changes nothing.
pub proof fn lemma_filter_all<A>(s: Seq<A>, p: spec_fn(A) -> bool)
    requires
        forall|i: int| 0 <= i < s.len() ==> p(#[trigger] s[i]),
    ensures
        s.filter(p) == s,
    decreases s.len(),
{
    reveal(Seq::filter);
    if s.len() > 0 {
        lemma_filter_all(s.drop_last(), p);
        assert(s.drop_last().push(s.last()) =~= s);
    }
}

/// Filtering twice with one test is filtering once.
pub proof fn lemma_filter_twice<A>(s: Seq<A>, p: spec_fn(A) -> bool)
    ensures
        s.filter(p).filter(p) == s.filter(p),
{
    lemma_filter_members(s, p);
    lemma_filter_all(s.filter(p), p);
}

/// Filtering keeps keys distinct.
#[verifier::rlimit(50)]
pub proof fn lemma_filter_distinct<A, K>(s: Seq<A>, p: spec_fn(A) -> bool, key: spec_fn(A) -> K)
    requires
        distinct_by(s, key),
    ensures
        distinct_by(s.filter(p), key),
    decreases s.len(),
{
    reveal(Seq::filter);
    if s.len() > 0 {
        let init = s.drop_last();
        let last = s.last();
        assert forall|i: int, j: int|
            0 <= i < init.len() && 0 <= j < init.len() && i != j implies key(#[trigger] init[i])
            != key(#[trigger] init[j]) by {
            assert(init[i] == s[i] && init[j] == s[j]);
        }
        lemma_filter_distinct(init, p, key);
        let f = init.filter(p);
        if p(last) {
            lemma_filter_members(init, p);
            let g = f.push(last);
            assert forall|i: int, j: int|
                0 <= i < g.len() && 0 <= j < g.len() && i != j implies key(#[trigger] g[i]) != key(
                #[trigger] g[j],
            ) by {
                if i < f.len() && j < f.len() {
                    assert(g[i] == f[i] && g[j] == f[j]);
                } else if i < f.len() {
                    lemma_not_last_key(s, key, f[i]);
                } else {
                    lemma_not_last_key(s, key, f[j]);
                }
            }
        }
    }
}

/// An item of the front part of a sequence with distinct keys does not
/// have the key of the last item.
proof fn lemma_not_last_key<A, K>(s: Seq<A>, key: spec_fn(A) -> K, x: A)
    requires
        s.len() > 0,
        distinct_by(s, key),
        s.drop_last().contains(x),
    ensures
        key(x) != key(s.last()),
{
    let i = choose|i: int| 0 <= i < s.drop_last().len() && s.drop_last()[i] == x;
    assert(s[i] == x);
    assert(s[s.len() - 1] == s.last());
}

/// One step of filtering in place. `cur` holds the filtered front of
/// `orig` up to `k`, followed by the rest of `orig` as it was. The item at
/// `k` then stands in `cur` right behind the filtered front, and either
/// stays there or is taken out.
pub proof fn lemma_retain_step<A>(orig: Seq<A>, cur: Seq<A>, k: int, p: spec_fn(A) -> bool)
    requires
        0 <= k < orig.len(),
        cur == orig.subrange(0, k).filter(p) + orig.subrange(k, orig.len() as int),
    ensures
        ({
            let i = orig.subrange(0, k).filter(p).len() as int;
            let next = orig.subrange(0, k + 1).filter(p);
            let rest = orig.subrange(k + 1, orig.len() as int);
            &&& 0 <= i < cur.len()
            &&& cur[i] == orig[k]
            &&& p(orig[k]) ==> cur == next + rest && next.len() == i + 1
            &&& !p(orig[k]) ==> cur.remove(i) == next + rest && next.len() == i
        }),
{
    let front = orig.subrange(0, k);
    let i = front.filter(p).len() as int;
    assert(orig.subrange(0, k + 1) =~= front.push(orig[k]));
    front.lemma_filter_push(orig[k], p);
    let next = orig.subrange(0, k + 1).filter(p);
    let rest = orig.subrange(k + 1, orig.len() as int);
    assert(cur[i] == orig[k]);
    if p(orig[k]) {
        assert(cur =~= next + rest);
    } else {
        assert(cur.remove(i) =~= next + rest);
    }
}

/// Filtering in place is done when the whole of `orig` has been looked at.
pub proof fn lemma_retain_done<A>(orig: Seq<A>, cur: Seq<A>, p: spec_fn(A) -> bool)
    requires
        cur == orig.subrange(0, orig.len() as int).filter(p) + orig.subrange(
            orig.len() as int,
            orig.len() as int,
        ),
    ensures
        cur == orig.filter(p),
{
    assert(orig.subrange(0, orig.len() as int) =~= orig);
    assert(cur =~= orig.filter(p));
}

/// Filtering in place starts with nothing looked at.
pub proof fn lemma_retain_start<A>(orig: Seq<A>, p: spec_fn(A) -> bool)
    ensures
        orig == orig.subrange(0, 0).filter(p) + orig.subrange(0, orig.len() as int),
        orig.subrange(0, 0).filter(p).len() == 0,
{
    reveal(Seq::filter);
    assert(orig.subrange(0, 0).filter(p) =~= Seq::<A>::empty());
    assert(orig =~= orig.subrange(0, 0).filter(p) + orig.subrange(0, orig.len() as int));
}

/// Taking an item out keeps keys distinct.
pub proof fn lemma_remove_distinct<A, K>(s: Seq<A>, key: spec_fn(A) -> K, i: int)
    requires
        distinct_by(s, key),
        0 <= i < s.len(),
    ensures
        distinct_by(s.remove(i), key),
        !has_key(s.remove(i), key, key(s[i])),
{
    let r = s.remove(i);
    assert forall|a: int, b: int| 0 <= a < r.len() && 0 <= b < r.len() && a != b implies key(
        #[trigger] r[a],
    ) != key(#[trigger] r[b]) by {
        let a0 = if a < i {
            a
        } else {
            a + 1
        };
        let b0 = if b < i {
            b
        } else {
            b + 1
        };
        assert(r[a] == s[a0] && r[b] == s[b0]);
    }
    assert forall|a: int| 0 <= a < r.len() implies key(#[trigger] r[a]) != key(s[i]) by {
        let a0 = if a < i {
            a
        } else {
            a + 1
        };
        assert(r[a] == s[a0]);
    }
}

/// Putting in an item whose key is new keeps keys distinct.
pub proof fn lemma_insert_distinct<A, K>(s: Seq<A>, key: spec_fn(A) -> K, i: int, x: A)
    requires
        distinct_by(s, key),
        !has_key(s, key, key(x)),
        0 <= i <= s.len(),
    ensures
        distinct_by(s.insert(i, x), key),
        has_key(s.insert(i, x), key, key(x)),
        index_of_key(s.insert(i, x), key, key(x)) == i,
{
    let r = s.insert(i, x);
    assert forall|a: int, b: int| 0 <= a < r.len() && 0 <= b < r.len() && a != b implies key(
        #[trigger] r[a],
    ) != key(#[trigger] r[b]) by {
        let a0 = if a < i {
            a
        } else {
            a - 1
        };
        let b0 = if b < i {
            b
        } else {
            b - 1
        };
        if a != i {
            assert(r[a] == s[a0]);
        }
        if b != i {
            assert(r[b] == s[b0]);
        }
    }
    assert(r[i] == x);
    lemma_index_of_key(r, key, i);
}

/// The number of items that pass a test in a front part of a sequence
/// does not go down as the front part grows, and goes up by one past an
/// item that passes.
pub proof fn lemma_filter_prefix_len<A>(s: Seq<A>, p: spec_fn(A) -> bool, a: int, b: int)
    requires
        0 <= a <= b <= s.len(),
    ensures
        s.take(a).filter(p).len() <= s.take(b).filter(p).len(),
        a < b && p(s[a]) ==> s.take(a).filter(p).len() < s.take(b).filter(p).len(),
        s.take(b).filter(p).len() <= s.filter(p).len(),
{
    assert(s.take(b) =~= s.take(a) + s.subrange(a, b));
    Seq::filter_distributes_over_add(s.take(a), s.subrange(a, b), p);
    assert(s =~= s.take(b) + s.skip(b));
    Seq::filter_distributes_over_add(s.take(b), s.skip(b), p);
    if a < b && p(s[a]) {
        let mid = s.subrange(a, b);
        assert(mid[0] == s[a]);
        mid.lemma_filter_contains(p, 0);
        let f = mid.filter(p);
        let w = choose|j: int| 0 <= j < f.len() && f[j] == mid[0];
    }
}

/// Looking one item further: the count of items that pass grows by one if
/// that item passes and stays if not.
pub proof fn lemma_filter_next<A>(s: Seq<A>, p: spec_fn(A) -> bool, a: int)
    requires
        0 <= a < s.len(),
    ensures
        s.take(a + 1).filter(p) == if p(s[a]) {
            s.take(a).filter(p).push(s[a])
        } else {
            s.take(a).filter(p)
        },
{
    assert(s.take(a + 1) =~= s.take(a).push(s[a]));
    s.take(a).lemma_filter_push(s[a], p);
}


/// The number of pieces of at most `size` items that `len` items fall into.
pub open spec fn chunk_count(len: nat, size: nat) -> nat {
    if size == 0 {
        0
    } else {
        ((len + size - 1) / size as int) as nat
    }
}

/// Where piece `i` ends.
pub open spec fn chunk_end(len: nat, size: nat, i: int) -> int {
    if (i + 1) * size < len {
        (i + 1) * size
    } else {
        len as int
    }
}

/// Piece `i` of `s` cut into pieces of `size` items.
pub open spec fn chunk<A>(s: Seq<A>, size: nat, i: int) -> Seq<A> {
    s.subrange(i * size, chunk_end(s.len(), size, i))
}

/// `s` cut into pieces of `size` items; the last piece may be shorter.
pub open spec fn chunks<A>(s: Seq<A>, size: nat) -> Seq<Seq<A>> {
    Seq::new(chunk_count(s.len(), size), |i: int| chunk(s, size, i))
}

/// The first `k` pieces of `s`, put together again.
pub open spec fn rejoined<A>(s: Seq<A>, size: nat, k: nat) -> Seq<A>
    decreases k,
{
    if k == 0 {
        Seq::empty()
    } else {
        rejoined(s, size, (k - 1) as nat) + chunk(s, size, k - 1)
    }
}

/// Where the pieces begin and how many there are: piece `i` is one of the
/// pieces exactly if it begins inside the sequence.
#[verifier::rlimit(50)]
pub proof fn lemma_chunk_count(len: nat, size: nat, i: nat)
    requires
        size > 0,
    ensures
        i < chunk_count(len, size) <==> i * size < len,
        (i + 1) * size == i * size + size,
        chunk_count(len, size) <= len,
{
    let n = chunk_count(len, size);
    assert((i + 1) * size == i * size + size) by (nonlinear_arith);
    assert(n * size >= len && (n == 0 || (n - 1) * size < len)) by (nonlinear_arith)
        requires
            size > 0,
            n == (len + size - 1) / (size as int),
    ;
    if i < n {
        assert(i * size <= (n - 1) * size) by (nonlinear_arith)
            requires
                i <= n - 1,
                size > 0,
        ;
    } else {
        assert(i * size >= n * size) by (nonlinear_arith)
            requires
                i >= n,
                size > 0,
        ;
    }
    assert(n <= len) by (nonlinear_arith)
        requires
            size > 0,
            n == 0 || (n - 1) * size < len,
            n >= 0,
    ;
}

/// Every piece holds at least one item and at most `size`, and only the
/// last one may hold fewer than `size`.
pub proof fn lemma_chunk_len<A>(s: Seq<A>, size: nat, i: nat)
    requires
        size > 0,
        i < chunk_count(s.len(), size),
    ensures
        0 < chunk(s, size, i as int).len() <= size,
        chunk(s, size, i as int).len() == chunk_end(s.len(), size, i as int) - i * size,
        i + 1 < chunk_count(s.len(), size) ==> chunk(s, size, i as int).len() == size,
        0 <= i * size < s.len(),
        i * size < chunk_end(s.len(), size, i as int) <= s.len(),
{
    lemma_chunk_count(s.len(), size, i);
    lemma_chunk_count(s.len(), size, i + 1);
    assert(0 <= i * size) by (nonlinear_arith)
        requires
            size > 0,
            i >= 0,
    ;
}

/// The pieces put together again are the sequence that was cut.
#[verifier::rlimit(50)]
pub proof fn lemma_rejoined<A>(s: Seq<A>, size: nat, k: nat)
    requires
        size > 0,
        k <= chunk_count(s.len(), size),
    ensures
        rejoined(s, size, k) == s.take(
            if k == 0 {
                0
            } else {
                chunk_end(s.len(), size, k - 1)
            },
        ),
        k == chunk_count(s.len(), size) ==> rejoined(s, size, k) == s,
    decreases k,
{
    let n = chunk_count(s.len(), size);
    if k == 0 {
        assert(rejoined(s, size, k) =~= s.take(0));
        if n == 0 {
            lemma_chunk_count(s.len(), size, 0);
            assert(0 * size == 0) by (nonlinear_arith);
            assert(s =~= s.take(0));
        }
    } else {
        let j = (k - 1) as nat;
        lemma_rejoined(s, size, j);
        lemma_chunk_len(s, size, j);
        if j > 0 {
            lemma_chunk_len(s, size, (j - 1) as nat);
            lemma_chunk_count(s.len(), size, (j - 1) as nat);
        } else {
            assert(0 * size == 0) by (nonlinear_arith);
        }
        let end = chunk_end(s.len(), size, j as int);
        assert(rejoined(s, size, k) =~= s.take(end));
        if k == n {
            lemma_chunk_count(s.len(), size, k);
            assert(s.take(end) =~= s);
        }
    }
}


} // verus!
