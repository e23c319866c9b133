//! Sequence operations that the contracts are stated with.

use vstd::prelude::*;

verus! {

/// The elements of `s` that satisfy `p`, in their order in `s`.
pub open spec fn keep<T>(s: Seq<T>, p: spec_fn(T) -> bool) -> Seq<T>
    decreases s.len(),
{
    if s.len() == 0 {
        seq![]
    } else {
        let r = keep(s.drop_last(), p);
        if p(s.last()) {
            r.push(s.last())
        } else {
            r
        }
    }
}

/// How many elements of `s` satisfy `p`.
pub open spec fn count_where<T>(s: Seq<T>, p: spec_fn(T) -> bool) -> nat {
    keep(s, p).len()
}

/// The sum of `f` over the elements of `s`.
pub open spec fn sum_of<T>(s: Seq<T>, f: spec_fn(T) -> nat) -> nat
    decreases s.len(),
{
    if s.len() == 0 {
        0
    } else {
        sum_of(s.drop_last(), f) + f(s.last())
    }
}

/// `keep` grows by at most the new element when an element is appended.
pub proof fn lemma_keep_push<T>(s: Seq<T>, x: T, p: spec_fn(T) -> bool)
    ensures
        keep(s.push(x), p) == (if p(x) { keep(s, p).push(x) } else { keep(s, p) }),
{
    assert(s.push(x).drop_last() == s);
}

/// `sum_of` of an appended sequence.
pub proof fn lemma_sum_push<T>(s: Seq<T>, x: T, f: spec_fn(T) -> nat)
    ensures
        sum_of(s.push(x), f) == sum_of(s, f) + f(x),
{
    assert(s.push(x).drop_last() == s);
}

/// A kept sequence is never longer than the sequence it was kept from.
pub proof fn lemma_keep_len<T>(s: Seq<T>, p: spec_fn(T) -> bool)
    ensures
        keep(s, p).len() <= s.len(),
    decreases s.len(),
{
    if s.len() > 0 {
        lemma_keep_len(s.drop_last(), p);
    }
}

/// Every kept element satisfies the predicate and occurs in the sequence it was kept from.
pub proof fn lemma_keep_members<T>(s: Seq<T>, p: spec_fn(T) -> bool)
    ensures
        forall|i: int| 0 <= i < keep(s, p).len() ==> p(#[trigger] keep(s, p)[i]) && s.contains(keep(s, p)[i]),
    decreases s.len(),
{
    if s.len() > 0 {
        lemma_keep_members(s.drop_last(), p);
        let r = keep(s.drop_last(), p);
        assert forall|i: int| 0 <= i < keep(s, p).len() implies p(#[trigger] keep(s, p)[i]) && s.contains(keep(s, p)[i]) by {
            if i < r.len() {
                assert(s.drop_last().contains(r[i]));
                let j = choose|j: int| 0 <= j < s.drop_last().len() && s.drop_last()[j] == r[i];
                assert(s[j] == r[i]);
            } else {
                assert(s[s.len() - 1] == s.last());
            }
        }
    }
}

} // verus!

verus! {

/// The sum over a prefix is at most the sum over the whole sequence.
pub proof fn lemma_sum_prefix<T>(s: Seq<T>, k: int, f: spec_fn(T) -> nat)
    requires
        0 <= k <= s.len(),
    ensures
        sum_of(s.take(k), f) <= sum_of(s, f),
    decreases s.len() - k,
{
    if k < s.len() {
        lemma_sum_prefix(s, k + 1, f);
        assert(s.take(k + 1).drop_last() =~= s.take(k));
    } else {
        assert(s.take(k) =~= s);
    }
}

} // verus!

verus! {

/// The distinct elements of `s`, in the order of their first occurrence.
pub open spec fn first_occurrences<K>(s: Seq<K>) -> Seq<K>
    decreases s.len(),
{
    if s.len() == 0 {
        seq![]
    } else {
        let r = first_occurrences(s.drop_last());
        if r.contains(s.last()) {
            r
        } else {
            r.push(s.last())
        }
    }
}

/// The first occurrences hold each element of `s` once.
pub proof fn lemma_first_occurrences<K>(s: Seq<K>)
    ensures
        forall|k: K| first_occurrences(s).contains(k) <==> s.contains(k),
        first_occurrences(s).no_duplicates(),
    decreases s.len(),
{
    if s.len() > 0 {
        let t = s.drop_last();
        lemma_first_occurrences(t);
        let r = first_occurrences(t);
        assert forall|k: K| s.contains(k) <==> (t.contains(k) || k == s.last()) by {
            if s.contains(k) {
                let i = choose|i: int| 0 <= i < s.len() && s[i] == k;
                if i < s.len() - 1 {
                    assert(t[i] == k);
                }
            }
            if t.contains(k) {
                let i = choose|i: int| 0 <= i < t.len() && t[i] == k;
                assert(s[i] == k);
            }
            if k == s.last() {
                assert(s[s.len() - 1] == k);
            }
        }
        assert forall|k: K| r.push(s.last()).contains(k) <==> (r.contains(k) || k == s.last()) by {
            if r.push(s.last()).contains(k) {
                let i = choose|i: int| 0 <= i < r.len() + 1 && r.push(s.last())[i] == k;
                if i < r.len() {
                    assert(r[i] == k);
                }
            }
            if r.contains(k) {
                let i = choose|i: int| 0 <= i < r.len() && r[i] == k;
                assert(r.push(s.last())[i] == k);
            }
            if k == s.last() {
                assert(r.push(s.last())[r.len() as int] == k);
            }
        }
        if !r.contains(s.last()) {
            assert forall|a: int, b: int| 0 <= a < b < r.len() + 1 implies r.push(s.last())[a] != r.push(
                s.last(),
            )[b] by {
                if b == r.len() {
                    assert(r[a] == r.push(s.last())[a]);
                }
            }
        }
    }
}

/// The first occurrences after appending `x`.
pub proof fn lemma_first_occurrences_push<K>(s: Seq<K>, x: K)
    ensures
        first_occurrences(s.push(x)) == (if first_occurrences(s).contains(x) {
            first_occurrences(s)
        } else {
            first_occurrences(s).push(x)
        }),
{
    assert(s.push(x).drop_last() == s);
}

/// What is kept of a prefix is a prefix of what is kept of the whole.
pub proof fn lemma_keep_take<T>(s: Seq<T>, i: int, p: spec_fn(T) -> bool)
    requires
        0 <= i <= s.len(),
    ensures
        keep(s, p).take(keep(s.take(i), p).len() as int) == keep(s.take(i), p),
        keep(s.take(i), p).len() <= keep(s, p).len(),
    decreases s.len() - i,
{
    if i == s.len() {
        assert(s.take(i) =~= s);
        assert(keep(s, p).take(keep(s, p).len() as int) =~= keep(s, p));
    } else {
        lemma_keep_take(s, i + 1, p);
        assert(s.take(i + 1) =~= s.take(i).push(s[i]));
        lemma_keep_push(s.take(i), s[i], p);
        let a = keep(s.take(i), p);
        let b = keep(s.take(i + 1), p);
        assert(b.take(a.len() as int) =~= a);
        assert(keep(s, p).take(a.len() as int) =~= keep(s, p).take(b.len() as int).take(a.len() as int));
    }
}

/// The sum over what is kept of a prefix is at most the sum over what is kept of the whole.
pub proof fn lemma_sum_keep_take<T>(s: Seq<T>, i: int, p: spec_fn(T) -> bool, f: spec_fn(T) -> nat)
    requires
        0 <= i <= s.len(),
    ensures
        sum_of(keep(s.take(i), p), f) <= sum_of(keep(s, p), f),
{
    lemma_keep_take(s, i, p);
    lemma_sum_prefix(keep(s, p), keep(s.take(i), p).len() as int, f);
}

} // verus!

verus! {

/// The conjunction of two predicates.
pub open spec fn both<T>(p: spec_fn(T) -> bool, q: spec_fn(T) -> bool) -> spec_fn(T) -> bool {
    |x: T| p(x) && q(x)
}

/// Keeping by `p` and then by `q` keeps by both.
pub proof fn lemma_keep_keep<T>(s: Seq<T>, p: spec_fn(T) -> bool, q: spec_fn(T) -> bool)
    ensures
        keep(keep(s, p), q) == keep(s, both(p, q)),
    decreases s.len(),
{
    if s.len() > 0 {
        lemma_keep_keep(s.drop_last(), p, q);
        lemma_keep_push(keep(s.drop_last(), p), s.last(), q);
    }
}

} // verus!

verus! {

/// Elements equal to `k`.
pub open spec fn equal_to<K>(k: K) -> spec_fn(K) -> bool {
    |x: K| x == k
}

/// How often `k` occurs in `s`.
pub open spec fn occurrences<K>(s: Seq<K>, k: K) -> nat {
    count_where(s, equal_to(k))
}

/// Occurrences after appending `x`.
pub proof fn lemma_occurrences_push<K>(s: Seq<K>, x: K, k: K)
    ensures
        occurrences(s.push(x), k) == occurrences(s, k) + (if x == k { 1nat } else { 0nat }),
        occurrences(s, k) <= s.len(),
{
    lemma_keep_push(s, x, equal_to(k));
    lemma_keep_len(s, equal_to(k));
}

/// An element that occurs in `s` is kept by a predicate that holds of it.
pub proof fn lemma_keep_nonempty<T>(s: Seq<T>, i: int, p: spec_fn(T) -> bool)
    requires
        0 <= i < s.len(),
        p(s[i]),
    ensures
        keep(s, p).len() > 0,
    decreases s.len(),
{
    if i < s.len() - 1 {
        lemma_keep_nonempty(s.drop_last(), i, p);
        lemma_keep_take(s, s.len() - 1, p);
        assert(s.take(s.len() - 1) =~= s.drop_last());
    }
}

} // verus!

verus! {

/// The concatenation of `f` over the elements of `s`.
pub open spec fn flat_map<T, U>(s: Seq<T>, f: spec_fn(T) -> Seq<U>) -> Seq<U>
    decreases s.len(),
{
    if s.len() == 0 {
        seq![]
    } else {
        flat_map(s.drop_last(), f) + f(s.last())
    }
}

/// `flat_map` of an appended sequence.
pub proof fn lemma_flat_map_push<T, U>(s: Seq<T>, x: T, f: spec_fn(T) -> Seq<U>)
    ensures
        flat_map(s.push(x), f) == flat_map(s, f) + f(x),
{
    assert(s.push(x).drop_last() == s);
}

/// `flat_map` over a prefix is no longer than over the whole.
pub proof fn lemma_flat_map_take<T, U>(s: Seq<T>, i: int, f: spec_fn(T) -> Seq<U>)
    requires
        0 <= i <= s.len(),
    ensures
        flat_map(s.take(i), f).len() <= flat_map(s, f).len(),
    decreases s.len() - i,
{
    if i == s.len() {
        assert(s.take(i) =~= s);
    } else {
        lemma_flat_map_take(s, i + 1, f);
        assert(s.take(i + 1) =~= s.take(i).push(s[i]));
        lemma_flat_map_push(s.take(i), s[i], f);
    }
}

} // verus!

verus! {

/// The sum over a concatenation.
pub proof fn lemma_sum_concat<T>(a: Seq<T>, b: Seq<T>, f: spec_fn(T) -> nat)
    ensures
        sum_of(a + b, f) == sum_of(a, f) + sum_of(b, f),
    decreases b.len(),
{
    if b.len() == 0 {
        assert(a + b =~= a);
    } else {
        lemma_sum_concat(a, b.drop_last(), f);
        assert((a + b).drop_last() =~= a + b.drop_last());
        assert((a + b).last() == b.last());
    }
}

/// Sums agree when the summed values agree position by position.
pub proof fn lemma_sum_pointwise<A, B>(a: Seq<A>, b: Seq<B>, f: spec_fn(A) -> nat, g: spec_fn(B) -> nat)
    requires
        a.len() == b.len(),
        forall|i: int| 0 <= i < a.len() ==> f(a[i]) == g(b[i]),
    ensures
        sum_of(a, f) == sum_of(b, g),
    decreases a.len(),
{
    if a.len() > 0 {
        assert forall|i: int| 0 <= i < a.drop_last().len() implies f(a.drop_last()[i]) == g(b.drop_last()[i]) by {
            assert(a.drop_last()[i] == a[i]);
            assert(b.drop_last()[i] == b[i]);
        }
        lemma_sum_pointwise(a.drop_last(), b.drop_last(), f, g);
        assert(f(a.last()) == g(b.last()));
    }
}

} // verus!

verus! {

/// Keeping by a predicate that always holds keeps everything.
pub proof fn lemma_keep_all<T>(s: Seq<T>)
    ensures
        keep(s, |x: T| true) == s,
    decreases s.len(),
{
    if s.len() > 0 {
        lemma_keep_all(s.drop_last());
        assert(s.drop_last().push(s.last()) =~= s);
    }
}

/// Keeping the elements that satisfy a predicate that every element satisfies keeps them all.
pub proof fn lemma_keep_everything<T>(s: Seq<T>, p: spec_fn(T) -> bool)
    requires
        forall|x: T| #[trigger] p(x),
    ensures
        keep(s, p) == s,
    decreases s.len(),
{
    if s.len() > 0 {
        lemma_keep_everything(s.drop_last(), p);
        assert(s.drop_last().push(s.last()) =~= s);
    }
}

} // verus!

verus! {

/// The first position in `s` of an element satisfying `p`, or -1.
pub open spec fn first_index<T>(s: Seq<T>, p: spec_fn(T) -> bool) -> int
    decreases s.len(),
{
    if s.len() == 0 {
        -1
    } else {
        let i = first_index(s.drop_last(), p);
        if i >= 0 {
            i
        } else if p(s.last()) {
            s.len() - 1
        } else {
            -1
        }
    }
}

/// `first_index` finds the first element satisfying the predicate, if any.
pub proof fn lemma_first_index<T>(s: Seq<T>, p: spec_fn(T) -> bool, j: int)
    requires
        -1 <= j < s.len(),
        j >= 0 ==> p(s[j]),
        forall|k: int| 0 <= k < s.len() && (j < 0 || k < j) ==> !p(s[k]),
    ensures
        first_index(s, p) == j,
    decreases s.len(),
{
    if s.len() > 0 {
        let t = s.drop_last();
        if j < t.len() {
            assert forall|k: int| 0 <= k < t.len() && (j < 0 || k < j) implies !p(t[k]) by {
                assert(t[k] == s[k]);
            }
            if j >= 0 {
                assert(t[j] == s[j]);
            }
            lemma_first_index(t, p, j);
        } else {
            assert forall|k: int| 0 <= k < t.len() implies !p(t[k]) by {
                assert(t[k] == s[k]);
            }
            lemma_first_index(t, p, -1);
        }
    }
}

} // verus!

verus! {

/// Entries whose key is below `k`.
pub open spec fn key_below<T>(k: u64) -> spec_fn((u64, T)) -> bool {
    |y: (u64, T)| y.0 < k
}

/// `sorted` with `x` inserted before the first entry whose key is below `x`'s key: after
/// every entry with a key at least as large.
pub open spec fn insert_desc<T>(sorted: Seq<(u64, T)>, x: (u64, T)) -> Seq<(u64, T)> {
    let i = first_index(sorted, key_below(x.0));
    sorted.insert(if i >= 0 { i } else { sorted.len() as int }, x)
}

/// The entries of `s` ordered by key, largest first; entries with equal keys keep their order.
pub open spec fn sort_desc<T>(s: Seq<(u64, T)>) -> Seq<(u64, T)>
    decreases s.len(),
{
    if s.len() == 0 {
        seq![]
    } else {
        insert_desc(sort_desc(s.drop_last()), s.last())
    }
}

/// The sorted entries are those of `s`, ordered by key, largest first.
pub proof fn lemma_sort_desc<T>(s: Seq<(u64, T)>)
    ensures
        sort_desc(s).len() == s.len(),
        forall|m: int| 0 <= m < s.len() ==> s.contains(#[trigger] sort_desc(s)[m]),
        forall|a: int, b: int| 0 <= a < b < s.len() ==> sort_desc(s)[a].0 >= sort_desc(s)[b].0,
    decreases s.len(),
{
    if s.len() > 0 {
        let t = s.drop_last();
        let r = sort_desc(t);
        let x = s.last();
        lemma_sort_desc(t);
        let i = first_index(r, key_below(x.0));
        lemma_first_index_facts(r, key_below(x.0));
        let pos = if i >= 0 { i } else { r.len() as int };
        let q = r.insert(pos, x);
        assert(sort_desc(s) == q);
        assert forall|m: int| 0 <= m < s.len() implies s.contains(#[trigger] sort_desc(s)[m]) by {
            if m < pos {
                assert(q[m] == r[m]);
                assert(t.contains(r[m]));
                let k = choose|k: int| 0 <= k < t.len() && t[k] == r[m];
                assert(s[k] == r[m]);
            } else if m == pos {
                assert(q[m] == x);
                assert(s[s.len() - 1] == x);
            } else {
                assert(q[m] == r[m - 1]);
                assert(t.contains(r[m - 1]));
                let k = choose|k: int| 0 <= k < t.len() && t[k] == r[m - 1];
                assert(s[k] == r[m - 1]);
            }
        }
        assert forall|a: int, b: int| 0 <= a < b < s.len() implies sort_desc(s)[a].0 >= sort_desc(s)[b].0 by {
            if b < pos {
                assert(q[a] == r[a] && q[b] == r[b]);
            } else if b == pos {
                assert(q[a] == r[a]);
                assert(!key_below::<T>(x.0)(r[a]));
            } else if a < pos {
                assert(q[a] == r[a] && q[b] == r[b - 1]);
            } else if a == pos {
                assert(q[b] == r[b - 1]);
                assert(i >= 0);
                assert(key_below::<T>(x.0)(r[i]));
                if b - 1 > i {
                    assert(r[i].0 >= r[b - 1].0);
                }
            } else {
                assert(q[a] == r[a - 1] && q[b] == r[b - 1]);
            }
        }
    }
}

/// What `first_index` finds.
pub proof fn lemma_first_index_facts<T>(s: Seq<T>, p: spec_fn(T) -> bool)
    ensures
        -1 <= first_index(s, p) < s.len(),
        first_index(s, p) >= 0 ==> p(s[first_index(s, p)]),
        forall|k: int| 0 <= k < s.len() && (first_index(s, p) < 0 || k < first_index(s, p)) ==> !p(#[trigger] s[k]),
    decreases s.len(),
{
    if s.len() > 0 {
        let t = s.drop_last();
        lemma_first_index_facts(t, p);
        assert forall|k: int| 0 <= k < t.len() implies t[k] == s[k] by {}
    }
}

/// Each key paired with its position.
pub open spec fn keyed_positions(keys: Seq<u64>) -> Seq<(u64, usize)> {
    Seq::new(keys.len(), |i: int| (keys[i], i as usize))
}

/// The positions of `keys` paired with their keys, ordered by key, largest first; equal keys
/// keep their order.
pub fn positions_by_key_desc(keys: &Vec<u64>) -> (sorted: Vec<(u64, usize)>)
    ensures
        sorted@ == sort_desc(keyed_positions(keys@)),
{
    let n = keys.len();
    let ghost kp = keyed_positions(keys@);
    let mut sorted: Vec<(u64, usize)> = Vec::new();
    let mut i: usize = 0;
    assert(kp.take(0) =~= Seq::<(u64, usize)>::empty());
    while i < n
        invariant
            n == keys@.len(),
            i <= n,
            kp == keyed_positions(keys@),
            sorted@ == sort_desc(kp.take(i as int)),
        decreases n - i,
    {
        let ghost t = kp.take(i as int);
        assert(kp.take(i + 1) =~= t.push(kp[i as int]));
        assert(kp.take(i + 1).drop_last() == t);
        let key = keys[i];
        proof {
            lemma_first_index_facts(sorted@, key_below::<usize>(key));
        }
        let mut pos: usize = 0;
        while pos < sorted.len() && sorted[pos].0 >= key
            invariant
                pos <= sorted@.len(),
                forall|k: int| 0 <= k < pos ==> !key_below::<usize>(key)(sorted@[k]),
            decreases sorted.len() - pos,
        {
            pos += 1;
        }
        proof {
            if pos < sorted@.len() {
                lemma_first_index(sorted@, key_below::<usize>(key), pos as int);
            } else {
                lemma_first_index(sorted@, key_below::<usize>(key), -1);
            }
        }
        sorted.insert(pos, (key, i));
        assert(kp[i as int] == (key, i));
        i += 1;
    }
    assert(kp.take(n as int) =~= kp);
    sorted
}

/// The positions of `keys`, ordered by key, largest first (equal keys in their order).
pub open spec fn sorted_positions(keys: Seq<u64>) -> Seq<int> {
    sort_desc(keyed_positions(keys)).map_values(|e: (u64, usize)| e.1 as int)
}

/// What sorting the first `i` keyed positions gives: `i` entries, each a keyed position
/// among the first `i`, no position twice, keys non-increasing, and equal keys in the
/// order of their positions.
pub open spec fn sorted_prefix(keys: Seq<u64>, i: int, r: Seq<(u64, usize)>) -> bool {
    &&& r.len() == i
    &&& forall|m: int| 0 <= m < r.len() ==> 0 <= #[trigger] r[m].1 < i && r[m].0 == keys[r[m].1 as int]
    &&& forall|a: int, b: int| 0 <= a < b < r.len() ==> #[trigger] r[a].1 != #[trigger] r[b].1
    &&& forall|a: int, b: int| 0 <= a < b < r.len() ==> #[trigger] r[a].0 >= #[trigger] r[b].0
    &&& forall|a: int, b: int| 0 <= a < b < r.len() && #[trigger] r[a].0 == #[trigger] r[b].0 ==> r[a].1 < r[b].1
}

/// Inserting the next keyed position into a sorted prefix sorts one more position.
proof fn lemma_sorted_prefix_step(keys: Seq<u64>, i: int, r: Seq<(u64, usize)>, pos: int)
    requires
        0 < i <= keys.len(),
        keys.len() <= usize::MAX,
        sorted_prefix(keys, i - 1, r),
        0 <= pos <= r.len(),
        forall|m: int| 0 <= m < pos ==> #[trigger] r[m].0 >= keys[i - 1],
        pos < r.len() ==> r[pos].0 < keys[i - 1],
    ensures
        sorted_prefix(keys, i, r.insert(pos, (keys[i - 1], (i - 1) as usize))),
{
    let x = (keys[i - 1], (i - 1) as usize);
    let q = r.insert(pos, x);
    assert forall|m: int| 0 <= m < q.len() implies 0 <= #[trigger] q[m].1 < i && q[m].0 == keys[q[m].1 as int] by {
        if m < pos {
            assert(q[m] == r[m]);
        } else if m > pos {
            assert(q[m] == r[m - 1]);
        }
    }
    assert forall|a: int, b: int| 0 <= a < b < q.len() implies #[trigger] q[a].1 != #[trigger] q[b].1 by {
        if a != pos && b != pos {
            let ra = if a < pos { a } else { a - 1 };
            let rb = if b < pos { b } else { b - 1 };
            assert(q[a] == r[ra] && q[b] == r[rb]);
        } else if a == pos {
            assert(q[b] == r[b - 1]);
        } else {
            assert(q[a] == r[a]);
        }
    }
    assert forall|a: int, b: int| 0 <= a < b < q.len() implies #[trigger] q[a].0 >= #[trigger] q[b].0 && (q[a].0
        == q[b].0 ==> q[a].1 < q[b].1) by {
        if a != pos && b != pos {
            let ra = if a < pos { a } else { a - 1 };
            let rb = if b < pos { b } else { b - 1 };
            assert(q[a] == r[ra] && q[b] == r[rb]);
        } else if a == pos {
            assert(q[b] == r[b - 1]);
            if b - 1 > pos {
                assert(r[pos].0 >= r[b - 1].0);
            }
        } else {
            assert(q[a] == r[a]);
        }
    }
}

/// Sorting the first `i` keyed positions.
pub proof fn lemma_sorted_prefix(keys: Seq<u64>, i: int)
    requires
        0 <= i <= keys.len(),
        keys.len() <= usize::MAX,
    ensures
        sorted_prefix(keys, i, sort_desc(keyed_positions(keys).take(i))),
    decreases i,
{
    let kp = keyed_positions(keys);
    if i == 0 {
        assert(kp.take(0) =~= Seq::<(u64, usize)>::empty());
    } else {
        lemma_sorted_prefix(keys, i - 1);
        let t = kp.take(i - 1);
        assert(kp.take(i).drop_last() =~= t);
        let r = sort_desc(t);
        let x = kp.take(i).last();
        assert(x == (keys[i - 1], (i - 1) as usize));
        lemma_first_index_facts(r, key_below::<usize>(x.0));
        let f = first_index(r, key_below::<usize>(x.0));
        let pos = if f >= 0 { f } else { r.len() as int };
        assert(forall|m: int| 0 <= m < pos ==> !key_below::<usize>(x.0)(#[trigger] r[m]));
        lemma_sorted_prefix_step(keys, i, r, pos);
        assert(sort_desc(kp.take(i)) == r.insert(pos, x));
    }
}

/// Sorting positions by key lists every position once, keys non-increasing, and equal keys
/// in the order of their positions.
pub proof fn law_sorted_positions(keys: Seq<u64>)
    requires
        keys.len() <= usize::MAX,
    ensures
        sorted_positions(keys).len() == keys.len(),
        forall|m: int| 0 <= m < keys.len() ==> 0 <= #[trigger] sorted_positions(keys)[m] < keys.len(),
        forall|a: int, b: int|
            0 <= a < b < keys.len() ==> #[trigger] sorted_positions(keys)[a] != #[trigger] sorted_positions(keys)[b],
        forall|a: int, b: int|
            0 <= a < b < keys.len() ==> keys[#[trigger] sorted_positions(keys)[a]] >= keys[#[trigger] sorted_positions(
                keys,
            )[b]],
        forall|a: int, b: int|
            0 <= a < b < keys.len() && keys[#[trigger] sorted_positions(keys)[a]] == keys[#[trigger] sorted_positions(
                keys,
            )[b]] ==> sorted_positions(keys)[a] < sorted_positions(keys)[b],
{
    let kp = keyed_positions(keys);
    lemma_sorted_prefix(keys, keys.len() as int);
    assert(kp.take(keys.len() as int) =~= kp);
    let r = sort_desc(kp);
    let p = sorted_positions(keys);
    assert forall|m: int| 0 <= m < p.len() implies p[m] == r[m].1 && keys[p[m]] == r[m].0 by {}
}

} // verus!

verus! {

/// What `f` gives for an element of `s` is part of `flat_map(s, f)`.
pub proof fn lemma_flat_map_contains<T, U>(s: Seq<T>, f: spec_fn(T) -> Seq<U>, j: int, y: U)
    requires
        0 <= j < s.len(),
        f(s[j]).contains(y),
    ensures
        flat_map(s, f).contains(y),
    decreases s.len(),
{
    let t = s.drop_last();
    let a = flat_map(t, f);
    assert(flat_map(s, f) == a + f(s.last()));
    if j == s.len() - 1 {
        let g = f(s[j]);
        let k = choose|k: int| 0 <= k < g.len() && #[trigger] g[k] == y;
        assert((a + f(s.last()))[a.len() + k] == y);
    } else {
        assert(t[j] == s[j]);
        lemma_flat_map_contains(t, f, j, y);
        let k = choose|k: int| 0 <= k < a.len() && a[k] == y;
        assert((a + f(s.last()))[k] == y);
    }
}

/// Everything in `flat_map(s, f)` is part of what `f` gives for some element of `s`.
pub proof fn lemma_flat_map_from<T, U>(s: Seq<T>, f: spec_fn(T) -> Seq<U>, y: U)
    requires
        flat_map(s, f).contains(y),
    ensures
        exists|j: int| 0 <= j < s.len() && #[trigger] f(s[j]).contains(y),
    decreases s.len(),
{
    if s.len() > 0 {
        let t = s.drop_last();
        let a = flat_map(t, f);
        assert(flat_map(s, f) == a + f(s.last()));
        let k = choose|k: int| 0 <= k < flat_map(s, f).len() && flat_map(s, f)[k] == y;
        if k < a.len() {
            assert(a[k] == y);
            lemma_flat_map_from(t, f, y);
            let j = choose|j: int| 0 <= j < t.len() && #[trigger] f(t[j]).contains(y);
            assert(t[j] == s[j]);
        } else {
            assert(f(s.last())[k - a.len()] == y);
            assert(s[s.len() - 1] == s.last());
            assert(f(s[s.len() - 1]).contains(y));
        }
    }
}

/// An element of `s` that satisfies `p` is kept.
pub proof fn lemma_keep_contains<T>(s: Seq<T>, p: spec_fn(T) -> bool, j: int)
    requires
        0 <= j < s.len(),
        p(s[j]),
    ensures
        keep(s, p).contains(s[j]),
    decreases s.len(),
{
    let t = s.drop_last();
    lemma_keep_push(t, s.last(), p);
    assert(t.push(s.last()) =~= s);
    if j == s.len() - 1 {
        assert(keep(s, p).last() == s[j]);
    } else {
        assert(t[j] == s[j]);
        lemma_keep_contains(t, p, j);
        let k = choose|k: int| 0 <= k < keep(t, p).len() && keep(t, p)[k] == s[j];
        if p(s.last()) {
            assert(keep(s, p)[k] == s[j]);
        }
    }
}

} // verus!
