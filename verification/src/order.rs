//! Stable sorting, as a permutation of indices.

use vstd::prelude::*;

verus! {

/// A type whose values are ordered, up to equivalence of values that tie.
pub trait SortKey: Sized {
    /// Whether `self` may stand before `other`.
    spec fn le(&self, other: &Self) -> bool;

    fn at_most(&self, other: &Self) -> (r: bool)
        ensures
            r == self.le(other),
    ;

    proof fn lemma_total(a: &Self, b: &Self)
        ensures
            a.le(b) || b.le(a),
    ;

    proof fn lemma_transitive(a: &Self, b: &Self, c: &Self)
        requires
            a.le(b),
            b.le(c),
        ensures
            a.le(c),
    ;
}

impl SortKey for i64 {
    open spec fn le(&self, other: &Self) -> bool {
        *self <= *other
    }

    fn at_most(&self, other: &Self) -> (r: bool) {
        *self <= *other
    }

    proof fn lemma_total(a: &Self, b: &Self) {
    }

    proof fn lemma_transitive(a: &Self, b: &Self, c: &Self) {
    }
}

/// A number that sorts from the largest to the smallest.
pub struct Descending(pub u64);

impl SortKey for Descending {
    open spec fn le(&self, other: &Self) -> bool {
        self.0 >= other.0
    }

    fn at_most(&self, other: &Self) -> (r: bool) {
        self.0 >= other.0
    }

    proof fn lemma_total(a: &Self, b: &Self) {
    }

    proof fn lemma_transitive(a: &Self, b: &Self, c: &Self) {
    }
}

/// The order of strings: by the first character that differs, a prefix first.
/// (UTF-8 orders its bytes as it orders the characters they encode.)
pub open spec fn text_le(a: Seq<char>, b: Seq<char>) -> bool
    decreases a.len(),
{
    if a.len() == 0 {
        true
    } else if b.len() == 0 {
        false
    } else if a[0] != b[0] {
        a[0] < b[0]
    } else {
        text_le(a.skip(1), b.skip(1))
    }
}

/// Of two texts, one stands before the other or they tie.
pub proof fn lemma_text_le_total(a: Seq<char>, b: Seq<char>)
    ensures
        text_le(a, b) || text_le(b, a),
    decreases a.len(),
{
    if a.len() > 0 && b.len() > 0 && a[0] == b[0] {
        lemma_text_le_total(a.skip(1), b.skip(1));
    }
}

pub proof fn lemma_text_le_transitive(a: Seq<char>, b: Seq<char>, c: Seq<char>)
    requires
        text_le(a, b),
        text_le(b, c),
    ensures
        text_le(a, c),
    decreases a.len(),
{
    if a.len() > 0 && b.len() > 0 && c.len() > 0 && a[0] == b[0] && b[0] == c[0] {
        lemma_text_le_transitive(a.skip(1), b.skip(1), c.skip(1));
    }
}

/// Texts that tie are equal.
pub proof fn lemma_text_le_antisymmetric(a: Seq<char>, b: Seq<char>)
    requires
        text_le(a, b),
        text_le(b, a),
    ensures
        a == b,
    decreases a.len(),
{
    if a.len() > 0 && b.len() > 0 {
        lemma_text_le_antisymmetric(a.skip(1), b.skip(1));
        assert(a == seq![a[0]] + a.skip(1));
        assert(b == seq![b[0]] + b.skip(1));
    } else {
        assert(a == b);
    }
}

impl SortKey for Vec<char> {
    open spec fn le(&self, other: &Self) -> bool {
        text_le(self@, other@)
    }

    fn at_most(&self, other: &Self) -> (r: bool) {
        let mut i: usize = 0;
        assert(self@.skip(0) == self@);
        assert(other@.skip(0) == other@);
        while i < self.len() && i < other.len() && self[i] == other[i]
            invariant
                i <= self@.len(),
                i <= other@.len(),
                text_le(self@, other@) == text_le(self@.skip(i as int), other@.skip(i as int)),
            decreases self@.len() - i,
        {
            assert(self@.skip(i as int).skip(1) == self@.skip(i + 1));
            assert(other@.skip(i as int).skip(1) == other@.skip(i + 1));
            i = i + 1;
        }
        i == self.len() || (i < other.len() && self[i] < other[i])
    }

    proof fn lemma_total(a: &Self, b: &Self) {
        lemma_text_le_total(a@, b@);
    }

    proof fn lemma_transitive(a: &Self, b: &Self, c: &Self) {
        lemma_text_le_transitive(a@, b@, c@);
    }
}

/// Whether item `a` comes before item `b` in a stable sort: its key is not
/// larger and, where the keys tie, it stood first.
pub open spec fn before<K: SortKey>(keys: Seq<K>, a: int, b: int) -> bool {
    keys[a].le(&keys[b]) && (keys[b].le(&keys[a]) ==> a < b)
}

/// Whether `order` lists the positions of `keys` as a stable sort does.
pub open spec fn is_stable_order<K: SortKey>(keys: Seq<K>, order: Seq<usize>) -> bool {
    &&& order.len() == keys.len()
    &&& forall|i: int| 0 <= i < order.len() ==> (#[trigger] order[i]) < keys.len()
    &&& forall|j: int| 0 <= j < keys.len() ==> #[trigger] order.contains(j as usize)
    &&& forall|i: int, j: int|
        0 <= i < j < order.len() ==> before(keys, #[trigger] order[i] as int, #[trigger] order[j] as int)
}

/// Whether `v` lists the positions `from..to` as a stable sort does.
spec fn is_sorted_run<K: SortKey>(keys: Seq<K>, v: Seq<usize>, from: int, to: int) -> bool {
    &&& v.len() == to - from
    &&& forall|i: int| 0 <= i < v.len() ==> from <= (#[trigger] v[i]) < to
    &&& forall|j: int| from <= j < to ==> #[trigger] v.contains(j as usize)
    &&& forall|i: int, j: int|
        0 <= i < j < v.len() ==> before(keys, #[trigger] v[i] as int, #[trigger] v[j] as int)
}

/// Merges two sorted runs that follow each other.
fn merge_runs<K: SortKey>(
    keys: &Vec<K>,
    left: &Vec<usize>,
    right: &Vec<usize>,
    Ghost(from): Ghost<int>,
    Ghost(mid): Ghost<int>,
    Ghost(to): Ghost<int>,
) -> (out: Vec<usize>)
    requires
        0 <= from <= mid <= to <= keys@.len(),
        is_sorted_run(keys@, left@, from, mid),
        is_sorted_run(keys@, right@, mid, to),
    ensures
        is_sorted_run(keys@, out@, from, to),
{
    let mut out: Vec<usize> = Vec::new();
    let mut a: usize = 0;
    let mut b: usize = 0;
    while a < left.len() || b < right.len()
        invariant
            a <= left@.len(),
            b <= right@.len(),
            0 <= from <= mid <= to <= keys@.len(),
            is_sorted_run(keys@, left@, from, mid),
            is_sorted_run(keys@, right@, mid, to),
            out@.len() == a + b,
            forall|i: int| 0 <= i < out@.len() ==> from <= (#[trigger] out@[i]) < to,
            forall|i: int| 0 <= i < a ==> #[trigger] out@.contains(left@[i]),
            forall|i: int| 0 <= i < b ==> #[trigger] out@.contains(right@[i]),
            forall|i: int, j: int|
                0 <= i < j < out@.len() ==> before(
                    keys@,
                    #[trigger] out@[i] as int,
                    #[trigger] out@[j] as int,
                ),
            forall|i: int, j: int|
                0 <= i < out@.len() && a <= j < left@.len() ==> before(
                    keys@,
                    #[trigger] out@[i] as int,
                    #[trigger] left@[j] as int,
                ),
            forall|i: int, j: int|
                0 <= i < out@.len() && b <= j < right@.len() ==> before(
                    keys@,
                    #[trigger] out@[i] as int,
                    #[trigger] right@[j] as int,
                ),
        decreases left@.len() - a + right@.len() - b,
    {
        let ghost earlier = out@;
        let take_left = b == right.len() || (a < left.len() && keys[left[a]].at_most(
            &keys[right[b]],
        ));
        if take_left {
            let next: usize = left[a];
            proof {
                assert forall|j: int| b <= j < right@.len() implies before(
                    keys@,
                    next as int,
                    #[trigger] right@[j] as int,
                ) by {
                    if b < j {
                        assert(before(keys@, right@[b as int] as int, right@[j] as int));
                        K::lemma_transitive(
                            &keys@[next as int],
                            &keys@[right@[b as int] as int],
                            &keys@[right@[j] as int],
                        );
                    }
                }
            }
            out.push(next);
            a = a + 1;
        } else {
            let next: usize = right[b];
            proof {
                assert forall|j: int| a <= j < left@.len() implies before(
                    keys@,
                    next as int,
                    #[trigger] left@[j] as int,
                ) by {
                    let l = &keys@[left@[a as int] as int];
                    let r = &keys@[next as int];
                    let m = &keys@[left@[j] as int];
                    K::lemma_total(l, r);
                    if a < j {
                        assert(before(keys@, left@[a as int] as int, left@[j] as int));
                        K::lemma_transitive(r, l, m);
                        if m.le(r) {
                            K::lemma_transitive(l, m, r);
                        }
                    }
                }
            }
            out.push(next);
            b = b + 1;
        }
        proof {
            assert forall|i: int| 0 <= i < a implies #[trigger] out@.contains(left@[i]) by {
                lemma_contains_after_push(earlier, out@[earlier.len() as int], left@[i]);
            }
            assert forall|i: int| 0 <= i < b implies #[trigger] out@.contains(right@[i]) by {
                lemma_contains_after_push(earlier, out@[earlier.len() as int], right@[i]);
            }
        }
    }
    proof {
        assert forall|j: int| from <= j < to implies #[trigger] out@.contains(j as usize) by {
            if j < mid {
                assert(left@.contains(j as usize));
                let i = choose|i: int| 0 <= i < left@.len() && left@[i] == j as usize;
                assert(out@.contains(left@[i]));
            } else {
                assert(right@.contains(j as usize));
                let i = choose|i: int| 0 <= i < right@.len() && right@[i] == j as usize;
                assert(out@.contains(right@[i]));
            }
        }
    }
    out
}

proof fn lemma_contains_after_push(s: Seq<usize>, x: usize, y: usize)
    requires
        s.contains(y) || x == y,
    ensures
        s.push(x).contains(y),
{
    if s.contains(y) {
        let i = choose|i: int| 0 <= i < s.len() && s[i] == y;
        assert(s.push(x)[i] == y);
    } else {
        assert(s.push(x)[s.len() as int] == y);
    }
}

fn sort_run<K: SortKey>(keys: &Vec<K>, from: usize, to: usize) -> (out: Vec<usize>)
    requires
        from <= to <= keys@.len(),
    ensures
        is_sorted_run(keys@, out@, from as int, to as int),
    decreases to - from,
{
    if to - from <= 1 {
        let mut out: Vec<usize> = Vec::new();
        if from < to {
            out.push(from);
            assert(out@[0] == from);
        }
        return out;
    }
    let mid: usize = from + (to - from) / 2;
    let left = sort_run(keys, from, mid);
    let right = sort_run(keys, mid, to);
    merge_runs(keys, &left, &right, Ghost(from as int), Ghost(mid as int), Ghost(to as int))
}

/// A stable sort of the positions of `keys`.
pub fn stable_order<K: SortKey>(keys: &Vec<K>) -> (order: Vec<usize>)
    ensures
        is_stable_order(keys@, order@),
{
    sort_run(keys, 0, keys.len())
}

/// Whether `order` lists the numbers below `n` as a stable sort by `le` does.
pub open spec fn is_stable_sort(n: int, le: spec_fn(int, int) -> bool, order: Seq<usize>) -> bool {
    &&& order.len() == n
    &&& forall|i: int| 0 <= i < n ==> (#[trigger] order[i]) < n
    &&& forall|j: int| 0 <= j < n ==> #[trigger] order.contains(j as usize)
    &&& forall|i: int, j: int|
        0 <= i < j < n ==> le(#[trigger] order[i] as int, #[trigger] order[j] as int) && (le(
            order[j] as int,
            order[i] as int,
        ) ==> order[i] < order[j])
}

/// A stable order of keys is a stable sort by any relation that compares them.
pub proof fn lemma_stable_sort<K: SortKey>(
    keys: Seq<K>,
    order: Seq<usize>,
    le: spec_fn(int, int) -> bool,
)
    requires
        is_stable_order(keys, order),
        forall|a: int, b: int|
            0 <= a < keys.len() && 0 <= b < keys.len() ==> #[trigger] le(a, b) == keys[a].le(
                &keys[b],
            ),
    ensures
        is_stable_sort(keys.len() as int, le, order),
{
    let n = keys.len() as int;
    assert forall|i: int, j: int| 0 <= i < j < n implies le(
        #[trigger] order[i] as int,
        #[trigger] order[j] as int,
    ) && (le(order[j] as int, order[i] as int) ==> order[i] < order[j]) by {
        assert(before(keys, order[i] as int, order[j] as int));
    }
}

/// There is one stable order of a list of keys.
pub proof fn lemma_stable_order_unique<K: SortKey>(keys: Seq<K>, a: Seq<usize>, b: Seq<usize>)
    requires
        is_stable_order(keys, a),
        is_stable_order(keys, b),
    ensures
        a == b,
{
    assert forall|i: int| 0 <= i < a.len() implies #[trigger] a[i] == b[i] by {
        lemma_stable_order_agrees(keys, a, b, i);
    }
    assert(a == b);
}

proof fn lemma_stable_order_agrees<K: SortKey>(keys: Seq<K>, a: Seq<usize>, b: Seq<usize>, i: int)
    requires
        is_stable_order(keys, a),
        is_stable_order(keys, b),
        0 <= i < a.len(),
    ensures
        a[i] == b[i],
    decreases i,
{
    assert forall|k: int| 0 <= k < i implies a[k] == b[k] by {
        lemma_stable_order_agrees(keys, a, b, k);
    }
    if a[i] != b[i] {
        assert(b.contains(a[i] as int as usize));
        assert(a.contains(b[i] as int as usize));
        let p = choose|p: int| 0 <= p < b.len() && b[p] == a[i];
        let q = choose|q: int| 0 <= q < a.len() && a[q] == b[i];
        if p < i {
            assert(a[p] == b[p]);
            assert(before(keys, a[p] as int, a[i] as int));
            assert(false);
        }
        if q < i {
            assert(a[q] == b[q]);
            assert(before(keys, b[q] as int, b[i] as int));
            assert(false);
        }
        assert(before(keys, b[i] as int, b[p] as int));
        assert(before(keys, a[i] as int, a[q] as int));
        assert(false);
    }
}

/// The number of leading positions of a stable order whose keys may stand
/// before `key`.
proof fn lemma_insertion_point<K: SortKey>(keys: Seq<K>, order: Seq<usize>, key: K) -> (p: int)
    requires
        is_stable_order(keys, order),
    ensures
        0 <= p <= order.len(),
        forall|i: int| 0 <= i < p ==> keys[#[trigger] order[i] as int].le(&key),
        forall|i: int| p <= i < order.len() ==> !keys[#[trigger] order[i] as int].le(&key),
{
    lemma_first_above(keys, order, key, 0)
}

proof fn lemma_first_above<K: SortKey>(keys: Seq<K>, order: Seq<usize>, key: K, from: int) -> (p:
    int)
    requires
        is_stable_order(keys, order),
        0 <= from <= order.len(),
        forall|i: int| 0 <= i < from ==> keys[#[trigger] order[i] as int].le(&key),
    ensures
        from <= p <= order.len(),
        forall|i: int| 0 <= i < p ==> keys[#[trigger] order[i] as int].le(&key),
        forall|i: int| p <= i < order.len() ==> !keys[#[trigger] order[i] as int].le(&key),
    decreases order.len() - from,
{
    if from == order.len() {
        from
    } else if keys[order[from] as int].le(&key) {
        lemma_first_above(keys, order, key, from + 1)
    } else {
        assert forall|i: int| from <= i < order.len() implies !keys[#[trigger] order[i] as int].le(
            &key,
        ) by {
            if i > from && keys[order[i] as int].le(&key) {
                assert(before(keys, order[from] as int, order[i] as int));
                K::lemma_transitive(&keys[order[from] as int], &keys[order[i] as int], &key);
            }
        }
        from
    }
}

/// Every list of keys has a stable order.
pub proof fn lemma_stable_order_exists<K: SortKey>(keys: Seq<K>) -> (order: Seq<usize>)
    requires
        keys.len() <= usize::MAX,
    ensures
        is_stable_order(keys, order),
    decreases keys.len(),
{
    if keys.len() == 0 {
        Seq::empty()
    } else {
        let n = keys.len() - 1;
        let shorter = keys.drop_last();
        let key = keys.last();
        let o = lemma_stable_order_exists(shorter);
        let p = lemma_insertion_point(shorter, o, key);
        let order = o.insert(p, n as usize);
        assert forall|j: int| 0 <= j < keys.len() implies #[trigger] order.contains(j as usize) by {
            if j == n {
                assert(order[p] == n as usize);
            } else {
                assert(o.contains(j as usize));
                let i = choose|i: int| 0 <= i < o.len() && o[i] == j as usize;
                assert(order[if i < p { i } else { i + 1 }] == j as usize);
            }
        }
        assert forall|i: int, j: int| 0 <= i < j < order.len() implies before(
            keys,
            #[trigger] order[i] as int,
            #[trigger] order[j] as int,
        ) by {
            let a = if i < p { i } else { i - 1 };
            let b = if j < p { j } else { j - 1 };
            if i == p {
                assert(order[j] == o[b]);
                assert(!shorter[o[b] as int].le(&key));
                K::lemma_total(&key, &shorter[o[b] as int]);
            } else if j == p {
                assert(order[i] == o[a]);
                assert(shorter[o[a] as int].le(&key));
            } else {
                assert(order[i] == o[a]);
                assert(order[j] == o[b]);
                assert(before(shorter, o[a] as int, o[b] as int));
            }
        }
        order
    }
}

/// Texts stand in the order of the first characters in which they differ, and a
/// text stands before those that it begins.
pub proof fn lemma_text_order(p: Seq<char>, x: char, y: char, a: Seq<char>, b: Seq<char>)
    requires
        x < y,
        a.len() > 0,
    ensures
        text_le(p + seq![x] + b, p + seq![y] + a),
        !text_le(p + seq![y] + a, p + seq![x] + b),
        text_le(p, p + a),
        !text_le(p + a, p),
        text_le(p, p),
    decreases p.len(),
{
    let l = p + seq![x] + b;
    let r = p + seq![y] + a;
    if p.len() == 0 {
        assert(l[0] == x);
        assert(r[0] == y);
    } else {
        let q = p.skip(1);
        lemma_text_order(q, x, y, a, b);
        assert(l.skip(1) =~= q + seq![x] + b);
        assert(r.skip(1) =~= q + seq![y] + a);
        assert((p + a).skip(1) =~= q + a);
        assert(l[0] == p[0] && r[0] == p[0] && (p + a)[0] == p[0]);
    }
}

/// A stable order lists every position once, by rising keys; positions whose keys
/// tie keep their order.
pub proof fn lemma_stable_order<K: SortKey>(keys: Seq<K>, order: Seq<usize>)
    requires
        is_stable_order(keys, order),
        keys.len() <= usize::MAX,
    ensures
        order.len() == keys.len(),
        order.no_duplicates(),
        forall|i: int| 0 <= i < keys.len() ==> (#[trigger] order[i]) < keys.len(),
        forall|j: int| 0 <= j < keys.len() ==> #[trigger] order.contains(j as usize),
        forall|i: int, j: int|
            0 <= i < j < keys.len() ==> keys[#[trigger] order[i] as int].le(
                &keys[#[trigger] order[j] as int],
            ),
        forall|i: int, j: int|
            0 <= i < j < keys.len() && keys[order[j] as int].le(&keys[order[i] as int])
                ==> #[trigger] order[i] < #[trigger] order[j],
{
    assert forall|i: int, j: int| 0 <= i < j < order.len() implies order[i] != order[j] by {
        assert(before(keys, order[i] as int, order[j] as int));
    }
    assert forall|i: int, j: int| 0 <= i < j < keys.len() implies keys[
    #[trigger] order[i] as int].le(&keys[#[trigger] order[j] as int]) by {
        assert(before(keys, order[i] as int, order[j] as int));
    }
    assert forall|i: int, j: int|
        0 <= i < j < keys.len() && keys[order[j] as int].le(&keys[order[i] as int]) implies
        #[trigger] order[i] < #[trigger] order[j] by {
        assert(before(keys, order[i] as int, order[j] as int));
    }
}

} // verus!
