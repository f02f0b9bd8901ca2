//! Line counts: 64-bit arithmetic that wraps around, and sums.

use vstd::prelude::*;

verus! {

/// The 64-bit two's complement number that a sum of line counts is kept as:
/// the sum itself wherever it fits.
pub open spec fn wrap(x: int) -> i64 {
    ((x + 0x8000_0000_0000_0000) % 0x1_0000_0000_0000_0000 - 0x8000_0000_0000_0000) as i64
}

/// The sum of `f` over the items of `s`.
pub open spec fn sum<A>(s: Seq<A>, f: spec_fn(A) -> int) -> int
    decreases s.len(),
{
    if s.len() == 0 {
        0
    } else {
        sum(s.drop_last(), f) + f(s.last())
    }
}

/// A count that fits is kept unchanged.
pub proof fn lemma_wrap_fits(x: int)
    requires
        i64::MIN <= x <= i64::MAX,
    ensures
        wrap(x) == x,
{
}

/// What a count is kept as differs from it by a multiple of 2 to the 64th.
pub proof fn lemma_wrap_congruent(x: int)
    ensures
        (wrap(x) - x) % 0x1_0000_0000_0000_0000 == 0,
        i64::MIN <= x <= i64::MAX ==> wrap(x) == x,
{
    lemma_wrap_rounds(x);
    vstd::arithmetic::div_mod::lemma_mod_multiples_basic(-rounds(x), 0x1_0000_0000_0000_0000);
}

proof fn lemma_wrap_shift(x: int, k: int)
    ensures
        wrap(x + k * 0x1_0000_0000_0000_0000) == wrap(x),
{
    vstd::arithmetic::div_mod::lemma_mod_multiples_vanish(
        k,
        x + 0x8000_0000_0000_0000,
        0x1_0000_0000_0000_0000,
    );
}

/// How many times a count goes round.
spec fn rounds(x: int) -> int {
    (x + 0x8000_0000_0000_0000) / 0x1_0000_0000_0000_0000
}

proof fn lemma_wrap_rounds(x: int)
    ensures
        wrap(x) == x - rounds(x) * 0x1_0000_0000_0000_0000,
{
}

pub proof fn lemma_wrap_add(a: int, b: int)
    ensures
        wrap(wrap(a) + b) == wrap(a + b),
        wrap(a + wrap(b)) == wrap(a + b),
        wrap(a - wrap(b)) == wrap(a - b),
        wrap(wrap(a) - b) == wrap(a - b),
{
    lemma_wrap_rounds(a);
    lemma_wrap_rounds(b);
    lemma_wrap_shift(a + b, -rounds(a));
    lemma_wrap_shift(a + b, -rounds(b));
    lemma_wrap_shift(a - b, rounds(b));
    lemma_wrap_shift(a - b, -rounds(a));
}

/// Sums of counts that wrap to the same numbers wrap to the same number.
pub proof fn lemma_wrap_same(a: int, b: int, c: int, d: int)
    requires
        wrap(a) == wrap(b),
        wrap(c) == wrap(d),
    ensures
        wrap(a + c) == wrap(b + d),
        wrap(a - c) == wrap(b - d),
{
    lemma_wrap_add(a, c);
    lemma_wrap_add(wrap(a) as int, c);
    lemma_wrap_add(b, d);
    lemma_wrap_add(wrap(b) as int, d);
}

/// Adds two counts.
pub fn plus(a: i64, b: i64) -> (r: i64)
    ensures
        r == wrap(a + b),
{
    a.wrapping_add(b)
}

/// Subtracts two counts.
pub fn minus(a: i64, b: i64) -> (r: i64)
    ensures
        r == wrap(a - b),
{
    a.wrapping_sub(b)
}

pub proof fn lemma_sum_push<A>(s: Seq<A>, x: A, f: spec_fn(A) -> int)
    ensures
        sum(s.push(x), f) == sum(s, f) + f(x),
{
    assert(s.push(x).drop_last() == s);
}

pub proof fn lemma_sum_concat<A>(s: Seq<A>, t: Seq<A>, f: spec_fn(A) -> int)
    ensures
        sum(s + t, f) == sum(s, f) + sum(t, f),
    decreases t.len(),
{
    if t.len() == 0 {
        assert(s + t == s);
    } else {
        assert((s + t).drop_last() == s + t.drop_last());
        lemma_sum_concat(s, t.drop_last(), f);
    }
}

/// Sums agree where their terms do.
pub proof fn lemma_sum_equal<A>(s: Seq<A>, f: spec_fn(A) -> int, g: spec_fn(A) -> int)
    requires
        forall|i: int| 0 <= i < s.len() ==> #[trigger] f(s[i]) == g(s[i]),
    ensures
        sum(s, f) == sum(s, g),
    decreases s.len(),
{
    if s.len() > 0 {
        let t = s.drop_last();
        assert forall|i: int| 0 <= i < t.len() implies #[trigger] f(t[i]) == g(t[i]) by {
            assert(f(s[i]) == g(s[i]));
        }
        lemma_sum_equal(t, f, g);
        assert(f(s[s.len() - 1]) == g(s[s.len() - 1]));
    }
}

/// The terms of `f` where `p` holds and zero elsewhere.
pub open spec fn only<A>(p: spec_fn(A) -> bool, f: spec_fn(A) -> int) -> spec_fn(A) -> int {
    |x: A|
        if p(x) {
            f(x)
        } else {
            0
        }
}

/// Leaving items out is counting them as zero.
pub proof fn lemma_sum_filter<A>(s: Seq<A>, p: spec_fn(A) -> bool, f: spec_fn(A) -> int)
    ensures
        sum(s.filter(p), f) == sum(s, only(p, f)),
    decreases s.len(),
{
    reveal(Seq::filter);
    if s.len() > 0 {
        lemma_sum_filter(s.drop_last(), p, f);
        if p(s.last()) {
            lemma_sum_push(s.drop_last().filter(p), s.last(), f);
        }
    }
}

pub proof fn lemma_sum_plus<A>(
    s: Seq<A>,
    f: spec_fn(A) -> int,
    g: spec_fn(A) -> int,
    h: spec_fn(A) -> int,
)
    requires
        forall|i: int| 0 <= i < s.len() ==> #[trigger] h(s[i]) == f(s[i]) + g(s[i]),
    ensures
        sum(s, h) == sum(s, f) + sum(s, g),
    decreases s.len(),
{
    if s.len() > 0 {
        let t = s.drop_last();
        assert forall|i: int| 0 <= i < t.len() implies #[trigger] h(t[i]) == f(t[i]) + g(t[i]) by {
            assert(h(s[i]) == f(s[i]) + g(s[i]));
        }
        lemma_sum_plus(t, f, g, h);
        assert(h(s[s.len() - 1]) == f(s[s.len() - 1]) + g(s[s.len() - 1]));
    }
}

pub proof fn lemma_sum_zero<A>(s: Seq<A>, f: spec_fn(A) -> int)
    requires
        forall|i: int| 0 <= i < s.len() ==> #[trigger] f(s[i]) == 0,
    ensures
        sum(s, f) == 0,
    decreases s.len(),
{
    if s.len() > 0 {
        let t = s.drop_last();
        assert forall|i: int| 0 <= i < t.len() implies #[trigger] f(t[i]) == 0 by {
            assert(f(s[i]) == 0);
        }
        lemma_sum_zero(t, f);
        assert(f(s[s.len() - 1]) == 0);
    }
}

pub proof fn lemma_sum_remove<A>(s: Seq<A>, i: int, f: spec_fn(A) -> int)
    requires
        0 <= i < s.len(),
    ensures
        sum(s.remove(i), f) == sum(s, f) - f(s[i]),
    decreases s.len(),
{
    let t = s.remove(i);
    if i == s.len() - 1 {
        assert(t == s.drop_last());
    } else {
        assert(t.drop_last() == s.drop_last().remove(i));
        lemma_sum_remove(s.drop_last(), i, f);
    }
}

/// The sum over a list without repetitions depends only on which items it has.
pub proof fn lemma_sum_same_items<A>(s: Seq<A>, t: Seq<A>, f: spec_fn(A) -> int)
    requires
        s.no_duplicates(),
        t.no_duplicates(),
        forall|x: A| #[trigger] s.contains(x) <==> t.contains(x),
    ensures
        sum(s, f) == sum(t, f),
    decreases s.len(),
{
    if s.len() == 0 {
        if t.len() > 0 {
            assert(t.contains(t[0]));
            assert(s.contains(t[0]));
        }
    } else {
        let x = s.last();
        assert(s.contains(x));
        assert(t.contains(x));
        let j = choose|j: int| 0 <= j < t.len() && t[j] == x;
        let a = s.drop_last();
        let b = t.remove(j);
        assert forall|y: A| #[trigger] a.contains(y) <==> b.contains(y) by {
            if a.contains(y) {
                let i = choose|i: int| 0 <= i < a.len() && a[i] == y;
                assert(s[i] == y);
                assert(s.contains(y));
                let k = choose|k: int| 0 <= k < t.len() && t[k] == y;
                assert(k != j);
                if k < j {
                    assert(b[k] == y);
                } else {
                    assert(b[k - 1] == y);
                }
            }
            if b.contains(y) {
                let k = choose|k: int| 0 <= k < b.len() && b[k] == y;
                let m = if k < j { k } else { k + 1 };
                assert(t[m] == y);
                assert(t.contains(y));
                assert(s.contains(y));
                let i = choose|i: int| 0 <= i < s.len() && s[i] == y;
                assert(t[m] != t[j]);
                assert(i < s.len() - 1);
                assert(a[i] == y);
            }
        }
        lemma_sum_same_items(a, b, f);
        lemma_sum_remove(t, j, f);
    }
}

/// Wrapping the terms of a sum does not change what the sum wraps to.
pub proof fn lemma_sum_wrap<A>(s: Seq<A>, f: spec_fn(A) -> int, g: spec_fn(A) -> int)
    requires
        forall|i: int| 0 <= i < s.len() ==> wrap(#[trigger] f(s[i])) == wrap(g(s[i])),
    ensures
        wrap(sum(s, f)) == wrap(sum(s, g)),
    decreases s.len(),
{
    if s.len() > 0 {
        let t = s.drop_last();
        assert forall|i: int| 0 <= i < t.len() implies wrap(#[trigger] f(t[i])) == wrap(g(t[i])) by {
            assert(wrap(f(s[i])) == wrap(g(s[i])));
        }
        lemma_sum_wrap(t, f, g);
        assert(wrap(f(s[s.len() - 1])) == wrap(g(s[s.len() - 1])));
        lemma_wrap_same(sum(t, f), sum(t, g), f(s.last()), g(s.last()));
    }
}

/// Whether `q` lists the members of `s`, each once.
pub open spec fn lists<A>(q: Seq<A>, s: Set<A>) -> bool {
    &&& q.no_duplicates()
    &&& forall|x: A| #[trigger] s.contains(x) <==> q.contains(x)
}

/// The members of a finite set, in some order.
pub open spec fn listing<A>(s: Set<A>) -> Seq<A> {
    choose|q: Seq<A>| lists(q, s)
}

/// The sum of `f` over the members of a finite set.
pub open spec fn sum_over<A>(s: Set<A>, f: spec_fn(A) -> int) -> int {
    sum(listing(s), f)
}

/// A sum over a set can be taken in any order.
pub proof fn lemma_sum_over<A>(q: Seq<A>, s: Set<A>, f: spec_fn(A) -> int)
    requires
        lists(q, s),
    ensures
        lists(listing(s), s),
        sum_over(s, f) == sum(q, f),
{
    let l = listing(s);
    assert forall|x: A| #[trigger] l.contains(x) <==> q.contains(x) by {
        assert(s.contains(x) <==> l.contains(x));
        assert(s.contains(x) <==> q.contains(x));
    }
    lemma_sum_same_items(l, q, f);
}

pub proof fn lemma_listing<A>(s: Set<A>)
    requires
        s.finite(),
    ensures
        lists(listing(s), s),
    decreases s.len(),
{
    if s.is_empty() {
        let q = Seq::<A>::empty();
        assert(lists(q, s));
    } else {
        let a = s.choose();
        let t = s.remove(a);
        lemma_listing(t);
        let q = listing(t).push(a);
        assert(!t.contains(a));
        assert(lists(q, s)) by {
            assert forall|i: int, j: int| 0 <= i < q.len() && 0 <= j < q.len() && i != j implies q[i]
                != q[j] by {
                if i == q.len() - 1 {
                    assert(listing(t).contains(listing(t)[j]));
                    assert(t.contains(q[j]));
                } else if j == q.len() - 1 {
                    assert(listing(t).contains(listing(t)[i]));
                    assert(t.contains(q[i]));
                }
            }
            assert forall|x: A| #[trigger] s.contains(x) <==> q.contains(x) by {
                if s.contains(x) {
                    if x == a {
                        assert(q[q.len() - 1] == x);
                    } else {
                        assert(t.contains(x));
                        let i = choose|i: int| 0 <= i < listing(t).len() && listing(t)[i] == x;
                        assert(q[i] == x);
                    }
                }
                if q.contains(x) {
                    let i = choose|i: int| 0 <= i < q.len() && q[i] == x;
                    if i < listing(t).len() {
                        assert(listing(t).contains(x));
                        assert(t.contains(x));
                    }
                }
            }
        }
    }
}

/// A list of which some items are kept lists the kept members.
pub proof fn lemma_lists_filter<A>(q: Seq<A>, s: Set<A>, p: spec_fn(A) -> bool)
    requires
        lists(q, s),
    ensures
        lists(q.filter(p), s.filter(p)),
{
    let r = q.filter(p);
    lemma_filter_distinct(q, p);
    assert forall|x: A| #[trigger] s.filter(p).contains(x) <==> r.contains(x) by {
        assert(s.contains(x) <==> q.contains(x));
        if q.contains(x) && p(x) {
            let i = choose|i: int| 0 <= i < q.len() && q[i] == x;
            q.lemma_filter_contains(p, i);
        }
        if r.contains(x) {
            q.lemma_filter_contains_rev(p, x);
            let i = choose|i: int| 0 <= i < r.len() && r[i] == x;
            q.lemma_filter_pred(p, i);
        }
    }
}

pub proof fn lemma_filter_distinct<A>(q: Seq<A>, p: spec_fn(A) -> bool)
    requires
        q.no_duplicates(),
    ensures
        q.filter(p).no_duplicates(),
    decreases q.len(),
{
    reveal(Seq::filter);
    if q.len() > 0 {
        let t = q.drop_last();
        assert(t.no_duplicates()) by {
            assert forall|a: int, b: int| 0 <= a < t.len() && 0 <= b < t.len() && a != b implies t[a]
                != t[b] by {
                assert(q[a] != q[b]);
            }
        }
        lemma_filter_distinct(t, p);
        if p(q.last()) {
            let r = t.filter(p);
            assert forall|i: int| 0 <= i < r.len() implies r[i] != q.last() by {
                assert(r.contains(r[i]));
                t.lemma_filter_contains_rev(p, r[i]);
                let j = choose|j: int| 0 <= j < t.len() && t[j] == r[i];
                assert(q[j] != q[q.len() - 1]);
            }
        }
    }
}

/// Summing over mapped items.
pub proof fn lemma_sum_map<A, B>(s: Seq<A>, g: spec_fn(A) -> B, f: spec_fn(B) -> int, h: spec_fn(
    A,
) -> int)
    requires
        forall|x: A| #[trigger] h(x) == f(g(x)),
    ensures
        sum(s.map_values(g), f) == sum(s, h),
    decreases s.len(),
{
    if s.len() > 0 {
        assert(s.map_values(g).drop_last() =~= s.drop_last().map_values(g));
        lemma_sum_map(s.drop_last(), g, f, h);
        assert(h(s.last()) == f(g(s.last())));
    }
}

pub proof fn lemma_sum_scale<A>(s: Seq<A>, f: spec_fn(A) -> int, g: spec_fn(A) -> int, m: int)
    requires
        forall|i: int| 0 <= i < s.len() ==> #[trigger] g(s[i]) == m * f(s[i]),
    ensures
        sum(s, g) == m * sum(s, f),
    decreases s.len(),
{
    if s.len() > 0 {
        let t = s.drop_last();
        assert forall|i: int| 0 <= i < t.len() implies #[trigger] g(t[i]) == m * f(t[i]) by {
            assert(g(s[i]) == m * f(s[i]));
        }
        lemma_sum_scale(t, f, g, m);
        assert(g(s[s.len() - 1]) == m * f(s[s.len() - 1]));
        assert(m * sum(t, f) + m * f(s.last()) == m * (sum(t, f) + f(s.last())))
            by (nonlinear_arith);
    } else {
        assert(m * 0 == 0);
    }
}

/// Sums over lists that agree item by item.
pub proof fn lemma_sum_zip<A, B>(s: Seq<A>, t: Seq<B>, f: spec_fn(A) -> int, g: spec_fn(B) -> int)
    requires
        s.len() == t.len(),
        forall|i: int| 0 <= i < s.len() ==> f(#[trigger] s[i]) == g(t[i]),
    ensures
        sum(s, f) == sum(t, g),
    decreases s.len(),
{
    if s.len() > 0 {
        assert forall|i: int| 0 <= i < s.drop_last().len() implies f(#[trigger] s.drop_last()[i])
            == g(t.drop_last()[i]) by {
            assert(f(s[i]) == g(t[i]));
        }
        lemma_sum_zip(s.drop_last(), t.drop_last(), f, g);
        assert(f(s[s.len() - 1]) == g(t[s.len() - 1]));
    }
}

/// Members at which `f` is zero do not count.
pub proof fn lemma_sum_over_part<A>(
    q: Seq<A>,
    s: Set<A>,
    part: Set<A>,
    p: spec_fn(A) -> bool,
    f: spec_fn(A) -> int,
)
    requires
        lists(q, s),
        forall|x: A| #[trigger] part.contains(x) <==> s.contains(x) && p(x),
        forall|x: A| s.contains(x) && !p(x) ==> #[trigger] f(x) == 0,
    ensures
        sum_over(part, f) == sum(q, f),
{
    lemma_lists_filter(q, s, p);
    assert(s.filter(p) =~= part);
    lemma_sum_over(q.filter(p), part, f);
    lemma_sum_filter(q, p, f);
    let g = only(p, f);
    assert forall|i: int| 0 <= i < q.len() implies #[trigger] g(q[i]) == f(q[i]) by {
        assert(q.contains(q[i]));
        assert(s.contains(q[i]));
    }
    lemma_sum_equal(q, g, f);
}

/// A double sum can be taken in either order.
pub proof fn lemma_sum_swap<A, B>(s: Seq<A>, t: Seq<B>, f: spec_fn(A, B) -> int)
    ensures
        sum(s, |a: A| sum(t, |b: B| f(a, b))) == sum(t, |b: B| sum(s, |a: A| f(a, b))),
    decreases s.len(),
{
    let g = |b: B| sum(s, |a: A| f(a, b));
    if s.len() == 0 {
        lemma_sum_zero(t, g);
    } else {
        let u = s.drop_last();
        let x = s.last();
        lemma_sum_swap(u, t, f);
        let g0 = |b: B| sum(u, |a: A| f(a, b));
        let g1 = |b: B| f(x, b);
        lemma_sum_plus(t, g0, g1, g);
        let rows = |a: A| sum(t, |b: B| f(a, b));
        assert(sum(s, rows) == sum(u, rows) + rows(x));
    }
}

/// A sum whose terms are zero but at one item.
pub proof fn lemma_sum_at_one<A>(q: Seq<A>, d: A, v: int, f: spec_fn(A) -> int)
    requires
        q.no_duplicates(),
        forall|x: A| #[trigger] f(x) == if x == d { v } else { 0 },
    ensures
        sum(q, f) == if q.contains(d) { v } else { 0 },
    decreases q.len(),
{
    if q.len() > 0 {
        let t = q.drop_last();
        assert forall|a: int, b: int| 0 <= a < t.len() && 0 <= b < t.len() && a != b implies t[a]
            != t[b] by {
            assert(q[a] != q[b]);
        }
        lemma_sum_at_one(t, d, v, f);
        assert(f(q.last()) == if q.last() == d { v } else { 0 });
        if t.contains(d) {
            let i = choose|i: int| 0 <= i < t.len() && t[i] == d;
            assert(q[i] == d);
            assert(q[i] != q[q.len() - 1]);
        }
        if q.contains(d) {
            let i = choose|i: int| 0 <= i < q.len() && q[i] == d;
            if i < t.len() {
                assert(t[i] == d);
            }
        }
        assert(q[q.len() - 1] == q.last());
    }
}

/// Smaller terms have a smaller sum.
pub proof fn lemma_sum_le<A>(s: Seq<A>, f: spec_fn(A) -> int, g: spec_fn(A) -> int)
    requires
        forall|i: int| 0 <= i < s.len() ==> #[trigger] f(s[i]) <= g(s[i]),
    ensures
        sum(s, f) <= sum(s, g),
    decreases s.len(),
{
    if s.len() > 0 {
        let t = s.drop_last();
        assert forall|i: int| 0 <= i < t.len() implies #[trigger] f(t[i]) <= g(t[i]) by {
            assert(f(s[i]) <= g(s[i]));
        }
        lemma_sum_le(t, f, g);
        assert(f(s[s.len() - 1]) <= g(s[s.len() - 1]));
    }
}

/// A sum of terms that are not negative is at least each of them.
pub proof fn lemma_sum_not_negative<A>(s: Seq<A>, f: spec_fn(A) -> int)
    requires
        forall|i: int| 0 <= i < s.len() ==> 0 <= #[trigger] f(s[i]),
    ensures
        0 <= sum(s, f),
        forall|i: int| 0 <= i < s.len() ==> #[trigger] f(s[i]) <= sum(s, f),
    decreases s.len(),
{
    if s.len() > 0 {
        let t = s.drop_last();
        assert forall|i: int| 0 <= i < t.len() implies 0 <= #[trigger] f(t[i]) by {
            assert(0 <= f(s[i]));
        }
        lemma_sum_not_negative(t, f);
        assert(0 <= f(s[s.len() - 1]));
        assert forall|i: int| 0 <= i < s.len() implies #[trigger] f(s[i]) <= sum(s, f) by {
            if i < t.len() {
                assert(f(t[i]) <= sum(t, f));
            }
        }
    }
}

} // verus!
