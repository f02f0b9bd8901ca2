//! What holds of an analysis after every commit.

use vstd::prelude::*;

use crate::count::{
    lemma_filter_distinct, lemma_listing, lemma_lists_filter, lemma_sum_equal, lemma_sum_filter,
    lemma_sum_over, lemma_sum_over_part, lemma_sum_plus, lemma_sum_same_items, lemma_sum_scale,
    lemma_sum_wrap, lemma_sum_zero, lemma_sum_zip, lemma_wrap_add, lemma_wrap_fits,
    lemma_wrap_same, listing, lists, only, sum, sum_over, wrap,
};
use crate::git::Entry;
use crate::state::{
    any_changes, begun, changed_paths, curve_or_zeros, deleted, file_counts, files_of, finished,
    forgotten, gone, hist_of, initial, is_changed, is_stale, lemma_lowered_none,
    lemma_lowered_push, lemma_raised_none, lemma_raised_push, lemma_uncounted, lowered, path_of,
    raised, result_counts, series_of, stored, taken_off, Blamed, State,
};
use crate::tally::{count_of, merged, Category, Key};

verus! {

/// What all files of the last commit count for a key.
pub open spec fn live_count(s: State, k: Key) -> int {
    sum_over(s.files.dom(), file_counts(s.hists, k))
}

/// Whether the totals are what the files of the last commit count, and no other
/// file counts anything.
pub open spec fn conserved(s: State) -> bool {
    &&& s.files.dom().finite()
    &&& forall|p: Seq<char>| #[trigger]
        s.hists.contains_key(p) && !s.files.contains_key(p) ==> s.hists[p] == Map::<
            Key,
            i64,
        >::empty()
    &&& forall|k: Key| #[trigger] count_of(s.totals, k) == wrap(live_count(s, k))
}

/// Whether no two entries of a commit have the same path.
pub open spec fn distinct_paths(tree: Seq<Entry>) -> bool {
    tree.map_values(path_of()).no_duplicates()
}

/// Whether `results` are counts of files that had to be counted, of each at most
/// once. A file that could not be counted has none.
pub open spec fn are_results(check: Seq<Entry>, results: Seq<Blamed>) -> bool {
    &&& forall|i: int|
        0 <= i < results.len() ==> check.map_values(path_of()).contains((#[trigger] results[i]).0)
    &&& forall|i: int, j: int|
        0 <= i < j < results.len() ==> (#[trigger] results[i]).0 != (#[trigger] results[j]).0
}

/// The state after a commit.
pub open spec fn after_commit(
    s: State,
    tree: Seq<Entry>,
    ts: i64,
    stamp: Seq<char>,
    results: Seq<Blamed>,
) -> State {
    finished(begun(s, tree), files_of(tree), ts, stamp, results)
}

proof fn lemma_count_lowered(
    totals: Map<Key, i64>,
    hists: Map<Seq<char>, Map<Key, i64>>,
    paths: Seq<Seq<char>>,
    k: Key,
)
    ensures
        count_of(lowered(totals, hists, paths), k) == wrap(
            count_of(totals, k) - sum(paths, file_counts(hists, k)),
        ),
{
    let m = lowered(totals, hists, paths);
    if !m.contains_key(k) {
        lemma_uncounted(hists, paths, k);
        lemma_wrap_fits(0);
    }
}

proof fn lemma_count_raised(totals: Map<Key, i64>, results: Seq<Blamed>, k: Key)
    ensures
        count_of(raised(totals, results), k) == wrap(
            count_of(totals, k) + sum(results, result_counts(k)),
        ),
{
    let m = raised(totals, results);
    if !m.contains_key(k) {
        let f = result_counts(k);
        assert forall|i: int| 0 <= i < results.len() implies #[trigger] f(results[i]) == 0 by {
            assert(!results[i].1.contains_key(k));
        }
        lemma_sum_zero(results, f);
        lemma_wrap_fits(0);
    }
}

/// A commit has the files that it lists.
pub proof fn lemma_files_of(tree: Seq<Entry>)
    ensures
        forall|i: int| 0 <= i < tree.len() ==> files_of(tree).contains_key((#[trigger] tree[i]).path),
        forall|p: Seq<char>| #[trigger]
            files_of(tree).contains_key(p) ==> exists|i: int|
                0 <= i < tree.len() && (#[trigger] tree[i]).path == p && files_of(tree)[p]
                    == tree[i].blob_sha,
        distinct_paths(tree) ==> forall|i: int|
            0 <= i < tree.len() ==> files_of(tree)[(#[trigger] tree[i]).path] == tree[i].blob_sha,
    decreases tree.len(),
{
    if tree.len() > 0 {
        let t = tree.drop_last();
        lemma_files_of(t);
        assert forall|i: int| 0 <= i < tree.len() implies files_of(tree).contains_key(
            (#[trigger] tree[i]).path,
        ) by {
            if i < t.len() {
                assert(t[i] == tree[i]);
            }
        }
        assert forall|p: Seq<char>| #[trigger] files_of(tree).contains_key(p) implies exists|i: int|
            0 <= i < tree.len() && (#[trigger] tree[i]).path == p && files_of(tree)[p]
                == tree[i].blob_sha by {
            if p == tree.last().path {
                assert(tree[tree.len() - 1].path == p);
            } else {
                assert(files_of(t).contains_key(p));
                let i = choose|i: int|
                    0 <= i < t.len() && (#[trigger] t[i]).path == p && files_of(t)[p]
                        == t[i].blob_sha;
                assert(tree[i].path == p);
            }
        }
        if distinct_paths(tree) {
            let ps = tree.map_values(path_of());
            assert(distinct_paths(t)) by {
                let qs = t.map_values(path_of());
                assert forall|a: int, b: int| 0 <= a < qs.len() && 0 <= b < qs.len() && a != b implies qs[a]
                    != qs[b] by {
                    assert(ps[a] != ps[b]);
                }
            }
            assert forall|i: int| 0 <= i < tree.len() implies files_of(tree)[(
            #[trigger] tree[i]).path] == tree[i].blob_sha by {
                if i < t.len() {
                    assert(ps[i] != ps[t.len() as int]);
                    assert(t[i] == tree[i]);
                }
            }
        }
    }
}

/// What is stored of files that were counted.
pub proof fn lemma_stored(hists: Map<Seq<char>, Map<Key, i64>>, results: Seq<Blamed>)
    requires
        forall|i: int, j: int|
            0 <= i < j < results.len() ==> (#[trigger] results[i]).0 != (#[trigger] results[j]).0,
    ensures
        forall|i: int|
            0 <= i < results.len() ==> hist_of(
                stored(hists, results),
                (#[trigger] results[i]).0,
            ) == results[i].1,
        forall|p: Seq<char>|
            (forall|i: int| 0 <= i < results.len() ==> (#[trigger] results[i]).0 != p)
                ==> #[trigger] hist_of(stored(hists, results), p) == hist_of(hists, p),
    decreases results.len(),
{
    if results.len() > 0 {
        let t = results.drop_last();
        let last = results.len() - 1;
        assert forall|i: int, j: int| 0 <= i < j < t.len() implies (#[trigger] t[i]).0 != (
        #[trigger] t[j]).0 by {
            assert(results[i].0 != results[j].0);
        }
        lemma_stored(hists, t);
        assert forall|i: int| 0 <= i < results.len() implies hist_of(
            stored(hists, results),
            (#[trigger] results[i]).0,
        ) == results[i].1 by {
            if i < last {
                assert(results[i].0 != results[last].0);
                assert(t[i] == results[i]);
            }
        }
        assert forall|p: Seq<char>|
            (forall|i: int| 0 <= i < results.len() ==> (#[trigger] results[i]).0 != p) implies
            #[trigger] hist_of(stored(hists, results), p) == hist_of(hists, p) by {
            assert(results[last].0 != p);
            assert forall|i: int| 0 <= i < t.len() implies (#[trigger] t[i]).0 != p by {
                assert(results[i].0 != p);
            }
            assert(hist_of(stored(hists, t), p) == hist_of(hists, p));
        }
    }
}

/// Whether a file is neither changed nor gone.
pub open spec fn is_kept(files: Map<Seq<char>, Seq<char>>, tree: Seq<Entry>) -> spec_fn(
    Seq<char>,
) -> bool {
    |p: Seq<char>| files.contains_key(p) && !gone(files, tree).contains(p)
}

/// A file of a commit that is not kept has to be counted, and the other way round.
pub proof fn lemma_stale_paths(files: Map<Seq<char>, Seq<char>>, tree: Seq<Entry>, p: Seq<char>)
    requires
        distinct_paths(tree),
    ensures
        tree.filter(is_stale(files)).map_values(path_of()).contains(p) <==> files_of(
            tree,
        ).contains_key(p) && !is_kept(files, tree)(p),
{
    let stale = tree.filter(is_stale(files));
    let sp = stale.map_values(path_of());
    let ps = tree.map_values(path_of());
    lemma_files_of(tree);
    if sp.contains(p) {
        let i = choose|i: int| 0 <= i < sp.len() && sp[i] == p;
        tree.lemma_filter_pred(is_stale(files), i);
        assert(stale.contains(stale[i]));
        tree.lemma_filter_contains_rev(is_stale(files), stale[i]);
        let j = choose|j: int| 0 <= j < tree.len() && tree[j] == stale[i];
        assert(files_of(tree).contains_key(tree[j].path));
        if files.contains_key(p) {
            assert(is_changed(files)(tree[j]));
            assert(any_changes(files, tree, p));
        }
    }
    if files_of(tree).contains_key(p) && !is_kept(files, tree)(p) {
        let j = choose|j: int|
            0 <= j < tree.len() && (#[trigger] tree[j]).path == p && files_of(tree)[p]
                == tree[j].blob_sha;
        if files.contains_key(p) {
            let m = choose|m: int|
                0 <= m < tree.len() && is_changed(files)(#[trigger] tree[m]) && tree[m].path == p;
            if m != j {
                assert(ps[m] != ps[j]);
            }
        }
        assert(is_stale(files)(tree[j]));
        tree.lemma_filter_contains(is_stale(files), j);
        let i = choose|i: int| 0 <= i < stale.len() && stale[i] == tree[j];
        assert(sp[i] == p);
    }
}

/// The paths of a commit list its files.
pub proof fn lemma_paths_listed(tree: Seq<Entry>)
    requires
        distinct_paths(tree),
    ensures
        lists(tree.map_values(path_of()), files_of(tree).dom()),
{
    let ps = tree.map_values(path_of());
    lemma_files_of(tree);
    assert forall|p: Seq<char>| #[trigger] files_of(tree).dom().contains(p) <==> ps.contains(p) by {
        if files_of(tree).contains_key(p) {
            let i = choose|i: int|
                0 <= i < tree.len() && (#[trigger] tree[i]).path == p && files_of(tree)[p]
                    == tree[i].blob_sha;
            assert(ps[i] == p);
        }
        if ps.contains(p) {
            let i = choose|i: int| 0 <= i < ps.len() && ps[i] == p;
            assert(tree[i].path == p);
        }
    }
}

/// What each file of a commit counts: what it counted before if it is kept, else
/// its result, or nothing if it has none.
pub proof fn lemma_hists_after(
    s: State,
    tree: Seq<Entry>,
    ts: i64,
    stamp: Seq<char>,
    results: Seq<Blamed>,
)
    requires
        conserved(s),
        distinct_paths(tree),
        are_results(tree.filter(is_stale(s.files)), results),
    ensures
        ({
            let next = after_commit(s, tree, ts, stamp, results);
            &&& forall|p: Seq<char>| #[trigger]
                is_kept(s.files, tree)(p) ==> hist_of(next.hists, p) == hist_of(s.hists, p)
            &&& forall|i: int|
                0 <= i < results.len() ==> hist_of(next.hists, (#[trigger] results[i]).0)
                    == results[i].1
            &&& forall|p: Seq<char>|
                !is_kept(s.files, tree)(p) && (forall|i: int|
                    0 <= i < results.len() ==> (#[trigger] results[i]).0 != p)
                    ==> #[trigger] hist_of(next.hists, p) == Map::<Key, i64>::empty()
        }),
{
    let next = after_commit(s, tree, ts, stamp, results);
    let left = begun(s, tree).hists;
    lemma_stored(left, results);
    assert forall|p: Seq<char>| #[trigger] is_kept(s.files, tree)(p) implies hist_of(next.hists, p)
        == hist_of(s.hists, p) by {
        assert forall|i: int| 0 <= i < results.len() implies (#[trigger] results[i]).0 != p by {
            lemma_stale_paths(s.files, tree, results[i].0);
        }
        assert(hist_of(next.hists, p) == hist_of(left, p));
    }
    assert forall|p: Seq<char>|
        !is_kept(s.files, tree)(p) && (forall|i: int|
            0 <= i < results.len() ==> (#[trigger] results[i]).0 != p) implies #[trigger] hist_of(
        next.hists,
        p,
    ) == Map::<Key, i64>::empty() by {
        assert(hist_of(next.hists, p) == hist_of(left, p));
        if s.hists.contains_key(p) && !s.files.contains_key(p) {
            assert(s.hists[p] == Map::<Key, i64>::empty());
        }
    }
}

/// Where no path is listed twice, each file that changed or is gone is taken off
/// once.
pub proof fn lemma_taken_off_once(files: Map<Seq<char>, Seq<char>>, tree: Seq<Entry>)
    requires
        files.dom().finite(),
        distinct_paths(tree),
    ensures
        lists(taken_off(files, tree), gone(files, tree)),
{
    let changed = tree.filter(is_changed(files));
    let c = changed_paths(files, tree);
    let absent = deleted(files, tree);
    let d = listing(absent);
    let t = taken_off(files, tree);
    let out = gone(files, tree);
    assert(absent.subset_of(files.dom()));
    vstd::set_lib::lemma_set_subset_finite(files.dom(), absent);
    lemma_listing(absent);
    lemma_distinct_filter(tree, is_changed(files));
    lemma_files_of(tree);
    assert forall|p: Seq<char>| #[trigger] c.contains(p) <==> files.contains_key(p) && any_changes(
        files,
        tree,
        p,
    ) by {
        if c.contains(p) {
            let i = choose|i: int| 0 <= i < c.len() && c[i] == p;
            tree.lemma_filter_pred(is_changed(files), i);
            assert(changed.contains(changed[i]));
            tree.lemma_filter_contains_rev(is_changed(files), changed[i]);
            let j = choose|j: int| 0 <= j < tree.len() && tree[j] == changed[i];
            assert(is_changed(files)(tree[j]));
        }
        if any_changes(files, tree, p) {
            let j = choose|j: int|
                0 <= j < tree.len() && is_changed(files)(#[trigger] tree[j]) && tree[j].path == p;
            tree.lemma_filter_contains(is_changed(files), j);
            let i = choose|i: int| 0 <= i < changed.len() && changed[i] == tree[j];
            assert(c[i] == p);
        }
    }
    assert forall|p: Seq<char>| c.contains(p) implies !(#[trigger] absent.contains(p)) by {
        let j = choose|j: int|
            0 <= j < tree.len() && is_changed(files)(#[trigger] tree[j]) && tree[j].path == p;
        assert(files_of(tree).contains_key(tree[j].path));
    }
    assert forall|p: Seq<char>| #[trigger] out.contains(p) <==> t.contains(p) by {
        assert(absent.contains(p) <==> d.contains(p));
        if c.contains(p) {
            let i = choose|i: int| 0 <= i < c.len() && c[i] == p;
            assert(t[i] == p);
        }
        if d.contains(p) {
            let i = choose|i: int| 0 <= i < d.len() && d[i] == p;
            assert(t[c.len() + i] == p);
        }
        if t.contains(p) {
            let i = choose|i: int| 0 <= i < t.len() && t[i] == p;
            if i < c.len() {
                assert(c[i] == p);
            } else {
                assert(d[i - c.len()] == p);
            }
        }
    }
    assert forall|a: int, b: int| 0 <= a < t.len() && 0 <= b < t.len() && a != b implies t[a]
        != t[b] by {
        if a < c.len() {
            assert(c.contains(t[a]));
            assert(!absent.contains(t[a]));
        } else {
            assert(d.contains(d[a - c.len()]));
            assert(absent.contains(t[a]));
        }
        if b < c.len() {
            assert(c.contains(t[b]));
            assert(!absent.contains(t[b]));
        } else {
            assert(d.contains(d[b - c.len()]));
            assert(absent.contains(t[b]));
        }
        if a < c.len() && b < c.len() {
            assert(c[a] != c[b]);
        } else if a >= c.len() && b >= c.len() {
            assert(d[a - c.len()] != d[b - c.len()]);
        }
    }
}

proof fn lemma_distinct_filter(tree: Seq<Entry>, p: spec_fn(Entry) -> bool)
    requires
        distinct_paths(tree),
    ensures
        distinct_paths(tree.filter(p)),
    decreases tree.len(),
{
    reveal(Seq::filter);
    let ps = tree.map_values(path_of());
    if tree.len() > 0 {
        let t = tree.drop_last();
        assert(distinct_paths(t)) by {
            let qs = t.map_values(path_of());
            assert forall|a: int, b: int| 0 <= a < qs.len() && 0 <= b < qs.len() && a != b implies qs[a]
                != qs[b] by {
                assert(ps[a] != ps[b]);
            }
        }
        lemma_distinct_filter(t, p);
        if p(tree.last()) {
            let r = t.filter(p);
            let rs = r.map_values(path_of());
            let us = tree.filter(p).map_values(path_of());
            assert(us =~= rs.push(tree.last().path));
            assert forall|i: int| 0 <= i < r.len() implies rs[i] != tree.last().path by {
                assert(r.contains(r[i]));
                t.lemma_filter_contains_rev(p, r[i]);
                let j = choose|j: int| 0 <= j < t.len() && t[j] == r[i];
                assert(ps[j] != ps[tree.len() - 1]);
            }
        }
    }
}

/// The totals stay what the files of the last commit count. A file that could
/// not be counted counts nothing.
pub proof fn lemma_totals_conserved(
    s: State,
    tree: Seq<Entry>,
    ts: i64,
    stamp: Seq<char>,
    results: Seq<Blamed>,
)
    requires
        conserved(s),
        distinct_paths(tree),
        are_results(tree.filter(is_stale(s.files)), results),
    ensures
        conserved(after_commit(s, tree, ts, stamp, results)),
{
    let next = after_commit(s, tree, ts, stamp, results);
    let ps = tree.map_values(path_of());
    let kept = is_kept(s.files, tree);
    let old_files = s.files.dom();
    let out = gone(s.files, tree);
    let all = listing(old_files);
    lemma_tree_finite(tree);
    lemma_paths_listed(tree);
    lemma_hists_after(s, tree, ts, stamp, results);
    lemma_listing(old_files);
    assert(out.subset_of(old_files));
    vstd::set_lib::lemma_set_subset_finite(old_files, out);
    assert forall|p: Seq<char>| #[trigger]
        next.hists.contains_key(p) && !next.files.contains_key(p) implies next.hists[p] == Map::<
        Key,
        i64,
    >::empty() by {
        assert forall|i: int| 0 <= i < results.len() implies (#[trigger] results[i]).0 != p by {
            lemma_stale_paths(s.files, tree, results[i].0);
        }
        assert(!kept(p));
        assert(hist_of(next.hists, p) == Map::<Key, i64>::empty());
    }
    assert forall|k: Key| #[trigger] count_of(next.totals, k) == wrap(live_count(next, k)) by {
        let f = file_counts(s.hists, k);
        let g = file_counts(next.hists, k);
        let is_out = |p: Seq<char>| out.contains(p);
        let kept_set = old_files.filter(kept);

        // The files of the last commit are kept or out.
        lemma_sum_plus(all, only(is_out, f), only(kept, f), f);
        lemma_set_part(out, old_files, is_out, f);
        lemma_set_part(kept_set, old_files, kept, f);
        assert(live_count(s, k) == sum_over(out, f) + sum_over(kept_set, f));

        // What is left before counting is what the kept files count.
        lemma_taken_off_once(s.files, tree);
        lemma_sum_over(taken_off(s.files, tree), out, f);
        lemma_count_lowered(s.totals, s.hists, taken_off(s.files, tree), k);
        assert(count_of(s.totals, k) == wrap(live_count(s, k)));
        lemma_wrap_add(live_count(s, k), -sum_over(out, f));
        let left = sum_over(kept_set, f);
        assert(count_of(begun(s, tree).totals, k) == wrap(left));

        // Counting adds what the results count.
        lemma_count_raised(begun(s, tree).totals, results, k);
        lemma_wrap_add(left, sum(results, result_counts(k)));

        // Together they are what the files of this commit count.
        lemma_sum_over(ps, next.files.dom(), g);
        lemma_kept_sum(s, tree, ts, stamp, results, k);
        lemma_counted_sum(s, tree, ts, stamp, results, k);
        let not_kept = |p: Seq<char>| !kept(p);
        lemma_sum_plus(ps, only(kept, g), only(not_kept, g), g);
    }
}

/// A sum over a part of a set, as a sum over all of it.
proof fn lemma_set_part(
    part: Set<Seq<char>>,
    all: Set<Seq<char>>,
    p: spec_fn(Seq<char>) -> bool,
    f: spec_fn(Seq<char>) -> int,
)
    requires
        all.finite(),
        forall|x: Seq<char>| #[trigger] part.contains(x) <==> all.contains(x) && p(x),
    ensures
        sum_over(part, f) == sum(listing(all), only(p, f)),
{
    let q = listing(all);
    lemma_listing(all);
    lemma_lists_filter(q, all, p);
    assert(all.filter(p) =~= part);
    lemma_sum_over(q.filter(p), part, f);
    lemma_sum_filter(q, p, f);
}

/// The kept files of a commit count what they counted before.
proof fn lemma_kept_sum(
    s: State,
    tree: Seq<Entry>,
    ts: i64,
    stamp: Seq<char>,
    results: Seq<Blamed>,
    k: Key,
)
    requires
        conserved(s),
        distinct_paths(tree),
        are_results(tree.filter(is_stale(s.files)), results),
    ensures
        ({
            let next = after_commit(s, tree, ts, stamp, results);
            let kept = is_kept(s.files, tree);
            sum(tree.map_values(path_of()), only(kept, file_counts(next.hists, k))) == sum_over(
                s.files.dom().filter(kept),
                file_counts(s.hists, k),
            )
        }),
{
    let next = after_commit(s, tree, ts, stamp, results);
    let kept = is_kept(s.files, tree);
    let f = file_counts(s.hists, k);
    let g = file_counts(next.hists, k);
    let ps = tree.map_values(path_of());
    lemma_hists_after(s, tree, ts, stamp, results);
    lemma_paths_listed(tree);
    lemma_lists_filter(ps, files_of(tree).dom(), kept);
    assert(files_of(tree).dom().filter(kept) =~= s.files.dom().filter(kept));
    lemma_sum_over(ps.filter(kept), s.files.dom().filter(kept), f);
    lemma_sum_filter(ps, kept, g);
    let kp = ps.filter(kept);
    assert forall|i: int| 0 <= i < kp.len() implies #[trigger] f(kp[i]) == g(kp[i]) by {
        ps.lemma_filter_pred(kept, i);
        assert(kept(kp[i]));
    }
    lemma_sum_equal(kp, f, g);
}

/// The other files of a commit count what the results count.
proof fn lemma_counted_sum(
    s: State,
    tree: Seq<Entry>,
    ts: i64,
    stamp: Seq<char>,
    results: Seq<Blamed>,
    k: Key,
)
    requires
        conserved(s),
        distinct_paths(tree),
        are_results(tree.filter(is_stale(s.files)), results),
    ensures
        ({
            let next = after_commit(s, tree, ts, stamp, results);
            let not_kept = |p: Seq<char>| !is_kept(s.files, tree)(p);
            sum(tree.map_values(path_of()), only(not_kept, file_counts(next.hists, k))) == sum(
                results,
                result_counts(k),
            )
        }),
{
    let next = after_commit(s, tree, ts, stamp, results);
    let kept = is_kept(s.files, tree);
    let not_kept = |p: Seq<char>| !is_kept(s.files, tree)(p);
    let g = file_counts(next.hists, k);
    let ps = tree.map_values(path_of());
    let rp = results.map_values(|r: Blamed| r.0);
    let has_result = |p: Seq<char>| rp.contains(p);
    lemma_hists_after(s, tree, ts, stamp, results);
    lemma_paths_listed(tree);

    // Files without a result count nothing.
    let h = only(has_result, g);
    assert forall|i: int| 0 <= i < ps.len() implies #[trigger] h(ps[i]) == only(not_kept, g)(
        ps[i],
    ) by {
        let p = ps[i];
        if rp.contains(p) {
            let j = choose|j: int| 0 <= j < rp.len() && rp[j] == p;
            assert(results[j].0 == p);
            lemma_stale_paths(s.files, tree, p);
        } else if !kept(p) {
            assert forall|j: int| 0 <= j < results.len() implies (#[trigger] results[j]).0 != p by {
                assert(rp[j] == results[j].0);
            }
            assert(hist_of(next.hists, p) == Map::<Key, i64>::empty());
        }
    }
    lemma_sum_equal(ps, h, only(not_kept, g));

    // The others are those of the results.
    let counted = ps.filter(has_result);
    lemma_sum_filter(ps, has_result, g);
    lemma_filter_distinct(ps, has_result);
    assert forall|a: int, b: int| 0 <= a < rp.len() && 0 <= b < rp.len() && a != b implies rp[a]
        != rp[b] by {
        assert(rp[a] == results[a].0);
        assert(rp[b] == results[b].0);
    }
    assert forall|p: Seq<char>| #[trigger] counted.contains(p) <==> rp.contains(p) by {
        if counted.contains(p) {
            let i = choose|i: int| 0 <= i < counted.len() && counted[i] == p;
            ps.lemma_filter_pred(has_result, i);
        }
        if rp.contains(p) {
            let j = choose|j: int| 0 <= j < rp.len() && rp[j] == p;
            assert(results[j].0 == p);
            lemma_stale_paths(s.files, tree, p);
            assert(files_of(tree).dom().contains(p));
            assert(ps.contains(p));
            let i = choose|i: int| 0 <= i < ps.len() && ps[i] == p;
            ps.lemma_filter_contains(has_result, i);
        }
    }
    lemma_sum_same_items(counted, rp, g);
    assert forall|i: int| 0 <= i < rp.len() implies g(#[trigger] rp[i]) == result_counts(k)(
        results[i],
    ) by {
        assert(hist_of(next.hists, results[i].0) == results[i].1);
    }
    lemma_sum_zip(rp, results, g, result_counts(k));
}

/// A commit has finitely many files.
pub proof fn lemma_tree_finite(tree: Seq<Entry>)
    ensures
        files_of(tree).dom().finite(),
    decreases tree.len(),
{
    if tree.len() > 0 {
        lemma_tree_finite(tree.drop_last());
        let m = files_of(tree.drop_last());
        assert(files_of(tree).dom() =~= m.dom().insert(tree.last().path));
    } else {
        assert(files_of(tree).dom() =~= Set::<Seq<char>>::empty());
    }
}

/// Before the first commit there are no files and no totals.
pub proof fn lemma_initial_conserved(keys: Set<Key>)
    ensures
        conserved(initial(keys)),
{
    let s = initial(keys);
    let none = Seq::<Seq<char>>::empty();
    assert(s.files.dom() =~= Set::<Seq<char>>::empty());
    assert forall|k: Key| #[trigger] count_of(s.totals, k) == wrap(live_count(s, k)) by {
        assert(lists(none, s.files.dom()));
        lemma_sum_over(none, s.files.dom(), file_counts(s.hists, k));
        lemma_wrap_fits(0);
    }
}

/// Totals that are conserved are exact wherever they fit into 64 bits.
pub proof fn lemma_totals_exact(s: State, k: Key)
    requires
        conserved(s),
        i64::MIN <= live_count(s, k) <= i64::MAX,
    ensures
        count_of(s.totals, k) == live_count(s, k),
{
    assert(count_of(s.totals, k) == wrap(live_count(s, k)));
    lemma_wrap_fits(live_count(s, k));
}

/// A commit that changes no file changes no total, and nothing has to be counted.
pub proof fn lemma_idle_commit(s: State, tree: Seq<Entry>)
    requires
        distinct_paths(tree),
        files_of(tree) == s.files,
    ensures
        tree.filter(is_stale(s.files)).len() == 0,
        begun(s, tree).totals == s.totals,
        begun(s, tree).hists == s.hists,
{
    lemma_tree_finite(tree);
    lemma_files_of(tree);
    let stale = tree.filter(is_stale(s.files));
    if stale.len() > 0 {
        tree.lemma_filter_pred(is_stale(s.files), 0);
        assert(stale.contains(stale[0]));
        tree.lemma_filter_contains_rev(is_stale(s.files), stale[0]);
        let i = choose|i: int| 0 <= i < tree.len() && tree[i] == stale[0];
        assert(files_of(tree)[tree[i].path] == tree[i].blob_sha);
    }
    let out = gone(s.files, tree);
    assert forall|p: Seq<char>| !(#[trigger] out.contains(p)) by {
        if any_changes(s.files, tree, p) {
            let i = choose|i: int|
                0 <= i < tree.len() && is_changed(s.files)(#[trigger] tree[i]) && tree[i].path
                    == p;
            assert(files_of(tree)[tree[i].path] == tree[i].blob_sha);
        }
    }
    assert(out =~= Set::<Seq<char>>::empty());
    lemma_taken_off_once(s.files, tree);
    let t = taken_off(s.files, tree);
    if t.len() > 0 {
        assert(t.contains(t[0]));
        assert(out.contains(t[0]));
    }
    assert(t =~= Seq::<Seq<char>>::empty());
    lemma_lowered_none(s.totals, s.hists);
    assert(forgotten(s.hists, out) =~= s.hists);
}

/// Whether each curve has a count for each commit.
pub open spec fn curves_complete(s: State) -> bool {
    &&& forall|k: Key| #[trigger] s.curves.contains_key(k) ==> s.keys.contains(k)
    &&& forall|k: Key| #[trigger]
        s.curves.contains_key(k) ==> s.curves[k].len() == s.stamps.len()
    &&& forall|k: Key| #[trigger]
        s.keys.contains(k) && s.stamps.len() > 0 ==> s.curves.contains_key(k)
}

pub proof fn lemma_initial_curves(keys: Set<Key>)
    ensures
        curves_complete(initial(keys)),
{
}

/// A commit adds to each curve the present total of its key, so that each has a
/// count for each commit. A key that is new was zero at the commits before.
pub proof fn lemma_curves_grow(
    s: State,
    tree: Seq<Entry>,
    ts: i64,
    stamp: Seq<char>,
    results: Seq<Blamed>,
)
    requires
        curves_complete(s),
    ensures
        curves_complete(after_commit(s, tree, ts, stamp, results)),
        forall|k: Key| #[trigger]
            after_commit(s, tree, ts, stamp, results).keys.contains(k) ==> after_commit(
                s,
                tree,
                ts,
                stamp,
                results,
            ).curves[k] == curve_or_zeros(s.curves, k, s.stamps.len()).push(
                count_of(after_commit(s, tree, ts, stamp, results).totals, k) as i64,
            ),
{
}

/// Whether the samples of each history stand in the order of time, none after `t`.
pub open spec fn histories_timely(s: State, t: i64) -> bool {
    forall|sha: Seq<char>, i: int|
        #![trigger s.history[sha][i]]
        s.history.contains_key(sha) && 0 <= i < s.history[sha].len() ==> s.history[sha][i].0 <= t
            && (i > 0 ==> s.history[sha][i - 1].0 <= s.history[sha][i].0)
}

/// If commits come in the order of time, so do the samples of each history.
pub proof fn lemma_histories_timely(
    s: State,
    t: i64,
    tree: Seq<Entry>,
    ts: i64,
    stamp: Seq<char>,
    results: Seq<Blamed>,
)
    requires
        histories_timely(s, t),
        t <= ts,
    ensures
        histories_timely(after_commit(s, tree, ts, stamp, results), ts),
{
    let next = after_commit(s, tree, ts, stamp, results);
    assert forall|sha: Seq<char>, i: int|
        #![trigger next.history[sha][i]]
        next.history.contains_key(sha) && 0 <= i < next.history[sha].len() implies
        next.history[sha][i].0 <= ts && (i > 0 ==> next.history[sha][i - 1].0
        <= next.history[sha][i].0) by {
        let old_samples = series_of(s.history, sha);
        if i < old_samples.len() {
            assert(s.history[sha][i].0 <= t);
            assert(i > 0 ==> s.history[sha][i - 1].0 <= s.history[sha][i].0);
            assert(next.history[sha][i] == s.history[sha][i]);
            if i > 0 {
                assert(next.history[sha][i - 1] == s.history[sha][i - 1]);
            }
        } else if i > 0 {
            assert(s.history[sha][i - 1].0 <= t);
            assert(next.history[sha][i - 1] == s.history[sha][i - 1]);
        }
    }
}

/// The labels that a map counts in a category.
pub open spec fn labels_in(m: Map<Key, i64>, c: Category) -> Set<Seq<char>> {
    Set::new(|l: Seq<char>| m.contains_key((c, l)))
}

/// The counts of a category.
pub open spec fn counts_in(m: Map<Key, i64>, c: Category) -> spec_fn(Seq<char>) -> int {
    |l: Seq<char>| count_of(m, (c, l))
}

/// The sum of the counts of a category.
pub open spec fn total_of(m: Map<Key, i64>, c: Category) -> int {
    sum_over(labels_in(m, c), counts_in(m, c))
}

/// Whether a map counts finitely many labels.
pub open spec fn finite_labels(m: Map<Key, i64>) -> bool {
    forall|c: Category| (#[trigger] labels_in(m, c)).finite()
}

/// Whether the counts of a map add up to the same number in every category but
/// `Sha`.
pub open spec fn balanced(m: Map<Key, i64>) -> bool {
    &&& finite_labels(m)
    &&& forall|c: Category, d: Category|
        c != Category::Sha && d != Category::Sha ==> wrap(#[trigger] total_of(m, c)) == wrap(
            #[trigger] total_of(m, d),
        )
}

/// Merging counts adds up their sums.
proof fn lemma_total_merged(m: Map<Key, i64>, h: Map<Key, i64>, sign: int, c: Category)
    requires
        finite_labels(m),
        finite_labels(h),
    ensures
        labels_in(merged(m, h, sign), c).finite(),
        wrap(total_of(merged(m, h, sign), c)) == wrap(total_of(m, c) + sign * total_of(h, c)),
{
    let r = merged(m, h, sign);
    let all = labels_in(r, c);
    assert(labels_in(m, c).finite());
    assert(labels_in(h, c).finite());
    assert(all =~= labels_in(m, c).union(labels_in(h, c)));
    let q = listing(all);
    lemma_listing(all);
    let fm = counts_in(m, c);
    let fh = counts_in(h, c);
    let fr = counts_in(r, c);
    let scaled = |l: Seq<char>| sign * fh(l);
    let both = |l: Seq<char>| fm(l) + scaled(l);
    lemma_sum_over_part(q, all, labels_in(m, c), |l: Seq<char>| m.contains_key((c, l)), fm);
    lemma_sum_over_part(q, all, labels_in(h, c), |l: Seq<char>| h.contains_key((c, l)), fh);
    lemma_sum_scale(q, fh, scaled, sign);
    lemma_sum_plus(q, fm, scaled, both);
    assert forall|i: int| 0 <= i < q.len() implies wrap(#[trigger] fr(q[i])) == wrap(both(q[i])) by {
        assert(q.contains(q[i]));
        assert(all.contains(q[i]));
        lemma_wrap_fits(r[(c, q[i])] as int);
    }
    lemma_sum_wrap(q, fr, both);
}

proof fn lemma_balanced_merged(m: Map<Key, i64>, h: Map<Key, i64>, sign: int)
    requires
        balanced(m),
        balanced(h),
        sign == 1 || sign == -1,
    ensures
        balanced(merged(m, h, sign)),
{
    let r = merged(m, h, sign);
    assert forall|c: Category| (#[trigger] labels_in(r, c)).finite() by {
        lemma_total_merged(m, h, sign, c);
    }
    assert forall|c: Category, d: Category|
        c != Category::Sha && d != Category::Sha implies wrap(#[trigger] total_of(r, c)) == wrap(
        #[trigger] total_of(r, d),
    ) by {
        lemma_total_merged(m, h, sign, c);
        lemma_total_merged(m, h, sign, d);
        assert(wrap(total_of(m, c)) == wrap(total_of(m, d)));
        assert(wrap(total_of(h, c)) == wrap(total_of(h, d)));
        lemma_wrap_same(total_of(m, c), total_of(m, d), total_of(h, c), total_of(h, d));
    }
}

proof fn lemma_balanced_empty()
    ensures
        balanced(Map::<Key, i64>::empty()),
{
    let m = Map::<Key, i64>::empty();
    let none = Seq::<Seq<char>>::empty();
    assert forall|c: Category| (#[trigger] labels_in(m, c)).finite() by {
        assert(labels_in(m, c) =~= Set::<Seq<char>>::empty());
    }
    assert forall|c: Category, d: Category|
        c != Category::Sha && d != Category::Sha implies wrap(#[trigger] total_of(m, c)) == wrap(
        #[trigger] total_of(m, d),
    ) by {
        assert(lists(none, labels_in(m, c)));
        assert(lists(none, labels_in(m, d)));
        lemma_sum_over(none, labels_in(m, c), counts_in(m, c));
        lemma_sum_over(none, labels_in(m, d), counts_in(m, d));
    }
}

proof fn lemma_balanced_lowered(
    totals: Map<Key, i64>,
    hists: Map<Seq<char>, Map<Key, i64>>,
    paths: Seq<Seq<char>>,
)
    requires
        balanced(totals),
        forall|p: Seq<char>| #[trigger] hists.contains_key(p) ==> balanced(hists[p]),
    ensures
        balanced(lowered(totals, hists, paths)),
    decreases paths.len(),
{
    if paths.len() == 0 {
        lemma_lowered_none(totals, hists);
        assert(paths =~= Seq::empty());
    } else {
        let t = paths.drop_last();
        lemma_balanced_lowered(totals, hists, t);
        lemma_lowered_push(totals, hists, t, paths.last());
        assert(t.push(paths.last()) =~= paths);
        lemma_balanced_empty();
        lemma_balanced_merged(lowered(totals, hists, t), hist_of(hists, paths.last()), -1);
    }
}

proof fn lemma_balanced_raised(totals: Map<Key, i64>, results: Seq<Blamed>)
    requires
        balanced(totals),
        forall|i: int| 0 <= i < results.len() ==> balanced((#[trigger] results[i]).1),
    ensures
        balanced(raised(totals, results)),
    decreases results.len(),
{
    if results.len() == 0 {
        lemma_raised_none(totals);
        assert(results =~= Seq::empty());
    } else {
        let t = results.drop_last();
        assert forall|i: int| 0 <= i < t.len() implies balanced((#[trigger] t[i]).1) by {
            assert(balanced(results[i].1));
        }
        lemma_balanced_raised(totals, t);
        lemma_raised_push(totals, t, results.last());
        assert(t.push(results.last()) =~= results);
        assert(balanced(results[results.len() - 1].1));
        lemma_balanced_merged(raised(totals, t), results.last().1, 1);
    }
}

proof fn lemma_balanced_stored(hists: Map<Seq<char>, Map<Key, i64>>, results: Seq<Blamed>)
    requires
        forall|p: Seq<char>| #[trigger] hists.contains_key(p) ==> balanced(hists[p]),
        forall|i: int| 0 <= i < results.len() ==> balanced((#[trigger] results[i]).1),
    ensures
        forall|p: Seq<char>| #[trigger]
            stored(hists, results).contains_key(p) ==> balanced(stored(hists, results)[p]),
    decreases results.len(),
{
    if results.len() > 0 {
        let t = results.drop_last();
        assert forall|i: int| 0 <= i < t.len() implies balanced((#[trigger] t[i]).1) by {
            assert(balanced(results[i].1));
        }
        lemma_balanced_stored(hists, t);
        assert forall|p: Seq<char>| #[trigger]
            stored(hists, results).contains_key(p) implies balanced(stored(hists, results)[p]) by {
            if p == results.last().0 {
                assert(balanced(results[results.len() - 1].1));
            } else {
                assert(stored(hists, t).contains_key(p));
            }
        }
    }
}

/// Whether the totals and the counts of each file are balanced.
pub open spec fn state_balanced(s: State) -> bool {
    &&& balanced(s.totals)
    &&& forall|p: Seq<char>| #[trigger] s.hists.contains_key(p) ==> balanced(s.hists[p])
}

pub proof fn lemma_initial_balanced(keys: Set<Key>)
    ensures
        state_balanced(initial(keys)),
{
    lemma_balanced_empty();
}

/// The lines of all files, broken down by cohort, author, domain, file type or
/// directory, add up to the same number after every commit.
pub proof fn lemma_totals_balanced(
    s: State,
    tree: Seq<Entry>,
    ts: i64,
    stamp: Seq<char>,
    results: Seq<Blamed>,
)
    requires
        state_balanced(s),
        forall|i: int| 0 <= i < results.len() ==> balanced((#[trigger] results[i]).1),
    ensures
        state_balanced(after_commit(s, tree, ts, stamp, results)),
{
    lemma_balanced_lowered(s.totals, s.hists, taken_off(s.files, tree));
    lemma_balanced_empty();
    lemma_balanced_raised(begun(s, tree).totals, results);
    lemma_balanced_stored(begun(s, tree).hists, results);
}

} // verus!
