//! What holds of a whole analysis: of all commits that it goes through, and of
//! each sample of what it writes.

use vstd::prelude::*;

use crate::blame::{any_from, counts_for, is_histogram, sources, Hunk};
use crate::breakdown::{
    all_drawn, all_lines, drawn_labels, lemma_commit_sound, lemma_drawn_labels_finite,
    lemma_initial_sound, lemma_stored_origin, lemma_total_lines, lemma_total_lines_exact,
    no_negatives, none_negative, sound, well_counted,
};
use crate::conservation::{
    after_commit, are_results, conserved, counts_in, curves_complete, distinct_paths, is_kept,
    labels_in, lemma_curves_grow, lemma_files_of, lemma_hists_after, lemma_initial_conserved,
    lemma_initial_curves, lemma_stored, lemma_totals_conserved, lemma_tree_finite, live_count,
    total_of,
};
use crate::count::{
    lemma_listing, lemma_sum_concat, lemma_sum_equal, lemma_sum_filter, lemma_sum_over_part,
    lemma_sum_same_items, lemma_wrap_fits, listing, only, sum, sum_over, wrap,
};
use crate::curves::{is_dump, CurvesOut};
use crate::git::{CommitMeta, Entry};
use crate::state::{
    any_changes, begun, changed_paths, curve_or_zeros, deleted, file_counts, files_of, gone,
    hist_of, initial, is_changed, is_stale, is_tree_key, raised, result_counts, stored, taken_off,
    tree_keys, Blamed, State,
};
use crate::tally::{count_of, Category, Key, KeyMap};
use crate::text::texts;

verus! {

/// A commit: its files, its time, also as a text, and what was counted.
pub struct Step {
    pub tree: Seq<Entry>,
    pub ts: i64,
    pub stamp: Seq<char>,
    pub results: Seq<Blamed>,
}

/// The state after some commits.
pub open spec fn after_commits(s: State, steps: Seq<Step>) -> State
    decreases steps.len(),
{
    if steps.len() == 0 {
        s
    } else {
        let last = steps.last();
        after_commit(
            after_commits(s, steps.drop_last()),
            last.tree,
            last.ts,
            last.stamp,
            last.results,
        )
    }
}

/// Whether the files of each commit are counted as they have to be.
pub open spec fn all_well_counted(s: State, steps: Seq<Step>) -> bool
    decreases steps.len(),
{
    steps.len() > 0 ==> all_well_counted(s, steps.drop_last()) && well_counted(
        after_commits(s, steps.drop_last()),
        steps.last().tree,
        steps.last().results,
    )
}

/// However many commits an analysis goes through, it accounts for all lines of
/// all files of the last one, and has a time for each.
pub proof fn lemma_run_sound(keys: Set<Key>, steps: Seq<Step>)
    requires
        keys.finite(),
        all_well_counted(initial(keys), steps),
    ensures
        sound(after_commits(initial(keys), steps)),
        after_commits(initial(keys), steps).stamps == steps.map_values(|c: Step| c.stamp),
    decreases steps.len(),
{
    let s = initial(keys);
    let stamps = steps.map_values(|c: Step| c.stamp);
    if steps.len() == 0 {
        lemma_initial_sound(keys);
        assert(after_commits(s, steps).stamps =~= stamps);
    } else {
        let last = steps.last();
        let t = steps.drop_last();
        lemma_run_sound(keys, t);
        lemma_commit_sound(after_commits(s, t), last.tree, last.ts, last.stamp, last.results);
        assert(after_commits(s, steps).stamps =~= stamps);
    }
}

proof fn lemma_steps_before(s: State, steps: Seq<Step>, i: int)
    requires
        all_well_counted(s, steps),
        0 <= i <= steps.len(),
    ensures
        all_well_counted(s, steps.take(i)),
    decreases steps.len(),
{
    if i == steps.len() {
        assert(steps.take(i) =~= steps);
    } else {
        lemma_steps_before(s, steps.drop_last(), i);
        assert(steps.drop_last().take(i) =~= steps.take(i));
    }
}

/// Whether a category is one of those that files have labels in, whatever their
/// lines are.
pub open spec fn is_type(c: Category) -> bool {
    c == Category::Ext || c == Category::Dir
}

/// Whether every file type and directory that is counted has a curve.
pub open spec fn types_drawn(m: Map<Key, i64>, keys: Set<Key>) -> bool {
    forall|k: Key| #[trigger] m.contains_key(k) && is_type(k.0) ==> keys.contains(k)
}

/// Whether `results` is counted by file types and directories that have curves
/// once the files of a commit are known.
pub open spec fn typed_commit(s: State, tree: Seq<Entry>, results: Seq<Blamed>) -> bool {
    forall|i: int|
        0 <= i < results.len() ==> types_drawn(
            (#[trigger] results[i]).1,
            s.keys.union(tree_keys(tree)),
        )
}

/// Whether the results of each commit are counted by file types and directories
/// that have curves.
pub open spec fn all_typed(s: State, steps: Seq<Step>) -> bool
    decreases steps.len(),
{
    steps.len() > 0 ==> all_typed(s, steps.drop_last()) && typed_commit(
        after_commits(s, steps.drop_last()),
        steps.last().tree,
        steps.last().results,
    )
}

/// Whether `results` counts files that are new or have changed, by file types and
/// directories that have curves.
pub open spec fn fits_commit(s: State, tree: Seq<Entry>, results: Seq<Blamed>) -> bool {
    &&& distinct_paths(tree)
    &&& are_results(tree.filter(is_stale(s.files)), results)
    &&& typed_commit(s, tree, results)
}

/// Whether the results of each commit fit it.
pub open spec fn all_fit(s: State, steps: Seq<Step>) -> bool
    decreases steps.len(),
{
    steps.len() > 0 ==> all_fit(s, steps.drop_last()) && fits_commit(
        after_commits(s, steps.drop_last()),
        steps.last().tree,
        steps.last().results,
    )
}

proof fn lemma_fit_typed(s: State, steps: Seq<Step>)
    requires
        all_fit(s, steps),
    ensures
        all_typed(s, steps),
    decreases steps.len(),
{
    if steps.len() > 0 {
        lemma_fit_typed(s, steps.drop_last());
    }
}

proof fn lemma_typed_before(s: State, steps: Seq<Step>, i: int)
    requires
        all_typed(s, steps),
        0 <= i <= steps.len(),
    ensures
        all_typed(s, steps.take(i)),
    decreases steps.len(),
{
    if i == steps.len() {
        assert(steps.take(i) =~= steps);
    } else {
        lemma_typed_before(s, steps.drop_last(), i);
        assert(steps.drop_last().take(i) =~= steps.take(i));
    }
}

proof fn lemma_fit_before(s: State, steps: Seq<Step>, i: int)
    requires
        all_fit(s, steps),
        0 <= i <= steps.len(),
    ensures
        all_fit(s, steps.take(i)),
    decreases steps.len(),
{
    if i == steps.len() {
        assert(steps.take(i) =~= steps);
    } else {
        lemma_fit_before(s, steps.drop_last(), i);
        assert(steps.drop_last().take(i) =~= steps.take(i));
    }
}

/// Files that are counted as they have to be fit their commits.
pub proof fn lemma_well_counted_fits(s: State, steps: Seq<Step>)
    requires
        all_well_counted(s, steps),
    ensures
        all_fit(s, steps),
    decreases steps.len(),
{
    if steps.len() > 0 {
        lemma_well_counted_fits(s, steps.drop_last());
        let before = after_commits(s, steps.drop_last());
        let last = steps.last();
        assert forall|i: int| 0 <= i < last.results.len() implies types_drawn(
            (#[trigger] last.results[i]).1,
            before.keys.union(tree_keys(last.tree)),
        ) by {
            assert(all_drawn(last.results[i].1, before.keys.union(tree_keys(last.tree))));
        }
    }
}

/// The files of the last of some commits.
pub open spec fn last_files(steps: Seq<Step>) -> Map<Seq<char>, Seq<char>> {
    if steps.len() == 0 {
        Map::empty()
    } else {
        files_of(steps.last().tree)
    }
}

/// What holds of an analysis whose results have types with curves: its files are
/// those of the last commit, its curves have a count for each commit, what a file
/// counts has a total, and every file type and directory that is counted a curve.
pub open spec fn in_shape(keys: Set<Key>, steps: Seq<Step>, s: State) -> bool {
    &&& curves_complete(s)
    &&& s.files == last_files(steps)
    &&& s.files.dom().finite()
    &&& s.stamps.len() == steps.len()
    &&& types_drawn(s.totals, s.keys)
    &&& hists_have_totals(s)
    &&& forall|k: Key| #[trigger] s.keys.contains(k) ==> keys.contains(k) || is_type(k.0)
    &&& forall|k: Key| #[trigger] keys.contains(k) ==> s.keys.contains(k)
}

/// Whether what a file counts has a total.
pub open spec fn hists_have_totals(s: State) -> bool {
    forall|p: Seq<char>, k: Key|
        s.hists.contains_key(p) && #[trigger] s.hists[p].contains_key(k) ==> s.totals.contains_key(k)
}

/// Which keys have totals after a commit: those that had one, and those of the
/// results.
proof fn lemma_totals_after(s: State, c: Step)
    requires
        hists_have_totals(s),
    ensures
        ({
            let next = after_commit(s, c.tree, c.ts, c.stamp, c.results);
            &&& hists_have_totals(next)
            &&& forall|k: Key| #[trigger]
                next.totals.contains_key(k) <==> s.totals.contains_key(k) || exists|i: int|
                    0 <= i < c.results.len() && (#[trigger] c.results[i]).1.contains_key(k)
        }),
{
    let mid = begun(s, c.tree);
    let next = after_commit(s, c.tree, c.ts, c.stamp, c.results);
    assert forall|k: Key| #[trigger] mid.totals.contains_key(k) <==> s.totals.contains_key(k) by {
        if mid.totals.contains_key(k) && !s.totals.contains_key(k) {
            let paths = taken_off(s.files, c.tree);
            let i = choose|i: int|
                0 <= i < paths.len() && hist_of(s.hists, #[trigger] paths[i]).contains_key(k);
            assert(s.hists[paths[i]].contains_key(k));
        }
    }
    lemma_stored_origin(mid.hists, c.results);
    assert forall|p: Seq<char>, k: Key|
        next.hists.contains_key(p) && #[trigger] next.hists[p].contains_key(
            k,
        ) implies next.totals.contains_key(k) by {
        if mid.hists.contains_key(p) && next.hists[p] == mid.hists[p] {
            assert(s.hists[p].contains_key(k));
            assert(s.totals.contains_key(k));
            assert(mid.totals.contains_key(k));
        } else {
            let i = choose|i: int|
                0 <= i < c.results.len() && (#[trigger] c.results[i]).1 == next.hists[p];
            assert(c.results[i].1.contains_key(k));
        }
    }
}

/// An analysis is in shape after any number of commits.
pub proof fn lemma_run_in_shape(keys: Set<Key>, steps: Seq<Step>)
    requires
        all_typed(initial(keys), steps),
    ensures
        in_shape(keys, steps, after_commits(initial(keys), steps)),
    decreases steps.len(),
{
    if steps.len() == 0 {
        lemma_initial_curves(keys);
        assert(last_files(steps).dom() =~= Set::<Seq<char>>::empty());
    } else {
        let t = steps.drop_last();
        let s = after_commits(initial(keys), t);
        let c = steps.last();
        let next = after_commits(initial(keys), steps);
        lemma_run_in_shape(keys, t);
        lemma_tree_finite(c.tree);
        lemma_curves_grow(s, c.tree, c.ts, c.stamp, c.results);
        lemma_totals_after(s, c);
        assert(next.keys == s.keys.union(tree_keys(c.tree)));
        assert forall|k: Key| #[trigger]
            next.totals.contains_key(k) && is_type(k.0) implies next.keys.contains(k) by {
            if s.totals.contains_key(k) {
                assert(s.keys.contains(k));
            } else {
                let i = choose|i: int|
                    0 <= i < c.results.len() && (#[trigger] c.results[i]).1.contains_key(k);
                assert(types_drawn(c.results[i].1, next.keys));
            }
        }
        assert forall|k: Key| #[trigger] next.keys.contains(k) implies keys.contains(k) || is_type(
            k.0,
        ) by {
            if !s.keys.contains(k) {
                let i = choose|i: int|
                    0 <= i < c.tree.len() && is_tree_key(#[trigger] c.tree[i], k);
            }
        }
    }
}

/// After any number of commits that its results fit, the totals of an analysis
/// are what the files of the last commit count.
pub proof fn lemma_run_conserved(keys: Set<Key>, steps: Seq<Step>)
    requires
        all_fit(initial(keys), steps),
    ensures
        conserved(after_commits(initial(keys), steps)),
        in_shape(keys, steps, after_commits(initial(keys), steps)),
    decreases steps.len(),
{
    lemma_fit_typed(initial(keys), steps);
    lemma_run_in_shape(keys, steps);
    if steps.len() == 0 {
        lemma_initial_conserved(keys);
    } else {
        let c = steps.last();
        lemma_run_conserved(keys, steps.drop_last());
        lemma_totals_conserved(
            after_commits(initial(keys), steps.drop_last()),
            c.tree,
            c.ts,
            c.stamp,
            c.results,
        );
    }
}

/// A key that has a curve keeps it.
proof fn lemma_keys_stay(s: State, steps: Seq<Step>, i: int, k: Key)
    requires
        0 <= i <= steps.len(),
        after_commits(s, steps.take(i)).keys.contains(k),
    ensures
        after_commits(s, steps).keys.contains(k),
    decreases steps.len(),
{
    if i == steps.len() {
        assert(steps.take(i) =~= steps);
    } else {
        assert(steps.drop_last().take(i) =~= steps.take(i));
        lemma_keys_stay(s, steps.drop_last(), i, k);
    }
}

/// Each curve has a count for each commit: the total of its key after it.
pub proof fn lemma_curves_are_totals(keys: Set<Key>, steps: Seq<Step>, k: Key, i: int)
    requires
        all_typed(initial(keys), steps),
        after_commits(initial(keys), steps).keys.contains(k),
        0 <= i < steps.len(),
    ensures
        after_commits(initial(keys), steps).curves[k].len() == steps.len(),
        after_commits(initial(keys), steps).curves[k][i] == count_of(
            after_commits(initial(keys), steps.take(i + 1)).totals,
            k,
        ),
    decreases steps.len(),
{
    let s0 = initial(keys);
    let t = steps.drop_last();
    let c = steps.last();
    let s = after_commits(s0, t);
    let next = after_commits(s0, steps);
    lemma_run_in_shape(keys, steps);
    lemma_run_in_shape(keys, t);
    lemma_curves_grow(s, c.tree, c.ts, c.stamp, c.results);
    if i == steps.len() - 1 {
        assert(steps.take(i + 1) =~= steps);
    } else {
        assert(t.take(i + 1) =~= steps.take(i + 1));
        if s.keys.contains(k) {
            lemma_curves_are_totals(keys, t, k, i);
            assert(s.curves.contains_key(k));
        } else {
            let then = after_commits(s0, steps.take(i + 1));
            lemma_typed_before(s0, steps, i + 1);
            lemma_run_in_shape(keys, steps.take(i + 1));
            assert(!s.curves.contains_key(k));
            assert(!keys.contains(k));
            assert(is_type(k.0));
            if then.keys.contains(k) {
                lemma_keys_stay(s0, t, i + 1, k);
            }
            assert(!then.totals.contains_key(k));
        }
    }
}

/// What `results` counts of the file at `p`; nothing if it has no result.
pub open spec fn result_for(results: Seq<Blamed>, p: Seq<char>) -> Map<Key, i64> {
    if exists|i: int| 0 <= i < results.len() && (#[trigger] results[i]).0 == p {
        let i = choose|i: int| 0 <= i < results.len() && (#[trigger] results[i]).0 == p;
        results[i].1
    } else {
        Map::empty()
    }
}

/// The latest counts of the file at `p`: those of the last commit at which it was
/// new or its content was another one than at the commit before.
pub open spec fn latest_counts(steps: Seq<Step>, p: Seq<char>) -> Map<Key, i64>
    decreases steps.len(),
{
    if steps.len() == 0 {
        Map::empty()
    } else {
        let before = last_files(steps.drop_last());
        let now = last_files(steps);
        if before.contains_key(p) && now.contains_key(p) && before[p] == now[p] {
            latest_counts(steps.drop_last(), p)
        } else {
            result_for(steps.last().results, p)
        }
    }
}

/// A file is kept if it is there with the same content.
proof fn lemma_kept_is_same(files: Map<Seq<char>, Seq<char>>, tree: Seq<Entry>, p: Seq<char>)
    requires
        distinct_paths(tree),
    ensures
        is_kept(files, tree)(p) <==> files.contains_key(p) && files_of(tree).contains_key(p)
            && files[p] == files_of(tree)[p],
{
    lemma_files_of(tree);
    if files.contains_key(p) && files_of(tree).contains_key(p) {
        let j = choose|j: int|
            0 <= j < tree.len() && (#[trigger] tree[j]).path == p && files_of(tree)[p]
                == tree[j].blob_sha;
        if files[p] != files_of(tree)[p] {
            assert(is_changed(files)(tree[j]));
            assert(any_changes(files, tree, p));
        }
        if any_changes(files, tree, p) {
            let m = choose|m: int|
                0 <= m < tree.len() && is_changed(files)(#[trigger] tree[m]) && tree[m].path == p;
            assert(files_of(tree)[tree[m].path] == tree[m].blob_sha);
        }
    }
}

/// What an analysis knows of a file are its latest counts.
pub proof fn lemma_counts_are_latest(keys: Set<Key>, steps: Seq<Step>, p: Seq<char>)
    requires
        all_fit(initial(keys), steps),
    ensures
        hist_of(after_commits(initial(keys), steps).hists, p) == latest_counts(steps, p),
    decreases steps.len(),
{
    if steps.len() > 0 {
        let t = steps.drop_last();
        let c = steps.last();
        let s = after_commits(initial(keys), t);
        lemma_counts_are_latest(keys, t, p);
        lemma_run_conserved(keys, t);
        lemma_hists_after(s, c.tree, c.ts, c.stamp, c.results);
        lemma_kept_is_same(s.files, c.tree, p);
        let kept = is_kept(s.files, c.tree);
        if !kept(p) {
            if exists|i: int| 0 <= i < c.results.len() && (#[trigger] c.results[i]).0 == p {
                let i = choose|i: int| 0 <= i < c.results.len() && (#[trigger] c.results[i]).0 == p;
                assert(hist_of(after_commits(initial(keys), steps).hists, c.results[i].0)
                    == c.results[i].1);
            }
        }
    }
}

/// What the files of the last of some commits count for a key, each by its latest
/// counts.
pub open spec fn latest_total(steps: Seq<Step>, k: Key) -> int {
    sum_over(last_files(steps).dom(), |p: Seq<char>| count_of(latest_counts(steps, p), k))
}

/// The totals of an analysis are what the latest counts of its files add up to.
pub proof fn lemma_totals_are_latest(keys: Set<Key>, steps: Seq<Step>, k: Key)
    requires
        all_fit(initial(keys), steps),
    ensures
        count_of(after_commits(initial(keys), steps).totals, k) == wrap(latest_total(steps, k)),
        i64::MIN <= latest_total(steps, k) <= i64::MAX ==> count_of(
            after_commits(initial(keys), steps).totals,
            k,
        ) == latest_total(steps, k),
{
    let s = after_commits(initial(keys), steps);
    lemma_run_conserved(keys, steps);
    assert(count_of(s.totals, k) == wrap(live_count(s, k)));
    let f = file_counts(s.hists, k);
    let g = |p: Seq<char>| count_of(latest_counts(steps, p), k);
    let ps = listing(s.files.dom());
    assert forall|j: int| 0 <= j < ps.len() implies #[trigger] f(ps[j]) == g(ps[j]) by {
        lemma_counts_are_latest(keys, steps, ps[j]);
    }
    lemma_sum_equal(ps, f, g);
    if i64::MIN <= latest_total(steps, k) <= i64::MAX {
        lemma_wrap_fits(latest_total(steps, k));
    }
}

/// Each number that is written for a label and a sample is the sum, over the
/// files of that commit, of what their latest counts are for the label. It is
/// exact wherever it fits into 64 bits. Files that could not be counted count
/// nothing.
pub proof fn lemma_written_counts(
    keys: Set<Key>,
    steps: Seq<Step>,
    out: CurvesOut,
    c: Category,
    row: int,
    i: int,
)
    requires
        all_fit(initial(keys), steps),
        ({
            let s = after_commits(initial(keys), steps);
            is_dump(out, c, s.keys, s.curves, s.stamps)
        }),
        0 <= row < out.labels@.len(),
        0 <= i < steps.len(),
    ensures
        out.y@[row]@.len() == steps.len(),
        ({
            let total = latest_total(steps.take(i + 1), (c, out.labels@[row]@));
            &&& out.y@[row]@[i] == wrap(total)
            &&& i64::MIN <= total <= i64::MAX ==> out.y@[row]@[i] == total
        }),
{
    let s0 = initial(keys);
    let s = after_commits(s0, steps);
    let k = (c, out.labels@[row]@);
    let sofar = steps.take(i + 1);
    let labels = texts(out.labels@);
    assert(labels[row] == out.labels@[row]@);
    assert(labels.contains(out.labels@[row]@));
    assert(s.keys.contains(k));
    lemma_run_conserved(keys, steps);
    lemma_fit_typed(s0, steps);
    assert(s.curves.contains_key(k));
    lemma_curves_are_totals(keys, steps, k, i);
    lemma_fit_before(s0, steps, i + 1);
    lemma_totals_are_latest(keys, sofar, k);
}

/// The sum of the counts of all curves of a category at a sample.
pub open spec fn column(s: State, c: Category, i: int) -> int {
    sum_over(drawn_labels(s, c), |l: Seq<char>| s.curves[(c, l)][i] as int)
}

/// At each sample the curves of any category but that of commits add up to the
/// lines of all files of that commit. The sum is exact, and not negative, if no
/// count of a file is negative and the lines of all files fit into 64 bits.
pub proof fn lemma_columns_are_lines(keys: Set<Key>, steps: Seq<Step>, i: int, c: Category)
    requires
        keys.finite(),
        all_well_counted(initial(keys), steps),
        0 <= i < steps.len(),
        c != Category::Sha,
    ensures
        ({
            let s = after_commits(initial(keys), steps);
            let then = after_commits(initial(keys), steps.take(i + 1));
            &&& wrap(column(s, c, i)) == wrap(all_lines(then, c))
            &&& none_negative(then) && all_lines(then, c) <= i64::MAX ==> 0 <= column(s, c, i)
                == all_lines(then, c)
        }),
{
    let s0 = initial(keys);
    let s = after_commits(s0, steps);
    let sofar = steps.take(i + 1);
    let then = after_commits(s0, sofar);
    lemma_steps_before(s0, steps, i + 1);
    lemma_run_sound(keys, sofar);
    lemma_run_sound(keys, steps);
    lemma_well_counted_fits(s0, steps);
    lemma_fit_typed(s0, steps);
    let drawn = drawn_labels(s, c);
    let q = listing(drawn);
    lemma_drawn_labels_finite(s, c);
    lemma_listing(drawn);
    let totals = counts_in(then.totals, c);
    let entries = |l: Seq<char>| s.curves[(c, l)][i] as int;
    assert forall|j: int| 0 <= j < q.len() implies #[trigger] entries(q[j]) == totals(q[j]) by {
        assert(q.contains(q[j]));
        assert(drawn.contains(q[j]));
        lemma_curves_are_totals(keys, steps, (c, q[j]), i);
    }
    lemma_sum_equal(q, entries, totals);
    let counted = |l: Seq<char>| then.totals.contains_key((c, l));
    assert forall|l: Seq<char>| #[trigger] labels_in(then.totals, c).contains(l) <==> drawn.contains(
        l,
    ) && counted(l) by {
        if then.totals.contains_key((c, l)) {
            assert(then.keys.contains((c, l)));
            lemma_keys_stay(s0, steps, i + 1, (c, l));
        }
    }
    lemma_sum_over_part(q, drawn, labels_in(then.totals, c), counted, totals);
    lemma_total_lines(then, c);
    if none_negative(then) && all_lines(then, c) <= i64::MAX {
        lemma_total_lines_exact(then, c);
    }
}

/// At each sample the curves of any two categories but that of commits add up to
/// the same number, which is not negative: they break down the same lines. This
/// is exact if no count of a file is negative and the lines of all files fit into
/// 64 bits.
pub proof fn lemma_columns_agree(
    keys: Set<Key>,
    steps: Seq<Step>,
    i: int,
    c: Category,
    d: Category,
)
    requires
        keys.finite(),
        all_well_counted(initial(keys), steps),
        0 <= i < steps.len(),
        c != Category::Sha,
        d != Category::Sha,
    ensures
        ({
            let s = after_commits(initial(keys), steps);
            let then = after_commits(initial(keys), steps.take(i + 1));
            &&& wrap(column(s, c, i)) == wrap(column(s, d, i))
            &&& none_negative(then) && all_lines(then, c) <= i64::MAX && all_lines(then, d)
                <= i64::MAX ==> 0 <= column(s, c, i) == column(s, d, i)
        }),
{
    let s = after_commits(initial(keys), steps);
    let sofar = steps.take(i + 1);
    let then = after_commits(initial(keys), sofar);
    lemma_columns_are_lines(keys, steps, i, c);
    lemma_columns_are_lines(keys, steps, i, d);
    lemma_steps_before(initial(keys), steps, i + 1);
    lemma_run_sound(keys, sofar);
    lemma_total_lines(then, c);
    lemma_total_lines(then, d);
    assert(wrap(total_of(then.totals, c)) == wrap(total_of(then.totals, d)));
    if none_negative(then) && all_lines(then, c) <= i64::MAX && all_lines(then, d) <= i64::MAX {
        lemma_wrap_fits(column(s, c, i));
        lemma_wrap_fits(column(s, d, i));
    }
}

/// The entries of a commit without those of a path.
pub open spec fn tree_without(tree: Seq<Entry>, p: Seq<char>) -> Seq<Entry> {
    tree.filter(|e: Entry| e.path != p)
}

/// Commits without the file at a path.
pub open spec fn steps_without(steps: Seq<Step>, p: Seq<char>) -> Seq<Step> {
    steps.map_values(|c: Step| Step { tree: tree_without(c.tree, p), ..c })
}

/// Whether two states differ at most in a file that counts nothing, and in keys
/// whose curves are flat.
pub open spec fn same_counts(s: State, t: State, p: Seq<char>) -> bool {
    &&& s.totals == t.totals
    &&& s.history == t.history
    &&& s.stamps == t.stamps
    &&& forall|q: Seq<char>|
        q != p ==> #[trigger] hist_of(s.hists, q) == hist_of(t.hists, q)
    &&& hist_of(s.hists, p) == Map::<Key, i64>::empty()
    &&& t.keys.subset_of(s.keys)
    &&& forall|k: Key| #[trigger]
        curve_or_zeros(s.curves, k, s.stamps.len()) == curve_or_zeros(
            t.curves,
            k,
            t.stamps.len(),
        )
}

proof fn lemma_entries_without(tree: Seq<Entry>, p: Seq<char>)
    ensures
        forall|i: int|
            0 <= i < tree.len() && (#[trigger] tree[i]).path != p ==> tree_without(tree, p).contains(
                tree[i],
            ),
        forall|e: Entry| #[trigger]
            tree_without(tree, p).contains(e) ==> e.path != p && tree.contains(e),
        files_of(tree_without(tree, p)) == files_of(tree).remove(p),
    decreases tree.len(),
{
    let keep = |e: Entry| e.path != p;
    let u = tree_without(tree, p);
    assert forall|i: int| 0 <= i < tree.len() && (#[trigger] tree[i]).path != p implies u.contains(
        tree[i],
    ) by {
        tree.lemma_filter_contains(keep, i);
    }
    assert forall|e: Entry| #[trigger] u.contains(e) implies e.path != p && tree.contains(e) by {
        let j = choose|j: int| 0 <= j < u.len() && u[j] == e;
        tree.lemma_filter_pred(keep, j);
        tree.lemma_filter_contains_rev(keep, e);
    }
    reveal(Seq::filter);
    if tree.len() == 0 {
        assert(files_of(u) =~= files_of(tree).remove(p));
    } else {
        let t = tree.drop_last();
        let e = tree.last();
        lemma_entries_without(t, p);
        if keep(e) {
            assert(u =~= tree_without(t, p).push(e));
            assert(u.drop_last() =~= tree_without(t, p));
        } else {
            assert(u =~= tree_without(t, p));
        }
        assert(files_of(u) =~= files_of(tree).remove(p));
    }
}

/// Another path is out with or without the file at `p`.
proof fn lemma_gone_without(
    files: Map<Seq<char>, Seq<char>>,
    tree: Seq<Entry>,
    p: Seq<char>,
    q: Seq<char>,
)
    requires
        q != p,
    ensures
        gone(files, tree).contains(q) <==> gone(files.remove(p), tree_without(tree, p)).contains(q),
{
    let u = tree_without(tree, p);
    let rest = files.remove(p);
    lemma_entries_without(tree, p);
    if any_changes(files, tree, q) {
        let i = choose|i: int|
            0 <= i < tree.len() && is_changed(files)(#[trigger] tree[i]) && tree[i].path == q;
        assert(u.contains(tree[i]));
        let j = choose|j: int| 0 <= j < u.len() && u[j] == tree[i];
        assert(is_changed(rest)(u[j]));
    }
    if any_changes(rest, u, q) {
        let j = choose|j: int|
            0 <= j < u.len() && is_changed(rest)(#[trigger] u[j]) && u[j].path == q;
        assert(u.contains(u[j]));
        assert(tree.contains(u[j]));
        let i = choose|i: int| 0 <= i < tree.len() && tree[i] == u[j];
        assert(is_changed(files)(tree[i]));
    }
}

/// Without the file at `p`, its path is not among those that changed.
proof fn lemma_changed_without(
    files: Map<Seq<char>, Seq<char>>,
    tree: Seq<Entry>,
    p: Seq<char>,
)
    ensures
        changed_paths(files.remove(p), tree_without(tree, p)) == changed_paths(files, tree).filter(
            |q: Seq<char>| q != p,
        ),
    decreases tree.len(),
{
    reveal(Seq::filter);
    let other = |q: Seq<char>| q != p;
    let keep = |e: Entry| e.path != p;
    let rest = files.remove(p);
    let u = tree_without(tree, p);
    let c = changed_paths(files, tree);
    let d = changed_paths(rest, u);
    if tree.len() == 0 {
        assert(c =~= Seq::<Seq<char>>::empty());
        assert(d =~= c.filter(other));
    } else {
        let t = tree.drop_last();
        let e = tree.last();
        let c0 = changed_paths(files, t);
        let u0 = tree_without(t, p);
        let d0 = changed_paths(rest, u0);
        lemma_changed_without(files, t, p);
        assert(tree =~= t.push(e));
        t.lemma_filter_push(e, is_changed(files));
        t.lemma_filter_push(e, keep);
        u0.lemma_filter_push(e, is_changed(rest));
        if is_changed(files)(e) {
            assert(c =~= c0.push(e.path));
            c0.lemma_filter_push(e.path, other);
        } else {
            assert(c =~= c0);
        }
        if keep(e) {
            assert(u =~= u0.push(e));
            assert(is_changed(rest)(e) == is_changed(files)(e));
            if is_changed(rest)(e) {
                assert(d =~= d0.push(e.path));
            } else {
                assert(d =~= d0);
            }
        } else {
            assert(u =~= u0);
        }
        assert(d =~= c.filter(other));
    }
}

/// Which paths are taken off, and what they count, without a file that counts
/// nothing.
proof fn lemma_taken_off_without(s: State, t: State, tree: Seq<Entry>, p: Seq<char>, k: Key)
    requires
        same_counts(s, t, p),
        s.files.dom().finite(),
        t.files == s.files.remove(p),
    ensures
        sum(taken_off(s.files, tree), file_counts(s.hists, k)) == sum(
            taken_off(t.files, tree_without(tree, p)),
            file_counts(t.hists, k),
        ),
        forall|q: Seq<char>|
            q != p ==> (#[trigger] taken_off(s.files, tree).contains(q) <==> taken_off(
                t.files,
                tree_without(tree, p),
            ).contains(q)),
{
    let u = tree_without(tree, p);
    let f = file_counts(s.hists, k);
    let g = file_counts(t.hists, k);
    let other = |q: Seq<char>| q != p;
    let c = changed_paths(s.files, tree);
    let d = deleted(s.files, tree);
    let cu = changed_paths(t.files, u);
    let du = deleted(t.files, u);
    let x = listing(d);
    let y = listing(du);
    lemma_entries_without(tree, p);
    lemma_changed_without(s.files, tree, p);
    assert(d.subset_of(s.files.dom()));
    vstd::set_lib::lemma_set_subset_finite(s.files.dom(), d);
    assert forall|q: Seq<char>| #[trigger] du.contains(q) <==> d.contains(q) && other(q) by {}
    assert(du.subset_of(d));
    vstd::set_lib::lemma_set_subset_finite(d, du);
    lemma_listing(d);
    lemma_listing(du);

    // What changed.
    lemma_sum_filter(c, other, f);
    let fo = only(other, f);
    assert forall|i: int| 0 <= i < c.len() implies #[trigger] fo(c[i]) == f(c[i]) by {}
    lemma_sum_equal(c, fo, f);
    assert forall|i: int| 0 <= i < cu.len() implies #[trigger] f(cu[i]) == g(cu[i]) by {
        c.lemma_filter_pred(other, i);
        assert(hist_of(s.hists, cu[i]) == hist_of(t.hists, cu[i]));
    }
    lemma_sum_equal(cu, f, g);

    // What is no longer there.
    lemma_sum_over_part(x, d, du, other, f);
    assert forall|i: int| 0 <= i < y.len() implies #[trigger] f(y[i]) == g(y[i]) by {
        assert(y.contains(y[i]));
        assert(du.contains(y[i]));
        assert(hist_of(s.hists, y[i]) == hist_of(t.hists, y[i]));
    }
    lemma_sum_equal(y, f, g);
    lemma_sum_concat(c, x, f);
    lemma_sum_concat(cu, y, g);

    let ts = taken_off(s.files, tree);
    let tt = taken_off(t.files, u);
    assert forall|q: Seq<char>| q != p implies (#[trigger] ts.contains(q) <==> tt.contains(q)) by {
        lemma_contains_concat(c, x, q);
        lemma_contains_concat(cu, y, q);
        assert(d.contains(q) <==> x.contains(q));
        assert(du.contains(q) <==> y.contains(q));
        if c.contains(q) {
            let i = choose|i: int| 0 <= i < c.len() && c[i] == q;
            c.lemma_filter_contains(other, i);
        }
        if cu.contains(q) {
            c.lemma_filter_contains_rev(other, q);
        }
    }
}

proof fn lemma_contains_concat(a: Seq<Seq<char>>, b: Seq<Seq<char>>, q: Seq<char>)
    ensures
        (a + b).contains(q) <==> a.contains(q) || b.contains(q),
{
    let t = a + b;
    if a.contains(q) {
        let i = choose|i: int| 0 <= i < a.len() && a[i] == q;
        assert(t[i] == q);
    }
    if b.contains(q) {
        let i = choose|i: int| 0 <= i < b.len() && b[i] == q;
        assert(t[a.len() + i] == q);
    }
    if t.contains(q) {
        let i = choose|i: int| 0 <= i < t.len() && t[i] == q;
        if i < a.len() {
            assert(a[i] == q);
        } else {
            assert(b[i - a.len()] == q);
        }
    }
}

/// Taking off a file that counts nothing changes nothing.
proof fn lemma_lowered_without(s: State, t: State, tree: Seq<Entry>, p: Seq<char>)
    requires
        same_counts(s, t, p),
        s.files.dom().finite(),
        t.files == s.files.remove(p),
    ensures
        begun(s, tree).totals == begun(t, tree_without(tree, p)).totals,
{
    let u = tree_without(tree, p);
    let a = taken_off(s.files, tree);
    let b = taken_off(t.files, u);
    let x = begun(s, tree).totals;
    let y = begun(t, u).totals;
    assert forall|k: Key| #[trigger] x.contains_key(k) <==> y.contains_key(k) by {
        lemma_taken_off_without(s, t, tree, p, k);
        if x.contains_key(k) && !s.totals.contains_key(k) {
            let i = choose|i: int|
                0 <= i < a.len() && hist_of(s.hists, #[trigger] a[i]).contains_key(k);
            assert(a[i] != p);
            assert(a.contains(a[i]));
            assert(b.contains(a[i]));
            let j = choose|j: int| 0 <= j < b.len() && b[j] == a[i];
            assert(hist_of(s.hists, a[i]) == hist_of(t.hists, b[j]));
        }
        if y.contains_key(k) && !t.totals.contains_key(k) {
            let j = choose|j: int|
                0 <= j < b.len() && hist_of(t.hists, #[trigger] b[j]).contains_key(k);
            assert(b.contains(b[j]));
            lemma_never_taken_off(t.files, tree, p);
            assert(b[j] != p);
            assert(a.contains(b[j]));
            let i = choose|i: int| 0 <= i < a.len() && a[i] == b[j];
            assert(hist_of(s.hists, a[i]) == hist_of(t.hists, b[j]));
        }
    }
    assert forall|k: Key| #[trigger] x.contains_key(k) implies x[k] == y[k] by {
        assert(y.contains_key(k));
        lemma_taken_off_without(s, t, tree, p, k);
    }
    assert(x =~= y);
}

proof fn lemma_never_taken_off(
    files: Map<Seq<char>, Seq<char>>,
    tree: Seq<Entry>,
    p: Seq<char>,
)
    requires
        files.dom().finite(),
        !files.contains_key(p),
    ensures
        !taken_off(files, tree_without(tree, p)).contains(p),
{
    let u = tree_without(tree, p);
    let c = changed_paths(files, u);
    let d = deleted(files, u);
    assert(d.subset_of(files.dom()));
    vstd::set_lib::lemma_set_subset_finite(files.dom(), d);
    lemma_listing(d);
    lemma_contains_concat(c, listing(d), p);
    assert(d.contains(p) <==> listing(d).contains(p));
    if c.contains(p) {
        let changed = u.filter(is_changed(files));
        let i = choose|i: int| 0 <= i < c.len() && c[i] == p;
        u.lemma_filter_pred(is_changed(files), i);
        assert(changed[i].path == p);
    }
}

/// A file that is never counted contributes nothing: all counts, histories and
/// curves are those of the same commits without it. Only flat curves, of its file
/// type and directory, may come in addition.
pub proof fn lemma_uncounted_file(keys: Set<Key>, steps: Seq<Step>, p: Seq<char>)
    requires
        all_typed(initial(keys), steps_without(steps, p)),
        forall|i: int, j: int|
            0 <= i < steps.len() && 0 <= j < steps[i].results.len() ==> (
            #[trigger] steps[i].results[j]).0 != p,
    ensures
        same_counts(
            after_commits(initial(keys), steps),
            after_commits(initial(keys), steps_without(steps, p)),
            p,
        ),
    decreases steps.len(),
{
    let s0 = initial(keys);
    let fewer = steps_without(steps, p);
    if steps.len() > 0 {
        let c = steps.last();
        let u = tree_without(c.tree, p);
        let before = steps.drop_last();
        assert(fewer.drop_last() =~= steps_without(before, p));
        assert(fewer.last() == Step { tree: u, ..c });
        assert forall|i: int, j: int|
            0 <= i < before.len() && 0 <= j < before[i].results.len() implies (
        #[trigger] before[i].results[j]).0 != p by {
            assert(steps[i].results[j].0 != p);
        }
        lemma_uncounted_file(keys, before, p);
        let s = after_commits(s0, before);
        let t = after_commits(s0, fewer.drop_last());
        let next_s = after_commits(s0, steps);
        let next_t = after_commits(s0, fewer);
        lemma_run_files(keys, before);
        lemma_run_in_shape(keys, fewer.drop_last());
        lemma_run_in_shape(keys, fewer);
        if before.len() > 0 {
            assert(fewer.drop_last().last().tree == tree_without(before.last().tree, p));
            lemma_entries_without(before.last().tree, p);
        }
        assert(t.files =~= s.files.remove(p));
        lemma_entries_without(c.tree, p);
        lemma_lowered_without(s, t, c.tree, p);
        assert forall|j: int| 0 <= j < c.results.len() implies (#[trigger] c.results[j]).0 != p by {
            assert(steps[steps.len() - 1].results[j].0 != p);
        }
        lemma_hists_without(s, t, c.tree, c.results, p);
        assert(tree_keys(u).subset_of(tree_keys(c.tree))) by {
            assert forall|k: Key| #[trigger] tree_keys(u).contains(k) implies tree_keys(
                c.tree,
            ).contains(k) by {
                let j = choose|j: int| 0 <= j < u.len() && is_tree_key(#[trigger] u[j], k);
                assert(u.contains(u[j]));
                let i = choose|i: int| 0 <= i < c.tree.len() && c.tree[i] == u[j];
                assert(is_tree_key(c.tree[i], k));
            }
        }
        lemma_run_keys(keys, steps);
        let n = s.stamps.len();
        assert forall|k: Key| #[trigger]
            curve_or_zeros(next_s.curves, k, next_s.stamps.len()) == curve_or_zeros(
                next_t.curves,
                k,
                next_t.stamps.len(),
            ) by {
            assert(curve_or_zeros(s.curves, k, n) == curve_or_zeros(t.curves, k, n));
            if next_t.keys.contains(k) {
                assert(next_s.keys.contains(k));
            } else if next_s.keys.contains(k) {
                assert(!keys.contains(k));
                assert(is_type(k.0));
                assert(!next_t.totals.contains_key(k));
                assert(!t.keys.contains(k));
                assert(!t.curves.contains_key(k));
                assert(curve_or_zeros(next_s.curves, k, n + 1) =~= curve_or_zeros(
                    next_t.curves,
                    k,
                    n + 1,
                ));
            } else {
                lemma_run_keys(keys, before);
                assert(!s.curves.contains_key(k));
                assert(!t.curves.contains_key(k));
            }
        }
    } else {
        assert(fewer =~= Seq::<Step>::empty());
    }
}

/// The files of an analysis are those of the last commit.
proof fn lemma_run_files(keys: Set<Key>, steps: Seq<Step>)
    ensures
        after_commits(initial(keys), steps).files == last_files(steps),
        after_commits(initial(keys), steps).files.dom().finite(),
{
    if steps.len() > 0 {
        lemma_tree_finite(steps.last().tree);
    } else {
        assert(last_files(steps).dom() =~= Set::<Seq<char>>::empty());
    }
}

/// The keys of an analysis are those that it starts with, file types and
/// directories, and only keys have curves.
proof fn lemma_run_keys(keys: Set<Key>, steps: Seq<Step>)
    ensures
        ({
            let s = after_commits(initial(keys), steps);
            &&& forall|k: Key| #[trigger] s.keys.contains(k) ==> keys.contains(k) || is_type(k.0)
            &&& forall|k: Key| #[trigger] keys.contains(k) ==> s.keys.contains(k)
            &&& forall|k: Key| #[trigger] s.curves.contains_key(k) ==> s.keys.contains(k)
        }),
    decreases steps.len(),
{
    if steps.len() > 0 {
        lemma_run_keys(keys, steps.drop_last());
        let before = after_commits(initial(keys), steps.drop_last());
        let s = after_commits(initial(keys), steps);
        let tree = steps.last().tree;
        assert(s.keys == before.keys.union(tree_keys(tree)));
        assert forall|k: Key| #[trigger] s.keys.contains(k) implies keys.contains(k) || is_type(
            k.0,
        ) by {
            if !before.keys.contains(k) {
                let i = choose|i: int| 0 <= i < tree.len() && is_tree_key(#[trigger] tree[i], k);
            }
        }
        assert forall|k: Key| #[trigger] keys.contains(k) implies s.keys.contains(k) by {
            assert(before.keys.contains(k));
        }
        assert forall|k: Key| #[trigger] s.curves.contains_key(k) implies s.keys.contains(k) by {
            if before.curves.contains_key(k) {
                assert(before.keys.contains(k));
            }
        }
    }
}

/// What is stored of another file does not depend on what the file at `p` counts.
proof fn lemma_stored_alike(
    a: Map<Seq<char>, Map<Key, i64>>,
    b: Map<Seq<char>, Map<Key, i64>>,
    results: Seq<Blamed>,
    q: Seq<char>,
)
    requires
        hist_of(a, q) == hist_of(b, q),
    ensures
        hist_of(stored(a, results), q) == hist_of(stored(b, results), q),
        (forall|i: int| 0 <= i < results.len() ==> (#[trigger] results[i]).0 != q) ==> hist_of(
            stored(a, results),
            q,
        ) == hist_of(a, q),
    decreases results.len(),
{
    if results.len() > 0 {
        lemma_stored_alike(a, b, results.drop_last(), q);
        if forall|i: int| 0 <= i < results.len() ==> (#[trigger] results[i]).0 != q {
            assert(results[results.len() - 1].0 != q);
            assert forall|i: int| 0 <= i < results.drop_last().len() implies (
            #[trigger] results.drop_last()[i]).0 != q by {
                assert(results[i].0 != q);
            }
        }
    }
}

proof fn lemma_hists_without(
    s: State,
    t: State,
    tree: Seq<Entry>,
    results: Seq<Blamed>,
    p: Seq<char>,
)
    requires
        same_counts(s, t, p),
        t.files == s.files.remove(p),
        forall|i: int| 0 <= i < results.len() ==> (#[trigger] results[i]).0 != p,
    ensures
        ({
            let a = stored(begun(s, tree).hists, results);
            let b = stored(begun(t, tree_without(tree, p)).hists, results);
            &&& forall|q: Seq<char>| q != p ==> #[trigger] hist_of(a, q) == hist_of(b, q)
            &&& hist_of(a, p) == Map::<Key, i64>::empty()
        }),
{
    let u = tree_without(tree, p);
    let left_s = begun(s, tree).hists;
    let left_t = begun(t, u).hists;
    let a = stored(left_s, results);
    let b = stored(left_t, results);
    lemma_stored_alike(left_s, left_s, results, p);
    assert(hist_of(left_s, p) =~= Map::<Key, i64>::empty());
    assert forall|q: Seq<char>| q != p implies #[trigger] hist_of(a, q) == hist_of(b, q) by {
        lemma_gone_without(s.files, tree, p, q);
        assert(hist_of(s.hists, q) == hist_of(t.hists, q));
        assert(hist_of(left_s, q) == hist_of(left_t, q));
        lemma_stored_alike(left_s, left_t, results, q);
    }
}

/// Whether two lists of results are the same but for their order, with at most
/// one result for each file.
pub open spec fn same_results(a: Seq<Blamed>, b: Seq<Blamed>) -> bool {
    &&& forall|i: int, j: int|
        0 <= i < j < a.len() ==> (#[trigger] a[i]).0 != (#[trigger] a[j]).0
    &&& forall|i: int, j: int|
        0 <= i < j < b.len() ==> (#[trigger] b[i]).0 != (#[trigger] b[j]).0
    &&& forall|r: Blamed| #[trigger] a.contains(r) <==> b.contains(r)
}

proof fn lemma_stored_order(
    hists: Map<Seq<char>, Map<Key, i64>>,
    a: Seq<Blamed>,
    b: Seq<Blamed>,
    p: Seq<char>,
)
    requires
        same_results(a, b),
        stored(hists, a).contains_key(p),
    ensures
        stored(hists, b).contains_key(p),
        stored(hists, b)[p] == stored(hists, a)[p],
{
    lemma_stored(hists, a);
    lemma_stored(hists, b);
    lemma_stored_dom(hists, a, p);
    lemma_stored_dom(hists, b, p);
    if exists|i: int| 0 <= i < a.len() && (#[trigger] a[i]).0 == p {
        let i = choose|i: int| 0 <= i < a.len() && (#[trigger] a[i]).0 == p;
        assert(a.contains(a[i]));
        assert(b.contains(a[i]));
        let j = choose|j: int| 0 <= j < b.len() && b[j] == a[i];
        assert(b[j].0 == p);
        assert(hist_of(stored(hists, a), a[i].0) == a[i].1);
        assert(hist_of(stored(hists, b), b[j].0) == b[j].1);
    } else {
        assert forall|j: int| 0 <= j < b.len() implies (#[trigger] b[j]).0 != p by {
            assert(b.contains(b[j]));
            assert(a.contains(b[j]));
        }
        assert(hist_of(stored(hists, a), p) == hist_of(hists, p));
        assert(hist_of(stored(hists, b), p) == hist_of(hists, p));
    }
}

proof fn lemma_stored_dom(
    hists: Map<Seq<char>, Map<Key, i64>>,
    results: Seq<Blamed>,
    p: Seq<char>,
)
    ensures
        stored(hists, results).contains_key(p) <==> hists.contains_key(p) || exists|i: int|
            0 <= i < results.len() && (#[trigger] results[i]).0 == p,
    decreases results.len(),
{
    if results.len() > 0 {
        let t = results.drop_last();
        lemma_stored_dom(hists, t, p);
        if exists|i: int| 0 <= i < t.len() && (#[trigger] t[i]).0 == p {
            let i = choose|i: int| 0 <= i < t.len() && (#[trigger] t[i]).0 == p;
            assert(results[i].0 == p);
        }
        if results.last().0 == p {
            assert(results[results.len() - 1].0 == p);
        }
        if exists|i: int| 0 <= i < results.len() && (#[trigger] results[i]).0 == p {
            let i = choose|i: int| 0 <= i < results.len() && (#[trigger] results[i]).0 == p;
            if i < t.len() {
                assert(t[i].0 == p);
            }
        }
    }
}

proof fn lemma_raised_order(totals: Map<Key, i64>, a: Seq<Blamed>, b: Seq<Blamed>, k: Key)
    requires
        same_results(a, b),
    ensures
        raised(totals, a).contains_key(k) ==> raised(totals, b).contains_key(k),
        sum(a, result_counts(k)) == sum(b, result_counts(k)),
{
    if raised(totals, a).contains_key(k) && !totals.contains_key(k) {
        let i = choose|i: int| 0 <= i < a.len() && (#[trigger] a[i]).1.contains_key(k);
        assert(a.contains(a[i]));
        assert(b.contains(a[i]));
        let j = choose|j: int| 0 <= j < b.len() && b[j] == a[i];
        assert(b[j].1.contains_key(k));
    }
    assert(a.no_duplicates()) by {
        assert forall|i: int, j: int| 0 <= i < a.len() && 0 <= j < a.len() && i != j implies a[i]
            != a[j] by {
            if i < j {
                assert(a[i].0 != a[j].0);
            } else {
                assert(a[j].0 != a[i].0);
            }
        }
    }
    assert(b.no_duplicates()) by {
        assert forall|i: int, j: int| 0 <= i < b.len() && 0 <= j < b.len() && i != j implies b[i]
            != b[j] by {
            if i < j {
                assert(b[i].0 != b[j].0);
            } else {
                assert(b[j].0 != b[i].0);
            }
        }
    }
    lemma_sum_same_items(a, b, result_counts(k));
}

/// The order in which the results of a commit come in does not matter.
pub proof fn lemma_results_in_any_order(
    s: State,
    tree: Seq<Entry>,
    ts: i64,
    stamp: Seq<char>,
    a: Seq<Blamed>,
    b: Seq<Blamed>,
)
    requires
        same_results(a, b),
    ensures
        after_commit(s, tree, ts, stamp, a) == after_commit(s, tree, ts, stamp, b),
{
    let mid = begun(s, tree);
    assert(same_results(b, a));
    assert forall|p: Seq<char>| #[trigger] stored(mid.hists, a).contains_key(p) <==> stored(
        mid.hists,
        b,
    ).contains_key(p) by {
        if stored(mid.hists, a).contains_key(p) {
            lemma_stored_order(mid.hists, a, b, p);
        }
        if stored(mid.hists, b).contains_key(p) {
            lemma_stored_order(mid.hists, b, a, p);
        }
    }
    assert forall|p: Seq<char>| #[trigger] stored(mid.hists, a).contains_key(p) implies stored(
        mid.hists,
        a,
    )[p] == stored(mid.hists, b)[p] by {
        lemma_stored_order(mid.hists, a, b, p);
    }
    assert(stored(mid.hists, a) =~= stored(mid.hists, b));
    assert forall|k: Key| #[trigger] raised(mid.totals, a).contains_key(k) <==> raised(
        mid.totals,
        b,
    ).contains_key(k) by {
        lemma_raised_order(mid.totals, a, b, k);
        lemma_raised_order(mid.totals, b, a, k);
    }
    assert forall|k: Key| #[trigger] raised(mid.totals, a).contains_key(k) implies raised(
        mid.totals,
        a,
    )[k] == raised(mid.totals, b)[k] by {
        lemma_raised_order(mid.totals, a, b, k);
    }
    assert(raised(mid.totals, a) =~= raised(mid.totals, b));
}

/// Whether two courses are the same but for the order in which results come in.
pub open spec fn same_course(a: Seq<Step>, b: Seq<Step>) -> bool {
    &&& a.len() == b.len()
    &&& forall|i: int|
        0 <= i < a.len() ==> (#[trigger] a[i]).tree == b[i].tree && a[i].ts == b[i].ts && a[i].stamp
            == b[i].stamp && same_results(a[i].results, b[i].results)
}

/// What an analysis finds does not depend on how the counting of files is handed
/// out to workers: the order in which results come in, at any commit, changes
/// nothing.
pub proof fn lemma_workers_do_not_matter(s: State, a: Seq<Step>, b: Seq<Step>)
    requires
        same_course(a, b),
    ensures
        after_commits(s, a) == after_commits(s, b),
    decreases a.len(),
{
    if a.len() > 0 {
        let x = a.drop_last();
        let y = b.drop_last();
        assert forall|i: int| 0 <= i < x.len() implies (#[trigger] x[i]).tree == y[i].tree
            && x[i].ts == y[i].ts && x[i].stamp == y[i].stamp && same_results(
            x[i].results,
            y[i].results,
        ) by {
            assert(a[i].tree == b[i].tree);
        }
        lemma_workers_do_not_matter(s, x, y);
        let n = a.len() - 1;
        assert(a[n].tree == b[n].tree && same_results(a[n].results, b[n].results));
        lemma_results_in_any_order(
            after_commits(s, x),
            a[n].tree,
            a[n].ts,
            a[n].stamp,
            a[n].results,
            b[n].results,
        );
    }
}

/// What is counted of a file of a commit is counted by a file type and a directory
/// of the commit.
pub proof fn lemma_histogram_types(
    h: &KeyMap<i64>,
    hs: Seq<Hunk>,
    tree: Seq<Entry>,
    e: int,
    cohorts: Map<Seq<char>, String>,
    commits: Map<Seq<char>, CommitMeta>,
)
    requires
        0 <= e < tree.len(),
        is_histogram(h, hs, tree[e].path, cohorts, commits),
    ensures
        types_drawn(h@, tree_keys(tree)),
{
    let path = tree[e].path;
    assert forall|k: Key| #[trigger] h@.contains_key(k) && is_type(k.0) implies tree_keys(
        tree,
    ).contains(k) by {
        let p = sources(k, path, cohorts, commits);
        assert(any_from(hs, p));
        let i = choose|i: int| 0 <= i < hs.len() && p((#[trigger] hs[i]).0);
        assert(counts_for(k, hs[i].0, path, cohorts, commits));
        assert(is_tree_key(tree[e], k));
    }
}

/// If no result has a negative count, no file ever has one.
pub proof fn lemma_none_negative(keys: Set<Key>, steps: Seq<Step>)
    requires
        forall|i: int, j: int|
            0 <= i < steps.len() && 0 <= j < steps[i].results.len() ==> no_negatives(
                (#[trigger] steps[i].results[j]).1,
            ),
    ensures
        none_negative(after_commits(initial(keys), steps)),
    decreases steps.len(),
{
    if steps.len() > 0 {
        let t = steps.drop_last();
        let c = steps.last();
        let n = steps.len() - 1;
        assert forall|i: int, j: int|
            0 <= i < t.len() && 0 <= j < t[i].results.len() implies no_negatives(
            (#[trigger] t[i].results[j]).1,
        ) by {
            assert(no_negatives(steps[i].results[j].1));
        }
        lemma_none_negative(keys, t);
        let s = after_commits(initial(keys), t);
        let next = after_commits(initial(keys), steps);
        let left = begun(s, c.tree).hists;
        lemma_stored_origin(left, c.results);
        assert forall|p: Seq<char>| #[trigger] next.hists.contains_key(p) implies no_negatives(
            next.hists[p],
        ) by {
            if left.contains_key(p) && next.hists[p] == left[p] {
                assert(s.hists.contains_key(p));
            } else {
                let j = choose|j: int|
                    0 <= j < c.results.len() && (#[trigger] c.results[j]).1 == next.hists[p];
                assert(no_negatives(steps[n].results[j].1));
            }
        }
    }
}

/// Whether any line of the files that are counted at a commit comes from `sha`.
pub open spec fn counts_commit(c: Step, sha: Seq<char>) -> bool {
    exists|i: int|
        0 <= i < c.results.len() && (#[trigger] c.results[i]).1.contains_key((Category::Sha, sha))
}

/// The first sample at which lines of a commit are counted, or the number of
/// samples if there is none.
pub open spec fn first_counted(steps: Seq<Step>, sha: Seq<char>) -> int
    decreases steps.len(),
{
    if steps.len() == 0 {
        0
    } else {
        let before = first_counted(steps.drop_last(), sha);
        if before < steps.len() - 1 || counts_commit(steps.last(), sha) {
            before
        } else {
            steps.len() as int
        }
    }
}

/// A commit has a history if lines of it were ever counted: an entry for each
/// sample from the first at which they were, with the time of the sample and the
/// total of the commit after it.
pub proof fn lemma_histories_are_totals(keys: Set<Key>, steps: Seq<Step>, sha: Seq<char>)
    ensures
        hists_have_totals(after_commits(initial(keys), steps)),
        0 <= first_counted(steps, sha) <= steps.len(),
        ({
            let s = after_commits(initial(keys), steps);
            let k = (Category::Sha, sha);
            let first = first_counted(steps, sha);
            &&& s.totals.contains_key(k) <==> first < steps.len()
            &&& s.history.contains_key(sha) <==> first < steps.len()
            &&& first < steps.len() ==> s.history[sha].len() == steps.len() - first
            &&& forall|j: int|
                first < steps.len() && 0 <= j < steps.len() - first ==> (
                #[trigger] s.history[sha][j]) == (
                    steps[first + j].ts,
                    count_of(
                        after_commits(initial(keys), steps.take(first + j + 1)).totals,
                        k,
                    ) as i64,
                )
        }),
    decreases steps.len(),
{
    if steps.len() > 0 {
        let k = (Category::Sha, sha);
        let t = steps.drop_last();
        let c = steps.last();
        let s = after_commits(initial(keys), t);
        let next = after_commits(initial(keys), steps);
        let first = first_counted(steps, sha);
        let n = t.len() as int;
        lemma_histories_are_totals(keys, t, sha);
        lemma_totals_after(s, c);
        assert(next.totals.contains_key(k) <==> s.totals.contains_key(k) || counts_commit(c, sha));
        assert forall|j: int|
            first < steps.len() && 0 <= j < steps.len() - first implies (
        #[trigger] next.history[sha][j]) == (
            steps[first + j].ts,
            count_of(after_commits(initial(keys), steps.take(first + j + 1)).totals, k) as i64,
        ) by {
            if first + j == n {
                assert(steps.take(n + 1) =~= steps);
                assert(steps[n] == c);
            } else {
                assert(first_counted(t, sha) == first);
                assert(steps.take(first + j + 1) =~= t.take(first + j + 1));
                assert(steps[first + j] == t[first + j]);
                assert(next.history[sha][j] == s.history[sha][j]);
            }
        }
    }
}

/// Each entry of the history of a commit holds the time of a sample, from the
/// first at which lines of the commit are counted on, and the number of its lines:
/// the sum, over the files of the sample, of what their latest counts are for the
/// commit. It is exact wherever it fits into 64 bits.
pub proof fn lemma_written_histories(keys: Set<Key>, steps: Seq<Step>, sha: Seq<char>)
    requires
        all_fit(initial(keys), steps),
    ensures
        ({
            let history = after_commits(initial(keys), steps).history;
            let first = first_counted(steps, sha);
            &&& history.contains_key(sha) <==> first < steps.len()
            &&& history.contains_key(sha) ==> history[sha].len() == steps.len() - first
            &&& forall|j: int|
                history.contains_key(sha) && 0 <= j < history[sha].len() ==> ({
                    let total = latest_total(
                        steps.take(first + j + 1),
                        (Category::Sha, sha),
                    );
                    &&& (#[trigger] history[sha][j]) == (steps[first + j].ts, wrap(total))
                    &&& i64::MIN <= total <= i64::MAX ==> history[sha][j].1 == total
                })
        }),
{
    let history = after_commits(initial(keys), steps).history;
    let first = first_counted(steps, sha);
    let k = (Category::Sha, sha);
    lemma_histories_are_totals(keys, steps, sha);
    assert forall|j: int| history.contains_key(sha) && 0 <= j < history[sha].len() implies ({
        let total = latest_total(steps.take(first + j + 1), k);
        &&& (#[trigger] history[sha][j]) == (steps[first + j].ts, wrap(total))
        &&& i64::MIN <= total <= i64::MAX ==> history[sha][j].1 == total
    }) by {
        lemma_fit_before(initial(keys), steps, first + j + 1);
        lemma_totals_are_latest(keys, steps.take(first + j + 1), k);
    }
}

/// Only commits with a cohort have a history, if only such commits are counted.
pub proof fn lemma_histories_have_cohorts(
    keys: Set<Key>,
    steps: Seq<Step>,
    cohorts: Map<Seq<char>, String>,
    sha: Seq<char>,
)
    requires
        forall|i: int, j: int, l: Seq<char>|
            0 <= i < steps.len() && 0 <= j < steps[i].results.len() && (
            #[trigger] steps[i].results[j].1.contains_key((Category::Sha, l)))
                ==> cohorts.contains_key(l),
        after_commits(initial(keys), steps).history.contains_key(sha),
    ensures
        cohorts.contains_key(sha),
    decreases steps.len(),
{
    lemma_histories_are_totals(keys, steps, sha);
    let t = steps.drop_last();
    let n = steps.len() - 1;
    if counts_commit(steps.last(), sha) {
        let c = steps.last();
        let j = choose|j: int|
            0 <= j < c.results.len() && (#[trigger] c.results[j]).1.contains_key(
                (Category::Sha, sha),
            );
        assert(steps[n].results[j].1.contains_key((Category::Sha, sha)));
    } else {
        lemma_histories_are_totals(keys, t, sha);
        assert forall|i: int, j: int, l: Seq<char>|
            0 <= i < t.len() && 0 <= j < t[i].results.len() && (
            #[trigger] t[i].results[j].1.contains_key((Category::Sha, l))) implies cohorts.contains_key(
            l,
        ) by {
            assert(steps[i].results[j].1.contains_key((Category::Sha, l)));
        }
        lemma_histories_have_cohorts(keys, t, cohorts, sha);
    }
}

} // verus!
