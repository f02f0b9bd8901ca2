//! The lines of all files, broken down by what they are counted by.

use vstd::prelude::*;

use crate::analysis::{commit_keys, is_commit_key};
use crate::blame::{any_from, counts_for, is_histogram, sources, Hunk};
use crate::conservation::{
    after_commit, are_results, balanced, conserved, counts_in, curves_complete, distinct_paths,
    labels_in, lemma_curves_grow, lemma_initial_balanced, lemma_initial_conserved,
    lemma_initial_curves, lemma_totals_balanced, lemma_totals_conserved, lemma_totals_exact,
    live_count, state_balanced, total_of,
};
use crate::count::{
    lemma_listing, lemma_sum_equal, lemma_sum_le, lemma_sum_not_negative, lemma_sum_over_part,
    lemma_sum_swap, lemma_sum_wrap, lemma_wrap_fits, listing, sum, sum_over, wrap,
};
use crate::git::{CommitMeta, Entry};
use crate::path::{dir_of, domain_of, ext_of};
use crate::state::{
    begun, file_counts, hist_of, initial, is_stale, is_tree_key, stored, taken_off, tree_keys,
    Blamed, State,
};
use crate::tally::{count_of, Category, Key, KeyMap};

verus! {

/// Whether every key but those of commits has a curve.
pub open spec fn all_drawn(m: Map<Key, i64>, keys: Set<Key>) -> bool {
    forall|k: Key| #[trigger] m.contains_key(k) && k.0 != Category::Sha ==> keys.contains(k)
}

/// Whether what is counted has a curve, and what a file counts has a total.
pub open spec fn state_drawn(s: State) -> bool {
    &&& all_drawn(s.totals, s.keys)
    &&& forall|p: Seq<char>, k: Key|
        s.hists.contains_key(p) && #[trigger] s.hists[p].contains_key(k) ==> s.totals.contains_key(k)
}

/// Whether the state of an analysis accounts for all lines of all files.
pub open spec fn sound(s: State) -> bool {
    &&& s.keys.finite()
    &&& conserved(s)
    &&& state_balanced(s)
    &&& state_drawn(s)
    &&& curves_complete(s)
}

/// Whether the files of a commit are counted as they have to be: `results` counts
/// files that are new or have changed, each in every category alike, by keys that
/// have curves.
pub open spec fn well_counted(s: State, tree: Seq<Entry>, results: Seq<Blamed>) -> bool {
    &&& distinct_paths(tree)
    &&& are_results(tree.filter(is_stale(s.files)), results)
    &&& forall|i: int|
        0 <= i < results.len() ==> balanced((#[trigger] results[i]).1) && all_drawn(
            results[i].1,
            s.keys.union(tree_keys(tree)),
        )
}

/// What is stored of a file was known before or is a result.
pub proof fn lemma_stored_origin(hists: Map<Seq<char>, Map<Key, i64>>, results: Seq<Blamed>)
    ensures
        forall|p: Seq<char>| #[trigger]
            stored(hists, results).contains_key(p) ==> (hists.contains_key(p) && stored(
                hists,
                results,
            )[p] == hists[p]) || exists|i: int|
                0 <= i < results.len() && (#[trigger] results[i]).1 == stored(hists, results)[p],
    decreases results.len(),
{
    if results.len() > 0 {
        let t = results.drop_last();
        let r = stored(hists, results);
        lemma_stored_origin(hists, t);
        assert forall|p: Seq<char>| #[trigger] r.contains_key(p) implies (hists.contains_key(p)
            && r[p] == hists[p]) || exists|i: int|
            0 <= i < results.len() && (#[trigger] results[i]).1 == r[p] by {
            if p == results.last().0 {
                assert(results[results.len() - 1].1 == r[p]);
            } else {
                assert(stored(hists, t).contains_key(p));
                if !(hists.contains_key(p) && r[p] == hists[p]) {
                    let i = choose|i: int| 0 <= i < t.len() && (#[trigger] t[i]).1 == stored(
                        hists,
                        t,
                    )[p];
                    assert(results[i].1 == r[p]);
                }
            }
        }
    }
}

proof fn lemma_drawn_kept(
    s: State,
    tree: Seq<Entry>,
    ts: i64,
    stamp: Seq<char>,
    results: Seq<Blamed>,
)
    requires
        state_drawn(s),
        forall|i: int|
            0 <= i < results.len() ==> all_drawn(
                (#[trigger] results[i]).1,
                s.keys.union(tree_keys(tree)),
            ),
    ensures
        state_drawn(after_commit(s, tree, ts, stamp, results)),
{
    let mid = begun(s, tree);
    let next = after_commit(s, tree, ts, stamp, results);
    assert forall|k: Key| #[trigger] mid.totals.contains_key(k) implies s.totals.contains_key(k) by {
        if !s.totals.contains_key(k) {
            let paths = taken_off(s.files, tree);
            let i = choose|i: int|
                0 <= i < paths.len() && hist_of(s.hists, #[trigger] paths[i]).contains_key(k);
            assert(s.hists[paths[i]].contains_key(k));
        }
    }
    assert forall|k: Key| #[trigger]
        next.totals.contains_key(k) && k.0 != Category::Sha implies next.keys.contains(k) by {
        if mid.totals.contains_key(k) {
            assert(s.totals.contains_key(k));
        } else {
            let i = choose|i: int| 0 <= i < results.len() && (#[trigger] results[i]).1.contains_key(k);
            assert(all_drawn(results[i].1, mid.keys));
        }
    }
    lemma_stored_origin(mid.hists, results);
    assert forall|p: Seq<char>, k: Key|
        next.hists.contains_key(p) && #[trigger] next.hists[p].contains_key(
            k,
        ) implies next.totals.contains_key(k) by {
        if mid.hists.contains_key(p) && next.hists[p] == mid.hists[p] {
            assert(s.hists[p].contains_key(k));
            assert(s.totals.contains_key(k));
        } else {
            let i = choose|i: int|
                0 <= i < results.len() && (#[trigger] results[i]).1 == next.hists[p];
            assert(results[i].1.contains_key(k));
        }
    }
}

proof fn lemma_tree_keys_finite(tree: Seq<Entry>)
    ensures
        tree_keys(tree).finite(),
    decreases tree.len(),
{
    if tree.len() == 0 {
        assert(tree_keys(tree) =~= Set::<Key>::empty());
    } else {
        let t = tree.drop_last();
        let e = tree.last();
        lemma_tree_keys_finite(t);
        let all = tree_keys(t).insert((Category::Ext, ext_of(e.path))).insert(
            (Category::Dir, dir_of(e.path)),
        );
        assert forall|k: Key| #[trigger] tree_keys(tree).contains(k) <==> all.contains(k) by {
            if tree_keys(tree).contains(k) {
                let i = choose|i: int| 0 <= i < tree.len() && is_tree_key(#[trigger] tree[i], k);
                if i < t.len() {
                    assert(is_tree_key(t[i], k));
                }
            }
            if tree_keys(t).contains(k) {
                let i = choose|i: int| 0 <= i < t.len() && is_tree_key(#[trigger] t[i], k);
                assert(is_tree_key(tree[i], k));
            }
            if is_tree_key(e, k) {
                assert(is_tree_key(tree[tree.len() - 1], k));
            }
        }
        assert(tree_keys(tree) =~= all);
    }
}

/// Finitely many commits have finitely many cohorts, authors and domains.
pub proof fn lemma_commit_keys_finite(
    commits: Map<Seq<char>, CommitMeta>,
    cohorts: Map<Seq<char>, String>,
)
    requires
        commits.dom().finite(),
    ensures
        commit_keys(commits, cohorts).finite(),
{
    let a = |sha: Seq<char>| (Category::Cohort, cohorts[sha]@);
    let b = |sha: Seq<char>| (Category::Author, commits[sha].author@);
    let c = |sha: Seq<char>| (Category::Domain, domain_of(commits[sha].email@));
    let shas = commits.dom();
    shas.lemma_map_finite(a);
    shas.lemma_map_finite(b);
    shas.lemma_map_finite(c);
    let all = shas.map(a).union(shas.map(b)).union(shas.map(c));
    assert forall|k: Key| #[trigger] commit_keys(commits, cohorts).contains(k) <==> all.contains(
        k,
    ) by {
        if commit_keys(commits, cohorts).contains(k) {
            let sha = choose|sha: Seq<char>|
                commits.contains_key(sha) && #[trigger] is_commit_key(sha, k, commits, cohorts);
            assert(shas.contains(sha));
            assert(k == a(sha) || k == b(sha) || k == c(sha));
        }
        if shas.map(a).contains(k) {
            let sha = choose|sha: Seq<char>| shas.contains(sha) && #[trigger] a(sha) == k;
            assert(is_commit_key(sha, k, commits, cohorts));
        }
        if shas.map(b).contains(k) {
            let sha = choose|sha: Seq<char>| shas.contains(sha) && #[trigger] b(sha) == k;
            assert(is_commit_key(sha, k, commits, cohorts));
        }
        if shas.map(c).contains(k) {
            let sha = choose|sha: Seq<char>| shas.contains(sha) && #[trigger] c(sha) == k;
            assert(is_commit_key(sha, k, commits, cohorts));
        }
    }
    assert(commit_keys(commits, cohorts) =~= all);
}

/// Finitely many keys have finitely many labels.
pub proof fn lemma_drawn_labels_finite(s: State, c: Category)
    requires
        s.keys.finite(),
    ensures
        drawn_labels(s, c).finite(),
{
    let here = s.keys.filter(|k: Key| k.0 == c);
    let label = |k: Key| k.1;
    s.keys.lemma_len_filter(|k: Key| k.0 == c);
    here.lemma_map_finite(label);
    assert forall|l: Seq<char>| #[trigger] drawn_labels(s, c).contains(l) <==> here.map(
        label,
    ).contains(l) by {
        if drawn_labels(s, c).contains(l) {
            assert(here.contains((c, l)));
            assert(label((c, l)) == l);
        }
    }
    assert(drawn_labels(s, c) =~= here.map(label));
}

/// Before the first commit all lines of all files, none, are accounted for.
pub proof fn lemma_initial_sound(keys: Set<Key>)
    requires
        keys.finite(),
    ensures
        sound(initial(keys)),
{
    lemma_initial_conserved(keys);
    lemma_initial_balanced(keys);
    lemma_initial_curves(keys);
}

/// All lines of all files stay accounted for.
pub proof fn lemma_commit_sound(
    s: State,
    tree: Seq<Entry>,
    ts: i64,
    stamp: Seq<char>,
    results: Seq<Blamed>,
)
    requires
        sound(s),
        well_counted(s, tree, results),
    ensures
        sound(after_commit(s, tree, ts, stamp, results)),
{
    lemma_totals_conserved(s, tree, ts, stamp, results);
    lemma_totals_balanced(s, tree, ts, stamp, results);
    lemma_curves_grow(s, tree, ts, stamp, results);
    lemma_drawn_kept(s, tree, ts, stamp, results);
    lemma_tree_keys_finite(tree);
}

/// The lines of each file, as a category counts them.
pub open spec fn lines_by(s: State, c: Category) -> spec_fn(Seq<char>) -> int {
    |p: Seq<char>| total_of(hist_of(s.hists, p), c)
}

/// The lines of all files of the last commit, as a category counts them.
pub open spec fn all_lines(s: State, c: Category) -> int {
    sum_over(s.files.dom(), lines_by(s, c))
}

/// What the files count for each label of a category adds up to their lines.
proof fn lemma_labels_add_up(s: State, c: Category)
    requires
        sound(s),
    ensures
        sum(listing(labels_in(s.totals, c)), |l: Seq<char>| live_count(s, (c, l))) == all_lines(
            s,
            c,
        ),
{
    let labels = labels_in(s.totals, c);
    assert(labels.finite());
    let q = listing(labels);
    let ps = listing(s.files.dom());
    lemma_listing(labels);
    lemma_listing(s.files.dom());
    let cell = |l: Seq<char>, p: Seq<char>| count_of(hist_of(s.hists, p), (c, l));
    let live = |l: Seq<char>| live_count(s, (c, l));
    let rows = |l: Seq<char>| sum(ps, |p: Seq<char>| cell(l, p));
    assert forall|i: int| 0 <= i < q.len() implies #[trigger] live(q[i]) == rows(q[i]) by {
        lemma_sum_equal(ps, file_counts(s.hists, (c, q[i])), |p: Seq<char>| cell(q[i], p));
    }
    lemma_sum_equal(q, live, rows);
    lemma_sum_swap(q, ps, cell);
    let columns = |p: Seq<char>| sum(q, |l: Seq<char>| cell(l, p));
    assert forall|i: int| 0 <= i < ps.len() implies #[trigger] columns(ps[i]) == lines_by(s, c)(
        ps[i],
    ) by {
        let h = hist_of(s.hists, ps[i]);
        let part = labels_in(h, c);
        let counted = |l: Seq<char>| h.contains_key((c, l));
        let f = counts_in(h, c);
        assert forall|l: Seq<char>| #[trigger] part.contains(l) <==> labels.contains(l) && counted(
            l,
        ) by {
            if part.contains(l) {
                assert(s.hists[ps[i]].contains_key((c, l)));
            }
        }
        lemma_sum_over_part(q, labels, part, counted, f);
        lemma_sum_equal(q, f, |l: Seq<char>| cell(l, ps[i]));
    }
    lemma_sum_equal(ps, columns, lines_by(s, c));
}

/// The totals of a category add up to the lines of all files.
pub proof fn lemma_total_lines(s: State, c: Category)
    requires
        sound(s),
    ensures
        wrap(total_of(s.totals, c)) == wrap(all_lines(s, c)),
{
    let labels = labels_in(s.totals, c);
    assert(labels.finite());
    let q = listing(labels);
    lemma_labels_add_up(s, c);
    let totals = counts_in(s.totals, c);
    let live = |l: Seq<char>| live_count(s, (c, l));
    assert forall|i: int| 0 <= i < q.len() implies wrap(#[trigger] totals(q[i])) == wrap(
        live(q[i]),
    ) by {
        let k = (c, q[i]);
        assert(count_of(s.totals, k) == wrap(live_count(s, k)));
        lemma_wrap_fits(count_of(s.totals, k));
    }
    lemma_sum_wrap(q, totals, live);
}

/// Whether no count of a map is negative.
pub open spec fn no_negatives(m: Map<Key, i64>) -> bool {
    forall|k: Key| #[trigger] m.contains_key(k) ==> m[k] >= 0
}

/// Whether no count of a file is negative.
pub open spec fn none_negative(s: State) -> bool {
    forall|p: Seq<char>| #[trigger] s.hists.contains_key(p) ==> no_negatives(s.hists[p])
}

/// The lines of a file are at least those of each label.
proof fn lemma_lines_at_least(s: State, c: Category, p: Seq<char>, l: Seq<char>)
    requires
        state_balanced(s),
        none_negative(s),
    ensures
        0 <= count_of(hist_of(s.hists, p), (c, l)) <= lines_by(s, c)(p),
{
    let h = hist_of(s.hists, p);
    let labels = labels_in(h, c);
    let q = listing(labels);
    let f = counts_in(h, c);
    if s.hists.contains_key(p) {
        assert(balanced(s.hists[p]));
        assert(no_negatives(s.hists[p]));
    } else {
        assert(labels =~= Set::<Seq<char>>::empty());
    }
    assert(labels.finite());
    lemma_listing(labels);
    assert forall|i: int| 0 <= i < q.len() implies 0 <= #[trigger] f(q[i]) by {
        assert(q.contains(q[i]));
        assert(labels.contains(q[i]));
        assert(h.contains_key((c, q[i])));
    }
    lemma_sum_not_negative(q, f);
    if h.contains_key((c, l)) {
        assert(labels.contains(l));
        assert(q.contains(l));
        let i = choose|i: int| 0 <= i < q.len() && q[i] == l;
        assert(f(q[i]) <= sum(q, f));
    }
}

/// If no count is negative and the lines of all files fit into 64 bits, each
/// total is exact, and those of a category add up to exactly the lines of all
/// files.
pub proof fn lemma_total_lines_exact(s: State, c: Category)
    requires
        sound(s),
        none_negative(s),
        all_lines(s, c) <= i64::MAX,
    ensures
        forall|l: Seq<char>|
            0 <= #[trigger] live_count(s, (c, l)) == count_of(s.totals, (c, l)),
        0 <= total_of(s.totals, c) == all_lines(s, c),
{
    let labels = labels_in(s.totals, c);
    assert(labels.finite());
    let q = listing(labels);
    let ps = listing(s.files.dom());
    assert forall|l: Seq<char>|
        0 <= #[trigger] live_count(s, (c, l)) == count_of(s.totals, (c, l)) by {
        let k = (c, l);
        let f = file_counts(s.hists, k);
        assert forall|i: int| 0 <= i < ps.len() implies 0 <= #[trigger] f(ps[i]) by {
            lemma_lines_at_least(s, c, ps[i], l);
        }
        lemma_sum_not_negative(ps, f);
        assert forall|i: int| 0 <= i < ps.len() implies #[trigger] f(ps[i]) <= lines_by(s, c)(
            ps[i],
        ) by {
            lemma_lines_at_least(s, c, ps[i], l);
        }
        lemma_sum_le(ps, f, lines_by(s, c));
        lemma_totals_exact(s, k);
    }
    lemma_labels_add_up(s, c);
    let totals = counts_in(s.totals, c);
    let live = |l: Seq<char>| live_count(s, (c, l));
    assert forall|i: int| 0 <= i < q.len() implies #[trigger] totals(q[i]) == live(q[i]) by {
        assert(live_count(s, (c, q[i])) == count_of(s.totals, (c, q[i])));
    }
    lemma_sum_equal(q, totals, live);
    assert forall|i: int| 0 <= i < q.len() implies 0 <= #[trigger] totals(q[i]) by {
        assert(0 <= live_count(s, (c, q[i])) == count_of(s.totals, (c, q[i])));
    }
    lemma_sum_not_negative(q, totals);
}

/// The labels of a category that have a curve.
pub open spec fn drawn_labels(s: State, c: Category) -> Set<Seq<char>> {
    Set::new(|l: Seq<char>| s.keys.contains((c, l)))
}

/// The last count of the curve of a label.
pub open spec fn last_count(s: State, c: Category) -> spec_fn(Seq<char>) -> int {
    |l: Seq<char>| s.curves[(c, l)].last() as int
}

/// After each commit the curves of any category but that of commits add up to
/// the lines of all files: each set of curves is a breakdown of the whole. The
/// sum is exact if no count is negative and the lines of all files fit into 64
/// bits.
pub proof fn lemma_curves_break_down(
    s: State,
    tree: Seq<Entry>,
    ts: i64,
    stamp: Seq<char>,
    results: Seq<Blamed>,
    c: Category,
)
    requires
        sound(s),
        well_counted(s, tree, results),
        c != Category::Sha,
    ensures
        ({
            let next = after_commit(s, tree, ts, stamp, results);
            &&& wrap(sum_over(drawn_labels(next, c), last_count(next, c))) == wrap(
                all_lines(next, c),
            )
            &&& none_negative(next) && all_lines(next, c) <= i64::MAX ==> 0 <= sum_over(
                drawn_labels(next, c),
                last_count(next, c),
            ) == all_lines(next, c)
        }),
        ({
            let next = after_commit(s, tree, ts, stamp, results);
            forall|d: Category|
                d != Category::Sha ==> wrap(#[trigger] all_lines(next, d)) == wrap(
                    all_lines(next, c),
                )
        }),
{
    let next = after_commit(s, tree, ts, stamp, results);
    lemma_commit_sound(s, tree, ts, stamp, results);
    lemma_curves_grow(s, tree, ts, stamp, results);
    lemma_total_lines(next, c);
    let drawn = drawn_labels(next, c);
    let q = listing(drawn);
    lemma_drawn_labels_finite(next, c);
    lemma_listing(drawn);
    let totals = counts_in(next.totals, c);
    let counted = |l: Seq<char>| next.totals.contains_key((c, l));
    assert forall|l: Seq<char>| #[trigger] labels_in(next.totals, c).contains(l) <==> drawn.contains(
        l,
    ) && counted(l) by {
        if next.totals.contains_key((c, l)) {
            assert(next.keys.contains((c, l)));
        }
    }
    lemma_sum_over_part(q, drawn, labels_in(next.totals, c), counted, totals);
    let lasts = last_count(next, c);
    assert forall|i: int| 0 <= i < q.len() implies #[trigger] lasts(q[i]) == totals(q[i]) by {
        assert(q.contains(q[i]));
        assert(drawn.contains(q[i]));
        let k = (c, q[i]);
        assert(next.keys.contains(k));
        assert(next.curves[k].last() == count_of(next.totals, k) as i64);
    }
    lemma_sum_equal(q, lasts, totals);
    if none_negative(next) && all_lines(next, c) <= i64::MAX {
        lemma_total_lines_exact(next, c);
    }
    assert forall|d: Category| d != Category::Sha implies wrap(#[trigger] all_lines(next, d))
        == wrap(all_lines(next, c)) by {
        lemma_total_lines(next, d);
        assert(wrap(total_of(next.totals, c)) == wrap(total_of(next.totals, d)));
    }
}

/// What is counted of a file of a commit has curves, if all its lines come from
/// known commits.
pub proof fn lemma_histogram_drawn(
    h: &KeyMap<i64>,
    hs: Seq<Hunk>,
    tree: Seq<Entry>,
    e: int,
    cohorts: Map<Seq<char>, String>,
    commits: Map<Seq<char>, CommitMeta>,
    keys: Set<Key>,
)
    requires
        0 <= e < tree.len(),
        is_histogram(h, hs, tree[e].path, cohorts, commits),
        forall|i: int|
            0 <= i < hs.len() ==> commits.contains_key((#[trigger] hs[i]).0)
                && cohorts.contains_key(hs[i].0),
        commit_keys(commits, cohorts).subset_of(keys),
    ensures
        all_drawn(h@, keys.union(tree_keys(tree))),
{
    let path = tree[e].path;
    assert forall|k: Key| #[trigger] h@.contains_key(k) && k.0 != Category::Sha implies keys.union(
        tree_keys(tree),
    ).contains(k) by {
        let p = sources(k, path, cohorts, commits);
        assert(any_from(hs, p));
        let i = choose|i: int| 0 <= i < hs.len() && p((#[trigger] hs[i]).0);
        let sha = hs[i].0;
        assert(counts_for(k, sha, path, cohorts, commits));
        if k.0 == Category::Ext || k.0 == Category::Dir {
            assert(is_tree_key(tree[e], k));
            assert(tree_keys(tree).contains(k));
        } else {
            assert(is_commit_key(sha, k, commits, cohorts));
            assert(commit_keys(commits, cohorts).contains(k));
        }
    }
}

} // verus!
