//! What an analysis knows after some commits, and how a commit changes it.

use vstd::prelude::*;

use crate::count::{
    lemma_sum_concat, lemma_sum_over, lemma_sum_push, lemma_sum_zero, lemma_wrap_add,
    lemma_wrap_fits, listing, lists, sum, wrap,
};
use crate::git::Entry;
use crate::path::{dir_of, ext_of};
use crate::tally::{count_of, merged, Category, Key};

verus! {

/// A path and the counts of its file, by key.
pub type Blamed = (Seq<char>, Map<Key, i64>);

/// What is known after some commits.
#[verifier::ext_equal]
pub struct State {
    /// The content of each file of the last commit.
    pub files: Map<Seq<char>, Seq<char>>,
    /// The counts of the files of the last commit, as far as they were counted.
    pub hists: Map<Seq<char>, Map<Key, i64>>,
    /// The counts of all files together.
    pub totals: Map<Key, i64>,
    /// The keys that have a curve.
    pub keys: Set<Key>,
    /// For each key, its count at each commit.
    pub curves: Map<Key, Seq<i64>>,
    /// For each commit, the time and number of its lines at each later commit.
    pub history: Map<Seq<char>, Seq<(i64, i64)>>,
    /// The times of the commits, as texts.
    pub stamps: Seq<Seq<char>>,
}

/// The counts of a file; none if it was never counted.
pub open spec fn hist_of(hists: Map<Seq<char>, Map<Key, i64>>, path: Seq<char>) -> Map<Key, i64> {
    if hists.contains_key(path) {
        hists[path]
    } else {
        Map::empty()
    }
}

/// What each file counts for a key.
pub open spec fn file_counts(hists: Map<Seq<char>, Map<Key, i64>>, k: Key) -> spec_fn(
    Seq<char>,
) -> int {
    |path: Seq<char>| count_of(hist_of(hists, path), k)
}

/// What each result counts for a key.
pub open spec fn result_counts(k: Key) -> spec_fn(Blamed) -> int {
    |r: Blamed| count_of(r.1, k)
}

/// The totals without what the files at `paths` count, each as often as it is
/// listed.
pub open spec fn lowered(
    totals: Map<Key, i64>,
    hists: Map<Seq<char>, Map<Key, i64>>,
    paths: Seq<Seq<char>>,
) -> Map<Key, i64> {
    Map::new(
        |k: Key|
            totals.contains_key(k) || exists|i: int|
                0 <= i < paths.len() && hist_of(hists, #[trigger] paths[i]).contains_key(k),
        |k: Key| wrap(count_of(totals, k) - sum(paths, file_counts(hists, k))),
    )
}

/// The counts of files, once those at the paths `gone` count nothing.
pub open spec fn forgotten(
    hists: Map<Seq<char>, Map<Key, i64>>,
    gone: Set<Seq<char>>,
) -> Map<Seq<char>, Map<Key, i64>> {
    Map::new(
        |p: Seq<char>| hists.contains_key(p),
        |p: Seq<char>|
            if gone.contains(p) {
                Map::empty()
            } else {
                hists[p]
            },
    )
}

/// The totals with what `results` count.
pub open spec fn raised(totals: Map<Key, i64>, results: Seq<Blamed>) -> Map<Key, i64> {
    Map::new(
        |k: Key|
            totals.contains_key(k) || exists|i: int|
                0 <= i < results.len() && (#[trigger] results[i]).1.contains_key(k),
        |k: Key| wrap(count_of(totals, k) + sum(results, result_counts(k))),
    )
}

/// The files of a commit; of two entries for a path the last counts.
pub open spec fn files_of(tree: Seq<Entry>) -> Map<Seq<char>, Seq<char>>
    decreases tree.len(),
{
    if tree.len() == 0 {
        Map::empty()
    } else {
        files_of(tree.drop_last()).insert(tree.last().path, tree.last().blob_sha)
    }
}

/// Whether an entry has another content than its file had before.
pub open spec fn is_changed(files: Map<Seq<char>, Seq<char>>) -> spec_fn(Entry) -> bool {
    |e: Entry| files.contains_key(e.path) && files[e.path] != e.blob_sha
}

/// Whether an entry has to be counted: its file is new or has changed.
pub open spec fn is_stale(files: Map<Seq<char>, Seq<char>>) -> spec_fn(Entry) -> bool {
    |e: Entry| !files.contains_key(e.path) || files[e.path] != e.blob_sha
}

pub open spec fn path_of() -> spec_fn(Entry) -> Seq<char> {
    |e: Entry| e.path
}

/// Whether any of some entries gives a file another content than it had before.
pub open spec fn any_changes(
    files: Map<Seq<char>, Seq<char>>,
    tree: Seq<Entry>,
    path: Seq<char>,
) -> bool {
    exists|i: int|
        0 <= i < tree.len() && is_changed(files)(#[trigger] tree[i]) && tree[i].path == path
}

pub proof fn lemma_changes_push(files: Map<Seq<char>, Seq<char>>, tree: Seq<Entry>, e: Entry)
    ensures
        forall|p: Seq<char>| #[trigger]
            any_changes(files, tree.push(e), p) <==> any_changes(files, tree, p) || (is_changed(
                files,
            )(e) && e.path == p),
{
    let t = tree.push(e);
    assert forall|p: Seq<char>| #[trigger] any_changes(files, t, p) <==> any_changes(
        files,
        tree,
        p,
    ) || (is_changed(files)(e) && e.path == p) by {
        if any_changes(files, t, p) {
            let i = choose|i: int|
                0 <= i < t.len() && is_changed(files)(#[trigger] t[i]) && t[i].path == p;
            if i < tree.len() {
                assert(is_changed(files)(tree[i]));
            }
        }
        if any_changes(files, tree, p) {
            let i = choose|i: int|
                0 <= i < tree.len() && is_changed(files)(#[trigger] tree[i]) && tree[i].path == p;
            assert(is_changed(files)(t[i]));
        }
        assert(t[tree.len() as int] == e);
    }
}

/// The paths of the files that changed, one for each entry that changes its file.
pub open spec fn changed_paths(files: Map<Seq<char>, Seq<char>>, tree: Seq<Entry>) -> Seq<
    Seq<char>,
> {
    tree.filter(is_changed(files)).map_values(path_of())
}

/// Whether a path has no file in a commit.
pub open spec fn is_absent(tree: Seq<Entry>) -> spec_fn(Seq<char>) -> bool {
    |path: Seq<char>| !files_of(tree).contains_key(path)
}

/// The paths of the files that are no longer there.
pub open spec fn deleted(files: Map<Seq<char>, Seq<char>>, tree: Seq<Entry>) -> Set<Seq<char>> {
    files.dom().filter(is_absent(tree))
}

/// The paths whose counts a commit takes off: once for each entry that changes its
/// file, and once for each file that is no longer there.
pub open spec fn taken_off(files: Map<Seq<char>, Seq<char>>, tree: Seq<Entry>) -> Seq<Seq<char>> {
    changed_paths(files, tree) + listing(deleted(files, tree))
}

/// The paths of the files that changed or are no longer there.
pub open spec fn gone(files: Map<Seq<char>, Seq<char>>, tree: Seq<Entry>) -> Set<Seq<char>> {
    Set::new(
        |path: Seq<char>|
            files.contains_key(path) && (any_changes(files, tree, path) || !files_of(
                tree,
            ).contains_key(path)),
    )
}

/// Whether a key is the file type or the top directory of an entry.
pub open spec fn is_tree_key(e: Entry, k: Key) -> bool {
    k == (Category::Ext, ext_of(e.path)) || k == (Category::Dir, dir_of(e.path))
}

/// The file types and top directories of a commit.
pub open spec fn tree_keys(tree: Seq<Entry>) -> Set<Key> {
    Set::new(|k: Key| exists|i: int| 0 <= i < tree.len() && is_tree_key(#[trigger] tree[i], k))
}

/// The state once the files of a commit are known: what files counted that
/// changed or are gone is taken off and forgotten.
pub open spec fn begun(s: State, tree: Seq<Entry>) -> State {
    State {
        totals: lowered(s.totals, s.hists, taken_off(s.files, tree)),
        hists: forgotten(s.hists, gone(s.files, tree)),
        keys: s.keys.union(tree_keys(tree)),
        ..s
    }
}

/// The series of a key; empty if it has none.
pub open spec fn series_of<K, T>(m: Map<K, Seq<T>>, k: K) -> Seq<T> {
    if m.contains_key(k) {
        m[k]
    } else {
        Seq::empty()
    }
}

/// The counts of files, after some more were counted.
pub open spec fn stored(hists: Map<Seq<char>, Map<Key, i64>>, results: Seq<Blamed>) -> Map<
    Seq<char>,
    Map<Key, i64>,
>
    decreases results.len(),
{
    if results.len() == 0 {
        hists
    } else {
        stored(hists, results.drop_last()).insert(results.last().0, results.last().1)
    }
}

/// The curve of a key; zero at each of `n` times if it has none.
pub open spec fn curve_or_zeros<K>(curves: Map<K, Seq<i64>>, k: K, n: nat) -> Seq<i64> {
    if curves.contains_key(k) {
        curves[k]
    } else {
        Seq::new(n, |i: int| 0)
    }
}

/// The curves with the present count of each key. The curve of a key that is new
/// after `n` commits is zero at each of them.
pub open spec fn extended<K>(
    curves: Map<K, Seq<i64>>,
    keys: Set<K>,
    totals: Map<K, i64>,
    n: nat,
) -> Map<K, Seq<i64>> {
    Map::new(
        |k: K| curves.contains_key(k) || keys.contains(k),
        |k: K|
            if keys.contains(k) {
                curve_or_zeros(curves, k, n).push(count_of(totals, k) as i64)
            } else {
                curves[k]
            },
    )
}

/// The histories with the present number of lines of each commit that is counted.
pub open spec fn recorded(
    history: Map<Seq<char>, Seq<(i64, i64)>>,
    totals: Map<Key, i64>,
    ts: i64,
) -> Map<Seq<char>, Seq<(i64, i64)>> {
    Map::new(
        |sha: Seq<char>| history.contains_key(sha) || totals.contains_key((Category::Sha, sha)),
        |sha: Seq<char>|
            if totals.contains_key((Category::Sha, sha)) {
                series_of(history, sha).push((ts, totals[(Category::Sha, sha)]))
            } else {
                history[sha]
            },
    )
}

/// The state once the files of a commit are counted.
pub open spec fn finished(
    s: State,
    files: Map<Seq<char>, Seq<char>>,
    ts: i64,
    stamp: Seq<char>,
    results: Seq<Blamed>,
) -> State {
    let totals = raised(s.totals, results);
    State {
        files,
        hists: stored(s.hists, results),
        totals,
        keys: s.keys,
        curves: extended(s.curves, s.keys, totals, s.stamps.len()),
        history: recorded(s.history, totals, ts),
        stamps: s.stamps.push(stamp),
    }
}

/// The state before the first commit.
pub open spec fn initial(keys: Set<Key>) -> State {
    State {
        files: Map::empty(),
        hists: Map::empty(),
        totals: Map::empty(),
        keys,
        curves: Map::empty(),
        history: Map::empty(),
        stamps: Seq::empty(),
    }
}

pub proof fn lemma_merged_empty<K>(m: Map<K, i64>, sign: int)
    ensures
        merged(m, Map::<K, i64>::empty(), sign) == m,
{
    let r = merged(m, Map::<K, i64>::empty(), sign);
    assert forall|k: K| #[trigger] m.contains_key(k) implies r[k] == m[k] by {
        lemma_wrap_fits(m[k] as int);
        assert(sign * 0 == 0);
    }
    assert(r =~= m);
}

pub proof fn lemma_lowered_push(
    totals: Map<Key, i64>,
    hists: Map<Seq<char>, Map<Key, i64>>,
    paths: Seq<Seq<char>>,
    path: Seq<char>,
)
    ensures
        lowered(totals, hists, paths.push(path)) == merged(
            lowered(totals, hists, paths),
            hist_of(hists, path),
            -1,
        ),
{
    let a = lowered(totals, hists, paths.push(path));
    let m = lowered(totals, hists, paths);
    let b = merged(m, hist_of(hists, path), -1);
    let t = paths.push(path);
    assert forall|k: Key| #[trigger] a.contains_key(k) <==> b.contains_key(k) by {
        if a.contains_key(k) && !totals.contains_key(k) {
            let i = choose|i: int|
                0 <= i < t.len() && hist_of(hists, #[trigger] t[i]).contains_key(k);
            if i < paths.len() {
                assert(paths[i] == t[i]);
            }
        }
        if b.contains_key(k) && !totals.contains_key(k) {
            if m.contains_key(k) {
                let i = choose|i: int|
                    0 <= i < paths.len() && hist_of(hists, #[trigger] paths[i]).contains_key(k);
                assert(t[i] == paths[i]);
            } else {
                assert(t[paths.len() as int] == path);
            }
        }
    }
    assert forall|k: Key| #[trigger] a.contains_key(k) implies a[k] == b[k] by {
        let f = file_counts(hists, k);
        lemma_sum_push(paths, path, f);
        assert(a.contains_key(k) <==> b.contains_key(k));
        if m.contains_key(k) {
            lemma_wrap_add(count_of(totals, k) - sum(paths, f), -f(path));
        } else {
            lemma_uncounted(hists, paths, k);
        }
    }
    assert(a =~= b);
}

/// Files that do not count a key add nothing to it.
pub proof fn lemma_uncounted(hists: Map<Seq<char>, Map<Key, i64>>, paths: Seq<Seq<char>>, k: Key)
    requires
        forall|i: int|
            0 <= i < paths.len() ==> !hist_of(hists, #[trigger] paths[i]).contains_key(k),
    ensures
        sum(paths, file_counts(hists, k)) == 0,
{
    let f = file_counts(hists, k);
    assert forall|i: int| 0 <= i < paths.len() implies #[trigger] f(paths[i]) == 0 by {
        assert(!hist_of(hists, paths[i]).contains_key(k));
    }
    lemma_sum_zero(paths, f);
}

pub proof fn lemma_raised_push(totals: Map<Key, i64>, results: Seq<Blamed>, r: Blamed)
    ensures
        raised(totals, results.push(r)) == merged(raised(totals, results), r.1, 1),
{
    let a = raised(totals, results.push(r));
    let m = raised(totals, results);
    let b = merged(m, r.1, 1);
    let t = results.push(r);
    assert forall|k: Key| #[trigger] a.contains_key(k) <==> b.contains_key(k) by {
        if a.contains_key(k) && !totals.contains_key(k) {
            let i = choose|i: int| 0 <= i < t.len() && (#[trigger] t[i]).1.contains_key(k);
            if i < results.len() {
                assert(results[i] == t[i]);
            }
        }
        if b.contains_key(k) && !totals.contains_key(k) {
            if m.contains_key(k) {
                let i = choose|i: int|
                    0 <= i < results.len() && (#[trigger] results[i]).1.contains_key(k);
                assert(t[i] == results[i]);
            } else {
                assert(t[results.len() as int] == r);
            }
        }
    }
    assert forall|k: Key| #[trigger] a.contains_key(k) implies a[k] == b[k] by {
        let f = result_counts(k);
        lemma_sum_push(results, r, f);
        assert(a.contains_key(k) <==> b.contains_key(k));
        if m.contains_key(k) {
            lemma_wrap_add(count_of(totals, k) + sum(results, f), f(r));
        } else {
            assert forall|i: int| 0 <= i < results.len() implies #[trigger] f(results[i]) == 0 by {
                assert(!results[i].1.contains_key(k));
            }
            lemma_sum_zero(results, f);
        }
    }
    assert(a =~= b);
}

pub proof fn lemma_lowered_none(totals: Map<Key, i64>, hists: Map<Seq<char>, Map<Key, i64>>)
    ensures
        lowered(totals, hists, Seq::empty()) == totals,
{
    let none = Seq::<Seq<char>>::empty();
    let r = lowered(totals, hists, none);
    assert forall|k: Key| #[trigger] totals.contains_key(k) implies r[k] == totals[k] by {
        lemma_wrap_fits(totals[k] as int);
    }
    assert(r =~= totals);
}

pub proof fn lemma_raised_none(totals: Map<Key, i64>)
    ensures
        raised(totals, Seq::empty()) == totals,
{
    let q = raised(totals, Seq::empty());
    assert forall|k: Key| #[trigger] totals.contains_key(k) implies q[k] == totals[k] by {
        lemma_wrap_fits(totals[k] as int);
    }
    assert(q =~= totals);
}

/// Files can be taken off in any order.
pub proof fn lemma_lowered_order(
    totals: Map<Key, i64>,
    hists: Map<Seq<char>, Map<Key, i64>>,
    paths: Seq<Seq<char>>,
    q: Seq<Seq<char>>,
    r: Seq<Seq<char>>,
    set: Set<Seq<char>>,
)
    requires
        lists(q, set),
        lists(r, set),
    ensures
        lowered(totals, hists, paths + q) == lowered(totals, hists, paths + r),
{
    let a = lowered(totals, hists, paths + q);
    let b = lowered(totals, hists, paths + r);
    assert forall|k: Key| a.contains_key(k) implies #[trigger] b.contains_key(k) by {
        lemma_lowered_dom(totals, hists, paths, q, r, set, k);
    }
    assert forall|k: Key| b.contains_key(k) implies #[trigger] a.contains_key(k) by {
        lemma_lowered_dom(totals, hists, paths, r, q, set, k);
    }
    assert forall|k: Key| #[trigger] a.contains_key(k) implies a[k] == b[k] by {
        let f = file_counts(hists, k);
        lemma_sum_concat(paths, q, f);
        lemma_sum_concat(paths, r, f);
        lemma_sum_over(q, set, f);
        lemma_sum_over(r, set, f);
        assert(b.contains_key(k));
    }
    assert(a =~= b);
}

proof fn lemma_lowered_dom(
    totals: Map<Key, i64>,
    hists: Map<Seq<char>, Map<Key, i64>>,
    paths: Seq<Seq<char>>,
    q: Seq<Seq<char>>,
    r: Seq<Seq<char>>,
    set: Set<Seq<char>>,
    k: Key,
)
    requires
        lists(q, set),
        lists(r, set),
        lowered(totals, hists, paths + q).contains_key(k),
    ensures
        lowered(totals, hists, paths + r).contains_key(k),
{
    if !totals.contains_key(k) {
        let t = paths + q;
        let u = paths + r;
        let i = choose|i: int| 0 <= i < t.len() && hist_of(hists, #[trigger] t[i]).contains_key(k);
        if i < paths.len() {
            assert(u[i] == t[i]);
        } else {
            assert(q[i - paths.len()] == t[i]);
            assert(q.contains(t[i]));
            assert(set.contains(t[i]));
            assert(r.contains(t[i]));
            let j = choose|j: int| 0 <= j < r.len() && r[j] == t[i];
            assert(u[paths.len() + j] == t[i]);
        }
    }
}

/// Whether a file has to be counted, and whether its counts are taken off, is told
/// entry by entry: it is counted if it is new or has another content than before,
/// and taken off in the latter case.
pub proof fn lemma_entries_one_by_one(
    files: Map<Seq<char>, Seq<char>>,
    tree: Seq<Entry>,
    e: Entry,
)
    ensures
        tree.push(e).filter(is_stale(files)) == if files.contains_key(e.path) && files[e.path]
            == e.blob_sha {
            tree.filter(is_stale(files))
        } else {
            tree.filter(is_stale(files)).push(e)
        },
        changed_paths(files, tree.push(e)) == if files.contains_key(e.path) && files[e.path]
            != e.blob_sha {
            changed_paths(files, tree).push(e.path)
        } else {
            changed_paths(files, tree)
        },
        files_of(tree.push(e)) == files_of(tree).insert(e.path, e.blob_sha),
        Seq::<Entry>::empty().filter(is_stale(files)).len() == 0,
        changed_paths(files, Seq::<Entry>::empty()).len() == 0,
        files_of(Seq::<Entry>::empty()) == Map::<Seq<char>, Seq<char>>::empty(),
{
    reveal(Seq::filter);
    tree.lemma_filter_push(e, is_stale(files));
    tree.lemma_filter_push(e, is_changed(files));
    assert(tree.push(e).drop_last() =~= tree);
    assert(changed_paths(files, tree.push(e)) =~= if files.contains_key(e.path) && files[e.path]
        != e.blob_sha {
        changed_paths(files, tree).push(e.path)
    } else {
        changed_paths(files, tree)
    });
}

/// Taken off and forgotten is what the files counted that are no longer there, or
/// that some entry gives another content.
pub proof fn lemma_what_is_gone(files: Map<Seq<char>, Seq<char>>, tree: Seq<Entry>, p: Seq<char>)
    ensures
        deleted(files, tree).contains(p) <==> files.contains_key(p) && forall|i: int|
            0 <= i < tree.len() ==> (#[trigger] tree[i]).path != p,
        gone(files, tree).contains(p) <==> files.contains_key(p) && ((forall|i: int|
            0 <= i < tree.len() ==> (#[trigger] tree[i]).path != p) || exists|i: int|
            0 <= i < tree.len() && (#[trigger] tree[i]).path == p && tree[i].blob_sha != files[p]),
{
    lemma_listed_paths(tree, p);
    if any_changes(files, tree, p) {
        let i = choose|i: int|
            0 <= i < tree.len() && is_changed(files)(#[trigger] tree[i]) && tree[i].path == p;
        assert(tree[i].path == p && tree[i].blob_sha != files[p]);
    }
    if files.contains_key(p) && exists|i: int|
        0 <= i < tree.len() && (#[trigger] tree[i]).path == p && tree[i].blob_sha != files[p] {
        let i = choose|i: int|
            0 <= i < tree.len() && (#[trigger] tree[i]).path == p && tree[i].blob_sha != files[p];
        assert(is_changed(files)(tree[i]));
    }
}

proof fn lemma_listed_paths(tree: Seq<Entry>, p: Seq<char>)
    ensures
        files_of(tree).contains_key(p) <==> exists|i: int|
            0 <= i < tree.len() && (#[trigger] tree[i]).path == p,
    decreases tree.len(),
{
    if tree.len() > 0 {
        let t = tree.drop_last();
        lemma_listed_paths(t, p);
        if files_of(t).contains_key(p) {
            let i = choose|i: int| 0 <= i < t.len() && (#[trigger] t[i]).path == p;
            assert(tree[i].path == p);
        }
        if tree.last().path == p {
            assert(tree[tree.len() - 1].path == p);
        }
        if exists|i: int| 0 <= i < tree.len() && (#[trigger] tree[i]).path == p {
            let i = choose|i: int| 0 <= i < tree.len() && (#[trigger] tree[i]).path == p;
            if i < t.len() {
                assert(t[i].path == p);
            }
        }
    }
}

/// A commit brings a curve for each file type and top directory of its files.
pub proof fn lemma_tree_keys(tree: Seq<Entry>, label: Seq<char>)
    ensures
        tree_keys(tree).contains((Category::Ext, label)) <==> exists|i: int|
            0 <= i < tree.len() && ext_of((#[trigger] tree[i]).path) == label,
        tree_keys(tree).contains((Category::Dir, label)) <==> exists|i: int|
            0 <= i < tree.len() && dir_of((#[trigger] tree[i]).path) == label,
        !tree_keys(tree).contains((Category::Cohort, label)),
        !tree_keys(tree).contains((Category::Author, label)),
        !tree_keys(tree).contains((Category::Domain, label)),
        !tree_keys(tree).contains((Category::Sha, label)),
{
    assert forall|i: int| 0 <= i < tree.len() implies tree_keys(tree).contains(
        (Category::Ext, ext_of((#[trigger] tree[i]).path)),
    ) && tree_keys(tree).contains((Category::Dir, dir_of(tree[i].path))) by {
        assert(is_tree_key(tree[i], (Category::Ext, ext_of(tree[i].path))));
        assert(is_tree_key(tree[i], (Category::Dir, dir_of(tree[i].path))));
    }
}

/// A commit leaves its time and its files, and neither drops a curve nor changes
/// what a curve or a history holds of the commits before.
pub proof fn lemma_past_stays(
    s: State,
    tree: Seq<Entry>,
    ts: i64,
    stamp: Seq<char>,
    results: Seq<Blamed>,
    k: Key,
    sha: Seq<char>,
)
    ensures
        ({
            let next = finished(begun(s, tree), files_of(tree), ts, stamp, results);
            &&& next.stamps == s.stamps.push(stamp)
            &&& next.files == files_of(tree)
            &&& next.keys == s.keys.union(tree_keys(tree))
            &&& s.curves.contains_key(k) ==> next.curves.contains_key(k)
                && s.curves[k].is_prefix_of(next.curves[k])
            &&& s.history.contains_key(sha) ==> next.history.contains_key(sha)
                && s.history[sha].is_prefix_of(next.history[sha])
            &&& next.history.contains_key(sha) && !s.history.contains_key(sha) ==>
                next.history[sha] == seq![(ts, next.totals[(Category::Sha, sha)])]
        }),
{
    let next = finished(begun(s, tree), files_of(tree), ts, stamp, results);
    if next.history.contains_key(sha) && !s.history.contains_key(sha) {
        assert(next.history[sha] =~= seq![(ts, next.totals[(Category::Sha, sha)])]);
    }
}

} // verus!
