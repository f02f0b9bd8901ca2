//! Going through the commits of a repository, one by one.

use vstd::prelude::*;

use crate::count::{lemma_lists_filter, lemma_sum_over, listing, lists};
use crate::curves::{dump_curves, is_dump, zeros, CurvesOut};
use crate::git::{entries, CommitMeta, Entry, TreeEntry};
use crate::path::{domain_of, email_domain, file_ext, top_dir};
use crate::state::{
    any_changes, begun, changed_paths, curve_or_zeros, deleted, extended, files_of, finished,
    forgotten, gone, hist_of, initial, is_absent, is_changed, is_stale, is_tree_key,
    lemma_changes_push, lemma_lowered_none, lemma_lowered_order, lemma_lowered_push,
    lemma_merged_empty, lemma_raised_none, lemma_raised_push, lowered, raised, recorded, series_of,
    stored, Blamed, State,
};
use crate::table::{append, contents, Table};
use crate::tally::{count_of, Category, Key, KeyMap};
use crate::text::texts;

verus! {

/// The course of an analysis: what is known after some commits.
pub struct Analysis {
    files: Table<String>,
    hists: Table<KeyMap<i64>>,
    totals: KeyMap<i64>,
    keys: KeyMap<()>,
    curves: KeyMap<Vec<i64>>,
    history: Table<Vec<(i64, i64)>>,
    stamps: Vec<String>,
}

/// The contents of files, by path.
pub open spec fn file_map(t: Map<Seq<char>, String>) -> Map<Seq<char>, Seq<char>> {
    t.map_values(|s: String| s@)
}

/// The counts of files, by path.
pub open spec fn hist_map(t: Map<Seq<char>, KeyMap<i64>>) -> Map<Seq<char>, Map<Key, i64>> {
    t.map_values(|h: KeyMap<i64>| h@)
}

/// The keys of a set of keys.
pub open spec fn key_set(t: Map<Key, ()>) -> Set<Key> {
    Set::new(|k: Key| t.contains_key(k))
}

/// The curves, by key.
pub open spec fn curve_map(t: Map<Key, Vec<i64>>) -> Map<Key, Seq<i64>> {
    t.map_values(|v: Vec<i64>| v@)
}

/// The counts of some files.
pub open spec fn blamed(v: Seq<(String, KeyMap<i64>)>) -> Seq<Blamed> {
    Seq::new(v.len(), |i: int| (v[i].0@, v[i].1@))
}

impl View for Analysis {
    type V = State;

    closed spec fn view(&self) -> State {
        State {
            files: file_map(self.files@),
            hists: hist_map(self.hists@),
            totals: self.totals@,
            keys: key_set(self.keys@),
            curves: curve_map(self.curves@),
            history: contents(self.history@),
            stamps: texts(self.stamps@),
        }
    }
}

/// A commit whose files are known but not yet counted.
pub struct Pending {
    files: Table<String>,
    check: Vec<TreeEntry>,
}

impl Pending {
    pub closed spec fn wf(&self) -> bool {
        self.files.wf()
    }

    /// The files of the commit.
    pub closed spec fn files(&self) -> Map<Seq<char>, Seq<char>> {
        file_map(self.files@)
    }

    /// The files of the commit that have to be counted.
    pub closed spec fn to_check(&self) -> Seq<Entry> {
        entries(self.check@)
    }

    /// The files of the commit that have to be counted.
    pub fn check(&self) -> (v: &Vec<TreeEntry>)
        ensures
            entries(v@) == self.to_check(),
    {
        &self.check
    }
}

/// Whether a key stands for the cohort, the author or the domain of a commit.
pub open spec fn is_commit_key(
    sha: Seq<char>,
    k: Key,
    commits: Map<Seq<char>, CommitMeta>,
    cohorts: Map<Seq<char>, String>,
) -> bool {
    ||| k == (Category::Cohort, cohorts[sha]@)
    ||| k == (Category::Author, commits[sha].author@)
    ||| k == (Category::Domain, domain_of(commits[sha].email@))
}

/// The cohorts, authors and domains of commits.
pub open spec fn commit_keys(
    commits: Map<Seq<char>, CommitMeta>,
    cohorts: Map<Seq<char>, String>,
) -> Set<Key> {
    Set::new(
        |k: Key|
            exists|sha: Seq<char>|
                commits.contains_key(sha) && #[trigger] is_commit_key(sha, k, commits, cohorts),
    )
}

impl Analysis {
    pub closed spec fn wf(&self) -> bool {
        &&& self.files.wf()
        &&& self.hists.wf()
        &&& forall|p: Seq<char>| #[trigger] self.hists@.contains_key(p) ==> self.hists@[p].wf()
        &&& self.totals.wf()
        &&& self.keys.wf()
        &&& self.curves.wf()
        &&& self.history.wf()
    }

    /// Starts an analysis of commits whose cohorts are known.
    pub fn new(commits: &Table<CommitMeta>, cohorts: &Table<String>) -> (a: Self)
        requires
            commits.wf(),
            cohorts.wf(),
            forall|sha: Seq<char>| #[trigger]
                commits@.contains_key(sha) ==> cohorts@.contains_key(sha),
        ensures
            a.wf(),
            a@ == initial(commit_keys(commits@, cohorts@)),
    {
        let mut keys: KeyMap<()> = KeyMap::new();
        let mut i: usize = 0;
        while i < commits.len()
            invariant
                commits.wf(),
                cohorts.wf(),
                forall|sha: Seq<char>| #[trigger]
                    commits@.contains_key(sha) ==> cohorts@.contains_key(sha),
                i <= commits.keys().len(),
                keys.wf(),
                forall|k: Key| #[trigger]
                    keys@.contains_key(k) <==> exists|j: int|
                        0 <= j < i && is_commit_key(
                            #[trigger] commits.keys()[j],
                            k,
                            commits@,
                            cohorts@,
                        ),
            decreases commits.keys().len() - i,
        {
            proof {
                commits.lemma_keys();
            }
            let sha = commits.name(i);
            let meta = commits.value(i);
            let ghost earlier = keys@;
            assert(commits@.contains_key(commits.keys()[i as int]));
            if let Some(cohort) = cohorts.get(sha.as_str()) {
                keys.insert(Category::Cohort, cohort.clone(), ());
            }
            keys.insert(Category::Author, meta.author.clone(), ());
            keys.insert(Category::Domain, email_domain(meta.email.as_str()), ());
            proof {
                assert forall|k: Key| #[trigger] keys@.contains_key(k) <==> exists|j: int|
                    0 <= j < i + 1 && is_commit_key(
                        #[trigger] commits.keys()[j],
                        k,
                        commits@,
                        cohorts@,
                    ) by {
                    assert(keys@.contains_key(k) <==> earlier.contains_key(k) || is_commit_key(
                        commits.keys()[i as int],
                        k,
                        commits@,
                        cohorts@,
                    ));
                    if earlier.contains_key(k) {
                        let j = choose|j: int|
                            0 <= j < i && is_commit_key(
                                #[trigger] commits.keys()[j],
                                k,
                                commits@,
                                cohorts@,
                            );
                        assert(0 <= j < i + 1);
                    }
                }
            }
            i = i + 1;
        }
        let a = Analysis {
            files: Table::new(),
            hists: Table::new(),
            totals: KeyMap::new(),
            keys,
            curves: KeyMap::new(),
            history: Table::new(),
            stamps: Vec::new(),
        };
        proof {
            commits.lemma_keys();
            assert forall|k: Key| #[trigger] key_set(keys@).contains(k) <==> commit_keys(
                commits@,
                cohorts@,
            ).contains(k) by {
                if keys@.contains_key(k) {
                    let j = choose|j: int|
                        0 <= j < i && is_commit_key(
                            #[trigger] commits.keys()[j],
                            k,
                            commits@,
                            cohorts@,
                        );
                    assert(commits@.contains_key(commits.keys()[j]));
                }
                if commit_keys(commits@, cohorts@).contains(k) {
                    let sha = choose|sha: Seq<char>|
                        commits@.contains_key(sha) && #[trigger] is_commit_key(
                            sha,
                            k,
                            commits@,
                            cohorts@,
                        );
                    assert(commits.keys().contains(sha));
                    let j = choose|j: int| 0 <= j < commits.keys().len() && commits.keys()[j] == sha;
                    assert(is_commit_key(commits.keys()[j], k, commits@, cohorts@));
                }
            }
            let s = initial(commit_keys(commits@, cohorts@));
            assert(a@.files =~= s.files);
            assert(a@.hists =~= s.hists);
            assert(a@.totals =~= s.totals);
            assert(a@.keys =~= s.keys);
            assert(a@.curves =~= s.curves);
            assert(a@.history =~= s.history);
            assert(a@.stamps =~= s.stamps);
            assert(a@ =~= s);
        }
        a
    }

    /// Takes off what the file at `path` counts.
    fn take_off(
        &mut self,
        path: &str,
        Ghost(start): Ghost<Map<Key, i64>>,
        Ghost(done): Ghost<Seq<Seq<char>>>,
    )
        requires
            old(self).wf(),
            old(self).totals@ == lowered(start, hist_map(old(self).hists@), done),
        ensures
            final(self).wf(),
            final(self).totals@ == lowered(start, hist_map(old(self).hists@), done.push(path@)),
            final(self).files == old(self).files,
            final(self).hists == old(self).hists,
            final(self).keys == old(self).keys,
            final(self).curves == old(self).curves,
            final(self).history == old(self).history,
            final(self).stamps == old(self).stamps,
    {
        let ghost hists = hist_map(self.hists@);
        match self.hists.get(path) {
            Some(h) => {
                assert(hist_of(hists, path@) == h@);
                self.totals.merge(h, true);
            },
            None => {
                proof {
                    assert(hist_of(hists, path@) == Map::<Key, i64>::empty());
                    lemma_merged_empty(self.totals@, -1);
                }
            },
        }
        proof {
            lemma_lowered_push(start, hists, done, path@);
        }
    }

    /// Forgets what the files count whose paths are listed.
    fn forget(&mut self, paths: &Table<()>)
        requires
            old(self).wf(),
            paths.wf(),
        ensures
            final(self).wf(),
            hist_map(final(self).hists@) == forgotten(hist_map(old(self).hists@), paths@.dom()),
            final(self).files == old(self).files,
            final(self).totals == old(self).totals,
            final(self).keys == old(self).keys,
            final(self).curves == old(self).curves,
            final(self).history == old(self).history,
            final(self).stamps == old(self).stamps,
    {
        let ghost hists = hist_map(self.hists@);
        let ghost names = paths.keys();
        let mut i: usize = 0;
        proof {
            paths.lemma_keys();
            assert(names.take(0).to_set() =~= Set::<Seq<char>>::empty());
            assert(forgotten(hists, names.take(0).to_set()) =~= hists);
        }
        while i < paths.len()
            invariant
                i <= names.len(),
                paths.wf(),
                names == paths.keys(),
                self.wf(),
                hist_map(self.hists@) == forgotten(hists, names.take(i as int).to_set()),
                self.files == old(self).files,
                self.totals == old(self).totals,
                self.keys == old(self).keys,
                self.curves == old(self).curves,
                self.history == old(self).history,
                self.stamps == old(self).stamps,
            decreases names.len() - i,
        {
            let path = paths.name(i);
            let ghost now = hist_map(self.hists@);
            let ghost done = names.take(i as int);
            proof {
                assert(names.take(i + 1) =~= done.push(path@));
                lemma_contains_push(done, path@);
                assert forall|p: Seq<char>| #[trigger] names.take(i + 1).to_set().contains(p)
                    <==> done.to_set().contains(p) || p == path@ by {
                    assert(done.push(path@).contains(p) <==> done.contains(p) || p == path@);
                }
                assert(now.contains_key(path@) <==> self.hists@.contains_key(path@));
            }
            if let Some(at) = self.hists.position(path.as_str()) {
                *self.hists.value_mut(at) = KeyMap::new();
                assert(hist_map(self.hists@) =~= now.insert(path@, Map::empty()));
            }
            assert(hist_map(self.hists@) =~= forgotten(hists, names.take(i + 1).to_set()));
            i = i + 1;
        }
        proof {
            assert(names.take(i as int) =~= names);
            assert(names.to_set() =~= paths@.dom()) by {
                assert forall|p: Seq<char>| #[trigger] names.to_set().contains(p)
                    <==> paths@.dom().contains(p) by {
                    assert(names.contains(p) <==> paths@.contains_key(p));
                }
            }
        }
    }

    /// Takes in the files of the next commit. Says which of them are new or
    /// have changed, takes off what changed and deleted files counted, once for
    /// each changed entry and each deleted file, and forgets it.
    pub fn begin_commit(&mut self, tree: &Vec<TreeEntry>) -> (pending: Pending)
        requires
            old(self).wf(),
        ensures
            final(self).wf(),
            final(self)@ == begun(old(self)@, entries(tree@)),
            pending.wf(),
            pending.files() == files_of(entries(tree@)),
            pending.to_check() == entries(tree@).filter(is_stale(old(self)@.files)),
    {
        let ghost all = entries(tree@);
        let ghost s = self@;
        let mut files: Table<String> = Table::new();
        let mut check: Vec<TreeEntry> = Vec::new();
        let mut dropped: Table<()> = Table::new();
        let mut i: usize = 0;
        proof {
            reveal(Seq::filter);
            assert(all.take(0) =~= Seq::<Entry>::empty());
            assert(entries(check@) =~= all.take(0).filter(is_stale(s.files)));
            assert(changed_paths(s.files, all.take(0)) =~= Seq::<Seq<char>>::empty());
            lemma_lowered_none(s.totals, s.hists);
            assert(file_map(files@) =~= Map::empty());
        }
        while i < tree.len()
            invariant
                i <= tree@.len(),
                all == entries(tree@),
                s == old(self)@,
                self.wf(),
                files.wf(),
                dropped.wf(),
                self.files == old(self).files,
                self.hists == old(self).hists,
                self.curves == old(self).curves,
                self.history == old(self).history,
                self.stamps == old(self).stamps,
                file_map(files@) == files_of(all.take(i as int)),
                entries(check@) == all.take(i as int).filter(is_stale(s.files)),
                self.totals@ == lowered(
                    s.totals,
                    s.hists,
                    changed_paths(s.files, all.take(i as int)),
                ),
                forall|p: Seq<char>| #[trigger]
                    dropped@.contains_key(p) <==> s.files.contains_key(p) && any_changes(
                        s.files,
                        all.take(i as int),
                        p,
                    ),
                forall|k: Key| #[trigger]
                    self.keys@.contains_key(k) <==> s.keys.contains(k) || exists|j: int|
                        0 <= j < i && is_tree_key(#[trigger] all[j], k),
            decreases tree@.len() - i,
        {
            let entry = &tree[i];
            let ghost earlier = all.take(i as int);
            let ghost next = all.take(i + 1);
            let ghost e = entry@;
            let ghost keys_before = self.keys@;
            let ghost files_before = files@;
            let ghost check_before = check@;
            proof {
                assert(next =~= earlier.push(e));
                assert(next.drop_last() =~= earlier);
                earlier.lemma_filter_push(e, is_stale(s.files));
                earlier.lemma_filter_push(e, is_changed(s.files));
                lemma_changes_push(s.files, earlier, e);
            }
            self.keys.insert(Category::Ext, file_ext(entry.path.as_str()), ());
            self.keys.insert(Category::Dir, top_dir(entry.path.as_str()), ());
            proof {
                assert forall|k: Key| #[trigger]
                    self.keys@.contains_key(k) <==> s.keys.contains(k) || exists|j: int|
                        0 <= j < i + 1 && is_tree_key(#[trigger] all[j], k) by {
                    assert(self.keys@.contains_key(k) <==> keys_before.contains_key(k)
                        || is_tree_key(all[i as int], k));
                    if keys_before.contains_key(k) && !s.keys.contains(k) {
                        let j = choose|j: int| 0 <= j < i && is_tree_key(#[trigger] all[j], k);
                        assert(0 <= j < i + 1);
                    }
                }
            }
            files.insert(entry.path.clone(), entry.blob_sha.clone());
            assert(file_map(files@) =~= file_map(files_before).insert(e.path, e.blob_sha));
            let ghost off = changed_paths(s.files, earlier);
            let (known, same) = match self.files.get(entry.path.as_str()) {
                Some(sha) => (true, *sha == entry.blob_sha),
                None => (false, false),
            };
            if known && !same {
                self.take_off(entry.path.as_str(), Ghost(s.totals), Ghost(off));
                dropped.insert(entry.path.clone(), ());
                assert(changed_paths(s.files, next) =~= off.push(e.path));
            } else {
                assert(changed_paths(s.files, next) =~= off);
            }
            if !same {
                check.push(
                    TreeEntry { path: entry.path.clone(), blob_sha: entry.blob_sha.clone() },
                );
                assert(entries(check@) =~= entries(check_before).push(e));
            }
            i = i + 1;
        }
        assert(all.take(all.len() as int) =~= all);
        let ghost off = changed_paths(s.files, all);
        let ghost absent = is_absent(all);
        let mut j: usize = 0;
        proof {
            reveal(Seq::filter);
            assert(self.files.keys().take(0) =~= Seq::<Seq<char>>::empty());
            assert(off + self.files.keys().take(0).filter(absent) =~= off);
        }
        while j < self.files.len()
            invariant
                j <= self.files.keys().len(),
                s == old(self)@,
                self.wf(),
                files.wf(),
                dropped.wf(),
                file_map(files@) == files_of(all),
                absent == is_absent(all),
                self.files == old(self).files,
                self.hists == old(self).hists,
                self.curves == old(self).curves,
                self.history == old(self).history,
                self.stamps == old(self).stamps,
                self.totals@ == lowered(
                    s.totals,
                    s.hists,
                    off + self.files.keys().take(j as int).filter(absent),
                ),
                forall|p: Seq<char>| #[trigger]
                    dropped@.contains_key(p) <==> s.files.contains_key(p) && (any_changes(
                        s.files,
                        all,
                        p,
                    ) || (!files_of(all).contains_key(p) && self.files.keys().take(
                        j as int,
                    ).contains(p))),
                forall|k: Key| #[trigger]
                    self.keys@.contains_key(k) <==> s.keys.contains(k) || exists|m: int|
                        0 <= m < all.len() && is_tree_key(#[trigger] all[m], k),
            decreases self.files.keys().len() - j,
        {
            let path = self.files.name(j).clone();
            let ghost done = self.files.keys().take(j as int);
            proof {
                self.files.lemma_keys();
                let names = self.files.keys();
                assert(names.take(j + 1) =~= done.push(path@));
                lemma_contains_push(done, path@);
                done.lemma_filter_push(path@, absent);
                assert(files@.contains_key(path@) <==> file_map(files@).contains_key(path@));
                assert(self.files@.contains_key(names[j as int]));
                assert(s.files.contains_key(path@));
            }
            if !files.contains(path.as_str()) {
                self.take_off(path.as_str(), Ghost(s.totals), Ghost(off + done.filter(absent)));
                assert((off + done.filter(absent)).push(path@) =~= off + done.filter(absent).push(
                    path@,
                ));
                dropped.insert(path, ());
            }
            j = j + 1;
        }
        proof {
            let names = self.files.keys();
            assert(names.take(j as int) =~= names);
            self.files.lemma_keys();
            assert(lists(names, s.files.dom())) by {
                assert forall|x: Seq<char>| #[trigger] s.files.dom().contains(x) <==> names.contains(
                    x,
                ) by {
                    assert(s.files.contains_key(x) <==> self.files@.contains_key(x));
                }
            }
            lemma_lists_filter(names, s.files.dom(), absent);
            let set = deleted(s.files, all);
            lemma_sum_over(names.filter(absent), set, |x: Seq<char>| 0);
            lemma_lowered_order(
                s.totals,
                s.hists,
                off,
                names.filter(absent),
                listing(set),
                set,
            );
            assert forall|p: Seq<char>| #[trigger] dropped@.dom().contains(p) <==> gone(
                s.files,
                all,
            ).contains(p) by {
                assert(dropped@.contains_key(p) <==> dropped@.dom().contains(p));
                assert(s.files.contains_key(p) <==> names.contains(p));
            }
            assert(dropped@.dom() =~= gone(s.files, all));
        }
        self.forget(&dropped);
        proof {
            let b = begun(s, all);
            assert(self@.keys =~= b.keys);
            assert(self@ =~= b);
        }
        Pending { files, check }
    }

    /// Takes in how many lines each result counts.
    fn take_in(&mut self, results: Vec<(String, KeyMap<i64>)>)
        requires
            old(self).wf(),
            forall|i: int| 0 <= i < results@.len() ==> (#[trigger] results@[i]).1.wf(),
        ensures
            final(self).wf(),
            final(self).totals@ == raised(old(self).totals@, blamed(results@)),
            hist_map(final(self).hists@) == stored(hist_map(old(self).hists@), blamed(results@)),
            final(self).files == old(self).files,
            final(self).keys == old(self).keys,
            final(self).curves == old(self).curves,
            final(self).history == old(self).history,
            final(self).stamps == old(self).stamps,
    {
        let ghost all = blamed(results@);
        proof {
            lemma_raised_none(self.totals@);
            assert(all.take(0) =~= Seq::<Blamed>::empty());
        }
        for result in it: results
            invariant
                it.seq() == results@,
                all == blamed(results@),
                forall|i: int| 0 <= i < results@.len() ==> (#[trigger] results@[i]).1.wf(),
                self.wf(),
                self.totals@ == raised(old(self).totals@, all.take(it.index() as int)),
                hist_map(self.hists@) == stored(
                    hist_map(old(self).hists@),
                    all.take(it.index() as int),
                ),
                self.files == old(self).files,
                self.keys == old(self).keys,
                self.curves == old(self).curves,
                self.history == old(self).history,
                self.stamps == old(self).stamps,
        {
            let ghost done = all.take(it.index() as int);
            let ghost hists = self.hists@;
            let (path, hist) = result;
            assert(results@[it.index() as int] == (path, hist));
            proof {
                let next = all.take(it.index() + 1);
                assert(next =~= done.push((path@, hist@)));
                assert(next.drop_last() =~= done);
                lemma_raised_push(old(self).totals@, done, (path@, hist@));
            }
            self.totals.merge(&hist, false);
            self.hists.insert(path, hist);
            assert(hist_map(self.hists@) =~= hist_map(hists).insert(path@, hist@));
        }
        assert(all.take(all.len() as int) =~= all);
    }

    /// Extends the curves of one category by the present counts.
    fn extend_part(&mut self, c: Category)
        requires
            old(self).wf(),
        ensures
            final(self).wf(),
            contents(final(self).curves.part(c)@) == extended(
                contents(old(self).curves.part(c)@),
                old(self).keys.part(c)@.dom(),
                old(self).totals.part(c)@,
                old(self).stamps@.len(),
            ),
            forall|d: Category|
                d != c ==> #[trigger] final(self).curves.part(d) == old(self).curves.part(d),
            final(self).files == old(self).files,
            final(self).hists == old(self).hists,
            final(self).totals == old(self).totals,
            final(self).keys == old(self).keys,
            final(self).history == old(self).history,
            final(self).stamps == old(self).stamps,
    {
        let ghost before = self.curves;
        assert(self.keys.part(c).wf());
        assert(self.totals.part(c).wf());
        let curves = self.curves.table_mut(c);
        assert(curves.wf());
        extend_table(curves, self.keys.table(c), self.totals.table(c), self.stamps.len());
        proof {
            assert forall|d: Category| (#[trigger] self.curves.part(d)).wf() by {
                if d != c {
                    assert(before.part(d).wf());
                }
            }
        }
    }

    /// Takes in the counts of the files of a commit that had to be counted, and
    /// goes over to that commit.
    pub fn finish_commit(
        &mut self,
        pending: Pending,
        ts: i64,
        stamp: String,
        results: Vec<(String, KeyMap<i64>)>,
    )
        requires
            old(self).wf(),
            pending.wf(),
            forall|i: int| 0 <= i < results@.len() ==> (#[trigger] results@[i]).1.wf(),
        ensures
            final(self).wf(),
            final(self)@ == finished(
                old(self)@,
                pending.files(),
                ts,
                stamp@,
                blamed(results@),
            ),
    {
        let ghost s = self@;
        self.take_in(results);
        self.files = pending.files;
        assert(self.totals.part(Category::Sha).wf());
        record(&mut self.history, self.totals.table(Category::Sha), ts);
        proof {
            let now = self.totals@;
            let r = recorded(s.history, now, ts);
            assert(contents(self.history@) =~= r);
        }
        let ghost before = self.curves;
        self.extend_part(Category::Cohort);
        self.extend_part(Category::Ext);
        self.extend_part(Category::Author);
        self.extend_part(Category::Dir);
        self.extend_part(Category::Domain);
        self.extend_part(Category::Sha);
        self.stamps.push(stamp);
        proof {
            let f = finished(s, pending.files(), ts, stamp@, blamed(results@));
            assert forall|c: Category|
                contents((#[trigger] self.curves.part(c))@) == extended(
                    contents(before.part(c)@),
                    self.keys.part(c)@.dom(),
                    self.totals.part(c)@,
                    s.stamps.len(),
                ) by {
                match c {
                    Category::Cohort => {},
                    Category::Ext => {},
                    Category::Author => {},
                    Category::Dir => {},
                    Category::Domain => {},
                    Category::Sha => {},
                }
            }
            assert forall|k: Key| #[trigger]
                curve_map(self.curves@).contains_key(k) <==> f.curves.contains_key(k) by {
                let part = self.curves.part(k.0);
                assert(contents(part@).contains_key(k.1) <==> part@.contains_key(k.1));
                assert(contents(before.part(k.0)@).contains_key(k.1) <==> before.part(
                    k.0,
                )@.contains_key(k.1));
            }
            assert forall|k: Key| #[trigger]
                curve_map(self.curves@).contains_key(k) implies curve_map(self.curves@)[k]
                == f.curves[k] by {
                let part = self.curves.part(k.0);
                assert(contents(part@)[k.1] == part@[k.1]@);
                assert(contents(before.part(k.0)@).contains_key(k.1) <==> before.part(
                    k.0,
                )@.contains_key(k.1));
                assert(curve_map(self.curves@).contains_key(k) <==> f.curves.contains_key(k));
            }
            assert(curve_map(self.curves@) =~= f.curves);
            assert(self@.stamps =~= f.stamps);
            assert(self@ =~= f);
        }
    }
}

impl Analysis {
    /// The curves of a category.
    pub fn curves_out(&self, category: Category) -> (out: CurvesOut)
        requires
            self.wf(),
        ensures
            is_dump(out, category, self@.keys, self@.curves, self@.stamps),
    {
        dump_curves(category, &self.keys, &self.curves, &self.stamps)
    }

    /// For each commit, the time and number of its lines at each later commit.
    pub fn commit_history(&self) -> (history: &Table<Vec<(i64, i64)>>)
        requires
            self.wf(),
        ensures
            history.wf(),
            contents(history@) == self@.history,
    {
        &self.history
    }
}

proof fn lemma_contains_push(s: Seq<Seq<char>>, x: Seq<char>)
    ensures
        forall|y: Seq<char>| #[trigger] s.push(x).contains(y) <==> s.contains(y) || y == x,
{
    let t = s.push(x);
    assert forall|y: Seq<char>| #[trigger] t.contains(y) <==> s.contains(y) || y == x by {
        if t.contains(y) {
            let i = choose|i: int| 0 <= i < t.len() && t[i] == y;
            if i < s.len() {
                assert(s[i] == y);
            }
        }
        if s.contains(y) {
            let i = choose|i: int| 0 <= i < s.len() && s[i] == y;
            assert(t[i] == y);
        }
        assert(t[s.len() as int] == x);
    }
}

/// The histories with the present number of lines of each counted commit.
spec fn recorded_part(
    history: Map<Seq<char>, Seq<(i64, i64)>>,
    totals: Map<Seq<char>, i64>,
    ts: i64,
) -> Map<Seq<char>, Seq<(i64, i64)>> {
    Map::new(
        |sha: Seq<char>| history.contains_key(sha) || totals.contains_key(sha),
        |sha: Seq<char>|
            if totals.contains_key(sha) {
                series_of(history, sha).push((ts, totals[sha]))
            } else {
                history[sha]
            },
    )
}

/// Adds the present number of lines of each commit to its history.
fn record(history: &mut Table<Vec<(i64, i64)>>, totals: &Table<i64>, ts: i64)
    requires
        old(history).wf(),
        totals.wf(),
    ensures
        final(history).wf(),
        contents(final(history)@) == recorded_part(contents(old(history)@), totals@, ts),
{
    let ghost shas = totals.keys();
    let ghost before = contents(history@);
    proof {
        totals.lemma_keys();
    }
    let mut i: usize = 0;
    while i < totals.len()
        invariant
            i <= shas.len(),
            totals.wf(),
            shas == totals.keys(),
            shas.no_duplicates(),
            history.wf(),
            forall|l: Seq<char>| #[trigger]
                contents(history@).contains_key(l) <==> before.contains_key(l) || shas.take(
                    i as int,
                ).contains(l),
            forall|l: Seq<char>| #[trigger]
                contents(history@).contains_key(l) ==> contents(history@)[l] == (if shas.take(
                    i as int,
                ).contains(l) {
                    series_of(before, l).push((ts, totals@[l]))
                } else {
                    before[l]
                }),
        decreases shas.len() - i,
    {
        let sha = totals.name(i);
        let n: i64 = *totals.value(i);
        let ghost done = shas.take(i as int);
        let ghost earlier = history@;
        proof {
            assert(shas.take(i + 1) =~= done.push(sha@));
            lemma_contains_push(done, sha@);
            if done.contains(sha@) {
                let j = choose|j: int| 0 <= j < done.len() && done[j] == sha@;
                assert(shas[j] == shas[i as int]);
            }
            assert(contents(earlier).contains_key(sha@) <==> earlier.contains_key(sha@));
        }
        append(history, sha.as_str(), (ts, n));
        i = i + 1;
    }
    proof {
        assert(shas.take(i as int) =~= shas);
        let r = recorded_part(before, totals@, ts);
        assert forall|l: Seq<char>| #[trigger]
            contents(history@).contains_key(l) <==> r.contains_key(l) by {
            assert(totals@.contains_key(l) <==> shas.contains(l));
        }
        assert forall|l: Seq<char>| #[trigger]
            contents(history@).contains_key(l) implies contents(history@)[l] == r[l] by {
            assert(totals@.contains_key(l) <==> shas.contains(l));
        }
        assert(contents(history@) =~= r);
    }
}

/// Extends curves by the present counts; a label without a curve was zero at
/// each of `n` times.
fn extend_table(curves: &mut Table<Vec<i64>>, keys: &Table<()>, totals: &Table<i64>, n: usize)
    requires
        old(curves).wf(),
        keys.wf(),
        totals.wf(),
    ensures
        final(curves).wf(),
        contents(final(curves)@) == extended(
            contents(old(curves)@),
            keys@.dom(),
            totals@,
            n as nat,
        ),
{
    let ghost names = keys.keys();
    let ghost before = contents(curves@);
    proof {
        keys.lemma_keys();
    }
    let mut i: usize = 0;
    while i < keys.len()
        invariant
            i <= names.len(),
            keys.wf(),
            totals.wf(),
            names == keys.keys(),
            names.no_duplicates(),
            curves.wf(),
            forall|l: Seq<char>| #[trigger]
                contents(curves@).contains_key(l) <==> before.contains_key(l) || names.take(
                    i as int,
                ).contains(l),
            forall|l: Seq<char>| #[trigger]
                contents(curves@).contains_key(l) ==> contents(curves@)[l] == (if names.take(
                    i as int,
                ).contains(l) {
                    curve_or_zeros(before, l, n as nat).push(count_of(totals@, l) as i64)
                } else {
                    before[l]
                }),
        decreases names.len() - i,
    {
        let label = keys.name(i);
        let count: i64 = match totals.get(label.as_str()) {
            Some(v) => *v,
            None => 0,
        };
        let ghost done = names.take(i as int);
        let ghost earlier = curves@;
        proof {
            assert(names.take(i + 1) =~= done.push(label@));
            lemma_contains_push(done, label@);
            if done.contains(label@) {
                let j = choose|j: int| 0 <= j < done.len() && done[j] == label@;
                assert(names[j] == names[i as int]);
            }
            assert(contents(earlier).contains_key(label@) <==> earlier.contains_key(label@));
        }
        if !curves.contains(label.as_str()) {
            let flat = zeros(n);
            curves.insert(label.clone(), flat);
            assert(contents(curves@) =~= contents(earlier).insert(label@, flat@));
        }
        append(curves, label.as_str(), count);
        i = i + 1;
    }
    proof {
        assert(names.take(i as int) =~= names);
        let r = extended(before, keys@.dom(), totals@, n as nat);
        assert forall|l: Seq<char>| #[trigger]
            contents(curves@).contains_key(l) <==> r.contains_key(l) by {
            assert(keys@.contains_key(l) <==> names.contains(l));
        }
        assert forall|l: Seq<char>| #[trigger]
            contents(curves@).contains_key(l) implies contents(curves@)[l] == r[l] by {
            assert(keys@.contains_key(l) <==> names.contains(l));
        }
        assert(contents(curves@) =~= r);
    }
}

/// What tables and lists say, entry by entry.
pub proof fn lemma_analysis_views(
    files: Map<Seq<char>, String>,
    hists: Map<Seq<char>, KeyMap<i64>>,
    keys: Map<Key, ()>,
    curves: Map<Key, Vec<i64>>,
    results: Seq<(String, KeyMap<i64>)>,
    p: Seq<char>,
    k: Key,
    i: int,
)
    ensures
        file_map(files).contains_key(p) <==> files.contains_key(p),
        files.contains_key(p) ==> file_map(files)[p] == files[p]@,
        hist_map(hists).contains_key(p) <==> hists.contains_key(p),
        hists.contains_key(p) ==> hist_map(hists)[p] == hists[p]@,
        key_set(keys).contains(k) <==> keys.contains_key(k),
        curve_map(curves).contains_key(k) <==> curves.contains_key(k),
        curves.contains_key(k) ==> curve_map(curves)[k] == curves[k]@,
        blamed(results).len() == results.len(),
        0 <= i < results.len() ==> blamed(results)[i] == (results[i].0@, results[i].1@),
{
}

/// An analysis starts with a curve for each cohort, author and domain of the
/// commits, and with no other.
pub proof fn lemma_commit_keys(
    commits: Map<Seq<char>, CommitMeta>,
    cohorts: Map<Seq<char>, String>,
    label: Seq<char>,
)
    ensures
        commit_keys(commits, cohorts).contains((Category::Cohort, label)) <==> exists|
            sha: Seq<char>,
        | #[trigger] commits.contains_key(sha) && cohorts[sha]@ == label,
        commit_keys(commits, cohorts).contains((Category::Author, label)) <==> exists|
            sha: Seq<char>,
        | #[trigger] commits.contains_key(sha) && commits[sha].author@ == label,
        commit_keys(commits, cohorts).contains((Category::Domain, label)) <==> exists|
            sha: Seq<char>,
        | #[trigger] commits.contains_key(sha) && domain_of(commits[sha].email@) == label,
        !commit_keys(commits, cohorts).contains((Category::Ext, label)),
        !commit_keys(commits, cohorts).contains((Category::Dir, label)),
        !commit_keys(commits, cohorts).contains((Category::Sha, label)),
        initial(commit_keys(commits, cohorts)).keys == commit_keys(commits, cohorts),
{
    let all = commit_keys(commits, cohorts);
    assert forall|sha: Seq<char>| #[trigger] commits.contains_key(sha) implies all.contains(
        (Category::Cohort, cohorts[sha]@),
    ) && all.contains((Category::Author, commits[sha].author@)) && all.contains(
        (Category::Domain, domain_of(commits[sha].email@)),
    ) by {
        assert(is_commit_key(sha, (Category::Cohort, cohorts[sha]@), commits, cohorts));
        assert(is_commit_key(sha, (Category::Author, commits[sha].author@), commits, cohorts));
        assert(is_commit_key(
            sha,
            (Category::Domain, domain_of(commits[sha].email@)),
            commits,
            cohorts,
        ));
    }
}

} // verus!
