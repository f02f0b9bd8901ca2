//! Where the lines of a file come from.

use vstd::prelude::*;

use crate::breakdown::no_negatives;
use crate::conservation::{balanced, counts_in, labels_in, total_of};
use crate::count::{
    lemma_listing, lemma_sum_at_one, lemma_sum_equal, lemma_sum_le, lemma_sum_map, lemma_sum_over,
    lemma_sum_not_negative, lemma_sum_plus, lemma_sum_push, lemma_sum_swap, lemma_sum_wrap,
    lemma_sum_zero, lemma_wrap_add, lemma_wrap_fits, lemma_wrap_same, listing, lists, sum, wrap,
};
use crate::git::CommitMeta;
use crate::path::{
    dir_of, domain_of, email_domain, ext_of, file_ext, lemma_mail_domain, top_dir,
};
use crate::table::Table;
use crate::tally::{bump, count_of, Category, Key, KeyMap};
use crate::text::{
    chars_of, is_hex_digit, is_space, is_space_char, lemma_hex_digits, lemma_lines_cut,
    lemma_lines_read, lemma_number_read_back, lemma_white_space, lemma_words_cut,
    lemma_written_solid, lines, lines_of, number_or_zero, parse_number_or_zero, pieces, text_of,
    words, words_of, written, zeros_text,
};

verus! {

/// Whether a word is the hash of a commit: forty hexadecimal digits.
pub open spec fn is_commit_hash(s: Seq<char>) -> bool {
    s.len() == 40 && forall|i: int| 0 <= i < s.len() ==> is_hex_digit(#[trigger] s[i])
}

/// A run of lines: the commit that it comes from and how many lines it has.
pub type Hunk = (Seq<char>, i64);

/// The run of lines that a line of a blame report announces, if it is a header:
/// it starts with the hash of a commit, two line numbers and the number of lines
/// follow. A line of the file itself is led by a tab, so that it is no header,
/// whatever it holds. A number of lines that is no number counts as zero.
pub open spec fn hunk(line: Seq<char>) -> Option<Hunk> {
    let fields = words(line);
    if line.len() > 0 && !is_space(line[0]) && fields.len() >= 4 && is_commit_hash(fields[0]) {
        Some((fields[0], number_or_zero(fields[3])))
    } else {
        None
    }
}

/// The runs of lines that a blame report announces.
pub open spec fn hunks(report: Seq<char>) -> Seq<Hunk> {
    lines(report).filter_map(|line: Seq<char>| hunk(line))
}

/// The number of lines of the runs whose commits `p` selects.
pub open spec fn lines_from(hs: Seq<Hunk>, p: spec_fn(Seq<char>) -> bool) -> int {
    sum(
        hs,
        |h: Hunk|
            if p(h.0) {
                h.1 as int
            } else {
                0
            },
    )
}

/// Whether any of the runs comes from a commit that `p` selects.
pub open spec fn any_from(hs: Seq<Hunk>, p: spec_fn(Seq<char>) -> bool) -> bool {
    exists|i: int| 0 <= i < hs.len() && p((#[trigger] hs[i]).0)
}

/// Whether the lines of a commit, in a file at `path`, count for a key: each
/// commit has one label in every category but `Sha`, in which only commits with
/// a cohort have one.
pub open spec fn counts_for(
    k: Key,
    sha: Seq<char>,
    path: Seq<char>,
    cohorts: Map<Seq<char>, String>,
    commits: Map<Seq<char>, CommitMeta>,
) -> bool {
    match k.0 {
        Category::Cohort => k.1 == (if cohorts.contains_key(sha) {
            cohorts[sha]@
        } else {
            "MISSING"@
        }),
        Category::Ext => k.1 == ext_of(path),
        Category::Author => k.1 == (if commits.contains_key(sha) {
            commits[sha].author@
        } else {
            "UNKNOWN"@
        }),
        Category::Dir => k.1 == dir_of(path),
        Category::Domain => k.1 == domain_of(
            if commits.contains_key(sha) {
                commits[sha].email@
            } else {
                "unknown@unknown"@
            },
        ),
        Category::Sha => k.1 == sha && cohorts.contains_key(sha),
    }
}

/// The commits whose lines count for a key.
pub open spec fn sources(
    k: Key,
    path: Seq<char>,
    cohorts: Map<Seq<char>, String>,
    commits: Map<Seq<char>, CommitMeta>,
) -> spec_fn(Seq<char>) -> bool {
    |sha: Seq<char>| counts_for(k, sha, path, cohorts, commits)
}

/// The commits that have a label in a category.
pub open spec fn labelled(c: Category, cohorts: Map<Seq<char>, String>) -> spec_fn(
    Seq<char>,
) -> bool {
    |sha: Seq<char>| c != Category::Sha || cohorts.contains_key(sha)
}

/// The runs of lines of commits, one for each commit that is counted.
pub open spec fn counted(counts: &Table<i64>) -> Seq<Hunk> {
    Seq::new(
        counts.keys().len(),
        |i: int| (counts.keys()[i], counts@[counts.keys()[i]]),
    )
}

/// Whether `m` counts, for each key, the lines of the runs that count for it.
pub open spec fn is_histogram(
    m: &KeyMap<i64>,
    hs: Seq<Hunk>,
    path: Seq<char>,
    cohorts: Map<Seq<char>, String>,
    commits: Map<Seq<char>, CommitMeta>,
) -> bool {
    &&& forall|k: Key| #[trigger]
        m@.contains_key(k) <==> any_from(hs, sources(k, path, cohorts, commits))
    &&& forall|k: Key| #[trigger]
        m@.contains_key(k) ==> m@[k] == wrap(lines_from(hs, sources(k, path, cohorts, commits)))
    &&& forall|c: Category|
        wrap(#[trigger] m.category_total(c)) == wrap(lines_from(hs, labelled(c, cohorts)))
}

fn is_hash_word(s: &Vec<char>) -> (r: bool)
    ensures
        r == is_commit_hash(s@),
{
    if s.len() != 40 {
        return false;
    }
    let mut i: usize = 0;
    while i < s.len()
        invariant
            i <= s@.len(),
            forall|j: int| 0 <= j < i ==> is_hex_digit(#[trigger] s@[j]),
        decreases s@.len() - i,
    {
        let c = s[i];
        if !(('0' <= c && c <= '9') || ('a' <= c && c <= 'f') || ('A' <= c && c <= 'F')) {
            assert(!is_hex_digit(s@[i as int]));
            return false;
        }
        i = i + 1;
    }
    true
}

/// Reads one line of a blame report.
fn read_hunk(line: &Vec<char>) -> (r: Option<(String, i64)>)
    ensures
        match r {
            Some((sha, n)) => hunk(line@) == Some((sha@, n)),
            None => hunk(line@) is None,
        },
{
    if line.len() == 0 || is_space_char(line[0]) {
        return None;
    }
    let fields = words_of(line);
    assert(forall|j: int| 0 <= j < fields@.len() ==> #[trigger] pieces(fields@)[j] == fields@[j]@);
    if fields.len() >= 4 && is_hash_word(&fields[0]) {
        Some((text_of(&fields[0]), parse_number_or_zero(&fields[3])))
    } else {
        None
    }
}

proof fn lemma_lines_from_push(hs: Seq<Hunk>, h: Hunk, p: spec_fn(Seq<char>) -> bool)
    ensures
        lines_from(hs.push(h), p) == lines_from(hs, p) + (if p(h.0) {
            h.1 as int
        } else {
            0
        }),
        any_from(hs.push(h), p) <==> any_from(hs, p) || p(h.0),
{
    let f = |h: Hunk|
        if p(h.0) {
            h.1 as int
        } else {
            0
        };
    lemma_sum_push(hs, h, f);
    let t = hs.push(h);
    if any_from(hs, p) {
        let i = choose|i: int| 0 <= i < hs.len() && p((#[trigger] hs[i]).0);
        assert(p(t[i].0));
    }
    if p(h.0) {
        assert(p(t[hs.len() as int].0));
    }
    if any_from(t, p) {
        let i = choose|i: int| 0 <= i < t.len() && p((#[trigger] t[i]).0);
        if i < hs.len() {
            assert(p(hs[i].0));
        }
    }
}

/// The commits that are one given commit.
pub open spec fn just(sha: Seq<char>) -> spec_fn(Seq<char>) -> bool {
    |s: Seq<char>| s == sha
}

/// Adds up a blame report: how many lines come from each commit.
pub fn blame_counts(report: &str) -> (counts: Table<i64>)
    ensures
        counts.wf(),
        forall|sha: Seq<char>| #[trigger]
            counts@.contains_key(sha) <==> any_from(hunks(report@), just(sha)),
        forall|sha: Seq<char>| #[trigger]
            counts@.contains_key(sha) ==> counts@[sha] == wrap(
                lines_from(hunks(report@), just(sha)),
            ),
{
    let list = lines_of(&chars_of(report));
    let ghost all = pieces(list@);
    let ghost f = |line: Seq<char>| hunk(line);
    let mut counts: Table<i64> = Table::new();
    let mut i: usize = 0;
    assert(all.take(0).filter_map(f) =~= Seq::<Hunk>::empty()) by {
        assert(all.take(0) == Seq::<Seq<char>>::empty());
        reveal(Seq::filter_map);
    }
    while i < list.len()
        invariant
            i <= list@.len(),
            all == pieces(list@),
            f == (|line: Seq<char>| hunk(line)),
            counts.wf(),
            forall|sha: Seq<char>| #[trigger]
                counts@.contains_key(sha) <==> any_from(
                    all.take(i as int).filter_map(f),
                    just(sha),
                ),
            forall|sha: Seq<char>| #[trigger]
                counts@.contains_key(sha) ==> counts@[sha] == wrap(
                    lines_from(all.take(i as int).filter_map(f), just(sha)),
                ),
        decreases list@.len() - i,
    {
        let ghost hs = all.take(i as int).filter_map(f);
        let ghost next = all.take(i + 1).filter_map(f);
        let ghost earlier = counts@;
        proof {
            all.lemma_filter_map_take_succ(f, i as int);
            assert(all[i as int] == list@[i as int]@);
        }
        match read_hunk(&list[i]) {
            Some((sha, n)) => {
                bump(&mut counts, sha.as_str(), n);
                proof {
                    assert(next =~= hs.push((sha@, n)));
                    assert forall|s: Seq<char>| #[trigger]
                        counts@.contains_key(s) <==> any_from(next, just(s)) by {
                        lemma_lines_from_push(hs, (sha@, n), just(s));
                        assert(earlier.contains_key(s) <==> any_from(hs, just(s)));
                    }
                    assert forall|s: Seq<char>| #[trigger]
                        counts@.contains_key(s) implies counts@[s] == wrap(
                        lines_from(next, just(s)),
                    ) by {
                        lemma_lines_from_push(hs, (sha@, n), just(s));
                        if s == sha@ {
                            if earlier.contains_key(s) {
                                lemma_wrap_add(lines_from(hs, just(s)), n as int);
                            } else {
                                assert(!any_from(hs, just(s)));
                                lemma_none_from(hs, just(s));
                            }
                        } else {
                            assert(earlier.contains_key(s));
                        }
                    }
                }
            },
            None => {
                assert(next =~= hs);
            },
        }
        i = i + 1;
    }
    assert(all.take(all.len() as int) == all);
    counts
}

proof fn lemma_none_from(hs: Seq<Hunk>, p: spec_fn(Seq<char>) -> bool)
    requires
        !any_from(hs, p),
    ensures
        lines_from(hs, p) == 0,
{
    let f = |h: Hunk|
        if p(h.0) {
            h.1 as int
        } else {
            0
        };
    assert forall|i: int| 0 <= i < hs.len() implies #[trigger] f(hs[i]) == 0 by {
        assert(!p(hs[i].0));
    }
    lemma_sum_zero(hs, f);
}

/// Counts the lines of one commit.
fn add_commit(
    h: &mut KeyMap<i64>,
    sha: &String,
    n: i64,
    path: &str,
    ext: &String,
    dir: &String,
    cohorts: &Table<String>,
    commits: &Table<CommitMeta>,
)
    requires
        old(h).wf(),
        cohorts.wf(),
        commits.wf(),
        ext@ == ext_of(path@),
        dir@ == dir_of(path@),
    ensures
        final(h).wf(),
        forall|k: Key| #[trigger]
            final(h)@.contains_key(k) <==> old(h)@.contains_key(k) || counts_for(
                k,
                sha@,
                path@,
                cohorts@,
                commits@,
            ),
        forall|k: Key|
            #[trigger] count_of(final(h)@, k) == wrap(
                count_of(old(h)@, k) + (if counts_for(k, sha@, path@, cohorts@, commits@) {
                    n as int
                } else {
                    0
                }),
            ),
        forall|c: Category|
            wrap(#[trigger] final(h).category_total(c)) == wrap(
                old(h).category_total(c) + (if labelled(c, cohorts@)(sha@) {
                    n as int
                } else {
                    0
                }),
            ),
{
    let cohort = cohorts.get(sha.as_str());
    let label = match cohort {
        Some(s) => s.clone(),
        None => "MISSING".to_owned(),
    };
    let (author, domain) = match commits.get(sha.as_str()) {
        Some(meta) => (meta.author.clone(), email_domain(meta.email.as_str())),
        None => ("UNKNOWN".to_owned(), email_domain("unknown@unknown")),
    };
    h.add_count(Category::Cohort, label.as_str(), n);
    h.add_count(Category::Ext, ext.as_str(), n);
    h.add_count(Category::Author, author.as_str(), n);
    h.add_count(Category::Dir, dir.as_str(), n);
    h.add_count(Category::Domain, domain.as_str(), n);
    if cohort.is_some() {
        h.add_count(Category::Sha, sha.as_str(), n);
    }
    proof {
        assert forall|k: Key|
            #[trigger] count_of(h@, k) == wrap(
                count_of(old(h)@, k) + (if counts_for(k, sha@, path@, cohorts@, commits@) {
                    n as int
                } else {
                    0
                }),
            ) by {
            lemma_wrap_fits(count_of(old(h)@, k));
        }
        assert forall|c: Category|
            wrap(#[trigger] h.category_total(c)) == wrap(
                old(h).category_total(c) + (if labelled(c, cohorts@)(sha@) {
                    n as int
                } else {
                    0
                }),
            ) by {
            match c {
                Category::Cohort => {},
                Category::Ext => {},
                Category::Author => {},
                Category::Dir => {},
                Category::Domain => {},
                Category::Sha => {},
            }
        }
    }
}

/// Counts lines by key, given how many lines of the file at `path` come from
/// each commit.
pub fn histogram_of_counts(
    counts: &Table<i64>,
    path: &str,
    cohorts: &Table<String>,
    commits: &Table<CommitMeta>,
) -> (h: KeyMap<i64>)
    requires
        counts.wf(),
        cohorts.wf(),
        commits.wf(),
    ensures
        h.wf(),
        is_histogram(&h, counted(counts), path@, cohorts@, commits@),
{
    let mut h: KeyMap<i64> = KeyMap::new();
    let ext = file_ext(path);
    let dir = top_dir(path);
    let ghost hs = counted(counts);
    let mut i: usize = 0;
    proof {
        assert forall|k: Key| !any_from(hs.take(0), sources(k, path@, cohorts@, commits@)) by {}
        assert forall|c: Category|
            wrap(#[trigger] h.category_total(c)) == wrap(
                lines_from(hs.take(0), labelled(c, cohorts@)),
            ) by {
            assert(h.labels(c).len() == 0);
            assert(hs.take(0) == Seq::<Hunk>::empty());
        }
    }
    while i < counts.len()
        invariant
            counts.wf(),
            cohorts.wf(),
            commits.wf(),
            h.wf(),
            ext@ == ext_of(path@),
            dir@ == dir_of(path@),
            hs == counted(counts),
            i <= counts.keys().len(),
            is_histogram(&h, hs.take(i as int), path@, cohorts@, commits@),
        decreases counts.keys().len() - i,
    {
        let sha = counts.name(i);
        let n: i64 = *counts.value(i);
        let ghost earlier = h;
        let ghost done = hs.take(i as int);
        let ghost next = hs.take(i + 1);
        add_commit(&mut h, sha, n, path, &ext, &dir, cohorts, commits);
        proof {
            assert(next =~= done.push((sha@, n)));
            assert forall|k: Key| #[trigger]
                h@.contains_key(k) <==> any_from(next, sources(k, path@, cohorts@, commits@)) by {
                let p = sources(k, path@, cohorts@, commits@);
                lemma_lines_from_push(done, (sha@, n), p);
                assert(earlier@.contains_key(k) <==> any_from(done, p));
            }
            assert forall|k: Key| #[trigger] h@.contains_key(k) implies h@[k] == wrap(
                lines_from(next, sources(k, path@, cohorts@, commits@)),
            ) by {
                let p = sources(k, path@, cohorts@, commits@);
                lemma_lines_from_push(done, (sha@, n), p);
                assert(count_of(h@, k) == h@[k]);
                assert(earlier@.contains_key(k) <==> any_from(done, p));
                if earlier@.contains_key(k) {
                    lemma_wrap_add(
                        lines_from(done, p),
                        if p(sha@) {
                            n as int
                        } else {
                            0
                        },
                    );
                } else {
                    lemma_none_from(done, p);
                }
            }
            assert forall|c: Category|
                wrap(#[trigger] h.category_total(c)) == wrap(
                    lines_from(next, labelled(c, cohorts@)),
                ) by {
                let p = labelled(c, cohorts@);
                lemma_lines_from_push(done, (sha@, n), p);
                let m = if p(sha@) {
                    n as int
                } else {
                    0
                };
                lemma_wrap_same(earlier.category_total(c), lines_from(done, p), m, m);
            }
        }
        i = i + 1;
    }
    assert(hs.take(i as int) =~= hs);
    h
}

/// `n` at `x` and zero elsewhere.
spec fn at_one(x: Seq<char>, n: int) -> spec_fn(Seq<char>) -> int {
    |s: Seq<char>|
        if s == x {
            n
        } else {
            0
        }
}

proof fn lemma_sum_one(keys: Seq<Seq<char>>, x: Seq<char>, n: int)
    requires
        keys.no_duplicates(),
        keys.contains(x),
    ensures
        sum(keys, at_one(x, n)) == n,
    decreases keys.len(),
{
    let f = at_one(x, n);
    let i = choose|i: int| 0 <= i < keys.len() && keys[i] == x;
    let t = keys.drop_last();
    if i == keys.len() - 1 {
        assert forall|j: int| 0 <= j < t.len() implies #[trigger] f(t[j]) == 0 by {
            assert(keys[j] != keys[i]);
        }
        lemma_sum_zero(t, f);
    } else {
        assert(t[i] == x);
        assert(keys.last() != x);
        assert(t.no_duplicates()) by {
            assert forall|a: int, b: int| 0 <= a < t.len() && 0 <= b < t.len() && a != b implies t[a]
                != t[b] by {
                assert(keys[a] != keys[b]);
            }
        }
        lemma_sum_one(t, x, n);
    }
}

/// The lines of the commits of `keys` that `p` selects, commit by commit.
spec fn grouped(hs: Seq<Hunk>, p: spec_fn(Seq<char>) -> bool) -> spec_fn(Seq<char>) -> int {
    |s: Seq<char>|
        if p(s) {
            lines_from(hs, just(s))
        } else {
            0
        }
}

/// Adding up run by run is adding up commit by commit.
proof fn lemma_regroup(hs: Seq<Hunk>, keys: Seq<Seq<char>>, p: spec_fn(Seq<char>) -> bool)
    requires
        keys.no_duplicates(),
        forall|i: int| 0 <= i < hs.len() ==> keys.contains((#[trigger] hs[i]).0),
    ensures
        sum(keys, grouped(hs, p)) == lines_from(hs, p),
    decreases hs.len(),
{
    if hs.len() == 0 {
        let g = grouped(hs, p);
        assert forall|i: int| 0 <= i < keys.len() implies #[trigger] g(keys[i]) == 0 by {}
        lemma_sum_zero(keys, g);
    } else {
        let t = hs.drop_last();
        let last = hs.last();
        let m: int = if p(last.0) {
            last.1 as int
        } else {
            0
        };
        assert(hs =~= t.push(last));
        assert forall|i: int| 0 <= i < t.len() implies keys.contains((#[trigger] t[i]).0) by {
            assert(keys.contains(hs[i].0));
        }
        lemma_regroup(t, keys, p);
        lemma_lines_from_push(t, last, p);
        assert(keys.contains(hs[hs.len() - 1].0));
        let one = at_one(last.0, m);
        lemma_sum_one(keys, last.0, m);
        assert forall|i: int| 0 <= i < keys.len() implies #[trigger] grouped(hs, p)(keys[i])
            == grouped(t, p)(keys[i]) + one(keys[i]) by {
            lemma_lines_from_push(t, last, just(keys[i]));
        }
        lemma_sum_plus(keys, grouped(t, p), one, grouped(hs, p));
    }
}

/// The counts of a report stand for its runs of lines.
proof fn lemma_counted(counts: &Table<i64>, hs: Seq<Hunk>, p: spec_fn(Seq<char>) -> bool)
    requires
        counts.wf(),
        forall|sha: Seq<char>| #[trigger] counts@.contains_key(sha) <==> any_from(hs, just(sha)),
        forall|sha: Seq<char>| #[trigger]
            counts@.contains_key(sha) ==> counts@[sha] == wrap(lines_from(hs, just(sha))),
    ensures
        wrap(lines_from(counted(counts), p)) == wrap(lines_from(hs, p)),
        any_from(counted(counts), p) <==> any_from(hs, p),
{
    let keys = counts.keys();
    counts.lemma_keys();
    assert forall|i: int| 0 <= i < hs.len() implies keys.contains((#[trigger] hs[i]).0) by {
        assert(just(hs[i].0)(hs[i].0));
        assert(any_from(hs, just(hs[i].0)));
        assert(counts@.contains_key(hs[i].0));
    }
    lemma_regroup(hs, keys, p);
    let g = |s: Seq<char>| (s, counts@[s]);
    let f = |h: Hunk|
        if p(h.0) {
            h.1 as int
        } else {
            0
        };
    let fg = |s: Seq<char>|
        if p(s) {
            counts@[s] as int
        } else {
            0
        };
    assert(counted(counts) =~= keys.map_values(g));
    lemma_sum_map(keys, g, f, fg);
    assert forall|i: int| 0 <= i < keys.len() implies wrap(#[trigger] fg(keys[i])) == wrap(
        grouped(hs, p)(keys[i]),
    ) by {
        assert(counts@.contains_key(keys[i]));
        lemma_wrap_fits(counts@[keys[i]] as int);
    }
    lemma_sum_wrap(keys, fg, grouped(hs, p));
    if any_from(counted(counts), p) {
        let i = choose|i: int| 0 <= i < counted(counts).len() && p((#[trigger] counted(counts)[i]).0);
        assert(counts@.contains_key(keys[i]));
        assert(any_from(hs, just(keys[i])));
        let j = choose|j: int| 0 <= j < hs.len() && just(keys[i])((#[trigger] hs[j]).0);
        assert(p(hs[j].0));
    }
    if any_from(hs, p) {
        let j = choose|j: int| 0 <= j < hs.len() && p((#[trigger] hs[j]).0);
        assert(keys.contains(hs[j].0));
        let i = choose|i: int| 0 <= i < keys.len() && keys[i] == hs[j].0;
        assert(counted(counts)[i].0 == hs[j].0);
    }
}

/// Counts the lines of the file at `path` by key, from its blame report.
pub fn file_histogram(
    report: &str,
    path: &str,
    cohorts: &Table<String>,
    commits: &Table<CommitMeta>,
) -> (h: KeyMap<i64>)
    requires
        cohorts.wf(),
        commits.wf(),
    ensures
        h.wf(),
        is_histogram(&h, hunks(report@), path@, cohorts@, commits@),
{
    let counts = blame_counts(report);
    let h = histogram_of_counts(&counts, path, cohorts, commits);
    proof {
        let hs = hunks(report@);
        assert forall|k: Key| #[trigger]
            h@.contains_key(k) <==> any_from(hs, sources(k, path@, cohorts@, commits@)) by {
            lemma_counted(&counts, hs, sources(k, path@, cohorts@, commits@));
        }
        assert forall|k: Key| #[trigger] h@.contains_key(k) implies h@[k] == wrap(
            lines_from(hs, sources(k, path@, cohorts@, commits@)),
        ) by {
            lemma_counted(&counts, hs, sources(k, path@, cohorts@, commits@));
        }
        assert forall|c: Category|
            wrap(#[trigger] h.category_total(c)) == wrap(lines_from(hs, labelled(c, cohorts@))) by {
            lemma_counted(&counts, hs, labelled(c, cohorts@));
        }
    }
    h
}

/// The lines of a file add up to the same number in every category but `Sha`.
pub proof fn lemma_categories_agree(
    h: &KeyMap<i64>,
    hs: Seq<Hunk>,
    path: Seq<char>,
    cohorts: Map<Seq<char>, String>,
    commits: Map<Seq<char>, CommitMeta>,
    c: Category,
    d: Category,
)
    requires
        is_histogram(h, hs, path, cohorts, commits),
        c != Category::Sha,
        d != Category::Sha,
    ensures
        wrap(h.category_total(c)) == wrap(h.category_total(d)),
        wrap(h.category_total(c)) == wrap(sum(hs, |run: Hunk| run.1 as int)),
{
    let all = |run: Hunk| run.1 as int;
    let f = |run: Hunk|
        if labelled(c, cohorts)(run.0) {
            run.1 as int
        } else {
            0
        };
    let g = |run: Hunk|
        if labelled(d, cohorts)(run.0) {
            run.1 as int
        } else {
            0
        };
    lemma_sum_equal(hs, f, all);
    lemma_sum_equal(hs, g, all);
}

/// What is counted of a file is balanced: in every category but `Sha` it adds
/// up to the lines of the file.
pub proof fn lemma_histogram_balanced(
    h: &KeyMap<i64>,
    hs: Seq<Hunk>,
    path: Seq<char>,
    cohorts: Map<Seq<char>, String>,
    commits: Map<Seq<char>, CommitMeta>,
)
    requires
        h.wf(),
        is_histogram(h, hs, path, cohorts, commits),
    ensures
        balanced(h@),
        forall|c: Category|
            c != Category::Sha ==> wrap(#[trigger] total_of(h@, c)) == wrap(
                sum(hs, |run: Hunk| run.1 as int),
            ),
{
    assert forall|c: Category|
        (#[trigger] labels_in(h@, c)).finite() && total_of(h@, c) == h.category_total(c) by {
        let q = h.labels(c);
        assert(h.part(c).wf());
        h.part(c).lemma_keys();
        assert(lists(q, labels_in(h@, c))) by {
            assert forall|l: Seq<char>| #[trigger] labels_in(h@, c).contains(l) <==> q.contains(
                l,
            ) by {
                assert(h.part(c)@.contains_key(l) <==> q.contains(l));
            }
        }
        assert(labels_in(h@, c) =~= q.to_set());
        let f = counts_in(h@, c);
        let g = |l: Seq<char>| count_of(h.part(c)@, l);
        lemma_sum_over(q, labels_in(h@, c), f);
        lemma_sum_equal(q, f, g);
    }
    assert forall|c: Category, d: Category|
        c != Category::Sha && d != Category::Sha implies wrap(#[trigger] total_of(h@, c)) == wrap(
        #[trigger] total_of(h@, d),
    ) by {
        assert(labels_in(h@, c).finite());
        assert(labels_in(h@, d).finite());
        lemma_categories_agree(h, hs, path, cohorts, commits, c, d);
    }
    assert forall|c: Category| c != Category::Sha implies wrap(#[trigger] total_of(h@, c)) == wrap(
        sum(hs, |run: Hunk| run.1 as int),
    ) by {
        assert(labels_in(h@, c).finite());
        lemma_categories_agree(h, hs, path, cohorts, commits, c, c);
    }
}

/// The label of the lines of a commit in a category, if it has one.
pub open spec fn label_in(
    c: Category,
    sha: Seq<char>,
    path: Seq<char>,
    cohorts: Map<Seq<char>, String>,
    commits: Map<Seq<char>, CommitMeta>,
) -> Seq<char> {
    choose|l: Seq<char>| counts_for((c, l), sha, path, cohorts, commits)
}

proof fn lemma_one_label(
    c: Category,
    l: Seq<char>,
    sha: Seq<char>,
    path: Seq<char>,
    cohorts: Map<Seq<char>, String>,
    commits: Map<Seq<char>, CommitMeta>,
)
    requires
        labelled(c, cohorts)(sha),
    ensures
        counts_for((c, l), sha, path, cohorts, commits) <==> l == label_in(
            c,
            sha,
            path,
            cohorts,
            commits,
        ),
{
    let label = match c {
        Category::Cohort => if cohorts.contains_key(sha) {
            cohorts[sha]@
        } else {
            "MISSING"@
        },
        Category::Ext => ext_of(path),
        Category::Author => if commits.contains_key(sha) {
            commits[sha].author@
        } else {
            "UNKNOWN"@
        },
        Category::Dir => dir_of(path),
        Category::Domain => domain_of(
            if commits.contains_key(sha) {
                commits[sha].email@
            } else {
                "unknown@unknown"@
            },
        ),
        Category::Sha => sha,
    };
    assert(counts_for((c, label), sha, path, cohorts, commits));
}

/// The counts of a category, each of which is exact, add up to the lines of the
/// runs that have a label in it.
proof fn lemma_total_by_runs(
    h: &KeyMap<i64>,
    hs: Seq<Hunk>,
    path: Seq<char>,
    cohorts: Map<Seq<char>, String>,
    commits: Map<Seq<char>, CommitMeta>,
    c: Category,
)
    requires
        is_histogram(h, hs, path, cohorts, commits),
        labels_in(h@, c).finite(),
        forall|k: Key| #[trigger]
            h@.contains_key(k) ==> h@[k] == lines_from(hs, sources(k, path, cohorts, commits)),
    ensures
        total_of(h@, c) == lines_from(hs, labelled(c, cohorts)),
{
    let labels = labels_in(h@, c);
    let q = listing(labels);
    lemma_listing(labels);
    let cell = |l: Seq<char>, run: Hunk|
        if counts_for((c, l), run.0, path, cohorts, commits) {
            run.1 as int
        } else {
            0
        };
    let counts = counts_in(h@, c);
    let rows = |l: Seq<char>| sum(hs, |run: Hunk| cell(l, run));
    assert forall|i: int| 0 <= i < q.len() implies #[trigger] counts(q[i]) == rows(q[i]) by {
        let k = (c, q[i]);
        let p = sources(k, path, cohorts, commits);
        assert(q.contains(q[i]));
        assert(labels.contains(q[i]));
        assert(h@.contains_key(k));
        let f = |run: Hunk|
            if p(run.0) {
                run.1 as int
            } else {
                0
            };
        lemma_sum_equal(hs, f, |run: Hunk| cell(q[i], run));
    }
    lemma_sum_equal(q, counts, rows);
    lemma_sum_swap(q, hs, cell);
    let columns = |run: Hunk| sum(q, |l: Seq<char>| cell(l, run));
    let all = |run: Hunk|
        if labelled(c, cohorts)(run.0) {
            run.1 as int
        } else {
            0
        };
    assert forall|i: int| 0 <= i < hs.len() implies #[trigger] columns(hs[i]) == all(hs[i]) by {
        let run = hs[i];
        let label = label_in(c, run.0, path, cohorts, commits);
        let g = |l: Seq<char>| cell(l, run);
        if labelled(c, cohorts)(run.0) {
            assert forall|l: Seq<char>| #[trigger] g(l) == if l == label {
                run.1 as int
            } else {
                0
            } by {
                lemma_one_label(c, l, run.0, path, cohorts, commits);
            }
            lemma_sum_at_one(q, label, run.1 as int, g);
            lemma_one_label(c, label, run.0, path, cohorts, commits);
            let p = sources((c, label), path, cohorts, commits);
            assert(p(hs[i].0));
            assert(any_from(hs, p));
            assert(h@.contains_key((c, label)));
            assert(labels.contains(label));
            assert(q.contains(label));
        } else {
            lemma_sum_zero(q, g);
        }
    }
    lemma_sum_equal(hs, columns, all);
}

/// Only commits with a cohort are counted one by one.
pub proof fn lemma_histogram_commits(
    h: &KeyMap<i64>,
    hs: Seq<Hunk>,
    path: Seq<char>,
    cohorts: Map<Seq<char>, String>,
    commits: Map<Seq<char>, CommitMeta>,
    sha: Seq<char>,
)
    requires
        is_histogram(h, hs, path, cohorts, commits),
        h@.contains_key((Category::Sha, sha)),
    ensures
        cohorts.contains_key(sha),
{
    let p = sources((Category::Sha, sha), path, cohorts, commits);
    assert(any_from(hs, p));
    let i = choose|i: int| 0 <= i < hs.len() && p((#[trigger] hs[i]).0);
    assert(counts_for((Category::Sha, sha), hs[i].0, path, cohorts, commits));
}

/// If no run of lines is negative and the lines of the file fit into 64 bits,
/// what is counted of it is exact: each count is the number of lines that count
/// for its key, and in every category but `Sha` they add up to the lines of the
/// file. In `Sha` they add up to the lines of the commits that have a cohort.
pub proof fn lemma_histogram_exact(
    h: &KeyMap<i64>,
    hs: Seq<Hunk>,
    path: Seq<char>,
    cohorts: Map<Seq<char>, String>,
    commits: Map<Seq<char>, CommitMeta>,
)
    requires
        h.wf(),
        is_histogram(h, hs, path, cohorts, commits),
        forall|i: int| 0 <= i < hs.len() ==> (#[trigger] hs[i]).1 >= 0,
        sum(hs, |run: Hunk| run.1 as int) <= i64::MAX,
    ensures
        no_negatives(h@),
        forall|k: Key| #[trigger]
            h@.contains_key(k) ==> h@[k] == lines_from(hs, sources(k, path, cohorts, commits)),
        forall|c: Category|
            c != Category::Sha ==> #[trigger] total_of(h@, c) == sum(hs, |run: Hunk| run.1 as int),
        total_of(h@, Category::Sha) == lines_from(hs, |sha: Seq<char>| cohorts.contains_key(sha)),
{
    let all = |run: Hunk| run.1 as int;
    assert forall|k: Key| #[trigger] h@.contains_key(k) implies 0 <= h@[k] == lines_from(
        hs,
        sources(k, path, cohorts, commits),
    ) by {
        let p = sources(k, path, cohorts, commits);
        let f = |run: Hunk|
            if p(run.0) {
                run.1 as int
            } else {
                0
            };
        assert forall|i: int| 0 <= i < hs.len() implies 0 <= #[trigger] f(hs[i]) by {
            assert(hs[i].1 >= 0);
        }
        assert forall|i: int| 0 <= i < hs.len() implies #[trigger] f(hs[i]) <= all(hs[i]) by {
            assert(hs[i].1 >= 0);
        }
        lemma_sum_not_negative(hs, f);
        lemma_sum_le(hs, f, all);
        lemma_wrap_fits(lines_from(hs, p));
    }
    lemma_histogram_balanced(h, hs, path, cohorts, commits);
    assert forall|c: Category| c != Category::Sha implies #[trigger] total_of(h@, c) == sum(
        hs,
        all,
    ) by {
        lemma_total_by_runs(h, hs, path, cohorts, commits, c);
        let f = |run: Hunk|
            if labelled(c, cohorts)(run.0) {
                run.1 as int
            } else {
                0
            };
        lemma_sum_equal(hs, f, all);
    }
    lemma_total_by_runs(h, hs, path, cohorts, commits, Category::Sha);
    let f = |run: Hunk|
        if labelled(Category::Sha, cohorts)(run.0) {
            run.1 as int
        } else {
            0
        };
    let known = |sha: Seq<char>| cohorts.contains_key(sha);
    let g = |run: Hunk|
        if known(run.0) {
            run.1 as int
        } else {
            0
        };
    lemma_sum_equal(hs, f, g);
}

/// The lower-case hexadecimal digit of a number below sixteen.
pub open spec fn hex_char(n: int) -> char {
    seq!['0', '1', '2', '3', '4', '5', '6', '7', '8', '9', 'a', 'b', 'c', 'd', 'e', 'f'][n]
}

/// Bytes as they are written in hexadecimal.
pub open spec fn hex_text(bytes: Seq<u8>) -> Seq<char> {
    Seq::new(
        2 * bytes.len(),
        |i: int|
            hex_char(
                if i % 2 == 0 {
                    bytes[i / 2] as int / 16
                } else {
                    bytes[i / 2] as int % 16
                },
            ),
    )
}

proof fn lemma_hex_char(n: int)
    requires
        0 <= n < 16,
    ensures
        is_hex_digit(hex_char(n)),
        !is_space(hex_char(n)),
{
    let all = seq!['0', '1', '2', '3', '4', '5', '6', '7', '8', '9', 'a', 'b', 'c', 'd', 'e', 'f'];
    assert(all[0] == '0' && all[1] == '1' && all[2] == '2' && all[3] == '3' && all[4] == '4');
    assert(all[5] == '5' && all[6] == '6' && all[7] == '7' && all[8] == '8' && all[9] == '9');
    assert(all[10] == 'a' && all[11] == 'b' && all[12] == 'c' && all[13] == 'd' && all[14] == 'e');
    assert(all[15] == 'f');
    lemma_hex_digits(hex_char(n));
    lemma_white_space(hex_char(n));
}

/// Every name that git gives a commit, twenty bytes in hexadecimal, is the hash of
/// a commit.
pub proof fn lemma_commit_names(bytes: Seq<u8>)
    requires
        bytes.len() == 20,
    ensures
        is_commit_hash(hex_text(bytes)),
{
    let t = hex_text(bytes);
    assert forall|i: int| 0 <= i < t.len() implies is_hex_digit(#[trigger] t[i]) by {
        let b = bytes[i / 2] as int;
        lemma_hex_char(b / 16);
        lemma_hex_char(b % 16);
    }
}

/// A text is the hash of a commit if and only if it has forty characters, each a
/// digit or one of the letters from a to f, small or large.
pub proof fn lemma_commit_hashes(s: Seq<char>)
    ensures
        is_commit_hash(s) <==> s.len() == 40 && forall|i: int|
            0 <= i < s.len() ==> {
                let c = #[trigger] s[i];
                ||| c == '0' || c == '1' || c == '2' || c == '3' || c == '4'
                ||| c == '5' || c == '6' || c == '7' || c == '8' || c == '9'
                ||| c == 'a' || c == 'b' || c == 'c' || c == 'd' || c == 'e' || c == 'f'
                ||| c == 'A' || c == 'B' || c == 'C' || c == 'D' || c == 'E' || c == 'F'
            },
{
    assert forall|c: char| #[trigger] is_hex_digit(c) <==> {
        ||| c == '0' || c == '1' || c == '2' || c == '3' || c == '4'
        ||| c == '5' || c == '6' || c == '7' || c == '8' || c == '9'
        ||| c == 'a' || c == 'b' || c == 'c' || c == 'd' || c == 'e' || c == 'f'
        ||| c == 'A' || c == 'B' || c == 'C' || c == 'D' || c == 'E' || c == 'F'
    } by {
        lemma_hex_digits(c);
    }
}

proof fn lemma_hash_solid(hash: Seq<char>)
    requires
        is_commit_hash(hash),
    ensures
        forall|i: int| 0 <= i < hash.len() ==> !is_space(#[trigger] hash[i]),
{
    assert forall|i: int| 0 <= i < hash.len() implies !is_space(#[trigger] hash[i]) by {
        assert(is_hex_digit(hash[i]));
        lemma_hex_digits(hash[i]);
        lemma_white_space(hash[i]);
    }
}

/// A line that starts with the hash of a commit, two words and a number announces
/// as many lines from that commit; more words may follow.
pub proof fn lemma_header(
    hash: Seq<char>,
    a: Seq<char>,
    b: Seq<char>,
    count: Seq<char>,
    more: Seq<char>,
    n: nat,
)
    requires
        is_commit_hash(hash),
        a.len() > 0,
        b.len() > 0,
        count.len() > 0,
        forall|i: int| 0 <= i < a.len() ==> !is_space(#[trigger] a[i]),
        forall|i: int| 0 <= i < b.len() ==> !is_space(#[trigger] b[i]),
        forall|i: int| 0 <= i < count.len() ==> !is_space(#[trigger] count[i]),
    ensures
        hunk(hash + seq![' '] + (a + seq![' '] + (b + seq![' '] + count))) == Some(
            (hash, number_or_zero(count)),
        ),
        hunk(
            hash + seq![' '] + (a + seq![' '] + (b + seq![' '] + (count + seq![' '] + more))),
        ) == Some((hash, number_or_zero(count))),
        n <= i64::MAX ==> hunk(
            hash + seq![' '] + (a + seq![' '] + (b + seq![' '] + written(n))),
        ) == Some((hash, n as i64)),
        hunk(hash + seq![' '] + (a + seq![' '] + b)) is None,
        hunk(hash + seq![' '] + a) is None,
        hunk(hash) is None,
{
    lemma_hash_solid(hash);
    assert(!is_space(hash[0]));
    lemma_header_words(hash, a, b, count, more);
    lemma_written_solid(n);
    lemma_header_words(hash, a, b, written(n), more);
    lemma_number_read_back(0, n);
    assert(zeros_text(0) + written(n) =~= written(n));
    lemma_white_space(' ');
    lemma_words_cut(hash, ' ', a + seq![' '] + b);
    lemma_words_cut(a, ' ', b);
    lemma_words_cut(b, ' ', seq![]);
    lemma_words_cut(hash, ' ', a);
    lemma_words_cut(a, ' ', seq![]);
    let x = hash + seq![' '] + (a + seq![' '] + (b + seq![' '] + count));
    let y = hash + seq![' '] + (a + seq![' '] + (b + seq![' '] + (count + seq![' '] + more)));
    let z = hash + seq![' '] + (a + seq![' '] + (b + seq![' '] + written(n)));
    assert(x[0] == hash[0] && y[0] == hash[0] && z[0] == hash[0]);
}

proof fn lemma_header_words(
    hash: Seq<char>,
    a: Seq<char>,
    b: Seq<char>,
    count: Seq<char>,
    more: Seq<char>,
)
    requires
        hash.len() > 0,
        a.len() > 0,
        b.len() > 0,
        count.len() > 0,
        forall|i: int| 0 <= i < hash.len() ==> !is_space(#[trigger] hash[i]),
        forall|i: int| 0 <= i < a.len() ==> !is_space(#[trigger] a[i]),
        forall|i: int| 0 <= i < b.len() ==> !is_space(#[trigger] b[i]),
        forall|i: int| 0 <= i < count.len() ==> !is_space(#[trigger] count[i]),
    ensures
        words(hash + seq![' '] + (a + seq![' '] + (b + seq![' '] + count))) == seq![
            hash,
            a,
            b,
            count,
        ],
        words(
            hash + seq![' '] + (a + seq![' '] + (b + seq![' '] + (count + seq![' '] + more))),
        ) == seq![hash, a, b, count] + words(more),
{
    lemma_white_space(' ');
    let c = count + seq![' '] + more;
    lemma_words_cut(count, ' ', more);
    lemma_words_cut(b, ' ', count);
    lemma_words_cut(b, ' ', c);
    lemma_words_cut(a, ' ', b + seq![' '] + count);
    lemma_words_cut(a, ' ', b + seq![' '] + c);
    lemma_words_cut(hash, ' ', a + seq![' '] + (b + seq![' '] + count));
    lemma_words_cut(hash, ' ', a + seq![' '] + (b + seq![' '] + c));
    assert(seq![hash] + (seq![a] + (seq![b] + seq![count])) =~= seq![hash, a, b, count]);
    assert(seq![hash] + (seq![a] + (seq![b] + (seq![count] + words(more)))) =~= seq![
        hash,
        a,
        b,
        count,
    ] + words(more));
}

/// A line of the file, which a tab leads, announces nothing, nor does one that
/// starts with another word than the hash of a commit.
pub proof fn lemma_no_header(c: char, w: Seq<char>, rest: Seq<char>)
    requires
        is_space(c),
        w.len() > 0,
        forall|i: int| 0 <= i < w.len() ==> !is_space(#[trigger] w[i]),
        !is_commit_hash(w),
    ensures
        hunk(seq!['\t'] + rest) is None,
        hunk(seq![c] + rest) is None,
        hunk(w) is None,
        hunk(w + seq![c] + rest) is None,
        hunk(Seq::<char>::empty()) is None,
{
    lemma_white_space('\t');
    lemma_words_cut(w, c, rest);
    assert((seq!['\t'] + rest)[0] == '\t');
    assert((seq![c] + rest)[0] == c);
}

/// The runs of a report are those that its lines announce, one after another.
pub proof fn lemma_report_lines(line: Seq<char>, rest: Seq<char>)
    requires
        !line.contains('\n'),
        line.len() == 0 || line.last() != '\r',
    ensures
        hunks(line + seq!['\n'] + rest) == (match hunk(line) {
            Some(h) => seq![h],
            None => Seq::<Hunk>::empty(),
        }) + hunks(rest),
        hunks(Seq::<char>::empty()) == Seq::<Hunk>::empty(),
{
    lemma_lines_read(line, rest, |l: Seq<char>| hunk(l));
    reveal(Seq::filter_map);
    lemma_lines_cut(line, rest);
    assert(hunks(Seq::<char>::empty()) =~= Seq::<Hunk>::empty());
}

/// The lines that come from commits are added up run by run.
pub proof fn lemma_lines_add_up(hs: Seq<Hunk>, h: Hunk, p: spec_fn(Seq<char>) -> bool)
    ensures
        lines_from(Seq::<Hunk>::empty(), p) == 0,
        lines_from(hs.push(h), p) == lines_from(hs, p) + (if p(h.0) {
            h.1 as int
        } else {
            0
        }),
        !any_from(Seq::<Hunk>::empty(), p),
        any_from(hs.push(h), p) <==> any_from(hs, p) || p(h.0),
        just(h.0) == (|sha: Seq<char>| sha == h.0),
{
    lemma_lines_from_push(hs, h, p);
    assert(just(h.0) =~= (|sha: Seq<char>| sha == h.0));
}

/// The lines that count for a label are those whose commits have it: in the
/// category of cohorts those of the cohort, or of no known cohort if the label is
/// `MISSING`.
pub proof fn lemma_histogram_cohorts(
    h: &KeyMap<i64>,
    hs: Seq<Hunk>,
    path: Seq<char>,
    cohorts: Map<Seq<char>, String>,
    commits: Map<Seq<char>, CommitMeta>,
    label: Seq<char>,
)
    requires
        is_histogram(h, hs, path, cohorts, commits),
    ensures
        ({
            let p = |sha: Seq<char>|
                if cohorts.contains_key(sha) {
                    cohorts[sha]@ == label
                } else {
                    label == "MISSING"@
                };
            is_count_of(h, hs, (Category::Cohort, label), p)
        }),
{
    let p = |sha: Seq<char>|
        if cohorts.contains_key(sha) {
            cohorts[sha]@ == label
        } else {
            label == "MISSING"@
        };
    lemma_counts_alike(h, hs, path, cohorts, commits, (Category::Cohort, label), p);
}

/// In the category of authors they are those of the author, or of unknown commits
/// if the label is `UNKNOWN`.
pub proof fn lemma_histogram_authors(
    h: &KeyMap<i64>,
    hs: Seq<Hunk>,
    path: Seq<char>,
    cohorts: Map<Seq<char>, String>,
    commits: Map<Seq<char>, CommitMeta>,
    label: Seq<char>,
)
    requires
        is_histogram(h, hs, path, cohorts, commits),
    ensures
        ({
            let p = |sha: Seq<char>|
                if commits.contains_key(sha) {
                    commits[sha].author@ == label
                } else {
                    label == "UNKNOWN"@
                };
            is_count_of(h, hs, (Category::Author, label), p)
        }),
{
    let p = |sha: Seq<char>|
        if commits.contains_key(sha) {
            commits[sha].author@ == label
        } else {
            label == "UNKNOWN"@
        };
    lemma_counts_alike(h, hs, path, cohorts, commits, (Category::Author, label), p);
}

/// In the category of domains they are those whose authors have an address in the
/// domain, or of unknown commits if the label is `unknown`.
pub proof fn lemma_histogram_domains(
    h: &KeyMap<i64>,
    hs: Seq<Hunk>,
    path: Seq<char>,
    cohorts: Map<Seq<char>, String>,
    commits: Map<Seq<char>, CommitMeta>,
    label: Seq<char>,
)
    requires
        is_histogram(h, hs, path, cohorts, commits),
    ensures
        ({
            let p = |sha: Seq<char>|
                if commits.contains_key(sha) {
                    domain_of(commits[sha].email@) == label
                } else {
                    label == "unknown"@
                };
            is_count_of(h, hs, (Category::Domain, label), p)
        }),
{
    let p = |sha: Seq<char>|
        if commits.contains_key(sha) {
            domain_of(commits[sha].email@) == label
        } else {
            label == "unknown"@
        };
    reveal_strlit("unknown");
    reveal_strlit("unknown@unknown");
    let u = seq!['u', 'n', 'k', 'n', 'o', 'w', 'n'];
    assert("unknown"@ =~= u);
    assert("unknown@unknown"@ =~= u + seq!['@'] + u);
    assert(!u.contains('@'));
    lemma_mail_domain(u, u, seq![]);
    lemma_counts_alike(h, hs, path, cohorts, commits, (Category::Domain, label), p);
}

/// All lines of a file count for its file type and for its top directory, and for
/// no other.
pub proof fn lemma_histogram_places(
    h: &KeyMap<i64>,
    hs: Seq<Hunk>,
    path: Seq<char>,
    cohorts: Map<Seq<char>, String>,
    commits: Map<Seq<char>, CommitMeta>,
    label: Seq<char>,
)
    requires
        is_histogram(h, hs, path, cohorts, commits),
    ensures
        is_count_of(h, hs, (Category::Ext, label), |sha: Seq<char>| ext_of(path) == label),
        is_count_of(h, hs, (Category::Dir, label), |sha: Seq<char>| dir_of(path) == label),
{
    let p = |sha: Seq<char>| ext_of(path) == label;
    let q = |sha: Seq<char>| dir_of(path) == label;
    lemma_counts_alike(h, hs, path, cohorts, commits, (Category::Ext, label), p);
    lemma_counts_alike(h, hs, path, cohorts, commits, (Category::Dir, label), q);
}

/// The lines of each commit that has a cohort are counted for it.
pub proof fn lemma_histogram_shas(
    h: &KeyMap<i64>,
    hs: Seq<Hunk>,
    path: Seq<char>,
    cohorts: Map<Seq<char>, String>,
    commits: Map<Seq<char>, CommitMeta>,
    label: Seq<char>,
)
    requires
        is_histogram(h, hs, path, cohorts, commits),
    ensures
        is_count_of(
            h,
            hs,
            (Category::Sha, label),
            |sha: Seq<char>| sha == label && cohorts.contains_key(label),
        ),
{
    let p = |sha: Seq<char>| sha == label && cohorts.contains_key(label);
    lemma_counts_alike(h, hs, path, cohorts, commits, (Category::Sha, label), p);
}

/// Whether a key is counted if any run comes from a commit that `p` selects, with
/// the number of all lines from such commits.
pub open spec fn is_count_of(
    h: &KeyMap<i64>,
    hs: Seq<Hunk>,
    k: Key,
    p: spec_fn(Seq<char>) -> bool,
) -> bool {
    &&& h@.contains_key(k) <==> exists|i: int| 0 <= i < hs.len() && p((#[trigger] hs[i]).0)
    &&& h@.contains_key(k) ==> h@[k] == wrap(
        sum(
            hs,
            |run: Hunk|
                if p(run.0) {
                    run.1 as int
                } else {
                    0
                },
        ),
    )
}

proof fn lemma_counts_alike(
    h: &KeyMap<i64>,
    hs: Seq<Hunk>,
    path: Seq<char>,
    cohorts: Map<Seq<char>, String>,
    commits: Map<Seq<char>, CommitMeta>,
    k: Key,
    p: spec_fn(Seq<char>) -> bool,
)
    requires
        is_histogram(h, hs, path, cohorts, commits),
        forall|sha: Seq<char>| #[trigger]
            p(sha) <==> counts_for(k, sha, path, cohorts, commits),
    ensures
        is_count_of(h, hs, k, p),
{
    let q = sources(k, path, cohorts, commits);
    let f = |run: Hunk|
        if p(run.0) {
            run.1 as int
        } else {
            0
        };
    let g = |run: Hunk|
        if q(run.0) {
            run.1 as int
        } else {
            0
        };
    assert forall|i: int| 0 <= i < hs.len() implies #[trigger] f(hs[i]) == g(hs[i]) by {
        assert(p(hs[i].0) <==> q(hs[i].0));
    }
    lemma_sum_equal(hs, f, g);
    assert(h@.contains_key(k) <==> any_from(hs, q));
    if any_from(hs, q) {
        let i = choose|i: int| 0 <= i < hs.len() && q((#[trigger] hs[i]).0);
        assert(p(hs[i].0));
    }
    if exists|i: int| 0 <= i < hs.len() && p((#[trigger] hs[i]).0) {
        let i = choose|i: int| 0 <= i < hs.len() && p((#[trigger] hs[i]).0);
        assert(q(hs[i].0));
    }
}

/// Counted commits are runs of lines, one for each.
pub proof fn lemma_counted_runs(counts: &Table<i64>, i: int)
    ensures
        counted(counts).len() == counts.keys().len(),
        0 <= i < counts.keys().len() ==> counted(counts)[i].0 == counts.keys()[i] && counted(
            counts,
        )[i].1 == counts@[counts.keys()[i]],
{
}

/// A line with the name of a commit in hexadecimal, two line numbers and a number
/// of lines announces as many lines from that commit.
pub proof fn lemma_commit_header(bytes: Seq<u8>, a: nat, b: nat, n: nat)
    requires
        bytes.len() == 20,
        n <= i64::MAX,
    ensures
        hunk(
            hex_text(bytes) + seq![' '] + (written(a) + seq![' '] + (written(b) + seq![' ']
                + written(n))),
        ) == Some((hex_text(bytes), n as i64)),
{
    lemma_commit_names(bytes);
    lemma_written_solid(a);
    lemma_written_solid(b);
    lemma_written_solid(n);
    lemma_header(hex_text(bytes), written(a), written(b), written(n), seq![], n);
}

} // verus!
