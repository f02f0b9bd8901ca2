use std::collections::BTreeMap;

use git_of_theseus::analysis::Analysis;
use git_of_theseus::blame::file_histogram;
use git_of_theseus::calendar::assign_cohorts;
use git_of_theseus::curves::{curve_files, dump_curves};
use git_of_theseus::git::{load_commit_meta, CommitMeta, TreeEntry};
use git_of_theseus::table::Table;
use git_of_theseus::tally::{Category, KeyMap};

const A: &str = "aaaaaaaaaaaaaaaaaaaaaaaaaaaaaaaaaaaaaaaa";
const B: &str = "bbbbbbbbbbbbbbbbbbbbbbbbbbbbbbbbbbbbbbbb";

const BROKEN_DOWN: [Category; 5] =
    [Category::Cohort, Category::Ext, Category::Author, Category::Dir, Category::Domain];

fn known() -> (Table<CommitMeta>, Table<String>) {
    let commits = load_commit_meta(&format!(
        "{A}\t0\tAda\tada@example.org\n{B}\t1431648000\tBob\tbob@example.net\n"
    ));
    match assign_cohorts(&commits, "%Y") {
        Ok(cohorts) => (commits, cohorts),
        Err(_) => panic!("all times have a cohort"),
    }
}

fn tree(files: &[(&str, &str)]) -> Vec<TreeEntry> {
    files
        .iter()
        .map(|(path, blob)| TreeEntry { path: path.to_string(), blob_sha: blob.to_string() })
        .collect()
}

struct Repo {
    commits: Table<CommitMeta>,
    cohorts: Table<String>,
    analysis: Analysis,
}

impl Repo {
    fn new() -> Repo {
        let (commits, cohorts) = known();
        let analysis = Analysis::new(&commits, &cohorts);
        Repo { commits, cohorts, analysis }
    }

    /// Goes over a commit; `lines` says where the lines of files come from, and
    /// leaves out the files that cannot be counted.
    fn step(
        &mut self,
        ts: i64,
        files: &[(&str, &str)],
        lines: &[(&str, &[(&str, i64)])],
    ) -> Vec<String> {
        let pending = self.analysis.begin_commit(&tree(files));
        let check: Vec<String> = pending.check().iter().map(|e| e.path.clone()).collect();
        let mut results: Vec<(String, KeyMap<i64>)> = Vec::new();
        for path in &check {
            if let Some((_, runs)) = lines.iter().find(|(p, _)| p == path) {
                let mut report = String::new();
                for (sha, n) in runs.iter() {
                    report.push_str(&format!("{sha} 1 1 {n}\n\ttext\n"));
                }
                let h = file_histogram(&report, path, &self.cohorts, &self.commits);
                results.push((path.clone(), h));
            }
        }
        self.analysis.finish_commit(pending, ts, format!("t{ts}"), results);
        check
    }

    fn curves(&self, c: Category) -> BTreeMap<String, Vec<i64>> {
        let out = self.analysis.curves_out(c);
        out.labels.into_iter().zip(out.y).collect()
    }

    fn history(&self, sha: &str) -> Option<Vec<(i64, i64)>> {
        self.analysis.commit_history().get(sha).cloned()
    }
}

fn map(items: &[(&str, &[i64])]) -> BTreeMap<String, Vec<i64>> {
    items.iter().map(|(l, v)| (l.to_string(), v.to_vec())).collect()
}

#[test]
fn course_of_an_analysis() {
    let mut r = Repo::new();
    assert_eq!(
        r.step(
            10,
            &[("src/a.rs", "1"), ("b.py", "2")],
            &[("src/a.rs", &[(A, 10)]), ("b.py", &[(A, 4)])],
        ),
        vec!["src/a.rs", "b.py"]
    );
    assert_eq!(
        r.step(
            20,
            &[("src/a.rs", "3"), ("b.py", "2")],
            &[("src/a.rs", &[(A, 7), (B, 5)])],
        ),
        vec!["src/a.rs"]
    );
    assert_eq!(
        r.step(30, &[("src/a.rs", "3"), ("c.py", "4")], &[("c.py", &[(B, 2)])]),
        vec!["c.py"]
    );

    assert_eq!(r.curves(Category::Cohort), map(&[("1970", &[14, 11, 7]), ("2015", &[0, 5, 7])]));
    assert_eq!(r.curves(Category::Author), map(&[("Ada", &[14, 11, 7]), ("Bob", &[0, 5, 7])]));
    assert_eq!(
        r.curves(Category::Domain),
        map(&[("example.net", &[0, 5, 7]), ("example.org", &[14, 11, 7])])
    );
    assert_eq!(r.curves(Category::Ext), map(&[("py", &[4, 4, 2]), ("rs", &[10, 12, 12])]));
    assert_eq!(
        r.curves(Category::Dir),
        map(&[("b.py/", &[4, 4, 0]), ("c.py/", &[0, 0, 2]), ("src/", &[10, 12, 12])])
    );
    assert_eq!(r.history(A), Some(vec![(10, 14), (20, 11), (30, 7)]));
    assert_eq!(r.history(B), Some(vec![(20, 5), (30, 7)]));
    assert_eq!(r.analysis.curves_out(Category::Cohort).ts, vec!["t10", "t20", "t30"]);
}

#[test]
fn curves_add_up_to_all_lines() {
    let mut r = Repo::new();
    let trees: [&[(&str, &str)]; 4] = [
        &[("src/a.rs", "1"), ("b.py", "2")],
        &[("src/a.rs", "3"), ("b.py", "2"), ("d/e", "9")],
        &[("b.py", "7")],
        &[("src/a.rs", "1"), ("b.py", "7")],
    ];
    let totals = [9, 29, 3, 12];
    let lines: [&[(&str, &[(&str, i64)])]; 4] = [
        &[("src/a.rs", &[(A, 4), (B, 3)]), ("b.py", &[(A, 2)])],
        &[("src/a.rs", &[(A, 7)]), ("d/e", &[(B, 20)])],
        &[("b.py", &[(A, 1), (B, 2)])],
        &[("src/a.rs", &[(A, 9)])],
    ];
    for i in 0..4 {
        r.step(i as i64, trees[i], lines[i]);
        for c in BROKEN_DOWN {
            let sum: i64 = r.curves(c).values().map(|v| v[v.len() - 1]).sum();
            assert_eq!(sum, totals[i], "{} {i}", c.name());
        }
    }
    for c in BROKEN_DOWN {
        for curve in r.curves(c).values() {
            assert_eq!(curve.len(), 4);
        }
        for i in 0..4 {
            let sum: i64 = r.curves(c).values().map(|v| v[i]).sum();
            assert_eq!(sum, totals[i], "{} {i}", c.name());
        }
    }
}

#[test]
fn an_idle_commit_changes_nothing() {
    let mut r = Repo::new();
    r.step(10, &[("a.rs", "1")], &[("a.rs", &[(A, 10)])]);
    assert!(r.step(20, &[("a.rs", "1")], &[]).is_empty());
    assert_eq!(r.curves(Category::Ext), map(&[("rs", &[10, 10])]));
    assert_eq!(r.history(A), Some(vec![(10, 10), (20, 10)]));
}

#[test]
fn a_file_that_comes_back_is_counted_again() {
    let mut r = Repo::new();
    r.step(10, &[("a.rs", "1")], &[("a.rs", &[(A, 10)])]);
    assert!(r.step(20, &[], &[]).is_empty());
    assert_eq!(r.step(30, &[("a.rs", "1")], &[("a.rs", &[(A, 10)])]), vec!["a.rs"]);
    assert_eq!(r.curves(Category::Ext), map(&[("rs", &[10, 0, 10])]));
    assert_eq!(r.history(A), Some(vec![(10, 10), (20, 0), (30, 10)]));
}

#[test]
fn a_file_that_cannot_be_counted() {
    let mut r = Repo::new();
    r.step(10, &[("a.rs", "1"), ("b.rs", "1")], &[("a.rs", &[(A, 10)])]);
    assert_eq!(r.curves(Category::Ext), map(&[("rs", &[10])]));
    r.step(20, &[("a.rs", "2"), ("b.rs", "1")], &[]);
    assert_eq!(r.curves(Category::Ext), map(&[("rs", &[10, 0])]));
    r.step(30, &[("a.rs", "3"), ("b.rs", "1")], &[("a.rs", &[(A, 12)])]);
    assert_eq!(r.curves(Category::Ext), map(&[("rs", &[10, 0, 12])]));
    r.step(40, &[("b.rs", "1")], &[]);
    assert_eq!(r.curves(Category::Ext), map(&[("rs", &[10, 0, 12, 0])]));
    r.step(50, &[("a.rs", "3"), ("b.rs", "1")], &[]);
    assert_eq!(r.curves(Category::Ext), map(&[("rs", &[10, 0, 12, 0, 0])]));
}

#[test]
fn a_file_that_is_never_counted_contributes_nothing() {
    let lines: [&[(&str, &[(&str, i64)])]; 3] = [
        &[("a.rs", &[(A, 10)])],
        &[("a.rs", &[(A, 7), (B, 2)])],
        &[],
    ];
    let with: [&[(&str, &str)]; 3] = [
        &[("a.rs", "1"), ("x/y.c", "1")],
        &[("x/y.c", "2"), ("a.rs", "2")],
        &[("a.rs", "2")],
    ];
    let without: [&[(&str, &str)]; 3] = [&[("a.rs", "1")], &[("a.rs", "2")], &[("a.rs", "2")]];
    let mut r = Repo::new();
    let mut q = Repo::new();
    for i in 0..3 {
        r.step(i as i64, with[i], lines[i]);
        q.step(i as i64, without[i], lines[i]);
    }
    for c in [Category::Cohort, Category::Author, Category::Domain] {
        assert_eq!(r.curves(c), q.curves(c));
    }
    assert_eq!(r.curves(Category::Ext), map(&[("c", &[0, 0, 0]), ("rs", &[10, 9, 9])]));
    assert_eq!(q.curves(Category::Ext), map(&[("rs", &[10, 9, 9])]));
    for sha in [A, B] {
        assert_eq!(r.history(sha), q.history(sha));
    }
}

#[test]
fn results_may_come_in_any_order() {
    let (commits, cohorts) = known();
    let files = [("a.rs", "1"), ("b.py", "2"), ("c/d.c", "3")];
    let run = |order: [usize; 3]| {
        let mut analysis = Analysis::new(&commits, &cohorts);
        let pending = analysis.begin_commit(&tree(&files));
        let mut results: Vec<(String, KeyMap<i64>)> = Vec::new();
        for i in order {
            let path = files[i].0;
            let report = format!("{A} 1 1 {}\n{B} 1 1 {}\n", i + 1, 10 * i);
            results.push((path.to_string(), file_histogram(&report, path, &cohorts, &commits)));
        }
        analysis.finish_commit(pending, 5, "t5".to_string(), results);
        let mut found: Vec<(Vec<String>, Vec<Vec<i64>>)> = Vec::new();
        for c in BROKEN_DOWN {
            let out = analysis.curves_out(c);
            found.push((out.labels, out.y));
        }
        (
            found,
            analysis.commit_history().get(A).cloned(),
            analysis.commit_history().get(B).cloned(),
        )
    };
    let expected = run([0, 1, 2]);
    assert_eq!(expected.1, Some(vec![(5, 6)]));
    assert_eq!(expected.2, Some(vec![(5, 30)]));
    for order in [[0, 2, 1], [1, 0, 2], [1, 2, 0], [2, 0, 1], [2, 1, 0]] {
        assert_eq!(run(order), expected);
    }
}

#[test]
fn lines_of_unknown_commits_have_no_curve() {
    let u = "cccccccccccccccccccccccccccccccccccccccc";
    let mut r = Repo::new();
    r.step(10, &[("a.rs", "1")], &[("a.rs", &[(A, 10), (u, 5)])]);
    assert_eq!(r.curves(Category::Cohort), map(&[("1970", &[10]), ("2015", &[0])]));
    assert_eq!(r.curves(Category::Ext), map(&[("rs", &[15])]));
    assert_eq!(r.history(u), None);
}

#[test]
fn the_last_entry_of_a_path_is_its_file() {
    let mut r = Repo::new();
    assert_eq!(
        r.step(10, &[("a.rs", "1"), ("a.rs", "2")], &[("a.rs", &[(A, 1)])]),
        vec!["a.rs", "a.rs"]
    );
    assert!(r.step(20, &[("a.rs", "2")], &[]).is_empty());
}

#[test]
fn a_path_listed_twice_is_taken_off_twice() {
    let first: [(&str, &str); 2] = [("a.rs", "1"), ("a.rs", "1")];
    let second: [(&str, &str); 2] = [("a.rs", "2"), ("a.rs", "2")];
    let lines: [(&str, &[(&str, i64)]); 1] = [("a.rs", &[(A, 3)])];
    let mut r = Repo::new();
    r.step(10, &first, &lines);
    assert_eq!(r.curves(Category::Ext), map(&[("rs", &[6])]));
    r.step(20, &second, &[]);
    assert_eq!(r.curves(Category::Ext), map(&[("rs", &[6, 0])]));

    let mut r = Repo::new();
    r.step(10, &first, &lines);
    r.step(20, &second, &lines);
    assert_eq!(r.curves(Category::Ext), map(&[("rs", &[6, 6])]));
    r.step(30, &[("a.rs", "2"), ("a.rs", "3")], &lines);
    assert_eq!(r.curves(Category::Ext), map(&[("rs", &[6, 6, 6])]));
    r.step(40, &[], &[]);
    assert_eq!(r.curves(Category::Ext), map(&[("rs", &[6, 6, 6, 3])]));
}

#[test]
fn histories_start_with_the_first_counted_line() {
    let mut r = Repo::new();
    r.step(10, &[("a.rs", "1")], &[("a.rs", &[(A, 4)])]);
    r.step(15, &[("a.rs", "2")], &[]);
    r.step(20, &[("a.rs", "3"), ("b.rs", "1")], &[("a.rs", &[(B, 2)]), ("b.rs", &[(B, 5)])]);
    r.step(30, &[("b.rs", "1")], &[]);
    assert_eq!(r.history(A), Some(vec![(10, 4), (15, 0), (20, 0), (30, 0)]));
    assert_eq!(r.history(B), Some(vec![(20, 7), (30, 5)]));
    assert_eq!(r.analysis.commit_history().len(), 2);
}

#[test]
fn an_analysis_without_commits() {
    let r = Repo::new();
    let out = r.analysis.curves_out(Category::Author);
    assert_eq!(out.labels, vec!["Ada", "Bob"]);
    assert_eq!(out.y, vec![Vec::<i64>::new(), Vec::new()]);
    assert!(out.ts.is_empty());
    assert!(r.analysis.commit_history().is_empty());
}

#[test]
fn dumped_curves_are_sorted() {
    let mut keys: KeyMap<()> = KeyMap::new();
    let mut curves: KeyMap<Vec<i64>> = KeyMap::new();
    for label in ["b", "é", "", "a", "B"] {
        keys.insert(Category::Author, label.to_string(), ());
    }
    keys.insert(Category::Ext, "x".to_string(), ());
    curves.insert(Category::Author, "a".to_string(), vec![3, 4]);
    curves.insert(Category::Author, "stray".to_string(), vec![5, 6]);
    let ts = vec!["t0".to_string(), "t1".to_string()];
    let out = dump_curves(Category::Author, &keys, &curves, &ts);
    assert_eq!(out.labels, vec!["", "B", "a", "b", "é"]);
    assert_eq!(out.y, vec![vec![0, 0], vec![0, 0], vec![3, 4], vec![0, 0], vec![0, 0]]);
    assert_eq!(out.ts, ts);
}

#[test]
fn files_of_curves() {
    let files: Vec<(&str, &str)> =
        curve_files().into_iter().map(|(c, file)| (c.name(), file)).collect();
    assert_eq!(
        files,
        vec![
            ("cohort", "cohorts.json"),
            ("ext", "exts.json"),
            ("author", "authors.json"),
            ("dir", "dirs.json"),
            ("domain", "domains.json"),
        ]
    );
}
