use git_of_theseus::git::{load_commit_meta, CommitMeta};
use git_of_theseus::sample::{plan_commits, sample_by_interval};
use git_of_theseus::table::Table;

fn log(times: &[(&str, i64)]) -> Table<CommitMeta> {
    let mut text = String::new();
    for (sha, ts) in times {
        text.push_str(&format!("{sha}\t{ts}\tA\ta@x\n"));
    }
    load_commit_meta(&text)
}

fn names(list: &[&str]) -> Vec<String> {
    list.iter().map(|s| s.to_string()).collect()
}

#[test]
fn samples_at_intervals() {
    let commits = log(&[("a", 0), ("b", 5), ("c", 10), ("d", 19), ("e", 20), ("f", 100)]);
    let list = names(&["a", "b", "c", "d", "e", "f"]);
    assert_eq!(sample_by_interval(&list, 10, &commits), names(&["a", "c", "e", "f"]));
    assert_eq!(sample_by_interval(&list, 6, &commits), names(&["a", "c", "d", "f"]));
    assert_eq!(sample_by_interval(&list, 1000, &commits), names(&["a"]));
    assert_eq!(sample_by_interval(&list, 1, &commits), list);
}

#[test]
fn no_interval_takes_all() {
    let commits = log(&[("a", 0)]);
    let list = names(&["x", "a", "y"]);
    assert_eq!(sample_by_interval(&list, 0, &commits), list);
    assert_eq!(sample_by_interval(&list, -5, &commits), list);
    assert!(sample_by_interval(&Vec::new(), 0, &commits).is_empty());
}

#[test]
fn unknown_commits_are_skipped() {
    let commits = log(&[("a", 0), ("b", 50)]);
    assert_eq!(sample_by_interval(&names(&["x", "a", "y", "b"]), 10, &commits), names(&["a", "b"]));
    assert_eq!(sample_by_interval(&names(&["x", "y"]), 10, &commits), names(&["x"]));
    assert!(sample_by_interval(&Vec::new(), 10, &commits).is_empty());
}

#[test]
fn times_that_go_back() {
    let commits = log(&[("a", 100), ("b", 50), ("c", 109), ("d", 110)]);
    assert_eq!(
        sample_by_interval(&names(&["a", "b", "c", "d"]), 10, &commits),
        names(&["a", "d"])
    );
}

#[test]
fn samples_are_spaced() {
    let mut times: Vec<(String, i64)> = Vec::new();
    let mut t: i64 = 0;
    for i in 0..200i64 {
        t += (i * 37) % 23 - 5;
        times.push((format!("c{i}"), t));
    }
    let pairs: Vec<(&str, i64)> = times.iter().map(|(s, t)| (s.as_str(), *t)).collect();
    let commits = log(&pairs);
    let list: Vec<String> = times.iter().map(|(s, _)| s.clone()).collect();
    let chosen = sample_by_interval(&list, 30, &commits);
    assert!(chosen.len() > 10);
    let ts = |sha: &String| commits.get(sha).unwrap().ts;
    for pair in chosen.windows(2) {
        assert!(ts(&pair[1]) >= ts(&pair[0]) + 30);
    }
    for (j, sha) in list.iter().enumerate() {
        assert!(list[..=j].iter().any(|c| chosen.contains(c) && ts(sha) < ts(c) + 30));
    }
}

#[test]
fn plans_are_sorted_by_time() {
    let commits = log(&[("a", 30), ("b", 10), ("c", 20), ("d", 10)]);
    let plan = plan_commits(&names(&["d", "x", "c", "b", "a"]), 0, &commits);
    let found: Vec<(&str, i64)> = plan.iter().map(|c| (c.sha.as_str(), c.ts)).collect();
    assert_eq!(found, vec![("b", 10), ("d", 10), ("c", 20), ("a", 30)]);
}

#[test]
fn plans_of_unknown_commits_are_empty() {
    let commits = log(&[("a", 30)]);
    assert!(plan_commits(&names(&["y", "x"]), 10, &commits).is_empty());
    assert!(plan_commits(&Vec::new(), 10, &commits).is_empty());
}

#[test]
fn plans_start_with_the_oldest() {
    let commits = log(&[("a", 0), ("b", 5), ("c", 10)]);
    let plan = plan_commits(&names(&["c", "b", "a"]), 10, &commits);
    let found: Vec<&str> = plan.iter().map(|c| c.sha.as_str()).collect();
    assert_eq!(found, vec!["a", "c"]);
}
