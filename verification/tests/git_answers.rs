use git_of_theseus::git::{
    blame_args, list_tree_entries, load_commit_meta, load_first_parent_commits, log_args,
    ls_tree_args, rev_list_args,
};
use git_of_theseus::matcher::build_matcher;
use git_of_theseus::setup::{launch_args, worker_count};

#[test]
fn questions() {
    assert_eq!(log_args("main"), vec!["log", "--format=%H%x09%ct%x09%aN%x09%aE", "main"]);
    assert_eq!(rev_list_args("main"), vec!["rev-list", "--first-parent", "main"]);
    assert_eq!(ls_tree_args("abc"), vec!["ls-tree", "-r", "--full-tree", "abc"]);
    assert_eq!(
        blame_args("abc", "x.rs", false),
        vec!["blame", "--line-porcelain", "abc", "--", "x.rs"]
    );
    assert_eq!(
        blame_args("abc", "x.rs", true),
        vec!["blame", "--line-porcelain", "-w", "abc", "--", "x.rs"]
    );
}

#[test]
fn commits_of_a_log() {
    let log = "aaa\t1431648000\tAda\tada@example.org\n\
               bbb\tnot a number\tBob\tbob\n\
               too\tfew\tfields\n\
               ccc\t-5\tCy\tcy@x\tand a tab\n\
               aaa\t7\tAda again\tada@b@c\n";
    let commits = load_commit_meta(log);
    assert_eq!(commits.len(), 3);
    assert_eq!(commits.name(0), "aaa");
    assert_eq!(commits.name(1), "bbb");
    assert_eq!(commits.name(2), "ccc");
    let a = commits.get("aaa").unwrap();
    assert_eq!((a.ts, a.author.as_str(), a.email.as_str()), (7, "Ada again", "ada@b@c"));
    let b = commits.get("bbb").unwrap();
    assert_eq!((b.ts, b.author.as_str(), b.email.as_str()), (0, "Bob", "bob"));
    let c = commits.get("ccc").unwrap();
    assert_eq!((c.ts, c.author.as_str(), c.email.as_str()), (-5, "Cy", "cy@x\tand a tab"));
    assert!(commits.get("too").is_none());
    assert!(load_commit_meta("").is_empty());
}

#[test]
fn first_parent_commits() {
    assert_eq!(load_first_parent_commits("ccc\nbbb\r\naaa\n"), vec!["ccc", "bbb", "aaa"]);
    assert!(load_first_parent_commits("").is_empty());
}

const TREE: &str = "100644 blob 1111\tsrc/main.rs\n\
                    100644 blob 2222\tREADME.md\n\
                    160000 commit 3333\tsubmodule\n\
                    100644 blob 4444\tdocs/a file.py\n\
                    100644 blob\n\
                    120000 blob 5555\tMakefile\n";

fn listed_paths(all: bool, only: &[&str], ignore: &[&str]) -> Vec<String> {
    let only: Vec<String> = only.iter().map(|s| s.to_string()).collect();
    let ignore: Vec<String> = ignore.iter().map(|s| s.to_string()).collect();
    let matcher = match build_matcher(&only, &ignore) {
        Ok(m) => m,
        Err(_) => panic!("patterns are well-formed"),
    };
    list_tree_entries(TREE, all, &matcher).into_iter().map(|e| e.path).collect()
}

#[test]
fn files_of_a_tree() {
    let entries = list_tree_entries(TREE, false, &None);
    let found: Vec<(&str, &str)> =
        entries.iter().map(|e| (e.path.as_str(), e.blob_sha.as_str())).collect();
    assert_eq!(
        found,
        vec![
            ("src/main.rs", "1111"),
            ("docs/a file.py", "4444"),
            ("", ""),
            ("Makefile", "5555"),
        ]
    );
}

#[test]
fn all_file_types_of_a_tree() {
    assert_eq!(
        listed_paths(true, &[], &[]),
        vec!["src/main.rs", "README.md", "docs/a file.py", "", "Makefile"]
    );
}

#[test]
fn wanted_files_of_a_tree() {
    assert_eq!(listed_paths(false, &["src/**"], &[]), vec!["src/main.rs"]);
    assert_eq!(listed_paths(false, &["*.rs", "*.py"], &["docs/**"]), vec!["src/main.rs"]);
    assert_eq!(listed_paths(false, &[], &["*.rs"]), vec!["docs/a file.py", "", "Makefile"]);
}

#[test]
fn workers() {
    assert_eq!(worker_count(Some(3), Some(8)), 3);
    assert_eq!(worker_count(Some(0), None), 0);
    assert_eq!(worker_count(None, Some(8)), 7);
    assert_eq!(worker_count(None, Some(2)), 1);
    assert_eq!(worker_count(None, Some(1)), 1);
    assert_eq!(worker_count(None, None), 1);
}

#[test]
fn launched_arguments() {
    let args = vec!["repo".to_string(), "--quiet".to_string()];
    assert_eq!(launch_args("analyze", &args), vec!["analyze", "repo", "--quiet"]);
    assert_eq!(launch_args("analyze", &Vec::new()), vec!["analyze"]);
}
