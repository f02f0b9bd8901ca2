use git_of_theseus::blame::{blame_counts, file_histogram, histogram_of_counts};
use git_of_theseus::calendar::assign_cohorts;
use git_of_theseus::git::{load_commit_meta, CommitMeta};
use git_of_theseus::table::Table;
use git_of_theseus::tally::{Category, KeyMap};

const A: &str = "aaaaaaaaaaaaaaaaaaaaaaaaaaaaaaaaaaaaaaaa";
const B: &str = "BBBBBBBBBBbbbbbbbbbb00000000001111111111";
const U: &str = "cccccccccccccccccccccccccccccccccccccccc";

const CATEGORIES: [Category; 6] = [
    Category::Cohort,
    Category::Ext,
    Category::Author,
    Category::Dir,
    Category::Domain,
    Category::Sha,
];

fn known() -> (Table<CommitMeta>, Table<String>) {
    let commits = load_commit_meta(&format!(
        "{A}\t0\tAda\tada@example.org\n{B}\t1431648000\tBob\tbob\n"
    ));
    match assign_cohorts(&commits, "%Y") {
        Ok(cohorts) => (commits, cohorts),
        Err(_) => panic!("all times have a cohort"),
    }
}

fn report() -> String {
    format!(
        "{A} 1 1 2\nauthor Ada\n\tfirst line\n{A} 2 2\n\tsecond line\n\
         {B} 1 3 1\n\tthird line\n{A} 9 4 3\n\tfourth\n{A} 10 5\n\tfifth\n{A} 11 6\n\tsixth\n\
         {U} 1 7 4\n\tand so on\n"
    )
}

fn total(h: &KeyMap<i64>, c: Category) -> i64 {
    let t = h.table(c);
    (0..t.len()).map(|i| *t.value(i)).sum()
}

#[test]
fn lines_by_commit() {
    let counts = blame_counts(&report());
    assert_eq!(counts.len(), 3);
    assert_eq!(counts.get(A), Some(&5));
    assert_eq!(counts.get(B), Some(&1));
    assert_eq!(counts.get(U), Some(&4));
}

#[test]
fn what_is_no_header() {
    assert!(blame_counts("").is_empty());
    assert!(blame_counts(&format!("{A} 1 1\n")).is_empty());
    assert!(blame_counts(&format!("{} 1 1 2\n", &A[1..])).is_empty());
    assert!(blame_counts(&format!("{}g 1 1 2\n", &A[1..])).is_empty());
    assert!(blame_counts(&format!("x{A} 1 1 2\n")).is_empty());
}

#[test]
fn lines_of_the_file_are_no_headers() {
    assert!(blame_counts(&format!("\t{A} 1 1 9\n")).is_empty());
    assert!(blame_counts(&format!("  {A} 1 1 9\n")).is_empty());

    let commits = load_commit_meta(&format!("{A}\t0\tX\tx@e.org\n"));
    let cohorts = match assign_cohorts(&commits, "2020") {
        Ok(cohorts) => cohorts,
        Err(_) => panic!("the time has a cohort"),
    };
    let h = file_histogram(&format!("{A} 1 1 1\n\t{B} 1 1 9\n"), "n.txt", &cohorts, &commits);
    for (c, label) in [
        (Category::Cohort, "2020"),
        (Category::Ext, "txt"),
        (Category::Author, "X"),
        (Category::Dir, "n.txt/"),
        (Category::Domain, "e.org"),
        (Category::Sha, A),
    ] {
        assert_eq!(h.get(c, label), Some(&1), "{label}");
        assert_eq!(h.table(c).len(), 1);
    }
}

#[test]
fn odd_headers() {
    let counts = blame_counts(&format!("{A}\t1  1 many\n{B} 1 1 -2 more\n{B} a b 7\n"));
    assert_eq!(counts.get(A), Some(&0));
    assert_eq!(counts.get(B), Some(&5));
}

#[test]
fn histogram_of_a_file() {
    let (commits, cohorts) = known();
    let h = file_histogram(&report(), "src/lib.rs", &cohorts, &commits);
    assert_eq!(h.get(Category::Cohort, "1970"), Some(&5));
    assert_eq!(h.get(Category::Cohort, "2015"), Some(&1));
    assert_eq!(h.get(Category::Cohort, "MISSING"), Some(&4));
    assert_eq!(h.get(Category::Ext, "rs"), Some(&10));
    assert_eq!(h.get(Category::Author, "Ada"), Some(&5));
    assert_eq!(h.get(Category::Author, "Bob"), Some(&1));
    assert_eq!(h.get(Category::Author, "UNKNOWN"), Some(&4));
    assert_eq!(h.get(Category::Dir, "src/"), Some(&10));
    assert_eq!(h.get(Category::Domain, "example.org"), Some(&5));
    assert_eq!(h.get(Category::Domain, "unknown"), Some(&5));
    assert_eq!(h.get(Category::Sha, A), Some(&5));
    assert_eq!(h.get(Category::Sha, B), Some(&1));
    assert_eq!(h.get(Category::Sha, U), None);
    assert_eq!(h.table(Category::Cohort).len(), 3);
    assert_eq!(h.table(Category::Domain).len(), 2);
}

#[test]
fn categories_agree() {
    let (commits, cohorts) = known();
    let h = file_histogram(&report(), "a/b.c", &cohorts, &commits);
    for c in CATEGORIES {
        assert_eq!(total(&h, c), if c == Category::Sha { 6 } else { 10 }, "{}", c.name());
    }
}

#[test]
fn histogram_without_lines() {
    let (commits, cohorts) = known();
    let h = histogram_of_counts(&Table::new(), "a/b.c", &cohorts, &commits);
    for c in CATEGORIES {
        assert!(h.table(c).is_empty());
    }
}

#[test]
fn counts_are_added_and_taken_off() {
    let mut m: KeyMap<i64> = KeyMap::new();
    m.add_count(Category::Ext, "rs", 4);
    m.add_count(Category::Ext, "rs", 3);
    m.add_count(Category::Dir, "src/", 1);
    let mut h: KeyMap<i64> = KeyMap::new();
    h.add_count(Category::Ext, "rs", 2);
    h.add_count(Category::Ext, "py", 5);
    m.merge(&h, false);
    assert_eq!(m.get(Category::Ext, "rs"), Some(&9));
    assert_eq!(m.get(Category::Ext, "py"), Some(&5));
    m.merge(&h, true);
    m.merge(&h, true);
    assert_eq!(m.get(Category::Ext, "rs"), Some(&5));
    assert_eq!(m.get(Category::Ext, "py"), Some(&-5));
    assert_eq!(m.get(Category::Dir, "src/"), Some(&1));
    assert!(!m.contains(Category::Author, "rs"));
}

#[test]
fn names_of_categories() {
    let names: Vec<&str> = CATEGORIES.iter().map(|c| c.name()).collect();
    assert_eq!(names, vec!["cohort", "ext", "author", "dir", "domain", "sha"]);
}

#[test]
fn tables_keep_the_order_of_insertion() {
    let mut t: Table<i64> = Table::new();
    assert!(t.is_empty());
    t.insert("b".to_string(), 1);
    t.insert("a".to_string(), 2);
    t.insert("b".to_string(), 3);
    assert_eq!(t.len(), 2);
    assert_eq!((t.name(0).as_str(), *t.value(0)), ("b", 3));
    assert_eq!((t.name(1).as_str(), *t.value(1)), ("a", 2));
    assert_eq!(t.position("a"), Some(1));
    assert_eq!(t.position("c"), None);
    assert!(t.contains("a") && !t.contains("c"));
    *t.value_mut(1) += 40;
    assert_eq!(t.get("a"), Some(&42));
}
