use git_of_theseus::matcher::{build_matcher, path_ok, path_verdict, Matcher, MatcherError};

fn list(patterns: &[&str]) -> Vec<String> {
    patterns.iter().map(|s| s.to_string()).collect()
}

fn matcher(only: &[&str], ignore: &[&str]) -> Option<Matcher> {
    match build_matcher(&list(only), &list(ignore)) {
        Ok(m) => m,
        Err(_) => panic!("patterns are well-formed"),
    }
}

#[test]
fn no_patterns_make_no_matcher() {
    assert!(matcher(&[], &[]).is_none());
    assert!(path_ok("anything", &None));
}

#[test]
fn wanted_patterns() {
    let m = matcher(&["src/*.rs", "lib/**"], &[]);
    assert!(path_ok("src/main.rs", &m));
    assert!(path_ok("lib/a/b.py", &m));
    assert!(!path_ok("doc/main.py", &m));
}

#[test]
fn unwanted_patterns() {
    let m = matcher(&[], &["vendor/**"]);
    assert!(path_ok("src/main.rs", &m));
    assert!(!path_ok("vendor/x.rs", &m));
}

#[test]
fn unwanted_patterns_win() {
    let m = matcher(&["*.rs"], &["src/gen*"]);
    assert!(path_ok("src/main.rs", &m));
    assert!(!path_ok("src/generated.rs", &m));
    assert!(!path_ok("src/main.py", &m));
}

#[test]
fn malformed_wanted_pattern() {
    match build_matcher(&list(&["*.rs", "a{b", "[z-a]"]), &list(&["["])) {
        Err(MatcherError::InvalidOnly { pattern, cause }) => {
            assert_eq!(pattern, "a{b");
            assert_eq!(cause.glob(), Some("a{b"));
        }
        _ => panic!("the second pattern is malformed"),
    }
}

#[test]
fn malformed_unwanted_pattern() {
    match build_matcher(&list(&["*.rs"]), &list(&["["])) {
        Err(MatcherError::InvalidIgnore { pattern, .. }) => assert_eq!(pattern, "["),
        _ => panic!("the pattern is malformed"),
    }
}

#[test]
fn patterns_too_large_together() {
    let mut wide = String::new();
    for _ in 0..60 {
        wide.push_str("[!a]{");
        for i in 0..400 {
            if i > 0 {
                wide.push(',');
            }
            wide.push_str(&format!("*x{i}?[!b]y{i}*"));
        }
        wide.push('}');
    }
    let only = vec![wide.clone(), wide];
    match build_matcher(&only, &Vec::new()) {
        Err(MatcherError::Build { .. }) => {}
        Ok(_) => panic!("the patterns fit into a set"),
        Err(_) => panic!("each pattern is well-formed"),
    }
}

#[test]
fn verdicts() {
    assert!(path_verdict(0, false, false));
    assert!(!path_verdict(0, false, true));
    assert!(!path_verdict(2, false, false));
    assert!(path_verdict(2, true, false));
    assert!(!path_verdict(2, true, true));
}
