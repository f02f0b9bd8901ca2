use std::path::Path;

use git_of_theseus::path::{dataset_label, email_domain, file_ext, is_probably_code, top_dir};

fn std_ext(path: &str) -> String {
    Path::new(path)
        .extension()
        .map(|x| x.to_string_lossy().to_string())
        .unwrap_or_default()
}

fn std_label(path: &str) -> String {
    Path::new(path)
        .parent()
        .and_then(|p| p.file_name())
        .map(|x| x.to_string_lossy().to_string())
        .unwrap_or_else(|| path.to_string())
}

const PATHS: [&str; 32] = [
    "",
    ".",
    "..",
    "/",
    "//",
    "a",
    "a/",
    "a//",
    "a/.",
    "a/..",
    "./a",
    "../a",
    "a/b",
    "a//b",
    "a/./b",
    "a/../b",
    "/a",
    "/a/b",
    "a/b/",
    "a/b/.",
    "a.rs",
    "src/main.rs",
    "src/.gitignore",
    ".bashrc",
    "..rs",
    "a.tar.gz",
    "name.",
    "dir.d/file",
    "dir.d/file.c/",
    "dir.d/file.c/.",
    "weird/..a",
    "é/ü.ß",
];

#[test]
fn file_types() {
    assert_eq!(file_ext("src/main.rs"), "rs");
    assert_eq!(file_ext("a.tar.gz"), "gz");
    assert_eq!(file_ext("Makefile"), "");
    assert_eq!(file_ext(".gitignore"), "");
    assert_eq!(file_ext("name."), "");
    assert_eq!(file_ext("dir.d/file"), "");
    assert_eq!(file_ext("x.RS"), "RS");
}

#[test]
fn file_types_are_those_of_std() {
    for path in PATHS {
        assert_eq!(file_ext(path), std_ext(path), "{path:?}");
    }
}

#[test]
fn labels_are_those_of_std() {
    for path in PATHS {
        assert_eq!(dataset_label(path), std_label(path), "{path:?}");
    }
}

#[test]
fn data_set_labels() {
    assert_eq!(dataset_label("linux/survival.json"), "linux");
    assert_eq!(dataset_label("out/git/survival.json"), "git");
    assert_eq!(dataset_label("survival.json"), "survival.json");
    assert_eq!(dataset_label("../survival.json"), "../survival.json");
}

#[test]
fn top_directories() {
    assert_eq!(top_dir("src/bin/x.rs"), "src/");
    assert_eq!(top_dir("README.md"), "README.md/");
    assert_eq!(top_dir("/x"), "/");
    assert_eq!(top_dir(""), "/");
}

#[test]
fn mail_domains() {
    assert_eq!(email_domain("me@example.org"), "example.org");
    assert_eq!(email_domain("me"), "unknown");
    assert_eq!(email_domain("a@b@c"), "b");
    assert_eq!(email_domain("a@"), "");
    assert_eq!(email_domain(""), "unknown");
}

#[test]
fn source_code() {
    for path in ["a.rs", "Makefile", "x/y.py", "conf.yml", ".gitignore", "a.tsx", "script.fish"] {
        assert!(is_probably_code(path), "{path}");
    }
    for path in ["README.md", "a.png", "x.json", "a.RS", "page.html", "a.tar.gz"] {
        assert!(!is_probably_code(path), "{path}");
    }
}
