use std::cmp::Ordering;

use git_of_theseus::count::{minus, plus};
use git_of_theseus::order::{stable_order, Descending, SortKey};
use git_of_theseus::text::{
    chars_of, find_from, lines_of, parse_number, parse_number_or_zero, same_text, slice_chars,
    slice_text, split_chars, splitn_chars, text_of, words_of,
};

fn strings(v: Vec<Vec<char>>) -> Vec<String> {
    v.iter().map(|x| x.iter().collect()).collect()
}

const SAMPLES: [&str; 20] = [
    "",
    "a",
    "\n",
    "\n\n",
    "a\n",
    "a\nb",
    "a\r\nb\r\n",
    "a\rb\n",
    "a\r",
    "\r\n\r\n",
    "a\n\r\nb",
    "  two  words ",
    "\ttab\tseparated\tfields\tand\tmore",
    "a\tb",
    "mixed \t\u{a0}white\u{3000}space\u{2028}here\u{85}end",
    "no\u{200b}space",
    "x@y@@z",
    "äöü ß\t€",
    "100644 blob 0123\tdir/file name.rs",
    "\u{1680}\u{2000}\u{200a}\u{202f}\u{205f}\u{2029}",
];

#[test]
fn texts_and_characters() {
    for s in SAMPLES {
        let v = chars_of(s);
        assert_eq!(v, s.chars().collect::<Vec<char>>());
        assert_eq!(text_of(&v), s);
        assert!(same_text(&v, s));
    }
    assert!(!same_text(&chars_of("a"), "b"));
    assert!(!same_text(&chars_of("a"), ""));
    assert!(!same_text(&chars_of("a"), "ab"));
    assert!(!same_text(&chars_of("ab"), "a"));
}

#[test]
fn slices() {
    let v = chars_of("häuser");
    assert_eq!(slice_text(&v, 1, 3), "äu");
    assert_eq!(slice_text(&v, 2, 2), "");
    assert_eq!(slice_chars(&v, 0, 2), vec!['h', 'ä']);
    assert_eq!(find_from(&v, 0, 'u'), 2);
    assert_eq!(find_from(&v, 3, 'u'), 6);
}

#[test]
fn lines_are_those_of_std() {
    for s in SAMPLES {
        let expected: Vec<String> = s.lines().map(|x| x.to_string()).collect();
        assert_eq!(strings(lines_of(&chars_of(s))), expected, "{s:?}");
    }
}

#[test]
fn pieces_are_those_of_std() {
    for s in SAMPLES {
        for c in ['\t', '@', '\n', 'a'] {
            let expected: Vec<String> = s.split(c).map(|x| x.to_string()).collect();
            assert_eq!(strings(split_chars(&chars_of(s), c)), expected, "{s:?}");
            for n in 0..5 {
                let expected: Vec<String> = s.splitn(n, c).map(|x| x.to_string()).collect();
                assert_eq!(strings(splitn_chars(&chars_of(s), c, n)), expected, "{s:?} {n}");
            }
        }
    }
}

#[test]
fn words_are_those_of_std() {
    for s in SAMPLES {
        let expected: Vec<String> = s.split_whitespace().map(|x| x.to_string()).collect();
        assert_eq!(strings(words_of(&chars_of(s))), expected, "{s:?}");
    }
}

#[test]
fn white_space_is_that_of_std() {
    for n in 0..0x11_0000u32 {
        if let Some(c) = char::from_u32(n) {
            let is_space = words_of(&vec![c]).is_empty();
            assert_eq!(is_space, c.is_whitespace(), "{n:x}");
        }
    }
}

#[test]
fn numbers_are_those_of_std() {
    for s in [
        "0",
        "1",
        "-1",
        "+7",
        "007",
        "",
        "-",
        "+",
        "--1",
        "+-1",
        "1a",
        "a1",
        " 1",
        "1 ",
        "1_000",
        "1.5",
        "9223372036854775807",
        "9223372036854775808",
        "-9223372036854775808",
        "-9223372036854775809",
        "99999999999999999999",
        "-99999999999999999999",
        "000000000000000000000000000012",
        "-0",
        "٣",
    ] {
        let v = chars_of(s);
        assert_eq!(parse_number(&v), s.parse::<i64>().ok(), "{s:?}");
        assert_eq!(parse_number_or_zero(&v), s.parse::<i64>().unwrap_or(0), "{s:?}");
    }
}

#[test]
fn order_of_texts_is_that_of_std() {
    let texts = ["", "a", "b", "ab", "aa", "A", "é", "z", "\u{ffff}", "\u{10000}", "aé", "a\u{0}"];
    for a in texts {
        for b in texts {
            let at_most = chars_of(a).at_most(&chars_of(b));
            assert_eq!(at_most, a.cmp(b) != Ordering::Greater, "{a:?} {b:?}");
        }
    }
}

#[test]
fn sorting_is_stable() {
    assert_eq!(stable_order(&vec![3i64, 1, 2, 1, 3]), vec![1, 3, 2, 0, 4]);
    assert_eq!(stable_order(&Vec::<i64>::new()), Vec::<usize>::new());
    let keys = vec![Descending(1), Descending(5), Descending(1), Descending(9)];
    assert_eq!(stable_order(&keys), vec![3, 1, 0, 2]);
    let names = vec![chars_of("b"), chars_of("a"), chars_of("b"), chars_of("")];
    assert_eq!(stable_order(&names), vec![3, 1, 0, 2]);
}

#[test]
fn sorting_is_that_of_std() {
    let mut seed: u64 = 7;
    for n in 0..60usize {
        let mut keys: Vec<i64> = Vec::new();
        for _ in 0..n {
            seed = seed.wrapping_mul(6364136223846793005).wrapping_add(1442695040888963407);
            keys.push((seed >> 60) as i64);
        }
        let mut expected: Vec<usize> = (0..n).collect();
        expected.sort_by_key(|i| keys[*i]);
        assert_eq!(stable_order(&keys), expected);
    }
}

#[test]
fn counts_wrap_around() {
    assert_eq!(plus(2, 3), 5);
    assert_eq!(minus(2, 3), -1);
    assert_eq!(plus(i64::MAX, 1), i64::MIN);
    assert_eq!(minus(i64::MIN, 1), i64::MAX);
}
