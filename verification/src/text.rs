//! Text as a sequence of characters: splitting into lines, fields and words,
//! and reading decimal numbers.

use vstd::prelude::*;

verus! {

/// Appending one character to a string, as `String::push` documents it.
pub assume_specification[ String::push ](s: &mut String, c: char)
    ensures
        final(s)@ == old(s)@.push(c),
;

/// The characters of each piece of a list of pieces.
pub open spec fn pieces(v: Seq<Vec<char>>) -> Seq<Seq<char>> {
    Seq::new(v.len(), |i: int| v[i]@)
}

/// The characters of each string of a list of strings.
pub open spec fn texts(v: Seq<String>) -> Seq<Seq<char>> {
    Seq::new(v.len(), |i: int| v[i]@)
}

/// Position of the first `c` in `s`, or the length of `s` if there is none.
pub open spec fn first_at(s: Seq<char>, c: char) -> int
    decreases s.len(),
{
    if s.len() == 0 || s[0] == c {
        0
    } else {
        1 + first_at(s.skip(1), c)
    }
}

/// The pieces of `s` between the occurrences of `c`; always at least one.
pub open spec fn split(s: Seq<char>, c: char) -> Seq<Seq<char>>
    decreases s.len(),
{
    let i = first_at(s, c);
    if i < 0 || i >= s.len() {
        seq![s]
    } else {
        seq![s.take(i)] + split(s.skip(i + 1), c)
    }
}

/// Like [`split`], but cuts at most `n - 1` times: the last piece keeps the rest.
pub open spec fn splitn(s: Seq<char>, c: char, n: nat) -> Seq<Seq<char>>
    decreases n,
{
    let i = first_at(s, c);
    if n == 0 {
        seq![]
    } else if n == 1 || i >= s.len() {
        seq![s]
    } else {
        seq![s.take(i)] + splitn(s.skip(i + 1), c, (n - 1) as nat)
    }
}

/// A line without the carriage return of a `\r\n` ending.
pub open spec fn strip_cr(s: Seq<char>) -> Seq<char> {
    if s.len() > 0 && s.last() == '\r' {
        s.drop_last()
    } else {
        s
    }
}

/// The lines of `s`. A line ends at `\n` or `\r\n`, which do not belong to it;
/// the ending of the last line is optional.
pub open spec fn lines(s: Seq<char>) -> Seq<Seq<char>>
    decreases s.len(),
{
    let i = first_at(s, '\n');
    if s.len() == 0 {
        seq![]
    } else if i < 0 || i >= s.len() {
        seq![s]
    } else {
        seq![strip_cr(s.take(i))] + lines(s.skip(i + 1))
    }
}

/// Unicode `White_Space`.
pub open spec fn is_space(c: char) -> bool {
    ||| '\u{9}' <= c <= '\u{d}'
    ||| c == ' '
    ||| c == '\u{85}'
    ||| c == '\u{a0}'
    ||| c == '\u{1680}'
    ||| '\u{2000}' <= c <= '\u{200a}'
    ||| c == '\u{2028}'
    ||| c == '\u{2029}'
    ||| c == '\u{202f}'
    ||| c == '\u{205f}'
    ||| c == '\u{3000}'
}

/// Length of the run of characters before the first white space.
pub open spec fn word_len(s: Seq<char>) -> int
    decreases s.len(),
{
    if s.len() == 0 || is_space(s[0]) {
        0
    } else {
        1 + word_len(s.skip(1))
    }
}

/// The maximal runs of characters that are not white space, in order.
pub open spec fn words(s: Seq<char>) -> Seq<Seq<char>>
    decreases s.len(),
{
    if s.len() == 0 {
        seq![]
    } else if is_space(s[0]) {
        words(s.skip(1))
    } else {
        let n = word_len(s);
        if n <= 0 || n > s.len() {
            seq![]
        } else {
            seq![s.take(n)] + words(s.skip(n))
        }
    }
}

/// The word at position `i`, or the empty text.
pub open spec fn word(s: Seq<char>, i: int) -> Seq<char> {
    if 0 <= i < words(s).len() {
        words(s)[i]
    } else {
        seq![]
    }
}

pub open spec fn is_digit(c: char) -> bool {
    '0' <= c <= '9'
}

pub open spec fn is_hex_digit(c: char) -> bool {
    is_digit(c) || 'a' <= c <= 'f' || 'A' <= c <= 'F'
}

/// Value of a sequence of decimal digits, most significant first.
pub open spec fn decimal(s: Seq<char>) -> int
    decreases s.len(),
{
    if s.len() == 0 {
        0
    } else {
        10 * decimal(s.drop_last()) + (s.last() as int - '0' as int)
    }
}

/// The digits of a number without its sign.
pub open spec fn magnitude(s: Seq<char>) -> Seq<char> {
    if s.len() > 0 && (s[0] == '-' || s[0] == '+') {
        s.skip(1)
    } else {
        s
    }
}

/// The 64-bit number that `s` writes in decimal: an optional sign, then one or
/// more digits and nothing else, with a value in range.
pub open spec fn number(s: Seq<char>) -> Option<i64> {
    let digits = magnitude(s);
    let value = if s.len() > 0 && s[0] == '-' {
        -decimal(digits)
    } else {
        decimal(digits)
    };
    if digits.len() > 0 && (forall|i: int| 0 <= i < digits.len() ==> is_digit(#[trigger] digits[i]))
        && i64::MIN <= value <= i64::MAX {
        Some(value as i64)
    } else {
        None
    }
}

/// [`number`], with zero for what is not a number.
pub open spec fn number_or_zero(s: Seq<char>) -> i64 {
    match number(s) {
        Some(n) => n,
        None => 0,
    }
}

pub proof fn lemma_first_at(s: Seq<char>, c: char)
    ensures
        0 <= first_at(s, c) <= s.len(),
        first_at(s, c) < s.len() ==> s[first_at(s, c)] == c,
        forall|j: int| 0 <= j < first_at(s, c) ==> s[j] != c,
        first_at(s, c) < s.len() <==> s.contains(c),
    decreases s.len(),
{
    if s.len() == 0 || s[0] == c {
        if s.len() > 0 {
            assert(s[0] == c);
        }
    } else {
        let t = s.skip(1);
        lemma_first_at(t, c);
        assert forall|j: int| 0 <= j < first_at(s, c) implies s[j] != c by {
            if j > 0 {
                assert(t[j - 1] == s[j]);
            }
        }
        if first_at(t, c) < t.len() {
            assert(t[first_at(t, c)] == s[first_at(s, c)]);
        }
        if s.contains(c) {
            let j = choose|j: int| 0 <= j < s.len() && s[j] == c;
            assert(t[j - 1] == c);
        }
    }
}

proof fn lemma_first_at_is(s: Seq<char>, c: char, i: int)
    requires
        0 <= i <= s.len(),
        i < s.len() ==> s[i] == c,
        forall|j: int| 0 <= j < i ==> s[j] != c,
    ensures
        first_at(s, c) == i,
{
    lemma_first_at(s, c);
}

proof fn lemma_word_len_is(s: Seq<char>, i: int)
    requires
        0 <= i <= s.len(),
        i < s.len() ==> is_space(s[i]),
        forall|j: int| 0 <= j < i ==> !is_space(#[trigger] s[j]),
    ensures
        word_len(s) == i,
    decreases s.len(),
{
    if s.len() > 0 && i > 0 {
        assert(!is_space(s[0]));
        let t = s.skip(1);
        assert forall|j: int| 0 <= j < i - 1 implies !is_space(#[trigger] t[j]) by {
            assert(!is_space(s[j + 1]));
        }
        lemma_word_len_is(t, i - 1);
    }
}

pub proof fn lemma_splitn_len(s: Seq<char>, c: char, n: nat)
    ensures
        splitn(s, c, n).len() <= n,
        n > 0 ==> splitn(s, c, n).len() > 0,
    decreases n,
{
    lemma_first_at(s, c);
    if n > 1 && first_at(s, c) < s.len() {
        lemma_splitn_len(s.skip(first_at(s, c) + 1), c, (n - 1) as nat);
    }
}

/// The characters of a string.
pub fn chars_of(s: &str) -> (v: Vec<char>)
    ensures
        v@ == s@,
{
    let mut v: Vec<char> = Vec::new();
    for c in it: s.chars()
        invariant
            it.seq() == s@,
            v@ == s@.take(it.index() as int),
    {
        v.push(c);
        assert(s@.take(it.index() + 1) == s@.take(it.index() as int).push(c));
    }
    assert(s@.take(s@.len() as int) == s@);
    v
}

/// The string made of the characters `v[from..to]`.
pub fn slice_text(v: &Vec<char>, from: usize, to: usize) -> (s: String)
    requires
        from <= to <= v@.len(),
    ensures
        s@ == v@.subrange(from as int, to as int),
{
    let mut s = String::new();
    let mut i: usize = from;
    while i < to
        invariant
            from <= i <= to <= v@.len(),
            s@ == v@.subrange(from as int, i as int),
        decreases to - i,
    {
        s.push(v[i]);
        i = i + 1;
        assert(v@.subrange(from as int, i as int) == v@.subrange(from as int, i - 1).push(
            v@[i - 1],
        ));
    }
    s
}

/// The string made of the characters `v`.
pub fn text_of(v: &Vec<char>) -> (s: String)
    ensures
        s@ == v@,
{
    let s = slice_text(v, 0, v.len());
    assert(v@.subrange(0, v@.len() as int) == v@);
    s
}

pub fn slice_chars(v: &Vec<char>, from: usize, to: usize) -> (s: Vec<char>)
    requires
        from <= to <= v@.len(),
    ensures
        s@ == v@.subrange(from as int, to as int),
{
    let mut s: Vec<char> = Vec::new();
    let mut i: usize = from;
    while i < to
        invariant
            from <= i <= to <= v@.len(),
            s@ == v@.subrange(from as int, i as int),
        decreases to - i,
    {
        s.push(v[i]);
        i = i + 1;
        assert(v@.subrange(from as int, i as int) == v@.subrange(from as int, i - 1).push(
            v@[i - 1],
        ));
    }
    s
}

/// Position of the first `c` at or after `from`, or the length of `v`.
pub fn find_from(v: &Vec<char>, from: usize, c: char) -> (i: usize)
    requires
        from <= v@.len(),
    ensures
        from <= i <= v@.len(),
        i - from == first_at(v@.skip(from as int), c),
{
    let mut i: usize = from;
    while i < v.len() && v[i] != c
        invariant
            from <= i <= v@.len(),
            forall|j: int| from <= j < i ==> v@[j] != c,
        decreases v@.len() - i,
    {
        i = i + 1;
    }
    proof {
        lemma_first_at_is(v@.skip(from as int), c, i - from);
    }
    i
}

/// Splits `v` at every `c`.
pub fn split_chars(v: &Vec<char>, c: char) -> (out: Vec<Vec<char>>)
    ensures
        pieces(out@) == split(v@, c),
{
    let mut out: Vec<Vec<char>> = Vec::new();
    let mut start: usize = 0;
    let mut i = find_from(v, 0, c);
    assert(v@.skip(0) == v@);
    while i < v.len()
        invariant
            start <= i <= v@.len(),
            i - start == first_at(v@.skip(start as int), c),
            pieces(out@) + split(v@.skip(start as int), c) == split(v@, c),
        decreases v@.len() - i,
    {
        let piece = slice_chars(v, start, i);
        proof {
            let rest = v@.skip(start as int);
            assert(rest.take(i - start) == piece@);
            assert(rest.skip(i - start + 1) == v@.skip(i + 1));
            assert(pieces(out@.push(piece)) == pieces(out@) + seq![piece@]);
            assert((pieces(out@) + seq![piece@]) + split(v@.skip(i + 1), c) == pieces(out@) + split(
                rest,
                c,
            ));
        }
        out.push(piece);
        start = i + 1;
        i = find_from(v, start, c);
    }
    let piece = slice_chars(v, start, v.len());
    proof {
        assert(piece@ == v@.skip(start as int));
        assert(pieces(out@.push(piece)) == pieces(out@) + seq![piece@]);
    }
    out.push(piece);
    out
}

/// Splits `v` at `c` into at most `n` pieces.
pub fn splitn_chars(v: &Vec<char>, c: char, n: usize) -> (out: Vec<Vec<char>>)
    ensures
        pieces(out@) == splitn(v@, c, n as nat),
{
    let mut out: Vec<Vec<char>> = Vec::new();
    let mut left: usize = n;
    let mut start: usize = 0;
    assert(v@.skip(0) == v@);
    while left > 1
        invariant
            left <= n,
            start <= v@.len(),
            pieces(out@) + splitn(v@.skip(start as int), c, left as nat) == splitn(
                v@,
                c,
                n as nat,
            ),
        decreases left,
    {
        let i = find_from(v, start, c);
        if i == v.len() {
            left = 1;
        } else {
            let piece = slice_chars(v, start, i);
            proof {
                let rest = v@.skip(start as int);
                lemma_first_at(rest, c);
                assert(rest.take(i - start) == v@.subrange(start as int, i as int));
                assert(rest.skip(i - start + 1) == v@.skip(i + 1));
                assert(pieces(out@.push(piece)) == pieces(out@) + seq![piece@]);
                assert((pieces(out@) + seq![piece@]) + splitn(
                    v@.skip(i + 1),
                    c,
                    (left - 1) as nat,
                ) == pieces(out@) + splitn(rest, c, left as nat));
            }
            out.push(piece);
            start = i + 1;
            left = left - 1;
        }
    }
    if left == 1 {
        let piece = slice_chars(v, start, v.len());
        proof {
            assert(piece@ == v@.skip(start as int));
            assert(pieces(out@.push(piece)) == pieces(out@) + seq![piece@]);
        }
        out.push(piece);
    } else {
        assert(pieces(out@) == splitn(v@, c, n as nat));
    }
    out
}

/// The lines of a text.
pub fn lines_of(v: &Vec<char>) -> (out: Vec<Vec<char>>)
    ensures
        pieces(out@) == lines(v@),
{
    let mut out: Vec<Vec<char>> = Vec::new();
    let mut start: usize = 0;
    assert(v@.skip(0) == v@);
    while start < v.len()
        invariant
            start <= v@.len(),
            pieces(out@) + lines(v@.skip(start as int)) == lines(v@),
        decreases v@.len() - start,
    {
        let i = find_from(v, start, '\n');
        let ghost rest = v@.skip(start as int);
        if i == v.len() {
            let piece = slice_chars(v, start, i);
            proof {
                assert(piece@ == rest);
                assert(pieces(out@.push(piece)) == pieces(out@) + seq![piece@]);
                assert(v@.skip(i as int) == Seq::<char>::empty());
            }
            out.push(piece);
            start = i;
        } else {
            let end: usize = if i > start && v[i - 1] == '\r' {
                i - 1
            } else {
                i
            };
            let piece = slice_chars(v, start, end);
            proof {
                assert(rest.take(i - start) == v@.subrange(start as int, i as int));
                assert(piece@ == strip_cr(rest.take(i - start)));
                assert(rest.skip(i - start + 1) == v@.skip(i + 1));
                assert(pieces(out@.push(piece)) == pieces(out@) + seq![piece@]);
                assert((pieces(out@) + seq![piece@]) + lines(v@.skip(i + 1)) == pieces(out@)
                    + lines(rest));
            }
            out.push(piece);
            start = i + 1;
        }
    }
    proof {
        assert(v@.skip(start as int) == Seq::<char>::empty());
        assert(pieces(out@) + lines(v@.skip(start as int)) == pieces(out@));
    }
    out
}

/// Whether a character is white space.
pub fn is_space_char(c: char) -> (b: bool)
    ensures
        b == is_space(c),
{
    ('\u{9}' <= c && c <= '\u{d}') || c == ' ' || c == '\u{85}' || c == '\u{a0}' || c == '\u{1680}'
        || ('\u{2000}' <= c && c <= '\u{200a}') || c == '\u{2028}' || c == '\u{2029}' || c
        == '\u{202f}' || c == '\u{205f}' || c == '\u{3000}'
}

/// The words of a text.
pub fn words_of(v: &Vec<char>) -> (out: Vec<Vec<char>>)
    ensures
        pieces(out@) == words(v@),
{
    let mut out: Vec<Vec<char>> = Vec::new();
    let mut start: usize = 0;
    assert(v@.skip(0) == v@);
    while start < v.len()
        invariant
            start <= v@.len(),
            pieces(out@) + words(v@.skip(start as int)) == words(v@),
        decreases v@.len() - start,
    {
        let ghost rest = v@.skip(start as int);
        if is_space_char(v[start]) {
            assert(rest.skip(1) == v@.skip(start + 1));
            start = start + 1;
        } else {
            let mut i: usize = start + 1;
            while i < v.len() && !is_space_char(v[i])
                invariant
                    start < i <= v@.len(),
                    forall|j: int| start <= j < i ==> !is_space(#[trigger] v@[j]),
                decreases v@.len() - i,
            {
                i = i + 1;
            }
            let piece = slice_chars(v, start, i);
            proof {
                assert forall|j: int| 0 <= j < i - start implies !is_space(#[trigger] rest[j]) by {
                    assert(!is_space(v@[start + j]));
                }
                lemma_word_len_is(rest, i - start);
                assert(!is_space(rest[0]));
                assert(rest.take(i - start) == piece@);
                assert(rest.skip(i - start) == v@.skip(i as int));
                assert(pieces(out@.push(piece)) == pieces(out@) + seq![piece@]);
                assert((pieces(out@) + seq![piece@]) + words(v@.skip(i as int)) == pieces(out@)
                    + words(rest));
            }
            out.push(piece);
            start = i;
        }
    }
    proof {
        assert(v@.skip(start as int) == Seq::<char>::empty());
        assert(pieces(out@) + words(v@.skip(start as int)) == pieces(out@));
    }
    out
}

proof fn lemma_decimal_grows(s: Seq<char>, i: int)
    requires
        0 <= i <= s.len(),
        forall|j: int| 0 <= j < s.len() ==> is_digit(#[trigger] s[j]),
    ensures
        0 <= decimal(s.take(i)) <= decimal(s),
    decreases s.len(),
{
    if i == s.len() {
        assert(s.take(i) == s);
        if i > 0 {
            assert(is_digit(s[i - 1]));
            let t = s.drop_last();
            assert forall|j: int| 0 <= j < t.len() implies is_digit(#[trigger] t[j]) by {
                assert(is_digit(s[j]));
            }
            lemma_decimal_grows(t, t.len() as int);
            assert(t.take(t.len() as int) == t);
        }
    } else {
        assert(is_digit(s[s.len() - 1]));
        let t = s.drop_last();
        assert forall|j: int| 0 <= j < t.len() implies is_digit(#[trigger] t[j]) by {
            assert(is_digit(s[j]));
        }
        lemma_decimal_grows(t, i);
        assert(t.take(i) == s.take(i));
    }
}

/// Reads a decimal 64-bit number.
pub fn parse_number(v: &Vec<char>) -> (out: Option<i64>)
    ensures
        out == number(v@),
{
    let negative = v.len() > 0 && v[0] == '-';
    let signed = v.len() > 0 && (v[0] == '-' || v[0] == '+');
    let start: usize = if signed {
        1
    } else {
        0
    };
    let ghost digits = magnitude(v@);
    assert(signed ==> digits == v@.skip(1));
    if start == v.len() {
        return None;
    }
    let mut total: i128 = 0;
    let mut i: usize = start;
    assert(digits.take(0) == Seq::<char>::empty());
    while i < v.len()
        invariant
            start <= i <= v@.len(),
            digits == magnitude(v@),
            digits.len() == v@.len() - start,
            forall|j: int| 0 <= j < digits.len() ==> #[trigger] digits[j] == v@[j + start],
            forall|j: int| 0 <= j < i - start ==> is_digit(#[trigger] digits[j]),
            total == decimal(digits.take(i - start)),
            0 <= total <= 0x8000_0000_0000_0000,
        decreases v@.len() - i,
    {
        let c = v[i];
        assert(c == digits[i - start]);
        if c < '0' || c > '9' {
            assert(!is_digit(digits[i - start]));
            return None;
        }
        let digit = (c as u32 - '0' as u32) as i128;
        total = 10 * total + digit;
        i = i + 1;
        proof {
            let p = digits.take(i - start);
            assert(p.drop_last() == digits.take(i - start - 1));
            assert(p.last() == c);
        }
        if total > 0x8000_0000_0000_0000 {
            proof {
                if forall|j: int| 0 <= j < digits.len() ==> is_digit(#[trigger] digits[j]) {
                    lemma_decimal_grows(digits, i - start);
                }
            }
            return None;
        }
    }
    assert(digits.take(digits.len() as int) == digits);
    if negative {
        Some((-total) as i64)
    } else if total <= 0x7fff_ffff_ffff_ffff {
        Some(total as i64)
    } else {
        None
    }
}

/// [`parse_number`], with zero for what is not a number.
pub fn parse_number_or_zero(v: &Vec<char>) -> (n: i64)
    ensures
        n == number_or_zero(v@),
{
    match parse_number(v) {
        Some(n) => n,
        None => 0,
    }
}

/// Whether two texts are the same.
pub fn same_text(a: &Vec<char>, b: &str) -> (r: bool)
    ensures
        r == (a@ == b@),
{
    let other = chars_of(b);
    if a.len() != other.len() {
        return false;
    }
    let mut i: usize = 0;
    while i < a.len()
        invariant
            i <= a@.len() == other@.len(),
            other@ == b@,
            forall|j: int| 0 <= j < i ==> a@[j] == other@[j],
        decreases a@.len() - i,
    {
        if a[i] != other[i] {
            return false;
        }
        i = i + 1;
    }
    assert(a@ == other@);
    true
}

/// What each piece and each text of a list holds.
pub proof fn lemma_lists_of_texts(v: Seq<Vec<char>>, w: Seq<String>)
    ensures
        pieces(v).len() == v.len(),
        forall|i: int| 0 <= i < v.len() ==> (#[trigger] pieces(v)[i]) == v[i]@,
        texts(w).len() == w.len(),
        forall|i: int| 0 <= i < w.len() ==> (#[trigger] texts(w)[i]) == w[i]@,
{
}

proof fn lemma_first_cut(a: Seq<char>, c: char, rest: Seq<char>)
    requires
        !a.contains(c),
    ensures
        first_at(a, c) == a.len(),
        first_at(a + seq![c] + rest, c) == a.len(),
        (a + seq![c] + rest).take(a.len() as int) == a,
        (a + seq![c] + rest).skip(a.len() as int + 1) == rest,
{
    let s = a + seq![c] + rest;
    assert forall|j: int| 0 <= j < a.len() implies a[j] != c by {
        assert(a.contains(a[j]));
    }
    lemma_first_at_is(a, c, a.len() as int);
    assert(s[a.len() as int] == c);
    assert forall|j: int| 0 <= j < a.len() implies s[j] != c by {
        assert(s[j] == a[j]);
    }
    lemma_first_at_is(s, c, a.len() as int);
    assert(s.take(a.len() as int) =~= a);
    assert(s.skip(a.len() as int + 1) =~= rest);
}

/// A text is split at each separator: what stands before the first is the first
/// piece, and the pieces of what follows it are the others. A text without the
/// separator is one piece.
pub proof fn lemma_split_cut(a: Seq<char>, c: char, rest: Seq<char>)
    requires
        !a.contains(c),
    ensures
        split(a, c) == seq![a],
        split(a + seq![c] + rest, c) == seq![a] + split(rest, c),
{
    lemma_first_cut(a, c, rest);
}

/// What stands behind the last separator is the last piece.
pub proof fn lemma_split_last(d: Seq<char>, c: char, f: Seq<char>)
    requires
        !f.contains(c),
    ensures
        split(d + seq![c] + f, c) == split(d, c).push(f),
    decreases d.len(),
{
    let i = first_at(d, c);
    lemma_first_at(d, c);
    if i >= d.len() {
        lemma_split_cut(d, c, f);
        lemma_split_cut(f, c, seq![]);
        assert(split(d + seq![c] + f, c) =~= split(d, c).push(f));
    } else {
        let a = d.take(i);
        let r = d.skip(i + 1);
        assert(!a.contains(c)) by {
            if a.contains(c) {
                let j = choose|j: int| 0 <= j < a.len() && a[j] == c;
                assert(d[j] == c);
            }
        }
        assert(d =~= a + seq![c] + r);
        assert(d + seq![c] + f =~= a + seq![c] + (r + seq![c] + f));
        lemma_split_cut(a, c, r);
        lemma_split_cut(a, c, r + seq![c] + f);
        lemma_split_last(r, c, f);
        assert(split(d + seq![c] + f, c) =~= split(d, c).push(f));
    }
}

/// Splitting into at most `n` pieces: the last of them keeps the rest.
pub proof fn lemma_splitn_cut(a: Seq<char>, c: char, rest: Seq<char>, n: nat)
    requires
        !a.contains(c),
    ensures
        splitn(rest, c, 0) == Seq::<Seq<char>>::empty(),
        splitn(rest, c, 1) == seq![rest],
        n > 0 ==> splitn(a, c, n) == seq![a],
        n > 1 ==> splitn(a + seq![c] + rest, c, n) == seq![a] + splitn(rest, c, (n - 1) as nat),
{
    lemma_first_cut(a, c, rest);
}

/// A line ends at a line feed, or at a carriage return and a line feed, which do
/// not belong to it. What follows the last ending is a line unless it is empty.
pub proof fn lemma_lines_cut(a: Seq<char>, rest: Seq<char>)
    requires
        !a.contains('\n'),
    ensures
        lines(Seq::<char>::empty()) == Seq::<Seq<char>>::empty(),
        a.len() > 0 ==> lines(a) == seq![a],
        a.len() == 0 || a.last() != '\r' ==> lines(a + seq!['\n'] + rest) == seq![a] + lines(rest),
        lines(a + seq!['\r', '\n'] + rest) == seq![a] + lines(rest),
{
    lemma_first_cut(a, '\n', rest);
    let b = a.push('\r');
    assert(!b.contains('\n')) by {
        if b.contains('\n') {
            let j = choose|j: int| 0 <= j < b.len() && b[j] == '\n';
            assert(a[j] == '\n');
        }
    }
    lemma_first_cut(b, '\n', rest);
    assert(a + seq!['\r', '\n'] + rest =~= b + seq!['\n'] + rest);
    assert(b.drop_last() =~= a);
}

/// What is read line by line is read of the first line, then of the others.
pub proof fn lemma_lines_read<T>(a: Seq<char>, rest: Seq<char>, f: spec_fn(Seq<char>) -> Option<T>)
    requires
        !a.contains('\n'),
        a.len() == 0 || a.last() != '\r',
    ensures
        lines(a + seq!['\n'] + rest).filter_map(f) == (match f(a) {
            Some(x) => seq![x],
            None => Seq::<T>::empty(),
        }) + lines(rest).filter_map(f),
{
    lemma_lines_cut(a, rest);
    lemma_filter_map_first(a, lines(rest), f);
}

proof fn lemma_filter_map_first<A, T>(a: A, s: Seq<A>, f: spec_fn(A) -> Option<T>)
    ensures
        (seq![a] + s).filter_map(f) == (match f(a) {
            Some(x) => seq![x],
            None => Seq::<T>::empty(),
        }) + s.filter_map(f),
    decreases s.len(),
{
    reveal(Seq::filter_map);
    let first = match f(a) {
        Some(x) => seq![x],
        None => Seq::<T>::empty(),
    };
    let t = seq![a] + s;
    if s.len() == 0 {
        assert(t.drop_last() =~= Seq::<A>::empty());
        assert(t.last() == a);
        assert(t.drop_last().filter_map(f) =~= Seq::<T>::empty());
        assert(s.filter_map(f) =~= Seq::<T>::empty());
        assert(t.filter_map(f) =~= first + s.filter_map(f));
    } else {
        lemma_filter_map_first(a, s.drop_last(), f);
        assert(t.drop_last() =~= seq![a] + s.drop_last());
        assert(t.last() == s.last());
        assert(t.filter_map(f) =~= first + s.filter_map(f));
    }
}

/// The characters that are white space.
pub proof fn lemma_white_space(c: char)
    ensures
        is_space(c) <==> {
            ||| c == '\u{9}' || c == '\u{a}' || c == '\u{b}' || c == '\u{c}' || c == '\u{d}'
            ||| c == '\u{20}' || c == '\u{85}' || c == '\u{a0}' || c == '\u{1680}'
            ||| c == '\u{2000}' || c == '\u{2001}' || c == '\u{2002}' || c == '\u{2003}'
            ||| c == '\u{2004}' || c == '\u{2005}' || c == '\u{2006}' || c == '\u{2007}'
            ||| c == '\u{2008}' || c == '\u{2009}' || c == '\u{200a}'
            ||| c == '\u{2028}' || c == '\u{2029}' || c == '\u{202f}' || c == '\u{205f}'
            ||| c == '\u{3000}'
        },
{
}

/// Words are what stands between white space.
pub proof fn lemma_words_cut(w: Seq<char>, c: char, rest: Seq<char>)
    requires
        forall|i: int| 0 <= i < w.len() ==> !is_space(#[trigger] w[i]),
        is_space(c),
    ensures
        words(Seq::<char>::empty()) == Seq::<Seq<char>>::empty(),
        words(seq![c] + rest) == words(rest),
        w.len() > 0 ==> words(w) == seq![w],
        w.len() > 0 ==> words(w + seq![c] + rest) == seq![w] + words(rest),
{
    assert((seq![c] + rest).skip(1) =~= rest);
    assert(words(seq![c] + rest) == words(rest));
    assert(words(Seq::<char>::empty()) =~= Seq::<Seq<char>>::empty());
    if w.len() > 0 {
        lemma_word_len_is(w, w.len() as int);
        assert(w.take(w.len() as int) =~= w);
        assert(w.skip(w.len() as int) =~= Seq::<char>::empty());
        assert(!is_space(w[0]));
        assert(words(w) == seq![w.take(w.len() as int)] + words(w.skip(w.len() as int)));
        assert(words(w) =~= seq![w]);
        let s = w + seq![c] + rest;
        assert(s[0] == w[0]);
        assert forall|j: int| 0 <= j < w.len() implies !is_space(#[trigger] s[j]) by {
            assert(s[j] == w[j]);
        }
        assert(s[w.len() as int] == c);
        lemma_word_len_is(s, w.len() as int);
        assert(s.take(w.len() as int) =~= w);
        assert(s.skip(w.len() as int) =~= seq![c] + rest);
        assert(words(s) == seq![s.take(w.len() as int)] + words(s.skip(w.len() as int)));
        assert(words(s) =~= seq![w] + words(rest));
    }
}

/// The characters that are hexadecimal digits.
pub proof fn lemma_hex_digits(c: char)
    ensures
        is_hex_digit(c) <==> {
            ||| c == '0' || c == '1' || c == '2' || c == '3' || c == '4'
            ||| c == '5' || c == '6' || c == '7' || c == '8' || c == '9'
            ||| c == 'a' || c == 'b' || c == 'c' || c == 'd' || c == 'e' || c == 'f'
            ||| c == 'A' || c == 'B' || c == 'C' || c == 'D' || c == 'E' || c == 'F'
        },
{
}

/// The decimal digit of a number below ten.
pub open spec fn digit_char(d: int) -> char {
    seq!['0', '1', '2', '3', '4', '5', '6', '7', '8', '9'][d]
}

/// A natural number as it is written in decimal.
pub open spec fn written(n: nat) -> Seq<char>
    decreases n,
{
    if n < 10 {
        seq![digit_char(n as int)]
    } else {
        written(n / 10).push(digit_char((n % 10) as int))
    }
}

/// Zeros.
pub open spec fn zeros_text(n: nat) -> Seq<char> {
    Seq::new(n, |i: int| '0')
}

proof fn lemma_digit_char(d: int)
    requires
        0 <= d < 10,
    ensures
        is_digit(digit_char(d)),
        digit_char(d) as int - '0' as int == d,
{
    let all = seq!['0', '1', '2', '3', '4', '5', '6', '7', '8', '9'];
    assert(all[0] == '0' && all[1] == '1' && all[2] == '2' && all[3] == '3' && all[4] == '4');
    assert(all[5] == '5' && all[6] == '6' && all[7] == '7' && all[8] == '8' && all[9] == '9');
}

/// Leading zeros and digits are all digits, and they have the value.
proof fn lemma_written(z: nat, n: nat)
    ensures
        decimal(zeros_text(z) + written(n)) == n,
        written(n).len() > 0,
        forall|i: int|
            0 <= i < (zeros_text(z) + written(n)).len() ==> is_digit(
                #[trigger] (zeros_text(z) + written(n))[i],
            ),
    decreases n,
{
    let s = zeros_text(z) + written(n);
    lemma_digit_char((n % 10) as int);
    if n < 10 {
        lemma_zeros(z);
        assert(s.drop_last() =~= zeros_text(z));
        assert(s.last() == digit_char(n as int));
    } else {
        lemma_written(z, n / 10);
        let t = zeros_text(z) + written(n / 10);
        assert(s =~= t.push(digit_char((n % 10) as int)));
        assert(s.drop_last() =~= t);
        assert forall|i: int| 0 <= i < s.len() implies is_digit(#[trigger] s[i]) by {
            if i < t.len() {
                assert(is_digit(t[i]));
            }
        }
    }
}

proof fn lemma_zeros(z: nat)
    ensures
        decimal(zeros_text(z)) == 0,
    decreases z,
{
    if z > 0 {
        lemma_zeros((z - 1) as nat);
        assert(zeros_text(z).drop_last() =~= zeros_text((z - 1) as nat));
    }
}

/// A number that is written in decimal is read back, with or without a sign and
/// leading zeros, if it fits into 64 bits, and else it is none.
pub proof fn lemma_number_read_back(z: nat, n: nat)
    ensures
        number(zeros_text(z) + written(n)) == if n <= i64::MAX {
            Some(n as i64)
        } else {
            None
        },
        number(seq!['+'] + (zeros_text(z) + written(n))) == if n <= i64::MAX {
            Some(n as i64)
        } else {
            None
        },
        number(seq!['-'] + (zeros_text(z) + written(n))) == if -n >= i64::MIN {
            Some((-n) as i64)
        } else {
            None
        },
{
    let s = zeros_text(z) + written(n);
    lemma_written(z, n);
    assert(s.len() > 0);
    assert(is_digit(s[0]));
    assert(magnitude(s) == s);
    let p = seq!['+'] + s;
    let m = seq!['-'] + s;
    assert(p.skip(1) =~= s);
    assert(m.skip(1) =~= s);
    assert(p[0] == '+');
    assert(m[0] == '-');
}

/// A text is no number if it has no digit, or holds anything but digits behind an
/// optional sign.
pub proof fn lemma_no_number(s: Seq<char>, i: int)
    requires
        0 <= i < s.len(),
        forall|d: int| 0 <= d < 10 ==> s[i] != #[trigger] digit_char(d),
        i > 0 || (s[0] != '+' && s[0] != '-'),
    ensures
        number(s) is None,
        number(Seq::<char>::empty()) is None,
        number(seq!['+']) is None,
        number(seq!['-']) is None,
{
    let c = s[i];
    assert(!is_digit(c)) by {
        if is_digit(c) {
            let d = c as int - '0' as int;
            lemma_digit_char(d);
            assert(c == digit_char(d));
        }
    }
    let m = magnitude(s);
    let j = if m.len() < s.len() {
        i - 1
    } else {
        i
    };
    assert(m[j] == c);
    assert(seq!['+'].skip(1).len() == 0);
    assert(seq!['-'].skip(1).len() == 0);
}

/// What is no number counts as zero, what is one as itself.
pub proof fn lemma_number_or_zero(s: Seq<char>)
    ensures
        number(s) is None ==> number_or_zero(s) == 0,
        number(s) is Some ==> Some(number_or_zero(s)) == number(s),
{
}

/// A number is written without white space.
pub proof fn lemma_written_solid(n: nat)
    ensures
        written(n).len() > 0,
        forall|i: int| 0 <= i < written(n).len() ==> !is_space(#[trigger] written(n)[i]),
{
    lemma_written(0, n);
    let s = zeros_text(0) + written(n);
    assert(s =~= written(n));
    assert forall|i: int| 0 <= i < written(n).len() implies !is_space(#[trigger] written(n)[i]) by {
        assert(is_digit(s[i]));
    }
}

} // verus!
