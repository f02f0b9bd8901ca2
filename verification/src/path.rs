//! What a path and a mail address say about a line: file type, top directory
//! and domain.

use vstd::prelude::*;

use crate::text::{
    chars_of, find_from, first_at, lemma_first_at, lemma_split_cut, lemma_split_last, pieces,
    same_text, slice_chars, slice_text, split, split_chars, text_of,
};

verus! {

/// Position of the last `c` in `s`, or -1.
pub open spec fn last_at(s: Seq<char>, c: char) -> int
    decreases s.len(),
{
    if s.len() == 0 || s.last() == c {
        s.len() - 1
    } else {
        last_at(s.drop_last(), c)
    }
}

/// Whether a component of a path names something: it is neither empty nor `.`.
pub open spec fn is_name(part: Seq<char>) -> bool {
    part.len() > 0 && part != seq!['.']
}

/// The components of a path that name something.
pub open spec fn path_names(path: Seq<char>) -> Seq<Seq<char>> {
    split(path, '/').filter(|part: Seq<char>| is_name(part))
}

/// The last component of a path that names something, or the empty text.
pub open spec fn file_name(path: Seq<char>) -> Seq<char> {
    let names = path_names(path);
    if names.len() == 0 {
        seq![]
    } else {
        names.last()
    }
}

/// What follows the last dot of a file name; nothing if there is no dot or the
/// only dot is the first character.
pub open spec fn extension(name: Seq<char>) -> Seq<char> {
    if last_at(name, '.') <= 0 {
        seq![]
    } else {
        name.skip(last_at(name, '.') + 1)
    }
}

/// The file type of a path.
pub open spec fn ext_of(path: Seq<char>) -> Seq<char> {
    extension(file_name(path))
}

/// The first component of a path, with a slash.
pub open spec fn dir_of(path: Seq<char>) -> Seq<char> {
    split(path, '/')[0].push('/')
}

/// What stands between the first and the second `@` of a mail address.
pub open spec fn domain_of(email: Seq<char>) -> Seq<char> {
    let parts = split(email, '@');
    if parts.len() > 1 {
        parts[1]
    } else {
        "unknown"@
    }
}

/// The file types that count as source code.
pub open spec fn code_exts() -> Seq<Seq<char>> {
    seq![
        ""@, "c"@, "cc"@, "cpp"@, "cxx"@, "h"@, "hh"@, "hpp"@, "rs"@, "go"@, "py"@, "java"@,
        "kt"@, "scala"@, "js"@, "jsx"@, "ts"@, "tsx"@, "rb"@, "php"@, "swift"@, "m"@, "mm"@,
        "cs"@, "sql"@, "sh"@, "bash"@, "zsh"@, "fish"@, "lua"@, "pl"@, "pm"@, "r"@, "dart"@,
        "vue"@, "svelte"@, "toml"@, "ini"@, "cfg"@, "conf"@, "yaml"@, "yml"@,
    ]
}

proof fn lemma_last_at_is(s: Seq<char>, c: char, i: int)
    requires
        -1 <= i < s.len(),
        i >= 0 ==> s[i] == c,
        forall|j: int| i < j < s.len() ==> s[j] != c,
    ensures
        last_at(s, c) == i,
    decreases s.len(),
{
    if s.len() > 0 && s.last() != c {
        let t = s.drop_last();
        assert forall|j: int| i < j < t.len() implies t[j] != c by {
            assert(s[j] != c);
        }
        lemma_last_at_is(t, c, i);
    }
}

proof fn lemma_split_first(s: Seq<char>, c: char)
    ensures
        split(s, c).len() >= 1,
        split(s, c)[0] == s.take(first_at(s, c)),
{
    lemma_first_at(s, c);
    if first_at(s, c) == s.len() {
        assert(s.take(s.len() as int) == s);
    }
}

/// The components of a path that name something.
fn names_of(path: &str) -> (names: Vec<Vec<char>>)
    ensures
        pieces(names@) == path_names(path@),
{
    let parts = split_chars(&chars_of(path), '/');
    let mut names: Vec<Vec<char>> = Vec::new();
    let ghost all = pieces(parts@);
    let ghost named = |part: Seq<char>| is_name(part);
    let mut i: usize = 0;
    assert(pieces(names@) =~= all.take(0).filter(named)) by {
        assert(all.take(0) =~= Seq::<Seq<char>>::empty());
        reveal(Seq::filter);
    }
    while i < parts.len()
        invariant
            i <= parts@.len(),
            all == pieces(parts@),
            named == (|part: Seq<char>| is_name(part)),
            pieces(names@) == all.take(i as int).filter(named),
        decreases parts@.len() - i,
    {
        let ghost earlier = names@;
        let len: usize = parts[i].len();
        let is_named = len > 1 || (len == 1 && parts[i][0] != '.');
        proof {
            let part = all[i as int];
            assert(seq!['.'][0] == '.');
            assert(part == parts@[i as int]@);
            if len == 1 && parts@[i as int]@[0] == '.' {
                assert(part =~= seq!['.']);
            }
            assert(named(part) == is_named);
            assert(all.take(i + 1) =~= all.take(i as int).push(part));
            all.take(i as int).lemma_filter_push(part, named);
        }
        if is_named {
            let name = slice_chars(&parts[i], 0, len);
            assert(name@ =~= all[i as int]);
            names.push(name);
            assert(pieces(names@) =~= pieces(earlier).push(all[i as int]));
        }
        i = i + 1;
    }
    assert(all.take(all.len() as int) =~= all);
    names
}

/// The file name of a path.
fn file_name_chars(path: &str) -> (name: Vec<char>)
    ensures
        name@ == file_name(path@),
{
    let mut names = names_of(path);
    match names.pop() {
        Some(name) => {
            assert(path_names(path@).last() == name@);
            name
        },
        None => Vec::new(),
    }
}

fn ext_chars(path: &str) -> (ext: Vec<char>)
    ensures
        ext@ == ext_of(path@),
{
    let name = file_name_chars(path);
    let mut i: usize = name.len();
    while i > 0 && name[i - 1] != '.'
        invariant
            i <= name@.len(),
            forall|j: int| i <= j < name@.len() ==> name@[j] != '.',
        decreases i,
    {
        i = i - 1;
    }
    proof {
        lemma_last_at_is(name@, '.', i - 1);
    }
    let mut ext: Vec<char> = Vec::new();
    if i <= 1 {
        return ext;
    }
    let mut k: usize = i;
    while k < name.len()
        invariant
            i <= k <= name@.len(),
            ext@ == name@.subrange(i as int, k as int),
        decreases name@.len() - k,
    {
        ext.push(name[k]);
        k = k + 1;
        assert(name@.subrange(i as int, k as int) == name@.subrange(i as int, k - 1).push(
            name@[k - 1],
        ));
    }
    assert(name@.subrange(i as int, k as int) == name@.skip(i as int));
    ext
}

/// The file type of a path: what follows the last dot of its file name.
pub fn file_ext(path: &str) -> (ext: String)
    ensures
        ext@ == ext_of(path@),
{
    text_of(&ext_chars(path))
}

/// The top directory of a path, with a slash; a file at the top is its own.
pub fn top_dir(path: &str) -> (dir: String)
    ensures
        dir@ == dir_of(path@),
{
    let chars = chars_of(path);
    let i = find_from(&chars, 0, '/');
    let mut dir = slice_text(&chars, 0, i);
    proof {
        assert(chars@.skip(0) == chars@);
        assert(chars@.subrange(0, i as int) == chars@.take(i as int));
        lemma_split_first(path@, '/');
    }
    dir.push('/');
    dir
}

/// The domain of a mail address, `unknown` if it has no `@`.
pub fn email_domain(email: &str) -> (domain: String)
    ensures
        domain@ == domain_of(email@),
{
    let chars = chars_of(email);
    let i = find_from(&chars, 0, '@');
    assert(chars@.skip(0) == chars@);
    if i == chars.len() {
        return "unknown".to_owned();
    }
    let j = find_from(&chars, i + 1, '@');
    proof {
        let rest = email@.skip(i + 1);
        lemma_split_first(rest, '@');
        assert(split(email@, '@') == seq![email@.take(i as int)] + split(rest, '@'));
        assert(split(email@, '@')[1] == split(rest, '@')[0]);
        assert(rest.take(j - i - 1) == chars@.subrange(i + 1, j as int));
    }
    slice_text(&chars, i + 1, j)
}

/// What a data set is called: the directory that holds it, or its path if that
/// names none.
pub open spec fn label_of(path: Seq<char>) -> Seq<char> {
    let names = path_names(path);
    if names.len() >= 2 && names[names.len() - 2] != ".."@ {
        names[names.len() - 2]
    } else {
        path
    }
}

/// The label of the data set in the file at `path`.
pub fn dataset_label(path: &str) -> (label: String)
    ensures
        label@ == label_of(path@),
{
    let names = names_of(path);
    let n: usize = names.len();
    if n >= 2 {
        assert(path_names(path@)[n - 2] == names@[n - 2]@);
        if !same_text(&names[n - 2], "..") {
            return text_of(&names[n - 2]);
        }
    }
    path.to_owned()
}

/// Whether a path looks like source code, by its file type.
pub fn is_probably_code(path: &str) -> (r: bool)
    ensures
        r == code_exts().contains(ext_of(path@)),
{
    let ext = ext_chars(path);
    let allowed: Vec<&str> = vec![
        "", "c", "cc", "cpp", "cxx", "h", "hh", "hpp", "rs", "go", "py", "java", "kt", "scala",
        "js", "jsx", "ts", "tsx", "rb", "php", "swift", "m", "mm", "cs", "sql", "sh", "bash",
        "zsh", "fish", "lua", "pl", "pm", "r", "dart", "vue", "svelte", "toml", "ini", "cfg",
        "conf", "yaml", "yml",
    ];
    assert(allowed@.map_values(|s: &str| s@) =~= code_exts());
    let mut i: usize = 0;
    while i < allowed.len()
        invariant
            i <= allowed@.len(),
            allowed@.map_values(|s: &str| s@) == code_exts(),
            ext@ == ext_of(path@),
            forall|j: int| 0 <= j < i ==> code_exts()[j] != ext@,
        decreases allowed@.len() - i,
    {
        assert(code_exts()[i as int] == allowed@.map_values(|s: &str| s@)[i as int]);
        if same_text(&ext, allowed[i]) {
            assert(code_exts()[i as int] == ext@);
            return true;
        }
        i = i + 1;
    }
    false
}

/// The components of a path in a directory: those of the directory, and the last
/// one if it names something.
proof fn lemma_names_in(d: Seq<char>, f: Seq<char>)
    requires
        !f.contains('/'),
    ensures
        path_names(d + seq!['/'] + f) == (if f.len() > 0 && f != seq!['.'] {
            path_names(d).push(f)
        } else {
            path_names(d)
        }),
        path_names(f) == (if f.len() > 0 && f != seq!['.'] {
            seq![f]
        } else {
            Seq::<Seq<char>>::empty()
        }),
{
    let named = |part: Seq<char>| is_name(part);
    lemma_split_last(d, '/', f);
    split(d, '/').lemma_filter_push(f, named);
    lemma_split_cut(f, '/', seq![]);
    let none = Seq::<Seq<char>>::empty();
    none.lemma_filter_push(f, named);
    assert(seq![f] =~= none.push(f));
    assert(none.filter(named) =~= none) by {
        reveal(Seq::filter);
    }
}

proof fn lemma_extension_is(s: Seq<char>, e: Seq<char>)
    requires
        s.len() > 0,
        !e.contains('.'),
    ensures
        extension(s + seq!['.'] + e) == e,
{
    let name = s + seq!['.'] + e;
    assert(name[s.len() as int] == '.');
    assert forall|j: int| s.len() < j < name.len() implies name[j] != '.' by {
        assert(name[j] == e[j - s.len() - 1]);
        assert(e.contains(e[j - s.len() - 1]));
    }
    lemma_last_at_is(name, '.', s.len() as int);
    assert(name.skip(s.len() as int + 1) =~= e);
}

/// The file type of a file is all that follows the last dot of its name, in any
/// directory.
pub proof fn lemma_file_type(d: Seq<char>, s: Seq<char>, e: Seq<char>)
    requires
        s.len() > 0,
        !s.contains('/'),
        !e.contains('/'),
        !e.contains('.'),
    ensures
        ext_of(d + seq!['/'] + (s + seq!['.'] + e)) == e,
        ext_of(s + seq!['.'] + e) == e,
{
    let f = s + seq!['.'] + e;
    assert(!f.contains('/')) by {
        if f.contains('/') {
            let j = choose|j: int| 0 <= j < f.len() && f[j] == '/';
            if j < s.len() {
                assert(s[j] == '/');
            } else if j > s.len() {
                assert(e[j - s.len() - 1] == '/');
            }
        }
    }
    assert(f.len() >= 2);
    assert(f != seq!['.']);
    lemma_names_in(d, f);
    lemma_extension_is(s, e);
    assert(seq![f].last() == f);
}

/// A file without a dot, or with none but a leading one, has no file type.
pub proof fn lemma_no_file_type(d: Seq<char>, n: Seq<char>)
    requires
        n.len() > 0,
        !n.contains('/'),
        !n.contains('.'),
    ensures
        ext_of(n).len() == 0,
        ext_of(seq!['.'] + n).len() == 0,
        ext_of(d + seq!['/'] + n).len() == 0,
        ext_of(d + seq!['/'] + (seq!['.'] + n)).len() == 0,
{
    let h = seq!['.'] + n;
    assert forall|j: int| 0 <= j < n.len() implies n[j] != '.' by {
        assert(n.contains(n[j]));
    }
    lemma_last_at_is(n, '.', -1);
    assert(h[0] == '.');
    assert forall|j: int| 0 < j < h.len() implies h[j] != '.' by {
        assert(h[j] == n[j - 1]);
    }
    lemma_last_at_is(h, '.', 0);
    assert(!h.contains('/')) by {
        if h.contains('/') {
            let j = choose|j: int| 0 <= j < h.len() && h[j] == '/';
            assert(n[j - 1] == '/');
        }
    }
    assert(n != seq!['.']) by {
        assert(seq!['.'][0] == '.');
    }
    assert(h.len() >= 2);
    lemma_names_in(d, n);
    lemma_names_in(d, h);
    assert(seq![n].last() == n);
    assert(seq![h].last() == h);
}

/// A trailing slash, or a slash and a dot, changes no file type.
pub proof fn lemma_file_type_trailing(p: Seq<char>)
    ensures
        ext_of(p + seq!['/']) == ext_of(p),
        ext_of(p + seq!['/', '.']) == ext_of(p),
{
    let none = Seq::<char>::empty();
    lemma_names_in(p, none);
    lemma_names_in(p, seq!['.']);
    assert(p + seq!['/'] + none =~= p + seq!['/']);
    assert(p + seq!['/'] + seq!['.'] =~= p + seq!['/', '.']);
}

/// The file types that count as source code, one by one.
pub proof fn lemma_source_code(e: Seq<char>)
    ensures
        code_exts().contains(e) <==> {
            ||| e == ""@ || e == "c"@ || e == "cc"@ || e == "cpp"@ || e == "cxx"@ || e == "h"@
            ||| e == "hh"@ || e == "hpp"@ || e == "rs"@ || e == "go"@ || e == "py"@
            ||| e == "java"@ || e == "kt"@ || e == "scala"@ || e == "js"@ || e == "jsx"@
            ||| e == "ts"@ || e == "tsx"@ || e == "rb"@ || e == "php"@ || e == "swift"@
            ||| e == "m"@ || e == "mm"@ || e == "cs"@ || e == "sql"@ || e == "sh"@
            ||| e == "bash"@ || e == "zsh"@ || e == "fish"@ || e == "lua"@ || e == "pl"@
            ||| e == "pm"@ || e == "r"@ || e == "dart"@ || e == "vue"@ || e == "svelte"@
            ||| e == "toml"@ || e == "ini"@ || e == "cfg"@ || e == "conf"@ || e == "yaml"@
            ||| e == "yml"@
        },
{
    let c = code_exts();
    assert(c[0] == ""@ && c[1] == "c"@ && c[2] == "cc"@ && c[3] == "cpp"@ && c[4] == "cxx"@);
    assert(c[5] == "h"@ && c[6] == "hh"@ && c[7] == "hpp"@ && c[8] == "rs"@ && c[9] == "go"@);
    assert(c[10] == "py"@ && c[11] == "java"@ && c[12] == "kt"@ && c[13] == "scala"@);
    assert(c[14] == "js"@ && c[15] == "jsx"@ && c[16] == "ts"@ && c[17] == "tsx"@);
    assert(c[18] == "rb"@ && c[19] == "php"@ && c[20] == "swift"@ && c[21] == "m"@);
    assert(c[22] == "mm"@ && c[23] == "cs"@ && c[24] == "sql"@ && c[25] == "sh"@);
    assert(c[26] == "bash"@ && c[27] == "zsh"@ && c[28] == "fish"@ && c[29] == "lua"@);
    assert(c[30] == "pl"@ && c[31] == "pm"@ && c[32] == "r"@ && c[33] == "dart"@);
    assert(c[34] == "vue"@ && c[35] == "svelte"@ && c[36] == "toml"@ && c[37] == "ini"@);
    assert(c[38] == "cfg"@ && c[39] == "conf"@ && c[40] == "yaml"@ && c[41] == "yml"@);
    assert(c.len() == 42);
}

/// The top directory of a path is all that stands before its first slash, with
/// the slash; a path without a slash is its own.
pub proof fn lemma_top_directory(a: Seq<char>, rest: Seq<char>)
    requires
        !a.contains('/'),
    ensures
        dir_of(a + seq!['/'] + rest) == a + seq!['/'],
        dir_of(a) == a + seq!['/'],
{
    lemma_split_cut(a, '/', rest);
    assert(a.push('/') =~= a + seq!['/']);
}

/// The domain of a mail address is all that stands between its first `@` and the
/// next, or the end. An address without an `@` has the domain `unknown`.
pub proof fn lemma_mail_domain(a: Seq<char>, d: Seq<char>, rest: Seq<char>)
    requires
        !a.contains('@'),
        !d.contains('@'),
    ensures
        domain_of(a + seq!['@'] + d) == d,
        domain_of(a + seq!['@'] + d + seq!['@'] + rest) == d,
        domain_of(a) == "unknown"@,
{
    lemma_split_cut(d, '@', rest);
    lemma_split_cut(a, '@', d);
    lemma_split_cut(a, '@', d + seq!['@'] + rest);
    assert(a + seq!['@'] + d + seq!['@'] + rest =~= a + seq!['@'] + (d + seq!['@'] + rest));
}

/// The label of a file in a directory.
proof fn lemma_label_in(p: Seq<char>, f: Seq<char>)
    requires
        f.len() > 0,
        f != seq!['.'],
        !f.contains('/'),
    ensures
        label_of(p + seq!['/'] + f) == (if path_names(p).len() > 0 && path_names(p).last() != seq![
            '.',
            '.',
        ] {
            path_names(p).last()
        } else {
            p + seq!['/'] + f
        }),
{
    reveal_strlit("..");
    assert(".."@ =~= seq!['.', '.']);
    lemma_names_in(p, f);
}

/// A data set is called by the directory that holds its file.
pub proof fn lemma_dataset_label(d: Seq<char>, n: Seq<char>, f: Seq<char>)
    requires
        n.len() > 0,
        n != seq!['.'],
        n != seq!['.', '.'],
        !n.contains('/'),
        f.len() > 0,
        f != seq!['.'],
        !f.contains('/'),
    ensures
        label_of(d + seq!['/'] + n + seq!['/'] + f) == n,
        label_of(n + seq!['/'] + f) == n,
{
    lemma_names_in(d, n);
    lemma_label_in(d + seq!['/'] + n, f);
    lemma_label_in(n, f);
    assert(seq![n].last() == n);
}

/// A data set that lies in no directory that has a name is called by its path.
pub proof fn lemma_unnamed_dataset(d: Seq<char>, f: Seq<char>)
    requires
        f.len() > 0,
        f != seq!['.'],
        !f.contains('/'),
    ensures
        label_of(f) == f,
        label_of(seq!['/'] + f) == seq!['/'] + f,
        label_of(seq!['.', '/'] + f) == seq!['.', '/'] + f,
        label_of(seq!['.', '.', '/'] + f) == seq!['.', '.', '/'] + f,
        label_of(d + seq!['/', '.', '.', '/'] + f) == d + seq!['/', '.', '.', '/'] + f,
{
    let up = seq!['.', '.'];
    let here = seq!['.'];
    let none = Seq::<char>::empty();
    assert(up.len() == 2 && up[0] == '.' && up[1] == '.');
    assert(here.len() == 1 && here[0] == '.');
    assert(!up.contains('/'));
    assert(!here.contains('/'));
    assert(label_of(f) == f) by {
        lemma_names_in(none, f);
    }
    assert(label_of(seq!['/'] + f) == seq!['/'] + f) by {
        lemma_names_in(none, none);
        lemma_label_in(none, f);
        assert(none + seq!['/'] + f =~= seq!['/'] + f);
    }
    assert(label_of(seq!['.', '/'] + f) == seq!['.', '/'] + f) by {
        lemma_names_in(none, here);
        lemma_label_in(here, f);
        assert(here + seq!['/'] + f =~= seq!['.', '/'] + f);
    }
    assert(label_of(seq!['.', '.', '/'] + f) == seq!['.', '.', '/'] + f) by {
        lemma_names_in(none, up);
        lemma_label_in(up, f);
        assert(seq![up].last() == up);
        assert(up + seq!['/'] + f =~= seq!['.', '.', '/'] + f);
    }
    assert(label_of(d + seq!['/', '.', '.', '/'] + f) == d + seq!['/', '.', '.', '/'] + f) by {
        lemma_names_in(d, up);
        lemma_label_in(d + seq!['/'] + up, f);
        assert(d + seq!['/'] + up + seq!['/'] + f =~= d + seq!['/', '.', '.', '/'] + f);
    }
}

} // verus!
