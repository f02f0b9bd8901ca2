//! What git is asked, and how its answers are read.

use vstd::prelude::*;

use crate::matcher::{glob_matches, path_ok, path_wanted, Matcher};
use crate::path::{code_exts, ext_of, is_probably_code};
use crate::table::Table;
use crate::text::{
    chars_of, is_space, lemma_lines_cut, lemma_lines_read, lemma_number_read_back, lemma_splitn_cut,
    lemma_splitn_len, lemma_white_space, lemma_words_cut, lemma_written_solid, lines, lines_of,
    number_or_zero, parse_number_or_zero, pieces, same_text, splitn, splitn_chars, text_of, texts,
    word, words, words_of, written, zeros_text,
};

verus! {

/// Who committed, and when (in seconds since 1970).
#[derive(Debug)]
pub struct CommitMeta {
    pub ts: i64,
    pub author: String,
    pub email: String,
}

/// What a [`CommitMeta`] says.
pub struct Meta {
    pub ts: i64,
    pub author: Seq<char>,
    pub email: Seq<char>,
}

impl View for CommitMeta {
    type V = Meta;

    open spec fn view(&self) -> Meta {
        Meta { ts: self.ts, author: self.author@, email: self.email@ }
    }
}

/// What a map of commits says.
pub open spec fn metas(m: Map<Seq<char>, CommitMeta>) -> Map<Seq<char>, Meta> {
    m.map_values(|c: CommitMeta| c@)
}

/// A file of a commit and its content, named by a hash.
#[derive(Debug)]
pub struct TreeEntry {
    pub path: String,
    pub blob_sha: String,
}

/// What a [`TreeEntry`] says.
pub struct Entry {
    pub path: Seq<char>,
    pub blob_sha: Seq<char>,
}

impl View for TreeEntry {
    type V = Entry;

    open spec fn view(&self) -> Entry {
        Entry { path: self.path@, blob_sha: self.blob_sha@ }
    }
}

/// What a list of entries says.
pub open spec fn entries(v: Seq<TreeEntry>) -> Seq<Entry> {
    Seq::new(v.len(), |i: int| v[i]@)
}

/// The arguments with which git lists the commits of a branch: one line for
/// each, with hash, time, author and mail address between tabs. Authors and
/// addresses are those that the `.mailmap` of the repository maps them to.
pub fn log_args(branch: &str) -> (args: Vec<String>)
    ensures
        texts(args@) == seq!["log"@, "--format=%H%x09%ct%x09%aN%x09%aE"@, branch@],
        texts(args@) == log_command(branch@),
{
    let args: Vec<String> = vec![
        "log".to_owned(),
        "--format=%H%x09%ct%x09%aN%x09%aE".to_owned(),
        branch.to_owned(),
    ];
    assert(texts(args@) =~= seq!["log"@, "--format=%H%x09%ct%x09%aN%x09%aE"@, branch@]);
    args
}

/// The arguments with which git lists the first-parent commits of a branch.
pub fn rev_list_args(branch: &str) -> (args: Vec<String>)
    ensures
        texts(args@) == seq!["rev-list"@, "--first-parent"@, branch@],
        texts(args@) == rev_list_command(branch@),
{
    let args: Vec<String> = vec![
        "rev-list".to_owned(),
        "--first-parent".to_owned(),
        branch.to_owned(),
    ];
    assert(texts(args@) =~= seq!["rev-list"@, "--first-parent"@, branch@]);
    args
}

/// The arguments with which git lists the files of a commit.
pub fn ls_tree_args(commit: &str) -> (args: Vec<String>)
    ensures
        texts(args@) == seq!["ls-tree"@, "-r"@, "--full-tree"@, commit@],
        texts(args@) == ls_tree_command(commit@),
{
    let args: Vec<String> = vec![
        "ls-tree".to_owned(),
        "-r".to_owned(),
        "--full-tree".to_owned(),
        commit.to_owned(),
    ];
    assert(texts(args@) =~= seq!["ls-tree"@, "-r"@, "--full-tree"@, commit@]);
    args
}

/// The arguments with which git says where each line of a file comes from.
pub fn blame_args(commit: &str, path: &str, ignore_whitespace: bool) -> (args: Vec<String>)
    ensures
        texts(args@) == seq!["blame"@, "--line-porcelain"@] + (if ignore_whitespace {
            seq!["-w"@]
        } else {
            seq![]
        }) + seq![commit@, "--"@, path@],
        texts(args@) == blame_command(commit@, path@, ignore_whitespace),
{
    let mut args: Vec<String> = vec!["blame".to_owned(), "--line-porcelain".to_owned()];
    if ignore_whitespace {
        args.push("-w".to_owned());
    }
    args.push(commit.to_owned());
    args.push("--".to_owned());
    args.push(path.to_owned());
    assert(texts(args@) =~= seq!["blame"@, "--line-porcelain"@] + (if ignore_whitespace {
        seq!["-w"@]
    } else {
        seq![]
    }) + seq![commit@, "--"@, path@]);
    args
}

/// The commit that a line of the log describes, if it has all four fields. A
/// time that is no number counts as zero.
pub open spec fn logged(line: Seq<char>) -> Option<(Seq<char>, Meta)> {
    let parts = splitn(line, '\t', 4);
    if parts.len() == 4 {
        Some(
            (
                parts[0],
                Meta { ts: number_or_zero(parts[1]), author: parts[2], email: parts[3] },
            ),
        )
    } else {
        None
    }
}

/// The commits that the lines of a log describe; the last line on a commit counts.
pub open spec fn logged_commits(log: Seq<Seq<char>>) -> Map<Seq<char>, Meta>
    decreases log.len(),
{
    if log.len() == 0 {
        Map::empty()
    } else {
        match logged(log.last()) {
            Some((sha, meta)) => logged_commits(log.drop_last()).insert(sha, meta),
            None => logged_commits(log.drop_last()),
        }
    }
}

/// Reads the answer to [`log_args`].
pub fn load_commit_meta(out: &str) -> (map: Table<CommitMeta>)
    ensures
        map.wf(),
        metas(map@) == logged_commits(lines(out@)),
{
    let log = lines_of(&chars_of(out));
    let mut map: Table<CommitMeta> = Table::new();
    let mut i: usize = 0;
    assert(metas(map@) =~= Map::empty());
    while i < log.len()
        invariant
            i <= log@.len(),
            map.wf(),
            metas(map@) == logged_commits(pieces(log@).take(i as int)),
        decreases log@.len() - i,
    {
        let ghost before = map@;
        let mut parts = splitn_chars(&log[i], '\t', 4);
        proof {
            let done = pieces(log@).take(i as int);
            assert(pieces(log@).take(i + 1).drop_last() == done);
            assert(pieces(log@).take(i + 1).last() == log@[i as int]@);
        }
        if parts.len() == 4 {
            let ghost p = pieces(parts@);
            assert(forall|j: int| 0 <= j < 4 ==> #[trigger] p[j] == parts@[j]@);
            let meta = CommitMeta {
                ts: parse_number_or_zero(&parts[1]),
                author: text_of(&parts[2]),
                email: text_of(&parts[3]),
            };
            let sha = text_of(&parts[0]);
            map.insert(sha, meta);
            assert(metas(map@) =~= metas(before).insert(sha@, meta@));
        }
        i = i + 1;
    }
    assert(pieces(log@).take(log@.len() as int) == pieces(log@));
    map
}

/// Reads the answer to [`rev_list_args`]: one commit a line, newest first.
pub fn load_first_parent_commits(out: &str) -> (commits: Vec<String>)
    ensures
        texts(commits@) == lines(out@),
        texts(commits@) == first_parents(out@),
{
    let list = lines_of(&chars_of(out));
    let mut commits: Vec<String> = Vec::new();
    let mut i: usize = 0;
    while i < list.len()
        invariant
            i <= list@.len(),
            texts(commits@) == pieces(list@).take(i as int),
        decreases list@.len() - i,
    {
        let ghost before = commits@;
        let commit = text_of(&list[i]);
        commits.push(commit);
        proof {
            assert(texts(commits@) =~= texts(before).push(commit@));
            assert(pieces(list@).take(i + 1) =~= pieces(list@).take(i as int).push(
                list@[i as int]@,
            ));
        }
        i = i + 1;
    }
    assert(pieces(list@).take(list@.len() as int) == pieces(list@));
    commits
}

/// The file that a line of a tree listing describes: mode, type and hash, then
/// a tab and the path. What is missing is empty; only blobs are files.
pub open spec fn listed_file(line: Seq<char>) -> Option<Entry> {
    let parts = splitn(line, '\t', 2);
    if word(parts[0], 1) == "blob"@ {
        Some(
            Entry {
                path: if parts.len() > 1 {
                    parts[1]
                } else {
                    seq![]
                },
                blob_sha: word(parts[0], 2),
            },
        )
    } else {
        None
    }
}

/// Whether a file takes part: it is source code, unless all types are wanted,
/// and the matcher lets its path through.
pub open spec fn file_wanted(path: Seq<char>, all_filetypes: bool, matcher: Option<Matcher>) -> bool {
    (all_filetypes || code_exts().contains(ext_of(path))) && path_wanted(matcher, path)
}

/// The file that a line of a tree listing adds to the list, if any.
pub open spec fn listed(line: Seq<char>, all_filetypes: bool, matcher: Option<Matcher>) -> Option<
    Entry,
> {
    match listed_file(line) {
        Some(e) => if file_wanted(e.path, all_filetypes, matcher) {
            Some(e)
        } else {
            None
        },
        None => None,
    }
}

/// Reads one line of a tree listing.
fn read_tree_line(line: &Vec<char>) -> (r: Option<TreeEntry>)
    ensures
        match r {
            Some(e) => listed_file(line@) == Some(e@),
            None => listed_file(line@) is None,
        },
{
    let parts = splitn_chars(line, '\t', 2);
    proof {
        lemma_splitn_len(line@, '\t', 2);
        assert(pieces(parts@)[0] == parts@[0]@);
        if parts@.len() > 1 {
            assert(pieces(parts@)[1] == parts@[1]@);
        }
    }
    let fields = words_of(&parts[0]);
    assert(forall|j: int| 0 <= j < fields@.len() ==> #[trigger] pieces(fields@)[j] == fields@[j]@);
    let is_blob = fields.len() > 1 && same_text(&fields[1], "blob");
    if !is_blob {
        proof {
            reveal_strlit("blob");
            assert("blob"@.len() == 4);
        }
        return None;
    }
    let path = if parts.len() > 1 {
        text_of(&parts[1])
    } else {
        String::new()
    };
    let blob_sha = if fields.len() > 2 {
        text_of(&fields[2])
    } else {
        String::new()
    };
    Some(TreeEntry { path, blob_sha })
}

/// Reads the answer to [`ls_tree_args`] and keeps the files that take part.
#[verifier::rlimit(40)]
pub fn list_tree_entries(out: &str, all_filetypes: bool, matcher: &Option<Matcher>) -> (v: Vec<
    TreeEntry,
>)
    ensures
        entries(v@) == lines(out@).filter_map(
            |line: Seq<char>| listed(line, all_filetypes, *matcher),
        ),
{
    let list = lines_of(&chars_of(out));
    let ghost all = pieces(list@);
    let ghost f = |line: Seq<char>| listed(line, all_filetypes, *matcher);
    let mut v: Vec<TreeEntry> = Vec::new();
    let mut i: usize = 0;
    assert(entries(v@) =~= all.take(0).filter_map(f)) by {
        assert(all.take(0) == Seq::<Seq<char>>::empty());
        reveal(Seq::filter_map);
    }
    while i < list.len()
        invariant
            i <= list@.len(),
            all == pieces(list@),
            f == (|line: Seq<char>| listed(line, all_filetypes, *matcher)),
            entries(v@) == all.take(i as int).filter_map(f),
        decreases list@.len() - i,
    {
        let ghost before = v@;
        proof {
            all.lemma_filter_map_take_succ(f, i as int);
        }
        match read_tree_line(&list[i]) {
            Some(entry) => {
                if (all_filetypes || is_probably_code(entry.path.as_str())) && path_ok(
                    entry.path.as_str(),
                    matcher,
                ) {
                    v.push(entry);
                    assert(entries(v@) =~= entries(before).push(entry@));
                }
            },
            None => {},
        }
        i = i + 1;
    }
    assert(all.take(all.len() as int) == all);
    v
}

/// What commits and files are read as, field by field.
pub proof fn lemma_git_views(
    m: Map<Seq<char>, CommitMeta>,
    sha: Seq<char>,
    v: Seq<TreeEntry>,
    i: int,
)
    ensures
        metas(m).contains_key(sha) <==> m.contains_key(sha),
        m.contains_key(sha) ==> metas(m)[sha].ts == m[sha].ts && metas(m)[sha].author
            == m[sha].author@ && metas(m)[sha].email == m[sha].email@,
        entries(v).len() == v.len(),
        0 <= i < v.len() ==> entries(v)[i].path == v[i].path@ && entries(v)[i].blob_sha
            == v[i].blob_sha@,
{
}

/// A line of the log gives the commit before the first tab, the time, the author
/// and, as they are, tabs included, the mail address.
pub proof fn lemma_log_line(
    sha: Seq<char>,
    time: Seq<char>,
    author: Seq<char>,
    email: Seq<char>,
    n: nat,
)
    requires
        !sha.contains('\t'),
        !time.contains('\t'),
        !author.contains('\t'),
    ensures
        logged(sha + seq!['\t'] + (time + seq!['\t'] + (author + seq!['\t'] + email))) == Some(
            (sha, Meta { ts: number_or_zero(time), author, email }),
        ),
        n <= i64::MAX ==> logged(
            sha + seq!['\t'] + (written(n) + seq!['\t'] + (author + seq!['\t'] + email)),
        ) == Some((sha, Meta { ts: n as i64, author, email })),
        logged(sha) is None,
        logged(sha + seq!['\t'] + time) is None,
        logged(sha + seq!['\t'] + (time + seq!['\t'] + author)) is None,
{
    lemma_log_fields(sha, time, author, email);
    lemma_written_solid(n);
    assert(!written(n).contains('\t')) by {
        lemma_white_space('\t');
        if written(n).contains('\t') {
            let j = choose|j: int| 0 <= j < written(n).len() && written(n)[j] == '\t';
            assert(!is_space(written(n)[j]));
        }
    }
    lemma_log_fields(sha, written(n), author, email);
    lemma_number_read_back(0, n);
    assert(zeros_text(0) + written(n) =~= written(n));
    lemma_splitn_cut(sha, '\t', seq![], 4);
    lemma_splitn_cut(sha, '\t', time, 4);
    lemma_splitn_cut(time, '\t', seq![], 3);
    lemma_splitn_cut(sha, '\t', time + seq!['\t'] + author, 4);
    lemma_splitn_cut(time, '\t', author, 3);
    lemma_splitn_cut(author, '\t', seq![], 2);
}

proof fn lemma_log_fields(
    sha: Seq<char>,
    time: Seq<char>,
    author: Seq<char>,
    email: Seq<char>,
)
    requires
        !sha.contains('\t'),
        !time.contains('\t'),
        !author.contains('\t'),
    ensures
        splitn(
            sha + seq!['\t'] + (time + seq!['\t'] + (author + seq!['\t'] + email)),
            '\t',
            4,
        ) == seq![sha, time, author, email],
{
    let c = author + seq!['\t'] + email;
    let b = time + seq!['\t'] + c;
    lemma_splitn_cut(sha, '\t', b, 4);
    lemma_splitn_cut(time, '\t', c, 3);
    lemma_splitn_cut(author, '\t', email, 2);
    assert(seq![sha] + (seq![time] + (seq![author] + seq![email])) =~= seq![
        sha,
        time,
        author,
        email,
    ]);
}

/// Whether a line of a log describes a commit.
pub open spec fn describes(line: Seq<char>, sha: Seq<char>) -> bool {
    logged(line) matches Some(c) && c.0 == sha
}

/// A log says of a commit what its last line on it says: a further line changes
/// what is said of the commit that it describes, and of no other.
pub proof fn lemma_logged_push(log: Seq<Seq<char>>, line: Seq<char>, sha: Seq<char>)
    ensures
        logged_commits(Seq::<Seq<char>>::empty()) == Map::<Seq<char>, Meta>::empty(),
        describes(line, sha) ==> logged_commits(log.push(line)).contains_key(sha) && logged(line)
            == Some((sha, logged_commits(log.push(line))[sha])),
        !describes(line, sha) ==> (logged_commits(log.push(line)).contains_key(sha)
            <==> logged_commits(log).contains_key(sha)) && logged_commits(log.push(line))[sha]
            == logged_commits(log)[sha],
{
    assert(log.push(line).drop_last() =~= log);
    assert(log.push(line).last() == line);
}

/// A log says something of a commit if and only if some line describes it.
pub proof fn lemma_logged_commits(log: Seq<Seq<char>>, sha: Seq<char>)
    ensures
        logged_commits(log).contains_key(sha) <==> exists|i: int|
            0 <= i < log.len() && describes(#[trigger] log[i], sha),
    decreases log.len(),
{
    if log.len() > 0 {
        let t = log.drop_last();
        let last = log.last();
        assert(log =~= t.push(last));
        lemma_logged_push(t, last, sha);
        lemma_logged_commits(t, sha);
        if logged_commits(t).contains_key(sha) {
            let i = choose|i: int| 0 <= i < t.len() && describes(#[trigger] t[i], sha);
            assert(describes(log[i], sha));
        }
        if exists|i: int| 0 <= i < log.len() && describes(#[trigger] log[i], sha) {
            let i = choose|i: int| 0 <= i < log.len() && describes(#[trigger] log[i], sha);
            if i < t.len() {
                assert(describes(t[i], sha));
            }
        }
        if describes(last, sha) {
            assert(describes(log[log.len() - 1], sha));
        }
    }
}

/// A line of a tree listing that says `blob` gives the path and the hash, whatever
/// the mode is. Any other kind gives no file.
pub proof fn lemma_tree_line(mode: Seq<char>, kind: Seq<char>, hash: Seq<char>, path: Seq<char>)
    requires
        mode.len() > 0,
        kind.len() > 0,
        forall|i: int| 0 <= i < mode.len() ==> !is_space(#[trigger] mode[i]),
        forall|i: int| 0 <= i < kind.len() ==> !is_space(#[trigger] kind[i]),
        forall|i: int| 0 <= i < hash.len() ==> !is_space(#[trigger] hash[i]),
    ensures
        listed_file(mode + seq![' '] + (kind + seq![' '] + hash) + seq!['\t'] + path) == if kind
            == "blob"@ {
            Some(Entry { path, blob_sha: hash })
        } else {
            None
        },
        listed_file(mode + seq![' '] + (kind + seq![' '] + hash)) == if kind == "blob"@ {
            Some(Entry { path: seq![], blob_sha: hash })
        } else {
            None
        },
{
    let left = mode + seq![' '] + (kind + seq![' '] + hash);
    lemma_white_space(' ');
    lemma_white_space('\t');
    assert(!left.contains('\t')) by {
        if left.contains('\t') {
            let j = choose|j: int| 0 <= j < left.len() && left[j] == '\t';
            if j < mode.len() {
                assert(!is_space(mode[j]));
            } else if j > mode.len() && j < mode.len() + 1 + kind.len() {
                assert(!is_space(kind[j - mode.len() - 1]));
            } else if j > mode.len() + 1 + kind.len() {
                assert(!is_space(hash[j - mode.len() - kind.len() - 2]));
            }
        }
    }
    lemma_splitn_cut(left, '\t', path, 2);
    lemma_words_cut(mode, ' ', kind + seq![' '] + hash);
    lemma_words_cut(kind, ' ', hash);
    lemma_words_cut(hash, ' ', seq![]);
    let w = words(left);
    assert(w[1] == kind);
    if hash.len() > 0 {
        assert(w =~= seq![mode, kind, hash]);
    } else {
        assert(hash =~= Seq::<char>::empty());
        assert(w =~= seq![mode, kind]);
    }
    let parts = splitn(left + seq!['\t'] + path, '\t', 2);
    assert(parts =~= seq![left, path]);
    assert(splitn(left, '\t', 2) =~= seq![left]);
    assert(Seq::<char>::empty() =~= seq![]);
}

/// A file takes part if its type is wanted and its path is: all types, or those of
/// source code; all paths, or those that some wanted pattern matches, if there is
/// any, and no unwanted one.
pub proof fn lemma_listed(line: Seq<char>, all_filetypes: bool, matcher: Option<Matcher>)
    ensures
        listed_file(line) is None ==> listed(line, all_filetypes, matcher) is None,
        listed_file(line) matches Some(e) ==> listed(line, all_filetypes, matcher) == if (
        all_filetypes || code_exts().contains(ext_of(e.path))) && (matcher matches Some(m) ==> {
            &&& m.only_globs().len() == 0 || exists|i: int|
                0 <= i < m.only_globs().len() && glob_matches(#[trigger] m.only_globs()[i], e.path)
            &&& forall|i: int|
                0 <= i < m.ignore_globs().len() ==> !glob_matches(
                    #[trigger] m.ignore_globs()[i],
                    e.path,
                )
        }) {
            Some(e)
        } else {
            None
        },
{
}

/// The files of a tree listing are those that its lines add, one after another.
pub proof fn lemma_tree_lines(
    line: Seq<char>,
    rest: Seq<char>,
    all_filetypes: bool,
    matcher: Option<Matcher>,
)
    requires
        !line.contains('\n'),
        line.len() == 0 || line.last() != '\r',
    ensures
        ({
            let f = |l: Seq<char>| listed(l, all_filetypes, matcher);
            lines(line + seq!['\n'] + rest).filter_map(f) == (match listed(
                line,
                all_filetypes,
                matcher,
            ) {
                Some(e) => seq![e],
                None => Seq::<Entry>::empty(),
            }) + lines(rest).filter_map(f)
        }),
{
    lemma_lines_read(line, rest, |l: Seq<char>| listed(l, all_filetypes, matcher));
}

/// The arguments that list the commits of a branch.
pub open spec fn log_command(branch: Seq<char>) -> Seq<Seq<char>> {
    seq!["log"@, "--format=%H%x09%ct%x09%aN%x09%aE"@, branch]
}

/// The arguments that list the first-parent commits of a branch.
pub open spec fn rev_list_command(branch: Seq<char>) -> Seq<Seq<char>> {
    seq!["rev-list"@, "--first-parent"@, branch]
}

/// The arguments that list the files of a commit.
pub open spec fn ls_tree_command(commit: Seq<char>) -> Seq<Seq<char>> {
    seq!["ls-tree"@, "-r"@, "--full-tree"@, commit]
}

/// The arguments that say where each line of a file comes from.
pub open spec fn blame_command(
    commit: Seq<char>,
    path: Seq<char>,
    ignore_whitespace: bool,
) -> Seq<Seq<char>> {
    seq!["blame"@, "--line-porcelain"@] + (if ignore_whitespace {
        seq!["-w"@]
    } else {
        seq![]
    }) + seq![commit, "--"@, path]
}

/// What git is asked depends on the branch, the commit or the path only in that it
/// ends with it, unchanged. A path stands behind a separator and a commit before
/// it. White space is ignored by one argument more.
pub proof fn lemma_commands(a: Seq<char>, b: Seq<char>, p: Seq<char>, q: Seq<char>, w: bool)
    ensures
        log_command(a).last() == a,
        log_command(a).drop_last() == log_command(b).drop_last(),
        rev_list_command(a).last() == a,
        rev_list_command(a).drop_last() == rev_list_command(b).drop_last(),
        ls_tree_command(a).last() == a,
        ls_tree_command(a).drop_last() == ls_tree_command(b).drop_last(),
        ({
            let n = blame_command(a, p, w).len() as int;
            &&& n == if w {
                6int
            } else {
                5
            }
            &&& blame_command(a, p, w)[n - 3] == a
            &&& blame_command(a, p, w)[n - 2] == "--"@
            &&& blame_command(a, p, w)[n - 1] == p
            &&& blame_command(a, p, w).take(n - 3) == blame_command(b, q, w).take(n - 3)
        }),
        blame_command(a, p, true) == blame_command(a, p, false).insert(2, "-w"@),
{
    assert(log_command(a).drop_last() =~= log_command(b).drop_last());
    assert(rev_list_command(a).drop_last() =~= rev_list_command(b).drop_last());
    assert(ls_tree_command(a).drop_last() =~= ls_tree_command(b).drop_last());
    let n = blame_command(a, p, w).len() as int;
    assert(blame_command(a, p, w).take(n - 3) =~= blame_command(b, q, w).take(n - 3));
    assert(blame_command(a, p, true) =~= blame_command(a, p, false).insert(2, "-w"@));
}

/// The first-parent commits that git lists.
pub open spec fn first_parents(out: Seq<char>) -> Seq<Seq<char>> {
    lines(out)
}

/// Commits are listed one a line; the last line may lack its end.
pub proof fn lemma_first_parents(sha: Seq<char>, rest: Seq<char>)
    requires
        sha.len() > 0,
        sha.last() != '\r',
        !sha.contains('\n'),
    ensures
        first_parents(sha + seq!['\n'] + rest) == seq![sha] + first_parents(rest),
        first_parents(sha) == seq![sha],
        first_parents(Seq::<char>::empty()).len() == 0,
{
    lemma_lines_cut(sha, rest);
}

} // verus!
