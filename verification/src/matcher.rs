//! Which paths are looked at: glob patterns that a path must match, and glob
//! patterns that it must not.

use vstd::prelude::*;

use globset::{Glob, GlobSet, GlobSetBuilder};

use crate::text::texts;

verus! {

/// One parsed pattern of the `globset` crate.
#[verifier::external_type_specification]
#[verifier::external_body]
pub struct ExGlob(globset::Glob);

/// A list of patterns of the `globset` crate.
#[verifier::external_type_specification]
#[verifier::external_body]
pub struct ExGlobSetBuilder(globset::GlobSetBuilder);

/// A compiled set of patterns of the `globset` crate.
#[verifier::external_type_specification]
#[verifier::external_body]
pub struct ExGlobSet(globset::GlobSet);

/// Why the `globset` crate rejects a pattern or a set of patterns.
#[verifier::external_type_specification]
#[verifier::external_body]
pub struct ExGlobError(globset::Error);

/// Whether `Glob::new` accepts a text as a pattern. Whether a backslash escapes
/// or separates is fixed by the platform that the crate is built for.
pub uninterp spec fn glob_accepts(pattern: Seq<char>) -> bool;

/// The text that a pattern was made from.
pub uninterp spec fn glob_text(glob: globset::Glob) -> Seq<char>;

/// The patterns that a builder holds, in order.
pub uninterp spec fn builder_globs(builder: globset::GlobSetBuilder) -> Seq<Seq<char>>;

/// The patterns that a set was built from, in order.
pub uninterp spec fn set_globs(set: globset::GlobSet) -> Seq<Seq<char>>;

/// Whether `GlobSetBuilder::build` can compile these patterns together.
pub uninterp spec fn globs_compile(globs: Seq<Seq<char>>) -> bool;

/// Whether a pattern matches a path. What separates the components of a path is
/// fixed by the platform that the crate is built for.
pub uninterp spec fn glob_matches(glob: Seq<char>, path: Seq<char>) -> bool;

/// Calls `globset::Glob::new`, which parses a pattern with the default options
/// and keeps its text. Which texts it accepts is left to [`glob_accepts`].
#[verifier::external_body]
fn parse_glob(pattern: &str) -> (r: Result<Glob, globset::Error>)
    ensures
        r is Ok <==> glob_accepts(pattern@),
        r matches Ok(g) ==> glob_text(g) == pattern@,
{
    Glob::new(pattern)
}

/// Calls `globset::GlobSetBuilder::new`, which makes a builder without patterns.
#[verifier::external_body]
fn new_builder() -> (b: GlobSetBuilder)
    ensures
        builder_globs(b) == Seq::<Seq<char>>::empty(),
{
    GlobSetBuilder::new()
}

/// Calls `globset::GlobSetBuilder::add`, which appends one pattern.
#[verifier::external_body]
fn add_glob(builder: &mut GlobSetBuilder, glob: Glob)
    ensures
        builder_globs(*final(builder)) == builder_globs(*old(builder)).push(glob_text(glob)),
{
    builder.add(glob);
}

/// Calls `globset::GlobSetBuilder::build`, which compiles the patterns of the
/// builder into a set. It never fails without patterns; which other lists it
/// can compile is left to [`globs_compile`].
#[verifier::external_body]
fn build_set(builder: &GlobSetBuilder) -> (r: Result<GlobSet, globset::Error>)
    ensures
        r is Ok <==> globs_compile(builder_globs(*builder)),
        builder_globs(*builder).len() == 0 ==> r is Ok,
        r matches Ok(s) ==> set_globs(s) == builder_globs(*builder),
{
    builder.build()
}

/// Calls `globset::GlobSet::len`, the number of patterns of the set.
#[verifier::external_body]
fn set_len(set: &GlobSet) -> (n: usize)
    ensures
        n == set_globs(*set).len(),
{
    set.len()
}

/// Calls `globset::GlobSet::is_match`: whether any pattern of the set matches
/// the path. What one pattern matches is left to [`glob_matches`].
#[verifier::external_body]
fn set_matches(set: &GlobSet, path: &str) -> (r: bool)
    ensures
        r == (exists|i: int|
            0 <= i < set_globs(*set).len() && glob_matches(#[trigger] set_globs(*set)[i], path@)),
{
    set.is_match(path)
}

/// Whether any of the patterns matches a path.
pub open spec fn any_matches(globs: Seq<Seq<char>>, path: Seq<char>) -> bool {
    exists|i: int| 0 <= i < globs.len() && glob_matches(#[trigger] globs[i], path)
}

/// Position of the first text that is no pattern, or the number of texts.
pub open spec fn first_rejected(patterns: Seq<Seq<char>>) -> int
    decreases patterns.len(),
{
    if patterns.len() == 0 || !glob_accepts(patterns[0]) {
        0
    } else {
        1 + first_rejected(patterns.skip(1))
    }
}

/// The paths that are wanted and the paths that are not.
pub struct Matcher {
    only: GlobSet,
    ignore: GlobSet,
}

impl Matcher {
    /// The patterns of which a path must match one, if there are any.
    pub closed spec fn only_globs(&self) -> Seq<Seq<char>> {
        set_globs(self.only)
    }

    /// The patterns of which a path must match none.
    pub closed spec fn ignore_globs(&self) -> Seq<Seq<char>> {
        set_globs(self.ignore)
    }
}

/// Why a matcher cannot be built.
pub enum MatcherError {
    /// A pattern of the wanted paths is malformed.
    InvalidOnly { pattern: String, cause: globset::Error },
    /// A pattern of the unwanted paths is malformed.
    InvalidIgnore { pattern: String, cause: globset::Error },
    /// The patterns cannot be compiled together.
    Build { cause: globset::Error },
}

proof fn lemma_first_rejected_is(patterns: Seq<Seq<char>>, i: int)
    requires
        0 <= i <= patterns.len(),
        i < patterns.len() ==> !glob_accepts(patterns[i]),
        forall|j: int| 0 <= j < i ==> glob_accepts(#[trigger] patterns[j]),
    ensures
        first_rejected(patterns) == i,
    decreases patterns.len(),
{
    if i > 0 {
        assert(glob_accepts(patterns[0]));
        let t = patterns.skip(1);
        assert forall|j: int| 0 <= j < i - 1 implies glob_accepts(#[trigger] t[j]) by {
            assert(glob_accepts(patterns[j + 1]));
        }
        lemma_first_rejected_is(t, i - 1);
    }
}

/// Collects patterns into a builder, up to the first malformed one.
fn collect_globs(patterns: &Vec<String>) -> (r: Result<GlobSetBuilder, (usize, globset::Error)>)
    ensures
        match r {
            Ok(b) => first_rejected(texts(patterns@)) == patterns@.len() && builder_globs(b)
                == texts(patterns@),
            Err((i, _)) => i < patterns@.len() && first_rejected(texts(patterns@)) == i,
        },
{
    let mut builder = new_builder();
    let mut i: usize = 0;
    while i < patterns.len()
        invariant
            i <= patterns@.len(),
            builder_globs(builder) == texts(patterns@).take(i as int),
            forall|j: int| 0 <= j < i ==> glob_accepts(#[trigger] texts(patterns@)[j]),
        decreases patterns@.len() - i,
    {
        assert(texts(patterns@)[i as int] == patterns@[i as int]@);
        match parse_glob(patterns[i].as_str()) {
            Ok(glob) => {
                add_glob(&mut builder, glob);
                assert(texts(patterns@).take(i + 1) == texts(patterns@).take(i as int).push(
                    patterns@[i as int]@,
                ));
            },
            Err(cause) => {
                proof {
                    lemma_first_rejected_is(texts(patterns@), i as int);
                }
                return Err((i, cause));
            },
        }
        i = i + 1;
    }
    proof {
        lemma_first_rejected_is(texts(patterns@), i as int);
        assert(texts(patterns@).take(i as int) == texts(patterns@));
    }
    Ok(builder)
}

/// Builds the matcher of two lists of patterns; no matcher if both are empty.
pub fn build_matcher(only: &Vec<String>, ignore: &Vec<String>) -> (r: Result<
    Option<Matcher>,
    MatcherError,
>)
    ensures
        ({
            let wanted = texts(only@);
            let unwanted = texts(ignore@);
            if wanted.len() == 0 && unwanted.len() == 0 {
                r matches Ok(None)
            } else if first_rejected(wanted) < wanted.len() {
                r matches Err(MatcherError::InvalidOnly { pattern, .. }) && pattern@
                    == wanted[first_rejected(wanted)]
            } else if first_rejected(unwanted) < unwanted.len() {
                r matches Err(MatcherError::InvalidIgnore { pattern, .. }) && pattern@
                    == unwanted[first_rejected(unwanted)]
            } else if (wanted.len() > 0 && !globs_compile(wanted)) || (unwanted.len() > 0
                && !globs_compile(unwanted)) {
                r matches Err(MatcherError::Build { .. })
            } else {
                r matches Ok(Some(m)) && m.only_globs() == wanted && m.ignore_globs() == unwanted
            }
        }),
        match r {
            Ok(None) => outcome(texts(only@), texts(ignore@)) is NoMatcher,
            Ok(Some(_)) => outcome(texts(only@), texts(ignore@)) is Built,
            Err(MatcherError::InvalidOnly { pattern, .. }) => outcome(texts(only@), texts(ignore@))
                == Outcome::InvalidOnly(pattern@),
            Err(MatcherError::InvalidIgnore { pattern, .. }) => outcome(
                texts(only@),
                texts(ignore@),
            ) == Outcome::InvalidIgnore(pattern@),
            Err(MatcherError::Build { .. }) => outcome(texts(only@), texts(ignore@)) is Uncompiled,
        },
{
    if only.len() == 0 && ignore.len() == 0 {
        return Ok(None);
    }
    let only_builder = match collect_globs(only) {
        Ok(b) => b,
        Err((i, cause)) => {
            return Err(MatcherError::InvalidOnly { pattern: only[i].clone(), cause });
        },
    };
    let ignore_builder = match collect_globs(ignore) {
        Ok(b) => b,
        Err((i, cause)) => {
            return Err(MatcherError::InvalidIgnore { pattern: ignore[i].clone(), cause });
        },
    };
    match build_set(&only_builder) {
        Ok(only_set) => match build_set(&ignore_builder) {
            Ok(ignore_set) => Ok(Some(Matcher { only: only_set, ignore: ignore_set })),
            Err(cause) => Err(MatcherError::Build { cause }),
        },
        Err(cause) => Err(MatcherError::Build { cause }),
    }
}

/// Whether a matcher lets a path through: any path without a matcher; else one
/// that a wanted pattern matches, or any if there is none, and that no unwanted
/// pattern matches.
pub open spec fn path_wanted(matcher: Option<Matcher>, path: Seq<char>) -> bool {
    match matcher {
        None => true,
        Some(m) => verdict(
            m.only_globs().len() as int,
            any_matches(m.only_globs(), path),
            any_matches(m.ignore_globs(), path),
        ),
    }
}

/// What is decided of a path from the number of wanted patterns and from
/// whether a wanted and an unwanted one match it.
pub open spec fn verdict(wanted: int, wanted_match: bool, unwanted_match: bool) -> bool {
    (wanted == 0 || wanted_match) && !unwanted_match
}

/// Decides on a path, given how many wanted patterns there are and whether a
/// wanted and an unwanted one match it.
pub fn path_verdict(wanted: usize, wanted_match: bool, unwanted_match: bool) -> (r: bool)
    ensures
        r == verdict(wanted as int, wanted_match, unwanted_match),
{
    (wanted == 0 || wanted_match) && !unwanted_match
}

/// Whether a matcher lets a path through.
pub fn path_ok(path: &str, matcher: &Option<Matcher>) -> (r: bool)
    ensures
        r == path_wanted(*matcher, path@),
{
    match matcher {
        None => true,
        Some(m) => path_verdict(
            set_len(&m.only),
            set_matches(&m.only, path),
            set_matches(&m.ignore, path),
        ),
    }
}

/// What comes of two lists of patterns.
pub enum Outcome {
    NoMatcher,
    InvalidOnly(Seq<char>),
    InvalidIgnore(Seq<char>),
    Uncompiled,
    Built,
}

/// What comes of the patterns of the wanted and of the unwanted paths.
pub open spec fn outcome(wanted: Seq<Seq<char>>, unwanted: Seq<Seq<char>>) -> Outcome {
    if wanted.len() == 0 && unwanted.len() == 0 {
        Outcome::NoMatcher
    } else if first_rejected(wanted) < wanted.len() {
        Outcome::InvalidOnly(wanted[first_rejected(wanted)])
    } else if first_rejected(unwanted) < unwanted.len() {
        Outcome::InvalidIgnore(unwanted[first_rejected(unwanted)])
    } else if (wanted.len() > 0 && !globs_compile(wanted)) || (unwanted.len() > 0
        && !globs_compile(unwanted)) {
        Outcome::Uncompiled
    } else {
        Outcome::Built
    }
}

/// The first rejected text is no pattern, but all before it are.
pub proof fn lemma_first_rejected(patterns: Seq<Seq<char>>)
    ensures
        0 <= first_rejected(patterns) <= patterns.len(),
        first_rejected(patterns) < patterns.len() ==> !glob_accepts(
            patterns[first_rejected(patterns)],
        ),
        forall|j: int| 0 <= j < first_rejected(patterns) ==> glob_accepts(#[trigger] patterns[j]),
    decreases patterns.len(),
{
    if patterns.len() > 0 && glob_accepts(patterns[0]) {
        let t = patterns.skip(1);
        lemma_first_rejected(t);
        assert forall|j: int| 0 <= j < first_rejected(patterns) implies glob_accepts(
            #[trigger] patterns[j],
        ) by {
            if j > 0 {
                assert(t[j - 1] == patterns[j]);
            }
        }
        if first_rejected(t) < t.len() {
            assert(t[first_rejected(t)] == patterns[first_rejected(patterns)]);
        }
    }
}

/// There is no matcher without patterns. A malformed pattern is reported before
/// anything is compiled, the first of its list, a wanted one before an unwanted
/// one. A matcher is built exactly if all patterns are well formed and each list
/// that has any compiles.
pub proof fn lemma_outcome(wanted: Seq<Seq<char>>, unwanted: Seq<Seq<char>>, p: Seq<char>)
    ensures
        outcome(wanted, unwanted) is NoMatcher <==> wanted.len() == 0 && unwanted.len() == 0,
        outcome(wanted, unwanted) == Outcome::InvalidOnly(p) <==> exists|i: int|
            0 <= i < wanted.len() && wanted[i] == p && !glob_accepts(#[trigger] wanted[i]) && (
            forall|j: int| 0 <= j < i ==> glob_accepts(#[trigger] wanted[j])),
        outcome(wanted, unwanted) == Outcome::InvalidIgnore(p) <==> (forall|j: int|
            0 <= j < wanted.len() ==> glob_accepts(#[trigger] wanted[j])) && exists|i: int|
            0 <= i < unwanted.len() && unwanted[i] == p && !glob_accepts(#[trigger] unwanted[i])
                && (forall|j: int| 0 <= j < i ==> glob_accepts(#[trigger] unwanted[j])),
        outcome(wanted, unwanted) is Built <==> {
            &&& wanted.len() > 0 || unwanted.len() > 0
            &&& forall|j: int| 0 <= j < wanted.len() ==> glob_accepts(#[trigger] wanted[j])
            &&& forall|j: int| 0 <= j < unwanted.len() ==> glob_accepts(#[trigger] unwanted[j])
            &&& wanted.len() > 0 ==> globs_compile(wanted)
            &&& unwanted.len() > 0 ==> globs_compile(unwanted)
        },
{
    lemma_first_rejected(wanted);
    lemma_first_rejected(unwanted);
    if exists|i: int|
        0 <= i < wanted.len() && wanted[i] == p && !glob_accepts(#[trigger] wanted[i]) && (forall|
            j: int,
        |
            0 <= j < i ==> glob_accepts(#[trigger] wanted[j])) {
        let i = choose|i: int|
            0 <= i < wanted.len() && wanted[i] == p && !glob_accepts(#[trigger] wanted[i]) && (
            forall|j: int| 0 <= j < i ==> glob_accepts(#[trigger] wanted[j]));
        lemma_first_rejected_is(wanted, i);
    }
    if exists|i: int|
        0 <= i < unwanted.len() && unwanted[i] == p && !glob_accepts(#[trigger] unwanted[i]) && (
        forall|j: int| 0 <= j < i ==> glob_accepts(#[trigger] unwanted[j])) {
        let i = choose|i: int|
            0 <= i < unwanted.len() && unwanted[i] == p && !glob_accepts(#[trigger] unwanted[i])
                && (forall|j: int| 0 <= j < i ==> glob_accepts(#[trigger] unwanted[j]));
        lemma_first_rejected_is(unwanted, i);
    }
}

/// A path is let through if there is no matcher, or if some wanted pattern matches
/// it, where there are any, and no unwanted one does.
pub proof fn lemma_path_wanted(m: Matcher, path: Seq<char>)
    ensures
        path_wanted(None, path),
        path_wanted(Some(m), path) <==> {
            &&& m.only_globs().len() > 0 ==> exists|i: int|
                0 <= i < m.only_globs().len() && glob_matches(#[trigger] m.only_globs()[i], path)
            &&& forall|i: int|
                0 <= i < m.ignore_globs().len() ==> !glob_matches(
                    #[trigger] m.ignore_globs()[i],
                    path,
                )
        },
        forall|n: int, a: bool, b: bool| #[trigger]
            verdict(n, a, b) == ((n != 0 ==> a) && !b),
{
}

} // verus!
