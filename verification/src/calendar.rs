//! Times of commits, and the cohorts that commits belong to by their time.

use std::fmt::Write;

use chrono::DateTime;
use vstd::prelude::*;

use crate::git::CommitMeta;
use crate::table::Table;

verus! {

/// The first second of the calendar: midnight of January 1, -262143.
pub const FIRST_SECOND: i64 = -8_334_601_228_800;

/// The last second of the calendar: one second before midnight of December 31, 262142.
pub const LAST_SECOND: i64 = 8_210_266_876_799;

/// Whether a time, in seconds since 1970, falls into the calendar.
pub open spec fn in_calendar(ts: i64) -> bool {
    FIRST_SECOND <= ts <= LAST_SECOND
}

/// What a time looks like in UTC in a `strftime` format; nothing if it cannot be
/// written so, as with a malformed format.
pub uninterp spec fn strftime(ts: i64, format: Seq<char>) -> Option<Seq<char>>;

/// What a time looks like in UTC as RFC 3339 writes it.
pub uninterp spec fn rfc3339(ts: i64) -> Seq<char>;

/// Calls `chrono::DateTime::from_timestamp`, which refuses what lies outside
/// the years -262143 to 262142.
#[verifier::external_body]
fn has_date(ts: i64) -> (r: bool)
    ensures
        r == in_calendar(ts),
{
    DateTime::from_timestamp(ts, 0).is_some()
}

/// Calls `chrono::DateTime::format` and writes the result, which fails where
/// the format holds what is no specifier. What is written, and when it fails, is
/// left to [`strftime`].
#[verifier::external_body]
fn write_date(ts: i64, format: &str) -> (r: Option<String>)
    requires
        in_calendar(ts),
    ensures
        match r {
            Some(s) => strftime(ts, format@) == Some(s@),
            None => strftime(ts, format@) is None,
        },
{
    let date = DateTime::from_timestamp(ts, 0)?;
    let mut out = String::new();
    match write!(out, "{}", date.format(format)) {
        Ok(()) => Some(out),
        Err(_) => None,
    }
}

/// Calls `chrono::DateTime::to_rfc3339`. What it writes is left to [`rfc3339`].
#[verifier::external_body]
fn write_rfc3339(ts: i64) -> (r: Option<String>)
    ensures
        r is Some <==> in_calendar(ts),
        r matches Some(s) ==> s@ == rfc3339(ts),
{
    match DateTime::from_timestamp(ts, 0) {
        Some(date) => Some(date.to_rfc3339()),
        None => None,
    }
}

/// Why a time cannot be written.
#[derive(Debug, PartialEq, Eq, Structural)]
pub enum DateError {
    /// The time falls outside the calendar.
    BadTimestamp(i64),
    /// The format is malformed.
    BadFormat,
}

/// The cohort of a time, or why it has none.
pub open spec fn cohort(ts: i64, format: Seq<char>) -> Result<Seq<char>, DateError> {
    if !in_calendar(ts) {
        Err(DateError::BadTimestamp(ts))
    } else {
        match strftime(ts, format) {
            Some(s) => Ok(s),
            None => Err(DateError::BadFormat),
        }
    }
}

/// What comes of a time that has a date or has none, and of its date as it was
/// written, if it could be.
pub fn cohort_of_date(ts: i64, dated: bool, written: Option<String>) -> (r: Result<
    String,
    DateError,
>)
    ensures
        match r {
            Ok(s) => dated && written == Some(s),
            Err(DateError::BadTimestamp(t)) => !dated && t == ts,
            Err(DateError::BadFormat) => dated && written is None,
        },
{
    if !dated {
        return Err(DateError::BadTimestamp(ts));
    }
    match written {
        Some(s) => Ok(s),
        None => Err(DateError::BadFormat),
    }
}

/// The cohort of a time: the time in a `strftime` format.
pub fn cohort_from_ts(ts: i64, format: &str) -> (r: Result<String, DateError>)
    ensures
        match r {
            Ok(s) => cohort(ts, format@) == Ok::<Seq<char>, DateError>(s@),
            Err(e) => cohort(ts, format@) == Err::<Seq<char>, DateError>(e),
        },
{
    let dated = has_date(ts);
    let written = if dated {
        write_date(ts, format)
    } else {
        None
    };
    cohort_of_date(ts, dated, written)
}

/// A time as RFC 3339 writes it.
pub fn timestamp_text(ts: i64) -> (r: Result<String, DateError>)
    ensures
        match r {
            Ok(s) => in_calendar(ts) && s@ == rfc3339(ts),
            Err(e) => !in_calendar(ts) && e == DateError::BadTimestamp(ts),
        },
        match r {
            Ok(s) => stamp_of(ts) == Ok::<Seq<char>, DateError>(s@),
            Err(e) => stamp_of(ts) == Err::<Seq<char>, DateError>(e),
        },
{
    match write_rfc3339(ts) {
        Some(s) => Ok(s),
        None => Err(DateError::BadTimestamp(ts)),
    }
}

/// Whether `cohorts` holds the cohort of each of `commits`.
pub open spec fn are_cohorts(
    commits: Map<Seq<char>, CommitMeta>,
    format: Seq<char>,
    cohorts: Map<Seq<char>, String>,
) -> bool {
    &&& forall|sha: Seq<char>| #[trigger]
        cohorts.contains_key(sha) <==> commits.contains_key(sha)
    &&& forall|sha: Seq<char>| #[trigger]
        cohorts.contains_key(sha) ==> cohort(commits[sha].ts, format) == Ok::<Seq<char>, DateError>(
            cohorts[sha]@,
        )
}

/// Finds the cohort of each commit. Stops at the first commit, in the order of
/// the table, that has none.
pub fn assign_cohorts(commits: &Table<CommitMeta>, format: &str) -> (r: Result<
    Table<String>,
    DateError,
>)
    requires
        commits.wf(),
    ensures
        match r {
            Ok(cohorts) => cohorts.wf() && are_cohorts(commits@, format@, cohorts@),
            Err(e) => exists|i: int|
                0 <= i < commits.keys().len() && #[trigger] cohort(
                    commits@[commits.keys()[i]].ts,
                    format@,
                ) == Err::<Seq<char>, DateError>(e) && (forall|j: int|
                    0 <= j < i ==> #[trigger] cohort(
                        commits@[commits.keys()[j]].ts,
                        format@,
                    ) is Ok),
        },
{
    let mut cohorts: Table<String> = Table::new();
    let mut i: usize = 0;
    proof {
        commits.lemma_keys();
    }
    while i < commits.len()
        invariant
            commits.wf(),
            cohorts.wf(),
            i <= commits.keys().len(),
            forall|j: int|
                0 <= j < i ==> #[trigger] cohort(commits@[commits.keys()[j]].ts, format@) is Ok,
            forall|sha: Seq<char>| #[trigger]
                cohorts@.contains_key(sha) <==> commits.keys().take(i as int).contains(sha),
            forall|sha: Seq<char>| #[trigger]
                cohorts@.contains_key(sha) ==> cohort(commits@[sha].ts, format@) == Ok::<
                    Seq<char>,
                    DateError,
                >(cohorts@[sha]@),
        decreases commits.keys().len() - i,
    {
        let sha = commits.name(i);
        let ghost done = commits.keys().take(i as int);
        let ghost next = commits.keys().take(i + 1);
        match cohort_from_ts(commits.value(i).ts, format) {
            Ok(s) => {
                cohorts.insert(sha.clone(), s);
                proof {
                    assert(next == done.push(sha@));
                    assert forall|k: Seq<char>| next.contains(k) <==> done.contains(k) || k == sha@ by {
                        if next.contains(k) {
                            let j = choose|j: int| 0 <= j < next.len() && next[j] == k;
                            if j < i {
                                assert(done[j] == k);
                            }
                        }
                        if done.contains(k) {
                            let j = choose|j: int| 0 <= j < done.len() && done[j] == k;
                            assert(next[j] == k);
                        }
                        assert(next[i as int] == sha@);
                    }
                }
            },
            Err(e) => {
                assert(cohort(commits@[commits.keys()[i as int]].ts, format@) == Err::<
                    Seq<char>,
                    DateError,
                >(e));
                return Err(e);
            },
        }
        i = i + 1;
    }
    proof {
        commits.lemma_keys();
        assert(commits.keys().take(i as int) == commits.keys());
    }
    Ok(cohorts)
}

/// A time has a cohort if it lies within the years -262143 to 262142, in seconds
/// since 1970, and if its date can be written in the format; the cohort is what
/// is written.
pub proof fn lemma_cohort(ts: i64, format: Seq<char>, text: Seq<char>)
    ensures
        cohort(ts, format) == Ok::<Seq<char>, DateError>(text) <==> -8_334_601_228_800 <= ts
            <= 8_210_266_876_799 && strftime(ts, format) == Some(text),
        cohort(ts, format) == Err::<Seq<char>, DateError>(DateError::BadTimestamp(ts)) <==> ts
            < -8_334_601_228_800 || ts > 8_210_266_876_799,
        cohort(ts, format) == Err::<Seq<char>, DateError>(DateError::BadFormat) <==>
            -8_334_601_228_800 <= ts <= 8_210_266_876_799 && strftime(ts, format) is None,
{
}

/// Each commit has the cohort of its time, and nothing else has one.
pub proof fn lemma_cohorts(
    commits: Map<Seq<char>, CommitMeta>,
    format: Seq<char>,
    cohorts: Map<Seq<char>, String>,
    sha: Seq<char>,
)
    requires
        are_cohorts(commits, format, cohorts),
    ensures
        cohorts.contains_key(sha) <==> commits.contains_key(sha),
        commits.contains_key(sha) ==> -8_334_601_228_800 <= commits[sha].ts <= 8_210_266_876_799
            && strftime(commits[sha].ts, format) == Some(cohorts[sha]@),
{
    assert(cohorts.contains_key(sha) <==> commits.contains_key(sha));
}

/// A time as RFC 3339 writes it, or why it has no date.
pub open spec fn stamp_of(ts: i64) -> Result<Seq<char>, DateError> {
    if in_calendar(ts) {
        Ok(rfc3339(ts))
    } else {
        Err(DateError::BadTimestamp(ts))
    }
}

/// A time is written if and only if it lies within the years -262143 to 262142.
pub proof fn lemma_stamp(ts: i64)
    ensures
        -8_334_601_228_800 <= ts <= 8_210_266_876_799 ==> stamp_of(ts) == Ok::<
            Seq<char>,
            DateError,
        >(rfc3339(ts)),
        ts < -8_334_601_228_800 || ts > 8_210_266_876_799 ==> stamp_of(ts) == Err::<
            Seq<char>,
            DateError,
        >(DateError::BadTimestamp(ts)),
{
}

} // verus!
