//! Which commits are looked at.

use vstd::prelude::*;

use crate::count::{lemma_wrap_fits, plus, wrap};
use crate::git::CommitMeta;
use crate::order::{before, is_stable_order, lemma_stable_order, stable_order};
use crate::table::Table;
use crate::text::texts;

verus! {

/// A commit and its time.
#[derive(Debug)]
pub struct CommitRef {
    pub sha: String,
    pub ts: i64,
}

/// What a [`CommitRef`] says.
pub struct Ref {
    pub sha: Seq<char>,
    pub ts: i64,
}

impl View for CommitRef {
    type V = Ref;

    open spec fn view(&self) -> Ref {
        Ref { sha: self.sha@, ts: self.ts }
    }
}

/// What a list of commits says.
pub open spec fn refs(v: Seq<CommitRef>) -> Seq<Ref> {
    Seq::new(v.len(), |i: int| v[i]@)
}

/// Whether a time is far enough after the last pick.
pub open spec fn due(last: Option<i64>, ts: i64, interval: i64) -> bool {
    match last {
        Some(t) => ts >= wrap(t + interval),
        None => true,
    }
}

/// Of a list of commits, those known commits that are picked after a pick at
/// the time `last`: the first that is due, then the first that is due after
/// that, and so on.
pub open spec fn picks(
    list: Seq<Seq<char>>,
    interval: i64,
    commits: Map<Seq<char>, CommitMeta>,
    last: Option<i64>,
) -> Seq<Seq<char>>
    decreases list.len(),
{
    if list.len() == 0 {
        seq![]
    } else {
        let sha = list[0];
        let rest = list.skip(1);
        if commits.contains_key(sha) && due(last, commits[sha].ts, interval) {
            seq![sha] + picks(rest, interval, commits, Some(commits[sha].ts))
        } else {
            picks(rest, interval, commits, last)
        }
    }
}

/// The commits that are sampled from a list, oldest first: all without an
/// interval, else those that are picked, or the first if none is.
pub open spec fn sampled(
    list: Seq<Seq<char>>,
    interval: i64,
    commits: Map<Seq<char>, CommitMeta>,
) -> Seq<Seq<char>> {
    let picked = picks(list, interval, commits, None);
    if interval <= 0 {
        list
    } else if picked.len() > 0 {
        picked
    } else if list.len() > 0 {
        seq![list[0]]
    } else {
        seq![]
    }
}

/// Samples a list of commits, oldest first.
pub fn sample_by_interval(
    commits_old_to_new: &Vec<String>,
    interval: i64,
    commit_meta: &Table<CommitMeta>,
) -> (out: Vec<String>)
    requires
        commit_meta.wf(),
    ensures
        texts(out@) == sampled(texts(commits_old_to_new@), interval, commit_meta@),
{
    let ghost list = texts(commits_old_to_new@);
    let mut out: Vec<String> = Vec::new();
    let mut i: usize = 0;
    if interval <= 0 {
        while i < commits_old_to_new.len()
            invariant
                i <= commits_old_to_new@.len(),
                list == texts(commits_old_to_new@),
                texts(out@) == list.take(i as int),
            decreases commits_old_to_new@.len() - i,
        {
            let ghost earlier = out@;
            out.push(commits_old_to_new[i].clone());
            proof {
                assert(texts(out@) =~= texts(earlier).push(list[i as int]));
                assert(list.take(i + 1) =~= list.take(i as int).push(list[i as int]));
            }
            i = i + 1;
        }
        assert(list.take(i as int) == list);
        return out;
    }
    let mut last_ts: Option<i64> = None;
    assert(list.skip(0) == list);
    assert(texts(out@) =~= seq![]);
    assert(texts(out@) + picks(list, interval, commit_meta@, None) =~= picks(
        list,
        interval,
        commit_meta@,
        None,
    ));
    while i < commits_old_to_new.len()
        invariant
            i <= commits_old_to_new@.len(),
            commit_meta.wf(),
            list == texts(commits_old_to_new@),
            texts(out@) + picks(list.skip(i as int), interval, commit_meta@, last_ts) == picks(
                list,
                interval,
                commit_meta@,
                None,
            ),
        decreases commits_old_to_new@.len() - i,
    {
        let ghost rest = list.skip(i as int);
        let ghost earlier = out@;
        let sha = &commits_old_to_new[i];
        assert(rest[0] == sha@);
        assert(rest.skip(1) == list.skip(i + 1));
        if let Some(meta) = commit_meta.get(sha.as_str()) {
            let is_due = match last_ts {
                Some(t) => meta.ts >= plus(t, interval),
                None => true,
            };
            if is_due {
                out.push(sha.clone());
                proof {
                    assert(texts(out@) =~= texts(earlier) + seq![sha@]);
                    assert(texts(out@) + picks(
                        list.skip(i + 1),
                        interval,
                        commit_meta@,
                        Some(meta.ts),
                    ) =~= texts(earlier) + picks(rest, interval, commit_meta@, last_ts));
                }
                last_ts = Some(meta.ts);
            }
        }
        i = i + 1;
    }
    proof {
        assert(list.skip(i as int) == Seq::<Seq<char>>::empty());
        assert(texts(out@) + picks(list.skip(i as int), interval, commit_meta@, last_ts)
            =~= texts(out@));
    }
    if out.len() == 0 && commits_old_to_new.len() > 0 {
        out.push(commits_old_to_new[0].clone());
        assert(texts(out@) =~= seq![list[0]]);
    }
    out
}

/// The known commits of a list, with their times.
pub open spec fn known(list: Seq<Seq<char>>, commits: Map<Seq<char>, CommitMeta>) -> Seq<Ref> {
    list.filter_map(
        |sha: Seq<char>|
            if commits.contains_key(sha) {
                Some(Ref { sha, ts: commits[sha].ts })
            } else {
                None
            },
    )
}

/// The times of commits.
pub open spec fn times(list: Seq<Ref>) -> Seq<i64> {
    Seq::new(list.len(), |i: int| list[i].ts)
}

/// Whether `out` is `list` sorted by time, commits of the same time in the
/// order of `list`.
pub open spec fn sorted_by_time(list: Seq<Ref>, out: Seq<Ref>) -> bool {
    exists|order: Seq<usize>|
        #![trigger is_stable_order(times(list), order)]
        is_stable_order(times(list), order) && out == Seq::new(
            order.len(),
            |i: int| list[order[i] as int],
        )
}

/// The commits to look at, oldest first, from the list of first-parent commits,
/// newest first.
pub fn plan_commits(
    commits_new_to_old: &Vec<String>,
    interval: i64,
    commit_meta: &Table<CommitMeta>,
) -> (plan: Vec<CommitRef>)
    requires
        commit_meta.wf(),
    ensures
        sorted_by_time(
            known(
                sampled(texts(commits_new_to_old@).reverse(), interval, commit_meta@),
                commit_meta@,
            ),
            refs(plan@),
        ),
{
    let mut old_to_new: Vec<String> = Vec::new();
    let ghost newest_first = texts(commits_new_to_old@);
    let mut left: usize = commits_new_to_old.len();
    while left > 0
        invariant
            left <= commits_new_to_old@.len(),
            newest_first == texts(commits_new_to_old@),
            texts(old_to_new@) == newest_first.reverse().take(newest_first.len() - left),
        decreases left,
    {
        left = left - 1;
        let ghost earlier = old_to_new@;
        old_to_new.push(commits_new_to_old[left].clone());
        proof {
            let n = newest_first.len() - left;
            assert(texts(old_to_new@) =~= texts(earlier).push(newest_first[left as int]));
            assert(newest_first.reverse().take(n) =~= newest_first.reverse().take(n - 1).push(
                newest_first[left as int],
            ));
        }
    }
    assert(newest_first.reverse().take(newest_first.len() as int) =~= newest_first.reverse());

    let chosen = sample_by_interval(&old_to_new, interval, commit_meta);
    let ghost names = texts(chosen@);
    let ghost f = |sha: Seq<char>|
        if commit_meta@.contains_key(sha) {
            Some(Ref { sha, ts: commit_meta@[sha].ts })
        } else {
            None
        };
    let mut stamps: Vec<i64> = Vec::new();
    let mut found: Vec<CommitRef> = Vec::new();
    let mut i: usize = 0;
    assert(refs(found@) =~= names.take(0).filter_map(f)) by {
        assert(names.take(0) == Seq::<Seq<char>>::empty());
        reveal(Seq::filter_map);
    }
    while i < chosen.len()
        invariant
            i <= chosen@.len(),
            commit_meta.wf(),
            names == texts(chosen@),
            f == (|sha: Seq<char>|
                if commit_meta@.contains_key(sha) {
                    Some(Ref { sha, ts: commit_meta@[sha].ts })
                } else {
                    None
                }),
            refs(found@) == names.take(i as int).filter_map(f),
            stamps@ == times(refs(found@)),
        decreases chosen@.len() - i,
    {
        let ghost earlier = found@;
        proof {
            names.lemma_filter_map_take_succ(f, i as int);
        }
        if let Some(meta) = commit_meta.get(chosen[i].as_str()) {
            let commit = CommitRef { sha: chosen[i].clone(), ts: meta.ts };
            stamps.push(meta.ts);
            found.push(commit);
            proof {
                assert(refs(found@) =~= refs(earlier).push(commit@));
                assert(stamps@ =~= times(refs(found@)));
            }
        }
        i = i + 1;
    }
    assert(names.take(names.len() as int) =~= names);

    let order = stable_order(&stamps);
    let mut plan: Vec<CommitRef> = Vec::new();
    let mut k: usize = 0;
    while k < order.len()
        invariant
            k <= order@.len(),
            plan@.len() == k,
            is_stable_order(stamps@, order@),
            stamps@ == times(refs(found@)),
            forall|j: int| 0 <= j < k ==> (#[trigger] refs(plan@)[j]) == refs(found@)[order@[j] as int],
        decreases order@.len() - k,
    {
        let from = &found[order[k]];
        let ghost earlier = refs(plan@);
        plan.push(CommitRef { sha: from.sha.clone(), ts: from.ts });
        assert(refs(plan@) =~= earlier.push(refs(found@)[order@[k as int] as int]));
        k = k + 1;
    }
    assert(refs(plan@) =~= Seq::new(order@.len(), |j: int| refs(found@)[order@[j] as int]));
    plan
}

/// Whether the end of an interval after any of the known commits is a time.
pub open spec fn spans_fit(
    list: Seq<Seq<char>>,
    interval: i64,
    commits: Map<Seq<char>, CommitMeta>,
) -> bool {
    forall|i: int|
        0 <= i < list.len() && commits.contains_key(#[trigger] list[i]) ==> commits[list[i]].ts
            + interval <= i64::MAX
}

proof fn lemma_picks_step(
    list: Seq<Seq<char>>,
    interval: i64,
    commits: Map<Seq<char>, CommitMeta>,
    last: Option<i64>,
) -> (next: (bool, Option<i64>))
    requires
        list.len() > 0,
        last matches Some(t) ==> i64::MIN <= t + interval <= i64::MAX,
    ensures
        next.0 == (commits.contains_key(list[0]) && (last matches Some(t) ==> commits[list[0]].ts
            >= t + interval)),
        next.1 == if next.0 {
            Some(commits[list[0]].ts)
        } else {
            last
        },
        picks(list, interval, commits, last) == if next.0 {
            seq![list[0]] + picks(list.skip(1), interval, commits, next.1)
        } else {
            picks(list.skip(1), interval, commits, next.1)
        },
{
    if let Some(t) = last {
        lemma_wrap_fits(t + interval);
    }
    let picked = commits.contains_key(list[0]) && due(last, commits[list[0]].ts, interval);
    (
        picked,
        if picked {
            Some(commits[list[0]].ts)
        } else {
            last
        },
    )
}

proof fn lemma_spans_fit_rest(
    list: Seq<Seq<char>>,
    interval: i64,
    commits: Map<Seq<char>, CommitMeta>,
)
    requires
        list.len() > 0,
        spans_fit(list, interval, commits),
    ensures
        spans_fit(list.skip(1), interval, commits),
        commits.contains_key(list[0]) ==> commits[list[0]].ts + interval <= i64::MAX,
{
    let rest = list.skip(1);
    assert forall|i: int| 0 <= i < rest.len() && commits.contains_key(
        #[trigger] rest[i],
    ) implies commits[rest[i]].ts + interval <= i64::MAX by {
        assert(rest[i] == list[i + 1]);
    }
}

proof fn lemma_picks_spaced(
    list: Seq<Seq<char>>,
    interval: i64,
    commits: Map<Seq<char>, CommitMeta>,
    last: Option<i64>,
)
    requires
        interval > 0,
        spans_fit(list, interval, commits),
        last matches Some(t) ==> t + interval <= i64::MAX,
    ensures
        forall|i: int|
            0 < i < picks(list, interval, commits, last).len() ==> commits[#[trigger] picks(
                list,
                interval,
                commits,
                last,
            )[i]].ts >= commits[picks(list, interval, commits, last)[i - 1]].ts + interval,
        last matches Some(t) ==> picks(list, interval, commits, last).len() > 0 ==> commits[picks(
            list,
            interval,
            commits,
            last,
        )[0]].ts >= t + interval,
    decreases list.len(),
{
    if list.len() > 0 {
        let p = picks(list, interval, commits, last);
        let (picked, next) = lemma_picks_step(list, interval, commits, last);
        lemma_spans_fit_rest(list, interval, commits);
        lemma_picks_spaced(list.skip(1), interval, commits, next);
        let q = picks(list.skip(1), interval, commits, next);
        if picked {
            assert forall|i: int| 0 < i < p.len() implies commits[#[trigger] p[i]].ts >= commits[p[i
                - 1]].ts + interval by {
                assert(p[i] == q[i - 1]);
                if i > 1 {
                    assert(p[i - 1] == q[i - 2]);
                }
            }
        }
    }
}

proof fn lemma_picks_cover(
    list: Seq<Seq<char>>,
    interval: i64,
    commits: Map<Seq<char>, CommitMeta>,
    last: Option<i64>,
    j: int,
)
    requires
        interval > 0,
        spans_fit(list, interval, commits),
        last matches Some(t) ==> t + interval <= i64::MAX,
        0 <= j < list.len(),
        commits.contains_key(list[j]),
    ensures
        covered(list, j, interval, commits, picks(list, interval, commits, last)) || (
        last matches Some(t) && commits[list[j]].ts < t + interval),
    decreases list.len(),
{
    let p = picks(list, interval, commits, last);
    let rest = list.skip(1);
    let (picked, next) = lemma_picks_step(list, interval, commits, last);
    if picked {
        assert(p[0] == list[0]);
    }
    if j > 0 {
        lemma_spans_fit_rest(list, interval, commits);
        lemma_picks_cover(rest, interval, commits, next, j - 1);
        let q = picks(rest, interval, commits, next);
        if covered(rest, j - 1, interval, commits, q) {
            let i = choose|i: int|
                0 <= i <= j - 1 && q.contains(#[trigger] rest[i]) && commits.contains_key(rest[i])
                    && commits[rest[j - 1]].ts < commits[rest[i]].ts + interval;
            let k = choose|k: int| 0 <= k < q.len() && q[k] == rest[i];
            assert(p[if picked { k + 1 } else { k }] == list[i + 1]);
        }
    }
}

/// Whether a commit of a list, or one that stands before it less than an
/// interval ago, is among `chosen`.
pub open spec fn covered(
    list: Seq<Seq<char>>,
    j: int,
    interval: i64,
    commits: Map<Seq<char>, CommitMeta>,
    chosen: Seq<Seq<char>>,
) -> bool {
    exists|i: int|
        0 <= i <= j && chosen.contains(#[trigger] list[i]) && commits.contains_key(list[i])
            && commits[list[j]].ts < commits[list[i]].ts + interval
}

/// Commits are sampled at least an interval apart, and no known commit is an
/// interval or more after all that are sampled before it.
pub proof fn lemma_samples_spaced(
    list: Seq<Seq<char>>,
    interval: i64,
    commits: Map<Seq<char>, CommitMeta>,
)
    requires
        interval > 0,
        spans_fit(list, interval, commits),
    ensures
        forall|i: int|
            0 < i < sampled(list, interval, commits).len() ==> commits[#[trigger] sampled(
                list,
                interval,
                commits,
            )[i]].ts >= commits[sampled(list, interval, commits)[i - 1]].ts + interval,
        forall|j: int|
            0 <= j < list.len() && commits.contains_key(#[trigger] list[j]) ==> covered(
                list,
                j,
                interval,
                commits,
                sampled(list, interval, commits),
            ),
{
    lemma_picks_spaced(list, interval, commits, None);
    assert forall|j: int| 0 <= j < list.len() && commits.contains_key(
        #[trigger] list[j],
    ) implies covered(list, j, interval, commits, sampled(list, interval, commits)) by {
        lemma_picks_cover(list, interval, commits, None, j);
    }
}

proof fn lemma_picks_listed(
    list: Seq<Seq<char>>,
    interval: i64,
    commits: Map<Seq<char>, CommitMeta>,
    last: Option<i64>,
)
    ensures
        forall|i: int|
            0 <= i < picks(list, interval, commits, last).len() ==> list.contains(
                #[trigger] picks(list, interval, commits, last)[i],
            ) && commits.contains_key(picks(list, interval, commits, last)[i]),
    decreases list.len(),
{
    let p = picks(list, interval, commits, last);
    if list.len() > 0 {
        let rest = list.skip(1);
        let picked = commits.contains_key(list[0]) && due(last, commits[list[0]].ts, interval);
        let next = if picked {
            Some(commits[list[0]].ts)
        } else {
            last
        };
        let q = picks(rest, interval, commits, next);
        lemma_picks_listed(rest, interval, commits, next);
        assert forall|i: int| 0 <= i < p.len() implies list.contains(#[trigger] p[i])
            && commits.contains_key(p[i]) by {
            let shift: int = if picked {
                1
            } else {
                0
            };
            if i < shift {
                assert(list[0] == p[i]);
            } else {
                assert(p[i] == q[i - shift]);
                let k = choose|k: int| 0 <= k < rest.len() && rest[k] == q[i - shift];
                assert(list[k + 1] == p[i]);
            }
        }
    }
}

/// Only commits of the list are sampled, and at least one unless it is empty.
pub proof fn lemma_samples_listed(
    list: Seq<Seq<char>>,
    interval: i64,
    commits: Map<Seq<char>, CommitMeta>,
)
    ensures
        sampled(list, interval, commits).len() > 0 <==> list.len() > 0,
        forall|i: int|
            0 <= i < sampled(list, interval, commits).len() ==> list.contains(
                #[trigger] sampled(list, interval, commits)[i],
            ),
{
    lemma_picks_listed(list, interval, commits, None);
    let p = picks(list, interval, commits, None);
    if p.len() > 0 {
        assert(list.contains(p[0]));
    }
    assert forall|i: int| 0 <= i < sampled(list, interval, commits).len() implies list.contains(
        #[trigger] sampled(list, interval, commits)[i],
    ) by {
        if interval > 0 && p.len() > 0 {
            assert(list.contains(p[i]));
        } else {
            assert(list[i] == sampled(list, interval, commits)[i]);
        }
    }
}

/// A plan holds the sampled commits, in the order of time.
pub proof fn lemma_plan_sorted(list: Seq<Ref>, plan: Seq<Ref>)
    requires
        sorted_by_time(list, plan),
        list.len() <= usize::MAX,
    ensures
        plan.len() == list.len(),
        forall|i: int, j: int|
            0 <= i < j < plan.len() ==> (#[trigger] plan[i]).ts <= (#[trigger] plan[j]).ts,
        forall|r: Ref| #[trigger] plan.contains(r) <==> list.contains(r),
{
    let order = choose|order: Seq<usize>|
        #![trigger is_stable_order(times(list), order)]
        is_stable_order(times(list), order) && plan == Seq::new(
            order.len(),
            |i: int| list[order[i] as int],
        );
    assert forall|i: int, j: int| 0 <= i < j < plan.len() implies (#[trigger] plan[i]).ts <= (
    #[trigger] plan[j]).ts by {
        assert(before(times(list), order[i] as int, order[j] as int));
    }
    assert forall|r: Ref| #[trigger] plan.contains(r) <==> list.contains(r) by {
        if plan.contains(r) {
            let i = choose|i: int| 0 <= i < plan.len() && plan[i] == r;
            assert(list[order[i] as int] == r);
        }
        if list.contains(r) {
            let k = choose|k: int| 0 <= k < list.len() && list[k] == r;
            assert(order.contains(k as usize));
            let i = choose|i: int| 0 <= i < order.len() && order[i] == k as usize;
            assert(plan[i] == r);
        }
    }
}

proof fn lemma_known_all(list: Seq<Seq<char>>, commits: Map<Seq<char>, CommitMeta>)
    requires
        forall|i: int| 0 <= i < list.len() ==> commits.contains_key(#[trigger] list[i]),
    ensures
        known(list, commits) == Seq::new(
            list.len(),
            |i: int| Ref { sha: list[i], ts: commits[list[i]].ts },
        ),
    decreases list.len(),
{
    reveal(Seq::filter_map);
    let all = Seq::new(list.len(), |i: int| Ref { sha: list[i], ts: commits[list[i]].ts });
    if list.len() > 0 {
        let t = list.drop_last();
        assert forall|i: int| 0 <= i < t.len() implies commits.contains_key(#[trigger] t[i]) by {
            assert(t[i] == list[i]);
        }
        lemma_known_all(t, commits);
        assert(commits.contains_key(list[list.len() - 1]));
        assert(known(list, commits) =~= known(t, commits).push(all.last()));
    }
    assert(known(list, commits) =~= all);
}

proof fn lemma_known_len(list: Seq<Seq<char>>, commits: Map<Seq<char>, CommitMeta>)
    ensures
        known(list, commits).len() <= list.len(),
    decreases list.len(),
{
    reveal(Seq::filter_map);
    if list.len() > 0 {
        lemma_known_len(list.drop_last(), commits);
    }
}

/// Samples are an interval apart, however far they stand from each other.
proof fn lemma_samples_far_apart(
    list: Seq<Seq<char>>,
    interval: i64,
    commits: Map<Seq<char>, CommitMeta>,
    i: int,
    j: int,
)
    requires
        interval > 0,
        spans_fit(list, interval, commits),
        0 <= i < j < sampled(list, interval, commits).len(),
    ensures
        commits[sampled(list, interval, commits)[j]].ts >= commits[sampled(
            list,
            interval,
            commits,
        )[i]].ts + interval,
    decreases j - i,
{
    lemma_samples_spaced(list, interval, commits);
    if j > i + 1 {
        lemma_samples_far_apart(list, interval, commits, i, j - 1);
    }
}

/// The commits of a plan are at least an interval apart.
pub proof fn lemma_plan_spaced(
    list: Seq<Seq<char>>,
    interval: i64,
    commits: Map<Seq<char>, CommitMeta>,
    plan: Seq<Ref>,
)
    requires
        interval > 0,
        list.len() <= usize::MAX,
        spans_fit(list, interval, commits),
        sorted_by_time(known(sampled(list, interval, commits), commits), plan),
    ensures
        forall|i: int, j: int|
            0 <= i < j < plan.len() ==> (#[trigger] plan[j]).ts >= (#[trigger] plan[i]).ts
                + interval,
{
    let chosen = sampled(list, interval, commits);
    let found = known(chosen, commits);
    let p = picks(list, interval, commits, None);
    let order = choose|order: Seq<usize>|
        #![trigger is_stable_order(times(found), order)]
        is_stable_order(times(found), order) && plan == Seq::new(
            order.len(),
            |i: int| found[order[i] as int],
        );
    if p.len() > 0 {
        lemma_picks_listed(list, interval, commits, None);
        lemma_known_all(p, commits);
        assert forall|i: int, j: int| 0 <= i < j < plan.len() implies (#[trigger] plan[j]).ts >= (
        #[trigger] plan[i]).ts + interval by {
            let a = order[i] as int;
            let b = order[j] as int;
            assert(before(times(found), a, b));
            if a < b {
                lemma_samples_far_apart(list, interval, commits, a, b);
            } else if b < a {
                lemma_samples_far_apart(list, interval, commits, b, a);
            }
        }
    } else {
        lemma_known_len(chosen, commits);
    }
}

/// What lists of commits say, item by item.
pub proof fn lemma_commit_lists(v: Seq<CommitRef>, list: Seq<Ref>, i: int)
    ensures
        refs(v).len() == v.len(),
        0 <= i < v.len() ==> refs(v)[i].sha == v[i].sha@ && refs(v)[i].ts == v[i].ts,
        times(list).len() == list.len(),
        0 <= i < list.len() ==> times(list)[i] == list[i].ts,
{
}

/// The known commits of a list are found one by one, each with its time.
pub proof fn lemma_known_push(
    list: Seq<Seq<char>>,
    sha: Seq<char>,
    commits: Map<Seq<char>, CommitMeta>,
)
    ensures
        known(Seq::<Seq<char>>::empty(), commits) == Seq::<Ref>::empty(),
        known(list.push(sha), commits) == if commits.contains_key(sha) {
            known(list, commits).push(Ref { sha, ts: commits[sha].ts })
        } else {
            known(list, commits)
        },
{
    reveal(Seq::filter_map);
    assert(list.push(sha).drop_last() =~= list);
    assert(known(Seq::<Seq<char>>::empty(), commits) =~= Seq::<Ref>::empty());
}

/// Whether the positions `idx` of a list are those at which one commit after
/// another is picked, after a pick at the time `last`: each is known and due, and
/// no known commit between two of them was.
spec fn picked_at(
    list: Seq<Seq<char>>,
    interval: i64,
    commits: Map<Seq<char>, CommitMeta>,
    last: Option<i64>,
    idx: Seq<int>,
) -> bool {
    &&& forall|i: int|
        0 <= i < idx.len() ==> 0 <= #[trigger] idx[i] < list.len() && commits.contains_key(
            list[idx[i]],
        )
    &&& forall|i: int, j: int| 0 <= i < j < idx.len() ==> #[trigger] idx[i] < #[trigger] idx[j]
    &&& forall|k: int|
        0 <= k < list.len() && (idx.len() > 0 ==> k < idx[0]) && commits.contains_key(
            #[trigger] list[k],
        ) ==> (last matches Some(t) && commits[list[k]].ts < wrap(t + interval))
    &&& idx.len() > 0 ==> (last matches Some(t) ==> commits[list[idx[0]]].ts >= wrap(t + interval))
    &&& forall|i: int|
        0 <= i < idx.len() - 1 ==> commits[list[idx[i + 1]]].ts >= wrap(
            commits[list[#[trigger] idx[i]]].ts + interval,
        )
    &&& forall|i: int, k: int|
        0 <= i < idx.len() && idx[i] < k < list.len() && (i + 1 < idx.len() ==> k < idx[i + 1])
            && commits.contains_key(#[trigger] list[k]) ==> commits[list[k]].ts < wrap(
            commits[list[#[trigger] idx[i]]].ts + interval,
        )
}

/// The positions of picks of a list whose first commit is picked.
proof fn lemma_first_picked(
    list: Seq<Seq<char>>,
    interval: i64,
    commits: Map<Seq<char>, CommitMeta>,
    last: Option<i64>,
    tail: Seq<int>,
)
    requires
        list.len() > 0,
        commits.contains_key(list[0]),
        last matches Some(t) ==> commits[list[0]].ts >= wrap(t + interval),
        picked_at(list.skip(1), interval, commits, Some(commits[list[0]].ts), tail),
    ensures
        picked_at(
            list,
            interval,
            commits,
            last,
            seq![0int] + Seq::new(tail.len(), |i: int| tail[i] + 1),
        ),
{
    let rest = list.skip(1);
    let idx = seq![0int] + Seq::new(tail.len(), |i: int| tail[i] + 1);
    assert(idx[0] == 0);
    assert forall|i: int| 0 < i < idx.len() implies #[trigger] idx[i] == tail[i - 1] + 1 && 0
        <= tail[i - 1] < rest.len() && list[idx[i]] == rest[tail[i - 1]] by {}
    assert forall|i: int, j: int| 0 <= i < j < idx.len() implies #[trigger] idx[i]
        < #[trigger] idx[j] by {
        if i > 0 {
            assert(tail[i - 1] < tail[j - 1]);
        }
    }
    assert forall|i: int| 0 <= i < idx.len() - 1 implies commits[list[idx[i + 1]]].ts >= wrap(
        commits[list[#[trigger] idx[i]]].ts + interval,
    ) by {
        assert(list[idx[i + 1]] == rest[tail[i]]);
        if i > 0 {
            assert(list[idx[i]] == rest[tail[i - 1]]);
        }
    }
    assert forall|i: int, k: int|
        0 <= i < idx.len() && idx[i] < k < list.len() && (i + 1 < idx.len() ==> k < idx[i + 1])
            && commits.contains_key(#[trigger] list[k]) implies commits[list[k]].ts < wrap(
        commits[list[#[trigger] idx[i]]].ts + interval,
    ) by {
        assert(list[k] == rest[k - 1]);
        if i + 1 < idx.len() {
            assert(idx[i + 1] == tail[i] + 1);
        }
        if i > 0 {
            assert(list[idx[i]] == rest[tail[i - 1]]);
        }
    }
}

/// The positions of picks of a list whose first commit is not picked.
proof fn lemma_first_skipped(
    list: Seq<Seq<char>>,
    interval: i64,
    commits: Map<Seq<char>, CommitMeta>,
    last: Option<i64>,
    tail: Seq<int>,
)
    requires
        list.len() > 0,
        commits.contains_key(list[0]) ==> (last matches Some(t) && commits[list[0]].ts < wrap(
            t + interval,
        )),
        picked_at(list.skip(1), interval, commits, last, tail),
    ensures
        picked_at(list, interval, commits, last, Seq::new(tail.len(), |i: int| tail[i] + 1)),
{
    let rest = list.skip(1);
    let idx = Seq::new(tail.len(), |i: int| tail[i] + 1);
    assert forall|i: int| 0 <= i < idx.len() implies #[trigger] idx[i] == tail[i] + 1 && 0
        <= tail[i] < rest.len() && list[idx[i]] == rest[tail[i]] by {}
    assert forall|i: int, j: int| 0 <= i < j < idx.len() implies #[trigger] idx[i]
        < #[trigger] idx[j] by {
        assert(tail[i] < tail[j]);
    }
    assert forall|k: int|
        0 <= k < list.len() && (idx.len() > 0 ==> k < idx[0]) && commits.contains_key(
            #[trigger] list[k],
        ) implies (last matches Some(t) && commits[list[k]].ts < wrap(t + interval)) by {
        if k > 0 {
            assert(list[k] == rest[k - 1]);
        }
    }
    assert forall|i: int| 0 <= i < idx.len() - 1 implies commits[list[idx[i + 1]]].ts >= wrap(
        commits[list[#[trigger] idx[i]]].ts + interval,
    ) by {
        assert(list[idx[i + 1]] == rest[tail[i + 1]]);
        assert(list[idx[i]] == rest[tail[i]]);
    }
    assert forall|i: int, k: int|
        0 <= i < idx.len() && idx[i] < k < list.len() && (i + 1 < idx.len() ==> k < idx[i + 1])
            && commits.contains_key(#[trigger] list[k]) implies commits[list[k]].ts < wrap(
        commits[list[#[trigger] idx[i]]].ts + interval,
    ) by {
        assert(list[k] == rest[k - 1]);
        assert(list[idx[i]] == rest[tail[i]]);
        if i + 1 < idx.len() {
            assert(idx[i + 1] == tail[i + 1] + 1);
        }
    }
}

proof fn lemma_picked_at(
    list: Seq<Seq<char>>,
    interval: i64,
    commits: Map<Seq<char>, CommitMeta>,
    last: Option<i64>,
) -> (idx: Seq<int>)
    ensures
        picked_at(list, interval, commits, last, idx),
        picks(list, interval, commits, last) == Seq::new(idx.len(), |i: int| list[idx[i]]),
    decreases list.len(),
{
    if list.len() == 0 {
        let idx = Seq::<int>::empty();
        assert(picks(list, interval, commits, last) =~= Seq::new(
            idx.len(),
            |i: int| list[idx[i]],
        ));
        idx
    } else {
        let rest = list.skip(1);
        let first = list[0];
        if commits.contains_key(first) && due(last, commits[first].ts, interval) {
            let next = Some(commits[first].ts);
            let tail = lemma_picked_at(rest, interval, commits, next);
            let idx = seq![0int] + Seq::new(tail.len(), |i: int| tail[i] + 1);
            lemma_first_picked(list, interval, commits, last, tail);
            let q = picks(rest, interval, commits, next);
            let all = Seq::new(idx.len(), |i: int| list[idx[i]]);
            assert forall|i: int| 0 < i < idx.len() implies #[trigger] all[i] == q[i - 1] by {
                assert(0 <= tail[i - 1] < rest.len());
            }
            assert(picks(list, interval, commits, last) =~= all);
            idx
        } else {
            let tail = lemma_picked_at(rest, interval, commits, last);
            let idx = Seq::new(tail.len(), |i: int| tail[i] + 1);
            lemma_first_skipped(list, interval, commits, last, tail);
            let q = picks(rest, interval, commits, last);
            let all = Seq::new(idx.len(), |i: int| list[idx[i]]);
            assert forall|i: int| 0 <= i < idx.len() implies #[trigger] all[i] == q[i] by {
                assert(0 <= tail[i] < rest.len());
            }
            assert(picks(list, interval, commits, last) =~= all);
            idx
        }
    }
}

/// With an interval, the first known commit of a list is sampled, and after each
/// sampled commit the first known one that is an interval or more younger. If no
/// commit is known, the first of the list is sampled. The result gives the
/// positions of the sampled commits that are known.
pub proof fn lemma_samples_greedy(
    list: Seq<Seq<char>>,
    interval: i64,
    commits: Map<Seq<char>, CommitMeta>,
) -> (idx: Seq<int>)
    requires
        interval > 0,
    ensures
        forall|i: int|
            0 <= i < idx.len() ==> 0 <= #[trigger] idx[i] < list.len() && commits.contains_key(
                list[idx[i]],
            ),
        forall|i: int, j: int| 0 <= i < j < idx.len() ==> #[trigger] idx[i] < #[trigger] idx[j],
        idx.len() > 0 ==> sampled(list, interval, commits) == Seq::new(
            idx.len(),
            |i: int| list[idx[i]],
        ),
        idx.len() == 0 && list.len() > 0 ==> sampled(list, interval, commits) == seq![list[0]],
        list.len() == 0 ==> sampled(list, interval, commits).len() == 0,
        forall|k: int|
            0 <= k < list.len() && commits.contains_key(#[trigger] list[k]) ==> idx.len() > 0
                && idx[0] <= k,
        forall|i: int|
            0 <= i < idx.len() - 1 ==> commits[list[idx[i + 1]]].ts >= wrap(
                commits[list[#[trigger] idx[i]]].ts + interval,
            ),
        forall|i: int, k: int|
            0 <= i < idx.len() && idx[i] < k < list.len() && (i + 1 < idx.len() ==> k < idx[i + 1])
                && commits.contains_key(#[trigger] list[k]) ==> commits[list[k]].ts < wrap(
                commits[list[#[trigger] idx[i]]].ts + interval,
            ),
{
    lemma_picked_at(list, interval, commits, None)
}

/// Without an interval, all commits are sampled.
pub proof fn lemma_samples_all(
    list: Seq<Seq<char>>,
    interval: i64,
    commits: Map<Seq<char>, CommitMeta>,
)
    requires
        interval <= 0,
    ensures
        sampled(list, interval, commits) == list,
{
}

/// A plan is a rearrangement of its list by time, in which commits of the same
/// time keep their order. The result gives the position of each in the list.
pub proof fn lemma_plan_stable(list: Seq<Ref>, plan: Seq<Ref>) -> (order: Seq<usize>)
    requires
        sorted_by_time(list, plan),
        list.len() <= usize::MAX,
    ensures
        order.len() == list.len() == plan.len(),
        order.no_duplicates(),
        forall|i: int|
            0 <= i < plan.len() ==> (#[trigger] order[i]) < list.len() && plan[i]
                == list[order[i] as int],
        forall|i: int, j: int|
            0 <= i < j < plan.len() ==> plan[i].ts < plan[j].ts || (plan[i].ts == plan[j].ts
                && #[trigger] order[i] < #[trigger] order[j]),
{
    let order = choose|order: Seq<usize>|
        #![trigger is_stable_order(times(list), order)]
        is_stable_order(times(list), order) && plan == Seq::new(
            order.len(),
            |i: int| list[order[i] as int],
        );
    lemma_stable_order(times(list), order);
    assert forall|i: int, j: int| 0 <= i < j < plan.len() implies plan[i].ts < plan[j].ts || (
    plan[i].ts == plan[j].ts && #[trigger] order[i] < #[trigger] order[j]) by {
        assert(before(times(list), order[i] as int, order[j] as int));
    }
    order
}

} // verus!
