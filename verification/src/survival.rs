//! How long the lines of commits survive: what happens at which age.

use std::collections::HashMap;

use vstd::prelude::*;

use crate::count::{
    lemma_sum_at_one, lemma_sum_concat, lemma_sum_equal, lemma_sum_plus, lemma_sum_push,
    lemma_sum_scale, lemma_sum_zero, lemma_sum_zip, lemma_wrap_congruent, minus, sum, wrap,
};
use crate::order::{before, is_stable_order, stable_order};

verus! {

/// What happens at one age. A step is a history and a sample of it other than
/// the first: the number of lines goes from that of the sample before to that of
/// this one. An exit is a history that ends: its lines are no longer observed.
pub struct Event {
    pub offset: i64,
    pub steps: Vec<(usize, usize)>,
    pub exits: Vec<usize>,
}

/// The times of the samples of each history.
pub open spec fn sample_times(v: Seq<Vec<i64>>) -> Seq<Seq<i64>> {
    Seq::new(v.len(), |i: int| v[i]@)
}

/// The steps of a history, each with its age: the time since the first sample.
pub open spec fn steps_of(history: int, t: Seq<i64>) -> Seq<(i64, (usize, usize))> {
    Seq::new(
        if t.len() > 0 {
            (t.len() - 1) as nat
        } else {
            0
        },
        |i: int| (wrap(t[i + 1] - t[0]), (history as usize, (i + 1) as usize)),
    )
}

/// The steps of all histories.
pub open spec fn all_steps(times: Seq<Seq<i64>>) -> Seq<(i64, (usize, usize))>
    decreases times.len(),
{
    if times.len() == 0 {
        seq![]
    } else {
        all_steps(times.drop_last()) + steps_of(times.len() - 1, times.last())
    }
}

/// The exit of a history, with its age; none if the history has no sample.
pub open spec fn exits_of(history: int, t: Seq<i64>) -> Seq<(i64, usize)> {
    if t.len() > 0 {
        seq![(wrap(t.last() - t[0]), history as usize)]
    } else {
        seq![]
    }
}

/// The exits of all histories.
pub open spec fn all_exits(times: Seq<Seq<i64>>) -> Seq<(i64, usize)>
    decreases times.len(),
{
    if times.len() == 0 {
        seq![]
    } else {
        all_exits(times.drop_last()) + exits_of(times.len() - 1, times.last())
    }
}

/// What happens at an age.
pub open spec fn at_offset<T>(s: Seq<(i64, T)>, offset: i64) -> Seq<T> {
    s.filter(|x: (i64, T)| x.0 == offset).map_values(|x: (i64, T)| x.1)
}

/// Whether anything happens at an age.
pub open spec fn occurs<T>(s: Seq<(i64, T)>, offset: i64) -> bool {
    exists|i: int| 0 <= i < s.len() && (#[trigger] s[i]).0 == offset
}

/// Whether `events` hold these steps and exits, by age.
pub open spec fn are_events(
    events: Seq<Event>,
    steps: Seq<(i64, (usize, usize))>,
    exits: Seq<(i64, usize)>,
) -> bool {
    &&& forall|i: int|
        0 <= i < events.len() ==> (#[trigger] events[i]).steps@ == at_offset(steps, events[i].offset)
            && events[i].exits@ == at_offset(exits, events[i].offset)
    &&& forall|i: int|
        0 <= i < events.len() ==> occurs(steps, (#[trigger] events[i]).offset) || occurs(
            exits,
            events[i].offset,
        )
    &&& forall|d: i64|
        #![trigger occurs(steps, d)]
        #![trigger occurs(exits, d)]
        occurs(steps, d) || occurs(exits, d) ==> has_event(events, d)
}

pub open spec fn has_event(events: Seq<Event>, offset: i64) -> bool {
    exists|i: int| 0 <= i < events.len() && (#[trigger] events[i]).offset == offset
}

/// Whether `events` tell what happens to histories, age by age.
pub open spec fn is_timeline(events: Seq<Event>, times: Seq<Seq<i64>>) -> bool {
    &&& are_events(events, all_steps(times), all_exits(times))
    &&& forall|i: int, j: int|
        0 <= i < j < events.len() ==> (#[trigger] events[i]).offset < (#[trigger] events[j]).offset
}

proof fn lemma_at_offset_push<T>(s: Seq<(i64, T)>, x: (i64, T))
    ensures
        at_offset(s.push(x), x.0) == at_offset(s, x.0).push(x.1),
        forall|d: i64| d != x.0 ==> #[trigger] at_offset(s.push(x), d) == at_offset(s, d),
        forall|d: i64| #[trigger] occurs(s.push(x), d) <==> occurs(s, d) || d == x.0,
{
    let t = s.push(x);
    let p = |y: (i64, T)| y.0 == x.0;
    s.lemma_filter_push(x, p);
    assert(at_offset(t, x.0) =~= at_offset(s, x.0).push(x.1));
    assert forall|d: i64| d != x.0 implies #[trigger] at_offset(t, d) == at_offset(s, d) by {
        s.lemma_filter_push(x, |y: (i64, T)| y.0 == d);
    }
    assert forall|d: i64| #[trigger] occurs(t, d) <==> occurs(s, d) || d == x.0 by {
        if occurs(t, d) {
            let i = choose|i: int| 0 <= i < t.len() && (#[trigger] t[i]).0 == d;
            if i < s.len() {
                assert(s[i].0 == d);
            }
        }
        if occurs(s, d) {
            let i = choose|i: int| 0 <= i < s.len() && (#[trigger] s[i]).0 == d;
            assert(t[i].0 == d);
        }
        assert(t[s.len() as int].0 == x.0);
    }
}

proof fn lemma_at_offset_none<T>(s: Seq<(i64, T)>, d: i64)
    requires
        !occurs(s, d),
    ensures
        at_offset(s, d) == Seq::<T>::empty(),
    decreases s.len(),
{
    reveal(Seq::filter);
    if s.len() > 0 {
        let t = s.drop_last();
        assert(s[s.len() - 1].0 != d);
        if occurs(t, d) {
            let i = choose|i: int| 0 <= i < t.len() && (#[trigger] t[i]).0 == d;
            assert(s[i].0 == d);
        }
        lemma_at_offset_none(t, d);
        let p = |y: (i64, T)| y.0 == d;
        assert(s.filter(p) =~= t.filter(p));
    }
    assert(at_offset(s, d) =~= Seq::<T>::empty());
}

/// Events in the order in which their ages first occur.
struct Buckets {
    index: HashMap<i64, usize>,
    events: Vec<Event>,
}

impl Buckets {
    spec fn wf(&self) -> bool {
        &&& forall|d: i64| #[trigger]
            self.index@.contains_key(d) ==> self.index@[d] < self.events@.len()
                && self.events@[self.index@[d] as int].offset == d
        &&& forall|i: int|
            0 <= i < self.events@.len() ==> self.index@.contains_key(
                (#[trigger] self.events@[i]).offset,
            ) && self.index@[self.events@[i].offset] == i
    }

    /// Whether the buckets hold these steps and exits; an age at which nothing
    /// happens yet may have an empty bucket if it is `extra`.
    spec fn holds(
        &self,
        steps: Seq<(i64, (usize, usize))>,
        exits: Seq<(i64, usize)>,
        extra: Option<i64>,
    ) -> bool {
        &&& self.wf()
        &&& forall|i: int|
            0 <= i < self.events@.len() ==> (#[trigger] self.events@[i]).steps@ == at_offset(
                steps,
                self.events@[i].offset,
            ) && self.events@[i].exits@ == at_offset(exits, self.events@[i].offset)
        &&& forall|d: i64| #[trigger]
            self.index@.contains_key(d) <==> occurs(steps, d) || occurs(exits, d) || extra == Some(d)
    }

    /// Finds or makes the bucket of an age.
    fn bucket(
        &mut self,
        offset: i64,
        Ghost(steps): Ghost<Seq<(i64, (usize, usize))>>,
        Ghost(exits): Ghost<Seq<(i64, usize)>>,
    ) -> (i: usize)
        requires
            old(self).holds(steps, exits, None),
        ensures
            final(self).holds(steps, exits, Some(offset)),
            i < final(self).events@.len(),
            final(self).events@[i as int].offset == offset,
    {
        broadcast use vstd::std_specs::hash::group_hash_axioms;

        match self.index.get(&offset) {
            Some(i) => *i,
            None => {
                let i = self.events.len();
                self.index.insert(offset, i);
                self.events.push(Event { offset, steps: Vec::new(), exits: Vec::new() });
                proof {
                    assert(!occurs(steps, offset));
                    assert(!occurs(exits, offset));
                    lemma_at_offset_none(steps, offset);
                    lemma_at_offset_none(exits, offset);
                }
                i
            },
        }
    }

    fn add_step(
        &mut self,
        offset: i64,
        history: usize,
        sample: usize,
        Ghost(steps): Ghost<Seq<(i64, (usize, usize))>>,
        Ghost(exits): Ghost<Seq<(i64, usize)>>,
    )
        requires
            old(self).holds(steps, exits, None),
        ensures
            final(self).holds(steps.push((offset, (history, sample))), exits, None),
    {
        let i = self.bucket(offset, Ghost(steps), Ghost(exits));
        let ghost earlier = self.events@;
        self.events[i].steps.push((history, sample));
        proof {
            lemma_at_offset_push(steps, (offset, (history, sample)));
            assert(self.events@ =~= earlier.update(i as int, self.events@[i as int]));
            assert forall|j: int| 0 <= j < self.events@.len() && j != i implies (
            #[trigger] self.events@[j]).offset != offset by {
                assert(self.index@[earlier[j].offset] == j);
                assert(self.index@[earlier[i as int].offset] == i);
            }
        }
    }

    fn add_exit(
        &mut self,
        offset: i64,
        history: usize,
        Ghost(steps): Ghost<Seq<(i64, (usize, usize))>>,
        Ghost(exits): Ghost<Seq<(i64, usize)>>,
    )
        requires
            old(self).holds(steps, exits, None),
        ensures
            final(self).holds(steps, exits.push((offset, history)), None),
    {
        let i = self.bucket(offset, Ghost(steps), Ghost(exits));
        let ghost earlier = self.events@;
        self.events[i].exits.push(history);
        proof {
            lemma_at_offset_push(exits, (offset, history));
            assert(self.events@ =~= earlier.update(i as int, self.events@[i as int]));
            assert forall|j: int| 0 <= j < self.events@.len() && j != i implies (
            #[trigger] self.events@[j]).offset != offset by {
                assert(self.index@[earlier[j].offset] == j);
                assert(self.index@[earlier[i as int].offset] == i);
            }
        }
    }
}

fn copy_event(e: &Event) -> (out: Event)
    ensures
        out.offset == e.offset,
        out.steps@ == e.steps@,
        out.exits@ == e.exits@,
{
    let mut steps: Vec<(usize, usize)> = Vec::new();
    let mut i: usize = 0;
    while i < e.steps.len()
        invariant
            i <= e.steps@.len(),
            steps@ == e.steps@.take(i as int),
        decreases e.steps@.len() - i,
    {
        steps.push(e.steps[i]);
        i = i + 1;
        assert(e.steps@.take(i as int) =~= e.steps@.take(i - 1).push(e.steps@[i - 1]));
    }
    assert(e.steps@.take(i as int) =~= e.steps@);
    let mut exits: Vec<usize> = Vec::new();
    let mut j: usize = 0;
    while j < e.exits.len()
        invariant
            j <= e.exits@.len(),
            exits@ == e.exits@.take(j as int),
        decreases e.exits@.len() - j,
    {
        exits.push(e.exits[j]);
        j = j + 1;
        assert(e.exits@.take(j as int) =~= e.exits@.take(j - 1).push(e.exits@[j - 1]));
    }
    assert(e.exits@.take(j as int) =~= e.exits@);
    Event { offset: e.offset, steps, exits }
}

/// Sorts the steps and exits of histories by age, given the times of the
/// samples of each history.
pub fn survival_events(times: &Vec<Vec<i64>>) -> (events: Vec<Event>)
    ensures
        is_timeline(events@, sample_times(times@)),
{
    let ghost all = sample_times(times@);
    let mut buckets = Buckets { index: HashMap::new(), events: Vec::new() };
    let mut h: usize = 0;
    proof {
        assert(all.take(0) =~= Seq::<Seq<i64>>::empty());
    }
    while h < times.len()
        invariant
            h <= times@.len(),
            all == sample_times(times@),
            buckets.holds(all_steps(all.take(h as int)), all_exits(all.take(h as int)), None),
        decreases times@.len() - h,
    {
        let t = &times[h];
        let ghost done = all.take(h as int);
        let ghost next = all.take(h + 1);
        let ghost steps = all_steps(done);
        let ghost exits = all_exits(done);
        proof {
            assert(next.drop_last() =~= done);
            assert(next.last() == t@);
        }
        if t.len() > 0 {
            let mut s: usize = 1;
            assert(steps + steps_of(h as int, t@).take(0) =~= steps);
            while s < t.len()
                invariant
                    1 <= s <= t@.len(),
                    buckets.holds(steps + steps_of(h as int, t@).take(s - 1), exits, None),
                decreases t@.len() - s,
            {
                let offset = minus(t[s], t[0]);
                let ghost sofar = steps + steps_of(h as int, t@).take(s - 1);
                buckets.add_step(offset, h, s, Ghost(sofar), Ghost(exits));
                assert(sofar.push((offset, (h, s))) =~= steps + steps_of(h as int, t@).take(
                    s as int,
                ));
                s = s + 1;
            }
            let ghost sofar = steps + steps_of(h as int, t@);
            assert(steps_of(h as int, t@).take(s - 1) =~= steps_of(h as int, t@));
            let offset = minus(t[t.len() - 1], t[0]);
            buckets.add_exit(offset, h, Ghost(sofar), Ghost(exits));
            assert(exits.push((offset, h)) =~= exits + exits_of(h as int, t@));
        } else {
            assert(steps + steps_of(h as int, t@) =~= steps);
            assert(exits + exits_of(h as int, t@) =~= exits);
        }
        h = h + 1;
    }
    assert(all.take(h as int) =~= all);

    let mut offsets: Vec<i64> = Vec::new();
    let mut i: usize = 0;
    while i < buckets.events.len()
        invariant
            i <= buckets.events@.len(),
            offsets@.len() == i,
            forall|j: int| 0 <= j < i ==> (#[trigger] offsets@[j]) == buckets.events@[j].offset,
        decreases buckets.events@.len() - i,
    {
        offsets.push(buckets.events[i].offset);
        i = i + 1;
    }
    let order = stable_order(&offsets);
    let mut events: Vec<Event> = Vec::new();
    let mut k: usize = 0;
    while k < order.len()
        invariant
            k <= order@.len(),
            events@.len() == k,
            offsets@.len() == buckets.events@.len(),
            is_stable_order(offsets@, order@),
            forall|j: int|
                0 <= j < k ==> (#[trigger] events@[j]).offset == buckets.events@[order@[j] as int].offset
                    && events@[j].steps@ == buckets.events@[order@[j] as int].steps@
                    && events@[j].exits@ == buckets.events@[order@[j] as int].exits@,
        decreases order@.len() - k,
    {
        events.push(copy_event(&buckets.events[order[k]]));
        k = k + 1;
    }
    proof {
        let steps = all_steps(all);
        let exits = all_exits(all);
        assert forall|a: int, b: int| 0 <= a < b < events@.len() implies (
        #[trigger] events@[a]).offset < (#[trigger] events@[b]).offset by {
            let x = order@[a] as int;
            let y = order@[b] as int;
            assert(before(offsets@, x, y));
            assert(offsets@[x] == buckets.events@[x].offset);
            assert(offsets@[y] == buckets.events@[y].offset);
            assert(buckets.index@[buckets.events@[x].offset] == x);
            assert(buckets.index@[buckets.events@[y].offset] == y);
        }
        assert forall|d: i64|
            #![trigger occurs(steps, d)]
            #![trigger occurs(exits, d)]
            occurs(steps, d) || occurs(exits, d) implies has_event(events@, d) by {
            assert(buckets.index@.contains_key(d));
            let x = buckets.index@[d];
            assert(order@.contains(x as int as usize));
            let a = choose|a: int| 0 <= a < order@.len() && order@[a] == x;
            assert(events@[a].offset == d);
        }
        assert forall|a: int| 0 <= a < events@.len() implies occurs(
            steps,
            (#[trigger] events@[a]).offset,
        ) || occurs(exits, events@[a].offset) by {
            assert(buckets.index@.contains_key(buckets.events@[order@[a] as int].offset));
        }
    }
    events
}

/// How a step changes the number of lines, given those at each sample.
pub open spec fn step_change(counts: Seq<Seq<int>>) -> spec_fn((usize, usize)) -> int {
    |s: (usize, usize)| counts[s.0 as int][s.1 as int] - counts[s.0 as int][s.1 - 1]
}

/// The lines of a history at its last sample.
pub open spec fn last_lines(counts: Seq<Seq<int>>) -> spec_fn(usize) -> int {
    |h: usize| counts[h as int].last()
}

/// The lines of a history at its first sample.
pub open spec fn first_lines(counts: Seq<Seq<int>>) -> spec_fn(usize) -> int {
    |h: usize| counts[h as int][0]
}

/// How the number of lines that are observed and alive changes at an age.
pub open spec fn alive_change(counts: Seq<Seq<int>>) -> spec_fn(Event) -> int {
    |e: Event| sum(e.steps@, step_change(counts)) - sum(e.exits@, last_lines(counts))
}

/// How the number of lines that are observed at all changes at an age.
pub open spec fn observed_change(counts: Seq<Seq<int>>) -> spec_fn(Event) -> int {
    |e: Event| -sum(e.exits@, first_lines(counts))
}

/// The lines that all histories start with.
pub open spec fn initial_lines(counts: Seq<Seq<int>>) -> int {
    sum(
        counts,
        |c: Seq<int>|
            if c.len() > 0 {
                c[0]
            } else {
                0
            },
    )
}

/// What happens age by age is what happens altogether.
proof fn lemma_sum_by_offset<T>(s: Seq<(i64, T)>, q: Seq<i64>, f: spec_fn(T) -> int)
    requires
        q.no_duplicates(),
        forall|d: i64| #[trigger] occurs(s, d) ==> q.contains(d),
    ensures
        sum(q, |d: i64| sum(at_offset(s, d), f)) == sum(s, |x: (i64, T)| f(x.1)),
    decreases s.len(),
{
    let g = |d: i64| sum(at_offset(s, d), f);
    if s.len() == 0 {
        assert forall|i: int| 0 <= i < q.len() implies #[trigger] g(q[i]) == 0 by {
            assert(!occurs(s, q[i]));
            lemma_at_offset_none(s, q[i]);
        }
        lemma_sum_zero(q, g);
    } else {
        let t = s.drop_last();
        let x = s.last();
        assert(s =~= t.push(x));
        lemma_at_offset_push(t, x);
        assert forall|d: i64| #[trigger] occurs(t, d) implies q.contains(d) by {
            assert(occurs(s, d));
        }
        lemma_sum_by_offset(t, q, f);
        let g0 = |d: i64| sum(at_offset(t, d), f);
        let one = |d: i64|
            if d == x.0 {
                f(x.1)
            } else {
                0
            };
        assert forall|i: int| 0 <= i < q.len() implies #[trigger] g(q[i]) == g0(q[i]) + one(
            q[i],
        ) by {
            if q[i] == x.0 {
                lemma_sum_push(at_offset(t, x.0), x.1, f);
            } else {
                assert(at_offset(t.push(x), q[i]) == at_offset(t, q[i]));
            }
        }
        lemma_sum_plus(q, g0, one, g);
        assert(occurs(s, x.0));
        assert(q.contains(x.0));
        lemma_sum_at_one(q, x.0, f(x.1), one);
    }
}

/// Whether there are as many counts as times.
pub open spec fn same_shape(times: Seq<Seq<i64>>, counts: Seq<Seq<int>>) -> bool {
    &&& counts.len() == times.len()
    &&& forall|h: int| 0 <= h < times.len() ==> (#[trigger] counts[h]).len() == times[h].len()
}

/// Whether histories and samples can be counted by machine integers.
pub open spec fn times_fit(times: Seq<Seq<i64>>) -> bool {
    &&& times.len() <= usize::MAX
    &&& forall|h: int| 0 <= h < times.len() ==> (#[trigger] times[h]).len() <= usize::MAX
}

proof fn lemma_steps_telescope(h: int, t: Seq<i64>, counts: Seq<Seq<int>>, m: int)
    requires
        0 <= h < counts.len(),
        h <= usize::MAX,
        t.len() <= usize::MAX,
        counts[h].len() == t.len(),
        0 <= m < t.len(),
    ensures
        sum(
            steps_of(h, t).take(m),
            |x: (i64, (usize, usize))| step_change(counts)(x.1),
        ) == counts[h][m] - counts[h][0],
    decreases m,
{
    let w = |x: (i64, (usize, usize))| step_change(counts)(x.1);
    let s = steps_of(h, t);
    if m > 0 {
        lemma_steps_telescope(h, t, counts, m - 1);
        assert(s.take(m) =~= s.take(m - 1).push(s[m - 1]));
        lemma_sum_push(s.take(m - 1), s[m - 1], w);
    }
}

/// What all steps and exits of histories do to the number of lines.
proof fn lemma_histories_sum(times: Seq<Seq<i64>>, counts: Seq<Seq<int>>, n: int)
    requires
        same_shape(times, counts),
        times_fit(times),
        0 <= n <= times.len(),
    ensures
        ({
            let steps = sum(
                all_steps(times.take(n)),
                |x: (i64, (usize, usize))| step_change(counts)(x.1),
            );
            let lasts = sum(all_exits(times.take(n)), |x: (i64, usize)| last_lines(counts)(x.1));
            let firsts = sum(all_exits(times.take(n)), |x: (i64, usize)| first_lines(counts)(x.1));
            &&& steps - lasts == -initial_lines(counts.take(n))
            &&& firsts == initial_lines(counts.take(n))
        }),
    decreases n,
{
    let w = |x: (i64, (usize, usize))| step_change(counts)(x.1);
    let l = |x: (i64, usize)| last_lines(counts)(x.1);
    let f = |x: (i64, usize)| first_lines(counts)(x.1);
    let c0 = |c: Seq<int>|
        if c.len() > 0 {
            c[0]
        } else {
            0
        };
    if n > 0 {
        let h = n - 1;
        let t = times[h];
        lemma_histories_sum(times, counts, h);
        assert(times.take(n).drop_last() =~= times.take(h));
        assert(counts.take(n) =~= counts.take(h).push(counts[h]));
        lemma_sum_push(counts.take(h), counts[h], c0);
        lemma_sum_concat(all_steps(times.take(h)), steps_of(h, t), w);
        lemma_sum_concat(all_exits(times.take(h)), exits_of(h, t), l);
        lemma_sum_concat(all_exits(times.take(h)), exits_of(h, t), f);
        assert(counts[h].len() == t.len());
        if t.len() > 0 {
            lemma_steps_telescope(h, t, counts, t.len() - 1);
            assert(steps_of(h, t).take(t.len() - 1) =~= steps_of(h, t));
            let x = (wrap(t.last() - t[0]), h as usize);
            let none = Seq::<(i64, usize)>::empty();
            assert(exits_of(h, t) =~= none.push(x));
            lemma_sum_push(none, x, l);
            lemma_sum_push(none, x, f);
        }
    }
}

/// The ages of a timeline, each once.
proof fn lemma_timeline_offsets(events: Seq<Event>, times: Seq<Seq<i64>>)
    requires
        is_timeline(events, times),
    ensures
        ({
            let q = events.map_values(|e: Event| e.offset);
            &&& q.no_duplicates()
            &&& forall|d: i64| #[trigger] occurs(all_steps(times), d) ==> q.contains(d)
            &&& forall|d: i64| #[trigger] occurs(all_exits(times), d) ==> q.contains(d)
        }),
{
    let q = events.map_values(|e: Event| e.offset);
    assert forall|a: int, b: int| 0 <= a < q.len() && 0 <= b < q.len() && a != b implies q[a]
        != q[b] by {
        assert(events[a].offset == q[a]);
        assert(events[b].offset == q[b]);
    }
    assert forall|d: i64| has_event(events, d) implies #[trigger] q.contains(d) by {
        let i = choose|i: int| 0 <= i < events.len() && (#[trigger] events[i]).offset == d;
        assert(q[i] == d);
    }
}

/// Every line that a history starts with dies or is no longer observed at some
/// age, whatever the counts are: over a whole timeline the changes of the lines
/// that are alive, and of those that are observed, add up to the loss of all.
pub proof fn lemma_all_lines_leave(
    events: Seq<Event>,
    times: Seq<Seq<i64>>,
    counts: Seq<Seq<int>>,
)
    requires
        is_timeline(events, times),
        times_fit(times),
        same_shape(times, counts),
    ensures
        sum(events, alive_change(counts)) == -initial_lines(counts),
        sum(events, observed_change(counts)) == -initial_lines(counts),
{
    let off = |e: Event| e.offset;
    let q = events.map_values(off);
    let steps = all_steps(times);
    let exits = all_exits(times);
    let n = times.len() as int;
    lemma_timeline_offsets(events, times);
    lemma_histories_sum(times, counts, n);
    assert(times.take(n) =~= times);
    assert(counts.take(n) =~= counts);
    lemma_sum_by_offset(steps, q, step_change(counts));
    lemma_sum_by_offset(exits, q, last_lines(counts));
    lemma_sum_by_offset(exits, q, first_lines(counts));

    let gs = |d: i64| sum(at_offset(steps, d), step_change(counts));
    let gl = |d: i64| sum(at_offset(exits, d), last_lines(counts));
    let gf = |d: i64| sum(at_offset(exits, d), first_lines(counts));
    let es = |e: Event| sum(e.steps@, step_change(counts));
    let el = |e: Event| sum(e.exits@, last_lines(counts));
    let ef = |e: Event| sum(e.exits@, first_lines(counts));
    assert forall|i: int| 0 <= i < events.len() implies es(#[trigger] events[i]) == gs(q[i])
        && el(events[i]) == gl(q[i]) && ef(events[i]) == gf(q[i]) by {
        assert(events[i].offset == q[i]);
    }
    lemma_sum_zip(events, q, es, gs);
    lemma_sum_zip(events, q, el, gl);
    lemma_sum_zip(events, q, ef, gf);
    let neg = |e: Event| -el(e);
    lemma_sum_scale(events, el, neg, -1);
    lemma_sum_scale(events, ef, observed_change(counts), -1);
    lemma_sum_plus(events, es, neg, alive_change(counts));
}

proof fn lemma_exits_listed(times: Seq<Seq<i64>>, h: int)
    requires
        times_fit(times),
        0 <= h < times.len(),
    ensures
        sum(
            all_exits(times),
            |x: (i64, usize)|
                if x.1 == h {
                    1
                } else {
                    0
                },
        ) == if times[h].len() > 0 {
            1int
        } else {
            0
        },
    decreases times.len(),
{
    let f = |x: (i64, usize)|
        if x.1 == h {
            1int
        } else {
            0
        };
    let t = times.drop_last();
    let last = times.len() - 1;
    let e = exits_of(last, times.last());
    lemma_sum_concat(all_exits(t), e, f);
    if times.last().len() > 0 {
        let none = Seq::<(i64, usize)>::empty();
        assert(e =~= none.push(e[0]));
        lemma_sum_push(none, e[0], f);
    }
    lemma_times_fit_before(times);
    if h < last {
        lemma_exits_listed(t, h);
    } else {
        assert forall|i: int| 0 <= i < all_exits(t).len() implies #[trigger] f(all_exits(t)[i])
            == 0 by {
            lemma_exit_numbers(t, i);
        }
        lemma_sum_zero(all_exits(t), f);
    }
}

proof fn lemma_exit_numbers(times: Seq<Seq<i64>>, i: int)
    requires
        times_fit(times),
        0 <= i < all_exits(times).len(),
    ensures
        all_exits(times)[i].1 < times.len(),
    decreases times.len(),
{
    let t = times.drop_last();
    lemma_times_fit_before(times);
    if i < all_exits(t).len() {
        lemma_exit_numbers(t, i);
    }
}

/// A history with samples exits once, one without samples never.
pub proof fn lemma_exits_once(events: Seq<Event>, times: Seq<Seq<i64>>, h: int)
    requires
        is_timeline(events, times),
        times_fit(times),
        0 <= h < times.len(),
    ensures
        sum(
            events,
            |e: Event| e.exits@.filter(|x: usize| x == h).len() as int,
        ) == if times[h].len() > 0 {
            1int
        } else {
            0
        },
{
    let item = h as usize;
    let one = |x: usize|
        if x == item {
            1int
        } else {
            0
        };
    let off = |e: Event| e.offset;
    let q = events.map_values(off);
    let exits = all_exits(times);
    lemma_timeline_offsets(events, times);
    lemma_sum_by_offset(exits, q, one);
    lemma_exits_listed(times, h);
    let f = |x: (i64, usize)|
        if x.1 == h {
            1int
        } else {
            0
        };
    lemma_sum_equal(exits, |x: (i64, usize)| one(x.1), f);
    let g = |d: i64| sum(at_offset(exits, d), one);
    let k = |e: Event| e.exits@.filter(|x: usize| x == h).len() as int;
    assert forall|i: int| 0 <= i < events.len() implies k(#[trigger] events[i]) == g(q[i]) by {
        assert(events[i].offset == q[i]);
        lemma_sum_counts(events[i].exits@, item, one, |x: usize| x == h);
    }
    lemma_sum_zip(events, q, k, g);
}

proof fn lemma_sum_counts<T>(s: Seq<T>, item: T, f: spec_fn(T) -> int, p: spec_fn(T) -> bool)
    requires
        forall|x: T| #[trigger] f(x) == if x == item { 1int } else { 0 },
        forall|x: T| #[trigger] p(x) <==> x == item,
    ensures
        sum(s, f) == s.filter(p).len(),
    decreases s.len(),
{
    reveal(Seq::filter);
    if s.len() > 0 {
        lemma_sum_counts(s.drop_last(), item, f, p);
        assert(f(s.last()) == if s.last() == item { 1int } else { 0 });
        assert(p(s.last()) <==> s.last() == item);
    }
}

/// Every listed step is one of the history, at its age.
proof fn lemma_step_ages(times: Seq<Seq<i64>>, i: int)
    requires
        times_fit(times),
        0 <= i < all_steps(times).len(),
    ensures
        ({
            let (d, (h, s)) = all_steps(times)[i];
            &&& h < times.len()
            &&& 1 <= s < times[h as int].len()
            &&& d == wrap(times[h as int][s as int] - times[h as int][0])
        }),
    decreases times.len(),
{
    let t = times.drop_last();
    lemma_times_fit_before(times);
    if i < all_steps(t).len() {
        lemma_step_ages(t, i);
        let h = all_steps(t)[i].1.0;
        assert(t[h as int] == times[h as int]);
    }
}

/// Every listed exit is that of a history, at its age.
proof fn lemma_exit_ages(times: Seq<Seq<i64>>, i: int)
    requires
        times_fit(times),
        0 <= i < all_exits(times).len(),
    ensures
        ({
            let (d, h) = all_exits(times)[i];
            &&& h < times.len()
            &&& 0 < times[h as int].len()
            &&& d == wrap(times[h as int].last() - times[h as int][0])
        }),
    decreases times.len(),
{
    let t = times.drop_last();
    lemma_times_fit_before(times);
    if i < all_exits(t).len() {
        lemma_exit_ages(t, i);
        let h = all_exits(t)[i].1;
        assert(t[h as int] == times[h as int]);
    }
}

proof fn lemma_times_fit_before(times: Seq<Seq<i64>>)
    requires
        times_fit(times),
        times.len() > 0,
    ensures
        times_fit(times.drop_last()),
{
    let t = times.drop_last();
    assert forall|k: int| 0 <= k < t.len() implies (#[trigger] t[k]).len() <= usize::MAX by {
        assert(times[k].len() <= usize::MAX);
    }
}

proof fn lemma_at_offset_listed<T>(s: Seq<(i64, T)>, offset: i64, i: int) -> (k: int)
    requires
        0 <= i < at_offset(s, offset).len(),
    ensures
        0 <= k < s.len(),
        s[k] == (offset, at_offset(s, offset)[i]),
    decreases s.len(),
{
    if s.len() == 0 {
        assert(!occurs(s, offset));
        lemma_at_offset_none(s, offset);
        0
    } else {
        let t = s.drop_last();
        let x = s.last();
        assert(s =~= t.push(x));
        lemma_at_offset_push(t, x);
        if x.0 == offset && i == at_offset(t, offset).len() {
            s.len() - 1
        } else {
            if x.0 != offset {
                assert(at_offset(t.push(x), offset) == at_offset(t, offset));
            }
            lemma_at_offset_listed(t, offset, i)
        }
    }
}

/// A step of a history happens as long after its first sample as the sample of
/// the step was taken after it, and its exit as long as the last sample. Where
/// the difference of the times does not fit into 64 bits, the age differs from it
/// by a multiple of 2 to the 64th.
pub proof fn lemma_ages(events: Seq<Event>, times: Seq<Seq<i64>>)
    requires
        is_timeline(events, times),
        times_fit(times),
    ensures
        forall|e: int, i: int|
            0 <= e < events.len() && 0 <= i < events[e].steps@.len() ==> {
                let (h, s) = #[trigger] events[e].steps@[i];
                let first = times[h as int][0];
                let now = times[h as int][s as int];
                &&& h < times.len()
                &&& 1 <= s < times[h as int].len()
                &&& i64::MIN <= now - first <= i64::MAX ==> first + events[e].offset == now
                &&& (first + events[e].offset - now) % 0x1_0000_0000_0000_0000 == 0
            },
        forall|e: int, i: int|
            0 <= e < events.len() && 0 <= i < events[e].exits@.len() ==> {
                let h = #[trigger] events[e].exits@[i];
                let first = times[h as int][0];
                let last = times[h as int].last();
                &&& h < times.len()
                &&& 0 < times[h as int].len()
                &&& i64::MIN <= last - first <= i64::MAX ==> first + events[e].offset == last
                &&& (first + events[e].offset - last) % 0x1_0000_0000_0000_0000 == 0
            },
{
    assert forall|e: int, i: int| 0 <= e < events.len() && 0 <= i < events[e].steps@.len() implies {
        let (h, s) = #[trigger] events[e].steps@[i];
        let first = times[h as int][0];
        let now = times[h as int][s as int];
        &&& h < times.len()
        &&& 1 <= s < times[h as int].len()
        &&& i64::MIN <= now - first <= i64::MAX ==> first + events[e].offset == now
        &&& (first + events[e].offset - now) % 0x1_0000_0000_0000_0000 == 0
    } by {
        let d = events[e].offset;
        assert(events[e].steps@ == at_offset(all_steps(times), d));
        let k = lemma_at_offset_listed(all_steps(times), d, i);
        lemma_step_ages(times, k);
        let (h, s) = events[e].steps@[i];
        let x = times[h as int][s as int] - times[h as int][0];
        lemma_wrap_congruent(x);
    }
    assert forall|e: int, i: int| 0 <= e < events.len() && 0 <= i < events[e].exits@.len() implies {
        let h = #[trigger] events[e].exits@[i];
        let first = times[h as int][0];
        let last = times[h as int].last();
        &&& h < times.len()
        &&& 0 < times[h as int].len()
        &&& i64::MIN <= last - first <= i64::MAX ==> first + events[e].offset == last
        &&& (first + events[e].offset - last) % 0x1_0000_0000_0000_0000 == 0
    } by {
        let d = events[e].offset;
        assert(events[e].exits@ == at_offset(all_exits(times), d));
        let k = lemma_at_offset_listed(all_exits(times), d, i);
        lemma_exit_ages(times, k);
        let h = events[e].exits@[i];
        let x = times[h as int].last() - times[h as int][0];
        lemma_wrap_congruent(x);
    }
}

/// Ages ascend, and at each of them something happens.
pub proof fn lemma_ages_ascend(events: Seq<Event>, times: Seq<Seq<i64>>)
    requires
        is_timeline(events, times),
    ensures
        forall|i: int, j: int|
            0 <= i < j < events.len() ==> (#[trigger] events[i]).offset < (
            #[trigger] events[j]).offset,
        forall|i: int|
            0 <= i < events.len() ==> (#[trigger] events[i]).steps@.len() > 0
                || events[i].exits@.len() > 0,
{
    assert forall|i: int| 0 <= i < events.len() implies (#[trigger] events[i]).steps@.len() > 0
        || events[i].exits@.len() > 0 by {
        let d = events[i].offset;
        if occurs(all_steps(times), d) {
            lemma_occurs_at_offset(all_steps(times), d);
        } else {
            lemma_occurs_at_offset(all_exits(times), d);
        }
    }
}

proof fn lemma_occurs_at_offset<T>(s: Seq<(i64, T)>, d: i64)
    requires
        occurs(s, d),
    ensures
        at_offset(s, d).len() > 0,
    decreases s.len(),
{
    let t = s.drop_last();
    let x = s.last();
    assert(s =~= t.push(x));
    lemma_at_offset_push(t, x);
    if x.0 != d {
        assert(occurs(t.push(x), d));
        lemma_occurs_at_offset(t, d);
        assert(at_offset(t.push(x), d) == at_offset(t, d));
    }
}

proof fn lemma_steps_listed(times: Seq<Seq<i64>>, h: int, s: int)
    requires
        times_fit(times),
        0 <= h < times.len(),
        1 <= s < times[h].len(),
    ensures
        sum(
            all_steps(times),
            |x: (i64, (usize, usize))|
                if x.1 == (h as usize, s as usize) {
                    1int
                } else {
                    0
                },
        ) == 1,
    decreases times.len(),
{
    let f = |x: (i64, (usize, usize))|
        if x.1 == (h as usize, s as usize) {
            1int
        } else {
            0
        };
    let t = times.drop_last();
    let last = times.len() - 1;
    let own = steps_of(last, times.last());
    lemma_sum_concat(all_steps(t), own, f);
    lemma_times_fit_before(times);
    if h < last {
        assert(t[h] == times[h]);
        lemma_steps_listed(t, h, s);
        lemma_sum_zero(own, f);
    } else {
        assert forall|i: int| 0 <= i < all_steps(t).len() implies #[trigger] f(all_steps(t)[i])
            == 0 by {
            lemma_step_ages(t, i);
        }
        lemma_sum_zero(all_steps(t), f);
        lemma_own_step(last, times.last(), s, own.len() as int);
        assert(own.take(own.len() as int) =~= own);
    }
}

proof fn lemma_own_step(h: int, t: Seq<i64>, s: int, m: int)
    requires
        0 <= h <= usize::MAX,
        t.len() <= usize::MAX,
        1 <= s < t.len(),
        0 <= m < t.len(),
    ensures
        sum(
            steps_of(h, t).take(m),
            |x: (i64, (usize, usize))|
                if x.1 == (h as usize, s as usize) {
                    1int
                } else {
                    0
                },
        ) == if s <= m {
            1int
        } else {
            0
        },
    decreases m,
{
    let f = |x: (i64, (usize, usize))|
        if x.1 == (h as usize, s as usize) {
            1int
        } else {
            0
        };
    let own = steps_of(h, t);
    if m > 0 {
        lemma_own_step(h, t, s, m - 1);
        assert(own.take(m) =~= own.take(m - 1).push(own[m - 1]));
        lemma_sum_push(own.take(m - 1), own[m - 1], f);
    }
}

/// Each sample of a history but the first is a step of one event, once.
pub proof fn lemma_steps_once(events: Seq<Event>, times: Seq<Seq<i64>>, h: int, s: int)
    requires
        is_timeline(events, times),
        times_fit(times),
        0 <= h < times.len(),
        1 <= s < times[h].len(),
    ensures
        sum(
            events,
            |e: Event|
                e.steps@.filter(|x: (usize, usize)| x == (h as usize, s as usize)).len() as int,
        ) == 1,
{
    let item = (h as usize, s as usize);
    let one = |x: (usize, usize)|
        if x == item {
            1int
        } else {
            0
        };
    let off = |e: Event| e.offset;
    let q = events.map_values(off);
    let steps = all_steps(times);
    lemma_timeline_offsets(events, times);
    lemma_sum_by_offset(steps, q, one);
    lemma_steps_listed(times, h, s);
    let f = |x: (i64, (usize, usize))|
        if x.1 == item {
            1int
        } else {
            0
        };
    lemma_sum_equal(steps, |x: (i64, (usize, usize))| one(x.1), f);
    let g = |d: i64| sum(at_offset(steps, d), one);
    let k = |e: Event| e.steps@.filter(|x: (usize, usize)| x == item).len() as int;
    assert forall|i: int| 0 <= i < events.len() implies k(#[trigger] events[i]) == g(q[i]) by {
        assert(events[i].offset == q[i]);
        lemma_sum_counts(events[i].steps@, item, one, |x: (usize, usize)| x == item);
    }
    lemma_sum_zip(events, q, k, g);
}

/// Histories keep their samples.
pub proof fn lemma_sample_times(v: Seq<Vec<i64>>, h: int)
    ensures
        sample_times(v).len() == v.len(),
        0 <= h < v.len() ==> sample_times(v)[h] == v[h]@,
{
}

} // verus!
