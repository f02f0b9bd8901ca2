//! Which series of a data set are plotted.

use vstd::prelude::*;

use crate::order::{
    before, is_stable_order, is_stable_sort, lemma_stable_order_exists, lemma_stable_order_unique,
    lemma_stable_sort, stable_order, text_le, Descending,
};
use crate::text::chars_of;

verus! {

/// Numbers as keys that sort from the largest to the smallest.
pub open spec fn descending(peaks: Seq<u64>) -> Seq<Descending> {
    Seq::new(peaks.len(), |i: int| Descending(peaks[i]))
}

/// The positions of the series from the highest to the lowest peak, those of
/// the same height in their order.
pub open spec fn ranking(peaks: Seq<u64>) -> Seq<usize> {
    choose|r: Seq<usize>| is_stable_order(descending(peaks), r)
}

/// Ranks series by their peaks.
pub fn rank_series(peaks: &Vec<u64>) -> (r: Vec<usize>)
    ensures
        r@ == ranking(peaks@),
        is_stable_order(descending(peaks@), r@),
{
    let mut keys: Vec<Descending> = Vec::new();
    let mut i: usize = 0;
    while i < peaks.len()
        invariant
            i <= peaks@.len(),
            keys@ == descending(peaks@).take(i as int),
        decreases peaks@.len() - i,
    {
        keys.push(Descending(peaks[i]));
        i = i + 1;
        assert(descending(peaks@).take(i as int) =~= descending(peaks@).take(i - 1).push(
            Descending(peaks@[i - 1]),
        ));
    }
    assert(descending(peaks@).take(i as int) =~= descending(peaks@));
    let r = stable_order(&keys);
    proof {
        lemma_stable_order_unique(descending(peaks@), r@, ranking(peaks@));
    }
    r
}

/// Where the axis of the samples of a plot ends; nothing if the data set has no
/// series or no samples. The axis starts at zero and has at least two positions.
pub fn x_axis_end(series: usize, samples: usize) -> (end: Option<i32>)
    ensures
        match end {
            Some(e) => series > 0 && samples > 0 && e == (if samples as i32 >= 2 {
                samples as i32 - 1
            } else {
                1
            }),
            None => series == 0 || samples == 0,
        },
        samples <= i32::MAX ==> match end {
            Some(e) => axis_end(series as int, samples as int) == Some(e as int),
            None => axis_end(series as int, samples as int) is None,
        },
{
    if series == 0 || samples == 0 {
        return None;
    }
    let n: i32 = samples as i32;
    Some(if n >= 2 { n - 1 } else { 1 })
}

/// Whether the label of one selected series may stand before that of another.
pub open spec fn label_le(labels: Seq<String>, chosen: Seq<usize>) -> spec_fn(int, int) -> bool {
    |a: int, b: int| text_le(labels[chosen[a] as int]@, labels[chosen[b] as int]@)
}

/// Whether `out` is `chosen` sorted by label, series of the same label in the
/// order of `chosen`.
pub open spec fn sorted_by_label(labels: Seq<String>, chosen: Seq<usize>, out: Seq<usize>) -> bool {
    exists|order: Seq<usize>|
        #![trigger is_stable_sort(chosen.len() as int, label_le(labels, chosen), order)]
        is_stable_sort(chosen.len() as int, label_le(labels, chosen), order) && out == Seq::new(
            chosen.len(),
            |i: int| chosen[order[i] as int],
        )
}

/// Sorts the series at the positions `chosen[..n]` by label.
fn order_by_label(chosen: &Vec<usize>, n: usize, labels: &Vec<String>) -> (out: Vec<usize>)
    requires
        n <= chosen@.len(),
        forall|i: int| 0 <= i < n ==> (#[trigger] chosen@[i]) < labels@.len(),
    ensures
        sorted_by_label(labels@, chosen@.take(n as int), out@),
{
    let ghost top = chosen@.take(n as int);
    let mut keys: Vec<Vec<char>> = Vec::new();
    let mut i: usize = 0;
    while i < n
        invariant
            i <= n <= chosen@.len(),
            top == chosen@.take(n as int),
            forall|j: int| 0 <= j < n ==> (#[trigger] chosen@[j]) < labels@.len(),
            keys@.len() == i,
            forall|j: int| 0 <= j < i ==> (#[trigger] keys@[j])@ == labels@[top[j] as int]@,
        decreases n - i,
    {
        assert(top[i as int] == chosen@[i as int]);
        keys.push(chars_of(labels[chosen[i]].as_str()));
        i = i + 1;
    }
    let order = stable_order(&keys);
    proof {
        let le = label_le(labels@, top);
        assert forall|a: int, b: int| 0 <= a < keys@.len() && 0 <= b < keys@.len() implies
            #[trigger] le(a, b) == crate::order::SortKey::le(&keys@[a], &keys@[b]) by {
            assert(keys@[a]@ == labels@[top[a] as int]@);
            assert(keys@[b]@ == labels@[top[b] as int]@);
        }
        lemma_stable_sort(keys@, order@, le);
    }
    let mut out: Vec<usize> = Vec::new();
    let mut k: usize = 0;
    while k < order.len()
        invariant
            k <= order@.len(),
            n <= chosen@.len(),
            order@.len() == n,
            top == chosen@.take(n as int),
            forall|j: int| 0 <= j < n ==> (#[trigger] order@[j]) < n,
            out@.len() == k,
            forall|j: int| 0 <= j < k ==> (#[trigger] out@[j]) == top[order@[j] as int],
        decreases order@.len() - k,
    {
        out.push(chosen[order[k]]);
        k = k + 1;
    }
    assert(out@ =~= Seq::new(top.len(), |j: int| top[order@[j] as int]));
    assert(is_stable_sort(top.len() as int, label_le(labels@, top), order@));
    out
}

/// The positions `0..n`.
pub open spec fn positions(n: nat) -> Seq<usize> {
    Seq::new(n, |i: int| i as usize)
}

fn all_positions(n: usize) -> (v: Vec<usize>)
    ensures
        v@ == positions(n as nat),
{
    let mut v: Vec<usize> = Vec::new();
    let mut i: usize = 0;
    while i < n
        invariant
            i <= n,
            v@ == positions(i as nat),
        decreases n - i,
    {
        v.push(i);
        i = i + 1;
        assert(v@ =~= positions(i as nat));
    }
    v
}

/// Whether each of the highest `max_n` series has a label, if there are more
/// than `max_n`.
pub open spec fn top_is_labelled(peaks: Seq<u64>, labels: int, max_n: usize) -> bool {
    peaks.len() > max_n ==> forall|i: int|
        0 <= i < max_n ==> (#[trigger] ranking(peaks)[i]) < labels
}

/// Selects the `max_n` series with the highest peaks and sorts them by label;
/// all series, as they are, if there are no more than `max_n`.
pub fn top_n(peaks: &Vec<u64>, labels: &Vec<String>, max_n: usize) -> (selected: Vec<usize>)
    requires
        top_is_labelled(peaks@, labels@.len() as int, max_n),
    ensures
        if peaks@.len() <= max_n {
            selected@ == positions(peaks@.len())
        } else {
            sorted_by_label(labels@, ranking(peaks@).take(max_n as int), selected@)
        },
        is_selection(peaks@, labels@, max_n, selected@),
{
    if peaks.len() <= max_n {
        return all_positions(peaks.len());
    }
    let ranks = rank_series(peaks);
    order_by_label(&ranks, max_n, labels)
}

/// Selects series as [`top_n`] does, and lists the others from the highest to
/// the lowest peak.
pub fn top_n_with_other(peaks: &Vec<u64>, labels: &Vec<String>, max_n: usize) -> (r: (
    Vec<usize>,
    Vec<usize>,
))
    requires
        top_is_labelled(peaks@, labels@.len() as int, max_n),
    ensures
        if peaks@.len() <= max_n {
            r.0@ == positions(peaks@.len()) && r.1@.len() == 0
        } else {
            sorted_by_label(labels@, ranking(peaks@).take(max_n as int), r.0@) && r.1@ == ranking(
                peaks@,
            ).skip(max_n as int)
        },
        is_selection(peaks@, labels@, max_n, r.0@),
{
    if peaks.len() <= max_n {
        return (all_positions(peaks.len()), Vec::new());
    }
    let ranks = rank_series(peaks);
    let selected = order_by_label(&ranks, max_n, labels);
    let mut rest: Vec<usize> = Vec::new();
    let mut i: usize = max_n;
    while i < ranks.len()
        invariant
            max_n <= i <= ranks@.len(),
            rest@ == ranks@.subrange(max_n as int, i as int),
        decreases ranks@.len() - i,
    {
        rest.push(ranks[i]);
        i = i + 1;
        assert(ranks@.subrange(max_n as int, i as int) =~= ranks@.subrange(
            max_n as int,
            i - 1,
        ).push(ranks@[i - 1]));
    }
    assert(ranks@.subrange(max_n as int, i as int) =~= ranks@.skip(max_n as int));
    (selected, rest)
}

/// The ranking lists each series once, from the highest to the lowest peak.
pub proof fn lemma_ranking(peaks: Seq<u64>)
    requires
        peaks.len() <= usize::MAX,
    ensures
        is_stable_order(descending(peaks), ranking(peaks)),
        ranking(peaks).no_duplicates(),
        forall|i: int, j: int|
            0 <= i < j < peaks.len() ==> peaks[#[trigger] ranking(peaks)[i] as int]
                >= peaks[#[trigger] ranking(peaks)[j] as int],
{
    let found = lemma_stable_order_exists(descending(peaks));
    assert(is_stable_order(descending(peaks), found));
    let r = ranking(peaks);
    assert forall|i: int, j: int| 0 <= i < j < peaks.len() implies peaks[#[trigger] r[i] as int]
        >= peaks[#[trigger] r[j] as int] && r[i] != r[j] by {
        assert(before(descending(peaks), r[i] as int, r[j] as int));
    }
}

/// Of a selection, no series that is left out has a higher peak than one that
/// is selected; each series is selected or left out, none is both, and the
/// selected ones stand in the order of their labels.
pub proof fn lemma_selection(
    peaks: Seq<u64>,
    labels: Seq<String>,
    max_n: usize,
    selected: Seq<usize>,
    rest: Seq<usize>,
)
    requires
        max_n < peaks.len() <= usize::MAX,
        sorted_by_label(labels, ranking(peaks).take(max_n as int), selected),
        rest == ranking(peaks).skip(max_n as int),
    ensures
        selected.len() == max_n,
        rest.len() == peaks.len() - max_n,
        forall|i: int, j: int|
            0 <= i < selected.len() && 0 <= j < rest.len() ==> peaks[#[trigger] selected[i] as int]
                >= peaks[#[trigger] rest[j] as int],
        forall|p: int|
            0 <= p < peaks.len() ==> (#[trigger] selected.contains(p as usize)) != rest.contains(
                p as usize,
            ),
        forall|i: int, j: int|
            0 <= i < j < selected.len() ==> text_le(
                labels[#[trigger] selected[i] as int]@,
                labels[#[trigger] selected[j] as int]@,
            ),
{
    lemma_ranking(peaks);
    let r = ranking(peaks);
    let chosen = r.take(max_n as int);
    let le = label_le(labels, chosen);
    let order = choose|order: Seq<usize>|
        #![trigger is_stable_sort(chosen.len() as int, label_le(labels, chosen), order)]
        is_stable_sort(chosen.len() as int, label_le(labels, chosen), order) && selected
            == Seq::new(chosen.len(), |i: int| chosen[order[i] as int]);
    assert forall|i: int, j: int|
        0 <= i < selected.len() && 0 <= j < rest.len() implies peaks[#[trigger] selected[i] as int]
        >= peaks[#[trigger] rest[j] as int] by {
        assert(selected[i] == r[order[i] as int]);
        assert(rest[j] == r[max_n + j]);
    }
    assert forall|p: int| 0 <= p < peaks.len() implies (#[trigger] selected.contains(p as usize))
        != rest.contains(p as usize) by {
        assert(r.contains(p as usize));
        let i = choose|i: int| 0 <= i < r.len() && r[i] == p as usize;
        if i < max_n {
            assert(order.contains(i as usize));
            let a = choose|a: int| 0 <= a < order.len() && order[a] == i as usize;
            assert(selected[a] == p as usize);
            if rest.contains(p as usize) {
                let b = choose|b: int| 0 <= b < rest.len() && rest[b] == p as usize;
                assert(r[max_n + b] == r[i]);
            }
        } else {
            assert(rest[i - max_n] == p as usize);
            if selected.contains(p as usize) {
                let a = choose|a: int| 0 <= a < selected.len() && selected[a] == p as usize;
                assert(r[order[a] as int] == r[i]);
            }
        }
    }
    assert forall|i: int, j: int| 0 <= i < j < selected.len() implies text_le(
        labels[#[trigger] selected[i] as int]@,
        labels[#[trigger] selected[j] as int]@,
    ) by {
        assert(le(order[i] as int, order[j] as int));
    }
}

/// Series of the same height are ranked in their order.
pub proof fn lemma_ranking_ties(peaks: Seq<u64>)
    requires
        peaks.len() <= usize::MAX,
    ensures
        ranking(peaks).len() == peaks.len(),
        forall|i: int| 0 <= i < peaks.len() ==> (#[trigger] ranking(peaks)[i]) < peaks.len(),
        forall|p: int| 0 <= p < peaks.len() ==> #[trigger] ranking(peaks).contains(p as usize),
        forall|i: int, j: int|
            0 <= i < j < peaks.len() && peaks[ranking(peaks)[i] as int] == peaks[ranking(
                peaks,
            )[j] as int] ==> #[trigger] ranking(peaks)[i] < #[trigger] ranking(peaks)[j],
{
    lemma_ranking(peaks);
    let r = ranking(peaks);
    assert forall|i: int, j: int|
        0 <= i < j < peaks.len() && peaks[r[i] as int] == peaks[r[j] as int] implies
        #[trigger] r[i] < #[trigger] r[j] by {
        assert(before(descending(peaks), r[i] as int, r[j] as int));
    }
}

/// Selected series of the same label stand from the highest to the lowest peak,
/// and in their order if those tie too.
pub proof fn lemma_selection_ties(
    peaks: Seq<u64>,
    labels: Seq<String>,
    max_n: usize,
    selected: Seq<usize>,
)
    requires
        max_n < peaks.len() <= usize::MAX,
        sorted_by_label(labels, ranking(peaks).take(max_n as int), selected),
    ensures
        selected.no_duplicates(),
        forall|i: int| 0 <= i < selected.len() ==> (#[trigger] selected[i]) < peaks.len(),
        forall|i: int, j: int|
            0 <= i < j < selected.len() && labels[selected[i] as int]@
                == labels[selected[j] as int]@ ==> peaks[#[trigger] selected[i] as int]
                > peaks[#[trigger] selected[j] as int] || (peaks[selected[i] as int]
                == peaks[selected[j] as int] && selected[i] < selected[j]),
{
    lemma_ranking(peaks);
    lemma_ranking_ties(peaks);
    let r = ranking(peaks);
    let chosen = r.take(max_n as int);
    let le = label_le(labels, chosen);
    let order = choose|order: Seq<usize>|
        #![trigger is_stable_sort(chosen.len() as int, label_le(labels, chosen), order)]
        is_stable_sort(chosen.len() as int, label_le(labels, chosen), order) && selected
            == Seq::new(chosen.len(), |i: int| chosen[order[i] as int]);
    assert forall|i: int| 0 <= i < selected.len() implies #[trigger] selected[i]
        == r[order[i] as int] && selected[i] < peaks.len() by {
        assert(order[i] < max_n);
    }
    assert forall|i: int, j: int| 0 <= i < j < selected.len() implies selected[i]
        != selected[j] by {
        assert(le(order[i] as int, order[j] as int));
        assert(order[i] != order[j]);
        assert(selected[i] == r[order[i] as int] && selected[j] == r[order[j] as int]);
    }
    assert forall|i: int, j: int|
        0 <= i < j < selected.len() && labels[selected[i] as int]@
            == labels[selected[j] as int]@ implies peaks[#[trigger] selected[i] as int]
        > peaks[#[trigger] selected[j] as int] || (peaks[selected[i] as int]
        == peaks[selected[j] as int] && selected[i] < selected[j]) by {
        assert(le(order[i] as int, order[j] as int));
        assert(le(order[j] as int, order[i] as int));
        assert(order[i] < order[j]);
        assert(selected[i] == r[order[i] as int] && selected[j] == r[order[j] as int]);
    }
}

/// Whether `selected` are the series to plot of those with the given peaks.
pub open spec fn is_selection(
    peaks: Seq<u64>,
    labels: Seq<String>,
    max_n: usize,
    selected: Seq<usize>,
) -> bool {
    if peaks.len() <= max_n {
        selected == positions(peaks.len())
    } else {
        sorted_by_label(labels, ranking(peaks).take(max_n as int), selected)
    }
}

/// As many series are selected as there are, but no more than `max_n`. If that is
/// all of them, they keep their order; else no other series has a higher peak.
pub proof fn lemma_selected(
    peaks: Seq<u64>,
    labels: Seq<String>,
    max_n: usize,
    selected: Seq<usize>,
)
    requires
        peaks.len() <= usize::MAX,
        is_selection(peaks, labels, max_n, selected),
    ensures
        selected.len() == if peaks.len() <= max_n {
            peaks.len()
        } else {
            max_n as nat
        },
        peaks.len() <= max_n ==> forall|i: int|
            0 <= i < selected.len() ==> #[trigger] selected[i] == i,
        forall|i: int, p: int|
            0 <= i < selected.len() && 0 <= p < peaks.len() && !selected.contains(p as usize)
                ==> peaks[#[trigger] selected[i] as int] >= #[trigger] peaks[p],
{
    if peaks.len() > max_n {
        let rest = ranking(peaks).skip(max_n as int);
        lemma_selection(peaks, labels, max_n, selected, rest);
        assert forall|i: int, p: int|
            0 <= i < selected.len() && 0 <= p < peaks.len() && !selected.contains(
                p as usize,
            ) implies peaks[#[trigger] selected[i] as int] >= #[trigger] peaks[p] by {
            assert(rest.contains(p as usize));
            let j = choose|j: int| 0 <= j < rest.len() && rest[j] == p as usize;
            assert(peaks[selected[i] as int] >= peaks[rest[j] as int]);
        }
    } else {
        assert forall|p: int| 0 <= p < peaks.len() implies #[trigger] selected.contains(
            p as usize,
        ) by {
            assert(selected[p] == p as usize);
        }
    }
}

/// Where the axis of a plot ends.
pub open spec fn axis_end(series: int, samples: int) -> Option<int> {
    if series == 0 || samples == 0 {
        None
    } else if samples >= 2 {
        Some(samples - 1)
    } else {
        Some(1)
    }
}

/// An axis has a position for each sample, and no more than that unless there is
/// only one sample. There is none if there is nothing to plot.
pub proof fn lemma_axis(series: nat, samples: nat)
    ensures
        axis_end(series as int, samples as int) is None <==> series == 0 || samples == 0,
        axis_end(series as int, samples as int) matches Some(e) ==> e >= 1 && e + 1 >= samples && (
        samples > 1 ==> e + 1 == samples) && (samples == 1 ==> e == 1),
{
}

} // verus!
