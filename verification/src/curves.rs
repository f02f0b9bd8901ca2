//! The curves of a category, ready to be written out.

use vstd::prelude::*;

use crate::analysis::{curve_map, key_set};
use crate::order::{before, is_stable_order, lemma_text_le_antisymmetric, stable_order, text_le};
use crate::state::curve_or_zeros;
use crate::table::Table;
use crate::tally::{Category, Key, KeyMap};
use crate::text::{chars_of, texts};

verus! {

/// The curves of a category: for each label a row of counts, one for each time.
#[derive(Debug)]
pub struct CurvesOut {
    pub y: Vec<Vec<i64>>,
    pub ts: Vec<String>,
    pub labels: Vec<String>,
}

/// Whether texts are sorted, without repetitions.
pub open spec fn ascending(s: Seq<Seq<char>>) -> bool {
    forall|i: int, j: int|
        0 <= i < j < s.len() ==> text_le(#[trigger] s[i], #[trigger] s[j]) && s[i] != s[j]
}

/// Whether `out` holds the curves of the keys of a category, sorted by label.
pub open spec fn is_dump(
    out: CurvesOut,
    category: Category,
    keys: Set<Key>,
    curves: Map<Key, Seq<i64>>,
    ts: Seq<Seq<char>>,
) -> bool {
    &&& texts(out.ts@) == ts
    &&& ascending(texts(out.labels@))
    &&& forall|label: Seq<char>|
        texts(out.labels@).contains(label) <==> #[trigger] keys.contains((category, label))
    &&& out.y@.len() == out.labels@.len()
    &&& forall|i: int|
        0 <= i < out.y@.len() ==> (#[trigger] out.y@[i])@ == curve_or_zeros(
            curves,
            (category, out.labels@[i]@),
            ts.len(),
        )
}

/// The categories whose curves are written out, each with the name of its file.
pub fn curve_files() -> (files: Vec<(Category, &'static str)>)
    ensures
        files@.map_values(|f: (Category, &'static str)| (f.0, f.1@)) == seq![
            (Category::Cohort, "cohorts.json"@),
            (Category::Ext, "exts.json"@),
            (Category::Author, "authors.json"@),
            (Category::Dir, "dirs.json"@),
            (Category::Domain, "domains.json"@),
        ],
{
    let files: Vec<(Category, &'static str)> = vec![
        (Category::Cohort, "cohorts.json"),
        (Category::Ext, "exts.json"),
        (Category::Author, "authors.json"),
        (Category::Dir, "dirs.json"),
        (Category::Domain, "domains.json"),
    ];
    assert(files@.map_values(|f: (Category, &'static str)| (f.0, f.1@)) =~= seq![
        (Category::Cohort, "cohorts.json"@),
        (Category::Ext, "exts.json"@),
        (Category::Author, "authors.json"@),
        (Category::Dir, "dirs.json"@),
        (Category::Domain, "domains.json"@),
    ]);
    files
}

/// A curve that is zero at each of `n` times.
pub fn zeros(n: usize) -> (v: Vec<i64>)
    ensures
        v@ == Seq::new(n as nat, |i: int| 0i64),
{
    let mut v: Vec<i64> = Vec::new();
    let mut i: usize = 0;
    while i < n
        invariant
            i <= n,
            v@ == Seq::new(i as nat, |j: int| 0i64),
        decreases n - i,
    {
        v.push(0);
        i = i + 1;
        assert(v@ =~= Seq::new(i as nat, |j: int| 0i64));
    }
    v
}

fn copy_numbers(from: &Vec<i64>) -> (v: Vec<i64>)
    ensures
        v@ == from@,
{
    let mut v: Vec<i64> = Vec::new();
    let mut i: usize = 0;
    while i < from.len()
        invariant
            i <= from@.len(),
            v@ == from@.take(i as int),
        decreases from@.len() - i,
    {
        v.push(from[i]);
        i = i + 1;
        assert(from@.take(i as int) =~= from@.take(i - 1).push(from@[i - 1]));
    }
    assert(from@.take(i as int) =~= from@);
    v
}

fn copy_texts(from: &Vec<String>) -> (v: Vec<String>)
    ensures
        texts(v@) == texts(from@),
{
    let mut v: Vec<String> = Vec::new();
    let mut i: usize = 0;
    while i < from.len()
        invariant
            i <= from@.len(),
            v@ == from@.take(i as int),
        decreases from@.len() - i,
    {
        v.push(from[i].clone());
        i = i + 1;
        assert(from@.take(i as int) =~= from@.take(i - 1).push(from@[i - 1]));
    }
    assert(from@.take(i as int) =~= from@);
    v
}

/// The names of a table, sorted.
fn sorted_names(table: &Table<()>) -> (labels: Vec<String>)
    requires
        table.wf(),
    ensures
        ascending(texts(labels@)),
        forall|l: Seq<char>| texts(labels@).contains(l) <==> #[trigger] table@.contains_key(l),
{
    let ghost names = table.keys();
    let mut keys: Vec<Vec<char>> = Vec::new();
    let mut i: usize = 0;
    while i < table.len()
        invariant
            table.wf(),
            names == table.keys(),
            i <= names.len(),
            keys@.len() == i,
            forall|j: int| 0 <= j < i ==> (#[trigger] keys@[j])@ == names[j],
        decreases names.len() - i,
    {
        keys.push(chars_of(table.name(i).as_str()));
        i = i + 1;
    }
    let order = stable_order(&keys);
    let mut labels: Vec<String> = Vec::new();
    let mut k: usize = 0;
    while k < order.len()
        invariant
            table.wf(),
            names == table.keys(),
            k <= order@.len(),
            labels@.len() == k,
            keys@.len() == names.len(),
            is_stable_order(keys@, order@),
            forall|j: int| 0 <= j < k ==> (#[trigger] labels@[j])@ == names[order@[j] as int],
        decreases order@.len() - k,
    {
        labels.push(table.name(order[k]).clone());
        k = k + 1;
    }
    proof {
        let sorted = texts(labels@);
        table.lemma_keys();
        assert forall|a: int, b: int| 0 <= a < b < sorted.len() implies text_le(
            #[trigger] sorted[a],
            #[trigger] sorted[b],
        ) && sorted[a] != sorted[b] by {
            assert(labels@[a]@ == names[order@[a] as int]);
            assert(labels@[b]@ == names[order@[b] as int]);
            assert(before(keys@, order@[a] as int, order@[b] as int));
            assert(keys@[order@[a] as int]@ == names[order@[a] as int]);
            assert(keys@[order@[b] as int]@ == names[order@[b] as int]);
        }
        assert forall|l: Seq<char>| sorted.contains(l) <==> #[trigger] table@.contains_key(l) by {
            assert(names.contains(l) <==> table@.contains_key(l));
            if sorted.contains(l) {
                let a = choose|a: int| 0 <= a < sorted.len() && sorted[a] == l;
                assert(labels@[a]@ == names[order@[a] as int]);
            }
            if names.contains(l) {
                let n = choose|n: int| 0 <= n < names.len() && names[n] == l;
                assert(order@.contains(n as usize));
                let a = choose|a: int| 0 <= a < order@.len() && order@[a] == n as usize;
                assert(labels@[a]@ == names[order@[a] as int]);
                assert(sorted[a] == l);
            }
        }
    }
    labels
}

/// The curves of a category: those of the labels of `keys`, sorted by label. A
/// label without a curve is zero at each time.
pub fn dump_curves(
    category: Category,
    keys: &KeyMap<()>,
    curves: &KeyMap<Vec<i64>>,
    ts: &Vec<String>,
) -> (out: CurvesOut)
    requires
        keys.wf(),
        curves.wf(),
    ensures
        is_dump(out, category, key_set(keys@), curve_map(curves@), texts(ts@)),
{
    assert(keys.part(category).wf());
    let labels = sorted_names(keys.table(category));
    let mut y: Vec<Vec<i64>> = Vec::new();
    let mut i: usize = 0;
    while i < labels.len()
        invariant
            i <= labels@.len(),
            y@.len() == i,
            curves.wf(),
            forall|j: int|
                0 <= j < i ==> (#[trigger] y@[j])@ == curve_or_zeros(
                    curve_map(curves@),
                    (category, labels@[j]@),
                    ts@.len(),
                ),
        decreases labels@.len() - i,
    {
        let ghost k = (category, labels@[i as int]@);
        assert(curve_map(curves@).contains_key(k) <==> curves@.contains_key(k));
        let row = match curves.get(category, labels[i].as_str()) {
            Some(curve) => copy_numbers(curve),
            None => zeros(ts.len()),
        };
        y.push(row);
        i = i + 1;
    }
    let out = CurvesOut { y, ts: copy_texts(ts), labels };
    proof {
        assert forall|label: Seq<char>| texts(out.labels@).contains(label) <==> #[trigger] key_set(
            keys@,
        ).contains((category, label)) by {
            assert(key_set(keys@).contains((category, label)) <==> keys.part(
                category,
            )@.contains_key(label));
        }
    }
    out
}

proof fn lemma_ascending_agrees(a: Seq<Seq<char>>, b: Seq<Seq<char>>, i: int)
    requires
        ascending(a),
        ascending(b),
        a.len() == b.len(),
        forall|l: Seq<char>| #[trigger] a.contains(l) <==> b.contains(l),
        0 <= i < a.len(),
    ensures
        a[i] == b[i],
    decreases i,
{
    assert forall|k: int| 0 <= k < i implies a[k] == b[k] by {
        lemma_ascending_agrees(a, b, k);
    }
    if a[i] != b[i] {
        assert(a.contains(a[i]));
        assert(b.contains(b[i]));
        assert(b.contains(a[i]));
        assert(a.contains(b[i]));
        let p = choose|p: int| 0 <= p < b.len() && b[p] == a[i];
        let q = choose|q: int| 0 <= q < a.len() && a[q] == b[i];
        if p < i {
            assert(a[p] == b[p]);
            assert(a[p] != a[i]);
        }
        if q < i {
            assert(a[q] == b[q]);
            assert(b[q] != b[i]);
        }
        assert(text_le(b[i], b[p]));
        assert(text_le(a[i], a[q]));
        lemma_text_le_antisymmetric(a[i], b[i]);
    }
}

proof fn lemma_ascending_distinct(a: Seq<Seq<char>>)
    requires
        ascending(a),
    ensures
        a.no_duplicates(),
{
    assert forall|i: int, j: int| 0 <= i < a.len() && 0 <= j < a.len() && i != j implies a[i]
        != a[j] by {
        if i < j {
            assert(a[i] != a[j]);
        } else {
            assert(a[j] != a[i]);
        }
    }
}

/// What is written of a category is determined by the keys and their curves.
pub proof fn lemma_dump_unique(
    a: CurvesOut,
    b: CurvesOut,
    category: Category,
    keys: Set<Key>,
    curves: Map<Key, Seq<i64>>,
    ts: Seq<Seq<char>>,
)
    requires
        is_dump(a, category, keys, curves, ts),
        is_dump(b, category, keys, curves, ts),
    ensures
        texts(a.labels@) == texts(b.labels@),
        texts(a.ts@) == texts(b.ts@),
        a.y@.len() == b.y@.len(),
        forall|i: int| 0 <= i < a.y@.len() ==> (#[trigger] a.y@[i])@ == b.y@[i]@,
{
    let x = texts(a.labels@);
    let y = texts(b.labels@);
    assert forall|l: Seq<char>| #[trigger] x.contains(l) <==> y.contains(l) by {
        assert(keys.contains((category, l)) <==> x.contains(l));
        assert(keys.contains((category, l)) <==> y.contains(l));
    }
    lemma_ascending_distinct(x);
    lemma_ascending_distinct(y);
    x.unique_seq_to_set();
    y.unique_seq_to_set();
    assert(x.to_set() =~= y.to_set());
    assert forall|i: int| 0 <= i < x.len() implies x[i] == y[i] by {
        lemma_ascending_agrees(x, y, i);
    }
    assert(x =~= y);
    assert forall|i: int| 0 <= i < a.y@.len() implies (#[trigger] a.y@[i])@ == b.y@[i]@ by {
        assert(x[i] == a.labels@[i]@);
        assert(y[i] == b.labels@[i]@);
    }
}

/// What is written of a category has a row for each of its labels, and for no
/// other: the curve of the label, or a zero for each time if it has none. The
/// labels stand in the order of texts, the times as they are.
pub proof fn lemma_dump_rows(
    out: CurvesOut,
    category: Category,
    keys: Set<Key>,
    curves: Map<Key, Seq<i64>>,
    ts: Seq<Seq<char>>,
    label: Seq<char>,
)
    requires
        is_dump(out, category, keys, curves, ts),
    ensures
        out.ts@.len() == ts.len(),
        forall|i: int| 0 <= i < ts.len() ==> (#[trigger] out.ts@[i])@ == ts[i],
        out.y@.len() == out.labels@.len(),
        keys.contains((category, label)) <==> exists|i: int|
            0 <= i < out.labels@.len() && (#[trigger] out.labels@[i])@ == label,
        forall|i: int|
            0 <= i < out.labels@.len() && (#[trigger] out.labels@[i])@ == label
                && curves.contains_key((category, label)) ==> out.y@[i]@ == curves[(
                category,
                label,
            )],
        forall|i: int, j: int|
            0 <= i < out.labels@.len() && (#[trigger] out.labels@[i])@ == label
                && !curves.contains_key((category, label)) ==> out.y@[i]@.len() == ts.len() && (
            0 <= j < ts.len() ==> #[trigger] out.y@[i]@[j] == 0),
        forall|i: int, j: int|
            0 <= i < j < out.labels@.len() ==> text_le(
                (#[trigger] out.labels@[i])@,
                (#[trigger] out.labels@[j])@,
            ) && out.labels@[i]@ != out.labels@[j]@,
{
    let all = texts(out.labels@);
    assert forall|i: int| 0 <= i < ts.len() implies (#[trigger] out.ts@[i])@ == ts[i] by {
        assert(texts(out.ts@)[i] == out.ts@[i]@);
    }
    assert(all.contains(label) <==> keys.contains((category, label)));
    if all.contains(label) {
        let i = choose|i: int| 0 <= i < all.len() && all[i] == label;
        assert(out.labels@[i]@ == label);
    }
    if exists|i: int| 0 <= i < out.labels@.len() && (#[trigger] out.labels@[i])@ == label {
        let i = choose|i: int| 0 <= i < out.labels@.len() && (#[trigger] out.labels@[i])@ == label;
        assert(all[i] == label);
    }
    assert forall|i: int, j: int| 0 <= i < j < out.labels@.len() implies text_le(
        (#[trigger] out.labels@[i])@,
        (#[trigger] out.labels@[j])@,
    ) && out.labels@[i]@ != out.labels@[j]@ by {
        assert(text_le(all[i], all[j]) && all[i] != all[j]);
    }
}

} // verus!
