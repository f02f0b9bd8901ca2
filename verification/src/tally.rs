//! Line counts by category and label.

use vstd::prelude::*;

use crate::count::{
    lemma_sum_equal, lemma_sum_push, lemma_wrap_add, lemma_wrap_fits, lemma_wrap_same, minus, plus,
    sum, wrap,
};
use crate::table::Table;

verus! {

/// What lines are counted by.
#[derive(Clone, Copy, PartialEq, Eq, Structural, Debug)]
pub enum Category {
    Cohort,
    Ext,
    Author,
    Dir,
    Domain,
    Sha,
}

/// One counter: a category and a label in it.
pub type Key = (Category, Seq<char>);

impl Category {
    pub open spec fn text(self) -> Seq<char> {
        match self {
            Category::Cohort => "cohort"@,
            Category::Ext => "ext"@,
            Category::Author => "author"@,
            Category::Dir => "dir"@,
            Category::Domain => "domain"@,
            Category::Sha => "sha"@,
        }
    }

    /// The name of the category.
    pub fn name(&self) -> (s: &'static str)
        ensures
            s@ == self.text(),
    {
        match self {
            Category::Cohort => "cohort",
            Category::Ext => "ext",
            Category::Author => "author",
            Category::Dir => "dir",
            Category::Domain => "domain",
            Category::Sha => "sha",
        }
    }
}

/// A value for each of some keys.
pub struct KeyMap<V> {
    cohort: Table<V>,
    ext: Table<V>,
    author: Table<V>,
    dir: Table<V>,
    domain: Table<V>,
    sha: Table<V>,
}

impl<V> View for KeyMap<V> {
    type V = Map<Key, V>;

    open spec fn view(&self) -> Map<Key, V> {
        Map::new(
            |k: Key| self.part(k.0)@.contains_key(k.1),
            |k: Key| self.part(k.0)@[k.1],
        )
    }
}

impl<V> KeyMap<V> {
    /// The values of one category.
    pub closed spec fn part(&self, c: Category) -> Table<V> {
        match c {
            Category::Cohort => self.cohort,
            Category::Ext => self.ext,
            Category::Author => self.author,
            Category::Dir => self.dir,
            Category::Domain => self.domain,
            Category::Sha => self.sha,
        }
    }

    pub open spec fn wf(&self) -> bool {
        forall|c: Category| (#[trigger] self.part(c)).wf()
    }

    /// The labels of a category, in the order of their insertion.
    pub open spec fn labels(&self, c: Category) -> Seq<Seq<char>> {
        self.part(c).keys()
    }

    pub fn new() -> (m: Self)
        ensures
            m.wf(),
            m@ == Map::<Key, V>::empty(),
            forall|c: Category| (#[trigger] m.labels(c)).len() == 0,
    {
        let m = KeyMap {
            cohort: Table::new(),
            ext: Table::new(),
            author: Table::new(),
            dir: Table::new(),
            domain: Table::new(),
            sha: Table::new(),
        };
        assert forall|c: Category| (#[trigger] m.part(c)).wf() by {}
        assert forall|c: Category| (#[trigger] m.labels(c)).len() == 0 by {}
        assert(m@ == Map::<Key, V>::empty());
        m
    }

    /// The values of one category.
    pub fn table(&self, c: Category) -> (t: &Table<V>)
        ensures
            *t == self.part(c),
    {
        match c {
            Category::Cohort => &self.cohort,
            Category::Ext => &self.ext,
            Category::Author => &self.author,
            Category::Dir => &self.dir,
            Category::Domain => &self.domain,
            Category::Sha => &self.sha,
        }
    }

    /// Access to the values of one category.
    pub fn table_mut(&mut self, c: Category) -> (t: &mut Table<V>)
        ensures
            *t == old(self).part(c),
            *final(t) == final(self).part(c),
            forall|d: Category| d != c ==> #[trigger] final(self).part(d) == old(self).part(d),
    {
        match c {
            Category::Cohort => &mut self.cohort,
            Category::Ext => &mut self.ext,
            Category::Author => &mut self.author,
            Category::Dir => &mut self.dir,
            Category::Domain => &mut self.domain,
            Category::Sha => &mut self.sha,
        }
    }

    pub fn get(&self, c: Category, label: &str) -> (r: Option<&V>)
        requires
            self.wf(),
        ensures
            match r {
                Some(v) => self@.contains_key((c, label@)) && *v == self@[(c, label@)],
                None => !self@.contains_key((c, label@)),
            },
    {
        self.table(c).get(label)
    }

    pub fn contains(&self, c: Category, label: &str) -> (r: bool)
        requires
            self.wf(),
        ensures
            r == self@.contains_key((c, label@)),
    {
        self.table(c).contains(label)
    }

    /// Sets the value of a key.
    pub fn insert(&mut self, c: Category, label: String, value: V)
        requires
            old(self).wf(),
        ensures
            final(self).wf(),
            final(self)@ == old(self)@.insert((c, label@), value),
    {
        let t = self.table_mut(c);
        t.insert(label, value);
        proof {
            assert forall|d: Category| (#[trigger] self.part(d)).wf() by {
                if d != c {
                    assert(old(self).part(d).wf());
                }
            }
            assert(self@ == old(self)@.insert((c, label@), value));
        }
    }
}

/// The count of a name; zero if it has none.
pub open spec fn count_of<K>(m: Map<K, i64>, k: K) -> int {
    if m.contains_key(k) {
        m[k] as int
    } else {
        0
    }
}

/// The counts of `m`, each raised by what `h` counts for it, or lowered if
/// `sign` is -1. A name that either counts is counted.
pub open spec fn merged<K>(m: Map<K, i64>, h: Map<K, i64>, sign: int) -> Map<K, i64> {
    Map::new(
        |k: K| m.contains_key(k) || h.contains_key(k),
        |k: K| wrap(count_of(m, k) + sign * count_of(h, k)),
    )
}

/// The sum of all counts of a table.
pub open spec fn table_total(t: &Table<i64>) -> int {
    sum(t.keys(), |l: Seq<char>| count_of(t@, l))
}

impl KeyMap<i64> {
    /// The sum of the counts of one category.
    pub open spec fn category_total(&self, c: Category) -> int {
        table_total(&self.part(c))
    }
}

proof fn lemma_sum_point(s: Seq<Seq<char>>, x: Seq<char>, f: spec_fn(Seq<char>) -> int, g: spec_fn(
    Seq<char>,
) -> int)
    requires
        s.no_duplicates(),
        s.contains(x),
        forall|y: Seq<char>| y != x ==> #[trigger] f(y) == g(y),
    ensures
        sum(s, g) == sum(s, f) - f(x) + g(x),
    decreases s.len(),
{
    let i = choose|i: int| 0 <= i < s.len() && s[i] == x;
    let t = s.drop_last();
    if i == s.len() - 1 {
        assert forall|j: int| 0 <= j < t.len() implies #[trigger] f(t[j]) == g(t[j]) by {
            assert(s[j] != s[i]);
        }
        lemma_sum_equal(t, f, g);
    } else {
        assert(t[i] == x);
        assert(s.last() != x);
        assert(f(s.last()) == g(s.last()));
        assert(t.no_duplicates()) by {
            assert forall|a: int, b: int| 0 <= a < t.len() && 0 <= b < t.len() && a != b implies t[a]
                != t[b] by {
                assert(s[a] != s[b]);
            }
        }
        lemma_sum_point(t, x, f, g);
    }
}

/// How setting one count changes the sum of all.
proof fn lemma_total_insert(before: &Table<i64>, after: &Table<i64>, label: Seq<char>, value: i64)
    requires
        before.wf(),
        after.wf(),
        after@ == before@.insert(label, value),
        after.keys() == (if before@.contains_key(label) {
            before.keys()
        } else {
            before.keys().push(label)
        }),
    ensures
        table_total(after) == table_total(before) - count_of(before@, label) + value,
{
    let f = |l: Seq<char>| count_of(before@, l);
    let g = |l: Seq<char>| count_of(after@, l);
    before.lemma_keys();
    if before@.contains_key(label) {
        assert(before.keys().contains(label));
        lemma_sum_point(before.keys(), label, f, g);
    } else {
        let ks = before.keys();
        assert forall|i: int| 0 <= i < ks.len() implies #[trigger] f(ks[i]) == g(ks[i]) by {
            assert(before@.contains_key(ks[i]));
        }
        lemma_sum_equal(ks, f, g);
        lemma_sum_push(ks, label, g);
    }
}

/// Raises the count of a label.
pub fn bump(t: &mut Table<i64>, label: &str, n: i64)
    requires
        old(t).wf(),
    ensures
        final(t).wf(),
        final(t)@ == old(t)@.insert(label@, wrap(count_of(old(t)@, label@) + n)),
        wrap(table_total(final(t))) == wrap(table_total(old(t)) + n),
{
    let current: i64 = match t.get(label) {
        Some(v) => *v,
        None => 0,
    };
    let value = plus(current, n);
    let ghost before = *t;
    t.insert(label.to_owned(), value);
    proof {
        lemma_total_insert(&before, t, label@, value);
        lemma_wrap_add(table_total(&before) - current, current + n);
    }
}

/// Adds the counts of `h` to those of `t`, or takes them off.
pub fn merge_table(t: &mut Table<i64>, h: &Table<i64>, take_off: bool)
    requires
        old(t).wf(),
        h.wf(),
    ensures
        final(t).wf(),
        final(t)@ == merged(old(t)@, h@, if take_off { -1 } else { 1 }),
        wrap(table_total(final(t))) == wrap(
            table_total(old(t)) + (if take_off { -1 } else { 1int }) * table_total(h),
        ),
{
    let ghost sign: int = if take_off { -1 } else { 1 };
    let ghost hf = |l: Seq<char>| count_of(h@, l);
    let mut i: usize = 0;
    while i < h.len()
        invariant
            t.wf(),
            h.wf(),
            i <= h.keys().len(),
            sign == (if take_off { -1 } else { 1int }),
            hf == (|l: Seq<char>| count_of(h@, l)),
            forall|l: Seq<char>| #[trigger]
                t@.contains_key(l) <==> old(t)@.contains_key(l) || h.keys().take(i as int).contains(l),
            forall|l: Seq<char>| #[trigger]
                t@.contains_key(l) ==> t@[l] == (if h.keys().take(i as int).contains(l) {
                    wrap(count_of(old(t)@, l) + sign * count_of(h@, l))
                } else {
                    old(t)@[l]
                }),
            wrap(table_total(t)) == wrap(
                table_total(old(t)) + sign * sum(h.keys().take(i as int), hf),
            ),
        decreases h.keys().len() - i,
    {
        let label = h.name(i);
        let n: i64 = *h.value(i);
        let ghost before = *t;
        let ghost done = h.keys().take(i as int);
        let ghost next = h.keys().take(i + 1);
        let current: i64 = match t.get(label.as_str()) {
            Some(v) => *v,
            None => 0,
        };
        let value: i64 = if take_off {
            minus(current, n)
        } else {
            plus(current, n)
        };
        t.insert(label.clone(), value);
        proof {
            h.lemma_keys();
            assert(next == done.push(label@));
            assert(h@.contains_key(h.keys()[i as int]));
            assert(!done.contains(label@)) by {
                if done.contains(label@) {
                    let j = choose|j: int| 0 <= j < done.len() && done[j] == label@;
                    assert(h.keys()[j] == h.keys()[i as int]);
                }
            }
            assert forall|l: Seq<char>| next.contains(l) <==> done.contains(l) || l == label@ by {
                if next.contains(l) {
                    let j = choose|j: int| 0 <= j < next.len() && next[j] == l;
                    if j < i {
                        assert(done[j] == l);
                    }
                }
                if done.contains(l) {
                    let j = choose|j: int| 0 <= j < done.len() && done[j] == l;
                    assert(next[j] == l);
                }
                assert(next[i as int] == label@);
            }
            lemma_total_insert(&before, t, label@, value);
            lemma_sum_push(done, label@, hf);
            assert(hf(label@) == n);
            assert(value == wrap(current + sign * n));
            lemma_wrap_add(table_total(&before) - current, current + sign * n);
            assert(wrap(table_total(t)) == wrap(table_total(&before) + sign * n));
            lemma_wrap_same(
                table_total(&before),
                table_total(old(t)) + sign * sum(done, hf),
                sign * n,
                sign * n,
            );
            assert(sign * sum(next, hf) == sign * sum(done, hf) + sign * n) by (nonlinear_arith)
                requires
                    sum(next, hf) == sum(done, hf) + n,
            ;
        }
        i = i + 1;
    }
    proof {
        h.lemma_keys();
        assert(h.keys().take(i as int) == h.keys());
        assert forall|l: Seq<char>| #[trigger] t@.contains_key(l) implies t@[l] == merged(
            old(t)@,
            h@,
            sign,
        )[l] by {
            if !h.keys().contains(l) {
                assert(!h@.contains_key(l));
                lemma_wrap_fits(old(t)@[l] as int);
            }
        }
        assert(t@ == merged(old(t)@, h@, sign));
    }
}

impl KeyMap<i64> {
    /// Raises the count of a key.
    pub fn add_count(&mut self, c: Category, label: &str, n: i64)
        requires
            old(self).wf(),
        ensures
            final(self).wf(),
            final(self)@ == old(self)@.insert(
                (c, label@),
                wrap(count_of(old(self)@, (c, label@)) + n),
            ),
            wrap(final(self).category_total(c)) == wrap(old(self).category_total(c) + n),
            forall|d: Category| d != c ==> #[trigger] final(self).part(d) == old(self).part(d),
    {
        let t = self.table_mut(c);
        bump(t, label, n);
        proof {
            assert forall|d: Category| (#[trigger] self.part(d)).wf() by {
                if d != c {
                    assert(old(self).part(d).wf());
                }
            }
            assert(self@ == old(self)@.insert(
                (c, label@),
                wrap(count_of(old(self)@, (c, label@)) + n),
            ));
        }
    }

    fn merge_part(&mut self, h: &KeyMap<i64>, c: Category, take_off: bool)
        requires
            old(self).wf(),
            h.wf(),
        ensures
            final(self).wf(),
            final(self).part(c)@ == merged(
                old(self).part(c)@,
                h.part(c)@,
                if take_off { -1 } else { 1 },
            ),
            wrap(final(self).category_total(c)) == wrap(
                old(self).category_total(c) + (if take_off { -1 } else { 1int })
                    * h.category_total(c),
            ),
            forall|d: Category| d != c ==> #[trigger] final(self).part(d) == old(self).part(d),
    {
        let t = self.table_mut(c);
        merge_table(t, h.table(c), take_off);
        proof {
            assert forall|d: Category| (#[trigger] self.part(d)).wf() by {
                if d != c {
                    assert(old(self).part(d).wf());
                }
            }
        }
    }

    /// Adds all counts of `h`, or takes them off.
    pub fn merge(&mut self, h: &KeyMap<i64>, take_off: bool)
        requires
            old(self).wf(),
            h.wf(),
        ensures
            final(self).wf(),
            final(self)@ == merged(old(self)@, h@, if take_off { -1 } else { 1 }),
            forall|c: Category|
                wrap(#[trigger] final(self).category_total(c)) == wrap(
                    old(self).category_total(c) + (if take_off { -1 } else { 1int })
                        * h.category_total(c),
                ),
    {
        self.merge_part(h, Category::Cohort, take_off);
        self.merge_part(h, Category::Ext, take_off);
        self.merge_part(h, Category::Author, take_off);
        self.merge_part(h, Category::Dir, take_off);
        self.merge_part(h, Category::Domain, take_off);
        self.merge_part(h, Category::Sha, take_off);
        proof {
            let sign: int = if take_off { -1 } else { 1 };
            assert forall|c: Category|
                (#[trigger] self.part(c))@ == merged(old(self).part(c)@, h.part(c)@, sign) by {
                match c {
                    Category::Cohort => {},
                    Category::Ext => {},
                    Category::Author => {},
                    Category::Dir => {},
                    Category::Domain => {},
                    Category::Sha => {},
                }
            }
            assert forall|c: Category|
                wrap(#[trigger] self.category_total(c)) == wrap(
                    old(self).category_total(c) + sign * h.category_total(c),
                ) by {
                match c {
                    Category::Cohort => {},
                    Category::Ext => {},
                    Category::Author => {},
                    Category::Dir => {},
                    Category::Domain => {},
                    Category::Sha => {},
                }
            }
            assert(self@ == merged(old(self)@, h@, sign));
        }
    }
}

/// Categories have different names.
pub proof fn lemma_names_differ(a: Category, b: Category)
    requires
        a != b,
    ensures
        a.text() != b.text(),
{
    reveal_strlit("cohort");
    reveal_strlit("ext");
    reveal_strlit("author");
    reveal_strlit("dir");
    reveal_strlit("domain");
    reveal_strlit("sha");
    assert("cohort"@[0] == 'c' && "ext"@[0] == 'e' && "author"@[0] == 'a' && "sha"@[0] == 's');
    assert("dir"@.len() == 3 && "domain"@.len() == 6);
    assert("dir"@[0] == 'd' && "domain"@[0] == 'd');
}

/// Counts are added name by name, or taken off; a name that is not counted counts
/// zero. Taking off what was added gives back the count that a name had.
pub proof fn lemma_merged<K>(m: Map<K, i64>, h: Map<K, i64>, k: K)
    ensures
        merged(m, h, 1).contains_key(k) <==> m.contains_key(k) || h.contains_key(k),
        merged(m, h, -1).contains_key(k) <==> m.contains_key(k) || h.contains_key(k),
        count_of(m, k) == if m.contains_key(k) {
            m[k] as int
        } else {
            0
        },
        i64::MIN <= count_of(m, k) + count_of(h, k) <= i64::MAX ==> count_of(merged(m, h, 1), k)
            == count_of(m, k) + count_of(h, k),
        i64::MIN <= count_of(m, k) - count_of(h, k) <= i64::MAX ==> count_of(merged(m, h, -1), k)
            == count_of(m, k) - count_of(h, k),
        count_of(merged(merged(m, h, 1), h, -1), k) == count_of(m, k),
        count_of(merged(merged(m, h, -1), h, 1), k) == count_of(m, k),
{
    let a = count_of(m, k);
    let b = count_of(h, k);
    lemma_wrap_add(a + b, -b);
    lemma_wrap_add(a - b, b);
    lemma_wrap_fits(a);
    if i64::MIN <= a + b <= i64::MAX {
        lemma_wrap_fits(a + b);
    }
    if i64::MIN <= a - b <= i64::MAX {
        lemma_wrap_fits(a - b);
    }
}

} // verus!
