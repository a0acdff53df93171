//! Counting by key, where a key is a list of texts.
//!
//! Modelled by a function from keys to how often each was counted; walking the rows
//! visits the keys that were counted, in ascending order.

use crate::modelled::{at, Modelled};
use crate::text::{
    before, lemma_lex_irreflexive, lemma_lex_total, lemma_lex_transitive, lex_lt, same_text,
};
use vstd::prelude::*;

verus! {

/// Does the list `a` come before the list `b`, text by text?
pub open spec fn list_lt(a: Seq<Seq<char>>, b: Seq<Seq<char>>) -> bool
    decreases a.len(),
{
    if b.len() == 0 {
        false
    } else if a.len() == 0 {
        true
    } else if a[0] != b[0] {
        lex_lt(a[0], b[0])
    } else {
        list_lt(a.drop_first(), b.drop_first())
    }
}

/// No list comes before itself.
pub proof fn lemma_list_irreflexive(a: Seq<Seq<char>>)
    ensures
        !list_lt(a, a),
    decreases a.len(),
{
    if a.len() > 0 {
        lemma_list_irreflexive(a.drop_first());
    }
}

/// What comes before what comes before a third comes before the third.
pub proof fn lemma_list_transitive(a: Seq<Seq<char>>, b: Seq<Seq<char>>, c: Seq<Seq<char>>)
    requires
        list_lt(a, b),
        list_lt(b, c),
    ensures
        list_lt(a, c),
    decreases a.len(),
{
    if a.len() > 0 {
        if a[0] == b[0] && b[0] == c[0] {
            lemma_list_transitive(a.drop_first(), b.drop_first(), c.drop_first());
        } else if a[0] != b[0] && b[0] != c[0] {
            lemma_lex_transitive(a[0], b[0], c[0]);
            lemma_lex_irreflexive(a[0]);
            if a[0] == c[0] {
                lemma_lex_transitive(b[0], c[0], b[0]);
                lemma_lex_irreflexive(b[0]);
            }
        }
    }
}

/// Of two lists that differ, one comes before the other.
pub proof fn lemma_list_total(a: Seq<Seq<char>>, b: Seq<Seq<char>>)
    ensures
        a == b || list_lt(a, b) || list_lt(b, a),
    decreases a.len(),
{
    if a.len() == 0 || b.len() == 0 {
        if a.len() == 0 && b.len() == 0 {
            assert(a =~= b);
        }
    } else if a[0] != b[0] {
        lemma_lex_total(a[0], b[0]);
    } else {
        lemma_list_total(a.drop_first(), b.drop_first());
        if a.drop_first() == b.drop_first() {
            assert(a =~= seq![a[0]] + a.drop_first());
            assert(b =~= seq![b[0]] + b.drop_first());
        }
    }
}

/// Does the list `a` come before the list `b`?
fn comes_before(a: &Vec<String>, b: &Vec<String>) -> (r: bool)
    ensures
        r == list_lt(a.deep_view(), b.deep_view()),
{
    let ghost av = a.deep_view();
    let ghost bv = b.deep_view();
    let mut i: usize = 0;
    proof {
        assert(av.skip(0) =~= av);
        assert(bv.skip(0) =~= bv);
    }
    while i < a.len() && i < b.len()
        invariant
            i <= a@.len(),
            i <= b@.len(),
            av == a.deep_view(),
            bv == b.deep_view(),
            list_lt(av, bv) == list_lt(av.skip(i as int), bv.skip(i as int)),
        decreases a@.len() - i,
    {
        let x = at(a, i);
        let y = at(b, i);
        proof {
            assert(av.skip(i as int)[0] == x@);
            assert(bv.skip(i as int)[0] == y@);
            assert(av.skip(i as int).drop_first() =~= av.skip(i + 1));
            assert(bv.skip(i as int).drop_first() =~= bv.skip(i + 1));
        }
        if !same_text(x.as_str(), y.as_str()) {
            return before(x.as_str(), y.as_str());
        }
        i += 1;
    }
    i < b.len()
}

/// Are the keys of the rows in ascending order, each once, and every count positive?
pub open spec fn tidy(rows: Seq<(Seq<Seq<char>>, nat)>) -> bool {
    &&& forall|i: int, j: int|
        0 <= i < j < rows.len() ==> list_lt((#[trigger] rows[i]).0, (#[trigger] rows[j]).0)
    &&& forall|i: int| 0 <= i < rows.len() ==> (#[trigger] rows[i]).1 > 0
}

/// How often the key was counted: what its row says, 0 without one.
pub open spec fn count_in(rows: Seq<(Seq<Seq<char>>, nat)>, key: Seq<Seq<char>>) -> nat {
    if exists|i: int| 0 <= i < rows.len() && (#[trigger] rows[i]).0 == key {
        rows[choose|i: int| 0 <= i < rows.len() && (#[trigger] rows[i]).0 == key].1
    } else {
        0
    }
}

/// The rows, modelled.
spec fn table_of(rows: Seq<(Vec<String>, u32)>) -> Seq<(Seq<Seq<char>>, nat)> {
    Seq::new(rows.len(), |i: int| (rows[i].0.deep_view(), rows[i].1 as nat))
}

/// Rows of keys and counts.
pub struct Counter {
    rows: Vec<(Vec<String>, u32)>,
}

impl Counter {
    #[verifier::type_invariant]
    spec fn inv(self) -> bool {
        tidy(self.table())
    }

    /// The rows.
    pub closed spec fn table(self) -> Seq<(Seq<Seq<char>>, nat)> {
        table_of(self.rows@)
    }

    /// How often the key was counted.
    pub open spec fn count(self, key: Seq<Seq<char>>) -> nat {
        count_in(self.table(), key)
    }

    /// Nothing counted.
    pub fn new() -> (r: Self)
        ensures
            r.table().len() == 0,
            forall|k: Seq<Seq<char>>| #[trigger] r.count(k) == 0,
    {
        Counter { rows: Vec::new() }
    }

    /// How many keys were counted.
    pub fn len(&self) -> (n: usize)
        ensures
            n == self.table().len(),
            tidy(self.table()),
    {
        proof {
            use_type_invariant(self);
        }
        self.rows.len()
    }

    /// The `i`-th key in ascending order.
    pub fn key(&self, i: usize) -> (r: &Vec<String>)
        requires
            i < self.table().len(),
        ensures
            r.deep_view() == self.table()[i as int].0,
            self.count(r.deep_view()) == self.table()[i as int].1,
    {
        proof {
            use_type_invariant(self);
            lemma_count_at(self.table(), i as int);
        }
        &self.rows[i].0
    }

    /// How often the `i`-th key was counted.
    pub fn times(&self, i: usize) -> (r: u32)
        requires
            i < self.table().len(),
        ensures
            r as nat == self.table()[i as int].1,
    {
        self.rows[i].1
    }

    /// How often the key was counted.
    pub fn get(&self, key: &Vec<String>) -> (r: u32)
        ensures
            r as nat == self.count(key.deep_view()),
    {
        let ghost t = self.table();
        let mut i: usize = 0;
        while i < self.rows.len()
            invariant
                i <= self.rows@.len(),
                t == self.table(),
                forall|j: int| 0 <= j < i ==> (#[trigger] t[j]).0 != key.deep_view(),
            decreases self.rows@.len() - i,
        {
            assert(t[i as int].0 == self.rows@[i as int].0.deep_view());
            if self.rows[i].0.same(key) {
                proof {
                    use_type_invariant(self);
                    lemma_count_at(t, i as int);
                }
                return self.rows[i].1;
            }
            i += 1;
        }
        0
    }

    /// Counts the key once more.
    pub fn bump(&mut self, key: Vec<String>)
        requires
            old(self).count(key.deep_view()) < u32::MAX,
        ensures
            forall|k: Seq<Seq<char>>| #[trigger]
                final(self).count(k) == old(self).count(k) + if k == key.deep_view() {
                    1nat
                } else {
                    0nat
                },
    {
        proof {
            use_type_invariant(&*self);
        }
        let ghost t0 = self.table();
        let ghost kv = key.deep_view();
        let mut rows: Vec<(Vec<String>, u32)> = Vec::new();
        std::mem::swap(&mut rows, &mut self.rows);
        let ghost r0 = rows@;
        assert(forall|j: int|
            0 <= j < r0.len() ==> t0[j] == ((#[trigger] r0[j]).0.deep_view(), r0[j].1 as nat));
        let mut i: usize = 0;
        while i < rows.len() && comes_before(&rows[i].0, &key)
            invariant
                i <= rows@.len(),
                rows@ == r0,
                kv == key.deep_view(),
                t0.len() == r0.len(),
                forall|j: int|
                    0 <= j < r0.len() ==> t0[j] == (
                        (#[trigger] r0[j]).0.deep_view(),
                        r0[j].1 as nat,
                    ),
                forall|j: int| 0 <= j < i ==> list_lt((#[trigger] t0[j]).0, kv),
            decreases rows@.len() - i,
        {
            assert(t0[i as int].0 == r0[i as int].0.deep_view());
            i += 1;
        }
        if i < rows.len() && rows[i].0.same(&key) {
            let n: u32 = rows[i].1;
            proof {
                assert(t0[i as int].0 == kv);
                lemma_count_at(t0, i as int);
            }
            let ghost t1 = t0.update(i as int, (kv, (n + 1) as nat));
            rows.set(i, (key, n + 1));
            proof {
                assert(table_of(rows@) =~= t1);
                assert(tidy(t1));
                lemma_bumped(t0, t1, i as int, kv);
            }
            self.rows = rows;
        } else {
            proof {
                if i < r0.len() {
                    assert(t0[i as int].0 == r0[i as int].0.deep_view());
                    lemma_list_total(kv, t0[i as int].0);
                }
            }
            let ghost t1 = t0.insert(i as int, (kv, 1nat));
            rows.insert(i, (key, 1));
            proof {
                assert(table_of(rows@) =~= t1);
                lemma_inserted(t0, t1, i as int, kv);
            }
            self.rows = rows;
        }
    }
}

/// A row says how often its key was counted.
pub proof fn lemma_count_at(rows: Seq<(Seq<Seq<char>>, nat)>, i: int)
    requires
        tidy(rows),
        0 <= i < rows.len(),
    ensures
        count_in(rows, rows[i].0) == rows[i].1,
        count_in(rows, rows[i].0) > 0,
{
    let k = rows[i].0;
    let c = choose|c: int| 0 <= c < rows.len() && (#[trigger] rows[c]).0 == k;
    assert(0 <= c < rows.len() && rows[c].0 == k);
    lemma_list_irreflexive(k);
    if c < i {
        assert(list_lt(rows[c].0, rows[i].0));
    }
    if i < c {
        assert(list_lt(rows[i].0, rows[c].0));
    }
}

/// A key that was counted has a row.
pub proof fn lemma_counted(rows: Seq<(Seq<Seq<char>>, nat)>, key: Seq<Seq<char>>) -> (i: int)
    requires
        tidy(rows),
        count_in(rows, key) > 0,
    ensures
        0 <= i < rows.len(),
        rows[i].0 == key,
        rows[i].1 == count_in(rows, key),
{
    let i = choose|i: int| 0 <= i < rows.len() && (#[trigger] rows[i]).0 == key;
    lemma_count_at(rows, i);
    i
}

proof fn lemma_bumped(
    t0: Seq<(Seq<Seq<char>>, nat)>,
    t1: Seq<(Seq<Seq<char>>, nat)>,
    i: int,
    key: Seq<Seq<char>>,
)
    requires
        tidy(t0),
        tidy(t1),
        0 <= i < t0.len(),
        t0[i].0 == key,
        t1 == t0.update(i, (key, t0[i].1 + 1)),
    ensures
        forall|k: Seq<Seq<char>>| #[trigger]
            count_in(t1, k) == count_in(t0, k) + if k == key {
                1nat
            } else {
                0nat
            },
{
    assert forall|k: Seq<Seq<char>>| #[trigger] count_in(t1, k) == count_in(t0, k) + if k == key {
        1nat
    } else {
        0nat
    } by {
        if k == key {
            lemma_count_at(t0, i);
            lemma_count_at(t1, i);
        } else {
            if exists|j: int| 0 <= j < t0.len() && (#[trigger] t0[j]).0 == k {
                let j = choose|j: int| 0 <= j < t0.len() && (#[trigger] t0[j]).0 == k;
                lemma_count_at(t0, j);
                assert(t1[j] == t0[j]);
                lemma_count_at(t1, j);
            } else if exists|j: int| 0 <= j < t1.len() && (#[trigger] t1[j]).0 == k {
                let j = choose|j: int| 0 <= j < t1.len() && (#[trigger] t1[j]).0 == k;
                assert(t0[j].0 == k);
            }
        }
    }
}

proof fn lemma_inserted(
    t0: Seq<(Seq<Seq<char>>, nat)>,
    t1: Seq<(Seq<Seq<char>>, nat)>,
    i: int,
    key: Seq<Seq<char>>,
)
    requires
        tidy(t0),
        0 <= i <= t0.len(),
        forall|j: int| 0 <= j < i ==> list_lt((#[trigger] t0[j]).0, key),
        i < t0.len() ==> list_lt(key, t0[i].0),
        t1 == t0.insert(i, (key, 1nat)),
    ensures
        tidy(t1),
        forall|k: Seq<Seq<char>>| #[trigger]
            count_in(t1, k) == count_in(t0, k) + if k == key {
                1nat
            } else {
                0nat
            },
{
    assert forall|j: int| i <= j < t0.len() implies list_lt(key, (#[trigger] t0[j]).0) by {
        if i < j {
            assert(list_lt(t0[i].0, t0[j].0));
            lemma_list_transitive(key, t0[i].0, t0[j].0);
        }
    }
    assert forall|a: int, b: int| 0 <= a < b < t1.len() implies list_lt(
        (#[trigger] t1[a]).0,
        (#[trigger] t1[b]).0,
    ) by {
        let a0 = if a < i { a } else { a - 1 };
        let b0 = if b < i { b } else { b - 1 };
        if a != i && b != i {
            assert(list_lt(t0[a0].0, t0[b0].0));
        }
    }
    assert forall|j: int| 0 <= j < t1.len() implies (#[trigger] t1[j]).1 > 0 by {
        if j != i {
            let j0 = if j < i { j } else { j - 1 };
            assert(t0[j0].1 > 0);
        }
    }
    assert forall|k: Seq<Seq<char>>| #[trigger] count_in(t1, k) == count_in(t0, k) + if k == key {
        1nat
    } else {
        0nat
    } by {
        if k == key {
            assert(t1[i].0 == key);
            lemma_count_at(t1, i);
            if exists|j: int| 0 <= j < t0.len() && (#[trigger] t0[j]).0 == k {
                let j = choose|j: int| 0 <= j < t0.len() && (#[trigger] t0[j]).0 == k;
                lemma_list_irreflexive(key);
                assert(t0[j].0 == key);
            }
        } else {
            if exists|j: int| 0 <= j < t0.len() && (#[trigger] t0[j]).0 == k {
                let j = choose|j: int| 0 <= j < t0.len() && (#[trigger] t0[j]).0 == k;
                lemma_count_at(t0, j);
                let j1 = if j < i { j } else { j + 1 };
                assert(t1[j1] == t0[j]);
                lemma_count_at(t1, j1);
            } else if exists|j: int| 0 <= j < t1.len() && (#[trigger] t1[j]).0 == k {
                let j = choose|j: int| 0 <= j < t1.len() && (#[trigger] t1[j]).0 == k;
                let j0 = if j < i { j } else { j - 1 };
                assert(t0[j0].0 == k);
            }
        }
    }
}

} // verus!
