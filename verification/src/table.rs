//! A small association table that keeps its rows in insertion order.

use vstd::prelude::*;

use crate::bytes::{contains_hash, hash_eq, Hash32};

verus! {

/// A key that can be told apart from others.
pub trait Key: Copy {
    /// Whether two keys are equal.
    fn same(&self, other: &Self) -> (r: bool)
        ensures
            r == (*self == *other),
    ;
}

impl Key for u64 {
    fn same(&self, other: &Self) -> (r: bool) {
        *self == *other
    }
}

impl Key for Hash32 {
    fn same(&self, other: &Self) -> (r: bool) {
        hash_eq(self, other)
    }
}

/// Rows with distinct keys, in the order in which the keys were added.
pub struct Table<K: Key, V> {
    rows: Vec<(K, V)>,
}

/// No two rows have the same key.
pub open spec fn distinct_keys<K, V>(rows: Seq<(K, V)>) -> bool {
    forall|i: int, j: int|
        0 <= i < rows.len() && 0 <= j < rows.len() && i != j ==> (#[trigger] rows[i]).0
            != (#[trigger] rows[j]).0
}

/// Some row has the key.
pub open spec fn has_key<K, V>(rows: Seq<(K, V)>, k: K) -> bool {
    exists|i: int| 0 <= i < rows.len() && (#[trigger] rows[i]).0 == k
}

/// The row of a key.
pub open spec fn row_of<K, V>(rows: Seq<(K, V)>, k: K) -> int {
    choose|i: int| 0 <= i < rows.len() && (#[trigger] rows[i]).0 == k
}

/// The map that rows stand for.
pub open spec fn rows_map<K, V>(rows: Seq<(K, V)>) -> Map<K, V> {
    Map::new(|k: K| has_key(rows, k), |k: K| rows[row_of(rows, k)].1)
}

/// The rows that satisfy a predicate on keys, in order.
pub open spec fn rows_where<K, V>(rows: Seq<(K, V)>, keep: spec_fn(K) -> bool) -> Seq<(K, V)> {
    rows.filter(|row: (K, V)| keep(row.0))
}

/// A row with distinct keys is the row of its key.
pub proof fn lemma_row<K, V>(rows: Seq<(K, V)>, i: int)
    requires
        distinct_keys(rows),
        0 <= i < rows.len(),
    ensures
        row_of(rows, rows[i].0) == i,
        rows_map(rows).contains_key(rows[i].0),
        rows_map(rows)[rows[i].0] == rows[i].1,
{
    let k = rows[i].0;
    assert(has_key(rows, k));
    let j = row_of(rows, k);
    assert(0 <= j < rows.len() && rows[j].0 == k);
}

/// The rows of a table and its map have the same size.
pub proof fn lemma_rows_len<K, V>(rows: Seq<(K, V)>)
    requires
        distinct_keys(rows),
    ensures
        rows_map(rows).dom().finite(),
        rows_map(rows).dom().len() == rows.len(),
    decreases rows.len(),
{
    if rows.len() == 0 {
        assert(rows_map(rows).dom() =~= Set::empty());
    } else {
        let front = rows.drop_last();
        assert(distinct_keys(front));
        lemma_rows_len(front);
        let k = rows.last().0;
        assert(!has_key(front, k)) by {
            if has_key(front, k) {
                let i = row_of(front, k);
                assert(front[i] == rows[i]);
                assert(rows[i].0 == rows[rows.len() - 1].0);
            }
        }
        assert forall|x: K| #[trigger] rows_map(rows).dom().contains(x) <==> rows_map(
            front,
        ).dom().insert(k).contains(x) by {
            if has_key(rows, x) && x != k {
                let i = row_of(rows, x);
                assert(front[i] == rows[i]);
            }
            if has_key(front, x) {
                let i = row_of(front, x);
                assert(front[i] == rows[i]);
            }
            assert(rows[rows.len() - 1].0 == k);
        }
        assert(rows_map(rows).dom() =~= rows_map(front).dom().insert(k));
    }
}

impl<K: Key, V> Table<K, V> {
    /// The rows, in order.
    pub closed spec fn rows(self) -> Seq<(K, V)> {
        self.rows@
    }

    /// The rows have distinct keys.
    pub open spec fn wf(self) -> bool {
        distinct_keys(self.rows())
    }

    /// The map from keys to values.
    pub open spec fn map(self) -> Map<K, V> {
        rows_map(self.rows())
    }

    /// A table without rows.
    pub fn new() -> (r: Self)
        ensures
            r.wf(),
            r.rows() == Seq::<(K, V)>::empty(),
            r.map() == Map::<K, V>::empty(),
    {
        let r = Table { rows: Vec::new() };
        assert(rows_map(r.rows()) =~= Map::<K, V>::empty());
        r
    }

    /// The number of rows.
    pub fn len(&self) -> (r: usize)
        ensures
            r == self.rows().len(),
    {
        self.rows.len()
    }

    /// The position of a key.
    pub fn find(&self, k: &K) -> (r: Option<usize>)
        requires
            self.wf(),
        ensures
            match r {
                Some(i) => i < self.rows().len() && self.rows()[i as int].0 == *k && i == row_of(
                    self.rows(),
                    *k,
                ) && self.map().contains_key(*k) && self.map()[*k] == self.rows()[i as int].1,
                None => !self.map().contains_key(*k) && !has_key(self.rows(), *k),
            },
    {
        let mut i: usize = 0;
        while i < self.rows.len()
            invariant
                i <= self.rows.len(),
                self.wf(),
                forall|j: int| 0 <= j < i ==> (#[trigger] self.rows@[j]).0 != *k,
            decreases self.rows.len() - i,
        {
            if self.rows[i].0.same(k) {
                proof {
                    lemma_row(self.rows@, i as int);
                }
                return Some(i);
            }
            i = i + 1;
        }
        None
    }

    /// Whether a key has a row.
    pub fn contains(&self, k: &K) -> (r: bool)
        requires
            self.wf(),
        ensures
            r == self.map().contains_key(*k),
            r == has_key(self.rows(), *k),
    {
        self.find(k).is_some()
    }

    /// The value of a key.
    pub fn get(&self, k: &K) -> (r: Option<&V>)
        requires
            self.wf(),
        ensures
            match r {
                Some(v) => self.map().contains_key(*k) && *v == self.map()[*k],
                None => !self.map().contains_key(*k),
            },
    {
        match self.find(k) {
            Some(i) => Some(&self.rows[i].1),
            None => None,
        }
    }

    /// The key of a row.
    pub fn key_at(&self, i: usize) -> (r: K)
        requires
            i < self.rows().len(),
        ensures
            r == self.rows()[i as int].0,
    {
        self.rows[i].0
    }

    /// The value of a row.
    pub fn value_at(&self, i: usize) -> (r: &V)
        requires
            i < self.rows().len(),
        ensures
            *r == self.rows()[i as int].1,
    {
        &self.rows[i].1
    }

    /// Gives access to the value of a row.
    pub fn value_mut(&mut self, i: usize) -> (r: &mut V)
        requires
            old(self).wf(),
            i < old(self).rows().len(),
        ensures
            *r == old(self).rows()[i as int].1,
            final(self).wf(),
            final(self).rows() == old(self).rows().update(
                i as int,
                (old(self).rows()[i as int].0, *final(r)),
            ),
            final(self).map() == old(self).map().insert(old(self).rows()[i as int].0, *final(r)),
    {
        let ghost before = self.rows@;
        proof {
            assert forall|v: V| #[trigger] distinct_keys(before.update(i as int, (before[i as int].0, v)))
                && rows_map(before.update(i as int, (before[i as int].0, v))) == rows_map(before).insert(
                before[i as int].0,
                v,
            ) by {
                lemma_update(before, i as int, v);
            }
        }
        &mut self.rows[i].1
    }

    /// Replaces the value of a row.
    pub fn set_at(&mut self, i: usize, v: V)
        requires
            old(self).wf(),
            i < old(self).rows().len(),
        ensures
            final(self).wf(),
            final(self).rows() == old(self).rows().update(i as int, (old(self).rows()[i as int].0, v)),
            final(self).map() == old(self).map().insert(old(self).rows()[i as int].0, v),
    {
        let ghost before = self.rows@;
        let k = self.rows[i].0;
        self.rows.set(i, (k, v));
        proof {
            lemma_update(before, i as int, v);
        }
    }

    /// Appends a row under a new key.
    pub fn push_new(&mut self, k: K, v: V)
        requires
            old(self).wf(),
            !has_key(old(self).rows(), k),
        ensures
            final(self).wf(),
            final(self).rows() == old(self).rows().push((k, v)),
            final(self).map() == old(self).map().insert(k, v),
    {
        let ghost before = self.rows@;
        self.rows.push((k, v));
        proof {
            lemma_push(before, k, v);
        }
    }

    /// Sets the value of a key.
    pub fn put(&mut self, k: K, v: V)
        requires
            old(self).wf(),
        ensures
            final(self).wf(),
            final(self).map() == old(self).map().insert(k, v),
            final(self).rows() == (if has_key(old(self).rows(), k) {
                old(self).rows().update(row_of(old(self).rows(), k), (k, v))
            } else {
                old(self).rows().push((k, v))
            }),
    {
        match self.find(&k) {
            Some(i) => {
                self.set_at(i, v);
            },
            None => {
                self.push_new(k, v);
            },
        }
    }

    /// Removes a row and returns it; later rows move up.
    pub fn remove_at(&mut self, i: usize) -> (r: (K, V))
        requires
            old(self).wf(),
            i < old(self).rows().len(),
        ensures
            final(self).wf(),
            r == old(self).rows()[i as int],
            final(self).rows() == old(self).rows().remove(i as int),
            final(self).map() == old(self).map().remove(old(self).rows()[i as int].0),
    {
        let ghost before = self.rows@;
        let r = self.rows.remove(i);
        proof {
            lemma_remove(before, i as int);
        }
        r
    }

    /// Removes a key and returns its value.
    pub fn remove(&mut self, k: &K) -> (r: Option<V>)
        requires
            old(self).wf(),
        ensures
            final(self).wf(),
            final(self).map() == old(self).map().remove(*k),
            r == (if old(self).map().contains_key(*k) {
                Some(old(self).map()[*k])
            } else {
                None
            }),
            final(self).rows() == (if has_key(old(self).rows(), *k) {
                old(self).rows().remove(row_of(old(self).rows(), *k))
            } else {
                old(self).rows()
            }),
    {
        match self.find(k) {
            Some(i) => {
                let row = self.remove_at(i);
                Some(row.1)
            },
            None => {
                assert(self.map().remove(*k) =~= self.map());
                None
            },
        }
    }

    /// Removes all rows.
    pub fn clear(&mut self)
        ensures
            final(self).wf(),
            final(self).rows() == Seq::<(K, V)>::empty(),
            final(self).map() == Map::<K, V>::empty(),
    {
        self.rows.clear();
        assert(rows_map(self.rows@) =~= Map::<K, V>::empty());
    }
}

/// A key that belongs to a view.
pub trait ViewKey: Key {
    /// The view of the key.
    spec fn at(self) -> u64;

    /// The view of the key.
    fn view_number(&self) -> (r: u64)
        ensures
            r == self.at(),
    ;
}

impl ViewKey for u64 {
    open spec fn at(self) -> u64 {
        self
    }

    fn view_number(&self) -> (r: u64) {
        *self
    }
}

/// The keys of a view or later.
pub open spec fn keys_from<K: ViewKey>(view: u64) -> spec_fn(K) -> bool {
    |k: K| k.at() >= view
}

/// A test that decides which keys stay in a table.
pub trait KeyTest<K> {
    /// The key stays.
    spec fn keeps(&self, k: K) -> bool;

    /// Whether a key stays.
    fn test(&self, k: &K) -> (r: bool)
        ensures
            r == self.keeps(*k),
    ;
}

/// Keeps the keys of a view or later.
struct FromView {
    view: u64,
}

impl<K: ViewKey> KeyTest<K> for FromView {
    closed spec fn keeps(&self, k: K) -> bool {
        k.at() >= self.view
    }

    fn test(&self, k: &K) -> (r: bool) {
        k.view_number() >= self.view
    }
}

/// Keeps the keys outside a list.
struct Outside<'a> {
    list: &'a Vec<Hash32>,
}

impl<'a> KeyTest<Hash32> for Outside<'a> {
    closed spec fn keeps(&self, k: Hash32) -> bool {
        !self.list@.contains(k)
    }

    fn test(&self, k: &Hash32) -> (r: bool) {
        !contains_hash(self.list, k)
    }
}

/// Keeps the keys inside a list.
struct Inside<'a> {
    list: &'a Vec<Hash32>,
}

impl<'a> KeyTest<Hash32> for Inside<'a> {
    closed spec fn keeps(&self, k: Hash32) -> bool {
        self.list@.contains(k)
    }

    fn test(&self, k: &Hash32) -> (r: bool) {
        contains_hash(self.list, k)
    }
}

impl<K: ViewKey, V> Table<K, V> {
    /// Keeps the rows of a view or later.
    pub fn retain_from(&mut self, view: u64)
        requires
            old(self).wf(),
        ensures
            final(self).wf(),
            final(self).rows() == rows_where(old(self).rows(), keys_from::<K>(view)),
            final(self).map() == old(self).map().restrict(Set::new(keys_from::<K>(view))),
    {
        let t = FromView { view };
        self.retain_if(&t, Ghost(keys_from::<K>(view)));
    }
}

impl<V> Table<Hash32, V> {
    /// Removes the rows whose keys are in a list.
    pub fn remove_all(&mut self, list: &Vec<Hash32>)
        requires
            old(self).wf(),
        ensures
            final(self).wf(),
            final(self).rows() == rows_where(old(self).rows(), |k: Hash32| !list@.contains(k)),
            final(self).map() == old(self).map().restrict(Set::new(|k: Hash32| !list@.contains(k))),
    {
        let t = Outside { list };
        self.retain_if(&t, Ghost(|k: Hash32| !list@.contains(k)));
    }

    /// Keeps the rows whose keys are in a list.
    pub fn keep_only(&mut self, list: &Vec<Hash32>)
        requires
            old(self).wf(),
        ensures
            final(self).wf(),
            final(self).rows() == rows_where(old(self).rows(), |k: Hash32| list@.contains(k)),
            final(self).map() == old(self).map().restrict(Set::new(|k: Hash32| list@.contains(k))),
    {
        let t = Inside { list };
        self.retain_if(&t, Ghost(|k: Hash32| list@.contains(k)));
    }
}

impl<K: Key, V> Table<K, V> {
    /// Keeps the rows whose keys pass a test.
    fn retain_if<T: KeyTest<K>>(&mut self, t: &T, keep: Ghost<spec_fn(K) -> bool>)
        requires
            old(self).wf(),
            forall|k: K| #[trigger] t.keeps(k) == keep@(k),
        ensures
            final(self).wf(),
            final(self).rows() == rows_where(old(self).rows(), keep@),
            final(self).map() == old(self).map().restrict(Set::new(keep@)),
    {
        let ghost before = self.rows@;
        let ghost p = |row: (K, V)| keep@(row.0);
        let ghost mut j: int = 0;
        let mut i: usize = 0;
        assert(before.take(0).filter(p) =~= Seq::empty());
        assert(before.skip(0) =~= before);
        while i < self.rows.len()
            invariant
                0 <= j <= before.len(),
                i <= self.rows.len(),
                forall|k: K| #[trigger] t.keeps(k) == keep@(k),
                p == (|row: (K, V)| keep@(row.0)),
                i == before.take(j).filter(p).len(),
                self.rows@ == before.take(j).filter(p) + before.skip(j),
            decreases self.rows.len() - i,
        {
            let k = self.rows[i].0;
            proof {
                assert(j < before.len());
                assert(self.rows@[i as int] == before[j]);
                assert(before.take(j + 1).drop_last() =~= before.take(j));
                assert(before.take(j + 1).last() == before[j]);
                reveal(Seq::filter);
            }
            if t.test(&k) {
                assert(p(before[j]));
                assert(before.take(j + 1).filter(p) =~= before.take(j).filter(p).push(before[j]));
                assert(self.rows@ =~= before.take(j + 1).filter(p) + before.skip(j + 1));
                i = i + 1;
            } else {
                assert(!p(before[j]));
                let _row = self.rows.remove(i);
                assert(before.take(j + 1).filter(p) =~= before.take(j).filter(p));
                assert(self.rows@ =~= before.take(j + 1).filter(p) + before.skip(j + 1));
            }
            proof {
                j = j + 1;
            }
        }
        proof {
            assert(j == before.len());
            assert(before.take(j) =~= before);
            assert(self.rows@ =~= before.filter(p));
            lemma_rows_where(before, keep@);
        }
    }
}

/// Keeping some rows keeps their keys distinct and restricts the map.
pub proof fn lemma_rows_where<K, V>(rows: Seq<(K, V)>, keep: spec_fn(K) -> bool)
    requires
        distinct_keys(rows),
    ensures
        distinct_keys(rows_where(rows, keep)),
        rows_map(rows_where(rows, keep)) == rows_map(rows).restrict(Set::new(keep)),
    decreases rows.len(),
{
    let p = |row: (K, V)| keep(row.0);
    let after = rows_where(rows, keep);
    reveal(Seq::filter);
    if rows.len() == 0 {
        assert(rows_map(after) =~= rows_map(rows).restrict(Set::new(keep)));
    } else {
        let front = rows.drop_last();
        let (k, v) = rows.last();
        assert(distinct_keys(front));
        lemma_rows_where(front, keep);
        assert(rows =~= front.push((k, v)));
        assert(!has_key(front, k)) by {
            if has_key(front, k) {
                let i = row_of(front, k);
                assert(front[i] == rows[i]);
                assert(rows[i].0 == rows[rows.len() - 1].0);
            }
        }
        lemma_push(front, k, v);
        if keep(k) {
            assert(after =~= rows_where(front, keep).push((k, v)));
            assert(!has_key(rows_where(front, keep), k)) by {
                if has_key(rows_where(front, keep), k) {
                    assert(rows_map(rows_where(front, keep)).contains_key(k));
                    assert(rows_map(front).contains_key(k));
                }
            }
            lemma_push(rows_where(front, keep), k, v);
            assert(rows_map(after) =~= rows_map(rows).restrict(Set::new(keep)));
        } else {
            assert(after =~= rows_where(front, keep));
            assert(rows_map(after) =~= rows_map(rows).restrict(Set::new(keep)));
        }
    }
}

proof fn lemma_update<K, V>(rows: Seq<(K, V)>, i: int, v: V)
    requires
        distinct_keys(rows),
        0 <= i < rows.len(),
    ensures
        distinct_keys(rows.update(i, (rows[i].0, v))),
        rows_map(rows.update(i, (rows[i].0, v))) == rows_map(rows).insert(rows[i].0, v),
{
    let after = rows.update(i, (rows[i].0, v));
    assert forall|j: int| 0 <= j < rows.len() implies (#[trigger] after[j]).0 == rows[j].0 by {}
    assert(distinct_keys(after)) by {
        assert forall|a: int, b: int|
            0 <= a < after.len() && 0 <= b < after.len() && a != b implies (#[trigger] after[a]).0
            != (#[trigger] after[b]).0 by {
            assert(rows[a].0 != rows[b].0);
        }
    }
    assert forall|k: K| has_key(after, k) <==> has_key(rows, k) by {
        if has_key(after, k) {
            let j = row_of(after, k);
            assert(rows[j].0 == k);
        }
        if has_key(rows, k) {
            let j = row_of(rows, k);
            assert(after[j].0 == k);
        }
    }
    assert(has_key(rows, rows[i].0));
    assert forall|k: K| has_key(after, k) implies rows_map(after)[k] == rows_map(rows).insert(
        rows[i].0,
        v,
    )[k] by {
        let j = row_of(after, k);
        lemma_row(after, j);
        lemma_row(rows, j);
        lemma_row(after, i);
    }
    assert(rows_map(after) =~= rows_map(rows).insert(rows[i].0, v));
}

pub(crate) proof fn lemma_push<K, V>(rows: Seq<(K, V)>, k: K, v: V)
    requires
        distinct_keys(rows),
        !has_key(rows, k),
    ensures
        distinct_keys(rows.push((k, v))),
        rows_map(rows.push((k, v))) == rows_map(rows).insert(k, v),
{
    let after = rows.push((k, v));
    assert forall|j: int| 0 <= j < rows.len() implies #[trigger] after[j] == rows[j] by {}
    assert(after[rows.len() as int] == (k, v));
    assert(distinct_keys(after)) by {
        assert forall|a: int, b: int|
            0 <= a < after.len() && 0 <= b < after.len() && a != b implies (#[trigger] after[a]).0
            != (#[trigger] after[b]).0 by {
            if a < rows.len() && b < rows.len() {
                assert(rows[a].0 != rows[b].0);
            } else if a < rows.len() {
                assert(rows[a].0 != k);
            } else {
                assert(rows[b].0 != k);
            }
        }
    }
    assert forall|x: K| has_key(after, x) <==> has_key(rows, x) || x == k by {
        if has_key(after, x) {
            let j = row_of(after, x);
            if j < rows.len() {
                assert(rows[j].0 == x);
            }
        }
        if has_key(rows, x) {
            let j = row_of(rows, x);
            assert(after[j].0 == x);
        }
        if x == k {
            assert(after[rows.len() as int].0 == x);
        }
    }
    assert forall|x: K| has_key(after, x) implies rows_map(after)[x] == rows_map(rows).insert(k, v)[x] by {
        let j = row_of(after, x);
        lemma_row(after, j);
        if j < rows.len() {
            lemma_row(rows, j);
        }
    }
    assert(rows_map(after) =~= rows_map(rows).insert(k, v));
}

proof fn lemma_remove<K, V>(rows: Seq<(K, V)>, i: int)
    requires
        distinct_keys(rows),
        0 <= i < rows.len(),
    ensures
        distinct_keys(rows.remove(i)),
        rows_map(rows.remove(i)) == rows_map(rows).remove(rows[i].0),
{
    let after = rows.remove(i);
    let k = rows[i].0;
    assert forall|j: int| 0 <= j < after.len() implies #[trigger] after[j] == rows[if j < i {
        j
    } else {
        j + 1
    }] by {}
    assert(distinct_keys(after)) by {
        assert forall|a: int, b: int|
            0 <= a < after.len() && 0 <= b < after.len() && a != b implies (#[trigger] after[a]).0
            != (#[trigger] after[b]).0 by {
            let a2 = if a < i { a } else { a + 1 };
            let b2 = if b < i { b } else { b + 1 };
            assert(rows[a2].0 != rows[b2].0);
        }
    }
    assert forall|x: K| has_key(after, x) <==> has_key(rows, x) && x != k by {
        if has_key(after, x) {
            let j = row_of(after, x);
            let j2 = if j < i { j } else { j + 1 };
            assert(rows[j2].0 == x);
            assert(rows[j2].0 != rows[i].0);
        }
        if has_key(rows, x) && x != k {
            let j = row_of(rows, x);
            let j2 = if j < i { j } else { j - 1 };
            assert(after[j2].0 == x);
        }
    }
    assert forall|x: K| has_key(after, x) implies rows_map(after)[x] == rows_map(rows).remove(k)[x] by {
        let j = row_of(after, x);
        lemma_row(after, j);
        let j2 = if j < i { j } else { j + 1 };
        lemma_row(rows, j2);
    }
    assert(rows_map(after) =~= rows_map(rows).remove(k));
}

/// The keys from a view on are those of that view or a later one.
pub proof fn lemma_keys_from<K: ViewKey>(view: u64, k: K)
    ensures
        keys_from::<K>(view)(k) <==> k.at() >= view,
{
}

} // verus!
