//! A table ordered by key: what is looked up by key is a map, what is walked
//! is a sequence of rows in ascending key order, and the one determines the
//! other.

use vstd::prelude::*;

verus! {

/// How one key stands to another.
#[derive(Clone, Copy)]
pub enum Place {
    Before,
    Same,
    After,
}

/// What can be copied without a change to its view.
pub trait Duplicate: View + Sized {
    fn duplicate(&self) -> (r: Self)
        ensures
            r@ == self@,
    ;
}

impl Duplicate for String {
    fn duplicate(&self) -> (r: Self) {
        self.clone()
    }
}

/// What can be a key: its view is totally ordered by `precedes`.
pub trait TableKey: View + Sized {
    spec fn precedes(a: Self::V, b: Self::V) -> bool;

    proof fn irreflexive(a: Self::V)
        ensures
            !Self::precedes(a, a),
    ;

    proof fn transitive(a: Self::V, b: Self::V, c: Self::V)
        requires
            Self::precedes(a, b),
            Self::precedes(b, c),
        ensures
            Self::precedes(a, c),
    ;

    proof fn total(a: Self::V, b: Self::V)
        ensures
            a == b || Self::precedes(a, b) || Self::precedes(b, a),
    ;

    fn place(&self, other: &Self) -> (r: Place)
        ensures
            match r {
                Place::Before => Self::precedes(self@, other@),
                Place::Same => self@ == other@,
                Place::After => Self::precedes(other@, self@),
            },
    ;
}

/// The keys of `rows` grow strictly from one row to the next.
pub open spec fn ascending<K: TableKey, W>(rows: Seq<(K::V, W)>) -> bool {
    forall|i: int, j: int|
        0 <= i < j < rows.len() ==> K::precedes(#[trigger] rows[i].0, #[trigger] rows[j].0)
}

/// `rows` holds a row with key `k`.
pub open spec fn has_row<A, W>(rows: Seq<(A, W)>, k: A) -> bool {
    exists|i: int| 0 <= i < rows.len() && (#[trigger] rows[i]).0 == k
}

/// The map from each key of `rows` to what stands beside it.
pub open spec fn row_map<A, W>(rows: Seq<(A, W)>) -> Map<A, W> {
    Map::new(
        |k: A| has_row(rows, k),
        |k: A| rows[choose|i: int| 0 <= i < rows.len() && (#[trigger] rows[i]).0 == k].1,
    )
}

/// The first `i + 1` rows hold the keys of the first `i` and of row `i`.
pub proof fn lemma_has_row_grows<A, W>(rows: Seq<(A, W)>, i: int, k: A)
    requires
        0 <= i < rows.len(),
    ensures
        has_row(rows.take(i + 1), k) <==> has_row(rows.take(i), k) || rows[i].0 == k,
{
    let a = rows.take(i);
    let b = rows.take(i + 1);
    if has_row(a, k) {
        let j = choose|j: int| 0 <= j < a.len() && (#[trigger] a[j]).0 == k;
        assert(b[j].0 == k);
    }
    if rows[i].0 == k {
        assert(b[i].0 == k);
    }
    if has_row(b, k) && rows[i].0 != k {
        let j = choose|j: int| 0 <= j < b.len() && (#[trigger] b[j]).0 == k;
        assert(a[j].0 == k);
    }
}

/// Every row is found under its key.
pub proof fn lemma_row_found<K: TableKey, W>(rows: Seq<(K::V, W)>, i: int)
    requires
        ascending::<K, W>(rows),
        0 <= i < rows.len(),
    ensures
        row_map(rows).contains_key(rows[i].0),
        row_map(rows)[rows[i].0] == rows[i].1,
{
    let k = rows[i].0;
    let j = choose|j: int| 0 <= j < rows.len() && (#[trigger] rows[j]).0 == k;
    assert(rows[i].0 == k);
    assert(0 <= j < rows.len() && rows[j].0 == k);
    if i < j {
        assert(K::precedes(rows[i].0, rows[j].0));
        K::irreflexive(k);
    } else if j < i {
        assert(K::precedes(rows[j].0, rows[i].0));
        K::irreflexive(k);
    }
}

/// Without its last row, a table maps all keys but that row's, as before.
proof fn lemma_row_map_drop_last<K: TableKey, W>(rows: Seq<(K::V, W)>)
    requires
        ascending::<K, W>(rows),
        rows.len() > 0,
    ensures
        ascending::<K, W>(rows.drop_last()),
        row_map(rows.drop_last()) == row_map(rows).remove(rows.last().0),
{
    let short = rows.drop_last();
    let last = rows.last().0;
    assert(ascending::<K, W>(short)) by {
        assert forall|i: int, j: int| 0 <= i < j < short.len() implies K::precedes(
            #[trigger] short[i].0,
            #[trigger] short[j].0,
        ) by {
            assert(K::precedes(rows[i].0, rows[j].0));
        }
    }
    let a = row_map(short);
    let b = row_map(rows).remove(last);
    assert forall|k: K::V| #[trigger] a.dom().contains(k) implies b.dom().contains(k) && a[k] == b[k] by {
        let i = choose|i: int| 0 <= i < short.len() && (#[trigger] short[i]).0 == k;
        assert(rows[i] == short[i]);
        lemma_row_found::<K, W>(short, i);
        lemma_row_found::<K, W>(rows, i);
        assert(K::precedes(rows[i].0, rows[rows.len() - 1].0));
        K::irreflexive(k);
    }
    assert forall|k: K::V| #[trigger] b.dom().contains(k) implies a.dom().contains(k) by {
        assert(row_map(rows).dom().contains(k));
        assert(has_row(rows, k));
        let i = choose|i: int| 0 <= i < rows.len() && (#[trigger] rows[i]).0 == k;
        assert(k != last);
        assert(i < short.len());
        assert(short[i] == rows[i]);
        assert(has_row(short, k));
    }
    assert(a =~= b);
}

/// Two ascending tables with the same map are the same, row for row.
pub proof fn lemma_rows_determined<K: TableKey, W>(a: Seq<(K::V, W)>, b: Seq<(K::V, W)>)
    requires
        ascending::<K, W>(a),
        ascending::<K, W>(b),
        row_map(a) == row_map(b),
    ensures
        a == b,
    decreases a.len(),
{
    if a.len() == 0 {
        if b.len() > 0 {
            lemma_row_found::<K, W>(b, 0);
            assert(row_map(a).contains_key(b[0].0));
        }
        assert(a =~= b);
    } else {
        let k = a.last().0;
        lemma_row_found::<K, W>(a, a.len() - 1);
        let j = choose|j: int| 0 <= j < b.len() && (#[trigger] b[j]).0 == k;
        assert(row_map(b).contains_key(k));
        let m = b.last().0;
        lemma_row_found::<K, W>(b, b.len() - 1);
        assert(row_map(a).contains_key(m));
        let i = choose|i: int| 0 <= i < a.len() && (#[trigger] a[i]).0 == m;
        if j < b.len() - 1 {
            assert(K::precedes(b[j].0, b[b.len() - 1].0));
            if i < a.len() - 1 {
                assert(K::precedes(a[i].0, a[a.len() - 1].0));
                K::transitive(k, m, k);
            }
            K::irreflexive(k);
        }
        assert(m == k);
        lemma_row_map_drop_last::<K, W>(a);
        lemma_row_map_drop_last::<K, W>(b);
        lemma_rows_determined::<K, W>(a.drop_last(), b.drop_last());
        assert(a =~= a.drop_last().push(a.last()));
        assert(b =~= b.drop_last().push(b.last()));
    }
}

/// A table from keys to values.
#[derive(Debug, PartialEq, Eq)]
pub struct Table<K: TableKey, T: View> {
    entries: Vec<(K, T)>,
}

impl<K: TableKey, T: View> View for Table<K, T> {
    type V = Map<K::V, T::V>;

    open spec fn view(&self) -> Map<K::V, T::V> {
        row_map(self.rows())
    }
}

impl<K: TableKey, T: View> Table<K, T> {
    /// The rows in ascending key order.
    pub closed spec fn rows(&self) -> Seq<(K::V, T::V)> {
        self.entries@.map_values(|e: (K, T)| (e.0@, e.1@))
    }

    /// The rows are in ascending key order.
    #[verifier::type_invariant]
    pub open spec fn in_order(&self) -> bool {
        ascending::<K, T::V>(self.rows())
    }

    /// An empty table.
    pub fn new() -> (r: Self)
        ensures
            r.rows() == Seq::<(K::V, T::V)>::empty(),
            r@ == Map::<K::V, T::V>::empty(),
    {
        let entries: Vec<(K, T)> = Vec::new();
        let r = Table { entries };
        assert(r.rows() =~= Seq::<(K::V, T::V)>::empty());
        assert(r@ =~= Map::<K::V, T::V>::empty());
        r
    }

    /// The number of rows.
    pub fn len(&self) -> (n: usize)
        ensures
            n == self.rows().len(),
    {
        self.entries.len()
    }

    /// Has the table no row?
    pub fn is_empty(&self) -> (r: bool)
        ensures
            r == (self.rows().len() == 0),
    {
        self.entries.len() == 0
    }

    /// The key of row `i`.
    pub fn key_at(&self, i: usize) -> (k: &K)
        requires
            i < self.rows().len(),
        ensures
            k@ == self.rows()[i as int].0,
    {
        &self.entries[i].0
    }

    /// The value of row `i`.
    pub fn value_at(&self, i: usize) -> (v: &T)
        requires
            i < self.rows().len(),
        ensures
            v@ == self.rows()[i as int].1,
    {
        &self.entries[i].1
    }

    /// The place of `k`: the number of rows whose keys come before it.
    fn search(&self, k: &K) -> (p: usize)
        ensures
            p <= self.rows().len(),
            forall|i: int| 0 <= i < p ==> K::precedes(#[trigger] self.rows()[i].0, k@),
            forall|i: int| p <= i < self.rows().len() ==> !K::precedes(#[trigger] self.rows()[i].0, k@),
    {
        proof {
            use_type_invariant(self);
        }
        let ghost rows = self.rows();
        let mut lo: usize = 0;
        let mut hi: usize = self.entries.len();
        while lo < hi
            invariant
                rows == self.rows(),
                rows.len() == self.entries@.len(),
                ascending::<K, T::V>(rows),
                lo <= hi <= rows.len(),
                forall|i: int| 0 <= i < lo ==> K::precedes(#[trigger] rows[i].0, k@),
                forall|i: int| hi <= i < rows.len() ==> !K::precedes(#[trigger] rows[i].0, k@),
            decreases hi - lo,
        {
            let mid: usize = lo + (hi - lo) / 2;
            assert(rows[mid as int].0 == self.entries@[mid as int].0@);
            match self.entries[mid].0.place(k) {
                Place::Before => {
                    proof {
                        assert forall|i: int| 0 <= i < mid + 1 implies K::precedes(
                            #[trigger] rows[i].0,
                            k@,
                        ) by {
                            if i < mid {
                                K::transitive(rows[i].0, rows[mid as int].0, k@);
                            }
                        }
                    }
                    lo = mid + 1;
                },
                _ => {
                    proof {
                        assert forall|i: int| mid <= i < rows.len() implies !K::precedes(
                            #[trigger] rows[i].0,
                            k@,
                        ) by {
                            if K::precedes(rows[i].0, k@) {
                                if mid < i {
                                    K::transitive(rows[mid as int].0, rows[i].0, k@);
                                }
                                if K::precedes(k@, rows[mid as int].0) {
                                    K::transitive(rows[mid as int].0, k@, rows[mid as int].0);
                                }
                                K::irreflexive(rows[mid as int].0);
                            }
                        }
                    }
                    hi = mid;
                },
            }
        }
        lo
    }

    /// The value under `k`, if there is one.
    pub fn get(&self, k: &K) -> (r: Option<&T>)
        ensures
            match r {
                Some(v) => self@.contains_key(k@) && v@ == self@[k@],
                None => !self@.contains_key(k@),
            },
    {
        let p: usize = self.search(k);
        proof {
            use_type_invariant(self);
        }
        let ghost rows = self.rows();
        if p < self.entries.len() {
            assert(rows[p as int].0 == self.entries@[p as int].0@);
            if let Place::Same = self.entries[p].0.place(k) {
                proof {
                    lemma_row_found::<K, T::V>(rows, p as int);
                }
                return Some(&self.entries[p].1);
            }
        }
        proof {
            if self@.contains_key(k@) {
                let i = choose|i: int| 0 <= i < rows.len() && (#[trigger] rows[i]).0 == k@;
                K::irreflexive(k@);
                if p < i {
                    K::total(rows[p as int].0, k@);
                    assert(K::precedes(rows[p as int].0, rows[i].0));
                }
            }
        }
        None
    }

    /// Is there a row with key `k`?
    pub fn contains_key(&self, k: &K) -> (r: bool)
        ensures
            r == self@.contains_key(k@),
    {
        match self.get(k) {
            Some(_) => true,
            None => false,
        }
    }

    /// Puts `v` under `k`, in place of what was there.
    pub fn insert(&mut self, k: K, v: T)
        ensures
            final(self)@ == old(self)@.insert(k@, v@),
    {
        let p: usize = self.search(&k);
        proof {
            use_type_invariant(&*self);
        }
        let ghost rows = self.rows();
        let ghost was = self@;
        let mut entries: Vec<(K, T)> = Vec::new();
        std::mem::swap(&mut entries, &mut self.entries);
        let ghost raw = entries@;
        assert(rows == raw.map_values(|e: (K, T)| (e.0@, e.1@)));
        let here: bool = if p < entries.len() {
            assert(rows[p as int].0 == raw[p as int].0@);
            match entries[p].0.place(&k) {
                Place::Same => true,
                _ => false,
            }
        } else {
            false
        };
        if here {
            entries.set(p, (k, v));
            let ghost now = rows.update(p as int, (k@, v@));
            proof {
                assert(entries@.map_values(|e: (K, T)| (e.0@, e.1@)) =~= now);
                assert(ascending::<K, T::V>(now)) by {
                    assert forall|i: int, j: int| 0 <= i < j < now.len() implies K::precedes(
                        #[trigger] now[i].0,
                        #[trigger] now[j].0,
                    ) by {
                        assert(now[i].0 == rows[i].0 && now[j].0 == rows[j].0);
                    }
                }
                lemma_row_map_put::<K, T::V>(rows, now, p as int, k@, v@);
            }
            self.entries = entries;
        } else {
            entries.insert(p, (k, v));
            let ghost now = rows.insert(p as int, (k@, v@));
            proof {
                assert(entries@.map_values(|e: (K, T)| (e.0@, e.1@)) =~= now);
                assert(ascending::<K, T::V>(now)) by {
                    assert forall|i: int, j: int| 0 <= i < j < now.len() implies K::precedes(
                        #[trigger] now[i].0,
                        #[trigger] now[j].0,
                    ) by {
                        let oi = if i < p { i } else { i - 1 };
                        let oj = if j < p { j } else { j - 1 };
                        if i == p {
                            assert(rows[oj].0 == now[j].0);
                            K::total(rows[oj].0, k@);
                            if rows[oj].0 == k@ && p < oj {
                                K::total(rows[p as int].0, k@);
                                assert(K::precedes(rows[p as int].0, rows[oj].0));
                            }
                        } else if j == p {
                            assert(rows[oi].0 == now[i].0);
                        } else {
                            assert(rows[oi].0 == now[i].0 && rows[oj].0 == now[j].0);
                        }
                    }
                }
                lemma_row_map_insert::<K, T::V>(rows, now, p as int, k@, v@);
            }
            self.entries = entries;
        }
    }

    /// Takes the row with key `k` out, if there is one.
    pub fn remove(&mut self, k: &K)
        ensures
            final(self)@ == old(self)@.remove(k@),
    {
        let p: usize = self.search(k);
        let present: bool = self.contains_key(k);
        proof {
            use_type_invariant(&*self);
        }
        let ghost rows = self.rows();
        if present {
            proof {
                let i = choose|i: int| 0 <= i < rows.len() && (#[trigger] rows[i]).0 == k@;
                K::irreflexive(k@);
                if p < i {
                    assert(K::precedes(rows[p as int].0, rows[i].0));
                }
                assert(i == p);
            }
            let mut entries: Vec<(K, T)> = Vec::new();
            std::mem::swap(&mut entries, &mut self.entries);
            let _ = entries.remove(p);
            let ghost now = rows.remove(p as int);
            proof {
                assert(entries@.map_values(|e: (K, T)| (e.0@, e.1@)) =~= now);
                assert(ascending::<K, T::V>(now)) by {
                    assert forall|i: int, j: int| 0 <= i < j < now.len() implies K::precedes(
                        #[trigger] now[i].0,
                        #[trigger] now[j].0,
                    ) by {
                        let oi = if i < p { i } else { i + 1 };
                        let oj = if j < p { j } else { j + 1 };
                        assert(rows[oi].0 == now[i].0 && rows[oj].0 == now[j].0);
                    }
                }
                assert(rows =~= now.insert(p as int, (k@, rows[p as int].1)));
                lemma_row_map_insert::<K, T::V>(now, rows, p as int, k@, rows[p as int].1);
                if row_map(now).contains_key(k@) {
                    let i = choose|i: int| 0 <= i < now.len() && (#[trigger] now[i]).0 == k@;
                    let oi = if i < p { i } else { i + 1 };
                    assert(rows[oi].0 == k@);
                    if oi < p {
                        assert(K::precedes(rows[oi].0, rows[p as int].0));
                    } else {
                        assert(K::precedes(rows[p as int].0, rows[oi].0));
                    }
                    K::irreflexive(k@);
                }
                assert(row_map(now) =~= row_map(rows).remove(k@));
            }
            self.entries = entries;
        } else {
            assert(self@ =~= self@.remove(k@));
        }
    }
}

impl<K: TableKey + Duplicate, T: Duplicate> Clone for Table<K, T> {
    /// A table with the same rows.
    fn clone(&self) -> (r: Self)
        ensures
            r.rows() == self.rows(),
            r@ == self@,
    {
        proof {
            use_type_invariant(self);
        }
        let mut entries: Vec<(K, T)> = Vec::new();
        for i in 0..self.entries.len()
            invariant
                entries@.map_values(|e: (K, T)| (e.0@, e.1@)) == self.rows().take(i as int),
        {
            let ghost before = entries@;
            entries.push((self.entries[i].0.duplicate(), self.entries[i].1.duplicate()));
            assert(entries@.map_values(|e: (K, T)| (e.0@, e.1@)) =~= before.map_values(
                |e: (K, T)| (e.0@, e.1@),
            ).push(self.rows()[i as int]));
            assert(self.rows().take(i + 1) =~= self.rows().take(i as int).push(
                self.rows()[i as int],
            ));
        }
        assert(self.rows().take(self.entries@.len() as int) =~= self.rows());
        Table { entries }
    }
}

/// Changing the value of one row changes the map under that key.
proof fn lemma_row_map_put<K: TableKey, W>(
    rows: Seq<(K::V, W)>,
    now: Seq<(K::V, W)>,
    p: int,
    k: K::V,
    w: W,
)
    requires
        ascending::<K, W>(rows),
        ascending::<K, W>(now),
        0 <= p < rows.len(),
        rows[p].0 == k,
        now == rows.update(p, (k, w)),
    ensures
        row_map(now) == row_map(rows).insert(k, w),
{
    let a = row_map(now);
    let b = row_map(rows).insert(k, w);
    assert forall|q: K::V| a.contains_key(q) implies b.contains_key(q) && a[q] == b[q] by {
        let i = choose|i: int| 0 <= i < now.len() && (#[trigger] now[i]).0 == q;
        lemma_row_found::<K, W>(now, i);
        lemma_row_found::<K, W>(rows, i);
        if i != p && q == k {
            lemma_row_found::<K, W>(now, p);
            if i < p {
                assert(K::precedes(now[i].0, now[p].0));
            } else {
                assert(K::precedes(now[p].0, now[i].0));
            }
            K::irreflexive(k);
        }
    }
    assert forall|q: K::V| b.contains_key(q) implies a.contains_key(q) by {
        if q == k {
            assert(now[p].0 == k);
        } else {
            let i = choose|i: int| 0 <= i < rows.len() && (#[trigger] rows[i]).0 == q;
            assert(now[i].0 == q);
        }
    }
    assert(a =~= b);
}

/// A new row adds its key to the map.
proof fn lemma_row_map_insert<K: TableKey, W>(
    rows: Seq<(K::V, W)>,
    now: Seq<(K::V, W)>,
    p: int,
    k: K::V,
    w: W,
)
    requires
        ascending::<K, W>(rows),
        ascending::<K, W>(now),
        0 <= p <= rows.len(),
        now == rows.insert(p, (k, w)),
    ensures
        row_map(now) == row_map(rows).insert(k, w),
{
    let a = row_map(now);
    let b = row_map(rows).insert(k, w);
    lemma_row_found::<K, W>(now, p);
    assert forall|q: K::V| a.contains_key(q) implies b.contains_key(q) && a[q] == b[q] by {
        if q != k {
            let i = choose|i: int| 0 <= i < now.len() && (#[trigger] now[i]).0 == q;
            let oi = if i < p { i } else { i - 1 };
            assert(rows[oi] == now[i]);
            lemma_row_found::<K, W>(now, i);
            lemma_row_found::<K, W>(rows, oi);
        }
    }
    assert forall|q: K::V| b.contains_key(q) implies a.contains_key(q) by {
        if q != k {
            let i = choose|i: int| 0 <= i < rows.len() && (#[trigger] rows[i]).0 == q;
            let ni = if i < p { i } else { i + 1 };
            assert(now[ni] == rows[i]);
        }
    }
    assert(a =~= b);
}

} // verus!
