//! Tables: rows that are found by a key of texts, each key at most once.

use crate::store::order::{list_is_no_later, list_no_later, list_order_carries, list_order_is_total};
use crate::text::texts;
use vstd::prelude::*;
use vstd::string::*;

verus! {

/// The key of a row: the texts of its key columns.
pub type RowKey = Seq<Seq<char>>;

/// What a table holds: rows with a key.
pub trait Row: View + Sized {
    /// The key of a row.
    spec fn key_of(row: Self::V) -> RowKey;

    /// The texts of the key columns.
    fn key(&self) -> (k: Vec<String>)
        ensures
            texts(k@) == Self::key_of(self@),
    ;

    /// The texts by which a row is ordered among others.
    spec fn rank_of(row: Self::V) -> RowKey;

    /// The texts of the columns that order the row.
    fn rank(&self) -> (k: Vec<String>)
        ensures
            texts(k@) == Self::rank_of(self@),
    ;

    /// The row once more.
    fn copy(&self) -> (r: Self)
        ensures
            r@ == self@,
    ;
}

/// A test on rows.
pub trait Pick<R: Row> {
    /// Whether a row passes.
    spec fn picks(&self, row: R::V) -> bool;

    /// Tests a row.
    fn picks_row(&self, row: &R) -> (r: bool)
        ensures
            r == self.picks(row@),
    ;
}

/// A change of rows that leaves their keys.
pub trait Alter<R: Row> {
    /// What a row becomes.
    spec fn altered(&self, row: R::V) -> R::V;

    /// Changes a row.
    fn alter(&self, row: R) -> (r: R)
        ensures
            r@ == self.altered(row@),
            R::key_of(r@) == R::key_of(row@),
    ;
}

/// That no two rows share a key.
pub open spec fn keys_differ<R: Row>(rows: Seq<R>) -> bool {
    forall|i: int, j: int|
        0 <= i < j < rows.len() ==> R::key_of((#[trigger] rows[i])@) != R::key_of(
            (#[trigger] rows[j])@,
        )
}

/// The place of a key among rows.
pub open spec fn stands_at<R: Row>(rows: Seq<R>, key: RowKey, i: int) -> bool {
    0 <= i < rows.len() && R::key_of(rows[i]@) == key
}

/// The rows by their keys.
pub open spec fn by_key<R: Row>(rows: Seq<R>) -> Map<RowKey, R::V> {
    Map::new(
        |k: RowKey| exists|i: int| #[trigger] stands_at(rows, k, i),
        |k: RowKey| rows[choose|i: int| #[trigger] stands_at(rows, k, i)]@,
    )
}

/// What is left of a table when the rows that pass are gone.
pub open spec fn without<R: Row, P: Pick<R>>(
    rows: Map<RowKey, R::V>,
    p: P,
) -> Map<RowKey, R::V> {
    rows.restrict(rows.dom().filter(|k: RowKey| !p.picks(rows[k])))
}

/// What of a table passes a test.
pub open spec fn kept<R: Row, P: Pick<R>>(rows: Map<RowKey, R::V>, p: P) -> Map<RowKey, R::V> {
    rows.restrict(rows.dom().filter(|k: RowKey| p.picks(rows[k])))
}

/// That a row of a table passes a test.
pub open spec fn some_row<R: Row, P: Pick<R>>(rows: Map<RowKey, R::V>, p: P) -> bool {
    exists|k: RowKey| #[trigger] rows.contains_key(k) && p.picks(rows[k])
}

/// A table with each of its rows changed.
pub open spec fn altered<R: Row, A: Alter<R>>(rows: Map<RowKey, R::V>, a: A) -> Map<
    RowKey,
    R::V,
> {
    Map::new(|k: RowKey| rows.contains_key(k), |k: RowKey| a.altered(rows[k]))
}

/// That rows are those of a table, each once.
pub open spec fn lists<R: Row>(rows: Seq<R>, table: Map<RowKey, R::V>) -> bool {
    keys_differ(rows) && by_key(rows) == table
}

/// That rows stand in their order.
pub open spec fn ranked<R: Row>(rows: Seq<R>) -> bool {
    forall|i: int, j: int|
        0 <= i < j < rows.len() ==> list_no_later(
            R::rank_of((#[trigger] rows[i])@),
            R::rank_of((#[trigger] rows[j])@),
        )
}

/// A table.
#[derive(Debug)]
pub struct Table<R> {
    rows: Vec<R>,
}

impl<R: Row> View for Table<R> {
    type V = Map<RowKey, R::V>;

    closed spec fn view(&self) -> Map<RowKey, R::V> {
        by_key(self.rows@)
    }
}

/// Whether two lists of texts are the same.
fn same_texts(a: &Vec<String>, b: &Vec<String>) -> (r: bool)
    ensures
        r == (texts(a@) == texts(b@)),
{
    if a.len() != b.len() {
        proof {
            assert(texts(a@).len() != texts(b@).len());
        }
        return false;
    }
    let mut i: usize = 0;
    while i < a.len()
        invariant
            a@.len() == b@.len(),
            i <= a@.len(),
            forall|j: int| 0 <= j < i ==> a@[j]@ == b@[j]@,
        decreases a@.len() - i,
    {
        if a[i] != b[i] {
            proof {
                assert(texts(a@)[i as int] != texts(b@)[i as int]);
            }
            return false;
        }
        i = i + 1;
    }
    proof {
        assert(texts(a@) =~= texts(b@));
    }
    true
}

/// A row that stands among rows with different keys is what its key finds.
pub proof fn lemma_found<R: Row>(rows: Seq<R>, i: int)
    requires
        keys_differ(rows),
        0 <= i < rows.len(),
    ensures
        by_key(rows).contains_key(R::key_of(rows[i]@)),
        by_key(rows)[R::key_of(rows[i]@)] == rows[i]@,
{
    let k = R::key_of(rows[i]@);
    assert(stands_at(rows, k, i));
    let j = choose|j: int| #[trigger] stands_at(rows, k, j);
    assert(stands_at(rows, k, j));
    if i < j {
        assert(R::key_of(rows[i]@) != R::key_of(rows[j]@));
    }
    if j < i {
        assert(R::key_of(rows[j]@) != R::key_of(rows[i]@));
    }
}

impl<R: Row> Table<R> {
    /// That no key stands twice.
    pub closed spec fn wf(self) -> bool {
        keys_differ(self.rows@)
    }

    /// The rows in the order in which they stand.
    pub closed spec fn listed(self) -> Seq<R> {
        self.rows@
    }

    /// A table without rows.
    pub fn new() -> (t: Table<R>)
        ensures
            t.wf(),
            t@ == Map::<RowKey, R::V>::empty(),
    {
        let t = Table { rows: Vec::new() };
        proof {
            assert(t@ =~= Map::<RowKey, R::V>::empty());
        }
        t
    }

    /// The rows, each once.
    pub fn rows(&self) -> (v: &Vec<R>)
        requires
            self.wf(),
        ensures
            v@ == self.listed(),
            keys_differ(v@),
            by_key(v@) == self@,
    {
        &self.rows
    }

    fn find(&self, key: &Vec<String>) -> (r: Option<usize>)
        ensures
            match r {
                Some(i) => stands_at(self.rows@, texts(key@), i as int),
                None => forall|i: int| !#[trigger] stands_at(self.rows@, texts(key@), i),
            },
    {
        let mut i: usize = 0;
        while i < self.rows.len()
            invariant
                i <= self.rows@.len(),
                forall|j: int| 0 <= j < i ==> !#[trigger] stands_at(self.rows@, texts(key@), j),
            decreases self.rows@.len() - i,
        {
            if same_texts(&self.rows[i].key(), key) {
                return Some(i);
            }
            i = i + 1;
        }
        None
    }

    /// The row of a key.
    pub fn get(&self, key: &Vec<String>) -> (r: Option<&R>)
        requires
            self.wf(),
        ensures
            match r {
                Some(row) => self@.contains_key(texts(key@)) && self@[texts(key@)] == row@,
                None => !self@.contains_key(texts(key@)),
            },
            r matches Some(row) ==> R::key_of(row@) == texts(key@),
    {
        match self.find(key) {
            Some(i) => {
                proof {
                    lemma_found(self.rows@, i as int);
                }
                Some(&self.rows[i])
            },
            None => None,
        }
    }

    /// Takes the row of a key out.
    pub fn take(&mut self, key: &Vec<String>) -> (r: Option<R>)
        requires
            old(self).wf(),
        ensures
            final(self).wf(),
            final(self)@ == old(self)@.remove(texts(key@)),
            match r {
                Some(row) => old(self)@.contains_key(texts(key@)) && old(self)@[texts(key@)]
                    == row@,
                None => !old(self)@.contains_key(texts(key@)),
            },
            r matches Some(row) ==> R::key_of(row@) == texts(key@),
    {
        match self.find(key) {
            Some(i) => {
                let ghost before = self.rows@;
                let row = self.rows.remove(i);
                proof {
                    lemma_found(before, i as int);
                    lemma_removed(before, i as int);
                }
                Some(row)
            },
            None => {
                proof {
                    assert(self@.remove(texts(key@)) =~= self@);
                }
                None
            },
        }
    }

    /// Puts a row in. It stands where the row that had its key stood, or last.
    pub fn put(&mut self, row: R)
        requires
            old(self).wf(),
        ensures
            final(self).wf(),
            final(self)@ == old(self)@.insert(R::key_of(row@), row@),
    {
        let key = row.key();
        let ghost k = R::key_of(row@);
        let ghost all = self.rows@;
        let at: usize = match self.find(&key) {
            Some(i) => {
                let gone = self.rows.remove(i);
                proof {
                    lemma_removed(all, i as int);
                    assert(by_key(self.rows@).insert(k, row@) =~= by_key(all).insert(k, row@));
                }
                i
            },
            None => self.rows.len(),
        };
        let ghost before = self.rows@;
        self.rows.insert(at, row);
        proof {
            lemma_inserted(before, at as int, row);
        }
    }

    /// Takes every row out that passes a test.
    pub fn delete<P: Pick<R>>(&mut self, p: &P)
        requires
            old(self).wf(),
        ensures
            final(self).wf(),
            final(self)@ == without(old(self)@, *p),
    {
        let ghost all = self.rows@;
        let mut i: usize = 0;
        proof {
            assert(all.take(0) =~= Seq::empty());
            assert(all =~= all.skip(0));
        }
        while i < self.rows.len()
            invariant
                keys_differ(self.rows@),
                i <= self.rows@.len(),
                forall|j: int| 0 <= j < i ==> !p.picks((#[trigger] self.rows@[j])@),
                without(by_key(self.rows@), *p) == without(by_key(all), *p),
            decreases self.rows@.len() - i,
        {
            if p.picks_row(&self.rows[i]) {
                let ghost before = self.rows@;
                let gone = self.rows.remove(i);
                proof {
                    lemma_found(before, i as int);
                    lemma_removed(before, i as int);
                    assert(without(by_key(self.rows@), *p) =~= without(by_key(before), *p));
                }
            } else {
                i = i + 1;
            }
        }
        proof {
            let m = by_key(self.rows@);
            assert forall|k: RowKey| m.contains_key(k) implies !p.picks(m[k]) by {
                let j = choose|j: int| #[trigger] stands_at(self.rows@, k, j);
                assert(stands_at(self.rows@, k, j));
                lemma_found(self.rows@, j);
            }
            assert(without(m, *p) =~= m);
        }
    }

    /// Whether some row passes a test.
    pub fn any<P: Pick<R>>(&self, p: &P) -> (r: bool)
        requires
            self.wf(),
        ensures
            r == some_row(self@, *p),
    {
        let mut i: usize = 0;
        while i < self.rows.len()
            invariant
                keys_differ(self.rows@),
                i <= self.rows@.len(),
                forall|j: int| 0 <= j < i ==> !p.picks((#[trigger] self.rows@[j])@),
            decreases self.rows@.len() - i,
        {
            if p.picks_row(&self.rows[i]) {
                proof {
                    lemma_found(self.rows@, i as int);
                    let k = R::key_of(self.rows@[i as int]@);
                    assert(self@.contains_key(k) && p.picks(self@[k]));
                }
                return true;
            }
            i = i + 1;
        }
        proof {
            assert forall|k: RowKey| #[trigger] self@.contains_key(k) implies !p.picks(
                self@[k],
            ) by {
                let j = choose|j: int| #[trigger] stands_at(self.rows@, k, j);
                assert(stands_at(self.rows@, k, j));
                lemma_found(self.rows@, j);
            }
        }
        false
    }

    /// Copies of the rows that pass a test, in their order.
    pub fn select<P: Pick<R>>(&self, p: &P) -> (out: Vec<R>)
        requires
            self.wf(),
        ensures
            lists(out@, kept(self@, *p)),
            ranked(out@),
    {
        let mut out: Vec<R> = Vec::new();
        let mut i: usize = 0;
        proof {
            assert(self.rows@.take(0) =~= Seq::empty());
            assert(by_key(out@) =~= kept(by_key(self.rows@.take(0)), *p));
        }
        while i < self.rows.len()
            invariant
                keys_differ(self.rows@),
                i <= self.rows@.len(),
                lists(out@, kept(by_key(self.rows@.take(i as int)), *p)),
                ranked(out@),
            decreases self.rows@.len() - i,
        {
            let ghost before = self.rows@.take(i as int);
            let ghost row = self.rows@[i as int];
            let ghost upto = self.rows@.take(i + 1);
            proof {
                assert(keys_differ(before)) by {
                    assert forall|a: int, b: int| 0 <= a < b < before.len() implies R::key_of(
                        (#[trigger] before[a])@,
                    ) != R::key_of((#[trigger] before[b])@) by {
                        assert(before[a] == self.rows@[a]);
                        assert(before[b] == self.rows@[b]);
                    }
                }
                assert(!by_key(before).contains_key(R::key_of(row@))) by {
                    assert forall|a: int| !#[trigger] stands_at(before, R::key_of(row@), a) by {
                        if stands_at(before, R::key_of(row@), a) {
                            assert(before[a] == self.rows@[a]);
                        }
                    }
                }
                lemma_inserted(before, i as int, row);
                assert(before.insert(i as int, row) =~= upto);
            }
            if p.picks_row(&self.rows[i]) {
                let ghost listed = out@;
                let copy = self.rows[i].copy();
                insert_ranked(&mut out, copy);
                proof {
                    assert(kept(by_key(upto), *p) =~= kept(by_key(before), *p).insert(
                        R::key_of(row@),
                        row@,
                    ));
                }
            } else {
                proof {
                    assert(kept(by_key(upto), *p) =~= kept(by_key(before), *p));
                }
            }
            i = i + 1;
        }
        proof {
            assert(self.rows@.take(self.rows@.len() as int) =~= self.rows@);
        }
        out
    }

    /// Changes every row.
    pub fn alter_all<A: Alter<R>>(&mut self, a: &A)
        requires
            old(self).wf(),
        ensures
            final(self).wf(),
            final(self)@ == altered(old(self)@, *a),
    {
        let ghost all = self.rows@;
        let mut rows: Vec<R> = Vec::new();
        std::mem::swap(&mut rows, &mut self.rows);
        let mut out: Vec<R> = Vec::new();
        for row in iter: rows
            invariant
                keys_differ(all),
                iter.seq() == all,
                out@.len() == iter.index(),
                forall|j: int|
                    0 <= j < out@.len() ==> (#[trigger] out@[j])@ == a.altered(all[j]@)
                        && R::key_of(out@[j]@) == R::key_of(all[j]@),
        {
            out.push(a.alter(row));
        }
        self.rows = out;
        proof {
            let new = self.rows@;
            assert(new.len() == all.len());
            assert forall|i: int, j: int| 0 <= i < j < new.len() implies R::key_of(
                (#[trigger] new[i])@,
            ) != R::key_of((#[trigger] new[j])@) by {
                assert(R::key_of(all[i]@) != R::key_of(all[j]@));
            }
            let m = altered(by_key(all), *a);
            assert forall|k: RowKey| by_key(new).contains_key(k) <==> #[trigger] m.contains_key(
                k,
            ) by {
                if by_key(new).contains_key(k) {
                    let i = choose|i: int| #[trigger] stands_at(new, k, i);
                    assert(stands_at(new, k, i));
                    assert(stands_at(all, k, i));
                }
                if m.contains_key(k) {
                    let i = choose|i: int| #[trigger] stands_at(all, k, i);
                    assert(stands_at(all, k, i));
                    assert(new[i]@ == a.altered(all[i]@));
                    assert(stands_at(new, k, i));
                }
            }
            assert forall|k: RowKey| by_key(new).contains_key(k) implies #[trigger] by_key(new)[k]
                == m[k] by {
                let i = choose|i: int| #[trigger] stands_at(new, k, i);
                assert(stands_at(new, k, i));
                lemma_found(new, i);
                lemma_found(all, i);
            }
            assert(by_key(new) =~= m);
        }
    }
}

/// Puts a row among rows in their order, behind those that come first or rank with it.
fn insert_ranked<R: Row>(rows: &mut Vec<R>, row: R)
    requires
        keys_differ(old(rows)@),
        ranked(old(rows)@),
        !by_key(old(rows)@).contains_key(R::key_of(row@)),
    ensures
        lists(final(rows)@, by_key(old(rows)@).insert(R::key_of(row@), row@)),
        ranked(final(rows)@),
{
    let rank = row.rank();
    let mut at: usize = 0;
    while at < rows.len() && list_is_no_later(&rows[at].rank(), &rank)
        invariant
            at <= rows@.len(),
            texts(rank@) == R::rank_of(row@),
            forall|j: int|
                0 <= j < at ==> list_no_later(
                    R::rank_of((#[trigger] rows@[j])@),
                    R::rank_of(row@),
                ),
        decreases rows@.len() - at,
    {
        at = at + 1;
    }
    let ghost before = rows@;
    rows.insert(at, row);
    proof {
        let after = rows@;
        lemma_inserted(before, at as int, row);
        assert forall|i: int, j: int| 0 <= i < j < after.len() implies list_no_later(
            R::rank_of((#[trigger] after[i])@),
            R::rank_of((#[trigger] after[j])@),
        ) by {
            let i1 = if i < at { i } else { i - 1 };
            let j1 = if j < at { j } else { j - 1 };
            if i == at {
                assert(after[j] == before[j1]);
                list_order_is_total(R::rank_of(before[at as int]@), R::rank_of(row@));
                if j1 > at {
                    list_order_carries(
                        R::rank_of(row@),
                        R::rank_of(before[at as int]@),
                        R::rank_of(before[j1]@),
                    );
                }
            } else if j == at {
                assert(after[i] == before[i1]);
            } else {
                assert(after[i] == before[i1]);
                assert(after[j] == before[j1]);
            }
        }
    }
}

/// Rows without one of them.
proof fn lemma_removed<R: Row>(rows: Seq<R>, i: int)
    requires
        keys_differ(rows),
        0 <= i < rows.len(),
    ensures
        keys_differ(rows.remove(i)),
        by_key(rows.remove(i)) == by_key(rows).remove(R::key_of(rows[i]@)),
{
    let less = rows.remove(i);
    let k0 = R::key_of(rows[i]@);
    assert forall|a: int, b: int| 0 <= a < b < less.len() implies R::key_of(
        (#[trigger] less[a])@,
    ) != R::key_of((#[trigger] less[b])@) by {
        let a1 = if a < i { a } else { a + 1 };
        let b1 = if b < i { b } else { b + 1 };
        assert(less[a] == rows[a1]);
        assert(less[b] == rows[b1]);
    }
    let m = by_key(rows).remove(k0);
    assert forall|k: RowKey| by_key(less).contains_key(k) <==> #[trigger] m.contains_key(k) by {
        if by_key(less).contains_key(k) {
            let a = choose|a: int| #[trigger] stands_at(less, k, a);
            assert(stands_at(less, k, a));
            let a1 = if a < i { a } else { a + 1 };
            assert(less[a] == rows[a1]);
            assert(stands_at(rows, k, a1));
            if a1 < i {
                assert(R::key_of(rows[a1]@) != R::key_of(rows[i]@));
            } else {
                assert(R::key_of(rows[i]@) != R::key_of(rows[a1]@));
            }
        }
        if m.contains_key(k) {
            let a = choose|a: int| #[trigger] stands_at(rows, k, a);
            assert(stands_at(rows, k, a));
            assert(a != i);
            let a1 = if a < i { a } else { a - 1 };
            assert(less[a1] == rows[a]);
            assert(stands_at(less, k, a1));
        }
    }
    assert forall|k: RowKey| by_key(less).contains_key(k) implies #[trigger] by_key(less)[k]
        == m[k] by {
        let a = choose|a: int| #[trigger] stands_at(less, k, a);
        assert(stands_at(less, k, a));
        let a1 = if a < i { a } else { a + 1 };
        assert(less[a] == rows[a1]);
        lemma_found(less, a);
        lemma_found(rows, a1);
        assert(m.contains_key(k));
    }
    assert(by_key(less) =~= m);
}

/// Rows with one more, of a key that none of them has.
pub proof fn lemma_inserted<R: Row>(rows: Seq<R>, at: int, row: R)
    requires
        keys_differ(rows),
        0 <= at <= rows.len(),
        !by_key(rows).contains_key(R::key_of(row@)),
    ensures
        keys_differ(rows.insert(at, row)),
        by_key(rows.insert(at, row)) == by_key(rows).insert(R::key_of(row@), row@),
{
    let more = rows.insert(at, row);
    let k0 = R::key_of(row@);
    assert(forall|a: int| 0 <= a < rows.len() ==> !#[trigger] stands_at(rows, k0, a));
    assert forall|a: int, b: int| 0 <= a < b < more.len() implies R::key_of(
        (#[trigger] more[a])@,
    ) != R::key_of((#[trigger] more[b])@) by {
        let a1 = if a < at { a } else { a - 1 };
        let b1 = if b < at { b } else { b - 1 };
        if a == at {
            assert(more[b] == rows[b1]);
            assert(!stands_at(rows, k0, b1));
        } else if b == at {
            assert(more[a] == rows[a1]);
            assert(!stands_at(rows, k0, a1));
        } else {
            assert(more[a] == rows[a1]);
            assert(more[b] == rows[b1]);
        }
    }
    let m = by_key(rows).insert(k0, row@);
    assert forall|k: RowKey| by_key(more).contains_key(k) <==> #[trigger] m.contains_key(k) by {
        if by_key(more).contains_key(k) {
            let a = choose|a: int| #[trigger] stands_at(more, k, a);
            assert(stands_at(more, k, a));
            if a != at {
                let a1 = if a < at { a } else { a - 1 };
                assert(more[a] == rows[a1]);
                assert(stands_at(rows, k, a1));
            }
        }
        if m.contains_key(k) {
            if k == k0 {
                assert(stands_at(more, k, at));
            } else {
                let a = choose|a: int| #[trigger] stands_at(rows, k, a);
                assert(stands_at(rows, k, a));
                let a1 = if a < at { a } else { a + 1 };
                assert(more[a1] == rows[a]);
                assert(stands_at(more, k, a1));
            }
        }
    }
    assert forall|k: RowKey| by_key(more).contains_key(k) implies #[trigger] by_key(more)[k]
        == m[k] by {
        let a = choose|a: int| #[trigger] stands_at(more, k, a);
        assert(stands_at(more, k, a));
        lemma_found(more, a);
        if a != at {
            let a1 = if a < at { a } else { a - 1 };
            assert(more[a] == rows[a1]);
            lemma_found(rows, a1);
            assert(!stands_at(rows, k0, a1));
        }
        assert(m.contains_key(k));
    }
    assert(by_key(more) =~= m);
}

/// A table has as many keys as rows.
pub proof fn lemma_counted<R: Row>(rows: Seq<R>)
    requires
        keys_differ(rows),
    ensures
        by_key(rows).dom().finite(),
        by_key(rows).dom().len() == rows.len(),
    decreases rows.len(),
{
    if rows.len() == 0 {
        assert(by_key(rows).dom() =~= Set::empty());
    } else {
        let n = rows.len() - 1;
        let less = rows.remove(n);
        lemma_removed(rows, n);
        lemma_found(rows, n);
        lemma_counted(less);
        assert(by_key(less).dom() =~= by_key(rows).dom().remove(R::key_of(rows[n]@)));
        assert(by_key(rows).dom() =~= by_key(less).dom().insert(R::key_of(rows[n]@)));
    }
}

} // verus!
