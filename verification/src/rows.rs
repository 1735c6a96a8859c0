//! Per-thread resource rows kept sorted by thread id, the way an ordered map
//! from thread id to a vector of counters keeps them.
use vstd::prelude::*;
use std::collections::BTreeMap;

verus! {

/// One counter vector per thread, as a sequence of `(thread id, counters)`.
pub type Rows = Seq<(usize, Seq<usize>)>;

/// Thread ids strictly increase along the sequence, so each occurs once.
pub open spec fn sorted(rows: Rows) -> bool {
    forall|i: int, j: int| 0 <= i < j < rows.len() ==> #[trigger] rows[i].0 < #[trigger] rows[j].0
}

pub open spec fn has_key(rows: Rows, tid: usize) -> bool {
    exists|i: int| 0 <= i < rows.len() && #[trigger] rows[i].0 == tid
}

pub open spec fn key_index(rows: Rows, tid: usize) -> int {
    choose|i: int| 0 <= i < rows.len() && #[trigger] rows[i].0 == tid
}

/// The counters of `tid`, if it has a row.
pub open spec fn lookup(rows: Rows, tid: usize) -> Option<Seq<usize>> {
    if has_key(rows, tid) {
        Some(rows[key_index(rows, tid)].1)
    } else {
        None
    }
}

pub open spec fn zeros(width: nat) -> Seq<usize> {
    Seq::new(width, |i: int| 0usize)
}

/// The counters of `tid`, or `width` zeros where it has no row.
pub open spec fn row_or_zero(rows: Rows, tid: usize, width: nat) -> Seq<usize> {
    match lookup(rows, tid) {
        Some(row) => row,
        None => zeros(width),
    }
}

/// Where a row for `tid` goes: after every smaller thread id.
pub open spec fn insert_pos(rows: Rows, tid: usize) -> int
    decreases rows.len(),
{
    if rows.len() == 0 {
        0
    } else if rows.last().0 < tid {
        rows.len() as int
    } else {
        insert_pos(rows.drop_last(), tid)
    }
}

/// `rows` with the row of `tid` set to `row`.
pub open spec fn upsert(rows: Rows, tid: usize, row: Seq<usize>) -> Rows {
    if has_key(rows, tid) {
        rows.update(key_index(rows, tid), (tid, row))
    } else {
        rows.insert(insert_pos(rows, tid), (tid, row))
    }
}

/// `rows` without the row of `tid`.
pub open spec fn remove_key(rows: Rows, tid: usize) -> Rows {
    if has_key(rows, tid) {
        rows.remove(key_index(rows, tid))
    } else {
        rows
    }
}

pub open spec fn all_zero(row: Seq<usize>) -> bool {
    forall|k: int| 0 <= k < row.len() ==> #[trigger] row[k] == 0
}

/// Every row has `width` counters and at least one of them is not zero.
pub open spec fn rows_wf(rows: Rows, width: nat) -> bool {
    &&& sorted(rows)
    &&& forall|i: int| 0 <= i < rows.len() ==> (#[trigger] rows[i]).1.len() == width
    &&& forall|i: int| 0 <= i < rows.len() ==> !all_zero((#[trigger] rows[i]).1)
}

/// Counter `k` of `tid` raised by one, the row made if missing.
pub open spec fn inc_spec(rows: Rows, tid: usize, k: int, width: nat) -> Rows {
    let row = row_or_zero(rows, tid, width);
    upsert(rows, tid, row.update(k, (row[k] + 1) as usize))
}

/// Counter `k` of `tid` lowered by one where it is positive.
pub open spec fn dec_spec(rows: Rows, tid: usize, k: int) -> Rows {
    match lookup(rows, tid) {
        Some(row) => if 0 <= k < row.len() && row[k] > 0 {
            upsert(rows, tid, row.update(k, (row[k] - 1) as usize))
        } else {
            rows
        },
        None => rows,
    }
}

/// The row of `tid` dropped where all its counters are zero.
pub open spec fn trim_spec(rows: Rows, tid: usize) -> Rows {
    match lookup(rows, tid) {
        Some(row) => if all_zero(row) {
            remove_key(rows, tid)
        } else {
            rows
        },
        None => rows,
    }
}

/// Counter `k` of `tid` lowered by one, then the row dropped if it became all zero.
pub open spec fn release_spec(rows: Rows, tid: usize, k: int) -> Rows {
    trim_spec(dec_spec(rows, tid, k), tid)
}

/// Every row with one more counter, set to zero.
pub open spec fn widen_spec(rows: Rows) -> Rows {
    Seq::new(rows.len(), |i: int| (rows[i].0, rows[i].1.push(0usize)))
}

/// Sum of counter `k` over the first `m` rows.
pub open spec fn col_sum(rows: Rows, k: int, m: int) -> int
    decreases m,
{
    if m <= 0 {
        0
    } else {
        col_sum(rows, k, m - 1) + rows[m - 1].1[k] as int
    }
}

pub proof fn lemma_key_index(rows: Rows, i: int)
    requires
        sorted(rows),
        0 <= i < rows.len(),
    ensures
        has_key(rows, rows[i].0),
        key_index(rows, rows[i].0) == i,
        lookup(rows, rows[i].0) == Some(rows[i].1),
{
    let tid = rows[i].0;
    assert(has_key(rows, tid));
    let j = key_index(rows, tid);
    if j < i {
        assert(rows[j].0 < rows[i].0);
    } else if i < j {
        assert(rows[i].0 < rows[j].0);
    }
}

pub proof fn lemma_insert_pos(rows: Rows, tid: usize)
    requires
        sorted(rows),
    ensures
        0 <= insert_pos(rows, tid) <= rows.len(),
        forall|i: int| 0 <= i < insert_pos(rows, tid) ==> #[trigger] rows[i].0 < tid,
        forall|i: int| insert_pos(rows, tid) <= i < rows.len() ==> #[trigger] rows[i].0 >= tid,
    decreases rows.len(),
{
    if rows.len() == 0 {
    } else if rows.last().0 < tid {
        assert forall|i: int| 0 <= i < rows.len() implies #[trigger] rows[i].0 < tid by {
            if i < rows.len() - 1 {
                assert(rows[i].0 < rows[rows.len() - 1].0);
            }
        }
    } else {
        let d = rows.drop_last();
        assert(sorted(d)) by {
            assert forall|i: int, j: int| 0 <= i < j < d.len() implies #[trigger] d[i].0 < #[trigger] d[j].0 by {
                assert(d[i] == rows[i] && d[j] == rows[j]);
            }
        }
        lemma_insert_pos(d, tid);
        let p = insert_pos(rows, tid);
        assert forall|i: int| 0 <= i < p implies #[trigger] rows[i].0 < tid by {
            assert(d[i] == rows[i]);
        }
        assert forall|i: int| p <= i < rows.len() implies #[trigger] rows[i].0 >= tid by {
            if i < rows.len() - 1 {
                assert(d[i] == rows[i]);
            }
        }
    }
}

pub proof fn lemma_upsert(rows: Rows, tid: usize, row: Seq<usize>)
    requires
        sorted(rows),
    ensures
        sorted(upsert(rows, tid, row)),
        lookup(upsert(rows, tid, row), tid) == Some(row),
        forall|t: usize| t != tid ==> #[trigger] lookup(upsert(rows, tid, row), t) == lookup(rows, t),
        upsert(rows, tid, row).len() == rows.len() + (if has_key(rows, tid) { 0int } else { 1int }),
        forall|i: int| 0 <= i < upsert(rows, tid, row).len() ==> (#[trigger] upsert(rows, tid, row)[i] == (tid, row)
            || rows.contains(upsert(rows, tid, row)[i])),
{
    let u = upsert(rows, tid, row);
    if has_key(rows, tid) {
        let idx = key_index(rows, tid);
        assert(sorted(u)) by {
            assert forall|i: int, j: int| 0 <= i < j < u.len() implies #[trigger] u[i].0 < #[trigger] u[j].0 by {
                assert(rows[i].0 < rows[j].0);
            }
        }
        lemma_key_index(u, idx);
        assert forall|t: usize| t != tid implies #[trigger] lookup(u, t) == lookup(rows, t) by {
            if has_key(rows, t) {
                let j = key_index(rows, t);
                assert(j != idx);
                assert(u[j] == rows[j]);
                lemma_key_index(u, j);
            }
            if has_key(u, t) {
                let j = key_index(u, t);
                assert(u[j] == rows[j]);
                lemma_key_index(rows, j);
            }
        }
        assert forall|i: int| 0 <= i < u.len() implies (#[trigger] u[i] == (tid, row)
            || rows.contains(u[i])) by {
            if i != idx {
                assert(rows[i] == u[i]);
            }
        }
    } else {
        let p = insert_pos(rows, tid);
        lemma_insert_pos(rows, tid);
        rows.insert_ensures(p, (tid, row));
        assert forall|i: int| 0 <= i < u.len() implies #[trigger] u[i] == (if i < p { rows[i] } else if i == p { (tid, row) } else { rows[i - 1] }) by {
            if i > p {
                assert(u[(i - 1) + 1] == rows[i - 1]);
            }
        }
        assert(sorted(u)) by {
            assert forall|i: int, j: int| 0 <= i < j < u.len() implies #[trigger] u[i].0 < #[trigger] u[j].0 by {
                if i < p && j < p {
                    assert(rows[i].0 < rows[j].0);
                } else if i < p && j == p {
                } else if i < p {
                    assert(rows[i].0 < rows[j - 1].0);
                } else if i == p {
                    assert(rows[j - 1].0 >= tid);
                    assert(rows[j - 1].0 != tid);
                } else {
                    assert(rows[i - 1].0 < rows[j - 1].0);
                }
            }
        }
        lemma_key_index(u, p);
        assert forall|t: usize| t != tid implies #[trigger] lookup(u, t) == lookup(rows, t) by {
            if has_key(rows, t) {
                let j = key_index(rows, t);
                if j < p {
                    lemma_key_index(u, j);
                } else {
                    lemma_key_index(u, j + 1);
                }
            }
            if has_key(u, t) {
                let j = key_index(u, t);
                if j < p {
                    lemma_key_index(rows, j);
                } else if j > p {
                    lemma_key_index(rows, j - 1);
                }
            }
        }
        assert forall|i: int| 0 <= i < u.len() implies (#[trigger] u[i] == (tid, row)
            || rows.contains(u[i])) by {
            if i < p {
                assert(rows[i] == u[i]);
            } else if i > p {
                assert(rows[i - 1] == u[i]);
            }
        }
    }
}

pub proof fn lemma_remove_key(rows: Rows, tid: usize)
    requires
        sorted(rows),
    ensures
        sorted(remove_key(rows, tid)),
        lookup(remove_key(rows, tid), tid) == None::<Seq<usize>>,
        forall|t: usize| t != tid ==> #[trigger] lookup(remove_key(rows, tid), t) == lookup(rows, t),
        forall|i: int| 0 <= i < remove_key(rows, tid).len() ==> rows.contains(#[trigger] remove_key(rows, tid)[i]),
{
    let r = remove_key(rows, tid);
    if has_key(rows, tid) {
        let idx = key_index(rows, tid);
        rows.remove_ensures(idx);
        assert forall|i: int| 0 <= i < r.len() implies #[trigger] r[i] == (if i < idx { rows[i] } else { rows[i + 1] }) by {}
        assert(sorted(r)) by {
            assert forall|i: int, j: int| 0 <= i < j < r.len() implies #[trigger] r[i].0 < #[trigger] r[j].0 by {
                let a = if i < idx { i } else { i + 1 };
                let b = if j < idx { j } else { j + 1 };
                assert(rows[a].0 < rows[b].0);
            }
        }
        if has_key(r, tid) {
            let j = key_index(r, tid);
            let a = if j < idx { j } else { j + 1 };
            lemma_key_index(rows, a);
        }
        assert forall|t: usize| t != tid implies #[trigger] lookup(r, t) == lookup(rows, t) by {
            if has_key(rows, t) {
                let j = key_index(rows, t);
                if j < idx {
                    lemma_key_index(r, j);
                } else {
                    lemma_key_index(r, j - 1);
                }
            }
            if has_key(r, t) {
                let j = key_index(r, t);
                let a = if j < idx { j } else { j + 1 };
                lemma_key_index(rows, a);
            }
        }
        assert forall|i: int| 0 <= i < r.len() implies rows.contains(#[trigger] r[i]) by {
            let a = if i < idx { i } else { i + 1 };
            assert(rows[a] == r[i]);
        }
    } else {
        assert forall|i: int| 0 <= i < r.len() implies rows.contains(#[trigger] r[i]) by {
            assert(rows[i] == r[i]);
        }
    }
}


pub proof fn lemma_dec_trim_wf(rows: Rows, tid: usize, k: int, width: nat)
    requires
        rows_wf(rows, width),
    ensures
        rows_wf(release_spec(rows, tid, k), width),
{
    let d = dec_spec(rows, tid, k);
    match lookup(rows, tid) {
        Some(row) => {
            lemma_key_index(rows, key_index(rows, tid));
            if 0 <= k < row.len() && row[k] > 0 {
                let nrow = row.update(k, (row[k] - 1) as usize);
                lemma_upsert(rows, tid, nrow);
                lemma_remove_key(d, tid);
                if !all_zero(nrow) {
                    assert(trim_spec(d, tid) == d);
                    assert forall|i: int| 0 <= i < d.len() implies !all_zero((#[trigger] d[i]).1) by {
                        if d[i] != (tid, nrow) {
                            assert(rows.contains(d[i]));
                        }
                    }
                } else {
                    let r = remove_key(d, tid);
                    assert forall|i: int| 0 <= i < r.len() implies !all_zero((#[trigger] r[i]).1) && r[i].1.len() == width by {
                        assert(d.contains(r[i]));
                        let j = choose|j: int| 0 <= j < d.len() && d[j] == r[i];
                        if d[j] == (tid, nrow) {
                            lemma_key_index(d, j);
                            lemma_key_index(r, i);
                        } else {
                            assert(rows.contains(d[j]));
                        }
                    }
                }
            } else {
                assert(!all_zero(row));
            }
        },
        None => {},
    }
}

/// Raising a counter and then releasing it gives back the same rows.
pub proof fn lemma_inc_release_round_trip(rows: Rows, tid: usize, k: int, width: nat)
    requires
        rows_wf(rows, width),
        0 <= k < width,
        row_or_zero(rows, tid, width)[k] < usize::MAX,
    ensures
        release_spec(inc_spec(rows, tid, k, width), tid, k) == rows,
{
    let r0 = row_or_zero(rows, tid, width);
    let r1 = r0.update(k, (r0[k] + 1) as usize);
    let i1 = upsert(rows, tid, r1);
    lemma_upsert(rows, tid, r1);
    if has_key(rows, tid) {
        lemma_key_index(rows, key_index(rows, tid));
        assert(r0.len() == width);
    }
    assert(r1[k] > 0);
    let r2 = r1.update(k, (r1[k] - 1) as usize);
    assert(r2 =~= r0);
    let d = dec_spec(i1, tid, k);
    assert(d == upsert(i1, tid, r0));
    if has_key(rows, tid) {
        let idx = key_index(rows, tid);
        lemma_key_index(i1, idx);
        assert(d =~= rows.update(idx, (tid, r0)));
        assert(d =~= rows);
        lemma_key_index(rows, idx);
        assert(!all_zero(r0));
    } else {
        let p = insert_pos(rows, tid);
        lemma_insert_pos(rows, tid);
        rows.insert_ensures(p, (tid, r1));
        lemma_key_index(i1, p);
        let d2 = i1.update(p, (tid, r0));
        assert(d == d2);
        lemma_upsert(i1, tid, r0);
        lemma_key_index(d2, p);
        assert(r0 == zeros(width));
        assert(all_zero(r0));
        let t = remove_key(d2, tid);
        assert(t == d2.remove(p));
        assert(t =~= rows);
    }
}

/// The rows of a resource matrix, one per thread, sorted by thread id.
pub struct RowTable {
    entries: Vec<(usize, Vec<usize>)>,
}

impl View for RowTable {
    type V = Rows;

    closed spec fn view(&self) -> Rows {
        self.entries@.map_values(|e: (usize, Vec<usize>)| (e.0, e.1@))
    }
}

impl RowTable {
    pub fn new() -> (r: RowTable)
        ensures
            r@ == Seq::<(usize, Seq<usize>)>::empty(),
    {
        let r = RowTable { entries: Vec::new() };
        assert(r@ =~= Seq::<(usize, Seq<usize>)>::empty());
        r
    }

    /// Where the row of `tid` is, or where it would go.
    pub fn find(&self, tid: usize) -> (r: (bool, usize))
        requires
            sorted(self@),
        ensures
            r.0 == has_key(self@, tid),
            r.0 ==> r.1 == key_index(self@, tid) && r.1 < self@.len(),
            !r.0 ==> r.1 == insert_pos(self@, tid),
    {
        let mut i: usize = 0;
        while i < self.entries.len() && self.entries[i].0 < tid
            invariant
                sorted(self@),
                i <= self@.len(),
                self@.len() == self.entries@.len(),
                forall|j: int| 0 <= j < i ==> #[trigger] self@[j].0 < tid,
            decreases self@.len() - i,
        {
            assert(self@[i as int].0 == self.entries@[i as int].0);
            i = i + 1;
        }
        proof {
            lemma_insert_pos(self@, tid);
        }
        if i < self.entries.len() && self.entries[i].0 == tid {
            proof {
                assert(self@[i as int].0 == tid);
                lemma_key_index(self@, i as int);
            }
            (true, i)
        } else {
            proof {
                let p = insert_pos(self@, tid);
                if i < self@.len() {
                    assert(self@[i as int].0 == self.entries@[i as int].0);
                }
                assert forall|j: int| 0 <= j < self@.len() implies #[trigger] self@[j].0 != tid by {
                    if j > i {
                        assert(self@[i as int].0 < self@[j].0);
                    }
                }
                if p < i {
                    assert(self@[p].0 < tid);
                } else if i < p {
                    assert(self@[i as int].0 >= tid);
                }
            }
            (false, i)
        }
    }

    /// Counter `k` of `tid`, zero where it has no row.
    pub(crate) fn count(&self, tid: usize, k: usize, Ghost(width): Ghost<nat>) -> (r: usize)
        requires
            rows_wf(self@, width),
            k < width,
        ensures
            r == row_or_zero(self@, tid, width)[k as int],
    {
        let (found, idx) = self.find(tid);
        if found {
            self.entries[idx].1[k]
        } else {
            0
        }
    }

    /// Counter `k` of `tid` raised by one; a row of `width` zeros is made first if missing.
    pub fn increment(&mut self, tid: usize, k: usize, width: usize)
        requires
            rows_wf(old(self)@, width as nat),
            k < width,
            row_or_zero(old(self)@, tid, width as nat)[k as int] < usize::MAX,
        ensures
            final(self)@ == inc_spec(old(self)@, tid, k as int, width as nat),
            rows_wf(final(self)@, width as nat),
    {
        let ghost old_rows = self@;
        let (found, idx) = self.find(tid);
        let ghost row = row_or_zero(old_rows, tid, width as nat);
        let ghost nrow = row.update(k as int, (row[k as int] + 1) as usize);
        if found {
            proof {
                lemma_key_index(old_rows, idx as int);
            }
            let mut tmp: (usize, Vec<usize>) = (0, Vec::new());
            self.entries.set_and_swap(idx, &mut tmp);
            let v = tmp.1[k];
            tmp.1.set(k, v + 1);
            self.entries.set(idx, tmp);
            assert(self@ =~= old_rows.update(idx as int, (tid, nrow)));
        } else {
            let mut fresh: Vec<usize> = vec![0usize; width];
            assert(fresh@ =~= zeros(width as nat));
            fresh.set(k, 1);
            proof {
                lemma_insert_pos(old_rows, tid);
                old_rows.insert_ensures(idx as int, (tid, nrow));
            }
            self.entries.insert(idx, (tid, fresh));
            assert(self@ =~= old_rows.insert(idx as int, (tid, nrow)));
        }
        proof {
            lemma_upsert(old_rows, tid, nrow);
            let u = self@;
            assert(nrow[k as int] > 0);
            assert forall|i: int| 0 <= i < u.len() implies (#[trigger] u[i]).1.len() == width
                && !all_zero(u[i].1) by {
                if u[i] != (tid, nrow) {
                    assert(old_rows.contains(u[i]));
                }
            }
        }
    }

    /// Counter `k` of `tid` lowered by one where positive; the row is then
    /// dropped if all its counters are zero.
    pub fn release(&mut self, tid: usize, k: usize)
        requires
            sorted(old(self)@),
        ensures
            final(self)@ == release_spec(old(self)@, tid, k as int),
            forall|w: nat| rows_wf(old(self)@, w) ==> rows_wf(final(self)@, w),
    {
        let ghost old_rows = self@;
        let (found, idx) = self.find(tid);
        if found {
            proof {
                lemma_key_index(old_rows, idx as int);
            }
            if k < self.entries[idx].1.len() && self.entries[idx].1[k] > 0 {
                let ghost row = old_rows[idx as int].1;
                let ghost nrow = row.update(k as int, (row[k as int] - 1) as usize);
                let mut tmp: (usize, Vec<usize>) = (0, Vec::new());
                self.entries.set_and_swap(idx, &mut tmp);
                let v = tmp.1[k];
                tmp.1.set(k, v - 1);
                let mut all_zero_now = true;
                let mut j: usize = 0;
                while j < tmp.1.len()
                    invariant
                        j <= tmp.1@.len(),
                        tmp.1@ == nrow,
                        all_zero_now == (forall|q: int| 0 <= q < j ==> #[trigger] nrow[q] == 0),
                    decreases tmp.1@.len() - j,
                {
                    if tmp.1[j] != 0 {
                        all_zero_now = false;
                    }
                    j = j + 1;
                }
                if all_zero_now {
                    self.entries.remove(idx);
                    proof {
                        old_rows.remove_ensures(idx as int);
                        lemma_upsert(old_rows, tid, nrow);
                        let d = dec_spec(old_rows, tid, k as int);
                        assert(d =~= old_rows.update(idx as int, (tid, nrow)));
                        lemma_key_index(d, idx as int);
                        assert(all_zero(nrow));
                    }
                    assert(self@ =~= old_rows.remove(idx as int));
                } else {
                    self.entries.set(idx, tmp);
                    proof {
                        lemma_upsert(old_rows, tid, nrow);
                        let d = dec_spec(old_rows, tid, k as int);
                        assert(d =~= old_rows.update(idx as int, (tid, nrow)));
                        lemma_key_index(d, idx as int);
                    }
                    assert(self@ =~= old_rows.update(idx as int, (tid, nrow)));
                }
            } else {
                proof {
                    assert(!all_zero(old_rows[idx as int].1) || all_zero(old_rows[idx as int].1));
                }
                if self.row_is_zero(idx) {
                    self.entries.remove(idx);
                    proof {
                        old_rows.remove_ensures(idx as int);
                    }
                    assert(self@ =~= old_rows.remove(idx as int));
                }
            }
        }
        proof {
            assert forall|w: nat| rows_wf(old_rows, w) implies rows_wf(self@, w) by {
                lemma_dec_trim_wf(old_rows, tid, k as int, w);
            }
        }
    }

    /// Number of rows.
    pub fn len(&self) -> (r: usize)
        ensures
            r == self@.len(),
    {
        self.entries.len()
    }

    /// Counter `k` of the row at position `i`.
    pub fn value(&self, i: usize, k: usize) -> (r: usize)
        requires
            i < self@.len(),
            k < self@[i as int].1.len(),
        ensures
            r == self@[i as int].1[k as int],
    {
        self.entries[i].1[k]
    }

    fn row_is_zero(&self, idx: usize) -> (r: bool)
        requires
            idx < self@.len(),
        ensures
            r == all_zero(self@[idx as int].1),
    {
        let mut j: usize = 0;
        let ghost row = self@[idx as int].1;
        while j < self.entries[idx].1.len()
            invariant
                idx < self@.len(),
                row == self@[idx as int].1,
                j <= row.len(),
                forall|q: int| 0 <= q < j ==> #[trigger] row[q] == 0,
            decreases row.len() - j,
        {
            if self.entries[idx].1[j] != 0 {
                return false;
            }
            j = j + 1;
        }
        true
    }

    /// The row of `tid` dropped.
    pub fn remove(&mut self, tid: usize)
        requires
            sorted(old(self)@),
        ensures
            final(self)@ == remove_key(old(self)@, tid),
            forall|w: nat| rows_wf(old(self)@, w) ==> rows_wf(final(self)@, w),
    {
        let ghost old_rows = self@;
        let (found, idx) = self.find(tid);
        if found {
            self.entries.remove(idx);
            proof {
                old_rows.remove_ensures(idx as int);
            }
            assert(self@ =~= old_rows.remove(idx as int));
        }
        proof {
            lemma_remove_key(old_rows, tid);
            assert forall|w: nat| rows_wf(old_rows, w) implies rows_wf(self@, w) by {
                assert forall|i: int| 0 <= i < self@.len() implies (#[trigger] self@[i]).1.len() == w
                    && !all_zero(self@[i].1) by {
                    assert(old_rows.contains(self@[i]));
                }
            }
        }
    }

    /// One more counter, set to zero, at the end of every row.
    pub fn widen(&mut self)
        requires
            sorted(old(self)@),
        ensures
            final(self)@ == widen_spec(old(self)@),
            forall|w: nat| rows_wf(old(self)@, w) ==> rows_wf(final(self)@, w + 1),
    {
        let ghost old_rows = self@;
        let mut i: usize = 0;
        while i < self.entries.len()
            invariant
                i <= self@.len(),
                self@.len() == old_rows.len(),
                forall|j: int| 0 <= j < i ==> #[trigger] self@[j] == (old_rows[j].0, old_rows[j].1.push(0usize)),
                forall|j: int| i <= j < self@.len() ==> #[trigger] self@[j] == old_rows[j],
            decreases self@.len() - i,
        {
            let ghost before = self.entries@;
            assert(self@[i as int] == old_rows[i as int]);
            assert(self@[i as int] == (before[i as int].0, before[i as int].1@));
            let mut tmp: (usize, Vec<usize>) = (0, Vec::new());
            self.entries.set_and_swap(i, &mut tmp);
            assert(tmp.1@ == old_rows[i as int].1);
            tmp.1.push(0);
            self.entries.set(i, tmp);
            assert(self.entries@ == before.update(i as int, tmp));
            assert(self@[i as int] == (old_rows[i as int].0, old_rows[i as int].1.push(0usize)));
            assert forall|j: int| 0 <= j < self@.len() && j != i implies #[trigger] self@[j] == before.map_values(|e: (usize, Vec<usize>)| (e.0, e.1@))[j] by {}
            i = i + 1;
        }
        assert(self@ =~= widen_spec(old_rows));
        proof {
            assert forall|w: nat| rows_wf(old_rows, w) implies rows_wf(self@, w + 1) by {
                assert forall|i: int| 0 <= i < self@.len() implies (#[trigger] self@[i]).1.len() == w + 1
                    && !all_zero(self@[i].1) by {
                    let row = old_rows[i].1;
                    assert(!all_zero(row));
                    let q = choose|q: int| 0 <= q < row.len() && row[q] != 0;
                    assert(self@[i].1[q] == row[q]);
                }
                assert forall|a: int, b: int| 0 <= a < b < self@.len() implies #[trigger] self@[a].0 < #[trigger] self@[b].0 by {
                    assert(old_rows[a].0 < old_rows[b].0);
                }
            }
        }
    }
}


/// A map from thread id to the mutex it waits for.
pub struct WaitTable {
    waits: BTreeMap<usize, usize>,
}

impl View for WaitTable {
    type V = Map<usize, usize>;

    closed spec fn view(&self) -> Map<usize, usize> {
        self.waits@
    }
}

impl WaitTable {
    /// The table holds finitely many waits.
    pub closed spec fn wf(&self) -> bool {
        self.waits@.dom().finite()
    }

    pub fn new() -> (r: WaitTable)
        ensures
            r.wf(),
            r@ == Map::<usize, usize>::empty(),
    {
        WaitTable { waits: BTreeMap::new() }
    }

    /// Number of waiting threads.
    pub fn len(&self) -> (r: usize)
        requires
            self.wf(),
        ensures
            self@.dom().finite(),
            r == self@.dom().len(),
    {
        broadcast use {vstd::std_specs::btree::group_btree_axioms, vstd::laws_cmp::group_laws_cmp};
        self.waits.len()
    }

    /// The mutex `tid` waits for.
    pub fn get(&self, tid: usize) -> (r: Option<usize>)
        requires
            self.wf(),
        ensures
            r == (if self@.contains_key(tid) { Some(self@[tid]) } else { None::<usize> }),
    {
        broadcast use {vstd::std_specs::btree::group_btree_axioms, vstd::laws_cmp::group_laws_cmp};
        match self.waits.get(&tid) {
            Some(m) => Some(*m),
            None => None,
        }
    }

    /// Records that `tid` waits for `mutex_id`.
    pub fn insert(&mut self, tid: usize, mutex_id: usize)
        requires
            old(self).wf(),
        ensures
            final(self).wf(),
            final(self)@ == old(self)@.insert(tid, mutex_id),
    {
        broadcast use {vstd::std_specs::btree::group_btree_axioms, vstd::laws_cmp::group_laws_cmp};
        self.waits.insert(tid, mutex_id);
    }

    /// Forgets what `tid` waits for.
    pub fn remove(&mut self, tid: usize)
        requires
            old(self).wf(),
        ensures
            final(self).wf(),
            final(self)@ == old(self)@.remove(tid),
    {
        broadcast use {vstd::std_specs::btree::group_btree_axioms, vstd::laws_cmp::group_laws_cmp};
        self.waits.remove(&tid);
    }
}

/// Every counter vector the rows give a thread has `width` counters.
pub proof fn lemma_row_len(rows: Rows, tid: usize, width: nat)
    requires
        rows_wf(rows, width),
    ensures
        row_or_zero(rows, tid, width).len() == width,
{
    if has_key(rows, tid) {
        lemma_key_index(rows, key_index(rows, tid));
    }
}

/// Raising counter `k` of `tid` raises that one counter by one and no other.
pub proof fn lemma_row_inc(rows: Rows, tid: usize, k: int, width: nat)
    requires
        rows_wf(rows, width),
        0 <= k < width,
        row_or_zero(rows, tid, width)[k] < usize::MAX,
    ensures
        forall|t: usize, j: int| 0 <= j < width ==> #[trigger] row_or_zero(inc_spec(rows, tid, k, width), t, width)[j]
            == row_or_zero(rows, t, width)[j] + (if t == tid && j == k { 1int } else { 0int }),
{
    let r = row_or_zero(rows, tid, width);
    let nr = r.update(k, (r[k] + 1) as usize);
    lemma_row_len(rows, tid, width);
    lemma_upsert(rows, tid, nr);
    assert forall|t: usize, j: int| 0 <= j < width implies #[trigger] row_or_zero(inc_spec(rows, tid, k, width), t, width)[j]
        == row_or_zero(rows, t, width)[j] + (if t == tid && j == k { 1int } else { 0int }) by {
        if t != tid {
            assert(lookup(upsert(rows, tid, nr), t) == lookup(rows, t));
        }
    }
}

/// Releasing counter `k` of `tid` lowers that one counter by one where it is positive
/// and changes no other.
pub proof fn lemma_row_release(rows: Rows, tid: usize, k: int, width: nat)
    requires
        rows_wf(rows, width),
        0 <= k < width,
    ensures
        forall|t: usize, j: int| 0 <= j < width ==> #[trigger] row_or_zero(release_spec(rows, tid, k), t, width)[j]
            == row_or_zero(rows, t, width)[j]
                - (if t == tid && j == k && row_or_zero(rows, tid, width)[k] > 0 { 1int } else { 0int }),
{
    let d = dec_spec(rows, tid, k);
    lemma_row_len(rows, tid, width);
    match lookup(rows, tid) {
        Some(row) => {
            if row[k] > 0 {
                let nrow = row.update(k, (row[k] - 1) as usize);
                lemma_upsert(rows, tid, nrow);
                lemma_remove_key(d, tid);
                assert forall|t: usize, j: int| 0 <= j < width implies #[trigger] row_or_zero(release_spec(rows, tid, k), t, width)[j]
                    == row_or_zero(rows, t, width)[j]
                        - (if t == tid && j == k && row_or_zero(rows, tid, width)[k] > 0 { 1int } else { 0int }) by {
                    if t != tid {
                        assert(lookup(d, t) == lookup(rows, t));
                        assert(lookup(remove_key(d, tid), t) == lookup(d, t));
                    } else if all_zero(nrow) {
                        assert(nrow[j] == 0);
                    }
                }
            } else {
                assert(d == rows);
                assert(!all_zero(row)) by {
                    lemma_key_index(rows, key_index(rows, tid));
                }
            }
        },
        None => {
            assert(d == rows);
        },
    }
}

} // verus!
