//! The keyed store model: rows keyed by record identifier, written through
//! bulk upserts whose conflict resolution overwrites every non-key column
//! with the incoming value.
//!
//! The store holds one row per identifier (`distinct_ids`) and only rows
//! whose required fields are populated (`all_ready`), mirroring the not-null
//! constraints of the backing table.

use vstd::prelude::*;

use crate::record::NodeRecord;
use crate::record::RecordView;
use crate::record::ready;
use crate::record::records_view;

verus! {

/// Whether some row carries the given identifier.
pub open spec fn has_id(rows: Seq<RecordView>, id: int) -> bool {
    exists|i: int| 0 <= i < rows.len() && rows[i].id == id
}

/// The index of a row carrying the given identifier (unique under
/// `distinct_ids`).
pub open spec fn index_of_id(rows: Seq<RecordView>, id: int) -> int {
    choose|i: int| 0 <= i < rows.len() && rows[i].id == id
}

/// The set of identifiers the rows carry.
pub open spec fn ids_set(rows: Seq<RecordView>) -> Set<int> {
    Set::new(|x: int| has_id(rows, x))
}

/// The row stored under the given identifier, if any.
pub open spec fn value_of(rows: Seq<RecordView>, id: int) -> Option<RecordView> {
    if has_id(rows, id) {
        Some(rows[index_of_id(rows, id)])
    } else {
        None
    }
}

/// No two rows share an identifier.
pub open spec fn distinct_ids(rows: Seq<RecordView>) -> bool {
    forall|i: int, j: int| 0 <= i < j < rows.len() ==> rows[i].id != rows[j].id
}

/// Every row has its required fields populated.
pub open spec fn all_ready(rows: Seq<RecordView>) -> bool {
    forall|i: int| 0 <= i < rows.len() ==> ready(#[trigger] rows[i])
}

/// One upsert: the row with the same identifier is overwritten in place;
/// a fresh identifier is appended.
pub open spec fn spec_upsert(rows: Seq<RecordView>, r: RecordView) -> Seq<RecordView> {
    if has_id(rows, r.id) {
        rows.update(index_of_id(rows, r.id), r)
    } else {
        rows.push(r)
    }
}

/// A bulk upsert: the records of a batch applied in order.
pub open spec fn apply_batch(rows: Seq<RecordView>, batch: Seq<RecordView>) -> Seq<RecordView>
    decreases batch.len(),
{
    if batch.len() == 0 {
        rows
    } else {
        spec_upsert(apply_batch(rows, batch.drop_last()), batch.last())
    }
}

/// The store: the rows of the backing table, in row order.
pub struct Store {
    pub rows: Vec<NodeRecord>,
}

impl View for Store {
    type V = Seq<RecordView>;

    open spec fn view(&self) -> Seq<RecordView> {
        records_view(self.rows@)
    }
}

impl Store {
    /// One row per identifier, every row ready: the schema invariant.
    pub open spec fn wf(&self) -> bool {
        distinct_ids(self@) && all_ready(self@)
    }

    /// An empty store.
    pub fn new() -> (s: Store)
        ensures
            s@ == Seq::<RecordView>::empty(),
            s.wf(),
    {
        let s = Store { rows: Vec::new() };
        proof {
            assert(s@ =~= Seq::<RecordView>::empty());
        }
        s
    }

    /// The number of stored rows.
    pub fn len(&self) -> (n: usize)
        ensures
            n == self@.len(),
    {
        self.rows.len()
    }

    /// Writes one record: overwrites the row with the same identifier, or
    /// appends the record if its identifier is fresh.
    pub fn upsert(&mut self, r: NodeRecord)
        requires
            old(self).wf(),
            ready(r@),
        ensures
            final(self).wf(),
            final(self)@ == spec_upsert(old(self)@, r@),
    {
        let n = self.rows.len();
        let mut i: usize = 0;
        while i < n
            invariant
                n == self.rows@.len(),
                i <= n,
                *self == *old(self),
                ready(r@),
                old(self).wf(),
                forall|j: int| 0 <= j < i ==> self@[j].id != r@.id,
            decreases n - i,
        {
            if self.rows[i].id == r.id {
                proof {
                    assert(self@[i as int] == self.rows@[i as int]@);
                    assert(self@[i as int].id == r@.id);
                    assert(has_id(self@, r@.id));
                    let w = index_of_id(self@, r@.id);
                    assert(0 <= w < self@.len() && self@[w].id == r@.id);
                    assert(w == i);
                }
                let ghost before = self@;
                *vstd::std_specs::vec::vec_index_mut(&mut self.rows, i) = r;
                proof {
                    assert(self@ =~= before.update(i as int, r@));
                    assert(final(self)@ == self@);
                    lemma_upsert_distinct(before, r@);
                }
                return ;
            }
            i = i + 1;
        }
        proof {
            assert(!has_id(self@, r@.id));
        }
        let ghost before = self@;
        self.rows.push(r);
        proof {
            assert(self@ =~= before.push(r@));
            lemma_upsert_distinct(before, r@);
        }
    }

    /// Performs a bulk upsert of a whole batch, in batch order.
    pub fn upsert_batch(&mut self, batch: Vec<NodeRecord>)
        requires
            old(self).wf(),
            all_ready(records_view(batch@)),
        ensures
            final(self).wf(),
            final(self)@ == apply_batch(old(self)@, records_view(batch@)),
    {
        let ghost bviews = records_view(batch@);
        let mut b = batch;
        let ghost i: int = 0;
        while b.len() > 0
            invariant
                0 <= i <= bviews.len(),
                b@.len() == bviews.len() - i,
                forall|j: int| 0 <= j < b@.len() ==> b@[j]@ == bviews[i + j],
                all_ready(bviews),
                self.wf(),
                self@ == apply_batch(old(self)@, bviews.take(i)),
            decreases b.len(),
        {
            let r = b.remove(0);
            proof {
                assert(r@ == bviews[i]);
                assert(ready(bviews[i]));
                assert(bviews.take(i + 1).drop_last() =~= bviews.take(i));
                assert(bviews.take(i + 1).last() == bviews[i]);
            }
            self.upsert(r);
            proof {
                i = i + 1;
            }
        }
        proof {
            assert(bviews.take(bviews.len() as int) =~= bviews);
        }
    }
}

/// Whether the given row occurs among the rows.
pub open spec fn has_row(rows: Seq<RecordView>, r: RecordView) -> bool {
    exists|i: int| 0 <= i < rows.len() && rows[i] == r
}

/// Every row of an upsert result comes from the table or is the written
/// record.
pub proof fn lemma_upsert_rows(rows: Seq<RecordView>, r: RecordView)
    ensures
        forall|x: RecordView|
            has_row(#[trigger] spec_upsert(rows, r), x) ==> has_row(rows, x) || x == r,
{
    let after = spec_upsert(rows, r);
    assert forall|x: RecordView| has_row(after, x) implies has_row(rows, x) || x == r by {
        let k = choose|k: int| 0 <= k < after.len() && after[k] == x;
        if has_id(rows, r.id) {
            let w = index_of_id(rows, r.id);
            if k != w {
                assert(rows[k] == x);
            }
        } else {
            if k < rows.len() {
                assert(rows[k] == x);
            }
        }
    }
}

/// Every row of a bulk-upsert result comes from the table or from the batch.
pub proof fn lemma_apply_batch_rows(rows: Seq<RecordView>, batch: Seq<RecordView>)
    ensures
        forall|x: RecordView|
            has_row(#[trigger] apply_batch(rows, batch), x) ==> has_row(rows, x) || has_row(
                batch,
                x,
            ),
    decreases batch.len(),
{
    if batch.len() > 0 {
        let prefix = batch.drop_last();
        let r = batch.last();
        let mid = apply_batch(rows, prefix);
        lemma_apply_batch_rows(rows, prefix);
        lemma_upsert_rows(mid, r);
        assert forall|x: RecordView| has_row(apply_batch(rows, batch), x) implies has_row(rows, x)
            || has_row(batch, x) by {
            if has_row(mid, x) {
                if has_row(prefix, x) {
                    let k = choose|k: int| 0 <= k < prefix.len() && prefix[k] == x;
                    assert(batch[k] == x);
                }
            } else {
                assert(x == r);
                assert(batch[batch.len() - 1] == x);
            }
        }
    }
}

/// Appending one row adds exactly its identifier to the id set.
pub proof fn lemma_ids_set_push(rows: Seq<RecordView>, r: RecordView)
    ensures
        ids_set(rows.push(r)) == ids_set(rows).insert(r.id),
{
    assert forall|x: int| has_id(rows.push(r), x) <==> (has_id(rows, x) || x == r.id) by {
        if has_id(rows.push(r), x) {
            let k = choose|k: int| 0 <= k < rows.push(r).len() && rows.push(r)[k].id == x;
            if k < rows.len() {
                assert(rows[k].id == x);
            }
        }
        if has_id(rows, x) {
            let k = choose|k: int| 0 <= k < rows.len() && rows[k].id == x;
            assert(rows.push(r)[k].id == x);
        }
        if x == r.id {
            assert(rows.push(r)[rows.len() as int].id == x);
        }
    }
    assert(ids_set(rows.push(r)) =~= ids_set(rows).insert(r.id));
}

/// An upsert keeps identifiers distinct.
pub proof fn lemma_upsert_distinct(rows: Seq<RecordView>, r: RecordView)
    requires
        distinct_ids(rows),
    ensures
        distinct_ids(spec_upsert(rows, r)),
        all_ready(rows) && ready(r) ==> all_ready(spec_upsert(rows, r)),
{
    if has_id(rows, r.id) {
        let w = index_of_id(rows, r.id);
        assert(0 <= w < rows.len() && rows[w].id == r.id);
    }
}

/// An upsert adds exactly the written identifier to the stored set.
pub proof fn lemma_upsert_ids(rows: Seq<RecordView>, r: RecordView)
    requires
        distinct_ids(rows),
    ensures
        ids_set(spec_upsert(rows, r)) == ids_set(rows).insert(r.id),
{
    let after = spec_upsert(rows, r);
    if has_id(rows, r.id) {
        let w = index_of_id(rows, r.id);
        assert(0 <= w < rows.len() && rows[w].id == r.id);
        assert forall|x: int| has_id(after, x) <==> (has_id(rows, x) || x == r.id) by {
            if has_id(after, x) {
                let k = choose|k: int| 0 <= k < after.len() && after[k].id == x;
                if k != w {
                    assert(rows[k].id == x);
                }
            }
            if has_id(rows, x) {
                let k = choose|k: int| 0 <= k < rows.len() && rows[k].id == x;
                if k == w {
                    assert(after[w].id == r.id);
                } else {
                    assert(after[k].id == x);
                }
            }
            if x == r.id {
                assert(after[w].id == x);
            }
        }
    } else {
        assert forall|x: int| has_id(after, x) <==> (has_id(rows, x) || x == r.id) by {
            if has_id(after, x) {
                let k = choose|k: int| 0 <= k < after.len() && after[k].id == x;
                if k < rows.len() {
                    assert(rows[k].id == x);
                }
            }
            if has_id(rows, x) {
                let k = choose|k: int| 0 <= k < rows.len() && rows[k].id == x;
                assert(after[k].id == x);
            }
            if x == r.id {
                assert(after[rows.len() as int].id == x);
            }
        }
    }
    assert(ids_set(after) =~= ids_set(rows).insert(r.id));
}

/// A bulk upsert keeps identifiers distinct and readiness, and adds exactly
/// the batch's identifiers to the stored set.
pub proof fn lemma_apply_batch_ids(rows: Seq<RecordView>, batch: Seq<RecordView>)
    requires
        distinct_ids(rows),
    ensures
        distinct_ids(apply_batch(rows, batch)),
        all_ready(rows) && all_ready(batch) ==> all_ready(apply_batch(rows, batch)),
        ids_set(apply_batch(rows, batch)) == ids_set(rows).union(ids_set(batch)),
    decreases batch.len(),
{
    if batch.len() == 0 {
        assert(ids_set(batch) =~= Set::<int>::empty());
        assert(ids_set(rows).union(ids_set(batch)) =~= ids_set(rows));
    } else {
        let prefix = batch.drop_last();
        let r = batch.last();
        lemma_apply_batch_ids(rows, prefix);
        let mid = apply_batch(rows, prefix);
        lemma_upsert_distinct(mid, r);
        lemma_upsert_ids(mid, r);
        if all_ready(rows) && all_ready(batch) {
            assert(all_ready(prefix)) by {
                assert(forall|i: int|
                    0 <= i < prefix.len() ==> #[trigger] prefix[i] == batch[i] && ready(batch[i]));
            }
            assert(ready(r));
        }
        assert forall|x: int| has_id(batch, x) <==> (has_id(prefix, x) || x == r.id) by {
            if has_id(batch, x) {
                let k = choose|k: int| 0 <= k < batch.len() && batch[k].id == x;
                if k < prefix.len() {
                    assert(prefix[k].id == x);
                }
            }
            if has_id(prefix, x) {
                let k = choose|k: int| 0 <= k < prefix.len() && prefix[k].id == x;
                assert(batch[k].id == x);
            }
            if x == r.id {
                assert(batch[batch.len() - 1].id == x);
            }
        }
        assert(ids_set(apply_batch(rows, batch)) =~= ids_set(rows).union(ids_set(batch)));
    }
}

/// Under distinct identifiers the stored id set has exactly one member per
/// row.
pub proof fn lemma_distinct_ids_card(rows: Seq<RecordView>)
    requires
        distinct_ids(rows),
    ensures
        ids_set(rows).finite(),
        ids_set(rows).len() == rows.len(),
    decreases rows.len(),
{
    if rows.len() == 0 {
        assert(ids_set(rows) =~= Set::<int>::empty());
    } else {
        let prefix = rows.drop_last();
        let r = rows.last();
        lemma_distinct_ids_card(prefix);
        assert forall|x: int| has_id(rows, x) <==> (has_id(prefix, x) || x == r.id) by {
            if has_id(rows, x) {
                let k = choose|k: int| 0 <= k < rows.len() && rows[k].id == x;
                if k < prefix.len() {
                    assert(prefix[k].id == x);
                }
            }
            if has_id(prefix, x) {
                let k = choose|k: int| 0 <= k < prefix.len() && prefix[k].id == x;
                assert(rows[k].id == x);
            }
            if x == r.id {
                assert(rows[rows.len() - 1].id == x);
            }
        }
        assert(ids_set(rows) =~= ids_set(prefix).insert(r.id));
        assert(!has_id(prefix, r.id)) by {
            if has_id(prefix, r.id) {
                let k = choose|k: int| 0 <= k < prefix.len() && prefix[k].id == r.id;
                assert(rows[k].id == rows[rows.len() - 1].id);
            }
        }
        assert(!ids_set(prefix).contains(r.id));
    }
}

/// The value stored under each identifier after a bulk upsert: the last
/// record of the batch with that identifier, or the previous row if the
/// batch carries none.
pub open spec fn last_with_id(batch: Seq<RecordView>, id: int) -> Option<RecordView>
    decreases batch.len(),
{
    if batch.len() == 0 {
        None
    } else if batch.last().id == id {
        Some(batch.last())
    } else {
        last_with_id(batch.drop_last(), id)
    }
}

/// Characterizes one upsert pointwise.
pub proof fn lemma_upsert_value(rows: Seq<RecordView>, r: RecordView, id: int)
    requires
        distinct_ids(rows),
    ensures
        value_of(spec_upsert(rows, r), id) == (if id == r.id {
            Some(r)
        } else {
            value_of(rows, id)
        }),
{
    let after = spec_upsert(rows, r);
    lemma_upsert_distinct(rows, r);
    lemma_upsert_ids(rows, r);
    if has_id(rows, r.id) {
        let w = index_of_id(rows, r.id);
        assert(0 <= w < rows.len() && rows[w].id == r.id);
        if id == r.id {
            assert(after[w].id == id);
            assert(has_id(after, id));
            let k = index_of_id(after, id);
            assert(0 <= k < after.len() && after[k].id == id);
            if k != w {
                assert(rows[k].id == id);
            }
        } else {
            if has_id(rows, id) {
                let k = index_of_id(rows, id);
                assert(0 <= k < rows.len() && rows[k].id == id);
                assert(k != w);
                assert(after[k].id == id);
                assert(has_id(after, id));
                let k2 = index_of_id(after, id);
                assert(0 <= k2 < after.len() && after[k2].id == id);
                assert(k2 != w);
                assert(rows[k2].id == id);
                assert(k2 == k);
            } else {
                if has_id(after, id) {
                    let k = index_of_id(after, id);
                    assert(0 <= k < after.len() && after[k].id == id);
                    assert(k != w);
                    assert(rows[k].id == id);
                }
            }
        }
    } else {
        let n = rows.len() as int;
        if id == r.id {
            assert(after[n].id == id);
            assert(has_id(after, id));
            let k = index_of_id(after, id);
            assert(0 <= k < after.len() && after[k].id == id);
            if k != n {
                assert(rows[k].id == id);
            }
        } else {
            if has_id(rows, id) {
                let k = index_of_id(rows, id);
                assert(after[k].id == id);
                assert(has_id(after, id));
                let k2 = index_of_id(after, id);
                assert(0 <= k2 < after.len() && after[k2].id == id);
                assert(k2 != n);
                assert(rows[k2].id == id);
                assert(k2 == k);
            } else {
                if has_id(after, id) {
                    let k = index_of_id(after, id);
                    assert(0 <= k < after.len() && after[k].id == id);
                    if k != n {
                        assert(rows[k].id == id);
                    }
                }
            }
        }
    }
}

/// Characterizes a bulk upsert pointwise.
pub proof fn lemma_apply_batch_value(rows: Seq<RecordView>, batch: Seq<RecordView>, id: int)
    requires
        distinct_ids(rows),
    ensures
        value_of(apply_batch(rows, batch), id) == (match last_with_id(batch, id) {
            Some(r) => Some(r),
            None => value_of(rows, id),
        }),
    decreases batch.len(),
{
    if batch.len() > 0 {
        let prefix = batch.drop_last();
        let r = batch.last();
        lemma_apply_batch_value(rows, prefix, id);
        lemma_apply_batch_ids(rows, prefix);
        lemma_upsert_value(apply_batch(rows, prefix), r, id);
    }
}

/// Idempotent upsert: re-applying the same batch leaves the row set
/// unchanged — every identifier maps to the same row, and no identifier
/// appears or disappears.
pub proof fn lemma_upsert_idempotent(rows: Seq<RecordView>, batch: Seq<RecordView>)
    requires
        distinct_ids(rows),
    ensures
        ids_set(apply_batch(apply_batch(rows, batch), batch)) == ids_set(apply_batch(rows, batch)),
        forall|id: int| value_of(apply_batch(apply_batch(rows, batch), batch), id) == value_of(
            apply_batch(rows, batch),
            id,
        ),
{
    let once = apply_batch(rows, batch);
    let twice = apply_batch(once, batch);
    lemma_apply_batch_ids(rows, batch);
    lemma_apply_batch_ids(once, batch);
    assert(ids_set(twice) =~= ids_set(once));
    assert forall|id: int| value_of(twice, id) == value_of(once, id) by {
        lemma_apply_batch_value(rows, batch, id);
        lemma_apply_batch_value(once, batch, id);
        match last_with_id(batch, id) {
            Some(r) => {},
            None => {},
        }
    }
}

} // verus!
