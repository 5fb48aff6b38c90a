//! The batch accumulator, round-robin dispatcher and worker pool, modeled as
//! one sequential state machine.
//!
//! Ready records are buffered up to `batch_size`; a full buffer is swapped
//! out and submitted as one batch to the worker slot the round-robin cursor
//! selects. Each slot owns a bounded queue (capacity `queue_capacity`) and a
//! ghost log of everything ever submitted to it and everything its worker
//! has written; a worker consumes its queue strictly in arrival order and
//! bulk-upserts each batch into the store. Submission to a full queue first
//! lets that slot's worker consume one batch — the backpressure that bounds
//! in-flight memory to `pool_size × queue_capacity` batches.

use vstd::prelude::*;

use crate::record::NodeRecord;
use crate::record::RecordView;
use crate::record::ready;
use crate::record::records_view;
use crate::store::Store;
use crate::store::all_ready;
use crate::store::apply_batch;
use crate::store::distinct_ids;
use crate::store::has_row;
use crate::store::ids_set;
use crate::store::lemma_apply_batch_ids;
use crate::store::lemma_apply_batch_rows;
use crate::store::lemma_distinct_ids_card;
use vstd::arithmetic::div_mod::lemma_fundamental_div_mod;
use vstd::arithmetic::div_mod::lemma_fundamental_div_mod_converse;
use vstd::arithmetic::div_mod::lemma_mod_bound;

verus! {

/// One worker slot: the bounded queue its worker consumes, plus ghost logs
/// of every batch ever submitted to the slot and every batch its worker has
/// written, both in arrival order.
pub struct WorkerSlot {
    pub queue: Vec<Vec<NodeRecord>>,
    pub submitted: Ghost<Seq<Seq<RecordView>>>,
    pub written: Ghost<Seq<Seq<RecordView>>>,
}

/// The mathematical value of a worker slot.
#[verifier::ext_equal]
pub ghost struct SlotView {
    pub queue: Seq<Seq<RecordView>>,
    pub submitted: Seq<Seq<RecordView>>,
    pub written: Seq<Seq<RecordView>>,
}

/// The view of a queue of batches.
pub open spec fn batches_view(q: Seq<Vec<NodeRecord>>) -> Seq<Seq<RecordView>> {
    q.map_values(|b: Vec<NodeRecord>| records_view(b@))
}

impl View for WorkerSlot {
    type V = SlotView;

    open spec fn view(&self) -> SlotView {
        SlotView {
            queue: batches_view(self.queue@),
            submitted: self.submitted@,
            written: self.written@,
        }
    }
}

/// The identifiers carried by a sequence of batches.
pub open spec fn batches_ids(bs: Seq<Seq<RecordView>>) -> Set<int>
    decreases bs.len(),
{
    if bs.len() == 0 {
        Set::empty()
    } else {
        batches_ids(bs.drop_last()).union(ids_set(bs.last()))
    }
}

/// The identifiers carried by one batch log per slot.
pub open spec fn logs_ids(logs: Seq<Seq<Seq<RecordView>>>) -> Set<int>
    decreases logs.len(),
{
    if logs.len() == 0 {
        Set::empty()
    } else {
        logs_ids(logs.drop_last()).union(batches_ids(logs.last()))
    }
}

/// Whether a row occurs in some batch of a log.
pub open spec fn batches_has(bs: Seq<Seq<RecordView>>, x: RecordView) -> bool {
    exists|i: int| 0 <= i < bs.len() && has_row(#[trigger] bs[i], x)
}

/// Whether a row occurs in some slot's log.
pub open spec fn logs_has(logs: Seq<Seq<Seq<RecordView>>>, x: RecordView) -> bool {
    exists|i: int| 0 <= i < logs.len() && batches_has(#[trigger] logs[i], x)
}

/// The submission logs of all slots.
pub open spec fn submitted_logs(slots: Seq<WorkerSlot>) -> Seq<Seq<Seq<RecordView>>> {
    slots.map_values(|w: WorkerSlot| w@.submitted)
}

/// The write logs of all slots.
pub open spec fn written_logs(slots: Seq<WorkerSlot>) -> Seq<Seq<Seq<RecordView>>> {
    slots.map_values(|w: WorkerSlot| w@.written)
}

/// The slot a given submission lands on: the round-robin cursor advances by
/// one, modulo the pool size, before every submission.
pub open spec fn rr_slot(k: int, p: int) -> int {
    (k + 1) % p
}

/// How many of the first `m` submissions land on slot `s`.
pub open spec fn rr_count(m: int, p: int, s: int) -> int
    decreases m,
{
    if m <= 0 {
        0
    } else {
        rr_count(m - 1, p, s) + (if rr_slot(m - 1, p) == s {
            1int
        } else {
            0
        })
    }
}

/// The slot invariant: the queue respects its bound, everything queued is
/// ready for storage, and the submission log is exactly what the worker has
/// written followed by what still waits in the queue — the FIFO discipline.
pub open spec fn slot_wf(v: SlotView, cap: int) -> bool {
    &&& v.queue.len() <= cap
    &&& v.submitted == v.written + v.queue
    &&& forall|i: int| 0 <= i < v.queue.len() ==> all_ready(#[trigger] v.queue[i])
}

/// The batch accumulator and dispatcher over its pool of worker slots,
/// together with the store the workers write.
pub struct BatchInsert {
    /// The buffer of ready records not yet submitted.
    pub batch: Vec<NodeRecord>,
    /// Records per batch.
    pub batch_size: usize,
    /// The bound of every slot's queue.
    pub queue_capacity: usize,
    /// The round-robin cursor: the slot of the most recent submission.
    pub last_dispatcher: usize,
    /// The worker slots.
    pub slots: Vec<WorkerSlot>,
    /// The store the workers write into.
    pub store: Store,
    /// Ghost log of every record ever accepted by `insert`.
    pub inserted: Ghost<Seq<RecordView>>,
    /// Ghost count of submissions made so far.
    pub flushes: Ghost<int>,
}

impl BatchInsert {
    /// The buffered records.
    pub open spec fn buf(&self) -> Seq<RecordView> {
        records_view(self.batch@)
    }

    /// The pool size.
    pub open spec fn pool(&self) -> int {
        self.slots@.len() as int
    }

    /// The view of one slot.
    pub open spec fn slotv(&self, s: int) -> SlotView {
        self.slots@[s]@
    }

    /// The pipeline invariant: sizes positive, the cursor tracks the number
    /// of submissions, every slot holds its bound and its FIFO discipline,
    /// the buffer is within one batch, the store keys exactly what the
    /// workers have written, and nothing accepted is ever lost or invented —
    /// the identifiers submitted or still buffered are exactly the
    /// identifiers accepted, and every row stored or in flight is a record
    /// that `insert` accepted.
    pub open spec fn wf(&self) -> bool {
        &&& self.batch_size >= 1
        &&& self.queue_capacity >= 1
        &&& self.pool() >= 1
        &&& (self.last_dispatcher as int) < self.pool()
        &&& self.flushes@ >= 0
        &&& (self.last_dispatcher as int) == self.flushes@ % self.pool()
        &&& self.batch@.len() <= self.batch_size
        &&& all_ready(self.buf())
        &&& (forall|s: int|
            0 <= s < self.pool() ==> slot_wf(#[trigger] self.slotv(s), self.queue_capacity as int))
        &&& (forall|s: int|
            0 <= s < self.pool() ==> (#[trigger] self.slotv(s)).submitted.len() == rr_count(
                self.flushes@,
                self.pool(),
                s,
            ))
        &&& self.store.wf()
        &&& ids_set(self.store@) == logs_ids(written_logs(self.slots@))
        &&& logs_ids(submitted_logs(self.slots@)).union(ids_set(self.buf())) == ids_set(
            self.inserted@,
        )
        &&& (forall|x: RecordView|
            has_row(self.store@, x) ==> logs_has(written_logs(self.slots@), x))
        &&& (forall|x: RecordView|
            logs_has(submitted_logs(self.slots@), x) ==> has_row(self.inserted@, x))
        &&& (forall|x: RecordView| has_row(self.buf(), x) ==> has_row(self.inserted@, x))
    }

    /// A fresh pipeline: empty buffer, empty queues, empty store, the cursor
    /// at slot zero.
    pub fn new(batch_size: usize, pool_size: usize, queue_capacity: usize) -> (b: BatchInsert)
        requires
            batch_size >= 1,
            pool_size >= 1,
            queue_capacity >= 1,
        ensures
            b.wf(),
            b.batch_size == batch_size,
            b.queue_capacity == queue_capacity,
            b.pool() == pool_size,
            b.batch@.len() == 0,
            b.inserted@ == Seq::<RecordView>::empty(),
            b.store@ == Seq::<RecordView>::empty(),
            b.flushes@ == 0,
            forall|s: int|
                0 <= s < pool_size ==> (#[trigger] b.slotv(s)).queue.len() == 0 && b.slotv(
                    s,
                ).submitted.len() == 0,
    {
        let mut slots: Vec<WorkerSlot> = Vec::new();
        while slots.len() < pool_size
            invariant
                slots@.len() <= pool_size,
                forall|s: int|
                    0 <= s < slots@.len() ==> (#[trigger] slots@[s]@).queue.len() == 0
                        && slots@[s]@.submitted.len() == 0 && slots@[s]@.written.len() == 0,
            decreases pool_size - slots.len(),
        {
            slots.push(
                WorkerSlot {
                    queue: Vec::new(),
                    submitted: Ghost(Seq::empty()),
                    written: Ghost(Seq::empty()),
                },
            );
        }
        let b = BatchInsert {
            batch: Vec::new(),
            batch_size,
            queue_capacity,
            last_dispatcher: 0,
            slots,
            store: Store::new(),
            inserted: Ghost(Seq::empty()),
            flushes: Ghost(0),
        };
        proof {
            lemma_fundamental_div_mod_converse(0, pool_size as int, 0, 0);
            assert forall|s: int| 0 <= s < b.pool() implies slot_wf(
                #[trigger] b.slotv(s),
                b.queue_capacity as int,
            ) by {
                assert(b.slotv(s).written + b.slotv(s).queue =~= b.slotv(s).submitted);
            }
            lemma_logs_ids_zero(written_logs(b.slots@));
            lemma_logs_ids_zero(submitted_logs(b.slots@));
            assert(ids_set(Seq::<RecordView>::empty()) =~= Set::<int>::empty());
            assert(b.buf() =~= Seq::<RecordView>::empty());
            assert(logs_ids(submitted_logs(b.slots@)).union(ids_set(b.buf())) =~= ids_set(
                b.inserted@,
            ));
            assert forall|x: RecordView| has_row(b.store@, x) implies logs_has(
                written_logs(b.slots@),
                x,
            ) by {
                let i = choose|i: int| 0 <= i < b.store@.len() && b.store@[i] == x;
                assert(false);
            }
            assert forall|x: RecordView| logs_has(submitted_logs(b.slots@), x) implies has_row(
                b.inserted@,
                x,
            ) by {
                let i = choose|i: int|
                    0 <= i < submitted_logs(b.slots@).len() && batches_has(
                        submitted_logs(b.slots@)[i],
                        x,
                    );
                assert(submitted_logs(b.slots@)[i] == b.slots@[i]@.submitted);
                let j = choose|j: int|
                    0 <= j < submitted_logs(b.slots@)[i].len() && has_row(
                        submitted_logs(b.slots@)[i][j],
                        x,
                    );
                assert(false);
            }
            assert forall|x: RecordView| has_row(b.buf(), x) implies has_row(b.inserted@, x) by {
                let i = choose|i: int| 0 <= i < b.buf().len() && b.buf()[i] == x;
                assert(false);
            }
        }
        b
    }

    /// One step of the worker owning slot `s`: takes the batch at the front
    /// of the queue — the earliest submitted batch not yet written — and
    /// bulk-upserts it into the store.
    pub fn worker_step(&mut self, s: usize)
        requires
            old(self).wf(),
            (s as int) < old(self).pool(),
            old(self).slotv(s as int).queue.len() > 0,
        ensures
            final(self).wf(),
            final(self).slotv(s as int).queue == old(self).slotv(s as int).queue.drop_first(),
            final(self).slotv(s as int).written == old(self).slotv(s as int).written.push(
                old(self).slotv(s as int).queue[0],
            ),
            final(self).slotv(s as int).submitted == old(self).slotv(s as int).submitted,
            forall|j: int|
                0 <= j < old(self).pool() && j != s ==> final(self).slots@[j] == old(
                    self,
                ).slots@[j],
            final(self).store@ == apply_batch(old(self).store@, old(self).slotv(s as int).queue[0]),
            final(self).batch == old(self).batch,
            final(self).batch_size == old(self).batch_size,
            final(self).queue_capacity == old(self).queue_capacity,
            final(self).last_dispatcher == old(self).last_dispatcher,
            final(self).pool() == old(self).pool(),
            final(self).inserted == old(self).inserted,
            final(self).flushes == old(self).flushes,
    {
        let ghost oldslots = self.slots@;
        let ghost front = old(self).slotv(s as int).queue[0];
        let slot = vstd::std_specs::vec::vec_index_mut(&mut self.slots, s);
        let b = slot.queue.remove(0);
        proof {
            assert(records_view(b@) == front);
        }
        slot.written = Ghost(slot.written@.push(records_view(b@)));
        proof {
            assert(self.slots@ == oldslots.update(s as int, *slot));
            assert(batches_view(slot.queue@) =~= old(self).slotv(s as int).queue.drop_first());
            assert(all_ready(front)) by {
                assert(slot_wf(old(self).slotv(s as int), old(self).queue_capacity as int));
            }
        }
        self.store.upsert_batch(b);
        proof {
            let p = self.pool();
            let si = s as int;
            let oldv = old(self).slotv(si);
            let newv = self.slotv(si);
            assert(newv.submitted == oldv.submitted);
            assert(newv.written == oldv.written.push(front));
            assert(newv.queue == oldv.queue.drop_first());
            // FIFO discipline at the stepped slot
            assert(slot_wf(oldv, self.queue_capacity as int));
            assert(oldv.queue == seq![front] + newv.queue) by {
                assert(oldv.queue =~= seq![front] + oldv.queue.drop_first());
            }
            assert(newv.written + newv.queue =~= oldv.written + oldv.queue);
            assert(slot_wf(newv, self.queue_capacity as int)) by {
                assert(forall|i: int|
                    0 <= i < newv.queue.len() ==> #[trigger] newv.queue[i] == oldv.queue[i + 1]);
            }
            assert forall|j: int| 0 <= j < p implies slot_wf(
                #[trigger] self.slotv(j),
                self.queue_capacity as int,
            ) by {
                if j != si {
                    assert(self.slotv(j) == old(self).slotv(j));
                    assert(slot_wf(old(self).slotv(j), self.queue_capacity as int));
                }
            }
            assert forall|j: int| 0 <= j < p implies (#[trigger] self.slotv(j)).submitted.len()
                == rr_count(self.flushes@, p, j) by {
                assert(self.slotv(j).submitted == old(self).slotv(j).submitted);
                assert(old(self).slotv(j).submitted.len() == rr_count(old(self).flushes@, p, j));
            }
            // the store keys exactly what has been written
            lemma_apply_batch_ids(old(self).store@, front);
            assert(written_logs(self.slots@) =~= written_logs(oldslots).update(
                si,
                oldv.written.push(front),
            ));
            lemma_batches_ids_push(oldv.written, front);
            lemma_logs_ids_update(
                written_logs(oldslots),
                si,
                oldv.written.push(front),
                ids_set(front),
            );
            assert(ids_set(self.store@) =~= logs_ids(written_logs(self.slots@)));
            // submissions unchanged, so conservation is untouched
            assert(submitted_logs(self.slots@) =~= submitted_logs(oldslots));
            assert(self.buf() == old(self).buf());
            // row provenance: everything stored was written by some worker
            lemma_apply_batch_rows(old(self).store@, front);
            let wl_old = written_logs(oldslots);
            let wl_new = written_logs(self.slots@);
            assert forall|x: RecordView| has_row(self.store@, x) implies logs_has(wl_new, x) by {
                if has_row(old(self).store@, x) {
                    assert(logs_has(wl_old, x));
                    let i = choose|i: int| 0 <= i < wl_old.len() && batches_has(wl_old[i], x);
                    if i == si {
                        let j = choose|j: int| 0 <= j < wl_old[i].len() && has_row(wl_old[i][j], x);
                        assert(wl_new[i][j] == wl_old[i][j]);
                        assert(batches_has(wl_new[i], x));
                    } else {
                        assert(wl_new[i] == wl_old[i]);
                        assert(batches_has(wl_new[i], x));
                    }
                } else {
                    assert(has_row(front, x));
                    assert(wl_new[si][oldv.written.len() as int] == front);
                    assert(batches_has(wl_new[si], x));
                }
            }
            assert forall|x: RecordView| logs_has(submitted_logs(self.slots@), x) implies has_row(
                self.inserted@,
                x,
            ) by {
                assert(logs_has(submitted_logs(oldslots), x));
            }
            assert forall|x: RecordView| has_row(self.buf(), x) implies has_row(
                self.inserted@,
                x,
            ) by {
                assert(has_row(old(self).buf(), x));
            }
        }
    }
}

impl BatchInsert {
    /// Submits whatever is buffered — even a partial or empty buffer — as
    /// one batch to the next slot in round-robin order, and replaces the
    /// buffer with a fresh empty one. If the selected slot's queue is full,
    /// that slot's worker first consumes one batch: the backpressure that
    /// keeps every queue within its bound. Returns how many records were
    /// submitted.
    pub fn flush(&mut self) -> (count: usize)
        requires
            old(self).wf(),
        ensures
            final(self).wf(),
            count == old(self).batch@.len(),
            final(self).batch@.len() == 0,
            final(self).batch_size == old(self).batch_size,
            final(self).queue_capacity == old(self).queue_capacity,
            final(self).pool() == old(self).pool(),
            final(self).inserted == old(self).inserted,
            final(self).flushes@ == old(self).flushes@ + 1,
            (final(self).last_dispatcher as int) == (old(self).last_dispatcher as int + 1) % old(
                self,
            ).pool(),
            final(self).slotv(final(self).last_dispatcher as int).submitted == old(self).slotv(
                (old(self).last_dispatcher as int + 1) % old(self).pool(),
            ).submitted.push(records_view(old(self).batch@)),
            forall|j: int|
                0 <= j < old(self).pool() && j != (old(self).last_dispatcher as int + 1) % old(
                    self,
                ).pool() ==> #[trigger] final(self).slots@[j] == old(self).slots@[j],
            ({
                let t = (old(self).last_dispatcher as int + 1) % old(self).pool();
                if old(self).slotv(t).queue.len() >= old(self).queue_capacity {
                    &&& final(self).store@ == apply_batch(old(self).store@, old(self).slotv(
                        t,
                    ).queue[0])
                    &&& final(self).slotv(t).queue == old(self).slotv(
                        t,
                    ).queue.drop_first().push(records_view(old(self).batch@))
                    &&& final(self).slotv(t).written == old(self).slotv(t).written.push(
                        old(self).slotv(t).queue[0],
                    )
                } else {
                    &&& final(self).store@ == old(self).store@
                    &&& final(self).slotv(t).queue == old(self).slotv(t).queue.push(
                        records_view(old(self).batch@),
                    )
                    &&& final(self).slotv(t).written == old(self).slotv(t).written
                }
            }),
    {
        let p = self.slots.len();
        let t = (self.last_dispatcher + 1) % p;
        proof {
            lemma_mod_bound(self.last_dispatcher as int + 1, p as int);
        }
        if self.slots[t].queue.len() >= self.queue_capacity {
            self.worker_step(t);
        }
        let ghost mid = *self;
        let mut batch: Vec<NodeRecord> = Vec::new();
        core::mem::swap(&mut self.batch, &mut batch);
        let count = batch.len();
        let ghost bviews = records_view(batch@);
        let ghost oldslots = self.slots@;
        let slot = vstd::std_specs::vec::vec_index_mut(&mut self.slots, t);
        slot.queue.push(batch);
        slot.submitted = Ghost(slot.submitted@.push(bviews));
        self.last_dispatcher = t;
        self.flushes = Ghost(self.flushes@ + 1);
        proof {
            let pi = p as int;
            let ti = t as int;
            assert(self.slots@ == oldslots.update(ti, *slot));
            assert(bviews == old(self).buf());
            let oldv = mid.slotv(ti);
            let newv = self.slotv(ti);
            assert(newv.queue =~= oldv.queue.push(bviews));
            assert(newv.submitted == oldv.submitted.push(bviews));
            assert(newv.written == oldv.written);
            // the cursor keeps tracking the number of submissions
            lemma_mod_succ(mid.flushes@, pi);
            assert(ti == self.flushes@ % pi);
            assert(rr_slot(mid.flushes@, pi) == ti);
            // FIFO discipline at the target slot
            assert(slot_wf(oldv, self.queue_capacity as int));
            assert(newv.written + newv.queue =~= newv.submitted) by {
                assert(oldv.written + oldv.queue.push(bviews) =~= (oldv.written
                    + oldv.queue).push(bviews));
            }
            assert(all_ready(bviews));
            assert(slot_wf(newv, self.queue_capacity as int)) by {
                assert(forall|i: int|
                    0 <= i < oldv.queue.len() ==> #[trigger] newv.queue[i] == oldv.queue[i]);
                assert(newv.queue[oldv.queue.len() as int] == bviews);
            }
            assert forall|j: int| 0 <= j < pi implies slot_wf(
                #[trigger] self.slotv(j),
                self.queue_capacity as int,
            ) by {
                if j != ti {
                    assert(self.slotv(j) == mid.slotv(j));
                    assert(slot_wf(mid.slotv(j), self.queue_capacity as int));
                }
            }
            // one more submission, landing exactly on the target slot
            assert forall|j: int| 0 <= j < pi implies (#[trigger] self.slotv(j)).submitted.len()
                == rr_count(self.flushes@, pi, j) by {
                assert(mid.slotv(j).submitted.len() == rr_count(mid.flushes@, pi, j));
                if j != ti {
                    assert(self.slotv(j) == mid.slotv(j));
                }
            }
            // the store still keys exactly what has been written
            assert(written_logs(self.slots@) =~= written_logs(oldslots));
            assert(ids_set(self.store@) == logs_ids(written_logs(self.slots@)));
            // conservation: the buffered identifiers moved into the
            // submission log
            assert(submitted_logs(self.slots@) =~= submitted_logs(oldslots).update(
                ti,
                oldv.submitted.push(bviews),
            ));
            lemma_batches_ids_push(oldv.submitted, bviews);
            lemma_logs_ids_update(
                submitted_logs(oldslots),
                ti,
                oldv.submitted.push(bviews),
                ids_set(bviews),
            );
            assert(self.buf() =~= Seq::<RecordView>::empty());
            assert(ids_set(self.buf()) =~= Set::<int>::empty());
            assert(logs_ids(submitted_logs(self.slots@)).union(ids_set(self.buf())) =~= ids_set(
                self.inserted@,
            ));
            // row provenance: the store and the write logs did not change,
            // and the enqueued batch was the buffer, whose rows were already
            // accepted
            assert(bviews == mid.buf());
            assert forall|x: RecordView| has_row(self.store@, x) implies logs_has(
                written_logs(self.slots@),
                x,
            ) by {
                assert(has_row(mid.store@, x));
                assert(logs_has(written_logs(mid.slots@), x));
            }
            assert forall|x: RecordView| logs_has(submitted_logs(self.slots@), x) implies has_row(
                self.inserted@,
                x,
            ) by {
                let sl_new = submitted_logs(self.slots@);
                let sl_old = submitted_logs(oldslots);
                let i = choose|i: int| 0 <= i < sl_new.len() && batches_has(sl_new[i], x);
                if i == ti {
                    let j = choose|j: int| 0 <= j < sl_new[i].len() && has_row(sl_new[i][j], x);
                    if j < oldv.submitted.len() {
                        assert(sl_old[i][j] == sl_new[i][j]);
                        assert(batches_has(sl_old[i], x));
                        assert(logs_has(sl_old, x));
                    } else {
                        assert(sl_new[i][j] == bviews);
                        assert(has_row(mid.buf(), x));
                    }
                } else {
                    assert(sl_new[i] == sl_old[i]);
                    assert(batches_has(sl_old[i], x));
                    assert(logs_has(sl_old, x));
                }
            }
            assert forall|x: RecordView| has_row(self.buf(), x) implies has_row(
                self.inserted@,
                x,
            ) by {
                let i = choose|i: int| 0 <= i < self.buf().len() && self.buf()[i] == x;
                assert(false);
            }
        }
        count
    }

    /// Accepts one ready record: buffers it, and submits the whole buffer as
    /// one batch the moment it reaches `batch_size`.
    pub fn insert(&mut self, value: NodeRecord)
        requires
            old(self).wf(),
            ready(value@),
            old(self).batch@.len() < old(self).batch_size,
        ensures
            final(self).wf(),
            final(self).batch@.len() < final(self).batch_size,
            final(self).inserted@ == old(self).inserted@.push(value@),
            final(self).batch_size == old(self).batch_size,
            final(self).queue_capacity == old(self).queue_capacity,
            final(self).pool() == old(self).pool(),
            old(self).batch@.len() + 1 < old(self).batch_size ==> ({
                &&& final(self).buf() == old(self).buf().push(value@)
                &&& final(self).slots@ == old(self).slots@
                &&& final(self).store@ == old(self).store@
                &&& final(self).flushes == old(self).flushes
                &&& final(self).last_dispatcher == old(self).last_dispatcher
            }),
            old(self).batch@.len() + 1 == old(self).batch_size ==> ({
                let t = (old(self).last_dispatcher as int + 1) % old(self).pool();
                &&& final(self).batch@.len() == 0
                &&& final(self).flushes@ == old(self).flushes@ + 1
                &&& (final(self).last_dispatcher as int) == t
                &&& final(self).slotv(t).submitted == old(self).slotv(t).submitted.push(
                    old(self).buf().push(value@),
                )
            }),
    {
        let ghost oldbuf = self.buf();
        let ghost v = value@;
        self.batch.push(value);
        self.inserted = Ghost(self.inserted@.push(v));
        proof {
            assert(self.buf() =~= oldbuf.push(v));
            crate::store::lemma_ids_set_push(oldbuf, v);
            crate::store::lemma_ids_set_push(old(self).inserted@, v);
            assert(logs_ids(submitted_logs(self.slots@)).union(ids_set(self.buf())) =~= ids_set(
                self.inserted@,
            ));
            assert forall|s: int| 0 <= s < self.pool() implies slot_wf(
                #[trigger] self.slotv(s),
                self.queue_capacity as int,
            ) by {
                assert(self.slotv(s) == old(self).slotv(s));
                assert(slot_wf(old(self).slotv(s), old(self).queue_capacity as int));
            }
            assert forall|s: int| 0 <= s < self.pool() implies (#[trigger] self.slotv(
                s,
            )).submitted.len() == rr_count(self.flushes@, self.pool(), s) by {
                assert(self.slotv(s) == old(self).slotv(s));
                assert(old(self).slotv(s).submitted.len() == rr_count(
                    old(self).flushes@,
                    old(self).pool(),
                    s,
                ));
            }
            // row provenance: the accepted record is buffered and logged
            assert forall|x: RecordView| has_row(self.buf(), x) implies has_row(
                self.inserted@,
                x,
            ) by {
                let i = choose|i: int| 0 <= i < self.buf().len() && self.buf()[i] == x;
                if i < oldbuf.len() {
                    assert(oldbuf[i] == x);
                    assert(has_row(oldbuf, x));
                    assert(has_row(old(self).inserted@, x));
                    let k = choose|k: int|
                        0 <= k < old(self).inserted@.len() && old(self).inserted@[k] == x;
                    assert(self.inserted@[k] == x);
                } else {
                    assert(x == v);
                    assert(self.inserted@[old(self).inserted@.len() as int] == x);
                }
            }
            assert forall|x: RecordView| logs_has(submitted_logs(self.slots@), x) implies has_row(
                self.inserted@,
                x,
            ) by {
                assert(logs_has(submitted_logs(old(self).slots@), x));
                assert(has_row(old(self).inserted@, x));
                let k = choose|k: int|
                    0 <= k < old(self).inserted@.len() && old(self).inserted@[k] == x;
                assert(self.inserted@[k] == x);
            }
            assert forall|x: RecordView| has_row(self.store@, x) implies logs_has(
                written_logs(self.slots@),
                x,
            ) by {
                assert(has_row(old(self).store@, x));
                assert(logs_has(written_logs(old(self).slots@), x));
            }
        }
        if self.batch.len() >= self.batch_size {
            self.flush();
        }
    }
}

/// A log of empty slots carries no identifiers.
proof fn lemma_logs_ids_zero(logs: Seq<Seq<Seq<RecordView>>>)
    requires
        forall|i: int| 0 <= i < logs.len() ==> (#[trigger] logs[i]).len() == 0,
    ensures
        logs_ids(logs) == Set::<int>::empty(),
    decreases logs.len(),
{
    if logs.len() > 0 {
        lemma_logs_ids_zero(logs.drop_last());
        assert(logs_ids(logs) =~= Set::<int>::empty());
    }
}

impl BatchInsert {
    /// The drain path, run on shutdown: submits the last partial batch, then
    /// lets every worker consume its queue to the end. Idempotent: a second
    /// shutdown submits an empty batch and drains already-empty queues,
    /// leaving the store unchanged. Afterwards the store keys exactly the
    /// identifiers of every record ever accepted: nothing buffered is lost.
    pub fn shutdown(&mut self)
        requires
            old(self).wf(),
        ensures
            final(self).wf(),
            final(self).batch@.len() == 0,
            final(self).pool() == old(self).pool(),
            final(self).inserted@ == old(self).inserted@,
            queues_empty_upto(final(self).slots@, final(self).pool()),
            ids_set(final(self).store@) == ids_set(final(self).inserted@),
            forall|x: RecordView|
                has_row(final(self).store@, x) ==> has_row(final(self).inserted@, x),
    {
        self.flush();
        let p = self.slots.len();
        let mut s: usize = 0;
        while s < p
            invariant
                self.wf(),
                p == self.pool(),
                self.inserted@ == old(self).inserted@,
                self.batch@.len() == 0,
                s <= p,
                queues_empty_upto(self.slots@, s as int),
            decreases p - s,
        {
            while self.slots[s].queue.len() > 0
                invariant
                    self.wf(),
                    p == self.pool(),
                    s < p,
                    self.inserted@ == old(self).inserted@,
                    self.batch@.len() == 0,
                    queues_empty_upto(self.slots@, s as int),
                decreases self.slots@[s as int]@.queue.len(),
            {
                let ghost prevslots = self.slots@;
                self.worker_step(s);
                proof {
                    assert forall|j: int| 0 <= j < s implies (#[trigger] self.slots@[j]@).queue.len()
                        == 0 by {
                        assert(self.slots@[j] == prevslots[j]);
                        assert(prevslots[j]@.queue.len() == 0);
                    }
                }
            }
            proof {
                assert forall|j: int| 0 <= j < s + 1 implies (#[trigger] self.slots@[j]@).queue.len()
                    == 0 by {
                    if j == s {
                        assert(batches_view(self.slots@[j].queue@).len() == 0);
                    }
                }
            }
            s = s + 1;
        }
        proof {
            let pi = p as int;
            assert(written_logs(self.slots@) =~= submitted_logs(self.slots@)) by {
                assert forall|j: int| 0 <= j < pi implies written_logs(self.slots@)[j]
                    == submitted_logs(self.slots@)[j] by {
                    assert(slot_wf(self.slotv(j), self.queue_capacity as int));
                    assert(self.slots@[j]@.queue.len() == 0);
                    assert(self.slotv(j).queue.len() == 0);
                    assert(self.slotv(j).written + self.slotv(j).queue =~= self.slotv(j).written);
                }
            }
            assert(ids_set(self.buf()) =~= Set::<int>::empty());
            assert(ids_set(self.store@) =~= ids_set(self.inserted@));
            assert forall|x: RecordView| has_row(self.store@, x) implies has_row(
                self.inserted@,
                x,
            ) by {
                assert(logs_has(written_logs(self.slots@), x));
                assert(logs_has(submitted_logs(self.slots@), x));
            }
        }
    }
}

/// The first `s` slots have empty queues.
pub open spec fn queues_empty_upto(slots: Seq<WorkerSlot>, s: int) -> bool {
    forall|j: int| 0 <= j < s ==> (#[trigger] slots[j]@).queue.len() == 0
}

/// FIFO per worker: under the pipeline invariant, what a slot's worker has
/// written is exactly the earliest batches submitted to that slot, in
/// submission order — a batch never overtakes an earlier one on the same
/// slot.
pub proof fn lemma_fifo_per_worker(b: &BatchInsert, s: int)
    requires
        b.wf(),
        0 <= s < b.pool(),
    ensures
        b.slotv(s).written.len() <= b.slotv(s).submitted.len(),
        forall|i: int|
            0 <= i < b.slotv(s).written.len() ==> b.slotv(s).submitted[i] == b.slotv(s).written[i],
{
    assert(slot_wf(b.slotv(s), b.queue_capacity as int));
    assert(b.slotv(s).submitted == b.slotv(s).written + b.slotv(s).queue);
}

/// The number of batches currently queued across all slots.
pub open spec fn queued_batches(slots: Seq<WorkerSlot>) -> int
    decreases slots.len(),
{
    if slots.len() == 0 {
        0
    } else {
        queued_batches(slots.drop_last()) + slots.last()@.queue.len()
    }
}

proof fn lemma_queued_bound(slots: Seq<WorkerSlot>, cap: int)
    requires
        forall|s: int| 0 <= s < slots.len() ==> (#[trigger] slots[s]@).queue.len() <= cap,
    ensures
        queued_batches(slots) >= 0,
        queued_batches(slots) <= slots.len() * cap,
    decreases slots.len(),
{
    if slots.len() == 0 {
        assert(slots.len() * cap == 0) by (nonlinear_arith)
            requires
                slots.len() == 0,
        ;
    } else {
        lemma_queued_bound(slots.drop_last(), cap);
        assert(slots.last()@.queue.len() <= cap);
        assert((slots.len() - 1) * cap + cap == slots.len() * cap) by (nonlinear_arith);
    }
}

/// Backpressure bound: under the pipeline invariant, the batches in flight
/// across all queues never exceed `pool_size × queue_capacity`.
pub proof fn lemma_backpressure_bound(b: &BatchInsert)
    requires
        b.wf(),
    ensures
        queued_batches(b.slots@) <= b.pool() * (b.queue_capacity as int),
{
    assert forall|s: int| 0 <= s < b.slots@.len() implies (#[trigger] b.slots@[s]@).queue.len()
        <= b.queue_capacity as int by {
        assert(slot_wf(b.slotv(s), b.queue_capacity as int));
    }
    lemma_queued_bound(b.slots@, b.queue_capacity as int);
}

/// The closed form of the round-robin count: how many of the first `m`
/// submissions land on slot `s`.
proof fn lemma_rr_count_closed(m: int, p: int, s: int)
    requires
        m >= 0,
        p >= 1,
        0 <= s < p,
    ensures
        rr_count(m, p, s) == (if s == 0 {
            m / p
        } else if m < s {
            0
        } else {
            (m - s) / p + 1
        }),
    decreases m,
{
    if m == 0 {
        lemma_fundamental_div_mod_converse(0, p, 0, 0);
    } else {
        lemma_rr_count_closed(m - 1, p, s);
        lemma_fundamental_div_mod(m, p);
        lemma_mod_bound(m, p);
        let q = m / p;
        let r = m % p;
        assert(m == q * p + r) by (nonlinear_arith)
            requires
                m == p * q + r,
        ;
        if s == 0 {
            if r == 0 {
                assert(m - 1 == (q - 1) * p + (p - 1)) by (nonlinear_arith)
                    requires
                        m == q * p,
                ;
                lemma_fundamental_div_mod_converse(m - 1, p, q - 1, p - 1);
            } else {
                lemma_fundamental_div_mod_converse(m - 1, p, q, r - 1);
            }
        } else {
            if m < s {
                lemma_fundamental_div_mod_converse(m, p, 0, m);
            } else if m == s {
                lemma_fundamental_div_mod_converse(m, p, 0, m);
                lemma_fundamental_div_mod_converse(0, p, 0, 0);
            } else {
                let d = m - s;
                lemma_fundamental_div_mod(d, p);
                lemma_mod_bound(d, p);
                let e = d / p;
                let f = d % p;
                assert(d == e * p + f) by (nonlinear_arith)
                    requires
                        d == p * e + f,
                ;
                if f == 0 {
                    lemma_fundamental_div_mod_converse(m, p, e, s);
                    assert(d - 1 == (e - 1) * p + (p - 1)) by (nonlinear_arith)
                        requires
                            d == e * p,
                    ;
                    lemma_fundamental_div_mod_converse(d - 1, p, e - 1, p - 1);
                } else {
                    if s + f < p {
                        lemma_fundamental_div_mod_converse(m, p, e, s + f);
                    } else {
                        assert(m == (e + 1) * p + (s + f - p)) by (nonlinear_arith)
                            requires
                                m == e * p + f + s,
                        ;
                        lemma_fundamental_div_mod_converse(m, p, e + 1, s + f - p);
                    }
                    lemma_fundamental_div_mod_converse(d - 1, p, e, f - 1);
                }
            }
        }
    }
}

/// Round-robin fairness: of `m` submissions to a pool of `p` slots, every
/// slot receives either ⌊m/p⌋ or ⌈m/p⌉ batches; when `p` divides `m` the
/// distribution is exact.
pub proof fn lemma_round_robin_fair(m: int, p: int, s: int)
    requires
        m >= 0,
        p >= 1,
        0 <= s < p,
    ensures
        rr_count(m, p, s) == m / p || rr_count(m, p, s) == m / p + 1,
        m % p == 0 ==> rr_count(m, p, s) == m / p,
{
    lemma_rr_count_closed(m, p, s);
    lemma_fundamental_div_mod(m, p);
    lemma_mod_bound(m, p);
    let q = m / p;
    let r = m % p;
    assert(m == q * p + r) by (nonlinear_arith)
        requires
            m == p * q + r,
    ;
    if s == 0 {
    } else if m < s {
        lemma_fundamental_div_mod_converse(m, p, 0, m);
    } else {
        if s <= r {
            lemma_fundamental_div_mod_converse(m - s, p, q, r - s);
        } else {
            assert(m - s == (q - 1) * p + (p + r - s)) by (nonlinear_arith)
                requires
                    m == q * p + r,
            ;
            lemma_fundamental_div_mod_converse(m - s, p, q - 1, p + r - s);
        }
    }
}

/// The dispatcher cursor alone, for a caller that owns the real queues:
/// advances round-robin on every submission.
pub struct RoundRobin {
    pub last: usize,
    pub pool_size: usize,
}

impl RoundRobin {
    /// The cursor is always a valid slot of a non-empty pool.
    pub open spec fn wf(&self) -> bool {
        self.pool_size >= 1 && self.last < self.pool_size
    }

    /// A cursor at slot zero.
    pub fn new(pool_size: usize) -> (r: RoundRobin)
        requires
            pool_size >= 1,
        ensures
            r.wf(),
            r.pool_size == pool_size,
            r.last == 0,
    {
        RoundRobin { last: 0, pool_size }
    }

    /// The slot of the next submission.
    pub fn next(&mut self) -> (s: usize)
        requires
            old(self).wf(),
        ensures
            final(self).wf(),
            final(self).pool_size == old(self).pool_size,
            s == (old(self).last + 1) % (old(self).pool_size as int),
            final(self).last == s,
    {
        self.last = (self.last + 1) % self.pool_size;
        self.last
    }
}

/// Fairness of the pipeline as it stands: after any number of submissions,
/// every slot has received either ⌊flushes/pool⌋ or ⌈flushes/pool⌉ batches.
pub proof fn lemma_pool_fairness(b: &BatchInsert, s: int)
    requires
        b.wf(),
        0 <= s < b.pool(),
    ensures
        b.slotv(s).submitted.len() == b.flushes@ / b.pool() || b.slotv(s).submitted.len()
            == b.flushes@ / b.pool() + 1,
        b.flushes@ % b.pool() == 0 ==> b.slotv(s).submitted.len() == b.flushes@ / b.pool(),
{
    lemma_round_robin_fair(b.flushes@, b.pool(), s);
}

/// Runs a whole sequence of ready records through a fresh pipeline and
/// drains it: the store ends up keying exactly the identifiers of the input,
/// and, when the input identifiers are distinct, holds exactly one row per
/// input record — no record is lost on drain, whatever the relation of the
/// input length to the batch size.
pub fn run_pipeline(
    records: Vec<NodeRecord>,
    batch_size: usize,
    pool_size: usize,
    queue_capacity: usize,
) -> (store: Store)
    requires
        batch_size >= 1,
        pool_size >= 1,
        queue_capacity >= 1,
        all_ready(records_view(records@)),
    ensures
        store.wf(),
        ids_set(store@) == ids_set(records_view(records@)),
        distinct_ids(records_view(records@)) ==> store@.len() == records@.len(),
        distinct_ids(records_view(records@)) ==> forall|k: int|
            0 <= k < records@.len() ==> crate::store::value_of(
                store@,
                #[trigger] records_view(records@)[k].id,
            ) == Some(records_view(records@)[k]),
{
    let ghost rviews = records_view(records@);
    let mut rs = records;
    let mut pipe = BatchInsert::new(batch_size, pool_size, queue_capacity);
    let ghost i: int = 0;
    proof {
        assert(pipe.inserted@ =~= rviews.take(0));
    }
    while rs.len() > 0
        invariant
            pipe.wf(),
            pipe.batch@.len() < pipe.batch_size,
            0 <= i <= rviews.len(),
            rs@.len() == rviews.len() - i,
            forall|j: int| 0 <= j < rs@.len() ==> rs@[j]@ == rviews[i + j],
            all_ready(rviews),
            pipe.inserted@ == rviews.take(i),
        decreases rs.len(),
    {
        let r = rs.remove(0);
        proof {
            assert(r@ == rviews[i]);
            assert(ready(rviews[i]));
            assert(rviews.take(i + 1) =~= rviews.take(i).push(rviews[i]));
        }
        pipe.insert(r);
        proof {
            i = i + 1;
        }
    }
    proof {
        assert(rviews.take(rviews.len() as int) =~= rviews);
    }
    pipe.shutdown();
    proof {
        if distinct_ids(rviews) {
            lemma_distinct_ids_card(rviews);
            lemma_distinct_ids_card(pipe.store@);
            // with distinct identifiers, the stored row under each input's
            // identifier can only be that very input record
            assert forall|k: int| 0 <= k < rviews.len() implies crate::store::value_of(
                pipe.store@,
                #[trigger] rviews[k].id,
            ) == Some(rviews[k]) by {
                let id = rviews[k].id;
                assert(crate::store::has_id(rviews, id));
                assert(ids_set(rviews).contains(id));
                assert(crate::store::has_id(pipe.store@, id));
                let w = crate::store::index_of_id(pipe.store@, id);
                assert(0 <= w < pipe.store@.len() && pipe.store@[w].id == id);
                let x = pipe.store@[w];
                assert(has_row(pipe.store@, x));
                assert(has_row(pipe.inserted@, x));
                let j = choose|j: int| 0 <= j < rviews.len() && rviews[j] == x;
                assert(rviews[j].id == rviews[k].id);
                assert(j == k);
            }
        }
    }
    pipe.store
}

/// Advancing a counter by one advances its remainder cyclically.
proof fn lemma_mod_succ(a: int, p: int)
    requires
        a >= 0,
        p >= 1,
    ensures
        (a + 1) % p == (a % p + 1) % p,
{
    lemma_fundamental_div_mod(a, p);
    lemma_mod_bound(a, p);
    let q = a / p;
    let r = a % p;
    if r + 1 == p {
        assert((q + 1) * p == p * q + p) by (nonlinear_arith);
        assert(a + 1 == (q + 1) * p + 0);
        lemma_fundamental_div_mod_converse(a + 1, p, q + 1, 0);
        assert(r + 1 == 1 * p + 0) by (nonlinear_arith)
            requires
                r + 1 == p,
        ;
        lemma_fundamental_div_mod_converse(r + 1, p, 1, 0);
    } else {
        assert(q * p == p * q) by (nonlinear_arith);
        assert(a + 1 == q * p + (r + 1));
        lemma_fundamental_div_mod_converse(a + 1, p, q, r + 1);
        assert(r + 1 == 0 * p + (r + 1)) by (nonlinear_arith);
        lemma_fundamental_div_mod_converse(r + 1, p, 0, r + 1);
    }
}

/// Appending one batch to a log adds exactly that batch's identifiers.
proof fn lemma_batches_ids_push(bs: Seq<Seq<RecordView>>, b: Seq<RecordView>)
    ensures
        batches_ids(bs.push(b)) == batches_ids(bs).union(ids_set(b)),
{
    assert(bs.push(b).drop_last() =~= bs);
    assert(bs.push(b).last() == b);
}

/// Extending one slot's log by a set of identifiers extends the union over
/// all slots by exactly that set.
proof fn lemma_logs_ids_update(
    logs: Seq<Seq<Seq<RecordView>>>,
    s: int,
    x: Seq<Seq<RecordView>>,
    extra: Set<int>,
)
    requires
        0 <= s < logs.len(),
        batches_ids(x) == batches_ids(logs[s]).union(extra),
    ensures
        logs_ids(logs.update(s, x)) == logs_ids(logs).union(extra),
    decreases logs.len(),
{
    let upd = logs.update(s, x);
    if s == logs.len() - 1 {
        assert(upd.drop_last() =~= logs.drop_last());
        assert(upd.last() == x);
        assert(logs_ids(upd) =~= logs_ids(logs).union(extra));
    } else {
        assert(upd.drop_last() =~= logs.drop_last().update(s, x));
        assert(upd.last() == logs.last());
        lemma_logs_ids_update(logs.drop_last(), s, x, extra);
        assert(logs_ids(upd) =~= logs_ids(logs).union(extra));
    }
}

} // verus!
