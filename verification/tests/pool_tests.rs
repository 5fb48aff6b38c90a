use postcode_ingest::pool::BatchInsert;
use postcode_ingest::pool::run_pipeline;
use postcode_ingest::record::NodeRecord;

fn rec(id: i64) -> NodeRecord {
    NodeRecord {
        id,
        lat: id * 10,
        lon: 0,
        postcode: Some(format!("PC{}", id)),
        street: Some("Main".to_string()),
        city: None,
        country: None,
        province: None,
        state: None,
        house_number: None,
        house_name: None,
        source: None,
        source_date: None,
        version: None,
    }
}

fn recs(n: i64) -> Vec<NodeRecord> {
    let mut v = Vec::new();
    for id in 1..=n {
        v.push(rec(id));
    }
    v
}

#[test]
fn no_loss_on_drain_partial_batch() {
    // N < B
    let store = run_pipeline(recs(2), 5, 2, 3);
    assert_eq!(store.len(), 2);
}

#[test]
fn no_loss_on_drain_exact_multiple() {
    // N == k * B
    let store = run_pipeline(recs(6), 3, 2, 2);
    assert_eq!(store.len(), 6);
}

#[test]
fn no_loss_on_drain_with_remainder() {
    // N == k * B + r
    let store = run_pipeline(recs(7), 3, 2, 2);
    assert_eq!(store.len(), 7);
}

#[test]
fn duplicate_ids_collapse_to_one_row() {
    let input = vec![rec(1), rec(1), rec(2)];
    let store = run_pipeline(input, 2, 2, 2);
    assert_eq!(store.len(), 2);
}

#[test]
fn round_robin_distributes_evenly() {
    // batch size 1: every insert is one submission; 7 submissions over
    // 3 slots must land 3/2/2 with the first landing on slot 1
    let mut pipe = BatchInsert::new(1, 3, 8);
    for id in 1..=7 {
        pipe.insert(rec(id));
    }
    assert_eq!(pipe.slots[0].queue.len(), 2);
    assert_eq!(pipe.slots[1].queue.len(), 3);
    assert_eq!(pipe.slots[2].queue.len(), 2);
    pipe.shutdown();
    assert_eq!(pipe.store.len(), 7);
}

#[test]
fn fifo_per_worker_writes_in_submission_order() {
    let mut pipe = BatchInsert::new(2, 1, 4);
    for id in 1..=4 {
        pipe.insert(rec(id));
    }
    // two batches wait on the single slot
    assert_eq!(pipe.slots[0].queue.len(), 2);
    pipe.worker_step(0);
    // the first batch submitted is the first written
    assert_eq!(pipe.store.len(), 2);
    assert_eq!(pipe.store.rows[0].id, 1);
    assert_eq!(pipe.store.rows[1].id, 2);
    pipe.worker_step(0);
    assert_eq!(pipe.store.len(), 4);
    assert_eq!(pipe.store.rows[2].id, 3);
    assert_eq!(pipe.store.rows[3].id, 4);
}

#[test]
fn backpressure_keeps_queue_within_capacity() {
    let mut pipe = BatchInsert::new(1, 1, 1);
    for id in 1..=3 {
        pipe.insert(rec(id));
        assert!(pipe.slots[0].queue.len() <= 1);
    }
    // submitting into the full queue forced the worker to consume
    assert_eq!(pipe.store.len(), 2);
    pipe.shutdown();
    assert_eq!(pipe.store.len(), 3);
    assert_eq!(pipe.slots[0].queue.len(), 0);
}

#[test]
fn flush_returns_the_submitted_count_and_empties_the_buffer() {
    let mut pipe = BatchInsert::new(10, 2, 2);
    pipe.insert(rec(1));
    pipe.insert(rec(2));
    assert_eq!(pipe.batch.len(), 2);
    let count = pipe.flush();
    assert_eq!(count, 2);
    assert_eq!(pipe.batch.len(), 0);
    let count = pipe.flush();
    assert_eq!(count, 0);
}

#[test]
fn shutdown_is_idempotent() {
    let mut pipe = BatchInsert::new(2, 2, 2);
    for id in 1..=5 {
        pipe.insert(rec(id));
    }
    pipe.shutdown();
    assert_eq!(pipe.store.len(), 5);
    pipe.shutdown();
    assert_eq!(pipe.store.len(), 5);
}

#[test]
fn cursor_advances_round_robin_on_every_flush() {
    let mut pipe = BatchInsert::new(10, 4, 2);
    assert_eq!(pipe.last_dispatcher, 0);
    pipe.flush();
    assert_eq!(pipe.last_dispatcher, 1);
    pipe.flush();
    assert_eq!(pipe.last_dispatcher, 2);
    pipe.flush();
    assert_eq!(pipe.last_dispatcher, 3);
    pipe.flush();
    assert_eq!(pipe.last_dispatcher, 0);
}

#[test]
fn empty_input_leaves_the_store_empty() {
    let store = run_pipeline(Vec::new(), 3, 2, 2);
    assert_eq!(store.len(), 0);
}
