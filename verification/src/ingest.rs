//! The whole ingestion path, end to end: a finite stream of structural
//! events is run through the record builder, exactly the ready records — no
//! more, no fewer — are handed to the batch accumulator, and the pipeline is
//! drained into the store.

use vstd::prelude::*;

use crate::builder::Event;
use crate::builder::build_ready_records;
use crate::builder::events_view;
use crate::builder::lemma_ready_records_ready;
use crate::builder::ready_records;
use crate::pool::run_pipeline;
use crate::record::records_view;
use crate::store::Store;
use crate::store::distinct_ids;
use crate::store::ids_set;

verus! {

/// Ingests a finite stream of events: builds records, feeds the ready ones
/// to a fresh pipeline, and drains it. The store ends up keying exactly the
/// identifiers of the stream's ready records; when those identifiers are
/// distinct the store holds exactly one row per ready record.
pub fn ingest(
    events: Vec<Event>,
    default_country: Option<String>,
    batch_size: usize,
    pool_size: usize,
    queue_capacity: usize,
) -> (store: Store)
    requires
        batch_size >= 1,
        pool_size >= 1,
        queue_capacity >= 1,
    ensures
        store.wf(),
        ids_set(store@) == ids_set(
            ready_records(default_country.deep_view(), events_view(events@)),
        ),
        distinct_ids(ready_records(default_country.deep_view(), events_view(events@)))
            ==> store@.len() == ready_records(
            default_country.deep_view(),
            events_view(events@),
        ).len(),
        distinct_ids(ready_records(default_country.deep_view(), events_view(events@))) ==> forall|
            k: int,
        |
            0 <= k < ready_records(default_country.deep_view(), events_view(events@)).len()
                ==> crate::store::value_of(
                store@,
                #[trigger] ready_records(default_country.deep_view(), events_view(events@))[k].id,
            ) == Some(ready_records(default_country.deep_view(), events_view(events@))[k]),
{
    let ghost seed = default_country.deep_view();
    let ghost evs = events_view(events@);
    proof {
        lemma_ready_records_ready(seed, evs);
    }
    let ready = build_ready_records(events, default_country);
    proof {
        assert(records_view(ready@) == ready_records(seed, evs));
    }
    run_pipeline(ready, batch_size, pool_size, queue_capacity)
}

} // verus!
