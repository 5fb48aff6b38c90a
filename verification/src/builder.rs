//! The record builder: a state machine that reconstructs address records
//! from a flat, ordered sequence of structural events.
//!
//! The builder keeps one current record plus the contextual state that is
//! carried across records: the last country seen (seeded from an optional
//! configured default). A record-start event closes the current record,
//! emitting it together with its readiness flag, and opens a fresh record
//! whose country is inherited from the context. A key/value event routes the
//! value into a field of the current record through a fixed dispatch table;
//! postcodes and house numbers are normalized on the way in, a country value
//! additionally updates the context, unrecognized keys and tags with a
//! missing value are ignored.

use vstd::prelude::*;

use crate::record::NodeRecord;
use crate::record::RecordView;
use crate::record::ready;
use crate::record::records_view;
use crate::text::normalize_code;
use crate::text::normalized;
use crate::text::str_eq;

verus! {

/// One structural event of the input stream. The tokenizer that produces
/// these from raw bytes is outside this library; events arrive typed.
pub enum Event {
    /// Start of a new address-bearing element, with its identifier and its
    /// coordinates in nano-degrees.
    NodeStart { id: i64, lat: i64, lon: i64 },
    /// A key/value attribute of the current element. A missing value is
    /// ignored entirely.
    Tag { key: String, value: Option<String> },
    /// Any element this pipeline does not react to.
    Other,
}

/// The mathematical value of an `Event`.
#[verifier::ext_equal]
pub ghost enum EventView {
    NodeStart { id: int, lat: int, lon: int },
    Tag { key: Seq<char>, value: Option<Seq<char>> },
    Other,
}

impl View for Event {
    type V = EventView;

    open spec fn view(&self) -> EventView {
        match self {
            Event::NodeStart { id, lat, lon } => EventView::NodeStart {
                id: *id as int,
                lat: *lat as int,
                lon: *lon as int,
            },
            Event::Tag { key, value } => EventView::Tag { key: key@, value: value.deep_view() },
            Event::Other => EventView::Other,
        }
    }
}

/// The mathematical state of a builder: the current record, if one is open,
/// and the sticky country carried across records.
#[verifier::ext_equal]
pub ghost struct BuilderView {
    pub current: Option<RecordView>,
    pub sticky_country: Option<Seq<char>>,
}

/// The record a record-start event opens: identifier and coordinates from
/// the event, the country inherited from the context, all other fields
/// absent.
pub open spec fn fresh_record(id: int, lat: int, lon: int, sticky: Option<Seq<char>>) -> RecordView {
    RecordView {
        id: id,
        lat: lat,
        lon: lon,
        postcode: None,
        street: None,
        city: None,
        country: sticky,
        province: None,
        state: None,
        house_number: None,
        house_name: None,
        source: None,
        source_date: None,
        version: None,
    }
}

/// The fixed dispatch table: how one key/value pair with a present value
/// changes the current record. Unrecognized keys leave it unchanged.
pub open spec fn tag_applied(r: RecordView, key: Seq<char>, v: Seq<char>) -> RecordView {
    if key == "addr:city"@ {
        RecordView { city: Some(v), ..r }
    } else if key == "addr:country"@ {
        RecordView { country: Some(v), ..r }
    } else if key == "addr:postcode"@ {
        RecordView { postcode: Some(normalized(v)), ..r }
    } else if key == "addr:street"@ {
        RecordView { street: Some(v), ..r }
    } else if key == "addr:province"@ {
        RecordView { province: Some(v), ..r }
    } else if key == "addr:housenumber"@ {
        RecordView { house_number: Some(normalized(v)), ..r }
    } else if key == "addr:state"@ {
        RecordView { state: Some(v), ..r }
    } else if key == "addr:housename"@ {
        RecordView { house_name: Some(v), ..r }
    } else {
        r
    }
}

/// One step of the builder: the state after the event, and the closed record
/// the event emits, if any, paired with its readiness flag.
pub open spec fn builder_step(st: BuilderView, ev: EventView) -> (BuilderView, Option<
    (RecordView, bool),
>) {
    match ev {
        EventView::NodeStart { id, lat, lon } => {
            let emitted = match st.current {
                Some(r) => Some((r, ready(r))),
                None => None,
            };
            (
                BuilderView {
                    current: Some(fresh_record(id, lat, lon, st.sticky_country)),
                    sticky_country: st.sticky_country,
                },
                emitted,
            )
        },
        EventView::Tag { key, value } => match (st.current, value) {
            (Some(r), Some(v)) => (
                BuilderView {
                    current: Some(tag_applied(r, key, v)),
                    sticky_country: if key == "addr:country"@ {
                        Some(v)
                    } else {
                        st.sticky_country
                    },
                },
                None,
            ),
            _ => (st, None),
        },
        EventView::Other => (st, None),
    }
}

/// End of stream: the current record, if any, is closed and emitted with its
/// readiness flag.
pub open spec fn builder_finish(st: BuilderView) -> (BuilderView, Option<(RecordView, bool)>) {
    match st.current {
        Some(r) => (
            BuilderView { current: None, sticky_country: st.sticky_country },
            Some((r, ready(r))),
        ),
        None => (st, None),
    }
}

/// The view of an emitted (record, readiness) pair.
pub open spec fn emit_view(e: Option<(NodeRecord, bool)>) -> Option<(RecordView, bool)> {
    match e {
        Some(p) => Some((p.0@, p.1)),
        None => None,
    }
}

/// The streaming record builder.
pub struct RecordBuilder {
    pub current: Option<NodeRecord>,
    pub sticky_country: Option<String>,
}

impl View for RecordBuilder {
    type V = BuilderView;

    open spec fn view(&self) -> BuilderView {
        BuilderView {
            current: match self.current {
                Some(r) => Some(r@),
                None => None,
            },
            sticky_country: self.sticky_country.deep_view(),
        }
    }
}

impl RecordBuilder {
    /// A builder at stream start: no current record, the context seeded with
    /// the configured default country, if any.
    pub fn new(default_country: Option<String>) -> (b: RecordBuilder)
        ensures
            b@ == (BuilderView { current: None, sticky_country: default_country.deep_view() }),
    {
        RecordBuilder { current: None, sticky_country: default_country }
    }

    /// Consumes one event; returns the closed record the event emits, if
    /// any, with its readiness flag.
    pub fn step(&mut self, event: Event) -> (emitted: Option<(NodeRecord, bool)>)
        ensures
            final(self)@ == builder_step(old(self)@, event@).0,
            emit_view(emitted) == builder_step(old(self)@, event@).1,
    {
        match event {
            Event::NodeStart { id, lat, lon } => {
                let prev = self.current.take();
                let emitted = match prev {
                    Some(r) => {
                        let f = crate::record::node_ready(&r);
                        Some((r, f))
                    },
                    None => None,
                };
                let sticky = crate::record::clone_opt(&self.sticky_country);
                self.current = Some(
                    NodeRecord {
                        id,
                        lat,
                        lon,
                        postcode: None,
                        street: None,
                        city: None,
                        country: sticky,
                        province: None,
                        state: None,
                        house_number: None,
                        house_name: None,
                        source: None,
                        source_date: None,
                        version: None,
                    },
                );
                emitted
            },
            Event::Tag { key, value } => {
                match (self.current.take(), value) {
                    (Some(mut r), Some(v)) => {
                        proof {
                            reveal_strlit("addr:city");
                            reveal_strlit("addr:country");
                            reveal_strlit("addr:postcode");
                            reveal_strlit("addr:street");
                            reveal_strlit("addr:province");
                            reveal_strlit("addr:housenumber");
                            reveal_strlit("addr:state");
                            reveal_strlit("addr:housename");
                            assert("addr:city"@.len() == 9);
                            assert("addr:country"@.len() == 12);
                            assert("addr:city"@ != "addr:country"@);
                        }
                        if str_eq(key.as_str(), "addr:city") {
                            r.city = Some(v);
                        } else if str_eq(key.as_str(), "addr:country") {
                            self.sticky_country = Some(v.clone());
                            r.country = Some(v);
                        } else if str_eq(key.as_str(), "addr:postcode") {
                            r.postcode = Some(normalize_code(v.as_str()));
                        } else if str_eq(key.as_str(), "addr:street") {
                            r.street = Some(v);
                        } else if str_eq(key.as_str(), "addr:province") {
                            r.province = Some(v);
                        } else if str_eq(key.as_str(), "addr:housenumber") {
                            r.house_number = Some(normalize_code(v.as_str()));
                        } else if str_eq(key.as_str(), "addr:state") {
                            r.state = Some(v);
                        } else if str_eq(key.as_str(), "addr:housename") {
                            r.house_name = Some(v);
                        }
                        self.current = Some(r);
                        None
                    },
                    (cur, _) => {
                        self.current = cur;
                        None
                    },
                }
            },
            Event::Other => None,
        }
    }

    /// End of stream: closes and returns the current record, if any, with
    /// its readiness flag.
    pub fn finish(&mut self) -> (emitted: Option<(NodeRecord, bool)>)
        ensures
            final(self)@ == builder_finish(old(self)@).0,
            emit_view(emitted) == builder_finish(old(self)@).1,
    {
        match self.current.take() {
            Some(r) => {
                let f = crate::record::node_ready(&r);
                Some((r, f))
            },
            None => None,
        }
    }
}

/// The view of a sequence of events.
pub open spec fn events_view(s: Seq<Event>) -> Seq<EventView> {
    s.map_values(|e: Event| e@)
}

/// The view of a sequence of emitted (record, readiness) pairs.
pub open spec fn pairs_view(s: Seq<(NodeRecord, bool)>) -> Seq<(RecordView, bool)> {
    s.map_values(|p: (NodeRecord, bool)| (p.0@, p.1))
}

/// The builder state at stream start.
pub open spec fn start_state(seed: Option<Seq<char>>) -> BuilderView {
    BuilderView { current: None, sticky_country: seed }
}

/// The builder state after a whole sequence of events.
pub open spec fn run_steps(st: BuilderView, events: Seq<EventView>) -> BuilderView
    decreases events.len(),
{
    if events.len() == 0 {
        st
    } else {
        builder_step(run_steps(st, events.drop_last()), events.last()).0
    }
}

/// The (record, readiness) pairs a sequence of events emits, in input order.
pub open spec fn run_emits(st: BuilderView, events: Seq<EventView>) -> Seq<(RecordView, bool)>
    decreases events.len(),
{
    if events.len() == 0 {
        Seq::empty()
    } else {
        let prev = run_emits(st, events.drop_last());
        match builder_step(run_steps(st, events.drop_last()), events.last()).1 {
            Some(p) => prev.push(p),
            None => prev,
        }
    }
}

/// Every closed record of a finite stream, with its readiness flag: the
/// records emitted along the way plus the final record closed at end of
/// stream.
pub open spec fn closed_records(seed: Option<Seq<char>>, events: Seq<EventView>) -> Seq<
    (RecordView, bool),
> {
    let st0 = start_state(seed);
    match builder_finish(run_steps(st0, events)).1 {
        Some(p) => run_emits(st0, events).push(p),
        None => run_emits(st0, events),
    }
}

/// The records among a sequence of flagged pairs whose flag is set, in
/// order.
pub open spec fn ready_of(pairs: Seq<(RecordView, bool)>) -> Seq<RecordView>
    decreases pairs.len(),
{
    if pairs.len() == 0 {
        Seq::empty()
    } else {
        ready_of(pairs.drop_last()) + (if pairs.last().1 {
            seq![pairs.last().0]
        } else {
            Seq::<RecordView>::empty()
        })
    }
}

/// The ready records of a finite stream, in input order: exactly those
/// closed records whose required fields are populated.
pub open spec fn ready_records(seed: Option<Seq<char>>, events: Seq<EventView>) -> Seq<RecordView> {
    ready_of(closed_records(seed, events))
}

/// Runs the builder over a whole finite stream: one (record, readiness) pair
/// per closed record, preserving input order.
pub fn build_records(events: Vec<Event>, default_country: Option<String>) -> (out: Vec<
    (NodeRecord, bool),
>)
    ensures
        pairs_view(out@) == closed_records(default_country.deep_view(), events_view(events@)),
{
    let ghost all: Seq<EventView> = events_view(events@);
    let ghost st0: BuilderView = start_state(default_country.deep_view());
    let mut evs = events;
    let mut b = RecordBuilder::new(default_country);
    let mut out: Vec<(NodeRecord, bool)> = Vec::new();
    let ghost i: int = 0;
    while evs.len() > 0
        invariant
            0 <= i <= all.len(),
            evs@.len() == all.len() - i,
            forall|j: int| 0 <= j < evs@.len() ==> evs@[j]@ == all[i + j],
            b@ == run_steps(st0, all.take(i)),
            pairs_view(out@) == run_emits(st0, all.take(i)),
        decreases evs.len(),
    {
        let e = evs.remove(0);
        proof {
            assert(e@ == all[i]);
            assert(all.take(i + 1).drop_last() =~= all.take(i));
            assert(all.take(i + 1).last() == all[i]);
        }
        let emitted = b.step(e);
        match emitted {
            Some(p) => {
                out.push(p);
            },
            None => {},
        }
        proof {
            assert(pairs_view(out@) =~= run_emits(st0, all.take(i + 1)));
            i = i + 1;
        }
    }
    proof {
        assert(all.take(all.len() as int) =~= all);
    }
    let last = b.finish();
    match last {
        Some(p) => {
            out.push(p);
        },
        None => {},
    }
    proof {
        assert(pairs_view(out@) =~= closed_records(default_country.deep_view(), all));
    }
    out
}

/// Runs the builder over a whole finite stream and keeps exactly the ready
/// records: what the batch accumulator receives, in input order.
pub fn build_ready_records(events: Vec<Event>, default_country: Option<String>) -> (out: Vec<
    NodeRecord,
>)
    ensures
        records_view(out@) == ready_records(default_country.deep_view(), events_view(events@)),
{
    let ghost closed: Seq<(RecordView, bool)> = closed_records(
        default_country.deep_view(),
        events_view(events@),
    );
    let pairs = build_records(events, default_country);
    let mut rest = pairs;
    let mut out: Vec<NodeRecord> = Vec::new();
    let ghost i: int = 0;
    while rest.len() > 0
        invariant
            0 <= i <= closed.len(),
            rest@.len() == closed.len() - i,
            forall|j: int| 0 <= j < rest@.len() ==> (rest@[j].0@, rest@[j].1) == closed[i + j],
            records_view(out@) == ready_of(closed.take(i)),
        decreases rest.len(),
    {
        let p = rest.remove(0);
        proof {
            assert((p.0@, p.1) == closed[i]);
            assert(closed.take(i + 1).drop_last() =~= closed.take(i));
            assert(closed.take(i + 1).last() == closed[i]);
        }
        if p.1 {
            out.push(p.0);
        }
        proof {
            assert(records_view(out@) =~= ready_of(closed.take(i + 1)));
            i = i + 1;
        }
    }
    proof {
        assert(closed.take(closed.len() as int) =~= closed);
    }
    out
}

/// Whether an event is a country tag that carries a value: the only event
/// that can change the sticky country of the context.
pub open spec fn is_country_tag(ev: EventView) -> bool {
    match ev {
        EventView::Tag { key, value } => key == "addr:country"@ && value is Some,
        _ => false,
    }
}

/// The context is only moved by country tags: a run containing none leaves
/// the sticky country exactly as it was.
pub proof fn lemma_sticky_unchanged_without_country_tag(st: BuilderView, events: Seq<EventView>)
    requires
        forall|j: int| 0 <= j < events.len() ==> !is_country_tag(events[j]),
    ensures
        run_steps(st, events).sticky_country == st.sticky_country,
    decreases events.len(),
{
    if events.len() > 0 {
        lemma_sticky_unchanged_without_country_tag(st, events.drop_last());
    }
}

/// Contextual stickiness: a record that sees no country tag between its
/// opening record-start event and the end of the run carries exactly the
/// sticky country the context held when it was opened — the value set by the
/// nearest preceding country tag, or the configured seed if there was none.
pub proof fn lemma_record_inherits_context(st: BuilderView, events: Seq<EventView>, k: int)
    requires
        0 <= k < events.len(),
        events[k] is NodeStart,
        forall|j: int| k < j < events.len() ==> !(events[j] is NodeStart) && !is_country_tag(
            events[j],
        ),
    ensures
        run_steps(st, events).current is Some,
        run_steps(st, events).current.unwrap().country == run_steps(
            st,
            events.take(k),
        ).sticky_country,
    decreases events.len(),
{
    if events.len() - 1 == k {
        assert(events.drop_last() =~= events.take(k));
    } else {
        lemma_record_inherits_context(st, events.drop_last(), k);
        assert(events.drop_last().take(k) =~= events.take(k));
    }
}

/// Every emitted pair is flagged by the readiness predicate and nothing
/// else: the flag of a closed record is true exactly when its required
/// fields are populated.
pub proof fn lemma_emitted_flag_is_readiness(seed: Option<Seq<char>>, events: Seq<EventView>)
    ensures
        forall|i: int| 0 <= i < closed_records(seed, events).len() ==> #[trigger] closed_records(
            seed,
            events,
        )[i].1 == ready(closed_records(seed, events)[i].0),
{
    lemma_run_emits_flag(start_state(seed), events);
}

/// Every record among the ready records of a stream has its required fields
/// populated.
pub proof fn lemma_ready_records_ready(seed: Option<Seq<char>>, events: Seq<EventView>)
    ensures
        crate::store::all_ready(ready_records(seed, events)),
{
    lemma_emitted_flag_is_readiness(seed, events);
    lemma_ready_of_ready(closed_records(seed, events));
}

proof fn lemma_ready_of_ready(pairs: Seq<(RecordView, bool)>)
    requires
        forall|i: int| 0 <= i < pairs.len() ==> (#[trigger] pairs[i]).1 == ready(pairs[i].0),
    ensures
        crate::store::all_ready(ready_of(pairs)),
    decreases pairs.len(),
{
    if pairs.len() > 0 {
        assert(forall|i: int|
            0 <= i < pairs.drop_last().len() ==> (#[trigger] pairs.drop_last()[i]) == pairs[i]);
        lemma_ready_of_ready(pairs.drop_last());
        let prev = ready_of(pairs.drop_last());
        let cur = ready_of(pairs);
        assert(pairs[pairs.len() - 1].1 == ready(pairs.last().0));
        assert forall|i: int| 0 <= i < cur.len() implies ready(#[trigger] cur[i]) by {
            if i < prev.len() {
                assert(cur[i] == prev[i]);
            } else {
                assert(pairs.last().1);
                assert(cur[i] == pairs.last().0);
            }
        }
    }
}

proof fn lemma_run_emits_flag(st: BuilderView, events: Seq<EventView>)
    ensures
        forall|i: int| 0 <= i < run_emits(st, events).len() ==> #[trigger] run_emits(
            st,
            events,
        )[i].1 == ready(run_emits(st, events)[i].0),
    decreases events.len(),
{
    if events.len() > 0 {
        lemma_run_emits_flag(st, events.drop_last());
        let prev = run_emits(st, events.drop_last());
        let cur = run_emits(st, events);
        match builder_step(run_steps(st, events.drop_last()), events.last()).1 {
            Some(p) => {
                assert(cur == prev.push(p));
                assert(p.1 == ready(p.0));
                assert forall|i: int| 0 <= i < cur.len() implies #[trigger] cur[i].1 == ready(
                    cur[i].0,
                ) by {
                    if i < prev.len() {
                        assert(cur[i] == prev[i]);
                    } else {
                        assert(cur[i] == p);
                    }
                }
            },
            None => {},
        }
    }
}

} // verus!
