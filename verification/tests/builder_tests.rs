use postcode_ingest::builder::Event;
use postcode_ingest::builder::RecordBuilder;
use postcode_ingest::builder::build_ready_records;
use postcode_ingest::builder::build_records;
use postcode_ingest::record::NodeRecord;
use postcode_ingest::record::node_ready;

fn start(id: i64) -> Event {
    Event::NodeStart { id, lat: 10, lon: 20 }
}

fn tag(key: &str, value: &str) -> Event {
    Event::Tag { key: key.to_string(), value: Some(value.to_string()) }
}

fn empty_record(id: i64) -> NodeRecord {
    NodeRecord {
        id,
        lat: 0,
        lon: 0,
        postcode: None,
        street: None,
        city: None,
        country: None,
        province: None,
        state: None,
        house_number: None,
        house_name: None,
        source: None,
        source_date: None,
        version: None,
    }
}

#[test]
fn tag_routing_fills_fields() {
    let events = vec![
        start(1),
        tag("addr:city", "Utrecht"),
        tag("addr:postcode", "3511 ab"),
        tag("addr:street", "Main Street"),
        tag("addr:housenumber", "12 b"),
        tag("addr:state", "UT"),
        tag("addr:housename", "The Mill"),
        tag("addr:province", "Utrecht"),
        tag("addr:country", "NL"),
    ];
    let out = build_records(events, None);
    assert_eq!(out.len(), 1);
    let (r, ready) = &out[0];
    assert!(ready);
    assert_eq!(r.id, 1);
    assert_eq!(r.lat, 10);
    assert_eq!(r.lon, 20);
    assert_eq!(r.city, Some("Utrecht".to_string()));
    assert_eq!(r.postcode, Some("3511AB".to_string()));
    assert_eq!(r.street, Some("Main Street".to_string()));
    assert_eq!(r.house_number, Some("12B".to_string()));
    assert_eq!(r.state, Some("UT".to_string()));
    assert_eq!(r.house_name, Some("The Mill".to_string()));
    assert_eq!(r.province, Some("Utrecht".to_string()));
    assert_eq!(r.country, Some("NL".to_string()));
}

#[test]
fn missing_value_is_ignored_entirely() {
    let events = vec![
        start(1),
        Event::Tag { key: "addr:postcode".to_string(), value: None },
        tag("addr:street", "X"),
    ];
    let out = build_records(events, None);
    assert_eq!(out.len(), 1);
    let (r, ready) = &out[0];
    assert_eq!(r.postcode, None);
    assert!(!ready);
}

#[test]
fn unrecognized_keys_are_ignored() {
    let events = vec![start(1), tag("addr:unit", "7"), tag("name", "corner shop")];
    let out = build_records(events, None);
    assert_eq!(out.len(), 1);
    let (r, _) = &out[0];
    assert_eq!(r.postcode, None);
    assert_eq!(r.street, None);
    assert_eq!(r.city, None);
}

#[test]
fn other_elements_are_skipped() {
    let events = vec![Event::Other, start(1), Event::Other, tag("addr:postcode", "AA1")];
    let out = build_records(events, None);
    assert_eq!(out.len(), 1);
    assert_eq!(out[0].0.postcode, Some("AA1".to_string()));
}

#[test]
fn readiness_flags_alternating_sequence() {
    // ready, unready, ready, unready: the flag must follow the
    // required-field subset exactly
    let events = vec![
        start(1),
        tag("addr:postcode", "AA1"),
        tag("addr:street", "S1"),
        start(2),
        tag("addr:postcode", "BB2"),
        start(3),
        tag("addr:street", "S3"),
        tag("addr:postcode", "CC3"),
        start(4),
    ];
    let out = build_records(events, None);
    assert_eq!(out.len(), 4);
    assert!(out[0].1);
    assert!(!out[1].1);
    assert!(out[2].1);
    assert!(!out[3].1);

    let ready = build_ready_records(
        vec![
            start(1),
            tag("addr:postcode", "AA1"),
            tag("addr:street", "S1"),
            start(2),
            tag("addr:postcode", "BB2"),
            start(3),
            tag("addr:street", "S3"),
            tag("addr:postcode", "CC3"),
            start(4),
        ],
        None,
    );
    assert_eq!(ready.len(), 2);
    assert_eq!(ready[0].id, 1);
    assert_eq!(ready[1].id, 3);
}

#[test]
fn record_closes_on_next_start_and_at_end_of_stream() {
    let mut b = RecordBuilder::new(None);
    assert!(b.step(start(1)).is_none());
    assert!(b.step(tag("addr:postcode", "AA1")).is_none());
    let emitted = b.step(start(2));
    assert!(emitted.is_some());
    let (r, ready) = emitted.unwrap();
    assert_eq!(r.id, 1);
    assert!(!ready);
    let last = b.finish();
    assert!(last.is_some());
    assert_eq!(last.unwrap().0.id, 2);
    assert!(b.finish().is_none());
}

#[test]
fn contextual_stickiness_inherits_nearest_country() {
    let events = vec![
        start(1),
        tag("addr:country", "NL"),
        start(2),
        start(3),
        tag("addr:country", "BE"),
        start(4),
    ];
    let out = build_records(events, None);
    assert_eq!(out.len(), 4);
    assert_eq!(out[0].0.country, Some("NL".to_string()));
    assert_eq!(out[1].0.country, Some("NL".to_string()));
    assert_eq!(out[2].0.country, Some("BE".to_string()));
    assert_eq!(out[3].0.country, Some("BE".to_string()));
}

#[test]
fn first_record_without_predecessor_has_no_country() {
    let out = build_records(vec![start(1)], None);
    assert_eq!(out.len(), 1);
    assert_eq!(out[0].0.country, None);
}

#[test]
fn configured_default_country_seeds_the_context() {
    let events = vec![start(1), start(2), tag("addr:country", "DE"), start(3)];
    let out = build_records(events, Some("FR".to_string()));
    assert_eq!(out[0].0.country, Some("FR".to_string()));
    assert_eq!(out[1].0.country, Some("DE".to_string()));
    assert_eq!(out[2].0.country, Some("DE".to_string()));
}

#[test]
fn explicit_country_tag_overrides_inherited_value() {
    let events = vec![start(1), tag("addr:country", "NL"), start(2), tag("addr:country", "BE")];
    let out = build_records(events, None);
    assert_eq!(out[0].0.country, Some("NL".to_string()));
    assert_eq!(out[1].0.country, Some("BE".to_string()));
}

#[test]
fn node_ready_needs_postcode_and_street() {
    let mut r = empty_record(1);
    assert!(!node_ready(&r));
    r.postcode = Some("AA1".to_string());
    assert!(!node_ready(&r));
    r.street = Some("Main".to_string());
    assert!(node_ready(&r));
    r.postcode = None;
    assert!(!node_ready(&r));
}

#[test]
fn tags_before_any_record_are_ignored() {
    let events = vec![tag("addr:postcode", "AA1"), start(1)];
    let out = build_records(events, None);
    assert_eq!(out.len(), 1);
    assert_eq!(out[0].0.postcode, None);
}

#[test]
fn empty_stream_produces_nothing() {
    let out = build_records(vec![], None);
    assert_eq!(out.len(), 0);
    let ready = build_ready_records(vec![], Some("NL".to_string()));
    assert_eq!(ready.len(), 0);
}
