use postcode_ingest::builder::Event;
use postcode_ingest::dedup::dedup_pass;
use postcode_ingest::ingest::ingest;

fn start(id: i64, lat: i64, lon: i64) -> Event {
    Event::NodeStart { id, lat, lon }
}

fn tag(key: &str, value: &str) -> Event {
    Event::Tag { key: key.to_string(), value: Some(value.to_string()) }
}

fn sample_events() -> Vec<Event> {
    vec![
        start(1, 100, 10),
        tag("addr:postcode", "35 11ab"),
        tag("addr:street", "Main"),
        start(2, 200, 20),
        tag("addr:street", "Side"),
        // no postcode: never stored
        start(3, 300, 30),
        tag("addr:postcode", "3511AB"),
        tag("addr:street", "Main"),
        Event::Other,
        start(4, 400, 40),
        tag("addr:postcode", "9999ZZ"),
        tag("addr:street", "Far"),
    ]
}

#[test]
fn ingest_stores_exactly_the_ready_records() {
    let store = ingest(sample_events(), None, 2, 2, 2);
    assert_eq!(store.len(), 3);
    // ids 1, 3 and 4 were ready; id 2 lacked a postcode
    let mut ids: Vec<i64> = store.rows.iter().map(|r| r.id).collect();
    ids.sort();
    assert_eq!(ids, vec![1, 3, 4]);
}

#[test]
fn ingest_then_dedup_collapses_shared_postcodes() {
    let mut store = ingest(sample_events(), None, 2, 2, 2);
    dedup_pass(&mut store);
    // records 1 and 3 share postcode 3511AB and street Main: collapsed
    assert_eq!(store.len(), 2);
    let mut ids: Vec<i64> = store.rows.iter().map(|r| r.id).collect();
    ids.sort();
    assert_eq!(ids, vec![1, 4]);
    for r in store.rows.iter() {
        if r.id == 1 {
            assert_eq!(r.lat, 200);
            assert_eq!(r.lon, 20);
        }
    }
}

#[test]
fn ingest_applies_the_default_country() {
    let store = ingest(sample_events(), Some("NL".to_string()), 3, 1, 4);
    assert_eq!(store.len(), 3);
    for r in store.rows.iter() {
        assert_eq!(r.country, Some("NL".to_string()));
    }
}

#[test]
fn ingest_twice_yields_the_same_row_set() {
    let a = ingest(sample_events(), None, 2, 3, 2);
    let b = ingest(sample_events(), None, 2, 3, 2);
    assert_eq!(a.rows.len(), b.rows.len());
    let mut ida: Vec<i64> = a.rows.iter().map(|r| r.id).collect();
    let mut idb: Vec<i64> = b.rows.iter().map(|r| r.id).collect();
    ida.sort();
    idb.sort();
    assert_eq!(ida, idb);
}
