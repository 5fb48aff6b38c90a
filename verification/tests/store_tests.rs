use postcode_ingest::record::NodeRecord;
use postcode_ingest::store::Store;

fn rec(id: i64, lat: i64, postcode: &str, street: &str) -> NodeRecord {
    NodeRecord {
        id,
        lat,
        lon: 0,
        postcode: Some(postcode.to_string()),
        street: Some(street.to_string()),
        city: None,
        country: None,
        province: None,
        state: None,
        house_number: None,
        house_name: None,
        source: None,
        source_date: None,
        version: None,
    }
}

#[test]
fn upsert_appends_fresh_ids_in_order() {
    let mut s = Store::new();
    s.upsert(rec(5, 1, "AA1", "X"));
    s.upsert(rec(3, 2, "BB2", "Y"));
    assert_eq!(s.len(), 2);
    assert_eq!(s.rows[0].id, 5);
    assert_eq!(s.rows[1].id, 3);
}

#[test]
fn upsert_overwrites_on_conflict() {
    let mut s = Store::new();
    s.upsert(rec(1, 100, "AA1", "X"));
    s.upsert(rec(1, 200, "BB2", "Y"));
    assert_eq!(s.len(), 1);
    assert_eq!(s.rows[0].lat, 200);
    assert_eq!(s.rows[0].postcode, Some("BB2".to_string()));
}

#[test]
fn reapplying_the_same_batch_yields_the_same_row_set() {
    let batch = || vec![rec(1, 10, "AA1", "X"), rec(2, 20, "BB2", "Y"), rec(1, 30, "CC3", "Z")];
    let mut once = Store::new();
    once.upsert_batch(batch());
    let mut twice = Store::new();
    twice.upsert_batch(batch());
    twice.upsert_batch(batch());
    assert_eq!(once.len(), twice.len());
    assert_eq!(once.len(), 2);
    for i in 0..once.rows.len() {
        assert_eq!(once.rows[i].id, twice.rows[i].id);
        assert_eq!(once.rows[i].lat, twice.rows[i].lat);
        assert_eq!(once.rows[i].postcode, twice.rows[i].postcode);
        assert_eq!(once.rows[i].street, twice.rows[i].street);
    }
    // the later record for id 1 wins
    assert_eq!(once.rows[0].lat, 30);
    assert_eq!(once.rows[0].postcode, Some("CC3".to_string()));
}

#[test]
fn batch_order_is_last_write_wins() {
    let mut s = Store::new();
    s.upsert_batch(vec![rec(7, 1, "AA1", "X"), rec(7, 2, "BB2", "Y")]);
    assert_eq!(s.len(), 1);
    assert_eq!(s.rows[0].lat, 2);
}
