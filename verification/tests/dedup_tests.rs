use postcode_ingest::dedup::dedup_pass;
use postcode_ingest::record::NodeRecord;
use postcode_ingest::store::Store;

fn rec(id: i64, lat: i64, lon: i64, postcode: &str, street: &str) -> NodeRecord {
    NodeRecord {
        id,
        lat,
        lon,
        postcode: Some(postcode.to_string()),
        street: Some(street.to_string()),
        city: None,
        country: None,
        province: None,
        state: None,
        house_number: Some("12".to_string()),
        house_name: None,
        source: None,
        source_date: None,
        version: None,
    }
}

#[test]
fn collapses_single_street_group_and_keeps_ambiguous_group() {
    let mut store = Store::new();
    store.upsert(rec(1, 100, 10, "AB1", "X"));
    store.upsert(rec(2, 200, 30, "AB1", "X"));
    store.upsert(rec(3, 50, 5, "CD2", "Y"));
    store.upsert(rec(4, 60, 6, "CD2", "Z"));
    dedup_pass(&mut store);
    // the ambiguous CD2 rows stay untouched, in their original order,
    // followed by one averaged representative for AB1
    assert_eq!(store.len(), 3);
    assert_eq!(store.rows[0].id, 3);
    assert_eq!(store.rows[0].lat, 50);
    assert_eq!(store.rows[0].house_number, Some("12".to_string()));
    assert_eq!(store.rows[1].id, 4);
    assert_eq!(store.rows[1].lat, 60);
    let rep = &store.rows[2];
    assert_eq!(rep.id, 1);
    assert_eq!(rep.lat, 150);
    assert_eq!(rep.lon, 20);
    assert_eq!(rep.postcode, Some("AB1".to_string()));
    assert_eq!(rep.street, Some("X".to_string()));
    assert_eq!(rep.house_number, None);
}

#[test]
fn singleton_group_is_normalized_in_place() {
    let mut store = Store::new();
    store.upsert(rec(9, 77, 88, "EF3", "Q"));
    dedup_pass(&mut store);
    assert_eq!(store.len(), 1);
    assert_eq!(store.rows[0].id, 9);
    assert_eq!(store.rows[0].lat, 77);
    assert_eq!(store.rows[0].lon, 88);
    // the house number is cleared: it is not aggregatable across a group
    assert_eq!(store.rows[0].house_number, None);
}

#[test]
fn mean_rounds_toward_zero() {
    let mut store = Store::new();
    store.upsert(rec(1, 1, -1, "AB1", "X"));
    store.upsert(rec(2, 2, -2, "AB1", "X"));
    dedup_pass(&mut store);
    assert_eq!(store.len(), 1);
    assert_eq!(store.rows[0].lat, 1);
    assert_eq!(store.rows[0].lon, -1);
}

#[test]
fn representative_keeps_first_member_fields() {
    let mut store = Store::new();
    let mut a = rec(1, 0, 0, "AB1", "X");
    a.city = Some("Town".to_string());
    a.version = Some(3);
    let b = rec(2, 10, 10, "AB1", "X");
    store.upsert(a);
    store.upsert(b);
    dedup_pass(&mut store);
    assert_eq!(store.len(), 1);
    assert_eq!(store.rows[0].id, 1);
    assert_eq!(store.rows[0].city, Some("Town".to_string()));
    assert_eq!(store.rows[0].version, Some(3));
    assert_eq!(store.rows[0].lat, 5);
}

#[test]
fn empty_store_stays_empty() {
    let mut store = Store::new();
    dedup_pass(&mut store);
    assert_eq!(store.len(), 0);
}

#[test]
fn groups_are_independent() {
    let mut store = Store::new();
    store.upsert(rec(1, 10, 0, "AA1", "S1"));
    store.upsert(rec(2, 20, 0, "BB2", "S2"));
    store.upsert(rec(3, 30, 0, "AA1", "S1"));
    dedup_pass(&mut store);
    // both groups collapse; representatives in order of first occurrence
    assert_eq!(store.len(), 2);
    assert_eq!(store.rows[0].id, 1);
    assert_eq!(store.rows[0].lat, 20);
    assert_eq!(store.rows[1].id, 2);
    assert_eq!(store.rows[1].lat, 20);
}

#[test]
fn extreme_coordinates_average_without_overflow() {
    let mut store = Store::new();
    store.upsert(rec(1, i64::MIN, i64::MAX, "AB1", "X"));
    store.upsert(rec(2, i64::MIN, i64::MAX, "AB1", "X"));
    dedup_pass(&mut store);
    assert_eq!(store.len(), 1);
    assert_eq!(store.rows[0].lat, i64::MIN);
    assert_eq!(store.rows[0].lon, i64::MAX);
}
