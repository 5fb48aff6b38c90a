//! The address record and its readiness predicate.
//!
//! A `NodeRecord` is one address-bearing point destined for storage.
//! Coordinates are carried as signed nano-degrees, so that all arithmetic on
//! them is exact integer arithmetic. Its mathematical value is a
//! `RecordView`, over which every contract in this crate is stated.

use vstd::prelude::*;

verus! {

/// One address-bearing point record.
///
/// `lat` and `lon` are in nano-degrees (degrees scaled by 10^9).
/// `source_date` is a day number; `version` is a monotonic revision counter.
/// A record is created with its identifier and coordinates and is filled
/// field by field while it is the current record of a builder.
pub struct NodeRecord {
    pub id: i64,
    pub lat: i64,
    pub lon: i64,
    pub postcode: Option<String>,
    pub street: Option<String>,
    pub city: Option<String>,
    pub country: Option<String>,
    pub province: Option<String>,
    pub state: Option<String>,
    pub house_number: Option<String>,
    pub house_name: Option<String>,
    pub source: Option<String>,
    pub source_date: Option<i64>,
    pub version: Option<u64>,
}

/// The mathematical value of a `NodeRecord`: every string is a sequence of
/// characters, every scalar an unbounded integer.
#[verifier::ext_equal]
pub ghost struct RecordView {
    pub id: int,
    pub lat: int,
    pub lon: int,
    pub postcode: Option<Seq<char>>,
    pub street: Option<Seq<char>>,
    pub city: Option<Seq<char>>,
    pub country: Option<Seq<char>>,
    pub province: Option<Seq<char>>,
    pub state: Option<Seq<char>>,
    pub house_number: Option<Seq<char>>,
    pub house_name: Option<Seq<char>>,
    pub source: Option<Seq<char>>,
    pub source_date: Option<int>,
    pub version: Option<int>,
}

impl View for NodeRecord {
    type V = RecordView;

    open spec fn view(&self) -> RecordView {
        RecordView {
            id: self.id as int,
            lat: self.lat as int,
            lon: self.lon as int,
            postcode: self.postcode.deep_view(),
            street: self.street.deep_view(),
            city: self.city.deep_view(),
            country: self.country.deep_view(),
            province: self.province.deep_view(),
            state: self.state.deep_view(),
            house_number: self.house_number.deep_view(),
            house_name: self.house_name.deep_view(),
            source: self.source.deep_view(),
            source_date: match self.source_date {
                Some(d) => Some(d as int),
                None => None,
            },
            version: match self.version {
                Some(v) => Some(v as int),
                None => None,
            },
        }
    }
}

/// The view of a sequence of records.
pub open spec fn records_view(s: Seq<NodeRecord>) -> Seq<RecordView> {
    s.map_values(|r: NodeRecord| r@)
}

/// The fixed readiness predicate of this pipeline: a record may be stored
/// once its identifier (always present by construction), its postcode and
/// its street are populated. Partially populated records are dropped, never
/// written.
pub open spec fn ready(r: RecordView) -> bool {
    r.postcode is Some && r.street is Some
}

/// Decides whether a record is eligible for storage.
pub fn node_ready(node: &NodeRecord) -> (r: bool)
    ensures
        r == ready(node@),
{
    node.postcode.is_some() && node.street.is_some()
}

/// A copy of an optional string, equal in value.
pub fn clone_opt(s: &Option<String>) -> (r: Option<String>)
    ensures
        r.deep_view() == s.deep_view(),
{
    match s {
        Some(x) => Some(x.clone()),
        None => None,
    }
}

impl NodeRecord {
    /// An identical copy of the record.
    pub fn duplicate(&self) -> (r: NodeRecord)
        ensures
            r@ == self@,
    {
        NodeRecord {
            id: self.id,
            lat: self.lat,
            lon: self.lon,
            postcode: clone_opt(&self.postcode),
            street: clone_opt(&self.street),
            city: clone_opt(&self.city),
            country: clone_opt(&self.country),
            province: clone_opt(&self.province),
            state: clone_opt(&self.state),
            house_number: clone_opt(&self.house_number),
            house_name: clone_opt(&self.house_name),
            source: clone_opt(&self.source),
            source_date: self.source_date,
            version: self.version,
        }
    }
}

} // verus!
