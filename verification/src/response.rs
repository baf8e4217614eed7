//! What a caller is told of an item that a query found: its attributes
//! without its geometry.

use crate::admin::OsmAdmin;
use crate::ned::NedTimezone;
use vstd::prelude::*;
use vstd::std_specs::convert::FromSpecImpl;

verus! {

/// What a caller is told of an administrative region.
#[derive(Debug)]
pub struct OsmAdminResponse1 {
    /// The place of the item in the vector of its corpus.
    pub id: usize,
    /// The name of the region.
    pub name: String,
    /// The administrative level of the region.
    pub level: usize,
}

impl<'a> From<&'a OsmAdmin> for OsmAdminResponse1 {
    fn from(value: &'a OsmAdmin) -> (r: OsmAdminResponse1) {
        OsmAdminResponse1 { id: value.id, name: value.name.0.clone(), level: value.level }
    }
}

impl<'a> FromSpecImpl<&'a OsmAdmin> for OsmAdminResponse1 {
    open spec fn obeys_from_spec() -> bool {
        true
    }

    open spec fn from_spec(value: &'a OsmAdmin) -> OsmAdminResponse1 {
        OsmAdminResponse1 { id: value.id, name: value.name.0, level: value.level }
    }
}

/// What a caller is told of a Natural Earth time zone.
#[derive(Debug)]
pub struct NedTimezoneResponse1 {
    /// The place of the item in the vector of its corpus.
    pub id: usize,
    /// The IANA identifier of the time zone, where the corpus gives one.
    pub identifier: Option<String>,
    /// The places that keep the time of the zone.
    pub description: String,
    /// The places of the zone that keep daylight saving time.
    pub dst_description: Option<String>,
    /// The offset from UTC as the corpus writes it.
    pub offset: String,
    /// The offset from UTC in hours: the bit pattern of a single-precision
    /// value.
    pub zone: u32,
    /// The offset from UTC in seconds.
    pub raw_offset: i32,
}

impl<'a> From<&'a NedTimezone> for NedTimezoneResponse1 {
    fn from(value: &'a NedTimezone) -> (r: NedTimezoneResponse1) {
        NedTimezoneResponse1 {
            id: value.id,
            identifier: value.identifier.0.clone(),
            description: value.description.0.clone(),
            dst_description: value.dst_description.0.clone(),
            offset: value.offset.0.clone(),
            zone: value.zone,
            raw_offset: value.raw_offset,
        }
    }
}

impl<'a> FromSpecImpl<&'a NedTimezone> for NedTimezoneResponse1 {
    open spec fn obeys_from_spec() -> bool {
        true
    }

    open spec fn from_spec(value: &'a NedTimezone) -> NedTimezoneResponse1 {
        NedTimezoneResponse1 {
            id: value.id,
            identifier: value.identifier.0,
            description: value.description.0,
            dst_description: value.dst_description.0,
            offset: value.offset.0,
            zone: value.zone,
            raw_offset: value.raw_offset,
        }
    }
}

} // verus!
