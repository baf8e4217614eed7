//! The time zones of the OpenStreetMap corpus.

use crate::geometry::{
    geometry_bytes, geometry_fits, lemma_parse_geometry, parse_geometry, EncodableGeometry,
    Geometry, GeometryModel,
};
use crate::item::{HasGeometry, HasProperties, IsTimezone};
use crate::properties::{
    required_text, FeatureError, Properties, PropertyModel, PropertyValue,
};
use crate::record::Record;
use crate::text::{
    ends_in_zero, lemma_parse_string, padded, parse_string, string_bytes, EncodableString,
};
use crate::wire::{
    lemma_parse_usize, lemma_skip_skip, parse_usize, put_usize, take_usize, usize_bytes,
    CodecError, Parsed,
};
use vstd::prelude::*;
use vstd::std_specs::cmp::PartialEqSpecImpl;
use vstd::utf8::*;

verus! {

/// A time zone of the OpenStreetMap corpus.
#[derive(Debug)]
pub struct OsmTimezone {
    /// The place of the item in the vector of its corpus.
    pub id: usize,
    /// The IANA identifier of the time zone.
    pub identifier: EncodableString,
    /// The geometry of the time zone.
    pub geometry: EncodableGeometry,
}

/// An OpenStreetMap time zone as a mathematical value.
pub struct OsmTimezoneModel {
    pub id: usize,
    pub identifier: Seq<char>,
    pub geometry: GeometryModel,
}

impl View for OsmTimezone {
    type V = OsmTimezoneModel;

    open spec fn view(&self) -> OsmTimezoneModel {
        OsmTimezoneModel { id: self.id, identifier: self.identifier@, geometry: self.geometry@ }
    }
}

impl PartialEq for OsmTimezone {
    /// Two items are the same when their ids are.
    fn eq(&self, other: &Self) -> (r: bool) {
        self.id == other.id
    }
}

impl PartialEqSpecImpl for OsmTimezone {
    open spec fn obeys_eq_spec() -> bool {
        true
    }

    open spec fn eq_spec(&self, other: &Self) -> bool {
        self.id == other.id
    }
}

/// The item that a feature of the corpus becomes: its identifier is the
/// string under `tzid`.
pub open spec fn osm_timezone_from(
    id: usize,
    entries: Seq<(String, PropertyValue)>,
    geometry: GeometryModel,
) -> Result<OsmTimezoneModel, FeatureError> {
    match required_text(entries, "tzid"@) {
        Ok(identifier) => Ok(OsmTimezoneModel { id, identifier, geometry }),
        Err(e) => Err(e),
    }
}

impl OsmTimezone {
    /// Whether the query may answer with the only candidate of a cell
    /// without the exact test: the corpus covers the globe.
    pub const FAST_PATH: bool = true;

    /// The tolerance of the simplification of the corpus, 0.0001 of a degree: the
    /// bit pattern of the single-precision value.
    pub const SIMPLIFICATION_EPSILON: u32 = 0x38d1_b717;

    /// The tolerance of the coarser simplification, a hundred times the
    /// other: the bit pattern of the single-precision value.
    pub const EXTRA_SIMPLIFICATION_EPSILON: u32 = 0x3c23_d70a;

    /// Makes the item with the id `id` from the attributes and the geometry
    /// of a feature.
    pub fn from_feature(id: usize, properties: &Properties, geometry: Geometry) -> (r: Result<
        OsmTimezone,
        FeatureError,
    >)
        ensures
            match osm_timezone_from(id, properties@, geometry@) {
                Ok(m) => r matches Ok(item) && item@ == m,
                Err(e) => r matches Err(f) && f == e,
            },
    {
        match properties.text("tzid") {
            Err(e) => Err(e),
            Ok(identifier) => Ok(
                OsmTimezone {
                    id,
                    identifier: EncodableString(identifier),
                    geometry: EncodableGeometry(geometry),
                },
            ),
        }
    }
}

impl HasGeometry for OsmTimezone {
    open spec fn spec_id(&self) -> usize {
        self.id
    }

    open spec fn spec_geometry(&self) -> GeometryModel {
        self.geometry@
    }

    fn id(&self) -> (id: usize) {
        self.id
    }

    fn geometry(&self) -> (g: &Geometry) {
        &self.geometry.0
    }
}

impl HasProperties for OsmTimezone {
    open spec fn spec_properties(&self) -> Seq<(Seq<char>, PropertyModel)> {
        seq![("identifier"@, PropertyModel::Text(self.identifier@))]
    }

    fn properties(&self) -> (p: Properties) {
        let mut p = Properties::new();
        p.insert("identifier", PropertyValue::Text(self.identifier.as_ref().to_owned()));
        assert(crate::properties::attributes(p@) == self.spec_properties());
        p
    }
}

impl IsTimezone for OsmTimezone {
    open spec fn spec_identifier(&self) -> Seq<char> {
        self.identifier@
    }

    fn identifier(&self) -> (s: &str) {
        self.identifier.as_ref()
    }
}

impl Record for OsmTimezone {
    type Model = OsmTimezoneModel;

    open spec fn model(&self) -> OsmTimezoneModel {
        self@
    }

    open spec fn fits(m: OsmTimezoneModel) -> bool {
        &&& !ends_in_zero(encode_utf8(m.identifier))
        &&& padded(encode_utf8(m.identifier)).len() <= usize::MAX
        &&& geometry_fits(m.geometry)
    }

    /// The id in eight bytes, the identifier, the geometry.
    open spec fn record_bytes(m: OsmTimezoneModel) -> Seq<u8> {
        usize_bytes(m.id) + string_bytes(m.identifier) + geometry_bytes(m.geometry)
    }

    open spec fn parse_record(s: Seq<u8>) -> Parsed<OsmTimezoneModel> {
        match parse_usize(s) {
            Ok((id, a)) => match parse_string(s.skip(a)) {
                Ok((identifier, b)) => match parse_geometry(s.skip(a + b)) {
                    Ok((geometry, c)) => Ok(
                        (OsmTimezoneModel { id, identifier, geometry }, a + b + c),
                    ),
                    Err(e) => Err(e),
                },
                Err(e) => Err(e),
            },
            Err(e) => Err(e),
        }
    }

    fn encode(&self, out: &mut Vec<u8>) {
        put_usize(out, self.id);
        self.identifier.encode(out);
        self.geometry.encode(out);
        assert(out@ == old(out)@ + Self::record_bytes(self@));
    }

    fn decode(bytes: &[u8], pos: usize) -> (r: Result<(Self, usize), CodecError>) {
        let (id, p1) = match take_usize(bytes, pos) {
            Err(e) => {
                return Err(e);
            },
            Ok(v) => v,
        };
        proof {
            lemma_skip_skip(bytes@, pos as int, p1 - pos);
        }
        let (identifier, p2) = match EncodableString::decode(bytes, p1) {
            Err(e) => {
                return Err(e);
            },
            Ok(v) => v,
        };
        proof {
            lemma_skip_skip(bytes@, pos as int, p2 - pos);
        }
        let (geometry, p3) = match EncodableGeometry::decode(bytes, p2) {
            Err(e) => {
                return Err(e);
            },
            Ok(v) => v,
        };
        Ok((OsmTimezone { id, identifier, geometry }, p3))
    }

    proof fn lemma_round_trip(m: OsmTimezoneModel, rest: Seq<u8>) {
        let s1 = string_bytes(m.identifier);
        let s2 = geometry_bytes(m.geometry);
        let all = Self::record_bytes(m) + rest;
        lemma_parse_usize(m.id, s1 + s2 + rest);
        lemma_parse_string(m.identifier, s2 + rest);
        lemma_parse_geometry(m.geometry, rest);
        assert(all == usize_bytes(m.id) + (s1 + s2 + rest));
        assert(all.skip(8) == s1 + (s2 + rest));
        assert(all.skip(8 + s1.len() as int) == s2 + rest);
    }
}

} // verus!
