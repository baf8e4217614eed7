//! The administrative regions of the OpenStreetMap corpus.

use crate::geometry::{
    geometry_bytes, geometry_fits, lemma_parse_geometry, parse_geometry, EncodableGeometry,
    Geometry, GeometryModel,
};
use crate::item::{HasGeometry, HasProperties, IsAdmin};
use crate::properties::{
    attributes, required_index, required_text, FeatureError, Properties, PropertyModel,
    PropertyValue,
};
use crate::record::Record;
use crate::text::{
    ends_in_zero, lemma_parse_string, padded, parse_string, string_bytes, EncodableString,
};
use crate::wire::{
    lemma_parse_usize, lemma_skip_skip, parse_usize, put_usize, take_usize, usize_bytes,
    CodecError, Parsed,
};
use vstd::prelude::*;
use vstd::std_specs::cmp::PartialEqSpecImpl;
use vstd::utf8::*;

verus! {

/// An administrative region of the OpenStreetMap corpus.
#[derive(Debug)]
pub struct OsmAdmin {
    /// The place of the item in the vector of its corpus.
    pub id: usize,
    /// The name of the region.
    pub name: EncodableString,
    /// The administrative level of the region: 2 for a country, higher for
    /// its parts.
    pub level: usize,
    /// The geometry of the region.
    pub geometry: EncodableGeometry,
}

/// An administrative region as a mathematical value.
pub struct OsmAdminModel {
    pub id: usize,
    pub name: Seq<char>,
    pub level: usize,
    pub geometry: GeometryModel,
}

impl View for OsmAdmin {
    type V = OsmAdminModel;

    open spec fn view(&self) -> OsmAdminModel {
        OsmAdminModel {
            id: self.id,
            name: self.name@,
            level: self.level,
            geometry: self.geometry@,
        }
    }
}

impl PartialEq for OsmAdmin {
    /// Two items are the same when their ids are.
    fn eq(&self, other: &Self) -> (r: bool) {
        self.id == other.id
    }
}

impl PartialEqSpecImpl for OsmAdmin {
    open spec fn obeys_eq_spec() -> bool {
        true
    }

    open spec fn eq_spec(&self, other: &Self) -> bool {
        self.id == other.id
    }
}

/// The item that a feature of the corpus becomes: its name is the string
/// under `name`, its level the unsigned integer under `admin_level`. Where
/// both are at fault, the error is that of the name.
pub open spec fn osm_admin_from(
    id: usize,
    entries: Seq<(String, PropertyValue)>,
    geometry: GeometryModel,
) -> Result<OsmAdminModel, FeatureError> {
    match required_text(entries, "name"@) {
        Ok(name) => match required_index(entries, "admin_level"@) {
            Ok(level) => Ok(OsmAdminModel { id, name, level, geometry }),
            Err(e) => Err(e),
        },
        Err(e) => Err(e),
    }
}

/// The decimal digits of `n`.
pub open spec fn decimal(n: nat) -> Seq<char>
    decreases n,
{
    if n < 10 {
        seq![digit(n)]
    } else {
        decimal(n / 10).push(digit(n % 10))
    }
}

/// The character of a digit below ten.
pub open spec fn digit(d: nat) -> char {
    if d == 0 {
        '0'
    } else if d == 1 {
        '1'
    } else if d == 2 {
        '2'
    } else if d == 3 {
        '3'
    } else if d == 4 {
        '4'
    } else if d == 5 {
        '5'
    } else if d == 6 {
        '6'
    } else if d == 7 {
        '7'
    } else if d == 8 {
        '8'
    } else {
        '9'
    }
}

/// `ToString::to_string` on a machine word: its decimal digits, with no sign
/// and no zero in front.
#[verifier::external_body]
fn usize_to_string(n: usize) -> (s: String)
    ensures
        s@ == decimal(n as nat),
{
    n.to_string()
}

impl OsmAdmin {
    /// Whether the query may answer with the only candidate of a cell
    /// without the exact test: it may not, for the regions of the several
    /// levels lie over one another and do not cover the globe.
    pub const FAST_PATH: bool = false;

    /// The tolerance of the simplification of the corpus, 0.001 of a degree: the
    /// bit pattern of the single-precision value.
    pub const SIMPLIFICATION_EPSILON: u32 = 0x3a83_126f;

    /// The tolerance of the coarser simplification, a hundred times the
    /// other: the bit pattern of the single-precision value.
    pub const EXTRA_SIMPLIFICATION_EPSILON: u32 = 0x3dcc_cccd;

    /// Makes the item with the id `id` from the attributes and the geometry
    /// of a feature.
    pub fn from_feature(id: usize, properties: &Properties, geometry: Geometry) -> (r: Result<
        OsmAdmin,
        FeatureError,
    >)
        ensures
            match osm_admin_from(id, properties@, geometry@) {
                Ok(m) => r matches Ok(item) && item@ == m,
                Err(e) => r matches Err(f) && f == e,
            },
    {
        let name = match properties.text("name") {
            Err(e) => {
                return Err(e);
            },
            Ok(v) => v,
        };
        let level = match properties.index("admin_level") {
            Err(e) => {
                return Err(e);
            },
            Ok(v) => v,
        };
        Ok(
            OsmAdmin {
                id,
                name: EncodableString(name),
                level,
                geometry: EncodableGeometry(geometry),
            },
        )
    }
}

impl HasGeometry for OsmAdmin {
    open spec fn spec_id(&self) -> usize {
        self.id
    }

    open spec fn spec_geometry(&self) -> GeometryModel {
        self.geometry@
    }

    fn id(&self) -> (id: usize) {
        self.id
    }

    fn geometry(&self) -> (g: &Geometry) {
        &self.geometry.0
    }
}

impl HasProperties for OsmAdmin {
    /// The name, and the level in decimal digits.
    open spec fn spec_properties(&self) -> Seq<(Seq<char>, PropertyModel)> {
        seq![
            ("name"@, PropertyModel::Text(self.name@)),
            ("level"@, PropertyModel::Text(decimal(self.level as nat))),
        ]
    }

    fn properties(&self) -> (p: Properties) {
        let mut p = Properties::new();
        p.insert("name", PropertyValue::Text(self.name.as_ref().to_owned()));
        p.insert("level", PropertyValue::Text(usize_to_string(self.level)));
        assert(attributes(p@) == self.spec_properties());
        p
    }
}

impl IsAdmin for OsmAdmin {
    open spec fn spec_name(&self) -> Seq<char> {
        self.name@
    }

    fn name(&self) -> (s: &str) {
        self.name.as_ref()
    }
}

impl Record for OsmAdmin {
    type Model = OsmAdminModel;

    open spec fn model(&self) -> OsmAdminModel {
        self@
    }

    open spec fn fits(m: OsmAdminModel) -> bool {
        &&& !ends_in_zero(encode_utf8(m.name))
        &&& padded(encode_utf8(m.name)).len() <= usize::MAX
        &&& geometry_fits(m.geometry)
    }

    /// The id in eight bytes, the name, the level in eight bytes, the
    /// geometry.
    open spec fn record_bytes(m: OsmAdminModel) -> Seq<u8> {
        usize_bytes(m.id) + string_bytes(m.name) + usize_bytes(m.level) + geometry_bytes(
            m.geometry,
        )
    }

    open spec fn parse_record(s: Seq<u8>) -> Parsed<OsmAdminModel> {
        match parse_usize(s) {
            Ok((id, a)) => match parse_string(s.skip(a)) {
                Ok((name, b)) => match parse_usize(s.skip(a + b)) {
                    Ok((level, c)) => match parse_geometry(s.skip(a + b + c)) {
                        Ok((geometry, d)) => Ok(
                            (OsmAdminModel { id, name, level, geometry }, a + b + c + d),
                        ),
                        Err(e) => Err(e),
                    },
                    Err(e) => Err(e),
                },
                Err(e) => Err(e),
            },
            Err(e) => Err(e),
        }
    }

    fn encode(&self, out: &mut Vec<u8>) {
        put_usize(out, self.id);
        self.name.encode(out);
        put_usize(out, self.level);
        self.geometry.encode(out);
        assert(out@ == old(out)@ + Self::record_bytes(self@));
    }

    fn decode(bytes: &[u8], pos: usize) -> (r: Result<(Self, usize), CodecError>) {
        let (id, p1) = match take_usize(bytes, pos) {
            Err(e) => {
                return Err(e);
            },
            Ok(v) => v,
        };
        proof {
            lemma_skip_skip(bytes@, pos as int, p1 - pos);
        }
        let (name, p2) = match EncodableString::decode(bytes, p1) {
            Err(e) => {
                return Err(e);
            },
            Ok(v) => v,
        };
        proof {
            lemma_skip_skip(bytes@, pos as int, p2 - pos);
        }
        let (level, p3) = match take_usize(bytes, p2) {
            Err(e) => {
                return Err(e);
            },
            Ok(v) => v,
        };
        proof {
            lemma_skip_skip(bytes@, pos as int, p3 - pos);
        }
        let (geometry, p4) = match EncodableGeometry::decode(bytes, p3) {
            Err(e) => {
                return Err(e);
            },
            Ok(v) => v,
        };
        Ok((OsmAdmin { id, name, level, geometry }, p4))
    }

    proof fn lemma_round_trip(m: OsmAdminModel, rest: Seq<u8>) {
        let s1 = string_bytes(m.name);
        let s2 = usize_bytes(m.level);
        let s3 = geometry_bytes(m.geometry);
        let all = Self::record_bytes(m) + rest;
        lemma_parse_usize(m.id, s1 + s2 + s3 + rest);
        lemma_parse_string(m.name, s2 + s3 + rest);
        lemma_parse_usize(m.level, s3 + rest);
        lemma_parse_geometry(m.geometry, rest);
        assert(all == usize_bytes(m.id) + (s1 + s2 + s3 + rest));
        assert(all.skip(8) == s1 + (s2 + s3 + rest));
        assert(all.skip(8 + s1.len() as int) == s2 + (s3 + rest));
        assert(all.skip(8 + s1.len() as int + 8) == s3 + rest);
    }
}

} // verus!
