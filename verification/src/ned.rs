//! The time zones of the Natural Earth corpus.

use crate::geometry::{
    geometry_bytes, geometry_fits, lemma_parse_geometry, parse_geometry, EncodableGeometry,
    Geometry, GeometryModel,
};
use crate::item::{HasGeometry, HasProperties, IsTimezone};
use crate::properties::{
    attributes, optional_text, required_single, required_text, FeatureError, Properties,
    PropertyModel, PropertyValue,
};
use crate::record::Record;
use crate::text::{
    ends_in_zero, lemma_parse_option_string, lemma_parse_string, option_string_bytes, padded,
    parse_option_string, parse_string, string_bytes, EncodableOptionString, EncodableString,
};
use crate::wire::{
    i32_bytes, lemma_parse_i32, lemma_parse_u32, lemma_parse_usize, lemma_skip_skip, parse_i32,
    parse_u32, parse_usize, put_i32, put_u32, put_usize, take_i32, take_u32, take_usize,
    u32_bytes, usize_bytes, CodecError, Parsed,
};
use vstd::prelude::*;
use vstd::std_specs::cmp::PartialEqSpecImpl;
use vstd::utf8::*;

verus! {

/// A time zone of the Natural Earth corpus.
#[derive(Debug)]
pub struct NedTimezone {
    /// The place of the item in the vector of its corpus.
    pub id: usize,
    /// The IANA identifier of the time zone, where the corpus gives one.
    pub identifier: EncodableOptionString,
    /// The places that keep the time of the zone.
    pub description: EncodableString,
    /// The places of the zone that keep daylight saving time.
    pub dst_description: EncodableOptionString,
    /// The offset from UTC as the corpus writes it, such as `UTC-8:00`.
    pub offset: EncodableString,
    /// The offset from UTC in hours: the bit pattern of a single-precision
    /// value.
    pub zone: u32,
    /// The offset from UTC in seconds.
    pub raw_offset: i32,
    /// The geometry of the time zone.
    pub geometry: EncodableGeometry,
}

/// A Natural Earth time zone as a mathematical value.
pub struct NedTimezoneModel {
    pub id: usize,
    pub identifier: Option<Seq<char>>,
    pub description: Seq<char>,
    pub dst_description: Option<Seq<char>>,
    pub offset: Seq<char>,
    pub zone: u32,
    pub raw_offset: i32,
    pub geometry: GeometryModel,
}

impl View for NedTimezone {
    type V = NedTimezoneModel;

    open spec fn view(&self) -> NedTimezoneModel {
        NedTimezoneModel {
            id: self.id,
            identifier: self.identifier@,
            description: self.description@,
            dst_description: self.dst_description@,
            offset: self.offset@,
            zone: self.zone,
            raw_offset: self.raw_offset,
            geometry: self.geometry@,
        }
    }
}

impl PartialEq for NedTimezone {
    /// Two items are the same when their ids are.
    fn eq(&self, other: &Self) -> (r: bool) {
        self.id == other.id
    }
}

impl PartialEqSpecImpl for NedTimezone {
    open spec fn obeys_eq_spec() -> bool {
        true
    }

    open spec fn eq_spec(&self, other: &Self) -> bool {
        self.id == other.id
    }
}

/// The item that a feature of the corpus becomes. The attributes are read in
/// this order, and the first one at fault gives the error: `dst_places`,
/// whose string, if it is one, is the daylight saving description; `places`,
/// the description; `time_zone`, the offset as written; `tz_name1st`, whose
/// string, if it is one, is the identifier; `zone`, the offset in hours.
pub open spec fn ned_timezone_from(
    id: usize,
    entries: Seq<(String, PropertyValue)>,
    raw_offset: i32,
    geometry: GeometryModel,
) -> Result<NedTimezoneModel, FeatureError> {
    match optional_text(entries, "dst_places"@) {
        Ok(dst_description) => match required_text(entries, "places"@) {
            Ok(description) => match required_text(entries, "time_zone"@) {
                Ok(offset) => match optional_text(entries, "tz_name1st"@) {
                    Ok(identifier) => match required_single(entries, "zone"@) {
                        Ok(zone) => Ok(
                            NedTimezoneModel {
                                id,
                                identifier,
                                description,
                                dst_description,
                                offset,
                                zone,
                                raw_offset,
                                geometry,
                            },
                        ),
                        Err(e) => Err(e),
                    },
                    Err(e) => Err(e),
                },
                Err(e) => Err(e),
            },
            Err(e) => Err(e),
        },
        Err(e) => Err(e),
    }
}

/// The string of an optional string, and the empty one where there is none.
pub open spec fn text_or_empty(s: Option<Seq<char>>) -> Seq<char> {
    match s {
        Some(t) => t,
        None => Seq::empty(),
    }
}

/// Whether an optional string can be written so that it is read back as it
/// was.
pub open spec fn option_text_fits(s: Option<Seq<char>>) -> bool {
    s matches Some(t) ==> !ends_in_zero(encode_utf8(t)) && padded(encode_utf8(t)).len()
        <= usize::MAX
}

/// Whether a string can be written so that it is read back as it was.
pub open spec fn text_fits(t: Seq<char>) -> bool {
    !ends_in_zero(encode_utf8(t)) && padded(encode_utf8(t)).len() <= usize::MAX
}

/// The last four fields of a record: the offset as written, the offset in
/// hours, the offset in seconds, the geometry.
pub struct NedTail {
    pub offset: Seq<char>,
    pub zone: u32,
    pub raw_offset: i32,
    pub geometry: GeometryModel,
}

/// The bytes of the last four fields of a record.
pub open spec fn ned_tail_bytes(t: NedTail) -> Seq<u8> {
    string_bytes(t.offset) + u32_bytes(t.zone) + i32_bytes(t.raw_offset) + geometry_bytes(
        t.geometry,
    )
}

/// Reading the last four fields of a record from the front of `s`.
pub open spec fn parse_ned_tail(s: Seq<u8>) -> Parsed<NedTail> {
    match parse_string(s) {
        Ok((offset, e)) => match parse_u32(s.skip(e)) {
            Ok((zone, f)) => match parse_i32(s.skip(e + f)) {
                Ok((raw_offset, g)) => match parse_geometry(s.skip(e + f + g)) {
                    Ok((geometry, h)) => Ok(
                        (NedTail { offset, zone, raw_offset, geometry }, e + f + g + h),
                    ),
                    Err(x) => Err(x),
                },
                Err(x) => Err(x),
            },
            Err(x) => Err(x),
        },
        Err(x) => Err(x),
    }
}

/// The last four fields of a record are read back as they were written,
/// whatever follows them.
pub proof fn lemma_parse_ned_tail(t: NedTail, rest: Seq<u8>)
    requires
        text_fits(t.offset),
        geometry_fits(t.geometry),
    ensures
        parse_ned_tail(ned_tail_bytes(t) + rest) == Ok::<(NedTail, int), CodecError>(
            (t, ned_tail_bytes(t).len() as int),
        ),
{
    let s4 = string_bytes(t.offset);
    let s5 = u32_bytes(t.zone);
    let s6 = i32_bytes(t.raw_offset);
    let s7 = geometry_bytes(t.geometry);
    let all = ned_tail_bytes(t) + rest;
    lemma_parse_string(t.offset, s5 + s6 + s7 + rest);
    lemma_parse_u32(t.zone, s6 + s7 + rest);
    lemma_parse_i32(t.raw_offset, s7 + rest);
    lemma_parse_geometry(t.geometry, rest);
    assert(all == s4 + (s5 + s6 + s7 + rest));
    assert(all.skip(s4.len() as int) == s5 + (s6 + s7 + rest));
    assert(all.skip(s4.len() as int + 4) == s6 + (s7 + rest));
    assert(all.skip(s4.len() as int + 8) == s7 + rest);
}

/// The last four fields of `m`.
pub open spec fn ned_tail(m: NedTimezoneModel) -> NedTail {
    NedTail { offset: m.offset, zone: m.zone, raw_offset: m.raw_offset, geometry: m.geometry }
}

impl NedTimezone {
    /// Whether the query may answer with the only candidate of a cell
    /// without the exact test: the corpus covers the globe.
    pub const FAST_PATH: bool = true;

    /// The tolerance of the simplification of the corpus, 0.00001 of a degree: the
    /// bit pattern of the single-precision value.
    pub const SIMPLIFICATION_EPSILON: u32 = 0x3727_c5ac;

    /// The tolerance of the coarser simplification, a hundred times the
    /// other: the bit pattern of the single-precision value.
    pub const EXTRA_SIMPLIFICATION_EPSILON: u32 = 0x3a83_126f;

    /// Makes the item with the id `id` from the attributes and the geometry
    /// of a feature. `raw_offset` is the offset in seconds: the hours under
    /// `zone` times 3600, rounded to the nearest whole number.
    pub fn from_feature(
        id: usize,
        properties: &Properties,
        raw_offset: i32,
        geometry: Geometry,
    ) -> (r: Result<NedTimezone, FeatureError>)
        ensures
            match ned_timezone_from(id, properties@, raw_offset, geometry@) {
                Ok(m) => r matches Ok(item) && item@ == m,
                Err(e) => r matches Err(f) && f == e,
            },
    {
        let dst_description = match properties.text_or_none("dst_places") {
            Err(e) => {
                return Err(e);
            },
            Ok(v) => v,
        };
        let description = match properties.text("places") {
            Err(e) => {
                return Err(e);
            },
            Ok(v) => v,
        };
        let offset = match properties.text("time_zone") {
            Err(e) => {
                return Err(e);
            },
            Ok(v) => v,
        };
        let identifier = match properties.text_or_none("tz_name1st") {
            Err(e) => {
                return Err(e);
            },
            Ok(v) => v,
        };
        let zone = match properties.single("zone") {
            Err(e) => {
                return Err(e);
            },
            Ok(v) => v,
        };
        Ok(
            NedTimezone {
                id,
                identifier: EncodableOptionString(identifier),
                description: EncodableString(description),
                dst_description: EncodableOptionString(dst_description),
                offset: EncodableString(offset),
                zone,
                raw_offset,
                geometry: EncodableGeometry(geometry),
            },
        )
    }
}

impl HasGeometry for NedTimezone {
    open spec fn spec_id(&self) -> usize {
        self.id
    }

    open spec fn spec_geometry(&self) -> GeometryModel {
        self.geometry@
    }

    fn id(&self) -> (id: usize) {
        self.id
    }

    fn geometry(&self) -> (g: &Geometry) {
        &self.geometry.0
    }
}

impl HasProperties for NedTimezone {
    /// The daylight saving description, empty where there is none; the
    /// description; the offset as written; the offset in hours; the offset
    /// in seconds.
    open spec fn spec_properties(&self) -> Seq<(Seq<char>, PropertyModel)> {
        seq![
            ("dst_description"@, PropertyModel::Text(text_or_empty(self.dst_description@))),
            ("description"@, PropertyModel::Text(self.description@)),
            ("offset"@, PropertyModel::Text(self.offset@)),
            ("zone"@, PropertyModel::Number { unsigned: None, single: self.zone }),
            ("raw_offset"@, PropertyModel::Integer(self.raw_offset as i64)),
        ]
    }

    fn properties(&self) -> (p: Properties) {
        let mut p = Properties::new();
        let dst = match self.dst_description.as_ref() {
            Some(s) => s.as_str().to_owned(),
            None => String::new(),
        };
        p.insert("dst_description", PropertyValue::Text(dst));
        p.insert("description", PropertyValue::Text(self.description.as_ref().to_owned()));
        p.insert("offset", PropertyValue::Text(self.offset.as_ref().to_owned()));
        p.insert("zone", PropertyValue::Number { unsigned: None, single: self.zone });
        p.insert("raw_offset", PropertyValue::Integer(self.raw_offset as i64));
        assert(attributes(p@) == self.spec_properties());
        p
    }
}

impl IsTimezone for NedTimezone {
    open spec fn spec_identifier(&self) -> Seq<char> {
        text_or_empty(self.identifier@)
    }

    fn identifier(&self) -> (s: &str) {
        match self.identifier.as_ref() {
            Some(t) => t.as_str(),
            None => {
                let empty = "";
                proof {
                    reveal_strlit("");
                }
                assert(empty@ == Seq::<char>::empty());
                empty
            },
        }
    }
}

impl Record for NedTimezone {
    type Model = NedTimezoneModel;

    open spec fn model(&self) -> NedTimezoneModel {
        self@
    }

    open spec fn fits(m: NedTimezoneModel) -> bool {
        &&& option_text_fits(m.identifier)
        &&& text_fits(m.description)
        &&& option_text_fits(m.dst_description)
        &&& text_fits(m.offset)
        &&& geometry_fits(m.geometry)
    }

    /// The id in eight bytes, the identifier, the description, the daylight
    /// saving description, the offset as written, the offset in hours in four
    /// bytes, the offset in seconds in four bytes, the geometry.
    open spec fn record_bytes(m: NedTimezoneModel) -> Seq<u8> {
        usize_bytes(m.id) + option_string_bytes(m.identifier) + string_bytes(m.description)
            + option_string_bytes(m.dst_description) + ned_tail_bytes(ned_tail(m))
    }

    open spec fn parse_record(s: Seq<u8>) -> Parsed<NedTimezoneModel> {
        match parse_usize(s) {
            Ok((id, a)) => match parse_option_string(s.skip(a)) {
                Ok((identifier, b)) => match parse_string(s.skip(a + b)) {
                    Ok((description, c)) => match parse_option_string(s.skip(a + b + c)) {
                        Ok((dst_description, d)) => match parse_ned_tail(s.skip(a + b + c + d)) {
                            Ok((t, e)) => Ok(
                                (
                                    NedTimezoneModel {
                                        id,
                                        identifier,
                                        description,
                                        dst_description,
                                        offset: t.offset,
                                        zone: t.zone,
                                        raw_offset: t.raw_offset,
                                        geometry: t.geometry,
                                    },
                                    a + b + c + d + e,
                                ),
                            ),
                            Err(x) => Err(x),
                        },
                        Err(x) => Err(x),
                    },
                    Err(x) => Err(x),
                },
                Err(x) => Err(x),
            },
            Err(x) => Err(x),
        }
    }

    fn encode(&self, out: &mut Vec<u8>) {
        put_usize(out, self.id);
        self.identifier.encode(out);
        self.description.encode(out);
        self.dst_description.encode(out);
        self.offset.encode(out);
        put_u32(out, self.zone);
        put_i32(out, self.raw_offset);
        self.geometry.encode(out);
        assert(out@ == old(out)@ + Self::record_bytes(self@));
    }

    fn decode(bytes: &[u8], pos: usize) -> (r: Result<(Self, usize), CodecError>) {
        let (id, p1) = match take_usize(bytes, pos) {
            Err(e) => {
                return Err(e);
            },
            Ok(v) => v,
        };
        proof {
            lemma_skip_skip(bytes@, pos as int, p1 - pos);
        }
        let (identifier, p2) = match EncodableOptionString::decode(bytes, p1) {
            Err(e) => {
                return Err(e);
            },
            Ok(v) => v,
        };
        proof {
            lemma_skip_skip(bytes@, pos as int, p2 - pos);
        }
        let (description, p3) = match EncodableString::decode(bytes, p2) {
            Err(e) => {
                return Err(e);
            },
            Ok(v) => v,
        };
        proof {
            lemma_skip_skip(bytes@, pos as int, p3 - pos);
        }
        let (dst_description, p4) = match EncodableOptionString::decode(bytes, p3) {
            Err(e) => {
                return Err(e);
            },
            Ok(v) => v,
        };
        proof {
            lemma_skip_skip(bytes@, pos as int, p4 - pos);
        }
        let (offset, p5) = match EncodableString::decode(bytes, p4) {
            Err(e) => {
                return Err(e);
            },
            Ok(v) => v,
        };
        proof {
            lemma_skip_skip(bytes@, p4 as int, p5 - p4);
        }
        let (zone, p6) = match take_u32(bytes, p5) {
            Err(e) => {
                return Err(e);
            },
            Ok(v) => v,
        };
        proof {
            lemma_skip_skip(bytes@, p4 as int, p6 - p4);
        }
        let (raw_offset, p7) = match take_i32(bytes, p6) {
            Err(e) => {
                return Err(e);
            },
            Ok(v) => v,
        };
        proof {
            lemma_skip_skip(bytes@, p4 as int, p7 - p4);
        }
        let (geometry, p8) = match EncodableGeometry::decode(bytes, p7) {
            Err(e) => {
                return Err(e);
            },
            Ok(v) => v,
        };
        Ok(
            (
                NedTimezone {
                    id,
                    identifier,
                    description,
                    dst_description,
                    offset,
                    zone,
                    raw_offset,
                    geometry,
                },
                p8,
            ),
        )
    }

    proof fn lemma_round_trip(m: NedTimezoneModel, rest: Seq<u8>) {
        let s0 = usize_bytes(m.id);
        let s1 = option_string_bytes(m.identifier);
        let s2 = string_bytes(m.description);
        let s3 = option_string_bytes(m.dst_description);
        let s4 = ned_tail_bytes(ned_tail(m));
        let all = Self::record_bytes(m) + rest;
        let t4 = s4 + rest;
        let t3 = s3 + t4;
        let t2 = s2 + t3;
        let t1 = s1 + t2;
        lemma_ned_parts(s0, s1, s2, s3, s4, rest);
        lemma_parse_usize(m.id, t1);
        lemma_parse_option_string(m.identifier, t2);
        lemma_parse_string(m.description, t3);
        lemma_parse_option_string(m.dst_description, t4);
        lemma_parse_ned_tail(ned_tail(m), rest);
        lemma_ned_assemble(all, m);
    }
}

/// Five parts and what follows them, taken apart from the front.
proof fn lemma_ned_parts(
    s0: Seq<u8>,
    s1: Seq<u8>,
    s2: Seq<u8>,
    s3: Seq<u8>,
    s4: Seq<u8>,
    rest: Seq<u8>,
)
    ensures
        ({
            let all = s0 + s1 + s2 + s3 + s4 + rest;
            let n1 = s0.len() as int;
            let n2 = n1 + s1.len();
            let n3 = n2 + s2.len();
            let n4 = n3 + s3.len();
            &&& all == s0 + (s1 + (s2 + (s3 + (s4 + rest))))
            &&& all.skip(n1) == s1 + (s2 + (s3 + (s4 + rest)))
            &&& all.skip(n2) == s2 + (s3 + (s4 + rest))
            &&& all.skip(n3) == s3 + (s4 + rest)
            &&& all.skip(n4) == s4 + rest
        }),
{
    let all = s0 + s1 + s2 + s3 + s4 + rest;
    let n1 = s0.len() as int;
    let n2 = n1 + s1.len();
    let n3 = n2 + s2.len();
    let n4 = n3 + s3.len();
    assert(all =~= s0 + (s1 + (s2 + (s3 + (s4 + rest)))));
    assert(all.skip(n1) =~= s1 + (s2 + (s3 + (s4 + rest))));
    assert(all.skip(n2) =~= s2 + (s3 + (s4 + rest)));
    assert(all.skip(n3) =~= s3 + (s4 + rest));
    assert(all.skip(n4) =~= s4 + rest);
}

/// A record whose parts are read one after another is read as a whole.
proof fn lemma_ned_assemble(all: Seq<u8>, m: NedTimezoneModel)
    requires
        ({
            let n1 = 8int;
            let n2 = n1 + option_string_bytes(m.identifier).len();
            let n3 = n2 + string_bytes(m.description).len();
            let n4 = n3 + option_string_bytes(m.dst_description).len();
            &&& parse_usize(all) == Ok::<(usize, int), CodecError>((m.id, 8))
            &&& parse_option_string(all.skip(n1)) == Ok::<(Option<Seq<char>>, int), CodecError>(
                (m.identifier, n2 - n1),
            )
            &&& parse_string(all.skip(n2)) == Ok::<(Seq<char>, int), CodecError>(
                (m.description, n3 - n2),
            )
            &&& parse_option_string(all.skip(n3)) == Ok::<(Option<Seq<char>>, int), CodecError>(
                (m.dst_description, n4 - n3),
            )
            &&& parse_ned_tail(all.skip(n4)) == Ok::<(NedTail, int), CodecError>(
                (ned_tail(m), ned_tail_bytes(ned_tail(m)).len() as int),
            )
        }),
    ensures
        NedTimezone::parse_record(all) == Ok::<(NedTimezoneModel, int), CodecError>(
            (
                m,
                NedTimezone::record_bytes(m).len() as int,
            ),
        ),
{
    lemma_parse_usize(m.id, Seq::empty());
}

} // verus!
