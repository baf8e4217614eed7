//! Polygons and multi-polygons, and their bytes in the artifact.
//!
//! A coordinate is held as the bit patterns of its two single-precision
//! values: the codec moves them unchanged, and never computes with them.

use crate::wire::{
    counted_bytes, decoded, lemma_parse_counted, lemma_parse_repeat_err, lemma_parse_u32,
    lemma_parse_usize, lemma_skip_skip, parse_counted, parse_repeat, parse_u32, parse_usize,
    put_u32, put_usize, reads_back, repeat_bytes, take_u32, take_usize, u32_bytes, usize_bytes,
    CodecError, Parsed,
};
use vstd::prelude::*;

verus! {

/// A point in degrees: longitude `x` and latitude `y`, each as the bit
/// pattern of a single-precision value.
#[derive(Clone, Copy, Debug, PartialEq, Eq, Structural)]
pub struct Coord {
    pub x: u32,
    pub y: u32,
}

/// One outer ring and the rings of its holes.
#[derive(Debug)]
pub struct Polygon {
    pub exterior: Vec<Coord>,
    pub interiors: Vec<Vec<Coord>>,
}

/// The shape of a region.
#[derive(Debug)]
pub enum Geometry {
    Polygon(Polygon),
    MultiPolygon(Vec<Polygon>),
}

/// A polygon as a mathematical value.
pub struct PolygonModel {
    pub exterior: Seq<Coord>,
    pub interiors: Seq<Seq<Coord>>,
}

/// A geometry as a mathematical value.
pub enum GeometryModel {
    Polygon(PolygonModel),
    MultiPolygon(Seq<PolygonModel>),
}

/// The rings that a vector of rings stands for.
pub open spec fn rings_model(v: Seq<Vec<Coord>>) -> Seq<Seq<Coord>> {
    Seq::new(v.len(), |i: int| v[i]@)
}

/// The polygons that a vector of polygons stands for.
pub open spec fn polygons_model(v: Seq<Polygon>) -> Seq<PolygonModel> {
    Seq::new(v.len(), |i: int| v[i]@)
}

impl View for Polygon {
    type V = PolygonModel;

    open spec fn view(&self) -> PolygonModel {
        PolygonModel { exterior: self.exterior@, interiors: rings_model(self.interiors@) }
    }
}

impl View for Geometry {
    type V = GeometryModel;

    open spec fn view(&self) -> GeometryModel {
        match self {
            Geometry::Polygon(p) => GeometryModel::Polygon(p@),
            Geometry::MultiPolygon(ps) => GeometryModel::MultiPolygon(polygons_model(ps@)),
        }
    }
}

/// Whether every count in the polygon fits a machine word, as it does in
/// every polygon that is held in memory.
pub open spec fn polygon_fits(p: PolygonModel) -> bool {
    &&& p.exterior.len() <= usize::MAX
    &&& p.interiors.len() <= usize::MAX
    &&& forall|i: int| 0 <= i < p.interiors.len() ==> (#[trigger] p.interiors[i]).len() <= usize::MAX
}

/// Whether every count in the geometry fits a machine word.
pub open spec fn geometry_fits(g: GeometryModel) -> bool {
    match g {
        GeometryModel::Polygon(p) => polygon_fits(p),
        GeometryModel::MultiPolygon(ps) => {
            &&& ps.len() <= usize::MAX
            &&& forall|i: int| 0 <= i < ps.len() ==> polygon_fits(#[trigger] ps[i])
        },
    }
}

/// The bytes of a coordinate: `x`, then `y`.
pub open spec fn coord_bytes(c: Coord) -> Seq<u8> {
    u32_bytes(c.x) + u32_bytes(c.y)
}

/// Reading a coordinate from the front of `s`.
pub open spec fn parse_coord(s: Seq<u8>) -> Parsed<Coord> {
    match parse_u32(s) {
        Ok((x, n)) => match parse_u32(s.skip(n)) {
            Ok((y, m)) => Ok((Coord { x, y }, n + m)),
            Err(e) => Err(e),
        },
        Err(e) => Err(e),
    }
}

/// `coord_bytes` as a value.
pub open spec fn coord_enc() -> spec_fn(Coord) -> Seq<u8> {
    |c: Coord| coord_bytes(c)
}

/// `parse_coord` as a value.
pub open spec fn coord_item() -> spec_fn(Seq<u8>) -> Parsed<Coord> {
    |s: Seq<u8>| parse_coord(s)
}

/// The bytes of a ring: the number of its coordinates, then the coordinates.
pub open spec fn ring_bytes(r: Seq<Coord>) -> Seq<u8> {
    counted_bytes(r, coord_enc())
}

/// Reading a ring from the front of `s`.
pub open spec fn parse_ring(s: Seq<u8>) -> Parsed<Seq<Coord>> {
    parse_counted(s, coord_item())
}

/// `ring_bytes` as a value.
pub open spec fn ring_enc() -> spec_fn(Seq<Coord>) -> Seq<u8> {
    |r: Seq<Coord>| ring_bytes(r)
}

/// `parse_ring` as a value.
pub open spec fn ring_item() -> spec_fn(Seq<u8>) -> Parsed<Seq<Coord>> {
    |s: Seq<u8>| parse_ring(s)
}

/// The bytes of a polygon: the outer ring, then the number of holes, then the
/// ring of each hole.
pub open spec fn polygon_bytes(p: PolygonModel) -> Seq<u8> {
    ring_bytes(p.exterior) + counted_bytes(p.interiors, ring_enc())
}

/// Reading a polygon from the front of `s`.
pub open spec fn parse_polygon(s: Seq<u8>) -> Parsed<PolygonModel> {
    match parse_ring(s) {
        Ok((exterior, n)) => match parse_counted(s.skip(n), ring_item()) {
            Ok((interiors, m)) => Ok((PolygonModel { exterior, interiors }, n + m)),
            Err(e) => Err(e),
        },
        Err(e) => Err(e),
    }
}

/// `polygon_bytes` as a value.
pub open spec fn polygon_enc() -> spec_fn(PolygonModel) -> Seq<u8> {
    |p: PolygonModel| polygon_bytes(p)
}

/// `parse_polygon` as a value.
pub open spec fn polygon_item() -> spec_fn(Seq<u8>) -> Parsed<PolygonModel> {
    |s: Seq<u8>| parse_polygon(s)
}

/// The tag word of a polygon.
pub const TAG_POLYGON: usize = 0;

/// The tag word of a multi-polygon.
pub const TAG_MULTI_POLYGON: usize = 1;

/// The bytes of a geometry: the tag word, 0 for a polygon and 1 for a
/// multi-polygon; then the polygon, or the number of polygons and each of
/// them.
pub open spec fn geometry_bytes(g: GeometryModel) -> Seq<u8> {
    match g {
        GeometryModel::Polygon(p) => usize_bytes(TAG_POLYGON) + polygon_bytes(p),
        GeometryModel::MultiPolygon(ps) => usize_bytes(TAG_MULTI_POLYGON) + counted_bytes(
            ps,
            polygon_enc(),
        ),
    }
}

/// Reading a geometry from the front of `s`. A tag word other than 0 and 1 is
/// an unknown variant.
pub open spec fn parse_geometry(s: Seq<u8>) -> Parsed<GeometryModel> {
    match parse_usize(s) {
        Ok((tag, n)) => if tag == TAG_POLYGON {
            match parse_polygon(s.skip(n)) {
                Ok((p, m)) => Ok((GeometryModel::Polygon(p), n + m)),
                Err(e) => Err(e),
            }
        } else if tag == TAG_MULTI_POLYGON {
            match parse_counted(s.skip(n), polygon_item()) {
                Ok((ps, m)) => Ok((GeometryModel::MultiPolygon(ps), n + m)),
                Err(e) => Err(e),
            }
        } else {
            Err(CodecError::UnknownVariant)
        },
        Err(e) => Err(e),
    }
}

/// Appends the bytes of a coordinate to `out`.
pub fn put_coord(out: &mut Vec<u8>, c: Coord)
    ensures
        final(out)@ == old(out)@ + coord_bytes(c),
{
    put_u32(out, c.x);
    put_u32(out, c.y);
    assert(out@ == old(out)@ + coord_bytes(c));
}

/// Reads a coordinate at `pos`.
pub fn take_coord(bytes: &[u8], pos: usize) -> (r: Result<(Coord, usize), CodecError>)
    requires
        pos <= bytes@.len(),
    ensures
        decoded(r, parse_coord(bytes@.skip(pos as int)), pos, bytes@.len()),
{
    match take_u32(bytes, pos) {
        Err(e) => Err(e),
        Ok((x, p)) => {
            proof {
                lemma_skip_skip(bytes@, pos as int, 4);
            }
            match take_u32(bytes, p) {
                Err(e) => Err(e),
                Ok((y, q)) => Ok((Coord { x, y }, q)),
            }
        },
    }
}

/// Appends the bytes of a ring to `out`.
pub fn put_ring(out: &mut Vec<u8>, ring: &Vec<Coord>)
    ensures
        final(out)@ == old(out)@ + ring_bytes(ring@),
{
    put_usize(out, ring.len());
    let ghost start = out@;
    let mut i: usize = 0;
    while i < ring.len()
        invariant
            i <= ring.len(),
            out@ == start + repeat_bytes(ring@.take(i as int), coord_enc()),
        decreases ring.len() - i,
    {
        put_coord(out, ring[i]);
        proof {
            let next = ring@.take(i + 1);
            assert(next.drop_last() == ring@.take(i as int));
            assert(next.last() == ring@[i as int]);
            assert(out@ == start + repeat_bytes(next, coord_enc()));
        }
        i = i + 1;
    }
    assert(ring@.take(ring@.len() as int) == ring@);
    assert(out@ == old(out)@ + ring_bytes(ring@));
}

/// Reads a ring at `pos`.
#[verifier::loop_isolation(false)]
pub fn take_ring(bytes: &[u8], pos: usize) -> (r: Result<(Vec<Coord>, usize), CodecError>)
    requires
        pos <= bytes@.len(),
    ensures
        match parse_ring(bytes@.skip(pos as int)) {
            Ok((v, n)) => r matches Ok((ring, p)) && ring@ == v && p == pos + n && pos <= p <= bytes@.len(),
            Err(e) => r matches Err(f) && f == e,
        },
{
    let (count, start) = match take_usize(bytes, pos) {
        Err(e) => {
            return Err(e);
        },
        Ok(x) => x,
    };
    let ghost s = bytes@.skip(start as int);
    proof {
        lemma_skip_skip(bytes@, pos as int, 8);
    }
    let mut ring: Vec<Coord> = Vec::new();
    let mut p: usize = start;
    let mut i: usize = 0;
    while i < count
        invariant
            i <= count,
            start <= p <= bytes@.len(),
            s == bytes@.skip(start as int),
            parse_repeat(s, i as nat, coord_item()) == Ok::<(Seq<Coord>, int), CodecError>(
                (ring@, p - start),
            ),
        decreases count - i,
    {
        proof {
            lemma_skip_skip(bytes@, start as int, p - start);
        }
        match take_coord(bytes, p) {
            Err(e) => {
                proof {
                    assert(parse_repeat(s, (i + 1) as nat, coord_item()) is Err);
                    lemma_parse_repeat_err(s, (i + 1) as nat, count as nat, coord_item());
                }
                return Err(e);
            },
            Ok((c, q)) => {
                ring.push(c);
                p = q;
            },
        }
        i = i + 1;
    }
    Ok((ring, p))
}

/// Appends the bytes of the rings of a polygon's holes to `out`: their
/// number, then each ring.
pub fn put_rings(out: &mut Vec<u8>, rings: &Vec<Vec<Coord>>)
    ensures
        final(out)@ == old(out)@ + counted_bytes(rings_model(rings@), ring_enc()),
{
    put_usize(out, rings.len());
    let ghost start = out@;
    let ghost model = rings_model(rings@);
    let mut i: usize = 0;
    while i < rings.len()
        invariant
            i <= rings.len(),
            model == rings_model(rings@),
            out@ == start + repeat_bytes(model.take(i as int), ring_enc()),
        decreases rings.len() - i,
    {
        put_ring(out, &rings[i]);
        proof {
            let next = model.take(i + 1);
            assert(next.drop_last() == model.take(i as int));
            assert(next.last() == rings@[i as int]@);
            assert(out@ == start + repeat_bytes(next, ring_enc()));
        }
        i = i + 1;
    }
    assert(model.take(model.len() as int) == model);
    assert(out@ == old(out)@ + counted_bytes(model, ring_enc()));
}

/// Reads the rings of a polygon's holes at `pos`.
#[verifier::loop_isolation(false)]
pub fn take_rings(bytes: &[u8], pos: usize) -> (r: Result<(Vec<Vec<Coord>>, usize), CodecError>)
    requires
        pos <= bytes@.len(),
    ensures
        match parse_counted(bytes@.skip(pos as int), ring_item()) {
            Ok((v, n)) => r matches Ok((rings, p)) && rings_model(rings@) == v && p == pos + n && pos <= p <= bytes@.len(),
            Err(e) => r matches Err(f) && f == e,
        },
{
    let (count, start) = match take_usize(bytes, pos) {
        Err(e) => {
            return Err(e);
        },
        Ok(x) => x,
    };
    let ghost s = bytes@.skip(start as int);
    proof {
        lemma_skip_skip(bytes@, pos as int, 8);
    }
    let mut rings: Vec<Vec<Coord>> = Vec::new();
    let mut p: usize = start;
    let mut i: usize = 0;
    assert(rings_model(rings@) == Seq::<Seq<Coord>>::empty());
    while i < count
        invariant
            i <= count,
            start <= p <= bytes@.len(),
            s == bytes@.skip(start as int),
            parse_repeat(s, i as nat, ring_item()) == Ok::<(Seq<Seq<Coord>>, int), CodecError>(
                (rings_model(rings@), p - start),
            ),
        decreases count - i,
    {
        proof {
            lemma_skip_skip(bytes@, start as int, p - start);
        }
        match take_ring(bytes, p) {
            Err(e) => {
                proof {
                    assert(parse_repeat(s, (i + 1) as nat, ring_item()) is Err);
                    lemma_parse_repeat_err(s, (i + 1) as nat, count as nat, ring_item());
                }
                return Err(e);
            },
            Ok((ring, q)) => {
                let ghost before = rings@;
                rings.push(ring);
                assert(rings_model(rings@) == rings_model(before).push(ring@));
                p = q;
            },
        }
        i = i + 1;
    }
    Ok((rings, p))
}

/// Appends the bytes of a polygon to `out`.
pub fn encode_poly(polygon: &Polygon, out: &mut Vec<u8>)
    ensures
        final(out)@ == old(out)@ + polygon_bytes(polygon@),
{
    put_ring(out, &polygon.exterior);
    put_rings(out, &polygon.interiors);
    assert(out@ == old(out)@ + polygon_bytes(polygon@));
}

/// Reads a polygon at `pos`.
pub fn decode_poly(bytes: &[u8], pos: usize) -> (r: Result<(Polygon, usize), CodecError>)
    requires
        pos <= bytes@.len(),
    ensures
        match parse_polygon(bytes@.skip(pos as int)) {
            Ok((v, n)) => r matches Ok((polygon, p)) && polygon@ == v && p == pos + n && pos <= p <= bytes@.len(),
            Err(e) => r matches Err(f) && f == e,
        },
{
    match take_ring(bytes, pos) {
        Err(e) => Err(e),
        Ok((exterior, p)) => {
            proof {
                lemma_skip_skip(bytes@, pos as int, p - pos);
            }
            match take_rings(bytes, p) {
                Err(e) => Err(e),
                Ok((interiors, q)) => Ok((Polygon { exterior, interiors }, q)),
            }
        },
    }
}

/// Appends the bytes of the polygons of a multi-polygon to `out`: their
/// number, then each polygon.
pub fn put_polygons(out: &mut Vec<u8>, polygons: &Vec<Polygon>)
    ensures
        final(out)@ == old(out)@ + counted_bytes(polygons_model(polygons@), polygon_enc()),
{
    put_usize(out, polygons.len());
    let ghost start = out@;
    let ghost model = polygons_model(polygons@);
    let mut i: usize = 0;
    while i < polygons.len()
        invariant
            i <= polygons.len(),
            model == polygons_model(polygons@),
            out@ == start + repeat_bytes(model.take(i as int), polygon_enc()),
        decreases polygons.len() - i,
    {
        encode_poly(&polygons[i], out);
        proof {
            let next = model.take(i + 1);
            assert(next.drop_last() == model.take(i as int));
            assert(next.last() == polygons@[i as int]@);
            assert(out@ == start + repeat_bytes(next, polygon_enc()));
        }
        i = i + 1;
    }
    assert(model.take(model.len() as int) == model);
    assert(out@ == old(out)@ + counted_bytes(model, polygon_enc()));
}

/// Reads the polygons of a multi-polygon at `pos`.
#[verifier::loop_isolation(false)]
pub fn take_polygons(bytes: &[u8], pos: usize) -> (r: Result<(Vec<Polygon>, usize), CodecError>)
    requires
        pos <= bytes@.len(),
    ensures
        match parse_counted(bytes@.skip(pos as int), polygon_item()) {
            Ok((v, n)) => r matches Ok((polygons, p)) && polygons_model(polygons@) == v && p == pos + n && pos <= p <= bytes@.len(),
            Err(e) => r matches Err(f) && f == e,
        },
{
    let (count, start) = match take_usize(bytes, pos) {
        Err(e) => {
            return Err(e);
        },
        Ok(x) => x,
    };
    let ghost s = bytes@.skip(start as int);
    proof {
        lemma_skip_skip(bytes@, pos as int, 8);
    }
    let mut polygons: Vec<Polygon> = Vec::new();
    let mut p: usize = start;
    let mut i: usize = 0;
    assert(polygons_model(polygons@) == Seq::<PolygonModel>::empty());
    while i < count
        invariant
            i <= count,
            start <= p <= bytes@.len(),
            s == bytes@.skip(start as int),
            parse_repeat(s, i as nat, polygon_item()) == Ok::<
                (Seq<PolygonModel>, int),
                CodecError,
            >((polygons_model(polygons@), p - start)),
        decreases count - i,
    {
        proof {
            lemma_skip_skip(bytes@, start as int, p - start);
        }
        match decode_poly(bytes, p) {
            Err(e) => {
                proof {
                    assert(parse_repeat(s, (i + 1) as nat, polygon_item()) is Err);
                    lemma_parse_repeat_err(s, (i + 1) as nat, count as nat, polygon_item());
                }
                return Err(e);
            },
            Ok((polygon, q)) => {
                let ghost before = polygons@;
                let ghost added = polygon@;
                polygons.push(polygon);
                assert(polygons_model(polygons@) == polygons_model(before).push(added));
                p = q;
            },
        }
        i = i + 1;
    }
    Ok((polygons, p))
}

/// A geometry that can be written to the artifact and read from it.
#[derive(Debug)]
pub struct EncodableGeometry(pub Geometry);

impl View for EncodableGeometry {
    type V = GeometryModel;

    open spec fn view(&self) -> GeometryModel {
        self.0@
    }
}

impl EncodableGeometry {
    /// Appends the bytes of the geometry to `out`.
    pub fn encode(&self, out: &mut Vec<u8>)
        ensures
            final(out)@ == old(out)@ + geometry_bytes(self@),
    {
        match &self.0 {
            Geometry::Polygon(polygon) => {
                put_usize(out, TAG_POLYGON);
                encode_poly(polygon, out);
                assert(out@ == old(out)@ + geometry_bytes(self@));
            },
            Geometry::MultiPolygon(polygons) => {
                put_usize(out, TAG_MULTI_POLYGON);
                put_polygons(out, polygons);
                assert(out@ == old(out)@ + geometry_bytes(self@));
            },
        }
    }

    /// Reads a geometry at `pos`.
    pub fn decode(bytes: &[u8], pos: usize) -> (r: Result<(EncodableGeometry, usize), CodecError>)
        requires
            pos <= bytes@.len(),
        ensures
            match parse_geometry(bytes@.skip(pos as int)) {
                Ok((v, n)) => r matches Ok((g, p)) && g@ == v && p == pos + n && pos <= p <= bytes@.len(),
                Err(e) => r matches Err(f) && f == e,
            },
    {
        match take_usize(bytes, pos) {
            Err(e) => Err(e),
            Ok((tag, p)) => {
                proof {
                    lemma_skip_skip(bytes@, pos as int, 8);
                }
                if tag == TAG_POLYGON {
                    match decode_poly(bytes, p) {
                        Err(e) => Err(e),
                        Ok((polygon, q)) => Ok((EncodableGeometry(Geometry::Polygon(polygon)), q)),
                    }
                } else if tag == TAG_MULTI_POLYGON {
                    match take_polygons(bytes, p) {
                        Err(e) => Err(e),
                        Ok((polygons, q)) => Ok(
                            (EncodableGeometry(Geometry::MultiPolygon(polygons)), q),
                        ),
                    }
                } else {
                    Err(CodecError::UnknownVariant)
                }
            },
        }
    }
}

/// A coordinate is read back as it was written, whatever follows it.
pub proof fn lemma_parse_coord(c: Coord, rest: Seq<u8>)
    ensures
        coord_bytes(c).len() == 8,
        parse_coord(coord_bytes(c) + rest) == Ok::<(Coord, int), CodecError>((c, 8)),
{
    let all = coord_bytes(c) + rest;
    lemma_parse_u32(c.x, u32_bytes(c.y) + rest);
    lemma_parse_u32(c.y, rest);
    assert(all == u32_bytes(c.x) + (u32_bytes(c.y) + rest));
    assert(all.skip(4) == u32_bytes(c.y) + rest);
}

/// A ring is read back as it was written, whatever follows it.
pub proof fn lemma_parse_ring(r: Seq<Coord>, rest: Seq<u8>)
    requires
        r.len() <= usize::MAX,
    ensures
        parse_ring(ring_bytes(r) + rest) == Ok::<(Seq<Coord>, int), CodecError>(
            (r, ring_bytes(r).len() as int),
        ),
{
    assert forall|i: int| 0 <= i < r.len() implies reads_back(
        #[trigger] r[i],
        coord_enc(),
        coord_item(),
    ) by {
        let c = r[i];
        assert forall|tail: Seq<u8>| #[trigger]
            coord_item()(coord_enc()(c) + tail) == Ok::<(Coord, int), CodecError>(
                (c, coord_enc()(c).len() as int),
            ) by {
            lemma_parse_coord(c, tail);
        }
    }
    lemma_parse_counted(r, rest, coord_enc(), coord_item());
}

/// A polygon is read back as it was written, whatever follows it.
pub proof fn lemma_parse_polygon(p: PolygonModel, rest: Seq<u8>)
    requires
        polygon_fits(p),
    ensures
        parse_polygon(polygon_bytes(p) + rest) == Ok::<(PolygonModel, int), CodecError>(
            (p, polygon_bytes(p).len() as int),
        ),
{
    let holes = counted_bytes(p.interiors, ring_enc());
    let all = polygon_bytes(p) + rest;
    lemma_parse_ring(p.exterior, holes + rest);
    assert(all == ring_bytes(p.exterior) + (holes + rest));
    assert(all.skip(ring_bytes(p.exterior).len() as int) == holes + rest);
    assert forall|i: int| 0 <= i < p.interiors.len() implies reads_back(
        #[trigger] p.interiors[i],
        ring_enc(),
        ring_item(),
    ) by {
        let r = p.interiors[i];
        assert forall|tail: Seq<u8>| #[trigger]
            ring_item()(ring_enc()(r) + tail) == Ok::<(Seq<Coord>, int), CodecError>(
                (r, ring_enc()(r).len() as int),
            ) by {
            lemma_parse_ring(r, tail);
        }
    }
    lemma_parse_counted(p.interiors, rest, ring_enc(), ring_item());
}

/// A geometry is read back as it was written, whatever follows it.
pub proof fn lemma_parse_geometry(g: GeometryModel, rest: Seq<u8>)
    requires
        geometry_fits(g),
    ensures
        parse_geometry(geometry_bytes(g) + rest) == Ok::<(GeometryModel, int), CodecError>(
            (g, geometry_bytes(g).len() as int),
        ),
{
    let all = geometry_bytes(g) + rest;
    match g {
        GeometryModel::Polygon(p) => {
            lemma_parse_usize(TAG_POLYGON, polygon_bytes(p) + rest);
            assert(all == usize_bytes(TAG_POLYGON) + (polygon_bytes(p) + rest));
            assert(all.skip(8) == polygon_bytes(p) + rest);
            lemma_parse_polygon(p, rest);
        },
        GeometryModel::MultiPolygon(ps) => {
            let body = counted_bytes(ps, polygon_enc());
            lemma_parse_usize(TAG_MULTI_POLYGON, body + rest);
            assert(all == usize_bytes(TAG_MULTI_POLYGON) + (body + rest));
            assert(all.skip(8) == body + rest);
            assert forall|i: int| 0 <= i < ps.len() implies reads_back(
                #[trigger] ps[i],
                polygon_enc(),
                polygon_item(),
            ) by {
                let p = ps[i];
                assert forall|tail: Seq<u8>| #[trigger]
                    polygon_item()(polygon_enc()(p) + tail) == Ok::<
                        (PolygonModel, int),
                        CodecError,
                    >((p, polygon_enc()(p).len() as int)) by {
                    lemma_parse_polygon(p, tail);
                }
            }
            lemma_parse_counted(ps, rest, polygon_enc(), polygon_item());
        },
    }
}

/// The counts of a geometry that is held in memory fit a machine word.
pub proof fn lemma_geometry_fits(g: Geometry)
    ensures
        geometry_fits(g@),
{
    match g {
        Geometry::Polygon(p) => {
            lemma_polygon_fits(p);
        },
        Geometry::MultiPolygon(ps) => {
            assert forall|i: int| 0 <= i < polygons_model(ps@).len() implies polygon_fits(
                #[trigger] polygons_model(ps@)[i],
            ) by {
                lemma_polygon_fits(ps@[i]);
            }
            assert(ps@.len() == ps.len());
        },
    }
}

/// The counts of a polygon that is held in memory fit a machine word.
pub proof fn lemma_polygon_fits(p: Polygon)
    ensures
        polygon_fits(p@),
{
    assert(p.exterior@.len() == p.exterior.len());
    assert(p.interiors@.len() == p.interiors.len());
    assert forall|i: int| 0 <= i < p@.interiors.len() implies (#[trigger] p@.interiors[i]).len()
        <= usize::MAX by {
        assert(p.interiors@[i]@.len() == p.interiors@[i].len());
    }
}

} // verus!
