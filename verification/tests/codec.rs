use rtz::admin::OsmAdmin;
use rtz::artifact::{decode_binary_data, decode_lookup_data, generate_bincodes, generate_item_bincode, generate_lookup_bincode};
use rtz::geometry::{decode_poly, encode_poly, take_ring, Coord, EncodableGeometry, Geometry, Polygon};
use rtz::grid::{cell_ids, cell_slot, GridLookup, GRID_CELLS};
use rtz::ids::EncodableIds;
use rtz::ned::NedTimezone;
use rtz::osm::OsmTimezone;
use rtz::record::{ConcreteVec, Record};
use rtz::text::{EncodableOptionString, EncodableString};
use rtz::wire::CodecError;

fn at(x: f32, y: f32) -> Coord {
    Coord { x: x.to_bits(), y: y.to_bits() }
}

fn triangle(x: f32, y: f32) -> Vec<Coord> {
    vec![at(x, y), at(x + 1.0, y), at(x, y + 1.0), at(x, y)]
}

fn holed_polygon() -> Polygon {
    Polygon {
        exterior: vec![at(0.0, 0.0), at(10.0, 0.0), at(10.0, 10.0), at(0.0, 10.0), at(0.0, 0.0)],
        interiors: vec![triangle(1.0, 1.0), triangle(5.0, 5.0)],
    }
}

fn same_polygon(a: &Polygon, b: &Polygon) -> bool {
    a.exterior == b.exterior && a.interiors == b.interiors
}

fn same_geometry(a: &Geometry, b: &Geometry) -> bool {
    match (a, b) {
        (Geometry::Polygon(p), Geometry::Polygon(q)) => same_polygon(p, q),
        (Geometry::MultiPolygon(ps), Geometry::MultiPolygon(qs)) => {
            ps.len() == qs.len() && ps.iter().zip(qs.iter()).all(|(p, q)| same_polygon(p, q))
        }
        _ => false,
    }
}

#[test]
fn polygon_bytes_follow_the_layout() {
    let polygon = Polygon { exterior: vec![at(1.5, -2.0), at(3.0, 4.0)], interiors: vec![vec![at(0.0, 0.0)]] };
    let mut out = Vec::new();
    encode_poly(&polygon, &mut out);
    let mut expected: Vec<u8> = Vec::new();
    expected.extend_from_slice(&2u64.to_le_bytes());
    for v in [1.5f32, -2.0, 3.0, 4.0] {
        expected.extend_from_slice(&v.to_le_bytes());
    }
    expected.extend_from_slice(&1u64.to_le_bytes());
    expected.extend_from_slice(&1u64.to_le_bytes());
    expected.extend_from_slice(&0.0f32.to_le_bytes());
    expected.extend_from_slice(&0.0f32.to_le_bytes());
    assert_eq!(out, expected);
}

#[test]
fn geometry_tags_are_zero_and_one() {
    let mut out = Vec::new();
    EncodableGeometry(Geometry::Polygon(holed_polygon())).encode(&mut out);
    assert_eq!(&out[..8], &0u64.to_le_bytes());
    let mut out = Vec::new();
    EncodableGeometry(Geometry::MultiPolygon(vec![holed_polygon()])).encode(&mut out);
    assert_eq!(&out[..8], &1u64.to_le_bytes());
    assert_eq!(&out[8..16], &1u64.to_le_bytes());
}

#[test]
fn geometry_round_trip() {
    let shapes = vec![
        Geometry::Polygon(holed_polygon()),
        Geometry::Polygon(Polygon { exterior: Vec::new(), interiors: Vec::new() }),
        Geometry::MultiPolygon(Vec::new()),
        Geometry::MultiPolygon(vec![
            holed_polygon(),
            Polygon { exterior: triangle(-3.0, -3.0), interiors: Vec::new() },
            Polygon { exterior: vec![at(f32::NAN, -0.0), at(f32::INFINITY, f32::MIN_POSITIVE)], interiors: vec![Vec::new()] },
        ]),
    ];
    for shape in shapes {
        let mut out = vec![1u8, 2, 3];
        EncodableGeometry(shape).encode(&mut out);
        let written = out.len();
        out.extend_from_slice(&[9, 9]);
        let shape = EncodableGeometry::decode(&out, 3).map(|(g, p)| {
            assert_eq!(p, written);
            g
        });
        let mut again = vec![1u8, 2, 3];
        let decoded = shape.unwrap();
        decoded.encode(&mut again);
        assert_eq!(&again[..], &out[..written]);
    }
    let original = Geometry::MultiPolygon(vec![holed_polygon(), holed_polygon()]);
    let mut out = Vec::new();
    EncodableGeometry(Geometry::MultiPolygon(vec![holed_polygon(), holed_polygon()])).encode(&mut out);
    let (decoded, _) = EncodableGeometry::decode(&out, 0).unwrap();
    assert!(same_geometry(&decoded.0, &original));
}

#[test]
fn unknown_geometry_tag_is_reported() {
    let mut bytes = 2u64.to_le_bytes().to_vec();
    bytes.extend_from_slice(&[0u8; 32]);
    assert_eq!(EncodableGeometry::decode(&bytes, 0).err(), Some(CodecError::UnknownVariant));
}

#[test]
fn truncated_geometry_is_an_unexpected_end() {
    let mut out = Vec::new();
    EncodableGeometry(Geometry::MultiPolygon(vec![holed_polygon(), holed_polygon()])).encode(&mut out);
    for cut in 0..out.len() {
        assert_eq!(EncodableGeometry::decode(&out[..cut], 0).err(), Some(CodecError::UnexpectedEnd), "cut at {}", cut);
    }
    assert!(EncodableGeometry::decode(&out, 0).is_ok());
}

#[test]
fn a_count_beyond_the_input_is_an_unexpected_end() {
    let mut bytes = u64::MAX.to_le_bytes().to_vec();
    bytes.extend_from_slice(&[0u8; 16]);
    let expected = if usize::BITS < 64 { CodecError::OutsideUsizeRange } else { CodecError::UnexpectedEnd };
    assert_eq!(take_ring(&bytes, 0).err(), Some(expected));
    assert_eq!(decode_poly(&bytes, 0).err(), Some(expected));
    assert_eq!(EncodableIds::decode(&bytes, 0).err(), Some(expected));
}

#[test]
fn ids_are_what_bincode_writes_for_a_vector() {
    let ids = EncodableIds(vec![0, 7, 119, u32::MAX]);
    let mut out = Vec::new();
    ids.encode(&mut out);
    assert_eq!(out, bincode::encode_to_vec(vec![0u32, 7, 119, u32::MAX], bincode::config::legacy()).unwrap());
    let (back, p) = EncodableIds::decode(&out, 0).unwrap();
    assert_eq!(back.0, ids.0);
    assert_eq!(back.as_ref(), &[0, 7, 119, u32::MAX]);
    assert_eq!(p, 8 + 16);
    let (decoded, read): (Vec<u32>, usize) = bincode::decode_from_slice(&out, bincode::config::legacy()).unwrap();
    assert_eq!(decoded, ids.0);
    assert_eq!(read, p);
}

#[test]
fn cell_ids_are_the_places_of_the_set_flags() {
    assert_eq!(cell_ids(&vec![false, true, true, false, true]).0, vec![1, 2, 4]);
    assert_eq!(cell_ids(&vec![false, false]).0, Vec::<u32>::new());
    assert_eq!(cell_ids(&Vec::new()).0, Vec::<u32>::new());
}

#[test]
fn table_lists_its_cells_in_slot_order() {
    let mut table = GridLookup::new();
    assert!(table.insert(-180, -90, EncodableIds(vec![1, 2])));
    assert!(table.insert(179, 89, EncodableIds(vec![])));
    assert!(table.insert(-180, -89, EncodableIds(vec![3])));
    assert_eq!(table.len(), 3);
    let out = generate_lookup_bincode(&table);
    let mut expected: Vec<u8> = Vec::new();
    expected.extend_from_slice(&3u64.to_le_bytes());
    for (x, y, ids) in [(-180i16, -90i16, vec![1u32, 2]), (-180, -89, vec![3]), (179, 89, vec![])] {
        expected.extend_from_slice(&x.to_le_bytes());
        expected.extend_from_slice(&y.to_le_bytes());
        expected.extend_from_slice(&(ids.len() as u64).to_le_bytes());
        for id in ids {
            expected.extend_from_slice(&id.to_le_bytes());
        }
    }
    assert_eq!(out, expected);
    let (decoded, read): (std::collections::HashMap<(i16, i16), Vec<u32>>, usize) =
        bincode::decode_from_slice(&out, bincode::config::legacy()).unwrap();
    assert_eq!(read, out.len());
    assert_eq!(decoded.len(), 3);
    assert_eq!(decoded[&(-180, -90)], vec![1, 2]);
    assert_eq!(decoded[&(179, 89)], Vec::<u32>::new());
}

#[test]
fn table_round_trip() {
    let mut table = GridLookup::new();
    for (k, x) in (-180..180i16).enumerate() {
        for y in -90..90i16 {
            if (x + y) % 3 == 0 {
                table.insert(x, y, EncodableIds(vec![k as u32, (k + 1) as u32, 1000 + y as i32 as u32]));
            }
        }
    }
    let out = generate_lookup_bincode(&table);
    let back = decode_lookup_data(&out).unwrap();
    assert_eq!(back.len(), table.len());
    for x in -181..181i16 {
        for y in -91..91i16 {
            assert_eq!(back.get(x, y).map(|ids| ids.0.clone()), table.get(x, y).map(|ids| ids.0.clone()));
        }
    }
    assert_eq!(generate_lookup_bincode(&back), out);
}

#[test]
fn table_reads_what_bincode_writes_for_a_map() {
    let mut map: std::collections::HashMap<(i16, i16), Vec<u32>> = std::collections::HashMap::new();
    map.insert((-121, 46), vec![23]);
    map.insert((-177, -15), vec![5, 8]);
    map.insert((0, 0), vec![]);
    map.insert((200, 0), vec![1]);
    map.insert((0, -91), vec![2]);
    let bytes = bincode::encode_to_vec(&map, bincode::config::legacy()).unwrap();
    let table = decode_lookup_data(&bytes).unwrap();
    assert_eq!(table.len(), 3);
    assert_eq!(table.get(-121, 46).unwrap().0, vec![23]);
    assert_eq!(table.get(-177, -15).unwrap().0, vec![5, 8]);
    assert_eq!(table.get(0, 0).unwrap().0, Vec::<u32>::new());
    assert!(table.get(200, 0).is_none());
    assert!(table.get(0, -91).is_none());
    assert!(table.get(1, 1).is_none());
    assert!(!table.is_complete());
}

#[test]
fn later_entry_for_a_cell_stays() {
    let mut bytes = 2u64.to_le_bytes().to_vec();
    for ids in [vec![1u32], vec![2u32, 3]] {
        bytes.extend_from_slice(&5i16.to_le_bytes());
        bytes.extend_from_slice(&6i16.to_le_bytes());
        bytes.extend_from_slice(&(ids.len() as u64).to_le_bytes());
        for id in ids {
            bytes.extend_from_slice(&id.to_le_bytes());
        }
    }
    let table = decode_lookup_data(&bytes).unwrap();
    assert_eq!(table.len(), 1);
    assert_eq!(table.get(5, 6).unwrap().0, vec![2, 3]);
}

#[test]
fn truncated_table_is_an_unexpected_end() {
    let mut table = GridLookup::new();
    table.insert(1, 2, EncodableIds(vec![1, 2, 3]));
    table.insert(3, 4, EncodableIds(vec![4]));
    let out = generate_lookup_bincode(&table);
    for cut in 0..out.len() {
        assert_eq!(decode_lookup_data(&out[..cut]).err(), Some(CodecError::UnexpectedEnd), "cut at {}", cut);
    }
}

fn sample_ned(id: usize) -> NedTimezone {
    NedTimezone {
        id,
        identifier: EncodableOptionString(Some("America/Los_Angeles".to_string())),
        description: EncodableString("Canada (British Columbia), United States".to_string()),
        dst_description: EncodableOptionString(None),
        offset: EncodableString("UTC-08:00".to_string()),
        zone: (-8.0f32).to_bits(),
        raw_offset: -28800,
        geometry: EncodableGeometry(Geometry::Polygon(holed_polygon())),
    }
}

#[test]
fn ned_record_bytes_follow_the_field_order() {
    let mut out = Vec::new();
    sample_ned(23).encode(&mut out);
    let mut expected: Vec<u8> = Vec::new();
    expected.extend_from_slice(&23u64.to_le_bytes());
    EncodableOptionString(Some("America/Los_Angeles".to_string())).encode(&mut expected);
    EncodableString("Canada (British Columbia), United States".to_string()).encode(&mut expected);
    EncodableOptionString(None).encode(&mut expected);
    EncodableString("UTC-08:00".to_string()).encode(&mut expected);
    expected.extend_from_slice(&(-8.0f32).to_le_bytes());
    expected.extend_from_slice(&(-28800i32).to_le_bytes());
    EncodableGeometry(Geometry::Polygon(holed_polygon())).encode(&mut expected);
    assert_eq!(out, expected);
    assert_eq!(out.len() % 4, 0);
}

#[test]
fn ned_items_round_trip() {
    let items = ConcreteVec(vec![sample_ned(0), sample_ned(1), sample_ned(2)]);
    let bytes = generate_item_bincode(&items);
    assert_eq!(&bytes[..8], &3u64.to_le_bytes());
    let back: ConcreteVec<NedTimezone> = decode_binary_data(&bytes).unwrap();
    assert_eq!(back.len(), 3);
    for (a, b) in items.0.iter().zip(back.0.iter()) {
        assert_eq!(a.id, b.id);
        assert_eq!(a.identifier.0, b.identifier.0);
        assert_eq!(a.description.0, b.description.0);
        assert_eq!(a.dst_description.0, b.dst_description.0);
        assert_eq!(a.offset.0, b.offset.0);
        assert_eq!(a.zone, b.zone);
        assert_eq!(a.raw_offset, b.raw_offset);
        assert!(same_geometry(&a.geometry.0, &b.geometry.0));
    }
    assert_eq!(generate_item_bincode(&back), bytes);
}

#[test]
fn osm_items_round_trip() {
    let items = ConcreteVec(vec![
        OsmTimezone {
            id: 0,
            identifier: EncodableString("Etc/GMT+12".to_string()),
            geometry: EncodableGeometry(Geometry::MultiPolygon(vec![holed_polygon(), holed_polygon()])),
        },
        OsmTimezone {
            id: 1,
            identifier: EncodableString("".to_string()),
            geometry: EncodableGeometry(Geometry::Polygon(Polygon { exterior: triangle(0.0, 0.0), interiors: Vec::new() })),
        },
    ]);
    let bytes = generate_item_bincode(&items);
    let back: ConcreteVec<OsmTimezone> = decode_binary_data(&bytes).unwrap();
    assert_eq!(back.len(), 2);
    assert_eq!(back.0[0].identifier.as_ref(), "Etc/GMT+12");
    assert_eq!(back.0[1].identifier.as_ref(), "");
    assert!(back.0[0] == items.0[0]);
    assert!(back.0[1] != items.0[0]);
    assert!(same_geometry(&back.0[0].geometry.0, &items.0[0].geometry.0));
    assert_eq!(generate_item_bincode(&back), bytes);
}

#[test]
fn admin_items_round_trip() {
    let items = ConcreteVec(vec![OsmAdmin {
        id: 217,
        name: EncodableString("مصر".to_string()),
        level: 2,
        geometry: EncodableGeometry(Geometry::Polygon(holed_polygon())),
    }]);
    let bytes = generate_item_bincode(&items);
    let back: ConcreteVec<OsmAdmin> = decode_binary_data(&bytes).unwrap();
    assert_eq!(back.0[0].id, 217);
    assert_eq!(back.0[0].name.as_ref(), "مصر");
    assert_eq!(back.0[0].level, 2);
    assert!(same_geometry(&back.0[0].geometry.0, &items.0[0].geometry.0));
}

#[test]
fn truncated_items_are_an_unexpected_end() {
    let items = ConcreteVec(vec![sample_ned(0), sample_ned(1)]);
    let bytes = generate_item_bincode(&items);
    for cut in (0..bytes.len()).step_by(3) {
        assert_eq!(decode_binary_data::<NedTimezone>(&bytes[..cut]).err(), Some(CodecError::UnexpectedEnd), "cut at {}", cut);
    }
}

#[test]
fn items_of_another_corpus_do_not_decode() {
    let items = ConcreteVec(vec![sample_ned(0)]);
    let bytes = generate_item_bincode(&items);
    assert!(decode_binary_data::<OsmAdmin>(&bytes).is_err());
}

#[test]
fn generate_bincodes_gives_both_byte_strings() {
    let items = ConcreteVec(vec![sample_ned(0), sample_ned(1)]);
    let mut hits = vec![vec![false, false]; GRID_CELLS];
    hits[cell_slot(0, 0).unwrap()] = vec![true, true];
    hits[cell_slot(-180, -90).unwrap()] = vec![false, true];
    let (item_bytes, lookup_bytes) = generate_bincodes(&items, &hits);
    assert_eq!(item_bytes, generate_item_bincode(&items));
    let table = decode_lookup_data(&lookup_bytes).unwrap();
    assert_eq!(table.len(), 64_800);
    assert!(table.is_complete());
    assert_eq!(table.get(0, 0).unwrap().0, vec![0, 1]);
    assert_eq!(table.get(-180, -90).unwrap().0, vec![1]);
    assert_eq!(table.get(5, 5).unwrap().0, Vec::<u32>::new());
    assert!(table.ids_valid(2));
    assert!(!table.ids_valid(1));
}
