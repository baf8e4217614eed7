use rtz::artifact::{generate_item_bincode, generate_lookup_bincode, load, LoadError};
use rtz::cache::Cache;
use rtz::geometry::{Coord, EncodableGeometry, Geometry, Polygon};
use rtz::grid::{GridLookup, GridSweep, GRID_CELLS};
use rtz::ids::EncodableIds;
use rtz::compact::{first_hit, get_timezone, get_timezone_via_full_lookup, map_timezones, pad_timezone_ids};
use rtz::osm::OsmTimezone;
use rtz::query::{HasItemData, HasLookupData, Lookup};
use rtz::record::ConcreteVec;
use rtz::text::EncodableString;
use rtz::wire::CodecError;

fn zone(id: usize, name: &str) -> OsmTimezone {
    let at = |x: f32, y: f32| Coord { x: x.to_bits(), y: y.to_bits() };
    OsmTimezone {
        id,
        identifier: EncodableString(name.to_string()),
        geometry: EncodableGeometry(Geometry::Polygon(Polygon {
            exterior: vec![at(0.0, 0.0), at(2.0, 0.0), at(2.0, 2.0), at(0.0, 0.0)],
            interiors: Vec::new(),
        })),
    }
}

fn two_zones() -> Vec<u8> {
    generate_item_bincode(&ConcreteVec(vec![zone(0, "Zone/A"), zone(1, "Zone/B")]))
}

fn table_with(cells: &[(i16, i16, Vec<u32>)]) -> Vec<u8> {
    let mut table = GridLookup::new();
    for (x, y, ids) in cells {
        table.insert(*x, *y, EncodableIds(ids.clone()));
    }
    generate_lookup_bincode(&table)
}

#[test]
fn sweep_passes_every_cell_once() {
    let mut sweep = GridSweep::new(3);
    let mut seen = 0usize;
    let mut last = None;
    while let Some((x, y)) = sweep.pending() {
        assert_eq!(rtz::grid::cell_slot(x, y), Some(seen));
        let flags = vec![x == 0, y == 0, x == y];
        sweep.record(&flags);
        seen += 1;
        last = Some((x, y));
    }
    assert_eq!(seen, GRID_CELLS);
    assert_eq!(last, Some((179, 89)));
    let table = sweep.finish();
    assert_eq!(table.len(), 64_800);
    assert!(table.is_complete());
    assert!(table.ids_valid(3));
    assert_eq!(table.get(0, 0).unwrap().0, vec![0, 1, 2]);
    assert_eq!(table.get(0, 5).unwrap().0, vec![0]);
    assert_eq!(table.get(5, 0).unwrap().0, vec![1]);
    assert_eq!(table.get(7, 7).unwrap().0, vec![2]);
    assert_eq!(table.get(7, 8).unwrap().0, Vec::<u32>::new());
}

#[test]
fn load_joins_items_and_lookup() {
    let index = load::<OsmTimezone>(&two_zones(), &table_with(&[(0, 0, vec![0, 1]), (1, 1, vec![1])]), true).unwrap();
    assert_eq!(index.get_mem_items().len(), 2);
    assert_eq!(index.get_mem_lookup().len(), 2);
    assert_eq!(index.get_lookup_suggestions(0, 0).unwrap().len(), 2);
    assert_eq!(index.get_lookup_suggestions(1, 1).unwrap()[0].identifier.as_ref(), "Zone/B");
    assert!(matches!(index.lookup((1.5f32).to_bits(), (1.5f32).to_bits()), Lookup::Resolved(ids) if ids == vec![1]));
    assert!(matches!(index.lookup((0.5f32).to_bits(), (0.5f32).to_bits()), Lookup::Candidates(ids) if ids == vec![0, 1]));
    assert!(matches!(index.lookup((2.5f32).to_bits(), (0.5f32).to_bits()), Lookup::Resolved(ids) if ids.is_empty()));
}

#[test]
fn load_without_the_fast_path_leaves_every_candidate_to_the_exact_test() {
    let index = load::<OsmTimezone>(&two_zones(), &table_with(&[(1, 1, vec![1])]), false).unwrap();
    assert!(matches!(index.lookup((1.5f32).to_bits(), (1.5f32).to_bits()), Lookup::Candidates(ids) if ids == vec![1]));
}

#[test]
fn load_reports_which_part_failed() {
    let items = two_zones();
    let table = table_with(&[(0, 0, vec![0, 1])]);
    assert_eq!(load::<OsmTimezone>(&items[..items.len() - 1], &table, true).err(), Some(LoadError::Items(CodecError::UnexpectedEnd)));
    assert_eq!(load::<OsmTimezone>(&items, &table[..table.len() - 1], true).err(), Some(LoadError::Lookup(CodecError::UnexpectedEnd)));
    assert_eq!(load::<OsmTimezone>(&[], &[], true).err(), Some(LoadError::Items(CodecError::UnexpectedEnd)));
    let mut bad_tag = items.clone();
    let tag_at = 8 + 8 + 8 + 8;
    bad_tag[tag_at] = 9;
    assert_eq!(load::<OsmTimezone>(&bad_tag, &table, true).err(), Some(LoadError::Items(CodecError::UnknownVariant)));
    let mut bad_text = items.clone();
    bad_text[8 + 8 + 8] = 0xff;
    assert_eq!(load::<OsmTimezone>(&bad_text, &table, true).err(), Some(LoadError::Items(CodecError::InvalidUtf8)));
}

#[test]
fn load_rejects_an_id_without_an_item() {
    let r = load::<OsmTimezone>(&two_zones(), &table_with(&[(0, 0, vec![0, 1]), (5, 5, vec![2])]), true);
    assert_eq!(r.err(), Some(LoadError::InvalidIds));
}

#[test]
fn cache_loads_once() {
    let mut cache: Cache<OsmTimezone> = Cache::new();
    assert!(cache.get().is_none());
    let items = two_zones();
    let table = table_with(&[(0, 0, vec![0, 1])]);
    assert_eq!(cache.get_or_init(&items[..3], &table, true).err(), Some(LoadError::Items(CodecError::UnexpectedEnd)));
    assert!(cache.get().is_none());
    assert_eq!(cache.get_or_init(&items, &table, true).unwrap().get_mem_items().len(), 2);
    assert!(cache.get().is_some());
    let other = generate_item_bincode(&ConcreteVec(vec![zone(0, "Zone/C")]));
    let again = cache.get_or_init(&other, &[], false).unwrap();
    assert_eq!(again.get_mem_items().len(), 2);
    assert_eq!(again.get_mem_items().0[0].identifier.as_ref(), "Zone/A");
    assert_eq!(cache.get().unwrap().get_lookup_suggestions(0, 0).unwrap().len(), 2);
}

#[test]
fn compact_cells_hold_ten_ids() {
    assert_eq!(pad_timezone_ids(&vec![3, 4]), [3, 4, -1, -1, -1, -1, -1, -1, -1, -1]);
    assert_eq!(pad_timezone_ids(&Vec::new()), [-1; 10]);
    assert_eq!(pad_timezone_ids(&(0..12).collect()), [0, 1, 2, 3, 4, 5, 6, 7, 8, 9]);
}

#[test]
fn compact_cells_name_their_items() {
    assert_eq!(map_timezones(120, &[3, 4, -1, -1, -1, -1, -1, -1, -1, -1]), vec![3, 4]);
    assert_eq!(map_timezones(120, &[-1; 10]), Vec::<usize>::new());
    assert_eq!(map_timezones(4, &[3, 4, -1, 0, 119, -7, 2, -1, -1, 1]), vec![3, 0, 2, 1]);
    assert_eq!(map_timezones(0, &[0, 1, 2, 3, 4, 5, 6, 7, 8, 9]), Vec::<usize>::new());
}

#[test]
fn first_match_query_answers_with_the_first_match() {
    assert_eq!(first_hit(&vec![false, true, true]), Some(1));
    assert_eq!(first_hit(&vec![false, false]), None);
    assert_eq!(first_hit(&Vec::new()), None);
    assert_eq!(get_timezone(&vec![7], true, &vec![false]), Some(7));
    assert_eq!(get_timezone(&vec![7], false, &vec![false]), None);
    assert_eq!(get_timezone(&vec![7], false, &vec![true]), Some(7));
    assert_eq!(get_timezone(&vec![7, 9, 11], true, &vec![false, true, true]), Some(9));
    assert_eq!(get_timezone(&Vec::new(), true, &Vec::new()), None);
    assert_eq!(get_timezone_via_full_lookup(&vec![false, false, true]), Some(2));
    assert_eq!(get_timezone_via_full_lookup(&vec![false]), None);
}
