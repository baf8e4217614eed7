use geo::{Contains, Intersects};
use rtz::admin::OsmAdmin;
use rtz::compact::{get_timezone, get_timezone_via_full_lookup, map_timezones, pad_timezone_ids, TimezoneIds};
use rtz::degrees::{floor_degree, is_interior};
use rtz::feature::{get_items_from_features, Feature, FromFeature};
use rtz::geometry::{Coord, Geometry, Polygon};
use rtz::grid::{cell_slot, get_lookup_from_geometries, GRID_CELLS};
use rtz::ids::Id;
use rtz::item::{HasGeometry, IsAdmin, IsTimezone};
use rtz::ned::NedTimezone;
use rtz::osm::OsmTimezone;
use rtz::properties::{Properties, PropertyValue};
use rtz::query::{confirm, GeoIndex, HasItemData, HasLookupData, Lookup};

fn rect(x0: f32, y0: f32, x1: f32, y1: f32) -> Geometry {
    let at = |x: f32, y: f32| Coord { x: x.to_bits(), y: y.to_bits() };
    Geometry::Polygon(Polygon {
        exterior: vec![at(x0, y0), at(x1, y0), at(x1, y1), at(x0, y1), at(x0, y0)],
        interiors: Vec::new(),
    })
}

fn ring_to_geo(ring: &[Coord]) -> geo::LineString<f32> {
    geo::LineString(ring.iter().map(|c| geo::Coord { x: f32::from_bits(c.x), y: f32::from_bits(c.y) }).collect())
}

fn polygon_to_geo(polygon: &Polygon) -> geo::Polygon<f32> {
    geo::Polygon::new(ring_to_geo(&polygon.exterior), polygon.interiors.iter().map(|r| ring_to_geo(r)).collect())
}

fn to_geo(geometry: &Geometry) -> geo::Geometry<f32> {
    match geometry {
        Geometry::Polygon(p) => geo::Geometry::Polygon(polygon_to_geo(p)),
        Geometry::MultiPolygon(ps) => {
            geo::Geometry::MultiPolygon(geo::MultiPolygon::new(ps.iter().map(polygon_to_geo).collect()))
        }
    }
}

fn hits_of<T: HasGeometry>(items: &[T]) -> Vec<Vec<bool>> {
    let shapes: Vec<geo::Geometry<f32>> = items.iter().map(|i| to_geo(i.geometry())).collect();
    let mut hits = vec![vec![false; items.len()]; GRID_CELLS];
    for (id, shape) in shapes.iter().enumerate() {
        let bounds = geo::BoundingRect::bounding_rect(shape).unwrap();
        let x0 = (bounds.min().x.floor() as i32 - 1).max(-180);
        let x1 = (bounds.max().x.floor() as i32 + 1).min(179);
        let y0 = (bounds.min().y.floor() as i32 - 1).max(-90);
        let y1 = (bounds.max().y.floor() as i32 + 1).min(89);
        for x in x0..=x1 {
            for y in y0..=y1 {
                let cell = geo::Rect::new(
                    geo::Coord { x: x as f32, y: y as f32 },
                    geo::Coord { x: x as f32 + 1.0, y: y as f32 + 1.0 },
                );
                if shape.intersects(&cell) {
                    hits[cell_slot(x as i16, y as i16).unwrap()][id] = true;
                }
            }
        }
    }
    hits
}

fn index_of<T: FromFeature + HasGeometry>(features: Vec<Feature>, fast_path: bool) -> GeoIndex<T> {
    let items = get_items_from_features::<T>(features).unwrap();
    let hits = hits_of(&items.0);
    let lookup = get_lookup_from_geometries(items.len(), &hits);
    GeoIndex::new(items, lookup, fast_path).unwrap()
}

fn holds<T: HasGeometry>(item: &T, lng: f32, lat: f32) -> bool {
    to_geo(item.geometry()).contains(&geo::Coord { x: lng, y: lat })
}

fn lookup_ids<T: HasGeometry>(index: &GeoIndex<T>, lng: f32, lat: f32) -> Vec<Id> {
    match index.lookup(lng.to_bits(), lat.to_bits()) {
        Lookup::Resolved(ids) => ids,
        Lookup::Candidates(candidates) => {
            let items = index.get_mem_items();
            let flags: Vec<bool> = candidates.iter().map(|id| holds(&items.0[*id as usize], lng, lat)).collect();
            confirm(&candidates, &flags)
        }
    }
}

fn lookup_slow_ids<T: HasGeometry>(index: &GeoIndex<T>, lng: f32, lat: f32) -> Vec<Id> {
    let flags: Vec<bool> = index.get_mem_items().0.iter().map(|item| holds(item, lng, lat)).collect();
    index.lookup_slow(&flags)
}

fn text(s: &str) -> PropertyValue {
    PropertyValue::Text(s.to_string())
}

fn ned_feature(name: Option<&str>, zone: f32, geometry: Geometry) -> Feature {
    let mut properties = Properties::new();
    properties.insert("places", text("somewhere"));
    properties.insert("dst_places", PropertyValue::Null);
    properties.insert("time_zone", text("UTC-08:00"));
    properties.insert("tz_name1st", match name {
        Some(n) => text(n),
        None => PropertyValue::Null,
    });
    properties.insert("zone", PropertyValue::Number { unsigned: None, single: zone.to_bits() });
    Feature { properties, offset_seconds: (zone * 3600.0).round() as i32, geometry }
}

fn osm_feature(tzid: &str, geometry: Geometry) -> Feature {
    let mut properties = Properties::new();
    properties.insert("tzid", text(tzid));
    Feature { properties, offset_seconds: 0, geometry }
}

fn admin_feature(name: &str, level: u64, geometry: Geometry) -> Feature {
    let mut properties = Properties::new();
    properties.insert("name", text(name));
    properties.insert("admin_level", PropertyValue::Number { unsigned: Some(level), single: (level as f32).to_bits() });
    Feature { properties, offset_seconds: 0, geometry }
}

const LAT_EDGES: [f32; 6] = [-90.0, -54.5, -18.5, 17.5, 53.5, 90.0];

fn ned_lng_edges() -> Vec<f32> {
    let mut edges = vec![-180.0f32, -177.0];
    for k in 1..=21 {
        edges.push(-177.0 + 16.25 * k as f32);
    }
    edges.push(179.5);
    edges
}

fn ned_features() -> Vec<Feature> {
    let mut features = Vec::new();
    let edges = ned_lng_edges();
    for band in 0..edges.len() - 1 {
        for row in 0..5 {
            let name = if band == 4 && row == 3 { Some("America/Los_Angeles") } else { None };
            let zone = band as f32 - 12.0;
            features.push(ned_feature(name, zone, rect(edges[band], LAT_EDGES[row], edges[band + 1], LAT_EDGES[row + 1])));
        }
    }
    for k in 0..4 {
        let x = -67.9 + 0.2 * k as f32;
        features.push(ned_feature(None, -4.0, rect(x, -66.9, x + 0.1, -66.8)));
    }
    features.push(ned_feature(None, 1.0, rect(10.2, 10.2, 10.4, 10.4)));
    features
}

fn ned_index() -> GeoIndex<NedTimezone> {
    index_of(ned_features(), NedTimezone::FAST_PATH)
}

fn osm_lng_edges() -> Vec<f32> {
    let mut edges = vec![-180.0f32];
    for k in 1..=23 {
        edges.push(-180.0 + 15.0 * k as f32 + 0.5);
    }
    edges.push(180.0);
    edges
}

fn osm_features() -> Vec<Feature> {
    let mut features = Vec::new();
    let edges = osm_lng_edges();
    for band in 0..edges.len() - 1 {
        for row in 0..5 {
            let name = if band == 3 && row == 3 { "America/Los_Angeles".to_string() } else { format!("Zone/{}_{}", band, row) };
            features.push(osm_feature(&name, rect(edges[band], LAT_EDGES[row], edges[band + 1], LAT_EDGES[row + 1])));
        }
    }
    for k in 0..6 {
        let reach = 0.1 + 0.01 * k as f32;
        features.push(osm_feature(&format!("Border/{}", k), rect(-87.0 - reach, 38.0 - reach, -87.0 + reach, 38.0 + reach)));
    }
    for k in 0..318 {
        let x = -150.0 + k as f32 + 0.25;
        features.push(osm_feature(&format!("Islet/{}", k), rect(x, -79.75, x + 0.5, -79.25)));
    }
    features
}

fn osm_index() -> GeoIndex<OsmTimezone> {
    index_of(osm_features(), OsmTimezone::FAST_PATH)
}

fn admin_features() -> Vec<Feature> {
    let mut features = vec![admin_feature("United States", 2, rect(-125.0, 24.0, -66.0, 49.0))];
    for k in 0..26 {
        let x = -120.98 + 0.03 * k as f32;
        features.push(admin_feature(&format!("County {}", k), 6, rect(x, 46.2, x + 0.02, 46.4)));
    }
    for k in 0..57 {
        let x = -86.99 + 0.015 * k as f32;
        features.push(admin_feature(&format!("Township {}", k), 8, rect(x, 38.2, x + 0.01, 38.4)));
    }
    features.push(admin_feature("مصر", 2, rect(24.7, 22.0, 36.9, 31.7)));
    features.push(admin_feature("مطروح", 4, rect(24.7, 28.2, 30.5, 31.7)));
    features.push(admin_feature("Washington", 4, rect(-124.8, 45.5, -116.9, 49.0)));
    features
}

fn admin_index() -> GeoIndex<OsmAdmin> {
    index_of(admin_features(), OsmAdmin::FAST_PATH)
}

fn sample_points(count: usize, seed: u32) -> Vec<(f32, f32)> {
    let mut state = seed;
    let mut next = move || {
        state = state.wrapping_mul(1_664_525).wrapping_add(1_013_904_223);
        (state >> 8) as f32 / (1u32 << 24) as f32
    };
    (0..count).map(|_| (next() * 360.0 - 180.0, next() * 180.0 - 90.0)).collect()
}

#[test]
fn ned_can_get_timezones() {
    let index = ned_index();
    assert_eq!(index.get_mem_items().len(), 120);
}

#[test]
fn ned_can_get_lookup() {
    let index = ned_index();
    assert_eq!(index.get_mem_lookup().len(), 64_800);
}

#[test]
fn ned_can_get_from_lookup() {
    let index = ned_index();
    let cache = index.get_lookup_suggestions(-121, 46);
    assert_eq!(cache.unwrap().len(), 1);
}

#[test]
fn ned_can_perform_exact_lookup() {
    let index = ned_index();
    let items = index.get_mem_items();
    assert_eq!(lookup_slow_ids(&index, -177.0, -15.0).len(), 0);
    let found = lookup_slow_ids(&index, -121.0, 46.0);
    assert_eq!(items.0[found[0] as usize].identifier.as_ref().unwrap(), "America/Los_Angeles");
    assert_eq!(lookup_slow_ids(&index, 179.9968, -67.0959).len(), 0);
}

#[test]
fn ned_can_access_lookup() {
    let index = ned_index();
    let cache = index.get_mem_lookup();

    let tzs = index.map_into_items(cache.get(-177, -15).unwrap().as_ref());
    assert_eq!(tzs.len(), 2);

    let tzs = index.map_into_items(cache.get(-121, 46).unwrap().as_ref());
    assert_eq!(tzs.len(), 1);

    let tz = index.map_into_items(cache.get(-121, 46).unwrap().as_ref())[0];
    assert_eq!(tz.identifier.as_ref().unwrap(), "America/Los_Angeles");

    let tzs = index.map_into_items(cache.get(-68, -67).unwrap().as_ref());
    assert_eq!(tzs.len(), 5);
}

#[test]
fn ned_can_verify_lookup_assisted_accuracy() {
    let index = ned_index();
    for (x, y) in sample_points(1_000, 1) {
        let full = lookup_slow_ids(&index, x, y);
        let lookup_assisted = lookup_ids(&index, x, y);
        assert_eq!(full, lookup_assisted, "({}, {})", x, y);
    }
}

#[test]
fn ned_lookup_finds_los_angeles() {
    let index = ned_index();
    let found = lookup_ids(&index, -121.0, 46.0);
    assert_eq!(found.len(), 1);
    let item = &index.get_mem_items().0[found[0] as usize];
    assert_eq!(item.identifier(), "America/Los_Angeles");
    assert_eq!(item.id(), found[0] as usize);
    assert_eq!(item.raw_offset, -28800);
}

#[test]
fn ned_lookup_takes_the_fast_path_only_inside_the_interior() {
    let index = ned_index();
    assert!(matches!(index.lookup((-121.0f32).to_bits(), (46.0f32).to_bits()), Lookup::Resolved(ids) if ids.len() == 1));
    assert!(matches!(index.lookup((179.9968f32).to_bits(), (-67.0959f32).to_bits()), Lookup::Candidates(ids) if ids.len() == 1));
    assert!(matches!(index.lookup((-177.0f32).to_bits(), (-15.0f32).to_bits()), Lookup::Candidates(ids) if ids.len() == 2));
    assert_eq!(lookup_ids(&index, 179.9968, -67.0959).len(), 0);
    assert_eq!(lookup_ids(&index, -177.0, -15.0).len(), 0);
}

#[test]
fn lookup_outside_the_grid_is_empty() {
    let index = ned_index();
    for (lng, lat) in [(180.0f32, 0.0f32), (-180.5, 0.0), (0.0, 90.0), (0.0, -90.5), (1.0e9, 0.0), (f32::INFINITY, 0.0)] {
        assert!(matches!(index.lookup(lng.to_bits(), lat.to_bits()), Lookup::Resolved(ids) if ids.is_empty()));
    }
    assert!(index.get_lookup_suggestions(180, 0).is_none());
    assert!(index.get_lookup_suggestions(0, -91).is_none());
}

#[test]
fn repeated_queries_give_the_same_answer() {
    let index = ned_index();
    for (x, y) in sample_points(50, 7) {
        assert_eq!(lookup_ids(&index, x, y), lookup_ids(&index, x, y));
        assert_eq!(lookup_slow_ids(&index, x, y), lookup_slow_ids(&index, x, y));
    }
}

#[test]
fn osm_can_get_timezones() {
    let index = osm_index();
    assert_eq!(index.get_mem_items().len(), 444);
}

#[test]
fn osm_can_get_lookup() {
    let index = osm_index();
    assert_eq!(index.get_mem_lookup().len(), 64_800);
}

#[test]
fn osm_can_get_from_lookup() {
    let index = osm_index();
    let cache = index.get_lookup_suggestions(-121, 46).unwrap();
    assert_eq!(cache.len(), 1);
}

#[test]
fn osm_can_perform_exact_lookup() {
    let index = osm_index();
    let items = index.get_mem_items();
    assert_eq!(lookup_slow_ids(&index, -177.0, -15.0).len(), 1);
    let found = lookup_slow_ids(&index, -121.0, 46.0);
    assert_eq!(items.0[found[0] as usize].identifier.as_ref(), "America/Los_Angeles");
    assert_eq!(lookup_slow_ids(&index, 179.9968, -67.0959).len(), 1);
}

#[test]
fn osm_can_access_lookup() {
    let index = osm_index();
    let cache = index.get_mem_lookup();

    let tzs = index.map_into_items(cache.get(-177, -15).unwrap().as_ref());
    assert_eq!(tzs.len(), 1);

    let tzs = index.map_into_items(cache.get(-121, 46).unwrap().as_ref());
    assert_eq!(tzs.len(), 1);

    let tz = index.map_into_items(cache.get(-121, 46).unwrap().as_ref())[0];
    assert_eq!(tz.identifier.as_ref(), "America/Los_Angeles");

    let tzs = index.map_into_items(cache.get(-87, 38).unwrap().as_ref());
    assert_eq!(tzs.len(), 7);
}

#[test]
fn osm_can_verify_lookup_assisted_accuracy() {
    let index = osm_index();
    let x = sample_points(1, 3)[0].0;
    for (_, y) in sample_points(100, 5) {
        let full = lookup_slow_ids(&index, x, y);
        let lookup_assisted = lookup_ids(&index, x, y);
        assert_eq!(full, lookup_assisted, "({}, {})", x, y);
    }
}

#[test]
fn osm_ocean_zone_is_the_one_match() {
    let index = osm_index();
    let found = lookup_ids(&index, 179.9968, -67.0959);
    assert_eq!(found.len(), 1);
}

#[test]
fn osm_border_region_has_seven_matches() {
    let index = osm_index();
    match index.lookup((-87.0f32).to_bits(), (38.0f32).to_bits()) {
        Lookup::Candidates(ids) => assert_eq!(ids.len(), 7),
        Lookup::Resolved(_) => panic!("seven candidates need the exact test"),
    }
    assert_eq!(lookup_ids(&index, -87.0, 38.0).len(), 7);
    assert_eq!(lookup_slow_ids(&index, -87.0, 38.0), lookup_ids(&index, -87.0, 38.0));
}

#[test]
fn admin_lookup_lists_the_levels_in_order() {
    let index = admin_index();
    let items = index.get_mem_items();
    assert_eq!(index.get_lookup_suggestions(-177, -15).unwrap().len(), 0);
    assert_eq!(index.get_lookup_suggestions(-121, 46).unwrap().len(), 28);
    assert_eq!(index.get_lookup_suggestions(-121, 46).unwrap()[0].name(), "United States");
    assert_eq!(index.get_lookup_suggestions(-87, 38).unwrap().len(), 58);

    assert_eq!(lookup_slow_ids(&index, -177.0, -15.0).len(), 0);
    assert_eq!(lookup_slow_ids(&index, 179.9968, -67.0959).len(), 0);
    let found = lookup_slow_ids(&index, -121.0, 46.0);
    assert_eq!(items.0[found[0] as usize].name.as_ref(), "United States");
    assert_eq!(items.0[found[0] as usize].level, 2);
    assert_eq!(found.len(), 2);
    assert_eq!(items.0[found[1] as usize].name(), "Washington");
    assert_eq!(lookup_ids(&index, -121.0, 46.0), found);
}

#[test]
fn admin_lookup_finds_egypt_and_its_governorate() {
    let index = admin_index();
    let items = index.get_mem_items();
    let found = lookup_ids(&index, 30.0, 30.0);
    let named: Vec<(&str, usize)> = found.iter().map(|id| (items.0[*id as usize].name(), items.0[*id as usize].level)).collect();
    assert_eq!(named, vec![("مصر", 2), ("مطروح", 4)]);
}

#[test]
fn admin_never_takes_the_fast_path() {
    let index = admin_index();
    assert!(matches!(index.lookup((-100.5f32).to_bits(), (30.5f32).to_bits()), Lookup::Candidates(ids) if ids.len() == 1));
    assert!(matches!(index.lookup((0.5f32).to_bits(), (0.5f32).to_bits()), Lookup::Resolved(ids) if ids.is_empty()));
}

#[test]
fn admin_can_verify_lookup_assisted_accuracy() {
    let index = admin_index();
    for (x, y) in sample_points(100, 11) {
        assert_eq!(lookup_slow_ids(&index, x, y), lookup_ids(&index, x, y), "({}, {})", x, y);
    }
    for k in 0..200 {
        let x = -125.5 + 0.3 * k as f32;
        for y in [23.9f32, 30.0, 38.3, 46.3, 49.1] {
            assert_eq!(lookup_slow_ids(&index, x, y), lookup_ids(&index, x, y), "({}, {})", x, y);
        }
    }
}

fn compact_cell(index: &GeoIndex<NedTimezone>, x: i16, y: i16) -> Option<TimezoneIds> {
    index.get_mem_lookup().get(x, y).map(|ids| pad_timezone_ids(&ids.0.iter().map(|id| *id as i16).collect()))
}

fn get_from_cache(index: &GeoIndex<NedTimezone>, x: i16, y: i16) -> Option<Vec<&NedTimezone>> {
    let items = index.get_mem_items();
    compact_cell(index, x, y).map(|cell| map_timezones(items.len(), &cell).into_iter().map(|place| &items.0[place]).collect())
}

fn first_match<'a>(index: &'a GeoIndex<NedTimezone>, xf: f32, yf: f32) -> Option<&'a NedTimezone> {
    let items = index.get_mem_items();
    let cell = compact_cell(index, floor_degree(xf.to_bits()), floor_degree(yf.to_bits()))?;
    let candidates = map_timezones(items.len(), &cell);
    let contained: Vec<bool> = candidates.iter().map(|place| holds(&items.0[*place], xf, yf)).collect();
    get_timezone(&candidates, is_interior(xf.to_bits(), yf.to_bits()), &contained).map(|place| &items.0[place])
}

fn first_match_slow<'a>(index: &'a GeoIndex<NedTimezone>, xf: f32, yf: f32) -> Option<&'a NedTimezone> {
    let items = index.get_mem_items();
    let contained: Vec<bool> = items.0.iter().map(|item| holds(item, xf, yf)).collect();
    get_timezone_via_full_lookup(&contained).map(|place| &items.0[place])
}

#[test]
fn geo_can_get_timezones() {
    let index = ned_index();
    assert_eq!(index.get_mem_items().len(), 120);
}

#[test]
fn can_get_cache() {
    let index = ned_index();
    let mut cells = 0;
    for x in -180..180i16 {
        for y in -90..90i16 {
            assert!(compact_cell(&index, x, y).is_some());
            cells += 1;
        }
    }
    assert_eq!(cells, 64_800);
    assert_eq!(index.get_mem_lookup().len(), 64_800);
}

#[test]
fn can_get_from_cache() {
    let index = ned_index();
    let cache = get_from_cache(&index, -121, 46);
    assert_eq!(cache.unwrap().len(), 1);
}

#[test]
fn geo_can_perform_exact_lookup() {
    let index = ned_index();
    assert!(first_match_slow(&index, -177.0, -15.0).is_none());
    assert_eq!(first_match_slow(&index, -121.0, 46.0).unwrap().identifier.as_ref().unwrap(), "America/Los_Angeles");
    assert!(first_match_slow(&index, 179.9968, -67.0959).is_none());
}

#[test]
fn can_access_100km_cache() {
    let index = ned_index();
    assert_eq!(get_from_cache(&index, -177, -15).unwrap().len(), 2);
    assert_eq!(get_from_cache(&index, -121, 46).unwrap().len(), 1);
    assert_eq!(get_from_cache(&index, -121, 46).unwrap()[0].identifier.as_ref().unwrap(), "America/Los_Angeles");
    assert_eq!(get_from_cache(&index, -68, -67).unwrap().len(), 5);
}

#[test]
fn can_verify_cache_assisted_accuracy() {
    let index = ned_index();
    for (x, y) in sample_points(1_000, 13) {
        let full = first_match_slow(&index, x, y);
        let cache_assisted = first_match(&index, x, y);
        assert_eq!(full.map(|t| t.id), cache_assisted.map(|t| t.id), "({}, {})", x, y);
    }
}

#[test]
fn answers_keep_the_order_of_the_cell() {
    let index = admin_index();
    for (x, y) in [(-121.0f32, 46.3f32), (-120.97, 46.3), (-86.985, 38.3), (-86.5, 38.3), (30.0, 30.0)] {
        let cell: Vec<Id> = index
            .get_mem_lookup()
            .get(floor_degree(x.to_bits()), floor_degree(y.to_bits()))
            .map(|ids| ids.0.clone())
            .unwrap_or_default();
        let found = lookup_ids(&index, x, y);
        assert!(!found.is_empty(), "({}, {})", x, y);
        let mut at = 0;
        for id in &found {
            while cell[at] != *id {
                at += 1;
            }
            at += 1;
        }
        assert!(found.windows(2).all(|w| w[0] < w[1]));
        assert!(cell.windows(2).all(|w| w[0] < w[1]));
    }
}

#[test]
fn fast_path_answers_untested_inside_the_interior() {
    let features = vec![osm_feature("Islet/0", rect(10.2, 10.2, 10.4, 10.4))];
    let index: GeoIndex<OsmTimezone> = index_of(features, true);
    assert_eq!(lookup_slow_ids(&index, 10.8, 10.8), Vec::<Id>::new());
    assert_eq!(lookup_ids(&index, 10.8, 10.8), vec![0]);
    assert_eq!(lookup_ids(&index, 10.3, 10.3), vec![0]);
    assert_eq!(lookup_slow_ids(&index, 10.3, 10.3), vec![0]);
    let features = vec![osm_feature("Islet/0", rect(10.2, 10.2, 10.4, 10.4))];
    let exact: GeoIndex<OsmTimezone> = index_of(features, false);
    assert_eq!(lookup_ids(&exact, 10.8, 10.8), Vec::<Id>::new());
    let features = vec![osm_feature("Islet/0", rect(179.2, 10.2, 179.4, 10.4))];
    let border: GeoIndex<OsmTimezone> = index_of(features, true);
    assert_eq!(lookup_ids(&border, 179.8, 10.8), Vec::<Id>::new());
    assert_eq!(lookup_ids(&border, 179.3, 10.3), vec![0]);
}
