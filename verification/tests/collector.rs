use memmap::MmapMut;
use std::collections::HashMap;
use truckmap::collector::{DataCollector, Ingest, Observation, DOMAIN};
use truckmap::color::{encode_srgb, LINEAR_ONE};
use truckmap::error::Error;
use truckmap::image::Image;
use truckmap::layout::{raster_file, raw_tile_file};
use truckmap::spatial_map::{child_coordinates, RawColumn, RawFile, TOP_LEVEL};
use truckmap::tile::{Tile, TILE_BYTES};

fn blank() -> Tile {
    Tile::load(MmapMut::map_anon(TILE_BYTES).unwrap()).unwrap()
}

fn collector() -> DataCollector {
    let mut collector = DataCollector::new("http://feed".to_string(), "data".to_string());
    collector.add_map("ATS".to_string(), &vec![10, 11]);
    collector.add_map("ETS2".to_string(), &vec![1, 3, 4, 5, 7, 8, 13]);
    collector
}

/// Ingests a point as the application does: a missing tile is supplied and
/// the point handed in again.
fn observe(collector: &mut DataCollector, server: i64, x: i64, y: i64, created: &mut Vec<Vec<String>>) {
    if let Ingest::Missing { map, tx, ty } = collector.ingest(server, x, y) {
        created.push(raw_tile_file(tx, ty));
        collector.insert_tile(map, tx, ty, blank());
        assert!(matches!(collector.ingest(server, x, y), Ingest::Placed { .. }));
    }
}

fn coordinates(collector: &DataCollector, map: usize) -> Vec<(i64, i64)> {
    let map = collector.map(map);
    (0..map.len()).map(|i| map.coordinate(i)).collect()
}

#[test]
fn new_keeps_the_feed_and_the_directory() {
    let collector = DataCollector::new("https://example.org/feed".to_string(), "D:\\maps".to_string());
    assert_eq!(collector.url(), "https://example.org/feed");
    assert_eq!(collector.path(), "D:\\maps");
    assert_eq!(collector.map_count(), 0);
    assert_eq!(collector.route(1), None);
}

#[test]
fn add_map_registers_its_routing_keys() {
    let collector = collector();
    assert_eq!(collector.map_count(), 2);
    assert_eq!(collector.map(0).name(), "ATS");
    assert_eq!(collector.map(1).name(), "ETS2");
    assert_eq!(collector.route(10), Some(0));
    assert_eq!(collector.route(11), Some(0));
    assert_eq!(collector.route(5), Some(1));
    assert_eq!(collector.route(13), Some(1));
    assert_eq!(collector.route(2), None);
    assert_eq!(collector.route(0), None);
}

#[test]
fn add_map_takes_over_a_key_registered_before() {
    let mut collector = collector();
    collector.add_map("third".to_string(), &vec![5, 99, 5]);
    collector.add_map("fourth".to_string(), &Vec::new());
    assert_eq!(collector.map_count(), 4);
    assert_eq!(collector.route(5), Some(2));
    assert_eq!(collector.route(99), Some(2));
    assert_eq!(collector.route(4), Some(1));
    assert_eq!(collector.route(10), Some(0));
}

#[test]
fn ingest_drops_a_point_out_of_the_domain() {
    let mut collector = collector();
    collector.insert_tile(1, 1464, 0, blank());
    assert!(matches!(collector.ingest(5, 1_500_000, 0), Ingest::Dropped));
    assert!(matches!(collector.ingest(5, 0, 1_500_000), Ingest::Dropped));
    assert!(matches!(collector.ingest(5, -1_000_001, 0), Ingest::Dropped));
    assert!(matches!(collector.ingest(5, 0, 1_000_001), Ingest::Dropped));
    assert!(matches!(collector.ingest(5, i64::MIN, 0), Ingest::Dropped));
    assert!(matches!(collector.ingest(5, 0, i64::MAX), Ingest::Dropped));
    assert_eq!(coordinates(&collector, 0), Vec::new());
    assert_eq!(coordinates(&collector, 1), vec![(1464, 0)]);
    let files = collector.map(1).save_tiles();
    let image = Image::load(files[0].file.as_ref().unwrap()).unwrap();
    for i in 0..image.len() {
        assert_eq!(image.pixel(i), 0);
    }
}

#[test]
fn ingest_accepts_the_edge_of_the_domain() {
    let mut collector = collector();
    assert_eq!(DOMAIN, 1_000_000);
    assert!(matches!(
        collector.ingest(5, 1_000_000, -1_000_000),
        Ingest::Missing { map: 1, tx: 976, ty: -977 }
    ));
    collector.insert_tile(1, 976, -977, blank());
    assert!(matches!(collector.ingest(5, 1_000_000, -1_000_000), Ingest::Placed { map: 1 }));
}

#[test]
fn ingest_drops_an_unregistered_key() {
    let mut collector = collector();
    collector.insert_tile(0, 0, 0, blank());
    collector.insert_tile(1, 0, 0, blank());
    assert!(matches!(collector.ingest(2, 0, 0), Ingest::Dropped));
    assert!(matches!(collector.ingest(-5, 10, 10), Ingest::Dropped));
    for map in 0..2 {
        assert_eq!(coordinates(&collector, map), vec![(0, 0)]);
        let files = collector.map(map).save_tiles();
        let image = Image::load(files[0].file.as_ref().unwrap()).unwrap();
        for i in 0..image.len() {
            assert_eq!(image.pixel(i), 0);
        }
    }
}

#[test]
fn ingest_routes_to_the_map_of_the_key() {
    let mut collector = collector();
    let mut created = Vec::new();
    observe(&mut collector, 10, 5, 5, &mut created);
    observe(&mut collector, 5, 2000, -1, &mut created);
    assert_eq!(coordinates(&collector, 0), vec![(0, 0)]);
    assert_eq!(coordinates(&collector, 1), vec![(1, -1)]);
    assert_eq!(created, vec![vec!["raw", "0", "0.dat"], vec!["raw", "1", "-1.dat"]]);
}

#[test]
fn ingest_twice_is_ingest_once() {
    let mut once = collector();
    let mut twice = collector();
    let mut created = Vec::new();
    observe(&mut once, 5, 300, 700, &mut created);
    observe(&mut twice, 5, 300, 700, &mut created);
    assert!(matches!(twice.ingest(5, 300, 700), Ingest::Placed { map: 1 }));
    let a = once.map(1).save_tiles();
    let b = twice.map(1).save_tiles();
    assert_eq!(a.len(), 1);
    assert_eq!(b.len(), 1);
    assert_eq!(a[0].file.as_ref().unwrap(), b[0].file.as_ref().unwrap());
    let image = Image::load(b[0].file.as_ref().unwrap()).unwrap();
    for i in 0..image.len() {
        assert_eq!(image.pixel(i), if i == 700 * 1024 + 300 { LINEAR_ONE } else { 0 });
    }
}

#[test]
fn four_points_touch_two_tiles() {
    let mut collector = DataCollector::new(String::new(), String::new());
    collector.add_map("map".to_string(), &vec![5]);
    let mut created = Vec::new();
    for &(x, y) in &[(0i64, 0i64), (1, 1), (1023, 1023), (1024, 0)] {
        observe(&mut collector, 5, x, y, &mut created);
    }
    assert_eq!(coordinates(&collector, 0), vec![(0, 0), (1, 0)]);
    assert_eq!(created, vec![vec!["raw", "0", "0.dat"], vec!["raw", "1", "0.dat"]]);
}

#[test]
fn saving_renders_every_level_of_the_pyramid() {
    let mut collector = DataCollector::new(String::new(), String::new());
    collector.add_map("map".to_string(), &vec![5]);
    let mut created = Vec::new();
    for &(x, y) in &[(0i64, 0i64), (1, 1), (1023, 1023), (1024, 0)] {
        observe(&mut collector, 5, x, y, &mut created);
    }
    // The disk: the rasters by their paths below the map's directory.
    let mut disk: HashMap<Vec<String>, Vec<u8>> = HashMap::new();
    let map = collector.map(0);
    for rendered in map.save_tiles() {
        disk.insert(raster_file(0, rendered.tx, rendered.ty), rendered.file.unwrap());
    }
    for level in 1..=TOP_LEVEL {
        for (x, y) in map.save_level(level) {
            let kids = child_coordinates(x, y);
            let read = |k: usize| disk.get(&raster_file(level - 1, kids[k].0, kids[k].1)).cloned();
            let image = Image::load_and_scale(&read(0), &read(1), &read(2), &read(3)).unwrap();
            disk.insert(raster_file(level, x, y), image.save().unwrap());
        }
    }
    let mut paths: Vec<Vec<String>> = disk.keys().cloned().collect();
    paths.sort();
    let mut expected: Vec<Vec<String>> = vec![raster_file(0, 0, 0), raster_file(0, 1, 0)];
    for level in 1..=7u8 {
        expected.push(raster_file(level, 0, 0));
    }
    expected.sort();
    assert_eq!(paths, expected);

    let one = Image::load(&disk[&raster_file(1, 0, 0)]).unwrap();
    let half = encode_srgb(LINEAR_ONE / 2);
    let quarter = encode_srgb(LINEAR_ONE / 4);
    assert_eq!((half, quarter), (188, 137));
    let lit = [(0usize, half), (511 * 1024 + 511, quarter), (512, quarter)];
    for i in 0..one.len() {
        let code = lit.iter().find(|&&(p, _)| p == i).map(|&(_, c)| c).unwrap_or(0);
        assert_eq!(encode_srgb(one.pixel(i)), code, "pixel {}", i);
    }
    let top = Image::load(&disk[&raster_file(7, 0, 0)]).unwrap();
    for i in 0..top.len() {
        if i >= 16 {
            assert_eq!(top.pixel(i), 0, "pixel {}", i);
        }
    }
}

#[test]
fn load_fills_each_map_from_its_listing() {
    let mut collector = collector();
    let listing = |column: &str, file: &str| {
        vec![RawColumn {
            name: column.to_string(),
            files: vec![RawFile { name: file.to_string(), tile: blank() }],
        }]
    };
    assert!(collector.load(vec![listing("3", "4.dat"), listing("-5", "6.dat")]).is_ok());
    assert_eq!(coordinates(&collector, 0), vec![(3, 4)]);
    assert_eq!(coordinates(&collector, 1), vec![(-5, 6)]);
    assert!(matches!(collector.ingest(10, 3 * 1024, 4 * 1024), Ingest::Placed { map: 0 }));
    assert!(matches!(collector.ingest(1, 3 * 1024, 4 * 1024), Ingest::Missing { map: 1, tx: 3, ty: 4 }));
}

#[test]
fn load_fails_on_a_name_that_writes_no_coordinate() {
    let mut collector = collector();
    let good = vec![RawColumn {
        name: "3".to_string(),
        files: vec![RawFile { name: "4.dat".to_string(), tile: blank() }],
    }];
    let bad = vec![RawColumn {
        name: "3".to_string(),
        files: vec![RawFile { name: "four.dat".to_string(), tile: blank() }],
    }];
    assert!(matches!(collector.load(vec![good, bad]), Err(Error::Coordinate)));
    assert_eq!(collector.route(10), Some(0));
    assert_eq!(collector.map_count(), 2);
}

fn at(server: i64, x: i64, y: i64) -> Observation {
    Observation { server, x, y }
}

#[test]
fn update_ingests_a_feed_and_hands_back_what_lacks_a_tile() {
    let mut collector = collector();
    collector.insert_tile(1, 0, 0, blank());
    let feed = vec![
        at(5, 1, 2),
        at(5, 1024, 0),
        at(2, 3, 3),
        at(5, 1_500_000, 0),
        at(10, 1, 2),
        at(5, 1025, 1),
        at(4, 7, 0),
    ];
    let missing = collector.update(&feed);
    assert_eq!(missing, vec![at(5, 1024, 0), at(10, 1, 2), at(5, 1025, 1)]);
    assert_eq!(coordinates(&collector, 0), Vec::new());
    assert_eq!(coordinates(&collector, 1), vec![(0, 0)]);
    let files = collector.map(1).save_tiles();
    let image = Image::load(files[0].file.as_ref().unwrap()).unwrap();
    for i in 0..image.len() {
        assert_eq!(image.pixel(i), if i == 2 * 1024 + 1 || i == 7 { LINEAR_ONE } else { 0 });
    }
}

#[test]
fn update_of_an_empty_feed_changes_nothing() {
    let mut collector = collector();
    assert!(collector.update(&Vec::new()).is_empty());
    assert_eq!(collector.map_count(), 2);
    assert_eq!(coordinates(&collector, 0), Vec::new());
}

#[test]
fn load_keeps_what_was_read_before_the_failure() {
    let mut collector = collector();
    collector.add_map("third".to_string(), &vec![20]);
    let listing = |names: &[(&str, &str)]| -> Vec<RawColumn> {
        names
            .iter()
            .map(|&(column, file)| RawColumn {
                name: column.to_string(),
                files: vec![RawFile { name: file.to_string(), tile: blank() }],
            })
            .collect()
    };
    let found = vec![
        listing(&[("1", "1.dat"), ("2", "2.dat")]),
        listing(&[("3", "3.dat"), ("4", "x.dat"), ("5", "5.dat")]),
        listing(&[("6", "6.dat")]),
    ];
    assert!(matches!(collector.load(found), Err(Error::Coordinate)));
    assert_eq!(coordinates(&collector, 0), vec![(1, 1), (2, 2)]);
    assert_eq!(coordinates(&collector, 1), vec![(3, 3)]);
    assert_eq!(coordinates(&collector, 2), Vec::new());
}

#[test]
fn load_leaves_a_map_without_a_listing_alone() {
    let mut collector = collector();
    collector.insert_tile(1, 9, 9, blank());
    let found = vec![vec![RawColumn {
        name: "1".to_string(),
        files: vec![RawFile { name: "2.dat".to_string(), tile: blank() }],
    }]];
    assert!(collector.load(found).is_ok());
    assert_eq!(coordinates(&collector, 0), vec![(1, 2)]);
    assert_eq!(coordinates(&collector, 1), vec![(9, 9)]);
    assert!(collector.load(Vec::new()).is_ok());
    assert_eq!(coordinates(&collector, 0), vec![(1, 2)]);
}

#[test]
fn load_leaves_a_listing_without_a_map_aside() {
    let mut collector = DataCollector::new(String::new(), String::new());
    collector.add_map("only".to_string(), &vec![1]);
    let good = vec![RawColumn {
        name: "1".to_string(),
        files: vec![RawFile { name: "2.dat".to_string(), tile: blank() }],
    }];
    let bad = vec![RawColumn { name: "nowhere".to_string(), files: Vec::new() }];
    assert!(collector.load(vec![good, bad]).is_ok());
    assert_eq!(coordinates(&collector, 0), vec![(1, 2)]);
    assert_eq!(collector.map_count(), 1);
}

#[test]
fn save_renders_the_tiles_of_every_map() {
    let mut collector = collector();
    let mut created = Vec::new();
    observe(&mut collector, 5, 3, 0, &mut created);
    observe(&mut collector, 5, -1, -1, &mut created);
    observe(&mut collector, 11, 0, 2, &mut created);
    let files = collector.save();
    assert_eq!(files.len(), 2);
    assert_eq!(files[0].len(), 1);
    assert_eq!(files[1].len(), 2);
    assert_eq!((files[0][0].tx, files[0][0].ty), (0, 0));
    assert_eq!((files[1][0].tx, files[1][0].ty), (0, 0));
    assert_eq!((files[1][1].tx, files[1][1].ty), (-1, -1));
    let lit = [(0usize, 0usize, 2 * 1024), (1, 0, 3), (1, 1, 1023 * 1024 + 1023)];
    for &(map, tile, cell) in &lit {
        let image = Image::load(files[map][tile].file.as_ref().unwrap()).unwrap();
        for i in 0..image.len() {
            assert_eq!(image.pixel(i), if i == cell { LINEAR_ONE } else { 0 });
        }
    }
    assert!(DataCollector::new(String::new(), String::new()).save().is_empty());
}
