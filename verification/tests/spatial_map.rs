use memmap::MmapMut;
use truckmap::color::LINEAR_ONE;
use truckmap::error::Error;
use truckmap::image::Image;
use truckmap::spatial_map::{
    child_coordinates, tile_coordinate, tile_offset, Placement, RawColumn, RawFile, SaveStep,
    SpatialMap, TOP_LEVEL,
};
use truckmap::tile::{Tile, TILE_BYTES};

fn blank() -> Tile {
    Tile::load(MmapMut::map_anon(TILE_BYTES).unwrap()).unwrap()
}

fn marked(x: u32, y: u32) -> Tile {
    let mut tile = blank();
    tile.set(x, y);
    tile
}

fn raw(name: &str, tile: Tile) -> RawFile {
    RawFile { name: name.to_string(), tile }
}

fn column(name: &str, files: Vec<RawFile>) -> RawColumn {
    RawColumn { name: name.to_string(), files }
}

fn coordinates(map: &SpatialMap) -> Vec<(i64, i64)> {
    (0..map.len()).map(|i| map.coordinate(i)).collect()
}

#[test]
fn tile_coordinate_rounds_down() {
    assert_eq!(tile_coordinate(0), 0);
    assert_eq!(tile_coordinate(1023), 0);
    assert_eq!(tile_coordinate(1024), 1);
    assert_eq!(tile_coordinate(-1), -1);
    assert_eq!(tile_coordinate(-1024), -1);
    assert_eq!(tile_coordinate(-1025), -2);
    assert_eq!(tile_coordinate(1_000_000), 976);
    assert_eq!(tile_coordinate(-1_000_000), -977);
    assert_eq!(tile_coordinate(i64::MAX), (1 << 53) - 1);
    assert_eq!(tile_coordinate(i64::MIN), -(1 << 53));
}

#[test]
fn tile_offset_is_never_negative() {
    assert_eq!(tile_offset(0), 0);
    assert_eq!(tile_offset(1023), 1023);
    assert_eq!(tile_offset(1024), 0);
    assert_eq!(tile_offset(-1), 1023);
    assert_eq!(tile_offset(-1024), 0);
    assert_eq!(tile_offset(-1025), 1023);
    assert_eq!(tile_offset(1_000_000), 576);
    assert_eq!(tile_offset(-1_000_000), 448);
    for x in [-5000i64, -1, 0, 77, 123456] {
        assert_eq!(tile_coordinate(x) * 1024 + tile_offset(x) as i64, x);
    }
}

#[test]
fn a_new_map_has_its_name_and_no_tile() {
    let map = SpatialMap::new("ETS2".to_string());
    assert_eq!(map.name(), "ETS2");
    assert_eq!(map.len(), 0);
    assert!(!map.contains(0, 0));
    assert!(map.save_tiles().is_empty());
    assert!(map.save_level(1).is_empty());
}

#[test]
fn set_names_the_missing_tile_and_changes_nothing() {
    let mut map = SpatialMap::new("m".to_string());
    match map.set(-1, 2048) {
        Placement::Missing { tx, ty } => {
            assert_eq!((tx, ty), (-1, 2));
        },
        Placement::Placed => panic!("no tile was there"),
    }
    assert_eq!(map.len(), 0);
    assert!(!map.contains(-1, 2));
}

#[test]
fn set_marks_the_cell_in_the_right_tile() {
    let mut map = SpatialMap::new("m".to_string());
    map.insert(0, 0, blank());
    map.insert(-1, 2, blank());
    assert!(matches!(map.set(-1, 2048 + 5), Placement::Placed));
    assert!(matches!(map.set(3, 4), Placement::Placed));
    assert_eq!(coordinates(&map), vec![(0, 0), (-1, 2)]);
    let files = map.save_tiles();
    assert_eq!(files.len(), 2);
    assert_eq!((files[0].tx, files[0].ty), (0, 0));
    assert_eq!((files[1].tx, files[1].ty), (-1, 2));
    let first = Image::load(files[0].file.as_ref().unwrap()).unwrap();
    let second = Image::load(files[1].file.as_ref().unwrap()).unwrap();
    for i in 0..first.len() {
        assert_eq!(first.pixel(i), if i == 4 * 1024 + 3 { LINEAR_ONE } else { 0 });
        assert_eq!(second.pixel(i), if i == 5 * 1024 + 1023 { LINEAR_ONE } else { 0 });
    }
}

#[test]
fn insert_replaces_a_tile_in_place() {
    let mut map = SpatialMap::new("m".to_string());
    map.insert(5, 5, marked(1, 0));
    map.insert(6, 5, blank());
    map.insert(5, 5, marked(2, 0));
    assert_eq!(coordinates(&map), vec![(5, 5), (6, 5)]);
    assert!(map.contains(5, 5));
    assert!(map.contains(6, 5));
    assert!(!map.contains(5, 6));
    let files = map.save_tiles();
    let image = Image::load(files[0].file.as_ref().unwrap()).unwrap();
    assert_eq!(image.pixel(1), 0);
    assert_eq!(image.pixel(2), LINEAR_ONE);
}

#[test]
fn far_tiles_do_not_collide() {
    let mut map = SpatialMap::new("m".to_string());
    map.insert(i64::MIN, i64::MAX, blank());
    map.insert(i64::MAX, i64::MIN, blank());
    map.insert(0, -1, blank());
    map.insert(-1, 0, blank());
    assert_eq!(map.len(), 4);
    assert!(map.contains(i64::MIN, i64::MAX));
    assert!(map.contains(i64::MAX, i64::MIN));
    assert!(map.contains(0, -1));
    assert!(map.contains(-1, 0));
    assert!(!map.contains(0, 0));
    assert!(!map.contains(-1, -1));
    assert!(!map.contains(i64::MIN, i64::MIN));
}

#[test]
fn save_level_halves_and_keeps_each_coordinate_once() {
    let mut map = SpatialMap::new("m".to_string());
    for &(tx, ty) in &[(0i64, 0i64), (1, 0), (2, 3), (-1, -1), (3, 3), (-2, -1), (976, -977)] {
        map.insert(tx, ty, blank());
    }
    assert_eq!(map.save_level(1), vec![(0, 0), (1, 1), (-1, -1), (488, -489)]);
    assert_eq!(map.save_level(2), vec![(0, 0), (-1, -1), (244, -245)]);
    assert_eq!(map.save_level(7), vec![(0, 0), (-1, -1), (7, -8)]);
    assert_eq!(TOP_LEVEL, 7);
}

#[test]
fn child_coordinates_are_the_four_finer_tiles() {
    assert_eq!(child_coordinates(0, 0), [(0, 0), (1, 0), (0, 1), (1, 1)]);
    assert_eq!(child_coordinates(-1, 3), [(-2, 6), (-1, 6), (-2, 7), (-1, 7)]);
    let edge = (1i64 << 62) - 1;
    assert_eq!(child_coordinates(edge, -(1i64 << 62))[3], (i64::MAX, i64::MIN + 1));
}

#[test]
fn every_tile_is_a_child_of_its_parent() {
    let mut map = SpatialMap::new("m".to_string());
    let touched = [(0i64, 0i64), (5, -3), (-977, 976), (i64::MIN, i64::MAX)];
    for &(tx, ty) in &touched {
        map.insert(tx, ty, blank());
    }
    for level in 1..=TOP_LEVEL {
        let parents = map.save_level(level);
        for &(tx, ty) in &touched {
            let finer = (tx >> (level - 1), ty >> (level - 1));
            let found = parents.iter().any(|&(x, y)| child_coordinates(x, y).contains(&finer));
            assert!(found, "level {} tile {:?}", level, finer);
        }
    }
}

#[test]
fn load_puts_each_store_at_the_coordinate_of_its_names() {
    let mut map = SpatialMap::new("m".to_string());
    let found = vec![
        column("0", vec![raw("0.dat", marked(1, 1)), raw("-1.dat", blank())]),
        column("-977", vec![raw("976.dat", blank())]),
        column("12", Vec::new()),
    ];
    assert!(map.load(found).is_ok());
    assert_eq!(coordinates(&map), vec![(0, 0), (0, -1), (-977, 976)]);
    assert!(matches!(map.set(1, 1), Placement::Placed));
    assert!(matches!(map.set(-1_000_000, 1_000_000), Placement::Placed));
    assert!(matches!(map.set(1024, 0), Placement::Missing { tx: 1, ty: 0 }));
}

#[test]
fn load_lets_a_later_store_replace_an_earlier_one() {
    let mut map = SpatialMap::new("m".to_string());
    let found = vec![column("3", vec![raw("4.dat", marked(0, 0)), raw("+4.dat", marked(9, 0))])];
    assert!(map.load(found).is_ok());
    assert_eq!(coordinates(&map), vec![(3, 4)]);
    let files = map.save_tiles();
    let image = Image::load(files[0].file.as_ref().unwrap()).unwrap();
    assert_eq!(image.pixel(0), 0);
    assert_eq!(image.pixel(9), LINEAR_ONE);
}

#[test]
fn load_stops_at_a_directory_that_names_no_coordinate() {
    let mut map = SpatialMap::new("m".to_string());
    let found = vec![
        column("1", vec![raw("1.dat", blank())]),
        column("one", Vec::new()),
        column("2", vec![raw("2.dat", blank())]),
    ];
    assert!(matches!(map.load(found), Err(Error::Coordinate)));
    assert_eq!(coordinates(&map), vec![(1, 1)]);
}

#[test]
fn load_stops_at_a_file_that_names_no_coordinate() {
    let mut map = SpatialMap::new("m".to_string());
    let found = vec![column("1", vec![
        raw("1.dat", blank()),
        raw("temp.png", blank()),
        raw("2.dat", blank()),
    ])];
    assert!(matches!(map.load(found), Err(Error::Coordinate)));
    assert_eq!(coordinates(&map), vec![(1, 1)]);
}

#[test]
fn saving_takes_the_tiles_first_and_the_levels_in_order() {
    let mut step = SaveStep::first();
    assert!(matches!(step, SaveStep::Tiles));
    for level in 1..=7u8 {
        step = step.next();
        match step {
            SaveStep::Level(n) => assert_eq!(n, level),
            _ => panic!("level {} was left out", level),
        }
    }
    step = step.next();
    assert!(matches!(step, SaveStep::Done));
    assert!(matches!(step.next(), SaveStep::Done));
}

#[test]
fn no_level_follows_one_that_is_none() {
    assert!(matches!(SaveStep::Level(0).next(), SaveStep::Done));
    assert!(matches!(SaveStep::Level(8).next(), SaveStep::Done));
    assert!(matches!(SaveStep::Level(255).next(), SaveStep::Done));
    assert!(matches!(SaveStep::Level(6).next(), SaveStep::Level(7)));
}
