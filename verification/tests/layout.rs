use truckmap::error::Error;
use truckmap::layout::{
    decimal_name, file_stem, parse_coordinate, parse_file_name, raster_file, raw_tile_file,
};

#[test]
fn parse_coordinate_reads_decimal() {
    assert_eq!(parse_coordinate("0").unwrap(), 0);
    assert_eq!(parse_coordinate("7").unwrap(), 7);
    assert_eq!(parse_coordinate("-7").unwrap(), -7);
    assert_eq!(parse_coordinate("+7").unwrap(), 7);
    assert_eq!(parse_coordinate("-0").unwrap(), 0);
    assert_eq!(parse_coordinate("007").unwrap(), 7);
    assert_eq!(parse_coordinate("976").unwrap(), 976);
    assert_eq!(parse_coordinate("-977").unwrap(), -977);
    assert_eq!(parse_coordinate("9223372036854775807").unwrap(), i64::MAX);
    assert_eq!(parse_coordinate("-9223372036854775808").unwrap(), i64::MIN);
    assert_eq!(parse_coordinate("000000000000000000000000000012").unwrap(), 12);
}

#[test]
fn parse_coordinate_refuses_everything_else() {
    for name in [
        "", "-", "+", "--1", "+-1", "1-", "12a", "a12", " 1", "1 ", "1.0", "0x10", "1_000",
        "9223372036854775808", "-9223372036854775809", "99999999999999999999999999",
        "-99999999999999999999999999", "\u{ff11}", "\u{0661}", "temp",
    ] {
        assert!(matches!(parse_coordinate(name), Err(Error::Coordinate)), "{:?}", name);
    }
}

#[test]
fn parse_coordinate_agrees_with_the_standard_parser() {
    for name in [
        "", "-", "+", "0", "-0", "+0", "00", "5", "+5", "-5", "12a", " 1", "1e3",
        "9223372036854775807", "9223372036854775808", "-9223372036854775808",
        "-9223372036854775809", "18446744073709551616", "\u{0663}", "1\u{0}",
    ] {
        let expected: Option<i64> = name.parse::<i64>().ok();
        assert_eq!(parse_coordinate(name).ok(), expected, "{:?}", name);
    }
}

#[test]
fn decimal_name_writes_decimal() {
    assert_eq!(decimal_name(0), "0");
    assert_eq!(decimal_name(9), "9");
    assert_eq!(decimal_name(10), "10");
    assert_eq!(decimal_name(-1), "-1");
    assert_eq!(decimal_name(1234567890), "1234567890");
    assert_eq!(decimal_name(i64::MAX), "9223372036854775807");
    assert_eq!(decimal_name(i64::MIN), "-9223372036854775808");
    for v in [-1000000i64, -977, -10, -9, 99, 100, 101, 976, 1 << 40] {
        assert_eq!(decimal_name(v), v.to_string());
    }
}

#[test]
fn a_name_reads_back_as_its_coordinate() {
    for v in [i64::MIN, -977, -1, 0, 1, 976, i64::MAX] {
        assert_eq!(parse_coordinate(&decimal_name(v)).unwrap(), v);
    }
}

#[test]
fn file_stem_drops_the_extension() {
    assert_eq!(file_stem("12.dat"), "12");
    assert_eq!(file_stem("-12.dat"), "-12");
    assert_eq!(file_stem("12"), "12");
    assert_eq!(file_stem("12."), "12");
    assert_eq!(file_stem(".dat"), ".dat");
    assert_eq!(file_stem("a.b.c"), "a.b");
    assert_eq!(file_stem("..a"), ".");
    assert_eq!(file_stem(""), "");
    assert_eq!(file_stem("\u{e9}t\u{e9}.png"), "\u{e9}t\u{e9}");
}

#[test]
fn file_stem_agrees_with_the_standard_paths() {
    for name in ["12.dat", "12", "12.", ".dat", "a.b.c", "x..y", "-5.png", "temp.png"] {
        let expected = std::path::Path::new(name).file_stem().unwrap().to_str().unwrap();
        assert_eq!(file_stem(name), expected, "{:?}", name);
    }
}

#[test]
fn parse_file_name_reads_the_stem() {
    assert_eq!(parse_file_name("0.dat").unwrap(), 0);
    assert_eq!(parse_file_name("-977.dat").unwrap(), -977);
    assert_eq!(parse_file_name("12").unwrap(), 12);
    assert_eq!(parse_file_name("12.png").unwrap(), 12);
    assert!(matches!(parse_file_name("temp.png"), Err(Error::Coordinate)));
    assert!(matches!(parse_file_name("1.dat.bak"), Err(Error::Coordinate)));
    assert!(matches!(parse_file_name(".dat"), Err(Error::Coordinate)));
    assert!(matches!(parse_file_name(""), Err(Error::Coordinate)));
}

#[test]
fn raw_tile_file_names_the_store() {
    assert_eq!(raw_tile_file(0, 0), vec!["raw", "0", "0.dat"]);
    assert_eq!(raw_tile_file(1, 0), vec!["raw", "1", "0.dat"]);
    assert_eq!(raw_tile_file(-977, 976), vec!["raw", "-977", "976.dat"]);
}

#[test]
fn raster_file_names_the_raster() {
    assert_eq!(raster_file(0, 0, 0), vec!["0", "0", "0.png"]);
    assert_eq!(raster_file(7, -8, 7), vec!["7", "-8", "7.png"]);
    assert_eq!(raster_file(255, 12, -34), vec!["255", "12", "-34.png"]);
}

#[test]
fn a_store_is_found_again_under_its_name() {
    for (tx, ty) in [(0i64, 0i64), (-977, 976), (i64::MIN, i64::MAX)] {
        let path = raw_tile_file(tx, ty);
        assert_eq!(parse_coordinate(&path[1]).unwrap(), tx);
        assert_eq!(parse_file_name(&path[2]).unwrap(), ty);
    }
}
