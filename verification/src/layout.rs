//! Names of tiles on disk: tile coordinates are written in decimal, as the
//! names of directories and files, and read back from them.

use vstd::prelude::*;
use crate::error::Error;

verus! {

/// Whether `c` is one of the ten decimal digits.
pub open spec fn is_digit(c: char) -> bool {
    '0' <= c <= '9'
}

/// The value of a decimal digit.
pub open spec fn digit_value(c: char) -> int {
    c as int - 48
}

/// The decimal digit of a value from 0 to 9.
pub open spec fn digit_char(d: int) -> char {
    (d + 48) as char
}

/// Whether `s` holds decimal digits only.
pub open spec fn all_digits(s: Seq<char>) -> bool {
    forall|i: int| 0 <= i < s.len() ==> is_digit(#[trigger] s[i])
}

/// The number that a string of decimal digits writes.
pub open spec fn digits_value(s: Seq<char>) -> int
    decreases s.len(),
{
    if s.len() == 0 {
        0
    } else {
        digits_value(s.drop_last()) * 10 + digit_value(s.last())
    }
}

/// The decimal digits of a number that is not negative, without leading
/// zeros.
pub open spec fn digits_of(n: int) -> Seq<char>
    decreases n,
{
    if n < 10 {
        seq![digit_char(n)]
    } else {
        digits_of(n / 10).push(digit_char(n % 10))
    }
}

/// A number in decimal: its digits, after a minus sign if it is negative.
pub open spec fn decimal(v: int) -> Seq<char> {
    if v < 0 {
        seq!['-'] + digits_of(-v)
    } else {
        digits_of(v)
    }
}

/// The coordinate that a name writes: an optional sign, then at least one
/// decimal digit and nothing else, the number fitting 64 bits.
pub open spec fn parsed_coordinate(s: Seq<char>) -> Option<i64> {
    let signed = s.len() > 0 && (s[0] == '-' || s[0] == '+');
    let digits = if signed {
        s.subrange(1, s.len() as int)
    } else {
        s
    };
    let value = if s.len() > 0 && s[0] == '-' {
        -digits_value(digits)
    } else {
        digits_value(digits)
    };
    if digits.len() > 0 && all_digits(digits) && i64::MIN <= value <= i64::MAX {
        Some(value as i64)
    } else {
        None
    }
}

/// The place of the last dot in a name, or `-1` where it has none.
pub open spec fn last_dot(s: Seq<char>) -> int
    decreases s.len(),
{
    if s.len() == 0 {
        -1
    } else if s.last() == '.' {
        s.len() - 1
    } else {
        last_dot(s.drop_last())
    }
}

/// A file name without its extension: what stands before the last dot. A
/// name without a dot, or with its only dot in front, is its own stem.
pub open spec fn stem(s: Seq<char>) -> Seq<char> {
    if last_dot(s) <= 0 {
        s
    } else {
        s.subrange(0, last_dot(s))
    }
}

/// The path of a tile's store below its map's directory, component by
/// component: `raw`, the tile's column, and its row with the extension
/// `dat`.
pub open spec fn raw_tile_path(tx: i64, ty: i64) -> Seq<Seq<char>> {
    seq!["raw"@, decimal(tx as int), decimal(ty as int) + ".dat"@]
}

/// The path of a tile's raster below its map's directory, component by
/// component: the level, the tile's column, and its row with the extension
/// `png`.
pub open spec fn raster_path(level: u8, tx: i64, ty: i64) -> Seq<Seq<char>> {
    seq![decimal(level as int), decimal(tx as int), decimal(ty as int) + ".png"@]
}

/// The names of a path's components.
pub open spec fn names(path: Seq<String>) -> Seq<Seq<char>> {
    Seq::new(path.len(), |i: int| path[i]@)
}

proof fn lemma_digits_of(n: int)
    requires
        n >= 0,
    ensures
        digits_of(n).len() > 0,
        all_digits(digits_of(n)),
        digits_value(digits_of(n)) == n,
        last_dot(digits_of(n)) == -1,
    decreases n,
{
    if n < 10 {
        let s = seq![digit_char(n)];
        assert(s.drop_last() =~= Seq::<char>::empty());
        assert(digits_value(s.drop_last()) == 0);
        assert(last_dot(s.drop_last()) == -1);
    } else {
        lemma_digits_of(n / 10);
        let s = digits_of(n / 10).push(digit_char(n % 10));
        assert(s.drop_last() =~= digits_of(n / 10));
    }
}

/// A coordinate's decimal name reads back as the coordinate.
pub proof fn lemma_parse_decimal(v: i64)
    ensures
        parsed_coordinate(decimal(v as int)) == Some(v),
{
    if v < 0 {
        lemma_digits_of(-v);
        let s = seq!['-'] + digits_of(-v);
        assert(s.subrange(1, s.len() as int) =~= digits_of(-v));
    } else {
        lemma_digits_of(v as int);
    }
}

/// Two coordinates with one decimal name are one coordinate.
pub proof fn lemma_decimal_injective(a: i64, b: i64)
    requires
        decimal(a as int) == decimal(b as int),
    ensures
        a == b,
{
    lemma_parse_decimal(a);
    lemma_parse_decimal(b);
}

/// Two tiles whose stores have one path are one tile, and two rasters with
/// one path are the raster of one tile at one level: no file is written
/// for two.
pub proof fn lemma_paths_injective(la: u8, ax: i64, ay: i64, lb: u8, bx: i64, by: i64)
    ensures
        raw_tile_path(ax, ay) == raw_tile_path(bx, by) ==> ax == bx && ay == by,
        raster_path(la, ax, ay) == raster_path(lb, bx, by) ==> la == lb && ax == bx && ay == by,
{
    reveal_strlit(".dat");
    reveal_strlit(".png");
    if raw_tile_path(ax, ay) == raw_tile_path(bx, by) {
        assert(raw_tile_path(ax, ay)[1] == raw_tile_path(bx, by)[1]);
        assert(raw_tile_path(ax, ay)[2] == raw_tile_path(bx, by)[2]);
        lemma_decimal_injective(ax, bx);
        lemma_same_extension(decimal(ay as int), decimal(by as int), ".dat"@);
        lemma_decimal_injective(ay, by);
    }
    if raster_path(la, ax, ay) == raster_path(lb, bx, by) {
        assert(raster_path(la, ax, ay)[0] == raster_path(lb, bx, by)[0]);
        assert(raster_path(la, ax, ay)[1] == raster_path(lb, bx, by)[1]);
        assert(raster_path(la, ax, ay)[2] == raster_path(lb, bx, by)[2]);
        lemma_decimal_injective(la as i64, lb as i64);
        lemma_decimal_injective(ax, bx);
        lemma_same_extension(decimal(ay as int), decimal(by as int), ".png"@);
        lemma_decimal_injective(ay, by);
    }
}

proof fn lemma_same_extension(a: Seq<char>, b: Seq<char>, extension: Seq<char>)
    requires
        a + extension == b + extension,
    ensures
        a == b,
{
    assert((a + extension).len() == (b + extension).len());
    assert(a =~= (a + extension).subrange(0, a.len() as int));
    assert(b =~= (b + extension).subrange(0, b.len() as int));
}

proof fn lemma_last_dot_after_sign(s: Seq<char>)
    requires
        last_dot(s) == -1,
    ensures
        last_dot(seq!['-'] + s) == -1,
    decreases s.len(),
{
    let t = seq!['-'] + s;
    if s.len() == 0 {
        assert(t.drop_last() =~= Seq::<char>::empty());
        assert(t.last() == '-');
        assert(last_dot(t.drop_last()) == -1);
    } else {
        assert(t.drop_last() =~= seq!['-'] + s.drop_last());
        assert(t.last() == s.last());
        lemma_last_dot_after_sign(s.drop_last());
    }
}

/// A decimal name holds no dot.
pub proof fn lemma_decimal_has_no_dot(v: int)
    ensures
        last_dot(decimal(v)) == -1,
        decimal(v).len() > 0,
{
    if v < 0 {
        lemma_digits_of(-v);
        lemma_last_dot_after_sign(digits_of(-v));
    } else {
        lemma_digits_of(v);
    }
}

/// The stem of a tile's file name is the decimal name of its row, whatever
/// the extension, as long as the extension holds no dot.
pub proof fn lemma_stem_of_file_name(v: int, extension: Seq<char>)
    requires
        last_dot(extension) == -1,
    ensures
        stem(decimal(v) + seq!['.'] + extension) == decimal(v),
    decreases extension.len(),
{
    lemma_decimal_has_no_dot(v);
    lemma_last_dot_before_extension(decimal(v), extension);
    let name = decimal(v) + seq!['.'] + extension;
    assert(name.subrange(0, decimal(v).len() as int) =~= decimal(v));
}

proof fn lemma_last_dot_before_extension(base: Seq<char>, extension: Seq<char>)
    requires
        last_dot(extension) == -1,
    ensures
        last_dot(base + seq!['.'] + extension) == base.len(),
    decreases extension.len(),
{
    let name = base + seq!['.'] + extension;
    if extension.len() == 0 {
        assert(name.last() == '.');
    } else {
        assert(name.drop_last() =~= base + seq!['.'] + extension.drop_last());
        assert(name.last() == extension.last());
        lemma_last_dot_before_extension(base, extension.drop_last());
    }
}

/// A tile's store is found again under its name: the row read from the
/// stem of the file's name, and the column read from the directory's name,
/// are the tile's own.
pub proof fn lemma_raw_tile_path_reads_back(tx: i64, ty: i64)
    ensures
        parsed_coordinate(raw_tile_path(tx, ty)[1]) == Some(tx),
        parsed_coordinate(stem(raw_tile_path(tx, ty)[2])) == Some(ty),
{
    reveal_strlit(".dat");
    lemma_parse_decimal(tx);
    lemma_parse_decimal(ty);
    let extension = seq!['d', 'a', 't'];
    assert(extension.drop_last() =~= seq!['d', 'a']);
    assert(seq!['d', 'a'].drop_last() =~= seq!['d']);
    assert(seq!['d'].drop_last() =~= Seq::<char>::empty());
    assert(last_dot(Seq::<char>::empty()) == -1);
    assert(last_dot(seq!['d']) == -1);
    assert(last_dot(seq!['d', 'a']) == -1);
    assert(last_dot(extension) == -1);
    lemma_stem_of_file_name(ty as int, extension);
    assert(".dat"@ =~= seq!['.'] + extension);
    assert(decimal(ty as int) + ".dat"@ =~= decimal(ty as int) + seq!['.'] + extension);
}

fn digit_str(d: u8) -> (s: &'static str)
    requires
        d < 10,
    ensures
        s@ == seq![digit_char(d as int)],
{
    proof {
        reveal_strlit("0");
        reveal_strlit("1");
        reveal_strlit("2");
        reveal_strlit("3");
        reveal_strlit("4");
        reveal_strlit("5");
        reveal_strlit("6");
        reveal_strlit("7");
        reveal_strlit("8");
        reveal_strlit("9");
    }
    let s = match d {
        0 => "0",
        1 => "1",
        2 => "2",
        3 => "3",
        4 => "4",
        5 => "5",
        6 => "6",
        7 => "7",
        8 => "8",
        _ => "9",
    };
    assert(s@ =~= seq![digit_char(d as int)]);
    s
}

fn append_digits(name: &mut String, n: u64)
    ensures
        final(name)@ == old(name)@ + digits_of(n as int),
    decreases n,
{
    if n >= 10 {
        append_digits(name, n / 10);
    }
    name.append(digit_str((n % 10) as u8));
    assert(name@ =~= old(name)@ + digits_of(n as int));
}

/// Writes a number in decimal.
pub fn decimal_name(value: i64) -> (name: String)
    ensures
        name@ == decimal(value as int),
{
    let mut name = String::new();
    if value < 0 {
        proof {
            reveal_strlit("-");
        }
        name.append("-");
        append_digits(&mut name, (-(value as i128)) as u64);
    } else {
        append_digits(&mut name, value as u64);
    }
    assert(name@ =~= decimal(value as int));
    name
}

/// The path of a tile's store below its map's directory.
pub fn raw_tile_file(tx: i64, ty: i64) -> (path: Vec<String>)
    ensures
        names(path@) == raw_tile_path(tx, ty),
{
    let mut path: Vec<String> = Vec::new();
    path.push(String::from_str("raw"));
    path.push(decimal_name(tx));
    path.push(decimal_name(ty).concat(".dat"));
    assert(names(path@) =~= raw_tile_path(tx, ty));
    path
}

/// The path of a tile's raster below its map's directory.
pub fn raster_file(level: u8, tx: i64, ty: i64) -> (path: Vec<String>)
    ensures
        names(path@) == raster_path(level, tx, ty),
{
    let mut path: Vec<String> = Vec::new();
    path.push(decimal_name(level as i64));
    path.push(decimal_name(tx));
    path.push(decimal_name(ty).concat(".png"));
    assert(names(path@) =~= raster_path(level, tx, ty));
    path
}

/// A file name without its extension.
pub fn file_stem(name: &str) -> (short: &str)
    ensures
        short@ == stem(name@),
{
    let len = name.unicode_len();
    let mut end: usize = len;
    assert(name@.subrange(0, len as int) =~= name@);
    while end > 0
        invariant
            end <= len,
            len == name@.len(),
            last_dot(name@) == last_dot(name@.subrange(0, end as int)),
        decreases end,
    {
        let ghost prefix = name@.subrange(0, end as int);
        if name.get_char(end - 1) == '.' {
            assert(prefix.last() == '.');
            if end - 1 == 0 {
                assert(name@.subrange(0, len as int) =~= name@);
                return name;
            }
            return name.substring_char(0, end - 1);
        }
        assert(prefix.drop_last() =~= name@.subrange(0, end - 1));
        end -= 1;
    }
    name
}

/// Reads a tile's row from the name of its file, leaving the extension
/// aside.
pub fn parse_file_name(name: &str) -> (parsed: Result<i64, Error>)
    ensures
        match parsed {
            Ok(v) => parsed_coordinate(stem(name@)) == Some(v),
            Err(Error::Coordinate) => parsed_coordinate(stem(name@)) is None,
            Err(_) => false,
        },
{
    parse_coordinate(file_stem(name))
}

/// Reads a tile coordinate from a name.
pub fn parse_coordinate(name: &str) -> (parsed: Result<i64, Error>)
    ensures
        match parsed {
            Ok(v) => parsed_coordinate(name@) == Some(v),
            Err(Error::Coordinate) => parsed_coordinate(name@) is None,
            Err(_) => false,
        },
{
    let len = name.unicode_len();
    if len == 0 {
        return Err(Error::Coordinate);
    }
    let first = name.get_char(0);
    let negative = first == '-';
    let start: usize = if first == '-' || first == '+' {
        1
    } else {
        0
    };
    let ghost digits = name@.subrange(start as int, len as int);
    assert(start == 0 ==> digits =~= name@);
    let mut magnitude: i128 = 0;
    let mut over = false;
    let mut i: usize = start;
    while i < len
        invariant
            start <= i <= len,
            len == name@.len(),
            len > 0,
            start == 1 <==> (name@[0] == '-' || name@[0] == '+'),
            digits == name@.subrange(start as int, len as int),
            start == 0 ==> digits == name@,
            all_digits(name@.subrange(start as int, i as int)),
            !over ==> magnitude == digits_value(name@.subrange(start as int, i as int)) && 0
                <= magnitude <= 0x8000_0000_0000_0000,
            over ==> digits_value(name@.subrange(start as int, i as int)) > 0x8000_0000_0000_0000,
        decreases len - i,
    {
        let c = name.get_char(i);
        if c < '0' || c > '9' {
            proof {
                assert(digits[i - start] == c);
                assert(!all_digits(digits));
            }
            return Err(Error::Coordinate);
        }
        let digit: i128 = (c as u32 - 48) as i128;
        proof {
            let longer = name@.subrange(start as int, i + 1);
            assert(longer.drop_last() =~= name@.subrange(start as int, i as int));
            assert(longer.last() == c);
        }
        if !over {
            magnitude = magnitude * 10 + digit;
            if magnitude > 0x8000_0000_0000_0000 {
                over = true;
            }
        }
        i += 1;
    }
    assert(name@.subrange(start as int, i as int) =~= digits);
    if i == start || over {
        return Err(Error::Coordinate);
    }
    if negative {
        Ok((-magnitude) as i64)
    } else if magnitude > 0x7fff_ffff_ffff_ffff {
        Err(Error::Coordinate)
    } else {
        Ok(magnitude as i64)
    }
}

} // verus!
