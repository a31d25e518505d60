//! One logical map: the sparse set of tiles that were ever touched, and the
//! arithmetic that routes a world point to its tile and cell.

use vstd::prelude::*;
use std::collections::HashMap;
use std::collections::HashSet;
use crate::error::Error;
use crate::image::{encoded, png_file};
use crate::layout::{parse_coordinate, parse_file_name, parsed_coordinate, stem};
use crate::tile::{cell_index, rendered, Tile};

verus! {

/// The coordinate of the tile that holds world coordinate `x`: the floor of
/// `x / 1024`.
pub open spec fn tile_of(x: int) -> int {
    x / 1024
}

/// The offset of world coordinate `x` inside its tile.
pub open spec fn offset_of(x: int) -> int {
    x % 1024
}

/// The key under which the tile at `(tx, ty)` is indexed: both coordinates
/// shifted to be non-negative, `tx` in the upper 64 bits and `ty` in the
/// lower.
pub open spec fn tile_key(tx: i64, ty: i64) -> u128 {
    ((tx + 0x8000_0000_0000_0000) * 0x1_0000_0000_0000_0000 + (ty + 0x8000_0000_0000_0000)) as u128
}

/// Two tiles with one key are one tile.
pub proof fn lemma_tile_key_injective(ax: i64, ay: i64, bx: i64, by: i64)
    requires
        tile_key(ax, ay) == tile_key(bx, by),
    ensures
        ax == bx,
        ay == by,
{
}

/// The coordinate of the tile that holds world coordinate `x`.
pub fn tile_coordinate(x: i64) -> (t: i64)
    ensures
        t == tile_of(x as int),
{
    assert(x >> 10 == x / 1024) by (bit_vector);
    x >> 10
}

/// The offset of world coordinate `x` inside its tile.
pub fn tile_offset(x: i64) -> (o: u32)
    ensures
        o == offset_of(x as int),
        o < 1024,
{
    assert(x & 1023 == x % 1024 && 0 <= x & 1023 < 1024) by (bit_vector);
    (x & 1023) as u32
}

fn key_of(tx: i64, ty: i64) -> (key: u128)
    ensures
        key == tile_key(tx, ty),
{
    let high: u128 = (tx as i128 + 0x8000_0000_0000_0000) as u128;
    let low: u128 = (ty as i128 + 0x8000_0000_0000_0000) as u128;
    high * 0x1_0000_0000_0000_0000 + low
}

/// The highest level of the pyramid; level `0` is the tiles themselves.
pub const TOP_LEVEL: u8 = 7;

/// A step of saving a map. The tiles are rendered first; each level above
/// is composed from the rasters of the level below, so the levels follow
/// in order, none before the one below it is written.
#[derive(Clone, Copy, Debug)]
pub enum SaveStep {
    /// Render the tiles to level 0.
    Tiles,
    /// Compose the rasters of the given level.
    Level(u8),
    /// Nothing is left to do.
    Done,
}

/// The step that follows `step`.
pub open spec fn step_after(step: SaveStep) -> SaveStep {
    match step {
        SaveStep::Tiles => SaveStep::Level(1),
        SaveStep::Level(n) => if 1 <= n < TOP_LEVEL {
            SaveStep::Level((n + 1) as u8)
        } else {
            SaveStep::Done
        },
        SaveStep::Done => SaveStep::Done,
    }
}

/// The step that is taken after `k` others.
pub open spec fn step_at(k: nat) -> SaveStep
    decreases k,
{
    if k == 0 {
        SaveStep::Tiles
    } else {
        step_after(step_at((k - 1) as nat))
    }
}

/// Saving renders the tiles, then the levels from 1 to the top in order,
/// and then is done.
pub proof fn lemma_save_order(k: nat)
    ensures
        k == 0 ==> step_at(k) == SaveStep::Tiles,
        1 <= k <= TOP_LEVEL ==> step_at(k) == SaveStep::Level(k as u8),
        k > TOP_LEVEL ==> step_at(k) == SaveStep::Done,
    decreases k,
{
    if k > 0 {
        lemma_save_order((k - 1) as nat);
    }
}

impl SaveStep {
    /// The step that saving begins with.
    pub fn first() -> (step: SaveStep)
        ensures
            step == step_at(0),
    {
        SaveStep::Tiles
    }

    /// The step that follows this one.
    pub fn next(self) -> (step: SaveStep)
        ensures
            step == step_after(self),
    {
        match self {
            SaveStep::Tiles => SaveStep::Level(1),
            SaveStep::Level(n) => if 1 <= n && n < TOP_LEVEL {
                SaveStep::Level(n + 1)
            } else {
                SaveStep::Done
            },
            SaveStep::Done => SaveStep::Done,
        }
    }
}

/// A tile coordinate at a coarser level: each level halves the coordinate,
/// rounding down.
pub open spec fn coarsened(c: (i64, i64), level: u8) -> (i64, i64) {
    (c.0 >> level, c.1 >> level)
}

/// Whether the tile at `c` of level `level` covers one of the first `upto`
/// of the touched tiles.
pub open spec fn covers(touched: Seq<(i64, i64)>, upto: int, level: u8, c: (i64, i64)) -> bool {
    exists|j: int| 0 <= j < upto && coarsened(#[trigger] touched[j], level) == c
}

/// The coordinates, one level finer, of the four children of the tile at
/// `(x, y)`: top left, top right, bottom left, bottom right.
pub open spec fn children(x: i64, y: i64) -> Seq<(int, int)> {
    seq![(2 * x, 2 * y), (2 * x + 1, 2 * y), (2 * x, 2 * y + 1), (2 * x + 1, 2 * y + 1)]
}

/// Whether a coordinate can be doubled without leaving 64 bits.
pub open spec fn has_children(x: i64) -> bool {
    -0x4000_0000_0000_0000 <= x < 0x4000_0000_0000_0000
}

/// Every tile is a child of the tile that covers it one level up: at the
/// place that the low bits of its coordinates give.
pub proof fn lemma_child_of_parent(c: (i64, i64), level: u8)
    requires
        1 <= level < 64,
    ensures
        has_children(coarsened(c, level).0),
        has_children(coarsened(c, level).1),
        ({
            let finer = coarsened(c, (level - 1) as u8);
            let coarser = coarsened(c, level);
            let place = (finer.0 - 2 * coarser.0) + 2 * (finer.1 - 2 * coarser.1);
            0 <= place < 4 && children(coarser.0, coarser.1)[place] == (finer.0 as int, finer.1 as int)
        }),
{
    let x = c.0;
    let y = c.1;
    let down = (level - 1) as u8;
    assert(-0x4000_0000_0000_0000 <= x >> level < 0x4000_0000_0000_0000 && ((x >> down) == 2 * (x
        >> level) || (x >> down) == 2 * (x >> level) + 1)) by (bit_vector)
        requires
            1 <= level < 64,
            down == level - 1,
    ;
    assert(-0x4000_0000_0000_0000 <= y >> level < 0x4000_0000_0000_0000 && ((y >> down) == 2 * (y
        >> level) || (y >> down) == 2 * (y >> level) + 1)) by (bit_vector)
        requires
            1 <= level < 64,
            down == level - 1,
    ;
}

/// The coordinates of the four children of the tile at `(x, y)`.
pub fn child_coordinates(x: i64, y: i64) -> (kids: [(i64, i64); 4])
    requires
        has_children(x),
        has_children(y),
    ensures
        forall|k: int| 0 <= k < 4 ==> (kids@[k].0 as int, kids@[k].1 as int) == children(x, y)[k],
{
    [(2 * x, 2 * y), (2 * x + 1, 2 * y), (2 * x, 2 * y + 1), (2 * x + 1, 2 * y + 1)]
}

/// The level-0 raster of one tile, as a PNG file or the failure to make
/// one.
pub struct Rendered {
    pub tx: i64,
    pub ty: i64,
    pub file: Result<Vec<u8>, Error>,
}

/// Whether `files` are the level-0 rasters of the touched tiles, one for
/// each in order: the PNG file that the encoder writes for the tile's
/// cells, or its failure where it writes none.
pub open spec fn renders(
    tiles: Map<(i64, i64), Seq<bool>>,
    touched: Seq<(i64, i64)>,
    files: Seq<Rendered>,
) -> bool {
    &&& files.len() == touched.len()
    &&& forall|i: int|
        0 <= i < files.len() ==> {
            &&& (#[trigger] files[i]).tx == touched[i].0
            &&& files[i].ty == touched[i].1
            &&& match files[i].file {
                Ok(file) => png_file(1024, 1024, encoded(rendered(tiles[touched[i]]))) == Some(
                    file@,
                ),
                Err(Error::Io(_)) => png_file(
                    1024,
                    1024,
                    encoded(rendered(tiles[touched[i]])),
                ) is None,
                Err(_) => false,
            }
        }
}

/// A tile's store as found on disk: the file's name and the tile.
pub struct RawFile {
    pub name: String,
    pub tile: Tile,
}

/// A directory of tile stores as found on disk: its name and its files.
pub struct RawColumn {
    pub name: String,
    pub files: Vec<RawFile>,
}

/// Whether every name in a directory writes a coordinate.
pub open spec fn column_reads(column: RawColumn) -> bool {
    &&& parsed_coordinate(column.name@) is Some
    &&& forall|j: int|
        0 <= j < column.files@.len() ==> parsed_coordinate(
            stem((#[trigger] column.files@[j]).name@),
        ) is Some
}

/// Whether every name in a listing writes a coordinate.
pub open spec fn listing_reads(found: Seq<RawColumn>) -> bool {
    forall|i: int| 0 <= i < found.len() ==> column_reads(#[trigger] found[i])
}

/// What loading the files of one directory leaves of `tiles`, and
/// whether every name was read: each file in order is put in at the column
/// `x` and the row that the stem of its name writes, up to the first name
/// that writes none.
pub open spec fn load_files(tiles: Map<(i64, i64), Seq<bool>>, x: i64, files: Seq<RawFile>) -> (
    Map<(i64, i64), Seq<bool>>,
    bool,
)
    decreases files.len(),
{
    if files.len() == 0 {
        (tiles, true)
    } else {
        let before = load_files(tiles, x, files.drop_last());
        if !before.1 {
            before
        } else {
            match parsed_coordinate(stem(files.last().name@)) {
                Some(y) => (before.0.insert((x, y), files.last().tile@), true),
                None => (before.0, false),
            }
        }
    }
}

/// What loading a listing leaves of `tiles`, and whether every name was
/// read: each directory in order is loaded at the column that its name
/// writes, up to the first name that writes none.
pub open spec fn load_columns(tiles: Map<(i64, i64), Seq<bool>>, found: Seq<RawColumn>) -> (
    Map<(i64, i64), Seq<bool>>,
    bool,
)
    decreases found.len(),
{
    if found.len() == 0 {
        (tiles, true)
    } else {
        let before = load_columns(tiles, found.drop_last());
        if !before.1 {
            before
        } else {
            match parsed_coordinate(found.last().name@) {
                Some(x) => load_files(before.0, x, found.last().files@),
                None => (before.0, false),
            }
        }
    }
}

proof fn lemma_load_files_stuck(
    tiles: Map<(i64, i64), Seq<bool>>,
    x: i64,
    files: Seq<RawFile>,
    k: int,
)
    requires
        0 <= k <= files.len(),
        !load_files(tiles, x, files.subrange(0, k)).1,
    ensures
        load_files(tiles, x, files) == load_files(tiles, x, files.subrange(0, k)),
    decreases files.len() - k,
{
    if k < files.len() {
        assert(files.subrange(0, k + 1).drop_last() =~= files.subrange(0, k));
        lemma_load_files_stuck(tiles, x, files, k + 1);
    } else {
        assert(files.subrange(0, k) =~= files);
    }
}

proof fn lemma_load_columns_stuck(
    tiles: Map<(i64, i64), Seq<bool>>,
    found: Seq<RawColumn>,
    k: int,
)
    requires
        0 <= k <= found.len(),
        !load_columns(tiles, found.subrange(0, k)).1,
    ensures
        load_columns(tiles, found) == load_columns(tiles, found.subrange(0, k)),
    decreases found.len() - k,
{
    if k < found.len() {
        assert(found.subrange(0, k + 1).drop_last() =~= found.subrange(0, k));
        lemma_load_columns_stuck(tiles, found, k + 1);
    } else {
        assert(found.subrange(0, k) =~= found);
    }
}

proof fn lemma_load_files_reads(tiles: Map<(i64, i64), Seq<bool>>, x: i64, files: Seq<RawFile>)
    ensures
        load_files(tiles, x, files).1 <==> forall|j: int|
            0 <= j < files.len() ==> parsed_coordinate(stem((#[trigger] files[j]).name@)) is Some,
    decreases files.len(),
{
    if files.len() > 0 {
        let shorter = files.drop_last();
        lemma_load_files_reads(tiles, x, shorter);
        if load_files(tiles, x, files).1 {
            assert forall|j: int| 0 <= j < files.len() implies parsed_coordinate(
                stem((#[trigger] files[j]).name@),
            ) is Some by {
                if j < shorter.len() {
                    assert(shorter[j] == files[j]);
                }
            }
        } else if load_files(tiles, x, shorter).1 {
            assert(parsed_coordinate(stem(files[files.len() - 1].name@)) is None);
        } else {
            let j = choose|j: int|
                0 <= j < shorter.len() && !(parsed_coordinate(
                    stem((#[trigger] shorter[j]).name@),
                ) is Some);
            assert(files[j] == shorter[j]);
        }
    }
}

/// Loading reads every name exactly where every name of the listing
/// writes a coordinate.
pub proof fn lemma_load_columns_reads(tiles: Map<(i64, i64), Seq<bool>>, found: Seq<RawColumn>)
    ensures
        load_columns(tiles, found).1 <==> listing_reads(found),
    decreases found.len(),
{
    if found.len() > 0 {
        let shorter = found.drop_last();
        let last = found.last();
        lemma_load_columns_reads(tiles, shorter);
        let before = load_columns(tiles, shorter);
        if parsed_coordinate(last.name@) is Some {
            lemma_load_files_reads(before.0, parsed_coordinate(last.name@).unwrap(), last.files@);
        }
        if load_columns(tiles, found).1 {
            assert forall|i: int| 0 <= i < found.len() implies column_reads(
                #[trigger] found[i],
            ) by {
                if i < shorter.len() {
                    assert(shorter[i] == found[i]);
                }
            }
        } else if before.1 {
            assert(!column_reads(found[found.len() - 1]));
        } else {
            let i = choose|i: int| 0 <= i < shorter.len() && !column_reads(#[trigger] shorter[i]);
            assert(found[i] == shorter[i]);
        }
    }
}

/// The tile coordinate of a world point.
pub open spec fn tile_of_point(x: i64, y: i64) -> (i64, i64) {
    (tile_of(x as int) as i64, tile_of(y as int) as i64)
}

/// The index, in its tile, of the cell of a world point.
pub open spec fn cell_of_point(x: i64, y: i64) -> int {
    cell_index(offset_of(x as int), offset_of(y as int))
}

/// `cells` with the cell of index `cell` set.
pub open spec fn with_cell(cells: Seq<bool>, cell: int) -> Seq<bool> {
    Seq::new(cells.len(), |i: int| i == cell || cells[i])
}

/// `tiles` after world point `(x, y)` was observed: the point's cell is set
/// in its tile. Where the tile is not there, nothing changes.
pub open spec fn with_point(tiles: Map<(i64, i64), Seq<bool>>, x: i64, y: i64) -> Map<
    (i64, i64),
    Seq<bool>,
> {
    let c = tile_of_point(x, y);
    if tiles.contains_key(c) {
        tiles.insert(c, with_cell(tiles[c], cell_of_point(x, y)))
    } else {
        tiles
    }
}

/// To observe a point twice is to observe it once.
pub proof fn lemma_with_point_idempotent(tiles: Map<(i64, i64), Seq<bool>>, x: i64, y: i64)
    ensures
        with_point(with_point(tiles, x, y), x, y) == with_point(tiles, x, y),
{
    let c = tile_of_point(x, y);
    if tiles.contains_key(c) {
        let cells = with_cell(tiles[c], cell_of_point(x, y));
        assert(with_cell(cells, cell_of_point(x, y)) =~= cells);
        assert(with_point(with_point(tiles, x, y), x, y) =~= with_point(tiles, x, y));
    }
}

/// A point only ever adds: every tile stays, and every cell that was set
/// stays set.
pub proof fn lemma_with_point_monotone(
    tiles: Map<(i64, i64), Seq<bool>>,
    x: i64,
    y: i64,
    c: (i64, i64),
    cell: int,
)
    requires
        tiles.contains_key(c),
        0 <= cell < tiles[c].len(),
        tiles[c][cell],
    ensures
        with_point(tiles, x, y).contains_key(c),
        with_point(tiles, x, y)[c][cell],
        with_point(tiles, x, y).dom() == tiles.dom(),
{
    assert(with_point(tiles, x, y).dom() =~= tiles.dom());
}

/// What became of a point handed to [`SpatialMap::set`].
pub enum Placement {
    /// The point's cell is set.
    Placed,
    /// The point's tile is not in the map yet; nothing was changed.
    Missing { tx: i64, ty: i64 },
}

/// The tiles of one map, by tile coordinate.
pub struct SpatialMap {
    name: String,
    coordinates: Vec<(i64, i64)>,
    tiles: Vec<Tile>,
    index: HashMap<u128, usize>,
}

impl View for SpatialMap {
    type V = Map<(i64, i64), Seq<bool>>;

    /// The cells of each touched tile, by tile coordinate.
    closed spec fn view(&self) -> Map<(i64, i64), Seq<bool>> {
        Map::new(
            |c: (i64, i64)| self.index@.contains_key(tile_key(c.0, c.1)),
            |c: (i64, i64)| self.tiles@[self.index@[tile_key(c.0, c.1)] as int]@,
        )
    }
}

impl SpatialMap {
    /// The tiles and their coordinates stand side by side, and the index
    /// finds each tile under its key.
    pub closed spec fn wf(&self) -> bool {
        &&& self.coordinates@.len() == self.tiles@.len()
        &&& forall|i: int|
            0 <= i < self.coordinates@.len() ==> {
                &&& #[trigger] self.index@.contains_key(
                    tile_key(self.coordinates@[i].0, self.coordinates@[i].1),
                )
                &&& self.index@[tile_key(self.coordinates@[i].0, self.coordinates@[i].1)] == i
            }
        &&& forall|k: u128| #[trigger]
            self.index@.contains_key(k) ==> {
                &&& self.index@[k] < self.coordinates@.len()
                &&& tile_key(
                    self.coordinates@[self.index@[k] as int].0,
                    self.coordinates@[self.index@[k] as int].1,
                ) == k
            }
        &&& forall|i: int| 0 <= i < self.tiles@.len() ==> (#[trigger] self.tiles@[i]).wf()
    }

    /// The map's name.
    pub closed spec fn spec_name(&self) -> Seq<char> {
        self.name@
    }

    /// The coordinates of the touched tiles, in the order in which the
    /// tiles came.
    pub closed spec fn touched(&self) -> Seq<(i64, i64)> {
        self.coordinates@
    }

    /// A map of the given name without any tile.
    pub fn new(name: String) -> (map: SpatialMap)
        ensures
            map.wf(),
            map@ == Map::<(i64, i64), Seq<bool>>::empty(),
            map.touched() == Seq::<(i64, i64)>::empty(),
            map.spec_name() == name@,
    {
        let map = SpatialMap {
            name,
            coordinates: Vec::new(),
            tiles: Vec::new(),
            index: HashMap::new(),
        };
        assert(map@ =~= Map::<(i64, i64), Seq<bool>>::empty());
        map
    }

    /// The map's name.
    pub fn name(&self) -> (name: &String)
        ensures
            name@ == self.spec_name(),
    {
        &self.name
    }

    /// Whether the tile at `(tx, ty)` is in the map.
    pub fn contains(&self, tx: i64, ty: i64) -> (found: bool)
        requires
            self.wf(),
        ensures
            found == self@.contains_key((tx, ty)),
    {
        let key = key_of(tx, ty);
        self.index.contains_key(&key)
    }

    /// Sets the cell of world point `(x, y)` in its tile, if the tile is in
    /// the map. Otherwise nothing changes and the tile's coordinate comes
    /// back, for the caller to supply the tile.
    pub fn set(&mut self, x: i64, y: i64) -> (placement: Placement)
        requires
            old(self).wf(),
        ensures
            final(self).wf(),
            final(self).touched() == old(self).touched(),
            final(self).spec_name() == old(self).spec_name(),
            final(self)@ == with_point(old(self)@, x, y),
            match placement {
                Placement::Placed => old(self)@.contains_key(tile_of_point(x, y)),
                Placement::Missing { tx, ty } => (tx, ty) == tile_of_point(x, y) && !old(
                    self,
                )@.contains_key((tx, ty)),
            },
    {
        let tx = tile_coordinate(x);
        let ty = tile_coordinate(y);
        let ix = tile_offset(x);
        let iy = tile_offset(y);
        let key = key_of(tx, ty);
        match self.index.get(&key) {
            Some(place) => {
                let i: usize = *place;
                self.tiles[i].set(ix, iy);
                proof {
                    let c = (tx, ty);
                    let cell = cell_index(ix as int, iy as int);
                    assert(old(self).tiles@[i as int].wf());
                    assert(old(self)@[c].update(cell, true) =~= with_cell(old(self)@[c], cell));
                    assert forall|d: (i64, i64)| self@.contains_key(d) implies #[trigger] self@[d]
                        == with_point(old(self)@, x, y)[d] by {
                        if d != c {
                            if tile_key(d.0, d.1) == key {
                                lemma_tile_key_injective(d.0, d.1, tx, ty);
                            }
                        }
                    }
                    assert(self@ =~= with_point(old(self)@, x, y));
                }
                Placement::Placed
            },
            None => Placement::Missing { tx, ty },
        }
    }

    /// Puts a tile into the map at `(tx, ty)`. A tile that was there
    /// before gives way to the new one.
    pub fn insert(&mut self, tx: i64, ty: i64, tile: Tile)
        requires
            old(self).wf(),
        ensures
            final(self).wf(),
            final(self)@ == old(self)@.insert((tx, ty), tile@),
            final(self).spec_name() == old(self).spec_name(),
            final(self).touched() == if old(self)@.contains_key((tx, ty)) {
                old(self).touched()
            } else {
                old(self).touched().push((tx, ty))
            },
    {
        proof {
            use_type_invariant(&tile);
        }
        let key = key_of(tx, ty);
        let found: Option<usize> = match self.index.get(&key) {
            Some(place) => Some(*place),
            None => None,
        };
        match found {
            Some(i) => {
                self.tiles.set(i, tile);
            },
            None => {
                let i: usize = self.tiles.len();
                self.coordinates.push((tx, ty));
                self.tiles.push(tile);
                self.index.insert(key, i);
                proof {
                    assert forall|j: int| 0 <= j < self.coordinates@.len() implies {
                        &&& #[trigger] self.index@.contains_key(
                            tile_key(self.coordinates@[j].0, self.coordinates@[j].1),
                        )
                        &&& self.index@[tile_key(self.coordinates@[j].0, self.coordinates@[j].1)]
                            == j
                    } by {
                        if j < i {
                            assert(old(self).index@.contains_key(
                                tile_key(old(self).coordinates@[j].0, old(self).coordinates@[j].1),
                            ));
                        }
                    }
                }
            },
        }
        proof {
            assert forall|d: (i64, i64)| self@.contains_key(d) implies #[trigger] self@[d] == old(
                self,
            )@.insert((tx, ty), tile@)[d] by {
                if d != (tx, ty) {
                    if tile_key(d.0, d.1) == key {
                        lemma_tile_key_injective(d.0, d.1, tx, ty);
                    }
                }
            }
            assert(self@ =~= old(self)@.insert((tx, ty), tile@));
        }
    }

    /// The touched coordinates are the tiles of the map, each once.
    pub proof fn lemma_touched(&self)
        requires
            self.wf(),
        ensures
            self.touched().no_duplicates(),
            forall|c: (i64, i64)| self.touched().contains(c) <==> self@.contains_key(c),
            forall|c: (i64, i64)| self@.contains_key(c) ==> (#[trigger] self@[c]).len() == 1048576,
    {
        assert forall|i: int, j: int|
            0 <= i < self.coordinates@.len() && 0 <= j < self.coordinates@.len() && i
                != j implies self.coordinates@[i] != self.coordinates@[j] by {
            assert(self.index@.contains_key(
                tile_key(self.coordinates@[i].0, self.coordinates@[i].1),
            ));
            assert(self.index@.contains_key(
                tile_key(self.coordinates@[j].0, self.coordinates@[j].1),
            ));
        }
        assert forall|c: (i64, i64)| self.touched().contains(c) <==> self@.contains_key(c) by {
            if self.touched().contains(c) {
                let i = choose|i: int| 0 <= i < self.coordinates@.len() && self.coordinates@[i] == c;
                assert(self.index@.contains_key(
                    tile_key(self.coordinates@[i].0, self.coordinates@[i].1),
                ));
            }
            if self@.contains_key(c) {
                let k = tile_key(c.0, c.1);
                assert(self.index@.contains_key(k));
                let i = self.index@[k] as int;
                lemma_tile_key_injective(self.coordinates@[i].0, self.coordinates@[i].1, c.0, c.1);
                assert(self.coordinates@[i] == c);
            }
        }
        assert forall|c: (i64, i64)| self@.contains_key(c) implies (#[trigger] self@[c]).len()
            == 1048576 by {
            let k = tile_key(c.0, c.1);
            assert(self.index@.contains_key(k));
            assert(self.tiles@[self.index@[k] as int].wf());
        }
    }

    /// The number of tiles.
    pub fn len(&self) -> (len: usize)
        requires
            self.wf(),
        ensures
            len == self.touched().len(),
    {
        self.coordinates.len()
    }

    /// The coordinate of the tile that came as number `i`.
    pub fn coordinate(&self, i: usize) -> (c: (i64, i64))
        requires
            self.wf(),
            i < self.touched().len(),
        ensures
            c == self.touched()[i as int],
            self@.contains_key(c),
    {
        assert(self.index@.contains_key(
            tile_key(self.coordinates@[i as int].0, self.coordinates@[i as int].1),
        ));
        self.coordinates[i]
    }

    /// Renders every tile to its level-0 raster file, in the order in which
    /// the tiles came. A tile that fails does not keep the others from
    /// being rendered.
    pub fn save_tiles(&self) -> (files: Vec<Rendered>)
        requires
            self.wf(),
        ensures
            renders(self@, self.touched(), files@),
    {
        let mut files: Vec<Rendered> = Vec::new();
        let mut i: usize = 0;
        while i < self.coordinates.len()
            invariant
                self.wf(),
                i <= self.coordinates@.len(),
                files@.len() == i,
                forall|k: int|
                    0 <= k < i ==> {
                        &&& (#[trigger] files@[k]).tx == self.touched()[k].0
                        &&& files@[k].ty == self.touched()[k].1
                        &&& match files@[k].file {
                            Ok(file) => png_file(
                                1024,
                                1024,
                                encoded(rendered(self@[self.touched()[k]])),
                            ) == Some(file@),
                            Err(Error::Io(_)) => png_file(
                                1024,
                                1024,
                                encoded(rendered(self@[self.touched()[k]])),
                            ) is None,
                            Err(_) => false,
                        }
                    },
            decreases self.coordinates@.len() - i,
        {
            let c = self.coordinates[i];
            assert(self.index@.contains_key(tile_key(c.0, c.1)));
            let file = self.tiles[i].save();
            files.push(Rendered { tx: c.0, ty: c.1, file });
            i += 1;
        }
        files
    }

    /// The tiles of level `level` that cover the touched tiles: each
    /// touched coordinate halved `level` times, each result once.
    pub fn save_level(&self, level: u8) -> (todo: Vec<(i64, i64)>)
        requires
            self.wf(),
            1 <= level <= TOP_LEVEL,
        ensures
            todo@.no_duplicates(),
            forall|c: (i64, i64)|
                todo@.contains(c) <==> covers(
                    self.touched(),
                    self.touched().len() as int,
                    level,
                    c,
                ),
            forall|k: int|
                0 <= k < todo@.len() ==> has_children((#[trigger] todo@[k]).0) && has_children(
                    todo@[k].1,
                ),
    {
        let mut todo: Vec<(i64, i64)> = Vec::new();
        let mut seen: HashSet<u128> = HashSet::new();
        let mut i: usize = 0;
        while i < self.coordinates.len()
            invariant
                1 <= level <= TOP_LEVEL,
                i <= self.coordinates@.len(),
                todo@.no_duplicates(),
                forall|k: int|
                    0 <= k < todo@.len() ==> seen@.contains(
                        tile_key((#[trigger] todo@[k]).0, todo@[k].1),
                    ),
                forall|key: u128|
                    seen@.contains(key) ==> exists|k: int|
                        0 <= k < todo@.len() && tile_key((#[trigger] todo@[k]).0, todo@[k].1)
                            == key,
                forall|k: int|
                    0 <= k < todo@.len() ==> covers(
                        self.coordinates@,
                        i as int,
                        level,
                        #[trigger] todo@[k],
                    ),
                forall|j: int|
                    0 <= j < i ==> todo@.contains(coarsened(#[trigger] self.coordinates@[j], level)),
                forall|k: int|
                    0 <= k < todo@.len() ==> has_children((#[trigger] todo@[k]).0) && has_children(
                        todo@[k].1,
                    ),
            decreases self.coordinates@.len() - i,
        {
            let c = self.coordinates[i];
            let x: i64 = c.0 >> level;
            let y: i64 = c.1 >> level;
            proof {
                lemma_child_of_parent(c, level);
            }
            let key = key_of(x, y);
            let ghost before = todo@;
            if seen.insert(key) {
                todo.push((x, y));
                proof {
                    assert forall|a: int, b: int|
                        0 <= a < todo@.len() && 0 <= b < todo@.len() && a != b implies todo@[a]
                        != todo@[b] by {
                        if a == before.len() {
                            assert(seen@.contains(tile_key(todo@[b].0, todo@[b].1)));
                        }
                        if b == before.len() {
                            assert(seen@.contains(tile_key(todo@[a].0, todo@[a].1)));
                        }
                    }
                    assert(todo@[before.len() as int] == (x, y));
                    assert forall|j: int| 0 <= j < i + 1 implies todo@.contains(
                        coarsened(#[trigger] self.coordinates@[j], level),
                    ) by {
                        if j < i {
                            let k = choose|k: int|
                                0 <= k < before.len() && before[k] == coarsened(
                                    self.coordinates@[j],
                                    level,
                                );
                            assert(todo@[k] == before[k]);
                        }
                    }
                }
            } else {
                proof {
                    let k = choose|k: int|
                        0 <= k < todo@.len() && tile_key((#[trigger] todo@[k]).0, todo@[k].1)
                            == key;
                    lemma_tile_key_injective(todo@[k].0, todo@[k].1, x, y);
                    assert(todo@[k] == (x, y));
                }
            }
            i += 1;
        }
        proof {
            assert forall|c: (i64, i64)|
                todo@.contains(c) <==> covers(
                    self.touched(),
                    self.touched().len() as int,
                    level,
                    c,
                ) by {
                if todo@.contains(c) {
                    let k = choose|k: int| 0 <= k < todo@.len() && todo@[k] == c;
                    assert(covers(self.coordinates@, i as int, level, todo@[k]));
                }
            }
        }
        todo
    }

    /// Puts the tiles of a listing of the map's stores into the map,
    /// directory by directory and file by file, each at the column that
    /// its directory's name writes and the row that the stem of its own
    /// name writes. The first name that writes no coordinate ends the
    /// loading with an error; what was put in before stays.
    pub fn load(&mut self, found: Vec<RawColumn>) -> (loaded: Result<(), Error>)
        requires
            old(self).wf(),
        ensures
            final(self).wf(),
            final(self).spec_name() == old(self).spec_name(),
            final(self)@ == load_columns(old(self)@, found@).0,
            forall|c: (i64, i64)| old(self)@.contains_key(c) ==> final(self)@.contains_key(c),
            match loaded {
                Ok(()) => load_columns(old(self)@, found@).1,
                Err(Error::Coordinate) => !load_columns(old(self)@, found@).1,
                Err(_) => false,
            },
    {
        let ghost listing = found@;
        let ghost start = self@;
        for column in columns: found
            invariant
                columns.seq() == listing,
                listing == found@,
                start == old(self)@,
                self.wf(),
                self.spec_name() == old(self).spec_name(),
                forall|c: (i64, i64)| start.contains_key(c) ==> self@.contains_key(c),
                load_columns(start, listing.subrange(0, columns.index() as int)) == (self@, true),
        {
            let ghost at = columns.index() as int;
            let ghost base = self@;
            assert(listing[at] == column);
            assert(listing.subrange(0, at + 1).drop_last() =~= listing.subrange(0, at));
            assert(listing.subrange(0, at + 1).last() == listing[at]);
            let x = match parse_coordinate(column.name.as_str()) {
                Ok(x) => x,
                Err(_) => {
                    proof {
                        lemma_load_columns_stuck(start, listing, at + 1);
                    }
                    return Err(Error::Coordinate);
                },
            };
            let ghost stores = column.files@;
            for file in files: column.files
                invariant
                    files.seq() == stores,
                    listing == found@,
                    start == old(self)@,
                    self.wf(),
                    self.spec_name() == old(self).spec_name(),
                    forall|c: (i64, i64)| start.contains_key(c) ==> self@.contains_key(c),
                    load_files(base, x, stores.subrange(0, files.index() as int)) == (self@, true),
                    listing[at].files@ == stores,
                    0 <= at < listing.len(),
                    load_columns(start, listing.subrange(0, at)) == (base, true),
                    parsed_coordinate(listing[at].name@) == Some(x),
            {
                let ghost j = files.index() as int;
                assert(stores[j] == file);
                assert(stores.subrange(0, j + 1).drop_last() =~= stores.subrange(0, j));
                assert(stores.subrange(0, j + 1).last() == stores[j]);
                let y = match parse_file_name(file.name.as_str()) {
                    Ok(y) => y,
                    Err(_) => {
                        proof {
                            lemma_load_files_stuck(base, x, stores, j + 1);
                            assert(listing.subrange(0, at + 1).drop_last() =~= listing.subrange(
                                0,
                                at,
                            ));
                            assert(listing.subrange(0, at + 1).last() == listing[at]);
                            lemma_load_columns_stuck(start, listing, at + 1);
                        }
                        return Err(Error::Coordinate);
                    },
                };
                self.insert(x, y, file.tile);
            }
            proof {
                assert(stores.subrange(0, stores.len() as int) =~= stores);
            }
        }
        assert(listing.subrange(0, listing.len() as int) =~= listing);
        Ok(())
    }
}

} // verus!
