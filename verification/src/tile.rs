//! One tile of the density map: a 1024x1024 matrix of bits, one per cell,
//! packed eight to a byte in a memory-mapped store.
//!
//! Cell `(x, y)` has index `y * 1024 + x`. Cell `i` is bit `i & 7` of byte
//! `i >> 3`. A bit is set by OR and never cleared.

use vstd::prelude::*;
use vstd::arithmetic::div_mod::lemma_fundamental_div_mod_converse;
use memmap::MmapMut;
use crate::color::{lemma_decode_encode_extremes, LINEAR_ONE};
use crate::error::Error;
use crate::png_layout::decodable;
use crate::image::{decoded, decoded_file, encoded, in_range, loaded_file, png_file, Image};

verus! {

/// Side of a tile, in cells.
pub const TILE_SIDE: u32 = 1024;

/// Cells of a tile.
pub const TILE_CELLS: usize = 1_048_576;

/// Bytes of a tile's store.
pub const TILE_BYTES: usize = 131_072;

/// The writable memory-mapped buffer of the `memmap` crate. Nothing inside
/// it is visible to the proofs; what it holds goes by [`mapped_bytes`].
#[verifier::external_type_specification]
#[verifier::external_body]
pub struct ExMmapMut(MmapMut);

/// The bytes that a mapped buffer holds, in order. A buffer is taken to
/// change only through the one that holds it: a file mapped into it is
/// written by this process alone, other processes read at most.
pub uninterp spec fn mapped_bytes(map: MmapMut) -> Seq<u8>;

/// The length of the buffer, by `MmapMut::deref` and the slice's `len`:
/// the number of bytes that the buffer holds.
#[verifier::external_body]
fn mapped_len(map: &MmapMut) -> (len: usize)
    ensures
        len == mapped_bytes(*map).len(),
{
    map.len()
}

/// Reads one byte of the buffer, by `MmapMut::deref` and the slice's index:
/// the byte at that place. An index past the end is left out, as the slice
/// would panic.
#[verifier::external_body]
fn mapped_get(map: &MmapMut, index: usize) -> (byte: u8)
    requires
        index < mapped_bytes(*map).len(),
    ensures
        byte == mapped_bytes(*map)[index as int],
{
    map[index]
}

/// Writes one byte of the buffer, by `MmapMut::deref_mut` and the slice's
/// index: that byte changes and no other, and the length stays. An index
/// past the end is left out, as the slice would panic; inside the buffer
/// the write does not unwind.
#[verifier::external_body]
fn mapped_put(map: &mut MmapMut, index: usize, byte: u8)
    requires
        index < mapped_bytes(*old(map)).len(),
    ensures
        mapped_bytes(*final(map)) == mapped_bytes(*old(map)).update(index as int, byte),
    no_unwind
{
    map[index] = byte;
}

/// Whether bit `bit` of `byte` is set.
pub open spec fn bit_is_set(byte: u8, bit: u8) -> bool {
    byte & (1u8 << bit) != 0
}

/// The index of cell `(x, y)`.
pub open spec fn cell_index(x: int, y: int) -> int {
    y * 1024 + x
}

/// The cells that a store's bytes hold: cell `i` is bit `i % 8` of byte
/// `i / 8`.
pub open spec fn cells_of(bytes: Seq<u8>) -> Seq<bool> {
    Seq::new(bytes.len() * 8, |i: int| bit_is_set(bytes[i / 8], (i % 8) as u8))
}

/// The level-0 raster of a cell matrix: full intensity where the cell is
/// set, black elsewhere.
pub open spec fn rendered(cells: Seq<bool>) -> Seq<u32> {
    Seq::new(
        cells.len(),
        |i: int|
            if cells[i] {
                LINEAR_ONE
            } else {
                0u32
            },
    )
}

/// A level-0 raster survives its display codes: encoded and decoded again,
/// a set cell is full intensity and every other cell black, as before.
pub proof fn lemma_rendered_survives_codes(cells: Seq<bool>)
    ensures
        decoded(encoded(rendered(cells))) == rendered(cells),
        in_range(rendered(cells)),
{
    lemma_decode_encode_extremes();
    assert(decoded(encoded(rendered(cells))) =~= rendered(cells));
}

/// Where the codec reads a tile's saved raster back as it was written, the
/// file loads as the tile's level-0 raster: full intensity where a cell is
/// set, black elsewhere. That the codec does so is no part of what is
/// proved; [`Image::reads_back`] tests it of a given file.
pub proof fn lemma_saved_tile_loads_back(cells: Seq<bool>, file: Seq<u8>)
    requires
        cells.len() == TILE_CELLS,
        png_file(1024, 1024, encoded(rendered(cells))) == Some(file),
        decoded_file(file) == Some((1024u32, 1024u32, encoded(rendered(cells)))),
    ensures
        loaded_file(file) == Some(rendered(cells)),
{
    lemma_rendered_survives_codes(cells);
}

/// A tile: which cells of a 1024x1024 region were ever observed.
pub struct Tile {
    map: MmapMut,
}

impl View for Tile {
    type V = Seq<bool>;

    /// The cells, by index.
    open spec fn view(&self) -> Seq<bool> {
        cells_of(self.bytes())
    }
}

proof fn lemma_or_sets_one_bit(byte: u8, bit: u8, other: u8)
    requires
        bit < 8,
        other < 8,
    ensures
        bit_is_set(byte | (1u8 << bit), other) == (other == bit || bit_is_set(byte, other)),
{
    assert((byte | (1u8 << bit)) & (1u8 << other) != 0 <==> (other == bit || byte & (1u8 << other)
        != 0)) by (bit_vector)
        requires
            bit < 8,
            other < 8,
    ;
}

impl Tile {
    /// The bytes of the store.
    pub closed spec fn bytes(&self) -> Seq<u8> {
        mapped_bytes(self.map)
    }

    /// Every tile's store has [`TILE_BYTES`] bytes.
    #[verifier::type_invariant]
    pub open spec fn wf(&self) -> bool {
        self.bytes().len() == TILE_BYTES
    }

    /// Takes a mapped store as a tile. A store that does not have
    /// [`TILE_BYTES`] bytes is refused.
    pub fn load(map: MmapMut) -> (tile: Option<Tile>)
        ensures
            match tile {
                Some(t) => t.wf() && t.bytes() == mapped_bytes(map),
                None => mapped_bytes(map).len() != TILE_BYTES,
            },
    {
        if mapped_len(&map) != TILE_BYTES {
            return None;
        }
        Some(Tile { map })
    }

    /// Whether cell `(x, y)` is set.
    pub fn get(&self, x: u32, y: u32) -> (set: bool)
        requires
            x < TILE_SIDE,
            y < TILE_SIDE,
        ensures
            set == self@[cell_index(x as int, y as int)],
    {
        proof {
            use_type_invariant(self);
        }
        let index: u32 = y * 1024 + x;
        let byte_index: u32 = index >> 3;
        let bit_index: u32 = index & 7;
        assert(index >> 3 == index / 8 && index & 7 == index % 8) by (bit_vector);
        let byte = mapped_get(&self.map, byte_index as usize);
        byte & (1u8 << (bit_index as u8)) != 0
    }

    /// Sets cell `(x, y)`. Every other cell stays as it is; to set a cell
    /// twice is to set it once.
    pub fn set(&mut self, x: u32, y: u32)
        requires
            x < TILE_SIDE,
            y < TILE_SIDE,
        ensures
            final(self).wf(),
            final(self)@ == old(self)@.update(cell_index(x as int, y as int), true),
            final(self).bytes() == old(self).bytes().update(
                cell_index(x as int, y as int) / 8,
                old(self).bytes()[cell_index(x as int, y as int) / 8] | (1u8 << ((cell_index(
                    x as int,
                    y as int,
                ) % 8) as u8)),
            ),
    {
        proof {
            use_type_invariant(&*self);
        }
        let index: u32 = y * 1024 + x;
        let byte_index: u32 = index >> 3;
        let bit_index: u32 = index & 7;
        assert(index >> 3 == index / 8 && index & 7 == index % 8) by (bit_vector);
        let byte = mapped_get(&self.map, byte_index as usize);
        let bit: u8 = bit_index as u8;
        mapped_put(&mut self.map, byte_index as usize, byte | (1u8 << bit));
        proof {
            let before = old(self).bytes();
            let after = self.bytes();
            assert forall|i: int| 0 <= i < TILE_CELLS implies #[trigger] cells_of(after)[i]
                == cells_of(before).update(index as int, true)[i] by {
                lemma_or_sets_one_bit(byte, bit, (i % 8) as u8);
            }
            assert(cells_of(after) =~= cells_of(before).update(index as int, true));
        }
    }

    /// The level-0 raster: full intensity where a cell is set, black
    /// elsewhere.
    pub fn to_image(&self) -> (image: Image)
        ensures
            image@ == rendered(self@),
    {
        proof {
            use_type_invariant(self);
        }
        let mut data: Vec<u32> = Vec::with_capacity(TILE_CELLS);
        let mut byte_index: usize = 0;
        while byte_index < TILE_BYTES
            invariant
                self.wf(),
                byte_index <= TILE_BYTES,
                data@.len() == byte_index * 8,
                forall|i: int| 0 <= i < data@.len() ==> data@[i] == rendered(self@)[i],
            decreases TILE_BYTES - byte_index,
        {
            let byte = mapped_get(&self.map, byte_index);
            let mut bit: u8 = 0;
            while bit < 8
                invariant
                    self.wf(),
                    byte_index < TILE_BYTES,
                    byte == self.bytes()[byte_index as int],
                    bit <= 8,
                    data@.len() == byte_index * 8 + bit,
                    forall|i: int| 0 <= i < data@.len() ==> data@[i] == rendered(self@)[i],
                decreases 8 - bit,
            {
                proof {
                    lemma_fundamental_div_mod_converse(
                        byte_index * 8 + bit,
                        8,
                        byte_index as int,
                        bit as int,
                    );
                }
                if byte & (1u8 << bit) == 0 {
                    data.push(0);
                } else {
                    data.push(LINEAR_ONE);
                }
                bit += 1;
            }
            byte_index += 1;
        }
        assert(data@ =~= rendered(self@));
        Image::from_linear(data)
    }

    /// The level-0 raster as a PNG file. The tile is saved wherever the
    /// encoder writes a file for the raster's codes.
    pub fn save(&self) -> (saved: Result<Vec<u8>, Error>)
        ensures
            match saved {
                Ok(file) => png_file(1024, 1024, encoded(rendered(self@))) == Some(file@)
                    && decodable(file@),
                Err(Error::Io(_)) => png_file(1024, 1024, encoded(rendered(self@))) is None,
                Err(_) => false,
            },
    {
        proof {
            use_type_invariant(self);
        }
        self.to_image().save()
    }
}

} // verus!
