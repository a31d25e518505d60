//! Rasters of linear light, their 2x2 downsampling and their composition
//! from four children.

use vstd::prelude::*;
use vstd::arithmetic::div_mod::lemma_fundamental_div_mod_converse;
use crate::color::{
    decode_srgb,
    encode_srgb,
    lemma_decode_range,
    linear_to_srgb,
    srgb_to_linear,
    LINEAR_ONE,
};
use crate::error::Error;
use crate::png_layout::{
    check_layout,
    decodable,
    lemma_saved_is_decodable,
    saved_layout,
    well_laid,
};

verus! {

/// Side of a raster, in pixels.
pub const IMAGE_SIDE: usize = 1024;

/// Pixels of a raster.
pub const IMAGE_PIXELS: usize = 1_048_576;

/// Side of a half-scaled raster, which fills one quadrant of a full one.
pub const QUADRANT_SIDE: usize = 512;

/// Pixels of a half-scaled raster.
pub const QUADRANT_PIXELS: usize = 262_144;

/// A square raster of linear light, row by row. A full raster has
/// [`IMAGE_PIXELS`] pixels, a half-scaled one [`QUADRANT_PIXELS`].
pub struct Image {
    data: Vec<u32>,
}

impl View for Image {
    type V = Seq<u32>;

    closed spec fn view(&self) -> Seq<u32> {
        self.data@
    }
}

/// A decoded grayscale raster: its size and its sRGB samples, row by row.
pub struct Luma {
    pub width: u32,
    pub height: u32,
    pub samples: Vec<u8>,
}

/// What the raster codec decodes from the bytes of a PNG file: width, height
/// and 8-bit grayscale samples, or nothing where it rejects the file.
pub uninterp spec fn png_luma(file: Seq<u8>) -> Option<(u32, u32, Seq<u8>)>;

/// The bytes of the PNG file that the raster codec writes for an 8-bit
/// grayscale raster of the given width and height, or nothing where it
/// fails to write one.
pub uninterp spec fn png_file(width: u32, height: u32, samples: Seq<u8>) -> Option<Seq<u8>>;

/// Decodes a PNG file held in memory to 8-bit grayscale, by
/// `image::load_from_memory_with_format` and `DynamicImage::to_luma`, and
/// takes the raster apart by `ImageBuffer::width`, `height` and `into_raw`.
/// The contract claims only that the outcome is a function of the file's
/// bytes, named [`png_luma`]; the codec's error comes back as it is. Only a
/// file whose layout was read is handed in: one whose header gives the
/// size of a level raster and a pixel format of PNG, without a second
/// header and without a transparency chunk behind the first data chunk.
/// On other files the decoder allocates by what the header says, or
/// slices a row past what it allocated.
#[verifier::external_body]
fn decode_png(file: &Vec<u8>) -> (decoded: Result<Luma, image::ImageError>)
    requires
        decodable(file@),
    ensures
        match decoded {
            Ok(luma) => png_luma(file@) == Some((luma.width, luma.height, luma.samples@)),
            Err(_) => png_luma(file@) is None,
        },
{
    match image::load_from_memory_with_format(file, image::ImageFormat::PNG) {
        Ok(decoded) => {
            let gray = decoded.to_luma();
            Ok(Luma { width: gray.width(), height: gray.height(), samples: gray.into_raw() })
        },
        Err(e) => Err(e),
    }
}

/// Encodes 8-bit grayscale samples as a PNG file in memory, by
/// `image::png::PNGEncoder::encode`. The contract claims that the bytes
/// written, and whether any are, are a function of the size and the
/// samples, named [`png_file`]: the encoder writes to memory and reads
/// nothing else. What it writes is the signature, a header of the given
/// size for gray samples of eight bits, the compressed rows in one data
/// chunk, and an empty end chunk. Whether the compressor succeeds is not
/// claimed. A width of zero is left out, as the encoder would split the
/// samples into rows of no bytes, and so is a size that the samples do not
/// fill, which the encoder refuses.
#[verifier::external_body]
fn encode_png(samples: &Vec<u8>, width: u32, height: u32) -> (file: Result<
    Vec<u8>,
    std::io::Error,
>)
    requires
        width > 0,
        samples@.len() == width * height,
    ensures
        match file {
            Ok(bytes) => png_file(width, height, samples@) == Some(bytes@) && saved_layout(
                bytes@,
                width,
                height,
            ),
            Err(_) => png_file(width, height, samples@) is None,
        },
{
    let mut bytes: Vec<u8> = Vec::new();
    match image::png::PNGEncoder::new(&mut bytes).encode(
        samples,
        width,
        height,
        image::ColorType::Gray(8),
    ) {
        Ok(()) => Ok(bytes),
        Err(e) => Err(e),
    }
}

/// A raster of `len` black pixels.
pub open spec fn black(len: nat) -> Seq<u32> {
    Seq::new(len, |i: int| 0u32)
}

/// The average in linear light of the 2x2 block of sRGB samples whose
/// top-left corner is sample `corner` of a raster [`IMAGE_SIDE`] wide.
pub open spec fn block_average(samples: Seq<u8>, corner: int) -> u32 {
    ((srgb_to_linear(samples[corner]) + srgb_to_linear(samples[corner + 1]) + srgb_to_linear(
        samples[corner + 1024],
    ) + srgb_to_linear(samples[corner + 1025])) / 4) as u32
}

/// The corner, in a full raster, of the block that pixel `j` of the
/// half-scaled raster averages.
pub open spec fn block_corner(j: int) -> int {
    (j / 512) * 2048 + (j % 512) * 2
}

/// A full raster of sRGB samples scaled to half its side: each pixel is the
/// average in linear light of one 2x2 block, no two blocks overlapping.
pub open spec fn half_scaled(samples: Seq<u8>) -> Seq<u32> {
    Seq::new(QUADRANT_PIXELS as nat, |j: int| block_average(samples, block_corner(j)))
}

/// Whether pixel `p` of a full raster lies in the 512x512 window whose
/// top-left corner is pixel `offset`.
pub open spec fn in_window(p: int, offset: int) -> bool {
    p >= offset && (p - offset) % 1024 < 512 && (p - offset) / 1024 < 512
}

/// The pixel of a half-scaled raster that lands on pixel `p` when the raster
/// is pasted at `offset`.
pub open spec fn window_source(p: int, offset: int) -> int {
    ((p - offset) / 1024) * 512 + (p - offset) % 1024
}

/// `canvas` with the half-scaled raster `piece` pasted over the window at
/// `offset`.
pub open spec fn pasted(canvas: Seq<u32>, piece: Seq<u32>, offset: int) -> Seq<u32> {
    Seq::new(
        canvas.len(),
        |p: int|
            if in_window(p, offset) {
                piece[window_source(p, offset)]
            } else {
                canvas[p]
            },
    )
}

/// The linear light of sRGB samples, sample by sample.
pub open spec fn decoded(samples: Seq<u8>) -> Seq<u32> {
    Seq::new(samples.len(), |i: int| srgb_to_linear(samples[i]))
}

/// Whether a decoded raster has the size of a level raster.
pub open spec fn full_size(width: u32, height: u32, samples: Seq<u8>) -> bool {
    width == 1024 && height == 1024 && samples.len() == IMAGE_PIXELS
}

/// What a file decodes to: the codec's raster where the file is well laid
/// out and its header gives the size of a level raster, else nothing.
pub open spec fn decoded_file(file: Seq<u8>) -> Option<(u32, u32, Seq<u8>)> {
    if decodable(file) {
        png_luma(file)
    } else {
        None
    }
}

/// The half-scaled raster that a PNG file yields: none where the file is
/// not decoded or the raster in it is not of full size.
pub open spec fn scaled_file(file: Seq<u8>) -> Option<Seq<u32>> {
    match decoded_file(file) {
        Some((width, height, samples)) => if full_size(width, height, samples) {
            Some(half_scaled(samples))
        } else {
            None
        },
        None => None,
    }
}

/// The full raster of linear light that a PNG file yields: none where the
/// file is not decoded or the raster in it is not of full size.
pub open spec fn loaded_file(file: Seq<u8>) -> Option<Seq<u32>> {
    match decoded_file(file) {
        Some((width, height, samples)) => if full_size(width, height, samples) {
            Some(decoded(samples))
        } else {
            None
        },
        None => None,
    }
}

/// Whether a file is refused for its size: it is well laid out, but its
/// header, or the raster that the codec decodes from it, is not of the
/// size of a level raster.
pub open spec fn wrong_size(file: Seq<u8>) -> bool {
    well_laid(file) && (!decodable(file) || (png_luma(file) matches Some((width, height, samples))
        && !full_size(width, height, samples)))
}

/// The quadrant that a child's file contributes: none where the file is
/// missing or yields no half-scaled raster.
pub open spec fn child_quadrant(file: Option<Vec<u8>>) -> Option<Seq<u32>> {
    match file {
        Some(bytes) => scaled_file(bytes@),
        None => None,
    }
}

/// The quadrant that an optional half-scaled raster contributes.
pub open spec fn quadrant_of(piece: Option<Image>) -> Option<Seq<u32>> {
    match piece {
        Some(image) => Some(image@),
        None => None,
    }
}

/// The quadrant of a full raster that holds pixel `p`: `0` top left, `1` top
/// right, `2` bottom left, `3` bottom right.
pub open spec fn quadrant_index(p: int) -> int {
    (if p / 1024 < 512 {
        0int
    } else {
        2int
    }) + (if p % 1024 < 512 {
        0int
    } else {
        1int
    })
}

/// The pixel of its quadrant that pixel `p` of a full raster is.
pub open spec fn quadrant_pixel(p: int) -> int {
    ((p / 1024) % 512) * 512 + (p % 1024) % 512
}

/// The full raster made of four quadrants, a missing one being black.
pub open spec fn composed(
    top_left: Option<Seq<u32>>,
    top_right: Option<Seq<u32>>,
    bottom_left: Option<Seq<u32>>,
    bottom_right: Option<Seq<u32>>,
) -> Seq<u32> {
    Seq::new(
        IMAGE_PIXELS as nat,
        |p: int|
            {
                let quadrant = if quadrant_index(p) == 0 {
                    top_left
                } else if quadrant_index(p) == 1 {
                    top_right
                } else if quadrant_index(p) == 2 {
                    bottom_left
                } else {
                    bottom_right
                };
                match quadrant {
                    Some(piece) => piece[quadrant_pixel(p)],
                    None => 0u32,
                }
            },
    )
}

/// The first pixel of quadrant `k` in a full raster.
pub open spec fn quadrant_offset(k: int) -> int {
    (k / 2) * 524288 + (k % 2) * 512
}

/// The window pasted at the first pixel of a quadrant is that quadrant, and
/// the pasted raster's pixels land in order.
pub proof fn lemma_window(p: int, k: int)
    requires
        0 <= p < IMAGE_PIXELS,
        0 <= k < 4,
    ensures
        in_window(p, quadrant_offset(k)) == (quadrant_index(p) == k),
        in_window(p, quadrant_offset(k)) ==> window_source(p, quadrant_offset(k))
            == quadrant_pixel(p),
        0 <= quadrant_pixel(p) < QUADRANT_PIXELS,
{
    let y = p / 1024;
    let x = p % 1024;
    let right: int = if x < 512 {
        0
    } else {
        1
    };
    let low: int = if y < 512 {
        0
    } else {
        1
    };
    let ox = (k % 2) * 512;
    let oy = (k / 2) * 512;
    let d = p - quadrant_offset(k);
    assert(quadrant_offset(k) == oy * 1024 + ox);
    assert(quadrant_index(p) == 2 * low + right);
    lemma_fundamental_div_mod_converse(x, 512, right, x - right * 512);
    lemma_fundamental_div_mod_converse(y, 512, low, y - low * 512);
    if k % 2 == right && k / 2 == low {
        lemma_fundamental_div_mod_converse(d, 1024, y - oy, x - ox);
    } else if d >= 0 {
        if x >= ox {
            lemma_fundamental_div_mod_converse(d, 1024, y - oy, x - ox);
        } else {
            lemma_fundamental_div_mod_converse(d, 1024, y - oy - 1, x - ox + 1024);
        }
    }
}

/// A raster of `len` pixels of full intensity.
pub open spec fn saturated(len: nat) -> Seq<u32> {
    Seq::new(len, |i: int| LINEAR_ONE)
}

/// Whether every pixel lies between black and full intensity.
pub open spec fn in_range(pixels: Seq<u32>) -> bool {
    forall|i: int| 0 <= i < pixels.len() ==> #[trigger] pixels[i] <= LINEAR_ONE
}

/// Whether a quadrant, if there is one, has the size of a half-scaled
/// raster and every pixel in range.
pub open spec fn quadrant_in_range(piece: Option<Seq<u32>>) -> bool {
    piece matches Some(pixels) ==> pixels.len() == QUADRANT_PIXELS && in_range(pixels)
}

/// The block that a pixel of the half-scaled raster averages lies inside
/// the full raster.
pub proof fn lemma_block_corner(j: int)
    requires
        0 <= j < QUADRANT_PIXELS,
    ensures
        0 <= block_corner(j),
        block_corner(j) + 1025 < IMAGE_PIXELS,
{
}

/// Downsampling stays in range: an average of decoded samples is never
/// above full intensity.
pub proof fn lemma_half_scaled_in_range(samples: Seq<u8>)
    ensures
        half_scaled(samples).len() == QUADRANT_PIXELS,
        in_range(half_scaled(samples)),
{
    assert forall|j: int| 0 <= j < QUADRANT_PIXELS implies #[trigger] half_scaled(samples)[j]
        <= LINEAR_ONE by {
        let corner = block_corner(j);
        lemma_decode_range(samples[corner]);
        lemma_decode_range(samples[corner + 1]);
        lemma_decode_range(samples[corner + 1024]);
        lemma_decode_range(samples[corner + 1025]);
    }
}

/// A black raster scales to a black raster.
pub proof fn lemma_half_scaled_black(samples: Seq<u8>)
    requires
        samples.len() == IMAGE_PIXELS,
        forall|i: int| 0 <= i < samples.len() ==> samples[i] == 0,
    ensures
        half_scaled(samples) == black(QUADRANT_PIXELS as nat),
{
    lemma_decode_range(0);
    assert forall|j: int| 0 <= j < QUADRANT_PIXELS implies #[trigger] half_scaled(samples)[j]
        == 0 by {
        lemma_block_corner(j);
    }
    assert(half_scaled(samples) =~= black(QUADRANT_PIXELS as nat));
}

/// A fully saturated raster scales to a fully saturated raster.
pub proof fn lemma_half_scaled_saturated(samples: Seq<u8>)
    requires
        samples.len() == IMAGE_PIXELS,
        forall|i: int| 0 <= i < samples.len() ==> samples[i] == 255,
    ensures
        half_scaled(samples) == saturated(QUADRANT_PIXELS as nat),
{
    lemma_decode_range(255);
    assert forall|j: int| 0 <= j < QUADRANT_PIXELS implies #[trigger] half_scaled(samples)[j]
        == LINEAR_ONE by {
        lemma_block_corner(j);
    }
    assert(half_scaled(samples) =~= saturated(QUADRANT_PIXELS as nat));
}

/// Composition stays in range, whatever children are missing.
pub proof fn lemma_composed_in_range(
    top_left: Option<Seq<u32>>,
    top_right: Option<Seq<u32>>,
    bottom_left: Option<Seq<u32>>,
    bottom_right: Option<Seq<u32>>,
)
    requires
        quadrant_in_range(top_left),
        quadrant_in_range(top_right),
        quadrant_in_range(bottom_left),
        quadrant_in_range(bottom_right),
    ensures
        composed(top_left, top_right, bottom_left, bottom_right).len() == IMAGE_PIXELS,
        in_range(composed(top_left, top_right, bottom_left, bottom_right)),
{
    let whole = composed(top_left, top_right, bottom_left, bottom_right);
    assert forall|p: int| 0 <= p < IMAGE_PIXELS implies #[trigger] whole[p] <= LINEAR_ONE by {
        lemma_window(p, 0);
    }
}

/// Children that are black or missing compose to a black raster.
pub proof fn lemma_composed_black(
    top_left: Option<Seq<u32>>,
    top_right: Option<Seq<u32>>,
    bottom_left: Option<Seq<u32>>,
    bottom_right: Option<Seq<u32>>,
)
    requires
        top_left matches Some(piece) ==> piece == black(QUADRANT_PIXELS as nat),
        top_right matches Some(piece) ==> piece == black(QUADRANT_PIXELS as nat),
        bottom_left matches Some(piece) ==> piece == black(QUADRANT_PIXELS as nat),
        bottom_right matches Some(piece) ==> piece == black(QUADRANT_PIXELS as nat),
    ensures
        composed(top_left, top_right, bottom_left, bottom_right) == black(IMAGE_PIXELS as nat),
{
    let whole = composed(top_left, top_right, bottom_left, bottom_right);
    assert forall|p: int| 0 <= p < IMAGE_PIXELS implies #[trigger] whole[p] == 0 by {
        lemma_window(p, 0);
    }
    assert(whole =~= black(IMAGE_PIXELS as nat));
}

/// The four quadrants with `piece` at place `k` and nothing elsewhere.
pub open spec fn only_child(k: int, piece: Seq<u32>) -> Seq<Option<Seq<u32>>> {
    Seq::new(
        4,
        |i: int|
            if i == k {
                Some(piece)
            } else {
                None
            },
    )
}

/// One fully saturated child, the other three missing, compose to a raster
/// that is fully saturated in the child's quadrant and black elsewhere.
pub proof fn lemma_composed_single_saturated(k: int, p: int)
    requires
        0 <= k < 4,
        0 <= p < IMAGE_PIXELS,
    ensures
        ({
            let kids = only_child(k, saturated(QUADRANT_PIXELS as nat));
            composed(kids[0], kids[1], kids[2], kids[3])[p] == if quadrant_index(p) == k {
                LINEAR_ONE
            } else {
                0u32
            }
        }),
{
    lemma_window(p, k);
}

/// Whether a child's file, if it is there and holds a raster of full size,
/// holds one whose every sample is `code`.
pub open spec fn child_is_flat(file: Option<Vec<u8>>, code: u8) -> bool {
    file matches Some(bytes) ==> (decoded_file(bytes@) matches Some((width, height, samples))
        ==> full_size(width, height, samples) ==> forall|i: int|
        0 <= i < samples.len() ==> samples[i] == code)
}

/// Four children whose rasters are black compose to a black raster, and so
/// do children that are missing or yield no raster.
pub proof fn lemma_black_children(
    top_left: Option<Vec<u8>>,
    top_right: Option<Vec<u8>>,
    bottom_left: Option<Vec<u8>>,
    bottom_right: Option<Vec<u8>>,
)
    requires
        child_is_flat(top_left, 0),
        child_is_flat(top_right, 0),
        child_is_flat(bottom_left, 0),
        child_is_flat(bottom_right, 0),
    ensures
        composed(
            child_quadrant(top_left),
            child_quadrant(top_right),
            child_quadrant(bottom_left),
            child_quadrant(bottom_right),
        ) == black(IMAGE_PIXELS as nat),
{
    lemma_flat_child(top_left, 0);
    lemma_flat_child(top_right, 0);
    lemma_flat_child(bottom_left, 0);
    lemma_flat_child(bottom_right, 0);
    lemma_composed_black(
        child_quadrant(top_left),
        child_quadrant(top_right),
        child_quadrant(bottom_left),
        child_quadrant(bottom_right),
    );
}

proof fn lemma_flat_child(file: Option<Vec<u8>>, code: u8)
    requires
        child_is_flat(file, code),
        code == 0 || code == 255,
    ensures
        child_quadrant(file) matches Some(piece) ==> piece == if code == 0 {
            black(QUADRANT_PIXELS as nat)
        } else {
            saturated(QUADRANT_PIXELS as nat)
        },
{
    if let Some(bytes) = file {
        if let Some((width, height, samples)) = decoded_file(bytes@) {
            if full_size(width, height, samples) {
                if code == 0 {
                    lemma_half_scaled_black(samples);
                } else {
                    lemma_half_scaled_saturated(samples);
                }
            }
        }
    }
}

/// One child whose raster is fully saturated, the other three missing,
/// compose to a raster that is fully saturated in that child's quadrant
/// and black in the other three.
pub proof fn lemma_single_saturated_child(k: int, file: Vec<u8>, p: int)
    requires
        0 <= k < 4,
        0 <= p < IMAGE_PIXELS,
        child_is_flat(Some(file), 255),
        scaled_file(file@) is Some,
    ensures
        ({
            let kids = Seq::new(
                4,
                |i: int|
                    if i == k {
                        Some(file)
                    } else {
                        None::<Vec<u8>>
                    },
            );
            composed(
                child_quadrant(kids[0]),
                child_quadrant(kids[1]),
                child_quadrant(kids[2]),
                child_quadrant(kids[3]),
            )[p] == if quadrant_index(p) == k {
                LINEAR_ONE
            } else {
                0u32
            }
        }),
{
    lemma_flat_child(Some(file), 255);
    lemma_composed_single_saturated(k, p);
}

/// The sRGB codes of a raster, pixel by pixel.
pub open spec fn encoded(pixels: Seq<u32>) -> Seq<u8> {
    Seq::new(pixels.len(), |i: int| linear_to_srgb(pixels[i]))
}

impl Image {
    /// A full raster, all black.
    pub fn new() -> (image: Image)
        ensures
            image@ == black(IMAGE_PIXELS as nat),
    {
        let data: Vec<u32> = vec![0u32; IMAGE_PIXELS];
        assert(data@ =~= black(IMAGE_PIXELS as nat));
        Image { data }
    }

    /// The raster that holds the given pixels, row by row.
    pub fn from_linear(data: Vec<u32>) -> (image: Image)
        ensures
            image@ == data@,
    {
        Image { data }
    }

    /// The number of pixels.
    pub fn len(&self) -> (len: usize)
        ensures
            len == self@.len(),
    {
        self.data.len()
    }

    /// The linear light of pixel `index`.
    pub fn pixel(&self, index: usize) -> (value: u32)
        requires
            index < self@.len(),
        ensures
            value == self@[index as int],
    {
        self.data[index]
    }

    /// Scales a full raster of sRGB samples to half its side, averaging each
    /// 2x2 block in linear light.
    pub fn half_scale(samples: &Vec<u8>) -> (image: Image)
        requires
            samples@.len() == IMAGE_PIXELS,
        ensures
            image@ == half_scaled(samples@),
    {
        let mut data: Vec<u32> = Vec::with_capacity(QUADRANT_PIXELS);
        let mut y: usize = 0;
        while y < 512
            invariant
                samples@.len() == IMAGE_PIXELS,
                y <= 512,
                data@.len() == y * 512,
                forall|j: int| 0 <= j < data@.len() ==> data@[j] == half_scaled(samples@)[j],
            decreases 512 - y,
        {
            let row: usize = y * 2048;
            let mut x: usize = 0;
            while x < 512
                invariant
                    samples@.len() == IMAGE_PIXELS,
                    y < 512,
                    row == y * 2048,
                    x <= 512,
                    data@.len() == y * 512 + x,
                    forall|j: int| 0 <= j < data@.len() ==> data@[j] == half_scaled(samples@)[j],
                decreases 512 - x,
            {
                let i: usize = row + x * 2;
                let sum: u32 = decode_srgb(samples[i]) + decode_srgb(samples[i + 1]) + decode_srgb(
                    samples[i + 1024],
                ) + decode_srgb(samples[i + 1025]);
                proof {
                    let j = y * 512 + x;
                    lemma_fundamental_div_mod_converse(j, 512, y as int, x as int);
                    assert(block_corner(j as int) == i);
                }
                data.push(sum / 4);
                x += 1;
            }
            y += 1;
        }
        assert(data@ =~= half_scaled(samples@));
        Image { data }
    }

    /// Pastes the half-scaled raster `o` over the 512x512 window of this full
    /// raster whose top-left corner is pixel `offset`.
    pub fn copy_at_offset(&mut self, o: &Image, offset: usize)
        requires
            old(self)@.len() == IMAGE_PIXELS,
            o@.len() == QUADRANT_PIXELS,
            offset + 511 * 1024 + 512 <= IMAGE_PIXELS,
        ensures
            final(self)@ == pasted(old(self)@, o@, offset as int),
    {
        let ghost before = self.data@;
        let mut y: usize = 0;
        while y < 512
            invariant
                before.len() == IMAGE_PIXELS,
                o@.len() == QUADRANT_PIXELS,
                offset + 511 * 1024 + 512 <= IMAGE_PIXELS,
                y <= 512,
                self.data@.len() == IMAGE_PIXELS,
                forall|p: int|
                    #![trigger self.data@[p]]
                    0 <= p < IMAGE_PIXELS ==> self.data@[p] == if in_window(p, offset as int) && (p
                        - offset) / 1024 < y {
                        o@[window_source(p, offset as int)]
                    } else {
                        before[p]
                    },
            decreases 512 - y,
        {
            let from: usize = y * 512;
            let to: usize = offset + y * 1024;
            let mut x: usize = 0;
            while x < 512
                invariant
                    before.len() == IMAGE_PIXELS,
                    o@.len() == QUADRANT_PIXELS,
                    offset + 511 * 1024 + 512 <= IMAGE_PIXELS,
                    y < 512,
                    from == y * 512,
                    to == offset + y * 1024,
                    x <= 512,
                    self.data@.len() == IMAGE_PIXELS,
                    forall|p: int|
                        #![trigger self.data@[p]]
                        0 <= p < IMAGE_PIXELS ==> self.data@[p] == if in_window(p, offset as int)
                            && ((p - offset) / 1024 < y || ((p - offset) / 1024 == y && (p
                            - offset) % 1024 < x)) {
                            o@[window_source(p, offset as int)]
                        } else {
                            before[p]
                        },
                decreases 512 - x,
            {
                let value: u32 = o.data[from + x];
                proof {
                    lemma_fundamental_div_mod_converse(to + x - offset, 1024, y as int, x as int);
                }
                self.data.set(to + x, value);
                x += 1;
            }
            assert forall|p: int| 0 <= p < IMAGE_PIXELS implies #[trigger] self.data@[p] == if in_window(
                p,
                offset as int,
            ) && (p - offset) / 1024 < y + 1 {
                o@[window_source(p, offset as int)]
            } else {
                before[p]
            } by {
                if in_window(p, offset as int) {
                    assert((p - offset) % 1024 < 512);
                }
            }
            y += 1;
        }
        assert(self.data@ =~= pasted(before, o@, offset as int));
    }

    /// The full raster made of four half-scaled ones, one per quadrant; a
    /// missing one leaves its quadrant black.
    pub fn compose(
        top_left: &Option<Image>,
        top_right: &Option<Image>,
        bottom_left: &Option<Image>,
        bottom_right: &Option<Image>,
    ) -> (image: Image)
        requires
            top_left matches Some(piece) ==> piece@.len() == QUADRANT_PIXELS,
            top_right matches Some(piece) ==> piece@.len() == QUADRANT_PIXELS,
            bottom_left matches Some(piece) ==> piece@.len() == QUADRANT_PIXELS,
            bottom_right matches Some(piece) ==> piece@.len() == QUADRANT_PIXELS,
        ensures
            image@ == composed(
                quadrant_of(*top_left),
                quadrant_of(*top_right),
                quadrant_of(*bottom_left),
                quadrant_of(*bottom_right),
            ),
    {
        let ghost tl = quadrant_of(*top_left);
        let ghost tr = quadrant_of(*top_right);
        let ghost bl = quadrant_of(*bottom_left);
        let ghost br = quadrant_of(*bottom_right);
        let mut image = Image::new();
        assert(image@ =~= composed(None, None, None, None));
        if let Some(piece) = top_left {
            image.copy_at_offset(piece, 0);
        }
        assert(image@ =~= composed(tl, None, None, None)) by {
            assert forall|p: int| 0 <= p < IMAGE_PIXELS implies in_window(p, 0) == (quadrant_index(
                p,
            ) == 0) && (in_window(p, 0) ==> window_source(p, 0) == quadrant_pixel(p)) by {
                lemma_window(p, 0);
            }
        }
        if let Some(piece) = top_right {
            image.copy_at_offset(piece, 512);
        }
        assert(image@ =~= composed(tl, tr, None, None)) by {
            assert forall|p: int| 0 <= p < IMAGE_PIXELS implies in_window(p, 512) == (
            quadrant_index(p) == 1) && (in_window(p, 512) ==> window_source(p, 512)
                == quadrant_pixel(p)) by {
                lemma_window(p, 1);
            }
        }
        if let Some(piece) = bottom_left {
            image.copy_at_offset(piece, 1024 * 512);
        }
        assert(image@ =~= composed(tl, tr, bl, None)) by {
            assert forall|p: int| 0 <= p < IMAGE_PIXELS implies in_window(p, 524288) == (
            quadrant_index(p) == 2) && (in_window(p, 524288) ==> window_source(p, 524288)
                == quadrant_pixel(p)) by {
                lemma_window(p, 2);
            }
        }
        if let Some(piece) = bottom_right {
            image.copy_at_offset(piece, 1024 * 512 + 512);
        }
        assert(image@ =~= composed(tl, tr, bl, br)) by {
            assert forall|p: int| 0 <= p < IMAGE_PIXELS implies in_window(p, 524800) == (
            quadrant_index(p) == 3) && (in_window(p, 524800) ==> window_source(p, 524800)
                == quadrant_pixel(p)) by {
                lemma_window(p, 3);
            }
        }
        image
    }

    /// Scales a decoded raster to half its side. A raster that is not of
    /// full size is refused.
    pub fn scale(luma: &Luma) -> (scaled: Result<Image, Error>)
        ensures
            match scaled {
                Ok(image) => full_size(luma.width, luma.height, luma.samples@) && image@
                    == half_scaled(luma.samples@),
                Err(Error::Dimension) => !full_size(luma.width, luma.height, luma.samples@),
                Err(_) => false,
            },
    {
        if luma.width != 1024 || luma.height != 1024 || luma.samples.len() != IMAGE_PIXELS {
            return Err(Error::Dimension);
        }
        Ok(Image::half_scale(&luma.samples))
    }

    /// Decodes a PNG file and scales the raster in it to half its side. The
    /// raster may be of any pixel format. The file's layout is read first;
    /// a file that is not well laid out is not handed to the codec.
    pub fn load_scaled(file: &Vec<u8>) -> (scaled: Result<Image, Error>)
        ensures
            match scaled {
                Ok(image) => scaled_file(file@) == Some(image@),
                Err(Error::Format) => !well_laid(file@),
                Err(Error::Dimension) => wrong_size(file@),
                Err(Error::Image(_)) => decodable(file@) && png_luma(file@) is None,
                Err(_) => false,
            },
    {
        match check_layout(file) {
            Ok(()) => {},
            Err(e) => {
                return Err(e);
            },
        }
        match decode_png(file) {
            Ok(luma) => Image::scale(&luma),
            Err(e) => Err(Error::Image(e)),
        }
    }

    /// Composes the raster of a tile from the PNG files of its four
    /// children at the next finer level. A child whose file is missing, is
    /// rejected by the codec or is not of full size leaves its quadrant
    /// black; the composition itself never fails.
    pub fn load_and_scale(
        top_left: &Option<Vec<u8>>,
        top_right: &Option<Vec<u8>>,
        bottom_left: &Option<Vec<u8>>,
        bottom_right: &Option<Vec<u8>>,
    ) -> (composition: Result<Image, Error>)
        ensures
            composition matches Ok(image) && image@ == composed(
                child_quadrant(*top_left),
                child_quadrant(*top_right),
                child_quadrant(*bottom_left),
                child_quadrant(*bottom_right),
            ),
    {
        let tl = Image::load_child(top_left);
        let tr = Image::load_child(top_right);
        let bl = Image::load_child(bottom_left);
        let br = Image::load_child(bottom_right);
        Ok(Image::compose(&tl, &tr, &bl, &br))
    }

    /// The half-scaled raster of one child, if its file is there and yields
    /// one.
    fn load_child(file: &Option<Vec<u8>>) -> (piece: Option<Image>)
        ensures
            quadrant_of(piece) == child_quadrant(*file),
            piece matches Some(image) ==> image@.len() == QUADRANT_PIXELS,
    {
        match file {
            Some(bytes) => match Image::load_scaled(bytes) {
                Ok(image) => Some(image),
                Err(_) => None,
            },
            None => None,
        }
    }

    /// Turns a decoded raster of full size into linear light.
    pub fn from_luma(luma: &Luma) -> (loaded: Result<Image, Error>)
        ensures
            match loaded {
                Ok(image) => full_size(luma.width, luma.height, luma.samples@) && image@
                    == decoded(luma.samples@),
                Err(Error::Dimension) => !full_size(luma.width, luma.height, luma.samples@),
                Err(_) => false,
            },
    {
        if luma.width != 1024 || luma.height != 1024 || luma.samples.len() != IMAGE_PIXELS {
            return Err(Error::Dimension);
        }
        let mut data: Vec<u32> = Vec::with_capacity(IMAGE_PIXELS);
        let mut i: usize = 0;
        while i < luma.samples.len()
            invariant
                i <= luma.samples@.len(),
                data@.len() == i,
                forall|k: int| 0 <= k < i ==> data@[k] == srgb_to_linear(luma.samples@[k]),
            decreases luma.samples@.len() - i,
        {
            data.push(decode_srgb(luma.samples[i]));
            i += 1;
        }
        assert(data@ =~= decoded(luma.samples@));
        Ok(Image { data })
    }

    /// Decodes a PNG file to a full raster of linear light. The file's
    /// layout is read first, as for [`Image::load_scaled`].
    pub fn load(file: &Vec<u8>) -> (loaded: Result<Image, Error>)
        ensures
            match loaded {
                Ok(image) => loaded_file(file@) == Some(image@),
                Err(Error::Format) => !well_laid(file@),
                Err(Error::Dimension) => wrong_size(file@),
                Err(Error::Image(_)) => decodable(file@) && png_luma(file@) is None,
                Err(_) => false,
            },
    {
        match check_layout(file) {
            Ok(()) => {},
            Err(e) => {
                return Err(e);
            },
        }
        match decode_png(file) {
            Ok(luma) => Image::from_luma(&luma),
            Err(e) => Err(Error::Image(e)),
        }
    }

    /// Encodes the raster as a PNG file of 8-bit sRGB grayscale. A raster
    /// that is not of full size is refused; a full one is saved wherever
    /// the encoder writes a file for its codes. What is saved is laid out
    /// so that [`Image::load`] hands it to the decoder.
    pub fn save(&self) -> (saved: Result<Vec<u8>, Error>)
        ensures
            match saved {
                Ok(file) => self@.len() == IMAGE_PIXELS && png_file(1024, 1024, encoded(self@))
                    == Some(file@) && decodable(file@),
                Err(Error::Dimension) => self@.len() != IMAGE_PIXELS,
                Err(Error::Io(_)) => self@.len() == IMAGE_PIXELS && png_file(
                    1024,
                    1024,
                    encoded(self@),
                ) is None,
                Err(_) => false,
            },
    {
        if self.data.len() != IMAGE_PIXELS {
            return Err(Error::Dimension);
        }
        let pixels = self.to_pixels();
        match encode_png(&pixels, 1024, 1024) {
            Ok(file) => {
                proof {
                    lemma_saved_is_decodable(file@);
                }
                Ok(file)
            },
            Err(e) => Err(Error::Io(e)),
        }
    }

    /// Whether the codec reads `file` back as this raster's codes: the
    /// file is well laid out, and what the codec decodes from it is a
    /// raster of full size with the codes of this raster's pixels.
    pub fn reads_back(&self, file: &Vec<u8>) -> (reads: bool)
        ensures
            reads == (decoded_file(file@) == Some((1024u32, 1024u32, encoded(self@)))),
    {
        match check_layout(file) {
            Ok(()) => {},
            Err(_) => {
                return false;
            },
        }
        let luma = match decode_png(file) {
            Ok(luma) => luma,
            Err(_) => {
                return false;
            },
        };
        let pixels = self.to_pixels();
        if luma.width != 1024 || luma.height != 1024 || luma.samples.len() != pixels.len() {
            return false;
        }
        let mut i: usize = 0;
        while i < pixels.len()
            invariant
                i <= pixels@.len(),
                luma.samples@.len() == pixels@.len(),
                pixels@ == encoded(self@),
                decodable(file@),
                png_luma(file@) == Some((luma.width, luma.height, luma.samples@)),
                forall|k: int| 0 <= k < i ==> luma.samples@[k] == pixels@[k],
            decreases pixels@.len() - i,
        {
            if luma.samples[i] != pixels[i] {
                return false;
            }
            i += 1;
        }
        assert(luma.samples@ =~= pixels@);
        true
    }

    /// The sRGB codes of the pixels, in order.
    pub fn to_pixels(&self) -> (pixels: Vec<u8>)
        ensures
            pixels@ == encoded(self@),
    {
        let mut pixels: Vec<u8> = Vec::with_capacity(self.data.len());
        let mut i: usize = 0;
        while i < self.data.len()
            invariant
                i <= self.data@.len(),
                pixels@.len() == i,
                forall|k: int| 0 <= k < i ==> pixels@[k] == linear_to_srgb(self.data@[k]),
            decreases self.data@.len() - i,
        {
            pixels.push(encode_srgb(self.data[i]));
            i += 1;
        }
        assert(pixels@ =~= encoded(self@));
        pixels
    }
}

} // verus!
