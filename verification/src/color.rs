//! The sRGB transfer function in fixed point.
//!
//! Display values are 8-bit sRGB codes. Linear light is held as an integer
//! number of 2^-24 steps, so that [`LINEAR_ONE`] stands for full intensity
//! and `0` for black. Averaging is done on these linear values; averaging the
//! codes themselves would darken every blended region.

use vstd::prelude::*;

verus! {

/// Full intensity in linear light.
pub const LINEAR_ONE: u32 = 16_777_216;

/// Linear light of each sRGB code: the transfer function
/// `c / 12.92` for `c <= 0.04045` and `((c + 0.055) / 1.055) ^ 2.4` above it,
/// taken at `c = code / 255`, scaled by [`LINEAR_ONE`] and rounded to nearest.
pub const DECODE_TABLE: [u32; 256] = [
    0, 5092, 10185, 15277, 20369, 25462, 30554, 35646,
    40739, 45831, 50923, 56146, 61682, 67524, 73676, 80144,
    86931, 94043, 101483, 109255, 117364, 125813, 134607, 143749,
    153244, 163095, 173306, 183880, 194821, 206133, 217819, 229883,
    242327, 255157, 268373, 281981, 295983, 310382, 325182, 340386,
    355996, 372016, 388449, 405298, 422565, 440255, 458369, 476910,
    495881, 515286, 535127, 555406, 576126, 597291, 618902, 640963,
    663476, 686443, 709868, 733752, 758099, 782910, 808189, 833938,
    860159, 886854, 914027, 941680, 969814, 998433, 1027538, 1057133,
    1087218, 1117798, 1148873, 1180447, 1212520, 1245097, 1278179, 1311767,
    1345865, 1380475, 1415598, 1451237, 1487394, 1524071, 1561270, 1598994,
    1637244, 1676023, 1715332, 1755173, 1795550, 1836463, 1877915, 1919907,
    1962442, 2005522, 2049149, 2093324, 2138049, 2183328, 2229161, 2275550,
    2322497, 2370005, 2418074, 2466708, 2515908, 2565675, 2616012, 2666920,
    2718402, 2770458, 2823092, 2876304, 2930097, 2984472, 3039432, 3094977,
    3151110, 3207832, 3265145, 3323052, 3381553, 3440650, 3500346, 3560641,
    3621538, 3683038, 3745144, 3807855, 3871176, 3935106, 3999648, 4064803,
    4130573, 4196960, 4263965, 4331589, 4399836, 4468706, 4538200, 4608321,
    4679069, 4750448, 4822457, 4895099, 4968376, 5042288, 5116838, 5192027,
    5267856, 5344328, 5421443, 5499204, 5577611, 5656667, 5736372, 5816729,
    5897738, 5979402, 6061722, 6144699, 6228335, 6312631, 6397589, 6483210,
    6569496, 6656448, 6744068, 6832357, 6921317, 7010948, 7101253, 7192233,
    7283889, 7376223, 7469237, 7562930, 7657306, 7752366, 7848110, 7944540,
    8041658, 8139465, 8237963, 8337152, 8437035, 8537612, 8638885, 8740855,
    8843524, 8946893, 9050964, 9155737, 9261215, 9367397, 9474287, 9581885,
    9690192, 9799210, 9908940, 10019383, 10130542, 10242416, 10355008, 10468318,
    10582349, 10697100, 10812575, 10928773, 11045697, 11163346, 11281724, 11400831,
    11520668, 11641236, 11762538, 11884573, 12007344, 12130852, 12255098, 12380082,
    12505807, 12632274, 12759484, 12887438, 13016137, 13145583, 13275776, 13406719,
    13538412, 13670857, 13804054, 13938006, 14072712, 14208175, 14344396, 14481375,
    14619114, 14757615, 14896878, 15036905, 15177696, 15319253, 15461578, 15604671,
    15748533, 15893166, 16038571, 16184750, 16331702, 16479430, 16627934, 16777216,
];

/// The least linear value that encodes to each sRGB code: the transfer
/// function taken half a code below it, at `c = (code - 0.5) / 255`, scaled by
/// [`LINEAR_ONE`] and rounded up. Code `0` has no lower neighbour and starts
/// at black.
pub const ENCODE_THRESHOLDS: [u32; 256] = [
    0, 2547, 7639, 12731, 17824, 22916, 28008, 33101,
    38193, 43285, 48378, 53491, 58876, 64565, 70561, 76871,
    83498, 90447, 97722, 105327, 113267, 121546, 130167, 139135,
    148453, 158125, 168156, 178548, 189305, 200431, 211930, 223804,
    236058, 248694, 261717, 275129, 288933, 303133, 317732, 332734,
    348140, 363955, 380181, 396822, 413880, 431358, 449259, 467586,
    486342, 505530, 525152, 545212, 565711, 586653, 608041, 629877,
    652163, 674903, 698099, 721753, 745868, 770447, 795492, 821005,
    846990, 873448, 900382, 927794, 955687, 984063, 1012925, 1042275,
    1072114, 1102447, 1133274, 1164598, 1196421, 1228746, 1261575, 1294910,
    1328753, 1363106, 1397972, 1433353, 1469251, 1505668, 1542606, 1580067,
    1618054, 1656568, 1695611, 1735186, 1775295, 1815940, 1857122, 1898844,
    1941107, 1983914, 2027267, 2071168, 2115618, 2160620, 2206175, 2252286,
    2298954, 2346181, 2393970, 2442321, 2491238, 2540721, 2590773, 2641395,
    2692590, 2744359, 2796704, 2849626, 2903129, 2957212, 3011879, 3067131,
    3122970, 3179398, 3236415, 3294025, 3352228, 3411027, 3470424, 3530419,
    3591015, 3652213, 3714016, 3776424, 3839440, 3903065, 3967301, 4032149,
    4097611, 4163690, 4230385, 4297700, 4365635, 4434193, 4503375, 4573182,
    4643617, 4714680, 4786374, 4858699, 4931659, 5005253, 5079484, 5154353,
    5229862, 5306012, 5382806, 5460243, 5538327, 5617058, 5696439, 5776469,
    5857152, 5938489, 6020480, 6103129, 6186435, 6270401, 6355028, 6440317,
    6526270, 6612889, 6700175, 6788129, 6876753, 6966049, 7056017, 7146659,
    7237977, 7329972, 7422645, 7515999, 7610034, 7704751, 7800153, 7896240,
    7993014, 8090476, 8188628, 8287471, 8387007, 8487237, 8588162, 8689783,
    8792103, 8895122, 8998841, 9103263, 9208388, 9314218, 9420754, 9527998,
    9635950, 9744612, 9853986, 9964073, 10074874, 10186390, 10298623, 10411574,
    10525244, 10639635, 10754748, 10870584, 10987145, 11104431, 11222445, 11341187,
    11460658, 11580861, 11701796, 11823464, 11945867, 12069007, 12192883, 12317498,
    12442853, 12568949, 12695787, 12823368, 12951695, 13080767, 13210587, 13341155,
    13472472, 13604541, 13737362, 13870936, 14005265, 14140350, 14276191, 14412791,
    14550150, 14688270, 14827152, 14966796, 15107205, 15248379, 15390320, 15533029,
    15676506, 15820754, 15965773, 16111564, 16258129, 16405469, 16553585, 16702478,
];

/// Linear light that the sRGB code `code` stands for.
pub open spec fn srgb_to_linear(code: u8) -> u32 {
    DECODE_TABLE[code as int]
}

/// The least linear value that is displayed as `code`.
pub open spec fn threshold(code: u8) -> u32 {
    ENCODE_THRESHOLDS[code as int]
}

/// The greatest code from `0` to `top` whose threshold does not exceed
/// `linear`.
pub open spec fn greatest_code(linear: u32, top: u8) -> u8
    decreases top,
{
    if top == 0 || threshold(top) <= linear {
        top
    } else {
        greatest_code(linear, (top - 1) as u8)
    }
}

/// The sRGB code that displays `linear`: the code whose decoded value lies
/// nearest in display space, which is the greatest code whose threshold
/// `linear` has reached. Values above [`LINEAR_ONE`] display as code `255`.
pub open spec fn linear_to_srgb(linear: u32) -> u8 {
    greatest_code(linear, 255)
}

/// A linear value, cut back to full intensity where it lies above.
pub open spec fn clamp_linear(linear: u32) -> u32 {
    if linear <= LINEAR_ONE {
        linear
    } else {
        LINEAR_ONE
    }
}

#[verifier::rlimit(40)]
proof fn lemma_table_step(code: u8)
    requires
        code < 255,
    ensures
        srgb_to_linear(code) < srgb_to_linear((code + 1) as u8),
        threshold(code) <= srgb_to_linear(code) < threshold((code + 1) as u8),
{
}

proof fn lemma_threshold_increasing(a: u8, b: u8)
    requires
        a <= b,
    ensures
        threshold(a) <= threshold(b),
    decreases b - a,
{
    if a < b {
        lemma_table_step((b - 1) as u8);
        lemma_threshold_increasing(a, (b - 1) as u8);
    }
}

proof fn lemma_greatest_code_is(linear: u32, code: u8, top: u8)
    requires
        code <= top,
        threshold(code) <= linear,
        code < 255 ==> linear < threshold((code + 1) as u8),
    ensures
        greatest_code(linear, top) == code,
    decreases top,
{
    if top > code {
        lemma_threshold_increasing((code + 1) as u8, top);
        lemma_greatest_code_is(linear, code, (top - 1) as u8);
    }
}

proof fn lemma_greatest_code_bracket(linear: u32, top: u8)
    ensures
        greatest_code(linear, top) <= top,
        threshold(greatest_code(linear, top)) <= linear,
        greatest_code(linear, top) < top ==> linear < threshold(
            (greatest_code(linear, top) + 1) as u8,
        ),
    decreases top,
{
    if !(top == 0 || threshold(top) <= linear) {
        lemma_greatest_code_bracket(linear, (top - 1) as u8);
    }
}

/// Decoding is strictly increasing: a greater code stands for more light.
pub proof fn lemma_decode_increasing(a: u8, b: u8)
    requires
        a < b,
    ensures
        srgb_to_linear(a) < srgb_to_linear(b),
    decreases b - a,
{
    lemma_table_step((b - 1) as u8);
    if a < b - 1 {
        lemma_decode_increasing(a, (b - 1) as u8);
    }
}

/// Decoding stays between black and full intensity, and reaches both.
pub proof fn lemma_decode_range(code: u8)
    ensures
        srgb_to_linear(code) <= LINEAR_ONE,
        srgb_to_linear(0) == 0,
        srgb_to_linear(255) == LINEAR_ONE,
{
    if code < 255 {
        lemma_decode_increasing(code, 255);
    }
}

/// Encoding undoes decoding: every code survives the trip through linear
/// light unchanged.
pub proof fn lemma_encode_decode(code: u8)
    ensures
        linear_to_srgb(srgb_to_linear(code)) == code,
{
    if code < 255 {
        lemma_table_step(code);
    }
    lemma_greatest_code_is(srgb_to_linear(code), code, 255);
}

/// Black and full intensity survive the trip through a display code exactly.
pub proof fn lemma_decode_encode_extremes()
    ensures
        srgb_to_linear(linear_to_srgb(0)) == 0,
        srgb_to_linear(linear_to_srgb(LINEAR_ONE)) == LINEAR_ONE,
{
    lemma_greatest_code_is(0, 0, 255);
    lemma_greatest_code_is(LINEAR_ONE, 255, 255);
}

/// The code of a linear value is the one whose threshold it has reached
/// without reaching the next.
pub proof fn lemma_encode_bracket(linear: u32)
    ensures
        threshold(linear_to_srgb(linear)) <= linear,
        linear_to_srgb(linear) < 255 ==> linear < threshold((linear_to_srgb(linear) + 1) as u8),
{
    lemma_greatest_code_bracket(linear, 255);
}

/// Encoding never decreases: more light never gives a lesser code.
pub proof fn lemma_encode_monotone(a: u32, b: u32)
    requires
        a <= b,
    ensures
        linear_to_srgb(a) <= linear_to_srgb(b),
{
    lemma_encode_bracket(a);
    lemma_encode_bracket(b);
    if linear_to_srgb(b) < linear_to_srgb(a) {
        lemma_threshold_increasing((linear_to_srgb(b) + 1) as u8, linear_to_srgb(a));
    }
}

/// Encoding clamps: a value above full intensity has the code of full
/// intensity.
pub proof fn lemma_encode_clamps(linear: u32)
    ensures
        linear_to_srgb(linear) == linear_to_srgb(clamp_linear(linear)),
        linear >= LINEAR_ONE ==> linear_to_srgb(linear) == 255,
{
    if linear >= LINEAR_ONE {
        lemma_greatest_code_is(linear, 255, 255);
        lemma_greatest_code_is(LINEAR_ONE, 255, 255);
    }
}

/// Linear light of an sRGB code.
pub fn decode_srgb(code: u8) -> (linear: u32)
    ensures
        linear == srgb_to_linear(code),
        linear <= LINEAR_ONE,
{
    proof {
        lemma_decode_range(code);
    }
    DECODE_TABLE[code as usize]
}

/// The sRGB code of a linear value, found by bisection over the thresholds.
pub fn encode_srgb(linear: u32) -> (code: u8)
    ensures
        code == linear_to_srgb(linear),
{
    let mut low: usize = 0;
    let mut high: usize = 256;
    while high - low > 1
        invariant
            low < high <= 256,
            threshold(low as u8) <= linear,
            high < 256 ==> linear < threshold(high as u8),
        decreases high - low,
    {
        let mid: usize = low + (high - low) / 2;
        if ENCODE_THRESHOLDS[mid] <= linear {
            low = mid;
        } else {
            high = mid;
        }
    }
    proof {
        lemma_greatest_code_is(linear, low as u8, 255);
    }
    low as u8
}

} // verus!
