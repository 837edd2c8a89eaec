//! Packing of fitted block codes into the GGML block layouts.

use crate::bytes;
use crate::quant;
use crate::quant::{ElementCode, QuantType};
use vstd::prelude::*;

verus! {

/// The fitted codes of one block, before they are packed. The half-precision factors are given by
/// their bit patterns.
#[allow(non_camel_case_types)]
#[allow(inconsistent_fields)]
#[derive(Clone, Copy, Debug)]
pub enum BlockCodes {
    /// One single-precision value, by its bit pattern.
    F32 { bits: u32 },
    /// 32 five-bit codes with the offset 16.
    Q5_0 { d: u16, codes: [u8; 32] },
    /// 32 signed eight-bit codes.
    Q8_0 { d: u16, codes: [i8; 32] },
    /// 256 four-bit codes in eight groups, each with a six-bit scale and a six-bit minimum.
    Q4K { d: u16, dmin: u16, scales: [u8; 8], mins: [u8; 8], codes: [u8; 256] },
    /// 256 six-bit codes with the offset 32 in sixteen groups, each with a signed scale.
    Q6K { d: u16, scales: [i8; 16], codes: [u8; 256] },
}

impl BlockCodes {
    /// The format of the block.
    pub open spec fn format(self) -> QuantType {
        match self {
            BlockCodes::F32 { .. } => QuantType::F32,
            BlockCodes::Q5_0 { .. } => QuantType::Q5_0,
            BlockCodes::Q8_0 { .. } => QuantType::Q8_0,
            BlockCodes::Q4K { .. } => QuantType::Q4K,
            BlockCodes::Q6K { .. } => QuantType::Q6K,
        }
    }

    /// Each code fits its field.
    pub open spec fn in_range(self) -> bool {
        match self {
            BlockCodes::F32 { .. } => true,
            BlockCodes::Q5_0 { d, codes } => forall|j: int|
                0 <= j < 32 ==> #[trigger] codes@[j] < 32,
            BlockCodes::Q8_0 { .. } => true,
            BlockCodes::Q4K { d, dmin, scales, mins, codes } => {
                &&& forall|g: int| 0 <= g < 8 ==> #[trigger] scales@[g] < 64
                &&& forall|g: int| 0 <= g < 8 ==> #[trigger] mins@[g] < 64
                &&& forall|j: int| 0 <= j < 256 ==> #[trigger] codes@[j] < 16
            },
            BlockCodes::Q6K { d, scales, codes } => forall|j: int|
                0 <= j < 256 ==> #[trigger] codes@[j] < 64,
        }
    }

    /// What element `j` stands for.
    pub open spec fn element(self, j: int) -> ElementCode {
        match self {
            BlockCodes::F32 { bits } => ElementCode::F32 { bits },
            BlockCodes::Q5_0 { d, codes } => ElementCode::Scaled { d, code: (codes@[j] - 16) as i8 },
            BlockCodes::Q8_0 { d, codes } => ElementCode::Scaled { d, code: codes@[j] },
            BlockCodes::Q4K { d, dmin, scales, mins, codes } => ElementCode::Grouped {
                d,
                dmin,
                scale: scales@[j / 32],
                min: mins@[j / 32],
                code: codes@[j],
            },
            BlockCodes::Q6K { d, scales, codes } => ElementCode::GroupScaled {
                d,
                scale: scales@[j / 16],
                code: (codes@[j] - 32) as i8,
            },
        }
    }
}

/// The `k`-th byte of a little-endian word.
pub open spec fn byte_of(word: int, k: int) -> u8 {
    if k == 0 {
        (word % 256) as u8
    } else if k == 1 {
        (word / 256 % 256) as u8
    } else if k == 2 {
        (word / 65536 % 256) as u8
    } else {
        (word / 16777216 % 256) as u8
    }
}

/// The byte that collects the fifth bits of the codes `8 * i .. 8 * i + 8`.
pub open spec fn fifth_bits(codes: Seq<u8>, i: int) -> int {
    (codes[8 * i] / 16) + 2 * (codes[8 * i + 1] / 16) + 4 * (codes[8 * i + 2] / 16) + 8 * (codes[8
        * i + 3] / 16) + 16 * (codes[8 * i + 4] / 16) + 32 * (codes[8 * i + 5] / 16) + 64 * (codes[8
        * i + 6] / 16) + 128 * (codes[8 * i + 7] / 16)
}

/// Byte `i` of a packed Q5_0 block: the scale, the fifth bits, the nibbles.
pub open spec fn q5_0_byte(d: u16, codes: Seq<u8>, i: int) -> u8 {
    if i < 2 {
        byte_of(d as int, i)
    } else if i < 6 {
        fifth_bits(codes, i - 2) as u8
    } else {
        (codes[i - 6] % 16 + 16 * (codes[i + 10] % 16)) as u8
    }
}

/// Byte `i` of a packed Q8_0 block: the scale, the codes.
pub open spec fn q8_0_byte(d: u16, codes: Seq<i8>, i: int) -> u8 {
    if i < 2 {
        byte_of(d as int, i)
    } else {
        bytes::unsigned8(codes[i - 2]) as u8
    }
}

/// Byte `i` of the 12 bytes that hold eight six-bit scales and eight six-bit minima: the first four
/// of each take one byte with the top bits of the last four, whose low nibbles share four bytes.
pub open spec fn k4_byte(scales: Seq<u8>, mins: Seq<u8>, i: int) -> u8 {
    if i < 4 {
        (scales[i] + 64 * (scales[i + 4] / 16)) as u8
    } else if i < 8 {
        (mins[i - 4] + 64 * (mins[i] / 16)) as u8
    } else {
        (scales[i - 4] % 16 + 16 * (mins[i - 4] % 16)) as u8
    }
}

/// Byte `i` of a packed Q4_K block: the scales, the group scales and minima, the nibbles.
pub open spec fn q4k_byte(
    d: u16,
    dmin: u16,
    scales: Seq<u8>,
    mins: Seq<u8>,
    codes: Seq<u8>,
    i: int,
) -> u8 {
    if i < 2 {
        byte_of(d as int, i)
    } else if i < 4 {
        byte_of(dmin as int, i - 2)
    } else if i < 16 {
        k4_byte(scales, mins, i - 4)
    } else {
        let at = (i - 16) / 32 * 64 + (i - 16) % 32;
        (codes[at] + 16 * codes[at + 32]) as u8
    }
}

/// Byte `i` of a packed Q6_K block: the nibbles, the top bits, the group scales, the scale.
pub open spec fn q6k_byte(d: u16, scales: Seq<i8>, codes: Seq<u8>, i: int) -> u8 {
    if i < 128 {
        let at = i / 64 * 128 + i % 64;
        (codes[at] % 16 + 16 * (codes[at + 64] % 16)) as u8
    } else if i < 192 {
        let at = (i - 128) / 32 * 128 + i % 32;
        (codes[at] / 16 + 4 * (codes[at + 32] / 16) + 16 * (codes[at + 64] / 16) + 64 * (codes[at
            + 96] / 16)) as u8
    } else if i < 208 {
        bytes::unsigned8(scales[i - 192]) as u8
    } else {
        byte_of(d as int, i - 208)
    }
}

/// The packed block.
pub open spec fn packed(block: BlockCodes) -> Seq<u8> {
    match block {
        BlockCodes::F32 { bits } => Seq::new(4, |i: int| byte_of(bits as int, i)),
        BlockCodes::Q5_0 { d, codes } => Seq::new(22, |i: int| q5_0_byte(d, codes@, i)),
        BlockCodes::Q8_0 { d, codes } => Seq::new(34, |i: int| q8_0_byte(d, codes@, i)),
        BlockCodes::Q4K { d, dmin, scales, mins, codes } => Seq::new(
            144,
            |i: int| q4k_byte(d, dmin, scales@, mins@, codes@, i),
        ),
        BlockCodes::Q6K { d, scales, codes } => Seq::new(
            210,
            |i: int| q6k_byte(d, scales@, codes@, i),
        ),
    }
}

/// The two bytes of a 16-bit word give it back.
proof fn lemma_word16(s: Seq<u8>, at: int, word: u16)
    requires
        s[at] == byte_of(word as int, 0),
        s[at + 1] == byte_of(word as int, 1),
    ensures
        bytes::le16(s, at) == word,
{
}

/// A byte made of two nibbles gives them back.
proof fn lemma_nibbles(low: int, high: int)
    requires
        0 <= low < 16,
        0 <= high < 16,
    ensures
        bytes::low4((low + 16 * high) as u8) == low,
        bytes::high4((low + 16 * high) as u8) == high,
{
}

/// A byte made of eight bits gives them back.
proof fn lemma_bits(
    b0: int,
    b1: int,
    b2: int,
    b3: int,
    b4: int,
    b5: int,
    b6: int,
    b7: int,
)
    requires
        0 <= b0 < 2,
        0 <= b1 < 2,
        0 <= b2 < 2,
        0 <= b3 < 2,
        0 <= b4 < 2,
        0 <= b5 < 2,
        0 <= b6 < 2,
        0 <= b7 < 2,
    ensures
        ({
            let b = (b0 + 2 * b1 + 4 * b2 + 8 * b3 + 16 * b4 + 32 * b5 + 64 * b6 + 128 * b7) as u8;
            &&& bytes::bit_of(b, 0) == b0
            &&& bytes::bit_of(b, 1) == b1
            &&& bytes::bit_of(b, 2) == b2
            &&& bytes::bit_of(b, 3) == b3
            &&& bytes::bit_of(b, 4) == b4
            &&& bytes::bit_of(b, 5) == b5
            &&& bytes::bit_of(b, 6) == b6
            &&& bytes::bit_of(b, 7) == b7
        }),
{
    let v7 = b7;
    let v6 = b6 + 2 * v7;
    let v5 = b5 + 2 * v6;
    let v4 = b4 + 2 * v5;
    let v3 = b3 + 2 * v4;
    let v2 = b2 + 2 * v3;
    let v1 = b1 + 2 * v2;
    let v0 = b0 + 2 * v1;
    assert(0 <= v7 < 2 && 0 <= v6 < 4 && 0 <= v5 < 8 && 0 <= v4 < 16 && 0 <= v3 < 32 && 0 <= v2 < 64
        && 0 <= v1 < 128 && 0 <= v0 < 256);
    assert(v0 / 2 == v1 && v0 / 4 == v2 && v0 / 8 == v3 && v0 / 16 == v4 && v0 / 32 == v5 && v0 / 64
        == v6 && v0 / 128 == v7);
    assert(v0 % 2 == b0 && v1 % 2 == b1 && v2 % 2 == b2 && v3 % 2 == b3 && v4 % 2 == b4 && v5 % 2
        == b5 && v6 % 2 == b6 && v7 % 2 == b7);
}

/// A byte made of a six-bit and a two-bit field gives them back.
proof fn lemma_six_two(low: int, high: int)
    requires
        0 <= low < 64,
        0 <= high < 4,
    ensures
        ((low + 64 * high) as u8) as int % 64 == low,
        ((low + 64 * high) as u8) as int / 64 == high,
{
}

/// A byte made of four bit pairs gives them back.
proof fn lemma_pairs(p0: int, p1: int, p2: int, p3: int)
    requires
        0 <= p0 < 4,
        0 <= p1 < 4,
        0 <= p2 < 4,
        0 <= p3 < 4,
    ensures
        ({
            let b = (p0 + 4 * p1 + 16 * p2 + 64 * p3) as u8;
            &&& bytes::pair_of(b, 0) == p0
            &&& bytes::pair_of(b, 1) == p1
            &&& bytes::pair_of(b, 2) == p2
            &&& bytes::pair_of(b, 3) == p3
        }),
{
    let v2 = p2 + 4 * p3;
    let v1 = p1 + 4 * v2;
    let v0 = p0 + 4 * v1;
    assert(0 <= v2 < 16 && 0 <= v1 < 64 && 0 <= v0 < 256);
    assert(v0 / 4 == v1 && v0 / 16 == v2 && v0 / 64 == p3);
    assert(v0 % 4 == p0 && v1 % 4 == p1 && v2 % 4 == p2 && p3 % 4 == p3);
}

/// Where element `j` of a super-block of nibbles lies.
proof fn lemma_place256(j: int)
    requires
        0 <= j < 256,
    ensures
        ({
            let i = j / 64 * 32 + j % 32;
            let at = j / 64 * 64 + j % 32;
            &&& 0 <= i < 128
            &&& i / 32 * 64 + i % 32 == at
            &&& 0 <= at < 224
            &&& if (j / 32) % 2 == 0 {
                at == j
            } else {
                at + 32 == j
            }
        }),
{
    let p = j / 64;
    let r = j % 32;
    assert((p * 32 + r) / 32 == p && (p * 32 + r) % 32 == r);
}

/// The fifth bits come back from the byte that collects them.
proof fn lemma_fifth_bits(codes: Seq<u8>, j: int)
    requires
        codes.len() == 32,
        forall|k: int| 0 <= k < 32 ==> #[trigger] codes[k] < 32,
        0 <= j < 32,
    ensures
        bytes::bit_of(fifth_bits(codes, j / 8) as u8, j % 8) == codes[j] as int / 16,
{
    let at = 8 * (j / 8);
    lemma_bits(
        codes[at] as int / 16,
        codes[at + 1] as int / 16,
        codes[at + 2] as int / 16,
        codes[at + 3] as int / 16,
        codes[at + 4] as int / 16,
        codes[at + 5] as int / 16,
        codes[at + 6] as int / 16,
        codes[at + 7] as int / 16,
    );
    let k = j % 8;
    assert(j == at + k);
    assert(k == 0 || k == 1 || k == 2 || k == 3 || k == 4 || k == 5 || k == 6 || k == 7);
}

proof fn lemma_q5_0(block: BlockCodes, d: u16, codes: [u8; 32], j: int)
    requires
        block == (BlockCodes::Q5_0 { d, codes }),
        block.in_range(),
        0 <= j < 32,
    ensures
        quant::block_code(packed(block), QuantType::Q5_0, j) == block.element(j),
{
    let s = packed(block);
    let c = codes@;
    assert forall|i: int| 0 <= i < 22 implies #[trigger] s[i] == q5_0_byte(d, c, i) by {}
    lemma_word16(s, 0, d);
    lemma_fifth_bits(c, j);
    assert(s[2 + j / 8] == fifth_bits(c, j / 8) as u8);
    if j < 16 {
        assert(s[6 + j] == (c[j] % 16 + 16 * (c[j + 16] % 16)) as u8);
        lemma_nibbles(c[j] as int % 16, c[j + 16] as int % 16);
    } else {
        assert(s[6 + j - 16] == (c[j - 16] % 16 + 16 * (c[j] % 16)) as u8);
        lemma_nibbles(c[j - 16] as int % 16, c[j] as int % 16);
    }
    assert(quant::nibble32(s, 6, j) == c[j] as int % 16);
}

proof fn lemma_k4(s: Seq<u8>, scales: Seq<u8>, mins: Seq<u8>, g: int)
    requires
        forall|i: int| 4 <= i < 16 ==> #[trigger] s[i] == k4_byte(scales, mins, i - 4),
        forall|k: int| 0 <= k < 8 ==> #[trigger] scales[k] < 64,
        forall|k: int| 0 <= k < 8 ==> #[trigger] mins[k] < 64,
        0 <= g < 8,
    ensures
        quant::k4_scale(s, 4, g) == scales[g],
        quant::k4_min(s, 4, g) == mins[g],
{
    let h = if g < 4 {
        g
    } else {
        g - 4
    };
    assert(s[4 + h] == (scales[h] + 64 * (scales[h + 4] / 16)) as u8);
    assert(s[8 + h] == (mins[h] + 64 * (mins[h + 4] / 16)) as u8);
    assert(s[12 + h] == (scales[h + 4] % 16 + 16 * (mins[h + 4] % 16)) as u8);
    lemma_six_two(scales[h] as int, scales[h + 4] as int / 16);
    lemma_six_two(mins[h] as int, mins[h + 4] as int / 16);
    lemma_nibbles(scales[h + 4] as int % 16, mins[h + 4] as int % 16);
}

proof fn lemma_q4k(
    block: BlockCodes,
    d: u16,
    dmin: u16,
    scales: [u8; 8],
    mins: [u8; 8],
    codes: [u8; 256],
    j: int,
)
    requires
        block == (BlockCodes::Q4K { d, dmin, scales, mins, codes }),
        block.in_range(),
        0 <= j < 256,
    ensures
        quant::block_code(packed(block), QuantType::Q4K, j) == block.element(j),
{
    let s = packed(block);
    let c = codes@;
    assert forall|i: int| 0 <= i < 144 implies #[trigger] s[i] == q4k_byte(
        d,
        dmin,
        scales@,
        mins@,
        c,
        i,
    ) by {}
    lemma_word16(s, 0, d);
    lemma_word16(s, 2, dmin);
    lemma_k4(s, scales@, mins@, j / 32);
    lemma_place256(j);
    let i = j / 64 * 32 + j % 32;
    let at = j / 64 * 64 + j % 32;
    assert(c[at] < 16 && c[at + 32] < 16);
    assert(s[16 + i] == (c[at] + 16 * c[at + 32]) as u8);
    lemma_nibbles(c[at] as int, c[at + 32] as int);
}

/// Where element `j` of a Q6_K block lies.
proof fn lemma_place_q6k(j: int)
    requires
        0 <= j < 256,
    ensures
        ({
            let half = j / 128;
            let quarter = (j % 128) / 32;
            let lane = j % 32;
            let i = half * 64 + (quarter % 2) * 32 + lane;
            let at = half * 128 + (quarter % 2) * 32 + lane;
            let h = 128 + half * 32 + lane;
            &&& 0 <= i < 128
            &&& i / 64 * 128 + i % 64 == at
            &&& 0 <= at < 192
            &&& 128 <= h < 192
            &&& (h - 128) / 32 * 128 + h % 32 == half * 128 + lane
            &&& half * 128 + lane + 32 * quarter == j
            &&& 0 <= quarter < 4
            &&& if quarter < 2 {
                at == j
            } else {
                at + 64 == j
            }
        }),
{
    let half = j / 128;
    let m = j % 128;
    let quarter = m / 32;
    let lane = j % 32;
    assert(m % 32 == lane);
    let low = (quarter % 2) * 32 + lane;
    assert(0 <= low < 64);
    assert((half * 64 + low) / 64 == half && (half * 64 + low) % 64 == low);
    assert((half * 32 + lane) / 32 == half && (128 + half * 32 + lane) % 32 == lane);
}

proof fn lemma_q6k(block: BlockCodes, d: u16, scales: [i8; 16], codes: [u8; 256], j: int)
    requires
        block == (BlockCodes::Q6K { d, scales, codes }),
        block.in_range(),
        0 <= j < 256,
    ensures
        quant::block_code(packed(block), QuantType::Q6K, j) == block.element(j),
{
    let s = packed(block);
    let c = codes@;
    assert forall|i: int| 0 <= i < 210 implies #[trigger] s[i] == q6k_byte(d, scales@, c, i) by {}
    lemma_word16(s, 208, d);
    lemma_place_q6k(j);
    let half = j / 128;
    let quarter = (j % 128) / 32;
    let lane = j % 32;
    let i = half * 64 + (quarter % 2) * 32 + lane;
    let at = half * 128 + (quarter % 2) * 32 + lane;
    assert(s[i] == (c[at] % 16 + 16 * (c[at + 64] % 16)) as u8);
    lemma_nibbles(c[at] as int % 16, c[at + 64] as int % 16);
    let h = 128 + half * 32 + lane;
    let base = half * 128 + lane;
    assert(c[base] < 64 && c[base + 32] < 64 && c[base + 64] < 64 && c[base + 96] < 64);
    assert(s[h] == (c[base] / 16 + 4 * (c[base + 32] / 16) + 16 * (c[base + 64] / 16) + 64 * (c[base
        + 96] / 16)) as u8);
    lemma_pairs(
        c[base] as int / 16,
        c[base + 32] as int / 16,
        c[base + 64] as int / 16,
        c[base + 96] as int / 16,
    );
    assert(bytes::pair_of(s[h], quarter) == c[j] as int / 16);
    assert(s[192 + j / 16] == bytes::unsigned8(scales@[j / 16]) as u8);
    assert(quant::q6k_code(s, j) == c[j]);
}

/// A packed block decodes to the codes that went into it: every element, its group scale and
/// minimum and the half-precision factors come back.
pub proof fn packed_block_decodes_to_its_codes(block: BlockCodes, j: int)
    requires
        block.in_range(),
        0 <= j < block.format().block_len(),
    ensures
        packed(block).len() == block.format().block_bytes(),
        quant::block_code(packed(block), block.format(), j) == block.element(j),
{
    match block {
        BlockCodes::F32 { bits } => {
            let s = packed(block);
            assert(s[0] == byte_of(bits as int, 0) && s[1] == byte_of(bits as int, 1) && s[2]
                == byte_of(bits as int, 2) && s[3] == byte_of(bits as int, 3));
        },
        BlockCodes::Q5_0 { d, codes } => lemma_q5_0(block, d, codes, j),
        BlockCodes::Q8_0 { d, codes } => {
            lemma_word16(packed(block), 0, d);
            assert(packed(block)[2 + j] == bytes::unsigned8(codes@[j]) as u8);
        },
        BlockCodes::Q4K { d, dmin, scales, mins, codes } => lemma_q4k(
            block,
            d,
            dmin,
            scales,
            mins,
            codes,
            j,
        ),
        BlockCodes::Q6K { d, scales, codes } => lemma_q6k(block, d, scales, codes, j),
    }
}

/// The formats without blocks store the bit pattern of one value, lowest byte first: four bytes for
/// single precision, two for half precision and for bfloat16.
pub proof fn words_are_stored_lowest_byte_first(block: Seq<u8>, single: u32, half: u16, j: int)
    requires
        0 <= j < 1,
    ensures
        block == seq![
            (single % 256) as u8,
            (single / 256 % 256) as u8,
            (single / 65536 % 256) as u8,
            (single / 16777216 % 256) as u8,
        ] ==> quant::block_code(block, QuantType::F32, j) == (ElementCode::F32 { bits: single }),
        block == seq![(half % 256) as u8, (half / 256 % 256) as u8] ==> quant::block_code(
            block,
            QuantType::F16,
            j,
        ) == (ElementCode::F16 { bits: half }) && quant::block_code(block, QuantType::BF16, j) == (
        ElementCode::BF16 { bits: half }),
        QuantType::F32.block_bytes() == 4 && QuantType::F16.block_bytes() == 2
            && QuantType::BF16.block_bytes() == 2,
        QuantType::F32.block_len() == 1 && QuantType::F16.block_len() == 1
            && QuantType::BF16.block_len() == 1,
{
    if block == seq![
        (single % 256) as u8,
        (single / 256 % 256) as u8,
        (single / 65536 % 256) as u8,
        (single / 16777216 % 256) as u8,
    ] {
        let source = BlockCodes::F32 { bits: single };
        assert(block =~= packed(source));
        packed_block_decodes_to_its_codes(source, j);
    }
    if block == seq![(half % 256) as u8, (half / 256 % 256) as u8] {
        assert(block[0] == byte_of(half as int, 0));
        assert(block[1] == byte_of(half as int, 1));
        lemma_word16(block, 0, half);
    }
}

/// A Q4_0 block is the factor `d` in two bytes, then 16 bytes of which byte `i` holds code `i` in
/// its low nibble and code `i + 16` in its high one. Element `j` stands for `d` times the code less
/// eight.
pub proof fn q4_0_blocks_give_back_their_codes(block: Seq<u8>, d: u16, codes: Seq<u8>, j: int)
    requires
        forall|k: int| 0 <= k < 32 ==> #[trigger] codes[k] < 16,
        block == Seq::new(
            18,
            |i: int|
                if i == 0 {
                    (d % 256) as u8
                } else if i == 1 {
                    (d / 256) as u8
                } else {
                    (codes[i - 2] + 16 * codes[i - 2 + 16]) as u8
                },
        ),
        0 <= j < 32,
    ensures
        QuantType::Q4_0.block_len() == 32,
        QuantType::Q4_0.block_bytes() == 18,
        quant::block_code(block, QuantType::Q4_0, j) == (ElementCode::Scaled {
            d,
            code: (codes[j] - 8) as i8,
        }),
{
    lemma_word16(block, 0, d);
    let low = if j < 16 {
        j
    } else {
        j - 16
    };
    assert(codes[low] < 16 && codes[low + 16] < 16);
    lemma_nibbles(codes[low] as int, codes[low + 16] as int);
    assert(block[2 + low] == (codes[low] + 16 * codes[low + 16]) as u8);
}

/// A Q4_1 block is the factor `d` in two bytes, the minimum `m` in two bytes, then 16 bytes of which
/// byte `i` holds code `i` in its low nibble and code `i + 16` in its high one. Element `j` stands
/// for `d` times the code plus `m`.
pub proof fn q4_1_blocks_give_back_their_codes(
    block: Seq<u8>,
    d: u16,
    m: u16,
    codes: Seq<u8>,
    j: int,
)
    requires
        forall|k: int| 0 <= k < 32 ==> #[trigger] codes[k] < 16,
        block == Seq::new(
            20,
            |i: int|
                if i == 0 {
                    (d % 256) as u8
                } else if i == 1 {
                    (d / 256) as u8
                } else if i == 2 {
                    (m % 256) as u8
                } else if i == 3 {
                    (m / 256) as u8
                } else {
                    (codes[i - 4] + 16 * codes[i - 4 + 16]) as u8
                },
        ),
        0 <= j < 32,
    ensures
        QuantType::Q4_1.block_len() == 32,
        QuantType::Q4_1.block_bytes() == 20,
        quant::block_code(block, QuantType::Q4_1, j) == (ElementCode::Shifted {
            d,
            m,
            code: codes[j],
        }),
{
    lemma_word16(block, 0, d);
    lemma_word16(block, 2, m);
    let low = if j < 16 {
        j
    } else {
        j - 16
    };
    assert(codes[low] < 16 && codes[low + 16] < 16);
    lemma_nibbles(codes[low] as int, codes[low + 16] as int);
    assert(block[4 + low] == (codes[low] + 16 * codes[low + 16]) as u8);
}

/// A Q5_0 block is the factor `d` in two bytes, four bytes whose bit `i` counted from the lowest is
/// the fifth bit of code `i`, then 16 bytes of which byte `i` holds the low nibble of code `i` and,
/// above it, that of code `i + 16`. Element `j` stands for `d` times the code less sixteen.
#[verifier::spinoff_prover]
#[verifier::rlimit(40)]
pub proof fn q5_0_blocks_give_back_their_codes(block: Seq<u8>, d: u16, codes: [u8; 32], j: int)
    requires
        forall|k: int| 0 <= k < 32 ==> #[trigger] codes@[k] < 32,
        block == Seq::new(
            22,
            |i: int|
                if i == 0 {
                    (d % 256) as u8
                } else if i == 1 {
                    (d / 256) as u8
                } else if i < 6 {
                    (codes@[8 * (i - 2)] / 16 + 2 * (codes@[8 * (i - 2) + 1] / 16) + 4 * (codes@[8
                        * (i - 2) + 2] / 16) + 8 * (codes@[8 * (i - 2) + 3] / 16) + 16 * (codes@[8
                        * (i - 2) + 4] / 16) + 32 * (codes@[8 * (i - 2) + 5] / 16) + 64 * (codes@[8
                        * (i - 2) + 6] / 16) + 128 * (codes@[8 * (i - 2) + 7] / 16)) as u8
                } else {
                    (codes@[i - 6] % 16 + 16 * (codes@[i - 6 + 16] % 16)) as u8
                },
        ),
        0 <= j < 32,
    ensures
        QuantType::Q5_0.block_len() == 32,
        QuantType::Q5_0.block_bytes() == 22,
        quant::block_code(block, QuantType::Q5_0, j) == (ElementCode::Scaled {
            d,
            code: (codes@[j] - 16) as i8,
        }),
        packed(BlockCodes::Q5_0 { d, codes }) == block,
{
    let source = BlockCodes::Q5_0 { d, codes };
    let other = packed(source);
    assert forall|i: int| 0 <= i < 22 implies block[i] == other[i] by {
        if i < 2 {
            assert(other[i] == byte_of(d as int, i));
        } else if i < 6 {
            assert(other[i] == fifth_bits(codes@, i - 2) as u8);
        } else {
            assert(i - 6 + 16 == i + 10);
            assert(other[i] == (codes@[i - 6] % 16 + 16 * (codes@[i + 10] % 16)) as u8);
        }
    }
    assert(block =~= other);
    packed_block_decodes_to_its_codes(source, j);
}

/// A Q5_1 block is the factor `d` in two bytes, the minimum `m` in two bytes, four bytes whose bit
/// `i` counted from the lowest is the fifth bit of code `i`, then 16 bytes of which byte `i` holds
/// the low nibble of code `i` and, above it, that of code `i + 16`. Element `j` stands for `d` times
/// the code plus `m`.
#[verifier::spinoff_prover]
#[verifier::rlimit(50)]
pub proof fn q5_1_blocks_give_back_their_codes(
    block: Seq<u8>,
    d: u16,
    m: u16,
    codes: Seq<u8>,
    j: int,
)
    requires
        codes.len() == 32,
        forall|k: int| 0 <= k < 32 ==> #[trigger] codes[k] < 32,
        block == Seq::new(
            24,
            |i: int|
                if i == 0 {
                    (d % 256) as u8
                } else if i == 1 {
                    (d / 256) as u8
                } else if i == 2 {
                    (m % 256) as u8
                } else if i == 3 {
                    (m / 256) as u8
                } else if i < 8 {
                    (codes[8 * (i - 4)] / 16 + 2 * (codes[8 * (i - 4) + 1] / 16) + 4 * (codes[8 * (i
                        - 4) + 2] / 16) + 8 * (codes[8 * (i - 4) + 3] / 16) + 16 * (codes[8 * (i
                        - 4) + 4] / 16) + 32 * (codes[8 * (i - 4) + 5] / 16) + 64 * (codes[8 * (i
                        - 4) + 6] / 16) + 128 * (codes[8 * (i - 4) + 7] / 16)) as u8
                } else {
                    (codes[i - 8] % 16 + 16 * (codes[i - 8 + 16] % 16)) as u8
                },
        ),
        0 <= j < 32,
    ensures
        QuantType::Q5_1.block_len() == 32,
        QuantType::Q5_1.block_bytes() == 24,
        quant::block_code(block, QuantType::Q5_1, j) == (ElementCode::Shifted {
            d,
            m,
            code: codes[j],
        }),
{
    assert(bytes::le16(block, 0) == d && bytes::le16(block, 2) == m) by {
        lemma_word16(block, 0, d);
        lemma_word16(block, 2, m);
    }
    assert(bytes::bit_of(block[4 + j / 8], j % 8) == codes[j] as int / 16) by {
        lemma_fifth_bits(codes, j);
        assert(0 <= j / 8 < 4);
        assert(block[4 + j / 8] == fifth_bits(codes, j / 8) as u8);
    }
    assert(quant::nibble32(block, 8, j) == codes[j] as int % 16) by {
        let low = if j < 16 {
            j
        } else {
            j - 16
        };
        lemma_nibbles(codes[low] as int % 16, codes[low + 16] as int % 16);
        assert(block[8 + low] == (codes[low] % 16 + 16 * (codes[low + 16] % 16)) as u8);
    }
}

/// A Q8_0 block is the factor `d` in two bytes, then 32 codes of one byte in two's complement.
/// Element `j` stands for `d` times its code.
pub proof fn q8_0_blocks_give_back_their_codes(block: Seq<u8>, d: u16, codes: [i8; 32], j: int)
    requires
        block == Seq::new(
            34,
            |i: int|
                if i == 0 {
                    (d % 256) as u8
                } else if i == 1 {
                    (d / 256) as u8
                } else if codes@[i - 2] >= 0 {
                    codes@[i - 2] as u8
                } else {
                    (codes@[i - 2] + 256) as u8
                },
        ),
        0 <= j < 32,
    ensures
        QuantType::Q8_0.block_len() == 32,
        QuantType::Q8_0.block_bytes() == 34,
        quant::block_code(block, QuantType::Q8_0, j) == (ElementCode::Scaled { d, code: codes@[j] }),
        packed(BlockCodes::Q8_0 { d, codes }) == block,
{
    let source = BlockCodes::Q8_0 { d, codes };
    assert(block =~= packed(source));
    packed_block_decodes_to_its_codes(source, j);
}

/// A Q4_K block is the factor `d` in two bytes, the factor `dmin` in two bytes, twelve bytes of
/// group scales and minima, then 128 bytes of nibbles. Of the twelve bytes the first four hold the
/// scales of the groups 0 to 3, the next four their minima, each with the top two bits of the group
/// four further on above it, and the last four hold the low nibbles of the scales and minima of the
/// groups 4 to 7. Byte `32 * p + l` of the nibbles holds the code of element `64 * p + l` below and
/// that of element `64 * p + 32 + l` above. Element `j` stands for `d` times its group's scale times
/// its code, less `dmin` times its group's minimum.
#[verifier::spinoff_prover]
#[verifier::rlimit(50)]
pub proof fn q4k_blocks_give_back_their_codes(
    block: Seq<u8>,
    d: u16,
    dmin: u16,
    scales: [u8; 8],
    mins: [u8; 8],
    codes: [u8; 256],
    j: int,
)
    requires
        forall|g: int| 0 <= g < 8 ==> #[trigger] scales@[g] < 64,
        forall|g: int| 0 <= g < 8 ==> #[trigger] mins@[g] < 64,
        forall|k: int| 0 <= k < 256 ==> #[trigger] codes@[k] < 16,
        block == Seq::new(
            144,
            |i: int|
                if i == 0 {
                    (d % 256) as u8
                } else if i == 1 {
                    (d / 256) as u8
                } else if i == 2 {
                    (dmin % 256) as u8
                } else if i == 3 {
                    (dmin / 256) as u8
                } else if i < 8 {
                    (scales@[i - 4] + 64 * (scales@[i - 4 + 4] / 16)) as u8
                } else if i < 12 {
                    (mins@[i - 8] + 64 * (mins@[i - 8 + 4] / 16)) as u8
                } else if i < 16 {
                    (scales@[i - 12 + 4] % 16 + 16 * (mins@[i - 12 + 4] % 16)) as u8
                } else {
                    (codes@[64 * ((i - 16) / 32) + (i - 16) % 32] + 16 * codes@[64 * ((i - 16) / 32)
                        + (i - 16) % 32 + 32]) as u8
                },
        ),
        0 <= j < 256,
    ensures
        QuantType::Q4K.block_len() == 256,
        QuantType::Q4K.block_bytes() == 144,
        quant::block_code(block, QuantType::Q4K, j) == (ElementCode::Grouped {
            d,
            dmin,
            scale: scales@[j / 32],
            min: mins@[j / 32],
            code: codes@[j],
        }),
        packed(BlockCodes::Q4K { d, dmin, scales, mins, codes }) == block,
{
    let source = BlockCodes::Q4K { d, dmin, scales, mins, codes };
    assert(block =~= packed(source));
    packed_block_decodes_to_its_codes(source, j);
}

/// The fifth bits of eight codes that lie 32 apart come back from the byte that collects them.
proof fn lemma_column_bits(codes: Seq<u8>, l: int, g: int)
    requires
        forall|k: int| 0 <= k < 256 ==> #[trigger] codes[k] < 32,
        0 <= l < 32,
        0 <= g < 8,
    ensures
        bytes::bit_of(
            (codes[l] / 16 + 2 * (codes[l + 32] / 16) + 4 * (codes[l + 64] / 16) + 8 * (codes[l
                + 96] / 16) + 16 * (codes[l + 128] / 16) + 32 * (codes[l + 160] / 16) + 64 * (
            codes[l + 192] / 16) + 128 * (codes[l + 224] / 16)) as u8,
            g,
        ) == codes[32 * g + l] as int / 16,
{
    lemma_bits(
        codes[l] as int / 16,
        codes[l + 32] as int / 16,
        codes[l + 64] as int / 16,
        codes[l + 96] as int / 16,
        codes[l + 128] as int / 16,
        codes[l + 160] as int / 16,
        codes[l + 192] as int / 16,
        codes[l + 224] as int / 16,
    );
    assert(g == 0 || g == 1 || g == 2 || g == 3 || g == 4 || g == 5 || g == 6 || g == 7);
}

/// A five-bit code comes back from the byte of its fifth bit and the byte of its low nibble.
proof fn lemma_q5k_code(block: Seq<u8>, codes: Seq<u8>, j: int)
    requires
        forall|k: int| 0 <= k < 256 ==> #[trigger] codes[k] < 32,
        0 <= j < 256,
        block[16 + j % 32] == (codes[j % 32] / 16 + 2 * (codes[j % 32 + 32] / 16) + 4 * (codes[j
            % 32 + 64] / 16) + 8 * (codes[j % 32 + 96] / 16) + 16 * (codes[j % 32 + 128] / 16) + 32
            * (codes[j % 32 + 160] / 16) + 64 * (codes[j % 32 + 192] / 16) + 128 * (codes[j % 32
            + 224] / 16)) as u8,
        block[48 + (j / 64 * 32 + j % 32)] == (codes[j / 64 * 64 + j % 32] % 16 + 16 * (codes[j / 64
            * 64 + j % 32 + 32] % 16)) as u8,
    ensures
        quant::nibble256(block, 48, j) + 16 * bytes::bit_of(block[16 + j % 32], j / 32)
            == codes[j] as int,
{
    let l = j % 32;
    let g = j / 32;
    assert(j == 32 * g + l && 0 <= l < 32 && 0 <= g < 8);
    assert(bytes::bit_of(block[16 + l], g) == codes[j] as int / 16) by {
        lemma_column_bits(codes, l, g);
    }
    assert(quant::nibble256(block, 48, j) == codes[j] as int % 16) by {
        lemma_place256(j);
        let at = j / 64 * 64 + l;
        lemma_nibbles(codes[at] as int % 16, codes[at + 32] as int % 16);
        assert(48 + (j / 64 * 32 + l) == 48 + j / 64 * 32 + l);
    }
}

/// A Q5_K block is the factor `d` in two bytes, the factor `dmin` in two bytes, twelve bytes of
/// group scales and minima laid out as in a Q4_K block, 32 bytes of fifth bits, then 128 bytes of
/// nibbles. Bit `g` of byte `l` of the fifth bits belongs to element `32 * g + l`; byte `32 * p + l`
/// of the nibbles holds the low nibble of the code of element `64 * p + l` below and that of element
/// `64 * p + 32 + l` above. Element `j` stands for `d` times its group's scale times its code, less
/// `dmin` times its group's minimum.
#[verifier::spinoff_prover]
#[verifier::rlimit(50)]
pub proof fn q5k_blocks_give_back_their_codes(
    block: Seq<u8>,
    d: u16,
    dmin: u16,
    scales: Seq<u8>,
    mins: Seq<u8>,
    codes: Seq<u8>,
    j: int,
)
    requires
        forall|g: int| 0 <= g < 8 ==> #[trigger] scales[g] < 64,
        forall|g: int| 0 <= g < 8 ==> #[trigger] mins[g] < 64,
        forall|k: int| 0 <= k < 256 ==> #[trigger] codes[k] < 32,
        block == Seq::new(
            176,
            |i: int|
                if i == 0 {
                    (d % 256) as u8
                } else if i == 1 {
                    (d / 256) as u8
                } else if i == 2 {
                    (dmin % 256) as u8
                } else if i == 3 {
                    (dmin / 256) as u8
                } else if i < 8 {
                    (scales[i - 4] + 64 * (scales[i - 4 + 4] / 16)) as u8
                } else if i < 12 {
                    (mins[i - 8] + 64 * (mins[i - 8 + 4] / 16)) as u8
                } else if i < 16 {
                    (scales[i - 12 + 4] % 16 + 16 * (mins[i - 12 + 4] % 16)) as u8
                } else if i < 48 {
                    (codes[i - 16] / 16 + 2 * (codes[i - 16 + 32] / 16) + 4 * (codes[i - 16 + 64]
                        / 16) + 8 * (codes[i - 16 + 96] / 16) + 16 * (codes[i - 16 + 128] / 16) + 32
                        * (codes[i - 16 + 160] / 16) + 64 * (codes[i - 16 + 192] / 16) + 128 * (
                    codes[i - 16 + 224] / 16)) as u8
                } else {
                    (codes[64 * ((i - 48) / 32) + (i - 48) % 32] % 16 + 16 * (codes[64 * ((i - 48)
                        / 32) + (i - 48) % 32 + 32] % 16)) as u8
                },
        ),
        0 <= j < 256,
    ensures
        QuantType::Q5K.block_len() == 256,
        QuantType::Q5K.block_bytes() == 176,
        quant::block_code(block, QuantType::Q5K, j) == (ElementCode::Grouped {
            d,
            dmin,
            scale: scales[j / 32],
            min: mins[j / 32],
            code: codes[j],
        }),
{
    let l = j % 32;
    let g = j / 32;
    let i = j / 64 * 32 + l;
    let at = j / 64 * 64 + l;
    assert(bytes::le16(block, 0) == d && bytes::le16(block, 2) == dmin) by {
        lemma_word16(block, 0, d);
        lemma_word16(block, 2, dmin);
    }
    assert(quant::k4_scale(block, 4, g) == scales[g] && quant::k4_min(block, 4, g) == mins[g]) by {
        assert forall|k: int| 4 <= k < 16 implies #[trigger] block[k] == k4_byte(
            scales,
            mins,
            k - 4,
        ) by {}
        lemma_k4(block, scales, mins, g);
    }
    assert(block[48 + i] == (codes[at] % 16 + 16 * (codes[at + 32] % 16)) as u8) by {
        lemma_place256(j);
    }
    lemma_q5k_code(block, codes, j);
}

/// A Q6_K block is 128 bytes of nibbles, 64 bytes of top bits, sixteen group scales of one byte in
/// two's complement, then the factor `d` in two bytes. Byte `64 * h + l` of the nibbles holds the
/// low nibble of the code of element `128 * h + l` below and that of element `128 * h + 64 + l`
/// above; byte `32 * h + l` of the top bits holds, lowest pair first, those of the elements
/// `128 * h + l`, `128 * h + 32 + l`, `128 * h + 64 + l` and `128 * h + 96 + l`. Element `j` stands
/// for `d` times its group's scale times its code less 32.
#[verifier::spinoff_prover]
#[verifier::rlimit(50)]
pub proof fn q6k_blocks_give_back_their_codes(
    block: Seq<u8>,
    d: u16,
    scales: [i8; 16],
    codes: [u8; 256],
    j: int,
)
    requires
        forall|k: int| 0 <= k < 256 ==> #[trigger] codes@[k] < 64,
        block == Seq::new(
            210,
            |i: int|
                if i < 128 {
                    (codes@[128 * (i / 64) + i % 64] % 16 + 16 * (codes@[128 * (i / 64) + i % 64
                        + 64] % 16)) as u8
                } else if i < 192 {
                    (codes@[128 * ((i - 128) / 32) + (i - 128) % 32] / 16 + 4 * (codes@[128 * ((i
                        - 128) / 32) + (i - 128) % 32 + 32] / 16) + 16 * (codes@[128 * ((i - 128)
                        / 32) + (i - 128) % 32 + 64] / 16) + 64 * (codes@[128 * ((i - 128) / 32) + (
                    i - 128) % 32 + 96] / 16)) as u8
                } else if i < 208 {
                    if scales@[i - 192] >= 0 {
                        scales@[i - 192] as u8
                    } else {
                        (scales@[i - 192] + 256) as u8
                    }
                } else if i == 208 {
                    (d % 256) as u8
                } else {
                    (d / 256) as u8
                },
        ),
        0 <= j < 256,
    ensures
        QuantType::Q6K.block_len() == 256,
        QuantType::Q6K.block_bytes() == 210,
        quant::block_code(block, QuantType::Q6K, j) == (ElementCode::GroupScaled {
            d,
            scale: scales@[j / 16],
            code: (codes@[j] - 32) as i8,
        }),
        packed(BlockCodes::Q6K { d, scales, codes }) == block,
{
    let source = BlockCodes::Q6K { d, scales, codes };
    let other = packed(source);
    assert forall|i: int| 0 <= i < 210 implies block[i] == other[i] by {
        if i < 128 {
            assert(128 * (i / 64) + i % 64 == i / 64 * 128 + i % 64);
        } else if i < 192 {
            assert(128 * ((i - 128) / 32) + (i - 128) % 32 == (i - 128) / 32 * 128 + i % 32);
        }
    }
    assert(block =~= other);
    packed_block_decodes_to_its_codes(source, j);
}

/// Appends the two bytes of a 16-bit word.
fn push_u16(word: u16, out: &mut Vec<u8>)
    ensures
        final(out)@ == old(out)@.push(byte_of(word as int, 0)).push(byte_of(word as int, 1)),
{
    out.push((word % 256) as u8);
    out.push((word / 256) as u8);
}

/// Appends the four bytes of a 32-bit word.
fn push_u32(word: u32, out: &mut Vec<u8>)
    ensures
        final(out)@ == old(out)@ + Seq::new(4, |i: int| byte_of(word as int, i)),
{
    out.push((word % 256) as u8);
    out.push((word / 256 % 256) as u8);
    out.push((word / 65536 % 256) as u8);
    out.push((word / 16777216) as u8);
}

/// Packs a block of 32 five-bit codes.
fn pack_q5_0(d: u16, codes: &[u8; 32], out: &mut Vec<u8>)
    requires
        forall|j: int| 0 <= j < 32 ==> #[trigger] codes@[j] < 32,
    ensures
        final(out)@ == old(out)@ + Seq::new(22, |i: int| q5_0_byte(d, codes@, i)),
{
    let ghost all = Seq::new(22, |i: int| q5_0_byte(d, codes@, i));
    push_u16(d, out);
    assert(out@ =~= old(out)@ + all.subrange(0, 2));
    for i in 0usize..4
        invariant
            all == Seq::new(22, |i: int| q5_0_byte(d, codes@, i)),
            forall|j: int| 0 <= j < 32 ==> #[trigger] codes@[j] < 32,
            out@ == old(out)@ + all.subrange(0, 2 + i),
    {
        let mut high: u8 = codes[8 * i] / 16;
        high = high + 2 * (codes[8 * i + 1] / 16);
        high = high + 4 * (codes[8 * i + 2] / 16);
        high = high + 8 * (codes[8 * i + 3] / 16);
        high = high + 16 * (codes[8 * i + 4] / 16);
        high = high + 32 * (codes[8 * i + 5] / 16);
        high = high + 64 * (codes[8 * i + 6] / 16);
        high = high + 128 * (codes[8 * i + 7] / 16);
        assert(high == all[2 + i]);
        out.push(high);
        assert(out@ =~= old(out)@ + all.subrange(0, 2 + i + 1));
    }
    for j in 0usize..16
        invariant
            all == Seq::new(22, |i: int| q5_0_byte(d, codes@, i)),
            out@ == old(out)@ + all.subrange(0, 6 + j),
    {
        let both: u8 = codes[j] % 16 + 16 * (codes[j + 16] % 16);
        assert(both == all[6 + j]);
        out.push(both);
        assert(out@ =~= old(out)@ + all.subrange(0, 6 + j + 1));
    }
    assert(all.subrange(0, 22) =~= all);
}

/// Packs a block of 32 eight-bit codes.
fn pack_q8_0(d: u16, codes: &[i8; 32], out: &mut Vec<u8>)
    ensures
        final(out)@ == old(out)@ + Seq::new(34, |i: int| q8_0_byte(d, codes@, i)),
{
    let ghost all = Seq::new(34, |i: int| q8_0_byte(d, codes@, i));
    push_u16(d, out);
    assert(out@ =~= old(out)@ + all.subrange(0, 2));
    for j in 0usize..32
        invariant
            all == Seq::new(34, |i: int| q8_0_byte(d, codes@, i)),
            out@ == old(out)@ + all.subrange(0, 2 + j),
    {
        let code: u8 = bytes::unsigned(codes[j]);
        assert(code == all[2 + j]);
        out.push(code);
        assert(out@ =~= old(out)@ + all.subrange(0, 2 + j + 1));
    }
    assert(all.subrange(0, 34) =~= all);
}

/// Packs a super-block of 256 four-bit codes.
fn pack_q4k(
    d: u16,
    dmin: u16,
    scales: &[u8; 8],
    mins: &[u8; 8],
    codes: &[u8; 256],
    out: &mut Vec<u8>,
)
    requires
        forall|g: int| 0 <= g < 8 ==> #[trigger] scales@[g] < 64,
        forall|g: int| 0 <= g < 8 ==> #[trigger] mins@[g] < 64,
        forall|j: int| 0 <= j < 256 ==> #[trigger] codes@[j] < 16,
    ensures
        final(out)@ == old(out)@ + Seq::new(
            144,
            |i: int| q4k_byte(d, dmin, scales@, mins@, codes@, i),
        ),
{
    let ghost all = Seq::new(144, |i: int| q4k_byte(d, dmin, scales@, mins@, codes@, i));
    push_u16(d, out);
    push_u16(dmin, out);
    assert(out@ =~= old(out)@ + all.subrange(0, 4));
    for g in 0usize..12
        invariant
            all == Seq::new(144, |i: int| q4k_byte(d, dmin, scales@, mins@, codes@, i)),
            forall|g: int| 0 <= g < 8 ==> #[trigger] scales@[g] < 64,
            forall|g: int| 0 <= g < 8 ==> #[trigger] mins@[g] < 64,
            out@ == old(out)@ + all.subrange(0, 4 + g),
    {
        let field: u8 = if g < 4 {
            assert(scales@[g as int] < 64 && scales@[g + 4] < 64);
            scales[g] + 64 * (scales[g + 4] / 16)
        } else if g < 8 {
            assert(mins@[g - 4] < 64 && mins@[g as int] < 64);
            mins[g - 4] + 64 * (mins[g] / 16)
        } else {
            scales[g - 4] % 16 + 16 * (mins[g - 4] % 16)
        };
        assert(field == all[4 + g]);
        out.push(field);
        assert(out@ =~= old(out)@ + all.subrange(0, 4 + g + 1));
    }
    for i in 0usize..128
        invariant
            all == Seq::new(144, |i: int| q4k_byte(d, dmin, scales@, mins@, codes@, i)),
            forall|j: int| 0 <= j < 256 ==> #[trigger] codes@[j] < 16,
            out@ == old(out)@ + all.subrange(0, 16 + i),
    {
        let at: usize = i / 32 * 64 + i % 32;
        assert(codes@[at as int] < 16 && codes@[at + 32] < 16);
        let both: u8 = codes[at] + 16 * codes[at + 32];
        assert(both == all[16 + i]);
        out.push(both);
        assert(out@ =~= old(out)@ + all.subrange(0, 16 + i + 1));
    }
    assert(all.subrange(0, 144) =~= all);
}

/// Packs a super-block of 256 six-bit codes.
fn pack_q6k(d: u16, scales: &[i8; 16], codes: &[u8; 256], out: &mut Vec<u8>)
    requires
        forall|j: int| 0 <= j < 256 ==> #[trigger] codes@[j] < 64,
    ensures
        final(out)@ == old(out)@ + Seq::new(210, |i: int| q6k_byte(d, scales@, codes@, i)),
{
    let ghost all = Seq::new(210, |i: int| q6k_byte(d, scales@, codes@, i));
    assert(out@ =~= old(out)@ + all.subrange(0, 0));
    for i in 0usize..128
        invariant
            all == Seq::new(210, |i: int| q6k_byte(d, scales@, codes@, i)),
            out@ == old(out)@ + all.subrange(0, i as int),
    {
        let at: usize = i / 64 * 128 + i % 64;
        let both: u8 = codes[at] % 16 + 16 * (codes[at + 64] % 16);
        assert(both == all[i as int]);
        out.push(both);
        assert(out@ =~= old(out)@ + all.subrange(0, i + 1));
    }
    for i in 0usize..64
        invariant
            all == Seq::new(210, |i: int| q6k_byte(d, scales@, codes@, i)),
            forall|j: int| 0 <= j < 256 ==> #[trigger] codes@[j] < 64,
            out@ == old(out)@ + all.subrange(0, 128 + i),
    {
        let at: usize = i / 32 * 128 + i % 32;
        assert(codes@[at as int] < 64 && codes@[at + 32] < 64 && codes@[at + 64] < 64 && codes@[at
            + 96] < 64);
        let low: u8 = codes[at] / 16 + 4 * (codes[at + 32] / 16);
        let top: u8 = low + 16 * (codes[at + 64] / 16) + 64 * (codes[at + 96] / 16);
        assert((128 + i - 128) / 32 * 128 + (128 + i) % 32 == at);
        assert(top == all[128 + i]);
        out.push(top);
        assert(out@ =~= old(out)@ + all.subrange(0, 128 + i + 1));
    }
    for g in 0usize..16
        invariant
            all == Seq::new(210, |i: int| q6k_byte(d, scales@, codes@, i)),
            out@ == old(out)@ + all.subrange(0, 192 + g),
    {
        let scale: u8 = bytes::unsigned(scales[g]);
        assert(scale == all[192 + g]);
        out.push(scale);
        assert(out@ =~= old(out)@ + all.subrange(0, 192 + g + 1));
    }
    push_u16(d, out);
    assert(out@ =~= old(out)@ + all);
}

/// Packs one block of fitted codes and appends it.
pub fn pack_block(block: &BlockCodes, out: &mut Vec<u8>)
    requires
        block.in_range(),
    ensures
        final(out)@ == old(out)@ + packed(*block),
{
    match block {
        BlockCodes::F32 { bits } => push_u32(*bits, out),
        BlockCodes::Q5_0 { d, codes } => pack_q5_0(*d, codes, out),
        BlockCodes::Q8_0 { d, codes } => pack_q8_0(*d, codes, out),
        BlockCodes::Q4K { d, dmin, scales, mins, codes } => pack_q4k(
            *d,
            *dmin,
            scales,
            mins,
            codes,
            out,
        ),
        BlockCodes::Q6K { d, scales, codes } => pack_q6k(*d, scales, codes, out),
    }
}

} // verus!
