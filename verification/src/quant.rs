//! Block quantization formats and row-major tensors stored in them.

use crate::bytes;
use crate::pack;
use crate::pack::BlockCodes;
use std::sync::Arc;
use vstd::prelude::*;

verus! {

/// Length of a super-block of the K formats.
pub const QK_K: usize = 256;

/// Storage format of a tensor.
#[allow(non_camel_case_types)]
#[derive(Clone, Copy, Debug, PartialEq, Eq, Structural)]
pub enum QuantType {
    /// Single precision, not quantized.
    F32,
    F16,
    BF16,
    Q4_0,
    Q4_1,
    Q5_0,
    Q5_1,
    Q8_0,
    Q4K,
    Q5K,
    Q6K,
}

/// What can be wrong with a tensor or with what is asked of it.
#[derive(Clone, Copy, Debug, PartialEq, Eq, Structural)]
pub enum QuantError {
    /// The file's type number names no supported format.
    UnsupportedType { value: u32 },
    /// The byte range lies outside the mapped file.
    RangeOutOfBounds,
    /// Only vectors and matrices are supported.
    Rank,
    /// The last dimension is not a whole number of blocks.
    BlockMultiple { cols: usize, quant_type: QuantType },
    /// The data is not as long as the shape and the format say.
    ByteLength { got: usize, quant_type: QuantType },
    /// The number of values is not the product of the dimensions.
    ShapeMismatch,
    /// The row does not exist.
    RowOutOfBounds { row: usize },
    /// The output for one row is not one row long.
    OutputLength,
    /// A matrix product was asked of a vector.
    NotMatrix,
    /// The input of a matrix product is not one row long.
    MatvecInput { got: usize, expected: usize },
    /// The output of a matrix product is not one column long.
    MatvecOutput { got: usize, expected: usize },
}

impl QuantType {
    /// The number that GGML files use for the format.
    pub open spec fn ggml_code(self) -> u32 {
        match self {
            QuantType::F32 => 0,
            QuantType::F16 => 1,
            QuantType::Q4_0 => 2,
            QuantType::Q4_1 => 3,
            QuantType::Q5_0 => 6,
            QuantType::Q5_1 => 7,
            QuantType::Q8_0 => 8,
            QuantType::Q4K => 12,
            QuantType::Q5K => 13,
            QuantType::Q6K => 14,
            QuantType::BF16 => 30,
        }
    }

    /// Values per block.
    pub open spec fn block_len(self) -> int {
        match self {
            QuantType::F32 | QuantType::F16 | QuantType::BF16 => 1,
            QuantType::Q4_0 | QuantType::Q4_1 | QuantType::Q5_0 | QuantType::Q5_1
            | QuantType::Q8_0 => 32,
            QuantType::Q4K | QuantType::Q5K | QuantType::Q6K => 256,
        }
    }

    /// Bytes per block.
    pub open spec fn block_bytes(self) -> int {
        match self {
            QuantType::F32 => 4,
            QuantType::F16 => 2,
            QuantType::BF16 => 2,
            QuantType::Q4_0 => 18,
            QuantType::Q4_1 => 20,
            QuantType::Q5_0 => 22,
            QuantType::Q5_1 => 24,
            QuantType::Q8_0 => 34,
            QuantType::Q4K => 144,
            QuantType::Q5K => 176,
            QuantType::Q6K => 210,
        }
    }

    /// The format that a GGML type number names.
    pub fn from_ggml_type(value: u32) -> (result: Result<QuantType, QuantError>)
        ensures
            result == (match ggml_format(value) {
                Some(ty) => Ok::<QuantType, QuantError>(ty),
                None => Err::<QuantType, QuantError>(QuantError::UnsupportedType { value }),
            }),
    {
        match value {
            0 => Ok(QuantType::F32),
            1 => Ok(QuantType::F16),
            2 => Ok(QuantType::Q4_0),
            3 => Ok(QuantType::Q4_1),
            6 => Ok(QuantType::Q5_0),
            7 => Ok(QuantType::Q5_1),
            8 => Ok(QuantType::Q8_0),
            12 => Ok(QuantType::Q4K),
            13 => Ok(QuantType::Q5K),
            14 => Ok(QuantType::Q6K),
            30 => Ok(QuantType::BF16),
            other => Err(QuantError::UnsupportedType { value: other }),
        }
    }

    /// Values per block.
    pub fn block_size(self) -> (n: usize)
        ensures
            n == self.block_len(),
    {
        match self {
            QuantType::F32 | QuantType::F16 | QuantType::BF16 => 1,
            QuantType::Q4_0 | QuantType::Q4_1 | QuantType::Q5_0 | QuantType::Q5_1
            | QuantType::Q8_0 => 32,
            QuantType::Q4K | QuantType::Q5K | QuantType::Q6K => QK_K,
        }
    }

    /// Bytes per block.
    pub fn type_size(self) -> (n: usize)
        ensures
            n == self.block_bytes(),
    {
        match self {
            QuantType::F32 => 4,
            QuantType::F16 | QuantType::BF16 => 2,
            QuantType::Q4_0 => 18,
            QuantType::Q4_1 => 20,
            QuantType::Q5_0 => 22,
            QuantType::Q5_1 => 24,
            QuantType::Q8_0 => 34,
            QuantType::Q4K => 144,
            QuantType::Q5K => 176,
            QuantType::Q6K => 210,
        }
    }

    /// The name under which GGML knows the format.
    pub open spec fn label(self) -> Seq<char> {
        match self {
            QuantType::F32 => "F32"@,
            QuantType::F16 => "F16"@,
            QuantType::BF16 => "BF16"@,
            QuantType::Q4_0 => "Q4_0"@,
            QuantType::Q4_1 => "Q4_1"@,
            QuantType::Q5_0 => "Q5_0"@,
            QuantType::Q5_1 => "Q5_1"@,
            QuantType::Q8_0 => "Q8_0"@,
            QuantType::Q4K => "Q4_K"@,
            QuantType::Q5K => "Q5_K"@,
            QuantType::Q6K => "Q6_K"@,
        }
    }

    /// The name under which GGML knows the format.
    pub fn name(self) -> (name: &'static str)
        ensures
            name@ == self.label(),
    {
        match self {
            QuantType::F32 => "F32",
            QuantType::F16 => "F16",
            QuantType::BF16 => "BF16",
            QuantType::Q4_0 => "Q4_0",
            QuantType::Q4_1 => "Q4_1",
            QuantType::Q5_0 => "Q5_0",
            QuantType::Q5_1 => "Q5_1",
            QuantType::Q8_0 => "Q8_0",
            QuantType::Q4K => "Q4_K",
            QuantType::Q5K => "Q5_K",
            QuantType::Q6K => "Q6_K",
        }
    }
}

/// The format that a GGML type number names.
pub open spec fn ggml_format(value: u32) -> Option<QuantType> {
    match value {
        0u32 => Some(QuantType::F32),
        1u32 => Some(QuantType::F16),
        2u32 => Some(QuantType::Q4_0),
        3u32 => Some(QuantType::Q4_1),
        6u32 => Some(QuantType::Q5_0),
        7u32 => Some(QuantType::Q5_1),
        8u32 => Some(QuantType::Q8_0),
        12u32 => Some(QuantType::Q4K),
        13u32 => Some(QuantType::Q5K),
        14u32 => Some(QuantType::Q6K),
        30u32 => Some(QuantType::BF16),
        _ => None,
    }
}

/// Every format has one GGML type number, and no other number names it.
pub proof fn ggml_numbers_name_formats_uniquely(ty: QuantType, value: u32)
    ensures
        ggml_format(value) == Some(ty) <==> value == ty.ggml_code(),
{
}

/// How one stored element is decoded. The half-precision factors are given by their bit patterns.
#[allow(inconsistent_fields)]
#[derive(Clone, Copy, Debug, PartialEq, Eq, Structural)]
pub enum ElementCode {
    /// A single-precision value, by its bit pattern.
    F32 { bits: u32 },
    /// A half-precision value, by its bit pattern.
    F16 { bits: u16 },
    /// A bfloat16 value, by its bit pattern.
    BF16 { bits: u16 },
    /// The value `d * code`.
    Scaled { d: u16, code: i8 },
    /// The value `d * code + m`.
    Shifted { d: u16, m: u16, code: u8 },
    /// The value `d * scale * code - dmin * min`.
    Grouped { d: u16, dmin: u16, scale: u8, min: u8, code: u8 },
    /// The value `d * scale * code`.
    GroupScaled { d: u16, scale: i8, code: i8 },
}

/// The nibble of element `j` in a block of 32 whose nibbles start at `at`: the first half of the
/// block lies in the low nibbles, the second half in the high ones.
pub open spec fn nibble32(block: Seq<u8>, at: int, j: int) -> int {
    if j < 16 {
        bytes::low4(block[at + j])
    } else {
        bytes::high4(block[at + j - 16])
    }
}

/// The nibble of element `j` in a super-block whose nibbles start at `at`: two groups of 32 share
/// 32 bytes, the even group in the low nibbles, the odd one in the high ones.
pub open spec fn nibble256(block: Seq<u8>, at: int, j: int) -> int {
    let packed = block[at + j / 64 * 32 + j % 32];
    if (j / 32) % 2 == 0 {
        bytes::low4(packed)
    } else {
        bytes::high4(packed)
    }
}

/// The six-bit scale of group `g`, of the eight scales packed into the 12 bytes at `at`.
pub open spec fn k4_scale(block: Seq<u8>, at: int, g: int) -> int {
    if g < 4 {
        block[at + g] as int % 64
    } else {
        bytes::low4(block[at + g + 4]) + 16 * (block[at + g - 4] as int / 64)
    }
}

/// The six-bit minimum of group `g`, of the eight minima packed into the 12 bytes at `at`.
pub open spec fn k4_min(block: Seq<u8>, at: int, g: int) -> int {
    if g < 4 {
        block[at + g + 4] as int % 64
    } else {
        bytes::high4(block[at + g + 4]) + 16 * (block[at + g] as int / 64)
    }
}

/// The six-bit code of element `j` of a Q6_K block, before 32 is subtracted from it.
pub open spec fn q6k_code(block: Seq<u8>, j: int) -> int {
    let half = j / 128;
    let quarter = (j % 128) / 32;
    let lane = j % 32;
    let packed = block[half * 64 + (quarter % 2) * 32 + lane];
    (if quarter < 2 {
        bytes::low4(packed)
    } else {
        bytes::high4(packed)
    }) + 16 * bytes::pair_of(block[128 + half * 32 + lane], quarter)
}

/// What element `j` of one block of format `ty` decodes to.
pub open spec fn block_code(block: Seq<u8>, ty: QuantType, j: int) -> ElementCode {
    match ty {
        QuantType::F32 => ElementCode::F32 { bits: bytes::le32(block, 0) as u32 },
        QuantType::F16 => ElementCode::F16 { bits: bytes::le16(block, 0) as u16 },
        QuantType::BF16 => ElementCode::BF16 { bits: bytes::le16(block, 0) as u16 },
        QuantType::Q4_0 => ElementCode::Scaled {
            d: bytes::le16(block, 0) as u16,
            code: (nibble32(block, 2, j) - 8) as i8,
        },
        QuantType::Q4_1 => ElementCode::Shifted {
            d: bytes::le16(block, 0) as u16,
            m: bytes::le16(block, 2) as u16,
            code: nibble32(block, 4, j) as u8,
        },
        QuantType::Q5_0 => ElementCode::Scaled {
            d: bytes::le16(block, 0) as u16,
            code: (nibble32(block, 6, j) + 16 * bytes::bit_of(block[2 + j / 8], j % 8) - 16) as i8,
        },
        QuantType::Q5_1 => ElementCode::Shifted {
            d: bytes::le16(block, 0) as u16,
            m: bytes::le16(block, 2) as u16,
            code: (nibble32(block, 8, j) + 16 * bytes::bit_of(block[4 + j / 8], j % 8)) as u8,
        },
        QuantType::Q8_0 => ElementCode::Scaled {
            d: bytes::le16(block, 0) as u16,
            code: bytes::signed8(block[2 + j]) as i8,
        },
        QuantType::Q4K => ElementCode::Grouped {
            d: bytes::le16(block, 0) as u16,
            dmin: bytes::le16(block, 2) as u16,
            scale: k4_scale(block, 4, j / 32) as u8,
            min: k4_min(block, 4, j / 32) as u8,
            code: nibble256(block, 16, j) as u8,
        },
        QuantType::Q5K => ElementCode::Grouped {
            d: bytes::le16(block, 0) as u16,
            dmin: bytes::le16(block, 2) as u16,
            scale: k4_scale(block, 4, j / 32) as u8,
            min: k4_min(block, 4, j / 32) as u8,
            code: (nibble256(block, 48, j) + 16 * bytes::bit_of(block[16 + j % 32], j / 32)) as u8,
        },
        QuantType::Q6K => ElementCode::GroupScaled {
            d: bytes::le16(block, 208) as u16,
            scale: bytes::signed8(block[192 + j / 16]) as i8,
            code: (q6k_code(block, j) - 32) as i8,
        },
    }
}

/// Block `b` of a row of format `ty`.
pub open spec fn block_of(row: Seq<u8>, ty: QuantType, b: int) -> Seq<u8> {
    row.subrange(b * ty.block_bytes(), (b + 1) * ty.block_bytes())
}

/// What column `col` of a row of format `ty` decodes to.
pub open spec fn code_at(row: Seq<u8>, ty: QuantType, col: int) -> ElementCode {
    block_code(block_of(row, ty, col / ty.block_len()), ty, col % ty.block_len())
}

/// Reads the six-bit scale and minimum of group `index` from the 12 bytes at `at`.
pub fn scale_min_k4(block: &[u8], at: usize, index: usize) -> (r: (u8, u8))
    requires
        index < 8,
        at + 12 <= block@.len(),
    ensures
        r.0 == k4_scale(block@, at as int, index as int),
        r.1 == k4_min(block@, at as int, index as int),
        r.0 < 64,
        r.1 < 64,
{
    let n: usize = block.len();
    if index < 4 {
        let a: u8 = block[at + index];
        let b: u8 = block[at + index + 4];
        (a % 64, b % 64)
    } else {
        let shared: u8 = block[at + index + 4];
        let a: u8 = block[at + index - 4];
        let b: u8 = block[at + index];
        (bytes::low_nibble(shared) + 16 * (a / 64), bytes::high_nibble(shared) + 16 * (b / 64))
    }
}

/// Reads the nibble of element `j` in a block of 32.
fn read_nibble32(block: &[u8], at: usize, j: usize) -> (r: u8)
    requires
        j < 32,
        at + 16 <= block@.len(),
    ensures
        r == nibble32(block@, at as int, j as int),
        r < 16,
{
    let n: usize = block.len();
    if j < 16 {
        bytes::low_nibble(block[at + j])
    } else {
        bytes::high_nibble(block[at + (j - 16)])
    }
}

/// Reads the nibble of element `j` in a super-block.
fn read_nibble256(block: &[u8], at: usize, j: usize) -> (r: u8)
    requires
        j < 256,
        at + 128 <= block@.len(),
    ensures
        r == nibble256(block@, at as int, j as int),
        r < 16,
{
    let n: usize = block.len();
    let packed: u8 = block[at + j / 64 * 32 + j % 32];
    if (j / 32) % 2 == 0 {
        bytes::low_nibble(packed)
    } else {
        bytes::high_nibble(packed)
    }
}

/// Reads the six-bit code of element `j` of a Q6_K block.
fn read_q6k_code(block: &[u8], j: usize) -> (r: u8)
    requires
        j < 256,
        block@.len() == 210,
    ensures
        r == q6k_code(block@, j as int),
        r < 64,
{
    let half: usize = j / 128;
    let quarter: usize = (j % 128) / 32;
    let lane: usize = j % 32;
    let packed: u8 = block[half * 64 + (quarter % 2) * 32 + lane];
    let low: u8 = if quarter < 2 {
        bytes::low_nibble(packed)
    } else {
        bytes::high_nibble(packed)
    };
    low + 16 * bytes::bit_pair(block[128 + half * 32 + lane], quarter as u8)
}

/// Decodes element `j` of one block.
pub fn decode_in_block(block: &[u8], ty: QuantType, j: usize) -> (code: ElementCode)
    requires
        j < ty.block_len(),
        block@.len() == ty.block_bytes(),
    ensures
        code == block_code(block@, ty, j as int),
{
    match ty {
        QuantType::F32 => ElementCode::F32 { bits: bytes::read_u32(block, 0) },
        QuantType::F16 => ElementCode::F16 { bits: bytes::read_u16(block, 0) },
        QuantType::BF16 => ElementCode::BF16 { bits: bytes::read_u16(block, 0) },
        QuantType::Q4_0 => ElementCode::Scaled {
            d: bytes::read_u16(block, 0),
            code: read_nibble32(block, 2, j) as i8 - 8,
        },
        QuantType::Q4_1 => ElementCode::Shifted {
            d: bytes::read_u16(block, 0),
            m: bytes::read_u16(block, 2),
            code: read_nibble32(block, 4, j),
        },
        QuantType::Q5_0 => {
            let high: u8 = bytes::bit(block[2 + j / 8], (j % 8) as u8);
            ElementCode::Scaled {
                d: bytes::read_u16(block, 0),
                code: (read_nibble32(block, 6, j) + 16 * high) as i8 - 16,
            }
        },
        QuantType::Q5_1 => {
            let high: u8 = bytes::bit(block[4 + j / 8], (j % 8) as u8);
            ElementCode::Shifted {
                d: bytes::read_u16(block, 0),
                m: bytes::read_u16(block, 2),
                code: read_nibble32(block, 8, j) + 16 * high,
            }
        },
        QuantType::Q8_0 => ElementCode::Scaled {
            d: bytes::read_u16(block, 0),
            code: bytes::signed(block[2 + j]),
        },
        QuantType::Q4K => {
            let (scale, min) = scale_min_k4(block, 4, j / 32);
            ElementCode::Grouped {
                d: bytes::read_u16(block, 0),
                dmin: bytes::read_u16(block, 2),
                scale,
                min,
                code: read_nibble256(block, 16, j),
            }
        },
        QuantType::Q5K => {
            let (scale, min) = scale_min_k4(block, 4, j / 32);
            let high: u8 = bytes::bit(block[16 + j % 32], (j / 32) as u8);
            ElementCode::Grouped {
                d: bytes::read_u16(block, 0),
                dmin: bytes::read_u16(block, 2),
                scale,
                min,
                code: read_nibble256(block, 48, j) + 16 * high,
            }
        },
        QuantType::Q6K => ElementCode::GroupScaled {
            d: bytes::read_u16(block, 208),
            scale: bytes::signed(block[192 + j / 16]),
            code: read_q6k_code(block, j) as i8 - 32,
        },
    }
}

/// Decodes column `col` of a row.
pub fn value_at(row: &[u8], ty: QuantType, col: usize) -> (code: ElementCode)
    requires
        (col as int / ty.block_len() + 1) * ty.block_bytes() <= row@.len(),
    ensures
        code == code_at(row@, ty, col as int),
{
    let n: usize = row.len();
    let size: usize = ty.block_size();
    let width: usize = ty.type_size();
    let b: usize = col / size;
    assert(b * width <= (b + 1) * width) by (nonlinear_arith);
    assert((b + 1) * width == b * width + width) by (nonlinear_arith);
    let start: usize = b * width;
    let block = &row[start..start + width];
    decode_in_block(block, ty, col % size)
}

/// The column that the `k`-th step of a row product visits: the formats that keep two halves of a
/// block in one byte take both halves together, and Q6_K takes its four quarters together.
pub open spec fn visit_order(ty: QuantType, k: int) -> int {
    match ty {
        QuantType::Q4_0 | QuantType::Q4_1 | QuantType::Q5_0 | QuantType::Q5_1 => k / 32 * 32 + (k
            % 32) / 2 + 16 * (k % 2),
        QuantType::Q6K => k / 128 * 128 + (k % 128) / 4 + 32 * (k % 4),
        _ => k,
    }
}

/// The step of a row product that visits column `col`.
pub open spec fn visit_step(ty: QuantType, col: int) -> int {
    match ty {
        QuantType::Q4_0 | QuantType::Q4_1 | QuantType::Q5_0 | QuantType::Q5_1 => col / 32 * 32 + (
        col % 16) * 2 + (col % 32) / 16,
        QuantType::Q6K => col / 128 * 128 + (col % 32) * 4 + (col % 128) / 32,
        _ => col,
    }
}

/// Every column is visited exactly once: the order stays inside the row, and each column has one
/// step that visits it.
pub proof fn visit_order_is_a_permutation(ty: QuantType, cols: int)
    requires
        cols >= 0,
        cols % ty.block_len() == 0,
    ensures
        forall|k: int| 0 <= k < cols ==> 0 <= #[trigger] visit_order(ty, k) < cols,
        forall|k: int| 0 <= k < cols ==> visit_step(ty, #[trigger] visit_order(ty, k)) == k,
        forall|c: int| 0 <= c < cols ==> 0 <= #[trigger] visit_step(ty, c) < cols,
        forall|c: int| 0 <= c < cols ==> visit_order(ty, #[trigger] visit_step(ty, c)) == c,
{
    assert forall|k: int| 0 <= k < cols implies 0 <= #[trigger] visit_order(ty, k) < cols
        && visit_step(ty, visit_order(ty, k)) == k by {
        lemma_visit_halves(k);
        lemma_visit_quarters(k);
        lemma_block_end(ty, cols, k);
    }
    assert forall|c: int| 0 <= c < cols implies 0 <= #[trigger] visit_step(ty, c) < cols
        && visit_order(ty, visit_step(ty, c)) == c by {
        lemma_visit_halves(c);
        lemma_visit_quarters(c);
        lemma_block_end(ty, cols, c);
    }
}

/// Where a column lies in a block of halves, and where its step lies.
proof fn lemma_visit_halves(k: int)
    requires
        k >= 0,
    ensures
        ({
            let r = k % 32;
            let to = r / 2 + 16 * (r % 2);
            let from = (r % 16) * 2 + r / 16;
            &&& 0 <= to < 32 && 0 <= from < 32
            &&& (to % 16) * 2 + to / 16 == r
            &&& from / 2 + 16 * (from % 2) == r
            &&& (k / 32 * 32 + to) % 32 == to && (k / 32 * 32 + to) / 32 == k / 32
            &&& (k / 32 * 32 + from) % 32 == from && (k / 32 * 32 + from) / 32 == k / 32
            &&& k % 2 == r % 2 && k % 16 == r % 16
            &&& (k / 32 * 32 + to) % 16 == to % 16 && (k / 32 * 32 + from) % 2 == from % 2
        }),
{
    let q = k / 32;
    let r = k % 32;
    lemma_halves_swap(r);
    lemma_block32(q, r);
    lemma_block32(q, r / 2 + 16 * (r % 2));
    lemma_block32(q, (r % 16) * 2 + r / 16);
}

/// Interleaving the two halves of a block of 32 and parting them again.
proof fn lemma_halves_swap(r: int)
    requires
        0 <= r < 32,
    ensures
        ({
            let to = r / 2 + 16 * (r % 2);
            let from = (r % 16) * 2 + r / 16;
            &&& 0 <= to < 32 && 0 <= from < 32
            &&& (to % 16) * 2 + to / 16 == r
            &&& from / 2 + 16 * (from % 2) == r
        }),
{
    let a = r / 2;
    let b = r % 2;
    assert(r == 2 * a + b && 0 <= a < 16 && 0 <= b < 2);
    assert((a + 16 * b) % 16 == a && (a + 16 * b) / 16 == b);
    let c = r / 16;
    let e = r % 16;
    assert(r == 16 * c + e && 0 <= c < 2 && 0 <= e < 16);
    assert((2 * e + c) / 2 == e && (2 * e + c) % 2 == c);
}

/// A position inside block `q` of 32.
proof fn lemma_block32(q: int, x: int)
    requires
        q >= 0,
        0 <= x < 32,
    ensures
        (q * 32 + x) % 32 == x,
        (q * 32 + x) / 32 == q,
        (q * 32 + x) % 16 == x % 16,
        (q * 32 + x) % 2 == x % 2,
{
    let v = q * 32 + x;
    vstd::arithmetic::div_mod::lemma_fundamental_div_mod_converse(v, 32, q, x);
    vstd::arithmetic::div_mod::lemma_fundamental_div_mod_converse(v, 16, 2 * q + x / 16, x % 16);
    vstd::arithmetic::div_mod::lemma_fundamental_div_mod_converse(v, 2, 16 * q + x / 2, x % 2);
}

/// Where a column lies in a half of a Q6_K block, and where its step lies.
proof fn lemma_visit_quarters(k: int)
    requires
        k >= 0,
    ensures
        ({
            let r = k % 128;
            let to = r / 4 + 32 * (r % 4);
            let from = (r % 32) * 4 + r / 32;
            &&& 0 <= to < 128 && 0 <= from < 128
            &&& (to % 32) * 4 + to / 32 == r
            &&& from / 4 + 32 * (from % 4) == r
            &&& (k / 128 * 128 + to) % 128 == to && (k / 128 * 128 + to) / 128 == k / 128
            &&& (k / 128 * 128 + from) % 128 == from && (k / 128 * 128 + from) / 128 == k / 128
            &&& k % 4 == r % 4 && k % 32 == r % 32
            &&& (k / 128 * 128 + to) % 32 == to % 32 && (k / 128 * 128 + from) % 4 == from % 4
        }),
{
    let q = k / 128;
    let r = k % 128;
    lemma_quarters_swap(r);
    lemma_block128(q, r);
    lemma_block128(q, r / 4 + 32 * (r % 4));
    lemma_block128(q, (r % 32) * 4 + r / 32);
}

/// Interleaving the four quarters of half a Q6_K block and parting them again.
proof fn lemma_quarters_swap(r: int)
    requires
        0 <= r < 128,
    ensures
        ({
            let to = r / 4 + 32 * (r % 4);
            let from = (r % 32) * 4 + r / 32;
            &&& 0 <= to < 128 && 0 <= from < 128
            &&& (to % 32) * 4 + to / 32 == r
            &&& from / 4 + 32 * (from % 4) == r
        }),
{
    let a = r / 4;
    let b = r % 4;
    assert(r == 4 * a + b && 0 <= a < 32 && 0 <= b < 4);
    assert((a + 32 * b) % 32 == a && (a + 32 * b) / 32 == b);
    let c = r / 32;
    let e = r % 32;
    assert(r == 32 * c + e && 0 <= c < 4 && 0 <= e < 32);
    assert((4 * e + c) / 4 == e && (4 * e + c) % 4 == c);
}

/// A position inside half block `q` of 128.
proof fn lemma_block128(q: int, x: int)
    requires
        q >= 0,
        0 <= x < 128,
    ensures
        (q * 128 + x) % 128 == x,
        (q * 128 + x) / 128 == q,
        (q * 128 + x) % 32 == x % 32,
        (q * 128 + x) % 4 == x % 4,
{
    let v = q * 128 + x;
    vstd::arithmetic::div_mod::lemma_fundamental_div_mod_converse(v, 128, q, x);
    vstd::arithmetic::div_mod::lemma_fundamental_div_mod_converse(v, 32, 4 * q + x / 32, x % 32);
    vstd::arithmetic::div_mod::lemma_fundamental_div_mod_converse(v, 4, 32 * q + x / 4, x % 4);
}

/// The block of 32, or the half block of 128, that holds a column ends inside the row.
proof fn lemma_block_end(ty: QuantType, cols: int, k: int)
    requires
        0 <= k < cols,
        cols % ty.block_len() == 0,
    ensures
        ty.block_len() == 32 ==> k / 32 * 32 + 32 <= cols,
        ty.block_len() == 256 ==> k / 128 * 128 + 128 <= cols,
{
}

/// The steps of a product of a row with `input`: in visiting order, the code of the column and the
/// input's value in that column.
pub open spec fn visits<T>(row: Seq<u8>, ty: QuantType, input: Seq<T>) -> Seq<(ElementCode, T)> {
    Seq::new(
        input.len(),
        |k: int| (code_at(row, ty, visit_order(ty, k)), input[visit_order(ty, k)]),
    )
}

/// `trace` runs through `steps` from its first value on, one call of `step` at a time.
pub open spec fn accumulates<T, F: Fn(T, ElementCode, T) -> T>(
    step: F,
    steps: Seq<(ElementCode, T)>,
    trace: Seq<T>,
) -> bool {
    &&& trace.len() == steps.len() + 1
    &&& forall|k: int|
        0 <= k < steps.len() ==> call_ensures(
            step,
            (trace[k], (#[trigger] steps[k]).0, steps[k].1),
            trace[k + 1],
        )
}

/// `total` is what accumulating the product of a row with `input` from `zero` on gives.
pub open spec fn dot_result<T, F: Fn(T, ElementCode, T) -> T>(
    step: F,
    row: Seq<u8>,
    ty: QuantType,
    input: Seq<T>,
    zero: T,
    total: T,
) -> bool {
    exists|trace: Seq<T>|
        #[trigger] accumulates(step, visits(row, ty, input), trace) && trace.first() == zero
            && trace.last() == total
}

/// A column inside a row of whole blocks lies in one of the row's blocks.
proof fn lemma_column_in_row(ty: QuantType, cols: int, col: int)
    requires
        0 <= col < cols,
        cols % ty.block_len() == 0,
    ensures
        (col / ty.block_len() + 1) * ty.block_bytes() <= stride(cols, ty),
{
    let b = col / ty.block_len();
    let n = cols / ty.block_len();
    assert(b + 1 <= n);
    assert((b + 1) * ty.block_bytes() <= n * ty.block_bytes()) by (nonlinear_arith)
        requires
            b + 1 <= n,
            ty.block_bytes() > 0,
    ;
}

/// One more step lengthens a trace by one value.
proof fn lemma_accumulates_push<T, F: Fn(T, ElementCode, T) -> T>(
    step: F,
    steps: Seq<(ElementCode, T)>,
    k: int,
    trace: Seq<T>,
    next: T,
)
    requires
        0 <= k < steps.len(),
        accumulates(step, steps.take(k), trace),
        call_ensures(step, (trace.last(), steps[k].0, steps[k].1), next),
    ensures
        accumulates(step, steps.take(k + 1), trace.push(next)),
{
    let longer = trace.push(next);
    assert forall|i: int| 0 <= i < k + 1 implies call_ensures(
        step,
        (longer[i], (#[trigger] steps.take(k + 1)[i]).0, steps.take(k + 1)[i].1),
        longer[i + 1],
    ) by {
        if i < k {
            assert(steps.take(k + 1)[i] == steps.take(k)[i]);
        }
    }
}

/// The column that the `k`-th step of a product with a row of `cols` columns visits.
fn visit_column(ty: QuantType, cols: usize, k: usize) -> (col: usize)
    requires
        k < cols,
        cols as int % ty.block_len() == 0,
    ensures
        col == visit_order(ty, k as int),
        col < cols,
{
    proof {
        lemma_visit_halves(k as int);
        lemma_visit_quarters(k as int);
        lemma_block_end(ty, cols as int, k as int);
    }
    match ty {
        QuantType::Q4_0 | QuantType::Q4_1 | QuantType::Q5_0 | QuantType::Q5_1 => k / 32 * 32 + ((k
            % 32) / 2 + 16 * (k % 2)),
        QuantType::Q6K => k / 128 * 128 + ((k % 128) / 4 + 32 * (k % 4)),
        _ => k,
    }
}

/// Steps over zeros keep the sum, and the one step over the unit makes it the element's value.
proof fn lemma_one_hot_course<T, F: Fn(T, ElementCode, T) -> T>(
    step: F,
    steps: Seq<(ElementCode, T)>,
    trace: Seq<T>,
    zero: T,
    one: T,
    decoded: spec_fn(ElementCode) -> T,
    place: int,
    k: int,
)
    requires
        forall|t: T, c: ElementCode, r: T| #[trigger] call_ensures(step, (t, c, zero), r) ==> r == t,
        forall|c: ElementCode, r: T| #[trigger]
            call_ensures(step, (zero, c, one), r) ==> r == decoded(c),
        accumulates(step, steps, trace),
        trace.first() == zero,
        0 <= place < steps.len(),
        steps[place].1 == one,
        forall|j: int| 0 <= j < steps.len() && j != place ==> (#[trigger] steps[j]).1 == zero,
        0 <= k <= steps.len(),
    ensures
        trace[k] == (if k <= place {
            zero
        } else {
            decoded(steps[place].0)
        }),
    decreases k,
{
    if k > 0 {
        lemma_one_hot_course(step, steps, trace, zero, one, decoded, place, k - 1);
        let (code, x) = (steps[k - 1].0, steps[k - 1].1);
        assert(call_ensures(step, (trace[k - 1], code, x), trace[k]));
    }
}

/// An input that is the unit in one column and zero in the others reads the element of that column:
/// the product of the row is the value that the element decodes to. A step keeps the sum where the
/// input is zero, and makes the element's value of the zero sum where it is the unit.
pub proof fn one_hot_inputs_read_the_element<T, F: Fn(T, ElementCode, T) -> T>(
    step: F,
    row: Seq<u8>,
    ty: QuantType,
    input: Seq<T>,
    zero: T,
    one: T,
    decoded: spec_fn(ElementCode) -> T,
    col: int,
    total: T,
)
    requires
        input.len() as int % ty.block_len() == 0,
        forall|t: T, c: ElementCode, r: T| #[trigger] call_ensures(step, (t, c, zero), r) ==> r == t,
        forall|c: ElementCode, r: T| #[trigger]
            call_ensures(step, (zero, c, one), r) ==> r == decoded(c),
        0 <= col < input.len(),
        input[col] == one,
        forall|j: int| 0 <= j < input.len() && j != col ==> #[trigger] input[j] == zero,
        dot_result(step, row, ty, input, zero, total),
    ensures
        total == decoded(code_at(row, ty, col)),
{
    visit_order_is_a_permutation(ty, input.len() as int);
    let steps = visits(row, ty, input);
    let place = visit_step(ty, col);
    assert(visit_order(ty, place) == col);
    assert forall|j: int| 0 <= j < steps.len() && j != place implies (#[trigger] steps[j]).1
        == zero by {
        assert(visit_step(ty, visit_order(ty, j)) == j);
        assert(input[visit_order(ty, j)] == zero);
    }
    let trace = choose|trace: Seq<T>| #[trigger]
        accumulates(step, steps, trace) && trace.first() == zero && trace.last() == total;
    lemma_one_hot_course(
        step,
        steps,
        trace,
        zero,
        one,
        decoded,
        place,
        steps.len() as int,
    );
}

/// The product of a row with `input`: `step` is called once for each column with the running total,
/// the column's code and the input's value.
pub fn dot_row<T: Copy, F: Fn(T, ElementCode, T) -> T>(
    row: &[u8],
    ty: QuantType,
    input: &[T],
    zero: T,
    step: &F,
) -> (total: T)
    requires
        input@.len() as int % ty.block_len() == 0,
        row@.len() == stride(input@.len() as int, ty),
        forall|t: T, c: ElementCode, x: T| call_requires(*step, (t, c, x)),
    ensures
        dot_result(*step, row@, ty, input@, zero, total),
{
    let n: usize = input.len();
    let mut total = zero;
    let ghost steps = visits(row@, ty, input@);
    let ghost mut trace = seq![zero];
    for k in 0..n
        invariant
            n == input@.len(),
            n as int % ty.block_len() == 0,
            row@.len() == stride(n as int, ty),
            forall|t: T, c: ElementCode, x: T| call_requires(*step, (t, c, x)),
            steps == visits(row@, ty, input@),
            accumulates(*step, steps.take(k as int), trace),
            trace.first() == zero,
            trace.last() == total,
    {
        let col: usize = visit_column(ty, n, k);
        proof {
            lemma_column_in_row(ty, n as int, col as int);
        }
        let code = value_at(row, ty, col);
        let before = total;
        total = step(before, code, input[col]);
        proof {
            assert(steps[k as int] == (code, input@[col as int]));
            lemma_accumulates_push(*step, steps, k as int, trace, total);
            trace = trace.push(total);
        }
    }
    assert(steps.take(n as int) =~= steps);
    total
}

/// The bytes of a tensor: its own, or a range of a mapped file.
#[derive(Debug)]
pub enum TensorData<'a> {
    Owned(Arc<Vec<u8>>),
    Mapped { mmap: &'a [u8], start: usize, len: usize },
}

impl<'a> TensorData<'a> {
    /// A mapped range lies inside the file.
    pub open spec fn valid(&self) -> bool {
        match self {
            TensorData::Owned(_) => true,
            TensorData::Mapped { mmap, start, len } => *start + *len <= mmap@.len(),
        }
    }

    /// The bytes.
    pub open spec fn contents(&self) -> Seq<u8> {
        match self {
            TensorData::Owned(data) => data@,
            TensorData::Mapped { mmap, start, len } => mmap@.subrange(*start as int, *start + *len),
        }
    }

    /// The bytes.
    pub fn as_bytes(&self) -> (data: &[u8])
        requires
            self.valid(),
        ensures
            data@ == self.contents(),
    {
        match self {
            TensorData::Owned(data) => data.as_slice(),
            TensorData::Mapped { mmap, start, len } => {
                let n: usize = mmap.len();
                let end: usize = *start + *len;
                &mmap[*start..end]
            },
        }
    }
}

/// A row-major matrix. `shape` is `[rows, columns]`, or `[length]` for a vector.
#[derive(Debug)]
pub struct QuantTensor<'a> {
    pub data: TensorData<'a>,
    pub shape: Vec<usize>,
    pub quant_type: QuantType,
}

impl<'a> Clone for TensorData<'a> {
    fn clone(&self) -> (copy: TensorData<'a>)
        ensures
            copy == *self,
    {
        match self {
            TensorData::Owned(data) => TensorData::Owned(data.clone()),
            TensorData::Mapped { mmap, start, len } => TensorData::Mapped {
                mmap: *mmap,
                start: *start,
                len: *len,
            },
        }
    }
}

impl<'a> Clone for QuantTensor<'a> {
    fn clone(&self) -> (copy: QuantTensor<'a>)
        ensures
            copy.data == self.data,
            copy.shape@ == self.shape@,
            copy.quant_type == self.quant_type,
    {
        let shape = self.shape.clone();
        assert(shape@ =~= self.shape@);
        QuantTensor { data: self.data.clone(), shape, quant_type: self.quant_type }
    }
}

/// The number of rows that a shape describes: a vector is one row.
pub open spec fn shape_rows(shape: Seq<usize>) -> int {
    if shape.len() == 1 {
        1
    } else {
        shape[0] as int
    }
}

/// The number of columns that a shape describes.
pub open spec fn shape_cols(shape: Seq<usize>) -> int {
    shape.last() as int
}

/// The number of bytes that one row of `cols` columns takes.
pub open spec fn stride(cols: int, ty: QuantType) -> int {
    cols / ty.block_len() * ty.block_bytes()
}

/// What a tensor with `len` bytes of data, the given shape and format is refused for.
pub open spec fn tensor_fault(len: int, shape: Seq<usize>, ty: QuantType) -> Option<QuantError> {
    if shape.len() == 0 || shape.len() > 2 {
        Some(QuantError::Rank)
    } else if shape_cols(shape) % ty.block_len() != 0 {
        Some(QuantError::BlockMultiple { cols: shape.last(), quant_type: ty })
    } else if len != shape_rows(shape) * stride(shape_cols(shape), ty) {
        Some(QuantError::ByteLength { got: len as usize, quant_type: ty })
    } else {
        None
    }
}

impl<'a> QuantTensor<'a> {
    /// The data is as long as the shape and the format say.
    pub open spec fn valid(&self) -> bool {
        &&& self.data.valid()
        &&& tensor_fault(self.data.contents().len() as int, self.shape@, self.quant_type) is None
    }

    /// Number of rows.
    pub open spec fn n_rows(&self) -> int {
        shape_rows(self.shape@)
    }

    /// Number of columns.
    pub open spec fn n_cols(&self) -> int {
        shape_cols(self.shape@)
    }

    /// The bytes of one row.
    pub open spec fn row_seq(&self, row: int) -> Seq<u8> {
        let width = stride(self.n_cols(), self.quant_type);
        self.data.contents().subrange(row * width, (row + 1) * width)
    }

    /// What the element in the given row and column decodes to.
    pub open spec fn code(&self, row: int, col: int) -> ElementCode {
        code_at(self.row_seq(row), self.quant_type, col)
    }

    /// A tensor over bytes of its own.
    pub fn from_owned(data: Vec<u8>, shape: Vec<usize>, quant_type: QuantType) -> (result: Result<
        QuantTensor<'a>,
        QuantError,
    >)
        ensures
            match tensor_fault(data@.len() as int, shape@, quant_type) {
                Some(fault) => result == Err::<QuantTensor<'a>, QuantError>(fault),
                None => result is Ok && result->Ok_0.valid() && result->Ok_0.data.contents() == data@
                    && result->Ok_0.shape == shape && result->Ok_0.quant_type == quant_type,
            },
    {
        QuantTensor::from_data(TensorData::Owned(Arc::new(data)), shape, quant_type)
    }

    /// A tensor over a range of a mapped file.
    pub fn from_mmap(
        mmap: &'a [u8],
        start: usize,
        len: usize,
        shape: Vec<usize>,
        quant_type: QuantType,
    ) -> (result: Result<QuantTensor<'a>, QuantError>)
        ensures
            start + len > mmap@.len() ==> result == Err::<QuantTensor<'a>, QuantError>(
                QuantError::RangeOutOfBounds,
            ),
            start + len <= mmap@.len() ==> match tensor_fault(len as int, shape@, quant_type) {
                Some(fault) => result == Err::<QuantTensor<'a>, QuantError>(fault),
                None => result is Ok && result->Ok_0.valid() && result->Ok_0.data == (
                TensorData::Mapped { mmap, start, len }) && result->Ok_0.shape == shape
                    && result->Ok_0.quant_type == quant_type,
            },
    {
        if start > mmap.len() || len > mmap.len() - start {
            return Err(QuantError::RangeOutOfBounds);
        }
        QuantTensor::from_data(TensorData::Mapped { mmap, start, len }, shape, quant_type)
    }

    fn from_data(data: TensorData<'a>, shape: Vec<usize>, quant_type: QuantType) -> (result: Result<
        QuantTensor<'a>,
        QuantError,
    >)
        requires
            data.valid(),
        ensures
            match tensor_fault(data.contents().len() as int, shape@, quant_type) {
                Some(fault) => result == Err::<QuantTensor<'a>, QuantError>(fault),
                None => result is Ok && result->Ok_0.valid() && result->Ok_0.data == data
                    && result->Ok_0.shape == shape && result->Ok_0.quant_type == quant_type,
            },
    {
        if shape.len() == 0 || shape.len() > 2 {
            return Err(QuantError::Rank);
        }
        let rows: usize = if shape.len() == 1 {
            1
        } else {
            shape[0]
        };
        let cols: usize = shape[shape.len() - 1];
        let size: usize = quant_type.block_size();
        if cols % size != 0 {
            return Err(QuantError::BlockMultiple { cols, quant_type });
        }
        let got: usize = data.as_bytes().len();
        let blocks: u128 = (cols / size) as u128;
        let width: u128 = quant_type.type_size() as u128;
        assert(blocks * width <= 0xffff_ffff_ffff_ffff * 210) by (nonlinear_arith)
            requires
                0 <= blocks <= 0xffff_ffff_ffff_ffff,
                0 <= width <= 210,
        ;
        let row_bytes: u128 = blocks * width;
        match row_bytes.checked_mul(rows as u128) {
            Some(expected) => {
                assert(row_bytes * rows == rows * row_bytes) by (nonlinear_arith);
                if got as u128 != expected {
                    return Err(QuantError::ByteLength { got, quant_type });
                }
            },
            None => {
                assert(row_bytes * rows == rows * row_bytes) by (nonlinear_arith);
                return Err(QuantError::ByteLength { got, quant_type });
            },
        }
        Ok(QuantTensor { data, shape, quant_type })
    }

    /// Number of rows.
    pub fn rows(&self) -> (n: usize)
        requires
            self.valid(),
        ensures
            n == self.n_rows(),
    {
        if self.shape.len() == 1 {
            1
        } else {
            self.shape[0]
        }
    }

    /// Number of columns.
    pub fn cols(&self) -> (n: usize)
        requires
            self.valid(),
        ensures
            n == self.n_cols(),
    {
        self.shape[self.shape.len() - 1]
    }

    /// Number of bytes in a row.
    pub fn row_bytes(&self) -> (n: usize)
        requires
            self.valid(),
            stride(self.n_cols(), self.quant_type) <= usize::MAX,
        ensures
            n == stride(self.n_cols(), self.quant_type),
    {
        self.cols() / self.quant_type.block_size() * self.quant_type.type_size()
    }

    /// A row that exists lies inside the data, and its bytes can be counted.
    pub proof fn lemma_row_range(&self, row: int)
        requires
            self.valid(),
            0 <= row < self.n_rows(),
        ensures
            0 <= row * stride(self.n_cols(), self.quant_type) <= (row + 1) * stride(
                self.n_cols(),
                self.quant_type,
            ) <= self.data.contents().len(),
            0 <= stride(self.n_cols(), self.quant_type) <= self.data.contents().len(),
            self.row_seq(row).len() == stride(self.n_cols(), self.quant_type),
    {
        let width = stride(self.n_cols(), self.quant_type);
        let rows = self.n_rows();
        assert(0 <= width) by {
            assert(self.n_cols() / self.quant_type.block_len() >= 0);
        }
        assert(row * width >= 0 && (row + 1) * width == row * width + width && (row + 1) * width
            <= rows * width) by (nonlinear_arith)
            requires
                0 <= row < rows,
                0 <= width,
        ;
    }

    /// The bytes of one row.
    pub fn row_data(&self, row: usize) -> (data: &[u8])
        requires
            self.valid(),
            row < self.n_rows(),
        ensures
            data@ == self.row_seq(row as int),
    {
        proof {
            self.lemma_row_range(row as int);
        }
        let all = self.data.as_bytes();
        let total: usize = all.len();
        let width: usize = self.row_bytes();
        let start: usize = row * width;
        assert((row + 1) * width == row * width + width) by (nonlinear_arith);
        &all[start..start + width]
    }

    /// Decodes one row into `output`.
    pub fn row_into<T, F: Fn(ElementCode) -> T>(&self, row: usize, output: &mut [T], decode: &F) -> (
    result: Result<(), QuantError>)
        requires
            self.valid(),
            forall|c: ElementCode| call_requires(*decode, (c,)),
        ensures
            row >= self.n_rows() ==> result == Err::<(), QuantError>(
                QuantError::RowOutOfBounds { row },
            ),
            row < self.n_rows() && old(output)@.len() != self.n_cols() ==> result == Err::<
                (),
                QuantError,
            >(QuantError::OutputLength),
            result is Err ==> final(output)@ == old(output)@,
            row < self.n_rows() && old(output)@.len() == self.n_cols() ==> {
                &&& result is Ok
                &&& final(output)@.len() == self.n_cols()
                &&& forall|col: int|
                    0 <= col < self.n_cols() ==> call_ensures(
                        *decode,
                        (self.code(row as int, col),),
                        #[trigger] final(output)@[col],
                    )
            },
    {
        if row >= self.rows() {
            return Err(QuantError::RowOutOfBounds { row });
        }
        let cols: usize = self.cols();
        if output.len() != cols {
            return Err(QuantError::OutputLength);
        }
        let data = self.row_data(row);
        proof {
            self.lemma_row_range(row as int);
        }
        for col in 0..cols
            invariant
                self.valid(),
                cols == self.n_cols(),
                row < self.n_rows(),
                data@ == self.row_seq(row as int),
                data@.len() == stride(cols as int, self.quant_type),
                output@.len() == cols,
                forall|c: ElementCode| call_requires(*decode, (c,)),
                forall|c: int|
                    0 <= c < col ==> call_ensures(
                        *decode,
                        (self.code(row as int, c),),
                        #[trigger] output@[c],
                    ),
        {
            proof {
                lemma_column_in_row(self.quant_type, cols as int, col as int);
            }
            output[col] = decode(value_at(data, self.quant_type, col));
        }
        Ok(())
    }

    /// Decodes the whole tensor, row after row.
    pub fn to_vec_f32<T, F: Fn(ElementCode) -> T>(&self, decode: &F) -> (output: Vec<T>)
        requires
            self.valid(),
            forall|c: ElementCode| call_requires(*decode, (c,)),
        ensures
            output@.len() == self.n_rows() * self.n_cols(),
            forall|row: int, col: int|
                0 <= row < self.n_rows() && 0 <= col < self.n_cols() ==> call_ensures(
                    *decode,
                    (#[trigger] self.code(row, col),),
                    output@[row * self.n_cols() + col],
                ),
    {
        let rows: usize = self.rows();
        let cols: usize = self.cols();
        let mut output: Vec<T> = Vec::new();
        assert(0 * cols == 0) by (nonlinear_arith);
        for row in 0..rows
            invariant
                self.valid(),
                rows == self.n_rows(),
                cols == self.n_cols(),
                forall|c: ElementCode| call_requires(*decode, (c,)),
                output@.len() == row * cols,
                forall|r: int, c: int|
                    0 <= r < row && 0 <= c < cols ==> call_ensures(
                        *decode,
                        (#[trigger] self.code(r, c),),
                        output@[r * cols + c],
                    ),
        {
            let data = self.row_data(row);
            proof {
                self.lemma_row_range(row as int);
                lemma_flat_index(row as int, cols as int);
            }
            for col in 0..cols
                invariant
                    self.valid(),
                    rows == self.n_rows(),
                    cols == self.n_cols(),
                    row < rows,
                    forall|c: ElementCode| call_requires(*decode, (c,)),
                    data@ == self.row_seq(row as int),
                    data@.len() == stride(cols as int, self.quant_type),
                    output@.len() == row * cols + col,
                    forall|r: int, c: int|
                        0 <= r < row && 0 <= c < cols ==> 0 <= #[trigger] flat_index(r, c, cols as int) < row * cols,
                    forall|r: int, c: int|
                        0 <= r < row && 0 <= c < cols ==> call_ensures(
                            *decode,
                            (#[trigger] self.code(r, c),),
                            output@[r * cols + c],
                        ),
                    forall|c: int|
                        0 <= c < col ==> call_ensures(
                            *decode,
                            (#[trigger] self.code(row as int, c),),
                            output@[row * cols + c],
                        ),
            {
                proof {
                    lemma_column_in_row(self.quant_type, cols as int, col as int);
                    assert(row * cols >= 0) by (nonlinear_arith);
                }
                let ghost before = output@;
                let value = decode(value_at(data, self.quant_type, col));
                output.push(value);
                proof {
                    assert forall|r: int, c: int| 0 <= r < row && 0 <= c < cols implies call_ensures(
                        *decode,
                        (#[trigger] self.code(r, c),),
                        output@[r * cols + c],
                    ) by {
                        assert(0 <= flat_index(r, c, cols as int) < row * cols);
                        assert(output@[r * cols + c] == before[r * cols + c]);
                    }
                }
            }
            assert((row + 1) * cols == row * cols + cols) by (nonlinear_arith);
        }
        output
    }

    /// What a product with an input and an output of the given lengths is refused for.
    pub open spec fn matvec_fault(&self, input: int, output: int) -> Option<QuantError> {
        if self.shape@.len() != 2 {
            Some(QuantError::NotMatrix)
        } else if input != self.n_cols() {
            Some(QuantError::MatvecInput { got: input as usize, expected: self.n_cols() as usize })
        } else if output != self.n_rows() {
            Some(QuantError::MatvecOutput { got: output as usize, expected: self.n_rows() as usize })
        } else {
            None
        }
    }

    /// Checks the lengths of the input and the output of a matrix product.
    pub fn validate_matvec(&self, input: usize, output: usize) -> (result: Result<(), QuantError>)
        requires
            self.valid(),
        ensures
            result == (match self.matvec_fault(input as int, output as int) {
                Some(fault) => Err::<(), QuantError>(fault),
                None => Ok::<(), QuantError>(()),
            }),
    {
        if self.shape.len() != 2 {
            return Err(QuantError::NotMatrix);
        }
        if input != self.cols() {
            return Err(QuantError::MatvecInput { got: input, expected: self.cols() });
        }
        if output != self.rows() {
            return Err(QuantError::MatvecOutput { got: output, expected: self.rows() });
        }
        Ok(())
    }

    /// Multiplies the matrix by `input`: each output value is the product of its row.
    pub fn matvec<T: Copy, F: Fn(T, ElementCode, T) -> T>(
        &self,
        input: &[T],
        output: &mut [T],
        zero: T,
        step: &F,
    ) -> (result: Result<(), QuantError>)
        requires
            self.valid(),
            forall|t: T, c: ElementCode, x: T| call_requires(*step, (t, c, x)),
        ensures
            match self.matvec_fault(input@.len() as int, old(output)@.len() as int) {
                Some(fault) => result == Err::<(), QuantError>(fault) && final(output)@ == old(output)@,
                None => {
                    &&& result is Ok
                    &&& final(output)@.len() == self.n_rows()
                    &&& forall|row: int|
                        0 <= row < self.n_rows() ==> dot_result(
                            *step,
                            self.row_seq(row),
                            self.quant_type,
                            input@,
                            zero,
                            #[trigger] final(output)@[row],
                        )
                },
            },
    {
        match self.validate_matvec(input.len(), output.len()) {
            Err(fault) => return Err(fault),
            Ok(()) => {},
        }
        let rows: usize = self.rows();
        for row in 0..rows
            invariant
                self.valid(),
                rows == self.n_rows(),
                input@.len() == self.n_cols(),
                output@.len() == rows,
                forall|t: T, c: ElementCode, x: T| call_requires(*step, (t, c, x)),
                forall|r: int|
                    0 <= r < row ==> dot_result(
                        *step,
                        self.row_seq(r),
                        self.quant_type,
                        input@,
                        zero,
                        #[trigger] output@[r],
                    ),
        {
            proof {
                self.lemma_row_range(row as int);
            }
            output[row] = dot_row(self.row_data(row), self.quant_type, input, zero, step);
        }
        Ok(())
    }

    /// Stores values that are not quantized.
    pub fn from_f32<T, F: Fn(QuantType, &[T]) -> BlockCodes>(
        values: &[T],
        shape: Vec<usize>,
        encode: &F,
    ) -> (result: Result<QuantTensor<'a>, QuantError>)
        requires
            encoder(*encode),
        ensures
            values@.len() != shape_product(shape@) ==> result == Err::<QuantTensor<'a>, QuantError>(
                QuantError::ShapeMismatch,
            ),
            values@.len() == shape_product(shape@) && (shape@.len() == 0 || shape@.len() > 2)
                ==> result == Err::<QuantTensor<'a>, QuantError>(QuantError::Rank),
            values@.len() == shape_product(shape@) && 1 <= shape@.len() <= 2 ==> {
                &&& result is Ok
                &&& result->Ok_0.valid()
                &&& result->Ok_0.shape == shape
                &&& encoded(*encode, QuantType::F32, values@, result->Ok_0)
            },
    {
        let total: usize = values.len();
        let mut product: Option<usize> = Some(1);
        for i in 0..shape.len()
            invariant
                match product {
                    Some(p) => p == shape_product(shape@.take(i as int)),
                    None => shape_product(shape@.take(i as int)) > usize::MAX,
                },
        {
            proof {
                assert(shape@.take(i + 1).drop_last() =~= shape@.take(i as int));
                assert(shape@.take(i + 1).last() == shape@[i as int]);
            }
            if shape[i] == 0 {
                product = Some(0);
                assert(shape_product(shape@.take(i as int)) * 0 == 0) by (nonlinear_arith);
            } else {
                proof {
                    lemma_product_grows(shape_product(shape@.take(i as int)), shape@[i as int] as int);
                }
                product = match product {
                    Some(p) => p.checked_mul(shape[i]),
                    None => None,
                };
            }
        }
        assert(shape@.take(shape@.len() as int) =~= shape@);
        let matching: bool = match product {
            Some(p) => p == total,
            None => false,
        };
        if !matching {
            return Err(QuantError::ShapeMismatch);
        }
        if shape.len() == 0 || shape.len() > 2 {
            return Err(QuantError::Rank);
        }
        proof {
            reveal_with_fuel(shape_product, 3);
            if shape@.len() == 1 {
                assert(shape@.drop_last().len() == 0);
                assert(shape_product(shape@) == 1 * shape@[0]);
            } else {
                assert(shape@.drop_last().drop_last().len() == 0);
                assert(shape_product(shape@) == 1 * shape@[0] * shape@[1]);
                assert(1 * shape@[0] * shape@[1] == shape@[0] * shape@[1]);
            }
            assert(shape_rows(shape@) * (4 * shape_cols(shape@)) == 4 * (shape_rows(shape@)
                * shape_cols(shape@))) by (nonlinear_arith);
        }
        let data = encode_blocks(QuantType::F32, values, encode);
        QuantTensor::from_owned(data, shape, QuantType::F32)
    }

    /// Quantizes a matrix to `ty`, whose blocks must divide the rows.
    fn quantize_to<T, F: Fn(QuantType, &[T]) -> BlockCodes>(
        ty: QuantType,
        values: &[T],
        rows: usize,
        cols: usize,
        encode: &F,
    ) -> (result: Result<QuantTensor<'a>, QuantError>)
        requires
            encoder(*encode),
            has_encoder(ty),
            cols as int % ty.block_len() == 0,
        ensures
            quantized(*encode, ty, values@, rows, cols, result),
    {
        let total: usize = values.len();
        let product: Option<usize> = rows.checked_mul(cols);
        let matching: bool = match product {
            Some(p) => p == total,
            None => false,
        };
        if !matching {
            return Err(QuantError::ShapeMismatch);
        }
        proof {
            lemma_whole_blocks(rows as int, cols as int, ty);
        }
        let data = encode_blocks(ty, values, encode);
        let shape = vec![rows, cols];
        assert(shape@ =~= seq![rows, cols]);
        QuantTensor::from_owned(data, shape, ty)
    }

    /// Quantizes a matrix to Q4_K. Rows that are not a multiple of 256 fall back to Q5_0, and rows
    /// that are not a multiple of 32 either are not quantized.
    pub fn quantize_q4k<T, F: Fn(QuantType, &[T]) -> BlockCodes>(
        values: &[T],
        rows: usize,
        cols: usize,
        encode: &F,
    ) -> (result: Result<QuantTensor<'a>, QuantError>)
        requires
            encoder(*encode),
            cols > 0 || values@.len() > 0,
        ensures
            quantized(*encode, q4k_format(cols as int), values@, rows, cols, result),
    {
        if cols % QK_K == 0 {
            QuantTensor::quantize_to(QuantType::Q4K, values, rows, cols, encode)
        } else {
            QuantTensor::quantize_q5_0(values, rows, cols, encode)
        }
    }

    /// Quantizes a matrix to Q5_0. Rows that are not a multiple of 32 are not quantized.
    pub fn quantize_q5_0<T, F: Fn(QuantType, &[T]) -> BlockCodes>(
        values: &[T],
        rows: usize,
        cols: usize,
        encode: &F,
    ) -> (result: Result<QuantTensor<'a>, QuantError>)
        requires
            encoder(*encode),
            cols > 0 || values@.len() > 0,
        ensures
            quantized(*encode, q5_0_format(cols as int), values@, rows, cols, result),
    {
        if cols % 32 == 0 {
            QuantTensor::quantize_to(QuantType::Q5_0, values, rows, cols, encode)
        } else {
            QuantTensor::quantize_to(QuantType::F32, values, rows, cols, encode)
        }
    }

    /// Quantizes a matrix to Q8_0. Rows that are not a multiple of 32 are not quantized.
    pub fn quantize_q8_0<T, F: Fn(QuantType, &[T]) -> BlockCodes>(
        values: &[T],
        rows: usize,
        cols: usize,
        encode: &F,
    ) -> (result: Result<QuantTensor<'a>, QuantError>)
        requires
            encoder(*encode),
            cols > 0 || values@.len() > 0,
        ensures
            quantized(*encode, q8_0_format(cols as int), values@, rows, cols, result),
    {
        if cols % 32 == 0 {
            QuantTensor::quantize_to(QuantType::Q8_0, values, rows, cols, encode)
        } else {
            QuantTensor::quantize_to(QuantType::F32, values, rows, cols, encode)
        }
    }

    /// Quantizes a matrix to Q6_K. Rows that are not a multiple of 256 fall back to Q8_0.
    pub fn quantize_q6k<T, F: Fn(QuantType, &[T]) -> BlockCodes>(
        values: &[T],
        rows: usize,
        cols: usize,
        encode: &F,
    ) -> (result: Result<QuantTensor<'a>, QuantError>)
        requires
            encoder(*encode),
            cols > 0 || values@.len() > 0,
        ensures
            quantized(*encode, q6k_format(cols as int), values@, rows, cols, result),
    {
        if cols % QK_K == 0 {
            QuantTensor::quantize_to(QuantType::Q6K, values, rows, cols, encode)
        } else {
            QuantTensor::quantize_q8_0(values, rows, cols, encode)
        }
    }
}

/// The product of the dimensions.
pub open spec fn shape_product(shape: Seq<usize>) -> int
    decreases shape.len(),
{
    if shape.len() == 0 {
        1
    } else {
        shape_product(shape.drop_last()) * shape.last()
    }
}

/// A product with a positive number is no smaller.
proof fn lemma_product_grows(a: int, b: int)
    requires
        a >= 0,
        b >= 1,
    ensures
        a * b >= a,
{
    assert(a * b >= a) by (nonlinear_arith)
        requires
            a >= 0,
            b >= 1,
    ;
}

/// The formats that values can be quantized to.
pub open spec fn has_encoder(ty: QuantType) -> bool {
    ty == QuantType::F32 || ty == QuantType::Q5_0 || ty == QuantType::Q8_0 || ty == QuantType::Q4K
        || ty == QuantType::Q6K
}

/// `encode` fits the values of one block of each format that values can be quantized to.
pub open spec fn encoder<T, F: Fn(QuantType, &[T]) -> BlockCodes>(encode: F) -> bool {
    &&& forall|ty: QuantType, values: &[T]|
        has_encoder(ty) && values@.len() == ty.block_len() ==> #[trigger] call_requires(
            encode,
            (ty, values),
        )
    &&& forall|ty: QuantType, values: &[T], block: BlockCodes| #[trigger]
        call_ensures(encode, (ty, values), block) ==> block.format() == ty && block.in_range()
}

/// `block` is what `encode` made of `values`.
pub open spec fn fitted<T, F: Fn(QuantType, &[T]) -> BlockCodes>(
    encode: F,
    ty: QuantType,
    values: Seq<T>,
    block: BlockCodes,
) -> bool {
    exists|chunk: &[T]| chunk@ == values && #[trigger] call_ensures(encode, (ty, chunk), block)
}

/// `data` holds, block after block, the packed codes that `encode` fitted to the values of the
/// block.
pub open spec fn encoded_blocks<T, F: Fn(QuantType, &[T]) -> BlockCodes>(
    encode: F,
    ty: QuantType,
    values: Seq<T>,
    data: Seq<u8>,
    blocks: Seq<BlockCodes>,
) -> bool {
    &&& blocks.len() * ty.block_len() == values.len()
    &&& blocks.len() * ty.block_bytes() == data.len()
    &&& forall|b: int|
        0 <= b < blocks.len() ==> {
            &&& (#[trigger] blocks[b]).format() == ty
            &&& blocks[b].in_range()
            &&& fitted(
                encode,
                ty,
                values.subrange(b * ty.block_len(), (b + 1) * ty.block_len()),
                blocks[b],
            )
            &&& block_of(data, ty, b) == pack::packed(blocks[b])
        }
}

/// The tensor holds the given values, fitted by `encode` in blocks of format `ty`.
pub open spec fn encoded<'a, T, F: Fn(QuantType, &[T]) -> BlockCodes>(
    encode: F,
    ty: QuantType,
    values: Seq<T>,
    tensor: QuantTensor<'a>,
) -> bool {
    &&& tensor.quant_type == ty
    &&& exists|blocks: Seq<BlockCodes>| #[trigger]
        encoded_blocks(encode, ty, values, tensor.data.contents(), blocks)
}

/// What quantizing a matrix to `ty` gives.
pub open spec fn quantized<'a, T, F: Fn(QuantType, &[T]) -> BlockCodes>(
    encode: F,
    ty: QuantType,
    values: Seq<T>,
    rows: usize,
    cols: usize,
    result: Result<QuantTensor<'a>, QuantError>,
) -> bool {
    if values.len() != rows * cols {
        result == Err::<QuantTensor<'a>, QuantError>(QuantError::ShapeMismatch)
    } else {
        &&& result is Ok
        &&& result->Ok_0.valid()
        &&& result->Ok_0.shape@ == seq![rows, cols]
        &&& encoded(encode, ty, values, result->Ok_0)
    }
}

/// The format that a request for Q4_K gives rows of `cols` columns.
pub open spec fn q4k_format(cols: int) -> QuantType {
    if cols % 256 == 0 {
        QuantType::Q4K
    } else {
        q5_0_format(cols)
    }
}

/// The format that a request for Q5_0 gives rows of `cols` columns.
pub open spec fn q5_0_format(cols: int) -> QuantType {
    if cols % 32 == 0 {
        QuantType::Q5_0
    } else {
        QuantType::F32
    }
}

/// The format that a request for Q8_0 gives rows of `cols` columns.
pub open spec fn q8_0_format(cols: int) -> QuantType {
    if cols % 32 == 0 {
        QuantType::Q8_0
    } else {
        QuantType::F32
    }
}

/// The format that a request for Q6_K gives rows of `cols` columns.
pub open spec fn q6k_format(cols: int) -> QuantType {
    if cols % 256 == 0 {
        QuantType::Q6K
    } else {
        q8_0_format(cols)
    }
}

/// Rows of whole blocks are whole blocks together.
pub proof fn lemma_whole_blocks(rows: int, cols: int, ty: QuantType)
    requires
        rows >= 0,
        cols >= 0,
        cols % ty.block_len() == 0,
    ensures
        (rows * cols) % ty.block_len() == 0,
        (rows * cols) / ty.block_len() * ty.block_bytes() == rows * stride(cols, ty),
{
    let size = ty.block_len();
    let n = cols / size;
    let w = ty.block_bytes();
    assert(cols == n * size) by (nonlinear_arith)
        requires
            n == cols / size,
            cols % size == 0,
            size > 0,
    ;
    assert(rows * cols == (rows * n) * size) by (nonlinear_arith)
        requires
            cols == n * size,
    ;
    assert(((rows * n) * size) % size == 0 && ((rows * n) * size) / size == rows * n)
        by (nonlinear_arith)
        requires
            size > 0,
    ;
    assert((rows * n) * w == rows * (n * w)) by (nonlinear_arith);
}

/// Encodes values in blocks of format `ty`, one after the other.
fn encode_blocks<T, F: Fn(QuantType, &[T]) -> BlockCodes>(
    ty: QuantType,
    values: &[T],
    encode: &F,
) -> (data: Vec<u8>)
    requires
        encoder(*encode),
        has_encoder(ty),
        values@.len() as int % ty.block_len() == 0,
    ensures
        data@.len() == values@.len() as int / ty.block_len() * ty.block_bytes(),
        exists|blocks: Seq<BlockCodes>| #[trigger]
            encoded_blocks(*encode, ty, values@, data@, blocks),
{
    let size: usize = ty.block_size();
    let n: usize = values.len() / size;
    let mut data: Vec<u8> = Vec::new();
    let ghost mut blocks: Seq<BlockCodes> = Seq::empty();
    let ghost w = ty.block_bytes();
    assert(0 * w == 0 && 0 * size == 0) by (nonlinear_arith);
    assert(n * size == values@.len()) by (nonlinear_arith)
        requires
            n == values@.len() as int / size as int,
            values@.len() as int % size as int == 0,
            size > 0,
    ;
    assert(values@.subrange(0, 0) =~= Seq::<T>::empty());
    for b in 0..n
        invariant
            encoder(*encode),
            has_encoder(ty),
            size == ty.block_len(),
            w == ty.block_bytes(),
            n * size == values@.len(),
            blocks.len() == b,
            encoded_blocks(*encode, ty, values@.subrange(0, b * size), data@, blocks),
    {
        let ghost before = data@;
        proof {
            assert((b + 1) * size == b * size + size && (b + 1) * size <= n * size && b * size >= 0)
                by (nonlinear_arith)
                requires
                    b < n,
                    size > 0,
            ;
            assert((b + 1) * w == b * w + w && b * w >= 0) by (nonlinear_arith)
                requires
                    b >= 0,
                    w > 0,
            ;
        }
        let total: usize = values.len();
        let start: usize = b * size;
        let chunk = &values[start..start + size];
        let block = encode(ty, chunk);
        proof {
            lemma_packed_len(block);
        }
        pack::pack_block(&block, &mut data);
        proof {
            let more = blocks.push(block);
            let seen = values@.subrange(0, b * size);
            let next = values@.subrange(0, (b + 1) * size);
            assert(fitted(*encode, ty, chunk@, block));
            assert forall|i: int| 0 <= i < more.len() implies {
                &&& (#[trigger] more[i]).format() == ty
                &&& more[i].in_range()
                &&& fitted(
                    *encode,
                    ty,
                    next.subrange(i * ty.block_len(), (i + 1) * ty.block_len()),
                    more[i],
                )
                &&& block_of(data@, ty, i) == pack::packed(more[i])
            } by {
                assert((i + 1) * size == i * size + size && i * size >= 0 && (i + 1) * size <= (b
                    + 1) * size && (i + 1) * w == i * w + w && i * w >= 0 && (i + 1) * w <= (b + 1)
                    * w) by (nonlinear_arith)
                    requires
                        0 <= i <= b,
                        size > 0,
                        w > 0,
                ;
                if i < b {
                    assert((i + 1) * size <= b * size && (i + 1) * w <= b * w) by (nonlinear_arith)
                        requires
                            i + 1 <= b,
                            size > 0,
                            w > 0,
                    ;
                    assert(more[i] == blocks[i]);
                    assert(next.subrange(i * size, (i + 1) * size) =~= seen.subrange(
                        i * size,
                        (i + 1) * size,
                    ));
                    assert(block_of(data@, ty, i) =~= block_of(before, ty, i));
                } else {
                    assert(next.subrange(i * size, (i + 1) * size) =~= chunk@);
                    assert(block_of(data@, ty, i) =~= pack::packed(block));
                }
            }
            blocks = more;
        }
    }
    assert(values@.subrange(0, n * size) =~= values@);
    data
}

/// A packed block is as long as its format says.
proof fn lemma_packed_len(block: BlockCodes)
    ensures
        pack::packed(block).len() == block.format().block_bytes(),
{
}

/// An encoded matrix decodes to the codes that were fitted to its values: the element in row `row`
/// and column `col` is the one that its block holds at its row-major position.
pub proof fn encoded_tensor_decodes_to_fitted_codes<'a, T, F: Fn(QuantType, &[T]) -> BlockCodes>(
    encode: F,
    ty: QuantType,
    values: Seq<T>,
    tensor: QuantTensor<'a>,
    blocks: Seq<BlockCodes>,
    row: int,
    col: int,
)
    requires
        tensor.valid(),
        tensor.quant_type == ty,
        encoded_blocks(encode, ty, values, tensor.data.contents(), blocks),
        0 <= row < tensor.n_rows(),
        0 <= col < tensor.n_cols(),
    ensures
        ({
            let at = flat_index(row, col, tensor.n_cols());
            tensor.code(row, col) == blocks[at / ty.block_len()].element(at % ty.block_len())
        }),
{
    let size = ty.block_len();
    let w = ty.block_bytes();
    let cols = tensor.n_cols();
    let n = cols / size;
    let c = col / size;
    let data = tensor.data.contents();
    tensor.lemma_row_range(row);
    lemma_column_in_row(ty, cols, col);
    assert(cols == n * size && col == c * size + col % size && c < n) by (nonlinear_arith)
        requires
            n == cols / size,
            cols % size == 0,
            c == col / size,
            0 <= col < cols,
            size > 0,
    ;
    let b = row * n + c;
    let at = flat_index(row, col, cols);
    assert(at == b * size + col % size) by (nonlinear_arith)
        requires
            at == row * cols + col,
            cols == n * size,
            col == c * size + col % size,
            b == row * n + c,
    ;
    assert(at / size == b && at % size == col % size) by (nonlinear_arith)
        requires
            at == b * size + col % size,
            size > 0,
    ;
    assert(row * (n * w) + c * w == b * w && row * (n * w) + (c + 1) * w == (b + 1) * w && (c + 1)
        * w <= n * w && c * w >= 0) by (nonlinear_arith)
        requires
            b == row * n + c,
            0 <= c < n,
            w > 0,
    ;
    assert(0 <= b && (b + 1) * w <= blocks.len() * w) by (nonlinear_arith)
        requires
            b == row * n + c,
            0 <= row,
            0 <= c < n,
            (b + 1) * w == row * (n * w) + (c + 1) * w,
            (c + 1) * w <= n * w,
            (row + 1) * (n * w) <= blocks.len() * w,
    ;
    assert(b < blocks.len()) by (nonlinear_arith)
        requires
            (b + 1) * w <= blocks.len() * w,
            w > 0,
    ;
    assert(block_of(tensor.row_seq(row), ty, c) =~= block_of(data, ty, b));
    assert(blocks[b].format() == ty);
    pack::packed_block_decodes_to_its_codes(blocks[b], col % size);
}

/// The row-major position of an element.
pub open spec fn flat_index(row: int, col: int, cols: int) -> int {
    row * cols + col
}

/// Row-major positions of the rows before `row` lie before the start of `row`.
proof fn lemma_flat_index(row: int, cols: int)
    requires
        row >= 0,
        cols >= 0,
    ensures
        forall|r: int, c: int|
            0 <= r < row && 0 <= c < cols ==> 0 <= #[trigger] flat_index(r, c, cols) < row * cols,
{
    assert forall|r: int, c: int| 0 <= r < row && 0 <= c < cols implies 0 <= #[trigger] flat_index(
        r,
        c,
        cols,
    ) < row * cols by {
        assert(r * cols >= 0 && r * cols + cols <= row * cols) by (nonlinear_arith)
            requires
                0 <= r < row,
                cols >= 0,
        ;
    }
}

/// The GGML number and name of each format. No other number names a format.
pub proof fn formats_have_these_numbers(value: u32)
    ensures
        ggml_format(0) == Some(QuantType::F32),
        ggml_format(1) == Some(QuantType::F16),
        ggml_format(2) == Some(QuantType::Q4_0),
        ggml_format(3) == Some(QuantType::Q4_1),
        ggml_format(6) == Some(QuantType::Q5_0),
        ggml_format(7) == Some(QuantType::Q5_1),
        ggml_format(8) == Some(QuantType::Q8_0),
        ggml_format(12) == Some(QuantType::Q4K),
        ggml_format(13) == Some(QuantType::Q5K),
        ggml_format(14) == Some(QuantType::Q6K),
        ggml_format(30) == Some(QuantType::BF16),
        value == 4 || value == 5 || 9 <= value <= 11 || 15 <= value < 30 || value > 30
            ==> ggml_format(value) is None,
{
}

/// The rows of a tensor follow one another: byte `k` of row `r` is byte `r * width + k` of the data,
/// where a row has `width` bytes, one block for each block's number of columns. A vector is one row.
pub proof fn rows_follow_one_another<'a>(tensor: QuantTensor<'a>, r: int, k: int)
    requires
        tensor.valid(),
        0 <= r < tensor.n_rows(),
        0 <= k < tensor.n_cols() / tensor.quant_type.block_len() * tensor.quant_type.block_bytes(),
    ensures
        ({
            let width = tensor.n_cols() / tensor.quant_type.block_len()
                * tensor.quant_type.block_bytes();
            &&& tensor.data.contents().len() == tensor.n_rows() * width
            &&& tensor.row_seq(r).len() == width
            &&& tensor.row_seq(r)[k] == tensor.data.contents()[r * width + k]
        }),
        tensor.shape@.len() == 1 ==> tensor.n_rows() == 1 && tensor.n_cols() == tensor.shape@[0],
        tensor.shape@.len() == 2 ==> tensor.n_rows() == tensor.shape@[0] && tensor.n_cols()
            == tensor.shape@[1],
        tensor.shape@.len() == 1 || tensor.shape@.len() == 2,
        tensor.n_cols() % tensor.quant_type.block_len() == 0,
{
    tensor.lemma_row_range(r);
}

/// The element in column `c` of row `r` is the one at place `c` within its block, of the block that
/// lies that many whole blocks behind the start of the row.
pub proof fn elements_lie_in_their_blocks<'a>(tensor: QuantTensor<'a>, r: int, c: int)
    requires
        tensor.valid(),
        0 <= r < tensor.n_rows(),
        0 <= c < tensor.n_cols(),
    ensures
        ({
            let ty = tensor.quant_type;
            let width = tensor.n_cols() / ty.block_len() * ty.block_bytes();
            let start = r * width + c / ty.block_len() * ty.block_bytes();
            &&& 0 <= start
            &&& start + ty.block_bytes() <= tensor.data.contents().len()
            &&& tensor.code(r, c) == block_code(
                tensor.data.contents().subrange(start, start + ty.block_bytes()),
                ty,
                c % ty.block_len(),
            )
        }),
{
    let ty = tensor.quant_type;
    let width = stride(tensor.n_cols(), ty);
    tensor.lemma_row_range(r);
    lemma_column_in_row(ty, tensor.n_cols(), c);
    let b = c / ty.block_len();
    let bytes = ty.block_bytes();
    assert((b + 1) * bytes == b * bytes + bytes && 0 <= b * bytes) by (nonlinear_arith)
        requires
            b >= 0,
            bytes > 0,
    ;
    assert((r + 1) * width == r * width + width) by (nonlinear_arith);
    assert(block_of(tensor.row_seq(r), ty, b) =~= tensor.data.contents().subrange(
        r * width + b * bytes,
        r * width + b * bytes + bytes,
    ));
}

/// A tensor is refused for its rank, then for rows that are no whole blocks, then for data that is
/// not as long as its rows together.
pub proof fn tensors_are_refused_in_turn(len: int, shape: Seq<usize>, ty: QuantType)
    ensures
        tensor_fault(len, shape, ty) == Some(QuantError::Rank) <==> shape.len() != 1 && shape.len()
            != 2,
        shape.len() == 1 ==> (tensor_fault(len, shape, ty) is None <==> shape[0] as int
            % ty.block_len() == 0 && len == shape[0] as int / ty.block_len() * ty.block_bytes()),
        shape.len() == 2 ==> (tensor_fault(len, shape, ty) is None <==> shape[1] as int
            % ty.block_len() == 0 && len == shape[0] * (shape[1] as int / ty.block_len()
            * ty.block_bytes())),
        shape.len() == 1 || shape.len() == 2 ==> (tensor_fault(len, shape, ty) matches Some(
            QuantError::BlockMultiple { cols, quant_type },
        ) ==> cols == shape.last() && quant_type == ty),
        (shape.len() == 1 || shape.len() == 2) && shape.last() as int % ty.block_len() != 0
            ==> tensor_fault(len, shape, ty) == Some(
            QuantError::BlockMultiple { cols: shape.last(), quant_type: ty },
        ),
        tensor_fault(len, shape, ty) matches Some(QuantError::ByteLength { got, quant_type })
            ==> got == len as usize && quant_type == ty,
{
    if shape.len() == 1 {
        let width = stride(shape_cols(shape), ty);
        assert(1 * width == width);
    }
}

/// The order in which a row product visits the columns. Where the two halves of a block share their
/// bytes, the columns of both halves alternate; where the four quarters of half a block share their
/// top bits, the columns of the quarters alternate; elsewhere the columns follow one another.
pub proof fn products_visit_shared_bytes_together(ty: QuantType, b: int, i: int)
    requires
        0 <= b,
        0 <= i < 32,
    ensures
        ty == QuantType::Q4_0 || ty == QuantType::Q4_1 || ty == QuantType::Q5_0 || ty
            == QuantType::Q5_1 ==> (i < 16 ==> visit_order(ty, 32 * b + 2 * i) == 32 * b + i
            && visit_order(ty, 32 * b + 2 * i + 1) == 32 * b + 16 + i),
        ty == QuantType::Q6K ==> visit_order(ty, 128 * b + 4 * i) == 128 * b + i && visit_order(
            ty,
            128 * b + 4 * i + 1,
        ) == 128 * b + 32 + i && visit_order(ty, 128 * b + 4 * i + 2) == 128 * b + 64 + i
            && visit_order(ty, 128 * b + 4 * i + 3) == 128 * b + 96 + i,
        ty == QuantType::F32 || ty == QuantType::F16 || ty == QuantType::BF16 || ty
            == QuantType::Q8_0 || ty == QuantType::Q4K || ty == QuantType::Q5K ==> visit_order(
            ty,
            32 * b + i,
        ) == 32 * b + i,
{
    if i < 16 {
        lemma_block32(b, 2 * i);
        lemma_block32(b, 2 * i + 1);
        assert((2 * i) / 2 == i && (2 * i) % 2 == 0);
        assert((2 * i + 1) / 2 == i && (2 * i + 1) % 2 == 1);
        assert(b * 32 == 32 * b);
    }
    lemma_quarter_step(b, i, 0);
    lemma_quarter_step(b, i, 1);
    lemma_quarter_step(b, i, 2);
    lemma_quarter_step(b, i, 3);
}

/// Where a step lies in half a Q6_K block.
proof fn lemma_quarter_step(b: int, i: int, q: int)
    requires
        0 <= b,
        0 <= i < 32,
        0 <= q < 4,
    ensures
        visit_order(QuantType::Q6K, 128 * b + 4 * i + q) == 128 * b + 32 * q + i,
{
    lemma_block128(b, 4 * i + q);
    assert(b * 128 == 128 * b);
    assert((4 * i + q) / 4 == i && (4 * i + q) % 4 == q);
}

/// A product of a row adds one column after the other to a running sum that starts at zero: where a
/// step is a function of its arguments, the product is the left fold over the visited columns.
pub proof fn products_fold_over_the_columns<T, F: Fn(T, ElementCode, T) -> T>(
    step: F,
    row: Seq<u8>,
    ty: QuantType,
    input: Seq<T>,
    zero: T,
    total: T,
    sum: spec_fn(T, ElementCode, T) -> T,
)
    requires
        forall|t: T, c: ElementCode, x: T, r: T| #[trigger]
            call_ensures(step, (t, c, x), r) ==> r == sum(t, c, x),
        dot_result(step, row, ty, input, zero, total),
    ensures
        total == Seq::new(input.len(), |k: int| visit_order(ty, k)).fold_left(
            zero,
            |t: T, col: int| sum(t, code_at(row, ty, col), input[col]),
        ),
{
    let trace = choose|trace: Seq<T>| #[trigger]
        accumulates(step, visits(row, ty, input), trace) && trace.first() == zero && trace.last()
            == total;
    lemma_trace_folds(step, row, ty, input, zero, trace, sum, input.len() as int);
    let order = Seq::new(input.len(), |k: int| visit_order(ty, k));
    assert(order.take(input.len() as int) =~= order);
}

/// A running sum is the left fold over the columns visited so far.
proof fn lemma_trace_folds<T, F: Fn(T, ElementCode, T) -> T>(
    step: F,
    row: Seq<u8>,
    ty: QuantType,
    input: Seq<T>,
    zero: T,
    trace: Seq<T>,
    sum: spec_fn(T, ElementCode, T) -> T,
    k: int,
)
    requires
        forall|t: T, c: ElementCode, x: T, r: T| #[trigger]
            call_ensures(step, (t, c, x), r) ==> r == sum(t, c, x),
        accumulates(step, visits(row, ty, input), trace),
        trace.first() == zero,
        0 <= k <= input.len(),
    ensures
        trace[k] == Seq::new(input.len(), |k: int| visit_order(ty, k)).take(k).fold_left(
            zero,
            |t: T, col: int| sum(t, code_at(row, ty, col), input[col]),
        ),
    decreases k,
{
    let order = Seq::new(input.len(), |k: int| visit_order(ty, k));
    if k > 0 {
        lemma_trace_folds(step, row, ty, input, zero, trace, sum, k - 1);
        assert(order.take(k).drop_last() =~= order.take(k - 1));
        assert(order.take(k).last() == visit_order(ty, k - 1));
        let steps = visits(row, ty, input);
        assert(call_ensures(step, (trace[k - 1], steps[k - 1].0, steps[k - 1].1), trace[k]));
    }
}

/// The format that rows of a given width get. A super-block format needs rows of whole super-blocks
/// and falls back to a format of 32 values; that one needs rows of whole blocks and falls back to
/// plain numbers.
pub proof fn narrow_rows_fall_back(cols: int)
    ensures
        cols % 256 == 0 ==> q4k_format(cols) == QuantType::Q4K && q6k_format(cols)
            == QuantType::Q6K,
        cols % 256 != 0 && cols % 32 == 0 ==> q4k_format(cols) == QuantType::Q5_0 && q6k_format(
            cols,
        ) == QuantType::Q8_0,
        cols % 32 == 0 ==> q5_0_format(cols) == QuantType::Q5_0 && q8_0_format(cols)
            == QuantType::Q8_0,
        cols % 32 != 0 ==> q4k_format(cols) == QuantType::F32 && q6k_format(cols) == QuantType::F32
            && q5_0_format(cols) == QuantType::F32 && q8_0_format(cols) == QuantType::F32,
{
}

/// A quantized matrix holds the codes that were fitted to its values: block `b` of the data is the
/// packed form of what the encoder gave for values `b * n` up to `(b + 1) * n`, where a block has `n`
/// values, and the matrix has the shape that was asked for.
pub proof fn quantized_matrices_hold_fitted_blocks<'a, T, F: Fn(QuantType, &[T]) -> BlockCodes>(
    encode: F,
    ty: QuantType,
    values: Seq<T>,
    rows: usize,
    cols: usize,
    result: Result<QuantTensor<'a>, QuantError>,
    b: int,
)
    requires
        quantized(encode, ty, values, rows, cols, result),
        0 <= b < values.len() as int / ty.block_len(),
    ensures
        values.len() != rows * cols ==> result == Err::<QuantTensor<'a>, QuantError>(
            QuantError::ShapeMismatch,
        ),
        values.len() == rows * cols ==> {
            &&& result matches Ok(tensor) && tensor.shape@ == seq![rows, cols] && tensor.quant_type
                == ty && exists|chunk: &[T], block: BlockCodes|
                {
                    &&& #[trigger] call_ensures(encode, (ty, chunk), block)
                    &&& chunk@ == values.subrange(b * ty.block_len(), (b + 1) * ty.block_len())
                    &&& tensor.data.contents().subrange(
                        b * ty.block_bytes(),
                        (b + 1) * ty.block_bytes(),
                    ) == pack::packed(block)
                }
        },
{
    if values.len() == rows * cols {
        let tensor = result->Ok_0;
        let blocks = choose|blocks: Seq<BlockCodes>| #[trigger]
            encoded_blocks(encode, ty, values, tensor.data.contents(), blocks);
        let n = ty.block_len();
        let m = blocks.len() as int;
        assert(m * n / n == m) by (nonlinear_arith)
            requires
                n > 0,
        ;
        assert(fitted(encode, ty, values.subrange(b * n, (b + 1) * n), blocks[b]));
        let chunk = choose|chunk: &[T]|
            chunk@ == values.subrange(b * n, (b + 1) * n) && #[trigger] call_ensures(
                encode,
                (ty, chunk),
                blocks[b],
            );
        assert(block_of(tensor.data.contents(), ty, b) == pack::packed(blocks[b]));
    }
}

/// A product is refused for a tensor that is no matrix, then for an input that is not as long as the
/// rows, then for an output that is not as long as the number of rows.
pub proof fn products_are_refused_in_turn<'a>(tensor: QuantTensor<'a>, input: int, output: int)
    requires
        tensor.valid(),
    ensures
        tensor.matvec_fault(input, output) is None <==> tensor.shape@.len() == 2 && input
            == tensor.shape@[1] && output == tensor.shape@[0],
        tensor.shape@.len() != 2 ==> tensor.matvec_fault(input, output) == Some(
            QuantError::NotMatrix,
        ),
        tensor.shape@.len() == 2 && input != tensor.shape@[1] ==> tensor.matvec_fault(
            input,
            output,
        ) == Some(
            QuantError::MatvecInput { got: input as usize, expected: tensor.shape@[1] },
        ),
        tensor.shape@.len() == 2 && input == tensor.shape@[1] && output != tensor.shape@[0]
            ==> tensor.matvec_fault(input, output) == Some(
            QuantError::MatvecOutput { got: output as usize, expected: tensor.shape@[0] },
        ),
{
}

/// The names of the formats, no two of which are the same.
pub proof fn formats_have_these_names(ty: QuantType, other: QuantType)
    ensures
        ty.label() == match ty {
            QuantType::F32 => "F32"@,
            QuantType::F16 => "F16"@,
            QuantType::BF16 => "BF16"@,
            QuantType::Q4_0 => "Q4_0"@,
            QuantType::Q4_1 => "Q4_1"@,
            QuantType::Q5_0 => "Q5_0"@,
            QuantType::Q5_1 => "Q5_1"@,
            QuantType::Q8_0 => "Q8_0"@,
            QuantType::Q4K => "Q4_K"@,
            QuantType::Q5K => "Q5_K"@,
            QuantType::Q6K => "Q6_K"@,
        },
        ty.label() == other.label() ==> ty == other,
{
    reveal_strlit("F32");
    reveal_strlit("F16");
    reveal_strlit("BF16");
    reveal_strlit("Q4_0");
    reveal_strlit("Q4_1");
    reveal_strlit("Q5_0");
    reveal_strlit("Q5_1");
    reveal_strlit("Q8_0");
    reveal_strlit("Q4_K");
    reveal_strlit("Q5_K");
    reveal_strlit("Q6_K");
    let (a, b) = (ty.label(), other.label());
    assert(a.len() == 3 || a.len() == 4);
    assert(b.len() == 3 || b.len() == 4);
    if a == b {
        assert(a.len() == b.len());
        assert(a[0] == b[0] && a[1] == b[1] && a[2] == b[2]);
        assert(a.len() == 4 ==> a[3] == b[3]);
    }
}

} // verus!
