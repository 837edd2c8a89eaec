//! The GGUF container format: header, metadata and the tensors that a file holds.

use crate::bytes;
use crate::quant;
use crate::quant::{QuantTensor, QuantType};
use crate::text;
use vstd::hash_map::StringHashMap;
use vstd::prelude::*;

verus! {

/// Alignment of the tensor data where the metadata names none.
pub const DEFAULT_ALIGNMENT: u64 = 32;

/// What can be wrong with a GGUF file or with what is asked of it.
#[allow(inconsistent_fields)]
#[derive(Clone, Copy, Debug, PartialEq, Eq, Structural)]
pub enum GgufFault {
    /// The file ends inside the field that starts at `at`.
    Truncated { at: usize },
    /// The file does not start with the GGUF magic.
    Magic,
    /// Only versions 2 and 3 are supported.
    Version { version: u32 },
    /// A count, length or offset does not fit the machine's address range.
    DoesNotFit { value: u64 },
    /// The header announces more than a million tensors or metadata entries.
    HeaderCounts,
    /// A string is longer than a gigabyte.
    StringLength { len: usize },
    /// A string is not UTF-8.
    Utf8,
    /// An array's elements are arrays.
    NestedArray,
    /// An array has more than a hundred million elements.
    ArrayLength { len: usize },
    /// A metadata entry has an unknown type.
    UnknownType { ty: u32 },
    /// A metadata key occurs twice.
    DuplicateKey,
    /// A tensor has no dimension or more than four.
    DimensionCount { count: u32 },
    /// A tensor name occurs twice.
    DuplicateTensor,
    /// The alignment is not a power of two up to a mebibyte.
    Alignment { alignment: u64 },
    /// Aligning the start of the tensor data overflows.
    AlignmentOverflow,
    /// The tensor data starts behind the end of the file.
    DataOffset,
    /// A tensor's format is not supported.
    UnsupportedType { value: u32 },
    /// A tensor's number of elements overflows.
    ElementOverflow,
    /// A tensor is no whole number of blocks.
    ElementCount { quant_type: QuantType },
    /// A tensor's rows are no whole number of blocks.
    RowWidth { width: usize, quant_type: QuantType },
    /// A tensor's offset overflows.
    OffsetOverflow,
    /// A tensor's data reaches behind the end of the file.
    OutsideFile,
    /// No metadata entry of that name holds an integer.
    MissingInteger,
    /// No metadata entry of that name holds a number.
    MissingNumber,
    /// No metadata entry of that name holds text.
    MissingText,
    /// No tensor has that name.
    MissingTensor,
    /// A weight has more than two dimensions.
    TooManyDimensions { count: usize },
}

/// A fault, with the name of the metadata entry or tensor that it is about; the name is empty where
/// the fault is about neither.
#[derive(Debug)]
pub struct GgufError {
    pub fault: GgufFault,
    pub name: String,
}

impl View for GgufError {
    type V = (GgufFault, Seq<char>);

    open spec fn view(&self) -> (GgufFault, Seq<char>) {
        (self.fault, self.name@)
    }
}

/// A fault that is about the file as a whole.
pub open spec fn plain(fault: GgufFault) -> (GgufFault, Seq<char>) {
    (fault, Seq::empty())
}

fn plain_error(fault: GgufFault) -> (error: GgufError)
    ensures
        error@ == plain(fault),
{
    GgufError { fault, name: String::new() }
}

/// A number in the metadata; the floating-point ones are given by their bit patterns.
#[allow(inconsistent_fields)]
#[derive(Clone, Copy, Debug, PartialEq, Eq, Structural)]
pub enum MetadataNumber {
    Unsigned { value: u64 },
    Signed { value: i64 },
    Single { bits: u32 },
    Double { bits: u64 },
}

/// The value of a metadata entry. Of an array only the element type and the length are kept.
#[allow(inconsistent_fields)]
#[derive(Debug)]
pub enum MetadataValue {
    Number { number: MetadataNumber },
    Bool { value: bool },
    Text { value: String },
    Array { element_type: u32, len: usize },
}

/// A metadata value as a mathematical value.
#[allow(inconsistent_fields)]
pub enum MetadataView {
    Number { number: MetadataNumber },
    Bool { value: bool },
    Text { value: Seq<char> },
    Array { element_type: u32, len: usize },
}

impl View for MetadataValue {
    type V = MetadataView;

    open spec fn view(&self) -> MetadataView {
        match self {
            MetadataValue::Number { number } => MetadataView::Number { number: *number },
            MetadataValue::Bool { value } => MetadataView::Bool { value: *value },
            MetadataValue::Text { value } => MetadataView::Text { value: value@ },
            MetadataValue::Array { element_type, len } => MetadataView::Array {
                element_type: *element_type,
                len: *len,
            },
        }
    }
}

impl MetadataView {
    /// The value as a non-negative integer.
    pub open spec fn integer(self) -> Option<u64> {
        match self {
            MetadataView::Number { number: MetadataNumber::Unsigned { value } } => Some(value),
            MetadataView::Number { number: MetadataNumber::Signed { value } } => if value >= 0 {
                Some(value as u64)
            } else {
                None
            },
            _ => None,
        }
    }

    /// The value as a number.
    pub open spec fn number(self) -> Option<MetadataNumber> {
        match self {
            MetadataView::Number { number } => Some(number),
            _ => None,
        }
    }

    /// The value as text.
    pub open spec fn text(self) -> Option<Seq<char>> {
        match self {
            MetadataView::Text { value } => Some(value),
            _ => None,
        }
    }
}

impl MetadataValue {
    /// The value as a non-negative integer.
    pub fn as_u64(&self) -> (r: Option<u64>)
        ensures
            r == self@.integer(),
    {
        match self {
            MetadataValue::Number { number: MetadataNumber::Unsigned { value } } => Some(*value),
            MetadataValue::Number { number: MetadataNumber::Signed { value } } => {
                if *value >= 0 {
                    Some(*value as u64)
                } else {
                    None
                }
            },
            _ => None,
        }
    }

    /// The value as a number, which the caller rounds to single precision.
    pub fn as_f32(&self) -> (r: Option<MetadataNumber>)
        ensures
            r == self@.number(),
    {
        match self {
            MetadataValue::Number { number } => Some(*number),
            _ => None,
        }
    }

    /// The value as text.
    pub fn as_str(&self) -> (r: Option<&str>)
        ensures
            match r {
                Some(s) => self@.text() == Some(s@),
                None => self@.text() is None,
            },
    {
        match self {
            MetadataValue::Text { value } => Some(value.as_str()),
            _ => None,
        }
    }

    /// The number of elements of an array.
    pub fn array_len(&self) -> (r: Option<usize>)
        ensures
            r == (match self@ {
                MetadataView::Array { element_type, len } => Some(len),
                _ => None::<usize>,
            }),
    {
        match self {
            MetadataValue::Array { element_type, len } => Some(*len),
            _ => None,
        }
    }
}

/// A 16-bit word read as a two's complement number.
pub open spec fn signed16(v: int) -> int {
    if v < 0x8000 {
        v
    } else {
        v - 0x1_0000
    }
}

/// A 32-bit word read as a two's complement number.
pub open spec fn signed32(v: int) -> int {
    if v < 0x8000_0000 {
        v
    } else {
        v - 0x1_0000_0000
    }
}

/// A 64-bit word read as a two's complement number.
pub open spec fn signed64(v: int) -> int {
    if v < 0x8000_0000_0000_0000 {
        v
    } else {
        v - 0x1_0000_0000_0000_0000
    }
}

/// What reading a field gives: a value and the position behind it, or a fault.
pub type Parsed<T> = Result<(T, int), (GgufFault, Seq<char>)>;

/// Reads a 64-bit count that must fit the machine's address range.
pub open spec fn parse_size(data: Seq<u8>, pos: int) -> Parsed<usize> {
    if pos + 8 > data.len() {
        Err(plain(GgufFault::Truncated { at: pos as usize }))
    } else if bytes::le64(data, pos) > usize::MAX {
        Err(plain(GgufFault::DoesNotFit { value: bytes::le64(data, pos) as u64 }))
    } else {
        Ok((bytes::le64(data, pos) as usize, pos + 8))
    }
}

/// Reads a 32-bit word.
pub open spec fn parse_u32(data: Seq<u8>, pos: int) -> Parsed<u32> {
    if pos + 4 > data.len() {
        Err(plain(GgufFault::Truncated { at: pos as usize }))
    } else {
        Ok((bytes::le32(data, pos) as u32, pos + 4))
    }
}

/// Reads a string: its length in bytes, then its UTF-8 form.
pub open spec fn parse_string(data: Seq<u8>, pos: int) -> Parsed<Seq<char>> {
    match parse_size(data, pos) {
        Err(e) => Err(e),
        Ok((len, p)) => if len > 0x4000_0000 {
            Err(plain(GgufFault::StringLength { len }))
        } else if p + len > data.len() {
            Err(plain(GgufFault::Truncated { at: p as usize }))
        } else if !vstd::utf8::valid_utf8(data.subrange(p, p + len)) {
            Err(plain(GgufFault::Utf8))
        } else {
            Ok((vstd::utf8::decode_utf8(data.subrange(p, p + len)), p + len))
        },
    }
}

/// The number of bytes that a scalar metadata value takes, for the types of fixed width.
pub open spec fn scalar_width(ty: u32) -> Option<int> {
    match ty {
        0u32 | 1u32 | 7u32 => Some(1),
        2u32 | 3u32 => Some(2),
        4u32 | 5u32 | 6u32 => Some(4),
        10u32 | 11u32 | 12u32 => Some(8),
        _ => None,
    }
}

/// The scalar metadata value of fixed width at `pos`.
pub open spec fn scalar_at(data: Seq<u8>, pos: int, ty: u32) -> MetadataView {
    match ty {
        0u32 => unsigned(data[pos] as int),
        1u32 => signed(bytes::signed8(data[pos])),
        2u32 => unsigned(bytes::le16(data, pos)),
        3u32 => signed(signed16(bytes::le16(data, pos))),
        4u32 => unsigned(bytes::le32(data, pos)),
        5u32 => signed(signed32(bytes::le32(data, pos))),
        6u32 => MetadataView::Number {
            number: MetadataNumber::Single { bits: bytes::le32(data, pos) as u32 },
        },
        7u32 => MetadataView::Bool { value: data[pos] != 0 },
        10u32 => unsigned(bytes::le64(data, pos)),
        11u32 => signed(signed64(bytes::le64(data, pos))),
        _ => MetadataView::Number {
            number: MetadataNumber::Double { bits: bytes::le64(data, pos) as u64 },
        },
    }
}

/// An unsigned metadata value.
pub open spec fn unsigned(value: int) -> MetadataView {
    MetadataView::Number { number: MetadataNumber::Unsigned { value: value as u64 } }
}

/// A signed metadata value.
pub open spec fn signed(value: int) -> MetadataView {
    MetadataView::Number { number: MetadataNumber::Signed { value: value as i64 } }
}

/// Reads a metadata value that is not an array.
pub open spec fn parse_scalar(data: Seq<u8>, pos: int, ty: u32) -> Parsed<MetadataView> {
    if ty == 8 {
        match parse_string(data, pos) {
            Err(e) => Err(e),
            Ok((value, p)) => Ok((MetadataView::Text { value }, p)),
        }
    } else {
        match scalar_width(ty) {
            None => Err(plain(GgufFault::UnknownType { ty })),
            Some(width) => if pos + width > data.len() {
                Err(plain(GgufFault::Truncated { at: pos as usize }))
            } else {
                Ok((scalar_at(data, pos, ty), pos + width))
            },
        }
    }
}

/// Reads past the first `n` elements of an array.
pub open spec fn skip_elements(data: Seq<u8>, pos: int, ty: u32, n: int) -> Result<
    int,
    (GgufFault, Seq<char>),
>
    decreases n,
{
    if n <= 0 {
        Ok(pos)
    } else {
        match skip_elements(data, pos, ty, n - 1) {
            Err(e) => Err(e),
            Ok(p) => match parse_scalar(data, p, ty) {
                Err(e) => Err(e),
                Ok((value, q)) => Ok(q),
            },
        }
    }
}

/// Reads a metadata value of type `ty`.
pub open spec fn parse_value(data: Seq<u8>, pos: int, ty: u32) -> Parsed<MetadataView> {
    if ty != 9 {
        parse_scalar(data, pos, ty)
    } else {
        match parse_u32(data, pos) {
            Err(e) => Err(e),
            Ok((element_type, p)) => if element_type == 9 {
                Err(plain(GgufFault::NestedArray))
            } else {
                match parse_size(data, p) {
                    Err(e) => Err(e),
                    Ok((len, q)) => if len > 100_000_000 {
                        Err(plain(GgufFault::ArrayLength { len }))
                    } else {
                        match skip_elements(data, q, element_type, len as int) {
                            Err(e) => Err(e),
                            Ok(r) => Ok((MetadataView::Array { element_type, len }, r)),
                        }
                    },
                }
            },
        }
    }
}

/// A reading position in a file.
struct Reader<'a> {
    data: &'a [u8],
    pos: usize,
}

impl<'a> Reader<'a> {
    spec fn valid(&self) -> bool {
        self.pos <= self.data@.len()
    }

    /// The reader moved on in the same file.
    spec fn follows(&self, before: &Reader<'a>) -> bool {
        self.valid() && self.data == before.data
    }

    fn new(data: &'a [u8]) -> (reader: Reader<'a>)
        ensures
            reader.valid(),
            reader.data == data,
            reader.pos == 0,
    {
        Reader { data, pos: 0 }
    }

    fn position(&self) -> (pos: usize)
        ensures
            pos == self.pos,
    {
        self.pos
    }

    /// Takes the next `len` bytes.
    fn take(&mut self, len: usize) -> (r: Result<&'a [u8], GgufError>)
        requires
            old(self).valid(),
        ensures
            final(self).follows(old(self)),
            if old(self).pos + len <= old(self).data@.len() {
                &&& r is Ok
                &&& r->Ok_0@ == old(self).data@.subrange(old(self).pos as int, old(self).pos + len)
                &&& final(self).pos == old(self).pos + len
            } else {
                &&& r is Err
                &&& r->Err_0@ == plain(GgufFault::Truncated { at: old(self).pos })
                &&& final(self).pos == old(self).pos
            },
    {
        let total: usize = self.data.len();
        if len > total - self.pos {
            return Err(plain_error(GgufFault::Truncated { at: self.pos }));
        }
        let start: usize = self.pos;
        let value = &self.data[start..start + len];
        self.pos = start + len;
        Ok(value)
    }

    fn u8(&mut self) -> (r: Result<u8, GgufError>)
        requires
            old(self).valid(),
        ensures
            final(self).follows(old(self)),
            if old(self).pos + 1 <= old(self).data@.len() {
                &&& r == Ok::<u8, GgufError>(old(self).data@[old(self).pos as int])
                &&& final(self).pos == old(self).pos + 1
            } else {
                &&& r is Err
                &&& r->Err_0@ == plain(GgufFault::Truncated { at: old(self).pos })
            },
    {
        match self.take(1) {
            Ok(b) => Ok(b[0]),
            Err(e) => Err(e),
        }
    }

    fn i8(&mut self) -> (r: Result<i8, GgufError>)
        requires
            old(self).valid(),
        ensures
            final(self).follows(old(self)),
            if old(self).pos + 1 <= old(self).data@.len() {
                &&& r is Ok
                &&& r->Ok_0 == bytes::signed8(old(self).data@[old(self).pos as int])
                &&& final(self).pos == old(self).pos + 1
            } else {
                &&& r is Err
                &&& r->Err_0@ == plain(GgufFault::Truncated { at: old(self).pos })
            },
    {
        match self.u8() {
            Ok(b) => Ok(bytes::signed(b)),
            Err(e) => Err(e),
        }
    }

    fn u16(&mut self) -> (r: Result<u16, GgufError>)
        requires
            old(self).valid(),
        ensures
            final(self).follows(old(self)),
            if old(self).pos + 2 <= old(self).data@.len() {
                &&& r is Ok
                &&& r->Ok_0 == bytes::le16(old(self).data@, old(self).pos as int)
                &&& final(self).pos == old(self).pos + 2
            } else {
                &&& r is Err
                &&& r->Err_0@ == plain(GgufFault::Truncated { at: old(self).pos })
            },
    {
        match self.take(2) {
            Ok(b) => Ok(bytes::read_u16(b, 0)),
            Err(e) => Err(e),
        }
    }

    fn i16(&mut self) -> (r: Result<i16, GgufError>)
        requires
            old(self).valid(),
        ensures
            final(self).follows(old(self)),
            if old(self).pos + 2 <= old(self).data@.len() {
                &&& r is Ok
                &&& r->Ok_0 == signed16(bytes::le16(old(self).data@, old(self).pos as int))
                &&& final(self).pos == old(self).pos + 2
            } else {
                &&& r is Err
                &&& r->Err_0@ == plain(GgufFault::Truncated { at: old(self).pos })
            },
    {
        match self.u16() {
            Ok(v) => {
                assert((v as i16) as int == (if v < 0x8000 { v as int } else { v - 0x1_0000 }))
                    by (bit_vector);
                Ok(v as i16)
            },
            Err(e) => Err(e),
        }
    }

    fn u32(&mut self) -> (r: Result<u32, GgufError>)
        requires
            old(self).valid(),
        ensures
            final(self).follows(old(self)),
            match parse_u32(old(self).data@, old(self).pos as int) {
                Ok((v, p)) => r == Ok::<u32, GgufError>(v) && v == bytes::le32(
                    old(self).data@,
                    old(self).pos as int,
                ) && final(self).pos == p,
                Err(e) => r is Err && r->Err_0@ == e,
            },
    {
        match self.take(4) {
            Ok(b) => Ok(bytes::read_u32(b, 0)),
            Err(e) => Err(e),
        }
    }

    fn i32(&mut self) -> (r: Result<i32, GgufError>)
        requires
            old(self).valid(),
        ensures
            final(self).follows(old(self)),
            if old(self).pos + 4 <= old(self).data@.len() {
                &&& r is Ok
                &&& r->Ok_0 == signed32(bytes::le32(old(self).data@, old(self).pos as int))
                &&& final(self).pos == old(self).pos + 4
            } else {
                &&& r is Err
                &&& r->Err_0@ == plain(GgufFault::Truncated { at: old(self).pos })
            },
    {
        match self.u32() {
            Ok(v) => {
                assert((v as i32) as int == (if v < 0x8000_0000 { v as int } else { v
                    - 0x1_0000_0000 })) by (bit_vector);
                Ok(v as i32)
            },
            Err(e) => Err(e),
        }
    }

    fn u64(&mut self) -> (r: Result<u64, GgufError>)
        requires
            old(self).valid(),
        ensures
            final(self).follows(old(self)),
            if old(self).pos + 8 <= old(self).data@.len() {
                &&& r is Ok
                &&& r->Ok_0 == bytes::le64(old(self).data@, old(self).pos as int)
                &&& final(self).pos == old(self).pos + 8
            } else {
                &&& r is Err
                &&& r->Err_0@ == plain(GgufFault::Truncated { at: old(self).pos })
            },
    {
        match self.take(8) {
            Ok(b) => Ok(bytes::read_u64(b, 0)),
            Err(e) => Err(e),
        }
    }

    fn i64(&mut self) -> (r: Result<i64, GgufError>)
        requires
            old(self).valid(),
        ensures
            final(self).follows(old(self)),
            if old(self).pos + 8 <= old(self).data@.len() {
                &&& r is Ok
                &&& r->Ok_0 == signed64(bytes::le64(old(self).data@, old(self).pos as int))
                &&& final(self).pos == old(self).pos + 8
            } else {
                &&& r is Err
                &&& r->Err_0@ == plain(GgufFault::Truncated { at: old(self).pos })
            },
    {
        match self.u64() {
            Ok(v) => {
                assert((v as i64) as int == (if v < 0x8000_0000_0000_0000 { v as int } else { v
                    - 0x1_0000_0000_0000_0000 })) by (bit_vector);
                Ok(v as i64)
            },
            Err(e) => Err(e),
        }
    }

    /// Reads a 64-bit count that must fit the machine's address range.
    fn size(&mut self) -> (r: Result<usize, GgufError>)
        requires
            old(self).valid(),
        ensures
            final(self).follows(old(self)),
            match parse_size(old(self).data@, old(self).pos as int) {
                Ok((v, p)) => r == Ok::<usize, GgufError>(v) && final(self).pos == p,
                Err(e) => r is Err && r->Err_0@ == e,
            },
    {
        match self.u64() {
            Ok(value) => {
                if value > usize::MAX as u64 {
                    Err(plain_error(GgufFault::DoesNotFit { value }))
                } else {
                    Ok(value as usize)
                }
            },
            Err(e) => Err(e),
        }
    }

    fn string(&mut self) -> (r: Result<String, GgufError>)
        requires
            old(self).valid(),
        ensures
            final(self).follows(old(self)),
            match parse_string(old(self).data@, old(self).pos as int) {
                Ok((s, p)) => r is Ok && r->Ok_0@ == s && final(self).pos == p,
                Err(e) => r is Err && r->Err_0@ == e,
            },
    {
        let len: usize = match self.size() {
            Ok(len) => len,
            Err(e) => return Err(e),
        };
        if len > 0x4000_0000 {
            return Err(plain_error(GgufFault::StringLength { len }));
        }
        let raw = match self.take(len) {
            Ok(raw) => raw,
            Err(e) => return Err(e),
        };
        match text::decode_utf8(raw) {
            Some(s) => Ok(s.to_owned()),
            None => Err(plain_error(GgufFault::Utf8)),
        }
    }

    /// Reads a metadata value that is not an array.
    fn scalar(&mut self, ty: u32) -> (r: Result<MetadataValue, GgufError>)
        requires
            old(self).valid(),
        ensures
            final(self).follows(old(self)),
            match parse_scalar(old(self).data@, old(self).pos as int, ty) {
                Ok((v, p)) => r is Ok && r->Ok_0@ == v && final(self).pos == p,
                Err(e) => r is Err && r->Err_0@ == e,
            },
    {
        let number: MetadataNumber = match ty {
            0 => match self.u8() {
                Ok(v) => MetadataNumber::Unsigned { value: v as u64 },
                Err(e) => return Err(e),
            },
            1 => match self.i8() {
                Ok(v) => MetadataNumber::Signed { value: v as i64 },
                Err(e) => return Err(e),
            },
            2 => match self.u16() {
                Ok(v) => MetadataNumber::Unsigned { value: v as u64 },
                Err(e) => return Err(e),
            },
            3 => match self.i16() {
                Ok(v) => MetadataNumber::Signed { value: v as i64 },
                Err(e) => return Err(e),
            },
            4 => match self.u32() {
                Ok(v) => MetadataNumber::Unsigned { value: v as u64 },
                Err(e) => return Err(e),
            },
            5 => match self.i32() {
                Ok(v) => MetadataNumber::Signed { value: v as i64 },
                Err(e) => return Err(e),
            },
            6 => match self.u32() {
                Ok(bits) => MetadataNumber::Single { bits },
                Err(e) => return Err(e),
            },
            7 => match self.u8() {
                Ok(v) => return Ok(MetadataValue::Bool { value: v != 0 }),
                Err(e) => return Err(e),
            },
            8 => match self.string() {
                Ok(value) => return Ok(MetadataValue::Text { value }),
                Err(e) => return Err(e),
            },
            10 => match self.u64() {
                Ok(value) => MetadataNumber::Unsigned { value },
                Err(e) => return Err(e),
            },
            11 => match self.i64() {
                Ok(value) => MetadataNumber::Signed { value },
                Err(e) => return Err(e),
            },
            12 => match self.u64() {
                Ok(bits) => MetadataNumber::Double { bits },
                Err(e) => return Err(e),
            },
            _ => return Err(plain_error(GgufFault::UnknownType { ty })),
        };
        Ok(MetadataValue::Number { number })
    }

    /// Reads a metadata value.
    fn metadata_value(&mut self, ty: u32) -> (r: Result<MetadataValue, GgufError>)
        requires
            old(self).valid(),
        ensures
            final(self).follows(old(self)),
            match parse_value(old(self).data@, old(self).pos as int, ty) {
                Ok((v, p)) => r is Ok && r->Ok_0@ == v && final(self).pos == p,
                Err(e) => r is Err && r->Err_0@ == e,
            },
    {
        if ty != 9 {
            return self.scalar(ty);
        }
        let element_type: u32 = match self.u32() {
            Ok(v) => v,
            Err(e) => return Err(e),
        };
        if element_type == 9 {
            return Err(plain_error(GgufFault::NestedArray));
        }
        let len: usize = match self.size() {
            Ok(v) => v,
            Err(e) => return Err(e),
        };
        if len > 100_000_000 {
            return Err(plain_error(GgufFault::ArrayLength { len }));
        }
        let ghost data = self.data@;
        let ghost start = self.pos as int;
        for i in 0..len
            invariant
                self.follows(old(self)),
                data == self.data@,
                skip_elements(data, start, element_type, i as int) == Ok::<
                    int,
                    (GgufFault, Seq<char>),
                >(self.pos as int),
                match parse_value(old(self).data@, old(self).pos as int, ty) {
                    Ok((v, p)) => v == (MetadataView::Array { element_type, len }) && skip_elements(
                        data,
                        start,
                        element_type,
                        len as int,
                    ) == Ok::<int, (GgufFault, Seq<char>)>(p),
                    Err(e) => skip_elements(data, start, element_type, len as int) == Err::<
                        int,
                        (GgufFault, Seq<char>),
                    >(e),
                },
        {
            match self.scalar(element_type) {
                Ok(_) => {},
                Err(e) => {
                    proof {
                        lemma_skip_fails(data, start, element_type, i + 1, len as int);
                    }
                    return Err(e);
                },
            }
        }
        Ok(MetadataValue::Array { element_type, len })
    }
}

/// Once an element cannot be read, the array cannot be.
proof fn lemma_skip_fails(data: Seq<u8>, pos: int, ty: u32, m: int, n: int)
    requires
        skip_elements(data, pos, ty, m) is Err,
        0 <= m <= n,
    ensures
        skip_elements(data, pos, ty, n) == skip_elements(data, pos, ty, m),
    decreases n,
{
    if m < n {
        lemma_skip_fails(data, pos, ty, m, n - 1);
    }
}

/// Where a tensor lies and how it is stored.
#[derive(Debug)]
pub struct GgufTensorInfo {
    pub name: String,
    /// The first dimension is the contiguous row width.
    pub dimensions: Vec<usize>,
    pub ggml_type: u32,
    /// Where the data starts, counted from the start of the tensor data.
    pub offset: usize,
}

/// A tensor's entry as a mathematical value.
pub struct TensorInfoView {
    pub name: Seq<char>,
    pub dimensions: Seq<usize>,
    pub ggml_type: u32,
    pub offset: usize,
}

impl View for GgufTensorInfo {
    type V = TensorInfoView;

    open spec fn view(&self) -> TensorInfoView {
        TensorInfoView {
            name: self.name@,
            dimensions: self.dimensions@,
            ggml_type: self.ggml_type,
            offset: self.offset,
        }
    }
}

/// Reads a metadata entry: key, type, value.
#[verifier::opaque]
pub open spec fn parse_entry(data: Seq<u8>, pos: int) -> Parsed<(Seq<char>, MetadataView)> {
    match parse_string(data, pos) {
        Err(e) => Err(e),
        Ok((key, p)) => match parse_u32(data, p) {
            Err(e) => Err(e),
            Ok((ty, q)) => match parse_value(data, q, ty) {
                Err(e) => Err(e),
                Ok((value, r)) => Ok(((key, value), r)),
            },
        },
    }
}

/// Reads the first `n` metadata entries, which must have different keys.
pub open spec fn parse_metadata(data: Seq<u8>, pos: int, n: int) -> Parsed<
    Map<Seq<char>, MetadataView>,
>
    decreases n,
{
    if n <= 0 {
        Ok((Map::empty(), pos))
    } else {
        match parse_metadata(data, pos, n - 1) {
            Err(e) => Err(e),
            Ok((metadata, p)) => match parse_entry(data, p) {
                Err(e) => Err(e),
                Ok((entry, q)) => if metadata.contains_key(entry.0) {
                    Err((GgufFault::DuplicateKey, entry.0))
                } else {
                    Ok((metadata.insert(entry.0, entry.1), q))
                },
            },
        }
    }
}

/// Reads `n` dimensions.
pub open spec fn parse_dimensions(data: Seq<u8>, pos: int, n: int) -> Parsed<Seq<usize>>
    decreases n,
{
    if n <= 0 {
        Ok((Seq::empty(), pos))
    } else {
        match parse_dimensions(data, pos, n - 1) {
            Err(e) => Err(e),
            Ok((dimensions, p)) => match parse_size(data, p) {
                Err(e) => Err(e),
                Ok((dimension, q)) => Ok((dimensions.push(dimension), q)),
            },
        }
    }
}

/// Reads a tensor's entry: name, dimensions, type, offset.
#[verifier::opaque]
pub open spec fn parse_tensor_info(data: Seq<u8>, pos: int) -> Parsed<TensorInfoView> {
    match parse_string(data, pos) {
        Err(e) => Err(e),
        Ok((name, p)) => match parse_u32(data, p) {
            Err(e) => Err(e),
            Ok((count, q)) => if count < 1 || count > 4 {
                Err((GgufFault::DimensionCount { count }, name))
            } else {
                match parse_dimensions(data, q, count as int) {
                    Err(e) => Err(e),
                    Ok((dimensions, r)) => match parse_u32(data, r) {
                        Err(e) => Err(e),
                        Ok((ggml_type, s)) => match parse_size(data, s) {
                            Err(e) => Err(e),
                            Ok((offset, t)) => Ok(
                                (TensorInfoView { name, dimensions, ggml_type, offset }, t),
                            ),
                        },
                    },
                }
            },
        },
    }
}

/// Some entry has the given name.
pub open spec fn has_tensor(tensors: Seq<TensorInfoView>, name: Seq<char>) -> bool {
    exists|i: int| 0 <= i < tensors.len() && (#[trigger] tensors[i]).name == name
}

/// Reads the first `n` tensor entries, which must have different names.
pub open spec fn parse_tensors(data: Seq<u8>, pos: int, n: int) -> Parsed<Seq<TensorInfoView>>
    decreases n,
{
    if n <= 0 {
        Ok((Seq::empty(), pos))
    } else {
        match parse_tensors(data, pos, n - 1) {
            Err(e) => Err(e),
            Ok((tensors, p)) => match parse_tensor_info(data, p) {
                Err(e) => Err(e),
                Ok((info, q)) => if has_tensor(tensors, info.name) {
                    Err((GgufFault::DuplicateTensor, info.name))
                } else {
                    Ok((tensors.push(info), q))
                },
            },
        }
    }
}

/// The magic, and what follows it up to the metadata: version, number of tensors, number of
/// metadata entries.
pub open spec fn parse_header(data: Seq<u8>) -> Parsed<(u32, usize, usize)> {
    if data.len() < 4 {
        Err(plain(GgufFault::Truncated { at: 0 }))
    } else if data.subrange(0, 4) != seq![0x47u8, 0x47, 0x55, 0x46] {
        Err(plain(GgufFault::Magic))
    } else {
        match parse_u32(data, 4) {
            Err(e) => Err(e),
            Ok((version, p)) => if version < 2 || version > 3 {
                Err(plain(GgufFault::Version { version }))
            } else {
                match parse_size(data, p) {
                    Err(e) => Err(e),
                    Ok((tensors, q)) => match parse_size(data, q) {
                        Err(e) => Err(e),
                        Ok((metadata, r)) => if tensors > 1_000_000 || metadata > 1_000_000 {
                            Err(plain(GgufFault::HeaderCounts))
                        } else {
                            Ok(((version, tensors, metadata), r))
                        },
                    },
                }
            },
        }
    }
}

/// The number is a power of two.
pub open spec fn power_of_two(v: int) -> bool
    decreases v,
{
    if v <= 1 {
        v == 1
    } else {
        v % 2 == 0 && power_of_two(v / 2)
    }
}

/// The alignment that the metadata asks for.
pub open spec fn alignment_of(metadata: Map<Seq<char>, MetadataView>) -> u64 {
    if metadata.contains_key("general.alignment"@) && metadata["general.alignment"@].integer() is Some {
        metadata["general.alignment"@].integer()->0
    } else {
        DEFAULT_ALIGNMENT
    }
}

/// The least multiple of `alignment` that is not below `value`.
pub open spec fn aligned(value: int, alignment: int) -> int {
    (value + alignment - 1) / alignment * alignment
}

/// The product of the dimensions, where no partial product exceeds the machine's address range.
pub open spec fn element_count(dimensions: Seq<usize>) -> Option<int>
    decreases dimensions.len(),
{
    if dimensions.len() == 0 {
        Some(1)
    } else {
        match element_count(dimensions.drop_last()) {
            None => None,
            Some(count) => if count * dimensions.last() > usize::MAX {
                None
            } else {
                Some(count * dimensions.last())
            },
        }
    }
}

/// Where the data of a tensor lies in a file of `file_len` bytes whose tensor data starts at
/// `data_offset`: start and length, or what is wrong with the tensor.
pub open spec fn range_of(info: TensorInfoView, data_offset: int, file_len: int) -> Result<
    (int, int),
    (GgufFault, Seq<char>),
> {
    match quant::ggml_format(info.ggml_type) {
        None => Err((GgufFault::UnsupportedType { value: info.ggml_type }, info.name)),
        Some(ty) => match element_count(info.dimensions) {
            None => Err((GgufFault::ElementOverflow, info.name)),
            Some(elements) => {
                let len = elements / ty.block_len() * ty.block_bytes();
                let start = data_offset + info.offset;
                if elements % ty.block_len() != 0 {
                    Err((GgufFault::ElementCount { quant_type: ty }, info.name))
                } else if info.dimensions[0] as int % ty.block_len() != 0 {
                    Err(
                        (
                            GgufFault::RowWidth { width: info.dimensions[0], quant_type: ty },
                            info.name,
                        ),
                    )
                } else if start > usize::MAX {
                    Err((GgufFault::OffsetOverflow, info.name))
                } else if start + len > file_len {
                    Err((GgufFault::OutsideFile, info.name))
                } else {
                    Ok((start, len))
                }
            },
        },
    }
}

/// What is wrong with the first of the first `n` tensors with which something is wrong.
pub open spec fn first_bad_range(
    tensors: Seq<TensorInfoView>,
    data_offset: int,
    file_len: int,
    n: int,
) -> Option<(GgufFault, Seq<char>)>
    decreases n,
{
    if n <= 0 {
        None
    } else {
        match first_bad_range(tensors, data_offset, file_len, n - 1) {
            Some(e) => Some(e),
            None => match range_of(tensors[n - 1], data_offset, file_len) {
                Err(e) => Some(e),
                Ok(_) => None,
            },
        }
    }
}

/// A GGUF file as a mathematical value.
pub struct GgufView {
    pub version: u32,
    pub metadata: Map<Seq<char>, MetadataView>,
    pub tensors: Seq<TensorInfoView>,
    pub data_offset: int,
}

/// What a file holds, or what is wrong with it.
pub open spec fn parse_file(data: Seq<u8>) -> Result<GgufView, (GgufFault, Seq<char>)> {
    match parse_header(data) {
        Err(e) => Err(e),
        Ok((header, p)) => match parse_metadata(data, p, header.2 as int) {
            Err(e) => Err(e),
            Ok((metadata, q)) => match parse_tensors(data, q, header.1 as int) {
                Err(e) => Err(e),
                Ok((tensors, r)) => {
                    let alignment = alignment_of(metadata);
                    if !power_of_two(alignment as int) || alignment > 0x10_0000 {
                        Err(plain(GgufFault::Alignment { alignment }))
                    } else if r + alignment - 1 > usize::MAX {
                        Err(plain(GgufFault::AlignmentOverflow))
                    } else {
                        let data_offset = aligned(r, alignment as int);
                        if data_offset > data.len() {
                            Err(plain(GgufFault::DataOffset))
                        } else {
                            match first_bad_range(
                                tensors,
                                data_offset,
                                data.len() as int,
                                tensors.len() as int,
                            ) {
                                Some(e) => Err(e),
                                None => Ok(
                                    GgufView { version: header.0, metadata, tensors, data_offset },
                                ),
                            }
                        }
                    }
                },
            },
        },
    }
}

/// Aligning gives the least multiple of the alignment that is not below the value.
pub proof fn aligned_is_the_least_multiple(value: int, alignment: int)
    requires
        value >= 0,
        alignment > 0,
    ensures
        aligned(value, alignment) % alignment == 0,
        value <= aligned(value, alignment) < value + alignment,
{
    let v = value + alignment - 1;
    let q = v / alignment;
    assert(v == q * alignment + v % alignment && 0 <= v % alignment < alignment)
        by (nonlinear_arith)
        requires
            alignment > 0,
            q == v / alignment,
    ;
    assert((q * alignment) % alignment == 0) by (nonlinear_arith)
        requires
            alignment > 0,
    ;
}

/// Once an entry cannot be read, the metadata cannot be.
proof fn lemma_metadata_fails(data: Seq<u8>, pos: int, m: int, n: int)
    requires
        parse_metadata(data, pos, m) is Err,
        0 <= m <= n,
    ensures
        parse_metadata(data, pos, n) is Err,
        parse_metadata(data, pos, n)->Err_0 == parse_metadata(data, pos, m)->Err_0,
    decreases n,
{
    if m < n {
        lemma_metadata_fails(data, pos, m, n - 1);
    }
}

/// Once an entry cannot be read, the tensor list cannot be.
proof fn lemma_tensors_fail(data: Seq<u8>, pos: int, m: int, n: int)
    requires
        parse_tensors(data, pos, m) is Err,
        0 <= m <= n,
    ensures
        parse_tensors(data, pos, n) is Err,
        parse_tensors(data, pos, n)->Err_0 == parse_tensors(data, pos, m)->Err_0,
    decreases n,
{
    if m < n {
        lemma_tensors_fail(data, pos, m, n - 1);
    }
}

/// Once a dimension cannot be read, the dimensions cannot be.
proof fn lemma_dimensions_fail(data: Seq<u8>, pos: int, m: int, n: int)
    requires
        parse_dimensions(data, pos, m) is Err,
        0 <= m <= n,
    ensures
        parse_dimensions(data, pos, n) is Err,
        parse_dimensions(data, pos, n)->Err_0 == parse_dimensions(data, pos, m)->Err_0,
    decreases n,
{
    if m < n {
        lemma_dimensions_fail(data, pos, m, n - 1);
    }
}

/// The metadata of a file, with text as mathematical values.
pub open spec fn metadata_view(metadata: Map<Seq<char>, MetadataValue>) -> Map<
    Seq<char>,
    MetadataView,
> {
    metadata.map_values(|v: MetadataValue| v@)
}

/// The tensor entries of a file, as mathematical values.
pub open spec fn tensors_view(tensors: Seq<GgufTensorInfo>) -> Seq<TensorInfoView> {
    tensors.map_values(|t: GgufTensorInfo| t@)
}

impl<'a> Reader<'a> {
    /// Reads a metadata entry.
    fn entry(&mut self) -> (r: Result<(String, MetadataValue), GgufError>)
        requires
            old(self).valid(),
        ensures
            final(self).follows(old(self)),
            match parse_entry(old(self).data@, old(self).pos as int) {
                Ok((entry, p)) => r is Ok && r->Ok_0.0@ == entry.0 && r->Ok_0.1@ == entry.1
                    && final(self).pos == p,
                Err(e) => r is Err && r->Err_0@ == e,
            },
    {
        reveal(parse_entry);
        let key = match self.string() {
            Ok(key) => key,
            Err(e) => return Err(e),
        };
        let ty: u32 = match self.u32() {
            Ok(ty) => ty,
            Err(e) => return Err(e),
        };
        let value = match self.metadata_value(ty) {
            Ok(value) => value,
            Err(e) => return Err(e),
        };
        Ok((key, value))
    }

    /// Reads the metadata entries.
    fn metadata(&mut self, count: usize) -> (r: Result<StringHashMap<MetadataValue>, GgufError>)
        requires
            old(self).valid(),
        ensures
            final(self).follows(old(self)),
            match parse_metadata(old(self).data@, old(self).pos as int, count as int) {
                Ok((m, p)) => r is Ok && metadata_view(r->Ok_0@) == m && final(self).pos == p,
                Err(e) => r is Err && r->Err_0@ == e,
            },
    {
        let mut metadata: StringHashMap<MetadataValue> = StringHashMap::new();
        let ghost data = self.data@;
        let ghost start = self.pos as int;
        assert(metadata_view(metadata@) =~= Map::<Seq<char>, MetadataView>::empty());
        for i in 0..count
            invariant
                self.follows(old(self)),
                data == self.data@,
                start == old(self).pos,
                parse_metadata(data, start, i as int) is Ok,
                parse_metadata(data, start, i as int)->Ok_0.0 == metadata_view(metadata@),
                parse_metadata(data, start, i as int)->Ok_0.1 == self.pos,
        {
            proof {
                if parse_metadata(data, start, i + 1) is Err {
                    lemma_metadata_fails(data, start, i + 1, count as int);
                }
            }
            let (key, value) = match self.entry() {
                Ok(entry) => entry,
                Err(e) => return Err(e),
            };
            if metadata.contains_key(key.as_str()) {
                return Err(GgufError { fault: GgufFault::DuplicateKey, name: key });
            }
            let ghost before = metadata@;
            let ghost k = key@;
            let ghost v = value;
            metadata.insert(key, value);
            assert(metadata_view(metadata@) =~= metadata_view(before).insert(k, v@));
        }
        Ok(metadata)
    }

    /// Reads a tensor's dimensions.
    fn dimensions(&mut self, count: u32) -> (r: Result<Vec<usize>, GgufError>)
        requires
            old(self).valid(),
        ensures
            final(self).follows(old(self)),
            match parse_dimensions(old(self).data@, old(self).pos as int, count as int) {
                Ok((d, p)) => r is Ok && r->Ok_0@ == d && final(self).pos == p,
                Err(e) => r is Err && r->Err_0@ == e,
            },
    {
        let mut dimensions: Vec<usize> = Vec::new();
        let ghost data = self.data@;
        let ghost start = self.pos as int;
        for i in 0..count
            invariant
                self.follows(old(self)),
                data == self.data@,
                start == old(self).pos,
                parse_dimensions(data, start, i as int) is Ok,
                parse_dimensions(data, start, i as int)->Ok_0.0 == dimensions@,
                parse_dimensions(data, start, i as int)->Ok_0.1 == self.pos,
        {
            proof {
                if parse_dimensions(data, start, i + 1) is Err {
                    lemma_dimensions_fail(data, start, i + 1, count as int);
                }
            }
            match self.size() {
                Ok(dimension) => dimensions.push(dimension),
                Err(e) => return Err(e),
            }
        }
        Ok(dimensions)
    }

    /// Reads a tensor's entry.
    fn tensor_info(&mut self) -> (r: Result<GgufTensorInfo, GgufError>)
        requires
            old(self).valid(),
        ensures
            final(self).follows(old(self)),
            match parse_tensor_info(old(self).data@, old(self).pos as int) {
                Ok((t, p)) => r is Ok && r->Ok_0@ == t && final(self).pos == p,
                Err(e) => r is Err && r->Err_0@ == e,
            },
    {
        reveal(parse_tensor_info);
        let name = match self.string() {
            Ok(name) => name,
            Err(e) => return Err(e),
        };
        let count: u32 = match self.u32() {
            Ok(count) => count,
            Err(e) => return Err(e),
        };
        if count < 1 || count > 4 {
            return Err(GgufError { fault: GgufFault::DimensionCount { count }, name });
        }
        let dimensions = match self.dimensions(count) {
            Ok(dimensions) => dimensions,
            Err(e) => return Err(e),
        };
        let ggml_type: u32 = match self.u32() {
            Ok(ty) => ty,
            Err(e) => return Err(e),
        };
        let offset: usize = match self.size() {
            Ok(offset) => offset,
            Err(e) => return Err(e),
        };
        Ok(GgufTensorInfo { name, dimensions, ggml_type, offset })
    }

    /// Reads the tensor entries and indexes them by name.
    fn tensors(&mut self, count: usize) -> (r: Result<
        (Vec<GgufTensorInfo>, StringHashMap<usize>),
        GgufError,
    >)
        requires
            old(self).valid(),
        ensures
            final(self).follows(old(self)),
            match parse_tensors(old(self).data@, old(self).pos as int, count as int) {
                Ok((t, p)) => r is Ok && tensors_view(r->Ok_0.0@) == t && indexes(
                    r->Ok_0.1@,
                    tensors_view(r->Ok_0.0@),
                ) && final(self).pos == p,
                Err(e) => r is Err && r->Err_0@ == e,
            },
    {
        let mut tensors: Vec<GgufTensorInfo> = Vec::new();
        let mut index: StringHashMap<usize> = StringHashMap::new();
        let ghost data = self.data@;
        let ghost start = self.pos as int;
        assert(tensors_view(tensors@) =~= Seq::<TensorInfoView>::empty());
        for i in 0..count
            invariant
                self.follows(old(self)),
                data == self.data@,
                start == old(self).pos,
                tensors@.len() == i,
                parse_tensors(data, start, i as int) is Ok,
                parse_tensors(data, start, i as int)->Ok_0.0 == tensors_view(tensors@),
                parse_tensors(data, start, i as int)->Ok_0.1 == self.pos,
                indexes(index@, tensors_view(tensors@)),
        {
            proof {
                if parse_tensors(data, start, i + 1) is Err {
                    lemma_tensors_fail(data, start, i + 1, count as int);
                }
            }
            let info = match self.tensor_info() {
                Ok(info) => info,
                Err(e) => return Err(e),
            };
            let ghost known = tensors_view(tensors@);
            if index.contains_key(info.name.as_str()) {
                assert(known[index@[info.name@] as int].name == info.name@);
                return Err(GgufError { fault: GgufFault::DuplicateTensor, name: info.name });
            }
            let key = info.name.clone();
            let ghost entry = info@;
            let ghost map = index@;
            index.insert(key, i);
            tensors.push(info);
            proof {
                let now = tensors_view(tensors@);
                assert(now =~= known.push(entry));
                assert forall|k: int| 0 <= k < now.len() implies index@.contains_key(
                    (#[trigger] now[k]).name,
                ) && index@[now[k].name] == k by {
                    if k < i {
                        assert(now[k] == known[k]);
                    }
                }
                assert forall|name: Seq<char>| #[trigger] index@.contains_key(name) implies (
                index@[name] as int) < now.len() && now[index@[name] as int].name == name by {
                    if name != entry.name {
                        assert(map.contains_key(name));
                    }
                }
            }
        }
        Ok((tensors, index))
    }
}

/// The index leads from each name to the entry of that name.
pub open spec fn indexes(index: Map<Seq<char>, usize>, tensors: Seq<TensorInfoView>) -> bool {
    &&& forall|i: int|
        0 <= i < tensors.len() ==> index.contains_key((#[trigger] tensors[i]).name)
            && index[tensors[i].name] == i
    &&& forall|name: Seq<char>| #[trigger]
        index.contains_key(name) ==> (index[name] as int) < tensors.len()
            && tensors[index[name] as int].name == name
}

/// An opened GGUF file over its bytes.
pub struct GgufFile<'a> {
    pub mmap: &'a [u8],
    pub version: u32,
    pub metadata: StringHashMap<MetadataValue>,
    pub tensors: Vec<GgufTensorInfo>,
    /// The position in `tensors` of each name.
    pub index: StringHashMap<usize>,
    pub data_offset: usize,
}

impl<'a> View for GgufFile<'a> {
    type V = GgufView;

    open spec fn view(&self) -> GgufView {
        GgufView {
            version: self.version,
            metadata: metadata_view(self.metadata@),
            tensors: tensors_view(self.tensors@),
            data_offset: self.data_offset as int,
        }
    }
}

impl GgufView {
    /// Every tensor's data lies inside a file of `file_len` bytes.
    pub open spec fn in_bounds(self, file_len: int) -> bool {
        &&& 0 <= self.data_offset <= file_len
        &&& forall|i: int|
            0 <= i < self.tensors.len() ==> self.tensors[i].dimensions.len() >= 1 && range_of(
                #[trigger] self.tensors[i],
                self.data_offset,
                file_len,
            ) is Ok
    }

    /// The entry of the given name.
    pub open spec fn tensor_named(self, name: Seq<char>) -> Option<TensorInfoView> {
        if has_tensor(self.tensors, name) {
            Some(
                self.tensors[choose|i: int|
                    0 <= i < self.tensors.len() && (#[trigger] self.tensors[i]).name == name],
            )
        } else {
            None
        }
    }

    /// The metadata value of the given name.
    pub open spec fn value(self, key: Seq<char>) -> Option<MetadataView> {
        if self.metadata.contains_key(key) {
            Some(self.metadata[key])
        } else {
            None
        }
    }
}

/// No tensor is bad where none of them is the first bad one.
proof fn lemma_no_bad_range(tensors: Seq<TensorInfoView>, data_offset: int, file_len: int, n: int)
    requires
        0 <= n <= tensors.len(),
        first_bad_range(tensors, data_offset, file_len, n) is None,
    ensures
        forall|i: int| 0 <= i < n ==> range_of(#[trigger] tensors[i], data_offset, file_len) is Ok,
    decreases n,
{
    if n > 0 {
        lemma_no_bad_range(tensors, data_offset, file_len, n - 1);
    }
}

/// The first bad tensor of some is the first bad one of more.
proof fn lemma_bad_range_stays(
    tensors: Seq<TensorInfoView>,
    data_offset: int,
    file_len: int,
    m: int,
    n: int,
)
    requires
        0 <= m <= n,
        first_bad_range(tensors, data_offset, file_len, m) is Some,
    ensures
        first_bad_range(tensors, data_offset, file_len, n) == first_bad_range(
            tensors,
            data_offset,
            file_len,
            m,
        ),
    decreases n,
{
    if m < n {
        lemma_bad_range_stays(tensors, data_offset, file_len, m, n - 1);
    }
}

/// Reading one dimension at a time gives as many as were read.
proof fn lemma_dimension_count(data: Seq<u8>, pos: int, n: int)
    requires
        n >= 0,
        parse_dimensions(data, pos, n) is Ok,
    ensures
        parse_dimensions(data, pos, n)->Ok_0.0.len() == n,
    decreases n,
{
    if n > 0 {
        lemma_dimension_count(data, pos, n - 1);
    }
}

/// Every tensor of a list that could be read has a dimension.
proof fn lemma_tensors_have_dimensions(data: Seq<u8>, pos: int, n: int)
    requires
        parse_tensors(data, pos, n) is Ok,
    ensures
        forall|i: int|
            0 <= i < parse_tensors(data, pos, n)->Ok_0.0.len() ==> (#[trigger] parse_tensors(
                data,
                pos,
                n,
            )->Ok_0.0[i]).dimensions.len() >= 1,
    decreases n,
{
    if n > 0 {
        lemma_tensors_have_dimensions(data, pos, n - 1);
        reveal(parse_tensor_info);
        let p = parse_tensors(data, pos, n - 1)->Ok_0.1;
        let q = parse_string(data, p)->Ok_0.1;
        let count = parse_u32(data, q)->Ok_0.0;
        lemma_dimension_count(data, parse_u32(data, q)->Ok_0.1, count as int);
    }
}

/// In every file that can be opened, each tensor's data lies inside the file: nothing that is read
/// from an opened file later can be out of bounds.
pub proof fn opened_files_are_in_bounds(data: Seq<u8>)
    requires
        parse_file(data) is Ok,
        data.len() <= usize::MAX,
    ensures
        parse_file(data)->Ok_0.in_bounds(data.len() as int),
{
    let header = parse_header(data)->Ok_0;
    let q = parse_metadata(data, header.1, header.0.2 as int)->Ok_0;
    let r = parse_tensors(data, q.1, header.0.1 as int)->Ok_0;
    let v = parse_file(data)->Ok_0;
    lemma_no_bad_range(v.tensors, v.data_offset, data.len() as int, v.tensors.len() as int);
    lemma_tensors_have_dimensions(data, q.1, header.0.1 as int);
    lemma_positions(data, header.1, header.0.2 as int, 0, 0);
    lemma_positions(data, 0, 0, q.1, header.0.1 as int);
    aligned_is_the_least_multiple(r.1, alignment_of(q.0) as int);
}

/// Reading never moves back before the start of the file.
proof fn lemma_positions(data: Seq<u8>, p: int, m: int, q: int, n: int)
    requires
        p >= 0,
        q >= 0,
    ensures
        parse_metadata(data, p, m) is Ok ==> parse_metadata(data, p, m)->Ok_0.1 >= 0,
        parse_tensors(data, q, n) is Ok ==> parse_tensors(data, q, n)->Ok_0.1 >= 0,
    decreases (if m > 0 {
        m
    } else {
        0
    }) + (if n > 0 {
        n
    } else {
        0
    }),
{
    reveal(parse_entry);
    reveal(parse_tensor_info);
    if m > 0 {
        lemma_positions(data, p, m - 1, q, 0);
        if parse_metadata(data, p, m) is Ok {
            let a = parse_metadata(data, p, m - 1)->Ok_0.1;
            let b = parse_string(data, a)->Ok_0.1;
            let c = parse_u32(data, b)->Ok_0;
            lemma_value_position(data, c.1, c.0);
        }
    }
    if n > 0 {
        lemma_positions(data, p, 0, q, n - 1);
        if parse_tensors(data, q, n) is Ok {
            let a = parse_tensors(data, q, n - 1)->Ok_0.1;
            let b = parse_string(data, a)->Ok_0.1;
            let c = parse_u32(data, b)->Ok_0;
            lemma_dimensions_position(data, c.1, c.0 as int);
        }
    }
}

proof fn lemma_value_position(data: Seq<u8>, p: int, ty: u32)
    requires
        p >= 0,
    ensures
        parse_value(data, p, ty) is Ok ==> parse_value(data, p, ty)->Ok_0.1 >= 0,
{
    if ty == 9 && parse_value(data, p, ty) is Ok {
        let element_type = parse_u32(data, p)->Ok_0.0;
        let size = parse_size(data, p + 4)->Ok_0;
        lemma_skip_position(data, size.1, element_type, size.0 as int);
    }
}

proof fn lemma_skip_position(data: Seq<u8>, p: int, ty: u32, n: int)
    requires
        p >= 0,
    ensures
        skip_elements(data, p, ty, n) is Ok ==> skip_elements(data, p, ty, n)->Ok_0 >= 0,
    decreases n,
{
    if n > 0 {
        lemma_skip_position(data, p, ty, n - 1);
    }
}

proof fn lemma_dimensions_position(data: Seq<u8>, p: int, n: int)
    requires
        p >= 0,
    ensures
        parse_dimensions(data, p, n) is Ok ==> parse_dimensions(data, p, n)->Ok_0.1 >= 0,
    decreases n,
{
    if n > 0 {
        lemma_dimensions_position(data, p, n - 1);
    }
}

/// Decides whether a number is a power of two.
fn is_power_of_two(value: u64) -> (r: bool)
    ensures
        r == power_of_two(value as int),
{
    if value == 0 {
        return false;
    }
    let mut v: u64 = value;
    while v > 1
        invariant
            v >= 1,
            power_of_two(v as int) == power_of_two(value as int),
        decreases v,
    {
        if v % 2 != 0 {
            return false;
        }
        v = v / 2;
    }
    true
}

/// Rounds up to a multiple of the alignment.
fn align_up(value: usize, alignment: usize) -> (r: Result<usize, GgufError>)
    requires
        alignment > 0,
    ensures
        if value + alignment - 1 > usize::MAX {
            r is Err && r->Err_0@ == plain(GgufFault::AlignmentOverflow)
        } else {
            r is Ok && r->Ok_0 == aligned(value as int, alignment as int)
        },
{
    match value.checked_add(alignment - 1) {
        Some(v) => {
            proof {
                let q = v as int / alignment as int;
                assert(q * alignment <= v && q * alignment >= 0) by (nonlinear_arith)
                    requires
                        alignment > 0,
                        q == v as int / alignment as int,
                        v >= 0,
                ;
            }
            Ok(v / alignment * alignment)
        },
        None => Err(plain_error(GgufFault::AlignmentOverflow)),
    }
}

/// A fault that is about one tensor or metadata entry.
fn named_error(fault: GgufFault, name: &str) -> (error: GgufError)
    ensures
        error@ == (fault, name@),
{
    GgufError { fault, name: name.to_owned() }
}

/// Finds where the data of a tensor lies.
fn tensor_range(info: &GgufTensorInfo, data_offset: usize, file_len: usize) -> (r: Result<
    (usize, usize),
    GgufError,
>)
    requires
        info.dimensions@.len() >= 1,
    ensures
        match range_of(info@, data_offset as int, file_len as int) {
            Ok((start, len)) => r is Ok && r->Ok_0.0 == start && r->Ok_0.1 == len,
            Err(e) => r is Err && r->Err_0@ == e,
        },
{
    let ty = match QuantType::from_ggml_type(info.ggml_type) {
        Ok(ty) => ty,
        Err(_) => {
            return Err(
                named_error(
                    GgufFault::UnsupportedType { value: info.ggml_type },
                    info.name.as_str(),
                ),
            );
        },
    };
    let mut elements: usize = 1;
    for i in 0..info.dimensions.len()
        invariant
            element_count(info.dimensions@.take(i as int)) == Some(elements as int),
            quant::ggml_format(info.ggml_type) == Some(ty),
    {
        proof {
            assert(info.dimensions@.take(i + 1).drop_last() =~= info.dimensions@.take(i as int));
        }
        match elements.checked_mul(info.dimensions[i]) {
            Some(product) => elements = product,
            None => {
                proof {
                    lemma_overflow_stays(info.dimensions@, i + 1, info.dimensions@.len() as int);
                    assert(info.dimensions@.take(info.dimensions@.len() as int)
                        =~= info.dimensions@);
                }
                return Err(named_error(GgufFault::ElementOverflow, info.name.as_str()));
            },
        }
    }
    assert(info.dimensions@.take(info.dimensions@.len() as int) =~= info.dimensions@);
    let size: usize = ty.block_size();
    if elements % size != 0 {
        return Err(named_error(GgufFault::ElementCount { quant_type: ty }, info.name.as_str()));
    }
    let width: usize = info.dimensions[0];
    if width % size != 0 {
        return Err(named_error(GgufFault::RowWidth { width, quant_type: ty }, info.name.as_str()));
    }
    let start: usize = match data_offset.checked_add(info.offset) {
        Some(start) => start,
        None => return Err(named_error(GgufFault::OffsetOverflow, info.name.as_str())),
    };
    match (elements / size).checked_mul(ty.type_size()) {
        Some(len) => {
            if start > file_len || len > file_len - start {
                Err(named_error(GgufFault::OutsideFile, info.name.as_str()))
            } else {
                Ok((start, len))
            }
        },
        None => Err(named_error(GgufFault::OutsideFile, info.name.as_str())),
    }
}

/// A product that overflowed stays overflowed.
proof fn lemma_overflow_stays(dimensions: Seq<usize>, m: int, n: int)
    requires
        0 <= m <= n <= dimensions.len(),
        element_count(dimensions.take(m)) is None,
    ensures
        element_count(dimensions.take(n)) is None,
    decreases n,
{
    if m < n {
        lemma_overflow_stays(dimensions, m, n - 1);
        assert(dimensions.take(n).drop_last() =~= dimensions.take(n - 1));
    }
}

impl<'a> GgufFile<'a> {
    /// The index leads to the tensors and every tensor's data lies inside the file.
    pub open spec fn valid(&self) -> bool {
        &&& indexes(self.index@, self@.tensors)
        &&& self@.in_bounds(self.mmap@.len() as int)
    }

    /// Reads the header, the metadata and the tensor list of a file, and checks where every tensor's
    /// data lies.
    pub fn open(mmap: &'a [u8]) -> (result: Result<GgufFile<'a>, GgufError>)
        ensures
            match parse_file(mmap@) {
                Ok(view) => result is Ok && result->Ok_0@ == view && result->Ok_0.valid()
                    && result->Ok_0.mmap == mmap,
                Err(e) => result is Err && result->Err_0@ == e,
            },
    {
        let total: usize = mmap.len();
        let mut reader = Reader::new(mmap);
        let magic = match reader.take(4) {
            Ok(magic) => magic,
            Err(e) => return Err(e),
        };
        assert(magic@ == seq![0x47u8, 0x47, 0x55, 0x46] <==> magic@[0] == 0x47 && magic@[1] == 0x47
            && magic@[2] == 0x55 && magic@[3] == 0x46) by {
            if magic@[0] == 0x47 && magic@[1] == 0x47 && magic@[2] == 0x55 && magic@[3] == 0x46 {
                assert(magic@ =~= seq![0x47u8, 0x47, 0x55, 0x46]);
            }
        }
        if !(magic[0] == 0x47 && magic[1] == 0x47 && magic[2] == 0x55 && magic[3] == 0x46) {
            return Err(plain_error(GgufFault::Magic));
        }
        let version: u32 = match reader.u32() {
            Ok(version) => version,
            Err(e) => return Err(e),
        };
        if version < 2 || version > 3 {
            return Err(plain_error(GgufFault::Version { version }));
        }
        let tensor_count: usize = match reader.size() {
            Ok(count) => count,
            Err(e) => return Err(e),
        };
        let metadata_count: usize = match reader.size() {
            Ok(count) => count,
            Err(e) => return Err(e),
        };
        if tensor_count > 1_000_000 || metadata_count > 1_000_000 {
            return Err(plain_error(GgufFault::HeaderCounts));
        }
        let metadata = match reader.metadata(metadata_count) {
            Ok(metadata) => metadata,
            Err(e) => return Err(e),
        };
        let (tensors, index) = match reader.tensors(tensor_count) {
            Ok(tensors) => tensors,
            Err(e) => return Err(e),
        };
        let requested: Option<u64> = match metadata.get("general.alignment") {
            Some(value) => value.as_u64(),
            None => None,
        };
        let alignment: u64 = match requested {
            Some(alignment) => alignment,
            None => DEFAULT_ALIGNMENT,
        };
        assert(alignment == alignment_of(metadata_view(metadata@)));
        if alignment > 0x10_0000 || !is_power_of_two(alignment) {
            return Err(plain_error(GgufFault::Alignment { alignment }));
        }
        let data_offset: usize = match align_up(reader.position(), alignment as usize) {
            Ok(offset) => offset,
            Err(e) => return Err(e),
        };
        if data_offset > total {
            return Err(plain_error(GgufFault::DataOffset));
        }
        proof {
            let header = parse_header(mmap@)->Ok_0;
            let q = parse_metadata(mmap@, header.1, header.0.2 as int)->Ok_0;
            lemma_tensors_have_dimensions(mmap@, q.1, header.0.1 as int);
        }
        let ghost views = tensors_view(tensors@);
        for i in 0..tensors.len()
            invariant
                total == mmap@.len(),
                views == tensors_view(tensors@),
                forall|k: int|
                    0 <= k < views.len() ==> (#[trigger] views[k]).dimensions.len() >= 1,
                first_bad_range(views, data_offset as int, total as int, i as int) is None,
                match parse_file(mmap@) {
                    Ok(v) => first_bad_range(
                        views,
                        data_offset as int,
                        total as int,
                        views.len() as int,
                    ) is None,
                    Err(e) => first_bad_range(
                        views,
                        data_offset as int,
                        total as int,
                        views.len() as int,
                    ) == Some(e),
                },
        {
            assert(views[i as int] == tensors@[i as int]@);
            match tensor_range(&tensors[i], data_offset, total) {
                Ok(_) => {},
                Err(e) => {
                    proof {
                        lemma_bad_range_stays(
                            views,
                            data_offset as int,
                            total as int,
                            i + 1,
                            views.len() as int,
                        );
                    }
                    return Err(e);
                },
            }
        }
        proof {
            lemma_no_bad_range(views, data_offset as int, total as int, views.len() as int);
        }
        Ok(GgufFile { mmap, version, metadata, tensors, index, data_offset })
    }

    /// The metadata value of that name, as a non-negative integer.
    pub fn metadata_u64(&self, key: &str) -> (r: Result<u64, GgufError>)
        ensures
            match self@.value(key@) {
                Some(value) => match value.integer() {
                    Some(v) => r == Ok::<u64, GgufError>(v),
                    None => r is Err && r->Err_0@ == (GgufFault::MissingInteger, key@),
                },
                None => r is Err && r->Err_0@ == (GgufFault::MissingInteger, key@),
            },
    {
        if let Some(value) = self.metadata.get(key) {
            if let Some(v) = value.as_u64() {
                return Ok(v);
            }
        }
        Err(named_error(GgufFault::MissingInteger, key))
    }

    /// The metadata value of that name, as a number that the caller rounds to single precision.
    pub fn metadata_f32(&self, key: &str) -> (r: Result<MetadataNumber, GgufError>)
        ensures
            match self@.value(key@) {
                Some(value) => match value.number() {
                    Some(v) => r == Ok::<MetadataNumber, GgufError>(v),
                    None => r is Err && r->Err_0@ == (GgufFault::MissingNumber, key@),
                },
                None => r is Err && r->Err_0@ == (GgufFault::MissingNumber, key@),
            },
    {
        if let Some(value) = self.metadata.get(key) {
            if let Some(v) = value.as_f32() {
                return Ok(v);
            }
        }
        Err(named_error(GgufFault::MissingNumber, key))
    }

    /// The metadata value of that name, as text.
    pub fn metadata_str(&self, key: &str) -> (r: Result<&str, GgufError>)
        ensures
            match self@.value(key@) {
                Some(value) => match value.text() {
                    Some(v) => r is Ok && r->Ok_0@ == v,
                    None => r is Err && r->Err_0@ == (GgufFault::MissingText, key@),
                },
                None => r is Err && r->Err_0@ == (GgufFault::MissingText, key@),
            },
    {
        if let Some(value) = self.metadata.get(key) {
            if let Some(v) = value.as_str() {
                return Ok(v);
            }
        }
        Err(named_error(GgufFault::MissingText, key))
    }

    /// The entry of the tensor of that name.
    pub fn tensor_info(&self, name: &str) -> (r: Result<&GgufTensorInfo, GgufError>)
        requires
            self.valid(),
        ensures
            match self@.tensor_named(name@) {
                Some(info) => r is Ok && r->Ok_0@ == info && info.name == name@,
                None => r is Err && r->Err_0@ == (GgufFault::MissingTensor, name@),
            },
            r is Ok ==> exists|i: int| 0 <= i < self.tensors@.len() && *r->Ok_0 == self.tensors@[i],
    {
        let ghost views = self@.tensors;
        match self.index.get(name) {
            Some(i) => {
                proof {
                    let at = *i as int;
                    assert(views[at].name == name@);
                    let j = choose|j: int|
                        0 <= j < views.len() && (#[trigger] views[j]).name == name@;
                    assert(self.index@[views[j].name] == j);
                    assert(views[at] == self.tensors@[at]@);
                }
                Ok(&self.tensors[*i])
            },
            None => {
                assert(!has_tensor(views, name@));
                Err(named_error(GgufFault::MissingTensor, name))
            },
        }
    }

    /// Decides whether there is a tensor of that name.
    pub fn has(&self, name: &str) -> (r: bool)
        requires
            self.valid(),
        ensures
            r == has_tensor(self@.tensors, name@),
    {
        let ghost views = self@.tensors;
        let r = self.index.contains_key(name);
        proof {
            if r {
                assert(views[self.index@[name@] as int].name == name@);
            } else if has_tensor(views, name@) {
                let j = choose|j: int| 0 <= j < views.len() && (#[trigger] views[j]).name == name@;
                assert(self.index@.contains_key(views[j].name));
            }
        }
        r
    }

    /// The tensor of that name. A matrix has its rows first: its shape is the reverse of the
    /// dimensions in the file.
    pub fn tensor(&self, name: &str) -> (r: Result<QuantTensor<'a>, GgufError>)
        requires
            self.valid(),
        ensures
            match self@.tensor_named(name@) {
                None => r is Err && r->Err_0@ == (GgufFault::MissingTensor, name@),
                Some(info) => if info.dimensions.len() > 2 {
                    r is Err && r->Err_0@ == (
                        GgufFault::TooManyDimensions { count: info.dimensions.len() as usize },
                        name@,
                    )
                } else {
                    &&& r is Ok
                    &&& r->Ok_0.valid()
                    &&& r->Ok_0.shape@ == info.dimensions.reverse()
                    &&& Some(r->Ok_0.quant_type) == quant::ggml_format(info.ggml_type)
                    &&& r->Ok_0.data.contents() == self.contents_of(info)
                },
            },
    {
        let info = match self.tensor_info(name) {
            Ok(info) => info,
            Err(e) => return Err(e),
        };
        let count: usize = info.dimensions.len();
        if count > 2 {
            return Err(named_error(GgufFault::TooManyDimensions { count }, name));
        }
        let ghost at = choose|i: int| 0 <= i < self.tensors@.len() && *info == self.tensors@[i];
        assert(self@.tensors[at] == info@);
        let (start, len) = match tensor_range(info, self.data_offset, self.mmap.len()) {
            Ok(range) => range,
            Err(e) => return Err(e),
        };
        let ty = match QuantType::from_ggml_type(info.ggml_type) {
            Ok(ty) => ty,
            Err(_) => return Err(named_error(GgufFault::MissingTensor, name)),
        };
        let shape: Vec<usize> = if count == 1 {
            vec![info.dimensions[0]]
        } else {
            vec![info.dimensions[1], info.dimensions[0]]
        };
        proof {
            let d = info.dimensions@;
            reveal_with_fuel(element_count, 3);
            assert(shape@ =~= d.reverse());
            if count == 1 {
                assert(d.drop_last().len() == 0);
                assert(element_count(d) == Some(1 * d[0]));
                quant::lemma_whole_blocks(1, d[0] as int, ty);
                assert(1 * quant::stride(d[0] as int, ty) == quant::stride(d[0] as int, ty));
            } else {
                assert(d.drop_last().drop_last().len() == 0);
                assert(d.drop_last().last() == d[0]);
                assert(element_count(d.drop_last()) == Some(1 * d[0]));
                assert(element_count(d) == Some(d[0] * d[1]));
                assert(d[0] * d[1] == d[1] * d[0]) by (nonlinear_arith);
                quant::lemma_whole_blocks(d[1] as int, d[0] as int, ty);
            }
            assert(quant::tensor_fault(len as int, shape@, ty) is None);
        }
        match QuantTensor::from_mmap(self.mmap, start, len, shape, ty) {
            Ok(tensor) => Ok(tensor),
            Err(_) => Err(named_error(GgufFault::OutsideFile, name)),
        }
    }

    /// The bytes of the file that hold a tensor's data.
    pub open spec fn contents_of(&self, info: TensorInfoView) -> Seq<u8> {
        match range_of(info, self@.data_offset, self.mmap@.len() as int) {
            Ok((start, len)) => self.mmap@.subrange(start, start + len),
            Err(_) => Seq::empty(),
        }
    }
}

/// How many elements a tensor has: the product of its dimensions, where no product of the first of
/// them leaves the machine's address range.
pub proof fn elements_are_the_product_of_the_dimensions(dimensions: Seq<usize>)
    ensures
        element_count(dimensions) matches Some(n) ==> n == dimensions.fold_left(
            1int,
            |n: int, d: usize| n * d,
        ),
        element_count(dimensions) is None <==> exists|k: int|
            0 <= k <= dimensions.len() && (#[trigger] dimensions.take(k)).fold_left(
                1int,
                |n: int, d: usize| n * d,
            ) > usize::MAX,
    decreases dimensions.len(),
{
    let f = |n: int, d: usize| n * d;
    let all = dimensions.len() as int;
    assert(dimensions.take(all) =~= dimensions);
    if all > 0 {
        let front = dimensions.drop_last();
        elements_are_the_product_of_the_dimensions(front);
        if element_count(front) is None {
            let k = choose|k: int|
                0 <= k <= front.len() && (#[trigger] front.take(k)).fold_left(1int, f) > usize::MAX;
            assert(front.take(k) =~= dimensions.take(k));
        } else if element_count(dimensions) is None {
            assert(dimensions.take(all).fold_left(1int, f) > usize::MAX);
        } else if exists|k: int|
            0 <= k <= all && (#[trigger] dimensions.take(k)).fold_left(1int, f) > usize::MAX {
            let k = choose|k: int|
                0 <= k <= all && (#[trigger] dimensions.take(k)).fold_left(1int, f) > usize::MAX;
            if k < all {
                assert(front.take(k) =~= dimensions.take(k));
            }
        }
    } else {
        assert forall|k: int| 0 <= k <= 0 implies (#[trigger] dimensions.take(k)).fold_left(
            1int,
            f,
        ) <= usize::MAX by {
            assert(dimensions.take(k).len() == 0);
        }
    }
}

/// Where a tensor lies: its offset behind the start of the tensor data, one block for each block's
/// number of elements. It is refused for an unknown format, then for a number of elements that
/// cannot be counted, then for one that is no whole number of blocks, then for rows that are none,
/// then for a start that cannot be addressed, then for an end behind the end of the file.
pub proof fn tensors_lie_behind_their_offset(
    info: TensorInfoView,
    data_offset: int,
    file_len: int,
    ty: QuantType,
    elements: int,
)
    requires
        info.dimensions.len() > 0,
    ensures
        quant::ggml_format(info.ggml_type) is None ==> range_of(info, data_offset, file_len) == Err::<
            (int, int),
            (GgufFault, Seq<char>),
        >((GgufFault::UnsupportedType { value: info.ggml_type }, info.name)),
        quant::ggml_format(info.ggml_type) is Some && element_count(info.dimensions) is None
            ==> range_of(info, data_offset, file_len) == Err::<(int, int), (GgufFault, Seq<char>)>(
            (GgufFault::ElementOverflow, info.name),
        ),
        quant::ggml_format(info.ggml_type) == Some(ty) && element_count(info.dimensions) == Some(
            elements,
        ) ==> {
            let result = range_of(info, data_offset, file_len);
            let len = elements / ty.block_len() * ty.block_bytes();
            let error = |fault: GgufFault|
                Err::<(int, int), (GgufFault, Seq<char>)>((fault, info.name));
            &&& elements % ty.block_len() != 0 ==> result == error(
                GgufFault::ElementCount { quant_type: ty },
            )
            &&& elements % ty.block_len() == 0 && info.dimensions[0] as int % ty.block_len() != 0
                ==> result == error(
                GgufFault::RowWidth { width: info.dimensions[0], quant_type: ty },
            )
            &&& elements % ty.block_len() == 0 && info.dimensions[0] as int % ty.block_len() == 0 ==> {
                &&& data_offset + info.offset > usize::MAX ==> result == error(
                    GgufFault::OffsetOverflow,
                )
                &&& data_offset + info.offset <= usize::MAX && data_offset + info.offset + len
                    > file_len ==> result == error(GgufFault::OutsideFile)
                &&& data_offset + info.offset <= usize::MAX && data_offset + info.offset + len
                    <= file_len ==> result == Ok::<(int, int), (GgufFault, Seq<char>)>(
                    (data_offset + info.offset, len),
                )
            }
        },
{
}

/// What a metadata value gives where an integer, a number or a text is asked for. A negative number
/// is no integer here, and a number is given as it was written.
pub proof fn values_give_what_they_hold(unsigned: u64, signed: i64, text: Seq<char>, value: MetadataView)
    ensures
        value == (MetadataView::Number { number: MetadataNumber::Unsigned { value: unsigned } })
            ==> value.integer() == Some(unsigned),
        value == (MetadataView::Number { number: MetadataNumber::Signed { value: signed } })
            && signed >= 0 ==> (value.integer() matches Some(n) && n == signed),
        value == (MetadataView::Number { number: MetadataNumber::Signed { value: signed } })
            && signed < 0 ==> value.integer() is None,
        value matches MetadataView::Number { number } ==> value.number() == Some(number)
            && value.text() is None,
        value matches MetadataView::Number { number: MetadataNumber::Single { bits } }
            ==> value.integer() is None,
        value matches MetadataView::Number { number: MetadataNumber::Double { bits } }
            ==> value.integer() is None,
        value == (MetadataView::Text { value: text }) ==> value.text() == Some(text)
            && value.integer() is None && value.number() is None,
        value is Bool || value is Array ==> value.integer() is None && value.number() is None
            && value.text() is None,
{
}

/// What a file is refused for at its start: the first four bytes that are not the letters `GGUF`,
/// a version other than 2 and 3, and more than a million tensors or metadata entries.
#[verifier::spinoff_prover]
#[verifier::rlimit(40)]
pub proof fn files_are_refused_at_their_start(data: Seq<u8>, version: int, tensors: int, entries: int)
    requires
        data.len() >= 24,
        version == data[4] + 0x100 * data[5] + 0x1_0000 * data[6] + 0x100_0000 * data[7],
        tensors == data[8] + 0x100 * data[9] + 0x1_0000 * data[10] + 0x100_0000 * data[11]
            + 0x1_0000_0000 * (data[12] + 0x100 * data[13] + 0x1_0000 * data[14] + 0x100_0000
            * data[15]),
        entries == data[16] + 0x100 * data[17] + 0x1_0000 * data[18] + 0x100_0000 * data[19]
            + 0x1_0000_0000 * (data[20] + 0x100 * data[21] + 0x1_0000 * data[22] + 0x100_0000
            * data[23]),
        tensors <= usize::MAX,
        entries <= usize::MAX,
    ensures
        ({
            let magic = data[0] == 0x47 && data[1] == 0x47 && data[2] == 0x55 && data[3] == 0x46;
            let error = |fault: GgufFault|
                Err::<GgufView, (GgufFault, Seq<char>)>((fault, Seq::empty()));
            &&& !magic ==> parse_file(data) == error(GgufFault::Magic)
            &&& magic && version != 2 && version != 3 ==> parse_file(data) == error(
                GgufFault::Version { version: version as u32 },
            )
            &&& magic && (version == 2 || version == 3) && (tensors > 1_000_000 || entries
                > 1_000_000) ==> parse_file(data) == error(GgufFault::HeaderCounts)
        }),
        parse_file(data) matches Ok(view) ==> view.version == version && view.tensors.len()
            == tensors,
{
    let four = data.subrange(0, 4);
    let letters = seq![0x47u8, 0x47, 0x55, 0x46];
    assert(four[0] == data[0] && four[1] == data[1] && four[2] == data[2] && four[3] == data[3]);
    if four[0] == 0x47 && four[1] == 0x47 && four[2] == 0x55 && four[3] == 0x46 {
        assert(four =~= letters);
    } else {
        assert(letters[0] == 0x47 && letters[1] == 0x47 && letters[2] == 0x55 && letters[3] == 0x46);
    }
    assert(bytes::le32(data, 4) == version);
    assert(bytes::le64(data, 8) == tensors);
    assert(bytes::le64(data, 16) == entries);
    if parse_file(data) is Ok {
        let q = parse_metadata(data, 24, entries)->Ok_0;
        lemma_tensor_count(data, q.1, tensors);
    }
}

/// Reading one entry at a time gives as many as were read.
proof fn lemma_tensor_count(data: Seq<u8>, pos: int, n: int)
    requires
        n >= 0,
        parse_tensors(data, pos, n) is Ok,
    ensures
        parse_tensors(data, pos, n)->Ok_0.0.len() == n,
    decreases n,
{
    if n > 0 {
        lemma_tensor_count(data, pos, n - 1);
    }
}

/// The powers of two are one, and the doubles of powers of two.
pub proof fn powers_of_two_are_doubles(n: int)
    ensures
        power_of_two(1),
        n > 0 ==> (power_of_two(2 * n) <==> power_of_two(n)),
        n > 0 ==> !power_of_two(2 * n + 1),
        n <= 0 ==> !power_of_two(n),
{
    assert((2 * n) / 2 == n && (2 * n) % 2 == 0);
    assert((2 * n + 1) % 2 == 1);
}

} // verus!
