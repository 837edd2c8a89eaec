//! GGUF files as they are written, byte by byte, and what reading gives back of them.

use crate::bytes;
use crate::gguf;
use crate::gguf::{GgufFault, GgufView, MetadataNumber, MetadataView, TensorInfoView};
use vstd::prelude::*;

verus! {

/// The two bytes of a 16-bit word, lowest first.
pub open spec fn word16(value: int) -> Seq<u8> {
    seq![(value % 256) as u8, (value / 256) as u8]
}

/// The four bytes of a 32-bit word, lowest first.
pub open spec fn word32(value: int) -> Seq<u8> {
    word16(value % 0x1_0000) + word16(value / 0x1_0000)
}

/// The eight bytes of a 64-bit word, lowest first.
pub open spec fn word64(value: int) -> Seq<u8> {
    word32(value % 0x1_0000_0000) + word32(value / 0x1_0000_0000)
}

/// A text: the number of its bytes, then its UTF-8 form.
pub open spec fn text(value: Seq<char>) -> Seq<u8> {
    word64(vstd::utf8::encode_utf8(value).len() as int) + vstd::utf8::encode_utf8(value)
}

/// A metadata value that is no array.
#[allow(inconsistent_fields)]
pub enum Scalar {
    U8 { value: u8 },
    I8 { value: i8 },
    U16 { value: u16 },
    I16 { value: i16 },
    U32 { value: u32 },
    I32 { value: i32 },
    F32 { bits: u32 },
    Bool { value: bool },
    Text { value: Seq<char> },
    U64 { value: u64 },
    I64 { value: i64 },
    F64 { bits: u64 },
}

impl Scalar {
    /// The number of the value's type.
    pub open spec fn number(self) -> u32 {
        match self {
            Scalar::U8 { .. } => 0,
            Scalar::I8 { .. } => 1,
            Scalar::U16 { .. } => 2,
            Scalar::I16 { .. } => 3,
            Scalar::U32 { .. } => 4,
            Scalar::I32 { .. } => 5,
            Scalar::F32 { .. } => 6,
            Scalar::Bool { .. } => 7,
            Scalar::Text { .. } => 8,
            Scalar::U64 { .. } => 10,
            Scalar::I64 { .. } => 11,
            Scalar::F64 { .. } => 12,
        }
    }

    /// The bytes of the value; a negative number is written in two's complement.
    pub open spec fn bytes(self) -> Seq<u8> {
        match self {
            Scalar::U8 { value } => seq![value],
            Scalar::I8 { value } => seq![
                (if value < 0 {
                    value + 0x100
                } else {
                    value as int
                }) as u8,
            ],
            Scalar::U16 { value } => word16(value as int),
            Scalar::I16 { value } => word16(
                if value < 0 {
                    value + 0x1_0000
                } else {
                    value as int
                },
            ),
            Scalar::U32 { value } => word32(value as int),
            Scalar::I32 { value } => word32(
                if value < 0 {
                    value + 0x1_0000_0000
                } else {
                    value as int
                },
            ),
            Scalar::F32 { bits } => word32(bits as int),
            Scalar::Bool { value } => seq![
                if value {
                    1u8
                } else {
                    0u8
                },
            ],
            Scalar::Text { value } => text(value),
            Scalar::U64 { value } => word64(value as int),
            Scalar::I64 { value } => word64(
                if value < 0 {
                    value + 0x1_0000_0000_0000_0000
                } else {
                    value as int
                },
            ),
            Scalar::F64 { bits } => word64(bits as int),
        }
    }

    /// The value.
    pub open spec fn value(self) -> MetadataView {
        let unsigned = |value: u64|
            MetadataView::Number { number: MetadataNumber::Unsigned { value } };
        let signed = |value: i64|
            MetadataView::Number { number: MetadataNumber::Signed { value } };
        match self {
            Scalar::U8 { value } => unsigned(value as u64),
            Scalar::I8 { value } => signed(value as i64),
            Scalar::U16 { value } => unsigned(value as u64),
            Scalar::I16 { value } => signed(value as i64),
            Scalar::U32 { value } => unsigned(value as u64),
            Scalar::I32 { value } => signed(value as i64),
            Scalar::F32 { bits } => MetadataView::Number { number: MetadataNumber::Single { bits } },
            Scalar::Bool { value } => MetadataView::Bool { value },
            Scalar::Text { value } => MetadataView::Text { value },
            Scalar::U64 { value } => unsigned(value),
            Scalar::I64 { value } => signed(value),
            Scalar::F64 { bits } => MetadataView::Number { number: MetadataNumber::Double { bits } },
        }
    }

    /// A text has at most a gigabyte.
    pub open spec fn fits(self) -> bool {
        match self {
            Scalar::Text { value } => vstd::utf8::encode_utf8(value).len() <= 0x4000_0000,
            _ => true,
        }
    }
}

/// The elements of an array, one after the other.
pub open spec fn elements_bytes(elements: Seq<Scalar>) -> Seq<u8>
    decreases elements.len(),
{
    if elements.len() == 0 {
        Seq::empty()
    } else {
        elements_bytes(elements.drop_last()) + elements.last().bytes()
    }
}

/// A metadata value.
#[allow(inconsistent_fields)]
pub enum Written {
    Plain { scalar: Scalar },
    Array { element_type: u32, elements: Seq<Scalar> },
}

impl Written {
    /// The number of the value's type.
    pub open spec fn number(self) -> u32 {
        match self {
            Written::Plain { scalar } => scalar.number(),
            Written::Array { .. } => 9,
        }
    }

    /// The bytes of the value: an array is the number of its elements' type, the number of its
    /// elements and the elements.
    pub open spec fn bytes(self) -> Seq<u8> {
        match self {
            Written::Plain { scalar } => scalar.bytes(),
            Written::Array { element_type, elements } => word32(element_type as int) + word64(
                elements.len() as int,
            ) + elements_bytes(elements),
        }
    }

    /// The value as it is read; of an array only the element type and the length are kept.
    pub open spec fn value(self) -> MetadataView {
        match self {
            Written::Plain { scalar } => scalar.value(),
            Written::Array { element_type, elements } => MetadataView::Array {
                element_type,
                len: elements.len() as usize,
            },
        }
    }

    /// An array has at most a hundred million elements, all of one type.
    pub open spec fn fits(self) -> bool {
        match self {
            Written::Plain { scalar } => scalar.fits(),
            Written::Array { element_type, elements } => {
                &&& element_type != 9
                &&& elements.len() <= 100_000_000
                &&& forall|i: int|
                    0 <= i < elements.len() ==> (#[trigger] elements[i]).fits()
                        && elements[i].number() == element_type
            },
        }
    }
}

/// A metadata entry: a key and a value.
pub struct Entry {
    pub key: Seq<char>,
    pub value: Written,
}

impl Entry {
    /// The bytes of the entry: key, number of the type, value.
    pub open spec fn bytes(self) -> Seq<u8> {
        text(self.key) + word32(self.value.number() as int) + self.value.bytes()
    }

    /// The key and the value can be written.
    pub open spec fn fits(self) -> bool {
        vstd::utf8::encode_utf8(self.key).len() <= 0x4000_0000 && self.value.fits()
    }
}

/// The metadata entries, one after the other.
pub open spec fn entries_bytes(entries: Seq<Entry>) -> Seq<u8>
    decreases entries.len(),
{
    if entries.len() == 0 {
        Seq::empty()
    } else {
        entries_bytes(entries.drop_last()) + entries.last().bytes()
    }
}

/// The dimensions of a tensor, one after the other.
pub open spec fn dimensions_bytes(dimensions: Seq<usize>) -> Seq<u8>
    decreases dimensions.len(),
{
    if dimensions.len() == 0 {
        Seq::empty()
    } else {
        dimensions_bytes(dimensions.drop_last()) + word64(dimensions.last() as int)
    }
}

/// The bytes of a tensor's entry: name, number of dimensions, dimensions, number of the format,
/// offset of the data.
pub open spec fn tensor_bytes(info: TensorInfoView) -> Seq<u8> {
    text(info.name) + word32(info.dimensions.len() as int) + dimensions_bytes(info.dimensions)
        + word32(info.ggml_type as int) + word64(info.offset as int)
}

/// The entries of the tensors, one after the other.
pub open spec fn tensors_bytes(tensors: Seq<TensorInfoView>) -> Seq<u8>
    decreases tensors.len(),
{
    if tensors.len() == 0 {
        Seq::empty()
    } else {
        tensors_bytes(tensors.drop_last()) + tensor_bytes(tensors.last())
    }
}

/// A file up to the end of its tensor list: the four letters `GGUF`, the version, the number of
/// tensors, the number of metadata entries, the entries, the tensors' entries.
pub open spec fn head_bytes(
    version: u32,
    entries: Seq<Entry>,
    tensors: Seq<TensorInfoView>,
) -> Seq<u8> {
    seq![0x47u8, 0x47u8, 0x55u8, 0x46u8] + word32(version as int) + word64(tensors.len() as int)
        + word64(entries.len() as int) + entries_bytes(entries) + tensors_bytes(tensors)
}

/// The bytes stand in the file at the given position.
pub open spec fn stands(data: Seq<u8>, at: int, part: Seq<u8>) -> bool {
    0 <= at && at + part.len() <= data.len() && data.subrange(at, at + part.len()) == part
}

/// Where two parts stand one after the other, each of them stands.
proof fn lemma_parts(data: Seq<u8>, at: int, a: Seq<u8>, b: Seq<u8>)
    requires
        stands(data, at, a + b),
    ensures
        stands(data, at, a),
        stands(data, at + a.len(), b),
{
    let both = data.subrange(at, at + (a + b).len());
    assert(data.subrange(at, at + a.len()) =~= both.subrange(0, a.len() as int));
    assert((a + b).subrange(0, a.len() as int) =~= a);
    assert(data.subrange(at + a.len(), at + a.len() + b.len()) =~= both.subrange(
        a.len() as int,
        (a + b).len() as int,
    ));
    assert((a + b).subrange(a.len() as int, (a + b).len() as int) =~= b);
}

proof fn lemma_word16(data: Seq<u8>, at: int, value: int)
    requires
        stands(data, at, word16(value)),
        0 <= value < 0x1_0000,
    ensures
        bytes::le16(data, at) == value,
{
    let s = data.subrange(at, at + 2);
    assert(s[0] == data[at] && s[1] == data[at + 1]);
    assert(s[0] == (value % 256) as u8 && s[1] == (value / 256) as u8);
}

proof fn lemma_word32(data: Seq<u8>, at: int, value: int)
    requires
        stands(data, at, word32(value)),
        0 <= value < 0x1_0000_0000,
    ensures
        bytes::le32(data, at) == value,
        word32(value).len() == 4,
{
    lemma_parts(data, at, word16(value % 0x1_0000), word16(value / 0x1_0000));
    lemma_word16(data, at, value % 0x1_0000);
    lemma_word16(data, at + 2, value / 0x1_0000);
}

proof fn lemma_word64(data: Seq<u8>, at: int, value: int)
    requires
        stands(data, at, word64(value)),
        0 <= value < 0x1_0000_0000_0000_0000,
    ensures
        bytes::le64(data, at) == value,
        word64(value).len() == 8,
{
    lemma_parts(data, at, word32(value % 0x1_0000_0000), word32(value / 0x1_0000_0000));
    lemma_word32(data, at, value % 0x1_0000_0000);
    lemma_word32(data, at + 4, value / 0x1_0000_0000);
}

/// A written text is read back.
proof fn lemma_text(data: Seq<u8>, at: int, value: Seq<char>)
    requires
        stands(data, at, text(value)),
        vstd::utf8::encode_utf8(value).len() <= 0x4000_0000,
    ensures
        gguf::parse_string(data, at) == Ok::<(Seq<char>, int), (GgufFault, Seq<char>)>(
            (value, at + text(value).len()),
        ),
{
    let body = vstd::utf8::encode_utf8(value);
    let n = body.len() as int;
    lemma_parts(data, at, word64(n), body);
    lemma_word64(data, at, n);
    vstd::utf8::encode_utf8_valid_utf8(value);
    vstd::utf8::encode_utf8_decode_utf8(value);
    assert(data.subrange(at + 8, at + 8 + n) == body);
}

/// A written value that is no array is read back.
proof fn lemma_scalar(data: Seq<u8>, at: int, scalar: Scalar)
    requires
        stands(data, at, scalar.bytes()),
        scalar.fits(),
    ensures
        gguf::parse_scalar(data, at, scalar.number()) == Ok::<
            (MetadataView, int),
            (GgufFault, Seq<char>),
        >((scalar.value(), at + scalar.bytes().len())),
{
    let s = data.subrange(at, at + scalar.bytes().len());
    match scalar {
        Scalar::U8 { value } => {
            assert(s[0] == data[at] && s[0] == scalar.bytes()[0]);
        },
        Scalar::I8 { value } => {
            assert(s[0] == data[at] && s[0] == scalar.bytes()[0]);
        },
        Scalar::Bool { value } => {
            assert(s[0] == data[at] && s[0] == scalar.bytes()[0]);
        },
        Scalar::U16 { value } => lemma_word16(data, at, value as int),
        Scalar::I16 { value } => {
            let v = if value < 0 {
                value + 0x1_0000
            } else {
                value as int
            };
            lemma_word16(data, at, v);
        },
        Scalar::U32 { value } => lemma_word32(data, at, value as int),
        Scalar::I32 { value } => {
            let v = if value < 0 {
                value + 0x1_0000_0000
            } else {
                value as int
            };
            lemma_word32(data, at, v);
        },
        Scalar::F32 { bits } => lemma_word32(data, at, bits as int),
        Scalar::Text { value } => lemma_text(data, at, value),
        Scalar::U64 { value } => lemma_word64(data, at, value as int),
        Scalar::I64 { value } => {
            let v = if value < 0 {
                value + 0x1_0000_0000_0000_0000
            } else {
                value as int
            };
            lemma_word64(data, at, v);
        },
        Scalar::F64 { bits } => lemma_word64(data, at, bits as int),
    }
}

/// Reading passes over the written elements of an array.
proof fn lemma_elements(data: Seq<u8>, at: int, ty: u32, elements: Seq<Scalar>)
    requires
        stands(data, at, elements_bytes(elements)),
        forall|i: int|
            0 <= i < elements.len() ==> (#[trigger] elements[i]).fits() && elements[i].number()
                == ty,
    ensures
        gguf::skip_elements(data, at, ty, elements.len() as int) == Ok::<
            int,
            (GgufFault, Seq<char>),
        >(at + elements_bytes(elements).len()),
    decreases elements.len(),
{
    if elements.len() > 0 {
        let front = elements.drop_last();
        lemma_parts(data, at, elements_bytes(front), elements.last().bytes());
        assert forall|i: int| 0 <= i < front.len() implies (#[trigger] front[i]).fits()
            && front[i].number() == ty by {
            assert(front[i] == elements[i]);
        }
        lemma_elements(data, at, ty, front);
        lemma_scalar(data, at + elements_bytes(front).len(), elements.last());
    }
}

/// A written value is read back.
proof fn lemma_value(data: Seq<u8>, at: int, value: Written)
    requires
        stands(data, at, value.bytes()),
        value.fits(),
    ensures
        gguf::parse_value(data, at, value.number()) == Ok::<
            (MetadataView, int),
            (GgufFault, Seq<char>),
        >((value.value(), at + value.bytes().len())),
{
    match value {
        Written::Plain { scalar } => lemma_scalar(data, at, scalar),
        Written::Array { element_type, elements } => {
            let ty = word32(element_type as int);
            let len = word64(elements.len() as int);
            lemma_parts(data, at, ty + len, elements_bytes(elements));
            lemma_parts(data, at, ty, len);
            lemma_word32(data, at, element_type as int);
            lemma_word64(data, at + 4, elements.len() as int);
            lemma_elements(data, at + 12, element_type, elements);
        },
    }
}

/// A written entry is read back.
proof fn lemma_entry(data: Seq<u8>, at: int, entry: Entry)
    requires
        stands(data, at, entry.bytes()),
        entry.fits(),
    ensures
        gguf::parse_entry(data, at) == Ok::<
            ((Seq<char>, MetadataView), int),
            (GgufFault, Seq<char>),
        >(((entry.key, entry.value.value()), at + entry.bytes().len())),
{
    reveal(gguf::parse_entry);
    let number = word32(entry.value.number() as int);
    lemma_parts(data, at, text(entry.key) + number, entry.value.bytes());
    lemma_parts(data, at, text(entry.key), number);
    lemma_text(data, at, entry.key);
    let p = at + text(entry.key).len();
    lemma_word32(data, p, entry.value.number() as int);
    lemma_value(data, p + 4, entry.value);
}

/// The metadata holds just the entries.
pub open spec fn lists(metadata: Map<Seq<char>, MetadataView>, entries: Seq<Entry>) -> bool {
    &&& forall|i: int|
        0 <= i < entries.len() ==> metadata.contains_key((#[trigger] entries[i]).key)
            && metadata[entries[i].key] == entries[i].value.value()
    &&& forall|key: Seq<char>| #[trigger]
        metadata.contains_key(key) ==> exists|i: int|
            0 <= i < entries.len() && (#[trigger] entries[i]).key == key
}

/// Written metadata is read back: whatever stands before and behind it, reading as many entries as
/// were written gives just these keys, each with its value, and ends just behind the last one.
pub proof fn written_metadata_is_read_back(data: Seq<u8>, at: int, entries: Seq<Entry>)
    requires
        stands(data, at, entries_bytes(entries)),
        forall|i: int| 0 <= i < entries.len() ==> (#[trigger] entries[i]).fits(),
        forall|i: int, j: int|
            0 <= i < j < entries.len() ==> (#[trigger] entries[i]).key != (
            #[trigger] entries[j]).key,
    ensures
        gguf::parse_metadata(data, at, entries.len() as int) matches Ok((metadata, end)) && lists(
            metadata,
            entries,
        ) && end == at + entries_bytes(entries).len(),
    decreases entries.len(),
{
    if entries.len() > 0 {
        let front = entries.drop_last();
        let last = entries.last();
        lemma_parts(data, at, entries_bytes(front), last.bytes());
        assert forall|i: int| 0 <= i < front.len() implies (#[trigger] front[i]).fits() by {
            assert(front[i] == entries[i]);
        }
        written_metadata_is_read_back(data, at, front);
        lemma_entry(data, at + entries_bytes(front).len(), last);
        let before = gguf::parse_metadata(data, at, front.len() as int)->Ok_0.0;
        if before.contains_key(last.key) {
            let i = choose|i: int| 0 <= i < front.len() && (#[trigger] front[i]).key == last.key;
            assert(entries[i].key != entries[entries.len() - 1].key);
        }
        let after = before.insert(last.key, last.value.value());
        assert forall|i: int| 0 <= i < entries.len() implies after.contains_key(
            (#[trigger] entries[i]).key,
        ) && after[entries[i].key] == entries[i].value.value() by {
            if i < front.len() {
                assert(front[i] == entries[i]);
                assert(entries[i].key != entries[entries.len() - 1].key);
            }
        }
        assert forall|key: Seq<char>| #[trigger] after.contains_key(key) implies exists|i: int|
            0 <= i < entries.len() && (#[trigger] entries[i]).key == key by {
            if key == last.key {
                assert(entries[entries.len() - 1].key == key);
            } else {
                let i = choose|i: int| 0 <= i < front.len() && (#[trigger] front[i]).key == key;
                assert(entries[i].key == key);
            }
        }
    }
}

/// Written dimensions are read back.
proof fn lemma_dimensions(data: Seq<u8>, at: int, dimensions: Seq<usize>)
    requires
        stands(data, at, dimensions_bytes(dimensions)),
    ensures
        gguf::parse_dimensions(data, at, dimensions.len() as int) == Ok::<
            (Seq<usize>, int),
            (GgufFault, Seq<char>),
        >((dimensions, at + dimensions_bytes(dimensions).len())),
    decreases dimensions.len(),
{
    if dimensions.len() > 0 {
        let front = dimensions.drop_last();
        lemma_parts(data, at, dimensions_bytes(front), word64(dimensions.last() as int));
        lemma_dimensions(data, at, front);
        lemma_word64(data, at + dimensions_bytes(front).len(), dimensions.last() as int);
        assert(front.push(dimensions.last()) =~= dimensions);
    } else {
        assert(dimensions =~= Seq::empty());
    }
}

/// A written entry of a tensor is read back.
proof fn lemma_tensor(data: Seq<u8>, at: int, info: TensorInfoView)
    requires
        stands(data, at, tensor_bytes(info)),
        vstd::utf8::encode_utf8(info.name).len() <= 0x4000_0000,
        1 <= info.dimensions.len() <= 4,
    ensures
        gguf::parse_tensor_info(data, at) == Ok::<
            (TensorInfoView, int),
            (GgufFault, Seq<char>),
        >((info, at + tensor_bytes(info).len())),
{
    reveal(gguf::parse_tensor_info);
    let name = text(info.name);
    let count = word32(info.dimensions.len() as int);
    let dimensions = dimensions_bytes(info.dimensions);
    let ty = word32(info.ggml_type as int);
    let offset = word64(info.offset as int);
    lemma_parts(data, at, name + count + dimensions + ty, offset);
    lemma_parts(data, at, name + count + dimensions, ty);
    lemma_parts(data, at, name + count, dimensions);
    lemma_parts(data, at, name, count);
    lemma_text(data, at, info.name);
    let p = at + name.len();
    lemma_word32(data, p, info.dimensions.len() as int);
    lemma_dimensions(data, p + 4, info.dimensions);
    let q = p + 4 + dimensions.len();
    lemma_word32(data, q, info.ggml_type as int);
    lemma_word64(data, q + 4, info.offset as int);
}

/// A written tensor list is read back: whatever stands before and behind it, reading as many entries
/// as were written gives just these, in their order, and ends just behind the last one.
pub proof fn written_tensors_are_read_back(data: Seq<u8>, at: int, tensors: Seq<TensorInfoView>)
    requires
        stands(data, at, tensors_bytes(tensors)),
        forall|i: int|
            0 <= i < tensors.len() ==> vstd::utf8::encode_utf8((#[trigger] tensors[i]).name).len()
                <= 0x4000_0000 && 1 <= tensors[i].dimensions.len() <= 4,
        forall|i: int, j: int|
            0 <= i < j < tensors.len() ==> (#[trigger] tensors[i]).name != (
            #[trigger] tensors[j]).name,
    ensures
        gguf::parse_tensors(data, at, tensors.len() as int) == Ok::<
            (Seq<TensorInfoView>, int),
            (GgufFault, Seq<char>),
        >((tensors, at + tensors_bytes(tensors).len())),
    decreases tensors.len(),
{
    if tensors.len() > 0 {
        let front = tensors.drop_last();
        let last = tensors.last();
        lemma_parts(data, at, tensors_bytes(front), tensor_bytes(last));
        assert forall|i: int| 0 <= i < front.len() implies vstd::utf8::encode_utf8(
            (#[trigger] front[i]).name,
        ).len() <= 0x4000_0000 && 1 <= front[i].dimensions.len() <= 4 by {
            assert(front[i] == tensors[i]);
        }
        written_tensors_are_read_back(data, at, front);
        lemma_tensor(data, at + tensors_bytes(front).len(), last);
        if gguf::has_tensor(front, last.name) {
            let i = choose|i: int| 0 <= i < front.len() && (#[trigger] front[i]).name == last.name;
            assert(tensors[i].name != tensors[tensors.len() - 1].name);
        }
        assert(front.push(last) =~= tensors);
    } else {
        assert(tensors =~= Seq::empty());
    }
}

/// Where the parts of a written file stand.
proof fn lemma_head_parts(
    file: Seq<u8>,
    version: u32,
    entries: Seq<Entry>,
    tensors: Seq<TensorInfoView>,
    rest: Seq<u8>,
)
    requires
        file == head_bytes(version, entries, tensors) + rest,
    ensures
        stands(file, 0, seq![0x47u8, 0x47u8, 0x55u8, 0x46u8]),
        stands(file, 4, word32(version as int)),
        stands(file, 8, word64(tensors.len() as int)),
        stands(file, 16, word64(entries.len() as int)),
        stands(file, 24, entries_bytes(entries)),
        stands(file, 24 + entries_bytes(entries).len() as int, tensors_bytes(tensors)),
        head_bytes(version, entries, tensors).len() == 24 + entries_bytes(entries).len()
            + tensors_bytes(tensors).len(),
{
    let magic = seq![0x47u8, 0x47u8, 0x55u8, 0x46u8];
    let v = word32(version as int);
    let nt = word64(tensors.len() as int);
    let ne = word64(entries.len() as int);
    let eb = entries_bytes(entries);
    let tb = tensors_bytes(tensors);
    let head = head_bytes(version, entries, tensors);
    assert(file.subrange(0, file.len() as int) =~= file);
    lemma_parts(file, 0, head, rest);
    lemma_parts(file, 0, magic + v + nt + ne + eb, tb);
    lemma_parts(file, 0, magic + v + nt + ne, eb);
    lemma_parts(file, 0, magic + v + nt, ne);
    lemma_parts(file, 0, magic + v, nt);
    lemma_parts(file, 0, magic, v);
    assert(magic.len() == 4 && v.len() == 4 && nt.len() == 8 && ne.len() == 8);
}

/// The head of a file is read back from its parts.
proof fn lemma_head_read(file: Seq<u8>, version: u32, tensors: nat, entries: nat)
    requires
        stands(file, 0, seq![0x47u8, 0x47u8, 0x55u8, 0x46u8]),
        stands(file, 4, word32(version as int)),
        stands(file, 8, word64(tensors as int)),
        stands(file, 16, word64(entries as int)),
        version == 2 || version == 3,
        entries <= 1_000_000,
        tensors <= 1_000_000,
    ensures
        gguf::parse_header(file) == Ok::<((u32, usize, usize), int), (GgufFault, Seq<char>)>(
            ((version, tensors as usize, entries as usize), 24),
        ),
{
    lemma_word32(file, 4, version as int);
    lemma_word64(file, 8, tensors as int);
    lemma_word64(file, 16, entries as int);
    assert(gguf::parse_u32(file, 4) == Ok::<(u32, int), (GgufFault, Seq<char>)>((version, 8)));
    assert(gguf::parse_size(file, 8) == Ok::<(usize, int), (GgufFault, Seq<char>)>(
        (tensors as usize, 16),
    ));
    assert(gguf::parse_size(file, 16) == Ok::<(usize, int), (GgufFault, Seq<char>)>(
        (entries as usize, 24),
    ));
    assert(file.subrange(0, 4) == seq![0x47u8, 0x47u8, 0x55u8, 0x46u8]);
}

/// The alignment that the entries ask for, or 32.
proof fn lemma_alignment(
    metadata: Map<Seq<char>, MetadataView>,
    entries: Seq<Entry>,
    alignment: u32,
)
    requires
        lists(metadata, entries),
        (alignment == 32 && forall|i: int|
            0 <= i < entries.len() ==> (#[trigger] entries[i]).key != "general.alignment"@)
            || exists|i: int|
            0 <= i < entries.len() && #[trigger] entries[i] == (Entry {
                key: "general.alignment"@,
                value: Written::Plain { scalar: Scalar::U32 { value: alignment } },
            }),
    ensures
        gguf::alignment_of(metadata) == alignment,
{
    let key = "general.alignment"@;
    if exists|i: int|
        0 <= i < entries.len() && #[trigger] entries[i] == (Entry {
            key: "general.alignment"@,
            value: Written::Plain { scalar: Scalar::U32 { value: alignment } },
        }) {
        let i = choose|i: int|
            0 <= i < entries.len() && #[trigger] entries[i] == (Entry {
                key: "general.alignment"@,
                value: Written::Plain { scalar: Scalar::U32 { value: alignment } },
            });
        assert(metadata[entries[i].key] == entries[i].value.value());
    } else if metadata.contains_key(key) {
        let i = choose|i: int| 0 <= i < entries.len() && (#[trigger] entries[i]).key == key;
        assert(false);
    }
}

/// A file whose parts can be read one after the other can be opened.
proof fn lemma_opens(
    file: Seq<u8>,
    version: u32,
    metadata: Map<Seq<char>, MetadataView>,
    entries: nat,
    tensors: Seq<TensorInfoView>,
    at: int,
    end: int,
    offset: int,
)
    requires
        gguf::parse_header(file) == Ok::<((u32, usize, usize), int), (GgufFault, Seq<char>)>(
            ((version, tensors.len() as usize, entries as usize), 24),
        ),
        entries <= 1_000_000,
        tensors.len() <= 1_000_000,
        gguf::parse_metadata(file, 24, entries as int) == Ok::<
            (Map<Seq<char>, MetadataView>, int),
            (GgufFault, Seq<char>),
        >((metadata, at)),
        gguf::parse_tensors(file, at, tensors.len() as int) == Ok::<
            (Seq<TensorInfoView>, int),
            (GgufFault, Seq<char>),
        >((tensors, end)),
        gguf::power_of_two(gguf::alignment_of(metadata) as int),
        gguf::alignment_of(metadata) <= 0x10_0000,
        end + gguf::alignment_of(metadata) - 1 <= usize::MAX,
        gguf::aligned(end, gguf::alignment_of(metadata) as int) == offset,
        offset <= file.len(),
        gguf::first_bad_range(tensors, offset, file.len() as int, tensors.len() as int) is None,
    ensures
        gguf::parse_file(file) == Ok::<GgufView, (GgufFault, Seq<char>)>(
            GgufView { version, metadata, tensors, data_offset: offset },
        ),
{
}

/// A written file is read back: what is opened is the version, the metadata and the tensor list that
/// were written, and the tensor data starts at the first multiple of the alignment behind the tensor
/// list. The alignment is 32 where no entry asks for another.
#[verifier::spinoff_prover]
#[verifier::rlimit(50)]
pub proof fn written_files_are_read_back(
    file: Seq<u8>,
    version: u32,
    entries: Seq<Entry>,
    tensors: Seq<TensorInfoView>,
    alignment: u32,
    padding: Seq<u8>,
    data: Seq<u8>,
)
    requires
        file == head_bytes(version, entries, tensors) + padding + data,
        file.len() + 0x10_0000 <= usize::MAX,
        version == 2 || version == 3,
        entries.len() <= 1_000_000,
        tensors.len() <= 1_000_000,
        forall|i: int| 0 <= i < entries.len() ==> (#[trigger] entries[i]).fits(),
        forall|i: int, j: int|
            0 <= i < j < entries.len() ==> (#[trigger] entries[i]).key != (
            #[trigger] entries[j]).key,
        forall|i: int|
            0 <= i < tensors.len() ==> vstd::utf8::encode_utf8((#[trigger] tensors[i]).name).len()
                <= 0x4000_0000 && 1 <= tensors[i].dimensions.len() <= 4,
        forall|i: int, j: int|
            0 <= i < j < tensors.len() ==> (#[trigger] tensors[i]).name != (
            #[trigger] tensors[j]).name,
        (alignment == 32 && forall|i: int|
            0 <= i < entries.len() ==> (#[trigger] entries[i]).key != "general.alignment"@)
            || exists|i: int|
            0 <= i < entries.len() && #[trigger] entries[i] == (Entry {
                key: "general.alignment"@,
                value: Written::Plain { scalar: Scalar::U32 { value: alignment } },
            }),
        gguf::power_of_two(alignment as int),
        alignment <= 0x10_0000,
        padding.len() < alignment,
        (head_bytes(version, entries, tensors).len() + padding.len()) as int % alignment as int == 0,
        forall|i: int|
            0 <= i < tensors.len() ==> gguf::range_of(
                #[trigger] tensors[i],
                (head_bytes(version, entries, tensors) + padding).len() as int,
                file.len() as int,
            ) is Ok,
    ensures
        gguf::parse_file(file) matches Ok(view) && {
            &&& view.version == version
            &&& lists(view.metadata, entries)
            &&& view.tensors == tensors
            &&& view.data_offset == (head_bytes(version, entries, tensors) + padding).len()
        },
{
    let head = head_bytes(version, entries, tensors);
    assert(file =~= head + (padding + data));
    lemma_head_parts(file, version, entries, tensors, padding + data);
    lemma_head_read(file, version, tensors.len(), entries.len());
    let at = 24 + entries_bytes(entries).len() as int;
    written_metadata_is_read_back(file, 24, entries);
    written_tensors_are_read_back(file, at, tensors);
    let metadata = gguf::parse_metadata(file, 24, entries.len() as int)->Ok_0.0;
    lemma_alignment(metadata, entries, alignment);
    let end = head.len() as int;
    let offset = end + padding.len();
    lemma_aligned(end, offset, alignment as int);
    lemma_ranges(tensors, offset, file.len() as int, tensors.len() as int);
    lemma_opens(file, version, metadata, entries.len(), tensors, at, end, offset);
}

/// The one multiple in reach is the aligned value.
proof fn lemma_aligned(value: int, multiple: int, alignment: int)
    requires
        0 <= value <= multiple < value + alignment,
        multiple % alignment == 0,
    ensures
        gguf::aligned(value, alignment) == multiple,
{
    gguf::aligned_is_the_least_multiple(value, alignment);
    let a = gguf::aligned(value, alignment);
    let x = a / alignment;
    let y = multiple / alignment;
    assert(a == x * alignment && multiple == y * alignment) by (nonlinear_arith)
        requires
            alignment > 0,
            a % alignment == 0,
            multiple % alignment == 0,
            x == a / alignment,
            y == multiple / alignment,
    ;
    assert(x == y) by (nonlinear_arith)
        requires
            alignment > 0,
            -alignment < x * alignment - y * alignment < alignment,
    ;
}

/// Where every tensor lies in the file, none is the first that does not.
proof fn lemma_ranges(tensors: Seq<TensorInfoView>, offset: int, len: int, n: int)
    requires
        0 <= n <= tensors.len(),
        forall|i: int|
            0 <= i < tensors.len() ==> gguf::range_of(#[trigger] tensors[i], offset, len) is Ok,
    ensures
        gguf::first_bad_range(tensors, offset, len, n) is None,
    decreases n,
{
    if n > 0 {
        lemma_ranges(tensors, offset, len, n - 1);
        assert(gguf::range_of(tensors[n - 1], offset, len) is Ok);
    }
}

/// A key that is written twice is refused.
pub proof fn repeated_keys_are_refused(data: Seq<u8>, at: int, entries: Seq<Entry>, k: int)
    requires
        stands(data, at, entries_bytes(entries)),
        forall|i: int| 0 <= i < entries.len() ==> (#[trigger] entries[i]).fits(),
        0 <= k < entries.len() - 1,
        entries[k].key == entries.last().key,
        forall|i: int, j: int|
            0 <= i < j < entries.len() - 1 ==> (#[trigger] entries[i]).key != (
            #[trigger] entries[j]).key,
    ensures
        gguf::parse_metadata(data, at, entries.len() as int) matches Err(error) && error == (
            GgufFault::DuplicateKey,
            entries.last().key,
        ),
{
    let front = entries.drop_last();
    let last = entries.last();
    lemma_parts(data, at, entries_bytes(front), last.bytes());
    assert forall|i: int| 0 <= i < front.len() implies (#[trigger] front[i]).fits() by {
        assert(front[i] == entries[i]);
    }
    written_metadata_is_read_back(data, at, front);
    lemma_entry(data, at + entries_bytes(front).len(), last);
    assert(front[k].key == last.key);
}

/// A tensor name that is written twice is refused.
pub proof fn repeated_names_are_refused(
    data: Seq<u8>,
    at: int,
    tensors: Seq<TensorInfoView>,
    k: int,
)
    requires
        stands(data, at, tensors_bytes(tensors)),
        forall|i: int|
            0 <= i < tensors.len() ==> vstd::utf8::encode_utf8((#[trigger] tensors[i]).name).len()
                <= 0x4000_0000 && 1 <= tensors[i].dimensions.len() <= 4,
        0 <= k < tensors.len() - 1,
        tensors[k].name == tensors.last().name,
        forall|i: int, j: int|
            0 <= i < j < tensors.len() - 1 ==> (#[trigger] tensors[i]).name != (
            #[trigger] tensors[j]).name,
    ensures
        gguf::parse_tensors(data, at, tensors.len() as int) matches Err(error) && error == (
            GgufFault::DuplicateTensor,
            tensors.last().name,
        ),
{
    let front = tensors.drop_last();
    let last = tensors.last();
    lemma_parts(data, at, tensors_bytes(front), tensor_bytes(last));
    assert forall|i: int| 0 <= i < front.len() implies vstd::utf8::encode_utf8(
        (#[trigger] front[i]).name,
    ).len() <= 0x4000_0000 && 1 <= front[i].dimensions.len() <= 4 by {
        assert(front[i] == tensors[i]);
    }
    written_tensors_are_read_back(data, at, front);
    lemma_tensor(data, at + tensors_bytes(front).len(), last);
    assert(front[k].name == last.name);
}

/// Which values are refused, whatever follows them: those of an unknown type, arrays of arrays,
/// arrays of more than a hundred million elements, and texts of more than a gigabyte. A truth value
/// is true for every byte but zero.
pub proof fn values_out_of_bounds_are_refused(
    data: Seq<u8>,
    at: int,
    ty: u32,
    element_type: u32,
    len: usize,
)
    requires
        0 <= at,
    ensures
        ty > 12 ==> gguf::parse_value(data, at, ty) == Err::<
            (MetadataView, int),
            (GgufFault, Seq<char>),
        >((GgufFault::UnknownType { ty }, Seq::empty())),
        stands(data, at, word32(9)) ==> gguf::parse_value(data, at, 9) == Err::<
            (MetadataView, int),
            (GgufFault, Seq<char>),
        >((GgufFault::NestedArray, Seq::empty())),
        stands(data, at, word32(element_type as int) + word64(len as int)) && element_type != 9
            && len > 100_000_000 ==> gguf::parse_value(data, at, 9) == Err::<
            (MetadataView, int),
            (GgufFault, Seq<char>),
        >((GgufFault::ArrayLength { len }, Seq::empty())),
        stands(data, at, word64(len as int)) && len > 0x4000_0000 ==> gguf::parse_string(data, at)
            == Err::<(Seq<char>, int), (GgufFault, Seq<char>)>(
            (GgufFault::StringLength { len }, Seq::empty()),
        ),
        at < data.len() ==> gguf::parse_value(data, at, 7) == Ok::<
            (MetadataView, int),
            (GgufFault, Seq<char>),
        >((MetadataView::Bool { value: data[at] != 0 }, at + 1)),
{
    if stands(data, at, word32(9)) {
        lemma_word32(data, at, 9);
    }
    if stands(data, at, word32(element_type as int) + word64(len as int)) {
        lemma_parts(data, at, word32(element_type as int), word64(len as int));
        lemma_word32(data, at, element_type as int);
        lemma_word64(data, at + 4, len as int);
    }
    if stands(data, at, word64(len as int)) {
        lemma_word64(data, at, len as int);
    }
}

/// A file that ends inside a value is refused with the position of the value: the types take one,
/// two, four and eight bytes.
pub proof fn cut_values_are_refused(data: Seq<u8>, at: int, ty: u32)
    requires
        0 <= at <= data.len(),
        ty == 0 || ty == 1 || ty == 7 ==> at + 1 > data.len(),
        ty == 2 || ty == 3 ==> at + 2 > data.len(),
        ty == 4 || ty == 5 || ty == 6 ==> at + 4 > data.len(),
        ty == 8 || ty == 10 || ty == 11 || ty == 12 ==> at + 8 > data.len(),
        ty == 9 ==> at + 4 > data.len(),
        ty <= 12,
    ensures
        gguf::parse_value(data, at, ty) == Err::<(MetadataView, int), (GgufFault, Seq<char>)>(
            (GgufFault::Truncated { at: at as usize }, Seq::empty()),
        ),
{
}

/// A tensor without dimensions, or with more than four, is refused.
pub proof fn tensors_have_one_to_four_dimensions(
    data: Seq<u8>,
    at: int,
    name: Seq<char>,
    count: u32,
)
    requires
        stands(data, at, text(name) + word32(count as int)),
        vstd::utf8::encode_utf8(name).len() <= 0x4000_0000,
        count == 0 || count > 4,
    ensures
        gguf::parse_tensor_info(data, at) == Err::<(TensorInfoView, int), (GgufFault, Seq<char>)>(
            (GgufFault::DimensionCount { count }, name),
        ),
{
    reveal(gguf::parse_tensor_info);
    lemma_parts(data, at, text(name), word32(count as int));
    lemma_text(data, at, name);
    lemma_word32(data, at + text(name).len(), count as int);
}

/// A file that asks for an alignment which is no power of two, or above a mebibyte, is refused.
pub proof fn odd_alignments_are_refused(
    file: Seq<u8>,
    version: u32,
    entries: Seq<Entry>,
    tensors: Seq<TensorInfoView>,
    alignment: u32,
    rest: Seq<u8>,
    k: int,
)
    requires
        file == head_bytes(version, entries, tensors) + rest,
        version == 2 || version == 3,
        entries.len() <= 1_000_000,
        tensors.len() <= 1_000_000,
        forall|i: int| 0 <= i < entries.len() ==> (#[trigger] entries[i]).fits(),
        forall|i: int, j: int|
            0 <= i < j < entries.len() ==> (#[trigger] entries[i]).key != (
            #[trigger] entries[j]).key,
        forall|i: int|
            0 <= i < tensors.len() ==> vstd::utf8::encode_utf8((#[trigger] tensors[i]).name).len()
                <= 0x4000_0000 && 1 <= tensors[i].dimensions.len() <= 4,
        forall|i: int, j: int|
            0 <= i < j < tensors.len() ==> (#[trigger] tensors[i]).name != (
            #[trigger] tensors[j]).name,
        0 <= k < entries.len(),
        entries[k] == (Entry {
            key: "general.alignment"@,
            value: Written::Plain { scalar: Scalar::U32 { value: alignment } },
        }),
        !gguf::power_of_two(alignment as int) || alignment > 0x10_0000,
    ensures
        gguf::parse_file(file) == Err::<GgufView, (GgufFault, Seq<char>)>(
            (GgufFault::Alignment { alignment: alignment as u64 }, Seq::empty()),
        ),
{
    lemma_head_parts(file, version, entries, tensors, rest);
    lemma_head_read(file, version, tensors.len(), entries.len());
    written_metadata_is_read_back(file, 24, entries);
    written_tensors_are_read_back(file, 24 + entries_bytes(entries).len() as int, tensors);
    let metadata = gguf::parse_metadata(file, 24, entries.len() as int)->Ok_0.0;
    lemma_alignment(metadata, entries, alignment);
}

} // verus!
