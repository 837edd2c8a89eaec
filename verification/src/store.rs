//! Where weights come from: safetensors shards and GGUF files, behind one interface.

use crate::bytes;
use crate::config::ConfigError;
use crate::gguf;
use crate::gguf::{GgufFault, GgufFile};
use crate::quant;
use crate::quant::{QuantError, QuantTensor, QuantType};
use crate::text;
use vstd::hash_map::StringHashMap;
use vstd::prelude::*;
use vstd::string::*;

verus! {

/// What can go wrong when a model is loaded.
#[allow(inconsistent_fields)]
#[derive(Clone, Copy, Debug, PartialEq, Eq, Structural)]
pub enum LoadFault {
    /// The GGUF file is not in order.
    Gguf { fault: GgufFault },
    /// The configuration is not in order.
    Config { error: ConfigError },
    /// The file holds a model of another family.
    Architecture,
    /// The token embeddings are no matrix.
    EmbeddingRank,
    /// The token embeddings are not as wide as the configuration says.
    EmbeddingWidth,
    /// A number does not fit the machine's address range.
    DoesNotFit { value: u64 },
    /// A tensor should be a matrix of that shape.
    MatrixShape { rows: usize, cols: usize },
    /// A tensor should be a vector of that length.
    VectorShape { len: usize },
    /// A tensor's data does not fit its shape and format.
    Tensor { error: QuantError },
    /// No shard is said to hold the tensor.
    MissingTensor,
    /// The shard that should hold a tensor is not among the files.
    MissingShard,
    /// A shard is no safetensors file.
    InvalidShard,
    /// The shard that should hold the tensor does not.
    NotInShard,
    /// The element type is neither F32 nor F16 nor BF16.
    ElementType,
    /// A tensor's data reaches behind the end of its shard.
    OutsideShard,
    /// Two shards hold tensors of one name.
    DuplicateTensor,
    /// There is no shard.
    NoShards,
    /// A directory holds several GGUF files.
    SeveralGgufs,
    /// The path leads to no model.
    UnknownFormat,
}

/// A fault, with the name of the tensor, file, metadata entry or element type that it is about; the
/// name is empty where the fault is about none of them.
#[derive(Debug)]
pub struct LoadError {
    pub fault: LoadFault,
    pub name: String,
}

impl View for LoadError {
    type V = (LoadFault, Seq<char>);

    open spec fn view(&self) -> (LoadFault, Seq<char>) {
        (self.fault, self.name@)
    }
}

/// A fault about something with a name.
pub fn load_error(fault: LoadFault, name: &str) -> (error: LoadError)
    ensures
        error@ == (fault, name@),
{
    LoadError { fault, name: name.to_owned() }
}

/// A tensor as it is stored.
pub struct Stored {
    pub shape: Seq<usize>,
    pub quant_type: QuantType,
    pub data: Seq<u8>,
}

impl Stored {
    /// What the element in the given row and column decodes to.
    pub open spec fn code(self, row: int, col: int) -> quant::ElementCode {
        let width = quant::stride(quant::shape_cols(self.shape), self.quant_type);
        quant::code_at(
            self.data.subrange(row * width, (row + 1) * width),
            self.quant_type,
            col,
        )
    }

    /// A tensor that holds just this.
    pub open spec fn held_by<'a>(self, tensor: QuantTensor<'a>) -> bool {
        tensor.shape@ == self.shape && tensor.quant_type == self.quant_type
            && tensor.data.contents() == self.data
    }
}

/// One tensor in the header of a safetensors file: its name, the name of its element type, its
/// shape, and where its data starts and ends, counted from the end of the header.
#[derive(Debug)]
pub struct HeaderEntry {
    pub name: String,
    pub dtype: String,
    pub shape: Vec<usize>,
    pub start: usize,
    pub end: usize,
}

/// What the header of a safetensors file says: its length in bytes and, for each tensor name, the
/// name of the element type, the shape, and where the data starts and ends; nothing where the file
/// is refused.
pub uninterp spec fn safetensors_header(bytes: Seq<u8>) -> Option<
    (usize, Map<Seq<char>, (Seq<char>, Seq<usize>, usize, usize)>),
>;

/// The entries list a header: every entry is in it, and every tensor of it has one entry.
pub open spec fn lists(
    entries: Seq<HeaderEntry>,
    header: Map<Seq<char>, (Seq<char>, Seq<usize>, usize, usize)>,
) -> bool {
    &&& forall|i: int|
        #![trigger entries[i]]
        0 <= i < entries.len() ==> header.contains_key(entries[i].name@)
            && header[entries[i].name@] == (
            entries[i].dtype@,
            entries[i].shape@,
            entries[i].start,
            entries[i].end,
        )
    &&& forall|name: Seq<char>| #[trigger]
        header.contains_key(name) ==> exists|i: int|
            0 <= i < entries.len() && (#[trigger] entries[i]).name@ == name
    &&& forall|i: int, j: int|
        0 <= i < j < entries.len() ==> (#[trigger] entries[i]).name@ != (
        #[trigger] entries[j]).name@
}

/// The text of the header of a safetensors file, which stands behind its length; nothing where the
/// file is too short for it or where it is no text.
pub open spec fn header_text(bytes: Seq<u8>) -> Option<Seq<char>> {
    if bytes.len() < 8 || 8 + bytes::le64(bytes, 0) > bytes.len() {
        None
    } else {
        let header = bytes.subrange(8, 8 + bytes::le64(bytes, 0));
        if vstd::utf8::valid_utf8(header) {
            Some(vstd::utf8::decode_utf8(header))
        } else {
            None
        }
    }
}

/// Where the data of the tensors in the text of a header ends; nothing where the text is no header.
pub uninterp spec fn data_ends(text: Seq<char>) -> Option<Set<usize>>;

/// Parses the text of a header with `serde_json::from_str` into `safetensors::tensor::Metadata` and
/// lists the second of each tensor's `data_offsets`. What is read depends on the text alone; the
/// contract names the offsets as a set, and leaves the order of the list open.
#[verifier::external_body]
fn read_data_ends(text: &str) -> (result: Option<Vec<usize>>)
    ensures
        match result {
            Some(list) => data_ends(text@) matches Some(ends) && forall|end: usize| #[trigger]
                ends.contains(end) <==> list@.contains(end),
            None => data_ends(text@) is None,
        },
{
    let metadata: safetensors::tensor::Metadata = serde_json::from_str(text).ok()?;
    let tensors = metadata.tensors();
    Some(tensors.values().map(|info| info.data_offsets.1).collect())
}

/// The data of every tensor in the header ends, counted from the start of the file, inside the
/// machine's address range.
pub open spec fn addressable(bytes: Seq<u8>) -> bool {
    match header_text(bytes) {
        Some(text) => match data_ends(text) {
            Some(ends) => forall|end: usize| #[trigger]
                ends.contains(end) ==> end + 8 + bytes::le64(bytes, 0) <= usize::MAX,
            None => true,
        },
        None => true,
    }
}

/// Decides whether the data of every tensor ends inside the machine's address range.
fn is_addressable(bytes: &[u8]) -> (r: bool)
    ensures
        r == addressable(bytes@),
{
    let total: usize = bytes.len();
    if total < 8 {
        return true;
    }
    let n: u64 = bytes::read_u64(bytes, 0);
    if n > (total - 8) as u64 {
        return true;
    }
    let len: usize = n as usize;
    let header = &bytes[8..8 + len];
    let text = match text::decode_utf8(header) {
        Some(text) => text,
        None => return true,
    };
    let list = match read_data_ends(text) {
        Some(list) => list,
        None => return true,
    };
    let ghost ends = data_ends(text@)->Some_0;
    let count: usize = list.len();
    for i in 0..count
        invariant
            count == list@.len(),
            8 + len <= total,
            len == bytes::le64(bytes@, 0),
            header_text(bytes@) == Some(text@),
            data_ends(text@) == Some(ends),
            forall|end: usize| #[trigger] ends.contains(end) <==> list@.contains(end),
            forall|k: int| 0 <= k < i ==> #[trigger] list@[k] + 8 + len <= usize::MAX,
    {
        if list[i] > usize::MAX - 8 - len {
            proof {
                assert(list@.contains(list@[i as int]));
                let read = data_ends(header_text(bytes@)->Some_0)->Some_0;
                assert(read.contains(list@[i as int]));
            }
            return false;
        }
    }
    true
}

/// The header has the length that the first eight bytes say, and the data of every tensor lies in
/// the file behind it.
pub open spec fn inside(entries: Seq<HeaderEntry>, len: usize, bytes: Seq<u8>) -> bool {
    &&& 8 + len <= bytes.len()
    &&& len == bytes::le64(bytes, 0)
    &&& forall|i: int|
        #![trigger entries[i]]
        0 <= i < entries.len() ==> entries[i].start <= entries[i].end && 8 + len + entries[i].end
            <= bytes.len()
}

/// Reads the header of a safetensors file with `SafeTensors::read_metadata` and lists its tensors
/// with `Metadata::tensors`. The header is JSON, and what is read depends on the bytes alone; the
/// contract names it. It claims that each tensor is listed once, with its element type by the name
/// that `Dtype` prints for itself, and, as `Metadata::validate` makes sure, that its data lies in the
/// file; the order of the list is left open. The crate adds the end of the data and the length of the
/// header without a check, so that data that ends outside the address range is left out.
#[verifier::external_body]
fn read_header(bytes: &[u8]) -> (result: Option<(usize, Vec<HeaderEntry>)>)
    requires
        addressable(bytes@),
    ensures
        match result {
            Some((len, entries)) => safetensors_header(bytes@) matches Some(header) && header.0 == len
                && lists(entries@, header.1) && inside(entries@, len, bytes@),
            None => safetensors_header(bytes@) is None,
        },
{
    let (len, metadata) = safetensors::SafeTensors::read_metadata(bytes).ok()?;
    let entries = metadata.tensors().into_iter().map(|(name, info)| HeaderEntry {
        name,
        dtype: format!("{:?}", info.dtype),
        shape: info.shape.clone(),
        start: info.data_offsets.0,
        end: info.data_offsets.1,
    });
    Some((len, entries.collect()))
}

/// Reads the header of a shard. A file whose data would end outside the machine's address range is
/// no safetensors file.
pub fn open_header(bytes: &[u8]) -> (result: Option<(usize, Vec<HeaderEntry>)>)
    ensures
        match result {
            Some((len, entries)) => header_of(bytes@) matches Some(header) && header.0 == len
                && lists(entries@, header.1) && inside(entries@, len, bytes@),
            None => header_of(bytes@) is None,
        },
{
    if !is_addressable(bytes) {
        return None;
    }
    read_header(bytes)
}

/// What the header of a safetensors file says; nothing where the file is none.
pub open spec fn header_of(bytes: Seq<u8>) -> Option<
    (usize, Map<Seq<char>, (Seq<char>, Seq<usize>, usize, usize)>),
> {
    if addressable(bytes) {
        safetensors_header(bytes)
    } else {
        None
    }
}

/// A safetensors file over its bytes.
pub struct Shard<'a> {
    pub path: String,
    pub mmap: &'a [u8],
}

/// The tensors that a shard holds; nothing where it is no safetensors file.
pub open spec fn shard_header<'a>(shard: Shard<'a>) -> Option<
    (usize, Map<Seq<char>, (Seq<char>, Seq<usize>, usize, usize)>),
> {
    header_of(shard.mmap@)
}

/// The shard holds a tensor of that name.
pub open spec fn holds<'a>(shard: Shard<'a>, name: Seq<char>) -> bool {
    match shard_header(shard) {
        Some((len, header)) => header.contains_key(name),
        None => false,
    }
}

/// Something is wrong with shard `k`: it is no safetensors file, or an earlier one holds a tensor of
/// the same name.
pub open spec fn bad_shard<'a>(shards: Seq<Shard<'a>>, k: int) -> bool {
    shard_header(shards[k]) is None || exists|name: Seq<char>, j: int|
        0 <= j < k && #[trigger] holds(shards[k], name) && #[trigger] holds(shards[j], name)
}

/// The format of an element type.
pub open spec fn dtype_format(dtype: Seq<char>) -> Option<QuantType> {
    if dtype == "F32"@ {
        Some(QuantType::F32)
    } else if dtype == "F16"@ {
        Some(QuantType::F16)
    } else if dtype == "BF16"@ {
        Some(QuantType::BF16)
    } else {
        None
    }
}

/// Finds the format of an element type.
fn format_of(dtype: &str) -> (r: Option<QuantType>)
    ensures
        r == dtype_format(dtype@),
{
    if text::equals(dtype, "F32") {
        Some(QuantType::F32)
    } else if text::equals(dtype, "F16") {
        Some(QuantType::F16)
    } else if text::equals(dtype, "BF16") {
        Some(QuantType::BF16)
    } else {
        None
    }
}

/// The position of the first of the first `n` shards that has the path.
pub open spec fn shard_at<'a>(shards: Seq<Shard<'a>>, path: Seq<char>, n: int) -> Option<int>
    decreases n,
{
    if n <= 0 {
        None
    } else {
        match shard_at(shards, path, n - 1) {
            Some(k) => Some(k),
            None => if shards[n - 1].path@ == path {
                Some(n - 1)
            } else {
                None
            },
        }
    }
}

/// The tensors of a safetensors model: its shards, and the path of the shard of each tensor.
pub struct SafetensorStore<'a> {
    pub shards: Vec<Shard<'a>>,
    pub tensor_files: StringHashMap<String>,
}

/// The paths of the tensors.
pub open spec fn paths_view(files: Map<Seq<char>, String>) -> Map<Seq<char>, Seq<char>> {
    files.map_values(|path: String| path@)
}

/// The paths that the first `n` entries of an index give; a later entry of one name stands.
pub open spec fn index_map(entries: Seq<(String, String)>, n: int) -> Map<Seq<char>, Seq<char>>
    decreases n,
{
    if n <= 0 {
        Map::empty()
    } else {
        index_map(entries, n - 1).insert(entries[n - 1].0@, entries[n - 1].1@)
    }
}

impl<'a> SafetensorStore<'a> {
    /// The path of the shard of each tensor.
    pub open spec fn paths(&self) -> Map<Seq<char>, Seq<char>> {
        paths_view(self.tensor_files@)
    }

    /// A tensor by its name, or what is wrong with it.
    pub open spec fn found(&self, name: Seq<char>) -> Result<Stored, (LoadFault, Seq<char>)> {
        if !self.paths().contains_key(name) {
            Err((LoadFault::MissingTensor, name))
        } else {
            let path = self.paths()[name];
            match shard_at(self.shards@, path, self.shards@.len() as int) {
                None => Err((LoadFault::MissingShard, path)),
                Some(k) => stored_in(self.shards@[k], name),
            }
        }
    }
}

/// A tensor of a shard, or what is wrong with it.
pub open spec fn stored_in<'a>(shard: Shard<'a>, name: Seq<char>) -> Result<
    Stored,
    (LoadFault, Seq<char>),
> {
    match shard_header(shard) {
        None => Err((LoadFault::InvalidShard, shard.path@)),
        Some((len, header)) => if !header.contains_key(name) {
            Err((LoadFault::NotInShard, name))
        } else {
            let (dtype, shape, start, end) = header[name];
            match dtype_format(dtype) {
                None => Err((LoadFault::ElementType, dtype)),
                Some(ty) => if start > end || 8 + len + end > shard.mmap@.len() {
                    Err((LoadFault::OutsideShard, name))
                } else {
                    match quant::tensor_fault(end - start, shape, ty) {
                        Some(error) => Err((LoadFault::Tensor { error }, name)),
                        None => Ok(
                            Stored {
                                shape,
                                quant_type: ty,
                                data: shard.mmap@.subrange(8 + len + start, 8 + len + end),
                            },
                        ),
                    }
                },
            }
        },
    }
}

/// Reads a tensor of a shard. The data of a tensor in the header lies in the file.
fn shard_tensor<'a>(shard: &Shard<'a>, name: &str) -> (result: Result<QuantTensor<'a>, LoadError>)
    ensures
        match stored_in(*shard, name@) {
            Ok(stored) => result is Ok && result->Ok_0.valid() && stored.held_by(result->Ok_0),
            Err(e) => result is Err && result->Err_0@ == e,
        },
        result matches Err(e) ==> e.fault != LoadFault::OutsideShard,
{
    let (len, entries) = match open_header(shard.mmap) {
        Some(header) => header,
        None => return Err(load_error(LoadFault::InvalidShard, shard.path.as_str())),
    };
    let count: usize = entries.len();
    let mut at: usize = 0;
    while at < count && !text::equals(entries[at].name.as_str(), name)
        invariant
            at <= count,
            count == entries@.len(),
            forall|i: int| 0 <= i < at ==> (#[trigger] entries@[i]).name@ != name@,
        decreases count - at,
    {
        at = at + 1;
    }
    if at == count {
        return Err(load_error(LoadFault::NotInShard, name));
    }
    let entry = &entries[at];
    assert(holds(*shard, name@));
    let ty = match format_of(entry.dtype.as_str()) {
        Some(ty) => ty,
        None => return Err(load_error(LoadFault::ElementType, entry.dtype.as_str())),
    };
    let total: usize = shard.mmap.len();
    if entry.start > entry.end || len > total || 8 > total - len || entry.end > total - len - 8 {
        return Err(load_error(LoadFault::OutsideShard, name));
    }
    let shape = entry.shape.clone();
    assert(shape@ =~= entry.shape@);
    match QuantTensor::from_mmap(
        shard.mmap,
        8 + len + entry.start,
        entry.end - entry.start,
        shape,
        ty,
    ) {
        Ok(tensor) => Ok(tensor),
        Err(error) => Err(load_error(LoadFault::Tensor { error }, name)),
    }
}

/// The tensors whose shard is known are those that the first `k` shards hold.
pub open spec fn maps_shards<'a>(
    paths: Map<Seq<char>, Seq<char>>,
    shards: Seq<Shard<'a>>,
    k: int,
) -> bool {
    &&& forall|name: Seq<char>| #[trigger]
        paths.contains_key(name) ==> exists|j: int| 0 <= j < k && #[trigger] holds(shards[j], name)
    &&& forall|name: Seq<char>, j: int|
        0 <= j < k && #[trigger] holds(shards[j], name) ==> paths.contains_key(name) && paths[name]
            == shards[j].path@
}

/// Shard `k` is the first bad one, and the error says what is wrong with it.
pub open spec fn tells_bad_shard<'a>(
    shards: Seq<Shard<'a>>,
    k: int,
    error: (LoadFault, Seq<char>),
) -> bool {
    &&& 0 <= k < shards.len()
    &&& bad_shard(shards, k)
    &&& forall|j: int| 0 <= j < k ==> !bad_shard(shards, j)
    &&& match shard_header(shards[k]) {
        None => error == (LoadFault::InvalidShard, shards[k].path@),
        Some(_) => {
            &&& error.0 == LoadFault::DuplicateTensor
            &&& holds(shards[k], error.1)
            &&& exists|j: int| 0 <= j < k && #[trigger] holds(shards[j], error.1)
        },
    }
}

/// Adds the tensors of shard `k`, none of which may be known already.
fn add_shard<'a>(shards: &Vec<Shard<'a>>, k: usize, tensor_files: &mut StringHashMap<String>) -> (
    result: Result<(), LoadError>)
    requires
        k < shards@.len(),
        maps_shards(paths_view(old(tensor_files)@), shards@, k as int),
    ensures
        result is Ok <==> !bad_shard(shards@, k as int),
        result is Ok ==> maps_shards(paths_view(final(tensor_files)@), shards@, k + 1),
        result matches Err(e) ==> match shard_header(shards@[k as int]) {
            None => e@ == (LoadFault::InvalidShard, shards@[k as int].path@),
            Some(_) => {
                &&& e@.0 == LoadFault::DuplicateTensor
                &&& holds(shards@[k as int], e@.1)
                &&& exists|j: int| 0 <= j < k && #[trigger] holds(shards@[j], e@.1)
            },
        },
{
    let shard = &shards[k];
    let (_, entries) = match open_header(shard.mmap) {
        Some(header) => header,
        None => return Err(load_error(LoadFault::InvalidShard, shard.path.as_str())),
    };
    let ghost before = paths_view(tensor_files@);
    let count: usize = entries.len();
    for i in 0..count
        invariant
            k < shards@.len(),
            *shard == shards@[k as int],
            count == entries@.len(),
            shard_header(*shard) is Some,
            shard_header(*shard) matches Some((_, header)) && lists(entries@, header),
            maps_shards(before, shards@, k as int),
            forall|name: Seq<char>| #[trigger]
                paths_view(tensor_files@).contains_key(name) <==> (before.contains_key(name) || exists|
                    j: int,
                | 0 <= j < i && (#[trigger] entries@[j]).name@ == name),
            forall|name: Seq<char>| #[trigger]
                before.contains_key(name) ==> paths_view(tensor_files@)[name] == before[name],
            forall|j: int|
                0 <= j < i ==> paths_view(tensor_files@)[(#[trigger] entries@[j]).name@]
                    == shard.path@ && !before.contains_key(entries@[j].name@),
    {
        let name = entries[i].name.as_str();
        assert(holds(*shard, entries@[i as int].name@));
        let ghost now = paths_view(tensor_files@);
        if tensor_files.contains_key(name) {
            assert(now.contains_key(name@));
            assert(before.contains_key(name@));
            return Err(load_error(LoadFault::DuplicateTensor, name));
        }
        assert(!now.contains_key(name@));
        assert(!before.contains_key(name@));
        tensor_files.insert(name.to_owned(), shard.path.clone());
        assert(paths_view(tensor_files@) =~= now.insert(name@, shard.path@));
    }
    proof {
        let after = paths_view(tensor_files@);
        assert forall|name: Seq<char>| #[trigger] after.contains_key(name) implies exists|j: int|
            0 <= j < k + 1 && #[trigger] holds(shards@[j], name) by {
            if before.contains_key(name) {
                let j = choose|j: int| 0 <= j < k && #[trigger] holds(shards@[j], name);
                assert(holds(shards@[j], name));
            } else {
                let j = choose|j: int| 0 <= j < count && (#[trigger] entries@[j]).name@ == name;
                assert(holds(shards@[k as int], entries@[j].name@));
            }
        }
        assert forall|name: Seq<char>, j: int|
            0 <= j < k + 1 && #[trigger] holds(shards@[j], name) implies after.contains_key(name)
            && after[name] == shards@[j].path@ by {
            if j == k {
                let i = choose|i: int| 0 <= i < count && (#[trigger] entries@[i]).name@ == name;
                assert(entries@[i].name@ == name);
            }
        }
        assert(!bad_shard(shards@, k as int)) by {
            if bad_shard(shards@, k as int) {
                let (name, j) = choose|name: Seq<char>, j: int|
                    0 <= j < k && #[trigger] holds(shards@[k as int], name) && #[trigger] holds(
                        shards@[j],
                        name,
                    );
                let i = choose|i: int| 0 <= i < count && (#[trigger] entries@[i]).name@ == name;
                assert(before.contains_key(entries@[i].name@));
            }
        }
    }
    Ok(())
}

impl<'a> SafetensorStore<'a> {
    /// A store of shards whose tensors are listed in an index, given as pairs of a tensor name and
    /// the path of its shard.
    pub fn from_index(weight_map: Vec<(String, String)>, shards: Vec<Shard<'a>>) -> (store:
        SafetensorStore<'a>)
        ensures
            store.shards == shards,
            store.paths() == index_map(weight_map@, weight_map@.len() as int),
    {
        let mut tensor_files: StringHashMap<String> = StringHashMap::new();
        assert(paths_view(tensor_files@) =~= Map::empty());
        for i in 0..weight_map.len()
            invariant
                paths_view(tensor_files@) == index_map(weight_map@, i as int),
        {
            let ghost now = paths_view(tensor_files@);
            let name = weight_map[i].0.clone();
            let path = weight_map[i].1.clone();
            tensor_files.insert(name, path);
            assert(paths_view(tensor_files@) =~= now.insert(
                weight_map@[i as int].0@,
                weight_map@[i as int].1@,
            ));
        }
        SafetensorStore { shards, tensor_files }
    }

    /// A store of shards without an index: each is read for the tensors that it holds.
    pub fn open(shards: Vec<Shard<'a>>) -> (result: Result<SafetensorStore<'a>, LoadError>)
        ensures
            result is Ok <==> shards@.len() > 0 && forall|k: int|
                0 <= k < shards@.len() ==> !bad_shard(shards@, k),
            result matches Ok(store) ==> store.shards == shards && maps_shards(
                store.paths(),
                shards@,
                shards@.len() as int,
            ),
            result matches Err(e) ==> if shards@.len() == 0 {
                e@ == (LoadFault::NoShards, Seq::<char>::empty())
            } else {
                exists|k: int| #[trigger] tells_bad_shard(shards@, k, e@)
            },
    {
        if shards.len() == 0 {
            return Err(LoadError { fault: LoadFault::NoShards, name: String::new() });
        }
        let mut tensor_files: StringHashMap<String> = StringHashMap::new();
        for k in 0..shards.len()
            invariant
                shards@.len() > 0,
                maps_shards(paths_view(tensor_files@), shards@, k as int),
                forall|j: int| 0 <= j < k ==> !bad_shard(shards@, j),
        {
            match add_shard(&shards, k, &mut tensor_files) {
                Ok(()) => {},
                Err(e) => {
                    assert(tells_bad_shard(shards@, k as int, e@));
                    return Err(e);
                },
            }
        }
        Ok(SafetensorStore { shards, tensor_files })
    }

    /// Decides whether a tensor is known.
    pub fn contains(&self, name: &str) -> (r: bool)
        ensures
            r == self.paths().contains_key(name@),
    {
        self.tensor_files.contains_key(name)
    }

    /// Reads a tensor.
    pub fn tensor(&self, name: &str) -> (result: Result<QuantTensor<'a>, LoadError>)
        ensures
            match self.found(name@) {
                Ok(stored) => result is Ok && result->Ok_0.valid() && stored.held_by(result->Ok_0),
                Err(e) => result is Err && result->Err_0@ == e,
            },
            result matches Err(e) ==> e.fault != LoadFault::OutsideShard,
    {
        let path = match self.tensor_files.get(name) {
            Some(path) => path,
            None => return Err(load_error(LoadFault::MissingTensor, name)),
        };
        assert(self.paths()[name@] == path@);
        let count: usize = self.shards.len();
        let mut k: usize = 0;
        while k < count && !text::equals(self.shards[k].path.as_str(), path.as_str())
            invariant
                k <= count,
                count == self.shards@.len(),
                shard_at(self.shards@, path@, k as int) is None,
            decreases count - k,
        {
            k = k + 1;
        }
        if k == count {
            return Err(load_error(LoadFault::MissingShard, path.as_str()));
        }
        proof {
            lemma_shard_stays(self.shards@, path@, k + 1, count as int);
        }
        shard_tensor(&self.shards[k], name)
    }
}

/// The first shard of a path among some is the first among more.
proof fn lemma_shard_stays<'a>(shards: Seq<Shard<'a>>, path: Seq<char>, m: int, n: int)
    requires
        0 <= m <= n,
        shard_at(shards, path, m) is Some,
    ensures
        shard_at(shards, path, n) == shard_at(shards, path, m),
    decreases n,
{
    if m < n {
        lemma_shard_stays(shards, path, m, n - 1);
    }
}

/// The position of the first shard of a path.
proof fn lemma_shard_at<'a>(shards: Seq<Shard<'a>>, path: Seq<char>, n: int)
    requires
        0 <= n <= shards.len(),
    ensures
        match shard_at(shards, path, n) {
            Some(k) => 0 <= k < n && shards[k].path@ == path,
            None => forall|k: int| 0 <= k < n ==> (#[trigger] shards[k]).path@ != path,
        },
    decreases n,
{
    if n > 0 {
        lemma_shard_at(shards, path, n - 1);
    }
}

/// Without an index, the shard of every known tensor is at hand and holds it, provided that no two
/// shards have one path: reading it can fail for what it is, and for nothing else.
pub proof fn known_tensors_are_in_their_shards<'a>(store: SafetensorStore<'a>, name: Seq<char>)
    requires
        maps_shards(store.paths(), store.shards@, store.shards@.len() as int),
        forall|i: int, j: int|
            0 <= i < j < store.shards@.len() ==> (#[trigger] store.shards@[i]).path@ != (
            #[trigger] store.shards@[j]).path@,
        store.paths().contains_key(name),
    ensures
        exists|k: int|
            0 <= k < store.shards@.len() && #[trigger] holds(store.shards@[k], name) && store.found(
                name,
            ) == stored_in(store.shards@[k], name),
{
    let shards = store.shards@;
    let k = choose|k: int| 0 <= k < shards.len() && #[trigger] holds(shards[k], name);
    assert(holds(shards[k], name));
    lemma_shard_at(shards, shards[k].path@, shards.len() as int);
    assert(shard_at(shards, shards[k].path@, shards.len() as int) == Some(k)) by {
        let m = shard_at(shards, shards[k].path@, shards.len() as int);
        assert(m is Some);
        assert(shards[m->0].path@ == shards[k].path@);
    }
}

/// Where the weights of a model come from.
pub enum Weights<'a> {
    Gguf { file: GgufFile<'a> },
    Safetensors { store: SafetensorStore<'a> },
}

impl<'a> Weights<'a> {
    /// A GGUF file has been opened.
    pub open spec fn ready(&self) -> bool {
        match self {
            Weights::Gguf { file } => file.valid(),
            Weights::Safetensors { store } => true,
        }
    }

    /// There is a tensor of that name.
    pub open spec fn has(&self, name: Seq<char>) -> bool {
        match self {
            Weights::Gguf { file } => gguf::has_tensor(file@.tensors, name),
            Weights::Safetensors { store } => store.paths().contains_key(name),
        }
    }

    /// A tensor by its name, or what is wrong with it.
    pub open spec fn found(&self, name: Seq<char>) -> Result<Stored, (LoadFault, Seq<char>)> {
        match self {
            Weights::Gguf { file } => match file@.tensor_named(name) {
                None => Err((LoadFault::Gguf { fault: GgufFault::MissingTensor }, name)),
                Some(info) => if info.dimensions.len() > 2 {
                    Err(
                        (
                            LoadFault::Gguf {
                                fault: GgufFault::TooManyDimensions {
                                    count: info.dimensions.len() as usize,
                                },
                            },
                            name,
                        ),
                    )
                } else {
                    Ok(
                        Stored {
                            shape: info.dimensions.reverse(),
                            quant_type: quant::ggml_format(info.ggml_type)->0,
                            data: file.contents_of(info),
                        },
                    )
                },
            },
            Weights::Safetensors { store } => store.found(name),
        }
    }

    /// Decides whether there is a tensor of that name.
    pub fn contains(&self, name: &str) -> (r: bool)
        requires
            self.ready(),
        ensures
            r == self.has(name@),
    {
        match self {
            Weights::Gguf { file } => file.has(name),
            Weights::Safetensors { store } => store.contains(name),
        }
    }

    /// Reads a tensor.
    pub fn tensor(&self, name: &str) -> (result: Result<QuantTensor<'a>, LoadError>)
        requires
            self.ready(),
        ensures
            match self.found(name@) {
                Ok(stored) => result is Ok && result->Ok_0.valid() && stored.held_by(result->Ok_0),
                Err(e) => result is Err && result->Err_0@ == e,
            },
    {
        match self {
            Weights::Gguf { file } => match file.tensor(name) {
                Ok(tensor) => Ok(tensor),
                Err(e) => Err(LoadError { fault: LoadFault::Gguf { fault: e.fault }, name: e.name }),
            },
            Weights::Safetensors { store } => store.tensor(name),
        }
    }
}

/// A tensor of a shard: the data that its header entry names, counted from behind the header, which
/// itself stands behind eight bytes that tell its length; and the format of its element type. Only
/// single precision, half precision and bfloat16 are read.
pub proof fn shards_hold_their_tensors_behind_the_header<'a>(
    shard: Shard<'a>,
    name: Seq<char>,
    len: usize,
    header: Map<Seq<char>, (Seq<char>, Seq<usize>, usize, usize)>,
    dtype: Seq<char>,
    shape: Seq<usize>,
    start: usize,
    end: usize,
    ty: QuantType,
)
    requires
        header_of(shard.mmap@) == Some((len, header)),
    ensures
        !header.contains_key(name) ==> stored_in(shard, name) == Err::<
            Stored,
            (LoadFault, Seq<char>),
        >((LoadFault::NotInShard, name)),
        header.contains_key(name) && header[name] == (dtype, shape, start, end) ==> {
            &&& dtype != "F32"@ && dtype != "F16"@ && dtype != "BF16"@ ==> stored_in(shard, name)
                == Err::<Stored, (LoadFault, Seq<char>)>((LoadFault::ElementType, dtype))
            &&& (dtype == "F32"@ && ty == QuantType::F32) || (dtype == "F16"@ && ty
                == QuantType::F16) || (dtype == "BF16"@ && ty == QuantType::BF16) ==> {
                &&& start > end || 8 + len + end > shard.mmap@.len() ==> stored_in(shard, name)
                    == Err::<Stored, (LoadFault, Seq<char>)>((LoadFault::OutsideShard, name))
                &&& start <= end && 8 + len + end <= shard.mmap@.len() ==> match quant::tensor_fault(
                    end - start,
                    shape,
                    ty,
                ) {
                    Some(error) => stored_in(shard, name) == Err::<Stored, (LoadFault, Seq<char>)>(
                        (LoadFault::Tensor { error }, name),
                    ),
                    None => stored_in(shard, name) == Ok::<Stored, (LoadFault, Seq<char>)>(
                        Stored {
                            shape,
                            quant_type: ty,
                            data: shard.mmap@.subrange(8 + len + start, 8 + len + end),
                        },
                    ),
                }
            }
        },
{
    reveal_strlit("F32");
    reveal_strlit("F16");
    reveal_strlit("BF16");
    assert("F32"@[1] != "F16"@[1]);
    assert("BF16"@.len() != "F16"@.len());
    assert("BF16"@.len() != "F32"@.len());
}

/// Where the text of a header lies: behind eight bytes that tell its length, lowest byte first.
pub proof fn headers_stand_behind_their_length(bytes: Seq<u8>, len: int)
    requires
        bytes.len() >= 8,
        len == bytes[0] + 0x100 * bytes[1] + 0x1_0000 * bytes[2] + 0x100_0000 * bytes[3]
            + 0x1_0000_0000 * bytes[4] + 0x100_0000_0000 * bytes[5] + 0x1_0000_0000_0000 * bytes[6]
            + 0x100_0000_0000_0000 * bytes[7],
    ensures
        8 + len > bytes.len() ==> header_text(bytes) is None,
        8 + len <= bytes.len() ==> match header_text(bytes) {
            Some(text) => vstd::utf8::valid_utf8(bytes.subrange(8, 8 + len)) && text
                == vstd::utf8::decode_utf8(bytes.subrange(8, 8 + len)),
            None => !vstd::utf8::valid_utf8(bytes.subrange(8, 8 + len)),
        },
{
}

/// A store looks a tensor up in the first shard that has the path which its name leads to.
pub proof fn names_lead_to_the_first_shard_of_their_path<'a>(
    store: SafetensorStore<'a>,
    name: Seq<char>,
    k: int,
)
    ensures
        !store.paths().contains_key(name) ==> store.found(name) == Err::<
            Stored,
            (LoadFault, Seq<char>),
        >((LoadFault::MissingTensor, name)),
        store.paths().contains_key(name) && (forall|j: int|
            0 <= j < store.shards@.len() ==> (#[trigger] store.shards@[j]).path@
                != store.paths()[name]) ==> store.found(name) == Err::<
            Stored,
            (LoadFault, Seq<char>),
        >((LoadFault::MissingShard, store.paths()[name])),
        store.paths().contains_key(name) && 0 <= k < store.shards@.len()
            && store.shards@[k].path@ == store.paths()[name] && (forall|j: int|
            0 <= j < k ==> (#[trigger] store.shards@[j]).path@ != store.paths()[name])
            ==> store.found(name) == stored_in(store.shards@[k], name),
{
    let n = store.shards@.len() as int;
    if store.paths().contains_key(name) {
        let path = store.paths()[name];
        lemma_shard_at(store.shards@, path, n);
        if 0 <= k < n && store.shards@[k].path@ == path && (forall|j: int|
            0 <= j < k ==> (#[trigger] store.shards@[j]).path@ != path) {
            lemma_shard_at(store.shards@, path, k);
            assert(shard_at(store.shards@, path, k + 1) == Some(k));
            lemma_shard_stays(store.shards@, path, k + 1, n);
        }
    }
}

/// An index leads each name to the path of its last entry.
pub proof fn the_last_entry_of_a_name_stands(entries: Seq<(String, String)>, n: int, k: int)
    requires
        0 <= k < n <= entries.len(),
        forall|j: int| k < j < n ==> (#[trigger] entries[j]).0@ != entries[k].0@,
    ensures
        index_map(entries, n).contains_key(entries[k].0@),
        index_map(entries, n)[entries[k].0@] == entries[k].1@,
    decreases n,
{
    if k < n - 1 {
        the_last_entry_of_a_name_stands(entries, n - 1, k);
        assert(entries[n - 1].0@ != entries[k].0@);
    }
}

/// The weights of a GGUF file: a tensor is found by its name, its shape is its dimensions from the
/// last to the first, its format is the one that its number names, and its data stands in the file
/// its offset behind the start of the tensor data.
#[verifier::spinoff_prover]
#[verifier::rlimit(40)]
pub proof fn gguf_weights_are_found_by_name<'a>(file: GgufFile<'a>, name: Seq<char>, k: int)
    requires
        file.valid(),
        0 <= k < file@.tensors.len(),
        file@.tensors[k].name == name,
        file@.tensors[k].dimensions.len() <= 2,
    ensures
        ({
            let info = file@.tensors[k];
            let weights = Weights::Gguf { file };
            &&& weights.has(name)
            &&& weights.found(name) matches Ok(stored) && {
                let columns = info.dimensions[0] as int;
                let rows = if info.dimensions.len() == 2 {
                    info.dimensions[1] as int
                } else {
                    1
                };
                let ty = stored.quant_type;
                let start = file.data_offset + info.offset;
                let len = rows * columns / ty.block_len() * ty.block_bytes();
                &&& quant::ggml_format(info.ggml_type) == Some(ty)
                &&& info.dimensions.len() == 2 ==> stored.shape == seq![
                    info.dimensions[1],
                    info.dimensions[0],
                ]
                &&& info.dimensions.len() == 1 ==> stored.shape == seq![info.dimensions[0]]
                &&& start + len <= file.mmap@.len()
                &&& stored.data == file.mmap@.subrange(start, start + len)
            }
        }),
{
    let info = file@.tensors[k];
    let views = file@.tensors;
    assert(views[k].name == name);
    let j = choose|j: int| 0 <= j < views.len() && (#[trigger] views[j]).name == name;
    assert(file.index@[views[j].name] == j);
    assert(file.index@[views[k].name] == k);
    assert(file@.tensor_named(name) == Some(info));
    let d = info.dimensions;
    reveal_with_fuel(gguf::element_count, 3);
    assert(gguf::range_of(info, file@.data_offset, file.mmap@.len() as int) is Ok);
    if d.len() == 1 {
        assert(d.drop_last().len() == 0);
        assert(gguf::element_count(d) == Some(1 * d[0]));
        assert(d.reverse() =~= seq![d[0]]);
        assert(1 * (d[0] as int) == d[0]);
    } else {
        assert(d.drop_last().drop_last().len() == 0);
        assert(d.drop_last().last() == d[0]);
        assert(gguf::element_count(d.drop_last()) == Some(1 * d[0]));
        assert(gguf::element_count(d) == Some(d[0] * d[1]));
        assert(d[0] * d[1] == d[1] * d[0]) by (nonlinear_arith);
        assert(d.reverse() =~= seq![d[1], d[0]]);
    }
}

/// What is wrong with a shard: it is no safetensors file, or an earlier shard holds a tensor of the
/// same name.
pub proof fn shards_must_not_share_names<'a>(
    shards: Seq<Shard<'a>>,
    k: int,
    j: int,
    name: Seq<char>,
    ours: (usize, Map<Seq<char>, (Seq<char>, Seq<usize>, usize, usize)>),
    theirs: (usize, Map<Seq<char>, (Seq<char>, Seq<usize>, usize, usize)>),
)
    requires
        0 <= k < shards.len(),
    ensures
        header_of(shards[k].mmap@) is None ==> bad_shard(shards, k),
        0 <= j < k && header_of(shards[k].mmap@) == Some(ours) && header_of(shards[j].mmap@) == Some(
            theirs,
        ) && ours.1.contains_key(name) && theirs.1.contains_key(name) ==> bad_shard(shards, k),
        k == 0 && header_of(shards[k].mmap@) is Some ==> !bad_shard(shards, k),
        bad_shard(shards, k) && header_of(shards[k].mmap@) == Some(ours) ==> exists|i: int, n: Seq<char>|
            0 <= i < k && ours.1.contains_key(n) && #[trigger] holds(shards[i], n),
{
    if 0 <= j < k && header_of(shards[k].mmap@) == Some(ours) && header_of(shards[j].mmap@) == Some(
        theirs,
    ) && ours.1.contains_key(name) && theirs.1.contains_key(name) {
        assert(holds(shards[k], name) && holds(shards[j], name));
    }
}

/// A store without an index knows just the tensors that its shards hold, each by the path of the
/// shard that holds it.
pub proof fn shards_tell_their_tensors<'a>(
    paths: Map<Seq<char>, Seq<char>>,
    shards: Seq<Shard<'a>>,
    j: int,
    name: Seq<char>,
    header: (usize, Map<Seq<char>, (Seq<char>, Seq<usize>, usize, usize)>),
)
    requires
        maps_shards(paths, shards, shards.len() as int),
    ensures
        0 <= j < shards.len() && header_of(shards[j].mmap@) == Some(header)
            && header.1.contains_key(name) ==> paths.contains_key(name) && paths[name]
            == shards[j].path@,
        paths.contains_key(name) ==> exists|i: int|
            0 <= i < shards.len() && (header_of((#[trigger] shards[i]).mmap@) matches Some(h)
                && h.1.contains_key(name)),
{
    if 0 <= j < shards.len() && header_of(shards[j].mmap@) == Some(header)
        && header.1.contains_key(name) {
        assert(holds(shards[j], name));
    }
    if paths.contains_key(name) {
        let i = choose|i: int| 0 <= i < shards.len() && #[trigger] holds(shards[i], name);
        assert(header_of(shards[i].mmap@) is Some);
    }
}

} // verus!
