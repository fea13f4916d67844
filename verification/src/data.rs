//! A `.dat` file of an archive, and the reading of a stored file out of it:
//! its entry header, its frame tables and its blocks.

use bytes::Bytes;
use vstd::prelude::*;
use vstd::slice::slice_to_vec;
use vstd::string::StringExecFns;

use crate::buffer::{bytes_contents, bytes_from_vec, bytes_slice_from, empty_bytes};
use crate::codec::{le16, le32, lemma_le16_subrange, lemma_le32_subrange, read_u16_le, read_u32_le};
use crate::error::{Result, SqPackReaderError};
use crate::raw_file::SqPackRawFile;

verus! {

/// The text of the error that a read past the end of a file gives.
pub const END_OF_FILE_MESSAGE: &'static str = "failed to fill whole buffer";

/// The text of the error for an entry whose file type number names no layout.
pub const UNKNOWN_FILE_TYPE_MESSAGE: &'static str = "unknown file type";

/// The text of the error for a model whose block counts sum past a `u16`.
pub const MODEL_BLOCK_COUNT_MESSAGE: &'static str = "model block count overflows";

/// The text of the error for an image without frames.
pub const NO_FRAMES_MESSAGE: &'static str = "image has no frames";

/// `e` is a `ReadError` whose text is `m`.
pub open spec fn is_read_error(e: SqPackReaderError, m: Seq<char>) -> bool {
    e matches SqPackReaderError::ReadError(s) && s@ == m
}

/// A source of bytes that can be read at an offset.
pub trait File {
    /// The bytes of the file.
    spec fn contents(&self) -> Seq<u8>;

    /// Reads `length` bytes at `offset`; fails where they run past the end. A
    /// read of no bytes succeeds at any offset.
    fn read_at(&self, offset: u64, length: usize) -> (r: Result<Vec<u8>>)
        ensures
            r is Ok <==> in_range(self.contents(), offset as int, length as int),
            r matches Ok(v) ==> v@ == read_bytes(self.contents(), offset as int, length as int),
            r matches Err(e) ==> is_read_error(e, END_OF_FILE_MESSAGE@),
    ;
}

/// The error of a read past the end of a file.
fn end_of_file() -> (r: SqPackReaderError)
    ensures
        is_read_error(r, END_OF_FILE_MESSAGE@),
{
    SqPackReaderError::ReadError(String::from_str(END_OF_FILE_MESSAGE))
}

impl File for Vec<u8> {
    open spec fn contents(&self) -> Seq<u8> {
        self@
    }

    fn read_at(&self, offset: u64, length: usize) -> (r: Result<Vec<u8>>) {
        if length == 0 {
            return Ok(Vec::new());
        }
        let len = self.len();
        if offset > len as u64 || length as u64 > len as u64 - offset {
            return Err(end_of_file());
        }
        let start = offset as usize;
        Ok(slice_to_vec(&self.as_slice()[start..start + length]))
    }
}

/// A read of `n` bytes at `o` succeeds: `o` fits in a `u64`, and the bytes
/// `o..o + n` lie within `d` unless there are none.
pub open spec fn in_range(d: Seq<u8>, o: int, n: int) -> bool {
    &&& 0 <= o <= u64::MAX
    &&& 0 <= n
    &&& (n == 0 || o + n <= d.len())
}

/// What a read of `n` bytes at `o` gives: nothing where `n` is 0, else the bytes
/// `o..o + n` of `d`.
pub open spec fn read_bytes(d: Seq<u8>, o: int, n: int) -> Seq<u8> {
    if n == 0 {
        Seq::empty()
    } else {
        d.subrange(o, o + n)
    }
}

/// The `n` values of a table of `u16` at `o`.
pub open spec fn le16_table(d: Seq<u8>, o: int, n: int) -> Seq<u16> {
    Seq::new(n as nat, |j: int| le16(d, o + 2 * j))
}

/// The sum of block sizes.
pub open spec fn sizes_sum(s: Seq<u16>) -> int
    decreases s.len(),
{
    if s.len() == 0 {
        0
    } else {
        sizes_sum(s.drop_last()) + s.last()
    }
}

/// The blocks of contiguous block data: block `j` starts after the sizes of the
/// blocks before it and runs to the end of the data.
pub open spec fn split_blocks(data: Seq<u8>, sizes: Seq<u16>) -> Seq<Seq<u8>> {
    Seq::new(sizes.len(), |j: int| data.skip(sizes_sum(sizes.take(j))))
}

/// The sizes of the first blocks sum to no more than all of them.
pub proof fn lemma_sizes_sum_prefix(s: Seq<u16>, j: int)
    requires
        0 <= j <= s.len(),
    ensures
        0 <= sizes_sum(s.take(j)) <= sizes_sum(s),
    decreases s.len(),
{
    if s.len() == 0 {
        assert(s.take(j) =~= s);
    } else if j == s.len() {
        assert(s.take(j) =~= s);
        lemma_sizes_sum_prefix(s.drop_last(), j - 1);
    } else {
        lemma_sizes_sum_prefix(s.drop_last(), j);
        assert(s.drop_last().take(j) =~= s.take(j));
    }
}

/// Where all blocks fit in `n` bytes, each starts within them.
proof fn lemma_sizes_prefixes_fit(s: Seq<u16>, n: int)
    requires
        sizes_sum(s) <= n,
    ensures
        forall|j: int| 0 <= j < s.len() ==> sizes_sum(#[trigger] s.take(j)) <= n,
{
    assert forall|j: int| 0 <= j < s.len() implies sizes_sum(#[trigger] s.take(j)) <= n by {
        lemma_sizes_sum_prefix(s, j);
    }
}

/// Adding one more block's size to the sum of those before it.
proof fn lemma_sizes_sum_step(s: Seq<u16>, j: int)
    requires
        0 <= j < s.len(),
    ensures
        sizes_sum(s.take(j + 1)) == sizes_sum(s.take(j)) + s[j],
{
    assert(s.take(j + 1).drop_last() =~= s.take(j));
}

/// The size of the header of a stored file's entry.
pub const FILE_HEADER_SIZE: usize = 24;

/// The size of a frame entry of a default (plain) file.
pub const DEFAULT_FRAME_INFO_SIZE: usize = 8;

/// The size of the frame entry of a model.
pub const MODEL_FRAME_INFO_SIZE: usize = 184;

/// The number of block kinds of a model.
pub const MODEL_BLOCK_KINDS: usize = 11;

/// The size of a frame entry of an image.
pub const IMAGE_FRAME_INFO_SIZE: usize = 20;

/// The entry header of a stored file.
#[derive(Clone, Copy, Debug)]
pub struct FileHeader {
    /// The size of the entry's headers; the blocks are placed relative to their end.
    pub header_length: u32,
    pub file_type: u32,
    pub uncompressed_size: u32,
    pub frame_count: u32,
}

/// How a stored file is laid out.
#[derive(Clone, Copy, Debug, PartialEq, Eq, Structural)]
pub enum FileType {
    Default,
    Model,
    Image,
}

impl FileType {
    /// The layout that a file type number names: 2 a default (plain) file, 3 a
    /// model, 4 an image; `None` for any other number.
    pub fn from_raw(raw: u32) -> (r: Option<FileType>)
        ensures
            r == spec_file_type(raw),
    {
        if raw == 2 {
            Some(FileType::Default)
        } else if raw == 3 {
            Some(FileType::Model)
        } else if raw == 4 {
            Some(FileType::Image)
        } else {
            None
        }
    }
}

/// The layout that a file type number names.
pub open spec fn spec_file_type(raw: u32) -> Option<FileType> {
    if raw == 2 {
        Some(FileType::Default)
    } else if raw == 3 {
        Some(FileType::Model)
    } else if raw == 4 {
        Some(FileType::Image)
    } else {
        None
    }
}

/// The size of the headers of the entry at `o`.
pub open spec fn entry_header_length(d: Seq<u8>, o: int) -> int {
    le32(d, o) as int
}

/// The file type number of the entry at `o`.
pub open spec fn entry_file_type(d: Seq<u8>, o: int) -> u32 {
    le32(d, o + 4)
}

/// The decoded size of the file of the entry at `o`.
pub open spec fn entry_uncompressed_size(d: Seq<u8>, o: int) -> u32 {
    le32(d, o + 8)
}

/// The number of frames of the entry at `o`.
pub open spec fn entry_frame_count(d: Seq<u8>, o: int) -> int {
    le32(d, o + 20) as int
}

/// Where the frame entry `k` of a default file at `o` starts.
pub open spec fn default_info_pos(o: int, k: int) -> int {
    o + FILE_HEADER_SIZE + DEFAULT_FRAME_INFO_SIZE * k
}

/// Where block `k` of a default file at `o` starts.
pub open spec fn default_block_start(d: Seq<u8>, o: int, k: int) -> int {
    o + entry_header_length(d, o) + le32(d, default_info_pos(o, k)) as int
}

/// The size of block `k` of a default file at `o`.
pub open spec fn default_block_size(d: Seq<u8>, o: int, k: int) -> int {
    le16(d, default_info_pos(o, k) + 4) as int
}

/// The frame table and every block of the default file at `o` lie within `d`.
pub open spec fn default_readable(d: Seq<u8>, o: int) -> bool {
    &&& in_range(d, o + FILE_HEADER_SIZE, DEFAULT_FRAME_INFO_SIZE * entry_frame_count(d, o))
    &&& forall|k: int|
        0 <= k < entry_frame_count(d, o) ==> #[trigger] in_range(
            d,
            default_block_start(d, o, k),
            default_block_size(d, o, k),
        )
}

/// The blocks of the default file at `o`.
pub open spec fn default_blocks(d: Seq<u8>, o: int) -> Seq<Seq<u8>> {
    Seq::new(
        entry_frame_count(d, o) as nat,
        |k: int| read_bytes(d, default_block_start(d, o, k), default_block_size(d, o, k)),
    )
}

/// Within the frame entry of a model: the offsets of the block kinds.
pub const MODEL_OFFSETS_POS: usize = 88;

/// Within the frame entry of a model: the block counts of the block kinds.
pub const MODEL_BLOCK_COUNTS_POS: usize = 154;

/// Within the frame entry of a model: the numbers of meshes and of materials,
/// which make up the header of a decoded model.
pub const MODEL_COUNTS_HEADER_POS: usize = 176;

/// Where the frame entry of the model at `o` starts.
pub open spec fn model_info_pos(o: int) -> int {
    o + FILE_HEADER_SIZE
}

/// The block counts of the block kinds of the model at `o`.
pub open spec fn model_block_counts(d: Seq<u8>, o: int) -> Seq<u16> {
    le16_table(d, model_info_pos(o) + MODEL_BLOCK_COUNTS_POS, MODEL_BLOCK_KINDS as int)
}

/// The number of blocks of the model at `o`.
pub open spec fn model_total_blocks(d: Seq<u8>, o: int) -> int {
    sizes_sum(model_block_counts(d, o))
}

/// Where the block size table of the model at `o` starts.
pub open spec fn model_sizes_pos(o: int) -> int {
    model_info_pos(o) + MODEL_FRAME_INFO_SIZE
}

/// The block sizes of the model at `o`.
pub open spec fn model_block_sizes(d: Seq<u8>, o: int) -> Seq<u16> {
    le16_table(d, model_sizes_pos(o), model_total_blocks(d, o))
}

/// Where the blocks of the model at `o` start.
pub open spec fn model_data_start(d: Seq<u8>, o: int) -> int {
    o + entry_header_length(d, o) + le32(d, model_info_pos(o) + MODEL_OFFSETS_POS) as int
}

/// The frame entry of the model at `o` lies within `d` and its block counts sum
/// past a `u16`.
pub open spec fn model_count_overflows(d: Seq<u8>, o: int) -> bool {
    in_range(d, model_info_pos(o), MODEL_FRAME_INFO_SIZE as int) && model_total_blocks(d, o) > u16::MAX
}

/// The frame entry, the size table and the blocks of the model at `o` lie
/// within `d`, and its block count fits in a `u16`.
pub open spec fn model_readable(d: Seq<u8>, o: int) -> bool {
    &&& in_range(d, model_info_pos(o), MODEL_FRAME_INFO_SIZE as int)
    &&& model_total_blocks(d, o) <= u16::MAX
    &&& in_range(d, model_sizes_pos(o), 2 * model_total_blocks(d, o))
    &&& in_range(d, model_data_start(d, o), sizes_sum(model_block_sizes(d, o)))
}

/// The header of the decoded model at `o`: its numbers of meshes and of materials.
pub open spec fn model_header(d: Seq<u8>, o: int) -> Seq<u8> {
    d.subrange(
        model_info_pos(o) + MODEL_COUNTS_HEADER_POS,
        model_info_pos(o) + MODEL_COUNTS_HEADER_POS + 4,
    )
}

/// The blocks of the model at `o`.
pub open spec fn model_blocks(d: Seq<u8>, o: int) -> Seq<Seq<u8>> {
    split_blocks(
        read_bytes(d, model_data_start(d, o), sizes_sum(model_block_sizes(d, o))),
        model_block_sizes(d, o),
    )
}

/// Within a frame entry of an image: where the frame's block size table starts,
/// counted in entries of the size table that follows the frame entries.
pub const IMAGE_SIZES_TABLE_OFFSET_POS: usize = 12;

/// Within a frame entry of an image: the number of blocks of the frame.
pub const IMAGE_BLOCK_COUNT_POS: usize = 16;

/// Where frame entry `f` of the image at `o` starts.
pub open spec fn image_info_pos(o: int, f: int) -> int {
    o + FILE_HEADER_SIZE + IMAGE_FRAME_INFO_SIZE * f
}

/// Where the blocks of frame `f` of the image at `o` start, after the entry's headers.
pub open spec fn image_block_offset(d: Seq<u8>, o: int, f: int) -> int {
    le32(d, image_info_pos(o, f)) as int
}

/// Where the block size table of the image at `o` starts: after its frame entries.
pub open spec fn image_table_base(d: Seq<u8>, o: int) -> int {
    image_info_pos(o, entry_frame_count(d, o))
}

/// Where the block sizes of frame `f` of the image at `o` start.
pub open spec fn image_sizes_pos(d: Seq<u8>, o: int, f: int) -> int {
    image_table_base(d, o) + 2 * le32(d, image_info_pos(o, f) + IMAGE_SIZES_TABLE_OFFSET_POS) as int
}

/// The number of blocks of frame `f` of the image at `o`.
pub open spec fn image_block_count(d: Seq<u8>, o: int, f: int) -> int {
    le32(d, image_info_pos(o, f) + IMAGE_BLOCK_COUNT_POS) as int
}

/// The block sizes of frame `f` of the image at `o`.
pub open spec fn image_block_sizes(d: Seq<u8>, o: int, f: int) -> Seq<u16> {
    le16_table(d, image_sizes_pos(d, o, f), image_block_count(d, o, f))
}

/// Where the blocks of frame `f` of the image at `o` start in `d`.
pub open spec fn image_data_start(d: Seq<u8>, o: int, f: int) -> int {
    o + entry_header_length(d, o) + image_block_offset(d, o, f)
}

/// The block sizes and the blocks of frame `f` of the image at `o` lie within `d`.
pub open spec fn image_frame_readable(d: Seq<u8>, o: int, f: int) -> bool {
    &&& in_range(d, image_sizes_pos(d, o, f), 2 * image_block_count(d, o, f))
    &&& in_range(d, image_data_start(d, o, f), sizes_sum(image_block_sizes(d, o, f)))
}

/// The blocks of frame `f` of the image at `o`.
pub open spec fn image_frame_blocks(d: Seq<u8>, o: int, f: int) -> Seq<Seq<u8>> {
    split_blocks(
        read_bytes(d, image_data_start(d, o, f), sizes_sum(image_block_sizes(d, o, f))),
        image_block_sizes(d, o, f),
    )
}

/// The image at `o` has a frame, and its frame entries, its header and every
/// frame's block sizes and blocks lie within `d`.
pub open spec fn image_readable(d: Seq<u8>, o: int) -> bool {
    &&& entry_frame_count(d, o) > 0
    &&& in_range(d, o + FILE_HEADER_SIZE, IMAGE_FRAME_INFO_SIZE * entry_frame_count(d, o))
    &&& in_range(d, o + entry_header_length(d, o), image_block_offset(d, o, 0))
    &&& forall|f: int| 0 <= f < entry_frame_count(d, o) ==> #[trigger] image_frame_readable(d, o, f)
}

/// The header of the decoded image at `o`: the bytes after the entry's headers,
/// up to where its first frame's blocks start.
pub open spec fn image_header(d: Seq<u8>, o: int) -> Seq<u8> {
    read_bytes(d, o + entry_header_length(d, o), image_block_offset(d, o, 0))
}

/// The groups of blocks, one after the other.
pub open spec fn concat_blocks(groups: Seq<Seq<Seq<u8>>>) -> Seq<Seq<u8>>
    decreases groups.len(),
{
    if groups.len() == 0 {
        Seq::empty()
    } else {
        concat_blocks(groups.drop_last()) + groups.last()
    }
}

/// The blocks of the image at `o`: those of each frame in turn.
pub open spec fn image_blocks(d: Seq<u8>, o: int) -> Seq<Seq<u8>> {
    concat_blocks(Seq::new(entry_frame_count(d, o) as nat, |f: int| image_frame_blocks(d, o, f)))
}

/// The parts of the stored file whose entry is at `o`: its decoded size, its
/// header and its blocks; `None` where its entry header, an unknown file type, or
/// a read past the end of `d` stops the reading.
pub open spec fn spec_read(d: Seq<u8>, o: int) -> Option<(u32, Seq<u8>, Seq<Seq<u8>>)> {
    if !in_range(d, o, FILE_HEADER_SIZE as int) {
        None
    } else {
        match spec_file_type(entry_file_type(d, o)) {
            Some(FileType::Default) => if default_readable(d, o) {
                Some((entry_uncompressed_size(d, o), Seq::empty(), default_blocks(d, o)))
            } else {
                None
            },
            Some(FileType::Model) => if model_readable(d, o) {
                Some((entry_uncompressed_size(d, o), model_header(d, o), model_blocks(d, o)))
            } else {
                None
            },
            Some(FileType::Image) => if image_readable(d, o) {
                Some((entry_uncompressed_size(d, o), image_header(d, o), image_blocks(d, o)))
            } else {
                None
            },
            None => None,
        }
    }
}

/// The text of the error that reading the stored file at `o` gives, where it
/// cannot be read: the first check that fails decides it.
pub open spec fn spec_read_error(d: Seq<u8>, o: int) -> Seq<char> {
    if !in_range(d, o, FILE_HEADER_SIZE as int) {
        END_OF_FILE_MESSAGE@
    } else {
        match spec_file_type(entry_file_type(d, o)) {
            Some(FileType::Model) => if model_count_overflows(d, o) {
                MODEL_BLOCK_COUNT_MESSAGE@
            } else {
                END_OF_FILE_MESSAGE@
            },
            Some(FileType::Image) => if entry_frame_count(d, o) == 0 {
                NO_FRAMES_MESSAGE@
            } else {
                END_OF_FILE_MESSAGE@
            },
            Some(FileType::Default) => END_OF_FILE_MESSAGE@,
            None => UNKNOWN_FILE_TYPE_MESSAGE@,
        }
    }
}

/// The stored file `raw` has the given parts.
pub open spec fn raw_file_is(raw: SqPackRawFile, uncompressed_size: u32, header: Seq<u8>, blocks: Seq<Seq<u8>>) -> bool {
    &&& raw.uncompressed_size == uncompressed_size
    &&& bytes_contents(raw.header) == header
    &&& raw.block_seq() == blocks
}

/// `a + b`, or `None` where it does not fit in a `u64`.
fn add_offset(a: u64, b: u64) -> (r: Option<u64>)
    ensures
        r matches Some(v) ==> v == a + b,
        r is None ==> a + b > u64::MAX,
{
    a.checked_add(b)
}

/// A `.dat` file, held in memory.
pub struct SqPackData {
    file: Vec<u8>,
}

impl View for SqPackData {
    type V = Seq<u8>;

    closed spec fn view(&self) -> Seq<u8> {
        self.file@
    }
}

impl SqPackData {
    /// Takes the bytes of a `.dat` file.
    pub fn from_raw(data: Vec<u8>) -> (r: Self)
        ensures
            r@ == data@,
    {
        SqPackData { file: data }
    }

    /// Reads `count` block sizes, stored as `u16`, at `offset`.
    fn read_block_sizes(&self, offset: u64, count: usize) -> (r: Result<Vec<u16>>)
        ensures
            r is Ok <==> in_range(self@, offset as int, 2 * count),
            r matches Ok(v) ==> v@ == le16_table(self@, offset as int, count as int),
            r matches Err(e) ==> is_read_error(e, END_OF_FILE_MESSAGE@),
    {
        let len = self.file.len();
        let length = match count.checked_mul(2) {
            Some(l) => l,
            None => {
                assert(2 * count > len);
                return Err(end_of_file());
            },
        };
        let data = self.file.read_at(offset, length)?;
        let mut sizes: Vec<u16> = Vec::new();
        for j in 0..count
            invariant
                data@ == read_bytes(self@, offset as int, length as int),
                in_range(self@, offset as int, length as int),
                length == 2 * count,
                sizes@ =~= le16_table(self@, offset as int, count as int).take(j as int),
        {
            proof {
                lemma_le16_subrange(self@, offset as int, offset + length, 2 * j);
            }
            assert(data@ == self@.subrange(offset as int, offset + length));
            sizes.push(read_u16_le(data.as_slice(), 2 * j));
        }
        Ok(sizes)
    }

    /// Reads the data of blocks whose sizes are `block_sizes`, stored one after
    /// the other at `base_offset`.
    fn read_contiguous_blocks(&self, base_offset: u64, block_sizes: &[u16]) -> (r: Result<Bytes>)
        ensures
            r is Ok <==> in_range(self@, base_offset as int, sizes_sum(block_sizes@)),
            r matches Ok(b) ==> bytes_contents(b) == read_bytes(self@, base_offset as int, sizes_sum(block_sizes@)),
            r matches Err(e) ==> is_read_error(e, END_OF_FILE_MESSAGE@),
    {
        let len = self.file.len();
        let n = block_sizes.len();
        let mut total: u64 = 0;
        for j in 0..n
            invariant
                n == block_sizes@.len(),
                total == sizes_sum(block_sizes@.take(j as int)),
                total <= len,
                len == self@.len(),
        {
            proof {
                lemma_sizes_sum_step(block_sizes@, j as int);
                lemma_sizes_sum_prefix(block_sizes@, j + 1);
            }
            if block_sizes[j] as u64 > len as u64 - total {
                return Err(end_of_file());
            }
            total = total + block_sizes[j] as u64;
        }
        assert(block_sizes@.take(n as int) =~= block_sizes@);
        let data = self.file.read_at(base_offset, total as usize)?;
        Ok(bytes_from_vec(data))
    }

    /// Splits contiguous block data into its blocks: each starts after the blocks
    /// before it and runs to the end of the data.
    fn iterate_blocks(block_data: Bytes, block_sizes: Vec<u16>) -> (r: Vec<Bytes>)
        requires
            forall|j: int|
                0 <= j < block_sizes@.len() ==> sizes_sum(#[trigger] block_sizes@.take(j)) <= bytes_contents(
                    block_data,
                ).len(),
            sizes_sum(block_sizes@) <= usize::MAX,
        ensures
            r@.map_values(|b: Bytes| bytes_contents(b)) == split_blocks(bytes_contents(block_data), block_sizes@),
    {
        let ghost data = bytes_contents(block_data);
        let n = block_sizes.len();
        let mut offset: usize = 0;
        let mut blocks: Vec<Bytes> = Vec::new();
        for j in 0..n
            invariant
                n == block_sizes@.len(),
                data == bytes_contents(block_data),
                forall|i: int| 0 <= i < block_sizes@.len() ==> sizes_sum(#[trigger] block_sizes@.take(i)) <= data.len(),
                sizes_sum(block_sizes@) <= usize::MAX,
                offset == sizes_sum(block_sizes@.take(j as int)),
                blocks@.len() == j,
                forall|m: int| 0 <= m < j ==> #[trigger] bytes_contents(blocks@[m]) == data.skip(
                    sizes_sum(block_sizes@.take(m)),
                ),
        {
            proof {
                lemma_sizes_sum_prefix(block_sizes@, j as int);
                lemma_sizes_sum_step(block_sizes@, j as int);
                lemma_sizes_sum_prefix(block_sizes@, j + 1);
            }
            blocks.push(bytes_slice_from(&block_data, offset));
            offset = offset + block_sizes[j] as usize;
        }
        assert(blocks@.map_values(|b: Bytes| bytes_contents(b)) =~= split_blocks(data, block_sizes@));
        blocks
    }

    /// Reads the entry header of the stored file at `offset`.
    fn read_file_header(&self, offset: u64) -> (r: Result<FileHeader>)
        ensures
            r is Ok <==> in_range(self@, offset as int, FILE_HEADER_SIZE as int),
            r matches Ok(h) ==> {
                &&& h.header_length == entry_header_length(self@, offset as int)
                &&& h.file_type == entry_file_type(self@, offset as int)
                &&& h.uncompressed_size == entry_uncompressed_size(self@, offset as int)
                &&& h.frame_count == entry_frame_count(self@, offset as int)
            },
            r matches Err(e) ==> is_read_error(e, END_OF_FILE_MESSAGE@),
    {
        let data = self.file.read_at(offset, FILE_HEADER_SIZE)?;
        proof {
            let o = offset as int;
            let e = o + FILE_HEADER_SIZE;
            lemma_le32_subrange(self@, o, e, 0);
            lemma_le32_subrange(self@, o, e, 4);
            lemma_le32_subrange(self@, o, e, 8);
            lemma_le32_subrange(self@, o, e, 20);
        }
        let d = data.as_slice();
        Ok(FileHeader {
            header_length: read_u32_le(d, 0),
            file_type: read_u32_le(d, 4),
            uncompressed_size: read_u32_le(d, 8),
            frame_count: read_u32_le(d, 20),
        })
    }

    /// Reads a default (plain) file: each frame entry gives where its block is and
    /// how long it is.
    fn read_default(&self, base_offset: u64, file_header: &FileHeader) -> (r: Result<SqPackRawFile>)
        requires
            in_range(self@, base_offset as int, FILE_HEADER_SIZE as int),
            file_header.header_length == entry_header_length(self@, base_offset as int),
            file_header.uncompressed_size == entry_uncompressed_size(self@, base_offset as int),
            file_header.frame_count == entry_frame_count(self@, base_offset as int),
        ensures
            r is Ok <==> default_readable(self@, base_offset as int),
            r matches Ok(raw) ==> raw_file_is(
                raw,
                entry_uncompressed_size(self@, base_offset as int),
                Seq::empty(),
                default_blocks(self@, base_offset as int),
            ),
            r matches Err(e) ==> is_read_error(e, END_OF_FILE_MESSAGE@),
    {
        let ghost d = self@;
        let ghost o = base_offset as int;
        let len = self.file.len();
        let count = file_header.frame_count as usize;
        let infos_len = match count.checked_mul(DEFAULT_FRAME_INFO_SIZE) {
            Some(l) => l,
            None => return Err(end_of_file()),
        };
        let infos_offset = base_offset + FILE_HEADER_SIZE as u64;
        let infos = self.file.read_at(infos_offset, infos_len)?;
        let mut blocks: Vec<Bytes> = Vec::new();
        for k in 0..count
            invariant
                d == self@,
                o == base_offset,
                len == d.len(),
                count == entry_frame_count(d, o),
                infos_len == DEFAULT_FRAME_INFO_SIZE * count,
                in_range(d, infos_offset as int, infos_len as int),
                infos_offset == o + FILE_HEADER_SIZE,
                infos@ == d.subrange(infos_offset as int, infos_offset + infos_len),
                file_header.header_length == entry_header_length(d, o),
                blocks@.len() == k,
                forall|m: int| 0 <= m < k ==> #[trigger] in_range(d, default_block_start(d, o, m), default_block_size(d, o, m)),
                forall|m: int| 0 <= m < k ==> #[trigger] bytes_contents(blocks@[m]) == default_blocks(d, o)[m],
        {
            proof {
                lemma_le32_subrange(d, infos_offset as int, infos_offset + infos_len, DEFAULT_FRAME_INFO_SIZE * k);
                lemma_le16_subrange(d, infos_offset as int, infos_offset + infos_len, DEFAULT_FRAME_INFO_SIZE * k + 4);
            }
            let block_offset = read_u32_le(infos.as_slice(), DEFAULT_FRAME_INFO_SIZE * k);
            let block_size = read_u16_le(infos.as_slice(), DEFAULT_FRAME_INFO_SIZE * k + 4);
            assert(block_size == default_block_size(d, o, k as int));
            let start = match add_offset(base_offset, file_header.header_length as u64) {
                Some(b) => add_offset(b, block_offset as u64),
                None => None,
            };
            let start = match start {
                Some(s) => s,
                None => {
                    assert(!in_range(d, default_block_start(d, o, k as int), default_block_size(d, o, k as int)));
                    return Err(end_of_file());
                },
            };
            assert(start == default_block_start(d, o, k as int));
            let block = match self.file.read_at(start, block_size as usize) {
                Ok(b) => b,
                Err(e) => {
                    assert(!in_range(d, default_block_start(d, o, k as int), default_block_size(d, o, k as int)));
                    return Err(e);
                },
            };
            blocks.push(bytes_from_vec(block));
        }
        let raw = SqPackRawFile::from_blocks(file_header.uncompressed_size, empty_bytes(), blocks);
        assert(raw.block_seq() =~= default_blocks(d, o));
        Ok(raw)
    }

    /// Reads a model: its frame entry gives the block counts of its block kinds,
    /// a table after it the size of each block, and its blocks lie one after the
    /// other. Its header is its numbers of meshes and of materials.
    fn read_model(&self, base_offset: u64, file_header: &FileHeader) -> (r: Result<SqPackRawFile>)
        requires
            in_range(self@, base_offset as int, FILE_HEADER_SIZE as int),
            file_header.header_length == entry_header_length(self@, base_offset as int),
            file_header.uncompressed_size == entry_uncompressed_size(self@, base_offset as int),
        ensures
            r is Ok <==> model_readable(self@, base_offset as int),
            r matches Ok(raw) ==> raw_file_is(
                raw,
                entry_uncompressed_size(self@, base_offset as int),
                model_header(self@, base_offset as int),
                model_blocks(self@, base_offset as int),
            ),
            r matches Err(e) ==> is_read_error(
                e,
                if model_count_overflows(self@, base_offset as int) {
                    MODEL_BLOCK_COUNT_MESSAGE@
                } else {
                    END_OF_FILE_MESSAGE@
                },
            ),
    {
        let ghost d = self@;
        let ghost o = base_offset as int;
        let len = self.file.len();
        assert(base_offset + FILE_HEADER_SIZE <= len);
        let info_offset = base_offset + FILE_HEADER_SIZE as u64;
        let info = self.file.read_at(info_offset, MODEL_FRAME_INFO_SIZE)?;
        let ghost info_end = info_offset + MODEL_FRAME_INFO_SIZE;

        let mut header: Vec<u8> = Vec::new();
        for j in 0..4usize
            invariant
                info@ == d.subrange(info_offset as int, info_end),
                info_end == info_offset + MODEL_FRAME_INFO_SIZE,
                info_end <= d.len(),
                header@ =~= model_header(d, o).take(j as int),
                info_offset == model_info_pos(o),
        {
            header.push(info[MODEL_COUNTS_HEADER_POS + j]);
        }

        let mut total: u32 = 0;
        for j in 0..MODEL_BLOCK_KINDS
            invariant
                info@ == d.subrange(info_offset as int, info_end),
                info_end == info_offset + MODEL_FRAME_INFO_SIZE,
                info_end <= d.len(),
                info_offset == model_info_pos(o),
                total == sizes_sum(model_block_counts(d, o).take(j as int)),
                total <= 0xffff * j,
        {
            proof {
                lemma_le16_subrange(d, info_offset as int, info_end, MODEL_BLOCK_COUNTS_POS + 2 * j);
                lemma_sizes_sum_step(model_block_counts(d, o), j as int);
            }
            total = total + read_u16_le(info.as_slice(), MODEL_BLOCK_COUNTS_POS + 2 * j) as u32;
        }
        assert(model_block_counts(d, o).take(MODEL_BLOCK_KINDS as int) =~= model_block_counts(d, o));
        if total > 0xffff {
            return Err(SqPackReaderError::ReadError(String::from_str(MODEL_BLOCK_COUNT_MESSAGE)));
        }

        let sizes_offset = info_offset + MODEL_FRAME_INFO_SIZE as u64;
        let block_sizes = self.read_block_sizes(sizes_offset, total as usize)?;

        proof {
            lemma_le32_subrange(d, info_offset as int, info_end, MODEL_OFFSETS_POS as int);
        }
        let first_offset = read_u32_le(info.as_slice(), MODEL_OFFSETS_POS);
        let data_start = match add_offset(base_offset, file_header.header_length as u64) {
            Some(b) => add_offset(b, first_offset as u64),
            None => None,
        };
        let data_start = match data_start {
            Some(s) => s,
            None => {
                proof {
                    lemma_sizes_sum_prefix(block_sizes@, 0);
                    assert(block_sizes@.take(0) =~= Seq::<u16>::empty());
                }
                return Err(end_of_file());
            },
        };
        assert(data_start == model_data_start(d, o));
        let block_data = self.read_contiguous_blocks(data_start, block_sizes.as_slice())?;
        proof {
            lemma_sizes_prefixes_fit(block_sizes@, bytes_contents(block_data).len() as int);
        }
        let blocks = Self::iterate_blocks(block_data, block_sizes);
        let raw = SqPackRawFile::from_blocks(file_header.uncompressed_size, bytes_from_vec(header), blocks);
        assert(header@ =~= model_header(d, o));
        Ok(raw)
    }

    /// Reads an image: each frame entry gives where its blocks are, how many there
    /// are, and where their sizes are in the table that follows the frame entries.
    /// Its header runs from the end of the entry's headers to its first frame's blocks.
    fn read_image(&self, base_offset: u64, file_header: &FileHeader) -> (r: Result<SqPackRawFile>)
        requires
            in_range(self@, base_offset as int, FILE_HEADER_SIZE as int),
            file_header.header_length == entry_header_length(self@, base_offset as int),
            file_header.uncompressed_size == entry_uncompressed_size(self@, base_offset as int),
            file_header.frame_count == entry_frame_count(self@, base_offset as int),
        ensures
            r is Ok <==> image_readable(self@, base_offset as int),
            r matches Ok(raw) ==> raw_file_is(
                raw,
                entry_uncompressed_size(self@, base_offset as int),
                image_header(self@, base_offset as int),
                image_blocks(self@, base_offset as int),
            ),
            r matches Err(e) ==> is_read_error(
                e,
                if entry_frame_count(self@, base_offset as int) == 0 {
                    NO_FRAMES_MESSAGE@
                } else {
                    END_OF_FILE_MESSAGE@
                },
            ),
    {
        let ghost d = self@;
        let ghost o = base_offset as int;
        let len = self.file.len();
        let count = file_header.frame_count as usize;
        let infos_len = match count.checked_mul(IMAGE_FRAME_INFO_SIZE) {
            Some(l) => l,
            None => return Err(end_of_file()),
        };
        let infos_offset = base_offset + FILE_HEADER_SIZE as u64;
        let infos = self.file.read_at(infos_offset, infos_len)?;
        let ghost infos_end = infos_offset + infos_len;
        if count == 0 {
            return Err(SqPackReaderError::ReadError(String::from_str(NO_FRAMES_MESSAGE)));
        }
        let table_base = infos_offset + infos_len as u64;
        assert(table_base == image_table_base(d, o));

        proof {
            lemma_le32_subrange(d, infos_offset as int, infos_end, 0);
        }
        let first_block_offset = read_u32_le(infos.as_slice(), 0);
        let header_offset = match add_offset(base_offset, file_header.header_length as u64) {
            Some(h) => h,
            None => return Err(end_of_file()),
        };
        let header = self.file.read_at(header_offset, first_block_offset as usize)?;

        let ghost frames = Seq::new(count as nat, |f: int| image_frame_blocks(d, o, f));
        let mut blocks: Vec<Bytes> = Vec::new();
        for f in 0..count
            invariant
                d == self@,
                o == base_offset,
                len == d.len(),
                count == entry_frame_count(d, o),
                infos_len == IMAGE_FRAME_INFO_SIZE * count,
                infos_offset == o + FILE_HEADER_SIZE,
                infos_end == infos_offset + infos_len,
                infos_end <= d.len(),
                infos@ == d.subrange(infos_offset as int, infos_end),
                table_base == image_table_base(d, o),
                file_header.header_length == entry_header_length(d, o),
                frames == Seq::new(count as nat, |g: int| image_frame_blocks(d, o, g)),
                forall|g: int| 0 <= g < f ==> #[trigger] image_frame_readable(d, o, g),
                blocks@.map_values(|b: Bytes| bytes_contents(b)) == concat_blocks(frames.take(f as int)),
        {
            let entry = IMAGE_FRAME_INFO_SIZE * f;
            proof {
                lemma_le32_subrange(d, infos_offset as int, infos_end, entry as int);
                lemma_le32_subrange(d, infos_offset as int, infos_end, entry + IMAGE_SIZES_TABLE_OFFSET_POS);
                lemma_le32_subrange(d, infos_offset as int, infos_end, entry + IMAGE_BLOCK_COUNT_POS);
            }
            let block_offset = read_u32_le(infos.as_slice(), entry);
            let sizes_table_offset = read_u32_le(infos.as_slice(), entry + IMAGE_SIZES_TABLE_OFFSET_POS);
            let block_count = read_u32_le(infos.as_slice(), entry + IMAGE_BLOCK_COUNT_POS);
            let sizes_offset = match add_offset(table_base, 2 * sizes_table_offset as u64) {
                Some(s) => s,
                None => {
                    assert(!image_frame_readable(d, o, f as int));
                    return Err(end_of_file());
                },
            };
            assert(sizes_offset == image_sizes_pos(d, o, f as int));
            let block_sizes = match self.read_block_sizes(sizes_offset, block_count as usize) {
                Ok(s) => s,
                Err(e) => {
                    assert(!image_frame_readable(d, o, f as int));
                    return Err(e);
                },
            };
            assert(block_sizes@ == image_block_sizes(d, o, f as int));
            let data_start = match add_offset(base_offset, file_header.header_length as u64) {
                Some(b) => add_offset(b, block_offset as u64),
                None => None,
            };
            let data_start = match data_start {
                Some(s) => s,
                None => {
                    proof {
                        lemma_sizes_sum_prefix(block_sizes@, 0);
                        assert(block_sizes@.take(0) =~= Seq::<u16>::empty());
                        assert(!image_frame_readable(d, o, f as int));
                    }
                    return Err(end_of_file());
                },
            };
            assert(data_start == image_data_start(d, o, f as int));
            let block_data = match self.read_contiguous_blocks(data_start, block_sizes.as_slice()) {
                Ok(b) => b,
                Err(e) => {
                    assert(!image_frame_readable(d, o, f as int));
                    return Err(e);
                },
            };
            assert(image_frame_readable(d, o, f as int));
            proof {
                lemma_sizes_prefixes_fit(block_sizes@, bytes_contents(block_data).len() as int);
            }
            let mut frame_blocks = Self::iterate_blocks(block_data, block_sizes);
            let ghost before = blocks@;
            blocks.append(&mut frame_blocks);
            proof {
                assert(frames.take(f + 1).drop_last() =~= frames.take(f as int));
                assert(frames.take(f + 1).last() == image_frame_blocks(d, o, f as int));
                assert(blocks@.map_values(|b: Bytes| bytes_contents(b)) =~= before.map_values(
                    |b: Bytes| bytes_contents(b),
                ) + image_frame_blocks(d, o, f as int));
            }
        }
        assert(frames.take(count as int) =~= frames);
        let raw = SqPackRawFile::from_blocks(file_header.uncompressed_size, bytes_from_vec(header), blocks);
        Ok(raw)
    }

    /// Reads the stored file whose entry is at `offset`: its entry header says how
    /// it is laid out, and the reading follows that layout.
    pub fn read(&self, offset: u64) -> (r: Result<SqPackRawFile>)
        ensures
            r is Ok <==> spec_read(self@, offset as int) is Some,
            r matches Ok(raw) ==> spec_read(self@, offset as int) == Some(
                (raw.uncompressed_size, bytes_contents(raw.header), raw.block_seq()),
            ),
            r matches Err(e) ==> is_read_error(e, spec_read_error(self@, offset as int)),
    {
        let file_header = self.read_file_header(offset)?;
        match FileType::from_raw(file_header.file_type) {
            Some(FileType::Default) => self.read_default(offset, &file_header),
            Some(FileType::Model) => self.read_model(offset, &file_header),
            Some(FileType::Image) => self.read_image(offset, &file_header),
            None => Err(SqPackReaderError::ReadError(String::from_str(UNKNOWN_FILE_TYPE_MESSAGE))),
        }
    }
}

} // verus!