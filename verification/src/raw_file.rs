//! A stored file as it was read from a `.dat` file: its header bytes and its
//! blocks, and the decoding of those into the file's contents.

use bytes::Bytes;
use vstd::prelude::*;

use crate::buffer::{bytes_as_slice, bytes_contents};
use crate::codec::{le32, read_u32_le};
use crate::inflate::{inflate, inflated};

verus! {

/// The size of the header at the start of each block.
pub const BLOCK_HEADER_SIZE: usize = 16;

/// A block whose `compressed_length` is at least this is stored uncompressed.
pub const UNCOMPRESSED_MARKER: u32 = 32000;

/// A decoded file whose header is exactly four bytes long (a model) gets this
/// many zero bytes after its header.
pub const MODEL_HEADER_PADDING: usize = 0x40;

/// The header at the start of a block.
#[derive(Clone, Copy, Debug)]
pub struct BlockHeader {
    pub header_size: u32,
    /// A field whose meaning is not known.
    pub _unk: u32,
    /// At least `UNCOMPRESSED_MARKER` if the block is stored uncompressed.
    pub compressed_length: u32,
    pub uncompressed_length: u32,
}

/// Where a block's data starts.
pub open spec fn block_header_size(b: Seq<u8>) -> int {
    le32(b, 0) as int
}

/// The compressed length recorded in a block's header.
pub open spec fn block_compressed_length(b: Seq<u8>) -> int {
    le32(b, 8) as int
}

/// The uncompressed length recorded in a block's header.
pub open spec fn block_uncompressed_length(b: Seq<u8>) -> int {
    le32(b, 12) as int
}

/// Whether the block is stored as is.
pub open spec fn block_is_stored(b: Seq<u8>) -> bool {
    block_compressed_length(b) >= UNCOMPRESSED_MARKER
}

/// The bytes of the block that hold its data: uncompressed, or as a deflate stream.
pub open spec fn block_data(b: Seq<u8>) -> Seq<u8> {
    if block_is_stored(b) {
        b.subrange(block_header_size(b), block_header_size(b) + block_uncompressed_length(b))
    } else {
        b.subrange(block_header_size(b), block_header_size(b) + block_compressed_length(b))
    }
}

/// The block holds its header and the data that the header describes.
pub open spec fn block_in_bounds(b: Seq<u8>) -> bool {
    &&& BLOCK_HEADER_SIZE <= b.len()
    &&& if block_is_stored(b) {
        block_header_size(b) + block_uncompressed_length(b) <= b.len()
    } else {
        block_header_size(b) + block_compressed_length(b) <= b.len()
    }
}

/// The block is in bounds and, if it is compressed, its deflate stream decompresses.
pub open spec fn block_decodable(b: Seq<u8>) -> bool {
    &&& block_in_bounds(b)
    &&& !block_is_stored(b) ==> inflated(block_data(b)) is Some
}

/// What a block decodes to.
pub open spec fn block_payload(b: Seq<u8>) -> Seq<u8> {
    if block_is_stored(b) {
        block_data(b)
    } else {
        inflated(block_data(b))->0
    }
}

/// The decoded blocks, one after the other.
pub open spec fn payloads(blocks: Seq<Seq<u8>>) -> Seq<u8>
    decreases blocks.len(),
{
    if blocks.len() == 0 {
        Seq::empty()
    } else {
        payloads(blocks.drop_last()) + block_payload(blocks.last())
    }
}

/// The file header as it starts a decoded file: a four-byte (model) header is
/// followed by `MODEL_HEADER_PADDING` zero bytes.
pub open spec fn decoded_prefix(header: Seq<u8>) -> Seq<u8> {
    if header.len() == 4 {
        header + Seq::new(MODEL_HEADER_PADDING as nat, |i: int| 0u8)
    } else {
        header
    }
}

/// Every block can be decoded.
pub open spec fn blocks_decodable(blocks: Seq<Seq<u8>>) -> bool {
    forall|i: int| 0 <= i < blocks.len() ==> block_decodable(#[trigger] blocks[i])
}

/// A file decoded from its header and blocks: the header, padded if it is a
/// model's, then each block decoded.
pub open spec fn decode_parts(header: Seq<u8>, blocks: Seq<Seq<u8>>) -> Seq<u8> {
    decoded_prefix(header) + payloads(blocks)
}

/// A stored file: its size once decoded, its header, and its blocks. Each block
/// starts with a block header; it may run on past its own data.
pub struct SqPackRawFile {
    pub uncompressed_size: u32,
    pub header: Bytes,
    pub blocks: Vec<Bytes>,
}

impl SqPackRawFile {
    /// The bytes of each block.
    pub open spec fn block_seq(&self) -> Seq<Seq<u8>> {
        self.blocks@.map_values(|b: Bytes| bytes_contents(b))
    }

    /// Every block can be decoded.
    pub open spec fn decodable(&self) -> bool {
        blocks_decodable(self.block_seq())
    }

    /// The decoded file: the header, padded if it is a model's, then each block decoded.
    pub open spec fn spec_decoded(&self) -> Seq<u8> {
        decode_parts(bytes_contents(self.header), self.block_seq())
    }

    /// Makes a stored file of its parts.
    pub fn from_blocks(uncompressed_size: u32, header: Bytes, blocks: Vec<Bytes>) -> (r: Self)
        ensures
            r.uncompressed_size == uncompressed_size,
            r.header == header,
            r.blocks == blocks,
    {
        SqPackRawFile { uncompressed_size, header, blocks }
    }

    /// Reads the header at the start of a block.
    pub fn get_block_header(block: &[u8]) -> (r: BlockHeader)
        requires
            BLOCK_HEADER_SIZE <= block@.len(),
        ensures
            r.header_size == block_header_size(block@),
            r._unk == le32(block@, 4),
            r.compressed_length == block_compressed_length(block@),
            r.uncompressed_length == block_uncompressed_length(block@),
    {
        BlockHeader {
            header_size: read_u32_le(block, 0),
            _unk: read_u32_le(block, 4),
            compressed_length: read_u32_le(block, 8),
            uncompressed_length: read_u32_le(block, 12),
        }
    }

    /// Appends the bytes of `data`.
    fn append_bytes(result: &mut Vec<u8>, data: &[u8])
        ensures
            final(result)@ == old(result)@ + data@,
    {
        let n = data.len();
        for i in 0..n
            invariant
                n == data@.len(),
                result@ == old(result)@ + data@.take(i as int),
        {
            result.push(data[i]);
            assert(data@.take(i + 1) =~= data@.take(i as int).push(data@[i as int]));
        }
        assert(data@.take(n as int) =~= data@);
    }

    /// Appends what `block` decodes to.
    fn decode_block_into(block: &[u8], result: &mut Vec<u8>)
        requires
            block_decodable(block@),
        ensures
            final(result)@ == old(result)@ + block_payload(block@),
    {
        let header = Self::get_block_header(block);
        let len = block.len();
        assert(len == block@.len());
        let start = header.header_size as usize;
        if header.compressed_length >= UNCOMPRESSED_MARKER {
            let end = start + header.uncompressed_length as usize;
            let data = &block[start..end];
            Self::append_bytes(result, data);
        } else {
            let end = start + header.compressed_length as usize;
            let data = &block[start..end];
            let decoded = inflate(data);
            match decoded {
                Some(v) => {
                    Self::append_bytes(result, v.as_slice());
                },
                None => {
                    assert(false);
                },
            }
        }
    }

    /// Decodes the file: the header (a four-byte header gets `MODEL_HEADER_PADDING`
    /// zero bytes after it), then the data of each block in turn, decompressed where
    /// it is compressed.
    pub fn into_decoded(self) -> (r: Vec<u8>)
        requires
            self.decodable(),
        ensures
            r@ == self.spec_decoded(),
    {
        let mut result: Vec<u8> = Vec::new();
        Self::append_bytes(&mut result, bytes_as_slice(&self.header));
        if result.len() == 4 {
            let ghost header = result@;
            for k in 0..MODEL_HEADER_PADDING
                invariant
                    result@ == header + Seq::new(k as nat, |i: int| 0u8),
            {
                result.push(0u8);
                assert(result@ =~= header + Seq::new((k + 1) as nat, |i: int| 0u8));
            }
        }
        assert(result@ =~= decoded_prefix(bytes_contents(self.header)));
        let ghost blocks = self.block_seq();
        let n = self.blocks.len();
        assert(blocks.take(0) =~= Seq::<Seq<u8>>::empty());
        for i in 0..n
            invariant
                n == self.blocks@.len(),
                blocks == self.block_seq(),
                self.decodable(),
                result@ == decoded_prefix(bytes_contents(self.header)) + payloads(blocks.take(i as int)),
        {
            let block = bytes_as_slice(&self.blocks[i]);
            assert(block@ == blocks[i as int]);
            Self::decode_block_into(block, &mut result);
            assert(blocks.take(i + 1).drop_last() =~= blocks.take(i as int));
        }
        assert(blocks.take(n as int) =~= blocks);
        result
    }

    /// Decodes the file as `into_decoded` does, or gives `None` where a block does
    /// not hold the data its header describes or a compressed block does not
    /// decompress.
    pub fn try_into_decoded(self) -> (r: Option<Vec<u8>>)
        ensures
            r is Some <==> self.decodable(),
            r matches Some(v) ==> v@ == self.spec_decoded(),
    {
        let n = self.blocks.len();
        for i in 0..n
            invariant
                n == self.blocks@.len(),
                forall|j: int| 0 <= j < i ==> block_decodable(#[trigger] self.block_seq()[j]),
        {
            let block = bytes_as_slice(&self.blocks[i]);
            assert(block@ == self.block_seq()[i as int]);
            if block.len() < BLOCK_HEADER_SIZE {
                return None;
            }
            let header = Self::get_block_header(block);
            let start = header.header_size as u64;
            if header.compressed_length >= UNCOMPRESSED_MARKER {
                if start + header.uncompressed_length as u64 > block.len() as u64 {
                    return None;
                }
            } else {
                if start + header.compressed_length as u64 > block.len() as u64 {
                    return None;
                }
                let end = start as usize + header.compressed_length as usize;
                if inflate(&block[start as usize..end]).is_none() {
                    return None;
                }
            }
        }
        Some(self.into_decoded())
    }
}

} // verus!
