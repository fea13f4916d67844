//! Laws of reading a stored file: where each part of it comes from, stated over
//! the little-endian fields of its entry as they stand in the `.dat` file, over
//! the bits of an archive's data offsets, and over the bytes of a decoded file.

use vstd::prelude::*;

use crate::archive::{raw_parts, SqPackArchive};
use crate::buffer::bytes_contents;
use crate::codec::{le16, le32};
use crate::data::{
    concat_blocks, entry_frame_count, image_frame_blocks, image_frame_readable, in_range, le16_table,
    lemma_sizes_sum_prefix, sizes_sum, spec_read,
};
use crate::raw_file::{payloads, SqPackRawFile};

verus! {

/// The number of blocks of the frames of the image at `o` that come before frame
/// `f`: the sum of the block counts of their frame entries.
pub open spec fn blocks_before_frame(d: Seq<u8>, o: int, f: int) -> int
    decreases f,
{
    if f <= 0 {
        0
    } else {
        blocks_before_frame(d, o, f - 1) + le32(d, o + 24 + 20 * (f - 1) + 16) as int
    }
}

/// The blocks of each frame of the image at `o`, frame by frame.
spec fn image_frames(d: Seq<u8>, o: int) -> Seq<Seq<Seq<u8>>> {
    Seq::new(entry_frame_count(d, o) as nat, |f: int| image_frame_blocks(d, o, f))
}

/// `v` is a decoded file laid out as `header`, then 0x40 zero bytes where the
/// header is four bytes long, then what `blocks` decode to, one after the other.
pub open spec fn laid_out(v: Seq<u8>, header: Seq<u8>, blocks: Seq<Seq<u8>>) -> bool {
    let pad: int = if header.len() == 4 {
        0x40
    } else {
        0
    };
    let body = payloads(blocks);
    &&& v.len() == header.len() + pad + body.len()
    &&& forall|i: int| 0 <= i < header.len() ==> #[trigger] v[i] == header[i]
    &&& forall|i: int| header.len() <= i < header.len() + pad ==> #[trigger] v[i] == 0
    &&& forall|i: int| 0 <= i < body.len() ==> #[trigger] body[i] == v[header.len() + pad + i]
}

/// The groups of blocks before `f` come first among all the groups' blocks.
proof fn lemma_concat_prefix(s: Seq<Seq<Seq<u8>>>, f: int)
    requires
        0 <= f <= s.len(),
    ensures
        concat_blocks(s.take(f)).len() <= concat_blocks(s).len(),
        forall|i: int|
            0 <= i < concat_blocks(s.take(f)).len() ==> #[trigger] concat_blocks(s)[i] == concat_blocks(
                s.take(f),
            )[i],
    decreases s.len(),
{
    if f == s.len() {
        assert(s.take(f) =~= s);
    } else {
        lemma_concat_prefix(s.drop_last(), f);
        assert(s.drop_last().take(f) =~= s.take(f));
    }
}

/// Among all the groups' blocks, those of group `f` follow those of the groups
/// before it.
proof fn lemma_concat_index(s: Seq<Seq<Seq<u8>>>, f: int, j: int)
    requires
        0 <= f < s.len(),
        0 <= j < s[f].len(),
    ensures
        concat_blocks(s.take(f)).len() + j < concat_blocks(s).len(),
        concat_blocks(s)[concat_blocks(s.take(f)).len() + j] == s[f][j],
{
    lemma_concat_prefix(s, f + 1);
    let t = s.take(f + 1);
    assert(t.drop_last() =~= s.take(f));
    assert(t.last() == s[f]);
    assert(concat_blocks(t) == concat_blocks(t.drop_last()) + t.last());
}

/// The frames of an image before `f` hold as many blocks as their frame entries count.
proof fn lemma_blocks_before_frame(d: Seq<u8>, o: int, f: int)
    requires
        0 <= f <= entry_frame_count(d, o),
    ensures
        concat_blocks(image_frames(d, o).take(f)).len() == blocks_before_frame(d, o, f),
    decreases f,
{
    let frames = image_frames(d, o);
    if f == 0 {
        assert(frames.take(0) =~= Seq::<Seq<Seq<u8>>>::empty());
    } else {
        lemma_blocks_before_frame(d, o, f - 1);
        assert(frames.take(f).drop_last() =~= frames.take(f - 1));
        assert(frames.take(f).last() == image_frame_blocks(d, o, f - 1));
    }
}

/// A plain (type 2) entry at `o` that reads: its file has no header, one block per
/// frame entry, and block `k` is the `block_size` bytes (the `u16` at entry + 28 +
/// 8k) that start `block_offset` bytes (the full `u32` at entry + 24 + 8k) after
/// the entry's headers, whose size is the `u32` at the entry's start.
pub proof fn lemma_default_entry_layout(
    d: Seq<u8>,
    o: int,
    k: int,
    size: u32,
    header: Seq<u8>,
    blocks: Seq<Seq<u8>>,
)
    requires
        spec_read(d, o) == Some((size, header, blocks)),
        le32(d, o + 4) == 2,
        0 <= k < le32(d, o + 20),
    ensures
        size == le32(d, o + 8),
        header.len() == 0,
        blocks.len() == le32(d, o + 20),
        blocks[k].len() == le16(d, o + 24 + 8 * k + 4),
        forall|i: int|
            0 <= i < blocks[k].len() ==> #[trigger] blocks[k][i] == d[o + le32(d, o) + le32(d, o + 24 + 8 * k) + i],
{
    let start = o + le32(d, o) + le32(d, o + 24 + 8 * k);
    let n = le16(d, o + 24 + 8 * k + 4) as int;
    assert(in_range(d, crate::data::default_block_start(d, o, k), crate::data::default_block_size(d, o, k)));
    assert(blocks[k] == crate::data::read_bytes(d, start, n));
    if n > 0 {
        assert(blocks[k] == d.subrange(start, start + n));
    }
}

/// Block `j` of blocks stored one after the other at `start`, whose sizes are the
/// `u16` table at `pos`: it starts after the sizes of the blocks before it and runs
/// to the end of all the blocks' data.
proof fn lemma_split_block(d: Seq<u8>, start: int, pos: int, count: int, j: int)
    requires
        0 <= j < count,
        in_range(d, start, sizes_sum(le16_table(d, pos, count))),
    ensures
        ({
            let all = sizes_sum(le16_table(d, pos, count));
            let before = sizes_sum(le16_table(d, pos, j));
            let block = crate::data::split_blocks(
                crate::data::read_bytes(d, start, all),
                le16_table(d, pos, count),
            )[j];
            &&& 0 <= before <= all
            &&& block.len() == all - before
            &&& forall|i: int| 0 <= i < block.len() ==> #[trigger] block[i] == d[start + before + i]
        }),
{
    let sizes = le16_table(d, pos, count);
    let all = sizes_sum(sizes);
    assert(sizes.take(j) =~= le16_table(d, pos, j));
    lemma_sizes_sum_prefix(sizes, j);
    let before = sizes_sum(le16_table(d, pos, j));
    let data = crate::data::read_bytes(d, start, all);
    if all > 0 {
        assert(data == d.subrange(start, start + all));
    } else {
        assert(data.skip(before) =~= Seq::<u8>::empty());
    }
}

/// A model (type 3) entry at `o` that reads: its file's header is the four bytes
/// at entry + 200 (its numbers of meshes and of materials), it has as many blocks
/// as the eleven block counts at entry + 178 sum to, and its blocks' data starts
/// the full `u32` at entry + 112 bytes after the entry's headers and is as long
/// as the block sizes at entry + 208 sum to; block `j` starts after the sizes of
/// the blocks before it and runs to the end of that data.
pub proof fn lemma_model_entry_layout(
    d: Seq<u8>,
    o: int,
    j: int,
    size: u32,
    header: Seq<u8>,
    blocks: Seq<Seq<u8>>,
)
    requires
        spec_read(d, o) == Some((size, header, blocks)),
        le32(d, o + 4) == 3,
        0 <= j < blocks.len(),
    ensures
        size == le32(d, o + 8),
        header.len() == 4,
        forall|i: int| 0 <= i < 4 ==> #[trigger] header[i] == d[o + 24 + 176 + i],
        blocks.len() == sizes_sum(le16_table(d, o + 24 + 154, 11)),
        blocks[j].len() == sizes_sum(le16_table(d, o + 24 + 184, blocks.len() as int)) - sizes_sum(
            le16_table(d, o + 24 + 184, j),
        ),
        forall|i: int|
            0 <= i < blocks[j].len() ==> #[trigger] blocks[j][i] == d[o + le32(d, o) + le32(d, o + 24 + 88)
                + sizes_sum(le16_table(d, o + 24 + 184, j)) + i],
{
    let count = blocks.len() as int;
    let start = o + le32(d, o) + le32(d, o + 24 + 88);
    assert(crate::data::model_block_sizes(d, o) == le16_table(d, o + 24 + 184, count));
    lemma_split_block(d, start, o + 24 + 184, count, j);
}

/// A texture (type 4) entry at `o` that reads: its file's header is the bytes that
/// follow the entry's headers, up to the first frame's `block_offset` (the full
/// `u32` at entry + 24). The blocks of frame `f` come after those of the frames
/// before it; the frame's block data starts `block_offset` bytes (the full `u32`
/// at entry + 24 + 20f) after the entry's headers and is as long as the frame's
/// block sizes sum to; its block `j` starts after the sizes of the blocks before
/// it and runs to the end of that data.
pub proof fn lemma_image_entry_layout(
    d: Seq<u8>,
    o: int,
    f: int,
    j: int,
    size: u32,
    header: Seq<u8>,
    blocks: Seq<Seq<u8>>,
)
    requires
        spec_read(d, o) == Some((size, header, blocks)),
        le32(d, o + 4) == 4,
        0 <= f < le32(d, o + 20),
        0 <= j < le32(d, o + 24 + 20 * f + 16),
    ensures
        size == le32(d, o + 8),
        header.len() == le32(d, o + 24),
        forall|i: int| 0 <= i < header.len() ==> #[trigger] header[i] == d[o + le32(d, o) + i],
        0 <= blocks_before_frame(d, o, f) + j < blocks.len(),
        ({
            let sizes_pos = o + 24 + 20 * le32(d, o + 20) + 2 * le32(d, o + 24 + 20 * f + 12);
            let all = sizes_sum(le16_table(d, sizes_pos, le32(d, o + 24 + 20 * f + 16) as int));
            let before = sizes_sum(le16_table(d, sizes_pos, j));
            let block = blocks[blocks_before_frame(d, o, f) + j];
            &&& block.len() == all - before
            &&& forall|i: int|
                0 <= i < block.len() ==> #[trigger] block[i] == d[o + le32(d, o) + le32(d, o + 24 + 20 * f) + before
                    + i]
        }),
{
    let hl = le32(d, o) as int;
    let h = le32(d, o + 24) as int;
    if h > 0 {
        assert(header == d.subrange(o + hl, o + hl + h));
    }
    let frames = image_frames(d, o);
    assert(blocks == concat_blocks(frames)) by {
        assert(frames =~= Seq::new(entry_frame_count(d, o) as nat, |g: int| image_frame_blocks(d, o, g)));
    }
    assert(image_frame_readable(d, o, f));
    let frame = image_frame_blocks(d, o, f);
    assert(frames[f] == frame);
    let count = le32(d, o + 24 + 20 * f + 16) as int;
    let sizes_pos = o + 24 + 20 * le32(d, o + 20) + 2 * le32(d, o + 24 + 20 * f + 12);
    assert(crate::data::image_block_sizes(d, o, f) == le16_table(d, sizes_pos, count));
    assert(frame.len() == count);
    lemma_concat_index(frames, f, j);
    lemma_blocks_before_frame(d, o, f);
    lemma_split_block(d, o + hl + le32(d, o + 24 + 20 * f), sizes_pos, count, j);
}

/// What a block decodes to, read off its header: the bytes at offset
/// `header_size` (the `u32` at 0), `uncompressed_length` of them (the `u32` at 12)
/// where its `compressed_length` (the `u32` at 8) is at least 32000, else the
/// inflation of the `compressed_length` bytes there.
pub proof fn lemma_block_payload(b: Seq<u8>)
    requires
        crate::raw_file::block_decodable(b),
    ensures
        le32(b, 8) >= 32000 ==> {
            &&& crate::raw_file::block_payload(b).len() == le32(b, 12)
            &&& forall|i: int|
                0 <= i < le32(b, 12) ==> #[trigger] crate::raw_file::block_payload(b)[i] == b[le32(b, 0) + i]
        },
        le32(b, 8) < 32000 ==> crate::raw_file::block_payload(b) == crate::inflate::inflated(
            b.subrange(le32(b, 0) as int, le32(b, 0) + le32(b, 8)),
        )->0,
{
}

/// The stored file at data offset `o` is read out of `.dat` file number
/// `(o % 16) / 2` (bits 1 to 3 of `o`), at byte `(o / 16) * 128` of it: the
/// offset with its low four bits cleared, times 8. Those bits never move it.
pub proof fn lemma_data_offset_place(a: &SqPackArchive, o: u32)
    ensures
        a.parts_at(o) == if (o % 16) / 2 < a.data@.len() {
            spec_read(a.data@[((o % 16) / 2) as int]@, (o / 16) as int * 128)
        } else {
            None
        },
{
    assert((o - o % 16) * 8 == (o / 16) as int * 128) by (nonlinear_arith);
}

/// The file stored at byte `pos` (a multiple of 128) of `.dat` file `dat` is named
/// by the data offset `pos / 8 + 2 * dat`, with its lowest bit either way.
pub proof fn lemma_data_offset_names(a: &SqPackArchive, dat: int, pos: int)
    requires
        0 <= dat < 8,
        0 <= pos,
        pos % 128 == 0,
        pos / 8 + 2 * dat + 1 <= u32::MAX,
    ensures
        a.parts_at((pos / 8 + 2 * dat) as u32) == if dat < a.data@.len() {
            spec_read(a.data@[dat]@, pos)
        } else {
            None
        },
        a.parts_at((pos / 8 + 2 * dat + 1) as u32) == if dat < a.data@.len() {
            spec_read(a.data@[dat]@, pos)
        } else {
            None
        },
{
    let q = pos / 128;
    assert(pos == 128 * q) by (nonlinear_arith)
        requires
            pos % 128 == 0,
            q == pos / 128,
    ;
    let o0 = (pos / 8 + 2 * dat) as u32;
    let o1 = (pos / 8 + 2 * dat + 1) as u32;
    assert(o0 == 16 * q + 2 * dat);
    assert(o1 == 16 * q + 2 * dat + 1);
    assert(o0 / 16 == q && o0 % 16 == 2 * dat) by (nonlinear_arith)
        requires
            o0 == 16 * q + 2 * dat,
            0 <= dat < 8,
            0 <= q,
    ;
    assert(o1 / 16 == q && o1 % 16 == 2 * dat + 1) by (nonlinear_arith)
        requires
            o1 == 16 * q + 2 * dat + 1,
            0 <= dat < 8,
            0 <= q,
    ;
    lemma_data_offset_place(a, o0);
    lemma_data_offset_place(a, o1);
}

/// What `read_file` gives for a stored file is the decoding of the raw file that
/// `read_raw` reads at the same data offset: nothing where a block does not
/// decode, else that raw file decoded, header included.
pub proof fn lemma_read_file_decodes_raw(a: &SqPackArchive, o: u32, raw: SqPackRawFile)
    requires
        a.parts_at(o) == Some(raw_parts(raw)),
    ensures
        a.decoded_at(o) == if raw.decodable() {
            Some(raw.spec_decoded())
        } else {
            None
        },
{
}

/// A decoded file starts with the stored file's header, followed by 0x40 zero
/// bytes where that header is four bytes long (a model's), followed by what each
/// block decodes to, in order.
pub proof fn lemma_decoded_layout(r: SqPackRawFile)
    ensures
        laid_out(r.spec_decoded(), bytes_contents(r.header), r.block_seq()),
{
    let h = bytes_contents(r.header);
    let v = r.spec_decoded();
    let pad: int = if h.len() == 4 {
        0x40
    } else {
        0
    };
    let body = payloads(r.block_seq());
    assert(v.len() == h.len() + pad + body.len());
    assert forall|i: int| 0 <= i < h.len() implies #[trigger] v[i] == h[i] by {}
    assert forall|i: int| h.len() <= i < h.len() + pad implies #[trigger] v[i] == 0 by {}
    assert forall|i: int| 0 <= i < body.len() implies #[trigger] body[i] == v[h.len() + pad + i] by {}
}

/// What `read_file` gives for the stored file at data offset `o` keeps that file's
/// header: the header, 0x40 zero bytes where it is four bytes long, then what its
/// blocks decode to.
pub proof fn lemma_read_file_layout(a: &SqPackArchive, o: u32, v: Seq<u8>)
    requires
        a.decoded_at(o) == Some(v),
    ensures
        a.parts_at(o) matches Some(p) && laid_out(v, p.1, p.2),
{
    let p = a.parts_at(o)->0;
    let h = p.1;
    let pad: int = if h.len() == 4 {
        0x40
    } else {
        0
    };
    let body = payloads(p.2);
    assert forall|i: int| 0 <= i < h.len() implies #[trigger] v[i] == h[i] by {}
    assert forall|i: int| h.len() <= i < h.len() + pad implies #[trigger] v[i] == 0 by {}
    assert forall|i: int| 0 <= i < body.len() implies #[trigger] body[i] == v[h.len() + pad + i] by {}
}

} // verus!
