use bytes::Bytes;
use sqpack::{File, FileType, SqPackData, SqPackRawFile, SqPackReaderError};

fn put_u32(buf: &mut Vec<u8>, pos: usize, v: u32) {
    buf[pos..pos + 4].copy_from_slice(&v.to_le_bytes());
}

fn put_u16(buf: &mut Vec<u8>, pos: usize, v: u16) {
    buf[pos..pos + 2].copy_from_slice(&v.to_le_bytes());
}

fn stored_block(data: &[u8]) -> Vec<u8> {
    let mut b = vec![0u8; 16];
    put_u32(&mut b, 0, 16);
    put_u32(&mut b, 8, 32000);
    put_u32(&mut b, 12, data.len() as u32);
    b.extend_from_slice(data);
    b
}

fn compressed_block(data: &[u8]) -> Vec<u8> {
    let packed = miniz_oxide::deflate::compress_to_vec(data, 6);
    let mut b = vec![0u8; 16];
    put_u32(&mut b, 0, 16);
    put_u32(&mut b, 8, packed.len() as u32);
    put_u32(&mut b, 12, data.len() as u32);
    b.extend_from_slice(&packed);
    b
}

fn entry_header(buf: &mut Vec<u8>, at: usize, header_length: u32, file_type: u32, size: u32, frames: u32) {
    put_u32(buf, at, header_length);
    put_u32(buf, at + 4, file_type);
    put_u32(buf, at + 8, size);
    put_u32(buf, at + 20, frames);
}

/// A default file at offset 0x10 with the given blocks, its headers 0x80 long.
fn default_dat(blocks: &[Vec<u8>], size: u32) -> Vec<u8> {
    let at = 0x10;
    let hl = 0x80usize;
    let total: usize = blocks.iter().map(|b| b.len()).sum();
    let mut buf = vec![0u8; at + hl + total + 8];
    entry_header(&mut buf, at, hl as u32, 2, size, blocks.len() as u32);
    let mut off = 0usize;
    for (k, b) in blocks.iter().enumerate() {
        let info = at + 24 + 8 * k;
        put_u32(&mut buf, info, off as u32);
        put_u16(&mut buf, info + 4, b.len() as u16);
        buf[at + hl + off..at + hl + off + b.len()].copy_from_slice(b);
        off += b.len();
    }
    buf
}

/// A model at offset 0: block counts 2 and 1 for the first two kinds.
fn model_dat(blocks: &[Vec<u8>], meshes: u16, materials: u16) -> Vec<u8> {
    let hl = 0x100usize;
    let first = 0x20usize;
    let total: usize = blocks.iter().map(|b| b.len()).sum();
    let mut buf = vec![0u8; hl + first + total];
    entry_header(&mut buf, 0, hl as u32, 3, 99, 0);
    let info = 24;
    put_u32(&mut buf, info + 88, first as u32);
    put_u16(&mut buf, info + 154, 2);
    put_u16(&mut buf, info + 156, (blocks.len() - 2) as u16);
    put_u16(&mut buf, info + 176, meshes);
    put_u16(&mut buf, info + 178, materials);
    let mut off = hl + first;
    for (j, b) in blocks.iter().enumerate() {
        put_u16(&mut buf, 24 + 184 + 2 * j, b.len() as u16);
        buf[off..off + b.len()].copy_from_slice(b);
        off += b.len();
    }
    buf
}

/// An image at offset 0 with a header and two frames.
fn image_dat(header: &[u8], frames: &[Vec<Vec<u8>>]) -> Vec<u8> {
    let hl = 0x80usize;
    let mut body: Vec<u8> = header.to_vec();
    let mut buf = vec![0u8; hl];
    entry_header(&mut buf, 0, hl as u32, 4, 1234, frames.len() as u32);
    let table = 24 + 20 * frames.len();
    let mut sizes_index = 0u32;
    for (f, blocks) in frames.iter().enumerate() {
        let info = 24 + 20 * f;
        put_u32(&mut buf, info, body.len() as u32);
        put_u32(&mut buf, info + 12, sizes_index);
        put_u32(&mut buf, info + 16, blocks.len() as u32);
        for b in blocks {
            put_u16(&mut buf, table + 2 * sizes_index as usize, b.len() as u16);
            sizes_index += 1;
            body.extend_from_slice(b);
        }
    }
    buf.extend_from_slice(&body);
    buf
}

fn contents(b: &Bytes) -> Vec<u8> {
    b.to_vec()
}

#[test]
fn file_type_from_raw() {
    assert_eq!(FileType::from_raw(2), Some(FileType::Default));
    assert_eq!(FileType::from_raw(3), Some(FileType::Model));
    assert_eq!(FileType::from_raw(4), Some(FileType::Image));
    assert_eq!(FileType::from_raw(1), None);
    assert_eq!(FileType::from_raw(5), None);
}

#[test]
fn read_default_file() {
    let a = stored_block(b"hello");
    let b = compressed_block(b"world!");
    let dat = default_dat(&[a.clone(), b.clone()], 11);
    let data = SqPackData::from_raw(dat);
    let raw = data.read(0x10).unwrap();
    assert_eq!(raw.uncompressed_size, 11);
    assert!(raw.header.is_empty());
    assert_eq!(raw.blocks.len(), 2);
    assert_eq!(contents(&raw.blocks[0]), a);
    assert_eq!(contents(&raw.blocks[1]), b);
    assert_eq!(raw.into_decoded(), b"helloworld!".to_vec());
}

#[test]
fn read_default_block_past_end() {
    let a = stored_block(b"hello");
    let mut dat = default_dat(&[a], 5);
    put_u16(&mut dat, 0x10 + 24 + 4, 0x7000);
    let data = SqPackData::from_raw(dat);
    assert!(matches!(data.read(0x10), Err(SqPackReaderError::ReadError(_))));
}

#[test]
fn read_default_no_frames() {
    let dat = default_dat(&[], 0);
    let raw = SqPackData::from_raw(dat).read(0x10).unwrap();
    assert!(raw.blocks.is_empty());
    assert_eq!(raw.into_decoded(), Vec::<u8>::new());
}

#[test]
fn read_entry_past_end() {
    let data = SqPackData::from_raw(vec![0u8; 30]);
    assert!(matches!(data.read(10), Err(SqPackReaderError::ReadError(_))));
    assert!(matches!(data.read(u64::MAX), Err(SqPackReaderError::ReadError(_))));
}

#[test]
fn read_at_of_nothing_succeeds_anywhere() {
    let file: Vec<u8> = vec![1, 2, 3];
    assert_eq!(file.read_at(100, 0), Ok(vec![]));
    assert_eq!(file.read_at(1, 2), Ok(vec![2, 3]));
    assert!(matches!(file.read_at(2, 2), Err(SqPackReaderError::ReadError(_))));
    assert!(matches!(file.read_at(u64::MAX, 1), Err(SqPackReaderError::ReadError(_))));
}

#[test]
fn read_default_empty_block_past_end() {
    let a = stored_block(b"hello");
    let mut dat = default_dat(&[a.clone(), vec![]], 5);
    put_u32(&mut dat, 0x10 + 24 + 8, 0x10000);
    let raw = SqPackData::from_raw(dat).read(0x10).unwrap();
    assert_eq!(raw.blocks.len(), 2);
    assert_eq!(contents(&raw.blocks[0]), a);
    assert!(raw.blocks[1].is_empty());
}

#[test]
fn read_image_empty_size_table_past_end() {
    let frames = vec![vec![stored_block(b"abc")], vec![]];
    let mut dat = image_dat(b"", &frames);
    put_u32(&mut dat, 24 + 20 + 12, 0x100000);
    let raw = SqPackData::from_raw(dat).read(0).unwrap();
    assert!(raw.header.is_empty());
    assert_eq!(raw.blocks.len(), 1);
    assert_eq!(raw.into_decoded(), b"abc".to_vec());
}

#[test]
fn read_unknown_file_type() {
    let mut dat = vec![0u8; 64];
    entry_header(&mut dat, 0, 32, 1, 0, 0);
    let data = SqPackData::from_raw(dat);
    assert_eq!(
        data.read(0).err().unwrap().to_string(),
        "Read error, unknown file type".to_string()
    );
}

#[test]
fn read_model_file() {
    let blocks = vec![stored_block(b"ab"), compressed_block(b"cdefgh"), stored_block(b"ij")];
    let dat = model_dat(&blocks, 0x0102, 0x0304);
    let data = SqPackData::from_raw(dat);
    let raw = data.read(0).unwrap();
    assert_eq!(raw.uncompressed_size, 99);
    assert_eq!(contents(&raw.header), vec![0x02, 0x01, 0x04, 0x03]);
    assert_eq!(raw.blocks.len(), 3);
    let all: Vec<u8> = blocks.concat();
    assert_eq!(contents(&raw.blocks[0]), all);
    assert_eq!(contents(&raw.blocks[1]), all[blocks[0].len()..].to_vec());
    assert_eq!(contents(&raw.blocks[2]), all[blocks[0].len() + blocks[1].len()..].to_vec());
    let decoded = raw.into_decoded();
    let mut expected = vec![0x02, 0x01, 0x04, 0x03];
    expected.extend(std::iter::repeat(0u8).take(0x40));
    expected.extend_from_slice(b"abcdefghij");
    assert_eq!(decoded, expected);
    assert_eq!(decoded.len(), 0x44 + 10);
}

#[test]
fn read_model_sizes_past_end() {
    let blocks = vec![stored_block(b"ab"), stored_block(b"cd"), stored_block(b"ef")];
    let mut dat = model_dat(&blocks, 1, 1);
    put_u16(&mut dat, 24 + 158, 0x4000);
    assert!(matches!(SqPackData::from_raw(dat).read(0), Err(SqPackReaderError::ReadError(_))));
}

#[test]
fn read_image_file() {
    let frames = vec![
        vec![stored_block(b"one"), compressed_block(b"two two two")],
        vec![stored_block(b"three")],
    ];
    let dat = image_dat(b"TEXHEAD", &frames);
    let data = SqPackData::from_raw(dat);
    let raw = data.read(0).unwrap();
    assert_eq!(raw.uncompressed_size, 1234);
    assert_eq!(contents(&raw.header), b"TEXHEAD".to_vec());
    assert_eq!(raw.blocks.len(), 3);
    let frame0: Vec<u8> = frames[0].concat();
    assert_eq!(contents(&raw.blocks[0]), frame0);
    assert_eq!(contents(&raw.blocks[1]), frame0[frames[0][0].len()..].to_vec());
    assert_eq!(contents(&raw.blocks[2]), frames[1][0]);
    assert_eq!(raw.into_decoded(), b"TEXHEADonetwo two twothree".to_vec());
}

#[test]
fn read_image_without_frames() {
    let dat = image_dat(b"", &[]);
    let data = SqPackData::from_raw(dat);
    assert_eq!(data.read(0).err(), Some(SqPackReaderError::ReadError("image has no frames".to_string())));
}

#[test]
fn read_model_block_count_overflow() {
    let blocks = vec![stored_block(b"ab"), stored_block(b"cd"), stored_block(b"ef")];
    let mut dat = model_dat(&blocks, 1, 1);
    put_u16(&mut dat, 24 + 154, 0xffff);
    assert_eq!(
        SqPackData::from_raw(dat).read(0).err(),
        Some(SqPackReaderError::ReadError("model block count overflows".to_string()))
    );
}

#[test]
fn read_past_end_error_text() {
    let data = SqPackData::from_raw(vec![0u8; 30]);
    assert_eq!(
        data.read(10).err(),
        Some(SqPackReaderError::ReadError("failed to fill whole buffer".to_string()))
    );
}

#[test]
fn raw_file_block_header() {
    let b = stored_block(b"xyz");
    let h = SqPackRawFile::get_block_header(&b);
    assert_eq!(h.header_size, 16);
    assert_eq!(h.compressed_length, 32000);
    assert_eq!(h.uncompressed_length, 3);
    assert_eq!(h._unk, 0);
}

#[test]
fn raw_file_from_blocks() {
    let raw = SqPackRawFile::from_blocks(
        7,
        Bytes::from(vec![1u8, 2, 3]),
        vec![Bytes::from(stored_block(b"abc"))],
    );
    assert_eq!(raw.uncompressed_size, 7);
    assert_eq!(raw.into_decoded(), vec![1u8, 2, 3, b'a', b'b', b'c']);
}

#[test]
fn raw_file_four_byte_header_is_padded() {
    let raw = SqPackRawFile::from_blocks(0, Bytes::from(vec![9u8, 9, 9, 9]), vec![]);
    let mut expected = vec![9u8, 9, 9, 9];
    expected.extend(vec![0u8; 0x40]);
    assert_eq!(raw.into_decoded(), expected);
}

#[test]
fn raw_file_block_runs_past_its_data() {
    let mut b = stored_block(b"abc");
    b.extend_from_slice(b"TRAILING");
    let raw = SqPackRawFile::from_blocks(0, Bytes::new(), vec![Bytes::from(b)]);
    assert_eq!(raw.into_decoded(), b"abc".to_vec());
}

#[test]
fn raw_file_try_decode_bad_stream() {
    let mut b = vec![0u8; 16];
    put_u32(&mut b, 0, 16);
    put_u32(&mut b, 8, 4);
    put_u32(&mut b, 12, 10);
    b.extend_from_slice(&[0xff, 0xff, 0xff, 0xff]);
    let raw = SqPackRawFile::from_blocks(0, Bytes::new(), vec![Bytes::from(b)]);
    assert_eq!(raw.try_into_decoded(), None);
}

#[test]
fn raw_file_try_decode_short_block() {
    let raw = SqPackRawFile::from_blocks(0, Bytes::new(), vec![Bytes::from(vec![1u8, 2, 3])]);
    assert_eq!(raw.try_into_decoded(), None);
    let mut b = stored_block(b"abc");
    put_u32(&mut b, 12, 100);
    let raw = SqPackRawFile::from_blocks(0, Bytes::new(), vec![Bytes::from(b)]);
    assert_eq!(raw.try_into_decoded(), None);
}

#[test]
fn raw_file_try_decode_good() {
    let raw = SqPackRawFile::from_blocks(
        0,
        Bytes::from(vec![7u8]),
        vec![Bytes::from(compressed_block(b"zzzzzzzzzz")), Bytes::from(stored_block(b"!"))],
    );
    assert_eq!(raw.try_into_decoded(), Some(b"\x07zzzzzzzzzz!".to_vec()));
}
