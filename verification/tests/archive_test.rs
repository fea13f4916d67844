use sqpack::{SqPackArchive, SqPackIndex, SqPackReaderError};

fn put_u32(buf: &mut Vec<u8>, pos: usize, v: u32) {
    buf[pos..pos + 4].copy_from_slice(&v.to_le_bytes());
}

fn put_u16(buf: &mut Vec<u8>, pos: usize, v: u16) {
    buf[pos..pos + 2].copy_from_slice(&v.to_le_bytes());
}

fn build_index(folders: &[(u32, Vec<(u32, u32)>)], dat_count: u32) -> Vec<u8> {
    let file_count: usize = folders.iter().map(|f| f.1.len()).sum();
    let file_seg = 0x800usize;
    let folder_seg = file_seg + file_count * 16;
    let mut buf = vec![0u8; folder_seg + folders.len() * 16];
    put_u32(&mut buf, 12, 0x400);
    put_u32(&mut buf, 0x404, file_seg as u32);
    put_u32(&mut buf, 0x408, (file_count * 16) as u32);
    put_u32(&mut buf, 0x44C, dat_count);
    put_u32(&mut buf, 0x4E0, folder_seg as u32);
    put_u32(&mut buf, 0x4E4, (folders.len() * 16) as u32);
    let mut k = 0usize;
    for (i, (folder_hash, files)) in folders.iter().enumerate() {
        let list_start = file_seg + k * 16;
        for (file_hash, offset) in files {
            let p = file_seg + k * 16;
            put_u32(&mut buf, p, *file_hash);
            put_u32(&mut buf, p + 4, *folder_hash);
            put_u32(&mut buf, p + 8, *offset);
            k += 1;
        }
        let q = folder_seg + i * 16;
        put_u32(&mut buf, q, *folder_hash);
        put_u32(&mut buf, q + 4, list_start as u32);
        put_u32(&mut buf, q + 8, (files.len() * 16) as u32);
    }
    buf
}

/// Places a default file holding `text` in one stored block at `at`.
fn place_default(dat: &mut Vec<u8>, at: usize, text: &[u8]) {
    let hl = 0x20usize;
    let block_len = 16 + text.len();
    if dat.len() < at + hl + block_len {
        dat.resize(at + hl + block_len, 0);
    }
    put_u32(dat, at, hl as u32);
    put_u32(dat, at + 4, 2);
    put_u32(dat, at + 8, text.len() as u32);
    put_u32(dat, at + 20, 1);
    put_u32(dat, at + 24, 0);
    put_u16(dat, at + 28, block_len as u16);
    let b = at + hl;
    put_u32(dat, b, 16);
    put_u32(dat, b + 8, 32000);
    put_u32(dat, b + 12, text.len() as u32);
    dat[b + 16..b + 16 + text.len()].copy_from_slice(text);
}

/// Data offset of a file at byte `at` of `.dat` file `dat_index`.
fn data_offset(at: usize, dat_index: u32) -> u32 {
    (at / 8) as u32 | (dat_index << 1)
}

fn sample() -> SqPackArchive {
    let mut dat0 = vec![0u8; 0x100];
    let mut dat1 = vec![0u8; 0x80];
    place_default(&mut dat0, 0x100, b"first file");
    place_default(&mut dat1, 0x80, b"second file");
    place_default(&mut dat1, 0x200, b"third");
    let index = build_index(
        &[
            (0x100, vec![(0x1, data_offset(0x100, 0)), (0x2, data_offset(0x80, 1))]),
            (0x200, vec![(0x3, data_offset(0x200, 1)), (0x4, data_offset(0x80, 5))]),
        ],
        2,
    );
    SqPackArchive::from_raw(index, vec![dat0, dat1])
}

#[test]
fn archive_from_raw_keeps_parts() {
    let archive = sample();
    assert_eq!(archive.data.len(), 2);
    assert_eq!(archive.index.dat_count(), 2);
}

#[test]
fn archive_folders_and_files() {
    let archive = sample();
    assert_eq!(archive.folders(), vec![0x100, 0x200]);
    assert_eq!(archive.files(0x200), Ok(vec![0x3, 0x4]));
    assert_eq!(archive.files(0x300), Err(SqPackReaderError::NoSuchFolder));
}

#[test]
fn archive_read_file() {
    let archive = sample();
    assert_eq!(archive.read_file(0x100, 0x1), Ok(b"first file".to_vec()));
    assert_eq!(archive.read_file(0x100, 0x2), Ok(b"second file".to_vec()));
    assert_eq!(archive.read_file(0x200, 0x3), Ok(b"third".to_vec()));
}

#[test]
fn archive_read_raw() {
    let archive = sample();
    let raw = archive.read_raw(0x100, 0x2).unwrap();
    assert_eq!(raw.uncompressed_size, 11);
    assert_eq!(raw.blocks.len(), 1);
}

#[test]
fn archive_read_errors() {
    let archive = sample();
    assert_eq!(archive.read_file(0x999, 0x1), Err(SqPackReaderError::NoSuchFolder));
    assert_eq!(archive.read_file(0x100, 0x9), Err(SqPackReaderError::NoSuchFile));
    assert_eq!(
        archive.read_file(0x200, 0x4),
        Err(SqPackReaderError::ReadError("no such data file".to_string()))
    );
}

#[test]
fn archive_read_after_write_offset() {
    let mut archive = sample();
    archive.index.write_offset(0x100, 0x1, data_offset(0x200, 1)).unwrap();
    assert_eq!(archive.read_file(0x100, 0x1), Ok(b"third".to_vec()));
    assert_eq!(archive.read_file(0x100, 0x2), Ok(b"second file".to_vec()));
}

#[test]
fn archive_index_round_trip() {
    let index = build_index(&[(0x5, vec![(0x6, 0x10)])], 1);
    let archive = SqPackArchive::from_raw(index.clone(), vec![vec![]]);
    assert_eq!(archive.index.data(), &index[..]);
    let again = SqPackIndex::from_raw(archive.index.data().to_vec());
    assert_eq!(again.find_offset(0x5, 0x6), Ok(0x10));
}

#[test]
fn archive_undecodable_block() {
    let mut dat0 = vec![0u8; 0x40];
    place_default(&mut dat0, 0, b"abcd");
    let b = 0x20;
    put_u32(&mut dat0, b + 8, 4);
    dat0[b + 16..b + 20].copy_from_slice(&[0xff, 0xff, 0xff, 0xff]);
    let index = build_index(&[(0x1, vec![(0x2, data_offset(0, 0))])], 1);
    let archive = SqPackArchive::from_raw(index, vec![dat0]);
    assert!(archive.read_raw(0x1, 0x2).is_ok());
    assert_eq!(
        archive.read_file(0x1, 0x2),
        Err(SqPackReaderError::ReadError("a block does not decode".to_string()))
    );
}
