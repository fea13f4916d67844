use sqpack::{SqPackIndex, SqPackReaderError};

fn put_u32(buf: &mut Vec<u8>, pos: usize, v: u32) {
    buf[pos..pos + 4].copy_from_slice(&v.to_le_bytes());
}

/// An index with a 0x400-byte SqPack header, a 0x400-byte index header, the file
/// segment at 0x800 and the folder segment after it.
fn build_index(folders: &[(u32, Vec<(u32, u32)>)], dat_count: u32) -> Vec<u8> {
    let file_count: usize = folders.iter().map(|f| f.1.len()).sum();
    let file_seg = 0x800usize;
    let folder_seg = file_seg + file_count * 16;
    let mut buf = vec![0u8; folder_seg + folders.len() * 16];
    buf[0..6].copy_from_slice(b"SqPack");
    put_u32(&mut buf, 12, 0x400);
    put_u32(&mut buf, 0x400, 0x400);
    put_u32(&mut buf, 0x404, file_seg as u32);
    put_u32(&mut buf, 0x408, (file_count * 16) as u32);
    put_u32(&mut buf, 0x44C, dat_count);
    put_u32(&mut buf, 0x4E0, folder_seg as u32);
    put_u32(&mut buf, 0x4E4, (folders.len() * 16) as u32);
    let mut k = 0usize;
    for (i, (folder_hash, files)) in folders.iter().enumerate() {
        let list_start = file_seg + k * 16;
        for (file_hash, offset) in files {
            let p = file_seg + k * 16;
            put_u32(&mut buf, p, *file_hash);
            put_u32(&mut buf, p + 4, *folder_hash);
            put_u32(&mut buf, p + 8, *offset);
            k += 1;
        }
        let q = folder_seg + i * 16;
        put_u32(&mut buf, q, *folder_hash);
        put_u32(&mut buf, q + 4, list_start as u32);
        put_u32(&mut buf, q + 8, (files.len() * 16) as u32);
    }
    buf
}

fn sample() -> Vec<u8> {
    build_index(
        &[
            (0x10, vec![(0x1, 0x100), (0x5, 0x210), (0x9, 0x322)]),
            (0x20, vec![]),
            (0x30, vec![(0x2, 0x4000), (0x7, 0x5002)]),
        ],
        3,
    )
}

#[test]
fn index_from_raw_keeps_the_bytes() {
    let raw = sample();
    let index = SqPackIndex::from_raw(raw.clone());
    assert_eq!(index.data(), &raw[..]);
}

#[test]
fn index_bounds_checks() {
    let index = SqPackIndex::from_raw(sample());
    assert!(index.is_header_in_bounds());
    assert!(index.are_folders_in_bounds());
    assert!(index.can_look_up(0x10));
    assert!(index.can_look_up(0x20));
    assert!(index.can_look_up(0x30));
    assert!(index.can_look_up(0x99));
}

#[test]
fn index_truncated_bounds_checks() {
    let mut raw = sample();
    raw.truncate(raw.len() - 1);
    let index = SqPackIndex::from_raw(raw);
    assert!(index.is_header_in_bounds());
    assert!(!index.are_folders_in_bounds());
    assert!(!index.can_look_up(0x10));
    let tiny = SqPackIndex::from_raw(vec![0u8; 10]);
    assert!(!tiny.is_header_in_bounds());
    assert!(!tiny.are_folders_in_bounds());
    assert!(!tiny.can_look_up(0x10));
    let mut short_header = vec![0u8; 0x4E7];
    put_u32(&mut short_header, 12, 0x400);
    assert!(!SqPackIndex::from_raw(short_header).is_header_in_bounds());
}

#[test]
fn index_file_list_out_of_bounds_only_blocks_its_folder() {
    let mut raw = sample();
    let folder_seg = 0x800 + 5 * 16;
    put_u32(&mut raw, folder_seg + 8, 0x10000);
    let index = SqPackIndex::from_raw(raw);
    assert!(!index.can_look_up(0x10));
    assert!(index.can_look_up(0x30));
    assert_eq!(index.find_offset(0x30, 0x7), Ok(0x5002));
    assert_eq!(index.files(0x30), Ok(vec![0x2, 0x7]));
    assert_eq!(index.folders(), vec![0x10, 0x20, 0x30]);
}

#[test]
fn index_file_list_before_file_segment_blocks_its_folder() {
    let mut raw = sample();
    let folder_seg = 0x800 + 5 * 16;
    put_u32(&mut raw, folder_seg + 4, 0x7f0);
    let index = SqPackIndex::from_raw(raw);
    assert!(!index.can_look_up(0x10));
    assert!(index.can_look_up(0x30));
}

#[test]
fn index_dat_count() {
    let index = SqPackIndex::from_raw(sample());
    assert_eq!(index.dat_count(), 3);
}

#[test]
fn index_folders() {
    let index = SqPackIndex::from_raw(sample());
    assert_eq!(index.folders(), vec![0x10, 0x20, 0x30]);
}

#[test]
fn index_files() {
    let index = SqPackIndex::from_raw(sample());
    assert_eq!(index.files(0x10), Ok(vec![0x1, 0x5, 0x9]));
    assert_eq!(index.files(0x20), Ok(vec![]));
    assert_eq!(index.files(0x30), Ok(vec![0x2, 0x7]));
    assert_eq!(index.files(0x25), Err(SqPackReaderError::NoSuchFolder));
}

#[test]
fn index_find_offset() {
    let index = SqPackIndex::from_raw(sample());
    assert_eq!(index.find_offset(0x10, 0x1), Ok(0x100));
    assert_eq!(index.find_offset(0x10, 0x5), Ok(0x210));
    assert_eq!(index.find_offset(0x10, 0x9), Ok(0x322));
    assert_eq!(index.find_offset(0x30, 0x7), Ok(0x5002));
}

#[test]
fn index_find_offset_errors() {
    let index = SqPackIndex::from_raw(sample());
    assert_eq!(index.find_offset(0x11, 0x1), Err(SqPackReaderError::NoSuchFolder));
    assert_eq!(index.find_offset(0x10, 0x2), Err(SqPackReaderError::NoSuchFile));
    assert_eq!(index.find_offset(0x20, 0x1), Err(SqPackReaderError::NoSuchFile));
}

#[test]
fn index_write_offset_then_find() {
    let mut index = SqPackIndex::from_raw(sample());
    assert_eq!(index.write_offset(0x10, 0x5, 0xabcd0), Ok(()));
    assert_eq!(index.find_offset(0x10, 0x5), Ok(0xabcd0));
    assert_eq!(index.find_offset(0x10, 0x1), Ok(0x100));
    assert_eq!(index.find_offset(0x30, 0x7), Ok(0x5002));
    assert_eq!(index.folders(), vec![0x10, 0x20, 0x30]);
    assert_eq!(index.files(0x10), Ok(vec![0x1, 0x5, 0x9]));
    assert_eq!(index.dat_count(), 3);
    assert!(index.can_look_up(0x10));
}

#[test]
fn index_write_offset_changes_only_that_field() {
    let raw = sample();
    let mut index = SqPackIndex::from_raw(raw.clone());
    index.write_offset(0x30, 0x2, 0x11223344).unwrap();
    let changed: Vec<usize> = (0..raw.len()).filter(|&i| raw[i] != index.data()[i]).collect();
    let entry = 0x800 + 3 * 16 + 8;
    assert!(changed.iter().all(|&i| i >= entry && i < entry + 4));
    assert_eq!(&index.data()[entry..entry + 4], &0x11223344u32.to_le_bytes());
}

#[test]
fn index_write_offset_missing_leaves_index() {
    let raw = sample();
    let mut index = SqPackIndex::from_raw(raw.clone());
    assert_eq!(index.write_offset(0x99, 0x1, 7), Err(SqPackReaderError::NoSuchFolder));
    assert_eq!(index.write_offset(0x10, 0x4, 7), Err(SqPackReaderError::NoSuchFile));
    assert_eq!(index.data(), &raw[..]);
}

#[test]
fn index_write_dat_count_then_read() {
    let mut index = SqPackIndex::from_raw(sample());
    index.write_dat_count(7);
    assert_eq!(index.dat_count(), 7);
    assert_eq!(index.find_offset(0x30, 0x2), Ok(0x4000));
    assert_eq!(index.folders(), vec![0x10, 0x20, 0x30]);
    assert_eq!(&index.data()[0x44C..0x450], &[7, 0, 0, 0]);
}

#[test]
fn index_found_file_is_listed() {
    let index = SqPackIndex::from_raw(sample());
    for folder in index.folders() {
        for file in index.files(folder).unwrap() {
            assert!(index.find_offset(folder, file).is_ok());
        }
    }
}

#[test]
fn index_many_folders_binary_search() {
    let folders: Vec<(u32, Vec<(u32, u32)>)> = (0..50u32)
        .map(|i| (i * 7 + 3, (0..(i % 5)).map(|j| (j * 11 + 1, i * 100 + j)).collect()))
        .collect();
    let index = SqPackIndex::from_raw(build_index(&folders, 1));
    assert!(index.are_folders_in_bounds());
    for (folder, files) in &folders {
        for (file, offset) in files {
            assert_eq!(index.find_offset(*folder, *file), Ok(*offset));
        }
        assert_eq!(index.find_offset(*folder, 1000), Err(SqPackReaderError::NoSuchFile));
    }
    assert_eq!(index.find_offset(4, 1), Err(SqPackReaderError::NoSuchFolder));
}
