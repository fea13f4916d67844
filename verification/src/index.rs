//! The `.index` file of an archive: a table of folders, each with a sorted list
//! of files, that maps a folder hash and a file hash to where the file is stored.

use vstd::prelude::*;

use crate::codec::{le32, put_le32, read_u32_le, write_u32_le};
use crate::error::{Result, SqPackReaderError};

verus! {

/// Where the SqPack header records its own length (which is where the index header starts).
pub const SQPACK_HEADER_LENGTH_POS: usize = 12;

/// Within the index header: the offset of the file segment.
pub const FILE_SEGMENT_OFFSET_POS: usize = 0x04;

/// Within the index header: the number of `.dat` files.
pub const DAT_COUNT_POS: usize = 0x4C;

/// Within the index header: the offset of the folder segment.
pub const FOLDER_SEGMENT_OFFSET_POS: usize = 0xE0;

/// Within the index header: the size of the folder segment.
pub const FOLDER_SEGMENT_SIZE_POS: usize = 0xE4;

/// The index header holds the fields above within this many bytes.
pub const INDEX_HEADER_FIELDS_END: usize = 0xE8;

/// The size of an entry of the folder segment and of the file segment.
pub const SEGMENT_ENTRY_SIZE: usize = 16;

/// Where the index header starts.
pub open spec fn index_header_pos(d: Seq<u8>) -> int {
    le32(d, SQPACK_HEADER_LENGTH_POS as int) as int
}

/// The SqPack header and the fields of the index header lie within the data.
pub open spec fn header_in_bounds(d: Seq<u8>) -> bool {
    &&& SQPACK_HEADER_LENGTH_POS + 4 <= d.len()
    &&& index_header_pos(d) + INDEX_HEADER_FIELDS_END <= d.len()
}

/// The number of `.dat` files that the index header records.
pub open spec fn spec_dat_count(d: Seq<u8>) -> u32 {
    le32(d, index_header_pos(d) + DAT_COUNT_POS)
}

/// Where the file segment starts.
pub open spec fn file_segment_offset(d: Seq<u8>) -> int {
    le32(d, index_header_pos(d) + FILE_SEGMENT_OFFSET_POS) as int
}

/// Where the folder segment starts.
pub open spec fn folder_segment_offset(d: Seq<u8>) -> int {
    le32(d, index_header_pos(d) + FOLDER_SEGMENT_OFFSET_POS) as int
}

/// The number of folders: the folder segment's size over the size of an entry.
pub open spec fn folder_count(d: Seq<u8>) -> int {
    le32(d, index_header_pos(d) + FOLDER_SEGMENT_SIZE_POS) as int / SEGMENT_ENTRY_SIZE as int
}

/// Where folder entry `i` starts.
pub open spec fn folder_pos(d: Seq<u8>, i: int) -> int {
    folder_segment_offset(d) + SEGMENT_ENTRY_SIZE * i
}

/// The hash of folder `i`.
pub open spec fn folder_hash_at(d: Seq<u8>, i: int) -> u32 {
    le32(d, folder_pos(d, i))
}

/// Where the file list of folder `i` starts, as an offset in the data.
pub open spec fn file_list_offset(d: Seq<u8>, i: int) -> int {
    le32(d, folder_pos(d, i) + 4) as int
}

/// The size in bytes of the file list of folder `i`.
pub open spec fn file_list_size(d: Seq<u8>, i: int) -> int {
    le32(d, folder_pos(d, i) + 8) as int
}

/// The first file entry of folder `i`, counted from the start of the file segment.
pub open spec fn files_begin(d: Seq<u8>, i: int) -> int {
    (file_list_offset(d, i) - file_segment_offset(d)) / SEGMENT_ENTRY_SIZE as int
}

/// One past the last file entry of folder `i`.
pub open spec fn files_end(d: Seq<u8>, i: int) -> int {
    files_begin(d, i) + file_list_size(d, i) / SEGMENT_ENTRY_SIZE as int
}

/// Where file entry `k` starts.
pub open spec fn file_pos(d: Seq<u8>, k: int) -> int {
    file_segment_offset(d) + SEGMENT_ENTRY_SIZE * k
}

/// The hash of file entry `k`.
pub open spec fn file_hash_at(d: Seq<u8>, k: int) -> u32 {
    le32(d, file_pos(d, k))
}

/// Where the data offset of file entry `k` is stored.
pub open spec fn file_data_offset_pos(d: Seq<u8>, k: int) -> int {
    file_pos(d, k) + 8
}

/// The data offset of file entry `k`: which `.dat` file holds it, and where.
pub open spec fn file_data_offset(d: Seq<u8>, k: int) -> u32 {
    le32(d, file_data_offset_pos(d, k))
}

/// The header and the folder segment lie within the data.
pub open spec fn folders_in_bounds(d: Seq<u8>) -> bool {
    &&& header_in_bounds(d)
    &&& folder_pos(d, folder_count(d)) <= d.len()
}

/// The file list of folder `i` starts at or after the file segment and lies within the data.
pub open spec fn file_list_in_bounds(d: Seq<u8>, i: int) -> bool {
    &&& file_segment_offset(d) <= file_list_offset(d, i)
    &&& file_pos(d, files_end(d, i)) <= d.len()
}

/// The file list of every folder with hash `f` lies within the data.
pub open spec fn lists_in_bounds_for(d: Seq<u8>, f: u32) -> bool {
    forall|i: int|
        0 <= i < folder_count(d) && #[trigger] folder_hash_at(d, i) == f ==> file_list_in_bounds(d, i)
}

/// What looking up files of folder `f` reads lies within the data: the header,
/// the folder segment, and the file list of each folder with hash `f`.
pub open spec fn lookup_in_bounds(d: Seq<u8>, f: u32) -> bool {
    &&& folders_in_bounds(d)
    &&& lists_in_bounds_for(d, f)
}

/// The hashes of the folders, in the order of the folder segment.
pub open spec fn spec_folders(d: Seq<u8>) -> Seq<u32> {
    Seq::new(folder_count(d) as nat, |i: int| folder_hash_at(d, i))
}

/// The hashes of the files of folder `i`, in the order of its list.
pub open spec fn folder_file_hashes(d: Seq<u8>, i: int) -> Seq<u32> {
    Seq::new(
        (files_end(d, i) - files_begin(d, i)) as nat,
        |j: int| file_hash_at(d, files_begin(d, i) + j),
    )
}

/// Some folder has hash `f`.
pub open spec fn has_folder(d: Seq<u8>, f: u32) -> bool {
    exists|i: int| 0 <= i < folder_count(d) && #[trigger] folder_hash_at(d, i) == f
}

/// File entry `k` belongs to folder `i`, whose hash is `f`, and has hash `fi`.
pub open spec fn entry_of(d: Seq<u8>, f: u32, fi: u32, i: int, k: int) -> bool {
    &&& 0 <= i < folder_count(d)
    &&& folder_hash_at(d, i) == f
    &&& files_begin(d, i) <= k < files_end(d, i)
    &&& file_hash_at(d, k) == fi
}

/// File entry `k` is one of a folder with hash `f` and has hash `fi`.
pub open spec fn found_entry(d: Seq<u8>, f: u32, fi: u32, k: int) -> bool {
    exists|i: int| #[trigger] entry_of(d, f, fi, i, k)
}

/// The folder hashes never decrease.
pub open spec fn folders_sorted(d: Seq<u8>) -> bool {
    forall|i: int, j: int|
        0 <= i < j < folder_count(d) ==> #[trigger] folder_hash_at(d, i) <= #[trigger] folder_hash_at(d, j)
}

/// The file hashes of folder `i` never decrease.
pub open spec fn files_sorted(d: Seq<u8>, i: int) -> bool {
    forall|j: int, k: int|
        files_begin(d, i) <= j < k < files_end(d, i) ==> #[trigger] file_hash_at(d, j) <= #[trigger] file_hash_at(
            d,
            k,
        )
}

/// The file hashes of folder `i` increase.
pub open spec fn files_strictly_sorted(d: Seq<u8>, i: int) -> bool {
    forall|j: int, k: int|
        files_begin(d, i) <= j < k < files_end(d, i) ==> #[trigger] file_hash_at(d, j) < #[trigger] file_hash_at(
            d,
            k,
        )
}

/// The folder hashes increase, and so do the file hashes of each folder whose
/// list lies within the data: no hash occurs twice in one table that can be read.
pub open spec fn index_strictly_sorted(d: Seq<u8>) -> bool {
    &&& forall|i: int, j: int|
        0 <= i < j < folder_count(d) ==> #[trigger] folder_hash_at(d, i) < #[trigger] folder_hash_at(d, j)
    &&& forall|i: int|
        0 <= i < folder_count(d) && file_list_in_bounds(d, i) ==> #[trigger] files_strictly_sorted(d, i)
}

/// Why a lookup of `fi` in folder `f` may fail: no folder has hash `f` (as far
/// as a search in a sorted table can tell), or a folder with hash `f` lists no
/// file with hash `fi` (as far as a search in a sorted list can tell).
pub open spec fn lookup_failure(d: Seq<u8>, f: u32, fi: u32, e: SqPackReaderError) -> bool {
    ||| e == SqPackReaderError::NoSuchFolder && (folders_sorted(d) ==> !has_folder(d, f))
    ||| e == SqPackReaderError::NoSuchFile && exists|i: int|
        0 <= i < folder_count(d) && #[trigger] folder_hash_at(d, i) == f && (files_sorted(d, i) ==> forall|
            k: int,
        |
            files_begin(d, i) <= k < files_end(d, i) ==> #[trigger] file_hash_at(d, k) != fi)
}

/// The files of folder `f`, where the folder hashes are unique.
pub open spec fn spec_files(d: Seq<u8>, f: u32) -> core::result::Result<Seq<u32>, SqPackReaderError> {
    if has_folder(d, f) {
        let i = choose|i: int| 0 <= i < folder_count(d) && #[trigger] folder_hash_at(d, i) == f;
        Ok(folder_file_hashes(d, i))
    } else {
        Err(SqPackReaderError::NoSuchFolder)
    }
}

/// The data offset of file `fi` of folder `f`, where the hashes are unique.
pub open spec fn spec_find_offset(d: Seq<u8>, f: u32, fi: u32) -> core::result::Result<u32, SqPackReaderError> {
    if !has_folder(d, f) {
        Err(SqPackReaderError::NoSuchFolder)
    } else if exists|k: int| found_entry(d, f, fi, k) {
        let k = choose|k: int| found_entry(d, f, fi, k);
        Ok(file_data_offset(d, k))
    } else {
        Err(SqPackReaderError::NoSuchFile)
    }
}

/// A data offset of file `fi` of folder `f`: that of some entry found for them.
pub open spec fn found_offset(d: Seq<u8>, f: u32, fi: u32, o: u32) -> bool {
    exists|k: int| found_entry(d, f, fi, k) && #[trigger] file_data_offset(d, k) == o
}

/// What listing the files of folder `f` may give: the files of a folder with
/// hash `f`, or `NoSuchFolder` where the search finds none (always where there is
/// none; never where the folders are sorted and there is one); exactly
/// `spec_files` where the hashes are unique.
pub open spec fn files_result(d: Seq<u8>, f: u32, r: Result<Vec<u32>>) -> bool {
    &&& r matches Ok(v) ==> exists|i: int|
        0 <= i < folder_count(d) && #[trigger] folder_hash_at(d, i) == f && v@ == folder_file_hashes(d, i)
    &&& r matches Err(e) ==> e == SqPackReaderError::NoSuchFolder && (folders_sorted(d) ==> !has_folder(d, f))
    &&& !has_folder(d, f) ==> r is Err
    &&& index_strictly_sorted(d) ==> match r {
        Ok(v) => spec_files(d, f) == Ok::<Seq<u32>, SqPackReaderError>(v@),
        Err(e) => spec_files(d, f) == Err::<Seq<u32>, SqPackReaderError>(e),
    }
}

/// What looking up file `fi` of folder `f` may give: the data offset of an entry
/// found for them, or an error that `lookup_failure` allows (`NoSuchFolder`
/// always where no folder has hash `f`); exactly `spec_find_offset` where the
/// hashes are unique.
pub open spec fn offset_result(d: Seq<u8>, f: u32, fi: u32, r: Result<u32>) -> bool {
    &&& r matches Ok(o) ==> found_offset(d, f, fi, o)
    &&& r matches Err(e) ==> lookup_failure(d, f, fi, e)
    &&& !has_folder(d, f) ==> r == Err::<u32, SqPackReaderError>(SqPackReaderError::NoSuchFolder)
    &&& index_strictly_sorted(d) ==> r == spec_find_offset(d, f, fi)
}

/// The hash of entry `j` of a table of 16-byte entries starting at `base`.
pub open spec fn entry_key(d: Seq<u8>, base: int, j: int) -> u32 {
    le32(d, base + SEGMENT_ENTRY_SIZE * j)
}

/// The hashes of entries `lo..hi` of such a table never decrease.
pub open spec fn keys_sorted(d: Seq<u8>, base: int, lo: int, hi: int) -> bool {
    forall|a: int, b: int|
        lo <= a < b < hi ==> #[trigger] entry_key(d, base, a) <= #[trigger] entry_key(d, base, b)
}

/// Searches entries `lo..hi` of the table at `base` for one whose hash is `key`,
/// halving the range each step.
fn search_entries(d: &[u8], base: usize, lo: usize, hi: usize, key: u32) -> (r: Option<usize>)
    requires
        lo <= hi,
        base + SEGMENT_ENTRY_SIZE * hi <= d@.len(),
    ensures
        r matches Some(j) ==> lo <= j < hi && entry_key(d@, base as int, j as int) == key,
        r is None ==> (keys_sorted(d@, base as int, lo as int, hi as int) ==> forall|j: int|
            lo <= j < hi ==> #[trigger] entry_key(d@, base as int, j) != key),
{
    let len = d.len();
    let mut l = lo;
    let mut h = hi;
    while l < h
        invariant
            lo <= l <= h <= hi,
            len == d@.len(),
            base + SEGMENT_ENTRY_SIZE * hi <= d@.len(),
            keys_sorted(d@, base as int, lo as int, hi as int) ==> forall|j: int|
                lo <= j < l ==> #[trigger] entry_key(d@, base as int, j) < key,
            keys_sorted(d@, base as int, lo as int, hi as int) ==> forall|j: int|
                h <= j < hi ==> #[trigger] entry_key(d@, base as int, j) > key,
        decreases h - l,
    {
        let mid = l + (h - l) / 2;
        let v = read_u32_le(d, base + SEGMENT_ENTRY_SIZE * mid);
        assert(v == entry_key(d@, base as int, mid as int));
        if v == key {
            return Some(mid);
        } else if v < key {
            l = mid + 1;
        } else {
            h = mid;
        }
    }
    None
}

/// No two folders share a hash, and no two files of one folder: a file entry
/// found for a pair of hashes is the only one.
pub proof fn lemma_found_entry_unique(d: Seq<u8>, f: u32, fi: u32, k1: int, k2: int)
    requires
        index_strictly_sorted(d),
        lists_in_bounds_for(d, f),
        found_entry(d, f, fi, k1),
        found_entry(d, f, fi, k2),
    ensures
        k1 == k2,
{
    let i1 = choose|i: int| #[trigger] entry_of(d, f, fi, i, k1);
    let i2 = choose|i: int| #[trigger] entry_of(d, f, fi, i, k2);
    lemma_folder_unique(d, i1, i2);
    assert(file_list_in_bounds(d, i1));
    assert(files_strictly_sorted(d, i1));
    if k1 < k2 {
        assert(file_hash_at(d, k1) < file_hash_at(d, k2));
    } else if k2 < k1 {
        assert(file_hash_at(d, k2) < file_hash_at(d, k1));
    }
}

/// No two folders share a hash.
pub proof fn lemma_folder_unique(d: Seq<u8>, i1: int, i2: int)
    requires
        index_strictly_sorted(d),
        0 <= i1 < folder_count(d),
        0 <= i2 < folder_count(d),
        folder_hash_at(d, i1) == folder_hash_at(d, i2),
    ensures
        i1 == i2,
{
    if i1 < i2 {
        assert(folder_hash_at(d, i1) < folder_hash_at(d, i2));
    } else if i2 < i1 {
        assert(folder_hash_at(d, i2) < folder_hash_at(d, i1));
    }
}

/// Hashes that increase never decrease.
pub proof fn lemma_strict_is_sorted(d: Seq<u8>)
    requires
        index_strictly_sorted(d),
    ensures
        folders_sorted(d),
        forall|i: int| 0 <= i < folder_count(d) && file_list_in_bounds(d, i) ==> #[trigger] files_sorted(d, i),
{
    assert forall|i: int, j: int| 0 <= i < j < folder_count(d) implies #[trigger] folder_hash_at(d, i)
        <= #[trigger] folder_hash_at(d, j) by {
        assert(folder_hash_at(d, i) < folder_hash_at(d, j));
    }
    assert forall|i: int| 0 <= i < folder_count(d) && file_list_in_bounds(d, i) implies #[trigger] files_sorted(d, i) by {
        assert(files_strictly_sorted(d, i));
    }
}

/// The raw bytes of an index file.
pub struct SqPackIndex {
    data: Vec<u8>,
}

impl View for SqPackIndex {
    type V = Seq<u8>;

    closed spec fn view(&self) -> Seq<u8> {
        self.data@
    }
}

impl SqPackIndex {
    /// Takes the bytes of an index file.
    pub fn from_raw(raw: Vec<u8>) -> (r: Self)
        ensures
            r@ == raw@,
    {
        SqPackIndex { data: raw }
    }

    /// The bytes of the index, as they stand after any writes.
    pub fn data(&self) -> (r: &[u8])
        ensures
            r@ == self@,
    {
        self.data.as_slice()
    }

    /// Where the index header starts.
    fn index_header_pos(&self) -> (r: usize)
        requires
            header_in_bounds(self@),
        ensures
            r == index_header_pos(self@),
            r + INDEX_HEADER_FIELDS_END <= self@.len() <= usize::MAX,
    {
        let len = self.data.len();
        assert(len == self@.len());
        read_u32_le(self.data.as_slice(), SQPACK_HEADER_LENGTH_POS) as usize
    }

    /// The number of `.dat` files of the archive.
    pub fn dat_count(&self) -> (r: u32)
        requires
            header_in_bounds(self@),
        ensures
            r == spec_dat_count(self@),
    {
        let pos = self.index_header_pos();
        read_u32_le(self.data.as_slice(), pos + DAT_COUNT_POS)
    }

    /// Records a new number of `.dat` files.
    pub fn write_dat_count(&mut self, new_dat_count: u32)
        requires
            header_in_bounds(old(self)@),
        ensures
            final(self)@ == put_le32(old(self)@, index_header_pos(old(self)@) + DAT_COUNT_POS, new_dat_count),
    {
        let pos = self.index_header_pos();
        write_u32_le(&mut self.data, pos + DAT_COUNT_POS, new_dat_count);
    }

    /// Where the folder segment starts, and how many folders it holds.
    fn get_folder_segments(&self) -> (r: (usize, usize))
        requires
            folders_in_bounds(self@),
        ensures
            r.0 == folder_segment_offset(self@),
            r.1 == folder_count(self@),
            r.0 + SEGMENT_ENTRY_SIZE * r.1 <= self@.len() <= usize::MAX,
    {
        let pos = self.index_header_pos();
        let offset = read_u32_le(self.data.as_slice(), pos + FOLDER_SEGMENT_OFFSET_POS) as usize;
        let size = read_u32_le(self.data.as_slice(), pos + FOLDER_SEGMENT_SIZE_POS) as usize;
        (offset, size / SEGMENT_ENTRY_SIZE)
    }

    /// Where the file segment starts, and the range of entries in it that make up
    /// the file list of folder `i`.
    fn get_file_segments(&self, i: usize) -> (r: (usize, usize, usize))
        requires
            folders_in_bounds(self@),
            i < folder_count(self@),
            file_list_in_bounds(self@, i as int),
        ensures
            r.0 == file_segment_offset(self@),
            r.1 == files_begin(self@, i as int),
            r.2 == files_end(self@, i as int),
            r.1 <= r.2,
            r.0 + SEGMENT_ENTRY_SIZE * r.2 <= self@.len() <= usize::MAX,
    {
        let pos = self.index_header_pos();
        let (folders, _) = self.get_folder_segments();
        let d = self.data.as_slice();
        let file_offset = read_u32_le(d, pos + FILE_SEGMENT_OFFSET_POS);
        let entry = folders + SEGMENT_ENTRY_SIZE * i;
        let list_offset = read_u32_le(d, entry + 4);
        let list_size = read_u32_le(d, entry + 8);
        let begin = ((list_offset - file_offset) as usize) / SEGMENT_ENTRY_SIZE;
        let end = begin + (list_size as usize) / SEGMENT_ENTRY_SIZE;
        (file_offset as usize, begin, end)
    }

    /// The hashes of all folders, in the order of the folder segment.
    pub fn folders(&self) -> (r: Vec<u32>)
        requires
            folders_in_bounds(self@),
        ensures
            r@ == spec_folders(self@),
    {
        let (base, count) = self.get_folder_segments();
        let d = self.data.as_slice();
        let len = d.len();
        let mut r: Vec<u32> = Vec::new();
        for i in 0..count
            invariant
                len == d@.len(),
                base == folder_segment_offset(self@),
                count == folder_count(self@),
                base + SEGMENT_ENTRY_SIZE * count <= self@.len(),
                d@ == self@,
                r@ =~= spec_folders(self@).take(i as int),
        {
            let h = read_u32_le(d, base + SEGMENT_ENTRY_SIZE * i);
            r.push(h);
        }
        r
    }

    /// Looks for a folder with hash `folder_hash`, by binary search.
    fn find_folder(&self, folder_hash: u32) -> (r: Result<usize>)
        requires
            folders_in_bounds(self@),
        ensures
            r matches Ok(i) ==> 0 <= i < folder_count(self@) && folder_hash_at(self@, i as int) == folder_hash,
            r matches Err(e) ==> e == SqPackReaderError::NoSuchFolder && (folders_sorted(self@) ==> !has_folder(self@, folder_hash)),
            !has_folder(self@, folder_hash) ==> r is Err,
    {
        let (base, count) = self.get_folder_segments();
        let d = self.data.as_slice();
        proof {
            assert forall|a: int, b: int| 0 <= a < b < count && folders_sorted(self@) implies
                #[trigger] entry_key(d@, base as int, a) <= #[trigger] entry_key(d@, base as int, b) by {
                assert(folder_hash_at(self@, a) <= folder_hash_at(self@, b));
            }
        }
        match search_entries(d, base, 0, count, folder_hash) {
            Some(i) => {
                assert(folder_hash_at(self@, i as int) == folder_hash);
                Ok(i)
            },
            None => {
                proof {
                    if folders_sorted(self@) && has_folder(self@, folder_hash) {
                        let i = choose|i: int| 0 <= i < folder_count(self@) && #[trigger] folder_hash_at(self@, i) == folder_hash;
                        assert(entry_key(d@, base as int, i) == folder_hash);
                    }
                }
                Err(SqPackReaderError::NoSuchFolder)
            },
        }
    }

    /// The hashes of the files of the folder with hash `folder_hash`, in the order
    /// of its list; `NoSuchFolder` if the search finds no such folder.
    pub fn files(&self, folder_hash: u32) -> (r: Result<Vec<u32>>)
        requires
            lookup_in_bounds(self@, folder_hash),
        ensures
            files_result(self@, folder_hash, r),
    {
        let i = match self.find_folder(folder_hash) {
            Ok(i) => i,
            Err(e) => {
                proof {
                    if index_strictly_sorted(self@) {
                        lemma_strict_is_sorted(self@);
                    }
                }
                return Err(e);
            },
        };
        let (base, begin, end) = self.get_file_segments(i);
        let d = self.data.as_slice();
        let len = d.len();
        let mut v: Vec<u32> = Vec::new();
        for k in begin..end
            invariant
                len == d@.len(),
                d@ == self@,
                i < folder_count(self@),
                base == file_segment_offset(self@),
                begin == files_begin(self@, i as int),
                end == files_end(self@, i as int),
                base + SEGMENT_ENTRY_SIZE * end <= len,
                v@ =~= folder_file_hashes(self@, i as int).take(k - begin),
        {
            let h = read_u32_le(d, base + SEGMENT_ENTRY_SIZE * k);
            v.push(h);
        }
        proof {
            assert(v@ =~= folder_file_hashes(self@, i as int));
            if index_strictly_sorted(self@) {
                let j = choose|j: int| 0 <= j < folder_count(self@) && #[trigger] folder_hash_at(self@, j) == folder_hash;
                lemma_folder_unique(self@, i as int, j);
            }
        }
        Ok(v)
    }

    /// Looks for the file entry with hash `file_hash` in the list of the folder
    /// with hash `folder_hash`, by binary search in both tables. Gives the entry's
    /// number and where it starts.
    fn find_file_segment(&self, folder_hash: u32, file_hash: u32) -> (r: Result<(usize, usize)>)
        requires
            lookup_in_bounds(self@, folder_hash),
        ensures
            r matches Ok((k, pos)) ==> found_entry(self@, folder_hash, file_hash, k as int) && pos
                == file_pos(self@, k as int) && pos + SEGMENT_ENTRY_SIZE <= self@.len() <= usize::MAX,
            r matches Err(e) ==> lookup_failure(self@, folder_hash, file_hash, e),
            !has_folder(self@, folder_hash) ==> r == Err::<(usize, usize), SqPackReaderError>(
                SqPackReaderError::NoSuchFolder,
            ),
            index_strictly_sorted(self@) ==> match r {
                Ok((k, _)) => spec_find_offset(self@, folder_hash, file_hash) == Ok::<u32, SqPackReaderError>(
                    file_data_offset(self@, k as int),
                ),
                Err(e) => spec_find_offset(self@, folder_hash, file_hash) == Err::<u32, SqPackReaderError>(e),
            },
    {
        let i = match self.find_folder(folder_hash) {
            Ok(i) => i,
            Err(e) => {
                proof {
                    if index_strictly_sorted(self@) {
                        lemma_strict_is_sorted(self@);
                    }
                }
                return Err(e);
            },
        };
        let (base, begin, end) = self.get_file_segments(i);
        let d = self.data.as_slice();
        proof {
            assert forall|a: int, b: int| begin <= a < b < end && files_sorted(self@, i as int) implies
                #[trigger] entry_key(d@, base as int, a) <= #[trigger] entry_key(d@, base as int, b) by {
                assert(file_hash_at(self@, a) <= file_hash_at(self@, b));
            }
        }
        match search_entries(d, base, begin, end, file_hash) {
            Some(k) => {
                assert(entry_of(self@, folder_hash, file_hash, i as int, k as int));
                assert(found_entry(self@, folder_hash, file_hash, k as int));
                proof {
                    if index_strictly_sorted(self@) {
                        let k2 = choose|k2: int| found_entry(self@, folder_hash, file_hash, k2);
                        lemma_found_entry_unique(self@, folder_hash, file_hash, k as int, k2);
                    }
                }
                Ok((k, base + SEGMENT_ENTRY_SIZE * k))
            },
            None => {
                proof {
                    assert forall|k: int| files_sorted(self@, i as int) && begin <= k < end implies
                        #[trigger] file_hash_at(self@, k) != file_hash by {
                        assert(entry_key(d@, base as int, k) != file_hash);
                    }
                    if index_strictly_sorted(self@) {
                        assert(files_strictly_sorted(self@, i as int));
                        if exists|k: int| found_entry(self@, folder_hash, file_hash, k) {
                            let k = choose|k: int| found_entry(self@, folder_hash, file_hash, k);
                            let j = choose|j: int| #[trigger] entry_of(self@, folder_hash, file_hash, j, k);
                            lemma_folder_unique(self@, i as int, j);
                            assert(file_hash_at(self@, k) != file_hash);
                        }
                    }
                }
                Err(SqPackReaderError::NoSuchFile)
            },
        }
    }

    /// The data offset of file `file_hash` of folder `folder_hash`: which `.dat`
    /// file holds it (bits 1 to 3) and where (the rest, in units of 8 bytes).
    pub fn find_offset(&self, folder_hash: u32, file_hash: u32) -> (r: Result<u32>)
        requires
            lookup_in_bounds(self@, folder_hash),
        ensures
            offset_result(self@, folder_hash, file_hash, r),
    {
        match self.find_file_segment(folder_hash, file_hash) {
            Ok((k, pos)) => {
                let o = read_u32_le(self.data.as_slice(), pos + 8);
                assert(file_data_offset(self@, k as int) == o);
                Ok(o)
            },
            Err(e) => Err(e),
        }
    }

    /// Records a new data offset for file `file_hash` of folder `folder_hash`; the
    /// index is left as it was where the lookup fails.
    pub fn write_offset(&mut self, folder_hash: u32, file_hash: u32, new_offset: u32) -> (r: Result<()>)
        requires
            lookup_in_bounds(old(self)@, folder_hash),
        ensures
            r is Ok ==> exists|k: int|
                found_entry(old(self)@, folder_hash, file_hash, k) && final(self)@ == put_le32(
                    old(self)@,
                    #[trigger] file_data_offset_pos(old(self)@, k),
                    new_offset,
                ),
            r matches Err(e) ==> final(self)@ == old(self)@ && lookup_failure(old(self)@, folder_hash, file_hash, e),
            !has_folder(old(self)@, folder_hash) ==> r == Err::<(), SqPackReaderError>(
                SqPackReaderError::NoSuchFolder,
            ),
            index_strictly_sorted(old(self)@) ==> (r is Ok <==> spec_find_offset(old(self)@, folder_hash, file_hash) is Ok),
            index_strictly_sorted(old(self)@) ==> (r matches Err(e) ==> spec_find_offset(
                old(self)@,
                folder_hash,
                file_hash,
            ) == Err::<u32, SqPackReaderError>(e)),
    {
        match self.find_file_segment(folder_hash, file_hash) {
            Ok((k, pos)) => {
                let ghost before = self@;
                assert(file_data_offset_pos(before, k as int) == pos + 8);
                write_u32_le(&mut self.data, pos + 8, new_offset);
                assert(self@ == put_le32(before, file_data_offset_pos(before, k as int), new_offset));
                Ok(())
            },
            Err(e) => Err(e),
        }
    }

    /// Whether the SqPack header and the fields of the index header lie within the
    /// data: what reading or writing the number of `.dat` files requires.
    pub fn is_header_in_bounds(&self) -> (r: bool)
        ensures
            r == header_in_bounds(self@),
    {
        let d = self.data.as_slice();
        let len = d.len();
        if len < SQPACK_HEADER_LENGTH_POS + 4 {
            return false;
        }
        let pos = read_u32_le(d, SQPACK_HEADER_LENGTH_POS) as u64;
        pos + INDEX_HEADER_FIELDS_END as u64 <= len as u64
    }

    /// Whether the header and the folder segment lie within the data: what
    /// listing the folders requires.
    pub fn are_folders_in_bounds(&self) -> (r: bool)
        ensures
            r == folders_in_bounds(self@),
    {
        if !self.is_header_in_bounds() {
            return false;
        }
        let len = self.data.len();
        let pos = self.index_header_pos();
        let d = self.data.as_slice();
        let folders = read_u32_le(d, pos + FOLDER_SEGMENT_OFFSET_POS) as u64;
        let count = read_u32_le(d, pos + FOLDER_SEGMENT_SIZE_POS) as u64 / SEGMENT_ENTRY_SIZE as u64;
        folders + SEGMENT_ENTRY_SIZE as u64 * count <= len as u64
    }

    /// Whether what looking up files of folder `folder_hash` reads lies within the
    /// data: the header, the folder segment, and the file list of each folder with
    /// that hash. This is what `files`, `find_offset` and `write_offset` require.
    pub fn can_look_up(&self, folder_hash: u32) -> (r: bool)
        ensures
            r == lookup_in_bounds(self@, folder_hash),
    {
        if !self.are_folders_in_bounds() {
            return false;
        }
        let d = self.data.as_slice();
        let len = d.len();
        let pos = self.index_header_pos();
        let (folders, count) = self.get_folder_segments();
        let file_offset = read_u32_le(d, pos + FILE_SEGMENT_OFFSET_POS);
        for i in 0..count
            invariant
                d@ == self@,
                len == d@.len(),
                folders_in_bounds(self@),
                folders == folder_segment_offset(self@),
                count == folder_count(self@),
                folders + SEGMENT_ENTRY_SIZE * count <= len,
                file_offset == file_segment_offset(self@),
                forall|j: int|
                    0 <= j < i && #[trigger] folder_hash_at(self@, j) == folder_hash ==> file_list_in_bounds(self@, j),
        {
            let entry = folders + SEGMENT_ENTRY_SIZE * i;
            let hash = read_u32_le(d, entry);
            assert(hash == folder_hash_at(self@, i as int));
            if hash == folder_hash {
                let list_offset = read_u32_le(d, entry + 4);
                let list_size = read_u32_le(d, entry + 8);
                if list_offset < file_offset {
                    assert(!file_list_in_bounds(self@, i as int));
                    return false;
                }
                let begin = ((list_offset - file_offset) as u64) / SEGMENT_ENTRY_SIZE as u64;
                let end = begin + (list_size as u64) / SEGMENT_ENTRY_SIZE as u64;
                if file_offset as u64 + SEGMENT_ENTRY_SIZE as u64 * end > len as u64 {
                    assert(!file_list_in_bounds(self@, i as int));
                    return false;
                }
                assert(file_list_in_bounds(self@, i as int));
            }
        }
        true
    }
}

} // verus!