//! An archive: its index and its `.dat` files, and the reading of a stored file
//! by its folder and file hashes.

use vstd::prelude::*;
use vstd::string::StringExecFns;

use crate::buffer::bytes_contents;
use crate::data::{is_read_error, spec_read, spec_read_error, SqPackData};
use crate::error::{Result, SqPackReaderError};
use crate::index::{
    files_result, folders_in_bounds, found_offset, has_folder, header_in_bounds, lookup_in_bounds,
    index_strictly_sorted, lookup_failure, spec_dat_count, spec_find_offset,
    spec_folders, SqPackIndex,
};
use crate::raw_file::{blocks_decodable, decode_parts, SqPackRawFile};

verus! {

/// The text of the error for a data offset that names a `.dat` file the archive lacks.
pub const MISSING_DATA_FILE_MESSAGE: &'static str = "no such data file";

/// The text of the error for a stored file one of whose blocks does not decode.
pub const UNDECODABLE_BLOCK_MESSAGE: &'static str = "a block does not decode";

/// Which `.dat` file holds the file at data offset `o`: bits 1 to 3.
pub open spec fn dat_file_index(o: u32) -> int {
    (o % 16) as int / 2
}

/// Where in its `.dat` file the file at data offset `o` is: the offset without
/// its low four bits, in units of 8 bytes.
pub open spec fn dat_file_offset(o: u32) -> int {
    (o - o % 16) * 8
}

/// The decoded size, header and blocks of a stored file.
pub open spec fn raw_parts(raw: SqPackRawFile) -> (u32, Seq<u8>, Seq<Seq<u8>>) {
    (raw.uncompressed_size, bytes_contents(raw.header), raw.block_seq())
}

/// An archive: its index, and its `.dat` files in the order of their numbers.
pub struct SqPackArchive {
    pub index: SqPackIndex,
    pub data: Vec<SqPackData>,
}

impl SqPackArchive {
    /// The parts of the stored file at data offset `o`, where its `.dat` file
    /// exists and the file can be read out of it.
    pub open spec fn parts_at(&self, o: u32) -> Option<(u32, Seq<u8>, Seq<Seq<u8>>)> {
        if dat_file_index(o) < self.data@.len() {
            spec_read(self.data@[dat_file_index(o)]@, dat_file_offset(o))
        } else {
            None
        }
    }

    /// The decoded contents of the stored file at data offset `o`, where it can be
    /// read and each of its blocks decoded.
    pub open spec fn decoded_at(&self, o: u32) -> Option<Seq<u8>> {
        match self.parts_at(o) {
            Some(p) => if blocks_decodable(p.2) {
                Some(decode_parts(p.1, p.2))
            } else {
                None
            },
            None => None,
        }
    }

    /// The text of the error that reading the stored file at data offset `o`
    /// gives, where it cannot be read.
    pub open spec fn raw_error_at(&self, o: u32) -> Seq<char> {
        if dat_file_index(o) < self.data@.len() {
            spec_read_error(self.data@[dat_file_index(o)]@, dat_file_offset(o))
        } else {
            MISSING_DATA_FILE_MESSAGE@
        }
    }

    /// The text of the error that reading and decoding the stored file at data
    /// offset `o` gives, where it cannot be read or decoded.
    pub open spec fn decode_error_at(&self, o: u32) -> Seq<char> {
        if self.parts_at(o) is None {
            self.raw_error_at(o)
        } else {
            UNDECODABLE_BLOCK_MESSAGE@
        }
    }

    /// Makes an archive of the bytes of its index and of its `.dat` files; the
    /// index must record as many `.dat` files as are given.
    pub fn from_raw(index: Vec<u8>, data: Vec<Vec<u8>>) -> (r: Self)
        requires
            header_in_bounds(index@),
            spec_dat_count(index@) == data@.len(),
        ensures
            r.index@ == index@,
            r.data@.len() == data@.len(),
            forall|i: int| 0 <= i < data@.len() ==> #[trigger] r.data@[i]@ == data@[i]@,
    {
        let index = SqPackIndex::from_raw(index);
        let mut data = data;
        let ghost all = data@;
        let n = data.len();
        let mut files: Vec<SqPackData> = Vec::new();
        for i in 0..n
            invariant
                n == all.len(),
                data@ == all.subrange(i as int, n as int),
                files@.len() == i,
                forall|j: int| 0 <= j < i ==> #[trigger] files@[j]@ == all[j]@,
        {
            let bytes = data.remove(0);
            files.push(SqPackData::from_raw(bytes));
            assert(data@ =~= all.subrange(i + 1, n as int));
        }
        SqPackArchive { index, data: files }
    }

    /// The hashes of all folders.
    pub fn folders(&self) -> (r: Vec<u32>)
        requires
            folders_in_bounds(self.index@),
        ensures
            r@ == spec_folders(self.index@),
    {
        self.index.folders()
    }

    /// The hashes of the files of the folder with hash `folder_hash`.
    pub fn files(&self, folder_hash: u32) -> (r: Result<Vec<u32>>)
        requires
            lookup_in_bounds(self.index@, folder_hash),
        ensures
            files_result(self.index@, folder_hash, r),
    {
        self.index.files(folder_hash)
    }

    /// Finds file `file_hash` of folder `folder_hash` in the index and reads it,
    /// undecoded, out of the `.dat` file and at the place that its data offset names.
    pub fn read_raw(&self, folder_hash: u32, file_hash: u32) -> (r: Result<SqPackRawFile>)
        requires
            lookup_in_bounds(self.index@, folder_hash),
        ensures
            r matches Ok(raw) ==> exists|o: u32|
                found_offset(self.index@, folder_hash, file_hash, o) && #[trigger] self.parts_at(o) == Some(
                    raw_parts(raw),
                ),
            r matches Err(e) ==> lookup_failure(self.index@, folder_hash, file_hash, e) || exists|o: u32|
                found_offset(self.index@, folder_hash, file_hash, o) && #[trigger] self.parts_at(o) is None
                    && is_read_error(e, self.raw_error_at(o)),
            !has_folder(self.index@, folder_hash) ==> (r matches Err(e) && e == SqPackReaderError::NoSuchFolder),
            index_strictly_sorted(self.index@) ==> match spec_find_offset(self.index@, folder_hash, file_hash) {
                Ok(o) => (r is Ok <==> self.parts_at(o) is Some) && (r matches Ok(raw) ==> self.parts_at(o)
                    == Some(raw_parts(raw))) && (r matches Err(e) ==> is_read_error(e, self.raw_error_at(o))),
                Err(e) => r matches Err(e2) && e2 == e,
            },
    {
        let file_offset = match self.index.find_offset(folder_hash, file_hash) {
            Ok(o) => o,
            Err(e) => return Err(e),
        };
        let dat_index = ((file_offset & 0x0f) >> 1) as usize;
        let offset = ((file_offset as u64) & 0xffff_fff0) << 3;
        assert((file_offset & 0x0f) >> 1 == (file_offset % 16) / 2) by (bit_vector);
        assert(((file_offset as u64) & 0xffff_fff0) << 3 == ((file_offset - file_offset % 16) * 8) as u64)
            by (bit_vector);
        assert(dat_index == dat_file_index(file_offset));
        assert(offset == dat_file_offset(file_offset));
        if dat_index >= self.data.len() {
            assert(self.parts_at(file_offset) is None);
            return Err(SqPackReaderError::ReadError(String::from_str(MISSING_DATA_FILE_MESSAGE)));
        }
        let r = self.data[dat_index].read(offset);
        proof {
            if r is Ok {
                assert(self.parts_at(file_offset) == Some(raw_parts(r->Ok_0)));
            } else {
                assert(self.parts_at(file_offset) is None);
            }
        }
        r
    }

    /// Finds file `file_hash` of folder `folder_hash` in the index, reads it and
    /// decodes it; a `ReadError` where a block does not decode.
    pub fn read_file(&self, folder_hash: u32, file_hash: u32) -> (r: Result<Vec<u8>>)
        requires
            lookup_in_bounds(self.index@, folder_hash),
        ensures
            r matches Ok(v) ==> exists|o: u32|
                found_offset(self.index@, folder_hash, file_hash, o) && #[trigger] self.decoded_at(o) == Some(v@),
            r matches Err(e) ==> lookup_failure(self.index@, folder_hash, file_hash, e) || exists|o: u32|
                found_offset(self.index@, folder_hash, file_hash, o) && #[trigger] self.decoded_at(o) is None
                    && is_read_error(e, self.decode_error_at(o)),
            !has_folder(self.index@, folder_hash) ==> (r matches Err(e) && e == SqPackReaderError::NoSuchFolder),
            index_strictly_sorted(self.index@) ==> match spec_find_offset(self.index@, folder_hash, file_hash) {
                Ok(o) => (r is Ok <==> self.decoded_at(o) is Some) && (r matches Ok(v) ==> self.decoded_at(o)
                    == Some(v@)) && (r matches Err(e) ==> is_read_error(e, self.decode_error_at(o))),
                Err(e) => r matches Err(e2) && e2 == e,
            },
    {
        let raw = match self.read_raw(folder_hash, file_hash) {
            Ok(raw) => raw,
            Err(e) => {
                proof {
                    if !lookup_failure(self.index@, folder_hash, file_hash, e) {
                        let o = choose|o: u32| found_offset(self.index@, folder_hash, file_hash, o) && #[trigger] self.parts_at(o) is None
                            && is_read_error(e, self.raw_error_at(o));
                        assert(self.decoded_at(o) is None);
                    }
                }
                return Err(e);
            },
        };
        let ghost parts = raw_parts(raw);
        match raw.try_into_decoded() {
            Some(v) => {
                proof {
                    let o = choose|o: u32| found_offset(self.index@, folder_hash, file_hash, o) && #[trigger] self.parts_at(o) == Some(parts);
                    assert(self.decoded_at(o) == Some(v@));
                }
                Ok(v)
            },
            None => {
                proof {
                    let o = choose|o: u32| found_offset(self.index@, folder_hash, file_hash, o) && #[trigger] self.parts_at(o) == Some(parts);
                    assert(self.decoded_at(o) is None);
                }
                Err(SqPackReaderError::ReadError(String::from_str(UNDECODABLE_BLOCK_MESSAGE)))
            },
        }
    }
}

} // verus!