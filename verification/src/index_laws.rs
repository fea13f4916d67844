//! What holds of an index across its operations: what a write changes and what
//! it leaves as it was, and how a lookup relates to the listings.

use vstd::prelude::*;

use crate::codec::{lemma_le32_put, lemma_le32_put_other, put_le32};
use crate::error::SqPackReaderError;
use crate::index::{
    entry_of, file_data_offset, file_data_offset_pos, file_hash_at, file_list_in_bounds, file_pos,
    file_segment_offset, files_strictly_sorted,
    files_begin, files_end, folder_count, folder_file_hashes, folder_hash_at, folder_pos,
    folder_segment_offset, folders_in_bounds, found_entry, has_folder, header_in_bounds,
    index_header_pos, index_strictly_sorted, lemma_folder_unique, lemma_found_entry_unique,
    lists_in_bounds_for, spec_dat_count, spec_files, spec_find_offset, spec_folders,
    files_result, DAT_COUNT_POS, FILE_SEGMENT_OFFSET_POS, FOLDER_SEGMENT_OFFSET_POS, FOLDER_SEGMENT_SIZE_POS,
    INDEX_HEADER_FIELDS_END, SQPACK_HEADER_LENGTH_POS,
};

verus! {

/// The ranges `a..b` and `c..e` share no element.
pub open spec fn ranges_disjoint(a: int, b: int, c: int, e: int) -> bool {
    a >= b || c >= e || b <= c || e <= a
}

/// The four bytes at `p` are no part of the fields that locate the tables (the
/// header length, the file segment offset, the folder segment's offset and size)
/// nor of the folder segment.
pub open spec fn apart_from_tables(d: Seq<u8>, p: int) -> bool {
    let h = index_header_pos(d);
    &&& ranges_disjoint(p, p + 4, SQPACK_HEADER_LENGTH_POS as int, SQPACK_HEADER_LENGTH_POS + 4)
    &&& ranges_disjoint(p, p + 4, h + FILE_SEGMENT_OFFSET_POS, h + FILE_SEGMENT_OFFSET_POS + 4)
    &&& ranges_disjoint(p, p + 4, h + FOLDER_SEGMENT_OFFSET_POS, h + INDEX_HEADER_FIELDS_END)
    &&& ranges_disjoint(p, p + 4, folder_segment_offset(d), folder_pos(d, folder_count(d)))
}

/// The four bytes at `p` touch no field that locates or makes up the tables, nor
/// the number of `.dat` files.
pub open spec fn apart_from_fields(d: Seq<u8>, p: int) -> bool {
    &&& apart_from_tables(d, p)
    &&& ranges_disjoint(
        p,
        p + 4,
        index_header_pos(d) + DAT_COUNT_POS,
        index_header_pos(d) + DAT_COUNT_POS + 4,
    )
}

/// File entry `k` is in the list of folder `i`, and that list lies within the data.
pub open spec fn listed(d: Seq<u8>, i: int, k: int) -> bool {
    &&& 0 <= i < folder_count(d)
    &&& file_list_in_bounds(d, i)
    &&& files_begin(d, i) <= k < files_end(d, i)
}

/// `d2` has the table fields and the folder entries of `d`, the same file lists
/// within the data, and the file hashes of those lists.
pub open spec fn same_structure(d: Seq<u8>, d2: Seq<u8>) -> bool {
    &&& d2.len() == d.len()
    &&& index_header_pos(d2) == index_header_pos(d)
    &&& file_segment_offset(d2) == file_segment_offset(d)
    &&& folder_segment_offset(d2) == folder_segment_offset(d)
    &&& folder_count(d2) == folder_count(d)
    &&& forall|i: int|
        #![trigger folder_hash_at(d2, i)]
        #![trigger files_begin(d2, i)]
        #![trigger files_end(d2, i)]
        #![trigger file_list_in_bounds(d2, i)]
        0 <= i < folder_count(d) ==> {
            &&& folder_hash_at(d2, i) == folder_hash_at(d, i)
            &&& files_begin(d2, i) == files_begin(d, i)
            &&& files_end(d2, i) == files_end(d, i)
            &&& file_list_in_bounds(d2, i) == file_list_in_bounds(d, i)
        }
    &&& forall|i: int, k: int| #[trigger] listed(d, i, k) ==> file_hash_at(d2, k) == file_hash_at(d, k)
}

/// A write of four bytes at `p` apart from the table fields and the folder
/// segment, and apart from the file hashes of the lists within the data, leaves
/// those fields, entries and hashes, which lists lie within the data, and the
/// data offsets it does not touch as they were.
proof fn lemma_write_keeps_structure(d: Seq<u8>, p: int, n: u32)
    requires
        folders_in_bounds(d),
        0 <= p,
        p + 4 <= d.len(),
        apart_from_tables(d, p),
        forall|i: int, k: int|
            #[trigger] listed(d, i, k) ==> ranges_disjoint(p, p + 4, file_pos(d, k), file_pos(d, k) + 4),
    ensures
        same_structure(d, put_le32(d, p, n)),
        folders_in_bounds(put_le32(d, p, n)),
        forall|i: int, k: int|
            #[trigger] listed(d, i, k) && ranges_disjoint(p, p + 4, file_data_offset_pos(d, k), file_data_offset_pos(d, k) + 4)
                ==> file_data_offset(put_le32(d, p, n), k) == file_data_offset(d, k),
{
    let d2 = put_le32(d, p, n);
    lemma_le32_put(d, p, n);
    let h = index_header_pos(d);
    lemma_le32_put_other(d, p, n, SQPACK_HEADER_LENGTH_POS as int);
    lemma_le32_put_other(d, p, n, h + FILE_SEGMENT_OFFSET_POS);
    lemma_le32_put_other(d, p, n, h + FOLDER_SEGMENT_OFFSET_POS);
    lemma_le32_put_other(d, p, n, h + FOLDER_SEGMENT_SIZE_POS);
    assert forall|i: int| 0 <= i < folder_count(d) implies {
        &&& #[trigger] folder_hash_at(d2, i) == folder_hash_at(d, i)
        &&& files_begin(d2, i) == files_begin(d, i)
        &&& files_end(d2, i) == files_end(d, i)
        &&& file_list_in_bounds(d2, i) == file_list_in_bounds(d, i)
    } by {
        lemma_le32_put_other(d, p, n, folder_pos(d, i));
        lemma_le32_put_other(d, p, n, folder_pos(d, i) + 4);
        lemma_le32_put_other(d, p, n, folder_pos(d, i) + 8);
    }
    assert forall|i: int, k: int| #[trigger] listed(d, i, k) implies {
        &&& file_hash_at(d2, k) == file_hash_at(d, k)
        &&& (ranges_disjoint(p, p + 4, file_data_offset_pos(d, k), file_data_offset_pos(d, k) + 4)
            ==> file_data_offset(d2, k) == file_data_offset(d, k))
    } by {
        lemma_le32_put_other(d, p, n, file_pos(d, k));
        if ranges_disjoint(p, p + 4, file_data_offset_pos(d, k), file_data_offset_pos(d, k) + 4) {
            lemma_le32_put_other(d, p, n, file_data_offset_pos(d, k));
        }
    }
}

/// An index with the structure of one whose hashes are unique has unique hashes
/// too, and its folder listing, and the bounds, listing and entries of folder `f`.
#[verifier::spinoff_prover]
proof fn lemma_same_structure_lookups(d: Seq<u8>, d2: Seq<u8>, f: u32)
    requires
        folders_in_bounds(d),
        index_strictly_sorted(d),
        lists_in_bounds_for(d, f),
        same_structure(d, d2),
    ensures
        index_strictly_sorted(d2),
        lists_in_bounds_for(d2, f),
        spec_folders(d2) == spec_folders(d),
        has_folder(d2, f) == has_folder(d, f),
        spec_files(d2, f) == spec_files(d, f),
        forall|fi: u32, k: int| #[trigger] found_entry(d2, f, fi, k) == found_entry(d, f, fi, k),
{
    let fc = folder_count(d);
    assert(spec_folders(d2) =~= spec_folders(d));
    assert forall|i: int, j: int| 0 <= i < j < fc implies #[trigger] folder_hash_at(d2, i) < #[trigger] folder_hash_at(d2, j) by {
        assert(folder_hash_at(d, i) < folder_hash_at(d, j));
    }
    assert forall|i: int| 0 <= i < fc && file_list_in_bounds(d2, i) implies #[trigger] files_strictly_sorted(d2, i) by {
        assert(file_list_in_bounds(d, i));
        assert(files_strictly_sorted(d, i));
        assert forall|j: int, k: int| files_begin(d2, i) <= j < k < files_end(d2, i) implies #[trigger] file_hash_at(d2, j) < #[trigger] file_hash_at(d2, k) by {
            assert(listed(d, i, j));
            assert(listed(d, i, k));
            assert(file_hash_at(d, j) < file_hash_at(d, k));
        }
    }
    assert forall|i: int| 0 <= i < fc && #[trigger] folder_hash_at(d2, i) == f implies file_list_in_bounds(d2, i) by {
        assert(folder_hash_at(d, i) == f);
        assert(file_list_in_bounds(d, i));
    }
    if has_folder(d, f) {
        let i = choose|i: int| 0 <= i < fc && #[trigger] folder_hash_at(d, i) == f;
        assert(folder_hash_at(d2, i) == f);
    }
    if has_folder(d2, f) {
        let i = choose|i: int| 0 <= i < fc && #[trigger] folder_hash_at(d2, i) == f;
        assert(folder_hash_at(d, i) == f);
    }
    assert forall|fi: u32, k: int| #[trigger] found_entry(d2, f, fi, k) == found_entry(d, f, fi, k) by {
        if found_entry(d, f, fi, k) {
            let i = choose|i: int| #[trigger] entry_of(d, f, fi, i, k);
            assert(file_list_in_bounds(d, i));
            assert(listed(d, i, k));
            assert(entry_of(d2, f, fi, i, k));
        }
        if found_entry(d2, f, fi, k) {
            let i = choose|i: int| #[trigger] entry_of(d2, f, fi, i, k);
            assert(folder_hash_at(d, i) == f);
            assert(file_list_in_bounds(d, i));
            assert(listed(d, i, k));
            assert(entry_of(d, f, fi, i, k));
        }
    }
    if has_folder(d, f) {
        let i = choose|i: int| 0 <= i < fc && #[trigger] folder_hash_at(d, i) == f;
        let i2 = choose|i: int| 0 <= i < folder_count(d2) && #[trigger] folder_hash_at(d2, i) == f;
        assert(folder_hash_at(d, i2) == f);
        lemma_folder_unique(d, i, i2);
        assert(file_list_in_bounds(d, i));
        assert forall|j: int| 0 <= j < files_end(d, i) - files_begin(d, i) implies
            #[trigger] folder_file_hashes(d2, i)[j] == folder_file_hashes(d, i)[j] by {
            assert(listed(d, i, files_begin(d, i) + j));
        }
        assert(folder_file_hashes(d2, i) =~= folder_file_hashes(d, i));
    }
}

/// Where the found entries are the same and their data offsets are too, so is the lookup.
proof fn lemma_find_offset_same(d: Seq<u8>, d2: Seq<u8>, f: u32, fi: u32)
    requires
        index_strictly_sorted(d),
        lists_in_bounds_for(d, f),
        has_folder(d2, f) == has_folder(d, f),
        forall|k: int| #[trigger] found_entry(d2, f, fi, k) == found_entry(d, f, fi, k),
        forall|k: int| #[trigger] found_entry(d, f, fi, k) ==> file_data_offset(d2, k) == file_data_offset(d, k),
    ensures
        spec_find_offset(d2, f, fi) == spec_find_offset(d, f, fi),
{
    if exists|k: int| found_entry(d, f, fi, k) {
        let k = choose|k: int| found_entry(d, f, fi, k);
        assert(found_entry(d2, f, fi, k));
        let k2 = choose|k: int| found_entry(d2, f, fi, k);
        assert(found_entry(d, f, fi, k2));
        lemma_found_entry_unique(d, f, fi, k, k2);
    } else {
        assert forall|k: int| !found_entry(d2, f, fi, k) by {
            assert(found_entry(d2, f, fi, k) == found_entry(d, f, fi, k));
        }
    }
}

/// Writing a new number of `.dat` files and reading it back gives the number written.
pub proof fn lemma_dat_count_after_write(d: Seq<u8>, n: u32)
    requires
        header_in_bounds(d),
    ensures
        ({
            let d2 = put_le32(d, index_header_pos(d) + DAT_COUNT_POS, n);
            header_in_bounds(d2) && spec_dat_count(d2) == n
        }),
{
    let p = index_header_pos(d) + DAT_COUNT_POS;
    lemma_le32_put(d, p, n);
    lemma_le32_put_other(d, p, n, SQPACK_HEADER_LENGTH_POS as int);
}

/// Where the number of `.dat` files lies apart from the folder segment and from
/// every file list within the data, writing a new number leaves the hashes
/// unique, and changes neither the folder listing nor the listing or lookups of
/// a folder `f`, nor whether what those read lies within the data.
pub proof fn lemma_write_dat_count_keeps_tables(d: Seq<u8>, n: u32, f: u32, fi: u32)
    requires
        folders_in_bounds(d),
        lists_in_bounds_for(d, f),
        index_strictly_sorted(d),
        ranges_disjoint(
            index_header_pos(d) + DAT_COUNT_POS,
            index_header_pos(d) + DAT_COUNT_POS + 4,
            folder_segment_offset(d),
            folder_pos(d, folder_count(d)),
        ),
        forall|i: int|
            0 <= i < folder_count(d) && #[trigger] file_list_in_bounds(d, i) ==> ranges_disjoint(
                index_header_pos(d) + DAT_COUNT_POS,
                index_header_pos(d) + DAT_COUNT_POS + 4,
                file_pos(d, files_begin(d, i)),
                file_pos(d, files_end(d, i)),
            ),
    ensures
        ({
            let d2 = put_le32(d, index_header_pos(d) + DAT_COUNT_POS, n);
            &&& folders_in_bounds(d2)
            &&& lists_in_bounds_for(d2, f)
            &&& index_strictly_sorted(d2)
            &&& spec_dat_count(d2) == n
            &&& spec_folders(d2) == spec_folders(d)
            &&& spec_files(d2, f) == spec_files(d, f)
            &&& spec_find_offset(d2, f, fi) == spec_find_offset(d, f, fi)
        }),
{
    let p = index_header_pos(d) + DAT_COUNT_POS;
    let d2 = put_le32(d, p, n);
    assert forall|i: int, k: int| #[trigger] listed(d, i, k) implies ranges_disjoint(p, p + 4, file_pos(d, k), file_pos(d, k) + 4)
        && ranges_disjoint(p, p + 4, file_data_offset_pos(d, k), file_data_offset_pos(d, k) + 4) by {
        assert(ranges_disjoint(p, p + 4, file_pos(d, files_begin(d, i)), file_pos(d, files_end(d, i))));
    }
    lemma_dat_count_after_write(d, n);
    lemma_write_keeps_structure(d, p, n);
    lemma_same_structure_lookups(d, d2, f);
    assert forall|k: int| #[trigger] found_entry(d, f, fi, k) implies file_data_offset(d2, k) == file_data_offset(d, k) by {
        let i = choose|i: int| #[trigger] entry_of(d, f, fi, i, k);
        assert(file_list_in_bounds(d, i));
        assert(listed(d, i, k));
    }
    lemma_find_offset_same(d, d2, f, fi);
}

/// After the data offset of the entry `k` that a lookup of `(f, fi)` finds is
/// overwritten with `n` (what `write_offset` does), where those four bytes touch
/// no field that locates or makes up the tables nor the number of `.dat` files: a
/// lookup of `(f, fi)` gives `n`; a lookup of any pair `(f2, fi2)` gives `n` where
/// it finds the same entry and what it gave before otherwise; the folder listing,
/// the listing of folder `f2` and the number of `.dat` files are as they were;
/// the hashes stay unique; and what those lookups read stays within the data.
pub proof fn lemma_find_after_write_offset(d: Seq<u8>, f: u32, fi: u32, k: int, n: u32, f2: u32, fi2: u32)
    requires
        folders_in_bounds(d),
        lists_in_bounds_for(d, f),
        lists_in_bounds_for(d, f2),
        index_strictly_sorted(d),
        found_entry(d, f, fi, k),
        apart_from_fields(d, file_data_offset_pos(d, k)),
    ensures
        ({
            let d2 = put_le32(d, file_data_offset_pos(d, k), n);
            &&& folders_in_bounds(d2)
            &&& lists_in_bounds_for(d2, f)
            &&& lists_in_bounds_for(d2, f2)
            &&& index_strictly_sorted(d2)
            &&& spec_find_offset(d2, f, fi) == Ok::<u32, SqPackReaderError>(n)
            &&& spec_find_offset(d2, f2, fi2) == if found_entry(d, f2, fi2, k) {
                Ok::<u32, SqPackReaderError>(n)
            } else {
                spec_find_offset(d, f2, fi2)
            }
            &&& spec_folders(d2) == spec_folders(d)
            &&& spec_files(d2, f2) == spec_files(d, f2)
            &&& spec_dat_count(d2) == spec_dat_count(d)
        }),
{
    let p = file_data_offset_pos(d, k);
    let d2 = put_le32(d, p, n);
    let i0 = choose|i: int| #[trigger] entry_of(d, f, fi, i, k);
    assert(file_list_in_bounds(d, i0));
    assert forall|i: int, k2: int| #[trigger] listed(d, i, k2) implies ranges_disjoint(p, p + 4, file_pos(d, k2), file_pos(d, k2) + 4)
        && (k2 != k ==> ranges_disjoint(p, p + 4, file_data_offset_pos(d, k2), file_data_offset_pos(d, k2) + 4)) by {
        assert(k2 <= k || k + 1 <= k2);
    }
    lemma_write_keeps_structure(d, p, n);
    lemma_same_structure_lookups(d, d2, f);
    lemma_same_structure_lookups(d, d2, f2);
    lemma_le32_put(d, p, n);
    lemma_le32_put_other(d, p, n, index_header_pos(d) + DAT_COUNT_POS);
    assert(file_data_offset(d2, k) == n);
    assert(entry_of(d, f, fi, i0, k));
    assert(found_entry(d2, f, fi, k));
    let k1 = choose|k1: int| found_entry(d2, f, fi, k1);
    assert(found_entry(d, f, fi, k1));
    lemma_found_entry_unique(d, f, fi, k, k1);
    if found_entry(d, f2, fi2, k) {
        assert(found_entry(d2, f2, fi2, k));
        let k3 = choose|k3: int| found_entry(d2, f2, fi2, k3);
        assert(found_entry(d, f2, fi2, k3));
        lemma_found_entry_unique(d, f2, fi2, k, k3);
        assert(has_folder(d2, f2));
    } else {
        assert forall|k2: int| #[trigger] found_entry(d, f2, fi2, k2) implies file_data_offset(d2, k2) == file_data_offset(d, k2) by {
            let i2 = choose|i: int| #[trigger] entry_of(d, f2, fi2, i, k2);
            assert(file_list_in_bounds(d, i2));
            assert(listed(d, i2, k2));
        }
        lemma_find_offset_same(d, d2, f2, fi2);
    }
}

/// A file that a lookup finds is listed: its folder is among the folders, and
/// the file among that folder's files.
pub proof fn lemma_found_file_is_listed(d: Seq<u8>, f: u32, fi: u32, k: int)
    requires
        found_entry(d, f, fi, k),
    ensures
        spec_folders(d).contains(f),
        exists|i: int|
            0 <= i < folder_count(d) && #[trigger] folder_hash_at(d, i) == f && folder_file_hashes(d, i).contains(fi),
        index_strictly_sorted(d) ==> (spec_files(d, f) matches Ok(v) && v.contains(fi)),
{
    let i = choose|i: int| #[trigger] entry_of(d, f, fi, i, k);
    assert(spec_folders(d)[i] == f);
    let j = k - files_begin(d, i);
    assert(folder_file_hashes(d, i)[j] == fi);
    if index_strictly_sorted(d) {
        let i2 = choose|i2: int| 0 <= i2 < folder_count(d) && #[trigger] folder_hash_at(d, i2) == f;
        lemma_folder_unique(d, i, i2);
    }
}

/// Where the hashes are unique, listing the files of a folder can give only one
/// result: the archive's listing and the index's, which both give a result that
/// `files_result` allows, agree.
pub proof fn lemma_files_result_unique(
    d: Seq<u8>,
    f: u32,
    r1: core::result::Result<Vec<u32>, SqPackReaderError>,
    r2: core::result::Result<Vec<u32>, SqPackReaderError>,
)
    requires
        index_strictly_sorted(d),
        files_result(d, f, r1),
        files_result(d, f, r2),
    ensures
        r1 is Ok <==> r2 is Ok,
        r1 is Ok ==> r1->Ok_0@ == r2->Ok_0@,
        r1 is Err ==> r1->Err_0 == r2->Err_0,
{
}

} // verus!
