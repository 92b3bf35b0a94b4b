//! Flat file list: fixed-size [`FileRecord`]s plus one string table holding
//! every relative path, as stored in a memory-mapped cache file.

use vstd::prelude::*;
use vstd::utf8::{encode_utf8, valid_utf8, decode_utf8};
use crate::types::FileItem;
use crate::text::{join_path, join_spec, string_from_utf8};

verus! {

/// Flag bit of `name_len_and_flags` marking a binary file.
pub const BINARY_FLAG: u16 = 0x8000;

/// Fixed-size metadata record of one file.
#[derive(Clone, Copy)]
pub struct FileRecord {
    /// Byte offset of the relative path in the string table.
    pub path_offset: u32,
    /// Length of the relative path in bytes.
    pub path_len: u16,
    /// Length of the file name (last path component); the high bit is the binary flag.
    pub name_len_and_flags: u16,
    /// File size in bytes.
    pub size: u64,
    /// Last modification time (seconds since the UNIX epoch).
    pub modified: u64,
}

/// The packed name-length-and-flags field.
pub open spec fn pack_flags(name_len: u16, is_binary: bool) -> u16 {
    if is_binary {
        name_len | BINARY_FLAG
    } else {
        name_len
    }
}

impl FileRecord {
    /// Size of one serialized record in bytes.
    pub const SIZE: usize = 24;

    pub open spec fn spec_name_len(&self) -> u16 {
        self.name_len_and_flags & 0x7FFF
    }

    pub open spec fn spec_is_binary(&self) -> bool {
        self.name_len_and_flags & BINARY_FLAG != 0
    }

    /// A record with the binary flag packed into the name length.
    pub fn new(path_offset: u32, path_len: u16, name_len: u16, is_binary: bool, size: u64, modified: u64) -> (r: Self)
        ensures
            r.path_offset == path_offset,
            r.path_len == path_len,
            r.name_len_and_flags == pack_flags(name_len, is_binary),
            r.size == size,
            r.modified == modified,
    {
        let mut flags = name_len;
        if is_binary {
            flags = flags | BINARY_FLAG;
        }
        FileRecord { path_offset, path_len, name_len_and_flags: flags, size, modified }
    }

    /// Length of the file name component.
    pub fn name_len(&self) -> (r: u16)
        ensures
            r == self.spec_name_len(),
    {
        self.name_len_and_flags & 0x7FFF
    }

    /// Whether the file was detected as binary.
    pub fn is_binary(&self) -> (r: bool)
        ensures
            r == self.spec_is_binary(),
    {
        self.name_len_and_flags & BINARY_FLAG != 0
    }
}

/// Packing then unpacking a record gives back the name length (when it fits
/// in 15 bits) and the binary flag.
pub proof fn lemma_flags_round_trip(name_len: u16, is_binary: bool)
    requires
        name_len < 0x8000,
    ensures
        pack_flags(name_len, is_binary) & 0x7FFF == name_len,
        (pack_flags(name_len, is_binary) & BINARY_FLAG != 0) == is_binary,
{
    assert((name_len | 0x8000u16) & 0x7FFFu16 == name_len) by (bit_vector)
        requires
            name_len < 0x8000u16,
    ;
    assert(name_len & 0x7FFFu16 == name_len) by (bit_vector)
        requires
            name_len < 0x8000u16,
    ;
    assert((name_len | 0x8000u16) & 0x8000u16 != 0) by (bit_vector);
    assert(name_len & 0x8000u16 == 0) by (bit_vector)
        requires
            name_len < 0x8000u16,
    ;
}

/// Bytes of the relative path of record `r` in `strings`.
pub open spec fn record_path(r: FileRecord, strings: Seq<u8>) -> Seq<u8> {
    strings.subrange(r.path_offset as int, r.path_offset as int + r.path_len as int)
}

/// Bytes of the file name of record `r`: the last `name_len` bytes of its path.
pub open spec fn record_name(r: FileRecord, strings: Seq<u8>) -> Seq<u8> {
    let end = r.path_offset as int + r.path_len as int;
    strings.subrange(end - r.spec_name_len() as int, end)
}

/// Whether record `r` points inside `strings`.
pub open spec fn record_in_bounds(r: FileRecord, strings: Seq<u8>) -> bool {
    r.path_offset as int + r.path_len as int <= strings.len()
}

/// Read-only view over records and a string table.
pub struct FileListView<'a> {
    records: &'a [FileRecord],
    strings: &'a [u8],
}

impl<'a> FileListView<'a> {
    pub closed spec fn spec_records(&self) -> Seq<FileRecord> {
        self.records@
    }

    pub closed spec fn spec_strings(&self) -> Seq<u8> {
        self.strings@
    }

    /// Every record points inside the string table at valid UTF-8, and its
    /// file name is a suffix of its path that is valid UTF-8 too.
    pub open spec fn well_formed(&self) -> bool {
        forall|i: int| 0 <= i < self.spec_records().len() ==> {
            let r = #[trigger] self.spec_records()[i];
            &&& record_in_bounds(r, self.spec_strings())
            &&& valid_utf8(record_path(r, self.spec_strings()))
            &&& (0 < r.spec_name_len() <= r.path_len ==> valid_utf8(record_name(r, self.spec_strings())))
        }
    }

    /// A view over `records` and `strings`.
    pub fn new(records: &'a [FileRecord], strings: &'a [u8]) -> (r: Self)
        ensures
            r.spec_records() == records@,
            r.spec_strings() == strings@,
    {
        FileListView { records, strings }
    }

    /// Number of files.
    pub fn len(&self) -> (r: usize)
        ensures
            r == self.spec_records().len(),
    {
        self.records.len()
    }

    /// Whether the view holds no file.
    pub fn is_empty(&self) -> (r: bool)
        ensures
            r == (self.spec_records().len() == 0),
    {
        self.records.len() == 0
    }

    /// The record of file `i`.
    pub fn record(&self, i: usize) -> (r: &FileRecord)
        requires
            i < self.spec_records().len(),
        ensures
            *r == self.spec_records()[i as int],
    {
        &self.records[i]
    }

    /// Relative path bytes of file `i`.
    pub fn relative_path(&self, i: usize) -> (r: &'a [u8])
        requires
            i < self.spec_records().len(),
            record_in_bounds(self.spec_records()[i as int], self.spec_strings()),
        ensures
            r@ == record_path(self.spec_records()[i as int], self.spec_strings()),
    {
        let r = &self.records[i];
        let _sl = self.strings.len();
        let start = r.path_offset as usize;
        let end = start + r.path_len as usize;
        vstd::slice::slice_subrange(self.strings, start, end)
    }

    /// File name bytes of file `i` (the last `name_len` bytes of its path).
    pub fn file_name(&self, i: usize) -> (r: &'a [u8])
        requires
            i < self.spec_records().len(),
            record_in_bounds(self.spec_records()[i as int], self.spec_strings()),
            self.spec_records()[i as int].spec_name_len() as int <= self.spec_records()[i as int].path_offset as int
                + self.spec_records()[i as int].path_len as int,
        ensures
            r@ == record_name(self.spec_records()[i as int], self.spec_strings()),
    {
        let r = &self.records[i];
        let _sl = self.strings.len();
        let name_len = r.name_len() as usize;
        let path_start = r.path_offset as usize;
        let path_end = path_start + r.path_len as usize;
        vstd::slice::slice_subrange(self.strings, path_end - name_len, path_end)
    }

    /// Owned [`FileItem`]s for every record: the full path is
    /// `base_path` joined with the relative path, and the file name is the name
    /// suffix when its length is in `1..=path_len`, else the whole path.
    pub fn to_file_items(&self, base_path: &str) -> (items: Vec<FileItem>)
        requires
            self.well_formed(),
        ensures
            items@.len() == self.spec_records().len(),
            forall|i: int| 0 <= i < items@.len() ==> {
                let r = self.spec_records()[i];
                let it = #[trigger] items@[i];
                let rel = decode_utf8(record_path(r, self.spec_strings()));
                &&& it.relative_path@ == rel
                &&& it.file_name@ == (if 0 < r.spec_name_len() <= r.path_len {
                    decode_utf8(record_name(r, self.spec_strings()))
                } else {
                    rel
                })
                &&& it.path@ == join_spec(base_path@, rel)
                &&& it.size == r.size
                &&& it.modified == r.modified
                &&& it.is_binary == r.spec_is_binary()
                &&& it.git_status is None
                &&& !it.is_deleted
                &&& it.access_frecency_score == 0
                &&& it.modification_frecency_score == 0
                &&& it.total_frecency_score == 0
            },
    {
        let mut items: Vec<FileItem> = Vec::new();
        let mut i: usize = 0;
        while i < self.records.len()
            invariant
                self.well_formed(),
                i <= self.spec_records().len(),
                items@.len() == i,
                forall|j: int| 0 <= j < i ==> {
                    let r = self.spec_records()[j];
                    let it = #[trigger] items@[j];
                    let rel = decode_utf8(record_path(r, self.spec_strings()));
                    &&& it.relative_path@ == rel
                    &&& it.file_name@ == (if 0 < r.spec_name_len() <= r.path_len {
                        decode_utf8(record_name(r, self.spec_strings()))
                    } else {
                        rel
                    })
                    &&& it.path@ == join_spec(base_path@, rel)
                    &&& it.size == r.size
                    &&& it.modified == r.modified
                    &&& it.is_binary == r.spec_is_binary()
                    &&& it.git_status is None
                    &&& !it.is_deleted
                    &&& it.access_frecency_score == 0
                    &&& it.modification_frecency_score == 0
                    &&& it.total_frecency_score == 0
                },
            decreases self.spec_records().len() - i,
        {
            let r = &self.records[i];
            proof {
                let _ = self.spec_records()[i as int];
            }
            let path_bytes = self.relative_path(i);
            let name_len = r.name_len() as usize;
            let relative_path = string_from_utf8(path_bytes);
            let file_name = if name_len > 0 && name_len <= path_bytes.len() {
                let start = path_bytes.len() - name_len;
                let name_bytes = vstd::slice::slice_subrange(path_bytes, start, path_bytes.len());
                proof {
                    assert(name_bytes@ =~= record_name(*r, self.spec_strings()));
                }
                string_from_utf8(name_bytes)
            } else {
                relative_path.clone()
            };
            let full = join_path(base_path, relative_path.as_str());
            let item = FileItem::new_raw(full, relative_path, file_name, r.size, r.modified, None, r.is_binary());
            items.push(item);
            i = i + 1;
        }
        items
    }
}

/// The string table of `files`: their relative paths' bytes, concatenated.
pub open spec fn concat_paths(files: Seq<FileItem>) -> Seq<u8>
    decreases files.len(),
{
    if files.len() == 0 {
        seq![]
    } else {
        concat_paths(files.drop_last()) + encode_utf8(files.last().relative_path@)
    }
}

/// The record that [`build_file_records`] writes for `files[i]`.
pub open spec fn built_record(files: Seq<FileItem>, i: int) -> FileRecord {
    let f = files[i];
    FileRecord {
        path_offset: concat_paths(files.take(i)).len() as u32,
        path_len: encode_utf8(f.relative_path@).len() as u16,
        name_len_and_flags: pack_flags(encode_utf8(f.file_name@).len() as u16, f.is_binary),
        size: f.size,
        modified: f.modified,
    }
}

/// Records and string table for `files`; offsets and lengths are truncated
/// to the record's field widths.
pub fn build_file_records(files: &[FileItem]) -> (r: (Vec<FileRecord>, Vec<u8>))
    ensures
        r.1@ == concat_paths(files@),
        r.0@.len() == files@.len(),
        forall|i: int| 0 <= i < files@.len() ==> #[trigger] r.0@[i] == built_record(files@, i),
{
    let mut records: Vec<FileRecord> = Vec::new();
    let mut strings: Vec<u8> = Vec::new();
    let mut i: usize = 0;
    while i < files.len()
        invariant
            i <= files@.len(),
            strings@ == concat_paths(files@.take(i as int)),
            records@.len() == i,
            forall|j: int| 0 <= j < i ==> #[trigger] records@[j] == built_record(files@, j),
        decreases files@.len() - i,
    {
        let file = &files[i];
        let path_offset = strings.len() as u32;
        let pb = file.relative_path.as_str().as_bytes();
        let nb = file.file_name.as_str().as_bytes();
        let path_len = pb.len() as u16;
        let name_len = nb.len() as u16;
        strings.extend_from_slice(pb);
        records.push(FileRecord::new(path_offset, path_len, name_len, file.is_binary, file.size, file.modified));
        proof {
            assert(files@.take(i + 1).drop_last() =~= files@.take(i as int));
            assert(files@.take(i + 1).last() == files@[i as int]);
        }
        i = i + 1;
    }
    proof {
        assert(files@.take(i as int) =~= files@);
    }
    (records, strings)
}


proof fn lemma_concat_prefix(files: Seq<FileItem>, k: int, n: int)
    requires
        0 <= k <= n <= files.len(),
    ensures
        concat_paths(files.take(k)).len() <= concat_paths(files.take(n)).len(),
        concat_paths(files.take(n)).subrange(0, concat_paths(files.take(k)).len() as int) == concat_paths(files.take(k)),
    decreases n - k,
{
    if k < n {
        lemma_concat_prefix(files, k, n - 1);
        assert(files.take(n).drop_last() =~= files.take(n - 1));
        let a = concat_paths(files.take(n - 1));
        let b = concat_paths(files.take(k));
        assert(concat_paths(files.take(n)) == a + encode_utf8(files.take(n).last().relative_path@));
        assert(concat_paths(files.take(n)).subrange(0, b.len() as int) =~= a.subrange(0, b.len() as int));
    } else {
        assert(concat_paths(files.take(n)).subrange(0, concat_paths(files.take(k)).len() as int) =~= concat_paths(files.take(k)));
    }
}

/// Reading back a built file list gives every file's relative path, file
/// name and binary flag, provided the string table fits the 32-bit offsets,
/// every path fits the 16-bit length, every name fits 15 bits and is a
/// suffix of its path.
pub proof fn lemma_build_round_trip(files: Seq<FileItem>, i: int)
    requires
        0 <= i < files.len(),
        concat_paths(files).len() <= u32::MAX,
        encode_utf8(files[i].relative_path@).len() <= u16::MAX,
        encode_utf8(files[i].file_name@).len() < 0x8000,
        encode_utf8(files[i].file_name@).len() <= encode_utf8(files[i].relative_path@).len(),
        encode_utf8(files[i].relative_path@).subrange(
            encode_utf8(files[i].relative_path@).len() - encode_utf8(files[i].file_name@).len(),
            encode_utf8(files[i].relative_path@).len() as int,
        ) == encode_utf8(files[i].file_name@),
    ensures
        record_in_bounds(built_record(files, i), concat_paths(files)),
        record_path(built_record(files, i), concat_paths(files)) == encode_utf8(files[i].relative_path@),
        record_name(built_record(files, i), concat_paths(files)) == encode_utf8(files[i].file_name@),
        built_record(files, i).spec_name_len() == encode_utf8(files[i].file_name@).len(),
        built_record(files, i).spec_is_binary() == files[i].is_binary,
{
    let n = files.len() as int;
    assert(files.take(n) =~= files);
    lemma_concat_prefix(files, i + 1, n);
    assert(files.take(i + 1).drop_last() =~= files.take(i));
    assert(files.take(i + 1).last() == files[i]);
    let pre = concat_paths(files.take(i));
    let enc = encode_utf8(files[i].relative_path@);
    let all = concat_paths(files);
    assert(concat_paths(files.take(i + 1)) == pre + enc);
    assert(all.subrange(0, (pre.len() + enc.len()) as int) == pre + enc);
    assert(all.subrange(pre.len() as int, (pre.len() + enc.len()) as int) =~= enc) by {
        assert forall|j: int| 0 <= j < enc.len() implies all.subrange(pre.len() as int, (pre.len() + enc.len()) as int)[j] == enc[j] by {
            assert(all.subrange(0, (pre.len() + enc.len()) as int)[pre.len() + j] == all[pre.len() + j]);
        }
    }
    let nl = encode_utf8(files[i].file_name@).len();
    lemma_flags_round_trip(nl as u16, files[i].is_binary);
    let r = built_record(files, i);
    assert(r.path_offset as int == pre.len());
    assert(r.path_len as int == enc.len());
    assert(record_name(r, all) =~= enc.subrange(enc.len() - nl, enc.len() as int));
}

} // verus!
