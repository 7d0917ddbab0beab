//! The SARC archive reader: parses the SARC/SFAT/SFNT headers of a borrowed
//! buffer, looks files up by the multiplier-based name hash through binary
//! search over the sorted file-allocation table, and hands out borrowed
//! name and data slices.

use vstd::prelude::*;
use vstd::string::StringSliceAdditionalSpecFns;
use vstd::slice::{slice_index_get, slice_subrange};

use crate::util::{
    bytes_as_str, find_nul_from, lemma_find_nul, read_u16, read_u32, spec_find_nul, spec_hash_name,
    spec_u16_at, spec_u32_at,
};
use crate::{Endian, Error};

verus! {

/// The byte order a SARC byte-order mark encodes, if any. The mark sits at
/// offset 6 of the archive.
pub open spec fn spec_sarc_bom(d: Seq<u8>) -> Option<Endian> {
    if d[6] == 0xfe && d[7] == 0xff {
        Some(Endian::Big)
    } else if d[6] == 0xff && d[7] == 0xfe {
        Some(Endian::Little)
    } else {
        None
    }
}

/// Whether the buffer starts with the `SARC` magic.
pub open spec fn spec_sarc_magic_ok(d: Seq<u8>) -> bool {
    d[0] == 0x53 && d[1] == 0x41 && d[2] == 0x52 && d[3] == 0x43
}

/// Whether the file-allocation table header starts with the `SFAT` magic.
pub open spec fn spec_sfat_magic_ok(d: Seq<u8>) -> bool {
    d[0x14] == 0x53 && d[0x15] == 0x46 && d[0x16] == 0x41 && d[0x17] == 0x54
}

/// Whether the name table header at `p` starts with the `SFNT` magic.
pub open spec fn spec_sfnt_magic_ok(d: Seq<u8>, p: int) -> bool {
    d[p] == 0x53 && d[p + 1] == 0x46 && d[p + 2] == 0x4e && d[p + 3] == 0x54
}

/// The number of files recorded in the file-allocation table header.
pub open spec fn spec_sarc_num_files(d: Seq<u8>, e: Endian) -> u16 {
    spec_u16_at(d, 0x1a, e)
}

/// The start of the name table: right after the SFNT header, which follows
/// the `n` 16-byte file-allocation entries that start at 0x20.
pub open spec fn spec_sarc_names_offset(n: int) -> int {
    0x20 + 16 * n + 8
}

/// Every condition the SARC header parser checks, in order: a buffer that
/// passes them all yields a reader.
pub open spec fn spec_sarc_ok(d: Seq<u8>) -> bool {
    &&& d.len() >= 0x40
    &&& spec_sarc_magic_ok(d)
    &&& spec_sarc_bom(d) is Some
    &&& {
        let e = spec_sarc_bom(d)->0;
        let n = spec_sarc_num_files(d, e) as int;
        &&& spec_u16_at(d, 16, e) == 0x100
        &&& spec_u16_at(d, 4, e) == 0x14
        &&& spec_sfat_magic_ok(d)
        &&& spec_u16_at(d, 0x18, e) == 0x0c
        &&& spec_sarc_num_files(d, e) >> 14 == 0
        &&& spec_sarc_names_offset(n) <= d.len()
        &&& spec_sfnt_magic_ok(d, 0x20 + 16 * n)
        &&& spec_u16_at(d, 0x20 + 16 * n + 4, e) == 0x08
        &&& spec_u32_at(d, 12, e) >= spec_sarc_names_offset(n)
    }
}

/// A file entry of a SARC archive: an optional name and the borrowed data
/// slice, with the entry's index in the file-allocation table.
#[derive(Debug, Clone, Copy)]
pub struct File<'a> {
    /// The file's name, when the entry records one.
    pub name: Option<&'a str>,
    /// The file's data.
    pub data: &'a [u8],
    /// The entry's index in the file-allocation table.
    pub index: usize,
}

/// A simple SARC archive reader over a borrowed buffer.
pub struct Sarc<'a> {
    num_files: u16,
    entries_offset: u16,
    hash_multiplier: u32,
    data_offset: u32,
    names_offset: u32,
    endian: Endian,
    data: &'a [u8],
}

impl<'a> Sarc<'a> {
    /// The backing buffer.
    pub closed spec fn spec_data(self) -> Seq<u8> {
        self.data@
    }

    /// The archive's byte order.
    pub closed spec fn spec_endian(self) -> Endian {
        self.endian
    }

    /// The number of file entries.
    pub closed spec fn spec_num_files(self) -> int {
        self.num_files as int
    }

    /// The start of the file data area.
    pub closed spec fn spec_data_offset(self) -> int {
        self.data_offset as int
    }

    /// The start of the name table.
    pub closed spec fn spec_names_offset(self) -> int {
        self.names_offset as int
    }

    /// The start of the file-allocation table.
    pub closed spec fn spec_entries_offset(self) -> int {
        self.entries_offset as int
    }

    /// The hash multiplier the archive's name hashes use.
    pub closed spec fn spec_hash_multiplier(self) -> u32 {
        self.hash_multiplier
    }

    /// A reader is well formed when its offsets describe the layout its
    /// constructor checked: the table at 0x20, the name table right after
    /// the entries, both within the buffer.
    pub open spec fn wf(self) -> bool {
        &&& self.spec_entries_offset() == 0x20
        &&& 0 <= self.spec_num_files() < 0x4000
        &&& self.spec_names_offset() == spec_sarc_names_offset(self.spec_num_files())
        &&& self.spec_names_offset() <= self.spec_data().len()
        &&& self.spec_data().len() <= usize::MAX
        &&& self.spec_data_offset() >= self.spec_names_offset()
    }

    /// The name hash of the file-allocation entry at `i`.
    pub open spec fn spec_fat_hash(self, i: int) -> u32 {
        spec_u32_at(self.spec_data(), 0x20 + 16 * i, self.spec_endian())
    }

    /// The name field of the entry at `i`: zero when nameless, else a flag
    /// bit and the name's word offset in the name table.
    pub open spec fn spec_fat_name_field(self, i: int) -> u32 {
        spec_u32_at(self.spec_data(), 0x20 + 16 * i + 4, self.spec_endian())
    }

    /// The data-begin field of the entry at `i`, relative to the data area.
    pub open spec fn spec_fat_begin(self, i: int) -> u32 {
        spec_u32_at(self.spec_data(), 0x20 + 16 * i + 8, self.spec_endian())
    }

    /// The data-end field of the entry at `i`, relative to the data area.
    pub open spec fn spec_fat_end(self, i: int) -> u32 {
        spec_u32_at(self.spec_data(), 0x20 + 16 * i + 12, self.spec_endian())
    }

    /// Whether the file-allocation table is sorted by hash, the order the
    /// format requires for binary search.
    pub open spec fn spec_entries_sorted(self) -> bool {
        forall|i: int, j: int|
            0 <= i <= j < self.spec_num_files() ==> self.spec_fat_hash(i) <= self.spec_fat_hash(j)
    }

    /// Whether the hashes of the file-allocation table strictly ascend:
    /// sorted, and no two entries collide. Lookups are then complete.
    pub open spec fn spec_entries_strictly_sorted(self) -> bool {
        forall|i: int, j: int|
            0 <= i < j < self.spec_num_files() ==> self.spec_fat_hash(i) < self.spec_fat_hash(j)
    }

    /// Strictly ascending hashes are in particular sorted.
    pub proof fn lemma_strictly_sorted_is_sorted(self)
        requires
            self.spec_entries_strictly_sorted(),
        ensures
            self.spec_entries_sorted(),
    {
        assert forall|i: int, j: int|
            0 <= i <= j < self.spec_num_files() implies self.spec_fat_hash(i)
            <= self.spec_fat_hash(j) by {
            if i < j {
                assert(self.spec_fat_hash(i) < self.spec_fat_hash(j));
            }
        }
    }

    /// Parses a SARC archive from binary data. Succeeds exactly on a
    /// buffer whose SARC, SFAT and SFNT headers pass every structural
    /// check of the format.
    pub fn new(data: &'a [u8]) -> (r: Result<Sarc<'a>, Error>)
        ensures
            r is Ok <==> spec_sarc_ok(data@),
            r matches Ok(s) ==> {
                &&& s.wf()
                &&& s.spec_data() == data@
                &&& Some(s.spec_endian()) == spec_sarc_bom(data@)
                &&& s.spec_num_files() == spec_sarc_num_files(data@, s.spec_endian()) as int
                &&& s.spec_data_offset() == spec_u32_at(data@, 12, s.spec_endian()) as int
                &&& s.spec_hash_multiplier() == spec_u32_at(data@, 0x1c, s.spec_endian())
            },
            data@.len() < 0x40 ==> (r matches Err(e) && e matches Error::InsufficientData(f, w)
                && f == data@.len() && w == 0x40),
            data@.len() >= 0x40 && !spec_sarc_magic_ok(data@) ==> (r matches Err(e)
                && e is BadMagic),
            data@.len() >= 0x40 && spec_sarc_magic_ok(data@) && !spec_sarc_ok(data@) ==> (
            r matches Err(e) && (e is InvalidData || e is InsufficientData)),
    {
        let n: usize = data.len();
        if n < 0x40 {
            return Err(Error::InsufficientData(n, 0x40));
        }
        if !(*slice_index_get(data, 0) == 0x53 && *slice_index_get(data, 1) == 0x41
            && *slice_index_get(data, 2) == 0x52 && *slice_index_get(data, 3) == 0x43) {
            return Err(Error::BadMagic("SARC"));
        }
        let b6 = *slice_index_get(data, 6);
        let b7 = *slice_index_get(data, 7);
        let endian: Endian = if b6 == 0xfe && b7 == 0xff {
            Endian::Big
        } else if b6 == 0xff && b7 == 0xfe {
            Endian::Little
        } else {
            return Err(Error::InvalidData("Invalid BOM"));
        };
        if read_u16(data, 16, endian) != 0x100 {
            return Err(Error::InvalidData("Invalid SARC version (expected 0x100)"));
        }
        if read_u16(data, 4, endian) != 0x14 {
            return Err(Error::InvalidData("SARC header wrong size (expected 0x14)"));
        }
        if !(*slice_index_get(data, 0x14) == 0x53 && *slice_index_get(data, 0x15) == 0x46
            && *slice_index_get(data, 0x16) == 0x41 && *slice_index_get(data, 0x17) == 0x54) {
            return Err(Error::InvalidData("Bad SFAT header magic"));
        }
        if read_u16(data, 0x18, endian) != 0x0c {
            return Err(Error::InvalidData("SFAT header wrong size (expected 0x0C)"));
        }
        let num_files = read_u16(data, 0x1a, endian);
        if num_files >> 14 != 0 {
            return Err(Error::InvalidData("Too many files in SARC"));
        }
        let hash_multiplier = read_u32(data, 0x1c, endian);
        let data_offset = read_u32(data, 12, endian);
        let fnt_offset: usize = 0x20 + 16 * (num_files as usize);
        if n < fnt_offset + 8 {
            return Err(Error::InsufficientData(n, fnt_offset + 8));
        }
        if !(*slice_index_get(data, fnt_offset) == 0x53 && *slice_index_get(data, fnt_offset + 1)
            == 0x46 && *slice_index_get(data, fnt_offset + 2) == 0x4e && *slice_index_get(
            data,
            fnt_offset + 3,
        ) == 0x54) {
            return Err(Error::InvalidData("Bad SFNT header magic"));
        }
        if read_u16(data, fnt_offset + 4, endian) != 0x08 {
            return Err(Error::InvalidData("SFNT header wrong size (expected 0x8)"));
        }
        let names_offset: usize = fnt_offset + 8;
        if (data_offset as usize) < names_offset {
            return Err(Error::InvalidData("Invalid name table offset in SARC"));
        }
        proof {
            assert(num_files < 0x4000) by (bit_vector)
                requires
                    num_files >> 14 == 0u16,
            {
            }
        }
        Ok(
            Sarc {
                num_files,
                entries_offset: 0x20,
                hash_multiplier,
                data_offset,
                names_offset: names_offset as u32,
                endian,
                data,
            },
        )
    }

    /// Get the number of files that are stored in the archive.
    pub fn len(&self) -> (r: usize)
        ensures
            r == self.spec_num_files(),
    {
        self.num_files as usize
    }

    /// Check if the SARC contains no files.
    pub fn is_empty(&self) -> (r: bool)
        ensures
            r == (self.spec_num_files() == 0),
    {
        self.num_files == 0
    }

    /// Get the offset to the beginning of file data.
    pub fn data_offset(&self) -> (r: usize)
        ensures
            r == self.spec_data_offset(),
    {
        self.data_offset as usize
    }

    /// Get the archive endianness.
    pub fn endian(&self) -> (r: Endian)
        ensures
            r == self.spec_endian(),
    {
        self.endian
    }

    /// Whether the data range of the entry at `i` lies inside the buffer.
    pub open spec fn spec_file_range_ok(self, i: int) -> bool {
        &&& self.spec_fat_begin(i) <= self.spec_fat_end(i)
        &&& self.spec_data_offset() + self.spec_fat_end(i) <= self.spec_data().len()
    }

    /// The data of the entry at `i`.
    pub open spec fn spec_file_data(self, i: int) -> Seq<u8> {
        self.spec_data().subrange(
            self.spec_data_offset() + self.spec_fat_begin(i),
            self.spec_data_offset() + self.spec_fat_end(i),
        )
    }

    /// Whether the entry at `i` records a name.
    pub open spec fn spec_has_name(self, i: int) -> bool {
        self.spec_fat_name_field(i) != 0
    }

    /// Where the name of the entry at `i` starts in the buffer.
    pub open spec fn spec_name_pos(self, i: int) -> int {
        self.spec_names_offset() + (self.spec_fat_name_field(i) & 0xffffff) * 4
    }

    /// Whether the name of the entry at `i` lies inside the buffer and is
    /// NUL-terminated.
    pub open spec fn spec_name_found(self, i: int) -> bool {
        &&& self.spec_name_pos(i) <= self.spec_data().len()
        &&& spec_find_nul(self.spec_data(), self.spec_name_pos(i)) is Some
    }

    /// The name bytes of the entry at `i`: from the name's start up to its
    /// NUL terminator.
    pub open spec fn spec_name_bytes(self, i: int) -> Seq<u8> {
        self.spec_data().subrange(
            self.spec_name_pos(i),
            spec_find_nul(self.spec_data(), self.spec_name_pos(i))->0,
        )
    }

    /// Whether the entry at `i` parses as a file: the index in range, the
    /// data range inside the buffer, and any name terminated and UTF-8.
    pub open spec fn spec_file_ok(self, i: int) -> bool {
        &&& 0 <= i < self.spec_num_files()
        &&& self.spec_file_range_ok(i)
        &&& self.spec_has_name(i) ==> self.spec_name_found(i) && vstd::utf8::valid_utf8(
            self.spec_name_bytes(i),
        )
    }

    /// What a returned `File` holds of the entry at `i`.
    pub open spec fn spec_file_matches(self, i: int, f: File<'a>) -> bool {
        &&& f.index == i
        &&& f.data@ == self.spec_file_data(i)
        &&& f.name is Some <==> self.spec_has_name(i)
        &&& f.name matches Some(nm) ==> nm.spec_bytes() == self.spec_name_bytes(i)
    }

    /// Get a file by index. Succeeds exactly when the entry's index is in
    /// range, its data range lies inside the buffer, and its name, when
    /// recorded, is NUL-terminated UTF-8.
    pub fn file_at(&self, index: usize) -> (r: Result<File<'a>, Error>)
        requires
            self.wf(),
        ensures
            r is Ok <==> self.spec_file_ok(index as int),
            r matches Ok(f) ==> self.spec_file_matches(index as int, f),
            r matches Err(e) ==> (e is InvalidData || e is InvalidUtf8),
            r matches Err(e) && e is InvalidUtf8 ==> index < self.spec_num_files()
                && self.spec_file_range_ok(index as int) && self.spec_has_name(index as int)
                && self.spec_name_found(index as int) && !vstd::utf8::valid_utf8(
                self.spec_name_bytes(index as int),
            ),
    {
        if index >= self.num_files as usize {
            return Err(Error::InvalidData("No file in SARC at given index"));
        }
        let dlen: usize = self.data.len();
        let eo: usize = 0x20 + 16 * index;
        let name_field = read_u32(self.data, eo + 4, self.endian);
        let begin = read_u32(self.data, eo + 8, self.endian);
        let end = read_u32(self.data, eo + 12, self.endian);
        let data_offset = self.data_offset as usize;
        if begin > end || (data_offset as u64) + (end as u64) > (dlen as u64) {
            return Err(Error::InvalidData("Invalid file data range in SARC"));
        }
        let name: Option<&'a str> = if name_field != 0 {
            proof {
                assert(name_field & 0xffffff <= 0xffffff) by (bit_vector);
            }
            let word: usize = (name_field & 0xffffff) as usize;
            let name_pos: usize = self.names_offset as usize + word * 4;
            if name_pos > dlen {
                return Err(Error::InvalidData("Invalid file name offset in SARC"));
            }
            match find_nul_from(self.data, name_pos) {
                None => {
                    return Err(Error::InvalidData("SARC filename contains unterminated string"));
                }
                Some(k) => {
                    proof {
                        lemma_find_nul(self.data@, name_pos as int);
                    }
                    let bytes = slice_subrange(self.data, name_pos, k);
                    match bytes_as_str(bytes) {
                        None => {
                            return Err(Error::InvalidUtf8);
                        }
                        Some(s) => Some(s),
                    }
                }
            }
        } else {
            None
        };
        let dslice = slice_subrange(self.data, data_offset + begin as usize, data_offset + end as usize);
        Ok(File { name, data: dslice, index })
    }

    /// Looks a file name up in the sorted file-allocation table by the
    /// hash of its name; an index whose entry carries that hash, when one
    /// exists.
    fn find_file(&self, file: &str) -> (r: Option<usize>)
        requires
            self.wf(),
        ensures
            r matches Some(i) ==> i < self.spec_num_files() && self.spec_fat_hash(i as int)
                == spec_hash_name(self.spec_hash_multiplier(), file.spec_bytes()),
            self.spec_entries_sorted() && r is None ==> forall|i: int|
                0 <= i < self.spec_num_files() ==> self.spec_fat_hash(i) != spec_hash_name(
                    self.spec_hash_multiplier(),
                    file.spec_bytes(),
                ),
    {
        let needle = crate::util::hash_name(self.hash_multiplier, file);
        let n = self.num_files as usize;
        let mut lo: usize = 0;
        let mut hi: usize = n;
        while lo < hi
            invariant
                self.wf(),
                lo <= hi <= n,
                n == self.spec_num_files(),
                needle == spec_hash_name(self.spec_hash_multiplier(), file.spec_bytes()),
                self.spec_entries_sorted() ==> forall|k: int|
                    0 <= k < lo ==> self.spec_fat_hash(k) < needle,
                self.spec_entries_sorted() ==> forall|k: int|
                    hi <= k < n ==> self.spec_fat_hash(k) > needle,
            decreases hi - lo,
        {
            let mid = lo + (hi - lo) / 2;
            let h = read_u32(self.data, 0x20 + 16 * mid, self.endian);
            if h == needle {
                return Some(mid);
            } else if h < needle {
                proof {
                    if self.spec_entries_sorted() {
                        assert forall|k: int| 0 <= k < mid + 1 implies self.spec_fat_hash(k)
                            < needle by {
                            assert(self.spec_fat_hash(k) <= self.spec_fat_hash(mid as int));
                        }
                    }
                }
                lo = mid + 1;
            } else {
                proof {
                    if self.spec_entries_sorted() {
                        assert forall|k: int| mid <= k < n implies self.spec_fat_hash(k)
                            > needle by {
                            assert(self.spec_fat_hash(mid as int) <= self.spec_fat_hash(k));
                        }
                    }
                }
                hi = mid;
            }
        }
        None
    }

    /// Get a file by name, returning `None` on its absence or any error.
    /// If you need to know the error, use `try_get`.
    pub fn get(&self, file: &str) -> (r: Option<File<'a>>)
        requires
            self.wf(),
        ensures
            r matches Some(f) ==> exists|i: int|
                0 <= i < self.spec_num_files() && self.spec_fat_hash(i) == spec_hash_name(
                    self.spec_hash_multiplier(),
                    file.spec_bytes(),
                ) && self.spec_file_ok(i) && self.spec_file_matches(i, f),
            self.spec_entries_sorted() && (forall|i: int|
                0 <= i < self.spec_num_files() ==> self.spec_fat_hash(i) != spec_hash_name(
                    self.spec_hash_multiplier(),
                    file.spec_bytes(),
                )) ==> r is None,
            self.spec_entries_strictly_sorted() && r is None ==> forall|i: int|
                0 <= i < self.spec_num_files() ==> (self.spec_fat_hash(i) != spec_hash_name(
                    self.spec_hash_multiplier(),
                    file.spec_bytes(),
                ) || !self.spec_file_ok(i)),
    {
        let ghost needle = spec_hash_name(self.spec_hash_multiplier(), file.spec_bytes());
        match self.find_file(file) {
            None => {
                proof {
                    if self.spec_entries_strictly_sorted() {
                        self.lemma_strictly_sorted_is_sorted();
                    }
                }
                None
            }
            Some(i) => {
                match self.file_at(i) {
                    Ok(f) => Some(f),
                    Err(_) => {
                        proof {
                            if self.spec_entries_strictly_sorted() {
                                assert forall|j: int|
                                    0 <= j < self.spec_num_files() implies (self.spec_fat_hash(j)
                                    != needle || !self.spec_file_ok(j)) by {
                                    if j < i {
                                        assert(self.spec_fat_hash(j) < self.spec_fat_hash(i as int));
                                    } else if j > i {
                                        assert(self.spec_fat_hash(i as int) < self.spec_fat_hash(j));
                                    }
                                }
                            }
                        }
                        None
                    }
                }
            }
        }
    }

    /// Get a file by name, distinguishing a parse failure from the
    /// absence of the file. If you don't care about errors, use `get`.
    pub fn try_get(&self, file: &str) -> (r: Result<Option<File<'a>>, Error>)
        requires
            self.wf(),
        ensures
            r matches Ok(Some(f)) ==> exists|i: int|
                0 <= i < self.spec_num_files() && self.spec_fat_hash(i) == spec_hash_name(
                    self.spec_hash_multiplier(),
                    file.spec_bytes(),
                ) && self.spec_file_ok(i) && self.spec_file_matches(i, f),
            self.spec_entries_sorted() && (forall|i: int|
                0 <= i < self.spec_num_files() ==> self.spec_fat_hash(i) != spec_hash_name(
                    self.spec_hash_multiplier(),
                    file.spec_bytes(),
                )) ==> r matches Ok(None),
            self.spec_entries_sorted() && r is Ok && r->Ok_0 is None ==> forall|i: int|
                0 <= i < self.spec_num_files() ==> self.spec_fat_hash(i) != spec_hash_name(
                    self.spec_hash_multiplier(),
                    file.spec_bytes(),
                ),
            r matches Err(e) ==> (e is InvalidData || e is InvalidUtf8) && exists|i: int|
                0 <= i < self.spec_num_files() && self.spec_fat_hash(i) == spec_hash_name(
                    self.spec_hash_multiplier(),
                    file.spec_bytes(),
                ) && !(#[trigger] self.spec_file_ok(i)),
            self.spec_entries_strictly_sorted() && r is Ok && r->Ok_0 is None ==> forall|i: int|
                0 <= i < self.spec_num_files() ==> (self.spec_fat_hash(i) != spec_hash_name(
                    self.spec_hash_multiplier(),
                    file.spec_bytes(),
                ) || !self.spec_file_ok(i)),
    {
        match self.find_file(file) {
            None => Ok(None),
            Some(i) => {
                match self.file_at(i) {
                    Ok(f) => Ok(Some(f)),
                    Err(e) => {
                        proof {
                            assert(!self.spec_file_ok(i as int));
                        }
                        Err(e)
                    }
                }
            }
        }
    }

    /// Get file data by name, distinguishing a parse failure from the
    /// absence of the file. The name table is not consulted, so a bad
    /// name does not fail the call.
    pub fn try_get_data(&self, file: &str) -> (r: Result<Option<&'a [u8]>, Error>)
        requires
            self.wf(),
        ensures
            r matches Ok(Some(d)) ==> exists|i: int|
                0 <= i < self.spec_num_files() && self.spec_fat_hash(i) == spec_hash_name(
                    self.spec_hash_multiplier(),
                    file.spec_bytes(),
                ) && self.spec_file_range_ok(i) && d@ == self.spec_file_data(i),
            self.spec_entries_sorted() && (forall|i: int|
                0 <= i < self.spec_num_files() ==> self.spec_fat_hash(i) != spec_hash_name(
                    self.spec_hash_multiplier(),
                    file.spec_bytes(),
                )) ==> r matches Ok(None),
            self.spec_entries_sorted() && r is Ok && r->Ok_0 is None ==> forall|i: int|
                0 <= i < self.spec_num_files() ==> self.spec_fat_hash(i) != spec_hash_name(
                    self.spec_hash_multiplier(),
                    file.spec_bytes(),
                ),
            r matches Err(e) ==> e is InvalidData && exists|i: int|
                0 <= i < self.spec_num_files() && self.spec_fat_hash(i) == spec_hash_name(
                    self.spec_hash_multiplier(),
                    file.spec_bytes(),
                ) && !(#[trigger] self.spec_file_range_ok(i)),
    {
        match self.find_file(file) {
            None => Ok(None),
            Some(i) => {
                let eo: usize = 0x20 + 16 * i;
                let begin = read_u32(self.data, eo + 8, self.endian);
                let end = read_u32(self.data, eo + 12, self.endian);
                let dlen: usize = self.data.len();
                let data_offset = self.data_offset as usize;
                if begin > end || (data_offset as u64) + (end as u64) > (dlen as u64) {
                    proof {
                        assert(!self.spec_file_range_ok(i as int));
                    }
                    return Err(Error::InvalidData("Invalid file data range in SARC"));
                }
                Ok(
                    Some(
                        slice_subrange(
                            self.data,
                            data_offset + begin as usize,
                            data_offset + end as usize,
                        ),
                    ),
                )
            }
        }
    }

    /// Get file data by name, returning `None` on its absence or any
    /// error. If you need to know the error, use `try_get_data`.
    pub fn get_data(&self, file: &str) -> (r: Option<&'a [u8]>)
        requires
            self.wf(),
        ensures
            r matches Some(d) ==> exists|i: int|
                0 <= i < self.spec_num_files() && self.spec_fat_hash(i) == spec_hash_name(
                    self.spec_hash_multiplier(),
                    file.spec_bytes(),
                ) && self.spec_file_range_ok(i) && d@ == self.spec_file_data(i),
            self.spec_entries_sorted() && (forall|i: int|
                0 <= i < self.spec_num_files() ==> self.spec_fat_hash(i) != spec_hash_name(
                    self.spec_hash_multiplier(),
                    file.spec_bytes(),
                )) ==> r is None,
            self.spec_entries_strictly_sorted() && r is None ==> forall|i: int|
                0 <= i < self.spec_num_files() ==> (self.spec_fat_hash(i) != spec_hash_name(
                    self.spec_hash_multiplier(),
                    file.spec_bytes(),
                ) || !self.spec_file_range_ok(i)),
    {
        let ghost needle = spec_hash_name(self.spec_hash_multiplier(), file.spec_bytes());
        match self.try_get_data(file) {
            Ok(Some(d)) => Some(d),
            Ok(None) => {
                proof {
                    if self.spec_entries_strictly_sorted() {
                        self.lemma_strictly_sorted_is_sorted();
                    }
                }
                None
            }
            Err(_) => {
                proof {
                    if self.spec_entries_strictly_sorted() {
                        let m = choose|m: int|
                            0 <= m < self.spec_num_files() && self.spec_fat_hash(m) == needle && !(
                            #[trigger] self.spec_file_range_ok(m));
                        assert forall|j: int|
                            0 <= j < self.spec_num_files() implies (self.spec_fat_hash(j) != needle
                            || !self.spec_file_range_ok(j)) by {
                            if j < m {
                                assert(self.spec_fat_hash(j) < self.spec_fat_hash(m));
                            } else if j > m {
                                assert(self.spec_fat_hash(m) < self.spec_fat_hash(j));
                            }
                        }
                    }
                }
                None
            }
        }
    }

    /// Returns a cursor over the contained files.
    pub fn files(&'a self) -> (r: FileIterator<'a>)
        requires
            self.wf(),
        ensures
            r.spec_sarc() == self,
            r.spec_index() == 0,
    {
        FileIterator { sarc: self, index: 0 }
    }

    /// Collects every file of the archive; stops early at the first entry
    /// that does not parse.
    pub fn files_vec(&self) -> (r: Vec<File<'a>>)
        requires
            self.wf(),
        ensures
            r@.len() <= self.spec_num_files(),
            forall|i: int| 0 <= i < r@.len() ==> self.spec_file_ok(i) && self.spec_file_matches(
                i,
                r@[i],
            ),
            (forall|i: int| 0 <= i < self.spec_num_files() ==> self.spec_file_ok(i)) ==> r@.len()
                == self.spec_num_files(),
    {
        let n = self.num_files as usize;
        let mut out: Vec<File<'a>> = Vec::new();
        let mut i: usize = 0;
        while i < n
            invariant
                self.wf(),
                i <= n,
                n == self.spec_num_files(),
                out@.len() == i,
                forall|j: int| 0 <= j < i ==> self.spec_file_ok(j) && self.spec_file_matches(
                    j,
                    out@[j],
                ),
            decreases n - i,
        {
            match self.file_at(i) {
                Ok(f) => {
                    out.push(f);
                }
                Err(_) => {
                    return out;
                }
            }
            i = i + 1;
        }
        out
    }
}

/// The name-and-data pair of the entry at `i`: the name as its bytes when
/// one is recorded, and the data slice.
impl<'a> Sarc<'a> {
    /// The name (as bytes, when recorded) and data of the entry at `i`.
    pub open spec fn spec_file_entry(self, i: int) -> (Option<Seq<u8>>, Seq<u8>) {
        (
            if self.spec_has_name(i) {
                Some(self.spec_name_bytes(i))
            } else {
                None
            },
            self.spec_file_data(i),
        )
    }

    /// Guess the minimum data alignment for files that are stored in the
    /// archive: the greatest common divisor of every file's absolute
    /// data offset, falling back to 4 when that is not a power of two
    /// that the machine can hold.
    pub fn guess_min_alignment(&self) -> (r: usize)
        requires
            self.wf(),
        ensures
            ({
                let g = self.spec_min_align_fold(self.spec_num_files());
                r == if g <= usize::MAX && crate::util::spec_is_valid_alignment(g as usize) {
                    g as usize
                } else {
                    4
                }
            }),
            crate::util::spec_is_valid_alignment(r),
    {
        let n = self.num_files as usize;
        let mut g: u64 = 0;
        let mut i: usize = 0;
        while i < n
            invariant
                self.wf(),
                i <= n,
                n == self.spec_num_files(),
                g <= 0x200000000,
                g == self.spec_min_align_fold(i as int),
            decreases n - i,
        {
            let eo: usize = 0x20 + 16 * i;
            let begin = read_u32(self.data, eo + 8, self.endian);
            let v: u64 = (self.data_offset as u64) + (begin as u64);
            proof {
                if g == 0 {
                    crate::util::lemma_gcd_zero_left(v as nat);
                } else {
                    crate::util::lemma_gcd_le(g as nat, v as nat);
                }
            }
            g = crate::util::gcd_u64(g, v);
            i = i + 1;
        }
        proof {
            crate::util::lemma_common_alignments();
        }
        if g <= usize::MAX as u64 {
            let gs = g as usize;
            if crate::util::is_valid_alignment(gs) {
                return gs;
            }
        }
        4
    }

    /// The greatest common divisor of the absolute data offsets of the
    /// first `k` file entries; zero when there are none.
    pub open spec fn spec_min_align_fold(self, k: int) -> nat
        decreases k,
    {
        if k <= 0 {
            0
        } else {
            crate::util::spec_gcd(
                self.spec_min_align_fold(k - 1),
                (self.spec_data_offset() + self.spec_fat_begin(k - 1)) as nat,
            )
        }
    }

    /// Returns true exactly when the two archives hold the same ordered
    /// sequence of files, each compared as its optional name and its
    /// data, provided every entry of both archives parses; an archive
    /// with any broken entry is equal to nothing.
    pub fn are_files_equal(sarc1: &Sarc, sarc2: &Sarc) -> (r: bool)
        requires
            sarc1.wf(),
            sarc2.wf(),
        ensures
            (forall|i: int| 0 <= i < sarc1.spec_num_files() ==> sarc1.spec_file_ok(i)) && (
            forall|i: int| 0 <= i < sarc2.spec_num_files() ==> sarc2.spec_file_ok(i)) ==> (r <==> (
            sarc1.spec_num_files() == sarc2.spec_num_files() && forall|i: int|
                0 <= i < sarc1.spec_num_files() ==> sarc1.spec_file_entry(i)
                    == sarc2.spec_file_entry(i))),
            (exists|i: int|
                0 <= i < sarc1.spec_num_files() && !(#[trigger] sarc1.spec_file_ok(i))) || (
            exists|i: int|
                0 <= i < sarc2.spec_num_files() && !(#[trigger] sarc2.spec_file_ok(i))) ==> !r,
    {
        let n1 = sarc1.num_files as usize;
        let n2 = sarc2.num_files as usize;
        if n1 != n2 {
            return false;
        }
        let mut i: usize = 0;
        while i < n1
            invariant
                sarc1.wf(),
                sarc2.wf(),
                i <= n1,
                n1 == sarc1.spec_num_files(),
                n1 == sarc2.spec_num_files(),
                forall|j: int| 0 <= j < i ==> sarc1.spec_file_entry(j) == sarc2.spec_file_entry(j),
                forall|j: int| 0 <= j < i ==> #[trigger] sarc1.spec_file_ok(j),
                forall|j: int| 0 <= j < i ==> #[trigger] sarc2.spec_file_ok(j),
            decreases n1 - i,
        {
            let f1 = match sarc1.file_at(i) {
                Ok(f) => f,
                Err(_) => {
                    return false;
                }
            };
            let f2 = match sarc2.file_at(i) {
                Ok(f) => f,
                Err(_) => {
                    return false;
                }
            };
            let names_equal: bool = match (f1.name, f2.name) {
                (None, None) => true,
                (Some(a), Some(b)) => crate::util::cmp_bytes(a.as_bytes(), b.as_bytes()) == 0,
                _ => false,
            };
            if !names_equal {
                proof {
                    assert(sarc1.spec_file_entry(i as int).0 != sarc2.spec_file_entry(i as int).0);
                }
                return false;
            }
            if crate::util::cmp_bytes(f1.data, f2.data) != 0 {
                proof {
                    assert(sarc1.spec_file_entry(i as int).1 != sarc2.spec_file_entry(i as int).1);
                }
                return false;
            }
            proof {
                assert(sarc1.spec_file_entry(i as int) == sarc2.spec_file_entry(i as int));
                assert(sarc1.spec_file_ok(i as int));
                assert(sarc2.spec_file_ok(i as int));
            }
            i = i + 1;
        }
        true
    }
}

/// A cursor over the file entries of a `Sarc`; ends early at the first
/// entry that does not parse.
pub struct FileIterator<'a> {
    sarc: &'a Sarc<'a>,
    index: usize,
}

impl<'a> FileIterator<'a> {
    /// The position of the cursor.
    pub closed spec fn spec_index(self) -> int {
        self.index as int
    }

    /// The archive the cursor walks.
    pub closed spec fn spec_sarc(self) -> &'a Sarc<'a> {
        self.sarc
    }

    /// The next file entry: the one at the cursor, when it parses.
    pub fn next(&mut self) -> (r: Option<File<'a>>)
        requires
            old(self).spec_sarc().wf(),
        ensures
            final(self).spec_sarc() == old(self).spec_sarc(),
            r matches Some(f) ==> {
                &&& old(self).spec_sarc().spec_file_ok(old(self).spec_index())
                &&& old(self).spec_sarc().spec_file_matches(old(self).spec_index(), f)
                &&& final(self).spec_index() == old(self).spec_index() + 1
            },
            r is None ==> !old(self).spec_sarc().spec_file_ok(old(self).spec_index())
                && final(self).spec_index() == old(self).spec_index(),
    {
        if self.index >= self.sarc.num_files as usize {
            return None;
        }
        match self.sarc.file_at(self.index) {
            Ok(f) => {
                self.index = self.index + 1;
                Some(f)
            }
            Err(_) => None,
        }
    }
}

} // verus!
