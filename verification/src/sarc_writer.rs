//! The SARC archive writer: owns an insertion-ordered list of named
//! files, computes each file's required data alignment from the
//! per-extension policy and from sniffing known formats, sorts entries by
//! name hash, and lays the archive out with aligned payloads.

use vstd::prelude::*;
use vstd::slice::{slice_index_get, slice_subrange};
use vstd::string::StringSliceAdditionalSpecFns;
use vstd::utf8::encode_utf8;

use crate::sarc::Sarc;
use crate::util::{
    spec_align_up,
    cmp_bytes, lcm_checked, spec_hash_name, spec_is_valid_alignment, spec_lcm, spec_u16_at,
    spec_u32_at,
};
use crate::{Endian, Error};

verus! {

/// The extension of a file name: the bytes after the last dot, empty when
/// there is none.
pub open spec fn spec_find_last_dot(name: Seq<u8>, k: int) -> Option<int>
    decreases k,
{
    if k <= 0 {
        None
    } else if name[k - 1] == 0x2e {
        Some(k - 1)
    } else {
        spec_find_last_dot(name, k - 1)
    }
}

/// The extension bytes of a file name.
pub open spec fn spec_ext(name: Seq<u8>) -> Seq<u8> {
    match spec_find_last_dot(name, name.len() as int) {
        None => Seq::empty(),
        Some(p) => name.subrange(p + 1, name.len() as int),
    }
}

/// Extracts the extension of a file name: the bytes after the last dot.
pub fn ext_bytes(name: &[u8]) -> (r: &[u8])
    ensures
        r@ == spec_ext(name@),
{
    let n: usize = name.len();
    let mut k: usize = n;
    while k > 0
        invariant
            k <= n,
            n == name@.len(),
            spec_find_last_dot(name@, n as int) == spec_find_last_dot(name@, k as int),
        decreases k,
    {
        if *slice_index_get(name, k - 1) == 0x2e {
            return slice_subrange(name, k, n);
        }
        k = k - 1;
    }
    slice_subrange(name, n, n)
}

/// The alignment registered for an extension, scanning in order.
pub open spec fn spec_amap_get_from(m: Seq<(String, usize)>, ext: Seq<u8>, i: int) -> Option<usize>
    decreases m.len() - i,
{
    if i < 0 || i >= m.len() {
        None
    } else if encode_utf8(m[i].0@) == ext {
        Some(m[i].1)
    } else {
        spec_amap_get_from(m, ext, i + 1)
    }
}

/// The alignment registered for an extension, if any.
pub open spec fn spec_amap_get(m: Seq<(String, usize)>, ext: Seq<u8>) -> Option<usize> {
    spec_amap_get_from(m, ext, 0)
}

/// Whether an extension is one of the registered resource-class
/// ("factory") extensions that skip binary-file sniffing outside legacy
/// mode.
pub open spec fn spec_factory_contains(f: Seq<String>, ext: Seq<u8>) -> bool {
    exists|i: int| 0 <= i < f.len() && encode_utf8(f[i]@) == ext
}

/// Whether a buffer looks like a SARC archive, plain or Yaz0-compressed.
pub open spec fn spec_is_file_sarc(data: Seq<u8>) -> bool {
    data.len() >= 0x20 && ((data[0] == 0x53 && data[1] == 0x41 && data[2] == 0x52 && data[3]
        == 0x43) || (data[0] == 0x59 && data[1] == 0x61 && data[2] == 0x7a && data[3] == 0x30
        && data[0x11] == 0x53 && data[0x12] == 0x41 && data[0x13] == 0x52 && data[0x14] == 0x43))
}

/// The alignment a "new binary file" header asks for: a byte-order mark
/// at 0xC, an alignment exponent at 0xE, validated by the file size field
/// at 0x1C. One (no requirement) when the shape does not match, or the
/// exponent does not denote a representable power of two.
pub open spec fn spec_align_new_binary(data: Seq<u8>) -> nat {
    if data.len() <= 0x20 {
        1
    } else {
        let bom = if data[0xc] == 0xfe && data[0xd] == 0xff {
            Some(Endian::Big)
        } else if data[0xc] == 0xff && data[0xd] == 0xfe {
            Some(Endian::Little)
        } else {
            None
        };
        match bom {
            None => 1,
            Some(e) => {
                if spec_u32_at(data, 0x1c, e) != data.len() {
                    1
                } else if data[0xe] < 32 {
                    (1u64 << (data[0xe] as u64)) as nat
                } else {
                    1
                }
            }
        }
    }
}

/// The sniffed binary-file alignment is always positive.
pub proof fn lemma_align_new_binary_pos(data: Seq<u8>)
    ensures
        spec_align_new_binary(data) >= 1,
{
    if data.len() > 0x20 && data[0xe] < 32 {
        let sh = data[0xe] as u64;
        assert(sh < 32 ==> 1u64 <= (1u64 << sh)) by (bit_vector);
    }
}

/// The alignment a Wii U BFLIM image footer asks for: the last 0x28 bytes
/// begin with `FLIM`, and the last two bytes hold a big-endian alignment.
pub open spec fn spec_align_bflim(data: Seq<u8>) -> nat {
    if data.len() <= 0x28 {
        1
    } else {
        let p = data.len() - 0x28;
        if data[p] == 0x46 && data[p + 1] == 0x4c && data[p + 2] == 0x49 && data[p + 3] == 0x4d {
            spec_u16_at(data, data.len() - 2, Endian::Big) as nat
        } else {
            1
        }
    }
}

/// The data alignment required for one file: the least common multiple of
/// the minimum alignment, the registered extension alignment, 0x2000 for
/// nested SARCs in legacy mode, and the sniffed binary-file and BFLIM
/// alignments where sniffing applies.
pub open spec fn spec_alignment_for_file(
    legacy: bool,
    endian: Endian,
    min_alignment: nat,
    amap: Seq<(String, usize)>,
    factory: Seq<String>,
    name: Seq<u8>,
    data: Seq<u8>,
) -> nat {
    let ext = spec_ext(name);
    let a1 = match spec_amap_get(amap, ext) {
        Some(r) => spec_lcm(min_alignment, r as nat),
        None => min_alignment,
    };
    let a2 = if legacy && spec_is_file_sarc(data) {
        spec_lcm(a1, 0x2000)
    } else {
        a1
    };
    if legacy || !spec_factory_contains(factory, ext) {
        let a3 = spec_lcm(a2, spec_align_new_binary(data));
        if endian is Big {
            spec_lcm(a3, spec_align_bflim(data))
        } else {
            a3
        }
    } else {
        a2
    }
}

/// A simple SARC archive writer.
pub struct SarcWriter {
    /// The byte order the archive is written in.
    pub endian: Endian,
    legacy: bool,
    hash_multiplier: u32,
    min_alignment: usize,
    alignment_map: Vec<(String, usize)>,
    factory_names: Vec<String>,
    /// Files to be written, in insertion order, with unique names.
    pub files: Vec<(String, Vec<u8>)>,
}

impl SarcWriter {
    /// The legacy-mode flag.
    pub closed spec fn spec_legacy(self) -> bool {
        self.legacy
    }

    /// The hash multiplier written to the file-allocation table header.
    pub closed spec fn spec_hash_multiplier(self) -> u32 {
        self.hash_multiplier
    }

    /// The minimum data alignment.
    pub closed spec fn spec_min_alignment(self) -> nat {
        self.min_alignment as nat
    }

    /// The per-extension alignment policy.
    pub closed spec fn spec_alignment_map(self) -> Seq<(String, usize)> {
        self.alignment_map@
    }

    /// The registered resource-class extensions.
    pub closed spec fn spec_factory_names(self) -> Seq<String> {
        self.factory_names@
    }

    /// The files to be written, in insertion order.
    pub closed spec fn spec_files(self) -> Seq<(String, Vec<u8>)> {
        self.files@
    }

    /// The byte order the archive is written in.
    pub closed spec fn spec_endian(self) -> Endian {
        self.endian
    }

    /// A writer is well formed when its minimum alignment and every
    /// registered extension alignment are positive powers of two, and no
    /// two files share a name.
    pub open spec fn wf(self) -> bool {
        &&& spec_is_valid_alignment(self.spec_min_alignment() as usize)
        &&& forall|i: int|
            0 <= i < self.spec_alignment_map().len() ==> spec_is_valid_alignment(
                #[trigger] self.spec_alignment_map()[i].1,
            )
        &&& forall|i: int, j: int|
            0 <= i < j < self.spec_files().len() ==> self.spec_files()[i].0@ != self.spec_files()[j].0@
    }

    /// Well-formedness depends only on the minimum alignment, the
    /// policy entries and the file names.
    proof fn lemma_wf_frame(w1: SarcWriter, w2: SarcWriter)
        requires
            w1.wf(),
            w2.spec_min_alignment() == w1.spec_min_alignment(),
            w2.spec_alignment_map() == w1.spec_alignment_map(),
            w2.spec_files() == w1.spec_files(),
        ensures
            w2.wf(),
    {
        assert forall|i: int|
            0 <= i < w2.spec_alignment_map().len() implies spec_is_valid_alignment(
            (#[trigger] w2.spec_alignment_map()[i]).1,
        ) by {
            assert(spec_is_valid_alignment(w1.spec_alignment_map()[i].1));
        }
        assert forall|i: int, j: int|
            0 <= i < j < w2.spec_files().len() implies w2.spec_files()[i].0@ != w2.spec_files()[
            j
        ].0@ by {
            assert(w1.spec_files()[i].0@ != w1.spec_files()[j].0@);
        }
    }

    /// A fresh writer: the default multiplier 0x65, minimum alignment 4,
    /// no policy entries and no files.
    pub fn new(endian: Endian) -> (r: SarcWriter)
        ensures
            r.wf(),
            r.spec_endian() == endian,
            !r.spec_legacy(),
            r.spec_hash_multiplier() == 0x65,
            r.spec_min_alignment() == 4,
            r.spec_alignment_map() =~= Seq::<(String, usize)>::empty(),
            r.spec_factory_names() =~= Seq::<String>::empty(),
            r.spec_files() =~= Seq::<(String, Vec<u8>)>::empty(),
    {
        proof {
            crate::util::lemma_common_alignments();
        }
        SarcWriter {
            endian,
            legacy: false,
            hash_multiplier: 0x65,
            min_alignment: 4,
            alignment_map: Vec::new(),
            factory_names: Vec::new(),
            files: Vec::new(),
        }
    }

    /// Add a file to the archive: replaces the data of an existing name
    /// in place, else appends.
    pub fn add_file(&mut self, name: String, data: Vec<u8>)
        requires
            old(self).wf(),
        ensures
            final(self).wf(),
            final(self).spec_endian() == old(self).spec_endian(),
            final(self).spec_legacy() == old(self).spec_legacy(),
            final(self).spec_hash_multiplier() == old(self).spec_hash_multiplier(),
            final(self).spec_min_alignment() == old(self).spec_min_alignment(),
            final(self).spec_alignment_map() == old(self).spec_alignment_map(),
            final(self).spec_factory_names() == old(self).spec_factory_names(),
            exists|i: int|
                0 <= i < final(self).spec_files().len() && final(self).spec_files()[i].0@ == name@
                    && #[trigger] final(self).spec_files()[i].1@ == data@,
            (exists|i: int|
                {
                    &&& 0 <= i < old(self).spec_files().len()
                    &&& (#[trigger] old(self).spec_files()[i]).0@ == name@
                    &&& final(self).spec_files() =~= old(self).spec_files().update(
                        i,
                        (name, data),
                    )
                }) || ((forall|i: int|
                0 <= i < old(self).spec_files().len()
                    ==> (#[trigger] old(self).spec_files()[i]).0@ != name@)
                && final(self).spec_files() =~= old(self).spec_files().push((name, data))),
    {
        let n = self.files.len();
        let mut i: usize = 0;
        while i < n
            invariant
                i <= n,
                n == self.spec_files().len(),
                old(self).wf(),
                *self == *old(self),
                forall|j: int| 0 <= j < i ==> self.spec_files()[j].0@ != name@,
            decreases n - i,
        {
            if crate::util::str_eq(self.files[i].0.as_str(), name.as_str()) {
                proof {
                    assert(old(self).spec_files()[i as int].0@ == name@);
                }
                self.files.set(i, (name, data));
                proof {
                    assert(self.spec_files() =~= old(self).spec_files().update(
                        i as int,
                        (name, data),
                    ));
                    assert(self.spec_files()[i as int].0@ == name@);
                    assert(self.spec_files()[i as int].1@ == data@);
                    assert forall|k: int|
                        0 <= k < self.spec_alignment_map().len() implies spec_is_valid_alignment(
                        (#[trigger] self.spec_alignment_map()[k]).1,
                    ) by {
                        assert(spec_is_valid_alignment(old(self).spec_alignment_map()[k].1));
                    }
                    assert forall|p: int, q: int|
                        0 <= p < q < self.spec_files().len() implies self.spec_files()[p].0@ != self.spec_files()[
                        q
                    ].0@ by {
                        assert(old(self).spec_files()[p].0@ != old(self).spec_files()[q].0@);
                    }
                }
                return ;
            }
            i = i + 1;
        }
        self.files.push((name, data));
        proof {
            assert(self.spec_files() =~= old(self).spec_files().push((name, data)));
            assert(self.spec_files()[old(self).spec_files().len() as int].0@ == name@);
            assert(self.spec_files()[old(self).spec_files().len() as int].1@ == data@);
            assert forall|k: int|
                0 <= k < self.spec_alignment_map().len() implies spec_is_valid_alignment(
                (#[trigger] self.spec_alignment_map()[k]).1,
            ) by {
                assert(spec_is_valid_alignment(old(self).spec_alignment_map()[k].1));
            }
            assert forall|p: int, q: int|
                0 <= p < q < self.spec_files().len() implies self.spec_files()[p].0@ != self.spec_files()[q].0@ by {
                if q < old(self).spec_files().len() {
                    assert(old(self).spec_files()[p].0@ != old(self).spec_files()[q].0@);
                }
            }
        }
    }

    /// Builder-style method to add a file to the archive.
    pub fn with_file(self, name: String, data: Vec<u8>) -> (r: SarcWriter)
        requires
            self.wf(),
        ensures
            r.wf(),
            r.spec_endian() == self.spec_endian(),
            r.spec_legacy() == self.spec_legacy(),
            r.spec_hash_multiplier() == self.spec_hash_multiplier(),
            r.spec_min_alignment() == self.spec_min_alignment(),
            r.spec_alignment_map() == self.spec_alignment_map(),
            r.spec_factory_names() == self.spec_factory_names(),
            exists|i: int|
                0 <= i < r.spec_files().len() && r.spec_files()[i].0@ == name@
                    && #[trigger] r.spec_files()[i].1@ == data@,
    {
        let mut w = self;
        w.add_file(name, data);
        w
    }

    /// Remove a file from the archive by name.
    pub fn remove_file(&mut self, name: &str)
        requires
            old(self).wf(),
        ensures
            final(self).wf(),
            final(self).spec_endian() == old(self).spec_endian(),
            final(self).spec_legacy() == old(self).spec_legacy(),
            final(self).spec_hash_multiplier() == old(self).spec_hash_multiplier(),
            final(self).spec_min_alignment() == old(self).spec_min_alignment(),
            final(self).spec_alignment_map() == old(self).spec_alignment_map(),
            final(self).spec_factory_names() == old(self).spec_factory_names(),
            forall|i: int| 0 <= i < final(self).spec_files().len() ==> final(self).spec_files()[i].0@ != name@,
            (exists|i: int|
                {
                    &&& 0 <= i < old(self).spec_files().len()
                    &&& (#[trigger] old(self).spec_files()[i]).0@ == name@
                    &&& final(self).spec_files() =~= old(self).spec_files().remove(i)
                }) || ((forall|i: int|
                0 <= i < old(self).spec_files().len()
                    ==> (#[trigger] old(self).spec_files()[i]).0@ != name@)
                && final(self).spec_files() == old(self).spec_files()),
    {
        let n = self.files.len();
        let mut i: usize = 0;
        while i < n
            invariant
                i <= n,
                n == self.spec_files().len(),
                old(self).wf(),
                *self == *old(self),
                forall|j: int| 0 <= j < i ==> self.spec_files()[j].0@ != name@,
            decreases n - i,
        {
            if crate::util::str_eq(self.files[i].0.as_str(), name) {
                proof {
                    assert(old(self).spec_files()[i as int].0@ == name@);
                }
                self.files.remove(i);
                proof {
                    assert(self.spec_files() =~= old(self).spec_files().remove(i as int));
                    assert forall|k: int|
                        0 <= k < self.spec_alignment_map().len() implies spec_is_valid_alignment(
                        (#[trigger] self.spec_alignment_map()[k]).1,
                    ) by {
                        assert(spec_is_valid_alignment(old(self).spec_alignment_map()[k].1));
                    }
                    assert forall|p: int, q: int|
                        0 <= p < q < self.spec_files().len() implies self.spec_files()[p].0@ != self.spec_files()[
                        q
                    ].0@ by {
                        let p0: int = if p < i { p } else { p + 1 };
                        let q0: int = if q < i { q } else { q + 1 };
                        assert(old(self).spec_files()[p0].0@ != old(self).spec_files()[q0].0@);
                    }
                    assert forall|j: int|
                        0 <= j < self.spec_files().len() implies self.spec_files()[j].0@ != name@ by {
                        let j0: int = if j < i { j } else { j + 1 };
                        assert(self.spec_files()[j] == old(self).spec_files()[j0]);
                        if j0 > i {
                            assert(old(self).spec_files()[i as int].0@ == name@);
                            assert(old(self).spec_files()[i as int].0@ != old(self).spec_files()[j0].0@);
                        }
                    }
                }
                return ;
            }
            i = i + 1;
        }
    }

    /// Get a file's data from the archive by name.
    pub fn get_file(&self, name: &str) -> (r: Option<&Vec<u8>>)
        ensures
            match r {
                Some(d) => exists|i: int|
                    0 <= i < self.spec_files().len() && self.spec_files()[i].0@ == name@ && d@ == self.spec_files()[
                        i
                    ].1@,
                None => forall|i: int| 0 <= i < self.spec_files().len() ==> self.spec_files()[i].0@ != name@,
            },
    {
        let n = self.files.len();
        let mut i: usize = 0;
        while i < n
            invariant
                i <= n,
                n == self.spec_files().len(),
                forall|j: int| 0 <= j < i ==> self.spec_files()[j].0@ != name@,
            decreases n - i,
        {
            if crate::util::str_eq(self.files[i].0.as_str(), name) {
                return Some(&self.files[i].1);
            }
            i = i + 1;
        }
        None
    }

    /// Add or modify a data alignment requirement for a file type. The
    /// alignment must be a power of two; set it to 1 to revert.
    pub fn add_alignment_requirement(&mut self, ext: String, alignment: usize)
        requires
            old(self).wf(),
            spec_is_valid_alignment(alignment),
        ensures
            final(self).wf(),
            final(self).spec_endian() == old(self).spec_endian(),
            final(self).spec_legacy() == old(self).spec_legacy(),
            final(self).spec_hash_multiplier() == old(self).spec_hash_multiplier(),
            final(self).spec_min_alignment() == old(self).spec_min_alignment(),
            final(self).spec_files() == old(self).spec_files(),
            final(self).spec_factory_names() == old(self).spec_factory_names(),
            spec_amap_get(final(self).spec_alignment_map(), encode_utf8(ext@)) == Some(alignment),
            forall|q: Seq<u8>|
                q != encode_utf8(ext@) ==> #[trigger] spec_amap_get(
                    final(self).spec_alignment_map(),
                    q,
                ) == spec_amap_get(old(self).spec_alignment_map(), q),
    {
        let n = self.alignment_map.len();
        let mut i: usize = 0;
        while i < n
            invariant
                i <= n,
                n == self.alignment_map@.len(),
                old(self).wf(),
                spec_is_valid_alignment(alignment),
                *self == *old(self),
                forall|j: int|
                    0 <= j < i ==> encode_utf8((#[trigger] self.alignment_map@[j]).0@)
                        != encode_utf8(ext@),
                forall|j: int|
                    0 <= j <= i ==> spec_amap_get_from(
                        self.alignment_map@,
                        encode_utf8(ext@),
                        0,
                    ) == #[trigger] spec_amap_get_from(self.alignment_map@, encode_utf8(ext@), j),
            decreases n - i,
        {
            if cmp_bytes(self.alignment_map[i].0.as_str().as_bytes(), ext.as_str().as_bytes())
                == 0 {
                proof {
                    assert(encode_utf8(old(self).spec_alignment_map()[i as int].0@)
                        == encode_utf8(ext@));
                }
                self.alignment_map.set(i, (ext, alignment));
                proof {
                    assert(self.alignment_map@ =~= old(self).spec_alignment_map().update(
                        i as int,
                        (ext, alignment),
                    ));
                    assert forall|k: int|
                        0 <= k < self.alignment_map@.len() implies spec_is_valid_alignment(
                        (#[trigger] self.alignment_map@[k]).1,
                    ) by {
                        if k != i {
                            assert(spec_is_valid_alignment(old(self).spec_alignment_map()[k].1));
                        }
                    }
                    assert forall|p: int, q: int|
                        0 <= p < q < self.spec_files().len() implies self.spec_files()[p].0@
                        != self.spec_files()[q].0@ by {
                        assert(old(self).spec_files()[p].0@ != old(self).spec_files()[q].0@);
                    }
                    assert(spec_amap_get_from(self.alignment_map@, encode_utf8(ext@), i as int)
                        == Some(alignment));
                    assert forall|j: int|
                        0 <= j <= i implies spec_amap_get_from(
                        self.alignment_map@,
                        encode_utf8(ext@),
                        j,
                    ) == Some(alignment) by {
                        lemma_amap_skip(self.alignment_map@, encode_utf8(ext@), j, i as int);
                    }
                    assert forall|q: Seq<u8>|
                        q != encode_utf8(ext@) implies #[trigger] spec_amap_get(
                        self.alignment_map@,
                        q,
                    ) == spec_amap_get(old(self).spec_alignment_map(), q) by {
                        lemma_amap_update_other(
                            old(self).spec_alignment_map(),
                            i as int,
                            (ext, alignment),
                            q,
                            0,
                        );
                    }
                }
                return ;
            }
            i = i + 1;
        }
        self.alignment_map.push((ext, alignment));
        proof {
            assert(self.alignment_map@ =~= old(self).spec_alignment_map().push((ext, alignment)));
            assert forall|k: int|
                0 <= k < self.alignment_map@.len() implies spec_is_valid_alignment(
                (#[trigger] self.alignment_map@[k]).1,
            ) by {
                if k < old(self).spec_alignment_map().len() {
                    assert(spec_is_valid_alignment(old(self).spec_alignment_map()[k].1));
                }
            }
            assert forall|p: int, q: int|
                0 <= p < q < self.spec_files().len() implies self.spec_files()[p].0@
                != self.spec_files()[q].0@ by {
                assert(old(self).spec_files()[p].0@ != old(self).spec_files()[q].0@);
            }
            assert(spec_amap_get_from(self.alignment_map@, encode_utf8(ext@), n as int) == Some(
                alignment,
            ));
            assert forall|j: int|
                0 <= j <= n implies spec_amap_get_from(self.alignment_map@, encode_utf8(ext@), j)
                == Some(alignment) by {
                lemma_amap_skip(self.alignment_map@, encode_utf8(ext@), j, n as int);
            }
            assert forall|q: Seq<u8>|
                q != encode_utf8(ext@) implies #[trigger] spec_amap_get(
                self.alignment_map@,
                q,
            ) == spec_amap_get(old(self).spec_alignment_map(), q) by {
                lemma_amap_push_other(old(self).spec_alignment_map(), (ext, alignment), q, 0);
            }
        }
    }

    /// Add files to the archive from a list of (name, data) pairs, in
    /// order, as repeated `add_file` calls.
    pub fn add_files(&mut self, files: Vec<(String, Vec<u8>)>)
        requires
            old(self).wf(),
        ensures
            final(self).wf(),
            final(self).spec_endian() == old(self).spec_endian(),
            final(self).spec_legacy() == old(self).spec_legacy(),
            final(self).spec_hash_multiplier() == old(self).spec_hash_multiplier(),
            final(self).spec_min_alignment() == old(self).spec_min_alignment(),
            final(self).spec_alignment_map() == old(self).spec_alignment_map(),
            final(self).spec_factory_names() == old(self).spec_factory_names(),
    {
        let n = files.len();
        let mut files = files;
        let mut i: usize = 0;
        while i < n
            invariant
                self.wf(),
                self.spec_endian() == old(self).spec_endian(),
                self.spec_legacy() == old(self).spec_legacy(),
                self.spec_hash_multiplier() == old(self).spec_hash_multiplier(),
                self.spec_min_alignment() == old(self).spec_min_alignment(),
                self.spec_alignment_map() == old(self).spec_alignment_map(),
                self.spec_factory_names() == old(self).spec_factory_names(),
                i <= n,
                files@.len() == n - i,
            decreases n - i,
        {
            let (name, data) = files.remove(0);
            self.add_file(name, data);
            i = i + 1;
        }
    }

    /// Builder-style method to add files from a list of pairs.
    pub fn with_files(self, files: Vec<(String, Vec<u8>)>) -> (r: SarcWriter)
        requires
            self.wf(),
        ensures
            r.wf(),
            r.spec_endian() == self.spec_endian(),
            r.spec_legacy() == self.spec_legacy(),
            r.spec_hash_multiplier() == self.spec_hash_multiplier(),
            r.spec_min_alignment() == self.spec_min_alignment(),
            r.spec_alignment_map() == self.spec_alignment_map(),
            r.spec_factory_names() == self.spec_factory_names(),
    {
        let mut w = self;
        w.add_files(files);
        w
    }

    /// Builder-style method to add or modify an alignment requirement.
    pub fn with_alignment_requirement(self, ext: String, alignment: usize) -> (r: SarcWriter)
        requires
            self.wf(),
            spec_is_valid_alignment(alignment),
        ensures
            r.wf(),
            r.spec_endian() == self.spec_endian(),
            r.spec_legacy() == self.spec_legacy(),
            r.spec_hash_multiplier() == self.spec_hash_multiplier(),
            r.spec_min_alignment() == self.spec_min_alignment(),
            r.spec_files() == self.spec_files(),
            r.spec_factory_names() == self.spec_factory_names(),
            spec_amap_get(r.spec_alignment_map(), encode_utf8(ext@)) == Some(alignment),
    {
        let mut w = self;
        w.add_alignment_requirement(ext, alignment);
        w
    }

    /// Register a resource-class extension: files with it skip
    /// binary-file sniffing outside legacy mode.
    pub fn add_factory_ext(&mut self, ext: String)
        requires
            old(self).wf(),
        ensures
            final(self).wf(),
            spec_factory_contains(final(self).spec_factory_names(), encode_utf8(ext@)),
    {
        self.factory_names.push(ext);
        proof {
            Self::lemma_wf_frame(*old(self), *self);
            let idx = old(self).spec_factory_names().len() as int;
            assert(self.factory_names@ =~= old(self).spec_factory_names().push(ext));
            assert(encode_utf8(self.factory_names@[idx]@) == encode_utf8(ext@));
        }
    }

    /// Set the minimum data alignment; it must be a power of two.
    pub fn set_min_alignment(&mut self, alignment: usize)
        requires
            old(self).wf(),
            spec_is_valid_alignment(alignment),
        ensures
            final(self).wf(),
            final(self).spec_min_alignment() == alignment,
            final(self).spec_files() == old(self).spec_files(),
            final(self).spec_endian() == old(self).spec_endian(),
            final(self).spec_legacy() == old(self).spec_legacy(),
            final(self).spec_hash_multiplier() == old(self).spec_hash_multiplier(),
            final(self).spec_alignment_map() == old(self).spec_alignment_map(),
            final(self).spec_factory_names() == old(self).spec_factory_names(),
    {
        self.min_alignment = alignment;
        proof {
            assert forall|i: int|
                0 <= i < self.spec_alignment_map().len() implies spec_is_valid_alignment(
                (#[trigger] self.spec_alignment_map()[i]).1,
            ) by {
                assert(spec_is_valid_alignment(old(self).spec_alignment_map()[i].1));
            }
            assert forall|i: int, j: int|
                0 <= i < j < self.spec_files().len() implies self.spec_files()[i].0@
                != self.spec_files()[j].0@ by {
                assert(old(self).spec_files()[i].0@ != old(self).spec_files()[j].0@);
            }
        }
    }

    /// Builder-style method to set the minimum data alignment.
    pub fn with_min_alignment(self, alignment: usize) -> (r: SarcWriter)
        requires
            self.wf(),
            spec_is_valid_alignment(alignment),
        ensures
            r.wf(),
            r.spec_min_alignment() == alignment,
            r.spec_endian() == self.spec_endian(),
            r.spec_legacy() == self.spec_legacy(),
            r.spec_hash_multiplier() == self.spec_hash_multiplier(),
            r.spec_alignment_map() == self.spec_alignment_map(),
            r.spec_files() == self.spec_files(),
            r.spec_factory_names() == self.spec_factory_names(),
    {
        let mut w = self;
        w.set_min_alignment(alignment);
        w
    }

    /// Set whether to use legacy mode (for games without a modern
    /// resource system) for additional alignment restrictions.
    pub fn set_legacy_mode(&mut self, value: bool)
        requires
            old(self).wf(),
        ensures
            final(self).wf(),
            final(self).spec_legacy() == value,
            final(self).spec_files() == old(self).spec_files(),
            final(self).spec_endian() == old(self).spec_endian(),
            final(self).spec_hash_multiplier() == old(self).spec_hash_multiplier(),
            final(self).spec_min_alignment() == old(self).spec_min_alignment(),
            final(self).spec_alignment_map() == old(self).spec_alignment_map(),
            final(self).spec_factory_names() == old(self).spec_factory_names(),
    {
        self.legacy = value;
        proof {
            Self::lemma_wf_frame(*old(self), *self);
        }
    }

    /// Builder-style method to set legacy mode.
    pub fn with_legacy_mode(self, value: bool) -> (r: SarcWriter)
        requires
            self.wf(),
        ensures
            r.wf(),
            r.spec_legacy() == value,
            r.spec_endian() == self.spec_endian(),
            r.spec_hash_multiplier() == self.spec_hash_multiplier(),
            r.spec_min_alignment() == self.spec_min_alignment(),
            r.spec_alignment_map() == self.spec_alignment_map(),
            r.spec_files() == self.spec_files(),
            r.spec_factory_names() == self.spec_factory_names(),
    {
        let mut w = self;
        w.set_legacy_mode(value);
        w
    }

    /// Set the endianness.
    pub fn set_endian(&mut self, endian: Endian)
        requires
            old(self).wf(),
        ensures
            final(self).wf(),
            final(self).spec_endian() == endian,
            final(self).spec_files() == old(self).spec_files(),
            final(self).spec_legacy() == old(self).spec_legacy(),
            final(self).spec_hash_multiplier() == old(self).spec_hash_multiplier(),
            final(self).spec_min_alignment() == old(self).spec_min_alignment(),
            final(self).spec_alignment_map() == old(self).spec_alignment_map(),
            final(self).spec_factory_names() == old(self).spec_factory_names(),
    {
        self.endian = endian;
        proof {
            Self::lemma_wf_frame(*old(self), *self);
        }
    }

    /// Builder-style method to set the endianness.
    pub fn with_endian(self, endian: Endian) -> (r: SarcWriter)
        requires
            self.wf(),
        ensures
            r.wf(),
            r.spec_endian() == endian,
            r.spec_legacy() == self.spec_legacy(),
            r.spec_hash_multiplier() == self.spec_hash_multiplier(),
            r.spec_min_alignment() == self.spec_min_alignment(),
            r.spec_alignment_map() == self.spec_alignment_map(),
            r.spec_files() == self.spec_files(),
            r.spec_factory_names() == self.spec_factory_names(),
    {
        let mut w = self;
        w.set_endian(endian);
        w
    }

    /// Checks if a data slice represents a SARC archive, plain or behind
    /// a Yaz0 header.
    pub fn is_file_sarc(data: &[u8]) -> (r: bool)
        ensures
            r == spec_is_file_sarc(data@),
    {
        let n: usize = data.len();
        if n < 0x20 {
            return false;
        }
        let plain = *slice_index_get(data, 0) == 0x53 && *slice_index_get(data, 1) == 0x41
            && *slice_index_get(data, 2) == 0x52 && *slice_index_get(data, 3) == 0x43;
        let yaz = *slice_index_get(data, 0) == 0x59 && *slice_index_get(data, 1) == 0x61
            && *slice_index_get(data, 2) == 0x7a && *slice_index_get(data, 3) == 0x30
            && *slice_index_get(data, 0x11) == 0x53 && *slice_index_get(data, 0x12) == 0x41
            && *slice_index_get(data, 0x13) == 0x52 && *slice_index_get(data, 0x14) == 0x43;
        plain || yaz
    }

    /// Sniffs the alignment a "new binary file" header asks for.
    fn get_alignment_for_new_binary_file(data: &[u8]) -> (r: usize)
        ensures
            r == spec_align_new_binary(data@),
            r >= 1,
    {
        let n: usize = data.len();
        if n <= 0x20 {
            return 1;
        }
        let b0 = *slice_index_get(data, 0xc);
        let b1 = *slice_index_get(data, 0xd);
        let endian: Endian = if b0 == 0xfe && b1 == 0xff {
            Endian::Big
        } else if b0 == 0xff && b1 == 0xfe {
            Endian::Little
        } else {
            return 1;
        };
        let file_size = crate::util::read_u32(data, 0x1c, endian);
        if file_size as u64 != n as u64 {
            return 1;
        }
        let exp = *slice_index_get(data, 0xe);
        if exp < 32 {
            let sh: u64 = exp as u64;
            proof {
                assert(sh < 32 ==> 1u64 <= (1u64 << sh) < 0x100000000) by (bit_vector);
            }
            let a: u64 = 1u64 << sh;
            a as usize
        } else {
            1
        }
    }

    /// Sniffs the alignment a Wii U BFLIM image footer asks for.
    fn get_alignment_for_cafe_bflim(data: &[u8]) -> (r: usize)
        ensures
            r == spec_align_bflim(data@),
    {
        let n: usize = data.len();
        if n <= 0x28 {
            return 1;
        }
        let p = n - 0x28;
        if !(*slice_index_get(data, p) == 0x46 && *slice_index_get(data, p + 1) == 0x4c
            && *slice_index_get(data, p + 2) == 0x49 && *slice_index_get(data, p + 3) == 0x4d) {
            return 1;
        }
        crate::util::read_u16(data, n - 2, Endian::Big) as usize
    }

    /// Computes the data alignment for one file, or `None` when the
    /// combination does not denote a positive alignment that fits.
    fn get_alignment_for_file(&self, name: &str, data: &[u8]) -> (r: Option<usize>)
        requires
            self.wf(),
        ensures
            ({
                let a = spec_alignment_for_file(
                    self.spec_legacy(),
                    self.spec_endian(),
                    self.spec_min_alignment(),
                    self.spec_alignment_map(),
                    self.spec_factory_names(),
                    name.spec_bytes(),
                    data@,
                );
                &&& r is Some <==> 0 < a <= usize::MAX
                &&& r matches Some(v) ==> v == a && v >= 1
            }),
    {
        let ghost min0 = self.spec_min_alignment();
        let ghost amap0 = self.spec_alignment_map();
        let ghost fac0 = self.spec_factory_names();
        let ghost extb = spec_ext(name.spec_bytes());
        let ghost a1g = match spec_amap_get(amap0, extb) {
            Some(rq) => spec_lcm(min0, rq as nat),
            None => min0,
        };
        let ghost a2g = if self.spec_legacy() && spec_is_file_sarc(data@) {
            spec_lcm(a1g, 0x2000)
        } else {
            a1g
        };
        let ghost sniffg = self.spec_legacy() || !spec_factory_contains(fac0, extb);
        let ghost nbg = spec_align_new_binary(data@);
        let ghost bfg = spec_align_bflim(data@);
        let ghost ag = if sniffg {
            if self.spec_endian() is Big {
                spec_lcm(spec_lcm(a2g, nbg), bfg)
            } else {
                spec_lcm(a2g, nbg)
            }
        } else {
            a2g
        };
        proof {
            assert(ag == spec_alignment_for_file(
                self.spec_legacy(),
                self.spec_endian(),
                min0,
                amap0,
                fac0,
                name.spec_bytes(),
                data@,
            ));
            lemma_align_new_binary_pos(data@);
        }
        let ext = ext_bytes(name.as_bytes());
        let mut alignment: usize = self.min_alignment;
        let map_hit = self.amap_lookup(ext);
        match map_hit {
            Some(req) => {
                proof {
                    lemma_amap_get_valid(amap0, extb, 0);
                }
                match lcm_checked(alignment, req) {
                    None => {
                        proof {
                            // every later combination keeps the value above
                            // usize::MAX or sends it to zero
                            crate::util::lemma_lcm_ge(min0, req as nat);
                            if self.spec_legacy() && spec_is_file_sarc(data@) {
                                crate::util::lemma_lcm_ge(a1g, 0x2000);
                            }
                            if sniffg {
                                crate::util::lemma_lcm_ge(a2g, nbg);
                                if self.spec_endian() is Big && bfg != 0 {
                                    crate::util::lemma_lcm_ge(spec_lcm(a2g, nbg), bfg);
                                }
                            }
                        }
                        return None;
                    }
                    Some(v) => {
                        proof {
                            crate::util::lemma_lcm_ge(min0, req as nat);
                        }
                        alignment = v;
                    }
                }
            }
            None => {}
        }
        proof {
            assert(alignment as nat == a1g);
            assert(alignment >= 1);
        }
        if self.legacy && Self::is_file_sarc(data) {
            match lcm_checked(alignment, 0x2000) {
                None => {
                    proof {
                        crate::util::lemma_lcm_ge(a1g, 0x2000);
                        if sniffg {
                            crate::util::lemma_lcm_ge(a2g, nbg);
                            if self.spec_endian() is Big && bfg != 0 {
                                crate::util::lemma_lcm_ge(spec_lcm(a2g, nbg), bfg);
                            }
                        }
                    }
                    return None;
                }
                Some(v) => {
                    proof {
                        crate::util::lemma_lcm_ge(a1g, 0x2000);
                    }
                    alignment = v;
                }
            }
        }
        proof {
            assert(alignment as nat == a2g);
            assert(alignment >= 1);
        }
        let sniff = self.legacy || !self.factory_contains(ext);
        if sniff {
            let nb = Self::get_alignment_for_new_binary_file(data);
            match lcm_checked(alignment, nb) {
                None => {
                    proof {
                        crate::util::lemma_lcm_ge(a2g, nbg);
                        if self.spec_endian() is Big && bfg != 0 {
                            crate::util::lemma_lcm_ge(spec_lcm(a2g, nbg), bfg);
                        }
                    }
                    return None;
                }
                Some(v) => {
                    proof {
                        crate::util::lemma_lcm_ge(a2g, nbg);
                    }
                    alignment = v;
                }
            }
            match self.endian {
                Endian::Big => {
                    let bf = Self::get_alignment_for_cafe_bflim(data);
                    match lcm_checked(alignment, bf) {
                        None => {
                            proof {
                                if bfg != 0 {
                                    crate::util::lemma_lcm_ge(spec_lcm(a2g, nbg), bfg);
                                }
                            }
                            return None;
                        }
                        Some(v) => {
                            if v == 0 {
                                return None;
                            }
                            alignment = v;
                        }
                    }
                }
                Endian::Little => {}
            }
        }
        proof {
            assert(alignment as nat == ag);
        }
        Some(alignment)
    }

    /// Looks an extension up in the per-extension alignment policy.
    fn amap_lookup(&self, ext: &[u8]) -> (r: Option<usize>)
        ensures
            r == spec_amap_get(self.spec_alignment_map(), ext@),
    {
        let n = self.alignment_map.len();
        let mut i: usize = 0;
        while i < n
            invariant
                i <= n,
                n == self.alignment_map@.len(),
                spec_amap_get_from(self.alignment_map@, ext@, 0) == spec_amap_get_from(
                    self.alignment_map@,
                    ext@,
                    i as int,
                ),
            decreases n - i,
        {
            if cmp_bytes(self.alignment_map[i].0.as_str().as_bytes(), ext) == 0 {
                return Some(self.alignment_map[i].1);
            }
            i = i + 1;
        }
        None
    }

    /// Whether an extension is one of the registered resource-class
    /// extensions.
    fn factory_contains(&self, ext: &[u8]) -> (r: bool)
        ensures
            r == spec_factory_contains(self.spec_factory_names(), ext@),
    {
        let n = self.factory_names.len();
        let mut i: usize = 0;
        while i < n
            invariant
                i <= n,
                n == self.factory_names@.len(),
                forall|j: int|
                    0 <= j < i ==> encode_utf8((#[trigger] self.factory_names@[j])@) != ext@,
            decreases n - i,
        {
            if cmp_bytes(self.factory_names[i].as_str().as_bytes(), ext) == 0 {
                return true;
            }
            i = i + 1;
        }
        false
    }

    /// Registers the built-in alignment requirements: a handful of known
    /// formats, with the Wii U font alignment depending on the byte
    /// order.
    fn add_default_alignments(&mut self)
        requires
            old(self).wf(),
        ensures
            final(self).wf(),
            final(self).spec_endian() == old(self).spec_endian(),
            final(self).spec_legacy() == old(self).spec_legacy(),
            final(self).spec_hash_multiplier() == old(self).spec_hash_multiplier(),
            final(self).spec_min_alignment() == old(self).spec_min_alignment(),
            final(self).spec_files() == old(self).spec_files(),
            final(self).spec_factory_names() == old(self).spec_factory_names(),
            spec_amap_get(final(self).spec_alignment_map(), encode_utf8("bffnt"@)) == Some(
                if final(self).spec_endian() is Big {
                    0x2000usize
                } else {
                    0x1000usize
                },
            ),
    {
        proof {
            crate::util::lemma_common_alignments();
        }
        self.add_alignment_requirement(String::from_str("ksky"), 8);
        self.add_alignment_requirement(String::from_str("bksky"), 8);
        self.add_alignment_requirement(String::from_str("gtx"), 0x2000);
        self.add_alignment_requirement(String::from_str("sharcb"), 0x1000);
        self.add_alignment_requirement(String::from_str("sharc"), 0x1000);
        self.add_alignment_requirement(String::from_str("baglmf"), 0x80);
        let bffnt_align: usize = match self.endian {
            Endian::Big => 0x2000,
            Endian::Little => 0x1000,
        };
        let bffnt_name = String::from_str("bffnt");
        proof {
            reveal_strlit("bffnt");
            assert(bffnt_name@ =~= "bffnt"@);
        }
        self.add_alignment_requirement(bffnt_name, bffnt_align);
    }
}

/// A value found in an alignment map whose entries are all valid is
/// valid.
proof fn lemma_amap_get_valid(m: Seq<(String, usize)>, ext: Seq<u8>, i: int)
    requires
        forall|k: int| 0 <= k < m.len() ==> spec_is_valid_alignment((#[trigger] m[k]).1),
        spec_amap_get_from(m, ext, i) is Some,
    ensures
        spec_is_valid_alignment(spec_amap_get_from(m, ext, i)->0),
    decreases m.len() - i,
{
    if 0 <= i < m.len() && encode_utf8(m[i].0@) != ext {
        lemma_amap_get_valid(m, ext, i + 1);
    }
}

/// Replacing the entry whose key encodes like the new one leaves
/// lookups of every other byte string unchanged.
proof fn lemma_amap_update_other(
    m: Seq<(String, usize)>,
    i: int,
    x: (String, usize),
    q: Seq<u8>,
    j: int,
)
    requires
        0 <= j <= m.len(),
        0 <= i < m.len(),
        encode_utf8(m[i].0@) == encode_utf8(x.0@),
        q != encode_utf8(x.0@),
    ensures
        spec_amap_get_from(m.update(i, x), q, j) == spec_amap_get_from(m, q, j),
    decreases m.len() - j,
{
    if j < m.len() {
        lemma_amap_update_other(m, i, x, q, j + 1);
    }
}

/// Appending an entry for a different byte string leaves lookups of
/// every other byte string unchanged.
proof fn lemma_amap_push_other(m: Seq<(String, usize)>, x: (String, usize), q: Seq<u8>, j: int)
    requires
        0 <= j <= m.len(),
        q != encode_utf8(x.0@),
    ensures
        spec_amap_get_from(m.push(x), q, j) == spec_amap_get_from(m, q, j),
    decreases m.len() - j,
{
    if j < m.len() {
        lemma_amap_push_other(m, x, q, j + 1);
    } else {
        assert(spec_amap_get_from(m.push(x), q, j) == spec_amap_get_from(m.push(x), q, j + 1));
    }
}

/// Scanning an alignment map from any position up to a hit yields the
/// same result as from the hit.
proof fn lemma_amap_skip(m: Seq<(String, usize)>, ext: Seq<u8>, j: int, hit: int)
    requires
        0 <= j <= hit < m.len(),
        forall|k: int| j <= k < hit ==> encode_utf8((#[trigger] m[k]).0@) != ext,
    ensures
        spec_amap_get_from(m, ext, j) == spec_amap_get_from(m, ext, hit),
    decreases hit - j,
{
    if j < hit {
        lemma_amap_skip(m, ext, j + 1, hit);
    }
}

impl SarcWriter {
    /// The required data alignment of file `k`.
    pub open spec fn spec_sarc_align(w: SarcWriter, k: int) -> nat {
        spec_alignment_for_file(
            w.spec_legacy(),
            w.spec_endian(),
            w.spec_min_alignment(),
            w.spec_alignment_map(),
            w.spec_factory_names(),
            encode_utf8(w.spec_files()[k].0@),
            w.spec_files()[k].1@,
        )
    }

    /// The data cursor before file `k` is placed: each earlier file was
    /// placed at its aligned position and advanced the cursor by its
    /// size.
    pub open spec fn spec_sarc_cursor(w: SarcWriter, k: int) -> int
        decreases k,
    {
        if k <= 0 {
            0
        } else {
            spec_align_up(Self::spec_sarc_cursor(w, k - 1), Self::spec_sarc_align(w, k - 1) as int)
                + w.spec_files()[k - 1].1@.len()
        }
    }

    /// Where file `k`'s data begins, relative to the data area.
    pub open spec fn spec_sarc_begin(w: SarcWriter, k: int) -> int {
        spec_align_up(Self::spec_sarc_cursor(w, k), Self::spec_sarc_align(w, k) as int)
    }

    /// The least common multiple of the alignments of the first `k`
    /// files.
    pub open spec fn spec_sarc_lcm_fold(w: SarcWriter, k: int) -> nat
        decreases k,
    {
        if k <= 0 {
            1
        } else {
            spec_lcm(Self::spec_sarc_lcm_fold(w, k - 1), Self::spec_sarc_align(w, k - 1))
        }
    }

    /// The length of the name table over the first `k` files: each name,
    /// its NUL, and padding to the next 4-byte boundary.
    pub open spec fn spec_sarc_names_len(w: SarcWriter, k: int) -> int
        decreases k,
    {
        if k <= 0 {
            0
        } else {
            Self::spec_sarc_names_len(w, k - 1) + spec_align_up(
                (encode_utf8(w.spec_files()[k - 1].0@).len() + 1) as int,
                4,
            )
        }
    }

    /// Where the data area begins: the headers, entries and name table,
    /// rounded up to the least common multiple of all alignments.
    pub open spec fn spec_sarc_dob(w: SarcWriter) -> int {
        spec_align_up(
            0x20 + 16 * w.spec_files().len() + 8 + Self::spec_sarc_names_len(
                w,
                w.spec_files().len() as int,
            ),
            Self::spec_sarc_lcm_fold(w, w.spec_files().len() as int) as int,
        )
    }

    /// The total length of the written archive.
    pub open spec fn spec_sarc_file_size(w: SarcWriter) -> int {
        Self::spec_sarc_dob(w) + Self::spec_sarc_cursor(w, w.spec_files().len() as int)
    }

    /// Whether every alignment is a positive 32-bit value.
    pub open spec fn spec_sarc_aligns_ok(w: SarcWriter) -> bool {
        forall|k: int|
            0 <= k < w.spec_files().len() ==> 0 < #[trigger] Self::spec_sarc_align(w, k)
                <= 0xFFFFFFFF
    }

    /// Whether the archive can be laid out at all: few enough files,
    /// positive 32-bit alignments, a name table whose word offsets fit
    /// the entry field, and a total size that fits the 32-bit header
    /// field and the machine.
    pub open spec fn spec_sarc_fits(w: SarcWriter) -> bool {
        &&& w.spec_files().len() < 0x4000
        &&& Self::spec_sarc_aligns_ok(w)
        &&& Self::spec_sarc_names_len(w, w.spec_files().len() as int) < 0x4000000
        &&& Self::spec_sarc_lcm_fold(w, w.spec_files().len() as int) <= usize::MAX
        &&& Self::spec_sarc_lcm_fold(w, w.spec_files().len() as int) <= 0xFFFFFFFF
        &&& Self::spec_sarc_file_size(w) <= 0xFFFFFFFF
    }

    /// The data cursor never moves backwards.
    proof fn lemma_cursor_mono(w: SarcWriter, j: int, k: int)
        requires
            Self::spec_sarc_aligns_ok(w),
            0 <= j <= k <= w.spec_files().len(),
        ensures
            0 <= Self::spec_sarc_cursor(w, j) <= Self::spec_sarc_cursor(w, k),
        decreases k - j,
    {
        if j == 0 {
            Self::lemma_cursor_nonneg(w, k);
        } else if j < k {
            Self::lemma_cursor_mono(w, j, k - 1);
            crate::util::lemma_align_up(
                Self::spec_sarc_cursor(w, k - 1),
                Self::spec_sarc_align(w, k - 1) as int,
            );
        } else {
            Self::lemma_cursor_nonneg(w, j);
        }
    }

    /// The data cursor is never negative.
    proof fn lemma_cursor_nonneg(w: SarcWriter, k: int)
        requires
            Self::spec_sarc_aligns_ok(w),
            k <= w.spec_files().len(),
        ensures
            0 <= Self::spec_sarc_cursor(w, k),
        decreases k,
    {
        if k > 0 {
            Self::lemma_cursor_nonneg(w, k - 1);
            crate::util::lemma_align_up(
                Self::spec_sarc_cursor(w, k - 1),
                Self::spec_sarc_align(w, k - 1) as int,
            );
        }
    }

    /// The name-table length never shrinks and is never negative.
    proof fn lemma_names_mono(w: SarcWriter, j: int, k: int)
        requires
            0 <= j <= k,
        ensures
            0 <= Self::spec_sarc_names_len(w, j) <= Self::spec_sarc_names_len(w, k),
        decreases k - j, k,
    {
        if j == k {
            if k > 0 {
                Self::lemma_names_mono(w, j - 1, k - 1);
                crate::util::lemma_align_up(
                    (encode_utf8(w.spec_files()[k - 1].0@).len() + 1) as int,
                    4,
                );
            }
        } else {
            Self::lemma_names_mono(w, j, k - 1);
            crate::util::lemma_align_up(
                (encode_utf8(w.spec_files()[k - 1].0@).len() + 1) as int,
                4,
            );
        }
    }

    /// The least common multiple of the alignments is positive and never
    /// shrinks as files are added.
    proof fn lemma_fold_mono(w: SarcWriter, j: int, k: int)
        requires
            Self::spec_sarc_aligns_ok(w),
            0 <= j <= k <= w.spec_files().len(),
        ensures
            0 < Self::spec_sarc_lcm_fold(w, j) <= Self::spec_sarc_lcm_fold(w, k),
        decreases k - j, k,
    {
        if j == k {
            if k > 0 {
                Self::lemma_fold_mono(w, j - 1, k - 1);
                crate::util::lemma_lcm_ge(
                    Self::spec_sarc_lcm_fold(w, k - 1),
                    Self::spec_sarc_align(w, k - 1),
                );
            }
        } else {
            Self::lemma_fold_mono(w, j, k - 1);
            crate::util::lemma_lcm_ge(
                Self::spec_sarc_lcm_fold(w, k - 1),
                Self::spec_sarc_align(w, k - 1),
            );
        }
    }

    /// Every file's alignment divides the least common multiple of all
    /// alignments.
    proof fn lemma_fold_divides(w: SarcWriter, k: int, n: int)
        requires
            Self::spec_sarc_aligns_ok(w),
            0 <= k < n <= w.spec_files().len(),
        ensures
            (Self::spec_sarc_lcm_fold(w, n) as int) % (Self::spec_sarc_align(w, k) as int) == 0,
        decreases n,
    {
        Self::lemma_fold_mono(w, 0, n);
        crate::util::lemma_lcm_ge(
            Self::spec_sarc_lcm_fold(w, n - 1),
            Self::spec_sarc_align(w, n - 1),
        );
        crate::util::lemma_lcm_is_multiple(
            Self::spec_sarc_lcm_fold(w, n - 1),
            Self::spec_sarc_align(w, n - 1),
        );
        if k < n - 1 {
            Self::lemma_fold_divides(w, k, n - 1);
            Self::lemma_fold_mono(w, 0, n - 1);
            crate::util::lemma_mod_transitive(
                Self::spec_sarc_lcm_fold(w, n) as int,
                Self::spec_sarc_lcm_fold(w, n - 1) as int,
                Self::spec_sarc_align(w, k) as int,
            );
        }
    }

    /// Alignment correctness of the layout: every file's absolute data
    /// offset — the start of the data area plus the file's relative
    /// offset — is a multiple of that file's computed alignment.
    #[verifier::spinoff_prover]
    #[verifier::rlimit(60)]
    pub proof fn lemma_sarc_entry_alignment(w: SarcWriter, k: int)
        requires
            Self::spec_sarc_aligns_ok(w),
            0 <= k < w.spec_files().len(),
        ensures
            (Self::spec_sarc_dob(w) + Self::spec_sarc_begin(w, k)) % (Self::spec_sarc_align(
                w,
                k,
            ) as int) == 0,
    {
        let n = w.spec_files().len() as int;
        let a = Self::spec_sarc_align(w, k) as int;
        Self::lemma_cursor_nonneg(w, k);
        crate::util::lemma_align_up(Self::spec_sarc_cursor(w, k), a);
        let names_end = 0x20 + 16 * n + 8 + Self::spec_sarc_names_len(w, n);
        Self::lemma_names_mono(w, 0, n);
        Self::lemma_fold_mono(w, 0, n);
        crate::util::lemma_align_up(names_end, Self::spec_sarc_lcm_fold(w, n) as int);
        Self::lemma_fold_divides(w, k, n);
        crate::util::lemma_mod_transitive(
            Self::spec_sarc_dob(w),
            Self::spec_sarc_lcm_fold(w, n) as int,
            a,
        );
        let dob = Self::spec_sarc_dob(w);
        let b = Self::spec_sarc_begin(w, k);
        vstd::arithmetic::div_mod::lemma_fundamental_div_mod(dob, a);
        vstd::arithmetic::div_mod::lemma_fundamental_div_mod(b, a);
        assert(dob + b == a * (dob / a + b / a)) by (nonlinear_arith)
            requires
                dob == a * (dob / a),
                b == a * (b / a),
        {
        }
        vstd::arithmetic::div_mod::lemma_mod_multiples_basic(dob / a + b / a, a);
    }

    /// Stable-sorts the files by ascending name hash: repeatedly moves
    /// the first remaining entry with the smallest hash.
    fn sort_files(&mut self)
        requires
            old(self).wf(),
        ensures
            final(self).wf(),
            final(self).spec_endian() == old(self).spec_endian(),
            final(self).spec_legacy() == old(self).spec_legacy(),
            final(self).spec_hash_multiplier() == old(self).spec_hash_multiplier(),
            final(self).spec_min_alignment() == old(self).spec_min_alignment(),
            final(self).spec_alignment_map() == old(self).spec_alignment_map(),
            final(self).spec_factory_names() == old(self).spec_factory_names(),
            final(self).spec_files().len() == old(self).spec_files().len(),
            final(self).spec_files().to_multiset() == old(self).spec_files().to_multiset(),
            forall|i: int, j: int|
                0 <= i <= j < final(self).spec_files().len() ==> spec_hash_name(
                    final(self).spec_hash_multiplier(),
                    encode_utf8(#[trigger] final(self).spec_files()[i].0@),
                ) <= spec_hash_name(
                    final(self).spec_hash_multiplier(),
                    encode_utf8(#[trigger] final(self).spec_files()[j].0@),
                ),
    {
        broadcast use vstd::seq_lib::group_to_multiset_ensures;
        broadcast use vstd::multiset::group_multiset_axioms;

        let mul = self.hash_multiplier;
        let mut work: Vec<(String, Vec<u8>)> = Vec::new();
        core::mem::swap(&mut work, &mut self.files);
        let ghost all = work@;
        let mut out: Vec<(String, Vec<u8>)> = Vec::new();
        while work.len() > 0
            invariant
                out@.len() + work@.len() == all.len(),
                out@.to_multiset().add(work@.to_multiset()) =~= all.to_multiset(),
                forall|i: int, j: int|
                    0 <= i <= j < out@.len() ==> spec_hash_name(
                        mul,
                        encode_utf8(#[trigger] out@[i].0@),
                    ) <= spec_hash_name(mul, encode_utf8(#[trigger] out@[j].0@)),
                forall|i: int, j: int|
                    0 <= i < out@.len() && 0 <= j < work@.len() ==> spec_hash_name(
                        mul,
                        encode_utf8(#[trigger] out@[i].0@),
                    ) <= spec_hash_name(mul, encode_utf8(#[trigger] work@[j].0@)),
            decreases work.len(),
        {
            let m = work.len();
            let mut best: usize = 0;
            let mut best_hash = crate::util::hash_name(mul, work[0].0.as_str());
            let mut j: usize = 1;
            while j < m
                invariant
                    m == work@.len(),
                    m >= 1,
                    best < j <= m,
                    best_hash == spec_hash_name(mul, encode_utf8(work@[best as int].0@)),
                    forall|q: int|
                        0 <= q < j ==> best_hash <= spec_hash_name(
                            mul,
                            encode_utf8(#[trigger] work@[q].0@),
                        ),
                decreases m - j,
            {
                let h = crate::util::hash_name(mul, work[j].0.as_str());
                if h < best_hash {
                    best = j;
                    best_hash = h;
                }
                j = j + 1;
            }
            let ghost out_prev = out@;
            let ghost work_prev = work@;
            let picked = work.remove(best);
            out.push(picked);
            proof {
                work_prev.to_multiset_ensures();
                out_prev.to_multiset_ensures();
                assert(work_prev[best as int] == picked);
                assert(work_prev.contains(picked));
                assert(work@ == work_prev.remove(best as int));
                assert(work@.to_multiset() =~= work_prev.to_multiset().remove(picked));
                assert(out@.to_multiset() =~= out_prev.to_multiset().insert(picked));
                assert(out@.to_multiset().add(work@.to_multiset()) =~= all.to_multiset());
            }
        }
        self.files = out;
        proof {
            assert(work@.to_multiset().len() == 0);
            assert(self.spec_files().to_multiset() =~= all.to_multiset());
            assert(all.to_multiset().len() == all.len());
            assert(self.spec_files().to_multiset().len() == self.spec_files().len());
            assert forall|p: int, q: int|
                0 <= p < q < self.spec_files().len() implies self.spec_files()[p].0@
                != self.spec_files()[q].0@ by {
                Self::lemma_unique_names_of_multiset(old(self).spec_files(), self.spec_files(), p, q);
            }
            assert forall|k: int|
                0 <= k < self.spec_alignment_map().len() implies spec_is_valid_alignment(
                (#[trigger] self.spec_alignment_map()[k]).1,
            ) by {
                assert(spec_is_valid_alignment(old(self).spec_alignment_map()[k].1));
            }
        }
    }

    /// In a permutation of a name-unique file list, entries at two
    /// different positions have different names.
    proof fn lemma_unique_names_of_multiset(
        orig: Seq<(String, Vec<u8>)>,
        perm: Seq<(String, Vec<u8>)>,
        p: int,
        q: int,
    )
        requires
            forall|i: int, j: int| 0 <= i < j < orig.len() ==> orig[i].0@ != orig[j].0@,
            perm.to_multiset() == orig.to_multiset(),
            0 <= p < q < perm.len(),
        ensures
            perm[p].0@ != perm[q].0@,
    {
        broadcast use vstd::seq_lib::group_to_multiset_ensures;

        if perm[p].0@ == perm[q].0@ {
            if perm[p] == perm[q] {
                // the same pair occurs twice in the permutation, so twice
                // in the original, whose names are unique
                let r = perm.remove(q);
                assert(r.to_multiset() =~= perm.to_multiset().remove(perm[q]));
                assert(r[p] == perm[p]);
                assert(r.to_multiset().contains(perm[p]));
                assert(perm.to_multiset().count(perm[p]) >= 2);
                assert(orig.to_multiset().count(perm[p]) >= 2);
                let x = perm[p];
                assert(orig.to_multiset().contains(x));
                assert(orig.contains(x));
                let i1 = choose|i: int| 0 <= i < orig.len() && orig[i] == x;
                let r2 = orig.remove(i1);
                assert(r2.to_multiset() =~= orig.to_multiset().remove(x));
                assert(r2.to_multiset().count(x) >= 1);
                assert(r2.contains(x));
                let i2 = choose|i: int| 0 <= i < r2.len() && r2[i] == x;
                let j2 = if i2 < i1 {
                    i2
                } else {
                    i2 + 1
                };
                assert(orig[j2] == x);
                assert(j2 != i1);
                if i1 < j2 {
                    assert(orig[i1].0@ != orig[j2].0@);
                } else {
                    assert(orig[j2].0@ != orig[i1].0@);
                }
            } else {
                // two distinct pairs with the same name both occur in the
                // original
                assert(perm.to_multiset().contains(perm[p]));
                assert(perm.to_multiset().contains(perm[q]));
                assert(orig.to_multiset().contains(perm[p]));
                assert(orig.to_multiset().contains(perm[q]));
                assert(orig.contains(perm[p]));
                assert(orig.contains(perm[q]));
                let ip = choose|i: int| 0 <= i < orig.len() && orig[i] == perm[p];
                let iq = choose|i: int| 0 <= i < orig.len() && orig[i] == perm[q];
                assert(ip != iq);
                assert(orig[ip].0@ != orig[iq].0@);
            }
        }
    }


}

/// The file stands in the archive: some entry parses, carries a name,
/// and holds exactly this name and data.
pub open spec fn spec_carried_file(sarc: Sarc<'_>, f: (String, Vec<u8>)) -> bool {
    spec_carried_file_upto(sarc, f, sarc.spec_num_files())
}

/// The file stands among the first `bound` entries of the archive.
pub open spec fn spec_carried_file_upto(sarc: Sarc<'_>, f: (String, Vec<u8>), bound: int) -> bool {
    exists|j: int|
        {
            &&& 0 <= j < bound
            &&& j < sarc.spec_num_files()
            &&& #[trigger] sarc.spec_file_ok(j)
            &&& sarc.spec_has_name(j)
            &&& encode_utf8(f.0@) == sarc.spec_name_bytes(j)
            &&& f.1@ == sarc.spec_file_data(j)
        }
}

/// Whether entry `j` parses and carries a name: the entries the writer
/// takes over.
pub open spec fn spec_named_ok(sarc: Sarc<'_>, j: int) -> bool {
    sarc.spec_file_ok(j) && sarc.spec_has_name(j)
}

/// How many of the first `k` entries parse and carry a name.
pub open spec fn spec_named_count(sarc: Sarc<'_>, k: int) -> int
    decreases k,
{
    if k <= 0 {
        0
    } else {
        spec_named_count(sarc, k - 1) + if spec_named_ok(sarc, k - 1) {
            1int
        } else {
            0
        }
    }
}

/// No two named, parseable entries of the archive share a name.
pub open spec fn spec_names_distinct(sarc: Sarc<'_>) -> bool {
    forall|i: int, j: int|
        0 <= i < j < sarc.spec_num_files() && spec_named_ok(sarc, i) && spec_named_ok(sarc, j)
            ==> #[trigger] sarc.spec_name_bytes(i) != #[trigger] sarc.spec_name_bytes(j)
}

/// The named count never shrinks.
proof fn lemma_named_count_mono(sarc: Sarc<'_>, a: int, b: int)
    requires
        0 <= a <= b,
    ensures
        spec_named_count(sarc, a) <= spec_named_count(sarc, b),
        0 <= spec_named_count(sarc, a),
    decreases b - a, b,
{
    if a == b {
        if b > 0 {
            lemma_named_count_mono(sarc, a - 1, b - 1);
        }
    } else {
        lemma_named_count_mono(sarc, a, b - 1);
    }
}

/// The byte-order mark the SARC header carries for `e`.
pub open spec fn spec_bom_bytes(e: Endian) -> Seq<u8> {
    match e {
        Endian::Big => seq![0xfeu8, 0xffu8],
        Endian::Little => seq![0xffu8, 0xfeu8],
    }
}

/// The 0x20 bytes of the SARC and SFAT headers: magics, header sizes,
/// byte-order mark, total size, data-area offset, version, file count
/// and hash multiplier.
pub open spec fn spec_sarc_header_bytes(
    e: Endian,
    mul: u32,
    fsize: u32,
    dob: u32,
    n: u16,
) -> Seq<u8> {
    seq![0x53u8, 0x41u8, 0x52u8, 0x43u8] + crate::util::spec_u16_bytes(0x14, e) + spec_bom_bytes(e)
        + crate::util::spec_u32_bytes(fsize, e) + crate::util::spec_u32_bytes(dob, e)
        + crate::util::spec_u16_bytes(0x100, e) + crate::util::spec_u16_bytes(0, e) + seq![
        0x53u8,
        0x46u8,
        0x41u8,
        0x54u8,
    ] + crate::util::spec_u16_bytes(0x0c, e) + crate::util::spec_u16_bytes(n, e)
        + crate::util::spec_u32_bytes(mul, e)
}

/// The 8 bytes of the SFNT header.
pub open spec fn spec_sfnt_bytes(e: Endian) -> Seq<u8> {
    seq![0x53u8, 0x46u8, 0x4eu8, 0x54u8] + crate::util::spec_u16_bytes(0x08, e)
        + crate::util::spec_u16_bytes(0, e)
}

/// Reading the header fields back from the header bytes yields the
/// values written: the reader's own field specifications hold of them.
proof fn lemma_sarc_header_fields(e: Endian, mul: u32, fsize: u32, dob: u32, n: u16)
    ensures
        ({
            let h = spec_sarc_header_bytes(e, mul, fsize, dob, n);
            &&& h.len() == 0x20
            &&& crate::sarc::spec_sarc_magic_ok(h)
            &&& crate::sarc::spec_sarc_bom(h) == Some(e)
            &&& spec_u16_at(h, 4, e) == 0x14
            &&& spec_u32_at(h, 8, e) == fsize
            &&& spec_u32_at(h, 12, e) == dob
            &&& spec_u16_at(h, 16, e) == 0x100
            &&& crate::sarc::spec_sfat_magic_ok(h)
            &&& spec_u16_at(h, 0x18, e) == 0x0c
            &&& spec_u16_at(h, 0x1a, e) == n
            &&& spec_u32_at(h, 0x1c, e) == mul
        }),
{
    crate::util::lemma_bytes_len(e);
    let h = spec_sarc_header_bytes(e, mul, fsize, dob, n);
    assert(h.len() == 0x20);
    assert(h.subrange(4, 6) =~= crate::util::spec_u16_bytes(0x14, e));
    crate::util::lemma_u16_roundtrip(h, 4, 0x14, e);
    assert(h.subrange(8, 12) =~= crate::util::spec_u32_bytes(fsize, e));
    crate::util::lemma_u32_roundtrip(h, 8, fsize, e);
    assert(h.subrange(12, 16) =~= crate::util::spec_u32_bytes(dob, e));
    crate::util::lemma_u32_roundtrip(h, 12, dob, e);
    assert(h.subrange(16, 18) =~= crate::util::spec_u16_bytes(0x100, e));
    crate::util::lemma_u16_roundtrip(h, 16, 0x100, e);
    assert(h.subrange(0x18, 0x1a) =~= crate::util::spec_u16_bytes(0x0c, e));
    crate::util::lemma_u16_roundtrip(h, 0x18, 0x0c, e);
    assert(h.subrange(0x1a, 0x1c) =~= crate::util::spec_u16_bytes(n, e));
    crate::util::lemma_u16_roundtrip(h, 0x1a, n, e);
    assert(h.subrange(0x1c, 0x20) =~= crate::util::spec_u32_bytes(mul, e));
    crate::util::lemma_u32_roundtrip(h, 0x1c, mul, e);
}

impl SarcWriter {
    /// Creates a writer from an existing reader: takes the byte order,
    /// the guessed minimum alignment, and every named file.
    #[verifier::rlimit(60)]
    pub fn from_sarc(sarc: &Sarc) -> (r: SarcWriter)
        requires
            sarc.wf(),
        ensures
            r.wf(),
            r.spec_endian() == sarc.spec_endian(),
            r.spec_hash_multiplier() == 0x65,
            !r.spec_legacy(),
            r.spec_alignment_map() =~= Seq::<(String, usize)>::empty(),
            r.spec_factory_names() =~= Seq::<String>::empty(),
            ({
                let g = sarc.spec_min_align_fold(sarc.spec_num_files());
                &&& (g <= usize::MAX && spec_is_valid_alignment(g as usize))
                    ==> r.spec_min_alignment() == g
                &&& !(g <= usize::MAX && spec_is_valid_alignment(g as usize))
                    ==> r.spec_min_alignment() == 4
            }),
            forall|k: int|
                0 <= k < r.spec_files().len() ==> spec_carried_file(
                    *sarc,
                    #[trigger] r.spec_files()[k],
                ),
            spec_names_distinct(*sarc) ==> {
                &&& r.spec_files().len() == spec_named_count(*sarc, sarc.spec_num_files())
                &&& forall|j: int|
                    0 <= j < sarc.spec_num_files() && #[trigger] spec_named_ok(*sarc, j) ==> {
                        let k = spec_named_count(*sarc, j);
                        &&& 0 <= k < r.spec_files().len()
                        &&& encode_utf8(r.spec_files()[k].0@) == sarc.spec_name_bytes(j)
                        &&& r.spec_files()[k].1@ == sarc.spec_file_data(j)
                    }
            },
    {
        let mut w = SarcWriter::new(sarc.endian());
        proof {
            crate::util::lemma_common_alignments();
        }
        let ga = sarc.guess_min_alignment();
        w.set_min_alignment(ga);
        let n = sarc.len();
        let mut i: usize = 0;
        while i < n
            invariant
                sarc.wf(),
                w.wf(),
                i <= n,
                n == sarc.spec_num_files(),
                w.spec_endian() == sarc.spec_endian(),
                w.spec_hash_multiplier() == 0x65,
                !w.spec_legacy(),
                w.spec_alignment_map() =~= Seq::<(String, usize)>::empty(),
                w.spec_factory_names() =~= Seq::<String>::empty(),
                ({
                    let g = sarc.spec_min_align_fold(sarc.spec_num_files());
                    &&& (g <= usize::MAX && spec_is_valid_alignment(g as usize))
                        ==> w.spec_min_alignment() == g
                    &&& !(g <= usize::MAX && spec_is_valid_alignment(g as usize))
                        ==> w.spec_min_alignment() == 4
                }),
                forall|k: int|
                    0 <= k < w.spec_files().len() ==> spec_carried_file_upto(
                        *sarc,
                        #[trigger] w.spec_files()[k],
                        i as int,
                    ),
                spec_names_distinct(*sarc) ==> {
                    &&& w.spec_files().len() == spec_named_count(*sarc, i as int)
                    &&& forall|j: int|
                        0 <= j < i && #[trigger] spec_named_ok(*sarc, j) ==> {
                            let k = spec_named_count(*sarc, j);
                            &&& 0 <= k < w.spec_files().len()
                            &&& encode_utf8(w.spec_files()[k].0@) == sarc.spec_name_bytes(j)
                            &&& w.spec_files()[k].1@ == sarc.spec_file_data(j)
                        }
                },
            decreases n - i,
        {
            match sarc.file_at(i) {
                Ok(f) => {
                    match f.name {
                        Some(nm) => {
                            let ghost wpre = w;
                            let owned_name = nm.to_owned();
                            let owned_data = crate::util::slice_owned(f.data);
                            let ghost onv = owned_name@;
                            let ghost odv = owned_data@;
                            proof {
                                assert(sarc.spec_file_ok(i as int));
                                assert(sarc.spec_has_name(i as int));
                                assert(encode_utf8(onv) == sarc.spec_name_bytes(i as int));
                                assert(odv == sarc.spec_file_data(i as int));
                            }
                            w.add_file(owned_name, owned_data);
                            proof {
                                let ghost newf = (owned_name, owned_data);
                                assert(newf.0@ == onv && newf.1@ == odv);
                                assert(spec_carried_file(*sarc, newf));
                                assert forall|k: int|
                                    0 <= k < w.spec_files().len() implies spec_carried_file(
                                    *sarc,
                                    #[trigger] w.spec_files()[k],
                                ) by {
                                    if exists|p: int|
                                        {
                                            &&& 0 <= p < wpre.spec_files().len()
                                            &&& (#[trigger] wpre.spec_files()[p]).0@
                                                == owned_name@
                                            &&& w.spec_files() =~= wpre.spec_files().update(
                                                p,
                                                newf,
                                            )
                                        } {
                                        let p = choose|p: int|
                                            {
                                                &&& 0 <= p < wpre.spec_files().len()
                                                &&& (#[trigger] wpre.spec_files()[p]).0@
                                                    == owned_name@
                                                &&& w.spec_files() =~= wpre.spec_files().update(
                                                    p,
                                                    newf,
                                                )
                                            };
                                        if k == p {
                                            assert(w.spec_files()[k] == newf);
                                        } else {
                                            assert(w.spec_files()[k] == wpre.spec_files()[k]);
                                            assert(spec_carried_file(
                                                *sarc,
                                                wpre.spec_files()[k],
                                            ));
                                        }
                                    } else {
                                        assert(w.spec_files() =~= wpre.spec_files().push(newf));
                                        if k == wpre.spec_files().len() {
                                            assert(w.spec_files()[k] == newf);
                                        } else {
                                            assert(w.spec_files()[k] == wpre.spec_files()[k]);
                                            assert(spec_carried_file(
                                                *sarc,
                                                wpre.spec_files()[k],
                                            ));
                                        }
                                    }
                                }
                            }
                        }
                        None => {}
                    }
                }
                Err(_) => {}
            }
            i = i + 1;
        }
        w
    }

}

/// A computed archive layout: per-file alignments, padded name lengths,
/// relative data offsets, the least common multiple of the alignments,
/// the name-table length, the data-area start and the total size.
struct SarcLayout {
    aligns: Vec<usize>,
    paddeds: Vec<u64>,
    begins: Vec<u64>,
    ends: Vec<u64>,
    lcm_all: usize,
    names_len: u64,
    dob: u64,
    fsize: u64,
}

/// The layout values agree with the layout the specification functions
/// describe, and everything fits the format's 32-bit fields.
spec fn spec_layout_ok(w: SarcWriter, l: SarcLayout) -> bool {
    let n = w.spec_files().len() as int;
    &&& l.aligns@.len() == n
    &&& forall|j: int|
        0 <= j < n ==> l.aligns@[j] == SarcWriter::spec_sarc_align(w, j) && 0
            < #[trigger] SarcWriter::spec_sarc_align(w, j) <= 0xFFFFFFFF
    &&& l.paddeds@.len() == n
    &&& forall|j: int|
        0 <= j < n ==> #[trigger] l.paddeds@[j] == spec_align_up(
            (encode_utf8(w.spec_files()[j].0@).len() + 1) as int,
            4,
        )
    &&& l.begins@.len() == n
    &&& l.ends@.len() == n
    &&& forall|j: int|
        0 <= j < n ==> #[trigger] l.begins@[j] == SarcWriter::spec_sarc_begin(w, j) && l.ends@[j]
            == SarcWriter::spec_sarc_begin(w, j) + w.spec_files()[j].1@.len() && l.ends@[j]
            <= 0xFFFFFFFF
    &&& l.lcm_all == SarcWriter::spec_sarc_lcm_fold(w, n)
    &&& 1 <= l.lcm_all
    &&& l.lcm_all <= 0xFFFFFFFF
    &&& l.names_len == SarcWriter::spec_sarc_names_len(w, n)
    &&& l.names_len < 0x4000000
    &&& l.dob == SarcWriter::spec_sarc_dob(w)
    &&& l.fsize == SarcWriter::spec_sarc_file_size(w)
    &&& l.dob <= l.fsize <= 0xFFFFFFFF
    &&& n < 0x4000
}

impl SarcWriter {
    /// Computes every file's alignment; fails when one is zero or does
    /// not fit 32 bits.
    fn compute_aligns(&self) -> (r: Result<Vec<usize>, Error>)
        requires
            self.wf(),
        ensures
            r matches Ok(a) ==> a@.len() == self.spec_files().len() && forall|j: int|
                0 <= j < self.spec_files().len() ==> a@[j] == Self::spec_sarc_align(*self, j) && 0
                    < #[trigger] Self::spec_sarc_align(*self, j) <= 0xFFFFFFFF,
            r is Err ==> !Self::spec_sarc_aligns_ok(*self),
    {
        let ghost w = *self;
        let n = self.files.len();
        let mut aligns: Vec<usize> = Vec::new();
        let mut i: usize = 0;
        while i < n
            invariant
                self.wf(),
                w == *self,
                n == self.spec_files().len(),
                aligns@.len() == i,
                i <= n,
                forall|j: int|
                    0 <= j < i ==> aligns@[j] == Self::spec_sarc_align(w, j) && 0
                        < #[trigger] Self::spec_sarc_align(w, j) <= 0xFFFFFFFF,
            decreases n - i,
        {
            let a = match self.get_alignment_for_file(
                self.files[i].0.as_str(),
                self.files[i].1.as_slice(),
            ) {
                None => {
                    proof {
                        assert(!(0 < Self::spec_sarc_align(w, i as int) <= 0xFFFFFFFF));
                    }
                    return Err(Error::InvalidData("Invalid computed file alignment"));
                }
                Some(v) => v,
            };
            if a as u64 > 0xFFFFFFFF {
                proof {
                    assert(!(0 < Self::spec_sarc_align(w, i as int) <= 0xFFFFFFFF));
                }
                return Err(Error::InvalidData("Invalid computed file alignment"));
            }
            aligns.push(a);
            i = i + 1;
        }
        Ok(aligns)
    }

    /// Folds the least common multiple of all alignments; fails when it
    /// leaves 32 bits.
    fn compute_lcm(&self, aligns: &Vec<usize>) -> (r: Result<usize, Error>)
        requires
            self.wf(),
            Self::spec_sarc_aligns_ok(*self),
            aligns@.len() == self.spec_files().len(),
            forall|j: int|
                0 <= j < self.spec_files().len() ==> aligns@[j] == #[trigger] Self::spec_sarc_align(
                    *self,
                    j,
                ),
        ensures
            r matches Ok(v) ==> v == Self::spec_sarc_lcm_fold(
                *self,
                self.spec_files().len() as int,
            ) && 1 <= v <= 0xFFFFFFFF,
            r is Err ==> Self::spec_sarc_lcm_fold(*self, self.spec_files().len() as int)
                > 0xFFFFFFFF,
    {
        let ghost w = *self;
        let n = self.files.len();
        let mut lcm_all: usize = 1;
        let mut i: usize = 0;
        while i < n
            invariant
                self.wf(),
                w == *self,
                n == self.spec_files().len(),
                i <= n,
                Self::spec_sarc_aligns_ok(w),
                aligns@.len() == n,
                forall|j: int| 0 <= j < n ==> aligns@[j] == #[trigger] Self::spec_sarc_align(w, j),
                lcm_all == Self::spec_sarc_lcm_fold(w, i as int),
                1 <= lcm_all,
                lcm_all as u64 <= 0xFFFFFFFF,
            decreases n - i,
        {
            match lcm_checked(lcm_all, aligns[i]) {
                None => {
                    proof {
                        Self::lemma_fold_mono(w, i + 1, n as int);
                    }
                    return Err(Error::InvalidData("File alignments overflow"));
                }
                Some(v) => {
                    if v as u64 > 0xFFFFFFFF {
                        proof {
                            Self::lemma_fold_mono(w, i + 1, n as int);
                        }
                        return Err(Error::InvalidData("File alignments overflow"));
                    }
                    proof {
                        crate::util::lemma_lcm_ge(lcm_all as nat, Self::spec_sarc_align(w, i as int));
                    }
                    lcm_all = v;
                }
            }
            i = i + 1;
        }
        Ok(lcm_all)
    }

    /// Measures the name table; fails when a word offset would leave the
    /// entry field's 24 bits.
    fn compute_names(&self) -> (r: Result<(u64, Vec<u64>), Error>)
        requires
            self.wf(),
        ensures
            r matches Ok(p) ==> {
                &&& p.0 == Self::spec_sarc_names_len(*self, self.spec_files().len() as int)
                &&& p.0 < 0x4000000
                &&& p.1@.len() == self.spec_files().len()
                &&& forall|j: int|
                    0 <= j < self.spec_files().len() ==> #[trigger] p.1@[j] == spec_align_up(
                        (encode_utf8(self.spec_files()[j].0@).len() + 1) as int,
                        4,
                    )
            },
            r is Err ==> Self::spec_sarc_names_len(*self, self.spec_files().len() as int)
                >= 0x4000000,
    {
        let ghost w = *self;
        let n = self.files.len();
        let mut names_len: u64 = 0;
        let mut paddeds: Vec<u64> = Vec::new();
        let mut i: usize = 0;
        while i < n
            invariant
                self.wf(),
                w == *self,
                n == self.spec_files().len(),
                i <= n,
                paddeds@.len() == i,
                forall|j: int|
                    0 <= j < i ==> #[trigger] paddeds@[j] == spec_align_up(
                        (encode_utf8(w.spec_files()[j].0@).len() + 1) as int,
                        4,
                    ),
                names_len == Self::spec_sarc_names_len(w, i as int),
                names_len < 0x4000000,
            decreases n - i,
        {
            let nl: usize = self.files[i].0.as_str().as_bytes().len();
            if nl as u64 >= 0x4000000 {
                proof {
                    crate::util::lemma_align_up((nl + 1) as int, 4);
                    Self::lemma_names_mono(w, i + 1, n as int);
                }
                return Err(Error::InvalidData("Name table too long"));
            }
            let padded: u64 = crate::util::align_up_u64(nl as u64 + 1, 4);
            proof {
                assert(nl == encode_utf8(w.spec_files()[i as int].0@).len());
                assert(padded == spec_align_up(
                    (encode_utf8(w.spec_files()[i as int].0@).len() + 1) as int,
                    4,
                ));
                assert(Self::spec_sarc_names_len(w, i + 1) == Self::spec_sarc_names_len(
                    w,
                    i as int,
                ) + spec_align_up(
                    (encode_utf8(w.spec_files()[i as int].0@).len() + 1) as int,
                    4,
                ));
            }
            let total: u64 = names_len + padded;
            if total >= 0x4000000 {
                proof {
                    Self::lemma_names_mono(w, i + 1, n as int);
                }
                return Err(Error::InvalidData("Name table too long"));
            }
            paddeds.push(padded);
            names_len = total;
            i = i + 1;
        }
        Ok((names_len, paddeds))
    }

    /// Lays the data area out: each payload at its aligned offset; fails
    /// when the area leaves 32 bits.
    fn compute_data_layout(&self, aligns: &Vec<usize>) -> (r: Result<(Vec<u64>, Vec<u64>, u64), Error>)
        requires
            self.wf(),
            Self::spec_sarc_aligns_ok(*self),
            aligns@.len() == self.spec_files().len(),
            forall|j: int|
                0 <= j < self.spec_files().len() ==> aligns@[j] == #[trigger] Self::spec_sarc_align(
                    *self,
                    j,
                ),
        ensures
            r matches Ok(p) ==> {
                &&& p.0@.len() == self.spec_files().len()
                &&& p.1@.len() == self.spec_files().len()
                &&& forall|j: int|
                    0 <= j < self.spec_files().len() ==> #[trigger] p.0@[j]
                        == Self::spec_sarc_begin(*self, j) && p.1@[j] == Self::spec_sarc_begin(
                        *self,
                        j,
                    ) + self.spec_files()[j].1@.len() && p.1@[j] <= 0xFFFFFFFF
                &&& p.2 == Self::spec_sarc_cursor(*self, self.spec_files().len() as int)
                &&& p.2 <= 0xFFFFFFFF
            },
            r is Err ==> Self::spec_sarc_cursor(*self, self.spec_files().len() as int)
                > 0xFFFFFFFF,
    {
        let ghost w = *self;
        let n = self.files.len();
        let mut begins: Vec<u64> = Vec::new();
        let mut ends: Vec<u64> = Vec::new();
        let mut cursor: u64 = 0;
        let mut i: usize = 0;
        while i < n
            invariant
                self.wf(),
                w == *self,
                n == self.spec_files().len(),
                i <= n,
                Self::spec_sarc_aligns_ok(w),
                aligns@.len() == n,
                forall|j: int| 0 <= j < n ==> aligns@[j] == #[trigger] Self::spec_sarc_align(w, j),
                begins@.len() == i,
                ends@.len() == i,
                forall|j: int|
                    0 <= j < i ==> #[trigger] begins@[j] == Self::spec_sarc_begin(w, j) && ends@[j]
                        == Self::spec_sarc_begin(w, j) + w.spec_files()[j].1@.len() && ends@[j]
                        <= 0xFFFFFFFF,
                cursor == Self::spec_sarc_cursor(w, i as int),
                cursor <= 0xFFFFFFFF,
            decreases n - i,
        {
            let a64: u64 = aligns[i] as u64;
            proof {
                assert(aligns@[i as int] == Self::spec_sarc_align(w, i as int));
                assert(0 < Self::spec_sarc_align(w, i as int) <= 0xFFFFFFFF);
            }
            let begin: u64 = crate::util::align_up_u64(cursor, a64);
            let sz: usize = self.files[i].1.len();
            if sz as u64 > 0xFFFFFFFF || begin + (sz as u64) > 0xFFFFFFFF {
                proof {
                    crate::util::lemma_align_up(cursor as int, a64 as int);
                    Self::lemma_cursor_mono(w, i + 1, n as int);
                }
                return Err(Error::InvalidData("Archive too large"));
            }
            let end: u64 = begin + sz as u64;
            begins.push(begin);
            ends.push(end);
            cursor = end;
            i = i + 1;
        }
        Ok((begins, ends, cursor))
    }

    /// Computes the whole layout; fails exactly when the archive does
    /// not fit the format's limits.
    fn compute_layout(&self) -> (r: Result<SarcLayout, Error>)
        requires
            self.wf(),
        ensures
            r matches Ok(l) ==> spec_layout_ok(*self, l) && Self::spec_sarc_fits(*self),
            r is Err ==> !Self::spec_sarc_fits(*self),
    {
        let ghost w = *self;
        let n = self.files.len();
        if n >= 0x4000 {
            return Err(Error::InvalidData("Too many files in SARC"));
        }
        let aligns = match self.compute_aligns() {
            Err(e) => {
                return Err(e);
            }
            Ok(a) => a,
        };
        let lcm_all = match self.compute_lcm(&aligns) {
            Err(e) => {
                return Err(e);
            }
            Ok(v) => v,
        };
        let (names_len, paddeds) = match self.compute_names() {
            Err(e) => {
                return Err(e);
            }
            Ok(p) => p,
        };
        let (begins, ends, cursor) = match self.compute_data_layout(&aligns) {
            Err(e) => {
                proof {
                    Self::lemma_names_mono(w, 0, n as int);
                    Self::lemma_fold_mono(w, 0, n as int);
                    crate::util::lemma_align_up(
                        0x20 + 16 * n as int + 8 + Self::spec_sarc_names_len(w, n as int),
                        Self::spec_sarc_lcm_fold(w, n as int) as int,
                    );
                }
                return Err(e);
            }
            Ok(p) => p,
        };
        let names_end: u64 = 0x20 + 16 * (n as u64) + 8 + names_len;
        let dob: u64 = crate::util::align_up_u64(names_end, lcm_all as u64);
        let fsize: u64 = dob + cursor;
        if fsize > 0xFFFFFFFF {
            return Err(Error::InvalidData("Archive too large"));
        }
        proof {
            assert(Self::spec_sarc_dob(w) == dob);
            assert(Self::spec_sarc_file_size(w) == fsize);
        }
        Ok(SarcLayout { aligns, paddeds, begins, ends, lcm_all, names_len, dob, fsize })
    }

    /// Emits the SARC and SFAT headers, exactly the header byte sequence.
    fn emit_header(&self, out: &mut Vec<u8>, l: &SarcLayout)
        requires
            self.wf(),
            spec_layout_ok(*self, *l),
        ensures
            final(out)@ == old(out)@ + spec_sarc_header_bytes(
                self.spec_endian(),
                self.spec_hash_multiplier(),
                l.fsize as u32,
                l.dob as u32,
                self.spec_files().len() as u16,
            ),
            final(out)@.len() == old(out)@.len() + 0x20,
    {
        let e = self.endian;
        let n = self.files.len();
        out.push(0x53);
        out.push(0x41);
        out.push(0x52);
        out.push(0x43);
        crate::util::push_u16(out, 0x14, e);
        match e {
            Endian::Big => {
                out.push(0xfe);
                out.push(0xff);
            }
            Endian::Little => {
                out.push(0xff);
                out.push(0xfe);
            }
        }
        crate::util::push_u32(out, l.fsize as u32, e);
        crate::util::push_u32(out, l.dob as u32, e);
        crate::util::push_u16(out, 0x100, e);
        crate::util::push_u16(out, 0, e);
        out.push(0x53);
        out.push(0x46);
        out.push(0x41);
        out.push(0x54);
        crate::util::push_u16(out, 0x0c, e);
        crate::util::push_u16(out, n as u16, e);
        crate::util::push_u32(out, self.hash_multiplier, e);
        proof {
            crate::util::lemma_bytes_len(self.spec_endian());
            assert(out@ =~= old(out)@ + spec_sarc_header_bytes(
                self.spec_endian(),
                self.spec_hash_multiplier(),
                l.fsize as u32,
                l.dob as u32,
                self.spec_files().len() as u16,
            ));
        }
    }

    /// The 32-bit value of the name field the writer stores for file
    /// `k`: the presence flag and the name's word offset.
    pub open spec fn spec_sarc_name_field(w: SarcWriter, k: int) -> u32 {
        (0x1000000 + Self::spec_sarc_names_len(w, k) / 4) as u32
    }

    /// Emits the file-allocation entries, sorted as the files are; each
    /// entry's hash, name field and data range read back exactly.
    #[verifier::rlimit(100)]
    #[verifier::spinoff_prover]
    fn emit_entries(&self, out: &mut Vec<u8>, l: &SarcLayout)
        requires
            self.wf(),
            spec_layout_ok(*self, *l),
        ensures
            final(out)@.len() == old(out)@.len() + 16 * self.spec_files().len(),
            final(out)@.subrange(0, old(out)@.len() as int) == old(out)@,
            forall|k: int|
                0 <= k < self.spec_files().len() ==> {
                    let base = old(out)@.len() as int + 16 * k;
                    &&& spec_u32_at(final(out)@, base, self.spec_endian()) == spec_hash_name(
                        self.spec_hash_multiplier(),
                        encode_utf8((#[trigger] self.spec_files()[k]).0@),
                    )
                    &&& spec_u32_at(final(out)@, base + 4, self.spec_endian())
                        == Self::spec_sarc_name_field(*self, k)
                    &&& spec_u32_at(final(out)@, base + 8, self.spec_endian())
                        == Self::spec_sarc_begin(*self, k)
                    &&& spec_u32_at(final(out)@, base + 12, self.spec_endian())
                        == Self::spec_sarc_begin(*self, k) + self.spec_files()[k].1@.len()
                },
    {
        let ghost w = *self;
        let ghost base0 = out@.len();
        let e = self.endian;
        let mul = self.hash_multiplier;
        let n = self.files.len();
        let mut rname: u64 = 0;
        let mut i: usize = 0;
        while i < n
            invariant
                self.wf(),
                w == *self,
                spec_layout_ok(w, *l),
                n == self.spec_files().len(),
                i <= n,
                e == self.spec_endian(),
                mul == self.spec_hash_multiplier(),
                rname == Self::spec_sarc_names_len(w, i as int),
                rname <= Self::spec_sarc_names_len(w, n as int),
                Self::spec_sarc_names_len(w, n as int) < 0x4000000,
                out@.len() == base0 + 16 * i,
                base0 <= out@.len(),
                out@.subrange(0, base0 as int) == old(out)@,
                forall|k: int|
                    0 <= k < i ==> {
                        let base = base0 + 16 * k;
                        &&& spec_u32_at(out@, base, e) == spec_hash_name(
                            mul,
                            encode_utf8((#[trigger] w.spec_files()[k]).0@),
                        )
                        &&& spec_u32_at(out@, base + 4, e) == Self::spec_sarc_name_field(w, k)
                        &&& spec_u32_at(out@, base + 8, e) == Self::spec_sarc_begin(w, k)
                        &&& spec_u32_at(out@, base + 12, e) == Self::spec_sarc_begin(w, k)
                            + w.spec_files()[k].1@.len()
                    },
            decreases n - i,
        {
            let ghost prev = out@;
            let h = crate::util::hash_name(mul, self.files[i].0.as_str());
            proof {
                Self::lemma_names_mono(w, i as int, i + 1);
                Self::lemma_names_mono(w, i + 1, n as int);
                Self::lemma_names_mono(w, 0, i as int);
                crate::util::lemma_align_up(
                    (encode_utf8(w.spec_files()[i as int].0@).len() + 1) as int,
                    4,
                );
            }
            let field: u32 = 0x1000000 + ((rname / 4) as u32);
            crate::util::push_u32(out, h, e);
            crate::util::push_u32(out, field, e);
            crate::util::push_u32(out, l.begins[i] as u32, e);
            crate::util::push_u32(out, l.ends[i] as u32, e);
            proof {
                crate::util::lemma_bytes_len(e);
                let hb = crate::util::spec_u32_bytes(h, e);
                let fb = crate::util::spec_u32_bytes(field, e);
                let bb = crate::util::spec_u32_bytes(l.begins@[i as int] as u32, e);
                let eb = crate::util::spec_u32_bytes(l.ends@[i as int] as u32, e);
                assert(out@ =~= prev + (hb + fb + bb + eb));
                assert(out@.subrange(0, prev.len() as int) =~= prev);
                crate::util::lemma_subrange_prefix(prev, out@, 0, base0 as int);
                assert(out@.subrange(prev.len() as int, prev.len() as int + 4) =~= hb);
                crate::util::lemma_u32_roundtrip(out@, prev.len() as int, h, e);
                assert(out@.subrange(prev.len() as int + 4, prev.len() as int + 8) =~= fb);
                crate::util::lemma_u32_roundtrip(out@, prev.len() as int + 4, field, e);
                assert(out@.subrange(prev.len() as int + 8, prev.len() as int + 12) =~= bb);
                crate::util::lemma_u32_roundtrip(
                    out@,
                    prev.len() as int + 8,
                    l.begins@[i as int] as u32,
                    e,
                );
                assert(out@.subrange(prev.len() as int + 12, prev.len() as int + 16) =~= eb);
                crate::util::lemma_u32_roundtrip(out@, prev.len() as int + 12, l.ends@[i as int] as u32, e);
                assert(field == Self::spec_sarc_name_field(w, i as int));
                assert(l.begins@[i as int] as u32 == Self::spec_sarc_begin(w, i as int));
                assert(l.ends@[i as int] as u32 == Self::spec_sarc_begin(w, i as int)
                    + w.spec_files()[i as int].1@.len());
                assert forall|k: int|
                    0 <= k < i + 1 implies {
                    let base = base0 + 16 * k;
                    &&& spec_u32_at(out@, base, e) == spec_hash_name(
                        mul,
                        encode_utf8((#[trigger] w.spec_files()[k]).0@),
                    )
                    &&& spec_u32_at(out@, base + 4, e) == Self::spec_sarc_name_field(w, k)
                    &&& spec_u32_at(out@, base + 8, e) == Self::spec_sarc_begin(w, k)
                    &&& spec_u32_at(out@, base + 12, e) == Self::spec_sarc_begin(w, k)
                        + w.spec_files()[k].1@.len()
                } by {
                    if k < i {
                        crate::util::lemma_u32_at_prefix(prev, out@, base0 + 16 * k, e);
                        crate::util::lemma_u32_at_prefix(prev, out@, base0 + 16 * k + 4, e);
                        crate::util::lemma_u32_at_prefix(prev, out@, base0 + 16 * k + 8, e);
                        crate::util::lemma_u32_at_prefix(prev, out@, base0 + 16 * k + 12, e);
                    }
                }
            }
            rname = rname + l.paddeds[i];
            i = i + 1;
        }
    }

    /// Emits the SFNT header and the padded name table; the SFNT header
    /// bytes read back exactly, and everything before is preserved.
    fn emit_names(&self, out: &mut Vec<u8>, l: &SarcLayout)
        requires
            self.wf(),
            spec_layout_ok(*self, *l),
        ensures
            final(out)@.len() == old(out)@.len() + 8 + Self::spec_sarc_names_len(
                *self,
                self.spec_files().len() as int,
            ),
            final(out)@.subrange(0, old(out)@.len() as int) == old(out)@,
            final(out)@.subrange(old(out)@.len() as int, old(out)@.len() as int + 8)
                == spec_sfnt_bytes(self.spec_endian()),
    {
        let ghost w = *self;
        let ghost out0 = out@;
        let e = self.endian;
        let n = self.files.len();
        out.push(0x53);
        out.push(0x46);
        out.push(0x4e);
        out.push(0x54);
        crate::util::push_u16(out, 0x08, e);
        crate::util::push_u16(out, 0, e);
        proof {
            crate::util::lemma_bytes_len(e);
            assert(out@ =~= out0 + spec_sfnt_bytes(e));
        }
        let ghost base = out@.len();
        let mut i: usize = 0;
        while i < n
            invariant
                self.wf(),
                w == *self,
                spec_layout_ok(w, *l),
                n == self.spec_files().len(),
                i <= n,
                e == self.spec_endian(),
                out@.len() == base + Self::spec_sarc_names_len(w, i as int),
                Self::spec_sarc_names_len(w, i as int) >= 0,
                base == out0.len() + 8,
                out@.subrange(0, out0.len() as int) == out0,
                out@.subrange(out0.len() as int, base as int) == spec_sfnt_bytes(e),
            decreases n - i,
        {
            let ghost prev = out@;
            let nm: &str = self.files[i].0.as_str();
            let nl: usize = nm.as_bytes().len();
            proof {
                crate::util::lemma_align_up((nl + 1) as int, 4);
                Self::lemma_names_mono(w, i as int, i + 1);
                Self::lemma_names_mono(w, 0, i as int);
                Self::lemma_names_mono(w, i + 1, n as int);
                assert(nl + 1 <= Self::spec_sarc_names_len(w, n as int));
            }
            crate::util::push_slice(out, nm.as_bytes());
            out.push(0);
            let padded: u64 = crate::util::align_up_u64(nl as u64 + 1, 4);
            let pad: u64 = padded - (nl as u64 + 1);
            crate::util::push_zeros(out, pad as usize);
            proof {
                assert(out@.subrange(0, prev.len() as int) =~= prev);
                crate::util::lemma_subrange_prefix(prev, out@, 0, out0.len() as int);
                crate::util::lemma_subrange_prefix(prev, out@, out0.len() as int, base as int);
            }
            i = i + 1;
        }
    }

    /// Emits the padding up to the data area and every payload at its
    /// aligned offset; each payload reads back exactly, and everything
    /// before the data area is preserved.
    #[verifier::rlimit(100)]
    #[verifier::spinoff_prover]
    fn emit_data(&self, out: &mut Vec<u8>, l: &SarcLayout)
        requires
            self.wf(),
            spec_layout_ok(*self, *l),
            old(out)@.len() == 0x20 + 16 * self.spec_files().len() + 8
                + Self::spec_sarc_names_len(*self, self.spec_files().len() as int),
        ensures
            final(out)@.len() == l.fsize,
            final(out)@.subrange(0, old(out)@.len() as int) == old(out)@,
            forall|k: int|
                0 <= k < self.spec_files().len() ==> final(out)@.subrange(
                    l.dob + Self::spec_sarc_begin(*self, k),
                    l.dob + Self::spec_sarc_begin(*self, k) + (
                    #[trigger] self.spec_files()[k]).1@.len(),
                ) == self.spec_files()[k].1@,
    {
        let ghost w = *self;
        let ghost out0 = out@;
        let n = self.files.len();
        let names_end: u64 = 0x20 + 16 * (n as u64) + 8 + l.names_len;
        proof {
            Self::lemma_names_mono(w, 0, n as int);
            Self::lemma_fold_mono(w, 0, n as int);
            crate::util::lemma_align_up(names_end as int, l.lcm_all as int);
        }
        crate::util::push_zeros(out, (l.dob - names_end) as usize);
        proof {
            assert(out@.subrange(0, out0.len() as int) =~= out0);
        }
        let mut cursor2: u64 = 0;
        let mut i: usize = 0;
        while i < n
            invariant
                self.wf(),
                w == *self,
                spec_layout_ok(w, *l),
                n == self.spec_files().len(),
                i <= n,
                cursor2 == Self::spec_sarc_cursor(w, i as int),
                out@.len() == l.dob + cursor2,
                out0.len() <= l.dob,
                out@.subrange(0, out0.len() as int) == out0,
                forall|k: int|
                    0 <= k < i ==> out@.subrange(
                        l.dob + Self::spec_sarc_begin(w, k),
                        l.dob + Self::spec_sarc_begin(w, k) + (
                        #[trigger] w.spec_files()[k]).1@.len(),
                    ) == w.spec_files()[k].1@,
            decreases n - i,
        {
            proof {
                crate::util::lemma_align_up(
                    Self::spec_sarc_cursor(w, i as int),
                    Self::spec_sarc_align(w, i as int) as int,
                );
                Self::lemma_cursor_mono(w, 0, i as int);
                Self::lemma_cursor_mono(w, i + 1, n as int);
            }
            let ghost prev = out@;
            let begin: u64 = l.begins[i];
            crate::util::push_zeros(out, (begin - cursor2) as usize);
            let ghost mid = out@;
            crate::util::push_slice(out, self.files[i].1.as_slice());
            proof {
                assert(out@.subrange(0, prev.len() as int) =~= prev);
                crate::util::lemma_subrange_prefix(prev, out@, 0, out0.len() as int);
                assert(mid.len() == l.dob + Self::spec_sarc_begin(w, i as int));
                assert(out@.subrange(mid.len() as int, out@.len() as int) =~= w.spec_files()[
                    i as int
                ].1@);
                lemma_data_region_bounds(w, l.dob as int, i as int, prev.len() as int);
                lemma_data_entries_extend(w, prev, out@, l.dob as int, i as int);
            }
            cursor2 = l.ends[i];
            i = i + 1;
        }
        proof {
            assert(out@.len() == l.fsize);
        }
    }

    /// Emits the whole archive for a computed layout: headers, entries,
    /// name table and data area, with every written field and payload
    /// reading back exactly.
    #[verifier::rlimit(100)]
    #[verifier::spinoff_prover]
    fn emit_archive(&self, l: &SarcLayout) -> (out: Vec<u8>)
        requires
            self.wf(),
            spec_layout_ok(*self, *l),
        ensures
            out@.len() == Self::spec_sarc_file_size(*self),
            ({
                let w = *self;
                let e = w.spec_endian();
                let n = w.spec_files().len() as int;
                let dob = Self::spec_sarc_dob(w);
                &&& spec_u32_at(out@, 8, e) == Self::spec_sarc_file_size(w)
                &&& spec_u32_at(out@, 12, e) == dob
                &&& spec_u32_at(out@, 0x1c, e) == w.spec_hash_multiplier()
                &&& crate::sarc::spec_sarc_bom(out@) == Some(e)
                &&& crate::sarc::spec_sarc_num_files(out@, e) == n
                &&& (out@.len() >= 0x40 ==> crate::sarc::spec_sarc_ok(out@))
                &&& forall|k: int|
                    0 <= k < n ==> {
                        let base = 0x20 + 16 * k;
                        &&& spec_u32_at(out@, base, e) == spec_hash_name(
                            w.spec_hash_multiplier(),
                            encode_utf8((#[trigger] w.spec_files()[k]).0@),
                        )
                        &&& spec_u32_at(out@, base + 4, e) == Self::spec_sarc_name_field(w, k)
                        &&& spec_u32_at(out@, base + 8, e) == Self::spec_sarc_begin(w, k)
                        &&& spec_u32_at(out@, base + 12, e) == Self::spec_sarc_begin(w, k)
                            + w.spec_files()[k].1@.len()
                    }
                &&& forall|k: int|
                    0 <= k < n ==> out@.subrange(
                        dob + Self::spec_sarc_begin(w, k),
                        dob + Self::spec_sarc_begin(w, k) + (
                        #[trigger] w.spec_files()[k]).1@.len(),
                    ) == w.spec_files()[k].1@
            }),
    {
        let ghost w = *self;
        let mut out: Vec<u8> = Vec::new();
        self.emit_header(&mut out, l);
        self.emit_entries(&mut out, l);
        let ghost out2 = out@;
        self.emit_names(&mut out, l);
        let ghost out3 = out@;
        self.emit_data(&mut out, l);
        proof {
            lemma_sarc_assembled(w, *l, out2, out3, out@);
        }
        out
    }

    /// Writes the archive: sorts the files by name hash, lays every
    /// payload out at its computed alignment, and emits the SARC, SFAT
    /// and SFNT sections followed by the name table and the data area.
    /// Fails exactly when the archive cannot be laid out within the
    /// format's 32-bit limits.
    #[verifier::rlimit(100)]
    #[verifier::spinoff_prover]
    pub fn to_binary(&mut self) -> (r: Result<Vec<u8>, Error>)
        requires
            old(self).wf(),
        ensures
            final(self).wf(),
            final(self).spec_endian() == old(self).spec_endian(),
            final(self).spec_legacy() == old(self).spec_legacy(),
            final(self).spec_hash_multiplier() == old(self).spec_hash_multiplier(),
            final(self).spec_min_alignment() == old(self).spec_min_alignment(),
            final(self).spec_factory_names() == old(self).spec_factory_names(),
            spec_amap_get(final(self).spec_alignment_map(), encode_utf8("bffnt"@)) == Some(
                if final(self).spec_endian() is Big {
                    0x2000usize
                } else {
                    0x1000usize
                },
            ),
            final(self).spec_files().len() == old(self).spec_files().len(),
            final(self).spec_files().to_multiset() == old(self).spec_files().to_multiset(),
            forall|i: int, j: int|
                0 <= i <= j < final(self).spec_files().len() ==> spec_hash_name(
                    final(self).spec_hash_multiplier(),
                    encode_utf8(#[trigger] final(self).spec_files()[i].0@),
                ) <= spec_hash_name(
                    final(self).spec_hash_multiplier(),
                    encode_utf8(#[trigger] final(self).spec_files()[j].0@),
                ),
            r matches Ok(out) ==> {
                &&& Self::spec_sarc_fits(*final(self))
                &&& out@.len() == Self::spec_sarc_file_size(*final(self))
                &&& forall|k: int|
                    0 <= k < final(self).spec_files().len() ==> (Self::spec_sarc_dob(
                        *final(self),
                    ) + Self::spec_sarc_begin(*final(self), k)) % (
                    #[trigger] Self::spec_sarc_align(*final(self), k) as int) == 0
            },
            r matches Ok(out) ==> ({
                let w = *final(self);
                let e = w.spec_endian();
                let n = w.spec_files().len() as int;
                let dob = Self::spec_sarc_dob(w);
                &&& spec_u32_at(out@, 8, e) == Self::spec_sarc_file_size(w)
                &&& spec_u32_at(out@, 12, e) == dob
                &&& spec_u32_at(out@, 0x1c, e) == w.spec_hash_multiplier()
                &&& crate::sarc::spec_sarc_bom(out@) == Some(e)
                &&& crate::sarc::spec_sarc_num_files(out@, e) == n
                &&& (out@.len() >= 0x40 ==> crate::sarc::spec_sarc_ok(out@))
                &&& forall|k: int|
                    0 <= k < n ==> {
                        let base = 0x20 + 16 * k;
                        &&& spec_u32_at(out@, base, e) == spec_hash_name(
                            w.spec_hash_multiplier(),
                            encode_utf8((#[trigger] w.spec_files()[k]).0@),
                        )
                        &&& spec_u32_at(out@, base + 4, e) == Self::spec_sarc_name_field(w, k)
                        &&& spec_u32_at(out@, base + 8, e) == Self::spec_sarc_begin(w, k)
                        &&& spec_u32_at(out@, base + 12, e) == Self::spec_sarc_begin(w, k)
                            + w.spec_files()[k].1@.len()
                    }
                &&& forall|k: int|
                    0 <= k < n ==> out@.subrange(
                        dob + Self::spec_sarc_begin(w, k),
                        dob + Self::spec_sarc_begin(w, k) + (
                        #[trigger] w.spec_files()[k]).1@.len(),
                    ) == w.spec_files()[k].1@
            }),
            r is Err ==> !Self::spec_sarc_fits(*final(self)),
    {
        self.add_default_alignments();
        self.sort_files();
        let ghost w = *self;
        let l = match self.compute_layout() {
            Err(e) => {
                return Err(e);
            }
            Ok(l) => l,
        };
        proof {
            assert forall|k: int|
                0 <= k < w.spec_files().len() implies (Self::spec_sarc_dob(w)
                + Self::spec_sarc_begin(w, k)) % (#[trigger] Self::spec_sarc_align(w, k) as int)
                == 0 by {
                Self::lemma_sarc_entry_alignment(w, k);
            }
        }
        let out = self.emit_archive(&l);
        Ok(out)
    }
}



/// Every already-placed payload lies below the current cursor.
proof fn lemma_data_region_bounds(w: SarcWriter, dob: int, i: int, plen: int)
    requires
        SarcWriter::spec_sarc_aligns_ok(w),
        0 <= i <= w.spec_files().len(),
        dob >= 0,
        plen == dob + SarcWriter::spec_sarc_cursor(w, i),
    ensures
        forall|k: int|
            0 <= k < i ==> dob + SarcWriter::spec_sarc_begin(w, k) >= 0 && dob
                + SarcWriter::spec_sarc_begin(w, k) + (#[trigger] w.spec_files()[k]).1@.len()
                <= plen,
{
    assert forall|k: int|
        0 <= k < i implies dob + SarcWriter::spec_sarc_begin(w, k) >= 0 && dob
        + SarcWriter::spec_sarc_begin(w, k) + (#[trigger] w.spec_files()[k]).1@.len() <= plen by {
        SarcWriter::lemma_cursor_mono(w, 0, k);
        SarcWriter::lemma_cursor_mono(w, k + 1, i);
        assert(0 < SarcWriter::spec_sarc_align(w, k));
        crate::util::lemma_align_up(
            SarcWriter::spec_sarc_cursor(w, k),
            SarcWriter::spec_sarc_align(w, k) as int,
        );
    }
}

/// Extending the buffer with file `i`'s payload keeps every earlier
/// payload readable and adds the new one.
#[verifier::rlimit(100)]
#[verifier::spinoff_prover]
proof fn lemma_data_entries_extend(
    w: SarcWriter,
    prev: Seq<u8>,
    cur: Seq<u8>,
    dob: int,
    i: int,
)
    requires
        0 <= i < w.spec_files().len(),
        prev.len() <= cur.len(),
        cur.subrange(0, prev.len() as int) == prev,
        dob + SarcWriter::spec_sarc_begin(w, i) + w.spec_files()[i].1@.len() == cur.len(),
        cur.subrange(dob + SarcWriter::spec_sarc_begin(w, i), cur.len() as int) == w.spec_files()[
            i
        ].1@,
        forall|k: int|
            0 <= k < i ==> dob + SarcWriter::spec_sarc_begin(w, k) >= 0 && dob
                + SarcWriter::spec_sarc_begin(w, k) + (#[trigger] w.spec_files()[k]).1@.len()
                <= prev.len() && prev.subrange(
                dob + SarcWriter::spec_sarc_begin(w, k),
                dob + SarcWriter::spec_sarc_begin(w, k) + w.spec_files()[k].1@.len(),
            ) == w.spec_files()[k].1@,
    ensures
        forall|k: int|
            0 <= k < i + 1 ==> cur.subrange(
                dob + SarcWriter::spec_sarc_begin(w, k),
                dob + SarcWriter::spec_sarc_begin(w, k) + (#[trigger] w.spec_files()[k]).1@.len(),
            ) == w.spec_files()[k].1@,
{
    assert forall|k: int|
        0 <= k < i + 1 implies cur.subrange(
        dob + SarcWriter::spec_sarc_begin(w, k),
        dob + SarcWriter::spec_sarc_begin(w, k) + (#[trigger] w.spec_files()[k]).1@.len(),
    ) == w.spec_files()[k].1@ by {
        if k < i {
            crate::util::lemma_subrange_prefix(
                prev,
                cur,
                dob + SarcWriter::spec_sarc_begin(w, k),
                dob + SarcWriter::spec_sarc_begin(w, k) + w.spec_files()[k].1@.len(),
            );
        }
    }
}

/// Assembling header, entries, name table and data area yields a buffer
/// whose header fields, file-allocation entries and payloads all read
/// back as written, and which passes every check of the archive reader
/// once it reaches the reader's minimum size.
#[verifier::rlimit(100)]
#[verifier::spinoff_prover]
proof fn lemma_sarc_assembled(
    w: SarcWriter,
    l: SarcLayout,
    out2: Seq<u8>,
    out3: Seq<u8>,
    out4: Seq<u8>,
)
    requires
        w.wf(),
        spec_layout_ok(w, l),
        out2.len() == 0x20 + 16 * w.spec_files().len(),
        out2.subrange(0, 0x20) == spec_sarc_header_bytes(
            w.spec_endian(),
            w.spec_hash_multiplier(),
            l.fsize as u32,
            l.dob as u32,
            w.spec_files().len() as u16,
        ),
        forall|k: int|
            0 <= k < w.spec_files().len() ==> {
                let base = 0x20 + 16 * k;
                &&& spec_u32_at(out2, base, w.spec_endian()) == spec_hash_name(
                    w.spec_hash_multiplier(),
                    encode_utf8((#[trigger] w.spec_files()[k]).0@),
                )
                &&& spec_u32_at(out2, base + 4, w.spec_endian()) == SarcWriter::spec_sarc_name_field(
                    w,
                    k,
                )
                &&& spec_u32_at(out2, base + 8, w.spec_endian()) == SarcWriter::spec_sarc_begin(
                    w,
                    k,
                )
                &&& spec_u32_at(out2, base + 12, w.spec_endian()) == SarcWriter::spec_sarc_begin(
                    w,
                    k,
                ) + w.spec_files()[k].1@.len()
            },
        out3.len() == out2.len() + 8 + SarcWriter::spec_sarc_names_len(
            w,
            w.spec_files().len() as int,
        ),
        out3.subrange(0, out2.len() as int) == out2,
        out3.subrange(out2.len() as int, out2.len() as int + 8) == spec_sfnt_bytes(
            w.spec_endian(),
        ),
        out4.len() == l.fsize,
        out4.subrange(0, out3.len() as int) == out3,
        forall|k: int|
            0 <= k < w.spec_files().len() ==> out4.subrange(
                l.dob + SarcWriter::spec_sarc_begin(w, k),
                l.dob + SarcWriter::spec_sarc_begin(w, k) + (#[trigger] w.spec_files()[k]).1@.len(),
            ) == w.spec_files()[k].1@,
    ensures
        ({
            let e = w.spec_endian();
            let n = w.spec_files().len() as int;
            let dob = SarcWriter::spec_sarc_dob(w);
            &&& spec_u32_at(out4, 8, e) == SarcWriter::spec_sarc_file_size(w)
            &&& spec_u32_at(out4, 12, e) == dob
            &&& spec_u32_at(out4, 0x1c, e) == w.spec_hash_multiplier()
            &&& crate::sarc::spec_sarc_bom(out4) == Some(e)
            &&& crate::sarc::spec_sarc_num_files(out4, e) == n
            &&& (out4.len() >= 0x40 ==> crate::sarc::spec_sarc_ok(out4))
            &&& forall|k: int|
                0 <= k < n ==> {
                    let base = 0x20 + 16 * k;
                    &&& spec_u32_at(out4, base, e) == spec_hash_name(
                        w.spec_hash_multiplier(),
                        encode_utf8((#[trigger] w.spec_files()[k]).0@),
                    )
                    &&& spec_u32_at(out4, base + 4, e) == SarcWriter::spec_sarc_name_field(w, k)
                    &&& spec_u32_at(out4, base + 8, e) == SarcWriter::spec_sarc_begin(w, k)
                    &&& spec_u32_at(out4, base + 12, e) == SarcWriter::spec_sarc_begin(w, k)
                        + w.spec_files()[k].1@.len()
                }
            &&& forall|k: int|
                0 <= k < n ==> out4.subrange(
                    dob + SarcWriter::spec_sarc_begin(w, k),
                    dob + SarcWriter::spec_sarc_begin(w, k) + (
                    #[trigger] w.spec_files()[k]).1@.len(),
                ) == w.spec_files()[k].1@
        }),
{
    let e = w.spec_endian();
    let mul = w.spec_hash_multiplier();
    let n = w.spec_files().len() as int;
    let n16 = w.spec_files().len() as u16;
    let h = spec_sarc_header_bytes(e, mul, l.fsize as u32, l.dob as u32, n16);
    // the whole assembly preserves the first two sections
    crate::util::lemma_subrange_prefix(out3, out4, 0, out2.len() as int);
    assert(out4.subrange(0, out2.len() as int) == out2);
    crate::util::lemma_subrange_prefix(out2, out4, 0, 0x20);
    assert(out4.subrange(0, 0x20) == h);
    lemma_sarc_header_transfer(out4, e, mul, l.fsize as u32, l.dob as u32, n16);
    lemma_sarc_assembled_entries(w, out2, out4, e, mul);
    crate::util::lemma_subrange_prefix(out3, out4, out2.len() as int, out2.len() as int + 8);
    lemma_sfnt_transfer(out4, out2.len() as int, e);
    // every reader check passes once the buffer reaches the minimum size
    if out4.len() >= 0x40 {
        let nn = n16;
        assert(nn < 0x4000 ==> nn >> 14 == 0) by (bit_vector);
        SarcWriter::lemma_names_mono(w, 0, n);
        SarcWriter::lemma_fold_mono(w, 0, n);
        crate::util::lemma_align_up(
            0x20 + 16 * n + 8 + SarcWriter::spec_sarc_names_len(w, n),
            SarcWriter::spec_sarc_lcm_fold(w, n) as int,
        );
        SarcWriter::lemma_cursor_nonneg(w, n);
        assert(crate::sarc::spec_sarc_ok(out4));
    }
}

/// The header fields read back from any buffer that starts with the
/// header bytes.
#[verifier::rlimit(100)]
#[verifier::spinoff_prover]
proof fn lemma_sarc_header_transfer(d: Seq<u8>, e: Endian, mul: u32, fsize: u32, dob: u32, n: u16)
    requires
        d.len() >= 0x20,
        d.subrange(0, 0x20) == spec_sarc_header_bytes(e, mul, fsize, dob, n),
    ensures
        crate::sarc::spec_sarc_magic_ok(d),
        crate::sarc::spec_sarc_bom(d) == Some(e),
        spec_u16_at(d, 4, e) == 0x14,
        spec_u32_at(d, 8, e) == fsize,
        spec_u32_at(d, 12, e) == dob,
        spec_u16_at(d, 16, e) == 0x100,
        crate::sarc::spec_sfat_magic_ok(d),
        spec_u16_at(d, 0x18, e) == 0x0c,
        spec_u16_at(d, 0x1a, e) == n,
        spec_u32_at(d, 0x1c, e) == mul,
{
    let h = spec_sarc_header_bytes(e, mul, fsize, dob, n);
    lemma_sarc_header_fields(e, mul, fsize, dob, n);
    assert forall|i: int| 0 <= i < 0x20 implies d[i] == h[i] by {
        assert(d.subrange(0, 0x20)[i] == d[i]);
    }
}

/// The SFNT header bytes read back at their position.
#[verifier::rlimit(100)]
#[verifier::spinoff_prover]
proof fn lemma_sfnt_transfer(d: Seq<u8>, p: int, e: Endian)
    requires
        0 <= p,
        p + 8 <= d.len(),
        d.subrange(p, p + 8) == spec_sfnt_bytes(e),
    ensures
        crate::sarc::spec_sfnt_magic_ok(d, p),
        spec_u16_at(d, p + 4, e) == 0x08,
{
    crate::util::lemma_bytes_len(e);
    let sf = spec_sfnt_bytes(e);
    assert forall|i: int| 0 <= i < 8 implies d[p + i] == sf[i] by {
        assert(d.subrange(p, p + 8)[i] == d[p + i]);
    }
    assert(d[p + 0] == sf[0] && d[p + 1] == sf[1] && d[p + 2] == sf[2] && d[p + 3] == sf[3]);
    assert(sf[0] == 0x53 && sf[1] == 0x46 && sf[2] == 0x4e && sf[3] == 0x54);
    assert(crate::sarc::spec_sfnt_magic_ok(d, p));
    assert(sf.subrange(4, 6) =~= crate::util::spec_u16_bytes(0x08, e));
    assert(d[p + 4] == sf[4] && d[p + 5] == sf[5]);
    assert(d.subrange(p + 4, p + 6) =~= crate::util::spec_u16_bytes(0x08, e));
    crate::util::lemma_u16_roundtrip(d, p + 4, 0x08, e);
}


/// The file-allocation entry fields survive into the final buffer.
#[verifier::rlimit(100)]
#[verifier::spinoff_prover]
proof fn lemma_sarc_assembled_entries(
    w: SarcWriter,
    out2: Seq<u8>,
    out4: Seq<u8>,
    e: Endian,
    mul: u32,
)
    requires
        out2.len() == 0x20 + 16 * w.spec_files().len(),
        out2.len() <= out4.len(),
        out4.subrange(0, out2.len() as int) == out2,
        forall|k: int|
            0 <= k < w.spec_files().len() ==> {
                let base = 0x20 + 16 * k;
                &&& spec_u32_at(out2, base, e) == spec_hash_name(
                    mul,
                    encode_utf8((#[trigger] w.spec_files()[k]).0@),
                )
                &&& spec_u32_at(out2, base + 4, e) == SarcWriter::spec_sarc_name_field(w, k)
                &&& spec_u32_at(out2, base + 8, e) == SarcWriter::spec_sarc_begin(w, k)
                &&& spec_u32_at(out2, base + 12, e) == SarcWriter::spec_sarc_begin(w, k)
                    + w.spec_files()[k].1@.len()
            },
    ensures
        forall|k: int|
            0 <= k < w.spec_files().len() ==> {
                let base = 0x20 + 16 * k;
                &&& spec_u32_at(out4, base, e) == spec_hash_name(
                    mul,
                    encode_utf8((#[trigger] w.spec_files()[k]).0@),
                )
                &&& spec_u32_at(out4, base + 4, e) == SarcWriter::spec_sarc_name_field(w, k)
                &&& spec_u32_at(out4, base + 8, e) == SarcWriter::spec_sarc_begin(w, k)
                &&& spec_u32_at(out4, base + 12, e) == SarcWriter::spec_sarc_begin(w, k)
                    + w.spec_files()[k].1@.len()
            },
{
    assert forall|k: int|
        0 <= k < w.spec_files().len() implies spec_u32_at(out4, 0x20 + 16 * k, e)
        == spec_hash_name(mul, encode_utf8((#[trigger] w.spec_files()[k]).0@)) by {
        assert(spec_u32_at(out2, 0x20 + 16 * k, e) == spec_hash_name(
            mul,
            encode_utf8(w.spec_files()[k].0@),
        ));
        crate::util::lemma_u32_at_prefix(out2, out4, 0x20 + 16 * k, e);
    }
    assert forall|k: int|
        0 <= k < w.spec_files().len() implies spec_u32_at(out4, 0x20 + 16 * k + 4, e)
        == SarcWriter::spec_sarc_name_field(w, k) && spec_u32_at(out4, 0x20 + 16 * k + 8, e)
        == SarcWriter::spec_sarc_begin(w, k) && spec_u32_at(out4, 0x20 + 16 * k + 12, e)
        == SarcWriter::spec_sarc_begin(w, k) + (#[trigger] w.spec_files()[k]).1@.len() by {
        let kb = encode_utf8(w.spec_files()[k].0@);
        assert(spec_u32_at(out2, 0x20 + 16 * k + 4, e) == SarcWriter::spec_sarc_name_field(w, k));
        assert(spec_u32_at(out2, 0x20 + 16 * k + 8, e) == SarcWriter::spec_sarc_begin(w, k));
        assert(spec_u32_at(out2, 0x20 + 16 * k + 12, e) == SarcWriter::spec_sarc_begin(w, k)
            + w.spec_files()[k].1@.len());
        crate::util::lemma_u32_at_prefix(out2, out4, 0x20 + 16 * k + 4, e);
        crate::util::lemma_u32_at_prefix(out2, out4, 0x20 + 16 * k + 8, e);
        crate::util::lemma_u32_at_prefix(out2, out4, 0x20 + 16 * k + 12, e);
    }
}

} // verus!
