//! The zero-copy BYML reader and the materializer: a borrowed buffer is
//! navigated through lightweight node references, with binary search over
//! the sorted key and hash tables, and can be turned into an owned `Byml`
//! tree.

use vstd::prelude::*;
use vstd::slice::{slice_index_get, slice_subrange, slice_to_vec};
use vstd::string::StringSliceAdditionalSpecFns;
use vstd::utf8::valid_utf8;

use crate::byml::{
    byml_view, spec_node_type_from_tag, Byml, BymlVal, NodeType,
};
use crate::util::{
    bytes_as_str, cmp_bytes, find_nul_from, lemma_find_nul, read_u16, read_u24, read_u32, read_u64,
    spec_align_up, spec_find_nul, spec_u16_at, spec_u24_at, spec_u32_at, spec_u64_at,
};
use crate::{Endian, Error};

verus! {

/// The byte order the BYML magic encodes: `BY` is big-endian, `YB`
/// little-endian.
pub open spec fn spec_byml_endian(d: Seq<u8>) -> Option<Endian> {
    if d.len() < 16 {
        None
    } else if d[0] == 0x42 && d[1] == 0x59 {
        Some(Endian::Big)
    } else if d[0] == 0x59 && d[1] == 0x42 {
        Some(Endian::Little)
    } else {
        None
    }
}

/// The document version, from the 16-bit field after the magic.
pub open spec fn spec_byml_version(d: Seq<u8>, e: Endian) -> u16 {
    spec_u16_at(d, 2, e)
}

/// The offset of the hash-key string table; zero when absent.
pub open spec fn spec_byml_hkt_off(d: Seq<u8>, e: Endian) -> u32 {
    spec_u32_at(d, 4, e)
}

/// The offset of the string-value table; zero when absent.
pub open spec fn spec_byml_st_off(d: Seq<u8>, e: Endian) -> u32 {
    spec_u32_at(d, 8, e)
}

/// The offset of the root node; zero when the document is empty.
pub open spec fn spec_byml_root_off(d: Seq<u8>, e: Endian) -> u32 {
    spec_u32_at(d, 12, e)
}

/// Whether a string table stands at `off`: the table tag 0xc2 inside the
/// buffer.
pub open spec fn spec_table_ok(d: Seq<u8>, off: int) -> bool {
    0 <= off && off + 4 <= d.len() && d[off] == 0xc2
}

/// The entry count of the string table at `off`.
pub open spec fn spec_table_len(d: Seq<u8>, off: int, e: Endian) -> u32 {
    spec_u24_at(d, off + 1, e)
}

/// The UTF-8 bytes of entry `i` of the string table at `off`: the i-th
/// offset is followed to a NUL-terminated string, which must be valid
/// UTF-8. `None` when the table, the slot, the string or its encoding is
/// broken.
pub open spec fn spec_table_get(d: Seq<u8>, off: int, e: Endian, i: int) -> Option<Seq<u8>> {
    if !spec_table_ok(d, off) {
        None
    } else if !(0 <= i < spec_table_len(d, off, e)) {
        None
    } else if off + 4 + 4 * i + 4 > d.len() {
        None
    } else {
        let p = off + spec_u32_at(d, off + 4 + 4 * i, e);
        if p > d.len() {
            None
        } else {
            match spec_find_nul(d, p) {
                None => None,
                Some(k) => {
                    if valid_utf8(d.subrange(p, k)) {
                        Some(d.subrange(p, k))
                    } else {
                        None
                    }
                }
            }
        }
    }
}

/// A string table is searchable when every entry resolves and the entries
/// are in strictly ascending lexicographic order.
pub open spec fn spec_table_sorted(d: Seq<u8>, off: int, e: Endian) -> bool {
    &&& spec_table_ok(d, off)
    &&& forall|i: int|
        0 <= i < spec_table_len(d, off, e) ==> spec_table_get(d, off, e, i) is Some
    &&& forall|i: int, j: int|
        0 <= i < j < spec_table_len(d, off, e) ==> crate::util::lex_lt(
            spec_table_get(d, off, e, i)->0,
            spec_table_get(d, off, e, j)->0,
        )
}

/// A lightweight reference to a BYML node: the one-byte tag and the
/// 32-bit record value, which holds either the inline scalar bits or the
/// absolute offset of the payload.
#[derive(Debug, Clone, Copy, PartialEq, Eq, Structural)]
pub enum BymlNode {
    HashMap { offset: usize },
    ValueHashMap { offset: usize },
    String { index: u32 },
    Binary { offset: usize },
    File { offset: usize },
    Array { offset: usize },
    StringMap { offset: usize },
    StringTable { offset: usize },
    Bool(bool),
    I32(i32),
    Float(u32),
    U32(u32),
    I64 { offset: usize },
    U64 { offset: usize },
    Double { offset: usize },
    Null,
}

/// The node reference that a record with this type and value denotes.
pub open spec fn spec_byml_node(value: u32, node_type: NodeType) -> BymlNode {
    match node_type {
        NodeType::String => BymlNode::String { index: value },
        NodeType::HashMap => BymlNode::HashMap { offset: value as usize },
        NodeType::ValueHashMap => BymlNode::ValueHashMap { offset: value as usize },
        NodeType::Binary => BymlNode::Binary { offset: value as usize },
        NodeType::File => BymlNode::File { offset: value as usize },
        NodeType::Array => BymlNode::Array { offset: value as usize },
        NodeType::StringMap => BymlNode::StringMap { offset: value as usize },
        NodeType::StringTable => BymlNode::StringTable { offset: value as usize },
        NodeType::I64 => BymlNode::I64 { offset: value as usize },
        NodeType::U64 => BymlNode::U64 { offset: value as usize },
        NodeType::Double => BymlNode::Double { offset: value as usize },
        NodeType::Bool => BymlNode::Bool(value == 1),
        NodeType::I32 => BymlNode::I32(value as i32),
        NodeType::Float => BymlNode::Float(value),
        NodeType::U32 => BymlNode::U32(value),
        NodeType::Null => BymlNode::Null,
    }
}

impl BymlNode {
    /// Builds the node reference for a record's type and 32-bit value.
    pub fn new(value: u32, node_type: NodeType) -> (r: BymlNode)
        ensures
            r == spec_byml_node(value, node_type),
    {
        match node_type {
            NodeType::String => BymlNode::String { index: value },
            NodeType::HashMap => BymlNode::HashMap { offset: value as usize },
            NodeType::ValueHashMap => BymlNode::ValueHashMap { offset: value as usize },
            NodeType::Binary => BymlNode::Binary { offset: value as usize },
            NodeType::File => BymlNode::File { offset: value as usize },
            NodeType::Array => BymlNode::Array { offset: value as usize },
            NodeType::StringMap => BymlNode::StringMap { offset: value as usize },
            NodeType::StringTable => BymlNode::StringTable { offset: value as usize },
            NodeType::I64 => BymlNode::I64 { offset: value as usize },
            NodeType::U64 => BymlNode::U64 { offset: value as usize },
            NodeType::Double => BymlNode::Double { offset: value as usize },
            NodeType::Bool => BymlNode::Bool(value == 1),
            NodeType::I32 => BymlNode::I32(value as i32),
            NodeType::Float => BymlNode::Float(value),
            NodeType::U32 => BymlNode::U32(value),
            NodeType::Null => BymlNode::Null,
        }
    }
}

/// An index into a BYML container: a string key, a u32 hash key, or an
/// array position.
#[derive(Clone, Copy)]
pub enum BymlIndex<'a> {
    /// Index into a string-keyed map node.
    StringIdx(&'a str),
    /// Index into a u32-keyed map node.
    HashIdx(u32),
    /// Index into an array node.
    ArrayIdx(usize),
}

/// A zero-copy BYML document reader over a borrowed buffer.
pub struct BymlIter<'a> {
    data: &'a [u8],
    endian: Endian,
    root_node_idx: Option<usize>,
}

impl<'a> BymlIter<'a> {
    /// The backing buffer.
    pub closed spec fn spec_data(self) -> Seq<u8> {
        self.data@
    }

    /// The detected byte order.
    pub closed spec fn spec_endian(self) -> Endian {
        self.endian
    }

    /// The root node's offset; `None` when the document is empty.
    pub closed spec fn spec_root(self) -> Option<usize> {
        self.root_node_idx
    }

    /// A reader is well formed when the buffer holds a BYML header whose
    /// magic matches the stored byte order and whose root offset matches
    /// the stored root.
    pub open spec fn wf(self) -> bool {
        &&& self.spec_data().len() >= 16
        &&& self.spec_data().len() <= usize::MAX
        &&& Some(self.spec_endian()) == spec_byml_endian(self.spec_data())
        &&& {
            let root_off = spec_byml_root_off(self.spec_data(), self.spec_endian());
            match self.spec_root() {
                Some(i) => root_off != 0 && i == root_off,
                None => root_off == 0,
            }
        }
    }

    /// The hash-key table offset of the document.
    pub open spec fn spec_hkt(self) -> int {
        spec_byml_hkt_off(self.spec_data(), self.spec_endian()) as int
    }

    /// The string-value table offset of the document.
    pub open spec fn spec_st(self) -> int {
        spec_byml_st_off(self.spec_data(), self.spec_endian()) as int
    }

    /// Opens a BYML document: detects the byte order from the magic and
    /// rejects a version outside 1 through 7.
    pub fn new(data: &'a [u8]) -> (r: Result<BymlIter<'a>, Error>)
        ensures
            r is Ok <==> (data@.len() >= 16 && spec_byml_endian(data@) is Some
                && crate::byml::spec_is_valid_version(
                spec_byml_version(data@, spec_byml_endian(data@)->0),
            )),
            r matches Ok(it) ==> it.wf() && it.spec_data() == data@ && Some(it.spec_endian())
                == spec_byml_endian(data@),
            data@.len() < 16 ==> (r matches Err(e) && e matches Error::InsufficientData(f, w)
                && f == data@.len() && w == 16),
            data@.len() >= 16 && spec_byml_endian(data@) is None ==> (r matches Err(e)
                && e is BadMagic),
            data@.len() >= 16 && spec_byml_endian(data@) is Some
                && !crate::byml::spec_is_valid_version(
                spec_byml_version(data@, spec_byml_endian(data@)->0),
            ) ==> (r matches Err(e) && e matches Error::InvalidVersion(v) && v
                == spec_byml_version(data@, spec_byml_endian(data@)->0)),
    {
        let n: usize = data.len();
        if n < 16 {
            return Err(Error::InsufficientData(n, 16));
        }
        let b0 = *slice_index_get(data, 0);
        let b1 = *slice_index_get(data, 1);
        let endian: Endian = if b0 == 0x42 && b1 == 0x59 {
            Endian::Big
        } else if b0 == 0x59 && b1 == 0x42 {
            Endian::Little
        } else {
            return Err(Error::BadMagic("BY"));
        };
        let version = read_u16(data, 2, endian);
        if !crate::byml::is_valid_version(version) {
            return Err(Error::InvalidVersion(version));
        }
        let root_off = read_u32(data, 12, endian);
        Ok(
            BymlIter {
                data,
                endian,
                root_node_idx: if root_off != 0 {
                    Some(root_off as usize)
                } else {
                    None
                },
            },
        )
    }

    /// The node type of the root container, when the root offset points
    /// at a readable container header with a known tag.
    pub open spec fn spec_root_type(self) -> Option<NodeType> {
        match self.spec_root() {
            None => None,
            Some(off) => {
                if off + 4 <= self.spec_data().len() {
                    spec_node_type_from_tag(self.spec_data()[off as int])
                } else {
                    None
                }
            }
        }
    }

    /// Reads the container header tag at the root, if any.
    fn root_type(&self) -> (r: Option<NodeType>)
        requires
            self.wf(),
        ensures
            r == self.spec_root_type(),
    {
        match self.root_node_idx {
            None => None,
            Some(off) => {
                let n: usize = self.data.len();
                if off <= n - 4 && off + 4 <= n {
                    NodeType::from_tag(*slice_index_get(self.data, off))
                } else {
                    None
                }
            }
        }
    }

    /// Whether the root is a string-keyed map node.
    pub fn is_map(&self) -> (r: bool)
        requires
            self.wf(),
        ensures
            r == (self.spec_root_type() == Some(NodeType::StringMap)),
    {
        match self.root_type() {
            Some(NodeType::StringMap) => true,
            _ => false,
        }
    }

    /// Whether the root is an array node.
    pub fn is_array(&self) -> (r: bool)
        requires
            self.wf(),
        ensures
            r == (self.spec_root_type() == Some(NodeType::Array)),
    {
        match self.root_type() {
            Some(NodeType::Array) => true,
            _ => false,
        }
    }

    /// Whether the root is a u32-keyed map node.
    pub fn is_hash_map(&self) -> (r: bool)
        requires
            self.wf(),
        ensures
            r == (self.spec_root_type() == Some(NodeType::HashMap)),
    {
        match self.root_type() {
            Some(NodeType::HashMap) => true,
            _ => false,
        }
    }

    /// Whether the root is a u32-keyed map node with auxiliary values.
    pub fn is_value_hash_map(&self) -> (r: bool)
        requires
            self.wf(),
        ensures
            r == (self.spec_root_type() == Some(NodeType::ValueHashMap)),
    {
        match self.root_type() {
            Some(NodeType::ValueHashMap) => true,
            _ => false,
        }
    }

    /// Whether the root is one of the four container kinds.
    pub fn is_container(&self) -> (r: bool)
        requires
            self.wf(),
        ensures
            r == (self.spec_root_type() matches Some(t)
                && crate::byml::spec_is_container_type(t)),
    {
        match self.root_type() {
            Some(t) => crate::byml::is_container_type(t),
            None => false,
        }
    }
}

/// In a sorted table, every entry up to one that is below `keyb` is
/// below `keyb`.
proof fn lemma_table_bound_below(d: Seq<u8>, off: int, e: Endian, mid: int, keyb: Seq<u8>)
    requires
        spec_table_sorted(d, off, e),
        0 <= mid < spec_table_len(d, off, e),
        spec_table_get(d, off, e, mid) is Some,
        crate::util::lex_lt(spec_table_get(d, off, e, mid)->0, keyb),
    ensures
        forall|k: int|
            0 <= k < mid + 1 ==> #[trigger] spec_table_get(d, off, e, k) is Some
                && crate::util::lex_lt(spec_table_get(d, off, e, k)->0, keyb),
{
    assert forall|k: int|
        0 <= k < mid + 1 implies #[trigger] spec_table_get(d, off, e, k) is Some
        && crate::util::lex_lt(spec_table_get(d, off, e, k)->0, keyb) by {
        if k < mid {
            crate::util::lemma_lex_lt_trans(
                spec_table_get(d, off, e, k)->0,
                spec_table_get(d, off, e, mid)->0,
                keyb,
            );
        }
    }
}

/// In a sorted table, every entry from one that is above `keyb` on is
/// above `keyb`.
proof fn lemma_table_bound_above(d: Seq<u8>, off: int, e: Endian, mid: int, keyb: Seq<u8>)
    requires
        spec_table_sorted(d, off, e),
        0 <= mid < spec_table_len(d, off, e),
        spec_table_get(d, off, e, mid) is Some,
        crate::util::lex_lt(keyb, spec_table_get(d, off, e, mid)->0),
    ensures
        forall|k: int|
            mid <= k < spec_table_len(d, off, e) ==> #[trigger] spec_table_get(d, off, e, k)
                is Some && crate::util::lex_lt(keyb, spec_table_get(d, off, e, k)->0),
{
    assert forall|k: int|
        mid <= k < spec_table_len(d, off, e) implies #[trigger] spec_table_get(d, off, e, k)
        is Some && crate::util::lex_lt(keyb, spec_table_get(d, off, e, k)->0) by {
        if k > mid {
            crate::util::lemma_lex_lt_trans(
                keyb,
                spec_table_get(d, off, e, mid)->0,
                spec_table_get(d, off, e, k)->0,
            );
        }
    }
}

impl<'a> BymlIter<'a> {
    /// Reads entry `index` of the string table at `off`: follows the
    /// indexed offset to a NUL-terminated UTF-8 string.
    pub fn table_get(&self, off: usize, index: u32) -> (r: Option<&'a str>)
        requires
            self.wf(),
        ensures
            match r {
                Some(s) => spec_table_get(self.spec_data(), off as int, self.spec_endian(), index as int)
                    == Some(s.spec_bytes()),
                None => spec_table_get(self.spec_data(), off as int, self.spec_endian(), index as int)
                    is None,
            },
    {
        let n: usize = self.data.len();
        if off > n || n - off < 4 {
            return None;
        }
        if *slice_index_get(self.data, off) != 0xc2 {
            return None;
        }
        let count = read_u24(self.data, off + 1, self.endian);
        if index >= count {
            return None;
        }
        let slot128: u128 = off as u128 + 4 + 4 * (index as u128);
        if slot128 + 4 > n as u128 {
            return None;
        }
        let slot = slot128 as usize;
        let rel = read_u32(self.data, slot, self.endian);
        let p128: u128 = off as u128 + rel as u128;
        if p128 > n as u128 {
            return None;
        }
        let p = p128 as usize;
        match find_nul_from(self.data, p) {
            None => None,
            Some(k) => {
                proof {
                    lemma_find_nul(self.spec_data(), p as int);
                }
                let bytes = slice_subrange(self.data, p, k);
                match bytes_as_str(bytes) {
                    None => None,
                    Some(s) => Some(s),
                }
            }
        }
    }

    /// Binary-searches the string table at `off` for `key`; its index
    /// when present. The table must be sorted for a `None` to mean
    /// absence: under that document invariant the binary search agrees
    /// with a linear scan of the table.
    pub fn table_pos(&self, off: usize, key: &str) -> (r: Option<u32>)
        requires
            self.wf(),
        ensures
            r matches Some(i) ==> 0 <= i < spec_table_len(
                self.spec_data(),
                off as int,
                self.spec_endian(),
            ) && spec_table_get(self.spec_data(), off as int, self.spec_endian(), i as int)
                == Some(key.spec_bytes()),
            spec_table_sorted(self.spec_data(), off as int, self.spec_endian()) && r is None
                ==> forall|i: int|
                0 <= i < spec_table_len(self.spec_data(), off as int, self.spec_endian())
                    ==> spec_table_get(self.spec_data(), off as int, self.spec_endian(), i)
                    != Some(key.spec_bytes()),
    {
        let ghost d = self.spec_data();
        let ghost e = self.spec_endian();
        let n: usize = self.data.len();
        if off > n || n - off < 4 {
            return None;
        }
        if *slice_index_get(self.data, off) != 0xc2 {
            return None;
        }
        let count = read_u24(self.data, off + 1, self.endian);
        let mut lo: u32 = 0;
        let mut hi: u32 = count;
        while lo < hi
            invariant
                self.wf(),
                d == self.spec_data(),
                e == self.spec_endian(),
                lo <= hi <= count,
                count == spec_table_len(d, off as int, e),
                spec_table_ok(d, off as int),
                spec_table_sorted(d, off as int, e) ==> forall|k: int|
                    0 <= k < lo ==> #[trigger] spec_table_get(d, off as int, e, k) is Some
                        && crate::util::lex_lt(
                        spec_table_get(d, off as int, e, k)->0,
                        key.spec_bytes(),
                    ),
                spec_table_sorted(d, off as int, e) ==> forall|k: int|
                    hi <= k < count ==> #[trigger] spec_table_get(d, off as int, e, k) is Some
                        && crate::util::lex_lt(
                        key.spec_bytes(),
                        spec_table_get(d, off as int, e, k)->0,
                    ),
            decreases hi - lo,
        {
            let mid = lo + (hi - lo) / 2;
            let s = match self.table_get(off, mid) {
                Some(s) => s,
                None => {
                    return None;
                }
            };
            let c = cmp_bytes(s.as_bytes(), key.as_bytes());
            if c == 0 {
                return Some(mid);
            } else if c < 0 {
                proof {
                    if spec_table_sorted(d, off as int, e) {
                        lemma_table_bound_below(d, off as int, e, mid as int, key.spec_bytes());
                    }
                }
                lo = mid + 1;
            } else {
                proof {
                    if spec_table_sorted(d, off as int, e) {
                        lemma_table_bound_above(d, off as int, e, mid as int, key.spec_bytes());
                    }
                }
                hi = mid;
            }
        }
        proof {
            if spec_table_sorted(d, off as int, e) {
                assert forall|i: int|
                    0 <= i < spec_table_len(d, off as int, e) implies spec_table_get(
                    d,
                    off as int,
                    e,
                    i,
                ) != Some(key.spec_bytes()) by {
                    let si = spec_table_get(d, off as int, e, i)->0;
                    crate::util::lemma_lex_trichotomy(si, key.spec_bytes());
                }
            }
        }
        None
    }
}

/// The entry count of the container whose 4-byte header stands at `off`.
pub open spec fn spec_cont_count(d: Seq<u8>, off: int, e: Endian) -> u32 {
    spec_u24_at(d, off + 1, e)
}

/// Whether a container header is readable at `off`: inside the buffer,
/// with a known tag byte.
pub open spec fn spec_cont_ok(d: Seq<u8>, off: int) -> bool {
    0 <= off && off + 4 <= d.len() && spec_node_type_from_tag(d[off]) is Some
}

/// Where an array's value words start, relative to the container: the tag
/// bytes padded up to 4-byte alignment.
pub open spec fn spec_array_vs(count: int) -> int {
    spec_align_up(4 + count, 4)
}

/// The key index of entry `i` of the map at `off` (8-byte entries).
pub open spec fn spec_map_key(d: Seq<u8>, off: int, e: Endian, i: int) -> u32 {
    spec_u24_at(d, off + 4 + 8 * i, e)
}

/// The tag byte of entry `i` of the map at `off`.
pub open spec fn spec_map_tag(d: Seq<u8>, off: int, i: int) -> u8 {
    d[off + 4 + 8 * i + 3]
}

/// The 32-bit value of entry `i` of the map at `off`.
pub open spec fn spec_map_val(d: Seq<u8>, off: int, e: Endian, i: int) -> u32 {
    spec_u32_at(d, off + 4 + 8 * i + 4, e)
}

/// A map is searchable when its entries lie inside the buffer and their
/// key indices ascend.
pub open spec fn spec_map_sorted(d: Seq<u8>, off: int, e: Endian) -> bool {
    &&& off + 4 + 8 * spec_cont_count(d, off, e) <= d.len()
    &&& forall|i: int, j: int|
        0 <= i < j < spec_cont_count(d, off, e) ==> spec_map_key(d, off, e, i) < spec_map_key(
            d,
            off,
            e,
            j,
        )
}

/// The hash of entry `i` of the hash map at `off` with `size`-byte
/// entries (8 without, 12 with auxiliary values).
pub open spec fn spec_hm_hash(d: Seq<u8>, off: int, e: Endian, i: int, size: int) -> u32 {
    spec_u32_at(d, off + 4 + size * i, e)
}

/// The 32-bit value of entry `i` of the hash map at `off`.
pub open spec fn spec_hm_val(d: Seq<u8>, off: int, e: Endian, i: int, size: int) -> u32 {
    spec_u32_at(d, off + 4 + size * i + 4, e)
}

/// The auxiliary 32-bit value of entry `i` of a 12-byte-entry hash map.
pub open spec fn spec_hm_aux(d: Seq<u8>, off: int, e: Endian, i: int) -> u32 {
    spec_u32_at(d, off + 4 + 12 * i + 8, e)
}

/// The tag byte of entry `i` of the hash map at `off`: the tag table
/// follows the entries.
pub open spec fn spec_hm_tag(d: Seq<u8>, off: int, e: Endian, i: int, size: int) -> u8 {
    d[off + 4 + size * spec_cont_count(d, off, e) + i]
}

/// Entry `i` of the map at `off` carries key index `key_index` and
/// denotes `node`.
pub open spec fn spec_map_entry_found(
    d: Seq<u8>,
    e: Endian,
    off: int,
    key_index: u32,
    node: BymlNode,
    i: int,
) -> bool {
    &&& 0 <= i < spec_cont_count(d, off, e)
    &&& off + 4 + 8 * i + 8 <= d.len()
    &&& spec_map_key(d, off, e, i) == key_index
    &&& spec_node_type_from_tag(spec_map_tag(d, off, i)) matches Some(t) && node
        == spec_byml_node(spec_map_val(d, off, e, i), t)
}

/// Element `i` of the array at `off` denotes `node`: its tag byte and
/// value word are readable and the tag is known.
pub open spec fn spec_array_elem(d: Seq<u8>, e: Endian, off: int, i: int, node: BymlNode) -> bool {
    &&& off + 4 <= d.len()
    &&& 0 <= i < spec_cont_count(d, off, e)
    &&& off + 4 + i + 1 <= d.len()
    &&& off + spec_array_vs(spec_cont_count(d, off, e) as int) + 4 * i + 4 <= d.len()
    &&& spec_node_type_from_tag(d[off + 4 + i]) matches Some(t) && node == spec_byml_node(
        spec_u32_at(d, off + spec_array_vs(spec_cont_count(d, off, e) as int) + 4 * i, e),
        t,
    )
}

/// The entry stride of a hash map: 12 bytes with auxiliary values, 8
/// without.
pub open spec fn spec_hm_size(wide: bool) -> int {
    if wide {
        12
    } else {
        8
    }
}

/// Entry `i` of the hash map at `off` carries hash `key` and denotes
/// `node`.
pub open spec fn spec_hm_entry_found(
    d: Seq<u8>,
    e: Endian,
    off: int,
    size: int,
    key: u32,
    node: BymlNode,
    i: int,
) -> bool {
    &&& 0 <= i < spec_cont_count(d, off, e)
    &&& off + 4 + size * i + 8 <= d.len()
    &&& off + 4 + size * spec_cont_count(d, off, e) + i + 1 <= d.len()
    &&& spec_hm_hash(d, off, e, i, size) == key
    &&& spec_node_type_from_tag(spec_hm_tag(d, off, e, i, size)) matches Some(t) && node
        == spec_byml_node(spec_hm_val(d, off, e, i, size), t)
}

/// A hash map is searchable when its entries and tag table lie inside
/// the buffer and its hashes ascend.
pub open spec fn spec_hm_sorted(d: Seq<u8>, off: int, e: Endian, size: int) -> bool {
    &&& off + 4 + (size + 1) * spec_cont_count(d, off, e) <= d.len()
    &&& forall|i: int, j: int|
        0 <= i < j < spec_cont_count(d, off, e) ==> spec_hm_hash(d, off, e, i, size)
            < spec_hm_hash(d, off, e, j, size)
}

/// No entry of the map at `off` both carries key index `ki` and has a
/// known tag byte.
pub open spec fn spec_map_absent(d: Seq<u8>, e: Endian, off: int, ki: u32) -> bool {
    forall|i: int|
        0 <= i < spec_cont_count(d, off, e) ==> (spec_map_key(d, off, e, i) != ki
            || spec_node_type_from_tag(#[trigger] spec_map_tag(d, off, i)) is None)
}

/// No entry of the hash map at `off` both carries hash `h` and has a
/// known tag byte.
pub open spec fn spec_hm_absent(d: Seq<u8>, e: Endian, off: int, h: u32, size: int) -> bool {
    forall|i: int|
        0 <= i < spec_cont_count(d, off, e) ==> (#[trigger] spec_hm_hash(d, off, e, i, size) != h
            || spec_node_type_from_tag(spec_hm_tag(d, off, e, i, size)) is None)
}

/// The key bytes resolve to no reachable entry of the map at `off`: every
/// index of the hash-key table holding those bytes is absent from the
/// map.
pub open spec fn spec_key_absent(d: Seq<u8>, e: Endian, hkt: int, off: int, keyb: Seq<u8>) -> bool {
    forall|ki: int|
        0 <= ki < spec_table_len(d, hkt, e) && #[trigger] spec_table_get(d, hkt, e, ki) == Some(
            keyb,
        ) ==> spec_map_absent(d, e, off, ki as u32)
}

/// Element `j` of the array at `off` parses: its value word lies inside
/// the buffer and its tag byte is a known node type.
pub open spec fn spec_array_elem_ok(d: Seq<u8>, e: Endian, off: int, j: int) -> bool {
    &&& off + spec_array_vs(spec_cont_count(d, off, e) as int) + 4 * j + 4 <= d.len()
    &&& spec_node_type_from_tag(d[off + 4 + j]) is Some
}

/// Entry `j` of the map at `off` parses: the record lies inside the
/// buffer, its tag byte is known, and its key index resolves through the
/// hash-key table.
pub open spec fn spec_map_elem_ok(d: Seq<u8>, e: Endian, hkt: int, off: int, j: int) -> bool {
    &&& off + 4 + 8 * j + 8 <= d.len()
    &&& spec_node_type_from_tag(spec_map_tag(d, off, j)) is Some
    &&& spec_table_get(d, hkt, e, spec_map_key(d, off, e, j) as int) is Some
}

/// Entry `j` of the hash map at `off` parses: the record and its tag
/// byte lie inside the buffer and the tag is known.
pub open spec fn spec_hm_elem_ok(d: Seq<u8>, e: Endian, off: int, j: int, size: int) -> bool {
    &&& off + 4 + size * j + 8 <= d.len()
    &&& off + 4 + size * spec_cont_count(d, off, e) + j + 1 <= d.len()
    &&& spec_node_type_from_tag(spec_hm_tag(d, off, e, j, size)) is Some
}

/// In a sorted string table no two entries hold the same bytes.
proof fn lemma_table_unique(d: Seq<u8>, hkt: int, e: Endian, i: int, j: int)
    requires
        spec_table_sorted(d, hkt, e),
        0 <= i < spec_table_len(d, hkt, e),
        0 <= j < spec_table_len(d, hkt, e),
        spec_table_get(d, hkt, e, i) == spec_table_get(d, hkt, e, j),
        spec_table_get(d, hkt, e, i) is Some,
    ensures
        i == j,
{
    if i < j {
        crate::util::lemma_lex_trichotomy(
            spec_table_get(d, hkt, e, i)->0,
            spec_table_get(d, hkt, e, j)->0,
        );
    } else if j < i {
        crate::util::lemma_lex_trichotomy(
            spec_table_get(d, hkt, e, j)->0,
            spec_table_get(d, hkt, e, i)->0,
        );
    }
}

impl<'a> BymlIter<'a> {
    /// Binary-searches the map at `off` for a key index; the referenced
    /// node when an entry with that key exists and its tag is known. The
    /// map must be sorted for a `None` to mean absence: under that
    /// document invariant the binary search agrees with a linear scan of
    /// the entries.
    pub fn map_find(&self, off: usize, key_index: u32) -> (r: Option<BymlNode>)
        requires
            self.wf(),
        ensures
            ({
                let d = self.spec_data();
                let e = self.spec_endian();
                &&& r matches Some(node) ==> exists|i: int|
                    #[trigger] spec_map_entry_found(d, e, off as int, key_index, node, i)
                &&& spec_map_sorted(d, off as int, e) && r is None ==> forall|i: int|
                    0 <= i < spec_cont_count(d, off as int, e) ==> (spec_map_key(
                        d,
                        off as int,
                        e,
                        i,
                    ) != key_index || spec_node_type_from_tag(
                        #[trigger] spec_map_tag(d, off as int, i),
                    ) is None)
            }),
    {
        let ghost d = self.spec_data();
        let ghost e = self.spec_endian();
        let n: usize = self.data.len();
        if off > n || n - off < 4 {
            return None;
        }
        let count = read_u24(self.data, off + 1, self.endian);
        let mut lo: u32 = 0;
        let mut hi: u32 = count;
        while lo < hi
            invariant
                self.wf(),
                d == self.spec_data(),
                e == self.spec_endian(),
                n == d.len(),
                off + 4 <= n,
                lo <= hi <= count,
                count == spec_cont_count(d, off as int, e),
                spec_map_sorted(d, off as int, e) ==> forall|k: int|
                    0 <= k < lo ==> spec_map_key(d, off as int, e, k) < key_index,
                spec_map_sorted(d, off as int, e) ==> forall|k: int|
                    hi <= k < count ==> spec_map_key(d, off as int, e, k) > key_index,
            decreases hi - lo,
        {
            let mid = lo + (hi - lo) / 2;
            let entry128: u128 = off as u128 + 4 + 8 * (mid as u128);
            if entry128 + 8 > n as u128 {
                return None;
            }
            let entry = entry128 as usize;
            let k = read_u24(self.data, entry, self.endian);
            if k == key_index {
                let tag = *slice_index_get(self.data, entry + 3);
                let value = read_u32(self.data, entry + 4, self.endian);
                match NodeType::from_tag(tag) {
                    None => {
                        proof {
                            if spec_map_sorted(d, off as int, e) {
                                assert forall|i: int|
                                    0 <= i < count implies (spec_map_key(d, off as int, e, i)
                                    != key_index || spec_node_type_from_tag(
                                    #[trigger] spec_map_tag(d, off as int, i),
                                ) is None) by {
                                    if i < mid {
                                        assert(spec_map_key(d, off as int, e, i) < spec_map_key(
                                            d,
                                            off as int,
                                            e,
                                            mid as int,
                                        ));
                                    } else if i > mid {
                                        assert(spec_map_key(d, off as int, e, mid as int)
                                            < spec_map_key(d, off as int, e, i));
                                    }
                                }
                            }
                        }
                        return None;
                    }
                    Some(t) => {
                        let node = BymlNode::new(value, t);
                        proof {
                            assert(spec_map_key(d, off as int, e, mid as int) == key_index);
                            assert(spec_map_tag(d, off as int, mid as int) == tag);
                            assert(spec_map_val(d, off as int, e, mid as int) == value);
                            assert(spec_map_entry_found(
                                self.spec_data(),
                                self.spec_endian(),
                                off as int,
                                key_index,
                                node,
                                mid as int,
                            ));
                        }
                        return Some(node);
                    }
                }
            } else if k < key_index {
                proof {
                    if spec_map_sorted(d, off as int, e) {
                        assert forall|j: int| 0 <= j < mid + 1 implies spec_map_key(
                            d,
                            off as int,
                            e,
                            j,
                        ) < key_index by {
                            assert(spec_map_key(d, off as int, e, j) <= spec_map_key(
                                d,
                                off as int,
                                e,
                                mid as int,
                            ));
                        }
                    }
                }
                lo = mid + 1;
            } else {
                proof {
                    if spec_map_sorted(d, off as int, e) {
                        assert forall|j: int| mid <= j < count implies spec_map_key(
                            d,
                            off as int,
                            e,
                            j,
                        ) > key_index by {
                            assert(spec_map_key(d, off as int, e, mid as int) <= spec_map_key(
                                d,
                                off as int,
                                e,
                                j,
                            ));
                        }
                    }
                }
                hi = mid;
            }
        }
        None
    }

    /// Binary-searches the hash map at `off` for a u32 key; the
    /// referenced node when an entry with that hash exists and its tag is
    /// known. The map must be sorted for a `None` to mean absence: under
    /// that document invariant the binary search agrees with a linear
    /// scan of the entries.
    pub fn hash_find(&self, off: usize, key: u32, wide: bool) -> (r: Option<BymlNode>)
        requires
            self.wf(),
        ensures
            ({
                let d = self.spec_data();
                let e = self.spec_endian();
                &&& r matches Some(node) ==> exists|i: int|
                    #[trigger] spec_hm_entry_found(
                        d,
                        e,
                        off as int,
                        spec_hm_size(wide),
                        key,
                        node,
                        i,
                    )
                &&& spec_hm_sorted(d, off as int, e, spec_hm_size(wide)) && r is None
                    ==> forall|i: int|
                    0 <= i < spec_cont_count(d, off as int, e) ==> (#[trigger] spec_hm_hash(
                        d,
                        off as int,
                        e,
                        i,
                        spec_hm_size(wide),
                    ) != key || spec_node_type_from_tag(
                        spec_hm_tag(d, off as int, e, i, spec_hm_size(wide)),
                    ) is None)
            }),
    {
        let ghost d = self.spec_data();
        let ghost e = self.spec_endian();
        let ghost size: int = spec_hm_size(wide);
        let n: usize = self.data.len();
        if off > n || n - off < 4 {
            return None;
        }
        let count = read_u24(self.data, off + 1, self.endian);
        let entry_size: u32 = if wide {
            12
        } else {
            8
        };
        let mut lo: u32 = 0;
        let mut hi: u32 = count;
        while lo < hi
            invariant
                self.wf(),
                d == self.spec_data(),
                e == self.spec_endian(),
                n == d.len(),
                off + 4 <= n,
                lo <= hi <= count,
                count == spec_cont_count(d, off as int, e),
                size == spec_hm_size(wide),
                entry_size == size,
                spec_hm_sorted(d, off as int, e, size) ==> forall|k: int|
                    0 <= k < lo ==> spec_hm_hash(d, off as int, e, k, size) < key,
                spec_hm_sorted(d, off as int, e, size) ==> forall|k: int|
                    hi <= k < count ==> spec_hm_hash(d, off as int, e, k, size) > key,
            decreases hi - lo,
        {
            let mid = lo + (hi - lo) / 2;
            let entry128: u128 = if wide {
                off as u128 + 4 + 12 * (mid as u128)
            } else {
                off as u128 + 4 + 8 * (mid as u128)
            };
            if entry128 + 8 > n as u128 {
                proof {
                    if spec_hm_sorted(d, off as int, e, size) {
                        assert(size * (mid as int) + size <= size * (count as int))
                            by (nonlinear_arith)
                            requires
                                mid < count,
                                8 <= size,
                        {
                        }
                        assert((size + 1) * (count as int) == size * (count as int) + (
                        count as int)) by (nonlinear_arith);
                        assert(false);
                    }
                }
                return None;
            }
            let entry = entry128 as usize;
            let h = read_u32(self.data, entry, self.endian);
            if h == key {
                let value = read_u32(self.data, entry + 4, self.endian);
                let tag_pos128: u128 = if wide {
                    off as u128 + 4 + 12 * (count as u128) + mid as u128
                } else {
                    off as u128 + 4 + 8 * (count as u128) + mid as u128
                };
                if tag_pos128 + 1 > n as u128 {
                    proof {
                        if spec_hm_sorted(d, off as int, e, size) {
                            assert((size + 1) * count as int == size * count as int + count as int)
                                by (nonlinear_arith);
                            assert(false);
                        }
                    }
                    return None;
                }
                let tag = *slice_index_get(self.data, tag_pos128 as usize);
                match NodeType::from_tag(tag) {
                    None => {
                        proof {
                            if spec_hm_sorted(d, off as int, e, size) {
                                assert forall|i: int|
                                    0 <= i < count implies (#[trigger] spec_hm_hash(
                                    d,
                                    off as int,
                                    e,
                                    i,
                                    size,
                                ) != key || spec_node_type_from_tag(
                                    spec_hm_tag(d, off as int, e, i, size),
                                ) is None) by {
                                    if i < mid {
                                        assert(spec_hm_hash(d, off as int, e, i, size)
                                            < spec_hm_hash(d, off as int, e, mid as int, size));
                                    } else if i > mid {
                                        assert(spec_hm_hash(d, off as int, e, mid as int, size)
                                            < spec_hm_hash(d, off as int, e, i, size));
                                    }
                                }
                            }
                        }
                        return None;
                    }
                    Some(t) => {
                        let node = BymlNode::new(value, t);
                        proof {
                            assert(off + 4 + size * (mid as int) + 8 <= d.len());
                            assert(off + 4 + size * (count as int) + mid + 1 <= d.len());
                            assert(spec_hm_hash(d, off as int, e, mid as int, size) == key);
                            assert(spec_hm_tag(d, off as int, e, mid as int, size) == tag);
                            assert(spec_hm_val(d, off as int, e, mid as int, size) == value);
                            assert(spec_hm_entry_found(
                                d,
                                e,
                                off as int,
                                size,
                                key,
                                node,
                                mid as int,
                            ));
                            assert(spec_hm_entry_found(
                                self.spec_data(),
                                self.spec_endian(),
                                off as int,
                                spec_hm_size(wide),
                                key,
                                node,
                                mid as int,
                            ));
                        }
                        return Some(node);
                    }
                }
            } else if h < key {
                proof {
                    if spec_hm_sorted(d, off as int, e, size) {
                        assert forall|j: int| 0 <= j < mid + 1 implies spec_hm_hash(
                            d,
                            off as int,
                            e,
                            j,
                            size,
                        ) < key by {
                            assert(spec_hm_hash(d, off as int, e, j, size) <= spec_hm_hash(
                                d,
                                off as int,
                                e,
                                mid as int,
                                size,
                            ));
                        }
                    }
                }
                lo = mid + 1;
            } else {
                proof {
                    if spec_hm_sorted(d, off as int, e, size) {
                        assert forall|j: int| mid <= j < count implies spec_hm_hash(
                            d,
                            off as int,
                            e,
                            j,
                            size,
                        ) > key by {
                            assert(spec_hm_hash(d, off as int, e, mid as int, size)
                                <= spec_hm_hash(d, off as int, e, j, size));
                        }
                    }
                }
                hi = mid;
            }
        }
        None
    }

    /// Reads element `index` of the array at `off`: its tag byte and
    /// value word, as a node reference.
    fn array_get(&self, off: usize, index: usize) -> (r: Option<BymlNode>)
        requires
            self.wf(),
        ensures
            ({
                let d = self.spec_data();
                let e = self.spec_endian();
                match r {
                    Some(node) => spec_array_elem(d, e, off as int, index as int, node),
                    None => off + 4 > d.len() || index >= spec_cont_count(d, off as int, e) || off
                        + spec_array_vs(spec_cont_count(d, off as int, e) as int) + 4 * index + 4
                        > d.len() || spec_node_type_from_tag(d[off + 4 + index]) is None,
                }
            }),
    {
        let ghost d = self.spec_data();
        let ghost e = self.spec_endian();
        let n: usize = self.data.len();
        if off > n || n - off < 4 {
            return None;
        }
        let count = read_u24(self.data, off + 1, self.endian);
        if index as u64 >= count as u64 {
            return None;
        }
        proof {
            crate::util::lemma_align_up(4 + count as int, 4);
        }
        let vs: u32 = crate::util::align_up(4 + count as usize, 4) as u32;
        let vpos128: u128 = off as u128 + vs as u128 + 4 * (index as u128);
        if vpos128 + 4 > n as u128 {
            return None;
        }
        let tag = *slice_index_get(self.data, off + 4 + index);
        let value = read_u32(self.data, vpos128 as usize, self.endian);
        match NodeType::from_tag(tag) {
            None => None,
            Some(t) => Some(BymlNode::new(value, t)),
        }
    }
}

impl<'a> BymlIter<'a> {
    /// Looks a key up in the document's hash-key table by binary search.
    fn get_key_index(&self, key: &str) -> (r: Option<u32>)
        requires
            self.wf(),
        ensures
            r matches Some(i) ==> spec_table_get(self.spec_data(), self.spec_hkt(), self.spec_endian(), i as int)
                == Some(key.spec_bytes()),
            spec_table_sorted(self.spec_data(), self.spec_hkt(), self.spec_endian()) && r is None
                ==> forall|i: int|
                0 <= i < spec_table_len(self.spec_data(), self.spec_hkt(), self.spec_endian())
                    ==> spec_table_get(self.spec_data(), self.spec_hkt(), self.spec_endian(), i)
                    != Some(key.spec_bytes()),
    {
        let hkt = read_u32(self.data, 4, self.endian);
        self.table_pos(hkt as usize, key)
    }

    /// Looks a key up inside a container node: an array by position, a
    /// string-keyed map through the hash-key table, a u32-keyed map by
    /// hash. `None` when the node is not the matching container kind or
    /// the key is absent; under the document's sorted-table invariants a
    /// `None` means exactly that no reachable entry carries the key.
    pub fn get_from(&self, node: BymlNode, key: BymlIndex) -> (r: Option<BymlNode>)
        requires
            self.wf(),
        ensures
            ({
                let d = self.spec_data();
                let e = self.spec_endian();
                match key {
                    BymlIndex::ArrayIdx(i) => match node {
                        BymlNode::Array { offset } => {
                            &&& (r matches Some(found) ==> spec_array_elem(
                                d,
                                e,
                                offset as int,
                                i as int,
                                found,
                            ))
                            &&& (r is None ==> (offset + 4 > d.len() || i >= spec_cont_count(
                                d,
                                offset as int,
                                e,
                            ) || offset + spec_array_vs(spec_cont_count(d, offset as int, e) as int)
                                + 4 * i + 4 > d.len() || spec_node_type_from_tag(
                                d[offset + 4 + i],
                            ) is None))
                        },
                        _ => r is None,
                    },
                    BymlIndex::StringIdx(s) => match node {
                        BymlNode::StringMap { offset } => {
                            &&& (r matches Some(found) ==> exists|ki: u32, i: int|
                                {
                                    &&& spec_table_get(d, self.spec_hkt(), e, ki as int) == Some(
                                        s.spec_bytes(),
                                    )
                                    &&& #[trigger] spec_map_entry_found(
                                        d,
                                        e,
                                        offset as int,
                                        ki,
                                        found,
                                        i,
                                    )
                                })
                            &&& (spec_table_sorted(d, self.spec_hkt(), e) && spec_map_sorted(
                                d,
                                offset as int,
                                e,
                            ) && r is None ==> spec_key_absent(
                                d,
                                e,
                                self.spec_hkt(),
                                offset as int,
                                s.spec_bytes(),
                            ))
                        },
                        _ => r is None,
                    },
                    BymlIndex::HashIdx(h) => match node {
                        BymlNode::HashMap { offset } => {
                            &&& (r matches Some(found) ==> exists|i: int|
                                #[trigger] spec_hm_entry_found(
                                    d,
                                    e,
                                    offset as int,
                                    spec_hm_size(false),
                                    h,
                                    found,
                                    i,
                                ))
                            &&& (spec_hm_sorted(d, offset as int, e, spec_hm_size(false)) && r
                                is None ==> spec_hm_absent(
                                d,
                                e,
                                offset as int,
                                h,
                                spec_hm_size(false),
                            ))
                        },
                        BymlNode::ValueHashMap { offset } => {
                            &&& (r matches Some(found) ==> exists|i: int|
                                #[trigger] spec_hm_entry_found(
                                    d,
                                    e,
                                    offset as int,
                                    spec_hm_size(true),
                                    h,
                                    found,
                                    i,
                                ))
                            &&& (spec_hm_sorted(d, offset as int, e, spec_hm_size(true)) && r
                                is None ==> spec_hm_absent(
                                d,
                                e,
                                offset as int,
                                h,
                                spec_hm_size(true),
                            ))
                        },
                        _ => r is None,
                    },
                }
            }),
    {
        let ghost d = self.spec_data();
        let ghost e = self.spec_endian();
        match key {
            BymlIndex::ArrayIdx(i) => {
                match node {
                    BymlNode::Array { offset } => self.array_get(offset, i),
                    _ => None,
                }
            }
            BymlIndex::StringIdx(s) => {
                match node {
                    BymlNode::StringMap { offset } => {
                        match self.get_key_index(s) {
                            None => {
                                proof {
                                    if spec_table_sorted(d, self.spec_hkt(), e) {
                                        assert forall|ki: int|
                                            0 <= ki < spec_table_len(d, self.spec_hkt(), e)
                                                && #[trigger] spec_table_get(
                                                d,
                                                self.spec_hkt(),
                                                e,
                                                ki,
                                            ) == Some(s.spec_bytes()) implies spec_map_absent(
                                            d,
                                            e,
                                            offset as int,
                                            ki as u32,
                                        ) by {
                                            assert(spec_table_get(d, self.spec_hkt(), e, ki)
                                                != Some(s.spec_bytes()));
                                        }
                                    }
                                }
                                None
                            }
                            Some(ki0) => {
                                let r = self.map_find(offset, ki0);
                                proof {
                                    if spec_table_sorted(d, self.spec_hkt(), e) && spec_map_sorted(
                                        d,
                                        offset as int,
                                        e,
                                    ) && r is None {
                                        assert forall|ki: int|
                                            0 <= ki < spec_table_len(d, self.spec_hkt(), e)
                                                && #[trigger] spec_table_get(
                                                d,
                                                self.spec_hkt(),
                                                e,
                                                ki,
                                            ) == Some(s.spec_bytes()) implies spec_map_absent(
                                            d,
                                            e,
                                            offset as int,
                                            ki as u32,
                                        ) by {
                                            lemma_table_unique(
                                                d,
                                                self.spec_hkt(),
                                                e,
                                                ki,
                                                ki0 as int,
                                            );
                                        }
                                    }
                                }
                                r
                            }
                        }
                    }
                    _ => None,
                }
            }
            BymlIndex::HashIdx(h) => {
                match node {
                    BymlNode::HashMap { offset } => self.hash_find(offset, h, false),
                    BymlNode::ValueHashMap { offset } => self.hash_find(offset, h, true),
                    _ => None,
                }
            }
        }
    }

    /// The root as a node reference, when the document has a root whose
    /// tag is known.
    fn root_node(&self) -> (r: Option<BymlNode>)
        requires
            self.wf(),
        ensures
            ({
                match (self.spec_root(), self.spec_root_type()) {
                    (Some(off), Some(t)) => r == Some(spec_byml_node(off as u32, t)),
                    _ => r is None,
                }
            }),
    {
        match self.root_node_idx {
            None => None,
            Some(off) => {
                match self.root_type() {
                    None => None,
                    Some(t) => {
                        proof {
                            let root_off = spec_byml_root_off(self.spec_data(), self.spec_endian());
                            assert(off == root_off);
                        }
                        Some(BymlNode::new(off as u32, t))
                    }
                }
            }
        }
    }

    /// Looks a key up in the root container, as `get_from` does on an
    /// inner node.
    pub fn get(&self, key: BymlIndex) -> (r: Option<BymlNode>)
        requires
            self.wf(),
        ensures
            ({
                let d = self.spec_data();
                let e = self.spec_endian();
                match (self.spec_root(), self.spec_root_type()) {
                    (Some(off), Some(t)) => match key {
                        BymlIndex::ArrayIdx(i) => t is Array ==> {
                            &&& (r matches Some(found) ==> spec_array_elem(
                                d,
                                e,
                                off as int,
                                i as int,
                                found,
                            ))
                            &&& (r is None ==> (i >= spec_cont_count(d, off as int, e) || off
                                + spec_array_vs(spec_cont_count(d, off as int, e) as int) + 4 * i
                                + 4 > d.len() || spec_node_type_from_tag(d[off + 4 + i]) is None))
                        },
                        BymlIndex::StringIdx(s) => t is StringMap ==> {
                            &&& (r matches Some(found) ==> exists|ki: u32, i: int|
                                {
                                    &&& spec_table_get(d, self.spec_hkt(), e, ki as int) == Some(
                                        s.spec_bytes(),
                                    )
                                    &&& #[trigger] spec_map_entry_found(
                                        d,
                                        e,
                                        off as int,
                                        ki,
                                        found,
                                        i,
                                    )
                                })
                            &&& (spec_table_sorted(d, self.spec_hkt(), e) && spec_map_sorted(
                                d,
                                off as int,
                                e,
                            ) && r is None ==> spec_key_absent(
                                d,
                                e,
                                self.spec_hkt(),
                                off as int,
                                s.spec_bytes(),
                            ))
                        },
                        BymlIndex::HashIdx(h) => {
                            &&& t is HashMap ==> {
                                &&& (r matches Some(found) ==> exists|i: int|
                                    #[trigger] spec_hm_entry_found(
                                        d,
                                        e,
                                        off as int,
                                        spec_hm_size(false),
                                        h,
                                        found,
                                        i,
                                    ))
                                &&& (spec_hm_sorted(d, off as int, e, spec_hm_size(false)) && r
                                    is None ==> spec_hm_absent(
                                    d,
                                    e,
                                    off as int,
                                    h,
                                    spec_hm_size(false),
                                ))
                            }
                            &&& t is ValueHashMap ==> {
                                &&& (r matches Some(found) ==> exists|i: int|
                                    #[trigger] spec_hm_entry_found(
                                        d,
                                        e,
                                        off as int,
                                        spec_hm_size(true),
                                        h,
                                        found,
                                        i,
                                    ))
                                &&& (spec_hm_sorted(d, off as int, e, spec_hm_size(true)) && r
                                    is None ==> spec_hm_absent(
                                    d,
                                    e,
                                    off as int,
                                    h,
                                    spec_hm_size(true),
                                ))
                            }
                        },
                    },
                    _ => r is None,
                }
            }),
    {
        let root = match self.root_node() {
            None => {
                return None;
            }
            Some(n) => n,
        };
        match key {
            BymlIndex::ArrayIdx(_) => {
                match root {
                    BymlNode::Array { .. } => self.get_from(root, key),
                    _ => None,
                }
            }
            BymlIndex::StringIdx(_) => {
                match root {
                    BymlNode::StringMap { .. } => self.get_from(root, key),
                    _ => None,
                }
            }
            BymlIndex::HashIdx(h) => {
                match root {
                    BymlNode::HashMap { offset } => self.hash_find(offset, h, false),
                    BymlNode::ValueHashMap { offset } => self.hash_find(offset, h, true),
                    _ => None,
                }
            }
        }
    }

    /// The string a string node refers to, from the string-value table.
    pub fn get_string_data(&self, data: BymlNode) -> (r: Option<&'a str>)
        requires
            self.wf(),
        ensures
            ({
                match data {
                    BymlNode::String { index } => match r {
                        Some(s) => spec_table_get(
                            self.spec_data(),
                            self.spec_st(),
                            self.spec_endian(),
                            index as int,
                        ) == Some(s.spec_bytes()),
                        None => spec_table_get(
                            self.spec_data(),
                            self.spec_st(),
                            self.spec_endian(),
                            index as int,
                        ) is None,
                    },
                    _ => r is None,
                }
            }),
    {
        match data {
            BymlNode::String { index } => {
                let st = read_u32(self.data, 8, self.endian);
                self.table_get(st as usize, index)
            }
            _ => None,
        }
    }

    /// The 64-bit signed integer an i64 node refers to.
    pub fn get_i64_data(&self, data: BymlNode) -> (r: Option<i64>)
        requires
            self.wf(),
        ensures
            ({
                match data {
                    BymlNode::I64 { offset } => {
                        &&& r is Some <==> offset + 8 <= self.spec_data().len()
                        &&& r matches Some(v) ==> v == spec_u64_at(
                            self.spec_data(),
                            offset as int,
                            self.spec_endian(),
                        ) as i64
                    }
                    _ => r is None,
                }
            }),
    {
        match data {
            BymlNode::I64 { offset } => {
                let n: usize = self.data.len();
                if offset <= n && n - offset >= 8 {
                    Some(read_u64(self.data, offset, self.endian) as i64)
                } else {
                    None
                }
            }
            _ => None,
        }
    }

    /// The 64-bit unsigned integer a u64 node refers to.
    pub fn get_u64_data(&self, data: BymlNode) -> (r: Option<u64>)
        requires
            self.wf(),
        ensures
            ({
                match data {
                    BymlNode::U64 { offset } => {
                        &&& r is Some <==> offset + 8 <= self.spec_data().len()
                        &&& r matches Some(v) ==> v == spec_u64_at(
                            self.spec_data(),
                            offset as int,
                            self.spec_endian(),
                        )
                    }
                    _ => r is None,
                }
            }),
    {
        match data {
            BymlNode::U64 { offset } => {
                let n: usize = self.data.len();
                if offset <= n && n - offset >= 8 {
                    Some(read_u64(self.data, offset, self.endian))
                } else {
                    None
                }
            }
            _ => None,
        }
    }

    /// The IEEE-754 binary64 bit pattern a double node refers to.
    pub fn get_double_data(&self, data: BymlNode) -> (r: Option<u64>)
        requires
            self.wf(),
        ensures
            ({
                match data {
                    BymlNode::Double { offset } => {
                        &&& r is Some <==> offset + 8 <= self.spec_data().len()
                        &&& r matches Some(v) ==> v == spec_u64_at(
                            self.spec_data(),
                            offset as int,
                            self.spec_endian(),
                        )
                    }
                    _ => r is None,
                }
            }),
    {
        match data {
            BymlNode::Double { offset } => {
                let n: usize = self.data.len();
                if offset <= n && n - offset >= 8 {
                    Some(read_u64(self.data, offset, self.endian))
                } else {
                    None
                }
            }
            _ => None,
        }
    }

    /// The sized payload of a binary node: a 32-bit size, then the bytes.
    pub fn get_binary_data(&self, data: BymlNode) -> (r: Option<&'a [u8]>)
        requires
            self.wf(),
        ensures
            ({
                let d = self.spec_data();
                let e = self.spec_endian();
                match data {
                    BymlNode::Binary { offset } => {
                        &&& r is Some <==> (offset + 4 <= d.len() && offset + 4 + spec_u32_at(
                            d,
                            offset as int,
                            e,
                        ) <= d.len())
                        &&& r matches Some(b) ==> b@ == d.subrange(
                            offset + 4,
                            offset + 4 + spec_u32_at(d, offset as int, e),
                        )
                    }
                    _ => r is None,
                }
            }),
    {
        match data {
            BymlNode::Binary { offset } => {
                let n: usize = self.data.len();
                if offset > n || n - offset < 4 {
                    return None;
                }
                let size = read_u32(self.data, offset, self.endian);
                if (offset as u128) + 4 + (size as u128) > n as u128 {
                    return None;
                }
                Some(slice_subrange(self.data, offset + 4, offset + 4 + size as usize))
            }
            _ => None,
        }
    }

    /// The sized payload of a file node: a 32-bit size, four reserved
    /// bytes, then the bytes.
    pub fn get_file_data(&self, data: BymlNode) -> (r: Option<&'a [u8]>)
        requires
            self.wf(),
        ensures
            ({
                let d = self.spec_data();
                let e = self.spec_endian();
                match data {
                    BymlNode::File { offset } => {
                        &&& r is Some <==> (offset + 4 <= d.len() && offset + 8 + spec_u32_at(
                            d,
                            offset as int,
                            e,
                        ) <= d.len())
                        &&& r matches Some(b) ==> b@ == d.subrange(
                            offset + 8,
                            offset + 8 + spec_u32_at(d, offset as int, e),
                        )
                    }
                    _ => r is None,
                }
            }),
    {
        match data {
            BymlNode::File { offset } => {
                let n: usize = self.data.len();
                if offset > n || n - offset < 4 {
                    return None;
                }
                let size = read_u32(self.data, offset, self.endian);
                if (offset as u128) + 8 + (size as u128) > n as u128 {
                    return None;
                }
                Some(slice_subrange(self.data, offset + 8, offset + 8 + size as usize))
            }
            _ => None,
        }
    }
}

/// The mathematical value a node reference denotes in a document with
/// byte order `e`, hash-key table at `hkt` and string-value table at
/// `st`. `None` when any record, table entry or payload the node needs is
/// broken, or when the document nests deeper than `fuel`.
pub open spec fn spec_materialize(
    d: Seq<u8>,
    e: Endian,
    hkt: int,
    st: int,
    node: BymlNode,
    fuel: nat,
) -> Option<BymlVal>
    decreases fuel, 1int, 0int,
{
    match node {
        BymlNode::Null => Some(BymlVal::Null),
        BymlNode::Bool(b) => Some(BymlVal::Bool(b)),
        BymlNode::I32(v) => Some(BymlVal::I32(v)),
        BymlNode::Float(v) => Some(BymlVal::Float(v)),
        BymlNode::U32(v) => Some(BymlVal::U32(v)),
        BymlNode::String { index } => match spec_table_get(d, st, e, index as int) {
            None => None,
            Some(b) => Some(BymlVal::String(b)),
        },
        BymlNode::Binary { offset } => if offset + 4 <= d.len() && offset + 4 + spec_u32_at(
            d,
            offset as int,
            e,
        ) <= d.len() {
            Some(
                BymlVal::BinaryData(
                    d.subrange(offset + 4, offset + 4 + spec_u32_at(d, offset as int, e)),
                ),
            )
        } else {
            None
        },
        BymlNode::File { offset } => if offset + 4 <= d.len() && offset + 8 + spec_u32_at(
            d,
            offset as int,
            e,
        ) <= d.len() {
            Some(
                BymlVal::FileData(
                    d.subrange(offset + 8, offset + 8 + spec_u32_at(d, offset as int, e)),
                ),
            )
        } else {
            None
        },
        BymlNode::I64 { offset } => if offset + 8 <= d.len() {
            Some(BymlVal::I64(spec_u64_at(d, offset as int, e) as i64))
        } else {
            None
        },
        BymlNode::U64 { offset } => if offset + 8 <= d.len() {
            Some(BymlVal::U64(spec_u64_at(d, offset as int, e)))
        } else {
            None
        },
        BymlNode::Double { offset } => if offset + 8 <= d.len() {
            Some(BymlVal::Double(spec_u64_at(d, offset as int, e)))
        } else {
            None
        },
        BymlNode::StringTable { .. } => None,
        BymlNode::Array { offset } => if fuel == 0 || !spec_cont_ok(d, offset as int) {
            None
        } else {
            match spec_arr_children(
                d,
                e,
                hkt,
                st,
                offset as int,
                spec_cont_count(d, offset as int, e) as int,
                0,
                fuel,
            ) {
                None => None,
                Some(cs) => Some(BymlVal::Array(cs)),
            }
        },
        BymlNode::StringMap { offset } => if fuel == 0 || !spec_cont_ok(d, offset as int)
            || !spec_table_ok(d, hkt) {
            None
        } else {
            match spec_map_children(
                d,
                e,
                hkt,
                st,
                offset as int,
                spec_cont_count(d, offset as int, e) as int,
                0,
                fuel,
            ) {
                None => None,
                Some(cs) => Some(BymlVal::StringMap(cs)),
            }
        },
        BymlNode::HashMap { offset } => if fuel == 0 || !spec_cont_ok(d, offset as int) {
            None
        } else {
            match spec_hm_children(
                d,
                e,
                hkt,
                st,
                offset as int,
                spec_cont_count(d, offset as int, e) as int,
                0,
                fuel,
            ) {
                None => None,
                Some(cs) => Some(BymlVal::HashMap(cs)),
            }
        },
        BymlNode::ValueHashMap { offset } => if fuel == 0 || !spec_cont_ok(d, offset as int) {
            None
        } else {
            match spec_vhm_children(
                d,
                e,
                hkt,
                st,
                offset as int,
                spec_cont_count(d, offset as int, e) as int,
                0,
                fuel,
            ) {
                None => None,
                Some(cs) => Some(BymlVal::ValueHashMap(cs)),
            }
        },
    }
}

/// The values of array elements `i ..`, each read as a tag byte and a
/// value word and materialized with one level of fuel spent.
pub open spec fn spec_arr_children(
    d: Seq<u8>,
    e: Endian,
    hkt: int,
    st: int,
    off: int,
    count: int,
    i: int,
    fuel: nat,
) -> Option<Seq<BymlVal>>
    decreases fuel, 0int, count - i,
{
    if fuel == 0 {
        None
    } else if i >= count {
        Some(Seq::empty())
    } else if off + 4 + i + 1 > d.len() {
        None
    } else {
        match spec_node_type_from_tag(d[off + 4 + i]) {
            None => None,
            Some(t) => {
                if off + spec_array_vs(count) + 4 * i + 4 > d.len() {
                    None
                } else {
                    let child = spec_byml_node(
                        spec_u32_at(d, off + spec_array_vs(count) + 4 * i, e),
                        t,
                    );
                    match spec_materialize(d, e, hkt, st, child, (fuel - 1) as nat) {
                        None => None,
                        Some(v) => match spec_arr_children(d, e, hkt, st, off, count, i + 1, fuel) {
                            None => None,
                            Some(rest) => Some(seq![v] + rest),
                        },
                    }
                }
            }
        }
    }
}

/// The key-and-value pairs of map entries `i ..`, each key resolved
/// through the hash-key table.
pub open spec fn spec_map_children(
    d: Seq<u8>,
    e: Endian,
    hkt: int,
    st: int,
    off: int,
    count: int,
    i: int,
    fuel: nat,
) -> Option<Seq<(Seq<u8>, BymlVal)>>
    decreases fuel, 0int, count - i,
{
    if fuel == 0 {
        None
    } else if i >= count {
        Some(Seq::empty())
    } else if off + 4 + 8 * i + 8 > d.len() {
        None
    } else {
        match spec_node_type_from_tag(spec_map_tag(d, off, i)) {
            None => None,
            Some(t) => {
                match spec_table_get(d, hkt, e, spec_map_key(d, off, e, i) as int) {
                    None => None,
                    Some(kb) => {
                        let child = spec_byml_node(spec_map_val(d, off, e, i), t);
                        match spec_materialize(d, e, hkt, st, child, (fuel - 1) as nat) {
                            None => None,
                            Some(v) => match spec_map_children(
                                d,
                                e,
                                hkt,
                                st,
                                off,
                                count,
                                i + 1,
                                fuel,
                            ) {
                                None => None,
                                Some(rest) => Some(seq![(kb, v)] + rest),
                            },
                        }
                    }
                }
            }
        }
    }
}

/// The hash-and-value pairs of hash-map entries `i ..` (8-byte entries,
/// tag table after the entries).
pub open spec fn spec_hm_children(
    d: Seq<u8>,
    e: Endian,
    hkt: int,
    st: int,
    off: int,
    count: int,
    i: int,
    fuel: nat,
) -> Option<Seq<(u32, BymlVal)>>
    decreases fuel, 0int, count - i,
{
    if fuel == 0 {
        None
    } else if i >= count {
        Some(Seq::empty())
    } else if off + 4 + 8 * i + 8 > d.len() || off + 4 + 8 * count + i + 1 > d.len() {
        None
    } else {
        match spec_node_type_from_tag(spec_hm_tag(d, off, e, i, 8)) {
            None => None,
            Some(t) => {
                let child = spec_byml_node(spec_hm_val(d, off, e, i, 8), t);
                match spec_materialize(d, e, hkt, st, child, (fuel - 1) as nat) {
                    None => None,
                    Some(v) => match spec_hm_children(d, e, hkt, st, off, count, i + 1, fuel) {
                        None => None,
                        Some(rest) => Some(seq![(spec_hm_hash(d, off, e, i, 8), v)] + rest),
                    },
                }
            }
        }
    }
}

/// The hash, value and auxiliary-word triples of entries `i ..` of a
/// hash map with auxiliary values (12-byte entries).
pub open spec fn spec_vhm_children(
    d: Seq<u8>,
    e: Endian,
    hkt: int,
    st: int,
    off: int,
    count: int,
    i: int,
    fuel: nat,
) -> Option<Seq<(u32, (BymlVal, u32))>>
    decreases fuel, 0int, count - i,
{
    if fuel == 0 {
        None
    } else if i >= count {
        Some(Seq::empty())
    } else if off + 4 + 12 * i + 12 > d.len() || off + 4 + 12 * count + i + 1 > d.len() {
        None
    } else {
        match spec_node_type_from_tag(spec_hm_tag(d, off, e, i, 12)) {
            None => None,
            Some(t) => {
                let child = spec_byml_node(spec_hm_val(d, off, e, i, 12), t);
                match spec_materialize(d, e, hkt, st, child, (fuel - 1) as nat) {
                    None => None,
                    Some(v) => match spec_vhm_children(d, e, hkt, st, off, count, i + 1, fuel) {
                        None => None,
                        Some(rest) => Some(
                            seq![(spec_hm_hash(d, off, e, i, 12), (v, spec_hm_aux(d, off, e, i)))]
                                + rest,
                        ),
                    },
                }
            }
        }
    }
}

/// The mathematical value of a whole BYML document: `Null` for an empty
/// root, else the root node materialized. `None` when the header, the
/// version or any reachable record is broken.
pub open spec fn spec_parse_byml(d: Seq<u8>) -> Option<BymlVal> {
    match spec_byml_endian(d) {
        None => None,
        Some(e) => {
            if !crate::byml::spec_is_valid_version(spec_byml_version(d, e)) {
                None
            } else {
                let root = spec_byml_root_off(d, e);
                let hkt = spec_byml_hkt_off(d, e) as int;
                let st = spec_byml_st_off(d, e) as int;
                if root == 0 {
                    Some(BymlVal::Null)
                } else if root + 4 > d.len() {
                    None
                } else {
                    match spec_node_type_from_tag(d[root as int]) {
                        None => None,
                        Some(t) => spec_materialize(
                            d,
                            e,
                            hkt,
                            st,
                            spec_byml_node(root, t),
                            d.len(),
                        ),
                    }
                }
            }
        }
    }
}

impl<'a> BymlIter<'a> {
    /// Materializes one node into an owned tree value, spending one level
    /// of `fuel` per container. Fails exactly where the node's records,
    /// table entries or payloads are broken or the document nests deeper
    /// than `fuel`.
    fn node_to_byml(&self, node: BymlNode, fuel: usize) -> (r: Result<Byml, Error>)
        requires
            self.wf(),
        ensures
            r matches Ok(b) ==> spec_materialize(
                self.spec_data(),
                self.spec_endian(),
                self.spec_hkt(),
                self.spec_st(),
                node,
                fuel as nat,
            ) == Some(byml_view(b)),
            r is Err <==> spec_materialize(
                self.spec_data(),
                self.spec_endian(),
                self.spec_hkt(),
                self.spec_st(),
                node,
                fuel as nat,
            ) is None,
            r matches Err(er) ==> er is InvalidData,
        decreases fuel,
    {
        let ghost d = self.spec_data();
        let ghost e = self.spec_endian();
        let ghost hkt = self.spec_hkt();
        let ghost st = self.spec_st();
        let n: usize = self.data.len();
        match node {
            BymlNode::Null => Ok(Byml::Null),
            BymlNode::Bool(b) => Ok(Byml::Bool(b)),
            BymlNode::I32(v) => Ok(Byml::I32(v)),
            BymlNode::Float(v) => Ok(Byml::Float(v)),
            BymlNode::U32(v) => Ok(Byml::U32(v)),
            BymlNode::String { .. } => {
                match self.get_string_data(node) {
                    None => Err(Error::InvalidData("Invalid string node")),
                    Some(sv) => Ok(Byml::String(sv.to_owned())),
                }
            }
            BymlNode::Binary { .. } => {
                match self.get_binary_data(node) {
                    None => Err(Error::InvalidData("Invalid binary node")),
                    Some(b) => Ok(Byml::BinaryData(slice_to_vec(b))),
                }
            }
            BymlNode::File { .. } => {
                match self.get_file_data(node) {
                    None => Err(Error::InvalidData("Invalid file node")),
                    Some(b) => Ok(Byml::FileData(slice_to_vec(b))),
                }
            }
            BymlNode::I64 { .. } => {
                match self.get_i64_data(node) {
                    None => Err(Error::InvalidData("Invalid i64 node")),
                    Some(v) => Ok(Byml::I64(v)),
                }
            }
            BymlNode::U64 { .. } => {
                match self.get_u64_data(node) {
                    None => Err(Error::InvalidData("Invalid u64 node")),
                    Some(v) => Ok(Byml::U64(v)),
                }
            }
            BymlNode::Double { .. } => {
                match self.get_double_data(node) {
                    None => Err(Error::InvalidData("Invalid double node")),
                    Some(v) => Ok(Byml::Double(v)),
                }
            }
            BymlNode::StringTable { .. } => Err(Error::InvalidData("Unexpected string table node")),
            BymlNode::Array { offset } => {
                if fuel == 0 {
                    return Err(Error::InvalidData("BYML document nests too deeply"));
                }
                if offset > n || n - offset < 4 {
                    return Err(Error::InvalidData("Invalid array node"));
                }
                let tag0 = *slice_index_get(self.data, offset);
                match NodeType::from_tag(tag0) {
                    None => {
                        return Err(Error::InvalidData("Invalid array node"));
                    }
                    Some(_) => {}
                }
                let count: usize = read_u24(self.data, offset + 1, self.endian) as usize;
                proof {
                    crate::util::lemma_align_up(4 + count as int, 4);
                }
                let vs: usize = crate::util::align_up(4 + count, 4);
                let ghost total0 = spec_arr_children(
                    d,
                    e,
                    hkt,
                    st,
                    offset as int,
                    count as int,
                    0,
                    fuel as nat,
                );
                let mut acc: Vec<Byml> = Vec::new();
                let mut i: usize = 0;
                while i < count
                    invariant
                        self.wf(),
                        d == self.spec_data(),
                        e == self.spec_endian(),
                        hkt == self.spec_hkt(),
                        st == self.spec_st(),
                        n == d.len(),
                        fuel >= 1,
                        offset + 4 <= n,
                        spec_cont_ok(d, offset as int),
                        node == (BymlNode::Array { offset }),
                        count == spec_cont_count(d, offset as int, e),
                        vs == spec_array_vs(count as int),
                        i <= count,
                        acc@.len() == i,
                        total0 == spec_arr_children(
                            d,
                            e,
                            hkt,
                            st,
                            offset as int,
                            count as int,
                            0,
                            fuel as nat,
                        ),
                        spec_arr_children(
                            d,
                            e,
                            hkt,
                            st,
                            offset as int,
                            count as int,
                            i as int,
                            fuel as nat,
                        ) is Some <==> total0 is Some,
                        (spec_arr_children(
                            d,
                            e,
                            hkt,
                            st,
                            offset as int,
                            count as int,
                            i as int,
                            fuel as nat,
                        ) matches Some(rest) ==> total0->0 == crate::byml::byml_seq_view(acc@)
                            + rest),
                    decreases count - i,
                {
                    let ghost rest_i = spec_arr_children(
                        d,
                        e,
                        hkt,
                        st,
                        offset as int,
                        count as int,
                        i as int,
                        fuel as nat,
                    );
                    if offset as u128 + 4 + i as u128 + 1 > n as u128 {
                        proof {
                            assert(rest_i is None);
                        }
                        return Err(Error::InvalidData("Invalid array node"));
                    }
                    let ctag = *slice_index_get(self.data, offset + 4 + i);
                    let t = match NodeType::from_tag(ctag) {
                        None => {
                            proof {
                                assert(rest_i is None);
                            }
                            return Err(Error::InvalidData("Invalid array node"));
                        }
                        Some(t) => t,
                    };
                    let vpos128: u128 = offset as u128 + vs as u128 + 4 * (i as u128);
                    if vpos128 + 4 > n as u128 {
                        proof {
                            assert(rest_i is None);
                        }
                        return Err(Error::InvalidData("Invalid array node"));
                    }
                    let value = read_u32(self.data, vpos128 as usize, self.endian);
                    let child = BymlNode::new(value, t);
                    match self.node_to_byml(child, fuel - 1) {
                        Err(er) => {
                            proof {
                                assert(rest_i is None);
                            }
                            return Err(er);
                        }
                        Ok(b) => {
                            proof {
                                let rest_next = spec_arr_children(
                                    d,
                                    e,
                                    hkt,
                                    st,
                                    offset as int,
                                    count as int,
                                    i + 1,
                                    fuel as nat,
                                );
                                assert(rest_i is Some <==> rest_next is Some);
                                crate::byml::lemma_byml_seq_view_push(acc@, b);
                                if rest_next is Some {
                                    assert(rest_i->0 == seq![byml_view(b)] + rest_next->0);
                                    assert(crate::byml::byml_seq_view(acc@) + (seq![byml_view(b)]
                                        + rest_next->0) =~= crate::byml::byml_seq_view(
                                        acc@.push(b),
                                    ) + rest_next->0);
                                }
                            }
                            acc.push(b);
                            i = i + 1;
                        }
                    }
                }
                proof {
                    assert(spec_arr_children(
                        d,
                        e,
                        hkt,
                        st,
                        offset as int,
                        count as int,
                        count as int,
                        fuel as nat,
                    ) == Some(Seq::<BymlVal>::empty()));
                    assert(total0 is Some);
                    assert(total0->0 =~= crate::byml::byml_seq_view(acc@));
                }
                Ok(Byml::Array(acc))
            }
            BymlNode::StringMap { offset } => {
                if fuel == 0 {
                    return Err(Error::InvalidData("BYML document nests too deeply"));
                }
                if offset > n || n - offset < 4 {
                    return Err(Error::InvalidData("Invalid map node"));
                }
                let tag0 = *slice_index_get(self.data, offset);
                match NodeType::from_tag(tag0) {
                    None => {
                        return Err(Error::InvalidData("Invalid map node"));
                    }
                    Some(_) => {}
                }
                let hkt_exec: usize = read_u32(self.data, 4, self.endian) as usize;
                if hkt_exec > n || n - hkt_exec < 4 {
                    return Err(Error::InvalidData("Invalid hash key table"));
                }
                if *slice_index_get(self.data, hkt_exec) != 0xc2 {
                    return Err(Error::InvalidData("Invalid hash key table"));
                }
                let count: usize = read_u24(self.data, offset + 1, self.endian) as usize;
                let ghost total0 = spec_map_children(
                    d,
                    e,
                    hkt,
                    st,
                    offset as int,
                    count as int,
                    0,
                    fuel as nat,
                );
                let mut acc: Vec<(String, Byml)> = Vec::new();
                let mut i: usize = 0;
                while i < count
                    invariant
                        self.wf(),
                        d == self.spec_data(),
                        e == self.spec_endian(),
                        hkt == self.spec_hkt(),
                        st == self.spec_st(),
                        n == d.len(),
                        fuel >= 1,
                        offset + 4 <= n,
                        spec_cont_ok(d, offset as int),
                        node == (BymlNode::StringMap { offset }),
                        hkt_exec == hkt,
                        count == spec_cont_count(d, offset as int, e),
                        i <= count,
                        acc@.len() == i,
                        total0 == spec_map_children(
                            d,
                            e,
                            hkt,
                            st,
                            offset as int,
                            count as int,
                            0,
                            fuel as nat,
                        ),
                        spec_map_children(
                            d,
                            e,
                            hkt,
                            st,
                            offset as int,
                            count as int,
                            i as int,
                            fuel as nat,
                        ) is Some <==> total0 is Some,
                        (spec_map_children(
                            d,
                            e,
                            hkt,
                            st,
                            offset as int,
                            count as int,
                            i as int,
                            fuel as nat,
                        ) matches Some(rest) ==> total0->0 == crate::byml::byml_map_view(acc@)
                            + rest),
                    decreases count - i,
                {
                    let ghost rest_i = spec_map_children(
                        d,
                        e,
                        hkt,
                        st,
                        offset as int,
                        count as int,
                        i as int,
                        fuel as nat,
                    );
                    let entry128: u128 = offset as u128 + 4 + 8 * (i as u128);
                    if entry128 + 8 > n as u128 {
                        proof {
                            assert(rest_i is None);
                        }
                        return Err(Error::InvalidData("Invalid map node"));
                    }
                    let entry = entry128 as usize;
                    let key_index = read_u24(self.data, entry, self.endian);
                    let ctag = *slice_index_get(self.data, entry + 3);
                    let value = read_u32(self.data, entry + 4, self.endian);
                    let t = match NodeType::from_tag(ctag) {
                        None => {
                            proof {
                                assert(rest_i is None);
                            }
                            return Err(Error::InvalidData("Invalid map node"));
                        }
                        Some(t) => t,
                    };
                    let ks = match self.table_get(hkt_exec, key_index) {
                        None => {
                            proof {
                                assert(rest_i is None);
                            }
                            return Err(Error::InvalidData("Invalid map key"));
                        }
                        Some(ks) => ks,
                    };
                    let child = BymlNode::new(value, t);
                    match self.node_to_byml(child, fuel - 1) {
                        Err(er) => {
                            proof {
                                assert(rest_i is None);
                            }
                            return Err(er);
                        }
                        Ok(b) => {
                            let owned: String = ks.to_owned();
                            proof {
                                let rest_next = spec_map_children(
                                    d,
                                    e,
                                    hkt,
                                    st,
                                    offset as int,
                                    count as int,
                                    i + 1,
                                    fuel as nat,
                                );
                                assert(rest_i is Some <==> rest_next is Some);
                                crate::byml::lemma_byml_map_view_push(acc@, (owned, b));
                                if rest_next is Some {
                                    assert(rest_i->0 == seq![(ks.spec_bytes(), byml_view(b))]
                                        + rest_next->0);
                                    assert(vstd::utf8::encode_utf8(owned@) == ks.spec_bytes());
                                    assert(crate::byml::byml_map_view(acc@) + (seq![
                                        (ks.spec_bytes(), byml_view(b)),
                                    ] + rest_next->0) =~= crate::byml::byml_map_view(
                                        acc@.push((owned, b)),
                                    ) + rest_next->0);
                                }
                            }
                            acc.push((owned, b));
                            i = i + 1;
                        }
                    }
                }
                proof {
                    assert(spec_map_children(
                        d,
                        e,
                        hkt,
                        st,
                        offset as int,
                        count as int,
                        count as int,
                        fuel as nat,
                    ) == Some(Seq::<(Seq<u8>, BymlVal)>::empty()));
                    assert(total0 is Some);
                    assert(total0->0 =~= crate::byml::byml_map_view(acc@));
                }
                Ok(Byml::StringMap(crate::byml::BymlMap { entries: acc }))
            }
            BymlNode::HashMap { offset } => {
                if fuel == 0 {
                    return Err(Error::InvalidData("BYML document nests too deeply"));
                }
                if offset > n || n - offset < 4 {
                    return Err(Error::InvalidData("Invalid hash map node"));
                }
                let tag0 = *slice_index_get(self.data, offset);
                match NodeType::from_tag(tag0) {
                    None => {
                        return Err(Error::InvalidData("Invalid hash map node"));
                    }
                    Some(_) => {}
                }
                let count: usize = read_u24(self.data, offset + 1, self.endian) as usize;
                let ghost total0 = spec_hm_children(
                    d,
                    e,
                    hkt,
                    st,
                    offset as int,
                    count as int,
                    0,
                    fuel as nat,
                );
                let mut acc: Vec<(u32, Byml)> = Vec::new();
                let mut i: usize = 0;
                while i < count
                    invariant
                        self.wf(),
                        d == self.spec_data(),
                        e == self.spec_endian(),
                        hkt == self.spec_hkt(),
                        st == self.spec_st(),
                        n == d.len(),
                        fuel >= 1,
                        offset + 4 <= n,
                        spec_cont_ok(d, offset as int),
                        node == (BymlNode::HashMap { offset }),
                        count == spec_cont_count(d, offset as int, e),
                        i <= count,
                        acc@.len() == i,
                        total0 == spec_hm_children(
                            d,
                            e,
                            hkt,
                            st,
                            offset as int,
                            count as int,
                            0,
                            fuel as nat,
                        ),
                        spec_hm_children(
                            d,
                            e,
                            hkt,
                            st,
                            offset as int,
                            count as int,
                            i as int,
                            fuel as nat,
                        ) is Some <==> total0 is Some,
                        (spec_hm_children(
                            d,
                            e,
                            hkt,
                            st,
                            offset as int,
                            count as int,
                            i as int,
                            fuel as nat,
                        ) matches Some(rest) ==> total0->0 == crate::byml::byml_hash_map_view(acc@)
                            + rest),
                    decreases count - i,
                {
                    let ghost rest_i = spec_hm_children(
                        d,
                        e,
                        hkt,
                        st,
                        offset as int,
                        count as int,
                        i as int,
                        fuel as nat,
                    );
                    let entry128: u128 = offset as u128 + 4 + 8 * (i as u128);
                    let tagpos128: u128 = offset as u128 + 4 + 8 * (count as u128) + i as u128;
                    if entry128 + 8 > n as u128 || tagpos128 + 1 > n as u128 {
                        proof {
                            assert(rest_i is None);
                        }
                        return Err(Error::InvalidData("Invalid hash map node"));
                    }
                    let entry = entry128 as usize;
                    let hash = read_u32(self.data, entry, self.endian);
                    let value = read_u32(self.data, entry + 4, self.endian);
                    let ctag = *slice_index_get(self.data, tagpos128 as usize);
                    let t = match NodeType::from_tag(ctag) {
                        None => {
                            proof {
                                assert(rest_i is None);
                            }
                            return Err(Error::InvalidData("Invalid hash map node"));
                        }
                        Some(t) => t,
                    };
                    let child = BymlNode::new(value, t);
                    match self.node_to_byml(child, fuel - 1) {
                        Err(er) => {
                            proof {
                                assert(rest_i is None);
                            }
                            return Err(er);
                        }
                        Ok(b) => {
                            proof {
                                let rest_next = spec_hm_children(
                                    d,
                                    e,
                                    hkt,
                                    st,
                                    offset as int,
                                    count as int,
                                    i + 1,
                                    fuel as nat,
                                );
                                assert(rest_i is Some <==> rest_next is Some);
                                crate::byml::lemma_byml_hash_map_view_push(acc@, (hash, b));
                                if rest_next is Some {
                                    assert(rest_i->0 == seq![(hash, byml_view(b))] + rest_next->0);
                                    assert(crate::byml::byml_hash_map_view(acc@) + (seq![
                                        (hash, byml_view(b)),
                                    ] + rest_next->0) =~= crate::byml::byml_hash_map_view(
                                        acc@.push((hash, b)),
                                    ) + rest_next->0);
                                }
                            }
                            acc.push((hash, b));
                            i = i + 1;
                        }
                    }
                }
                proof {
                    assert(spec_hm_children(
                        d,
                        e,
                        hkt,
                        st,
                        offset as int,
                        count as int,
                        count as int,
                        fuel as nat,
                    ) == Some(Seq::<(u32, BymlVal)>::empty()));
                    assert(total0 is Some);
                    assert(total0->0 =~= crate::byml::byml_hash_map_view(acc@));
                }
                Ok(Byml::HashMap(crate::byml::BymlHashMap { entries: acc }))
            }
            BymlNode::ValueHashMap { offset } => {
                if fuel == 0 {
                    return Err(Error::InvalidData("BYML document nests too deeply"));
                }
                if offset > n || n - offset < 4 {
                    return Err(Error::InvalidData("Invalid value hash map node"));
                }
                let tag0 = *slice_index_get(self.data, offset);
                match NodeType::from_tag(tag0) {
                    None => {
                        return Err(Error::InvalidData("Invalid value hash map node"));
                    }
                    Some(_) => {}
                }
                let count: usize = read_u24(self.data, offset + 1, self.endian) as usize;
                let ghost total0 = spec_vhm_children(
                    d,
                    e,
                    hkt,
                    st,
                    offset as int,
                    count as int,
                    0,
                    fuel as nat,
                );
                let mut acc: Vec<(u32, (Byml, u32))> = Vec::new();
                let mut i: usize = 0;
                while i < count
                    invariant
                        self.wf(),
                        d == self.spec_data(),
                        e == self.spec_endian(),
                        hkt == self.spec_hkt(),
                        st == self.spec_st(),
                        n == d.len(),
                        fuel >= 1,
                        offset + 4 <= n,
                        spec_cont_ok(d, offset as int),
                        node == (BymlNode::ValueHashMap { offset }),
                        count == spec_cont_count(d, offset as int, e),
                        i <= count,
                        acc@.len() == i,
                        total0 == spec_vhm_children(
                            d,
                            e,
                            hkt,
                            st,
                            offset as int,
                            count as int,
                            0,
                            fuel as nat,
                        ),
                        spec_vhm_children(
                            d,
                            e,
                            hkt,
                            st,
                            offset as int,
                            count as int,
                            i as int,
                            fuel as nat,
                        ) is Some <==> total0 is Some,
                        (spec_vhm_children(
                            d,
                            e,
                            hkt,
                            st,
                            offset as int,
                            count as int,
                            i as int,
                            fuel as nat,
                        ) matches Some(rest) ==> total0->0 == crate::byml::byml_value_hash_map_view(
                            acc@,
                        ) + rest),
                    decreases count - i,
                {
                    let ghost rest_i = spec_vhm_children(
                        d,
                        e,
                        hkt,
                        st,
                        offset as int,
                        count as int,
                        i as int,
                        fuel as nat,
                    );
                    let entry128: u128 = offset as u128 + 4 + 12 * (i as u128);
                    let tagpos128: u128 = offset as u128 + 4 + 12 * (count as u128) + i as u128;
                    if entry128 + 12 > n as u128 || tagpos128 + 1 > n as u128 {
                        proof {
                            assert(rest_i is None);
                        }
                        return Err(Error::InvalidData("Invalid value hash map node"));
                    }
                    let entry = entry128 as usize;
                    let hash = read_u32(self.data, entry, self.endian);
                    let value = read_u32(self.data, entry + 4, self.endian);
                    let aux = read_u32(self.data, entry + 8, self.endian);
                    let ctag = *slice_index_get(self.data, tagpos128 as usize);
                    let t = match NodeType::from_tag(ctag) {
                        None => {
                            proof {
                                assert(rest_i is None);
                            }
                            return Err(Error::InvalidData("Invalid value hash map node"));
                        }
                        Some(t) => t,
                    };
                    let child = BymlNode::new(value, t);
                    match self.node_to_byml(child, fuel - 1) {
                        Err(er) => {
                            proof {
                                assert(rest_i is None);
                            }
                            return Err(er);
                        }
                        Ok(b) => {
                            proof {
                                let rest_next = spec_vhm_children(
                                    d,
                                    e,
                                    hkt,
                                    st,
                                    offset as int,
                                    count as int,
                                    i + 1,
                                    fuel as nat,
                                );
                                assert(rest_i is Some <==> rest_next is Some);
                                crate::byml::lemma_byml_value_hash_map_view_push(
                                    acc@,
                                    (hash, (b, aux)),
                                );
                                if rest_next is Some {
                                    assert(rest_i->0 == seq![(hash, (byml_view(b), aux))]
                                        + rest_next->0);
                                    assert(crate::byml::byml_value_hash_map_view(acc@) + (seq![
                                        (hash, (byml_view(b), aux)),
                                    ] + rest_next->0) =~= crate::byml::byml_value_hash_map_view(
                                        acc@.push((hash, (b, aux))),
                                    ) + rest_next->0);
                                }
                            }
                            acc.push((hash, (b, aux)));
                            i = i + 1;
                        }
                    }
                }
                proof {
                    assert(spec_vhm_children(
                        d,
                        e,
                        hkt,
                        st,
                        offset as int,
                        count as int,
                        count as int,
                        fuel as nat,
                    ) == Some(Seq::<(u32, (BymlVal, u32))>::empty()));
                    assert(total0 is Some);
                    assert(total0->0 =~= crate::byml::byml_value_hash_map_view(acc@));
                }
                Ok(Byml::ValueHashMap(crate::byml::BymlValueHashMap { entries: acc }))
            }
        }
    }

    /// Materializes the whole document: `Null` when the root offset is
    /// zero, else the root node and everything it reaches.
    pub fn to_byml(&self) -> (r: Result<Byml, Error>)
        requires
            self.wf(),
        ensures
            r matches Ok(b) ==> ({
                let root = spec_byml_root_off(self.spec_data(), self.spec_endian());
                if root == 0 {
                    byml_view(b) == BymlVal::Null
                } else {
                    spec_cont_ok(self.spec_data(), root as int) && spec_materialize(
                        self.spec_data(),
                        self.spec_endian(),
                        self.spec_hkt(),
                        self.spec_st(),
                        spec_byml_node(
                            root,
                            spec_node_type_from_tag(self.spec_data()[root as int])->0,
                        ),
                        self.spec_data().len(),
                    ) == Some(byml_view(b))
                }
            }),
            ({
                let root = spec_byml_root_off(self.spec_data(), self.spec_endian());
                r is Err <==> (root != 0 && (!spec_cont_ok(self.spec_data(), root as int)
                    || spec_materialize(
                    self.spec_data(),
                    self.spec_endian(),
                    self.spec_hkt(),
                    self.spec_st(),
                    spec_byml_node(
                        root,
                        spec_node_type_from_tag(self.spec_data()[root as int])->0,
                    ),
                    self.spec_data().len(),
                ) is None))
            }),
            r matches Err(er) ==> er is InvalidData,
    {
        let n: usize = self.data.len();
        match self.root_node_idx {
            None => Ok(Byml::Null),
            Some(off) => {
                if off > n || n - off < 4 {
                    return Err(Error::InvalidData("Invalid root node"));
                }
                let tag = *slice_index_get(self.data, off);
                match NodeType::from_tag(tag) {
                    None => Err(Error::InvalidData("Invalid root node")),
                    Some(t) => self.node_to_byml(BymlNode::new(off as u32, t), n),
                }
            }
        }
    }
}

impl Byml {
    /// Parses a BYML document into an owned tree. Succeeds exactly on a
    /// buffer with a well-formed header, an accepted version, and a root
    /// (when present) whose reachable records all parse.
    pub fn from_binary(data: &[u8]) -> (r: Result<Byml, Error>)
        ensures
            r is Ok <==> spec_parse_byml(data@) is Some,
            r matches Ok(b) ==> spec_parse_byml(data@) == Some(byml_view(b)),
            data@.len() < 16 ==> (r matches Err(e) && e matches Error::InsufficientData(f, w)
                && f == data@.len() && w == 16),
            data@.len() >= 16 && spec_byml_endian(data@) is None ==> (r matches Err(e)
                && e is BadMagic),
            data@.len() >= 16 && spec_byml_endian(data@) is Some
                && !crate::byml::spec_is_valid_version(
                spec_byml_version(data@, spec_byml_endian(data@)->0),
            ) ==> (r matches Err(e) && e matches Error::InvalidVersion(v) && v == spec_byml_version(
                data@,
                spec_byml_endian(data@)->0,
            )),
            data@.len() >= 16 && spec_byml_endian(data@) is Some
                && crate::byml::spec_is_valid_version(
                spec_byml_version(data@, spec_byml_endian(data@)->0),
            ) ==> (r is Ok || (r matches Err(e) && e is InvalidData)),
    {
        let it = match BymlIter::new(data) {
            Err(e) => {
                return Err(e);
            }
            Ok(it) => it,
        };
        it.to_byml()
    }
}

impl<'a> BymlIter<'a> {
    /// Collects the elements of an array node, in order; stops early at
    /// the first broken record. `None` when the node is not an array
    /// with a readable header.
    pub fn iter_array_data(&self, data: BymlNode) -> (r: Option<Vec<BymlNode>>)
        requires
            self.wf(),
        ensures
            ({
                let d = self.spec_data();
                let e = self.spec_endian();
                match data {
                    BymlNode::Array { offset } => {
                        &&& r is Some <==> spec_cont_ok(d, offset as int)
                        &&& r matches Some(v) ==> v@.len() <= spec_cont_count(d, offset as int, e)
                            && forall|j: int|
                            0 <= j < v@.len() ==> spec_array_elem(d, e, offset as int, j, v@[j])
                        &&& (r matches Some(v) && (forall|j: int|
                            0 <= j < spec_cont_count(d, offset as int, e)
                                ==> #[trigger] spec_array_elem_ok(d, e, offset as int, j)))
                            ==> r->0@.len() == spec_cont_count(d, offset as int, e)
                    }
                    _ => r is None,
                }
            }),
    {
        let offset = match data {
            BymlNode::Array { offset } => offset,
            _ => {
                return None;
            }
        };
        let n: usize = self.data.len();
        if offset > n || n - offset < 4 {
            return None;
        }
        match NodeType::from_tag(*slice_index_get(self.data, offset)) {
            None => {
                return None;
            }
            Some(_) => {}
        }
        let count: usize = read_u24(self.data, offset + 1, self.endian) as usize;
        let mut out: Vec<BymlNode> = Vec::new();
        let mut i: usize = 0;
        while i < count
            invariant
                self.wf(),
                i <= count,
                data == (BymlNode::Array { offset }),
                spec_cont_ok(self.spec_data(), offset as int),
                count == spec_cont_count(self.spec_data(), offset as int, self.spec_endian()),
                out@.len() == i,
                forall|j: int|
                    0 <= j < i ==> spec_array_elem(
                        self.spec_data(),
                        self.spec_endian(),
                        offset as int,
                        j,
                        out@[j],
                    ),
            decreases count - i,
        {
            match self.array_get(offset, i) {
                Some(node) => {
                    out.push(node);
                }
                None => {
                    proof {
                        assert(!spec_array_elem_ok(
                            self.spec_data(),
                            self.spec_endian(),
                            offset as int,
                            i as int,
                        ));
                    }
                    return Some(out);
                }
            }
            i = i + 1;
        }
        Some(out)
    }

    /// Collects the key-and-node pairs of a string-keyed map node, in
    /// entry order; stops early at the first broken record or key.
    /// `None` when the node is not a map with a readable header and a
    /// hash-key table.
    pub fn iter_map_data(&self, data: BymlNode) -> (r: Option<Vec<(&'a str, BymlNode)>>)
        requires
            self.wf(),
        ensures
            ({
                let d = self.spec_data();
                let e = self.spec_endian();
                match data {
                    BymlNode::StringMap { offset } => {
                        &&& r is Some <==> (spec_cont_ok(d, offset as int) && spec_table_ok(
                            d,
                            self.spec_hkt(),
                        ))
                        &&& r matches Some(v) ==> v@.len() <= spec_cont_count(d, offset as int, e)
                            && forall|j: int|
                            0 <= j < v@.len() ==> {
                                &&& offset + 4 + 8 * j + 8 <= d.len()
                                &&& spec_table_get(
                                    d,
                                    self.spec_hkt(),
                                    e,
                                    spec_map_key(d, offset as int, e, j) as int,
                                ) == Some((#[trigger] v@[j]).0.spec_bytes())
                                &&& spec_node_type_from_tag(spec_map_tag(d, offset as int, j))
                                    matches Some(t) && v@[j].1 == spec_byml_node(
                                    spec_map_val(d, offset as int, e, j),
                                    t,
                                )
                            }
                        &&& (r matches Some(v) && (forall|j: int|
                            0 <= j < spec_cont_count(d, offset as int, e)
                                ==> #[trigger] spec_map_elem_ok(
                                d,
                                e,
                                self.spec_hkt(),
                                offset as int,
                                j,
                            ))) ==> r->0@.len() == spec_cont_count(d, offset as int, e)
                    }
                    _ => r is None,
                }
            }),
    {
        let offset = match data {
            BymlNode::StringMap { offset } => offset,
            _ => {
                return None;
            }
        };
        let n: usize = self.data.len();
        if offset > n || n - offset < 4 {
            return None;
        }
        match NodeType::from_tag(*slice_index_get(self.data, offset)) {
            None => {
                return None;
            }
            Some(_) => {}
        }
        let hkt_exec: usize = read_u32(self.data, 4, self.endian) as usize;
        if hkt_exec > n || n - hkt_exec < 4 {
            return None;
        }
        if *slice_index_get(self.data, hkt_exec) != 0xc2 {
            return None;
        }
        let count: usize = read_u24(self.data, offset + 1, self.endian) as usize;
        let mut out: Vec<(&'a str, BymlNode)> = Vec::new();
        let mut i: usize = 0;
        while i < count
            invariant
                self.wf(),
                i <= count,
                data == (BymlNode::StringMap { offset }),
                spec_cont_ok(self.spec_data(), offset as int),
                spec_table_ok(self.spec_data(), self.spec_hkt()),
                hkt_exec == self.spec_hkt(),
                n == self.spec_data().len(),
                count == spec_cont_count(self.spec_data(), offset as int, self.spec_endian()),
                out@.len() == i,
                forall|j: int|
                    0 <= j < i ==> {
                        &&& offset + 4 + 8 * j + 8 <= self.spec_data().len()
                        &&& spec_table_get(
                            self.spec_data(),
                            self.spec_hkt(),
                            self.spec_endian(),
                            spec_map_key(
                                self.spec_data(),
                                offset as int,
                                self.spec_endian(),
                                j,
                            ) as int,
                        ) == Some((#[trigger] out@[j]).0.spec_bytes())
                        &&& spec_node_type_from_tag(
                            spec_map_tag(self.spec_data(), offset as int, j),
                        ) matches Some(t) && out@[j].1 == spec_byml_node(
                            spec_map_val(self.spec_data(), offset as int, self.spec_endian(), j),
                            t,
                        )
                    },
            decreases count - i,
        {
            let ghost ok_i = spec_map_elem_ok(
                self.spec_data(),
                self.spec_endian(),
                self.spec_hkt(),
                offset as int,
                i as int,
            );
            let entry128: u128 = offset as u128 + 4 + 8 * (i as u128);
            if entry128 + 8 > n as u128 {
                proof {
                    assert(!ok_i);
                }
                return Some(out);
            }
            let entry = entry128 as usize;
            let key_index = read_u24(self.data, entry, self.endian);
            let ctag = *slice_index_get(self.data, entry + 3);
            let value = read_u32(self.data, entry + 4, self.endian);
            let t = match NodeType::from_tag(ctag) {
                None => {
                    proof {
                        assert(!ok_i);
                    }
                    return Some(out);
                }
                Some(t) => t,
            };
            let ks = match self.table_get(hkt_exec, key_index) {
                None => {
                    proof {
                        assert(!ok_i);
                    }
                    return Some(out);
                }
                Some(ks) => ks,
            };
            out.push((ks, BymlNode::new(value, t)));
            i = i + 1;
        }
        Some(out)
    }

    /// Collects the hash-and-node pairs of a u32-keyed map node, in
    /// entry order; stops early at the first broken record. `None` when
    /// the node is not a map of the requested kind with a readable
    /// header.
    fn iter_hashes(&self, offset: usize, wide: bool) -> (r: Option<Vec<(u32, BymlNode)>>)
        requires
            self.wf(),
        ensures
            ({
                let d = self.spec_data();
                let e = self.spec_endian();
                let size = spec_hm_size(wide);
                &&& r is Some <==> spec_cont_ok(d, offset as int)
                &&& r matches Some(v) ==> v@.len() <= spec_cont_count(d, offset as int, e)
                    && forall|j: int|
                    0 <= j < v@.len() ==> {
                        &&& (#[trigger] v@[j]).0 == spec_hm_hash(d, offset as int, e, j, size)
                        &&& spec_node_type_from_tag(spec_hm_tag(d, offset as int, e, j, size))
                            matches Some(t) && v@[j].1 == spec_byml_node(
                            spec_hm_val(d, offset as int, e, j, size),
                            t,
                        )
                    }
                &&& (r matches Some(v) && (forall|j: int|
                    0 <= j < spec_cont_count(d, offset as int, e) ==> #[trigger] spec_hm_elem_ok(
                        d,
                        e,
                        offset as int,
                        j,
                        size,
                    ))) ==> r->0@.len() == spec_cont_count(d, offset as int, e)
            }),
    {
        let n: usize = self.data.len();
        if offset > n || n - offset < 4 {
            return None;
        }
        match NodeType::from_tag(*slice_index_get(self.data, offset)) {
            None => {
                return None;
            }
            Some(_) => {}
        }
        let count: usize = read_u24(self.data, offset + 1, self.endian) as usize;
        let mut out: Vec<(u32, BymlNode)> = Vec::new();
        let mut i: usize = 0;
        while i < count
            invariant
                self.wf(),
                i <= count,
                spec_cont_ok(self.spec_data(), offset as int),
                n == self.spec_data().len(),
                count == spec_cont_count(self.spec_data(), offset as int, self.spec_endian()),
                out@.len() == i,
                forall|j: int|
                    0 <= j < i ==> {
                        &&& (#[trigger] out@[j]).0 == spec_hm_hash(
                            self.spec_data(),
                            offset as int,
                            self.spec_endian(),
                            j,
                            spec_hm_size(wide),
                        )
                        &&& spec_node_type_from_tag(
                            spec_hm_tag(
                                self.spec_data(),
                                offset as int,
                                self.spec_endian(),
                                j,
                                spec_hm_size(wide),
                            ),
                        ) matches Some(t) && out@[j].1 == spec_byml_node(
                            spec_hm_val(
                                self.spec_data(),
                                offset as int,
                                self.spec_endian(),
                                j,
                                spec_hm_size(wide),
                            ),
                            t,
                        )
                    },
            decreases count - i,
        {
            let entry128: u128 = if wide {
                offset as u128 + 4 + 12 * (i as u128)
            } else {
                offset as u128 + 4 + 8 * (i as u128)
            };
            let tagpos128: u128 = if wide {
                offset as u128 + 4 + 12 * (count as u128) + i as u128
            } else {
                offset as u128 + 4 + 8 * (count as u128) + i as u128
            };
            if entry128 + 8 > n as u128 || tagpos128 + 1 > n as u128 {
                proof {
                    assert(!spec_hm_elem_ok(
                        self.spec_data(),
                        self.spec_endian(),
                        offset as int,
                        i as int,
                        spec_hm_size(wide),
                    ));
                }
                return Some(out);
            }
            let entry = entry128 as usize;
            let hash = read_u32(self.data, entry, self.endian);
            let value = read_u32(self.data, entry + 4, self.endian);
            let ctag = *slice_index_get(self.data, tagpos128 as usize);
            let t = match NodeType::from_tag(ctag) {
                None => {
                    proof {
                        assert(!spec_hm_elem_ok(
                            self.spec_data(),
                            self.spec_endian(),
                            offset as int,
                            i as int,
                            spec_hm_size(wide),
                        ));
                    }
                    return Some(out);
                }
                Some(t) => t,
            };
            out.push((hash, BymlNode::new(value, t)));
            i = i + 1;
        }
        Some(out)
    }

    /// Collects the hash-and-node pairs of a u32-keyed map node, in
    /// entry order; stops early at the first broken record.
    pub fn iter_hash_map_data(&self, data: BymlNode) -> (r: Option<Vec<(u32, BymlNode)>>)
        requires
            self.wf(),
        ensures
            ({
                let d = self.spec_data();
                let e = self.spec_endian();
                match data {
                    BymlNode::HashMap { offset } => {
                        &&& r is Some <==> spec_cont_ok(d, offset as int)
                        &&& r matches Some(v) ==> v@.len() <= spec_cont_count(d, offset as int, e)
                            && forall|j: int|
                            0 <= j < v@.len() ==> {
                                &&& (#[trigger] v@[j]).0 == spec_hm_hash(
                                    d,
                                    offset as int,
                                    e,
                                    j,
                                    spec_hm_size(false),
                                )
                                &&& spec_node_type_from_tag(
                                    spec_hm_tag(d, offset as int, e, j, spec_hm_size(false)),
                                ) matches Some(t) && v@[j].1 == spec_byml_node(
                                    spec_hm_val(d, offset as int, e, j, spec_hm_size(false)),
                                    t,
                                )
                            }
                        &&& (r matches Some(v) && (forall|j: int|
                            0 <= j < spec_cont_count(d, offset as int, e)
                                ==> #[trigger] spec_hm_elem_ok(
                                d,
                                e,
                                offset as int,
                                j,
                                spec_hm_size(false),
                            ))) ==> r->0@.len() == spec_cont_count(d, offset as int, e)
                    },
                    _ => r is None,
                }
            }),
    {
        match data {
            BymlNode::HashMap { offset } => self.iter_hashes(offset, false),
            _ => None,
        }
    }

    /// Collects the hash-and-node pairs of a u32-keyed map node with
    /// auxiliary values, in entry order; the pairs leave the auxiliary
    /// words out, as the record's node reference does.
    pub fn iter_value_hash_map_data(&self, data: BymlNode) -> (r: Option<Vec<(u32, BymlNode)>>)
        requires
            self.wf(),
        ensures
            ({
                let d = self.spec_data();
                let e = self.spec_endian();
                match data {
                    BymlNode::ValueHashMap { offset } => {
                        &&& r is Some <==> spec_cont_ok(d, offset as int)
                        &&& r matches Some(v) ==> v@.len() <= spec_cont_count(d, offset as int, e)
                            && forall|j: int|
                            0 <= j < v@.len() ==> {
                                &&& (#[trigger] v@[j]).0 == spec_hm_hash(
                                    d,
                                    offset as int,
                                    e,
                                    j,
                                    spec_hm_size(true),
                                )
                                &&& spec_node_type_from_tag(
                                    spec_hm_tag(d, offset as int, e, j, spec_hm_size(true)),
                                ) matches Some(t) && v@[j].1 == spec_byml_node(
                                    spec_hm_val(d, offset as int, e, j, spec_hm_size(true)),
                                    t,
                                )
                            }
                        &&& (r matches Some(v) && (forall|j: int|
                            0 <= j < spec_cont_count(d, offset as int, e)
                                ==> #[trigger] spec_hm_elem_ok(
                                d,
                                e,
                                offset as int,
                                j,
                                spec_hm_size(true),
                            ))) ==> r->0@.len() == spec_cont_count(d, offset as int, e)
                    },
                    _ => r is None,
                }
            }),
    {
        match data {
            BymlNode::ValueHashMap { offset } => self.iter_hashes(offset, true),
            _ => None,
        }
    }

    /// Collects the elements of the root container when it is an array.
    pub fn iter_as_array(&self) -> (r: Option<Vec<BymlNode>>)
        requires
            self.wf(),
        ensures
            self.spec_root_type() != Some(NodeType::Array) ==> r is None,
            self.spec_root_type() == Some(NodeType::Array) ==> r is Some,
            ({
                let d = self.spec_data();
                let e = self.spec_endian();
                let off = self.spec_root()->0 as int;
                self.spec_root_type() == Some(NodeType::Array) ==> {
                    &&& r matches Some(v) ==> v@.len() <= spec_cont_count(d, off, e) && forall|
                        j: int,
                    | 0 <= j < v@.len() ==> spec_array_elem(d, e, off, j, v@[j])
                    &&& (r matches Some(v) && (forall|j: int|
                        0 <= j < spec_cont_count(d, off, e) ==> #[trigger] spec_array_elem_ok(
                            d,
                            e,
                            off,
                            j,
                        ))) ==> r->0@.len() == spec_cont_count(d, off, e)
                }
            }),
    {
        if self.is_array() {
            match self.root_node() {
                Some(node) => self.iter_array_data(node),
                None => None,
            }
        } else {
            None
        }
    }

    /// Collects the key-and-node pairs of the root container when it is
    /// a string-keyed map.
    pub fn iter_as_map(&self) -> (r: Option<Vec<(&'a str, BymlNode)>>)
        requires
            self.wf(),
        ensures
            self.spec_root_type() != Some(NodeType::StringMap) ==> r is None,
            self.spec_root_type() == Some(NodeType::StringMap) ==> (r is Some <==> spec_table_ok(
                self.spec_data(),
                self.spec_hkt(),
            )),
            ({
                let d = self.spec_data();
                let e = self.spec_endian();
                let off = self.spec_root()->0 as int;
                self.spec_root_type() == Some(NodeType::StringMap) ==> {
                    &&& r matches Some(v) ==> v@.len() <= spec_cont_count(d, off, e) && forall|
                        j: int,
                    |
                        0 <= j < v@.len() ==> {
                            &&& off + 4 + 8 * j + 8 <= d.len()
                            &&& spec_table_get(
                                d,
                                self.spec_hkt(),
                                e,
                                spec_map_key(d, off, e, j) as int,
                            ) == Some((#[trigger] v@[j]).0.spec_bytes())
                            &&& spec_node_type_from_tag(spec_map_tag(d, off, j)) matches Some(t)
                                && v@[j].1 == spec_byml_node(spec_map_val(d, off, e, j), t)
                        }
                    &&& (r matches Some(v) && (forall|j: int|
                        0 <= j < spec_cont_count(d, off, e) ==> #[trigger] spec_map_elem_ok(
                            d,
                            e,
                            self.spec_hkt(),
                            off,
                            j,
                        ))) ==> r->0@.len() == spec_cont_count(d, off, e)
                }
            }),
    {
        if self.is_map() {
            match self.root_node() {
                Some(node) => self.iter_map_data(node),
                None => None,
            }
        } else {
            None
        }
    }

    /// Collects the hash-and-node pairs of the root container when it is
    /// a u32-keyed map.
    pub fn iter_as_hash_map(&self) -> (r: Option<Vec<(u32, BymlNode)>>)
        requires
            self.wf(),
        ensures
            self.spec_root_type() != Some(NodeType::HashMap) ==> r is None,
            self.spec_root_type() == Some(NodeType::HashMap) ==> r is Some,
            ({
                let d = self.spec_data();
                let e = self.spec_endian();
                let off = self.spec_root()->0 as int;
                self.spec_root_type() == Some(NodeType::HashMap) ==> {
                    &&& r matches Some(v) ==> v@.len() <= spec_cont_count(d, off, e) && forall|
                        j: int,
                    |
                        0 <= j < v@.len() ==> {
                            &&& (#[trigger] v@[j]).0 == spec_hm_hash(
                                d,
                                off,
                                e,
                                j,
                                spec_hm_size(false),
                            )
                            &&& spec_node_type_from_tag(
                                spec_hm_tag(d, off, e, j, spec_hm_size(false)),
                            ) matches Some(t) && v@[j].1 == spec_byml_node(
                                spec_hm_val(d, off, e, j, spec_hm_size(false)),
                                t,
                            )
                        }
                    &&& (r matches Some(v) && (forall|j: int|
                        0 <= j < spec_cont_count(d, off, e) ==> #[trigger] spec_hm_elem_ok(
                            d,
                            e,
                            off,
                            j,
                            spec_hm_size(false),
                        ))) ==> r->0@.len() == spec_cont_count(d, off, e)
                }
            }),
    {
        if self.is_hash_map() {
            match self.root_node() {
                Some(node) => self.iter_hash_map_data(node),
                None => None,
            }
        } else {
            None
        }
    }

    /// Collects the hash-and-node pairs of the root container when it is
    /// a u32-keyed map with auxiliary values.
    pub fn iter_as_value_hash_map(&self) -> (r: Option<Vec<(u32, BymlNode)>>)
        requires
            self.wf(),
        ensures
            self.spec_root_type() != Some(NodeType::ValueHashMap) ==> r is None,
            self.spec_root_type() == Some(NodeType::ValueHashMap) ==> r is Some,
            ({
                let d = self.spec_data();
                let e = self.spec_endian();
                let off = self.spec_root()->0 as int;
                self.spec_root_type() == Some(NodeType::ValueHashMap) ==> {
                    &&& r matches Some(v) ==> v@.len() <= spec_cont_count(d, off, e) && forall|
                        j: int,
                    |
                        0 <= j < v@.len() ==> {
                            &&& (#[trigger] v@[j]).0 == spec_hm_hash(
                                d,
                                off,
                                e,
                                j,
                                spec_hm_size(true),
                            )
                            &&& spec_node_type_from_tag(
                                spec_hm_tag(d, off, e, j, spec_hm_size(true)),
                            ) matches Some(t) && v@[j].1 == spec_byml_node(
                                spec_hm_val(d, off, e, j, spec_hm_size(true)),
                                t,
                            )
                        }
                    &&& (r matches Some(v) && (forall|j: int|
                        0 <= j < spec_cont_count(d, off, e) ==> #[trigger] spec_hm_elem_ok(
                            d,
                            e,
                            off,
                            j,
                            spec_hm_size(true),
                        ))) ==> r->0@.len() == spec_cont_count(d, off, e)
                }
            }),
    {
        if self.is_value_hash_map() {
            match self.root_node() {
                Some(node) => self.iter_value_hash_map_data(node),
                None => None,
            }
        } else {
            None
        }
    }
}

} // verus!
