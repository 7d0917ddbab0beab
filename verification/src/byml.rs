//! The materialized BYML tree: a tagged sum of scalars, strings, blobs and
//! containers, together with the node-type tags of the binary format and
//! insertion-ordered maps for the three keyed container kinds.

use vstd::prelude::*;
use vstd::string::StringSliceAdditionalSpecFns;
use vstd::utf8::encode_utf8;

use crate::util::str_eq;
use crate::Error;

verus! {

broadcast use vstd::seq::axiom_seq_index_decreases, vstd::std_specs::vec::axiom_vec_decreases_to_view;

/// The one-byte type code of a BYML node.
#[derive(Debug, Clone, Copy, PartialEq, Eq, Structural)]
pub enum NodeType {
    HashMap,
    ValueHashMap,
    String,
    Binary,
    File,
    Array,
    StringMap,
    StringTable,
    Bool,
    I32,
    Float,
    U32,
    I64,
    U64,
    Double,
    Null,
}

/// The tag byte that encodes a node type.
pub open spec fn spec_node_type_tag(t: NodeType) -> u8 {
    match t {
        NodeType::HashMap => 0x20,
        NodeType::ValueHashMap => 0x21,
        NodeType::String => 0xa0,
        NodeType::Binary => 0xa1,
        NodeType::File => 0xa2,
        NodeType::Array => 0xc0,
        NodeType::StringMap => 0xc1,
        NodeType::StringTable => 0xc2,
        NodeType::Bool => 0xd0,
        NodeType::I32 => 0xd1,
        NodeType::Float => 0xd2,
        NodeType::U32 => 0xd3,
        NodeType::I64 => 0xd4,
        NodeType::U64 => 0xd5,
        NodeType::Double => 0xd6,
        NodeType::Null => 0xff,
    }
}

/// The node type a tag byte encodes, if any.
pub open spec fn spec_node_type_from_tag(b: u8) -> Option<NodeType> {
    if b == 0x20 {
        Some(NodeType::HashMap)
    } else if b == 0x21 {
        Some(NodeType::ValueHashMap)
    } else if b == 0xa0 {
        Some(NodeType::String)
    } else if b == 0xa1 {
        Some(NodeType::Binary)
    } else if b == 0xa2 {
        Some(NodeType::File)
    } else if b == 0xc0 {
        Some(NodeType::Array)
    } else if b == 0xc1 {
        Some(NodeType::StringMap)
    } else if b == 0xc2 {
        Some(NodeType::StringTable)
    } else if b == 0xd0 {
        Some(NodeType::Bool)
    } else if b == 0xd1 {
        Some(NodeType::I32)
    } else if b == 0xd2 {
        Some(NodeType::Float)
    } else if b == 0xd3 {
        Some(NodeType::U32)
    } else if b == 0xd4 {
        Some(NodeType::I64)
    } else if b == 0xd5 {
        Some(NodeType::U64)
    } else if b == 0xd6 {
        Some(NodeType::Double)
    } else if b == 0xff {
        Some(NodeType::Null)
    } else {
        None
    }
}

impl NodeType {
    /// The tag byte this node type is written as.
    pub fn tag(self) -> (r: u8)
        ensures
            r == spec_node_type_tag(self),
    {
        match self {
            NodeType::HashMap => 0x20,
            NodeType::ValueHashMap => 0x21,
            NodeType::String => 0xa0,
            NodeType::Binary => 0xa1,
            NodeType::File => 0xa2,
            NodeType::Array => 0xc0,
            NodeType::StringMap => 0xc1,
            NodeType::StringTable => 0xc2,
            NodeType::Bool => 0xd0,
            NodeType::I32 => 0xd1,
            NodeType::Float => 0xd2,
            NodeType::U32 => 0xd3,
            NodeType::I64 => 0xd4,
            NodeType::U64 => 0xd5,
            NodeType::Double => 0xd6,
            NodeType::Null => 0xff,
        }
    }

    /// Decodes a tag byte; `None` for a byte that is no node type.
    pub fn from_tag(b: u8) -> (r: Option<NodeType>)
        ensures
            r == spec_node_type_from_tag(b),
    {
        match b {
            0x20 => Some(NodeType::HashMap),
            0x21 => Some(NodeType::ValueHashMap),
            0xa0 => Some(NodeType::String),
            0xa1 => Some(NodeType::Binary),
            0xa2 => Some(NodeType::File),
            0xc0 => Some(NodeType::Array),
            0xc1 => Some(NodeType::StringMap),
            0xc2 => Some(NodeType::StringTable),
            0xd0 => Some(NodeType::Bool),
            0xd1 => Some(NodeType::I32),
            0xd2 => Some(NodeType::Float),
            0xd3 => Some(NodeType::U32),
            0xd4 => Some(NodeType::I64),
            0xd5 => Some(NodeType::U64),
            0xd6 => Some(NodeType::Double),
            0xff => Some(NodeType::Null),
            _ => None,
        }
    }
}

/// Whether a node type is one of the four container kinds.
pub open spec fn spec_is_container_type(t: NodeType) -> bool {
    t is Array || t is StringMap || t is ValueHashMap || t is HashMap
}

/// Checks whether a node type is one of the four container kinds.
pub fn is_container_type(node_type: NodeType) -> (r: bool)
    ensures
        r == spec_is_container_type(node_type),
{
    match node_type {
        NodeType::Array | NodeType::StringMap | NodeType::ValueHashMap | NodeType::HashMap => true,
        _ => false,
    }
}

/// Whether a BYML document version is accepted (1 through 7).
pub open spec fn spec_is_valid_version(version: u16) -> bool {
    1 <= version < 8
}

/// Checks whether a BYML document version is accepted (1 through 7).
pub fn is_valid_version(version: u16) -> (r: bool)
    ensures
        r == spec_is_valid_version(version),
{
    version >= 1 && version < 8
}

/// Represents a Nintendo binary YAML (BYML) document or node.
///
/// `Float` and `Double` hold the IEEE-754 bit patterns of the stored
/// values; the binary format itself only ever moves those bit patterns.
#[derive(Debug, PartialEq, Hash)]
pub enum Byml {
    /// String value.
    String(String),
    /// Binary data with a 4-byte size preamble in the encoded form.
    BinaryData(Vec<u8>),
    /// File data with an 8-byte preamble in the encoded form.
    FileData(Vec<u8>),
    /// Array of BYML nodes.
    Array(Vec<Byml>),
    /// Map of BYML nodes with string keys.
    StringMap(BymlMap),
    /// Map of BYML nodes with u32 keys.
    HashMap(BymlHashMap),
    /// Map of BYML nodes with u32 keys and an auxiliary u32 per entry.
    ValueHashMap(BymlValueHashMap),
    /// Boolean value.
    Bool(bool),
    /// 32-bit signed integer.
    I32(i32),
    /// IEEE-754 binary32 value, as its bit pattern.
    Float(u32),
    /// 32-bit unsigned integer.
    U32(u32),
    /// 64-bit signed integer.
    I64(i64),
    /// 64-bit unsigned integer.
    U64(u64),
    /// IEEE-754 binary64 value, as its bit pattern.
    Double(u64),
    /// Null value.
    Null,
}

/// A string-keyed map of BYML nodes that preserves insertion order.
#[derive(Debug, PartialEq, Hash)]
pub struct BymlMap {
    pub entries: Vec<(String, Byml)>,
}

/// A u32-keyed map of BYML nodes that preserves insertion order.
#[derive(Debug, PartialEq, Hash)]
pub struct BymlHashMap {
    pub entries: Vec<(u32, Byml)>,
}

/// A u32-keyed map of `(node, u32)` pairs that preserves insertion order.
#[derive(Debug, PartialEq, Hash)]
pub struct BymlValueHashMap {
    pub entries: Vec<(u32, (Byml, u32))>,
}

/// The mathematical shape of a BYML node: strings and blobs as byte
/// strings, containers as sequences of entries.
pub enum BymlVal {
    String(Seq<u8>),
    BinaryData(Seq<u8>),
    FileData(Seq<u8>),
    Array(Seq<BymlVal>),
    StringMap(Seq<(Seq<u8>, BymlVal)>),
    HashMap(Seq<(u32, BymlVal)>),
    ValueHashMap(Seq<(u32, (BymlVal, u32))>),
    Bool(bool),
    I32(i32),
    Float(u32),
    U32(u32),
    I64(i64),
    U64(u64),
    Double(u64),
    Null,
}

/// The mathematical value of a BYML tree. String payloads and map keys
/// appear as their UTF-8 bytes, the form the binary encoding stores.
pub open spec fn byml_view(b: Byml) -> BymlVal
    decreases b,
{
    match b {
        Byml::String(s) => BymlVal::String(encode_utf8(s@)),
        Byml::BinaryData(d) => BymlVal::BinaryData(d@),
        Byml::FileData(d) => BymlVal::FileData(d@),
        Byml::Array(v) => BymlVal::Array(byml_seq_view(v@)),
        Byml::StringMap(m) => BymlVal::StringMap(byml_map_view(m.entries@)),
        Byml::HashMap(m) => BymlVal::HashMap(byml_hash_map_view(m.entries@)),
        Byml::ValueHashMap(m) => BymlVal::ValueHashMap(byml_value_hash_map_view(m.entries@)),
        Byml::Bool(v) => BymlVal::Bool(v),
        Byml::I32(v) => BymlVal::I32(v),
        Byml::Float(v) => BymlVal::Float(v),
        Byml::U32(v) => BymlVal::U32(v),
        Byml::I64(v) => BymlVal::I64(v),
        Byml::U64(v) => BymlVal::U64(v),
        Byml::Double(v) => BymlVal::Double(v),
        Byml::Null => BymlVal::Null,
    }
}

/// The values of a sequence of BYML nodes.
pub open spec fn byml_seq_view(s: Seq<Byml>) -> Seq<BymlVal>
    decreases s,
{
    if s.len() == 0 {
        Seq::empty()
    } else {
        seq![byml_view(s[0])] + byml_seq_view(s.drop_first())
    }
}

/// The values of the entries of a string-keyed map.
pub open spec fn byml_map_view(s: Seq<(String, Byml)>) -> Seq<(Seq<u8>, BymlVal)>
    decreases s,
{
    if s.len() == 0 {
        Seq::empty()
    } else {
        seq![(encode_utf8(s[0].0@), byml_view(s[0].1))] + byml_map_view(s.drop_first())
    }
}

/// The values of the entries of a u32-keyed map.
pub open spec fn byml_hash_map_view(s: Seq<(u32, Byml)>) -> Seq<(u32, BymlVal)>
    decreases s,
{
    if s.len() == 0 {
        Seq::empty()
    } else {
        seq![(s[0].0, byml_view(s[0].1))] + byml_hash_map_view(s.drop_first())
    }
}

/// The values of the entries of a u32-keyed map with auxiliary values.
pub open spec fn byml_value_hash_map_view(s: Seq<(u32, (Byml, u32))>) -> Seq<
    (u32, (BymlVal, u32)),
>
    decreases s,
{
    if s.len() == 0 {
        Seq::empty()
    } else {
        seq![(s[0].0, (byml_view(s[0].1.0), s[0].1.1))] + byml_value_hash_map_view(s.drop_first())
    }
}

/// The sequence view is elementwise: as long as its input, with each
/// element viewed.
pub proof fn lemma_byml_seq_view(s: Seq<Byml>)
    ensures
        byml_seq_view(s).len() == s.len(),
        forall|i: int| 0 <= i < s.len() ==> byml_seq_view(s)[i] == byml_view(s[i]),
    decreases s.len(),
{
    if s.len() > 0 {
        lemma_byml_seq_view(s.drop_first());
        assert forall|i: int| 0 <= i < s.len() implies byml_seq_view(s)[i] == byml_view(s[i]) by {
            if i > 0 {
                assert(s.drop_first()[i - 1] == s[i]);
                assert(byml_seq_view(s)[i] == byml_seq_view(s.drop_first())[i - 1]);
            }
        }
    }
}

/// Appending one node appends its view.
pub proof fn lemma_byml_seq_view_push(s: Seq<Byml>, x: Byml)
    ensures
        byml_seq_view(s.push(x)) =~= byml_seq_view(s) + seq![byml_view(x)],
{
    lemma_byml_seq_view(s.push(x));
    lemma_byml_seq_view(s);
}

/// The string-keyed entry view is elementwise.
pub proof fn lemma_byml_map_view(s: Seq<(String, Byml)>)
    ensures
        byml_map_view(s).len() == s.len(),
        forall|i: int|
            0 <= i < s.len() ==> byml_map_view(s)[i] == (encode_utf8(s[i].0@), byml_view(s[i].1)),
    decreases s.len(),
{
    if s.len() > 0 {
        lemma_byml_map_view(s.drop_first());
        assert forall|i: int|
            0 <= i < s.len() implies byml_map_view(s)[i] == (
            encode_utf8(s[i].0@),
            byml_view(s[i].1),
        ) by {
            if i > 0 {
                assert(s.drop_first()[i - 1] == s[i]);
                assert(byml_map_view(s)[i] == byml_map_view(s.drop_first())[i - 1]);
            }
        }
    }
}

/// Appending one string-keyed entry appends its view.
pub proof fn lemma_byml_map_view_push(s: Seq<(String, Byml)>, x: (String, Byml))
    ensures
        byml_map_view(s.push(x)) =~= byml_map_view(s) + seq![(encode_utf8(x.0@), byml_view(x.1))],
{
    lemma_byml_map_view(s.push(x));
    lemma_byml_map_view(s);
}

/// The u32-keyed entry view is elementwise.
pub proof fn lemma_byml_hash_map_view(s: Seq<(u32, Byml)>)
    ensures
        byml_hash_map_view(s).len() == s.len(),
        forall|i: int|
            0 <= i < s.len() ==> byml_hash_map_view(s)[i] == (s[i].0, byml_view(s[i].1)),
    decreases s.len(),
{
    if s.len() > 0 {
        lemma_byml_hash_map_view(s.drop_first());
        assert forall|i: int|
            0 <= i < s.len() implies byml_hash_map_view(s)[i] == (s[i].0, byml_view(s[i].1)) by {
            if i > 0 {
                assert(s.drop_first()[i - 1] == s[i]);
                assert(byml_hash_map_view(s)[i] == byml_hash_map_view(s.drop_first())[i - 1]);
            }
        }
    }
}

/// Appending one u32-keyed entry appends its view.
pub proof fn lemma_byml_hash_map_view_push(s: Seq<(u32, Byml)>, x: (u32, Byml))
    ensures
        byml_hash_map_view(s.push(x)) =~= byml_hash_map_view(s) + seq![(x.0, byml_view(x.1))],
{
    lemma_byml_hash_map_view(s.push(x));
    lemma_byml_hash_map_view(s);
}

/// The auxiliary-value entry view is elementwise.
pub proof fn lemma_byml_value_hash_map_view(s: Seq<(u32, (Byml, u32))>)
    ensures
        byml_value_hash_map_view(s).len() == s.len(),
        forall|i: int|
            0 <= i < s.len() ==> byml_value_hash_map_view(s)[i] == (
                s[i].0,
                (byml_view(s[i].1.0), s[i].1.1),
            ),
    decreases s.len(),
{
    if s.len() > 0 {
        lemma_byml_value_hash_map_view(s.drop_first());
        assert forall|i: int|
            0 <= i < s.len() implies byml_value_hash_map_view(s)[i] == (
            s[i].0,
            (byml_view(s[i].1.0), s[i].1.1),
        ) by {
            if i > 0 {
                assert(s.drop_first()[i - 1] == s[i]);
                assert(byml_value_hash_map_view(s)[i] == byml_value_hash_map_view(
                    s.drop_first(),
                )[i - 1]);
            }
        }
    }
}

/// Appending one auxiliary-value entry appends its view.
pub proof fn lemma_byml_value_hash_map_view_push(s: Seq<(u32, (Byml, u32))>, x: (u32, (Byml, u32)))
    ensures
        byml_value_hash_map_view(s.push(x)) =~= byml_value_hash_map_view(s) + seq![
            (x.0, (byml_view(x.1.0), x.1.1)),
        ],
{
    lemma_byml_value_hash_map_view(s.push(x));
    lemma_byml_value_hash_map_view(s);
}

impl View for Byml {
    type V = BymlVal;

    open spec fn view(&self) -> BymlVal {
        byml_view(*self)
    }
}

impl BymlMap {
    /// The entries as a sequence, in insertion order.
    pub open spec fn view(self) -> Seq<(String, Byml)> {
        self.entries@
    }

    /// No two entries share a key.
    pub open spec fn wf(self) -> bool {
        forall|i: int, j: int|
            0 <= i < j < self.view().len() ==> self.view()[i].0@ != self.view()[j].0@
    }

    /// An empty map.
    pub fn new() -> (r: BymlMap)
        ensures
            r.view() =~= Seq::<(String, Byml)>::empty(),
            r.wf(),
    {
        BymlMap { entries: Vec::new() }
    }

    /// The number of entries.
    pub fn len(&self) -> (r: usize)
        ensures
            r == self.view().len(),
    {
        self.entries.len()
    }

    /// The entry at a position, in insertion order.
    pub fn entry_at(&self, i: usize) -> (r: &(String, Byml))
        requires
            i < self.view().len(),
        ensures
            *r == self.view()[i as int],
    {
        &self.entries[i]
    }

    /// Looks a key up by linear scan; the unique entry with that key when
    /// the map is well formed.
    pub fn get(&self, key: &str) -> (r: Option<&Byml>)
        ensures
            match r {
                Some(v) => exists|i: int|
                    0 <= i < self.view().len() && self.view()[i].0@ == key@ && *v == self.view()[
                        i
                    ].1,
                None => forall|i: int| 0 <= i < self.view().len() ==> self.view()[i].0@ != key@,
            },
    {
        let n = self.entries.len();
        let mut i: usize = 0;
        while i < n
            invariant
                i <= n,
                n == self.view().len(),
                forall|j: int| 0 <= j < i ==> self.view()[j].0@ != key@,
            decreases n - i,
        {
            if str_eq(self.entries[i].0.as_str(), key) {
                return Some(&self.entries[i].1);
            }
            i = i + 1;
        }
        None
    }

    /// Inserts a value: replaces the value of an existing key in place,
    /// else appends a new entry.
    pub fn insert(&mut self, key: String, value: Byml)
        requires
            old(self).wf(),
        ensures
            final(self).wf(),
            final(self).contains_key(key@),
            (exists|i: int|
                {
                    &&& 0 <= i < old(self).view().len()
                    &&& old(self).view()[i].0@ == key@
                    &&& final(self).view() =~= old(self).view().update(i, (key, value))
                }) || (!old(self).contains_key(key@) && final(self).view() =~= old(
                self,
            ).view().push((key, value))),
    {
        let n = self.entries.len();
        let mut i: usize = 0;
        while i < n
            invariant
                i <= n,
                n == self.view().len(),
                old(self).wf(),
                self.view() == old(self).view(),
                forall|j: int| 0 <= j < i ==> self.view()[j].0@ != key@,
            decreases n - i,
        {
            if str_eq(self.entries[i].0.as_str(), key.as_str()) {
                proof {
                    assert(old(self).view()[i as int].0@ == key@);
                }
                self.entries.set(i, (key, value));
                proof {
                    assert(self.view() =~= old(self).view().update(i as int, (key, value)));
                    assert(self.view()[i as int].0@ == key@);
                    assert forall|p: int, q: int|
                        0 <= p < q < self.view().len() implies self.view()[p].0@ != self.view()[
                        q
                    ].0@ by {
                        assert(old(self).view()[p].0@ != old(self).view()[q].0@);
                    }
                }
                return ;
            }
            i = i + 1;
        }
        self.entries.push((key, value));
        proof {
            assert(self.view() =~= old(self).view().push((key, value)));
            assert(self.view()[old(self).view().len() as int].0@ == key@);
            assert forall|p: int, q: int|
                0 <= p < q < self.view().len() implies self.view()[p].0@ != self.view()[q].0@ by {
                if q < old(self).view().len() {
                    assert(old(self).view()[p].0@ != old(self).view()[q].0@);
                }
            }
        }
    }

    /// Whether some entry has this key.
    pub open spec fn contains_key(self, key: Seq<char>) -> bool {
        exists|i: int| 0 <= i < self.view().len() && self.view()[i].0@ == key
    }
}

impl BymlHashMap {
    /// The entries as a sequence, in insertion order.
    pub open spec fn view(self) -> Seq<(u32, Byml)> {
        self.entries@
    }

    /// No two entries share a key.
    pub open spec fn wf(self) -> bool {
        forall|i: int, j: int|
            0 <= i < j < self.view().len() ==> self.view()[i].0 != self.view()[j].0
    }

    /// An empty map.
    pub fn new() -> (r: BymlHashMap)
        ensures
            r.view() =~= Seq::<(u32, Byml)>::empty(),
            r.wf(),
    {
        BymlHashMap { entries: Vec::new() }
    }

    /// The number of entries.
    pub fn len(&self) -> (r: usize)
        ensures
            r == self.view().len(),
    {
        self.entries.len()
    }

    /// The entry at a position, in insertion order.
    pub fn entry_at(&self, i: usize) -> (r: &(u32, Byml))
        requires
            i < self.view().len(),
        ensures
            *r == self.view()[i as int],
    {
        &self.entries[i]
    }

    /// Looks a key up by linear scan; the unique entry with that key when
    /// the map is well formed.
    pub fn get(&self, key: u32) -> (r: Option<&Byml>)
        ensures
            match r {
                Some(v) => exists|i: int|
                    0 <= i < self.view().len() && self.view()[i].0 == key && *v == self.view()[i].1,
                None => forall|i: int| 0 <= i < self.view().len() ==> self.view()[i].0 != key,
            },
    {
        let n = self.entries.len();
        let mut i: usize = 0;
        while i < n
            invariant
                i <= n,
                n == self.view().len(),
                forall|j: int| 0 <= j < i ==> self.view()[j].0 != key,
            decreases n - i,
        {
            if self.entries[i].0 == key {
                return Some(&self.entries[i].1);
            }
            i = i + 1;
        }
        None
    }

    /// Inserts a value: replaces the value of an existing key in place,
    /// else appends a new entry.
    pub fn insert(&mut self, key: u32, value: Byml)
        requires
            old(self).wf(),
        ensures
            final(self).wf(),
            final(self).contains_key(key),
            (exists|i: int|
                {
                    &&& 0 <= i < old(self).view().len()
                    &&& old(self).view()[i].0 == key
                    &&& final(self).view() =~= old(self).view().update(i, (key, value))
                }) || (!old(self).contains_key(key) && final(self).view() =~= old(
                self,
            ).view().push((key, value))),
    {
        let n = self.entries.len();
        let mut i: usize = 0;
        while i < n
            invariant
                i <= n,
                n == self.view().len(),
                old(self).wf(),
                self.view() == old(self).view(),
                forall|j: int| 0 <= j < i ==> self.view()[j].0 != key,
            decreases n - i,
        {
            if self.entries[i].0 == key {
                proof {
                    assert(old(self).view()[i as int].0 == key);
                }
                self.entries.set(i, (key, value));
                proof {
                    assert(self.view() =~= old(self).view().update(i as int, (key, value)));
                    assert(self.view()[i as int].0 == key);
                    assert forall|p: int, q: int|
                        0 <= p < q < self.view().len() implies self.view()[p].0 != self.view()[
                        q
                    ].0 by {
                        assert(old(self).view()[p].0 != old(self).view()[q].0);
                    }
                }
                return ;
            }
            i = i + 1;
        }
        self.entries.push((key, value));
        proof {
            assert(self.view() =~= old(self).view().push((key, value)));
            assert(self.view()[old(self).view().len() as int].0 == key);
            assert forall|p: int, q: int|
                0 <= p < q < self.view().len() implies self.view()[p].0 != self.view()[q].0 by {
                if q < old(self).view().len() {
                    assert(old(self).view()[p].0 != old(self).view()[q].0);
                }
            }
        }
    }

    /// Whether some entry has this key.
    pub open spec fn contains_key(self, key: u32) -> bool {
        exists|i: int| 0 <= i < self.view().len() && self.view()[i].0 == key
    }
}

impl BymlValueHashMap {
    /// The entries as a sequence, in insertion order.
    pub open spec fn view(self) -> Seq<(u32, (Byml, u32))> {
        self.entries@
    }

    /// No two entries share a key.
    pub open spec fn wf(self) -> bool {
        forall|i: int, j: int|
            0 <= i < j < self.view().len() ==> self.view()[i].0 != self.view()[j].0
    }

    /// An empty map.
    pub fn new() -> (r: BymlValueHashMap)
        ensures
            r.view() =~= Seq::<(u32, (Byml, u32))>::empty(),
            r.wf(),
    {
        BymlValueHashMap { entries: Vec::new() }
    }

    /// The number of entries.
    pub fn len(&self) -> (r: usize)
        ensures
            r == self.view().len(),
    {
        self.entries.len()
    }

    /// The entry at a position, in insertion order.
    pub fn entry_at(&self, i: usize) -> (r: &(u32, (Byml, u32)))
        requires
            i < self.view().len(),
        ensures
            *r == self.view()[i as int],
    {
        &self.entries[i]
    }

    /// Looks a key up by linear scan; the unique entry with that key when
    /// the map is well formed.
    pub fn get(&self, key: u32) -> (r: Option<&(Byml, u32)>)
        ensures
            match r {
                Some(v) => exists|i: int|
                    0 <= i < self.view().len() && self.view()[i].0 == key && *v == self.view()[i].1,
                None => forall|i: int| 0 <= i < self.view().len() ==> self.view()[i].0 != key,
            },
    {
        let n = self.entries.len();
        let mut i: usize = 0;
        while i < n
            invariant
                i <= n,
                n == self.view().len(),
                forall|j: int| 0 <= j < i ==> self.view()[j].0 != key,
            decreases n - i,
        {
            if self.entries[i].0 == key {
                return Some(&self.entries[i].1);
            }
            i = i + 1;
        }
        None
    }

    /// Inserts a value: replaces the value of an existing key in place,
    /// else appends a new entry.
    pub fn insert(&mut self, key: u32, value: (Byml, u32))
        requires
            old(self).wf(),
        ensures
            final(self).wf(),
            final(self).contains_key(key),
            (exists|i: int|
                {
                    &&& 0 <= i < old(self).view().len()
                    &&& old(self).view()[i].0 == key
                    &&& final(self).view() =~= old(self).view().update(i, (key, value))
                }) || (!old(self).contains_key(key) && final(self).view() =~= old(
                self,
            ).view().push((key, value))),
    {
        let n = self.entries.len();
        let mut i: usize = 0;
        while i < n
            invariant
                i <= n,
                n == self.view().len(),
                old(self).wf(),
                self.view() == old(self).view(),
                forall|j: int| 0 <= j < i ==> self.view()[j].0 != key,
            decreases n - i,
        {
            if self.entries[i].0 == key {
                proof {
                    assert(old(self).view()[i as int].0 == key);
                }
                self.entries.set(i, (key, value));
                proof {
                    assert(self.view() =~= old(self).view().update(i as int, (key, value)));
                    assert(self.view()[i as int].0 == key);
                    assert forall|p: int, q: int|
                        0 <= p < q < self.view().len() implies self.view()[p].0 != self.view()[
                        q
                    ].0 by {
                        assert(old(self).view()[p].0 != old(self).view()[q].0);
                    }
                }
                return ;
            }
            i = i + 1;
        }
        self.entries.push((key, value));
        proof {
            assert(self.view() =~= old(self).view().push((key, value)));
            assert(self.view()[old(self).view().len() as int].0 == key);
            assert forall|p: int, q: int|
                0 <= p < q < self.view().len() implies self.view()[p].0 != self.view()[q].0 by {
                if q < old(self).view().len() {
                    assert(old(self).view()[p].0 != old(self).view()[q].0);
                }
            }
        }
    }

    /// Whether some entry has this key.
    pub open spec fn contains_key(self, key: u32) -> bool {
        exists|i: int| 0 <= i < self.view().len() && self.view()[i].0 == key
    }
}

impl Byml {
    /// The node type this value is written as.
    pub fn get_node_type(&self) -> (r: NodeType)
        ensures
            r == self.spec_node_type(),
    {
        match self {
            Byml::String(_) => NodeType::String,
            Byml::BinaryData(_) => NodeType::Binary,
            Byml::FileData(_) => NodeType::File,
            Byml::Array(_) => NodeType::Array,
            Byml::StringMap(_) => NodeType::StringMap,
            Byml::HashMap(_) => NodeType::HashMap,
            Byml::ValueHashMap(_) => NodeType::ValueHashMap,
            Byml::Bool(_) => NodeType::Bool,
            Byml::I32(_) => NodeType::I32,
            Byml::Float(_) => NodeType::Float,
            Byml::U32(_) => NodeType::U32,
            Byml::I64(_) => NodeType::I64,
            Byml::U64(_) => NodeType::U64,
            Byml::Double(_) => NodeType::Double,
            Byml::Null => NodeType::Null,
        }
    }

    /// The node type this value is written as.
    pub open spec fn spec_node_type(&self) -> NodeType {
        match self {
            Byml::String(_) => NodeType::String,
            Byml::BinaryData(_) => NodeType::Binary,
            Byml::FileData(_) => NodeType::File,
            Byml::Array(_) => NodeType::Array,
            Byml::StringMap(_) => NodeType::StringMap,
            Byml::HashMap(_) => NodeType::HashMap,
            Byml::ValueHashMap(_) => NodeType::ValueHashMap,
            Byml::Bool(_) => NodeType::Bool,
            Byml::I32(_) => NodeType::I32,
            Byml::Float(_) => NodeType::Float,
            Byml::U32(_) => NodeType::U32,
            Byml::I64(_) => NodeType::I64,
            Byml::U64(_) => NodeType::U64,
            Byml::Double(_) => NodeType::Double,
            Byml::Null => NodeType::Null,
        }
    }

    /// Whether this node is written out of line: its record holds an
    /// offset to the payload rather than the payload itself.
    pub fn is_non_inline_type(&self) -> (r: bool)
        ensures
            r == !(self.spec_node_type() is Bool || self.spec_node_type() is I32
                || self.spec_node_type() is Float || self.spec_node_type() is U32
                || self.spec_node_type() is Null || self.spec_node_type() is StringTable
                || self.spec_node_type() is String),
    {
        match self {
            Byml::Array(_) | Byml::StringMap(_) | Byml::HashMap(_) | Byml::ValueHashMap(_)
            | Byml::BinaryData(_) | Byml::FileData(_) | Byml::I64(_) | Byml::U64(_)
            | Byml::Double(_) => true,
            _ => false,
        }
    }

    /// Checks if the BYML node is a null node.
    pub fn is_null(&self) -> (r: bool)
        ensures
            r == (self is Null),
    {
        match self {
            Byml::Null => true,
            _ => false,
        }
    }
}

impl Default for Byml {
    /// The default BYML node is `Null`.
    fn default() -> (r: Byml)
        ensures
            r is Null,
    {
        Byml::Null
    }
}

impl Byml {
    /// The name of the variant this value holds, for error reports.
    pub fn variant_name(&self) -> &'static str {
        match self {
            Byml::String(_) => "String",
            Byml::BinaryData(_) => "Binary",
            Byml::FileData(_) => "File",
            Byml::Array(_) => "Array",
            Byml::StringMap(_) => "Map",
            Byml::HashMap(_) => "HashMap",
            Byml::ValueHashMap(_) => "ValueHashMap",
            Byml::Bool(_) => "Bool",
            Byml::I32(_) => "I32",
            Byml::Float(_) => "Float",
            Byml::U32(_) => "U32",
            Byml::I64(_) => "I64",
            Byml::U64(_) => "U64",
            Byml::Double(_) => "Double",
            Byml::Null => "Null",
        }
    }

    /// Get the inner bool value; a type error on any other variant.
    pub fn as_bool(&self) -> (r: Result<bool, Error>)
        ensures
            self is Bool ==> r == Ok::<bool, Error>(self->Bool_0),
            !(self is Bool) ==> (r matches Err(e) && e is TypeError),
    {
        if let Byml::Bool(v) = self {
            Ok(*v)
        } else {
            Err(Error::TypeError(self.variant_name(), "Bool"))
        }
    }

    /// Extract the inner bool value; a type error on any other variant.
    pub fn into_bool(self) -> (r: Result<bool, Error>)
        ensures
            self is Bool ==> r == Ok::<bool, Error>(self->Bool_0),
            !(self is Bool) ==> (r matches Err(e) && e is TypeError),
    {
        if let Byml::Bool(v) = self {
            Ok(v)
        } else {
            Err(Error::TypeError(self.variant_name(), "Bool"))
        }
    }

    /// Get the inner i32 value; a type error on any other variant.
    pub fn as_i32(&self) -> (r: Result<i32, Error>)
        ensures
            self is I32 ==> r == Ok::<i32, Error>(self->I32_0),
            !(self is I32) ==> (r matches Err(e) && e is TypeError),
    {
        if let Byml::I32(v) = self {
            Ok(*v)
        } else {
            Err(Error::TypeError(self.variant_name(), "I32"))
        }
    }

    /// Extract the inner i32 value; a type error on any other variant.
    pub fn into_i32(self) -> (r: Result<i32, Error>)
        ensures
            self is I32 ==> r == Ok::<i32, Error>(self->I32_0),
            !(self is I32) ==> (r matches Err(e) && e is TypeError),
    {
        if let Byml::I32(v) = self {
            Ok(v)
        } else {
            Err(Error::TypeError(self.variant_name(), "I32"))
        }
    }

    /// Get the inner u32 value; a type error on any other variant.
    pub fn as_u32(&self) -> (r: Result<u32, Error>)
        ensures
            self is U32 ==> r == Ok::<u32, Error>(self->U32_0),
            !(self is U32) ==> (r matches Err(e) && e is TypeError),
    {
        if let Byml::U32(v) = self {
            Ok(*v)
        } else {
            Err(Error::TypeError(self.variant_name(), "U32"))
        }
    }

    /// Extract the inner u32 value; a type error on any other variant.
    pub fn into_u32(self) -> (r: Result<u32, Error>)
        ensures
            self is U32 ==> r == Ok::<u32, Error>(self->U32_0),
            !(self is U32) ==> (r matches Err(e) && e is TypeError),
    {
        if let Byml::U32(v) = self {
            Ok(v)
        } else {
            Err(Error::TypeError(self.variant_name(), "U32"))
        }
    }

    /// Get the inner i64 value; a type error on any other variant.
    pub fn as_i64(&self) -> (r: Result<i64, Error>)
        ensures
            self is I64 ==> r == Ok::<i64, Error>(self->I64_0),
            !(self is I64) ==> (r matches Err(e) && e is TypeError),
    {
        if let Byml::I64(v) = self {
            Ok(*v)
        } else {
            Err(Error::TypeError(self.variant_name(), "I64"))
        }
    }

    /// Extract the inner i64 value; a type error on any other variant.
    pub fn into_i64(self) -> (r: Result<i64, Error>)
        ensures
            self is I64 ==> r == Ok::<i64, Error>(self->I64_0),
            !(self is I64) ==> (r matches Err(e) && e is TypeError),
    {
        if let Byml::I64(v) = self {
            Ok(v)
        } else {
            Err(Error::TypeError(self.variant_name(), "I64"))
        }
    }

    /// Get the inner u64 value; a type error on any other variant.
    pub fn as_u64(&self) -> (r: Result<u64, Error>)
        ensures
            self is U64 ==> r == Ok::<u64, Error>(self->U64_0),
            !(self is U64) ==> (r matches Err(e) && e is TypeError),
    {
        if let Byml::U64(v) = self {
            Ok(*v)
        } else {
            Err(Error::TypeError(self.variant_name(), "U64"))
        }
    }

    /// Extract the inner u64 value; a type error on any other variant.
    pub fn into_u64(self) -> (r: Result<u64, Error>)
        ensures
            self is U64 ==> r == Ok::<u64, Error>(self->U64_0),
            !(self is U64) ==> (r matches Err(e) && e is TypeError),
    {
        if let Byml::U64(v) = self {
            Ok(v)
        } else {
            Err(Error::TypeError(self.variant_name(), "U64"))
        }
    }

    /// Get the inner IEEE-754 binary32 bit pattern; a type error on any other variant.
    pub fn as_float(&self) -> (r: Result<u32, Error>)
        ensures
            self is Float ==> r == Ok::<u32, Error>(self->Float_0),
            !(self is Float) ==> (r matches Err(e) && e is TypeError),
    {
        if let Byml::Float(v) = self {
            Ok(*v)
        } else {
            Err(Error::TypeError(self.variant_name(), "Float"))
        }
    }

    /// Extract the inner IEEE-754 binary32 bit pattern; a type error on any other variant.
    pub fn into_float(self) -> (r: Result<u32, Error>)
        ensures
            self is Float ==> r == Ok::<u32, Error>(self->Float_0),
            !(self is Float) ==> (r matches Err(e) && e is TypeError),
    {
        if let Byml::Float(v) = self {
            Ok(v)
        } else {
            Err(Error::TypeError(self.variant_name(), "Float"))
        }
    }

    /// Get the inner IEEE-754 binary64 bit pattern; a type error on any other variant.
    pub fn as_double(&self) -> (r: Result<u64, Error>)
        ensures
            self is Double ==> r == Ok::<u64, Error>(self->Double_0),
            !(self is Double) ==> (r matches Err(e) && e is TypeError),
    {
        if let Byml::Double(v) = self {
            Ok(*v)
        } else {
            Err(Error::TypeError(self.variant_name(), "Double"))
        }
    }

    /// Extract the inner IEEE-754 binary64 bit pattern; a type error on any other variant.
    pub fn into_double(self) -> (r: Result<u64, Error>)
        ensures
            self is Double ==> r == Ok::<u64, Error>(self->Double_0),
            !(self is Double) ==> (r matches Err(e) && e is TypeError),
    {
        if let Byml::Double(v) = self {
            Ok(v)
        } else {
            Err(Error::TypeError(self.variant_name(), "Double"))
        }
    }

    /// Get a reference to the inner string; a type error on any
    /// other variant.
    pub fn as_string(&self) -> (r: Result<&String, Error>)
        ensures
            self is String ==> (r matches Ok(v) && *v == self->String_0),
            !(self is String) ==> (r matches Err(e) && e is TypeError),
    {
        if let Byml::String(v) = self {
            Ok(v)
        } else {
            Err(Error::TypeError(self.variant_name(), "String"))
        }
    }

    /// Extract the inner string; a type error on any other
    /// variant.
    pub fn into_string(self) -> (r: Result<String, Error>)
        ensures
            self is String ==> (r matches Ok(v) && v == self->String_0),
            !(self is String) ==> (r matches Err(e) && e is TypeError),
    {
        if let Byml::String(v) = self {
            Ok(v)
        } else {
            Err(Error::TypeError(self.variant_name(), "String"))
        }
    }

    /// Get a reference to the inner binary payload; a type error on any
    /// other variant.
    pub fn as_binary_data(&self) -> (r: Result<&Vec<u8>, Error>)
        ensures
            self is BinaryData ==> (r matches Ok(v) && *v == self->BinaryData_0),
            !(self is BinaryData) ==> (r matches Err(e) && e is TypeError),
    {
        if let Byml::BinaryData(v) = self {
            Ok(v)
        } else {
            Err(Error::TypeError(self.variant_name(), "Binary"))
        }
    }

    /// Extract the inner binary payload; a type error on any other
    /// variant.
    pub fn into_binary_data(self) -> (r: Result<Vec<u8>, Error>)
        ensures
            self is BinaryData ==> (r matches Ok(v) && v == self->BinaryData_0),
            !(self is BinaryData) ==> (r matches Err(e) && e is TypeError),
    {
        if let Byml::BinaryData(v) = self {
            Ok(v)
        } else {
            Err(Error::TypeError(self.variant_name(), "Binary"))
        }
    }

    /// Get a reference to the inner file payload; a type error on any
    /// other variant.
    pub fn as_file_data(&self) -> (r: Result<&Vec<u8>, Error>)
        ensures
            self is FileData ==> (r matches Ok(v) && *v == self->FileData_0),
            !(self is FileData) ==> (r matches Err(e) && e is TypeError),
    {
        if let Byml::FileData(v) = self {
            Ok(v)
        } else {
            Err(Error::TypeError(self.variant_name(), "File"))
        }
    }

    /// Extract the inner file payload; a type error on any other
    /// variant.
    pub fn into_file_data(self) -> (r: Result<Vec<u8>, Error>)
        ensures
            self is FileData ==> (r matches Ok(v) && v == self->FileData_0),
            !(self is FileData) ==> (r matches Err(e) && e is TypeError),
    {
        if let Byml::FileData(v) = self {
            Ok(v)
        } else {
            Err(Error::TypeError(self.variant_name(), "File"))
        }
    }

    /// Get a reference to the inner array of nodes; a type error on any
    /// other variant.
    pub fn as_array(&self) -> (r: Result<&Vec<Byml>, Error>)
        ensures
            self is Array ==> (r matches Ok(v) && *v == self->Array_0),
            !(self is Array) ==> (r matches Err(e) && e is TypeError),
    {
        if let Byml::Array(v) = self {
            Ok(v)
        } else {
            Err(Error::TypeError(self.variant_name(), "Array"))
        }
    }

    /// Extract the inner array of nodes; a type error on any other
    /// variant.
    pub fn into_array(self) -> (r: Result<Vec<Byml>, Error>)
        ensures
            self is Array ==> (r matches Ok(v) && v == self->Array_0),
            !(self is Array) ==> (r matches Err(e) && e is TypeError),
    {
        if let Byml::Array(v) = self {
            Ok(v)
        } else {
            Err(Error::TypeError(self.variant_name(), "Array"))
        }
    }

    /// Get a reference to the inner string-keyed map; a type error on any
    /// other variant.
    pub fn as_map(&self) -> (r: Result<&BymlMap, Error>)
        ensures
            self is StringMap ==> (r matches Ok(v) && *v == self->StringMap_0),
            !(self is StringMap) ==> (r matches Err(e) && e is TypeError),
    {
        if let Byml::StringMap(v) = self {
            Ok(v)
        } else {
            Err(Error::TypeError(self.variant_name(), "Map"))
        }
    }

    /// Extract the inner string-keyed map; a type error on any other
    /// variant.
    pub fn into_map(self) -> (r: Result<BymlMap, Error>)
        ensures
            self is StringMap ==> (r matches Ok(v) && v == self->StringMap_0),
            !(self is StringMap) ==> (r matches Err(e) && e is TypeError),
    {
        if let Byml::StringMap(v) = self {
            Ok(v)
        } else {
            Err(Error::TypeError(self.variant_name(), "Map"))
        }
    }

    /// Get a reference to the inner u32-keyed map; a type error on any
    /// other variant.
    pub fn as_hash_map(&self) -> (r: Result<&BymlHashMap, Error>)
        ensures
            self is HashMap ==> (r matches Ok(v) && *v == self->HashMap_0),
            !(self is HashMap) ==> (r matches Err(e) && e is TypeError),
    {
        if let Byml::HashMap(v) = self {
            Ok(v)
        } else {
            Err(Error::TypeError(self.variant_name(), "HashMap"))
        }
    }

    /// Extract the inner u32-keyed map; a type error on any other
    /// variant.
    pub fn into_hash_map(self) -> (r: Result<BymlHashMap, Error>)
        ensures
            self is HashMap ==> (r matches Ok(v) && v == self->HashMap_0),
            !(self is HashMap) ==> (r matches Err(e) && e is TypeError),
    {
        if let Byml::HashMap(v) = self {
            Ok(v)
        } else {
            Err(Error::TypeError(self.variant_name(), "HashMap"))
        }
    }

    /// Get a reference to the inner u32-keyed map with auxiliary values; a type error on any
    /// other variant.
    pub fn as_value_hash_map(&self) -> (r: Result<&BymlValueHashMap, Error>)
        ensures
            self is ValueHashMap ==> (r matches Ok(v) && *v == self->ValueHashMap_0),
            !(self is ValueHashMap) ==> (r matches Err(e) && e is TypeError),
    {
        if let Byml::ValueHashMap(v) = self {
            Ok(v)
        } else {
            Err(Error::TypeError(self.variant_name(), "ValueHashMap"))
        }
    }

    /// Extract the inner u32-keyed map with auxiliary values; a type error on any other
    /// variant.
    pub fn into_value_hash_map(self) -> (r: Result<BymlValueHashMap, Error>)
        ensures
            self is ValueHashMap ==> (r matches Ok(v) && v == self->ValueHashMap_0),
            !(self is ValueHashMap) ==> (r matches Err(e) && e is TypeError),
    {
        if let Byml::ValueHashMap(v) = self {
            Ok(v)
        } else {
            Err(Error::TypeError(self.variant_name(), "ValueHashMap"))
        }
    }
}

} // verus!
