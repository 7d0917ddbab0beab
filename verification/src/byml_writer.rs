//! The BYML writer: interns map keys and string values into strictly
//! sorted tables, walks the owned tree bottom-up assigning offsets, and
//! emits the header, the two string tables and the node records.

use vstd::prelude::*;
use vstd::string::StringSliceAdditionalSpecFns;
use vstd::utf8::encode_utf8;

use crate::byml::{Byml, NodeType};
use crate::util::{
    cmp_bytes, lex_lt, push_slice, push_u16, push_u24, push_u32, push_u64, push_zeros,
    spec_u16_bytes, spec_u32_bytes, str_eq,
};
use crate::{Endian, Error};

verus! {

broadcast use vstd::seq::axiom_seq_index_decreases, vstd::std_specs::vec::axiom_vec_decreases_to_view, vstd::std_specs::vec::axiom_vec_index_decreases;

/// Whether a list of strings is strictly ascending in lexicographic byte
/// order; such a list also has no duplicates.
pub open spec fn spec_strictly_sorted(v: Seq<String>) -> bool {
    forall|i: int, j: int|
        0 <= i < j < v.len() ==> lex_lt(encode_utf8(#[trigger] v[i]@), encode_utf8(#[trigger] v[j]@))
}

/// Whether some entry of the list holds these character contents.
pub open spec fn spec_contains_str(v: Seq<String>, s: Seq<char>) -> bool {
    exists|i: int| 0 <= i < v.len() && #[trigger] v[i]@ == s
}

/// Whether every map key of the tree stands in `keys` and every string
/// leaf in `strings`.
pub open spec fn spec_tree_interned(b: Byml, keys: Seq<String>, strings: Seq<String>) -> bool
    decreases b,
{
    match b {
        Byml::String(s) => spec_contains_str(strings, s@),
        Byml::Array(v) => forall|i: int|
            0 <= i < v@.len() ==> spec_tree_interned(#[trigger] v@[i], keys, strings),
        Byml::StringMap(m) => forall|i: int|
            0 <= i < m.entries@.len() ==> spec_contains_str(keys, (#[trigger] m.entries@[i]).0@)
                && spec_tree_interned(m.entries@[i].1, keys, strings),
        Byml::HashMap(m) => forall|i: int|
            0 <= i < m.entries@.len() ==> spec_tree_interned(
                (#[trigger] m.entries@[i]).1,
                keys,
                strings,
            ),
        Byml::ValueHashMap(m) => forall|i: int|
            0 <= i < m.entries@.len() ==> spec_tree_interned(
                (#[trigger] m.entries@[i]).1.0,
                keys,
                strings,
            ),
        _ => true,
    }
}

/// Whether `t` occurs as a map key somewhere in the tree.
pub open spec fn spec_is_tree_key(b: Byml, t: Seq<char>) -> bool
    decreases b,
{
    match b {
        Byml::Array(v) => exists|i: int|
            0 <= i < v@.len() && spec_is_tree_key(#[trigger] v@[i], t),
        Byml::StringMap(m) => exists|i: int|
            0 <= i < m.entries@.len() && ((#[trigger] m.entries@[i]).0@ == t || spec_is_tree_key(
                m.entries@[i].1,
                t,
            )),
        Byml::HashMap(m) => exists|i: int|
            0 <= i < m.entries@.len() && spec_is_tree_key((#[trigger] m.entries@[i]).1, t),
        Byml::ValueHashMap(m) => exists|i: int|
            0 <= i < m.entries@.len() && spec_is_tree_key((#[trigger] m.entries@[i]).1.0, t),
        _ => false,
    }
}

/// Whether `t` occurs as a string leaf somewhere in the tree.
pub open spec fn spec_is_tree_string(b: Byml, t: Seq<char>) -> bool
    decreases b,
{
    match b {
        Byml::String(s) => s@ == t,
        Byml::Array(v) => exists|i: int|
            0 <= i < v@.len() && spec_is_tree_string(#[trigger] v@[i], t),
        Byml::StringMap(m) => exists|i: int|
            0 <= i < m.entries@.len() && spec_is_tree_string((#[trigger] m.entries@[i]).1, t),
        Byml::HashMap(m) => exists|i: int|
            0 <= i < m.entries@.len() && spec_is_tree_string((#[trigger] m.entries@[i]).1, t),
        Byml::ValueHashMap(m) => exists|i: int|
            0 <= i < m.entries@.len() && spec_is_tree_string((#[trigger] m.entries@[i]).1.0, t),
        _ => false,
    }
}

/// Interning survives growing the tables.
proof fn lemma_interned_mono(
    b: Byml,
    k1: Seq<String>,
    s1: Seq<String>,
    k2: Seq<String>,
    s2: Seq<String>,
)
    requires
        spec_tree_interned(b, k1, s1),
        forall|t: Seq<char>| #[trigger] spec_contains_str(k1, t) ==> spec_contains_str(k2, t),
        forall|t: Seq<char>| #[trigger] spec_contains_str(s1, t) ==> spec_contains_str(s2, t),
    ensures
        spec_tree_interned(b, k2, s2),
    decreases b,
{
    match b {
        Byml::Array(v) => {
            assert forall|i: int|
                0 <= i < v@.len() implies spec_tree_interned(#[trigger] v@[i], k2, s2) by {
                lemma_interned_mono(v@[i], k1, s1, k2, s2);
            }
        }
        Byml::StringMap(m) => {
            assert forall|i: int|
                0 <= i < m.entries@.len() implies spec_contains_str(
                k2,
                (#[trigger] m.entries@[i]).0@,
            ) && spec_tree_interned(m.entries@[i].1, k2, s2) by {
                assert(spec_contains_str(k1, m.entries@[i].0@));
                lemma_interned_mono(m.entries@[i].1, k1, s1, k2, s2);
            }
        }
        Byml::HashMap(m) => {
            assert forall|i: int|
                0 <= i < m.entries@.len() implies spec_tree_interned(
                (#[trigger] m.entries@[i]).1,
                k2,
                s2,
            ) by {
                lemma_interned_mono(m.entries@[i].1, k1, s1, k2, s2);
            }
        }
        Byml::ValueHashMap(m) => {
            assert forall|i: int|
                0 <= i < m.entries@.len() implies spec_tree_interned(
                (#[trigger] m.entries@[i]).1.0,
                k2,
                s2,
            ) by {
                lemma_interned_mono(m.entries@[i].1.0, k1, s1, k2, s2);
            }
        }
        _ => {}
    }
}

/// Inserts a string into a strictly sorted list, keeping it strictly
/// sorted; nothing changes when the string is already present.
fn sorted_insert(v: &mut Vec<String>, s: &str)
    requires
        spec_strictly_sorted(old(v)@),
    ensures
        spec_strictly_sorted(final(v)@),
        spec_contains_str(final(v)@, s@),
        forall|t: Seq<char>| spec_contains_str(old(v)@, t) ==> spec_contains_str(final(v)@, t),
        forall|t: Seq<char>|
            #[trigger] spec_contains_str(final(v)@, t) ==> spec_contains_str(old(v)@, t) || t
                == s@,
{
    let n = v.len();
    let mut i: usize = 0;
    while i < n
        invariant
            i <= n,
            n == v@.len(),
            spec_strictly_sorted(v@),
            v@ == old(v)@,
            forall|j: int| 0 <= j < i ==> lex_lt(encode_utf8(#[trigger] v@[j]@), s.spec_bytes()),
        decreases n - i,
    {
        let c = cmp_bytes(v[i].as_str().as_bytes(), s.as_bytes());
        if c == 0 {
            proof {
                crate::util::lemma_encode_inj(v@[i as int]@, s@);
            }
            return ;
        }
        if c > 0 {
            let ghost oldv = v@;
            v.insert(i, s.to_owned());
            proof {
                assert(v@ =~= oldv.insert(i as int, v@[i as int]));
                assert(v@[i as int]@ == s@);
                assert forall|p: int, q: int|
                    0 <= p < q < v@.len() implies lex_lt(
                    encode_utf8(#[trigger] v@[p]@),
                    encode_utf8(#[trigger] v@[q]@),
                ) by {
                    let pp: int = if p < i {
                        p
                    } else {
                        p - 1
                    };
                    let qq: int = if q < i {
                        q
                    } else {
                        q - 1
                    };
                    if p == i {
                        assert(lex_lt(s.spec_bytes(), encode_utf8(oldv[i as int]@)));
                        if qq > i {
                            assert(lex_lt(
                                encode_utf8(oldv[i as int]@),
                                encode_utf8(oldv[qq]@),
                            ));
                            crate::util::lemma_lex_lt_trans(
                                s.spec_bytes(),
                                encode_utf8(oldv[i as int]@),
                                encode_utf8(oldv[qq]@),
                            );
                        }
                        assert(lex_lt(s.spec_bytes(), encode_utf8(oldv[qq]@)));
                    } else if q == i {
                        assert(lex_lt(encode_utf8(oldv[pp]@), s.spec_bytes()));
                    } else {
                        assert(lex_lt(encode_utf8(oldv[pp]@), encode_utf8(oldv[qq]@)));
                    }
                }
                assert forall|t: Seq<char>|
                    spec_contains_str(oldv, t) implies spec_contains_str(v@, t) by {
                    let j = choose|j: int| 0 <= j < oldv.len() && oldv[j]@ == t;
                    if j < i {
                        assert(v@[j]@ == t);
                    } else {
                        assert(v@[j + 1]@ == t);
                    }
                }
            }
            return ;
        }
        i = i + 1;
    }
    let ghost oldv = v@;
    v.push(s.to_owned());
    proof {
        assert(v@ =~= oldv.push(v@[oldv.len() as int]));
        assert(v@[oldv.len() as int]@ == s@);
        assert forall|p: int, q: int|
            0 <= p < q < v@.len() implies lex_lt(
            encode_utf8(#[trigger] v@[p]@),
            encode_utf8(#[trigger] v@[q]@),
        ) by {
            if q < oldv.len() {
                assert(lex_lt(encode_utf8(oldv[p]@), encode_utf8(oldv[q]@)));
            } else {
                assert(lex_lt(encode_utf8(oldv[p]@), s.spec_bytes()));
            }
        }
        assert forall|t: Seq<char>| spec_contains_str(oldv, t) implies spec_contains_str(v@, t) by {
            let j = choose|j: int| 0 <= j < oldv.len() && oldv[j]@ == t;
            assert(v@[j]@ == t);
        }
    }
}

/// Whether a tree holds a u32-keyed container, which only format
/// version 7 can encode.
pub open spec fn spec_contains_v7(b: Byml) -> bool
    decreases b,
{
    match b {
        Byml::HashMap(_) => true,
        Byml::ValueHashMap(_) => true,
        Byml::Array(v) => exists|i: int| 0 <= i < v@.len() && spec_contains_v7(#[trigger] v@[i]),
        Byml::StringMap(m) => exists|i: int|
            0 <= i < m.entries@.len() && spec_contains_v7(#[trigger] m.entries@[i].1),
        _ => false,
    }
}

/// The version the writer emits: 7 when the tree holds a u32-keyed
/// container, else 2.
pub open spec fn spec_byml_writer_version(b: Byml) -> u16 {
    if spec_contains_v7(b) {
        7
    } else {
        2
    }
}

impl Byml {
    /// Whether the tree holds a u32-keyed container.
    #[verifier::loop_isolation(false)]
    pub fn contains_v7(&self) -> (r: bool)
        ensures
            r == spec_contains_v7(*self),
        decreases *self,
    {
        match self {
            Byml::HashMap(_) => true,
            Byml::ValueHashMap(_) => true,
            Byml::Array(v) => {
                let n = v.len();
                let mut i: usize = 0;
                let mut found = false;
                while i < n
                    invariant
                        *self == Byml::Array(*v),
                        i <= n,
                        n == v@.len(),
                        found == exists|j: int|
                            0 <= j < i && spec_contains_v7(#[trigger] v@[j]),
                    decreases n - i,
                {
                    if v[i].contains_v7() {
                        found = true;
                    }
                    i = i + 1;
                }
                found
            }
            Byml::StringMap(m) => {
                let n = m.entries.len();
                let mut i: usize = 0;
                let mut found = false;
                while i < n
                    invariant
                        *self == Byml::StringMap(*m),
                        i <= n,
                        n == m.entries@.len(),
                        found == exists|j: int|
                            0 <= j < i && spec_contains_v7(#[trigger] m.entries@[j].1),
                    decreases n - i,
                {
                    if m.entries[i].1.contains_v7() {
                        found = true;
                    }
                    i = i + 1;
                }
                found
            }
            _ => false,
        }
    }

    /// Interns every map key and string leaf of the tree into the two
    /// sorted tables. Both tables stay strictly ascending in
    /// lexicographic byte order, the order the format's binary search
    /// requires; nothing already interned is lost, and afterwards every
    /// key and string of the tree stands in its table.
    #[verifier::loop_isolation(false)]
    pub fn collect_strings(&self, keys: &mut Vec<String>, strings: &mut Vec<String>)
        requires
            spec_strictly_sorted(old(keys)@),
            spec_strictly_sorted(old(strings)@),
        ensures
            spec_strictly_sorted(final(keys)@),
            spec_strictly_sorted(final(strings)@),
            spec_tree_interned(*self, final(keys)@, final(strings)@),
            forall|t: Seq<char>| #[trigger] spec_contains_str(old(keys)@, t) ==> spec_contains_str(
                final(keys)@,
                t,
            ),
            forall|t: Seq<char>|
                #[trigger] spec_contains_str(old(strings)@, t) ==> spec_contains_str(
                    final(strings)@,
                    t,
                ),
            forall|t: Seq<char>|
                #[trigger] spec_contains_str(final(keys)@, t) ==> spec_contains_str(
                    old(keys)@,
                    t,
                ) || spec_is_tree_key(*self, t),
            forall|t: Seq<char>|
                #[trigger] spec_contains_str(final(strings)@, t) ==> spec_contains_str(
                    old(strings)@,
                    t,
                ) || spec_is_tree_string(*self, t),
        decreases *self,
    {
        match self {
            Byml::String(s) => {
                sorted_insert(strings, s.as_str());
                proof {
                    assert forall|t: Seq<char>|
                        #[trigger] spec_contains_str(strings@, t) implies spec_contains_str(
                        old(strings)@,
                        t,
                    ) || spec_is_tree_string(*self, t) by {
                        if !spec_contains_str(old(strings)@, t) {
                            assert(t == s@);
                        }
                    }
                }
            }
            Byml::Array(v) => {
                let n = v.len();
                let mut i: usize = 0;
                while i < n
                    invariant
                        i <= n,
                        spec_strictly_sorted(keys@),
                        spec_strictly_sorted(strings@),
                        forall|t: Seq<char>|
                            #[trigger] spec_contains_str(old(keys)@, t) ==> spec_contains_str(
                                keys@,
                                t,
                            ),
                        forall|t: Seq<char>|
                            #[trigger] spec_contains_str(old(strings)@, t) ==> spec_contains_str(
                                strings@,
                                t,
                            ),
                        forall|j: int|
                            0 <= j < i ==> spec_tree_interned(#[trigger] v@[j], keys@, strings@),
                        forall|t: Seq<char>|
                            #[trigger] spec_contains_str(keys@, t) ==> spec_contains_str(
                                old(keys)@,
                                t,
                            ) || spec_is_tree_key(*self, t),
                        forall|t: Seq<char>|
                            #[trigger] spec_contains_str(strings@, t) ==> spec_contains_str(
                                old(strings)@,
                                t,
                            ) || spec_is_tree_string(*self, t),
                    decreases n - i,
                {
                    let ghost pk = keys@;
                    let ghost ps = strings@;
                    v[i].collect_strings(keys, strings);
                    proof {
                        assert forall|j: int|
                            0 <= j < i + 1 implies spec_tree_interned(
                            #[trigger] v@[j],
                            keys@,
                            strings@,
                        ) by {
                            if j < i {
                                lemma_interned_mono(v@[j], pk, ps, keys@, strings@);
                            }
                        }
                        assert forall|t: Seq<char>|
                            #[trigger] spec_contains_str(keys@, t) implies spec_contains_str(
                            old(keys)@,
                            t,
                        ) || spec_is_tree_key(*self, t) by {
                            if spec_contains_str(keys@, t) && !spec_contains_str(old(keys)@, t)
                                && !spec_contains_str(pk, t) {
                                assert(spec_is_tree_key(v@[i as int], t));
                            }
                        }
                        assert forall|t: Seq<char>|
                            #[trigger] spec_contains_str(strings@, t) implies spec_contains_str(
                            old(strings)@,
                            t,
                        ) || spec_is_tree_string(*self, t) by {
                            if spec_contains_str(strings@, t) && !spec_contains_str(
                                old(strings)@,
                                t,
                            ) && !spec_contains_str(ps, t) {
                                assert(spec_is_tree_string(v@[i as int], t));
                            }
                        }
                    }
                    i = i + 1;
                }
            }
            Byml::StringMap(m) => {
                let n = m.entries.len();
                let mut i: usize = 0;
                while i < n
                    invariant
                        i <= n,
                        spec_strictly_sorted(keys@),
                        spec_strictly_sorted(strings@),
                        forall|t: Seq<char>|
                            #[trigger] spec_contains_str(old(keys)@, t) ==> spec_contains_str(
                                keys@,
                                t,
                            ),
                        forall|t: Seq<char>|
                            #[trigger] spec_contains_str(old(strings)@, t) ==> spec_contains_str(
                                strings@,
                                t,
                            ),
                        forall|j: int|
                            0 <= j < i ==> spec_contains_str(
                                keys@,
                                (#[trigger] m.entries@[j]).0@,
                            ) && spec_tree_interned(m.entries@[j].1, keys@, strings@),
                        forall|t: Seq<char>|
                            #[trigger] spec_contains_str(keys@, t) ==> spec_contains_str(
                                old(keys)@,
                                t,
                            ) || spec_is_tree_key(*self, t),
                        forall|t: Seq<char>|
                            #[trigger] spec_contains_str(strings@, t) ==> spec_contains_str(
                                old(strings)@,
                                t,
                            ) || spec_is_tree_string(*self, t),
                    decreases n - i,
                {
                    let ghost pk0 = keys@;
                    let ghost ps0 = strings@;
                    sorted_insert(keys, m.entries[i].0.as_str());
                    let ghost pk1 = keys@;
                    let ghost ps1 = strings@;
                    m.entries[i].1.collect_strings(keys, strings);
                    proof {
                        assert forall|t: Seq<char>|
                            #[trigger] spec_contains_str(keys@, t) implies spec_contains_str(
                            old(keys)@,
                            t,
                        ) || spec_is_tree_key(*self, t) by {
                            if spec_contains_str(keys@, t) && !spec_contains_str(old(keys)@, t) {
                                if spec_contains_str(pk0, t) {
                                } else if spec_contains_str(pk1, t) {
                                    assert(t == m.entries@[i as int].0@);
                                } else {
                                    assert(spec_is_tree_key(m.entries@[i as int].1, t));
                                }
                            }
                        }
                        assert forall|t: Seq<char>|
                            #[trigger] spec_contains_str(strings@, t) implies spec_contains_str(
                            old(strings)@,
                            t,
                        ) || spec_is_tree_string(*self, t) by {
                            if spec_contains_str(strings@, t) && !spec_contains_str(
                                old(strings)@,
                                t,
                            ) && !spec_contains_str(ps1, t) {
                                assert(spec_is_tree_string(m.entries@[i as int].1, t));
                            }
                        }
                        assert forall|j: int|
                            0 <= j < i + 1 implies spec_contains_str(
                            keys@,
                            (#[trigger] m.entries@[j]).0@,
                        ) && spec_tree_interned(m.entries@[j].1, keys@, strings@) by {
                            if j < i {
                                assert(spec_contains_str(pk0, m.entries@[j].0@));
                                assert(spec_contains_str(pk1, m.entries@[j].0@));
                                lemma_interned_mono(m.entries@[j].1, pk0, ps0, pk1, ps1);
                                lemma_interned_mono(m.entries@[j].1, pk1, ps1, keys@, strings@);
                            } else {
                                assert(spec_contains_str(pk1, m.entries@[j].0@));
                            }
                        }
                    }
                    i = i + 1;
                }
            }
            Byml::HashMap(m) => {
                let n = m.entries.len();
                let mut i: usize = 0;
                while i < n
                    invariant
                        i <= n,
                        spec_strictly_sorted(keys@),
                        spec_strictly_sorted(strings@),
                        forall|t: Seq<char>|
                            #[trigger] spec_contains_str(old(keys)@, t) ==> spec_contains_str(
                                keys@,
                                t,
                            ),
                        forall|t: Seq<char>|
                            #[trigger] spec_contains_str(old(strings)@, t) ==> spec_contains_str(
                                strings@,
                                t,
                            ),
                        forall|j: int|
                            0 <= j < i ==> spec_tree_interned(
                                (#[trigger] m.entries@[j]).1,
                                keys@,
                                strings@,
                            ),
                        forall|t: Seq<char>|
                            #[trigger] spec_contains_str(keys@, t) ==> spec_contains_str(
                                old(keys)@,
                                t,
                            ) || spec_is_tree_key(*self, t),
                        forall|t: Seq<char>|
                            #[trigger] spec_contains_str(strings@, t) ==> spec_contains_str(
                                old(strings)@,
                                t,
                            ) || spec_is_tree_string(*self, t),
                    decreases n - i,
                {
                    let ghost pk = keys@;
                    let ghost ps = strings@;
                    m.entries[i].1.collect_strings(keys, strings);
                    proof {
                        assert forall|j: int|
                            0 <= j < i + 1 implies spec_tree_interned(
                            (#[trigger] m.entries@[j]).1,
                            keys@,
                            strings@,
                        ) by {
                            if j < i {
                                lemma_interned_mono(m.entries@[j].1, pk, ps, keys@, strings@);
                            }
                        }
                        assert forall|t: Seq<char>|
                            #[trigger] spec_contains_str(keys@, t) implies spec_contains_str(
                            old(keys)@,
                            t,
                        ) || spec_is_tree_key(*self, t) by {
                            if spec_contains_str(keys@, t) && !spec_contains_str(old(keys)@, t)
                                && !spec_contains_str(pk, t) {
                                assert(spec_is_tree_key(m.entries@[i as int].1, t));
                            }
                        }
                        assert forall|t: Seq<char>|
                            #[trigger] spec_contains_str(strings@, t) implies spec_contains_str(
                            old(strings)@,
                            t,
                        ) || spec_is_tree_string(*self, t) by {
                            if spec_contains_str(strings@, t) && !spec_contains_str(
                                old(strings)@,
                                t,
                            ) && !spec_contains_str(ps, t) {
                                assert(spec_is_tree_string(m.entries@[i as int].1, t));
                            }
                        }
                    }
                    i = i + 1;
                }
            }
            Byml::ValueHashMap(m) => {
                let n = m.entries.len();
                let mut i: usize = 0;
                while i < n
                    invariant
                        i <= n,
                        spec_strictly_sorted(keys@),
                        spec_strictly_sorted(strings@),
                        forall|t: Seq<char>|
                            #[trigger] spec_contains_str(old(keys)@, t) ==> spec_contains_str(
                                keys@,
                                t,
                            ),
                        forall|t: Seq<char>|
                            #[trigger] spec_contains_str(old(strings)@, t) ==> spec_contains_str(
                                strings@,
                                t,
                            ),
                        forall|j: int|
                            0 <= j < i ==> spec_tree_interned(
                                (#[trigger] m.entries@[j]).1.0,
                                keys@,
                                strings@,
                            ),
                        forall|t: Seq<char>|
                            #[trigger] spec_contains_str(keys@, t) ==> spec_contains_str(
                                old(keys)@,
                                t,
                            ) || spec_is_tree_key(*self, t),
                        forall|t: Seq<char>|
                            #[trigger] spec_contains_str(strings@, t) ==> spec_contains_str(
                                old(strings)@,
                                t,
                            ) || spec_is_tree_string(*self, t),
                    decreases n - i,
                {
                    let ghost pk = keys@;
                    let ghost ps = strings@;
                    m.entries[i].1.0.collect_strings(keys, strings);
                    proof {
                        assert forall|j: int|
                            0 <= j < i + 1 implies spec_tree_interned(
                            (#[trigger] m.entries@[j]).1.0,
                            keys@,
                            strings@,
                        ) by {
                            if j < i {
                                lemma_interned_mono(m.entries@[j].1.0, pk, ps, keys@, strings@);
                            }
                        }
                        assert forall|t: Seq<char>|
                            #[trigger] spec_contains_str(keys@, t) implies spec_contains_str(
                            old(keys)@,
                            t,
                        ) || spec_is_tree_key(*self, t) by {
                            if spec_contains_str(keys@, t) && !spec_contains_str(old(keys)@, t)
                                && !spec_contains_str(pk, t) {
                                assert(spec_is_tree_key(m.entries@[i as int].1.0, t));
                            }
                        }
                        assert forall|t: Seq<char>|
                            #[trigger] spec_contains_str(strings@, t) implies spec_contains_str(
                            old(strings)@,
                            t,
                        ) || spec_is_tree_string(*self, t) by {
                            if spec_contains_str(strings@, t) && !spec_contains_str(
                                old(strings)@,
                                t,
                            ) && !spec_contains_str(ps, t) {
                                assert(spec_is_tree_string(m.entries@[i as int].1.0, t));
                            }
                        }
                    }
                    i = i + 1;
                }
            }
            _ => {}
        }
    }
}

/// The 16 header bytes of a BYML document: the magic for the byte order,
/// the version, and the three section offsets.
pub open spec fn spec_byml_header_bytes(
    e: Endian,
    version: u16,
    hkt: u32,
    st: u32,
    root: u32,
) -> Seq<u8> {
    let magic: Seq<u8> = match e {
        Endian::Big => seq![0x42u8, 0x59u8],
        Endian::Little => seq![0x59u8, 0x42u8],
    };
    magic + spec_u16_bytes(version, e) + spec_u32_bytes(hkt, e) + spec_u32_bytes(st, e)
        + spec_u32_bytes(root, e)
}

/// Appends the 16-byte BYML header.
fn write_header(out: &mut Vec<u8>, e: Endian, version: u16, hkt: u32, st: u32, root: u32)
    ensures
        final(out)@ == old(out)@ + spec_byml_header_bytes(e, version, hkt, st, root),
{
    match e {
        Endian::Big => {
            out.push(0x42);
            out.push(0x59);
        }
        Endian::Little => {
            out.push(0x59);
            out.push(0x42);
        }
    }
    push_u16(out, version, e);
    push_u32(out, hkt, e);
    push_u32(out, st, e);
    push_u32(out, root, e);
    proof {
        assert(out@ =~= old(out)@ + spec_byml_header_bytes(e, version, hkt, st, root));
    }
}

/// Appends one string table: the table tag, the entry count, an offset
/// for each string (plus the conventional trailing offset), and the
/// NUL-terminated strings, padded to a 4-byte boundary.
fn write_string_table(out: &mut Vec<u8>, v: &Vec<String>, e: Endian) -> (r: Result<(), Error>)
    ensures
        r is Ok ==> final(out)@.len() >= old(out)@.len() + 4,
        r is Err ==> final(out)@ == old(out)@,
        r matches Err(er) ==> er is InvalidData,
        v@.len() == 0 ==> r is Ok && final(out)@.len() <= old(out)@.len() + 12,
{
    let count = v.len();
    if count as u64 >= 0x1000000 {
        return Err(Error::InvalidData("Too many strings for a BYML string table"));
    }
    // measure the offsets first
    let mut rel: u64 = 4 + 4 * (count as u64) + 4;
    let mut offs: Vec<u64> = Vec::new();
    let mut i: usize = 0;
    while i < count
        invariant
            i <= count,
            count == v@.len(),
            offs@.len() == i,
            rel >= 4,
            rel <= 0xFFFFFFFF,
        decreases count - i,
    {
        offs.push(rel);
        let nl = v[i].as_str().as_bytes().len();
        if nl as u64 > 0xFFFFFFFF || rel + (nl as u64) + 1 > 0xFFFFFFFF {
            return Err(Error::InvalidData("BYML string table too large"));
        }
        rel = rel + nl as u64 + 1;
        i = i + 1;
    }
    let end_unpadded: u64 = rel;
    let start: usize = out.len();
    let ghost base = out@.len();
    out.push(0xc2);
    push_u24(out, count as u32, e);
    i = 0;
    while i < count
        invariant
            i <= count,
            count == v@.len(),
            offs@.len() == count,
            out@.len() >= base + 4,
            start == base,
            count == 0 ==> out@.len() == base + 4,
        decreases count - i,
    {
        push_u32(out, offs[i] as u32, e);
        i = i + 1;
    }
    push_u32(out, end_unpadded as u32, e);
    i = 0;
    while i < count
        invariant
            i <= count,
            count == v@.len(),
            out@.len() >= base + 4,
            start == base,
            count == 0 ==> out@.len() == base + 8,
        decreases count - i,
    {
        push_slice(out, v[i].as_str().as_bytes());
        out.push(0);
        i = i + 1;
    }
    // pad the table, measured from its own start, to a 4-byte boundary
    let over = (out.len() - start) % 4;
    if over != 0 {
        push_zeros(out, 4 - over);
    }
    Ok(())
}

/// Finds a string's index in a table; `None` exactly when no entry
/// holds those characters.
fn find_str(v: &Vec<String>, s: &str) -> (r: Option<usize>)
    ensures
        r matches Some(i) ==> i < v@.len() && v@[i as int]@ == s@,
        r is None ==> !spec_contains_str(v@, s@),
{
    let n = v.len();
    let mut i: usize = 0;
    while i < n
        invariant
            i <= n,
            n == v@.len(),
            forall|j: int| 0 <= j < i ==> (#[trigger] v@[j])@ != s@,
        decreases n - i,
    {
        if str_eq(v[i].as_str(), s) {
            return Some(i);
        }
        i = i + 1;
    }
    None
}

/// Whether every container of the tree has fewer than 2^24 entries and
/// every blob payload fits a 32-bit size field, the format's limits.
pub open spec fn spec_tree_small(b: Byml) -> bool
    decreases b,
{
    match b {
        Byml::BinaryData(d) => d@.len() <= 0xFFFFFFFF,
        Byml::FileData(d) => d@.len() <= 0xFFFFFFFF,
        Byml::Array(v) => v@.len() < 0x1000000 && forall|i: int|
            0 <= i < v@.len() ==> spec_tree_small(#[trigger] v@[i]),
        Byml::StringMap(m) => m.entries@.len() < 0x1000000 && forall|i: int|
            0 <= i < m.entries@.len() ==> spec_tree_small((#[trigger] m.entries@[i]).1),
        Byml::HashMap(m) => m.entries@.len() < 0x1000000 && forall|i: int|
            0 <= i < m.entries@.len() ==> spec_tree_small((#[trigger] m.entries@[i]).1),
        Byml::ValueHashMap(m) => m.entries@.len() < 0x1000000 && forall|i: int|
            0 <= i < m.entries@.len() ==> spec_tree_small((#[trigger] m.entries@[i]).1.0),
        _ => true,
    }
}

/// Emits the payload of one node bottom-up and yields its 32-bit record
/// value: the inline scalar bits, the string index, or the absolute
/// offset (`base` plus the position in `out`) of the payload written.
/// Fails only on a tree over the format's limits, an uninterned string,
/// an oversized table, or a document that outgrows 32-bit offsets.
#[verifier::loop_isolation(false)]
fn emit_node(
    out: &mut Vec<u8>,
    base: usize,
    keys: &Vec<String>,
    strings: &Vec<String>,
    b: &Byml,
    e: Endian,
) -> (r: Result<u32, Error>)
    ensures
        final(out)@.len() >= old(out)@.len(),
        r matches Err(er) ==> er is InvalidData,
        r is Err ==> !spec_tree_small(*b) || !spec_tree_interned(*b, keys@, strings@) || keys@.len()
            >= 0x1000000 || strings@.len() >= 0x1000000 || base + final(out)@.len() > 0xFFFFFFFF,
        (b matches Byml::Array(v) && v@.len() == 0) ==> final(out)@.len() <= old(out)@.len()
            + 8,
        (b matches Byml::StringMap(m) && m.entries@.len() == 0) ==> final(out)@.len() <= old(
            out,
        )@.len() + 8,
        (b matches Byml::HashMap(m) && m.entries@.len() == 0) ==> final(out)@.len() <= old(
            out,
        )@.len() + 8,
        (b matches Byml::ValueHashMap(m) && m.entries@.len() == 0) ==> final(out)@.len() <= old(
            out,
        )@.len() + 8,
    decreases *b, 1int,
{
    match b {
        Byml::Null => Ok(0),
        Byml::Bool(v) => Ok(
            if *v {
                1
            } else {
                0
            },
        ),
        Byml::I32(v) => Ok(*v as u32),
        Byml::Float(v) => Ok(*v),
        Byml::U32(v) => Ok(*v),
        Byml::String(s) => {
            match find_str(strings, s.as_str()) {
                Some(i) => {
                    if i as u64 >= 0x1000000 {
                        Err(Error::InvalidData("Too many strings for a BYML string table"))
                    } else {
                        Ok(i as u32)
                    }
                }
                None => Err(Error::InvalidData("BYML string was not interned")),
            }
        }
        Byml::I64(v) => {
            let off128: u128 = base as u128 + out.len() as u128;
            if off128 > 0xFFFFFFFF {
                return Err(Error::InvalidData("BYML document too large"));
            }
            let off = off128 as u32;
            push_u64(out, *v as u64, e);
            Ok(off)
        }
        Byml::U64(v) => {
            let off128: u128 = base as u128 + out.len() as u128;
            if off128 > 0xFFFFFFFF {
                return Err(Error::InvalidData("BYML document too large"));
            }
            let off = off128 as u32;
            push_u64(out, *v, e);
            Ok(off)
        }
        Byml::Double(v) => {
            let off128: u128 = base as u128 + out.len() as u128;
            if off128 > 0xFFFFFFFF {
                return Err(Error::InvalidData("BYML document too large"));
            }
            let off = off128 as u32;
            push_u64(out, *v, e);
            Ok(off)
        }
        Byml::BinaryData(d) => {
            let off128: u128 = base as u128 + out.len() as u128;
            let dl = d.len();
            if off128 > 0xFFFFFFFF || dl as u64 > 0xFFFFFFFF {
                return Err(Error::InvalidData("BYML document too large"));
            }
            let off = off128 as u32;
            push_u32(out, dl as u32, e);
            push_slice(out, d.as_slice());
            Ok(off)
        }
        Byml::FileData(d) => {
            let off128: u128 = base as u128 + out.len() as u128;
            let dl = d.len();
            if off128 > 0xFFFFFFFF || dl as u64 > 0xFFFFFFFF {
                return Err(Error::InvalidData("BYML document too large"));
            }
            let off = off128 as u32;
            push_u32(out, dl as u32, e);
            push_u32(out, 0, e);
            push_slice(out, d.as_slice());
            Ok(off)
        }
        Byml::Array(_) => emit_array(out, base, keys, strings, b, e),
        Byml::StringMap(_) => emit_string_map(out, base, keys, strings, b, e),
        Byml::HashMap(_) => emit_hash_map(out, base, keys, strings, b, e),
        Byml::ValueHashMap(_) => emit_value_hash_map(out, base, keys, strings, b, e),
    }
}

/// Emits an array node: every element's payload first, then the header,
/// the tag bytes padded to a word boundary, and the value words.
#[verifier::loop_isolation(false)]
fn emit_array(
    out: &mut Vec<u8>,
    base: usize,
    keys: &Vec<String>,
    strings: &Vec<String>,
    b: &Byml,
    e: Endian,
) -> (r: Result<u32, Error>)
    requires
        b is Array,
    ensures
        final(out)@.len() >= old(out)@.len(),
        r matches Err(er) ==> er is InvalidData,
        r is Err ==> !spec_tree_small(*b) || !spec_tree_interned(*b, keys@, strings@) || keys@.len()
            >= 0x1000000 || strings@.len() >= 0x1000000 || base + final(out)@.len() > 0xFFFFFFFF,
        (b matches Byml::Array(v) && v@.len() == 0) ==> final(out)@.len() <= old(out)@.len()
            + 8,
        (b matches Byml::StringMap(m) && m.entries@.len() == 0) ==> final(out)@.len() <= old(
            out,
        )@.len() + 8,
        (b matches Byml::HashMap(m) && m.entries@.len() == 0) ==> final(out)@.len() <= old(
            out,
        )@.len() + 8,
        (b matches Byml::ValueHashMap(m) && m.entries@.len() == 0) ==> final(out)@.len() <= old(
            out,
        )@.len() + 8,
    decreases *b, 0int,
{
    match b {
        Byml::Array(v) => {
            let n = v.len();
            if n as u64 >= 0x1000000 {
                return Err(Error::InvalidData("Too many elements in a BYML array"));
            }
            let mut vals: Vec<u32> = Vec::new();
            let mut i: usize = 0;
            while i < n
                invariant
                    out@.len() >= old(out)@.len(),
                    i <= n,
                    vals@.len() == i,
                    n == 0 ==> out@.len() == old(out)@.len(),
                decreases n - i,
            {
                let val = match emit_node(out, base, keys, strings, &v[i], e) {
                    Ok(val) => val,
                    Err(er) => {
                        proof {
                            if !spec_tree_small(v@[i as int]) {
                                assert(!spec_tree_small(*b));
                            }
                            if !spec_tree_interned(v@[i as int], keys@, strings@) {
                                assert(!spec_tree_interned(*b, keys@, strings@));
                            }
                        }
                        return Err(er);
                    }
                };
                vals.push(val);
                i = i + 1;
            }
            let off128: u128 = base as u128 + out.len() as u128;
            if off128 > 0xFFFFFFFF {
                return Err(Error::InvalidData("BYML document too large"));
            }
            let off = off128 as u32;
            out.push(0xc0);
            push_u24(out, n as u32, e);
            i = 0;
            while i < n
                invariant
                    out@.len() >= old(out)@.len(),
                    i <= n,
                    n == 0 ==> out@.len() == old(out)@.len() + 4,
                decreases n - i,
            {
                out.push(v[i].get_node_type().tag());
                i = i + 1;
            }
            // the value words start at align_up(4 + count, 4) from the
            // node's own start, wherever the node lies in the buffer
            let over = n % 4;
            if over != 0 {
                push_zeros(out, 4 - over);
            }
            i = 0;
            while i < n
                invariant
                    out@.len() >= old(out)@.len(),
                    i <= n,
                    n == vals@.len(),
                    n == 0 ==> out@.len() == old(out)@.len() + 4,
                decreases n - i,
            {
                push_u32(out, vals[i], e);
                i = i + 1;
            }
            Ok(off)
        }
        _ => Err(Error::InvalidData("Invalid array node")),
    }
}

/// Emits a string-keyed map node: every value's payload first, then the
/// header and the 8-byte entries sorted by key index.
#[verifier::loop_isolation(false)]
fn emit_string_map(
    out: &mut Vec<u8>,
    base: usize,
    keys: &Vec<String>,
    strings: &Vec<String>,
    b: &Byml,
    e: Endian,
) -> (r: Result<u32, Error>)
    requires
        b is StringMap,
    ensures
        final(out)@.len() >= old(out)@.len(),
        r matches Err(er) ==> er is InvalidData,
        r is Err ==> !spec_tree_small(*b) || !spec_tree_interned(*b, keys@, strings@) || keys@.len()
            >= 0x1000000 || strings@.len() >= 0x1000000 || base + final(out)@.len() > 0xFFFFFFFF,
        (b matches Byml::Array(v) && v@.len() == 0) ==> final(out)@.len() <= old(out)@.len()
            + 8,
        (b matches Byml::StringMap(m) && m.entries@.len() == 0) ==> final(out)@.len() <= old(
            out,
        )@.len() + 8,
        (b matches Byml::HashMap(m) && m.entries@.len() == 0) ==> final(out)@.len() <= old(
            out,
        )@.len() + 8,
        (b matches Byml::ValueHashMap(m) && m.entries@.len() == 0) ==> final(out)@.len() <= old(
            out,
        )@.len() + 8,
    decreases *b, 0int,
{
    match b {
        Byml::StringMap(m) => {
            let n = m.entries.len();
            if n as u64 >= 0x1000000 {
                return Err(Error::InvalidData("Too many entries in a BYML map"));
            }
            let mut triples: Vec<(u32, u8, u32)> = Vec::new();
            let mut i: usize = 0;
            while i < n
                invariant
                    out@.len() >= old(out)@.len(),
                    i <= n,
                    forall|j: int| 0 <= j < triples@.len() ==> (#[trigger] triples@[j]).0
                        < 0x1000000,
                    n == 0 ==> out@.len() == old(out)@.len() && triples@.len() == 0,
                decreases n - i,
            {
                let idx = match find_str(keys, m.entries[i].0.as_str()) {
                    Some(idx) => idx,
                    None => {
                        proof {
                            assert(!spec_contains_str(keys@, m.entries@[i as int].0@));
                            assert(!spec_tree_interned(*b, keys@, strings@));
                        }
                        return Err(Error::InvalidData("BYML map key was not interned"));
                    }
                };
                if idx as u64 >= 0x1000000 {
                    proof {
                        assert(keys@.len() >= 0x1000000);
                    }
                    return Err(Error::InvalidData("Too many keys in the BYML key table"));
                }
                let val = match emit_node(out, base, keys, strings, &m.entries[i].1, e) {
                    Ok(val) => val,
                    Err(er) => {
                        proof {
                            if !spec_tree_small(m.entries@[i as int].1) {
                                assert(!spec_tree_small(*b));
                            }
                            if !spec_tree_interned(m.entries@[i as int].1, keys@, strings@) {
                                assert(!spec_tree_interned(*b, keys@, strings@));
                            }
                        }
                        return Err(er);
                    }
                };
                triples.push((idx as u32, m.entries[i].1.get_node_type().tag(), val));
                i = i + 1;
            }
            // the format requires entries sorted by key index
            let sorted = sort_triples(triples);
            let off128: u128 = base as u128 + out.len() as u128;
            if off128 > 0xFFFFFFFF {
                return Err(Error::InvalidData("BYML document too large"));
            }
            let off = off128 as u32;
            out.push(0xc1);
            push_u24(out, n as u32, e);
            let sn = sorted.len();
            i = 0;
            while i < sn
                invariant
                    out@.len() >= old(out)@.len(),
                    i <= sn,
                    sn == sorted@.len(),
                    forall|j: int| 0 <= j < sorted@.len() ==> (#[trigger] sorted@[j]).0
                        < 0x1000000,
                    n == 0 ==> out@.len() == old(out)@.len() + 4,
                decreases sn - i,
            {
                push_u24(out, sorted[i].0, e);
                out.push(sorted[i].1);
                push_u32(out, sorted[i].2, e);
                i = i + 1;
            }
            Ok(off)
        }
        _ => Err(Error::InvalidData("Invalid map node")),
    }
}

/// Emits a u32-keyed map node: every value's payload first, then the
/// header, the 8-byte entries sorted by hash, and the tag bytes.
#[verifier::loop_isolation(false)]
fn emit_hash_map(
    out: &mut Vec<u8>,
    base: usize,
    keys: &Vec<String>,
    strings: &Vec<String>,
    b: &Byml,
    e: Endian,
) -> (r: Result<u32, Error>)
    requires
        b is HashMap,
    ensures
        final(out)@.len() >= old(out)@.len(),
        r matches Err(er) ==> er is InvalidData,
        r is Err ==> !spec_tree_small(*b) || !spec_tree_interned(*b, keys@, strings@) || keys@.len()
            >= 0x1000000 || strings@.len() >= 0x1000000 || base + final(out)@.len() > 0xFFFFFFFF,
        (b matches Byml::Array(v) && v@.len() == 0) ==> final(out)@.len() <= old(out)@.len()
            + 8,
        (b matches Byml::StringMap(m) && m.entries@.len() == 0) ==> final(out)@.len() <= old(
            out,
        )@.len() + 8,
        (b matches Byml::HashMap(m) && m.entries@.len() == 0) ==> final(out)@.len() <= old(
            out,
        )@.len() + 8,
        (b matches Byml::ValueHashMap(m) && m.entries@.len() == 0) ==> final(out)@.len() <= old(
            out,
        )@.len() + 8,
    decreases *b, 0int,
{
    match b {
        Byml::HashMap(m) => {
            let n = m.entries.len();
            if n as u64 >= 0x1000000 {
                return Err(Error::InvalidData("Too many entries in a BYML hash map"));
            }
            let mut quads: Vec<(u32, u8, u32, u32)> = Vec::new();
            let mut i: usize = 0;
            while i < n
                invariant
                    out@.len() >= old(out)@.len(),
                    i <= n,
                    n == 0 ==> out@.len() == old(out)@.len() && quads@.len() == 0,
                decreases n - i,
            {
                let val = match emit_node(out, base, keys, strings, &m.entries[i].1, e) {
                    Ok(val) => val,
                    Err(er) => {
                        proof {
                            if !spec_tree_small(m.entries@[i as int].1) {
                                assert(!spec_tree_small(*b));
                            }
                            if !spec_tree_interned(m.entries@[i as int].1, keys@, strings@) {
                                assert(!spec_tree_interned(*b, keys@, strings@));
                            }
                        }
                        return Err(er);
                    }
                };
                quads.push((m.entries[i].0, m.entries[i].1.get_node_type().tag(), val, 0));
                i = i + 1;
            }
            let sorted = sort_quads(quads);
            let off128: u128 = base as u128 + out.len() as u128;
            if off128 > 0xFFFFFFFF {
                return Err(Error::InvalidData("BYML document too large"));
            }
            let off = off128 as u32;
            out.push(0x20);
            push_u24(out, n as u32, e);
            let sn = sorted.len();
            i = 0;
            while i < sn
                invariant
                    out@.len() >= old(out)@.len(),
                    i <= sn,
                    sn == sorted@.len(),
                    n == 0 ==> out@.len() == old(out)@.len() + 4,
                decreases sn - i,
            {
                push_u32(out, sorted[i].0, e);
                push_u32(out, sorted[i].2, e);
                i = i + 1;
            }
            i = 0;
            while i < sn
                invariant
                    out@.len() >= old(out)@.len(),
                    i <= sn,
                    sn == sorted@.len(),
                    n == 0 ==> out@.len() == old(out)@.len() + 4,
                decreases sn - i,
            {
                out.push(sorted[i].1);
                i = i + 1;
            }
            Ok(off)
        }
        _ => Err(Error::InvalidData("Invalid hash map node")),
    }
}

/// Emits a u32-keyed map node with auxiliary values: every value's
/// payload first, then the header, the 12-byte entries sorted by hash,
/// and the tag bytes.
#[verifier::loop_isolation(false)]
fn emit_value_hash_map(
    out: &mut Vec<u8>,
    base: usize,
    keys: &Vec<String>,
    strings: &Vec<String>,
    b: &Byml,
    e: Endian,
) -> (r: Result<u32, Error>)
    requires
        b is ValueHashMap,
    ensures
        final(out)@.len() >= old(out)@.len(),
        r matches Err(er) ==> er is InvalidData,
        r is Err ==> !spec_tree_small(*b) || !spec_tree_interned(*b, keys@, strings@) || keys@.len()
            >= 0x1000000 || strings@.len() >= 0x1000000 || base + final(out)@.len() > 0xFFFFFFFF,
        (b matches Byml::Array(v) && v@.len() == 0) ==> final(out)@.len() <= old(out)@.len()
            + 8,
        (b matches Byml::StringMap(m) && m.entries@.len() == 0) ==> final(out)@.len() <= old(
            out,
        )@.len() + 8,
        (b matches Byml::HashMap(m) && m.entries@.len() == 0) ==> final(out)@.len() <= old(
            out,
        )@.len() + 8,
        (b matches Byml::ValueHashMap(m) && m.entries@.len() == 0) ==> final(out)@.len() <= old(
            out,
        )@.len() + 8,
    decreases *b, 0int,
{
    match b {
        Byml::ValueHashMap(m) => {
            let n = m.entries.len();
            if n as u64 >= 0x1000000 {
                return Err(Error::InvalidData("Too many entries in a BYML hash map"));
            }
            let mut quads: Vec<(u32, u8, u32, u32)> = Vec::new();
            let mut i: usize = 0;
            while i < n
                invariant
                    out@.len() >= old(out)@.len(),
                    i <= n,
                    n == 0 ==> out@.len() == old(out)@.len() && quads@.len() == 0,
                decreases n - i,
            {
                let val = match emit_node(out, base, keys, strings, &m.entries[i].1.0, e) {
                    Ok(val) => val,
                    Err(er) => {
                        proof {
                            if !spec_tree_small(m.entries@[i as int].1.0) {
                                assert(!spec_tree_small(*b));
                            }
                            if !spec_tree_interned(m.entries@[i as int].1.0, keys@, strings@) {
                                assert(!spec_tree_interned(*b, keys@, strings@));
                            }
                        }
                        return Err(er);
                    }
                };
                quads.push(
                    (
                        m.entries[i].0,
                        m.entries[i].1.0.get_node_type().tag(),
                        val,
                        m.entries[i].1.1,
                    ),
                );
                i = i + 1;
            }
            let sorted = sort_quads(quads);
            let off128: u128 = base as u128 + out.len() as u128;
            if off128 > 0xFFFFFFFF {
                return Err(Error::InvalidData("BYML document too large"));
            }
            let off = off128 as u32;
            out.push(0x21);
            push_u24(out, n as u32, e);
            let sn = sorted.len();
            i = 0;
            while i < sn
                invariant
                    out@.len() >= old(out)@.len(),
                    i <= sn,
                    sn == sorted@.len(),
                    n == 0 ==> out@.len() == old(out)@.len() + 4,
                decreases sn - i,
            {
                push_u32(out, sorted[i].0, e);
                push_u32(out, sorted[i].2, e);
                push_u32(out, sorted[i].3, e);
                i = i + 1;
            }
            i = 0;
            while i < sn
                invariant
                    out@.len() >= old(out)@.len(),
                    i <= sn,
                    sn == sorted@.len(),
                    n == 0 ==> out@.len() == old(out)@.len() + 4,
                decreases sn - i,
            {
                out.push(sorted[i].1);
                i = i + 1;
            }
            Ok(off)
        }
        _ => Err(Error::InvalidData("Invalid value hash map node")),
    }
}

/// Sorts map-entry triples by ascending first component, keeping the
/// 24-bit bound on every first component.
fn sort_triples(v: Vec<(u32, u8, u32)>) -> (r: Vec<(u32, u8, u32)>)
    requires
        forall|j: int| 0 <= j < v@.len() ==> (#[trigger] v@[j]).0 < 0x1000000,
    ensures
        r@.len() == v@.len(),
        forall|j: int| 0 <= j < r@.len() ==> (#[trigger] r@[j]).0 < 0x1000000,
        forall|i: int, j: int| 0 <= i <= j < r@.len() ==> (#[trigger] r@[i]).0 <= (
        #[trigger] r@[j]).0,
{
    let mut work = v;
    let mut out: Vec<(u32, u8, u32)> = Vec::new();
    while work.len() > 0
        invariant
            out@.len() + work@.len() == v@.len(),
            forall|j: int| 0 <= j < out@.len() ==> (#[trigger] out@[j]).0 < 0x1000000,
            forall|j: int| 0 <= j < work@.len() ==> (#[trigger] work@[j]).0 < 0x1000000,
            forall|i: int, j: int|
                0 <= i <= j < out@.len() ==> (#[trigger] out@[i]).0 <= (#[trigger] out@[j]).0,
            forall|i: int, j: int|
                0 <= i < out@.len() && 0 <= j < work@.len() ==> (#[trigger] out@[i]).0 <= (
                #[trigger] work@[j]).0,
        decreases work.len(),
    {
        let m = work.len();
        let mut best: usize = 0;
        let mut j: usize = 1;
        while j < m
            invariant
                m == work@.len(),
                m >= 1,
                best < j <= m,
                forall|q: int| 0 <= q < j ==> work@[best as int].0 <= (#[trigger] work@[q]).0,
            decreases m - j,
        {
            if work[j].0 < work[best].0 {
                best = j;
            }
            j = j + 1;
        }
        let picked = work.remove(best);
        out.push(picked);
    }
    out
}

/// Sorts hash-map quadruples by ascending first component.
fn sort_quads(v: Vec<(u32, u8, u32, u32)>) -> (r: Vec<(u32, u8, u32, u32)>)
    ensures
        r@.len() == v@.len(),
        forall|i: int, j: int| 0 <= i <= j < r@.len() ==> (#[trigger] r@[i]).0 <= (
        #[trigger] r@[j]).0,
{
    let mut work = v;
    let mut out: Vec<(u32, u8, u32, u32)> = Vec::new();
    while work.len() > 0
        invariant
            out@.len() + work@.len() == v@.len(),
            forall|i: int, j: int|
                0 <= i <= j < out@.len() ==> (#[trigger] out@[i]).0 <= (#[trigger] out@[j]).0,
            forall|i: int, j: int|
                0 <= i < out@.len() && 0 <= j < work@.len() ==> (#[trigger] out@[i]).0 <= (
                #[trigger] work@[j]).0,
        decreases work.len(),
    {
        let m = work.len();
        let mut best: usize = 0;
        let mut j: usize = 1;
        while j < m
            invariant
                m == work@.len(),
                m >= 1,
                best < j <= m,
                forall|q: int| 0 <= q < j ==> work@[best as int].0 <= (#[trigger] work@[q]).0,
            decreases m - j,
        {
            if work[j].0 < work[best].0 {
                best = j;
            }
            j = j + 1;
        }
        let picked = work.remove(best);
        out.push(picked);
    }
    out
}

impl Byml {
    /// Writes the tree as a BYML document in the given byte order.
    ///
    /// A `Null` tree becomes exactly the 16-byte version-2 header with
    /// all three offsets zero. Any other tree must be rooted in a
    /// container; its interned key and string tables are emitted in
    /// strictly ascending lexicographic order, and the header's version
    /// is 7 exactly when the tree holds a u32-keyed container, else 2.
    #[verifier::rlimit(60)]
    #[verifier::spinoff_prover]
    pub fn to_binary(&self, endian: Endian) -> (r: Result<Vec<u8>, Error>)
        ensures
            self is Null ==> (r matches Ok(out) && out@ =~= spec_byml_header_bytes(
                endian,
                2,
                0,
                0,
                0,
            )),
            r matches Ok(out) ==> out@.len() >= 16 && exists|hkt: u32, st: u32, root: u32|
                out@.subrange(0, 16) == #[trigger] spec_byml_header_bytes(
                    endian,
                    spec_byml_writer_version(*self),
                    hkt,
                    st,
                    root,
                ),
            !(self is Null) && !crate::byml::spec_is_container_type(self.spec_node_type()) ==> r
                is Err,
            r is Err ==> !(self is Null),
            r matches Err(er) ==> er is InvalidData,
            (self matches Byml::Array(v) && v@.len() == 0) ==> r is Ok,
            (self matches Byml::StringMap(m) && m.entries@.len() == 0) ==> r is Ok,
            (self matches Byml::HashMap(m) && m.entries@.len() == 0) ==> r is Ok,
            (self matches Byml::ValueHashMap(m) && m.entries@.len() == 0) ==> r is Ok,
    {
        let ghost er_root = (self matches Byml::Array(v) && v@.len() == 0) || (
        self matches Byml::StringMap(m) && m.entries@.len() == 0) || (self matches Byml::HashMap(m)
            && m.entries@.len() == 0) || (self matches Byml::ValueHashMap(m) && m.entries@.len()
            == 0);
        let version: u16 = if self.contains_v7() {
            7
        } else {
            2
        };
        match self {
            Byml::Null => {
                let mut out: Vec<u8> = Vec::new();
                write_header(&mut out, endian, 2, 0, 0, 0);
                proof {
                    assert(out@ =~= spec_byml_header_bytes(endian, 2, 0, 0, 0));
                    assert(spec_byml_writer_version(*self) == 2);
                    assert(out@.subrange(0, 16) == spec_byml_header_bytes(
                        endian,
                        spec_byml_writer_version(*self),
                        0u32,
                        0u32,
                        0u32,
                    ));
                }
                return Ok(out);
            }
            Byml::Array(_) | Byml::StringMap(_) | Byml::HashMap(_) | Byml::ValueHashMap(_) => {}
            _ => {
                return Err(Error::InvalidData("BYML root must be a container"));
            }
        }
        let mut keys: Vec<String> = Vec::new();
        let mut strings: Vec<String> = Vec::new();
        self.collect_strings(&mut keys, &mut strings);
        proof {
            if er_root {
                if keys@.len() > 0 {
                    assert(spec_contains_str(keys@, keys@[0]@));
                    assert(false);
                }
                if strings@.len() > 0 {
                    assert(spec_contains_str(strings@, strings@[0]@));
                    assert(false);
                }
            }
        }
        let mut kt: Vec<u8> = Vec::new();
        match write_string_table(&mut kt, &keys, endian) {
            Ok(_) => {}
            Err(er) => {
                proof {
                    if er_root {
                        assert(false);
                    }
                }
                return Err(er);
            }
        }
        let mut st: Vec<u8> = Vec::new();
        match write_string_table(&mut st, &strings, endian) {
            Ok(_) => {}
            Err(er) => {
                proof {
                    if er_root {
                        assert(false);
                    }
                }
                return Err(er);
            }
        }
        let base128: u128 = 16u128 + kt.len() as u128 + st.len() as u128;
        if base128 > 0xFFFFFFFF {
            proof {
                if er_root {
                    assert(false);
                }
            }
            return Err(Error::InvalidData("BYML document too large"));
        }
        let base: usize = base128 as usize;
        let hkt_off: u32 = 16;
        let st_off: u32 = (16 + kt.len()) as u32;
        let mut body: Vec<u8> = Vec::new();
        let root_val = match emit_node(&mut body, base, &keys, &strings, self, endian) {
            Ok(v) => v,
            Err(er) => {
                proof {
                    if er_root {
                        assert(spec_tree_small(*self));
                        assert(spec_tree_interned(*self, keys@, strings@));
                        assert(base + body@.len() <= 48);
                        assert(false);
                    }
                }
                return Err(er);
            }
        };
        let mut out: Vec<u8> = Vec::new();
        write_header(&mut out, endian, version, hkt_off, st_off, root_val);
        let ghost header = out@;
        push_slice(&mut out, kt.as_slice());
        push_slice(&mut out, st.as_slice());
        push_slice(&mut out, body.as_slice());
        proof {
            assert(header.len() == 16);
            assert(version == spec_byml_writer_version(*self));
            assert(out@.subrange(0, 16) == spec_byml_header_bytes(
                endian,
                spec_byml_writer_version(*self),
                hkt_off,
                st_off,
                root_val,
            ));
        }
        Ok(out)
    }
}

} // verus!
