use roead::byml::{Byml, BymlHashMap, BymlMap, BymlValueHashMap, NodeType};
use roead::byml_parser::{BymlIndex, BymlIter, BymlNode};
use roead::{Endian, Error};
use std::collections::hash_map::DefaultHasher;
use std::hash::{Hash, Hasher};

/// The empty document: a 16-byte big-endian header, version 2, all three
/// offsets zero. It materializes to `Null` and re-emitting it yields the
/// identical 16 bytes.
#[test]
fn empty_byml_round_trip() {
    let header: Vec<u8> = vec![
        0x42, 0x59, // "BY"
        0x00, 0x02, // version 2, big endian
        0x00, 0x00, 0x00, 0x00, // hash key table offset
        0x00, 0x00, 0x00, 0x00, // string table offset
        0x00, 0x00, 0x00, 0x00, // root node offset
    ];
    let tree = Byml::from_binary(&header).unwrap();
    assert!(tree.is_null());
    let out = Byml::Null.to_binary(Endian::Big).unwrap();
    assert_eq!(out, header);
}

fn sample_map_tree() -> Byml {
    // keys inserted in sorted order, the order the writer's key table uses
    let mut m = BymlMap::new();
    m.insert("alpha".to_string(), Byml::I32(-5));
    m.insert("beta".to_string(), Byml::String("hello".to_string()));
    m.insert(
        "gamma".to_string(),
        Byml::Array(vec![
            Byml::Bool(true),
            Byml::U32(7),
            Byml::I64(-1234567890123),
            Byml::U64(0xDEAD_BEEF_CAFE_F00D),
            Byml::Double(0x3FF0000000000000), // 1.0 as bits
            Byml::Float(0x3F800000),          // 1.0f32 as bits
            Byml::BinaryData(vec![1, 2, 3, 4, 5]),
            Byml::FileData(vec![9, 9, 9]),
            Byml::Null,
        ]),
    );
    Byml::StringMap(m)
}

#[test]
fn map_tree_round_trip_big() {
    let tree = sample_map_tree();
    let bytes = tree.to_binary(Endian::Big).unwrap();
    let back = Byml::from_binary(&bytes).unwrap();
    assert_eq!(back, tree);
}

#[test]
fn map_tree_round_trip_little() {
    let tree = sample_map_tree();
    let bytes = tree.to_binary(Endian::Little).unwrap();
    assert_eq!(&bytes[0..2], b"YB");
    let back = Byml::from_binary(&bytes).unwrap();
    assert_eq!(back, tree);
}

#[test]
fn version_seven_for_hash_maps() {
    let mut hm = BymlHashMap::new();
    hm.insert(42, Byml::I32(1));
    hm.insert(7, Byml::Bool(false));
    let tree = Byml::HashMap(hm);
    let bytes = tree.to_binary(Endian::Big).unwrap();
    // big-endian version field at offset 2
    assert_eq!(bytes[2], 0x00);
    assert_eq!(bytes[3], 0x07);
    let back = Byml::from_binary(&bytes).unwrap();
    // entries come back sorted ascending by hash
    let m = back.as_hash_map().unwrap();
    assert_eq!(m.len(), 2);
    assert_eq!(m.get(7), Some(&Byml::Bool(false)));
    assert_eq!(m.get(42), Some(&Byml::I32(1)));
}

#[test]
fn value_hash_map_keeps_auxiliary_values() {
    let mut vm = BymlValueHashMap::new();
    vm.insert(100, (Byml::String("x".to_string()), 0xAABBCCDD));
    vm.insert(5, (Byml::I32(3), 17));
    let tree = Byml::ValueHashMap(vm);
    let bytes = tree.to_binary(Endian::Little).unwrap();
    let back = Byml::from_binary(&bytes).unwrap();
    let m = back.as_value_hash_map().unwrap();
    assert_eq!(m.len(), 2);
    assert_eq!(m.get(5), Some(&(Byml::I32(3), 17)));
    assert_eq!(m.get(100), Some(&(Byml::String("x".to_string()), 0xAABBCCDD)));
}

/// Unsorted insertion still round-trips by content: the binary encoding
/// sorts map entries by key index, so lookups find every key.
#[test]
fn unsorted_keys_round_trip_by_content() {
    let mut m = BymlMap::new();
    m.insert("zeta".to_string(), Byml::I32(1));
    m.insert("alpha".to_string(), Byml::I32(2));
    m.insert("mid".to_string(), Byml::I32(3));
    let tree = Byml::StringMap(m);
    let bytes = tree.to_binary(Endian::Big).unwrap();
    let back = Byml::from_binary(&bytes).unwrap();
    let bm = back.as_map().unwrap();
    assert_eq!(bm.len(), 3);
    assert_eq!(bm.get("zeta"), Some(&Byml::I32(1)));
    assert_eq!(bm.get("alpha"), Some(&Byml::I32(2)));
    assert_eq!(bm.get("mid"), Some(&Byml::I32(3)));
    assert_eq!(bm.get("missing"), None);
}

/// Binary-search consistency: the zero-copy reader's keyed lookups agree
/// with what the materialized tree holds.
#[test]
fn reader_lookup_matches_materialized_tree() {
    let tree = sample_map_tree();
    let bytes = tree.to_binary(Endian::Big).unwrap();
    let it = BymlIter::new(&bytes).unwrap();
    assert!(it.is_map());
    assert!(it.is_container());
    assert!(!it.is_array());
    assert!(!it.is_hash_map());
    assert!(!it.is_value_hash_map());

    let alpha = it.get(BymlIndex::StringIdx("alpha")).unwrap();
    assert_eq!(alpha, BymlNode::I32(-5));
    let beta = it.get(BymlIndex::StringIdx("beta")).unwrap();
    assert_eq!(it.get_string_data(beta), Some("hello"));
    assert_eq!(it.get(BymlIndex::StringIdx("nope")), None);

    let gamma = it.get(BymlIndex::StringIdx("gamma")).unwrap();
    let b0 = it.get_from(gamma, BymlIndex::ArrayIdx(0)).unwrap();
    assert_eq!(b0, BymlNode::Bool(true));
    let b2 = it.get_from(gamma, BymlIndex::ArrayIdx(2)).unwrap();
    assert_eq!(it.get_i64_data(b2), Some(-1234567890123));
    let b3 = it.get_from(gamma, BymlIndex::ArrayIdx(3)).unwrap();
    assert_eq!(it.get_u64_data(b3), Some(0xDEAD_BEEF_CAFE_F00D));
    let b4 = it.get_from(gamma, BymlIndex::ArrayIdx(4)).unwrap();
    assert_eq!(it.get_double_data(b4), Some(0x3FF0000000000000));
    let b6 = it.get_from(gamma, BymlIndex::ArrayIdx(6)).unwrap();
    assert_eq!(it.get_binary_data(b6), Some(&[1u8, 2, 3, 4, 5][..]));
    let b7 = it.get_from(gamma, BymlIndex::ArrayIdx(7)).unwrap();
    assert_eq!(it.get_file_data(b7), Some(&[9u8, 9, 9][..]));
    assert_eq!(it.get_from(gamma, BymlIndex::ArrayIdx(9)), None);
}

#[test]
fn hash_map_reader_lookup() {
    let mut hm = BymlHashMap::new();
    hm.insert(0x0040E63E, Byml::U32(0xD548098A));
    hm.insert(0x0071D16D, Byml::I32(12));
    hm.insert(3, Byml::Bool(true));
    let bytes = Byml::HashMap(hm).to_binary(Endian::Big).unwrap();
    let it = BymlIter::new(&bytes).unwrap();
    assert!(it.is_hash_map());
    let v = it.get(BymlIndex::HashIdx(0x0040E63E)).unwrap();
    assert_eq!(v, BymlNode::U32(0xD548098A));
    assert_eq!(it.get(BymlIndex::HashIdx(4)), None);
}

#[test]
fn byml_header_errors() {
    assert!(matches!(
        Byml::from_binary(&[0x42, 0x59]),
        Err(Error::InsufficientData(2, 16))
    ));
    let mut bad_magic = vec![0u8; 16];
    bad_magic[0] = 0x51;
    bad_magic[1] = 0x51;
    assert!(matches!(Byml::from_binary(&bad_magic), Err(Error::BadMagic(_))));
    let mut bad_version = vec![0u8; 16];
    bad_version[0] = 0x42;
    bad_version[1] = 0x59;
    bad_version[2] = 0x00;
    bad_version[3] = 0x00; // version 0
    assert!(matches!(
        Byml::from_binary(&bad_version),
        Err(Error::InvalidVersion(0))
    ));
    let mut bad_version9 = vec![0u8; 16];
    bad_version9[0] = 0x42;
    bad_version9[1] = 0x59;
    bad_version9[2] = 0x00;
    bad_version9[3] = 0x09; // version 9
    assert!(matches!(
        Byml::from_binary(&bad_version9),
        Err(Error::InvalidVersion(9))
    ));
}

#[test]
fn accessors_distinguish_variants() {
    let b = Byml::I32(4);
    assert_eq!(b.as_i32().unwrap(), 4);
    assert!(matches!(b.as_bool(), Err(Error::TypeError("I32", "Bool"))));
    assert!(matches!(b.as_string(), Err(Error::TypeError(_, _))));
    let s = Byml::String("q".to_string());
    assert_eq!(s.as_string().unwrap(), "q");
    assert_eq!(s.into_string().unwrap(), "q");
    let f = Byml::Float(0x40490FDB); // pi as f32 bits
    assert_eq!(f.as_float().unwrap(), 0x40490FDB);
    assert!(Byml::Null.is_null());
    assert_eq!(Byml::default(), Byml::Null);
    assert_eq!(Byml::Bool(true).get_node_type(), NodeType::Bool);
}

#[test]
fn node_type_tags() {
    assert_eq!(NodeType::StringMap.tag(), 0xc1);
    assert_eq!(NodeType::from_tag(0xc1), Some(NodeType::StringMap));
    assert_eq!(NodeType::from_tag(0x20), Some(NodeType::HashMap));
    assert_eq!(NodeType::from_tag(0x42), None);
    assert!(roead::byml::is_container_type(NodeType::Array));
    assert!(!roead::byml::is_container_type(NodeType::I32));
    assert!(roead::byml::is_valid_version(1));
    assert!(roead::byml::is_valid_version(7));
    assert!(!roead::byml::is_valid_version(0));
    assert!(!roead::byml::is_valid_version(8));
}

/// Map lookup agrees with a linear scan of the entries.
#[test]
fn map_lookup_is_linear_scan() {
    let mut m = BymlMap::new();
    m.insert("one".to_string(), Byml::I32(1));
    m.insert("two".to_string(), Byml::I32(2));
    m.insert("three".to_string(), Byml::I32(3));
    for want in ["one", "two", "three"] {
        let via_get = m.get(want);
        let mut via_scan = None;
        for i in 0..m.len() {
            let (k, v) = m.entry_at(i);
            if k == want && via_scan.is_none() {
                via_scan = Some(v);
            }
        }
        assert_eq!(via_get, via_scan);
    }
    assert_eq!(m.get("four"), None);
    // replacement keeps the position and the new value
    m.insert("two".to_string(), Byml::I32(22));
    assert_eq!(m.get("two"), Some(&Byml::I32(22)));
    assert_eq!(m.len(), 3);
}

/// The writer's interned tables are strictly ascending in lexicographic
/// byte order.
#[test]
fn interned_tables_are_sorted() {
    let tree = {
        let mut m = BymlMap::new();
        m.insert("zz".to_string(), Byml::String("val-c".to_string()));
        m.insert("aa".to_string(), Byml::String("val-a".to_string()));
        m.insert("mm".to_string(), Byml::String("val-b".to_string()));
        Byml::StringMap(m)
    };
    let mut keys = Vec::new();
    let mut strings = Vec::new();
    tree.collect_strings(&mut keys, &mut strings);
    assert_eq!(keys, vec!["aa".to_string(), "mm".to_string(), "zz".to_string()]);
    assert_eq!(
        strings,
        vec!["val-a".to_string(), "val-b".to_string(), "val-c".to_string()]
    );
    // interning twice changes nothing
    tree.collect_strings(&mut keys, &mut strings);
    assert_eq!(keys.len(), 3);
    assert_eq!(strings.len(), 3);
}

#[test]
fn error_messages_name_the_problem() {
    assert_eq!(Error::BadMagic("BY").message(), "bad magic value");
    assert_eq!(Error::InvalidVersion(9).message(), "invalid version");
    assert_eq!(Error::InsufficientData(1, 2).message(), "data too short");
    assert_eq!(Error::TypeError("I32", "Bool").message(), "incorrect node type");
    assert_eq!(Error::InvalidUtf8.message(), "invalid UTF-8");
}

#[test]
fn iteration_collectors() {
    let tree = sample_map_tree();
    let bytes = tree.to_binary(Endian::Big).unwrap();
    let it = BymlIter::new(&bytes).unwrap();
    assert!(it.iter_as_array().is_none());
    assert!(it.iter_as_hash_map().is_none());
    let entries = it.iter_as_map().unwrap();
    assert_eq!(entries.len(), 3);
    assert_eq!(entries[0].0, "alpha");
    assert_eq!(entries[1].0, "beta");
    assert_eq!(entries[2].0, "gamma");
    assert_eq!(entries[0].1, BymlNode::I32(-5));
    let elems = it.iter_array_data(entries[2].1).unwrap();
    assert_eq!(elems.len(), 9);
    assert_eq!(elems[0], BymlNode::Bool(true));
    assert_eq!(elems[1], BymlNode::U32(7));
    assert_eq!(elems[8], BymlNode::Null);
    assert!(it.iter_array_data(entries[0].1).is_none());

    let mut hm = BymlHashMap::new();
    hm.insert(9, Byml::I32(90));
    hm.insert(2, Byml::I32(20));
    let hb = Byml::HashMap(hm).to_binary(Endian::Little).unwrap();
    let hit = BymlIter::new(&hb).unwrap();
    let pairs = hit.iter_as_hash_map().unwrap();
    assert_eq!(pairs.len(), 2);
    assert_eq!(pairs[0].0, 2);
    assert_eq!(pairs[1].0, 9);
}

/// An array whose node starts at an unaligned offset still places its
/// value words at `align_up(4 + count, 4)` from the node's own start.
#[test]
fn array_after_odd_sized_payload() {
    // the 5-byte binary payload is emitted before the array node, so the
    // array header begins at an offset that is not a multiple of four
    let tree = Byml::Array(vec![
        Byml::BinaryData(vec![1, 2, 3, 4, 5]),
        Byml::I32(77),
        Byml::String("x".to_string()),
    ]);
    for e in [Endian::Big, Endian::Little] {
        let bytes = tree.to_binary(e).unwrap();
        let back = Byml::from_binary(&bytes).unwrap();
        assert_eq!(back, tree);
    }
    // nested: the odd payload sits inside a map value before an array
    let mut m = BymlMap::new();
    m.insert("a".to_string(), Byml::FileData(vec![9, 9, 9]));
    m.insert("b".to_string(), Byml::Array(vec![Byml::Bool(true), Byml::U32(1)]));
    let tree2 = Byml::StringMap(m);
    let bytes2 = tree2.to_binary(Endian::Big).unwrap();
    assert_eq!(Byml::from_binary(&bytes2).unwrap(), tree2);
}

/// An empty root container always writes, and parses back to itself.
#[test]
fn empty_containers_always_write() {
    let trees = [
        Byml::Array(vec![]),
        Byml::StringMap(BymlMap::new()),
        Byml::HashMap(BymlHashMap::new()),
        Byml::ValueHashMap(BymlValueHashMap::new()),
    ];
    for tree in trees {
        for e in [Endian::Big, Endian::Little] {
            let bytes = tree.to_binary(e).unwrap();
            assert_eq!(Byml::from_binary(&bytes).unwrap(), tree);
        }
    }
    // a scalar root is rejected: the format wants a container
    assert!(matches!(
        Byml::I32(1).to_binary(Endian::Big),
        Err(Error::InvalidData(_))
    ));
}

/// Equal trees hash equally; the bit patterns of floats take part.
#[test]
fn tree_hashing() {
    fn hash_of(b: &Byml) -> u64 {
        let mut h = DefaultHasher::new();
        b.hash(&mut h);
        h.finish()
    }
    let a = sample_map_tree();
    let b = sample_map_tree();
    assert_eq!(hash_of(&a), hash_of(&b));
    assert_ne!(hash_of(&Byml::Float(0x3F800000)), hash_of(&Byml::U32(0x3F800000)));
}
