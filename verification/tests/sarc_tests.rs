use roead::sarc::Sarc;
use roead::sarc_writer::SarcWriter;
use roead::{Endian, Error};

fn sample_writer(endian: Endian) -> SarcWriter {
    let mut w = SarcWriter::new(endian);
    w.add_file("Actor/readme.txt".to_string(), b"hello world".to_vec());
    w.add_file("Map/data.bin".to_string(), vec![1, 2, 3, 4, 5, 6, 7, 8]);
    w.add_file("zzz.dat".to_string(), vec![0xAA; 17]);
    w
}

#[test]
fn write_then_read_back() {
    let mut w = sample_writer(Endian::Big);
    let bytes = w.to_binary().unwrap();
    let sarc = Sarc::new(&bytes).unwrap();
    assert_eq!(sarc.endian(), Endian::Big);
    assert_eq!(sarc.len(), 3);
    assert!(!sarc.is_empty());
    assert_eq!(sarc.get_data("Actor/readme.txt").unwrap(), b"hello world");
    assert_eq!(
        sarc.get_data("Map/data.bin").unwrap(),
        &[1, 2, 3, 4, 5, 6, 7, 8]
    );
    assert_eq!(sarc.get_data("zzz.dat").unwrap(), &[0xAA; 17][..]);
    assert!(sarc.get("missing.file").is_none());
    assert!(sarc.try_get("missing.file").unwrap().is_none());
    let f = sarc.get("zzz.dat").unwrap();
    assert_eq!(f.name, Some("zzz.dat"));
    assert_eq!(f.data, &[0xAA; 17][..]);
    assert_eq!(sarc.guess_min_alignment(), 4);
}

#[test]
fn write_then_read_back_little() {
    let mut w = sample_writer(Endian::Little);
    let bytes = w.to_binary().unwrap();
    assert_eq!(&bytes[6..8], b"\xff\xfe");
    let sarc = Sarc::new(&bytes).unwrap();
    assert_eq!(sarc.endian(), Endian::Little);
    assert_eq!(sarc.len(), 3);
    assert_eq!(sarc.get_data("Map/data.bin").unwrap(), &[1, 2, 3, 4, 5, 6, 7, 8]);
}

/// Rebuilding an archive from its own reader without modification yields
/// a byte-identical buffer.
#[test]
fn sarc_rebuild_is_byte_identical() {
    let mut w = sample_writer(Endian::Big);
    let bytes = w.to_binary().unwrap();
    let sarc = Sarc::new(&bytes).unwrap();
    let mut w2 = SarcWriter::from_sarc(&sarc);
    let bytes2 = w2.to_binary().unwrap();
    assert_eq!(bytes, bytes2);
}

/// Entry equivalence: two archives are file-equal exactly when they hold
/// the same ordered (name, data) pairs.
#[test]
fn files_equal_iff_same_entries() {
    let mut wa = sample_writer(Endian::Big);
    let ba = wa.to_binary().unwrap();
    let mut wb = sample_writer(Endian::Big);
    let bb = wb.to_binary().unwrap();
    let sa = Sarc::new(&ba).unwrap();
    let sb = Sarc::new(&bb).unwrap();
    assert!(Sarc::are_files_equal(&sa, &sb));

    let mut wc = sample_writer(Endian::Big);
    wc.add_file("zzz.dat".to_string(), vec![0xBB; 17]);
    let bc = wc.to_binary().unwrap();
    let sc = Sarc::new(&bc).unwrap();
    assert!(!Sarc::are_files_equal(&sa, &sc));

    let mut wd = sample_writer(Endian::Big);
    wd.remove_file("zzz.dat");
    let bd = wd.to_binary().unwrap();
    let sd = Sarc::new(&bd).unwrap();
    assert!(!Sarc::are_files_equal(&sa, &sd));
}

/// A big-endian archive places a `.bffnt` file at an offset divisible by
/// 0x2000.
#[test]
fn bffnt_alignment_override() {
    let mut w = SarcWriter::new(Endian::Big);
    w.add_file("foo.bffnt".to_string(), vec![0x55; 40]);
    let bytes = w.to_binary().unwrap();
    let sarc = Sarc::new(&bytes).unwrap();
    // the single file sits at the start of the data area
    assert_eq!(sarc.data_offset() % 0x2000, 0);
    assert_eq!(sarc.get_data("foo.bffnt").unwrap(), &[0x55; 40][..]);
    // a little-endian archive uses the smaller font alignment
    let mut wl = SarcWriter::new(Endian::Little);
    wl.add_file("foo.bffnt".to_string(), vec![0x55; 40]);
    let bl = wl.to_binary().unwrap();
    let sl = Sarc::new(&bl).unwrap();
    assert_eq!(sl.data_offset() % 0x1000, 0);
}

/// Entries are stored sorted by ascending name hash, so every name is
/// found by binary search.
#[test]
fn entries_sorted_by_hash() {
    let names = [
        "NavMesh/CDungeon/D/D.shknm2",
        "Map/CDungeon/D/D_Static.smubin",
        "Actor/Pack/DgnMrgPrt_D.sbactorpack",
        "Physics/StaticCompound/CDungeon/D.shksc",
        "Model/DgnMrgPrt_D.sbfres",
    ];
    let mut w = SarcWriter::new(Endian::Big);
    for (i, n) in names.iter().enumerate() {
        w.add_file(n.to_string(), vec![i as u8; 5]);
    }
    let bytes = w.to_binary().unwrap();
    let sarc = Sarc::new(&bytes).unwrap();
    assert_eq!(sarc.len(), names.len());
    for (i, n) in names.iter().enumerate() {
        assert_eq!(sarc.get_data(n).unwrap(), &vec![i as u8; 5][..]);
    }
    // hashes in the file-allocation table ascend
    let mut prev = 0u32;
    for i in 0..names.len() {
        let off = 0x20 + 16 * i;
        let h = u32::from_be_bytes([bytes[off], bytes[off + 1], bytes[off + 2], bytes[off + 3]]);
        assert!(i == 0 || prev <= h);
        prev = h;
    }
}

#[test]
fn file_iterator_walks_entries() {
    let mut w = sample_writer(Endian::Big);
    let bytes = w.to_binary().unwrap();
    let sarc = Sarc::new(&bytes).unwrap();
    let mut it = sarc.files();
    let mut count = 0;
    let mut names = Vec::new();
    while let Some(f) = it.next() {
        names.push(f.name.unwrap().to_string());
        count += 1;
    }
    assert_eq!(count, 3);
    assert!(names.contains(&"zzz.dat".to_string()));
    let all = sarc.files_vec();
    assert_eq!(all.len(), 3);
}

#[test]
fn sarc_header_errors() {
    assert!(matches!(
        Sarc::new(&[0u8; 8]),
        Err(Error::InsufficientData(8, 0x40))
    ));
    let mut bad = vec![0u8; 0x40];
    bad[0] = b'X';
    assert!(matches!(Sarc::new(&bad), Err(Error::BadMagic(_))));
    let mut w = sample_writer(Endian::Big);
    let mut bytes = w.to_binary().unwrap();
    bytes[6] = 0;
    bytes[7] = 0; // break the byte-order mark
    assert!(matches!(Sarc::new(&bytes), Err(Error::InvalidData(_))));
}

#[test]
fn writer_configuration() {
    let w = SarcWriter::new(Endian::Big)
        .with_legacy_mode(true)
        .with_min_alignment(8)
        .with_endian(Endian::Little)
        .with_file("a.txt".to_string(), b"abc".to_vec())
        .with_alignment_requirement("mytype".to_string(), 0x80);
    let mut w = w;
    assert_eq!(w.get_file("a.txt").map(|d| d.as_slice()), Some(&b"abc"[..]));
    assert_eq!(w.get_file("b.txt"), None);
    let bytes = w.to_binary().unwrap();
    let sarc = Sarc::new(&bytes).unwrap();
    assert_eq!(sarc.endian(), Endian::Little);
    assert_eq!(sarc.get_data("a.txt").unwrap(), b"abc");
}

#[test]
fn is_file_sarc_detects_archives() {
    let mut w = sample_writer(Endian::Big);
    let bytes = w.to_binary().unwrap();
    assert!(SarcWriter::is_file_sarc(&bytes));
    assert!(!SarcWriter::is_file_sarc(b"not an archive at all, no magic"));
    assert!(!SarcWriter::is_file_sarc(b"SARC"));
}

/// An empty archive is just the three headers: 0x28 bytes, which is
/// below the reader's 0x40 minimum, so the reader rejects it as the
/// format demands.
#[test]
fn empty_archive_is_headers_only() {
    let mut w = SarcWriter::new(Endian::Big);
    let bytes = w.to_binary().unwrap();
    assert_eq!(bytes.len(), 0x28);
    assert_eq!(&bytes[0..4], b"SARC");
    assert!(matches!(
        Sarc::new(&bytes),
        Err(Error::InsufficientData(0x28, 0x40))
    ));
}

/// A stored name that is not UTF-8 surfaces as the dedicated error.
#[test]
fn corrupt_name_is_invalid_utf8() {
    let mut w = SarcWriter::new(Endian::Big);
    w.add_file("abcd".to_string(), vec![7; 4]);
    let mut bytes = w.to_binary().unwrap();
    // the single name sits right after the SFNT header
    let name_pos = 0x20 + 16 + 8;
    assert_eq!(&bytes[name_pos..name_pos + 4], b"abcd");
    bytes[name_pos] = 0xFF;
    let sarc = Sarc::new(&bytes).unwrap();
    // the entry's stored hash still matches the original name
    assert!(matches!(sarc.try_get("abcd"), Err(Error::InvalidUtf8)));
}

#[test]
fn add_files_bulk() {
    let mut w = SarcWriter::new(Endian::Big);
    w.add_files(vec![
        ("one.bin".to_string(), vec![1]),
        ("two.bin".to_string(), vec![2, 2]),
        ("one.bin".to_string(), vec![9]), // replaces the earlier entry
    ]);
    let bytes = w.to_binary().unwrap();
    let sarc = Sarc::new(&bytes).unwrap();
    assert_eq!(sarc.len(), 2);
    assert_eq!(sarc.get_data("one.bin").unwrap(), &[9][..]);
    assert_eq!(sarc.get_data("two.bin").unwrap(), &[2, 2][..]);
    let w2 = SarcWriter::new(Endian::Big).with_files(vec![("a".to_string(), vec![7])]);
    let mut w2 = w2;
    assert_eq!(w2.get_file("a").map(|d| d.as_slice()), Some(&[7u8][..]));
}

/// from_sarc carries the named entries over in archive order.
#[test]
fn from_sarc_keeps_archive_order() {
    let mut w = sample_writer(Endian::Big);
    let bytes = w.to_binary().unwrap();
    let sarc = Sarc::new(&bytes).unwrap();
    let w2 = SarcWriter::from_sarc(&sarc);
    let names: Vec<&str> = w2.files.iter().map(|(n, _)| n.as_str()).collect();
    let mut archive_names = Vec::new();
    for f in sarc.files_vec() {
        archive_names.push(f.name.unwrap());
    }
    assert_eq!(names, archive_names);
}
