use roead::util::{align_up, cmp_bytes, gcd, hash_name, is_valid_alignment, lcm_checked};

#[test]
fn hash_name_folds_bytes() {
    // h = 0; h = h * 0x65 + b for each byte
    assert_eq!(hash_name(0x65, ""), 0);
    assert_eq!(hash_name(0x65, "a"), 97);
    assert_eq!(hash_name(0x65, "ab"), 97 * 0x65 + 98);
    // wrapping arithmetic on a longer name stays in 32 bits
    let h = hash_name(0x65, "NavMesh/CDungeon/Dungeon119/Dungeon119.shknm2");
    let mut expect: u32 = 0;
    for b in "NavMesh/CDungeon/Dungeon119/Dungeon119.shknm2".bytes() {
        expect = expect.wrapping_mul(0x65).wrapping_add(b as u32);
    }
    assert_eq!(h, expect);
}

#[test]
fn align_up_rounds_to_multiples() {
    assert_eq!(align_up(0, 4), 0);
    assert_eq!(align_up(1, 4), 4);
    assert_eq!(align_up(4, 4), 4);
    assert_eq!(align_up(5, 8), 8);
    assert_eq!(align_up(0x1fff, 0x2000), 0x2000);
}

#[test]
fn alignment_validity() {
    assert!(is_valid_alignment(1));
    assert!(is_valid_alignment(4));
    assert!(is_valid_alignment(0x2000));
    assert!(!is_valid_alignment(0));
    assert!(!is_valid_alignment(3));
    assert!(!is_valid_alignment(12));
}

#[test]
fn gcd_and_lcm() {
    assert_eq!(gcd(12, 8), 4);
    assert_eq!(gcd(7, 0), 7);
    assert_eq!(gcd(0, 9), 9);
    assert_eq!(lcm_checked(4, 6), Some(12));
    assert_eq!(lcm_checked(0, 5), Some(0));
    assert_eq!(lcm_checked(4, 0x2000), Some(0x2000));
}

#[test]
fn byte_order_compare() {
    assert_eq!(cmp_bytes(b"abc", b"abc"), 0);
    assert!(cmp_bytes(b"abc", b"abd") < 0);
    assert!(cmp_bytes(b"abd", b"abc") > 0);
    assert!(cmp_bytes(b"ab", b"abc") < 0);
    assert!(cmp_bytes(b"abc", b"ab") > 0);
}
