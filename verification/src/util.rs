//! Primitive helpers shared by the BYML and SARC codecs: fixed-width
//! endian-sensitive integer reads and writes (including the 24-bit integers
//! BYML uses), alignment arithmetic, the multiplier-based name hash, and
//! gcd/lcm for combining alignment requirements.

use vstd::prelude::*;
use vstd::slice::slice_index_get;
use vstd::string::StringSliceAdditionalSpecFns;

use crate::Endian;

verus! {

/// The 16-bit integer stored little-endian at `i` in `b`.
pub open spec fn spec_u16_le(b: Seq<u8>, i: int) -> u16 {
    (b[i] + b[i + 1] * 0x100) as u16
}

/// The 16-bit integer stored big-endian at `i` in `b`.
pub open spec fn spec_u16_be(b: Seq<u8>, i: int) -> u16 {
    (b[i + 1] + b[i] * 0x100) as u16
}

/// The 16-bit integer stored at `i` in `b` with byte order `e`.
pub open spec fn spec_u16_at(b: Seq<u8>, i: int, e: Endian) -> u16 {
    match e {
        Endian::Big => spec_u16_be(b, i),
        Endian::Little => spec_u16_le(b, i),
    }
}

/// The 24-bit integer stored at `i` in `b` with byte order `e`.
pub open spec fn spec_u24_at(b: Seq<u8>, i: int, e: Endian) -> u32 {
    match e {
        Endian::Big => (b[i + 2] + b[i + 1] * 0x100 + b[i] * 0x10000) as u32,
        Endian::Little => (b[i] + b[i + 1] * 0x100 + b[i + 2] * 0x10000) as u32,
    }
}

/// The 32-bit integer stored at `i` in `b` with byte order `e`.
pub open spec fn spec_u32_at(b: Seq<u8>, i: int, e: Endian) -> u32 {
    match e {
        Endian::Big => (b[i + 3] + b[i + 2] * 0x100 + b[i + 1] * 0x10000 + b[i]
            * 0x1000000) as u32,
        Endian::Little => (b[i] + b[i + 1] * 0x100 + b[i + 2] * 0x10000 + b[i + 3]
            * 0x1000000) as u32,
    }
}

/// The 64-bit integer stored at `i` in `b` with byte order `e`: the low
/// 32-bit word and the high 32-bit word in the order the byte order gives.
pub open spec fn spec_u64_at(b: Seq<u8>, i: int, e: Endian) -> u64 {
    match e {
        Endian::Big => (spec_u32_at(b, i + 4, e) + spec_u32_at(b, i, e) * 0x100000000) as u64,
        Endian::Little => (spec_u32_at(b, i, e) + spec_u32_at(b, i + 4, e) * 0x100000000) as u64,
    }
}

/// Reads the 16-bit integer at `pos` in `data` with byte order `e`.
pub fn read_u16(data: &[u8], pos: usize, e: Endian) -> (r: u16)
    requires
        pos + 2 <= data@.len(),
    ensures
        r == spec_u16_at(data@, pos as int, e),
{
    let n: usize = data.len();
    let b0 = *slice_index_get(data, pos);
    let b1 = *slice_index_get(data, pos + 1);
    match e {
        Endian::Big => (b1 as u16) + (b0 as u16) * 0x100,
        Endian::Little => (b0 as u16) + (b1 as u16) * 0x100,
    }
}

/// Reads the 24-bit integer at `pos` in `data` with byte order `e`.
pub fn read_u24(data: &[u8], pos: usize, e: Endian) -> (r: u32)
    requires
        pos + 3 <= data@.len(),
    ensures
        r == spec_u24_at(data@, pos as int, e),
        r < 0x1000000,
{
    let n: usize = data.len();
    let b0 = *slice_index_get(data, pos);
    let b1 = *slice_index_get(data, pos + 1);
    let b2 = *slice_index_get(data, pos + 2);
    match e {
        Endian::Big => (b2 as u32) + (b1 as u32) * 0x100 + (b0 as u32) * 0x10000,
        Endian::Little => (b0 as u32) + (b1 as u32) * 0x100 + (b2 as u32) * 0x10000,
    }
}

/// Reads the 32-bit integer at `pos` in `data` with byte order `e`.
pub fn read_u32(data: &[u8], pos: usize, e: Endian) -> (r: u32)
    requires
        pos + 4 <= data@.len(),
    ensures
        r == spec_u32_at(data@, pos as int, e),
{
    let n: usize = data.len();
    let b0 = *slice_index_get(data, pos);
    let b1 = *slice_index_get(data, pos + 1);
    let b2 = *slice_index_get(data, pos + 2);
    let b3 = *slice_index_get(data, pos + 3);
    match e {
        Endian::Big => (b3 as u32) + (b2 as u32) * 0x100 + (b1 as u32) * 0x10000 + (b0 as u32)
            * 0x1000000,
        Endian::Little => (b0 as u32) + (b1 as u32) * 0x100 + (b2 as u32) * 0x10000 + (b3 as u32)
            * 0x1000000,
    }
}

/// Reads the 64-bit integer at `pos` in `data` with byte order `e`.
pub fn read_u64(data: &[u8], pos: usize, e: Endian) -> (r: u64)
    requires
        pos + 8 <= data@.len(),
    ensures
        r == spec_u64_at(data@, pos as int, e),
{
    let n: usize = data.len();
    let lo_pos: usize = match e {
        Endian::Big => pos + 4,
        Endian::Little => pos,
    };
    let hi_pos: usize = match e {
        Endian::Big => pos,
        Endian::Little => pos + 4,
    };
    let lo = read_u32(data, lo_pos, e);
    let hi = read_u32(data, hi_pos, e);
    (lo as u64) + (hi as u64) * 0x100000000
}

/// The little-endian bytes of a 16-bit integer.
pub open spec fn spec_u16_bytes_le(x: u16) -> Seq<u8> {
    seq![(x % 0x100) as u8, (x / 0x100) as u8]
}

/// The bytes of a 16-bit integer in byte order `e`.
pub open spec fn spec_u16_bytes(x: u16, e: Endian) -> Seq<u8> {
    match e {
        Endian::Big => spec_u16_bytes_le(x).reverse(),
        Endian::Little => spec_u16_bytes_le(x),
    }
}

/// The little-endian bytes of a 24-bit integer.
pub open spec fn spec_u24_bytes_le(x: u32) -> Seq<u8> {
    seq![(x % 0x100) as u8, ((x / 0x100) % 0x100) as u8, ((x / 0x10000) % 0x100) as u8]
}

/// The bytes of a 24-bit integer in byte order `e`.
pub open spec fn spec_u24_bytes(x: u32, e: Endian) -> Seq<u8> {
    match e {
        Endian::Big => spec_u24_bytes_le(x).reverse(),
        Endian::Little => spec_u24_bytes_le(x),
    }
}

/// The little-endian bytes of a 32-bit integer.
pub open spec fn spec_u32_bytes_le(x: u32) -> Seq<u8> {
    seq![
        (x % 0x100) as u8,
        ((x / 0x100) % 0x100) as u8,
        ((x / 0x10000) % 0x100) as u8,
        ((x / 0x1000000) % 0x100) as u8,
    ]
}

/// The bytes of a 32-bit integer in byte order `e`.
pub open spec fn spec_u32_bytes(x: u32, e: Endian) -> Seq<u8> {
    match e {
        Endian::Big => spec_u32_bytes_le(x).reverse(),
        Endian::Little => spec_u32_bytes_le(x),
    }
}

/// The bytes of a 64-bit integer in byte order `e`: the two 32-bit words
/// in the order the byte order gives.
pub open spec fn spec_u64_bytes(x: u64, e: Endian) -> Seq<u8> {
    match e {
        Endian::Big => spec_u32_bytes((x / 0x100000000) as u32, e) + spec_u32_bytes(
            (x % 0x100000000) as u32,
            e,
        ),
        Endian::Little => spec_u32_bytes((x % 0x100000000) as u32, e) + spec_u32_bytes(
            (x / 0x100000000) as u32,
            e,
        ),
    }
}

/// Appends the 16-bit integer `x` to `out` in byte order `e`.
pub fn push_u16(out: &mut Vec<u8>, x: u16, e: Endian)
    ensures
        final(out)@ == old(out)@ + spec_u16_bytes(x, e),
{
    let lo = (x % 0x100) as u8;
    let hi = (x / 0x100) as u8;
    match e {
        Endian::Big => {
            out.push(hi);
            out.push(lo);
        }
        Endian::Little => {
            out.push(lo);
            out.push(hi);
        }
    }
    proof {
        assert(out@ =~= old(out)@ + spec_u16_bytes(x, e));
    }
}

/// Appends the 24-bit integer `x` to `out` in byte order `e`.
pub fn push_u24(out: &mut Vec<u8>, x: u32, e: Endian)
    requires
        x < 0x1000000,
    ensures
        final(out)@ == old(out)@ + spec_u24_bytes(x, e),
{
    let b0 = (x % 0x100) as u8;
    let b1 = ((x / 0x100) % 0x100) as u8;
    let b2 = ((x / 0x10000) % 0x100) as u8;
    match e {
        Endian::Big => {
            out.push(b2);
            out.push(b1);
            out.push(b0);
        }
        Endian::Little => {
            out.push(b0);
            out.push(b1);
            out.push(b2);
        }
    }
    proof {
        assert(out@ =~= old(out)@ + spec_u24_bytes(x, e));
    }
}

/// Appends the 32-bit integer `x` to `out` in byte order `e`.
pub fn push_u32(out: &mut Vec<u8>, x: u32, e: Endian)
    ensures
        final(out)@ == old(out)@ + spec_u32_bytes(x, e),
{
    let b0 = (x % 0x100) as u8;
    let b1 = ((x / 0x100) % 0x100) as u8;
    let b2 = ((x / 0x10000) % 0x100) as u8;
    let b3 = ((x / 0x1000000) % 0x100) as u8;
    match e {
        Endian::Big => {
            out.push(b3);
            out.push(b2);
            out.push(b1);
            out.push(b0);
        }
        Endian::Little => {
            out.push(b0);
            out.push(b1);
            out.push(b2);
            out.push(b3);
        }
    }
    proof {
        assert(out@ =~= old(out)@ + spec_u32_bytes(x, e));
    }
}

/// Appends the 64-bit integer `x` to `out` in byte order `e`.
pub fn push_u64(out: &mut Vec<u8>, x: u64, e: Endian)
    ensures
        final(out)@ == old(out)@ + spec_u64_bytes(x, e),
{
    let lo = (x % 0x100000000) as u32;
    let hi = (x / 0x100000000) as u32;
    match e {
        Endian::Big => {
            push_u32(out, hi, e);
            push_u32(out, lo, e);
        }
        Endian::Little => {
            push_u32(out, lo, e);
            push_u32(out, hi, e);
        }
    }
    proof {
        assert(out@ =~= old(out)@ + spec_u64_bytes(x, e));
    }
}


/// `pos` rounded up to the next multiple of `a`.
pub open spec fn spec_align_up(pos: int, a: int) -> int
    recommends
        a > 0,
{
    pos + (a - pos % a) % a
}

/// Rounding up to a multiple of a positive `a` lands on a multiple of `a`,
/// moves forward, and moves by less than `a`.
pub proof fn lemma_align_up(pos: int, a: int)
    requires
        pos >= 0,
        a > 0,
    ensures
        spec_align_up(pos, a) % a == 0,
        pos <= spec_align_up(pos, a) < pos + a,
        spec_align_up(pos, a) == if pos % a == 0 {
            pos
        } else {
            pos + a - pos % a
        },
{
    let r = pos % a;
    vstd::arithmetic::div_mod::lemma_mod_division_less_than_divisor(pos, a);
    vstd::arithmetic::div_mod::lemma_fundamental_div_mod(pos, a);
    if r == 0 {
        vstd::arithmetic::div_mod::lemma_mod_self_0(a);
        assert(spec_align_up(pos, a) == pos);
        vstd::arithmetic::div_mod::lemma_mod_multiples_basic(pos / a, a);
    } else {
        vstd::arithmetic::div_mod::lemma_small_mod((a - r) as nat, a as nat);
        assert(spec_align_up(pos, a) == pos + a - r);
        assert(pos + a - r == a * (pos / a + 1)) by {
            assert(pos == a * (pos / a) + r);
            assert(a * (pos / a) + a == a * (pos / a + 1)) by (nonlinear_arith);
        }
        vstd::arithmetic::div_mod::lemma_mod_multiples_basic(pos / a + 1, a);
    }
}

/// Rounds `pos` up to the next multiple of `a`.
pub fn align_up(pos: usize, a: usize) -> (r: usize)
    requires
        a > 0,
        pos + a <= usize::MAX,
    ensures
        r == spec_align_up(pos as int, a as int),
        r % a == 0,
        pos <= r < pos + a,
{
    proof {
        lemma_align_up(pos as int, a as int);
    }
    let rem = pos % a;
    if rem == 0 {
        pos
    } else {
        pos + (a - rem)
    }
}

/// Rounds a 64-bit `pos` up to the next multiple of `a`.
pub fn align_up_u64(pos: u64, a: u64) -> (r: u64)
    requires
        a > 0,
        pos + a <= u64::MAX,
    ensures
        r == spec_align_up(pos as int, a as int),
        r % a == 0,
        pos <= r < pos + a,
{
    proof {
        lemma_align_up(pos as int, a as int);
    }
    let rem = pos % a;
    if rem == 0 {
        pos
    } else {
        pos + (a - rem)
    }
}

/// An alignment is valid when it is a positive power of two.
pub open spec fn spec_is_valid_alignment(a: usize) -> bool {
    a > 0 && a & (a - 1) as usize == 0
}

/// Checks that an alignment is a positive power of two.
pub fn is_valid_alignment(value: usize) -> (r: bool)
    ensures
        r == spec_is_valid_alignment(value),
{
    value > 0 && value & (value - 1) == 0
}

/// The alignments the archive formats use are positive powers of two.
pub proof fn lemma_common_alignments()
    ensures
        spec_is_valid_alignment(1),
        spec_is_valid_alignment(2),
        spec_is_valid_alignment(4),
        spec_is_valid_alignment(8),
        spec_is_valid_alignment(0x80),
        spec_is_valid_alignment(0x1000),
        spec_is_valid_alignment(0x2000),
{
    assert(1usize & 0usize == 0 && 2usize & 1usize == 0 && 4usize & 3usize == 0 && 8usize
        & 7usize == 0 && 0x80usize & 0x7fusize == 0 && 0x1000usize & 0xfffusize == 0
        && 0x2000usize & 0x1fffusize == 0) by (bit_vector);
}

/// One step of the multiplier-based name hash: 32-bit wrapping
/// `h * mul + b`.
pub open spec fn spec_hash_step(h: u32, mul: u32, b: u8) -> u32 {
    ((h * mul + b) % 0x100000000) as u32
}

/// The multiplier-based hash of a byte string: starting from 0, each byte
/// folds in as `h = h * mul + b` with wrapping 32-bit arithmetic.
pub open spec fn spec_hash_name(mul: u32, bytes: Seq<u8>) -> u32
    decreases bytes.len(),
{
    if bytes.len() == 0 {
        0
    } else {
        spec_hash_step(spec_hash_name(mul, bytes.drop_last()), mul, bytes.last())
    }
}

/// Hashes the bytes of `name` with the multiplier-based name hash.
pub fn hash_name_bytes(multiplier: u32, name: &[u8]) -> (r: u32)
    ensures
        r == spec_hash_name(multiplier, name@),
{
    let n: usize = name.len();
    let mut h: u32 = 0;
    let mut i: usize = 0;
    while i < n
        invariant
            i <= n,
            n == name@.len(),
            h == spec_hash_name(multiplier, name@.take(i as int)),
        decreases n - i,
    {
        let b = *slice_index_get(name, i);
        proof {
            assert((h as u64) * (multiplier as u64) <= 0xFFFFFFFFu64 * 0xFFFFFFFFu64)
                by (nonlinear_arith)
                requires
                    h <= 0xFFFFFFFFu64,
                    multiplier <= 0xFFFFFFFFu64,
            {
            }
        }
        let wide: u64 = (h as u64) * (multiplier as u64) + (b as u64);
        h = (wide % 0x100000000) as u32;
        proof {
            assert(name@.take(i + 1).drop_last() =~= name@.take(i as int));
            assert(name@.take(i + 1).last() == name@[i as int]);
        }
        i = i + 1;
    }
    proof {
        assert(name@.take(n as int) =~= name@);
    }
    h
}

/// Hashes a file name with the multiplier-based name hash over its UTF-8
/// bytes.
pub fn hash_name(multiplier: u32, name: &str) -> (r: u32)
    ensures
        r == spec_hash_name(multiplier, name.spec_bytes()),
{
    hash_name_bytes(multiplier, name.as_bytes())
}

/// The greatest common divisor, by Euclid's recursion.
pub open spec fn spec_gcd(a: nat, b: nat) -> nat
    decreases b,
{
    if b == 0 {
        a
    } else {
        spec_gcd(b, (a % b) as nat)
    }
}

/// The gcd of two numbers that are not both zero is positive.
pub proof fn lemma_gcd_pos(a: nat, b: nat)
    requires
        a != 0 || b != 0,
    ensures
        spec_gcd(a, b) != 0,
    decreases b,
{
    if b != 0 {
        vstd::arithmetic::div_mod::lemma_mod_division_less_than_divisor(a as int, b as int);
        lemma_gcd_pos(b, (a % b) as nat);
    }
}

/// The gcd divides both of its arguments.
pub proof fn lemma_gcd_divides(a: nat, b: nat)
    requires
        spec_gcd(a, b) != 0,
    ensures
        a % spec_gcd(a, b) == 0,
        b % spec_gcd(a, b) == 0,
    decreases b,
{
    let g = spec_gcd(a, b) as int;
    if b == 0 {
        vstd::arithmetic::div_mod::lemma_mod_self_0(a as int);
        assert(0int % g == 0) by {
            vstd::arithmetic::div_mod::lemma_mod_multiples_basic(0, g);
        }
    } else {
        lemma_gcd_divides(b, (a % b) as nat);
        let r = (a % b) as int;
        vstd::arithmetic::div_mod::lemma_fundamental_div_mod(a as int, b as int);
        vstd::arithmetic::div_mod::lemma_fundamental_div_mod(b as int, g);
        vstd::arithmetic::div_mod::lemma_fundamental_div_mod(r, g);
        let k = (b as int / g) * (a as int / b as int) + r / g;
        assert(a as int == g * k) by (nonlinear_arith)
            requires
                a as int == b as int * (a as int / b as int) + r,
                b as int == g * (b as int / g),
                r == g * (r / g),
                k == (b as int / g) * (a as int / b as int) + r / g,
        {
        }
        vstd::arithmetic::div_mod::lemma_mod_multiples_basic(k, g);
    }
}

/// The least common multiple; zero when either argument is zero.
pub open spec fn spec_lcm(a: nat, b: nat) -> nat {
    if a == 0 || b == 0 {
        0
    } else {
        (a * b / spec_gcd(a, b)) as nat
    }
}

/// The lcm of two positive numbers is a positive multiple of each.
pub proof fn lemma_lcm_is_multiple(a: nat, b: nat)
    requires
        a != 0,
        b != 0,
    ensures
        spec_lcm(a, b) % a == 0,
        spec_lcm(a, b) % b == 0,
        spec_lcm(a, b) >= a,
        spec_lcm(a, b) >= b,
{
    lemma_gcd_pos(a, b);
    lemma_gcd_divides(a, b);
    let g = spec_gcd(a, b) as int;
    vstd::arithmetic::div_mod::lemma_fundamental_div_mod(a as int, g);
    vstd::arithmetic::div_mod::lemma_fundamental_div_mod(b as int, g);
    let p = a as int / g;
    let q = b as int / g;
    assert(a as int * b as int == g * (p * b as int)) by (nonlinear_arith)
        requires
            a as int == g * p,
    {
    }
    vstd::arithmetic::div_mod::lemma_div_multiples_vanish(p * b as int, g);
    assert(spec_lcm(a, b) == p * b as int);
    assert(p * b as int == q * a as int) by (nonlinear_arith)
        requires
            a as int == g * p,
            b as int == g * q,
    {
    }
    vstd::arithmetic::div_mod::lemma_mod_multiples_basic(p, b as int);
    vstd::arithmetic::div_mod::lemma_mod_multiples_basic(q, a as int);
    assert(p >= 1 && q >= 1) by (nonlinear_arith)
        requires
            a as int == g * p,
            b as int == g * q,
            a > 0,
            b > 0,
            g > 0,
    {
    }
    assert(p * b as int >= b as int && q * a as int >= a as int) by (nonlinear_arith)
        requires
            p >= 1,
            q >= 1,
            a > 0,
            b > 0,
    {
    }
}

/// The lcm of two positive numbers is at least each of them.
pub proof fn lemma_lcm_ge(a: nat, b: nat)
    requires
        a != 0,
        b != 0,
    ensures
        spec_lcm(a, b) >= a,
        spec_lcm(a, b) >= b,
        spec_lcm(a, b) > 0,
{
    lemma_lcm_is_multiple(a, b);
}

/// Divisibility carries through a multiple: if `m` divides `x` and `n`
/// divides `m`, then `n` divides `x`.
pub proof fn lemma_mod_transitive(x: int, m: int, n: int)
    requires
        x >= 0,
        m > 0,
        n > 0,
        x % m == 0,
        m % n == 0,
    ensures
        x % n == 0,
{
    vstd::arithmetic::div_mod::lemma_fundamental_div_mod(x, m);
    vstd::arithmetic::div_mod::lemma_fundamental_div_mod(m, n);
    let k = (m / n) * (x / m);
    assert(x == n * k) by (nonlinear_arith)
        requires
            x == m * (x / m),
            m == n * (m / n),
            k == (m / n) * (x / m),
    {
    }
    vstd::arithmetic::div_mod::lemma_mod_multiples_basic(k, n);
}

/// Computes the greatest common divisor by Euclid's algorithm.
pub fn gcd(a: usize, b: usize) -> (r: usize)
    ensures
        r == spec_gcd(a as nat, b as nat),
{
    let mut x = a;
    let mut y = b;
    while y != 0
        invariant
            spec_gcd(x as nat, y as nat) == spec_gcd(a as nat, b as nat),
        decreases y,
    {
        let t = x % y;
        x = y;
        y = t;
    }
    x
}

/// The gcd with zero on the left is the other number.
pub proof fn lemma_gcd_zero_left(b: nat)
    ensures
        spec_gcd(0, b) == b,
{
    if b != 0 {
        assert(spec_gcd(0, b) == spec_gcd(b, 0));
    }
}

/// The gcd of a positive number with anything is at most that number.
pub proof fn lemma_gcd_le(a: nat, b: nat)
    requires
        a > 0,
    ensures
        1 <= spec_gcd(a, b) <= a,
{
    lemma_gcd_pos(a, b);
    lemma_gcd_divides(a, b);
    let g = spec_gcd(a, b) as int;
    vstd::arithmetic::div_mod::lemma_fundamental_div_mod(a as int, g);
    assert(a as int == g * (a as int / g));
    assert(g <= a as int) by (nonlinear_arith)
        requires
            a as int == g * (a as int / g),
            a > 0,
            g > 0,
    {
    }
}

/// Computes the greatest common divisor of two 64-bit numbers by Euclid's
/// algorithm.
pub fn gcd_u64(a: u64, b: u64) -> (r: u64)
    ensures
        r == spec_gcd(a as nat, b as nat),
{
    let mut x = a;
    let mut y = b;
    while y != 0
        invariant
            spec_gcd(x as nat, y as nat) == spec_gcd(a as nat, b as nat),
        decreases y,
    {
        let t = x % y;
        x = y;
        y = t;
    }
    x
}

/// Computes the least common multiple, or `None` when it does not fit in
/// `usize`.
pub fn lcm_checked(a: usize, b: usize) -> (r: Option<usize>)
    ensures
        r is Some <==> spec_lcm(a as nat, b as nat) <= usize::MAX,
        r is Some ==> r->0 == spec_lcm(a as nat, b as nat),
{
    if a == 0 || b == 0 {
        Some(0)
    } else {
        let g = gcd(a, b);
        proof {
            lemma_gcd_pos(a as nat, b as nat);
            lemma_gcd_divides(a as nat, b as nat);
            vstd::arithmetic::div_mod::lemma_fundamental_div_mod(a as int, g as int);
            let p = a as int / g as int;
            assert(a as int * b as int == g as int * (p * b as int)) by (nonlinear_arith)
                requires
                    a as int == g as int * p,
            {
            }
            vstd::arithmetic::div_mod::lemma_div_multiples_vanish(p * b as int, g as int);
            assert(spec_lcm(a as nat, b as nat) == p * b as int);
        }
        let q = a / g;
        q.checked_mul(b)
    }
}

/// Strict lexicographic order on byte strings: `a` comes before `b` when
/// at the first differing position `a` has the smaller byte, or `a` is a
/// proper prefix of `b`.
pub open spec fn lex_lt(a: Seq<u8>, b: Seq<u8>) -> bool
    decreases a.len(),
{
    if b.len() == 0 {
        false
    } else if a.len() == 0 {
        true
    } else if a[0] < b[0] {
        true
    } else if a[0] > b[0] {
        false
    } else {
        lex_lt(a.subrange(1, a.len() as int), b.subrange(1, b.len() as int))
    }
}

/// A byte string ordered by a prefix-respecting witness is lexicographically
/// smaller: the strings agree before `i`, and at `i` either `a` ends or its
/// byte is smaller.
pub proof fn lemma_lex_lt_from_witness(a: Seq<u8>, b: Seq<u8>, i: int)
    requires
        0 <= i <= a.len(),
        i <= b.len(),
        forall|j: int| 0 <= j < i ==> a[j] == b[j],
        (i < a.len() && i < b.len() && a[i] < b[i]) || (i == a.len() && i < b.len()),
    ensures
        lex_lt(a, b),
    decreases i,
{
    if i == 0 {
    } else {
        let a1 = a.subrange(1, a.len() as int);
        let b1 = b.subrange(1, b.len() as int);
        lemma_lex_lt_from_witness(a1, b1, i - 1);
    }
}

/// A lexicographically smaller byte string differs from the larger one at
/// some prefix-respecting witness position.
pub proof fn lemma_lex_lt_to_witness(a: Seq<u8>, b: Seq<u8>) -> (i: int)
    requires
        lex_lt(a, b),
    ensures
        0 <= i <= a.len(),
        i <= b.len(),
        forall|j: int| 0 <= j < i ==> a[j] == b[j],
        (i < a.len() && i < b.len() && a[i] < b[i]) || (i == a.len() && i < b.len()),
    decreases a.len(),
{
    if a.len() == 0 {
        0
    } else if a[0] < b[0] {
        0
    } else {
        assert(a[0] == b[0]);
        let a1 = a.subrange(1, a.len() as int);
        let b1 = b.subrange(1, b.len() as int);
        let k = lemma_lex_lt_to_witness(a1, b1);
        assert forall|j: int| 0 <= j < k + 1 implies a[j] == b[j] by {
            if j > 0 {
                assert(a[j] == a1[j - 1]);
                assert(b[j] == b1[j - 1]);
            }
        }
        k + 1
    }
}

/// Lexicographic order is irreflexive and asymmetric; on different strings
/// one direction holds.
pub proof fn lemma_lex_trichotomy(a: Seq<u8>, b: Seq<u8>)
    ensures
        lex_lt(a, b) ==> !lex_lt(b, a) && a != b,
        a == b ==> !lex_lt(a, b),
        !lex_lt(a, b) && !lex_lt(b, a) ==> a =~= b,
    decreases a.len(),
{
    if a.len() != 0 && b.len() != 0 && a[0] == b[0] {
        let a1 = a.subrange(1, a.len() as int);
        let b1 = b.subrange(1, b.len() as int);
        lemma_lex_trichotomy(a1, b1);
        if a1 =~= b1 {
            assert forall|j: int| 0 <= j < a.len() implies a[j] == b[j] by {
                if j > 0 {
                    assert(a[j] == a1[j - 1]);
                    assert(b[j] == b1[j - 1]);
                }
            }
            assert(a =~= b);
        }
        if a == b {
            assert(a1 =~= b1);
        }
        if lex_lt(a, b) && a == b {
            assert(!lex_lt(a1, b1));
        }
    }
}

/// Lexicographic order on byte strings is transitive.
pub proof fn lemma_lex_lt_trans(a: Seq<u8>, b: Seq<u8>, c: Seq<u8>)
    requires
        lex_lt(a, b),
        lex_lt(b, c),
    ensures
        lex_lt(a, c),
{
    let i = lemma_lex_lt_to_witness(a, b);
    let j = lemma_lex_lt_to_witness(b, c);
    if i <= j {
        assert forall|k: int| 0 <= k < i implies a[k] == c[k] by {
            assert(a[k] == b[k]);
            assert(b[k] == c[k]);
        }
        if i < j {
            assert(i < c.len());
            assert(b[i] == c[i]);
            lemma_lex_lt_from_witness(a, c, i);
        } else {
            if i == a.len() {
                lemma_lex_lt_from_witness(a, c, i);
            } else {
                assert(i < b.len());
                assert(b[j] < c[j] || j == b.len());
                assert(a[i] < b[i] && b[i] < c[i]);
                lemma_lex_lt_from_witness(a, c, i);
            }
        }
    } else {
        assert forall|k: int| 0 <= k < j implies a[k] == c[k] by {
            assert(a[k] == b[k]);
            assert(b[k] == c[k]);
        }
        assert(j < i <= b.len());
        assert(b[j] < c[j]);
        assert(a[j] == b[j]);
        lemma_lex_lt_from_witness(a, c, j);
    }
}

/// Compares two byte strings lexicographically: negative when `a` comes
/// first, positive when `b` comes first, zero when they are equal.
pub fn cmp_bytes(a: &[u8], b: &[u8]) -> (r: i8)
    ensures
        r < 0 <==> lex_lt(a@, b@),
        r > 0 <==> lex_lt(b@, a@),
        r == 0 <==> a@ == b@,
{
    let an: usize = a.len();
    let bn: usize = b.len();
    let mut i: usize = 0;
    loop
        invariant
            i <= an,
            i <= bn,
            an == a@.len(),
            bn == b@.len(),
            forall|j: int| 0 <= j < i ==> a@[j] == b@[j],
        decreases an - i,
    {
        if i == an && i == bn {
            proof {
                assert(a@ =~= b@);
                lemma_lex_trichotomy(a@, b@);
                lemma_lex_trichotomy(b@, a@);
            }
            return 0;
        }
        if i == an {
            proof {
                lemma_lex_lt_from_witness(a@, b@, i as int);
                lemma_lex_trichotomy(a@, b@);
            }
            return -1;
        }
        if i == bn {
            proof {
                lemma_lex_lt_from_witness(b@, a@, i as int);
                lemma_lex_trichotomy(b@, a@);
            }
            return 1;
        }
        let x = *slice_index_get(a, i);
        let y = *slice_index_get(b, i);
        if x < y {
            proof {
                lemma_lex_lt_from_witness(a@, b@, i as int);
                lemma_lex_trichotomy(a@, b@);
            }
            return -1;
        }
        if y < x {
            proof {
                lemma_lex_lt_from_witness(b@, a@, i as int);
                lemma_lex_trichotomy(b@, a@);
            }
            return 1;
        }
        i = i + 1;
    }
}

/// UTF-8 encoding is injective: equal encodings mean equal strings.
pub proof fn lemma_encode_inj(a: Seq<char>, b: Seq<char>)
    requires
        vstd::utf8::encode_utf8(a) == vstd::utf8::encode_utf8(b),
    ensures
        a == b,
{
    vstd::utf8::encode_utf8_decode_utf8(a);
    vstd::utf8::encode_utf8_decode_utf8(b);
}

/// Checks two string slices for equality, by comparing their UTF-8 bytes.
pub fn str_eq(a: &str, b: &str) -> (r: bool)
    ensures
        r == (a@ == b@),
{
    let c = cmp_bytes(a.as_bytes(), b.as_bytes());
    proof {
        if a.spec_bytes() == b.spec_bytes() {
            vstd::utf8::encode_utf8_decode_utf8(a@);
            vstd::utf8::encode_utf8_decode_utf8(b@);
        }
    }
    c == 0
}

/// The position of the first NUL byte at or after `pos`, if any.
pub open spec fn spec_find_nul(d: Seq<u8>, pos: int) -> Option<int>
    decreases d.len() - pos,
{
    if pos < 0 || pos >= d.len() {
        None
    } else if d[pos] == 0 {
        Some(pos)
    } else {
        spec_find_nul(d, pos + 1)
    }
}

/// The first NUL found is a NUL, lies in range, and nothing before it
/// (from `pos` on) is a NUL; when none is found, no byte from `pos` on is
/// a NUL.
pub proof fn lemma_find_nul(d: Seq<u8>, pos: int)
    requires
        0 <= pos <= d.len(),
    ensures
        match spec_find_nul(d, pos) {
            Some(k) => pos <= k < d.len() && d[k] == 0 && forall|j: int|
                pos <= j < k ==> d[j] != 0,
            None => forall|j: int| pos <= j < d.len() ==> d[j] != 0,
        },
    decreases d.len() - pos,
{
    if pos < d.len() && d[pos] != 0 {
        lemma_find_nul(d, pos + 1);
    }
}

/// Finds the first NUL byte at or after `pos`.
pub fn find_nul_from(data: &[u8], pos: usize) -> (r: Option<usize>)
    requires
        pos <= data@.len(),
    ensures
        match r {
            Some(k) => Some(k as int) == spec_find_nul(data@, pos as int),
            None => spec_find_nul(data@, pos as int) is None,
        },
{
    let n: usize = data.len();
    let mut i: usize = pos;
    while i < n
        invariant
            pos <= i <= n,
            n == data@.len(),
            spec_find_nul(data@, pos as int) == spec_find_nul(data@, i as int),
        decreases n - i,
    {
        if *slice_index_get(data, i) == 0 {
            return Some(i);
        }
        i = i + 1;
    }
    None
}

/// Relies on `core::str::from_utf8`: succeeds exactly on valid UTF-8, and
/// the returned string slice views the same bytes.
#[verifier::external_body]
pub(crate) fn bytes_as_str(v: &[u8]) -> (r: Option<&str>)
    ensures
        r is Some <==> vstd::utf8::valid_utf8(v@),
        r is Some ==> r->0.spec_bytes() == v@,
{
    core::str::from_utf8(v).ok()
}

/// Copies a byte slice into an owned vector.
pub fn slice_owned(s: &[u8]) -> (r: Vec<u8>)
    ensures
        r@ == s@,
{
    vstd::slice::slice_to_vec(s)
}

/// Reading a 16-bit integer back from its own bytes yields the integer.
pub proof fn lemma_u16_roundtrip(b: Seq<u8>, i: int, x: u16, e: Endian)
    requires
        0 <= i,
        i + 2 <= b.len(),
        b.subrange(i, i + 2) == spec_u16_bytes(x, e),
    ensures
        spec_u16_at(b, i, e) == x,
{
    assert(x % 0x100 + (x / 0x100) * 0x100 == x) by (bit_vector);
    assert(b.subrange(i, i + 2)[0] == b[i]);
    assert(b.subrange(i, i + 2)[1] == b[i + 1]);
}

/// Reading a 32-bit integer back from its own bytes yields the integer.
pub proof fn lemma_u32_roundtrip(b: Seq<u8>, i: int, x: u32, e: Endian)
    requires
        0 <= i,
        i + 4 <= b.len(),
        b.subrange(i, i + 4) == spec_u32_bytes(x, e),
    ensures
        spec_u32_at(b, i, e) == x,
{
    assert(x % 0x100 + ((x / 0x100) % 0x100) * 0x100 + ((x / 0x10000) % 0x100) * 0x10000 + ((x
        / 0x1000000) % 0x100) * 0x1000000 == x) by (bit_vector);
    assert(b.subrange(i, i + 4)[0] == b[i]);
    assert(b.subrange(i, i + 4)[1] == b[i + 1]);
    assert(b.subrange(i, i + 4)[2] == b[i + 2]);
    assert(b.subrange(i, i + 4)[3] == b[i + 3]);
}



/// The byte encodings have their nominal lengths.
pub proof fn lemma_bytes_len(e: Endian)
    ensures
        forall|x: u16| (#[trigger] spec_u16_bytes(x, e)).len() == 2,
        forall|x: u32| (#[trigger] spec_u24_bytes(x, e)).len() == 3,
        forall|x: u32| (#[trigger] spec_u32_bytes(x, e)).len() == 4,
{
    assert forall|x: u16| (#[trigger] spec_u16_bytes(x, e)).len() == 2 by {
        assert(spec_u16_bytes_le(x).len() == 2);
    }
    assert forall|x: u32| (#[trigger] spec_u24_bytes(x, e)).len() == 3 by {
        assert(spec_u24_bytes_le(x).len() == 3);
    }
    assert forall|x: u32| (#[trigger] spec_u32_bytes(x, e)).len() == 4 by {
        assert(spec_u32_bytes_le(x).len() == 4);
    }
}

/// A byte within a preserved prefix is unchanged.
pub proof fn lemma_byte_at_prefix(a: Seq<u8>, b: Seq<u8>, i: int)
    requires
        a.len() <= b.len(),
        b.subrange(0, a.len() as int) == a,
        0 <= i < a.len(),
    ensures
        b[i] == a[i],
{
    assert(b.subrange(0, a.len() as int)[i] == b[i]);
}

/// A 16-bit read within a preserved prefix is unchanged.
pub proof fn lemma_u16_at_prefix(a: Seq<u8>, b: Seq<u8>, i: int, e: Endian)
    requires
        a.len() <= b.len(),
        b.subrange(0, a.len() as int) == a,
        0 <= i,
        i + 2 <= a.len(),
    ensures
        spec_u16_at(b, i, e) == spec_u16_at(a, i, e),
{
    lemma_byte_at_prefix(a, b, i);
    lemma_byte_at_prefix(a, b, i + 1);
}

/// A 32-bit read within a preserved prefix is unchanged.
pub proof fn lemma_u32_at_prefix(a: Seq<u8>, b: Seq<u8>, i: int, e: Endian)
    requires
        a.len() <= b.len(),
        b.subrange(0, a.len() as int) == a,
        0 <= i,
        i + 4 <= a.len(),
    ensures
        spec_u32_at(b, i, e) == spec_u32_at(a, i, e),
{
    lemma_byte_at_prefix(a, b, i);
    lemma_byte_at_prefix(a, b, i + 1);
    lemma_byte_at_prefix(a, b, i + 2);
    lemma_byte_at_prefix(a, b, i + 3);
}

/// A slice of a preserved prefix is unchanged.
pub proof fn lemma_subrange_prefix(a: Seq<u8>, b: Seq<u8>, lo: int, hi: int)
    requires
        a.len() <= b.len(),
        b.subrange(0, a.len() as int) == a,
        0 <= lo <= hi <= a.len(),
    ensures
        b.subrange(lo, hi) == a.subrange(lo, hi),
{
    assert forall|i: int| 0 <= i < hi - lo implies b.subrange(lo, hi)[i] == a.subrange(lo, hi)[
        i
    ] by {
        lemma_byte_at_prefix(a, b, lo + i);
    }
    assert(b.subrange(lo, hi) =~= a.subrange(lo, hi));
}

/// Appends a whole slice to `out`.
pub fn push_slice(out: &mut Vec<u8>, s: &[u8])
    ensures
        final(out)@ == old(out)@ + s@,
{
    let n: usize = s.len();
    let mut i: usize = 0;
    while i < n
        invariant
            i <= n,
            n == s@.len(),
            out@ == old(out)@ + s@.take(i as int),
        decreases n - i,
    {
        out.push(*slice_index_get(s, i));
        proof {
            assert(old(out)@ + s@.take(i as int) + seq![s@[i as int]] =~= old(out)@ + s@.take(
                i + 1,
            ));
        }
        i = i + 1;
    }
    proof {
        assert(s@.take(n as int) =~= s@);
    }
}

/// Appends `k` zero bytes to `out`.
pub fn push_zeros(out: &mut Vec<u8>, k: usize)
    ensures
        final(out)@ == old(out)@ + Seq::new(k as nat, |i: int| 0u8),
{
    let mut i: usize = 0;
    while i < k
        invariant
            i <= k,
            out@ == old(out)@ + Seq::new(i as nat, |j: int| 0u8),
        decreases k - i,
    {
        out.push(0);
        proof {
            assert(old(out)@ + Seq::new(i as nat, |j: int| 0u8) + seq![0u8] =~= old(out)@
                + Seq::new((i + 1) as nat, |j: int| 0u8));
        }
        i = i + 1;
    }
}




} // verus!
