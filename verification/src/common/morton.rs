use vstd::prelude::*;

verus! {

/// The bits that one coordinate occupies in a Morton code: every third bit,
/// starting at bit 0, 21 bits in all.
pub open spec fn spread_mask() -> u64 {
    0x1249_2492_4924_9249u64
}

/// The shift-and-mask steps that spread the bits of `x`.
spec fn split_steps(x: u32) -> u64 {
    let x0 = (x as u64) & 0x1f_ffffu64;
    let x1 = (x0 | (x0 << 32u64)) & 0x001f_0000_0000_ffffu64;
    let x2 = (x1 | (x1 << 16u64)) & 0x001f_0000_ff00_00ffu64;
    let x3 = (x2 | (x2 << 8u64)) & 0x100f_00f0_0f00_f00fu64;
    let x4 = (x3 | (x3 << 4u64)) & 0x10c3_0c30_c30c_30c3u64;
    (x4 | (x4 << 2u64)) & 0x1249_2492_4924_9249u64
}

/// The shift-and-mask steps that gather every third bit of `x`.
spec fn compact_steps(x: u64) -> u32 {
    let x0 = x & 0x1249_2492_4924_9249u64;
    let x1 = (x0 | (x0 >> 2u64)) & 0x10c3_0c30_c30c_30c3u64;
    let x2 = (x1 | (x1 >> 4u64)) & 0x100f_00f0_0f00_f00fu64;
    let x3 = (x2 | (x2 >> 8u64)) & 0x001f_0000_ff00_00ffu64;
    let x4 = (x3 | (x3 >> 16u64)) & 0x001f_0000_0000_ffffu64;
    ((x4 | (x4 >> 32u64)) & 0x1f_ffffu64) as u32
}

/// The lowest `n` bits of `x` spread out: bit `i` moves to bit `3 * i`, the
/// bits between them clear.
pub open spec fn spread_bits(x: u64, n: u32) -> u64
    decreases n,
{
    if n == 0 {
        0u64
    } else {
        (spread_bits(x >> 1u64, (n - 1) as u32) << 3u64) | (x & 1u64)
    }
}

/// Every third bit of `x`, starting at bit 0, `n` of them, gathered: bit
/// `3 * i` moves to bit `i`.
pub open spec fn gather_bits(x: u64, n: u32) -> u64
    decreases n,
{
    if n == 0 {
        0u64
    } else {
        (gather_bits(x >> 3u64, (n - 1) as u32) << 1u64) | (x & 1u64)
    }
}

/// The low 21 bits of `x` spread out: bit `i` moves to bit `3 * i`.
pub open spec fn split_spec(x: u32) -> u64 {
    spread_bits(x as u64, 21)
}

/// Bits 0, 3, 6, ... 60 of `x` gathered into a 21 bit value: bit `3 * i`
/// moves to bit `i`.
pub open spec fn compact_spec(x: u64) -> u32 {
    gather_bits(x, 21) as u32
}

proof fn lemma_split_direct(x: u32)
    ensures
        split_steps(x) == split_spec(x),
{
    assert(split_steps(x) == spread_bits(x as u64, 21)) by (bit_vector);
}

proof fn lemma_compact_direct(x: u64)
    ensures
        compact_steps(x) == compact_spec(x),
{
    assert(compact_steps(x) == gather_bits(x, 21) as u32) by (bit_vector);
}

/// The Morton code of a position: the bits of x, y and z interleaved.
pub open spec fn morton_encode_spec(p: (u32, u32, u32)) -> u64 {
    split_spec(p.0) | (split_spec(p.1) << 1u64) | (split_spec(p.2) << 2u64)
}

/// The position whose coordinates are the three interleaved bit streams of a code.
pub open spec fn morton_decode_spec(m: u64) -> (u32, u32, u32) {
    (compact_spec(m), compact_spec(m >> 1u64), compact_spec(m >> 2u64))
}

/// What is left of `m` after dropping its `i` lowest octal digits.
pub open spec fn drop_octal_digits(m: int, i: nat) -> int
    decreases i,
{
    if i == 0 {
        m
    } else {
        drop_octal_digits(m / 8, (i - 1) as nat)
    }
}

/// The `i`-th octal digit of `m` (digit 0 is the lowest): the `i`-th 3-bit
/// child index of a Morton code.
pub open spec fn octal_digit(m: int, i: nat) -> int {
    drop_octal_digits(m, i) % 8
}

/// The `h` lowest octal digits of `m` in reverse order, read as a number:
/// digit 0 of `m` becomes the most significant one.
pub open spec fn reversed_octal_digits(m: int, h: nat) -> int
    decreases h,
{
    if h == 0 {
        0
    } else {
        reversed_octal_digits(m, (h - 1) as nat) * 8 + octal_digit(m, (h - 1) as nat)
    }
}

pub open spec fn u64_modulus() -> int {
    0x1_0000_0000_0000_0000int
}

fn split(x: u32) -> (r: u64)
    ensures
        r == split_spec(x),
{
    let ghost x0 = x;
    let mut x = x as u64 & 0x1f_ffff;
    x = (x | (x << 32)) & 0x001f_0000_0000_ffff;
    x = (x | (x << 16)) & 0x001f_0000_ff00_00ff;
    x = (x | (x << 8)) & 0x100f_00f0_0f00_f00f;
    x = (x | (x << 4)) & 0x10c3_0c30_c30c_30c3;
    x = (x | (x << 2)) & 0x1249_2492_4924_9249;
    proof {
        lemma_split_direct(x0);
    }
    x
}

/// Compacts the bits starting with bit 0 skipping every two bits resulting in a 21 bit result.
fn compact(x: u64) -> (r: u32)
    ensures
        r == compact_spec(x),
{
    proof {
        lemma_compact_direct(x);
    }
    let mut x = x & 0x1249_2492_4924_9249;
    x = (x | (x >> 2)) & 0x10c3_0c30_c30c_30c3;
    x = (x | (x >> 4)) & 0x100f_00f0_0f00_f00f;
    x = (x | (x >> 8)) & 0x001f_0000_ff00_00ff;
    x = (x | (x >> 16)) & 0x001f_0000_0000_ffff;
    x = (x | (x >> 32)) & 0x1f_ffff;
    x as u32
}

/// Interleaves the bits of the three coordinates: bit `i` of x goes to bit
/// `3 * i`, of y to `3 * i + 1`, of z to `3 * i + 2` (21 bits of each).
pub fn morton_encode(position: (u32, u32, u32)) -> (r: u64)
    ensures
        r == morton_encode_spec(position),
{
    split(position.0) | (split(position.1) << 1) | (split(position.2) << 2)
}

/// Splits a Morton code back into its three coordinates.
pub fn morton_decode(morton: u64) -> (r: (u32, u32, u32))
    ensures
        r == morton_decode_spec(morton),
{
    (compact(morton), compact(morton >> 1), compact(morton >> 2))
}

proof fn lemma_drop_digits_step(m: int, i: nat)
    requires
        m >= 0,
    ensures
        drop_octal_digits(m, i + 1) == drop_octal_digits(m, i) / 8,
        drop_octal_digits(m, i) >= 0,
    decreases i,
{
    if i > 0 {
        lemma_drop_digits_step(m / 8, (i - 1) as nat);
    } else {
        assert(drop_octal_digits(m / 8, 0) == m / 8);
    }
}

/// Reverses the order of the `height` lowest 3-bit child indices of a Morton
/// code, so that the code can be walked from the root of an octree.
pub fn morton_traversal(morton: u64, height: u32) -> (r: u64)
    ensures
        r == reversed_octal_digits(morton as int, height as nat) % u64_modulus(),
{
    let mut morton = morton;
    let ghost m0 = morton as int;
    let mut reverse = 0u64;
    let mut i: u32 = 0;
    while i < height
        invariant
            i <= height,
            morton as int == drop_octal_digits(m0, i as nat),
            reverse as int == reversed_octal_digits(m0, i as nat) % u64_modulus(),
            m0 >= 0,
        decreases height - i,
    {
        let ghost old_reverse = reverse;
        let ghost old_morton = morton;
        reverse = (reverse << 3) | (morton & 7);
        morton = morton >> 3;
        proof {
            let s = reversed_octal_digits(m0, i as nat);
            let d = octal_digit(m0, i as nat);
            let mm = u64_modulus();
            lemma_drop_digits_step(m0, i as nat);
            assert(d == old_morton as int % 8);
            assert(((old_reverse << 3u64) | (old_morton & 7u64)) == ((old_reverse << 3u64) + (
            old_morton & 7u64)) && (old_morton & 7u64) == old_morton % 8 && old_morton >> 3u64
                == old_morton / 8 && (old_reverse << 3u64) as int == (old_reverse as int * 8)
                % 0x1_0000_0000_0000_0000int && (old_reverse << 3u64) as int + (old_morton
                & 7u64) as int <= 0xffff_ffff_ffff_ffffint) by (bit_vector);
            assert(reversed_octal_digits(m0, (i + 1) as nat) == s * 8 + d);
            assert(old_reverse as int == s % mm);
            vstd::arithmetic::div_mod::lemma_mul_mod_noop_left(s, 8, mm);
            assert((old_reverse as int * 8) % mm == (s * 8) % mm);
            vstd::arithmetic::div_mod::lemma_add_mod_noop(s * 8, d, mm);
            vstd::arithmetic::div_mod::lemma_small_mod(d as nat, mm as nat);
            assert(0 <= d < 8);
            let a = (s * 8) % mm;
            assert(0 <= a < mm) by {
                vstd::arithmetic::div_mod::lemma_mod_bound(s * 8, mm);
            }
            vstd::arithmetic::div_mod::lemma_small_mod((a + d) as nat, mm as nat);
        }
        i = i + 1;
    }
    reverse
}

/// Decoding an encoded position gives the position back, for coordinates
/// that fit in 21 bits.
pub proof fn law_morton_decode_encode(p: (u32, u32, u32))
    requires
        p.0 < 0x20_0000,
        p.1 < 0x20_0000,
        p.2 < 0x20_0000,
    ensures
        morton_decode_spec(morton_encode_spec(p)) == p,
{
    let (x, y, z) = p;
    lemma_split_direct(x);
    lemma_split_direct(y);
    lemma_split_direct(z);
    assert(compact_steps(split_steps(x)) == x & 0x1f_ffffu32) by (bit_vector);
    assert(compact_steps(split_steps(y)) == y & 0x1f_ffffu32) by (bit_vector);
    assert(compact_steps(split_steps(z)) == z & 0x1f_ffffu32) by (bit_vector);
    assert(x & 0x1f_ffffu32 == x) by (bit_vector)
        requires
            x < 0x20_0000u32,
    ;
    assert(y & 0x1f_ffffu32 == y) by (bit_vector)
        requires
            y < 0x20_0000u32,
    ;
    assert(z & 0x1f_ffffu32 == z) by (bit_vector)
        requires
            z < 0x20_0000u32,
    ;
    let a = split_steps(x);
    let b = split_steps(y);
    let c = split_steps(z);
    assert(split_steps(x) & 0x1249_2492_4924_9249u64 == split_steps(x)) by (bit_vector);
    assert(split_steps(y) & 0x1249_2492_4924_9249u64 == split_steps(y)) by (bit_vector);
    assert(split_steps(z) & 0x1249_2492_4924_9249u64 == split_steps(z)) by (bit_vector);
    let m = a | (b << 1u64) | (c << 2u64);
    assert(m & 0x1249_2492_4924_9249u64 == a && (m >> 1u64) & 0x1249_2492_4924_9249u64 == b && (m
        >> 2u64) & 0x1249_2492_4924_9249u64 == c) by (bit_vector)
        requires
            a & 0x1249_2492_4924_9249u64 == a,
            b & 0x1249_2492_4924_9249u64 == b,
            c & 0x1249_2492_4924_9249u64 == c,
            m == a | (b << 1u64) | (c << 2u64),
    ;
    assert(forall|w: u64| #[trigger]
        compact_steps(w) == compact_steps(w & 0x1249_2492_4924_9249u64)) by (bit_vector);
    lemma_compact_direct(m);
    lemma_compact_direct(m >> 1u64);
    lemma_compact_direct(m >> 2u64);
    assert(compact_steps(m) == compact_steps(a));
    assert(compact_steps(m >> 1u64) == compact_steps(b));
    assert(compact_steps(m >> 2u64) == compact_steps(c));
}

/// Encoding a decoded code gives back the code with its top bit cleared: the
/// code format holds 63 bits.
pub proof fn law_morton_encode_decode(m: u64)
    ensures
        morton_encode_spec(morton_decode_spec(m)) == m & 0x7fff_ffff_ffff_ffffu64,
{
    assert(forall|w: u64| #[trigger]
        split_steps(compact_steps(w)) == w & 0x1249_2492_4924_9249u64) by (bit_vector);
    let a = m & 0x1249_2492_4924_9249u64;
    let b = (m >> 1u64) & 0x1249_2492_4924_9249u64;
    let c = (m >> 2u64) & 0x1249_2492_4924_9249u64;
    lemma_compact_direct(m);
    lemma_compact_direct(m >> 1u64);
    lemma_compact_direct(m >> 2u64);
    lemma_split_direct(compact_steps(m));
    lemma_split_direct(compact_steps(m >> 1u64));
    lemma_split_direct(compact_steps(m >> 2u64));
    assert(split_steps(compact_steps(m)) == a);
    assert(split_steps(compact_steps(m >> 1u64)) == b);
    assert(split_steps(compact_steps(m >> 2u64)) == c);
    assert(a | (b << 1u64) | (c << 2u64) == m & 0x7fff_ffff_ffff_ffffu64) by (bit_vector)
        requires
            a == m & 0x1249_2492_4924_9249u64,
            b == (m >> 1u64) & 0x1249_2492_4924_9249u64,
            c == (m >> 2u64) & 0x1249_2492_4924_9249u64,
    ;
}

} // verus!
