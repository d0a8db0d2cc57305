//! Little-endian integers inside a block of bytes.
//!
//! Every on-disk structure of the filesystem is a run of little-endian
//! 64-bit words (and one 32-bit magic number) at fixed offsets of a block.
//! This module gives the words a mathematical meaning over `Seq<u8>` and
//! provides the executable accessors together with the facts that callers
//! need: a word that was stored is read back, and storing a word leaves
//! the words at other offsets alone.
use vstd::prelude::*;

verus! {

/// Byte `i` (0 is the least significant) of `x`.
pub open spec fn spec_byte_of(x: u64, i: int) -> u8 {
    ((x >> ((8 * i) as u64)) & 0xff) as u8
}

/// The 64-bit word stored little-endian at offset `off` of `b`.
pub open spec fn spec_u64_at(b: Seq<u8>, off: int) -> u64 {
    (b[off] as u64) | ((b[off + 1] as u64) << 8) | ((b[off + 2] as u64) << 16) | ((b[off
        + 3] as u64) << 24) | ((b[off + 4] as u64) << 32) | ((b[off + 5] as u64) << 40) | ((b[off
        + 6] as u64) << 48) | ((b[off + 7] as u64) << 56)
}

/// The 32-bit word stored little-endian at offset `off` of `b`.
pub open spec fn spec_u32_at(b: Seq<u8>, off: int) -> u32 {
    (b[off] as u32) | ((b[off + 1] as u32) << 8) | ((b[off + 2] as u32) << 16) | ((b[off
        + 3] as u32) << 24)
}

/// `b` with the eight bytes from `off` replaced by the little-endian form of `x`.
pub open spec fn spec_put_u64(b: Seq<u8>, off: int, x: u64) -> Seq<u8> {
    Seq::new(
        b.len(),
        |i: int|
            if off <= i < off + 8 {
                spec_byte_of(x, i - off)
            } else {
                b[i]
            },
    )
}

/// `b` with the four bytes from `off` replaced by the little-endian form of `x`.
pub open spec fn spec_put_u32(b: Seq<u8>, off: int, x: u32) -> Seq<u8> {
    Seq::new(
        b.len(),
        |i: int|
            if off <= i < off + 4 {
                spec_byte_of(x as u64, i - off)
            } else {
                b[i]
            },
    )
}

/// A sequence of `n` zero bytes.
pub open spec fn spec_zeros(n: nat) -> Seq<u8> {
    Seq::new(n, |i: int| 0u8)
}

proof fn lemma_bytes_of_word(x: u64)
    ensures
        (spec_byte_of(x, 0) as u64) | ((spec_byte_of(x, 1) as u64) << 8) | ((spec_byte_of(x, 2) as u64)
            << 16) | ((spec_byte_of(x, 3) as u64) << 24) | ((spec_byte_of(x, 4) as u64) << 32) | ((
        spec_byte_of(x, 5) as u64) << 40) | ((spec_byte_of(x, 6) as u64) << 48) | ((spec_byte_of(
            x,
            7,
        ) as u64) << 56) == x,
{
    assert(((((x >> 0) & 0xff) as u8) as u64) | (((((x >> 8) & 0xff) as u8) as u64) << 8) | (((((x
        >> 16) & 0xff) as u8) as u64) << 16) | (((((x >> 24) & 0xff) as u8) as u64) << 24) | (((((x
        >> 32) & 0xff) as u8) as u64) << 32) | (((((x >> 40) & 0xff) as u8) as u64) << 40) | (((((x
        >> 48) & 0xff) as u8) as u64) << 48) | (((((x >> 56) & 0xff) as u8) as u64) << 56) == x)
        by (bit_vector);
}

proof fn lemma_bytes_of_word32(x: u32)
    ensures
        (spec_byte_of(x as u64, 0) as u32) | ((spec_byte_of(x as u64, 1) as u32) << 8) | ((
        spec_byte_of(x as u64, 2) as u32) << 16) | ((spec_byte_of(x as u64, 3) as u32) << 24) == x,
{
    let y = x as u64;
    assert(y == x as u64);
    assert(((((y >> 0) & 0xff) as u8) as u32) | (((((y >> 8) & 0xff) as u8) as u32) << 8) | (((((y
        >> 16) & 0xff) as u8) as u32) << 16) | (((((y >> 24) & 0xff) as u8) as u32) << 24) == x)
        by (bit_vector)
        requires
            y == x as u64,
    ;
}

/// A stored word is read back.
pub proof fn lemma_get_put_u64(b: Seq<u8>, off: int, x: u64)
    requires
        0 <= off,
        off + 8 <= b.len(),
    ensures
        spec_u64_at(spec_put_u64(b, off, x), off) == x,
        spec_put_u64(b, off, x).len() == b.len(),
{
    lemma_bytes_of_word(x);
}

/// Storing a word leaves every word that does not overlap it unchanged.
pub proof fn lemma_get_put_u64_other(b: Seq<u8>, off: int, x: u64, other: int)
    requires
        0 <= off,
        off + 8 <= b.len(),
        0 <= other,
        other + 8 <= b.len(),
        other + 8 <= off || off + 8 <= other,
    ensures
        spec_u64_at(spec_put_u64(b, off, x), other) == spec_u64_at(b, other),
{
}

/// A stored 32-bit word is read back.
pub proof fn lemma_get_put_u32(b: Seq<u8>, off: int, x: u32)
    requires
        0 <= off,
        off + 4 <= b.len(),
    ensures
        spec_u32_at(spec_put_u32(b, off, x), off) == x,
        spec_put_u32(b, off, x).len() == b.len(),
{
    lemma_bytes_of_word32(x);
}

/// Storing a 64-bit word leaves a 32-bit word that does not overlap it unchanged.
pub proof fn lemma_get32_put_u64_other(b: Seq<u8>, off: int, x: u64, other: int)
    requires
        0 <= off,
        off + 8 <= b.len(),
        0 <= other,
        other + 4 <= b.len(),
        other + 4 <= off || off + 8 <= other,
    ensures
        spec_u32_at(spec_put_u64(b, off, x), other) == spec_u32_at(b, other),
{
}

/// Every word of a run of zero bytes is zero.
pub proof fn lemma_zero_word(b: Seq<u8>, off: int)
    requires
        0 <= off,
        off + 8 <= b.len(),
        forall|i: int| off <= i < off + 8 ==> b[i] == 0u8,
    ensures
        spec_u64_at(b, off) == 0,
{
    assert((0u8 as u64) | ((0u8 as u64) << 8) | ((0u8 as u64) << 16) | ((0u8 as u64) << 24) | ((
    0u8 as u64) << 32) | ((0u8 as u64) << 40) | ((0u8 as u64) << 48) | ((0u8 as u64) << 56) == 0u64)
        by (bit_vector);
}

/// Reads the word at `off`.
pub fn get_u64(b: &[u8; 512], off: usize) -> (x: u64)
    requires
        off + 8 <= 512,
    ensures
        x == spec_u64_at(b@, off as int),
{
    (b[off] as u64) | ((b[off + 1] as u64) << 8) | ((b[off + 2] as u64) << 16) | ((b[off
        + 3] as u64) << 24) | ((b[off + 4] as u64) << 32) | ((b[off + 5] as u64) << 40) | ((b[off
        + 6] as u64) << 48) | ((b[off + 7] as u64) << 56)
}

/// Reads the 32-bit word at `off`.
pub fn get_u32(b: &[u8; 512], off: usize) -> (x: u32)
    requires
        off + 4 <= 512,
    ensures
        x == spec_u32_at(b@, off as int),
{
    (b[off] as u32) | ((b[off + 1] as u32) << 8) | ((b[off + 2] as u32) << 16) | ((b[off
        + 3] as u32) << 24)
}

/// Byte `i` (0 is the least significant) of `x`.
pub fn byte_of(x: u64, i: usize) -> (r: u8)
    requires
        i < 8,
    ensures
        r == spec_byte_of(x, i as int),
{
    let s: u64 = 8 * (i as u64);
    let m: u64 = (x >> s) & 0xff;
    assert(m < 256) by (bit_vector)
        requires
            m == (x >> s) & 0xff,
    ;
    m as u8
}

/// Stores `x` at `off`.
pub fn put_u64(b: &mut [u8; 512], off: usize, x: u64)
    requires
        off + 8 <= 512,
    ensures
        final(b)@ == spec_put_u64(old(b)@, off as int, x),
{
    let mut i: usize = 0;
    while i < 8
        invariant
            i <= 8,
            off + 8 <= 512,
            forall|j: int| 0 <= j < 512 && !(off <= j < off + i) ==> b@[j] == old(b)@[j],
            forall|j: int| off <= j < off + i ==> b@[j] == spec_byte_of(x, j - off),
        decreases 8 - i,
    {
        b[off + i] = byte_of(x, i);
        i += 1;
    }
    assert(b@ =~= spec_put_u64(old(b)@, off as int, x));
}

/// Stores the 32-bit word `x` at `off`.
pub fn put_u32(b: &mut [u8; 512], off: usize, x: u32)
    requires
        off + 4 <= 512,
    ensures
        final(b)@ == spec_put_u32(old(b)@, off as int, x),
{
    let mut i: usize = 0;
    while i < 4
        invariant
            i <= 4,
            off + 4 <= 512,
            forall|j: int| 0 <= j < 512 && !(off <= j < off + i) ==> b@[j] == old(b)@[j],
            forall|j: int| off <= j < off + i ==> b@[j] == spec_byte_of(x as u64, j - off),
        decreases 4 - i,
    {
        b[off + i] = byte_of(x as u64, i);
        i += 1;
    }
    assert(b@ =~= spec_put_u32(old(b)@, off as int, x));
}

/// Two blocks that agree on the eight bytes from `off` hold the same word there.
pub proof fn lemma_same_word(a: Seq<u8>, b: Seq<u8>, off: int)
    requires
        forall|i: int| off <= i < off + 8 ==> a[i] == b[i],
    ensures
        spec_u64_at(a, off) == spec_u64_at(b, off),
{
}

/// Stores the words of `w` one after the other from byte `base` on.
pub fn put_words(b: &mut [u8; 512], base: usize, w: &[u64])
    requires
        base + 8 * w@.len() <= 512,
    ensures
        forall|i: int| 0 <= i < w@.len() ==> spec_u64_at(final(b)@, base + 8 * i) == w@[i],
        forall|j: int|
            0 <= j < 512 && !(base <= j < base + 8 * w@.len()) ==> final(b)@[j] == old(b)@[j],
{
    let n = w.len();
    let mut k: usize = 0;
    while k < n
        invariant
            k <= n,
            n == w@.len(),
            base + 8 * n <= 512,
            forall|i: int| 0 <= i < k ==> spec_u64_at(b@, base + 8 * i) == w@[i],
            forall|j: int| 0 <= j < 512 && !(base <= j < base + 8 * k) ==> b@[j] == old(b)@[j],
        decreases n - k,
    {
        let ghost prev = b@;
        put_u64(b, base + 8 * k, w[k]);
        proof {
            lemma_get_put_u64(prev, base + 8 * k, w@[k as int]);
            assert forall|i: int| 0 <= i < k implies spec_u64_at(b@, base + 8 * i) == w@[i] by {
                lemma_get_put_u64_other(prev, base + 8 * k, w@[k as int], base + 8 * i);
            }
        }
        k += 1;
    }
}

/// Reads `out.len()` words one after the other from byte `base` on.
pub fn get_words(b: &[u8; 512], base: usize, out: &mut [u64])
    requires
        base + 8 * old(out)@.len() <= 512,
    ensures
        final(out)@.len() == old(out)@.len(),
        forall|i: int| 0 <= i < final(out)@.len() ==> final(out)@[i] == spec_u64_at(b@, base + 8 * i),
{
    let n = out.len();
    let mut k: usize = 0;
    while k < n
        invariant
            k <= n,
            n == out@.len(),
            n == old(out)@.len(),
            base + 8 * n <= 512,
            forall|i: int| 0 <= i < k ==> out@[i] == spec_u64_at(b@, base + 8 * i),
        decreases n - k,
    {
        out[k] = get_u64(b, base + 8 * k);
        k += 1;
    }
}

} // verus!
