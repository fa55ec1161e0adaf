//! Machine words of the traced process: alignment and byte patching.

use vstd::prelude::*;

verus! {

/// Number of bytes in a machine word of this platform.
pub open spec fn word_size() -> nat {
    vstd::layout::size_of::<usize>()
}

/// Rounds `addr` down to the start of the machine word that holds it.
pub fn align_addr_to_word(addr: usize) -> (aligned: usize)
    ensures
        aligned == addr as int - (addr as int) % (word_size() as int),
        aligned <= addr,
        addr - aligned < word_size(),
        (aligned as int) % (word_size() as int) == 0,
{
    broadcast use vstd::layout::layout_of_primitives;
    let size: usize = core::mem::size_of::<usize>();
    assert(size == 4 || size == 8);
    let mask: usize = !(size - 1);
    let aligned: usize = addr & mask;
    if size == 8 {
        assert(addr & !7usize == addr - addr % 8) by (bit_vector);
    } else {
        assert(addr & !3usize == addr - addr % 4) by (bit_vector);
    }
    aligned
}


/// The byte at little-endian position `k` (0 = least significant) of `w`.
pub open spec fn byte_of(w: u64, k: u64) -> u8 {
    ((w >> (k * 8)) & 0xffu64) as u8
}

/// `w` with the byte at little-endian position `k` replaced by `v`.
pub open spec fn with_byte(w: u64, k: u64, v: u8) -> u64 {
    (w & !(0xffu64 << (k * 8))) | ((v as u64) << (k * 8))
}

/// Replacing a byte makes that byte read back as the new value and leaves
/// every other byte of the word as it was.
pub proof fn lemma_with_byte_reads(w: u64, k: u64, v: u8, j: u64)
    requires
        k < 8,
        j < 8,
    ensures
        byte_of(with_byte(w, k, v), k) == v,
        j != k ==> byte_of(with_byte(w, k, v), j) == byte_of(w, j),
{
    assert(((((w & !(0xffu64 << (k * 8))) | ((v as u64) << (k * 8))) >> (k * 8)) & 0xffu64) as u8
        == v) by (bit_vector)
        requires
            k < 8,
    ;
    assert(j != k ==> ((((w & !(0xffu64 << (k * 8))) | ((v as u64) << (k * 8))) >> (j * 8))
        & 0xffu64) as u8 == ((w >> (j * 8)) & 0xffu64) as u8) by (bit_vector)
        requires
            k < 8,
            j < 8,
    ;
}

/// Writing back the byte that was read restores the word exactly.
pub proof fn lemma_with_byte_restore(w: u64, k: u64)
    requires
        k < 8,
    ensures
        with_byte(w, k, byte_of(w, k)) == w,
{
    assert((w & !(0xffu64 << (k * 8))) | ((((w >> (k * 8)) & 0xffu64) as u8 as u64) << (k * 8))
        == w) by (bit_vector)
        requires
            k < 8,
    ;
}

/// A second write to the same byte overrides the first.
pub proof fn lemma_with_byte_overwrite(w: u64, k: u64, a: u8, b: u8)
    requires
        k < 8,
    ensures
        with_byte(with_byte(w, k, a), k, b) == with_byte(w, k, b),
{
    assert((((w & !(0xffu64 << (k * 8))) | ((a as u64) << (k * 8))) & !(0xffu64 << (k * 8))) | ((
    b as u64) << (k * 8)) == (w & !(0xffu64 << (k * 8))) | ((b as u64) << (k * 8))) by (bit_vector)
        requires
            k < 8,
    ;
}


/// Setting a breakpoint and later putting back the byte it displaced leaves
/// the word exactly as it was, whatever byte the breakpoint wrote.
pub proof fn lemma_patch_then_restore(w: u64, k: u64, trap: u8)
    requires
        k < 8,
    ensures
        with_byte(with_byte(w, k, trap), k, byte_of(w, k)) == w,
        byte_of(with_byte(w, k, trap), k) == trap,
{
    lemma_with_byte_overwrite(w, k, trap, byte_of(w, k));
    lemma_with_byte_restore(w, k);
    lemma_with_byte_reads(w, k, trap, k);
}

/// Position of the byte at `addr` inside its machine word.
pub open spec fn word_offset(addr: usize) -> u64 {
    ((addr as int) % (word_size() as int)) as u64
}

/// The computing half of writing one byte into the traced process.
/// `word` is the word read at `align_addr_to_word(addr)`; the result is the
/// word to store back there, with the byte at `addr` set to `val`, and the
/// byte it replaced.
pub fn patch_word(word: u64, addr: usize, val: u8) -> (res: (u64, u8))
    ensures
        word_offset(addr) < 8,
        res.0 == with_byte(word, word_offset(addr), val),
        res.1 == byte_of(word, word_offset(addr)),
{
    broadcast use vstd::layout::layout_of_primitives;
    let aligned = align_addr_to_word(addr);
    let byte_offset: usize = addr - aligned;
    assert(byte_offset < 8);
    let shift: u64 = 8 * (byte_offset as u64);
    let orig_byte: u64 = (word >> shift) & 0xff;
    let masked_word: u64 = word & !(0xffu64 << shift);
    let updated_word: u64 = masked_word | ((val as u64) << shift);
    assert(orig_byte < 256) by (bit_vector)
        requires
            orig_byte == (word >> shift) & 0xff,
    ;
    (updated_word, orig_byte as u8)
}

} // verus!
