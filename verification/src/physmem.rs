//! Physical memory: all of DRAM as one array of 64-bit words.
//!
//! Everything the kernel stores in memory of its own accord — free-list
//! nodes, page tables, heap headers, user pages — goes through this type, so
//! every contract can say exactly which words change.
use vstd::prelude::*;

use crate::memlayout;
use crate::memlayout::{DRAM_BASE, PHYS_TOP};

verus! {

/// Words in DRAM.
pub const DRAM_WORDS: usize = 0x100_0000;

/// Words in one page.
pub const PAGE_WORDS: u64 = 512;

/// Is `a` the address of an aligned word of DRAM?
pub open spec fn word_addr(a: int) -> bool {
    DRAM_BASE <= a < PHYS_TOP && a % 8 == 0
}

/// Is `a` the address of a byte of DRAM?
pub open spec fn byte_addr(a: int) -> bool {
    DRAM_BASE <= a < PHYS_TOP
}

/// The byte at position `k` (0 = least significant) of the word `w`.
pub open spec fn byte_of(w: u64, k: int) -> u8 {
    ((w >> ((8 * k) as u64)) & 0xff) as u8
}

/// The word `w` with the byte at position `k` replaced by `v`.
pub open spec fn with_byte(w: u64, k: int, v: u8) -> u64 {
    (w & !(0xffu64 << ((8 * k) as u64))) | ((v as u64) << ((8 * k) as u64))
}

/// The byte at address `a` of the memory `m` (little-endian words).
pub open spec fn byte_at(m: Map<int, u64>, a: int) -> u8 {
    byte_of(m[a - a % 8], a % 8)
}

/// The memory `m` with every word of the page at `pa` set to `v`.
pub open spec fn page_filled(m: Map<int, u64>, pa: int, v: u64) -> Map<int, u64> {
    Map::total(|a: int| if pa <= a < pa + 4096 && a % 8 == 0 { v } else { m[a] })
}

/// The memory `m` with the page at `src` copied over the page at `dst`.
pub open spec fn page_copied(m: Map<int, u64>, src: int, dst: int) -> Map<int, u64> {
    Map::total(|a: int| if dst <= a < dst + 4096 && a % 8 == 0 { m[a - dst + src] } else { m[a] })
}

/// Replacing one byte of a word replaces that byte and no other.
pub proof fn lemma_with_byte(w: u64, k: int, v: u8, j: int)
    requires
        0 <= k < 8,
        0 <= j < 8,
    ensures
        byte_of(with_byte(w, k, v), j) == if j == k {
            v
        } else {
            byte_of(w, j)
        },
{
    let s = (8 * k) as u64;
    let t = (8 * j) as u64;
    let x = v as u64;
    let r = (w & !(0xffu64 << s)) | (x << s);
    if s == t {
        assert((((w & !(0xffu64 << s)) | (x << s)) >> s) & 0xff == x) by (bit_vector)
            requires
                s < 64,
                s % 8 == 0,
                x < 256,
        ;
        assert((r >> s) & 0xff == x);
    } else {
        assert((((w & !(0xffu64 << s)) | (x << s)) >> t) & 0xff == (w >> t) & 0xff) by (bit_vector)
            requires
                s < 64,
                s % 8 == 0,
                t < 64,
                t % 8 == 0,
                s != t,
                x < 256,
        ;
    }
}

/// The `k`-th word of a page.
pub proof fn lemma_slot(p: int, k: int)
    requires
        memlayout::dram_page(p),
        0 <= k < 512,
    ensures
        word_addr(p + 8 * k),
{
    let n = p / 4096;
    assert(p == 4096 * n);
    assert((p + 8 * k) % 8 == 0) by (nonlinear_arith)
        requires
            p == 4096 * n,
    ;
}

/// DRAM.
pub struct Memory {
    words: Vec<u64>,
}

impl View for Memory {
    type V = Map<int, u64>;

    /// The word at every address; zero where there is no aligned word of
    /// DRAM.
    closed spec fn view(&self) -> Map<int, u64> {
        Map::total(
            |a: int|
                if word_addr(a) {
                    self.words@[(a - DRAM_BASE) / 8]
                } else {
                    0
                },
        )
    }
}

/// The view covers every address.
pub proof fn lemma_total(mem: Memory)
    ensures
        mem@.dom() == Set::<int>::full(),
{
}

/// There is no word at an unaligned address.
pub proof fn lemma_unaligned(mem: Memory)
    ensures
        forall|a: int| a % 8 != 0 ==> #[trigger] mem@[a] == 0,
{
}

impl Memory {
    /// The array covers DRAM exactly.
    pub closed spec fn wf(self) -> bool {
        self.words@.len() == DRAM_WORDS
    }

    /// Zeroed DRAM.
    pub fn new() -> (mem: Memory)
        ensures
            mem.wf(),
            forall|a: int| #[trigger] mem@[a] == 0,
    {
        Memory { words: vec![0; DRAM_WORDS] }
    }

    /// DRAM as it is, given as all of its words.
    pub fn over(words: Vec<u64>) -> (mem: Memory)
        requires
            words@.len() == DRAM_WORDS,
        ensures
            mem.wf(),
            forall|a: int| #[trigger]
                mem@[a] == if word_addr(a) {
                    words@[(a - DRAM_BASE) / 8]
                } else {
                    0
                },
    {
        Memory { words }
    }

    /// The word at `a`.
    pub fn read(&self, a: u64) -> (w: u64)
        requires
            self.wf(),
            word_addr(a as int),
        ensures
            w == self@[a as int],
    {
        self.words[((a - DRAM_BASE) / 8) as usize]
    }

    /// Store `w` at `a`.
    pub fn write(&mut self, a: u64, w: u64)
        requires
            old(self).wf(),
            word_addr(a as int),
        ensures
            final(self).wf(),
            final(self)@ == old(self)@.insert(a as int, w),
    {
        let i: usize = ((a - DRAM_BASE) / 8) as usize;
        self.words.set(i, w);
        assert(self@ =~= old(self)@.insert(a as int, w)) by {
            assert forall|b: int| #[trigger] self@[b] == old(self)@.insert(a as int, w)[b] by {
                if word_addr(b) && b != a {
                    assert((b - DRAM_BASE) / 8 != i);
                }
            }
        }
    }
}

} // verus!
