//! Page and byte operations on physical memory.
use vstd::prelude::*;

use crate::memlayout;
use crate::physmem;
use crate::physmem::{Memory, PAGE_WORDS};

verus! {

/// The first `i` words of the page at `src` are copied to the page at `dst`.
spec fn copied_upto(
    m0: Map<int, u64>,
    m: Map<int, u64>,
    src: int,
    dst: int,
    i: int,
) -> bool {
    forall|a: int|
        #[trigger]
        m[a] == if dst <= a < dst + 8 * i && a % 8 == 0 {
            m0[a - dst + src]
        } else {
            m0[a]
        }
}

proof fn lemma_copied_step(m0: Map<int, u64>, m: Map<int, u64>, src: int, dst: int, i: int)
    requires
        copied_upto(m0, m, src, dst, i),
        memlayout::dram_page(src),
        memlayout::dram_page(dst),
        src != dst,
        0 <= i < 512,
    ensures
        copied_upto(m0, m.insert(dst + 8 * i, m[src + 8 * i]), src, dst, i + 1),
{
    assert(m[src + 8 * i] == m0[src + 8 * i]);
    let m2 = m.insert(dst + 8 * i, m[src + 8 * i]);
    assert forall|a: int|
        #[trigger]
        m2[a] == if dst <= a < dst + 8 * (i + 1) && a % 8 == 0 {
            m0[a - dst + src]
        } else {
            m0[a]
        } by {
        if a != dst + 8 * i {
            assert(m2[a] == m[a]);
        }
    }
}

impl Memory {
    /// Store `w` in every word of the page at `pa`.
    pub fn fill_page(&mut self, pa: u64, w: u64)
        requires
            old(self).wf(),
            memlayout::dram_page(pa as int),
        ensures
            final(self).wf(),
            final(self)@ == physmem::page_filled(old(self)@, pa as int, w),
    {
        let mut i: u64 = 0;
        while i < PAGE_WORDS
            invariant
                i <= PAGE_WORDS,
                self.wf(),
                memlayout::dram_page(pa as int),
                forall|a: int|
                    #[trigger]
                    self@[a] == if pa <= a < pa + 8 * i && a % 8 == 0 {
                        w
                    } else {
                        old(self)@[a]
                    },
            decreases PAGE_WORDS - i,
        {
            self.write(pa + 8 * i, w);
            i = i + 1;
        }
        proof {
            physmem::lemma_total(*self);
        }
        assert(self@ =~= physmem::page_filled(old(self)@, pa as int, w));
    }

    /// Copy the page at `src` over the page at `dst`.
    pub fn copy_page(&mut self, src: u64, dst: u64)
        requires
            old(self).wf(),
            memlayout::dram_page(src as int),
            memlayout::dram_page(dst as int),
            src != dst,
        ensures
            final(self).wf(),
            final(self)@ == physmem::page_copied(old(self)@, src as int, dst as int),
    {
        let mut i: u64 = 0;
        while i < PAGE_WORDS
            invariant
                i <= PAGE_WORDS,
                self.wf(),
                memlayout::dram_page(src as int),
                memlayout::dram_page(dst as int),
                src != dst,
                copied_upto(old(self)@, self@, src as int, dst as int, i as int),
            decreases PAGE_WORDS - i,
        {
            let ghost m = self@;
            let w: u64 = self.read(src + 8 * i);
            self.write(dst + 8 * i, w);
            proof {
                lemma_copied_step(old(self)@, m, src as int, dst as int, i as int);
            }
            i = i + 1;
        }
        proof {
            physmem::lemma_total(*self);
        }
        assert(self@ =~= physmem::page_copied(old(self)@, src as int, dst as int));
    }

    /// The byte at `a`.
    pub fn read_byte(&self, a: u64) -> (b: u8)
        requires
            self.wf(),
            physmem::byte_addr(a as int),
        ensures
            b == physmem::byte_at(self@, a as int),
    {
        let w: u64 = self.read(a - a % 8);
        let s: u64 = 8 * (a % 8);
        ((w >> s) & 0xff) as u8
    }

    /// Store `v` at `a`, leaving every other byte alone.
    pub fn write_byte(&mut self, a: u64, v: u8)
        requires
            old(self).wf(),
            physmem::byte_addr(a as int),
        ensures
            final(self).wf(),
            final(self)@ == old(self)@.insert(
                a - a % 8,
                physmem::with_byte(old(self)@[a - a % 8], (a % 8) as int, v),
            ),
            forall|b: int|
                #[trigger]
                physmem::byte_at(final(self)@, b) == if b == a {
                    v
                } else {
                    physmem::byte_at(old(self)@, b)
                },
    {
        let base: u64 = a - a % 8;
        let s: u64 = 8 * (a % 8);
        let w: u64 = self.read(base);
        self.write(base, (w & !(0xffu64 << s)) | ((v as u64) << s));
        proof {
            assert forall|b: int|
                #[trigger]
                physmem::byte_at(self@, b) == if b == a {
                    v
                } else {
                    physmem::byte_at(old(self)@, b)
                } by {
                if b - b % 8 == base {
                    physmem::lemma_with_byte(w, (a % 8) as int, v, b % 8);
                }
            }
        }
    }
}

} // verus!
