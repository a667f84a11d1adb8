//! Physical memory map of QEMU's `virt` machine, plus the kernel's own
//! layout as the linker places it.
//!
//!   0x0010_0000  VIRT_TEST     sifive_test device
//!   0x0c00_0000  PLIC          platform-level interrupt controller
//!   0x1000_0000  UART0         NS16550A serial port
//!   0x8000_0000  DRAM          firmware, then the kernel image, then the
//!                              heap, then free pages
use vstd::prelude::*;

verus! {

/// Bytes in one page.
pub const PAGE_SIZE: u64 = 4096;

/// The sifive_test device.
pub const VIRT_TEST: u64 = 0x0010_0000;

/// The interrupt controller.
pub const PLIC: u64 = 0x0c00_0000;

/// Bytes of interrupt-controller registers.
pub const PLIC_SIZE: u64 = 0x40_0000;

/// The serial port.
pub const UART0: u64 = 0x1000_0000;

/// The interrupt the serial port raises.
pub const UART0_IRQ: u32 = 10;

/// First byte of DRAM.
pub const DRAM_BASE: u64 = 0x8000_0000;

/// One past the last byte of DRAM (128 MiB of it).
pub const PHYS_TOP: u64 = 0x8800_0000;

/// Fixed-size kernel heap carved out directly after the kernel image; the
/// page allocator manages everything from the heap's end to `PHYS_TOP`.
pub const HEAP_SIZE: u64 = 0x80_0000;

/// Is `a` the address of a page of DRAM?
pub open spec fn dram_page(a: int) -> bool {
    &&& DRAM_BASE <= a
    &&& a + PAGE_SIZE <= PHYS_TOP
    &&& a % 4096 == 0
}

/// Section boundaries of the linked kernel image.
#[derive(Clone, Copy)]
pub struct KernelImage {
    pub kernel_start: u64,
    pub text_start: u64,
    pub text_end: u64,
    pub user_start: u64,
    pub user_end: u64,
    pub rodata_start: u64,
    pub rodata_end: u64,
    pub data_start: u64,
    pub kernel_end: u64,
}

impl KernelImage {
    /// The shape the linker script gives the image: page-aligned sections in
    /// ascending order inside DRAM, each of them but `.user` non-empty, with
    /// room for the heap and at least one page above them.
    pub open spec fn wf(self) -> bool {
        &&& self.kernel_start % 4096 == 0
        &&& self.text_start % 4096 == 0
        &&& self.text_end % 4096 == 0
        &&& self.user_start % 4096 == 0
        &&& self.user_end % 4096 == 0
        &&& self.rodata_start % 4096 == 0
        &&& self.rodata_end % 4096 == 0
        &&& self.data_start % 4096 == 0
        &&& self.kernel_end % 4096 == 0
        &&& DRAM_BASE <= self.kernel_start <= self.text_start < self.text_end
        &&& self.text_end <= self.user_start <= self.user_end <= self.rodata_start
        &&& self.rodata_start < self.rodata_end <= self.data_start < self.kernel_end
        &&& self.kernel_end + HEAP_SIZE + PAGE_SIZE <= PHYS_TOP
    }

    /// Does the image have the shape that [`KernelImage::wf`] describes?
    pub fn check(&self) -> (ok: bool)
        ensures
            ok == self.wf(),
    {
        self.kernel_start % 4096 == 0 && self.text_start % 4096 == 0 && self.text_end % 4096 == 0
            && self.user_start % 4096 == 0 && self.user_end % 4096 == 0 && self.rodata_start % 4096
            == 0 && self.rodata_end % 4096 == 0 && self.data_start % 4096 == 0 && self.kernel_end
            % 4096 == 0 && DRAM_BASE <= self.kernel_start && self.kernel_start <= self.text_start
            && self.text_start < self.text_end && self.text_end <= self.user_start
            && self.user_start <= self.user_end && self.user_end <= self.rodata_start
            && self.rodata_start < self.rodata_end && self.rodata_end <= self.data_start
            && self.data_start < self.kernel_end && self.kernel_end <= PHYS_TOP - HEAP_SIZE
            - PAGE_SIZE
    }
}

/// First byte of the kernel heap.
pub fn heap_start(image: &KernelImage) -> (start: u64)
    ensures
        start == image.kernel_end,
{
    image.kernel_end
}

/// First page the physical page allocator owns.
pub fn alloc_start(image: &KernelImage) -> (start: u64)
    requires
        image.kernel_end + HEAP_SIZE <= u64::MAX,
    ensures
        start == image.kernel_end + HEAP_SIZE,
{
    heap_start(image) + HEAP_SIZE
}

} // verus!
