//! Syscall dispatch: the kernel side of `ecall` from U-mode.
//!
//! ABI: syscall number in a7, arguments in a0/a1/a2, result returned in a0.
//!
//! A syscall that has to wait gives up the CPU; [`proceed`] takes it from
//! there when the process runs again.
use vstd::prelude::*;
use vstd::string::StrSliceExecFns;

use crate::console;
use crate::fs;
use crate::kalloc;
use crate::kernel;
use crate::kernel::{Kernel, Program};
use crate::loader;
use crate::proc;
use crate::proc::{Entry, Handoff, Process, Scheduler, State, UserEntry, ERR, KSTACK_SIZE};
use crate::riscv;
use crate::riscv::Hart;
use crate::spinlock;
use crate::sv39;
use crate::sync;
use crate::text;
use crate::timer;
use crate::trap::TrapFrame;
use crate::uproc;
use crate::usercopy;
use crate::uvm;
use crate::vm::Vm;

verus! {

pub const SYS_WRITE: u64 = 1;

pub const SYS_EXIT: u64 = 2;

pub const SYS_YIELD: u64 = 3;

pub const SYS_GETPID: u64 = 4;

pub const SYS_SLEEP_MS: u64 = 5;

pub const SYS_READ: u64 = 6;

pub const SYS_UNAME: u64 = 7;

pub const SYS_OPEN: u64 = 8;

pub const SYS_FREAD: u64 = 9;

pub const SYS_CLOSE: u64 = 10;

pub const SYS_SBRK: u64 = 11;

pub const SYS_FORK: u64 = 12;

pub const SYS_WAIT: u64 = 13;

pub const SYS_EXEC: u64 = 14;

/// Longest path SYS_OPEN and SYS_EXEC accept.
pub const PATH_MAX: u64 = 64;

/// Longest single transfer accepted across the user boundary.
pub const WRITE_MAX: u64 = 1024;

/// Longest sleep SYS_SLEEP_MS can ask for, in ticks.
pub const SLEEP_MAX: u64 = 18_446_744_073_709_552;

/// Reported by SYS_UNAME.
pub open spec fn uname_text() -> &'static str {
    "osmium 0.1.0 riscv64\n"
}

// --- What stays the same -----------------------------------------------------

/// The parts of the kernel no syscall concerns are as before.
pub open spec fn quiet(a: Kernel, b: Kernel) -> bool {
    &&& b.heap == a.heap
    &&& b.timer == a.timer
    &&& b.programs == a.programs
    &&& b.console == a.console
    &&& b.fs.files() == a.fs.files()
    &&& sync::calm(a.hart, b.hart)
}

/// Nothing a process can see has changed.
pub open spec fn kept(a: Kernel, b: Kernel) -> bool {
    &&& b.vm == a.vm
    &&& b.sched == a.sched
    &&& quiet(a, b)
}

// --- User memory -------------------------------------------------------------

/// The address space of the calling process.
pub open spec fn caller_root(k: Kernel) -> int {
    k.sched.running()->0.page_table as int
}

/// The text of `len` bytes at the calling process's address `ptr`: None if it
/// is longer than `max`, not all readable by the process, or not UTF-8.
pub open spec fn user_text(k: Kernel, ptr: u64, len: u64, max: u64) -> Option<Seq<char>> {
    let m = k.vm.mem@;
    let root = caller_root(k);
    let bytes = usercopy::user_bytes(m, root, ptr as int, len as int);
    if len <= max && usercopy::user_range(m, root, ptr, len as int, false)
        && vstd::utf8::valid_utf8(bytes) {
        Some(vstd::utf8::decode_utf8(bytes))
    } else {
        None
    }
}

/// What a copy of `bytes` to the address `ptr` of `root` does: the bytes are in
/// place and nothing else has changed, or nothing has changed at all because
/// the process may not write there.
pub open spec fn copied_out(vm1: Vm, vm2: Vm, root: int, ptr: u64, bytes: Seq<u8>) -> bool {
    if usercopy::user_range(vm1.mem@, root, ptr, bytes.len() as int, true) {
        &&& usercopy::user_written(vm1.mem@, vm2.mem@, root, ptr as int, bytes)
        &&& vm2.kmem == vm1.kmem
        &&& vm2.image == vm1.image
        &&& vm2.root == vm1.root
        &&& forall|a: int|
            !usercopy::range_frame(
                vm1.mem@,
                root,
                ptr as int,
                bytes.len() as int,
                sv39::page_of(a),
            ) ==> #[trigger] vm2.mem@[a] == vm1.mem@[a]
    } else {
        vm2 == vm1
    }
}

/// What a syscall that copies `n` bytes out returns.
pub open spec fn copy_result(vm: Vm, root: int, ptr: u64, n: int) -> u64 {
    if usercopy::user_range(vm.mem@, root, ptr, n, true) {
        n as u64
    } else {
        ERR
    }
}

/// The calling process's table is one of the system's.
proof fn lemma_caller(k: Kernel)
    requires
        k.wf(),
        uproc::user_calls(k.sched),
    ensures
        usercopy::table_ok(k.vm, caller_root(k)),
        uproc::table_at(k.sched.procs@, k.sched.current->0 as int) == caller_root(k),
{
    let c = k.sched.current->0 as int;
    assert(proc::at(k.sched.procs@, c) == k.sched.running());
    uproc::lemma_table(k.vm, k.sched.procs@, c);
}

/// Read text from the calling process.
fn read_text(k: &mut Kernel, ptr: u64, len: u64, max: u64) -> (text: Option<String>)
    requires
        old(k).in_user_trap(),
        max <= 1024,
    ensures
        final(k).in_user_trap(),
        kept(*old(k), *final(k)),
        match user_text(*old(k), ptr, len, max) {
            Some(t) => text matches Some(s) && s@ == t,
            None => text is None,
        },
{
    if len > max {
        proof {
            sync::lemma_calm(k.hart);
        }
        return None;
    }
    proof {
        sync::lemma_section(k.hart);
        lemma_caller(*k);
    }
    let root: u64 = proc::current_root(&k.sched, &mut k.hart, k.vm.root);
    match usercopy::copy_from_user(&k.vm, &mut k.hart, root, ptr, len) {
        Some(bytes) => text::from_utf8(bytes.as_slice()),
        None => None,
    }
}

/// Write `bytes` to the calling process's address `ptr`; the number of bytes,
/// or [`ERR`] if it may not write there.
fn write_bytes(k: &mut Kernel, ptr: u64, bytes: &[u8]) -> (n: u64)
    requires
        old(k).in_user_trap(),
    ensures
        final(k).in_user_trap(),
        final(k).sched == old(k).sched,
        quiet(*old(k), *final(k)),
        copied_out(old(k).vm, final(k).vm, caller_root(*old(k)), ptr, bytes@),
        n == copy_result(old(k).vm, caller_root(*old(k)), ptr, bytes@.len() as int),
{
    let ghost k0 = *k;
    let ghost root0 = caller_root(*k);
    proof {
        sync::lemma_section(k.hart);
        lemma_caller(*k);
    }
    let root: u64 = proc::current_root(&k.sched, &mut k.hart, k.vm.root);
    let done: Option<u64> = usercopy::copy_to_user(&mut k.vm, &mut k.hart, root, ptr, bytes);
    proof {
        if done is Some {
            assert(uproc::table_at(k.sched.procs@, k.sched.current->0 as int) == root0);
            usercopy::lemma_copy_spaces(
                k0.vm,
                k.vm,
                k.sched.procs@,
                root0,
                ptr,
                bytes@.len() as int,
            );
            assert forall|a: int|
                !kalloc::managed(k0.vm.start(), sv39::page_of(a)) implies #[trigger] k.vm.mem@[a]
                == k0.vm.mem@[a] by {
                let l = bytes@.len() as int;
                if usercopy::range_frame(k0.vm.mem@, root0, ptr as int, l, sv39::page_of(a)) {
                    usercopy::lemma_range_managed(k0.vm, root0, ptr, l, sv39::page_of(a));
                }
            }
            kernel::lemma_heap_keep(k0.heap, k0.vm, k.vm);
        }
    }
    match done {
        Some(n) => n,
        None => ERR,
    }
}

// --- The single calls --------------------------------------------------------

/// Ticks that a sleep of `ms` milliseconds lasts: rounded up, at least one,
/// and saturated where the product would overflow.
pub open spec fn ticks_of(ms: u64) -> int {
    let scaled = if ms * 100 > u64::MAX {
        u64::MAX as int
    } else {
        ms * 100
    };
    let n = (scaled + 999) / 1000;
    if n < 1 {
        1
    } else {
        n
    }
}

/// The ticks a sleep of `ms` milliseconds lasts. The argument is
/// user-controlled, so a plain multiply could overflow.
pub fn sleep_ticks_for(ms: u64) -> (n: u64)
    ensures
        n == ticks_of(ms),
        1 <= n <= SLEEP_MAX,
{
    let scaled: u64 = match ms.checked_mul(timer::TICK_HZ) {
        Some(x) => x,
        None => u64::MAX,
    };
    let whole: u64 = scaled / 1000;
    let n: u64 = if scaled % 1000 == 0 {
        whole
    } else {
        whole + 1
    };
    if n < 1 {
        1
    } else {
        n
    }
}

/// The bytes a read of up to `len` bytes gives, when there are any.
pub open spec fn read_bytes(pending: Seq<u8>, len: u64) -> Seq<u8> {
    let cap = if len < WRITE_MAX {
        len as int
    } else {
        WRITE_MAX as int
    };
    if pending.len() < cap {
        pending
    } else {
        pending.take(cap)
    }
}

/// Drain what is already buffered behind the first byte, up to `cap` bytes.
#[verifier::rlimit(60)]
fn drain(k: &mut Kernel, first: u8, cap: u64) -> (buf: Vec<u8>)
    requires
        old(k).in_user_trap(),
        1 <= cap <= WRITE_MAX,
    ensures
        final(k).in_user_trap(),
        final(k).vm == old(k).vm,
        final(k).sched == old(k).sched,
        final(k).heap == old(k).heap,
        final(k).timer == old(k).timer,
        final(k).programs == old(k).programs,
        final(k).fs == old(k).fs,
        final(k).console.chan == old(k).console.chan,
        sync::calm(old(k).hart, final(k).hart),
        ({
            let all = seq![first] + old(k).console.pending();
            let n = if all.len() < cap {
                all.len() as int
            } else {
                cap as int
            };
            &&& buf@ == all.take(n)
            &&& final(k).console.pending() == all.skip(n)
        }),
{
    let ghost all = seq![first] + k.console.pending();
    let mut buf: Vec<u8> = Vec::new();
    buf.push(first);
    let mut more: bool = true;
    assert(buf@ =~= all.take(1));
    assert(k.console.pending() =~= all.skip(1));
    while more && (buf.len() as u64) < cap
        invariant
            1 <= buf@.len() <= cap,
            cap <= WRITE_MAX,
            buf@.len() <= all.len(),
            buf@ == all.take(buf@.len() as int),
            k.console.pending() == all.skip(buf@.len() as int),
            !more ==> buf@.len() == all.len(),
            k.in_user_trap(),
            k.vm == old(k).vm,
            k.sched == old(k).sched,
            k.heap == old(k).heap,
            k.timer == old(k).timer,
            k.programs == old(k).programs,
            k.fs == old(k).fs,
            k.console.chan == old(k).console.chan,
            sync::calm(old(k).hart, k.hart),
        decreases
            cap - buf@.len(),
            if more {
                1int
            } else {
                0
            },
    {
        proof {
            sync::lemma_section(k.hart);
        }
        match console::getchar(&mut k.console, &mut k.hart) {
            Some(byte) => {
                buf.push(byte);
                assert(buf@ =~= all.take(buf@.len() as int));
                assert(k.console.pending() =~= all.skip(buf@.len() as int));
            },
            None => {
                more = false;
            },
        }
    }
    buf
}

/// What a console read into the calling process's buffer does: nothing for an
/// empty buffer; sleep while no byte is there; otherwise take what is buffered,
/// up to the buffer's length, and copy it out.
pub open spec fn read_done(
    k1: Kernel,
    k2: Kernel,
    ptr: u64,
    len: u64,
    r: Result<u64, Handoff>,
) -> bool {
    let root = caller_root(k1);
    let pending = k1.console.pending();
    let bytes = read_bytes(pending, len);
    &&& k2.heap == k1.heap
    &&& k2.timer == k1.timer
    &&& k2.programs == k1.programs
    &&& k2.fs.files() == k1.fs.files()
    &&& k2.console.chan == k1.console.chan
    &&& if len == 0 {
        &&& r == Ok::<u64, Handoff>(0)
        &&& k2.vm == k1.vm
        &&& k2.sched == k1.sched
        &&& k2.console.pending() == pending
        &&& sync::calm(k1.hart, k2.hart)
    } else if pending.len() == 0 {
        &&& r == Err::<u64, Handoff>(
            Handoff {
                slot: k1.sched.current->0,
                intena: riscv::sie_on(k1.hart.sstatus),
            },
        )
        &&& k2.vm == k1.vm
        &&& asleep(k1.sched, k2.sched, k1.console.chan)
        &&& k2.console.pending() == pending
        &&& k2.hart == spinlock::pushed(k1.hart)
    } else {
        &&& r == Ok::<u64, Handoff>(copy_result(k1.vm, root, ptr, bytes.len() as int))
        &&& copied_out(k1.vm, k2.vm, root, ptr, bytes)
        &&& k2.sched == k1.sched
        &&& k2.console.pending() == pending.skip(bytes.len() as int)
        &&& sync::calm(k1.hart, k2.hart)
    }
}

/// The current thread has gone to sleep on `chan`.
pub open spec fn asleep(s1: Scheduler, s2: Scheduler, chan: u64) -> bool {
    &&& s2.procs@ == proc::moved(s1.procs@, s1.current->0 as int, State::Sleeping(chan))
    &&& s2 == (Scheduler { procs: s2.procs, ..s1 })
}

/// Blocking console read into a user buffer. Waits (sleeping, not spinning) for
/// at least one byte, then drains whatever is already buffered, up to `len`.
/// The byte count, or [`ERR`] if the buffer is rejected; or the handoff of the
/// process, which asks again.
#[verifier::rlimit(60)]
fn sys_read(k: &mut Kernel, ptr: u64, len: u64) -> (r: Result<u64, Handoff>)
    requires
        old(k).in_user_trap(),
    ensures
        final(k).wf(),
        r is Ok ==> final(k).in_user_trap(),
        read_done(*old(k), *final(k), ptr, len, r),
{
    let ghost k0 = *k;
    proof {
        sync::lemma_section(k.hart);
    }
    if len == 0 {
        return Ok(0);
    }
    let cap: u64 = if len < WRITE_MAX {
        len
    } else {
        WRITE_MAX
    };
    match console::getchar_blocking(&mut k.console, &mut k.sched, &mut k.hart) {
        Ok(first) => {
            let ghost k1 = *k;
            let buf: Vec<u8> = drain(k, first, cap);
            proof {
                let pending = k0.console.pending();
                let all = seq![first] + k1.console.pending();
                assert(all =~= pending);
                let bytes = read_bytes(pending, len);
                let n = if all.len() < cap {
                    all.len() as int
                } else {
                    cap as int
                };
                assert(all.take(n) =~= bytes);
                assert(all.skip(n) =~= pending.skip(bytes.len() as int));
            }
            let n: u64 = write_bytes(k, ptr, buf.as_slice());
            Ok(n)
        },
        Err(h) => {
            proof {
                uproc::lemma_moved_spaces(
                    k.vm,
                    k0.sched.procs@,
                    k0.sched.current->0 as int,
                    State::Sleeping(k0.console.chan),
                );
            }
            Err(h)
        },
    }
}

/// The bytes SYS_UNAME copies for a buffer of `len` bytes.
pub open spec fn uname_bytes(len: u64) -> Seq<u8> {
    let all = vstd::utf8::encode_utf8(uname_text()@);
    if len < all.len() {
        all.take(len as int)
    } else {
        all
    }
}

/// Copy the kernel version string into a user buffer; returns its length.
fn sys_uname(k: &mut Kernel, ptr: u64, len: u64) -> (r: u64)
    requires
        old(k).in_user_trap(),
    ensures
        final(k).in_user_trap(),
        final(k).sched == old(k).sched,
        quiet(*old(k), *final(k)),
        copied_out(old(k).vm, final(k).vm, caller_root(*old(k)), ptr, uname_bytes(len)),
        r == copy_result(
            old(k).vm,
            caller_root(*old(k)),
            ptr,
            uname_bytes(len).len() as int,
        ),
{
    let mut text: Vec<u8> = "osmium 0.1.0 riscv64\n".as_bytes_vec();
    let n: usize = if len < text.len() as u64 {
        len as usize
    } else {
        text.len()
    };
    text.truncate(n);
    assert(text@ =~= uname_bytes(len));
    write_bytes(k, ptr, text.as_slice())
}

/// What opening the file named by the text at `ptr` does: the descriptor of a
/// file that exists, installed at offset 0, or [`ERR`].
pub open spec fn open_done(k1: Kernel, k2: Kernel, ptr: u64, len: u64, r: u64) -> bool {
    let p = k1.sched.running()->0;
    let fd = proc::first_fd(p.fds@, 0);
    let text = user_text(k1, ptr, len, PATH_MAX);
    let idx = fs::find(k1.fs.files(), text->0, 0);
    &&& k2.vm == k1.vm
    &&& quiet(k1, k2)
    &&& if len != 0 && text is Some && idx < k1.fs.files().len() && fd < 8 {
        &&& r == fd
        &&& k2.sched.running() is Some
        &&& proc::fd_set(
            p,
            k2.sched.running()->0,
            fd,
            Some(proc::FdEntry { file_idx: idx as usize, offset: 0 }),
        )
        &&& proc::replaced(
            k1.sched,
            k2.sched,
            k1.sched.current->0 as int,
            k2.sched.running()->0,
        )
    } else {
        &&& r == ERR
        &&& k2.sched == k1.sched
    }
}

/// Replacing the running process by one with the same address space keeps all
/// address spaces sound.
proof fn lemma_replaced(k1: Kernel, s2: Scheduler, p: Process)
    requires
        k1.in_user_trap(),
        proc::replaced(k1.sched, s2, k1.sched.current->0 as int, p),
        p.user_table == k1.sched.running()->0.user_table,
        uproc::process_ok(p, k1.vm.root),
    ensures
        uproc::spaces(k1.vm, s2.procs@),
        uproc::user_calls(s2),
        s2.running() == Some(p),
{
    let c = k1.sched.current->0 as int;
    assert forall|i: int| #[trigger] uproc::table_at(s2.procs@, i) == uproc::table_at(
        k1.sched.procs@,
        i,
    ) by {}
    assert forall|i: int| (#[trigger] proc::at(s2.procs@, i)) is Some implies uproc::process_ok(
        proc::at(s2.procs@, i)->0,
        k1.vm.root,
    ) by {
        if i != c {
            assert(proc::at(k1.sched.procs@, i) is Some);
        }
    }
    uproc::lemma_same_tables(k1.vm, k1.sched.procs@, s2.procs@);
}

/// The running process is in order.
proof fn lemma_running(k: Kernel)
    requires
        k.wf(),
        uproc::user_calls(k.sched),
    ensures
        uproc::process_ok(k.sched.running()->0, k.vm.root),
        k.sched.running()->0.user_table == Some(k.sched.running()->0.page_table),
        proc::at(k.sched.procs@, k.sched.current->0 as int) == k.sched.running(),
{
    assert(proc::at(k.sched.procs@, k.sched.current->0 as int) is Some);
}

/// Open a ramfs file by name; returns a file descriptor or [`ERR`].
fn sys_open(k: &mut Kernel, path_ptr: u64, path_len: u64) -> (r: u64)
    requires
        old(k).in_user_trap(),
    ensures
        final(k).in_user_trap(),
        open_done(*old(k), *final(k), path_ptr, path_len, r),
{
    let ghost k0 = *k;
    proof {
        lemma_running(*k);
        sync::lemma_calm(k.hart);
    }
    if path_len == 0 || path_len > PATH_MAX {
        return ERR;
    }
    let name: String = match read_text(k, path_ptr, path_len, PATH_MAX) {
        Some(name) => name,
        None => return ERR,
    };
    proof {
        sync::lemma_section(k.hart);
    }
    let idx: usize = match fs::lookup(&mut k.fs, &mut k.hart, name.as_str()) {
        Some(idx) => idx,
        None => return ERR,
    };
    proof {
        sync::lemma_section(k.hart);
    }
    match proc::fd_install(&mut k.sched, &mut k.hart, idx) {
        Some(fd) => {
            proof {
                lemma_replaced(k0, k.sched, k.sched.running()->0);
            }
            fd as u64
        },
        None => ERR,
    }
}

/// The bytes a read of up to `len` bytes at the cursor `e` gives.
pub open spec fn fread_bytes(
    files: Seq<(Seq<char>, Seq<u8>)>,
    e: proc::FdEntry,
    len: u64,
) -> Seq<u8> {
    let cap = if len < WRITE_MAX {
        len as int
    } else {
        WRITE_MAX as int
    };
    if e.file_idx < files.len() {
        let data = files[e.file_idx as int].1;
        let n = fs::read_len(data, e.offset as int, cap);
        if n == 0 {
            Seq::empty()
        } else {
            data.subrange(e.offset as int, e.offset + n)
        }
    } else {
        Seq::empty()
    }
}

/// What reading from descriptor `fd` does: the bytes at the cursor go to the
/// buffer and the cursor moves behind them; nothing moves if the descriptor is
/// not open or the buffer is rejected.
pub open spec fn fread_done(k1: Kernel, k2: Kernel, fd: u64, ptr: u64, len: u64, r: u64) -> bool {
    let p = k1.sched.running()->0;
    let root = caller_root(k1);
    let e = proc::fd_entry(p, fd);
    &&& quiet(k1, k2)
    &&& if e is None {
        &&& r == ERR
        &&& k2.vm == k1.vm
        &&& k2.sched == k1.sched
    } else if len == 0 {
        &&& r == 0
        &&& k2.vm == k1.vm
        &&& k2.sched == k1.sched
    } else {
        let bytes = fread_bytes(k1.fs.files(), e->0, len);
        let n = bytes.len() as int;
        &&& r == copy_result(k1.vm, root, ptr, n)
        &&& copied_out(k1.vm, k2.vm, root, ptr, bytes)
        &&& if usercopy::user_range(k1.vm.mem@, root, ptr, n, true) {
            &&& k2.sched.running() is Some
            &&& proc::fd_set(
                p,
                k2.sched.running()->0,
                fd as int,
                Some(
                    proc::FdEntry {
                        file_idx: e->0.file_idx,
                        offset: (e->0.offset + n) as usize,
                    },
                ),
            )
            &&& proc::replaced(
                k1.sched,
                k2.sched,
                k1.sched.current->0 as int,
                k2.sched.running()->0,
            )
        } else {
            k2.sched == k1.sched
        }
    }
}

/// Read up to `len` bytes from an open fd into a user buffer, advancing the
/// fd's cursor. Returns the byte count (0 at the end of the file) or [`ERR`].
#[verifier::spinoff_prover]
#[verifier::rlimit(60)]
fn sys_fread(k: &mut Kernel, fd: u64, ptr: u64, len: u64) -> (r: u64)
    requires
        old(k).in_user_trap(),
    ensures
        final(k).in_user_trap(),
        fread_done(*old(k), *final(k), fd, ptr, len, r),
{
    let ghost k0 = *k;
    proof {
        lemma_running(*k);
        sync::lemma_section(k.hart);
    }
    let (file_idx, offset) = match proc::fd_lookup(&k.sched, &mut k.hart, fd) {
        Some((file_idx, offset)) => (file_idx, offset),
        None => return ERR,
    };
    let cap: usize = if len < WRITE_MAX {
        len as usize
    } else {
        WRITE_MAX as usize
    };
    if cap == 0 {
        return 0;
    }
    let mut buf: Vec<u8> = vec![0;cap];
    proof {
        sync::lemma_section(k.hart);
    }
    let n: usize = fs::read_at(&mut k.fs, &mut k.hart, file_idx, offset, buf.as_mut_slice());
    buf.truncate(n);
    let ghost e = proc::FdEntry { file_idx, offset };
    proof {
        assert(buf@ =~= fread_bytes(k0.fs.files(), e, len));
    }
    let ghost k1 = *k;
    let written: u64 = write_bytes(k, ptr, buf.as_slice());
    if written == ERR {
        return ERR;
    }
    proof {
        lemma_running(*k);
        sync::lemma_section(k.hart);
    }
    let ghost k2 = *k;
    proc::fd_advance(&mut k.sched, &mut k.hart, fd, n);
    proof {
        lemma_replaced(k2, k.sched, k.sched.running()->0);
    }
    written
}

// --- Dispatch ----------------------------------------------------------------

/// A syscall that waits, with what it needs to go on.
#[derive(Clone, Copy)]
pub enum Pending {
    /// A read into the buffer of `len` bytes at `ptr`.
    Read { ptr: u64, len: u64 },
    /// A sleep until the tick count reaches `target`.
    Sleep { target: u64 },
    /// A wait for the process `pid` to finish.
    Join { pid: u64 },
}

/// What to do after a syscall.
pub enum Action {
    /// Return to the process.
    Return,
    /// Print the text, then return to the process.
    Print(String),
    /// Report the exit code, then switch to the scheduler for good.
    Exit { pid: u64, code: u64, handoff: Handoff },
    /// Switch to the scheduler; return to the process when it runs again.
    Yield(Handoff),
    /// Switch to the scheduler; go on with [`proceed`] when the process runs
    /// again.
    Block(Handoff, Pending),
    /// Enter the program that replaced the caller's.
    Enter(UserEntry),
    /// Report the unknown syscall number, then return to the process.
    Unknown { pid: u64, number: u64 },
    /// The kernel is out of pages.
    OutOfPages,
}

/// The frame with the result `value` in a0.
pub open spec fn returned(f: TrapFrame, value: u64) -> TrapFrame {
    TrapFrame { a0: value, ..f }
}

/// The running thread's handoff.
pub open spec fn my_handoff(k: Kernel) -> Handoff {
    Handoff { slot: k.sched.current->0, intena: riscv::sie_on(k.hart.sstatus) }
}

/// What going on with a waiting syscall does.
pub open spec fn proceeded(
    k1: Kernel,
    k2: Kernel,
    f1: TrapFrame,
    f2: TrapFrame,
    pending: Pending,
    act: Action,
) -> bool {
    match pending {
        Pending::Read { ptr, len } => {
            let blocked = len != 0 && k1.console.pending().len() == 0;
            if blocked {
                &&& act == Action::Block(my_handoff(k1), pending)
                &&& f2 == f1
                &&& read_done(k1, k2, ptr, len, Err(my_handoff(k1)))
            } else {
                &&& act is Return
                &&& f2 == returned(f1, f2.a0)
                &&& read_done(k1, k2, ptr, len, Ok(f2.a0))
            }
        },
        Pending::Sleep { target } => {
            &&& k2.vm == k1.vm
            &&& k2.heap == k1.heap
            &&& k2.timer == k1.timer
            &&& k2.programs == k1.programs
            &&& k2.console == k1.console
            &&& k2.fs == k1.fs
            &&& if k1.timer.ticks() < target {
                &&& act == Action::Block(my_handoff(k1), pending)
                &&& f2 == f1
                &&& asleep(k1.sched, k2.sched, timer::TICK_CHAN)
                &&& k2.hart == spinlock::pushed(k1.hart)
            } else {
                &&& act is Return
                &&& f2 == returned(f1, 0)
                &&& k2.sched == k1.sched
                &&& k2.hart == k1.hart
            }
        },
        Pending::Join { pid } => {
            &&& k2.vm == k1.vm
            &&& k2.heap == k1.heap
            &&& k2.timer == k1.timer
            &&& k2.programs == k1.programs
            &&& k2.console == k1.console
            &&& k2.fs == k1.fs
            &&& if proc::unfinished(k1.sched.procs@, pid) {
                &&& act == Action::Block(my_handoff(k1), pending)
                &&& f2 == f1
                &&& asleep(k1.sched, k2.sched, proc::EXIT_CHAN)
                &&& k2.hart == spinlock::pushed(k1.hart)
            } else {
                &&& act is Return
                &&& f2 == returned(f1, 0)
                &&& k2.sched == k1.sched
                &&& k2.hart == proc::section(k1.hart)
            }
        },
    }
}

/// Go on with a syscall that waited, or start to wait.
#[verifier::rlimit(60)]
pub fn proceed(k: &mut Kernel, frame: &mut TrapFrame, pending: Pending) -> (act: Action)
    requires
        old(k).in_user_trap(),
    ensures
        final(k).wf(),
        act is Return ==> final(k).in_user_trap(),
        proceeded(*old(k), *final(k), *old(frame), *final(frame), pending, act),
{
    let ghost k0 = *k;
    proof {
        sync::lemma_section(k.hart);
    }
    match pending {
        Pending::Read { ptr, len } => match sys_read(k, ptr, len) {
            Ok(n) => {
                frame.a0 = n;
                Action::Return
            },
            Err(h) => Action::Block(h, pending),
        },
        Pending::Sleep { target } => match timer::sleep_ticks(
            &k.timer,
            &mut k.sched,
            &mut k.hart,
            target,
        ) {
            None => {
                frame.a0 = 0;
                Action::Return
            },
            Some(h) => {
                proof {
                    uproc::lemma_moved_spaces(
                        k.vm,
                        k0.sched.procs@,
                        k0.sched.current->0 as int,
                        State::Sleeping(timer::TICK_CHAN),
                    );
                }
                Action::Block(h, pending)
            },
        },
        Pending::Join { pid } => match proc::join(&mut k.sched, &mut k.hart, pid) {
            None => {
                frame.a0 = 0;
                Action::Return
            },
            Some(h) => {
                proof {
                    uproc::lemma_moved_spaces(
                        k.vm,
                        k0.sched.procs@,
                        k0.sched.current->0 as int,
                        State::Sleeping(proc::EXIT_CHAN),
                    );
                }
                Action::Block(h, pending)
            },
        },
    }
}

/// What forking does: the parent gets the child's pid and the child is a copy,
/// resuming where the parent called fork; or the kernel is out of pages.
pub open spec fn fork_done(
    k1: Kernel,
    k2: Kernel,
    f1: TrapFrame,
    f2: TrapFrame,
    kstack: u64,
    act: Action,
) -> bool {
    let p = k1.sched.running()->0;
    let need = uvm::clone_pages(k1.vm.mem@, caller_root(k1));
    let pages = k1.vm.kmem.pages();
    let t = pages[0];
    &&& k2.heap == k1.heap
    &&& k2.timer == k1.timer
    &&& k2.programs == k1.programs
    &&& k2.console == k1.console
    &&& k2.fs == k1.fs
    &&& sync::calm(k1.hart, k2.hart)
    &&& if need > pages.len() {
        &&& act is OutOfPages
        &&& f2 == f1
        &&& k2.vm == k1.vm
        &&& k2.sched == k1.sched
    } else {
        &&& act is Return
        &&& f2 == returned(f1, k1.sched.next_pid)
        &&& proc::grew(k1.sched, k2.sched)
        &&& proc::fresh_user(
            proc::at(k2.sched.procs@, proc::new_slot(k1.sched.procs@))->0,
            k1.sched.next_pid,
            "u-fork-child",
            Entry::Forked,
            kstack,
            uproc::child_space(p, t as u64, f1),
            k1.sched.trampoline,
        )
        &&& forall|vp: int|
            uvm::user_page(vp) ==> #[trigger] uvm::cloned(
                k1.vm.mem@,
                caller_root(k1),
                k2.vm.mem@,
                t,
                vp,
            )
        &&& forall|q: int| #[trigger]
            uvm::owns(k2.vm.mem@, t, q) <==> pages.contains(q) && !k2.vm.kmem.pages().contains(q)
        &&& forall|q: int| #[trigger] k2.vm.kmem.pages().contains(q) ==> pages.contains(q)
        &&& k2.vm.image == k1.vm.image
        &&& k2.vm.root == k1.vm.root
        &&& k2.vm.kmem.pages().len() + need == pages.len()
        &&& forall|a: int|
            !pages.contains(sv39::page_of(a)) ==> #[trigger] k2.vm.mem@[a] == k1.vm.mem@[a]
    }
}

fn sys_fork(k: &mut Kernel, frame: &mut TrapFrame, kstack: u64) -> (act: Action)
    requires
        old(k).in_user_trap(),
        old(k).sched.next_pid < u64::MAX,
        kstack + KSTACK_SIZE <= u64::MAX,
    ensures
        final(k).wf(),
        act is Return ==> final(k).in_user_trap(),
        fork_done(*old(k), *final(k), *old(frame), *final(frame), kstack, act),
{
    let ghost k0 = *k;
    proof {
        lemma_running(*k);
        uproc::lemma_table(k.vm, k.sched.procs@, k.sched.current->0 as int);
        sync::lemma_section(k.hart);
    }
    let root: u64 = proc::current_root(&k.sched, &mut k.hart, k.vm.root);
    let need: u64 = uvm::clone_cost(&k.vm, root);
    if need > kalloc::free_pages(&k.vm.kmem, &k.vm.mem) {
        return Action::OutOfPages;
    }
    let pid: u64 = uproc::fork(&mut k.sched, &mut k.hart, &mut k.vm, frame, kstack);
    frame.a0 = pid;
    proof {
        lemma_grown_running(k0.sched, k.sched);
        kalloc::lemma_pages(k0.vm.kmem, k0.vm.mem@);
        kernel::lemma_heap_keep(k0.heap, k0.vm, k.vm);
    }
    Action::Return
}

/// A new thread does not disturb the running one.
proof fn lemma_grown_running(s1: Scheduler, s2: Scheduler)
    requires
        s1.wf(),
        s1.running() is Some,
        proc::grew(s1, s2),
    ensures
        s2.running() == s1.running(),
{
    let c = s1.current->0 as int;
    let n = proc::new_slot(s1.procs@);
    proc::lemma_first_free(s1.procs@, 0);
    assert(c != n);
}

/// What replacing the program by the one named by the text at `ptr` does: the
/// process runs the new program in a fresh address space and its old pages are
/// free; or it goes on as before, with [`ERR`], because there is no such
/// program; or the kernel is out of pages.
pub open spec fn exec_done(
    k1: Kernel,
    k2: Kernel,
    f1: TrapFrame,
    f2: TrapFrame,
    ptr: u64,
    len: u64,
    act: Action,
) -> bool {
    let p = k1.sched.running()->0;
    let text = user_text(k1, ptr, len, PATH_MAX);
    let i = kernel::find_program(k1.programs@, text->0, 0);
    let prog = k1.programs@[i];
    let pages = k1.vm.kmem.pages();
    let t = pages[0];
    let old_t = caller_root(k1);
    &&& k2.heap == k1.heap
    &&& k2.timer == k1.timer
    &&& k2.programs == k1.programs
    &&& k2.console == k1.console
    &&& k2.fs.files() == k1.fs.files()
    &&& if len == 0 || text is None || i >= k1.programs@.len() {
        &&& act is Return
        &&& f2 == returned(f1, ERR)
        &&& kept(k1, k2)
    } else if loader::image_pages(prog.len as int) > pages.len() {
        &&& act is OutOfPages
        &&& f2 == f1
        &&& kept(k1, k2)
    } else {
        &&& act == Action::Enter(UserEntry { sp: uvm::USER_STACK_TOP })
        &&& f2 == f1
        &&& proc::replaced(
            k1.sched,
            k2.sched,
            k1.sched.current->0 as int,
            uproc::after_exec(p, t as u64),
        )
        &&& k2.vm.image == k1.vm.image
        &&& k2.vm.root == k1.vm.root
        &&& loader::loaded(
            k1.vm.mem@,
            k2.vm.mem@,
            t,
            prog.addr as int,
            prog.len as int,
        )
        &&& forall|q: int| #[trigger] uvm::owns(k2.vm.mem@, t, q) ==> pages.contains(q)
        &&& forall|q: int| #[trigger]
            k2.vm.kmem.pages().contains(q) <==> (pages.contains(q) && !uvm::owns(
                k2.vm.mem@,
                t,
                q,
            )) || uvm::owns(k1.vm.mem@, old_t, q)
        &&& forall|a: int|
            !pages.contains(sv39::page_of(a)) && !uvm::owns(
                k1.vm.mem@,
                old_t,
                sv39::page_of(a),
            ) ==> #[trigger] k2.vm.mem@[a] == k1.vm.mem@[a]
        &&& k2.hart == (Hart {
            satp: crate::vm::satp_of(t as u64),
            sepc: uvm::USER_TEXT,
            sscratch: p.kstack_top,
            sstatus: proc::user_sstatus(riscv::without_sie(k1.hart.sstatus)),
            intena: k2.hart.intena,
            ..k1.hart
        })
    }
}

#[verifier::spinoff_prover]
#[verifier::rlimit(60)]
fn sys_exec(k: &mut Kernel, frame: &mut TrapFrame, ptr: u64, len: u64) -> (act: Action)
    requires
        old(k).in_user_trap(),
    ensures
        final(k).wf(),
        exec_done(*old(k), *final(k), *old(frame), *final(frame), ptr, len, act),
{
    let ghost k0 = *k;
    proof {
        lemma_running(*k);
        sync::lemma_calm(k.hart);
    }
    if len == 0 || len > PATH_MAX {
        frame.a0 = ERR;
        return Action::Return;
    }
    let name: String = match read_text(k, ptr, len, PATH_MAX) {
        Some(name) => name,
        None => {
            frame.a0 = ERR;
            return Action::Return;
        },
    };
    let prog: Program = match kernel::program(&k.programs, name.as_str()) {
        Some(prog) => prog,
        None => {
            frame.a0 = ERR;
            return Action::Return;
        },
    };
    proof {
        let i = kernel::find_program(k.programs@, name@, 0);
        kernel::lemma_find_program(k.programs@, name@, 0);
        assert(kernel::program_ok(k.programs@[i], k.vm));
    }
    let need: u64 = loader::image_cost(prog.len);
    if need > kalloc::free_pages(&k.vm.kmem, &k.vm.mem) {
        return Action::OutOfPages;
    }
    let e: UserEntry = uproc::exec(
        &mut k.sched,
        &mut k.hart,
        &mut k.vm,
        prog.addr,
        prog.len,
    );
    proof {
        let t = caller_root(k0);
        assert(uproc::table_at(k0.sched.procs@, k0.sched.current->0 as int) == t);
        uproc::lemma_table(k0.vm, k0.sched.procs@, k0.sched.current->0 as int);
        kalloc::lemma_pages(k0.vm.kmem, k0.vm.mem@);
        assert forall|a: int|
            !kalloc::managed(k0.vm.start(), sv39::page_of(a)) implies #[trigger] k.vm.mem@[a]
            == k0.vm.mem@[a] by {
            if uvm::owns(k0.vm.mem@, t, sv39::page_of(a)) {
                uvm::lemma_owned(
                    k0.vm.mem@,
                    t,
                    k0.vm.root as int,
                    k0.vm.start(),
                    sv39::page_of(a),
                );
            }
        }
        kernel::lemma_heap_keep(k0.heap, k0.vm, k.vm);
    }
    Action::Enter(e)
}

/// What a syscall does: by its number, the result in a0 and the state behind
/// it. The program counter moves past the (always 4-byte) ecall instruction.
pub open spec fn dispatched(
    k1: Kernel,
    k2: Kernel,
    f1: TrapFrame,
    f2: TrapFrame,
    kstack: u64,
    act: Action,
) -> bool {
    let f = TrapFrame { sepc: (f1.sepc + 4) as u64, ..f1 };
    let p = k1.sched.running()->0;
    let c = k1.sched.current->0 as int;
    let root = caller_root(k1);
    if f1.a7 == SYS_WRITE {
        &&& kept(k1, k2)
        &&& match user_text(k1, f1.a0, f1.a1, WRITE_MAX) {
            Some(t) => {
                &&& (act matches Action::Print(s) && s@ == t)
                &&& f2 == returned(f, f1.a1)
            },
            None => {
                &&& act is Return
                &&& f2 == returned(f, ERR)
            },
        }
    } else if f1.a7 == SYS_EXIT {
        &&& act == (Action::Exit { pid: p.pid, code: f1.a0, handoff: my_handoff(k1) })
        &&& f2 == f
        &&& k2.hart == spinlock::pushed(k1.hart)
        &&& k2.vm == k1.vm
        &&& k2.sched.procs@ == proc::woken(
            proc::moved(k1.sched.procs@, c, State::Zombie),
            proc::EXIT_CHAN,
        )
        &&& k2.sched == (Scheduler { procs: k2.sched.procs, ..k1.sched })
        &&& k2.heap == k1.heap
        &&& k2.timer == k1.timer
        &&& k2.programs == k1.programs
        &&& k2.console == k1.console
        &&& k2.fs == k1.fs
    } else if f1.a7 == SYS_YIELD {
        &&& act == Action::Yield(my_handoff(k1))
        &&& f2 == returned(f, 0)
        &&& k2.vm == k1.vm
        &&& k2.sched.procs@ == proc::moved(k1.sched.procs@, c, State::Runnable)
        &&& k2.sched == (Scheduler { procs: k2.sched.procs, ..k1.sched })
        &&& k2.hart == spinlock::pushed(k1.hart)
        &&& k2.heap == k1.heap
        &&& k2.timer == k1.timer
        &&& k2.programs == k1.programs
        &&& k2.console == k1.console
        &&& k2.fs == k1.fs
    } else if f1.a7 == SYS_GETPID {
        &&& kept(k1, k2)
        &&& act is Return
        &&& f2 == returned(f, p.pid)
    } else if f1.a7 == SYS_SLEEP_MS {
        proceeded(
            k1,
            k2,
            f,
            f2,
            Pending::Sleep { target: (k1.timer.ticks() + ticks_of(f1.a0)) as u64 },
            act,
        )
    } else if f1.a7 == SYS_READ {
        proceeded(k1, k2, f, f2, Pending::Read { ptr: f1.a0, len: f1.a1 }, act)
    } else if f1.a7 == SYS_UNAME {
        &&& act is Return
        &&& k2.sched == k1.sched
        &&& quiet(k1, k2)
        &&& copied_out(k1.vm, k2.vm, root, f1.a0, uname_bytes(f1.a1))
        &&& f2 == returned(
            f,
            copy_result(k1.vm, root, f1.a0, uname_bytes(f1.a1).len() as int),
        )
    } else if f1.a7 == SYS_OPEN {
        &&& act is Return
        &&& f2 == returned(f, f2.a0)
        &&& open_done(k1, k2, f1.a0, f1.a1, f2.a0)
    } else if f1.a7 == SYS_FREAD {
        &&& act is Return
        &&& f2 == returned(f, f2.a0)
        &&& fread_done(k1, k2, f1.a0, f1.a1, f1.a2, f2.a0)
    } else if f1.a7 == SYS_CLOSE {
        &&& act is Return
        &&& k2.vm == k1.vm
        &&& quiet(k1, k2)
        &&& if proc::fd_entry(p, f1.a0) is Some {
            &&& f2 == returned(f, 0)
            &&& k2.sched.running() is Some
            &&& proc::fd_set(p, k2.sched.running()->0, f1.a0 as int, None)
            &&& proc::replaced(k1.sched, k2.sched, c, k2.sched.running()->0)
        } else {
            &&& f2 == returned(f, ERR)
            &&& k2.sched == k1.sched
        }
    } else if f1.a7 == SYS_SBRK {
        &&& act is Return
        &&& k2.vm == k1.vm
        &&& quiet(k1, k2)
        &&& if p.heap_brk + f1.a0 <= uvm::USER_HEAP_MAX {
            &&& f2 == returned(f, p.heap_brk)
            &&& proc::replaced(
                k1.sched,
                k2.sched,
                c,
                Process { heap_brk: (p.heap_brk + f1.a0) as u64, ..p },
            )
        } else {
            &&& f2 == returned(f, ERR)
            &&& k2.sched == k1.sched
        }
    } else if f1.a7 == SYS_FORK {
        fork_done(k1, k2, f, f2, kstack, act)
    } else if f1.a7 == SYS_WAIT {
        proceeded(k1, k2, f, f2, Pending::Join { pid: f1.a0 }, act)
    } else if f1.a7 == SYS_EXEC {
        exec_done(k1, k2, f, f2, f1.a0, f1.a1, act)
    } else {
        &&& kept(k1, k2)
        &&& act == (Action::Unknown { pid: p.pid, number: f1.a7 })
        &&& f2 == returned(f, ERR)
    }
}

/// Handle an ecall from U-mode. The frame's a0 gets the return value, and sepc
/// advances past the (always 4-byte) ecall instruction. `kstack` is the kernel
/// stack a forked child would get.
#[verifier::spinoff_prover]
#[verifier::rlimit(60)]
pub fn dispatch(k: &mut Kernel, frame: &mut TrapFrame, kstack: u64) -> (act: Action)
    requires
        old(k).in_user_trap(),
        old(frame).sepc + 4 <= u64::MAX,
        old(k).timer.ticks() + SLEEP_MAX <= u64::MAX,
        old(k).sched.next_pid < u64::MAX,
        kstack + KSTACK_SIZE <= u64::MAX,
    ensures
        final(k).wf(),
        act is Return || act is Print || act is Unknown ==> final(k).in_user_trap(),
        dispatched(*old(k), *final(k), *old(frame), *final(frame), kstack, act),
{
    let ghost k0 = *k;
    frame.sepc = frame.sepc + 4;
    proof {
        lemma_running(*k);
        sync::lemma_section(k.hart);
    }
    let number: u64 = frame.a7;
    if number == SYS_WRITE {
        let len: u64 = frame.a1;
        match read_text(k, frame.a0, len, WRITE_MAX) {
            Some(text) => {
                frame.a0 = len;
                Action::Print(text)
            },
            None => {
                frame.a0 = ERR;
                Action::Return
            },
        }
    } else if number == SYS_EXIT {
        sys_exit(k, frame.a0)
    } else if number == SYS_YIELD {
        frame.a0 = 0;
        sys_yield(k)
    } else if number == SYS_GETPID {
        frame.a0 = proc::current_pid(&k.sched, &mut k.hart);
        Action::Return
    } else if number == SYS_SLEEP_MS {
        let n: u64 = sleep_ticks_for(frame.a0);
        let target: u64 = timer::sleep_target(&k.timer, n);
        proceed(k, frame, Pending::Sleep { target })
    } else if number == SYS_READ {
        let (ptr, len) = (frame.a0, frame.a1);
        proceed(k, frame, Pending::Read { ptr, len })
    } else if number == SYS_UNAME {
        frame.a0 = sys_uname(k, frame.a0, frame.a1);
        Action::Return
    } else if number == SYS_OPEN {
        frame.a0 = sys_open(k, frame.a0, frame.a1);
        Action::Return
    } else if number == SYS_FREAD {
        frame.a0 = sys_fread(k, frame.a0, frame.a1, frame.a2);
        Action::Return
    } else if number == SYS_CLOSE {
        frame.a0 = sys_close(k, frame.a0);
        Action::Return
    } else if number == SYS_SBRK {
        frame.a0 = sys_sbrk(k, frame.a0);
        Action::Return
    } else if number == SYS_FORK {
        sys_fork(k, frame, kstack)
    } else if number == SYS_WAIT {
        let pid: u64 = frame.a0;
        proceed(k, frame, Pending::Join { pid })
    } else if number == SYS_EXEC {
        let (ptr, len) = (frame.a0, frame.a1);
        sys_exec(k, frame, ptr, len)
    } else {
        let pid: u64 = proc::current_pid(&k.sched, &mut k.hart);
        frame.a0 = ERR;
        Action::Unknown { pid, number }
    }
}

/// End the calling process.
fn sys_exit(k: &mut Kernel, status: u64) -> (act: Action)
    requires
        old(k).in_user_trap(),
    ensures
        final(k).wf(),
        ({
            let s1 = old(k).sched;
            let s2 = final(k).sched;
            let c = s1.current->0;
            &&& act == (Action::Exit {
                pid: s1.running()->0.pid,
                code: status,
                handoff: my_handoff(*old(k)),
            })
            &&& s2.procs@ == proc::woken(
                proc::moved(s1.procs@, c as int, State::Zombie),
                proc::EXIT_CHAN,
            )
            &&& s2 == (Scheduler { procs: s2.procs, ..s1 })
        }),
        final(k).hart == spinlock::pushed(old(k).hart),
        final(k).vm == old(k).vm,
        final(k).heap == old(k).heap,
        final(k).timer == old(k).timer,
        final(k).programs == old(k).programs,
        final(k).console == old(k).console,
        final(k).fs == old(k).fs,
{
    let ghost k0 = *k;
    proof {
        lemma_running(*k);
        sync::lemma_section(k.hart);
    }
    let pid: u64 = proc::current_pid(&k.sched, &mut k.hart);
    let handoff: Handoff = proc::exit(&mut k.sched, &mut k.hart);
    proof {
        let c = k0.sched.current->0 as int;
        let gone = proc::moved(k0.sched.procs@, c, State::Zombie);
        uproc::lemma_moved_spaces(k.vm, k0.sched.procs@, c, State::Zombie);
        uproc::lemma_woken_spaces(k.vm, gone, proc::EXIT_CHAN);
    }
    Action::Exit { pid, code: status, handoff }
}

/// Give up the CPU.
fn sys_yield(k: &mut Kernel) -> (act: Action)
    requires
        old(k).in_user_trap(),
    ensures
        final(k).wf(),
        act == Action::Yield(my_handoff(*old(k))),
        final(k).sched.procs@ == proc::moved(
            old(k).sched.procs@,
            old(k).sched.current->0 as int,
            State::Runnable,
        ),
        final(k).sched == (Scheduler { procs: final(k).sched.procs, ..old(k).sched }),
        final(k).hart == spinlock::pushed(old(k).hart),
        final(k).vm == old(k).vm,
        final(k).heap == old(k).heap,
        final(k).timer == old(k).timer,
        final(k).programs == old(k).programs,
        final(k).console == old(k).console,
        final(k).fs == old(k).fs,
{
    let ghost k0 = *k;
    proof {
        lemma_running(*k);
    }
    let h: Handoff = proc::yield_now(&mut k.sched, &mut k.hart).unwrap();
    proof {
        uproc::lemma_moved_spaces(
            k.vm,
            k0.sched.procs@,
            k0.sched.current->0 as int,
            State::Runnable,
        );
    }
    Action::Yield(h)
}

/// Close a descriptor: 0, or [`ERR`] if it was not open.
fn sys_close(k: &mut Kernel, fd: u64) -> (r: u64)
    requires
        old(k).in_user_trap(),
    ensures
        final(k).in_user_trap(),
        final(k).vm == old(k).vm,
        quiet(*old(k), *final(k)),
        if proc::fd_entry(old(k).sched.running()->0, fd) is Some {
            &&& r == 0
            &&& final(k).sched.running() is Some
            &&& proc::fd_set(
                old(k).sched.running()->0,
                final(k).sched.running()->0,
                fd as int,
                None,
            )
            &&& proc::replaced(
                old(k).sched,
                final(k).sched,
                old(k).sched.current->0 as int,
                final(k).sched.running()->0,
            )
        } else {
            &&& r == ERR
            &&& final(k).sched == old(k).sched
        },
{
    let ghost k0 = *k;
    proof {
        lemma_running(*k);
        sync::lemma_section(k.hart);
    }
    if proc::fd_close(&mut k.sched, &mut k.hart, fd) {
        proof {
            lemma_replaced(k0, k.sched, k.sched.running()->0);
        }
        0
    } else {
        ERR
    }
}

/// Grow the heap: the old break, or [`ERR`].
fn sys_sbrk(k: &mut Kernel, delta: u64) -> (r: u64)
    requires
        old(k).in_user_trap(),
    ensures
        final(k).in_user_trap(),
        final(k).vm == old(k).vm,
        quiet(*old(k), *final(k)),
        ({
            let p = old(k).sched.running()->0;
            if p.heap_brk + delta <= uvm::USER_HEAP_MAX {
                &&& r == p.heap_brk
                &&& proc::replaced(
                    old(k).sched,
                    final(k).sched,
                    old(k).sched.current->0 as int,
                    Process { heap_brk: (p.heap_brk + delta) as u64, ..p },
                )
            } else {
                &&& r == ERR
                &&& final(k).sched == old(k).sched
            }
        }),
{
    let ghost k0 = *k;
    proof {
        lemma_running(*k);
        sync::lemma_section(k.hart);
    }
    let brk: u64 = proc::sbrk(&mut k.sched, &mut k.hart, delta);
    proof {
        let p = k0.sched.running()->0;
        if p.heap_brk + delta <= uvm::USER_HEAP_MAX {
            let q = Process { heap_brk: (p.heap_brk + delta) as u64, ..p };
            lemma_replaced(k0, k.sched, q);
        }
    }
    brk
}

/// A sleep is never shorter than asked for, and less than a tick longer (a tick
/// at least), unless the request is too long to count.
pub proof fn lemma_sleep_long_enough(ms: u64)
    requires
        ms * 100 <= u64::MAX,
    ensures
        ticks_of(ms) * 10 >= ms,
        ms > 0 ==> (ticks_of(ms) - 1) * 10 < ms,
{
}

} // verus!
