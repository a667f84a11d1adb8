//! An interactive kernel shell on the serial console.
//!
//! Runs as an ordinary kernel thread; blocks on console input (sleeping, not
//! spinning) and pokes at the rest of the kernel for diagnostics.
//!
//! The shell is a state machine. Each step of [`shell_main`] either has
//! something to show or gives up the CPU; the thread performs what the step
//! says and takes the next one.
use vstd::prelude::*;
use vstd::string::{StrSliceExecFns, StringExecFns};

use crate::abi;
use crate::console;
use crate::fs;
use crate::heap;
use crate::kalloc;
use crate::kernel;
use crate::kernel::Kernel;
use crate::memlayout::{DRAM_BASE, HEAP_SIZE, PAGE_SIZE, PHYS_TOP};
use crate::power;
use crate::power::Reset;
use crate::proc;
use crate::proc::{Handoff, State, KSTACK_SIZE};
use crate::spinlock;
use crate::sync;
use crate::syscall;
use crate::text;
use crate::timer;
use crate::uproc;
use crate::user;

verus! {

/// Bytes a line holds at most.
pub const MAX_LINE: usize = 128;

// --- The line editor ---------------------------------------------------------

/// What a byte of input does to the line.
#[derive(Clone, Copy, PartialEq, Eq, Debug, Structural)]
pub enum Key {
    /// The line is complete.
    Done,
    /// The last byte goes.
    Erase,
    /// This byte is added.
    Add(u8),
    /// Nothing.
    Ignore,
}

/// What `byte` does to `line`: a newline completes it, backspace and delete
/// take a byte off it, a printable byte goes behind it while there is room.
pub open spec fn key_of(line: Seq<u8>, byte: u8) -> Key {
    if byte == 10 {
        Key::Done
    } else if byte == 0x7f || byte == 0x08 {
        if line.len() > 0 {
            Key::Erase
        } else {
            Key::Ignore
        }
    } else if 0x20 <= byte <= 0x7e && line.len() < MAX_LINE {
        Key::Add(byte)
    } else {
        Key::Ignore
    }
}

/// The line after `key`.
pub open spec fn edited(line: Seq<u8>, key: Key) -> Seq<u8> {
    match key {
        Key::Erase => line.drop_last(),
        Key::Add(b) => line.push(b),
        _ => line,
    }
}

/// What the terminal is sent for `key`: backspace, blank, backspace takes a
/// character off the screen.
pub open spec fn echoed(key: Key) -> Seq<u8> {
    match key {
        Key::Done => seq![10u8],
        Key::Erase => seq![8u8, 32u8, 8u8],
        Key::Add(b) => seq![b],
        Key::Ignore => Seq::empty(),
    }
}

/// A line is printable ASCII of bounded length.
pub open spec fn line_ok(line: Seq<u8>) -> bool {
    &&& line.len() <= MAX_LINE
    &&& forall|i: int| 0 <= i < line.len() ==> 0x20 <= #[trigger] line[i] <= 0x7e
}

/// The line that `bytes` of input leave behind, starting from an empty one.
pub open spec fn typed(bytes: Seq<u8>) -> Seq<u8>
    decreases bytes.len(),
{
    if bytes.len() == 0 {
        Seq::empty()
    } else {
        let line = typed(bytes.drop_last());
        edited(line, key_of(line, bytes.last()))
    }
}

/// Whatever is typed, the line is printable and fits.
pub proof fn lemma_typed_ok(bytes: Seq<u8>)
    ensures
        line_ok(typed(bytes)),
    decreases bytes.len(),
{
    if bytes.len() > 0 {
        lemma_typed_ok(bytes.drop_last());
    }
}

/// A line typed without corrections is what was typed.
pub proof fn lemma_typed_plain(bytes: Seq<u8>)
    requires
        line_ok(bytes),
    ensures
        typed(bytes) == bytes,
    decreases bytes.len(),
{
    if bytes.len() > 0 {
        assert(line_ok(bytes.drop_last())) by {
            assert forall|i: int| 0 <= i < bytes.len() - 1 implies 0x20
                <= #[trigger] bytes.drop_last()[i] <= 0x7e by {
                assert(bytes.drop_last()[i] == bytes[i]);
            }
        }
        lemma_typed_plain(bytes.drop_last());
        assert(0x20 <= bytes[bytes.len() - 1] <= 0x7e);
        assert(bytes.drop_last().push(bytes.last()) =~= bytes);
    }
}

/// A backspace takes back the character typed before it.
pub proof fn lemma_typed_erase(bytes: Seq<u8>, b: u8, erase: u8)
    requires
        0x20 <= b <= 0x7e,
        erase == 0x7f || erase == 0x08,
        typed(bytes).len() < MAX_LINE,
    ensures
        typed(bytes.push(b).push(erase)) == typed(bytes),
{
    assert(bytes.push(b).push(erase).drop_last() =~= bytes.push(b));
    assert(bytes.push(b).drop_last() =~= bytes);
    assert(typed(bytes.push(b)) == typed(bytes).push(b));
    assert(bytes.push(b).push(erase).last() == erase);
    assert(typed(bytes).push(b).drop_last() =~= typed(bytes));
}

/// Apply one byte of input to the line.
pub fn edit(line: &mut Vec<u8>, byte: u8) -> (key: Key)
    ensures
        key == key_of(old(line)@, byte),
        final(line)@ == edited(old(line)@, key),
{
    if byte == 10 {
        Key::Done
    } else if byte == 0x7f || byte == 0x08 {
        match line.pop() {
            Some(_) => Key::Erase,
            None => Key::Ignore,
        }
    } else if 0x20 <= byte && byte <= 0x7e && line.len() < MAX_LINE {
        line.push(byte);
        Key::Add(byte)
    } else {
        Key::Ignore
    }
}

/// What to send to the terminal for `key`.
pub fn echo(key: Key) -> (out: Vec<u8>)
    ensures
        out@ == echoed(key),
{
    let mut out: Vec<u8> = Vec::new();
    match key {
        Key::Done => {
            out.push(10);
        },
        Key::Erase => {
            out.push(8);
            out.push(32);
            out.push(8);
        },
        Key::Add(b) => {
            out.push(b);
        },
        Key::Ignore => {},
    }
    assert(out@ =~= echoed(key));
    out
}

// --- Commands ----------------------------------------------------------------

/// Does Unicode count `c` as white space?
pub open spec fn white(c: char) -> bool {
    let n = c as u32;
    ||| 0x09 <= n <= 0x0d
    ||| n == 0x20
    ||| n == 0x85
    ||| n == 0xa0
    ||| n == 0x1680
    ||| 0x2000 <= n <= 0x200a
    ||| n == 0x2028
    ||| n == 0x2029
    ||| n == 0x202f
    ||| n == 0x205f
    ||| n == 0x3000
}

/// Is `c` white space?
fn is_whitespace(c: char) -> (w: bool)
    ensures
        w == white(c),
{
    let n: u32 = c as u32;
    (0x09 <= n && n <= 0x0d) || n == 0x20 || n == 0x85 || n == 0xa0 || n == 0x1680 || (0x2000 <= n
        && n <= 0x200a) || n == 0x2028 || n == 0x2029 || n == 0x202f || n == 0x205f || n == 0x3000
}

/// The position of the first white space of `s` from `i` on; its length if
/// there is none.
pub open spec fn first_white(s: Seq<char>, i: int) -> int
    decreases s.len() - i,
{
    if i >= s.len() {
        s.len() as int
    } else if white(s[i]) {
        i
    } else {
        first_white(s, i + 1)
    }
}

/// The position of the first character of `s` from `i` on that is no white
/// space; its length if there is none.
pub open spec fn first_ink(s: Seq<char>, i: int) -> int
    decreases s.len() - i,
{
    if i >= s.len() {
        s.len() as int
    } else if !white(s[i]) {
        i
    } else {
        first_ink(s, i + 1)
    }
}

/// One past the last character of `s` before `n` that is no white space; 0 if
/// there is none.
pub open spec fn ink_end(s: Seq<char>, n: int) -> int
    decreases n,
{
    if n <= 0 {
        0
    } else if !white(s[n - 1]) {
        n
    } else {
        ink_end(s, n - 1)
    }
}

/// `s` without the white space at its ends.
pub open spec fn trimmed(s: Seq<char>) -> Seq<char> {
    let from = first_ink(s, 0);
    let to = ink_end(s, s.len() as int);
    if from < to {
        s.subrange(from, to)
    } else {
        Seq::empty()
    }
}

/// The first word of `line`.
pub open spec fn word(line: Seq<char>) -> Seq<char> {
    line.take(first_white(line, 0))
}

/// What follows the first word of `line`.
pub open spec fn argument(line: Seq<char>) -> Seq<char> {
    let i = first_white(line, 0);
    if i < line.len() {
        trimmed(line.skip(i + 1))
    } else {
        Seq::empty()
    }
}

/// `s` without the white space at its ends.
fn trim(s: &str) -> (t: String)
    ensures
        t@ == trimmed(s@),
{
    let n: usize = s.unicode_len();
    let mut from: usize = 0;
    while from < n && is_whitespace(s.get_char(from))
        invariant
            from <= n,
            n == s@.len(),
            first_ink(s@, 0) == first_ink(s@, from as int),
        decreases n - from,
    {
        from = from + 1;
    }
    let mut to: usize = n;
    while to > 0 && is_whitespace(s.get_char(to - 1))
        invariant
            to <= n,
            n == s@.len(),
            ink_end(s@, n as int) == ink_end(s@, to as int),
        decreases to,
    {
        to = to - 1;
    }
    if from < to {
        s.substring_char(from, to).to_owned()
    } else {
        let t: String = String::new();
        assert(t@ =~= Seq::<char>::empty());
        t
    }
}

/// A command.
pub enum Command {
    Nothing,
    Help,
    Ls,
    Cat(String),
    Ps,
    Mem,
    Uptime,
    Greet,
    Fault,
    Echoline,
    Uname,
    Poweroff,
    Reboot,
    Unknown(String),
}

/// The line `line` is the command `c`.
pub open spec fn means(line: Seq<char>, c: Command) -> bool {
    let w = word(line);
    if w.len() == 0 {
        c is Nothing
    } else if w == "help"@ {
        c is Help
    } else if w == "ls"@ {
        c is Ls
    } else if w == "cat"@ {
        c matches Command::Cat(name) && name@ == argument(line)
    } else if w == "ps"@ {
        c is Ps
    } else if w == "mem"@ {
        c is Mem
    } else if w == "uptime"@ {
        c is Uptime
    } else if w == "greet"@ {
        c is Greet
    } else if w == "fault"@ {
        c is Fault
    } else if w == "echoline"@ {
        c is Echoline
    } else if w == "uname"@ {
        c is Uname
    } else if w == "poweroff"@ {
        c is Poweroff
    } else if w == "reboot"@ {
        c is Reboot
    } else {
        c matches Command::Unknown(other) && other@ == w
    }
}

/// Split off the first whitespace-delimited word as the command; the remainder
/// (trimmed) is the argument.
#[verifier::rlimit(60)]
pub fn parse(line: &str) -> (c: Command)
    ensures
        means(line@, c),
{
    let n: usize = line.unicode_len();
    let mut i: usize = 0;
    while i < n && !is_whitespace(line.get_char(i))
        invariant
            i <= n,
            n == line@.len(),
            first_white(line@, 0) == first_white(line@, i as int),
        decreases n - i,
    {
        i = i + 1;
    }
    let cmd: &str = line.substring_char(0, i);
    assert(cmd@ =~= word(line@));
    if i == 0 {
        return Command::Nothing;
    }
    if text::same(cmd, "help") {
        Command::Help
    } else if text::same(cmd, "ls") {
        Command::Ls
    } else if text::same(cmd, "cat") {
        let arg: String = if i < n {
            let rest: &str = line.substring_char(i + 1, n);
            assert(rest@ =~= line@.skip(i + 1));
            trim(rest)
        } else {
            String::new()
        };
        assert(arg@ =~= argument(line@));
        Command::Cat(arg)
    } else if text::same(cmd, "ps") {
        Command::Ps
    } else if text::same(cmd, "mem") {
        Command::Mem
    } else if text::same(cmd, "uptime") {
        Command::Uptime
    } else if text::same(cmd, "greet") {
        Command::Greet
    } else if text::same(cmd, "fault") {
        Command::Fault
    } else if text::same(cmd, "echoline") {
        Command::Echoline
    } else if text::same(cmd, "uname") {
        Command::Uname
    } else if text::same(cmd, "poweroff") {
        Command::Poweroff
    } else if text::same(cmd, "reboot") {
        Command::Reboot
    } else {
        Command::Unknown(cmd.to_owned())
    }
}

// --- Replies -----------------------------------------------------------------

/// What a command has to say.
pub enum Reply {
    /// Nothing.
    Nothing,
    /// The list of commands.
    Help,
    /// Name and size of every file.
    Files(Vec<(String, usize)>),
    /// Contents of a file.
    Text(String),
    /// `cat` wants a file name.
    CatUsage,
    /// There is no such file.
    NoFile(String),
    /// Pid, name and state of every process.
    Processes(Vec<(u64, &'static str, State)>),
    /// Memory statistics.
    Memory { free_pages: u64, free_mib: u64, dram_mib: u64, heap_free_kib: u64, heap_kib: u64 },
    /// Time since boot.
    Uptime { secs: u64, millis: u64, ticks: u64, hz: u64 },
    /// A user program was started.
    Spawned(u64),
    /// A user program was started, and owns the console until it is done.
    Joining(u64),
    /// The machine is to stop.
    Power(Reset),
    /// There is no such command.
    Unknown(String),
    /// There is no such program.
    NoProgram,
    /// The kernel is out of pages.
    OutOfPages,
}

/// Bytes `cat` reads at a time.
pub const CAT_CHUNK: usize = 64;

/// The text of `data` from `offset` on, read in chunks; a chunk that is no text
/// shows as a question mark.
pub open spec fn rendered(data: Seq<u8>, offset: int) -> Seq<char>
    decreases data.len() - offset,
{
    if offset < 0 || offset >= data.len() {
        Seq::empty()
    } else {
        let n = fs::read_len(data, offset, CAT_CHUNK as int);
        let chunk = data.subrange(offset, offset + n);
        (if vstd::utf8::valid_utf8(chunk) {
            vstd::utf8::decode_utf8(chunk)
        } else {
            "?"@
        }) + rendered(data, offset + n)
    }
}

/// The reply to `cat name`.
pub open spec fn cat_reply(
    files: Seq<(Seq<char>, Seq<u8>)>,
    name: Seq<char>,
    r: Reply,
) -> bool {
    let i = fs::find(files, name, 0);
    if name.len() == 0 {
        r is CatUsage
    } else if i < files.len() {
        r matches Reply::Text(t) && t@ == rendered(files[i].1, 0)
    } else {
        r matches Reply::NoFile(n) && n@ == name
    }
}

/// Print a ramfs file, reading it in chunks through the same offset-based read
/// path the file syscalls use.
#[verifier::rlimit(60)]
fn cat(k: &mut Kernel, name: &str) -> (r: Reply)
    requires
        old(k).wf(),
        old(k).hart.noff < u64::MAX,
    ensures
        final(k).wf(),
        syscall::kept(*old(k), *final(k)),
        cat_reply(old(k).fs.files(), name@, r),
{
    proof {
        sync::lemma_calm(k.hart);
        sync::lemma_section(k.hart);
    }
    if name.unicode_len() == 0 {
        return Reply::CatUsage;
    }
    let ghost k0 = *k;
    match fs::lookup(&mut k.fs, &mut k.hart, name) {
        None => Reply::NoFile(name.to_owned()),
        Some(idx) => {
            proof {
                lemma_find(k0.fs.files(), name@, 0);
            }
            let ghost data = k0.fs.files()[idx as int].1;
            let mut out: String = String::new();
            let mut offset: usize = 0;
            assert(out@ + rendered(data, 0) =~= rendered(data, 0));
            loop
                invariant
                    k.wf(),
                    k0.hart.noff < u64::MAX,
                    syscall::kept(k0, *k),
                    idx < k0.fs.files().len(),
                    data == k0.fs.files()[idx as int].1,
                    offset <= data.len(),
                    out@ + rendered(data, offset as int) == rendered(data, 0),
                ensures
                    k.wf(),
                    syscall::kept(k0, *k),
                    out@ == rendered(data, 0),
                decreases data.len() - offset,
            {
                let mut buf: [u8; 64] = [0; 64];
                let n: usize = read_chunk(k, idx, offset, &mut buf);
                let ghost before = out@;
                if n == 0 {
                    assert(out@ =~= rendered(data, 0));
                    break;
                }
                let chunk: &[u8] = vstd::slice::slice_subrange(&buf, 0, n);
                assert(chunk@ =~= data.subrange(offset as int, offset + n));
                match text::from_utf8(chunk) {
                    Some(t) => {
                        out.append(t.as_str());
                    },
                    None => {
                        out.append("?");
                    },
                }
                assert(out@ + rendered(data, offset + n) =~= before + rendered(
                    data,
                    offset as int,
                ));
                offset = offset + n;
            }
            Reply::Text(out)
        },
    }
}

/// A file that is found is in the table.
proof fn lemma_find(files: Seq<(Seq<char>, Seq<u8>)>, name: Seq<char>, i: int)
    requires
        0 <= i <= files.len(),
    ensures
        i <= fs::find(files, name, i) <= files.len(),
    decreases files.len() - i,
{
    if i < files.len() && files[i].0 != name {
        lemma_find(files, name, i + 1);
    }
}

/// Read one chunk of file `idx`.
fn read_chunk(k: &mut Kernel, idx: usize, offset: usize, buf: &mut [u8; 64]) -> (n: usize)
    requires
        old(k).wf(),
        old(k).hart.noff < u64::MAX,
        idx < old(k).fs.files().len(),
    ensures
        final(k).wf(),
        syscall::kept(*old(k), *final(k)),
        ({
            let data = old(k).fs.files()[idx as int].1;
            &&& n == fs::read_len(data, offset as int, 64)
            &&& n <= 64
            &&& n > 0 ==> final(buf)@.take(n as int) == data.subrange(offset as int, offset + n)
        }),
        offset + n <= usize::MAX,
{
    proof {
        sync::lemma_section(k.hart);
    }
    let ghost data = k.fs.files()[idx as int].1;
    let n: usize = fs::read_at(&mut k.fs, &mut k.hart, idx, offset, buf);
    if n > 0 {
        assert(buf@.take(n as int) =~= data.subrange(offset as int, offset + n));
    }
    n
}

/// The program named `program` was started under the name `name` or could not
/// be: `pid` is the new process.
pub open spec fn launched(
    k1: Kernel,
    k2: Kernel,
    name: &'static str,
    program: &str,
    kstack: u64,
    r: Result<u64, Reply>,
) -> bool {
    let i = kernel::find_program(k1.programs@, program@, 0);
    if i < k1.programs@.len() {
        match r {
            Ok(pid) => user::started(k1, k2, name, k1.programs@[i], kstack, Some(pid)),
            Err(reply) => reply is OutOfPages && user::started(
                k1,
                k2,
                name,
                k1.programs@[i],
                kstack,
                None,
            ),
        }
    } else {
        &&& r matches Err(reply) && reply is NoProgram
        &&& syscall::kept(k1, k2)
    }
}

/// Start the program named `program` under the name `name`.
fn launch(k: &mut Kernel, name: &'static str, program: &str, kstack: u64) -> (r: Result<
    u64,
    Reply,
>)
    requires
        old(k).wf(),
        old(k).hart.noff < u64::MAX,
        old(k).sched.next_pid < u64::MAX,
        kstack + KSTACK_SIZE <= u64::MAX,
    ensures
        final(k).wf(),
        launched(*old(k), *final(k), name, program, kstack, r),
{
    proof {
        sync::lemma_calm(k.hart);
        kernel::lemma_find_program(k.programs@, program@, 0);
    }
    match kernel::program(&k.programs, program) {
        Some(p) => match user::start(k, name, &p, kstack) {
            Some(pid) => Ok(pid),
            None => Err(Reply::OutOfPages),
        },
        None => Err(Reply::NoProgram),
    }
}

/// The kernel `k2` and the reply `r` are what the command `c` makes of the
/// kernel `k1`.
pub open spec fn obeyed(
    k1: Kernel,
    k2: Kernel,
    c: Command,
    time: u64,
    kstack: u64,
    r: Reply,
) -> bool {
    match c {
        Command::Nothing => r is Nothing && syscall::kept(k1, k2),
        Command::Help => r is Help && syscall::kept(k1, k2),
        Command::Ls => {
            &&& syscall::kept(k1, k2)
            &&& (r matches Reply::Files(list) && list@.map_values(
                |e: (String, usize)| fs::entry_view(e),
            ) == fs::directory(k1.fs.files()))
        },
        Command::Cat(name) => cat_reply(k1.fs.files(), name@, r) && syscall::kept(k1, k2),
        Command::Ps => {
            &&& syscall::kept(k1, k2)
            &&& (r matches Reply::Processes(list) && list@ == proc::listing(
                k1.sched.procs@,
                k1.sched.procs@.len() as int,
            ))
        },
        Command::Mem => {
            let n = k1.vm.kmem.pages().len() as int;
            &&& syscall::kept(k1, k2)
            &&& r == Reply::Memory {
                free_pages: n as u64,
                free_mib: (n / 256) as u64,
                dram_mib: 128,
                heap_free_kib: (heap::total(k1.heap.blocks()) / 1024) as u64,
                heap_kib: 8192,
            }
        },
        Command::Uptime => {
            let ms = time / 10_000;
            &&& syscall::kept(k1, k2)
            &&& r == Reply::Uptime {
                secs: ms / 1000,
                millis: ms % 1000,
                ticks: k1.timer.ticks(),
                hz: 100,
            }
        },
        Command::Greet => if r is Spawned {
            launched(k1, k2, "u-greeter", "greeter", kstack, Ok(r->Spawned_0))
        } else {
            launched(k1, k2, "u-greeter", "greeter", kstack, Err(r))
        },
        Command::Fault => if r is Spawned {
            launched(k1, k2, "u-trespasser", "trespasser", kstack, Ok(r->Spawned_0))
        } else {
            launched(k1, k2, "u-trespasser", "trespasser", kstack, Err(r))
        },
        Command::Echoline => if r is Joining {
            launched(k1, k2, "u-echoline", "echoline", kstack, Ok(r->Joining_0))
        } else {
            launched(k1, k2, "u-echoline", "echoline", kstack, Err(r))
        },
        Command::Uname => if r is Joining {
            launched(k1, k2, "u-uname", "uname", kstack, Ok(r->Joining_0))
        } else {
            launched(k1, k2, "u-uname", "uname", kstack, Err(r))
        },
        Command::Poweroff => {
            &&& syscall::kept(k1, k2)
            &&& r == Reply::Power(
                Reset { reset_type: crate::sbi::RESET_TYPE_SHUTDOWN, again: false },
            )
        },
        Command::Reboot => {
            &&& syscall::kept(k1, k2)
            &&& r == Reply::Power(
                Reset { reset_type: crate::sbi::RESET_TYPE_COLD_REBOOT, again: true },
            )
        },
        Command::Unknown(w) => {
            &&& syscall::kept(k1, k2)
            &&& (r matches Reply::Unknown(w2) && w2@ == w@)
        },
    }
}

/// Memory statistics.
fn mem_stats(k: &Kernel) -> (r: Reply)
    requires
        k.wf(),
    ensures
        ({
            let n = k.vm.kmem.pages().len() as int;
            r == Reply::Memory {
                free_pages: n as u64,
                free_mib: (n / 256) as u64,
                dram_mib: 128,
                heap_free_kib: (heap::total(k.heap.blocks()) / 1024) as u64,
                heap_kib: 8192,
            }
        }),
{
    let free: u64 = kalloc::free_pages(&k.vm.kmem, &k.vm.mem);
    proof {
        kalloc::lemma_count(k.vm.kmem, k.vm.mem@);
    }
    Reply::Memory {
        free_pages: free,
        free_mib: free * PAGE_SIZE / (1024 * 1024),
        dram_mib: (PHYS_TOP - DRAM_BASE) / (1024 * 1024),
        heap_free_kib: heap::free_bytes(&k.heap, &k.vm.mem) / 1024,
        heap_kib: HEAP_SIZE / 1024,
    }
}

/// Run the command in `line`. `time` is the timebase's reading, and `kstack` the
/// kernel stack that a program the command starts will run on.
pub fn run_command(k: &mut Kernel, line: &str, time: u64, kstack: u64) -> (r: Reply)
    requires
        old(k).wf(),
        old(k).hart.noff < u64::MAX,
        old(k).sched.next_pid < u64::MAX,
        kstack + KSTACK_SIZE <= u64::MAX,
    ensures
        final(k).wf(),
        exists|c: Command| #[trigger]
            means(line@, c) && obeyed(*old(k), *final(k), c, time, kstack, r),
{
    let c: Command = parse(line);
    obey(k, c, time, kstack)
}

/// Run the command `c`.
#[verifier::rlimit(60)]
fn obey(k: &mut Kernel, c: Command, time: u64, kstack: u64) -> (r: Reply)
    requires
        old(k).wf(),
        old(k).hart.noff < u64::MAX,
        old(k).sched.next_pid < u64::MAX,
        kstack + KSTACK_SIZE <= u64::MAX,
    ensures
        final(k).wf(),
        obeyed(*old(k), *final(k), c, time, kstack, r),
{
    proof {
        sync::lemma_calm(k.hart);
        sync::lemma_section(k.hart);
    }
    match c {
        Command::Nothing => Reply::Nothing,
        Command::Help => Reply::Help,
        Command::Ls => Reply::Files(fs::list(&mut k.fs, &mut k.hart)),
        Command::Cat(name) => cat(k, name.as_str()),
        Command::Ps => Reply::Processes(proc::process_list(&k.sched, &mut k.hart)),
        Command::Mem => mem_stats(k),
        Command::Uptime => {
            let ms: u64 = timer::uptime_ms(time);
            Reply::Uptime {
                secs: ms / 1000,
                millis: ms % 1000,
                ticks: timer::ticks(&k.timer),
                hz: timer::TICK_HZ,
            }
        },
        Command::Greet => match launch(k, "u-greeter", "greeter", kstack) {
            Ok(pid) => Reply::Spawned(pid),
            Err(r) => r,
        },
        Command::Fault => match launch(k, "u-trespasser", "trespasser", kstack) {
            Ok(pid) => Reply::Spawned(pid),
            Err(r) => r,
        },
        // The shell joins the child so that it stops reading input while the
        // user program owns the console; otherwise both would race for the
        // same keystrokes.
        Command::Echoline => match launch(k, "u-echoline", "echoline", kstack) {
            Ok(pid) => Reply::Joining(pid),
            Err(r) => r,
        },
        Command::Uname => match launch(k, "u-uname", "uname", kstack) {
            Ok(pid) => Reply::Joining(pid),
            Err(r) => r,
        },
        Command::Poweroff => Reply::Power(power::poweroff()),
        Command::Reboot => Reply::Power(power::reboot()),
        Command::Unknown(w) => Reply::Unknown(w),
    }
}

// --- The shell ---------------------------------------------------------------

/// What the shell is about to do.
#[derive(Clone, Copy, PartialEq, Eq, Debug, Structural)]
pub enum Phase {
    /// Greet the user.
    Start,
    /// Show the prompt.
    Prompt,
    /// Read a line.
    Reading,
    /// Run the line.
    Run,
    /// Wait for this process to finish.
    Joining(u64),
}

/// The shell: the line so far, and what comes next.
pub struct Shell {
    pub line: Vec<u8>,
    pub phase: Phase,
}

/// What one step of the shell asks for.
pub enum Step {
    /// Show the greeting.
    Greet,
    /// Show the prompt.
    Prompt,
    /// Show what this key does.
    Echo(Key),
    /// Show this reply.
    Show(Reply),
    /// Switch to the scheduler; take the next step when the shell runs again.
    Wait(Handoff),
    /// Nothing.
    Ready,
}

impl Shell {
    /// The line is a line.
    pub open spec fn wf(self) -> bool {
        line_ok(self.line@)
    }

    /// A shell that has said nothing yet.
    pub fn new() -> (sh: Shell)
        ensures
            sh.wf(),
            sh.line@ == Seq::<u8>::empty(),
            sh.phase == Phase::Start,
    {
        Shell { line: Vec::new(), phase: Phase::Start }
    }
}

/// The phase after the reply `r`.
pub open spec fn phase_after(r: Reply) -> Phase {
    match r {
        Reply::Joining(pid) => Phase::Joining(pid),
        _ => Phase::Prompt,
    }
}

/// One step of the shell takes `sh1` and the kernel `k1` to `sh2` and `k2`.
pub open spec fn stepped(
    sh1: Shell,
    sh2: Shell,
    k1: Kernel,
    k2: Kernel,
    time: u64,
    kstack: u64,
    step: Step,
) -> bool {
    match sh1.phase {
        Phase::Start => {
            &&& step is Greet
            &&& sh2.phase == Phase::Prompt
            &&& sh2.line@ == sh1.line@
            &&& k2 == k1
        },
        Phase::Prompt => {
            &&& step is Prompt
            &&& sh2.phase == Phase::Reading
            &&& sh2.line@ == Seq::<u8>::empty()
            &&& k2 == k1
        },
        Phase::Reading => {
            let pending = k1.console.pending();
            &&& k2.vm == k1.vm
            &&& k2.heap == k1.heap
            &&& k2.timer == k1.timer
            &&& k2.programs == k1.programs
            &&& k2.fs == k1.fs
            &&& k2.console.chan == k1.console.chan
            &&& if pending.len() > 0 {
                let key = key_of(sh1.line@, pending[0]);
                &&& step == Step::Echo(key)
                &&& sh2.line@ == edited(sh1.line@, key)
                &&& sh2.phase == if key is Done {
                    Phase::Run
                } else {
                    Phase::Reading
                }
                &&& k2.console.pending() == pending.drop_first()
                &&& k2.sched == k1.sched
                &&& sync::calm(k1.hart, k2.hart)
            } else {
                &&& step == Step::Wait(syscall::my_handoff(k1))
                &&& sh2 == sh1
                &&& k2.console.pending() == pending
                &&& syscall::asleep(k1.sched, k2.sched, k1.console.chan)
                &&& k2.hart == spinlock::pushed(k1.hart)
            }
        },
        Phase::Run => {
            &&& sh2.line@ == sh1.line@
            &&& (step matches Step::Show(r) && sh2.phase == phase_after(r) && exists|c: Command|
                #[trigger] means(trimmed(text::ascii_chars(sh1.line@)), c) && obeyed(
                    k1,
                    k2,
                    c,
                    time,
                    kstack,
                    r,
                ))
        },
        Phase::Joining(pid) => {
            &&& sh2.line@ == sh1.line@
            &&& k2.vm == k1.vm
            &&& k2.heap == k1.heap
            &&& k2.timer == k1.timer
            &&& k2.programs == k1.programs
            &&& k2.fs == k1.fs
            &&& k2.console == k1.console
            &&& if proc::unfinished(k1.sched.procs@, pid) {
                &&& step == Step::Wait(syscall::my_handoff(k1))
                &&& sh2.phase == sh1.phase
                &&& syscall::asleep(k1.sched, k2.sched, proc::EXIT_CHAN)
                &&& k2.hart == spinlock::pushed(k1.hart)
            } else {
                &&& step is Ready
                &&& sh2.phase == Phase::Prompt
                &&& k2.sched == k1.sched
                &&& k2.hart == proc::section(k1.hart)
            }
        },
    }
}

/// Read one byte of the line, with echo and backspace editing; the line is
/// complete once the key is [`Key::Done`].
fn read_line(k: &mut Kernel, line: &mut Vec<u8>) -> (got: Result<Key, Handoff>)
    requires
        old(k).wf(),
        old(k).sched.current is Some,
        old(k).hart.noff == 0,
        line_ok(old(line)@),
    ensures
        final(k).wf(),
        line_ok(final(line)@),
        final(k).vm == old(k).vm,
        final(k).heap == old(k).heap,
        final(k).timer == old(k).timer,
        final(k).programs == old(k).programs,
        final(k).fs == old(k).fs,
        final(k).console.chan == old(k).console.chan,
        ({
            let pending = old(k).console.pending();
            if pending.len() > 0 {
                let key = key_of(old(line)@, pending[0]);
                &&& got == Ok::<Key, Handoff>(key)
                &&& final(line)@ == edited(old(line)@, key)
                &&& final(k).console.pending() == pending.drop_first()
                &&& final(k).sched == old(k).sched
                &&& sync::calm(old(k).hart, final(k).hart)
            } else {
                &&& got == Err::<Key, Handoff>(syscall::my_handoff(*old(k)))
                &&& *final(line) == *old(line)
                &&& final(k).console.pending() == pending
                &&& syscall::asleep(old(k).sched, final(k).sched, old(k).console.chan)
                &&& final(k).hart == spinlock::pushed(old(k).hart)
            }
        }),
{
    let ghost k0 = *k;
    proof {
        sync::lemma_section(k.hart);
    }
    match console::getchar_blocking(&mut k.console, &mut k.sched, &mut k.hart) {
        Ok(byte) => Ok(edit(line, byte)),
        Err(h) => {
            proof {
                uproc::lemma_moved_spaces(
                    k0.vm,
                    k0.sched.procs@,
                    k0.sched.current->0 as int,
                    State::Sleeping(k0.console.chan),
                );
            }
            Err(h)
        },
    }
}

/// Take one step.
#[verifier::rlimit(60)]
pub fn shell_main(sh: &mut Shell, k: &mut Kernel, time: u64, kstack: u64) -> (step: Step)
    requires
        old(sh).wf(),
        old(k).wf(),
        old(k).sched.current is Some,
        old(k).hart.noff == 0,
        old(k).sched.next_pid < u64::MAX,
        kstack + KSTACK_SIZE <= u64::MAX,
    ensures
        final(sh).wf(),
        final(k).wf(),
        stepped(*old(sh), *final(sh), *old(k), *final(k), time, kstack, step),
{
    match sh.phase {
        Phase::Start => {
            sh.phase = Phase::Prompt;
            Step::Greet
        },
        Phase::Prompt => {
            sh.line.clear();
            sh.phase = Phase::Reading;
            Step::Prompt
        },
        Phase::Reading => match read_line(k, &mut sh.line) {
            Ok(key) => {
                if let Key::Done = key {
                    sh.phase = Phase::Run;
                }
                Step::Echo(key)
            },
            Err(h) => Step::Wait(h),
        },
        Phase::Run => {
            assert(text::is_ascii(sh.line@));
            let line: String = text::ascii(&sh.line);
            let r: Reply = run_command(k, trim(line.as_str()).as_str(), time, kstack);
            sh.phase =
            match r {
                Reply::Joining(pid) => Phase::Joining(pid),
                _ => Phase::Prompt,
            };
            Step::Show(r)
        },
        Phase::Joining(pid) => {
            let ghost k0 = *k;
            match proc::join(&mut k.sched, &mut k.hart, pid) {
                Some(h) => {
                    proof {
                        uproc::lemma_moved_spaces(
                            k0.vm,
                            k0.sched.procs@,
                            k0.sched.current->0 as int,
                            State::Sleeping(proc::EXIT_CHAN),
                        );
                    }
                    Step::Wait(h)
                },
                None => {
                    sh.phase = Phase::Prompt;
                    Step::Ready
                },
            }
        },
    }
}

// --- What the terminal shows -------------------------------------------------

/// UTF-8 bytes of the text `s`.
pub open spec fn utf8(s: &str) -> Seq<u8> {
    vstd::utf8::encode_utf8(s@)
}

/// The list of commands.
pub open spec fn help_text() -> &'static str {
    "  help      this text\n  ps        list processes\n  mem       memory statistics\n  uptime    time since boot\n  ls        list files in the ramfs\n  cat FILE  print a ramfs file\n  greet     spawn the U-mode greeter program\n  fault     spawn the U-mode trespasser (it will be killed)\n  echoline  run a U-mode program that reads a line and echoes it\n  uname     print the kernel version (via a U-mode program)\n  poweroff  exit QEMU\n  reboot    reset the machine\n"
}

/// The line for a file: its size and its name.
pub open spec fn file_line(name: Seq<char>, size: usize) -> Seq<u8> {
    utf8("  ") + text::right(size as nat, 6) + utf8("  ") + vstd::utf8::encode_utf8(name) + utf8(
        "\n",
    )
}

/// One line per file.
pub open spec fn file_lines(list: Seq<(String, usize)>, n: int) -> Seq<u8>
    decreases n,
{
    if n <= 0 {
        Seq::empty()
    } else {
        file_lines(list, n - 1) + file_line(list[n - 1].0@, list[n - 1].1)
    }
}

/// A state by its name.
pub open spec fn state_bytes(st: State) -> Seq<u8> {
    match st {
        State::Runnable => utf8("Runnable"),
        State::Running => utf8("Running"),
        State::Sleeping(chan) => utf8("Sleeping(") + text::digits(chan as nat) + utf8(")"),
        State::Zombie => utf8("Zombie"),
    }
}

/// The line for a process: its pid, its name and its state.
pub open spec fn process_line(pid: u64, name: &str, state: State) -> Seq<u8> {
    utf8("  ") + text::left(pid as nat, 5) + utf8(" ") + utf8(name) + text::blanks(
        12 - name@.len(),
    ) + utf8(" ") + state_bytes(state) + utf8("\n")
}

/// One line per process.
pub open spec fn process_lines(list: Seq<(u64, &'static str, State)>, n: int) -> Seq<u8>
    decreases n,
{
    if n <= 0 {
        Seq::empty()
    } else {
        let (pid, name, state) = list[n - 1];
        process_lines(list, n - 1) + process_line(pid, name, state)
    }
}

/// `n` in three digits.
pub open spec fn three_digits(n: nat) -> Seq<u8> {
    (if n < 10 {
        utf8("00")
    } else if n < 100 {
        utf8("0")
    } else {
        Seq::<u8>::empty()
    }) + text::digits(n)
}

/// What the terminal shows for `r`.
pub open spec fn reply_bytes(r: Reply) -> Seq<u8> {
    match r {
        Reply::Nothing => Seq::empty(),
        Reply::Help => utf8(help_text()),
        Reply::Files(list) => file_lines(list@, list@.len() as int),
        Reply::Text(t) => vstd::utf8::encode_utf8(t@),
        Reply::CatUsage => utf8("  usage: cat FILE\n"),
        Reply::NoFile(name) => utf8("  cat: no such file '") + vstd::utf8::encode_utf8(name@)
            + utf8("'\n"),
        Reply::Processes(list) => utf8("  PID   NAME         STATE\n") + process_lines(
            list@,
            list@.len() as int,
        ),
        Reply::Memory { free_pages, free_mib, dram_mib, heap_free_kib, heap_kib } => utf8(
            "  phys: ",
        ) + text::digits(free_pages as nat) + utf8(" free pages (") + text::digits(free_mib as nat)
            + utf8(" MiB of ") + text::digits(dram_mib as nat) + utf8(" MiB DRAM)\n  heap: ")
            + text::digits(heap_free_kib as nat) + utf8(" KiB free of ") + text::digits(
            heap_kib as nat,
        ) + utf8(" KiB\n"),
        Reply::Uptime { secs, millis, ticks, hz } => utf8("  up ") + text::digits(secs as nat)
            + utf8(".") + three_digits(millis as nat) + utf8(" s (") + text::digits(ticks as nat)
            + utf8(" ticks at ") + text::digits(hz as nat) + utf8(" Hz)\n"),
        Reply::Spawned(pid) => utf8("  spawned pid ") + text::digits(pid as nat) + utf8("\n"),
        Reply::Joining(_) => Seq::empty(),
        Reply::Power(_) => Seq::empty(),
        Reply::Unknown(cmd) => utf8("  unknown command '") + vstd::utf8::encode_utf8(cmd@)
            + utf8("' -- try 'help'\n"),
        Reply::NoProgram => Seq::empty(),
        Reply::OutOfPages => Seq::empty(),
    }
}

/// The line for a file.
fn file_text(name: &str, size: usize) -> (line: Vec<u8>)
    ensures
        line@ == file_line(name@, size),
{
    let mut line: Vec<u8> = Vec::new();
    text::put_str(&mut line, "  ");
    assert(line@ =~= utf8("  "));
    text::put_right(&mut line, size as u64, 6);
    text::put_str(&mut line, "  ");
    text::put_str(&mut line, name);
    text::put_str(&mut line, "\n");
    line
}

/// Append the lines of `ls`.
fn put_files(out: &mut Vec<u8>, list: &Vec<(String, usize)>)
    ensures
        final(out)@ == old(out)@ + file_lines(list@, list@.len() as int),
{
    let ghost before = out@;
    let mut i: usize = 0;
    assert(out@ =~= before + file_lines(list@, 0));
    while i < list.len()
        invariant
            i <= list@.len(),
            out@ == before + file_lines(list@, i as int),
        decreases list@.len() - i,
    {
        let ghost shown = file_lines(list@, i as int);
        let mut line: Vec<u8> = file_text(list[i].0.as_str(), list[i].1);
        let ghost last = line@;
        out.append(&mut line);
        i = i + 1;
        assert(before + shown + last =~= before + (shown + last));
    }
}

/// Append the name of a state.
fn put_state(out: &mut Vec<u8>, st: State)
    ensures
        final(out)@ == old(out)@ + state_bytes(st),
{
    match st {
        State::Runnable => text::put_str(out, "Runnable"),
        State::Running => text::put_str(out, "Running"),
        State::Sleeping(chan) => {
            text::put_str(out, "Sleeping(");
            text::put_digits(out, chan);
            text::put_str(out, ")");
            assert(out@ =~= old(out)@ + state_bytes(st));
        },
        State::Zombie => text::put_str(out, "Zombie"),
    }
}

/// The line for a process.
fn process_text(pid: u64, name: &str, state: State) -> (line: Vec<u8>)
    ensures
        line@ == process_line(pid, name, state),
{
    let len: usize = name.unicode_len();
    let mut line: Vec<u8> = Vec::new();
    text::put_str(&mut line, "  ");
    assert(line@ =~= utf8("  "));
    text::put_left(&mut line, pid, 5);
    text::put_str(&mut line, " ");
    text::put_str(&mut line, name);
    if len < 12 {
        text::put_blanks(&mut line, 12 - len);
    } else {
        assert(line@ + text::blanks(12 - name@.len()) =~= line@);
    }
    text::put_str(&mut line, " ");
    put_state(&mut line, state);
    text::put_str(&mut line, "\n");
    line
}

/// Append the lines of `ps`.
fn put_processes(out: &mut Vec<u8>, list: &Vec<(u64, &'static str, State)>)
    ensures
        final(out)@ == old(out)@ + process_lines(list@, list@.len() as int),
{
    let ghost before = out@;
    let mut i: usize = 0;
    assert(out@ =~= before + process_lines(list@, 0));
    while i < list.len()
        invariant
            i <= list@.len(),
            out@ == before + process_lines(list@, i as int),
        decreases list@.len() - i,
    {
        let ghost shown = process_lines(list@, i as int);
        let mut line: Vec<u8> = process_text(list[i].0, list[i].1, list[i].2);
        let ghost last = line@;
        out.append(&mut line);
        i = i + 1;
        assert(before + shown + last =~= before + (shown + last));
    }
}

/// Append `n` in three digits.
fn put_three_digits(out: &mut Vec<u8>, n: u64)
    ensures
        final(out)@ == old(out)@ + three_digits(n as nat),
{
    if n < 10 {
        text::put_str(out, "00");
    } else if n < 100 {
        text::put_str(out, "0");
    }
    text::put_digits(out, n);
    assert(out@ =~= old(out)@ + three_digits(n as nat));
}

/// What the terminal shows for `r`.
#[verifier::rlimit(40)]
pub fn show(r: &Reply) -> (out: Vec<u8>)
    ensures
        out@ == reply_bytes(*r),
{
    let mut out: Vec<u8> = Vec::new();
    proof {
        assert forall|s: Seq<u8>| #[trigger] (out@ + s) == s by {
            assert(out@ + s =~= s);
        }
    }
    match r {
        Reply::Nothing => {},
        Reply::Help => text::put_str(
            &mut out,
            "  help      this text\n  ps        list processes\n  mem       memory statistics\n  uptime    time since boot\n  ls        list files in the ramfs\n  cat FILE  print a ramfs file\n  greet     spawn the U-mode greeter program\n  fault     spawn the U-mode trespasser (it will be killed)\n  echoline  run a U-mode program that reads a line and echoes it\n  uname     print the kernel version (via a U-mode program)\n  poweroff  exit QEMU\n  reboot    reset the machine\n",
        ),
        Reply::Files(list) => put_files(&mut out, list),
        Reply::Text(t) => text::put_str(&mut out, t.as_str()),
        Reply::CatUsage => text::put_str(&mut out, "  usage: cat FILE\n"),
        Reply::NoFile(name) => {
            text::put_str(&mut out, "  cat: no such file '");
            text::put_str(&mut out, name.as_str());
            text::put_str(&mut out, "'\n");
        },
        Reply::Processes(list) => {
            text::put_str(&mut out, "  PID   NAME         STATE\n");
            put_processes(&mut out, list);
        },
        Reply::Memory { free_pages, free_mib, dram_mib, heap_free_kib, heap_kib } => {
            text::put_str(&mut out, "  phys: ");
            text::put_digits(&mut out, *free_pages);
            text::put_str(&mut out, " free pages (");
            text::put_digits(&mut out, *free_mib);
            text::put_str(&mut out, " MiB of ");
            text::put_digits(&mut out, *dram_mib);
            text::put_str(&mut out, " MiB DRAM)\n  heap: ");
            text::put_digits(&mut out, *heap_free_kib);
            text::put_str(&mut out, " KiB free of ");
            text::put_digits(&mut out, *heap_kib);
            text::put_str(&mut out, " KiB\n");
        },
        Reply::Uptime { secs, millis, ticks, hz } => {
            text::put_str(&mut out, "  up ");
            text::put_digits(&mut out, *secs);
            text::put_str(&mut out, ".");
            put_three_digits(&mut out, *millis);
            text::put_str(&mut out, " s (");
            text::put_digits(&mut out, *ticks);
            text::put_str(&mut out, " ticks at ");
            text::put_digits(&mut out, *hz);
            text::put_str(&mut out, " Hz)\n");
        },
        Reply::Spawned(pid) => {
            text::put_str(&mut out, "  spawned pid ");
            text::put_digits(&mut out, *pid);
            text::put_str(&mut out, "\n");
        },
        Reply::Joining(_) => {},
        Reply::Power(_) => {},
        Reply::Unknown(cmd) => {
            text::put_str(&mut out, "  unknown command '");
            text::put_str(&mut out, cmd.as_str());
            text::put_str(&mut out, "' -- try 'help'\n");
        },
        Reply::NoProgram => {},
        Reply::OutOfPages => {},
    }
    out
}

/// What the terminal shows for `step`.
pub open spec fn step_bytes(step: Step) -> Seq<u8> {
    match step {
        Step::Greet => utf8("\nosmium shell -- 'help' lists commands\n"),
        Step::Prompt => utf8("osmium> "),
        Step::Echo(key) => echoed(key),
        Step::Show(r) => reply_bytes(r),
        Step::Wait(_) => Seq::empty(),
        Step::Ready => Seq::empty(),
    }
}

/// What the terminal shows for `step`.
pub fn screen(step: &Step) -> (out: Vec<u8>)
    ensures
        out@ == step_bytes(*step),
{
    let mut out: Vec<u8> = Vec::new();
    match step {
        Step::Greet => text::put_str(&mut out, "\nosmium shell -- 'help' lists commands\n"),
        Step::Prompt => text::put_str(&mut out, "osmium> "),
        Step::Echo(key) => {
            out = echo(*key);
        },
        Step::Show(r) => {
            out = show(r);
        },
        Step::Wait(_) => {},
        Step::Ready => {},
    }
    assert(out@ =~= step_bytes(*step));
    out
}

// --- What a user can rely on -------------------------------------------------

/// The first word of a line is all of it up to the first white space.
pub proof fn lemma_word(line: Seq<char>)
    ensures
        word(line).len() <= line.len(),
        word(line) == line.take(word(line).len() as int),
        forall|i: int| 0 <= i < word(line).len() ==> !white(#[trigger] word(line)[i]),
        word(line).len() < line.len() ==> white(line[word(line).len() as int]),
{
    lemma_first_white(line, 0);
}

/// White space is found where it first is.
proof fn lemma_first_white(s: Seq<char>, i: int)
    requires
        0 <= i <= s.len(),
    ensures
        i <= first_white(s, i) <= s.len(),
        forall|j: int| i <= j < first_white(s, i) ==> !white(#[trigger] s[j]),
        first_white(s, i) < s.len() ==> white(s[first_white(s, i)]),
    decreases s.len() - i,
{
    if i < s.len() && !white(s[i]) {
        lemma_first_white(s, i + 1);
    }
}

/// Trimming takes white space off both ends and nothing else.
pub proof fn lemma_trimmed(s: Seq<char>)
    ensures
        trimmed(s).len() > 0 ==> !white(trimmed(s)[0]) && !white(trimmed(s).last()),
        exists|from: int, to: int|
            0 <= from <= to <= s.len() && trimmed(s) == #[trigger] s.subrange(from, to) && (forall|i: int|
                0 <= i < s.len() && !(from <= i < to) ==> white(#[trigger] s[i])),
{
    lemma_first_ink(s, 0);
    lemma_ink_end(s, s.len() as int);
    let from = first_ink(s, 0);
    let to = ink_end(s, s.len() as int);
    if from < to {
        assert(trimmed(s) == s.subrange(from, to));
    } else {
        assert forall|i: int| 0 <= i < s.len() implies white(#[trigger] s[i]) by {}
        assert(trimmed(s) =~= s.subrange(0, 0));
    }
}

/// The first character that is no white space is found where it first is.
proof fn lemma_first_ink(s: Seq<char>, i: int)
    requires
        0 <= i <= s.len(),
    ensures
        i <= first_ink(s, i) <= s.len(),
        forall|j: int| i <= j < first_ink(s, i) ==> white(#[trigger] s[j]),
        first_ink(s, i) < s.len() ==> !white(s[first_ink(s, i)]),
    decreases s.len() - i,
{
    if i < s.len() && white(s[i]) {
        lemma_first_ink(s, i + 1);
    }
}

/// The last character that is no white space is found where it last is.
proof fn lemma_ink_end(s: Seq<char>, n: int)
    requires
        0 <= n <= s.len(),
    ensures
        0 <= ink_end(s, n) <= n,
        forall|j: int| ink_end(s, n) <= j < n ==> white(#[trigger] s[j]),
        ink_end(s, n) > 0 ==> !white(s[ink_end(s, n) - 1]),
    decreases n,
{
    if n > 0 && white(s[n - 1]) {
        lemma_ink_end(s, n - 1);
    }
}

/// A command and what follows it: a word, a blank, and an argument without white space at
/// its ends are taken for that word and that argument.
#[verifier::spinoff_prover]
#[verifier::rlimit(40)]
pub proof fn lemma_word_argument(w: Seq<char>, arg: Seq<char>)
    requires
        forall|i: int| 0 <= i < w.len() ==> !white(#[trigger] w[i]),
        arg.len() > 0 ==> !white(arg[0]) && !white(arg.last()),
    ensures
        word(w) == w,
        argument(w).len() == 0,
        word(w + seq![' '] + arg) == w,
        argument(w + seq![' '] + arg) == arg,
{
    let line = w + seq![' '] + arg;
    lemma_first_white(w, 0);
    lemma_first_white(line, 0);
    if first_white(w, 0) < w.len() {
        assert(white(w[first_white(w, 0)]));
    }
    let i = first_white(line, 0);
    assert(white(line[w.len() as int]));
    if i < w.len() {
        assert(line[i] == w[i]);
    }
    assert(i == w.len());
    assert(word(w) =~= w);
    assert(word(line) =~= w);
    assert(line.skip(i + 1) =~= arg);
    lemma_first_ink(arg, 0);
    lemma_ink_end(arg, arg.len() as int);
    if arg.len() > 0 {
        assert(first_ink(arg, 0) == 0) by {
            if first_ink(arg, 0) > 0 {
                assert(white(arg[0]));
            }
        }
        assert(ink_end(arg, arg.len() as int) == arg.len()) by {
            if ink_end(arg, arg.len() as int) < arg.len() {
                assert(white(arg[arg.len() - 1]));
            }
        }
    }
    assert(trimmed(arg) =~= arg);
}

/// A line means the command that its first word names, whatever follows; `cat` takes what
/// follows as the file's name. Any other word is unknown.
#[verifier::spinoff_prover]
#[verifier::rlimit(40)]
pub proof fn lemma_commands(line: Seq<char>, c: Command)
    requires
        means(line, c),
    ensures
        c is Nothing <==> word(line).len() == 0,
        c is Help <==> word(line) == seq!['h', 'e', 'l', 'p'],
        c is Ls <==> word(line) == seq!['l', 's'],
        c is Cat <==> word(line) == seq!['c', 'a', 't'],
        c is Ps <==> word(line) == seq!['p', 's'],
        c is Mem <==> word(line) == seq!['m', 'e', 'm'],
        c is Uptime <==> word(line) == seq!['u', 'p', 't', 'i', 'm', 'e'],
        c is Greet <==> word(line) == seq!['g', 'r', 'e', 'e', 't'],
        c is Fault <==> word(line) == seq!['f', 'a', 'u', 'l', 't'],
        c is Echoline <==> word(line) == seq!['e', 'c', 'h', 'o', 'l', 'i', 'n', 'e'],
        c is Uname <==> word(line) == seq!['u', 'n', 'a', 'm', 'e'],
        c is Poweroff <==> word(line) == seq!['p', 'o', 'w', 'e', 'r', 'o', 'f', 'f'],
        c is Reboot <==> word(line) == seq!['r', 'e', 'b', 'o', 'o', 't'],
        c matches Command::Cat(name) ==> name@ == argument(line),
        c matches Command::Unknown(other) ==> other@ == word(line),
{
    let w = word(line);
    lemma_names();
    assert(w.len() == 0 ==> w =~= Seq::<char>::empty());
}

/// How the commands are spelled; no two of them are spelled alike.
proof fn lemma_names()
    ensures
        "help"@ == seq!['h', 'e', 'l', 'p'],
        "ls"@ == seq!['l', 's'],
        "cat"@ == seq!['c', 'a', 't'],
        "ps"@ == seq!['p', 's'],
        "mem"@ == seq!['m', 'e', 'm'],
        "uptime"@ == seq!['u', 'p', 't', 'i', 'm', 'e'],
        "greet"@ == seq!['g', 'r', 'e', 'e', 't'],
        "fault"@ == seq!['f', 'a', 'u', 'l', 't'],
        "echoline"@ == seq!['e', 'c', 'h', 'o', 'l', 'i', 'n', 'e'],
        "uname"@ == seq!['u', 'n', 'a', 'm', 'e'],
        "poweroff"@ == seq!['p', 'o', 'w', 'e', 'r', 'o', 'f', 'f'],
        "reboot"@ == seq!['r', 'e', 'b', 'o', 'o', 't'],
        forall|a: Seq<char>, b: Seq<char>|
            #![trigger a.len(), b.len()]
            a.len() != b.len() || (a.len() > 0 && a[0] != b[0]) || (a.len() > 1 && a[1] != b[1])
                ==> a != b,
{
    reveal_strlit("help");
    reveal_strlit("ls");
    reveal_strlit("cat");
    reveal_strlit("ps");
    reveal_strlit("mem");
    reveal_strlit("uptime");
    reveal_strlit("greet");
    reveal_strlit("fault");
    reveal_strlit("echoline");
    reveal_strlit("uname");
    reveal_strlit("poweroff");
    reveal_strlit("reboot");
    assert("help"@ =~= seq!['h', 'e', 'l', 'p']);
    assert("ls"@ =~= seq!['l', 's']);
    assert("cat"@ =~= seq!['c', 'a', 't']);
    assert("ps"@ =~= seq!['p', 's']);
    assert("mem"@ =~= seq!['m', 'e', 'm']);
    assert("uptime"@ =~= seq!['u', 'p', 't', 'i', 'm', 'e']);
    assert("greet"@ =~= seq!['g', 'r', 'e', 'e', 't']);
    assert("fault"@ =~= seq!['f', 'a', 'u', 'l', 't']);
    assert("echoline"@ =~= seq!['e', 'c', 'h', 'o', 'l', 'i', 'n', 'e']);
    assert("uname"@ =~= seq!['u', 'n', 'a', 'm', 'e']);
    assert("poweroff"@ =~= seq!['p', 'o', 'w', 'e', 'r', 'o', 'f', 'f']);
    assert("reboot"@ =~= seq!['r', 'e', 'b', 'o', 'o', 't']);
}

/// A file of plain text is shown whole, however long it is.
pub proof fn lemma_rendered(data: Seq<u8>, offset: int)
    requires
        text::is_ascii(data),
        0 <= offset <= data.len(),
    ensures
        rendered(data, offset) == text::ascii_chars(data.skip(offset)),
    decreases data.len() - offset,
{
    if offset < data.len() {
        let n = fs::read_len(data, offset, CAT_CHUNK as int);
        let chunk = data.subrange(offset, offset + n);
        assert(text::is_ascii(chunk)) by {
            assert forall|i: int| 0 <= i < chunk.len() implies #[trigger] chunk[i] < 128 by {
                assert(data[offset + i] < 128);
            }
        }
        text::lemma_ascii(chunk);
        lemma_rendered(data, offset + n);
        assert(text::ascii_chars(data.skip(offset)) =~= text::ascii_chars(chunk)
            + text::ascii_chars(data.skip(offset + n)));
    } else {
        assert(text::ascii_chars(data.skip(offset)) =~= Seq::<char>::empty());
    }
}

/// What the shell answers, by the command. Only the four that start a program change
/// anything.
#[verifier::spinoff_prover]
#[verifier::rlimit(40)]
pub proof fn lemma_answers(k1: Kernel, k2: Kernel, c: Command, time: u64, kstack: u64, r: Reply)
    requires
        k1.wf(),
        obeyed(k1, k2, c, time, kstack, r),
    ensures
        !(c is Greet || c is Fault || c is Echoline || c is Uname) ==> k2.vm == k1.vm && k2.sched
            == k1.sched && k2.console.pending() == k1.console.pending() && k2.fs.files()
            == k1.fs.files(),
        c is Nothing ==> r is Nothing,
        c is Help ==> r is Help,
        c is Ls ==> r is Files && r->Files_0@.len() == k1.fs.files().len() && forall|i: int|
            0 <= i < k1.fs.files().len() ==> (#[trigger] r->Files_0@[i]).0@ == k1.fs.files()[i].0
                && r->Files_0@[i].1 == k1.fs.files()[i].1.len(),
        c is Ps ==> r is Processes && r->Processes_0@.len() <= k1.sched.procs@.len() && (forall|i: int|
            0 <= i < k1.sched.procs@.len() && (#[trigger] k1.sched.procs@[i]) is Some ==> exists|k: int|
                0 <= k < r->Processes_0@.len() && proc::tells(
                    k1.sched.procs@,
                    i,
                    #[trigger] r->Processes_0@[k],
                )) && (forall|k: int|
            0 <= k < r->Processes_0@.len() ==> proc::tells_some(
                k1.sched.procs@,
                0,
                k1.sched.procs@.len() as int,
                #[trigger] r->Processes_0@[k],
            )),
        c is Mem ==> (r matches Reply::Memory {
            free_pages,
            free_mib,
            dram_mib,
            heap_free_kib,
            heap_kib,
        } && free_pages == k1.vm.kmem.pages().len() && free_mib == free_pages / 256 && dram_mib * 1024
            * 1024 == 0x8800_0000 - 0x8000_0000 && heap_free_kib * 1024 <= heap::total(
            k1.heap.blocks(),
        ) < (heap_free_kib + 1) * 1024 && heap_kib * 1024 == 0x80_0000),
        c is Uptime ==> (r matches Reply::Uptime { secs, millis, ticks, hz } && secs * 1000 + millis
            == time / 10_000 && millis < 1000 && ticks == k1.timer.ticks() && hz == 100),
        c is Poweroff ==> (r matches Reply::Power(p) && p.reset_type == 0 && !p.again),
        c is Reboot ==> (r matches Reply::Power(p) && p.reset_type == 1 && p.again),
        c matches Command::Unknown(w) ==> (r matches Reply::Unknown(w2) && w2@ == w@),
{
    let n = k1.vm.kmem.pages().len() as int;
    kalloc::lemma_count(k1.vm.kmem, k1.vm.mem@);
    heap::lemma_free_counted(k1.heap, k1.vm.mem@);
    if c is Ls {
        let list = r->Files_0@;
        let shown = list.map_values(|e: (String, usize)| fs::entry_view(e));
        assert(shown.len() == list.len());
        assert forall|i: int| 0 <= i < k1.fs.files().len() implies (#[trigger] list[i]).0@
            == k1.fs.files()[i].0 && list[i].1 == k1.fs.files()[i].1.len() by {
            assert(shown[i] == fs::directory(k1.fs.files())[i]);
        }
    }
    if c is Ps {
        let procs = k1.sched.procs@;
        proc::lemma_listing(procs, procs.len() as int);
        assert forall|k: int| 0 <= k < r->Processes_0@.len() implies proc::tells_some(
            procs,
            0,
            procs.len() as int,
            #[trigger] r->Processes_0@[k],
        ) by {
            assert(proc::tells_some(procs, k, procs.len() as int, r->Processes_0@[k]));
            let i = choose|i: int|
                k <= i < procs.len() && #[trigger] proc::tells(procs, i, r->Processes_0@[k]);
            assert(proc::tells(procs, i, r->Processes_0@[k]));
        }
    }
}

/// `cat` shows the first file of that name, all of it; without a name it says how it is
/// used, and of a name that no file has it says so.
pub proof fn lemma_cat(files: Seq<(Seq<char>, Seq<u8>)>, name: Seq<char>, r: Reply, i: int)
    requires
        cat_reply(files, name, r),
        0 <= i < files.len(),
    ensures
        name.len() == 0 <==> r is CatUsage,
        name.len() > 0 && files[i].0 == name && (forall|j: int|
            0 <= j < i ==> (#[trigger] files[j]).0 != name) && text::is_ascii(files[i].1) ==> (
        r matches Reply::Text(t) && t@ == text::ascii_chars(files[i].1)),
        r is Text ==> exists|j: int| 0 <= j < files.len() && (#[trigger] files[j]).0 == name,
        r is NoFile ==> r->NoFile_0@ == name && files[i].0 != name,
{
    fs::lemma_find(files, name, 0);
    let k = fs::find(files, name, 0);
    if k < files.len() {
        assert(files[k].0 == name);
        if files[i].0 == name && (forall|j: int| 0 <= j < i ==> (#[trigger] files[j]).0 != name) {
            assert(k == i);
            if text::is_ascii(files[i].1) {
                lemma_rendered(files[i].1, 0);
                assert(files[i].1.skip(0) =~= files[i].1);
            }
        }
    }
}

/// A command that starts a program starts the one it names, in a process that the reply
/// tells; the shell waits for `echoline` and `uname`, and goes on at once after `greet` and
/// `fault`.
#[verifier::spinoff_prover]
#[verifier::rlimit(40)]
pub proof fn lemma_starts(k1: Kernel, k2: Kernel, c: Command, time: u64, kstack: u64, r: Reply, i: int)
    requires
        k1.wf(),
        obeyed(k1, k2, c, time, kstack, r),
        c is Greet || c is Fault || c is Echoline || c is Uname,
        0 <= i < k1.programs@.len(),
        k1.programs@[i].name@ == (if c is Greet {
            "greeter"@
        } else if c is Fault {
            "trespasser"@
        } else if c is Echoline {
            "echoline"@
        } else {
            "uname"@
        }),
        forall|j: int|
            0 <= j < i ==> (#[trigger] k1.programs@[j]).name@ != k1.programs@[i].name@,
        k1.vm.kmem.pages().len() >= (k1.programs@[i].len + 4095) / 4096 + 11,
    ensures
        c is Greet || c is Fault ==> r is Spawned && phase_after(r) is Prompt && user::started(
            k1,
            k2,
            if c is Greet {
                "u-greeter"
            } else {
                "u-trespasser"
            },
            k1.programs@[i],
            kstack,
            Some(r->Spawned_0),
        ),
        c is Echoline || c is Uname ==> r is Joining && phase_after(r) == Phase::Joining(
            r->Joining_0,
        ) && user::started(
            k1,
            k2,
            if c is Echoline {
                "u-echoline"
            } else {
                "u-uname"
            },
            k1.programs@[i],
            kstack,
            Some(r->Joining_0),
        ),
{
    let name = k1.programs@[i].name@;
    abi::lemma_program_found(k1.programs@, name, 0);
    let n = kernel::find_program(k1.programs@, name, 0);
    assert(n == i) by {
        if n < i {
            assert(k1.programs@[n].name@ != name);
        }
    }
    assert(kernel::program_ok(k1.programs@[i], k1.vm));
}

/// The shell reads a line as it is typed. Each byte is taken from the console and shown; the
/// line is what the bytes so far leave of it, and a newline, and nothing else, ends it.
#[verifier::spinoff_prover]
#[verifier::rlimit(40)]
pub proof fn lemma_reads(
    sh1: Shell,
    sh2: Shell,
    k1: Kernel,
    k2: Kernel,
    time: u64,
    kstack: u64,
    step: Step,
    seen: Seq<u8>,
)
    requires
        sh1.phase is Reading,
        sh1.line@ == typed(seen),
        stepped(sh1, sh2, k1, k2, time, kstack, step),
    ensures
        k1.console.pending().len() == 0 ==> step is Wait && sh2.phase is Reading && sh2.line@
            == sh1.line@ && k2.console.pending() == k1.console.pending(),
        k1.console.pending().len() > 0 ==> {
            let b = k1.console.pending()[0];
            &&& step is Echo
            &&& k1.console.pending() == seq![b] + k2.console.pending()
            &&& b == 0x0a ==> sh2.phase is Run && sh2.line@ == sh1.line@ && step_bytes(step)
                == seq![0x0au8]
            &&& b != 0x0a ==> sh2.phase is Reading && sh2.line@ == typed(seen.push(b))
            &&& 0x20 <= b <= 0x7e && sh1.line@.len() < 128 ==> sh2.line@ == sh1.line@.push(b)
                && step_bytes(step) == seq![b]
            &&& (b == 0x7f || b == 0x08) && sh1.line@.len() > 0 ==> sh2.line@
                == sh1.line@.drop_last() && step_bytes(step) == seq![0x08u8, 0x20u8, 0x08u8]
        },
{
    let pending = k1.console.pending();
    if pending.len() > 0 {
        assert(pending =~= seq![pending[0]] + pending.drop_first());
        assert(seen.push(pending[0]).drop_last() =~= seen);
    }
}

/// A new line starts empty; a line that is complete is run as the text typed, without white
/// space at its ends.
pub proof fn lemma_runs_line(
    sh1: Shell,
    sh2: Shell,
    k1: Kernel,
    k2: Kernel,
    time: u64,
    kstack: u64,
    step: Step,
)
    requires
        stepped(sh1, sh2, k1, k2, time, kstack, step),
    ensures
        sh1.phase is Prompt ==> sh2.phase is Reading && sh2.line@.len() == 0 && k2 == k1,
        sh1.phase is Run ==> step is Show && exists|c: Command| #[trigger]
            means(trimmed(text::ascii_chars(sh1.line@)), c) && obeyed(
                k1,
                k2,
                c,
                time,
                kstack,
                step->Show_0,
            ),
        sh1.phase is Run && !(step->Show_0 is Joining) ==> sh2.phase is Prompt,
{
}

/// While a program that the shell waits for runs, could run or sleeps, the shell sleeps and
/// leaves the console to it; with the program dead or gone, it takes the console back.
pub proof fn lemma_joins(
    sh1: Shell,
    sh2: Shell,
    k1: Kernel,
    k2: Kernel,
    time: u64,
    kstack: u64,
    step: Step,
)
    requires
        k1.wf(),
        k1.sched.current is Some,
        sh1.phase is Joining,
        stepped(sh1, sh2, k1, k2, time, kstack, step),
    ensures
        ({
            let procs = k1.sched.procs@;
            let over = forall|i: int|
                0 <= i < procs.len() ==> (#[trigger] procs[i] is Some && procs[i]->0.pid
                    == sh1.phase->Joining_0 ==> procs[i]->0.state is Zombie);
            &&& over ==> step is Ready && sh2.phase is Prompt && k2.sched == k1.sched
            &&& !over ==> step is Wait && sh2.phase == sh1.phase && abi::asleep_only(k1, k2)
            &&& k2.console.pending() == k1.console.pending()
        }),
{
    proc::lemma_unfinished(k1.sched.procs@, sh1.phase->Joining_0);
    assert(proc::at(k1.sched.procs@, k1.sched.current->0 as int) is Some);
}

/// Milliseconds take three places.
#[verifier::spinoff_prover]
#[verifier::rlimit(40)]
pub proof fn lemma_three_digits(n: nat)
    requires
        n < 1000,
    ensures
        three_digits(n).len() == 3,
        text::number(three_digits(n)) == n,
{
    text::lemma_digits(n);
    let d = text::digits(n);
    reveal_strlit("0");
    reveal_strlit("00");
    lemma_zeroes();
    assert(three_digits(n).len() == 3);
    let t = three_digits(n);
    if n < 10 {
        assert(t =~= seq![48u8, 48u8] + d);
    } else if n < 100 {
        assert(t =~= seq![48u8] + d);
    } else {
        assert(t =~= d);
    }
    lemma_number3(t);
    if n < 10 {
        assert(d.drop_last() =~= Seq::<u8>::empty());
        assert(text::number(d.drop_last()) == 0);
    } else if n < 100 {
        assert(d.drop_last().drop_last() =~= Seq::<u8>::empty());
        assert(text::number(d.drop_last().drop_last()) == 0);
        assert(text::number(d.drop_last()) == d[0] - 48);
    }
}

/// The value of three digits.
proof fn lemma_number3(t: Seq<u8>)
    requires
        t.len() == 3,
    ensures
        text::number(t) == (t[0] - 48) * 100 + (t[1] - 48) * 10 + (t[2] - 48),
{
    let t2 = t.drop_last();
    let t1 = t2.drop_last();
    assert(t1.drop_last() =~= Seq::<u8>::empty());
    assert(text::number(t1.drop_last()) == 0);
    assert(text::number(t1) == t[0] - 48);
    assert(text::number(t2) == (t[0] - 48) * 10 + (t[1] - 48));
}

/// The bytes of one zero and of two.
proof fn lemma_zeroes()
    ensures
        utf8("0") == seq![48u8],
        utf8("00") == seq![48u8, 48u8],
{
    reveal_strlit("0");
    reveal_strlit("00");
    let one = seq![48u8];
    let two = seq![48u8, 48u8];
    text::lemma_ascii(one);
    text::lemma_ascii(two);
    assert(text::ascii_chars(one) =~= "0"@);
    assert(text::ascii_chars(two) =~= "00"@);
    vstd::utf8::decode_utf8_encode_utf8(one);
    vstd::utf8::decode_utf8_encode_utf8(two);
}

} // verus!
