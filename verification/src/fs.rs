//! A tiny in-memory filesystem.
//!
//! Flat namespace, no directories, no persistence: a fixed set of files that
//! live in the kernel heap. It exists to give the shell `ls`/`cat` and to back
//! the file syscalls with something real. Files are created at boot in `init`
//! and are read-only thereafter.
use vstd::prelude::*;
use vstd::string::StrSliceExecFns;

use crate::proc;
use crate::riscv::Hart;
use crate::spinlock;
use crate::spinlock::{SpinLock, SpinLockGuard};

verus! {

/// A file.
pub struct File {
    pub name: String,
    pub data: Vec<u8>,
}

/// A file as its name and contents.
pub open spec fn file_view(f: File) -> (Seq<char>, Seq<u8>) {
    (f.name@, f.data@)
}

/// The files as names and contents, in order of creation.
pub open spec fn files_view(files: Seq<File>) -> Seq<(Seq<char>, Seq<u8>)> {
    files.map_values(|f: File| file_view(f))
}

/// The filesystem.
pub struct Fs {
    files: SpinLock<Vec<File>>,
}

/// Contents of `motd`.
pub open spec fn motd() -> &'static str {
    "welcome to osmium -- a RISC-V kernel in Rust\n"
}

/// Contents of `readme`.
pub open spec fn readme() -> &'static str {
    "osmium ramfs\n------------\na flat, read-only, in-memory filesystem.\ntry: ls, cat motd, cat readme\n"
}

/// Contents of `cpuinfo`.
pub open spec fn cpuinfo() -> &'static str {
    "isa: rv64gc\nharts: 1\nmachine: qemu-virt\n"
}

/// The files the kernel boots with.
pub open spec fn built_in() -> Seq<(Seq<char>, Seq<u8>)> {
    seq![
        ("motd"@, vstd::utf8::encode_utf8(motd()@)),
        ("readme"@, vstd::utf8::encode_utf8(readme()@)),
        ("cpuinfo"@, vstd::utf8::encode_utf8(cpuinfo()@)),
    ]
}

/// The first file from the `i`-th on with that name; the number of files if
/// there is none.
pub open spec fn find(files: Seq<(Seq<char>, Seq<u8>)>, name: Seq<char>, i: int) -> int
    decreases files.len() - i,
{
    if i >= files.len() {
        files.len() as int
    } else if files[i].0 == name {
        i
    } else {
        find(files, name, i + 1)
    }
}

/// How many bytes a read of up to `cap` bytes at `offset` of `data` gives: 0 at
/// or past the end.
pub open spec fn read_len(data: Seq<u8>, offset: int, cap: int) -> int {
    if offset >= data.len() {
        0
    } else if cap < data.len() - offset {
        cap
    } else {
        data.len() - offset
    }
}

impl Fs {
    /// The files as names and contents, in order of creation.
    pub closed spec fn files(self) -> Seq<(Seq<char>, Seq<u8>)> {
        files_view(self.files.held()@)
    }

    /// The file table is free to be locked.
    pub closed spec fn wf(self) -> bool {
        self.files.wf() && !self.files.locked()
    }

    /// A filesystem without files.
    pub fn new() -> (fs: Fs)
        ensures
            fs.wf(),
            fs.files() == Seq::<(Seq<char>, Seq<u8>)>::empty(),
    {
        let files: Vec<File> = Vec::new();
        assert(files_view(files@) =~= Seq::<(Seq<char>, Seq<u8>)>::empty());
        Fs { files: SpinLock::new("fs", files) }
    }
}

/// There are no more files, and no longer ones, than an index can count.
pub proof fn lemma_sizes(fs: Fs)
    ensures
        fs.files().len() <= usize::MAX,
        forall|i: int| 0 <= i < fs.files().len() ==> (#[trigger] fs.files()[i]).1.len() <= usize::MAX,
{
    let files = fs.files.held();
    assert(files.len() <= usize::MAX);
    assert forall|i: int| 0 <= i < fs.files().len() implies (#[trigger] fs.files()[i]).1.len()
        <= usize::MAX by {
        assert(files@[i].data.len() <= usize::MAX);
    }
}

/// A name stands for the first file that has it.
pub proof fn lemma_find(files: Seq<(Seq<char>, Seq<u8>)>, name: Seq<char>, i: int)
    requires
        0 <= i <= files.len(),
    ensures
        i <= find(files, name, i) <= files.len(),
        find(files, name, i) < files.len() ==> files[find(files, name, i)].0 == name,
        forall|j: int| i <= j < find(files, name, i) ==> (#[trigger] files[j]).0 != name,
    decreases files.len() - i,
{
    if i < files.len() && files[i].0 != name {
        lemma_find(files, name, i + 1);
    }
}

/// A read gives as much as was asked for, or all that is left.
pub proof fn lemma_read_len(data: Seq<u8>, offset: int, cap: int)
    requires
        0 <= offset,
        0 <= cap,
    ensures
        0 <= read_len(data, offset, cap) <= cap,
        offset < data.len() ==> offset + read_len(data, offset, cap) <= data.len(),
        offset < data.len() ==> read_len(data, offset, cap) == cap || offset + read_len(
            data,
            offset,
            cap,
        ) == data.len(),
        offset >= data.len() ==> read_len(data, offset, cap) == 0,
{
}

/// Add a file.
fn create(files: &mut Vec<File>, name: &str, data: &str)
    ensures
        files_view(final(files)@) == files_view(old(files)@).push((name@, vstd::utf8::encode_utf8(data@))),
{
    files.push(File { name: name.to_owned(), data: data.as_bytes_vec() });
    assert(files_view(files@) =~= files_view(old(files)@).push((name@, vstd::utf8::encode_utf8(data@))));
}

/// Populate the filesystem with its built-in files. Called once at boot.
pub fn init(fs: &mut Fs, hart: &mut Hart)
    requires
        old(fs).wf(),
        old(hart).noff < u64::MAX,
        spinlock::hart_ok(*old(hart)),
    ensures
        final(fs).wf(),
        final(fs).files() == old(fs).files() + built_in(),
        *final(hart) == proc::section(*old(hart)),
        spinlock::hart_ok(*final(hart)),
{
    let ghost before = fs.files();
    let mut guard: SpinLockGuard<Vec<File>> = fs.files.lock(hart);
    create(guard.deref_mut(), "motd", "welcome to osmium -- a RISC-V kernel in Rust\n");
    create(
        guard.deref_mut(),
        "readme",
        "osmium ramfs\n------------\na flat, read-only, in-memory filesystem.\ntry: ls, cat motd, cat readme\n",
    );
    create(guard.deref_mut(), "cpuinfo", "isa: rv64gc\nharts: 1\nmachine: qemu-virt\n");
    fs.files.release(guard, hart);
    assert(fs.files() =~= before + built_in());
}

/// Name and size of every file.
pub open spec fn directory(files: Seq<(Seq<char>, Seq<u8>)>) -> Seq<(Seq<char>, int)> {
    files.map_values(|f: (Seq<char>, Seq<u8>)| (f.0, f.1.len() as int))
}

/// A directory entry as the name and size it shows.
pub open spec fn entry_view(e: (String, usize)) -> (Seq<char>, int) {
    (e.0@, e.1 as int)
}

/// Name and size of every file, for `ls`.
pub fn list(fs: &mut Fs, hart: &mut Hart) -> (entries: Vec<(String, usize)>)
    requires
        old(fs).wf(),
        old(hart).noff < u64::MAX,
        spinlock::hart_ok(*old(hart)),
    ensures
        final(fs).wf(),
        final(fs).files() == old(fs).files(),
        entries@.map_values(|e: (String, usize)| entry_view(e)) == directory(old(fs).files()),
        *final(hart) == proc::section(*old(hart)),
        spinlock::hart_ok(*final(hart)),
{
    let ghost files = fs.files();
    let guard: SpinLockGuard<Vec<File>> = fs.files.lock(hart);
    let mut entries: Vec<(String, usize)> = Vec::new();
    let mut i: usize = 0;
    let table: &Vec<File> = guard.deref();
    while i < table.len()
        invariant
            i <= table@.len(),
            files == files_view(table@),
            entries@.len() == i,
            forall|k: int| 0 <= k < i ==> entry_view(#[trigger] entries@[k]) == directory(files)[k],
        decreases table@.len() - i,
    {
        let f: &File = &table[i];
        entries.push((f.name.clone(), f.data.len()));
        i = i + 1;
    }
    assert(entries@.map_values(|e: (String, usize)| entry_view(e)) =~= directory(files));
    fs.files.release(guard, hart);
    entries
}

/// Index of the file named `name`, or None. This index is the stable "inode"
/// the fd table stores.
pub fn lookup(fs: &mut Fs, hart: &mut Hart, name: &str) -> (idx: Option<usize>)
    requires
        old(fs).wf(),
        old(hart).noff < u64::MAX,
        spinlock::hart_ok(*old(hart)),
    ensures
        final(fs).wf(),
        final(fs).files() == old(fs).files(),
        ({
            let i = find(old(fs).files(), name@, 0);
            if i < old(fs).files().len() {
                idx matches Some(k) && k == i
            } else {
                idx is None
            }
        }),
        *final(hart) == proc::section(*old(hart)),
        spinlock::hart_ok(*final(hart)),
{
    let ghost files = fs.files();
    let wanted: String = name.to_owned();
    let guard: SpinLockGuard<Vec<File>> = fs.files.lock(hart);
    let table: &Vec<File> = guard.deref();
    let mut i: usize = 0;
    let mut found: Option<usize> = None;
    while i < table.len() && found.is_none()
        invariant
            i <= table@.len(),
            files == files_view(table@),
            wanted@ == name@,
            match found {
                Some(k) => k < table@.len() && find(files, name@, 0) == k,
                None => find(files, name@, 0) == find(files, name@, i as int),
            },
        decreases table@.len() - i,
    {
        assert(files[i as int].0 == table@[i as int].name@);
        if table[i].name == wanted {
            found = Some(i);
        }
        i = i + 1;
    }
    fs.files.release(guard, hart);
    found
}

/// Copy up to `buf.len()` bytes of file `idx` starting at `offset` into `buf`.
/// Returns the number of bytes copied (0 at or past the end, or for no file).
pub fn read_at(fs: &mut Fs, hart: &mut Hart, idx: usize, offset: usize, buf: &mut [u8]) -> (n:
    usize)
    requires
        old(fs).wf(),
        old(hart).noff < u64::MAX,
        spinlock::hart_ok(*old(hart)),
    ensures
        final(fs).wf(),
        final(fs).files() == old(fs).files(),
        ({
            let files = old(fs).files();
            let cap = old(buf)@.len() as int;
            if idx < files.len() {
                let data = files[idx as int].1;
                &&& n == read_len(data, offset as int, cap)
                &&& final(buf)@ == data.subrange(
                    if n == 0 {
                        0
                    } else {
                        offset as int
                    },
                    if n == 0 {
                        0
                    } else {
                        offset + n
                    },
                ) + old(buf)@.skip(n as int)
            } else {
                &&& n == 0
                &&& final(buf)@ == old(buf)@
            }
        }),
        offset + n <= usize::MAX,
        *final(hart) == proc::section(*old(hart)),
        spinlock::hart_ok(*final(hart)),
{
    let ghost files = fs.files();
    let ghost before = buf@;
    let guard: SpinLockGuard<Vec<File>> = fs.files.lock(hart);
    let table: &Vec<File> = guard.deref();
    let mut n: usize = 0;
    if idx < table.len() {
        let file: &File = &table[idx];
        assert(files[idx as int].1 == file.data@);
        if offset < file.data.len() {
            let left: usize = file.data.len() - offset;
            n = if buf.len() < left {
                buf.len()
            } else {
                left
            };
            let mut i: usize = 0;
            while i < n
                invariant
                    i <= n,
                    n <= before.len(),
                    offset + n <= file.data.len(),
                    buf@ == file.data@.subrange(offset as int, offset + i) + before.skip(i as int),
                decreases n - i,
            {
                buf[i] = file.data[offset + i];
                i = i + 1;
                assert(buf@ =~= file.data@.subrange(offset as int, offset + i) + before.skip(
                    i as int,
                ));
            }
        }
        if n == 0 {
            assert(buf@ =~= file.data@.subrange(0, 0) + before.skip(0));
        }
    }
    fs.files.release(guard, hart);
    n
}

/// What reading `data` from `offset` on gives, `cap` bytes at a time, until a
/// read gives nothing.
pub open spec fn read_through(data: Seq<u8>, offset: int, cap: int) -> Seq<u8>
    decreases data.len() - offset,
{
    let n = read_len(data, offset, cap);
    if offset < 0 || n <= 0 {
        Seq::empty()
    } else {
        data.subrange(offset, offset + n) + read_through(data, offset + n, cap)
    }
}

/// Reading a file piece by piece gives the whole file, whatever the size of the
/// pieces.
pub proof fn lemma_read_through(data: Seq<u8>, offset: int, cap: int)
    requires
        0 <= offset <= data.len(),
        cap > 0,
    ensures
        read_through(data, offset, cap) == data.skip(offset),
    decreases data.len() - offset,
{
    let n = read_len(data, offset, cap);
    if n > 0 {
        lemma_read_through(data, offset + n, cap);
        assert(data.subrange(offset, offset + n) + data.skip(offset + n) =~= data.skip(offset));
    } else {
        assert(data.skip(offset) =~= Seq::<u8>::empty());
    }
}

/// The list of files names every file, in order, with its length.
pub proof fn lemma_directory(files: Seq<(Seq<char>, Seq<u8>)>, i: int)
    requires
        0 <= i < files.len(),
    ensures
        directory(files).len() == files.len(),
        directory(files)[i].0 == files[i].0,
        directory(files)[i].1 == files[i].1.len(),
{
}

} // verus!
