//! Embedded user-mode programs.
//!
//! The programs are linked into the kernel image, in a section the kernel maps
//! read-only: the loader copies a program into private pages of the process
//! that runs it. They talk to the kernel exclusively through `ecall`.
//!
//! Syscall ABI: number in a7, arguments in a0 to a2, return value in a0.
use vstd::prelude::*;

use crate::abi;
use crate::kalloc;
use crate::kernel;
use crate::kernel::{Kernel, Program};
use crate::loader;
use crate::loader::TEXT_MAX;
use crate::memlayout::DRAM_BASE;
use crate::proc;
use crate::proc::KSTACK_SIZE;
use crate::sv39;
use crate::sync;
use crate::uproc;
use crate::uvm;

verus! {

/// Where the linker put one program.
#[derive(Clone, Copy)]
pub struct Image {
    pub start: u64,
    pub end: u64,
}

/// Where the linker put the programs.
#[derive(Clone, Copy)]
pub struct Images {
    /// Prints, naps, prints its pid and exits.
    pub greeter: Image,
    /// Reads kernel memory, and dies of it.
    pub trespasser: Image,
    /// Passes hostile syscall arguments.
    pub badsys: Image,
    /// Prints the kernel version.
    pub uname: Image,
    /// Prints a file.
    pub catfile: Image,
    /// Grows its heap and touches every page of it.
    pub heapgrow: Image,
    /// Forks, and waits for the child.
    pub forker: Image,
    /// Forks; the child executes another program.
    pub forkexec: Image,
    /// Reads a line and prints it.
    pub echoline: Image,
}

/// Address of the greeter.
pub fn greeter_addr(images: &Images) -> (addr: u64)
    ensures
        addr == images.greeter.start,
{
    images.greeter.start
}

/// Address of the trespasser.
pub fn trespasser_addr(images: &Images) -> (addr: u64)
    ensures
        addr == images.trespasser.start,
{
    images.trespasser.start
}

/// The image `i` as a program of that name.
pub open spec fn as_program(name: &'static str, i: Image) -> Program {
    Program { name, addr: i.start, len: (i.end - i.start) as u64 }
}

/// The programs under the names `exec` knows them by.
pub open spec fn table(images: Images) -> Seq<Program> {
    seq![
        as_program("greeter", images.greeter),
        as_program("trespasser", images.trespasser),
        as_program("badsys", images.badsys),
        as_program("uname", images.uname),
        as_program("catfile", images.catfile),
        as_program("heapgrow", images.heapgrow),
        as_program("forker", images.forker),
        as_program("forkexec", images.forkexec),
        as_program("echoline", images.echoline),
    ]
}

impl Images {
    /// No image ends before it starts.
    pub open spec fn wf(self) -> bool {
        &&& self.greeter.start <= self.greeter.end
        &&& self.trespasser.start <= self.trespasser.end
        &&& self.badsys.start <= self.badsys.end
        &&& self.uname.start <= self.uname.end
        &&& self.catfile.start <= self.catfile.end
        &&& self.heapgrow.start <= self.heapgrow.end
        &&& self.forker.start <= self.forker.end
        &&& self.forkexec.start <= self.forkexec.end
        &&& self.echoline.start <= self.echoline.end
    }
}

/// The image `i` as a program of that name.
fn program_at(name: &'static str, i: &Image) -> (p: Program)
    requires
        i.start <= i.end,
    ensures
        p == as_program(name, *i),
{
    Program { name, addr: i.start, len: i.end - i.start }
}

/// The table of programs.
pub fn programs(images: &Images) -> (list: Vec<Program>)
    requires
        images.wf(),
    ensures
        list@ == table(*images),
{
    let mut list: Vec<Program> = Vec::new();
    list.push(program_at("greeter", &images.greeter));
    list.push(program_at("trespasser", &images.trespasser));
    list.push(program_at("badsys", &images.badsys));
    list.push(program_at("uname", &images.uname));
    list.push(program_at("catfile", &images.catfile));
    list.push(program_at("heapgrow", &images.heapgrow));
    list.push(program_at("forker", &images.forker));
    list.push(program_at("forkexec", &images.forkexec));
    list.push(program_at("echoline", &images.echoline));
    assert(list@ =~= table(*images));
    list
}

/// Does every image end where it should: after it starts, in kernel memory
/// below `end`, and not too long for an address space?
pub open spec fn images_ok(images: Images, end: int) -> bool {
    &&& images.wf()
    &&& forall|i: int|
        0 <= i < table(images).len() ==> kernel::program_below(#[trigger] table(images)[i], end)
}

/// Is every image usable?
pub fn check(images: &Images, end: u64) -> (ok: bool)
    ensures
        ok == images_ok(*images, end as int),
{
    if !(images.greeter.start <= images.greeter.end && images.trespasser.start
        <= images.trespasser.end && images.badsys.start <= images.badsys.end && images.uname.start
        <= images.uname.end && images.catfile.start <= images.catfile.end && images.heapgrow.start
        <= images.heapgrow.end && images.forker.start <= images.forker.end
        && images.forkexec.start <= images.forkexec.end && images.echoline.start
        <= images.echoline.end) {
        return false;
    }
    let list: Vec<Program> = programs(images);
    let mut i: usize = 0;
    while i < list.len()
        invariant
            i <= list@.len(),
            images.wf(),
            list@ == table(*images),
            forall|j: int| 0 <= j < i ==> kernel::program_below(#[trigger] list@[j], end as int),
        decreases list@.len() - i,
    {
        let p: Program = list[i];
        if !(0 < p.len && p.len <= TEXT_MAX && DRAM_BASE <= p.addr && p.addr <= end && p.len <= end
            - p.addr) {
            assert(!kernel::program_below(table(*images)[i as int], end as int));
            return false;
        }
        i = i + 1;
    }
    true
}

/// The program was started in a process of its own, named `name`, or there are
/// too few pages for it and nothing happened.
pub open spec fn started(
    k1: Kernel,
    k2: Kernel,
    name: &'static str,
    prog: Program,
    kstack: u64,
    pid: Option<u64>,
) -> bool {
    let pages = k1.vm.kmem.pages();
    let t = pages[0];
    &&& k2.heap == k1.heap
    &&& k2.timer == k1.timer
    &&& k2.programs == k1.programs
    &&& k2.console == k1.console
    &&& k2.fs == k1.fs
    &&& sync::calm(k1.hart, k2.hart)
    &&& k2.vm.image == k1.vm.image
    &&& k2.vm.root == k1.vm.root
    &&& if loader::image_pages(prog.len as int) > pages.len() {
        &&& pid is None
        &&& k2.vm == k1.vm
        &&& k2.sched == k1.sched
    } else {
        &&& pid == Some(k1.sched.next_pid)
        &&& proc::grew(k1.sched, k2.sched)
        &&& uproc::user_proc(
            proc::at(k2.sched.procs@, proc::new_slot(k1.sched.procs@))->0,
            k1.sched.next_pid,
            name,
            kstack,
            t as u64,
            k1.sched.trampoline,
        )
        &&& loader::loaded(k1.vm.mem@, k2.vm.mem@, t, prog.addr as int, prog.len as int)
        &&& forall|p: int| #[trigger]
            uvm::owns(k2.vm.mem@, t, p) <==> pages.contains(p) && !k2.vm.kmem.pages().contains(p)
        &&& forall|p: int| #[trigger] k2.vm.kmem.pages().contains(p) ==> pages.contains(p)
        &&& k2.vm.kmem.pages().len() == pages.len() - loader::image_pages(prog.len as int)
        &&& forall|a: int|
            !pages.contains(sv39::page_of(a)) ==> #[trigger] k2.vm.mem@[a] == k1.vm.mem@[a]
    }
}

/// Start `prog` in a new process named `name`; None when there are too few
/// pages for it.
pub fn start(k: &mut Kernel, name: &'static str, prog: &Program, kstack: u64) -> (pid: Option<u64>)
    requires
        old(k).wf(),
        old(k).hart.noff < u64::MAX,
        old(k).sched.next_pid < u64::MAX,
        kernel::program_ok(*prog, old(k).vm),
        kstack + KSTACK_SIZE <= u64::MAX,
    ensures
        final(k).wf(),
        started(*old(k), *final(k), name, *prog, kstack, pid),
{
    let ghost k0 = *k;
    proof {
        sync::lemma_calm(k.hart);
        sync::lemma_section(k.hart);
    }
    if loader::image_cost(prog.len) > kalloc::free_pages(&k.vm.kmem, &k.vm.mem) {
        return None;
    }
    let pid: u64 = uproc::spawn_user(
        &mut k.sched,
        &mut k.hart,
        &mut k.vm,
        name,
        prog.addr,
        prog.len,
        kstack,
    );
    proof {
        kalloc::lemma_pages(k0.vm.kmem, k0.vm.mem@);
        kernel::lemma_heap_keep(k0.heap, k0.vm, k.vm);
        proc::lemma_first_free(k0.sched.procs@, 0);
        assert(k.sched.running() == k0.sched.running());
    }
    Some(pid)
}

/// Every program is found under its own name, and what is found is where the linker put it.
#[verifier::spinoff_prover]
#[verifier::rlimit(40)]
pub proof fn lemma_programs(images: Images, i: int)
    requires
        images.wf(),
        0 <= i < 9,
    ensures
        ({
            let names = seq![
                "greeter"@,
                "trespasser"@,
                "badsys"@,
                "uname"@,
                "catfile"@,
                "heapgrow"@,
                "forker"@,
                "forkexec"@,
                "echoline"@,
            ];
            let places = seq![
                images.greeter,
                images.trespasser,
                images.badsys,
                images.uname,
                images.catfile,
                images.heapgrow,
                images.forker,
                images.forkexec,
                images.echoline,
            ];
            let n = kernel::find_program(table(images), names[i], 0);
            &&& 0 <= n < table(images).len()
            &&& table(images)[n].addr == places[i].start
            &&& table(images)[n].addr + table(images)[n].len == places[i].end
        }),
{
    let t = table(images);
    let names = seq![
        "greeter"@,
        "trespasser"@,
        "badsys"@,
        "uname"@,
        "catfile"@,
        "heapgrow"@,
        "forker"@,
        "forkexec"@,
        "echoline"@,
    ];
    reveal_strlit("greeter");
    reveal_strlit("trespasser");
    reveal_strlit("badsys");
    reveal_strlit("uname");
    reveal_strlit("catfile");
    reveal_strlit("heapgrow");
    reveal_strlit("forker");
    reveal_strlit("forkexec");
    reveal_strlit("echoline");
    abi::lemma_program_found(t, names[i], 0);
    let n = kernel::find_program(t, names[i], 0);
    assert(t.len() == 9);
    assert forall|j: int| 0 <= j < 9 && j != i implies (#[trigger] t[j]).name@ != names[i] by {
        lemma_apart(names, i, j);
        assert(t[j].name@ == names[j]);
    }
    assert(t[i].name@ == names[i]);
    if n < t.len() && n != i {
        assert(t[n].name@ != names[i]);
    }
    if n > i {
        assert(t[i].name@ != names[i]);
    }
    assert(n == i);
}

/// No two programs have the same name.
proof fn lemma_apart(names: Seq<Seq<char>>, i: int, j: int)
    requires
        names == seq![
            "greeter"@,
            "trespasser"@,
            "badsys"@,
            "uname"@,
            "catfile"@,
            "heapgrow"@,
            "forker"@,
            "forkexec"@,
            "echoline"@,
        ],
        0 <= i < 9,
        0 <= j < 9,
        i != j,
    ensures
        names[i] != names[j],
{
    reveal_strlit("greeter");
    reveal_strlit("trespasser");
    reveal_strlit("badsys");
    reveal_strlit("uname");
    reveal_strlit("catfile");
    reveal_strlit("heapgrow");
    reveal_strlit("forker");
    reveal_strlit("forkexec");
    reveal_strlit("echoline");
    // Names of the same length differ in their first character.
    assert(names[i].len() == names[j].len() ==> names[i][0] != names[j][0]);
}

} // verus!
