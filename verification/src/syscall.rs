use crate::addr::VirtAddr;
use crate::error::ErrorKind;
use crate::mappings::tagged_with;
use crate::shm::{detached, SegmentState, ShmManager};
use crate::ucontext::{
    detach_outcome, lists_regions_of, pages_of, shm_detached, shm_tag_at, AddressSpace,
};
use crate::vma::{ShmId, Vma};
use vstd::prelude::*;
use vstd::string::StringExecFns;

verus! {

/// The number of the call that detaches shared memory.
pub const SYS_SHMDT: usize = 67;

/// The number of the diagnostic call.
pub const SYS_2333: usize = 2333;

/// The character of the decimal digit `d`.
pub open spec fn digit_char(d: nat) -> char {
    if d == 0 {
        '0'
    } else if d == 1 {
        '1'
    } else if d == 2 {
        '2'
    } else if d == 3 {
        '3'
    } else if d == 4 {
        '4'
    } else if d == 5 {
        '5'
    } else if d == 6 {
        '6'
    } else if d == 7 {
        '7'
    } else if d == 8 {
        '8'
    } else {
        '9'
    }
}

/// `n` written in decimal, without leading zeros.
pub open spec fn decimal(n: nat) -> Seq<char>
    decreases n,
{
    if n < 10 {
        seq![digit_char(n)]
    } else {
        decimal(n / 10).push(digit_char(n % 10))
    }
}

fn digit_str(d: usize) -> (s: &'static str)
    requires
        d < 10,
    ensures
        s@ == seq![digit_char(d as nat)],
{
    proof {
        reveal_strlit("0");
        reveal_strlit("1");
        reveal_strlit("2");
        reveal_strlit("3");
        reveal_strlit("4");
        reveal_strlit("5");
        reveal_strlit("6");
        reveal_strlit("7");
        reveal_strlit("8");
        reveal_strlit("9");
    }
    let s = if d == 0 {
        "0"
    } else if d == 1 {
        "1"
    } else if d == 2 {
        "2"
    } else if d == 3 {
        "3"
    } else if d == 4 {
        "4"
    } else if d == 5 {
        "5"
    } else if d == 6 {
        "6"
    } else if d == 7 {
        "7"
    } else if d == 8 {
        "8"
    } else {
        "9"
    };
    assert(s@ =~= seq![digit_char(d as nat)]);
    s
}

/// `n` as a decimal string.
pub fn decimal_string(n: usize) -> (s: String)
    ensures
        s@ == decimal(n as nat),
    decreases n,
{
    if n < 10 {
        String::from_str(digit_str(n))
    } else {
        let mut s = decimal_string(n / 10);
        s.append(digit_str(n % 10));
        assert(s@ =~= decimal(n as nat));
        s
    }
}

/// The registers saved when a call enters the kernel. The handlers here
/// read their arguments from the argument array and leave the frame alone.
#[derive(Clone, Copy, Debug, PartialEq, Eq, Structural)]
pub struct TrapFrame {
    pub r15: u64,
    pub r14: u64,
    pub r13: u64,
    pub r12: u64,
    pub r11: u64,
    pub r10: u64,
    pub r9: u64,
    pub r8: u64,
    pub rbx: u64,
    pub rcx: u64,
    pub rdx: u64,
    pub rsi: u64,
    pub rdi: u64,
    pub rbp: u64,
    pub rax: u64,
    pub errcode: u64,
    pub rip: u64,
    pub cs: u64,
    pub rflags: u64,
    pub rsp: u64,
    pub ss: u64,
}

impl TrapFrame {
    /// A frame with every register zero.
    pub fn new() -> (f: TrapFrame)
        ensures
            f == (TrapFrame {
                r15: 0,
                r14: 0,
                r13: 0,
                r12: 0,
                r11: 0,
                r10: 0,
                r9: 0,
                r8: 0,
                rbx: 0,
                rcx: 0,
                rdx: 0,
                rsi: 0,
                rdi: 0,
                rbp: 0,
                rax: 0,
                errcode: 0,
                rip: 0,
                cs: 0,
                rflags: 0,
                rsp: 0,
                ss: 0,
            }),
    {
        TrapFrame {
            r15: 0,
            r14: 0,
            r13: 0,
            r12: 0,
            r11: 0,
            r10: 0,
            r9: 0,
            r8: 0,
            rbx: 0,
            rcx: 0,
            rdx: 0,
            rsi: 0,
            rdi: 0,
            rbp: 0,
            rax: 0,
            errcode: 0,
            rip: 0,
            cs: 0,
            rflags: 0,
            rsp: 0,
            ss: 0,
        }
    }
}

/// One argument of a call, named and written out for a trace.
pub struct FormattedSyscallParam {
    pub name: &'static str,
    pub value: String,
}

impl FormattedSyscallParam {
    pub fn new(name: &'static str, value: String) -> (p: FormattedSyscallParam)
        ensures
            p.name == name,
            p.value == value,
    {
        FormattedSyscallParam { name, value }
    }
}

/// The handler of the diagnostic call: it takes no argument and answers
/// with a fixed number.
pub struct Sys2333Handle;

impl Sys2333Handle {
    pub fn num_args(&self) -> (n: usize)
        ensures
            n == 0,
    {
        0
    }

    pub fn handle(&self, args: &[usize], frame: &mut TrapFrame) -> (r: Result<usize, ErrorKind>)
        ensures
            r == Ok::<usize, ErrorKind>(6666),
            *final(frame) == *old(frame),
    {
        Ok(6666)
    }

    pub fn entry_format(&self, args: &[usize]) -> (r: Vec<FormattedSyscallParam>)
        ensures
            r@.len() == 0,
    {
        Vec::new()
    }
}

/// What the detach call returns for given regions, segments and address.
pub open spec fn shmdt_result(
    regions: Set<Vma>,
    segments: Map<ShmId, SegmentState>,
    vaddr: VirtAddr,
) -> Result<usize, ErrorKind> {
    match detach_outcome(regions, vaddr) {
        Err(e) => Err(e),
        Ok(shm_id) => if segments.contains_key(shm_id) {
            Ok(0)
        } else {
            Err(ErrorKind::NotFound)
        },
    }
}

/// The segments after the detach call: the segment whose attachment ended
/// has one attachment less.
pub open spec fn shmdt_segments(
    regions: Set<Vma>,
    segments: Map<ShmId, SegmentState>,
    vaddr: VirtAddr,
) -> Map<ShmId, SegmentState> {
    match shm_tag_at(regions, vaddr) {
        None => segments,
        Some(tag) => detached(segments, tag.shm_id),
    }
}

/// How the detach call at `vaddr` changes an address space and a segment
/// table: the regions of the attach event at `vaddr` go, with their pages,
/// under one invalidation pass, and the segment is detached; where the
/// call is refused for its address, nothing changes.
pub open spec fn shmdt_effect(
    space: AddressSpace,
    shm: ShmManager,
    space_after: AddressSpace,
    shm_after: ShmManager,
    vaddr: VirtAddr,
) -> bool {
    &&& space_after.regions() == shm_detached(space.regions(), vaddr)
    &&& space_after.mmap_floor() == space.mmap_floor()
    &&& shm_after@ == shmdt_segments(space.regions(), shm@, vaddr)
    &&& shm_after.next_attachment() == shm.next_attachment()
    &&& match shm_tag_at(space.regions(), vaddr) {
        Some(tag) => {
            &&& space_after.pages() == space.pages().remove_keys(
                pages_of(tagged_with(space.regions(), tag)),
            )
            &&& space_after.pending().len() == space.pending().len() + 1
            &&& space_after.pending().drop_last() == space.pending()
            &&& lists_regions_of(
                space_after.pending().last(),
                tagged_with(space.regions(), tag),
            )
        },
        None => {
            &&& space_after.pages() == space.pages()
            &&& space_after.pending() == space.pending()
        },
    }
}

/// The handler of the call that detaches a shared-memory attachment.
pub struct SysShmdtHandle;

impl SysShmdtHandle {
    /// The address to detach at: the first argument.
    #[inline(always)]
    pub fn vaddr(args: &[usize]) -> (a: VirtAddr)
        requires
            args@.len() >= 1,
        ensures
            a.0 == args@[0],
    {
        VirtAddr::new(args[0])
    }

    pub fn num_args(&self) -> (n: usize)
        ensures
            n == 1,
    {
        1
    }

    /// The argument for a trace: `vaddr`, in decimal.
    pub fn entry_format(&self, args: &[usize]) -> (r: Vec<FormattedSyscallParam>)
        requires
            args@.len() >= 1,
        ensures
            r@.len() == 1,
            r@[0].name@ == "vaddr"@,
            r@[0].value@ == decimal(args@[0] as nat),
    {
        let mut out: Vec<FormattedSyscallParam> = Vec::new();
        out.push(FormattedSyscallParam::new("vaddr", decimal_string(Self::vaddr(args).data())));
        out
    }

    /// Detaches the shared-memory attachment that starts at the address in
    /// `args[0]`.
    ///
    /// Unless that address is the start of a region that maps shared
    /// memory, the call fails with `InvalidArgument` and nothing changes.
    /// Otherwise all regions of the attach event are unmapped and removed
    /// under one invalidation pass, and then the segment's attachment
    /// count is lowered; if the segment is unknown to `shm`, the call
    /// fails with `NotFound` after the regions have gone.
    pub fn handle(
        &self,
        args: &[usize],
        frame: &mut TrapFrame,
        space: &mut AddressSpace,
        shm: &mut ShmManager,
    ) -> (r: Result<usize, ErrorKind>)
        requires
            args@.len() >= 1,
            old(space).wf(),
            old(shm).wf(),
        ensures
            final(space).wf(),
            final(shm).wf(),
            *final(frame) == *old(frame),
            r == shmdt_result(old(space).regions(), old(shm)@, VirtAddr(args@[0])),
            shmdt_effect(*old(space), *old(shm), *final(space), *final(shm), VirtAddr(args@[0])),
    {
        let vaddr = Self::vaddr(args);
        let shm_id = match space.detach_shm(vaddr) {
            Ok(shm_id) => shm_id,
            Err(e) => {
                return Err(e);
            },
        };
        match shm.detach(shm_id) {
            Ok(()) => Ok(0),
            Err(e) => Err(e),
        }
    }
}

/// The calls that have a handler here.
pub enum SyscallHandle {
    Sys2333(Sys2333Handle),
    Shmdt(SysShmdtHandle),
}

/// The handler registered for call number `nr`, if there is one.
pub fn handler_for(nr: usize) -> (h: Option<SyscallHandle>)
    ensures
        nr == SYS_2333 ==> h matches Some(SyscallHandle::Sys2333(_)),
        nr == SYS_SHMDT ==> h matches Some(SyscallHandle::Shmdt(_)),
        nr != SYS_2333 && nr != SYS_SHMDT ==> h is None,
{
    if nr == SYS_2333 {
        Some(SyscallHandle::Sys2333(Sys2333Handle))
    } else if nr == SYS_SHMDT {
        Some(SyscallHandle::Shmdt(SysShmdtHandle))
    } else {
        None
    }
}

impl SyscallHandle {
    /// How many arguments the call takes.
    pub open spec fn arity(&self) -> nat {
        match self {
            SyscallHandle::Sys2333(_) => 0,
            SyscallHandle::Shmdt(_) => 1,
        }
    }

    pub fn num_args(&self) -> (n: usize)
        ensures
            n == self.arity(),
    {
        match self {
            SyscallHandle::Sys2333(h) => h.num_args(),
            SyscallHandle::Shmdt(h) => h.num_args(),
        }
    }

    /// The arguments of the call, named and written out for a trace.
    pub fn entry_format(&self, args: &[usize]) -> (r: Vec<FormattedSyscallParam>)
        requires
            args@.len() >= self.arity(),
        ensures
            r@.len() == self.arity(),
            self is Shmdt ==> r@[0].name@ == "vaddr"@ && r@[0].value@ == decimal(
                args@[0] as nat,
            ),
    {
        match self {
            SyscallHandle::Sys2333(h) => h.entry_format(args),
            SyscallHandle::Shmdt(h) => h.entry_format(args),
        }
    }

    /// Runs the call for a process with address space `space` in the IPC
    /// namespace whose segments are `shm`.
    pub fn handle(
        &self,
        args: &[usize],
        frame: &mut TrapFrame,
        space: &mut AddressSpace,
        shm: &mut ShmManager,
    ) -> (r: Result<usize, ErrorKind>)
        requires
            args@.len() >= self.arity(),
            old(space).wf(),
            old(shm).wf(),
        ensures
            final(space).wf(),
            final(shm).wf(),
            *final(frame) == *old(frame),
            match self {
                SyscallHandle::Sys2333(_) => {
                    &&& r == Ok::<usize, ErrorKind>(6666)
                    &&& *final(space) == *old(space)
                    &&& *final(shm) == *old(shm)
                },
                SyscallHandle::Shmdt(_) => {
                    &&& r == shmdt_result(old(space).regions(), old(shm)@, VirtAddr(args@[0]))
                    &&& shmdt_effect(
                        *old(space),
                        *old(shm),
                        *final(space),
                        *final(shm),
                        VirtAddr(args@[0]),
                    )
                },
            },
    {
        match self {
            SyscallHandle::Sys2333(h) => h.handle(args, frame),
            SyscallHandle::Shmdt(h) => h.handle(args, frame, space, shm),
        }
    }
}

} // verus!
