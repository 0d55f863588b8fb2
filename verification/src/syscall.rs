//! What each system call does.
//!
//! Every pointer that arrives from a user program is hostile until it has
//! been checked. No handler follows one: they copy, and copying checks the
//! whole range against the program's own page tables first. Rights are
//! looked up, never presented, and where there is no process there are no
//! rights.
use vstd::prelude::*;
use crate::abi::{
    self, archive, capability_bits, encode_error, err, fd, open_flags, seek, sys, InputEvent,
};
use crate::arch::x86_64::interrupts::{self, Clock};
use crate::arch::x86_64::usermode::ProgramExit;
use crate::bytes::{self, u64_le_bytes};
use crate::drivers::input::{self, Input};
use crate::fs::{self, FileSystem, Node};
use crate::graphics::compositor::{self, Compositor, SurfaceMode};
use crate::graphics::font::Font;
use crate::mm::memory::{self, copy_from_user, copy_to_user, MAX_USER_TRANSFER};
use crate::process::{self, OpenFile, ProcessTable};
use crate::realm::RealmProfile;
use crate::sched::task::{self, Scheduler, Switch, SwitchKind};
use crate::selftest::{self, Tally};
use crate::text::{self, push_decimal, push_hexadecimal, push_padded_hexadecimal};

verus! {

broadcast use vstd::slice::group_slice_axioms;

/// Everything system calls read and change, except for memory.
pub struct Kernel<'a> {
    pub processes: ProcessTable,
    pub files: FileSystem<'a>,
    pub compositor: Compositor,
    pub input: Input,
    pub clock: Clock,
    pub scheduler: Scheduler,
    /// How many system calls were made since boot.
    pub calls: u64,
    /// Whether the entry stub's alignment has been reported.
    pub alignment_reported: bool,
    pub tests: Tally,
}

/// What a system call changes: the kernel's state, and memory.
pub struct KernelView {
    pub processes: Seq<process::ProcessView>,
    pub compositor: compositor::CompositorView,
    pub input: input::InputView,
    pub scheduler: task::SchedulerView,
    pub clock: Clock,
    pub calls: u64,
    pub alignment_reported: bool,
    pub tests: Tally,
    /// Physical memory.
    pub memory: Seq<u8>,
    /// The mapped framebuffer.
    pub screen: Seq<u8>,
}

/// What a system call reads and does not change.
pub struct Surroundings {
    /// The mounted namespace.
    pub entries: Seq<(Seq<char>, Node)>,
    pub archive: Seq<u8>,
    /// The root of the calling program's page tables.
    pub root: int,
    pub font: Font,
}

/// Where control goes after a system call.
#[derive(Debug, Clone, Copy, PartialEq, Eq, Structural)]
pub enum Action {
    /// Back to the program.
    Resume,
    /// Back to the program's supervisor, for good.
    EndProgram(ProgramExit),
    /// To another task, and back to the program when its turn comes.
    Switch(Switch),
}

/// What a system call comes to.
#[derive(Debug)]
pub struct Reply {
    /// What the program receives.
    pub value: u64,
    pub action: Action,
    /// What goes to the console on the program's behalf.
    pub console: String,
    /// What the kernel logs.
    pub lines: Vec<String>,
}

/// What a system call comes to.
pub struct Effect {
    pub state: KernelView,
    pub value: u64,
    pub action: Action,
    pub console: Seq<char>,
    pub lines: Seq<Seq<char>>,
}

/// The kernel's state and memory together.
pub open spec fn state_of(kernel: Kernel, memory: Seq<u8>, screen: Seq<u8>) -> KernelView {
    KernelView {
        processes: kernel.processes@,
        compositor: kernel.compositor@,
        input: kernel.input@,
        scheduler: kernel.scheduler@,
        clock: kernel.clock,
        calls: kernel.calls,
        alignment_reported: kernel.alignment_reported,
        tests: kernel.tests,
        memory,
        screen,
    }
}

/// The kernel's parts are sound, and no counter is at its end.
pub open spec fn kernel_is_ready(kernel: Kernel, screen: Seq<u8>) -> bool {
    &&& kernel.processes.wf()
    &&& kernel.files.wf()
    &&& kernel.compositor.wf()
    &&& kernel.input.wf()
    &&& kernel.scheduler.wf()
    &&& kernel.clock.ticks * 1000 <= u64::MAX
    &&& kernel.compositor@.next_surface_id < u64::MAX
    &&& kernel.compositor@.rejected_commits < u64::MAX
    &&& kernel.compositor@.frames < u64::MAX
    &&& kernel.compositor@.framebuffer matches Some(fb) ==> screen.len() == fb.len
    &&& forall|pid: u64|
        (#[trigger] process::files_of(kernel.processes@, pid)).len() < usize::MAX
}

/// The process that is calling, or 0.
pub open spec fn caller(v: KernelView) -> u64 {
    match v.scheduler.current {
        Some(task) => task.pid,
        None => 0,
    }
}

/// The caller's profile.
pub open spec fn profile_of(v: KernelView) -> Option<RealmProfile> {
    match process::process_of(v.processes, caller(v)) {
        Some(process) => Some(process.profile),
        None => None,
    }
}

/// Whether the caller holds a right. Without a process there is none.
pub open spec fn permitted(v: KernelView, right: u64) -> bool {
    match profile_of(v) {
        Some(profile) => profile.grants(right),
        None => false,
    }
}

/// What a refused call returns.
pub open spec fn refusal(errno: u64) -> u64 {
    abi::negated(errno)
}

/// An effect that is nothing but a value.
pub open spec fn just(v: KernelView, value: u64) -> Effect {
    Effect {
        state: v,
        value,
        action: Action::Resume,
        console: Seq::empty(),
        lines: Seq::empty(),
    }
}

/// How many system calls were made since boot.
pub fn count(kernel: &Kernel) -> (n: u64)
    ensures
        n == kernel.calls,
{
    kernel.calls
}

/// What is reported of the stack that the entry stub hands over.
pub open spec fn alignment_detail(rsp: u64) -> Seq<char> {
    "RSP 0x"@ + text::hexadecimal(rsp as nat) + " at the dispatcher call is "@ + text::decimal(
        (rsp % 16) as nat,
    ) + " bytes off a 16-byte boundary"@
}

/// The line about the alignment of the stack.
pub open spec fn alignment_line(rsp: u64) -> Seq<char> {
    selftest::check_line("syscall entry stack alignment"@, rsp % 16 == 0, alignment_detail(rsp))
}

/// Reports, once per boot, whether the entry stub handed over an aligned
/// stack.
fn check_stack_alignment(reported: &mut bool, tests: &mut Tally, rsp_at_call: u64) -> (line: Option<
    String,
>)
    ensures
        *final(reported),
        match line {
            Some(line) => !*old(reported) && line@ == alignment_line(rsp_at_call) && *final(tests)
                == selftest::counted(*old(tests), rsp_at_call % 16 == 0),
            None => *old(reported) && *final(tests) == *old(tests),
        },
{
    if *reported {
        return None;
    }
    *reported = true;
    let mut detail = String::from_str("RSP 0x");
    push_hexadecimal(&mut detail, rsp_at_call);
    detail.append(" at the dispatcher call is ");
    push_decimal(&mut detail, rsp_at_call % 16);
    detail.append(" bytes off a 16-byte boundary");
    Some(
        selftest::check(
            tests,
            "syscall entry stack alignment",
            rsp_at_call % 16 == 0,
            detail.as_str(),
        ),
    )
}

// ---------------------------------------------------------------------
// Life and death
// ---------------------------------------------------------------------

/// The line about a program that asks to end.
pub open spec fn exit_line(status: u32) -> Seq<char> {
    "Najm Kernel: syscall exit(status = "@ + text::decimal(status as nat)
        + ") - program requested termination"@
}

/// `exit(status)`: ends the calling program, if it is one that was
/// launched.
pub open spec fn exit_effect(v: KernelView, status: u64) -> Effect {
    let code = (status % 0x1_0000_0000) as u32;
    let resume = match v.scheduler.current {
        Some(task) => task.supervisor_rsp,
        None => v.scheduler.boot_supervisor_rsp,
    };
    if resume != 0 {
        Effect {
            action: Action::EndProgram(ProgramExit::Exited(code)),
            lines: seq![exit_line(code)],
            ..just(v, 0)
        }
    } else {
        Effect {
            lines: seq![
                exit_line(code),
                "Najm Kernel: exit syscall with no Ring 3 program running - ignoring"@,
            ],
            ..just(v, refusal(err::EINVAL))
        }
    }
}

fn sys_exit(scheduler: &Scheduler, status_arg: u64, lines: &mut Vec<String>) -> (r: (u64, Action))
    ensures
        forall|v: KernelView|
            #![trigger exit_effect(v, status_arg)]
            v.scheduler == scheduler@ ==> {
                &&& r.0 == exit_effect(v, status_arg).value
                &&& r.1 == exit_effect(v, status_arg).action
                &&& text::texts(final(lines)@) == text::texts(old(lines)@) + exit_effect(
                    v,
                    status_arg,
                ).lines
            },
{
    let ghost before = text::texts(lines@);
    let status: u32 = (status_arg % 0x1_0000_0000) as u32;
    let mut line = String::from_str("Najm Kernel: syscall exit(status = ");
    push_decimal(&mut line, status as u64);
    line.append(") - program requested termination");
    let ghost first = line@;
    lines.push(line);
    assert(text::texts(lines@) =~= before + seq![first]);
    if task::supervisor_slot(scheduler) != 0 {
        return (0, Action::EndProgram(ProgramExit::Exited(status)));
    }
    lines.push(
        String::from_str("Najm Kernel: exit syscall with no Ring 3 program running - ignoring"),
    );
    assert(text::texts(lines@) =~= before + seq![
        first,
        "Najm Kernel: exit syscall with no Ring 3 program running - ignoring"@,
    ]);
    (encode_error(err::EINVAL), Action::Resume)
}

/// `yield_now()`: gives up the rest of this turn. Without a task there is
/// nothing to give up, and that is no failure.
pub open spec fn yield_effect(v: KernelView) -> Effect {
    let (after, switch) = task::switch_plan(
        v.scheduler,
        SwitchKind::VoluntaryFromUser,
        v.clock.ticks,
    );
    Effect {
        action: match switch {
            Some(s) => Action::Switch(s),
            None => Action::Resume,
        },
        ..just(KernelView { scheduler: after, ..v }, 0)
    }
}

// ---------------------------------------------------------------------
// The console
// ---------------------------------------------------------------------

/// How one byte is shown: as itself where it is printable, and as an
/// escape otherwise, so that a program cannot send control sequences that
/// rewrite the kernel's log.
pub open spec fn shown_byte(byte: u8) -> Seq<char> {
    if byte == 0x0A || byte == 0x09 || 0x20 <= byte <= 0x7E {
        seq![byte as char]
    } else {
        "\\x"@ + text::zero_padded(text::hexadecimal(byte as nat), 2)
    }
}

/// How a program's bytes are shown.
pub open spec fn shown_bytes(bytes: Seq<u8>) -> Seq<char>
    decreases bytes.len(),
{
    if bytes.len() == 0 {
        Seq::empty()
    } else {
        shown_bytes(bytes.drop_last()) + shown_byte(bytes.last())
    }
}

/// The line about a write from memory that is not the program's.
pub open spec fn write_rejected_line(ptr: u64, len: u64) -> Seq<char> {
    "Najm Kernel: syscall write REJECTED - buffer 0x"@ + text::hexadecimal(ptr as nat) + "..+"@
        + text::decimal(len as nat) + " is not a user-accessible mapped range"@
}

/// What copying from the caller's memory gives.
pub open spec fn copied(memory: Seq<u8>, root: int, ptr: u64, len: u64) -> Option<Seq<u8>> {
    if len > MAX_USER_TRANSFER {
        None
    } else {
        memory::user_bytes(memory, root, ptr, len)
    }
}

/// `write(fd, ptr, len)`: shows bytes on the console.
pub open spec fn write_effect(v: KernelView, root: int, descriptor: u64, ptr: u64, len: u64) -> Effect {
    if descriptor != fd::STDOUT && descriptor != fd::STDERR {
        just(v, refusal(err::EBADF))
    } else {
        match copied(v.memory, root, ptr, len) {
            None => Effect {
                lines: seq![write_rejected_line(ptr, len)],
                ..just(v, refusal(err::EFAULT))
            },
            Some(bytes) => Effect { console: shown_bytes(bytes), ..just(v, bytes.len() as u64) },
        }
    }
}

fn show_bytes(out: &mut String, bytes: &Vec<u8>)
    ensures
        final(out)@ == old(out)@ + shown_bytes(bytes@),
{
    let ghost before = out@;
    let mut i: usize = 0;
    assert(before =~= before + shown_bytes(bytes@.subrange(0, 0)));
    while i < bytes.len()
        invariant
            i <= bytes.len(),
            out@ == before + shown_bytes(bytes@.subrange(0, i as int)),
        decreases bytes.len() - i,
    {
        let byte: u8 = bytes[i];
        let ghost sofar = shown_bytes(bytes@.subrange(0, i as int));
        assert(bytes@.subrange(0, i + 1).drop_last() =~= bytes@.subrange(0, i as int));
        if byte == 0x0A || byte == 0x09 || (0x20 <= byte && byte <= 0x7E) {
            out.push(byte as char);
        } else {
            out.append("\\x");
            push_padded_hexadecimal(out, byte as u64, 2);
        }
        i += 1;
        assert(out@ =~= before + (sofar + shown_byte(byte)));
    }
    assert(bytes@.subrange(0, i as int) =~= bytes@);
}

fn sys_write(
    mem: &[u8],
    root: u64,
    descriptor: u64,
    ptr: u64,
    len: u64,
    console: &mut String,
    lines: &mut Vec<String>,
) -> (value: u64)
    requires
        root <= 0x10_0000_0000_0000,
        old(console)@.len() == 0,
    ensures
        forall|v: KernelView|
            #![trigger write_effect(v, root as int, descriptor, ptr, len)]
            v.memory == mem@ ==> {
                let effect = write_effect(v, root as int, descriptor, ptr, len);
                &&& value == effect.value
                &&& final(console)@ == effect.console
                &&& text::texts(final(lines)@) == text::texts(old(lines)@) + effect.lines
            },
{
    let ghost before = text::texts(lines@);
    assert(before + Seq::<Seq<char>>::empty() =~= before);
    assert(console@ =~= Seq::<char>::empty());
    if descriptor != fd::STDOUT && descriptor != fd::STDERR {
        return encode_error(err::EBADF);
    }
    match copy_from_user(mem, root, ptr, len) {
        None => {
            let mut line = String::from_str("Najm Kernel: syscall write REJECTED - buffer 0x");
            push_hexadecimal(&mut line, ptr);
            line.append("..+");
            push_decimal(&mut line, len);
            line.append(" is not a user-accessible mapped range");
            let ghost said = line@;
            lines.push(line);
            assert(text::texts(lines@) =~= before + seq![said]);
            encode_error(err::EFAULT)
        },
        Some(bytes) => {
            show_bytes(console, &bytes);
            assert(console@ =~= shown_bytes(bytes@));
            bytes.len() as u64
        },
    }
}

// ---------------------------------------------------------------------
// Files
// ---------------------------------------------------------------------

/// The path that a program passes, or the error it gets. Paths are refused
/// rather than repaired, in one place for every call that takes one.
pub open spec fn user_path(memory: Seq<u8>, root: int, ptr: u64, len: u64) -> Result<
    Seq<char>,
    u64,
> {
    if len == 0 || len > archive::MAX_PATH {
        Err(refusal(err::EINVAL))
    } else {
        match copied(memory, root, ptr, len) {
            None => Err(refusal(err::EFAULT)),
            Some(bytes) => if archive::valid_path(bytes) {
                Ok(text::utf8_lossy(bytes))
            } else {
                Err(refusal(err::EINVAL))
            },
        }
    }
}

fn read_user_path(mem: &[u8], root: u64, ptr: u64, len: u64) -> (r: Result<String, u64>)
    requires
        root <= 0x10_0000_0000_0000,
    ensures
        match r {
            Ok(path) => user_path(mem@, root as int, ptr, len) == Ok::<Seq<char>, u64>(path@),
            Err(e) => user_path(mem@, root as int, ptr, len) == Err::<Seq<char>, u64>(e),
        },
{
    if len == 0 || len > archive::MAX_PATH as u64 {
        return Err(encode_error(err::EINVAL));
    }
    let bytes: Vec<u8> = match copy_from_user(mem, root, ptr, len) {
        Some(bytes) => bytes,
        None => {
            return Err(encode_error(err::EFAULT));
        },
    };
    if !archive::path_is_valid(bytes.as_slice()) {
        return Err(encode_error(err::EINVAL));
    }
    Ok(text::from_utf8_lossy(bytes.as_slice()))
}

/// Whether the caller holds `right`. Without a process, it does not.
fn require(processes: &ProcessTable, current_pid: u64, right: u64) -> (r: bool)
    ensures
        r == (match process::process_of(processes@, current_pid) {
            Some(process) => process.profile.grants(right),
            None => false,
        }),
{
    match process::current_profile(processes, current_pid) {
        Some(profile) => profile.allows(right),
        None => false,
    }
}

/// The node that a path names.
pub open spec fn node_at(env: Surroundings, path: Seq<char>) -> Option<Node> {
    if fs::map_of(env.entries).dom().contains(path) {
        Some(fs::map_of(env.entries)[path])
    } else {
        None
    }
}

/// `open(path, len, flags)`: opens a file for reading. Writing is refused,
/// not downgraded.
pub open spec fn open_effect(
    v: KernelView,
    env: Surroundings,
    ptr: u64,
    len: u64,
    flags: u64,
) -> Effect {
    if !permitted(v, capability_bits::FILE_READ) {
        just(v, refusal(err::EPERM))
    } else if flags & open_flags::WRITE != 0 {
        just(v, refusal(err::ENOTSUP))
    } else {
        match user_path(v.memory, env.root, ptr, len) {
            Err(e) => just(v, e),
            Ok(path) => match node_at(env, path) {
                None => just(v, refusal(err::ENOENT)),
                Some(node) => {
                    let encoded = vstd::utf8::encode_utf8(path);
                    let files = process::files_of(v.processes, caller(v));
                    let file = process::FileView { node, position: 0, path: encoded };
                    if flags & open_flags::DIRECTORY != 0 && !node.is_directory {
                        just(v, refusal(err::ENOTSUP))
                    } else if encoded.len() > archive::MAX_PATH {
                        just(v, refusal(err::EINVAL))
                    } else {
                        just(
                            KernelView {
                                processes: process::with_files(
                                    v.processes,
                                    caller(v),
                                    process::opened(files, file),
                                ),
                                ..v
                            },
                            process::next_descriptor(files) as u64,
                        )
                    }
                },
            },
        }
    }
}

fn sys_open(
    processes: &mut ProcessTable,
    files: &FileSystem,
    current_pid: u64,
    mem: &[u8],
    root: u64,
    args: (u64, u64, u64),
) -> (value: u64)
    requires
        old(processes).wf(),
        files.wf(),
        root <= 0x10_0000_0000_0000,
        process::files_of(old(processes)@, current_pid).len() < usize::MAX,
    ensures
        final(processes).wf(),
        forall|v: KernelView, env: Surroundings|
            #![trigger open_effect(v, env, args.0, args.1, args.2)]
            v.processes == old(processes)@ && v.memory == mem@ && caller(v) == current_pid
                && env.entries == files.entries() && env.root == root ==> {
                let effect = open_effect(v, env, args.0, args.1, args.2);
                &&& value == effect.value
                &&& effect.state == (KernelView { processes: final(processes)@, ..v })
                &&& effect == just(effect.state, effect.value)
            },
{
    let ghost before = processes@;
    let (path_ptr, path_len, flags) = args;
    if !require(processes, current_pid, capability_bits::FILE_READ) {
        return encode_error(err::EPERM);
    }
    if flags & open_flags::WRITE != 0 {
        return encode_error(err::ENOTSUP);
    }
    let path: String = match read_user_path(mem, root, path_ptr, path_len) {
        Ok(path) => path,
        Err(e) => {
            return e;
        },
    };
    let node: Node = match fs::lookup(files, path.as_str()) {
        Some(node) => node,
        None => {
            return encode_error(err::ENOENT);
        },
    };
    if flags & open_flags::DIRECTORY != 0 && !node.is_directory {
        return encode_error(err::ENOTSUP);
    }
    let open: OpenFile = match OpenFile::new(node, path.as_str()) {
        Some(open) => open,
        None => {
            return encode_error(err::EINVAL);
        },
    };
    match process::open_file(processes, current_pid, open) {
        Some(descriptor) => descriptor,
        None => encode_error(err::ENOMEM),
    }
}

/// What a read gets of a file.
pub open spec fn file_bytes(archive: Seq<u8>, file: process::FileView, want: int) -> Seq<u8> {
    let got = fs::read_len(file.node, file.position as int, want, archive.len() as int);
    if got > 0 {
        archive.subrange(
            file.node.offset + file.position,
            file.node.offset + file.position + got,
        )
    } else {
        Seq::empty()
    }
}

/// `read(fd, ptr, len)`: copies on from where the last read ended. The
/// position moves only if the copy succeeded, so that a bad pointer skips
/// nothing.
pub open spec fn read_effect(
    v: KernelView,
    env: Surroundings,
    descriptor: u64,
    ptr: u64,
    len: u64,
) -> Effect {
    let files = process::files_of(v.processes, caller(v));
    if descriptor == fd::STDIN {
        just(v, 0)
    } else if descriptor == fd::STDOUT || descriptor == fd::STDERR {
        just(v, refusal(err::EBADF))
    } else {
        match process::file_at(files, descriptor) {
            None => just(v, refusal(err::EBADF)),
            Some(file) => if file.node.is_directory {
                just(v, refusal(err::ENOTSUP))
            } else {
                let want = if len < MAX_USER_TRANSFER {
                    len as int
                } else {
                    MAX_USER_TRANSFER as int
                };
                let data = file_bytes(env.archive, file, want);
                let (memory, ok) = memory::user_write(v.memory, env.root, ptr, data);
                if ok {
                    just(
                        KernelView {
                            memory,
                            processes: process::with_files(
                                v.processes,
                                caller(v),
                                files.update(
                                    descriptor as int,
                                    Some(
                                        process::FileView {
                                            position: (file.position + data.len()) as usize,
                                            ..file
                                        },
                                    ),
                                ),
                            ),
                            ..v
                        },
                        data.len() as u64,
                    )
                } else {
                    just(KernelView { memory, ..v }, refusal(err::EFAULT))
                }
            },
        }
    }
}

fn sys_read(
    processes: &mut ProcessTable,
    files: &FileSystem,
    current_pid: u64,
    mem: &mut [u8],
    root: u64,
    args: (u64, u64, u64),
) -> (value: u64)
    requires
        old(processes).wf(),
        root <= 0x10_0000_0000_0000,
    ensures
        final(processes).wf(),
        forall|v: KernelView, env: Surroundings|
            #![trigger read_effect(v, env, args.0, args.1, args.2)]
            v.processes == old(processes)@ && v.memory == old(mem)@ && caller(v) == current_pid
                && env.archive == files.archive() && env.root == root ==> {
                let effect = read_effect(v, env, args.0, args.1, args.2);
                &&& value == effect.value
                &&& effect.state == (KernelView {
                    processes: final(processes)@,
                    memory: final(mem)@,
                    ..v
                })
                &&& effect == just(effect.state, effect.value)
            },
{
    let (descriptor, ptr, len) = args;
    if descriptor == fd::STDIN {
        return 0;
    }
    if descriptor == fd::STDOUT || descriptor == fd::STDERR {
        return encode_error(err::EBADF);
    }
    let file: OpenFile = match process::get_file(processes, current_pid, descriptor) {
        Some(file) => file,
        None => {
            return encode_error(err::EBADF);
        },
    };
    if file.node.is_directory {
        return encode_error(err::ENOTSUP);
    }
    let want: usize = if len < MAX_USER_TRANSFER as u64 {
        len as usize
    } else {
        MAX_USER_TRANSFER
    };
    let mut buffer: Vec<u8> = Vec::new();
    buffer.resize(want, 0);
    let got: usize = fs::read(files, &file.node, file.position, buffer.as_mut_slice());
    assert(buffer@.len() == want);
    assert(got <= want);
    let data: &[u8] = vstd::slice::slice_subrange(buffer.as_slice(), 0, got);
    assert(data@ =~= file_bytes(files.archive(), file@, want as int));
    match copy_to_user(mem, root, ptr, data) {
        Some(written) => {
            process::set_file_position(processes, current_pid, descriptor, file.position + written);
            written as u64
        },
        None => encode_error(err::EFAULT),
    }
}

/// `close(fd)`: closes a descriptor. One that is not open is an error, not
/// a success.
pub open spec fn close_effect(v: KernelView, descriptor: u64) -> Effect {
    let files = process::files_of(v.processes, caller(v));
    if process::file_at(files, descriptor) is Some {
        just(
            KernelView {
                processes: process::with_files(
                    v.processes,
                    caller(v),
                    files.update(descriptor as int, None),
                ),
                ..v
            },
            0,
        )
    } else {
        just(v, refusal(err::EBADF))
    }
}

/// Where a seek goes, before it is held to the end of the file.
pub open spec fn seek_target(file: process::FileView, offset: u64, whence: u64) -> Option<int> {
    if whence == seek::SET {
        Some(offset as int)
    } else if whence == seek::CURRENT {
        Some(file.position + offset)
    } else if whence == seek::END {
        if offset <= file.node.len {
            Some(file.node.len - offset)
        } else {
            Some(0)
        }
    } else {
        None
    }
}

/// `seek(fd, offset, whence)`: moves a file's position, never past its
/// end.
pub open spec fn seek_effect(v: KernelView, descriptor: u64, offset: u64, whence: u64) -> Effect {
    let files = process::files_of(v.processes, caller(v));
    match process::file_at(files, descriptor) {
        None => just(v, refusal(err::EBADF)),
        Some(file) => match seek_target(file, offset, whence) {
            None => just(v, refusal(err::EINVAL)),
            Some(target) => {
                let position = if target <= file.node.len {
                    target
                } else {
                    file.node.len as int
                };
                just(
                    KernelView {
                        processes: process::with_files(
                            v.processes,
                            caller(v),
                            files.update(
                                descriptor as int,
                                Some(process::FileView { position: position as usize, ..file }),
                            ),
                        ),
                        ..v
                    },
                    position as u64,
                )
            },
        },
    }
}

fn sys_seek(
    processes: &mut ProcessTable,
    current_pid: u64,
    descriptor: u64,
    offset: u64,
    whence: u64,
) -> (value: u64)
    requires
        old(processes).wf(),
    ensures
        final(processes).wf(),
        forall|v: KernelView|
            #![trigger seek_effect(v, descriptor, offset, whence)]
            v.processes == old(processes)@ && caller(v) == current_pid ==> {
                let effect = seek_effect(v, descriptor, offset, whence);
                &&& value == effect.value
                &&& effect.state == (KernelView { processes: final(processes)@, ..v })
                &&& effect == just(effect.state, effect.value)
            },
{
    let file: OpenFile = match process::get_file(processes, current_pid, descriptor) {
        Some(file) => file,
        None => {
            return encode_error(err::EBADF);
        },
    };
    let size: u64 = file.node.size() as u64;
    let target: u64 = if whence == seek::SET {
        offset
    } else if whence == seek::CURRENT {
        (file.position as u64).saturating_add(offset)
    } else if whence == seek::END {
        size.saturating_sub(offset)
    } else {
        return encode_error(err::EINVAL);
    };
    let position: u64 = if target <= size {
        target
    } else {
        size
    };
    process::set_file_position(processes, current_pid, descriptor, position as usize);
    position
}

/// The bytes of the record that `stat` writes.
pub open spec fn file_info(node: Node) -> Seq<u8> {
    bytes::le64_bytes(node.len as u64) + bytes::le64_bytes(
        if node.is_directory {
            1u64
        } else {
            0u64
        },
    )
}

/// An effect that is a copy into the caller's memory.
pub open spec fn handed_out(v: KernelView, root: int, ptr: u64, data: Seq<u8>, value: u64) -> Effect {
    let (memory, ok) = memory::user_write(v.memory, root, ptr, data);
    just(
        KernelView { memory, ..v },
        if ok {
            value
        } else {
            refusal(err::EFAULT)
        },
    )
}

/// `stat(path, len, out)`: writes a file's size and kind.
pub open spec fn stat_effect(
    v: KernelView,
    env: Surroundings,
    ptr: u64,
    len: u64,
    out: u64,
) -> Effect {
    if !permitted(v, capability_bits::FILE_READ) {
        just(v, refusal(err::EPERM))
    } else {
        match user_path(v.memory, env.root, ptr, len) {
            Err(e) => just(v, e),
            Ok(path) => match node_at(env, path) {
                None => just(v, refusal(err::ENOENT)),
                Some(node) => handed_out(v, env.root, out, file_info(node), 0),
            },
        }
    }
}

/// Copies a record to the caller and returns `value`, or an error.
fn hand_out(mem: &mut [u8], root: u64, ptr: u64, data: &[u8], value: u64) -> (r: u64)
    requires
        root <= 0x10_0000_0000_0000,
    ensures
        forall|v: KernelView|
            #![trigger handed_out(v, root as int, ptr, data@, value)]
            v.memory == old(mem)@ ==> {
                let effect = handed_out(v, root as int, ptr, data@, value);
                &&& r == effect.value
                &&& effect.state == (KernelView { memory: final(mem)@, ..v })
            },
{
    match copy_to_user(mem, root, ptr, data) {
        Some(_) => value,
        None => encode_error(err::EFAULT),
    }
}

/// The little-endian bytes of several numbers.
fn append_u64(out: &mut Vec<u8>, value: u64)
    ensures
        final(out)@ == old(out)@ + bytes::le64_bytes(value),
{
    let mut tail: Vec<u8> = u64_le_bytes(value);
    out.append(&mut tail);
}

fn sys_stat(
    processes: &ProcessTable,
    files: &FileSystem,
    current_pid: u64,
    mem: &mut [u8],
    root: u64,
    args: (u64, u64, u64),
) -> (value: u64)
    requires
        files.wf(),
        root <= 0x10_0000_0000_0000,
    ensures
        forall|v: KernelView, env: Surroundings|
            #![trigger stat_effect(v, env, args.0, args.1, args.2)]
            v.processes == processes@ && v.memory == old(mem)@ && caller(v) == current_pid
                && env.entries == files.entries() && env.root == root ==> {
                let effect = stat_effect(v, env, args.0, args.1, args.2);
                &&& value == effect.value
                &&& effect.state == (KernelView { memory: final(mem)@, ..v })
                &&& effect == just(effect.state, effect.value)
            },
{
    let (path_ptr, path_len, out_ptr) = args;
    if !require(processes, current_pid, capability_bits::FILE_READ) {
        return encode_error(err::EPERM);
    }
    let path: String = match read_user_path(mem, root, path_ptr, path_len) {
        Ok(path) => path,
        Err(e) => {
            return e;
        },
    };
    let node: Node = match fs::lookup(files, path.as_str()) {
        Some(node) => node,
        None => {
            return encode_error(err::ENOENT);
        },
    };
    let mut record: Vec<u8> = Vec::new();
    append_u64(&mut record, node.size() as u64);
    append_u64(
        &mut record,
        if node.is_directory {
            1
        } else {
            0
        },
    );
    assert(record@ =~= file_info(node));
    hand_out(mem, root, out_ptr, record.as_slice(), 0)
}

/// The names of a directory's children, each with a zero byte behind it,
/// as many whole ones as fit.
pub open spec fn packed_names(
    children: Seq<Seq<char>>,
    i: int,
    out: Seq<u8>,
    room: int,
) -> Seq<u8>
    decreases children.len() - i,
{
    if i < 0 || i >= children.len() {
        out
    } else {
        let name = archive::final_component(vstd::utf8::encode_utf8(children[i]));
        if out.len() + name.len() + 1 > room {
            out
        } else {
            packed_names(children, i + 1, (out + name).push(0), room)
        }
    }
}

/// `readdir(fd, buf, len)`: writes the names of a directory's children. A
/// name is never cut short.
pub open spec fn readdir_effect(
    v: KernelView,
    env: Surroundings,
    descriptor: u64,
    ptr: u64,
    len: u64,
) -> Effect {
    match process::file_at(process::files_of(v.processes, caller(v)), descriptor) {
        None => just(v, refusal(err::EBADF)),
        Some(file) => if !file.node.is_directory {
            just(v, refusal(err::ENOTSUP))
        } else {
            let path = vstd::utf8::decode_utf8(file.path);
            match node_at(env, path) {
                Some(node) if node.is_directory => {
                    let names = packed_names(
                        fs::children_of(env.entries, path),
                        0,
                        Seq::empty(),
                        len as int,
                    );
                    handed_out(v, env.root, ptr, names, names.len() as u64)
                },
                _ => just(v, refusal(err::ENOENT)),
            }
        },
    }
}

fn pack_names(children: &Vec<String>, room: u64) -> (out: Vec<u8>)
    ensures
        out@ == packed_names(text::texts(children@), 0, Seq::empty(), room as int),
{
    let ghost all = text::texts(children@);
    let mut out: Vec<u8> = Vec::new();
    assert(out@ =~= Seq::<u8>::empty());
    let mut i: usize = 0;
    while i < children.len()
        invariant
            i <= children.len(),
            all == text::texts(children@),
            out@.len() <= room,
            packed_names(all, 0, Seq::empty(), room as int) == packed_names(
                all,
                i as int,
                out@,
                room as int,
            ),
        decreases children.len() - i,
    {
        let child: &str = children[i].as_str();
        let name: &[u8] = archive::basename(child.as_bytes());
        assert(name@ == archive::final_component(vstd::utf8::encode_utf8(all[i as int])));
        if name.len() as u64 >= room - out.len() as u64 {
            return out;
        }
        let ghost before = out@;
        let mut k: usize = 0;
        while k < name.len()
            invariant
                k <= name.len(),
                out@ == before + name@.subrange(0, k as int),
            decreases name.len() - k,
        {
            out.push(name[k]);
            k += 1;
            assert(out@ =~= before + name@.subrange(0, k as int));
        }
        assert(name@.subrange(0, k as int) =~= name@);
        out.push(0);
        i += 1;
    }
    out
}

fn sys_readdir(
    processes: &ProcessTable,
    files: &FileSystem,
    current_pid: u64,
    mem: &mut [u8],
    root: u64,
    args: (u64, u64, u64),
) -> (value: u64)
    requires
        processes.wf(),
        files.wf(),
        root <= 0x10_0000_0000_0000,
    ensures
        forall|v: KernelView, env: Surroundings|
            #![trigger readdir_effect(v, env, args.0, args.1, args.2)]
            v.processes == processes@ && v.memory == old(mem)@ && caller(v) == current_pid
                && env.entries == files.entries() && env.root == root ==> {
                let effect = readdir_effect(v, env, args.0, args.1, args.2);
                &&& value == effect.value
                &&& effect.state == (KernelView { memory: final(mem)@, ..v })
                &&& effect == just(effect.state, effect.value)
            },
{
    let (descriptor, buf_ptr, buf_len) = args;
    let file: OpenFile = match process::get_file(processes, current_pid, descriptor) {
        Some(file) => file,
        None => {
            return encode_error(err::EBADF);
        },
    };
    if !file.node.is_directory {
        return encode_error(err::ENOTSUP);
    }
    let path: &str = file.path();
    proof {
        vstd::utf8::encode_utf8_decode_utf8(path@);
    }
    let children: Vec<String> = match fs::read_dir(files, path) {
        Some(children) => children,
        None => {
            return encode_error(err::ENOENT);
        },
    };
    let names: Vec<u8> = pack_names(&children, buf_len);
    let len: u64 = names.len() as u64;
    hand_out(mem, root, buf_ptr, names.as_slice(), len)
}

// ---------------------------------------------------------------------
// Surfaces, input and identity
// ---------------------------------------------------------------------

/// How a Realm's surfaces occupy the screen. The Realm decides, not the
/// program.
pub open spec fn surface_mode(profile: RealmProfile) -> SurfaceMode {
    if profile.grants(capability_bits::EXCLUSIVE_SCANOUT) {
        SurfaceMode::Fullscreen
    } else {
        SurfaceMode::Windowed
    }
}

/// `surface_create(width, height)`: gives the caller something to draw on.
pub open spec fn surface_create_effect(v: KernelView, width: u64, height: u64) -> Effect {
    if !permitted(v, capability_bits::SURFACE_CREATE) {
        just(v, refusal(err::EPERM))
    } else {
        let profile = profile_of(v).unwrap();
        let (compositor, id) = compositor::created(
            v.compositor,
            caller(v),
            profile.kind,
            profile.name@,
            width as int,
            height as int,
            surface_mode(profile),
        );
        just(
            KernelView { compositor, ..v },
            match id {
                Some(id) => id,
                None => refusal(err::ENOMEM),
            },
        )
    }
}

/// A length as the machine has it; one that is too large for that is too
/// large for anything else as well.
fn machine_size(n: u64) -> (size: usize)
    ensures
        size == (if n <= usize::MAX {
            n as int
        } else {
            usize::MAX as int
        }),
{
    if n <= usize::MAX as u64 {
        n as usize
    } else {
        usize::MAX
    }
}

fn sys_surface_create(
    compositor: &mut Compositor,
    processes: &ProcessTable,
    current_pid: u64,
    width: u64,
    height: u64,
) -> (value: u64)
    requires
        old(compositor).wf(),
        old(compositor)@.next_surface_id < u64::MAX,
    ensures
        final(compositor).wf(),
        forall|v: KernelView|
            #![trigger surface_create_effect(v, width, height)]
            v.processes == processes@ && v.compositor == old(compositor)@ && caller(v)
                == current_pid ==> {
                let effect = surface_create_effect(v, width, height);
                &&& value == effect.value
                &&& effect.state == (KernelView { compositor: final(compositor)@, ..v })
                &&& effect == just(effect.state, effect.value)
            },
{
    let profile: RealmProfile = match process::current_profile(processes, current_pid) {
        Some(profile) => profile,
        None => {
            return encode_error(err::EPERM);
        },
    };
    if !profile.allows(capability_bits::SURFACE_CREATE) {
        return encode_error(err::EPERM);
    }
    let mode: SurfaceMode = if profile.allows(capability_bits::EXCLUSIVE_SCANOUT) {
        SurfaceMode::Fullscreen
    } else {
        SurfaceMode::Windowed
    };
    let w: usize = machine_size(width);
    let h: usize = machine_size(height);
    proof {
        if let Some(fb) = compositor@.framebuffer {
            let n = compositor@.surfaces.len() as int;
            assert(compositor::placement(fb, n, w as int, h as int, mode) == compositor::placement(
                fb,
                n,
                width as int,
                height as int,
                mode,
            ));
        }
    }
    match compositor::create_surface(
        compositor,
        current_pid,
        profile.kind,
        profile.name,
        w,
        h,
        mode,
    ) {
        Some(id) => id,
        None => encode_error(err::ENOMEM),
    }
}

/// `surface_commit(id, pixels, len)`: hands a finished frame over. Someone
/// else's surface is no surface.
pub open spec fn surface_commit_effect(
    v: KernelView,
    env: Surroundings,
    id: u64,
    ptr: u64,
    len: u64,
) -> Effect {
    if caller(v) == 0 {
        just(v, refusal(err::EPERM))
    } else {
        match compositor::geometry(v.compositor.surfaces, id, caller(v)) {
            None => just(v, refusal(err::EBADF)),
            Some(size) => if len != size.0 * size.1 * 4 {
                just(v, refusal(err::EINVAL))
            } else {
                let (changed, ok) = compositor::committed(
                    v.compositor,
                    v.memory,
                    env.root,
                    id,
                    caller(v),
                    ptr,
                    len as int,
                );
                if ok {
                    let (shown, screen) = compositor::presented_throttled(
                        changed,
                        v.screen,
                        env.font,
                        v.input.pointer,
                        v.clock.ticks,
                    );
                    just(KernelView { compositor: shown, screen, ..v }, 0)
                } else {
                    just(KernelView { compositor: changed, ..v }, refusal(err::EFAULT))
                }
            },
        }
    }
}

/// What a system call needs to draw with.
struct Display<'a> {
    font: &'a Font,
    pointer: (u64, u64),
    now: u64,
}

fn sys_surface_commit(
    compositor: &mut Compositor,
    screen: &mut [u8],
    display: Display,
    current_pid: u64,
    mem: &[u8],
    root: u64,
    args: (u64, u64, u64),
) -> (value: u64)
    requires
        old(compositor).wf(),
        old(compositor)@.rejected_commits < u64::MAX,
        compositor::can_present(old(compositor)@, old(screen)@),
        root <= 0x10_0000_0000_0000,
    ensures
        final(compositor).wf(),
        forall|v: KernelView, env: Surroundings|
            #![trigger surface_commit_effect(v, env, args.0, args.1, args.2)]
            v.compositor == old(compositor)@ && v.screen == old(screen)@ && v.memory == mem@
                && caller(v) == current_pid && v.input.pointer == display.pointer && v.clock.ticks
                == display.now && env.root == root && env.font == *display.font ==> {
                let effect = surface_commit_effect(v, env, args.0, args.1, args.2);
                &&& value == effect.value
                &&& effect.state == (KernelView {
                    compositor: final(compositor)@,
                    screen: final(screen)@,
                    ..v
                })
                &&& effect == just(effect.state, effect.value)
            },
{
    let (id, pixels_ptr, len) = args;
    if current_pid == 0 {
        return encode_error(err::EPERM);
    }
    let (width, height) = match compositor::surface_geometry(compositor, id, current_pid) {
        Some(size) => size,
        None => {
            return encode_error(err::EBADF);
        },
    };
    let pixels: usize = width * height;
    let expected: usize = pixels * 4;
    if len != expected as u64 {
        return encode_error(err::EINVAL);
    }
    if !compositor::commit_surface_from_user(
        compositor,
        mem,
        root,
        id,
        current_pid,
        pixels_ptr,
        expected,
    ) {
        return encode_error(err::EFAULT);
    }
    compositor::present_throttled(
        compositor,
        screen,
        display.font,
        display.pointer,
        display.now,
    );
    0
}

/// The bytes of the record that `surface_info` writes.
pub open spec fn surface_record(width: usize, height: usize) -> Seq<u8> {
    bytes::le64_bytes(width as u64) + bytes::le64_bytes(height as u64) + bytes::le64_bytes(
        (width * 4) as u64,
    ) + bytes::le64_bytes(4)
}

/// `surface_info(id, out)`: writes a surface's geometry, for its owner.
pub open spec fn surface_info_effect(v: KernelView, env: Surroundings, id: u64, out: u64) -> Effect {
    match compositor::geometry(v.compositor.surfaces, id, caller(v)) {
        None => just(v, refusal(err::EBADF)),
        Some(size) => handed_out(v, env.root, out, surface_record(size.0, size.1), 0),
    }
}

fn sys_surface_info(
    compositor: &Compositor,
    current_pid: u64,
    mem: &mut [u8],
    root: u64,
    id: u64,
    out_ptr: u64,
) -> (value: u64)
    requires
        compositor.wf(),
        root <= 0x10_0000_0000_0000,
    ensures
        forall|v: KernelView, env: Surroundings|
            #![trigger surface_info_effect(v, env, id, out_ptr)]
            v.compositor == compositor@ && v.memory == old(mem)@ && caller(v) == current_pid
                && env.root == root ==> {
                let effect = surface_info_effect(v, env, id, out_ptr);
                &&& value == effect.value
                &&& effect.state == (KernelView { memory: final(mem)@, ..v })
                &&& effect == just(effect.state, effect.value)
            },
{
    let (width, height) = match compositor::surface_geometry(compositor, id, current_pid) {
        Some(size) => size,
        None => {
            return encode_error(err::EBADF);
        },
    };
    proof {
        assert(width <= width * height) by (nonlinear_arith)
            requires
                0 < height,
                0 <= width,
        ;
    }
    let mut record: Vec<u8> = Vec::new();
    append_u64(&mut record, width as u64);
    append_u64(&mut record, height as u64);
    append_u64(&mut record, (width * 4) as u64);
    append_u64(&mut record, 4);
    assert(record@ =~= surface_record(width, height));
    hand_out(mem, root, out_ptr, record.as_slice(), 0)
}

/// The bytes of input events.
pub open spec fn event_records(events: Seq<InputEvent>) -> Seq<u8>
    decreases events.len(),
{
    if events.len() == 0 {
        Seq::empty()
    } else {
        let e = events.last();
        event_records(events.drop_last()) + (bytes::le64_bytes(e.kind) + bytes::le64_bytes(e.code)
            + bytes::le64_bytes(e.x) + bytes::le64_bytes(e.y))
    }
}

/// The most events that one call delivers.
pub const MAX_EVENTS: u64 = 64;

/// `input_poll(out, max)`: delivers events and takes them off the queue,
/// even if the destination turns out to be bad.
pub open spec fn input_poll_effect(v: KernelView, env: Surroundings, out: u64, max: u64) -> Effect {
    let wanted = if max < MAX_EVENTS {
        max
    } else {
        MAX_EVENTS
    };
    let count = if wanted < v.input.queue.len() {
        wanted as int
    } else {
        v.input.queue.len() as int
    };
    if !permitted(v, capability_bits::INPUT_READ) {
        just(v, refusal(err::EPERM))
    } else if count == 0 {
        just(v, 0)
    } else {
        let taken = KernelView {
            input: input::InputView { queue: v.input.queue.skip(count), ..v.input },
            ..v
        };
        handed_out(
            taken,
            env.root,
            out,
            event_records(v.input.queue.take(count)),
            count as u64,
        )
    }
}

fn sys_input_poll(
    input: &mut Input,
    processes: &ProcessTable,
    current_pid: u64,
    mem: &mut [u8],
    root: u64,
    out_ptr: u64,
    max_events: u64,
) -> (value: u64)
    requires
        old(input).wf(),
        root <= 0x10_0000_0000_0000,
    ensures
        final(input).wf(),
        forall|v: KernelView, env: Surroundings|
            #![trigger input_poll_effect(v, env, out_ptr, max_events)]
            v.processes == processes@ && v.input == old(input)@ && v.memory == old(mem)@ && caller(
                v,
            ) == current_pid && env.root == root ==> {
                let effect = input_poll_effect(v, env, out_ptr, max_events);
                &&& value == effect.value
                &&& effect.state == (KernelView { input: final(input)@, memory: final(mem)@, ..v })
                &&& effect == just(effect.state, effect.value)
            },
{
    if !require(processes, current_pid, capability_bits::INPUT_READ) {
        return encode_error(err::EPERM);
    }
    let wanted: usize = if max_events < MAX_EVENTS {
        max_events as usize
    } else {
        MAX_EVENTS as usize
    };
    if wanted == 0 {
        return 0;
    }
    let ghost queue = input@.queue;
    let none = InputEvent { kind: 0, code: 0, x: 0, y: 0 };
    let mut events: Vec<InputEvent> = Vec::new();
    let mut i: usize = 0;
    while i < wanted
        invariant
            i <= wanted,
            events@.len() == i,
        decreases wanted - i,
    {
        events.push(none);
        i += 1;
    }
    let count: usize = input::poll(input, events.as_mut_slice());
    if count == 0 {
        assert(queue.skip(0) =~= queue);
        return 0;
    }
    let mut record: Vec<u8> = Vec::new();
    let mut k: usize = 0;
    assert(record@ =~= event_records(queue.take(0)));
    while k < count
        invariant
            k <= count <= events@.len(),
            count <= queue.len(),
            forall|j: int| 0 <= j < count ==> events@[j] == queue[j],
            record@ == event_records(queue.take(k as int)),
        decreases count - k,
    {
        let event: InputEvent = events[k];
        let ghost before = record@;
        append_u64(&mut record, event.kind);
        append_u64(&mut record, event.code);
        append_u64(&mut record, event.x);
        append_u64(&mut record, event.y);
        assert(queue.take(k + 1).drop_last() =~= queue.take(k as int));
        k += 1;
        assert(record@ =~= event_records(queue.take(k as int)));
    }
    hand_out(mem, root, out_ptr, record.as_slice(), count as u64)
}

/// The bytes of the record that `realm_info` writes.
pub open spec fn realm_record(profile: RealmProfile, pid: u64) -> Seq<u8> {
    bytes::le64_bytes(profile.kind) + bytes::le64_bytes(pid) + bytes::le64_bytes(
        profile.capabilities,
    )
}

/// `realm_info(out)`: tells the caller what it is allowed to attempt.
pub open spec fn realm_info_effect(v: KernelView, env: Surroundings, out: u64) -> Effect {
    match profile_of(v) {
        None => just(v, refusal(err::EPERM)),
        Some(profile) => handed_out(v, env.root, out, realm_record(profile, caller(v)), 0),
    }
}

fn sys_realm_info(
    processes: &ProcessTable,
    current_pid: u64,
    mem: &mut [u8],
    root: u64,
    out_ptr: u64,
) -> (value: u64)
    requires
        root <= 0x10_0000_0000_0000,
    ensures
        forall|v: KernelView, env: Surroundings|
            #![trigger realm_info_effect(v, env, out_ptr)]
            v.processes == processes@ && v.memory == old(mem)@ && caller(v) == current_pid
                && env.root == root ==> {
                let effect = realm_info_effect(v, env, out_ptr);
                &&& value == effect.value
                &&& effect.state == (KernelView { memory: final(mem)@, ..v })
                &&& effect == just(effect.state, effect.value)
            },
{
    let profile: RealmProfile = match process::current_profile(processes, current_pid) {
        Some(profile) => profile,
        None => {
            return encode_error(err::EPERM);
        },
    };
    let mut record: Vec<u8> = Vec::new();
    append_u64(&mut record, profile.kind);
    append_u64(&mut record, current_pid);
    append_u64(&mut record, profile.capabilities);
    assert(record@ =~= realm_record(profile, current_pid));
    hand_out(mem, root, out_ptr, record.as_slice(), 0)
}

// ---------------------------------------------------------------------
// The dispatcher
// ---------------------------------------------------------------------

/// The line about a number that names no system call.
pub open spec fn unknown_line(number: u64, a: u64, b: u64, c: u64) -> Seq<char> {
    "Najm Kernel: unknown syscall number 0x"@ + text::hexadecimal(number as nat) + " (args 0x"@
        + text::hexadecimal(a as nat) + ", 0x"@ + text::hexadecimal(b as nat) + ", 0x"@
        + text::hexadecimal(c as nat) + ")"@
}

/// What a system call does.
pub open spec fn call_effect(
    v: KernelView,
    env: Surroundings,
    number: u64,
    a: u64,
    b: u64,
    c: u64,
) -> Effect {
    if number == sys::EXIT {
        exit_effect(v, a)
    } else if number == sys::YIELD {
        yield_effect(v)
    } else if number == sys::WRITE {
        write_effect(v, env.root, a, b, c)
    } else if number == sys::TICKS {
        just(v, v.clock.ticks)
    } else if number == sys::UPTIME_MS {
        just(v, (v.clock.ticks * 10) as u64)
    } else if number == sys::GETPID {
        just(v, caller(v))
    } else if number == sys::OPEN {
        open_effect(v, env, a, b, c)
    } else if number == sys::READ {
        read_effect(v, env, a, b, c)
    } else if number == sys::CLOSE {
        close_effect(v, a)
    } else if number == sys::SEEK {
        seek_effect(v, a, b, c)
    } else if number == sys::STAT {
        stat_effect(v, env, a, b, c)
    } else if number == sys::READDIR {
        readdir_effect(v, env, a, b, c)
    } else if number == sys::SURFACE_CREATE {
        surface_create_effect(v, a, b)
    } else if number == sys::SURFACE_COMMIT {
        surface_commit_effect(v, env, a, b, c)
    } else if number == sys::SURFACE_INFO {
        surface_info_effect(v, env, a, b)
    } else if number == sys::INPUT_POLL {
        input_poll_effect(v, env, a, b)
    } else if number == sys::REALM_INFO {
        realm_info_effect(v, env, a)
    } else {
        Effect {
            lines: seq![unknown_line(number, a, b, c)],
            ..just(v, refusal(err::ENOSYS))
        }
    }
}

/// The state when the dispatcher has counted a call and looked at its
/// stack.
pub open spec fn entered(v: KernelView, rsp: u64) -> KernelView {
    KernelView {
        calls: if v.calls == u64::MAX {
            0
        } else {
            (v.calls + 1) as u64
        },
        alignment_reported: true,
        tests: if v.alignment_reported {
            v.tests
        } else {
            selftest::counted(v.tests, rsp % 16 == 0)
        },
        ..v
    }
}

/// What the dispatcher logs before the call itself.
pub open spec fn entry_lines(v: KernelView, rsp: u64) -> Seq<Seq<char>> {
    if v.alignment_reported {
        Seq::empty()
    } else {
        seq![alignment_line(rsp)]
    }
}

/// Decides what a system call does. The value is what the program
/// receives, unless the call ended it.
#[verifier::spinoff_prover]
#[verifier::rlimit(60)]
pub fn dispatch(
    kernel: &mut Kernel,
    mem: &mut [u8],
    screen: &mut [u8],
    font: &Font,
    root: u64,
    number: u64,
    args: (u64, u64, u64),
    rsp_at_call: u64,
) -> (reply: Reply)
    requires
        kernel_is_ready(*old(kernel), old(screen)@),
        root <= 0x10_0000_0000_0000,
    ensures
        ({
            let before = state_of(*old(kernel), old(mem)@, old(screen)@);
            let env = Surroundings {
                entries: old(kernel).files.entries(),
                archive: old(kernel).files.archive(),
                root: root as int,
                font: *font,
            };
            let effect = call_effect(
                entered(before, rsp_at_call),
                env,
                number,
                args.0,
                args.1,
                args.2,
            );
            &&& state_of(*final(kernel), final(mem)@, final(screen)@) == effect.state
            &&& reply.value == effect.value
            &&& reply.action == effect.action
            &&& reply.console@ == effect.console
            &&& text::texts(reply.lines@) == entry_lines(before, rsp_at_call) + effect.lines
        }),
        final(kernel).files == old(kernel).files,
        final(kernel).processes.wf(),
        final(kernel).compositor.wf(),
        final(kernel).input.wf(),
        final(kernel).scheduler.wf(),
{
    let ghost before = state_of(*kernel, mem@, screen@);
    let ghost env = Surroundings {
        entries: kernel.files.entries(),
        archive: kernel.files.archive(),
        root: root as int,
        font: *font,
    };
    let mut lines: Vec<String> = Vec::new();
    let mut console = String::new();
    let mut action: Action = Action::Resume;
    assert(console@ =~= Seq::<char>::empty());
    assert(text::texts(lines@) =~= Seq::<Seq<char>>::empty());
    match check_stack_alignment(&mut kernel.alignment_reported, &mut kernel.tests, rsp_at_call) {
        Some(line) => {
            let ghost said = line@;
            lines.push(line);
            assert(text::texts(lines@) =~= seq![said]);
        },
        None => {},
    }
    kernel.calls = kernel.calls.wrapping_add(1);
    let ghost v = state_of(*kernel, mem@, screen@);
    assert(v == entered(before, rsp_at_call));
    let ghost said = text::texts(lines@);
    assert(said == entry_lines(before, rsp_at_call));
    assert(said + Seq::<Seq<char>>::empty() =~= said);
    let ghost effect = call_effect(v, env, number, args.0, args.1, args.2);
    let pid: u64 = task::current_pid(&kernel.scheduler);
    assert(pid == caller(v));
    let value: u64 = if number == sys::EXIT {
        let (value, ending) = sys_exit(&kernel.scheduler, args.0, &mut lines);
        assert(exit_effect(v, args.0) == effect);
        action = ending;
        value
    } else if number == sys::YIELD {
        match task::yield_from_syscall(&mut kernel.scheduler, kernel.clock.ticks) {
            Some(switch) => {
                action = Action::Switch(switch);
            },
            None => {},
        }
        0
    } else if number == sys::WRITE {
        assert(write_effect(v, root as int, args.0, args.1, args.2) == effect);
        sys_write(mem, root, args.0, args.1, args.2, &mut console, &mut lines)
    } else if number == sys::TICKS {
        interrupts::timer_ticks(&kernel.clock)
    } else if number == sys::UPTIME_MS {
        interrupts::uptime_ms(&kernel.clock)
    } else if number == sys::GETPID {
        pid
    } else if number == sys::OPEN {
        assert(open_effect(v, env, args.0, args.1, args.2) == effect);
        sys_open(&mut kernel.processes, &kernel.files, pid, mem, root, args)
    } else if number == sys::READ {
        assert(read_effect(v, env, args.0, args.1, args.2) == effect);
        sys_read(&mut kernel.processes, &kernel.files, pid, mem, root, args)
    } else if number == sys::CLOSE {
        if process::close_file(&mut kernel.processes, pid, args.0) {
            0
        } else {
            encode_error(err::EBADF)
        }
    } else if number == sys::SEEK {
        assert(seek_effect(v, args.0, args.1, args.2) == effect);
        sys_seek(&mut kernel.processes, pid, args.0, args.1, args.2)
    } else if number == sys::STAT {
        assert(stat_effect(v, env, args.0, args.1, args.2) == effect);
        sys_stat(&kernel.processes, &kernel.files, pid, mem, root, args)
    } else if number == sys::READDIR {
        assert(readdir_effect(v, env, args.0, args.1, args.2) == effect);
        sys_readdir(&kernel.processes, &kernel.files, pid, mem, root, args)
    } else if number == sys::SURFACE_CREATE {
        assert(surface_create_effect(v, args.0, args.1) == effect);
        sys_surface_create(&mut kernel.compositor, &kernel.processes, pid, args.0, args.1)
    } else if number == sys::SURFACE_COMMIT {
        assert(surface_commit_effect(v, env, args.0, args.1, args.2) == effect);
        let display = Display {
            font,
            pointer: input::pointer_position(&kernel.input),
            now: kernel.clock.ticks,
        };
        sys_surface_commit(&mut kernel.compositor, screen, display, pid, mem, root, args)
    } else if number == sys::SURFACE_INFO {
        assert(surface_info_effect(v, env, args.0, args.1) == effect);
        sys_surface_info(&kernel.compositor, pid, mem, root, args.0, args.1)
    } else if number == sys::INPUT_POLL {
        assert(input_poll_effect(v, env, args.0, args.1) == effect);
        sys_input_poll(&mut kernel.input, &kernel.processes, pid, mem, root, args.0, args.1)
    } else if number == sys::REALM_INFO {
        assert(realm_info_effect(v, env, args.0) == effect);
        sys_realm_info(&kernel.processes, pid, mem, root, args.0)
    } else {
        let mut line = String::from_str("Najm Kernel: unknown syscall number 0x");
        push_hexadecimal(&mut line, number);
        line.append(" (args 0x");
        push_hexadecimal(&mut line, args.0);
        line.append(", 0x");
        push_hexadecimal(&mut line, args.1);
        line.append(", 0x");
        push_hexadecimal(&mut line, args.2);
        line.append(")");
        let ghost unknown = line@;
        lines.push(line);
        assert(text::texts(lines@) =~= said + seq![unknown]);
        encode_error(err::ENOSYS)
    };
    assert(state_of(*kernel, mem@, screen@) == effect.state);
    Reply { value, action, console, lines }
}

// ---------------------------------------------------------------------
// Laws
// ---------------------------------------------------------------------

/// Whether a number names a call that the kernel answers.
pub open spec fn is_answered(number: u64) -> bool {
    ||| number == sys::EXIT || number == sys::YIELD || number == sys::GETPID
    ||| number == sys::WRITE || number == sys::READ || number == sys::OPEN || number == sys::CLOSE
    ||| number == sys::SEEK || number == sys::READDIR || number == sys::STAT
    ||| number == sys::REALM_INFO || number == sys::TICKS || number == sys::UPTIME_MS
    ||| number == sys::SURFACE_CREATE || number == sys::SURFACE_COMMIT || number
        == sys::SURFACE_INFO || number == sys::INPUT_POLL
}

/// A number that names no system call is refused, and changes nothing.
pub proof fn law_unknown_calls_do_nothing(
    v: KernelView,
    env: Surroundings,
    number: u64,
    a: u64,
    b: u64,
    c: u64,
)
    requires
        !is_answered(number),
    ensures
        call_effect(v, env, number, a, b, c).state == v,
        call_effect(v, env, number, a, b, c).value == refusal(err::ENOSYS),
        call_effect(v, env, number, a, b, c).action == Action::Resume,
{
}

/// Without a process there are no rights: whatever needs one is refused,
/// and changes nothing.
pub proof fn law_no_process_means_no_rights(
    v: KernelView,
    env: Surroundings,
    number: u64,
    a: u64,
    b: u64,
    c: u64,
)
    requires
        process::process_of(v.processes, caller(v)) is None,
        number == sys::OPEN || number == sys::STAT || number == sys::SURFACE_CREATE || number
            == sys::INPUT_POLL || number == sys::REALM_INFO,
    ensures
        call_effect(v, env, number, a, b, c) == just(v, refusal(err::EPERM)),
{
}

/// A process without the right that a call needs gets nothing from it,
/// whatever it passes: no file is opened or described, no surface made and
/// no event delivered.
pub proof fn law_missing_rights_are_enforced(
    v: KernelView,
    env: Surroundings,
    a: u64,
    b: u64,
    c: u64,
)
    ensures
        !permitted(v, capability_bits::FILE_READ) ==> call_effect(v, env, sys::OPEN, a, b, c)
            == just(v, refusal(err::EPERM)) && call_effect(v, env, sys::STAT, a, b, c) == just(
            v,
            refusal(err::EPERM),
        ),
        !permitted(v, capability_bits::SURFACE_CREATE) ==> call_effect(
            v,
            env,
            sys::SURFACE_CREATE,
            a,
            b,
            c,
        ) == just(v, refusal(err::EPERM)),
        !permitted(v, capability_bits::INPUT_READ) ==> call_effect(
            v,
            env,
            sys::INPUT_POLL,
            a,
            b,
            c,
        ) == just(v, refusal(err::EPERM)),
{
}

/// A seek never goes past the end of the file.
pub proof fn law_seek_stays_in_the_file(
    v: KernelView,
    env: Surroundings,
    descriptor: u64,
    offset: u64,
    whence: u64,
)
    requires
        process::process_of(v.processes, caller(v)) is Some,
    ensures
        ({
            let effect = call_effect(v, env, sys::SEEK, descriptor, offset, whence);
            let before = process::file_at(
                process::files_of(v.processes, caller(v)),
                descriptor,
            );
            let after = process::file_at(
                process::files_of(effect.state.processes, caller(v)),
                descriptor,
            );
            before is Some && whence <= seek::END ==> {
                &&& after is Some
                &&& after.unwrap().position <= before.unwrap().node.len
                &&& effect.value == after.unwrap().position
            }
        }),
{
}

/// A read whose destination is bad does not move the file's position: the
/// next read starts where this one would have.
pub proof fn law_failed_read_skips_nothing(
    v: KernelView,
    env: Surroundings,
    descriptor: u64,
    ptr: u64,
    len: u64,
)
    requires
        call_effect(v, env, sys::READ, descriptor, ptr, len).value == refusal(err::EFAULT),
    ensures
        call_effect(v, env, sys::READ, descriptor, ptr, len).state.processes == v.processes,
{
    let file = process::file_at(process::files_of(v.processes, caller(v)), descriptor);
    if descriptor > fd::STDERR && file is Some && !file.unwrap().node.is_directory {
        let want = if len < MAX_USER_TRANSFER {
            len as int
        } else {
            MAX_USER_TRANSFER as int
        };
        let data = file_bytes(env.archive, file.unwrap(), want);
        assert(data.len() <= MAX_USER_TRANSFER);
    }
}

/// Two reads in a row, both successful, hand out a file's bytes without a
/// gap or an overlap: each hands out the bytes at the file's position, and
/// the second starts where the first ended.
pub proof fn law_reads_follow_each_other(
    v: KernelView,
    env: Surroundings,
    descriptor: u64,
    ptr: u64,
    len: u64,
)
    requires
        process::process_of(v.processes, caller(v)) is Some,
        descriptor > fd::STDERR,
        call_effect(v, env, sys::READ, descriptor, ptr, len).value <= MAX_USER_TRANSFER,
    ensures
        ({
            let effect = call_effect(v, env, sys::READ, descriptor, ptr, len);
            let before = process::file_at(
                process::files_of(v.processes, caller(v)),
                descriptor,
            );
            let after = process::file_at(
                process::files_of(effect.state.processes, caller(v)),
                descriptor,
            );
            &&& before is Some && after is Some
            &&& after.unwrap().node == before.unwrap().node
            &&& after.unwrap().position == before.unwrap().position + effect.value
            &&& memory::user_write(
                v.memory,
                env.root,
                ptr,
                file_bytes(env.archive, before.unwrap(), effect.value as int),
            ) == (effect.state.memory, true)
        }),
{
    let file = process::file_at(process::files_of(v.processes, caller(v)), descriptor);
    if file is Some && !file.unwrap().node.is_directory {
        let want = if len < MAX_USER_TRANSFER {
            len as int
        } else {
            MAX_USER_TRANSFER as int
        };
        let data = file_bytes(env.archive, file.unwrap(), want);
        assert(data.len() <= want);
        assert(file.unwrap().position + data.len() <= usize::MAX);
    }
}

/// A closed descriptor is closed: closing it again is an error.
pub proof fn law_double_close_is_an_error(v: KernelView, env: Surroundings, descriptor: u64)
    requires
        process::process_of(v.processes, caller(v)) is Some,
    ensures
        ({
            let once = call_effect(v, env, sys::CLOSE, descriptor, 0, 0);
            call_effect(once.state, env, sys::CLOSE, descriptor, 0, 0).value == refusal(err::EBADF)
        }),
{
}

/// Whether `after` is memory as it was, or with one range changed that the
/// program could have written itself.
pub open spec fn is_write_by_program(before: Seq<u8>, root: int, after: Seq<u8>) -> bool {
    after == before || exists|ptr: u64, data: Seq<u8>|
        data.len() <= u64::MAX && crate::mm::address_space::range_permits(
            before,
            root,
            ptr,
            data.len() as u64,
            true,
        ) && after == #[trigger] memory::user_write(before, root, ptr, data).0
}

proof fn lemma_written_by_program(before: Seq<u8>, root: int, ptr: u64, data: Seq<u8>)
    requires
        data.len() <= u64::MAX,
    ensures
        is_write_by_program(before, root, memory::user_write(before, root, ptr, data).0),
{
}

proof fn lemma_packed_names_fit(children: Seq<Seq<char>>, i: int, out: Seq<u8>, room: int)
    requires
        out.len() <= room,
    ensures
        packed_names(children, i, out, room).len() <= room,
    decreases children.len() - i,
{
    if 0 <= i < children.len() {
        let name = archive::final_component(vstd::utf8::encode_utf8(children[i]));
        if out.len() + name.len() + 1 <= room {
            lemma_packed_names_fit(children, i + 1, (out + name).push(0), room);
        }
    }
}

proof fn lemma_event_records_len(events: Seq<InputEvent>)
    ensures
        event_records(events).len() == 32 * events.len(),
    decreases events.len(),
{
    if events.len() > 0 {
        lemma_event_records_len(events.drop_last());
    }
}

proof fn lemma_handed_out_by_program(
    v: KernelView,
    root: int,
    ptr: u64,
    data: Seq<u8>,
    value: u64,
)
    requires
        data.len() <= u64::MAX,
    ensures
        is_write_by_program(v.memory, root, handed_out(v, root, ptr, data, value).state.memory),
{
    lemma_written_by_program(v.memory, root, ptr, data);
}

proof fn lemma_read_writes_as_program(
    v: KernelView,
    env: Surroundings,
    descriptor: u64,
    ptr: u64,
    len: u64,
)
    ensures
        is_write_by_program(
            v.memory,
            env.root,
            read_effect(v, env, descriptor, ptr, len).state.memory,
        ),
{
    let file = process::file_at(process::files_of(v.processes, caller(v)), descriptor);
    if file is Some {
        let want = if len < MAX_USER_TRANSFER {
            len as int
        } else {
            MAX_USER_TRANSFER as int
        };
        let data = file_bytes(env.archive, file.unwrap(), want);
        assert(data.len() <= want);
        lemma_written_by_program(v.memory, env.root, ptr, data);
    }
}

proof fn lemma_readdir_writes_as_program(
    v: KernelView,
    env: Surroundings,
    descriptor: u64,
    ptr: u64,
    len: u64,
)
    ensures
        is_write_by_program(
            v.memory,
            env.root,
            readdir_effect(v, env, descriptor, ptr, len).state.memory,
        ),
{
    let file = process::file_at(process::files_of(v.processes, caller(v)), descriptor);
    if file is Some {
        let children = fs::children_of(env.entries, vstd::utf8::decode_utf8(file.unwrap().path));
        let names = packed_names(children, 0, Seq::empty(), len as int);
        lemma_packed_names_fit(children, 0, Seq::empty(), len as int);
        lemma_handed_out_by_program(v, env.root, ptr, names, names.len() as u64);
    }
}

proof fn lemma_poll_writes_as_program(v: KernelView, env: Surroundings, out: u64, max: u64)
    ensures
        is_write_by_program(
            v.memory,
            env.root,
            input_poll_effect(v, env, out, max).state.memory,
        ),
{
    let wanted = if max < MAX_EVENTS {
        max
    } else {
        MAX_EVENTS
    };
    let count = if wanted < v.input.queue.len() {
        wanted as int
    } else {
        v.input.queue.len() as int
    };
    let events = v.input.queue.take(count);
    lemma_event_records_len(events);
    lemma_written_by_program(v.memory, env.root, out, event_records(events));
}

/// A system call never writes memory that the program itself may not
/// write, whatever it passes.
pub proof fn law_calls_write_only_where_the_program_may(
    v: KernelView,
    env: Surroundings,
    number: u64,
    a: u64,
    b: u64,
    c: u64,
)
    ensures
        is_write_by_program(
            v.memory,
            env.root,
            call_effect(v, env, number, a, b, c).state.memory,
        ),
{
    if number == sys::READ {
        lemma_read_writes_as_program(v, env, a, b, c);
    } else if number == sys::READDIR {
        lemma_readdir_writes_as_program(v, env, a, b, c);
    } else if number == sys::INPUT_POLL {
        lemma_poll_writes_as_program(v, env, a, b);
    } else if number == sys::STAT {
        if let Ok(path) = user_path(v.memory, env.root, a, b) {
            if let Some(node) = node_at(env, path) {
                lemma_handed_out_by_program(v, env.root, c, file_info(node), 0);
            }
        }
    } else if number == sys::SURFACE_INFO {
        if let Some(size) = compositor::geometry(v.compositor.surfaces, a, caller(v)) {
            lemma_handed_out_by_program(v, env.root, b, surface_record(size.0, size.1), 0);
        }
    } else if number == sys::REALM_INFO {
        if let Some(profile) = profile_of(v) {
            lemma_handed_out_by_program(v, env.root, a, realm_record(profile, caller(v)), 0);
        }
    } else {
        assert(call_effect(v, env, number, a, b, c).state.memory == v.memory);
    }
}

/// A system call changes no process but the one that makes it: every other
/// process keeps its state and its open files.
pub proof fn law_calls_leave_other_processes_alone(
    v: KernelView,
    env: Surroundings,
    number: u64,
    a: u64,
    b: u64,
    c: u64,
    other: u64,
)
    requires
        other != caller(v),
    ensures
        process::process_of(call_effect(v, env, number, a, b, c).state.processes, other)
            == process::process_of(v.processes, other),
{
}

proof fn lemma_commit_leaves_other_surfaces_alone(
    v: KernelView,
    env: Surroundings,
    id: u64,
    ptr: u64,
    len: u64,
    i: int,
)
    requires
        compositor::compositor_is_regular(v.compositor),
        0 <= i < v.compositor.surfaces.len(),
        v.compositor.surfaces[i].pid != caller(v),
    ensures
        ({
            let after = surface_commit_effect(v, env, id, ptr, len).state.compositor.surfaces;
            i < after.len() && after[i] == v.compositor.surfaces[i]
        }),
{
    compositor::law_surfaces_are_private(
        v.compositor,
        v.memory,
        env.root,
        id,
        caller(v),
        ptr,
        len as int,
        i,
    );
    let changed = compositor::committed(
        v.compositor,
        v.memory,
        env.root,
        id,
        caller(v),
        ptr,
        len as int,
    ).0;
    compositor::lemma_presenting_keeps_surfaces(
        changed,
        v.screen,
        env.font,
        v.input.pointer,
        v.clock.ticks,
    );
}

/// A system call changes no surface but the caller's own: every other
/// process's surfaces keep their place and their contents.
#[verifier::spinoff_prover]
#[verifier::rlimit(40)]
pub proof fn law_calls_leave_other_surfaces_alone(
    v: KernelView,
    env: Surroundings,
    number: u64,
    a: u64,
    b: u64,
    c: u64,
    i: int,
)
    requires
        compositor::compositor_is_regular(v.compositor),
        0 <= i < v.compositor.surfaces.len(),
        v.compositor.surfaces[i].pid != caller(v),
    ensures
        ({
            let after = call_effect(v, env, number, a, b, c).state.compositor.surfaces;
            i < after.len() && after[i] == v.compositor.surfaces[i]
        }),
{
    if number == sys::SURFACE_COMMIT {
        lemma_commit_leaves_other_surfaces_alone(v, env, a, b, c, i);
    }
}

/// Only printable text reaches the console: no program can send it a
/// control sequence.
pub proof fn law_console_output_is_printable(bytes: Seq<u8>, i: int)
    requires
        0 <= i < shown_bytes(bytes).len(),
    ensures
        ({
            let c = shown_bytes(bytes)[i] as int;
            c == 0x0A || c == 0x09 || 0x20 <= c <= 0x7E
        }),
    decreases bytes.len(),
{
    let front = shown_bytes(bytes.drop_last());
    if i < front.len() {
        law_console_output_is_printable(bytes.drop_last(), i);
    } else {
        let byte = bytes.last();
        if !(byte == 0x0A || byte == 0x09 || 0x20 <= byte <= 0x7E) {
            reveal_strlit("\\x");
            lemma_hexadecimal_is_printable(byte as nat);
            let digits = text::hexadecimal(byte as nat);
            let padded = text::zero_padded(digits, 2);
            assert(forall|k: int|
                0 <= k < padded.len() ==> 0x20 <= (#[trigger] padded[k]) as int <= 0x7E);
        }
    }
}

/// Text is shown as it is: where every byte is printable, a line's end or a
/// tab, there is exactly one character for each byte, and it is that byte.
pub proof fn law_text_is_shown_unchanged(bytes: Seq<u8>)
    requires
        forall|i: int|
            0 <= i < bytes.len() ==> (#[trigger] bytes[i] == 0x0A || bytes[i] == 0x09 || 0x20
                <= bytes[i] <= 0x7E),
    ensures
        shown_bytes(bytes).len() == bytes.len(),
        forall|i: int|
            0 <= i < bytes.len() ==> #[trigger] shown_bytes(bytes)[i] == bytes[i] as char,
    decreases bytes.len(),
{
    if bytes.len() > 0 {
        let front = bytes.drop_last();
        assert forall|i: int| 0 <= i < front.len() implies (#[trigger] front[i] == 0x0A || front[i]
            == 0x09 || 0x20 <= front[i] <= 0x7E) by {
            assert(front[i] == bytes[i]);
        }
        law_text_is_shown_unchanged(front);
        assert(bytes.last() == bytes[bytes.len() - 1]);
        assert forall|i: int| 0 <= i < bytes.len() implies #[trigger] shown_bytes(bytes)[i]
            == bytes[i] as char by {
            if i < front.len() {
                assert(shown_bytes(bytes)[i] == shown_bytes(front)[i]);
                assert(front[i] == bytes[i]);
            }
        }
    }
}

/// What is written in two parts is shown as in one: the console shows the
/// first part's bytes and then the second's, and loses none between them.
pub proof fn law_output_follows_output(first: Seq<u8>, second: Seq<u8>)
    ensures
        shown_bytes(first + second) == shown_bytes(first) + shown_bytes(second),
    decreases second.len(),
{
    if second.len() == 0 {
        assert(first + second =~= first);
        assert(shown_bytes(first) =~= shown_bytes(first) + shown_bytes(second));
    } else {
        let whole = first + second;
        assert(whole.drop_last() =~= first + second.drop_last());
        law_output_follows_output(first, second.drop_last());
        assert(shown_bytes(whole) =~= shown_bytes(first) + shown_bytes(second));
    }
}

/// A byte that is not shown as it is comes out as a backslash, an `x`, and
/// its two hexadecimal digits, from which it can be told.
pub proof fn law_other_bytes_are_escaped(byte: u8)
    requires
        !(byte == 0x0A || byte == 0x09 || 0x20 <= byte <= 0x7E),
    ensures
        ({
            let shown = shown_bytes(seq![byte]);
            &&& shown.len() == 4
            &&& shown[0] == '\\'
            &&& shown[1] == 'x'
            &&& 16 * text::digit_value(shown[2]) + text::digit_value(shown[3]) == byte
        }),
{
    reveal_strlit("\\x");
    let one = seq![byte];
    assert(one.drop_last() =~= Seq::<u8>::empty());
    assert(shown_bytes(one.drop_last()) =~= Seq::<char>::empty());
    reveal_with_fuel(text::hexadecimal, 3);
    let digits = text::hexadecimal(byte as nat);
    assert(digits.len() == 1 || digits.len() == 2);
}

proof fn lemma_hexadecimal_is_printable(n: nat)
    ensures
        forall|k: int|
            0 <= k < text::hexadecimal(n).len() ==> 0x20 <= (#[trigger] text::hexadecimal(
                n,
            )[k]) as int <= 0x7E,
    decreases n,
{
    let all = text::hexadecimal(n);
    if n >= 16 {
        lemma_hexadecimal_is_printable(n / 16);
        let front = text::hexadecimal(n / 16);
        assert(all == front.push(text::digit_char((n % 16) as int)));
        assert forall|k: int| 0 <= k < all.len() implies 0x20 <= (#[trigger] all[k]) as int
            <= 0x7E by {
            if k < front.len() {
                assert(all[k] == front[k]);
            }
        }
    }
}

/// Calls that read from a program's memory read nothing but that: whatever
/// else memory holds, what is shown on the console, opened, looked up or
/// drawn for the program is the same.
pub proof fn law_calls_read_only_where_the_program_may(
    v: KernelView,
    other: Seq<u8>,
    env: Surroundings,
    a: u64,
    b: u64,
    c: u64,
)
    requires
        memory::program_sees_the_same(v.memory, other, env.root),
        env.root >= 0,
    ensures
        ({
            let w = KernelView { memory: other, ..v };
            let write = write_effect(v, env.root, a, b, c);
            let open = open_effect(v, env, a, b, c);
            let commit = surface_commit_effect(v, env, a, b, c);
            &&& write_effect(w, env.root, a, b, c) == Effect {
                state: KernelView { memory: other, ..write.state },
                ..write
            }
            &&& open_effect(w, env, a, b, c) == Effect {
                state: KernelView { memory: other, ..open.state },
                ..open
            }
            &&& surface_commit_effect(w, env, a, b, c) == Effect {
                state: KernelView { memory: other, ..commit.state },
                ..commit
            }
            &&& user_path(other, env.root, a, b) == user_path(v.memory, env.root, a, b)
        }),
{
    memory::law_copies_show_only_user_memory(v.memory, other, env.root, a, b);
    memory::law_copies_show_only_user_memory(v.memory, other, env.root, b, c);
}

/// The state with another boot signature, and whatever the screen shows of
/// it.
pub open spec fn with_signature(
    v: KernelView,
    signature: Seq<crate::graphics::framebuffer::Colour>,
    screen: Seq<u8>,
) -> KernelView {
    KernelView {
        compositor: compositor::CompositorView { signature, ..v.compositor },
        screen,
        ..v
    }
}

/// Two effects that a program, and everyone else who does not look at the
/// screen, cannot tell apart.
pub open spec fn looks_the_same(e: Effect, f: Effect) -> bool {
    &&& e.value == f.value
    &&& e.action == f.action
    &&& e.console == f.console
    &&& e.lines == f.lines
    &&& f.state == with_signature(e.state, f.state.compositor.signature, f.state.screen)
}

#[verifier::spinoff_prover]
#[verifier::rlimit(40)]
proof fn lemma_surface_calls_hide_the_signature(
    v: KernelView,
    w: KernelView,
    env: Surroundings,
    a: u64,
    b: u64,
    c: u64,
)
    requires
        w == with_signature(v, w.compositor.signature, w.screen),
    ensures
        looks_the_same(surface_create_effect(v, a, b), surface_create_effect(w, a, b)),
        looks_the_same(
            surface_commit_effect(v, env, a, b, c),
            surface_commit_effect(w, env, a, b, c),
        ),
        looks_the_same(surface_info_effect(v, env, a, b), surface_info_effect(w, env, a, b)),
{
}

#[verifier::spinoff_prover]
#[verifier::rlimit(40)]
proof fn lemma_file_calls_hide_the_signature(
    v: KernelView,
    w: KernelView,
    env: Surroundings,
    a: u64,
    b: u64,
    c: u64,
)
    requires
        w == with_signature(v, w.compositor.signature, w.screen),
    ensures
        looks_the_same(open_effect(v, env, a, b, c), open_effect(w, env, a, b, c)),
        looks_the_same(read_effect(v, env, a, b, c), read_effect(w, env, a, b, c)),
        looks_the_same(close_effect(v, a), close_effect(w, a)),
        looks_the_same(seek_effect(v, a, b, c), seek_effect(w, a, b, c)),
        looks_the_same(stat_effect(v, env, a, b, c), stat_effect(w, env, a, b, c)),
        looks_the_same(readdir_effect(v, env, a, b, c), readdir_effect(w, env, a, b, c)),
{
}

#[verifier::spinoff_prover]
#[verifier::rlimit(40)]
proof fn lemma_other_calls_hide_the_signature(
    v: KernelView,
    w: KernelView,
    env: Surroundings,
    a: u64,
    b: u64,
    c: u64,
)
    requires
        w == with_signature(v, w.compositor.signature, w.screen),
    ensures
        looks_the_same(exit_effect(v, a), exit_effect(w, a)),
        looks_the_same(yield_effect(v), yield_effect(w)),
        looks_the_same(write_effect(v, env.root, a, b, c), write_effect(w, env.root, a, b, c)),
        looks_the_same(input_poll_effect(v, env, a, b), input_poll_effect(w, env, a, b)),
        looks_the_same(realm_info_effect(v, env, a), realm_info_effect(w, env, a)),
{
}

/// No call reveals the boot signature: whatever it is, and whatever the
/// screen shows, every call returns the same, writes the same into memory
/// and to the console, and does the same to everything else.
#[verifier::spinoff_prover]
#[verifier::rlimit(60)]
pub proof fn law_no_call_reveals_the_signature(
    v: KernelView,
    env: Surroundings,
    number: u64,
    a: u64,
    b: u64,
    c: u64,
    signature: Seq<crate::graphics::framebuffer::Colour>,
    screen: Seq<u8>,
)
    ensures
        looks_the_same(
            call_effect(v, env, number, a, b, c),
            call_effect(with_signature(v, signature, screen), env, number, a, b, c),
        ),
{
    let w = with_signature(v, signature, screen);
    if number == sys::SURFACE_CREATE || number == sys::SURFACE_COMMIT || number
        == sys::SURFACE_INFO {
        lemma_surface_calls_hide_the_signature(v, w, env, a, b, c);
    } else if number == sys::OPEN || number == sys::READ || number == sys::CLOSE || number
        == sys::SEEK || number == sys::STAT || number == sys::READDIR {
        lemma_file_calls_hide_the_signature(v, w, env, a, b, c);
    } else if number == sys::EXIT || number == sys::YIELD || number == sys::WRITE || number
        == sys::INPUT_POLL || number == sys::REALM_INFO {
        lemma_other_calls_hide_the_signature(v, w, env, a, b, c);
    }
}

// ---------------------------------------------------------------------
// What each call does, number by number
// ---------------------------------------------------------------------

/// A call that failed with error number `errno` and changed nothing.
pub open spec fn fails(effect: Effect, v: KernelView, errno: int) -> bool {
    &&& effect.value == 0x1_0000_0000_0000_0000 - errno
    &&& effect.state == v
    &&& effect.action == Action::Resume
    &&& effect.console.len() == 0
}

/// A call that wrote `data` to the program at `ptr` and returned `value`, or
/// failed because the program may not write there.
pub open spec fn delivers(
    effect: Effect,
    v: KernelView,
    root: int,
    ptr: u64,
    data: Seq<u8>,
    value: int,
) -> bool {
    let (memory, written) = memory::user_write(v.memory, root, ptr, data);
    &&& effect.state == (KernelView { memory, ..v })
    &&& effect.action == Action::Resume
    &&& effect.console.len() == 0
    &&& written ==> effect.value == value
    &&& !written ==> effect.value == 0x1_0000_0000_0000_0000 - 2
}

/// `exit` ends a program that has a supervisor to return to, with the low 32
/// bits of what it passed. Without one it is an invalid call. Neither changes
/// the kernel's state.
pub proof fn law_exit_ends_the_program(
    v: KernelView,
    env: Surroundings,
    status: u64,
    b: u64,
    c: u64,
)
    ensures
        ({
            let effect = call_effect(v, env, 0, status, b, c);
            let supervisor = match v.scheduler.current {
                Some(task) => task.supervisor_rsp,
                None => v.scheduler.boot_supervisor_rsp,
            };
            &&& effect.state == v
            &&& supervisor != 0 ==> effect.value == 0 && (effect.action matches Action::EndProgram(
                ProgramExit::Exited(code),
            ) && code == status % 0x1_0000_0000)
            &&& supervisor == 0 ==> fails(effect, v, 4)
        }),
{
}

/// `yield_now` returns 0 and gives up the CPU as the scheduler has it; all
/// else is as it was.
pub proof fn law_yield_gives_up_the_cpu(v: KernelView, env: Surroundings, a: u64, b: u64, c: u64)
    ensures
        ({
            let effect = call_effect(v, env, 1, a, b, c);
            let (after, switch) = task::switch_plan(
                v.scheduler,
                SwitchKind::VoluntaryFromUser,
                v.clock.ticks,
            );
            &&& effect.value == 0
            &&& effect.state == (KernelView { scheduler: after, ..v })
            &&& switch matches Some(s) ==> effect.action == Action::Switch(s)
            &&& switch is None ==> effect.action == Action::Resume
        }),
{
}

/// `getpid`, `ticks` and `uptime_ms` tell the calling process, the timer's
/// count, and ten milliseconds for each tick.
pub proof fn law_clock_and_identity_are_told(
    v: KernelView,
    env: Surroundings,
    a: u64,
    b: u64,
    c: u64,
)
    requires
        v.clock.ticks * 10 <= u64::MAX,
    ensures
        v.scheduler.current matches Some(task) ==> call_effect(v, env, 2, a, b, c).value
            == task.pid,
        v.scheduler.current is None ==> call_effect(v, env, 2, a, b, c).value == 0,
        call_effect(v, env, 65, a, b, c).value == v.clock.ticks,
        call_effect(v, env, 66, a, b, c).value == 10 * v.clock.ticks,
        call_effect(v, env, 2, a, b, c).state == v,
        call_effect(v, env, 65, a, b, c).state == v,
        call_effect(v, env, 66, a, b, c).state == v,
{
}

/// `write` shows all of the program's bytes on the console, for standard
/// output and standard error alike, and returns how many there were. More
/// than a mebibyte, and what the program cannot read, is refused, as is any
/// other descriptor.
pub proof fn law_write_shows_the_bytes(
    v: KernelView,
    env: Surroundings,
    descriptor: u64,
    ptr: u64,
    len: u64,
)
    requires
        env.root >= 0,
    ensures
        ({
            let effect = call_effect(v, env, 16, descriptor, ptr, len);
            let bytes = memory::user_bytes(v.memory, env.root, ptr, len);
            &&& descriptor != 1 && descriptor != 2 ==> fails(effect, v, 9)
            &&& (descriptor == 1 || descriptor == 2) && (len > 0x10_0000 || bytes is None)
                ==> fails(effect, v, 2)
            &&& (descriptor == 1 || descriptor == 2) && len <= 0x10_0000 && bytes is Some ==> {
                &&& effect.value == len
                &&& effect.state == v
                &&& effect.action == Action::Resume
                &&& effect.console == shown_bytes(bytes.unwrap())
            }
        }),
{
    memory::lemma_user_bytes_len(v.memory, env.root, ptr, len);
}

/// How `open` and `stat` come by a path, and what they answer where there is
/// no such thing: a program without the right is not permitted, an empty path
/// and one of more than 120 bytes are invalid, one that cannot be read is a
/// fault, and one that is no path is invalid.
pub proof fn law_paths_are_checked(
    v: KernelView,
    env: Surroundings,
    ptr: u64,
    len: u64,
    c: u64,
    number: u64,
)
    requires
        number == 18 && c & 1 == 0 || number == 22,
    ensures
        ({
            let effect = call_effect(v, env, number, ptr, len, c);
            let bytes = memory::user_bytes(v.memory, env.root, ptr, len);
            let process = process::process_of(v.processes, caller(v));
            &&& process is None ==> fails(effect, v, 5)
            &&& process matches Some(p) ==> {
                &&& p.profile.capabilities & 4 != 4 ==> fails(effect, v, 5)
                &&& p.profile.capabilities & 4 == 4 ==> {
                    &&& len == 0 || len > 120 ==> fails(effect, v, 4)
                    &&& 0 < len <= 120 && bytes is None ==> fails(effect, v, 2)
                    &&& 0 < len <= 120 && bytes is Some && !archive::valid_path(bytes.unwrap())
                        ==> fails(effect, v, 4)
                    &&& 0 < len <= 120 && bytes is Some && archive::valid_path(bytes.unwrap())
                        && !fs::map_of(env.entries).dom().contains(
                        text::utf8_lossy(bytes.unwrap()),
                    ) ==> fails(effect, v, 3)
                }
            }
        }),
{
}

/// `open` gives the program the lowest free descriptor from 3 on. It is the
/// file that the path names, at its beginning; every other descriptor and
/// every other process is as it was. To write is not supported, and neither
/// is what is no directory where one is asked for.
pub proof fn law_open_opens_the_file(
    v: KernelView,
    env: Surroundings,
    ptr: u64,
    len: u64,
    flags: u64,
    d: u64,
)
    requires
        process::process_of(v.processes, caller(v)) matches Some(p)
            && p.profile.capabilities & 4 == 4 && p.files.len() < usize::MAX,
        0 < len <= 120,
        memory::user_bytes(v.memory, env.root, ptr, len) matches Some(bytes)
            && archive::valid_path(bytes) && fs::map_of(env.entries).dom().contains(
            text::utf8_lossy(bytes),
        ) && vstd::utf8::encode_utf8(text::utf8_lossy(bytes)).len() <= 120,
    ensures
        ({
            let effect = call_effect(v, env, 18, ptr, len, flags);
            let path = text::utf8_lossy(
                memory::user_bytes(v.memory, env.root, ptr, len).unwrap(),
            );
            let node = fs::map_of(env.entries)[path];
            let before = process::files_of(v.processes, caller(v));
            let after = process::files_of(effect.state.processes, caller(v));
            &&& flags & 1 != 0 ==> fails(effect, v, 10)
            &&& flags & 1 == 0 && flags & 2 != 0 && !node.is_directory ==> fails(effect, v, 10)
            &&& flags & 1 == 0 && (flags & 2 == 0 || node.is_directory) ==> {
                &&& effect.value >= 3
                &&& process::file_at(before, effect.value) is None
                &&& 3 <= d < effect.value ==> process::file_at(before, d) is Some
                &&& d != effect.value ==> process::file_at(after, d) == process::file_at(before, d)
                &&& process::file_at(after, effect.value) matches Some(file) && {
                    &&& file.node == node
                    &&& file.position == 0
                    &&& file.path == vstd::utf8::encode_utf8(path)
                }
                &&& effect.state == (KernelView { processes: effect.state.processes, ..v })
                &&& effect.state.processes.len() == v.processes.len()
                &&& effect.action == Action::Resume
                &&& forall|i: int|
                    0 <= i < v.processes.len() && i != caller(v) - 1
                        ==> #[trigger] effect.state.processes[i] == v.processes[i]
            }
        }),
{
    let files = process::files_of(v.processes, caller(v));
    let path = text::utf8_lossy(memory::user_bytes(v.memory, env.root, ptr, len).unwrap());
    let file = process::FileView {
        node: fs::map_of(env.entries)[path],
        position: 0,
        path: vstd::utf8::encode_utf8(path),
    };
    process::law_open_takes_the_lowest_descriptor(files, file);
    assert(process::file_at(process::opened(files, file), d) == process::file_at(
        process::opened(files, file),
        d,
    ));
    assert(3 <= d < process::next_descriptor(files) ==> process::file_at(files, d) is Some);
}

/// What a read gets of a file is its bytes from the position on, as many as
/// are asked for and as are left.
pub proof fn law_reads_stay_in_the_file(
    archive: Seq<u8>,
    file: process::FileView,
    want: int,
    n: int,
)
    requires
        0 <= want,
        !file.node.is_directory,
        file.node.offset + file.node.len <= archive.len(),
    ensures
        file.position >= file.node.len ==> file_bytes(archive, file, want).len() == 0,
        0 <= n <= want && file.position + n <= file.node.len && (n == want || file.position + n
            == file.node.len) ==> file_bytes(archive, file, want) == archive.subrange(
            file.node.offset + file.position,
            file.node.offset + file.position + n,
        ),
{
    let from = file.node.offset + file.position;
    if file.position <= file.node.len {
        assert(archive.subrange(from, from) =~= Seq::<u8>::empty());
    }
}

/// `read` hands out the bytes of the file from its position on, as many as
/// were asked for, as are left in the file and as fit in a mebibyte, and
/// moves the position past them. Standard input has nothing to read; the
/// console's other descriptors, and those that are not open, are no
/// descriptors to read from, and a directory cannot be read.
#[verifier::spinoff_prover]
#[verifier::rlimit(60)]
pub proof fn law_read_hands_out_the_file(
    v: KernelView,
    env: Surroundings,
    descriptor: u64,
    ptr: u64,
    len: u64,
    n: int,
)
    requires
        process::process_of(v.processes, caller(v)) is Some,
    ensures
        ({
            let effect = call_effect(v, env, 17, descriptor, ptr, len);
            let before = process::files_of(v.processes, caller(v));
            let after = process::files_of(effect.state.processes, caller(v));
            let found = process::file_at(before, descriptor);
            &&& descriptor == 0 ==> effect.value == 0 && effect.state == v
            &&& descriptor == 1 || descriptor == 2 || (descriptor > 2 && found is None) ==> fails(
                effect,
                v,
                9,
            )
            &&& descriptor > 2 ==> (found matches Some(file) ==> {
                let from = file.node.offset + file.position;
                &&& file.node.is_directory ==> fails(effect, v, 10)
                &&& !file.node.is_directory && file.node.offset + file.node.len
                    <= env.archive.len() && 0 <= n <= len && n <= 0x10_0000 && file.position + n
                    <= file.node.len && (n == len || n == 0x10_0000 || file.position + n
                    == file.node.len) ==> {
                    let (memory, written) = memory::user_write(
                        v.memory,
                        env.root,
                        ptr,
                        env.archive.subrange(from, from + n),
                    );
                    &&& effect.state.memory == memory
                    &&& effect.action == Action::Resume
                    &&& !written ==> effect.value == 0x1_0000_0000_0000_0000 - 2
                        && effect.state.processes == v.processes
                    &&& written ==> {
                        &&& effect.value == n
                        &&& after == before.update(
                            descriptor as int,
                            Some(
                                process::FileView { position: (file.position + n) as usize, ..file },
                            ),
                        )
                    }
                }
            })
        }),
{
    let files = process::files_of(v.processes, caller(v));
    let found = process::file_at(files, descriptor);
    if descriptor > 2 && found is Some && !found.unwrap().node.is_directory {
        let file = found.unwrap();
        let from = file.node.offset + file.position;
        let want = if len < 0x10_0000 {
            len as int
        } else {
            0x10_0000
        };
        let data = file_bytes(env.archive, file, want);
        let (memory, written) = memory::user_write(v.memory, env.root, ptr, data);
        if file.node.offset + file.node.len <= env.archive.len() && 0 <= n <= len && n <= 0x10_0000
            && file.position + n <= file.node.len && (n == len || n == 0x10_0000 || file.position
            + n == file.node.len) {
            law_reads_stay_in_the_file(env.archive, file, want, n);
            assert(data.len() == n);
            let effect = read_effect(v, env, descriptor, ptr, len);
            assert(effect == call_effect(v, env, 17, descriptor, ptr, len));
            if written {
                let table = files.update(
                    descriptor as int,
                    Some(process::FileView { position: (file.position + n) as usize, ..file }),
                );
                assert(effect.state.processes == process::with_files(
                    v.processes,
                    caller(v),
                    table,
                ));
                assert(process::files_of(effect.state.processes, caller(v)) == table);
            }
        }
    }
}

/// `close` closes what is open, and no other descriptor; `seek` moves to a
/// position from the beginning, from the present position, or back from the
/// end, and no further than the end. Neither knows a descriptor that is not
/// open, and no other origin is valid.
pub proof fn law_close_and_seek(
    v: KernelView,
    env: Surroundings,
    descriptor: u64,
    offset: u64,
    whence: u64,
    d: u64,
)
    requires
        process::process_of(v.processes, caller(v)) is Some,
    ensures
        ({
            let closing = call_effect(v, env, 19, descriptor, offset, whence);
            let seeking = call_effect(v, env, 20, descriptor, offset, whence);
            let before = process::files_of(v.processes, caller(v));
            let closed = process::files_of(closing.state.processes, caller(v));
            let sought = process::files_of(seeking.state.processes, caller(v));
            let found = process::file_at(before, descriptor);
            &&& found is None ==> fails(closing, v, 9) && fails(seeking, v, 9)
            &&& found is Some ==> {
                &&& closing.value == 0
                &&& closing.action == Action::Resume
                &&& process::file_at(closed, descriptor) is None
                &&& d != descriptor ==> process::file_at(closed, d) == process::file_at(before, d)
                &&& closing.state == (KernelView { processes: closing.state.processes, ..v })
            }
            &&& found is Some && whence > 2 ==> fails(seeking, v, 4)
            &&& whence <= 2 ==> (found matches Some(file) ==> {
                let size = file.node.len as int;
                let at = seeking.value as int;
                &&& seeking.action == Action::Resume
                &&& seeking.state == (KernelView { processes: seeking.state.processes, ..v })
                &&& whence == 0 && offset <= size ==> at == offset
                &&& whence == 0 && offset > size ==> at == size
                &&& whence == 1 && file.position + offset <= size ==> at == file.position + offset
                &&& whence == 1 && file.position + offset > size ==> at == size
                &&& whence == 2 && offset <= size ==> at == size - offset
                &&& whence == 2 && offset > size ==> at == 0
                &&& process::file_at(sought, descriptor) == Some(
                    process::FileView { position: at as usize, ..file },
                )
                &&& d != descriptor ==> process::file_at(sought, d) == process::file_at(before, d)
            })
        }),
{
}

proof fn lemma_number_stands(s: Seq<u8>, at: int, value: u64)
    requires
        0 <= at,
        at + 8 <= s.len(),
        s.subrange(at, at + 8) == bytes::le64_bytes(value),
    ensures
        bytes::le64(s, at) == value,
{
    bytes::lemma_le64_round_trip(value);
    let t = s.subrange(at, at + 8);
    assert(t[0] == s[at] && t[1] == s[at + 1] && t[2] == s[at + 2] && t[3] == s[at + 3] && t[4]
        == s[at + 4] && t[5] == s[at + 5] && t[6] == s[at + 6] && t[7] == s[at + 7]);
}

/// `stat` delivers sixteen bytes: the file's length, and whether it is a
/// directory, as two numbers of 64 bits.
pub proof fn law_stat_describes_the_file(
    v: KernelView,
    env: Surroundings,
    ptr: u64,
    len: u64,
    out: u64,
)
    requires
        process::process_of(v.processes, caller(v)) matches Some(p)
            && p.profile.capabilities & 4 == 4,
        0 < len <= 120,
        memory::user_bytes(v.memory, env.root, ptr, len) matches Some(bytes)
            && archive::valid_path(bytes) && fs::map_of(env.entries).dom().contains(
            text::utf8_lossy(bytes),
        ),
    ensures
        ({
            let node = fs::map_of(env.entries)[text::utf8_lossy(
                memory::user_bytes(v.memory, env.root, ptr, len).unwrap(),
            )];
            let record = file_info(node);
            &&& delivers(call_effect(v, env, 22, ptr, len, out), v, env.root, out, record, 0)
            &&& record.len() == 16
            &&& bytes::le64(record, 0) == node.len
            &&& node.is_directory ==> bytes::le64(record, 8) == 1
            &&& !node.is_directory ==> bytes::le64(record, 8) == 0
        }),
{
    let node = fs::map_of(env.entries)[text::utf8_lossy(
        memory::user_bytes(v.memory, env.root, ptr, len).unwrap(),
    )];
    let kind = if node.is_directory {
        1u64
    } else {
        0u64
    };
    let record = file_info(node);
    assert(record.subrange(0, 8) =~= bytes::le64_bytes(node.len as u64));
    assert(record.subrange(8, 16) =~= bytes::le64_bytes(kind));
    lemma_number_stands(record, 0, node.len as u64);
    lemma_number_stands(record, 8, kind);
}

/// The names of the first `n` children, each with a zero behind it.
pub open spec fn names_in_full(children: Seq<Seq<char>>, n: nat) -> Seq<u8>
    decreases n,
{
    if n == 0 {
        Seq::empty()
    } else {
        names_in_full(children, (n - 1) as nat) + archive::final_component(
            vstd::utf8::encode_utf8(children[n - 1]),
        ) + seq![0u8]
    }
}

proof fn lemma_packed_names(children: Seq<Seq<char>>, i: int, room: int) -> (n: nat)
    requires
        0 <= i <= children.len(),
        names_in_full(children, i as nat).len() <= room,
    ensures
        i <= n <= children.len(),
        packed_names(children, i, names_in_full(children, i as nat), room) == names_in_full(
            children,
            n,
        ),
        names_in_full(children, n).len() <= room,
        n < children.len() ==> names_in_full(children, n + 1).len() > room,
    decreases children.len() - i,
{
    let out = names_in_full(children, i as nat);
    if i == children.len() {
        i as nat
    } else {
        let name = archive::final_component(vstd::utf8::encode_utf8(children[i]));
        assert((out + name).push(0) =~= names_in_full(children, (i + 1) as nat));
        if out.len() + name.len() + 1 > room {
            i as nat
        } else {
            lemma_packed_names(children, i + 1, room)
        }
    }
}

/// `readdir` delivers the names of a directory's children in order, each
/// whole and with a zero behind it, until the next would not fit.
pub proof fn law_readdir_lists_the_children(
    v: KernelView,
    env: Surroundings,
    descriptor: u64,
    ptr: u64,
    len: u64,
) -> (n: nat)
    ensures
        ({
            let effect = call_effect(v, env, 21, descriptor, ptr, len);
            let found = process::file_at(process::files_of(v.processes, caller(v)), descriptor);
            &&& found is None ==> fails(effect, v, 9)
            &&& found matches Some(file) ==> {
                let path = vstd::utf8::decode_utf8(file.path);
                let nodes = fs::map_of(env.entries);
                let children = fs::children_of(env.entries, path);
                let names = names_in_full(children, n);
                &&& !file.node.is_directory ==> fails(effect, v, 10)
                &&& file.node.is_directory && !(nodes.dom().contains(path)
                    && nodes[path].is_directory) ==> fails(effect, v, 3)
                &&& file.node.is_directory && nodes.dom().contains(path)
                    && nodes[path].is_directory ==> {
                    &&& n <= children.len()
                    &&& names.len() <= len
                    &&& n < children.len() ==> names_in_full(children, n + 1).len() > len
                    &&& delivers(effect, v, env.root, ptr, names, names.len() as int)
                }
            }
        }),
{
    let found = process::file_at(process::files_of(v.processes, caller(v)), descriptor);
    if found is Some {
        let path = vstd::utf8::decode_utf8(found.unwrap().path);
        let n = lemma_packed_names(fs::children_of(env.entries, path), 0, len as int);
        n
    } else {
        0
    }
}

/// `surface_create` makes a surface of the calling process and of its Realm,
/// over the whole content area for a Realm with exclusive scanout and in a
/// window for every other, and returns its identifier. Without the right it
/// is not permitted, and where there is no surface to be had there is no
/// memory for it.
pub proof fn law_surface_belongs_to_the_caller(
    v: KernelView,
    env: Surroundings,
    width: u64,
    height: u64,
    c: u64,
)
    ensures
        ({
            let effect = call_effect(v, env, 80, width, height, c);
            let process = process::process_of(v.processes, caller(v));
            &&& process is None ==> fails(effect, v, 5)
            &&& process matches Some(p) ==> {
                let mode = if p.profile.capabilities & 0x200 == 0x200 {
                    SurfaceMode::Fullscreen
                } else {
                    SurfaceMode::Windowed
                };
                let (after, id) = compositor::created(
                    v.compositor,
                    caller(v),
                    p.profile.kind,
                    p.profile.name@,
                    width as int,
                    height as int,
                    mode,
                );
                &&& p.profile.capabilities & 0x80 != 0x80 ==> fails(effect, v, 5)
                &&& p.profile.capabilities & 0x80 == 0x80 ==> {
                    &&& effect.state == (KernelView { compositor: after, ..v })
                    &&& effect.action == Action::Resume
                    &&& id matches Some(id) ==> effect.value == id
                    &&& id is None ==> effect.value == 0x1_0000_0000_0000_0000 - 6
                }
            }
        }),
{
}

/// `surface_commit` takes a frame from the owner of a surface and no one
/// else. It must be as long as the surface is large, four bytes for every
/// pixel, and readable; then it is shown at once, at most once in a tick.
pub proof fn law_commit_is_shown(
    v: KernelView,
    env: Surroundings,
    i: int,
    ptr: u64,
    len: u64,
)
    requires
        compositor::compositor_is_regular(v.compositor),
        env.root >= 0,
        v.compositor.rejected_commits < u64::MAX,
        0 <= i < v.compositor.surfaces.len(),
    ensures
        ({
            let s = v.compositor.surfaces[i];
            let effect = call_effect(v, env, 81, s.id, ptr, len);
            let bytes = memory::user_bytes(v.memory, env.root, ptr, len);
            let (changed, _) = compositor::committed(
                v.compositor,
                v.memory,
                env.root,
                s.id,
                s.pid,
                ptr,
                len as int,
            );
            &&& caller(v) == 0 ==> fails(effect, v, 5)
            &&& caller(v) != 0 && s.pid != caller(v) ==> fails(effect, v, 9)
            &&& caller(v) != 0 && s.pid == caller(v) && len != s.width * s.height * 4 ==> fails(
                effect,
                v,
                4,
            )
            &&& caller(v) != 0 && s.pid == caller(v) && len == s.width * s.height * 4 && bytes
                is None ==> effect.value == 0x1_0000_0000_0000_0000 - 2 && effect.state == (
            KernelView { compositor: changed, ..v })
            &&& caller(v) != 0 && s.pid == caller(v) && len == s.width * s.height * 4 && bytes
                is Some ==> {
                let (after, screen) = compositor::presented_throttled(
                    changed,
                    v.screen,
                    env.font,
                    v.input.pointer,
                    v.clock.ticks,
                );
                &&& effect.value == 0
                &&& effect.state == (KernelView { compositor: after, screen, ..v })
                &&& effect.action == Action::Resume
            }
        }),
        forall|id: u64|
            caller(v) != 0 && (forall|j: int|
                0 <= j < v.compositor.surfaces.len() ==> (#[trigger] v.compositor.surfaces[j]).id
                    != id) ==> fails(#[trigger] call_effect(v, env, 81, id, ptr, len), v, 9),
{
    let c = v.compositor;
    let s = c.surfaces[i];
    compositor::law_commit_replaces_the_pixels(
        c,
        v.memory,
        env.root,
        i,
        s.pid,
        ptr,
        len as int,
        0,
    );
    compositor::law_owner_learns_the_size(c, i);
    if s.pid != caller(v) {
        compositor::law_surfaces_are_private(
            c,
            v.memory,
            env.root,
            s.id,
            caller(v),
            ptr,
            len as int,
            i,
        );
    }
    assert forall|id: u64|
        caller(v) != 0 && (forall|j: int|
            0 <= j < c.surfaces.len() ==> (#[trigger] c.surfaces[j]).id != id) implies fails(
        #[trigger] call_effect(v, env, 81, id, ptr, len),
        v,
        9,
    ) by {
        compositor::lemma_surface_at(c.surfaces, id, 0);
    }
}

/// `surface_info` delivers 32 bytes to the owner of a surface: its width, its
/// height, the bytes of a row and the bytes of a pixel.
pub proof fn law_surface_is_described(v: KernelView, env: Surroundings, i: int, out: u64, c: u64)
    requires
        compositor::compositor_is_regular(v.compositor),
        0 <= i < v.compositor.surfaces.len(),
    ensures
        ({
            let s = v.compositor.surfaces[i];
            let effect = call_effect(v, env, 82, s.id, out, c);
            let record = surface_record(s.width, s.height);
            &&& s.pid != caller(v) ==> fails(effect, v, 9)
            &&& s.pid == caller(v) ==> {
                &&& delivers(effect, v, env.root, out, record, 0)
                &&& record.len() == 32
                &&& bytes::le64(record, 0) == s.width
                &&& bytes::le64(record, 8) == s.height
                &&& bytes::le64(record, 16) == 4 * s.width
                &&& bytes::le64(record, 24) == 4
            }
        }),
{
    let s = v.compositor.surfaces[i];
    compositor::law_owner_learns_the_size(v.compositor, i);
    if s.pid != caller(v) {
        compositor::law_surfaces_are_private(
            v.compositor,
            v.memory,
            env.root,
            s.id,
            caller(v),
            out,
            0,
            i,
        );
    }
    assert(compositor::surface_is_sound(s));
    assert(s.width <= s.width * s.height) by (nonlinear_arith)
        requires
            0 < s.height,
            0 <= s.width,
    ;
    let record = surface_record(s.width, s.height);
    assert(record.subrange(0, 8) =~= bytes::le64_bytes(s.width as u64));
    assert(record.subrange(8, 16) =~= bytes::le64_bytes(s.height as u64));
    assert(record.subrange(16, 24) =~= bytes::le64_bytes((s.width * 4) as u64));
    assert(record.subrange(24, 32) =~= bytes::le64_bytes(4));
    lemma_number_stands(record, 0, s.width as u64);
    lemma_number_stands(record, 8, s.height as u64);
    lemma_number_stands(record, 16, (s.width * 4) as u64);
    lemma_number_stands(record, 24, 4);
}

/// The record of event `k` is its kind, its code and its position, in 32
/// bytes, behind those of the events before it.
pub proof fn law_events_are_recorded(events: Seq<InputEvent>, k: int)
    requires
        0 <= k < events.len(),
    ensures
        event_records(events).len() == 32 * events.len(),
        bytes::le64(event_records(events), 32 * k) == events[k].kind,
        bytes::le64(event_records(events), 32 * k + 8) == events[k].code,
        bytes::le64(event_records(events), 32 * k + 16) == events[k].x,
        bytes::le64(event_records(events), 32 * k + 24) == events[k].y,
    decreases events.len(),
{
    lemma_event_records_len(events);
    lemma_event_records_len(events.drop_last());
    let all = event_records(events);
    let front = event_records(events.drop_last());
    if k == events.len() - 1 {
        let e = events[k];
        let at = 32 * k;
        assert(all.subrange(at, at + 8) =~= bytes::le64_bytes(e.kind));
        assert(all.subrange(at + 8, at + 16) =~= bytes::le64_bytes(e.code));
        assert(all.subrange(at + 16, at + 24) =~= bytes::le64_bytes(e.x));
        assert(all.subrange(at + 24, at + 32) =~= bytes::le64_bytes(e.y));
        lemma_number_stands(all, at, e.kind);
        lemma_number_stands(all, at + 8, e.code);
        lemma_number_stands(all, at + 16, e.x);
        lemma_number_stands(all, at + 24, e.y);
    } else {
        law_events_are_recorded(events.drop_last(), k);
        lemma_same_number(front, all, 32 * k);
        lemma_same_number(front, all, 32 * k + 8);
        lemma_same_number(front, all, 32 * k + 16);
        lemma_same_number(front, all, 32 * k + 24);
    }
}

proof fn lemma_same_number(front: Seq<u8>, all: Seq<u8>, at: int)
    requires
        0 <= at,
        at + 8 <= front.len() <= all.len(),
        forall|i: int| 0 <= i < front.len() ==> #[trigger] all[i] == front[i],
    ensures
        bytes::le64(all, at) == bytes::le64(front, at),
{
    assert(all[at] == front[at] && all[at + 1] == front[at + 1] && all[at + 2] == front[at + 2]
        && all[at + 3] == front[at + 3] && all[at + 4] == front[at + 4] && all[at + 5] == front[at
        + 5] && all[at + 6] == front[at + 6] && all[at + 7] == front[at + 7]);
}

/// `input_poll` delivers the oldest events, as many as the program has room
/// for and at most 64, and returns how many. Those are off the queue; the
/// others stay, in order.
pub proof fn law_poll_delivers_the_oldest_events(
    v: KernelView,
    env: Surroundings,
    out: u64,
    max: u64,
    c: u64,
    n: int,
)
    requires
        process::process_of(v.processes, caller(v)) matches Some(p)
            && p.profile.capabilities & 0x100 == 0x100,
        0 <= n <= v.input.queue.len(),
        n <= max && n <= 64,
        n == max || n == 64 || n == v.input.queue.len(),
    ensures
        ({
            let effect = call_effect(v, env, 83, out, max, c);
            let left = effect.state.input.queue;
            &&& n == 0 ==> effect.value == 0 && effect.state == v
            &&& n > 0 ==> {
                &&& left.len() == v.input.queue.len() - n
                &&& forall|k: int| 0 <= k < left.len() ==> #[trigger] left[k] == v.input.queue[n + k]
                &&& delivers(
                    effect,
                    KernelView { input: input::InputView { queue: left, ..v.input }, ..v },
                    env.root,
                    out,
                    event_records(v.input.queue.subrange(0, n)),
                    n,
                )
            }
        }),
{
    assert(v.input.queue.take(n) =~= v.input.queue.subrange(0, n));
}

/// `realm_info` delivers 24 bytes: the caller's Realm, its identifier and its
/// rights.
pub proof fn law_realm_is_described(v: KernelView, env: Surroundings, out: u64, b: u64, c: u64)
    ensures
        ({
            let effect = call_effect(v, env, 64, out, b, c);
            let process = process::process_of(v.processes, caller(v));
            &&& process is None ==> fails(effect, v, 5)
            &&& process matches Some(p) ==> {
                let record = realm_record(p.profile, caller(v));
                &&& delivers(effect, v, env.root, out, record, 0)
                &&& record.len() == 24
                &&& bytes::le64(record, 0) == p.profile.kind
                &&& bytes::le64(record, 8) == caller(v)
                &&& bytes::le64(record, 16) == p.profile.capabilities
            }
        }),
{
    let process = process::process_of(v.processes, caller(v));
    if process is Some {
        let profile = process.unwrap().profile;
        let record = realm_record(profile, caller(v));
        assert(record.subrange(0, 8) =~= bytes::le64_bytes(profile.kind));
        assert(record.subrange(8, 16) =~= bytes::le64_bytes(caller(v)));
        assert(record.subrange(16, 24) =~= bytes::le64_bytes(profile.capabilities));
        lemma_number_stands(record, 0, profile.kind);
        lemma_number_stands(record, 8, caller(v));
        lemma_number_stands(record, 16, profile.capabilities);
    }
}

/// No other number is a call: it fails as not implemented and changes
/// nothing.
pub proof fn law_other_numbers_are_refused(
    v: KernelView,
    env: Surroundings,
    number: u64,
    a: u64,
    b: u64,
    c: u64,
)
    requires
        number > 2,
        !(16 <= number <= 22),
        !(64 <= number <= 66),
        !(80 <= number <= 83),
    ensures
        fails(call_effect(v, env, number, a, b, c), v, 1),
{
}

/// Every call is counted, and the first one since boot reports how its stack
/// is aligned. Nothing else changes before the call itself.
pub proof fn law_calls_are_counted(v: KernelView, rsp: u64)
    ensures
        v.calls < u64::MAX ==> entered(v, rsp).calls == v.calls + 1,
        v.calls == u64::MAX ==> entered(v, rsp).calls == 0,
        entered(v, rsp).alignment_reported,
        v.alignment_reported ==> entered(v, rsp).tests == v.tests && entry_lines(v, rsp).len() == 0,
        !v.alignment_reported ==> entry_lines(v, rsp).len() == 1,
        entered(v, rsp) == (KernelView {
            calls: entered(v, rsp).calls,
            alignment_reported: true,
            tests: entered(v, rsp).tests,
            ..v
        }),
{
}

/// The caller of a system call is the process of the task on the CPU, and its
/// rights are those of its Realm.
pub proof fn law_caller_is_the_task_on_the_cpu(v: KernelView, right: u64)
    ensures
        v.scheduler.current matches Some(task) ==> caller(v) == task.pid,
        v.scheduler.current is None ==> caller(v) == 0,
        permitted(v, right) <==> (process::process_of(v.processes, caller(v)) matches Some(p)
            && p.profile.capabilities & right == right),
{
}

/// The log says with which status a program asked to end.
pub proof fn law_exit_is_logged(status: u32)
    ensures
        text::says(
            exit_line(status),
            seq![
                text::decimal(status as nat),
            ],
        ),
{
    let none = Seq::<Seq<char>>::empty();
    let start = "Najm Kernel: syscall exit(status = "@;
    text::lemma_says(
        start,
        none,
        text::decimal(status as nat),
        ") - program requested termination"@,
    );
    let line1 = start + text::decimal(status as nat) + ") - program requested termination"@;
    let parts1 = none.push(text::decimal(status as nat));
    assert(parts1 =~= seq![text::decimal(status as nat)]);
    assert(exit_line(status) =~= line1);
}

/// The log says where the bytes of a refused write were to come from, and
/// how many they were.
pub proof fn law_rejected_write_is_logged(ptr: u64, len: u64)
    ensures
        text::says(
            write_rejected_line(ptr, len),
            seq![
                text::hexadecimal(ptr as nat),
                text::decimal(len as nat),
            ],
        ),
{
    let none = Seq::<Seq<char>>::empty();
    let start = "Najm Kernel: syscall write REJECTED - buffer 0x"@;
    text::lemma_says(start, none, text::hexadecimal(ptr as nat), "..+"@);
    let line1 = start + text::hexadecimal(ptr as nat) + "..+"@;
    let parts1 = none.push(text::hexadecimal(ptr as nat));
    text::lemma_says(
        line1,
        parts1,
        text::decimal(len as nat),
        " is not a user-accessible mapped range"@,
    );
    let line2 = line1 + text::decimal(len as nat) + " is not a user-accessible mapped range"@;
    let parts2 = parts1.push(text::decimal(len as nat));
    assert(parts2 =~= seq![text::hexadecimal(ptr as nat), text::decimal(len as nat)]);
    assert(write_rejected_line(ptr, len) =~= line2);
}

/// The log says which number was called, and what was passed with it.
pub proof fn law_unknown_call_is_logged(number: u64, a: u64, b: u64, c: u64)
    ensures
        text::says(
            unknown_line(number, a, b, c),
            seq![
                text::hexadecimal(number as nat),
                text::hexadecimal(a as nat),
                text::hexadecimal(b as nat),
                text::hexadecimal(c as nat),
            ],
        ),
{
    let none = Seq::<Seq<char>>::empty();
    let start = "Najm Kernel: unknown syscall number 0x"@;
    text::lemma_says(start, none, text::hexadecimal(number as nat), " (args 0x"@);
    let line1 = start + text::hexadecimal(number as nat) + " (args 0x"@;
    let parts1 = none.push(text::hexadecimal(number as nat));
    text::lemma_says(line1, parts1, text::hexadecimal(a as nat), ", 0x"@);
    let line2 = line1 + text::hexadecimal(a as nat) + ", 0x"@;
    let parts2 = parts1.push(text::hexadecimal(a as nat));
    text::lemma_says(line2, parts2, text::hexadecimal(b as nat), ", 0x"@);
    let line3 = line2 + text::hexadecimal(b as nat) + ", 0x"@;
    let parts3 = parts2.push(text::hexadecimal(b as nat));
    text::lemma_says(line3, parts3, text::hexadecimal(c as nat), ")"@);
    let line4 = line3 + text::hexadecimal(c as nat) + ")"@;
    let parts4 = parts3.push(text::hexadecimal(c as nat));
    assert(parts4 =~= seq![
        text::hexadecimal(number as nat),
        text::hexadecimal(a as nat),
        text::hexadecimal(b as nat),
        text::hexadecimal(c as nat),
    ]);
    assert(unknown_line(number, a, b, c) =~= line4);
}

/// What is reported of the stack is where it was, and how far off it was.
pub proof fn law_alignment_is_reported(rsp: u64)
    ensures
        text::says(
            alignment_detail(rsp),
            seq![
                text::hexadecimal(rsp as nat),
                text::decimal((rsp % 16) as nat),
            ],
        ),
{
    let none = Seq::<Seq<char>>::empty();
    let start = "RSP 0x"@;
    text::lemma_says(start, none, text::hexadecimal(rsp as nat), " at the dispatcher call is "@);
    let line1 = start + text::hexadecimal(rsp as nat) + " at the dispatcher call is "@;
    let parts1 = none.push(text::hexadecimal(rsp as nat));
    text::lemma_says(
        line1,
        parts1,
        text::decimal((rsp % 16) as nat),
        " bytes off a 16-byte boundary"@,
    );
    let line2 = line1 + text::decimal((rsp % 16) as nat) + " bytes off a 16-byte boundary"@;
    let parts2 = parts1.push(text::decimal((rsp % 16) as nat));
    assert(parts2 =~= seq![text::hexadecimal(rsp as nat), text::decimal((rsp % 16) as nat)]);
    assert(alignment_detail(rsp) =~= line2);
}

} // verus!
