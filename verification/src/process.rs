//! Processes: a user program with its own address space, its own kernel
//! stack, its own rights, and a lifecycle.
//!
//! The table outlives the tasks, so a process's exit status can be asked
//! for after it has ended. Identifiers start at 1, and 0 means that there
//! is no process.
use vstd::prelude::*;
use crate::abi::{archive, fd};
use crate::arch::x86_64::usermode::ProgramExit;
use crate::fs::Node;
use crate::mm::address_space::AddressSpace;
use crate::realm::RealmProfile;
use crate::sched::class::{self, SchedClass};
use crate::text::{self, from_utf8, push_decimal, push_hexadecimal};

verus! {

broadcast use vstd::slice::group_slice_axioms;

/// How far a process is through its life.
#[derive(Debug, Clone, Copy, PartialEq, Eq, Structural)]
pub enum ProcessState {
    /// Created but not yet scheduled.
    Ready,
    /// Executing, or waiting to be resumed.
    Running,
    /// Finished, in this way.
    Exited(ProgramExit),
}

/// One open file: which node, how far through it the reader is, and the
/// path it was opened with. Directory nodes are all alike, so the path
/// cannot be had from the node.
#[derive(Debug, Clone, Copy)]
pub struct OpenFile {
    pub node: Node,
    pub position: usize,
    /// The path, in the first `path_len` bytes.
    pub path: [u8; 120],
    pub path_len: usize,
}

/// What an open file is.
pub struct FileView {
    pub node: Node,
    pub position: usize,
    /// The path, as UTF-8.
    pub path: Seq<u8>,
}

/// A path is text and fits.
pub open spec fn file_is_sound(file: FileView) -> bool {
    file.path.len() <= archive::MAX_PATH && vstd::utf8::valid_utf8(file.path)
}

/// The open files of a process, by descriptor.
pub type Files = Seq<Option<FileView>>;

impl View for OpenFile {
    type V = FileView;

    open spec fn view(&self) -> FileView {
        FileView { node: self.node, position: self.position, path: self.path_bytes() }
    }
}

impl OpenFile {
    /// The bytes of the path.
    pub open spec fn path_bytes(&self) -> Seq<u8> {
        self.path@.subrange(0, self.path_len as int)
    }

    /// The path is text, and fits.
    pub open spec fn wf(&self) -> bool {
        self.path_len <= 120 && file_is_sound(self@)
    }

    /// A file at its beginning. `None` if the path is too long to be one.
    pub fn new(node: Node, path: &str) -> (r: Option<OpenFile>)
        ensures
            match r {
                Some(file) => {
                    &&& vstd::utf8::encode_utf8(path@).len() <= archive::MAX_PATH
                    &&& file.wf()
                    &&& file@ == (FileView {
                        node,
                        position: 0,
                        path: vstd::utf8::encode_utf8(path@),
                    })
                },
                None => vstd::utf8::encode_utf8(path@).len() > archive::MAX_PATH,
            },
    {
        let bytes = path.as_bytes();
        if bytes.len() > archive::MAX_PATH {
            return None;
        }
        let mut buffer: [u8; 120] = [0;120];
        let mut i: usize = 0;
        while i < bytes.len()
            invariant
                i <= bytes.len() <= 120,
                buffer@.subrange(0, i as int) == bytes@.subrange(0, i as int),
            decreases bytes.len() - i,
        {
            let ghost before = buffer@;
            buffer[i] = bytes[i];
            i += 1;
            assert(buffer@.subrange(0, i as int) =~= bytes@.subrange(0, i as int));
        }
        let file = OpenFile { node, position: 0, path: buffer, path_len: bytes.len() };
        proof {
            assert(bytes@.subrange(0, i as int) =~= bytes@);
            vstd::utf8::encode_utf8_valid_utf8(path@);
        }
        Some(file)
    }

    /// The path this was opened with.
    pub fn path(&self) -> (path: &str)
        requires
            self.wf(),
        ensures
            vstd::utf8::encode_utf8(path@) == self@.path,
    {
        let bytes: &[u8] = vstd::slice::slice_subrange(self.path.as_slice(), 0, self.path_len);
        match from_utf8(bytes) {
            Some(path) => path,
            None => "",
        }
    }
}

// ---------------------------------------------------------------------
// Descriptors
// ---------------------------------------------------------------------

/// The descriptor table with slots for the console's descriptors, which
/// are never used.
pub open spec fn padded(files: Files) -> Files {
    if files.len() >= fd::FIRST_DYNAMIC {
        files
    } else {
        files + Seq::new((fd::FIRST_DYNAMIC - files.len()) as nat, |i: int| None::<FileView>)
    }
}

/// The first free slot from `i` on.
pub open spec fn first_free(files: Files, i: int) -> int
    decreases files.len() - i,
{
    if 0 <= i < files.len() && files[i] is Some {
        first_free(files, i + 1)
    } else {
        i
    }
}

/// The descriptor an open returns: the lowest free one past the console's.
pub open spec fn next_descriptor(files: Files) -> int {
    first_free(padded(files), fd::FIRST_DYNAMIC as int)
}

/// The table after an open.
pub open spec fn opened(files: Files, file: FileView) -> Files {
    let table = padded(files);
    let d = next_descriptor(files);
    if d < table.len() {
        table.update(d, Some(file))
    } else {
        table.push(Some(file))
    }
}

/// What a descriptor refers to.
pub open spec fn file_at(files: Files, descriptor: u64) -> Option<FileView> {
    if descriptor < files.len() {
        files[descriptor as int]
    } else {
        None
    }
}

proof fn lemma_first_free(files: Files, i: int)
    requires
        0 <= i <= files.len(),
    ensures
        i <= first_free(files, i) <= files.len(),
        first_free(files, i) < files.len() ==> files[first_free(files, i)] is None,
        forall|k: int| i <= k < first_free(files, i) ==> (#[trigger] files[k]) is Some,
    decreases files.len() - i,
{
    if i < files.len() && files[i] is Some {
        lemma_first_free(files, i + 1);
    }
}

// ---------------------------------------------------------------------
// The table
// ---------------------------------------------------------------------

/// The kernel's record of one process.
#[derive(Debug)]
pub struct Process {
    pub pid: u64,
    pub name: String,
    pub profile: RealmProfile,
    pub state: ProcessState,
    files: Vec<Option<OpenFile>>,
}

/// The views of open files.
pub open spec fn file_views(files: Seq<Option<OpenFile>>) -> Files {
    Seq::new(
        files.len(),
        |i: int|
            match files[i] {
                Some(file) => Some(file@),
                None => None,
            },
    )
}

/// What a process is.
pub struct ProcessView {
    pub pid: u64,
    pub name: Seq<char>,
    pub profile: RealmProfile,
    pub state: ProcessState,
    pub files: Files,
}

impl View for Process {
    type V = ProcessView;

    closed spec fn view(&self) -> ProcessView {
        ProcessView {
            pid: self.pid,
            name: self.name@,
            profile: self.profile,
            state: self.state,
            files: file_views(self.files@),
        }
    }
}

/// Every process since boot, in the order of their identifiers.
#[derive(Debug)]
pub struct ProcessTable {
    processes: Vec<Process>,
}

impl View for ProcessTable {
    type V = Seq<ProcessView>;

    closed spec fn view(&self) -> Seq<ProcessView> {
        Seq::new(self.processes@.len(), |i: int| self.processes@[i]@)
    }
}

/// Identifiers count up from 1.
pub open spec fn table_is_regular(table: Seq<ProcessView>) -> bool {
    &&& table.len() < u64::MAX
    &&& forall|i: int| 0 <= i < table.len() ==> (#[trigger] table[i]).pid == i + 1
}

/// The process with identifier `pid`.
pub open spec fn process_of(table: Seq<ProcessView>, pid: u64) -> Option<ProcessView> {
    if 0 < pid <= table.len() {
        Some(table[pid - 1])
    } else {
        None
    }
}

/// The open files of process `pid`; none for what is not a process.
pub open spec fn files_of(table: Seq<ProcessView>, pid: u64) -> Files {
    match process_of(table, pid) {
        Some(process) => process.files,
        None => Seq::empty(),
    }
}

/// The table with other open files for process `pid`.
pub open spec fn with_files(
    table: Seq<ProcessView>,
    pid: u64,
    files: Files,
) -> Seq<ProcessView> {
    table.update(pid - 1, ProcessView { files, ..table[pid - 1] })
}

impl ProcessTable {
    /// Every open file is sound.
    pub closed spec fn files_are_sound(&self) -> bool {
        forall|i: int|
            0 <= i < self.processes@.len() ==> slots_are_sound(
                (#[trigger] self.processes@[i]).files@,
            )
    }

    pub open spec fn wf(&self) -> bool {
        table_is_regular(self@) && self.files_are_sound()
    }

    /// No processes yet.
    pub fn new() -> (r: ProcessTable)
        ensures
            r.wf(),
            r@ == Seq::<ProcessView>::empty(),
    {
        let r = ProcessTable { processes: Vec::new() };
        assert(r@ =~= Seq::<ProcessView>::empty());
        r
    }

    fn index_of(&self, pid: u64) -> (r: Option<usize>)
        ensures
            match r {
                Some(i) => process_of(self@, pid) == Some(self@[i as int]) && i == pid - 1 && i
                    < self@.len() && i < self.processes.len(),
                None => process_of(self@, pid) is None,
            },
    {
        if pid == 0 || pid > self.processes.len() as u64 {
            None
        } else {
            Some((pid - 1) as usize)
        }
    }
}

/// An image ready to be made a process.
#[derive(Debug)]
pub struct LoadedImage {
    pub name: String,
    pub entry: u64,
    pub stack_top: u64,
    pub address_space: AddressSpace,
}

/// What the process's task needs. It owns the address space, whose frames
/// are reclaimed when the task ends.
#[derive(Debug)]
pub struct ProcessContext {
    pub pid: u64,
    pub entry: u64,
    pub stack_top: u64,
    pub address_space: AddressSpace,
}

/// A process that has been recorded and is to be scheduled.
#[derive(Debug)]
pub struct NewProcess {
    pub context: ProcessContext,
    /// The root its task is scheduled with.
    pub root: u64,
    /// The class its task is scheduled in: its Realm decides.
    pub class: SchedClass,
    /// For the log.
    pub line: String,
}

/// The log line about a new process.
pub open spec fn created_line(
    pid: u64,
    name: Seq<char>,
    entry: u64,
    stack_top: u64,
    realm: Seq<char>,
) -> Seq<char> {
    "Najm Kernel: process "@ + text::decimal(pid as nat) + " ("@ + name + ") created - entry 0x"@
        + text::hexadecimal(entry as nat) + ", stack top 0x"@ + text::hexadecimal(stack_top as nat)
        + ", Realm "@ + realm
}

/// The table with one more process, which has not run yet.
pub open spec fn spawned(
    table: Seq<ProcessView>,
    name: Seq<char>,
    profile: RealmProfile,
) -> Seq<ProcessView> {
    table.push(
        ProcessView {
            pid: (table.len() + 1) as u64,
            name,
            profile,
            state: ProcessState::Ready,
            files: Seq::empty(),
        },
    )
}

/// The table with process `pid` in another state. An identifier that is not
/// a process's changes nothing.
pub open spec fn with_state(
    table: Seq<ProcessView>,
    pid: u64,
    state: ProcessState,
) -> Seq<ProcessView> {
    match process_of(table, pid) {
        Some(process) => table.update(pid - 1, ProcessView { state, ..process }),
        None => table,
    }
}

/// Records a process made from a loaded image. It has not run yet.
pub fn spawn(table: &mut ProcessTable, image: LoadedImage, profile: RealmProfile) -> (r: NewProcess)
    requires
        old(table).wf(),
        old(table)@.len() + 1 < u64::MAX,
    ensures
        final(table).wf(),
        r.context.pid == old(table)@.len() + 1,
        final(table)@ == spawned(old(table)@, image.name@, profile),
        r.context.entry == image.entry,
        r.context.stack_top == image.stack_top,
        r.context.address_space == image.address_space,
        r.root == image.address_space.root(),
        r.class == class::class_of_realm(profile.kind),
        r.line@ == created_line(
            r.context.pid,
            image.name@,
            image.entry,
            image.stack_top,
            profile.name@,
        ),
{
    let pid: u64 = table.processes.len() as u64 + 1;
    let ghost before = table@;
    let mut line = String::from_str("Najm Kernel: process ");
    push_decimal(&mut line, pid);
    line.append(" (");
    line.append(image.name.as_str());
    line.append(") created - entry 0x");
    push_hexadecimal(&mut line, image.entry);
    line.append(", stack top 0x");
    push_hexadecimal(&mut line, image.stack_top);
    line.append(", Realm ");
    line.append(profile.name);
    let process = Process {
        pid,
        name: image.name,
        profile,
        state: ProcessState::Ready,
        files: Vec::new(),
    };
    table.processes.push(process);
    proof {
        assert(process@.files =~= Seq::<Option<FileView>>::empty());
        assert(table@ =~= spawned(before, image.name@, profile));
    }
    let root: u64 = image.address_space.root_frame();
    NewProcess {
        context: ProcessContext {
            pid,
            entry: image.entry,
            stack_top: image.stack_top,
            address_space: image.address_space,
        },
        root,
        class: SchedClass::for_realm(profile.kind),
        line,
    }
}

/// Moves a process on. An identifier that is not a process's is ignored.
pub fn set_state(table: &mut ProcessTable, pid: u64, state: ProcessState)
    requires
        old(table).wf(),
    ensures
        final(table).wf(),
        final(table)@ == with_state(old(table)@, pid, state),
{
    let ghost before = table@;
    if let Some(i) = table.index_of(pid) {
        table.processes[i].state = state;
        proof {
            let after = before.update(
                i as int,
                ProcessView { state, ..before[i as int] },
            );
            assert(table@ =~= after);
        }
    }
}

/// The log line about a process that ended.
pub open spec fn ended_line(pid: u64, exit: ProgramExit) -> Seq<char> {
    "Najm Kernel: process "@ + text::decimal(pid as nat) + " ended with "@ + exit.text()
}

/// Records how a process ended, and says so.
pub fn finish(table: &mut ProcessTable, pid: u64, exit: ProgramExit) -> (line: String)
    requires
        old(table).wf(),
    ensures
        final(table).wf(),
        final(table)@ == with_state(old(table)@, pid, ProcessState::Exited(exit)),
        line@ == ended_line(pid, exit),
{
    set_state(table, pid, ProcessState::Exited(exit));
    let mut line = String::from_str("Najm Kernel: process ");
    push_decimal(&mut line, pid);
    line.append(" ended with ");
    line.append(exit.describe().as_str());
    line
}

/// How `pid` ended, or `None` if it has not ended or never existed.
pub fn exit_status(table: &ProcessTable, pid: u64) -> (r: Option<ProgramExit>)
    ensures
        r == (match process_of(table@, pid) {
            Some(process) => match process.state {
                ProcessState::Exited(exit) => Some(exit),
                _ => None,
            },
            None => None,
        }),
{
    match table.index_of(pid) {
        Some(i) => match table.processes[i].state {
            ProcessState::Exited(exit) => Some(exit),
            _ => None,
        },
        None => None,
    }
}

/// The processes as they are now, in the order of their identifiers.
pub fn snapshot(table: &ProcessTable) -> (r: Vec<(u64, String, ProcessState)>)
    ensures
        r@.len() == table@.len(),
        forall|i: int|
            0 <= i < r@.len() ==> {
                &&& (#[trigger] r@[i]).0 == table@[i].pid
                &&& r@[i].1@ == table@[i].name
                &&& r@[i].2 == table@[i].state
            },
{
    let mut r: Vec<(u64, String, ProcessState)> = Vec::new();
    let mut i: usize = 0;
    while i < table.processes.len()
        invariant
            i <= table.processes.len(),
            table@.len() == table.processes.len(),
            r@.len() == i,
            forall|k: int|
                0 <= k < i ==> {
                    &&& (#[trigger] r@[k]).0 == table@[k].pid
                    &&& r@[k].1@ == table@[k].name
                    &&& r@[k].2 == table@[k].state
                },
        decreases table.processes.len() - i,
    {
        let process = &table.processes[i];
        r.push((process.pid, process.name.clone(), process.state));
        i += 1;
    }
    r
}

/// How many processes have been created since boot.
pub fn count(table: &ProcessTable) -> (n: u64)
    requires
        table.wf(),
    ensures
        n == table@.len(),
{
    table.processes.len() as u64
}

/// The profile of the process on the CPU. Without a process there is none,
/// which means no rights.
pub fn current_profile(table: &ProcessTable, current_pid: u64) -> (r: Option<RealmProfile>)
    ensures
        r == (match process_of(table@, current_pid) {
            Some(process) => Some(process.profile),
            None => None,
        }),
{
    match table.index_of(current_pid) {
        Some(i) => Some(table.processes[i].profile),
        None => None,
    }
}

/// Records an open file of the current process and returns its descriptor.
/// Without a process there is no table to record it in.
pub fn open_file(table: &mut ProcessTable, current_pid: u64, file: OpenFile) -> (r: Option<u64>)
    requires
        old(table).wf(),
        file.wf(),
        files_of(old(table)@, current_pid).len() < usize::MAX,
    ensures
        final(table).wf(),
        match r {
            Some(descriptor) => {
                let files = files_of(old(table)@, current_pid);
                &&& process_of(old(table)@, current_pid) is Some
                &&& descriptor == next_descriptor(files)
                &&& final(table)@ == with_files(old(table)@, current_pid, opened(files, file@))
            },
            None => process_of(old(table)@, current_pid) is None && final(table)@ == old(table)@,
        },
{
    let i: usize = match table.index_of(current_pid) {
        Some(i) => i,
        None => {
            return None;
        },
    };
    let ghost before = table@;
    let ghost files = before[i as int].files;
    let mut slots: Vec<Option<OpenFile>> = Vec::new();
    let mut k: usize = 0;
    while k < table.processes[i].files.len()
        invariant
            i < table.processes.len(),
            k <= table.processes@[i as int].files.len(),
            table@ == before,
            table.wf(),
            files == file_views(table.processes@[i as int].files@),
            files == table@[i as int].files,
            slots@ == table.processes@[i as int].files@.subrange(0, k as int),
            slots_are_sound(slots@),
        decreases table.processes@[i as int].files.len() - k,
    {
        let slot: Option<OpenFile> = table.processes[i].files[k];
        assert(table@[i as int].files[k as int] == (match slot {
            Some(file) => Some(file@),
            None => None,
        }));
        slots.push(slot);
        k += 1;
        assert(slots@ =~= table.processes@[i as int].files@.subrange(0, k as int));
    }
    assert(file_views(slots@) =~= files);
    let reserved: usize = fd::FIRST_DYNAMIC as usize;
    while slots.len() < reserved
        invariant
            reserved == fd::FIRST_DYNAMIC,
            slots@.len() <= reserved || slots@.len() == files.len(),
            files.len() <= slots@.len(),
            slots_are_sound(slots@),
            forall|d: int| 0 <= d < files.len() ==> file_views(slots@)[d] == files[d],
            forall|d: int|
                files.len() <= d < slots@.len() ==> (#[trigger] file_views(slots@)[d]) is None,
        decreases reserved - slots.len(),
    {
        let ghost shorter = slots@;
        slots.push(None);
        assert forall|d: int| 0 <= d < shorter.len() implies #[trigger] file_views(slots@)[d]
            == file_views(shorter)[d] by {}
    }
    assert(file_views(slots@) =~= padded(files));
    let ghost table_before = file_views(slots@);
    let mut d: usize = reserved;
    while d < slots.len() && slots[d].is_some()
        invariant
            reserved <= d <= slots.len(),
            table_before == file_views(slots@),
            first_free(table_before, reserved as int) == first_free(table_before, d as int),
        decreases slots.len() - d,
    {
        assert(table_before[d as int] is Some);
        d += 1;
    }
    assert(d < slots@.len() ==> table_before[d as int] is None);
    proof {
        lemma_first_free(table_before, reserved as int);
    }
    if d < slots.len() {
        slots.set(d, Some(file));
        assert(file_views(slots@) =~= table_before.update(d as int, Some(file@)));
    } else {
        slots.push(Some(file));
        assert(file_views(slots@) =~= table_before.push(Some(file@)));
    }
    let ghost new_files = file_views(slots@);
    assert(new_files == opened(files, file@));
    table.processes[i].files = slots;
    assert(table@ =~= with_files(before, current_pid, new_files));
    Some(d as u64)
}

/// Every open file is sound.
spec fn slots_are_sound(slots: Seq<Option<OpenFile>>) -> bool {
    forall|i: int| 0 <= i < slots.len() ==> (#[trigger] slots[i] matches Some(file) ==> file.wf())
}

/// What a descriptor of the current process refers to.
pub fn get_file(table: &ProcessTable, current_pid: u64, descriptor: u64) -> (r: Option<OpenFile>)
    requires
        table.wf(),
    ensures
        match r {
            Some(file) => file.wf() && file_at(files_of(table@, current_pid), descriptor) == Some(
                file@,
            ),
            None => file_at(files_of(table@, current_pid), descriptor) is None,
        },
{
    match table.index_of(current_pid) {
        Some(i) => {
            if descriptor < table.processes[i].files.len() as u64 {
                let file: Option<OpenFile> = table.processes[i].files[descriptor as usize];
                assert(table@[i as int].files[descriptor as int] == (match file {
                    Some(file) => Some(file@),
                    None => None,
                }));
                file
            } else {
                None
            }
        },
        None => None,
    }
}

/// Moves an open file's position, and says whether the descriptor was
/// open.
pub fn set_file_position(
    table: &mut ProcessTable,
    current_pid: u64,
    descriptor: u64,
    position: usize,
) -> (r: bool)
    requires
        old(table).wf(),
    ensures
        final(table).wf(),
        match file_at(files_of(old(table)@, current_pid), descriptor) {
            Some(file) => r && final(table)@ == with_files(
                old(table)@,
                current_pid,
                files_of(old(table)@, current_pid).update(
                    descriptor as int,
                    Some(FileView { position, ..file }),
                ),
            ),
            None => !r && final(table)@ == old(table)@,
        },
{
    let mut file: OpenFile = match get_file(table, current_pid, descriptor) {
        Some(file) => file,
        None => {
            return false;
        },
    };
    file.position = position;
    set_slot(table, current_pid, descriptor, Some(file));
    true
}

/// Puts `slot` at an open descriptor.
fn set_slot(table: &mut ProcessTable, current_pid: u64, descriptor: u64, slot: Option<OpenFile>)
    requires
        old(table).wf(),
        file_at(files_of(old(table)@, current_pid), descriptor) is Some,
        slot matches Some(file) ==> file.wf(),
    ensures
        final(table).wf(),
        final(table)@ == with_files(
            old(table)@,
            current_pid,
            files_of(old(table)@, current_pid).update(
                descriptor as int,
                match slot {
                    Some(file) => Some(file@),
                    None => None,
                },
            ),
        ),
{
    let ghost before = table@;
    if let Some(i) = table.index_of(current_pid) {
        let ghost files = before[i as int].files;
        assert(descriptor < table.processes@[i as int].files.len());
        let at: usize = descriptor as usize;
        table.processes[i].files[at] = slot;
        proof {
            let new_files = files.update(
                descriptor as int,
                match slot {
                    Some(file) => Some(file@),
                    None => None,
                },
            );
            assert(table@[i as int].files =~= new_files);
            assert(table@ =~= with_files(before, current_pid, new_files));
        }
    }
}

/// Closes a descriptor, and says whether it was open.
pub fn close_file(table: &mut ProcessTable, current_pid: u64, descriptor: u64) -> (r: bool)
    requires
        old(table).wf(),
    ensures
        final(table).wf(),
        r == (file_at(files_of(old(table)@, current_pid), descriptor) is Some),
        if r {
            final(table)@ == with_files(
                old(table)@,
                current_pid,
                files_of(old(table)@, current_pid).update(descriptor as int, None),
            )
        } else {
            final(table)@ == old(table)@
        },
{
    if get_file(table, current_pid, descriptor).is_none() {
        return false;
    }
    set_slot(table, current_pid, descriptor, None);
    true
}

// ---------------------------------------------------------------------
// Laws
// ---------------------------------------------------------------------

/// An open returns the lowest descriptor that is not in use, and never one
/// of the console's. The other descriptors keep their files.
pub proof fn law_open_takes_the_lowest_descriptor(files: Files, file: FileView)
    requires
        files.len() < usize::MAX,
    ensures
        ({
            let d = next_descriptor(files);
            &&& fd::FIRST_DYNAMIC <= d <= u64::MAX
            &&& file_at(files, d as u64) is None
            &&& file_at(opened(files, file), d as u64) == Some(file)
            &&& forall|k: u64|
                fd::FIRST_DYNAMIC <= k < d ==> #[trigger] file_at(files, k) is Some
            &&& forall|k: u64|
                k != d ==> #[trigger] file_at(opened(files, file), k) == file_at(files, k)
        }),
{
    lemma_first_free(padded(files), fd::FIRST_DYNAMIC as int);
}

/// A closed descriptor is not open any more, and if every lower one is in
/// use, the next open returns it.
pub proof fn law_closed_descriptor_is_reused(files: Files, descriptor: u64)
    requires
        fd::FIRST_DYNAMIC <= descriptor < files.len(),
        forall|k: u64|
            fd::FIRST_DYNAMIC <= k < descriptor ==> #[trigger] file_at(files, k) is Some,
    ensures
        file_at(files.update(descriptor as int, None), descriptor) is None,
        next_descriptor(files.update(descriptor as int, None)) == descriptor,
{
    let after = files.update(descriptor as int, None);
    lemma_first_free(after, fd::FIRST_DYNAMIC as int);
    let d = next_descriptor(after);
    if d < descriptor {
        assert(file_at(files, d as u64) is Some);
        assert(after[d] == files[d]);
    } else if d > descriptor {
        assert(after[descriptor as int] is Some);
    }
}

/// A process's record is its own: what one process opens or closes leaves
/// every other process as it was.
pub proof fn law_descriptors_are_private(
    table: Seq<ProcessView>,
    pid: u64,
    other: u64,
    files: Files,
)
    requires
        process_of(table, pid) is Some,
        other != pid,
    ensures
        process_of(with_files(table, pid, files), other) == process_of(table, other),
{
}

/// What can happen to the table.
pub enum TableChange {
    Spawn { name: Seq<char>, profile: RealmProfile },
    State { pid: u64, state: ProcessState },
    Files { pid: u64, files: Files },
}

/// The table after a change. What is not a process has no files to change.
pub open spec fn changed(table: Seq<ProcessView>, change: TableChange) -> Seq<ProcessView> {
    match change {
        TableChange::Spawn { name, profile } => spawned(table, name, profile),
        TableChange::State { pid, state } => with_state(table, pid, state),
        TableChange::Files { pid, files } => if process_of(table, pid) is Some {
            with_files(table, pid, files)
        } else {
            table
        },
    }
}

/// The table after all of these changes, from an empty one.
pub open spec fn table_after(changes: Seq<TableChange>) -> Seq<ProcessView>
    decreases changes.len(),
{
    if changes.len() == 0 {
        Seq::empty()
    } else {
        changed(table_after(changes.drop_last()), changes.last())
    }
}

/// How many of the changes are new processes.
pub open spec fn spawns(changes: Seq<TableChange>) -> nat
    decreases changes.len(),
{
    if changes.len() == 0 {
        0
    } else {
        spawns(changes.drop_last()) + (if changes.last() is Spawn {
            1nat
        } else {
            0
        })
    }
}

/// The count is how many processes were created since boot, whatever became
/// of them: their identifiers are 1, 2, 3 and so on in the order of their
/// creation, none of them is 0, and one that ends keeps its place.
pub proof fn law_identifiers_count_up_from_one(changes: Seq<TableChange>)
    requires
        spawns(changes) < u64::MAX,
    ensures
        table_after(changes).len() == spawns(changes),
        forall|i: int|
            0 <= i < spawns(changes) ==> (#[trigger] table_after(changes)[i]).pid == i + 1,
        process_of(table_after(changes), 0) is None,
    decreases changes.len(),
{
    if changes.len() > 0 {
        law_identifiers_count_up_from_one(changes.drop_last());
        let before = table_after(changes.drop_last());
        let after = table_after(changes);
        assert forall|i: int| 0 <= i < after.len() implies (#[trigger] after[i]).pid == i + 1 by {
            if i < before.len() {
                assert(before[i].pid == i + 1);
                assert(after[i].pid == before[i].pid);
            }
        }
    }
}

/// A process is found by its identifier, and only that one.
pub proof fn law_processes_are_found(table: Seq<ProcessView>, i: int, pid: u64)
    requires
        table_is_regular(table),
    ensures
        0 <= i < table.len() && table[i].pid == pid ==> process_of(table, pid) == Some(table[i])
            && files_of(table, pid) == table[i].files,
        (forall|k: int| 0 <= k < table.len() ==> (#[trigger] table[k]).pid != pid) ==> process_of(
            table,
            pid,
        ) is None && files_of(table, pid).len() == 0,
{
    if process_of(table, pid) is Some {
        assert(table[pid - 1].pid == pid);
    }
}

/// What changes in the table: a new process is the last, has not run and has
/// nothing open; a state or a set of open files is that of one process. All
/// other processes stay as they are, and so does everything else about that
/// one.
pub proof fn law_changes_are_of_one_process(
    table: Seq<ProcessView>,
    name: Seq<char>,
    profile: RealmProfile,
    state: ProcessState,
    files: Files,
    i: int,
    k: int,
)
    requires
        table_is_regular(table),
        table.len() + 1 < u64::MAX,
        0 <= i < table.len(),
        0 <= k < table.len(),
    ensures
        ({
            let count = table.len() as int;
            let after = spawned(table, name, profile);
            let new = after[count];
            &&& after.len() == count + 1
            &&& after[k] == table[k]
            &&& new.pid == count + 1
            &&& new.name == name
            &&& new.profile == profile
            &&& new.state == ProcessState::Ready
            &&& new.files.len() == 0
        }),
        ({
            let after = with_state(table, table[i].pid, state);
            &&& after.len() == table.len()
            &&& k != i ==> after[k] == table[k]
            &&& after[i] == (ProcessView { state, ..table[i] })
        }),
        ({
            let after = with_files(table, table[i].pid, files);
            &&& after.len() == table.len()
            &&& k != i ==> after[k] == table[k]
            &&& after[i] == (ProcessView { files, ..table[i] })
            &&& files_of(after, table[i].pid) == files
        }),
        forall|pid: u64|
            (forall|j: int| 0 <= j < table.len() ==> (#[trigger] table[j]).pid != pid)
                ==> #[trigger] with_state(table, pid, state) == table,
{
    assert(table[i].pid == i + 1);
    assert forall|pid: u64|
        (forall|j: int| 0 <= j < table.len() ==> (#[trigger] table[j]).pid != pid) implies
        #[trigger] with_state(table, pid, state) == table by {
        law_processes_are_found(table, 0, pid);
    }
}

/// The log says of a new process its identifier, its name, where it starts,
/// its stack and its Realm.
pub proof fn law_new_process_is_announced(
    pid: u64,
    name: Seq<char>,
    entry: u64,
    stack_top: u64,
    realm: Seq<char>,
)
    ensures
        text::says(
            created_line(pid, name, entry, stack_top, realm),
            seq![
                text::decimal(pid as nat),
                name,
                text::hexadecimal(entry as nat),
                text::hexadecimal(stack_top as nat),
                realm,
            ],
        ),
{
    let none = Seq::<Seq<char>>::empty();
    let start = "Najm Kernel: process "@;
    text::lemma_says(start, none, text::decimal(pid as nat), " ("@);
    let line1 = start + text::decimal(pid as nat) + " ("@;
    let parts1 = none.push(text::decimal(pid as nat));
    text::lemma_says(line1, parts1, name, ") created - entry 0x"@);
    let line2 = line1 + name + ") created - entry 0x"@;
    let parts2 = parts1.push(name);
    text::lemma_says(line2, parts2, text::hexadecimal(entry as nat), ", stack top 0x"@);
    let line3 = line2 + text::hexadecimal(entry as nat) + ", stack top 0x"@;
    let parts3 = parts2.push(text::hexadecimal(entry as nat));
    text::lemma_says(line3, parts3, text::hexadecimal(stack_top as nat), ", Realm "@);
    let line4 = line3 + text::hexadecimal(stack_top as nat) + ", Realm "@;
    let parts4 = parts3.push(text::hexadecimal(stack_top as nat));
    text::lemma_says(line4, parts4, realm, Seq::<char>::empty());
    let line5 = line4 + realm + Seq::<char>::empty();
    let parts5 = parts4.push(realm);
    assert(parts5 =~= seq![
        text::decimal(pid as nat),
        name,
        text::hexadecimal(entry as nat),
        text::hexadecimal(stack_top as nat),
        realm,
    ]);
    assert(created_line(pid, name, entry, stack_top, realm) =~= line5);
}

/// The log says which process ended, and how.
pub proof fn law_ending_is_announced(pid: u64, exit: ProgramExit)
    ensures
        text::says(
            ended_line(pid, exit),
            seq![
                text::decimal(pid as nat),
                exit.text(),
            ],
        ),
{
    let none = Seq::<Seq<char>>::empty();
    let start = "Najm Kernel: process "@;
    text::lemma_says(start, none, text::decimal(pid as nat), " ended with "@);
    let line1 = start + text::decimal(pid as nat) + " ended with "@;
    let parts1 = none.push(text::decimal(pid as nat));
    text::lemma_says(line1, parts1, exit.text(), Seq::<char>::empty());
    let line2 = line1 + exit.text() + Seq::<char>::empty();
    let parts2 = parts1.push(exit.text());
    assert(parts2 =~= seq![text::decimal(pid as nat), exit.text()]);
    assert(ended_line(pid, exit) =~= line2);
}

} // verus!
