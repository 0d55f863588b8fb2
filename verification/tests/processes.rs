use najm_kernel::arch::x86_64::usermode::ProgramExit;
use najm_kernel::fs::Node;
use najm_kernel::mm::address_space::AddressSpace;
use najm_kernel::process::{
    close_file, count, current_profile, exit_status, finish, get_file, open_file,
    set_file_position, set_state, snapshot, spawn, LoadedImage, OpenFile, ProcessState,
    ProcessTable,
};
use najm_kernel::realm;
use najm_kernel::sched::class::SchedClass;

fn image(name: &str, root: u64) -> LoadedImage {
    let mut mem = vec![0u8; 0x10000];
    mem[0x1000 + 8 * 256] = 1;
    LoadedImage {
        name: String::from(name),
        entry: 0x40_0000,
        stack_top: 0x7fff_f000_0000,
        address_space: AddressSpace::new(&mut mem, Some(root), 0x1000).unwrap(),
    }
}

fn file(path: &str) -> OpenFile {
    OpenFile::new(Node { offset: 10, len: 100, is_directory: false }, path).unwrap()
}

#[test]
fn processes_are_numbered_from_one_and_remembered() {
    let mut table = ProcessTable::new();
    assert_eq!(count(&table), 0);
    let first = spawn(&mut table, image("hello", 0x2000), realm::home());
    assert_eq!(first.context.pid, 1);
    assert_eq!(first.root, 0x2000);
    assert_eq!(first.class, SchedClass::Normal);
    assert_eq!(
        first.line,
        "Najm Kernel: process 1 (hello) created - entry 0x400000, stack top 0x7ffff0000000, Realm Home Realm"
    );
    let second = spawn(&mut table, image("gui", 0x3000), realm::gaming());
    assert_eq!((second.context.pid, second.class), (2, SchedClass::Realtime));
    assert_eq!(exit_status(&table, 1), None);
    set_state(&mut table, 1, ProcessState::Running);
    let line = finish(&mut table, 1, ProgramExit::Exited(7));
    assert_eq!(line, "Najm Kernel: process 1 ended with Exited(7)");
    assert_eq!(exit_status(&table, 1), Some(ProgramExit::Exited(7)));
    assert_eq!(exit_status(&table, 2), None);
    assert_eq!(exit_status(&table, 3), None);
    finish(&mut table, 9, ProgramExit::PageFault);
    let processes = snapshot(&table);
    assert_eq!(processes.len(), 2);
    assert_eq!(processes[0].2, ProcessState::Exited(ProgramExit::Exited(7)));
    assert_eq!((processes[1].0, processes[1].1.as_str()), (2, "gui"));
    assert_eq!(count(&table), 2);
}

#[test]
fn no_process_has_no_profile() {
    let mut table = ProcessTable::new();
    spawn(&mut table, image("vault", 0x2000), realm::vault());
    assert!(current_profile(&table, 0).is_none());
    assert!(current_profile(&table, 2).is_none());
    assert_eq!(current_profile(&table, 1).unwrap().name, "Vault Realm");
    assert_eq!(open_file(&mut table, 0, file("/a")), None);
    assert!(get_file(&table, 0, 3).is_none());
    assert!(!close_file(&mut table, 0, 3));
}

#[test]
fn descriptors_start_at_three_and_are_reused_lowest_first() {
    let mut table = ProcessTable::new();
    spawn(&mut table, image("a", 0x2000), realm::home());
    spawn(&mut table, image("b", 0x3000), realm::home());
    assert_eq!(open_file(&mut table, 1, file("/a")), Some(3));
    assert_eq!(open_file(&mut table, 1, file("/b")), Some(4));
    assert_eq!(open_file(&mut table, 1, file("/c")), Some(5));
    assert!(close_file(&mut table, 1, 4));
    assert!(!close_file(&mut table, 1, 4));
    assert!(get_file(&table, 1, 4).is_none());
    assert_eq!(open_file(&mut table, 1, file("/d")), Some(4));
    assert_eq!(open_file(&mut table, 1, file("/e")), Some(6));
    assert_eq!(get_file(&table, 1, 4).unwrap().path(), "/d");
    assert_eq!(get_file(&table, 1, 5).unwrap().path(), "/c");
    // Another process's descriptors are its own.
    assert!(get_file(&table, 2, 3).is_none());
    assert_eq!(open_file(&mut table, 2, file("/z")), Some(3));
    assert!(!close_file(&mut table, 1, 0));
    assert!(!close_file(&mut table, 1, u64::MAX));
}

#[test]
fn positions_belong_to_descriptors() {
    let mut table = ProcessTable::new();
    spawn(&mut table, image("a", 0x2000), realm::home());
    open_file(&mut table, 1, file("/same"));
    open_file(&mut table, 1, file("/same"));
    assert!(set_file_position(&mut table, 1, 3, 40));
    assert_eq!(get_file(&table, 1, 3).unwrap().position, 40);
    assert_eq!(get_file(&table, 1, 4).unwrap().position, 0);
    assert!(!set_file_position(&mut table, 1, 9, 1));
}

#[test]
fn a_path_that_is_too_long_is_not_opened() {
    let node = Node { offset: 0, len: 0, is_directory: true };
    let longest = "a".repeat(120);
    assert_eq!(OpenFile::new(node, &longest).unwrap().path(), longest);
    assert!(OpenFile::new(node, &"a".repeat(121)).is_none());
    assert!(OpenFile::new(node, &"é".repeat(61)).is_none());
    assert_eq!(OpenFile::new(node, "é/☃").unwrap().path(), "é/☃");
}

#[test]
fn the_count_is_of_processes_ever_made() {
    let mut table = ProcessTable::new();
    for i in 1..=5 {
        let new = spawn(&mut table, image("p", 0x2000), realm::home());
        assert_eq!(new.context.pid, i);
        assert_eq!(count(&table), i);
        finish(&mut table, i, ProgramExit::PageFault);
        finish(&mut table, 0, ProgramExit::PageFault);
        assert_eq!(count(&table), i);
    }
    let pids: Vec<u64> = snapshot(&table).iter().map(|process| process.0).collect();
    assert_eq!(pids, [1, 2, 3, 4, 5]);
}
