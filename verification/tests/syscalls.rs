use najm_kernel::abi::{capability_bits, decode, err, input_kind, seek, sys};
use najm_kernel::arch::x86_64::interrupts::Clock;
use najm_kernel::arch::x86_64::usermode::ProgramExit;
use najm_kernel::drivers::input::{self, on_scancode, Input};
use najm_kernel::fs::{mount, FileSystem};
use najm_kernel::graphics::compositor::{self, Compositor};
use najm_kernel::graphics::font::Font;
use najm_kernel::graphics::framebuffer::{Framebuffer, PixelFormat};
use najm_kernel::graphics::theme::Theme;
use najm_kernel::mm::address_space::AddressSpace;
use najm_kernel::mm::kstack::KernelStack;
use najm_kernel::mm::paging::{PRESENT, USER_ACCESSIBLE, WRITABLE};
use najm_kernel::process::{self, LoadedImage, ProcessTable};
use najm_kernel::realm::{self, RealmProfile};
use najm_kernel::sched::task::{self, Scheduler};
use najm_kernel::selftest::Tally;
use najm_kernel::syscall::{count, dispatch, Action, Kernel, Reply};

const WIDTH: usize = 100;
const HEIGHT: usize = 60;

fn archive() -> Vec<u8> {
    let entries: [(&str, u32, &[u8]); 4] = [
        ("/etc", 1, b""),
        ("/etc/hosts", 0, b"127.0.0.1"),
        ("/etc/motd", 0, b"Hello from Najm"),
        ("/top", 0, b"t"),
    ];
    let mut out = b"NAJMAR\0\0".to_vec();
    out.extend_from_slice(&1u32.to_le_bytes());
    out.extend_from_slice(&4u32.to_le_bytes());
    out.extend_from_slice(&0u64.to_le_bytes());
    let mut at = 24 + 144 * 4u64;
    for (path, flags, bytes) in entries {
        out.extend_from_slice(&at.to_le_bytes());
        out.extend_from_slice(&(bytes.len() as u64).to_le_bytes());
        out.extend_from_slice(&flags.to_le_bytes());
        out.extend_from_slice(&(path.len() as u32).to_le_bytes());
        let mut field = vec![0u8; 120];
        field[..path.len()].copy_from_slice(path.as_bytes());
        out.extend_from_slice(&field);
        at += bytes.len() as u64;
    }
    for (_, _, bytes) in entries {
        out.extend_from_slice(bytes);
    }
    out
}

struct Machine<'a> {
    kernel: Kernel<'a>,
    mem: Vec<u8>,
    screen: Vec<u8>,
    font: Font,
}

const ROOT: u64 = 0x2000;
/// A page of user memory, backed by the frame at 0x8000.
const PAGE: u64 = 0x40_0000;
/// A read-only one, backed by the frame at 0x9000.
const CONSTANT: u64 = 0x40_1000;

impl<'a> Machine<'a> {
    fn new(files: FileSystem<'a>, profile: Option<RealmProfile>) -> Machine<'a> {
        let mut mem = vec![0u8; 0x10000];
        mem[0x1000 + 8 * 256] = 1;
        let space = AddressSpace::new(&mut mem, Some(ROOT), 0x1000).unwrap();
        let user = PRESENT | WRITABLE | USER_ACCESSIBLE;
        for (at, entry) in [
            (0x2000usize, 0x3000 | user),
            (0x3000, 0x4000 | user),
            (0x4000 + 8 * 2, 0x5000 | user),
            (0x5000, 0x8000 | user),
            (0x5008, 0x9000 | PRESENT | USER_ACCESSIBLE),
        ] {
            mem[at..at + 8].copy_from_slice(&entry.to_le_bytes());
        }
        let mut kernel = Kernel {
            processes: ProcessTable::new(),
            files,
            compositor: Compositor::new(),
            input: Input::new(),
            clock: Clock { ticks: 7, ring3_preemptions: 0 },
            scheduler: Scheduler::new(),
            calls: 0,
            alignment_reported: true,
            tests: Tally::new(),
        };
        let len = WIDTH * HEIGHT * 4;
        let fb = Framebuffer::new(0, len, WIDTH, HEIGHT, WIDTH * 4, 4, PixelFormat::Rgb);
        compositor::init(&mut kernel.compositor, &mut kernel.input, fb, Theme::default(), 5);
        if let Some(profile) = profile {
            let image = LoadedImage {
                name: String::from("test"),
                entry: PAGE,
                stack_top: PAGE,
                address_space: space,
            };
            let new = process::spawn(&mut kernel.processes, image, profile);
            let stack = KernelStack { slot: 1, bottom: 0x10_0000, top: 0x10_4000 };
            task::spawn_process(
                &mut kernel.scheduler,
                stack,
                (1, 2, 3),
                new.root,
                new.context.pid,
                new.class,
                0,
            );
            task::run_until_idle(&mut kernel.scheduler, 0);
        }
        Machine { kernel, mem, screen: vec![0; len], font: Font::new(Vec::new(), [0; 5]) }
    }

    fn reply(&mut self, number: u64, a: u64, b: u64, c: u64) -> Reply {
        dispatch(
            &mut self.kernel,
            &mut self.mem,
            &mut self.screen,
            &self.font,
            ROOT,
            number,
            (a, b, c),
            0,
        )
    }

    fn call(&mut self, number: u64, a: u64, b: u64, c: u64) -> Result<u64, u64> {
        let reply = self.reply(number, a, b, c);
        assert_eq!(reply.action, Action::Resume);
        decode(reply.value)
    }

    /// Puts bytes at the start of the page and returns where they are.
    fn put(&mut self, bytes: &[u8]) -> (u64, u64) {
        self.mem[0x8000..0x8000 + bytes.len()].copy_from_slice(bytes);
        (PAGE, bytes.len() as u64)
    }

    fn open(&mut self, path: &str, flags: u64) -> Result<u64, u64> {
        let (ptr, len) = self.put(path.as_bytes());
        self.call(sys::OPEN, ptr, len, flags)
    }

    fn word(&self, at: u64) -> u64 {
        let at = (at - PAGE) as usize + 0x8000;
        u64::from_le_bytes(self.mem[at..at + 8].try_into().unwrap())
    }
}

#[test]
fn unknown_calls_are_refused() {
    let bytes = archive();
    let mut m = Machine::new(mount(&bytes).unwrap(), Some(realm::home()));
    let reply = m.reply(0x99, 1, 0x20, 3);
    assert_eq!(decode(reply.value), Err(err::ENOSYS));
    assert_eq!(
        reply.lines,
        ["Najm Kernel: unknown syscall number 0x99 (args 0x1, 0x20, 0x3)"]
    );
    for number in [sys::SPAWN, sys::WAIT, sys::MAP, sys::PORT_CREATE, sys::WRITE_CSTR] {
        assert_eq!(m.call(number, 0, 0, 0), Err(err::ENOSYS));
    }
    assert_eq!(count(&m.kernel), 6);
}

#[test]
fn the_first_call_checks_the_stack() {
    let bytes = archive();
    let mut m = Machine::new(mount(&bytes).unwrap(), Some(realm::home()));
    m.kernel.alignment_reported = false;
    let reply = m.reply(sys::GETPID, 0, 0, 0);
    assert_eq!(reply.value, 1);
    assert_eq!(reply.lines.len(), 1);
    assert_eq!(m.kernel.tests.passed, 1);
    assert!(m.reply(sys::GETPID, 0, 0, 0).lines.is_empty());
    assert_eq!(m.kernel.tests.passed, 1);
}

#[test]
fn simple_questions_are_answered() {
    let bytes = archive();
    let mut m = Machine::new(mount(&bytes).unwrap(), Some(realm::home()));
    assert_eq!(m.call(sys::GETPID, 0, 0, 0), Ok(1));
    assert_eq!(m.call(sys::TICKS, 0, 0, 0), Ok(7));
    assert_eq!(m.call(sys::UPTIME_MS, 0, 0, 0), Ok(70));
    assert_eq!(m.call(sys::YIELD, 0, 0, 0), Ok(0));
    assert_eq!(m.call(sys::REALM_INFO, PAGE + 8, 0, 0), Ok(0));
    assert_eq!(m.word(PAGE + 8), realm::home().kind);
    assert_eq!(m.word(PAGE + 16), 1);
    assert_eq!(m.word(PAGE + 24), realm::home().capabilities);
    assert_eq!(m.call(sys::REALM_INFO, CONSTANT, 0, 0), Err(err::EFAULT));
}

#[test]
fn exiting_needs_a_program() {
    let bytes = archive();
    let mut m = Machine::new(mount(&bytes).unwrap(), Some(realm::home()));
    assert_eq!(m.call(sys::EXIT, 3, 0, 0), Err(err::EINVAL));
    task::set_supervisor_slot(&mut m.kernel.scheduler, 0x9000);
    let reply = m.reply(sys::EXIT, 0x1_0000_0003, 0, 0);
    assert_eq!(reply.action, Action::EndProgram(ProgramExit::Exited(3)));
}

#[test]
fn yielding_switches_to_another_task() {
    let bytes = archive();
    let mut m = Machine::new(mount(&bytes).unwrap(), Some(realm::home()));
    let stack = KernelStack { slot: 9, bottom: 0x20_0000, top: 0x20_4000 };
    task::spawn(&mut m.kernel.scheduler, stack, 0, 0);
    match m.reply(sys::YIELD, 0, 0, 0).action {
        Action::Switch(switch) => assert_eq!((switch.from, switch.to), (Some(1), 9)),
        _ => panic!("there was no switch"),
    }
}

#[test]
fn console_output_is_made_printable() {
    let bytes = archive();
    let mut m = Machine::new(mount(&bytes).unwrap(), Some(realm::home()));
    let (ptr, len) = m.put(b"Hi\n\x1b[2J\xff");
    let reply = m.reply(sys::WRITE, 1, ptr, len);
    assert_eq!(reply.value, 8);
    assert_eq!(reply.console, "Hi\n\\x1b[2J\\xff");
    assert_eq!(m.call(sys::WRITE, 2, ptr, 0), Ok(0));
    assert_eq!(m.call(sys::WRITE, 0, ptr, len), Err(err::EBADF));
    assert_eq!(m.call(sys::WRITE, 3, ptr, len), Err(err::EBADF));
    let reply = m.reply(sys::WRITE, 1, 0xffff_8000_0000_0000, 4);
    assert_eq!(decode(reply.value), Err(err::EFAULT));
    assert_eq!(
        reply.lines,
        ["Najm Kernel: syscall write REJECTED - buffer 0xffff800000000000..+4 is not a user-accessible mapped range"]
    );
    assert_eq!(m.call(sys::WRITE, 1, PAGE + 0x1000 - 2, 0x1003), Err(err::EFAULT));
    assert_eq!(m.call(sys::WRITE, 1, PAGE, 0x10_0001), Err(err::EFAULT));
}

#[test]
fn files_are_opened() {
    let bytes = archive();
    let mut m = Machine::new(mount(&bytes).unwrap(), Some(realm::home()));
    assert_eq!(m.open("/etc/motd", 0), Ok(3));
    assert_eq!(m.open("/etc", 2), Ok(4));
    assert_eq!(m.open("/etc/motd", 2), Err(err::ENOTSUP));
    assert_eq!(m.open("/etc/motd", 1), Err(err::ENOTSUP));
    assert_eq!(m.open("/nothing", 0), Err(err::ENOENT));
    assert_eq!(m.open("/etc/../top", 0), Err(err::EINVAL));
    assert_eq!(m.open("top", 0), Err(err::EINVAL));
    assert_eq!(m.call(sys::OPEN, PAGE, 0, 0), Err(err::EINVAL));
    assert_eq!(m.call(sys::OPEN, PAGE, 121, 0), Err(err::EINVAL));
    assert_eq!(m.call(sys::OPEN, 0, 5, 0), Err(err::EFAULT));
}

#[test]
fn reads_follow_each_other() {
    let bytes = archive();
    let mut m = Machine::new(mount(&bytes).unwrap(), Some(realm::home()));
    m.open("/etc/motd", 0).unwrap();
    assert_eq!(m.call(sys::READ, 3, PAGE, 5), Ok(5));
    assert_eq!(&m.mem[0x8000..0x8005], b"Hello");
    // A read that fails skips nothing.
    assert_eq!(m.call(sys::READ, 3, CONSTANT, 5), Err(err::EFAULT));
    assert_eq!(m.call(sys::READ, 3, PAGE, 100), Ok(10));
    assert_eq!(&m.mem[0x8000..0x800a], b" from Najm");
    assert_eq!(m.call(sys::READ, 3, PAGE, 100), Ok(0));
    assert_eq!(m.call(sys::READ, 0, PAGE, 100), Ok(0));
    assert_eq!(m.call(sys::READ, 1, PAGE, 100), Err(err::EBADF));
    assert_eq!(m.call(sys::READ, 9, PAGE, 100), Err(err::EBADF));
    m.open("/etc", 0).unwrap();
    assert_eq!(m.call(sys::READ, 4, PAGE, 100), Err(err::ENOTSUP));
}

#[test]
fn seeking_stays_in_the_file() {
    let bytes = archive();
    let mut m = Machine::new(mount(&bytes).unwrap(), Some(realm::home()));
    m.open("/etc/motd", 0).unwrap();
    assert_eq!(m.call(sys::SEEK, 3, 6, seek::SET), Ok(6));
    assert_eq!(m.call(sys::READ, 3, PAGE, 4), Ok(4));
    assert_eq!(&m.mem[0x8000..0x8004], b"from");
    assert_eq!(m.call(sys::SEEK, 3, 1, seek::CURRENT), Ok(11));
    assert_eq!(m.call(sys::SEEK, 3, 4, seek::END), Ok(11));
    assert_eq!(m.call(sys::SEEK, 3, 100, seek::END), Ok(0));
    assert_eq!(m.call(sys::SEEK, 3, u64::MAX, seek::SET), Ok(15));
    assert_eq!(m.call(sys::SEEK, 3, u64::MAX, seek::CURRENT), Ok(15));
    assert_eq!(m.call(sys::SEEK, 3, 0, 3), Err(err::EINVAL));
    assert_eq!(m.call(sys::SEEK, 4, 0, 3), Err(err::EBADF));
}

#[test]
fn a_double_close_is_an_error() {
    let bytes = archive();
    let mut m = Machine::new(mount(&bytes).unwrap(), Some(realm::home()));
    m.open("/top", 0).unwrap();
    assert_eq!(m.call(sys::CLOSE, 3, 0, 0), Ok(0));
    assert_eq!(m.call(sys::CLOSE, 3, 0, 0), Err(err::EBADF));
    assert_eq!(m.call(sys::CLOSE, 1, 0, 0), Err(err::EBADF));
}

#[test]
fn files_are_described() {
    let bytes = archive();
    let mut m = Machine::new(mount(&bytes).unwrap(), Some(realm::home()));
    let (ptr, len) = m.put(b"/etc/motd");
    assert_eq!(m.call(sys::STAT, ptr, len, PAGE + 0x100), Ok(0));
    assert_eq!((m.word(PAGE + 0x100), m.word(PAGE + 0x108)), (15, 0));
    let (ptr, len) = m.put(b"/etc");
    assert_eq!(m.call(sys::STAT, ptr, len, PAGE + 0x100), Ok(0));
    assert_eq!((m.word(PAGE + 0x100), m.word(PAGE + 0x108)), (0, 1));
    assert_eq!(m.call(sys::STAT, ptr, len, CONSTANT), Err(err::EFAULT));
    let (ptr, len) = m.put(b"/nope");
    assert_eq!(m.call(sys::STAT, ptr, len, PAGE + 0x100), Err(err::ENOENT));
    assert_eq!(m.call(sys::STAT, ptr, 0, PAGE + 0x100), Err(err::EINVAL));
}

#[test]
fn directories_are_listed() {
    let bytes = archive();
    let mut m = Machine::new(mount(&bytes).unwrap(), Some(realm::home()));
    m.open("/etc", 2).unwrap();
    assert_eq!(m.call(sys::READDIR, 3, PAGE, 100), Ok(11));
    assert_eq!(&m.mem[0x8000..0x800b], b"hosts\0motd\0");
    // A name that does not fit is left out whole.
    assert_eq!(m.call(sys::READDIR, 3, PAGE, 10), Ok(6));
    assert_eq!(m.call(sys::READDIR, 3, PAGE, 5), Ok(0));
    assert_eq!(m.call(sys::READDIR, 3, CONSTANT, 100), Err(err::EFAULT));
    m.open("/top", 0).unwrap();
    assert_eq!(m.call(sys::READDIR, 4, PAGE, 100), Err(err::ENOTSUP));
    assert_eq!(m.call(sys::READDIR, 5, PAGE, 100), Err(err::EBADF));
}

#[test]
fn surfaces_are_created_and_committed() {
    let bytes = archive();
    let mut m = Machine::new(mount(&bytes).unwrap(), Some(realm::home()));
    assert_eq!(m.call(sys::SURFACE_CREATE, 8, 4, 0), Ok(1));
    assert_eq!(m.call(sys::SURFACE_CREATE, 0, 4, 0), Err(err::ENOMEM));
    assert_eq!(m.call(sys::SURFACE_INFO, 1, PAGE, 0), Ok(0));
    let info = [0, 8, 16, 24].map(|i| m.word(PAGE + i));
    assert_eq!(info, [8, 4, 32, 4]);
    assert_eq!(m.call(sys::SURFACE_INFO, 2, PAGE, 0), Err(err::EBADF));
    assert_eq!(m.call(sys::SURFACE_INFO, 1, CONSTANT, 0), Err(err::EFAULT));
    m.put(&[0x55; 128]);
    assert_eq!(m.call(sys::SURFACE_COMMIT, 1, PAGE, 127), Err(err::EINVAL));
    assert_eq!(m.call(sys::SURFACE_COMMIT, 2, PAGE, 128), Err(err::EBADF));
    assert_eq!(m.call(sys::SURFACE_COMMIT, 1, 0, 128), Err(err::EFAULT));
    assert_eq!(compositor::stats(&m.kernel.compositor), (1, 0, 1));
    assert_eq!(m.call(sys::SURFACE_COMMIT, 1, PAGE, 128), Ok(0));
    assert_eq!(compositor::stats(&m.kernel.compositor), (1, 1, 1));
    // The window is at (40, 50).
    let at = (51 * WIDTH + 41) * 4;
    assert_eq!(m.screen[at..at + 3], [0x55, 0x55, 0x55]);
}

#[test]
fn a_realm_decides_how_a_surface_is_shown() {
    let bytes = archive();
    let mut m = Machine::new(mount(&bytes).unwrap(), Some(realm::gaming()));
    assert!(realm::gaming().allows(capability_bits::EXCLUSIVE_SCANOUT));
    assert_eq!(m.call(sys::SURFACE_CREATE, 8, 4, 0), Ok(1));
    assert_eq!(m.call(sys::SURFACE_INFO, 1, PAGE, 0), Ok(0));
    assert_eq!((m.word(PAGE), m.word(PAGE + 8)), (100, 40));
}

#[test]
fn events_are_delivered_once() {
    let bytes = archive();
    let mut m = Machine::new(mount(&bytes).unwrap(), Some(realm::home()));
    for code in 1..=3 {
        on_scancode(&mut m.kernel.input, code);
    }
    assert_eq!(m.call(sys::INPUT_POLL, PAGE, 0, 0), Ok(0));
    assert_eq!(m.call(sys::INPUT_POLL, PAGE, 2, 0), Ok(2));
    assert_eq!((m.word(PAGE), m.word(PAGE + 8)), (input_kind::KEY_DOWN, 1));
    assert_eq!(m.word(PAGE + 40), 2);
    assert_eq!(m.call(sys::INPUT_POLL, PAGE, u64::MAX, 0), Ok(1));
    assert_eq!(m.word(PAGE + 8), 3);
    assert_eq!(m.call(sys::INPUT_POLL, PAGE, 9, 0), Ok(0));
    on_scancode(&mut m.kernel.input, 4);
    assert_eq!(m.call(sys::INPUT_POLL, CONSTANT, 9, 0), Err(err::EFAULT));
    assert_eq!(input::stats(&m.kernel.input).0, 0);
}

#[test]
fn missing_rights_are_enforced() {
    let bytes = archive();
    let nothing = RealmProfile { name: "none", kind: 0, capabilities: 0 };
    for profile in [None, Some(nothing)] {
        let none = profile.is_none();
        let mut m = Machine::new(mount(&bytes).unwrap(), profile);
        assert_eq!(m.open("/etc/motd", 0), Err(err::EPERM));
        assert_eq!(m.call(sys::STAT, PAGE, 9, PAGE), Err(err::EPERM));
        assert_eq!(m.call(sys::SURFACE_CREATE, 1, 1, 0), Err(err::EPERM));
        assert_eq!(m.call(sys::INPUT_POLL, PAGE, 1, 0), Err(err::EPERM));
        if none {
            assert_eq!(m.call(sys::GETPID, 0, 0, 0), Ok(0));
            assert_eq!(m.call(sys::REALM_INFO, PAGE, 0, 0), Err(err::EPERM));
            assert_eq!(m.call(sys::SURFACE_COMMIT, 1, PAGE, 4), Err(err::EPERM));
            assert_eq!(m.call(sys::READ, 3, PAGE, 4), Err(err::EBADF));
        }
    }
}

#[test]
fn calls_do_not_depend_on_the_boot_signature() {
    let archive = archive();
    let mut a = Machine::new(mount(&archive).unwrap(), Some(realm::gaming()));
    let mut b = Machine::new(mount(&archive).unwrap(), Some(realm::gaming()));
    let len = WIDTH * HEIGHT * 4;
    let fb = Framebuffer::new(0, len, WIDTH, HEIGHT, WIDTH * 4, 4, PixelFormat::Rgb);
    compositor::init(&mut b.kernel.compositor, &mut b.kernel.input, fb, Theme::default(), 6);
    assert_ne!(
        compositor::signature_colours(&a.kernel.compositor),
        compositor::signature_colours(&b.kernel.compositor)
    );
    for number in 0..64 {
        if number == sys::EXIT || number == sys::YIELD {
            continue;
        }
        let (x, y) = (a.reply(number, PAGE, 16, 0), b.reply(number, PAGE, 16, 0));
        assert_eq!((x.value, x.action, x.console), (y.value, y.action, y.console));
        assert_eq!(x.lines, y.lines);
        assert_eq!(a.mem, b.mem);
    }
}

#[test]
fn programs_read_only_their_own_memory() {
    let archive = archive();
    let mut a = Machine::new(mount(&archive).unwrap(), Some(realm::home()));
    let mut b = Machine::new(mount(&archive).unwrap(), Some(realm::home()));
    for at in 0xa000..0x10000 {
        b.mem[at] = 0x41;
    }
    a.put(b"hello");
    b.put(b"hello");
    for (ptr, len) in [(PAGE, 5), (PAGE, 8192), (CONSTANT, 4096), (0xa000, 16), (u64::MAX - 3, 8)] {
        let (x, y) = (a.reply(sys::WRITE, 1, ptr, len), b.reply(sys::WRITE, 1, ptr, len));
        assert_eq!((x.value, x.console), (y.value, y.console));
    }
    assert_eq!(a.call(sys::WRITE, 1, PAGE, 8192), Ok(8192));
    assert_eq!(a.call(sys::WRITE, 1, PAGE, 8193), Err(err::EFAULT));
    assert_eq!(a.call(sys::WRITE, 1, 0xa000, 1), Err(err::EFAULT));
}
