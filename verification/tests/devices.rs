use najm_kernel::abi::{input_kind, InputEvent};
use najm_kernel::drivers::input::{
    init_mouse, is_writable, on_mouse_byte, on_scancode, pointer_position, poll, set_bounds, stats,
    take_layout_toggle, Input, PortWrite,
};
use najm_kernel::drivers::pci::{
    self, enumerate, into_devices, is_multifunction, next_word, probe, read_config, take_word,
    ConfigWord, Device,
};
use najm_kernel::drivers::qemu::{exit, ExitCode};
use najm_kernel::drivers::rtc::{
    self, begin, from_bcd, now, read_raw, update_in_progress, DateTime, Registers,
};

fn drain(input: &mut Input) -> Vec<InputEvent> {
    let mut out = [InputEvent::default(); 300];
    let count = poll(input, &mut out);
    out[..count].to_vec()
}

fn event(kind: u64, code: u64, x: u64, y: u64) -> InputEvent {
    InputEvent { kind, code, x, y }
}

#[test]
fn keys_are_pressed_and_released() {
    let mut input = Input::new();
    on_scancode(&mut input, 0x1E);
    on_scancode(&mut input, 0x9E);
    assert_eq!(
        drain(&mut input),
        [event(input_kind::KEY_DOWN, 0x1E, 0, 0), event(input_kind::KEY_UP, 0x1E, 0, 0)]
    );
    assert!(drain(&mut input).is_empty());
}

#[test]
fn the_layout_key_is_the_systems() {
    let mut input = Input::new();
    assert!(!take_layout_toggle(&mut input));
    on_scancode(&mut input, 0x3B);
    assert_eq!(stats(&input), (0, 0));
    assert!(take_layout_toggle(&mut input));
    assert!(!take_layout_toggle(&mut input));
    on_scancode(&mut input, 0xBB);
    assert_eq!(drain(&mut input), [event(input_kind::KEY_UP, 0x3B, 0, 0)]);
}

#[test]
fn a_full_queue_drops_the_oldest() {
    let mut input = Input::new();
    for i in 0..300u32 {
        on_scancode(&mut input, (i % 0x30) as u8);
    }
    assert_eq!(stats(&input), (256, 44));
    let events = drain(&mut input);
    assert_eq!(events.len(), 256);
    assert_eq!(events[0].code, 44 % 0x30);
    assert_eq!(events[255].code, 299 % 0x30);
    on_scancode(&mut input, 5);
    on_scancode(&mut input, 6);
    let mut one = [InputEvent::default(); 1];
    assert_eq!(poll(&mut input, &mut one), 1);
    assert_eq!(one[0].code, 5);
    assert_eq!(stats(&input), (1, 44));
}

#[test]
fn the_pointer_moves_and_stays_on_the_screen() {
    let mut input = Input::new();
    set_bounds(&mut input, 100, 50);
    assert_eq!(pointer_position(&input), (50, 25));
    for byte in [0x08, 10, 5] {
        on_mouse_byte(&mut input, byte);
    }
    assert_eq!(pointer_position(&input), (60, 20));
    for byte in [0x08 | 0x10 | 0x20, 0x01, 0x01] {
        on_mouse_byte(&mut input, byte);
    }
    assert_eq!(pointer_position(&input), (0, 49));
    for byte in [0x08, 255, 255] {
        on_mouse_byte(&mut input, byte);
    }
    assert_eq!(pointer_position(&input), (99, 0));
    for flags in [0x48, 0x88] {
        for byte in [flags | 0x10, 0x80, 0x80] {
            on_mouse_byte(&mut input, byte);
        }
        assert_eq!(pointer_position(&input), (99, 0));
    }
    assert_eq!(
        drain(&mut input),
        [
            event(input_kind::POINTER_MOTION, 0, 60, 20),
            event(input_kind::POINTER_MOTION, 0, 0, 49),
            event(input_kind::POINTER_MOTION, 0, 99, 0),
        ]
    );
}

#[test]
fn without_a_screen_the_pointer_is_only_kept_from_going_negative() {
    let mut input = Input::new();
    for byte in [0x08 | 0x10, 0x80, 0x00] {
        on_mouse_byte(&mut input, byte);
    }
    assert_eq!(pointer_position(&input), (0, 0));
    for byte in [0x08 | 0x20, 200, 0x38] {
        on_mouse_byte(&mut input, byte);
    }
    assert_eq!(pointer_position(&input), (200, 200));
}

#[test]
fn buttons_are_told_when_they_change() {
    let mut input = Input::new();
    for byte in [0x09, 0, 0, 0x09, 0, 0, 0x0A, 0, 0, 0x08, 0, 0] {
        on_mouse_byte(&mut input, byte);
    }
    assert_eq!(
        drain(&mut input),
        [
            event(input_kind::POINTER_BUTTON_DOWN, 1, 0, 0),
            event(input_kind::POINTER_BUTTON_DOWN, 3, 0, 0),
            event(input_kind::POINTER_BUTTON_UP, 2, 0, 0),
        ]
    );
}

#[test]
fn the_mouse_finds_its_way_back_into_step() {
    let mut input = Input::new();
    for byte in [0x00, 0x07, 0x08, 3, 0] {
        on_mouse_byte(&mut input, byte);
    }
    assert_eq!(pointer_position(&input), (3, 0));
    // A report that overflowed is dropped, its buttons with it.
    drain(&mut input);
    for byte in [0x49, 9, 9] {
        on_mouse_byte(&mut input, byte);
    }
    assert_eq!(pointer_position(&input), (3, 0));
    assert!(drain(&mut input).is_empty());
}

#[test]
fn the_mouse_is_enabled_in_six_steps() {
    let steps: Vec<_> = (0..7).map(|i| init_mouse(i, 0x45)).collect();
    assert_eq!(
        steps,
        [
            Some(PortWrite::Command(0xA8)),
            Some(PortWrite::Command(0x20)),
            Some(PortWrite::Command(0x60)),
            Some(PortWrite::Data(0x47)),
            Some(PortWrite::Command(0xD4)),
            Some(PortWrite::Data(0xF4)),
            None,
        ]
    );
    assert!(is_writable(0x01));
    assert!(!is_writable(0xFF));
}

#[test]
fn exit_codes_reach_the_host() {
    assert_eq!((exit(ExitCode::Success) << 1) | 1, 33);
    assert_eq!((exit(ExitCode::Failed) << 1) | 1, 35);
}

fn date(year: u16, month: u8, day: u8, hour: u8, minute: u8, second: u8) -> DateTime {
    DateTime { year, month, day, hour, minute, second }
}

#[test]
fn seconds_since_the_epoch() {
    assert_eq!(date(1970, 1, 1, 0, 0, 0).to_unix_seconds(), 0);
    assert_eq!(date(1970, 1, 2, 0, 0, 1).to_unix_seconds(), 86_401);
    assert_eq!(date(2000, 2, 29, 12, 30, 15).to_unix_seconds(), 951_827_415);
    assert_eq!(date(2026, 11, 15, 0, 0, 0).to_unix_seconds(), 1_794_700_800);
    assert_eq!(date(2100, 3, 1, 0, 0, 0).to_unix_seconds(), 4_107_542_400);
    assert_eq!(date(1969, 12, 31, 23, 59, 59).to_unix_seconds(), 0);
    assert_eq!(DateTime::default().to_unix_seconds(), 0);
}

#[test]
fn days_follow_the_calendar() {
    let mut expected = 0u64;
    for year in 1970..2200u16 {
        let leap = year % 4 == 0 && (year % 100 != 0 || year % 400 == 0);
        let lengths = [31, if leap { 29 } else { 28 }, 31, 30, 31, 30, 31, 31, 30, 31, 30, 31];
        for (month, days) in lengths.iter().enumerate() {
            for day in 1..=*days {
                let t = date(year, month as u8 + 1, day, 0, 0, 0);
                assert_eq!(t.to_unix_seconds(), expected);
                expected += 86_400;
            }
        }
    }
}

#[test]
fn implausible_dates_are_noticed() {
    assert!(date(2026, 12, 31, 23, 59, 60).is_plausible());
    assert!(!date(1999, 1, 1, 0, 0, 0).is_plausible());
    assert!(!date(2200, 1, 1, 0, 0, 0).is_plausible());
    assert!(!date(2026, 0, 1, 0, 0, 0).is_plausible());
    assert!(!date(2026, 13, 1, 0, 0, 0).is_plausible());
    assert!(!date(2026, 1, 0, 0, 0, 0).is_plausible());
    assert!(!date(2026, 1, 32, 0, 0, 0).is_plausible());
    assert!(!date(2026, 1, 1, 24, 0, 0).is_plausible());
    assert!(!date(2026, 1, 1, 0, 60, 0).is_plausible());
    assert!(!date(2026, 1, 1, 0, 0, 61).is_plausible());
}

#[test]
fn registers_are_decoded() {
    assert_eq!(from_bcd(0x59), 59);
    assert_eq!(from_bcd(0x00), 0);
    let bcd = Registers {
        second: 0x45,
        minute: 0x30,
        hour: 0x23,
        day: 0x15,
        month: 0x11,
        year: 0x26,
        status_b: 0x02,
    };
    assert_eq!(read_raw(&bcd), date(2026, 11, 15, 23, 30, 45));
    let binary = Registers {
        second: 45,
        minute: 30,
        hour: 23,
        day: 15,
        month: 11,
        year: 99,
        status_b: 0x06,
    };
    assert_eq!(read_raw(&binary), date(1999, 11, 15, 23, 30, 45));
    let midnight = Registers { hour: 0x12, status_b: 0x00, ..bcd };
    assert_eq!(read_raw(&midnight).hour, 0);
    let noon = Registers { hour: 0x92, status_b: 0x00, ..bcd };
    assert_eq!(read_raw(&noon).hour, 12);
    let evening = Registers { hour: 0x89, status_b: 0x00, ..bcd };
    assert_eq!(read_raw(&evening).hour, 21);
    assert!(update_in_progress(0x80));
    assert!(!update_in_progress(0x26));
}

#[test]
fn the_clock_is_read_until_two_reads_agree() {
    let a = date(2026, 1, 1, 0, 0, 0);
    let b = date(2026, 1, 1, 0, 0, 1);
    let mut state = begin(a);
    assert_eq!(now(&mut state, b), None);
    assert_eq!(now(&mut state, b), Some(b));
    let mut state = begin(a);
    for i in 1..10 {
        let t = date(2026, 1, 1, 0, 0, i);
        assert_eq!(now(&mut state, t), None);
    }
    let last = date(2026, 1, 1, 0, 0, 10);
    assert_eq!(now(&mut state, last), Some(last));
}

#[test]
fn the_clock_is_reported() {
    let (time, line) = rtc::init(date(2026, 1, 2, 3, 4, 5));
    assert!(time.is_some());
    assert_eq!(
        line,
        "Najm Kernel: wall clock is 2026-01-02 03:04:05 (1767323045 seconds since the Unix epoch, timezone unknown - the RTC does not say whether it runs in UTC or local time)"
    );
    let (time, line) = rtc::init(date(2165, 99, 2, 3, 4, 5));
    assert!(time.is_none());
    assert_eq!(
        line,
        "Najm Kernel: the RTC reported 2165-99-02 03:04:05, which is not a plausible date - treating wall-clock time as unavailable rather than trusting it"
    );
}

#[test]
fn configuration_addresses_are_put_together() {
    let word = ConfigWord { bus: 0x12, slot: 0x1F, function: 7, offset: 0x3C };
    assert_eq!(read_config(word), 0x8012_FF3C);
    let first = ConfigWord { bus: 0, slot: 0, function: 0, offset: 0 };
    assert_eq!(read_config(first), 0x8000_0000);
}

#[test]
fn devices_identify_themselves() {
    assert_eq!(probe(0, 0, 0, 0xFFFF_FFFF, 0), None);
    let device = probe(1, 2, 3, 0x1234_8086, 0x0106_0155).unwrap();
    assert_eq!(
        device,
        Device {
            bus: 1,
            slot: 2,
            function: 3,
            vendor_id: 0x8086,
            device_id: 0x1234,
            class: 1,
            subclass: 6,
            prog_if: 1,
        }
    );
    assert_eq!(device.describe(), "SATA controller (AHCI)");
    assert!(is_multifunction(0x0080_0000));
    assert!(!is_multifunction(0xFF7F_FFFF));
    let kinds = [
        ((1, 1), "IDE storage controller"),
        ((1, 8), "NVMe controller"),
        ((1, 0), "storage controller"),
        ((2, 0), "network controller"),
        ((3, 0), "display controller"),
        ((4, 1), "audio device"),
        ((4, 3), "multimedia controller"),
        ((6, 0), "host bridge"),
        ((6, 1), "ISA bridge"),
        ((6, 4), "PCI-to-PCI bridge"),
        ((6, 0x80), "bridge"),
        ((0x0C, 3), "USB controller"),
        ((0x0C, 5), "serial bus controller"),
        ((0x11, 0), "unknown device class"),
    ];
    for ((class, subclass), text) in kinds {
        let d = Device { class, subclass, ..device };
        assert_eq!(d.describe(), text);
    }
}

#[test]
fn the_whole_bus_is_walked() {
    // Slot 0:0 has one function, slot 2:5 has functions 0, 1 and 7, and
    // slot 255:31 answers for functions it says it does not have.
    let space = |word: ConfigWord| -> u32 {
        let present = match (word.bus, word.slot) {
            (0, 0) => word.function == 0,
            (2, 5) => [0, 1, 7].contains(&word.function),
            (255, 31) => true,
            _ => false,
        };
        match word.offset {
            0x00 if present => 0x1000_8086 + ((word.function as u32) << 16),
            0x00 => 0xFFFF_FFFF,
            0x08 => 0x0300_0000,
            0x0C if (word.bus, word.slot) == (2, 5) => 0x0080_0000,
            _ => 0,
        }
    };
    let mut walk = enumerate();
    let mut reads = 0;
    while let Some(word) = next_word(&walk) {
        reads += 1;
        take_word(&mut walk, space(word));
    }
    assert_eq!(reads, 8192 + 3 * 2 + 7 + 2);
    let devices = into_devices(walk);
    let places: Vec<_> = devices.iter().map(|d| (d.bus, d.slot, d.function)).collect();
    assert_eq!(places, [(0, 0, 0), (2, 5, 0), (2, 5, 1), (2, 5, 7), (255, 31, 0)]);
    let (lines, count) = pci::init(&devices);
    assert_eq!(count, 5);
    assert_eq!(
        lines[3],
        "Najm Kernel:   02:05.7 [8086:1007] display controller (class 03:00:00)"
    );
}
