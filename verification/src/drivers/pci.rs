//! PCI bus enumeration.
//!
//! Every function of every slot of every bus is asked who it is, through
//! the two configuration ports. Nothing is claimed or changed: a read of
//! the configuration space has no side effects.
use vstd::prelude::*;
use crate::text::{self, push_decimal, push_padded_hexadecimal};

verus! {

pub const CONFIG_ADDRESS: u16 = 0xCF8;

pub const CONFIG_DATA: u16 = 0xCFC;

/// How many slots there are: 32 on each of 256 buses.
pub const SLOTS: u32 = 8192;

/// A device found on the bus.
#[derive(Debug, Clone, Copy, PartialEq, Eq, Structural)]
pub struct Device {
    pub bus: u8,
    pub slot: u8,
    pub function: u8,
    pub vendor_id: u16,
    pub device_id: u16,
    /// Broad category: storage, network, display and so on.
    pub class: u8,
    /// Refinement within the class.
    pub subclass: u8,
    /// Refinement within the subclass.
    pub prog_if: u8,
}

impl Device {
    /// What `describe` says.
    pub open spec fn description(self) -> &'static str {
        if self.class == 0x01 {
            if self.subclass == 0x01 {
                "IDE storage controller"
            } else if self.subclass == 0x06 {
                "SATA controller (AHCI)"
            } else if self.subclass == 0x08 {
                "NVMe controller"
            } else {
                "storage controller"
            }
        } else if self.class == 0x02 {
            "network controller"
        } else if self.class == 0x03 {
            "display controller"
        } else if self.class == 0x04 {
            if self.subclass == 0x01 {
                "audio device"
            } else {
                "multimedia controller"
            }
        } else if self.class == 0x06 {
            if self.subclass == 0x00 {
                "host bridge"
            } else if self.subclass == 0x01 {
                "ISA bridge"
            } else if self.subclass == 0x04 {
                "PCI-to-PCI bridge"
            } else {
                "bridge"
            }
        } else if self.class == 0x0C {
            if self.subclass == 0x03 {
                "USB controller"
            } else {
                "serial bus controller"
            }
        } else {
            "unknown device class"
        }
    }

    /// What kind of device this is, for a reader.
    pub fn describe(&self) -> (text: &'static str)
        ensures
            text == self.description(),
    {
        if self.class == 0x01 {
            if self.subclass == 0x01 {
                "IDE storage controller"
            } else if self.subclass == 0x06 {
                "SATA controller (AHCI)"
            } else if self.subclass == 0x08 {
                "NVMe controller"
            } else {
                "storage controller"
            }
        } else if self.class == 0x02 {
            "network controller"
        } else if self.class == 0x03 {
            "display controller"
        } else if self.class == 0x04 {
            if self.subclass == 0x01 {
                "audio device"
            } else {
                "multimedia controller"
            }
        } else if self.class == 0x06 {
            if self.subclass == 0x00 {
                "host bridge"
            } else if self.subclass == 0x01 {
                "ISA bridge"
            } else if self.subclass == 0x04 {
                "PCI-to-PCI bridge"
            } else {
                "bridge"
            }
        } else if self.class == 0x0C {
            if self.subclass == 0x03 {
                "USB controller"
            } else {
                "serial bus controller"
            }
        } else {
            "unknown device class"
        }
    }
}

/// The word of configuration space that is to be read: `offset` is in
/// bytes and a multiple of four.
#[derive(Debug, Clone, Copy, PartialEq, Eq, Structural)]
pub struct ConfigWord {
    pub bus: u8,
    pub slot: u8,
    pub function: u8,
    pub offset: u8,
}

impl ConfigWord {
    /// The hardware ignores the low bits of the offset, so an unaligned
    /// one would read another word than the one meant.
    pub open spec fn wf(self) -> bool {
        self.slot < 32 && self.function < 8 && self.offset % 4 == 0
    }
}

/// What to write to the address port to read a word.
pub fn read_config(word: ConfigWord) -> (address: u32)
    requires
        word.wf(),
    ensures
        address == 0x8000_0000 + 0x1_0000 * word.bus + 0x800 * word.slot + 0x100 * word.function
            + word.offset,
{
    0x8000_0000 + 0x1_0000 * word.bus as u32 + 0x800 * word.slot as u32 + 0x100
        * word.function as u32 + word.offset as u32
}

/// The device that a function's first words describe, or `None` where
/// nothing answered: the bus then reads as all ones.
pub open spec fn device_at(bus: u8, slot: u8, function: u8, id: u32, class_word: u32) -> Option<
    Device,
> {
    if id % 0x1_0000 == 0xFFFF {
        None
    } else {
        Some(
            Device {
                bus,
                slot,
                function,
                vendor_id: (id % 0x1_0000) as u16,
                device_id: (id / 0x1_0000) as u16,
                class: (class_word / 0x100_0000) as u8,
                subclass: (class_word / 0x1_0000 % 0x100) as u8,
                prog_if: (class_word / 0x100 % 0x100) as u8,
            },
        )
    }
}

/// Reads one function's identity out of its words.
pub fn probe(bus: u8, slot: u8, function: u8, id: u32, class_word: u32) -> (r: Option<Device>)
    ensures
        r == device_at(bus, slot, function, id, class_word),
{
    if id % 0x1_0000 == 0xFFFF {
        return None;
    }
    Some(
        Device {
            bus,
            slot,
            function,
            vendor_id: (id % 0x1_0000) as u16,
            device_id: (id / 0x1_0000) as u16,
            class: (class_word / 0x100_0000) as u8,
            subclass: (class_word / 0x1_0000 % 0x100) as u8,
            prog_if: (class_word / 0x100 % 0x100) as u8,
        },
    )
}

/// Whether a device has more functions than the first, by its header word.
pub open spec fn has_functions(header: u32) -> bool {
    header / 0x80_0000 % 2 == 1
}

/// Whether a device has more functions than the first. One that does not
/// may answer for them all the same, as the first one.
pub fn is_multifunction(header: u32) -> (r: bool)
    ensures
        r == has_functions(header),
{
    header / 0x80_0000 % 2 == 1
}

/// Which word of a function is wanted next.
#[derive(Debug, Clone, Copy, PartialEq, Eq, Structural)]
pub enum Stage {
    Id,
    /// The class, of a function that identified itself so.
    Class { id: u32 },
    Header,
}

/// A walk over the whole bus.
#[derive(Debug)]
pub struct Enumeration {
    /// The slot, counted over all buses.
    index: u32,
    function: u8,
    stage: Stage,
    devices: Vec<Device>,
}

/// How far a walk has come.
pub struct EnumerationView {
    pub index: int,
    pub function: int,
    pub stage: Stage,
    pub devices: Seq<Device>,
}

impl View for Enumeration {
    type V = EnumerationView;

    closed spec fn view(&self) -> EnumerationView {
        EnumerationView {
            index: self.index as int,
            function: self.function as int,
            stage: self.stage,
            devices: self.devices@,
        }
    }
}

/// A walk that can be continued.
pub open spec fn is_regular(v: EnumerationView) -> bool {
    &&& 0 <= v.index <= SLOTS
    &&& 0 <= v.function < 8
    &&& v.stage == Stage::Header ==> v.function == 0
}

/// The word that is wanted next.
pub open spec fn wanted(v: EnumerationView) -> ConfigWord {
    ConfigWord {
        bus: (v.index / 32) as u8,
        slot: (v.index % 32) as u8,
        function: v.function as u8,
        offset: match v.stage {
            Stage::Id => 0x00,
            Stage::Class { .. } => 0x08,
            Stage::Header => 0x0C,
        },
    }
}

/// On to the next function, if the device has more, or the next slot.
pub open spec fn advanced(v: EnumerationView) -> EnumerationView {
    if 0 < v.function < 7 {
        EnumerationView { function: v.function + 1, stage: Stage::Id, ..v }
    } else {
        EnumerationView { index: v.index + 1, function: 0, stage: Stage::Id, ..v }
    }
}

/// The walk after the word that was wanted has been read.
pub open spec fn answered(v: EnumerationView, value: u32) -> EnumerationView {
    match v.stage {
        Stage::Id => if value % 0x1_0000 == 0xFFFF {
            advanced(v)
        } else {
            EnumerationView { stage: Stage::Class { id: value }, ..v }
        },
        Stage::Class { id } => {
            let word = wanted(v);
            let found = EnumerationView {
                devices: v.devices.push(
                    device_at(word.bus, word.slot, word.function, id, value).unwrap(),
                ),
                ..v
            };
            if v.function == 0 {
                EnumerationView { stage: Stage::Header, ..found }
            } else {
                advanced(found)
            }
        },
        Stage::Header => if has_functions(value) {
            EnumerationView { function: 1, stage: Stage::Id, ..v }
        } else {
            advanced(v)
        },
    }
}

/// The walk at its beginning.
pub open spec fn beginning() -> EnumerationView {
    EnumerationView { index: 0, function: 0, stage: Stage::Id, devices: Seq::empty() }
}

impl Enumeration {
    /// The position is on the bus, and a function whose class is wanted
    /// has identified itself.
    pub open spec fn wf(&self) -> bool {
        &&& is_regular(self@)
        &&& self@.stage matches Stage::Class { id } ==> id % 0x1_0000 != 0xFFFF
    }
}

/// Starts a walk over the whole bus.
pub fn enumerate() -> (r: Enumeration)
    ensures
        r.wf(),
        r@ == beginning(),
{
    let r = Enumeration { index: 0, function: 0, stage: Stage::Id, devices: Vec::new() };
    assert(r@.devices =~= Seq::<Device>::empty());
    r
}

/// The word to read next, or `None` at the end of the walk.
pub fn next_word(walk: &Enumeration) -> (r: Option<ConfigWord>)
    requires
        walk.wf(),
    ensures
        r == (if walk@.index < SLOTS {
            Some(wanted(walk@))
        } else {
            None
        }),
        r matches Some(word) ==> word.wf(),
{
    if walk.index >= SLOTS {
        return None;
    }
    Some(
        ConfigWord {
            bus: (walk.index / 32) as u8,
            slot: (walk.index % 32) as u8,
            function: walk.function,
            offset: match walk.stage {
                Stage::Id => 0x00,
                Stage::Class { .. } => 0x08,
                Stage::Header => 0x0C,
            },
        },
    )
}

impl Enumeration {
    fn advance(&mut self)
        requires
            is_regular(old(self)@),
            old(self)@.index < SLOTS,
        ensures
            is_regular(final(self)@),
            final(self)@ == advanced(old(self)@),
    {
        if 0 < self.function && self.function < 7 {
            self.function += 1;
        } else {
            self.index += 1;
            self.function = 0;
        }
        self.stage = Stage::Id;
    }
}

/// Takes the word that was read.
pub fn take_word(walk: &mut Enumeration, value: u32)
    requires
        old(walk).wf(),
        old(walk)@.index < SLOTS,
    ensures
        final(walk).wf(),
        final(walk)@ == answered(old(walk)@, value),
{
    match walk.stage {
        Stage::Id => {
            if value % 0x1_0000 == 0xFFFF {
                walk.advance();
            } else {
                walk.stage = Stage::Class { id: value };
            }
        },
        Stage::Class { id } => {
            let bus: u8 = (walk.index / 32) as u8;
            let slot: u8 = (walk.index % 32) as u8;
            if let Some(device) = probe(bus, slot, walk.function, id, value) {
                walk.devices.push(device);
            }
            if walk.function == 0 {
                walk.stage = Stage::Header;
            } else {
                walk.advance();
            }
        },
        Stage::Header => {
            if is_multifunction(value) {
                walk.function = 1;
                walk.stage = Stage::Id;
            } else {
                walk.advance();
            }
        },
    }
}

/// What the walk has found.
pub fn into_devices(walk: Enumeration) -> (devices: Vec<Device>)
    ensures
        devices@ == walk@.devices,
{
    walk.devices
}

/// The log line about a device.
pub open spec fn device_line(d: Device) -> Seq<char> {
    "Najm Kernel:   "@ + text::zero_padded(text::hexadecimal(d.bus as nat), 2) + ":"@
        + text::zero_padded(text::hexadecimal(d.slot as nat), 2) + "."@ + text::decimal(
        d.function as nat,
    ) + " ["@ + text::zero_padded(text::hexadecimal(d.vendor_id as nat), 4) + ":"@
        + text::zero_padded(text::hexadecimal(d.device_id as nat), 4) + "] "@ + d.description()@
        + " (class "@ + text::zero_padded(text::hexadecimal(d.class as nat), 2) + ":"@
        + text::zero_padded(text::hexadecimal(d.subclass as nat), 2) + ":"@ + text::zero_padded(
        text::hexadecimal(d.prog_if as nat),
        2,
    ) + ")"@
}

fn describe_device(d: &Device) -> (line: String)
    ensures
        line@ == device_line(*d),
{
    let mut line = String::from_str("Najm Kernel:   ");
    push_padded_hexadecimal(&mut line, d.bus as u64, 2);
    line.append(":");
    push_padded_hexadecimal(&mut line, d.slot as u64, 2);
    line.append(".");
    push_decimal(&mut line, d.function as u64);
    line.append(" [");
    push_padded_hexadecimal(&mut line, d.vendor_id as u64, 4);
    line.append(":");
    push_padded_hexadecimal(&mut line, d.device_id as u64, 4);
    line.append("] ");
    line.append(d.describe());
    line.append(" (class ");
    push_padded_hexadecimal(&mut line, d.class as u64, 2);
    line.append(":");
    push_padded_hexadecimal(&mut line, d.subclass as u64, 2);
    line.append(":");
    push_padded_hexadecimal(&mut line, d.prog_if as u64, 2);
    line.append(")");
    line
}

/// The devices that were found, one log line each, and how many.
pub fn init(devices: &Vec<Device>) -> (r: (Vec<String>, usize))
    ensures
        r.1 == devices@.len(),
        r.0@.len() == devices@.len(),
        forall|i: int|
            0 <= i < devices@.len() ==> (#[trigger] r.0@[i])@ == device_line(devices@[i]),
{
    let mut lines: Vec<String> = Vec::new();
    let mut i: usize = 0;
    while i < devices.len()
        invariant
            i <= devices.len(),
            lines@.len() == i,
            forall|k: int| 0 <= k < i ==> (#[trigger] lines@[k])@ == device_line(devices@[k]),
        decreases devices.len() - i,
    {
        lines.push(describe_device(&devices[i]));
        i += 1;
    }
    (lines, devices.len())
}

// ---------------------------------------------------------------------
// The walk finds everything
// ---------------------------------------------------------------------

/// A configuration space: the word behind each address.
pub type ConfigSpace = spec_fn(ConfigWord) -> u32;

/// The function's device in a configuration space.
pub open spec fn function_device(space: ConfigSpace, index: int, function: int) -> Option<Device> {
    let bus = (index / 32) as u8;
    let slot = (index % 32) as u8;
    let f = function as u8;
    device_at(
        bus,
        slot,
        f,
        space(ConfigWord { bus, slot, function: f, offset: 0x00 }),
        space(ConfigWord { bus, slot, function: f, offset: 0x08 }),
    )
}

/// The devices of functions `from` to 7 of a slot.
pub open spec fn further_devices(space: ConfigSpace, index: int, from: int) -> Seq<Device>
    decreases 8 - from,
{
    if from < 1 || from >= 8 {
        Seq::empty()
    } else {
        let rest = further_devices(space, index, from + 1);
        match function_device(space, index, from) {
            Some(device) => seq![device] + rest,
            None => rest,
        }
    }
}

/// The devices of a slot: none without a first function, and the further
/// ones only of a device that says it has them.
pub open spec fn slot_devices(space: ConfigSpace, index: int) -> Seq<Device> {
    let header = space(
        ConfigWord {
            bus: (index / 32) as u8,
            slot: (index % 32) as u8,
            function: 0,
            offset: 0x0C,
        },
    );
    match function_device(space, index, 0) {
        None => Seq::empty(),
        Some(device) => if has_functions(header) {
            seq![device] + further_devices(space, index, 1)
        } else {
            seq![device]
        },
    }
}

/// The devices of the slots from `index` on.
pub open spec fn devices_from(space: ConfigSpace, index: int) -> Seq<Device>
    decreases SLOTS - index,
{
    if index < 0 || index >= SLOTS {
        Seq::empty()
    } else {
        slot_devices(space, index) + devices_from(space, index + 1)
    }
}

/// How much of a walk is left.
pub open spec fn remaining(v: EnumerationView) -> nat {
    let stages = match v.stage {
        Stage::Id => 2int,
        Stage::Class { .. } => 1,
        Stage::Header => 0,
    };
    let functions = if v.function == 0 && v.stage == Stage::Header {
        8int
    } else if v.function == 0 {
        9
    } else {
        8 - v.function
    };
    ((SLOTS - v.index) * 64 + functions * 4 + stages) as nat
}

/// What a walk that reads `space` has found at its end.
pub open spec fn outcome(v: EnumerationView, space: ConfigSpace) -> Seq<Device>
    decreases remaining(v),
{
    if is_regular(v) && v.index < SLOTS {
        outcome(answered(v, space(wanted(v))), space)
    } else {
        v.devices
    }
}

proof fn lemma_further_functions(v: EnumerationView, space: ConfigSpace)
    requires
        is_regular(v),
        v.index < SLOTS,
        v.function >= 1,
        v.stage == Stage::Id,
    ensures
        outcome(v, space) == outcome(
            EnumerationView {
                index: v.index + 1,
                function: 0,
                stage: Stage::Id,
                devices: v.devices + further_devices(space, v.index, v.function),
            },
            space,
        ),
    decreases 8 - v.function,
{
    let id = space(wanted(v));
    let mut next = answered(v, id);
    let found = function_device(space, v.index, v.function);
    if id % 0x1_0000 != 0xFFFF {
        assert(outcome(v, space) == outcome(next, space));
        next = answered(next, space(wanted(next)));
        assert(outcome(v, space) == outcome(next, space));
        assert(next.devices == v.devices.push(found.unwrap()));
    }
    if v.function < 7 {
        lemma_further_functions(next, space);
        let rest = further_devices(space, v.index, v.function + 1);
        assert(next.devices + rest =~= v.devices + further_devices(space, v.index, v.function));
    } else {
        assert(further_devices(space, v.index, 8) =~= Seq::<Device>::empty());
        assert(next.devices =~= v.devices + further_devices(space, v.index, v.function));
    }
}

proof fn lemma_slots(v: EnumerationView, space: ConfigSpace)
    requires
        is_regular(v),
        v.function == 0,
        v.stage == Stage::Id,
    ensures
        outcome(v, space) == v.devices + devices_from(space, v.index),
    decreases SLOTS - v.index,
{
    if v.index < SLOTS {
        let id = space(wanted(v));
        let a = answered(v, id);
        let next = EnumerationView {
            index: v.index + 1,
            function: 0,
            stage: Stage::Id,
            devices: v.devices + slot_devices(space, v.index),
        };
        if id % 0x1_0000 == 0xFFFF {
            assert(a.devices =~= next.devices);
        } else {
            let b = answered(a, space(wanted(a)));
            let c = answered(b, space(wanted(b)));
            assert(outcome(v, space) == outcome(a, space));
            assert(outcome(a, space) == outcome(b, space));
            assert(outcome(b, space) == outcome(c, space));
            let first = function_device(space, v.index, 0).unwrap();
            assert(b.devices == v.devices.push(first));
            if has_functions(space(wanted(b))) {
                lemma_further_functions(c, space);
                assert(c.devices + further_devices(space, v.index, 1) =~= next.devices);
            } else {
                assert(c.devices =~= next.devices);
            }
        }
        lemma_slots(next, space);
        assert(next.devices + devices_from(space, v.index + 1) =~= v.devices + devices_from(
            space,
            v.index,
        ));
    } else {
        assert(v.devices + devices_from(space, v.index) =~= v.devices);
    }
}

/// The walk finds every device that is there, in the order of the bus, and
/// nothing twice: the further functions of a slot are looked at only where
/// the device says that it has them.
pub proof fn law_walk_finds_every_device(space: ConfigSpace)
    ensures
        outcome(beginning(), space) == devices_from(space, 0),
{
    lemma_slots(beginning(), space);
    assert(Seq::<Device>::empty() + devices_from(space, 0) =~= devices_from(space, 0));
}

/// What a function's words say: the vendor and the device in the lower and
/// the upper half of the first, and the class, its refinement and the
/// refinement of that from the top of the other. A vendor of all ones is no
/// function.
pub proof fn law_functions_are_identified(
    bus: u8,
    slot: u8,
    function: u8,
    id: u32,
    class_word: u32,
    header: u32,
)
    ensures
        device_at(bus, slot, function, id, class_word) is None <==> id % 65536 == 65535,
        device_at(bus, slot, function, id, class_word) matches Some(d) ==> {
            &&& d.bus == bus && d.slot == slot && d.function == function
            &&& d.vendor_id + 65536 * d.device_id == id
            &&& 0 <= class_word - 256 * (256 * (256 * d.class + d.subclass) + d.prog_if) < 256
        },
        has_functions(header) <==> header % 0x100_0000 >= 0x80_0000,
{
}

proof fn lemma_further_devices(space: ConfigSpace, index: int, from: int, f: int)
    requires
        1 <= from <= f < 8,
        function_device(space, index, f) is Some,
    ensures
        further_devices(space, index, from).contains(function_device(space, index, f).unwrap()),
    decreases 8 - from,
{
    let all = further_devices(space, index, from);
    let rest = further_devices(space, index, from + 1);
    if from == f {
        assert(all[0] == function_device(space, index, f).unwrap());
    } else {
        lemma_further_devices(space, index, from + 1, f);
        let k = rest.index_of(function_device(space, index, f).unwrap());
        if function_device(space, index, from) is Some {
            assert(all[k + 1] == rest[k]);
        }
    }
}

proof fn lemma_devices_from(space: ConfigSpace, from: int, index: int, d: Device)
    requires
        0 <= from <= index < SLOTS,
        slot_devices(space, index).contains(d),
    ensures
        devices_from(space, from).contains(d),
    decreases index - from,
{
    let here = slot_devices(space, from);
    let rest = devices_from(space, from + 1);
    let all = devices_from(space, from);
    assert(all == here + rest);
    if from == index {
        let k = here.index_of(d);
        assert(all[k] == d);
    } else {
        lemma_devices_from(space, from + 1, index, d);
        let k = rest.index_of(d);
        assert(all[here.len() + k] == d);
    }
}

/// Every function that answers is found, with what it says of itself: the
/// first one of every slot of every bus, and each further one where the
/// device says that it has more.
pub proof fn law_present_devices_are_found(
    space: ConfigSpace,
    bus: u8,
    slot: u8,
    function: u8,
    id: u32,
    class_word: u32,
)
    requires
        slot < 32,
        function < 8,
        id == space(ConfigWord { bus, slot, function, offset: 0 }),
        class_word == space(ConfigWord { bus, slot, function, offset: 8 }),
        id % 65536 != 65535,
        function > 0 ==> {
            &&& space(ConfigWord { bus, slot, function: 0, offset: 0 }) % 65536 != 65535
            &&& space(ConfigWord { bus, slot, function: 0, offset: 12 }) % 0x100_0000 >= 0x80_0000
        },
    ensures
        outcome(beginning(), space).contains(
            device_at(bus, slot, function, id, class_word).unwrap(),
        ),
{
    let index = 32 * bus + slot;
    let d = device_at(bus, slot, function, id, class_word).unwrap();
    assert((index / 32) as u8 == bus && (index % 32) as u8 == slot);
    assert(function_device(space, index, function as int) == Some(d));
    let here = slot_devices(space, index);
    assert(function_device(space, index, 0) is Some);
    if function == 0 {
        assert(here[0] == d);
    } else {
        let rest = further_devices(space, index, 1);
        lemma_further_devices(space, index, 1, function as int);
        let k = rest.index_of(d);
        assert(here[k + 1] == d);
    }
    lemma_devices_from(space, 0, index, d);
    law_walk_finds_every_device(space);
}

/// The log says of a device where it is, who made it, which it is, and of
/// what kind.
pub proof fn law_devices_are_logged(d: Device)
    ensures
        text::says(
            device_line(d),
            seq![
                text::zero_padded(text::hexadecimal(d.bus as nat), 2),
                text::zero_padded(text::hexadecimal(d.slot as nat), 2),
                text::decimal(d.function as nat),
                text::zero_padded(text::hexadecimal(d.vendor_id as nat), 4),
                text::zero_padded(text::hexadecimal(d.device_id as nat), 4),
                d.description()@,
                text::zero_padded(text::hexadecimal(d.class as nat), 2),
                text::zero_padded(text::hexadecimal(d.subclass as nat), 2),
                text::zero_padded(text::hexadecimal(d.prog_if as nat), 2),
            ],
        ),
{
    let none = Seq::<Seq<char>>::empty();
    let start = "Najm Kernel:   "@;
    text::lemma_says(start, none, text::zero_padded(text::hexadecimal(d.bus as nat), 2), ":"@);
    let line1 = start + text::zero_padded(text::hexadecimal(d.bus as nat), 2) + ":"@;
    let parts1 = none.push(text::zero_padded(text::hexadecimal(d.bus as nat), 2));
    text::lemma_says(line1, parts1, text::zero_padded(text::hexadecimal(d.slot as nat), 2), "."@);
    let line2 = line1 + text::zero_padded(text::hexadecimal(d.slot as nat), 2) + "."@;
    let parts2 = parts1.push(text::zero_padded(text::hexadecimal(d.slot as nat), 2));
    text::lemma_says(line2, parts2, text::decimal(d.function as nat), " ["@);
    let line3 = line2 + text::decimal(d.function as nat) + " ["@;
    let parts3 = parts2.push(text::decimal(d.function as nat));
    text::lemma_says(
        line3,
        parts3,
        text::zero_padded(text::hexadecimal(d.vendor_id as nat), 4),
        ":"@,
    );
    let line4 = line3 + text::zero_padded(text::hexadecimal(d.vendor_id as nat), 4) + ":"@;
    let parts4 = parts3.push(text::zero_padded(text::hexadecimal(d.vendor_id as nat), 4));
    text::lemma_says(
        line4,
        parts4,
        text::zero_padded(text::hexadecimal(d.device_id as nat), 4),
        "] "@,
    );
    let line5 = line4 + text::zero_padded(text::hexadecimal(d.device_id as nat), 4) + "] "@;
    let parts5 = parts4.push(text::zero_padded(text::hexadecimal(d.device_id as nat), 4));
    text::lemma_says(line5, parts5, d.description()@, " (class "@);
    let line6 = line5 + d.description()@ + " (class "@;
    let parts6 = parts5.push(d.description()@);
    text::lemma_says(line6, parts6, text::zero_padded(text::hexadecimal(d.class as nat), 2), ":"@);
    let line7 = line6 + text::zero_padded(text::hexadecimal(d.class as nat), 2) + ":"@;
    let parts7 = parts6.push(text::zero_padded(text::hexadecimal(d.class as nat), 2));
    text::lemma_says(
        line7,
        parts7,
        text::zero_padded(text::hexadecimal(d.subclass as nat), 2),
        ":"@,
    );
    let line8 = line7 + text::zero_padded(text::hexadecimal(d.subclass as nat), 2) + ":"@;
    let parts8 = parts7.push(text::zero_padded(text::hexadecimal(d.subclass as nat), 2));
    text::lemma_says(
        line8,
        parts8,
        text::zero_padded(text::hexadecimal(d.prog_if as nat), 2),
        ")"@,
    );
    let line9 = line8 + text::zero_padded(text::hexadecimal(d.prog_if as nat), 2) + ")"@;
    let parts9 = parts8.push(text::zero_padded(text::hexadecimal(d.prog_if as nat), 2));
    assert(parts9 =~= seq![
        text::zero_padded(text::hexadecimal(d.bus as nat), 2),
        text::zero_padded(text::hexadecimal(d.slot as nat), 2),
        text::decimal(d.function as nat),
        text::zero_padded(text::hexadecimal(d.vendor_id as nat), 4),
        text::zero_padded(text::hexadecimal(d.device_id as nat), 4),
        d.description()@,
        text::zero_padded(text::hexadecimal(d.class as nat), 2),
        text::zero_padded(text::hexadecimal(d.subclass as nat), 2),
        text::zero_padded(text::hexadecimal(d.prog_if as nat), 2),
    ]);
    assert(device_line(d) =~= line9);
}

/// What a device is called goes by its class: storage is 1, network 2,
/// display 3, multimedia 4, bridges 6 and serial buses 12. Some of these are
/// called by their subclass, and what is none of them is unknown.
pub proof fn law_devices_are_called_by_class(d: Device)
    ensures
        d.class == 2 ==> d.description()@ == "network controller"@,
        d.class == 3 ==> d.description()@ == "display controller"@,
        d.class == 1 && d.subclass == 1 ==> d.description()@ == "IDE storage controller"@,
        d.class == 1 && d.subclass == 6 ==> d.description()@ == "SATA controller (AHCI)"@,
        d.class == 1 && d.subclass == 8 ==> d.description()@ == "NVMe controller"@,
        d.class == 1 && d.subclass != 1 && d.subclass != 6 && d.subclass != 8
            ==> d.description()@ == "storage controller"@,
        d.class == 4 && d.subclass == 1 ==> d.description()@ == "audio device"@,
        d.class == 4 && d.subclass != 1 ==> d.description()@ == "multimedia controller"@,
        d.class == 6 && d.subclass == 0 ==> d.description()@ == "host bridge"@,
        d.class == 6 && d.subclass == 1 ==> d.description()@ == "ISA bridge"@,
        d.class == 6 && d.subclass == 4 ==> d.description()@ == "PCI-to-PCI bridge"@,
        d.class == 6 && d.subclass != 0 && d.subclass != 1 && d.subclass != 4
            ==> d.description()@ == "bridge"@,
        d.class == 12 && d.subclass == 3 ==> d.description()@ == "USB controller"@,
        d.class == 12 && d.subclass != 3 ==> d.description()@ == "serial bus controller"@,
        d.class == 0 || d.class == 5 || 7 <= d.class <= 11 || d.class > 12
            ==> d.description()@ == "unknown device class"@,
{
}

} // verus!
