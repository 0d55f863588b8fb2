//! Realms: which rights a task or a process has.
//!
//! A kernel task holds capability tokens: a right it was not granted is a
//! value that does not exist. A user process cannot hold such a value, so
//! its rights are a bitmask that the kernel keeps and consults on its
//! behalf.
use vstd::prelude::*;
use crate::abi::{capability_bits, realm_kind};
use crate::arch::x86_64::interrupts::{ticks_with_capability, Clock};
use crate::drivers::serial::write_with_capability;
use crate::security::capability::{Capability, Registry, SerialWrite, TimerRead};
use crate::text::{self, push_decimal};

verus! {

/// A Realm's identity and rights, in the form a process can be given.
#[derive(Debug, Clone, Copy)]
pub struct RealmProfile {
    /// For the log.
    pub name: &'static str,
    /// One of the `realm_kind` constants.
    pub kind: u64,
    /// A bitmask of the `capability_bits` constants.
    pub capabilities: u64,
}

impl RealmProfile {
    /// Every bit of `right` is granted.
    pub open spec fn grants(self, right: u64) -> bool {
        self.capabilities & right == right
    }

    /// Whether this Realm holds `right`.
    pub fn allows(&self, right: u64) -> (r: bool)
        ensures
            r == self.grants(right),
    {
        self.capabilities & right == right
    }
}

pub const HOME_RIGHTS: u64 = capability_bits::SERIAL_WRITE | capability_bits::TIMER_READ
    | capability_bits::FILE_READ | capability_bits::IPC_CREATE | capability_bits::IPC_CONNECT
    | capability_bits::SURFACE_CREATE | capability_bits::INPUT_READ;

pub const GAMING_RIGHTS: u64 = capability_bits::SERIAL_WRITE | capability_bits::TIMER_READ
    | capability_bits::FILE_READ | capability_bits::SURFACE_CREATE | capability_bits::INPUT_READ
    | capability_bits::EXCLUSIVE_SCANOUT;

pub const VAULT_RIGHTS: u64 = capability_bits::TIMER_READ | capability_bits::FILE_READ
    | capability_bits::FILE_WRITE | capability_bits::SURFACE_CREATE;

/// What `home` returns.
pub open spec fn home_profile() -> RealmProfile {
    RealmProfile { name: "Home Realm", kind: realm_kind::HOME, capabilities: HOME_RIGHTS }
}

/// What `gaming` returns.
pub open spec fn gaming_profile() -> RealmProfile {
    RealmProfile { name: "Gaming Realm", kind: realm_kind::GAMING, capabilities: GAMING_RIGHTS }
}

/// What `vault` returns.
pub open spec fn vault_profile() -> RealmProfile {
    RealmProfile { name: "Vault Realm", kind: realm_kind::VAULT, capabilities: VAULT_RIGHTS }
}

/// What `system` returns.
pub open spec fn system_profile() -> RealmProfile {
    RealmProfile { name: "System Realm", kind: realm_kind::SYSTEM, capabilities: u64::MAX }
}

/// What any application gets by default.
pub fn home() -> (p: RealmProfile)
    ensures
        p == home_profile(),
{
    RealmProfile { name: "Home Realm", kind: realm_kind::HOME, capabilities: HOME_RIGHTS }
}

/// Bounded-latency scheduling and exclusive scanout. A game needs the CPU
/// and the screen, not files to write or programs to launch.
pub fn gaming() -> (p: RealmProfile)
    ensures
        p == gaming_profile(),
{
    RealmProfile { name: "Gaming Realm", kind: realm_kind::GAMING, capabilities: GAMING_RIGHTS }
}

/// Integrity over performance: no shared console and no input stream.
pub fn vault() -> (p: RealmProfile)
    ensures
        p == vault_profile(),
{
    RealmProfile { name: "Vault Realm", kind: realm_kind::VAULT, capabilities: VAULT_RIGHTS }
}

/// The compositor and other core services. A process can observe this
/// Realm, and none can be placed in it.
pub fn system() -> (p: RealmProfile)
    ensures
        p == system_profile(),
{
    RealmProfile { name: "System Realm", kind: realm_kind::SYSTEM, capabilities: u64::MAX }
}

/// The rights each Realm has and lacks.
pub proof fn law_realm_rights()
    ensures
        home_profile().grants(
            capability_bits::SERIAL_WRITE | capability_bits::IPC_CREATE
                | capability_bits::INPUT_READ,
        ),
        !home_profile().grants(capability_bits::FILE_WRITE),
        !home_profile().grants(capability_bits::PROCESS_SPAWN),
        !home_profile().grants(capability_bits::EXCLUSIVE_SCANOUT),
        gaming_profile().grants(capability_bits::EXCLUSIVE_SCANOUT),
        !gaming_profile().grants(capability_bits::FILE_WRITE),
        !gaming_profile().grants(capability_bits::PROCESS_SPAWN),
        vault_profile().grants(capability_bits::FILE_WRITE),
        !vault_profile().grants(capability_bits::SERIAL_WRITE),
        !vault_profile().grants(capability_bits::INPUT_READ),
{
    assert(0x1E7u64 & 0x121 == 0x121 && 0x1E7u64 & 0x8 != 0x8 && 0x1E7u64 & 0x10 != 0x10 && 0x1E7u64
        & 0x200 != 0x200 && 0x387u64 & 0x200 == 0x200 && 0x387u64 & 0x8 != 0x8 && 0x387u64 & 0x10
        != 0x10 && 0x8Eu64 & 0x8 == 0x8 && 0x8Eu64 & 0x1 != 0x1 && 0x8Eu64 & 0x100 != 0x100
        && 0x1u64 | 0x20 | 0x100 == 0x121 && 0x1u64 | 0x2 | 0x4 | 0x20 | 0x40 | 0x80 | 0x100
        == 0x1E7 && 0x1u64 | 0x2 | 0x4 | 0x80 | 0x100 | 0x200 == 0x387 && 0x2u64 | 0x4 | 0x8 | 0x80
        == 0x8E) by (bit_vector);
}

/// Holding several rights at once is holding each of them.
pub proof fn law_rights_split(profile: RealmProfile, a: u64, b: u64)
    ensures
        profile.grants(a | b) == (profile.grants(a) && profile.grants(b)),
{
    let c = profile.capabilities;
    assert((c & (a | b) == a | b) == (c & a == a && c & b == b)) by (bit_vector);
}

/// What a task of a Realm carries: its name, for the log, and whichever
/// capabilities it was granted. There is no other channel for it to get
/// more.
#[derive(Debug)]
pub struct RealmContext {
    pub name: &'static str,
    pub serial_cap: Option<Capability<SerialWrite>>,
    pub timer_cap: Option<Capability<TimerRead>>,
}

/// The context a new Realm task starts with. What is handed over here is
/// its entire set of capabilities.
pub fn spawn(
    name: &'static str,
    serial_cap: Option<Capability<SerialWrite>>,
    timer_cap: Option<Capability<TimerRead>>,
) -> (context: RealmContext)
    ensures
        context == (RealmContext { name, serial_cap, timer_cap }),
{
    RealmContext { name, serial_cap, timer_cap }
}

/// How often a Realm task tries its capabilities before it exits.
pub const ITERATIONS: u64 = 3;

/// What a line about iteration `i` starts with.
pub open spec fn iteration_prefix(name: Seq<char>, i: nat) -> Seq<char> {
    "["@ + name + "] iteration "@ + text::decimal(i) + ": "@
}

/// What one iteration of a Realm task does.
#[derive(Debug)]
pub struct RealmIteration {
    /// What the task writes to the console through its own capability.
    pub written: Option<Vec<u8>>,
    /// The kernel's report that the task has no such capability.
    pub no_serial: Option<String>,
    /// The kernel's report on reading the timer.
    pub timer: String,
}

/// What the task writes in iteration `i`.
pub open spec fn own_line(name: Seq<char>, i: nat) -> Seq<char> {
    iteration_prefix(name, i) + "wrote via its own SerialWrite capability\n"@
}

/// What the kernel reports where there is no capability to write.
pub open spec fn no_serial_line(name: Seq<char>, i: nat) -> Seq<char> {
    iteration_prefix(name, i)
        + "has no SerialWrite capability - cannot write, by construction"@
}

/// What the kernel reports on reading the timer.
pub open spec fn timer_line(context: RealmContext, revoked: Set<u64>, ticks: u64, i: nat) -> Seq<
    char,
> {
    let prefix = iteration_prefix(context.name@, i);
    match context.timer_cap {
        None => prefix
            + "has no TimerRead capability - cannot read ticks, by construction"@,
        Some(cap) => if revoked.contains(cap.id()) {
            prefix + "TimerRead capability rejected ("@ + "capability has been revoked"@ + ")"@
        } else {
            prefix + "read "@ + text::decimal(ticks as nat)
                + " ticks via its own TimerRead capability"@
        },
    }
}

fn begin_line(name: &str, i: u64) -> (line: String)
    ensures
        line@ == iteration_prefix(name@, i as nat),
{
    let mut line = String::from_str("[");
    line.append(name);
    line.append("] iteration ");
    push_decimal(&mut line, i);
    line.append(": ");
    line
}

/// One iteration of a Realm task: it tries to write to the console and to
/// read the timer with the capabilities it holds.
pub fn realm_iteration(context: &RealmContext, registry: &Registry, clock: &Clock, i: u64) -> (r:
    RealmIteration)
    ensures
        match context.serial_cap {
            Some(cap) => {
                &&& r.no_serial is None
                &&& match r.written {
                    Some(bytes) => !registry.revoked().contains(cap.id()) && bytes@
                        == vstd::utf8::encode_utf8(own_line(context.name@, i as nat)),
                    None => registry.revoked().contains(cap.id()),
                }
            },
            None => {
                &&& r.written is None
                &&& r.no_serial matches Some(line) && line@ == no_serial_line(
                    context.name@,
                    i as nat,
                )
            },
        },
        r.timer@ == timer_line(*context, registry.revoked(), clock.ticks, i as nat),
{
    let mut written: Option<Vec<u8>> = None;
    let mut no_serial: Option<String> = None;
    let mut line = begin_line(context.name, i);
    match &context.serial_cap {
        Some(cap) => {
            line.append("wrote via its own SerialWrite capability\n");
            written = match write_with_capability(cap, registry, line.as_str()) {
                Ok(bytes) => Some(bytes),
                Err(_) => None,
            };
        },
        None => {
            line.append("has no SerialWrite capability - cannot write, by construction");
            no_serial = Some(line);
        },
    }
    let mut timer = begin_line(context.name, i);
    match &context.timer_cap {
        Some(cap) => {
            match ticks_with_capability(cap, registry, clock) {
                Ok(ticks) => {
                    timer.append("read ");
                    push_decimal(&mut timer, ticks);
                    timer.append(" ticks via its own TimerRead capability");
                },
                Err(err) => {
                    timer.append("TimerRead capability rejected (");
                    timer.append(err.message().as_str());
                    timer.append(")");
                },
            }
        },
        None => {
            timer.append("has no TimerRead capability - cannot read ticks, by construction");
        },
    }
    RealmIteration { written, no_serial, timer }
}

/// The rights of each Realm, bit by bit, with its name and its number.
pub proof fn law_realms_are_as_described()
    ensures
        home_profile().capabilities == 1 + 2 + 4 + 32 + 64 + 128 + 256,
        gaming_profile().capabilities == 1 + 2 + 4 + 128 + 256 + 512,
        vault_profile().capabilities == 2 + 4 + 8 + 128,
        system_profile().capabilities == 0xffff_ffff_ffff_ffff,
        home_profile().kind == 0,
        gaming_profile().kind == 1,
        vault_profile().kind == 2,
        system_profile().kind == 3,
        home_profile().name@ == "Home Realm"@,
        gaming_profile().name@ == "Gaming Realm"@,
        vault_profile().name@ == "Vault Realm"@,
        system_profile().name@ == "System Realm"@,
{
    assert(0x1u64 | 0x2 | 0x4 | 0x20 | 0x40 | 0x80 | 0x100 == 0x1E7 && 0x1u64 | 0x2 | 0x4 | 0x80
        | 0x100 | 0x200 == 0x387 && 0x2u64 | 0x4 | 0x8 | 0x80 == 0x8E) by (bit_vector);
}

/// A right is granted exactly where its bit is among the Realm's.
pub proof fn law_rights_are_bits(profile: RealmProfile, right: u64)
    ensures
        profile.grants(right) <==> profile.capabilities & right == right,
        profile.grants(0),
{
    let held = profile.capabilities;
    assert(held & 0 == 0) by (bit_vector);
}

/// A line of a Realm task says which task it is, and which iteration.
pub proof fn law_iterations_are_told_apart(name: Seq<char>, i: nat)
    ensures
        text::says(
            iteration_prefix(name, i),
            seq![
                name,
                text::decimal(i),
            ],
        ),
{
    let none = Seq::<Seq<char>>::empty();
    let start = "["@;
    text::lemma_says(start, none, name, "] iteration "@);
    let line1 = start + name + "] iteration "@;
    let parts1 = none.push(name);
    text::lemma_says(line1, parts1, text::decimal(i), ": "@);
    let line2 = line1 + text::decimal(i) + ": "@;
    let parts2 = parts1.push(text::decimal(i));
    assert(parts2 =~= seq![name, text::decimal(i)]);
    assert(iteration_prefix(name, i) =~= line2);
}

/// A task that may read the timer reports its name, the iteration, and the
/// ticks it read.
pub proof fn law_ticks_are_reported(context: RealmContext, revoked: Set<u64>, ticks: u64, i: nat)
    requires
        context.timer_cap matches Some(cap) && !revoked.contains(cap.id()),
    ensures
        text::says(
            timer_line(context, revoked, ticks, i),
            seq![
                context.name@,
                text::decimal(i),
                text::decimal(ticks as nat),
            ],
        ),
{
    let middle = ": "@ + "read "@;
    let none = Seq::<Seq<char>>::empty();
    let start = "["@;
    text::lemma_says(start, none, context.name@, "] iteration "@);
    let line1 = start + context.name@ + "] iteration "@;
    let parts1 = none.push(context.name@);
    text::lemma_says(line1, parts1, text::decimal(i), middle);
    let line2 = line1 + text::decimal(i) + middle;
    let parts2 = parts1.push(text::decimal(i));
    text::lemma_says(line2, parts2, text::decimal(ticks as nat), " ticks via its own TimerRead capability"@);
    let line3 = line2 + text::decimal(ticks as nat) + " ticks via its own TimerRead capability"@;
    let parts3 = parts2.push(text::decimal(ticks as nat));
    assert(parts3 =~= seq![context.name@, text::decimal(i), text::decimal(ticks as nat)]);
    assert(timer_line(context, revoked, ticks, i) =~= line3);
}

} // verus!
