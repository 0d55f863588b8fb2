//! The Win32 functions that are implemented, and the machine code that
//! translates a call to one into a system call.
//!
//! | | 1st arg | 2nd | 3rd | 4th | number |
//! |---|---|---|---|---|---|
//! | Microsoft x64 | RCX | RDX | R8 | R9 | - |
//! | system call | RDI | RSI | RDX | - | RAX |
//!
//! RDX appears in both lists in different positions, so a thunk reads each
//! register before anything overwrites it: RDX goes to RSI before R8 goes
//! to RDX.
use vstd::prelude::*;
use crate::abi::sys;
use crate::text::{self, push_decimal, text_eq};

verus! {

/// What a Win32 import is bound to.
#[derive(Debug, Clone, Copy)]
pub struct Thunk {
    /// The name as it appears in an import table, case-sensitive.
    pub name: &'static str,
    /// The system call the thunk issues.
    pub syscall: u64,
    /// How many arguments to translate.
    pub args: u8,
    /// What the function is, and where it is approximate.
    pub note: &'static str,
}

/// How many Win32 functions there are.
pub const THUNK_COUNT: usize = 4;

/// Every Win32 function that is implemented.
pub open spec fn thunk_table() -> Seq<Thunk> {
    seq![
        Thunk {
            name: "ExitProcess",
            syscall: sys::EXIT,
            args: 1,
            note: "exact - the exit code maps directly onto Najm's exit status",
        },
        Thunk {
            name: "GetTickCount",
            syscall: sys::UPTIME_MS,
            args: 0,
            note: "exact in meaning - milliseconds since boot - though Najm's clock has 10 ms \
               resolution rather than Windows's ~15.6 ms",
        },
        Thunk {
            name: "Sleep",
            syscall: sys::YIELD,
            args: 1,
            note: "APPROXIMATE - yields the CPU rather than sleeping for the requested duration. A \
               program that calls Sleep in a loop to pace itself will run far too fast. Correct \
               behaviour needs a timer-backed sleep, which is a real syscall to add rather than \
               a thunk to change",
        },
        Thunk {
            name: "OutputDebugStringA",
            syscall: sys::WRITE_CSTR,
            args: 1,
            note: "exact for the common case - writes a NUL-terminated string to the console. \
               Windows delivers it to an attached debugger instead, which is a difference in \
               destination rather than in behaviour",
        },
    ]
}

/// Every Win32 function that is implemented.
pub fn thunks() -> (table: Vec<Thunk>)
    ensures
        table@ == thunk_table(),
        table.len() == THUNK_COUNT,
{
    let mut table: Vec<Thunk> = Vec::new();
    table.push(
        Thunk {
            name: "ExitProcess",
            syscall: sys::EXIT,
            args: 1,
            note: "exact - the exit code maps directly onto Najm's exit status",
        },
    );
    table.push(
        Thunk {
            name: "GetTickCount",
            syscall: sys::UPTIME_MS,
            args: 0,
            note: "exact in meaning - milliseconds since boot - though Najm's clock has 10 ms \
               resolution rather than Windows's ~15.6 ms",
        },
    );
    table.push(
        Thunk {
            name: "Sleep",
            syscall: sys::YIELD,
            args: 1,
            note: "APPROXIMATE - yields the CPU rather than sleeping for the requested duration. A \
               program that calls Sleep in a loop to pace itself will run far too fast. Correct \
               behaviour needs a timer-backed sleep, which is a real syscall to add rather than \
               a thunk to change",
        },
    );
    table.push(
        Thunk {
            name: "OutputDebugStringA",
            syscall: sys::WRITE_CSTR,
            args: 1,
            note: "exact for the common case - writes a NUL-terminated string to the console. \
               Windows delivers it to an attached debugger instead, which is a difference in \
               destination rather than in behaviour",
        },
    );
    table
}

/// The first of `table` from `i` on that has this name.
pub open spec fn find_thunk(table: Seq<Thunk>, i: int, name: Seq<char>) -> Option<Thunk>
    decreases table.len() - i,
{
    if i < 0 || i >= table.len() {
        None
    } else if table[i].name@ == name {
        Some(table[i])
    } else {
        find_thunk(table, i + 1, name)
    }
}

/// The thunk for an imported name.
pub open spec fn thunk_for(name: Seq<char>) -> Option<Thunk> {
    find_thunk(thunk_table(), 0, name)
}

/// Finds the thunk for an imported name.
pub fn lookup(name: &str) -> (r: Option<Thunk>)
    ensures
        r == thunk_for(name@),
{
    let table: Vec<Thunk> = thunks();
    let mut i: usize = 0;
    while i < table.len()
        invariant
            i <= table.len(),
            table@ == thunk_table(),
            thunk_for(name@) == find_thunk(table@, i as int, name@),
        decreases table.len() - i,
    {
        if text_eq(table[i].name, name) {
            return Some(table[i]);
        }
        i += 1;
    }
    None
}

/// Bytes reserved per thunk, so that a thunk's address is its index times
/// this.
pub const THUNK_STRIDE: usize = 32;

/// The instructions of a thunk: as many register moves as it has
/// arguments, then `mov rax, number`, `int 0x80`, `ret`.
pub open spec fn thunk_instructions(thunk: Thunk) -> Seq<u8> {
    (if thunk.args >= 1 {
        seq![0x48u8, 0x89, 0xCF]
    } else {
        Seq::empty()
    }) + (if thunk.args >= 2 {
        seq![0x48u8, 0x89, 0xD6]
    } else {
        Seq::empty()
    }) + (if thunk.args >= 3 {
        seq![0x4Cu8, 0x89, 0xC2]
    } else {
        Seq::empty()
    }) + seq![0x48u8, 0xC7, 0xC0] + seq![
        (thunk.syscall % 0x100) as u8,
        (thunk.syscall / 0x100 % 0x100) as u8,
        (thunk.syscall / 0x1_0000 % 0x100) as u8,
        (thunk.syscall / 0x100_0000 % 0x100) as u8,
    ] + seq![0xCDu8, 0x80] + seq![0xC3u8]
}

/// The machine code of a thunk, filled up with `nop`.
pub open spec fn thunk_code(thunk: Thunk) -> Seq<u8> {
    let code = thunk_instructions(thunk);
    code + Seq::new((THUNK_STRIDE - code.len()) as nat, |i: int| 0x90u8)
}

/// Emits the machine code for one thunk.
pub fn generate_thunk(thunk: &Thunk) -> (code: Vec<u8>)
    ensures
        code@ == thunk_code(*thunk),
        code.len() == THUNK_STRIDE,
{
    let mut code: Vec<u8> = Vec::new();
    // Read-before-overwrite order: RCX, then RDX, then R8.
    if thunk.args >= 1 {
        code.push(0x48);
        code.push(0x89);
        code.push(0xCF);
    }
    if thunk.args >= 2 {
        code.push(0x48);
        code.push(0x89);
        code.push(0xD6);
    }
    if thunk.args >= 3 {
        code.push(0x4C);
        code.push(0x89);
        code.push(0xC2);
    }
    code.push(0x48);
    code.push(0xC7);
    code.push(0xC0);
    code.push((thunk.syscall % 0x100) as u8);
    code.push((thunk.syscall / 0x100 % 0x100) as u8);
    code.push((thunk.syscall / 0x1_0000 % 0x100) as u8);
    code.push((thunk.syscall / 0x100_0000 % 0x100) as u8);
    code.push(0xCD);
    code.push(0x80);
    code.push(0xC3);
    assert(code@ =~= thunk_instructions(*thunk));
    let ghost emitted = code@;
    while code.len() < THUNK_STRIDE
        invariant
            emitted.len() <= code.len() <= THUNK_STRIDE,
            code@ == emitted + Seq::new((code.len() - emitted.len()) as nat, |i: int| 0x90u8),
        decreases THUNK_STRIDE - code.len(),
    {
        code.push(0x90);
        assert(code@ =~= emitted + Seq::new((code.len() - emitted.len()) as nat, |i: int| 0x90u8));
    }
    code
}

/// The registers a thunk reads and writes.
pub struct Registers {
    pub rax: u64,
    pub rcx: u64,
    pub rdx: u64,
    pub rsi: u64,
    pub rdi: u64,
    pub r8: u64,
}

/// The registers when machine code made of a thunk's instructions reaches
/// its `int 0x80`, if it does.
pub open spec fn at_system_call(code: Seq<u8>, r: Registers) -> Option<Registers>
    decreases code.len(),
{
    if code.len() >= 2 && code[0] == 0xCD && code[1] == 0x80 {
        Some(r)
    } else if code.len() >= 7 && code[0] == 0x48 && code[1] == 0xC7 && code[2] == 0xC0 && code[6]
        < 0x80 {
        let number = code[3] + code[4] * 0x100 + code[5] * 0x1_0000 + code[6] * 0x100_0000;
        at_system_call(code.subrange(7, code.len() as int), Registers { rax: number as u64, ..r })
    } else if code.len() >= 3 && code[0] == 0x48 && code[1] == 0x89 && code[2] == 0xCF {
        at_system_call(code.subrange(3, code.len() as int), Registers { rdi: r.rcx, ..r })
    } else if code.len() >= 3 && code[0] == 0x48 && code[1] == 0x89 && code[2] == 0xD6 {
        at_system_call(code.subrange(3, code.len() as int), Registers { rsi: r.rdx, ..r })
    } else if code.len() >= 3 && code[0] == 0x4C && code[1] == 0x89 && code[2] == 0xC2 {
        at_system_call(code.subrange(3, code.len() as int), Registers { rdx: r.r8, ..r })
    } else {
        None
    }
}

/// A thunk issues its own system call, with as many of the caller's
/// arguments as it has moved from the registers of the Microsoft
/// convention to those of a system call. None is overwritten before it is
/// read.
pub proof fn law_thunks_pass_arguments_on(thunk: Thunk, r: Registers)
    requires
        thunk.syscall < 0x8000_0000,
    ensures
        at_system_call(thunk_code(thunk), r) matches Some(after) && {
            &&& after.rax == thunk.syscall
            &&& thunk.args >= 1 ==> after.rdi == r.rcx
            &&& thunk.args >= 2 ==> after.rsi == r.rdx
            &&& thunk.args >= 3 ==> after.rdx == r.r8
        },
{
    let n = thunk.syscall;
    let code = thunk_code(thunk);
    let padding = Seq::new((THUNK_STRIDE - thunk_instructions(thunk).len()) as nat, |i: int| 0x90u8);
    let call = seq![0xCDu8, 0x80] + seq![0xC3u8] + padding;
    let number = seq![
        0x48u8,
        0xC7,
        0xC0,
        (n % 0x100) as u8,
        (n / 0x100 % 0x100) as u8,
        (n / 0x1_0000 % 0x100) as u8,
        (n / 0x100_0000 % 0x100) as u8,
    ] + call;
    let r1 = if thunk.args >= 1 {
        Registers { rdi: r.rcx, ..r }
    } else {
        r
    };
    let r2 = if thunk.args >= 2 {
        Registers { rsi: r.rdx, ..r1 }
    } else {
        r1
    };
    let r3 = if thunk.args >= 3 {
        Registers { rdx: r.r8, ..r2 }
    } else {
        r2
    };
    let third = if thunk.args >= 3 {
        seq![0x4Cu8, 0x89, 0xC2] + number
    } else {
        number
    };
    let second = if thunk.args >= 2 {
        seq![0x48u8, 0x89, 0xD6] + third
    } else {
        third
    };
    let first = if thunk.args >= 1 {
        seq![0x48u8, 0x89, 0xCF] + second
    } else {
        second
    };
    assert(code =~= first);
    let after = Registers { rax: n, ..r3 };
    assert(number.subrange(7, number.len() as int) =~= call);
    assert(at_system_call(call, after) == Some(after));
    assert(n % 0x100 + n / 0x100 % 0x100 * 0x100 + n / 0x1_0000 % 0x100 * 0x1_0000 + n / 0x100_0000
        % 0x100 * 0x100_0000 == n) by {
        assert(n / 0x100_0000 < 0x80);
    }
    assert(at_system_call(number, r3) == Some(after));
    if thunk.args >= 3 {
        assert(third.subrange(3, third.len() as int) =~= number);
    }
    assert(at_system_call(third, r2) == Some(after));
    if thunk.args >= 2 {
        assert(second.subrange(3, second.len() as int) =~= third);
    }
    assert(at_system_call(second, r1) == Some(after));
    if thunk.args >= 1 {
        assert(first.subrange(3, first.len() as int) =~= second);
    }
}

/// Every thunk ends in a return before its padding.
pub proof fn law_thunks_return(thunk: Thunk)
    ensures
        thunk_instructions(thunk).len() <= THUNK_STRIDE,
        thunk_instructions(thunk).last() == 0xC3,
        thunk_code(thunk).len() == THUNK_STRIDE,
{
}

/// One line of the boot report.
pub open spec fn thunk_line(thunk: Thunk) -> Seq<char> {
    "Najm Kernel:   "@ + thunk.name@ + "("@ + text::decimal(thunk.args as nat) + " arg"@ + (
    if thunk.args == 1 {
        ""@
    } else {
        "s"@
    }) + ") -> syscall "@ + text::decimal(thunk.syscall as nat) + " - "@ + thunk.note@
}

fn describe(thunk: &Thunk) -> (line: String)
    ensures
        line@ == thunk_line(*thunk),
{
    let mut line = String::from_str("Najm Kernel:   ");
    line.append(thunk.name);
    line.append("(");
    push_decimal(&mut line, thunk.args as u64);
    line.append(" arg");
    line.append(
        if thunk.args == 1 {
            ""
        } else {
            "s"
        },
    );
    line.append(") -> syscall ");
    push_decimal(&mut line, thunk.syscall);
    line.append(" - ");
    line.append(thunk.note);
    line
}

/// The implemented surface, one line each after a heading. Approximations
/// are printed alongside the exact ones.
pub fn report() -> (lines: Vec<String>)
    ensures
        lines@.len() == 1 + thunk_table().len(),
        lines@[0]@ == "Najm Kernel: Mirage implements "@ + text::decimal(THUNK_COUNT as nat)
            + " Win32 function(s):"@,
        forall|i: int|
            0 <= i < thunk_table().len() ==> #[trigger] lines@[i + 1]@ == thunk_line(
                thunk_table()[i],
            ),
{
    let table: Vec<Thunk> = thunks();
    let mut lines: Vec<String> = Vec::new();
    let mut heading = String::from_str("Najm Kernel: Mirage implements ");
    push_decimal(&mut heading, table.len() as u64);
    heading.append(" Win32 function(s):");
    lines.push(heading);
    let mut i: usize = 0;
    while i < table.len()
        invariant
            i <= table.len(),
            table@ == thunk_table(),
            lines@.len() == 1 + i,
            lines@[0]@ == "Najm Kernel: Mirage implements "@ + text::decimal(THUNK_COUNT as nat)
                + " Win32 function(s):"@,
            forall|j: int|
                0 <= j < i ==> #[trigger] lines@[j + 1]@ == thunk_line(thunk_table()[j]),
        decreases table.len() - i,
    {
        lines.push(describe(&table[i]));
        i += 1;
    }
    lines
}

/// Exactly the functions that are implemented have a thunk, under their own
/// names, and each calls the system call that does its work.
pub proof fn law_thunks_by_name(name: Seq<char>)
    ensures
        thunk_for(name) is Some <==> {
            ||| name == "ExitProcess"@
            ||| name == "GetTickCount"@
            ||| name == "Sleep"@
            ||| name == "OutputDebugStringA"@
        },
        thunk_for(name) matches Some(thunk) ==> {
            &&& thunk.name@ == name
            &&& name == "ExitProcess"@ ==> thunk.syscall == sys::EXIT && thunk.args == 1
            &&& name == "GetTickCount"@ ==> thunk.syscall == sys::UPTIME_MS && thunk.args == 0
            &&& name == "Sleep"@ ==> thunk.syscall == sys::YIELD && thunk.args == 1
            &&& name == "OutputDebugStringA"@ ==> thunk.syscall == sys::WRITE_CSTR && thunk.args
                == 1
        },
{
    reveal_strlit("ExitProcess");
    reveal_strlit("GetTickCount");
    reveal_strlit("Sleep");
    reveal_strlit("OutputDebugStringA");
    reveal_with_fuel(find_thunk, 5);
    assert("ExitProcess"@.len() == 11);
    assert("GetTickCount"@.len() == 12);
    assert("Sleep"@.len() == 5);
    assert("OutputDebugStringA"@.len() == 18);
}

/// The report says of a thunk its name, how many arguments it takes, the
/// system call it makes, and the note on it.
pub proof fn law_thunks_are_reported(thunk: Thunk)
    ensures
        text::says(
            thunk_line(thunk),
            seq![
                thunk.name@,
                text::decimal(thunk.args as nat),
                text::decimal(thunk.syscall as nat),
                thunk.note@,
            ],
        ),
{
    let plural = if thunk.args == 1 {
        ""@
    } else {
        "s"@
    };
    let middle = " arg"@ + plural + ") -> syscall "@;
    let none = Seq::<Seq<char>>::empty();
    let start = "Najm Kernel:   "@;
    text::lemma_says(start, none, thunk.name@, "("@);
    let line1 = start + thunk.name@ + "("@;
    let parts1 = none.push(thunk.name@);
    text::lemma_says(line1, parts1, text::decimal(thunk.args as nat), middle);
    let line2 = line1 + text::decimal(thunk.args as nat) + middle;
    let parts2 = parts1.push(text::decimal(thunk.args as nat));
    text::lemma_says(line2, parts2, text::decimal(thunk.syscall as nat), " - "@);
    let line3 = line2 + text::decimal(thunk.syscall as nat) + " - "@;
    let parts3 = parts2.push(text::decimal(thunk.syscall as nat));
    text::lemma_says(line3, parts3, thunk.note@, Seq::<char>::empty());
    let line4 = line3 + thunk.note@ + Seq::<char>::empty();
    let parts4 = parts3.push(thunk.note@);
    assert(parts4 =~= seq![
        thunk.name@,
        text::decimal(thunk.args as nat),
        text::decimal(thunk.syscall as nat),
        thunk.note@,
    ]);
    assert(thunk_line(thunk) =~= line4);
}

} // verus!
