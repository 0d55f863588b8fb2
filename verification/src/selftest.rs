//! The kernel's own test bookkeeping: every check is reported in one
//! uniform line and counted, and the boot ends with a verdict.
use vstd::prelude::*;
use crate::text::{self, push_decimal};

verus! {

/// How many checks have passed and how many have failed.
#[derive(Debug, Clone, Copy, PartialEq, Eq, Structural)]
pub struct Tally {
    pub passed: u32,
    pub failed: u32,
}

impl Tally {
    /// No checks yet.
    pub fn new() -> (r: Tally)
        ensures
            r == (Tally { passed: 0, failed: 0 }),
    {
        Tally { passed: 0, failed: 0 }
    }
}

/// One more than a counter, which wraps.
pub open spec fn one_more(n: u32) -> u32 {
    if n == u32::MAX {
        0
    } else {
        (n + 1) as u32
    }
}

/// The counts after one more check.
pub open spec fn counted(t: Tally, passed: bool) -> Tally {
    if passed {
        Tally { passed: one_more(t.passed), ..t }
    } else {
        Tally { failed: one_more(t.failed), ..t }
    }
}

/// The line about a check. A failure always has the word in it that a
/// script scanning the log looks for.
pub open spec fn check_line(name: Seq<char>, passed: bool, detail: Seq<char>) -> Seq<char> {
    if passed {
        "[ ok ] "@ + name + " - "@ + detail
    } else {
        "[FAIL] "@ + name + " - FAILURE: "@ + detail
    }
}

/// Records the outcome of one check and returns the line about it. What
/// was observed is reported either way.
pub fn check(tally: &mut Tally, name: &str, passed: bool, detail: &str) -> (line: String)
    ensures
        *final(tally) == counted(*old(tally), passed),
        line@ == check_line(name@, passed, detail@),
{
    if passed {
        tally.passed = tally.passed.wrapping_add(1);
        let mut line = String::from_str("[ ok ] ");
        line.append(name);
        line.append(" - ");
        line.append(detail);
        line
    } else {
        tally.failed = tally.failed.wrapping_add(1);
        let mut line = String::from_str("[FAIL] ");
        line.append(name);
        line.append(" - FAILURE: ");
        line.append(detail);
        line
    }
}

/// What is reported of two numbers that have to match.
pub open spec fn comparison(actual: u64, expected: u64) -> Seq<char> {
    if actual == expected {
        text::decimal(actual as nat) + " as expected"@
    } else {
        "expected "@ + text::decimal(expected as nat) + ", got "@ + text::decimal(actual as nat)
    }
}

/// Checks that two numbers match.
pub fn check_eq(tally: &mut Tally, name: &str, actual: u64, expected: u64) -> (line: String)
    ensures
        *final(tally) == counted(*old(tally), actual == expected),
        line@ == check_line(name@, actual == expected, comparison(actual, expected)),
{
    let mut detail = String::new();
    if actual == expected {
        push_decimal(&mut detail, actual);
        detail.append(" as expected");
    } else {
        detail.append("expected ");
        push_decimal(&mut detail, expected);
        detail.append(", got ");
        push_decimal(&mut detail, actual);
    }
    assert(detail@ =~= comparison(actual, expected));
    check(tally, name, actual == expected, detail.as_str())
}

/// How many checks have failed so far.
pub fn failures(tally: &Tally) -> (n: u32)
    ensures
        n == tally.failed,
{
    tally.failed
}

/// The summary line.
pub open spec fn summary(t: Tally) -> Seq<char> {
    "Najm Kernel: SELF-TEST SUMMARY - "@ + text::decimal(t.passed as nat) + " passed, "@
        + text::decimal(t.failed as nat) + " failed, "@ + text::decimal(
        (t.passed + t.failed) as nat,
    ) + " total"@
}

/// The summary line, and whether everything passed.
pub fn report(tally: &Tally) -> (r: (String, bool))
    ensures
        r.0@ == summary(*tally),
        r.1 == (tally.failed == 0),
{
    let mut line = String::from_str("Najm Kernel: SELF-TEST SUMMARY - ");
    push_decimal(&mut line, tally.passed as u64);
    line.append(" passed, ");
    push_decimal(&mut line, tally.failed as u64);
    line.append(" failed, ");
    push_decimal(&mut line, tally.passed as u64 + tally.failed as u64);
    line.append(" total");
    (line, tally.failed == 0)
}

/// The counts after many more checks.
pub open spec fn counted_all(t: Tally, outcomes: Seq<bool>) -> Tally
    decreases outcomes.len(),
{
    if outcomes.len() == 0 {
        t
    } else {
        counted(counted_all(t, outcomes.drop_last()), outcomes.last())
    }
}

/// A failure is never forgotten: however many checks follow, up to as many
/// as can be counted, the verdict stays bad.
pub proof fn law_failures_stay(t: Tally, outcomes: Seq<bool>)
    requires
        0 < t.failed,
        t.failed + outcomes.len() <= u32::MAX,
    ensures
        t.failed <= counted_all(t, outcomes).failed <= t.failed + outcomes.len(),
    decreases outcomes.len(),
{
    if outcomes.len() > 0 {
        law_failures_stay(t, outcomes.drop_last());
    }
}

/// A check is counted once, as passed or as failed, and its line says which
/// in the first seven characters and holds its name and the detail.
pub proof fn law_checks_are_counted(t: Tally, passed: bool, name: Seq<char>, detail: Seq<char>)
    requires
        t.passed < u32::MAX,
        t.failed < u32::MAX,
    ensures
        passed ==> counted(t, passed) == (Tally {
            passed: (t.passed + 1) as u32,
            failed: t.failed,
        }),
        !passed ==> counted(t, passed) == (Tally {
            passed: t.passed,
            failed: (t.failed + 1) as u32,
        }),
        ({
            let line = check_line(name, passed, detail);
            let mark = if passed {
                seq!['[', ' ', 'o', 'k', ' ', ']', ' ']
            } else {
                seq!['[', 'F', 'A', 'I', 'L', ']', ' ']
            };
            &&& line.len() >= 7 + name.len() + detail.len()
            &&& line.subrange(0, 7) == mark
            &&& line.subrange(7, 7 + name.len() as int) == name
            &&& line.subrange(line.len() - detail.len(), line.len() as int) == detail
        }),
{
    reveal_strlit("[ ok ] ");
    reveal_strlit("[FAIL] ");
    reveal_strlit(" - ");
    reveal_strlit(" - FAILURE: ");
    let line = check_line(name, passed, detail);
    let mark = if passed {
        seq!['[', ' ', 'o', 'k', ' ', ']', ' ']
    } else {
        seq!['[', 'F', 'A', 'I', 'L', ']', ' ']
    };
    assert(line.subrange(0, 7) =~= mark);
    assert(line.subrange(7, 7 + name.len() as int) =~= name);
    assert(line.subrange(line.len() - detail.len(), line.len() as int) =~= detail);
}

/// The summary says how many checks passed, how many failed, and how many
/// there were.
pub proof fn law_summary_counts_both(t: Tally)
    ensures
        text::says(
            summary(t),
            seq![
                text::decimal(t.passed as nat),
                text::decimal(t.failed as nat),
                text::decimal((t.passed + t.failed) as nat),
            ],
        ),
{
    let none = Seq::<Seq<char>>::empty();
    let start = "Najm Kernel: SELF-TEST SUMMARY - "@;
    text::lemma_says(start, none, text::decimal(t.passed as nat), " passed, "@);
    let line1 = start + text::decimal(t.passed as nat) + " passed, "@;
    let parts1 = none.push(text::decimal(t.passed as nat));
    text::lemma_says(line1, parts1, text::decimal(t.failed as nat), " failed, "@);
    let line2 = line1 + text::decimal(t.failed as nat) + " failed, "@;
    let parts2 = parts1.push(text::decimal(t.failed as nat));
    text::lemma_says(line2, parts2, text::decimal((t.passed + t.failed) as nat), " total"@);
    let line3 = line2 + text::decimal((t.passed + t.failed) as nat) + " total"@;
    let parts3 = parts2.push(text::decimal((t.passed + t.failed) as nat));
    assert(parts3 =~= seq![
        text::decimal(t.passed as nat),
        text::decimal(t.failed as nat),
        text::decimal((t.passed + t.failed) as nat),
    ]);
    assert(summary(t) =~= line3);
}

/// A comparison that fails says what was expected, and then what came.
pub proof fn law_comparison_says_both(actual: u64, expected: u64)
    requires
        actual != expected,
    ensures
        text::says(
            comparison(actual, expected),
            seq![
                text::decimal(expected as nat),
                text::decimal(actual as nat),
            ],
        ),
{
    let none = Seq::<Seq<char>>::empty();
    let start = "expected "@;
    text::lemma_says(start, none, text::decimal(expected as nat), ", got "@);
    let line1 = start + text::decimal(expected as nat) + ", got "@;
    let parts1 = none.push(text::decimal(expected as nat));
    text::lemma_says(line1, parts1, text::decimal(actual as nat), Seq::<char>::empty());
    let line2 = line1 + text::decimal(actual as nat) + Seq::<char>::empty();
    let parts2 = parts1.push(text::decimal(actual as nat));
    assert(parts2 =~= seq![text::decimal(expected as nat), text::decimal(actual as nat)]);
    assert(comparison(actual, expected) =~= line2);
}

} // verus!
