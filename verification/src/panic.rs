//! The report printed to the standard error when a thread panics.

use vstd::prelude::*;
use vstd::string::StringSliceAdditionalSpecFns;

verus! {

/// Text before the location: switches the terminal to white on red.
pub const REPORT_START: &'static str = "\x1b[101;37mThread panicked at ";
/// Text between the location and the message.
pub const REPORT_MIDDLE: &'static str = ":\n";
/// Text after the message: restores the terminal colors.
pub const REPORT_END: &'static str = "\x1b[0m";
/// File name reported when the panic has no location.
pub const UNKNOWN_FILE: &'static str = "???";

/// The decimal digits of `n`, most significant first, as ASCII bytes.
pub open spec fn decimal(n: nat) -> Seq<u8>
    decreases n,
{
    if n < 10 {
        seq![(48 + n) as u8]
    } else {
        decimal(n / 10).push((48 + n % 10) as u8)
    }
}

/// The report for a panic at `file`, `line`, `column` with `message`:
/// `Thread panicked at FILE:LINE:COLUMN:` and the message on the next line,
/// in white on red, then a line break.
pub open spec fn report_bytes(file: Seq<u8>, line: nat, column: nat, message: Seq<u8>) -> Seq<u8> {
    REPORT_START.spec_bytes() + file + seq![58u8] + decimal(line) + seq![58u8] + decimal(column)
        + REPORT_MIDDLE.spec_bytes() + message + REPORT_END.spec_bytes() + seq![10u8]
}

/// Appends the decimal digits of `n`.
fn push_decimal(out: &mut Vec<u8>, n: u32)
    ensures
        final(out)@ == old(out)@ + decimal(n as nat),
    decreases n,
{
    if n >= 10 {
        push_decimal(out, n / 10);
    }
    let digit: u8 = (n % 10) as u8;
    out.push(48u8 + digit);
    proof {
        if n < 10 {
            assert(decimal(n as nat) == seq![(48 + n) as u8]);
        } else {
            assert(decimal(n as nat) == decimal((n / 10) as nat).push((48 + n % 10) as u8));
        }
    }
}

/// Appends the bytes of `s`.
fn push_str(out: &mut Vec<u8>, s: &str)
    ensures
        final(out)@ == old(out)@ + s.spec_bytes(),
{
    out.extend_from_slice(s.as_bytes());
}

/// Where a panic is reported to have happened: its location, or `???` at
/// line 0, column 0 when it has none.
pub fn panic_location<'a>(location: Option<(&'a str, u32, u32)>) -> (r: (&'a str, u32, u32))
    ensures
        r == (match location {
            Some(l) => l,
            None => (UNKNOWN_FILE, 0u32, 0u32),
        }),
{
    match location {
        Some(l) => l,
        None => (UNKNOWN_FILE, 0, 0),
    }
}

/// The bytes written to the standard error for a panic.
pub fn panic_report(file: &str, line: u32, column: u32, message: &str) -> (r: Vec<u8>)
    ensures
        r@ == report_bytes(file.spec_bytes(), line as nat, column as nat, message.spec_bytes()),
{
    let mut out: Vec<u8> = Vec::new();
    push_str(&mut out, REPORT_START);
    push_str(&mut out, file);
    out.push(58u8);
    push_decimal(&mut out, line);
    out.push(58u8);
    push_decimal(&mut out, column);
    push_str(&mut out, REPORT_MIDDLE);
    push_str(&mut out, message);
    push_str(&mut out, REPORT_END);
    out.push(10u8);
    proof {
        let s = report_bytes(file.spec_bytes(), line as nat, column as nat, message.spec_bytes());
        assert(out@ =~= s);
    }
    out
}

} // verus!
