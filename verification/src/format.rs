//! Number formatting: decimal and fixed-width hexadecimal digits, and the
//! `m:ss` clock shown for track lengths.

use vstd::prelude::*;

verus! {

pub open spec fn digit_char(d: nat) -> char {
    if d < 10 {
        ((d + 48) as u8) as char
    } else {
        ((d + 87) as u8) as char
    }
}

/// `n` in decimal, without leading zeros (`0` for zero), as `{}` prints it.
pub open spec fn decimal(n: nat) -> Seq<char>
    decreases n,
{
    if n < 10 {
        seq![digit_char(n)]
    } else {
        decimal(n / 10).push(digit_char(n % 10))
    }
}

/// The last `width` hexadecimal digits of `n`, lower case, zero-padded, as
/// `{:0width$x}` prints a number below `16^width`.
pub open spec fn hex_fixed(n: nat, width: nat) -> Seq<char>
    decreases width,
{
    if width == 0 {
        seq![]
    } else {
        hex_fixed(n / 16, (width - 1) as nat).push(digit_char(n % 16))
    }
}

fn digit(d: u64) -> (c: char)
    requires
        d < 16,
    ensures
        c == digit_char(d as nat),
{
    if d < 10 {
        ((d + 48) as u8) as char
    } else {
        ((d + 87) as u8) as char
    }
}

pub fn decimal_chars(n: u64) -> (r: Vec<char>)
    ensures
        r@ == decimal(n as nat),
    decreases n,
{
    if n < 10 {
        let mut v = Vec::new();
        v.push(digit(n));
        v
    } else {
        let mut v = decimal_chars(n / 10);
        v.push(digit(n % 10));
        v
    }
}

pub fn hex_chars(n: u64, width: usize) -> (r: Vec<char>)
    ensures
        r@ == hex_fixed(n as nat, width as nat),
    decreases width,
{
    if width == 0 {
        Vec::new()
    } else {
        let mut v = hex_chars(n / 16, width - 1);
        v.push(digit(n % 16));
        v
    }
}

/// A track length of `secs` seconds as `m:ss`: whole minutes, a colon, and
/// the remaining seconds on two digits.
pub open spec fn clock_text(secs: nat) -> Seq<char> {
    let m = secs / 60;
    let s = secs % 60;
    decimal(m) + seq![':'] + (if s < 10 {
        seq!['0']
    } else {
        seq![]
    }) + decimal(s)
}

/// Formats a length in whole seconds as `m:ss` (see `clock_text`).
pub fn format_clock(secs: u64) -> (r: String)
    ensures
        r@ == clock_text(secs as nat),
{
    let m = secs / 60;
    let s = secs % 60;
    let mut out: Vec<char> = decimal_chars(m);
    out.push(':');
    if s < 10 {
        out.push('0');
    }
    let ds = decimal_chars(s);
    let ghost before = out@;
    let mut i: usize = 0;
    while i < ds.len()
        invariant
            i <= ds@.len(),
            out@ == before + ds@.take(i as int),
        decreases ds@.len() - i,
    {
        out.push(ds[i]);
        assert(ds@.take(i + 1) =~= ds@.take(i as int).push(ds@[i as int]));
        i = i + 1;
    }
    assert(ds@.take(ds@.len() as int) =~= ds@);
    crate::text::string_of(out.as_slice())
}

/// Two digits are used for the seconds, and the minutes are written out in
/// full: `m:ss` always ends in a colon and two digits.
pub proof fn law_clock_shape(secs: nat)
    ensures
        clock_text(secs).len() >= 4,
        clock_text(secs)[clock_text(secs).len() - 3] == ':',
{
    let s = secs % 60;
    lemma_decimal_len(secs / 60);
    if s < 10 {
        assert(decimal(s) == seq![digit_char(s)]);
    } else {
        assert(decimal(s) == decimal(s / 10).push(digit_char(s % 10)));
        assert(s / 10 < 10);
        assert(decimal(s / 10) == seq![digit_char(s / 10)]);
    }
}

proof fn lemma_decimal_len(n: nat)
    ensures
        decimal(n).len() >= 1,
    decreases n,
{
    if n >= 10 {
        lemma_decimal_len(n / 10);
    }
}

} // verus!
