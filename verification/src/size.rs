//! Byte counts and their human-readable rendering in binary units.

use vstd::prelude::*;
use vstd::string::StringExecFns;

use crate::text::decimal;
use crate::text::decimal_text;
use crate::text::digit_char;
use crate::text::digit_text;

verus! {

pub const KIBIBYTE: u64 = 1024;

pub const MEBIBYTE: u64 = 1_048_576;

pub const GIBIBYTE: u64 = 1_073_741_824;

pub const TEBIBYTE: u64 = 1_099_511_627_776;

pub const PEBIBYTE: u64 = 1_125_899_906_842_624;

pub const EXBIBYTE: u64 = 1_152_921_504_606_846_976;

/// The first count that a double-precision number no longer holds exactly in
/// every case: two to the power of 53.
pub const SIGNIFICAND_LIMIT: u64 = 9_007_199_254_740_992;

/// The index of the largest unit in which `bytes` amounts to at least one:
/// 0 for B, then KiB, MiB, GiB, TiB, PiB, and 6 for EiB.
pub open spec fn unit_index(bytes: nat) -> nat {
    if bytes < KIBIBYTE {
        0
    } else if bytes < MEBIBYTE {
        1
    } else if bytes < GIBIBYTE {
        2
    } else if bytes < TEBIBYTE {
        3
    } else if bytes < PEBIBYTE {
        4
    } else if bytes < EXBIBYTE {
        5
    } else {
        6
    }
}

/// How many bytes make one of the unit with the given index: 1024 to the
/// power of the index.
pub open spec fn unit_bytes(index: nat) -> nat
    decreases index,
{
    if index == 0 {
        1
    } else {
        1024 * unit_bytes((index - 1) as nat)
    }
}

/// The symbol of the unit with the given index.
pub open spec fn unit_symbol(index: nat) -> Seq<char> {
    if index == 0 {
        "B"@
    } else if index == 1 {
        "KiB"@
    } else if index == 2 {
        "MiB"@
    } else if index == 3 {
        "GiB"@
    } else if index == 4 {
        "TiB"@
    } else if index == 5 {
        "PiB"@
    } else {
        "EiB"@
    }
}

/// `numerator / denominator` rounded to the nearest whole number, a tie going
/// to the even one.
pub open spec fn round_half_even(numerator: nat, denominator: nat) -> nat {
    let quotient = numerator / denominator;
    let rest = numerator % denominator;
    if 2 * rest > denominator || (2 * rest == denominator && quotient % 2 == 1) {
        quotient + 1
    } else {
        quotient
    }
}

/// The spacing of the double-precision numbers around `n`: 1 below two to the
/// power of 53, and twice as much each time `n` doubles from there.
pub open spec fn double_spacing(n: nat) -> nat
    decreases n,
{
    if n < SIGNIFICAND_LIMIT {
        1
    } else {
        2 * double_spacing(n / 2)
    }
}

/// The double-precision number nearest to `n`, a tie going to the one whose
/// significand is even. It is `n` itself below two to the power of 53.
pub open spec fn nearest_double(n: nat) -> nat {
    round_half_even(n, double_spacing(n)) * double_spacing(n)
}

/// `bytes` in tenths of its unit: the count as a double-precision number,
/// divided by the unit and rounded to one decimal place, a tie going to the
/// even digit.
pub open spec fn tenths(bytes: nat) -> nat {
    round_half_even(10 * nearest_double(bytes), unit_bytes(unit_index(bytes)))
}

/// The text that renders `bytes`: the whole part, a point, exactly one
/// decimal digit, and the unit's symbol.
pub open spec fn rendering(bytes: nat) -> Seq<char> {
    decimal(tenths(bytes) / 10) + seq!['.', digit_char(tenths(bytes) % 10)] + unit_symbol(
        unit_index(bytes),
    )
}

/// The unit of a count is the largest in which it amounts to at least one:
/// a count of one or more is no less than one of its unit, and less than
/// 1024 of it unless the unit is the largest there is. So the unit changes
/// at exactly 1024 of the unit before.
pub proof fn lemma_unit_is_the_largest_that_fits(bytes: nat)
    ensures
        unit_index(bytes) <= 6,
        bytes >= 1 ==> unit_bytes(unit_index(bytes)) <= bytes,
        unit_index(bytes) < 6 ==> bytes < 1024 * unit_bytes(unit_index(bytes)),
{
    reveal_with_fuel(unit_bytes, 7);
}

/// A non-negative number of bytes.
#[derive(Debug)]
pub struct FileSize {
    bytes: u64,
}

impl View for FileSize {
    type V = nat;

    closed spec fn view(&self) -> nat {
        self.bytes as nat
    }
}

impl DeepView for FileSize {
    type V = nat;

    open spec fn deep_view(&self) -> nat {
        self@
    }
}

/// The index of the unit of `bytes`, and the bytes that make one of it.
fn unit_of(bytes: u64) -> (unit: (u8, u64))
    ensures
        unit.0 == unit_index(bytes as nat),
        unit.1 == unit_bytes(unit_index(bytes as nat)),
        unit.1 >= 1,
{
    reveal_with_fuel(unit_bytes, 7);
    if bytes < KIBIBYTE {
        (0, 1)
    } else if bytes < MEBIBYTE {
        (1, KIBIBYTE)
    } else if bytes < GIBIBYTE {
        (2, MEBIBYTE)
    } else if bytes < TEBIBYTE {
        (3, GIBIBYTE)
    } else if bytes < PEBIBYTE {
        (4, TEBIBYTE)
    } else if bytes < EXBIBYTE {
        (5, PEBIBYTE)
    } else {
        (6, EXBIBYTE)
    }
}

/// The symbol of the unit with the given index.
fn symbol_of(index: u8) -> (symbol: &'static str)
    ensures
        symbol@ == unit_symbol(index as nat),
{
    if index == 0 {
        "B"
    } else if index == 1 {
        "KiB"
    } else if index == 2 {
        "MiB"
    } else if index == 3 {
        "GiB"
    } else if index == 4 {
        "TiB"
    } else if index == 5 {
        "PiB"
    } else {
        "EiB"
    }
}

/// Divides and rounds to the nearest whole number, a tie going to the even
/// one.
fn divide_half_even(numerator: u128, denominator: u128) -> (rounded: u128)
    requires
        denominator > 0,
        numerator < u128::MAX,
        denominator <= u64::MAX,
    ensures
        rounded == round_half_even(numerator as nat, denominator as nat),
{
    let quotient: u128 = numerator / denominator;
    let rest: u128 = numerator % denominator;
    if 2 * rest > denominator || (2 * rest == denominator && quotient % 2 == 1) {
        quotient + 1
    } else {
        quotient
    }
}

/// The spacing of the double-precision numbers around `n`.
fn spacing_of(n: u64) -> (spacing: u64)
    ensures
        spacing == double_spacing(n as nat),
        1 <= spacing < 4096,
{
    let mut spacing: u64 = 1;
    let mut scaled: u64 = n;
    while scaled >= SIGNIFICAND_LIMIT
        invariant
            1 <= spacing,
            spacing * scaled <= n,
            spacing == 1 || scaled >= 4_503_599_627_370_496,
            double_spacing(n as nat) == spacing * double_spacing(scaled as nat),
        decreases scaled,
    {
        assert(spacing < 2048) by (nonlinear_arith)
            requires
                spacing * scaled <= n,
                scaled >= 9_007_199_254_740_992,
                n <= 0xffff_ffff_ffff_ffff,
        ;
        assert((2 * spacing) * (scaled / 2) <= spacing * scaled) by (nonlinear_arith)
            requires
                spacing >= 1,
        ;
        assert(spacing * (2 * double_spacing((scaled / 2) as nat)) == (2 * spacing)
            * double_spacing((scaled / 2) as nat)) by (nonlinear_arith);
        spacing = 2 * spacing;
        scaled = scaled / 2;
    }
    assert(spacing < 4096) by (nonlinear_arith)
        requires
            spacing * scaled <= n,
            spacing == 1 || scaled >= 4_503_599_627_370_496,
            n <= 0xffff_ffff_ffff_ffff,
    ;
    assert(double_spacing(scaled as nat) == 1);
    assert(spacing * 1 == spacing);
    spacing
}

/// The double-precision number nearest to `n`.
fn double_of(n: u64) -> (double: u128)
    ensures
        double == nearest_double(n as nat),
        double <= 0x2_0000_0000_0000_0000,
{
    let spacing = spacing_of(n);
    let steps = divide_half_even(n as u128, spacing as u128);
    assert(steps * spacing <= 0x2_0000_0000_0000_0000) by (nonlinear_arith)
        requires
            steps <= n / (spacing as u64) + 1,
            1 <= spacing < 4096,
            n <= 0xffff_ffff_ffff_ffff,
    ;
    steps * (spacing as u128)
}

impl FileSize {
    /// Wraps a byte count.
    pub fn new(bytes: u64) -> (size: FileSize)
        ensures
            size@ == bytes,
    {
        FileSize { bytes }
    }

    /// The wrapped byte count.
    pub fn bytes(&self) -> (bytes: u64)
        ensures
            bytes == self@,
    {
        self.bytes
    }

    /// Renders the count in the largest binary unit in which it amounts to at
    /// least one, with exactly one decimal digit: `1.0KiB` for 1024.
    pub fn human_readable_output(&self) -> (text: String)
        ensures
            text@ == rendering(self@),
    {
        let (index, unit) = unit_of(self.bytes);
        let scaled = divide_half_even(10 * double_of(self.bytes), unit as u128);
        let mut text = decimal_text(scaled / 10);
        proof {
            reveal_strlit(".");
        }
        text.append(".");
        text.append(digit_text(scaled % 10));
        text.append(symbol_of(index));
        assert(text@ =~= rendering(self@));
        text
    }

    /// The rendering of `human_readable_output`.
    pub fn to_string(&self) -> (text: String)
        ensures
            text@ == rendering(self@),
    {
        self.human_readable_output()
    }
}

} // verus!
