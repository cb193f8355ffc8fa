//! The report: one line for each station, `name=min/mean/max`.

use crate::parse::{NEWLINE, POINT, ZERO};
use crate::table::{pairs_of, StationMeasurements};
use vstd::prelude::*;

verus! {

pub const EQUALS: u8 = 61;

pub const SLASH: u8 = 47;

pub const LETTER_M: u8 = 109;

pub const LETTER_S: u8 = 115;

/// The three figures of one station as they are to be written: its minimum,
/// its mean and its maximum.
#[derive(Debug)]
pub struct Figures {
    pub min: Vec<u8>,
    pub mean: Vec<u8>,
    pub max: Vec<u8>,
}

/// A number in decimal digits, without leading zeros.
pub open spec fn decimal_digits(n: nat) -> Seq<u8>
    decreases n,
{
    if n < 10 {
        seq![(ZERO + n) as u8]
    } else {
        decimal_digits(n / 10).push((ZERO + n % 10) as u8)
    }
}

/// The report's line for one station, with its line terminator.
pub open spec fn line_text(name: Seq<u8>, figures: Figures) -> Seq<u8> {
    name + seq![EQUALS] + figures.min@ + seq![SLASH] + figures.mean@ + seq![SLASH] + figures.max@
        + seq![NEWLINE]
}

/// The lines of all entries, one after the other, each with the figures of
/// its slot.
pub open spec fn report_text(list: Seq<(Seq<u8>, nat)>, figures: Seq<Figures>) -> Seq<u8>
    decreases list.len(),
{
    if list.len() == 0 {
        Seq::<u8>::empty()
    } else {
        report_text(list.drop_last(), figures) + line_text(
            list.last().0,
            figures[list.last().1 as int],
        )
    }
}

/// An elapsed time as minutes, seconds and milliseconds: `2m5.17s` for 125
/// seconds and 17 milliseconds. The milliseconds are not padded.
pub open spec fn elapsed_spec(seconds: nat, milliseconds: nat) -> Seq<u8> {
    decimal_digits(seconds / 60) + seq![LETTER_M] + decimal_digits(seconds % 60) + seq![POINT]
        + decimal_digits(milliseconds) + seq![LETTER_S]
}

/// Appends a number in decimal digits.
pub fn push_decimal(out: &mut Vec<u8>, n: u64)
    ensures
        final(out)@ == old(out)@ + decimal_digits(n as nat),
    decreases n,
{
    if n >= 10 {
        push_decimal(out, n / 10);
    }
    out.push(ZERO + (n % 10) as u8);
    assert(final(out)@ =~= old(out)@ + decimal_digits(n as nat));
}

/// Appends the bytes of a slice.
pub fn push_bytes(out: &mut Vec<u8>, bytes: &[u8])
    ensures
        final(out)@ == old(out)@ + bytes@,
{
    let mut i: usize = 0;
    while i < bytes.len()
        invariant
            i <= bytes@.len(),
            out@ == old(out)@ + bytes@.take(i as int),
        decreases bytes@.len() - i,
    {
        out.push(bytes[i]);
        i = i + 1;
        assert(out@ =~= old(out)@ + bytes@.take(i as int));
    }
    assert(bytes@.take(i as int) =~= bytes@);
}

/// Appends the report's line for one station.
pub fn write_line(name: &[u8], figures: &Figures, output: &mut Vec<u8>)
    ensures
        final(output)@ == old(output)@ + line_text(name@, *figures),
{
    push_bytes(output, name);
    output.push(EQUALS);
    push_bytes(output, figures.min.as_slice());
    output.push(SLASH);
    push_bytes(output, figures.mean.as_slice());
    output.push(SLASH);
    push_bytes(output, figures.max.as_slice());
    output.push(NEWLINE);
    assert(final(output)@ =~= old(output)@ + line_text(name@, *figures));
}

/// Appends the report of the given entries, in their order, each with the
/// figures of its slot.
pub fn write_results(
    sorted_results: &[&StationMeasurements],
    figures: &[Figures],
    output: &mut Vec<u8>,
)
    requires
        forall|i: int|
            0 <= i < sorted_results@.len() ==> (#[trigger] sorted_results@[i]).slot
                < figures@.len(),
    ensures
        final(output)@ == old(output)@ + report_text(pairs_of(sorted_results@), figures@),
{
    let ghost list = pairs_of(sorted_results@);
    let mut i: usize = 0;
    assert(output@ =~= old(output)@ + report_text(list.take(0), figures@));
    while i < sorted_results.len()
        invariant
            i <= sorted_results@.len(),
            list == pairs_of(sorted_results@),
            forall|j: int|
                0 <= j < sorted_results@.len() ==> (#[trigger] sorted_results@[j]).slot
                    < figures@.len(),
            output@ == old(output)@ + report_text(list.take(i as int), figures@),
        decreases sorted_results@.len() - i,
    {
        let entry = sorted_results[i];
        write_line(entry.name.as_slice(), &figures[entry.slot], output);
        proof {
            let longer = list.take(i + 1);
            assert(longer.drop_last() =~= list.take(i as int));
            assert(longer.last() == list[i as int]);
            assert(output@ =~= old(output)@ + report_text(longer, figures@));
        }
        i = i + 1;
    }
    assert(list.take(i as int) =~= list);
}

/// An elapsed time as text, from its whole seconds and the milliseconds
/// beyond them.
pub fn elapsed_text(seconds: u64, milliseconds: u32) -> (out: Vec<u8>)
    ensures
        out@ == elapsed_spec(seconds as nat, milliseconds as nat),
{
    let mut out: Vec<u8> = Vec::new();
    push_decimal(&mut out, seconds / 60);
    out.push(LETTER_M);
    push_decimal(&mut out, seconds % 60);
    out.push(POINT);
    push_decimal(&mut out, milliseconds as u64);
    out.push(LETTER_S);
    assert(out@ =~= elapsed_spec(seconds as nat, milliseconds as nat));
    out
}

} // verus!
