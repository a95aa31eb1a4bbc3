//! The leaf parsers, and how the contracts of all parsers are phrased.
//!
//! A parser takes the input that is left and returns, when it matches, the
//! input that follows the match together with the parsed value. Its
//! specification is a function from the input, as a sequence of bytes, to the
//! value and the number of bytes that the match consumes.

use nom::Parser;
use vstd::prelude::*;

verus! {

/// The parser that `expected` describes has matched on `input`, with the value
/// `value`, and has left `rest`.
pub open spec fn parses_to<T>(
    input: Seq<u8>,
    expected: Option<(T, nat)>,
    rest: Seq<u8>,
    value: T,
) -> bool {
    &&& expected matches Some((v, n))
    &&& v == value
    &&& n <= input.len()
    &&& rest == input.skip(n as int)
}

/// `input` begins with `pattern`.
pub open spec fn starts_with(input: Seq<u8>, pattern: Seq<u8>) -> bool {
    pattern.len() <= input.len() && input.take(pattern.len() as int) == pattern
}

/// What a repetition yields once `head` has been read from `consumed` bytes
/// and `tail` is what the items that follow are parsed to.
pub open spec fn spec_prepend<T>(
    head: Seq<T>,
    consumed: nat,
    tail: Option<(Seq<T>, nat)>,
) -> Option<(Seq<T>, nat)> {
    match tail {
        Some((items, n)) => Some((head + items, consumed + n)),
        None => None,
    }
}

/// Skipping `a` bytes and then `b` more skips `a + b` bytes.
pub proof fn lemma_skip_skip(input: Seq<u8>, a: nat, b: nat)
    requires
        a + b <= input.len(),
    ensures
        input.skip(a as int).skip(b as int) == input.skip((a + b) as int),
{
    assert(input.skip(a as int).skip(b as int) =~= input.skip((a + b) as int));
}

/// The first byte of the input.
pub open spec fn spec_byte(input: Seq<u8>) -> Option<(u8, nat)> {
    if input.len() >= 1 {
        Some((input[0], 1))
    } else {
        None
    }
}

/// The 16-bit number whose low byte is `low` and whose high byte is `high`.
pub open spec fn spec_u16_le(low: u8, high: u8) -> u16 {
    (low as int + 256 * (high as int)) as u16
}

/// The first two bytes of the input, read as a little-endian number.
pub open spec fn spec_le_u16(input: Seq<u8>) -> Option<(u16, nat)> {
    if input.len() >= 2 {
        Some((spec_u16_le(input[0], input[1]), 2))
    } else {
        None
    }
}

/// Reads one byte with `nom::number::u8`. The contract claims that nom
/// returns the first byte and the input after it, and fails only on empty
/// input.
#[verifier::external_body]
pub fn byte(input: &[u8]) -> (r: Option<(&[u8], u8)>)
    ensures
        match r {
            Some((rest, value)) => parses_to(input@, spec_byte(input@), rest@, value),
            None => spec_byte(input@) is None,
        },
{
    nom::number::u8::<&[u8], nom::error::Error<&[u8]>>().parse(input).ok()
}

/// Reads a byte that packs several fields.
pub fn packed_byte(input: &[u8]) -> (r: Option<(&[u8], u8)>)
    ensures
        match r {
            Some((rest, value)) => parses_to(input@, spec_byte(input@), rest@, value),
            None => spec_byte(input@) is None,
        },
{
    byte(input)
}

/// Reads two bytes with `nom::number::le_u16`. The contract claims that nom
/// returns the first byte plus 256 times the second and the input after
/// them, and fails only where fewer than two bytes are left.
#[verifier::external_body]
pub(crate) fn le_u16(input: &[u8]) -> (r: Option<(&[u8], u16)>)
    ensures
        match r {
            Some((rest, value)) => parses_to(input@, spec_le_u16(input@), rest@, value),
            None => spec_le_u16(input@) is None,
        },
{
    nom::number::le_u16::<&[u8], nom::error::Error<&[u8]>>().parse(input).ok()
}

/// Matches a fixed byte string with `nom::bytes::complete::tag`. The
/// contract claims that nom succeeds exactly where the input begins with
/// `pattern`, and then returns the input after it.
#[verifier::external_body]
pub(crate) fn tag<'a>(pattern: &[u8], input: &'a [u8]) -> (r: Option<&'a [u8]>)
    ensures
        match r {
            Some(rest) => starts_with(input@, pattern@) && rest@ == input@.skip(
                pattern@.len() as int,
            ),
            None => !starts_with(input@, pattern@),
        },
{
    match nom::bytes::complete::tag::<&[u8], &[u8], nom::error::Error<&[u8]>>(pattern)(input) {
        Ok((rest, _)) => Some(rest),
        Err(_) => None,
    }
}

/// Splits off the first `count` bytes with `nom::bytes::complete::take`. The
/// contract claims that nom succeeds exactly where at least `count` bytes
/// are left, and then returns the input after them and those bytes.
#[verifier::external_body]
pub(crate) fn take(count: usize, input: &[u8]) -> (r: Option<(&[u8], &[u8])>)
    ensures
        match r {
            Some((rest, taken)) => count <= input@.len() && taken@ == input@.take(count as int)
                && rest@ == input@.skip(count as int),
            None => count > input@.len(),
        },
{
    nom::bytes::complete::take::<usize, &[u8], nom::error::Error<&[u8]>>(count)(input).ok()
}

/// Matches the single byte `expected`.
pub fn constant(expected: u8, input: &[u8]) -> (r: Option<&[u8]>)
    ensures
        match r {
            Some(rest) => input@.len() >= 1 && input@[0] == expected && rest@ == input@.skip(1),
            None => input@.len() == 0 || input@[0] != expected,
        },
{
    let pattern: [u8; 1] = [expected];
    let r = tag(pattern.as_slice(), input);
    proof {
        assert(pattern@ =~= seq![expected]);
        if input@.len() >= 1 {
            assert(input@.take(1) =~= seq![input@[0]]);
            assert(seq![input@[0]][0] == input@[0]);
        }
    }
    r
}

} // verus!
