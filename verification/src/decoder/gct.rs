use crate::decoder::common::{byte, parses_to};
use crate::gif::table::{ColorTable, GlobalColorTable, LocalColorTable};
use crate::gif::Color;
use vstd::prelude::*;

verus! {

/// One color: its red, green and blue bytes.
pub open spec fn spec_color(input: Seq<u8>) -> Option<(Color, nat)> {
    if input.len() >= 3 {
        Some((Color { r: input[0], g: input[1], b: input[2] }, 3))
    } else {
        None
    }
}

/// A color table of `len` entries: `len` colors, one after the other.
pub open spec fn spec_color_table(input: Seq<u8>, len: nat) -> Option<(Seq<Color>, nat)> {
    if input.len() >= 3 * len {
        Some(
            (
                Seq::new(
                    len,
                    |i: int| Color { r: input[3 * i], g: input[3 * i + 1], b: input[3 * i + 2] },
                ),
                3 * len,
            ),
        )
    } else {
        None
    }
}

/// A color table that is there only where `present` says so.
pub open spec fn spec_optional_color_table(input: Seq<u8>, present: bool, len: nat) -> Option<
    (Option<Seq<Color>>, nat),
> {
    if present {
        match spec_color_table(input, len) {
            Some((table, n)) => Some((Some(table), n)),
            None => None,
        }
    } else {
        Some((None, 0))
    }
}

fn color_table(input: &[u8], len: usize) -> (r: Option<(&[u8], ColorTable)>)
    ensures
        match r {
            Some((rest, table)) => parses_to(
                input@,
                spec_color_table(input@, len as nat),
                rest@,
                table@,
            ),
            None => spec_color_table(input@, len as nat) is None,
        },
{
    let mut colors: Vec<Color> = Vec::new();
    let mut rest = input;
    let mut count: usize = 0;
    while count < len
        invariant
            count <= len,
            colors@.len() == count,
            3 * count <= input@.len(),
            rest@ == input@.skip(3 * count),
            forall|i: int|
                0 <= i < count ==> colors@[i] == (Color {
                    r: input@[3 * i],
                    g: input@[3 * i + 1],
                    b: input@[3 * i + 2],
                }),
        decreases len - count,
    {
        match color(rest) {
            None => {
                return None;
            },
            Some((after, c)) => {
                assert(after@ =~= input@.skip(3 * (count + 1)));
                colors.push(c);
                rest = after;
                count = count + 1;
            },
        }
    }
    assert(colors@ =~= spec_color_table(input@, len as nat).unwrap().0);
    Some((rest, ColorTable::new(colors)))
}

/// Parses a global color table of `len` entries.
pub fn global_color_table(input: &[u8], len: usize) -> (r: Option<(&[u8], GlobalColorTable)>)
    ensures
        match r {
            Some((rest, table)) => parses_to(
                input@,
                spec_color_table(input@, len as nat),
                rest@,
                table@,
            ),
            None => spec_color_table(input@, len as nat) is None,
        },
{
    color_table(input, len)
}

/// Parses a local color table of `len` entries.
pub fn local_color_table(input: &[u8], len: usize) -> (r: Option<(&[u8], LocalColorTable)>)
    ensures
        match r {
            Some((rest, table)) => parses_to(
                input@,
                spec_color_table(input@, len as nat),
                rest@,
                table@,
            ),
            None => spec_color_table(input@, len as nat) is None,
        },
{
    color_table(input, len)
}

/// Parses one color.
pub fn color(input: &[u8]) -> (r: Option<(&[u8], Color)>)
    ensures
        match r {
            Some((rest, c)) => parses_to(input@, spec_color(input@), rest@, c),
            None => spec_color(input@) is None,
        },
{
    let (rest, r) = byte(input)?;
    let (rest, g) = byte(rest)?;
    let (rest, b) = byte(rest)?;
    assert(rest@ =~= input@.skip(3));
    Some((rest, Color::from_triple((r, g, b))))
}

} // verus!
