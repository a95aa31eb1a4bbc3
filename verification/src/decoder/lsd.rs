use crate::decoder::common::{byte, le_u16, packed_byte, parses_to, spec_u16_le};
use crate::gif::descriptor::LogicalScreenDescriptor;
use vstd::prelude::*;

verus! {

/// The logical screen descriptor: width and height of the canvas as
/// little-endian 16-bit numbers, the packed flags, the index of the
/// background color and the pixel aspect ratio.
pub open spec fn spec_logical_screen_descriptor(input: Seq<u8>) -> Option<
    (LogicalScreenDescriptor, nat),
> {
    if input.len() >= 7 {
        Some(
            (
                LogicalScreenDescriptor::spec_from_tuple(
                    (
                        spec_u16_le(input[0], input[1]),
                        spec_u16_le(input[2], input[3]),
                        input[4],
                        input[5],
                        input[6],
                    ),
                ),
                7,
            ),
        )
    } else {
        None
    }
}

/// Parses the logical screen descriptor.
pub fn logical_screen_descriptor(input: &[u8]) -> (r: Option<(&[u8], LogicalScreenDescriptor)>)
    ensures
        match r {
            Some((rest, lsd)) => parses_to(
                input@,
                spec_logical_screen_descriptor(input@),
                rest@,
                lsd,
            ),
            None => spec_logical_screen_descriptor(input@) is None,
        },
{
    let (rest, canvas_width) = le_u16(input)?;
    let (rest, canvas_height) = le_u16(rest)?;
    let (rest, packed) = packed_byte(rest)?;
    let (rest, background_color_idx) = byte(rest)?;
    let (rest, pixel_aspect_ratio) = byte(rest)?;
    assert(rest@ =~= input@.skip(7));
    Some(
        (
            rest,
            LogicalScreenDescriptor::from_tuple(
                (canvas_width, canvas_height, packed, background_color_idx, pixel_aspect_ratio),
            ),
        ),
    )
}

} // verus!
