use crate::decoder::common::{constant, le_u16, packed_byte, parses_to, spec_u16_le};
use crate::gif::descriptor::ImageDescriptor;
use vstd::prelude::*;

verus! {

/// The byte that introduces an image descriptor.
pub const IMAGE_SEPARATOR: u8 = 0x2C;

/// An image descriptor: the separator, four little-endian 16-bit numbers
/// (left, top, width, height) and the packed byte.
pub open spec fn spec_image_descriptor(input: Seq<u8>) -> Option<(ImageDescriptor, nat)> {
    if input.len() >= 10 && input[0] == IMAGE_SEPARATOR {
        Some(
            (
                ImageDescriptor {
                    left: spec_u16_le(input[1], input[2]),
                    top: spec_u16_le(input[3], input[4]),
                    width: spec_u16_le(input[5], input[6]),
                    height: spec_u16_le(input[7], input[8]),
                    packed_byte: input[9],
                },
                10,
            ),
        )
    } else {
        None
    }
}

/// Parses an image descriptor.
pub fn image_descriptor(input: &[u8]) -> (r: Option<(&[u8], ImageDescriptor)>)
    ensures
        match r {
            Some((rest, descriptor)) => parses_to(
                input@,
                spec_image_descriptor(input@),
                rest@,
                descriptor,
            ),
            None => spec_image_descriptor(input@) is None,
        },
{
    let rest = constant(IMAGE_SEPARATOR, input)?;
    let (rest, left) = le_u16(rest)?;
    let (rest, top) = le_u16(rest)?;
    let (rest, width) = le_u16(rest)?;
    let (rest, height) = le_u16(rest)?;
    let (rest, packed) = packed_byte(rest)?;
    assert(rest@ =~= input@.skip(10));
    Some((rest, ImageDescriptor::from_tuple((left, top, width, height, packed))))
}

} // verus!
