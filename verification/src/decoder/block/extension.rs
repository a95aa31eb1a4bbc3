use super::{block_len, spec_sub_blocks, sub_blocks, BLOCK_TERMINATOR};
use crate::decoder::common::{
    byte, constant, le_u16, lemma_skip_skip, packed_byte, parses_to, spec_u16_le, starts_with,
    tag, take,
};
use crate::gif::extension::{
    ApplicationExtension, ApplicationExtensionView, CommentExtension, GraphicControlExtension,
    NetScapeExtension, PlainTextExtension,
};
use vstd::prelude::*;

verus! {

/// The byte that introduces every extension.
pub const EXTENSION_INTRODUCER: u8 = 0x21;

pub const GRAPHIC_CONTROL_LABEL: u8 = 0xF9;

pub const PLAIN_TEXT_LABEL: u8 = 0x01;

pub const APPLICATION_EXTENSION_LABEL: u8 = 0xFF;

pub const COMMENT_EXTENSION_LABEL: u8 = 0xFE;

/// The length byte that precedes the identifier of an application.
pub const APPLICATION_IDENTIFIER_LEN: u8 = 0x0B;

/// A graphic control extension: introducer and label, then the block size,
/// the packed field, the delay time as a little-endian 16-bit number and
/// the transparent color index, then the terminator.
pub open spec fn spec_graphic_control_extension(input: Seq<u8>) -> Option<
    (GraphicControlExtension, nat),
> {
    if input.len() >= 8 && input[0] == EXTENSION_INTRODUCER && input[1] == GRAPHIC_CONTROL_LABEL
        && input[7] == BLOCK_TERMINATOR {
        Some(
            (
                GraphicControlExtension {
                    block_size: input[2],
                    packed_field: input[3],
                    delay_time: spec_u16_le(input[4], input[5]),
                    transparent_color_idx: input[6],
                },
                8,
            ),
        )
    } else {
        None
    }
}

/// Parses a graphic control extension.
pub fn graphic_control_extension(input: &[u8]) -> (r: Option<(&[u8], GraphicControlExtension)>)
    ensures
        match r {
            Some((rest, gce)) => parses_to(
                input@,
                spec_graphic_control_extension(input@),
                rest@,
                gce,
            ),
            None => spec_graphic_control_extension(input@) is None,
        },
{
    let rest = constant(EXTENSION_INTRODUCER, input)?;
    let rest = constant(GRAPHIC_CONTROL_LABEL, rest)?;
    let (rest, block_size) = byte(rest)?;
    let (rest, packed_field) = packed_byte(rest)?;
    let (rest, delay_time) = le_u16(rest)?;
    let (rest, transparent_color_idx) = byte(rest)?;
    let rest = constant(BLOCK_TERMINATOR, rest)?;
    assert(rest@ =~= input@.skip(8));
    Some(
        (
            rest,
            GraphicControlExtension::from_tuple(
                (block_size, packed_field, delay_time, transparent_color_idx),
            ),
        ),
    )
}

/// A plain-text extension: introducer and label, a length byte and as many
/// bytes of text-grid header as it says, then a chain of sub-blocks. None of
/// the payload is kept.
pub open spec fn spec_plain_text_extension(input: Seq<u8>) -> Option<(PlainTextExtension, nat)> {
    if input.len() >= 3 && input[0] == EXTENSION_INTRODUCER && input[1] == PLAIN_TEXT_LABEL
        && input.len() >= 3 + input[2] {
        match spec_sub_blocks(input.skip(3 + input[2])) {
            Some((_, n)) => Some((PlainTextExtension, (3 + input[2] + n) as nat)),
            None => None,
        }
    } else {
        None
    }
}

/// Parses a plain-text extension and drops what it holds.
pub fn plain_text_extension(input: &[u8]) -> (r: Option<(&[u8], PlainTextExtension)>)
    ensures
        match r {
            Some((rest, extension)) => parses_to(
                input@,
                spec_plain_text_extension(input@),
                rest@,
                extension,
            ),
            None => spec_plain_text_extension(input@) is None,
        },
{
    let rest = constant(EXTENSION_INTRODUCER, input)?;
    let rest = constant(PLAIN_TEXT_LABEL, rest)?;
    let (rest, len) = block_len(rest)?;
    let (rest, _) = take(len as usize, rest)?;
    assert(rest@ =~= input@.skip(3 + len));
    let (after, _) = sub_blocks(rest)?;
    proof {
        let n = spec_sub_blocks(rest@).unwrap().1;
        lemma_skip_skip(input@, (3 + len) as nat, n);
    }
    Some((after, PlainTextExtension))
}

/// A comment extension: introducer and label, then a chain of sub-blocks,
/// which is not kept.
pub open spec fn spec_comment_extension(input: Seq<u8>) -> Option<(CommentExtension, nat)> {
    if input.len() >= 2 && input[0] == EXTENSION_INTRODUCER && input[1]
        == COMMENT_EXTENSION_LABEL {
        match spec_sub_blocks(input.skip(2)) {
            Some((_, n)) => Some((CommentExtension, 2 + n)),
            None => None,
        }
    } else {
        None
    }
}

/// Parses a comment extension and drops its text.
pub fn comment_extension(input: &[u8]) -> (r: Option<(&[u8], CommentExtension)>)
    ensures
        match r {
            Some((rest, extension)) => parses_to(
                input@,
                spec_comment_extension(input@),
                rest@,
                extension,
            ),
            None => spec_comment_extension(input@) is None,
        },
{
    let rest = constant(EXTENSION_INTRODUCER, input)?;
    let rest = constant(COMMENT_EXTENSION_LABEL, rest)?;
    assert(rest@ =~= input@.skip(2));
    let (after, _) = sub_blocks(rest)?;
    proof {
        let n = spec_sub_blocks(rest@).unwrap().1;
        lemma_skip_skip(input@, 2, n);
    }
    Some((after, CommentExtension))
}

/// The eleven bytes `NETSCAPE2.0`.
pub open spec fn netscape_identifier() -> Seq<u8> {
    seq![0x4Eu8, 0x45u8, 0x54u8, 0x53u8, 0x43u8, 0x41u8, 0x50u8, 0x45u8, 0x32u8, 0x2Eu8, 0x30u8]
}

/// What an application extension begins with: introducer, label, the
/// length of the identifier, and the identifier.
pub open spec fn application_signature() -> Seq<u8> {
    seq![EXTENSION_INTRODUCER, APPLICATION_EXTENSION_LABEL, APPLICATION_IDENTIFIER_LEN]
        + netscape_identifier()
}

/// An application extension: the signature of the one recognized
/// application, then a chain of sub-blocks.
pub open spec fn spec_application_extension(input: Seq<u8>) -> Option<
    (ApplicationExtensionView, nat),
> {
    if starts_with(input, application_signature()) {
        match spec_sub_blocks(input.skip(14)) {
            Some((blocks, n)) => Some((ApplicationExtensionView::NetScape(blocks), 14 + n)),
            None => None,
        }
    } else {
        None
    }
}

/// Only NETSCAPE2.0 is recognized
pub fn application_extension(input: &[u8]) -> (r: Option<(&[u8], ApplicationExtension)>)
    ensures
        match r {
            Some((rest, extension)) => parses_to(
                input@,
                spec_application_extension(input@),
                rest@,
                extension@,
            ),
            None => spec_application_extension(input@) is None,
        },
{
    let netscape: [u8; 11] = [0x4E, 0x45, 0x54, 0x53, 0x43, 0x41, 0x50, 0x45, 0x32, 0x2E, 0x30];
    assert(netscape@ =~= netscape_identifier());
    assert(application_signature().len() == 14);
    proof {
        if starts_with(input@, application_signature()) {
            let head = input@.take(14);
            assert(input@[0] == head[0] && input@[1] == head[1] && input@[2] == head[2]);
            assert(input@.skip(3).take(11) =~= netscape_identifier()) by {
                assert forall|i: int| 0 <= i < 11 implies input@.skip(3).take(11)[i]
                    == netscape_identifier()[i] by {
                    assert(input@.skip(3).take(11)[i] == head[i + 3]);
                }
            }
        }
    }
    let rest = constant(EXTENSION_INTRODUCER, input)?;
    let rest = constant(APPLICATION_EXTENSION_LABEL, rest)?;
    let rest = constant(APPLICATION_IDENTIFIER_LEN, rest)?;
    assert(rest@ =~= input@.skip(3));
    let rest = tag(netscape.as_slice(), rest)?;
    assert(rest@ =~= input@.skip(14));
    assert(starts_with(input@, application_signature())) by {
        assert(input@.take(14) =~= application_signature()) by {
            assert forall|i: int| 0 <= i < 14 implies input@.take(14)[i]
                == application_signature()[i] by {
                if i >= 3 {
                    assert(input@.skip(3).take(11)[i - 3] == input@[i]);
                }
            }
        }
    }
    let (after, blocks) = sub_blocks(rest)?;
    proof {
        let n = spec_sub_blocks(rest@).unwrap().1;
        lemma_skip_skip(input@, 14, n);
    }
    Some((after, ApplicationExtension::NetScape(NetScapeExtension::new(blocks))))
}

} // verus!
