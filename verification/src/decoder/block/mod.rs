//! The blocks of a document.

pub mod extension;
pub mod image_descriptor;

use crate::decoder::common::{
    byte, constant, lemma_skip_skip, parses_to, spec_byte, spec_prepend, take,
};
use crate::decoder::gct::{local_color_table, spec_optional_color_table};
use crate::gif::data::sub_blocks_view;
use crate::gif::descriptor::{spec_has_table, spec_table_size};
use crate::gif::{
    blocks_view, Block, BlockView, ImageBlockView, ImageContent, ImageContentView, ImageData,
    ImageDataView, ImageView, SubBlock,
};
use extension::{
    application_extension, comment_extension, graphic_control_extension, plain_text_extension,
    spec_application_extension, spec_comment_extension, spec_graphic_control_extension,
    spec_plain_text_extension,
};
use image_descriptor::{image_descriptor, spec_image_descriptor};
use vstd::prelude::*;
use vstd::slice::slice_to_vec;

verus! {

/// The zero byte that ends a chain of sub-blocks.
pub const BLOCK_TERMINATOR: u8 = 0x00;

/// The byte that ends the blocks of a document.
pub const TRAILER: u8 = 0x3B;

/// One sub-block: a length byte and as many payload bytes as it says.
pub open spec fn spec_sub_block(input: Seq<u8>) -> Option<(Seq<u8>, nat)> {
    if input.len() >= 1 && input.len() >= 1 + input[0] {
        Some((input.subrange(1, 1 + input[0]), (1 + input[0]) as nat))
    } else {
        None
    }
}

/// A chain of sub-blocks: sub-blocks up to a zero length byte, which ends
/// the chain and belongs to it.
pub open spec fn spec_sub_blocks(input: Seq<u8>) -> Option<(Seq<Seq<u8>>, nat)>
    decreases input.len(),
{
    if input.len() >= 1 && input[0] == BLOCK_TERMINATOR {
        Some((Seq::empty(), 1))
    } else {
        match spec_sub_block(input) {
            Some((payload, n)) => spec_prepend(
                seq![payload],
                n,
                spec_sub_blocks(input.skip(n as int)),
            ),
            None => None,
        }
    }
}

fn block_len(input: &[u8]) -> (r: Option<(&[u8], u8)>)
    ensures
        match r {
            Some((rest, value)) => parses_to(input@, spec_byte(input@), rest@, value),
            None => spec_byte(input@) is None,
        },
{
    byte(input)
}

/// Parses one sub-block.
pub fn sub_block(input: &[u8]) -> (r: Option<(&[u8], SubBlock)>)
    ensures
        match r {
            Some((rest, block)) => parses_to(input@, spec_sub_block(input@), rest@, block@),
            None => spec_sub_block(input@) is None,
        },
{
    let (rest, len) = block_len(input)?;
    let (after, payload) = take(len as usize, rest)?;
    assert(payload@ =~= input@.subrange(1, 1 + len));
    assert(after@ =~= input@.skip(1 + len));
    Some((after, SubBlock(slice_to_vec(payload))))
}

/// Parses a chain of sub-blocks up to and with its terminator.
pub fn sub_blocks(input: &[u8]) -> (r: Option<(&[u8], Vec<SubBlock>)>)
    ensures
        match r {
            Some((rest, blocks)) => parses_to(
                input@,
                spec_sub_blocks(input@),
                rest@,
                sub_blocks_view(blocks@),
            ),
            None => spec_sub_blocks(input@) is None,
        },
{
    let mut blocks: Vec<SubBlock> = Vec::new();
    let mut cur = input;
    loop
        invariant
            cur@.len() <= input@.len(),
            cur@ == input@.skip(input@.len() - cur@.len()),
            spec_sub_blocks(input@) == spec_prepend(
                sub_blocks_view(blocks@),
                (input@.len() - cur@.len()) as nat,
                spec_sub_blocks(cur@),
            ),
        decreases cur@.len(),
    {
        let ghost consumed = (input@.len() - cur@.len()) as nat;
        match constant(BLOCK_TERMINATOR, cur) {
            Some(rest) => {
                proof {
                    lemma_skip_skip(input@, consumed, 1);
                    assert(sub_blocks_view(blocks@) + Seq::<Seq<u8>>::empty() =~= sub_blocks_view(
                        blocks@,
                    ));
                }
                return Some((rest, blocks));
            },
            None => {},
        }
        match sub_block(cur) {
            None => {
                return None;
            },
            Some((rest, block)) => {
                let ghost before = sub_blocks_view(blocks@);
                let ghost n = spec_sub_block(cur@).unwrap().1;
                blocks.push(block);
                proof {
                    lemma_skip_skip(input@, consumed, n);
                    assert(sub_blocks_view(blocks@) =~= before + seq![block@]);
                    match spec_sub_blocks(rest@) {
                        Some((items, m)) => {
                            assert(before + (seq![block@] + items) =~= (before + seq![block@])
                                + items);
                        },
                        None => {},
                    }
                }
                cur = rest;
            },
        }
    }
}

/// The compressed data of an image: the minimum code size, then a chain of
/// sub-blocks.
pub open spec fn spec_image_data(input: Seq<u8>) -> Option<(ImageDataView, nat)> {
    if input.len() >= 1 {
        match spec_sub_blocks(input.skip(1)) {
            Some((blocks, n)) => Some(
                (ImageDataView { lzw_min_code_size: input[0], sub_blocks: blocks }, 1 + n),
            ),
            None => None,
        }
    } else {
        None
    }
}

/// Parses the compressed data of an image.
pub fn image_data(input: &[u8]) -> (r: Option<(&[u8], ImageData)>)
    ensures
        match r {
            Some((rest, data)) => parses_to(input@, spec_image_data(input@), rest@, data@),
            None => spec_image_data(input@) is None,
        },
{
    let (rest, lzw_min) = byte(input)?;
    let (after, blocks) = sub_blocks(rest)?;
    proof {
        let n = spec_sub_blocks(rest@).unwrap().1;
        lemma_skip_skip(input@, 1, n);
    }
    Some((after, ImageData::from_tuple((lzw_min, blocks))))
}

/// A pixel image: the descriptor, the local color table where the
/// descriptor declares one, and the compressed data.
pub open spec fn spec_pixel_content(input: Seq<u8>) -> Option<(ImageContentView, nat)> {
    match spec_image_descriptor(input) {
        Some((descriptor, n1)) => match spec_optional_color_table(
            input.skip(n1 as int),
            spec_has_table(descriptor.packed_byte),
            spec_table_size(descriptor.packed_byte),
        ) {
            Some((lct, n2)) => match spec_image_data(input.skip((n1 + n2) as int)) {
                Some((data, n3)) => Some(
                    (ImageContentView::Image(ImageView { descriptor, lct, data }), n1 + n2 + n3),
                ),
                None => None,
            },
            None => None,
        },
        None => None,
    }
}

/// Parses a pixel image.
pub fn pixel_content(input: &[u8]) -> (r: Option<(&[u8], ImageContent)>)
    ensures
        match r {
            Some((rest, content)) => parses_to(
                input@,
                spec_pixel_content(input@),
                rest@,
                content@,
            ),
            None => spec_pixel_content(input@) is None,
        },
{
    let (rest, descriptor) = image_descriptor(input)?;
    let has_lct = descriptor.has_local_color_table();
    let len = descriptor.color_table_size() as usize;
    let ghost n1 = spec_image_descriptor(input@).unwrap().1;

    let (rest, lct) = if has_lct {
        let (after, table) = local_color_table(rest, len)?;
        (after, Some(table))
    } else {
        (rest, None)
    };
    let ghost n2 = spec_optional_color_table(
        input@.skip(n1 as int),
        has_lct,
        len as nat,
    ).unwrap().1;
    proof {
        lemma_skip_skip(input@, n1, n2);
    }
    let (after, data) = image_data(rest)?;
    proof {
        let n3 = spec_image_data(rest@).unwrap().1;
        lemma_skip_skip(input@, n1 + n2, n3);
    }
    let image_content = ImageContent::image_from_tuple((descriptor, lct, data));

    Some((after, image_content))
}

/// A plain-text extension in the place of an image.
pub open spec fn spec_plain_text_content(input: Seq<u8>) -> Option<(ImageContentView, nat)> {
    match spec_plain_text_extension(input) {
        Some((_, n)) => Some((ImageContentView::PlainText, n)),
        None => None,
    }
}

/// Parses a plain-text extension as the content of an image block.
pub fn plain_text_content(input: &[u8]) -> (r: Option<(&[u8], ImageContent)>)
    ensures
        match r {
            Some((rest, content)) => parses_to(
                input@,
                spec_plain_text_content(input@),
                rest@,
                content@,
            ),
            None => spec_plain_text_content(input@) is None,
        },
{
    let (rest, extension) = plain_text_extension(input)?;
    Some((rest, ImageContent::plain_text(extension)))
}

/// What an image block carries: a pixel image or, failing that, a
/// plain-text extension.
pub open spec fn spec_image_content(input: Seq<u8>) -> Option<(ImageContentView, nat)> {
    match spec_pixel_content(input) {
        Some(parsed) => Some(parsed),
        None => spec_plain_text_content(input),
    }
}

/// Parses the content of an image block.
pub fn image_content(input: &[u8]) -> (r: Option<(&[u8], ImageContent)>)
    ensures
        match r {
            Some((rest, content)) => parses_to(
                input@,
                spec_image_content(input@),
                rest@,
                content@,
            ),
            None => spec_image_content(input@) is None,
        },
{
    match pixel_content(input) {
        Some(parsed) => Some(parsed),
        None => plain_text_content(input),
    }
}

/// What precedes the content of an image block: a graphic control
/// extension, or nothing.
pub open spec fn spec_optional_graphic_control(input: Seq<u8>) -> (
    Option<crate::gif::extension::GraphicControlExtension>,
    nat,
) {
    match spec_graphic_control_extension(input) {
        Some((gce, n)) => (Some(gce), n),
        None => (None, 0),
    }
}

/// An image block: an optional graphic control extension, then the
/// content.
pub open spec fn spec_image_block(input: Seq<u8>) -> Option<(BlockView, nat)> {
    let (gce, n0) = spec_optional_graphic_control(input);
    match spec_image_content(input.skip(n0 as int)) {
        Some((content, n)) => Some((BlockView::Image(ImageBlockView { gce, content }), n0 + n)),
        None => None,
    }
}

/// Parses an image block.
pub fn image_block(input: &[u8]) -> (r: Option<(&[u8], Block)>)
    ensures
        match r {
            Some((rest, block)) => parses_to(input@, spec_image_block(input@), rest@, block@),
            None => spec_image_block(input@) is None,
        },
{
    let (rest, gce) = match graphic_control_extension(input) {
        Some((rest, gce)) => (rest, Some(gce)),
        None => (input, None),
    };
    let ghost n0 = spec_optional_graphic_control(input@).1;
    assert(rest@ =~= input@.skip(n0 as int));
    let (after, content) = image_content(rest)?;
    proof {
        let n = spec_image_content(rest@).unwrap().1;
        lemma_skip_skip(input@, n0, n);
    }
    Some((after, Block::image_block_from_tuple((gce, content))))
}

/// An application extension as a block.
pub open spec fn spec_application_extension_block(input: Seq<u8>) -> Option<(BlockView, nat)> {
    match spec_application_extension(input) {
        Some((extension, n)) => Some((BlockView::ApplicationExtension(extension), n)),
        None => None,
    }
}

/// Parses an application extension as a block.
pub fn application_extension_block(input: &[u8]) -> (r: Option<(&[u8], Block)>)
    ensures
        match r {
            Some((rest, block)) => parses_to(
                input@,
                spec_application_extension_block(input@),
                rest@,
                block@,
            ),
            None => spec_application_extension_block(input@) is None,
        },
{
    let (rest, extension) = application_extension(input)?;
    Some((rest, Block::ApplicationExtension(extension)))
}

/// A comment extension as a block.
pub open spec fn spec_comment_extension_block(input: Seq<u8>) -> Option<(BlockView, nat)> {
    match spec_comment_extension(input) {
        Some((_, n)) => Some((BlockView::CommentExtension, n)),
        None => None,
    }
}

/// Parses a comment extension as a block.
pub fn comment_extension_block(input: &[u8]) -> (r: Option<(&[u8], Block)>)
    ensures
        match r {
            Some((rest, block)) => parses_to(
                input@,
                spec_comment_extension_block(input@),
                rest@,
                block@,
            ),
            None => spec_comment_extension_block(input@) is None,
        },
{
    let (rest, extension) = comment_extension(input)?;
    Some((rest, Block::CommentExtension(extension)))
}

/// One block: the first that matches of an image block, an application
/// extension and a comment extension.
pub open spec fn spec_block(input: Seq<u8>) -> Option<(BlockView, nat)> {
    match spec_image_block(input) {
        Some(parsed) => Some(parsed),
        None => match spec_application_extension_block(input) {
            Some(parsed) => Some(parsed),
            None => spec_comment_extension_block(input),
        },
    }
}

/// Parses one block.
pub fn block(input: &[u8]) -> (r: Option<(&[u8], Block)>)
    ensures
        match r {
            Some((rest, block)) => parses_to(input@, spec_block(input@), rest@, block@),
            None => spec_block(input@) is None,
        },
{
    match image_block(input) {
        Some(parsed) => Some(parsed),
        None => match application_extension_block(input) {
            Some(parsed) => Some(parsed),
            None => comment_extension_block(input),
        },
    }
}

/// The blocks of a document: blocks up to the trailer byte, which ends the
/// sequence and belongs to it. A block that matches on no byte at all ends
/// the parse in failure.
pub open spec fn spec_blocks(input: Seq<u8>) -> Option<(Seq<BlockView>, nat)>
    decreases input.len(),
{
    if input.len() >= 1 && input[0] == TRAILER {
        Some((Seq::empty(), 1))
    } else {
        match spec_block(input) {
            Some((block, n)) => if 0 < n <= input.len() {
                spec_prepend(seq![block], n, spec_blocks(input.skip(n as int)))
            } else {
                None
            },
            None => None,
        }
    }
}

/// Parses the blocks of a document up to and with the trailer.
pub fn blocks(input: &[u8]) -> (r: Option<(&[u8], Vec<Block>)>)
    ensures
        match r {
            Some((rest, blocks)) => parses_to(
                input@,
                spec_blocks(input@),
                rest@,
                blocks_view(blocks@),
            ),
            None => spec_blocks(input@) is None,
        },
{
    let mut blocks: Vec<Block> = Vec::new();
    let mut cur = input;
    loop
        invariant
            cur@.len() <= input@.len(),
            cur@ == input@.skip(input@.len() - cur@.len()),
            spec_blocks(input@) == spec_prepend(
                blocks_view(blocks@),
                (input@.len() - cur@.len()) as nat,
                spec_blocks(cur@),
            ),
        decreases cur@.len(),
    {
        let ghost consumed = (input@.len() - cur@.len()) as nat;
        match constant(TRAILER, cur) {
            Some(rest) => {
                proof {
                    lemma_skip_skip(input@, consumed, 1);
                    assert(blocks_view(blocks@) + Seq::<BlockView>::empty() =~= blocks_view(
                        blocks@,
                    ));
                }
                return Some((rest, blocks));
            },
            None => {},
        }
        match block(cur) {
            None => {
                return None;
            },
            Some((rest, item)) => {
                if rest.len() == cur.len() {
                    return None;
                }
                let ghost before = blocks_view(blocks@);
                let ghost n = spec_block(cur@).unwrap().1;
                blocks.push(item);
                proof {
                    lemma_skip_skip(input@, consumed, n);
                    assert(blocks_view(blocks@) =~= before + seq![item@]);
                    match spec_blocks(rest@) {
                        Some((items, m)) => {
                            assert(before + (seq![item@] + items) =~= (before + seq![item@])
                                + items);
                        },
                        None => {},
                    }
                }
                cur = rest;
            },
        }
    }
}

} // verus!
