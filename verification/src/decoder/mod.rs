//! Parsing a byte stream into a document, and decoding its images.

pub mod block;
pub mod code_stream;
pub mod common;
pub mod extent;
pub mod gct;
pub mod lsd;
pub mod lzw;

use crate::gif::descriptor::{spec_has_table, spec_table_size};
use crate::gif::table::GlobalColorTable;
use crate::gif::{
    blocks_view, frames_view, table_view, Block, BlockView, Color, Frame, Gif, GifVersion,
    GifView, ImageBlock, ImageBlockView, ImageContent, ImageContentView, ImageView,
};
use block::{blocks, spec_blocks};
use common::{lemma_skip_skip, parses_to, starts_with, tag, take};
use extent::lemma_parsed_well_formed;
use gct::{global_color_table, spec_optional_color_table};
use lsd::{logical_screen_descriptor, spec_logical_screen_descriptor};
use lzw::{lzw_decode, spec_frame};
use vstd::prelude::*;
use vstd::std_specs::convert::TryFromSpecImpl;

verus! {

/// `std::io::Error`, which an error carries through as it is. Nothing is
/// claimed of what it holds.
#[verifier::external_type_specification]
#[verifier::external_body]
pub struct ExIoError(std::io::Error);

/// Why a byte stream could not be turned into frames.
#[derive(Debug)]
pub enum DecodeError {
    /// The container is malformed or of an unsupported kind. The text names
    /// the stage that failed.
    InvalidData(String),
    /// The compressed data of an image does not decode to its pixels.
    Fail,
    /// The byte source could not be read.
    Io(std::io::Error),
}

/// The stage at which the parse of a document fails.
#[derive(Debug, Clone, Copy, PartialEq, Eq, Structural)]
pub enum ParseStage {
    Header,
    Version,
    ScreenDescriptor,
    Body,
}

/// The text with which a failure at `stage` is reported.
pub open spec fn stage_message(stage: ParseStage) -> Seq<char> {
    match stage {
        ParseStage::Header => "failed to parse GIF header"@,
        ParseStage::Version => "unsupported version"@,
        ParseStage::ScreenDescriptor => "failed to parse logical screen descriptor"@,
        ParseStage::Body => "failed to parse global color table or blocks"@,
    }
}

/// `e` reports a malformed container, and names `stage` as the stage that
/// failed.
pub open spec fn reports(e: DecodeError, stage: ParseStage) -> bool {
    e matches DecodeError::InvalidData(text) && text@ == stage_message(stage)
}

/// The three bytes `GIF`.
pub open spec fn signature() -> Seq<u8> {
    seq![0x47u8, 0x49u8, 0x46u8]
}

/// The three bytes `89a`.
pub open spec fn version_89a() -> Seq<u8> {
    seq![0x38u8, 0x39u8, 0x61u8]
}

/// The header: the signature, then three bytes of version, which it yields.
pub open spec fn spec_header(input: Seq<u8>) -> Option<(Seq<u8>, nat)> {
    if starts_with(input, signature()) && input.len() >= 6 {
        Some((input.subrange(3, 6), 6))
    } else {
        None
    }
}

/// The version that three version bytes name, if they name one.
pub open spec fn spec_version(version: Seq<u8>) -> Option<GifVersion> {
    if version == version_89a() {
        Some(GifVersion::V89a)
    } else {
        None
    }
}

/// What follows the logical screen descriptor: the global color table
/// where `has_gct` holds, then the blocks up to the trailer, and nothing
/// after it.
pub open spec fn spec_body(input: Seq<u8>, has_gct: bool, len: nat) -> Option<
    (Option<Seq<Color>>, Seq<BlockView>),
> {
    match spec_optional_color_table(input, has_gct, len) {
        Some((gct, n1)) => match spec_blocks(input.skip(n1 as int)) {
            Some((blocks, n2)) => if n1 + n2 == input.len() {
                Some((gct, blocks))
            } else {
                None
            },
            None => None,
        },
        None => None,
    }
}

/// The document that a byte stream holds, or the stage at which it fails
/// to be one.
pub open spec fn spec_parse(input: Seq<u8>) -> Result<GifView, ParseStage> {
    match spec_header(input) {
        None => Err(ParseStage::Header),
        Some((version_bytes, n1)) => match spec_version(version_bytes) {
            None => Err(ParseStage::Version),
            Some(version) => match spec_logical_screen_descriptor(input.skip(n1 as int)) {
                None => Err(ParseStage::ScreenDescriptor),
                Some((lsd, n2)) => match spec_body(
                    input.skip((n1 + n2) as int),
                    spec_has_table(lsd.flags.raw),
                    spec_table_size(lsd.flags.raw),
                ) {
                    None => Err(ParseStage::Body),
                    Some((gct, blocks)) => Ok(GifView { version, lsd, gct, blocks }),
                },
            },
        },
    }
}

fn invalid_data(stage: Ghost<ParseStage>, message: &str) -> (e: DecodeError)
    requires
        message@ == stage_message(stage@),
    ensures
        reports(e, stage@),
{
    DecodeError::InvalidData(String::from_str(message))
}

/// Parses a whole GIF file: the header, the logical screen descriptor, the
/// global color table where the flags declare one, and the blocks up to
/// the trailer, behind which nothing may follow.
pub fn parse(bytes: &[u8]) -> (r: Result<Gif, DecodeError>)
    ensures
        match r {
            Ok(gif) => spec_parse(bytes@) == Ok::<GifView, ParseStage>(gif@) && gif@.wf(),
            Err(e) => spec_parse(bytes@) matches Err(stage) && reports(e, stage),
        },
{
    proof {
        if spec_parse(bytes@) is Ok {
            lemma_parsed_well_formed(bytes@);
        }
    }
    let (rest, version_bytes) = match header(bytes) {
        Some(parsed) => parsed,
        None => {
            return Err(invalid_data(Ghost(ParseStage::Header), "failed to parse GIF header"));
        },
    };

    let version = match GifVersion::try_from(version_bytes) {
        Ok(version) => version,
        Err(e) => {
            return Err(e);
        },
    };

    let (rest, logical_screen_descriptor) = match logical_screen_descriptor(rest) {
        Some(parsed) => parsed,
        None => {
            return Err(
                invalid_data(
                    Ghost(ParseStage::ScreenDescriptor),
                    "failed to parse logical screen descriptor",
                ),
            );
        },
    };

    let has_gct = logical_screen_descriptor.flags.global_color_table;
    let len = logical_screen_descriptor.flags.color_table_size() as usize;

    match body(rest, has_gct, len) {
        Some((gct, blocks)) => {
            proof {
                lemma_skip_skip(bytes@, 6, 7);
            }
            Ok(Gif { version, lsd: logical_screen_descriptor, gct, blocks })
        },
        None => {
            proof {
                lemma_skip_skip(bytes@, 6, 7);
            }
            Err(
                invalid_data(
                    Ghost(ParseStage::Body),
                    "failed to parse global color table or blocks",
                ),
            )
        },
    }
}

fn body(input: &[u8], has_gct: bool, len: usize) -> (r: Option<
    (Option<GlobalColorTable>, Vec<Block>),
>)
    ensures
        match r {
            Some((gct, blocks)) => spec_body(input@, has_gct, len as nat) == Some(
                (table_view(gct), blocks_view(blocks@)),
            ),
            None => spec_body(input@, has_gct, len as nat) is None,
        },
{
    let (rest, gct) = if has_gct {
        let (after, table) = global_color_table(input, len)?;
        (after, Some(table))
    } else {
        (input, None)
    };
    let ghost n1 = spec_optional_color_table(input@, has_gct, len as nat).unwrap().1;
    assert(rest@ =~= input@.skip(n1 as int));
    let (after, blocks) = blocks(rest)?;
    if after.len() != 0 {
        return None;
    }
    Some((gct, blocks))
}

impl<'a> TryFrom<&'a [u8]> for GifVersion {
    type Error = DecodeError;

    /// The version that three version bytes name.
    fn try_from(version_bytes: &'a [u8]) -> (r: Result<Self, DecodeError>)
        ensures
            match r {
                Ok(version) => spec_version(version_bytes@) == Some(version),
                Err(e) => spec_version(version_bytes@) is None && reports(e, ParseStage::Version),
            },
    {
        let expected: [u8; 3] = [0x38, 0x39, 0x61];
        assert(expected@ =~= version_89a());
        let matched = version_bytes.len() == 3 && version_bytes[0] == expected[0]
            && version_bytes[1] == expected[1] && version_bytes[2] == expected[2];
        if matched {
            assert(version_bytes@ =~= version_89a());
            Ok(GifVersion::V89a)
        } else {
            Err(invalid_data(Ghost(ParseStage::Version), "unsupported version"))
        }
    }
}

/// What `try_from` returns is said by its own contract: the text of its
/// error is nothing that a specification function can build.
impl<'a> TryFromSpecImpl<&'a [u8]> for GifVersion {
    open spec fn obeys_try_from_spec() -> bool {
        false
    }

    open spec fn try_from_spec(version_bytes: &'a [u8]) -> Result<Self, DecodeError> {
        match spec_version(version_bytes@) {
            Some(version) => Ok(version),
            None => Err(arbitrary()),
        }
    }
}

/// Matches the signature and splits off the three version bytes, which may
/// not name a valid version.
pub fn header(input: &[u8]) -> (r: Option<(&[u8], &[u8])>)
    ensures
        match r {
            Some((rest, version_bytes)) => parses_to(
                input@,
                spec_header(input@),
                rest@,
                version_bytes@,
            ),
            None => spec_header(input@) is None,
        },
{
    let gif: [u8; 3] = [0x47, 0x49, 0x46];
    assert(gif@ =~= signature());
    let rest = tag(gif.as_slice(), input)?;
    let (after, version_bytes) = take(3, rest)?;
    assert(version_bytes@ =~= input@.subrange(3, 6));
    assert(after@ =~= input@.skip(6));
    Some((after, version_bytes))
}

/// Why the images of a document do not decode.
#[derive(Debug, Clone, Copy, PartialEq, Eq, Structural)]
pub enum DecodeFailure {
    /// An image has no color table of its own, and the document has none.
    MissingColorTable,
    /// The data of an image does not decompress to its pixels.
    Lzw,
}

/// `e` reports the failure `failure`.
pub open spec fn failure_reported(e: DecodeError, failure: DecodeFailure) -> bool {
    match failure {
        DecodeFailure::MissingColorTable => e matches DecodeError::InvalidData(text) && text@
            == "one color table should be defined"@,
        DecodeFailure::Lzw => e is Fail,
    }
}

/// The color table that applies to an image: its own, or else that of the
/// document.
pub open spec fn spec_color_table_of(gct: Option<Seq<Color>>, image: ImageView) -> Option<
    Seq<Color>,
> {
    match image.lct {
        Some(table) => Some(table),
        None => gct,
    }
}

/// What an image block decodes to: the frame of a pixel image, and nothing
/// for a plain-text extension.
pub open spec fn spec_decode_image_block(gct: Option<Seq<Color>>, block: ImageBlockView) -> Result<
    Option<Seq<Color>>,
    DecodeFailure,
> {
    match block.content {
        ImageContentView::PlainText => Ok(None),
        ImageContentView::Image(image) => match spec_color_table_of(gct, image) {
            None => Err(DecodeFailure::MissingColorTable),
            Some(table) => match spec_frame(image.descriptor, image.data, table) {
                Some(frame) => Ok(Some(frame)),
                None => Err(DecodeFailure::Lzw),
            },
        },
    }
}

/// What a block decodes to: only an image block can yield a frame.
pub open spec fn spec_decode_frame(gct: Option<Seq<Color>>, block: BlockView) -> Result<
    Option<Seq<Color>>,
    DecodeFailure,
> {
    match block {
        BlockView::Image(image_block) => spec_decode_image_block(gct, image_block),
        _ => Ok(None),
    }
}

/// The frames of a sequence of blocks, in the order of the blocks, or the
/// failure of the first block that does not decode.
pub open spec fn spec_decode_blocks(gct: Option<Seq<Color>>, blocks: Seq<BlockView>) -> Result<
    Seq<Seq<Color>>,
    DecodeFailure,
>
    decreases blocks.len(),
{
    if blocks.len() == 0 {
        Ok(Seq::empty())
    } else {
        match spec_decode_blocks(gct, blocks.drop_last()) {
            Err(failure) => Err(failure),
            Ok(frames) => match spec_decode_frame(gct, blocks.last()) {
                Err(failure) => Err(failure),
                Ok(Some(frame)) => Ok(frames.push(frame)),
                Ok(None) => Ok(frames),
            },
        }
    }
}

/// The frames of a document.
pub open spec fn spec_decode(gif: GifView) -> Result<Seq<Seq<Color>>, DecodeFailure> {
    spec_decode_blocks(gif.gct, gif.blocks)
}

/// The number of pixels that a block declares: width times height for a
/// pixel image, nothing for any other block.
pub open spec fn block_area(block: BlockView) -> nat {
    match block {
        BlockView::Image(image_block) => match image_block.content {
            ImageContentView::Image(image) => image.descriptor.area(),
            ImageContentView::PlainText => 0,
        },
        _ => 0,
    }
}

/// The number of pixels that the blocks of a document declare.
pub open spec fn total_area(blocks: Seq<BlockView>) -> nat
    decreases blocks.len(),
{
    if blocks.len() == 0 {
        0
    } else {
        total_area(blocks.drop_last()) + block_area(blocks.last())
    }
}

/// The number of pixels of a sequence of frames.
pub open spec fn total_pixels(frames: Seq<Seq<Color>>) -> nat
    decreases frames.len(),
{
    if frames.len() == 0 {
        0
    } else {
        total_pixels(frames.drop_last()) + frames.last().len()
    }
}

/// The frames of blocks that decode hold as many pixels as the image
/// blocks among them declare.
pub proof fn lemma_decoded_pixel_count(gct: Option<Seq<Color>>, blocks: Seq<BlockView>)
    requires
        spec_decode_blocks(gct, blocks) is Ok,
    ensures
        total_pixels(spec_decode_blocks(gct, blocks).unwrap()) == total_area(blocks),
    decreases blocks.len(),
{
    if blocks.len() > 0 {
        lemma_decoded_pixel_count(gct, blocks.drop_last());
        let before = spec_decode_blocks(gct, blocks.drop_last()).unwrap();
        match spec_decode_frame(gct, blocks.last()) {
            Ok(Some(frame)) => {
                assert(before.push(frame).drop_last() =~= before);
                assert(before.push(frame).last() == frame);
            },
            _ => {},
        }
    }
}

/// Decodes every image of a document, in the order of its blocks.
pub fn decode(gif: Gif) -> (r: Result<Vec<Frame>, DecodeError>)
    ensures
        match r {
            Ok(frames) => spec_decode(gif@) == Ok::<Seq<Seq<Color>>, DecodeFailure>(
                frames_view(frames@),
            ) && total_pixels(frames_view(frames@)) == total_area(gif@.blocks),
            Err(e) => spec_decode(gif@) matches Err(failure) && failure_reported(e, failure),
        },
{
    let r = GifDecoder::create(gif).decode();
    proof {
        if spec_decode(gif@) is Ok {
            lemma_decoded_pixel_count(gif@.gct, gif@.blocks);
            assert(Seq::<Seq<Color>>::empty() + spec_decode(gif@).unwrap() =~= spec_decode(
                gif@,
            ).unwrap());
        }
    }
    r
}

/// A document together with the frames decoded from it so far.
pub struct GifDecoder {
    gif: Gif,
    decoded_frames: Vec<Frame>,
}

impl GifDecoder {
    /// The document that is decoded.
    pub closed spec fn document(&self) -> GifView {
        self.gif@
    }

    /// The frames decoded so far.
    pub closed spec fn frames(&self) -> Seq<Seq<Color>> {
        frames_view(self.decoded_frames@)
    }

    /// A decoder of `gif` that has decoded no frame yet.
    pub fn create(gif: Gif) -> (decoder: Self)
        ensures
            decoder.document() == gif@,
            decoder.frames() == Seq::<Seq<Color>>::empty(),
    {
        let decoder = Self { decoded_frames: Vec::with_capacity(gif.blocks.len()), gif };
        assert(frames_view(decoder.decoded_frames@) =~= Seq::<Seq<Color>>::empty());
        decoder
    }

    /// Decodes the blocks of the document and hands out the frames, those
    /// decoded before first.
    pub fn decode(self) -> (r: Result<Vec<Frame>, DecodeError>)
        ensures
            match r {
                Ok(frames) => spec_decode(self.document()) matches Ok(decoded) && frames_view(
                    frames@,
                ) == self.frames() + decoded,
                Err(e) => spec_decode(self.document()) matches Err(failure) && failure_reported(
                    e,
                    failure,
                ),
            },
    {
        let mut decoder = self;
        let ghost gct = decoder.gif@.gct;
        let ghost blocks = decoder.gif@.blocks;
        let ghost before = decoder.frames();
        let ghost document = decoder.gif;
        let mut i: usize = 0;
        assert(blocks.take(0) =~= Seq::<BlockView>::empty());
        assert(before + Seq::<Seq<Color>>::empty() =~= before);
        while i < decoder.gif.blocks.len()
            invariant
                i <= decoder.gif.blocks@.len(),
                decoder.gif == document,
                document == self.gif,
                gct == decoder.gif@.gct,
                blocks == decoder.gif@.blocks,
                spec_decode_blocks(gct, blocks.take(i as int)) matches Ok(decoded)
                    && decoder.frames() == before + decoded,
            decreases decoder.gif.blocks@.len() - i,
        {
            proof {
                assert(blocks.take(i + 1).drop_last() =~= blocks.take(i as int));
                assert(blocks.take(i + 1).last() == blocks[i as int]);
                assert(blocks[i as int] == decoder.gif.blocks@[i as int]@);
                if spec_decode_frame(gct, blocks[i as int]) is Err {
                    assert(spec_decode_blocks(gct, blocks.take(i + 1)) == Err::<
                        Seq<Seq<Color>>,
                        DecodeFailure,
                    >(spec_decode_frame(gct, blocks[i as int])->Err_0));
                    lemma_failure_stays(gct, blocks, i + 1);
                }
            }
            let ghost decoded = spec_decode_blocks(gct, blocks.take(i as int)).unwrap();
            match decoder.decode_frame(&decoder.gif.blocks[i]) {
                Err(e) => {
                    return Err(e);
                },
                Ok(Some(frame)) => {
                    let ghost frames = decoder.frames();
                    decoder.decoded_frames.push(frame);
                    assert(decoder.frames() =~= frames.push(frame@));
                    assert(before + decoded.push(frame@) =~= (before + decoded).push(frame@));
                },
                Ok(None) => {},
            }
            i = i + 1;
        }
        assert(blocks.take(i as int) =~= blocks);
        Ok(decoder.decoded_frames)
    }

    /// Decodes one block: only an image block can yield a frame.
    pub fn decode_frame(&self, block: &Block) -> (r: Result<Option<Frame>, DecodeError>)
        ensures
            match r {
                Ok(frame) => spec_decode_frame(self.document().gct, block@) == Ok::<
                    Option<Seq<Color>>,
                    DecodeFailure,
                >(frame_view(frame)),
                Err(e) => spec_decode_frame(self.document().gct, block@) matches Err(failure)
                    && failure_reported(e, failure),
            },
    {
        match block {
            Block::CommentExtension(_) | Block::ApplicationExtension(_) => Ok(None),
            Block::Image(image_block) => self.decode_image_block(image_block),
        }
    }

    /// Decodes one image block with the color table of its image or,
    /// where it has none, that of the document.
    pub fn decode_image_block(&self, block: &ImageBlock) -> (r: Result<Option<Frame>, DecodeError>)
        ensures
            match r {
                Ok(frame) => spec_decode_image_block(self.document().gct, block@) == Ok::<
                    Option<Seq<Color>>,
                    DecodeFailure,
                >(frame_view(frame)),
                Err(e) => spec_decode_image_block(self.document().gct, block@) matches Err(
                    failure,
                ) && failure_reported(e, failure),
            },
    {
        match &block.content {
            ImageContent::PlainText(_) => Ok(None),
            ImageContent::Image(image) => {
                let color_table = match &image.lct {
                    Some(table) => table,
                    None => match &self.gif.gct {
                        Some(table) => table,
                        None => {
                            return Err(
                                DecodeError::InvalidData(
                                    String::from_str("one color table should be defined"),
                                ),
                            );
                        },
                    },
                };
                match lzw_decode(&image.descriptor, &image.data, color_table) {
                    Ok(frame) => Ok(Some(frame)),
                    Err(e) => Err(e),
                }
            },
        }
    }
}

/// The colors of a frame that may be absent.
pub open spec fn frame_view(frame: Option<Frame>) -> Option<Seq<Color>> {
    match frame {
        Some(f) => Some(f@),
        None => None,
    }
}

/// Once a block fails, the blocks up to any later one fail as it does.
proof fn lemma_failure_stays(gct: Option<Seq<Color>>, blocks: Seq<BlockView>, upto: int)
    requires
        0 <= upto <= blocks.len(),
        spec_decode_blocks(gct, blocks.take(upto)) is Err,
    ensures
        spec_decode_blocks(gct, blocks) == spec_decode_blocks(gct, blocks.take(upto)),
    decreases blocks.len() - upto,
{
    if upto < blocks.len() {
        assert(blocks.take(upto + 1).drop_last() =~= blocks.take(upto));
        lemma_failure_stays(gct, blocks, upto + 1);
    } else {
        assert(blocks.take(upto) =~= blocks);
    }
}

} // verus!
