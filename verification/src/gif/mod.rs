//! The document model: what a parsed GIF holds.

pub mod data;
pub mod descriptor;
pub mod extension;
pub mod table;

use vstd::prelude::*;

pub use data::{Color, GifVersion, ImageData, ImageDataView, SubBlock, Trailer};
use descriptor::{spec_has_table, spec_table_size, ImageDescriptor, LogicalScreenDescriptor};
use extension::{
    ApplicationExtension, ApplicationExtensionView, CommentExtension, GraphicControlExtension,
    PlainTextExtension,
};
use table::{GlobalColorTable, LocalColorTable};

verus! {

/// The pixels of one decoded image, row by row.
#[derive(Debug, Clone)]
pub struct Frame {
    pub pixels: Vec<Color>,
}

impl View for Frame {
    type V = Seq<Color>;

    open spec fn view(&self) -> Seq<Color> {
        self.pixels@
    }
}

/// The colors of each frame of a sequence of frames.
pub open spec fn frames_view(frames: Seq<Frame>) -> Seq<Seq<Color>> {
    Seq::new(frames.len(), |i: int| frames[i]@)
}

/// Represents a parsed GIF
#[derive(Debug, Clone)]
pub struct Gif {
    pub version: GifVersion,
    pub lsd: LogicalScreenDescriptor,
    pub gct: Option<GlobalColorTable>,
    pub blocks: Vec<Block>,
}

/// What a [`Gif`] holds.
pub struct GifView {
    pub version: GifVersion,
    pub lsd: LogicalScreenDescriptor,
    pub gct: Option<Seq<Color>>,
    pub blocks: Seq<BlockView>,
}

/// The entries of a color table that may be absent.
pub open spec fn table_view(table: Option<GlobalColorTable>) -> Option<Seq<Color>> {
    match table {
        Some(t) => Some(t@),
        None => None,
    }
}

/// What each block of a sequence of blocks holds.
pub open spec fn blocks_view(blocks: Seq<Block>) -> Seq<BlockView> {
    Seq::new(blocks.len(), |i: int| blocks[i]@)
}

impl View for Gif {
    type V = GifView;

    open spec fn view(&self) -> GifView {
        GifView {
            version: self.version,
            lsd: self.lsd,
            gct: table_view(self.gct),
            blocks: blocks_view(self.blocks@),
        }
    }
}

impl Gif {
    /// The document with the given version, screen descriptor, global color
    /// table and blocks.
    pub fn from_tuple(
        parts: (GifVersion, LogicalScreenDescriptor, Option<GlobalColorTable>, Vec<Block>),
    ) -> (gif: Self)
        ensures
            gif.version == parts.0,
            gif.lsd == parts.1,
            gif.gct == parts.2,
            gif.blocks == parts.3,
    {
        let (version, lsd, gct, blocks) = parts;
        Self { version, lsd, gct, blocks }
    }
}

/// One block of a document.
#[derive(Debug, Clone)]
pub enum Block {
    Image(ImageBlock),
    ApplicationExtension(ApplicationExtension),
    CommentExtension(CommentExtension),
}

/// What a [`Block`] holds.
pub enum BlockView {
    Image(ImageBlockView),
    ApplicationExtension(ApplicationExtensionView),
    CommentExtension,
}

impl View for Block {
    type V = BlockView;

    open spec fn view(&self) -> BlockView {
        match self {
            Block::Image(image_block) => BlockView::Image(image_block@),
            Block::ApplicationExtension(extension) => BlockView::ApplicationExtension(extension@),
            Block::CommentExtension(_) => BlockView::CommentExtension,
        }
    }
}

impl Block {
    /// The image block with the given graphic control extension and content.
    pub fn image_block_from_tuple(
        parts: (Option<GraphicControlExtension>, ImageContent),
    ) -> (block: Self)
        ensures
            block == Block::Image(ImageBlock { gce: parts.0, content: parts.1 }),
    {
        let (gce, content) = parts;
        Self::Image(ImageBlock { gce, content })
    }
}

/// An image or a plain-text extension, with the graphic control extension
/// that precedes it, if any.
#[derive(Debug, Clone)]
pub struct ImageBlock {
    pub gce: Option<GraphicControlExtension>,
    pub content: ImageContent,
}

/// What an [`ImageBlock`] holds.
pub struct ImageBlockView {
    pub gce: Option<GraphicControlExtension>,
    pub content: ImageContentView,
}

impl View for ImageBlock {
    type V = ImageBlockView;

    open spec fn view(&self) -> ImageBlockView {
        ImageBlockView { gce: self.gce, content: self.content@ }
    }
}

/// What an image block carries.
#[derive(Debug, Clone)]
pub enum ImageContent {
    Image(Image),
    PlainText(PlainTextExtension),
}

/// What an [`ImageContent`] holds.
pub enum ImageContentView {
    Image(ImageView),
    PlainText,
}

impl View for ImageContent {
    type V = ImageContentView;

    open spec fn view(&self) -> ImageContentView {
        match self {
            ImageContent::Image(image) => ImageContentView::Image(image@),
            ImageContent::PlainText(_) => ImageContentView::PlainText,
        }
    }
}

impl ImageContent {
    /// The content that is a plain-text extension.
    pub fn plain_text(extension: PlainTextExtension) -> (content: Self)
        ensures
            content == ImageContent::PlainText(extension),
    {
        ImageContent::PlainText(extension)
    }

    /// The content that is a pixel image with the given descriptor, local
    /// color table and data.
    pub fn image_from_tuple(
        parts: (ImageDescriptor, Option<LocalColorTable>, ImageData),
    ) -> (content: Self)
        ensures
            content == ImageContent::Image(
                Image { descriptor: parts.0, lct: parts.1, data: parts.2 },
            ),
    {
        let (descriptor, lct, data) = parts;
        ImageContent::Image(Image { descriptor, lct, data })
    }
}

/// A pixel image: where it lies, its own color table if it has one, and
/// its compressed data.
#[derive(Debug, Clone)]
pub struct Image {
    pub descriptor: ImageDescriptor,
    pub lct: Option<LocalColorTable>,
    pub data: ImageData,
}

/// What an [`Image`] holds.
pub struct ImageView {
    pub descriptor: ImageDescriptor,
    pub lct: Option<Seq<Color>>,
    pub data: ImageDataView,
}

impl View for Image {
    type V = ImageView;

    open spec fn view(&self) -> ImageView {
        ImageView { descriptor: self.descriptor, lct: table_view(self.lct), data: self.data@ }
    }
}

/// Every sub-block of a chain holds at most 255 bytes.
pub open spec fn sub_blocks_wf(blocks: Seq<Seq<u8>>) -> bool {
    forall|i: int| 0 <= i < blocks.len() ==> (#[trigger] blocks[i]).len() <= 255
}

impl ImageView {
    /// The image has a color table of its own exactly where its descriptor
    /// declares one, of the declared size, and its data is a chain of
    /// sub-blocks.
    pub open spec fn wf(self) -> bool {
        &&& self.lct is Some <==> spec_has_table(self.descriptor.packed_byte)
        &&& self.lct matches Some(table) ==> table.len() == spec_table_size(
            self.descriptor.packed_byte,
        )
        &&& sub_blocks_wf(self.data.sub_blocks)
    }
}

impl BlockView {
    /// The block holds what a block of its kind can hold.
    pub open spec fn wf(self) -> bool {
        match self {
            BlockView::Image(image_block) => match image_block.content {
                ImageContentView::Image(image) => image.wf(),
                ImageContentView::PlainText => true,
            },
            BlockView::ApplicationExtension(ApplicationExtensionView::NetScape(blocks)) => {
                sub_blocks_wf(blocks)
            },
            BlockView::CommentExtension => true,
        }
    }
}

impl GifView {
    /// The document is one that a byte stream can hold: the flags agree
    /// with their packed byte, the global color table is there exactly
    /// where the flags declare it, with the declared size, and every block
    /// is well formed.
    pub open spec fn wf(self) -> bool {
        &&& self.lsd.flags.wf()
        &&& self.gct is Some <==> spec_has_table(self.lsd.flags.raw)
        &&& self.gct matches Some(table) ==> table.len() == spec_table_size(self.lsd.flags.raw)
        &&& forall|i: int| 0 <= i < self.blocks.len() ==> (#[trigger] self.blocks[i]).wf()
    }
}

} // verus!
