use super::data::{sub_blocks_view, SubBlock};
use vstd::prelude::*;

verus! {

/// The metadata that may precede an image: kept as parsed, never applied.
#[derive(Debug, Clone, Copy, PartialEq, Eq, Structural)]
pub struct GraphicControlExtension {
    pub block_size: u8,
    pub packed_field: u8,
    pub delay_time: u16,
    pub transparent_color_idx: u8,
}

impl GraphicControlExtension {
    /// The extension with the given block size, packed field, delay time and
    /// transparent color index.
    pub fn from_tuple(parts: (u8, u8, u16, u8)) -> (gce: Self)
        ensures
            gce == (GraphicControlExtension {
                block_size: parts.0,
                packed_field: parts.1,
                delay_time: parts.2,
                transparent_color_idx: parts.3,
            }),
    {
        let (block_size, packed_field, delay_time, transparent_color_idx) = parts;
        Self { block_size, packed_field, delay_time, transparent_color_idx }
    }
}

/// An application extension. Only the one identified as `NETSCAPE2.0` is
/// recognized.
#[derive(Debug, Clone, PartialEq)]
pub enum ApplicationExtension {
    NetScape(NetScapeExtension),
}

/// What an [`ApplicationExtension`] holds.
pub enum ApplicationExtensionView {
    NetScape(Seq<Seq<u8>>),
}

impl View for ApplicationExtension {
    type V = ApplicationExtensionView;

    open spec fn view(&self) -> ApplicationExtensionView {
        match self {
            ApplicationExtension::NetScape(netscape) => ApplicationExtensionView::NetScape(
                netscape@,
            ),
        }
    }
}

/// The looping extension of the Netscape browser: its sub-blocks, as read.
#[derive(Debug, Clone, PartialEq)]
pub struct NetScapeExtension {
    pub sub_blocks: Vec<SubBlock>,
}

impl View for NetScapeExtension {
    type V = Seq<Seq<u8>>;

    open spec fn view(&self) -> Seq<Seq<u8>> {
        sub_blocks_view(self.sub_blocks@)
    }
}

impl NetScapeExtension {
    /// The extension with the given sub-blocks.
    pub fn new(sub_blocks: Vec<SubBlock>) -> (netscape: Self)
        ensures
            netscape.sub_blocks == sub_blocks,
    {
        Self { sub_blocks }
    }
}

/// A comment. Its text is not kept.
#[derive(Debug, Clone, Copy, PartialEq, Eq, Structural)]
pub struct CommentExtension;

/// A plain-text extension. Its payload is not kept.
#[derive(Debug, Clone, Copy, PartialEq, Eq, Structural)]
pub struct PlainTextExtension;

} // verus!
