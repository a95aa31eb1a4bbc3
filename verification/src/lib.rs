//! A reader for the GIF89a image container.
//!
//! [`decoder::parse`] turns the bytes of a file into a [`gif::Gif`] document and
//! [`decoder::decode`] expands the LZW-coded pixel data of each image into a
//! [`gif::Frame`] of colors. Every function states what it computes as a
//! contract over the plain mathematical views of the document types.

pub mod decoder;
pub mod gif;
