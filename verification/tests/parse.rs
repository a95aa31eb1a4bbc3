use giflar::decoder::block::extension::{
    application_extension, comment_extension, graphic_control_extension, plain_text_extension,
};
use giflar::decoder::block::image_descriptor::image_descriptor;
use giflar::decoder::block::{blocks, sub_block, sub_blocks};
use giflar::decoder::common::{byte, constant, packed_byte};
use giflar::decoder::gct::{color, global_color_table, local_color_table};
use giflar::decoder::lsd::logical_screen_descriptor;
use giflar::decoder::{header, parse, DecodeError};
use giflar::gif::descriptor::{Flags, ImageDescriptor, LogicalScreenDescriptor};
use giflar::gif::extension::{ApplicationExtension, GraphicControlExtension};
use giflar::gif::{Block, Color, GifVersion, ImageContent, SubBlock};

fn stage_of(result: Result<giflar::gif::Gif, DecodeError>) -> String {
    match result {
        Err(DecodeError::InvalidData(text)) => text,
        Err(other) => panic!("not a structural error: {:?}", other),
        Ok(_) => panic!("the stream was accepted"),
    }
}

/// Header, a 1 by 1 screen without a global color table, and the trailer.
fn smallest_document() -> Vec<u8> {
    let mut bytes = b"GIF89a".to_vec();
    bytes.extend_from_slice(&[0x01, 0x00, 0x01, 0x00, 0x00, 0x00, 0x00]);
    bytes.push(0x3B);
    bytes
}

#[test]
fn parse_application_ext() {
    let data = b"\x21\xFF\x0BNETSCAPE2.0\x03\x01\x00\x00\x00";

    let (rem, app_ext) = application_extension(data).unwrap();

    let ApplicationExtension::NetScape(netscape) = app_ext;

    assert!(rem.is_empty());
    assert_eq!(netscape.sub_blocks.len(), 1);
}

#[test]
fn application_extension_keeps_its_sub_blocks() {
    let data = b"\x21\xFF\x0BNETSCAPE2.0\x03\x01\x05\x00\x00\x2C";
    let (rem, app_ext) = application_extension(data).unwrap();
    let ApplicationExtension::NetScape(netscape) = app_ext;
    assert_eq!(rem, &[0x2C]);
    assert_eq!(netscape.sub_blocks, vec![SubBlock(vec![0x01, 0x05, 0x00])]);
}

#[test]
fn application_extension_of_another_application_is_refused() {
    assert!(application_extension(b"\x21\xFF\x0BXMP DataXMP\x00").is_none());
    assert!(application_extension(b"\x21\xFF\x0bNETSCAPE2.1\x00").is_none());
    assert!(application_extension(b"\x21\xFF\x0CNETSCAPE2.0\x00").is_none());
    assert!(application_extension(b"\x21\xFE\x0BNETSCAPE2.0\x00").is_none());
    assert!(application_extension(b"\x21\xFF\x0BNETSCAPE2.0").is_none());
    assert!(application_extension(b"\x21\xFF\x0BNETSCAPE2.0\x02\x01\x00").is_none());
}

#[test]
fn header_accepts_version_89a() {
    let (rest, version_bytes) = header(b"GIF89a\x01\x02").unwrap();
    assert_eq!(version_bytes, b"89a");
    assert_eq!(rest, &[0x01, 0x02]);
    assert_eq!(GifVersion::try_from(version_bytes).unwrap(), GifVersion::V89a);

    let gif = parse(&smallest_document()).unwrap();
    assert_eq!(gif.version, GifVersion::V89a);
    assert!(gif.gct.is_none());
    assert!(gif.blocks.is_empty());
}

#[test]
fn header_rejects_any_other_version() {
    let others: [&[u8]; 6] = [b"87a", b"89b", b"99a", b"89A", b"\x0089", b"a98"];
    for other in others {
        let mut bytes = smallest_document();
        bytes[3..6].copy_from_slice(other);
        assert_eq!(stage_of(parse(&bytes)), "unsupported version");
        match GifVersion::try_from(other) {
            Err(DecodeError::InvalidData(text)) => assert_eq!(text, "unsupported version"),
            result => panic!("not a structural error: {:?}", result),
        }
    }
    assert!(matches!(GifVersion::try_from(&b"89"[..]), Err(DecodeError::InvalidData(_))));
    assert!(matches!(GifVersion::try_from(&b"89a1"[..]), Err(DecodeError::InvalidData(_))));
}

#[test]
fn header_rejects_another_signature() {
    assert!(header(b"GIF89").is_none());
    assert!(header(b"").is_none());
    assert!(header(b"JIF89a").is_none());
    let malformed: [&[u8]; 5] =
        [b"", b"GIF", b"GIF89", b"GIG89a", b"gif89a\x01\x00\x01\x00\x00\x00\x00\x3B"];
    for bad in malformed {
        assert_eq!(stage_of(parse(bad)), "failed to parse GIF header");
    }
}

#[test]
fn flags_decoding() {
    let flags = Flags::from(0b1001_0001);
    assert_eq!(flags.raw, 0b1001_0001);
    assert!(flags.global_color_table);
    // Bits 6 to 4 hold 1; the decoded field is one more.
    assert_eq!((flags.raw >> 4) & 0b111, 1);
    assert_eq!(flags.color_resolution, 2);
    assert!(!flags.sort);
    assert_eq!(flags.color_table_size(), 4);
}

#[test]
fn flags_decode_every_field() {
    let flags = Flags::from(0b0111_1111);
    assert!(!flags.global_color_table);
    assert_eq!(flags.color_resolution, 8);
    assert!(flags.sort);
    assert_eq!(flags.color_table_size(), 256);

    let flags = Flags::from(0);
    assert!(!flags.global_color_table);
    assert_eq!(flags.color_resolution, 1);
    assert!(!flags.sort);
    assert_eq!(flags.color_table_size(), 2);

    let sizes = [2u32, 4, 8, 16, 32, 64, 128, 256];
    for exponent in 0u8..8 {
        assert_eq!(Flags::from(0x80 | exponent).color_table_size(), sizes[exponent as usize]);
        let descriptor = ImageDescriptor::from_tuple((0, 0, 1, 1, 0xF8 | exponent));
        assert_eq!(descriptor.color_table_size(), sizes[exponent as usize]);
        assert!(descriptor.has_local_color_table());
    }
    assert!(!ImageDescriptor::from_tuple((0, 0, 1, 1, 0x7F)).has_local_color_table());
}

#[test]
fn sub_block_chain_parsing() {
    let data = [3, 0xA1, 0xA2, 0xA3, 3, 0xB1, 0xB2, 0xB3, 0, 0x99, 0x98];
    let (rest, chain) = sub_blocks(&data).unwrap();
    // 1 + 3 + 1 + 3 + 1 = 9 bytes are consumed.
    assert_eq!(data.len() - rest.len(), 9);
    assert_eq!(rest, &[0x99, 0x98]);
    assert_eq!(chain.len(), 2);
    assert_eq!(chain[0], SubBlock(vec![0xA1, 0xA2, 0xA3]));
    assert_eq!(chain[1], SubBlock(vec![0xB1, 0xB2, 0xB3]));
}

#[test]
fn sub_block_chain_may_be_empty() {
    let (rest, chain) = sub_blocks(&[0, 7]).unwrap();
    assert!(chain.is_empty());
    assert_eq!(rest, &[7]);
}

#[test]
fn sub_block_chain_must_be_complete() {
    assert!(sub_blocks(&[]).is_none());
    assert!(sub_blocks(&[2, 1, 2]).is_none());
    assert!(sub_blocks(&[2, 1]).is_none());
    assert!(sub_blocks(&[1, 1, 3, 1, 2]).is_none());
}

#[test]
fn sub_block_reads_as_many_bytes_as_its_length() {
    let (rest, block) = sub_block(&[2, 8, 9, 10]).unwrap();
    assert_eq!(block, SubBlock(vec![8, 9]));
    assert_eq!(rest, &[10]);
    let (rest, block) = sub_block(&[0, 8]).unwrap();
    assert_eq!(block, SubBlock(vec![]));
    assert_eq!(rest, &[8]);
    assert!(sub_block(&[3, 8, 9]).is_none());
    assert!(sub_block(&[]).is_none());

    let mut long = vec![255u8];
    long.extend(std::iter::repeat(0x5A).take(255));
    long.push(0x01);
    let (rest, block) = sub_block(&long).unwrap();
    assert_eq!(block.0.len(), 255);
    assert_eq!(rest, &[0x01]);
}

#[test]
fn leaf_parsers_hand_back_what_follows() {
    assert_eq!(byte(&[7, 8, 9]), Some((&[8u8, 9][..], 7)));
    assert_eq!(byte(&[]), None);
    assert_eq!(packed_byte(&[0x91]), Some((&[0u8; 0][..], 0x91)));
    assert_eq!(constant(0x3B, &[0x3B, 1]), Some(&[1u8][..]));
    assert_eq!(constant(0x3B, &[0x3C, 1]), None);
    assert_eq!(constant(0x3B, &[]), None);
}

#[test]
fn trailer_is_enforced() {
    let whole = smallest_document();
    assert!(parse(&whole).is_ok());

    // Without the trailer.
    let missing = &whole[..whole.len() - 1];
    assert_eq!(stage_of(parse(missing)), "failed to parse global color table or blocks");

    // With bytes behind it.
    let extras: [&[u8]; 3] = [&[0x00], &[0x3B], &[0x21, 0xFE, 0x00, 0x3B]];
    for extra in extras {
        let mut longer = whole.clone();
        longer.extend_from_slice(extra);
        assert_eq!(stage_of(parse(&longer)), "failed to parse global color table or blocks");
    }

    let (rest, parsed) = blocks(&[0x3B, 0x3B]).unwrap();
    assert!(parsed.is_empty());
    assert_eq!(rest, &[0x3B]);
    assert!(blocks(&[]).is_none());
    assert!(blocks(&[0x21, 0xFE, 0x00]).is_none());
}

#[test]
fn screen_descriptor_is_seven_bytes() {
    let (rest, lsd) = logical_screen_descriptor(&[0x34, 0x12, 0xFF, 0xFF, 0x91, 0x02, 0x31, 0xEE])
        .unwrap();
    assert_eq!(rest, &[0xEE]);
    assert_eq!(lsd.canvas_width, 0x1234);
    assert_eq!(lsd.canvas_height, 0xFFFF);
    assert_eq!(lsd.flags, Flags::from(0x91));
    assert_eq!(lsd.background_color_idx, 2);
    assert_eq!(lsd.pixel_aspect_ratio, 0x31);
    assert_eq!(lsd, LogicalScreenDescriptor::from_tuple((0x1234, 0xFFFF, 0x91, 2, 0x31)));
    assert!(logical_screen_descriptor(&[1, 0, 1, 0, 0, 0]).is_none());

    for cut in 6..13 {
        let whole = smallest_document();
        assert_eq!(
            stage_of(parse(&whole[..cut])),
            "failed to parse logical screen descriptor"
        );
    }
}

#[test]
fn color_tables_hold_as_many_entries_as_declared() {
    let data = [1, 2, 3, 4, 5, 6, 7, 8, 9, 10];
    let (rest, table) = global_color_table(&data, 3).unwrap();
    assert_eq!(rest, &[10]);
    assert_eq!(
        table.colors,
        vec![
            Color { r: 1, g: 2, b: 3 },
            Color { r: 4, g: 5, b: 6 },
            Color { r: 7, g: 8, b: 9 }
        ]
    );
    assert!(global_color_table(&data, 4).is_none());
    let (rest, table) = local_color_table(&data, 0).unwrap();
    assert_eq!(rest.len(), 10);
    assert!(table.colors.is_empty());
    assert_eq!(color(&[9, 8, 7, 6]), Some((&[6u8][..], Color::from_triple((9, 8, 7)))));
    assert_eq!(color(&[9, 8]), None);
}

#[test]
fn global_color_table_follows_the_flags() {
    let mut bytes = b"GIF89a".to_vec();
    bytes.extend_from_slice(&[0x02, 0x00, 0x03, 0x00, 0x81, 0x01, 0x00]);
    bytes.extend_from_slice(&[0x10, 0x11, 0x12, 0x20, 0x21, 0x22]);
    bytes.extend_from_slice(&[0x30, 0x31, 0x32, 0x40, 0x41, 0x42]);
    bytes.push(0x3B);
    let gif = parse(&bytes).unwrap();
    assert_eq!(gif.lsd.canvas_width, 2);
    assert_eq!(gif.lsd.canvas_height, 3);
    let table = gif.gct.unwrap();
    assert_eq!(table.colors.len(), 4);
    assert_eq!(table.colors[0], Color { r: 0x10, g: 0x11, b: 0x12 });
    assert_eq!(table.colors[3], Color { r: 0x40, g: 0x41, b: 0x42 });

    // One entry short: the trailer is read as a color and no block follows.
    let mut short = bytes.clone();
    short.remove(13);
    assert_eq!(stage_of(parse(&short)), "failed to parse global color table or blocks");
}

#[test]
fn image_descriptor_reads_little_endian_numbers() {
    let data = [0x2C, 0x01, 0x02, 0x03, 0x04, 0x0A, 0x00, 0xFF, 0xFF, 0x87, 0x55];
    let (rest, descriptor) = image_descriptor(&data).unwrap();
    assert_eq!(rest, &[0x55]);
    assert_eq!(
        descriptor,
        ImageDescriptor { left: 0x0201, top: 0x0403, width: 10, height: 0xFFFF, packed_byte: 0x87 }
    );
    assert!(image_descriptor(&data[..9]).is_none());
    assert!(image_descriptor(&[0x2D, 0, 0, 0, 0, 1, 0, 1, 0, 0]).is_none());
}

#[test]
fn graphic_control_extension_keeps_its_fields() {
    let data = [0x21, 0xF9, 0x04, 0x09, 0x64, 0x01, 0x07, 0x00, 0x2C];
    let (rest, gce) = graphic_control_extension(&data).unwrap();
    assert_eq!(rest, &[0x2C]);
    assert_eq!(gce, GraphicControlExtension::from_tuple((4, 9, 0x0164, 7)));
    assert_eq!(gce.delay_time, 356);
    // The terminator must be zero, and present.
    assert!(graphic_control_extension(&[0x21, 0xF9, 0x04, 0x09, 0x64, 0x01, 0x07, 0x01]).is_none());
    assert!(graphic_control_extension(&data[..7]).is_none());
    assert!(graphic_control_extension(&[0x21, 0xFE, 0x04, 0, 0, 0, 0, 0]).is_none());
}

#[test]
fn plain_text_and_comment_extensions_are_skipped() {
    let data = [0x21, 0x01, 0x02, 0xAA, 0xBB, 0x01, 0x41, 0x00, 0x3B];
    let (rest, _) = plain_text_extension(&data).unwrap();
    assert_eq!(rest, &[0x3B]);
    assert!(plain_text_extension(&[0x21, 0x01, 0x03, 0xAA, 0xBB]).is_none());
    assert!(plain_text_extension(&[0x21, 0x01, 0x00]).is_none());

    let data = [0x21, 0xFE, 0x02, 0x68, 0x69, 0x00, 0x3B];
    let (rest, _) = comment_extension(&data).unwrap();
    assert_eq!(rest, &[0x3B]);
    assert!(comment_extension(&[0x21, 0xFE, 0x02, 0x68]).is_none());
    assert!(comment_extension(&[0x21, 0xFF, 0x00]).is_none());
}

#[test]
fn blocks_are_recognized_in_order() {
    let mut bytes = b"GIF89a".to_vec();
    bytes.extend_from_slice(&[0x01, 0x00, 0x01, 0x00, 0x00, 0x00, 0x00]);
    // A comment.
    bytes.extend_from_slice(&[0x21, 0xFE, 0x01, 0x21, 0x00]);
    // The application extension.
    bytes.extend_from_slice(b"\x21\xFF\x0BNETSCAPE2.0\x03\x01\x00\x00\x00");
    // A graphic control extension and its image, with a local color table.
    bytes.extend_from_slice(&[0x21, 0xF9, 0x04, 0x00, 0x0A, 0x00, 0x00, 0x00]);
    bytes.extend_from_slice(&[0x2C, 0x00, 0x00, 0x00, 0x00, 0x01, 0x00, 0x01, 0x00, 0x80]);
    bytes.extend_from_slice(&[0x11, 0x22, 0x33, 0x44, 0x55, 0x66]);
    bytes.extend_from_slice(&[0x02, 0x01, 0x28, 0x00]);
    // A plain-text extension without a graphic control extension.
    bytes.extend_from_slice(&[0x21, 0x01, 0x01, 0xEE, 0x01, 0x41, 0x00]);
    bytes.push(0x3B);

    let gif = parse(&bytes).unwrap();
    assert_eq!(gif.blocks.len(), 4);
    assert!(matches!(gif.blocks[0], Block::CommentExtension(_)));
    match &gif.blocks[1] {
        Block::ApplicationExtension(ApplicationExtension::NetScape(netscape)) => {
            assert_eq!(netscape.sub_blocks, vec![SubBlock(vec![1, 0, 0])]);
        },
        other => panic!("not an application extension: {:?}", other),
    }
    match &gif.blocks[2] {
        Block::Image(image_block) => {
            assert_eq!(image_block.gce, Some(GraphicControlExtension::from_tuple((4, 0, 10, 0))));
            match &image_block.content {
                ImageContent::Image(image) => {
                    assert_eq!(image.descriptor.width, 1);
                    assert_eq!(image.descriptor.height, 1);
                    assert_eq!(image.lct.as_ref().unwrap().colors.len(), 2);
                    assert_eq!(image.data.lzw_min_code_size, 2);
                    assert_eq!(image.data.sub_blocks, vec![SubBlock(vec![0x28])]);
                },
                other => panic!("not a pixel image: {:?}", other),
            }
        },
        other => panic!("not an image block: {:?}", other),
    }
    match &gif.blocks[3] {
        Block::Image(image_block) => {
            assert!(image_block.gce.is_none());
            assert!(matches!(image_block.content, ImageContent::PlainText(_)));
        },
        other => panic!("not an image block: {:?}", other),
    }
}

#[test]
fn unrecognized_blocks_fail_the_parse() {
    let unrecognized: [&[u8]; 5] = [
        &[0x21, 0xFF, 0x0B, 0x58, 0x4D, 0x50, 0x00],
        &[0x21, 0xAB, 0x00],
        &[0x00],
        &[0x21, 0xF9, 0x04, 0x00, 0x0A, 0x00, 0x00, 0x00],
        &[0x2C, 0x00, 0x00, 0x00, 0x00, 0x01, 0x00, 0x01, 0x00, 0x00, 0x02],
    ];
    for block in unrecognized {
        let mut bytes = b"GIF89a".to_vec();
        bytes.extend_from_slice(&[0x01, 0x00, 0x01, 0x00, 0x00, 0x00, 0x00]);
        bytes.extend_from_slice(block);
        bytes.push(0x3B);
        assert_eq!(stage_of(parse(&bytes)), "failed to parse global color table or blocks");
    }
}

#[test]
fn colors_are_written_as_hex() {
    assert_eq!(Color { r: 0, g: 0, b: 0 }.as_hex(), "#000000");
    assert_eq!(Color { r: 0xFF, g: 0xA0, b: 0x0B }.as_hex(), "#ffa00b");
    assert_eq!(Color::from_triple((0x12, 0x9C, 0xDE)).as_hex(), "#129cde");
}
