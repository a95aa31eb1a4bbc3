//! What a parser reads is decided by the bytes that it consumes: a match
//! stays as it is when more input follows. From this the document as a
//! whole takes that nothing can follow its trailer.

use super::block::extension::{
    application_signature, spec_application_extension, spec_comment_extension,
    spec_graphic_control_extension, spec_plain_text_extension,
};
use super::block::image_descriptor::spec_image_descriptor;
use super::block::{
    spec_block, spec_blocks, spec_image_block, spec_image_content, spec_image_data,
    spec_optional_graphic_control, spec_pixel_content, spec_sub_block, spec_sub_blocks, TRAILER,
};
use super::common::starts_with;
use super::gct::{spec_color_table, spec_optional_color_table};
use super::lsd::spec_logical_screen_descriptor;
use super::{signature, spec_body, spec_header, spec_parse, version_89a, ParseStage};
use crate::gif::descriptor::{spec_has_table, spec_table_size};
use crate::gif::{sub_blocks_wf, GifVersion, GifView};
use vstd::prelude::*;
use vstd::seq_lib::lemma_flatten_concat;

verus! {

/// Skipping bytes of the first of two joined sequences skips them of the
/// whole.
proof fn lemma_skip_joined(s: Seq<u8>, t: Seq<u8>, n: nat)
    requires
        n <= s.len(),
    ensures
        (s + t).skip(n as int) == s.skip(n as int) + t,
{
    assert((s + t).skip(n as int) =~= s.skip(n as int) + t);
}

/// A chain of sub-blocks ends within its input and stays as it is when
/// more input follows.
pub proof fn lemma_sub_blocks_extent(s: Seq<u8>, t: Seq<u8>)
    requires
        spec_sub_blocks(s) is Some,
    ensures
        spec_sub_blocks(s + t) == spec_sub_blocks(s),
        1 <= spec_sub_blocks(s).unwrap().1 <= s.len(),
    decreases s.len(),
{
    if s.len() >= 1 && s[0] == 0 {
    } else {
        let (payload, n) = spec_sub_block(s).unwrap();
        assert(spec_sub_block(s + t) == Some((payload, n))) by {
            assert((s + t).subrange(1, 1 + s[0]) =~= s.subrange(1, 1 + s[0]));
        }
        lemma_sub_blocks_extent(s.skip(n as int), t);
        lemma_skip_joined(s, t, n);
    }
}

/// A color table stays as it is when more input follows.
pub proof fn lemma_color_table_extent(s: Seq<u8>, t: Seq<u8>, present: bool, len: nat)
    requires
        spec_optional_color_table(s, present, len) is Some,
    ensures
        spec_optional_color_table(s + t, present, len) == spec_optional_color_table(
            s,
            present,
            len,
        ),
        spec_optional_color_table(s, present, len).unwrap().1 <= s.len(),
{
    if present {
        assert(spec_color_table(s + t, len).unwrap().0 =~= spec_color_table(s, len).unwrap().0);
    }
}

/// The data of an image stays as it is when more input follows.
pub proof fn lemma_image_data_extent(s: Seq<u8>, t: Seq<u8>)
    requires
        spec_image_data(s) is Some,
    ensures
        spec_image_data(s + t) == spec_image_data(s),
        1 <= spec_image_data(s).unwrap().1 <= s.len(),
{
    lemma_sub_blocks_extent(s.skip(1), t);
    lemma_skip_joined(s, t, 1);
}

/// A pixel image stays as it is when more input follows.
pub proof fn lemma_pixel_content_extent(s: Seq<u8>, t: Seq<u8>)
    requires
        spec_pixel_content(s) is Some,
    ensures
        spec_pixel_content(s + t) == spec_pixel_content(s),
        1 <= spec_pixel_content(s).unwrap().1 <= s.len(),
{
    let (descriptor, n1) = spec_image_descriptor(s).unwrap();
    let present = spec_has_table(descriptor.packed_byte);
    let len = spec_table_size(descriptor.packed_byte);
    assert(spec_image_descriptor(s + t) == spec_image_descriptor(s));
    lemma_color_table_extent(s.skip(n1 as int), t, present, len);
    lemma_skip_joined(s, t, n1);
    let n2 = spec_optional_color_table(s.skip(n1 as int), present, len).unwrap().1;
    lemma_image_data_extent(s.skip((n1 + n2) as int), t);
    lemma_skip_joined(s, t, n1 + n2);
}

/// A plain-text extension stays as it is when more input follows.
pub proof fn lemma_plain_text_extent(s: Seq<u8>, t: Seq<u8>)
    requires
        spec_plain_text_extension(s) is Some,
    ensures
        spec_plain_text_extension(s + t) == spec_plain_text_extension(s),
        1 <= spec_plain_text_extension(s).unwrap().1 <= s.len(),
{
    let n = (3 + s[2]) as nat;
    lemma_sub_blocks_extent(s.skip(n as int), t);
    lemma_skip_joined(s, t, n);
}

/// A comment extension stays as it is when more input follows.
pub proof fn lemma_comment_extent(s: Seq<u8>, t: Seq<u8>)
    requires
        spec_comment_extension(s) is Some,
    ensures
        spec_comment_extension(s + t) == spec_comment_extension(s),
        1 <= spec_comment_extension(s).unwrap().1 <= s.len(),
{
    lemma_sub_blocks_extent(s.skip(2), t);
    lemma_skip_joined(s, t, 2);
}

/// An application extension stays as it is when more input follows.
pub proof fn lemma_application_extent(s: Seq<u8>, t: Seq<u8>)
    requires
        spec_application_extension(s) is Some,
    ensures
        spec_application_extension(s + t) == spec_application_extension(s),
        1 <= spec_application_extension(s).unwrap().1 <= s.len(),
        s[0] == 0x21 && s[1] == 0xFF,
{
    assert(application_signature().len() == 14);
    assert((s + t).take(14) =~= s.take(14));
    assert(s[0] == s.take(14)[0] && s[1] == s.take(14)[1]);
    lemma_sub_blocks_extent(s.skip(14), t);
    lemma_skip_joined(s, t, 14);
}

/// The content of an image block stays as it is when more input follows.
pub proof fn lemma_image_content_extent(s: Seq<u8>, t: Seq<u8>)
    requires
        spec_image_content(s) is Some,
    ensures
        spec_image_content(s + t) == spec_image_content(s),
        1 <= spec_image_content(s).unwrap().1 <= s.len(),
{
    if spec_pixel_content(s) is Some {
        lemma_pixel_content_extent(s, t);
    } else {
        lemma_plain_text_extent(s, t);
        assert(spec_image_descriptor(s + t) is None);
    }
}

/// An image block stays as it is when more input follows.
pub proof fn lemma_image_block_extent(s: Seq<u8>, t: Seq<u8>)
    requires
        spec_image_block(s) is Some,
    ensures
        spec_image_block(s + t) == spec_image_block(s),
        1 <= spec_image_block(s).unwrap().1 <= s.len(),
{
    let (gce, n0) = spec_optional_graphic_control(s);
    lemma_image_content_extent(s.skip(n0 as int), t);
    lemma_skip_joined(s, t, n0);
    if spec_graphic_control_extension(s) is None {
        // The content begins like no graphic control extension.
        assert(s.skip(0) =~= s);
        if spec_pixel_content(s) is None {
            assert(spec_plain_text_extension(s) is Some);
        }
        assert(spec_graphic_control_extension(s + t) is None);
    }
}

/// A block stays as it is when more input follows.
pub proof fn lemma_block_extent(s: Seq<u8>, t: Seq<u8>)
    requires
        spec_block(s) is Some,
    ensures
        spec_block(s + t) == spec_block(s),
        1 <= spec_block(s).unwrap().1 <= s.len(),
{
    if spec_image_block(s) is Some {
        lemma_image_block_extent(s, t);
    } else {
        if spec_application_extension(s) is Some {
            lemma_application_extent(s, t);
        } else {
            lemma_comment_extent(s, t);
            assert(!starts_with(s + t, application_signature())) by {
                if starts_with(s + t, application_signature()) {
                    assert((s + t).take(14)[1] == application_signature()[1]);
                }
            }
        }
        // A block that begins like an extension of another kind is no image block.
        let u = s + t;
        assert(u[0] == 0x21 && (u[1] == 0xFF || u[1] == 0xFE));
        assert(spec_graphic_control_extension(u) is None);
        assert(u.skip(0) =~= u);
        assert(spec_image_descriptor(u) is None);
        assert(spec_plain_text_extension(u) is None);
    }
}

/// The blocks of a document end with the trailer and stay as they are when
/// more input follows.
pub proof fn lemma_blocks_extent(s: Seq<u8>, t: Seq<u8>)
    requires
        spec_blocks(s) is Some,
    ensures
        spec_blocks(s + t) == spec_blocks(s),
        1 <= spec_blocks(s).unwrap().1 <= s.len(),
        s[spec_blocks(s).unwrap().1 - 1] == TRAILER,
    decreases s.len(),
{
    if s.len() >= 1 && s[0] == TRAILER {
    } else {
        let (block, n) = spec_block(s).unwrap();
        lemma_block_extent(s, t);
        lemma_blocks_extent(s.skip(n as int), t);
        lemma_skip_joined(s, t, n);
    }
}

/// A document is held by a stream that begins with `GIF89a`, and by no
/// stream whose version bytes are any other three bytes.
pub proof fn lemma_version_enforced(input: Seq<u8>)
    ensures
        spec_parse(input) matches Ok(gif) ==> starts_with(input, signature() + version_89a())
            && gif.version == GifVersion::V89a,
        starts_with(input, signature()) && input.len() >= 6 && input.subrange(3, 6)
            != version_89a() ==> spec_parse(input) == Err::<GifView, ParseStage>(
            ParseStage::Version,
        ),
{
    if spec_parse(input) is Ok {
        assert(input.take(6) =~= signature() + version_89a()) by {
            assert(input.take(3) == signature());
            assert(input.subrange(3, 6) == version_89a());
            assert forall|i: int| 0 <= i < 6 implies input.take(6)[i] == (signature()
                + version_89a())[i] by {
                if i < 3 {
                    assert(input.take(3)[i] == input[i]);
                } else {
                    assert(input.subrange(3, 6)[i - 3] == input[i]);
                }
            }
        }
    }
}

/// A stream that holds a document ends with the trailer byte, and with
/// any bytes behind that trailer it holds no document.
pub proof fn lemma_trailer_enforced(input: Seq<u8>, extra: Seq<u8>)
    requires
        spec_parse(input) is Ok,
    ensures
        input.len() > 0 && input.last() == TRAILER,
        extra.len() > 0 ==> spec_parse(input + extra) == Err::<GifView, ParseStage>(
            ParseStage::Body,
        ),
{
    let whole = input + extra;
    let (version_bytes, n1) = spec_header(input).unwrap();
    assert(whole.take(3) =~= input.take(3));
    assert(whole.subrange(3, 6) =~= input.subrange(3, 6));
    assert(spec_header(whole) == spec_header(input));
    let (lsd, n2) = spec_logical_screen_descriptor(input.skip(6)).unwrap();
    lemma_skip_joined(input, extra, 6);
    assert(spec_logical_screen_descriptor(whole.skip(6)) == spec_logical_screen_descriptor(
        input.skip(6),
    ));
    let present = spec_has_table(lsd.flags.raw);
    let len = spec_table_size(lsd.flags.raw);
    let body = input.skip(13);
    lemma_skip_joined(input, extra, 13);
    lemma_color_table_extent(body, extra, present, len);
    let m1 = spec_optional_color_table(body, present, len).unwrap().1;
    lemma_blocks_extent(body.skip(m1 as int), extra);
    lemma_skip_joined(body, extra, m1);
    let m2 = spec_blocks(body.skip(m1 as int)).unwrap().1;
    assert(m1 + m2 == body.len());
    assert(body.skip(m1 as int)[m2 - 1] == input[input.len() - 1]);
    if extra.len() > 0 {
        assert(spec_body(body + extra, present, len) is None);
    }
}

/// A chain of sub-blocks takes one byte for each sub-block, the bytes of
/// the sub-blocks, and one byte for the terminator; and each of its
/// sub-blocks holds between 1 and 255 bytes.
pub proof fn lemma_sub_blocks_shape(s: Seq<u8>)
    requires
        spec_sub_blocks(s) is Some,
    ensures
        spec_sub_blocks(s).unwrap().1 == spec_sub_blocks(s).unwrap().0.len() + spec_sub_blocks(
            s,
        ).unwrap().0.flatten().len() + 1,
        forall|i: int|
            0 <= i < spec_sub_blocks(s).unwrap().0.len() ==> 1 <= (#[trigger] spec_sub_blocks(
                s,
            ).unwrap().0[i]).len() <= 255,
        sub_blocks_wf(spec_sub_blocks(s).unwrap().0),
    decreases s.len(),
{
    broadcast use Seq::lemma_flatten_singleton;

    if s.len() >= 1 && s[0] == 0 {
        assert(Seq::<Seq<u8>>::empty().flatten() =~= Seq::<u8>::empty());
    } else {
        let (payload, n) = spec_sub_block(s).unwrap();
        let (rest, m) = spec_sub_blocks(s.skip(n as int)).unwrap();
        lemma_sub_blocks_shape(s.skip(n as int));
        lemma_flatten_concat(seq![payload], rest);
        let blocks = seq![payload] + rest;
        assert forall|i: int| 0 <= i < blocks.len() implies 1 <= (#[trigger] blocks[i]).len()
            <= 255 by {
            if i > 0 {
                assert(blocks[i] == rest[i - 1]);
            }
        }
    }
}

/// Every block that is parsed is well formed.
pub proof fn lemma_block_shape(s: Seq<u8>)
    requires
        spec_block(s) is Some,
    ensures
        spec_block(s).unwrap().0.wf(),
{
    if spec_image_block(s) is Some {
        let (gce, n0) = spec_optional_graphic_control(s);
        let content = s.skip(n0 as int);
        if spec_pixel_content(content) is Some {
            let (descriptor, n1) = spec_image_descriptor(content).unwrap();
            let (lct, n2) = spec_optional_color_table(
                content.skip(n1 as int),
                spec_has_table(descriptor.packed_byte),
                spec_table_size(descriptor.packed_byte),
            ).unwrap();
            lemma_sub_blocks_shape(content.skip((n1 + n2) as int).skip(1));
        }
    } else if spec_application_extension(s) is Some {
        lemma_sub_blocks_shape(s.skip(14));
    }
}

/// Every block of a parsed sequence of blocks is well formed.
pub proof fn lemma_blocks_shape(s: Seq<u8>)
    requires
        spec_blocks(s) is Some,
    ensures
        forall|i: int|
            0 <= i < spec_blocks(s).unwrap().0.len() ==> (#[trigger] spec_blocks(
                s,
            ).unwrap().0[i]).wf(),
    decreases s.len(),
{
    if s.len() >= 1 && s[0] == TRAILER {
    } else {
        let (block, n) = spec_block(s).unwrap();
        let (rest, m) = spec_blocks(s.skip(n as int)).unwrap();
        lemma_block_shape(s);
        lemma_blocks_shape(s.skip(n as int));
        let blocks = seq![block] + rest;
        assert forall|i: int| 0 <= i < blocks.len() implies (#[trigger] blocks[i]).wf() by {
            if i > 0 {
                assert(blocks[i] == rest[i - 1]);
            }
        }
    }
}

/// Every document that a byte stream holds is well formed.
pub proof fn lemma_parsed_well_formed(input: Seq<u8>)
    requires
        spec_parse(input) is Ok,
    ensures
        spec_parse(input).unwrap().wf(),
{
    let (lsd, n2) = spec_logical_screen_descriptor(input.skip(6)).unwrap();
    let present = spec_has_table(lsd.flags.raw);
    let len = spec_table_size(lsd.flags.raw);
    let body = input.skip(13);
    let m1 = spec_optional_color_table(body, present, len).unwrap().1;
    lemma_blocks_shape(body.skip(m1 as int));
}

} // verus!
