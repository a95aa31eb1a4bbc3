use vstd::prelude::*;

verus! {

/// The version tag of a document. Only `89a` is recognized.
#[derive(Debug, Clone, Copy, PartialEq, Eq, Structural)]
pub enum GifVersion {
    V89a,
}

/// The byte `0x3B` that ends a document.
#[derive(Debug, Clone, Copy, PartialEq, Eq, Structural)]
pub struct Trailer;

/// A length-prefixed chunk of at most 255 payload bytes.
#[derive(Debug, Clone, PartialEq)]
pub struct SubBlock(pub Vec<u8>);

impl View for SubBlock {
    type V = Seq<u8>;

    open spec fn view(&self) -> Seq<u8> {
        self.0@
    }
}

/// The payloads of a chain of sub-blocks, in chain order.
pub open spec fn sub_blocks_view(blocks: Seq<SubBlock>) -> Seq<Seq<u8>> {
    Seq::new(blocks.len(), |i: int| blocks[i]@)
}

/// The compressed pixel data of one image.
#[derive(Debug, Clone, PartialEq)]
pub struct ImageData {
    pub lzw_min_code_size: u8,
    pub sub_blocks: Vec<SubBlock>,
}

/// What an [`ImageData`] holds: the minimum code size and the payload of
/// each sub-block.
pub struct ImageDataView {
    pub lzw_min_code_size: u8,
    pub sub_blocks: Seq<Seq<u8>>,
}

impl View for ImageData {
    type V = ImageDataView;

    open spec fn view(&self) -> ImageDataView {
        ImageDataView {
            lzw_min_code_size: self.lzw_min_code_size,
            sub_blocks: sub_blocks_view(self.sub_blocks@),
        }
    }
}

impl ImageData {
    /// The data with the given minimum code size and sub-blocks.
    pub fn from_tuple(parts: (u8, Vec<SubBlock>)) -> (data: Self)
        ensures
            data.lzw_min_code_size == parts.0,
            data.sub_blocks == parts.1,
    {
        let (lzw_min_code_size, sub_blocks) = parts;
        Self { lzw_min_code_size, sub_blocks }
    }
}

/// One entry of a color table.
#[derive(Debug, Clone, Copy, PartialEq, Eq, Structural)]
pub struct Color {
    pub r: u8,
    pub g: u8,
    pub b: u8,
}

/// The lower-case hexadecimal digit of a value below 16.
pub open spec fn spec_hex_digit(n: int) -> char {
    if n == 0 {
        '0'
    } else if n == 1 {
        '1'
    } else if n == 2 {
        '2'
    } else if n == 3 {
        '3'
    } else if n == 4 {
        '4'
    } else if n == 5 {
        '5'
    } else if n == 6 {
        '6'
    } else if n == 7 {
        '7'
    } else if n == 8 {
        '8'
    } else if n == 9 {
        '9'
    } else if n == 10 {
        'a'
    } else if n == 11 {
        'b'
    } else if n == 12 {
        'c'
    } else if n == 13 {
        'd'
    } else if n == 14 {
        'e'
    } else {
        'f'
    }
}

/// The two hexadecimal digits of a byte, high digit first.
pub open spec fn spec_hex_byte(b: u8) -> Seq<char> {
    seq![spec_hex_digit(b as int / 16), spec_hex_digit(b as int % 16)]
}

/// `#rrggbb`, in lower case.
pub open spec fn spec_as_hex(c: Color) -> Seq<char> {
    seq!['#'] + spec_hex_byte(c.r) + spec_hex_byte(c.g) + spec_hex_byte(c.b)
}

fn hex_digit(n: u8) -> (s: &'static str)
    requires
        n < 16,
    ensures
        s@ == seq![spec_hex_digit(n as int)],
{
    proof {
        reveal_strlit("0");
        reveal_strlit("1");
        reveal_strlit("2");
        reveal_strlit("3");
        reveal_strlit("4");
        reveal_strlit("5");
        reveal_strlit("6");
        reveal_strlit("7");
        reveal_strlit("8");
        reveal_strlit("9");
        reveal_strlit("a");
        reveal_strlit("b");
        reveal_strlit("c");
        reveal_strlit("d");
        reveal_strlit("e");
        reveal_strlit("f");
    }
    let s = match n {
        0 => "0",
        1 => "1",
        2 => "2",
        3 => "3",
        4 => "4",
        5 => "5",
        6 => "6",
        7 => "7",
        8 => "8",
        9 => "9",
        10 => "a",
        11 => "b",
        12 => "c",
        13 => "d",
        14 => "e",
        _ => "f",
    };
    assert(s@ =~= seq![spec_hex_digit(n as int)]);
    s
}

fn push_hex_byte(out: &mut String, b: u8)
    ensures
        final(out)@ == old(out)@ + spec_hex_byte(b),
{
    out.append(hex_digit(b / 16));
    out.append(hex_digit(b % 16));
    assert(out@ =~= old(out)@ + spec_hex_byte(b));
}

impl Color {
    /// The color written as `#rrggbb`.
    pub fn as_hex(&self) -> (s: String)
        ensures
            s@ == spec_as_hex(*self),
    {
        proof {
            reveal_strlit("#");
        }
        let mut s = String::from_str("#");
        assert(s@ =~= seq!['#']);
        push_hex_byte(&mut s, self.r);
        push_hex_byte(&mut s, self.g);
        push_hex_byte(&mut s, self.b);
        s
    }

    /// The color with the given red, green and blue.
    pub fn from_triple(rgb: (u8, u8, u8)) -> (c: Self)
        ensures
            c == (Color { r: rgb.0, g: rgb.1, b: rgb.2 }),
    {
        let (r, g, b) = rgb;
        Self { r, g, b }
    }
}

} // verus!
