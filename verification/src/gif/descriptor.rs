use vstd::arithmetic::power2::{lemma2_to64, lemma_pow2_strictly_increases, pow2};
use vstd::bits::lemma_u32_shl_is_mul;
use vstd::prelude::*;
use vstd::std_specs::convert::FromSpecImpl;

verus! {

/// The packed byte of the logical screen descriptor, with its fields decoded.
#[derive(Debug, Clone, Copy, PartialEq)]
pub struct Flags {
    pub raw: u8,
    pub global_color_table: bool,
    pub color_resolution: u8,
    pub sort: bool,
    /// Actual size computed as 2 ^ (n + 1)
    pub color_table_size: u8,
}

/// Bit 7 of a packed byte: whether a color table follows.
pub open spec fn spec_has_table(packed: u8) -> bool {
    packed >= 128
}

/// Bits 2 to 0 of a packed byte: one less than the base-2 logarithm of the
/// number of entries of the color table.
pub open spec fn spec_size_exponent(packed: u8) -> nat {
    (packed % 8) as nat
}

/// The number of entries of the color table that a packed byte declares:
/// 2 to the power of the size exponent plus one, between 2 and 256.
pub open spec fn spec_table_size(packed: u8) -> nat {
    pow2(spec_size_exponent(packed) + 1)
}

/// Bits 6 to 4 of a packed byte, plus one.
pub open spec fn spec_color_resolution(packed: u8) -> nat {
    ((packed / 16) % 8 + 1) as nat
}

/// Bit 3 of a packed byte.
pub open spec fn spec_sort(packed: u8) -> bool {
    (packed / 8) % 2 == 1
}

/// The size exponent selects one of eight sizes.
pub proof fn lemma_table_size_values(packed: u8)
    ensures
        spec_table_size(packed) == if packed % 8 == 0 {
            2nat
        } else if packed % 8 == 1 {
            4
        } else if packed % 8 == 2 {
            8
        } else if packed % 8 == 3 {
            16
        } else if packed % 8 == 4 {
            32
        } else if packed % 8 == 5 {
            64
        } else if packed % 8 == 6 {
            128
        } else {
            256
        },
        2 <= spec_table_size(packed) <= 256,
{
    lemma2_to64();
}

fn table_size_of(exponent: u8) -> (size: u32)
    requires
        exponent <= 30,
    ensures
        size == pow2(exponent as nat + 1),
{
    let shift: u32 = exponent as u32 + 1;
    proof {
        lemma2_to64();
        lemma_pow2_strictly_increases(shift as nat, 32);
        lemma_u32_shl_is_mul(1u32, shift);
    }
    1u32 << shift
}

impl Flags {
    /// The flags that a packed byte decodes to.
    pub open spec fn spec_from(raw: u8) -> Flags {
        Flags {
            raw,
            global_color_table: spec_has_table(raw),
            color_resolution: spec_color_resolution(raw) as u8,
            sort: spec_sort(raw),
            color_table_size: spec_size_exponent(raw) as u8,
        }
    }

    /// The decoded fields agree with the raw byte that the value holds.
    pub open spec fn wf(&self) -> bool {
        *self == Flags::spec_from(self.raw)
    }

    /// The number of entries of the color table that the flags declare:
    /// 2 to the power of the stored exponent plus one.
    pub open spec fn spec_color_table_size(&self) -> nat {
        pow2(self.color_table_size as nat + 1)
    }

    /// Returns 2-256 for flags decoded from a byte. The stored exponent
    /// must leave the size within 32 bits.
    pub fn color_table_size(&self) -> (size: u32)
        requires
            self.color_table_size <= 30,
        ensures
            size == self.spec_color_table_size(),
            self.wf() ==> size == spec_table_size(self.raw) && 2 <= size <= 256,
    {
        proof {
            lemma_table_size_values(self.raw);
        }
        table_size_of(self.color_table_size)
    }
}

impl From<u8> for Flags {
    fn from(value: u8) -> (flags: Flags) {
        assert((value & 0b1000_0000) != 0 <==> value >= 128) by (bit_vector);
        assert(((value & 0b0111_0000) >> 4) == (value / 16) % 8) by (bit_vector);
        assert((value & 0b0000_1000) != 0 <==> (value / 8) % 2 == 1) by (bit_vector);
        assert((value & 0b0000_0111) == value % 8) by (bit_vector);
        Flags {
            raw: value,
            global_color_table: (value & 0b1000_0000) != 0,
            color_resolution: ((value & 0b0111_0000) >> 4) + 1,
            sort: (value & 0b0000_1000) != 0,
            color_table_size: (value & 0b0000_0111),
        }
    }
}

impl FromSpecImpl<u8> for Flags {
    open spec fn obeys_from_spec() -> bool {
        true
    }

    open spec fn from_spec(value: u8) -> Flags {
        Flags::spec_from(value)
    }
}

/// The canvas that the images of a document are placed on.
#[derive(Debug, Clone, Copy, PartialEq)]
pub struct LogicalScreenDescriptor {
    pub canvas_width: u16,
    pub canvas_height: u16,
    pub flags: Flags,
    /// Should be set if image has global color table
    pub background_color_idx: u8,
    pub pixel_aspect_ratio: u8,
}

impl LogicalScreenDescriptor {
    /// The descriptor with the given fields, the packed byte decoded.
    pub open spec fn spec_from_tuple(parts: (u16, u16, u8, u8, u8)) -> LogicalScreenDescriptor {
        LogicalScreenDescriptor {
            canvas_width: parts.0,
            canvas_height: parts.1,
            flags: Flags::spec_from(parts.2),
            background_color_idx: parts.3,
            pixel_aspect_ratio: parts.4,
        }
    }

    /// The descriptor with the given fields, the packed byte decoded.
    pub fn from_tuple(parts: (u16, u16, u8, u8, u8)) -> (lsd: Self)
        ensures
            lsd == Self::spec_from_tuple(parts),
    {
        let (canvas_width, canvas_height, packed_byte, background_color_idx, pixel_aspect_ratio) =
            parts;
        Self {
            canvas_width,
            canvas_height,
            flags: Flags::from(packed_byte),
            background_color_idx,
            pixel_aspect_ratio,
        }
    }
}

/// Where one image lies on the canvas, and whether it brings its own color
/// table.
#[derive(Debug, Clone, Copy, PartialEq, Eq, Structural)]
pub struct ImageDescriptor {
    pub left: u16,
    pub top: u16,
    pub width: u16,
    pub height: u16,
    pub packed_byte: u8,
}

impl ImageDescriptor {
    /// Whether a local color table follows the descriptor.
    pub fn has_local_color_table(&self) -> (present: bool)
        ensures
            present == spec_has_table(self.packed_byte),
    {
        let packed = self.packed_byte;
        assert((packed & 0b1000_0000) != 0 <==> packed >= 128) by (bit_vector);
        (self.packed_byte & 0b1000_0000) != 0
    }

    /// The number of entries of the local color table, where there is one.
    pub fn color_table_size(&self) -> (size: u32)
        ensures
            size == spec_table_size(self.packed_byte),
            2 <= size <= 256,
    {
        let packed = self.packed_byte;
        assert((packed & 0b0000_0111) == packed % 8) by (bit_vector);
        proof {
            lemma_table_size_values(packed);
        }
        table_size_of(self.packed_byte & 0b0000_0111)
    }

    /// The number of pixels of the image: width times height.
    pub open spec fn area(&self) -> nat {
        (self.width as nat) * (self.height as nat)
    }

    /// The descriptor with the given left, top, width, height and packed byte.
    pub fn from_tuple(parts: (u16, u16, u16, u16, u8)) -> (d: Self)
        ensures
            d == (ImageDescriptor {
                left: parts.0,
                top: parts.1,
                width: parts.2,
                height: parts.3,
                packed_byte: parts.4,
            }),
    {
        let (left, top, width, height, packed_byte) = parts;
        Self { left, top, width, height, packed_byte }
    }
}

} // verus!
