//! LZW decompression of the code stream of an image.

use super::code_stream::{spec_code, CodeStream};
use super::DecodeError;
use crate::gif::data::ImageDataView;
use crate::gif::descriptor::ImageDescriptor;
use crate::gif::table::ColorTable;
use crate::gif::{Color, Frame, ImageData};
use vstd::arithmetic::power2::{lemma2_to64, lemma_pow2_pos, lemma_pow2_strictly_increases, pow2};
use vstd::bits::lemma_u16_shl_is_mul;
use vstd::prelude::*;
use vstd::slice::slice_to_vec;

verus! {

/// The widest code, in bits.
pub const MAX_CODE_WIDTH: u16 = 12;

/// The number of codes that a code of the greatest width can tell apart.
pub const MAX_CODES: usize = 4096;

/// The code that resets the dictionary, for the minimum code size `n`.
pub open spec fn clear_code(n: nat) -> nat {
    pow2(n)
}

/// The code that ends the stream of an image.
pub open spec fn end_code(n: nat) -> nat {
    pow2(n) + 1
}

/// The first code that the dictionary can assign.
pub open spec fn first_free(n: nat) -> nat {
    pow2(n) + 2
}

/// What the decompressor knows between two codes.
pub struct LzwState {
    /// The width in bits of the next code.
    pub width: nat,
    /// The strings that the dictionary has assigned, in the order of their
    /// codes, the first of which is `first_free`.
    pub table: Seq<Seq<u16>>,
    /// The string of the code before, if the next code has a predecessor.
    pub prev: Option<Seq<u16>>,
    /// The indices put out so far.
    pub out: Seq<u16>,
}

/// What one code does to the decompressor.
pub enum LzwStep {
    /// The code is taken, and the decompressor goes on in the given state.
    Next(LzwState),
    /// The code is the end of the information.
    End,
    /// The code refers to nothing that the dictionary has assigned.
    Invalid,
}

/// The state before the first code: only the literal codes, codes of
/// `n + 1` bits, no predecessor.
pub open spec fn lzw_start(n: nat) -> LzwState {
    LzwState { width: n + 1, table: Seq::empty(), prev: None, out: Seq::empty() }
}

/// The state after a clear code: as at the start, but for what was put out.
pub open spec fn lzw_reset(n: nat, st: LzwState) -> LzwState {
    LzwState { width: n + 1, table: Seq::empty(), prev: None, out: st.out }
}

/// The string bound to a code: the code itself for a literal, the string
/// assigned to it for a code of the dictionary, and none for the two
/// reserved codes and for a code not assigned yet.
pub open spec fn lzw_entry(n: nat, table: Seq<Seq<u16>>, code: nat) -> Option<Seq<u16>> {
    if code < clear_code(n) {
        Some(seq![code as u16])
    } else if first_free(n) <= code < first_free(n) + table.len() {
        Some(table[code - first_free(n)])
    } else {
        None
    }
}

/// The width of the codes once the dictionary holds `len` strings: one bit
/// more than `width` where the next code to assign is beyond what `width`
/// bits can say, but never more than twelve.
pub open spec fn lzw_width(n: nat, width: nat, len: nat) -> nat {
    if first_free(n) + len > pow2(width) - 1 && width < MAX_CODE_WIDTH {
        width + 1
    } else {
        width
    }
}

/// The state after the string `s` was put out and, where the dictionary is
/// not full, `added` was assigned to the next code.
pub open spec fn lzw_emit(n: nat, st: LzwState, s: Seq<u16>, added: Seq<u16>) -> LzwState {
    if first_free(n) + st.table.len() < MAX_CODES {
        LzwState {
            width: lzw_width(n, st.width, st.table.len() + 1),
            table: st.table.push(added),
            prev: Some(s),
            out: st.out + s,
        }
    } else {
        LzwState { width: st.width, table: st.table, prev: Some(s), out: st.out + s }
    }
}

/// What the code `code` does in the state `st`.
///
/// A clear code resets, the end code ends. A code without a predecessor
/// must be bound to a string, which is put out, and assigns nothing. A
/// code with the predecessor `p` that is the next code to assign puts out
/// `p` followed by the first index of `p` and is assigned that string;
/// any other code must be bound to a string `s`, which is put out, and the
/// next code is assigned `p` followed by the first index of `s`.
pub open spec fn lzw_step(n: nat, st: LzwState, code: nat) -> LzwStep {
    if code == clear_code(n) {
        LzwStep::Next(lzw_reset(n, st))
    } else if code == end_code(n) {
        LzwStep::End
    } else {
        match st.prev {
            None => match lzw_entry(n, st.table, code) {
                Some(s) => LzwStep::Next(
                    LzwState { width: st.width, table: st.table, prev: Some(s), out: st.out + s },
                ),
                None => LzwStep::Invalid,
            },
            Some(p) => if code == first_free(n) + st.table.len() && code < MAX_CODES {
                LzwStep::Next(lzw_emit(n, st, p.push(p[0]), p.push(p[0])))
            } else {
                match lzw_entry(n, st.table, code) {
                    Some(s) => LzwStep::Next(lzw_emit(n, st, s, p.push(s[0]))),
                    None => LzwStep::Invalid,
                }
            },
        }
    }
}

/// The indices that the codes from bit `pos` on decompress to, begun in
/// the state `st`: none where the stream ends before the end code or where
/// a code is invalid. Decompression stops on the end code: the bits that
/// fill up its byte, and whatever else follows it, are not read.
pub open spec fn lzw_run(n: nat, data: Seq<u8>, pos: nat, st: LzwState) -> Option<Seq<u16>>
    decreases 8 * data.len() - pos,
{
    match spec_code(data, pos, st.width) {
        None => None,
        Some(code) => match lzw_step(n, st, code) {
            LzwStep::Invalid => None,
            LzwStep::End => Some(st.out),
            LzwStep::Next(next) => if st.width > 0 {
                lzw_run(n, data, pos + st.width, next)
            } else {
                None
            },
        },
    }
}

/// The indices that the data of an image decompresses to. The minimum
/// code size must leave the first codes between 2 and 12 bits wide.
pub open spec fn spec_lzw_indices(data: ImageDataView) -> Option<Seq<u16>> {
    let n = data.lzw_min_code_size as nat;
    if 1 <= n < MAX_CODE_WIDTH {
        lzw_run(n, data.sub_blocks.flatten(), 0, lzw_start(n))
    } else {
        None
    }
}

/// The state is one that decompression can reach: the codes are between
/// `n + 1` and 12 bits wide, the dictionary holds no more than 4096 codes,
/// and no string is empty.
pub open spec fn lzw_wf(n: nat, st: LzwState) -> bool {
    &&& 1 <= n < MAX_CODE_WIDTH
    &&& n + 1 <= st.width <= MAX_CODE_WIDTH
    &&& first_free(n) + st.table.len() <= MAX_CODES
    &&& forall|i: int| 0 <= i < st.table.len() ==> (#[trigger] st.table[i]).len() >= 1
    &&& match st.prev {
        Some(p) => p.len() >= 1,
        None => true,
    }
}

/// A clear code in the middle of a stream puts the width back to `n + 1`
/// and empties the dictionary, and the code after it, which can only be a
/// literal, is put out as it is and assigns nothing.
pub proof fn lemma_clear_resets(n: nat, st: LzwState, literal: nat)
    requires
        lzw_wf(n, st),
        literal < clear_code(n),
    ensures
        lzw_step(n, st, clear_code(n)) == LzwStep::Next(lzw_reset(n, st)),
        lzw_reset(n, st).width == n + 1,
        lzw_reset(n, st).table.len() == 0,
        lzw_reset(n, st).out == st.out,
        lzw_step(n, lzw_reset(n, st), literal) == LzwStep::Next(
            LzwState {
                width: n + 1,
                table: Seq::empty(),
                prev: Some(seq![literal as u16]),
                out: st.out.push(literal as u16),
            },
        ),
        forall|code: nat|
            code > end_code(n) ==> lzw_step(n, lzw_reset(n, st), code) == LzwStep::Invalid,
{
    assert(st.out + seq![literal as u16] =~= st.out.push(literal as u16));
}

/// Every step leads from a reachable state to a reachable state, and
/// never takes back what was put out.
pub proof fn lemma_step_wf(n: nat, st: LzwState, code: nat)
    requires
        lzw_wf(n, st),
    ensures
        lzw_step(n, st, code) matches LzwStep::Next(next) ==> lzw_wf(n, next)
            && st.out.is_prefix_of(next.out),
{
    lemma2_to64();
    lemma_pow2_pos(n);
    match lzw_step(n, st, code) {
        LzwStep::Next(next) => {
            assert(st.out.is_prefix_of(next.out)) by {
                if code != clear_code(n) {
                    assert(next.out.len() >= st.out.len());
                    assert(next.out.subrange(0, st.out.len() as int) =~= st.out);
                }
            }
        },
        _ => {},
    }
}

/// The strings of a dictionary as sequences.
pub open spec fn strings_view(table: Seq<Vec<u16>>) -> Seq<Seq<u16>> {
    Seq::new(table.len(), |i: int| table[i]@)
}

/// What became of a code that was handed to the decompressor.
#[derive(Debug, Clone, Copy, PartialEq, Eq, Structural)]
pub enum CodeOutcome {
    /// The code was taken; more codes are expected.
    Taken,
    /// The code was the end of the information.
    End,
    /// The code refers to nothing that the dictionary has assigned.
    Invalid,
}

/// The decompressor of the data of one image: the dictionary, the width of
/// the next code, and the indices put out so far.
pub struct LzwDecoder {
    min_code_size: u8,
    width: u16,
    table: Vec<Vec<u16>>,
    prev: Option<Vec<u16>>,
    out: Vec<u16>,
}

fn power_of_two(exponent: u16) -> (p: u16)
    requires
        exponent <= MAX_CODE_WIDTH,
    ensures
        p == pow2(exponent as nat),
        1 <= p <= MAX_CODES,
{
    proof {
        lemma2_to64();
        lemma_pow2_pos(exponent as nat);
        if exponent < 12 {
            lemma_pow2_strictly_increases(exponent as nat, 12);
        }
        lemma_u16_shl_is_mul(1u16, exponent);
    }
    1u16 << exponent
}

fn copy_string(s: &Vec<u16>) -> (copy: Vec<u16>)
    ensures
        copy@ == s@,
{
    slice_to_vec(s.as_slice())
}

fn put_out(out: &mut Vec<u16>, s: &Vec<u16>)
    ensures
        final(out)@ == old(out)@ + s@,
{
    let mut i: usize = 0;
    assert(out@ =~= old(out)@ + s@.take(0));
    while i < s.len()
        invariant
            i <= s@.len(),
            out@ == old(out)@ + s@.take(i as int),
        decreases s@.len() - i,
    {
        out.push(s[i]);
        assert(s@.take(i + 1) =~= s@.take(i as int).push(s@[i as int]));
        assert(out@ =~= old(out)@ + s@.take(i + 1));
        i = i + 1;
    }
    assert(s@.take(i as int) =~= s@);
}

impl View for LzwDecoder {
    type V = LzwState;

    closed spec fn view(&self) -> LzwState {
        LzwState {
            width: self.width as nat,
            table: strings_view(self.table@),
            prev: match self.prev {
                Some(p) => Some(p@),
                None => None,
            },
            out: self.out@,
        }
    }
}

impl LzwDecoder {
    /// The minimum code size that the decompressor was made for.
    pub closed spec fn spec_min_code_size(&self) -> nat {
        self.min_code_size as nat
    }

    /// The state is one that decompression can reach.
    pub open spec fn wf(&self) -> bool {
        lzw_wf(self.spec_min_code_size(), self@)
    }

    /// A decompressor before its first code.
    pub fn new(min_code_size: u8) -> (decoder: LzwDecoder)
        requires
            1 <= min_code_size < MAX_CODE_WIDTH,
        ensures
            decoder.wf(),
            decoder.spec_min_code_size() == min_code_size,
            decoder@ == lzw_start(min_code_size as nat),
    {
        let decoder = LzwDecoder {
            min_code_size,
            width: min_code_size as u16 + 1,
            table: Vec::new(),
            prev: None,
            out: Vec::new(),
        };
        proof {
            lemma2_to64();
            lemma_pow2_strictly_increases(min_code_size as nat, 12);
            assert(strings_view(decoder.table@) =~= Seq::<Seq<u16>>::empty());
        }
        decoder
    }

    /// The width in bits of the next code.
    pub fn code_width(&self) -> (width: u16)
        requires
            self.wf(),
        ensures
            width == self@.width,
            2 <= width <= MAX_CODE_WIDTH,
    {
        self.width
    }

    /// The number of strings that the dictionary has assigned.
    pub fn assigned(&self) -> (len: usize)
        ensures
            len == self@.table.len(),
    {
        self.table.len()
    }

    /// The number of indices put out so far.
    pub fn produced(&self) -> (len: usize)
        ensures
            len == self@.out.len(),
    {
        self.out.len()
    }

    /// The indices put out so far.
    pub fn into_indices(self) -> (out: Vec<u16>)
        ensures
            out@ == self@.out,
    {
        self.out
    }

    fn entry(&self, code: u16) -> (s: Option<Vec<u16>>)
        requires
            self.wf(),
        ensures
            match s {
                Some(v) => lzw_entry(self.spec_min_code_size(), self@.table, code as nat) == Some(
                    v@,
                ),
                None => lzw_entry(self.spec_min_code_size(), self@.table, code as nat) is None,
            },
    {
        let clear = power_of_two(self.min_code_size as u16);
        if code < clear {
            let mut literal: Vec<u16> = Vec::new();
            literal.push(code);
            assert(literal@ =~= seq![code]);
            Some(literal)
        } else if code >= clear + 2 && ((code - (clear + 2)) as usize) < self.table.len() {
            Some(copy_string(&self.table[(code - (clear + 2)) as usize]))
        } else {
            None
        }
    }

    fn assign(&mut self, added: Vec<u16>)
        requires
            old(self).wf(),
            added@.len() >= 1,
            first_free(old(self).spec_min_code_size()) + old(self)@.table.len() < MAX_CODES,
        ensures
            final(self).spec_min_code_size() == old(self).spec_min_code_size(),
            final(self)@ == (LzwState {
                width: lzw_width(
                    old(self).spec_min_code_size(),
                    old(self)@.width,
                    old(self)@.table.len() + 1,
                ),
                table: old(self)@.table.push(added@),
                prev: old(self)@.prev,
                out: old(self)@.out,
            }),
            final(self).wf(),
    {
        let ghost before = strings_view(self.table@);
        self.table.push(added);
        assert(strings_view(self.table@) =~= before.push(added@));
        let clear = power_of_two(self.min_code_size as u16);
        let next: usize = clear as usize + 2 + self.table.len();
        if self.width < MAX_CODE_WIDTH {
            let limit = power_of_two(self.width);
            if next > limit as usize - 1 {
                self.width = self.width + 1;
            }
        }
    }

    /// Hands the next code of the stream to the decompressor.
    pub fn push_code(&mut self, code: u16) -> (outcome: CodeOutcome)
        requires
            old(self).wf(),
        ensures
            final(self).wf(),
            final(self).spec_min_code_size() == old(self).spec_min_code_size(),
            match lzw_step(old(self).spec_min_code_size(), old(self)@, code as nat) {
                LzwStep::Next(next) => outcome == CodeOutcome::Taken && final(self)@ == next,
                LzwStep::End => outcome == CodeOutcome::End && final(self)@ == old(self)@,
                LzwStep::Invalid => outcome == CodeOutcome::Invalid && final(self)@ == old(self)@,
            },
    {
        let ghost n = self.spec_min_code_size();
        let ghost st = self@;
        proof {
            lemma_step_wf(n, st, code as nat);
        }
        let clear = power_of_two(self.min_code_size as u16);
        if code == clear {
            self.table = Vec::new();
            self.width = self.min_code_size as u16 + 1;
            self.prev = None;
            assert(strings_view(self.table@) =~= Seq::<Seq<u16>>::empty());
            return CodeOutcome::Taken;
        }
        if code == clear + 1 {
            return CodeOutcome::End;
        }
        let next: usize = clear as usize + 2 + self.table.len();
        let entry = self.entry(code);
        match self.prev.take() {
            None => match entry {
                Some(s) => {
                    put_out(&mut self.out, &s);
                    self.prev = Some(s);
                    CodeOutcome::Taken
                },
                None => CodeOutcome::Invalid,
            },
            Some(p) => {
                if code as usize == next && next < MAX_CODES {
                    let mut s = p;
                    let first = s[0];
                    s.push(first);
                    put_out(&mut self.out, &s);
                    let added = copy_string(&s);
                    self.assign(added);
                    self.prev = Some(s);
                    CodeOutcome::Taken
                } else {
                    match entry {
                        Some(s) => {
                            put_out(&mut self.out, &s);
                            if next < MAX_CODES {
                                let mut added = p;
                                added.push(s[0]);
                                self.assign(added);
                            }
                            self.prev = Some(s);
                            CodeOutcome::Taken
                        },
                        None => {
                            self.prev = Some(p);
                            CodeOutcome::Invalid
                        },
                    }
                }
            },
        }
    }
}

/// What a run of codes puts out begins with what was put out before it.
pub proof fn lemma_run_extends(n: nat, data: Seq<u8>, pos: nat, st: LzwState)
    requires
        lzw_wf(n, st),
        lzw_run(n, data, pos, st) is Some,
    ensures
        st.out.is_prefix_of(lzw_run(n, data, pos, st).unwrap()),
    decreases 8 * data.len() - pos,
{
    let code = spec_code(data, pos, st.width).unwrap();
    match lzw_step(n, st, code) {
        LzwStep::Next(next) => {
            lemma_step_wf(n, st, code);
            lemma_run_extends(n, data, pos + st.width, next);
            let all = lzw_run(n, data, pos, st).unwrap();
            assert(all.subrange(0, st.out.len() as int) =~= next.out.subrange(
                0,
                st.out.len() as int,
            ));
        },
        _ => {},
    }
}

/// The indices that the data of an image decompresses to, where they are
/// no more than `limit`.
pub open spec fn spec_lzw_indices_within(data: ImageDataView, limit: Option<usize>) -> Option<
    Seq<u16>,
> {
    match spec_lzw_indices(data) {
        Some(indices) => if limit matches Some(most) && indices.len() > most {
            None
        } else {
            Some(indices)
        },
        None => None,
    }
}

/// Decompresses the data of an image into its indices.
pub fn decode_indices(data: &ImageData) -> (r: Result<Vec<u16>, DecodeError>)
    ensures
        match r {
            Ok(indices) => spec_lzw_indices(data@) == Some(indices@),
            Err(e) => spec_lzw_indices(data@) is None && e is Fail,
        },
{
    decode_indices_within(data, None)
}

/// Decompresses the data of an image into its indices, and gives up once
/// more than `limit` indices are put out.
pub fn decode_indices_within(data: &ImageData, limit: Option<usize>) -> (r: Result<
    Vec<u16>,
    DecodeError,
>)
    ensures
        match r {
            Ok(indices) => spec_lzw_indices_within(data@, limit) == Some(indices@),
            Err(e) => spec_lzw_indices_within(data@, limit) is None && e is Fail,
        },
{
    if data.lzw_min_code_size < 1 || data.lzw_min_code_size as u16 >= MAX_CODE_WIDTH {
        return Err(DecodeError::Fail);
    }
    let ghost n = data.lzw_min_code_size as nat;
    let ghost payload = data@.sub_blocks.flatten();
    let mut stream = CodeStream::new(data);
    let mut decoder = LzwDecoder::new(data.lzw_min_code_size);
    assert(stream.bit_pos() == 0);
    loop
        invariant
            stream.wf(),
            stream.data() == payload,
            decoder.wf(),
            decoder.spec_min_code_size() == n,
            n == data.lzw_min_code_size,
            payload == data@.sub_blocks.flatten(),
            spec_lzw_indices(data@) == lzw_run(n, payload, stream.bit_pos(), decoder@),
            limit matches Some(most) ==> decoder@.out.len() <= most,
        decreases 8 * payload.len() - stream.bit_pos(),
    {
        let width = decoder.code_width();
        let code = match stream.next_code(width) {
            Some(code) => code,
            None => {
                return Err(DecodeError::Fail);
            },
        };
        match decoder.push_code(code) {
            CodeOutcome::Taken => {
                if let Some(most) = limit {
                    if decoder.produced() > most {
                        proof {
                            if lzw_run(n, payload, stream.bit_pos(), decoder@) is Some {
                                lemma_run_extends(n, payload, stream.bit_pos(), decoder@);
                            }
                        }
                        return Err(DecodeError::Fail);
                    }
                }
            },
            CodeOutcome::End => {
                return Ok(decoder.into_indices());
            },
            CodeOutcome::Invalid => {
                return Err(DecodeError::Fail);
            },
        }
    }
}

/// The colors that a sequence of indices selects from a color table; none
/// where an index lies beyond the table.
pub open spec fn spec_pixels(indices: Seq<u16>, table: Seq<Color>) -> Option<Seq<Color>> {
    if forall|i: int| 0 <= i < indices.len() ==> (#[trigger] indices[i]) < table.len() {
        Some(Seq::new(indices.len(), |i: int| table[indices[i] as int]))
    } else {
        None
    }
}

/// The frame of an image: the colors that its indices select, where the
/// data decompresses to as many indices as the image has pixels.
pub open spec fn spec_frame(
    descriptor: ImageDescriptor,
    data: ImageDataView,
    table: Seq<Color>,
) -> Option<Seq<Color>> {
    match spec_lzw_indices(data) {
        Some(indices) => if indices.len() == descriptor.area() {
            spec_pixels(indices, table)
        } else {
            None
        },
        None => None,
    }
}

/// Decodes one image into the colors of its pixels, row by row.
pub fn lzw_decode(descriptor: &ImageDescriptor, data: &ImageData, color_table: &ColorTable) -> (r:
    Result<Frame, DecodeError>)
    ensures
        match r {
            Ok(frame) => spec_frame(*descriptor, data@, color_table@) == Some(frame@),
            Err(e) => spec_frame(*descriptor, data@, color_table@) is None && e is Fail,
        },
{
    assert((descriptor.width as u32) * (descriptor.height as u32) <= 0xFFFF * 0xFFFF)
        by (nonlinear_arith);
    let expected: u32 = (descriptor.width as u32) * (descriptor.height as u32);
    let indices = match decode_indices_within(data, Some(expected as usize)) {
        Ok(indices) => indices,
        Err(e) => {
            return Err(e);
        },
    };
    if indices.len() != expected as usize {
        return Err(DecodeError::Fail);
    }
    let mut pixels: Vec<Color> = Vec::new();
    let mut i: usize = 0;
    while i < indices.len()
        invariant
            i <= indices@.len(),
            pixels@.len() == i,
            spec_lzw_indices(data@) == Some(indices@),
            indices@.len() == descriptor.area(),
            forall|j: int| 0 <= j < i ==> (#[trigger] indices@[j]) < color_table@.len(),
            forall|j: int| 0 <= j < i ==> pixels@[j] == color_table@[indices@[j] as int],
        decreases indices@.len() - i,
    {
        let index = indices[i] as usize;
        if index >= color_table.colors.len() {
            assert(!(indices@[i as int] < color_table@.len()));
            return Err(DecodeError::Fail);
        }
        pixels.push(color_table.colors[index]);
        i = i + 1;
    }
    assert(pixels@ =~= spec_pixels(indices@, color_table@).unwrap());
    Ok(Frame { pixels })
}

} // verus!
