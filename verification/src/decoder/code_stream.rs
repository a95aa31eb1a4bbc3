//! The code stream of an image: its bytes, a queue of bits, and the codes
//! read from them.

use crate::gif::data::{sub_blocks_view, ImageData, SubBlock};
use vstd::arithmetic::div_mod::{
    lemma_basic_div, lemma_breakdown, lemma_div_by_multiple, lemma_div_denominator,
    lemma_fundamental_div_mod, lemma_fundamental_div_mod_converse, lemma_mod_bound,
    lemma_mod_multiples_basic, lemma_multiply_divide_lt, lemma_remainder_lower, lemma_small_mod,
    lemma_truncate_middle,
};
use vstd::arithmetic::power2::{
    lemma2_to64, lemma_pow2_adds, lemma_pow2_pos, lemma_pow2_strictly_increases, pow2,
};
use vstd::bits::{lemma_u64_shl_is_mul, lemma_u64_shr_is_div};
use vstd::prelude::*;
use vstd::seq_lib::lemma_flatten_concat;

verus! {

/// A queue of at most 64 bits. Bytes enter at the back, their most
/// significant bit first; groups of bits leave at the front.
///
/// The queue is kept at the top of `buf`: its first bit is bit 63, and
/// the `64 - n_bits` low bits of `buf` are zero.
#[derive(Debug, Clone, Copy, PartialEq, Eq)]
pub struct BitBuffer {
    pub buf: u64,
    pub n_bits: u8,
}

impl Default for BitBuffer {
    fn default() -> (b: BitBuffer)
        ensures
            b.wf(),
            b.n_bits == 0,
            b.buf == 0,
            b.value() == 0,
    {
        proof {
            lemma_pow2_pos(64);
            lemma_small_mod(0, pow2(64));
            lemma_basic_div(0, pow2(64) as int);
        }
        BitBuffer { buf: 0, n_bits: 0 }
    }
}

/// A number below `pow2(n)` times `pow2(m)` is below `pow2(n + m)`, and the
/// other way round.
proof fn lemma_scaled_bound(v: nat, n: nat, m: nat)
    ensures
        pow2(n + m) == pow2(n) * pow2(m),
        v < pow2(n) <==> v * pow2(m) < pow2(n + m),
{
    lemma_pow2_adds(n, m);
    lemma_pow2_pos(m);
    let p = pow2(m) as int;
    let b = pow2(n) as int;
    let vi = v as int;
    assert(vi < b <==> vi * p < b * p) by (nonlinear_arith)
        requires
            p > 0,
    ;
}

/// The number that a sequence of bytes spells, the first byte being the
/// most significant.
pub open spec fn be_value(bytes: Seq<u8>) -> nat
    decreases bytes.len(),
{
    if bytes.len() == 0 {
        0
    } else {
        be_value(bytes.drop_last()) * 256 + bytes.last() as nat
    }
}

impl BitBuffer {
    /// The queue holds at most 64 bits, and `buf` is zero below them.
    pub open spec fn wf(&self) -> bool {
        self.n_bits <= 64 && self.buf as nat % pow2((64 - self.n_bits) as nat) == 0
    }

    /// The queued bits read as one binary number, the first bit being the
    /// most significant.
    pub open spec fn value(&self) -> nat {
        self.buf as nat / pow2((64 - self.n_bits) as nat)
    }

    /// The value of a queue of `n_bits` bits is below `pow2(n_bits)`, and
    /// `buf` is that value moved to the top.
    pub proof fn lemma_value(&self)
        requires
            self.wf(),
        ensures
            self.value() < pow2(self.n_bits as nat),
            self.buf == self.value() * pow2((64 - self.n_bits) as nat),
    {
        let low = (64 - self.n_bits) as nat;
        lemma_pow2_pos(low);
        lemma_fundamental_div_mod(self.buf as int, pow2(low) as int);
        assert(self.buf == pow2(low) * self.value());
        assert(pow2(low) * self.value() == self.value() * pow2(low)) by (nonlinear_arith);
        lemma_scaled_bound(self.value(), self.n_bits as nat, low);
        lemma2_to64();
    }

    /// Appends the eight bits of `byte`, most significant first. There must
    /// be room for them.
    pub fn push_back(&mut self, byte: u8)
        requires
            old(self).wf(),
            old(self).n_bits <= 56,
        ensures
            final(self).wf(),
            final(self).n_bits == old(self).n_bits + 8,
            final(self).value() == old(self).value() * 256 + byte,
    {
        let shift: u64 = (64 - self.n_bits) as u64 - 8;
        proof {
            let n = self.n_bits as nat;
            let v = self.value();
            let p = pow2(shift as nat);
            self.lemma_value();
            lemma2_to64();
            lemma_pow2_pos(shift as nat);
            lemma_pow2_adds(8, shift as nat);
            assert(pow2((64 - n) as nat) == 256 * p);
            lemma_scaled_bound(v * 256 + byte as nat, n + 8, shift as nat);
            lemma_pow2_adds(n, 8);
            let w = v * 256 + byte as nat;
            assert(w < pow2(n + 8));
            assert(w * p < pow2(64));
            assert(w * p == v * (256 * p) + byte as nat * p) by (nonlinear_arith)
                requires
                    w == v * 256 + byte as nat,
            ;
            assert(byte as nat * p <= w * p) by (nonlinear_arith)
                requires
                    byte as nat <= w,
            ;
            lemma_u64_shl_is_mul(byte as u64, shift);
            lemma_div_by_multiple(w as int, p as int);
            lemma_mod_multiples_basic(w as int, p as int);
        }
        let yep = (byte as u64) << shift;
        self.buf += yep;
        self.n_bits += 8;
    }

    /// Space left n bits
    pub fn space_left(&self) -> (free: u8)
        requires
            self.n_bits <= 64,
        ensures
            free == 64 - self.n_bits,
    {
        let max: u8 = 8 * 8;
        max - self.n_bits
    }

    /// Whether the queue can take another bit.
    pub fn has_space_left(&self) -> (free: bool)
        requires
            self.n_bits <= 64,
        ensures
            free == (self.n_bits < 64),
    {
        self.space_left() > 0
    }

    /// Removes the first `code_size + 1` bits and returns them as a number,
    /// the first bit being the most significant. Where the queue holds
    /// fewer bits, nothing is removed.
    pub fn pop_front(&mut self, code_size: u16) -> (code: Option<u16>)
        requires
            old(self).wf(),
            code_size <= 11,
        ensures
            final(self).wf(),
            match code {
                Some(c) => {
                    &&& code_size + 1 <= old(self).n_bits
                    &&& final(self).n_bits == old(self).n_bits - (code_size + 1)
                    &&& c == old(self).value() / pow2(final(self).n_bits as nat)
                    &&& c < pow2((code_size + 1) as nat) <= 4096
                    &&& final(self).value() == old(self).value() % pow2(final(self).n_bits as nat)
                },
                None => code_size + 1 > old(self).n_bits && *final(self) == *old(self),
            },
    {
        if self.n_bits == 0 || code_size + 1 > self.n_bits as u16 {
            return None;
        }
        let width: u64 = code_size as u64 + 1;
        let top: u64 = 64 - width;
        proof {
            let n = self.n_bits as nat;
            let k = width as nat;
            let v = self.value();
            let a = pow2((64 - n) as nat);
            let b = pow2((n - k) as nat);
            let c = pow2(top as nat);
            let pk = pow2(k);
            self.lemma_value();
            lemma2_to64();
            lemma_pow2_pos((64 - n) as nat);
            lemma_pow2_pos((n - k) as nat);
            lemma_pow2_pos(k);
            lemma_pow2_adds((64 - n) as nat, (n - k) as nat);
            lemma_pow2_adds((n - k) as nat, k);
            lemma_pow2_adds(top as nat, k);
            lemma_pow2_adds((64 - n) as nat, k);
            lemma_pow2_adds(k, (12 - k) as nat);
            lemma_pow2_pos((12 - k) as nat);
            assert(c == a * b);
            // The code is the value without its low `n - k` bits.
            lemma_u64_shr_is_div(self.buf, top);
            lemma_div_denominator(self.buf as int, a as int, b as int);
            let code = v / b;
            assert(self.buf as nat / c == code);
            lemma_multiply_divide_lt(v as int, b as int, pk as int);
            assert(code < pk);
            assert(pk <= 4096) by (nonlinear_arith)
                requires
                    pk * pow2((12 - k) as nat) == 4096,
                    pow2((12 - k) as nat) > 0,
            ;
            // What is left is the low `n - k` bits, moved to the top.
            lemma_remainder_lower(self.buf as int, c as int);
            lemma_u64_shl_is_mul(code as u64, top);
            lemma_fundamental_div_mod(self.buf as int, c as int);
            assert(c * code == code * c) by (nonlinear_arith);
            let low = (self.buf as nat % c);
            assert(self.buf - code * c == low);
            assert(a * v == v * a) by (nonlinear_arith);
            lemma_truncate_middle(v as int, a as int, b as int);
            assert(low == a * (v % b));
            assert(low < c);
            assert(low * pk < pow2(64)) by (nonlinear_arith)
                requires
                    low < c,
                    c * pk == pow2(64),
                    pk > 0,
            ;
            lemma_u64_shl_is_mul(low as u64, width);
            let rest = v % b;
            assert(low * pk == rest * (a * pk)) by (nonlinear_arith)
                requires
                    low == a * rest,
            ;
            lemma_pow2_pos((64 - n + k) as nat);
            lemma_div_by_multiple(rest as int, (a * pk) as int);
            lemma_mod_multiples_basic(rest as int, (a * pk) as int);
        }
        let desired = self.buf >> top;
        let low = self.buf - (desired << top);
        self.buf = low << width;
        self.n_bits -= width as u8;

        Some(desired as u16)
    }

    /// Appends bytes of the stream, as they are, until fewer than eight
    /// bits are free or the stream has ended.
    pub fn fill(&mut self, it: &mut ByteStream)
        requires
            old(self).wf(),
            old(it).wf(),
        ensures
            final(self).wf(),
            final(it).wf(),
            final(it).data() == old(it).data(),
            old(it).position() <= final(it).position() <= old(it).data().len(),
            final(self).n_bits == old(self).n_bits + 8 * (final(it).position()
                - old(it).position()),
            final(self).n_bits > 56 || final(it).position() == old(it).data().len(),
            final(self).value() == old(self).value() * pow2(
                (8 * (final(it).position() - old(it).position())) as nat,
            ) + be_value(
                old(it).data().subrange(
                    old(it).position() as int,
                    final(it).position() as int,
                ),
            ),
    {
        proof {
            lemma2_to64();
            it.lemma_position_bound();
            let nothing = it.data().subrange(it.position() as int, it.position() as int);
            assert(nothing =~= Seq::<u8>::empty());
            assert(be_value(nothing) == 0);
            assert(pow2((8 * (it.position() - it.position())) as nat) == 1);
            assert(self.value() * 1 == self.value());
        }
        while self.space_left() >= 8 && !it.at_end()
            invariant
                self.wf(),
                it.wf(),
                it.data() == old(it).data(),
                old(it).position() <= it.position() <= it.data().len(),
                self.n_bits == old(self).n_bits + 8 * (it.position() - old(it).position()),
                self.value() == old(self).value() * pow2(
                    (8 * (it.position() - old(it).position())) as nat,
                ) + be_value(
                    it.data().subrange(old(it).position() as int, it.position() as int),
                ),
            decreases it.data().len() - it.position(),
        {
            let ghost taken = (it.position() - old(it).position()) as nat;
            let ghost before = it.data().subrange(
                old(it).position() as int,
                it.position() as int,
            );
            if let Some(byte) = it.next() {
                self.push_back(byte);
                proof {
                    let after = it.data().subrange(
                        old(it).position() as int,
                        it.position() as int,
                    );
                    assert(after.drop_last() =~= before);
                    assert(after.last() == byte);
                    lemma_pow2_adds(8 * taken, 8);
                    lemma2_to64();
                    let v0 = old(self).value();
                    let p = pow2(8 * taken);
                    let b = be_value(before);
                    assert((v0 * p + b) * 256 + byte as nat == v0 * (p * 256) + (b * 256
                        + byte as nat)) by (nonlinear_arith);
                }
            }
        }
    }
}

/// The payloads of the sub-blocks before the one at `idx`, taken together,
/// are followed in the whole payload by the sub-block at `idx`.
proof fn lemma_payload_take(blocks: Seq<Seq<u8>>, idx: int)
    requires
        0 <= idx < blocks.len(),
    ensures
        blocks.take(idx + 1).flatten() == blocks.take(idx).flatten() + blocks[idx],
        blocks.take(idx + 1).flatten().len() <= blocks.flatten().len(),
{
    broadcast use Seq::lemma_flatten_push;

    assert(blocks.take(idx + 1) =~= blocks.take(idx).push(blocks[idx]));
    assert(blocks =~= blocks.take(idx + 1) + blocks.skip(idx + 1));
    lemma_flatten_concat(blocks.take(idx + 1), blocks.skip(idx + 1));
}

/// Byte `j` of the sub-block at `idx` is the byte of the whole payload
/// that lies `j` places after the sub-blocks before it.
proof fn lemma_payload_index(blocks: Seq<Seq<u8>>, idx: int, j: int)
    requires
        0 <= idx < blocks.len(),
        0 <= j < blocks[idx].len(),
    ensures
        blocks.take(idx).flatten().len() + j < blocks.flatten().len(),
        blocks.flatten()[blocks.take(idx).flatten().len() + j] == blocks[idx][j],
{
    lemma_payload_take(blocks, idx);
    assert(blocks =~= blocks.take(idx + 1) + blocks.skip(idx + 1));
    lemma_flatten_concat(blocks.take(idx + 1), blocks.skip(idx + 1));
}

/// Transforms sub blocks into a continuous stream of bytes
pub struct ByteStream<'a> {
    source: &'a Vec<SubBlock>,
    source_idx: usize,
    block_idx: usize,
}

impl<'a> ByteStream<'a> {
    /// The bytes that the stream presents: the payloads of its sub-blocks,
    /// in chain order.
    pub closed spec fn data(&self) -> Seq<u8> {
        sub_blocks_view(self.source@).flatten()
    }

    /// How many bytes of `data()` have been handed out.
    pub closed spec fn position(&self) -> nat {
        (sub_blocks_view(self.source@).take(self.source_idx as int).flatten().len()
            + self.block_idx) as nat
    }

    /// The cursor stands on a byte, or behind the last sub-block.
    pub closed spec fn wf(&self) -> bool {
        &&& self.source_idx <= self.source@.len()
        &&& self.source_idx < self.source@.len() ==> self.block_idx
            < self.source@[self.source_idx as int]@.len()
        &&& self.source_idx == self.source@.len() ==> self.block_idx == 0
    }

    /// The position never passes the end of the data.
    pub proof fn lemma_position_bound(&self)
        requires
            self.wf(),
        ensures
            self.position() <= self.data().len(),
    {
        let blocks = sub_blocks_view(self.source@);
        if self.source_idx < self.source@.len() {
            lemma_payload_index(blocks, self.source_idx as int, self.block_idx as int);
        } else {
            assert(blocks.take(self.source_idx as int) =~= blocks);
        }
    }

    /// A stream at the first byte of `blocks`.
    pub fn new(blocks: &'a Vec<SubBlock>) -> (stream: ByteStream<'a>)
        ensures
            stream.wf(),
            stream.data() == sub_blocks_view(blocks@).flatten(),
            stream.position() == 0,
    {
        let mut stream = Self { source: blocks, block_idx: 0, source_idx: 0 };
        assert(sub_blocks_view(blocks@).take(0).flatten() =~= Seq::<u8>::empty());
        stream.settle();
        stream
    }

    /// Moves a cursor that stands at the start of a sub-block past the
    /// empty sub-blocks that follow.
    fn settle(&mut self)
        requires
            old(self).source_idx <= old(self).source@.len(),
            old(self).block_idx == 0,
        ensures
            final(self).wf(),
            final(self).source == old(self).source,
            final(self).position() == old(self).position(),
    {
        let source: &Vec<SubBlock> = self.source;
        while self.source_idx < source.len() && source[self.source_idx].0.len() == 0
            invariant
                source == self.source,
                self.source == old(self).source,
                self.source_idx <= source@.len(),
                self.block_idx == 0,
                self.position() == old(self).position(),
            decreases source@.len() - self.source_idx,
        {
            proof {
                lemma_payload_take(sub_blocks_view(source@), self.source_idx as int);
            }
            self.source_idx += 1;
        }
    }

    /// Whether every byte has been handed out.
    pub fn at_end(&self) -> (end: bool)
        requires
            self.wf(),
        ensures
            end == (self.position() == self.data().len()),
    {
        proof {
            let blocks = sub_blocks_view(self.source@);
            if self.source_idx < self.source@.len() {
                lemma_payload_index(blocks, self.source_idx as int, self.block_idx as int);
            } else {
                assert(blocks.take(self.source_idx as int) =~= blocks);
            }
        }
        self.source_idx >= self.source.len()
    }

    /// Hands out the next byte, if one is left.
    pub fn next(&mut self) -> (byte: Option<u8>)
        requires
            old(self).wf(),
        ensures
            final(self).wf(),
            final(self).data() == old(self).data(),
            match byte {
                Some(b) => {
                    &&& old(self).position() < old(self).data().len()
                    &&& b == old(self).data()[old(self).position() as int]
                    &&& final(self).position() == old(self).position() + 1
                },
                None => {
                    &&& old(self).position() == old(self).data().len()
                    &&& final(self).position() == old(self).position()
                },
            },
    {
        proof {
            let blocks = sub_blocks_view(self.source@);
            if self.source_idx == self.source@.len() {
                assert(blocks.take(self.source_idx as int) =~= blocks);
            }
        }
        if self.at_end() {
            return None;
        }
        let source: &Vec<SubBlock> = self.source;
        let block = &source[self.source_idx];
        let byte = block.0[self.block_idx];
        assert(self.source_idx < source.len() && self.block_idx < block.0.len());
        proof {
            lemma_payload_index(
                sub_blocks_view(source@),
                self.source_idx as int,
                self.block_idx as int,
            );
            lemma_payload_take(sub_blocks_view(source@), self.source_idx as int);
        }
        self.block_idx += 1;
        if self.block_idx == block.0.len() {
            self.source_idx += 1;
            self.block_idx = 0;
            self.settle();
        }
        Some(byte)
    }
}

/// The number that a sequence of bytes spells, the first byte being the
/// least significant. Bit `i` of it is bit `i % 8` of byte `i / 8`: the
/// bytes laid out as one stream of bits, each byte from its least
/// significant bit on.
pub open spec fn le_value(bytes: Seq<u8>) -> nat
    decreases bytes.len(),
{
    if bytes.len() == 0 {
        0
    } else {
        bytes[0] as nat + 256 * le_value(bytes.skip(1))
    }
}

/// The code of `width` bits that starts at bit `pos` of the stream that
/// `data` spells, its first bit being the least significant; none where
/// fewer than `width` bits are left.
pub open spec fn spec_code(data: Seq<u8>, pos: nat, width: nat) -> Option<nat> {
    if pos + width <= 8 * data.len() {
        Some((le_value(data) / pow2(pos)) % pow2(width))
    } else {
        None
    }
}

/// The lowest `width` bits of `v` in the opposite order: bit `i` of the
/// result is bit `width - 1 - i` of `v`.
pub open spec fn mirror(v: nat, width: nat) -> nat
    decreases width,
{
    if width == 0 {
        0
    } else {
        (v % 2) * pow2((width - 1) as nat) + mirror(v / 2, (width - 1) as nat)
    }
}

/// Byte `i` of a sequence of bytes is eight bits of the number it spells.
pub proof fn lemma_le_value_byte(bytes: Seq<u8>, i: nat)
    requires
        i < bytes.len(),
    ensures
        (le_value(bytes) / pow2(8 * i)) % 256 == bytes[i as int],
    decreases i,
{
    lemma2_to64();
    let rest = le_value(bytes.skip(1));
    let first = bytes[0] as nat;
    let all = le_value(bytes);
    assert(all == first + 256 * rest);
    lemma_fundamental_div_mod_converse(all as int, 256, rest as int, first as int);
    assert(all / 256 == rest && all % 256 == first);
    if i == 0 {
        assert(pow2(8 * i) == 1);
        assert(all / 1 == all);
    } else {
        let j = (i - 1) as nat;
        lemma_le_value_byte(bytes.skip(1), j);
        assert(bytes.skip(1)[j as int] == bytes[i as int]);
        lemma_pow2_adds(8, 8 * j);
        lemma_pow2_pos(8 * j);
        assert(8 + 8 * j == 8 * i);
        assert(pow2(8 * i) == 256 * pow2(8 * j));
        lemma_div_denominator(all as int, 256, pow2(8 * j) as int);
        assert(all / pow2(8 * i) == rest / pow2(8 * j));
    }
}

/// A mirrored number of `width` bits is below `pow2(width)`.
pub proof fn lemma_mirror_bound(v: nat, width: nat)
    ensures
        mirror(v, width) < pow2(width),
    decreases width,
{
    lemma2_to64();
    if width > 0 {
        let w = (width - 1) as nat;
        lemma_mirror_bound(v / 2, w);
        lemma_pow2_adds(1, w);
        assert((v % 2) * pow2(w) <= pow2(w)) by (nonlinear_arith)
            requires
                v % 2 <= 1,
        ;
    }
}

/// Mirroring a number of `a + b` bits mirrors its low `a` bits into the
/// high places and its high `b` bits into the low places.
pub proof fn lemma_mirror_split(lo: nat, hi: nat, a: nat, b: nat)
    requires
        lo < pow2(a),
    ensures
        mirror(lo + hi * pow2(a), a + b) == mirror(lo, a) * pow2(b) + mirror(hi, b),
    decreases a,
{
    lemma2_to64();
    if a == 0 {
        assert(lo == 0);
        assert(hi * pow2(0) == hi) by (nonlinear_arith)
            requires
                pow2(0) == 1,
        ;
        assert(mirror(lo, 0) * pow2(b) == 0) by (nonlinear_arith)
            requires
                mirror(lo, 0) == 0,
        ;
    } else {
        let a1 = (a - 1) as nat;
        let x = lo + hi * pow2(a);
        lemma_pow2_adds(1, a1);
        lemma_pow2_adds(a1, b);
        lemma_pow2_pos(a1);
        assert(pow2(a) == 2 * pow2(a1));
        assert(hi * pow2(a) == 2 * (hi * pow2(a1))) by (nonlinear_arith)
            requires
                pow2(a) == 2 * pow2(a1),
        ;
        let half = lo / 2 + hi * pow2(a1);
        assert(x == 2 * half + lo % 2);
        lemma_fundamental_div_mod_converse(x as int, 2, half as int, (lo % 2) as int);
        assert(x % 2 == lo % 2 && x / 2 == half);
        assert(lo / 2 < pow2(a1));
        lemma_mirror_split(lo / 2, hi, a1, b);
        assert((a + b - 1) as nat == a1 + b);
        assert(mirror(x, a + b) == (x % 2) * pow2(a1 + b) + mirror(x / 2, a1 + b));
        assert(mirror(lo, a) == (lo % 2) * pow2(a1) + mirror(lo / 2, a1));
        assert(((lo % 2) * pow2(a1) + mirror(lo / 2, a1)) * pow2(b) == (lo % 2) * (pow2(a1)
            * pow2(b)) + mirror(lo / 2, a1) * pow2(b)) by (nonlinear_arith);
    }
}

/// Mirroring twice gives the number back.
pub proof fn lemma_mirror_twice(v: nat, width: nat)
    requires
        v < pow2(width),
    ensures
        mirror(mirror(v, width), width) == v,
    decreases width,
{
    lemma2_to64();
    if width == 0 {
    } else {
        let w = (width - 1) as nat;
        lemma_pow2_adds(1, w);
        lemma_mirror_twice(v / 2, w);
        let lo = mirror(v / 2, w);
        let hi = v % 2;
        lemma_mirror_bound(v / 2, w);
        lemma_mirror_split(lo, hi, w, 1);
        assert(mirror(hi, 1) == (hi % 2) * pow2(0) + mirror(hi / 2, 0));
        assert(mirror(hi, 1) == hi);
        assert(mirror(v, width) == hi * pow2(w) + lo);
        assert(w + 1 == width);
    }
}

/// The lowest `width` bits of `v` in the opposite order.
pub fn mirror_bits(v: u16, width: u16) -> (m: u16)
    requires
        width <= 16,
    ensures
        m == mirror(v as nat, width as nat),
{
    let mut out: u16 = 0;
    let mut rest: u16 = v;
    let mut done: u16 = 0;
    proof {
        lemma2_to64();
        assert(0 * pow2(width as nat) == 0);
    }
    while done < width
        invariant
            done <= width <= 16,
            out < pow2(done as nat),
            out * pow2((width - done) as nat) + mirror(rest as nat, (width - done) as nat)
                == mirror(v as nat, width as nat),
        decreases width - done,
    {
        proof {
            let left = (width - done) as nat;
            let w = (left - 1) as nat;
            lemma2_to64();
            lemma_pow2_adds(1, w);
            lemma_pow2_adds(done as nat, 1);
            lemma_pow2_strictly_increases(done as nat + 1, 17);
            assert(pow2(17) == 0x20000) by {
                lemma_pow2_adds(16, 1);
            }
            assert((out * 2 + rest % 2) * pow2(w) == out * (2 * pow2(w)) + (rest % 2) * pow2(w))
                by (nonlinear_arith);
            assert(mirror(rest as nat, left) == (rest as nat % 2) * pow2(w) + mirror(
                rest as nat / 2,
                w,
            ));
        }
        out = out * 2 + rest % 2;
        rest = rest / 2;
        done = done + 1;
    }
    proof {
        lemma2_to64();
        assert(out * pow2(0) == out) by (nonlinear_arith)
            requires
                pow2(0) == 1,
        ;
    }
    out
}

/// Eight more bits behind the `n` bits at bit `pos` of a stream are the
/// byte that begins where those `n` bits end.
proof fn lemma_refill(data: Seq<u8>, pos: nat, n: nat, index: nat)
    requires
        pos + n == 8 * index,
        index < data.len(),
    ensures
        mirror((le_value(data) / pow2(pos)) % pow2(n + 8), n + 8) == mirror(
            (le_value(data) / pow2(pos)) % pow2(n),
            n,
        ) * 256 + mirror(data[index as int] as nat, 8),
{
    let all = le_value(data);
    let y = all / pow2(pos);
    let byte = data[index as int] as nat;
    lemma2_to64();
    lemma_pow2_pos(pos);
    lemma_pow2_pos(n);
    lemma_pow2_adds(n, 8);
    lemma_pow2_adds(pos, n);
    lemma_breakdown(y as int, pow2(n) as int, 256);
    lemma_div_denominator(all as int, pow2(pos) as int, pow2(n) as int);
    lemma_le_value_byte(data, index);
    assert(y / pow2(n) == all / pow2(8 * index));
    let low = y % pow2(n);
    assert(y % pow2(n + 8) == low + byte * pow2(n)) by {
        assert(pow2(n) * byte == byte * pow2(n)) by (nonlinear_arith);
    }
    lemma_mod_bound(y as int, pow2(n) as int);
    lemma_mirror_split(low, byte, n, 8);
}

/// Taking `w` bits off the front of `n` mirrored bits leaves the first
/// `w` bits, mirrored, and the other bits, mirrored.
proof fn lemma_take_front(y: nat, n: nat, w: nat)
    requires
        w <= n,
    ensures
        mirror(y % pow2(n), n) / pow2((n - w) as nat) == mirror(y % pow2(w), w),
        mirror(y % pow2(n), n) % pow2((n - w) as nat) == mirror(
            (y / pow2(w)) % pow2((n - w) as nat),
            (n - w) as nat,
        ),
        y % pow2(w) < pow2(w),
{
    let m = (n - w) as nat;
    lemma_pow2_pos(w);
    lemma_pow2_pos(m);
    lemma_pow2_adds(w, m);
    lemma_breakdown(y as int, pow2(w) as int, pow2(m) as int);
    let lo = y % pow2(w);
    let hi = (y / pow2(w)) % pow2(m);
    lemma_mod_bound(y as int, pow2(w) as int);
    assert(y % pow2(n) == lo + hi * pow2(w)) by {
        assert(pow2(w) * hi == hi * pow2(w)) by (nonlinear_arith);
    }
    lemma_mirror_split(lo, hi, w, m);
    lemma_mirror_bound(hi, m);
    lemma_fundamental_div_mod_converse(
        mirror(y % pow2(n), n) as int,
        pow2(m) as int,
        mirror(lo, w) as int,
        mirror(hi, m) as int,
    );
}

/// Extracts LZW codes from bytes
///
/// The codes of an image are packed least significant bit first, whereas
/// the queue hands out its bits most significant first. So each byte enters
/// the queue mirrored, and each group of bits that leaves it is mirrored
/// back.
pub struct CodeStream<'a> {
    bbuf: BitBuffer,
    bytes: ByteStream<'a>,
}

impl<'a> CodeStream<'a> {
    /// The bytes that the codes are read from: the payloads of the
    /// sub-blocks of the image, in chain order.
    pub closed spec fn data(&self) -> Seq<u8> {
        self.bytes.data()
    }

    /// How many bytes of the data have been pulled into the queue.
    pub closed spec fn pulled(&self) -> nat {
        self.bytes.position()
    }

    /// How many bits are queued: pulled, and not yet handed out.
    pub closed spec fn queued(&self) -> nat {
        self.bbuf.n_bits as nat
    }

    /// How many bits of the stream have been handed out as codes.
    pub open spec fn bit_pos(&self) -> nat {
        (8 * self.pulled() - self.queued()) as nat
    }

    /// The queue holds, mirrored, the bits between the codes handed out
    /// and the bytes still to come.
    pub closed spec fn wf(&self) -> bool {
        &&& self.bbuf.wf()
        &&& self.bytes.wf()
        &&& self.bbuf.n_bits <= 8 * self.bytes.position()
        &&& self.bytes.position() <= self.bytes.data().len()
        &&& self.bbuf.value() == mirror(
            (le_value(self.data()) / pow2(self.bit_pos())) % pow2(self.bbuf.n_bits as nat),
            self.bbuf.n_bits as nat,
        )
    }

    /// A stream at the first bit of the data of an image.
    pub fn new(data: &'a ImageData) -> (stream: CodeStream<'a>)
        ensures
            stream.wf(),
            stream.data() == data@.sub_blocks.flatten(),
            stream.pulled() == 0,
            stream.queued() == 0,
    {
        let stream = Self { bbuf: BitBuffer::default(), bytes: ByteStream::new(&data.sub_blocks) };
        proof {
            lemma_pow2_pos(0);
        }
        stream
    }

    /// The next `width` bits of the stream as a number, the first bit
    /// being the least significant; none, and nothing handed out, where
    /// fewer than `width` bits are left. Bytes are pulled into the queue
    /// one at a time, and only while it holds fewer than `width` bits.
    pub fn next_code(&mut self, width: u16) -> (code: Option<u16>)
        requires
            old(self).wf(),
            2 <= width <= 12,
        ensures
            final(self).wf(),
            final(self).data() == old(self).data(),
            old(self).pulled() <= final(self).pulled() <= old(self).data().len(),
            final(self).pulled() > old(self).pulled() ==> old(self).queued() + 8 * (
                final(self).pulled() - old(self).pulled() - 1) < width,
            match code {
                Some(c) => {
                    &&& spec_code(old(self).data(), old(self).bit_pos(), width as nat) == Some(
                        c as nat,
                    )
                    &&& c <= 4095
                    &&& final(self).bit_pos() == old(self).bit_pos() + width
                },
                None => {
                    &&& spec_code(old(self).data(), old(self).bit_pos(), width as nat) is None
                    &&& final(self).bit_pos() == old(self).bit_pos()
                    &&& final(self).pulled() == old(self).data().len()
                },
            },
    {
        proof {
            self.bytes.lemma_position_bound();
        }
        while (self.bbuf.n_bits as u16) < width && !self.bytes.at_end()
            invariant
                self.wf(),
                self.data() == old(self).data(),
                self.bit_pos() == old(self).bit_pos(),
                old(self).queued() <= 8 * old(self).pulled(),
                old(self).pulled() <= self.pulled() <= self.data().len(),
                self.pulled() > old(self).pulled() ==> old(self).queued() + 8 * (self.pulled()
                    - old(self).pulled() - 1) < width,
                2 <= width <= 12,
            decreases self.data().len() - self.bytes.position(),
        {
            let ghost n = self.bbuf.n_bits as nat;
            let ghost index = self.bytes.position();
            let ghost pos = self.bit_pos();
            if let Some(byte) = self.bytes.next() {
                let mirrored = mirror_bits(byte as u16, 8);
                proof {
                    lemma2_to64();
                    lemma_mirror_bound(byte as nat, 8);
                    lemma_refill(self.data(), pos, n, index);
                }
                self.bbuf.push_back(mirrored as u8);
            }
        }
        proof {
            self.bytes.lemma_position_bound();
            if self.bbuf.n_bits >= width {
                let n = self.bbuf.n_bits as nat;
                let all = le_value(self.data());
                lemma_pow2_pos(self.bit_pos());
                lemma_pow2_pos(width as nat);
                lemma_pow2_adds(self.bit_pos(), width as nat);
                lemma_take_front(all / pow2(self.bit_pos()), n, width as nat);
                lemma_div_denominator(
                    all as int,
                    pow2(self.bit_pos()) as int,
                    pow2(width as nat) as int,
                );
                lemma_mirror_twice((all / pow2(self.bit_pos())) % pow2(width as nat), width as nat);
            }
        }
        proof {
            lemma2_to64();
            lemma_pow2_pos(width as nat);
            lemma_pow2_pos(self.bit_pos());
            if width < 12 {
                lemma_pow2_strictly_increases(width as nat, 12);
            }
            lemma_mod_bound(
                le_value(self.data()) as int / pow2(self.bit_pos()) as int,
                pow2(width as nat) as int,
            );
        }
        match self.bbuf.pop_front(width - 1) {
            Some(raw) => Some(mirror_bits(raw, width)),
            None => None,
        }
    }
}

} // verus!
