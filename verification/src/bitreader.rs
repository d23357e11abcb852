//! Bit-level access to a byte sequence, little-endian bit packed, with an
//! implicit zero-padding region past the real end of input so that decode
//! logic can always look ahead without special-casing stream end.

use vstd::prelude::*;
use vstd::arithmetic::power2::{pow2, lemma_pow2_adds, lemma_pow2_pos, lemma2_to64};
use vstd::bits::{lemma_u8_shr_is_div, lemma_u32_shl_is_mul};

verus! {

/// Number of synthetic zero bytes the reader serves past the real end of
/// input before consumption is considered a hard fault.
pub const IMPLICIT_ZEROES: usize = 128;

/// Largest supported input length in bytes, so that every bit position,
/// including positions inside the implicit zero region, fits comfortably in
/// a `usize` on any machine.
pub const MAX_INPUT_BYTES: usize = 0x0FFF_FFFF;

/// The byte at index `i` of the padded stream: real input inside bounds,
/// zero everywhere past the end.
pub open spec fn byte_at(data: Seq<u8>, i: int) -> u8 {
    if 0 <= i < data.len() {
        data[i]
    } else {
        0
    }
}

/// Bit `i` of the padded stream, counting bits within each byte from the
/// least significant end: bit `i` lives in byte `i / 8` at weight `2^(i % 8)`.
pub open spec fn stream_bit(data: Seq<u8>, i: int) -> nat {
    ((byte_at(data, i / 8) as nat) / pow2((i % 8) as nat)) % 2
}

/// The value of the `n` bits starting at bit position `pos`, packed little
/// endian: the first stream bit is the least significant bit of the result.
pub open spec fn stream_bits(data: Seq<u8>, pos: int, n: nat) -> nat
    decreases n,
{
    if n == 0 {
        0
    } else {
        stream_bits(data, pos, (n - 1) as nat) + stream_bit(data, pos + n - 1) * pow2((n - 1) as nat)
    }
}

/// Any `n`-bit read is bounded by `2^n`.
pub proof fn lemma_stream_bits_bound(data: Seq<u8>, pos: int, n: nat)
    ensures
        stream_bits(data, pos, n) < pow2(n),
    decreases n,
{
    if n == 0 {
        assert(pow2(0) == 1) by {
            lemma2_to64();
        }
    } else {
        lemma_stream_bits_bound(data, pos, (n - 1) as nat);
        lemma_pow2_adds((n - 1) as nat, 1);
        assert(pow2(1) == 2) by {
            lemma2_to64();
        }
        lemma_pow2_pos((n - 1) as nat);
        let b = stream_bit(data, pos + n - 1);
        if b == 0 {
            assert(b * pow2((n - 1) as nat) == 0);
        } else {
            assert(b == 1);
            assert(b * pow2((n - 1) as nat) == pow2((n - 1) as nat));
        }
    }
}

/// Reading `a + b` bits is reading `a` bits and then `b` bits, the second
/// group scaled past the first.
pub proof fn lemma_stream_bits_split(data: Seq<u8>, pos: int, a: nat, b: nat)
    ensures
        stream_bits(data, pos, a + b) == stream_bits(data, pos, a) + stream_bits(
            data,
            pos + a,
            b,
        ) * pow2(a),
    decreases b,
{
    if b == 0 {
        assert(stream_bits(data, pos + a, 0) == 0);
    } else {
        lemma_stream_bits_split(data, pos, a, (b - 1) as nat);
        let hi = stream_bits(data, pos + a, (b - 1) as nat);
        let bit = stream_bit(data, pos + a + b - 1);
        assert(stream_bits(data, pos + a, b) == hi + bit * pow2((b - 1) as nat));
        assert(stream_bits(data, pos, a + b) == stream_bits(data, pos, (a + b - 1) as nat) + bit
            * pow2((a + b - 1) as nat));
        lemma_pow2_adds(a, (b - 1) as nat);
        assert((hi + bit * pow2((b - 1) as nat)) * pow2(a) == hi * pow2(a) + bit * (pow2(
            (b - 1) as nat,
        ) * pow2(a))) by (nonlinear_arith);
        assert(bit * (pow2((b - 1) as nat) * pow2(a)) == bit * pow2((a + b - 1) as nat));
    }
}

/// The low `a` bits of a wider read are the `a`-bit read at the same
/// position.
pub proof fn lemma_stream_bits_truncate(data: Seq<u8>, pos: int, a: nat, n: nat)
    requires
        a <= n,
    ensures
        stream_bits(data, pos, n) % pow2(a) == stream_bits(data, pos, a),
{
    lemma_stream_bits_split(data, pos, a, (n - a) as nat);
    lemma_stream_bits_bound(data, pos, a);
    lemma_pow2_pos(a);
    let lo = stream_bits(data, pos, a);
    let hi = stream_bits(data, pos + a, (n - a) as nat);
    assert((hi as int) * (pow2(a) as int) + lo == (pow2(a) as int) * (hi as int) + lo)
        by (nonlinear_arith);
    vstd::arithmetic::div_mod::lemma_mod_multiples_vanish(hi as int, lo as int, pow2(a) as int);
    vstd::arithmetic::div_mod::lemma_small_mod(lo, pow2(a));
}

/// Whole unread bytes of real input at bit position `pos`: a byte counts as
/// unread until all eight of its bits are consumed.
pub open spec fn remaining_bytes(data: Seq<u8>, pos: int) -> int {
    if pos >= 8 * data.len() {
        0
    } else {
        data.len() - pos / 8
    }
}

/// Bits to the next byte boundary from bit position `pos`.
pub open spec fn pad_to_byte(pos: int) -> int {
    (8 - pos % 8) % 8
}

/// Bit-level source for the decoder. The provided implementation reads an
/// in-memory byte sequence; a custom implementation can be supplied as long
/// as it honours the same contracts over `data`, `cursor` and `wf`.
pub trait BitReader: Sized {
    /// The real input bytes, excluding the implicit zero padding.
    spec fn data(&self) -> Seq<u8>;

    /// Bits consumed so far, from the start of the stream.
    spec fn cursor(&self) -> int;

    /// Internal well-formedness.
    spec fn wf(&self) -> bool;

    /// Bounds every caller may rely on.
    proof fn wf_facts(&self)
        requires
            self.wf(),
        ensures
            0 <= self.cursor() <= 8 * self.data().len() + 8 * (IMPLICIT_ZEROES as int),
            self.data().len() <= MAX_INPUT_BYTES as int,
    ;

    /// Ensures the accumulator can serve data. Returns `false` only if input
    /// is required but unavailable.
    fn warmup(&mut self) -> (r: bool)
        requires
            old(self).wf(),
        ensures
            final(self).wf(),
            final(self).data() == old(self).data(),
            final(self).cursor() == old(self).cursor(),
            r == (old(self).cursor() < 8 * old(self).data().len()),
    ;

    /// The number of whole unread bytes of real input.
    fn get_remaining_bytes(&self) -> (r: usize)
        requires
            self.wf(),
        ensures
            r as int == remaining_bytes(self.data(), self.cursor()),
    ;

    /// True iff at least `bytes` unread real bytes remain; `bytes` may be at
    /// most the implicit zero region size.
    fn check_input_amount(&self, bytes: usize) -> (r: bool)
        requires
            self.wf(),
        ensures
            r == (bytes <= IMPLICIT_ZEROES && bytes as int <= remaining_bytes(
                self.data(),
                self.cursor(),
            )),
    ;

    /// The next 32 bits of the padded stream, without consuming them. The
    /// low 24 bits are always backed by real input or implicit zeroes.
    fn get_bits_unmasked(&mut self) -> (r: u32)
        requires
            old(self).wf(),
        ensures
            final(self).wf(),
            final(self).data() == old(self).data(),
            final(self).cursor() == old(self).cursor(),
            r as nat == stream_bits(old(self).data(), old(self).cursor(), 32),
    ;

    /// The next `bits` bits of the padded stream, without consuming them.
    fn get_bits(&mut self, bits: u32) -> (r: u32)
        requires
            old(self).wf(),
            bits <= 32,
        ensures
            final(self).wf(),
            final(self).data() == old(self).data(),
            final(self).cursor() == old(self).cursor(),
            r as nat == stream_bits(old(self).data(), old(self).cursor(), bits as nat),
    ;

    /// Advances the cursor by `bits` without reading. The caller must stay
    /// inside the padded stream.
    fn drop_bits(&mut self, bits: u32)
        requires
            old(self).wf(),
            bits <= 32,
            old(self).cursor() + bits <= 8 * old(self).data().len() + 8 * (IMPLICIT_ZEROES as int),
        ensures
            final(self).wf(),
            final(self).data() == old(self).data(),
            final(self).cursor() == old(self).cursor() + bits,
    ;

    /// Reads `bits` bits and advances the cursor.
    fn take_bits(&mut self, bits: u32) -> (r: u32)
        requires
            old(self).wf(),
            bits <= 32,
            old(self).cursor() + bits <= 8 * old(self).data().len() + 8 * (IMPLICIT_ZEROES as int),
        ensures
            final(self).wf(),
            final(self).data() == old(self).data(),
            final(self).cursor() == old(self).cursor() + bits,
            r as nat == stream_bits(old(self).data(), old(self).cursor(), bits as nat),
    ;

    /// Reads `bits` bits and advances the cursor.
    fn read_bits(&mut self, bits: u32) -> (r: u32)
        requires
            old(self).wf(),
            bits <= 32,
            old(self).cursor() + bits <= 8 * old(self).data().len() + 8 * (IMPLICIT_ZEROES as int),
        ensures
            final(self).wf(),
            final(self).data() == old(self).data(),
            final(self).cursor() == old(self).cursor() + bits,
            r as nat == stream_bits(old(self).data(), old(self).cursor(), bits as nat),
    ;

    /// Like `read_bits`, but returns `None`, consuming nothing, when the
    /// read would run past the real input.
    fn safe_read_bits(&mut self, bits: u32) -> (r: Option<u32>)
        requires
            old(self).wf(),
            bits <= 32,
        ensures
            final(self).wf(),
            final(self).data() == old(self).data(),
            old(self).cursor() + bits <= 8 * old(self).data().len() ==> {
                &&& r == Some(stream_bits(old(self).data(), old(self).cursor(), bits as nat) as u32)
                &&& final(self).cursor() == old(self).cursor() + bits
            },
            old(self).cursor() + bits > 8 * old(self).data().len() ==> {
                &&& r is None
                &&& final(self).cursor() == old(self).cursor()
            },
    ;

    /// Advances to the next byte boundary; returns `false` iff a skipped bit
    /// was set.
    fn jump_to_byte_boundary(&mut self) -> (r: bool)
        requires
            old(self).wf(),
            old(self).cursor() + 8 <= 8 * old(self).data().len() + 8 * (IMPLICIT_ZEROES as int),
        ensures
            final(self).wf(),
            final(self).data() == old(self).data(),
            final(self).cursor() == old(self).cursor() + pad_to_byte(old(self).cursor()),
            r == (stream_bits(old(self).data(), old(self).cursor(), pad_to_byte(old(self).cursor()) as nat)
                == 0),
    ;

    /// Reads the real input byte `offset` bytes ahead of the cursor without
    /// consuming; the cursor must sit at a byte boundary.
    fn peek_byte(&self, offset: usize) -> (r: Option<u8>)
        requires
            self.wf(),
            self.cursor() % 8 == 0,
            offset <= MAX_INPUT_BYTES,
        ensures
            r == if self.cursor() / 8 + offset < self.data().len() {
                Some(self.data()[self.cursor() / 8 + offset])
            } else {
                None::<u8>
            },
    ;

    /// Overwrites all of `dst` with the next `dst.len()` real input bytes,
    /// advancing the cursor; the cursor must sit at a byte boundary.
    fn copy_bytes(&mut self, dst: &mut Vec<u8>)
        requires
            old(self).wf(),
            old(self).cursor() % 8 == 0,
            old(self).cursor() / 8 + old(dst).len() <= old(self).data().len(),
        ensures
            final(self).wf(),
            final(self).data() == old(self).data(),
            final(self).cursor() == old(self).cursor() + 8 * old(dst).len(),
            final(dst)@ == old(self).data().subrange(
                old(self).cursor() / 8,
                old(self).cursor() / 8 + old(dst).len(),
            ),
    ;

    /// False iff the reader has consumed past the real end of input, into
    /// the implicit zero region: the sign of a truncated stream.
    fn is_reader_okay(&self) -> (r: bool)
        requires
            self.wf(),
        ensures
            r == (self.cursor() <= 8 * self.data().len()),
    ;
}

/// Reads bits from a byte sequence held in memory.
pub struct StreamBitReader {
    input: Vec<u8>,
    /// Bits consumed so far.
    pos: usize,
}

impl StreamBitReader {
    pub fn new(input: Vec<u8>) -> (r: StreamBitReader)
        requires
            input.len() <= MAX_INPUT_BYTES,
        ensures
            r.wf(),
            r.data() == input@,
            r.cursor() == 0,
    {
        StreamBitReader { input, pos: 0 }
    }

    /// The value of the next `bits` bits at the cursor, assembled one bit at
    /// a time from the padded byte sequence.
    fn extract_bits(&self, bits: u32) -> (r: u32)
        requires
            self.wf(),
            bits <= 32,
        ensures
            r as nat == stream_bits(self.input@, self.pos as int, bits as nat),
    {
        let ghost data = self.input@;
        let ghost base = self.pos as int;
        let mut acc: u32 = 0;
        let mut i: u32 = 0;
        proof {
            assert(pow2(0) == 1) by {
                lemma2_to64();
            }
        }
        while i < bits
            invariant
                self.wf(),
                bits <= 32,
                i <= bits,
                data == self.input@,
                base == self.pos as int,
                acc as nat == stream_bits(data, base, i as nat),
                (acc as nat) < pow2(i as nat),
            decreases bits - i,
        {
            let bit_index: usize = self.pos + (i as usize);
            let byte_index: usize = bit_index / 8;
            let shift: u8 = (bit_index % 8) as u8;
            let b: u8 = if byte_index < self.input.len() {
                self.input[byte_index]
            } else {
                0
            };
            let bit: u8 = (b >> shift) & 1;
            proof {
                lemma_u8_shr_is_div(b, shift);
                assert((b >> shift) & 1 == ((b >> shift) as u8) % 2) by (bit_vector);
                assert(b == byte_at(data, (base + i) / 8));
                assert(bit as nat == stream_bit(data, base + i));
            }
            proof {
                lemma2_to64();
                if i < 31 {
                    vstd::arithmetic::power2::lemma_pow2_strictly_increases(i as nat, 31);
                }
            }
            let pw: u32 = 1u32 << i;
            proof {
                lemma_u32_shl_is_mul(1u32, i);
                lemma_pow2_adds(i as nat, 1);
                if bit == 0 {
                    assert((bit as u32) * pw == 0);
                } else {
                    assert(bit == 1);
                    assert((bit as u32) * pw == pw);
                }
            }
            acc = acc + (bit as u32) * pw;
            i = i + 1;
        }
        acc
    }
}

impl BitReader for StreamBitReader {
    closed spec fn data(&self) -> Seq<u8> {
        self.input@
    }

    closed spec fn cursor(&self) -> int {
        self.pos as int
    }

    closed spec fn wf(&self) -> bool {
        &&& self.input@.len() <= MAX_INPUT_BYTES
        &&& self.pos as int <= 8 * self.input@.len() + 8 * (IMPLICIT_ZEROES as int)
    }

    proof fn wf_facts(&self) {
    }

    fn warmup(&mut self) -> (r: bool) {
        self.pos < 8 * self.input.len()
    }

    fn get_remaining_bytes(&self) -> (r: usize) {
        let consumed: usize = self.pos / 8;
        if consumed >= self.input.len() {
            0
        } else {
            self.input.len() - consumed
        }
    }

    fn check_input_amount(&self, bytes: usize) -> (r: bool) {
        bytes <= IMPLICIT_ZEROES && bytes <= self.get_remaining_bytes()
    }

    fn get_bits_unmasked(&mut self) -> (r: u32) {
        self.extract_bits(32)
    }

    fn get_bits(&mut self, bits: u32) -> (r: u32) {
        self.extract_bits(bits)
    }

    fn drop_bits(&mut self, bits: u32) {
        self.pos = self.pos + (bits as usize);
    }

    fn take_bits(&mut self, bits: u32) -> (r: u32) {
        let r = self.extract_bits(bits);
        self.pos = self.pos + (bits as usize);
        r
    }

    fn read_bits(&mut self, bits: u32) -> (r: u32) {
        self.take_bits(bits)
    }

    fn safe_read_bits(&mut self, bits: u32) -> (r: Option<u32>) {
        let limit: usize = 8 * self.input.len();
        if self.pos <= limit && (bits as usize) <= limit - self.pos {
            proof {
                lemma_stream_bits_bound(self.input@, self.pos as int, bits as nat);
                if bits < 32 {
                    vstd::arithmetic::power2::lemma_pow2_strictly_increases(bits as nat, 32);
                }
                lemma2_to64();
            }
            Some(self.take_bits(bits))
        } else {
            None
        }
    }

    fn jump_to_byte_boundary(&mut self) -> (r: bool) {
        let rem: u32 = (self.pos % 8) as u32;
        let pad: u32 = (8 - rem) % 8;
        if pad == 0 {
            true
        } else {
            self.take_bits(pad) == 0
        }
    }

    fn peek_byte(&self, offset: usize) -> (r: Option<u8>) {
        let idx: usize = self.pos / 8 + offset;
        if idx < self.input.len() {
            Some(self.input[idx])
        } else {
            None
        }
    }

    fn copy_bytes(&mut self, dst: &mut Vec<u8>) {
        let ghost data = self.input@;
        let start: usize = self.pos / 8;
        let n: usize = dst.len();
        let mut i: usize = 0;
        while i < n
            invariant
                self.wf(),
                data == self.input@,
                self.pos as int % 8 == 0,
                self.pos as int / 8 == start as int,
                start + n <= self.input.len(),
                dst.len() == n,
                i <= n,
                forall|k: int| 0 <= k < i ==> dst@[k] == data[start + k],
            decreases n - i,
        {
            let b = self.input[start + i];
            dst[i] = b;
            i = i + 1;
        }
        self.pos = self.pos + 8 * n;
        proof {
            assert(dst@ =~= data.subrange(start as int, start as int + n as int));
        }
    }

    fn is_reader_okay(&self) -> (r: bool) {
        self.pos <= 8 * self.input.len()
    }
}

} // verus!
