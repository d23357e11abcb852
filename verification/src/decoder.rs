//! The stream-level decoder: the window-size header, meta-block headers,
//! and a decode loop for streams made of empty and uncompressed meta-blocks.
//! Meta-blocks with Huffman-coded bodies and metadata blocks are outside
//! this decoder's scope and are reported as `InvalidEncoding`.

use vstd::prelude::*;
use vstd::arithmetic::power2::{pow2, lemma2_to64, lemma_pow2_strictly_increases};
use crate::BrotliError;
use crate::bitreader::{BitReader, IMPLICIT_ZEROES, pad_to_byte, stream_bits,
    lemma_stream_bits_bound, lemma_stream_bits_split};

verus! {

/// The window-size value encoded at the current position: one bit selects
/// sixteen; otherwise three bits select seventeen plus their value, and when
/// those are zero, three more bits select eight plus their value, or
/// seventeen when zero again.
pub open spec fn window_bits_value(data: Seq<u8>, pos: int) -> int {
    if stream_bits(data, pos, 1) == 0 {
        16
    } else {
        let n = stream_bits(data, pos + 1, 3);
        if n != 0 {
            n + 17 as int
        } else {
            let m = stream_bits(data, pos + 4, 3);
            if m != 0 {
                m + 8 as int
            } else {
                17
            }
        }
    }
}

/// How many bits the window-size header occupies.
pub open spec fn window_bits_width(data: Seq<u8>, pos: int) -> int {
    if stream_bits(data, pos, 1) == 0 {
        1
    } else if stream_bits(data, pos + 1, 3) != 0 {
        4
    } else {
        7
    }
}

/// One meta-block header.
#[derive(Debug, Clone, Copy, PartialEq, Eq, Structural)]
pub struct MetaBlockHeader {
    pub is_last: bool,

    /// Set only on a last meta-block that carries no body at all.
    pub is_last_empty: bool,

    /// Body length in bytes; meaningless when `is_last_empty`.
    pub data_length: u32,

    /// Whether the body is stored as raw bytes; meaningless when
    /// `is_last_empty`.
    pub is_uncompressed: bool,
}

/// The meta-block length fields that follow the last-block flags: a nibble
/// count, the length nibbles, and the uncompressed flag. Returns the header
/// and the bit position just past it. A read past the real input is
/// `InsufficientData`; a reserved nibble count or a zero top nibble is
/// `InvalidEncoding`.
pub open spec fn spec_meta_len(data: Seq<u8>, pos: int, is_last: bool) -> Result<
    (MetaBlockHeader, int),
    BrotliError,
> {
    let len8 = 8 * data.len();
    if pos + 2 > len8 {
        Err(BrotliError::InsufficientData)
    } else {
        let mn = stream_bits(data, pos, 2);
        if mn == 3 {
            Err(BrotliError::InvalidEncoding)
        } else {
            let nibbles = mn + 4;
            if pos + 2 + 4 * nibbles > len8 {
                Err(BrotliError::InsufficientData)
            } else {
                let mlen = stream_bits(data, pos + 2, (4 * nibbles) as nat);
                if nibbles > 4 && stream_bits(data, pos + 2 + 4 * (nibbles - 1), 4) == 0 {
                    Err(BrotliError::InvalidEncoding)
                } else {
                    let p = pos + 2 + 4 * nibbles;
                    if p + 1 > len8 {
                        Err(BrotliError::InsufficientData)
                    } else {
                        Ok(
                            (
                                MetaBlockHeader {
                                    is_last,
                                    is_last_empty: false,
                                    data_length: (mlen + 1) as u32,
                                    is_uncompressed: stream_bits(data, p, 1) == 1,
                                },
                                p + 1,
                            ),
                        )
                    }
                }
            }
        }
    }
}

/// A whole meta-block header starting at `pos`: the last-block flag, the
/// empty flag on a last block, then the length fields.
pub open spec fn spec_meta_header(data: Seq<u8>, pos: int) -> Result<
    (MetaBlockHeader, int),
    BrotliError,
> {
    let len8 = 8 * data.len();
    if pos + 1 > len8 {
        Err(BrotliError::InsufficientData)
    } else {
        let is_last = stream_bits(data, pos, 1) == 1;
        if is_last {
            if pos + 2 > len8 {
                Err(BrotliError::InsufficientData)
            } else if stream_bits(data, pos + 1, 1) == 1 {
                Ok(
                    (
                        MetaBlockHeader {
                            is_last: true,
                            is_last_empty: true,
                            data_length: 0,
                            is_uncompressed: false,
                        },
                        pos + 2,
                    ),
                )
            } else {
                spec_meta_len(data, pos + 2, true)
            }
        } else {
            spec_meta_len(data, pos + 1, false)
        }
    }
}

/// A successfully parsed header sits strictly past `pos` and within the
/// real input, and declares at least one body byte.
pub proof fn lemma_meta_header_advances(data: Seq<u8>, pos: int)
    ensures
        spec_meta_header(data, pos) matches Ok(hp) ==> pos < hp.1 <= 8 * data.len() && (
        !hp.0.is_last_empty ==> hp.0.data_length >= 1),
{
    match spec_meta_header(data, pos) {
        Ok(hp) => {
            if !hp.0.is_last_empty {
                let q = if stream_bits(data, pos, 1) == 1 {
                    pos + 2
                } else {
                    pos + 1
                };
                let mn = stream_bits(data, q, 2);
                lemma_stream_bits_bound(data, q, 2);
                lemma2_to64();
                let mlen = stream_bits(data, q + 2, (4 * (mn + 4)) as nat);
                lemma_stream_bits_bound(data, q + 2, (4 * (mn + 4)) as nat);
                assert(pow2((4 * (mn + 4)) as nat) <= pow2(28)) by {
                    if 4 * (mn + 4) < 28 {
                        lemma_pow2_strictly_increases((4 * (mn + 4)) as nat, 28);
                    }
                }
                lemma2_to64();
            }
        },
        Err(_) => {},
    }
}

/// Rounding a bit position up to the next byte boundary lands on a byte
/// boundary and stays within any byte-aligned limit.
pub proof fn lemma_byte_align(p: int, len: int)
    requires
        p <= 8 * len,
    ensures
        ({
            let q = p + pad_to_byte(p);
            &&& q % 8 == 0
            &&& p <= q <= 8 * len
            &&& q / 8 == (if p % 8 == 0 {
                p / 8
            } else {
                p / 8 + 1
            })
        }),
{
    vstd::arithmetic::div_mod::lemma_fundamental_div_mod(p, 8);
    let d = p / 8;
    let r8 = p % 8;
    let q = p + pad_to_byte(p);
    if r8 == 0 {
        assert(q == 8 * d);
        vstd::arithmetic::div_mod::lemma_mod_multiples_basic(d, 8);
        vstd::arithmetic::div_mod::lemma_div_multiples_vanish(d, 8);
    } else {
        assert(q == 8 * (d + 1));
        vstd::arithmetic::div_mod::lemma_mod_multiples_basic(d + 1, 8);
        vstd::arithmetic::div_mod::lemma_div_multiples_vanish(d + 1, 8);
        assert(8 * d < 8 * len);
    }
}

/// The decoded bytes of the meta-block sequence starting at bit position
/// `pos`: each block is parsed, an empty last block ends the stream, an
/// uncompressed body is byte-aligned (its padding bits must be zero) and
/// copied whole, and anything Huffman-coded is outside this decoder's
/// scope.
#[verifier::rlimit(100)]
pub open spec fn spec_body(data: Seq<u8>, pos: int) -> Result<Seq<u8>, BrotliError>
    decreases 8 * data.len() - pos,
        via spec_body_decreases
{
    match spec_meta_header(data, pos) {
        Err(e) => Err(e),
        Ok(hp) => {
            let h = hp.0;
            let p = hp.1;
            if h.is_last_empty {
                Ok(Seq::empty())
            } else if h.is_uncompressed {
                let pad = pad_to_byte(p);
                if stream_bits(data, p, pad as nat) != 0 {
                    Err(BrotliError::InvalidEncoding)
                } else {
                    let q = p + pad;
                    if q / 8 + h.data_length > data.len() {
                        Err(BrotliError::InsufficientData)
                    } else {
                        let seg = data.subrange(q / 8, q / 8 + h.data_length);
                        if h.is_last {
                            Ok(seg)
                        } else {
                            match spec_body(data, q + 8 * h.data_length) {
                                Ok(rest) => Ok(seg + rest),
                                Err(e) => Err(e),
                            }
                        }
                    }
                }
            } else {
                Err(BrotliError::InvalidEncoding)
            }
        },
    }
}

#[via_fn]
proof fn spec_body_decreases(data: Seq<u8>, pos: int) {
    lemma_meta_header_advances(data, pos);
    match spec_meta_header(data, pos) {
        Ok(hp) => {
            lemma_byte_align(hp.1, data.len() as int);
        },
        Err(_) => {},
    }
}

/// The decoded bytes of a whole stream starting at `pos`: the window-size
/// header followed by the meta-block sequence.
pub open spec fn spec_decode(data: Seq<u8>, pos: int) -> Result<Seq<u8>, BrotliError> {
    spec_body(data, pos + window_bits_width(data, pos))
}

/// An empty stream — any window-size header followed immediately by a
/// last-and-empty meta-block — decodes to no bytes and completes cleanly.
pub proof fn lemma_empty_stream_decodes_empty(data: Seq<u8>, pos: int)
    requires
        0 <= pos,
        pos + window_bits_width(data, pos) + 2 <= 8 * data.len(),
        stream_bits(data, pos + window_bits_width(data, pos), 1) == 1,
        stream_bits(data, pos + window_bits_width(data, pos) + 1, 1) == 1,
    ensures
        spec_decode(data, pos) == Ok::<Seq<u8>, BrotliError>(Seq::empty()),
{
}

/// The bit position just past the meta-block sequence, for streams the
/// decoder accepts; where parsing fails, the position of the failing
/// header.
pub open spec fn body_end(data: Seq<u8>, pos: int) -> int
    decreases 8 * data.len() - pos,
        via body_end_decreases
{
    match spec_meta_header(data, pos) {
        Err(_) => pos,
        Ok(hp) => {
            let h = hp.0;
            let p = hp.1;
            if h.is_last_empty {
                p
            } else if h.is_uncompressed {
                let pad = pad_to_byte(p);
                if stream_bits(data, p, pad as nat) != 0 {
                    p
                } else {
                    let q = p + pad;
                    if q / 8 + h.data_length > data.len() {
                        p
                    } else if h.is_last {
                        q + 8 * h.data_length
                    } else {
                        body_end(data, q + 8 * h.data_length)
                    }
                }
            } else {
                p
            }
        },
    }
}

#[via_fn]
proof fn body_end_decreases(data: Seq<u8>, pos: int) {
    lemma_meta_header_advances(data, pos);
    match spec_meta_header(data, pos) {
        Ok(hp) => {
            lemma_byte_align(hp.1, data.len() as int);
        },
        Err(_) => {},
    }
}

/// The bit position just past the whole stream, window-size header
/// included.
pub open spec fn decode_end(data: Seq<u8>, pos: int) -> int {
    body_end(data, pos + window_bits_width(data, pos))
}

/// Bits that lie below a byte-boundary cut agree between a stream and its
/// truncation there.
proof fn lemma_truncated_stream_bits(data: Seq<u8>, c: int, pos: int, n: nat)
    requires
        0 <= c <= data.len(),
        0 <= pos,
        pos + n <= 8 * c,
    ensures
        stream_bits(data.take(c), pos, n) == stream_bits(data, pos, n),
    decreases n,
{
    if n > 0 {
        lemma_truncated_stream_bits(data, c, pos, (n - 1) as nat);
        let i = pos + n - 1;
        assert(i / 8 < c) by {
            vstd::arithmetic::div_mod::lemma_multiply_divide_lt(i, 8, c);
        }
        assert(crate::bitreader::byte_at(data.take(c), i / 8) == crate::bitreader::byte_at(
            data,
            i / 8,
        ));
    }
}

/// Parsing a meta-block header from a truncated stream either agrees with
/// the full stream or reports insufficient data.
proof fn lemma_truncated_meta_len(data: Seq<u8>, c: int, pos: int, is_last: bool)
    requires
        0 <= c <= data.len(),
        0 <= pos,
    ensures
        spec_meta_len(data.take(c), pos, is_last) == spec_meta_len(data, pos, is_last)
            || spec_meta_len(data.take(c), pos, is_last) == Err::<
            (MetaBlockHeader, int),
            BrotliError,
        >(BrotliError::InsufficientData),
{
    let t = data.take(c);
    let lt = 8 * c;
    if pos + 2 <= lt {
        lemma_truncated_stream_bits(data, c, pos, 2);
        let mn = stream_bits(data, pos, 2);
        if mn != 3 {
            let nibbles = mn + 4;
            if pos + 2 + 4 * nibbles <= lt {
                lemma_truncated_stream_bits(data, c, pos + 2, (4 * nibbles) as nat);
                if nibbles > 4 {
                    lemma_truncated_stream_bits(data, c, pos + 2 + 4 * (nibbles - 1), 4);
                }
                let p = pos + 2 + 4 * nibbles;
                if p + 1 <= lt {
                    lemma_truncated_stream_bits(data, c, p, 1);
                }
            }
        }
    }
}

/// As `lemma_truncated_meta_len`, for the whole header.
proof fn lemma_truncated_meta_header(data: Seq<u8>, c: int, pos: int)
    requires
        0 <= c <= data.len(),
        0 <= pos,
    ensures
        spec_meta_header(data.take(c), pos) == spec_meta_header(data, pos)
            || spec_meta_header(data.take(c), pos) == Err::<
            (MetaBlockHeader, int),
            BrotliError,
        >(BrotliError::InsufficientData),
{
    let t = data.take(c);
    let lt = 8 * c;
    if pos + 1 <= lt {
        lemma_truncated_stream_bits(data, c, pos, 1);
        if stream_bits(data, pos, 1) == 1 {
            if pos + 2 <= lt {
                lemma_truncated_stream_bits(data, c, pos + 1, 1);
                if stream_bits(data, pos + 1, 1) != 1 {
                    lemma_truncated_meta_len(data, c, pos + 2, true);
                }
            }
        } else {
            lemma_truncated_meta_len(data, c, pos + 1, false);
        }
    }
}

/// Truncating the byte stream at a byte boundary never changes the decoded
/// meta-block sequence silently: the truncated stream either decodes to
/// the very same result, or reports insufficient data — never a different
/// output and never a different error.
pub proof fn lemma_truncated_body(data: Seq<u8>, c: int, pos: int)
    requires
        0 <= c <= data.len(),
        0 <= pos,
    ensures
        spec_body(data.take(c), pos) == spec_body(data, pos) || spec_body(data.take(c), pos)
            == Err::<Seq<u8>, BrotliError>(BrotliError::InsufficientData),
    decreases 8 * c - pos,
{
    let t = data.take(c);
    lemma_truncated_meta_header(data, c, pos);
    match spec_meta_header(t, pos) {
        Err(_) => {},
        Ok(hp) => {
            let h = hp.0;
            let p = hp.1;
            lemma_meta_header_advances(t, pos);
            if !h.is_last_empty && h.is_uncompressed {
                lemma_byte_align(p, c);
                let pad = pad_to_byte(p);
                let q = p + pad;
                lemma_truncated_stream_bits(data, c, p, pad as nat);
                if stream_bits(data, p, pad as nat) == 0 {
                    if q / 8 + h.data_length <= c {
                        assert(t.subrange(q / 8, q / 8 + h.data_length) =~= data.subrange(
                            q / 8,
                            q / 8 + h.data_length,
                        ));
                        if !h.is_last {
                            lemma_truncated_body(data, c, q + 8 * h.data_length);
                        }
                    }
                }
            }
        },
    }
}

/// As `lemma_truncated_meta_header`, but precise: a header that the full
/// stream parses within the cut parses identically on the truncation, and
/// one that extends past the cut is reported as insufficient data.
proof fn lemma_truncated_meta_len_precise(data: Seq<u8>, c: int, pos: int, is_last: bool)
    requires
        0 <= c <= data.len(),
        0 <= pos,
    ensures
        match spec_meta_len(data, pos, is_last) {
            Ok(hp) => if hp.1 <= 8 * c {
                spec_meta_len(data.take(c), pos, is_last) == spec_meta_len(data, pos, is_last)
            } else {
                spec_meta_len(data.take(c), pos, is_last) == Err::<
                    (MetaBlockHeader, int),
                    BrotliError,
                >(BrotliError::InsufficientData)
            },
            Err(_) => true,
        },
{
    let lt = 8 * c;
    match spec_meta_len(data, pos, is_last) {
        Ok(hp) => {
            let mn = stream_bits(data, pos, 2);
            let nibbles = mn + 4;
            let p = pos + 2 + 4 * nibbles;
            if pos + 2 <= lt {
                lemma_truncated_stream_bits(data, c, pos, 2);
                if p <= lt {
                    lemma_truncated_stream_bits(data, c, pos + 2, (4 * nibbles) as nat);
                    if nibbles > 4 {
                        lemma_truncated_stream_bits(data, c, pos + 2 + 4 * (nibbles - 1), 4);
                    }
                    if p + 1 <= lt {
                        lemma_truncated_stream_bits(data, c, p, 1);
                    }
                }
            }
        },
        Err(_) => {},
    }
}

/// As `lemma_truncated_meta_len_precise`, for the whole header.
proof fn lemma_truncated_meta_header_precise(data: Seq<u8>, c: int, pos: int)
    requires
        0 <= c <= data.len(),
        0 <= pos,
    ensures
        match spec_meta_header(data, pos) {
            Ok(hp) => if hp.1 <= 8 * c {
                spec_meta_header(data.take(c), pos) == spec_meta_header(data, pos)
            } else {
                spec_meta_header(data.take(c), pos) == Err::<
                    (MetaBlockHeader, int),
                    BrotliError,
                >(BrotliError::InsufficientData)
            },
            Err(_) => true,
        },
{
    let lt = 8 * c;
    match spec_meta_header(data, pos) {
        Ok(hp) => {
            if pos + 1 <= lt {
                lemma_truncated_stream_bits(data, c, pos, 1);
                if stream_bits(data, pos, 1) == 1 {
                    if pos + 2 <= lt {
                        lemma_truncated_stream_bits(data, c, pos + 1, 1);
                        if stream_bits(data, pos + 1, 1) != 1 {
                            lemma_truncated_meta_len_precise(data, c, pos + 2, true);
                        }
                    }
                } else {
                    lemma_truncated_meta_len_precise(data, c, pos + 1, false);
                }
            }
        },
        Err(_) => {},
    }
}

/// Truncating a stream that the decoder accepts, at a byte boundary
/// strictly before its end, causes exactly `InsufficientData`.
pub proof fn lemma_truncation_insufficient_body(data: Seq<u8>, c: int, pos: int)
    requires
        0 <= c <= data.len(),
        0 <= pos,
        spec_body(data, pos) is Ok,
        8 * c < body_end(data, pos),
    ensures
        spec_body(data.take(c), pos) == Err::<Seq<u8>, BrotliError>(
            BrotliError::InsufficientData,
        ),
    decreases 8 * c - pos,
{
    let t = data.take(c);
    lemma_truncated_meta_header_precise(data, c, pos);
    lemma_meta_header_advances(data, pos);
    match spec_meta_header(data, pos) {
        Err(_) => {},
        Ok(hp) => {
            let h = hp.0;
            let p = hp.1;
            if p <= 8 * c {
                lemma_byte_align(p, c);
                lemma_byte_align(p, data.len() as int);
                let pad = pad_to_byte(p);
                let q = p + pad;
                lemma_truncated_stream_bits(data, c, p, pad as nat);
                if !h.is_last_empty && h.is_uncompressed && stream_bits(data, p, pad as nat)
                    == 0 && q / 8 + h.data_length <= data.len() {
                    if q / 8 + h.data_length <= c {
                        if !h.is_last {
                            lemma_truncation_insufficient_body(data, c, q + 8 * h.data_length);
                        }
                    }
                }
            }
        },
    }
}

/// The strict truncation law for whole streams: cutting a stream that
/// decodes successfully at any byte boundary strictly before its end
/// causes `InsufficientData` — never a silent wrong output.
pub proof fn lemma_truncation_insufficient(data: Seq<u8>, c: int, pos: int)
    requires
        0 <= c <= data.len(),
        0 <= pos,
        pos + 7 <= 8 * c,
        spec_decode(data, pos) is Ok,
        8 * c < decode_end(data, pos),
    ensures
        spec_decode(data.take(c), pos) == Err::<Seq<u8>, BrotliError>(
            BrotliError::InsufficientData,
        ),
{
    lemma_truncated_stream_bits(data, c, pos, 1);
    lemma_truncated_stream_bits(data, c, pos + 1, 3);
    lemma_truncated_stream_bits(data, c, pos + 4, 3);
    lemma_truncation_insufficient_body(data, c, pos + window_bits_width(data, pos));
}

/// The same guarantee for a whole stream, window-size header included: a
/// decoder over a truncated stream never silently produces wrong output.
pub proof fn lemma_truncation_detected(data: Seq<u8>, c: int, pos: int)
    requires
        0 <= c <= data.len(),
        0 <= pos,
        pos + 7 <= 8 * c,
    ensures
        spec_decode(data.take(c), pos) == spec_decode(data, pos) || spec_decode(
            data.take(c),
            pos,
        ) == Err::<Seq<u8>, BrotliError>(BrotliError::InsufficientData),
{
    lemma_truncated_stream_bits(data, c, pos, 1);
    lemma_truncated_stream_bits(data, c, pos + 1, 3);
    lemma_truncated_stream_bits(data, c, pos + 4, 3);
    lemma_truncated_body(data, c, pos + window_bits_width(data, pos));
}

/// A vector of `n` bytes, used as a destination buffer.
fn make_buf(n: usize) -> (v: Vec<u8>)
    ensures
        v@.len() == n,
{
    let mut v: Vec<u8> = Vec::new();
    let mut k: usize = 0;
    while k < n
        invariant
            k <= n,
            v@.len() == k,
        decreases n - k,
    {
        v.push(0);
        k = k + 1;
    }
    v
}

/// Decodes a stream pulled from a bit reader.
pub struct Decoder<BR: BitReader> {
    br: BR,
}

impl<BR: BitReader> Decoder<BR> {
    /// The bit reader driven by this decoder.
    pub closed spec fn reader(&self) -> BR {
        self.br
    }

    pub fn new(source: BR) -> (d: Decoder<BR>)
        ensures
            d.reader() == source,
    {
        Decoder { br: source }
    }

    /// Reads the window-size header: 1, 4 or 7 bits of nested conditionals.
    pub fn decode_window_bits(br: &mut BR) -> (w: u32)
        requires
            old(br).wf(),
            old(br).cursor() + 7 <= 8 * old(br).data().len() + 8 * (IMPLICIT_ZEROES as int),
        ensures
            final(br).wf(),
            final(br).data() == old(br).data(),
            final(br).cursor() == old(br).cursor() + window_bits_width(
                old(br).data(),
                old(br).cursor(),
            ),
            w as int == window_bits_value(old(br).data(), old(br).cursor()),
    {
        proof {
            lemma_stream_bits_bound(old(br).data(), old(br).cursor(), 1);
            lemma_stream_bits_bound(old(br).data(), old(br).cursor() + 1, 3);
            lemma_stream_bits_bound(old(br).data(), old(br).cursor() + 4, 3);
            lemma2_to64();
        }
        if br.read_bits(1) == 0 {
            16
        } else {
            let n = br.read_bits(3);
            if n != 0 {
                n + 17
            } else {
                let n = br.read_bits(3);
                if n != 0 {
                    n + 8
                } else {
                    17
                }
            }
        }
    }

    /// Reads one meta-block header, reporting a truncated stream as
    /// `InsufficientData` and reserved or malformed length fields as
    /// `InvalidEncoding`.
    pub fn decode_meta_block_header(br: &mut BR) -> (r: Result<MetaBlockHeader, BrotliError>)
        requires
            old(br).wf(),
        ensures
            final(br).wf(),
            final(br).data() == old(br).data(),
            final(br).cursor() >= old(br).cursor(),
            match spec_meta_header(old(br).data(), old(br).cursor()) {
                Ok(hp) => r == Ok::<MetaBlockHeader, BrotliError>(hp.0) && final(br).cursor()
                    == hp.1,
                Err(e) => r == Err::<MetaBlockHeader, BrotliError>(e),
            },
    {
        proof {
            lemma_stream_bits_bound(old(br).data(), old(br).cursor(), 1);
            lemma_stream_bits_bound(old(br).data(), old(br).cursor() + 1, 1);
            lemma2_to64();
        }
        let is_last = match br.safe_read_bits(1) {
            None => {
                return Err(BrotliError::InsufficientData);
            },
            Some(b) => b == 1,
        };
        if is_last {
            let empty = match br.safe_read_bits(1) {
                None => {
                    return Err(BrotliError::InsufficientData);
                },
                Some(b) => b == 1,
            };
            if empty {
                return Ok(
                    MetaBlockHeader {
                        is_last: true,
                        is_last_empty: true,
                        data_length: 0,
                        is_uncompressed: false,
                    },
                );
            }
        }
        Self::decode_meta_len(br, is_last)
    }

    /// Reads the length fields of a meta-block header: the nibble count,
    /// the length nibbles and the uncompressed flag.
    #[verifier::rlimit(100)]
    fn decode_meta_len(br: &mut BR, is_last: bool) -> (r: Result<MetaBlockHeader, BrotliError>)
        requires
            old(br).wf(),
        ensures
            final(br).wf(),
            final(br).data() == old(br).data(),
            final(br).cursor() >= old(br).cursor(),
            match spec_meta_len(old(br).data(), old(br).cursor(), is_last) {
                Ok(hp) => r == Ok::<MetaBlockHeader, BrotliError>(hp.0) && final(br).cursor()
                    == hp.1,
                Err(e) => r == Err::<MetaBlockHeader, BrotliError>(e),
            },
    {
        let ghost data = old(br).data();
        let ghost lpos = old(br).cursor();
        let mn = match br.safe_read_bits(2) {
            None => {
                return Err(BrotliError::InsufficientData);
            },
            Some(b) => b,
        };
        proof {
            lemma_stream_bits_bound(data, lpos, 2);
            lemma2_to64();
        }
        if mn == 3 {
            return Err(BrotliError::InvalidEncoding);
        }
        let nibbles: u32 = mn + 4;
        let mut mlen: u32 = 0;
        let mut last_nib: u32 = 0;
        let mut k: u32 = 0;
        proof {
            lemma2_to64();
        }
        while k < nibbles
            invariant
                data == old(br).data(),
                lpos == old(br).cursor(),
                stream_bits(data, lpos, 2) == mn as int,
                mn <= 2,
                nibbles == mn + 4,
                k <= nibbles,
                br.wf(),
                br.data() == data,
                br.cursor() == lpos + 2 + 4 * k,
                lpos + 2 + 4 * k <= 8 * data.len(),
                mlen as int == stream_bits(data, lpos + 2, (4 * k) as nat),
                mlen < pow2((4 * k) as nat),
                k > 0 ==> last_nib as int == stream_bits(data, lpos + 2 + 4 * (k - 1), 4),
            decreases nibbles - k,
        {
            let nib = match br.safe_read_bits(4) {
                None => {
                    return Err(BrotliError::InsufficientData);
                },
                Some(b) => b,
            };
            proof {
                lemma_stream_bits_bound(data, lpos + 2 + 4 * k, 4);
                lemma_stream_bits_split(data, lpos + 2, (4 * k) as nat, 4);
                lemma2_to64();
                if 4 * k < 24 {
                    lemma_pow2_strictly_increases((4 * k) as nat, 24);
                }
                vstd::arithmetic::power2::lemma_pow2_adds((4 * k) as nat, 4);
                assert(stream_bits(data, lpos + 2, (4 * k + 4) as nat) == mlen + stream_bits(
                    data,
                    lpos + 2 + 4 * k,
                    4,
                ) * pow2((4 * k) as nat));
                assert(stream_bits(data, lpos + 2 + 4 * k, 4) * pow2((4 * k) as nat) <= 15 * pow2(
                    (4 * k) as nat,
                )) by (nonlinear_arith)
                    requires
                        stream_bits(data, lpos + 2 + 4 * k, 4) <= 15,
                ;
            }
            let w: u32 = 1u32 << (4 * k);
            proof {
                vstd::bits::lemma_u32_shl_is_mul(1u32, (4 * k) as u32);
            }
            mlen = mlen + nib * w;
            last_nib = nib;
            k = k + 1;
        }
        if nibbles > 4 && last_nib == 0 {
            return Err(BrotliError::InvalidEncoding);
        }
        let uncompressed = match br.safe_read_bits(1) {
            None => {
                return Err(BrotliError::InsufficientData);
            },
            Some(b) => b == 1,
        };
        proof {
            lemma_stream_bits_bound(data, lpos + 2, (4 * nibbles) as nat);
            lemma_stream_bits_bound(data, lpos + 2 + 4 * nibbles, 1);
            if 4 * nibbles < 24 {
                lemma_pow2_strictly_increases((4 * nibbles) as nat, 24);
            }
            lemma2_to64();
        }
        Ok(
            MetaBlockHeader {
                is_last,
                is_last_empty: false,
                data_length: mlen + 1,
                is_uncompressed: uncompressed,
            },
        )
    }

    /// Decodes the whole stream: the window-size header, then meta-blocks
    /// until an empty last block or a last uncompressed body ends it.
    #[verifier::rlimit(100)]
    pub fn decode(&mut self) -> (r: Result<Vec<u8>, BrotliError>)
        requires
            old(self).reader().wf(),
            old(self).reader().cursor() <= 8 * old(self).reader().data().len(),
        ensures
            final(self).reader().wf(),
            final(self).reader().data() == old(self).reader().data(),
            match spec_decode(old(self).reader().data(), old(self).reader().cursor()) {
                Ok(s) => r matches Ok(v) && v@ == s,
                Err(e) => r matches Err(e2) && e2 == e,
            },
    {
        let ghost data = old(self).reader().data();
        let ghost pos0 = old(self).reader().cursor();
        proof {
            self.br.wf_facts();
        }
        // The negotiated window size bounds back-reference distances; the
        // uncompressed and empty block forms decoded here never look back,
        // so only the header's width matters.
        let _w: u32 = Self::decode_window_bits(&mut self.br);
        let mut out: Vec<u8> = Vec::new();
        loop
            invariant
                data == old(self).reader().data(),
                pos0 == old(self).reader().cursor(),
                self.br.wf(),
                self.br.data() == data,
                self.br.cursor() >= 0,
                spec_decode(data, pos0) == match spec_body(data, self.br.cursor()) {
                    Ok(rest) => Ok::<Seq<u8>, BrotliError>(out@ + rest),
                    Err(e) => Err::<Seq<u8>, BrotliError>(e),
                },
            decreases 8 * data.len() + 8 * (IMPLICIT_ZEROES as int) - self.br.cursor(),
        {
            let ghost c = self.br.cursor();
            proof {
                self.br.wf_facts();
                lemma_meta_header_advances(data, c);
            }
            let h = match Self::decode_meta_block_header(&mut self.br) {
                Err(e) => {
                    return Err(e);
                },
                Ok(h) => h,
            };
            if h.is_last_empty {
                proof {
                    assert(out@ + Seq::<u8>::empty() =~= out@);
                }
                return Ok(out);
            }
            if !h.is_uncompressed {
                return Err(BrotliError::InvalidEncoding);
            }
            let ghost p = self.br.cursor();
            if !self.br.jump_to_byte_boundary() {
                return Err(BrotliError::InvalidEncoding);
            }
            let ghost q = self.br.cursor();
            proof {
                lemma_byte_align(p, data.len() as int);
            }
            let need: usize = h.data_length as usize;
            if self.br.get_remaining_bytes() < need {
                return Err(BrotliError::InsufficientData);
            }
            let mut seg: Vec<u8> = make_buf(need);
            self.br.copy_bytes(&mut seg);
            let ghost out_before = out@;
            out.append(&mut seg);
            proof {
                let spec_seg = data.subrange(q / 8, q / 8 + h.data_length as int);
                assert(out@ =~= out_before + spec_seg);
                if !h.is_last {
                    match spec_body(data, q + 8 * h.data_length) {
                        Ok(rest) => {
                            assert((out_before + spec_seg) + rest =~= out_before + (spec_seg
                                + rest));
                        },
                        Err(_) => {},
                    }
                }
            }
            if h.is_last {
                return Ok(out);
            }
        }
    }
}

/// One decoded step of a meta-block body: a literal insertion paired with
/// a back-reference copy.
#[derive(Debug, Clone, Copy, PartialEq, Eq, Structural)]
pub struct Command {
    pub insert_length: u32,
    pub copy_length: u32,
    pub distance_code: u32,
    pub is_implicit_distance: bool,
}

impl Command {
    /// Assembles a command from its lookup-table entry and the extra raw
    /// bits read from the stream: each length is the table's base offset
    /// plus the extra bits. An entry without an explicit distance code
    /// implicitly reuses the most recent distance.
    pub fn from_lut(e: &crate::prefix::CmdLutElement, insert_extra: u32, copy_extra: u32) -> (c:
        Command)
        requires
            insert_extra < 0x0100_0000,
            copy_extra < 0x0100_0000,
        ensures
            c.insert_length == e.insert_len_offset + insert_extra,
            c.copy_length == e.copy_len_offset + copy_extra,
            c.distance_code == 0,
            c.is_implicit_distance == !e.distance_code,
    {
        Command {
            insert_length: (e.insert_len_offset as u32) + insert_extra,
            copy_length: (e.copy_len_offset as u32) + copy_extra,
            distance_code: 0,
            is_implicit_distance: !e.distance_code,
        }
    }
}

/// The four most recently used back-reference distances, newest first,
/// serving the format's short repeat-distance codes.
pub struct DistanceCache {
    slots: Vec<u32>,
}

impl DistanceCache {
    /// The cached distances, newest first.
    pub closed spec fn view_slots(&self) -> Seq<u32> {
        self.slots@
    }

    pub open spec fn wf(&self) -> bool {
        self.view_slots().len() == 4
    }

    /// A fresh cache holding the format's initial distances.
    pub fn new() -> (c: DistanceCache)
        ensures
            c.wf(),
            c.view_slots() == seq![16u32, 15u32, 11u32, 4u32],
    {
        let mut slots: Vec<u32> = Vec::new();
        slots.push(16);
        slots.push(15);
        slots.push(11);
        slots.push(4);
        let c = DistanceCache { slots };
        proof {
            assert(c.view_slots() =~= seq![16u32, 15u32, 11u32, 4u32]);
        }
        c
    }

    /// The `i`-th most recent distance.
    pub fn get(&self, i: usize) -> (d: u32)
        requires
            self.wf(),
            i < 4,
        ensures
            d == self.view_slots()[i as int],
    {
        self.slots[i]
    }

    /// Records a distance as most recently used, dropping the oldest.
    pub fn push(&mut self, d: u32)
        requires
            old(self).wf(),
        ensures
            final(self).wf(),
            final(self).view_slots() == seq![
                d,
                old(self).view_slots()[0],
                old(self).view_slots()[1],
                old(self).view_slots()[2],
            ],
    {
        let s2 = self.slots[2];
        let s1 = self.slots[1];
        let s0 = self.slots[0];
        self.slots[3] = s2;
        self.slots[2] = s1;
        self.slots[1] = s0;
        self.slots[0] = d;
        proof {
            assert(self.view_slots() =~= seq![
                d,
                old(self).view_slots()[0],
                old(self).view_slots()[1],
                old(self).view_slots()[2],
            ]);
        }
    }
}

} // verus!
