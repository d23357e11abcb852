use brotli_dec::BrotliError;
use brotli_dec::bitreader::StreamBitReader;
use brotli_dec::decoder::Decoder;

/// A little-endian bit packer for composing test streams.
struct Packer {
    bytes: Vec<u8>,
    nbits: usize,
}

impl Packer {
    fn new() -> Packer {
        Packer { bytes: Vec::new(), nbits: 0 }
    }

    /// Appends the low `len` bits of `value`, least significant first.
    fn bits(&mut self, value: u32, len: u32) {
        for k in 0..len {
            if self.nbits % 8 == 0 {
                self.bytes.push(0);
            }
            let bit = ((value >> k) & 1) as u8;
            let last = self.bytes.len() - 1;
            self.bytes[last] |= bit << (self.nbits % 8);
            self.nbits += 1;
        }
    }

    fn align(&mut self) {
        while self.nbits % 8 != 0 {
            self.bits(0, 1);
        }
    }

    fn byte(&mut self, b: u8) {
        self.align();
        self.bytes.push(b);
        self.nbits += 8;
    }
}

fn window_bits_of(data: Vec<u8>) -> u32 {
    let mut br = StreamBitReader::new(data);
    Decoder::decode_window_bits(&mut br)
}

#[test]
fn window_bits_zero_selects_sixteen() {
    let mut p = Packer::new();
    p.bits(0, 1);
    assert_eq!(window_bits_of(p.bytes), 16);
}

#[test]
fn window_bits_long_form() {
    // Bits 1, then 101 as a three-bit five.
    let mut p = Packer::new();
    p.bits(1, 1);
    p.bits(5, 3);
    assert_eq!(window_bits_of(p.bytes), 22);
}

#[test]
fn window_bits_low_form() {
    // Bits 1, then zero, then 011 as a three-bit three.
    let mut p = Packer::new();
    p.bits(1, 1);
    p.bits(0, 3);
    p.bits(3, 3);
    assert_eq!(window_bits_of(p.bytes), 11);
}

#[test]
fn window_bits_double_zero_selects_seventeen() {
    let mut p = Packer::new();
    p.bits(1, 1);
    p.bits(0, 3);
    p.bits(0, 3);
    assert_eq!(window_bits_of(p.bytes), 17);
}

/// Every valid window-size header form, as (packed bits, bit width).
fn all_window_headers() -> Vec<Vec<u8>> {
    let mut headers = Vec::new();
    let mut p = Packer::new();
    p.bits(0, 1);
    headers.push(p.bytes);
    for n in 1..8u32 {
        let mut p = Packer::new();
        p.bits(1, 1);
        p.bits(n, 3);
        headers.push(p.bytes);
    }
    for m in 0..8u32 {
        let mut p = Packer::new();
        p.bits(1, 1);
        p.bits(0, 3);
        p.bits(m, 3);
        headers.push(p.bytes);
    }
    headers
}

#[test]
fn empty_stream_decodes_to_nothing_for_every_window_header() {
    // A last-and-empty meta-block directly after the window bits.
    for header in all_window_headers() {
        // The window bits occupy 1, 4 or 7 bits of the first byte; rebuild
        // the stream with the last-empty flags right after them.
        let mut q = Packer::new();
        let width = if header[0] & 1 == 0 {
            1
        } else if (header[0] >> 1) & 7 != 0 {
            4
        } else {
            7
        };
        for k in 0..width {
            q.bits(((header[0] >> k) & 1) as u32, 1);
        }
        q.bits(1, 1); // is_last
        q.bits(1, 1); // is_last_empty
        let mut d = Decoder::new(StreamBitReader::new(q.bytes));
        assert_eq!(d.decode(), Ok(Vec::new()));
    }
}

/// A well-formed stream holding `payload` in one uncompressed meta-block.
fn uncompressed_stream(payload: &[u8]) -> Vec<u8> {
    let mut p = Packer::new();
    p.bits(0, 1); // window bits: sixteen
    p.bits(1, 1); // is_last
    p.bits(0, 1); // not last-empty
    p.bits(0, 2); // four length nibbles
    p.bits((payload.len() - 1) as u32, 16);
    p.bits(1, 1); // is_uncompressed
    p.align();
    for &b in payload {
        p.byte(b);
    }
    p.bytes
}

#[test]
fn uncompressed_block_round_trips() {
    let payload = b"uncompressed body";
    let mut d = Decoder::new(StreamBitReader::new(uncompressed_stream(payload)));
    assert_eq!(d.decode(), Ok(payload.to_vec()));
}

#[test]
fn two_uncompressed_blocks_concatenate() {
    let mut p = Packer::new();
    p.bits(0, 1); // window bits: sixteen
    // First block: not last, three bytes.
    p.bits(0, 1);
    p.bits(0, 2);
    p.bits(2, 16);
    p.bits(1, 1);
    p.align();
    p.byte(b'a');
    p.byte(b'b');
    p.byte(b'c');
    // Second block: last and empty.
    p.bits(1, 1);
    p.bits(1, 1);
    let mut d = Decoder::new(StreamBitReader::new(p.bytes));
    assert_eq!(d.decode(), Ok(b"abc".to_vec()));
}

#[test]
fn truncation_at_any_byte_boundary_is_insufficient_data() {
    let stream = uncompressed_stream(b"truncate me anywhere");
    let mut d = Decoder::new(StreamBitReader::new(stream.clone()));
    assert!(d.decode().is_ok());
    for cut in 0..stream.len() {
        let mut d = Decoder::new(StreamBitReader::new(stream[..cut].to_vec()));
        assert_eq!(d.decode(), Err(BrotliError::InsufficientData), "cut {}", cut);
    }
}

#[test]
fn truncated_empty_header_is_insufficient_data() {
    let mut d = Decoder::new(StreamBitReader::new(Vec::new()));
    assert_eq!(d.decode(), Err(BrotliError::InsufficientData));
}

#[test]
fn nonzero_padding_before_uncompressed_body_is_invalid() {
    let mut p = Packer::new();
    p.bits(0, 1);
    p.bits(1, 1);
    p.bits(0, 1);
    p.bits(0, 2);
    p.bits(0, 16);
    p.bits(1, 1);
    p.bits(1, 1); // a set padding bit
    p.align();
    p.byte(0x55);
    let mut d = Decoder::new(StreamBitReader::new(p.bytes));
    assert_eq!(d.decode(), Err(BrotliError::InvalidEncoding));
}

#[test]
fn reserved_nibble_count_is_invalid() {
    let mut p = Packer::new();
    p.bits(0, 1);
    p.bits(1, 1);
    p.bits(0, 1);
    p.bits(3, 2); // reserved nibble count
    let mut d = Decoder::new(StreamBitReader::new(p.bytes));
    assert_eq!(d.decode(), Err(BrotliError::InvalidEncoding));
}

#[test]
fn huffman_coded_body_is_outside_the_supported_subset() {
    let mut p = Packer::new();
    p.bits(0, 1);
    p.bits(1, 1);
    p.bits(0, 1);
    p.bits(0, 2);
    p.bits(0, 16);
    p.bits(0, 1); // not uncompressed
    p.byte(0);
    let mut d = Decoder::new(StreamBitReader::new(p.bytes));
    assert_eq!(d.decode(), Err(BrotliError::InvalidEncoding));
}

#[test]
fn meta_block_header_reads_length_nibbles() {
    let mut p = Packer::new();
    p.bits(0, 1); // not last
    p.bits(1, 2); // five length nibbles
    p.bits(0xABCDE, 20);
    p.bits(1, 1); // uncompressed
    p.bits(0, 8); // trailing spare bits
    let mut br = StreamBitReader::new(p.bytes);
    let h = Decoder::decode_meta_block_header(&mut br).unwrap();
    assert!(!h.is_last);
    assert!(!h.is_last_empty);
    assert!(h.is_uncompressed);
    assert_eq!(h.data_length, 0xABCDE + 1);
}

#[test]
fn meta_block_header_rejects_zero_top_nibble() {
    let mut p = Packer::new();
    p.bits(0, 1); // not last
    p.bits(1, 2); // five length nibbles
    p.bits(0x0BCDE, 20); // top nibble zero
    p.bits(1, 1);
    p.bits(0, 8);
    let mut br = StreamBitReader::new(p.bytes);
    assert_eq!(
        Decoder::decode_meta_block_header(&mut br),
        Err(BrotliError::InvalidEncoding)
    );
}
