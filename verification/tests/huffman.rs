use brotli_dec::BrotliError;
use brotli_dec::bitreader::StreamBitReader;
use brotli_dec::huffman::Table;

/// Packs codes into a little-endian bit stream, each code written most
/// significant bit first, as the format transmits Huffman codes.
fn pack_codes(codes: &[(u16, u8)]) -> Vec<u8> {
    let mut bytes: Vec<u8> = Vec::new();
    let mut nbits: usize = 0;
    for &(code, len) in codes {
        for k in (0..len).rev() {
            let bit = (code >> k) & 1;
            if nbits % 8 == 0 {
                bytes.push(0);
            }
            let last = bytes.len() - 1;
            bytes[last] |= (bit as u8) << (nbits % 8);
            nbits += 1;
        }
    }
    bytes
}

#[test]
fn build_rejects_oversubscribed_lengths() {
    let mut t = Table::default();
    assert_eq!(
        t.build_from_code_lengths(&vec![1u8, 1, 1]),
        Err(BrotliError::InvalidEncoding)
    );
}

#[test]
fn build_rejects_undersubscribed_lengths() {
    let mut t = Table::default();
    assert_eq!(
        t.build_from_code_lengths(&vec![2u8, 2, 2]),
        Err(BrotliError::InvalidEncoding)
    );
    assert_eq!(
        t.build_from_code_lengths(&vec![1u8]),
        Err(BrotliError::InvalidEncoding)
    );
    assert_eq!(
        t.build_from_code_lengths(&Vec::new()),
        Err(BrotliError::InvalidEncoding)
    );
}

#[test]
fn build_rejects_overlong_code_length() {
    let mut t = Table::default();
    assert_eq!(
        t.build_from_code_lengths(&vec![16u8, 1]),
        Err(BrotliError::InvalidEncoding)
    );
}

#[test]
fn build_rejects_oversized_alphabet() {
    let mut t = Table::default();
    assert_eq!(
        t.build_from_code_lengths(&vec![15u8; 705]),
        Err(BrotliError::InvalidEncoding)
    );
}

#[test]
fn build_accepts_complete_lengths() {
    let mut t = Table::default();
    assert_eq!(t.build_from_code_lengths(&vec![1u8, 2, 3, 3]), Ok(()));
    assert_eq!(t.build_from_code_lengths(&vec![2u8, 2, 2, 2]), Ok(()));
}

#[test]
fn round_trip_uneven_code() {
    // Canonical codes for lengths [1, 2, 3, 3]: 0, 10, 110, 111.
    let lengths = vec![1u8, 2, 3, 3];
    let mut t = Table::default();
    t.build_from_code_lengths(&lengths).unwrap();
    let symbols: Vec<u16> = vec![0, 1, 2, 3, 3, 2, 1, 0, 0, 0, 3];
    let coded: Vec<(u16, u8)> = symbols
        .iter()
        .map(|&s| {
            let code: u16 = [0b0, 0b10, 0b110, 0b111][s as usize];
            (code, lengths[s as usize])
        })
        .collect();
    let mut br = StreamBitReader::new(pack_codes(&coded));
    for &expected in &symbols {
        assert_eq!(t.read_huffman_symbol(&mut br), expected);
    }
}

#[test]
fn round_trip_with_unused_symbols() {
    // Symbols 1 and 4 are unused; 0, 2, 3 get codes 10, 11, 0.
    let lengths = vec![2u8, 0, 2, 1, 0];
    let mut t = Table::default();
    t.build_from_code_lengths(&lengths).unwrap();
    let codes = |s: u16| -> (u16, u8) {
        match s {
            0 => (0b10, 2),
            2 => (0b11, 2),
            _ => (0b0, 1),
        }
    };
    let symbols: Vec<u16> = vec![3, 0, 2, 2, 3, 0];
    let coded: Vec<(u16, u8)> = symbols.iter().map(|&s| codes(s)).collect();
    let mut br = StreamBitReader::new(pack_codes(&coded));
    for &expected in &symbols {
        assert_eq!(t.read_huffman_symbol(&mut br), expected);
    }
}

#[test]
fn round_trip_long_codes() {
    // A skewed code with lengths one through fifteen, the last two sharing
    // depth fifteen.
    let mut lengths: Vec<u8> = (1u8..=14).collect();
    lengths.push(15);
    lengths.push(15);
    let mut t = Table::default();
    t.build_from_code_lengths(&lengths).unwrap();
    // Canonical codes here: symbol k of length k+1 gets 2^(k+1) - 2, and
    // the last two get 2^15 - 2 and 2^15 - 1.
    let code_of = |s: u16| -> (u16, u8) {
        if s < 14 {
            ((1u16 << (s + 1)) - 2, (s + 1) as u8)
        } else if s == 14 {
            (0x7FFE, 15)
        } else {
            (0x7FFF, 15)
        }
    };
    let symbols: Vec<u16> = vec![0, 5, 13, 14, 15, 1, 0];
    let coded: Vec<(u16, u8)> = symbols.iter().map(|&s| code_of(s)).collect();
    let mut br = StreamBitReader::new(pack_codes(&coded));
    for &expected in &symbols {
        assert_eq!(t.read_huffman_symbol(&mut br), expected);
    }
}

#[test]
fn fresh_table_is_blank() {
    // Every entry of a fresh table is blank: a probe decodes symbol zero
    // and consumes nothing.
    let t = Table::default();
    let mut br = StreamBitReader::new(vec![0xFF, 0xFF]);
    assert_eq!(t.read_huffman_symbol(&mut br), 0);
    assert_eq!(t.read_huffman_symbol(&mut br), 0);
}
