// Component-level checks: table construction, bit reading, amplitude
// decoding, the inverse DCT and color conversion.

use jpegdec::color::tr255;
use jpegdec::color::ycbcr_to_rgb;
use jpegdec::decoder::ceildiv;
use jpegdec::decoder::rst_due;
use jpegdec::decoder::rst_expected;
use jpegdec::error::DecodeError;
use jpegdec::haff::HaffDecoder;
use jpegdec::haff::HaffTable;
use jpegdec::idct::idct;
use jpegdec::idct::zigzag_index;
use jpegdec::stream::ByteStream;

#[test]
fn ceildiv_values() {
    assert_eq!(ceildiv(0, 8), 0);
    assert_eq!(ceildiv(1, 8), 1);
    assert_eq!(ceildiv(16, 16), 1);
    assert_eq!(ceildiv(17, 16), 2);
    assert_eq!(ceildiv(65535, 32), 2048);
}

/// The MCU grid covers the image: `f * ceildiv(dim, f) >= dim`.
#[test]
fn ceildiv_covers() {
    for dim in [0u64, 1, 7, 8, 9, 63, 64, 65, 65535] {
        for f in [8u64, 16, 24, 32] {
            let tiles = ceildiv(dim, f);
            assert!(f * tiles >= dim);
            assert!(f * tiles < dim + f);
        }
    }
}

/// Canonical assignment: with two codes of length 2 and one of
/// length 3, the code ranges and value indices follow the standard
/// construction.
#[test]
fn hafftable_canonical_construction() {
    let mut bits = [0u8; 16];
    bits[1] = 2;
    bits[2] = 1;
    let mut values = [0u8; 256];
    values[0] = 7;
    values[1] = 9;
    values[2] = 4;
    let t = HaffTable::new(0, 2, bits, values);
    assert_eq!(t.tc, 0);
    assert_eq!(t.id, 2);
    assert_eq!(t.mincodes[1], 0);
    assert_eq!(t.maxcodes[1], 1);
    assert_eq!(t.indices[1], 0);
    assert_eq!(t.mincodes[2], 4);
    assert_eq!(t.maxcodes[2], 4);
    assert_eq!(t.indices[2], 2);
    assert_eq!(t.mincodes[0], -1);
    assert_eq!(t.indices[15], -1);
}

fn two_code_table() -> HaffTable {
    let mut bits = [0u8; 16];
    bits[1] = 2;
    let mut values = [0u8; 256];
    values[0] = 7;
    values[1] = 9;
    HaffTable::new(0, 0, bits, values)
}

/// Decoding the bits of each assigned code yields its symbol back.
#[test]
fn huffman_symbol_round_trip() {
    let t = two_code_table();
    // Code '00' is the first symbol.
    let mut s = ByteStream::new(vec![0x00]);
    let mut d = HaffDecoder::new();
    assert_eq!(d.parse_haff(&mut s, &t), Ok(7));
    // Code '01' is the second symbol.
    let mut s = ByteStream::new(vec![0x40]);
    let mut d = HaffDecoder::new();
    assert_eq!(d.parse_haff(&mut s, &t), Ok(9));
}

/// Sixteen bits without a match fail the decode.
#[test]
fn huffman_no_match() {
    let t = two_code_table();
    // All ones never enters the '00'/'01' range.
    let mut s = ByteStream::new(vec![0xff, 0x00, 0xff, 0x00]);
    let mut d = HaffDecoder::new();
    assert_eq!(d.parse_haff(&mut s, &t), Err(DecodeError::HuffmanDecodeError));
}

/// Amplitude decoding: a raw field in the upper half is the value
/// itself, one in the lower half sign-extends downwards.
#[test]
fn amplitude_decoding() {
    // '101' -> 5.
    let mut s = ByteStream::new(vec![0xa0]);
    let mut d = HaffDecoder::new();
    assert_eq!(d.read_ssss_bits(3, &mut s), Ok(5));
    // '010' -> 2 - 8 + 1 = -5.
    let mut s = ByteStream::new(vec![0x40]);
    let mut d = HaffDecoder::new();
    assert_eq!(d.read_ssss_bits(3, &mut s), Ok(-5));
    // A zero-width field is the amplitude 0 and reads nothing.
    let mut s = ByteStream::new(vec![]);
    let mut d = HaffDecoder::new();
    assert_eq!(d.read_ssss_bits(0, &mut s), Ok(0));
}

/// Every amplitude category round-trips over its legal range.
#[test]
fn amplitude_round_trip_all_categories() {
    for ssss in 1u32..=11 {
        let lo = 1i32 << (ssss - 1);
        let hi = (1i32 << ssss) - 1;
        for mag in [lo, hi] {
            for v in [mag, -mag] {
                // Encode: negative amplitudes shift into the low half.
                let raw = if v < 0 { v + (1 << ssss) - 1 } else { v } as u32;
                // Feed the raw bits MSB first.
                let mut bytes = Vec::new();
                let mut acc: u32 = 0;
                let mut nbits = 0;
                for k in (0..ssss).rev() {
                    acc = (acc << 1) | ((raw >> k) & 1);
                    nbits += 1;
                    if nbits == 8 {
                        bytes.push(acc as u8);
                        // A literal FF data byte is written stuffed.
                        if acc as u8 == 0xff {
                            bytes.push(0x00);
                        }
                        acc = 0;
                        nbits = 0;
                    }
                }
                if nbits > 0 {
                    let b = (acc << (8 - nbits)) as u8;
                    bytes.push(b);
                    if b == 0xff {
                        bytes.push(0x00);
                    }
                }
                let mut s = ByteStream::new(bytes);
                let mut d = HaffDecoder::new();
                assert_eq!(d.read_ssss_bits(ssss as u8, &mut s), Ok(v));
            }
        }
    }
}

/// A stuffed `FF 00` pair feeds the eight bits of a literal `FF`.
#[test]
fn read_bit_destuffing() {
    let mut s = ByteStream::new(vec![0xff, 0x00, 0x80]);
    let mut d = HaffDecoder::new();
    for _ in 0..8 {
        assert_eq!(d.read_bit(&mut s), Ok(1));
    }
    assert_eq!(d.read_bit(&mut s), Ok(1));
    assert_eq!(d.read_bit(&mut s), Ok(0));
}

/// `FF` followed by anything but `00` is a marker, not data.
#[test]
fn read_bit_marker() {
    let mut s = ByteStream::new(vec![0xff, 0xd9]);
    let mut d = HaffDecoder::new();
    assert_eq!(d.read_bit(&mut s), Err(DecodeError::UnexpectedMarkerInScan(0xd9)));
}

/// `reset` discards a partially consumed latch.
#[test]
fn reset_discards_latch() {
    let mut s = ByteStream::new(vec![0xa5]);
    let mut d = HaffDecoder::new();
    let _ = d.read_bit(&mut s);
    assert_eq!(d.ptr, 7);
    d.reset();
    assert_eq!(d.ptr, 0);
    assert_eq!(d.buf, 0);
}

/// An empty block: DC category 0 and an immediate EOB give 64 zero
/// coefficients.
#[test]
fn parse_coeffs_empty_block() {
    let mut dc_bits = [0u8; 16];
    dc_bits[0] = 1;
    let dc = HaffTable::new(0, 0, dc_bits, [0u8; 256]);
    let ac = HaffTable::new(1, 0, dc_bits, [0u8; 256]);
    let mut s = ByteStream::new(vec![0x00]);
    let mut d = HaffDecoder::new();
    let coeffs = d.parse_coeffs(&mut s, &dc, &ac).unwrap();
    assert_eq!(coeffs, [0i32; 64]);
}

#[test]
fn zigzag_corners() {
    assert_eq!(zigzag_index(0, 0), 0);
    assert_eq!(zigzag_index(0, 1), 1);
    assert_eq!(zigzag_index(1, 0), 2);
    assert_eq!(zigzag_index(0, 2), 5);
    assert_eq!(zigzag_index(7, 6), 62);
    assert_eq!(zigzag_index(7, 7), 63);
}

/// A DC-only block comes out uniform at round(d / 8) + 128, clamped.
#[test]
fn idct_dc_uniform() {
    let mut coeffs = [0i64; 64];
    coeffs[0] = 8;
    assert_eq!(idct(&coeffs), [129u8; 64]);
    coeffs[0] = 0;
    assert_eq!(idct(&coeffs), [128u8; 64]);
    coeffs[0] = 5;
    assert_eq!(idct(&coeffs), [129u8; 64]);
    coeffs[0] = -4096;
    assert_eq!(idct(&coeffs), [0u8; 64]);
    coeffs[0] = 4096;
    assert_eq!(idct(&coeffs), [255u8; 64]);
}

#[test]
fn tr255_clamps() {
    assert_eq!(tr255(-5), 0);
    assert_eq!(tr255(0), 0);
    assert_eq!(tr255(128), 128);
    assert_eq!(tr255(255), 255);
    assert_eq!(tr255(300), 255);
}

/// BT.601 conversion: neutral chroma passes Y through; a saturated
/// sample converts to the expected fixed-point values.
#[test]
fn ycbcr_conversion() {
    assert_eq!(ycbcr_to_rgb(128, 128, 128), (128, 128, 128));
    assert_eq!(ycbcr_to_rgb(0, 128, 128), (0, 0, 0));
    assert_eq!(ycbcr_to_rgb(255, 128, 128), (255, 255, 255));
    assert_eq!(ycbcr_to_rgb(41, 240, 110), (16, 15, 239));
}

/// Restart bookkeeping: a marker is due exactly at positive multiples
/// of the interval, and the expected RSTn value cycles D0 through D7.
#[test]
fn restart_schedule() {
    assert!(!rst_due(0, 1));
    assert!(!rst_due(5, 0));
    assert!(rst_due(1, 1));
    assert!(rst_due(2, 2));
    assert!(!rst_due(3, 2));
    for k in 1u64..=17 {
        let expected = 0xd0 + (((k - 1) % 8) as u8);
        assert_eq!(rst_expected(k, 1), expected);
    }
    assert_eq!(rst_expected(2, 2), 0xd0);
    assert_eq!(rst_expected(4, 2), 0xd1);
}

/// The byte stream delivers bytes in order and reports exhaustion.
#[test]
fn byte_stream_reads() {
    let mut s = ByteStream::new(vec![0x12, 0x34, 0x56]);
    assert_eq!(s.read_u8(), Ok(0x12));
    assert_eq!(s.read_u16(), Ok(0x3456));
    assert_eq!(s.read_u8(), Err(DecodeError::TruncatedStream));
}
