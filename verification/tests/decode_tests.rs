// End-to-end decoding scenarios over hand-assembled baseline JPEG
// streams.

use jpegdec::decoder::Decoder;
use jpegdec::error::DecodeError;
use jpegdec::error::Feature;
use jpegdec::error::TableKind;
use jpegdec::stream::ByteStream;

fn soi() -> Vec<u8> {
    vec![0xff, 0xd8]
}

fn eoi() -> Vec<u8> {
    vec![0xff, 0xd9]
}

/// A DQT segment with one 8-bit table of the given id, all quantizers 1.
fn dqt_ones(id: u8) -> Vec<u8> {
    let mut v = vec![0xff, 0xdb, 0x00, 0x43, id];
    for _ in 0..64 {
        v.push(1);
    }
    v
}

/// A DHT segment: class/id flag, sixteen code-length counts, values.
fn dht(flag: u8, bits: [u8; 16], values: &[u8]) -> Vec<u8> {
    let len = (2 + 1 + 16 + values.len()) as u16;
    let mut v = vec![0xff, 0xc4, (len >> 8) as u8, (len & 0xff) as u8, flag];
    v.extend_from_slice(&bits);
    v.extend_from_slice(values);
    v
}

fn dht_dc_single(value: u8) -> Vec<u8> {
    let mut bits = [0u8; 16];
    bits[0] = 1;
    dht(0x00, bits, &[value])
}

fn dht_ac_eob() -> Vec<u8> {
    let mut bits = [0u8; 16];
    bits[0] = 1;
    dht(0x10, bits, &[0x00])
}

/// A SOF0 segment for the given dimensions and components
/// (id, h|v, quantization table id).
fn sof0(width: u16, height: u16, comps: &[(u8, u8, u8)]) -> Vec<u8> {
    let len = (2 + 1 + 2 + 2 + 1 + 3 * comps.len()) as u16;
    let mut v = vec![
        0xff,
        0xc0,
        (len >> 8) as u8,
        (len & 0xff) as u8,
        8,
        (height >> 8) as u8,
        (height & 0xff) as u8,
        (width >> 8) as u8,
        (width & 0xff) as u8,
        comps.len() as u8,
    ];
    for &(id, hv, tq) in comps {
        v.push(id);
        v.push(hv);
        v.push(tq);
    }
    v
}

/// A SOS segment header for the given components (id, dc|ac table).
fn sos(comps: &[(u8, u8)]) -> Vec<u8> {
    let len = (2 + 1 + 2 * comps.len() + 3) as u16;
    let mut v = vec![0xff, 0xda, (len >> 8) as u8, (len & 0xff) as u8, comps.len() as u8];
    for &(id, t) in comps {
        v.push(id);
        v.push(t);
    }
    v.push(0x00);
    v.push(0x3f);
    v.push(0x00);
    v
}

fn decode_bytes(data: Vec<u8>) -> (Decoder, Result<(), DecodeError>) {
    let mut d = Decoder::new(ByteStream::new(data));
    let r = d.decode();
    (d, r)
}

/// The smallest legal stream: SOI immediately followed by EOI
/// terminates successfully with no frame and an empty raster.
#[test]
fn smallest_stream() {
    let mut data = soi();
    data.extend(eoi());
    let (d, r) = decode_bytes(data);
    assert_eq!(r, Ok(()));
    assert_eq!(d.get_width(), 0);
    assert_eq!(d.get_height(), 0);
    assert!(d.rgb_ready());
    assert_eq!(d.get_rgb_vec(false).len(), 0);
}

fn gray_1x1_stream(entropy: &[u8], dc_symbol: u8) -> Vec<u8> {
    let mut data = soi();
    data.extend(dqt_ones(0));
    data.extend(dht_dc_single(dc_symbol));
    data.extend(dht_ac_eob());
    data.extend(sof0(1, 1, &[(1, 0x11, 0)]));
    data.extend(sos(&[(1, 0x00)]));
    data.extend_from_slice(entropy);
    data.extend(eoi());
    data
}

/// A 1x1 grayscale image: the DC amplitude 5 with unit quantizer
/// comes out as the single gray pixel round(5 / 8) + 128 = 129.
#[test]
fn gray_1x1_dc_amplitude() {
    // Bits: '0' (DC category 3), '101' (amplitude 5), '0' (EOB),
    // padded with ones.
    let (d, r) = decode_bytes(gray_1x1_stream(&[0x57], 3));
    assert_eq!(r, Ok(()));
    assert_eq!(d.get_width(), 1);
    assert_eq!(d.get_height(), 1);
    assert_eq!(d.blocks_decoded, 1);
    assert!(d.rgb_ready());
    assert_eq!(d.get_rgb_vec(false), vec![129, 129, 129]);
    assert_eq!(d.get_rgb_vec(true), vec![129, 129, 129, 255]);
}

fn color_420_stream(width: u16, height: u16, extra: &[Vec<u8>], entropy: &[u8]) -> Vec<u8> {
    let mut data = soi();
    data.extend(dqt_ones(0));
    let mut bits = [0u8; 16];
    bits[1] = 2;
    data.extend(dht(0x00, bits, &[0, 3]));
    data.extend(dht_ac_eob());
    for seg in extra {
        data.extend(seg.clone());
    }
    data.extend(sof0(width, height, &[(1, 0x22, 0), (2, 0x11, 0), (3, 0x11, 0)]));
    data.extend(sos(&[(1, 0x00), (2, 0x00), (3, 0x00)]));
    data.extend_from_slice(entropy);
    data.extend(eoi());
    data
}

/// A 16x16 4:2:0 image is one MCU of four Y blocks plus one Cb and
/// one Cr block; with all coefficients zero every pixel is mid-gray
/// and the raster holds 16 * 16 * 3 bytes.
#[test]
fn color_420_16x16() {
    // Six blocks of DC '00' + EOB '0', 18 bits, padded with ones.
    let data = color_420_stream(16, 16, &[], &[0x00, 0x00, 0x3f]);
    let (d, r) = decode_bytes(data);
    assert_eq!(r, Ok(()));
    assert_eq!(d.blocks_decoded, 6);
    // One MCU: the Y plane spans 16 samples per row, 16 rows.
    assert_eq!(d.components[0].stride, 16);
    assert_eq!(d.components[0].plane.len(), 256);
    assert_eq!(d.components[1].stride, 8);
    assert_eq!(d.components[1].plane.len(), 64);
    assert!(d.rgb_ready());
    let rgb = d.get_rgb_vec(false);
    assert_eq!(rgb.len(), 768);
    assert!(rgb.iter().all(|&b| b == 128));
    let rgba = d.get_rgb_vec(true);
    assert_eq!(rgba.len(), 1024);
    for (i, &b) in rgba.iter().enumerate() {
        if i % 4 == 3 {
            assert_eq!(b, 255);
        } else {
            assert_eq!(b, 128);
        }
    }
}

/// Decoding the same byte sequence twice gives bitwise-identical
/// output.
#[test]
fn decode_deterministic() {
    let data = color_420_stream(16, 16, &[], &[0x00, 0x00, 0x3f]);
    let (d1, r1) = decode_bytes(data.clone());
    let (d2, r2) = decode_bytes(data);
    assert_eq!(r1, Ok(()));
    assert_eq!(r2, Ok(()));
    assert_eq!(d1.get_rgb_vec(true), d2.get_rgb_vec(true));
    assert_eq!(d1.blocks_decoded, d2.blocks_decoded);
}

fn dri(interval: u16) -> Vec<u8> {
    vec![0xff, 0xdd, 0x00, 0x04, (interval >> 8) as u8, (interval & 0xff) as u8]
}

/// With a restart interval of one, an RST0 marker is consumed after
/// the first MCU and every DC predictor is cleared at the boundary.
#[test]
fn restart_interval_clears_predictor() {
    // MCU0: Y1 carries DC amplitude 5 ('01' + '101'), the other five
    // blocks are '00' + '0'; 21 bits -> 68 00 07.
    // Then RST0, then MCU1's six empty blocks, 18 bits -> 00 00 3f.
    let entropy = vec![0x68, 0x00, 0x07, 0xff, 0xd0, 0x00, 0x00, 0x3f];
    let data = color_420_stream(32, 16, &[dri(1)], &entropy);
    let (d, r) = decode_bytes(data);
    assert_eq!(r, Ok(()));
    assert_eq!(d.blocks_decoded, 12);
    let rgb = d.get_rgb_vec(false);
    assert_eq!(rgb.len(), 32 * 16 * 3);
    // MCU0's Y samples carry the predictor: value 129.
    assert_eq!(rgb[0], 129);
    // MCU1 starts at x = 16; its predictor was cleared at the RST,
    // so its Y samples are 128 again.
    assert_eq!(rgb[16 * 3], 128);
}

/// With a restart interval of two, meeting RST1 where RST0 is
/// expected fails with a restart mismatch naming both indices.
#[test]
fn malformed_rst_sequence() {
    // Twelve empty blocks (two MCUs), 36 bits -> five bytes, then the
    // wrong restart marker.
    let entropy = vec![0x00, 0x00, 0x00, 0x00, 0x0f, 0xff, 0xd1, 0x00, 0x00, 0x3f];
    let data = color_420_stream(64, 16, &[dri(2)], &entropy);
    let (_, r) = decode_bytes(data);
    assert_eq!(r, Err(DecodeError::RestartMismatch(0, 1)));
}

/// A stuffed `FF 00` pair inside the entropy segment is one literal
/// data byte `FF` and does not end the scan.
#[test]
fn byte_stuffing_in_scan() {
    // Bits: '0' (DC category 16), sixteen ones (amplitude 65535),
    // '0' (EOB): 7f ff bf, with the ff written stuffed as ff 00.
    let (d, r) = decode_bytes(gray_1x1_stream(&[0x7f, 0xff, 0x00, 0xbf], 16));
    assert_eq!(r, Ok(()));
    assert_eq!(d.get_rgb_vec(false), vec![255, 255, 255]);
}

/// Stray bytes between segments are tolerated by the marker scan.
#[test]
fn lenient_header_scanning() {
    let mut data = soi();
    data.extend(vec![0x12, 0x34, 0x56]);
    data.extend(eoi());
    let (_, r) = decode_bytes(data);
    assert_eq!(r, Ok(()));
}

/// A table redefined by a later DQT with the same id wins for
/// subsequent blocks.
#[test]
fn redefined_table_latest_wins() {
    // First all-ones quantizers, then all-threes under the same id:
    // the DC amplitude 5 dequantizes to 15 and the pixel becomes
    // round(15 / 8) + 128 = 130.
    let mut data = soi();
    data.extend(dqt_ones(0));
    let mut threes = vec![0xff, 0xdb, 0x00, 0x43, 0x00];
    for _ in 0..64 {
        threes.push(3);
    }
    data.extend(threes);
    data.extend(dht_dc_single(3));
    data.extend(dht_ac_eob());
    data.extend(sof0(1, 1, &[(1, 0x11, 0)]));
    data.extend(sos(&[(1, 0x00)]));
    data.extend(vec![0x57]);
    data.extend(eoi());
    let (d, r) = decode_bytes(data);
    assert_eq!(r, Ok(()));
    assert_eq!(d.get_rgb_vec(false), vec![130, 130, 130]);
}

/// A JFIF APP0 segment with its full field block is accepted and
/// skipped; an unrecognized APP0 identifier is ignored.
#[test]
fn app0_segments() {
    let mut data = soi();
    // JFIF identifier, version 1.1, no units, 1x1 density, no
    // thumbnail: 14 content bytes.
    data.extend(vec![
        0xff, 0xe0, 0x00, 0x10, 0x4a, 0x46, 0x49, 0x46, 0x00, 0x01, 0x01, 0x00, 0x00, 0x01, 0x00,
        0x01, 0x00, 0x00,
    ]);
    // An unrecognized APP0 identifier of five bytes is ignored.
    data.extend(vec![0xff, 0xe0, 0x00, 0x07, 0x41, 0x42, 0x43, 0x44, 0x45]);
    // An APPn segment is skipped whole.
    data.extend(vec![0xff, 0xe5, 0x00, 0x04, 0xaa, 0xbb]);
    data.extend(eoi());
    let (_, r) = decode_bytes(data);
    assert_eq!(r, Ok(()));
}

/// A JFIF APP0 too short for the JFIF field block is malformed.
#[test]
fn app0_jfif_too_short() {
    let mut data = soi();
    data.extend(vec![0xff, 0xe0, 0x00, 0x07, 0x4a, 0x46, 0x49, 0x46, 0x00]);
    data.extend(eoi());
    let (_, r) = decode_bytes(data);
    assert_eq!(r, Err(DecodeError::MalformedSegment));
}

/// A restart interval parsed from DRI is recorded even when disabled.
#[test]
fn dri_recorded() {
    let mut data = soi();
    data.extend(dri(0x1234));
    data.extend(eoi());
    let (d, r) = decode_bytes(data);
    assert_eq!(r, Ok(()));
    assert_eq!(d.restart_interval, 0x1234);
}

#[test]
fn missing_soi() {
    let (_, r) = decode_bytes(vec![0x00, 0xd8, 0xff, 0xd9]);
    assert_eq!(r, Err(DecodeError::MissingSoi));
}

#[test]
fn truncated_stream() {
    let (_, r) = decode_bytes(vec![0xff]);
    assert_eq!(r, Err(DecodeError::TruncatedStream));
    let mut data = soi();
    data.extend(vec![0xff, 0xdb, 0x00]);
    let (_, r2) = decode_bytes(data);
    assert_eq!(r2, Err(DecodeError::TruncatedStream));
}

#[test]
fn unknown_marker() {
    let mut data = soi();
    data.extend(vec![0xff, 0xc1, 0x00, 0x02]);
    data.extend(eoi());
    let (_, r) = decode_bytes(data);
    assert_eq!(r, Err(DecodeError::UnknownMarker(0xc1)));
}

#[test]
fn malformed_segment_length() {
    let mut data = soi();
    data.extend(vec![0xff, 0xdb, 0x00, 0x01]);
    let (_, r) = decode_bytes(data);
    assert_eq!(r, Err(DecodeError::MalformedSegment));
}

#[test]
fn sixteen_bit_quantizer_rejected() {
    let mut data = soi();
    let mut seg = vec![0xff, 0xdb, 0x00, 0x43, 0x10];
    for _ in 0..64 {
        seg.push(1);
    }
    data.extend(seg);
    data.extend(eoi());
    let (_, r) = decode_bytes(data);
    assert_eq!(r, Err(DecodeError::UnsupportedFeature(Feature::QuantPrecision)));
}

#[test]
fn non_baseline_precision_rejected() {
    let mut data = soi();
    let mut seg = sof0(1, 1, &[(1, 0x11, 0)]);
    seg[4] = 12;
    data.extend(seg);
    data.extend(eoi());
    let (_, r) = decode_bytes(data);
    assert_eq!(r, Err(DecodeError::UnsupportedFeature(Feature::SamplePrecision)));
}

#[test]
fn component_count_rejected() {
    let mut data = soi();
    data.extend(sof0(1, 1, &[(1, 0x11, 0), (2, 0x11, 0)]));
    data.extend(eoi());
    let (_, r) = decode_bytes(data);
    assert_eq!(r, Err(DecodeError::UnsupportedFeature(Feature::ComponentCount)));
}

#[test]
fn sampling_factor_rejected() {
    let mut data = soi();
    data.extend(sof0(1, 1, &[(1, 0x01, 0)]));
    data.extend(eoi());
    let (_, r) = decode_bytes(data);
    assert_eq!(r, Err(DecodeError::UnsupportedFeature(Feature::SamplingFactor)));
}

/// A DHT entry with a table class past 1 is malformed.
#[test]
fn dht_class_rejected() {
    let mut data = soi();
    let mut bits = [0u8; 16];
    bits[0] = 1;
    data.extend(dht(0x20, bits, &[0]));
    data.extend(eoi());
    let (_, r) = decode_bytes(data);
    assert_eq!(r, Err(DecodeError::MalformedSegment));
}

/// A DHT entry with a destination id past 3 is malformed.
#[test]
fn dht_id_rejected() {
    let mut data = soi();
    let mut bits = [0u8; 16];
    bits[0] = 1;
    data.extend(dht(0x04, bits, &[0]));
    data.extend(eoi());
    let (_, r) = decode_bytes(data);
    assert_eq!(r, Err(DecodeError::MalformedSegment));
}

/// A BITS array whose canonical codes overflow the code space is a
/// malformed table: three codes cannot all have length one.
#[test]
fn dht_malformed_bits_rejected() {
    let mut data = soi();
    let mut bits = [0u8; 16];
    bits[0] = 3;
    data.extend(dht(0x00, bits, &[1, 2, 3]));
    data.extend(eoi());
    let (_, r) = decode_bytes(data);
    assert_eq!(r, Err(DecodeError::MalformedSegment));
}

/// A DQT entry with a destination id past 3 is malformed.
#[test]
fn dqt_id_rejected() {
    let mut data = soi();
    data.extend(dqt_ones(4));
    data.extend(eoi());
    let (_, r) = decode_bytes(data);
    assert_eq!(r, Err(DecodeError::MalformedSegment));
}

/// A frame component selecting a quantization table id past 3 is
/// malformed.
#[test]
fn sof_qt_selector_rejected() {
    let mut data = soi();
    data.extend(sof0(1, 1, &[(1, 0x11, 4)]));
    data.extend(eoi());
    let (_, r) = decode_bytes(data);
    assert_eq!(r, Err(DecodeError::MalformedSegment));
}

/// A scan that references Huffman tables no DHT defined fails with a
/// table lookup error; the AC table is resolved first.
#[test]
fn table_lookup_failed() {
    let mut data = soi();
    data.extend(dqt_ones(0));
    data.extend(sof0(1, 1, &[(1, 0x11, 0)]));
    data.extend(sos(&[(1, 0x00)]));
    data.extend(eoi());
    let (_, r) = decode_bytes(data);
    assert_eq!(r, Err(DecodeError::TableLookupFailed(TableKind::Ac, 0)));
}

/// Sixteen accumulated bits that match no code of the DC table fail
/// the Huffman decode.
#[test]
fn huffman_decode_error() {
    let mut data = soi();
    data.extend(dqt_ones(0));
    data.extend(dht(0x00, [0u8; 16], &[]));
    data.extend(dht_ac_eob());
    data.extend(sof0(1, 1, &[(1, 0x11, 0)]));
    data.extend(sos(&[(1, 0x00)]));
    data.extend(vec![0x00, 0x00]);
    data.extend(eoi());
    let (_, r) = decode_bytes(data);
    assert_eq!(r, Err(DecodeError::HuffmanDecodeError));
}

/// A run of ZRL codes that would fill coefficients past the end of
/// the block overflows it.
#[test]
fn block_overflow() {
    let mut data = soi();
    data.extend(dqt_ones(0));
    data.extend(dht_dc_single(0));
    let mut bits = [0u8; 16];
    bits[0] = 1;
    data.extend(dht(0x10, bits, &[0xf0]));
    data.extend(sof0(1, 1, &[(1, 0x11, 0)]));
    data.extend(sos(&[(1, 0x00)]));
    // DC '0', then four ZRL codes: 1 + 16 * 4 coefficient slots.
    data.extend(vec![0x07]);
    data.extend(eoi());
    let (_, r) = decode_bytes(data);
    assert_eq!(r, Err(DecodeError::BlockOverflow));
}

/// A non-stuffed marker inside the entropy segment where data is
/// expected fails the scan.
#[test]
fn marker_in_scan() {
    let (_, r) = decode_bytes(gray_1x1_stream(&[], 3));
    assert_eq!(r, Err(DecodeError::UnexpectedMarkerInScan(0xd9)));
}
