//! The decoder proper: the segment parser's state machine, the MCU
//! scheduler that drives the entropy decoder over the scan, and the
//! color assembler that turns component planes into an RGB raster.

use vstd::arithmetic::div_mod::lemma_div_is_ordered;
use vstd::arithmetic::div_mod::lemma_fundamental_div_mod;
use vstd::arithmetic::mul::lemma_mul_inequality;
use vstd::prelude::*;

use crate::color::rgb_b;
use crate::color::rgb_g;
use crate::color::rgb_r;
use crate::color::ycbcr_to_rgb;
use crate::error::DecodeError;
use crate::error::Feature;
use crate::error::TableKind;
use crate::haff::HaffDecoder;
use crate::haff::HaffTable;
use crate::idct::idct;
use crate::idct::idct_pixel;
use crate::idct::COEF_LIMIT;
use crate::stream::ByteStream;

verus! {

/// An 8-bit quantization table, as defined by a DQT segment.
pub struct QuantizationTable {
    /// Destination identifier a frame component selects by.
    pub id: u8,
    /// The 64 quantizer values, in zigzag order.
    pub table: [u8; 64],
}

/// One component of the frame header (SOF0): its id, sampling factors
/// and quantization table selector.
pub struct ScanComponent {
    /// Component identifier, referenced by the scan header.
    pub id: u8,
    /// Horizontal sampling factor, 1..=4.
    pub hi: u8,
    /// Vertical sampling factor, 1..=4.
    pub vi: u8,
    /// Quantization table selector.
    pub qt_id: u8,
}

/// One component bound by a scan header: sampling geometry, table
/// selectors, the DC predictor, and the decoded sample plane.
pub struct Component {
    /// Quantization table selector, from the frame header.
    pub qt_id: u8,
    /// DC Huffman table selector, from the scan header.
    pub tdj: u8,
    /// AC Huffman table selector, from the scan header.
    pub taj: u8,
    /// Horizontal sampling factor, 1..=4.
    pub hi: u8,
    /// Vertical sampling factor, 1..=4.
    pub vi: u8,
    /// The DC predictor: the running sum of DC amplitudes since the
    /// scan start or the last restart marker.
    pub prev_dc: i32,
    /// The decoded samples, row-major with row length `stride`.
    pub plane: Vec<u8>,
    /// The plane's row length in samples.
    pub stride: usize,
}

/// The ceiling of `a / b` over the integers.
pub open spec fn ceil_div(a: int, b: int) -> int
    recommends
        b > 0,
{
    (a + b - 1) / b
}

/// Ceiling division on machine words: the number of size-`d1` tiles
/// that cover `d0`.
pub fn ceildiv(d0: u64, d1: u64) -> (r: u64)
    requires
        d1 > 0,
        d0 + d1 <= u64::MAX,
    ensures
        r == ceil_div(d0 as int, d1 as int),
        d1 * r >= d0,
        d1 * r < d0 + d1,
{
    proof {
        lemma_fundamental_div_mod((d0 + d1 - 1) as int, d1 as int);
    }
    (d0 + (d1 - 1)) / d1
}

/// The tiles a ceiling division yields always cover the divided
/// extent: `f * ceil(dim / f) >= dim`, so the MCU grid covers the
/// whole image in each axis.
pub proof fn lemma_mcu_grid_covers(dim: int, f: int)
    requires
        dim >= 0,
        f >= 1,
    ensures
        f * ceil_div(dim, f) >= dim,
        f * ceil_div(dim, f) < dim + f,
{
    lemma_fundamental_div_mod(dim + f - 1, f);
}

/// Where the next marker after `pos` stands: the scanner skips bytes
/// until `FF` followed by a non-zero byte, treats `FF 00` as stuffing
/// to skip whole, and yields the marker byte with the position just
/// past it, or nothing if the data ends first.
pub open spec fn scan_marker(data: Seq<u8>, pos: int) -> Option<(int, u8)>
    decreases data.len() - pos,
{
    if pos < 0 || pos >= data.len() {
        None
    } else if data[pos] != 0xff {
        scan_marker(data, pos + 1)
    } else if pos + 1 >= data.len() {
        None
    } else if data[pos + 1] == 0x00 {
        scan_marker(data, pos + 2)
    } else {
        Some((pos + 2, data[pos + 1]))
    }
}

/// Scan the stream forward for the next marker and consume up to and
/// including it.
pub fn next_marker(s: &mut ByteStream) -> (r: Result<u8, DecodeError>)
    ensures
        final(s).data@ == old(s).data@,
        match scan_marker(old(s).data@, old(s).pos as int) {
            Some((np, m)) => r == Ok::<u8, DecodeError>(m) && final(s).pos == np
                && np <= old(s).data@.len() && np >= old(s).pos + 2,
            None => r == Err::<u8, DecodeError>(DecodeError::TruncatedStream) && final(s).pos
                >= old(s).pos,
        },
{
    loop
        invariant
            s.data@ == old(s).data@,
            s.pos >= old(s).pos,
            scan_marker(s.data@, s.pos as int) == scan_marker(old(s).data@, old(s).pos as int),
        decreases s.data@.len() - s.pos,
    {
        let u0 = s.read_u8()?;
        if u0 == 0xff {
            let u1 = s.read_u8()?;
            if u1 != 0x00 {
                return Ok(u1);
            }
        }
    }
}

/// The content and end position of the marker segment at `pos`: a
/// big-endian length that includes its own two bytes, then the body.
pub open spec fn segment_at(data: Seq<u8>, pos: int) -> Option<(Seq<u8>, int)> {
    if pos + 2 <= data.len() && ByteStream::be16_at(data, pos) >= 2 && pos + ByteStream::be16_at(
        data,
        pos,
    ) <= data.len() {
        Some(
            (
                data.subrange(pos + 2, pos + ByteStream::be16_at(data, pos)),
                pos + ByteStream::be16_at(data, pos),
            ),
        )
    } else {
        None
    }
}

/// The error a marker segment that cannot be read raises: a length
/// word or body past the stream's end is truncation, a length under
/// two is malformed.
pub open spec fn segment_read_err(data: Seq<u8>, pos: int) -> DecodeError {
    if pos + 2 > data.len() {
        DecodeError::TruncatedStream
    } else if ByteStream::be16_at(data, pos) < 2 {
        DecodeError::MalformedSegment
    } else {
        DecodeError::TruncatedStream
    }
}

/// Read one marker segment's body: the length word, then
/// `length - 2` bytes of content.
pub fn read_marker_content(s: &mut ByteStream) -> (r: Result<Vec<u8>, DecodeError>)
    ensures
        final(s).data@ == old(s).data@,
        match segment_at(old(s).data@, old(s).pos as int) {
            Some((content, np)) => (match r {
                Ok(v) => v@ == content && final(s).pos == np,
                Err(_) => false,
            }),
            None => r == Err::<Vec<u8>, DecodeError>(
                segment_read_err(old(s).data@, old(s).pos as int),
            ) && final(s).pos >= old(s).pos,
        },
{
    let size = s.read_u16()?;
    if size < 2 {
        return Err(DecodeError::MalformedSegment);
    }
    let content = s.read_exact((size - 2) as usize)?;
    Ok(content)
}

/// Require the two SOI bytes `FF D8` at the stream's read position.
pub fn check_soi(s: &mut ByteStream) -> (r: Result<(), DecodeError>)
    ensures
        final(s).data@ == old(s).data@,
        final(s).pos >= old(s).pos,
        old(s).pos + 2 > old(s).data@.len() ==> r == Err::<(), DecodeError>(
            DecodeError::TruncatedStream,
        ),
        old(s).pos + 2 <= old(s).data@.len() ==> {
            let d = old(s).data@;
            let p = old(s).pos as int;
            if d[p] == 0xff && d[p + 1] == 0xd8 {
                r == Ok::<(), DecodeError>(()) && final(s).pos == p + 2
            } else {
                r == Err::<(), DecodeError>(DecodeError::MissingSoi)
            }
        },
{
    let u0 = s.read_u8()?;
    let u1 = s.read_u8()?;
    if u0 != 0xff || u1 != 0xd8 {
        return Err(DecodeError::MissingSoi);
    }
    Ok(())
}

/// A restart marker is due before this MCU: the interval is enabled
/// and a positive multiple of it has been decoded.
pub fn rst_due(mcu_ptr: u64, interval: u16) -> (b: bool)
    ensures
        b == (interval != 0 && mcu_ptr > 0 && mcu_ptr % (interval as u64) == 0),
{
    interval != 0 && mcu_ptr > 0 && mcu_ptr % (interval as u64) == 0
}

/// The marker byte expected at this restart boundary: the RSTn values
/// cycle `D0` through `D7` in order of the boundaries.
pub fn rst_expected(mcu_ptr: u64, interval: u16) -> (m: u8)
    requires
        interval > 0,
        mcu_ptr <= 0xffff_ffff,
    ensures
        m == 0xd0 + ((mcu_ptr as int / interval as int + 7) % 8),
{
    0xd0 + ((mcu_ptr / (interval as u64) + 7) % 8) as u8
}

/// The marker bytes the header state machine dispatches on; anything
/// else fails the decode.
pub open spec fn handled_marker(m: u8) -> bool {
    ||| m == 0xdb
    ||| m == 0xc0
    ||| m == 0xc4
    ||| m == 0xda
    ||| m == 0xdd
    ||| m == 0xd9
    ||| 0xe0 <= m <= 0xef
}

/// How the header state machine leaves a stream, as far as its
/// outcome is a function of the bytes alone.
pub enum HeaderWalk {
    /// EOI was reached: the decode terminates successfully.
    Accept,
    /// A definite failure with this error.
    Reject(DecodeError),
    /// A SOS was reached: the entropy-coded scan decides from here.
    Scan,
}

/// Whether a header segment of marker `m` parses, as a function of
/// its body alone, and with which error it fails.
pub open spec fn segment_disposition(m: u8, content: Seq<u8>) -> Option<DecodeError> {
    if m == 0xe0 {
        if app0_ok(content) {
            None
        } else {
            Some(DecodeError::MalformedSegment)
        }
    } else if m == 0xdb {
        dqt_check(content, 0)
    } else if m == 0xc0 {
        sof_check(content)
    } else if m == 0xc4 {
        match dht_entry_positions(content, 0) {
            Some(ps) => None,
            None => Some(DecodeError::MalformedSegment),
        }
    } else if m == 0xdd {
        if content.len() >= 2 {
            None
        } else {
            Some(DecodeError::MalformedSegment)
        }
    } else {
        None
    }
}

proof fn lemma_scan_marker_pos(data: Seq<u8>, pos: int)
    ensures
        match scan_marker(data, pos) {
            Some((np, m)) => pos + 2 <= np <= data.len(),
            None => true,
        },
    decreases data.len() - pos,
{
    if pos >= 0 && pos < data.len() {
        if data[pos] != 0xff {
            lemma_scan_marker_pos(data, pos + 1);
        } else if pos + 1 < data.len() && data[pos + 1] == 0x00 {
            lemma_scan_marker_pos(data, pos + 2);
        }
    }
}

/// Walk the header markers from `pos`: EOI accepts, SOS hands over
/// to the scan, an unhandled marker or a failing segment rejects with
/// its exact error. The walk is a function of the bytes alone, so up
/// to the first SOS the decode's outcome is pinned by it.
pub open spec fn header_walk(data: Seq<u8>, pos: int) -> HeaderWalk
    decreases data.len() - pos,
    via header_walk_decreases
{
    match scan_marker(data, pos) {
        None => HeaderWalk::Reject(DecodeError::TruncatedStream),
        Some((np, m)) => {
            if m == 0xd9 {
                HeaderWalk::Accept
            } else if m == 0xda {
                HeaderWalk::Scan
            } else if !handled_marker(m) {
                HeaderWalk::Reject(DecodeError::UnknownMarker(m))
            } else {
                match segment_at(data, np) {
                    None => HeaderWalk::Reject(segment_read_err(data, np)),
                    Some((content, np2)) => match segment_disposition(m, content) {
                        Some(e) => HeaderWalk::Reject(e),
                        None => header_walk(data, np2),
                    },
                }
            }
        },
    }
}

#[via_fn]
proof fn header_walk_decreases(data: Seq<u8>, pos: int) {
    lemma_scan_marker_pos(data, pos);
}

/// The sixteen code-length counts of the DHT entry starting at `pos`.
pub open spec fn dht_entry_bits(content: Seq<u8>, pos: int) -> Seq<u8> {
    content.subrange(pos + 1, pos + 17)
}

/// The value list of the DHT entry starting at `pos`, padded with
/// zeros to the 256-entry table a Huffman table holds.
pub open spec fn dht_entry_values(content: Seq<u8>, pos: int) -> Seq<u8> {
    let vn = crate::haff::cum_bits(dht_entry_bits(content, pos), 16);
    Seq::new(
        256,
        |i: int|
            if i < vn {
                content[pos + 17 + i]
            } else {
                0u8
            },
    )
}

/// Where the DHT body's entries start, parsing from `pos`: nothing if
/// an entry has a class past 1 or an id past 3, runs past the body,
/// declares more than 256 symbols, or would assign canonical codes
/// past a length's code space (a malformed table).
pub open spec fn dht_entry_positions(content: Seq<u8>, pos: int) -> Option<Seq<int>>
    decreases content.len() - pos,
{
    if pos >= content.len() {
        Some(Seq::empty())
    } else if content[pos] / 16 > 1 || content[pos] % 16 > 3 {
        None
    } else if pos + 17 > content.len() {
        None
    } else {
        let bits = dht_entry_bits(content, pos);
        if !crate::haff::bits_canonical(bits) {
            None
        } else {
            let vn = crate::haff::cum_bits(bits, 16);
            if vn < 0 || vn > 256 || pos + 17 + vn > content.len() {
                None
            } else {
                match dht_entry_positions(content, pos + 17 + vn) {
                    Some(rest) => Some(seq![pos] + rest),
                    None => None,
                }
            }
        }
    }
}

/// Table `t` is the canonical Huffman table built from the DHT entry
/// starting at `pos`.
pub open spec fn dht_entry_built(content: Seq<u8>, pos: int, t: HaffTable) -> bool {
    &&& t.tc == content[pos] / 16
    &&& t.id == content[pos] % 16
    &&& t.bits@ == dht_entry_bits(content, pos)
    &&& t.values@ == dht_entry_values(content, pos)
    &&& t.canonical()
}

/// The restart markers cycle: at the `k`-th restart boundary — MCU
/// index `k * interval`, the positive multiples of the interval — the
/// expected marker is `RSTn` with `n = (k - 1) mod 8`, so the values
/// run `D0` through `D7` and wrap around.
pub proof fn lemma_restart_cycle(k: int, interval: int)
    requires
        k >= 1,
        interval >= 1,
    ensures
        0xd0 + ((k * interval) / interval + 7) % 8 == 0xd0 + (k - 1) % 8,
{
    vstd::arithmetic::div_mod::lemma_div_multiples_vanish(k, interval);
    assert(k * interval == interval * k) by (nonlinear_arith);
    assert((k + 7) % 8 == (k - 1) % 8) by {
        vstd::arithmetic::div_mod::lemma_mod_adds(k - 1, 8, 8);
        vstd::arithmetic::div_mod::lemma_mod_self_0(8);
    };
}

/// A frame component's sampling factors lie in the baseline range.
pub open spec fn sc_valid(sc: ScanComponent) -> bool {
    1 <= sc.hi <= 4 && 1 <= sc.vi <= 4
}

/// A bound component's sampling factors lie in the baseline range.
pub open spec fn comp_valid(c: Component) -> bool {
    1 <= c.hi <= 4 && 1 <= c.vi <= 4
}

/// An APP0 segment the decoder accepts: long enough for its
/// identifier, and a JFIF segment long enough for the JFIF fields.
pub open spec fn app0_ok(content: Seq<u8>) -> bool {
    content.len() >= 5 && (is_jfif(content) ==> content.len() >= 14)
}

/// The five-byte identifier `JFIF\0`.
pub open spec fn is_jfif(content: Seq<u8>) -> bool {
    &&& content.len() >= 5
    &&& content[0] == 0x4a
    &&& content[1] == 0x46
    &&& content[2] == 0x49
    &&& content[3] == 0x46
    &&& content[4] == 0x00
}

/// The first error a DQT body raises, scanning its 65-byte entries
/// in order: 16-bit precision is unsupported, a destination id past 3
/// or an entry running past the body is malformed. `None` means the
/// body is a whole number of acceptable entries.
pub open spec fn dqt_check(content: Seq<u8>, pos: int) -> Option<DecodeError>
    decreases content.len() - pos,
{
    if pos >= content.len() {
        None
    } else if content[pos] / 16 != 0 {
        Some(DecodeError::UnsupportedFeature(Feature::QuantPrecision))
    } else if content[pos] % 16 > 3 {
        Some(DecodeError::MalformedSegment)
    } else if pos + 65 > content.len() {
        Some(DecodeError::MalformedSegment)
    } else {
        dqt_check(content, pos + 65)
    }
}

/// The destination identifier of the `k`-th DQT entry.
pub open spec fn dqt_id(content: Seq<u8>, k: int) -> u8 {
    content[65 * k] % 16
}

/// The 64 quantizer bytes of the `k`-th DQT entry.
pub open spec fn dqt_table(content: Seq<u8>, k: int) -> Seq<u8> {
    content.subrange(65 * k + 1, 65 * k + 65)
}

/// The component count a SOF0 body declares.
pub open spec fn sof_nf(content: Seq<u8>) -> int {
    content[5] as int
}

/// The first error the SOF0 component entries from `k` on raise, in
/// order: a sampling factor outside 1..=4 is unsupported, a
/// quantization selector past 3 is malformed.
pub open spec fn sof_comp_check(content: Seq<u8>, k: int, nf: int) -> Option<DecodeError>
    decreases nf - k,
{
    if k >= nf {
        None
    } else if !(1 <= content[6 + 3 * k + 1] / 16 <= 4 && 1 <= content[6 + 3 * k + 1] % 16 <= 4) {
        Some(DecodeError::UnsupportedFeature(Feature::SamplingFactor))
    } else if content[6 + 3 * k + 2] > 3 {
        Some(DecodeError::MalformedSegment)
    } else {
        sof_comp_check(content, k + 1, nf)
    }
}

/// The first error a SOF0 body raises: too short for its fixed
/// fields or its components is malformed; a sample precision other
/// than 8 or a component count outside {1, 3} is unsupported; then
/// the per-component checks in order. `None` means the frame header
/// is acceptable.
pub open spec fn sof_check(content: Seq<u8>) -> Option<DecodeError> {
    if content.len() < 6 {
        Some(DecodeError::MalformedSegment)
    } else if content[0] != 8 {
        Some(DecodeError::UnsupportedFeature(Feature::SamplePrecision))
    } else if content[5] != 1 && content[5] != 3 {
        Some(DecodeError::UnsupportedFeature(Feature::ComponentCount))
    } else if content.len() < 6 + 3 * sof_nf(content) {
        Some(DecodeError::MalformedSegment)
    } else {
        sof_comp_check(content, 0, sof_nf(content))
    }
}

proof fn lemma_sof_comp_check_none(content: Seq<u8>, k: int, nf: int)
    requires
        0 <= k <= nf,
        forall|j: int|
            k <= j < nf ==> (1 <= #[trigger] content[6 + 3 * j + 1] / 16 <= 4 && 1 <= content[6 + 3
                * j + 1] % 16 <= 4 && content[6 + 3 * j + 2] <= 3),
    ensures
        sof_comp_check(content, k, nf) is None,
    decreases nf - k,
{
    if k < nf {
        lemma_sof_comp_check_none(content, k + 1, nf);
    }
}

proof fn lemma_sof_comp_check_skip(content: Seq<u8>, k: int, nf: int)
    requires
        0 <= k <= nf,
        forall|j: int|
            0 <= j < k ==> (1 <= #[trigger] content[6 + 3 * j + 1] / 16 <= 4 && 1 <= content[6 + 3
                * j + 1] % 16 <= 4 && content[6 + 3 * j + 2] <= 3),
    ensures
        sof_comp_check(content, 0, nf) == sof_comp_check(content, k, nf),
    decreases k,
{
    if k > 0 {
        lemma_sof_comp_check_skip(content, k - 1, nf);
    }
}

/// The decoder: the byte source, every table the headers defined, the
/// frame geometry, and the components of the scan last decoded.
pub struct Decoder {
    /// The byte source.
    pub stream: ByteStream,
    /// The quantization tables, in order of definition.
    pub qts: Vec<QuantizationTable>,
    /// The Huffman tables, in order of definition.
    pub hafftables: Vec<HaffTable>,
    /// The frame components declared by SOF0.
    pub scan_components: Vec<ScanComponent>,
    /// The image height in lines, from SOF0.
    pub height: u16,
    /// The image width in samples per line, from SOF0.
    pub width: u16,
    /// The components bound by the most recent scan, with their
    /// decoded planes.
    pub components: Vec<Component>,
    /// The restart interval in MCUs, from DRI; 0 disables restarts.
    pub restart_interval: u16,
    /// How many 8x8 blocks the most recent scan entropy-decoded.
    pub blocks_decoded: u64,
}

impl Decoder {
    /// Every stored Huffman table is safe to decode with, and every
    /// stored component has baseline sampling factors.
    pub open spec fn wf(&self) -> bool {
        &&& forall|i: int|
            0 <= i < self.hafftables@.len() ==> (#[trigger] self.hafftables@[i]).wf()
        &&& forall|i: int|
            0 <= i < self.scan_components@.len() ==> sc_valid(#[trigger] self.scan_components@[i])
        &&& forall|i: int|
            0 <= i < self.components@.len() ==> comp_valid(#[trigger] self.components@[i])
    }

    /// The fields a header segment parser never touches.
    pub open spec fn headers_frame(&self, o: &Decoder) -> bool {
        &&& self.stream.data@ == o.stream.data@
        &&& self.stream.pos >= o.stream.pos
        &&& self.scan_components@ == o.scan_components@
        &&& self.components@ == o.components@
        &&& self.width == o.width
        &&& self.height == o.height
        &&& self.restart_interval == o.restart_interval
        &&& self.blocks_decoded == o.blocks_decoded
    }

    /// A fresh decoder over a byte source: no tables, no frame, no
    /// scan yet.
    pub fn new(stream: ByteStream) -> (d: Decoder)
        ensures
            d.wf(),
            d.stream == stream,
            d.qts@.len() == 0,
            d.hafftables@.len() == 0,
            d.scan_components@.len() == 0,
            d.components@.len() == 0,
            d.height == 0,
            d.width == 0,
            d.restart_interval == 0,
            d.blocks_decoded == 0,
    {
        Decoder {
            stream,
            qts: Vec::new(),
            hafftables: Vec::new(),
            height: 0,
            width: 0,
            scan_components: Vec::new(),
            components: Vec::new(),
            restart_interval: 0,
            blocks_decoded: 0,
        }
    }

    /// Parse an APP0 segment: check the JFIF/JFXX identifier's room
    /// and skip the body.
    pub fn parse_app0(&mut self) -> (r: Result<(), DecodeError>)
        requires
            old(self).wf(),
        ensures
            final(self).wf(),
            final(self).headers_frame(old(self)),
            final(self).qts@ == old(self).qts@,
            final(self).hafftables@ == old(self).hafftables@,
            match segment_at(old(self).stream.data@, old(self).stream.pos as int) {
                Some((content, np)) => final(self).stream.pos == np && r == (if app0_ok(content) {
                    Ok::<(), DecodeError>(())
                } else {
                    Err::<(), DecodeError>(DecodeError::MalformedSegment)
                }),
                None => r == Err::<(), DecodeError>(
                    segment_read_err(old(self).stream.data@, old(self).stream.pos as int),
                ),
            },
    {
        let content = read_marker_content(&mut self.stream)?;
        if content.len() < 5 {
            return Err(DecodeError::MalformedSegment);
        }
        let jfif = content[0] == 0x4a && content[1] == 0x46 && content[2] == 0x49 && content[3]
            == 0x46 && content[4] == 0x00;
        if jfif && content.len() < 14 {
            return Err(DecodeError::MalformedSegment);
        }
        Ok(())
    }

    /// Parse an APPn segment (n in 1..=15): skip the body whole.
    pub fn parse_app(&mut self) -> (r: Result<(), DecodeError>)
        requires
            old(self).wf(),
        ensures
            final(self).wf(),
            final(self).headers_frame(old(self)),
            final(self).qts@ == old(self).qts@,
            final(self).hafftables@ == old(self).hafftables@,
            match segment_at(old(self).stream.data@, old(self).stream.pos as int) {
                Some((content, np)) => final(self).stream.pos == np && r == Ok::<(), DecodeError>(
                    (),
                ),
                None => r == Err::<(), DecodeError>(
                    segment_read_err(old(self).stream.data@, old(self).stream.pos as int),
                ),
            },
    {
        let _content = read_marker_content(&mut self.stream)?;
        Ok(())
    }

    /// Parse a DQT segment: one or more 65-byte entries, each a pq|tq
    /// flag byte and 64 quantizer values, appended to the stored
    /// tables in order; 16-bit precision is rejected.
    pub fn parse_dqt(&mut self) -> (r: Result<(), DecodeError>)
        requires
            old(self).wf(),
        ensures
            final(self).wf(),
            final(self).headers_frame(old(self)),
            final(self).hafftables@ == old(self).hafftables@,
            final(self).qts@.len() >= old(self).qts@.len(),
            forall|j: int|
                0 <= j < old(self).qts@.len() ==> final(self).qts@[j] == #[trigger] old(self).qts@[j],
            match segment_at(old(self).stream.data@, old(self).stream.pos as int) {
                Some((content, np)) => {
                    &&& final(self).stream.pos == np
                    &&& (match dqt_check(content, 0) {
                        None => r is Ok,
                        Some(e) => r == Err::<(), DecodeError>(e),
                    })
                    &&& (r is Ok ==> {
                        &&& final(self).qts@.len() == old(self).qts@.len() + content.len() / 65
                        &&& forall|k: int|
                            0 <= k < content.len() / 65 ==> {
                                &&& (#[trigger] final(self).qts@[old(self).qts@.len() + k]).id
                                    == dqt_id(content, k)
                                &&& final(self).qts@[old(self).qts@.len() + k].table@ == dqt_table(
                                    content,
                                    k,
                                )
                            }
                    })
                },
                None => r == Err::<(), DecodeError>(
                    segment_read_err(old(self).stream.data@, old(self).stream.pos as int),
                ),
            },
    {
        let content = read_marker_content(&mut self.stream)?;
        let ghost old_qts = self.qts@;
        let ghost s_after = self.stream;
        let clen = content.len();
        let mut pos: usize = 0;
        let mut k: usize = 0;
        while pos < clen
            invariant
                self.wf(),
                segment_at(old(self).stream.data@, old(self).stream.pos as int) == Some(
                    (content@, s_after.pos as int),
                ),
                s_after.data@ == old(self).stream.data@,
                old(self).stream.pos <= s_after.pos,
                old_qts == old(self).qts@,
                clen == content@.len(),
                pos == 65 * k,
                pos <= clen,
                self.qts@.len() == old_qts.len() + k,
                forall|j: int| 0 <= j < old_qts.len() ==> self.qts@[j] == #[trigger] old_qts[j],
                forall|j: int| 0 <= j < k ==> #[trigger] content@[65 * j] / 16 == 0,
                dqt_check(content@, 0) == dqt_check(content@, pos as int),
                forall|j: int|
                    0 <= j < k ==> {
                        &&& (#[trigger] self.qts@[old_qts.len() + j]).id == dqt_id(content@, j)
                        &&& self.qts@[old_qts.len() + j].table@ == dqt_table(content@, j)
                    },
                self.hafftables@ == old(self).hafftables@,
                self.scan_components@ == old(self).scan_components@,
                self.components@ == old(self).components@,
                self.width == old(self).width,
                self.height == old(self).height,
                self.restart_interval == old(self).restart_interval,
                self.blocks_decoded == old(self).blocks_decoded,
                self.stream == s_after,
            decreases clen - pos,
        {
            let flag = content[pos];
            if flag / 16 != 0 {
                return Err(DecodeError::UnsupportedFeature(Feature::QuantPrecision));
            }
            if flag % 16 > 3 {
                return Err(DecodeError::MalformedSegment);
            }
            if pos + 65 > clen {
                return Err(DecodeError::MalformedSegment);
            }
            let mut table: [u8; 64] = [0; 64];
            let mut j: usize = 0;
            while j < 64
                invariant
                    j <= 64,
                    pos == 65 * k,
                    clen == content@.len(),
                    pos + 65 <= clen,
                    forall|jj: int| 0 <= jj < j ==> #[trigger] table@[jj] == content@[65 * (
                    k as int) + 1 + jj],
                decreases 64 - j,
            {
                table[j] = content[pos + 1 + j];
                j = j + 1;
            }
            proof {
                assert(table@ =~= dqt_table(content@, k as int));
            }
            self.qts.push(QuantizationTable { id: flag % 16, table });
            pos = pos + 65;
            k = k + 1;
        }
        proof {
            lemma_dqt_complete(content@, k as int);
        }
        Ok(())
    }
}

/// A body consumed whole as `k` entries is acceptable and has `k`
/// entries.
proof fn lemma_dqt_complete(content: Seq<u8>, k: int)
    requires
        0 <= k,
        content.len() == 65 * k,
    ensures
        content.len() % 65 == 0,
        content.len() / 65 == k,
{
    vstd::arithmetic::div_mod::lemma_mod_multiples_basic(k, 65);
    vstd::arithmetic::div_mod::lemma_div_by_multiple(k, 65);
}

impl Decoder {
    /// Parse a SOF0 segment: record precision, image dimensions and
    /// the per-component sampling factors and quantization selectors;
    /// only 8-bit baseline frames with one or three components and
    /// sampling factors in 1..=4 are accepted.
    pub fn parse_sof0(&mut self) -> (r: Result<(), DecodeError>)
        requires
            old(self).wf(),
        ensures
            final(self).wf(),
            final(self).stream.data@ == old(self).stream.data@,
            final(self).stream.pos >= old(self).stream.pos,
            final(self).qts@ == old(self).qts@,
            final(self).hafftables@ == old(self).hafftables@,
            final(self).components@ == old(self).components@,
            final(self).restart_interval == old(self).restart_interval,
            final(self).blocks_decoded == old(self).blocks_decoded,
            match segment_at(old(self).stream.data@, old(self).stream.pos as int) {
                Some((content, np)) => {
                    &&& final(self).stream.pos == np
                    &&& (match sof_check(content) {
                        None => r is Ok,
                        Some(e) => r == Err::<(), DecodeError>(e),
                    })
                    &&& (r is Err ==> final(self).scan_components@ == old(self).scan_components@
                        && final(self).width == old(self).width && final(self).height == old(self).height)
                    &&& (r is Ok ==> {
                        &&& final(self).height == ByteStream::be16_at(content, 1)
                        &&& final(self).width == ByteStream::be16_at(content, 3)
                        &&& final(self).scan_components@.len() == old(self).scan_components@.len()
                            + sof_nf(content)
                        &&& forall|j: int|
                            0 <= j < old(self).scan_components@.len() ==> final(self).scan_components@[j] == #[trigger] old(self).scan_components@[j]
                        &&& forall|k: int|
                            0 <= k < sof_nf(content) ==> {
                                let sc = #[trigger] final(self).scan_components@[old(self).scan_components@.len() + k];
                                &&& sc.id == content[6 + 3 * k]
                                &&& sc.hi == content[6 + 3 * k + 1] / 16
                                &&& sc.vi == content[6 + 3 * k + 1] % 16
                                &&& sc.qt_id == content[6 + 3 * k + 2]
                            }
                    })
                },
                None => r == Err::<(), DecodeError>(
                    segment_read_err(old(self).stream.data@, old(self).stream.pos as int),
                ) && final(self).scan_components@ == old(self).scan_components@
                    && final(self).width == old(self).width && final(self).height == old(
                    self,
                ).height,
            },
    {
        let content = read_marker_content(&mut self.stream)?;
        if content.len() < 6 {
            return Err(DecodeError::MalformedSegment);
        }
        let p = content[0];
        if p != 8 {
            return Err(DecodeError::UnsupportedFeature(Feature::SamplePrecision));
        }
        let nf = content[5];
        if nf != 1 && nf != 3 {
            return Err(DecodeError::UnsupportedFeature(Feature::ComponentCount));
        }
        let nfu = nf as usize;
        if content.len() < 6 + 3 * nfu {
            return Err(DecodeError::MalformedSegment);
        }
        let ghost s_after = self.stream;
        let mut k: usize = 0;
        while k < nfu
            invariant
                self.qts@ == old(self).qts@,
                self.hafftables@ == old(self).hafftables@,
                self.scan_components@ == old(self).scan_components@,
                self.components@ == old(self).components@,
                self.width == old(self).width,
                self.height == old(self).height,
                self.restart_interval == old(self).restart_interval,
                self.blocks_decoded == old(self).blocks_decoded,
                self.wf(),
                self.stream == s_after,
                segment_at(old(self).stream.data@, old(self).stream.pos as int) == Some(
                    (content@, s_after.pos as int),
                ),
                s_after.data@ == old(self).stream.data@,
                old(self).stream.pos <= s_after.pos,
                nfu == content@[5],
                nfu == 1 || nfu == 3,
                content@[0] == 8,
                nfu <= 3,
                content@.len() >= 6 + 3 * nfu,
                k <= nfu,
                forall|j: int|
                    0 <= j < k ==> (1 <= #[trigger] content@[6 + 3 * j + 1] / 16 <= 4 && 1
                        <= content@[6 + 3 * j + 1] % 16 <= 4 && content@[6 + 3 * j + 2] <= 3),
            decreases nfu - k,
        {
            let hv = content[6 + 3 * k + 1];
            let hi = hv / 16;
            let vi = hv % 16;
            if hi < 1 || hi > 4 || vi < 1 || vi > 4 {
                proof {
                    lemma_sof_comp_check_skip(content@, k as int, nfu as int);
                }
                return Err(DecodeError::UnsupportedFeature(Feature::SamplingFactor));
            }
            if content[6 + 3 * k + 2] > 3 {
                proof {
                    lemma_sof_comp_check_skip(content@, k as int, nfu as int);
                }
                return Err(DecodeError::MalformedSegment);
            }
            k = k + 1;
        }
        proof {
            lemma_sof_comp_check_none(content@, 0, nfu as int);
        }
        self.height = (content[1] as u16) * 0x100 + (content[2] as u16);
        self.width = (content[3] as u16) * 0x100 + (content[4] as u16);
        let ghost old_scs = self.scan_components@;
        let mut k: usize = 0;
        while k < nfu
            invariant
                self.wf(),
                old_scs == old(self).scan_components@,
                self.stream == s_after,
                segment_at(old(self).stream.data@, old(self).stream.pos as int) == Some(
                    (content@, s_after.pos as int),
                ),
                s_after.data@ == old(self).stream.data@,
                old(self).stream.pos <= s_after.pos,
                nfu == content@[5],
                self.height == ByteStream::be16_at(content@, 1),
                self.width == ByteStream::be16_at(content@, 3),
                nfu <= 3,
                content@.len() >= 6 + 3 * nfu,
                k <= nfu,
                forall|j: int|
                    0 <= j < nfu ==> (1 <= #[trigger] content@[6 + 3 * j + 1] / 16 <= 4 && 1
                        <= content@[6 + 3 * j + 1] % 16 <= 4 && content@[6 + 3 * j + 2] <= 3),
                self.scan_components@.len() == old_scs.len() + k,
                forall|j: int|
                    0 <= j < old_scs.len() ==> self.scan_components@[j] == #[trigger] old_scs[j],
                forall|j: int|
                    0 <= j < k ==> {
                        let sc = #[trigger] self.scan_components@[old_scs.len() + j];
                        &&& sc.id == content@[6 + 3 * j]
                        &&& sc.hi == content@[6 + 3 * j + 1] / 16
                        &&& sc.vi == content@[6 + 3 * j + 1] % 16
                        &&& sc.qt_id == content@[6 + 3 * j + 2]
                    },
                self.qts@ == old(self).qts@,
                self.hafftables@ == old(self).hafftables@,
                self.components@ == old(self).components@,
                self.restart_interval == old(self).restart_interval,
                self.blocks_decoded == old(self).blocks_decoded,
            decreases nfu - k,
        {
            let ci = content[6 + 3 * k];
            let hv = content[6 + 3 * k + 1];
            let tqi = content[6 + 3 * k + 2];
            self.scan_components.push(
                ScanComponent { id: ci, hi: hv / 16, vi: hv % 16, qt_id: tqi },
            );
            k = k + 1;
        }
        Ok(())
    }

    /// Parse a DHT segment: one or more entries, each a tc|th flag
    /// byte, sixteen code-length counts and that many symbol values,
    /// each built into a Huffman table and appended in order. A class
    /// past 1, an id past 3, more than 256 symbols, or a BITS array
    /// whose canonical codes overflow a length's code space is
    /// rejected as malformed.
    pub fn parse_dht(&mut self) -> (r: Result<(), DecodeError>)
        requires
            old(self).wf(),
        ensures
            final(self).wf(),
            final(self).headers_frame(old(self)),
            final(self).qts@ == old(self).qts@,
            final(self).hafftables@.len() >= old(self).hafftables@.len(),
            forall|j: int|
                0 <= j < old(self).hafftables@.len() ==> final(self).hafftables@[j]
                    == #[trigger] old(self).hafftables@[j],
            forall|j: int|
                old(self).hafftables@.len() <= j < final(self).hafftables@.len() ==> (
                #[trigger] final(self).hafftables@[j]).wf() && crate::haff::bits_canonical(
                    final(self).hafftables@[j].bits@,
                ),
            match segment_at(old(self).stream.data@, old(self).stream.pos as int) {
                Some((content, np)) => {
                    &&& final(self).stream.pos == np
                    &&& match dht_entry_positions(content, 0) {
                        Some(ps) => r is Ok && final(self).hafftables@.len() == old(
                            self,
                        ).hafftables@.len() + ps.len() && forall|k: int|
                            0 <= k < ps.len() ==> dht_entry_built(
                                content,
                                ps[k],
                                #[trigger] final(self).hafftables@[old(self).hafftables@.len()
                                    + k],
                            ),
                        None => r == Err::<(), DecodeError>(DecodeError::MalformedSegment),
                    }
                },
                None => r == Err::<(), DecodeError>(
                    segment_read_err(old(self).stream.data@, old(self).stream.pos as int),
                ),
            },
    {
        let content = read_marker_content(&mut self.stream)?;
        let ghost old_hts = self.hafftables@;
        let ghost s_after = self.stream;
        let ghost mut done_ps: Seq<int> = Seq::empty();
        let clen = content.len();
        let mut pos: usize = 0;
        while pos < clen
            invariant
                self.wf(),
                old_hts == old(self).hafftables@,
                self.stream == s_after,
                match segment_at(old(self).stream.data@, old(self).stream.pos as int) {
                    Some((c, np)) => c == content@ && np == s_after.pos,
                    None => false,
                },
                s_after.data@ == old(self).stream.data@,
                old(self).stream.pos <= s_after.pos,
                clen == content@.len(),
                pos <= clen,
                self.hafftables@.len() >= old_hts.len(),
                forall|j: int|
                    0 <= j < old_hts.len() ==> self.hafftables@[j] == #[trigger] old_hts[j],
                forall|j: int|
                    old_hts.len() <= j < self.hafftables@.len() ==> (
                    #[trigger] self.hafftables@[j]).wf() && crate::haff::bits_canonical(
                        self.hafftables@[j].bits@,
                    ),
                self.hafftables@.len() == old_hts.len() + done_ps.len(),
                forall|k: int|
                    0 <= k < done_ps.len() ==> dht_entry_built(
                        content@,
                        done_ps[k],
                        #[trigger] self.hafftables@[old_hts.len() + k],
                    ),
                match dht_entry_positions(content@, pos as int) {
                    Some(rest) => dht_entry_positions(content@, 0) == Some(done_ps + rest),
                    None => dht_entry_positions(content@, 0) is None,
                },
                self.qts@ == old(self).qts@,
                self.scan_components@ == old(self).scan_components@,
                self.components@ == old(self).components@,
                self.width == old(self).width,
                self.height == old(self).height,
                self.restart_interval == old(self).restart_interval,
                self.blocks_decoded == old(self).blocks_decoded,
                self.stream == s_after,
            decreases clen - pos,
        {
            let flag = content[pos];
            let tc = flag / 16;
            let tn = flag % 16;
            if tc > 1 || tn > 3 {
                return Err(DecodeError::MalformedSegment);
            }
            if clen - pos < 17 {
                return Err(DecodeError::MalformedSegment);
            }
            let mut bits: [u8; 16] = [0; 16];
            let mut j: usize = 0;
            while j < 16
                invariant
                    j <= 16,
                    pos + 17 <= clen,
                    clen == content@.len(),
                    forall|jj: int|
                        0 <= jj < j ==> #[trigger] bits@[jj] == content@[pos + 1 + jj],
                decreases 16 - j,
            {
                bits[j] = content[pos + 1 + j];
                j = j + 1;
            }
            proof {
                assert(bits@ =~= dht_entry_bits(content@, pos as int));
            }
            if !crate::haff::check_bits_canonical(&bits) {
                return Err(DecodeError::MalformedSegment);
            }
            let mut valuenum: usize = 0;
            let mut j: usize = 0;
            while j < 16
                invariant
                    j <= 16,
                    valuenum == crate::haff::cum_bits(bits@, j as int),
                    valuenum <= 255 * j,
                decreases 16 - j,
            {
                valuenum = valuenum + bits[j] as usize;
                j = j + 1;
            }
            if valuenum > 256 {
                return Err(DecodeError::MalformedSegment);
            }
            if clen - pos - 17 < valuenum {
                return Err(DecodeError::MalformedSegment);
            }
            let mut values: [u8; 256] = [0; 256];
            let mut j: usize = 0;
            while j < valuenum
                invariant
                    j <= valuenum <= 256,
                    pos + 17 + valuenum <= clen,
                    clen == content@.len(),
                    forall|jj: int|
                        0 <= jj < j ==> #[trigger] values@[jj] == content@[pos + 17 + jj],
                    forall|jj: int| j <= jj < 256 ==> #[trigger] values@[jj] == 0,
                decreases valuenum - j,
            {
                values[j] = content[pos + 17 + j];
                j = j + 1;
            }
            proof {
                assert(values@ =~= dht_entry_values(content@, pos as int));
            }
            let table = HaffTable::new(tc, tn, bits, values);
            proof {
                assert(crate::haff::cum_bits(table.bits@, 16) <= 256);
                assert(dht_entry_built(content@, pos as int, table));
                let rest0 = dht_entry_positions(content@, pos as int);
                let rest1 = dht_entry_positions(content@, pos + 17 + valuenum);
                match rest1 {
                    Some(r1) => {
                        assert(rest0 == Some(seq![pos as int] + r1));
                        assert(done_ps + (seq![pos as int] + r1) =~= (done_ps + seq![
                            pos as int,
                        ]) + r1);
                    },
                    None => {},
                }
                done_ps = done_ps + seq![pos as int];
            }
            self.hafftables.push(table);
            pos = pos + 17 + valuenum;
        }
        Ok(())
    }

    /// Decode one 8x8 block for a component: resolve its tables,
    /// entropy-decode the coefficients, add the DC predictor to the
    /// DC coefficient before dequantization, dequantize, and run the
    /// inverse DCT. Returns the accumulated DC value and the samples.
    #[verifier::rlimit(100)]
    pub fn parse_block(
        &mut self,
        decoder: &mut HaffDecoder,
        qt_id: u8,
        tdj: u8,
        taj: u8,
        prev_dc: i32,
    ) -> (r: Result<(i32, [u8; 64]), DecodeError>)
        requires
            old(self).wf(),
            old(decoder).wf(),
        ensures
            final(self).wf(),
            final(decoder).wf(),
            final(self).stream.data@ == old(self).stream.data@,
            final(self).stream.pos >= old(self).stream.pos,
            old(self).stream.pos <= old(self).stream.data@.len() ==> final(self).stream.pos
                <= old(self).stream.data@.len(),
            final(self).qts@ == old(self).qts@,
            final(self).hafftables@ == old(self).hafftables@,
            final(self).scan_components@ == old(self).scan_components@,
            final(self).components@ == old(self).components@,
            final(self).width == old(self).width,
            final(self).height == old(self).height,
            final(self).restart_interval == old(self).restart_interval,
            final(self).blocks_decoded == old(self).blocks_decoded,
            !has_table(old(self).hafftables@, taj, true) ==> r == Err::<
                (i32, [u8; 64]),
                DecodeError,
            >(DecodeError::TableLookupFailed(TableKind::Ac, taj)),
            has_table(old(self).hafftables@, taj, true) && !has_table(
                old(self).hafftables@,
                tdj,
                false,
            ) ==> r == Err::<(i32, [u8; 64]), DecodeError>(
                DecodeError::TableLookupFailed(TableKind::Dc, tdj),
            ),
            has_table(old(self).hafftables@, taj, true) && has_table(
                old(self).hafftables@,
                tdj,
                false,
            ) && !has_qt(old(self).qts@, qt_id) ==> r == Err::<(i32, [u8; 64]), DecodeError>(
                DecodeError::TableLookupFailed(TableKind::Quant, qt_id),
            ),
            r matches Ok(p) ==> some_block_result(old(self).qts@, qt_id, prev_dc, p.0, p.1@),
            ({
                let st0 = crate::haff::abs_state(*old(decoder), old(self).stream);
                match spec_block(
                    old(self).qts@,
                    old(self).hafftables@,
                    qt_id,
                    tdj,
                    taj,
                    prev_dc as int,
                    st0,
                ) {
                    Ok(p) => (match r {
                        Ok(b) => b.0 == p.0 && b.1@ == p.1 && crate::haff::abs_state(
                            *final(decoder),
                            final(self).stream,
                        ) == p.2,
                        Err(_) => false,
                    }),
                    Err(e) => r == Err::<(i32, [u8; 64]), DecodeError>(e),
                }
            }),
            has_table(old(self).hafftables@, taj, true) && has_table(
                old(self).hafftables@,
                tdj,
                false,
            ) && has_qt(old(self).qts@, qt_id) ==> ({
                let ts = old(self).hafftables@;
                let st0 = crate::haff::abs_state(*old(decoder), old(self).stream);
                match crate::haff::spec_parse_coeffs(
                    st0,
                    ts[last_haff_index(ts, tdj, false)],
                    ts[last_haff_index(ts, taj, true)],
                ) {
                    Ok(p) => (match r {
                        Ok(b) => {
                            &&& crate::haff::abs_state(*final(decoder), final(self).stream) == p.1
                            &&& block_result(
                                old(self).qts@,
                                qt_id,
                                prev_dc,
                                p.0,
                                last_qt_index(old(self).qts@, qt_id),
                                b.0,
                                b.1@,
                            )
                        },
                        Err(_) => false,
                    }),
                    Err(e) => r == Err::<(i32, [u8; 64]), DecodeError>(e),
                }
            }),
    {
        let aci = match find_haff(&self.hafftables, taj, true) {
            Some(i) => i,
            None => {
                return Err(DecodeError::TableLookupFailed(TableKind::Ac, taj));
            },
        };
        let dci = match find_haff(&self.hafftables, tdj, false) {
            Some(i) => i,
            None => {
                return Err(DecodeError::TableLookupFailed(TableKind::Dc, tdj));
            },
        };
        let qi = match find_qt(&self.qts, qt_id) {
            Some(i) => i,
            None => {
                return Err(DecodeError::TableLookupFailed(TableKind::Quant, qt_id));
            },
        };
        let ac_t = self.hafftables[aci];
        let dc_t = self.hafftables[dci];
        let mut coeffs = decoder.parse_coeffs(&mut self.stream, &dc_t, &ac_t)?;
        let ghost amps = coeffs@;
        let dc = sat_add_i32(coeffs[0], prev_dc);
        coeffs[0] = dc;
        let qt = &self.qts[qi];
        let mut deq: [i64; 64] = [0; 64];
        let mut i: usize = 0;
        while i < 64
            invariant
                i <= 64,
                amps.len() == 64,
                forall|j: int| 0 <= j < 64 ==> -65535 <= #[trigger] amps[j] <= 65535,
                coeffs@[0] == dc as i32,
                dc == crate::decoder::sat_i32(amps[0] + prev_dc),
                forall|j: int| 1 <= j < 64 ==> #[trigger] coeffs@[j] == amps[j],
                forall|j: int|
                    0 <= j < i ==> #[trigger] deq@[j] == deq_block(amps, prev_dc as int, qt.table@)[j],
                forall|j: int|
                    0 <= j < i ==> -COEF_LIMIT <= #[trigger] deq@[j] <= COEF_LIMIT,
            decreases 64 - i,
        {
            let c = coeffs[i];
            let q = qt.table[i];
            proof {
                assert(-COEF_LIMIT <= (c as int) * (q as int) <= COEF_LIMIT) by (nonlinear_arith)
                    requires
                        -0x8000_0000 <= c as int <= 0x7fff_ffff,
                        0 <= q as int <= 255,
                        COEF_LIMIT == 547608330240,
                ;
            }
            deq[i] = (c as i64) * (q as i64);
            i = i + 1;
        }
        let block = idct(&deq);
        proof {
            assert(deq@ =~= deq_block(amps, prev_dc as int, qt.table@));
            assert(block_result(old(self).qts@, qt_id, prev_dc, amps, qi as int, dc, block@));
            assert(some_block_result(old(self).qts@, qt_id, prev_dc, dc, block@));
            assert forall|i: int| 0 <= i < 64 implies #[trigger] block@[i] == (idct_pixel(
                deq_block(amps, prev_dc as int, qt.table@),
                i / 8,
                i % 8,
            ) as u8) by {
                lemma_fundamental_div_mod(i, 8);
                assert(block@[(i / 8) * 8 + (i % 8)] == idct_pixel(
                    deq_block(amps, prev_dc as int, qt.table@),
                    i / 8,
                    i % 8,
                ));
            }
            assert(block@ =~= Seq::new(
                64,
                |i: int| idct_pixel(deq_block(amps, prev_dc as int, qt.table@), i / 8, i % 8) as u8,
            ));
        }
        Ok((dc, block))
    }

    /// Parse a DRI segment: one big-endian restart interval; zero
    /// disables restart handling.
    pub fn parse_dri(&mut self) -> (r: Result<(), DecodeError>)
        requires
            old(self).wf(),
        ensures
            final(self).wf(),
            final(self).stream.data@ == old(self).stream.data@,
            final(self).stream.pos >= old(self).stream.pos,
            final(self).qts@ == old(self).qts@,
            final(self).hafftables@ == old(self).hafftables@,
            final(self).scan_components@ == old(self).scan_components@,
            final(self).components@ == old(self).components@,
            final(self).width == old(self).width,
            final(self).height == old(self).height,
            final(self).blocks_decoded == old(self).blocks_decoded,
            match segment_at(old(self).stream.data@, old(self).stream.pos as int) {
                Some((content, np)) => {
                    &&& final(self).stream.pos == np
                    &&& (if content.len() >= 2 {
                        r is Ok
                    } else {
                        r == Err::<(), DecodeError>(DecodeError::MalformedSegment)
                    })
                    &&& (r is Ok ==> final(self).restart_interval == ByteStream::be16_at(
                        content,
                        0,
                    ))
                    &&& (r is Err ==> final(self).restart_interval == old(self).restart_interval)
                },
                None => r == Err::<(), DecodeError>(
                    segment_read_err(old(self).stream.data@, old(self).stream.pos as int),
                ) && final(self).restart_interval == old(self).restart_interval,
            },
    {
        let content = read_marker_content(&mut self.stream)?;
        if content.len() < 2 {
            return Err(DecodeError::MalformedSegment);
        }
        self.restart_interval = (content[0] as u16) * 0x100 + (content[1] as u16);
        Ok(())
    }
}

/// Some stored Huffman table has this id and class (`want_ac` selects
/// the AC class).
pub open spec fn has_table(tables: Seq<HaffTable>, id: u8, want_ac: bool) -> bool {
    exists|i: int|
        0 <= i < tables.len() && (#[trigger] tables[i]).id == id && (want_ac <==> tables[i].tc
            != 0)
}

/// Some stored quantization table has this id.
pub open spec fn has_qt(qts: Seq<QuantizationTable>, id: u8) -> bool {
    exists|i: int| 0 <= i < qts.len() && (#[trigger] qts[i]).id == id
}

/// The index of the most recently defined table of the given id and
/// class, or -1 when none exists.
pub open spec fn last_haff_index(tables: Seq<HaffTable>, id: u8, want_ac: bool) -> int
    decreases tables.len(),
{
    if tables.len() == 0 {
        -1
    } else if tables.last().id == id && (want_ac <==> tables.last().tc != 0) {
        tables.len() - 1
    } else {
        last_haff_index(tables.drop_last(), id, want_ac)
    }
}

/// The index of the most recently defined quantization table of the
/// given id, or -1 when none exists.
pub open spec fn last_qt_index(qts: Seq<QuantizationTable>, id: u8) -> int
    decreases qts.len(),
{
    if qts.len() == 0 {
        -1
    } else if qts.last().id == id {
        qts.len() - 1
    } else {
        last_qt_index(qts.drop_last(), id)
    }
}

proof fn lemma_last_haff_index(tables: Seq<HaffTable>, id: u8, want_ac: bool, i: int)
    requires
        0 <= i < tables.len(),
        tables[i].id == id && (want_ac <==> tables[i].tc != 0),
        forall|j: int|
            i < j < tables.len() ==> !((#[trigger] tables[j]).id == id && (want_ac <==> tables[j].tc
                != 0)),
    ensures
        last_haff_index(tables, id, want_ac) == i,
    decreases tables.len(),
{
    if i == tables.len() - 1 {
    } else {
        assert(!(tables[tables.len() - 1].id == id && (want_ac <==> tables[tables.len() - 1].tc
            != 0)));
        lemma_last_haff_index(tables.drop_last(), id, want_ac, i);
    }
}

proof fn lemma_last_qt_index(qts: Seq<QuantizationTable>, id: u8, i: int)
    requires
        0 <= i < qts.len(),
        qts[i].id == id,
        forall|j: int| i < j < qts.len() ==> (#[trigger] qts[j]).id != id,
    ensures
        last_qt_index(qts, id) == i,
    decreases qts.len(),
{
    if i == qts.len() - 1 {
    } else {
        lemma_last_qt_index(qts.drop_last(), id, i);
    }
}

/// Find the most recently defined Huffman table of the given id and
/// class; a table redefined by a later DHT wins.
fn find_haff(tables: &Vec<HaffTable>, id: u8, want_ac: bool) -> (r: Option<usize>)
    ensures
        match r {
            Some(i) => 0 <= i < tables@.len() && i == last_haff_index(tables@, id, want_ac)
                && tables@[i as int].id == id && (want_ac <==> tables@[i as int].tc != 0)
                && forall|j: int|
                i < j < tables@.len() ==> !((#[trigger] tables@[j]).id == id && (want_ac
                    <==> tables@[j].tc != 0)),
            None => !has_table(tables@, id, want_ac),
        },
{
    let mut i: usize = tables.len();
    while i > 0
        invariant
            i <= tables@.len(),
            forall|j: int|
                i <= j < tables@.len() ==> !((#[trigger] tables@[j]).id == id && (want_ac
                    <==> tables@[j].tc != 0)),
        decreases i,
    {
        i = i - 1;
        let t = &tables[i];
        if t.id == id && ((t.tc != 0) == want_ac) {
            proof {
                lemma_last_haff_index(tables@, id, want_ac, i as int);
            }
            return Some(i);
        }
    }
    None
}

/// Find the most recently defined quantization table of the given id;
/// a table redefined by a later DQT wins.
fn find_qt(qts: &Vec<QuantizationTable>, id: u8) -> (r: Option<usize>)
    ensures
        match r {
            Some(i) => 0 <= i < qts@.len() && i == last_qt_index(qts@, id) && qts@[i as int].id
                == id && forall|j: int| i < j < qts@.len() ==> (#[trigger] qts@[j]).id != id,
            None => !has_qt(qts@, id),
        },
{
    let mut i: usize = qts.len();
    while i > 0
        invariant
            i <= qts@.len(),
            forall|j: int| i <= j < qts@.len() ==> (#[trigger] qts@[j]).id != id,
        decreases i,
    {
        i = i - 1;
        if qts[i].id == id {
            proof {
                lemma_last_qt_index(qts@, id, i as int);
            }
            return Some(i);
        }
    }
    None
}

/// A wide value clipped into the 32-bit signed range.
pub open spec fn sat_i32(v: int) -> int {
    if v > i32::MAX {
        i32::MAX as int
    } else if v < i32::MIN {
        i32::MIN as int
    } else {
        v
    }
}

/// Saturating 32-bit addition.
fn sat_add_i32(a: i32, b: i32) -> (r: i32)
    ensures
        r == sat_i32(a + b),
{
    match a.checked_add(b) {
        Some(v) => v,
        None => {
            if a >= 0 {
                i32::MAX
            } else {
                i32::MIN
            }
        },
    }
}

/// The dequantized coefficient block: every amplitude scaled by its
/// quantizer, with the DC predictor added to the DC amplitude before
/// the multiplication.
pub open spec fn deq_block(amps: Seq<i32>, prev_dc: int, qt: Seq<u8>) -> Seq<i64> {
    Seq::new(
        64,
        |i: int|
            if i == 0 {
                (sat_i32(amps[0] + prev_dc) * qt[0]) as i64
            } else {
                (amps[i] * qt[i]) as i64
            },
    )
}

/// Some bounded amplitude vector explains the returned DC value and
/// samples as `block_result` demands.
pub open spec fn some_block_result(
    qts: Seq<QuantizationTable>,
    qt_id: u8,
    prev_dc: i32,
    dc: i32,
    block: Seq<u8>,
) -> bool {
    exists|amps: Seq<i32>, qi: int|
        #[trigger] block_result(qts, qt_id, prev_dc, amps, qi, dc, block)
}

/// What one decoded block is: a bounded amplitude vector whose DC,
/// summed with the predictor, gives the returned DC value, and whose
/// dequantization by the most recent quantization table of the
/// selected id runs through the inverse DCT into the returned
/// samples.
pub open spec fn block_result(
    qts: Seq<QuantizationTable>,
    qt_id: u8,
    prev_dc: i32,
    amps: Seq<i32>,
    qi: int,
    dc: i32,
    block: Seq<u8>,
) -> bool {
    &&& 0 <= qi < qts.len()
    &&& qts[qi].id == qt_id
    &&& forall|j: int| qi < j < qts.len() ==> (#[trigger] qts[j]).id != qt_id
    &&& amps.len() == 64
    &&& forall|i: int| 0 <= i < 64 ==> -65535 <= #[trigger] amps[i] <= 65535
    &&& dc == sat_i32(amps[0] + prev_dc)
    &&& block.len() == 64
    &&& forall|y: int, x: int|
        0 <= y < 8 && 0 <= x < 8 ==> #[trigger] block[y * 8 + x] == idct_pixel(
            deq_block(amps, prev_dc as int, qts[qi].table@),
            y,
            x,
        )
}

/// What decoding one block does to the entropy state: resolve the
/// latest tables of the selected ids (any missing one is the error),
/// run the coefficient decoder, add the DC predictor before
/// dequantization, and reconstruct the 64 samples by the inverse
/// DCT. The result is a function of the state alone.
pub open spec fn spec_block(
    qts: Seq<QuantizationTable>,
    hts: Seq<HaffTable>,
    qt_id: u8,
    tdj: u8,
    taj: u8,
    prev_dc: int,
    bits: crate::haff::BitState,
) -> Result<(int, Seq<u8>, crate::haff::BitState), DecodeError> {
    if !has_table(hts, taj, true) {
        Err(DecodeError::TableLookupFailed(TableKind::Ac, taj))
    } else if !has_table(hts, tdj, false) {
        Err(DecodeError::TableLookupFailed(TableKind::Dc, tdj))
    } else if !has_qt(qts, qt_id) {
        Err(DecodeError::TableLookupFailed(TableKind::Quant, qt_id))
    } else {
        match crate::haff::spec_parse_coeffs(
            bits,
            hts[last_haff_index(hts, tdj, false)],
            hts[last_haff_index(hts, taj, true)],
        ) {
            Ok(p) => {
                let amps = p.0;
                let dc = sat_i32(amps[0] + prev_dc);
                let deq = deq_block(amps, prev_dc, qts[last_qt_index(qts, qt_id)].table@);
                Ok(
                    (
                        dc,
                        Seq::new(64, |i: int| idct_pixel(deq, i / 8, i % 8) as u8),
                        p.1,
                    ),
                )
            },
            Err(e) => Err(e),
        }
    }
}

/// The plane after one 8x8 block lands at sample offsets
/// `(ox, oy)`: inside the block's rectangle the block's samples, and
/// the old plane everywhere else.
pub open spec fn spec_blit(plane: Seq<u8>, stride: int, ox: int, oy: int, block: Seq<u8>) -> Seq<
    u8,
> {
    Seq::new(
        plane.len(),
        |idx: int|
            {
                let q = idx / stride;
                let r = idx % stride;
                if oy <= q < oy + 8 && ox <= r < ox + 8 {
                    block[(q - oy) * 8 + (r - ox)]
                } else {
                    plane[idx]
                }
            },
    )
}

/// The plane after the block's cells before row `by`, column `bx`,
/// in row-major order.
spec fn blit_upto(
    plane: Seq<u8>,
    stride: int,
    ox: int,
    oy: int,
    block: Seq<u8>,
    by: int,
    bx: int,
) -> Seq<u8> {
    Seq::new(
        plane.len(),
        |idx: int|
            {
                let q = idx / stride;
                let r = idx % stride;
                if oy <= q && ox <= r < ox + 8 && (q < oy + by || (q == oy + by && r < ox + bx)) {
                    block[(q - oy) * 8 + (r - ox)]
                } else {
                    plane[idx]
                }
            },
    )
}

/// Copy one decoded 8x8 block into a component plane at the given
/// sample offsets.
fn blit_block(plane: &mut Vec<u8>, stride: usize, ox: usize, oy: usize, block: &[u8; 64])
    requires
        ox + 8 <= stride,
        (oy + 8) * stride <= old(plane)@.len(),
    ensures
        final(plane)@.len() == old(plane)@.len(),
        final(plane)@ == spec_blit(old(plane)@, stride as int, ox as int, oy as int, block@),
{
    let plen = plane.len();
    proof {
        assert(plane@ =~= blit_upto(
            old(plane)@,
            stride as int,
            ox as int,
            oy as int,
            block@,
            0,
            0,
        ));
    }
    let mut by: usize = 0;
    while by < 8
        invariant
            by <= 8,
            ox + 8 <= stride,
            (oy + 8) * stride <= plen,
            plen == plane@.len(),
            plane@.len() == old(plane)@.len(),
            plane@ == blit_upto(
                old(plane)@,
                stride as int,
                ox as int,
                oy as int,
                block@,
                by as int,
                0,
            ),
        decreases 8 - by,
    {
        let mut bx: usize = 0;
        while bx < 8
            invariant
                by < 8,
                bx <= 8,
                ox + 8 <= stride,
                (oy + 8) * stride <= plen,
                plen == plane@.len(),
                plane@.len() == old(plane)@.len(),
                plane@ == blit_upto(
                    old(plane)@,
                    stride as int,
                    ox as int,
                    oy as int,
                    block@,
                    by as int,
                    bx as int,
                ),
            decreases 8 - bx,
        {
            proof {
                assert((oy + by) * stride + ox + bx < (oy + 8) * stride && oy + by <= (oy + 8)
                    * stride && (oy + by) * stride <= (oy + 8) * stride) by (nonlinear_arith)
                    requires
                        0 <= oy,
                        0 <= ox,
                        ox + 8 <= stride,
                        by < 8,
                        bx < 8,
                        0 <= by,
                        0 <= bx,
                ;
            }
            let idx = (oy + by) * stride + ox + bx;
            let ghost prev = plane@;
            plane[idx] = block[by * 8 + bx];
            proof {
                vstd::arithmetic::div_mod::lemma_fundamental_div_mod_converse_div(
                    idx as int,
                    stride as int,
                    oy + by,
                    ox + bx,
                );
                vstd::arithmetic::div_mod::lemma_fundamental_div_mod_converse_mod(
                    idx as int,
                    stride as int,
                    oy + by,
                    ox + bx,
                );
                assert forall|id2: int| 0 <= id2 < plane@.len() implies #[trigger] plane@[id2]
                    == blit_upto(
                    old(plane)@,
                    stride as int,
                    ox as int,
                    oy as int,
                    block@,
                    by as int,
                    bx + 1,
                )[id2] by {
                    lemma_fundamental_div_mod(id2, stride as int);
                    let q = id2 / (stride as int);
                    let r = id2 % (stride as int);
                    if id2 == idx {
                        assert(q == oy + by && r == ox + bx);
                        assert(plane@[id2] == block@[(by as int) * 8 + bx]);
                    } else {
                        assert(plane@[id2] == prev[id2]);
                        assert(prev[id2] == blit_upto(
                            old(plane)@,
                            stride as int,
                            ox as int,
                            oy as int,
                            block@,
                            by as int,
                            bx as int,
                        )[id2]);
                        if q == oy + by && r == ox + bx {
                            assert(q * (stride as int) == (stride as int) * q)
                                by (nonlinear_arith);
                            assert(id2 == (oy + by) * (stride as int) + (ox + bx));
                            assert(false);
                        }
                    }
                }
                assert(plane@ =~= blit_upto(
                    old(plane)@,
                    stride as int,
                    ox as int,
                    oy as int,
                    block@,
                    by as int,
                    bx + 1,
                ));
            }
            bx = bx + 1;
        }
        proof {
            assert(plane@ =~= blit_upto(
                old(plane)@,
                stride as int,
                ox as int,
                oy as int,
                block@,
                by + 1,
                0,
            ));
        }
        by = by + 1;
    }
    proof {
        assert(plane@ =~= spec_blit(old(plane)@, stride as int, ox as int, oy as int, block@));
    }
}

/// The largest horizontal sampling factor among the first `i` bound
/// components, folded in order.
pub open spec fn max_h_to(cs: Seq<Component>, i: int) -> int
    decreases i,
{
    if i <= 0 {
        0
    } else {
        let m = max_h_to(cs, i - 1);
        if cs[i - 1].hi > m {
            cs[i - 1].hi as int
        } else {
            m
        }
    }
}

/// The largest vertical sampling factor among the first `i` bound
/// components, folded in order.
pub open spec fn max_v_to(cs: Seq<Component>, i: int) -> int
    decreases i,
{
    if i <= 0 {
        0
    } else {
        let m = max_v_to(cs, i - 1);
        if cs[i - 1].vi > m {
            cs[i - 1].vi as int
        } else {
            m
        }
    }
}

/// The number of 8x8 blocks each MCU carries: the sum of `h * v` over
/// the first `i` bound components.
pub open spec fn sum_hv_to(cs: Seq<Component>, i: int) -> int
    decreases i,
{
    if i <= 0 {
        0
    } else {
        sum_hv_to(cs, i - 1) + cs[i - 1].hi * cs[i - 1].vi
    }
}

/// Two component sequences agree on everything but DC predictors and
/// plane contents: same length, factors, selectors and plane sizes.
pub open spec fn factors_eq(a: Seq<Component>, b: Seq<Component>) -> bool {
    &&& a.len() == b.len()
    &&& forall|k: int|
        0 <= k < a.len() ==> {
            let x = #[trigger] a[k];
            let y = b[k];
            &&& x.hi == y.hi
            &&& x.vi == y.vi
            &&& x.qt_id == y.qt_id
            &&& x.tdj == y.tdj
            &&& x.taj == y.taj
            &&& x.stride == y.stride
            &&& x.plane@.len() == y.plane@.len()
        }
}

proof fn lemma_factors_congruent(a: Seq<Component>, b: Seq<Component>, i: int)
    requires
        a.len() == b.len(),
        forall|k: int| 0 <= k < a.len() ==> (#[trigger] a[k]).hi == b[k].hi && a[k].vi == b[k].vi,
        0 <= i <= a.len(),
    ensures
        sum_hv_to(a, i) == sum_hv_to(b, i),
        max_h_to(a, i) == max_h_to(b, i),
        max_v_to(a, i) == max_v_to(b, i),
    decreases i,
{
    if i > 0 {
        lemma_factors_congruent(a, b, i - 1);
    }
}

proof fn lemma_sum_hv_prefix(cs: Seq<Component>, i: int, j: int)
    requires
        0 <= i <= j <= cs.len(),
        forall|k: int| 0 <= k < cs.len() ==> comp_valid(#[trigger] cs[k]),
    ensures
        sum_hv_to(cs, i) <= sum_hv_to(cs, j),
    decreases j - i,
{
    if i < j {
        lemma_sum_hv_prefix(cs, i, j - 1);
        assert(cs[j - 1].hi * cs[j - 1].vi >= 0) by (nonlinear_arith)
            requires
                1 <= cs[j - 1].hi,
                1 <= cs[j - 1].vi,
        ;
    }
}

proof fn lemma_factors_bounds(cs: Seq<Component>, i: int)
    requires
        0 <= i <= cs.len(),
        forall|k: int| 0 <= k < cs.len() ==> comp_valid(#[trigger] cs[k]),
    ensures
        0 <= sum_hv_to(cs, i) <= 16 * i,
        0 <= max_h_to(cs, i) <= 4,
        0 <= max_v_to(cs, i) <= 4,
        i >= 1 ==> 1 <= max_h_to(cs, i) && 1 <= max_v_to(cs, i),
    decreases i,
{
    if i > 0 {
        lemma_factors_bounds(cs, i - 1);
        assert(comp_valid(cs[i - 1]));
        assert(cs[i - 1].hi * cs[i - 1].vi <= 16) by (nonlinear_arith)
            requires
                1 <= cs[i - 1].hi <= 4,
                1 <= cs[i - 1].vi <= 4,
        ;
        assert(cs[i - 1].hi * cs[i - 1].vi >= 0) by (nonlinear_arith)
            requires
                1 <= cs[i - 1].hi <= 4,
                1 <= cs[i - 1].vi <= 4,
        ;
    }
}

/// Component `c` is bound as the scan header's `k`-th entry demands:
/// its entropy selectors come from the entry's second byte, and its
/// sampling factors and quantization selector come from the first
/// frame component declared with the entry's id.
pub open spec fn sos_entry_bound(
    content: Seq<u8>,
    scs: Seq<ScanComponent>,
    c: Component,
    k: int,
) -> bool {
    &&& c.tdj == content[1 + 2 * k + 1] / 16
    &&& c.taj == content[1 + 2 * k + 1] % 16
    &&& exists|j: int|
        0 <= j < scs.len() && (#[trigger] scs[j]).id == content[1 + 2 * k] && scs[j].hi == c.hi
            && scs[j].vi == c.vi && scs[j].qt_id == c.qt_id && forall|j2: int|
            0 <= j2 < j ==> (#[trigger] scs[j2]).id != content[1 + 2 * k]
}

/// The bound components follow the scan header: one per declared scan
/// component, in scan order.
pub open spec fn sos_binding(content: Seq<u8>, scs: Seq<ScanComponent>, cs: Seq<Component>) -> bool {
    &&& content.len() >= 1 + 2 * cs.len() + 3
    &&& cs.len() == content[0]
    &&& forall|k: int| 0 <= k < cs.len() ==> sos_entry_bound(content, scs, #[trigger] cs[k], k)
}

/// A completed scan: at least one component; the MCU grid derived
/// from the sampling maxima; exactly one entropy-decoded block per
/// component sampling unit per MCU; and every plane allocated to the
/// grid's extent.
pub open spec fn scan_complete(d: Decoder) -> bool {
    let cs = d.components@;
    let n = cs.len() as int;
    let mh = max_h_to(cs, n);
    let mv = max_v_to(cs, n);
    let mx = ceil_div(d.width as int, 8 * mh);
    let my = ceil_div(d.height as int, 8 * mv);
    &&& n >= 1
    &&& 1 <= mh <= 4
    &&& 1 <= mv <= 4
    &&& d.blocks_decoded == mx * my * sum_hv_to(cs, n)
    &&& forall|k: int|
        0 <= k < n ==> {
            let c = #[trigger] cs[k];
            &&& c.stride == mx * 8 * c.hi
            &&& c.plane@.len() == (my * 8 * c.vi) * c.stride
        }
}

/// After a completed scan, the MCU grid covers the whole image:
/// `max_h * mcu_cols * 8 >= width` and `max_v * mcu_rows * 8 >=
/// height`, with less than one spare MCU per axis.
pub proof fn lemma_scan_covers(d: Decoder)
    requires
        scan_complete(d),
    ensures
        ({
            let cs = d.components@;
            let n = cs.len() as int;
            let mh = max_h_to(cs, n);
            let mv = max_v_to(cs, n);
            &&& mh * ceil_div(d.width as int, 8 * mh) * 8 >= d.width
            &&& mv * ceil_div(d.height as int, 8 * mv) * 8 >= d.height
            &&& mh * ceil_div(d.width as int, 8 * mh) * 8 < d.width + 8 * mh
            &&& mv * ceil_div(d.height as int, 8 * mv) * 8 < d.height + 8 * mv
        }),
{
    let cs = d.components@;
    let n = cs.len() as int;
    let mh = max_h_to(cs, n);
    let mv = max_v_to(cs, n);
    lemma_mcu_grid_covers(d.width as int, 8 * mh);
    lemma_mcu_grid_covers(d.height as int, 8 * mv);
    assert((8 * mh) * ceil_div(d.width as int, 8 * mh) == mh * ceil_div(d.width as int, 8 * mh)
        * 8) by (nonlinear_arith);
    assert((8 * mv) * ceil_div(d.height as int, 8 * mv) == mv * ceil_div(d.height as int, 8 * mv)
        * 8) by (nonlinear_arith);
}

/// The geometry of one bound component: everything the MCU scheduler
/// reads that stays fixed during a scan.
pub struct CompGeom {
    /// Horizontal sampling factor.
    pub hi: int,
    /// Vertical sampling factor.
    pub vi: int,
    /// Plane row length in samples.
    pub stride: int,
    /// Plane length in samples.
    pub plen: int,
    /// Quantization table selector.
    pub qt_id: u8,
    /// DC Huffman table selector.
    pub tdj: u8,
    /// AC Huffman table selector.
    pub taj: u8,
}

/// The fixed geometry of a component sequence.
pub open spec fn comp_geom(cs: Seq<Component>) -> Seq<CompGeom> {
    Seq::new(
        cs.len(),
        |k: int|
            CompGeom {
                hi: cs[k].hi as int,
                vi: cs[k].vi as int,
                stride: cs[k].stride as int,
                plen: cs[k].plane@.len() as int,
                qt_id: cs[k].qt_id,
                tdj: cs[k].tdj,
                taj: cs[k].taj,
            },
    )
}

/// The plane contents of a component sequence.
pub open spec fn comp_planes(cs: Seq<Component>) -> Seq<Seq<u8>> {
    Seq::new(cs.len(), |k: int| cs[k].plane@)
}

/// The DC predictors of a component sequence.
pub open spec fn comp_dcs(cs: Seq<Component>) -> Seq<int> {
    Seq::new(cs.len(), |k: int| cs[k].prev_dc as int)
}

/// Freshly allocated planes: one all-zero plane per component.
pub open spec fn zero_planes(gs: Seq<CompGeom>) -> Seq<Seq<u8>> {
    Seq::new(gs.len(), |k: int| Seq::new(gs[k].plen as nat, |j: int| 0u8))
}

/// Everything a scan runs against and never changes: the tables, the
/// bound components' geometry, the restart interval and the MCU grid.
pub struct ScanEnv {
    /// The quantization tables.
    pub qts: Seq<QuantizationTable>,
    /// The Huffman tables.
    pub hts: Seq<HaffTable>,
    /// The bound components' geometry, in scan order.
    pub gs: Seq<CompGeom>,
    /// The restart interval; 0 disables restarts.
    pub ri: int,
    /// MCU columns.
    pub mx: int,
    /// MCU rows.
    pub my: int,
}

/// The sample column at which block `(ih, ·)` of MCU column `ix`
/// lands in a plane of horizontal factor `hi`.
pub open spec fn ox_of(ix: int, ih: int, hi: int) -> int {
    (ix * 8) * hi + ih * 8
}

/// The sample row at which block `(·, iv)` of MCU row `iy` lands in a
/// plane of vertical factor `vi`.
pub open spec fn oy_of(iy: int, iv: int, vi: int) -> int {
    (iy * 8) * vi + iv * 8
}

/// The scan from horizontal unit `ih` of unit row `iv` of component
/// `i` in MCU `(ix, iy)`: decode one block per unit, carry the DC
/// predictor, and place the samples in the component's plane.
#[verifier::opaque]
pub open spec fn scan_units_h(
    env: ScanEnv,
    bits: crate::haff::BitState,
    planes: Seq<Seq<u8>>,
    dcs: Seq<int>,
    iy: int,
    ix: int,
    i: int,
    iv: int,
    ih: int,
) -> Result<(crate::haff::BitState, Seq<Seq<u8>>, Seq<int>), DecodeError>
    decreases env.gs[i].hi - ih,
{
    let c = env.gs[i];
    if ih >= c.hi {
        Ok((bits, planes, dcs))
    } else {
        match spec_block(env.qts, env.hts, c.qt_id, c.tdj, c.taj, dcs[i], bits) {
            Ok((dc, blk, b2)) => scan_units_h(
                env,
                b2,
                planes.update(
                    i,
                    spec_blit(planes[i], c.stride, ox_of(ix, ih, c.hi), oy_of(iy, iv, c.vi), blk),
                ),
                dcs.update(i, dc),
                iy,
                ix,
                i,
                iv,
                ih + 1,
            ),
            Err(e) => Err(e),
        }
    }
}

/// The scan from unit row `iv` of component `i` in MCU `(ix, iy)`.
#[verifier::opaque]
pub open spec fn scan_units_v(
    env: ScanEnv,
    bits: crate::haff::BitState,
    planes: Seq<Seq<u8>>,
    dcs: Seq<int>,
    iy: int,
    ix: int,
    i: int,
    iv: int,
) -> Result<(crate::haff::BitState, Seq<Seq<u8>>, Seq<int>), DecodeError>
    decreases env.gs[i].vi - iv,
{
    if iv >= env.gs[i].vi {
        Ok((bits, planes, dcs))
    } else {
        match scan_units_h(env, bits, planes, dcs, iy, ix, i, iv, 0) {
            Ok((b, p, d)) => scan_units_v(env, b, p, d, iy, ix, i, iv + 1),
            Err(e) => Err(e),
        }
    }
}

/// The scan from component `i` of MCU `(ix, iy)`, components in scan
/// order.
#[verifier::opaque]
pub open spec fn scan_comps(
    env: ScanEnv,
    bits: crate::haff::BitState,
    planes: Seq<Seq<u8>>,
    dcs: Seq<int>,
    iy: int,
    ix: int,
    i: int,
) -> Result<(crate::haff::BitState, Seq<Seq<u8>>, Seq<int>), DecodeError>
    decreases env.gs.len() - i,
{
    if i >= env.gs.len() {
        Ok((bits, planes, dcs))
    } else {
        match scan_units_v(env, bits, planes, dcs, iy, ix, i, 0) {
            Ok((b, p, d)) => scan_comps(env, b, p, d, iy, ix, i + 1),
            Err(e) => Err(e),
        }
    }
}

/// The restart handling before the MCU at index `mcu_ptr`: when one
/// is due, the next marker must be the RSTn whose index cycles D0
/// through D7; it resets the bit latch to a byte boundary and clears
/// every DC predictor. A wrong RSTn is a restart mismatch, any other
/// marker is unexpected in the scan.
#[verifier::opaque]
pub open spec fn spec_restart(
    env: ScanEnv,
    bits: crate::haff::BitState,
    dcs: Seq<int>,
    mcu_ptr: int,
) -> Result<(crate::haff::BitState, Seq<int>), DecodeError> {
    if env.ri != 0 && mcu_ptr > 0 && mcu_ptr % env.ri == 0 {
        match scan_marker(bits.data, bits.pos) {
            None => Err(DecodeError::TruncatedStream),
            Some((np, m)) => {
                let expected = 0xd0 + (mcu_ptr / env.ri + 7) % 8;
                if m == expected {
                    Ok(
                        (
                            crate::haff::BitState { data: bits.data, pos: np, buf: 0, ptr: 0 },
                            Seq::new(dcs.len(), |k: int| 0int),
                        ),
                    )
                } else if 0xd0 <= m <= 0xd7 {
                    Err(DecodeError::RestartMismatch((expected - 0xd0) as u8, (m - 0xd0) as u8))
                } else {
                    Err(DecodeError::UnexpectedMarkerInScan(m))
                }
            },
        }
    } else {
        Ok((bits, dcs))
    }
}

/// The scan from MCU column `ix` of MCU row `iy`: restart handling,
/// then every component's blocks.
#[verifier::opaque]
pub open spec fn scan_cols(
    env: ScanEnv,
    bits: crate::haff::BitState,
    planes: Seq<Seq<u8>>,
    dcs: Seq<int>,
    iy: int,
    ix: int,
) -> Result<(crate::haff::BitState, Seq<Seq<u8>>, Seq<int>), DecodeError>
    decreases env.mx - ix,
{
    if ix >= env.mx {
        Ok((bits, planes, dcs))
    } else {
        match spec_restart(env, bits, dcs, iy * env.mx + ix) {
            Ok((b1, d1)) => match scan_comps(env, b1, planes, d1, iy, ix, 0) {
                Ok((b2, p2, d2)) => scan_cols(env, b2, p2, d2, iy, ix + 1),
                Err(e) => Err(e),
            },
            Err(e) => Err(e),
        }
    }
}

/// The whole entropy-coded segment from MCU row `iy`: what the MCU
/// scheduler does, as a function of the entropy state and the
/// freshly allocated planes.
#[verifier::opaque]
pub open spec fn scan_rows(
    env: ScanEnv,
    bits: crate::haff::BitState,
    planes: Seq<Seq<u8>>,
    dcs: Seq<int>,
    iy: int,
) -> Result<(crate::haff::BitState, Seq<Seq<u8>>, Seq<int>), DecodeError>
    decreases env.my - iy,
{
    if iy >= env.my {
        Ok((bits, planes, dcs))
    } else {
        match scan_cols(env, bits, planes, dcs, iy, 0) {
            Ok((b, p, d)) => scan_rows(env, b, p, d, iy + 1),
            Err(e) => Err(e),
        }
    }
}

/// The first error a SOS header raises: too short for its counts or
/// its component entries, no components, or an entry referencing a
/// frame component no SOF0 declared.
pub open spec fn sos_header_check(content: Seq<u8>, scs: Seq<ScanComponent>) -> Option<
    DecodeError,
> {
    if content.len() < 1 {
        Some(DecodeError::MalformedSegment)
    } else if content[0] == 0 {
        Some(DecodeError::MalformedSegment)
    } else if content.len() < 1 + 2 * content[0] + 3 {
        Some(DecodeError::MalformedSegment)
    } else {
        sos_bind_check(content, scs, 0, content[0] as int)
    }
}

/// The binding check for scan component entries from `k` on.
pub open spec fn sos_bind_check(
    content: Seq<u8>,
    scs: Seq<ScanComponent>,
    k: int,
    ns: int,
) -> Option<DecodeError>
    decreases ns - k,
{
    if k >= ns {
        None
    } else if forall|j: int| 0 <= j < scs.len() ==> (#[trigger] scs[j]).id != content[1 + 2 * k] {
        Some(DecodeError::MalformedSegment)
    } else {
        sos_bind_check(content, scs, k + 1, ns)
    }
}

/// Find the frame component a scan header selects by id; the first
/// declared component of that id binds.
fn find_scan_component(scs: &Vec<ScanComponent>, id: u8) -> (r: Option<usize>)
    ensures
        match r {
            Some(i) => 0 <= i < scs@.len() && scs@[i as int].id == id && forall|j: int|
                0 <= j < i ==> (#[trigger] scs@[j]).id != id,
            None => forall|j: int| 0 <= j < scs@.len() ==> (#[trigger] scs@[j]).id != id,
        },
{
    let mut i: usize = 0;
    while i < scs.len()
        invariant
            i <= scs@.len(),
            forall|j: int| 0 <= j < i ==> (#[trigger] scs@[j]).id != id,
        decreases scs@.len() - i,
    {
        if scs[i].id == id {
            return Some(i);
        }
        i = i + 1;
    }
    None
}

/// The scan environment a decoder's bound components define: its
/// tables, the components' geometry, the restart interval and the
/// MCU grid derived from the sampling maxima.
pub open spec fn scan_env_of(d: Decoder) -> ScanEnv {
    let cs = d.components@;
    let n = cs.len() as int;
    ScanEnv {
        qts: d.qts@,
        hts: d.hafftables@,
        gs: comp_geom(cs),
        ri: d.restart_interval as int,
        mx: ceil_div(d.width as int, 8 * max_h_to(cs, n)),
        my: ceil_div(d.height as int, 8 * max_v_to(cs, n)),
    }
}

proof fn lemma_sos_bind_skip(
    content: Seq<u8>,
    scs: Seq<ScanComponent>,
    comps: Seq<Component>,
    k: int,
    ns: int,
)
    requires
        0 <= k <= ns,
        comps.len() >= k,
        forall|j: int| 0 <= j < k ==> sos_entry_bound(content, scs, #[trigger] comps[j], j),
    ensures
        sos_bind_check(content, scs, 0, ns) == sos_bind_check(content, scs, k, ns),
    decreases k,
{
    if k > 0 {
        lemma_sos_bind_skip(content, scs, comps, k - 1, ns);
        assert(sos_entry_bound(content, scs, comps[k - 1], k - 1));
        let w = choose|w: int|
            0 <= w < scs.len() && (#[trigger] scs[w]).id == content[1 + 2 * (k - 1)] && scs[w].hi
                == comps[k - 1].hi && scs[w].vi == comps[k - 1].vi && scs[w].qt_id == comps[k
                - 1].qt_id && forall|j2: int|
                0 <= j2 < w ==> (#[trigger] scs[j2]).id != content[1 + 2 * (k - 1)];
        assert(scs[w].id == content[1 + 2 * (k - 1)]);
    }
}

proof fn lemma_binding_transfer(
    content: Seq<u8>,
    scs: Seq<ScanComponent>,
    a: Seq<Component>,
    b: Seq<Component>,
)
    requires
        sos_binding(content, scs, a),
        b.len() == a.len(),
        forall|k: int|
            0 <= k < b.len() ==> {
                let c = #[trigger] b[k];
                c.hi == a[k].hi && c.vi == a[k].vi && c.qt_id == a[k].qt_id && c.tdj == a[k].tdj
                    && c.taj == a[k].taj
            },
    ensures
        sos_binding(content, scs, b),
{
    assert forall|k: int| 0 <= k < b.len() implies sos_entry_bound(
        content,
        scs,
        #[trigger] b[k],
        k,
    ) by {
        assert(sos_entry_bound(content, scs, a[k], k));
        let w = choose|w: int|
            0 <= w < scs.len() && (#[trigger] scs[w]).id == content[1 + 2 * k] && scs[w].hi
                == a[k].hi && scs[w].vi == a[k].vi && scs[w].qt_id == a[k].qt_id && forall|j2: int|
                0 <= j2 < w ==> (#[trigger] scs[j2]).id != content[1 + 2 * k];
        assert(0 <= w < scs.len() && scs[w].id == content[1 + 2 * k] && scs[w].hi == b[k].hi
            && scs[w].vi == b[k].vi && scs[w].qt_id == b[k].qt_id && forall|j2: int|
            0 <= j2 < w ==> (#[trigger] scs[j2]).id != content[1 + 2 * k]);
    }
}

proof fn lemma_sos_err_site(d: Decoder, cs0: Seq<Component>, env0: ScanEnv, content: Seq<u8>)
    requires
        factors_eq(d.components@, cs0),
        env0.qts == d.qts@,
        env0.hts == d.hafftables@,
        env0.gs == comp_geom(cs0),
        env0.ri == d.restart_interval as int,
        env0.mx == ceil_div(d.width as int, 8 * max_h_to(cs0, cs0.len() as int)),
        env0.my == ceil_div(d.height as int, 8 * max_v_to(cs0, cs0.len() as int)),
        sos_binding(content, d.scan_components@, cs0),
        forall|k: int|
            0 <= k < cs0.len() ==> {
                let c = #[trigger] cs0[k];
                c.stride == env0.mx * 8 * c.hi && c.plane@.len() == (env0.my * 8 * c.vi) * c.stride
            },
    ensures
        scan_env_of(d) == env0,
        sos_binding(content, d.scan_components@, d.components@),
        d.components@.len() == cs0.len(),
        forall|k: int|
            0 <= k < d.components@.len() ==> {
                let c = #[trigger] d.components@[k];
                c.stride == scan_env_of(d).mx * 8 * c.hi && c.plane@.len() == (scan_env_of(d).my
                    * 8 * c.vi) * c.stride
            },
{
    lemma_scan_env_transfer(d, cs0, env0);
    lemma_binding_transfer(content, d.scan_components@, cs0, d.components@);
    assert forall|k: int| 0 <= k < d.components@.len() implies {
        let c = #[trigger] d.components@[k];
        c.stride == scan_env_of(d).mx * 8 * c.hi && c.plane@.len() == (scan_env_of(d).my * 8
            * c.vi) * c.stride
    } by {
        assert(cs0[k].stride == env0.mx * 8 * cs0[k].hi && cs0[k].plane@.len() == (env0.my * 8
            * cs0[k].vi) * cs0[k].stride);
    }
}

proof fn lemma_scan_env_transfer(d: Decoder, cs0: Seq<Component>, env0: ScanEnv)
    requires
        factors_eq(d.components@, cs0),
        env0.qts == d.qts@,
        env0.hts == d.hafftables@,
        env0.gs == comp_geom(cs0),
        env0.ri == d.restart_interval as int,
        env0.mx == ceil_div(d.width as int, 8 * max_h_to(cs0, cs0.len() as int)),
        env0.my == ceil_div(d.height as int, 8 * max_v_to(cs0, cs0.len() as int)),
    ensures
        scan_env_of(d) == env0,
{
    lemma_factors_congruent(d.components@, cs0, cs0.len() as int);
    assert(comp_geom(d.components@) =~= comp_geom(cs0));
}

impl Decoder {
    /// Decode every block of one MCU: for each bound component in
    /// scan order, one block per sampling unit, placed into its plane
    /// with the DC predictor carried. The outcome equals `scan_comps`
    /// over the entry state.
    #[verifier::loop_isolation(false)]
    #[verifier::rlimit(100)]
    fn decode_mcu(
        &mut self,
        decoder: &mut HaffDecoder,
        n: usize,
        iy: u64,
        ix: u64,
        mcu_x: u64,
        mcu_y: u64,
        Ghost(env0): Ghost<ScanEnv>,
        Ghost(cs0): Ghost<Seq<Component>>,
        Ghost(shv): Ghost<int>,
    ) -> (r: Result<(), DecodeError>)
        requires
            old(self).wf(),
            old(decoder).wf(),
            old(self).stream.pos <= old(self).stream.data@.len(),
            factors_eq(old(self).components@, cs0),
            n == cs0.len(),
            n <= 255,
            env0.qts == old(self).qts@,
            env0.hts == old(self).hafftables@,
            env0.gs == comp_geom(cs0),
            env0.mx == mcu_x as int,
            env0.my == mcu_y as int,
            iy < mcu_y,
            ix < mcu_x,
            mcu_x <= 8195,
            mcu_y <= 8195,
            shv == sum_hv_to(cs0, n as int),
            forall|k: int|
                0 <= k < cs0.len() ==> {
                    let c = #[trigger] cs0[k];
                    comp_valid(c) && c.stride == env0.mx * 8 * c.hi && c.plane@.len() == (env0.my
                        * 8 * c.vi) * c.stride
                },
            old(self).blocks_decoded <= 0x80_0000_0000,
        ensures
            final(self).wf(),
            final(decoder).wf(),
            final(self).stream.data@ == old(self).stream.data@,
            final(self).stream.pos >= old(self).stream.pos,
            final(self).stream.pos <= final(self).stream.data@.len(),
            final(self).qts@ == old(self).qts@,
            final(self).hafftables@ == old(self).hafftables@,
            final(self).scan_components@ == old(self).scan_components@,
            final(self).width == old(self).width,
            final(self).height == old(self).height,
            final(self).restart_interval == old(self).restart_interval,
            factors_eq(final(self).components@, cs0),
            r is Ok ==> final(self).blocks_decoded == old(self).blocks_decoded + shv,
            match scan_comps(
                env0,
                crate::haff::abs_state(*old(decoder), old(self).stream),
                comp_planes(old(self).components@),
                comp_dcs(old(self).components@),
                iy as int,
                ix as int,
                0,
            ) {
                Ok(t) => r is Ok && crate::haff::abs_state(*final(decoder), final(self).stream)
                    == t.0 && comp_planes(final(self).components@) == t.1 && comp_dcs(
                    final(self).components@,
                ) == t.2,
                Err(e) => r == Err::<(), DecodeError>(e),
            },
    {
        proof {
            lemma_factors_bounds(cs0, n as int);
        }
                let mut i: usize = 0;
                while i < n
                    invariant
                        i <= n,
                        self.wf(),
                        decoder.wf(),
                        self.stream.data@ == old(self).stream.data@,
                        self.stream.pos >= old(self).stream.pos,
                        self.stream.pos <= self.stream.data@.len(),
                        self.qts@ == old(self).qts@,
                        self.hafftables@ == old(self).hafftables@,
                        self.scan_components@ == old(self).scan_components@,
                        self.width == old(self).width,
                        self.height == old(self).height,
                        self.restart_interval == old(self).restart_interval,
                        factors_eq(self.components@, cs0),
                        self.blocks_decoded == old(self).blocks_decoded + sum_hv_to(
                            cs0,
                            i as int,
                        ),
                        scan_comps(
                            env0,
                            crate::haff::abs_state(*old(decoder), old(self).stream),
                            comp_planes(old(self).components@),
                            comp_dcs(old(self).components@),
                            iy as int,
                            ix as int,
                            0,
                        ) == scan_comps(
                            env0,
                            crate::haff::abs_state(*decoder, self.stream),
                            comp_planes(self.components@),
                            comp_dcs(self.components@),
                            iy as int,
                            ix as int,
                            i as int,
                        ),
                    decreases n - i,
                {
                    proof {
                        reveal(scan_comps);
                    }
                    let hi = self.components[i].hi;
                    let vi = self.components[i].vi;
                    let stride = self.components[i].stride;
                    let mut iv: u8 = 0;
                    while iv < vi
                        invariant
                            iv <= vi,
                            hi == cs0[i as int].hi,
                            vi == cs0[i as int].vi,
                            stride == cs0[i as int].stride,
                            self.wf(),
                            decoder.wf(),
                            self.stream.data@ == old(self).stream.data@,
                            self.stream.pos >= old(self).stream.pos,
                            self.stream.pos <= self.stream.data@.len(),
                            self.qts@ == old(self).qts@,
                            self.hafftables@ == old(self).hafftables@,
                            self.scan_components@ == old(self).scan_components@,
                            self.width == old(self).width,
                            self.height == old(self).height,
                            self.restart_interval == old(self).restart_interval,
                            factors_eq(self.components@, cs0),
                            self.blocks_decoded == old(self).blocks_decoded + sum_hv_to(
                                cs0,
                                i as int,
                            ) + iv * hi,
                            scan_comps(
                                env0,
                                crate::haff::abs_state(*old(decoder), old(self).stream),
                                comp_planes(old(self).components@),
                                comp_dcs(old(self).components@),
                                iy as int,
                                ix as int,
                                0,
                            ) == (match scan_units_v(
                                env0,
                                crate::haff::abs_state(*decoder, self.stream),
                                comp_planes(self.components@),
                                comp_dcs(self.components@),
                                iy as int,
                                ix as int,
                                i as int,
                                iv as int,
                            ) {
                                Ok(t) => scan_comps(env0, t.0, t.1, t.2, iy as int, ix as int, i + 1),
                                Err(e) => Err(e),
                            }),
                        decreases vi - iv,
                    {
                        proof {
                            reveal(scan_units_v);
                        }
                        let mut ih: u8 = 0;
                        while ih < hi
                            invariant
                                ih <= hi,
                                iv < vi,
                                hi == cs0[i as int].hi,
                                vi == cs0[i as int].vi,
                                stride == cs0[i as int].stride,
                                self.wf(),
                                decoder.wf(),
                                self.stream.data@ == old(self).stream.data@,
                                self.stream.pos >= old(self).stream.pos,
                                self.stream.pos <= self.stream.data@.len(),
                                self.qts@ == old(self).qts@,
                                self.hafftables@ == old(self).hafftables@,
                                self.scan_components@ == old(self).scan_components@,
                                self.width == old(self).width,
                                self.height == old(self).height,
                                self.restart_interval == old(self).restart_interval,
                                factors_eq(self.components@, cs0),
                                self.blocks_decoded == old(self).blocks_decoded + sum_hv_to(
                                    cs0,
                                    i as int,
                                ) + iv * hi + ih,
                                scan_comps(
                                    env0,
                                    crate::haff::abs_state(*old(decoder), old(self).stream),
                                    comp_planes(old(self).components@),
                                    comp_dcs(old(self).components@),
                                    iy as int,
                                    ix as int,
                                    0,
                                ) == (match (match scan_units_h(
                                    env0,
                                    crate::haff::abs_state(*decoder, self.stream),
                                    comp_planes(self.components@),
                                    comp_dcs(self.components@),
                                    iy as int,
                                    ix as int,
                                    i as int,
                                    iv as int,
                                    ih as int,
                                ) {
                                    Ok(t) => scan_units_v(
                                        env0,
                                        t.0,
                                        t.1,
                                        t.2,
                                        iy as int,
                                        ix as int,
                                        i as int,
                                        iv + 1,
                                    ),
                                    Err(e) => Err(e),
                                }) {
                                    Ok(t2) => scan_comps(
                                        env0,
                                        t2.0,
                                        t2.1,
                                        t2.2,
                                        iy as int,
                                        ix as int,
                                        i + 1,
                                    ),
                                    Err(e) => Err(e),
                                }),
                            decreases hi - ih,
                        {
                            let qt_id = self.components[i].qt_id;
                            let tdj = self.components[i].tdj;
                            let taj = self.components[i].taj;
                            let prev_dc = self.components[i].prev_dc;
                            let ghost pre_abs = crate::haff::abs_state(*decoder, self.stream);
                            let ghost pre_p5 = comp_planes(self.components@);
                            let ghost pre_d5 = comp_dcs(self.components@);
                            let (dc, block) = match self.parse_block(
                                decoder,
                                qt_id,
                                tdj,
                                taj,
                                prev_dc,
                            ) {
                                Ok(v) => v,
                                Err(e) => {
                                    proof {
                                        reveal(scan_units_h);
                                        assert(spec_block(
                                            env0.qts,
                                            env0.hts,
                                            env0.gs[i as int].qt_id,
                                            env0.gs[i as int].tdj,
                                            env0.gs[i as int].taj,
                                            pre_d5[i as int],
                                            pre_abs,
                                        ) == Err::<
                                            (int, Seq<u8>, crate::haff::BitState),
                                            DecodeError,
                                        >(e));
                                        assert(scan_comps(
                                            env0,
                                            crate::haff::abs_state(
                                                *old(decoder),
                                                old(self).stream,
                                            ),
                                            comp_planes(old(self).components@),
                                            comp_dcs(old(self).components@),
                                            iy as int,
                                            ix as int,
                                            0,
                                        ) == Err::<
                                            (crate::haff::BitState, Seq<Seq<u8>>, Seq<int>),
                                            DecodeError,
                                        >(e));
                                    }
                                    return Err(e);
                                },
                            };
                            let ghost mid_cs = self.components@;
                            self.components[i].prev_dc = dc;
                            proof {
                                assert(comp_planes(self.components@) =~~= pre_p5);
                                assert(comp_dcs(self.components@) =~= pre_d5.update(
                                    i as int,
                                    dc as int,
                                ));
                            }
                            proof {
                                assert((ix * 8) * hi as u64 + (ih as u64) * 8 + 8 <= mcu_x * 8 * (
                                hi as u64) && mcu_x * 8 * (hi as u64) <= 262240)
                                    by (nonlinear_arith)
                                    requires
                                        0 <= ix < mcu_x,
                                        0 <= ih < hi,
                                        1 <= hi <= 4,
                                        mcu_x <= 8195,
                                ;
                                assert((iy * 8) * vi as u64 + (iv as u64) * 8 + 8 <= mcu_y * 8 * (
                                vi as u64) && mcu_y * 8 * (vi as u64) <= 262240)
                                    by (nonlinear_arith)
                                    requires
                                        0 <= iy < mcu_y,
                                        0 <= iv < vi,
                                        1 <= vi <= 4,
                                        mcu_y <= 8195,
                                ;
                            }
                            let ox = ((ix * 8) * (hi as u64) + (ih as u64) * 8) as usize;
                            let oy = ((iy * 8) * (vi as u64) + (iv as u64) * 8) as usize;
                            proof {
                                assert(stride as int == env0.mx * 8 * (hi as int));
                                assert(cs0[i as int].plane@.len() == (env0.my * 8 * (vi as int))
                                    * stride);
                                lemma_mul_inequality(
                                    oy as int + 8,
                                    env0.my * 8 * (vi as int),
                                    stride as int,
                                );
                            }
                            let ghost pre_blit = comp_planes(self.components@);
                            blit_block(&mut self.components[i].plane, stride, ox, oy, &block);
                            proof {
                                reveal(scan_units_h);
                                assert(comp_planes(self.components@) =~~= pre_p5.update(
                                    i as int,
                                    spec_blit(
                                        pre_p5[i as int],
                                        stride as int,
                                        ox as int,
                                        oy as int,
                                        block@,
                                    ),
                                ));
                                assert(comp_dcs(self.components@) =~= pre_d5.update(
                                    i as int,
                                    dc as int,
                                ));
                                assert(ox as int == ox_of(
                                    ix as int,
                                    ih as int,
                                    env0.gs[i as int].hi,
                                ));
                                assert(oy as int == oy_of(
                                    iy as int,
                                    iv as int,
                                    env0.gs[i as int].vi,
                                ));
                                assert(stride as int == env0.gs[i as int].stride);
                                assert(spec_block(
                                    env0.qts,
                                    env0.hts,
                                    env0.gs[i as int].qt_id,
                                    env0.gs[i as int].tdj,
                                    env0.gs[i as int].taj,
                                    pre_d5[i as int],
                                    pre_abs,
                                ) == Ok::<(int, Seq<u8>, crate::haff::BitState), DecodeError>(
                                    (
                                        dc as int,
                                        block@,
                                        crate::haff::abs_state(*decoder, self.stream),
                                    ),
                                ));
                                assert(scan_units_h(
                                    env0,
                                    pre_abs,
                                    pre_p5,
                                    pre_d5,
                                    iy as int,
                                    ix as int,
                                    i as int,
                                    iv as int,
                                    ih as int,
                                ) == scan_units_h(
                                    env0,
                                    crate::haff::abs_state(*decoder, self.stream),
                                    comp_planes(self.components@),
                                    comp_dcs(self.components@),
                                    iy as int,
                                    ix as int,
                                    i as int,
                                    iv as int,
                                    ih + 1,
                                ));
                            }
                            proof {
                                lemma_factors_bounds(cs0, i as int);
                                lemma_sum_hv_prefix(cs0, i as int, n as int);
                                assert(iv * hi + ih < 16) by (nonlinear_arith)
                                    requires
                                        0 <= iv < vi,
                                        0 <= ih < hi,
                                        1 <= hi <= 4,
                                        1 <= vi <= 4,
                                ;
                                let ghost b0 = old(self).blocks_decoded;
                                assert(self.blocks_decoded + 1 <= 0x1_0000_0000_0000)
                                    by (nonlinear_arith)
                                    requires
                                        self.blocks_decoded == b0 + sum_hv_to(cs0, i as int) + iv
                                            * hi + ih,
                                        0 <= b0 <= 0x80_0000_0000,
                                        0 <= shv <= 16 * 255,
                                        0 <= sum_hv_to(cs0, i as int) <= shv,
                                        0 <= iv * hi + ih < 16,
                                ;
                            }
                            self.blocks_decoded = self.blocks_decoded + 1;
                            ih = ih + 1;
                        }
                        proof {
                            reveal(scan_units_h);
                            assert((iv + 1) * hi == iv * hi + hi) by (nonlinear_arith);
                        }
                        iv = iv + 1;
                    }
                    proof {
                        reveal(scan_units_v);
                        assert(sum_hv_to(cs0, i + 1) == sum_hv_to(cs0, i as int) + cs0[i as int].hi
                            * cs0[i as int].vi);
                        assert(vi * hi == cs0[i as int].hi * cs0[i as int].vi) by (nonlinear_arith)
                            requires
                                hi == cs0[i as int].hi,
                                vi == cs0[i as int].vi,
                        ;
                    }
                    i = i + 1;
                }
        proof {
            reveal(scan_comps);
            lemma_factors_congruent(self.components@, cs0, n as int);
        }
        Ok(())
    }

    /// Parse a SOS header and decode the whole entropy-coded segment:
    /// bind each scan component to its frame component, allocate the
    /// component planes over the MCU grid, then for every MCU decode
    /// one block per sampling unit of each component in scan order,
    /// carrying the DC predictor and honoring restart markers. On a
    /// machine whose address space can hold every plane, the whole
    /// outcome — success or the exact error, the samples decoded into
    /// every plane, the final DC predictors and the stream position —
    /// equals `scan_rows` run over the freshly allocated planes from
    /// the position just past the header.
    #[verifier::loop_isolation(false)]
    #[verifier::rlimit(100)]
    pub fn parse_sos(&mut self) -> (r: Result<(), DecodeError>)
        requires
            old(self).wf(),
        ensures
            final(self).wf(),
            final(self).stream.data@ == old(self).stream.data@,
            final(self).stream.pos >= old(self).stream.pos,
            r is Ok ==> final(self).stream.pos <= final(self).stream.data@.len(),
            final(self).qts@ == old(self).qts@,
            final(self).hafftables@ == old(self).hafftables@,
            final(self).scan_components@ == old(self).scan_components@,
            final(self).width == old(self).width,
            final(self).height == old(self).height,
            final(self).restart_interval == old(self).restart_interval,
            r is Ok ==> scan_complete(*final(self)),
            r is Ok ==> match segment_at(old(self).stream.data@, old(self).stream.pos as int) {
                Some((content, np)) => sos_binding(
                    content,
                    old(self).scan_components@,
                    final(self).components@,
                ),
                None => false,
            },
            match segment_at(old(self).stream.data@, old(self).stream.pos as int) {
                Some((content, np)) => match sos_header_check(
                    content,
                    old(self).scan_components@,
                ) {
                    Some(e) => r == Err::<(), DecodeError>(e) && final(self).components@ == old(
                        self,
                    ).components@ && final(self).stream.pos == np && final(self).blocks_decoded
                        == old(self).blocks_decoded,
                    None => usize::MAX >= 0x11_0000_0000 ==> {
                        let cs = final(self).components@;
                        let env = scan_env_of(*final(self));
                        &&& cs.len() == content[0]
                        &&& sos_binding(content, old(self).scan_components@, cs)
                        &&& forall|k: int|
                            0 <= k < cs.len() ==> {
                                let c = #[trigger] cs[k];
                                c.stride == env.mx * 8 * c.hi && c.plane@.len() == (env.my * 8
                                    * c.vi) * c.stride
                            }
                        &&& match scan_rows(
                            env,
                            crate::haff::BitState {
                                data: old(self).stream.data@,
                                pos: np,
                                buf: 0,
                                ptr: 0,
                            },
                            zero_planes(env.gs),
                            Seq::new(cs.len(), |k: int| 0int),
                            0,
                        ) {
                            Ok(res) => r is Ok && final(self).stream.pos == res.0.pos
                                && comp_planes(cs) == res.1 && comp_dcs(cs) == res.2,
                            Err(e) => r == Err::<(), DecodeError>(e),
                        }
                    },
                },
                None => r == Err::<(), DecodeError>(
                    segment_read_err(old(self).stream.data@, old(self).stream.pos as int),
                ),
            },
    {
        let content = read_marker_content(&mut self.stream)?;
        let clen = content.len();
        if clen < 1 {
            return Err(DecodeError::MalformedSegment);
        }
        let ns = content[0] as usize;
        if ns < 1 {
            return Err(DecodeError::MalformedSegment);
        }
        if clen < 1 + 2 * ns + 3 {
            return Err(DecodeError::MalformedSegment);
        }
        let mut comps: Vec<Component> = Vec::new();
        let mut i: usize = 0;
        while i < ns
            invariant
                i <= ns,
                comps@.len() == i,
                forall|k: int| 0 <= k < i ==> comp_valid(#[trigger] comps@[k]),
                forall|k: int|
                    0 <= k < i ==> sos_entry_bound(
                        content@,
                        self.scan_components@,
                        #[trigger] comps@[k],
                        k,
                    ),
            decreases ns - i,
        {
            let csj = content[1 + 2 * i];
            let tj = content[1 + 2 * i + 1];
            let sci = match find_scan_component(&self.scan_components, csj) {
                Some(x) => x,
                None => {
                    proof {
                        lemma_sos_bind_skip(
                            content@,
                            self.scan_components@,
                            comps@,
                            i as int,
                            ns as int,
                        );
                    }
                    return Err(DecodeError::MalformedSegment);
                },
            };
            let sc = &self.scan_components[sci];
            comps.push(
                Component {
                    hi: sc.hi,
                    vi: sc.vi,
                    qt_id: sc.qt_id,
                    tdj: tj / 16,
                    taj: tj % 16,
                    prev_dc: 0,
                    plane: Vec::new(),
                    stride: 0,
                },
            );
            i = i + 1;
        }
        proof {
            lemma_sos_bind_skip(content@, self.scan_components@, comps@, ns as int, ns as int);
            assert(sos_header_check(content@, self.scan_components@) is None);
            assert(sos_binding(content@, self.scan_components@, comps@));
        }
        let n = comps.len();
        let mut max_hi: u8 = 0;
        let mut max_vi: u8 = 0;
        let mut i: usize = 0;
        while i < n
            invariant
                i <= n,
                max_hi == max_h_to(comps@, i as int),
                max_vi == max_v_to(comps@, i as int),
                0 <= max_hi <= 4,
                0 <= max_vi <= 4,
                i >= 1 ==> max_hi >= 1 && max_vi >= 1,
            decreases n - i,
        {
            if comps[i].hi > max_hi {
                max_hi = comps[i].hi;
            }
            if comps[i].vi > max_vi {
                max_vi = comps[i].vi;
            }
            i = i + 1;
        }
        let mcu_x = ceildiv(self.width as u64, (max_hi as u64) * 8);
        let mcu_y = ceildiv(self.height as u64, (max_vi as u64) * 8);
        proof {
            assert(mcu_x <= 8195 && mcu_y <= 8195) by (nonlinear_arith)
                requires
                    (max_hi as u64 * 8) * mcu_x < self.width + max_hi as u64 * 8,
                    (max_vi as u64 * 8) * mcu_y < self.height + max_vi as u64 * 8,
                    1 <= max_hi <= 4,
                    1 <= max_vi <= 4,
                    self.width <= 65535,
                    self.height <= 65535,
                    mcu_x >= 0,
                    mcu_y >= 0,
            ;
        }
        let ghost mx = mcu_x as int;
        let ghost my = mcu_y as int;
        let mut comps2: Vec<Component> = Vec::new();
        let mut i: usize = 0;
        while i < n
            invariant
                i <= n,
                comps2@.len() == i,
                forall|k: int|
                    0 <= k < i ==> {
                        let c = #[trigger] comps2@[k];
                        &&& comp_valid(c)
                        &&& c.hi == comps@[k].hi
                        &&& c.vi == comps@[k].vi
                        &&& c.qt_id == comps@[k].qt_id
                        &&& c.tdj == comps@[k].tdj
                        &&& c.taj == comps@[k].taj
                        &&& c.prev_dc == 0
                        &&& c.stride == mx * 8 * c.hi
                        &&& c.plane@.len() == (my * 8 * c.vi) * c.stride
                        &&& forall|j: int| 0 <= j < c.plane@.len() ==> c.plane@[j] == 0
                    },
            decreases n - i,
        {
            let hi = comps[i].hi;
            let vi = comps[i].vi;
            proof {
                assert(mcu_x * 8 * (hi as u64) <= 262240 && mcu_y * 8 * (vi as u64) <= 262240)
                    by (nonlinear_arith)
                    requires
                        mcu_x <= 8195,
                        mcu_y <= 8195,
                        1 <= hi <= 4,
                        1 <= vi <= 4,
                        mcu_x >= 0,
                        mcu_y >= 0,
                ;
            }
            let stride64 = mcu_x * 8 * (hi as u64);
            let rows64 = mcu_y * 8 * (vi as u64);
            proof {
                assert(rows64 * stride64 <= 0x11_0000_0000) by (nonlinear_arith)
                    requires
                        0 <= stride64 <= 262240,
                        0 <= rows64 <= 262240,
                ;
            }
            let size64 = rows64 * stride64;
            if size64 > usize::MAX as u64 {
                return Err(DecodeError::UnsupportedFeature(Feature::ImageSize));
            }
            let plane = zero_vec(size64 as usize);
            comps2.push(
                Component {
                    qt_id: comps[i].qt_id,
                    tdj: comps[i].tdj,
                    taj: comps[i].taj,
                    hi,
                    vi,
                    prev_dc: 0,
                    plane,
                    stride: stride64 as usize,
                },
            );
            i = i + 1;
        }
        self.components = comps2;
        self.blocks_decoded = 0;
        let ghost cs0 = self.components@;
        proof {
            lemma_factors_congruent(cs0, comps@, n as int);
            lemma_factors_bounds(cs0, n as int);
            assert(max_h_to(cs0, n as int) == max_hi);
            assert(max_v_to(cs0, n as int) == max_vi);
            lemma_binding_transfer(content@, self.scan_components@, comps@, cs0);
        }
        let ghost shv = sum_hv_to(cs0, n as int);
        let ghost env0 = ScanEnv {
            qts: self.qts@,
            hts: self.hafftables@,
            gs: comp_geom(cs0),
            ri: self.restart_interval as int,
            mx: mcu_x as int,
            my: mcu_y as int,
        };
        let mut decoder = HaffDecoder::new();
        let ghost bits0 = crate::haff::abs_state(decoder, self.stream);
        let ghost p0 = comp_planes(cs0);
        let ghost d0 = comp_dcs(cs0);
        proof {
            assert forall|k: int| 0 <= k < cs0.len() implies #[trigger] comp_planes(cs0)[k]
                =~= zero_planes(comp_geom(cs0))[k] by {}
            assert(p0 =~~= zero_planes(env0.gs));
            assert(d0 =~= Seq::new(cs0.len(), |k: int| 0int));
            assert(match segment_at(old(self).stream.data@, old(self).stream.pos as int) {
                Some((c, np)) => c == content@ && bits0 == (crate::haff::BitState {
                    data: old(self).stream.data@,
                    pos: np,
                    buf: 0,
                    ptr: 0,
                }),
                None => false,
            });
            assert(env0.mx == ceil_div(self.width as int, 8 * max_h_to(cs0, cs0.len() as int)));
            assert(env0.my == ceil_div(self.height as int, 8 * max_v_to(cs0, cs0.len() as int)));
        }
        let mut mcu_ptr: u64 = 0;
        let mut iy: u64 = 0;
        while iy < mcu_y
            invariant
                iy <= mcu_y,
                mcu_ptr == iy * mcu_x,
                self.wf(),
                decoder.wf(),
                self.stream.data@ == old(self).stream.data@,
                self.stream.pos >= old(self).stream.pos,
                self.stream.pos <= self.stream.data@.len(),
                self.qts@ == old(self).qts@,
                self.hafftables@ == old(self).hafftables@,
                self.scan_components@ == old(self).scan_components@,
                self.width == old(self).width,
                self.height == old(self).height,
                self.restart_interval == old(self).restart_interval,
                factors_eq(self.components@, cs0),
                self.blocks_decoded == mcu_ptr * shv,
                scan_rows(env0, bits0, p0, d0, 0) == scan_rows(
                    env0,
                    crate::haff::abs_state(decoder, self.stream),
                    comp_planes(self.components@),
                    comp_dcs(self.components@),
                    iy as int,
                ),
            decreases mcu_y - iy,
        {
            proof {
                reveal(scan_rows);
            }
            let mut ix: u64 = 0;
            while ix < mcu_x
                invariant
                    ix <= mcu_x,
                    mcu_ptr == iy * mcu_x + ix,
                    self.wf(),
                    decoder.wf(),
                    self.stream.data@ == old(self).stream.data@,
                    self.stream.pos >= old(self).stream.pos,
                    self.stream.pos <= self.stream.data@.len(),
                    self.qts@ == old(self).qts@,
                    self.hafftables@ == old(self).hafftables@,
                    self.scan_components@ == old(self).scan_components@,
                    self.width == old(self).width,
                    self.height == old(self).height,
                    self.restart_interval == old(self).restart_interval,
                    factors_eq(self.components@, cs0),
                    self.blocks_decoded == mcu_ptr * shv,
                    scan_rows(env0, bits0, p0, d0, 0) == (match scan_cols(
                        env0,
                        crate::haff::abs_state(decoder, self.stream),
                        comp_planes(self.components@),
                        comp_dcs(self.components@),
                        iy as int,
                        ix as int,
                    ) {
                        Ok(t) => scan_rows(env0, t.0, t.1, t.2, iy + 1),
                        Err(e) => Err(e),
                    }),
                decreases mcu_x - ix,
            {
                proof {
                    assert(mcu_ptr <= 8195 * 8195 + 8195) by (nonlinear_arith)
                        requires
                            mcu_ptr == iy * mcu_x + ix,
                            0 <= iy < mcu_y,
                            0 <= ix < mcu_x,
                            mcu_x <= 8195,
                            mcu_y <= 8195,
                    ;
                }
                let ghost pre_bits = crate::haff::abs_state(decoder, self.stream);
                let ghost pre_planes = comp_planes(self.components@);
                let ghost pre_dcs = comp_dcs(self.components@);
                if rst_due(mcu_ptr, self.restart_interval) {
                    let marker = match next_marker(&mut self.stream) {
                        Ok(m) => m,
                        Err(e) => {
                            proof {
                                reveal(spec_restart);
                                reveal(scan_cols);
                                lemma_sos_err_site(*self, cs0, env0, content@);
                                assert(spec_restart(env0, pre_bits, pre_dcs, mcu_ptr as int)
                                    == Err::<(crate::haff::BitState, Seq<int>), DecodeError>(e));
                                assert(scan_rows(env0, bits0, p0, d0, 0) == Err::<
                                    (crate::haff::BitState, Seq<Seq<u8>>, Seq<int>),
                                    DecodeError,
                                >(e));
                            }
                            return Err(e);
                        },
                    };
                    let expected = rst_expected(mcu_ptr, self.restart_interval);
                    if marker == expected {
                        decoder.reset();
                        let ghost s_mark = self.stream;
                        let mut ci: usize = 0;
                        while ci < n
                            invariant
                                ci <= n,
                                self.stream == s_mark,
                                factors_eq(self.components@, cs0),
                                comp_planes(self.components@) == pre_planes,
                                forall|j: int|
                                    0 <= j < ci ==> #[trigger] self.components@[j].prev_dc == 0,
                                self.wf(),
                                self.stream.data@ == old(self).stream.data@,
                                self.stream.pos >= old(self).stream.pos,
                                self.stream.pos <= self.stream.data@.len(),
                                self.qts@ == old(self).qts@,
                                self.hafftables@ == old(self).hafftables@,
                                self.scan_components@ == old(self).scan_components@,
                                self.width == old(self).width,
                                self.height == old(self).height,
                                self.restart_interval == old(self).restart_interval,
                                self.blocks_decoded == mcu_ptr * shv,
                            decreases n - ci,
                        {
                            let ghost mid = self.components@;
                            self.components[ci].prev_dc = 0;
                            proof {
                                assert(comp_planes(self.components@) =~~= comp_planes(mid));
                            }
                            ci = ci + 1;
                        }
                        proof {
                            reveal(spec_restart);
                            assert(comp_dcs(self.components@) =~= Seq::new(
                                pre_dcs.len(),
                                |k: int| 0int,
                            ));
                            assert(spec_restart(env0, pre_bits, pre_dcs, mcu_ptr as int) == Ok::<
                                (crate::haff::BitState, Seq<int>),
                                DecodeError,
                            >(
                                (
                                    crate::haff::abs_state(decoder, self.stream),
                                    comp_dcs(self.components@),
                                ),
                            ));
                        }
                    } else if marker >= 0xd0 && marker <= 0xd7 {
                        let e = DecodeError::RestartMismatch(expected - 0xd0, marker - 0xd0);
                        proof {
                            reveal(spec_restart);
                            reveal(scan_cols);
                            lemma_sos_err_site(*self, cs0, env0, content@);
                            assert(spec_restart(env0, pre_bits, pre_dcs, mcu_ptr as int) == Err::<
                                (crate::haff::BitState, Seq<int>),
                                DecodeError,
                            >(e));
                            assert(scan_rows(env0, bits0, p0, d0, 0) == Err::<
                                (crate::haff::BitState, Seq<Seq<u8>>, Seq<int>),
                                DecodeError,
                            >(e));
                        }
                        return Err(e);
                    } else {
                        let e = DecodeError::UnexpectedMarkerInScan(marker);
                        proof {
                            reveal(spec_restart);
                            reveal(scan_cols);
                            lemma_sos_err_site(*self, cs0, env0, content@);
                            assert(spec_restart(env0, pre_bits, pre_dcs, mcu_ptr as int) == Err::<
                                (crate::haff::BitState, Seq<int>),
                                DecodeError,
                            >(e));
                            assert(scan_rows(env0, bits0, p0, d0, 0) == Err::<
                                (crate::haff::BitState, Seq<Seq<u8>>, Seq<int>),
                                DecodeError,
                            >(e));
                        }
                        return Err(e);
                    }
                }
                proof {
                    reveal(spec_restart);
                    assert(spec_restart(env0, pre_bits, pre_dcs, mcu_ptr as int) == Ok::<
                        (crate::haff::BitState, Seq<int>),
                        DecodeError,
                    >((crate::haff::abs_state(decoder, self.stream), comp_dcs(self.components@))));
                    assert(comp_planes(self.components@) == pre_planes);
                }
                proof {
                    assert(mcu_ptr * shv + shv == (mcu_ptr + 1) * shv) by (nonlinear_arith);
                    assert(0 <= mcu_ptr * shv && mcu_ptr * shv + shv <= 0x1_0000_0000_0000)
                        by (nonlinear_arith)
                        requires
                            0 <= mcu_ptr <= 8195 * 8195 + 8195,
                            0 <= shv <= 16 * 255,
                    ;
                }
                mcu_ptr = mcu_ptr + 1;
                proof {
                    assert((iy * mcu_x + ix) as int == iy as int * env0.mx + ix as int);
                }
                proof {
                    assert(self.blocks_decoded <= 0x80_0000_0000) by (nonlinear_arith)
                        requires
                            self.blocks_decoded == (mcu_ptr - 1) * shv,
                            0 <= mcu_ptr - 1 <= 8195 * 8195 + 8195,
                            0 <= shv <= 16 * 255,
                    ;
                }
                match self.decode_mcu(
                    &mut decoder,
                    n,
                    iy,
                    ix,
                    mcu_x,
                    mcu_y,
                    Ghost(env0),
                    Ghost(cs0),
                    Ghost(shv),
                ) {
                    Ok(()) => {
                        proof {
                            reveal(scan_cols);
                            assert(scan_cols(env0, pre_bits, pre_planes, pre_dcs, iy as int, ix as int)
                                == scan_cols(
                                env0,
                                crate::haff::abs_state(decoder, self.stream),
                                comp_planes(self.components@),
                                comp_dcs(self.components@),
                                iy as int,
                                ix + 1,
                            ));
                        }
                    },
                    Err(e) => {
                        proof {
                            reveal(scan_cols);
                            lemma_sos_err_site(*self, cs0, env0, content@);
                            assert(scan_cols(env0, pre_bits, pre_planes, pre_dcs, iy as int, ix as int)
                                == Err::<
                                (crate::haff::BitState, Seq<Seq<u8>>, Seq<int>),
                                DecodeError,
                            >(e));
                            assert(scan_rows(env0, bits0, p0, d0, 0) == Err::<
                                (crate::haff::BitState, Seq<Seq<u8>>, Seq<int>),
                                DecodeError,
                            >(e));
                        }
                        return Err(e);
                    },
                }
                ix = ix + 1;
            }
            proof {
                reveal(scan_cols);
                assert(iy * mcu_x + mcu_x == (iy + 1) * mcu_x) by (nonlinear_arith);
            }
            iy = iy + 1;
        }
        proof {
            lemma_factors_congruent(self.components@, cs0, n as int);
            assert(mcu_ptr == mcu_y * mcu_x) by (nonlinear_arith)
                requires
                    mcu_ptr == iy * mcu_x,
                    iy == mcu_y,
            ;
            assert(self.blocks_decoded == mx * my * sum_hv_to(self.components@, n as int))
                by (nonlinear_arith)
                requires
                    self.blocks_decoded == mcu_ptr * shv,
                    mcu_ptr == mcu_y * mcu_x,
                    mx == mcu_x,
                    my == mcu_y,
                    sum_hv_to(self.components@, n as int) == shv,
            ;
            reveal(scan_rows);
            lemma_sos_err_site(*self, cs0, env0, content@);
            assert(scan_rows(env0, bits0, p0, d0, 0) == Ok::<
                (crate::haff::BitState, Seq<Seq<u8>>, Seq<int>),
                DecodeError,
            >(
                (
                    crate::haff::abs_state(decoder, self.stream),
                    comp_planes(self.components@),
                    comp_dcs(self.components@),
                ),
            ));
        }
        Ok(())
    }
}

impl Decoder {
    /// Decode the stream: require SOI, then dispatch markers to the
    /// segment parsers until EOI terminates the image successfully;
    /// any marker outside the baseline set fails.
    pub fn decode(&mut self) -> (r: Result<(), DecodeError>)
        requires
            old(self).wf(),
            old(self).stream.pos <= old(self).stream.data@.len(),
        ensures
            final(self).wf(),
            final(self).stream.data@ == old(self).stream.data@,
            final(self).stream.pos >= old(self).stream.pos,
            old(self).stream.pos + 2 > old(self).stream.data@.len() ==> r == Err::<
                (),
                DecodeError,
            >(DecodeError::TruncatedStream),
            ({
                let d = old(self).stream.data@;
                let p = old(self).stream.pos as int;
                p + 2 <= d.len() && !(d[p] == 0xff && d[p + 1] == 0xd8)
            }) ==> r == Err::<(), DecodeError>(DecodeError::MissingSoi),
            ({
                let d = old(self).stream.data@;
                let p = old(self).stream.pos as int;
                p + 2 <= d.len() && d[p] == 0xff && d[p + 1] == 0xd8
            }) ==> match header_walk(old(self).stream.data@, old(self).stream.pos + 2) {
                HeaderWalk::Accept => r is Ok,
                HeaderWalk::Reject(e) => r == Err::<(), DecodeError>(e),
                HeaderWalk::Scan => true,
            },
    {
        check_soi(&mut self.stream)?;
        loop
            invariant
                self.wf(),
                self.stream.data@ == old(self).stream.data@,
                self.stream.pos >= old(self).stream.pos,
                self.stream.pos <= self.stream.data@.len(),
                old(self).stream.pos + 2 <= old(self).stream.data@.len(),
                old(self).stream.data@[old(self).stream.pos as int] == 0xff,
                old(self).stream.data@[old(self).stream.pos + 1] == 0xd8,
                header_walk(old(self).stream.data@, old(self).stream.pos + 2)
                    == HeaderWalk::Scan || header_walk(
                    old(self).stream.data@,
                    old(self).stream.pos + 2,
                ) == header_walk(old(self).stream.data@, self.stream.pos as int),
            decreases self.stream.data@.len() - self.stream.pos,
        {
            let m = next_marker(&mut self.stream)?;
            if m == 0xe0 {
                self.parse_app0()?;
            } else if 0xe1 <= m && m <= 0xef {
                self.parse_app()?;
            } else if m == 0xdb {
                self.parse_dqt()?;
            } else if m == 0xc0 {
                self.parse_sof0()?;
            } else if m == 0xc4 {
                self.parse_dht()?;
            } else if m == 0xda {
                proof {
                    assert(header_walk(old(self).stream.data@, old(self).stream.pos + 2)
                        == HeaderWalk::Scan || header_walk(
                        old(self).stream.data@,
                        old(self).stream.pos + 2,
                    ) == HeaderWalk::Scan);
                }
                self.parse_sos()?;
            } else if m == 0xdd {
                self.parse_dri()?;
            } else if m == 0xd9 {
                return Ok(());
            } else {
                return Err(DecodeError::UnknownMarker(m));
            }
        }
    }

    /// The image height in lines, as the frame header declared it.
    pub fn get_height(&self) -> (h: u16)
        ensures
            h == self.height,
    {
        self.height
    }

    /// The image width in samples per line, as the frame header
    /// declared it.
    pub fn get_width(&self) -> (w: u16)
        ensures
            w == self.width,
    {
        self.width
    }
}

/// The plane sample component `k` contributes to output pixel
/// `(x, y)`: nearest-neighbor chroma upsampling by the ratio of the
/// component's sampling factor to the maximum.
pub open spec fn sample_of(d: Decoder, k: int, x: int, y: int) -> u8 {
    let cs = d.components@;
    let mh = max_h_to(cs, cs.len() as int);
    let mv = max_v_to(cs, cs.len() as int);
    let c = cs[k];
    c.plane@[((y * c.vi) / mv) * c.stride + (x * c.hi) / mh]
}

/// The bottom-right output pixel's sample index lies inside component
/// `k`'s plane, so by monotonicity every pixel's does.
pub open spec fn sample_in_bounds(d: Decoder, k: int) -> bool {
    let cs = d.components@;
    let mh = max_h_to(cs, cs.len() as int);
    let mv = max_v_to(cs, cs.len() as int);
    let c = cs[k];
    (((d.height - 1) * c.vi) / mv) * c.stride + ((d.width - 1) * c.hi) / mh < c.plane@.len()
}

/// The red channel of output pixel `(x, y)`: the Y sample for a
/// grayscale frame, else BT.601 over the Y and Cr samples.
pub open spec fn pixel_r(d: Decoder, x: int, y: int) -> int {
    if d.components@.len() == 1 {
        sample_of(d, 0, x, y) as int
    } else {
        rgb_r(sample_of(d, 0, x, y) as int, sample_of(d, 2, x, y) as int)
    }
}

/// The green channel of output pixel `(x, y)`.
pub open spec fn pixel_g(d: Decoder, x: int, y: int) -> int {
    if d.components@.len() == 1 {
        sample_of(d, 0, x, y) as int
    } else {
        rgb_g(
            sample_of(d, 0, x, y) as int,
            sample_of(d, 1, x, y) as int,
            sample_of(d, 2, x, y) as int,
        )
    }
}

/// The blue channel of output pixel `(x, y)`.
pub open spec fn pixel_b(d: Decoder, x: int, y: int) -> int {
    if d.components@.len() == 1 {
        sample_of(d, 0, x, y) as int
    } else {
        rgb_b(sample_of(d, 0, x, y) as int, sample_of(d, 1, x, y) as int)
    }
}

/// The raster bytes of output pixel `(x, y)` hold that pixel's
/// channels: R, G, B at the pixel's base offset, and an opaque alpha
/// byte when one was asked for.
pub open spec fn pixel_ok(d: Decoder, v: Seq<u8>, alpha: bool, x: int, y: int, w: int) -> bool {
    let bpp = if alpha {
        4int
    } else {
        3
    };
    let base = (y * w + x) * bpp;
    &&& v[base] == pixel_r(d, x, y)
    &&& v[base + 1] == pixel_g(d, x, y)
    &&& v[base + 2] == pixel_b(d, x, y)
    &&& (alpha ==> v[base + 3] == 255)
}

proof fn lemma_pixel_index_mono(qy: int, qx: int, py: int, px: int, w: int, bpp: int)
    requires
        0 <= qx < w,
        0 <= px,
        0 <= qy,
        3 <= bpp <= 4,
        qy < py || (qy == py && qx < px),
    ensures
        0 <= (qy * w + qx) * bpp,
        (qy * w + qx) * bpp + bpp <= (py * w + px) * bpp,
{
    assert(0 <= (qy * w + qx) * bpp && (qy * w + qx) * bpp + bpp <= (py * w + px) * bpp)
        by (nonlinear_arith)
        requires
            0 <= qx < w,
            0 <= px,
            0 <= qy,
            3 <= bpp <= 4,
            qy < py || (qy == py && qx < px),
    ;
}

impl Decoder {
    /// Every component plane can serve every output pixel: the
    /// geometry a color conversion needs. Holds trivially for an
    /// empty image.
    pub open spec fn rgb_ready_spec(&self) -> bool {
        ||| self.width == 0
        ||| self.height == 0
        ||| {
            let cs = self.components@;
            let n = cs.len() as int;
            &&& (n == 1 || n == 3)
            &&& 1 <= max_h_to(cs, n)
            &&& 1 <= max_v_to(cs, n)
            &&& forall|k: int| 0 <= k < n ==> sample_in_bounds(*self, k)
        }
    }

    /// Check at run time that an RGB raster can be assembled.
    pub fn rgb_ready(&self) -> (b: bool)
        ensures
            b == self.rgb_ready_spec(),
    {
        if self.width == 0 || self.height == 0 {
            return true;
        }
        let n = self.components.len();
        if !(n == 1 || n == 3) {
            return false;
        }
        let mut max_hi: u8 = 0;
        let mut max_vi: u8 = 0;
        let mut i: usize = 0;
        while i < n
            invariant
                i <= n,
                n == self.components@.len(),
                max_hi == max_h_to(self.components@, i as int),
                max_vi == max_v_to(self.components@, i as int),
            decreases n - i,
        {
            if self.components[i].hi > max_hi {
                max_hi = self.components[i].hi;
            }
            if self.components[i].vi > max_vi {
                max_vi = self.components[i].vi;
            }
            i = i + 1;
        }
        if max_hi == 0 || max_vi == 0 {
            return false;
        }
        let w1 = (self.width - 1) as u64;
        let h1 = (self.height - 1) as u64;
        let mut k: usize = 0;
        while k < n
            invariant
                k <= n,
                n == self.components@.len(),
                n == 1 || n == 3,
                self.width >= 1,
                self.height >= 1,
                w1 == self.width - 1,
                h1 == self.height - 1,
                max_hi == max_h_to(self.components@, n as int),
                max_vi == max_v_to(self.components@, n as int),
                max_hi >= 1,
                max_vi >= 1,
                forall|j: int| 0 <= j < k ==> sample_in_bounds(*self, j),
            decreases n - k,
        {
            let c = &self.components[k];
            proof {
                assert(h1 * (c.vi as u64) <= 65535 * 255 && w1 * (c.hi as u64) <= 65535 * 255)
                    by (nonlinear_arith)
                    requires
                        0 <= h1 <= 65535,
                        0 <= w1 <= 65535,
                        0 <= c.vi <= 255,
                        0 <= c.hi <= 255,
                ;
            }
            let oy = h1 * (c.vi as u64) / (max_vi as u64);
            let ox = w1 * (c.hi as u64) / (max_hi as u64);
            let plen = c.plane.len();
            let idx = match oy.checked_mul(c.stride as u64) {
                Some(p) => match p.checked_add(ox) {
                    Some(q) => q,
                    None => {
                        proof {
                            assert(!sample_in_bounds(*self, k as int));
                        }
                        return false;
                    },
                },
                None => {
                    proof {
                        assert(!sample_in_bounds(*self, k as int));
                    }
                    return false;
                },
            };
            if idx >= plen as u64 {
                proof {
                    assert(!sample_in_bounds(*self, k as int));
                }
                return false;
            }
            k = k + 1;
        }
        true
    }
}

impl Decoder {
    /// Assemble the RGB raster: for each output pixel, upsample the
    /// component samples and convert YCbCr to RGB, or replicate Y for
    /// a grayscale frame; with `alpha`, append an opaque alpha byte
    /// per pixel. The raster holds exactly
    /// `width * height * bytes_per_pixel` bytes, row-major from the
    /// top.
    #[verifier::loop_isolation(false)]
    #[verifier::rlimit(60)]
    pub fn get_rgb_vec(&self, alpha: bool) -> (v: Vec<u8>)
        requires
            self.rgb_ready_spec(),
        ensures
            v@.len() == self.width * self.height * (if alpha {
                4int
            } else {
                3
            }),
            forall|px: int, py: int|
                0 <= px < self.width && 0 <= py < self.height ==> #[trigger] pixel_ok(
                    *self,
                    v@,
                    alpha,
                    px,
                    py,
                    self.width as int,
                ),
    {
        let bpp: usize = if alpha {
            4
        } else {
            3
        };
        let mut v: Vec<u8> = Vec::new();
        if self.width == 0 || self.height == 0 {
            proof {
                assert(self.width * self.height * (if alpha {
                    4int
                } else {
                    3
                }) == 0) by (nonlinear_arith)
                    requires
                        self.width == 0 || self.height == 0,
                ;
            }
            return v;
        }
        let n = self.components.len();
        let mut max_hi: u8 = 0;
        let mut max_vi: u8 = 0;
        let mut i: usize = 0;
        while i < n
            invariant
                i <= n,
                max_hi == max_h_to(self.components@, i as int),
                max_vi == max_v_to(self.components@, i as int),
            decreases n - i,
        {
            if self.components[i].hi > max_hi {
                max_hi = self.components[i].hi;
            }
            if self.components[i].vi > max_vi {
                max_vi = self.components[i].vi;
            }
            i = i + 1;
        }
        let w = self.width as usize;
        let h = self.height as usize;
        let mut py: usize = 0;
        while py < h
            invariant
                py <= h,
                v@.len() == (py * w) * bpp,
                forall|qx: int, qy: int|
                    0 <= qx < w && 0 <= qy < py ==> #[trigger] pixel_ok(
                        *self,
                        v@,
                        alpha,
                        qx,
                        qy,
                        w as int,
                    ),
            decreases h - py,
        {
            let mut px: usize = 0;
            while px < w
                invariant
                    px <= w,
                    py < h,
                    v@.len() == (py * w + px) * bpp,
                    forall|qx: int, qy: int|
                        0 <= qx < w && 0 <= qy < py ==> #[trigger] pixel_ok(
                            *self,
                            v@,
                            alpha,
                            qx,
                            qy,
                            w as int,
                        ),
                    forall|qx: int|
                        0 <= qx < px ==> #[trigger] pixel_ok(
                            *self,
                            v@,
                            alpha,
                            qx,
                            py as int,
                            w as int,
                        ),
                decreases w - px,
            {
                let ghost len0 = v@.len() as int;
                let ghost old_v = v@;
                proof {
                    assert(len0 + bpp <= (py * w + px + 1) * bpp && (py * w + px + 1) * bpp <= (h
                        * w) * bpp && (h * w) * bpp <= 0x1_0000_0000_0000) by (nonlinear_arith)
                        requires
                            len0 == (py * w + px) * bpp,
                            0 <= px < w,
                            0 <= py < h,
                            w <= 65535,
                            h <= 65535,
                            3 <= bpp <= 4,
                    ;
                }
                if n == 1 {
                    let s = sample_at(self, 0, px, py, max_hi, max_vi);
                    v.push(s);
                    v.push(s);
                    v.push(s);
                } else {
                    let s0 = sample_at(self, 0, px, py, max_hi, max_vi);
                    let s1 = sample_at(self, 1, px, py, max_hi, max_vi);
                    let s2 = sample_at(self, 2, px, py, max_hi, max_vi);
                    let (cr, cg, cb) = ycbcr_to_rgb(s0, s1, s2);
                    v.push(cr);
                    v.push(cg);
                    v.push(cb);
                }
                if alpha {
                    v.push(255);
                }
                proof {
                    assert(pixel_ok(*self, v@, alpha, px as int, py as int, w as int));
                    assert forall|qx: int, qy: int|
                        0 <= qx < w && 0 <= qy < py implies #[trigger] pixel_ok(
                        *self,
                        v@,
                        alpha,
                        qx,
                        qy,
                        w as int,
                    ) by {
                        lemma_pixel_index_mono(qy, qx, py as int, px as int, w as int, bpp as int);
                        assert(pixel_ok(*self, old_v, alpha, qx, qy, w as int));
                    }
                    assert forall|qx: int|
                        0 <= qx < px implies #[trigger] pixel_ok(
                        *self,
                        v@,
                        alpha,
                        qx,
                        py as int,
                        w as int,
                    ) by {
                        lemma_pixel_index_mono(
                            py as int,
                            qx,
                            py as int,
                            px as int,
                            w as int,
                            bpp as int,
                        );
                        assert(pixel_ok(*self, old_v, alpha, qx, py as int, w as int));
                    }
                    assert((py * w + px) * bpp + bpp == (py * w + px + 1) * bpp)
                        by (nonlinear_arith);
                }
                px = px + 1;
            }
            proof {
                assert((py * w + w) * bpp == ((py + 1) * w) * bpp) by (nonlinear_arith);
            }
            py = py + 1;
        }
        proof {
            assert((h * w) * bpp == self.width * self.height * (if alpha {
                4int
            } else {
                3
            })) by (nonlinear_arith)
                requires
                    w == self.width,
                    h == self.height,
                    bpp == (if alpha {
                        4int
                    } else {
                        3
                    }),
            ;
        }
        v
    }
}

/// Fetch the sample component `k` contributes to output pixel
/// `(x, y)`.
fn sample_at(d: &Decoder, k: usize, x: usize, y: usize, mh: u8, mv: u8) -> (s: u8)
    requires
        d.rgb_ready_spec(),
        d.width >= 1,
        d.height >= 1,
        k < d.components@.len(),
        d.components@.len() == 1 || d.components@.len() == 3,
        x < d.width,
        y < d.height,
        mh == max_h_to(d.components@, d.components@.len() as int),
        mv == max_v_to(d.components@, d.components@.len() as int),
        mh >= 1,
        mv >= 1,
    ensures
        s == sample_of(*d, k as int, x as int, y as int),
{
    let c = &d.components[k];
    proof {
        assert((y as u64) * (c.vi as u64) <= 65535 * 255 && (x as u64) * (c.hi as u64) <= 65535
            * 255) by (nonlinear_arith)
            requires
                0 <= y <= 65535,
                0 <= x <= 65535,
                0 <= c.vi <= 255,
                0 <= c.hi <= 255,
        ;
    }
    let oy = (y as u64) * (c.vi as u64) / (mv as u64);
    let ox = (x as u64) * (c.hi as u64) / (mh as u64);
    proof {
        assert(sample_in_bounds(*d, k as int));
        lemma_mul_inequality(y as int, d.height - 1, c.vi as int);
        lemma_mul_inequality(x as int, d.width - 1, c.hi as int);
        lemma_div_is_ordered((y as int) * (c.vi as int), (d.height - 1) * (c.vi as int), mv as int);
        lemma_div_is_ordered((x as int) * (c.hi as int), (d.width - 1) * (c.hi as int), mh as int);
        lemma_mul_inequality(
            oy as int,
            ((d.height - 1) * (c.vi as int)) / (mv as int),
            c.stride as int,
        );
        vstd::arithmetic::div_mod::lemma_div_pos_is_pos(
            (y as int) * (c.vi as int),
            mv as int,
        );
        assert((y as int) * (c.vi as int) >= 0) by (nonlinear_arith)
            requires
                y >= 0,
                c.vi >= 0,
        ;
        assert((x as int) * (c.hi as int) >= 0) by (nonlinear_arith)
            requires
                x >= 0,
                c.hi >= 0,
        ;
        vstd::arithmetic::div_mod::lemma_div_pos_is_pos(
            (x as int) * (c.hi as int),
            mh as int,
        );
    }
    let plen = c.plane.len();
    proof {
        assert(oy * (c.stride as int) <= (((d.height - 1) * (c.vi as int)) / (mv as int)) * (
        c.stride as int));
        assert(oy * (c.stride as int) + ox < plen);
    }
    let idx = (oy * (c.stride as u64) + ox) as usize;
    c.plane[idx]
}

/// A zero-filled byte vector of the given length.
fn zero_vec(n: usize) -> (v: Vec<u8>)
    ensures
        v@.len() == n,
        forall|j: int| 0 <= j < n ==> v@[j] == 0,
{
    let mut v: Vec<u8> = Vec::new();
    let mut i: usize = 0;
    while i < n
        invariant
            i <= n,
            v@.len() == i,
            forall|j: int| 0 <= j < i ==> v@[j] == 0,
        decreases n - i,
    {
        v.push(0);
        i = i + 1;
    }
    v
}

} // verus!
