//! Huffman tables and the entropy decoder.
//!
//! A table is built once from a BITS/HUFFVAL pair by canonical code
//! assignment; the decoder pulls single bits MSB first from the byte
//! stream, removing `FF 00` byte-stuffing, and turns them into symbols,
//! signed amplitudes and whole 64-coefficient blocks in zigzag order.

use vstd::arithmetic::power2::lemma2_to64;
use vstd::arithmetic::power2::lemma_pow2_pos;
use vstd::arithmetic::power2::lemma_pow2_strictly_increases;
use vstd::arithmetic::power2::lemma_pow2_unfold;
use vstd::arithmetic::power2::pow2;
use vstd::prelude::*;

use crate::error::DecodeError;
use crate::stream::ByteStream;

verus! {

/// The running code value of canonical assignment just before length
/// `i + 1` is processed: each length boundary doubles the code, and
/// every code assigned at a length increments it by one.
pub open spec fn code_acc(bits: Seq<u8>, i: int) -> int
    decreases i,
{
    if i <= 0 {
        0
    } else {
        2 * code_acc(bits, i - 1) + bits[i - 1]
    }
}

/// How many symbols the lengths before `i + 1` assign: the index into
/// the value list at which the codes of length `i + 1` start.
pub open spec fn cum_bits(bits: Seq<u8>, i: int) -> int
    decreases i,
{
    if i <= 0 {
        0
    } else {
        cum_bits(bits, i - 1) + bits[i - 1]
    }
}

/// A BITS array is canonically valid when no length's code range runs
/// past the code space of that length.
pub open spec fn bits_canonical(bits: Seq<u8>) -> bool {
    forall|i: int| 0 <= i < 16 ==> #[trigger] code_acc(bits, i + 1) <= pow2((i + 1) as nat)
}

/// Run the canonical assignment over a BITS array and check that no
/// length's codes overflow that length's code space.
pub fn check_bits_canonical(bits: &[u8; 16]) -> (b: bool)
    ensures
        b == bits_canonical(bits@),
{
    let mut code: u32 = 0;
    let mut cap: u32 = 1;
    let mut i: usize = 0;
    proof {
        lemma2_to64();
    }
    while i < 16
        invariant
            i <= 16,
            code == code_acc(bits@, i as int),
            cap == pow2(i as nat),
            code <= cap,
            forall|j: int| 0 <= j < i ==> #[trigger] code_acc(bits@, j + 1) <= pow2((j + 1) as nat),
        decreases 16 - i,
    {
        proof {
            lemma2_to64();
            lemma_pow2_unfold((i + 1) as nat);
            if i < 15 {
                lemma_pow2_strictly_increases(i as nat, 15);
            }
        }
        let cap2 = cap * 2;
        let code2 = code * 2 + bits[i] as u32;
        if code2 > cap2 {
            proof {
                assert(code_acc(bits@, i + 1) > pow2((i + 1) as nat));
            }
            return false;
        }
        code = code2;
        cap = cap2;
        i = i + 1;
    }
    true
}

proof fn lemma_cum_bits_mono(bits: Seq<u8>, i: int, j: int)
    requires
        0 <= i <= j,
        forall|k: int| 0 <= k < j ==> #[trigger] bits[k] >= 0,
    ensures
        cum_bits(bits, i) <= cum_bits(bits, j),
    decreases j - i,
{
    if i < j {
        lemma_cum_bits_mono(bits, i, j - 1);
    }
}

/// An immutable Huffman table: BITS and HUFFVAL as parsed, plus the
/// derived per-length minimum code, maximum code and first value index
/// (or -1 for an absent length).
#[derive(Clone, Copy)]
pub struct HaffTable {
    /// Table class: 0 for DC, anything else for AC.
    pub tc: u8,
    /// Destination identifier the scan header selects by.
    pub id: u8,
    /// How many codes exist of each length 1..=16.
    pub bits: [u8; 16],
    /// The symbols, in order of assignment.
    pub values: [u8; 256],
    /// Smallest code of each length, or -1 if the length is absent.
    pub mincodes: [i32; 16],
    /// Largest code of each length, or -1 if the length is absent.
    pub maxcodes: [i32; 16],
    /// Index into `values` of each length's first symbol, or -1.
    pub indices: [i32; 16],
}

impl HaffTable {
    /// The derived fields agree with canonical code assignment over
    /// `bits`.
    pub open spec fn canonical(&self) -> bool {
        forall|i: int|
            0 <= i < 16 ==> {
                &&& #[trigger] self.indices@[i] == (if self.bits@[i] > 0 {
                    cum_bits(self.bits@, i)
                } else {
                    -1
                })
                &&& self.mincodes@[i] == (if self.bits@[i] > 0 {
                    2 * code_acc(self.bits@, i)
                } else {
                    -1
                })
                &&& self.maxcodes@[i] == (if self.bits@[i] > 0 {
                    2 * code_acc(self.bits@, i) + self.bits@[i] - 1
                } else {
                    -1
                })
            }
    }

    /// A table the entropy decoder may consume: canonically derived,
    /// with all of its value indices inside the 256-entry value list.
    pub open spec fn wf(&self) -> bool {
        &&& self.canonical()
        &&& cum_bits(self.bits@, 16) <= 256
    }

    /// Build a table from a BITS/HUFFVAL pair by canonical assignment:
    /// the code starts at zero, doubles at each length boundary, and
    /// increments by one for consecutive codes of one length.
    pub fn new(tc: u8, id: u8, bits: [u8; 16], values: [u8; 256]) -> (t: HaffTable)
        ensures
            t.tc == tc,
            t.id == id,
            t.bits@ == bits@,
            t.values@ == values@,
            t.canonical(),
    {
        let mut mincodes: [i32; 16] = [-1; 16];
        let mut maxcodes: [i32; 16] = [-1; 16];
        let mut indices: [i32; 16] = [-1; 16];
        let mut code: i32 = 0;
        let mut cumm: u16 = 0;
        let mut i: usize = 0;
        proof {
            lemma2_to64();
        }
        while i < 16
            invariant
                i <= 16,
                code == code_acc(bits@, i as int),
                cumm == cum_bits(bits@, i as int),
                0 <= code <= 255 * (pow2(i as nat) - 1),
                cumm <= 255 * i,
                forall|j: int|
                    0 <= j < i ==> #[trigger] indices@[j] == (if bits@[j] > 0 {
                        cum_bits(bits@, j)
                    } else {
                        -1
                    }),
                forall|j: int|
                    0 <= j < i ==> #[trigger] mincodes@[j] == (if bits@[j] > 0 {
                        2 * code_acc(bits@, j)
                    } else {
                        -1
                    }),
                forall|j: int|
                    0 <= j < i ==> #[trigger] maxcodes@[j] == (if bits@[j] > 0 {
                        2 * code_acc(bits@, j) + bits@[j] - 1
                    } else {
                        -1
                    }),
                forall|j: int| i <= j < 16 ==> #[trigger] indices@[j] == -1,
                forall|j: int| i <= j < 16 ==> #[trigger] mincodes@[j] == -1,
                forall|j: int| i <= j < 16 ==> #[trigger] maxcodes@[j] == -1,
            decreases 16 - i,
        {
            proof {
                lemma2_to64();
                lemma_pow2_unfold((i + 1) as nat);
                if i < 15 {
                    lemma_pow2_strictly_increases(i as nat, 15);
                }
            }
            code = code * 2;
            if bits[i] > 0 {
                indices[i] = cumm as i32;
                cumm = cumm + bits[i] as u16;
                mincodes[i] = code;
                code = code + bits[i] as i32;
                maxcodes[i] = code - 1;
            }
            i = i + 1;
        }
        HaffTable { tc, id, bits, values, mincodes, maxcodes, indices }
    }
}

/// Code `c` is one of the codes the table assigns at length `l + 1`.
pub open spec fn ht_assigned(t: HaffTable, l: int, c: int) -> bool {
    &&& 0 <= l < 16
    &&& t.bits@[l] > 0
    &&& t.mincodes@[l] <= c <= t.maxcodes@[l]
}

/// The symbol the table yields for code `c` of length `l + 1`.
pub open spec fn ht_symbol(t: HaffTable, l: int, c: int) -> u8 {
    t.values@[t.indices@[l] + c - t.mincodes@[l]]
}

/// The first `i + 1` bits of the `l + 1`-bit code `c`, read as an
/// integer: what the decoding loop has accumulated after `i + 1` bits.
pub open spec fn code_prefix(c: int, l: int, i: int) -> int {
    c / pow2((l - i) as nat) as int
}

proof fn lemma_code_acc_doubles(bits: Seq<u8>, i: int, l: int)
    requires
        0 <= i <= l,
    ensures
        code_acc(bits, l) >= code_acc(bits, i) * pow2((l - i) as nat),
    decreases l - i,
{
    if i == l {
        lemma2_to64();
    } else {
        lemma_code_acc_doubles(bits, i, l - 1);
        lemma_pow2_unfold((l - i) as nat);
        assert(2 * (code_acc(bits, i) * pow2((l - 1 - i) as nat)) == code_acc(bits, i) * (2
            * pow2((l - 1 - i) as nat))) by (nonlinear_arith);
    }
}

/// Canonical codes round-trip: take any symbol the construction
/// assigned, say the `j`-th of length `l + 1`; its code is
/// `mincodes[l] + j`, it fits in `l + 1` bits, no strict prefix of it
/// is an assigned code of a shorter length, and looking the full code
/// up at length `l + 1` yields that symbol back. So feeding the
/// code's bits to the symbol decoder returns exactly the symbol that
/// was encoded.
pub proof fn lemma_huffman_round_trip(t: HaffTable, l: int, j: int)
    requires
        t.canonical(),
        bits_canonical(t.bits@),
        0 <= l < 16,
        0 <= j < t.bits@[l],
    ensures
        0 <= t.mincodes@[l] + j < pow2((l + 1) as nat),
        ht_assigned(t, l, t.mincodes@[l] + j),
        ht_symbol(t, l, t.mincodes@[l] + j) == t.values@[cum_bits(t.bits@, l) + j],
        forall|i: int|
            0 <= i < l ==> !#[trigger] ht_assigned(t, i, code_prefix(t.mincodes@[l] + j, l, i)),
{
    let c = t.mincodes@[l] + j;
    assert(t.indices@[l] == cum_bits(t.bits@, l));
    lemma_code_acc_doubles(t.bits@, 0, l);
    assert(code_acc(t.bits@, l) >= 0) by (nonlinear_arith)
        requires
            code_acc(t.bits@, l) >= code_acc(t.bits@, 0) * pow2(l as nat),
            code_acc(t.bits@, 0) == 0,
    ;
    assert(code_acc(t.bits@, l + 1) == 2 * code_acc(t.bits@, l) + t.bits@[l]);
    assert(code_acc(t.bits@, l + 1) <= pow2((l + 1) as nat));
    assert forall|i: int| 0 <= i < l implies !#[trigger] ht_assigned(t, i, code_prefix(c, l, i)) by {
        if t.bits@[i] > 0 {
            let p = pow2((l - i) as nat) as int;
            lemma_pow2_pos((l - i) as nat);
            lemma_code_acc_doubles(t.bits@, i + 1, l);
            let q = pow2((l - i - 1) as nat) as int;
            lemma_pow2_unfold((l - i) as nat);
            assert(code_acc(t.bits@, l) >= code_acc(t.bits@, i + 1) * q);
            assert(c >= 2 * (code_acc(t.bits@, i + 1) * q));
            assert(2 * (code_acc(t.bits@, i + 1) * q) == code_acc(t.bits@, i + 1) * (2 * q))
                by (nonlinear_arith);
            vstd::arithmetic::div_mod::lemma_div_is_ordered(
                code_acc(t.bits@, i + 1) * p,
                c,
                p,
            );
            vstd::arithmetic::div_mod::lemma_div_multiples_vanish(
                code_acc(t.bits@, i + 1),
                p,
            );
            assert(code_acc(t.bits@, i + 1) * p == p * code_acc(t.bits@, i + 1))
                by (nonlinear_arith);
            assert(code_prefix(c, l, i) >= code_acc(t.bits@, i + 1));
            assert(t.indices@[i] == cum_bits(t.bits@, i));
            assert(t.maxcodes@[i] == code_acc(t.bits@, i + 1) - 1);
        }
    }
}

/// The bit the latch yields when its pointer stands at `ptr`: bit
/// `ptr - 1` of the byte, counting from the least significant.
pub open spec fn latch_bit(buf: u8, ptr: int) -> int {
    (buf as int / pow2((ptr - 1) as nat) as int) % 2
}

/// Accumulating `k` bits onto a non-negative `acc` keeps `acc` as the
/// quotient: the result lies in `[acc * 2^k, (acc + 1) * 2^k)`.
proof fn lemma_read_raw_prefix(st: BitState, k: int, acc: int, v: int, st2: BitState)
    requires
        0 <= k,
        0 <= acc,
        spec_read_raw(st, k, acc) == Ok::<(int, BitState), DecodeError>((v, st2)),
    ensures
        acc * pow2(k as nat) <= v < acc * pow2(k as nat) + pow2(k as nat),
        v / pow2(k as nat) as int == acc,
    decreases k,
{
    lemma_pow2_pos(k as nat);
    if k == 0 {
        lemma2_to64();
    } else {
        let step = spec_read_bit(st);
        match step {
            Ok((b, st1)) => {
                lemma_read_raw_prefix(st1, k - 1, 2 * acc + b, v, st2);
                lemma_pow2_unfold(k as nat);
                assert((2 * acc + b) * pow2((k - 1) as nat) == acc * (2 * pow2((k - 1) as nat)) + b
                    * pow2((k - 1) as nat)) by (nonlinear_arith);
                assert((2 * acc + b + 1) * pow2((k - 1) as nat) == acc * (2 * pow2(
                    (k - 1) as nat,
                )) + (b + 1) * pow2((k - 1) as nat)) by (nonlinear_arith);
                assert(b * pow2((k - 1) as nat) >= 0 && (b + 1) * pow2((k - 1) as nat) <= 2 * pow2(
                    (k - 1) as nat,
                )) by (nonlinear_arith)
                    requires
                        0 <= b <= 1,
                        pow2((k - 1) as nat) > 0,
                ;
            },
            Err(_) => {
                assert(false);
            },
        }
        vstd::arithmetic::div_mod::lemma_fundamental_div_mod_converse_div(
            v,
            pow2(k as nat) as int,
            acc,
            v - acc * pow2(k as nat),
        );
    }
}

/// Canonical codes round-trip operationally: if the next `l + 1` bits
/// of the state spell out the code of the `j`-th symbol assigned at
/// length `l + 1`, the symbol decoder consumes exactly those bits and
/// returns that symbol. Together with `lemma_huffman_round_trip` this
/// is `decode_symbol(encode_symbol(s)) == s` for every symbol the
/// canonical construction assigned.
pub proof fn lemma_huffman_decode_of_encoded(
    t: HaffTable,
    l: int,
    j: int,
    st: BitState,
    st2: BitState,
)
    requires
        t.canonical(),
        bits_canonical(t.bits@),
        0 <= l < 16,
        0 <= j < t.bits@[l],
        spec_read_raw(st, l + 1, 0) == Ok::<(int, BitState), DecodeError>(
            (t.mincodes@[l] + j, st2),
        ),
    ensures
        spec_parse_haff(st, t) == Ok::<(u8, BitState), DecodeError>(
            (t.values@[cum_bits(t.bits@, l) + j], st2),
        ),
{
    lemma_huffman_round_trip(t, l, j);
    let c = t.mincodes@[l] + j;
    lemma_read_raw_prefix(st, l + 1, 0, c, st2);
    vstd::arithmetic::div_mod::lemma_basic_div(c, pow2((l + 1) as nat) as int);
    lemma_pow2_pos((l + 1) as nat);
    lemma_decode_steps(t, l, j, 0, st, st2);
}

proof fn lemma_decode_steps(t: HaffTable, l: int, j: int, i: int, sti: BitState, st2: BitState)
    requires
        t.canonical(),
        bits_canonical(t.bits@),
        0 <= l < 16,
        0 <= j < t.bits@[l],
        0 <= i <= l,
        spec_read_raw(
            sti,
            l + 1 - i,
            (t.mincodes@[l] + j) / pow2((l + 1 - i) as nat) as int,
        ) == Ok::<(int, BitState), DecodeError>((t.mincodes@[l] + j, st2)),
    ensures
        spec_haff_steps(
            sti,
            t,
            (t.mincodes@[l] + j) / pow2((l + 1 - i) as nat) as int,
            i,
        ) == Ok::<(u8, BitState), DecodeError>((t.values@[cum_bits(t.bits@, l) + j], st2)),
    decreases l - i,
{
    lemma_huffman_round_trip(t, l, j);
    let c = t.mincodes@[l] + j;
    let k = l + 1 - i;
    let acc = c / pow2(k as nat) as int;
    lemma_pow2_pos(k as nat);
    lemma_pow2_pos((k - 1) as nat);
    vstd::arithmetic::div_mod::lemma_div_pos_is_pos(c, pow2(k as nat) as int);
    match spec_read_bit(sti) {
        Ok((b, st1)) => {
            lemma_read_raw_prefix(st1, k - 1, 2 * acc + b, c, st2);
            let cur1 = 2 * acc + b;
            assert(cur1 == c / pow2((l - i) as nat) as int);
            assert(t.indices@[i] == (if t.bits@[i] > 0 {
                cum_bits(t.bits@, i)
            } else {
                -1
            }));
            if i < l {
                assert(!ht_assigned(t, i, code_prefix(c, l, i)));
                assert(code_prefix(c, l, i) == cur1);
                assert(spec_read_raw(st1, l - i, cur1) == Ok::<(int, BitState), DecodeError>(
                    (c, st2),
                ));
                lemma_decode_steps(t, l, j, i + 1, st1, st2);
                assert(spec_haff_steps(st1, t, cur1, i + 1) == Ok::<(u8, BitState), DecodeError>(
                    (t.values@[cum_bits(t.bits@, l) + j], st2),
                ));
                assert(spec_haff_steps(sti, t, acc, i) == spec_haff_steps(st1, t, cur1, i + 1));
            } else {
                lemma2_to64();
                assert(spec_read_raw(st1, 0, cur1) == Ok::<(int, BitState), DecodeError>(
                    (c, st2),
                ));
                assert(cur1 == c && st1 == st2);
                assert(ht_assigned(t, l, c));
                lemma_cum_bits_mono(t.bits@, 0, l);
                assert(t.indices@[l] == cum_bits(t.bits@, l));
                assert(t.indices@[l] != -1);
                assert(spec_haff_steps(sti, t, acc, l) == Ok::<(u8, BitState), DecodeError>(
                    (t.values@[cum_bits(t.bits@, l) + j], st2),
                ));
            }
        },
        Err(_) => {
            assert(false);
        },
    }
}

/// The entropy reader's whole state: the stream's bytes and read
/// position, and the bit latch. Every entropy-layer operation is a
/// function of this state alone, so decoding is deterministic.
#[verifier::ext_equal]
pub struct BitState {
    /// The stream's bytes.
    pub data: Seq<u8>,
    /// The stream's read position.
    pub pos: int,
    /// The latch byte.
    pub buf: u8,
    /// The latch's bit pointer.
    pub ptr: int,
}

/// The entropy state a reader and stream pair stand in.
pub open spec fn abs_state(d: HaffDecoder, s: ByteStream) -> BitState {
    BitState { data: s.data@, pos: s.pos as int, buf: d.buf, ptr: d.ptr as int }
}

/// One bit pulled from the state: from the latch if bits remain, else
/// from the next stream byte with `FF 00` destuffed and any other
/// `FF`-led pair rejected as a marker.
pub open spec fn spec_read_bit(st: BitState) -> Result<(u8, BitState), DecodeError> {
    if st.ptr > 0 {
        Ok((latch_bit(st.buf, st.ptr) as u8, BitState { ptr: st.ptr - 1, ..st }))
    } else if st.pos < 0 || st.pos >= st.data.len() {
        Err(DecodeError::TruncatedStream)
    } else if st.data[st.pos] != 0xff {
        Ok(
            (
                latch_bit(st.data[st.pos], 8) as u8,
                BitState { buf: st.data[st.pos], ptr: 7, pos: st.pos + 1, ..st },
            ),
        )
    } else if st.pos + 1 >= st.data.len() {
        Err(DecodeError::TruncatedStream)
    } else if st.data[st.pos + 1] == 0x00 {
        Ok((1u8, BitState { buf: 0xff, ptr: 7, pos: st.pos + 2, ..st }))
    } else {
        Err(DecodeError::UnexpectedMarkerInScan(st.data[st.pos + 1]))
    }
}

/// Byte-destuffing: a stuffed `FF 00` pair inside the entropy segment
/// enters the bit stream as the single literal byte `FF` — the latch
/// is loaded with `FF`, both bytes are consumed, and the byte's first
/// bit (a one) is emitted.
pub proof fn lemma_byte_destuffing(st: BitState)
    requires
        st.ptr == 0,
        0 <= st.pos,
        st.pos + 1 < st.data.len(),
        st.data[st.pos] == 0xff,
        st.data[st.pos + 1] == 0x00,
    ensures
        spec_read_bit(st) == Ok::<(u8, BitState), DecodeError>(
            (1u8, BitState { buf: 0xff, ptr: 7, pos: st.pos + 2, ..st }),
        ),
{
}

/// `k` bits accumulated MSB first onto `acc`.
pub open spec fn spec_read_raw(st: BitState, k: int, acc: int) -> Result<
    (int, BitState),
    DecodeError,
>
    decreases k,
{
    if k <= 0 {
        Ok((acc, st))
    } else {
        match spec_read_bit(st) {
            Ok((b, st1)) => spec_read_raw(st1, k - 1, 2 * acc + b),
            Err(e) => Err(e),
        }
    }
}

/// An `ssss`-bit raw field read and sign-extended into an amplitude.
pub open spec fn spec_read_amplitude(st: BitState, ssss: int) -> Result<
    (int, BitState),
    DecodeError,
> {
    if ssss == 0 {
        Ok((0, st))
    } else {
        match spec_read_raw(st, ssss, 0) {
            Ok((raw, st1)) => Ok((amp_extend(ssss, raw), st1)),
            Err(e) => Err(e),
        }
    }
}

/// The symbol decode from step `i` on, with `cur` bits accumulated:
/// pull a bit, and yield the table's symbol as soon as the
/// accumulated code falls in a present length's range.
pub open spec fn spec_haff_steps(st: BitState, t: HaffTable, cur: int, i: int) -> Result<
    (u8, BitState),
    DecodeError,
>
    decreases 16 - i,
{
    if i >= 16 {
        Err(DecodeError::HuffmanDecodeError)
    } else {
        match spec_read_bit(st) {
            Ok((b, st1)) => {
                let cur1 = 2 * cur + b;
                if t.indices@[i] != -1 && t.mincodes@[i] <= cur1 <= t.maxcodes@[i] {
                    Ok((t.values@[t.indices@[i] + cur1 - t.mincodes@[i]], st1))
                } else {
                    spec_haff_steps(st1, t, cur1, i + 1)
                }
            },
            Err(e) => Err(e),
        }
    }
}

/// One whole symbol decoded from the state.
pub open spec fn spec_parse_haff(st: BitState, t: HaffTable) -> Result<
    (u8, BitState),
    DecodeError,
> {
    spec_haff_steps(st, t, 0, 0)
}

/// The AC coefficient loop from slot `ptr` on: EOB ends the block,
/// ZRL skips sixteen slots, and a run/size pair places one amplitude
/// after its run of zeros; a run past the block's end overflows.
pub open spec fn spec_ac_loop(st: BitState, ac: HaffTable, buf: Seq<i32>, ptr: int) -> Result<
    (Seq<i32>, BitState),
    DecodeError,
>
    decreases 64 - ptr,
{
    if ptr >= 64 {
        Ok((buf, st))
    } else {
        match spec_parse_haff(st, ac) {
            Ok((s, st1)) => {
                let rrrr = s as int / 16;
                let ssss = s as int % 16;
                if ssss == 0 && rrrr == 0 {
                    Ok((buf, st1))
                } else if ssss == 0 && rrrr == 15 {
                    if ptr + 16 > 64 {
                        Err(DecodeError::BlockOverflow)
                    } else {
                        spec_ac_loop(st1, ac, buf, ptr + 16)
                    }
                } else {
                    if ptr + rrrr > 63 {
                        Err(DecodeError::BlockOverflow)
                    } else {
                        match spec_read_amplitude(st1, ssss) {
                            Ok((v, st2)) => spec_ac_loop(
                                st2,
                                ac,
                                buf.update(ptr + rrrr, v as i32),
                                ptr + rrrr + 1,
                            ),
                            Err(e) => Err(e),
                        }
                    }
                }
            },
            Err(e) => Err(e),
        }
    }
}

/// One whole 64-coefficient block decoded from the state: the DC
/// category and amplitude, then the AC loop over an otherwise zero
/// block. A DC category past sixteen bits is rejected.
pub open spec fn spec_parse_coeffs(st: BitState, dc: HaffTable, ac: HaffTable) -> Result<
    (Seq<i32>, BitState),
    DecodeError,
> {
    match spec_parse_haff(st, dc) {
        Ok((ssss, st1)) => {
            if ssss > 16 {
                Err(DecodeError::HuffmanDecodeError)
            } else {
                match spec_read_amplitude(st1, ssss as int) {
                    Ok((v0, st2)) => spec_ac_loop(
                        st2,
                        ac,
                        Seq::new(64, |i: int| 0i32).update(0, v0 as i32),
                        1,
                    ),
                    Err(e) => Err(e),
                }
            }
        },
        Err(e) => Err(e),
    }
}

/// The smallest magnitude of a signed amplitude of category `ssss`.
pub open spec fn amp_lo(ssss: int) -> int {
    pow2((ssss - 1) as nat) as int
}

/// `v` is a legal decoded amplitude of category `ssss` (for
/// `ssss >= 1`): its magnitude lies in `[2^(ssss-1), 2^ssss - 1]`.
pub open spec fn amp_in_category(ssss: int, v: int) -> bool {
    ||| amp_lo(ssss) <= v <= 2 * amp_lo(ssss) - 1
    ||| -(2 * amp_lo(ssss) - 1) <= v <= -amp_lo(ssss)
}

/// The amplitude encoded by the raw `ssss`-bit field `raw`: small raw
/// values sign-extend downwards, large ones are taken as they stand.
pub open spec fn amp_extend(ssss: int, raw: int) -> int {
    if raw < amp_lo(ssss) {
        raw - 2 * amp_lo(ssss) + 1
    } else {
        raw
    }
}

/// The raw `ssss`-bit field that encodes amplitude `v`: negative
/// amplitudes are shifted up into the low half of the field's range.
pub open spec fn amp_encode(ssss: int, v: int) -> int {
    if v < 0 {
        v + 2 * amp_lo(ssss) - 1
    } else {
        v
    }
}

/// Encoding a legal amplitude of category `ssss` and decoding the raw
/// field again gives the amplitude back, for every category a baseline
/// stream can carry.
pub proof fn lemma_amplitude_round_trip(ssss: int, v: int)
    requires
        1 <= ssss <= 11,
        amp_in_category(ssss, v),
    ensures
        0 <= amp_encode(ssss, v) < pow2(ssss as nat),
        amp_extend(ssss, amp_encode(ssss, v)) == v,
{
    lemma_pow2_pos((ssss - 1) as nat);
    lemma_pow2_unfold(ssss as nat);
}

/// 2^e for small exponents, as a byte.
fn pw2_u8(e: u8) -> (r: u8)
    requires
        e < 8,
    ensures
        r == pow2(e as nat),
{
    proof {
        lemma2_to64();
    }
    match e {
        0 => 1,
        1 => 2,
        2 => 4,
        3 => 8,
        4 => 16,
        5 => 32,
        6 => 64,
        _ => 128,
    }
}

/// 2^e for exponents up to 15, as an i32.
fn pw2_i32(e: u8) -> (r: i32)
    requires
        e < 16,
    ensures
        r == pow2(e as nat),
{
    proof {
        lemma2_to64();
    }
    match e {
        0 => 1,
        1 => 2,
        2 => 4,
        3 => 8,
        4 => 16,
        5 => 32,
        6 => 64,
        7 => 128,
        8 => 256,
        9 => 512,
        10 => 1024,
        11 => 2048,
        12 => 4096,
        13 => 8192,
        14 => 16384,
        _ => 32768,
    }
}

/// The bit-serial entropy reader: an 8-bit latch and a bit pointer,
/// 0 meaning the latch is empty.
pub struct HaffDecoder {
    /// How many bits of the latch are still unread.
    pub ptr: u8,
    /// The byte the bits are drawn from, MSB first.
    pub buf: u8,
}

impl HaffDecoder {
    /// The bit pointer never runs past one byte.
    pub open spec fn wf(&self) -> bool {
        self.ptr <= 8
    }

    /// A reader whose latch is empty, so the first bit starts a fresh
    /// byte.
    pub fn new() -> (d: HaffDecoder)
        ensures
            d.ptr == 0,
            d.buf == 0,
            d.wf(),
    {
        HaffDecoder { ptr: 0, buf: 0 }
    }

    /// Discard any partially consumed latch, forcing the next read to
    /// start on a byte boundary; invoked at restart boundaries.
    pub fn reset(&mut self)
        ensures
            final(self).ptr == 0,
            final(self).buf == 0,
            final(self).wf(),
    {
        self.ptr = 0;
        self.buf = 0;
    }

    /// Pull one bit, MSB first. An empty latch refills from the
    /// stream: a stuffed `FF 00` pair delivers the literal byte `FF`,
    /// while `FF` followed by anything else is a marker and fails
    /// without consuming it into the bit stream.
    pub fn read_bit(&mut self, s: &mut ByteStream) -> (r: Result<u8, DecodeError>)
        requires
            old(self).wf(),
        ensures
            final(self).wf(),
            final(s).data@ == old(s).data@,
            final(s).pos >= old(s).pos,
            old(s).pos <= old(s).data@.len() ==> final(s).pos <= old(s).data@.len(),
            ({
                let d = old(s).data@;
                let sp = old(s).pos as int;
                if old(self).ptr > 0 {
                    &&& r == Ok::<u8, DecodeError>(latch_bit(old(self).buf, old(self).ptr as int) as u8)
                    &&& final(self).buf == old(self).buf
                    &&& final(self).ptr == old(self).ptr - 1
                    &&& *final(s) == *old(s)
                } else if sp >= d.len() {
                    r == Err::<u8, DecodeError>(DecodeError::TruncatedStream)
                } else if d[sp] != 0xff {
                    &&& r == Ok::<u8, DecodeError>(latch_bit(d[sp], 8) as u8)
                    &&& final(self).buf == d[sp]
                    &&& final(self).ptr == 7
                    &&& final(s).pos == sp + 1
                } else if sp + 1 >= d.len() {
                    r == Err::<u8, DecodeError>(DecodeError::TruncatedStream)
                } else if d[sp + 1] == 0x00 {
                    &&& r == Ok::<u8, DecodeError>(1)
                    &&& final(self).buf == 0xff
                    &&& final(self).ptr == 7
                    &&& final(s).pos == sp + 2
                } else {
                    r == Err::<u8, DecodeError>(DecodeError::UnexpectedMarkerInScan(d[sp + 1]))
                }
            }),
            r matches Ok(b) ==> b <= 1,
            ({
                let st0 = abs_state(*old(self), *old(s));
                match spec_read_bit(st0) {
                    Ok(p) => r == Ok::<u8, DecodeError>(p.0) && abs_state(*final(self), *final(s))
                        == p.1,
                    Err(e) => r == Err::<u8, DecodeError>(e),
                }
            }),
    {
        if self.ptr == 0 {
            let b = s.read_u8()?;
            self.buf = b;
            if b == 0xff {
                let b2 = s.read_u8()?;
                if b2 != 0x00 {
                    return Err(DecodeError::UnexpectedMarkerInScan(b2));
                }
            }
            self.ptr = 8;
        }
        self.ptr = self.ptr - 1;
        let p = pw2_u8(self.ptr);
        proof {
            lemma_pow2_pos(self.ptr as nat);
            lemma2_to64();
        }
        let bit = (self.buf / p) % 2;
        Ok(bit)
    }

    /// Read an `ssss`-bit raw field MSB first and sign-extend it into
    /// a signed amplitude; a zero-width field is the amplitude 0 and
    /// reads nothing.
    pub fn read_ssss_bits(&mut self, ssss: u8, rd: &mut ByteStream) -> (r: Result<
        i32,
        DecodeError,
    >)
        requires
            old(self).wf(),
            ssss <= 16,
        ensures
            final(self).wf(),
            final(rd).data@ == old(rd).data@,
            final(rd).pos >= old(rd).pos,
            old(rd).pos <= old(rd).data@.len() ==> final(rd).pos <= old(rd).data@.len(),
            ssss == 0 ==> (r == Ok::<i32, DecodeError>(0) && *final(self) == *old(self)
                && *final(rd) == *old(rd)),
            ssss >= 1 ==> (r matches Ok(v) ==> {
                &&& amp_in_category(ssss as int, v as int)
                &&& exists|raw: int|
                    0 <= raw < pow2(ssss as nat) && v == amp_extend(ssss as int, raw)
            }),
            ({
                let st0 = abs_state(*old(self), *old(rd));
                match spec_read_amplitude(st0, ssss as int) {
                    Ok(p) => (match r {
                        Ok(v) => v == p.0 && abs_state(*final(self), *final(rd)) == p.1,
                        Err(_) => false,
                    }),
                    Err(e) => r == Err::<i32, DecodeError>(e),
                }
            }),
    {
        if ssss == 0 {
            return Ok(0);
        }
        let ghost st0 = abs_state(*old(self), *old(rd));
        let mut acc: i32 = 0;
        let mut k: u8 = 0;
        proof {
            lemma2_to64();
        }
        while k < ssss
            invariant
                self.wf(),
                k <= ssss <= 16,
                0 <= acc < pow2(k as nat),
                rd.data@ == old(rd).data@,
                rd.pos >= old(rd).pos,
                old(rd).pos <= old(rd).data@.len() ==> rd.pos <= old(rd).data@.len(),
                st0 == abs_state(*old(self), *old(rd)),
                spec_read_raw(st0, ssss as int, 0) == spec_read_raw(
                    abs_state(*self, *rd),
                    ssss - k,
                    acc as int,
                ),
            decreases ssss - k,
        {
            proof {
                lemma2_to64();
                lemma_pow2_unfold((k + 1) as nat);
                if k + 1 < 16 {
                    lemma_pow2_strictly_increases((k + 1) as nat, 16);
                }
            }
            let b = self.read_bit(rd)?;
            acc = acc * 2 + b as i32;
            k = k + 1;
        }
        let half = pw2_i32(ssss - 1);
        proof {
            lemma_pow2_pos((ssss - 1) as nat);
            lemma_pow2_unfold(ssss as nat);
            lemma2_to64();
            if ssss - 1 < 15 {
                lemma_pow2_strictly_increases((ssss - 1) as nat, 15);
            }
            assert(spec_read_raw(st0, ssss as int, 0) == Ok::<(int, BitState), DecodeError>(
                (acc as int, abs_state(*self, *rd)),
            ));
        }
        if acc < half {
            let v = acc - (half * 2) + 1;
            proof {
                assert(v == amp_extend(ssss as int, acc as int));
            }
            Ok(v)
        } else {
            proof {
                assert(acc == amp_extend(ssss as int, acc as int));
            }
            Ok(acc)
        }
    }

    /// Accumulate bits MSB first until they form an assigned code of
    /// the table, and yield that code's symbol; sixteen bits without a
    /// match fail the decode.
    pub fn parse_haff(&mut self, rd: &mut ByteStream, haff: &HaffTable) -> (r: Result<
        u8,
        DecodeError,
    >)
        requires
            old(self).wf(),
            haff.wf(),
        ensures
            final(self).wf(),
            final(rd).data@ == old(rd).data@,
            final(rd).pos >= old(rd).pos,
            old(rd).pos <= old(rd).data@.len() ==> final(rd).pos <= old(rd).data@.len(),
            r matches Ok(v) ==> exists|l: int, c: int|
                ht_assigned(*haff, l, c) && v == ht_symbol(*haff, l, c),
            ({
                let st0 = abs_state(*old(self), *old(rd));
                match spec_parse_haff(st0, *haff) {
                    Ok(p) => (match r {
                        Ok(v) => v == p.0 && abs_state(*final(self), *final(rd)) == p.1,
                        Err(_) => false,
                    }),
                    Err(e) => r == Err::<u8, DecodeError>(e),
                }
            }),
    {
        let ghost st0 = abs_state(*old(self), *old(rd));
        let mut cur: i32 = 0;
        let mut i: usize = 0;
        proof {
            lemma2_to64();
        }
        while i < 16
            invariant
                self.wf(),
                i <= 16,
                0 <= cur < pow2(i as nat),
                haff.wf(),
                rd.data@ == old(rd).data@,
                rd.pos >= old(rd).pos,
                old(rd).pos <= old(rd).data@.len() ==> rd.pos <= old(rd).data@.len(),
                st0 == abs_state(*old(self), *old(rd)),
                spec_parse_haff(st0, *haff) == spec_haff_steps(
                    abs_state(*self, *rd),
                    *haff,
                    cur as int,
                    i as int,
                ),
            decreases 16 - i,
        {
            proof {
                lemma2_to64();
                lemma_pow2_unfold((i + 1) as nat);
                if i + 1 < 16 {
                    lemma_pow2_strictly_increases((i + 1) as nat, 16);
                }
            }
            let b = self.read_bit(rd)?;
            cur = cur * 2 + b as i32;
            if haff.indices[i] != -1 {
                if haff.mincodes[i] <= cur && cur <= haff.maxcodes[i] {
                    proof {
                        lemma_cum_bits_mono(haff.bits@, 0, i as int);
                        lemma_cum_bits_mono(haff.bits@, i + 1, 16);
                    }
                    let idx = haff.indices[i] + cur - haff.mincodes[i];
                    proof {
                        assert(idx < cum_bits(haff.bits@, i + 1));
                    }
                    let v = haff.values[idx as usize];
                    proof {
                        assert(ht_assigned(*haff, i as int, cur as int));
                        assert(v == ht_symbol(*haff, i as int, cur as int));
                    }
                    return Ok(v);
                }
            }
            i = i + 1;
        }
        Err(DecodeError::HuffmanDecodeError)
    }

    /// Decode one 64-coefficient block in zigzag order: a DC category
    /// and amplitude, then AC run/size pairs with EOB ending the block
    /// and ZRL skipping sixteen zero coefficients; runs past the end
    /// of the block overflow it.
    pub fn parse_coeffs(&mut self, rd: &mut ByteStream, dc_haff: &HaffTable, ac_haff: &HaffTable)
        -> (r: Result<[i32; 64], DecodeError>)
        requires
            old(self).wf(),
            dc_haff.wf(),
            ac_haff.wf(),
        ensures
            final(self).wf(),
            final(rd).data@ == old(rd).data@,
            final(rd).pos >= old(rd).pos,
            old(rd).pos <= old(rd).data@.len() ==> final(rd).pos <= old(rd).data@.len(),
            r matches Ok(buf) ==> forall|i: int| 0 <= i < 64 ==> -65535 <= #[trigger] buf@[i] <= 65535,
            ({
                let st0 = abs_state(*old(self), *old(rd));
                match spec_parse_coeffs(st0, *dc_haff, *ac_haff) {
                    Ok(p) => (match r {
                        Ok(buf) => buf@ == p.0 && abs_state(*final(self), *final(rd)) == p.1,
                        Err(_) => false,
                    }),
                    Err(e) => r == Err::<[i32; 64], DecodeError>(e),
                }
            }),
    {
        let ghost st0 = abs_state(*old(self), *old(rd));
        let mut buf: [i32; 64] = [0; 64];
        let ssss = self.parse_haff(rd, dc_haff)?;
        if ssss > 16 {
            return Err(DecodeError::HuffmanDecodeError);
        }
        let v0 = self.read_ssss_bits(ssss, rd)?;
        proof {
            if ssss >= 1 {
                lemma_amp_category_bound(ssss as int, v0 as int);
            }
        }
        buf[0] = v0;
        proof {
            assert(buf@ =~= Seq::new(64, |i: int| 0i32).update(0, v0));
        }
        let mut ptr: usize = 1;
        while ptr < 64
            invariant
                self.wf(),
                1 <= ptr <= 64,
                dc_haff.wf(),
                ac_haff.wf(),
                rd.data@ == old(rd).data@,
                rd.pos >= old(rd).pos,
                old(rd).pos <= old(rd).data@.len() ==> rd.pos <= old(rd).data@.len(),
                forall|i: int| 0 <= i < 64 ==> -65535 <= #[trigger] buf@[i] <= 65535,
                forall|i: int| ptr <= i < 64 ==> #[trigger] buf@[i] == 0,
                st0 == abs_state(*old(self), *old(rd)),
                spec_parse_coeffs(st0, *dc_haff, *ac_haff) == spec_ac_loop(
                    abs_state(*self, *rd),
                    *ac_haff,
                    buf@,
                    ptr as int,
                ),
            decreases 64 - ptr,
        {
            let s = self.parse_haff(rd, ac_haff)?;
            let rrrr = (s / 16) as usize;
            let ssss = s % 16;
            if ssss == 0 && rrrr == 0 {
                let ghost buf0 = buf@;
                let ghost p0 = ptr as int;
                while ptr < 64
                    invariant
                        p0 <= ptr <= 64,
                        buf@ == buf0,
                        forall|i: int| p0 <= i < 64 ==> #[trigger] buf0[i] == 0,
                        forall|i: int| 0 <= i < 64 ==> -65535 <= #[trigger] buf@[i] <= 65535,
                    decreases 64 - ptr,
                {
                    buf[ptr] = 0;
                    proof {
                        assert(buf@ =~= buf0);
                    }
                    ptr = ptr + 1;
                }
            } else if ssss == 0 && rrrr == 0xf {
                if ptr + 16 > 64 {
                    return Err(DecodeError::BlockOverflow);
                }
                let ghost buf0 = buf@;
                let ghost p0 = ptr as int;
                let mut j: usize = 0;
                while j < 16
                    invariant
                        j <= 16,
                        ptr == p0,
                        ptr + 16 <= 64,
                        buf@ == buf0,
                        forall|i: int| p0 <= i < 64 ==> #[trigger] buf0[i] == 0,
                        forall|i: int| 0 <= i < 64 ==> -65535 <= #[trigger] buf@[i] <= 65535,
                    decreases 16 - j,
                {
                    buf[ptr + j] = 0;
                    proof {
                        assert(buf@ =~= buf0);
                    }
                    j = j + 1;
                }
                ptr = ptr + 16;
            } else {
                if ptr + rrrr > 63 {
                    return Err(DecodeError::BlockOverflow);
                }
                let ghost buf0 = buf@;
                let ghost p0 = ptr as int;
                let mut j: usize = 0;
                while j < rrrr
                    invariant
                        j <= rrrr,
                        ptr == p0,
                        ptr + rrrr <= 63,
                        buf@ == buf0,
                        forall|i: int| p0 <= i < 64 ==> #[trigger] buf0[i] == 0,
                        forall|i: int| 0 <= i < 64 ==> -65535 <= #[trigger] buf@[i] <= 65535,
                    decreases rrrr - j,
                {
                    buf[ptr + j] = 0;
                    proof {
                        assert(buf@ =~= buf0);
                    }
                    j = j + 1;
                }
                let v = self.read_ssss_bits(ssss, rd)?;
                proof {
                    if ssss >= 1 {
                        lemma_amp_category_bound(ssss as int, v as int);
                    }
                }
                buf[ptr + rrrr] = v;
                ptr = ptr + rrrr + 1;
            }
        }
        Ok(buf)
    }
}

/// A legal amplitude of any category up to 16 fits in sixteen bits.
proof fn lemma_amp_category_bound(ssss: int, v: int)
    requires
        1 <= ssss <= 16,
        amp_in_category(ssss, v),
    ensures
        -65535 <= v <= 65535,
{
    lemma2_to64();
    if ssss - 1 < 15 {
        lemma_pow2_strictly_increases((ssss - 1) as nat, 15);
    }
}

} // verus!
