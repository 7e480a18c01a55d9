//! Fuji compressed RAF decompressor (X-Trans sensors).
//!
//! The compressed stream starts with a 16-byte big-endian header, a table of
//! strip sizes, then one entropy-coded strip per block of columns. Each strip
//! is decoded six image rows at a time into a small line buffer holding
//! five red, eight green and five blue lines, from which the X-Trans mosaic
//! is copied into the output image.

use vstd::prelude::*;
use vstd::arithmetic::power2::pow2;
use crate::text::{push_dec, push_hex4, spec_dec, spec_hex4};
use crate::basics::{BitPumpMSB, stream_bit, stream_value, advanced, be_u16, be_u32, spec_be_u16, spec_be_u32};

verus! {

// Line buffer row indices (18 total = 5R + 8G + 5B)
pub const R0: usize = 0;
pub const R2: usize = 2;
pub const R4: usize = 4;
pub const G0: usize = 5;
pub const G2: usize = 7;
pub const G7: usize = 12;
pub const B0: usize = 13;
pub const B2: usize = 15;
pub const B4: usize = 17;
pub const LTOTAL: usize = 18;

/// Number of gradient contexts per group.
pub const NGRADS: usize = 41;

// ---------------------------------------------------------------------------
// Fuji header
// ---------------------------------------------------------------------------
/// The fields of the 16-byte header of a compressed stream.
pub struct FujiHeader {
    pub raw_bits: usize,
    pub raw_height: usize,
    pub raw_width: usize,
    pub block_size: usize,
    pub blocks_in_row: usize,
    pub total_lines: usize,
}

// ---------------------------------------------------------------------------
// Fuji params
// ---------------------------------------------------------------------------
/// Decoding parameters for one sample depth: the gradient quantiser (its
/// thresholds and a table of its value for every input), the largest code
/// length, the range of sample values and the width of a line buffer.
pub struct FujiParams {
    pub q_table: Vec<i8>,
    pub q_point: [i32; 5],
    pub max_bits: i32,
    pub min_value: i32,
    pub raw_bits: i32,
    pub total_values: i32,
    pub max_diff: i32,
    pub line_width: usize,
}

/// What the decoding rules use of the parameters.
pub struct ParamsModel {
    pub q_point: Seq<i32>,
    pub max_bits: int,
    pub min_value: int,
    pub raw_bits: int,
    pub total_values: int,
    pub max_diff: int,
    pub line_width: int,
}

impl View for FujiParams {
    type V = ParamsModel;

    open spec fn view(&self) -> ParamsModel {
        ParamsModel {
            q_point: self.q_point@,
            max_bits: self.max_bits as int,
            min_value: self.min_value as int,
            raw_bits: self.raw_bits as int,
            total_values: self.total_values as int,
            max_diff: self.max_diff as int,
            line_width: self.line_width as int,
        }
    }
}

/// The parameters of samples of `raw_bits` bits (14 or 16) in strips of
/// `block_size` columns.
pub open spec fn spec_model(raw_bits: int, block_size: int) -> ParamsModel {
    if raw_bits == 14 {
        ParamsModel {
            q_point: spec_q_point(0x3FFF),
            max_bits: 56,
            min_value: 0x40,
            raw_bits: 14,
            total_values: 0x4000,
            max_diff: 256,
            line_width: (block_size * 2) / 3,
        }
    } else {
        ParamsModel {
            q_point: spec_q_point(0xFFFF),
            max_bits: 64,
            min_value: 0x40,
            raw_bits: 16,
            total_values: 0x10000,
            max_diff: 1024,
            line_width: (block_size * 2) / 3,
        }
    }
}

/// The quantised gradient of `cur` relative to the centre `q[4]`: its sign is
/// that of `cur - q[4]`, its magnitude the number of thresholds `0 <`,
/// `q[1] <=`, `q[2] <=`, `q[3] <=` met by `|cur - q[4]|` (the highest one met).
pub open spec fn spec_gradient(q: Seq<i32>, cur: int) -> int {
    let v = cur - q[4];
    let av = if v < 0 { -v } else { v };
    let g = if av >= q[3] {
        4int
    } else if av >= q[2] {
        3int
    } else if av >= q[1] {
        2int
    } else if av > 0 {
        1int
    } else {
        0int
    };
    if v < 0 {
        -g
    } else {
        g
    }
}

/// The thresholds of the gradient quantiser for samples of `raw_bits` bits.
pub open spec fn spec_q_point(max_value: int) -> Seq<i32> {
    seq![0i32, 0x12i32, 0x43i32, 0x114i32, max_value as i32]
}

/// Parameters for `raw_bits`-bit samples: 14 and 16 bits are supported.
pub open spec fn params_wf(p: FujiParams) -> bool {
    &&& (p.raw_bits == 14 && p.q_point@[4] == 0x3FFF && p.total_values == 0x4000 && p.max_bits
        == 56 && p.max_diff == 256) || (p.raw_bits == 16 && p.q_point@[4] == 0xFFFF
        && p.total_values == 0x10000 && p.max_bits == 64 && p.max_diff == 1024)
    &&& p.q_point@ == spec_q_point(p.q_point@[4] as int)
    &&& p.min_value == 0x40
    &&& p.q_table@.len() == 2 * p.total_values
    &&& forall|i: int|
        0 <= i < p.q_table@.len() ==> #[trigger] p.q_table@[i] as int == spec_gradient(
            p.q_point@,
            i,
        )
}

/// The largest sample value, `2^raw_bits - 1`.
pub open spec fn max_value(p: ParamsModel) -> int {
    p.q_point[4] as int
}

/// The gradient class of the difference `v` between two neighbours.
pub open spec fn diff_gradient(p: ParamsModel, v: int) -> int {
    spec_gradient(p.q_point, max_value(p) + v)
}

/// The context of a pixel: nine classes of the first difference times nine
/// of the second.
#[verifier::opaque]
pub open spec fn spec_quant_gradient(p: ParamsModel, v1: int, v2: int) -> int {
    9 * diff_gradient(p, v1) + diff_gradient(p, v2)
}

/// The gradient class of `cur_val`.
fn get_gradient(q_point: &[i32; 5], cur_val: i32) -> (r: i8)
    requires
        0 <= q_point@[4] <= 0x10000,
        0 <= cur_val <= 0x20000,
        q_point@[1] >= 0,
    ensures
        r as int == spec_gradient(q_point@, cur_val as int),
{
    let v = cur_val - q_point[4];
    let av = if v < 0 { -v } else { v };
    let mut grad: i32 = 0;
    if av > 0 {
        grad = 1;
    }
    if av >= q_point[1] {
        grad = 2;
    }
    if av >= q_point[2] {
        grad = 3;
    }
    if av >= q_point[3] {
        grad = 4;
    }
    if v < 0 {
        grad = -grad;
    }
    grad as i8
}

impl FujiParams {
    /// Parameters for the sample depth of `header`: `Ok` exactly for 14 and
    /// 16 bits, with the gradient table of every value up to twice the range.
    pub fn new(header: &FujiHeader) -> (r: Result<FujiParams, String>)
        ensures
            r is Ok <==> (header.raw_bits == 14 || header.raw_bits == 16),
            r matches Ok(p) ==> params_wf(p) && p@ == spec_model(
                header.raw_bits as int,
                header.block_size as int,
            ),
            r matches Err(m) ==> m@ == "Unsupported raw_bits for compression: "@ + spec_dec(
                header.raw_bits as nat,
            ),
    {
        if header.raw_bits != 14 && header.raw_bits != 16 {
            let mut m = String::from_str("Unsupported raw_bits for compression: ");
            push_dec(&mut m, header.raw_bits as u128);
            return Err(m);
        }
        let b = header.block_size;
        proof {
            assert((b / 3) * 2 + ((b % 3) * 2) / 3 == (b * 2) / 3) by (nonlinear_arith);
            assert((b * 2) / 3 <= b) by (nonlinear_arith);
        }
        // two thirds of the block size, computed without overflow
        let line_width = (b / 3) * 2 + ((b % 3) * 2) / 3;
        let max_value: i32 = if header.raw_bits == 14 { 0x3FFF } else { 0xFFFF };
        let q_point: [i32; 5] = [0, 0x12, 0x43, 0x114, max_value];
        let min_value = 0x40i32;
        assert(q_point@ == spec_q_point(max_value as int));

        let n: usize = 2 * (max_value as usize + 1);
        let mut q_table: Vec<i8> = Vec::new();
        let mut i: usize = 0;
        while i < n
            invariant
                n == 2 * (max_value + 1),
                max_value == 0x3FFF || max_value == 0xFFFF,
                q_point@ == spec_q_point(max_value as int),
                i <= n,
                q_table@.len() == i,
                forall|j: int|
                    0 <= j < i ==> #[trigger] q_table@[j] as int == spec_gradient(q_point@, j),
            decreases n - i,
        {
            let g = get_gradient(&q_point, i as i32);
            q_table.push(g);
            i = i + 1;
        }

        let (total_values, raw_bits, max_bits, max_diff): (i32, i32, i32, i32) = if max_value
            == 0x3FFF {
            (0x4000, 14, 56, 256)
        } else {
            (0x10000, 16, 64, 1024)
        };

        Ok(
            FujiParams {
                q_table,
                q_point,
                max_bits,
                min_value,
                raw_bits,
                total_values,
                max_diff,
                line_width,
            },
        )
    }

    /// The context of a pixel from two neighbour differences.
    fn quant_gradient(&self, v1: i32, v2: i32) -> (r: i32)
        requires
            params_wf(*self),
            -max_value(self@) <= v1 <= max_value(self@),
            -max_value(self@) <= v2 <= max_value(self@),
        ensures
            r as int == spec_quant_gradient(self@, v1 as int, v2 as int),
            -40 <= r <= 40,
    {
        proof {
            reveal(spec_quant_gradient);
        }
        let idx1 = (self.q_point[4] + v1) as usize;
        let idx2 = (self.q_point[4] + v2) as usize;
        proof {
            lemma_gradient_bound(self.q_point@, self.q_point@[4] + v1);
            lemma_gradient_bound(self.q_point@, self.q_point@[4] + v2);
        }
        9 * (self.q_table[idx1] as i32) + (self.q_table[idx2] as i32)
    }
}

/// Gradient classes lie in `-4..=4`.
pub proof fn lemma_gradient_bound(q: Seq<i32>, cur: int)
    requires
        q.len() == 5,
        q[1] > 0,
    ensures
        -4 <= spec_gradient(q, cur) <= 4,
{
}

// ---------------------------------------------------------------------------
// Gradient pair (adaptive statistics)
// ---------------------------------------------------------------------------
/// The adaptive statistics of one gradient context: the sum of recent
/// magnitudes and how many were summed.
#[derive(Clone, Copy)]
pub struct GradPair {
    pub value1: i32,
    pub value2: i32,
}

/// Bound on the magnitude of one decoded difference.
pub open spec fn code_bound() -> int {
    0x100000
}

/// The statistics stay in the range that the update rule keeps them in:
/// the count runs from 1 to 64 and the sum grows by at most one
/// difference per count.
pub open spec fn grad_pair_ok(g: GradPair) -> bool {
    &&& 1 <= g.value2 <= 0x40
    &&& 0 <= g.value1 <= 1024 + g.value2 * code_bound()
}

/// All statistics in `grads` are in range.
pub open spec fn grads_ok(grads: Seq<GradPair>) -> bool {
    forall|i: int| 0 <= i < grads.len() ==> grad_pair_ok(#[trigger] grads[i])
}

// ---------------------------------------------------------------------------
// Bitstream
// ---------------------------------------------------------------------------

/// Position of the first one bit at or after `pos` in the data of `s`.
pub open spec fn first_one(s: Seq<u8>, pos: int) -> Option<int>
    decreases 8 * s.len() - pos,
{
    if pos < 0 || pos >= 8 * s.len() {
        None
    } else if stream_bit(s, pos) == 1 {
        Some(pos)
    } else {
        first_one(s, pos + 1)
    }
}

/// Length of the run of zero bits at `pos`, where the run ends with a one
/// bit inside the data and its length fits an `i32`.
pub open spec fn spec_zerobits(s: Seq<u8>, pos: int) -> Option<int> {
    match first_one(s, pos) {
        Some(p) => if p - pos <= 0x7fff_ffff {
            Some(p - pos)
        } else {
            None
        },
        None => None,
    }
}

/// Reads a run of zero bits and the one bit ending it; returns the run's
/// length, or `None` where the data ends before a one bit.
fn fuji_zerobits(pump: &mut BitPumpMSB) -> (r: Option<i32>)
    requires
        old(pump).wf(),
        0 <= old(pump).pos(),
    ensures
        final(pump).wf(),
        final(pump).data() == old(pump).data(),
        r matches Some(k) ==> k >= 0 && spec_zerobits(old(pump).data(), old(pump).pos()) == Some(
            k as int,
        ) && final(pump).pos() == old(pump).pos() + k + 1,
        r is None ==> spec_zerobits(old(pump).data(), old(pump).pos()) is None,
{
    let ghost s = pump.data();
    let ghost p0 = pump.pos();
    let mut count: u32 = 0;
    proof {
        pump.lemma_pos_bound();
    }
    loop
        invariant
            pump.wf(),
            pump.data() == s,
            0 <= p0,
            s == old(pump).data(),
            p0 == old(pump).pos(),
            pump.pos() == p0 + count,
            count <= 0x7fff_ffff,
            first_one(s, p0) == first_one(s, pump.pos()),
            0 <= pump.pos() <= 8 * s.len(),
        decreases 8 * s.len() - pump.pos(),
    {
        proof {
            pump.lemma_pos_bound();
        }
        if pump.exhausted() {
            return None;
        }
        let ghost pk = pump.pos();
        let b = pump.next_bit();
        if b == 1 {
            return Some(count as i32);
        }
        if count == 0x7fff_ffff {
            proof {
                lemma_first_one_after(s, pk + 1);
            }
            return None;
        }
        count = count + 1;
    }
}

/// A one bit found from `pos` on lies at or after `pos`.
pub proof fn lemma_first_one_after(s: Seq<u8>, pos: int)
    ensures
        first_one(s, pos) matches Some(p) ==> pos <= p < 8 * s.len() && stream_bit(s, p) == 1,
    decreases 8 * s.len() - pos,
{
    if !(pos < 0 || pos >= 8 * s.len()) && stream_bit(s, pos) != 1 {
        lemma_first_one_after(s, pos + 1);
    }
}

/// Number of doublings of `cur`, from `d` on, until it reaches `v1`; at most 15.
pub open spec fn doublings(v1: int, cur: int, d: int) -> int
    decreases 15 - d,
{
    if d >= 15 || cur >= v1 {
        d
    } else {
        doublings(v1, 2 * cur, d + 1)
    }
}

/// The number of bits of a code: how many times `value2` must be doubled to
/// reach `value1`, capped at 15.
pub open spec fn spec_bit_diff(value1: int, value2: int) -> int {
    if value1 <= 0 {
        0
    } else if value2 <= 0 {
        15
    } else {
        doublings(value1, value2, 0)
    }
}

/// The code length for a context: how often `value2` must be doubled to
/// reach `value1` (0 without statistics, 15 without a count).
fn bit_diff(value1: i32, value2: i32) -> (r: i32)
    ensures
        r as int == spec_bit_diff(value1 as int, value2 as int),
        0 <= r <= 15,
{
    if value1 <= 0 {
        return 0;
    }
    if value2 <= 0 {
        return 15;
    }
    let mut cur: i64 = value2 as i64;
    let mut d: i32 = 0;
    while d < 15 && cur < value1 as i64
        invariant
            0 <= d <= 15,
            0 < cur,
            d > 0 ==> cur < 2 * value1,
            doublings(value1 as int, cur as int, d as int) == doublings(
                value1 as int,
                value2 as int,
                0,
            ),
        decreases 15 - d,
    {
        cur = 2 * cur;
        d = d + 1;
    }
    proof {
        lemma_doublings_range(value1 as int, cur as int, d as int);
    }
    d
}

/// The count of doublings never falls below the start nor passes 15.
pub proof fn lemma_doublings_range(v1: int, cur: int, d: int)
    requires
        d <= 15,
    ensures
        d <= doublings(v1, cur, d) <= 15,
    decreases 15 - d,
{
    if !(d >= 15 || cur >= v1) {
        lemma_doublings_range(v1, 2 * cur, d + 1);
    }
}

/// Folds a code read from the stream into a signed difference: even codes
/// are the non-negative values, odd codes the negative ones.
pub open spec fn zigzag(code: int) -> int {
    if code % 2 == 1 {
        -1 - code / 2
    } else {
        code / 2
    }
}

/// The next difference code of the stream at `pos`, read with the
/// statistics `g` of its context, and the position after it; `None` where
/// the stream ends before the code.
pub open spec fn spec_read_code(p: ParamsModel, g: GradPair, s: Seq<u8>, pos: int) -> Option<
    (int, int),
> {
    match spec_zerobits(s, pos) {
        None => None,
        Some(sample_bits) => {
            let pos1 = pos + sample_bits + 1;
            let code_bits = if sample_bits < p.max_bits - p.raw_bits - 1 {
                spec_bit_diff(g.value1 as int, g.value2 as int)
            } else {
                p.raw_bits as int
            };
            let code_delta = if sample_bits < p.max_bits - p.raw_bits - 1 {
                sample_bits * pow2(code_bits as nat)
            } else {
                1
            };
            let raw_code = stream_value(s, pos1, code_bits as nat);
            Some((zigzag(raw_code + code_delta), advanced(s, pos1, code_bits)))
        },
    }
}

/// The statistics of a context after a difference `code` was decoded in it.
pub open spec fn spec_update_grad(p: ParamsModel, g: GradPair, code: int) -> GradPair {
    let abs_code = if code < 0 {
        -code
    } else {
        code
    };
    let sum = g.value1 + abs_code;
    if g.value2 == p.min_value {
        GradPair { value1: (sum / 2) as i32, value2: (g.value2 / 2 + 1) as i32 }
    } else {
        GradPair { value1: sum as i32, value2: (g.value2 + 1) as i32 }
    }
}

/// The sample given by the prediction `interp_val` corrected by `code`,
/// wrapped once into range and then clamped.
pub open spec fn spec_apply_code(p: ParamsModel, grad: int, interp_val: int, code: int) -> int {
    let result = if grad < 0 {
        interp_val - code
    } else {
        interp_val + code
    };
    let wrapped = if result < 0 {
        result + p.total_values
    } else if result > max_value(p) {
        result - p.total_values
    } else {
        result
    };
    if wrapped < 0 {
        0
    } else if wrapped > max_value(p) {
        max_value(p)
    } else {
        wrapped
    }
}

/// The outcome of decoding one sample: the sample, the updated statistics of
/// its context and the new stream position; `None` where the stream ends
/// before the sample's code.
#[verifier::opaque]
pub open spec fn spec_decode_sample(
    p: ParamsModel,
    grad: int,
    interp_val: int,
    g: GradPair,
    s: Seq<u8>,
    pos: int,
) -> Option<(int, GradPair, int)> {
    match spec_read_code(p, g, s, pos) {
        None => None,
        Some((code, pos2)) => Some(
            (spec_apply_code(p, grad, interp_val, code), spec_update_grad(p, g, code), pos2),
        ),
    }
}

/// Reads the difference code of one sample.
fn read_code(pump: &mut BitPumpMSB, params: &FujiParams, g: GradPair) -> (r: Option<i32>)
    requires
        old(pump).wf(),
        0 <= old(pump).pos(),
        params_wf(*params),
        grad_pair_ok(g),
    ensures
        final(pump).wf(),
        final(pump).data() == old(pump).data(),
        match spec_read_code(params@, g, old(pump).data(), old(pump).pos()) {
            Some((code, pos2)) => r == Some(code as i32) && final(pump).pos() == pos2 && -code_bound()
                <= code <= code_bound(),
            None => r is None,
        },
{
    let ghost s = pump.data();
    let sample_bits = match fuji_zerobits(pump) {
        Some(k) => k,
        None => return None,
    };
    proof {
        pump.lemma_pos_bound();
    }
    let (code_bits, code_delta): (i32, i32);
    if sample_bits < params.max_bits - params.raw_bits - 1 {
        code_bits = bit_diff(g.value1, g.value2);
        proof {
            vstd::arithmetic::power2::lemma2_to64();
            vstd::arithmetic::mul::lemma_mul_inequality(
                sample_bits as int,
                47,
                pow2(code_bits as nat) as int,
            );
            if code_bits < 15 {
                vstd::arithmetic::power2::lemma_pow2_strictly_increases(code_bits as nat, 15);
            }
            vstd::arithmetic::mul::lemma_mul_inequality(
                pow2(code_bits as nat) as int,
                0x8000,
                47,
            );
            vstd::arithmetic::mul::lemma_mul_is_commutative(47, pow2(code_bits as nat) as int);
            vstd::bits::lemma_u32_shl_is_mul(sample_bits as u32, code_bits as u32);
        }
        code_delta = ((sample_bits as u32) << (code_bits as u32)) as i32;
    } else {
        code_bits = params.raw_bits;
        code_delta = 1;
    }
    let ghost pos1 = pump.pos();
    let raw_code = if code_bits > 0 {
        pump.get_bits(code_bits as u32)
    } else {
        0
    };
    proof {
        crate::basics::lemma_stream_value_bound(s, pos1, code_bits as nat);
        vstd::arithmetic::power2::lemma2_to64();
        if code_bits < 16 {
            vstd::arithmetic::power2::lemma_pow2_strictly_increases(code_bits as nat, 16);
        }
    }
    let code0: i32 = raw_code as i32 + code_delta;
    // Zigzag decode
    let code: i32 = if code0 & 1 != 0 {
        -1 - code0 / 2
    } else {
        code0 / 2
    };
    proof {
        assert(code0 >= 0 ==> ((code0 & 1 != 0) == (code0 % 2 == 1))) by (bit_vector);
    }
    Some(code)
}

/// Decodes one sample predicted as `interp_val` in context `grad`, using
/// and updating the statistics `grads[base + |grad|]`.
fn fuji_decode_sample(
    pump: &mut BitPumpMSB,
    params: &FujiParams,
    grad: i32,
    interp_val: i32,
    grads: &mut Vec<GradPair>,
    base: usize,
) -> (r: Option<u16>)
    requires
        old(pump).wf(),
        0 <= old(pump).pos(),
        params_wf(*params),
        -40 <= grad <= 40,
        0 <= interp_val <= max_value(params@),
        base + NGRADS <= old(grads).len(),
        grads_ok(old(grads)@),
    ensures
        final(pump).wf(),
        final(pump).data() == old(pump).data(),
        final(grads)@.len() == old(grads)@.len(),
        grads_ok(final(grads)@),
        ({
            let idx = base + if grad < 0 { -grad } else { grad as int };
            match spec_decode_sample(
                params@,
                grad as int,
                interp_val as int,
                old(grads)@[idx],
                old(pump).data(),
                old(pump).pos(),
            ) {
                Some((sample, g2, pos2)) => {
                    &&& r == Some(sample as u16)
                    &&& 0 <= sample <= max_value(params@)
                    &&& final(grads)@ == old(grads)@.update(idx, g2)
                    &&& final(pump).pos() == pos2
                },
                None => r is None,
            }
        }),
{
    proof {
        reveal(spec_decode_sample);
    }
    let gradient: usize = if grad < 0 { (-grad) as usize } else { grad as usize };
    assert(gradient <= 40);
    let g = grads[base + gradient];
    let code = match read_code(pump, params, g) {
        Some(c) => c,
        None => return None,
    };
    let abs_code = if code < 0 { -code } else { code };
    let sum: i32 = g.value1 + abs_code;
    let v2: i32 = g.value2;
    let mut g2 = GradPair { value1: sum, value2: v2 };
    if v2 == params.min_value {
        g2.value1 = sum >> 1;
        g2.value2 = v2 >> 1;
        proof {
            assert(sum >= 0 ==> sum >> 1 == sum / 2) by (bit_vector);
            assert(v2 >= 0 ==> v2 >> 1 == v2 / 2) by (bit_vector);
        }
    }
    g2.value2 = g2.value2 + 1;
    grads.set(base + gradient, g2);

    // Apply code to interpolation value
    let mut result = if grad < 0 { interp_val - code } else { interp_val + code };
    if result < 0 {
        result = result + params.total_values;
    } else if result > params.q_point[4] {
        result = result - params.total_values;
    }
    let sample = if result < 0 {
        0
    } else if result > params.q_point[4] {
        params.q_point[4]
    } else {
        result
    };
    Some(sample as u16)
}

// ---------------------------------------------------------------------------
// Line buffer access
// ---------------------------------------------------------------------------

/// Every value in the line buffer is a sample in range.
pub open spec fn lines_ok(p: ParamsModel, lines: Seq<i32>) -> bool {
    forall|j: int| 0 <= j < lines.len() ==> 0 <= #[trigger] lines[j] <= max_value(p)
}

/// Value at `row`, `col` of a line buffer with rows of `stride` values.
pub open spec fn lv(lines: Seq<i32>, stride: int, row: int, col: int) -> int {
    lines[row * stride + col] as int
}

/// Offsets inside an 18-row buffer stay inside it.
pub proof fn lemma_line_index(row: int, col: int, stride: int)
    requires
        0 <= row < LTOTAL,
        0 <= col < stride,
    ensures
        0 <= row * stride + col < LTOTAL * stride,
        row * stride <= row * stride + col,
{
    assert(0 <= row * stride + col < LTOTAL * stride) by (nonlinear_arith)
        requires
            0 <= row < 18,
            0 <= col < stride,
    ;
}

#[inline(always)]
fn l(lines: &Vec<i32>, stride: usize, row: usize, col: usize) -> (r: i32)
    requires
        lines.len() == LTOTAL * stride,
        row < LTOTAL,
        col < stride,
    ensures
        r as int == lv(lines@, stride as int, row as int, col as int),
{
    proof {
        lemma_line_index(row as int, col as int, stride as int);
    }
    lines[row * stride + col]
}

#[inline(always)]
fn set_l(lines: &mut Vec<i32>, stride: usize, row: usize, col: usize, val: u16)
    requires
        old(lines).len() == LTOTAL * stride,
        row < LTOTAL,
        col < stride,
    ensures
        final(lines)@ == old(lines)@.update(row * stride + col, val as i32),
{
    proof {
        lemma_line_index(row as int, col as int, stride as int);
    }
    lines.set(row * stride + col, val as i32);
}

// ---------------------------------------------------------------------------
// Interpolation (prediction from neighbors)
// ---------------------------------------------------------------------------

/// `|a - b|`.
pub open spec fn abs_diff(a: int, b: int) -> int {
    if a >= b {
        a - b
    } else {
        b - a
    }
}

/// The larger of `a` and `b`.
pub open spec fn max2(a: int, b: int) -> int {
    if a >= b {
        a
    } else {
        b
    }
}

/// The smaller of `a` and `b`.
pub open spec fn min2(a: int, b: int) -> int {
    if a <= b {
        a
    } else {
        b
    }
}

/// Context and prediction of the even pixel `col` of line `c`, from the
/// line above (`c - 1`) and the one above it (`c - 2`).
#[verifier::opaque]
pub open spec fn spec_interp_even(p: ParamsModel, lines: Seq<i32>, stride: int, c: int, col: int) -> (
    int,
    int,
) {
    let rb = lv(lines, stride, c - 1, 1 + 2 * col);
    let rc = lv(lines, stride, c - 1, 2 * col);
    let rd = lv(lines, stride, c - 1, 2 * col + 2);
    let rf = lv(lines, stride, c - 2, 1 + 2 * col);
    let d_rc_rb = abs_diff(rc, rb);
    let d_rf_rb = abs_diff(rf, rb);
    let d_rd_rb = abs_diff(rd, rb);
    let (term1, term2) = if d_rc_rb > max2(d_rf_rb, d_rd_rb) {
        (rf, rd)
    } else {
        (
            if d_rd_rb > max2(d_rc_rb, d_rf_rb) {
                rf
            } else {
                rd
            },
            rc,
        )
    };
    (spec_quant_gradient(p, rb - rf, rc - rb), (2 * rb + term1 + term2) / 4)
}

/// Context and prediction of the odd pixel `col` of line `c`, from its even
/// neighbours on line `c` and the line above.
#[verifier::opaque]
pub open spec fn spec_interp_odd(p: ParamsModel, lines: Seq<i32>, stride: int, c: int, col: int) -> (
    int,
    int,
) {
    let ra = lv(lines, stride, c, 1 + 2 * col);
    let rb = lv(lines, stride, c - 1, 1 + 2 * col + 1);
    let rc = lv(lines, stride, c - 1, 1 + 2 * col);
    let rd = lv(lines, stride, c - 1, 1 + 2 * (col + 1));
    let rg = lv(lines, stride, c, 1 + 2 * (col + 1));
    let interp = if rb < min2(rc, rd) || rb > max2(rc, rd) {
        (ra + rg + 2 * rb) / 2
    } else {
        ra + rg
    };
    (spec_quant_gradient(p, rb - rc, rc - ra), interp / 2)
}

#[inline(always)]
#[verifier::spinoff_prover]
fn interpolation_even_inner(lines: &Vec<i32>, stride: usize, params: &FujiParams, c: usize, col: usize) -> (r: (i32, i32))
    requires
        params_wf(*params),
        lines.len() == LTOTAL * stride,
        lines_ok(params@, lines@),
        2 <= c < LTOTAL,
        2 * col + 2 < stride,
    ensures
        (r.0 as int, r.1 as int) == spec_interp_even(params@, lines@, stride as int, c as int, col as int),
        -40 <= r.0 <= 40,
        0 <= r.1 <= max_value(params@),
{
    proof {
        lemma_line_index(c - 1, 1 + 2 * col, stride as int);
        lemma_line_index(c - 1, 2 * col, stride as int);
        lemma_line_index(c - 1, 2 * col + 2, stride as int);
        lemma_line_index(c - 2, 1 + 2 * col, stride as int);
    }
    proof {
        reveal(spec_interp_even);
    }
    let rb = l(lines, stride, c - 1, 1 + 2 * col);
    let rc = l(lines, stride, c - 1, 2 * col);
    let rd = l(lines, stride, c - 1, 2 * col + 2);
    let rf = l(lines, stride, c - 2, 1 + 2 * col);

    let d_rc_rb = if rc >= rb { rc - rb } else { rb - rc };
    let d_rf_rb = if rf >= rb { rf - rb } else { rb - rf };
    let d_rd_rb = if rd >= rb { rd - rb } else { rb - rd };

    let term0 = 2 * rb;
    let (term1, term2): (i32, i32);
    if d_rc_rb > (if d_rf_rb >= d_rd_rb { d_rf_rb } else { d_rd_rb }) {
        term1 = rf;
        term2 = rd;
    } else {
        term1 = if d_rd_rb > (if d_rc_rb >= d_rf_rb { d_rc_rb } else { d_rf_rb }) { rf } else { rd };
        term2 = rc;
    }

    let sum: i32 = term0 + term1 + term2;
    let interp_val = sum >> 2;
    proof {
        assert(sum >= 0 ==> sum >> 2 == sum / 4) by (bit_vector);
    }
    let grad = params.quant_gradient(rb - rf, rc - rb);
    (grad, interp_val)
}

#[inline(always)]
#[verifier::spinoff_prover]
fn interpolation_odd_inner(lines: &Vec<i32>, stride: usize, params: &FujiParams, c: usize, col: usize) -> (r: (i32, i32))
    requires
        params_wf(*params),
        lines.len() == LTOTAL * stride,
        lines_ok(params@, lines@),
        1 <= c < LTOTAL,
        2 * col + 3 < stride,
    ensures
        (r.0 as int, r.1 as int) == spec_interp_odd(params@, lines@, stride as int, c as int, col as int),
        -40 <= r.0 <= 40,
        0 <= r.1 <= max_value(params@),
{
    proof {
        lemma_line_index(c as int, 1 + 2 * col, stride as int);
        lemma_line_index(c - 1, 1 + 2 * col + 1, stride as int);
        lemma_line_index(c - 1, 1 + 2 * col, stride as int);
        lemma_line_index(c - 1, 1 + 2 * (col + 1), stride as int);
        lemma_line_index(c as int, 1 + 2 * (col + 1), stride as int);
    }
    proof {
        reveal(spec_interp_odd);
    }
    let ra = l(lines, stride, c, 1 + 2 * col);
    let rb = l(lines, stride, c - 1, 1 + 2 * col + 1);
    let rc = l(lines, stride, c - 1, 1 + 2 * col);
    let rd = l(lines, stride, c - 1, 1 + 2 * (col + 1));
    let rg = l(lines, stride, c, 1 + 2 * (col + 1));

    let mut interp_val: i32 = ra + rg;
    let mn = if rc <= rd { rc } else { rd };
    let mx = if rc >= rd { rc } else { rd };
    if rb < mn || rb > mx {
        let t: i32 = interp_val + 2 * rb;
        interp_val = t >> 1;
        proof {
            assert(t >= 0 ==> t >> 1 == t / 2) by (bit_vector);
        }
    }
    let t2: i32 = interp_val;
    interp_val = t2 >> 1;
    proof {
        assert(t2 >= 0 ==> t2 >> 1 == t2 / 2) by (bit_vector);
    }

    let grad = params.quant_gradient(rb - rc, rc - ra);
    (grad, interp_val)
}

// ---------------------------------------------------------------------------
// X-Trans interpolation pattern
// ---------------------------------------------------------------------------

/// Whether the even pixel `i` of component `comp` in block row `row` is
/// predicted only, with no code in the stream.
pub open spec fn spec_is_interpolation(row: int, comp: int, i: int) -> bool {
    if comp == 0 {
        row == 0 || row == 5 || (row == 2 && i % 2 == 0) || (row == 4 && i % 2 != 0)
    } else {
        row == 1 || row == 2 || (row == 3 && i % 2 != 0) || (row == 5 && i % 2 == 0)
    }
}

#[inline(always)]
fn is_interpolation(row: usize, comp: usize, i: usize) -> (r: bool)
    ensures
        r == spec_is_interpolation(row as int, comp as int, i as int),
{
    if comp == 0 {
        row == 0 || row == 5 || (row == 2 && i % 2 == 0) || (row == 4 && i % 2 != 0)
    } else {
        row == 1 || row == 2 || (row == 3 && i % 2 != 0) || (row == 5 && i % 2 == 0)
    }
}

/// The two lines (a red or blue one and a green one) that block row `row`
/// feeds: `(R2, G2), (G2+1, B2), (R2+1, G2+2), (G2+3, B2+1), (R2+2, G2+4), (G2+5, B2+2)`.
pub open spec fn spec_row_lines(row: int) -> (int, int) {
    if row == 0 {
        (2, 7)
    } else if row == 1 {
        (8, 15)
    } else if row == 2 {
        (3, 9)
    } else if row == 3 {
        (10, 16)
    } else if row == 4 {
        (4, 11)
    } else {
        (12, 17)
    }
}

fn row_lines(row: usize) -> (r: (usize, usize))
    requires
        row < 6,
    ensures
        (r.0 as int, r.1 as int) == spec_row_lines(row as int),
{
    match row {
        0 => (R2, G2),
        1 => (G2 + 1, B2),
        2 => (R2 + 1, G2 + 2),
        3 => (G2 + 3, B2 + 1),
        4 => (R2 + 2, G2 + 4),
        _ => (G2 + 5, B2 + 2),
    }
}

// ---------------------------------------------------------------------------
// Extend helper columns
// ---------------------------------------------------------------------------

/// Sets the helper columns of line `i` (first and last) from the
/// neighbouring samples of line `i - 1`.
pub open spec fn spec_extend_row(lines: Seq<i32>, stride: int, i: int) -> Seq<i32> {
    let l1 = lines.update(i * stride, lines[(i - 1) * stride + 1]);
    l1.update(i * stride + stride - 1, l1[(i - 1) * stride + stride - 2])
}

/// The helper columns of lines `start .. j` extended one line after another.
pub open spec fn spec_extend_upto(lines: Seq<i32>, stride: int, start: int, j: int) -> Seq<i32>
    decreases j - start,
{
    if j <= start {
        lines
    } else {
        spec_extend_row(spec_extend_upto(lines, stride, start, j - 1), stride, j - 1)
    }
}

fn extend_generic(lines: &mut Vec<i32>, stride: usize, start: usize, end: usize)
    requires
        old(lines).len() == LTOTAL * stride,
        2 <= stride,
        1 <= start <= end + 1,
        end < LTOTAL,
    ensures
        final(lines)@ == spec_extend_upto(old(lines)@, stride as int, start as int, end + 1),
{
    let mut i = start;
    while i <= end
        invariant
            lines.len() == LTOTAL * stride,
            2 <= stride,
            1 <= start <= i <= end + 1,
            end < LTOTAL,
            lines@ == spec_extend_upto(old(lines)@, stride as int, start as int, i as int),
        decreases end + 1 - i,
    {
        proof {
            lemma_line_index(i as int, 0, stride as int);
            lemma_line_index(i - 1, 1, stride as int);
            lemma_line_index(i as int, stride - 1, stride as int);
            lemma_line_index(i - 1, stride - 2, stride as int);
        }
        let v1 = lines[(i - 1) * stride + 1];
        lines.set(i * stride, v1);
        let v2 = lines[(i - 1) * stride + stride - 2];
        lines.set(i * stride + stride - 1, v2);
        i = i + 1;
    }
}

/// The line ranges whose helper columns follow each colour: red, green, blue.
pub open spec fn spec_extend_color(lines: Seq<i32>, stride: int, color: int) -> Seq<i32> {
    if color == 0 {
        spec_extend_upto(lines, stride, R2 as int, R4 + 1)
    } else if color == 1 {
        spec_extend_upto(lines, stride, G2 as int, G7 + 1)
    } else if color == 2 {
        spec_extend_upto(lines, stride, B2 as int, B4 + 1)
    } else {
        lines
    }
}

#[inline(always)]
fn extend_color(lines: &mut Vec<i32>, stride: usize, color: usize)
    requires
        old(lines).len() == LTOTAL * stride,
        2 <= stride,
    ensures
        final(lines)@ == spec_extend_color(old(lines)@, stride as int, color as int),
{
    match color {
        0 => extend_generic(lines, stride, R2, R4),
        1 => extend_generic(lines, stride, G2, G7),
        2 => extend_generic(lines, stride, B2, B4),
        _ => {},
    }
}

/// Extension only copies values already in the buffer.
pub proof fn lemma_extend_keeps_ok(p: ParamsModel, lines: Seq<i32>, stride: int, start: int, j: int)
    requires
        lines_ok(p, lines),
        lines.len() == LTOTAL * stride,
        2 <= stride,
        1 <= start,
        j <= LTOTAL,
    ensures
        lines_ok(p, spec_extend_upto(lines, stride, start, j)),
        spec_extend_upto(lines, stride, start, j).len() == lines.len(),
    decreases j - start,
{
    if j > start {
        lemma_extend_keeps_ok(p, lines, stride, start, j - 1);
        let l0 = spec_extend_upto(lines, stride, start, j - 1);
        lemma_line_index(j - 2, 1, stride);
        lemma_line_index(j - 2, stride - 2, stride);
        lemma_line_index(j - 1, 0, stride);
        lemma_line_index(j - 1, stride - 1, stride);
    }
}

// ---------------------------------------------------------------------------
// Block decode (6 rows of one MCU line)
// ---------------------------------------------------------------------------

/// The state of a strip decoder: the line buffer, the stream position and
/// the statistics of the even and odd pixel contexts.
pub struct DecodeState {
    pub lines: Seq<i32>,
    pub pos: int,
    pub even: Seq<GradPair>,
    pub odd: Seq<GradPair>,
}

/// A decoder state with buffers of the right sizes and values in range.
pub open spec fn state_ok(p: ParamsModel, st: DecodeState, stride: int) -> bool {
    &&& st.lines.len() == LTOTAL * stride
    &&& lines_ok(p, st.lines)
    &&& st.even.len() == 3 * NGRADS
    &&& st.odd.len() == 3 * NGRADS
    &&& grads_ok(st.even)
    &&& grads_ok(st.odd)
    &&& 0 <= st.pos
}

/// `v` clamped to the range of sample values.
pub open spec fn clamp_sample(p: ParamsModel, v: int) -> int {
    if v < 0 {
        0
    } else if v > max_value(p) {
        max_value(p)
    } else {
        v
    }
}

/// Decodes an even pixel: column `i` of component `comp` in block row
/// `row`, given the line buffer, the stream position and the even
/// statistics. Pixels of the interpolated pattern are predicted only and
/// read nothing from the stream.
#[verifier::opaque]
pub open spec fn spec_even_pixel(
    p: ParamsModel,
    s: Seq<u8>,
    lines: Seq<i32>,
    pos: int,
    grads: Seq<GradPair>,
    stride: int,
    row: int,
    comp: int,
    i: int,
) -> Option<(Seq<i32>, int, Seq<GradPair>)> {
    let c = if comp == 0 {
        spec_row_lines(row).0
    } else {
        spec_row_lines(row).1
    };
    let (grad, interp) = spec_interp_even(p, lines, stride, c, i);
    let idx = c * stride + 1 + 2 * i;
    let gi = (row % 3) * NGRADS + if grad < 0 {
        -grad
    } else {
        grad
    };
    if spec_is_interpolation(row, comp, i) {
        Some((lines.update(idx, clamp_sample(p, interp) as i32), pos, grads))
    } else {
        match spec_decode_sample(p, grad, interp, grads[gi], s, pos) {
            Some((sample, g2, pos2)) => Some(
                (lines.update(idx, sample as i32), pos2, grads.update(gi, g2)),
            ),
            None => None,
        }
    }
}

/// Decodes an odd pixel: column `i - 4` of component `comp` in block row
/// `row`, given the line buffer, the stream position and the odd statistics.
#[verifier::opaque]
pub open spec fn spec_odd_pixel(
    p: ParamsModel,
    s: Seq<u8>,
    lines: Seq<i32>,
    pos: int,
    grads: Seq<GradPair>,
    stride: int,
    row: int,
    comp: int,
    i: int,
) -> Option<(Seq<i32>, int, Seq<GradPair>)> {
    let c = if comp == 0 {
        spec_row_lines(row).0
    } else {
        spec_row_lines(row).1
    };
    let (grad, interp) = spec_interp_odd(p, lines, stride, c, i - 4);
    let idx = c * stride + 2 + 2 * (i - 4);
    let gi = (row % 3) * NGRADS + if grad < 0 {
        -grad
    } else {
        grad
    };
    match spec_decode_sample(p, grad, interp, grads[gi], s, pos) {
        Some((sample, g2, pos2)) => Some(
            (lines.update(idx, sample as i32), pos2, grads.update(gi, g2)),
        ),
        None => None,
    }
}

/// An even or an odd pixel.
pub open spec fn spec_pixel(
    p: ParamsModel,
    s: Seq<u8>,
    lines: Seq<i32>,
    pos: int,
    grads: Seq<GradPair>,
    stride: int,
    row: int,
    comp: int,
    i: int,
    odd: bool,
) -> Option<(Seq<i32>, int, Seq<GradPair>)> {
    if odd {
        spec_odd_pixel(p, s, lines, pos, grads, stride, row, comp, i)
    } else {
        spec_even_pixel(p, s, lines, pos, grads, stride, row, comp, i)
    }
}

/// Writing a sample in range keeps the buffer in range.
pub proof fn lemma_lines_update_ok(p: ParamsModel, lines: Seq<i32>, idx: int, v: int)
    requires
        lines_ok(p, lines),
        0 <= idx < lines.len(),
        0 <= v <= max_value(p),
    ensures
        lines_ok(p, lines.update(idx, v as i32)),
{
    assert forall|j: int| 0 <= j < lines.update(idx, v as i32).len() implies 0
        <= #[trigger] lines.update(idx, v as i32)[j] <= max_value(p) by {
        if j != idx {
            assert(lines.update(idx, v as i32)[j] == lines[j]);
        }
    }
}

/// One pixel applied to a decoder state.
pub open spec fn spec_pixel_state(
    p: ParamsModel,
    s: Seq<u8>,
    st: Option<DecodeState>,
    stride: int,
    row: int,
    comp: int,
    i: int,
    odd: bool,
) -> Option<DecodeState> {
    match st {
        None => None,
        Some(st) => {
            let grads = if odd {
                st.odd
            } else {
                st.even
            };
            match spec_pixel(p, s, st.lines, st.pos, grads, stride, row, comp, i, odd) {
                None => None,
                Some((lines, pos, g)) => if odd {
                    Some(DecodeState { lines, pos, even: st.even, odd: g })
                } else {
                    Some(DecodeState { lines, pos, even: g, odd: st.odd })
                },
            }
        },
    }
}

/// Step `i` of a block row: the even pixels of column `i` of both lines
/// (while `i < half`), then the odd pixels of column `i - 4` (from `i == 4` on).
pub open spec fn spec_column_step(
    p: ParamsModel,
    s: Seq<u8>,
    st: DecodeState,
    stride: int,
    half: int,
    row: int,
    i: int,
) -> Option<DecodeState> {
    let a = if i < half {
        spec_pixel_state(
            p,
            s,
            spec_pixel_state(p, s, Some(st), stride, row, 0, i, false),
            stride,
            row,
            1,
            i,
            false,
        )
    } else {
        Some(st)
    };
    if i >= 4 {
        spec_pixel_state(
            p,
            s,
            spec_pixel_state(p, s, a, stride, row, 0, i, true),
            stride,
            row,
            1,
            i,
            true,
        )
    } else {
        a
    }
}

/// The first `n` steps of block row `row`.
pub open spec fn spec_row_prefix(
    p: ParamsModel,
    s: Seq<u8>,
    st: DecodeState,
    stride: int,
    half: int,
    row: int,
    n: int,
) -> Option<DecodeState>
    decreases n,
{
    if n <= 0 {
        Some(st)
    } else {
        match spec_row_prefix(p, s, st, stride, half, row, n - 1) {
            Some(x) => spec_column_step(p, s, x, stride, half, row, n - 1),
            None => None,
        }
    }
}

/// The colours whose helper columns are extended after block row `row`.
pub open spec fn spec_row_extends(row: int) -> (int, int) {
    if row % 2 == 0 {
        (0, 1)
    } else {
        (1, 2)
    }
}

/// A whole block row: all `half + 4` steps, then the helper columns.
pub open spec fn spec_row(
    p: ParamsModel,
    s: Seq<u8>,
    st: DecodeState,
    stride: int,
    half: int,
    row: int,
) -> Option<DecodeState> {
    match spec_row_prefix(p, s, st, stride, half, row, half + 4) {
        Some(x) => Some(
            DecodeState {
                lines: spec_extend_color(
                    spec_extend_color(x.lines, stride, spec_row_extends(row).0),
                    stride,
                    spec_row_extends(row).1,
                ),
                ..x
            },
        ),
        None => None,
    }
}

/// The first `k` rows of a block.
pub open spec fn spec_block_prefix(
    p: ParamsModel,
    s: Seq<u8>,
    st: DecodeState,
    stride: int,
    half: int,
    k: int,
) -> Option<DecodeState>
    decreases k,
{
    if k <= 0 {
        Some(st)
    } else {
        match spec_block_prefix(p, s, st, stride, half, k - 1) {
            Some(x) => spec_row(p, s, x, stride, half, k - 1),
            None => None,
        }
    }
}

/// A failed step fails every longer prefix of a row.
pub proof fn lemma_row_prefix_none(
    p: ParamsModel,
    s: Seq<u8>,
    st: DecodeState,
    stride: int,
    half: int,
    row: int,
    n: int,
    m: int,
)
    requires
        n <= m,
        spec_row_prefix(p, s, st, stride, half, row, n) is None,
    ensures
        spec_row_prefix(p, s, st, stride, half, row, m) is None,
    decreases m - n,
{
    if n < m {
        lemma_row_prefix_none(p, s, st, stride, half, row, n, m - 1);
    }
}

/// A failed row fails every longer prefix of a block.
pub proof fn lemma_block_prefix_none(
    p: ParamsModel,
    s: Seq<u8>,
    st: DecodeState,
    stride: int,
    half: int,
    n: int,
    m: int,
)
    requires
        n <= m,
        spec_block_prefix(p, s, st, stride, half, n) is None,
    ensures
        spec_block_prefix(p, s, st, stride, half, m) is None,
    decreases m - n,
{
    if n < m {
        lemma_block_prefix_none(p, s, st, stride, half, n, m - 1);
    }
}

/// Decodes one even pixel into the line buffer; `false` where the stream ends.
fn decode_even_pixel(
    pump: &mut BitPumpMSB,
    params: &FujiParams,
    lines: &mut Vec<i32>,
    stride: usize,
    grads: &mut Vec<GradPair>,
    row: usize,
    comp: usize,
    i: usize,
) -> (ok: bool)
    requires
        old(pump).wf(),
        0 <= old(pump).pos(),
        params_wf(*params),
        stride == params.line_width + 2,
        old(lines).len() == LTOTAL * stride,
        lines_ok(params@, old(lines)@),
        old(grads).len() == 3 * NGRADS,
        grads_ok(old(grads)@),
        row < 6,
        comp < 2,
        i < params.line_width / 2,
    ensures
        final(pump).wf(),
        final(pump).data() == old(pump).data(),
        0 <= final(pump).pos(),
        final(lines).len() == LTOTAL * stride,
        lines_ok(params@, final(lines)@),
        final(grads).len() == 3 * NGRADS,
        grads_ok(final(grads)@),
        match spec_even_pixel(
            params@,
            old(pump).data(),
            old(lines)@,
            old(pump).pos(),
            old(grads)@,
            stride as int,
            row as int,
            comp as int,
            i as int,
        ) {
            Some((l, ps, g)) => ok && final(lines)@ == l && final(pump).pos() == ps
                && final(grads)@ == g,
            None => !ok,
        },
        rows_kept(old(lines)@, final(lines)@, stride as int),
{
    proof {
        reveal(spec_even_pixel);
    }
    let (c0, c1) = row_lines(row);
    let c = if comp == 0 { c0 } else { c1 };
    let gbase = (row % 3) * NGRADS;
    let (grad, interp_val) = interpolation_even_inner(lines, stride, params, c, i);
    let sample: u16 = if is_interpolation(row, comp, i) {
        (if interp_val < 0 {
            0
        } else if interp_val > params.q_point[4] {
            params.q_point[4]
        } else {
            interp_val
        }) as u16
    } else {
        match fuji_decode_sample(pump, params, grad, interp_val, grads, gbase) {
            Some(v) => v,
            None => {
                proof {
                    crate::basics::BitPumpMSB::lemma_pos_bound(pump);
                }
                return false;
            },
        }
    };
    proof {
        lemma_line_index(c as int, 1 + 2 * i, stride as int);
        crate::basics::BitPumpMSB::lemma_pos_bound(pump);
        lemma_lines_update_ok(params@, lines@, c * stride + 1 + 2 * i, sample as int);
        lemma_update_keeps(lines@, stride as int, c as int, 1 + 2 * i, sample as i32);
    }
    set_l(lines, stride, c, 1 + 2 * i, sample);
    true
}

/// Decodes one odd pixel into the line buffer; `false` where the stream ends.
fn decode_odd_pixel(
    pump: &mut BitPumpMSB,
    params: &FujiParams,
    lines: &mut Vec<i32>,
    stride: usize,
    grads: &mut Vec<GradPair>,
    row: usize,
    comp: usize,
    i: usize,
) -> (ok: bool)
    requires
        old(pump).wf(),
        0 <= old(pump).pos(),
        params_wf(*params),
        stride == params.line_width + 2,
        old(lines).len() == LTOTAL * stride,
        lines_ok(params@, old(lines)@),
        old(grads).len() == 3 * NGRADS,
        grads_ok(old(grads)@),
        row < 6,
        comp < 2,
        4 <= i,
        i - 4 < params.line_width / 2,
    ensures
        final(pump).wf(),
        final(pump).data() == old(pump).data(),
        0 <= final(pump).pos(),
        final(lines).len() == LTOTAL * stride,
        lines_ok(params@, final(lines)@),
        final(grads).len() == 3 * NGRADS,
        grads_ok(final(grads)@),
        match spec_odd_pixel(
            params@,
            old(pump).data(),
            old(lines)@,
            old(pump).pos(),
            old(grads)@,
            stride as int,
            row as int,
            comp as int,
            i as int,
        ) {
            Some((l, ps, g)) => ok && final(lines)@ == l && final(pump).pos() == ps
                && final(grads)@ == g,
            None => !ok,
        },
        rows_kept(old(lines)@, final(lines)@, stride as int),
{
    proof {
        reveal(spec_odd_pixel);
    }
    let (c0, c1) = row_lines(row);
    let c = if comp == 0 { c0 } else { c1 };
    let gbase = (row % 3) * NGRADS;
    let col = i - 4;
    let (grad, interp_val) = interpolation_odd_inner(lines, stride, params, c, col);
    let sample: u16 = match fuji_decode_sample(pump, params, grad, interp_val, grads, gbase) {
        Some(v) => v,
        None => {
            proof {
                crate::basics::BitPumpMSB::lemma_pos_bound(pump);
            }
            return false;
        },
    };
    proof {
        lemma_line_index(c as int, 2 + 2 * col, stride as int);
        crate::basics::BitPumpMSB::lemma_pos_bound(pump);
        lemma_lines_update_ok(params@, lines@, c * stride + 2 + 2 * col, sample as int);
        lemma_update_keeps(lines@, stride as int, c as int, 2 + 2 * col, sample as i32);
    }
    set_l(lines, stride, c, 2 + 2 * col, sample);
    true
}

/// Lines of the buffer that decoding a block never writes: the two oldest
/// of each colour, which the previous block left for prediction.
pub open spec fn kept_row(r: int) -> bool {
    r == 0 || r == 1 || r == 5 || r == 6 || r == 13 || r == 14
}

/// Sample `x` of line `r`.
pub open spec fn cell(lines: Seq<i32>, stride: int, r: int, x: int) -> i32 {
    lines[r * stride + x]
}

/// `b` is as long as `a` and holds the same samples in every kept line.
pub open spec fn rows_kept(a: Seq<i32>, b: Seq<i32>, stride: int) -> bool {
    &&& b.len() == a.len()
    &&& forall|r: int, x: int|
        kept_row(r) && 0 <= x < stride ==> #[trigger] cell(b, stride, r, x) == cell(a, stride, r, x)
}

proof fn lemma_rows_apart(r: int, c: int, x: int, col: int, stride: int)
    requires
        r != c,
        0 <= x < stride,
        0 <= col < stride,
    ensures
        r * stride + x != c * stride + col,
{
    if r < c {
        assert((c - r) * stride >= stride) by (nonlinear_arith)
            requires
                c - r >= 1,
                stride > 0,
        ;
        assert(c * stride - r * stride == (c - r) * stride) by (nonlinear_arith);
    } else {
        assert((r - c) * stride >= stride) by (nonlinear_arith)
            requires
                r - c >= 1,
                stride > 0,
        ;
        assert(r * stride - c * stride == (r - c) * stride) by (nonlinear_arith);
    }
}

proof fn lemma_update_keeps(lines: Seq<i32>, stride: int, c: int, col: int, v: i32)
    requires
        !kept_row(c),
        0 <= c < LTOTAL,
        0 <= col < stride,
        lines.len() == LTOTAL * stride,
    ensures
        rows_kept(lines, lines.update(c * stride + col, v), stride),
{
    lemma_line_index(c, col, stride);
    assert forall|r: int, x: int| kept_row(r) && 0 <= x < stride implies #[trigger] cell(
        lines.update(c * stride + col, v),
        stride,
        r,
        x,
    ) == cell(lines, stride, r, x) by {
        lemma_line_index(r, x, stride);
        lemma_rows_apart(r, c, x, col, stride);
    }
}

proof fn lemma_pixel_keeps(
    p: ParamsModel,
    s: Seq<u8>,
    lines: Seq<i32>,
    pos: int,
    grads: Seq<GradPair>,
    stride: int,
    half: int,
    row: int,
    comp: int,
    i: int,
    odd: bool,
)
    requires
        0 <= row < 6,
        0 <= comp < 2,
        2 * half + 2 <= stride,
        odd ==> 4 <= i < half + 4,
        !odd ==> 0 <= i < half,
        lines.len() == LTOTAL * stride,
        spec_pixel(p, s, lines, pos, grads, stride, row, comp, i, odd) is Some,
    ensures
        match spec_pixel(p, s, lines, pos, grads, stride, row, comp, i, odd) {
            Some((l2, _, _)) => rows_kept(lines, l2, stride),
            None => true,
        },
{
    reveal(spec_even_pixel);
    reveal(spec_odd_pixel);
    let c = if comp == 0 {
        spec_row_lines(row).0
    } else {
        spec_row_lines(row).1
    };
    let (l2, _, _) = spec_pixel(p, s, lines, pos, grads, stride, row, comp, i, odd)->0;
    if odd {
        lemma_line_index(c, 2 + 2 * (i - 4), stride);
        lemma_update_keeps(lines, stride, c, 2 + 2 * (i - 4), l2[c * stride + 2 + 2 * (i - 4)]);
        assert(l2 == lines.update(c * stride + 2 + 2 * (i - 4), l2[c * stride + 2 + 2 * (i - 4)]));
    } else {
        lemma_line_index(c, 1 + 2 * i, stride);
        lemma_update_keeps(lines, stride, c, 1 + 2 * i, l2[c * stride + 1 + 2 * i]);
        assert(l2 == lines.update(c * stride + 1 + 2 * i, l2[c * stride + 1 + 2 * i]));
    }
}

proof fn lemma_pixel_state_keeps(
    p: ParamsModel,
    s: Seq<u8>,
    st: Option<DecodeState>,
    stride: int,
    half: int,
    row: int,
    comp: int,
    i: int,
    odd: bool,
)
    requires
        0 <= row < 6,
        0 <= comp < 2,
        2 * half + 2 <= stride,
        odd ==> 4 <= i < half + 4,
        !odd ==> 0 <= i < half,
        st is Some ==> st->0.lines.len() == LTOTAL * stride,
        spec_pixel_state(p, s, st, stride, row, comp, i, odd) is Some,
    ensures
        st is Some,
        rows_kept(st->0.lines, spec_pixel_state(p, s, st, stride, row, comp, i, odd)->0.lines, stride),
{
    let x = st->0;
    let grads = if odd {
        x.odd
    } else {
        x.even
    };
    lemma_pixel_keeps(p, s, x.lines, x.pos, grads, stride, half, row, comp, i, odd);
}

proof fn lemma_row_prefix_keeps(
    p: ParamsModel,
    s: Seq<u8>,
    st: DecodeState,
    stride: int,
    half: int,
    row: int,
    n: int,
)
    requires
        0 <= row < 6,
        0 <= n <= half + 4,
        2 * half + 2 <= stride,
        st.lines.len() == LTOTAL * stride,
        spec_row_prefix(p, s, st, stride, half, row, n) is Some,
    ensures
        rows_kept(st.lines, spec_row_prefix(p, s, st, stride, half, row, n)->0.lines, stride),
    decreases n,
{
    if n > 0 {
        lemma_row_prefix_keeps(p, s, st, stride, half, row, n - 1);
        let x = spec_row_prefix(p, s, st, stride, half, row, n - 1)->0;
        let i = n - 1;
        let b0 = spec_pixel_state(p, s, Some(x), stride, row, 0, i, false);
        let a = if i < half {
            spec_pixel_state(p, s, b0, stride, row, 1, i, false)
        } else {
            Some(x)
        };
        let c0 = spec_pixel_state(p, s, a, stride, row, 0, i, true);
        assert(spec_row_prefix(p, s, st, stride, half, row, n) == spec_column_step(
            p,
            s,
            x,
            stride,
            half,
            row,
            i,
        ));
        if i >= 4 {
            assert(c0 is Some);
        }
        assert(a is Some);
        if i < half {
            assert(b0 is Some);
            lemma_pixel_state_keeps(p, s, Some(x), stride, half, row, 0, i, false);
            lemma_pixel_state_keeps(p, s, b0, stride, half, row, 1, i, false);
        }
        if i >= 4 {
            lemma_pixel_state_keeps(p, s, a, stride, half, row, 0, i, true);
            lemma_pixel_state_keeps(p, s, c0, stride, half, row, 1, i, true);
        }
    }
}

proof fn lemma_extend_keeps_rows(lines: Seq<i32>, stride: int, start: int, j: int)
    requires
        1 <= start <= j <= LTOTAL,
        2 <= stride,
        lines.len() == LTOTAL * stride,
        forall|r: int| start <= r < j ==> !kept_row(r),
    ensures
        rows_kept(lines, spec_extend_upto(lines, stride, start, j), stride),
    decreases j - start,
{
    if j > start {
        lemma_extend_keeps_rows(lines, stride, start, j - 1);
        let a = spec_extend_upto(lines, stride, start, j - 1);
        let l1 = a.update((j - 1) * stride, a[(j - 2) * stride + 1]);
        lemma_update_keeps(a, stride, j - 1, 0, a[(j - 2) * stride + 1]);
        lemma_update_keeps(l1, stride, j - 1, stride - 1, l1[(j - 2) * stride + stride - 2]);
    }
}

proof fn lemma_extend_color_keeps(lines: Seq<i32>, stride: int, color: int)
    requires
        2 <= stride,
        lines.len() == LTOTAL * stride,
    ensures
        rows_kept(lines, spec_extend_color(lines, stride, color), stride),
{
    if color == 0 {
        lemma_extend_keeps_rows(lines, stride, R2 as int, R4 + 1);
    } else if color == 1 {
        lemma_extend_keeps_rows(lines, stride, G2 as int, G7 + 1);
    } else if color == 2 {
        lemma_extend_keeps_rows(lines, stride, B2 as int, B4 + 1);
    }
}

/// Decoding a block leaves the two oldest lines of each colour (lines 0,
/// 1, 5, 6, 13 and 14 of the buffer) as they were.
pub proof fn lemma_block_keeps_rows(p: ParamsModel, s: Seq<u8>, st: DecodeState, stride: int, half: int, k: int)
    requires
        0 <= k <= 6,
        0 <= half,
        2 * half + 2 <= stride,
        st.lines.len() == LTOTAL * stride,
        spec_block_prefix(p, s, st, stride, half, k) is Some,
    ensures
        rows_kept(st.lines, spec_block_prefix(p, s, st, stride, half, k)->0.lines, stride),
    decreases k,
{
    if k > 0 {
        lemma_block_keeps_rows(p, s, st, stride, half, k - 1);
        let x = spec_block_prefix(p, s, st, stride, half, k - 1)->0;
        lemma_row_prefix_keeps(p, s, x, stride, half, k - 1, half + 4);
        let y = spec_row_prefix(p, s, x, stride, half, k - 1, half + 4)->0;
        let e1 = spec_extend_color(y.lines, stride, spec_row_extends(k - 1).0);
        lemma_extend_color_keeps(y.lines, stride, spec_row_extends(k - 1).0);
        lemma_extend_color_keeps(e1, stride, spec_row_extends(k - 1).1);
    }
}

/// The decoder state held by the exec buffers.
pub open spec fn state_of(lines: Seq<i32>, pos: int, even: Seq<GradPair>, odd: Seq<GradPair>) -> DecodeState {
    DecodeState { lines, pos, even, odd }
}

/// Decodes the six rows of one block line into the line buffer; `false`
/// where the stream ends first. Whatever the outcome, every value of the
/// buffer stays a sample in range, the statistics stay in range, and the
/// two oldest lines of each colour (lines 0, 1, 5, 6, 13 and 14) keep
/// their values.
pub fn xtrans_decode_block(
    pump: &mut BitPumpMSB,
    params: &FujiParams,
    lines: &mut Vec<i32>,
    stride: usize,
    grad_even: &mut Vec<GradPair>,
    grad_odd: &mut Vec<GradPair>,
) -> (ok: bool)
    requires
        old(pump).wf(),
        params_wf(*params),
        stride == params.line_width + 2,
        state_ok(
            params@,
            state_of(old(lines)@, old(pump).pos(), old(grad_even)@, old(grad_odd)@),
            stride as int,
        ),
    ensures
        final(pump).wf(),
        final(pump).data() == old(pump).data(),
        state_ok(
            params@,
            state_of(final(lines)@, final(pump).pos(), final(grad_even)@, final(grad_odd)@),
            stride as int,
        ),
        match spec_block_prefix(
            params@,
            old(pump).data(),
            state_of(old(lines)@, old(pump).pos(), old(grad_even)@, old(grad_odd)@),
            stride as int,
            (params.line_width / 2) as int,
            6,
        ) {
            Some(st) => ok && state_of(
                final(lines)@,
                final(pump).pos(),
                final(grad_even)@,
                final(grad_odd)@,
            ) == st,
            None => !ok,
        },
        rows_kept(old(lines)@, final(lines)@, stride as int),
{
    let half_lw = params.line_width / 2;
    let ghost s = pump.data();
    let ghost st0 = state_of(lines@, pump.pos(), grad_even@, grad_odd@);
    let mut row: usize = 0;
    while row < 6
        invariant
            pump.wf(),
            pump.data() == s,
            s == old(pump).data(),
            st0 == state_of(old(lines)@, old(pump).pos(), old(grad_even)@, old(grad_odd)@),
            params_wf(*params),
            stride == params.line_width + 2,
            half_lw == params.line_width / 2,
            row <= 6,
            state_ok(params@, state_of(lines@, pump.pos(), grad_even@, grad_odd@), stride as int),
            rows_kept(old(lines)@, lines@, stride as int),
            spec_block_prefix(params@, s, st0, stride as int, half_lw as int, row as int) == Some(
                state_of(lines@, pump.pos(), grad_even@, grad_odd@),
            ),
        decreases 6 - row,
    {
        let ghost st_row = state_of(lines@, pump.pos(), grad_even@, grad_odd@);
        let mut i: usize = 0;
        while i < half_lw + 4
            invariant
                pump.wf(),
                pump.data() == s,
                s == old(pump).data(),
                st0 == state_of(old(lines)@, old(pump).pos(), old(grad_even)@, old(grad_odd)@),
                spec_block_prefix(params@, s, st0, stride as int, half_lw as int, row as int)
                    == Some(st_row),
                params_wf(*params),
                stride == params.line_width + 2,
                half_lw == params.line_width / 2,
                row < 6,
                i <= half_lw + 4,
                state_ok(params@, state_of(lines@, pump.pos(), grad_even@, grad_odd@), stride as int),
                rows_kept(old(lines)@, lines@, stride as int),
                spec_row_prefix(params@, s, st_row, stride as int, half_lw as int, row as int, i as int)
                    == Some(state_of(lines@, pump.pos(), grad_even@, grad_odd@)),
            decreases half_lw + 4 - i,
        {
            let ghost st_i = state_of(lines@, pump.pos(), grad_even@, grad_odd@);
            let ghost a = if i < half_lw {
                spec_pixel_state(
                    params@,
                    s,
                    spec_pixel_state(params@, s, Some(st_i), stride as int, row as int, 0, i as int, false),
                    stride as int,
                    row as int,
                    1,
                    i as int,
                    false,
                )
            } else {
                Some(st_i)
            };
            if i < half_lw {
                if !decode_even_pixel(pump, params, lines, stride, grad_even, row, 0, i) {
                    proof {
                        lemma_row_prefix_none(params@, s, st_row, stride as int, half_lw as int, row as int, i + 1, half_lw + 4);
                        lemma_block_prefix_none(params@, s, st0, stride as int, half_lw as int, row + 1, 6);
                    }
                    return false;
                }
                if !decode_even_pixel(pump, params, lines, stride, grad_even, row, 1, i) {
                    proof {
                        lemma_row_prefix_none(params@, s, st_row, stride as int, half_lw as int, row as int, i + 1, half_lw + 4);
                        lemma_block_prefix_none(params@, s, st0, stride as int, half_lw as int, row + 1, 6);
                    }
                    return false;
                }
            }
            assert(a == Some(state_of(lines@, pump.pos(), grad_even@, grad_odd@)));
            if i >= 4 {
                if !decode_odd_pixel(pump, params, lines, stride, grad_odd, row, 0, i) {
                    proof {
                        lemma_row_prefix_none(params@, s, st_row, stride as int, half_lw as int, row as int, i + 1, half_lw + 4);
                        lemma_block_prefix_none(params@, s, st0, stride as int, half_lw as int, row + 1, 6);
                    }
                    return false;
                }
                if !decode_odd_pixel(pump, params, lines, stride, grad_odd, row, 1, i) {
                    proof {
                        lemma_row_prefix_none(params@, s, st_row, stride as int, half_lw as int, row as int, i + 1, half_lw + 4);
                        lemma_block_prefix_none(params@, s, st0, stride as int, half_lw as int, row + 1, 6);
                    }
                    return false;
                }
            }
            i = i + 1;
        }
        let (ext0, ext1): (usize, usize) = if row % 2 == 0 { (0, 1) } else { (1, 2) };
        proof {
            lemma_extend_keeps_ok(params@, lines@, stride as int, 2, 5);
            lemma_extend_keeps_ok(params@, lines@, stride as int, 7, 13);
            lemma_extend_keeps_ok(params@, lines@, stride as int, 15, 18);
            let l1 = spec_extend_color(lines@, stride as int, ext0 as int);
            lemma_extend_keeps_ok(params@, l1, stride as int, 2, 5);
            lemma_extend_keeps_ok(params@, l1, stride as int, 7, 13);
            lemma_extend_keeps_ok(params@, l1, stride as int, 15, 18);
            lemma_extend_color_keeps(lines@, stride as int, ext0 as int);
            lemma_extend_color_keeps(l1, stride as int, ext1 as int);
        }
        extend_color(lines, stride, ext0);
        extend_color(lines, stride, ext1);
        row = row + 1;
    }
    true
}

// ---------------------------------------------------------------------------
// Copy decoded lines to output image
// ---------------------------------------------------------------------------

/// Column in a colour line of image column `img_col` of a strip: columns
/// `3k`, `3k + 1`, `3k + 2` go to `2k`, `2k + 1`, `2k + 1`.
pub open spec fn spec_col_index(img_col: int) -> int {
    2 * (img_col / 3) + if img_col % 3 == 0 {
        0int
    } else {
        1int
    }
}

#[inline(always)]
fn xtrans_col_index(img_col: usize) -> (r: usize)
    requires
        img_col < 0x40000000,
    ensures
        r as int == spec_col_index(img_col as int),
{
    let c = img_col;
    let t: usize = c * 2 / 3;
    let m: usize = c % 3;
    let u: usize = t & 0x7FFFFFFE;
    proof {
        let q = c / 3;
        assert(c == 3 * q + m && m < 3);
        assert(t == 2 * q + (if m == 2 { 1int } else { 0 }));
        assert(t < 0x80000000);
        assert(t < 0x80000000 ==> (t & 0x7FFFFFFE) == t - t % 2) by (bit_vector);
        assert(m < 3 ==> (m & 1) == m % 2 && (m >> 1) == m / 2) by (bit_vector);
        assert(u % 2 == 0 && (m & 1) <= 1 ==> (u | (m & 1)) == u + (m & 1)) by (bit_vector);
    }
    let r = (u | (m & 1)) + (m >> 1);
    r
}

/// Colour (0 red, 1 green, 2 blue) of the X-Trans pattern at `row`, `col`
/// of a 6x6 cell.
pub open spec fn spec_cfa(row: int, col: int) -> int {
    let t = seq![
        seq![1int, 1int, 0int, 1int, 1int, 2int],  // GGRGGB
        seq![1int, 1int, 2int, 1int, 1int, 0int],  // GGBGGR
        seq![2int, 0int, 1int, 0int, 2int, 1int],  // BRGRBG
        seq![1int, 1int, 2int, 1int, 1int, 0int],  // GGBGGR
        seq![1int, 1int, 0int, 1int, 1int, 2int],  // GGRGGB
        seq![0int, 2int, 1int, 2int, 0int, 1int],  // RBGBRG
    ];
    t[row][col]
}

fn xtrans_cfa(row: usize, col: usize) -> (r: u8)
    requires
        row < 6,
        col < 6,
    ensures
        r as int == spec_cfa(row as int, col as int),
{
    let r: u8 = match row {
        0 => match col { 0 => 1, 1 => 1, 2 => 0, 3 => 1, 4 => 1, _ => 2 },
        1 => match col { 0 => 1, 1 => 1, 2 => 2, 3 => 1, 4 => 1, _ => 0 },
        2 => match col { 0 => 2, 1 => 0, 2 => 1, 3 => 0, 4 => 2, _ => 1 },
        3 => match col { 0 => 1, 1 => 1, 2 => 2, 3 => 1, 4 => 1, _ => 0 },
        4 => match col { 0 => 1, 1 => 1, 2 => 0, 3 => 1, 4 => 1, _ => 2 },
        _ => match col { 0 => 0, 1 => 2, 2 => 1, 3 => 2, 4 => 0, _ => 1 },
    };
    r
}

/// Line of the buffer that holds row `mcu_row` of a cell for colour `color`.
pub open spec fn spec_buf_row(mcu_row: int, color: int) -> int {
    if color == 0 {
        R2 + mcu_row / 2
    } else if color == 1 {
        G2 + mcu_row
    } else {
        B2 + mcu_row / 2
    }
}

/// Whether output pixel `y`, `x` is filled by block line `cur_line` of the
/// strip of width `sw` at column `off`: whole 6-column cells only, inside
/// the image.
pub open spec fn copy_covers(sw: int, off: int, cur_line: int, w: int, h: int, y: int, x: int) -> bool {
    &&& 6 * cur_line <= y < 6 * cur_line + 6
    &&& y < h
    &&& off <= x < w
    &&& x - off < 6 * (sw / 6)
}

/// Index in the line buffer of the value for output pixel `y`, `x`.
pub open spec fn copy_src(stride: int, off: int, cur_line: int, y: int, x: int) -> int {
    let mcu_row = y - 6 * cur_line;
    let img_col = x - off;
    spec_buf_row(mcu_row, spec_cfa(mcu_row, img_col % 6)) * stride + 1 + spec_col_index(img_col)
}

/// Whether every value the copy reads lies inside the line buffer.
pub open spec fn copy_ok(len: int, stride: int, sw: int, off: int, cur_line: int, w: int, h: int) -> bool {
    forall|y: int, x: int|
        copy_covers(sw, off, cur_line, w, h, y, x) ==> #[trigger] copy_src(
            stride,
            off,
            cur_line,
            y,
            x,
        ) < len
}

/// The output image after block line `cur_line` of a strip was copied in.
pub open spec fn spec_copy(
    lines: Seq<i32>,
    stride: int,
    sw: int,
    off: int,
    cur_line: int,
    out: Seq<u16>,
    w: int,
    h: int,
) -> Seq<u16> {
    Seq::new(
        out.len(),
        |j: int|
            if copy_covers(sw, off, cur_line, w, h, j / w, j % w) {
                lines[copy_src(stride, off, cur_line, j / w, j % w)] as u16
            } else {
                out[j]
            },
    )
}

/// Positions of a `w`-wide image: `y * w + x`, one for each pixel.
pub proof fn lemma_pixel_index(y: int, x: int, w: int, h: int)
    requires
        0 <= y < h,
        0 <= x < w,
    ensures
        0 <= y * w + x < w * h,
        (y * w + x) / w == y,
        (y * w + x) % w == x,
{
    assert(0 <= y * w + x < w * h) by (nonlinear_arith)
        requires
            0 <= y < h,
            0 <= x < w,
    ;
    vstd::arithmetic::div_mod::lemma_fundamental_div_mod_converse(y * w + x, w, y, x);
}

fn copy_line_to_xtrans(
    lines: &Vec<i32>,
    stride: usize,
    strip_width: usize,
    strip_offset_x: usize,
    cur_line: usize,
    out: &mut Vec<u16>,
    out_width: usize,
    out_height: usize,
) -> (ok: bool)
    requires
        lines.len() == LTOTAL * stride,
        old(out).len() == out_width * out_height,
        strip_width < 0x10000,
        strip_offset_x < 0x1000000,
        cur_line < 0x10000,
    ensures
        final(out).len() == old(out).len(),
        ok == copy_ok(
            lines@.len() as int,
            stride as int,
            strip_width as int,
            strip_offset_x as int,
            cur_line as int,
            out_width as int,
            out_height as int,
        ),
        ok ==> final(out)@ == spec_copy(
            lines@,
            stride as int,
            strip_width as int,
            strip_offset_x as int,
            cur_line as int,
            old(out)@,
            out_width as int,
            out_height as int,
        ),
{
    let ghost sw = strip_width as int;
    let ghost off = strip_offset_x as int;
    let ghost cl = cur_line as int;
    let ghost w = out_width as int;
    let ghost h = out_height as int;
    let ghost len = lines@.len() as int;
    let ghost st = stride as int;
    let num_cols = 6 * (strip_width / 6);
    let mut mcu_row: usize = 0;
    while mcu_row < 6
        invariant
            mcu_row <= 6,
            num_cols == 6 * (sw / 6),
            out.len() == out_width * out_height,
            old(out).len() == out_width * out_height,
            lines.len() == LTOTAL * stride,
            strip_width < 0x10000,
            strip_offset_x < 0x1000000,
            cur_line < 0x10000,
            sw == strip_width,
            off == strip_offset_x,
            cl == cur_line,
            w == out_width,
            h == out_height,
            len == lines@.len(),
            st == stride,
            forall|y: int, x: int|
                #![trigger copy_src(st, off, cl, y, x)]
                copy_covers(sw, off, cl, w, h, y, x) && y - 6 * cl < mcu_row ==> copy_src(
                    st,
                    off,
                    cl,
                    y,
                    x,
                ) < len,
            forall|y: int, x: int|
                #![trigger out@[y * w + x]]
                0 <= y < h && 0 <= x < w ==> out@[y * w + x] == if copy_covers(sw, off, cl, w, h, y, x)
                    && y - 6 * cl < mcu_row {
                    lines@[copy_src(st, off, cl, y, x)] as u16
                } else {
                    old(out)@[y * w + x]
                },
        decreases 6 - mcu_row,
    {
        let out_y = 6 * cur_line + mcu_row;
        if out_y < out_height {
            let mut img_col: usize = 0;
            while img_col < num_cols
                invariant
                    mcu_row < 6,
                    out_y == 6 * cur_line + mcu_row,
                    out_y < out_height,
                    img_col <= num_cols,
                    num_cols == 6 * (sw / 6),
                    out.len() == out_width * out_height,
                    old(out).len() == out_width * out_height,
                    lines.len() == LTOTAL * stride,
                    strip_width < 0x10000,
                    strip_offset_x < 0x1000000,
                    cur_line < 0x10000,
                    sw == strip_width,
                    off == strip_offset_x,
                    cl == cur_line,
                    w == out_width,
                    h == out_height,
                    len == lines@.len(),
                    st == stride,
                    forall|y: int, x: int|
                        #![trigger copy_src(st, off, cl, y, x)]
                        copy_covers(sw, off, cl, w, h, y, x) && (y - 6 * cl < mcu_row || (y - 6
                            * cl == mcu_row && x - off < img_col)) ==> copy_src(st, off, cl, y, x)
                            < len,
                    forall|y: int, x: int|
                        #![trigger out@[y * w + x]]
                        0 <= y < h && 0 <= x < w ==> out@[y * w + x] == if copy_covers(
                            sw,
                            off,
                            cl,
                            w,
                            h,
                            y,
                            x,
                        ) && (y - 6 * cl < mcu_row || (y - 6 * cl == mcu_row && x - off
                            < img_col)) {
                            lines@[copy_src(st, off, cl, y, x)] as u16
                        } else {
                            old(out)@[y * w + x]
                        },
                decreases num_cols - img_col,
            {
                let out_x = strip_offset_x + img_col;
                if out_x < out_width {
                    let color = xtrans_cfa(mcu_row, img_col % 6);
                    assert(mcu_row >> 1 == mcu_row / 2) by (bit_vector)
                        requires
                            mcu_row < 6,
                    ;
                    let row = match color {
                        0 => R2 + (mcu_row >> 1),
                        1 => G2 + mcu_row,
                        _ => B2 + (mcu_row >> 1),
                    };
                    proof {
                        reveal_with_fuel(spec_cfa, 1);
                        assert(spec_cfa(mcu_row as int, (img_col % 6) as int) <= 2);
                    }
                    let buf_col = 1 + xtrans_col_index(img_col);
                    let ghost yy = out_y as int;
                    let ghost xx = out_x as int;
                    assert(copy_src(st, off, cl, yy, xx) == row * stride + buf_col);
                    assert(row < LTOTAL);
                    proof {
                        if stride > 0 {
                            lemma_line_index(row as int, 0, stride as int);
                        }
                    }
                    if buf_col >= lines.len() || row * stride >= lines.len() - buf_col {
                        assert(copy_covers(sw, off, cl, w, h, yy, xx));
                        assert(copy_src(st, off, cl, yy, xx) >= len);
                        return false;
                    }
                    let val = lines[row * stride + buf_col];
                    proof {
                        lemma_pixel_index(yy, xx, w, h);
                    }
                    let ghost prev = out@;
                    out.set(out_y * out_width + out_x, val as u16);
                    proof {
                        assert forall|y: int, x: int|
                            0 <= y < h && 0 <= x < w implies #[trigger] out@[y * w + x] == if copy_covers(
                                sw,
                                off,
                                cl,
                                w,
                                h,
                                y,
                                x,
                            ) && (y - 6 * cl < mcu_row || (y - 6 * cl == mcu_row && x - off
                                < img_col + 1)) {
                                lines@[copy_src(st, off, cl, y, x)] as u16
                            } else {
                                old(out)@[y * w + x]
                            } by {
                            lemma_pixel_index(y, x, w, h);
                            if y != yy || x != xx {
                                lemma_index_distinct(y, x, yy, xx, w, h);
                                assert(out@[y * w + x] == prev[y * w + x]);
                            }
                        }
                    }
                } else {
                    proof {
                        assert forall|y: int, x: int|
                            0 <= y < h && 0 <= x < w implies #[trigger] out@[y * w + x] == if copy_covers(
                                sw,
                                off,
                                cl,
                                w,
                                h,
                                y,
                                x,
                            ) && (y - 6 * cl < mcu_row || (y - 6 * cl == mcu_row && x - off
                                < img_col + 1)) {
                                lines@[copy_src(st, off, cl, y, x)] as u16
                            } else {
                                old(out)@[y * w + x]
                            } by {
                            if y - 6 * cl == mcu_row && x - off == img_col {
                                assert(!copy_covers(sw, off, cl, w, h, y, x));
                            }
                        }
                    }
                }
                img_col = img_col + 1;
            }
        }
        mcu_row = mcu_row + 1;
    }
    proof {
        assert forall|j: int| 0 <= j < out@.len() implies #[trigger] out@[j] == spec_copy(
            lines@,
            st,
            sw,
            off,
            cl,
            old(out)@,
            w,
            h,
        )[j] by {
            lemma_split_index(j, w, h);
            let y = j / w;
            let x = j % w;
            assert(out@[y * w + x] == out@[j]);
        }
        assert(out@ =~= spec_copy(lines@, st, sw, off, cl, old(out)@, w, h));
    }
    true
}


/// Copying samples of at most `m` into an image of samples of at most `m`
/// leaves all samples at most `m`.
pub proof fn lemma_copy_bound(
    lines: Seq<i32>,
    stride: int,
    sw: int,
    off: int,
    cur_line: int,
    out: Seq<u16>,
    w: int,
    h: int,
    m: int,
)
    requires
        copy_ok(lines.len() as int, stride, sw, off, cur_line, w, h),
        0 <= stride,
        m <= 0xFFFF,
        forall|k: int| 0 <= k < lines.len() ==> 0 <= #[trigger] lines[k] <= m,
        forall|j: int| 0 <= j < out.len() ==> #[trigger] out[j] <= m,
    ensures
        forall|j: int|
            0 <= j < out.len() ==> #[trigger] spec_copy(lines, stride, sw, off, cur_line, out, w, h)[j]
                <= m,
{
    assert forall|j: int| 0 <= j < out.len() implies #[trigger] spec_copy(
        lines,
        stride,
        sw,
        off,
        cur_line,
        out,
        w,
        h,
    )[j] <= m by {
        let y = j / w;
        let x = j % w;
        if copy_covers(sw, off, cur_line, w, h, y, x) {
            let mcu_row = y - 6 * cur_line;
            let img_col = x - off;
            let r = spec_buf_row(mcu_row, spec_cfa(mcu_row, img_col % 6));
            reveal_with_fuel(spec_cfa, 1);
            assert(r >= 0);
            assert(r * stride >= 0) by (nonlinear_arith)
                requires
                    r >= 0,
                    stride >= 0,
            ;
            assert(img_col / 3 >= 0);
            let k = copy_src(stride, off, cur_line, y, x);
            assert(0 <= k < lines.len());
            let v = lines[k];
            assert(0 <= v <= m);
            assert((v as u16) as int == v as int);
        }
    }
}

/// Distinct pixels have distinct positions.
pub proof fn lemma_index_distinct(y1: int, x1: int, y2: int, x2: int, w: int, h: int)
    requires
        0 <= y1 < h,
        0 <= x1 < w,
        0 <= y2 < h,
        0 <= x2 < w,
        y1 != y2 || x1 != x2,
    ensures
        y1 * w + x1 != y2 * w + x2,
{
    lemma_pixel_index(y1, x1, w, h);
    lemma_pixel_index(y2, x2, w, h);
}

/// Every position of a `w`-wide image is that of one pixel.
pub proof fn lemma_split_index(j: int, w: int, h: int)
    requires
        0 <= j < w * h,
        0 <= w,
        0 <= h,
    ensures
        w > 0,
        0 <= j / w < h,
        0 <= j % w < w,
        j == (j / w) * w + j % w,
{
    assert(w > 0) by (nonlinear_arith)
        requires
            0 <= j < w * h,
            0 <= w,
            0 <= h,
    ;
    vstd::arithmetic::div_mod::lemma_fundamental_div_mod(j, w);
    vstd::arithmetic::div_mod::lemma_div_pos_is_pos(j, w);
    vstd::arithmetic::div_mod::lemma_mod_bound(j, w);
    let q = j / w;
    let r = j % w;
    assert(j == q * w + r) by (nonlinear_arith)
        requires
            j == w * q + r,
    ;
    assert(q < h) by (nonlinear_arith)
        requires
            j == q * w + r,
            0 <= r,
            j < w * h,
            w > 0,
    ;
}

// ---------------------------------------------------------------------------
// Strip decoder
// ---------------------------------------------------------------------------

/// A vector of `n` copies of `v`.
fn filled<T: Copy>(n: usize, v: T) -> (r: Vec<T>)
    ensures
        r@ == Seq::new(n as nat, |j: int| v),
{
    let mut r: Vec<T> = Vec::with_capacity(n);
    let mut i: usize = 0;
    while i < n
        invariant
            i <= n,
            r@ == Seq::new(i as nat, |j: int| v),
        decreases n - i,
    {
        r.push(v);
        i = i + 1;
        assert(r@ =~= Seq::new(i as nat, |j: int| v));
    }
    r
}

/// The buffer with lines `dst` and `dst + 1` replaced by lines `src` and `src + 1`.
pub open spec fn spec_copy_rows(lines: Seq<i32>, stride: int, dst: int, src: int) -> Seq<i32> {
    Seq::new(
        lines.len(),
        |j: int|
            if dst * stride <= j < dst * stride + 2 * stride {
                lines[j - dst * stride + src * stride]
            } else {
                lines[j]
            },
    )
}

/// The last helper column of line `row` set from the last sample of line `row - 1`.
pub open spec fn spec_helper(lines: Seq<i32>, stride: int, row: int) -> Seq<i32> {
    lines.update(row * stride + stride - 1, lines[(row - 1) * stride + stride - 2])
}

/// The line buffer between two block lines: the last two lines of each
/// colour become its first two, and the helper column of the first line to
/// be decoded is set.
pub open spec fn spec_rotate(lines: Seq<i32>, stride: int) -> Seq<i32> {
    let l = spec_copy_rows(
        spec_copy_rows(spec_copy_rows(lines, stride, R0 as int, 3), stride, G0 as int, 11),
        stride,
        B0 as int,
        16,
    );
    spec_helper(spec_helper(spec_helper(l, stride, 2), stride, 7), stride, 15)
}

fn copy_two_rows(lines: &mut Vec<i32>, stride: usize, dst: usize, src: usize)
    requires
        old(lines).len() == LTOTAL * stride,
        dst + 2 <= src,
        src + 2 <= LTOTAL,
    ensures
        final(lines)@ == spec_copy_rows(old(lines)@, stride as int, dst as int, src as int),
{
    proof {
        assert(src * stride + 2 * stride <= LTOTAL * stride && dst * stride + 2 * stride <= src
            * stride) by (nonlinear_arith)
            requires
                dst + 2 <= src,
                src + 2 <= 18,
                0 <= stride,
        ;
    }
    let src_off = src * stride;
    let dst_off = dst * stride;
    let mut i: usize = 0;
    while i < 2 * stride
        invariant
            lines.len() == LTOTAL * stride,
            i <= 2 * stride,
            src_off == src * stride,
            dst_off == dst * stride,
            src_off + 2 * stride <= LTOTAL * stride,
            dst_off + 2 * stride <= src_off,
            lines@ == Seq::new(
                old(lines)@.len(),
                |j: int|
                    if dst_off <= j < dst_off + i {
                        old(lines)@[j - dst_off + src_off]
                    } else {
                        old(lines)@[j]
                    },
            ),
        decreases 2 * stride - i,
    {
        let v = lines[src_off + i];
        lines.set(dst_off + i, v);
        i = i + 1;
        assert(lines@ =~= Seq::new(
            old(lines)@.len(),
            |j: int|
                if dst_off <= j < dst_off + i {
                    old(lines)@[j - dst_off + src_off]
                } else {
                    old(lines)@[j]
                },
        ));
    }
    assert(lines@ =~= spec_copy_rows(old(lines)@, stride as int, dst as int, src as int));
}

fn set_helper(lines: &mut Vec<i32>, stride: usize, row: usize)
    requires
        old(lines).len() == LTOTAL * stride,
        1 <= row < LTOTAL,
        2 <= stride,
    ensures
        final(lines)@ == spec_helper(old(lines)@, stride as int, row as int),
{
    proof {
        lemma_line_index(row as int, stride - 1, stride as int);
        lemma_line_index(row - 1, stride - 2, stride as int);
    }
    let v = lines[(row - 1) * stride + stride - 2];
    lines.set(row * stride + stride - 1, v);
}

/// Moving values around keeps the buffer in range.
pub proof fn lemma_rotate_keeps_ok(p: ParamsModel, lines: Seq<i32>, stride: int)
    requires
        lines_ok(p, lines),
        lines.len() == LTOTAL * stride,
        2 <= stride,
    ensures
        lines_ok(p, spec_rotate(lines, stride)),
        spec_rotate(lines, stride).len() == lines.len(),
{
    assert forall|lines: Seq<i32>, dst: int, src: int|
        lines_ok(p, lines) && lines.len() == LTOTAL * stride && 0 <= dst && dst + 2 <= src && src
            + 2 <= LTOTAL implies #[trigger] lines_ok(p, spec_copy_rows(lines, stride, dst, src))
        by {
        assert forall|j: int| 0 <= j < lines.len() implies 0 <= #[trigger] spec_copy_rows(
            lines,
            stride,
            dst,
            src,
        )[j] <= max_value(p) by {
            if dst * stride <= j < dst * stride + 2 * stride {
                assert(0 <= j - dst * stride + src * stride < lines.len()) by (nonlinear_arith)
                    requires
                        dst * stride <= j < dst * stride + 2 * stride,
                        dst + 2 <= src,
                        src + 2 <= 18,
                        lines.len() == 18 * stride,
                        0 <= dst,
                ;
            }
        }
    }
    assert forall|lines: Seq<i32>, row: int|
        lines_ok(p, lines) && lines.len() == LTOTAL * stride && 1 <= row < LTOTAL implies #[trigger] lines_ok(
            p,
            spec_helper(lines, stride, row),
        ) by {
        lemma_line_index(row, stride - 1, stride);
        lemma_line_index(row - 1, stride - 2, stride);
        lemma_lines_update_ok(
            p,
            lines,
            row * stride + stride - 1,
            lines[(row - 1) * stride + stride - 2] as int,
        );
    }
    let l1 = spec_copy_rows(lines, stride, R0 as int, 3);
    let l2 = spec_copy_rows(l1, stride, G0 as int, 11);
    let l3 = spec_copy_rows(l2, stride, B0 as int, 16);
    assert(lines_ok(p, l1));
    assert(lines_ok(p, l2));
    assert(lines_ok(p, l3));
    assert(lines_ok(p, spec_helper(l3, stride, 2)));
    assert(lines_ok(p, spec_helper(spec_helper(l3, stride, 2), stride, 7)));
}

fn rotate_lines(lines: &mut Vec<i32>, stride: usize)
    requires
        old(lines).len() == LTOTAL * stride,
        2 <= stride,
    ensures
        final(lines)@ == spec_rotate(old(lines)@, stride as int),
{
    // Rotate: last 2 lines of each color → first 2
    copy_two_rows(lines, stride, R0, R0 + 5 - 2);
    copy_two_rows(lines, stride, G0, G0 + 8 - 2);
    copy_two_rows(lines, stride, B0, B0 + 5 - 2);
    // Set helper column for first decoded line
    set_helper(lines, stride, R0 + 2);
    set_helper(lines, stride, G0 + 2);
    set_helper(lines, stride, B0 + 2);
}

/// The decoder state at the start of a strip: an all-zero line buffer and
/// fresh statistics in every context.
pub open spec fn spec_initial_state(p: ParamsModel, stride: int) -> DecodeState {
    DecodeState {
        lines: Seq::new((LTOTAL * stride) as nat, |j: int| 0i32),
        pos: 0,
        even: Seq::new((3 * NGRADS) as nat, |j: int| GradPair { value1: p.max_diff as i32, value2: 1 }),
        odd: Seq::new((3 * NGRADS) as nat, |j: int| GradPair { value1: p.max_diff as i32, value2: 1 }),
    }
}

/// Block line `cur_line` of a strip: the line buffer is rotated (except
/// for the first), six rows are decoded and copied into the image. `None`
/// where the stream ends or a copied value would lie outside the buffer.
pub open spec fn spec_strip_line(
    p: ParamsModel,
    s: Seq<u8>,
    st: DecodeState,
    out: Seq<u16>,
    cur_line: int,
    sw: int,
    off: int,
    w: int,
    h: int,
) -> Option<(DecodeState, Seq<u16>)> {
    let stride = p.line_width + 2;
    let st1 = if cur_line > 0 {
        DecodeState { lines: spec_rotate(st.lines, stride), ..st }
    } else {
        st
    };
    match spec_block_prefix(p, s, st1, stride, p.line_width / 2, 6) {
        None => None,
        Some(st2) => if copy_ok(st2.lines.len() as int, stride, sw, off, cur_line, w, h) {
            Some((st2, spec_copy(st2.lines, stride, sw, off, cur_line, out, w, h)))
        } else {
            None
        },
    }
}

/// The first `n` block lines of a strip.
pub open spec fn spec_strip_prefix(
    p: ParamsModel,
    s: Seq<u8>,
    out0: Seq<u16>,
    sw: int,
    off: int,
    w: int,
    h: int,
    n: int,
) -> Option<(DecodeState, Seq<u16>)>
    decreases n,
{
    if n <= 0 {
        Some((spec_initial_state(p, p.line_width + 2), out0))
    } else {
        match spec_strip_prefix(p, s, out0, sw, off, w, h, n - 1) {
            Some((st, out)) => spec_strip_line(p, s, st, out, n - 1, sw, off, w, h),
            None => None,
        }
    }
}

/// The image after the strip of width `sw` at column `off` was decoded from
/// the stream `s` into it; `None` where decoding fails.
pub open spec fn spec_decode_strip(
    p: ParamsModel,
    s: Seq<u8>,
    out0: Seq<u16>,
    sw: int,
    off: int,
    w: int,
    h: int,
    total_lines: int,
) -> Option<Seq<u16>> {
    match spec_strip_prefix(p, s, out0, sw, off, w, h, total_lines) {
        Some((_, out)) => Some(out),
        None => None,
    }
}

/// Whether image column `x` lies in the whole 6-column cells of the strip
/// of width `sw` at column `off`.
pub open spec fn in_strip_columns(sw: int, off: int, x: int) -> bool {
    off <= x && x - off < 6 * (sw / 6)
}

/// Decoding the first `n` block lines of a strip leaves the image as long
/// as it was and changes no pixel outside the strip's columns, nor any
/// pixel below those `n` block lines.
pub proof fn lemma_strip_frame(
    p: ParamsModel,
    s: Seq<u8>,
    out0: Seq<u16>,
    sw: int,
    off: int,
    w: int,
    h: int,
    n: int,
)
    requires
        0 < w,
        0 <= n,
        spec_strip_prefix(p, s, out0, sw, off, w, h, n) is Some,
    ensures
        ({
            let out = spec_strip_prefix(p, s, out0, sw, off, w, h, n).unwrap().1;
            &&& out.len() == out0.len()
            &&& forall|j: int|
                0 <= j < out0.len() && (!in_strip_columns(sw, off, j % w) || j / w >= 6 * n)
                    ==> #[trigger] out[j] == out0[j]
        }),
    decreases n,
{
    if n > 0 {
        lemma_strip_frame(p, s, out0, sw, off, w, h, n - 1);
    }
}

/// Once a strip has failed to decode it stays failed.
pub proof fn lemma_strip_prefix_none(
    p: ParamsModel,
    s: Seq<u8>,
    out0: Seq<u16>,
    sw: int,
    off: int,
    w: int,
    h: int,
    n: int,
    m: int,
)
    requires
        n <= m,
        spec_strip_prefix(p, s, out0, sw, off, w, h, n) is None,
    ensures
        spec_strip_prefix(p, s, out0, sw, off, w, h, m) is None,
    decreases m - n,
{
    if n < m {
        lemma_strip_prefix_none(p, s, out0, sw, off, w, h, n, m - 1);
    }
}

fn decode_strip(
    src: &[u8],
    header: &FujiHeader,
    params: &FujiParams,
    strip_width: usize,
    strip_offset_x: usize,
    out: &mut Vec<u16>,
    out_width: usize,
    out_height: usize,
) -> (ok: bool)
    requires
        params_wf(*params),
        params.line_width <= 0xFFFF,
        header.total_lines <= 0xFFFF,
        strip_width < 0x10000,
        strip_offset_x < 0x1000000,
        old(out).len() == out_width * out_height,
        forall|j: int| 0 <= j < old(out)@.len() ==> #[trigger] old(out)@[j] <= max_value(params@),
    ensures
        final(out).len() == old(out).len(),
        ok ==> forall|j: int|
            0 <= j < final(out)@.len() ==> #[trigger] final(out)@[j] <= max_value(params@),
        ok == spec_decode_strip(
            params@,
            src@,
            old(out)@,
            strip_width as int,
            strip_offset_x as int,
            out_width as int,
            out_height as int,
            header.total_lines as int,
        ) is Some,
        ok ==> spec_decode_strip(
            params@,
            src@,
            old(out)@,
            strip_width as int,
            strip_offset_x as int,
            out_width as int,
            out_height as int,
            header.total_lines as int,
        ) == Some(final(out)@),
{
    let stride = params.line_width + 2;
    let mut lines = filled(LTOTAL * stride, 0i32);

    let init = GradPair { value1: params.max_diff, value2: 1 };
    let mut grad_even = filled(3 * NGRADS, init);
    let mut grad_odd = filled(3 * NGRADS, init);

    let mut pump = BitPumpMSB::new(src);
    let ghost s = src@;
    let ghost sw = strip_width as int;
    let ghost off = strip_offset_x as int;
    let ghost w = out_width as int;
    let ghost h = out_height as int;
    proof {
        assert(lines@ =~= spec_initial_state(params@, stride as int).lines);
        assert(grad_even@ =~= spec_initial_state(params@, stride as int).even);
        assert(grad_odd@ =~= spec_initial_state(params@, stride as int).odd);
    }

    let mut cur_line: usize = 0;
    while cur_line < header.total_lines
        invariant
            params_wf(*params),
            params.line_width <= 0xFFFF,
            stride == params.line_width + 2,
            header.total_lines <= 0xFFFF,
            strip_width < 0x10000,
            strip_offset_x < 0x1000000,
            cur_line <= header.total_lines,
            out.len() == out_width * out_height,
            old(out).len() == out_width * out_height,
            pump.wf(),
            pump.data() == s,
            s == src@,
            sw == strip_width,
            off == strip_offset_x,
            w == out_width,
            h == out_height,
            state_ok(params@, state_of(lines@, pump.pos(), grad_even@, grad_odd@), stride as int),
            spec_strip_prefix(params@, s, old(out)@, sw, off, w, h, cur_line as int) == Some(
                (state_of(lines@, pump.pos(), grad_even@, grad_odd@), out@),
            ),
            forall|j: int| 0 <= j < out@.len() ==> #[trigger] out@[j] <= max_value(params@),
        decreases header.total_lines - cur_line,
    {
        if cur_line > 0 {
            proof {
                lemma_rotate_keeps_ok(params@, lines@, stride as int);
            }
            rotate_lines(&mut lines, stride);
        }
        let ghost st1 = state_of(lines@, pump.pos(), grad_even@, grad_odd@);
        if !xtrans_decode_block(&mut pump, params, &mut lines, stride, &mut grad_even, &mut grad_odd) {
            proof {
                lemma_strip_prefix_none(params@, s, old(out)@, sw, off, w, h, cur_line + 1, header.total_lines as int);
            }
            return false;
        }
        let ghost out_before = out@;
        if !copy_line_to_xtrans(&lines, stride, strip_width, strip_offset_x, cur_line, out, out_width, out_height) {
            proof {
                lemma_strip_prefix_none(params@, s, old(out)@, sw, off, w, h, cur_line + 1, header.total_lines as int);
            }
            return false;
        }
        proof {
            lemma_copy_bound(
                lines@,
                stride as int,
                sw,
                off,
                cur_line as int,
                out_before,
                w,
                h,
                max_value(params@),
            );
        }
        cur_line = cur_line + 1;
    }
    true
}

// ---------------------------------------------------------------------------
// Public API
// ---------------------------------------------------------------------------

/// Bytes of alignment padding after a strip size table of `raw_offset` bytes.
pub open spec fn spec_padding(raw_offset: int) -> int {
    if raw_offset % 16 != 0 {
        16 - raw_offset % 16
    } else {
        0
    }
}

/// The image after the first `k` strips, and where the next strip's data
/// starts; `None` where a strip's data runs past the end of `src`, the last
/// strip is narrower than nothing, or a strip fails to decode.
pub open spec fn spec_strips(
    src: Seq<u8>,
    p: ParamsModel,
    raw_width: int,
    block_size: int,
    blocks_in_row: int,
    total_lines: int,
    w: int,
    h: int,
    k: int,
) -> Option<(Seq<u16>, int)>
    decreases k,
{
    if k <= 0 {
        Some(
            (
                Seq::new((w * h) as nat, |j: int| 0u16),
                16 + 4 * blocks_in_row + spec_padding(4 * blocks_in_row),
            ),
        )
    } else {
        match spec_strips(src, p, raw_width, block_size, blocks_in_row, total_lines, w, h, k - 1) {
            None => None,
            Some((out, data_off)) => {
                let block = k - 1;
                let strip_end = data_off + spec_be_u32(src, 16 + 4 * block);
                let strip_width = if block + 1 < blocks_in_row {
                    block_size
                } else {
                    raw_width - block_size * block
                };
                if strip_end > src.len() || strip_width < 0 {
                    None
                } else {
                    match spec_decode_strip(
                        p,
                        src.subrange(data_off, strip_end),
                        out,
                        strip_width,
                        block_size * block,
                        w,
                        h,
                        total_lines,
                    ) {
                        Some(out2) => Some((out2, strip_end)),
                        None => None,
                    }
                }
            },
        }
    }
}

/// The strips' data follows the strip size table: the first strip starts
/// at `16 + 4 * blocks_in_row` rounded up to a multiple of 16 (so with no
/// padding where that is already one), and each next strip starts where the
/// one before ends, after as many bytes as its table entry gives.
pub proof fn lemma_strip_starts(
    src: Seq<u8>,
    p: ParamsModel,
    raw_width: int,
    block_size: int,
    blocks_in_row: int,
    total_lines: int,
    w: int,
    h: int,
    k: int,
)
    requires
        0 <= blocks_in_row,
        0 <= k,
        spec_strips(src, p, raw_width, block_size, blocks_in_row, total_lines, w, h, k + 1) is Some,
    ensures
        ({
            let d0 = spec_strips(src, p, raw_width, block_size, blocks_in_row, total_lines, w, h, 0).unwrap().1;
            &&& d0 % 16 == 0
            &&& 16 + 4 * blocks_in_row <= d0 < 16 + 4 * blocks_in_row + 16
            &&& (16 + 4 * blocks_in_row) % 16 == 0 ==> d0 == 16 + 4 * blocks_in_row
        }),
        spec_strips(src, p, raw_width, block_size, blocks_in_row, total_lines, w, h, k + 1).unwrap().1
            == spec_strips(src, p, raw_width, block_size, blocks_in_row, total_lines, w, h, k).unwrap().1
            + spec_be_u32(src, 16 + 4 * k),
{
}

/// Width of strip `b`: the block size, but the last strip takes what is
/// left of the raw width.
pub open spec fn spec_strip_width(raw_width: int, block_size: int, blocks_in_row: int, b: int) -> int {
    if b + 1 < blocks_in_row {
        block_size
    } else {
        raw_width - block_size * b
    }
}

/// The image that the first `k` strips give keeps the size `w * h`, and
/// every pixel in no column of those strips, or below the strips' block
/// lines, stays 0.
pub proof fn lemma_strips_zero_outside(
    src: Seq<u8>,
    p: ParamsModel,
    raw_width: int,
    block_size: int,
    blocks_in_row: int,
    total_lines: int,
    w: int,
    h: int,
    k: int,
)
    requires
        0 < w,
        0 <= h,
        0 <= total_lines,
        0 <= k,
        spec_strips(src, p, raw_width, block_size, blocks_in_row, total_lines, w, h, k) is Some,
    ensures
        ({
            let out = spec_strips(src, p, raw_width, block_size, blocks_in_row, total_lines, w, h, k).unwrap().0;
            &&& out.len() == w * h
            &&& forall|j: int|
                0 <= j < w * h && (j / w >= 6 * total_lines || forall|b: int|
                    0 <= b < k ==> !#[trigger] in_strip_columns(
                        spec_strip_width(raw_width, block_size, blocks_in_row, b),
                        block_size * b,
                        j % w,
                    )) ==> #[trigger] out[j] == 0
        }),
    decreases k,
{
    if k > 0 {
        lemma_strips_zero_outside(src, p, raw_width, block_size, blocks_in_row, total_lines, w, h, k - 1);
        let (out, data_off) = spec_strips(src, p, raw_width, block_size, blocks_in_row, total_lines, w, h, k - 1).unwrap();
        let block = k - 1;
        let strip_end = data_off + spec_be_u32(src, 16 + 4 * block);
        let sw = spec_strip_width(raw_width, block_size, blocks_in_row, block);
        let s = src.subrange(data_off, strip_end);
        lemma_strip_frame(p, s, out, sw, block_size * block, w, h, total_lines);
        let out2 = spec_strips(src, p, raw_width, block_size, blocks_in_row, total_lines, w, h, k).unwrap().0;
        assert(out2 == spec_strip_prefix(p, s, out, sw, block_size * block, w, h, total_lines).unwrap().1);
        assert forall|j: int|
            0 <= j < w * h && (j / w >= 6 * total_lines || forall|b: int|
                0 <= b < k ==> !#[trigger] in_strip_columns(
                    spec_strip_width(raw_width, block_size, blocks_in_row, b),
                    block_size * b,
                    j % w,
                )) implies #[trigger] out2[j] == 0 by {
            if j / w < 6 * total_lines {
                assert(!in_strip_columns(sw, block_size * block, j % w));
                assert forall|b: int| 0 <= b < k - 1 implies !#[trigger] in_strip_columns(
                    spec_strip_width(raw_width, block_size, blocks_in_row, b),
                    block_size * b,
                    j % w,
                ) by {}
            }
            assert(out2[j] == out[j]);
        }
    }
}

/// The `width` x `height` image held by the compressed data `src`, or
/// `None` where `src` is not a valid X-Trans compressed stream.
pub open spec fn spec_decode_fuji(src: Seq<u8>, width: int, height: int) -> Option<Seq<u16>> {
    if src.len() < 16 {
        None
    } else {
        let raw_bits = src[4] as int;
        let raw_width = spec_be_u16(src, 9) as int;
        let block_size = spec_be_u16(src, 11) as int;
        let blocks_in_row = src[13] as int;
        let total_lines = spec_be_u16(src, 14) as int;
        if spec_be_u16(src, 0) != 0x4953 || src[2] != 1 || src[3] != 16 {
            None
        } else if block_size == 0 || blocks_in_row == 0 || total_lines == 0 {
            None
        } else if raw_bits != 14 && raw_bits != 16 {
            None
        } else if 16 + 4 * blocks_in_row > src.len() {
            None
        } else {
            match spec_strips(
                src,
                spec_model(raw_bits, block_size),
                raw_width,
                block_size,
                blocks_in_row,
                total_lines,
                width,
                height,
                blocks_in_row,
            ) {
                Some((out, _)) => Some(out),
                None => None,
            }
        }
    }
}

/// A stream decodes only where its 16-byte header has the signature
/// 0x49 0x53, version 1 and raw type 16, 14- or 16-bit samples, a nonzero
/// block size, block count and line count, and its strip size table fits
/// in the data; the image then has `width * height` pixels.
pub proof fn lemma_decoded_header(src: Seq<u8>, width: int, height: int)
    requires
        0 < width,
        0 <= height,
        spec_decode_fuji(src, width, height) is Some,
    ensures
        src.len() >= 16,
        spec_be_u16(src, 0) == 0x4953,
        src[2] == 1,
        src[3] == 16,
        src[4] == 14 || src[4] == 16,
        spec_be_u16(src, 11) > 0,
        src[13] > 0,
        spec_be_u16(src, 14) > 0,
        16 + 4 * src[13] <= src.len(),
        spec_decode_fuji(src, width, height).unwrap().len() == width * height,
{
    let raw_bits = src[4] as int;
    let block_size = spec_be_u16(src, 11) as int;
    let blocks_in_row = src[13] as int;
    lemma_strips_zero_outside(
        src,
        spec_model(raw_bits, block_size),
        spec_be_u16(src, 9) as int,
        block_size,
        blocks_in_row,
        spec_be_u16(src, 14) as int,
        width,
        height,
        blocks_in_row,
    );
}

/// Why the first `k` strips cannot be read, for the first strip that
/// cannot: 1 where its data runs past the end of `src`, 2 where the last
/// strip is narrower than nothing, 3 where it does not decode; 0 where all
/// can be read.
pub open spec fn spec_strips_fail(
    src: Seq<u8>,
    p: ParamsModel,
    raw_width: int,
    block_size: int,
    blocks_in_row: int,
    total_lines: int,
    w: int,
    h: int,
    k: int,
) -> int
    decreases k,
{
    if k <= 0 {
        0
    } else {
        match spec_strips(src, p, raw_width, block_size, blocks_in_row, total_lines, w, h, k - 1) {
            None => spec_strips_fail(src, p, raw_width, block_size, blocks_in_row, total_lines, w, h, k - 1),
            Some((out, data_off)) => {
                let block = k - 1;
                let strip_end = data_off + spec_be_u32(src, 16 + 4 * block);
                let strip_width = if block + 1 < blocks_in_row {
                    block_size
                } else {
                    raw_width - block_size * block
                };
                if strip_end > src.len() {
                    1
                } else if strip_width < 0 {
                    2
                } else if spec_decode_strip(
                    p,
                    src.subrange(data_off, strip_end),
                    out,
                    strip_width,
                    block_size * block,
                    w,
                    h,
                    total_lines,
                ) is None {
                    3
                } else {
                    0
                }
            },
        }
    }
}

/// Whether the header of `src` and its strip size table can be read.
pub open spec fn spec_header_ok(src: Seq<u8>) -> bool {
    &&& src.len() >= 16
    &&& spec_be_u16(src, 0) == 0x4953
    &&& src[2] == 1
    &&& src[3] == 16
    &&& spec_be_u16(src, 11) != 0
    &&& src[13] != 0
    &&& spec_be_u16(src, 14) != 0
    &&& (src[4] == 14 || src[4] == 16)
    &&& 16 + 4 * src[13] <= src.len()
}

/// The message of the error that decoding `src` ends with, where it is no
/// valid stream: the first check that fails says which.
pub open spec fn spec_decode_message(src: Seq<u8>, width: int, height: int) -> Seq<char> {
    if src.len() < 16 {
        "RAF compressed: data too short"@
    } else if spec_be_u16(src, 0) != 0x4953 || src[2] != 1 {
        "RAF compressed: bad header sig=0x"@ + spec_hex4(spec_be_u16(src, 0) as nat) + " ver="@ + spec_dec(
            src[2] as nat,
        )
    } else if src[3] != 16 {
        "RAF compressed: only X-Trans supported, got raw_type="@ + spec_dec(src[3] as nat)
    } else if spec_be_u16(src, 11) == 0 || src[13] == 0 || spec_be_u16(src, 14) == 0 {
        "RAF compressed: invalid header dimensions"@
    } else if src[4] != 14 && src[4] != 16 {
        "Unsupported raw_bits for compression: "@ + spec_dec(src[4] as nat)
    } else if 16 + 4 * src[13] > src.len() {
        "RAF compressed: data too short for block sizes"@
    } else {
        let f = spec_strips_fail(
            src,
            spec_model(src[4] as int, spec_be_u16(src, 11) as int),
            spec_be_u16(src, 9) as int,
            spec_be_u16(src, 11) as int,
            src[13] as int,
            spec_be_u16(src, 14) as int,
            width,
            height,
            src[13] as int,
        );
        if f == 1 {
            "RAF compressed: strip data extends beyond buffer"@
        } else if f == 2 {
            "RAF compressed: strip width exceeds the raw width"@
        } else {
            "RAF compressed: strip data could not be decoded"@
        }
    }
}

/// Once a strip cannot be read, the reason stays that strip's.
pub proof fn lemma_strips_fail_stays(
    src: Seq<u8>,
    p: ParamsModel,
    raw_width: int,
    block_size: int,
    blocks_in_row: int,
    total_lines: int,
    w: int,
    h: int,
    n: int,
    m: int,
)
    requires
        1 <= n <= m,
        spec_strips(src, p, raw_width, block_size, blocks_in_row, total_lines, w, h, n) is None,
    ensures
        spec_strips_fail(src, p, raw_width, block_size, blocks_in_row, total_lines, w, h, m)
            == spec_strips_fail(src, p, raw_width, block_size, blocks_in_row, total_lines, w, h, n),
    decreases m - n,
{
    if n < m {
        lemma_strips_fail_stays(src, p, raw_width, block_size, blocks_in_row, total_lines, w, h, n, m - 1);
        lemma_strips_none(src, p, raw_width, block_size, blocks_in_row, total_lines, w, h, n, m - 1);
    }
}

/// The message for a strip that cannot be read, by the reason
/// `spec_strips_fail` gives.
pub open spec fn spec_strip_message(kind: int) -> Seq<char> {
    if kind == 1 {
        "RAF compressed: strip data extends beyond buffer"@
    } else if kind == 2 {
        "RAF compressed: strip width exceeds the raw width"@
    } else {
        "RAF compressed: strip data could not be decoded"@
    }
}

fn strip_message(kind: u8) -> (m: String)
    ensures
        m@ == spec_strip_message(kind as int),
{
    if kind == 1 {
        String::from_str("RAF compressed: strip data extends beyond buffer")
    } else if kind == 2 {
        String::from_str("RAF compressed: strip width exceeds the raw width")
    } else {
        String::from_str("RAF compressed: strip data could not be decoded")
    }
}

/// With a readable header, decoding comes to what the strips come to.
proof fn lemma_decode_by_strips(src: Seq<u8>, width: int, height: int)
    requires
        spec_header_ok(src),
    ensures
        ({
            let p = spec_model(src[4] as int, spec_be_u16(src, 11) as int);
            let st = spec_strips(
                src,
                p,
                spec_be_u16(src, 9) as int,
                spec_be_u16(src, 11) as int,
                src[13] as int,
                spec_be_u16(src, 14) as int,
                width,
                height,
                src[13] as int,
            );
            &&& spec_decode_fuji(src, width, height) == match st {
                Some((out, _)) => Some(out),
                None => None,
            }
            &&& spec_decode_message(src, width, height) == spec_strip_message(
                spec_strips_fail(
                    src,
                    p,
                    spec_be_u16(src, 9) as int,
                    spec_be_u16(src, 11) as int,
                    src[13] as int,
                    spec_be_u16(src, 14) as int,
                    width,
                    height,
                    src[13] as int,
                ),
            )
        }),
{
}

/// Strip `block` of the strips read so far cannot be read, for reason
/// `kind`: then none of the stream can, and for that reason.
proof fn lemma_strip_fails(
    src: Seq<u8>,
    p: ParamsModel,
    raw_width: int,
    block_size: int,
    blocks_in_row: int,
    total_lines: int,
    w: int,
    h: int,
    block: int,
    kind: int,
)
    requires
        0 <= block < blocks_in_row,
        1 <= kind <= 3,
        spec_strips(src, p, raw_width, block_size, blocks_in_row, total_lines, w, h, block) is Some,
        ({
            let (out, data_off) = spec_strips(
                src,
                p,
                raw_width,
                block_size,
                blocks_in_row,
                total_lines,
                w,
                h,
                block,
            )->0;
            let strip_end = data_off + spec_be_u32(src, 16 + 4 * block);
            let strip_width = if block + 1 < blocks_in_row {
                block_size
            } else {
                raw_width - block_size * block
            };
            &&& (kind == 1 <==> strip_end > src.len())
            &&& (kind == 2 <==> (strip_end <= src.len() && strip_width < 0))
            &&& (kind == 3 ==> strip_end <= src.len() && strip_width >= 0 && spec_decode_strip(
                p,
                src.subrange(data_off, strip_end),
                out,
                strip_width,
                block_size * block,
                w,
                h,
                total_lines,
            ) is None)
        }),
    ensures
        spec_strips(src, p, raw_width, block_size, blocks_in_row, total_lines, w, h, blocks_in_row) is None,
        spec_strips_fail(src, p, raw_width, block_size, blocks_in_row, total_lines, w, h, blocks_in_row)
            == kind,
{
    lemma_strips_none(src, p, raw_width, block_size, blocks_in_row, total_lines, w, h, block + 1, blocks_in_row);
    lemma_strips_fail_stays(src, p, raw_width, block_size, blocks_in_row, total_lines, w, h, block + 1, blocks_in_row);
}

/// Decodes Fuji X-Trans compressed raw data into a `width` x `height`
/// image. With `dummy` set, nothing is decoded and the result is one zero.
pub fn decode_fuji_compressed(src: &[u8], width: usize, height: usize, dummy: bool) -> (r: Result<
    Vec<u16>,
    String,
>)
    requires
        !dummy && spec_header_ok(src@) ==> width * height <= usize::MAX,
    ensures
        dummy ==> (r matches Ok(v) && v@ == seq![0u16]),
        !dummy ==> match spec_decode_fuji(src@, width as int, height as int) {
            Some(img) => (r matches Ok(v) && v@ == img),
            None => (r matches Err(m) && m@ == spec_decode_message(src@, width as int, height as int)),
        },
        !dummy ==> (r matches Ok(v) ==> v@.len() == width * height && forall|j: int|
            0 <= j < v@.len() ==> #[trigger] v@[j] <= if src@[4] == 14 {
                0x3FFFint
            } else {
                0xFFFFint
            }),
{
    if dummy {
        let mut v: Vec<u16> = Vec::new();
        v.push(0);
        assert(v@ =~= seq![0u16]);
        return Ok(v);
    }
    // Parse header (big-endian, 16 bytes)
    if src.len() < 16 {
        return Err(String::from_str("RAF compressed: data too short"));
    }

    let signature = be_u16(src, 0);
    let version = src[2];
    let raw_type = src[3];

    if signature != 0x4953 || version != 1 {
        let mut m = String::from_str("RAF compressed: bad header sig=0x");
        push_hex4(&mut m, signature as u128);
        m.append(" ver=");
        push_dec(&mut m, version as u128);
        return Err(m);
    }
    if raw_type != 16 {
        let mut m = String::from_str("RAF compressed: only X-Trans supported, got raw_type=");
        push_dec(&mut m, raw_type as u128);
        return Err(m);
    }

    let raw_bits = src[4] as usize;
    let raw_height = be_u16(src, 5) as usize;
    let raw_width = be_u16(src, 9) as usize;
    let block_size = be_u16(src, 11) as usize;
    let blocks_in_row = src[13] as usize;
    let total_lines = be_u16(src, 14) as usize;

    if block_size == 0 || blocks_in_row == 0 || total_lines == 0 {
        return Err(String::from_str("RAF compressed: invalid header dimensions"));
    }

    let header = FujiHeader { raw_bits, raw_height, raw_width, block_size, blocks_in_row, total_lines };
    let params = match FujiParams::new(&header) {
        Ok(p) => p,
        Err(e) => return Err(e),
    };
    let ghost p = params@;

    // Read block sizes
    let bs_off: usize = 16;
    let mut block_sizes: Vec<usize> = Vec::with_capacity(blocks_in_row);
    let mut i: usize = 0;
    while i < blocks_in_row
        invariant
            !dummy,
            src@.len() >= 16,
            spec_be_u16(src@, 0) == 0x4953,
            src@[2] == 1,
            src@[3] == 16,
            raw_bits == src@[4],
            raw_bits == 14 || raw_bits == 16,
            raw_width == spec_be_u16(src@, 9),
            block_size == spec_be_u16(src@, 11),
            blocks_in_row == src@[13],
            total_lines == spec_be_u16(src@, 14),
            block_size != 0,
            blocks_in_row != 0,
            total_lines != 0,
            i <= blocks_in_row,
            blocks_in_row < 256,
            src.len() >= 16,
            bs_off == 16,
            16 + 4 * i <= src.len(),
            block_sizes@.len() == i,
            forall|j: int| 0 <= j < i ==> #[trigger] block_sizes@[j] == spec_be_u32(src@, 16 + 4 * j) as usize,
        decreases blocks_in_row - i,
    {
        let off = bs_off + i * 4;
        if off + 4 > src.len() {
            return Err(String::from_str("RAF compressed: data too short for block sizes"));
        }
        block_sizes.push(be_u32(src, off) as usize);
        i = i + 1;
    }

    // Compute strip data start (with alignment padding)
    let raw_offset = 4 * blocks_in_row;
    proof {
        assert(raw_offset & 0xC == raw_offset % 16) by (bit_vector)
            requires
                raw_offset == 4 * blocks_in_row,
                blocks_in_row < 256,
        ;
    }
    let padding = if raw_offset & 0xC != 0 { 0x10 - (raw_offset & 0xC) } else { 0 };
    let mut data_off = 16 + raw_offset + padding;

    // Allocate output
    let mut out = filled(width * height, 0u16);

    // Decode each strip
    let mut block: usize = 0;
    while block < blocks_in_row
        invariant
            !dummy,
            src@.len() >= 16,
            spec_be_u16(src@, 0) == 0x4953,
            src@[2] == 1,
            src@[3] == 16,
            raw_bits == src@[4],
            raw_bits == 14 || raw_bits == 16,
            raw_width == spec_be_u16(src@, 9),
            block_size == spec_be_u16(src@, 11),
            blocks_in_row == src@[13],
            total_lines == spec_be_u16(src@, 14),
            block_size != 0,
            blocks_in_row != 0,
            total_lines != 0,
            block <= blocks_in_row,
            spec_header_ok(src@),
            blocks_in_row < 256,
            1 <= block_size <= 0xFFFF,
            raw_width <= 0xFFFF,
            1 <= total_lines <= 0xFFFF,
            header.total_lines == total_lines,
            params_wf(params),
            params@ == p,
            p == spec_model(raw_bits as int, block_size as int),
            params.line_width == (block_size * 2) / 3,
            block_sizes@.len() == blocks_in_row,
            forall|j: int| 0 <= j < blocks_in_row ==> #[trigger] block_sizes@[j] == spec_be_u32(src@, 16 + 4 * j) as usize,
            out.len() == width * height,
            forall|j: int| 0 <= j < out@.len() ==> #[trigger] out@[j] <= max_value(p),
            data_off <= src.len() || block == 0,
            spec_strips(
                src@,
                p,
                raw_width as int,
                block_size as int,
                blocks_in_row as int,
                total_lines as int,
                width as int,
                height as int,
                block as int,
            ) == Some((out@, data_off as int)),
        decreases blocks_in_row - block,
    {
        let strip_size = block_sizes[block];
        if data_off > src.len() || strip_size > src.len() - data_off {
            proof {
                lemma_strip_fails(src@, p, raw_width as int, block_size as int, blocks_in_row as int, total_lines as int, width as int, height as int, block as int, 1);
                lemma_decode_by_strips(src@, width as int, height as int);
            }
            return Err(strip_message(1));
        }
        let strip_end = data_off + strip_size;

        let strip_src = vstd::slice::slice_subrange(src, data_off, strip_end);
        assert(block_size * block <= 0xFFFF * 255) by (nonlinear_arith)
            requires
                block_size <= 0xFFFF,
                block < 256,
        ;
        if block + 1 >= blocks_in_row && raw_width < block_size * block {
            proof {
                lemma_strip_fails(src@, p, raw_width as int, block_size as int, blocks_in_row as int, total_lines as int, width as int, height as int, block as int, 2);
                lemma_decode_by_strips(src@, width as int, height as int);
            }
            return Err(strip_message(2));
        }
        let strip_width = if block + 1 < blocks_in_row {
            block_size
        } else {
            raw_width - block_size * block
        };
        let strip_offset_x = block_size * block;

        if !decode_strip(strip_src, &header, &params, strip_width, strip_offset_x, &mut out, width, height) {
            proof {
                lemma_strip_fails(src@, p, raw_width as int, block_size as int, blocks_in_row as int, total_lines as int, width as int, height as int, block as int, 3);
                lemma_decode_by_strips(src@, width as int, height as int);
            }
            return Err(strip_message(3));
        }

        data_off = strip_end;
        block = block + 1;
    }

    Ok(out)
}

/// Once a strip has failed the whole stream has failed.
pub proof fn lemma_strips_none(
    src: Seq<u8>,
    p: ParamsModel,
    raw_width: int,
    block_size: int,
    blocks_in_row: int,
    total_lines: int,
    w: int,
    h: int,
    n: int,
    m: int,
)
    requires
        n <= m,
        spec_strips(src, p, raw_width, block_size, blocks_in_row, total_lines, w, h, n) is None,
    ensures
        spec_strips(src, p, raw_width, block_size, blocks_in_row, total_lines, w, h, m) is None,
    decreases m - n,
{
    if n < m {
        lemma_strips_none(src, p, raw_width, block_size, blocks_in_row, total_lines, w, h, n, m - 1);
    }
}

// ---------------------------------------------------------------------------
// Laws of the coding rules
// ---------------------------------------------------------------------------

/// The gradient classes are symmetric about the centre: a difference and
/// its negation fall in opposite classes.
pub proof fn lemma_gradient_antisymmetric(q: Seq<i32>, d: int)
    requires
        q.len() == 5,
        q[1] > 0,
        q[2] > 0,
        q[3] > 0,
    ensures
        spec_gradient(q, q[4] + d) == -spec_gradient(q, q[4] - d),
{
}

/// The number of code bits is the least number of doublings, at most 15,
/// that brings `value2` to at least `value1`.
pub proof fn lemma_bit_diff_is_least(value1: int, value2: int)
    requires
        value1 > 0,
        value2 > 0,
    ensures
        0 <= spec_bit_diff(value1, value2) <= 15,
        spec_bit_diff(value1, value2) < 15 ==> value2 * pow2(spec_bit_diff(value1, value2) as nat)
            >= value1,
        forall|d: int|
            0 <= d < spec_bit_diff(value1, value2) ==> #[trigger] (value2 * pow2(d as nat)) < value1,
{
    vstd::arithmetic::power2::lemma2_to64();
    assert(value2 * pow2(0) == value2) by (nonlinear_arith)
        requires
            pow2(0) == 1,
    ;
    lemma_doublings_least(value1, value2, value2, 0);
}

proof fn lemma_doublings_least(v1: int, v2: int, cur: int, d: int)
    requires
        0 <= d <= 15,
        cur == v2 * pow2(d as nat),
        forall|e: int| 0 <= e < d ==> #[trigger] (v2 * pow2(e as nat)) < v1,
    ensures
        d <= doublings(v1, cur, d) <= 15,
        doublings(v1, cur, d) < 15 ==> v2 * pow2(doublings(v1, cur, d) as nat) >= v1,
        forall|e: int|
            0 <= e < doublings(v1, cur, d) ==> #[trigger] (v2 * pow2(e as nat)) < v1,
    decreases 15 - d,
{
    if !(d >= 15 || cur >= v1) {
        vstd::arithmetic::power2::lemma_pow2_unfold((d + 1) as nat);
        assert(2 * cur == v2 * pow2((d + 1) as nat)) by (nonlinear_arith)
            requires
                cur == v2 * pow2(d as nat),
                pow2((d + 1) as nat) == 2 * pow2(d as nat),
        ;
        lemma_doublings_least(v1, v2, 2 * cur, d + 1);
    }
}

/// Distinct codes give distinct differences: the folding of codes into
/// signed differences loses nothing.
pub proof fn lemma_zigzag_injective(a: int, b: int)
    requires
        0 <= a,
        0 <= b,
        zigzag(a) == zigzag(b),
    ensures
        a == b,
{
}

/// Every signed difference is the folding of some code.
pub proof fn lemma_zigzag_onto(v: int)
    ensures
        v >= 0 ==> zigzag(2 * v) == v,
        v < 0 ==> zigzag(-2 * v - 1) == v,
{
}

} // verus!
