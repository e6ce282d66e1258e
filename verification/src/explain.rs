//! What a swizzle does to the bits of an offset, and how it lines up with a stride.
use crate::dtype::{size_bytes_spec, DataType};
use crate::swizzle::{bit_range, operation_text, patterns_spec, Swizzle};
use vstd::arithmetic::power2::{lemma_pow2_strictly_increases, pow2};
use vstd::bits::{lemma_u64_pow2_no_overflow, lemma_u64_shl_is_mul};
use vstd::prelude::*;

verus! {

#[derive(Debug, Clone)]
pub struct SwizzleReasoning {
    pub untouched_bits: Vec<u32>,
    pub target_bits: Vec<u32>,
    pub source_bits: Vec<u32>,
    pub stride_boundary_bit: Option<u32>,
    pub source_aligned_to_stride_boundary: Option<bool>,
}

#[derive(Debug, Clone)]
pub struct ExplainData {
    pub swizzle: Swizzle,
    pub element_stride: Option<u64>,
    pub stride_log2: Option<u32>,
    pub element_size_bytes: Option<u64>,
    pub untouched_bits: Vec<u32>,
    pub target_bits: Vec<u32>,
    pub source_bits: Vec<u32>,
    pub operation: String,
    pub source_aligned_to_stride_boundary: Option<bool>,
    pub patterns: u64,
}

pub open spec fn is_pow2_exponent(x: u64, k: u32) -> bool {
    k < 64 && pow2(k as nat) == x
}

/// The exponent `k` with `x == 2^k`, where `x` is a power of two.
pub open spec fn stride_log2_spec(x: u64) -> Option<u32> {
    if exists|k: u32| is_pow2_exponent(x, k) {
        Some(choose|k: u32| is_pow2_exponent(x, k))
    } else {
        None
    }
}

/// Whether the source bits of the swizzle start at the bit of the stride.
pub open spec fn alignment_spec(log2: Option<u32>, sw: Swizzle) -> Option<bool> {
    match log2 {
        Some(k) => Some(k == sw.m + sw.s),
        None => None,
    }
}

pub open spec fn reasoning_spec(r: SwizzleReasoning, sw: Swizzle, stride_row: u64) -> bool {
    &&& r.untouched_bits@ == bit_range(0, sw.m as int)
    &&& r.target_bits@ == bit_range(sw.m as int, sw.b as int)
    &&& r.source_bits@ == bit_range(sw.m + sw.s, sw.b as int)
    &&& r.stride_boundary_bit == stride_log2_spec(stride_row)
    &&& r.source_aligned_to_stride_boundary == alignment_spec(stride_log2_spec(stride_row), sw)
}

pub open spec fn explain_spec(
    d: ExplainData,
    sw: Swizzle,
    element_stride: Option<u64>,
    dtype: Option<DataType>,
) -> bool {
    let log2 = match element_stride {
        Some(x) => stride_log2_spec(x),
        None => None,
    };
    &&& d.swizzle == sw
    &&& d.element_stride == element_stride
    &&& d.stride_log2 == log2
    &&& d.element_size_bytes == match dtype {
        Some(t) => Some(size_bytes_spec(t)),
        None => None,
    }
    &&& d.untouched_bits@ == bit_range(0, sw.m as int)
    &&& d.target_bits@ == bit_range(sw.m as int, sw.b as int)
    &&& d.source_bits@ == bit_range(sw.m + sw.s, sw.b as int)
    &&& d.operation@ == operation_text(sw.b, sw.m, sw.s)
    &&& d.source_aligned_to_stride_boundary == alignment_spec(log2, sw)
    &&& d.patterns == patterns_spec(sw.b)
}

/// The exponent of `x` when `x` is a power of two.
pub fn exact_log2(x: u64) -> (r: Option<u32>)
    ensures
        r == stride_log2_spec(x),
{
    let mut k: u32 = 0;
    while k < 64
        invariant
            k <= 64,
            forall|j: u32| j < k ==> !is_pow2_exponent(x, j),
        decreases 64 - k,
    {
        let kk = k as u64;
        proof {
            lemma_u64_pow2_no_overflow(kk as nat);
            lemma_u64_shl_is_mul(1, kk);
        }
        if (1u64 << kk) == x {
            proof {
                assert(is_pow2_exponent(x, k));
                let c = choose|j: u32| is_pow2_exponent(x, j);
                if c < k {
                    lemma_pow2_strictly_increases(c as nat, k as nat);
                } else if c > k {
                    lemma_pow2_strictly_increases(k as nat, c as nat);
                }
            }
            return Some(k);
        }
        k += 1;
    }
    None
}

fn alignment(log2: Option<u32>, sw: &Swizzle) -> (r: Option<bool>)
    ensures
        r == alignment_spec(log2, *sw),
{
    let source_start = (sw.m as u32) + (sw.s as u32);
    match log2 {
        Some(k) => Some(k == source_start),
        None => None,
    }
}

/// The bit ranges of a swizzle and whether its source starts at the row stride's bit.
pub fn build_reasoning(swizzle: &Swizzle, stride_row: u64) -> (r: SwizzleReasoning)
    ensures
        reasoning_spec(r, *swizzle, stride_row),
{
    let stride_log2 = exact_log2(stride_row);
    let aligned = alignment(stride_log2, swizzle);
    SwizzleReasoning {
        untouched_bits: swizzle.untouched_bits(),
        target_bits: swizzle.target_bits(),
        source_bits: swizzle.source_bits(),
        stride_boundary_bit: stride_log2,
        source_aligned_to_stride_boundary: aligned,
    }
}

/// Everything there is to say about one swizzle, with an optional element stride
/// and data type.
pub fn explain_swizzle(swizzle: Swizzle, element_stride: Option<u64>, dtype: Option<DataType>) -> (r:
    ExplainData)
    requires
        swizzle.m + swizzle.s + swizzle.b <= 255,
        swizzle.m + swizzle.b >= 1,
    ensures
        explain_spec(r, swizzle, element_stride, dtype),
{
    let stride_log2 = match element_stride {
        Some(x) => exact_log2(x),
        None => None,
    };
    let element_size_bytes = match dtype {
        Some(t) => Some(t.size_bytes()),
        None => None,
    };
    let aligned = alignment(stride_log2, &swizzle);
    ExplainData {
        swizzle,
        element_stride,
        stride_log2,
        element_size_bytes,
        untouched_bits: swizzle.untouched_bits(),
        target_bits: swizzle.target_bits(),
        source_bits: swizzle.source_bits(),
        operation: swizzle.operation_str(),
        source_aligned_to_stride_boundary: aligned,
        patterns: swizzle.patterns(),
    }
}

/// With a row stride of `2^k`, the stride's bit is `k`, and the source bits are
/// aligned to it exactly when they start at bit `k`, that is when `k == M + S`.
/// With a stride that is no power of two, neither is reported.
pub proof fn lemma_alignment_law(r: SwizzleReasoning, sw: Swizzle, stride_row: u64, k: u32)
    requires
        reasoning_spec(r, sw, stride_row),
    ensures
        k < 64 && stride_row == pow2(k as nat) ==> r.stride_boundary_bit == Some(k)
            && r.source_aligned_to_stride_boundary == Some(k == sw.m + sw.s),
        (forall|j: u32| j < 64 ==> pow2(j as nat) != stride_row) ==> r.stride_boundary_bit
            == None::<u32> && r.source_aligned_to_stride_boundary == None::<bool>,
{
    if k < 64 && stride_row == pow2(k as nat) {
        lemma_pow2_exponent_unique(stride_row, k);
    }
}

/// The explanation of a swizzle against an element stride of `2^k` reports bit
/// `k`, and alignment exactly when `k == M + S`.
pub proof fn lemma_explain_alignment_law(
    d: ExplainData,
    sw: Swizzle,
    stride: u64,
    dtype: Option<DataType>,
    k: u32,
)
    requires
        explain_spec(d, sw, Some(stride), dtype),
        k < 64,
        stride == pow2(k as nat),
    ensures
        d.stride_log2 == Some(k),
        d.source_aligned_to_stride_boundary == Some(k == sw.m + sw.s),
{
    lemma_pow2_exponent_unique(stride, k);
}

proof fn lemma_pow2_exponent_unique(x: u64, k: u32)
    requires
        k < 64,
        x == pow2(k as nat),
    ensures
        stride_log2_spec(x) == Some(k),
{
    assert(is_pow2_exponent(x, k));
    let c = choose|j: u32| is_pow2_exponent(x, j);
    if c < k {
        lemma_pow2_strictly_increases(c as nat, k as nat);
    } else if c > k {
        lemma_pow2_strictly_increases(k as nat, c as nat);
    }
}

} // verus!
