//! Two-dimensional strided layouts and the parsers of their shapes and strides.
use crate::error::{res_view, BankError, BankErrorView};
use crate::text::{
    append_dec, chars_of, dec, nonempty_spans, parse_uint, parse_unsigned, split_spans,
    spans_view, token_error_string, token_error_text, tokens, trim, trim_end, trim_end_span,
    trim_span, trim_start, trim_start_span, };
use vstd::prelude::*;

verus! {

#[derive(Debug, Clone, Copy, PartialEq, Eq, Hash)]
pub struct Layout2D {
    pub shape: [u64; 2],
    pub stride: [u64; 2],
}

/// What `Layout2D::new` gives: both dimensions must be non-zero.
pub open spec fn new_layout_spec(shape: [u64; 2], stride: [u64; 2]) -> Result<
    Layout2D,
    BankErrorView,
> {
    if shape[0] == 0 || shape[1] == 0 {
        Err(
            BankErrorView::InvalidShape {
                raw: dec(shape[0] as nat) + "x"@ + dec(shape[1] as nat),
                reason: "shape dimensions must be non-zero"@,
            },
        )
    } else {
        Ok(Layout2D { shape, stride })
    }
}

/// The element offset of `(row, col)`: `row * stride[0] + col * stride[1]`.
pub open spec fn offset_of(l: Layout2D, coord: [u64; 2]) -> int {
    coord[0] * l.stride[0] + coord[1] * l.stride[1]
}

/// What `Layout2D::logical_offset` gives: the offset of an in-bounds coordinate
/// whose offset fits in 64 bits, else the coordinate is refused.
pub open spec fn logical_offset_spec(l: Layout2D, coord: [u64; 2]) -> Result<u64, BankErrorView> {
    if coord[0] < l.shape[0] && coord[1] < l.shape[1] && offset_of(l, coord) <= u64::MAX {
        Ok(offset_of(l, coord) as u64)
    } else {
        Err(
            BankErrorView::InvalidCoordinate {
                row: coord[0],
                col: coord[1],
                shape_rows: l.shape[0],
                shape_cols: l.shape[1],
            },
        )
    }
}

/// The tokens of a two-number list such as `[8x64]` or `64, 1`: surrounding white
/// space and one run of brackets dropped, split at `x`, `X`, `,` and spaces.
pub open spec fn pair_tokens(s: Seq<char>, seps: Seq<char>) -> Seq<Seq<char>> {
    tokens(trim_end(trim_start(trim(s), Some('[')), Some(']')), seps)
}

pub open spec fn shape_error(s: Seq<char>, reason: Seq<char>) -> BankErrorView {
    BankErrorView::InvalidShape { raw: s, reason }
}

pub open spec fn stride_error(s: Seq<char>, reason: Seq<char>) -> BankErrorView {
    BankErrorView::InvalidStride { raw: s, reason }
}

/// What `parse_shape` gives.
pub open spec fn parse_shape_spec(s: Seq<char>) -> Result<[u64; 2], BankErrorView> {
    let parts = pair_tokens(s, seq!['x', 'X', ',', ' ']);
    if parts.len() != 2 {
        Err(shape_error(s, "expected 2 dimensions (e.g. 8x64), got "@ + dec(parts.len())))
    } else {
        match parse_unsigned(parts[0], u64::MAX as int) {
            Err(e) => Err(shape_error(s, token_error_text("invalid row dimension `"@, parts[0], e))),
            Ok(d0) => match parse_unsigned(parts[1], u64::MAX as int) {
                Err(e) => Err(
                    shape_error(s, token_error_text("invalid column dimension `"@, parts[1], e)),
                ),
                Ok(d1) => if d0 == 0 || d1 == 0 {
                    Err(shape_error(s, "dimensions must be greater than 0"@))
                } else {
                    Ok([d0 as u64, d1 as u64])
                },
            },
        }
    }
}

/// What `parse_stride_2d` gives.
pub open spec fn parse_stride_2d_spec(s: Seq<char>) -> Result<[u64; 2], BankErrorView> {
    let parts = pair_tokens(s, seq![',', 'x', 'X', ' ']);
    if parts.len() != 2 {
        Err(stride_error(s, "expected 2 stride values (e.g. 64,1), got "@ + dec(parts.len())))
    } else {
        match parse_unsigned(parts[0], u64::MAX as int) {
            Err(e) => Err(stride_error(s, token_error_text("invalid row stride `"@, parts[0], e))),
            Ok(s0) => match parse_unsigned(parts[1], u64::MAX as int) {
                Err(e) => Err(
                    stride_error(s, token_error_text("invalid column stride `"@, parts[1], e)),
                ),
                Ok(s1) => Ok([s0 as u64, s1 as u64]),
            },
        }
    }
}

/// What `parse_stride_1d` gives.
pub open spec fn parse_stride_1d_spec(s: Seq<char>) -> Result<u64, BankErrorView> {
    match parse_unsigned(trim(s), u64::MAX as int) {
        Ok(v) => Ok(v as u64),
        Err(e) => Err(stride_error(s, token_error_text("invalid element stride `"@, trim(s), e))),
    }
}

impl Layout2D {
    /// Builds a layout; both dimensions of the shape must be non-zero.
    pub fn new(shape: [u64; 2], stride: [u64; 2]) -> (r: Result<Self, BankError>)
        ensures
            res_view(r) == new_layout_spec(shape, stride),
    {
        let rows = shape[0];
        let cols = shape[1];
        if rows == 0 || cols == 0 {
            let mut raw = String::new();
            append_dec(&mut raw, rows);
            raw.append("x");
            append_dec(&mut raw, cols);
            return Err(
                BankError::InvalidShape {
                    raw,
                    reason: String::from_str("shape dimensions must be non-zero"),
                },
            );
        }
        Ok(Layout2D { shape, stride })
    }

    /// The element offset of an in-bounds coordinate.
    pub fn logical_offset(&self, coord: [u64; 2]) -> (r: Result<u64, BankError>)
        ensures
            res_view(r) == logical_offset_spec(*self, coord),
    {
        let shape_rows = self.shape[0];
        let shape_cols = self.shape[1];
        let row = coord[0];
        let col = coord[1];
        let err = BankError::InvalidCoordinate { row, col, shape_rows, shape_cols };
        if row >= shape_rows || col >= shape_cols {
            return Err(err);
        }
        let stride_row = self.stride[0];
        let stride_col = self.stride[1];
        let row_offset = match row.checked_mul(stride_row) {
            Some(v) => v,
            None => {
                proof {
                    assert(col * stride_col >= 0) by (nonlinear_arith);
                }
                return Err(err);
            },
        };
        let col_offset = match col.checked_mul(stride_col) {
            Some(v) => v,
            None => {
                proof {
                    assert(row * stride_row >= 0) by (nonlinear_arith);
                }
                return Err(err);
            },
        };
        match row_offset.checked_add(col_offset) {
            Some(v) => Ok(v),
            None => Err(err),
        }
    }
}

/// The spans of the tokens of a bracketed two-number list.
fn pair_token_spans(s: &str, v: &Vec<char>, seps: &Vec<char>) -> (r: Vec<(usize, usize)>)
    requires
        v@ == s@,
    ensures
        spans_view(v@, r@) == pair_tokens(s@, seps@),
        crate::text::spans_within(r@, 0, v@.len() as int),
{
    let (a, b) = trim_span(v, 0, v.len());
    assert(v@.subrange(0, v@.len() as int) =~= v@);
    let a2 = trim_start_span(v, a, b, Some('['));
    let b2 = trim_end_span(v, a2, b, Some(']'));
    let pieces = split_spans(v, a2, b2, seps);
    nonempty_spans(v, &pieces)
}

/// Reads a shape such as `8x64`, `8,64` or `[8 x 64]`.
pub fn parse_shape(s: &str) -> (r: Result<[u64; 2], BankError>)
    ensures
        res_view(r) == parse_shape_spec(s@),
{
    let v = chars_of(s);
    let seps = vec!['x', 'X', ',', ' '];
    assert(seps@ =~= seq!['x', 'X', ',', ' ']);
    let parts = pair_token_spans(s, &v, &seps);
    if parts.len() != 2 {
        let mut reason = String::from_str("expected 2 dimensions (e.g. 8x64), got ");
        append_dec(&mut reason, parts.len() as u64);
        return Err(BankError::InvalidShape { raw: String::from_str(s), reason });
    }
    let (a0, b0) = parts[0];
    let (a1, b1) = parts[1];
    let d0 = match parse_uint(&v, a0, b0, u64::MAX) {
        Ok(x) => x,
        Err(e) => {
            return Err(
                BankError::InvalidShape {
                    raw: String::from_str(s),
                    reason: token_error_string("invalid row dimension `", s, a0, b0, e),
                },
            );
        },
    };
    let d1 = match parse_uint(&v, a1, b1, u64::MAX) {
        Ok(x) => x,
        Err(e) => {
            return Err(
                BankError::InvalidShape {
                    raw: String::from_str(s),
                    reason: token_error_string("invalid column dimension `", s, a1, b1, e),
                },
            );
        },
    };
    if d0 == 0 || d1 == 0 {
        return Err(
            BankError::InvalidShape {
                raw: String::from_str(s),
                reason: String::from_str("dimensions must be greater than 0"),
            },
        );
    }
    Ok([d0, d1])
}

/// Reads a row and a column stride such as `64,1`.
pub fn parse_stride_2d(s: &str) -> (r: Result<[u64; 2], BankError>)
    ensures
        res_view(r) == parse_stride_2d_spec(s@),
{
    let v = chars_of(s);
    let seps = vec![',', 'x', 'X', ' '];
    assert(seps@ =~= seq![',', 'x', 'X', ' ']);
    let parts = pair_token_spans(s, &v, &seps);
    if parts.len() != 2 {
        let mut reason = String::from_str("expected 2 stride values (e.g. 64,1), got ");
        append_dec(&mut reason, parts.len() as u64);
        return Err(BankError::InvalidStride { raw: String::from_str(s), reason });
    }
    let (a0, b0) = parts[0];
    let (a1, b1) = parts[1];
    let s0 = match parse_uint(&v, a0, b0, u64::MAX) {
        Ok(x) => x,
        Err(e) => {
            return Err(
                BankError::InvalidStride {
                    raw: String::from_str(s),
                    reason: token_error_string("invalid row stride `", s, a0, b0, e),
                },
            );
        },
    };
    let s1 = match parse_uint(&v, a1, b1, u64::MAX) {
        Ok(x) => x,
        Err(e) => {
            return Err(
                BankError::InvalidStride {
                    raw: String::from_str(s),
                    reason: token_error_string("invalid column stride `", s, a1, b1, e),
                },
            );
        },
    };
    Ok([s0, s1])
}

/// Reads a single element stride.
pub fn parse_stride_1d(s: &str) -> (r: Result<u64, BankError>)
    ensures
        res_view(r) == parse_stride_1d_spec(s@),
{
    let v = chars_of(s);
    let (a, b) = trim_span(&v, 0, v.len());
    assert(v@.subrange(0, v@.len() as int) =~= s@);
    match parse_uint(&v, a, b, u64::MAX) {
        Ok(x) => Ok(x),
        Err(e) => Err(
            BankError::InvalidStride {
                raw: String::from_str(s),
                reason: token_error_string("invalid element stride `", s, a, b, e),
            },
        ),
    }
}

/// An in-bounds coordinate whose offset fits in 64 bits lies `row * stride[0] +
/// col * stride[1]` elements in; a coordinate out of bounds, or one whose offset
/// does not fit, is refused naming the coordinate and the shape.
pub proof fn lemma_logical_offset_law(l: Layout2D, coord: [u64; 2])
    ensures
        coord[0] < l.shape[0] && coord[1] < l.shape[1] && coord[0] * l.stride[0] + coord[1]
            * l.stride[1] <= u64::MAX ==> logical_offset_spec(l, coord) == Ok::<u64, BankErrorView>(
            (coord[0] * l.stride[0] + coord[1] * l.stride[1]) as u64,
        ),
        !(coord[0] < l.shape[0] && coord[1] < l.shape[1]) || coord[0] * l.stride[0] + coord[1]
            * l.stride[1] > u64::MAX ==> logical_offset_spec(l, coord) == Err::<u64, BankErrorView>(
            BankErrorView::InvalidCoordinate {
                row: coord[0],
                col: coord[1],
                shape_rows: l.shape[0],
                shape_cols: l.shape[1],
            },
        ),
{
}

/// Moving one column further adds the column stride to the offset, and moving one
/// row further adds the row stride, wherever both offsets are defined.
pub proof fn lemma_offset_steps(l: Layout2D, c: [u64; 2], d: [u64; 2])
    ensures
        d[0] == c[0] && d[1] == c[1] + 1 && logical_offset_spec(l, c) is Ok && logical_offset_spec(
            l,
            d,
        ) is Ok ==> logical_offset_spec(l, d)->Ok_0 == logical_offset_spec(l, c)->Ok_0
            + l.stride[1],
        d[0] == c[0] + 1 && d[1] == c[1] && logical_offset_spec(l, c) is Ok && logical_offset_spec(
            l,
            d,
        ) is Ok ==> logical_offset_spec(l, d)->Ok_0 == logical_offset_spec(l, c)->Ok_0
            + l.stride[0],
{
    let r0 = c[0] as int;
    let c0 = c[1] as int;
    let r1 = d[0] as int;
    let c1 = d[1] as int;
    let s0 = l.stride[0] as int;
    let s1 = l.stride[1] as int;
    assert(offset_of(l, c) == r0 * s0 + c0 * s1);
    assert(offset_of(l, d) == r1 * s0 + c1 * s1);
    if r1 == r0 && c1 == c0 + 1 {
        assert(r1 * s0 + c1 * s1 == r0 * s0 + c0 * s1 + s1) by (nonlinear_arith)
            requires
                r1 == r0 && c1 == c0 + 1,
        ;
    }
    if r1 == r0 + 1 && c1 == c0 {
        assert(r1 * s0 + c1 * s1 == r0 * s0 + c0 * s1 + s0) by (nonlinear_arith)
            requires
                r1 == r0 + 1 && c1 == c0,
        ;
    }
}

} // verus!
