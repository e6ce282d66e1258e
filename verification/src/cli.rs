//! The parameter-range notation of the search command.
use crate::error::{res_view, BankError, BankErrorView};
use crate::text::{
    chars_of, find, find_span, parse_uint, parse_unsigned, token_error_string, token_error_text,
    trim, trim_span,
};
use vstd::prelude::*;

verus! {

pub open spec fn range_error(s: Seq<char>, name: Seq<char>, what: Seq<char>, piece: Seq<char>, e: crate::text::IntErrorKind) -> BankErrorView {
    BankErrorView::InvalidSwizzle { raw: s, reason: token_error_text("invalid "@ + name + what, piece, e) }
}

/// Where the text of a range splits: at the first `:`, else at the first `..=`.
pub open spec fn range_split(c: Seq<char>) -> Option<(int, int)> {
    match find(c, seq![':']) {
        Some(k) => Some((k, 1int)),
        None => match find(c, seq!['.', '.', '=']) {
            Some(k) => Some((k, 3int)),
            None => None,
        },
    }
}

/// What `parse_range` gives: `MIN:MAX`, `MIN..=MAX` or a single value `V` (the
/// range `V..=V`), each number a `u8`; the range is taken as written, even when
/// `MIN > MAX`.
pub open spec fn parse_range_spec(s: Seq<char>, name: Seq<char>) -> Result<(u8, u8), BankErrorView> {
    let c = trim(s);
    match range_split(c) {
        Some((k, w)) => split_range_spec(s, name, c, k, w),
        None => match parse_unsigned(c, 255) {
            Err(e) => Err(range_error(s, name, " value `"@, c, e)),
            Ok(v) => Ok((v as u8, v as u8)),
        },
    }
}

fn range_error_value(s: &str, name: &str, what: &str, lo: usize, hi: usize, e: crate::text::IntErrorKind) -> (r: BankError)
    requires
        lo <= hi <= s@.len(),
    ensures
        r@ == range_error(s@, name@, what@, s@.subrange(lo as int, hi as int), e),
{
    let mut prefix = String::from_str("invalid ");
    prefix.append(name);
    prefix.append(what);
    BankError::InvalidSwizzle {
        raw: String::from_str(s),
        reason: token_error_string(prefix.as_str(), s, lo, hi, e),
    }
}

/// The range split at `k`, with a separator `w` characters wide.
pub open spec fn split_range_spec(s: Seq<char>, name: Seq<char>, c: Seq<char>, k: int, w: int) -> Result<(u8, u8), BankErrorView> {
    let low_s = c.subrange(0, k);
    let high_s = c.subrange(k + w, c.len() as int);
    match parse_unsigned(trim(low_s), 255) {
        Err(e) => Err(range_error(s, name, " range start `"@, low_s, e)),
        Ok(lo) => match parse_unsigned(trim(high_s), 255) {
            Err(e) => Err(range_error(s, name, " range end `"@, high_s, e)),
            Ok(hi) => Ok((lo as u8, hi as u8)),
        },
    }
}

fn parse_split_range(s: &str, v: &Vec<char>, a: usize, b: usize, k: usize, w: usize, name: &'static str) -> (r: Result<(u8, u8), BankError>)
    requires
        v@ == s@,
        a <= k,
        k + w <= b <= v@.len(),
    ensures
        res_view(r) == split_range_spec(s@, name@, v@.subrange(a as int, b as int), k - a, w as int),
{
    let ghost c = v@.subrange(a as int, b as int);
    assert(c.subrange(0, k - a) =~= v@.subrange(a as int, k as int));
    assert(c.subrange(k - a + w, c.len() as int) =~= v@.subrange(k + w, b as int));
    let (la, lb) = trim_span(v, a, k);
    let lo = match parse_uint(v, la, lb, 255) {
        Ok(x) => x as u8,
        Err(e) => {
            return Err(range_error_value(s, name, " range start `", a, k, e));
        },
    };
    let (ha, hb) = trim_span(v, k + w, b);
    let hi = match parse_uint(v, ha, hb, 255) {
        Ok(x) => x as u8,
        Err(e) => {
            return Err(range_error_value(s, name, " range end `", k + w, b, e));
        },
    };
    Ok((lo, hi))
}

/// Reads a search range for the parameter `name`.
pub fn parse_range(s: &str, name: &'static str) -> (r: Result<(u8, u8), BankError>)
    ensures
        res_view(r) == parse_range_spec(s@, name@),
{
    let v = chars_of(s);
    let (a, b) = trim_span(&v, 0, v.len());
    assert(v@.subrange(0, v@.len() as int) =~= v@);
    let colon = vec![':'];
    let dots = vec!['.', '.', '='];
    assert(colon@ =~= seq![':']);
    assert(dots@ =~= seq!['.', '.', '=']);
    match find_span(&v, a, b, &colon) {
        Some(k) => parse_split_range(s, &v, a, b, k, 1, name),
        None => match find_span(&v, a, b, &dots) {
            Some(k) => parse_split_range(s, &v, a, b, k, 3, name),
            None => {
                let val = match parse_uint(&v, a, b, 255) {
                    Ok(x) => x as u8,
                    Err(e) => {
                        return Err(range_error_value(s, name, " value `", a, b, e));
                    },
                };
                Ok((val, val))
            },
        },
    }
}

} // verus!
