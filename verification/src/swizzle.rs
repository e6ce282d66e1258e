//! CuTe-style XOR swizzles `Swizzle<B, M, S>`: the `B` bits starting at bit
//! `M + S` of an offset are XORed into the `B` bits starting at bit `M`.
use crate::error::{res_view, BankError, BankErrorView};
use crate::text::{
    append_dec, chars_of, dec, int_err_str, int_err_text, is_digit, lemma_dec_digits,
    lemma_parse_dec, lemma_split_append_plain, lemma_split_push_sep, nonempty_spans, parse_i64,
    parse_signed64, parse_uint, parse_unsigned, split_pieces, split_spans, tokens, trim, trim_end,
    trim_end_span, trim_span, trim_start, trim_start_span,
};
use vstd::arithmetic::power2::pow2;
use vstd::bits::lemma_u64_shl_is_mul;
use vstd::prelude::*;

verus! {

#[derive(Debug, Clone, Copy, PartialEq, Eq, Hash, Structural)]
pub struct Swizzle {
    pub b: u8,
    pub m: u8,
    pub s: u8,
}

/// The parameters that `Swizzle::new` accepts: at least one swizzled bit, a
/// shift no smaller than the bit count, and every bit touched inside 64 bits.
pub open spec fn swizzle_params_valid(b: u8, m: u8, s: u8) -> bool {
    &&& b > 0
    &&& s > 0
    &&& s >= b
    &&& m + s + b <= 64
}

/// The parameters written `B,M,S` in decimal.
pub open spec fn swizzle_raw(b: u8, m: u8, s: u8) -> Seq<char> {
    dec(b as nat) + ","@ + dec(m as nat) + ","@ + dec(s as nat)
}

pub open spec fn invalid_swizzle(b: u8, m: u8, s: u8, reason: Seq<char>) -> BankErrorView {
    BankErrorView::InvalidSwizzle { raw: swizzle_raw(b, m, s), reason }
}

/// What `Swizzle::new` gives for the parameters.
pub open spec fn new_swizzle_spec(b: u8, m: u8, s: u8) -> Result<Swizzle, BankErrorView> {
    if b == 0 {
        Err(invalid_swizzle(b, m, s, "B must be greater than 0"@))
    } else if s == 0 {
        Err(invalid_swizzle(b, m, s, "S must be greater than 0"@))
    } else if s < b {
        Err(
            invalid_swizzle(
                b,
                m,
                s,
                "S must be >= B, got S="@ + dec(s as nat) + " < B="@ + dec(b as nat),
            ),
        )
    } else if m + s + b > 64 {
        Err(
            invalid_swizzle(
                b,
                m,
                s,
                "bit range M + S + B = "@ + dec((m + s + b) as nat) + " exceeds 64 bits"@,
            ),
        )
    } else {
        Ok(Swizzle { b, m, s })
    }
}

/// `b` one bits at the bottom of a word (all 64 when `b >= 64`).
pub open spec fn base_mask(b: u8) -> u64 {
    if b >= 64 {
        u64::MAX
    } else {
        ((1u64 << (b as u64)) - 1) as u64
    }
}

/// The offset `x` with the bits selected at `M + S` shifted down by `S` and XORed in.
pub open spec fn swizzle_value(b: u8, m: u8, s: u8, x: u64) -> u64 {
    x ^ ((x & (base_mask(b) << ((m + s) as u64))) >> (s as u64))
}

/// What `Swizzle::apply` gives: the masks cannot be shifted to `M` or to `M + S`
/// once these reach 64.
pub open spec fn apply_spec(b: u8, m: u8, s: u8, x: u64) -> Result<u64, BankErrorView> {
    if m >= 64 {
        Err(invalid_swizzle(b, m, s, "shift overflow in target mask"@))
    } else if m + s >= 64 {
        Err(invalid_swizzle(b, m, s, "shift overflow in source mask"@))
    } else {
        Ok(swizzle_value(b, m, s, x))
    }
}

/// Bit `i` of `x`.
pub open spec fn bit(x: u64, i: u64) -> bool {
    (x >> i) & 1 == 1
}

/// The bit positions `from, from + 1, ..., from + n - 1`.
pub open spec fn bit_range(from: int, n: int) -> Seq<u32> {
    Seq::new(n as nat, |k: int| (from + k) as u32)
}

/// The text `bits[hi:lo] ^= bits[hi':lo']` (or `bits[lo] ^= bits[lo']` for one bit).
pub open spec fn operation_text(b: u8, m: u8, s: u8) -> Seq<char> {
    if b == 1 {
        "bits["@ + dec(m as nat) + "] ^= bits["@ + dec((m + s) as nat) + "]"@
    } else {
        "bits["@ + dec((m + b - 1) as nat) + ":"@ + dec(m as nat) + "] ^= bits["@ + dec(
            (m + s + b - 1) as nat,
        ) + ":"@ + dec((m + s) as nat) + "]"@
    }
}

/// The number of distinct values the swizzled bits can take (saturating at `u64::MAX`).
pub open spec fn patterns_spec(b: u8) -> u64 {
    if b < 64 {
        pow2(b as nat) as u64
    } else {
        u64::MAX
    }
}

pub fn raw_string(b: u8, m: u8, s: u8) -> (r: String)
    ensures
        r@ == swizzle_raw(b, m, s),
{
    let mut r = String::new();
    append_dec(&mut r, b as u64);
    r.append(",");
    append_dec(&mut r, m as u64);
    r.append(",");
    append_dec(&mut r, s as u64);
    r
}

fn swizzle_error(b: u8, m: u8, s: u8, reason: String) -> (e: BankError)
    ensures
        e@ == invalid_swizzle(b, m, s, reason@),
{
    BankError::InvalidSwizzle { raw: raw_string(b, m, s), reason }
}

impl Swizzle {
    pub open spec fn valid(self) -> bool {
        swizzle_params_valid(self.b, self.m, self.s)
    }

    /// Checks the parameters and builds the swizzle.
    pub fn new(b: u8, m: u8, s: u8) -> (r: Result<Self, BankError>)
        ensures
            res_view(r) == new_swizzle_spec(b, m, s),
            r is Ok <==> swizzle_params_valid(b, m, s),
    {
        if b == 0 {
            return Err(swizzle_error(b, m, s, String::from_str("B must be greater than 0")));
        }
        if s == 0 {
            return Err(swizzle_error(b, m, s, String::from_str("S must be greater than 0")));
        }
        if s < b {
            let mut reason = String::from_str("S must be >= B, got S=");
            append_dec(&mut reason, s as u64);
            reason.append(" < B=");
            append_dec(&mut reason, b as u64);
            return Err(swizzle_error(b, m, s, reason));
        }
        let total_bits: u32 = (m as u32) + (s as u32) + (b as u32);
        if total_bits > 64 {
            let mut reason = String::from_str("bit range M + S + B = ");
            append_dec(&mut reason, total_bits as u64);
            reason.append(" exceeds 64 bits");
            return Err(swizzle_error(b, m, s, reason));
        }
        Ok(Swizzle { b, m, s })
    }

    /// The physical offset of logical `offset`.
    pub fn apply(&self, offset: u64) -> (r: Result<u64, BankError>)
        ensures
            res_view(r) == apply_spec(self.b, self.m, self.s, offset),
    {
        let b = self.b;
        let m = self.m;
        let s = self.s;
        let base: u64 = if b >= 64 {
            u64::MAX
        } else {
            let bb = b as u64;
            assert(1u64 << bb >= 1) by (bit_vector)
                requires
                    bb < 64,
            ;
            (1u64 << bb) - 1
        };
        assert(base == base_mask(b));
        if m >= 64 {
            return Err(swizzle_error(b, m, s, String::from_str("shift overflow in target mask")));
        }
        let source_shift: u32 = (m as u32) + (s as u32);
        if source_shift >= 64 {
            return Err(swizzle_error(b, m, s, String::from_str("shift overflow in source mask")));
        }
        let source_mask = base << (source_shift as u64);
        let source = (offset & source_mask) >> (s as u64);
        Ok(offset ^ source)
    }

    /// The bit positions that the swizzle writes: `M .. M + B`.
    pub fn target_bits(&self) -> (r: Vec<u32>)
        ensures
            r@ == bit_range(self.m as int, self.b as int),
    {
        let m = self.m as u32;
        let b = self.b as u32;
        let mut r: Vec<u32> = Vec::new();
        let mut k: u32 = m;
        while k < m + b
            invariant
                m <= k <= m + b,
                m + b <= 510,
                r@ == bit_range(m as int, k - m),
            decreases m + b - k,
        {
            r.push(k);
            k += 1;
            assert(r@ =~= bit_range(m as int, k - m));
        }
        r
    }

    /// The bit positions that the swizzle reads: `M + S .. M + S + B`.
    pub fn source_bits(&self) -> (r: Vec<u32>)
        ensures
            r@ == bit_range(self.m + self.s, self.b as int),
    {
        let start = (self.m as u32) + (self.s as u32);
        let b = self.b as u32;
        let mut r: Vec<u32> = Vec::new();
        let mut k: u32 = start;
        while k < start + b
            invariant
                start <= k <= start + b,
                start + b <= 765,
                r@ == bit_range(start as int, k - start),
            decreases start + b - k,
        {
            r.push(k);
            k += 1;
            assert(r@ =~= bit_range(start as int, k - start));
        }
        r
    }

    /// The bit positions below the target bits: `0 .. M`.
    pub fn untouched_bits(&self) -> (r: Vec<u32>)
        ensures
            r@ == bit_range(0, self.m as int),
    {
        let m = self.m as u32;
        let mut r: Vec<u32> = Vec::new();
        let mut k: u32 = 0;
        while k < m
            invariant
                k <= m <= 255,
                r@ == bit_range(0, k as int),
            decreases m - k,
        {
            r.push(k);
            k += 1;
            assert(r@ =~= bit_range(0, k as int));
        }
        r
    }

    /// The operation written out over bit ranges, such as `bits[5:4] ^= bits[7:6]`.
    pub fn operation_str(&self) -> (r: String)
        requires
            self.m + self.s + self.b <= 255,
            self.m + self.b >= 1,
        ensures
            r@ == operation_text(self.b, self.m, self.s),
    {
        let t_lo = self.m;
        let t_hi = self.m + self.b - 1;
        let s_lo = self.m + self.s;
        let s_hi = self.m + self.s + self.b - 1;
        let mut r = String::from_str("bits[");
        if self.b == 1 {
            append_dec(&mut r, t_lo as u64);
            r.append("] ^= bits[");
            append_dec(&mut r, s_lo as u64);
            r.append("]");
        } else {
            append_dec(&mut r, t_hi as u64);
            r.append(":");
            append_dec(&mut r, t_lo as u64);
            r.append("] ^= bits[");
            append_dec(&mut r, s_hi as u64);
            r.append(":");
            append_dec(&mut r, s_lo as u64);
            r.append("]");
        }
        r
    }

    /// How many values the swizzled bits can take: `2^B`, or `u64::MAX` from `B = 64` on.
    pub fn patterns(&self) -> (r: u64)
        ensures
            r == patterns_spec(self.b),
    {
        if self.b < 64 {
            let bb = self.b as u64;
            proof {
                vstd::bits::lemma_u64_pow2_no_overflow(bb as nat);
                lemma_u64_shl_is_mul(1, bb);
            }
            1u64 << bb
        } else {
            u64::MAX
        }
    }

    /// The parameters as `[B, M, S]`.
    pub fn to_array(&self) -> (r: [u8; 3])
        ensures
            r@ == seq![self.b, self.m, self.s],
    {
        let r = [self.b, self.m, self.s];
        assert(r@ =~= seq![self.b, self.m, self.s]);
        r
    }
}

/// The components of a swizzle written as text: white space, then one run of
/// angle brackets and one of parentheses dropped, split at `,`, spaces and `;`.
pub open spec fn swizzle_tokens(s: Seq<char>) -> Seq<Seq<char>> {
    tokens(
        trim_end(
            trim_start(trim_end(trim_start(trim(s), Some('<')), Some('>')), Some('(')),
            Some(')'),
        ),
        seq![',', ' ', ';'],
    )
}

pub open spec fn component_error(s: Seq<char>, name: Seq<char>, e: crate::text::IntErrorKind) -> BankErrorView {
    BankErrorView::InvalidSwizzle {
        raw: s,
        reason: "failed to parse "@ + name + " as u8: "@ + int_err_text(e),
    }
}

/// What reading a swizzle from text gives: three components `B,M,S`, a shift
/// that reads as a number no greater than 0 refused as unsupported, each
/// component a `u8`, and then the checks of `Swizzle::new`.
pub open spec fn parse_swizzle_spec(s: Seq<char>) -> Result<Swizzle, BankErrorView> {
    let parts = swizzle_tokens(s);
    if parts.len() != 3 {
        Err(
            BankErrorView::InvalidSwizzle {
                raw: s,
                reason: "expected 3 components B,M,S, got "@ + dec(parts.len()),
            },
        )
    } else if parse_signed64(parts[2]) matches Ok(v) && v <= 0 {
        Err(BankErrorView::UnsupportedNegativeShift { raw: s })
    } else {
        match parse_unsigned(parts[0], 255) {
            Err(e) => Err(component_error(s, "B"@, e)),
            Ok(b) => match parse_unsigned(parts[1], 255) {
                Err(e) => Err(component_error(s, "M"@, e)),
                Ok(m) => match parse_unsigned(parts[2], 255) {
                    Err(e) => Err(component_error(s, "S"@, e)),
                    Ok(sv) => new_swizzle_spec(b as u8, m as u8, sv as u8),
                },
            },
        }
    }
}

fn component_error_value(s: &str, name: &str, e: crate::text::IntErrorKind) -> (r: BankError)
    ensures
        r@ == component_error(s@, name@, e),
{
    let mut reason = String::from_str("failed to parse ");
    reason.append(name);
    reason.append(" as u8: ");
    reason.append(int_err_str(e));
    BankError::InvalidSwizzle { raw: String::from_str(s), reason }
}

impl Swizzle {
    /// Reads a swizzle written `B,M,S`, `<B,M,S>` or `(B M S)`.
    pub fn parse(s: &str) -> (r: Result<Swizzle, BankError>)
        ensures
            res_view(r) == parse_swizzle_spec(s@),
    {
        let v = chars_of(s);
        let (a, b) = trim_span(&v, 0, v.len());
        assert(v@.subrange(0, v@.len() as int) =~= v@);
        let a1 = trim_start_span(&v, a, b, Some('<'));
        let b1 = trim_end_span(&v, a1, b, Some('>'));
        let a2 = trim_start_span(&v, a1, b1, Some('('));
        let b2 = trim_end_span(&v, a2, b1, Some(')'));
        let seps = vec![',', ' ', ';'];
        assert(seps@ =~= seq![',', ' ', ';']);
        let pieces = split_spans(&v, a2, b2, &seps);
        let parts = nonempty_spans(&v, &pieces);
        if parts.len() != 3 {
            let mut reason = String::from_str("expected 3 components B,M,S, got ");
            append_dec(&mut reason, parts.len() as u64);
            return Err(BankError::InvalidSwizzle { raw: String::from_str(s), reason });
        }
        let (p0a, p0b) = parts[0];
        let (p1a, p1b) = parts[1];
        let (p2a, p2b) = parts[2];
        if let Ok(signed_s) = parse_i64(&v, p2a, p2b) {
            if signed_s <= 0 {
                return Err(BankError::UnsupportedNegativeShift { raw: String::from_str(s) });
            }
        }
        let bv = match parse_uint(&v, p0a, p0b, 255) {
            Ok(x) => x as u8,
            Err(e) => {
                return Err(component_error_value(s, "B", e));
            },
        };
        let mv = match parse_uint(&v, p1a, p1b, 255) {
            Ok(x) => x as u8,
            Err(e) => {
                return Err(component_error_value(s, "M", e));
            },
        };
        let sv = match parse_uint(&v, p2a, p2b, 255) {
            Ok(x) => x as u8,
            Err(e) => {
                return Err(component_error_value(s, "S", e));
            },
        };
        Swizzle::new(bv, mv, sv)
    }
}

impl std::str::FromStr for Swizzle {
    type Err = BankError;

    fn from_str(s: &str) -> (r: Result<Swizzle, BankError>)
        ensures
            res_view(r) == parse_swizzle_spec(s@),
    {
        Swizzle::parse(s)
    }
}

/// Applying a valid swizzle twice gives the offset back: a swizzle is its own inverse.
pub proof fn lemma_swizzle_involution(sw: Swizzle, x: u64)
    requires
        sw.valid(),
    ensures
        apply_spec(sw.b, sw.m, sw.s, x) == Ok::<u64, BankErrorView>(swizzle_value(sw.b, sw.m, sw.s, x)),
        swizzle_value(sw.b, sw.m, sw.s, swizzle_value(sw.b, sw.m, sw.s, x)) == x,
{
    let b = sw.b as u64;
    let t = (sw.m + sw.s) as u64;
    let s = sw.s as u64;
    let mask = base_mask(sw.b) << t;
    assert(base_mask(sw.b) == ((1u64 << b) - 1) as u64);
    assert({
        let y = x ^ ((x & ((((1u64 << b) - 1) as u64) << t)) >> s);
        y ^ ((y & ((((1u64 << b) - 1) as u64) << t)) >> s) == x
    }) by (bit_vector)
        requires
            1 <= b <= s,
            t >= s,
            t + b <= 64,
    ;
}

#[verifier::spinoff_prover]
#[verifier::rlimit(60)]
/// Bit by bit, a valid swizzle flips bit `i` of the target range `M .. M + B`
/// exactly where bit `i + S` is set, and leaves every other bit as it was.
pub proof fn lemma_swizzle_bits(sw: Swizzle, x: u64, i: u64)
    requires
        sw.valid(),
        i < 64,
    ensures
        bit(swizzle_value(sw.b, sw.m, sw.s, x), i) == (bit(x, i) != (sw.m <= i < sw.m + sw.b
            && bit(x, (i + sw.s) as u64))),
{
    let b = sw.b as u64;
    let m = sw.m as u64;
    let t = (sw.m + sw.s) as u64;
    let s = sw.s as u64;
    assert(base_mask(sw.b) == ((1u64 << b) - 1) as u64);
    let v = x ^ ((x & ((((1u64 << b) - 1) as u64) << t)) >> s);
    let j = (i + s) as u64;
    assert(((v >> i) & 1 == 1) == (((x >> i) & 1 == 1) != (m <= i && i < m + b && ((x >> j) & 1
        == 1)))) by (bit_vector)
        requires
            j == i + s,
            1 <= b <= s,
            t == m + s,
            t + b <= 64,
            i < 64,
            v == x ^ ((x & ((((1u64 << b) - 1) as u64) << t)) >> s),
    ;
}

/// The bit ranges of a valid swizzle lie in order and inside 64 bits: the untouched
/// bits below the target bits, and the source bits above them, so that the bits a
/// swizzle reads are never bits it writes.
pub proof fn lemma_bit_ranges_ordered(sw: Swizzle)
    requires
        sw.valid(),
    ensures
        forall|i: int, j: int|
            0 <= i < sw.m && 0 <= j < sw.b ==> #[trigger] bit_range(0, sw.m as int)[i]
                < #[trigger] bit_range(sw.m as int, sw.b as int)[j],
        forall|i: int, j: int|
            0 <= i < sw.b && 0 <= j < sw.b ==> #[trigger] bit_range(sw.m as int, sw.b as int)[i]
                < #[trigger] bit_range(sw.m + sw.s, sw.b as int)[j],
        forall|j: int| 0 <= j < sw.b ==> #[trigger] bit_range(sw.m + sw.s, sw.b as int)[j] < 64,
{
}

proof fn lemma_digits_plain(d: Seq<char>, seps: Seq<char>)
    requires
        forall|i: int| 0 <= i < d.len() ==> is_digit(#[trigger] d[i]),
        seps == seq![',', ' ', ';'],
    ensures
        forall|i: int| 0 <= i < d.len() ==> !seps.contains(#[trigger] d[i]),
{
    assert forall|i: int| 0 <= i < d.len() implies !seps.contains(#[trigger] d[i]) by {
        if seps.contains(d[i]) {
            let k = choose|k: int| 0 <= k < seps.len() && seps[k] == d[i];
        }
    }
}

/// A swizzle's parameters in decimal, between the brackets `open` and `close`
/// and separated by `sep`.
pub open spec fn swizzle_form(sw: Swizzle, open: Seq<char>, sep: char, close: Seq<char>) -> Seq<
    char,
> {
    open + dec(sw.b as nat) + seq![sep] + dec(sw.m as nat) + seq![sep] + dec(sw.s as nat) + close
}

/// The brackets a swizzle may be written in: none, `<` `>`, or `(` `)`.
pub open spec fn bracket_pair(open: Seq<char>, close: Seq<char>) -> bool {
    ||| open == Seq::<char>::empty() && close == Seq::<char>::empty()
    ||| open == seq!['<'] && close == seq!['>']
    ||| open == seq!['('] && close == seq![')']
}

/// The three numbers separated by `sep` split back into the three numbers.
proof fn lemma_core_tokens(sw: Swizzle, sep: char)
    requires
        sep == ',' || sep == ' ' || sep == ';',
    ensures
        tokens(
            (dec(sw.b as nat).push(sep) + dec(sw.m as nat)).push(sep) + dec(sw.s as nat),
            seq![',', ' ', ';'],
        ) == seq![dec(sw.b as nat), dec(sw.m as nat), dec(sw.s as nat)],
{
    let db = dec(sw.b as nat);
    let dm = dec(sw.m as nat);
    let ds = dec(sw.s as nat);
    lemma_dec_digits(sw.b as nat);
    lemma_dec_digits(sw.m as nat);
    lemma_dec_digits(sw.s as nat);
    let seps = seq![',', ' ', ';'];
    assert(seps.contains(sep)) by {
        if sep == ',' {
            assert(seps[0] == sep);
        } else if sep == ' ' {
            assert(seps[1] == sep);
        } else {
            assert(seps[2] == sep);
        }
    }
    lemma_digits_plain(db, seps);
    lemma_digits_plain(dm, seps);
    lemma_digits_plain(ds, seps);
    let e = Seq::<char>::empty();
    lemma_split_append_plain(e, db, seps);
    assert(e + db =~= db);
    assert(split_pieces(db, seps) =~~= seq![db]);
    lemma_split_push_sep(db, sep, seps);
    lemma_split_append_plain(db.push(sep), dm, seps);
    assert(split_pieces(db.push(sep) + dm, seps) =~~= seq![db, dm]);
    lemma_split_push_sep(db.push(sep) + dm, sep, seps);
    lemma_split_append_plain((db.push(sep) + dm).push(sep), ds, seps);
    let t = (db.push(sep) + dm).push(sep) + ds;
    assert(split_pieces(t, seps) =~~= seq![db, dm, ds]);
    reveal_with_fuel(Seq::filter, 4);
    assert(seq![db, dm, ds].drop_last() =~= seq![db, dm]);
    assert(seq![db, dm].drop_last() =~= seq![db]);
    assert(seq![db].drop_last() =~= Seq::<Seq<char>>::empty());
    assert(tokens(t, seps) =~~= seq![db, dm, ds]);
}

/// Taking off white space and the brackets leaves the three separated numbers.
#[verifier::spinoff_prover]
proof fn lemma_form_brackets(sw: Swizzle, open: Seq<char>, sep: char, close: Seq<char>)
    requires
        bracket_pair(open, close),
    ensures
        trim_end(
            trim_start(
                trim_end(trim_start(trim(swizzle_form(sw, open, sep, close)), Some('<')), Some('>')),
                Some('('),
            ),
            Some(')'),
        ) == (dec(sw.b as nat).push(sep) + dec(sw.m as nat)).push(sep) + dec(sw.s as nat),
{
    let db = dec(sw.b as nat);
    let dm = dec(sw.m as nat);
    let ds = dec(sw.s as nat);
    lemma_dec_digits(sw.b as nat);
    lemma_dec_digits(sw.s as nat);
    let core = (db.push(sep) + dm).push(sep) + ds;
    let w = swizzle_form(sw, open, sep, close);
    assert(w =~= open + core + close);
    // the numbers start and end with digits, so trimming stops at them
    assert(core[0] == db[0]);
    assert(core.last() == ds.last());
    assert(is_digit(core[0]) && is_digit(core.last()));
    assert(trim_start(core, Some('(')) == core);
    assert(trim_end(core, Some(')')) == core);
    if open.len() == 0 {
        assert(w =~= core);
        assert(trim_start(core, None) == core);
        assert(trim_end(core, None) == core);
        assert(trim_start(core, Some('<')) == core);
        assert(trim_end(core, Some('>')) == core);
    } else if open == seq!['<'] {
        assert(w[0] == '<');
        assert(w.last() == '>');
        assert(trim_start(w, None) == w);
        assert(trim_end(w, None) == w);
        assert(w.drop_first() =~= core + close);
        assert((core + close)[0] == core[0]);
        assert(trim_start(core + close, Some('<')) == core + close);
        assert(trim_start(w, Some('<')) == core + close);
        assert((core + close).drop_last() =~= core);
        assert(trim_end(core, Some('>')) == core);
        assert(trim_end(core + close, Some('>')) == core);
    } else {
        assert(open == seq!['(']);
        assert(w[0] == '(');
        assert(w.last() == ')');
        assert(trim_start(w, None) == w);
        assert(trim_end(w, None) == w);
        assert(trim_start(w, Some('<')) == w);
        assert(trim_end(w, Some('>')) == w);
        assert(w.drop_first() =~= core + close);
        assert((core + close)[0] == core[0]);
        assert(trim_start(core + close, Some('(')) == core + close);
        assert(trim_start(w, Some('(')) == core + close);
        assert((core + close).drop_last() =~= core);
        assert(trim_end(core + close, Some(')')) == core);
    }
}

/// A valid swizzle written with any of the separators `,`, space or `;`, bare or
/// between `<` `>` or `(` `)`, reads back as that swizzle.
#[verifier::spinoff_prover]
pub proof fn lemma_swizzle_forms_read_back(sw: Swizzle, open: Seq<char>, sep: char, close: Seq<
    char,
>)
    requires
        sw.valid(),
        sep == ',' || sep == ' ' || sep == ';',
        bracket_pair(open, close),
    ensures
        parse_swizzle_spec(swizzle_form(sw, open, sep, close)) == Ok::<Swizzle, BankErrorView>(sw),
{
    let db = dec(sw.b as nat);
    let dm = dec(sw.m as nat);
    let ds = dec(sw.s as nat);
    let w = swizzle_form(sw, open, sep, close);
    lemma_form_brackets(sw, open, sep, close);
    lemma_core_tokens(sw, sep);
    assert(swizzle_tokens(w) == seq![db, dm, ds]);
    // each number reads back
    lemma_dec_digits(sw.s as nat);
    lemma_parse_dec(sw.b as nat, 255);
    lemma_parse_dec(sw.m as nat, 255);
    lemma_parse_dec(sw.s as nat, 255);
    lemma_parse_dec(sw.s as nat, i64::MAX as int);
    lemma_dec_digits(sw.b as nat);
    lemma_dec_digits(sw.m as nat);
    assert(parse_signed64(ds) == Ok::<int, crate::text::IntErrorKind>(sw.s as int));
}

/// Reading a valid swizzle back from its `B,M,S` text gives the same swizzle.
pub proof fn lemma_text_round_trip(sw: Swizzle)
    requires
        sw.valid(),
    ensures
        parse_swizzle_spec(swizzle_raw(sw.b, sw.m, sw.s)) == Ok::<Swizzle, BankErrorView>(sw),
{
    reveal_strlit(",");
    let e = Seq::<char>::empty();
    assert(swizzle_raw(sw.b, sw.m, sw.s) =~= swizzle_form(sw, e, ',', e));
    lemma_swizzle_forms_read_back(sw, e, ',', e);
}

/// Whatever text reads as a swizzle gives parameters that `Swizzle::new` accepts
/// as they are.
pub proof fn lemma_parsed_swizzle_valid(t: Seq<char>)
    ensures
        parse_swizzle_spec(t) matches Ok(sw) ==> sw.valid() && new_swizzle_spec(sw.b, sw.m, sw.s)
            == Ok::<Swizzle, BankErrorView>(sw),
{
}

} // verus!
