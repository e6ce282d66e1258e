//! Character-level text handling shared by the parsers: trimming, splitting
//! into pieces, decimal integers in both directions.
use vstd::prelude::*;

verus! {

/// Whether `c` has the Unicode `White_Space` property (what `char::is_whitespace` tests).
pub open spec fn is_ws(c: char) -> bool {
    let u = c as u32;
    ||| 0x9 <= u <= 0xd
    ||| u == 0x20
    ||| u == 0x85
    ||| u == 0xa0
    ||| u == 0x1680
    ||| 0x2000 <= u <= 0x200a
    ||| u == 0x2028
    ||| u == 0x2029
    ||| u == 0x202f
    ||| u == 0x205f
    ||| u == 0x3000
}

/// The character class that a trim removes: white space, or one given character.
pub open spec fn trim_class(pat: Option<char>, c: char) -> bool {
    match pat {
        None => is_ws(c),
        Some(p) => c == p,
    }
}

/// `s` without the leading characters of the class.
pub open spec fn trim_start(s: Seq<char>, pat: Option<char>) -> Seq<char>
    decreases s.len(),
{
    if s.len() > 0 && trim_class(pat, s[0]) {
        trim_start(s.drop_first(), pat)
    } else {
        s
    }
}

/// `s` without the trailing characters of the class.
pub open spec fn trim_end(s: Seq<char>, pat: Option<char>) -> Seq<char>
    decreases s.len(),
{
    if s.len() > 0 && trim_class(pat, s.last()) {
        trim_end(s.drop_last(), pat)
    } else {
        s
    }
}

/// `s` without leading and trailing white space.
pub open spec fn trim(s: Seq<char>) -> Seq<char> {
    trim_end(trim_start(s, None), None)
}

/// The pieces of `s` between separators (any character of `seps`), empty pieces
/// included: `k` separators give `k + 1` pieces.
pub open spec fn split_pieces(s: Seq<char>, seps: Seq<char>) -> Seq<Seq<char>>
    decreases s.len(),
{
    if s.len() == 0 {
        seq![Seq::<char>::empty()]
    } else {
        let init = split_pieces(s.drop_last(), seps);
        if seps.contains(s.last()) {
            init.push(Seq::<char>::empty())
        } else {
            init.update(init.len() - 1, init.last().push(s.last()))
        }
    }
}

pub open spec fn nonempty(p: Seq<char>) -> bool {
    p.len() > 0
}

/// The non-empty pieces of `s` between separators.
pub open spec fn tokens(s: Seq<char>, seps: Seq<char>) -> Seq<Seq<char>> {
    split_pieces(s, seps).filter(|p: Seq<char>| nonempty(p))
}

/// The pieces of `s` between separators, each trimmed of white space.
pub open spec fn trimmed_pieces(s: Seq<char>, seps: Seq<char>) -> Seq<Seq<char>> {
    split_pieces(s, seps).map_values(|p: Seq<char>| trim(p))
}

/// The sub-sequences of `v` that the spans (start, end) select.
pub open spec fn spans_view(v: Seq<char>, spans: Seq<(usize, usize)>) -> Seq<Seq<char>> {
    spans.map_values(|p: (usize, usize)| v.subrange(p.0 as int, p.1 as int))
}

pub open spec fn spans_within(spans: Seq<(usize, usize)>, lo: int, hi: int) -> bool {
    forall|k: int|
        0 <= k < spans.len() ==> lo <= (#[trigger] spans[k]).0 <= spans[k].1 <= hi
}

pub proof fn lemma_split_pieces_len(s: Seq<char>, seps: Seq<char>)
    ensures
        split_pieces(s, seps).len() >= 1,
    decreases s.len(),
{
    if s.len() > 0 {
        lemma_split_pieces_len(s.drop_last(), seps);
    }
}

/// Why a decimal integer could not be read.
#[derive(Debug, Clone, Copy, PartialEq, Eq)]
pub enum IntErrorKind {
    Empty,
    InvalidDigit,
    PosOverflow,
    NegOverflow,
}

/// The text that std's `ParseIntError` displays for each kind.
pub open spec fn int_err_text(k: IntErrorKind) -> Seq<char> {
    match k {
        IntErrorKind::Empty => "cannot parse integer from empty string"@,
        IntErrorKind::InvalidDigit => "invalid digit found in string"@,
        IntErrorKind::PosOverflow => "number too large to fit in target type"@,
        IntErrorKind::NegOverflow => "number too small to fit in target type"@,
    }
}

pub fn int_err_str(k: IntErrorKind) -> (r: &'static str)
    ensures
        r@ == int_err_text(k),
{
    match k {
        IntErrorKind::Empty => "cannot parse integer from empty string",
        IntErrorKind::InvalidDigit => "invalid digit found in string",
        IntErrorKind::PosOverflow => "number too large to fit in target type",
        IntErrorKind::NegOverflow => "number too small to fit in target type",
    }
}

pub open spec fn is_digit(c: char) -> bool {
    '0' <= c <= '9'
}

pub open spec fn digit_val(c: char) -> int {
    (c as u32) - ('0' as u32)
}

/// Reading decimal digits left to right onto `acc`, failing on the first
/// character that is no digit or that takes the value past `max`.
pub open spec fn accum_pos(acc: int, d: Seq<char>, max: int) -> Result<int, IntErrorKind>
    decreases d.len(),
{
    if d.len() == 0 {
        Ok(acc)
    } else if !is_digit(d[0]) {
        Err(IntErrorKind::InvalidDigit)
    } else if acc * 10 + digit_val(d[0]) > max {
        Err(IntErrorKind::PosOverflow)
    } else {
        accum_pos(acc * 10 + digit_val(d[0]), d.drop_first(), max)
    }
}

/// As `accum_pos`, for a negative number whose value may not pass below `min`.
pub open spec fn accum_neg(acc: int, d: Seq<char>, min: int) -> Result<int, IntErrorKind>
    decreases d.len(),
{
    if d.len() == 0 {
        Ok(acc)
    } else if !is_digit(d[0]) {
        Err(IntErrorKind::InvalidDigit)
    } else if acc * 10 - digit_val(d[0]) < min {
        Err(IntErrorKind::NegOverflow)
    } else {
        accum_neg(acc * 10 - digit_val(d[0]), d.drop_first(), min)
    }
}

/// What `str::parse` gives for an unsigned integer type whose largest value is `max`.
pub open spec fn parse_unsigned(s: Seq<char>, max: int) -> Result<int, IntErrorKind> {
    if s.len() == 0 {
        Err(IntErrorKind::Empty)
    } else if s.len() == 1 && (s[0] == '+' || s[0] == '-') {
        Err(IntErrorKind::InvalidDigit)
    } else if s[0] == '+' {
        accum_pos(0, s.drop_first(), max)
    } else {
        accum_pos(0, s, max)
    }
}

/// What `str::parse::<i64>` gives.
pub open spec fn parse_signed64(s: Seq<char>) -> Result<int, IntErrorKind> {
    if s.len() == 0 {
        Err(IntErrorKind::Empty)
    } else if s.len() == 1 && (s[0] == '+' || s[0] == '-') {
        Err(IntErrorKind::InvalidDigit)
    } else if s[0] == '+' {
        accum_pos(0, s.drop_first(), i64::MAX as int)
    } else if s[0] == '-' {
        accum_neg(0, s.drop_first(), i64::MIN as int)
    } else {
        accum_pos(0, s, i64::MAX as int)
    }
}

pub proof fn lemma_accum_pos_bounds(acc: int, d: Seq<char>, max: int)
    requires
        0 <= acc <= max,
    ensures
        accum_pos(acc, d, max) matches Ok(v) ==> 0 <= v <= max,
    decreases d.len(),
{
    if d.len() > 0 && is_digit(d[0]) && acc * 10 + digit_val(d[0]) <= max {
        lemma_accum_pos_bounds(acc * 10 + digit_val(d[0]), d.drop_first(), max);
    }
}

pub proof fn lemma_accum_neg_bounds(acc: int, d: Seq<char>, min: int)
    requires
        min <= acc <= 0,
    ensures
        accum_neg(acc, d, min) matches Ok(v) ==> min <= v <= 0,
    decreases d.len(),
{
    if d.len() > 0 && is_digit(d[0]) && acc * 10 - digit_val(d[0]) >= min {
        lemma_accum_neg_bounds(acc * 10 - digit_val(d[0]), d.drop_first(), min);
    }
}

pub proof fn lemma_parse_unsigned_bounds(s: Seq<char>, max: int)
    requires
        0 <= max,
    ensures
        parse_unsigned(s, max) matches Ok(v) ==> 0 <= v <= max,
{
    if s.len() > 0 && s[0] == '+' {
        lemma_accum_pos_bounds(0, s.drop_first(), max);
    } else {
        lemma_accum_pos_bounds(0, s, max);
    }
}

pub proof fn lemma_parse_signed64_bounds(s: Seq<char>)
    ensures
        parse_signed64(s) matches Ok(v) ==> i64::MIN <= v <= i64::MAX,
{
    if s.len() > 0 && s[0] == '-' {
        lemma_accum_neg_bounds(0, s.drop_first(), i64::MIN as int);
    } else if s.len() > 0 && s[0] == '+' {
        lemma_accum_pos_bounds(0, s.drop_first(), i64::MAX as int);
    } else {
        lemma_accum_pos_bounds(0, s, i64::MAX as int);
    }
}

pub open spec fn digit_char(d: nat) -> char {
    seq!['0', '1', '2', '3', '4', '5', '6', '7', '8', '9'][d as int]
}

/// The decimal representation of `n`, with no sign and no leading zero.
pub open spec fn dec(n: nat) -> Seq<char>
    decreases n,
{
    if n < 10 {
        seq![digit_char(n)]
    } else {
        dec(n / 10).push(digit_char(n % 10))
    }
}

/// The characters of `s`, one by one.
pub fn chars_of(s: &str) -> (v: Vec<char>)
    ensures
        v@ == s@,
{
    let n = s.unicode_len();
    let mut v: Vec<char> = Vec::new();
    let mut i: usize = 0;
    while i < n
        invariant
            n == s@.len(),
            i <= n,
            v@ == s@.subrange(0, i as int),
        decreases n - i,
    {
        let c = s.get_char(i);
        v.push(c);
        i += 1;
        assert(v@ =~= s@.subrange(0, i as int));
    }
    assert(v@ =~= s@);
    v
}

pub fn is_ws_char(c: char) -> (r: bool)
    ensures
        r == is_ws(c),
{
    let u = c as u32;
    (0x9 <= u && u <= 0xd) || u == 0x20 || u == 0x85 || u == 0xa0 || u == 0x1680 || (0x2000 <= u
        && u <= 0x200a) || u == 0x2028 || u == 0x2029 || u == 0x202f || u == 0x205f || u == 0x3000
}

fn in_class(pat: Option<char>, c: char) -> (r: bool)
    ensures
        r == trim_class(pat, c),
{
    match pat {
        None => is_ws_char(c),
        Some(p) => c == p,
    }
}

/// Narrows the span `lo..hi` of `v` past its leading characters of the class.
pub fn trim_start_span(v: &Vec<char>, lo: usize, hi: usize, pat: Option<char>) -> (r: usize)
    requires
        lo <= hi <= v@.len(),
    ensures
        lo <= r <= hi,
        v@.subrange(r as int, hi as int) == trim_start(v@.subrange(lo as int, hi as int), pat),
{
    let mut i = lo;
    while i < hi && in_class(pat, v[i])
        invariant
            lo <= i <= hi <= v@.len(),
            trim_start(v@.subrange(i as int, hi as int), pat) == trim_start(
                v@.subrange(lo as int, hi as int),
                pat,
            ),
        decreases hi - i,
    {
        assert(v@.subrange(i as int, hi as int).drop_first() =~= v@.subrange(
            i + 1,
            hi as int,
        ));
        i += 1;
    }
    i
}

/// Narrows the span `lo..hi` of `v` before its trailing characters of the class.
pub fn trim_end_span(v: &Vec<char>, lo: usize, hi: usize, pat: Option<char>) -> (r: usize)
    requires
        lo <= hi <= v@.len(),
    ensures
        lo <= r <= hi,
        v@.subrange(lo as int, r as int) == trim_end(v@.subrange(lo as int, hi as int), pat),
{
    let mut j = hi;
    while j > lo && in_class(pat, v[j - 1])
        invariant
            lo <= j <= hi <= v@.len(),
            trim_end(v@.subrange(lo as int, j as int), pat) == trim_end(
                v@.subrange(lo as int, hi as int),
                pat,
            ),
        decreases j - lo,
    {
        assert(v@.subrange(lo as int, j as int).drop_last() =~= v@.subrange(
            lo as int,
            j - 1,
        ));
        j -= 1;
    }
    j
}

/// The span of `v[lo..hi]` trimmed of white space at both ends.
pub fn trim_span(v: &Vec<char>, lo: usize, hi: usize) -> (r: (usize, usize))
    requires
        lo <= hi <= v@.len(),
    ensures
        lo <= r.0 <= r.1 <= hi,
        v@.subrange(r.0 as int, r.1 as int) == trim(v@.subrange(lo as int, hi as int)),
{
    let a = trim_start_span(v, lo, hi, None);
    let b = trim_end_span(v, a, hi, None);
    (a, b)
}

fn contains_char(seps: &Vec<char>, c: char) -> (r: bool)
    ensures
        r == seps@.contains(c),
{
    let mut i: usize = 0;
    while i < seps.len()
        invariant
            i <= seps@.len(),
            forall|j: int| 0 <= j < i ==> seps@[j] != c,
        decreases seps.len() - i,
    {
        if seps[i] == c {
            return true;
        }
        i += 1;
    }
    false
}

/// The spans of the pieces of `v[lo..hi]` between separators.
pub fn split_spans(v: &Vec<char>, lo: usize, hi: usize, seps: &Vec<char>) -> (r: Vec<
    (usize, usize),
>)
    requires
        lo <= hi <= v@.len(),
    ensures
        spans_view(v@, r@) == split_pieces(v@.subrange(lo as int, hi as int), seps@),
        spans_within(r@, lo as int, hi as int),
{
    let mut spans: Vec<(usize, usize)> = Vec::new();
    let mut start = lo;
    let mut i = lo;
    assert(spans_view(v@, spans@.push((start, i))) =~~= split_pieces(
        v@.subrange(lo as int, i as int),
        seps@,
    ));
    while i < hi
        invariant
            lo <= start <= i <= hi <= v@.len(),
            spans_within(spans@, lo as int, start as int),
            spans_view(v@, spans@.push((start, i))) == split_pieces(
                v@.subrange(lo as int, i as int),
                seps@,
            ),
        decreases hi - i,
    {
        let c = v[i];
        let ghost old_all = spans@.push((start, i));
        let ghost s_next = v@.subrange(lo as int, i + 1);
        assert(s_next.drop_last() =~= v@.subrange(lo as int, i as int));
        assert(s_next.last() == c);
        if contains_char(seps, c) {
            spans.push((start, i));
            start = i + 1;
            i = i + 1;
            assert(spans_view(v@, spans@.push((start, i))) =~~= spans_view(v@, old_all).push(
                Seq::<char>::empty(),
            ));
        } else {
            i = i + 1;
            proof {
                let prev = spans_view(v@, old_all);
                assert(prev.last() == v@.subrange(start as int, i - 1));
                assert(v@.subrange(start as int, i as int) =~= v@.subrange(
                    start as int,
                    i - 1,
                ).push(c));
                assert(spans_view(v@, spans@.push((start, i))) =~= prev.update(
                    prev.len() - 1,
                    prev.last().push(c),
                ));
            }
        }
    }
    spans.push((start, hi));
    spans
}

/// Keeps the spans that are not empty.
pub fn nonempty_spans(v: &Vec<char>, spans: &Vec<(usize, usize)>) -> (r: Vec<(usize, usize)>)
    requires
        spans_within(spans@, 0, v@.len() as int),
    ensures
        spans_view(v@, r@) == spans_view(v@, spans@).filter(|p: Seq<char>| nonempty(p)),
        spans_within(r@, 0, v@.len() as int),
{
    let mut out: Vec<(usize, usize)> = Vec::new();
    let mut i: usize = 0;
    while i < spans.len()
        invariant
            i <= spans@.len(),
            spans_within(spans@, 0, v@.len() as int),
            spans_within(out@, 0, v@.len() as int),
            spans_view(v@, out@) == spans_view(v@, spans@.subrange(0, i as int)).filter(
                |p: Seq<char>| nonempty(p),
            ),
        decreases spans.len() - i,
    {
        let (a, b) = spans[i];
        let ghost pre = spans_view(v@, spans@.subrange(0, i as int));
        assert(spans_view(v@, spans@.subrange(0, i + 1)) =~= pre.push(
            v@.subrange(a as int, b as int),
        ));
        proof {
            pre.lemma_filter_push(v@.subrange(a as int, b as int), |p: Seq<char>| nonempty(p));
        }
        if a < b {
            let ghost before = out@;
            out.push((a, b));
            assert(spans_view(v@, out@) =~= spans_view(v@, before).push(
                v@.subrange(a as int, b as int),
            ));
        }
        i += 1;
    }
    assert(spans@.subrange(0, i as int) =~= spans@);
    out
}

/// Trims every span of white space.
pub fn trim_spans(v: &Vec<char>, spans: &Vec<(usize, usize)>) -> (r: Vec<(usize, usize)>)
    requires
        spans_within(spans@, 0, v@.len() as int),
    ensures
        spans_view(v@, r@) == spans_view(v@, spans@).map_values(|p: Seq<char>| trim(p)),
        spans_within(r@, 0, v@.len() as int),
{
    let mut out: Vec<(usize, usize)> = Vec::new();
    let mut i: usize = 0;
    while i < spans.len()
        invariant
            i <= spans@.len(),
            out@.len() == i,
            spans_within(spans@, 0, v@.len() as int),
            spans_within(out@, 0, v@.len() as int),
            forall|k: int|
                0 <= k < i ==> v@.subrange(out@[k].0 as int, out@[k].1 as int) == trim(
                    v@.subrange(spans@[k].0 as int, spans@[k].1 as int),
                ),
        decreases spans.len() - i,
    {
        let (a, b) = spans[i];
        let t = trim_span(v, a, b);
        out.push(t);
        i += 1;
    }
    assert(spans_view(v@, out@) =~= spans_view(v@, spans@).map_values(|p: Seq<char>| trim(p)));
    out
}

/// Reads `v[lo..hi]` as an unsigned decimal number no larger than `max`.
pub fn parse_uint(v: &Vec<char>, lo: usize, hi: usize, max: u64) -> (r: Result<u64, IntErrorKind>)
    requires
        lo <= hi <= v@.len(),
    ensures
        match parse_unsigned(v@.subrange(lo as int, hi as int), max as int) {
            Ok(x) => r == Ok::<u64, IntErrorKind>(x as u64),
            Err(e) => r == Err::<u64, IntErrorKind>(e),
        },
        r matches Ok(x) ==> parse_unsigned(v@.subrange(lo as int, hi as int), max as int) == Ok::<
            int,
            IntErrorKind,
        >(x as int),
{
    let ghost s = v@.subrange(lo as int, hi as int);
    if lo == hi {
        return Err(IntErrorKind::Empty);
    }
    let first = v[lo];
    if hi - lo == 1 && (first == '+' || first == '-') {
        return Err(IntErrorKind::InvalidDigit);
    }
    let mut i = lo;
    if first == '+' {
        i = lo + 1;
        assert(s.drop_first() =~= v@.subrange(i as int, hi as int));
    } else {
        assert(s =~= v@.subrange(i as int, hi as int));
    }
    let mut acc: u64 = 0;
    while i < hi
        invariant
            lo <= i <= hi <= v@.len(),
            s == v@.subrange(lo as int, hi as int),
            acc <= max,
            parse_unsigned(s, max as int) == accum_pos(
                acc as int,
                v@.subrange(i as int, hi as int),
                max as int,
            ),
        decreases hi - i,
    {
        let c = v[i];
        let ghost d = v@.subrange(i as int, hi as int);
        assert(d[0] == c);
        assert(d.drop_first() =~= v@.subrange(i + 1, hi as int));
        if !('0' <= c && c <= '9') {
            return Err(IntErrorKind::InvalidDigit);
        }
        let dv = (c as u32) - ('0' as u32);
        let n: u128 = (acc as u128) * 10 + (dv as u128);
        if n > max as u128 {
            return Err(IntErrorKind::PosOverflow);
        }
        acc = n as u64;
        i += 1;
    }
    proof {
        lemma_parse_unsigned_bounds(s, max as int);
    }
    Ok(acc)
}

/// Reads `v[lo..hi]` as an `i64` in decimal.
pub fn parse_i64(v: &Vec<char>, lo: usize, hi: usize) -> (r: Result<i64, IntErrorKind>)
    requires
        lo <= hi <= v@.len(),
    ensures
        match parse_signed64(v@.subrange(lo as int, hi as int)) {
            Ok(x) => r == Ok::<i64, IntErrorKind>(x as i64),
            Err(e) => r == Err::<i64, IntErrorKind>(e),
        },
        r matches Ok(x) ==> parse_signed64(v@.subrange(lo as int, hi as int)) == Ok::<
            int,
            IntErrorKind,
        >(x as int),
{
    let ghost s = v@.subrange(lo as int, hi as int);
    if lo == hi {
        return Err(IntErrorKind::Empty);
    }
    let first = v[lo];
    if hi - lo == 1 && (first == '+' || first == '-') {
        return Err(IntErrorKind::InvalidDigit);
    }
    if first == '-' {
        let mut i = lo + 1;
        assert(s.drop_first() =~= v@.subrange(i as int, hi as int));
        let mut acc: i64 = 0;
        while i < hi
            invariant
                lo < i <= hi <= v@.len(),
                s == v@.subrange(lo as int, hi as int),
                acc <= 0,
                parse_signed64(s) == accum_neg(
                    acc as int,
                    v@.subrange(i as int, hi as int),
                    i64::MIN as int,
                ),
            decreases hi - i,
        {
            let c = v[i];
            let ghost d = v@.subrange(i as int, hi as int);
            assert(d[0] == c);
            assert(d.drop_first() =~= v@.subrange(i + 1, hi as int));
            if !('0' <= c && c <= '9') {
                return Err(IntErrorKind::InvalidDigit);
            }
            let dv = (c as u32) - ('0' as u32);
            let n: i128 = (acc as i128) * 10 - (dv as i128);
            if n < i64::MIN as i128 {
                return Err(IntErrorKind::NegOverflow);
            }
            acc = n as i64;
            i += 1;
        }
        proof {
            lemma_parse_signed64_bounds(s);
        }
        return Ok(acc);
    }
    let mut i = lo;
    if first == '+' {
        i = lo + 1;
        assert(s.drop_first() =~= v@.subrange(i as int, hi as int));
    } else {
        assert(s =~= v@.subrange(i as int, hi as int));
    }
    let mut acc: i64 = 0;
    while i < hi
        invariant
            lo <= i <= hi <= v@.len(),
            s == v@.subrange(lo as int, hi as int),
            0 <= acc,
            parse_signed64(s) == accum_pos(
                acc as int,
                v@.subrange(i as int, hi as int),
                i64::MAX as int,
            ),
        decreases hi - i,
    {
        let c = v[i];
        let ghost d = v@.subrange(i as int, hi as int);
        assert(d[0] == c);
        assert(d.drop_first() =~= v@.subrange(i + 1, hi as int));
        if !('0' <= c && c <= '9') {
            return Err(IntErrorKind::InvalidDigit);
        }
        let dv = (c as u32) - ('0' as u32);
        let n: i128 = (acc as i128) * 10 + (dv as i128);
        if n > i64::MAX as i128 {
            return Err(IntErrorKind::PosOverflow);
        }
        acc = n as i64;
        i += 1;
    }
    proof {
        lemma_parse_signed64_bounds(s);
    }
    Ok(acc)
}

/// Appends the decimal representation of `n` to `out`.
pub fn append_dec(out: &mut String, n: u64)
    ensures
        final(out)@ == old(out)@ + dec(n as nat),
    decreases n,
{
    if n >= 10 {
        append_dec(out, n / 10);
    }
    let digits = "0123456789";
    proof {
        reveal_strlit("0123456789");
    }
    let d = (n % 10) as usize;
    let piece = digits.substring_char(d, d + 1);
    assert(piece@ =~= seq![digit_char(d as nat)]);
    out.append(piece);
}

/// The text `{prefix}{token}`: {error}` that names a token that is no number.
pub open spec fn token_error_text(prefix: Seq<char>, token: Seq<char>, e: IntErrorKind) -> Seq<
    char,
> {
    prefix + token + "`: "@ + int_err_text(e)
}

pub fn token_error_string(prefix: &str, s: &str, lo: usize, hi: usize, e: IntErrorKind) -> (r:
    String)
    requires
        lo <= hi <= s@.len(),
    ensures
        r@ == token_error_text(prefix@, s@.subrange(lo as int, hi as int), e),
{
    let mut r = String::from_str(prefix);
    r.append(s.substring_char(lo, hi));
    r.append("`: ");
    r.append(int_err_str(e));
    r
}

/// `c` with ASCII capitals made small, as `to_ascii_lowercase` does.
pub open spec fn ascii_lower(c: char) -> char {
    if 'A' <= c <= 'Z' {
        ((c as u32) + 32) as char
    } else {
        c
    }
}

pub open spec fn ascii_lowercase(s: Seq<char>) -> Seq<char> {
    s.map_values(|c: char| ascii_lower(c))
}

/// `str::to_ascii_lowercase`: documented to map the ASCII letters `A`..`Z` to
/// `a`..`z` and to leave every other character as it is.
#[verifier::external_body]
pub(crate) fn to_ascii_lowercase(s: &str) -> (r: String)
    ensures
        r@ == ascii_lowercase(s@),
{
    s.to_ascii_lowercase()
}

/// The first position at or after `i` where `p` occurs in `s`.
pub open spec fn find_from(s: Seq<char>, p: Seq<char>, i: int) -> Option<int>
    decreases s.len() + 1 - i,
{
    if i < 0 || i + p.len() > s.len() {
        None
    } else if s.subrange(i, i + p.len()) == p {
        Some(i)
    } else {
        find_from(s, p, i + 1)
    }
}

/// The first position where `p` occurs in `s`.
pub open spec fn find(s: Seq<char>, p: Seq<char>) -> Option<int> {
    find_from(s, p, 0)
}

proof fn lemma_find_from_bounds(s: Seq<char>, p: Seq<char>, i: int)
    ensures
        find_from(s, p, i) matches Some(k) ==> i <= k && k + p.len() <= s.len() && s.subrange(
            k,
            k + p.len(),
        ) == p,
    decreases s.len() + 1 - i,
{
    if i >= 0 && i + p.len() <= s.len() && s.subrange(i, i + p.len()) != p {
        lemma_find_from_bounds(s, p, i + 1);
    }
}

/// The position (in `v`) of the first occurrence of `p` in `v[lo..hi]`.
pub fn find_span(v: &Vec<char>, lo: usize, hi: usize, p: &Vec<char>) -> (r: Option<usize>)
    requires
        lo <= hi <= v@.len(),
    ensures
        match find(v@.subrange(lo as int, hi as int), p@) {
            Some(k) => 0 <= k && r == Some((lo + k) as usize) && lo + k + p@.len() <= hi,
            None => r is None,
        },
{
    let ghost s = v@.subrange(lo as int, hi as int);
    let mut i = lo;
    while p.len() <= hi - i
        invariant
            lo <= i <= hi <= v@.len(),
            s == v@.subrange(lo as int, hi as int),
            find(s, p@) == find_from(s, p@, i - lo),
        decreases hi - i,
    {
        let mut j: usize = 0;
        let mut same = true;
        while j < p.len()
            invariant
                i + p@.len() <= hi <= v@.len(),
                j <= p@.len(),
                same == (forall|q: int| 0 <= q < j ==> v@[i + q] == p@[q]),
            decreases p.len() - j,
        {
            if v[i + j] != p[j] {
                same = false;
            }
            j += 1;
        }
        proof {
            let sub = s.subrange(i - lo, i - lo + p@.len());
            if same {
                assert(sub =~= p@);
            } else {
                let q = choose|q: int| 0 <= q < p@.len() && v@[i + q] != p@[q];
                assert(sub[q] != p@[q]);
            }
        }
        if same {
            proof {
                lemma_find_from_bounds(s, p@, i - lo);
            }
            return Some(i);
        }
        i += 1;
    }
    None
}

/// Whether the two strings hold the same characters.
pub fn str_eq(a: &str, b: &str) -> (r: bool)
    ensures
        r == (a@ == b@),
{
    let n = a.unicode_len();
    let m = b.unicode_len();
    if n != m {
        return false;
    }
    let mut i: usize = 0;
    while i < n
        invariant
            n == a@.len(),
            m == b@.len(),
            n == m,
            i <= n,
            forall|j: int| 0 <= j < i ==> a@[j] == b@[j],
        decreases n - i,
    {
        if a.get_char(i) != b.get_char(i) {
            return false;
        }
        i += 1;
    }
    assert(a@ =~= b@);
    true
}

proof fn lemma_digit_char(d: nat)
    requires
        d < 10,
    ensures
        is_digit(digit_char(d)),
        digit_val(digit_char(d)) == d,
{
    assert(seq!['0', '1', '2', '3', '4', '5', '6', '7', '8', '9'][d as int] == digit_char(d));
}

/// A decimal representation is a non-empty run of digits.
pub proof fn lemma_dec_digits(n: nat)
    ensures
        dec(n).len() >= 1,
        forall|i: int| 0 <= i < dec(n).len() ==> is_digit(#[trigger] dec(n)[i]),
    decreases n,
{
    lemma_digit_char(n % 10);
    if n >= 10 {
        lemma_dec_digits(n / 10);
        assert forall|i: int| 0 <= i < dec(n).len() implies is_digit(#[trigger] dec(n)[i]) by {
            if i < dec(n / 10).len() {
                assert(dec(n)[i] == dec(n / 10)[i]);
            }
        }
    } else {
        lemma_digit_char(n);
    }
}

proof fn lemma_accum_pos_push(acc: int, d: Seq<char>, c: char, max: int)
    ensures
        accum_pos(acc, d.push(c), max) == match accum_pos(acc, d, max) {
            Err(e) => Err(e),
            Ok(v) => if !is_digit(c) {
                Err(IntErrorKind::InvalidDigit)
            } else if v * 10 + digit_val(c) > max {
                Err(IntErrorKind::PosOverflow)
            } else {
                Ok(v * 10 + digit_val(c))
            },
        },
    decreases d.len(),
{
    if d.len() == 0 {
        reveal_with_fuel(accum_pos, 2);
        assert(d.push(c) =~= seq![c]);
        assert(seq![c].drop_first() =~= Seq::<char>::empty());
    } else {
        assert(d.push(c)[0] == d[0]);
        assert(d.push(c).drop_first() =~= d.drop_first().push(c));
        if is_digit(d[0]) && acc * 10 + digit_val(d[0]) <= max {
            lemma_accum_pos_push(acc * 10 + digit_val(d[0]), d.drop_first(), c, max);
        }
    }
}

/// Reading back the decimal representation of a number gives the number.
pub proof fn lemma_parse_dec(n: nat, max: int)
    requires
        n <= max,
    ensures
        accum_pos(0, dec(n), max) == Ok::<int, IntErrorKind>(n as int),
    decreases n,
{
    lemma_digit_char(n % 10);
    if n < 10 {
        lemma_accum_pos_push(0, Seq::<char>::empty(), digit_char(n), max);
        assert(Seq::<char>::empty().push(digit_char(n)) =~= dec(n));
    } else {
        lemma_parse_dec(n / 10, max);
        lemma_accum_pos_push(0, dec(n / 10), digit_char(n % 10), max);
    }
}

/// A piece without separators joins the last piece of what precedes it.
pub proof fn lemma_split_append_plain(x: Seq<char>, y: Seq<char>, seps: Seq<char>)
    requires
        forall|i: int| 0 <= i < y.len() ==> !seps.contains(#[trigger] y[i]),
    ensures
        split_pieces(x + y, seps) == split_pieces(x, seps).update(
            split_pieces(x, seps).len() - 1,
            split_pieces(x, seps).last() + y,
        ),
    decreases y.len(),
{
    lemma_split_pieces_len(x, seps);
    if y.len() == 0 {
        assert(x + y =~= x);
        assert(split_pieces(x, seps).last() + y =~= split_pieces(x, seps).last());
        assert(split_pieces(x, seps).update(
            split_pieces(x, seps).len() - 1,
            split_pieces(x, seps).last() + y,
        ) =~= split_pieces(x, seps));
    } else {
        let y0 = y.drop_last();
        lemma_split_append_plain(x, y0, seps);
        assert((x + y).drop_last() =~= x + y0);
        assert((x + y).last() == y.last());
        let p = split_pieces(x, seps);
        let init = split_pieces(x + y0, seps);
        assert(init.last() == p.last() + y0);
        assert(init.last().push(y.last()) =~= p.last() + y);
        assert(split_pieces(x + y, seps) =~~= p.update(p.len() - 1, p.last() + y));
    }
}

/// A separator closes the last piece and opens an empty one.
pub proof fn lemma_split_push_sep(x: Seq<char>, c: char, seps: Seq<char>)
    requires
        seps.contains(c),
    ensures
        split_pieces(x.push(c), seps) == split_pieces(x, seps).push(Seq::<char>::empty()),
{
    assert(x.push(c).drop_last() =~= x);
}

/// The pieces with `sep` between each two of them.
pub open spec fn joined(pieces: Seq<Seq<char>>, sep: char) -> Seq<char>
    decreases pieces.len(),
{
    if pieces.len() == 0 {
        Seq::empty()
    } else if pieces.len() == 1 {
        pieces[0]
    } else {
        joined(pieces.drop_last(), sep).push(sep) + pieces.last()
    }
}

/// No character of `s` is one of `seps`.
pub open spec fn free_of(s: Seq<char>, seps: Seq<char>) -> bool {
    forall|j: int| 0 <= j < s.len() ==> !seps.contains(#[trigger] s[j])
}

/// Pieces free of the separators, joined by one of them, split back into the pieces.
pub proof fn lemma_split_joined(pieces: Seq<Seq<char>>, sep: char, seps: Seq<char>)
    requires
        pieces.len() >= 1,
        seps.contains(sep),
        forall|i: int| 0 <= i < pieces.len() ==> free_of(#[trigger] pieces[i], seps),
    ensures
        split_pieces(joined(pieces, sep), seps) == pieces,
    decreases pieces.len(),
{
    let last = pieces.last();
    assert(free_of(pieces[pieces.len() - 1], seps));
    let e = Seq::<char>::empty();
    if pieces.len() == 1 {
        lemma_split_append_plain(e, last, seps);
        assert(e + last =~= last);
        assert(split_pieces(joined(pieces, sep), seps) =~~= pieces);
    } else {
        let init = pieces.drop_last();
        assert forall|i: int| 0 <= i < init.len() implies free_of(#[trigger] init[i], seps) by {
            assert(init[i] == pieces[i]);
        }
        lemma_split_joined(init, sep, seps);
        let j0 = joined(init, sep);
        lemma_split_push_sep(j0, sep, seps);
        lemma_split_append_plain(j0.push(sep), last, seps);
        assert(e + last =~= last);
        assert(split_pieces(joined(pieces, sep), seps) =~~= pieces);
    }
}

/// Joining pieces free of some characters, with a separator that is not one of
/// them, gives text free of them.
pub proof fn lemma_joined_free_of(pieces: Seq<Seq<char>>, sep: char, seps: Seq<char>)
    requires
        !seps.contains(sep),
        forall|i: int| 0 <= i < pieces.len() ==> free_of(#[trigger] pieces[i], seps),
    ensures
        free_of(joined(pieces, sep), seps),
    decreases pieces.len(),
{
    if pieces.len() == 1 {
        assert(free_of(pieces[0], seps));
    } else if pieces.len() > 1 {
        let init = pieces.drop_last();
        assert forall|i: int| 0 <= i < init.len() implies free_of(#[trigger] init[i], seps) by {
            assert(init[i] == pieces[i]);
        }
        lemma_joined_free_of(init, sep, seps);
        let last = pieces.last();
        assert(free_of(pieces[pieces.len() - 1], seps));
        let t = joined(init, sep).push(sep) + last;
        assert forall|j: int| 0 <= j < t.len() implies !seps.contains(#[trigger] t[j]) by {
            let j0 = joined(init, sep);
            if j < j0.len() {
                assert(t[j] == j0[j]);
            } else if j == j0.len() {
                assert(t[j] == sep);
            } else {
                assert(t[j] == last[j - j0.len() - 1]);
            }
        }
    }
}

/// Joined non-empty pieces start with the first piece's first character and end
/// with the last piece's last one.
pub proof fn lemma_joined_ends(pieces: Seq<Seq<char>>, sep: char)
    requires
        pieces.len() >= 1,
        forall|i: int| 0 <= i < pieces.len() ==> (#[trigger] pieces[i]).len() > 0,
    ensures
        joined(pieces, sep).len() > 0,
        joined(pieces, sep)[0] == pieces[0][0],
        joined(pieces, sep).last() == pieces.last().last(),
    decreases pieces.len(),
{
    assert(pieces[pieces.len() - 1].len() > 0);
    if pieces.len() > 1 {
        let init = pieces.drop_last();
        assert forall|i: int| 0 <= i < init.len() implies (#[trigger] init[i]).len() > 0 by {
            assert(init[i] == pieces[i]);
        }
        lemma_joined_ends(init, sep);
        assert(init[0] == pieces[0]);
    }
}

/// Text that neither starts nor ends with white space is its own trim.
pub proof fn lemma_trim_fixed(w: Seq<char>)
    requires
        w.len() > 0,
        !is_ws(w[0]),
        !is_ws(w.last()),
    ensures
        trim(w) == w,
{
    assert(trim_start(w, None) == w);
    assert(trim_end(w, None) == w);
}

/// A decimal representation is free of characters that are not digits, and
/// neither starts nor ends with white space.
pub proof fn lemma_dec_free_of(n: nat, seps: Seq<char>)
    requires
        forall|k: int| 0 <= k < seps.len() ==> !is_digit(#[trigger] seps[k]),
    ensures
        free_of(dec(n), seps),
        trim(dec(n)) == dec(n),
{
    lemma_dec_digits(n);
    assert forall|j: int| 0 <= j < dec(n).len() implies !seps.contains(#[trigger] dec(n)[j]) by {
        if seps.contains(dec(n)[j]) {
            let k = choose|k: int| 0 <= k < seps.len() && seps[k] == dec(n)[j];
            assert(is_digit(seps[k]));
        }
    }
    assert(is_digit(dec(n)[0]));
    assert(is_digit(dec(n)[dec(n).len() - 1]));
    lemma_trim_fixed(dec(n));
}

/// The decimal representation of a number no greater than `max` reads back as the number.
pub proof fn lemma_parse_unsigned_dec(n: nat, max: int)
    requires
        n <= max,
    ensures
        parse_unsigned(dec(n), max) == Ok::<int, IntErrorKind>(n as int),
{
    lemma_dec_digits(n);
    assert(is_digit(dec(n)[0]));
    lemma_parse_dec(n, max);
}

} // verus!
