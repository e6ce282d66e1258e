//! Per-lane access entries and the inline notation that lists them.
use crate::error::{res_view, BankError, BankErrorView};
use crate::text::{
    chars_of, dec, free_of, is_digit, joined, lemma_dec_digits, lemma_dec_free_of,
    lemma_joined_ends, lemma_joined_free_of, lemma_parse_unsigned_dec, lemma_split_joined,
    lemma_trim_fixed, nonempty, nonempty_spans, parse_uint, parse_unsigned, spans_view,
    spans_within, split_spans, token_error_string, token_error_text, trim,
    trim_spans, trimmed_pieces,
};
use vstd::prelude::*;

verus! {

/// One lane's access: the lane number, the element coordinate it reads, and an
/// optional group (accesses of different groups never conflict with each other).
#[derive(Debug, Clone, Copy, PartialEq, Eq)]
pub struct AccessEntry {
    pub lane: u32,
    pub coord: [u64; 2],
    pub group: Option<u32>,
}

pub open spec fn pattern_error(reason: Seq<char>) -> BankErrorView {
    BankErrorView::InvalidAccessPattern { reason }
}

/// The entries of an inline list: pieces between `;` or line breaks, trimmed,
/// the empty ones dropped.
pub open spec fn coord_entries(s: Seq<char>) -> Seq<Seq<char>> {
    trimmed_pieces(s, seq![';', '\n']).filter(|p: Seq<char>| nonempty(p))
}

/// The two numbers of a coordinate `row,col` (or `rowxcol`), trimmed, empty ones dropped.
pub open spec fn coord_parts(c: Seq<char>) -> Seq<Seq<char>> {
    trimmed_pieces(c, seq!['x', 'X', ',']).filter(|p: Seq<char>| nonempty(p))
}

/// What one entry `lane:row,col` or `lane:row,col:group` reads as.
pub open spec fn parse_entry_spec(raw: Seq<char>) -> Result<AccessEntry, BankErrorView> {
    let parts = trimmed_pieces(raw, seq![':']);
    if parts.len() < 2 {
        Err(pattern_error("invalid entry `"@ + raw + "`: expected `lane:row,col`"@))
    } else {
        match parse_unsigned(parts[0], u32::MAX as int) {
            Err(e) => Err(pattern_error(token_error_text("invalid lane `"@, parts[0], e))),
            Ok(lane) => {
                let cp = coord_parts(parts[1]);
                if cp.len() != 2 {
                    Err(
                        pattern_error(
                            "invalid coordinate `"@ + parts[1] + "`: expected `row,col`"@,
                        ),
                    )
                } else {
                    match parse_unsigned(cp[0], u64::MAX as int) {
                        Err(e) => Err(pattern_error(token_error_text("invalid row `"@, cp[0], e))),
                        Ok(row) => match parse_unsigned(cp[1], u64::MAX as int) {
                            Err(e) => Err(
                                pattern_error(token_error_text("invalid col `"@, cp[1], e)),
                            ),
                            Ok(col) => if parts.len() > 2 {
                                match parse_unsigned(parts[2], u32::MAX as int) {
                                    Err(e) => Err(
                                        pattern_error(
                                            token_error_text("invalid group `"@, parts[2], e),
                                        ),
                                    ),
                                    Ok(g) => Ok(
                                        AccessEntry {
                                            lane: lane as u32,
                                            coord: [row as u64, col as u64],
                                            group: Some(g as u32),
                                        },
                                    ),
                                }
                            } else {
                                Ok(
                                    AccessEntry {
                                        lane: lane as u32,
                                        coord: [row as u64, col as u64],
                                        group: None,
                                    },
                                )
                            },
                        },
                    }
                }
            },
        }
    }
}

/// The entries read in order, or the error of the first that cannot be read.
pub open spec fn parse_entries_spec(entries: Seq<Seq<char>>) -> Result<
    Seq<AccessEntry>,
    BankErrorView,
>
    decreases entries.len(),
{
    if entries.len() == 0 {
        Ok(Seq::empty())
    } else {
        match parse_entries_spec(entries.drop_last()) {
            Err(e) => Err(e),
            Ok(prev) => match parse_entry_spec(entries.last()) {
                Err(e) => Err(e),
                Ok(a) => Ok(prev.push(a)),
            },
        }
    }
}

/// What `parse_inline_coords` gives: every entry read, and at least one of them.
pub open spec fn parse_coords_spec(s: Seq<char>) -> Result<Seq<AccessEntry>, BankErrorView> {
    match parse_entries_spec(coord_entries(s)) {
        Err(e) => Err(e),
        Ok(v) => if v.len() == 0 {
            Err(BankErrorView::EmptyAccessSet)
        } else {
            Ok(v)
        },
    }
}

proof fn lemma_entries_err(entries: Seq<Seq<char>>, k: int)
    requires
        0 <= k <= entries.len(),
        parse_entries_spec(entries.take(k)) is Err,
    ensures
        parse_entries_spec(entries) == parse_entries_spec(entries.take(k)),
    decreases entries.len() - k,
{
    if k == entries.len() {
        assert(entries.take(k) =~= entries);
    } else {
        assert(entries.take(k + 1).drop_last() =~= entries.take(k));
        lemma_entries_err(entries, k + 1);
    }
}

fn pattern_error_value(reason: String) -> (r: BankError)
    ensures
        r@ == pattern_error(reason@),
{
    BankError::InvalidAccessPattern { reason }
}

/// Reads the entry at the span `lo..hi` of `s`.
fn parse_entry(s: &str, v: &Vec<char>, lo: usize, hi: usize) -> (r: Result<AccessEntry, BankError>)
    requires
        v@ == s@,
        lo <= hi <= v@.len(),
    ensures
        res_view(r) == parse_entry_spec(v@.subrange(lo as int, hi as int)),
{
    let ghost raw = v@.subrange(lo as int, hi as int);
    let colon = vec![':'];
    assert(colon@ =~= seq![':']);
    let pieces = split_spans(v, lo, hi, &colon);
    let parts = trim_spans(v, &pieces);
    assert(spans_view(v@, parts@) == trimmed_pieces(raw, seq![':']));
    if parts.len() < 2 {
        let mut reason = String::from_str("invalid entry `");
        reason.append(s.substring_char(lo, hi));
        reason.append("`: expected `lane:row,col`");
        return Err(pattern_error_value(reason));
    }
    let (la, lb) = parts[0];
    let lane = match parse_uint(v, la, lb, 0xffff_ffff) {
        Ok(x) => x as u32,
        Err(e) => {
            return Err(pattern_error_value(token_error_string("invalid lane `", s, la, lb, e)));
        },
    };
    let (ca, cb) = parts[1];
    let seps = vec!['x', 'X', ','];
    assert(seps@ =~= seq!['x', 'X', ',']);
    let cpieces = split_spans(v, ca, cb, &seps);
    let ctrim = trim_spans(v, &cpieces);
    let cparts = nonempty_spans(v, &ctrim);
    assert(spans_view(v@, cparts@) == coord_parts(v@.subrange(ca as int, cb as int)));
    if cparts.len() != 2 {
        let mut reason = String::from_str("invalid coordinate `");
        reason.append(s.substring_char(ca, cb));
        reason.append("`: expected `row,col`");
        return Err(pattern_error_value(reason));
    }
    let (ra, rb) = cparts[0];
    let (qa, qb) = cparts[1];
    let row = match parse_uint(v, ra, rb, u64::MAX) {
        Ok(x) => x,
        Err(e) => {
            return Err(pattern_error_value(token_error_string("invalid row `", s, ra, rb, e)));
        },
    };
    let col = match parse_uint(v, qa, qb, u64::MAX) {
        Ok(x) => x,
        Err(e) => {
            return Err(pattern_error_value(token_error_string("invalid col `", s, qa, qb, e)));
        },
    };
    let group = if parts.len() > 2 {
        let (ga, gb) = parts[2];
        match parse_uint(v, ga, gb, 0xffff_ffff) {
            Ok(x) => Some(x as u32),
            Err(e) => {
                return Err(
                    pattern_error_value(token_error_string("invalid group `", s, ga, gb, e)),
                );
            },
        }
    } else {
        None
    };
    Ok(AccessEntry { lane, coord: [row, col], group })
}

/// Reads accesses written inline, such as `0:0,0;1:1,0;2:2,0:1` (lane, coordinate
/// and an optional group per entry).
pub fn parse_inline_coords(s: &str) -> (r: Result<Vec<AccessEntry>, BankError>)
    ensures
        match parse_coords_spec(s@) {
            Ok(v) => r matches Ok(x) && x@ == v,
            Err(e) => r matches Err(x) && x@ == e,
        },
{
    let v = chars_of(s);
    let seps = vec![';', '\n'];
    assert(seps@ =~= seq![';', '\n']);
    let pieces = split_spans(&v, 0, v.len(), &seps);
    assert(v@.subrange(0, v@.len() as int) =~= v@);
    let trimmed = trim_spans(&v, &pieces);
    let entries = nonempty_spans(&v, &trimmed);
    let ghost es = spans_view(v@, entries@);
    assert(es == coord_entries(s@));
    let mut accesses: Vec<AccessEntry> = Vec::new();
    let mut i: usize = 0;
    assert(es.take(0) =~= Seq::<Seq<char>>::empty());
    while i < entries.len()
        invariant
            v@ == s@,
            i <= entries@.len(),
            es == spans_view(v@, entries@),
            es == coord_entries(s@),
            spans_within(entries@, 0, v@.len() as int),
            parse_entries_spec(es.take(i as int)) == Ok::<Seq<AccessEntry>, BankErrorView>(
                accesses@,
            ),
        decreases entries.len() - i,
    {
        let (a, b) = entries[i];
        assert(es.take(i + 1).drop_last() =~= es.take(i as int));
        assert(es.take(i + 1).last() == v@.subrange(a as int, b as int));
        match parse_entry(s, &v, a, b) {
            Ok(entry) => {
                accesses.push(entry);
            },
            Err(e) => {
                proof {
                    lemma_entries_err(es, i + 1);
                }
                return Err(e);
            },
        }
        i += 1;
    }
    assert(es.take(es.len() as int) =~= es);
    if accesses.len() == 0 {
        return Err(BankError::EmptyAccessSet);
    }
    Ok(accesses)
}

/// Accepts the accesses read from a pattern file, which must list at least one.
pub fn require_accesses(accesses: Vec<AccessEntry>) -> (r: Result<Vec<AccessEntry>, BankError>)
    ensures
        accesses@.len() == 0 ==> (r matches Err(e) && e@ == BankErrorView::EmptyAccessSet),
        accesses@.len() > 0 ==> (r matches Ok(v) && v@ == accesses@),
{
    if accesses.len() == 0 {
        return Err(BankError::EmptyAccessSet);
    }
    Ok(accesses)
}

/// A coordinate written `row,col`.
pub open spec fn coord_text(row: u64, col: u64) -> Seq<char> {
    joined(seq![dec(row as nat), dec(col as nat)], ',')
}

/// The fields of an entry: the lane, the coordinate, and the group where there is one.
pub open spec fn entry_fields(e: AccessEntry) -> Seq<Seq<char>> {
    match e.group {
        None => seq![dec(e.lane as nat), coord_text(e.coord[0], e.coord[1])],
        Some(g) => seq![dec(e.lane as nat), coord_text(e.coord[0], e.coord[1]), dec(g as nat)],
    }
}

/// An entry written `lane:row,col`, or `lane:row,col:group` where it has a group.
pub open spec fn entry_text(e: AccessEntry) -> Seq<char> {
    joined(entry_fields(e), ':')
}

/// Entries written one after another, separated by `;`.
pub open spec fn entries_text(es: Seq<AccessEntry>) -> Seq<char> {
    joined(es.map_values(|e: AccessEntry| entry_text(e)), ';')
}

proof fn lemma_filter_keeps_all(s: Seq<Seq<char>>)
    requires
        forall|i: int| 0 <= i < s.len() ==> nonempty(#[trigger] s[i]),
    ensures
        s.filter(|p: Seq<char>| nonempty(p)) == s,
    decreases s.len(),
{
    reveal(Seq::filter);
    if s.len() > 0 {
        let init = s.drop_last();
        assert forall|i: int| 0 <= i < init.len() implies nonempty(#[trigger] init[i]) by {
            assert(init[i] == s[i]);
        }
        lemma_filter_keeps_all(init);
        assert(nonempty(s[s.len() - 1]));
        assert(init.push(s.last()) =~= s);
    }
}

proof fn lemma_trim_all(s: Seq<Seq<char>>)
    requires
        forall|i: int| 0 <= i < s.len() ==> trim(#[trigger] s[i]) == s[i],
    ensures
        s.map_values(|p: Seq<char>| trim(p)) == s,
{
    assert(s.map_values(|p: Seq<char>| trim(p)) =~= s);
}

/// The coordinate text and the digits it is made of.
#[verifier::spinoff_prover]
proof fn lemma_coord_text(row: u64, col: u64)
    ensures
        coord_text(row, col).len() > 0,
        is_digit(coord_text(row, col)[0]),
        is_digit(coord_text(row, col).last()),
        free_of(coord_text(row, col), seq![':']),
        free_of(coord_text(row, col), seq![';', '\n']),
        coord_parts(coord_text(row, col)) == seq![dec(row as nat), dec(col as nat)],
{
    let dr = dec(row as nat);
    let dc = dec(col as nat);
    let pieces = seq![dr, dc];
    let seps = seq!['x', 'X', ','];
    lemma_dec_digits(row as nat);
    lemma_dec_digits(col as nat);
    lemma_dec_free_of(row as nat, seq![':']);
    lemma_dec_free_of(col as nat, seq![':']);
    lemma_dec_free_of(row as nat, seq![';', '\n']);
    lemma_dec_free_of(col as nat, seq![';', '\n']);
    lemma_dec_free_of(row as nat, seps);
    lemma_dec_free_of(col as nat, seps);
    assert(pieces[0] == dr && pieces[1] == dc);
    lemma_joined_ends(pieces, ',');
    assert(dr[0] == pieces[0][0]);
    assert(is_digit(dr[0]));
    assert(is_digit(dc[dc.len() - 1]));
    lemma_joined_free_of(pieces, ',', seq![':']);
    lemma_joined_free_of(pieces, ',', seq![';', '\n']);
    assert(seps[2] == ',');
    lemma_split_joined(pieces, ',', seps);
    lemma_trim_all(pieces);
    lemma_filter_keeps_all(pieces);
}

/// An entry written out reads back as the entry.
#[verifier::spinoff_prover]
proof fn lemma_entry_reads_back(e: AccessEntry)
    ensures
        parse_entry_spec(entry_text(e)) == Ok::<AccessEntry, BankErrorView>(e),
        entry_text(e).len() > 0,
        is_digit(entry_text(e)[0]),
        is_digit(entry_text(e).last()),
        free_of(entry_text(e), seq![';', '\n']),
{
    let fields = entry_fields(e);
    let colon = seq![':'];
    let ct = coord_text(e.coord[0], e.coord[1]);
    lemma_coord_text(e.coord[0], e.coord[1]);
    lemma_dec_digits(e.lane as nat);
    lemma_dec_free_of(e.lane as nat, colon);
    lemma_dec_free_of(e.lane as nat, seq![';', '\n']);
    lemma_trim_fixed(ct);
    match e.group {
        Some(g) => {
            lemma_dec_digits(g as nat);
            lemma_dec_free_of(g as nat, colon);
            lemma_dec_free_of(g as nat, seq![';', '\n']);
            assert(is_digit(dec(g as nat)[dec(g as nat).len() - 1]));
        },
        None => {},
    }
    assert(is_digit(dec(e.lane as nat)[0]));
    assert(is_digit(ct[ct.len() - 1]));
    assert(fields[0] == dec(e.lane as nat));
    assert(fields[1] == ct);
    assert(forall|i: int| 0 <= i < fields.len() ==> free_of(#[trigger] fields[i], colon));
    assert(forall|i: int| 0 <= i < fields.len() ==> (#[trigger] fields[i]).len() > 0);
    assert(forall|i: int|
        0 <= i < fields.len() ==> free_of(#[trigger] fields[i], seq![';', '\n']));
    assert(colon[0] == ':');
    lemma_split_joined(fields, ':', colon);
    lemma_joined_ends(fields, ':');
    lemma_joined_free_of(fields, ':', seq![';', '\n']);
    assert(forall|i: int| 0 <= i < fields.len() ==> trim(#[trigger] fields[i]) == fields[i]);
    lemma_trim_all(fields);
    assert(trimmed_pieces(entry_text(e), colon) == fields);
    lemma_parse_unsigned_dec(e.lane as nat, u32::MAX as int);
    lemma_parse_unsigned_dec(e.coord[0] as nat, u64::MAX as int);
    lemma_parse_unsigned_dec(e.coord[1] as nat, u64::MAX as int);
    match e.group {
        Some(g) => {
            lemma_parse_unsigned_dec(g as nat, u32::MAX as int);
        },
        None => {},
    }
    let r = parse_entry_spec(entry_text(e));
    assert(r matches Ok(x) && x.lane == e.lane && x.group == e.group && x.coord[0] == e.coord[0]
        && x.coord[1] == e.coord[1]);
    assert(r->Ok_0.coord =~= e.coord);
}

/// Entries written out, each on its own, read back as the entries.
proof fn lemma_entries_read_back(es: Seq<AccessEntry>)
    ensures
        parse_entries_spec(es.map_values(|e: AccessEntry| entry_text(e)))
            == Ok::<Seq<AccessEntry>, BankErrorView>(es),
    decreases es.len(),
{
    let texts = es.map_values(|e: AccessEntry| entry_text(e));
    if es.len() > 0 {
        let init = es.drop_last();
        lemma_entries_read_back(init);
        assert(texts.drop_last() =~= init.map_values(|e: AccessEntry| entry_text(e)));
        lemma_entry_reads_back(es.last());
        assert(texts.last() == entry_text(es.last()));
        assert(init.push(es.last()) =~= es);
    } else {
        assert(es =~= Seq::<AccessEntry>::empty());
    }
}

/// A non-empty list of entries written `lane:row,col` (with `:group` where an entry
/// has a group) and joined by `;` reads back as the same list, in the same order.
#[verifier::spinoff_prover]
pub proof fn lemma_inline_round_trip(es: Seq<AccessEntry>)
    requires
        es.len() > 0,
    ensures
        parse_coords_spec(entries_text(es)) == Ok::<Seq<AccessEntry>, BankErrorView>(es),
{
    let texts = es.map_values(|e: AccessEntry| entry_text(e));
    let seps = seq![';', '\n'];
    assert forall|i: int| 0 <= i < texts.len() implies {
        &&& free_of(#[trigger] texts[i], seps)
        &&& trim(texts[i]) == texts[i]
        &&& nonempty(texts[i])
    } by {
        lemma_entry_reads_back(es[i]);
        let t = texts[i];
        assert(is_digit(t[t.len() - 1]));
        lemma_trim_fixed(t);
    }
    assert(seps[0] == ';');
    lemma_split_joined(texts, ';', seps);
    lemma_trim_all(texts);
    lemma_filter_keeps_all(texts);
    assert(coord_entries(entries_text(es)) == texts);
    lemma_entries_read_back(es);
}

} // verus!
