//! The response bodies that the commands report: the rows and how many there are.
use crate::analyze::{BankSummary, CompareRow, LaneTraceRow, SearchCandidateRow};
use crate::explain::ExplainData;
use crate::swizzle::swizzle_raw;
use crate::text::{append_dec, dec};
use vstd::prelude::*;

verus! {

#[derive(Debug)]
pub struct BankTraceResponse {
    pub count: usize,
    pub total_matched: usize,
    pub rows: Vec<LaneTraceRow>,
    pub summary: BankSummary,
}

#[derive(Debug)]
pub struct BankCompareResponse {
    pub count: usize,
    pub total_matched: usize,
    pub rows: Vec<CompareRow>,
}

#[derive(Debug)]
pub struct BankSearchResponse {
    pub count: usize,
    pub total_matched: usize,
    pub rows: Vec<SearchCandidateRow>,
}

impl BankTraceResponse {
    /// The trace response: every row counts as matched.
    pub fn new(rows: Vec<LaneTraceRow>, summary: BankSummary) -> (r: Self)
        ensures
            r.count == rows@.len(),
            r.total_matched == rows@.len(),
            r.rows@ == rows@,
            r.summary == summary,
    {
        let count = rows.len();
        BankTraceResponse { count, total_matched: count, rows, summary }
    }
}

impl BankCompareResponse {
    /// The comparison response: every row counts as matched.
    pub fn new(rows: Vec<CompareRow>) -> (r: Self)
        ensures
            r.count == rows@.len(),
            r.total_matched == rows@.len(),
            r.rows@ == rows@,
    {
        let count = rows.len();
        BankCompareResponse { count, total_matched: count, rows }
    }
}

impl BankSearchResponse {
    /// The search response: every row counts as matched.
    pub fn new(rows: Vec<SearchCandidateRow>) -> (r: Self)
        ensures
            r.count == rows@.len(),
            r.total_matched == rows@.len(),
            r.rows@ == rows@,
    {
        let count = rows.len();
        BankSearchResponse { count, total_matched: count, rows }
    }
}

/// A table of text: column names, notes printed above the rows, and the rows.
#[derive(Debug)]
pub struct TextTable {
    pub header: Vec<String>,
    pub meta: Vec<(String, String)>,
    pub rows: Vec<Vec<String>>,
}

pub open spec fn texts(v: Seq<String>) -> Seq<Seq<char>> {
    v.map_values(|x: String| x@)
}

pub open spec fn meta_texts(v: Seq<(String, String)>) -> Seq<(Seq<char>, Seq<char>)> {
    v.map_values(|x: (String, String)| (x.0@, x.1@))
}

pub open spec fn bool_text(b: bool) -> Seq<char> {
    if b {
        "true"@
    } else {
        "false"@
    }
}

/// A list of numbers as `{:?}` prints it: `[6, 7]`.
pub open spec fn list_text(v: Seq<u32>) -> Seq<char> {
    "["@ + list_items(v) + "]"@
}

pub open spec fn list_items(v: Seq<u32>) -> Seq<char>
    decreases v.len(),
{
    if v.len() == 0 {
        Seq::empty()
    } else if v.len() == 1 {
        dec(v[0] as nat)
    } else {
        list_items(v.drop_last()) + ", "@ + dec(v.last() as nat)
    }
}

pub open spec fn trace_header() -> Seq<Seq<char>> {
    seq![
        "key"@,
        "lane"@,
        "coord"@,
        "logical_offset"@,
        "physical_offset"@,
        "byte_address"@,
        "bank"@,
        "broadcast_like"@,
    ]
}

pub open spec fn compare_header() -> Seq<Seq<char>> {
    seq![
        "key"@,
        "swizzle"@,
        "unique_banks"@,
        "conflicting_bank_count"@,
        "max_conflict_degree"@,
        "total_conflicting_accesses"@,
    ]
}

pub open spec fn search_header() -> Seq<Seq<char>> {
    seq![
        "rank"@,
        "key"@,
        "swizzle"@,
        "max_conflict_degree"@,
        "total_conflicting_accesses"@,
        "unique_banks"@,
        "source_bits"@,
        "target_bits"@,
    ]
}

/// The notes of a trace table: the summary's measures.
pub open spec fn trace_meta(s: BankSummary) -> Seq<(Seq<char>, Seq<char>)> {
    seq![
        ("access_count"@, dec(s.access_count as nat)),
        ("unique_banks"@, dec(s.unique_banks as nat)),
        ("conflicting_bank_count"@, dec(s.conflicting_bank_count as nat)),
        ("conflicting_access_count"@, dec(s.conflicting_access_count as nat)),
        ("max_conflict_degree"@, dec(s.max_conflict_degree as nat)),
    ]
}

pub open spec fn trace_cells(r: LaneTraceRow) -> Seq<Seq<char>> {
    seq![
        r.key@,
        dec(r.lane as nat),
        dec(r.coord[0] as nat) + ","@ + dec(r.coord[1] as nat),
        dec(r.logical_offset as nat),
        dec(r.physical_offset as nat),
        dec(r.byte_address as nat),
        dec(r.bank as nat),
        bool_text(r.broadcast_like),
    ]
}

pub open spec fn compare_cells(r: CompareRow) -> Seq<Seq<char>> {
    seq![
        r.key@,
        swizzle_raw(r.swizzle[0], r.swizzle[1], r.swizzle[2]),
        dec(r.unique_banks as nat),
        dec(r.conflicting_bank_count as nat),
        dec(r.max_conflict_degree as nat),
        dec(r.total_conflicting_accesses as nat),
    ]
}

pub open spec fn search_cells(r: SearchCandidateRow) -> Seq<Seq<char>> {
    seq![
        dec(r.rank as nat),
        r.key@,
        swizzle_raw(r.swizzle[0], r.swizzle[1], r.swizzle[2]),
        dec(r.max_conflict_degree as nat),
        dec(r.total_conflicting_accesses as nat),
        dec(r.unique_banks as nat),
        list_text(r.source_bits@),
        list_text(r.target_bits@),
    ]
}

/// The table is `header`, `meta`, and one row of `cells` per source row.
pub open spec fn table_matches<R>(
    t: TextTable,
    header: Seq<Seq<char>>,
    meta: Seq<(Seq<char>, Seq<char>)>,
    src: Seq<R>,
    cells: spec_fn(R) -> Seq<Seq<char>>,
) -> bool {
    &&& texts(t.header@) == header
    &&& meta_texts(t.meta@) == meta
    &&& t.rows@.len() == src.len()
    &&& forall|i: int| 0 <= i < src.len() ==> texts(#[trigger] t.rows@[i]@) == cells(src[i])
}

fn str_vec(items: &Vec<&str>) -> (r: Vec<String>)
    ensures
        texts(r@) == items@.map_values(|x: &str| x@),
{
    let mut out: Vec<String> = Vec::new();
    let mut i: usize = 0;
    while i < items.len()
        invariant
            i <= items@.len(),
            texts(out@) == items@.subrange(0, i as int).map_values(|x: &str| x@),
        decreases items.len() - i,
    {
        let ghost before = out@;
        let x = String::from_str(items[i]);
        out.push(x);
        proof {
            assert(texts(out@) =~= texts(before).push(items@[i as int]@));
            assert(items@.subrange(0, i + 1).map_values(|x: &str| x@) =~= items@.subrange(
                0,
                i as int,
            ).map_values(|x: &str| x@).push(items@[i as int]@));
        }
        i += 1;
    }
    assert(items@.subrange(0, i as int) =~= items@);
    out
}

fn dec_string(n: u64) -> (r: String)
    ensures
        r@ == dec(n as nat),
{
    let mut r = String::new();
    append_dec(&mut r, n);
    r
}

fn bool_string(b: bool) -> (r: String)
    ensures
        r@ == bool_text(b),
{
    if b {
        String::from_str("true")
    } else {
        String::from_str("false")
    }
}

fn swizzle_cell(sw: &[u8; 3]) -> (r: String)
    ensures
        r@ == swizzle_raw(sw[0], sw[1], sw[2]),
{
    crate::swizzle::raw_string(sw[0], sw[1], sw[2])
}

fn list_string(v: &Vec<u32>) -> (r: String)
    ensures
        r@ == list_text(v@),
{
    let mut r = String::from_str("[");
    let mut i: usize = 0;
    while i < v.len()
        invariant
            i <= v@.len(),
            r@ == "["@ + list_items(v@.subrange(0, i as int)),
        decreases v.len() - i,
    {
        let ghost before = r@;
        if i > 0 {
            r.append(", ");
        }
        append_dec(&mut r, v[i] as u64);
        proof {
            let pre = v@.subrange(0, i as int);
            let next = v@.subrange(0, i + 1);
            assert(next.drop_last() =~= pre);
            if i == 0 {
                assert(list_items(next) == dec(v@[0] as nat));
                assert(list_items(pre) =~= Seq::<char>::empty());
            }
            assert(r@ =~= "["@ + list_items(next));
        }
        i += 1;
    }
    assert(v@.subrange(0, i as int) =~= v@);
    r.append("]");
    r
}

fn header_strings(names: Vec<&str>) -> (r: Vec<String>)
    ensures
        texts(r@) == names@.map_values(|x: &str| x@),
{
    str_vec(&names)
}

/// The trace as a table: one row per lane, the summary as notes.
pub fn trace_table(rows: &Vec<LaneTraceRow>, summary: &BankSummary) -> (t: TextTable)
    ensures
        table_matches(t, trace_header(), trace_meta(*summary), rows@, |r: LaneTraceRow| trace_cells(r)),
{
    let header = header_strings(
        vec![
            "key",
            "lane",
            "coord",
            "logical_offset",
            "physical_offset",
            "byte_address",
            "bank",
            "broadcast_like",
        ],
    );
    let meta = vec![
        (String::from_str("access_count"), dec_string(summary.access_count as u64)),
        (String::from_str("unique_banks"), dec_string(summary.unique_banks as u64)),
        (String::from_str("conflicting_bank_count"), dec_string(summary.conflicting_bank_count as u64)),
        (String::from_str("conflicting_access_count"), dec_string(summary.conflicting_access_count as u64)),
        (String::from_str("max_conflict_degree"), dec_string(summary.max_conflict_degree as u64)),
    ];
    let mut out: Vec<Vec<String>> = Vec::new();
    let mut i: usize = 0;
    while i < rows.len()
        invariant
            i <= rows@.len(),
            out@.len() == i,
            forall|k: int| 0 <= k < i ==> texts(#[trigger] out@[k]@) == trace_cells(rows@[k]),
        decreases rows.len() - i,
    {
        let r = &rows[i];
        let mut coord = dec_string(r.coord[0]);
        coord.append(",");
        append_dec(&mut coord, r.coord[1]);
        let cells = vec![
            r.key.clone(),
            dec_string(r.lane as u64),
            coord,
            dec_string(r.logical_offset),
            dec_string(r.physical_offset),
            dec_string(r.byte_address),
            dec_string(r.bank as u64),
            bool_string(r.broadcast_like),
        ];
        assert(texts(cells@) =~= trace_cells(rows@[i as int]));
        out.push(cells);
        i += 1;
    }
    let t = TextTable { header, meta, rows: out };
    assert(texts(t.header@) =~= trace_header());
    assert(meta_texts(t.meta@) =~= trace_meta(*summary));
    t
}

/// The comparison as a table.
pub fn compare_table(rows: &Vec<CompareRow>) -> (t: TextTable)
    ensures
        table_matches(t, compare_header(), Seq::empty(), rows@, |r: CompareRow| compare_cells(r)),
{
    let header = header_strings(
        vec![
            "key",
            "swizzle",
            "unique_banks",
            "conflicting_bank_count",
            "max_conflict_degree",
            "total_conflicting_accesses",
        ],
    );
    let meta: Vec<(String, String)> = Vec::new();
    let mut out: Vec<Vec<String>> = Vec::new();
    let mut i: usize = 0;
    while i < rows.len()
        invariant
            i <= rows@.len(),
            out@.len() == i,
            forall|k: int| 0 <= k < i ==> texts(#[trigger] out@[k]@) == compare_cells(rows@[k]),
        decreases rows.len() - i,
    {
        let r = &rows[i];
        let cells = vec![
            r.key.clone(),
            swizzle_cell(&r.swizzle),
            dec_string(r.unique_banks as u64),
            dec_string(r.conflicting_bank_count as u64),
            dec_string(r.max_conflict_degree as u64),
            dec_string(r.total_conflicting_accesses as u64),
        ];
        assert(texts(cells@) =~= compare_cells(rows@[i as int]));
        out.push(cells);
        i += 1;
    }
    let t = TextTable { header, meta, rows: out };
    assert(texts(t.header@) =~= compare_header());
    assert(meta_texts(t.meta@) =~= Seq::<(Seq<char>, Seq<char>)>::empty());
    t
}

/// The search results as a table.
pub fn search_table(rows: &Vec<SearchCandidateRow>) -> (t: TextTable)
    ensures
        table_matches(t, search_header(), Seq::empty(), rows@, |r: SearchCandidateRow| search_cells(r)),
{
    let header = header_strings(
        vec![
            "rank",
            "key",
            "swizzle",
            "max_conflict_degree",
            "total_conflicting_accesses",
            "unique_banks",
            "source_bits",
            "target_bits",
        ],
    );
    let meta: Vec<(String, String)> = Vec::new();
    let mut out: Vec<Vec<String>> = Vec::new();
    let mut i: usize = 0;
    while i < rows.len()
        invariant
            i <= rows@.len(),
            out@.len() == i,
            forall|k: int| 0 <= k < i ==> texts(#[trigger] out@[k]@) == search_cells(rows@[k]),
        decreases rows.len() - i,
    {
        let r = &rows[i];
        let cells = vec![
            dec_string(r.rank as u64),
            r.key.clone(),
            swizzle_cell(&r.swizzle),
            dec_string(r.max_conflict_degree as u64),
            dec_string(r.total_conflicting_accesses as u64),
            dec_string(r.unique_banks as u64),
            list_string(&r.source_bits),
            list_string(&r.target_bits),
        ];
        assert(texts(cells@) =~= search_cells(rows@[i as int]));
        out.push(cells);
        i += 1;
    }
    let t = TextTable { header, meta, rows: out };
    assert(texts(t.header@) =~= search_header());
    assert(meta_texts(t.meta@) =~= Seq::<(Seq<char>, Seq<char>)>::empty());
    t
}

pub open spec fn untouched_text(m: u8) -> Seq<char> {
    if m == 0 {
        "none"@
    } else if m == 1 {
        "bits [0]"@
    } else {
        "bits ["@ + dec((m - 1) as nat) + ":0]"@
    }
}

/// `bits [lo]` for one bit, `bits [hi:lo]` for more.
pub open spec fn bits_text(lo: int, hi: int, one: bool) -> Seq<char> {
    if one {
        "bits ["@ + dec(lo as nat) + "]"@
    } else {
        "bits ["@ + dec(hi as nat) + ":"@ + dec(lo as nat) + "]"@
    }
}

/// The lines of the human-readable explanation.
pub open spec fn explain_lines_spec(d: ExplainData) -> Seq<Seq<char>> {
    let sw = d.swizzle;
    let head = seq![
        "Swizzle<"@ + swizzle_raw(sw.b, sw.m, sw.s) + ">"@,
        Seq::<char>::empty(),
        "untouched : "@ + untouched_text(sw.m),
        "target    : "@ + bits_text(sw.m as int, sw.m + sw.b - 1, sw.b == 1),
        "source    : "@ + bits_text(sw.m + sw.s, sw.m + sw.s + sw.b - 1, sw.b == 1),
        Seq::<char>::empty(),
        "operation:"@,
        d.operation@,
        Seq::<char>::empty(),
    ];
    let stride = match d.element_stride {
        Some(x) => match d.stride_log2 {
            Some(k) => seq!["stride = "@ + dec(x as nat) + " = 2^"@ + dec(k as nat)],
            None => seq!["stride = "@ + dec(x as nat)],
        },
        None => Seq::empty(),
    };
    head + stride + seq!["source starts at bit "@ + dec((sw.m + sw.s) as nat)]
}

pub open spec fn opt_row(name: Seq<char>, v: Option<u64>) -> Seq<Seq<Seq<char>>> {
    match v {
        Some(x) => seq![seq![name, dec(x as nat)]],
        None => Seq::empty(),
    }
}

/// The field/value rows of the explanation.
pub open spec fn explain_rows_spec(d: ExplainData) -> Seq<Seq<Seq<char>>> {
    let sw = d.swizzle;
    seq![
        seq!["swizzle"@, swizzle_raw(sw.b, sw.m, sw.s)],
        seq!["operation"@, d.operation@],
        seq!["patterns"@, dec(d.patterns as nat)],
    ] + opt_row("element_stride"@, d.element_stride) + opt_row(
        "stride_log2"@,
        match d.stride_log2 {
            Some(k) => Some(k as u64),
            None => None,
        },
    ) + opt_row("element_size_bytes"@, d.element_size_bytes)
}

fn bits_string(lo: u64, hi: u64, one: bool) -> (r: String)
    ensures
        r@ == bits_text(lo as int, hi as int, one),
{
    let mut r = String::from_str("bits [");
    if one {
        append_dec(&mut r, lo);
    } else {
        append_dec(&mut r, hi);
        r.append(":");
        append_dec(&mut r, lo);
    }
    r.append("]");
    r
}

fn labelled(label: &str, value: String) -> (r: String)
    ensures
        r@ == label@ + value@,
{
    let mut r = String::from_str(label);
    r.append(value.as_str());
    r
}

/// The explanation as lines of text.
pub fn explain_lines(d: &ExplainData) -> (r: Vec<String>)
    requires
        d.swizzle.m + d.swizzle.s + d.swizzle.b <= 255,
        d.swizzle.m + d.swizzle.b >= 1,
    ensures
        texts(r@) == explain_lines_spec(*d),
{
    let sw = d.swizzle;
    let mut first = String::from_str("Swizzle<");
    first.append(crate::swizzle::raw_string(sw.b, sw.m, sw.s).as_str());
    first.append(">");
    let untouched = if sw.m == 0 {
        String::from_str("none")
    } else if sw.m == 1 {
        String::from_str("bits [0]")
    } else {
        let mut u = String::from_str("bits [");
        append_dec(&mut u, (sw.m - 1) as u64);
        u.append(":0]");
        u
    };
    let t_lo = sw.m;
    let t_hi = sw.m + sw.b - 1;
    let s_lo = sw.m + sw.s;
    let s_hi = sw.m + sw.s + sw.b - 1;
    let mut lines: Vec<String> = vec![
        first,
        String::new(),
        labelled("untouched : ", untouched),
        labelled("target    : ", bits_string(t_lo as u64, t_hi as u64, sw.b == 1)),
        labelled("source    : ", bits_string(s_lo as u64, s_hi as u64, sw.b == 1)),
        String::new(),
        String::from_str("operation:"),
        d.operation.clone(),
        String::new(),
    ];
    let ghost head = lines@;
    if let Some(stride) = d.element_stride {
        let mut line = String::from_str("stride = ");
        append_dec(&mut line, stride);
        if let Some(log2) = d.stride_log2 {
            line.append(" = 2^");
            append_dec(&mut line, log2 as u64);
        }
        lines.push(line);
    }
    let ghost mid = lines@;
    let mut last = String::from_str("source starts at bit ");
    append_dec(&mut last, s_lo as u64);
    lines.push(last);
    proof {
        let sw = d.swizzle;
        let spec_head = seq![
            "Swizzle<"@ + swizzle_raw(sw.b, sw.m, sw.s) + ">"@,
            Seq::<char>::empty(),
            "untouched : "@ + untouched_text(sw.m),
            "target    : "@ + bits_text(sw.m as int, sw.m + sw.b - 1, sw.b == 1),
            "source    : "@ + bits_text(sw.m + sw.s, sw.m + sw.s + sw.b - 1, sw.b == 1),
            Seq::<char>::empty(),
            "operation:"@,
            d.operation@,
            Seq::<char>::empty(),
        ];
        assert(texts(head) =~~= spec_head);
        assert(texts(lines@) =~~= explain_lines_spec(*d));
    }
    lines
}

/// The explanation as field/value rows.
pub fn explain_table(d: &ExplainData) -> (t: TextTable)
    ensures
        texts(t.header@) == seq!["field"@, "value"@],
        t.meta@.len() == 0,
        t.rows@.map_values(|r: Vec<String>| texts(r@)) == explain_rows_spec(*d),
{
    let sw = d.swizzle;
    let header = vec![String::from_str("field"), String::from_str("value")];
    let mut rows: Vec<Vec<String>> = vec![
        vec![String::from_str("swizzle"), crate::swizzle::raw_string(sw.b, sw.m, sw.s)],
        vec![String::from_str("operation"), d.operation.clone()],
        vec![String::from_str("patterns"), dec_string(d.patterns)],
    ];
    let ghost r0 = rows@;
    if let Some(stride) = d.element_stride {
        rows.push(vec![String::from_str("element_stride"), dec_string(stride)]);
    }
    let ghost r1 = rows@;
    if let Some(log2) = d.stride_log2 {
        rows.push(vec![String::from_str("stride_log2"), dec_string(log2 as u64)]);
    }
    let ghost r2 = rows@;
    if let Some(sz) = d.element_size_bytes {
        rows.push(vec![String::from_str("element_size_bytes"), dec_string(sz)]);
    }
    let t = TextTable { header, meta: Vec::new(), rows };
    proof {
        assert(texts(t.header@) =~~= seq!["field"@, "value"@]);
        assert(t.rows@.map_values(|r: Vec<String>| texts(r@)) =~~= explain_rows_spec(*d));
    }
    t
}

} // verus!
