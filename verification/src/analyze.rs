//! Tracing lane accesses to banks, and the conflict measures derived from them.
use crate::access::AccessEntry;
use crate::bank::{bank_of, BankModel};
use crate::dtype::{size_bytes_spec, DataType};
use crate::error::{BankError, BankErrorView};
use crate::layout::{logical_offset_spec, offset_of, Layout2D};
use crate::explain::reasoning_spec;
use crate::rank::{rank_leq, rank_order, sort_keys, RankKey};
use crate::swizzle::{
    apply_spec, bit_range, raw_string, swizzle_params_valid, swizzle_raw, swizzle_value, Swizzle,
};
use crate::text::{append_dec, dec};
use vstd::prelude::*;

pub use crate::explain::{build_reasoning, explain_swizzle, ExplainData, SwizzleReasoning};

verus! {

/// One access carried through the layout, the swizzle and the bank model.
#[derive(Debug, Clone, Copy, PartialEq, Eq)]
pub struct Evaluated {
    pub lane: u32,
    pub coord: [u64; 2],
    pub logical_offset: u64,
    pub physical_offset: u64,
    pub byte_address: u64,
    pub bank: u32,
    pub group: u32,
}

#[derive(Debug, Clone)]
pub struct LaneTraceRow {
    pub key: String,
    pub lane: u32,
    pub coord: [u64; 2],
    pub logical_offset: u64,
    pub physical_offset: u64,
    pub byte_address: u64,
    pub bank: u32,
    pub group: Option<u32>,
    pub broadcast_like: bool,
}

#[derive(Debug, Clone)]
pub struct CompareRow {
    pub key: String,
    pub swizzle: [u8; 3],
    pub unique_banks: usize,
    pub conflicting_bank_count: usize,
    pub max_conflict_degree: usize,
    pub total_conflicting_accesses: usize,
}

#[derive(Debug, Clone)]
pub struct SearchCandidateRow {
    pub key: String,
    pub rank: usize,
    pub swizzle: [u8; 3],
    pub max_conflict_degree: usize,
    pub total_conflicting_accesses: usize,
    pub unique_banks: usize,
    pub source_bits: Vec<u32>,
    pub target_bits: Vec<u32>,
    pub reasoning: SwizzleReasoning,
}

#[derive(Debug, Clone, Copy, PartialEq, Eq, Structural)]
pub struct BankSummary {
    pub access_count: usize,
    pub unique_banks: usize,
    pub conflicting_bank_count: usize,
    pub conflicting_access_count: usize,
    pub max_conflict_degree: usize,
}

/// The physical offset of a logical one: swizzled where a swizzle is given.
pub open spec fn physical_spec(swizzle: Option<Swizzle>, logical: u64) -> Result<
    u64,
    BankErrorView,
> {
    match swizzle {
        Some(sw) => apply_spec(sw.b, sw.m, sw.s, logical),
        None => Ok(logical),
    }
}

/// One access evaluated: its logical offset, physical offset, byte address and bank.
pub open spec fn eval_access_spec(
    layout: Layout2D,
    dtype: DataType,
    swizzle: Option<Swizzle>,
    bm: BankModel,
    e: AccessEntry,
) -> Result<Evaluated, BankErrorView> {
    match logical_offset_spec(layout, e.coord) {
        Err(err) => Err(err),
        Ok(lo) => match physical_spec(swizzle, lo) {
            Err(err) => Err(err),
            Ok(po) => if po * size_bytes_spec(dtype) > u64::MAX {
                Err(
                    BankErrorView::InvalidCoordinate {
                        row: e.coord[0],
                        col: e.coord[1],
                        shape_rows: layout.shape[0],
                        shape_cols: layout.shape[1],
                    },
                )
            } else {
                let ba = (po * size_bytes_spec(dtype)) as u64;
                Ok(
                    Evaluated {
                        lane: e.lane,
                        coord: e.coord,
                        logical_offset: lo,
                        physical_offset: po,
                        byte_address: ba,
                        bank: bank_of(bm, ba),
                        group: match e.group {
                            Some(g) => g,
                            None => 0,
                        },
                    },
                )
            },
        },
    }
}

/// Whether the first access gets as far as its bank: its offset, its physical
/// offset and its byte address are all defined. Only then is the bank model used.
pub open spec fn reaches_bank(
    layout: Layout2D,
    dtype: DataType,
    swizzle: Option<Swizzle>,
    acc: Seq<AccessEntry>,
) -> bool {
    &&& acc.len() > 0
    &&& logical_offset_spec(layout, acc[0].coord) matches Ok(lo)
    &&& physical_spec(swizzle, lo) matches Ok(po)
    &&& po * size_bytes_spec(dtype) <= u64::MAX
}

/// All accesses evaluated in order, or the error of the first that fails.
pub open spec fn eval_all_spec(
    layout: Layout2D,
    dtype: DataType,
    swizzle: Option<Swizzle>,
    bm: BankModel,
    acc: Seq<AccessEntry>,
) -> Result<Seq<Evaluated>, BankErrorView>
    decreases acc.len(),
{
    if acc.len() == 0 {
        Ok(Seq::empty())
    } else {
        match eval_all_spec(layout, dtype, swizzle, bm, acc.drop_last()) {
            Err(e) => Err(e),
            Ok(prev) => match eval_access_spec(layout, dtype, swizzle, bm, acc.last()) {
                Err(e) => Err(e),
                Ok(ev) => Ok(prev.push(ev)),
            },
        }
    }
}

/// The distinct byte addresses that the accesses of `group` send to `bank`.
pub open spec fn addresses_in(evs: Seq<Evaluated>, group: u32, bank: u32) -> Set<u64> {
    evs.filter(|e: Evaluated| e.group == group && e.bank == bank).map_values(
        |e: Evaluated| e.byte_address,
    ).to_set()
}

/// How many serialized transactions `bank` needs for `group`: one per distinct
/// address (lanes that read one address are served by one broadcast).
pub open spec fn conflict_degree(evs: Seq<Evaluated>, group: u32, bank: u32) -> nat {
    addresses_in(evs, group, bank).len()
}

/// The banks that some access reaches.
pub open spec fn bank_set(evs: Seq<Evaluated>) -> Set<u32> {
    evs.map_values(|e: Evaluated| e.bank).to_set()
}

/// The (group, bank) pairs that some access reaches.
pub open spec fn key_set(evs: Seq<Evaluated>) -> Set<(u32, u32)> {
    evs.map_values(|e: Evaluated| (e.group, e.bank)).to_set()
}

/// The (group, bank) pairs that receive two or more distinct addresses.
pub open spec fn conflicting_keys(evs: Seq<Evaluated>) -> Set<(u32, u32)> {
    key_set(evs).filter(|k: (u32, u32)| conflict_degree(evs, k.0, k.1) >= 2)
}

pub open spec fn in_conflict(evs: Seq<Evaluated>, e: Evaluated) -> bool {
    conflict_degree(evs, e.group, e.bank) >= 2
}

/// The accesses whose (group, bank) pair is in conflict.
pub open spec fn conflicting_accesses(evs: Seq<Evaluated>) -> Seq<Evaluated> {
    evs.filter(|e: Evaluated| in_conflict(evs, e))
}

/// The largest conflict degree among the first `n` accesses (1 when there are none).
pub open spec fn max_degree_upto(evs: Seq<Evaluated>, n: int) -> nat
    decreases n,
{
    if n <= 0 {
        1
    } else {
        let d = conflict_degree(evs, evs[n - 1].group, evs[n - 1].bank);
        let p = max_degree_upto(evs, n - 1);
        if d > p {
            d
        } else {
            p
        }
    }
}

pub open spec fn max_degree(evs: Seq<Evaluated>) -> nat {
    max_degree_upto(evs, evs.len() as int)
}

pub open spec fn same_address(e: Evaluated, x: Evaluated) -> bool {
    x.group == e.group && x.bank == e.bank && x.byte_address == e.byte_address
}

/// The accesses of the group of `e` that read the address of `e` in its bank.
pub open spec fn hits_of(evs: Seq<Evaluated>, e: Evaluated) -> Seq<Evaluated> {
    evs.filter(|x: Evaluated| same_address(e, x))
}

/// The summary that the evaluated accesses give.
pub open spec fn summary_spec(s: BankSummary, evs: Seq<Evaluated>) -> bool {
    &&& s.access_count == evs.len()
    &&& s.unique_banks == bank_set(evs).len()
    &&& s.conflicting_bank_count == conflicting_keys(evs).len()
    &&& s.conflicting_access_count == conflicting_accesses(evs).len()
    &&& s.max_conflict_degree == max_degree(evs)
}

/// Whether no access names a group.
pub open spec fn all_ungrouped(acc: Seq<AccessEntry>) -> bool {
    forall|i: int| 0 <= i < acc.len() ==> (#[trigger] acc[i]).group is None
}

/// The trace row of access `i`.
pub open spec fn lane_row_spec(r: LaneTraceRow, evs: Seq<Evaluated>, i: int, ungrouped: bool) -> bool {
    let e = evs[i];
    &&& r.key@ == "lane:"@ + dec(e.lane as nat)
    &&& r.lane == e.lane
    &&& r.coord == e.coord
    &&& r.logical_offset == e.logical_offset
    &&& r.physical_offset == e.physical_offset
    &&& r.byte_address == e.byte_address
    &&& r.bank == e.bank
    &&& r.group == (if e.group == 0 && ungrouped {
        None
    } else {
        Some(e.group)
    })
    &&& r.broadcast_like == (hits_of(evs, e).len() > 1)
}

proof fn lemma_eval_all_err(
    layout: Layout2D,
    dtype: DataType,
    swizzle: Option<Swizzle>,
    bm: BankModel,
    acc: Seq<AccessEntry>,
    k: int,
)
    requires
        0 <= k <= acc.len(),
        eval_all_spec(layout, dtype, swizzle, bm, acc.take(k)) is Err,
    ensures
        eval_all_spec(layout, dtype, swizzle, bm, acc) == eval_all_spec(
            layout,
            dtype,
            swizzle,
            bm,
            acc.take(k),
        ),
    decreases acc.len() - k,
{
    if k == acc.len() {
        assert(acc.take(k) =~= acc);
    } else {
        assert(acc.take(k + 1).drop_last() =~= acc.take(k));
        lemma_eval_all_err(layout, dtype, swizzle, bm, acc, k + 1);
    }
}

proof fn lemma_dedup_push<A>(d: Seq<A>, x: A)
    requires
        d.no_duplicates(),
        !d.contains(x),
    ensures
        d.push(x).no_duplicates(),
        d.push(x).to_set() == d.to_set().insert(x),
{
    d.lemma_push_to_set_commute(x);
    assert forall|i: int, j: int|
        0 <= i < d.push(x).len() && 0 <= j < d.push(x).len() && i != j implies d.push(x)[i]
        != d.push(x)[j] by {
        if i == d.len() {
            assert(d[j] == d.push(x)[j]);
        } else if j == d.len() {
            assert(d[i] == d.push(x)[i]);
        }
    }
}

proof fn lemma_insert_present<A>(d: Seq<A>, x: A)
    requires
        d.contains(x),
    ensures
        d.to_set().insert(x) == d.to_set(),
{
    assert(d.to_set().insert(x) =~= d.to_set());
}

proof fn lemma_addresses_step(evs: Seq<Evaluated>, i: int, group: u32, bank: u32)
    requires
        0 <= i < evs.len(),
    ensures
        addresses_in(evs.take(i + 1), group, bank) == if evs[i].group == group && evs[i].bank
            == bank {
            addresses_in(evs.take(i), group, bank).insert(evs[i].byte_address)
        } else {
            addresses_in(evs.take(i), group, bank)
        },
{
    let pred = |e: Evaluated| e.group == group && e.bank == bank;
    let f = |e: Evaluated| e.byte_address;
    let pre = evs.take(i);
    assert(evs.take(i + 1) =~= pre.push(evs[i]));
    pre.lemma_filter_push(evs[i], pred);
    let fp = pre.filter(pred);
    if pred(evs[i]) {
        fp.lemma_push_map_commute(f, evs[i]);
        fp.map_values(f).lemma_push_to_set_commute(evs[i].byte_address);
    }
}

proof fn lemma_map_to_set_step<B>(evs: Seq<Evaluated>, i: int, f: spec_fn(Evaluated) -> B)
    requires
        0 <= i < evs.len(),
    ensures
        evs.take(i + 1).map_values(f).to_set() == evs.take(i).map_values(f).to_set().insert(
            f(evs[i]),
        ),
{
    let pre = evs.take(i);
    assert(evs.take(i + 1) =~= pre.push(evs[i]));
    pre.lemma_push_map_commute(f, evs[i]);
    pre.map_values(f).lemma_push_to_set_commute(f(evs[i]));
}

proof fn lemma_filter_step(evs: Seq<Evaluated>, i: int, pred: spec_fn(Evaluated) -> bool)
    requires
        0 <= i < evs.len(),
    ensures
        evs.take(i + 1).filter(pred).len() == evs.take(i).filter(pred).len() + if pred(evs[i]) {
            1int
        } else {
            0int
        },
{
    let pre = evs.take(i);
    assert(evs.take(i + 1) =~= pre.push(evs[i]));
    pre.lemma_filter_push(evs[i], pred);
}

fn contains_u64(d: &Vec<u64>, x: u64) -> (r: bool)
    ensures
        r == d@.contains(x),
{
    let mut i: usize = 0;
    while i < d.len()
        invariant
            i <= d@.len(),
            forall|j: int| 0 <= j < i ==> d@[j] != x,
        decreases d.len() - i,
    {
        if d[i] == x {
            return true;
        }
        i += 1;
    }
    false
}

fn contains_u32(d: &Vec<u32>, x: u32) -> (r: bool)
    ensures
        r == d@.contains(x),
{
    let mut i: usize = 0;
    while i < d.len()
        invariant
            i <= d@.len(),
            forall|j: int| 0 <= j < i ==> d@[j] != x,
        decreases d.len() - i,
    {
        if d[i] == x {
            return true;
        }
        i += 1;
    }
    false
}

fn find_key(d: &Vec<(u32, u32)>, x: (u32, u32)) -> (r: Option<usize>)
    ensures
        match r {
            Some(j) => j < d@.len() && d@[j as int] == x,
            None => !d@.contains(x),
        },
{
    let mut i: usize = 0;
    while i < d.len()
        invariant
            i <= d@.len(),
            forall|j: int| 0 <= j < i ==> d@[j] != x,
        decreases d.len() - i,
    {
        let (a, b) = d[i];
        if a == x.0 && b == x.1 {
            return Some(i);
        }
        i += 1;
    }
    None
}

/// The conflict degree of one (group, bank) pair.
fn degree_of(evs: &Vec<Evaluated>, group: u32, bank: u32) -> (r: usize)
    ensures
        r == conflict_degree(evs@, group, bank),
{
    let mut d: Vec<u64> = Vec::new();
    let mut i: usize = 0;
    while i < evs.len()
        invariant
            i <= evs@.len(),
            d@.no_duplicates(),
            d@.len() <= i,
            d@.to_set() == addresses_in(evs@.take(i as int), group, bank),
        decreases evs.len() - i,
    {
        let e = evs[i];
        proof {
            lemma_addresses_step(evs@, i as int, group, bank);
        }
        if e.group == group && e.bank == bank {
            if contains_u64(&d, e.byte_address) {
                proof {
                    lemma_insert_present(d@, e.byte_address);
                }
            } else {
                proof {
                    lemma_dedup_push(d@, e.byte_address);
                }
                d.push(e.byte_address);
            }
        }
        i += 1;
    }
    proof {
        d@.unique_seq_to_set();
        assert(evs@.take(evs@.len() as int) =~= evs@);
    }
    d.len()
}

/// Evaluates every access in order, stopping at the first that fails.
fn evaluate_all(
    layout: &Layout2D,
    dtype: DataType,
    swizzle: Option<Swizzle>,
    bank_model: &BankModel,
    accesses: &[AccessEntry],
) -> (r: Result<Vec<Evaluated>, BankError>)
    requires
        reaches_bank(*layout, dtype, swizzle, accesses@) ==> bank_model.well_formed(),
    ensures
        match eval_all_spec(*layout, dtype, swizzle, *bank_model, accesses@) {
            Ok(evs) => r matches Ok(v) && v@ == evs,
            Err(e) => r matches Err(x) && x@ == e,
        },
        r matches Ok(v) ==> v@.len() == accesses@.len(),
        r is Ok && accesses@.len() > 0 ==> reaches_bank(*layout, dtype, swizzle, accesses@),
{
    let mut evs: Vec<Evaluated> = Vec::new();
    let mut i: usize = 0;
    assert(accesses@.take(0) =~= Seq::<AccessEntry>::empty());
    while i < accesses.len()
        invariant
            i <= accesses@.len(),
            evs@.len() == i,
            reaches_bank(*layout, dtype, swizzle, accesses@) ==> bank_model.well_formed(),
            i > 0 ==> reaches_bank(*layout, dtype, swizzle, accesses@),
            eval_all_spec(*layout, dtype, swizzle, *bank_model, accesses@.take(i as int)) == Ok::<
                Seq<Evaluated>,
                BankErrorView,
            >(evs@),
        decreases accesses.len() - i,
    {
        let entry = accesses[i];
        let ghost next = accesses@.take(i + 1);
        assert(next.drop_last() =~= accesses@.take(i as int));
        assert(next.last() == entry);
        let logical = match layout.logical_offset(entry.coord) {
            Ok(v) => v,
            Err(e) => {
                proof {
                    lemma_eval_all_err(*layout, dtype, swizzle, *bank_model, accesses@, i + 1);
                }
                return Err(e);
            },
        };
        let physical = match swizzle {
            Some(sw) => match sw.apply(logical) {
                Ok(v) => v,
                Err(e) => {
                    proof {
                        lemma_eval_all_err(*layout, dtype, swizzle, *bank_model, accesses@, i + 1);
                    }
                    return Err(e);
                },
            },
            None => logical,
        };
        let size = dtype.size_bytes();
        let byte_address = match physical.checked_mul(size) {
            Some(v) => v,
            None => {
                proof {
                    lemma_eval_all_err(*layout, dtype, swizzle, *bank_model, accesses@, i + 1);
                }
                return Err(
                    BankError::InvalidCoordinate {
                        row: entry.coord[0],
                        col: entry.coord[1],
                        shape_rows: layout.shape[0],
                        shape_cols: layout.shape[1],
                    },
                );
            },
        };
        assert(reaches_bank(*layout, dtype, swizzle, accesses@)) by {
            if i == 0 {
                assert(entry == accesses@[0]);
            }
        }
        let bank = bank_model.bank_for_byte_address(byte_address);
        let group = match entry.group {
            Some(g) => g,
            None => 0,
        };
        evs.push(
            Evaluated {
                lane: entry.lane,
                coord: entry.coord,
                logical_offset: logical,
                physical_offset: physical,
                byte_address,
                bank,
                group,
            },
        );
        i += 1;
    }
    assert(accesses@.take(accesses@.len() as int) =~= accesses@);
    Ok(evs)
}

/// How many distinct banks the accesses reach.
fn count_banks(evs: &Vec<Evaluated>) -> (r: usize)
    ensures
        r == bank_set(evs@).len(),
{
    let mut d: Vec<u32> = Vec::new();
    let mut i: usize = 0;
    while i < evs.len()
        invariant
            i <= evs@.len(),
            d@.no_duplicates(),
            d@.len() <= i,
            d@.to_set() == bank_set(evs@.take(i as int)),
        decreases evs.len() - i,
    {
        let e = evs[i];
        proof {
            lemma_map_to_set_step(evs@, i as int, |e: Evaluated| e.bank);
        }
        if contains_u32(&d, e.bank) {
            proof {
                lemma_insert_present(d@, e.bank);
            }
        } else {
            proof {
                lemma_dedup_push(d@, e.bank);
            }
            d.push(e.bank);
        }
        i += 1;
    }
    proof {
        d@.unique_seq_to_set();
        assert(evs@.take(evs@.len() as int) =~= evs@);
    }
    d.len()
}

/// The (group, bank) pairs with their degrees, how many of them are in conflict,
/// and the largest degree.
fn key_stats(evs: &Vec<Evaluated>) -> (r: (Vec<(u32, u32)>, Vec<usize>, usize, usize))
    ensures
        r.0@.len() == r.1@.len(),
        r.0@.to_set() == key_set(evs@),
        forall|j: int|
            0 <= j < r.0@.len() ==> r.1@[j] == conflict_degree(evs@, r.0@[j].0, r.0@[j].1),
        r.2 == conflicting_keys(evs@).len(),
        r.3 == max_degree(evs@),
{
    let mut ks: Vec<(u32, u32)> = Vec::new();
    let mut degs: Vec<usize> = Vec::new();
    let mut cks: Vec<(u32, u32)> = Vec::new();
    let mut max_deg: usize = 1;
    let mut i: usize = 0;
    while i < evs.len()
        invariant
            i <= evs@.len(),
            ks@.len() == degs@.len(),
            ks@.no_duplicates(),
            ks@.to_set() == key_set(evs@.take(i as int)),
            forall|j: int|
                0 <= j < ks@.len() ==> degs@[j] == conflict_degree(evs@, ks@[j].0, ks@[j].1),
            cks@.no_duplicates(),
            cks@.to_set() == key_set(evs@.take(i as int)).filter(
                |k: (u32, u32)| conflict_degree(evs@, k.0, k.1) >= 2,
            ),
            max_deg == max_degree_upto(evs@, i as int),
            forall|j: int|
                0 <= j < i ==> conflict_degree(evs@, evs@[j].group, evs@[j].bank) <= max_deg,
        decreases evs.len() - i,
    {
        let e = evs[i];
        let k = (e.group, e.bank);
        let ghost pred = |k: (u32, u32)| conflict_degree(evs@, k.0, k.1) >= 2;
        proof {
            lemma_map_to_set_step(evs@, i as int, |e: Evaluated| (e.group, e.bank));
        }
        match find_key(&ks, k) {
            Some(j) => {
                proof {
                    lemma_insert_present(ks@, k);
                    assert(key_set(evs@.take(i as int)).contains(k));
                    let ms = evs@.take(i as int).map_values(|e: Evaluated| (e.group, e.bank));
                    let w = choose|w: int| 0 <= w < ms.len() && ms[w] == k;
                    assert(evs@[w].group == e.group && evs@[w].bank == e.bank);
                    assert(key_set(evs@.take(i + 1)) =~= key_set(evs@.take(i as int)));
                }
            },
            None => {
                let d = degree_of(evs, e.group, e.bank);
                proof {
                    lemma_dedup_push(ks@, k);
                }
                ks.push(k);
                degs.push(d);
                if d >= 2 {
                    proof {
                        assert(!cks@.contains(k)) by {
                            if cks@.contains(k) {
                                assert(cks@.to_set().contains(k));
                                assert(ks@.drop_last().to_set().contains(k));
                            }
                        }
                        lemma_dedup_push(cks@, k);
                    }
                    cks.push(k);
                }
                assert(key_set(evs@.take(i + 1)).filter(pred) =~= if d >= 2 {
                    key_set(evs@.take(i as int)).filter(pred).insert(k)
                } else {
                    key_set(evs@.take(i as int)).filter(pred)
                });
                if d > max_deg {
                    max_deg = d;
                }
            },
        }
        i += 1;
    }
    proof {
        cks@.unique_seq_to_set();
        assert(evs@.take(evs@.len() as int) =~= evs@);
    }
    (ks, degs, cks.len(), max_deg)
}

/// How many accesses read the address of `e` in its bank for its group.
fn count_hits(evs: &Vec<Evaluated>, e: Evaluated) -> (r: usize)
    ensures
        r == hits_of(evs@, e).len(),
{
    let mut cnt: usize = 0;
    let mut j: usize = 0;
    while j < evs.len()
        invariant
            j <= evs@.len(),
            cnt <= j,
            cnt == evs@.take(j as int).filter(|x: Evaluated| same_address(e, x)).len(),
        decreases evs.len() - j,
    {
        let x = evs[j];
        proof {
            lemma_filter_step(evs@, j as int, |x: Evaluated| same_address(e, x));
        }
        if x.group == e.group && x.bank == e.bank && x.byte_address == e.byte_address {
            cnt += 1;
        }
        j += 1;
    }
    assert(evs@.take(evs@.len() as int) =~= evs@);
    cnt
}

fn no_groups(accesses: &[AccessEntry]) -> (r: bool)
    ensures
        r == all_ungrouped(accesses@),
{
    let mut i: usize = 0;
    while i < accesses.len()
        invariant
            i <= accesses@.len(),
            forall|j: int| 0 <= j < i ==> (#[trigger] accesses@[j]).group is None,
        decreases accesses.len() - i,
    {
        if accesses[i].group.is_some() {
            return false;
        }
        i += 1;
    }
    true
}

/// What tracing gives once every access has been evaluated: one row per access
/// and the summary of them all.
pub open spec fn trace_ok(
    rows: Seq<LaneTraceRow>,
    s: BankSummary,
    evs: Seq<Evaluated>,
    acc: Seq<AccessEntry>,
) -> bool {
    &&& rows.len() == evs.len()
    &&& forall|i: int|
        0 <= i < rows.len() ==> lane_row_spec(#[trigger] rows[i], evs, i, all_ungrouped(acc))
    &&& summary_spec(s, evs)
}

/// What `trace_accesses` gives: an empty access set is refused, the first access
/// that cannot be evaluated fails the trace, and otherwise the rows and summary.
pub open spec fn trace_spec(
    r: Result<(Vec<LaneTraceRow>, BankSummary), BankError>,
    layout: Layout2D,
    dtype: DataType,
    swizzle: Option<Swizzle>,
    bm: BankModel,
    acc: Seq<AccessEntry>,
) -> bool {
    if acc.len() == 0 {
        r matches Err(e) && e@ == BankErrorView::EmptyAccessSet
    } else {
        match eval_all_spec(layout, dtype, swizzle, bm, acc) {
            Err(e) => r matches Err(x) && x@ == e,
            Ok(evs) => r matches Ok((rows, s)) && trace_ok(rows@, s, evs, acc),
        }
    }
}

/// Traces each access to its physical offset, byte address and bank, and measures
/// the bank conflicts within each group.
pub fn trace_accesses(
    layout: &Layout2D,
    dtype: DataType,
    swizzle: Option<Swizzle>,
    bank_model: &BankModel,
    accesses: &[AccessEntry],
) -> (r: Result<(Vec<LaneTraceRow>, BankSummary), BankError>)
    requires
        reaches_bank(*layout, dtype, swizzle, accesses@) ==> bank_model.well_formed(),
    ensures
        trace_spec(r, *layout, dtype, swizzle, *bank_model, accesses@),
        r is Ok ==> reaches_bank(*layout, dtype, swizzle, accesses@),
{
    if accesses.len() == 0 {
        return Err(BankError::EmptyAccessSet);
    }
    let evs = match evaluate_all(layout, dtype, swizzle, bank_model, accesses) {
        Ok(v) => v,
        Err(e) => {
            return Err(e);
        },
    };
    let ghost ev = evs@;
    let unique_banks = count_banks(&evs);
    let (ks, degs, conflicting_bank_count, max_conflict_degree) = key_stats(&evs);
    let ungrouped = no_groups(accesses);
    let mut rows: Vec<LaneTraceRow> = Vec::new();
    let mut conflicting_access_count: usize = 0;
    let mut i: usize = 0;
    while i < evs.len()
        invariant
            evs@ == ev,
            i <= ev.len(),
            rows@.len() == i,
            conflicting_access_count <= i,
            conflicting_access_count == ev.take(i as int).filter(
                |x: Evaluated| in_conflict(ev, x),
            ).len(),
            ungrouped == all_ungrouped(accesses@),
            ks@.len() == degs@.len(),
            ks@.to_set() == key_set(ev),
            forall|j: int|
                0 <= j < ks@.len() ==> degs@[j] == conflict_degree(ev, ks@[j].0, ks@[j].1),
            forall|k: int| 0 <= k < i ==> lane_row_spec(#[trigger] rows@[k], ev, k, ungrouped),
        decreases ev.len() - i,
    {
        let e = evs[i];
        let k = (e.group, e.bank);
        proof {
            let ms = ev.map_values(|e: Evaluated| (e.group, e.bank));
            assert(ms[i as int] == k);
            assert(key_set(ev).contains(k));
            assert(ks@.to_set().contains(k));
            lemma_filter_step(ev, i as int, |x: Evaluated| in_conflict(ev, x));
        }
        let deg = match find_key(&ks, k) {
            Some(j) => degs[j],
            None => {
                proof {
                    assert(false);
                }
                0
            },
        };
        if deg >= 2 {
            conflicting_access_count += 1;
        }
        let hits = count_hits(&evs, e);
        let mut key = String::from_str("lane:");
        append_dec(&mut key, e.lane as u64);
        let group = if e.group == 0 && ungrouped {
            None
        } else {
            Some(e.group)
        };
        rows.push(
            LaneTraceRow {
                key,
                lane: e.lane,
                coord: e.coord,
                logical_offset: e.logical_offset,
                physical_offset: e.physical_offset,
                byte_address: e.byte_address,
                bank: e.bank,
                group,
                broadcast_like: hits > 1,
            },
        );
        i += 1;
    }
    assert(ev.take(ev.len() as int) =~= ev);
    let summary = BankSummary {
        access_count: accesses.len(),
        unique_banks,
        conflicting_bank_count,
        conflicting_access_count,
        max_conflict_degree,
    };
    Ok((rows, summary))
}

/// The summary as a value.
pub open spec fn summary_of(evs: Seq<Evaluated>) -> BankSummary {
    BankSummary {
        access_count: evs.len() as usize,
        unique_banks: bank_set(evs).len() as usize,
        conflicting_bank_count: conflicting_keys(evs).len() as usize,
        conflicting_access_count: conflicting_accesses(evs).len() as usize,
        max_conflict_degree: max_degree(evs) as usize,
    }
}

/// The summary of tracing the accesses through one swizzle.
pub open spec fn swizzle_summary_spec(
    layout: Layout2D,
    dtype: DataType,
    bm: BankModel,
    acc: Seq<AccessEntry>,
    sw: Swizzle,
) -> Result<BankSummary, BankErrorView> {
    match eval_all_spec(layout, dtype, Some(sw), bm, acc) {
        Err(e) => Err(e),
        Ok(evs) => Ok(summary_of(evs)),
    }
}

/// The summaries of all the swizzles in order, or the error of the first that fails.
pub open spec fn summaries_spec(
    layout: Layout2D,
    dtype: DataType,
    bm: BankModel,
    acc: Seq<AccessEntry>,
    sws: Seq<Swizzle>,
) -> Result<Seq<BankSummary>, BankErrorView>
    decreases sws.len(),
{
    if sws.len() == 0 {
        Ok(Seq::empty())
    } else {
        match summaries_spec(layout, dtype, bm, acc, sws.drop_last()) {
            Err(e) => Err(e),
            Ok(prev) => match swizzle_summary_spec(layout, dtype, bm, acc, sws.last()) {
                Err(e) => Err(e),
                Ok(s) => Ok(prev.push(s)),
            },
        }
    }
}

proof fn lemma_summaries_err(
    layout: Layout2D,
    dtype: DataType,
    bm: BankModel,
    acc: Seq<AccessEntry>,
    sws: Seq<Swizzle>,
    k: int,
)
    requires
        0 <= k <= sws.len(),
        summaries_spec(layout, dtype, bm, acc, sws.take(k)) is Err,
    ensures
        summaries_spec(layout, dtype, bm, acc, sws) == summaries_spec(
            layout,
            dtype,
            bm,
            acc,
            sws.take(k),
        ),
    decreases sws.len() - k,
{
    if k == sws.len() {
        assert(sws.take(k) =~= sws);
    } else {
        assert(sws.take(k + 1).drop_last() =~= sws.take(k));
        lemma_summaries_err(layout, dtype, bm, acc, sws, k + 1);
    }
}

/// Traces the accesses through each swizzle in order and keeps the summaries.
fn summaries(
    layout: &Layout2D,
    dtype: DataType,
    bank_model: &BankModel,
    accesses: &[AccessEntry],
    swizzles: &Vec<Swizzle>,
) -> (r: Result<Vec<BankSummary>, BankError>)
    requires
        swizzles@.len() > 0 && reaches_bank(*layout, dtype, Some(swizzles@[0]), accesses@)
            ==> bank_model.well_formed(),
        accesses@.len() > 0,
    ensures
        match summaries_spec(*layout, dtype, *bank_model, accesses@, swizzles@) {
            Ok(sums) => r matches Ok(v) && v@ == sums,
            Err(e) => r matches Err(x) && x@ == e,
        },
        r matches Ok(v) ==> v@.len() == swizzles@.len(),
{
    let mut sums: Vec<BankSummary> = Vec::new();
    let mut i: usize = 0;
    assert(swizzles@.take(0) =~= Seq::<Swizzle>::empty());
    while i < swizzles.len()
        invariant
            i <= swizzles@.len(),
            sums@.len() == i,
            swizzles@.len() > 0 && reaches_bank(*layout, dtype, Some(swizzles@[0]), accesses@)
                ==> bank_model.well_formed(),
            i > 0 ==> bank_model.well_formed(),
            accesses@.len() > 0,
            summaries_spec(*layout, dtype, *bank_model, accesses@, swizzles@.take(i as int))
                == Ok::<Seq<BankSummary>, BankErrorView>(sums@),
        decreases swizzles.len() - i,
    {
        let sw = swizzles[i];
        let ghost next = swizzles@.take(i + 1);
        assert(next.drop_last() =~= swizzles@.take(i as int));
        assert(next.last() == sw);
        match trace_accesses(layout, dtype, Some(sw), bank_model, accesses) {
            Ok((_rows, summary)) => {
                proof {
                    let evs = eval_all_spec(*layout, dtype, Some(sw), *bank_model, accesses@)->Ok_0;
                    assert(summary == summary_of(evs));
                }
                sums.push(summary);
            },
            Err(e) => {
                proof {
                    lemma_summaries_err(*layout, dtype, *bank_model, accesses@, swizzles@, i + 1);
                }
                return Err(e);
            },
        }
        i += 1;
    }
    assert(swizzles@.take(swizzles@.len() as int) =~= swizzles@);
    Ok(sums)
}

/// The key that ranks candidate `i`.
pub open spec fn rank_key_of(sw: Swizzle, s: BankSummary, i: int) -> RankKey {
    RankKey {
        max_conflict_degree: s.max_conflict_degree,
        conflicting_accesses: s.conflicting_access_count,
        unique_banks: s.unique_banks,
        b: sw.b,
        m: sw.m,
        s: sw.s,
        index: i as usize,
    }
}

pub open spec fn rank_keys(sws: Seq<Swizzle>, sums: Seq<BankSummary>) -> Seq<RankKey> {
    Seq::new(sws.len(), |i: int| rank_key_of(sws[i], sums[i], i))
}

/// The candidates in ranking order (a stable sort by the ranking criteria).
pub open spec fn ranking(sws: Seq<Swizzle>, sums: Seq<BankSummary>) -> Seq<RankKey> {
    rank_keys(sws, sums).sort_by(rank_order())
}

proof fn lemma_ranking_elements(sws: Seq<Swizzle>, sums: Seq<BankSummary>)
    requires
        sws.len() == sums.len(),
        sws.len() <= usize::MAX,
    ensures
        ranking(sws, sums).len() == sws.len(),
        forall|i: int|
            0 <= i < sws.len() ==> (#[trigger] ranking(sws, sums)[i]).index < sws.len()
                && ranking(sws, sums)[i] == rank_key_of(
                sws[ranking(sws, sums)[i].index as int],
                sums[ranking(sws, sums)[i].index as int],
                ranking(sws, sums)[i].index as int,
            ),
{
    broadcast use vstd::seq_lib::group_to_multiset_ensures;

    crate::rank::lemma_rank_total();
    let keys = rank_keys(sws, sums);
    let sorted = ranking(sws, sums);
    keys.lemma_sort_by_ensures(rank_order());
    assert(keys.to_multiset().len() == keys.len());
    assert(sorted.to_multiset().len() == sorted.len());
    assert(sorted.len() == keys.len());
    assert forall|i: int| 0 <= i < sws.len() implies (#[trigger] sorted[i]).index < sws.len()
        && sorted[i] == rank_key_of(
        sws[sorted[i].index as int],
        sums[sorted[i].index as int],
        sorted[i].index as int,
    ) by {
        assert(sorted.contains(sorted[i]));
        assert(keys.contains(sorted[i]));
        let j = choose|j: int| 0 <= j < keys.len() && keys[j] == sorted[i];
        assert(keys[j] == rank_key_of(sws[j], sums[j], j));
    }
}

/// The comparison row of one swizzle.
pub open spec fn compare_row_spec(r: CompareRow, sw: Swizzle, s: BankSummary) -> bool {
    &&& r.key@ == "swizzle:"@ + swizzle_raw(sw.b, sw.m, sw.s)
    &&& r.swizzle@ == seq![sw.b, sw.m, sw.s]
    &&& r.unique_banks == s.unique_banks
    &&& r.conflicting_bank_count == s.conflicting_bank_count
    &&& r.max_conflict_degree == s.max_conflict_degree
    &&& r.total_conflicting_accesses == s.conflicting_access_count
}

/// One row per swizzle, in ranking order.
pub open spec fn compare_rows_spec(
    rows: Seq<CompareRow>,
    sws: Seq<Swizzle>,
    sums: Seq<BankSummary>,
) -> bool {
    let order = ranking(sws, sums);
    &&& rows.len() == sws.len()
    &&& forall|i: int|
        0 <= i < rows.len() ==> compare_row_spec(
            #[trigger] rows[i],
            sws[order[i].index as int],
            sums[order[i].index as int],
        )
}

fn rank_key_list(swizzles: &Vec<Swizzle>, sums: &Vec<BankSummary>) -> (r: Vec<RankKey>)
    requires
        swizzles@.len() == sums@.len(),
    ensures
        r@ == rank_keys(swizzles@, sums@),
{
    let mut keys: Vec<RankKey> = Vec::new();
    let mut i: usize = 0;
    while i < swizzles.len()
        invariant
            i <= swizzles@.len(),
            swizzles@.len() == sums@.len(),
            keys@ == rank_keys(swizzles@, sums@).take(i as int),
        decreases swizzles.len() - i,
    {
        let sw = swizzles[i];
        let s = sums[i];
        keys.push(
            RankKey {
                max_conflict_degree: s.max_conflict_degree,
                conflicting_accesses: s.conflicting_access_count,
                unique_banks: s.unique_banks,
                b: sw.b,
                m: sw.m,
                s: sw.s,
                index: i,
            },
        );
        i += 1;
        assert(keys@ =~= rank_keys(swizzles@, sums@).take(i as int));
    }
    assert(rank_keys(swizzles@, sums@).take(i as int) =~= rank_keys(swizzles@, sums@));
    keys
}

fn swizzle_key_string(sw: &Swizzle) -> (r: String)
    ensures
        r@ == "swizzle:"@ + swizzle_raw(sw.b, sw.m, sw.s),
{
    let mut key = String::from_str("swizzle:");
    key.append(raw_string(sw.b, sw.m, sw.s).as_str());
    key
}

/// Measures the accesses under each swizzle and ranks the swizzles: fewest
/// serialized transactions first, then fewest conflicting accesses, then most
/// banks used, then by parameters, then in the order given.
pub fn compare_swizzles(
    layout: &Layout2D,
    dtype: DataType,
    bank_model: &BankModel,
    accesses: &[AccessEntry],
    swizzles: &[Swizzle],
) -> (r: Result<Vec<CompareRow>, BankError>)
    requires
        swizzles@.len() > 0 && reaches_bank(*layout, dtype, Some(swizzles@[0]), accesses@)
            ==> bank_model.well_formed(),
    ensures
        accesses@.len() == 0 ==> (r matches Err(e) && e@ == BankErrorView::EmptyAccessSet),
        accesses@.len() > 0 ==> match summaries_spec(
            *layout,
            dtype,
            *bank_model,
            accesses@,
            swizzles@,
        ) {
            Ok(sums) => r matches Ok(rows) && compare_rows_spec(rows@, swizzles@, sums),
            Err(e) => r matches Err(x) && x@ == e,
        },
{
    if accesses.len() == 0 {
        return Err(BankError::EmptyAccessSet);
    }
    let mut sws: Vec<Swizzle> = Vec::new();
    let mut i: usize = 0;
    while i < swizzles.len()
        invariant
            i <= swizzles@.len(),
            sws@ == swizzles@.take(i as int),
        decreases swizzles.len() - i,
    {
        sws.push(swizzles[i]);
        i += 1;
        assert(sws@ =~= swizzles@.take(i as int));
    }
    assert(swizzles@.take(swizzles@.len() as int) =~= swizzles@);
    let sums = match summaries(layout, dtype, bank_model, accesses, &sws) {
        Ok(v) => v,
        Err(e) => {
            return Err(e);
        },
    };
    let keys = rank_key_list(&sws, &sums);
    let order = sort_keys(&keys);
    proof {
        lemma_ranking_elements(sws@, sums@);
    }
    let mut rows: Vec<CompareRow> = Vec::new();
    let mut k: usize = 0;
    while k < order.len()
        invariant
            k <= order@.len(),
            order@ == ranking(sws@, sums@),
            order@.len() == sws@.len(),
            sums@.len() == sws@.len(),
            rows@.len() == k,
            forall|i: int|
                0 <= i < sws@.len() ==> (#[trigger] order@[i]).index < sws@.len() && order@[i]
                    == rank_key_of(
                    sws@[order@[i].index as int],
                    sums@[order@[i].index as int],
                    order@[i].index as int,
                ),
            forall|i: int|
                0 <= i < k ==> compare_row_spec(
                    #[trigger] rows@[i],
                    sws@[order@[i].index as int],
                    sums@[order@[i].index as int],
                ),
        decreases order.len() - k,
    {
        let j = order[k].index;
        let sw = sws[j];
        let s = sums[j];
        rows.push(
            CompareRow {
                key: swizzle_key_string(&sw),
                swizzle: sw.to_array(),
                unique_banks: s.unique_banks,
                conflicting_bank_count: s.conflicting_bank_count,
                max_conflict_degree: s.max_conflict_degree,
                total_conflicting_accesses: s.conflicting_access_count,
            },
        );
        k += 1;
    }
    Ok(rows)
}

/// The swizzle with the parameters `b`, `m`, `s`.
pub open spec fn swz(b: int, m: int, s: int) -> Swizzle {
    Swizzle { b: b as u8, m: m as u8, s: s as u8 }
}

/// The valid swizzles with `S` from `s` to `s_max`, for fixed `B` and `M`.
pub open spec fn cands_s(b: int, m: int, s: int, s_max: int) -> Seq<Swizzle>
    decreases s_max + 1 - s,
{
    if s > s_max {
        Seq::empty()
    } else {
        let rest = cands_s(b, m, s + 1, s_max);
        if swizzle_params_valid(b as u8, m as u8, s as u8) {
            seq![swz(b, m, s)] + rest
        } else {
            rest
        }
    }
}

/// The valid swizzles with `M` from `m` to `m_max`, for fixed `B`.
pub open spec fn cands_m(b: int, m: int, m_max: int, s_min: int, s_max: int) -> Seq<Swizzle>
    decreases m_max + 1 - m,
{
    if m > m_max {
        Seq::empty()
    } else {
        cands_s(b, m, s_min, s_max) + cands_m(b, m + 1, m_max, s_min, s_max)
    }
}

/// The valid swizzles with `B` from `b` to `b_max`.
pub open spec fn cands_b(b: int, b_max: int, m_min: int, m_max: int, s_min: int, s_max: int) -> Seq<
    Swizzle,
>
    decreases b_max + 1 - b,
{
    if b > b_max {
        Seq::empty()
    } else {
        cands_m(b, m_min, m_max, s_min, s_max) + cands_b(b + 1, b_max, m_min, m_max, s_min, s_max)
    }
}

/// The candidates of a search: every valid swizzle in the three inclusive ranges,
/// in the order of `B`, then `M`, then `S`.
pub open spec fn candidates(b_range: (u8, u8), m_range: (u8, u8), s_range: (u8, u8)) -> Seq<
    Swizzle,
> {
    cands_b(
        b_range.0 as int,
        b_range.1 as int,
        m_range.0 as int,
        m_range.1 as int,
        s_range.0 as int,
        s_range.1 as int,
    )
}

/// How many values an inclusive range holds.
pub open spec fn range_count(r: (u8, u8)) -> int {
    if r.1 >= r.0 {
        r.1 - r.0 + 1
    } else {
        0
    }
}

/// The size of the whole parameter box, valid or not.
pub open spec fn search_space(b_range: (u8, u8), m_range: (u8, u8), s_range: (u8, u8)) -> int {
    range_count(b_range) * range_count(m_range) * range_count(s_range)
}

/// The largest parameter box a search takes on.
pub open spec fn max_search_space() -> int {
    100_000
}

/// The search row of a ranked candidate.
pub open spec fn search_row_spec(
    r: SearchCandidateRow,
    sw: Swizzle,
    s: BankSummary,
    rank: int,
    stride_row: u64,
) -> bool {
    &&& r.key@ == "swizzle:"@ + swizzle_raw(sw.b, sw.m, sw.s)
    &&& r.rank == rank
    &&& r.swizzle@ == seq![sw.b, sw.m, sw.s]
    &&& r.max_conflict_degree == s.max_conflict_degree
    &&& r.total_conflicting_accesses == s.conflicting_access_count
    &&& r.unique_banks == s.unique_banks
    &&& r.source_bits@ == bit_range(sw.m + sw.s, sw.b as int)
    &&& r.target_bits@ == bit_range(sw.m as int, sw.b as int)
    &&& reasoning_spec(r.reasoning, sw, stride_row)
}

/// The first `limit` candidates in ranking order, ranked from 1.
pub open spec fn search_rows_spec(
    rows: Seq<SearchCandidateRow>,
    cands: Seq<Swizzle>,
    sums: Seq<BankSummary>,
    limit: usize,
    stride_row: u64,
) -> bool {
    let order = ranking(cands, sums);
    &&& rows.len() == if limit < cands.len() {
        limit as int
    } else {
        cands.len() as int
    }
    &&& forall|i: int|
        0 <= i < rows.len() ==> search_row_spec(
            #[trigger] rows[i],
            cands[order[i].index as int],
            sums[order[i].index as int],
            i + 1,
            stride_row,
        )
}

fn range_len(r: (u8, u8)) -> (n: usize)
    requires
        !(r.0 == 0 && r.1 == 255),
    ensures
        n == range_count(r),
        n <= 255,
{
    if r.1 >= r.0 {
        (r.1 - r.0 + 1) as usize
    } else {
        0
    }
}

/// Lists the candidates of a search.
fn enumerate_candidates(b_range: (u8, u8), m_range: (u8, u8), s_range: (u8, u8)) -> (r: Vec<
    Swizzle,
>)
    ensures
        r@ == candidates(b_range, m_range, s_range),
{
    let (b_min, b_max) = b_range;
    let (m_min, m_max) = m_range;
    let (s_min, s_max) = s_range;
    let mut cands: Vec<Swizzle> = Vec::new();
    let mut b: u16 = b_min as u16;
    while b <= b_max as u16
        invariant
            b_min <= b <= 256,
            cands@ + cands_b(
                b as int,
                b_max as int,
                m_min as int,
                m_max as int,
                s_min as int,
                s_max as int,
            ) == candidates(b_range, m_range, s_range),
            b_range == (b_min, b_max),
            m_range == (m_min, m_max),
            s_range == (s_min, s_max),
        decreases 256 - b,
    {
        let ghost start_b = cands@;
        let mut m: u16 = m_min as u16;
        while m <= m_max as u16
            invariant
                m_min <= m <= 256,
                b <= b_max,
                cands@ + cands_m(b as int, m as int, m_max as int, s_min as int, s_max as int)
                    == start_b + cands_m(
                    b as int,
                    m_min as int,
                    m_max as int,
                    s_min as int,
                    s_max as int,
                ),
            decreases 256 - m,
        {
            let ghost start_m = cands@;
            let mut s: u16 = s_min as u16;
            while s <= s_max as u16
                invariant
                    s_min <= s <= 256,
                    b <= b_max,
                    m <= m_max,
                    cands@ + cands_s(b as int, m as int, s as int, s_max as int) == start_m
                        + cands_s(b as int, m as int, s_min as int, s_max as int),
                decreases 256 - s,
            {
                let bb = b as u8;
                let mm = m as u8;
                let ss = s as u8;
                let ghost before = cands@;
                if bb > 0 && ss > 0 && ss >= bb && (mm as u32) + (ss as u32) + (bb as u32) <= 64 {
                    cands.push(Swizzle { b: bb, m: mm, s: ss });
                    assert(before + cands_s(b as int, m as int, s as int, s_max as int) =~= cands@
                        + cands_s(b as int, m as int, s + 1, s_max as int));
                }
                s += 1;
            }
            assert(cands@ =~= cands@ + cands_s(b as int, m as int, s as int, s_max as int));
            assert(cands@ + cands_m(b as int, m + 1, m_max as int, s_min as int, s_max as int)
                =~= start_m + cands_m(b as int, m as int, m_max as int, s_min as int, s_max as int));
            m += 1;
        }
        assert(cands@ =~= cands@ + cands_m(
            b as int,
            m as int,
            m_max as int,
            s_min as int,
            s_max as int,
        ));
        assert(cands@ + cands_b(b + 1, b_max as int, m_min as int, m_max as int, s_min as int, s_max as int)
            =~= start_b + cands_b(
            b as int,
            b_max as int,
            m_min as int,
            m_max as int,
            s_min as int,
            s_max as int,
        ));
        b += 1;
    }
    assert(cands@ =~= cands@ + cands_b(
        b as int,
        b_max as int,
        m_min as int,
        m_max as int,
        s_min as int,
        s_max as int,
    ));
    cands
}

/// Tries every valid swizzle in the parameter ranges on the accesses and returns
/// the best `limit` of them in ranking order, ranked from 1.
pub fn search_swizzles(
    layout: &Layout2D,
    dtype: DataType,
    bank_model: &BankModel,
    accesses: &[AccessEntry],
    b_range: (u8, u8),
    m_range: (u8, u8),
    s_range: (u8, u8),
    limit: usize,
) -> (r: Result<Vec<SearchCandidateRow>, BankError>)
    requires
        accesses@.len() > 0 ==> !(b_range.0 == 0 && b_range.1 == 255),
        accesses@.len() > 0 ==> !(m_range.0 == 0 && m_range.1 == 255),
        accesses@.len() > 0 ==> !(s_range.0 == 0 && s_range.1 == 255),
        search_space(b_range, m_range, s_range) <= max_search_space() && candidates(
            b_range,
            m_range,
            s_range,
        ).len() > 0 && reaches_bank(
            *layout,
            dtype,
            Some(candidates(b_range, m_range, s_range)[0]),
            accesses@,
        ) ==> bank_model.well_formed(),
    ensures
        accesses@.len() == 0 ==> (r matches Err(e) && e@ == BankErrorView::EmptyAccessSet),
        accesses@.len() > 0 && search_space(b_range, m_range, s_range) > max_search_space() ==> (
        r matches Err(e) && e@ == BankErrorView::SearchSpaceTooLarge {
            total: search_space(b_range, m_range, s_range) as usize,
            max: max_search_space() as usize,
        }),
        accesses@.len() > 0 && search_space(b_range, m_range, s_range) <= max_search_space()
            ==> match summaries_spec(
            *layout,
            dtype,
            *bank_model,
            accesses@,
            candidates(b_range, m_range, s_range),
        ) {
            Ok(sums) => r matches Ok(rows) && search_rows_spec(
                rows@,
                candidates(b_range, m_range, s_range),
                sums,
                limit,
                layout.stride[0],
            ),
            Err(e) => r matches Err(x) && x@ == e,
        },
{
    if accesses.len() == 0 {
        return Err(BankError::EmptyAccessSet);
    }
    let b_count = range_len(b_range);
    let m_count = range_len(m_range);
    let s_count = range_len(s_range);
    assert(b_count * m_count <= 255 * 255) by (nonlinear_arith)
        requires
            b_count <= 255,
            m_count <= 255,
    ;
    assert(b_count * m_count * s_count <= 255 * 255 * 255) by (nonlinear_arith)
        requires
            b_count * m_count <= 255 * 255,
            s_count <= 255,
    ;
    let total_cartesian = b_count * m_count * s_count;
    if total_cartesian > 100_000 {
        return Err(BankError::SearchSpaceTooLarge { total: total_cartesian, max: 100_000 });
    }
    let cands = enumerate_candidates(b_range, m_range, s_range);
    let row_stride = layout.stride[0];
    let sums = match summaries(layout, dtype, bank_model, accesses, &cands) {
        Ok(v) => v,
        Err(e) => {
            return Err(e);
        },
    };
    let keys = rank_key_list(&cands, &sums);
    let order = sort_keys(&keys);
    let n_cands = cands.len();
    proof {
        lemma_ranking_elements(cands@, sums@);
    }
    let take_count = if order.len() < limit {
        order.len()
    } else {
        limit
    };
    let mut rows: Vec<SearchCandidateRow> = Vec::new();
    let mut k: usize = 0;
    while k < take_count
        invariant
            k <= take_count <= order@.len(),
            take_count == if limit < cands@.len() {
                limit as int
            } else {
                cands@.len() as int
            },
            order@ == ranking(cands@, sums@),
            order@.len() == cands@.len(),
            sums@.len() == cands@.len(),
            row_stride == layout.stride[0],
            rows@.len() == k,
            forall|i: int|
                0 <= i < cands@.len() ==> (#[trigger] order@[i]).index < cands@.len()
                    && order@[i] == rank_key_of(
                    cands@[order@[i].index as int],
                    sums@[order@[i].index as int],
                    order@[i].index as int,
                ),
            forall|i: int|
                0 <= i < k ==> search_row_spec(
                    #[trigger] rows@[i],
                    cands@[order@[i].index as int],
                    sums@[order@[i].index as int],
                    i + 1,
                    row_stride,
                ),
        decreases take_count - k,
    {
        let j = order[k].index;
        let sw = cands[j];
        let s = sums[j];
        let reasoning = build_reasoning(&sw, row_stride);
        rows.push(
            SearchCandidateRow {
                key: swizzle_key_string(&sw),
                rank: k + 1,
                swizzle: sw.to_array(),
                max_conflict_degree: s.max_conflict_degree,
                total_conflicting_accesses: s.conflicting_access_count,
                unique_banks: s.unique_banks,
                source_bits: sw.source_bits(),
                target_bits: sw.target_bits(),
                reasoning,
            },
        );
        k += 1;
    }
    Ok(rows)
}

/// Every evaluated access describes its own entry: the row-major offset of its
/// coordinate, that offset swizzled (or kept, without a swizzle), scaled to bytes,
/// and the bank of that byte address, which is below the bank count.
pub proof fn lemma_trace_describes_accesses(
    layout: Layout2D,
    dtype: DataType,
    swizzle: Option<Swizzle>,
    bm: BankModel,
    acc: Seq<AccessEntry>,
)
    requires
        bm.well_formed(),
        eval_all_spec(layout, dtype, swizzle, bm, acc) is Ok,
    ensures
        ({
            let evs = eval_all_spec(layout, dtype, swizzle, bm, acc)->Ok_0;
            &&& evs.len() == acc.len()
            &&& forall|i: int|
                0 <= i < evs.len() ==> {
                    let e = #[trigger] evs[i];
                    &&& e.lane == acc[i].lane
                    &&& e.coord == acc[i].coord
                    &&& e.group == match acc[i].group {
                        Some(g) => g,
                        None => 0,
                    }
                    &&& e.logical_offset == offset_of(layout, acc[i].coord)
                    &&& e.physical_offset == match swizzle {
                        None => e.logical_offset,
                        Some(sw) => swizzle_value(sw.b, sw.m, sw.s, e.logical_offset),
                    }
                    &&& e.byte_address == e.physical_offset * size_bytes_spec(dtype)
                    &&& e.bank == bank_of(bm, e.byte_address)
                    &&& e.bank < bm.bank_count
                }
        }),
    decreases acc.len(),
{
    if acc.len() > 0 {
        lemma_trace_describes_accesses(layout, dtype, swizzle, bm, acc.drop_last());
        let prev = eval_all_spec(layout, dtype, swizzle, bm, acc.drop_last())->Ok_0;
        let evs = eval_all_spec(layout, dtype, swizzle, bm, acc)->Ok_0;
        let last = evs.last();
        assert(evs == prev.push(last));
        let ba = last.byte_address;
        assert(((ba / (bm.bank_width_bytes as u64)) % (bm.bank_count as u64)) < bm.bank_count);
        assert forall|i: int| 0 <= i < evs.len() - 1 implies #[trigger] evs[i] == prev[i] by {}
        assert(acc.drop_last().len() == acc.len() - 1);
        assert forall|i: int| 0 <= i < acc.len() - 1 implies #[trigger] acc[i] == acc.drop_last()[i] by {}
    }
}

proof fn lemma_degree_bounds(evs: Seq<Evaluated>, group: u32, bank: u32)
    ensures
        conflict_degree(evs, group, bank) <= evs.len(),
        addresses_in(evs, group, bank).finite(),
{
    let f = evs.filter(|e: Evaluated| e.group == group && e.bank == bank);
    evs.lemma_filter_len(|e: Evaluated| e.group == group && e.bank == bank);
    f.map_values(|e: Evaluated| e.byte_address).lemma_cardinality_of_set();
    vstd::seq_lib::seq_to_set_is_finite(f.map_values(|e: Evaluated| e.byte_address));
}

proof fn lemma_max_degree_upto(evs: Seq<Evaluated>, n: int)
    requires
        0 <= n <= evs.len(),
    ensures
        1 <= max_degree_upto(evs, n) <= if evs.len() > 0 {
            evs.len() as int
        } else {
            1
        },
        forall|j: int|
            0 <= j < n ==> conflict_degree(evs, (#[trigger] evs[j]).group, evs[j].bank)
                <= max_degree_upto(evs, n),
        max_degree_upto(evs, n) == 1 || exists|j: int|
            0 <= j < n && conflict_degree(evs, (#[trigger] evs[j]).group, evs[j].bank)
                == max_degree_upto(evs, n),
    decreases n,
{
    if n > 0 {
        lemma_max_degree_upto(evs, n - 1);
        lemma_degree_bounds(evs, evs[n - 1].group, evs[n - 1].bank);
    }
}

/// Whether some access meets another address in its bank within its group.
pub open spec fn has_conflict(evs: Seq<Evaluated>) -> bool {
    exists|i: int| 0 <= i < evs.len() && in_conflict(evs, #[trigger] evs[i])
}

/// No more banks are used than there are banks, or than there are accesses.
pub proof fn lemma_unique_banks_bound(evs: Seq<Evaluated>, bm: BankModel)
    requires
        forall|i: int| 0 <= i < evs.len() ==> (#[trigger] evs[i]).bank < bm.bank_count,
    ensures
        bank_set(evs).len() <= evs.len(),
        bank_set(evs).len() <= bm.bank_count,
{
    let banks = evs.map_values(|e: Evaluated| e.bank);
    banks.lemma_cardinality_of_set();
    vstd::seq_lib::seq_to_set_is_finite(banks);
    let all = Seq::new(bm.bank_count as nat, |k: int| k as u32);
    all.lemma_cardinality_of_set();
    vstd::seq_lib::seq_to_set_is_finite(all);
    assert forall|b: u32| bank_set(evs).contains(b) implies all.to_set().contains(b) by {
        let k = choose|k: int| 0 <= k < banks.len() && banks[k] == b;
        assert(evs[k].bank == b);
        assert(all[b as int] == b);
    }
    vstd::set_lib::lemma_len_subset(bank_set(evs), all.to_set());
}

/// The measures of a summary bound each other, and they agree on whether there
/// is a bank conflict at all: the largest degree is above 1 exactly when some
/// (group, bank) pair is in conflict, exactly when some access is.
pub proof fn lemma_summary_laws(evs: Seq<Evaluated>)
    requires
        evs.len() > 0,
    ensures
        1 <= max_degree(evs) <= evs.len(),
        conflicting_accesses(evs).len() <= evs.len(),
        conflicting_keys(evs).len() <= key_set(evs).len() <= evs.len(),
        (max_degree(evs) > 1) == has_conflict(evs),
        (conflicting_keys(evs).len() > 0) == has_conflict(evs),
        (conflicting_accesses(evs).len() > 0) == has_conflict(evs),
{
    let n = evs.len() as int;
    lemma_max_degree_upto(evs, n);
    let pc = |e: Evaluated| in_conflict(evs, e);
    evs.lemma_filter_len(pc);
    let keys = evs.map_values(|e: Evaluated| (e.group, e.bank));
    keys.lemma_cardinality_of_set();
    vstd::seq_lib::seq_to_set_is_finite(keys);
    let ck = conflicting_keys(evs);
    vstd::set_lib::lemma_len_subset(ck, key_set(evs));
    // the three measures against has_conflict
    if has_conflict(evs) {
        let i = choose|i: int| 0 <= i < evs.len() && in_conflict(evs, #[trigger] evs[i]);
        assert(conflict_degree(evs, evs[i].group, evs[i].bank) <= max_degree(evs));
        assert(keys[i] == (evs[i].group, evs[i].bank));
        assert(ck.contains((evs[i].group, evs[i].bank)));
        vstd::set_lib::lemma_set_empty_equivalency_len(ck);
        evs.lemma_filter_contains(pc, i);
        assert(conflicting_accesses(evs).len() > 0);
    } else {
        if max_degree(evs) > 1 {
            let j = choose|j: int|
                0 <= j < n && conflict_degree(evs, (#[trigger] evs[j]).group, evs[j].bank)
                    == max_degree(evs);
            assert(in_conflict(evs, evs[j]));
        }
        assert(ck =~= Set::<(u32, u32)>::empty()) by {
            assert forall|k: (u32, u32)| !ck.contains(k) by {
                if ck.contains(k) {
                    let j = choose|j: int| 0 <= j < keys.len() && keys[j] == k;
                    assert(in_conflict(evs, evs[j]));
                }
            }
        }
        let ca = conflicting_accesses(evs);
        if ca.len() > 0 {
            evs.lemma_filter_pred(pc, 0);
            assert(ca.contains(ca[0]));
            evs.lemma_filter_contains_rev(pc, ca[0]);
            let j = choose|j: int| 0 <= j < evs.len() && evs[j] == ca[0];
            assert(in_conflict(evs, evs[j]));
        }
    }
}

proof fn lemma_filter_all(s: Seq<Evaluated>, p: spec_fn(Evaluated) -> bool, k: int)
    requires
        0 <= k <= s.len(),
        forall|i: int| 0 <= i < s.len() ==> p(#[trigger] s[i]),
    ensures
        s.take(k).filter(p).len() == k,
    decreases k,
{
    if k > 0 {
        lemma_filter_all(s, p, k - 1);
        lemma_filter_step(s, k - 1, p);
    } else {
        assert(s.take(0) =~= Seq::<Evaluated>::empty());
        reveal(Seq::filter);
    }
}

/// Lanes that all read one address of one group are served by one broadcast:
/// no conflict is counted, and each row counts every lane as a hit of its address.
pub proof fn lemma_broadcast_is_no_conflict(evs: Seq<Evaluated>)
    requires
        evs.len() > 0,
        forall|i: int| 0 <= i < evs.len() ==> same_address(evs[0], #[trigger] evs[i]),
    ensures
        max_degree(evs) == 1,
        conflicting_keys(evs).len() == 0,
        conflicting_accesses(evs).len() == 0,
        forall|i: int| 0 <= i < evs.len() ==> hits_of(evs, #[trigger] evs[i]).len() == evs.len(),
{
    let a = evs[0].byte_address;
    assert forall|i: int| 0 <= i < evs.len() implies !in_conflict(evs, #[trigger] evs[i]) by {
        let e = evs[i];
        let pred = |x: Evaluated| x.group == e.group && x.bank == e.bank;
        let f = evs.filter(pred);
        let m = f.map_values(|x: Evaluated| x.byte_address);
        assert forall|x: u64| m.to_set().contains(x) implies set![a].contains(x) by {
            let k = choose|k: int| 0 <= k < m.len() && m[k] == x;
            assert(f.contains(f[k]));
            evs.lemma_filter_contains_rev(pred, f[k]);
            let j = choose|j: int| 0 <= j < evs.len() && evs[j] == f[k];
            assert(same_address(evs[0], evs[j]));
        }
        vstd::set_lib::lemma_len_subset(m.to_set(), set![a]);
    }
    lemma_summary_laws(evs);
    assert forall|i: int| 0 <= i < evs.len() implies hits_of(evs, #[trigger] evs[i]).len()
        == evs.len() by {
        let e = evs[i];
        let p = |x: Evaluated| same_address(e, x);
        assert forall|j: int| 0 <= j < evs.len() implies p(#[trigger] evs[j]) by {
            assert(same_address(evs[0], evs[j]));
            assert(same_address(evs[0], evs[i]));
        }
        lemma_filter_all(evs, p, evs.len() as int);
        assert(evs.take(evs.len() as int) =~= evs);
    }
}

/// The ranking lists every candidate exactly once, best first.
pub proof fn lemma_ranking_order(sws: Seq<Swizzle>, sums: Seq<BankSummary>)
    requires
        sws.len() == sums.len(),
        sws.len() <= usize::MAX,
    ensures
        ranking(sws, sums).len() == sws.len(),
        forall|i: int, j: int|
            0 <= i < j < sws.len() ==> rank_leq(
                #[trigger] ranking(sws, sums)[i],
                #[trigger] ranking(sws, sums)[j],
            ),
        forall|i: int, j: int|
            0 <= i < j < sws.len() ==> (#[trigger] ranking(sws, sums)[i]).index != (
            #[trigger] ranking(sws, sums)[j]).index,
        ranking(sws, sums).map_values(|k: RankKey| k.index as int).to_set() == Set::new(
            |c: int| 0 <= c < sws.len(),
        ),
{
    broadcast use vstd::seq_lib::group_to_multiset_ensures;
    broadcast use vstd::multiset::group_multiset_axioms;

    crate::rank::lemma_rank_total();
    lemma_ranking_elements(sws, sums);
    let keys = rank_keys(sws, sums);
    let sorted = ranking(sws, sums);
    keys.lemma_sort_by_ensures(rank_order());
    assert forall|i: int, j: int| 0 <= i < j < sws.len() implies rank_leq(
        #[trigger] sorted[i],
        #[trigger] sorted[j],
    ) by {
        assert(rank_order()(sorted[i], sorted[j]));
    }
    assert(keys.no_duplicates()) by {
        assert forall|i: int, j: int|
            0 <= i < keys.len() && 0 <= j < keys.len() && i != j implies keys[i] != keys[j] by {
            assert(keys[i].index == i as usize);
            assert(keys[j].index == j as usize);
        }
    }
    keys.lemma_multiset_has_no_duplicates();
    sorted.lemma_multiset_has_no_duplicates_conv();
    assert forall|i: int, j: int| 0 <= i < j < sws.len() implies (#[trigger] sorted[i]).index != (
    #[trigger] sorted[j]).index by {
        if sorted[i].index == sorted[j].index {
            assert(sorted[i] == sorted[j]);
        }
    }
    let idx = sorted.map_values(|k: RankKey| k.index as int);
    assert forall|c: int| #[trigger] idx.to_set().contains(c) == (0 <= c < sws.len()) by {
        if 0 <= c < sws.len() {
            assert(keys.contains(keys[c]));
            assert(keys.to_multiset().count(keys[c]) > 0);
            assert(sorted.contains(keys[c]));
            let i = choose|i: int| 0 <= i < sorted.len() && sorted[i] == keys[c];
            assert(sorted[i].index == c);
            assert(idx[i] == c);
        }
        if idx.to_set().contains(c) {
            let i = choose|i: int| 0 <= i < idx.len() && idx[i] == c;
            assert(sorted[i].index < sws.len());
        }
    }
    assert(idx.to_set() =~= Set::new(|c: int| 0 <= c < sws.len()));
}

/// Whether comparison row `x` ranks no later than `y` by the ranking criteria:
/// degree, then conflicting accesses, then banks used (more first), then parameters.
pub open spec fn compare_row_leq(x: CompareRow, y: CompareRow) -> bool {
    if x.max_conflict_degree != y.max_conflict_degree {
        x.max_conflict_degree < y.max_conflict_degree
    } else if x.total_conflicting_accesses != y.total_conflicting_accesses {
        x.total_conflicting_accesses < y.total_conflicting_accesses
    } else if x.unique_banks != y.unique_banks {
        x.unique_banks > y.unique_banks
    } else if x.swizzle[0] != y.swizzle[0] {
        x.swizzle[0] < y.swizzle[0]
    } else if x.swizzle[1] != y.swizzle[1] {
        x.swizzle[1] < y.swizzle[1]
    } else {
        x.swizzle[2] <= y.swizzle[2]
    }
}

/// The rows of a comparison come out best first, one per swizzle given.
pub proof fn lemma_compare_rows_ordered(
    rows: Seq<CompareRow>,
    sws: Seq<Swizzle>,
    sums: Seq<BankSummary>,
)
    requires
        sws.len() == sums.len(),
        sws.len() <= usize::MAX,
        compare_rows_spec(rows, sws, sums),
    ensures
        rows.len() == sws.len(),
        forall|i: int, j: int|
            0 <= i < j < rows.len() ==> compare_row_leq(#[trigger] rows[i], #[trigger] rows[j]),
{
    lemma_ranking_order(sws, sums);
    lemma_ranking_elements(sws, sums);
    let order = ranking(sws, sums);
    assert forall|i: int, j: int| 0 <= i < j < rows.len() implies compare_row_leq(
        #[trigger] rows[i],
        #[trigger] rows[j],
    ) by {
        assert(rank_leq(order[i], order[j]));
        assert(compare_row_spec(rows[i], sws[order[i].index as int], sums[order[i].index as int]));
        assert(compare_row_spec(rows[j], sws[order[j].index as int], sums[order[j].index as int]));
        assert(rows[i].swizzle[0] == rows[i].swizzle@[0]);
        assert(rows[j].swizzle[0] == rows[j].swizzle@[0]);
    }
}

proof fn lemma_cands_s(b: int, m: int, s: int, s_max: int)
    requires
        0 <= b <= 255,
        0 <= m <= 255,
        0 <= s,
        s_max <= 255,
    ensures
        forall|i: int|
            0 <= i < cands_s(b, m, s, s_max).len() ==> {
                let c = #[trigger] cands_s(b, m, s, s_max)[i];
                &&& c.valid()
                &&& c.b == b
                &&& c.m == m
                &&& s <= c.s <= s_max
            },
        forall|t: int|
            s <= t <= s_max && (#[trigger] swz(b, m, t)).valid() ==> cands_s(
                b,
                m,
                s,
                s_max,
            ).contains(swz(b, m, t)),
        forall|i: int, j: int|
            0 <= i < j < cands_s(b, m, s, s_max).len() ==> (#[trigger] cands_s(b, m, s, s_max)[i]).s
                < (#[trigger] cands_s(b, m, s, s_max)[j]).s,
    decreases s_max + 1 - s,
{
    if s <= s_max {
        lemma_cands_s(b, m, s + 1, s_max);
        let rest = cands_s(b, m, s + 1, s_max);
        if swizzle_params_valid(b as u8, m as u8, s as u8) {
            let head = seq![swz(b, m, s)];
            assert forall|t: int| s <= t <= s_max && (#[trigger] swz(b, m, t)).valid() implies (head
                + rest).contains(swz(b, m, t)) by {
                if t == s {
                    assert((head + rest)[0] == swz(b, m, t));
                } else {
                    let k = choose|k: int| 0 <= k < rest.len() && rest[k] == swz(b, m, t);
                    assert((head + rest)[k + 1] == rest[k]);
                }
            }
            assert forall|i: int| 0 <= i < (head + rest).len() implies #[trigger] (head
                + rest)[i].valid() && (head + rest)[i].b == b && (head + rest)[i].m == m && s
                <= (head + rest)[i].s <= s_max by {
                if i > 0 {
                    assert((head + rest)[i] == rest[i - 1]);
                }
            }
            assert forall|i: int, j: int| 0 <= i < j < (head + rest).len() implies (#[trigger] (
            head + rest)[i]).s < (#[trigger] (head + rest)[j]).s by {
                assert((head + rest)[j] == rest[j - 1]);
                if i > 0 {
                    assert((head + rest)[i] == rest[i - 1]);
                }
            }
        }
    }
}

/// Whether `x` comes before `y` in the order of `B`, then `M`, then `S`.
pub open spec fn swizzle_lt(x: Swizzle, y: Swizzle) -> bool {
    x.b < y.b || (x.b == y.b && (x.m < y.m || (x.m == y.m && x.s < y.s)))
}

proof fn lemma_concat_contains(a: Seq<Swizzle>, b: Seq<Swizzle>, x: Swizzle)
    requires
        a.contains(x) || b.contains(x),
    ensures
        (a + b).contains(x),
{
    if a.contains(x) {
        let k = choose|k: int| 0 <= k < a.len() && a[k] == x;
        assert((a + b)[k] == x);
    } else {
        let k = choose|k: int| 0 <= k < b.len() && b[k] == x;
        assert((a + b)[a.len() + k] == x);
    }
}

proof fn lemma_cands_m(b: int, m: int, m_max: int, s_min: int, s_max: int)
    requires
        0 <= b <= 255,
        0 <= m,
        m_max <= 255,
        0 <= s_min,
        s_max <= 255,
    ensures
        forall|i: int|
            0 <= i < cands_m(b, m, m_max, s_min, s_max).len() ==> {
                let c = #[trigger] cands_m(b, m, m_max, s_min, s_max)[i];
                &&& c.valid()
                &&& c.b == b
                &&& m <= c.m <= m_max
                &&& s_min <= c.s <= s_max
            },
        forall|mm: int, t: int|
            m <= mm <= m_max && s_min <= t <= s_max && (#[trigger] swz(b, mm, t)).valid()
                ==> cands_m(b, m, m_max, s_min, s_max).contains(swz(b, mm, t)),
        forall|i: int, j: int|
            0 <= i < j < cands_m(b, m, m_max, s_min, s_max).len() ==> swizzle_lt(
                #[trigger] cands_m(b, m, m_max, s_min, s_max)[i],
                #[trigger] cands_m(b, m, m_max, s_min, s_max)[j],
            ),
    decreases m_max + 1 - m,
{
    if m <= m_max {
        lemma_cands_m(b, m + 1, m_max, s_min, s_max);
        lemma_cands_s(b, m, s_min, s_max);
        let head = cands_s(b, m, s_min, s_max);
        let rest = cands_m(b, m + 1, m_max, s_min, s_max);
        assert forall|i: int| 0 <= i < (head + rest).len() implies {
            let c = #[trigger] (head + rest)[i];
            &&& c.valid()
            &&& c.b == b
            &&& m <= c.m <= m_max
            &&& s_min <= c.s <= s_max
        } by {
            if i < head.len() {
                assert((head + rest)[i] == head[i]);
            } else {
                assert((head + rest)[i] == rest[i - head.len()]);
            }
        }
        assert forall|mm: int, t: int|
            m <= mm <= m_max && s_min <= t <= s_max && (#[trigger] swz(b, mm, t)).valid() implies (
        head + rest).contains(swz(b, mm, t)) by {
            lemma_concat_contains(head, rest, swz(b, mm, t));
        }
        assert forall|i: int, j: int| 0 <= i < j < (head + rest).len() implies swizzle_lt(
            #[trigger] (head + rest)[i],
            #[trigger] (head + rest)[j],
        ) by {
            if j < head.len() {
                assert((head + rest)[i] == head[i]);
                assert((head + rest)[j] == head[j]);
            } else if i < head.len() {
                assert((head + rest)[i] == head[i]);
                assert((head + rest)[j] == rest[j - head.len()]);
            } else {
                assert((head + rest)[i] == rest[i - head.len()]);
                assert((head + rest)[j] == rest[j - head.len()]);
            }
        }
    }
}

proof fn lemma_cands_b(b: int, b_max: int, m_min: int, m_max: int, s_min: int, s_max: int)
    requires
        0 <= b,
        b_max <= 255,
        0 <= m_min,
        m_max <= 255,
        0 <= s_min,
        s_max <= 255,
    ensures
        forall|i: int|
            0 <= i < cands_b(b, b_max, m_min, m_max, s_min, s_max).len() ==> {
                let c = #[trigger] cands_b(b, b_max, m_min, m_max, s_min, s_max)[i];
                &&& c.valid()
                &&& b <= c.b <= b_max
                &&& m_min <= c.m <= m_max
                &&& s_min <= c.s <= s_max
            },
        forall|bb: int, mm: int, t: int|
            b <= bb <= b_max && m_min <= mm <= m_max && s_min <= t <= s_max && (#[trigger] swz(
                bb,
                mm,
                t,
            )).valid() ==> cands_b(b, b_max, m_min, m_max, s_min, s_max).contains(swz(bb, mm, t)),
        forall|i: int, j: int|
            0 <= i < j < cands_b(b, b_max, m_min, m_max, s_min, s_max).len() ==> swizzle_lt(
                #[trigger] cands_b(b, b_max, m_min, m_max, s_min, s_max)[i],
                #[trigger] cands_b(b, b_max, m_min, m_max, s_min, s_max)[j],
            ),
    decreases b_max + 1 - b,
{
    if b <= b_max {
        lemma_cands_b(b + 1, b_max, m_min, m_max, s_min, s_max);
        lemma_cands_m(b, m_min, m_max, s_min, s_max);
        let head = cands_m(b, m_min, m_max, s_min, s_max);
        let rest = cands_b(b + 1, b_max, m_min, m_max, s_min, s_max);
        assert forall|i: int| 0 <= i < (head + rest).len() implies {
            let c = #[trigger] (head + rest)[i];
            &&& c.valid()
            &&& b <= c.b <= b_max
            &&& m_min <= c.m <= m_max
            &&& s_min <= c.s <= s_max
        } by {
            if i < head.len() {
                assert((head + rest)[i] == head[i]);
            } else {
                assert((head + rest)[i] == rest[i - head.len()]);
            }
        }
        assert forall|bb: int, mm: int, t: int|
            b <= bb <= b_max && m_min <= mm <= m_max && s_min <= t <= s_max && (#[trigger] swz(
                bb,
                mm,
                t,
            )).valid() implies (head + rest).contains(swz(bb, mm, t)) by {
            lemma_concat_contains(head, rest, swz(bb, mm, t));
        }
        assert forall|i: int, j: int| 0 <= i < j < (head + rest).len() implies swizzle_lt(
            #[trigger] (head + rest)[i],
            #[trigger] (head + rest)[j],
        ) by {
            if j < head.len() {
                assert((head + rest)[i] == head[i]);
                assert((head + rest)[j] == head[j]);
            } else if i < head.len() {
                assert((head + rest)[i] == head[i]);
                assert((head + rest)[j] == rest[j - head.len()]);
            } else {
                assert((head + rest)[i] == rest[i - head.len()]);
                assert((head + rest)[j] == rest[j - head.len()]);
            }
        }
    }
}

/// A search tries exactly the valid swizzles whose parameters lie in the three
/// ranges: every candidate is valid and in range, and every such swizzle is a candidate.
pub proof fn lemma_candidates_exact(b_range: (u8, u8), m_range: (u8, u8), s_range: (u8, u8))
    ensures
        forall|i: int|
            0 <= i < candidates(b_range, m_range, s_range).len() ==> {
                let c = #[trigger] candidates(b_range, m_range, s_range)[i];
                &&& c.valid()
                &&& b_range.0 <= c.b <= b_range.1
                &&& m_range.0 <= c.m <= m_range.1
                &&& s_range.0 <= c.s <= s_range.1
            },
        forall|sw: Swizzle|
            sw.valid() && b_range.0 <= sw.b <= b_range.1 && m_range.0 <= sw.m <= m_range.1
                && s_range.0 <= sw.s <= s_range.1 ==> #[trigger] candidates(
                b_range,
                m_range,
                s_range,
            ).contains(sw),
        candidates(b_range, m_range, s_range).no_duplicates(),
{
    lemma_cands_b(
        b_range.0 as int,
        b_range.1 as int,
        m_range.0 as int,
        m_range.1 as int,
        s_range.0 as int,
        s_range.1 as int,
    );
    assert forall|sw: Swizzle|
        sw.valid() && b_range.0 <= sw.b <= b_range.1 && m_range.0 <= sw.m <= m_range.1
            && s_range.0 <= sw.s <= s_range.1 implies #[trigger] candidates(
            b_range,
            m_range,
            s_range,
        ).contains(sw) by {
        assert(swz(sw.b as int, sw.m as int, sw.s as int) == sw);
    }
    let cands = candidates(b_range, m_range, s_range);
    assert forall|i: int, j: int|
        0 <= i < cands.len() && 0 <= j < cands.len() && i != j implies cands[i] != cands[j] by {
        if i < j {
            assert(swizzle_lt(cands[i], cands[j]));
        } else {
            assert(swizzle_lt(cands[j], cands[i]));
        }
    }
}

/// Whether search row `x` ranks no later than `y` by the ranking criteria.
pub open spec fn search_row_leq(x: SearchCandidateRow, y: SearchCandidateRow) -> bool {
    if x.max_conflict_degree != y.max_conflict_degree {
        x.max_conflict_degree < y.max_conflict_degree
    } else if x.total_conflicting_accesses != y.total_conflicting_accesses {
        x.total_conflicting_accesses < y.total_conflicting_accesses
    } else if x.unique_banks != y.unique_banks {
        x.unique_banks > y.unique_banks
    } else if x.swizzle[0] != y.swizzle[0] {
        x.swizzle[0] < y.swizzle[0]
    } else if x.swizzle[1] != y.swizzle[1] {
        x.swizzle[1] < y.swizzle[1]
    } else {
        x.swizzle[2] <= y.swizzle[2]
    }
}

/// The rows of a search: at most `limit` of them, ranked 1, 2, ... best first,
/// each a distinct valid swizzle inside the ranges, and none of the candidates
/// left out ranks ahead of a row that was kept.
pub proof fn lemma_search_rows(
    rows: Seq<SearchCandidateRow>,
    b_range: (u8, u8),
    m_range: (u8, u8),
    s_range: (u8, u8),
    sums: Seq<BankSummary>,
    limit: usize,
    stride_row: u64,
)
    requires
        sums.len() == candidates(b_range, m_range, s_range).len(),
        candidates(b_range, m_range, s_range).len() <= usize::MAX,
        search_rows_spec(rows, candidates(b_range, m_range, s_range), sums, limit, stride_row),
    ensures
        rows.len() <= limit,
        forall|i: int|
            0 <= i < rows.len() ==> {
                let r = #[trigger] rows[i];
                let sw = Swizzle { b: r.swizzle[0], m: r.swizzle[1], s: r.swizzle[2] };
                &&& r.rank == i + 1
                &&& sw.valid()
                &&& b_range.0 <= sw.b <= b_range.1
                &&& m_range.0 <= sw.m <= m_range.1
                &&& s_range.0 <= sw.s <= s_range.1
            },
        forall|i: int, j: int|
            0 <= i < j < rows.len() ==> search_row_leq(#[trigger] rows[i], #[trigger] rows[j])
                && rows[i].swizzle != rows[j].swizzle,
        forall|i: int, j: int|
            0 <= i < rows.len() <= j < candidates(b_range, m_range, s_range).len() ==> rank_leq(
                #[trigger] ranking(candidates(b_range, m_range, s_range), sums)[i],
                #[trigger] ranking(candidates(b_range, m_range, s_range), sums)[j],
            ),
{
    let cands = candidates(b_range, m_range, s_range);
    lemma_ranking_order(cands, sums);
    lemma_ranking_elements(cands, sums);
    lemma_candidates_exact(b_range, m_range, s_range);
    assert(cands.no_duplicates());
    let order = ranking(cands, sums);
    assert forall|i: int| 0 <= i < rows.len() implies {
        let r = #[trigger] rows[i];
        let sw = Swizzle { b: r.swizzle[0], m: r.swizzle[1], s: r.swizzle[2] };
        &&& r.rank == i + 1
        &&& sw.valid()
        &&& b_range.0 <= sw.b <= b_range.1
        &&& m_range.0 <= sw.m <= m_range.1
        &&& s_range.0 <= sw.s <= s_range.1
    } by {
        let c = cands[order[i].index as int];
        assert(search_row_spec(rows[i], c, sums[order[i].index as int], i + 1, stride_row));
        assert(rows[i].swizzle[0] == rows[i].swizzle@[0]);
        assert(rows[i].swizzle[1] == rows[i].swizzle@[1]);
        assert(rows[i].swizzle[2] == rows[i].swizzle@[2]);
        assert(Swizzle { b: rows[i].swizzle[0], m: rows[i].swizzle[1], s: rows[i].swizzle[2] }
            == c);
    }
    assert forall|i: int, j: int| 0 <= i < j < rows.len() implies search_row_leq(
        #[trigger] rows[i],
        #[trigger] rows[j],
    ) && rows[i].swizzle != rows[j].swizzle by {
        let ci = order[i].index as int;
        let cj = order[j].index as int;
        assert(rank_leq(order[i], order[j]));
        assert(order[i].index != order[j].index);
        assert(search_row_spec(rows[i], cands[ci], sums[ci], i + 1, stride_row));
        assert(search_row_spec(rows[j], cands[cj], sums[cj], j + 1, stride_row));
        assert(rows[i].swizzle[0] == rows[i].swizzle@[0]);
        assert(rows[j].swizzle[0] == rows[j].swizzle@[0]);
        assert(rows[i].swizzle[1] == rows[i].swizzle@[1]);
        assert(rows[j].swizzle[1] == rows[j].swizzle@[1]);
        assert(rows[i].swizzle[2] == rows[i].swizzle@[2]);
        assert(rows[j].swizzle[2] == rows[j].swizzle@[2]);
        if rows[i].swizzle == rows[j].swizzle {
            assert(rows[i].swizzle@ == rows[j].swizzle@);
            assert(cands[ci] == cands[cj]);
            assert(0 <= ci < cands.len() && 0 <= cj < cands.len() && ci != cj);
            assert(cands.no_duplicates());
        }
    }
}

/// Tracing the accesses through the swizzles in order either gives each
/// swizzle's own summary, or fails with the error of the first swizzle whose
/// trace fails, every swizzle before it having been traced.
#[verifier::spinoff_prover]
pub proof fn lemma_summaries_first_error(
    layout: Layout2D,
    dtype: DataType,
    bm: BankModel,
    acc: Seq<AccessEntry>,
    sws: Seq<Swizzle>,
)
    ensures
        summaries_spec(layout, dtype, bm, acc, sws) matches Ok(sums) ==> {
            &&& sums.len() == sws.len()
            &&& forall|j: int|
                0 <= j < sws.len() ==> swizzle_summary_spec(layout, dtype, bm, acc, #[trigger] sws[j])
                    == Ok::<BankSummary, BankErrorView>(sums[j])
        },
        summaries_spec(layout, dtype, bm, acc, sws) matches Err(e) ==> exists|k: int|
            {
                &&& 0 <= k < sws.len()
                &&& swizzle_summary_spec(layout, dtype, bm, acc, #[trigger] sws[k]) == Err::<
                    BankSummary,
                    BankErrorView,
                >(e)
                &&& forall|j: int|
                    0 <= j < k ==> (swizzle_summary_spec(layout, dtype, bm, acc, #[trigger] sws[j]) is Ok)
            },
    decreases sws.len(),
{
    if sws.len() > 0 {
        let init = sws.drop_last();
        lemma_summaries_first_error(layout, dtype, bm, acc, init);
        let last = sws.len() - 1;
        assert(sws[last] == sws.last());
        assert forall|j: int| 0 <= j < init.len() implies init[j] == sws[j] by {}
        match summaries_spec(layout, dtype, bm, acc, init) {
            Ok(prev) => {
                assert forall|j: int| 0 <= j < init.len() implies (swizzle_summary_spec(
                    layout,
                    dtype,
                    bm,
                    acc,
                    #[trigger] sws[j],
                ) is Ok) by {
                    assert(init[j] == sws[j]);
                    assert(swizzle_summary_spec(layout, dtype, bm, acc, init[j]) == Ok::<
                        BankSummary,
                        BankErrorView,
                    >(prev[j]));
                }
                if let Ok(sums) = summaries_spec(layout, dtype, bm, acc, sws) {
                    assert forall|j: int| 0 <= j < sws.len() implies swizzle_summary_spec(
                        layout,
                        dtype,
                        bm,
                        acc,
                        #[trigger] sws[j],
                    ) == Ok::<BankSummary, BankErrorView>(sums[j]) by {
                        if j < init.len() {
                            assert(init[j] == sws[j]);
                            assert(swizzle_summary_spec(layout, dtype, bm, acc, init[j]) == Ok::<
                                BankSummary,
                                BankErrorView,
                            >(prev[j]));
                        }
                    }
                }
            },
            Err(e) => {
                let k = choose|k: int|
                    {
                        &&& 0 <= k < init.len()
                        &&& swizzle_summary_spec(layout, dtype, bm, acc, #[trigger] init[k]) == Err::<
                            BankSummary,
                            BankErrorView,
                        >(e)
                        &&& forall|j: int|
                            0 <= j < k ==> (swizzle_summary_spec(layout, dtype, bm, acc, #[trigger] init[j]) is Ok)
                    };
                assert(init[k] == sws[k]);
                assert forall|j: int| 0 <= j < k implies (swizzle_summary_spec(
                    layout,
                    dtype,
                    bm,
                    acc,
                    #[trigger] sws[j],
                ) is Ok) by {
                    assert(init[j] == sws[j]);
                }
            },
        }
    }
}

/// Each row of a search is a candidate swizzle of the ranges, and carries that
/// swizzle's own trace measures (worst degree, conflicting accesses, banks used)
/// and its reasoning against the layout's row stride.
#[verifier::spinoff_prover]
pub proof fn lemma_search_row_measures(
    layout: Layout2D,
    dtype: DataType,
    bm: BankModel,
    acc: Seq<AccessEntry>,
    b_range: (u8, u8),
    m_range: (u8, u8),
    s_range: (u8, u8),
    limit: usize,
    rows: Seq<SearchCandidateRow>,
)
    requires
        candidates(b_range, m_range, s_range).len() <= usize::MAX,
        summaries_spec(layout, dtype, bm, acc, candidates(b_range, m_range, s_range)) is Ok,
        search_rows_spec(
            rows,
            candidates(b_range, m_range, s_range),
            summaries_spec(layout, dtype, bm, acc, candidates(b_range, m_range, s_range))->Ok_0,
            limit,
            layout.stride[0],
        ),
    ensures
        forall|i: int|
            0 <= i < rows.len() ==> {
                let r = #[trigger] rows[i];
                let sw = Swizzle { b: r.swizzle[0], m: r.swizzle[1], s: r.swizzle[2] };
                &&& candidates(b_range, m_range, s_range).contains(sw)
                &&& swizzle_summary_spec(layout, dtype, bm, acc, sw) matches Ok(t)
                &&& r.max_conflict_degree == t.max_conflict_degree
                &&& r.total_conflicting_accesses == t.conflicting_access_count
                &&& r.unique_banks == t.unique_banks
                &&& reasoning_spec(r.reasoning, sw, layout.stride[0])
            },
{
    let cands = candidates(b_range, m_range, s_range);
    let sums = summaries_spec(layout, dtype, bm, acc, cands)->Ok_0;
    lemma_summaries_first_error(layout, dtype, bm, acc, cands);
    lemma_ranking_elements(cands, sums);
    let order = ranking(cands, sums);
    assert forall|i: int| 0 <= i < rows.len() implies {
        let r = #[trigger] rows[i];
        let sw = Swizzle { b: r.swizzle[0], m: r.swizzle[1], s: r.swizzle[2] };
        &&& cands.contains(sw)
        &&& swizzle_summary_spec(layout, dtype, bm, acc, sw) matches Ok(t)
        &&& r.max_conflict_degree == t.max_conflict_degree
        &&& r.total_conflicting_accesses == t.conflicting_access_count
        &&& r.unique_banks == t.unique_banks
        &&& reasoning_spec(r.reasoning, sw, layout.stride[0])
    } by {
        let ci = order[i].index as int;
        let c = cands[ci];
        assert(search_row_spec(rows[i], c, sums[ci], i + 1, layout.stride[0]));
        assert(rows[i].swizzle[0] == rows[i].swizzle@[0]);
        assert(rows[i].swizzle[1] == rows[i].swizzle@[1]);
        assert(rows[i].swizzle[2] == rows[i].swizzle@[2]);
        assert(Swizzle { b: rows[i].swizzle[0], m: rows[i].swizzle[1], s: rows[i].swizzle[2] }
            == c);
        assert(swizzle_summary_spec(layout, dtype, bm, acc, cands[ci]) == Ok::<
            BankSummary,
            BankErrorView,
        >(sums[ci]));
    }
}

} // verus!
