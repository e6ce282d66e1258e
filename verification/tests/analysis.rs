use veloq_bank::{
    build_reasoning, compare_swizzles, explain_swizzle, search_swizzles, trace_accesses,
    AccessEntry, BankCompareResponse, BankError, BankModel, BankSearchResponse, BankTraceResponse,
    DataType, Layout2D, Swizzle,
};

fn column_accesses() -> Vec<AccessEntry> {
    (0..4)
        .map(|i| AccessEntry { lane: i as u32, coord: [i, 0], group: None })
        .collect()
}

#[test]
fn trace_rows_describe_each_access() {
    let layout = Layout2D::new([8, 64], [64, 1]).unwrap();
    let sw = Swizzle::new(2, 4, 2).unwrap();
    let (rows, summary) =
        trace_accesses(&layout, DataType::F32, Some(sw), &BankModel::nvidia(), &column_accesses())
            .unwrap();
    for (i, row) in rows.iter().enumerate() {
        assert_eq!(row.key, format!("lane:{i}"));
        assert_eq!(row.logical_offset, 64 * i as u64);
        assert_eq!(row.physical_offset, sw.apply(row.logical_offset).unwrap());
        assert_eq!(row.byte_address, row.physical_offset * 4);
        assert_eq!(row.bank, ((row.byte_address / 4) % 32) as u32);
        assert_eq!(row.group, None);
    }
    // 4-byte elements: byte addresses 0, 320, 640, 960 fall in banks 0, 16, 0, 16
    assert_eq!(summary.access_count, 4);
    assert_eq!(summary.unique_banks, 2);
    assert_eq!(summary.conflicting_bank_count, 2);
    assert_eq!(summary.conflicting_access_count, 4);
    assert_eq!(summary.max_conflict_degree, 2);
}

#[test]
fn trace_groups_do_not_conflict_with_each_other() {
    let layout = Layout2D::new([8, 64], [64, 1]).unwrap();
    let accesses = vec![
        AccessEntry { lane: 0, coord: [0, 0], group: Some(0) },
        AccessEntry { lane: 1, coord: [1, 0], group: Some(1) },
        AccessEntry { lane: 2, coord: [2, 0], group: Some(1) },
    ];
    let (rows, summary) =
        trace_accesses(&layout, DataType::F16, None, &BankModel::nvidia(), &accesses).unwrap();
    assert_eq!(rows[0].group, Some(0));
    assert_eq!(rows[1].group, Some(1));
    assert_eq!(summary.unique_banks, 1);
    assert_eq!(summary.conflicting_bank_count, 1);
    assert_eq!(summary.conflicting_access_count, 2);
    assert_eq!(summary.max_conflict_degree, 2);
}

#[test]
fn trace_refusals() {
    let layout = Layout2D::new([8, 64], [64, 1]).unwrap();
    let nv = BankModel::nvidia();
    assert!(matches!(
        trace_accesses(&layout, DataType::F16, None, &nv, &[]),
        Err(BankError::EmptyAccessSet)
    ));
    let outside = vec![
        AccessEntry { lane: 0, coord: [0, 0], group: None },
        AccessEntry { lane: 1, coord: [0, 64], group: None },
        AccessEntry { lane: 2, coord: [9, 0], group: None },
    ];
    match trace_accesses(&layout, DataType::F16, None, &nv, &outside) {
        Err(BankError::InvalidCoordinate { row, col, .. }) => assert_eq!((row, col), (0, 64)),
        other => panic!("unexpected {other:?}"),
    }
    let wide = Layout2D::new([2, 2], [u64::MAX / 2, 1]).unwrap();
    let one = vec![AccessEntry { lane: 0, coord: [1, 0], group: None }];
    match trace_accesses(&wide, DataType::F64, None, &nv, &one) {
        Err(BankError::InvalidCoordinate { row, col, shape_rows, shape_cols }) => {
            assert_eq!((row, col, shape_rows, shape_cols), (1, 0, 2, 2))
        }
        other => panic!("unexpected {other:?}"),
    }
    let broken = Swizzle { b: 1, m: 70, s: 1 };
    assert!(matches!(
        trace_accesses(&layout, DataType::F16, Some(broken), &nv, &one),
        Err(BankError::InvalidSwizzle { .. })
    ));
}

#[test]
fn compare_breaks_ties_by_parameters_then_order() {
    let layout = Layout2D::new([8, 64], [64, 1]).unwrap();
    let accesses = vec![AccessEntry { lane: 0, coord: [0, 0], group: None }];
    let a = Swizzle::new(2, 4, 2).unwrap();
    let b = Swizzle::new(1, 0, 1).unwrap();
    let rows = compare_swizzles(
        &layout,
        DataType::F16,
        &BankModel::nvidia(),
        &accesses,
        &[a, b, a],
    )
    .unwrap();
    let order: Vec<[u8; 3]> = rows.iter().map(|r| r.swizzle).collect();
    assert_eq!(order, vec![[1, 0, 1], [2, 4, 2], [2, 4, 2]]);
    assert_eq!(rows[0].key, "swizzle:1,0,1");
    let resp = BankCompareResponse::new(rows);
    assert_eq!((resp.count, resp.total_matched), (3, 3));
    assert!(matches!(
        compare_swizzles(&layout, DataType::F16, &BankModel::nvidia(), &[], &[a]),
        Err(BankError::EmptyAccessSet)
    ));
}

#[test]
fn compare_rows_come_best_first() {
    let layout = Layout2D::new([8, 64], [64, 1]).unwrap();
    let sws: Vec<Swizzle> = [(3, 3, 3), (2, 4, 2), (1, 4, 2), (1, 5, 1), (2, 3, 3)]
        .iter()
        .map(|&(b, m, s)| Swizzle::new(b, m, s).unwrap())
        .collect();
    let rows = compare_swizzles(
        &layout,
        DataType::F16,
        &BankModel::nvidia(),
        &column_accesses(),
        &sws,
    )
    .unwrap();
    assert_eq!(rows.len(), sws.len());
    for w in rows.windows(2) {
        let ka = (w[0].max_conflict_degree, w[0].total_conflicting_accesses);
        let kb = (w[1].max_conflict_degree, w[1].total_conflicting_accesses);
        assert!(ka <= kb);
    }
}

#[test]
fn search_refuses_large_spaces_and_keeps_the_limit() {
    let layout = Layout2D::new([8, 64], [64, 1]).unwrap();
    let nv = BankModel::nvidia();
    match search_swizzles(
        &layout,
        DataType::F16,
        &nv,
        &column_accesses(),
        (1, 100),
        (0, 100),
        (1, 100),
        5,
    ) {
        Err(BankError::SearchSpaceTooLarge { total, max }) => {
            assert_eq!((total, max), (100 * 101 * 100, 100_000))
        }
        other => panic!("unexpected {other:?}"),
    }
    let none = search_swizzles(&layout, DataType::F16, &nv, &column_accesses(), (4, 1), (2, 5), (1, 5), 5)
        .unwrap();
    assert!(none.is_empty());
    let zero = search_swizzles(&layout, DataType::F16, &nv, &column_accesses(), (1, 4), (2, 5), (1, 5), 0)
        .unwrap();
    assert!(zero.is_empty());
    let rows = search_swizzles(&layout, DataType::F16, &nv, &column_accesses(), (1, 4), (2, 5), (1, 5), 1000)
        .unwrap();
    // every valid (b, m, s) with b in 1..=4, m in 2..=5, s in b..=5 and m + s + b <= 64
    let expected: usize = (1..=4u32).map(|b| 4 * (5 - b + 1) as usize).sum();
    assert_eq!(rows.len(), expected);
    for (i, r) in rows.iter().enumerate() {
        assert_eq!(r.rank, i + 1);
        let [b, m, s] = r.swizzle;
        assert!(Swizzle::new(b, m, s).is_ok());
        assert!((1..=4).contains(&b) && (2..=5).contains(&m) && (1..=5).contains(&s));
        assert_eq!(r.key, format!("swizzle:{b},{m},{s}"));
    }
    let resp = BankSearchResponse::new(rows);
    assert_eq!(resp.count, expected);
    assert!(matches!(
        search_swizzles(&layout, DataType::F16, &nv, &[], (1, 4), (2, 5), (1, 5), 5),
        Err(BankError::EmptyAccessSet)
    ));
}

#[test]
fn explain_and_reasoning() {
    let sw = Swizzle::new(2, 4, 2).unwrap();
    let data = explain_swizzle(sw, Some(64), Some(DataType::BF16));
    assert_eq!(data.stride_log2, Some(6));
    assert_eq!(data.source_aligned_to_stride_boundary, Some(true));
    assert_eq!(data.element_size_bytes, Some(2));
    assert_eq!(data.untouched_bits, vec![0, 1, 2, 3]);
    assert_eq!(data.operation, "bits[5:4] ^= bits[7:6]");
    assert_eq!(data.patterns, 4);
    let data = explain_swizzle(sw, Some(48), None);
    assert_eq!(data.stride_log2, None);
    assert_eq!(data.source_aligned_to_stride_boundary, None);
    assert_eq!(data.element_size_bytes, None);
    let data = explain_swizzle(sw, Some(0), None);
    assert_eq!(data.stride_log2, None);
    let r = build_reasoning(&sw, 32);
    assert_eq!(r.stride_boundary_bit, Some(5));
    assert_eq!(r.source_aligned_to_stride_boundary, Some(false));
    assert_eq!(r.target_bits, vec![4, 5]);
    assert_eq!(r.source_bits, vec![6, 7]);
    assert_eq!(build_reasoning(&sw, 1u64 << 63).stride_boundary_bit, Some(63));
}

#[test]
fn trace_response_counts_rows() {
    let layout = Layout2D::new([8, 64], [64, 1]).unwrap();
    let (rows, summary) =
        trace_accesses(&layout, DataType::F16, None, &BankModel::nvidia(), &column_accesses())
            .unwrap();
    let resp = BankTraceResponse::new(rows, summary);
    assert_eq!((resp.count, resp.total_matched), (4, 4));
    assert_eq!(resp.summary, summary);
}

#[test]
fn summary_measures_agree_on_conflict() {
    let layout = Layout2D::new([8, 64], [64, 1]).unwrap();
    let nv = BankModel::nvidia();
    for sw in [None, Some(Swizzle::new(2, 4, 2).unwrap()), Some(Swizzle::new(3, 3, 3).unwrap())] {
        let (_, s) = trace_accesses(&layout, DataType::F16, sw, &nv, &column_accesses()).unwrap();
        assert!(s.max_conflict_degree >= 1 && s.max_conflict_degree <= s.access_count);
        assert!(s.unique_banks <= s.access_count && s.unique_banks <= 32);
        assert!(s.conflicting_access_count <= s.access_count);
        let conflict = s.max_conflict_degree > 1;
        assert_eq!(s.conflicting_bank_count > 0, conflict);
        assert_eq!(s.conflicting_access_count > 0, conflict);
    }
}

#[test]
fn lanes_on_one_address_share_a_broadcast() {
    let layout = Layout2D::new([8, 64], [64, 1]).unwrap();
    let same: Vec<AccessEntry> =
        (0..5).map(|i| AccessEntry { lane: i, coord: [3, 7], group: Some(2) }).collect();
    let (rows, s) =
        trace_accesses(&layout, DataType::I32, None, &BankModel::nvidia(), &same).unwrap();
    assert!(rows.iter().all(|r| r.broadcast_like && r.group == Some(2)));
    assert_eq!((s.max_conflict_degree, s.conflicting_bank_count, s.conflicting_access_count), (1, 0, 0));
}
