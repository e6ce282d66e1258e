use std::str::FromStr;
use veloq_bank::{
    compare_swizzles, parse_inline_coords, search_swizzles, trace_accesses, AccessEntry,
    BankError, BankModel, DataType, Layout2D, Swizzle,
};

fn entry_text(e: &AccessEntry) -> String {
    let mut t = format!("{}:{},{}", e.lane, e.coord[0], e.coord[1]);
    if let Some(g) = e.group {
        t.push_str(&format!(":{}", g));
    }
    t
}

#[test]
fn inline_list_reads_back() {
    let es = vec![
        AccessEntry { lane: 0, coord: [0, 0], group: None },
        AccessEntry { lane: 31, coord: [7, 63], group: Some(2) },
        AccessEntry { lane: 4294967295, coord: [18446744073709551615, 10], group: Some(0) },
        AccessEntry { lane: 5, coord: [120, 0], group: None },
    ];
    let text = es.iter().map(entry_text).collect::<Vec<_>>().join(";");
    assert_eq!(parse_inline_coords(&text).unwrap(), es);
    let one = vec![AccessEntry { lane: 9, coord: [3, 4], group: Some(7) }];
    assert_eq!(parse_inline_coords("9:3,4:7").unwrap(), one);
}

#[test]
fn data_type_spellings() {
    for d in [
        DataType::F16,
        DataType::BF16,
        DataType::F32,
        DataType::F64,
        DataType::I8,
        DataType::I16,
        DataType::I32,
    ] {
        assert_eq!(DataType::from_str(d.name()).unwrap(), d);
        let shouted = format!(" {} ", d.name().to_uppercase());
        assert_eq!(DataType::from_str(&shouted).unwrap(), d);
    }
    let aliases = [
        ("fp16", DataType::F16),
        ("Half", DataType::F16),
        ("bfloat16", DataType::BF16),
        ("fp32", DataType::F32),
        ("FLOAT", DataType::F32),
        ("fp64", DataType::F64),
        ("double", DataType::F64),
        ("int8", DataType::I8),
        ("\tint16\n", DataType::I16),
        ("int32", DataType::I32),
    ];
    for (t, d) in aliases {
        assert_eq!(DataType::from_str(t).unwrap(), d);
    }
    match DataType::from_str(" f8 ") {
        Err(BankError::InvalidDataType { raw }) => assert_eq!(raw, " f8 "),
        other => panic!("expected InvalidDataType, got {other:?}"),
    }
}

#[test]
fn swizzle_forms_read_back() {
    let sw = Swizzle::new(2, 4, 2).unwrap();
    for t in ["2,4,2", "<2,4,2>", "(2 4 2)", "2;4;2", "<2 4 2>", "(2;4;2)"] {
        assert_eq!(Swizzle::from_str(t).unwrap(), sw);
    }
    let sw = Swizzle::new(3, 10, 51).unwrap();
    assert_eq!(Swizzle::from_str("(3,10,51)").unwrap(), sw);
    for t in ["1,0,1", "<5 3 8>", "3;20;3"] {
        let p = Swizzle::from_str(t).unwrap();
        assert_eq!(Swizzle::new(p.b, p.m, p.s).unwrap(), p);
    }
}

#[test]
fn bank_model_unused_without_a_traced_access() {
    let layout = Layout2D::new([8, 64], [64, 1]).unwrap();
    let zero = BankModel { bank_count: 0, bank_width_bytes: 0 };
    let acc = vec![AccessEntry { lane: 0, coord: [0, 0], group: None }];
    let far = vec![AccessEntry { lane: 0, coord: [9, 0], group: None }];
    assert!(matches!(
        trace_accesses(&layout, DataType::F16, None, &zero, &[]),
        Err(BankError::EmptyAccessSet)
    ));
    assert!(matches!(
        trace_accesses(&layout, DataType::F16, None, &zero, &far),
        Err(BankError::InvalidCoordinate { row: 9, col: 0, shape_rows: 8, shape_cols: 64 })
    ));
    assert!(compare_swizzles(&layout, DataType::F16, &zero, &acc, &[]).unwrap().is_empty());
    assert!(matches!(
        search_swizzles(&layout, DataType::F16, &zero, &[], (0, 255), (0, 255), (0, 255), 5),
        Err(BankError::EmptyAccessSet)
    ));
    match search_swizzles(&layout, DataType::F16, &zero, &acc, (1, 255), (0, 254), (1, 2), 5) {
        Err(BankError::SearchSpaceTooLarge { total, max }) => {
            assert_eq!(total, 130050);
            assert_eq!(max, 100000);
        }
        other => panic!("expected SearchSpaceTooLarge, got {other:?}"),
    }
}

#[test]
fn search_edges() {
    let layout = Layout2D::new([8, 64], [64, 1]).unwrap();
    let nv = BankModel::nvidia();
    let far = vec![AccessEntry { lane: 0, coord: [9, 0], group: None }];
    // no candidate: nothing is traced, even for an access out of bounds
    assert!(search_swizzles(&layout, DataType::F16, &nv, &far, (0, 0), (0, 3), (1, 3), 5)
        .unwrap()
        .is_empty());
    // the first candidate's error is the search's error
    assert!(matches!(
        search_swizzles(&layout, DataType::F16, &nv, &far, (1, 2), (0, 3), (1, 3), 5),
        Err(BankError::InvalidCoordinate { row: 9, .. })
    ));
    let acc = vec![
        AccessEntry { lane: 0, coord: [0, 0], group: None },
        AccessEntry { lane: 1, coord: [1, 0], group: None },
    ];
    assert!(search_swizzles(&layout, DataType::F16, &nv, &acc, (1, 2), (0, 3), (1, 3), 0)
        .unwrap()
        .is_empty());
    // each row carries its swizzle's own trace
    let rows = search_swizzles(&layout, DataType::F16, &nv, &acc, (1, 2), (0, 3), (1, 3), 50)
        .unwrap();
    assert!(!rows.is_empty());
    for r in &rows {
        let sw = Swizzle::new(r.swizzle[0], r.swizzle[1], r.swizzle[2]).unwrap();
        let (_, t) = trace_accesses(&layout, DataType::F16, Some(sw), &nv, &acc).unwrap();
        assert_eq!(r.max_conflict_degree, t.max_conflict_degree);
        assert_eq!(r.total_conflicting_accesses, t.conflicting_access_count);
        assert_eq!(r.unique_banks, t.unique_banks);
    }
}
