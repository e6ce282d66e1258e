use veloq_bank::output::{compare_table, explain_lines, explain_table, search_table, trace_table};
use veloq_bank::{
    compare_swizzles, explain_swizzle, search_swizzles, trace_accesses, AccessEntry, BankModel,
    DataType, Layout2D, Swizzle,
};

fn setup() -> (Layout2D, Vec<AccessEntry>) {
    let layout = Layout2D::new([8, 64], [64, 1]).unwrap();
    let accesses = vec![
        AccessEntry { lane: 0, coord: [0, 0], group: None },
        AccessEntry { lane: 1, coord: [0, 0], group: None },
        AccessEntry { lane: 2, coord: [1, 0], group: None },
    ];
    (layout, accesses)
}

#[test]
fn trace_table_cells() {
    let (layout, accesses) = setup();
    let (rows, summary) =
        trace_accesses(&layout, DataType::F16, None, &BankModel::nvidia(), &accesses).unwrap();
    let t = trace_table(&rows, &summary);
    assert_eq!(t.header[2], "coord");
    assert_eq!(t.meta[0], ("access_count".to_string(), "3".to_string()));
    assert_eq!(t.meta[4], ("max_conflict_degree".to_string(), "2".to_string()));
    assert_eq!(
        t.rows[2],
        vec!["lane:2", "2", "1,0", "64", "64", "128", "0", "false"]
    );
    assert_eq!(t.rows[0][7], "true");
}

#[test]
fn compare_and_search_table_cells() {
    let (layout, accesses) = setup();
    let sw = Swizzle::new(2, 4, 2).unwrap();
    let rows =
        compare_swizzles(&layout, DataType::F16, &BankModel::nvidia(), &accesses, &[sw]).unwrap();
    let t = compare_table(&rows);
    assert!(t.meta.is_empty());
    assert_eq!(t.rows[0], vec!["swizzle:2,4,2", "2,4,2", "2", "0", "1", "0"]);
    let rows = search_swizzles(
        &layout,
        DataType::F16,
        &BankModel::nvidia(),
        &accesses,
        (2, 2),
        (4, 4),
        (2, 2),
        5,
    )
    .unwrap();
    let t = search_table(&rows);
    assert_eq!(t.header.len(), 8);
    assert_eq!(t.rows[0], vec!["1", "swizzle:2,4,2", "2,4,2", "1", "0", "2", "[6, 7]", "[4, 5]"]);
}

#[test]
fn explain_text() {
    let sw = Swizzle::new(2, 4, 2).unwrap();
    let data = explain_swizzle(sw, Some(64), Some(DataType::F32));
    assert_eq!(
        explain_lines(&data),
        vec![
            "Swizzle<2,4,2>",
            "",
            "untouched : bits [3:0]",
            "target    : bits [5:4]",
            "source    : bits [7:6]",
            "",
            "operation:",
            "bits[5:4] ^= bits[7:6]",
            "",
            "stride = 64 = 2^6",
            "source starts at bit 6",
        ]
    );
    let one = explain_swizzle(Swizzle::new(1, 1, 1).unwrap(), Some(48), None);
    let lines = explain_lines(&one);
    assert_eq!(lines[2], "untouched : bits [0]");
    assert_eq!(lines[3], "target    : bits [1]");
    assert_eq!(lines[9], "stride = 48");
    let t = explain_table(&data);
    assert_eq!(t.header, vec!["field", "value"]);
    assert_eq!(
        t.rows,
        vec![
            vec!["swizzle", "2,4,2"],
            vec!["operation", "bits[5:4] ^= bits[7:6]"],
            vec!["patterns", "4"],
            vec!["element_stride", "64"],
            vec!["stride_log2", "6"],
            vec!["element_size_bytes", "4"],
        ]
    );
    let bare = explain_swizzle(Swizzle::new(1, 0, 1).unwrap(), None, None);
    assert_eq!(explain_lines(&bare)[2], "untouched : none");
    assert_eq!(explain_table(&bare).rows.len(), 3);
}
