use std::str::FromStr;
use veloq_bank::cli::parse_range;
use veloq_bank::{
    parse_inline_coords, parse_shape, parse_stride_1d, parse_stride_2d, AccessEntry, BankError,
    BankModel, DataType, Layout2D,
};

#[test]
fn shape_forms_and_refusals() {
    assert_eq!(parse_shape("8x64").unwrap(), [8, 64]);
    assert_eq!(parse_shape(" [8, 64] ").unwrap(), [8, 64]);
    assert_eq!(parse_shape("8 X 64").unwrap(), [8, 64]);
    match parse_shape("8") {
        Err(BankError::InvalidShape { raw, reason }) => {
            assert_eq!(raw, "8");
            assert_eq!(reason, "expected 2 dimensions (e.g. 8x64), got 1");
        }
        other => panic!("unexpected {other:?}"),
    }
    match parse_shape("8xa") {
        Err(BankError::InvalidShape { reason, .. }) => {
            assert_eq!(reason, "invalid column dimension `a`: invalid digit found in string")
        }
        other => panic!("unexpected {other:?}"),
    }
    match parse_shape("99999999999999999999x1") {
        Err(BankError::InvalidShape { reason, .. }) => assert_eq!(
            reason,
            "invalid row dimension `99999999999999999999`: number too large to fit in target type"
        ),
        other => panic!("unexpected {other:?}"),
    }
    match parse_shape("0x4") {
        Err(BankError::InvalidShape { reason, .. }) => {
            assert_eq!(reason, "dimensions must be greater than 0")
        }
        other => panic!("unexpected {other:?}"),
    }
}

#[test]
fn stride_forms_and_refusals() {
    assert_eq!(parse_stride_2d("64,1").unwrap(), [64, 1]);
    assert_eq!(parse_stride_2d("[0, 0]").unwrap(), [0, 0]);
    match parse_stride_2d("64") {
        Err(BankError::InvalidStride { raw, reason }) => {
            assert_eq!(raw, "64");
            assert_eq!(reason, "expected 2 stride values (e.g. 64,1), got 1");
        }
        other => panic!("unexpected {other:?}"),
    }
    match parse_stride_2d("64,-1") {
        Err(BankError::InvalidStride { reason, .. }) => {
            assert_eq!(reason, "invalid column stride `-1`: invalid digit found in string")
        }
        other => panic!("unexpected {other:?}"),
    }
    assert_eq!(parse_stride_1d(" 16 ").unwrap(), 16);
    assert_eq!(parse_stride_1d("+16").unwrap(), 16);
    match parse_stride_1d("  ") {
        Err(BankError::InvalidStride { raw, reason }) => {
            assert_eq!(raw, "  ");
            assert_eq!(reason, "invalid element stride ``: cannot parse integer from empty string");
        }
        other => panic!("unexpected {other:?}"),
    }
}

#[test]
fn layout_offsets() {
    let layout = Layout2D::new([8, 64], [64, 1]).unwrap();
    assert_eq!(layout.logical_offset([3, 5]).unwrap(), 3 * 64 + 5);
    match layout.logical_offset([8, 0]) {
        Err(BankError::InvalidCoordinate { row, col, shape_rows, shape_cols }) => {
            assert_eq!((row, col, shape_rows, shape_cols), (8, 0, 8, 64));
        }
        other => panic!("unexpected {other:?}"),
    }
    let huge = Layout2D::new([4, 4], [u64::MAX, 1]).unwrap();
    assert!(matches!(huge.logical_offset([2, 0]), Err(BankError::InvalidCoordinate { .. })));
    assert_eq!(huge.logical_offset([1, 0]).unwrap(), u64::MAX);
    assert!(matches!(huge.logical_offset([1, 1]), Err(BankError::InvalidCoordinate { .. })));
    match Layout2D::new([0, 4], [4, 1]) {
        Err(BankError::InvalidShape { raw, reason }) => {
            assert_eq!(raw, "0x4");
            assert_eq!(reason, "shape dimensions must be non-zero");
        }
        other => panic!("unexpected {other:?}"),
    }
}

#[test]
fn data_types() {
    assert_eq!(DataType::from_str(" FP16 ").unwrap(), DataType::F16);
    assert_eq!(DataType::from_str("Half").unwrap(), DataType::F16);
    assert_eq!(DataType::from_str("bfloat16").unwrap(), DataType::BF16);
    assert_eq!(DataType::from_str("DOUBLE").unwrap(), DataType::F64);
    assert_eq!(DataType::from_str("int8").unwrap(), DataType::I8);
    match DataType::from_str("f8") {
        Err(BankError::InvalidDataType { raw }) => assert_eq!(raw, "f8"),
        other => panic!("unexpected {other:?}"),
    }
    for d in [
        DataType::F16,
        DataType::BF16,
        DataType::F32,
        DataType::F64,
        DataType::I8,
        DataType::I16,
        DataType::I32,
    ] {
        assert_eq!(DataType::from_str(d.name()).unwrap(), d);
    }
    assert_eq!(DataType::I8.size_bytes(), 1);
    assert_eq!(DataType::BF16.size_bytes(), 2);
    assert_eq!(DataType::I32.size_bytes(), 4);
    assert_eq!(DataType::F64.size_bytes(), 8);
}

#[test]
fn bank_models() {
    let nv = BankModel::nvidia();
    assert_eq!((nv.bank_count, nv.bank_width_bytes), (32, 4));
    assert_eq!(BankModel::amd(), nv);
    assert_eq!(BankModel::from_arch_or_override(None, None, None).unwrap(), nv);
    assert_eq!(BankModel::from_arch_or_override(Some(" RDNA "), None, None).unwrap(), nv);
    let custom = BankModel::from_arch_or_override(Some("amd"), Some(64), Some(8)).unwrap();
    assert_eq!((custom.bank_count, custom.bank_width_bytes), (64, 8));
    match BankModel::from_arch_or_override(Some(" INTEL "), None, None) {
        Err(BankError::InvalidBankModel { reason }) => {
            assert_eq!(reason, "unknown arch `intel`: expected `nvidia` or `amd`")
        }
        other => panic!("unexpected {other:?}"),
    }
    match BankModel::from_arch_or_override(None, Some(0), Some(0)) {
        Err(BankError::InvalidBankModel { reason }) => {
            assert_eq!(reason, "bank count must be greater than 0")
        }
        other => panic!("unexpected {other:?}"),
    }
    match BankModel::from_arch_or_override(None, None, Some(0)) {
        Err(BankError::InvalidBankModel { reason }) => {
            assert_eq!(reason, "bank width must be greater than 0")
        }
        other => panic!("unexpected {other:?}"),
    }
    match BankModel::new(32, 0) {
        Err(BankError::InvalidBankModel { reason }) => {
            assert_eq!(reason, "bank width bytes must be greater than 0")
        }
        other => panic!("unexpected {other:?}"),
    }
    assert!(matches!(BankModel::new(0, 4), Err(BankError::InvalidBankModel { .. })));
    assert_eq!(nv.bank_for_byte_address(0), 0);
    assert_eq!(nv.bank_for_byte_address(4), 1);
    assert_eq!(nv.bank_for_byte_address(127), 31);
    assert_eq!(nv.bank_for_byte_address(128), 0);
    assert_eq!(nv.bank_for_byte_address(u64::MAX), 31);
}

#[test]
fn inline_coordinates() {
    let got = parse_inline_coords("0:0,0;1:1,0\n 2 : 2 x 0 : 7 ;").unwrap();
    assert_eq!(
        got,
        vec![
            AccessEntry { lane: 0, coord: [0, 0], group: None },
            AccessEntry { lane: 1, coord: [1, 0], group: None },
            AccessEntry { lane: 2, coord: [2, 0], group: Some(7) },
        ]
    );
    let cases = [
        ("0", "invalid entry `0`: expected `lane:row,col`"),
        ("x:0,0", "invalid lane `x`: invalid digit found in string"),
        ("0:1", "invalid coordinate `1`: expected `row,col`"),
        ("0:a,1", "invalid row `a`: invalid digit found in string"),
        ("0:1,b", "invalid col `b`: invalid digit found in string"),
        ("0:1,1:z", "invalid group `z`: invalid digit found in string"),
        (":1,1", "invalid lane ``: cannot parse integer from empty string"),
        ("0:0,0;4294967296:0,0", "invalid lane `4294967296`: number too large to fit in target type"),
    ];
    for (text, expected) in cases {
        match parse_inline_coords(text) {
            Err(BankError::InvalidAccessPattern { reason }) => assert_eq!(reason, expected),
            other => panic!("{text}: unexpected {other:?}"),
        }
    }
    assert!(matches!(parse_inline_coords(""), Err(BankError::EmptyAccessSet)));
    assert!(matches!(parse_inline_coords(" ; \n ;"), Err(BankError::EmptyAccessSet)));
}

#[test]
fn search_ranges() {
    assert_eq!(parse_range("1:4", "b").unwrap(), (1, 4));
    assert_eq!(parse_range(" 2 ..= 5 ", "m").unwrap(), (2, 5));
    assert_eq!(parse_range("3", "s").unwrap(), (3, 3));
    assert_eq!(parse_range("5:1", "s").unwrap(), (5, 1));
    let cases = [
        ("x:4", "invalid b range start `x`: invalid digit found in string"),
        ("1:", "invalid b range end ``: cannot parse integer from empty string"),
        ("1..=300", "invalid b range end `300`: number too large to fit in target type"),
        ("abc", "invalid b value `abc`: invalid digit found in string"),
    ];
    for (text, expected) in cases {
        match parse_range(text, "b") {
            Err(BankError::InvalidSwizzle { raw, reason }) => {
                assert_eq!(raw, text);
                assert_eq!(reason, expected);
            }
            other => panic!("{text}: unexpected {other:?}"),
        }
    }
}
