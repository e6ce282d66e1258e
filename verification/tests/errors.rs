use veloq_bank::BankError;

#[test]
fn codes_and_hints() {
    let e = BankError::InvalidSwizzle { raw: "x".to_string(), reason: "y".to_string() };
    assert_eq!(e.code(), "bank.invalid-swizzle");
    assert_eq!(
        e.hint().unwrap(),
        "expected format `B,M,S` where B > 0, M >= 0, S >= B > 0 (e.g. `2,4,2`)"
    );
    let e = BankError::InvalidCoordinate { row: 9, col: 1, shape_rows: 8, shape_cols: 64 };
    assert_eq!(e.code(), "bank.invalid-coordinate");
    assert_eq!(e.hint().unwrap(), "coordinates must satisfy row < 8 and col < 64");
    let e = BankError::SearchSpaceTooLarge { total: 200_000, max: 100_000 };
    assert_eq!(e.code(), "bank.search-space-too-large");
    assert_eq!(
        e.hint().unwrap(),
        "narrow `--b`, `--m`, or `--s` ranges so candidate count is <= 100000"
    );
    let e = BankError::InvalidAccessPattern { reason: "r".to_string() };
    assert_eq!(e.code(), "bank.invalid-access-file");
    assert!(e.hint().is_none());
    assert_eq!(BankError::EmptyAccessSet.code(), "bank.empty-access-set");
    assert!(BankError::EmptyAccessSet.hint().unwrap().starts_with("provide `--access <path>`"));
    let e = BankError::OutputError { format: "csv", reason: "r".to_string() };
    assert_eq!(e.code(), "bank.output-error");
    assert!(e.hint().is_none());
    assert_eq!(BankError::JsonError { reason: String::new() }.code(), "bank.json-error");
    assert_eq!(BankError::MissingArgument { arg: "shape" }.code(), "bank.missing-argument");
    assert_eq!(BankError::InvalidDataType { raw: String::new() }.code(), "bank.invalid-dtype");
    assert_eq!(
        BankError::UnsupportedNegativeShift { raw: String::new() }.hint().unwrap(),
        "v0 only supports positive shifts S > 0 with S >= B"
    );
    assert_eq!(
        BankError::InvalidBankModel { reason: String::new() }.code(),
        "bank.invalid-bank-model"
    );
    assert_eq!(
        BankError::InvalidShape { raw: String::new(), reason: String::new() }.code(),
        "bank.invalid-shape"
    );
    assert_eq!(
        BankError::InvalidStride { raw: String::new(), reason: String::new() }.code(),
        "bank.invalid-stride"
    );
}

#[test]
fn messages() {
    let e = BankError::InvalidSwizzle { raw: "1,2".to_string(), reason: "expected B,M,S".to_string() };
    assert_eq!(e.message(), "invalid swizzle `1,2`: expected B,M,S");
    let e = BankError::InvalidCoordinate { row: 9, col: 1, shape_rows: 8, shape_cols: 64 };
    assert_eq!(e.message(), "coordinate [9, 1] out of bounds for shape [8, 64]");
    let e = BankError::SearchSpaceTooLarge { total: 200_000, max: 100_000 };
    assert_eq!(
        e.message(),
        "search space too large (200000 candidates exceed maximum 100000): narrow search ranges"
    );
    let e = BankError::InvalidAccessFile {
        path: std::path::PathBuf::from("pattern.json"),
        reason: "missing".to_string(),
    };
    assert_eq!(e.message(), "failed to read access pattern file `pattern.json`: missing");
    assert_eq!(
        BankError::EmptyAccessSet.message(),
        "access pattern is empty: provide at least one lane coordinate"
    );
    assert_eq!(
        BankError::UnsupportedNegativeShift { raw: "2,4,-1".to_string() }.message(),
        "unsupported negative shift in swizzle `2,4,-1`: S must be positive (S >= B > 0) in v0"
    );
    assert_eq!(
        BankError::InvalidDataType { raw: "f8".to_string() }.message(),
        "invalid data type `f8`: expected f16, bf16, f32, f64, i8, i16, i32"
    );
    assert_eq!(
        BankError::OutputError { format: "csv", reason: "r".to_string() }.message(),
        "output format `csv` error: r"
    );
    assert_eq!(
        BankError::MissingArgument { arg: "shape" }.message(),
        "missing required argument: shape"
    );
}
