//! The errors of the library, their stable codes and their hints.
use crate::text::{append_dec, dec};
use std::path::PathBuf;
use vstd::prelude::*;

verus! {

#[verifier::external_type_specification]
#[verifier::external_body]
pub struct ExPathBuf(PathBuf);

/// Everything that can go wrong while reading inputs or analysing accesses.
#[derive(Debug)]
pub enum BankError {
    InvalidSwizzle { raw: String, reason: String },
    UnsupportedNegativeShift { raw: String },
    InvalidShape { raw: String, reason: String },
    InvalidStride { raw: String, reason: String },
    InvalidCoordinate { row: u64, col: u64, shape_rows: u64, shape_cols: u64 },
    InvalidAccessFile { path: PathBuf, reason: String },
    InvalidAccessPattern { reason: String },
    InvalidBankModel { reason: String },
    EmptyAccessSet,
    SearchSpaceTooLarge { total: usize, max: usize },
    InvalidDataType { raw: String },
    OutputError { format: &'static str, reason: String },
    JsonError { reason: String },
    MissingArgument { arg: &'static str },
}

/// A `BankError` with its texts taken as character sequences.
pub enum BankErrorView {
    InvalidSwizzle { raw: Seq<char>, reason: Seq<char> },
    UnsupportedNegativeShift { raw: Seq<char> },
    InvalidShape { raw: Seq<char>, reason: Seq<char> },
    InvalidStride { raw: Seq<char>, reason: Seq<char> },
    InvalidCoordinate { row: u64, col: u64, shape_rows: u64, shape_cols: u64 },
    InvalidAccessFile { path: PathBuf, reason: Seq<char> },
    InvalidAccessPattern { reason: Seq<char> },
    InvalidBankModel { reason: Seq<char> },
    EmptyAccessSet,
    SearchSpaceTooLarge { total: usize, max: usize },
    InvalidDataType { raw: Seq<char> },
    OutputError { format: Seq<char>, reason: Seq<char> },
    JsonError { reason: Seq<char> },
    MissingArgument { arg: Seq<char> },
}

impl View for BankError {
    type V = BankErrorView;

    open spec fn view(&self) -> BankErrorView {
        match self {
            BankError::InvalidSwizzle { raw, reason } => BankErrorView::InvalidSwizzle {
                raw: raw@,
                reason: reason@,
            },
            BankError::UnsupportedNegativeShift { raw } => BankErrorView::UnsupportedNegativeShift {
                raw: raw@,
            },
            BankError::InvalidShape { raw, reason } => BankErrorView::InvalidShape {
                raw: raw@,
                reason: reason@,
            },
            BankError::InvalidStride { raw, reason } => BankErrorView::InvalidStride {
                raw: raw@,
                reason: reason@,
            },
            BankError::InvalidCoordinate { row, col, shape_rows, shape_cols } =>
                BankErrorView::InvalidCoordinate {
                row: *row,
                col: *col,
                shape_rows: *shape_rows,
                shape_cols: *shape_cols,
            },
            BankError::InvalidAccessFile { path, reason } => BankErrorView::InvalidAccessFile {
                path: *path,
                reason: reason@,
            },
            BankError::InvalidAccessPattern { reason } => BankErrorView::InvalidAccessPattern {
                reason: reason@,
            },
            BankError::InvalidBankModel { reason } => BankErrorView::InvalidBankModel {
                reason: reason@,
            },
            BankError::EmptyAccessSet => BankErrorView::EmptyAccessSet,
            BankError::SearchSpaceTooLarge { total, max } => BankErrorView::SearchSpaceTooLarge {
                total: *total,
                max: *max,
            },
            BankError::InvalidDataType { raw } => BankErrorView::InvalidDataType { raw: raw@ },
            BankError::OutputError { format, reason } => BankErrorView::OutputError {
                format: format@,
                reason: reason@,
            },
            BankError::JsonError { reason } => BankErrorView::JsonError { reason: reason@ },
            BankError::MissingArgument { arg } => BankErrorView::MissingArgument { arg: arg@ },
        }
    }
}

/// A result whose error is taken by its view.
pub open spec fn res_view<T>(r: Result<T, BankError>) -> Result<T, BankErrorView> {
    match r {
        Ok(v) => Ok(v),
        Err(e) => Err(e@),
    }
}

/// The stable diagnostic code of each kind of error.
pub open spec fn error_code(e: BankErrorView) -> Seq<char> {
    match e {
        BankErrorView::InvalidSwizzle { .. } => "bank.invalid-swizzle"@,
        BankErrorView::UnsupportedNegativeShift { .. } => "bank.unsupported-negative-shift"@,
        BankErrorView::InvalidShape { .. } => "bank.invalid-shape"@,
        BankErrorView::InvalidStride { .. } => "bank.invalid-stride"@,
        BankErrorView::InvalidCoordinate { .. } => "bank.invalid-coordinate"@,
        BankErrorView::InvalidAccessFile { .. } => "bank.invalid-access-file"@,
        BankErrorView::InvalidAccessPattern { .. } => "bank.invalid-access-file"@,
        BankErrorView::InvalidBankModel { .. } => "bank.invalid-bank-model"@,
        BankErrorView::EmptyAccessSet => "bank.empty-access-set"@,
        BankErrorView::SearchSpaceTooLarge { .. } => "bank.search-space-too-large"@,
        BankErrorView::InvalidDataType { .. } => "bank.invalid-dtype"@,
        BankErrorView::OutputError { .. } => "bank.output-error"@,
        BankErrorView::JsonError { .. } => "bank.json-error"@,
        BankErrorView::MissingArgument { .. } => "bank.missing-argument"@,
    }
}

/// The advice shown beside an error, where there is one.
pub open spec fn error_hint(e: BankErrorView) -> Option<Seq<char>> {
    match e {
        BankErrorView::InvalidSwizzle { .. } => Some(
            "expected format `B,M,S` where B > 0, M >= 0, S >= B > 0 (e.g. `2,4,2`)"@,
        ),
        BankErrorView::UnsupportedNegativeShift { .. } => Some(
            "v0 only supports positive shifts S > 0 with S >= B"@,
        ),
        BankErrorView::InvalidShape { .. } => Some(
            "expected format `ROWSxCOLS` or `ROWS,COLS` (e.g. `8x64`)"@,
        ),
        BankErrorView::InvalidStride { .. } => Some(
            "expected format `ROW_STRIDE,COL_STRIDE` (e.g. `64,1`) or single element stride for explain"@,
        ),
        BankErrorView::InvalidCoordinate { shape_rows, shape_cols, .. } => Some(
            "coordinates must satisfy row < "@ + dec(shape_rows as nat) + " and col < "@ + dec(
                shape_cols as nat,
            ),
        ),
        BankErrorView::InvalidAccessFile { .. } => Some(
            "ensure the JSON file exists and contains `{\"accesses\": [{\"lane\": 0, \"coord\": [0, 0]}]}`"@,
        ),
        BankErrorView::EmptyAccessSet => Some(
            "provide `--access <path>` with non-empty accesses or inline coordinates via `--coords '0:0,0;1:1,0'`"@,
        ),
        BankErrorView::SearchSpaceTooLarge { max, .. } => Some(
            "narrow `--b`, `--m`, or `--s` ranges so candidate count is <= "@ + dec(max as nat),
        ),
        BankErrorView::InvalidDataType { .. } => Some(
            "supported dtypes: f16, bf16, f32, f64, i8, i16, i32"@,
        ),
        _ => None,
    }
}

impl BankError {
    /// The stable diagnostic code of this error.
    pub fn code(&self) -> (r: &'static str)
        ensures
            r@ == error_code(self@),
    {
        match self {
            BankError::InvalidSwizzle { .. } => "bank.invalid-swizzle",
            BankError::UnsupportedNegativeShift { .. } => "bank.unsupported-negative-shift",
            BankError::InvalidShape { .. } => "bank.invalid-shape",
            BankError::InvalidStride { .. } => "bank.invalid-stride",
            BankError::InvalidCoordinate { .. } => "bank.invalid-coordinate",
            BankError::InvalidAccessFile { .. } => "bank.invalid-access-file",
            BankError::InvalidAccessPattern { .. } => "bank.invalid-access-file",
            BankError::InvalidBankModel { .. } => "bank.invalid-bank-model",
            BankError::EmptyAccessSet => "bank.empty-access-set",
            BankError::SearchSpaceTooLarge { .. } => "bank.search-space-too-large",
            BankError::InvalidDataType { .. } => "bank.invalid-dtype",
            BankError::OutputError { .. } => "bank.output-error",
            BankError::JsonError { .. } => "bank.json-error",
            BankError::MissingArgument { .. } => "bank.missing-argument",
        }
    }

    /// The advice to show beside this error, where there is one.
    pub fn hint(&self) -> (r: Option<String>)
        ensures
            match (r, error_hint(self@)) {
                (Some(h), Some(t)) => h@ == t,
                (None, None) => true,
                _ => false,
            },
    {
        match self {
            BankError::InvalidSwizzle { .. } => Some(
                String::from_str(
                    "expected format `B,M,S` where B > 0, M >= 0, S >= B > 0 (e.g. `2,4,2`)",
                ),
            ),
            BankError::UnsupportedNegativeShift { .. } => Some(
                String::from_str("v0 only supports positive shifts S > 0 with S >= B"),
            ),
            BankError::InvalidShape { .. } => Some(
                String::from_str("expected format `ROWSxCOLS` or `ROWS,COLS` (e.g. `8x64`)"),
            ),
            BankError::InvalidStride { .. } => Some(
                String::from_str(
                    "expected format `ROW_STRIDE,COL_STRIDE` (e.g. `64,1`) or single element stride for explain",
                ),
            ),
            BankError::InvalidCoordinate { shape_rows, shape_cols, .. } => {
                let mut h = String::from_str("coordinates must satisfy row < ");
                append_dec(&mut h, *shape_rows);
                h.append(" and col < ");
                append_dec(&mut h, *shape_cols);
                Some(h)
            },
            BankError::InvalidAccessFile { .. } => Some(
                String::from_str(
                    "ensure the JSON file exists and contains `{\"accesses\": [{\"lane\": 0, \"coord\": [0, 0]}]}`",
                ),
            ),
            BankError::EmptyAccessSet => Some(
                String::from_str(
                    "provide `--access <path>` with non-empty accesses or inline coordinates via `--coords '0:0,0;1:1,0'`",
                ),
            ),
            BankError::SearchSpaceTooLarge { max, .. } => {
                let mut h = String::from_str(
                    "narrow `--b`, `--m`, or `--s` ranges so candidate count is <= ",
                );
                append_dec(&mut h, *max as u64);
                Some(h)
            },
            BankError::InvalidDataType { .. } => Some(
                String::from_str("supported dtypes: f16, bf16, f32, f64, i8, i16, i32"),
            ),
            _ => None,
        }
    }
}

/// The message of an error, given the text that its path, if it names one, is
/// shown as.
pub open spec fn error_message(e: BankErrorView, shown_path: Seq<char>) -> Seq<char> {
    match e {
        BankErrorView::InvalidSwizzle { raw, reason } => "invalid swizzle `"@ + raw + "`: "@
            + reason,
        BankErrorView::UnsupportedNegativeShift { raw } => "unsupported negative shift in swizzle `"@
            + raw + "`: S must be positive (S >= B > 0) in v0"@,
        BankErrorView::InvalidShape { raw, reason } => "invalid shape `"@ + raw + "`: "@ + reason,
        BankErrorView::InvalidStride { raw, reason } => "invalid stride `"@ + raw + "`: "@
            + reason,
        BankErrorView::InvalidCoordinate { row, col, shape_rows, shape_cols } => "coordinate ["@
            + dec(row as nat) + ", "@ + dec(col as nat) + "] out of bounds for shape ["@ + dec(
            shape_rows as nat,
        ) + ", "@ + dec(shape_cols as nat) + "]"@,
        BankErrorView::InvalidAccessFile { reason, .. } => "failed to read access pattern file `"@
            + shown_path + "`: "@ + reason,
        BankErrorView::InvalidAccessPattern { reason } => "invalid access pattern specification: "@
            + reason,
        BankErrorView::InvalidBankModel { reason } => "invalid bank model: "@ + reason,
        BankErrorView::EmptyAccessSet => "access pattern is empty: provide at least one lane coordinate"@,
        BankErrorView::SearchSpaceTooLarge { total, max } => "search space too large ("@ + dec(
            total as nat,
        ) + " candidates exceed maximum "@ + dec(max as nat) + "): narrow search ranges"@,
        BankErrorView::InvalidDataType { raw } => "invalid data type `"@ + raw
            + "`: expected f16, bf16, f32, f64, i8, i16, i32"@,
        BankErrorView::OutputError { format, reason } => "output format `"@ + format
            + "` error: "@ + reason,
        BankErrorView::JsonError { reason } => "json serialization error: "@ + reason,
        BankErrorView::MissingArgument { arg } => "missing required argument: "@ + arg,
    }
}

/// `Path::display`: the path as text, lossily where it is not Unicode. What the
/// text holds depends on the platform's path encoding and is left unstated.
#[verifier::external_body]
fn path_text(p: &PathBuf) -> (r: String) {
    format!("{}", p.display())
}

impl BankError {
    /// The message of this error. For an access file, the path is shown as the
    /// platform shows it, between the fixed words of the message.
    pub fn message(&self) -> (r: String)
        ensures
            self@ is InvalidAccessFile ==> exists|p: Seq<char>| r@ == error_message(self@, p),
            !(self@ is InvalidAccessFile) ==> r@ == error_message(self@, Seq::empty()),
    {
        match self {
            BankError::InvalidSwizzle { raw, reason } => {
                let mut m = String::from_str("invalid swizzle `");
                m.append(raw.as_str());
                m.append("`: ");
                m.append(reason.as_str());
                m
            },
            BankError::UnsupportedNegativeShift { raw } => {
                let mut m = String::from_str("unsupported negative shift in swizzle `");
                m.append(raw.as_str());
                m.append("`: S must be positive (S >= B > 0) in v0");
                m
            },
            BankError::InvalidShape { raw, reason } => {
                let mut m = String::from_str("invalid shape `");
                m.append(raw.as_str());
                m.append("`: ");
                m.append(reason.as_str());
                m
            },
            BankError::InvalidStride { raw, reason } => {
                let mut m = String::from_str("invalid stride `");
                m.append(raw.as_str());
                m.append("`: ");
                m.append(reason.as_str());
                m
            },
            BankError::InvalidCoordinate { row, col, shape_rows, shape_cols } => {
                let mut m = String::from_str("coordinate [");
                append_dec(&mut m, *row);
                m.append(", ");
                append_dec(&mut m, *col);
                m.append("] out of bounds for shape [");
                append_dec(&mut m, *shape_rows);
                m.append(", ");
                append_dec(&mut m, *shape_cols);
                m.append("]");
                m
            },
            BankError::InvalidAccessFile { path, reason } => {
                let shown = path_text(path);
                let mut m = String::from_str("failed to read access pattern file `");
                m.append(shown.as_str());
                m.append("`: ");
                m.append(reason.as_str());
                assert(m@ == error_message(self@, shown@));
                m
            },
            BankError::InvalidAccessPattern { reason } => {
                let mut m = String::from_str("invalid access pattern specification: ");
                m.append(reason.as_str());
                m
            },
            BankError::InvalidBankModel { reason } => {
                let mut m = String::from_str("invalid bank model: ");
                m.append(reason.as_str());
                m
            },
            BankError::EmptyAccessSet => String::from_str(
                "access pattern is empty: provide at least one lane coordinate",
            ),
            BankError::SearchSpaceTooLarge { total, max } => {
                let mut m = String::from_str("search space too large (");
                append_dec(&mut m, *total as u64);
                m.append(" candidates exceed maximum ");
                append_dec(&mut m, *max as u64);
                m.append("): narrow search ranges");
                m
            },
            BankError::InvalidDataType { raw } => {
                let mut m = String::from_str("invalid data type `");
                m.append(raw.as_str());
                m.append("`: expected f16, bf16, f32, f64, i8, i16, i32");
                m
            },
            BankError::OutputError { format, reason } => {
                let mut m = String::from_str("output format `");
                m.append(format);
                m.append("` error: ");
                m.append(reason.as_str());
                m
            },
            BankError::JsonError { reason } => {
                let mut m = String::from_str("json serialization error: ");
                m.append(reason.as_str());
                m
            },
            BankError::MissingArgument { arg } => {
                let mut m = String::from_str("missing required argument: ");
                m.append(arg);
                m
            },
        }
    }
}

} // verus!
