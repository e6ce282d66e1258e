//! Static reasoning about shared-memory bank conflicts and CuTe-style layout swizzles.
pub mod access;
pub mod analyze;
pub mod bank;
pub mod cli;
pub mod dtype;
pub mod error;
pub mod explain;
pub mod layout;
pub mod output;
pub mod rank;
pub mod swizzle;
pub mod text;

pub use access::{parse_inline_coords, require_accesses, AccessEntry};
pub use analyze::{
    compare_swizzles, search_swizzles, trace_accesses, BankSummary, CompareRow, LaneTraceRow,
    SearchCandidateRow,
};
pub use bank::BankModel;
pub use dtype::DataType;
pub use error::BankError;
pub use explain::{build_reasoning, explain_swizzle, ExplainData, SwizzleReasoning};
pub use layout::{parse_shape, parse_stride_1d, parse_stride_2d, Layout2D};
pub use output::{BankCompareResponse, BankSearchResponse, BankTraceResponse};
pub use swizzle::Swizzle;
