pub mod comparison;
pub mod difference;
pub mod json;
pub mod json_selector;
pub mod lcs;
pub mod operation;
pub mod patch;

pub use comparison::{compare, Comparison};
pub use difference::{ArrayComparison, Difference, ObjectComparison};
pub use json::{JsonNumber, JsonValue};
pub use json_selector::{mutate_at, value_at, JsonSelector, Selector};
pub use lcs::{DiffComponent, LcsTable};
pub use operation::{Operation, OperationError};
pub use patch::{generate_patch, PatchOperation};
