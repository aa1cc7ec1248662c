//! A flashcard/quiz engine over a semicolon-delimited tabular source: rows
//! become records with a unique key and multi-valued answer fields, a task
//! set selects records and tracks the one currently asked, and a diff
//! reports per-field mismatches between an expected and a submitted record,
//! comparing answers case- and whitespace-insensitively.

mod error_types;
pub mod order;
pub mod record;
pub mod task;
pub mod text;

pub use error_types::CheckError;
pub use error_types::DifferentKeyComp;
pub use error_types::EmptyAnswerStackCheck;
pub use error_types::IndexOutOfRange;
pub use error_types::UnknownField;
