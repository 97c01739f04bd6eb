//! Ranks guesses of a five-letter word game by the information (entropy of the
//! partition of the remaining answers) that their hints carry, and searches for
//! pairs of guesses that carry the most information together.
//!
//! Information is read from tables of `n * log2(n)` in a fixed integer unit
//! that the caller supplies, so every value here is an exact integer: the
//! information of a histogram of `N` answers is `N` times its entropy in
//! that unit.

pub mod engine;
pub mod hint;
pub mod info;
pub mod outcomes;
pub mod ranking;
pub mod table;
pub mod word;

pub use engine::{AugmentedWord, EngineError, InfoTables, WordleOpt};
pub use hint::{bucket_label, string_to_outcome};
pub use info::{fast_info, info};
pub use outcomes::{BUCKETS_SIZE, Outcomes, Outcomes2, bucket_three, bucket_two};
pub use table::{AnswersTable, build_answers_table};
pub use word::{AugmentedAnswer, WordError, word_letters};
