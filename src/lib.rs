//! Judging of one playfield column of a rhythm game: hits (key presses) are
//! matched to notes (scheduled timestamps) by a cascading best-match rule,
//! and the outcome is tallied into misses, stray taps and judged notes.
//!
//! All timestamps are integer nanoseconds.

pub mod matching;
pub mod tally;
pub mod scorer;
pub mod laws;

pub use matching::{Assignment, TAKEOVER_MARGIN, best_note_index, deviation_between, find_matching_note, match_all};
pub use tally::{ColumnTally, column_rescore, tally_matching};


pub use scorer::MatchingScorer;
