//! Identifies the language of a short text by the rank distance between the
//! text's trigram ranking and the trigram profile of each candidate language.
pub mod detection;
pub mod order;
pub mod profile;
pub mod ranking;
pub mod table;
pub mod trigram;

pub use detection::{
    assemble, calculate_distance, calculate_scores_in_profiles, detect, distance_to_score,
    raw_detect, AllowList, Confidence, Info, InternalQuery, LangScores, RawOutcome, Score, Text,
    MAX_TOTAL_DISTANCE, MAX_TRIGRAM_DISTANCE,
};
pub use profile::{Lang, LangProfile, LangProfileList, MultiLangScript, Profiles};
pub use ranking::{get_trigrams_with_positions, TextRanking};
pub use table::TrigramTable;
pub use trigram::Trigram;
