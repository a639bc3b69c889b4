//! Adaptive parallel-language rendering and vocabulary calibration.
//!
//! The crate models a learner's vocabulary as a state machine over lemma
//! records, selects for every sentence the hardest comprehensible rendering
//! out of five levels, and calibrates whole blocks of sentences toward a
//! target comprehension ratio by selectively activating new vocabulary.

pub mod config;
pub mod core_algo;
pub mod corpus_generator;
pub mod dictionary;
pub mod llm_data;
pub mod text_generator;
pub mod numerical_types;
pub mod preprocessor;
pub mod profile;
pub mod render;
pub mod snapshot;
pub mod text;
pub mod vocab;
