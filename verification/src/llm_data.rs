//! The string-level sentence data model, as the chapter parser hands it
//! over: five candidate renderings per sentence with lemma lists still as
//! strings. The preprocessor interns these into the numerical model.

use vstd::prelude::*;

verus! {

/// One segment of the simple target-language rendering.
#[derive(Debug, Clone)]
pub struct SegmentData {
    pub id: String,
    pub text: String,
}

/// Base-language equivalent span for one segment.
#[derive(Debug, Clone)]
pub struct PhraseAlignment {
    pub segment_id: String,
    pub adv_s_span: String,
    pub sim_e_span: String,
}

/// The lemma strings of one segment.
#[derive(Debug, Clone)]
pub struct SegmentLemmas {
    pub segment_id: String,
    pub lemmas: Vec<String>,
}

/// One word-substitution candidate of the diglot map.
#[derive(Debug, Clone)]
pub struct DiglotEntry {
    pub eng_word: String,
    pub spa_lemma: String,
    pub exact_spa_form: String,
    pub viable: bool,
}

/// The substitution candidates contributed by one segment.
#[derive(Debug, Clone)]
pub struct DiglotSegmentMap {
    pub segment_id: String,
    pub entries: Vec<DiglotEntry>,
}

/// One parsed sentence with all five candidate renderings.
#[derive(Debug, Clone)]
pub struct ProcessedSentence {
    pub sentence_id: String,
    pub adv_s: String,
    pub sim_s: String,
    pub sim_e: String,
    pub sim_s_segments: Vec<SegmentData>,
    pub phrase_alignments: Vec<PhraseAlignment>,
    pub sim_s_lemmas: Vec<SegmentLemmas>,
    pub adv_s_lemmas: Vec<String>,
    pub diglot_map: Vec<DiglotSegmentMap>,
    pub locked_phrases: Option<Vec<String>>,
}

/// One parsed chapter: an ordered list of sentences.
#[derive(Debug, Clone)]
pub struct ProcessedChapter {
    pub source_file_name: String,
    pub sentences: Vec<ProcessedSentence>,
}

} // verus!
