use weavelang::config::Config;
use weavelang::corpus_generator::{block_budget_ok, run_chapter_simulation};
use weavelang::dictionary::GlobalLemmaDictionary;
use weavelang::llm_data::{
    DiglotEntry, DiglotSegmentMap, PhraseAlignment, ProcessedChapter, ProcessedSentence,
    SegmentData, SegmentLemmas,
};
use weavelang::numerical_types::NumericalLearnerProfile;
use weavelang::preprocessor::to_numerical_chapter;
use weavelang::snapshot::ProfileSnapshot;
use weavelang::vocab::LemmaState;

fn string_sentence(id: &str) -> ProcessedSentence {
    ProcessedSentence {
        sentence_id: id.to_string(),
        adv_s: String::new(),
        sim_s: String::new(),
        sim_e: String::new(),
        sim_s_segments: Vec::new(),
        phrase_alignments: Vec::new(),
        sim_s_lemmas: Vec::new(),
        adv_s_lemmas: Vec::new(),
        diglot_map: Vec::new(),
        locked_phrases: None,
    }
}

fn small_chapter() -> ProcessedChapter {
    let mut a = string_sentence("c_1");
    a.adv_s = "el sol brilla".to_string();
    a.sim_s = "el sol".to_string();
    a.sim_e = "the sun shines".to_string();
    a.adv_s_lemmas = vec!["Sol".to_string(), "brillar".to_string()];
    a.sim_s_segments = vec![SegmentData { id: "S1".to_string(), text: "el sol".to_string() }];
    a.phrase_alignments = vec![PhraseAlignment {
        segment_id: "S1".to_string(),
        adv_s_span: "el sol".to_string(),
        sim_e_span: "the sun".to_string(),
    }];
    a.sim_s_lemmas = vec![SegmentLemmas {
        segment_id: "S1".to_string(),
        lemmas: vec!["sol".to_string()],
    }];
    let mut b = string_sentence("c_2");
    b.sim_e = "the moon is out".to_string();
    b.diglot_map = vec![DiglotSegmentMap {
        segment_id: "S1".to_string(),
        entries: vec![DiglotEntry {
            eng_word: "moon".to_string(),
            spa_lemma: "luna".to_string(),
            exact_spa_form: "luna".to_string(),
            viable: true,
        }],
    }];
    ProcessedChapter { source_file_name: "ch".to_string(), sentences: vec![a, b] }
}

#[test]
fn preprocessing_resolves_lemmas_to_ids() {
    let ch = small_chapter();
    let mut d = GlobalLemmaDictionary::new();
    let num = to_numerical_chapter(&ch, &mut d);
    assert_eq!(num.sentences_numerical.len(), 2);
    assert_eq!(d.size(), 3);
    let sol = d.get_id("sol").unwrap();
    let brillar = d.get_id("brillar").unwrap();
    let luna = d.get_id("luna").unwrap();
    assert_eq!(num.sentences_numerical[0].adv_s_lemma_ids, vec![sol, brillar]);
    assert_eq!(num.sentences_numerical[0].sim_s_lemmas_numerical[0].lemma_ids, vec![sol]);
    assert_eq!(
        num.sentences_numerical[1].diglot_map_numerical[0].entries[0].spa_lemma_id,
        luna
    );
    assert_eq!(num.sentences_numerical[0].adv_s_original, "el sol brilla");
    assert_eq!(num.sentences_numerical[1].sim_e_original, "the moon is out");
}

#[test]
fn preprocessing_drops_empty_lemmas() {
    let mut a = string_sentence("c_1");
    a.adv_s_lemmas = vec!["uno".to_string(), "  ".to_string(), "dos".to_string()];
    let ch = ProcessedChapter { source_file_name: "ch".to_string(), sentences: vec![a] };
    let mut d = GlobalLemmaDictionary::new();
    let num = to_numerical_chapter(&ch, &mut d);
    assert_eq!(num.sentences_numerical[0].adv_s_lemma_ids.len(), 2);
    assert_eq!(d.size(), 2);
}

#[test]
fn preprocessing_reuses_existing_dictionary_ids() {
    let mut d = GlobalLemmaDictionary::new();
    d.get_id_or_insert("sol");
    let ch = small_chapter();
    let num = to_numerical_chapter(&ch, &mut d);
    assert_eq!(num.sentences_numerical[0].adv_s_lemma_ids[0], 0);
    assert_eq!(d.size(), 3);
}

#[test]
fn chapter_blocks_thread_the_profile() {
    let ch = small_chapter();
    let mut d = GlobalLemmaDictionary::new();
    let num = to_numerical_chapter(&ch, &mut d);
    let mut p = NumericalLearnerProfile::new();
    {
        let info = p.get_lemma_info_mut(d.get_id("sol").unwrap());
        info.state = LemmaState::Known;
    }
    {
        let info = p.get_lemma_info_mut(d.get_id("brillar").unwrap());
        info.state = LemmaState::Known;
    }
    let r = run_chapter_simulation(&num.sentences_numerical, p, 1, 2, 9, 10, 1);
    // Block 1: sentence one renders at the advanced level. Block 2 gets
    // the profile block 1 left behind.
    assert!(r.output_text.starts_with("el sol brilla"));
    assert_eq!(r.block_results.len(), 2);
    assert!(r.skipped_blocks.is_empty());
    let sol = d.get_id("sol").unwrap();
    assert!(r.final_profile.get_lemma_info(sol).unwrap().exposure_count >= 1);
}

#[test]
fn chapter_text_joins_blocks_with_blank_lines() {
    let ch = small_chapter();
    let mut d = GlobalLemmaDictionary::new();
    let num = to_numerical_chapter(&ch, &mut d);
    let p = NumericalLearnerProfile::new();
    let r = run_chapter_simulation(&num.sentences_numerical, p, 1, 1, 9, 10, 1);
    // With an empty profile both sentences degrade to base-language text.
    assert_eq!(r.output_text, "the sun shines\n\nthe moon is out");
}

#[test]
fn budget_check_accepts_small_blocks() {
    let ch = small_chapter();
    let mut d = GlobalLemmaDictionary::new();
    let num = to_numerical_chapter(&ch, &mut d);
    let p = NumericalLearnerProfile::new();
    assert!(block_budget_ok(&num.sentences_numerical[..], &p));
}

#[test]
fn snapshot_and_config_hold_plain_values() {
    let snap = ProfileSnapshot::new_empty();
    assert_eq!(snap.dictionary.size(), 0);
    assert_eq!(snap.profile.vocabulary_size(), 0);
    let cfg = Config { content_project_dir: "content".to_string() };
    assert_eq!(cfg.content_project_dir, "content");
}
