use weavelang::dictionary::GlobalLemmaDictionary;
use weavelang::llm_data::{DiglotEntry, DiglotSegmentMap, ProcessedChapter, ProcessedSentence, SegmentLemmas};

fn empty_sentence(id: &str) -> ProcessedSentence {
    ProcessedSentence {
        sentence_id: id.to_string(),
        adv_s: String::new(),
        sim_s: String::new(),
        sim_e: String::new(),
        sim_s_segments: Vec::new(),
        phrase_alignments: Vec::new(),
        sim_s_lemmas: Vec::new(),
        adv_s_lemmas: Vec::new(),
        diglot_map: Vec::new(),
        locked_phrases: None,
    }
}

#[test]
fn intern_assigns_increasing_ids() {
    let mut d = GlobalLemmaDictionary::new();
    assert_eq!(d.get_id_or_insert("casa"), Some(0));
    assert_eq!(d.get_id_or_insert("perro"), Some(1));
    assert_eq!(d.get_id_or_insert("gato"), Some(2));
    assert_eq!(d.size(), 3);
}

#[test]
fn intern_is_stable_for_same_normalization() {
    let mut d = GlobalLemmaDictionary::new();
    let first = d.get_id_or_insert("casa");
    assert_eq!(first, Some(0));
    assert_eq!(d.get_id_or_insert("  CASA  "), Some(0));
    assert_eq!(d.get_id_or_insert("Casa"), Some(0));
    assert_eq!(d.size(), 1);
}

#[test]
fn stored_string_is_normalized() {
    let mut d = GlobalLemmaDictionary::new();
    let id = d.get_id_or_insert(" Hola ").unwrap();
    assert_eq!(d.get_str(id).unwrap(), "hola");
}

#[test]
fn empty_lemma_is_never_interned() {
    let mut d = GlobalLemmaDictionary::new();
    assert_eq!(d.get_id_or_insert(""), None);
    assert_eq!(d.get_id_or_insert("   "), None);
    assert_eq!(d.size(), 0);
}

#[test]
fn lookup_never_mutates() {
    let mut d = GlobalLemmaDictionary::new();
    assert_eq!(d.get_id("nada"), None);
    assert_eq!(d.size(), 0);
    d.get_id_or_insert("algo");
    assert_eq!(d.get_id(" ALGO "), Some(0));
    assert_eq!(d.get_id(""), None);
    assert_eq!(d.size(), 1);
}

#[test]
fn out_of_range_id_has_no_string() {
    let mut d = GlobalLemmaDictionary::new();
    d.get_id_or_insert("uno");
    assert!(d.get_str(0).is_some());
    assert!(d.get_str(1).is_none());
}

#[test]
fn populate_collects_all_chapter_lemmas() {
    let mut s = empty_sentence("s1");
    s.adv_s_lemmas = vec!["Perro".to_string(), "casa".to_string()];
    s.sim_s_lemmas = vec![SegmentLemmas {
        segment_id: "S1".to_string(),
        lemmas: vec!["gato".to_string(), "".to_string()],
    }];
    s.diglot_map = vec![DiglotSegmentMap {
        segment_id: "S1".to_string(),
        entries: vec![DiglotEntry {
            eng_word: "house".to_string(),
            spa_lemma: "CASA".to_string(),
            exact_spa_form: "casa".to_string(),
            viable: true,
        }],
    }];
    let ch = ProcessedChapter { source_file_name: "f".to_string(), sentences: vec![s] };
    let mut d = GlobalLemmaDictionary::new();
    d.populate_from_chapter(&ch);
    assert_eq!(d.size(), 3);
    assert_eq!(d.get_id("perro"), Some(0));
    assert_eq!(d.get_id("casa"), Some(1));
    assert_eq!(d.get_id("gato"), Some(2));
}
