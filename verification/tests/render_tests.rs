use weavelang::core_algo::determine_sentence_output_lemma_ids;
use weavelang::numerical_types::{
    NumericalDiglotEntry, NumericalDiglotSegmentMap, NumericalLearnerProfile,
    NumericalPhraseAlignment, NumericalProcessedSentence, NumericalSegmentData,
    NumericalSegmentLemmas,
};
use weavelang::render::{render_sentence, RenderLevel};
use weavelang::text_generator::generate_final_text_block;
use weavelang::vocab::LemmaState;

fn bare_sentence(id: &str) -> NumericalProcessedSentence {
    NumericalProcessedSentence {
        sentence_id_str: id.to_string(),
        adv_s_original: String::new(),
        sim_s_original: String::new(),
        sim_e_original: String::new(),
        sim_s_segments_numerical: Vec::new(),
        phrase_alignments_numerical: Vec::new(),
        sim_s_lemmas_numerical: Vec::new(),
        adv_s_lemma_ids: Vec::new(),
        diglot_map_numerical: Vec::new(),
        locked_phrase_segment_id_strs: None,
    }
}

fn profile_with(states: &[(u32, LemmaState)]) -> NumericalLearnerProfile {
    let mut p = NumericalLearnerProfile::new();
    for &(id, st) in states {
        let info = p.get_lemma_info_mut(id);
        info.state = st;
    }
    p
}

#[test]
fn advanced_level_wins_when_both_l1_and_l2_hold() {
    let mut s = bare_sentence("a");
    s.adv_s_original = "frase avanzada".to_string();
    s.adv_s_lemma_ids = vec![0, 1];
    s.sim_s_original = "frase simple".to_string();
    s.sim_s_lemmas_numerical = vec![NumericalSegmentLemmas {
        segment_id_str: "S1".to_string(),
        lemma_ids: vec![0],
    }];
    let p = profile_with(&[(0, LemmaState::Known), (1, LemmaState::Known)]);
    let r = render_sentence(&s, &p);
    assert_eq!(r.level, RenderLevel::Advanced);
    assert_eq!(r.text, "frase avanzada");
    assert_eq!(r.lemma_ids, vec![0, 1]);
}

#[test]
fn advanced_level_requires_known_only() {
    let mut s = bare_sentence("a");
    s.adv_s_original = "frase avanzada".to_string();
    s.adv_s_lemma_ids = vec![0];
    s.sim_s_original = "frase simple".to_string();
    s.sim_s_lemmas_numerical = vec![NumericalSegmentLemmas {
        segment_id_str: "S1".to_string(),
        lemma_ids: vec![0],
    }];
    let p = profile_with(&[(0, LemmaState::Active)]);
    let r = render_sentence(&s, &p);
    assert_eq!(r.level, RenderLevel::Simple);
    assert_eq!(r.text, "frase simple");
    assert_eq!(r.lemma_ids, vec![0]);
}

#[test]
fn simple_level_rejects_unknown_segment_lemma() {
    let mut s = bare_sentence("a");
    s.sim_s_original = "frase simple".to_string();
    s.sim_e_original = "plain text".to_string();
    s.sim_s_lemmas_numerical = vec![NumericalSegmentLemmas {
        segment_id_str: "S1".to_string(),
        lemma_ids: vec![0, 1],
    }];
    let p = profile_with(&[(0, LemmaState::Known)]);
    let r = render_sentence(&s, &p);
    assert_eq!(r.level, RenderLevel::Fallback);
    assert_eq!(r.text, "plain text");
    assert!(r.lemma_ids.is_empty());
}

#[test]
fn woven_level_mixes_segment_text_and_alignment() {
    let mut s = bare_sentence("a");
    s.sim_e_original = "base text".to_string();
    s.sim_s_segments_numerical = vec![
        NumericalSegmentData { id_str: "S1".to_string(), text_original: "el sol".to_string() },
        NumericalSegmentData { id_str: "S2".to_string(), text_original: "brilla hoy".to_string() },
    ];
    s.sim_s_lemmas_numerical = vec![
        NumericalSegmentLemmas { segment_id_str: "S1".to_string(), lemma_ids: vec![0] },
        NumericalSegmentLemmas { segment_id_str: "S2".to_string(), lemma_ids: vec![1] },
    ];
    s.phrase_alignments_numerical = vec![NumericalPhraseAlignment {
        segment_id_str: "S2".to_string(),
        adv_s_span_original: "shines today".to_string(),
        sim_e_span_original: "shines today".to_string(),
    }];
    let p = profile_with(&[(0, LemmaState::Active)]);
    let r = render_sentence(&s, &p);
    assert_eq!(r.level, RenderLevel::Woven);
    assert_eq!(r.text, "el sol shines today");
    assert_eq!(r.lemma_ids, vec![0]);
}

#[test]
fn woven_level_fails_without_alignment() {
    let mut s = bare_sentence("a");
    s.sim_e_original = "base text".to_string();
    s.sim_s_segments_numerical = vec![
        NumericalSegmentData { id_str: "S1".to_string(), text_original: "el sol".to_string() },
        NumericalSegmentData { id_str: "S2".to_string(), text_original: "brilla".to_string() },
    ];
    s.sim_s_lemmas_numerical = vec![
        NumericalSegmentLemmas { segment_id_str: "S1".to_string(), lemma_ids: vec![0] },
        NumericalSegmentLemmas { segment_id_str: "S2".to_string(), lemma_ids: vec![1] },
    ];
    let p = profile_with(&[(0, LemmaState::Active)]);
    let r = render_sentence(&s, &p);
    assert_eq!(r.level, RenderLevel::Fallback);
    assert_eq!(r.text, "base text");
    assert!(r.lemma_ids.is_empty());
}

#[test]
fn diglot_replaces_first_whole_word() {
    let mut s = bare_sentence("a");
    s.sim_e_original = "the cat sleeps".to_string();
    s.diglot_map_numerical = vec![NumericalDiglotSegmentMap {
        segment_id_str: "S1".to_string(),
        entries: vec![NumericalDiglotEntry {
            eng_word_original: "cat".to_string(),
            spa_lemma_id: 4,
            exact_spa_form_original: "gato".to_string(),
            viable: true,
        }],
    }];
    let p = profile_with(&[(4, LemmaState::Active)]);
    let r = render_sentence(&s, &p);
    assert_eq!(r.level, RenderLevel::Diglot);
    assert_eq!(r.text, "the gato sleeps");
    assert_eq!(r.lemma_ids, vec![4]);
}

#[test]
fn diglot_respects_word_boundaries() {
    let mut s = bare_sentence("a");
    s.sim_e_original = "concatenate the cat".to_string();
    s.diglot_map_numerical = vec![NumericalDiglotSegmentMap {
        segment_id_str: "S1".to_string(),
        entries: vec![NumericalDiglotEntry {
            eng_word_original: "cat".to_string(),
            spa_lemma_id: 4,
            exact_spa_form_original: "gato".to_string(),
            viable: true,
        }],
    }];
    let p = profile_with(&[(4, LemmaState::Known)]);
    let r = render_sentence(&s, &p);
    assert_eq!(r.text, "concatenate the gato");
}

#[test]
fn diglot_skips_nonviable_and_unknown_entries() {
    let mut s = bare_sentence("a");
    s.sim_e_original = "big dog runs".to_string();
    s.diglot_map_numerical = vec![NumericalDiglotSegmentMap {
        segment_id_str: "S1".to_string(),
        entries: vec![
            NumericalDiglotEntry {
                eng_word_original: "big".to_string(),
                spa_lemma_id: 1,
                exact_spa_form_original: "gran".to_string(),
                viable: false,
            },
            NumericalDiglotEntry {
                eng_word_original: "dog".to_string(),
                spa_lemma_id: 2,
                exact_spa_form_original: "perro".to_string(),
                viable: true,
            },
            NumericalDiglotEntry {
                eng_word_original: "runs".to_string(),
                spa_lemma_id: 3,
                exact_spa_form_original: "corre".to_string(),
                viable: true,
            },
        ],
    }];
    let p = profile_with(&[(1, LemmaState::Known), (2, LemmaState::Active)]);
    let r = render_sentence(&s, &p);
    assert_eq!(r.level, RenderLevel::Diglot);
    assert_eq!(r.text, "big perro runs");
    assert_eq!(r.lemma_ids, vec![2]);
}

#[test]
fn diglot_deduplicates_and_sorts_ids() {
    let mut s = bare_sentence("a");
    s.sim_e_original = "good day good night".to_string();
    let entry = |word: &str, id: u32, form: &str| NumericalDiglotEntry {
        eng_word_original: word.to_string(),
        spa_lemma_id: id,
        exact_spa_form_original: form.to_string(),
        viable: true,
    };
    s.diglot_map_numerical = vec![
        NumericalDiglotSegmentMap {
            segment_id_str: "S1".to_string(),
            entries: vec![entry("good", 9, "buen")],
        },
        NumericalDiglotSegmentMap {
            segment_id_str: "S2".to_string(),
            entries: vec![entry("good", 9, "buen")],
        },
        NumericalDiglotSegmentMap {
            segment_id_str: "S3".to_string(),
            entries: vec![entry("night", 2, "noche")],
        },
    ];
    let p = profile_with(&[(9, LemmaState::Active), (2, LemmaState::Active)]);
    let r = render_sentence(&s, &p);
    assert_eq!(r.level, RenderLevel::Diglot);
    assert_eq!(r.lemma_ids, vec![2, 9]);
    assert_eq!(r.text, "buen day buen noche");
}

#[test]
fn fallback_keeps_base_text() {
    let mut s = bare_sentence("a");
    s.sim_e_original = "just english".to_string();
    let p = NumericalLearnerProfile::new();
    let r = render_sentence(&s, &p);
    assert_eq!(r.level, RenderLevel::Fallback);
    assert_eq!(r.text, "just english");
    assert!(r.lemma_ids.is_empty());
}

#[test]
fn id_pass_and_text_pass_agree() {
    let mut s = bare_sentence("a");
    s.adv_s_original = "texto avanzado".to_string();
    s.adv_s_lemma_ids = vec![0];
    s.sim_e_original = "plain".to_string();
    let p = profile_with(&[(0, LemmaState::Known)]);
    let ids = determine_sentence_output_lemma_ids(&s, &p);
    let r = render_sentence(&s, &p);
    assert_eq!(ids, r.lemma_ids);
    let block = vec![s];
    let text = generate_final_text_block(&block, &p);
    assert_eq!(text, r.text);
}

#[test]
fn block_text_joins_with_blank_lines() {
    let mut a = bare_sentence("a");
    a.sim_e_original = "first".to_string();
    let mut b = bare_sentence("b");
    b.sim_e_original = "second".to_string();
    let p = NumericalLearnerProfile::new();
    let block = vec![a, b];
    let text = generate_final_text_block(&block, &p);
    assert_eq!(text, "first\n\nsecond");
}
