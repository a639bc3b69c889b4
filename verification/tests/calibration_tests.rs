use weavelang::core_algo::run_simulation_numerical;
use weavelang::corpus_generator::{gather_block_candidates, rank_new_lemmas};
use weavelang::numerical_types::{
    NumericalLearnerProfile, NumericalProcessedSentence, NumericalSegmentLemmas,
};
use weavelang::vocab::LemmaState;

fn bare_sentence(id: &str) -> NumericalProcessedSentence {
    NumericalProcessedSentence {
        sentence_id_str: id.to_string(),
        adv_s_original: String::new(),
        sim_s_original: String::new(),
        sim_e_original: String::new(),
        sim_s_segments_numerical: Vec::new(),
        phrase_alignments_numerical: Vec::new(),
        sim_s_lemmas_numerical: Vec::new(),
        adv_s_lemma_ids: Vec::new(),
        diglot_map_numerical: Vec::new(),
        locked_phrase_segment_id_strs: None,
    }
}

fn simple_sentence(id: &str, text: &str, lemma: u32) -> NumericalProcessedSentence {
    let mut s = bare_sentence(id);
    s.sim_s_original = text.to_string();
    s.sim_e_original = "base".to_string();
    s.sim_s_lemmas_numerical = vec![NumericalSegmentLemmas {
        segment_id_str: "S1".to_string(),
        lemma_ids: vec![lemma],
    }];
    s
}

fn profile_with(states: &[(u32, LemmaState)]) -> NumericalLearnerProfile {
    let mut p = NumericalLearnerProfile::new();
    for &(id, st) in states {
        let info = p.get_lemma_info_mut(id);
        info.state = st;
    }
    p
}

#[test]
fn ct_is_known_over_total() {
    // Three sentences, one id each: two Known, one Active. CT must come
    // out as 2/3 of the used ids.
    let block = vec![
        simple_sentence("a", "uno", 0),
        simple_sentence("b", "dos", 1),
        simple_sentence("c", "tres", 2),
    ];
    let p = profile_with(&[
        (0, LemmaState::Known),
        (1, LemmaState::Known),
        (2, LemmaState::Active),
    ]);
    let res = run_simulation_numerical(&block, p, &Vec::new(), 1, 9, 10, 1);
    assert_eq!(res.total_spanish_lemmas_in_block, 3);
    assert_eq!(res.known_lemmas_in_block, 2);
    assert_eq!(res.attempts_used, 1);
}

#[test]
fn zero_ids_give_zero_counts() {
    let block = vec![bare_sentence("a")];
    let p = NumericalLearnerProfile::new();
    let res = run_simulation_numerical(&block, p, &Vec::new(), 3, 9, 10, 1);
    assert_eq!(res.total_spanish_lemmas_in_block, 0);
    assert_eq!(res.known_lemmas_in_block, 0);
    // No candidates to activate, so the very first attempt finalizes.
    assert_eq!(res.attempts_used, 1);
}

#[test]
fn one_attempt_always_finalizes() {
    // Too easy (everything Known, ratio 1.0 over target), but R = 1
    // forces finalization on the first pass.
    let block = vec![simple_sentence("a", "uno", 0)];
    let p = profile_with(&[(0, LemmaState::Known)]);
    let avail = vec![(5u32, 3u32)];
    let res = run_simulation_numerical(&block, p, &avail, 1, 9, 10, 2);
    assert_eq!(res.attempts_used, 1);
    assert_eq!(res.total_spanish_lemmas_in_block, 1);
    assert_eq!(res.known_lemmas_in_block, 1);
}

#[test]
fn activation_caps_at_k_highest_ranked() {
    // A block with no renderable ids keeps triggering activation; with
    // K = 2 and five eligible New lemmas, exactly the two highest-ranked
    // are activated per attempt.
    let block = vec![bare_sentence("a")];
    let p = NumericalLearnerProfile::new();
    let avail = vec![(10u32, 5u32), (11, 4), (12, 3), (13, 2), (14, 1)];
    let res = run_simulation_numerical(&block, p, &avail, 2, 9, 10, 2);
    assert_eq!(res.attempts_used, 2);
    let final_p = &res.profile_state_for_text_generation;
    assert_eq!(final_p.get_lemma_info(10).unwrap().state, LemmaState::Active);
    assert_eq!(final_p.get_lemma_info(11).unwrap().state, LemmaState::Active);
    assert!(final_p.get_lemma_info(12).is_none());
    assert!(final_p.get_lemma_info(13).is_none());
    assert!(final_p.get_lemma_info(14).is_none());
}

#[test]
fn exposures_are_recorded_after_finalization() {
    let block = vec![simple_sentence("a", "uno", 0)];
    let p = profile_with(&[(0, LemmaState::Active)]);
    let res = run_simulation_numerical(&block, p, &Vec::new(), 1, 9, 10, 1);
    // The rendering profile is untouched; the carried profile has the
    // exposure.
    assert_eq!(
        res.profile_state_for_text_generation.get_lemma_info(0).unwrap().exposure_count,
        0
    );
    assert_eq!(
        res.profile_state_after_block_exposure.get_lemma_info(0).unwrap().exposure_count,
        1
    );
    assert_eq!(res.output_lemma_ids_for_block, vec![0]);
}

#[test]
fn ranking_orders_by_frequency_then_id() {
    let p = NumericalLearnerProfile::new();
    let cands = vec![7u32, 8, 7, 9, 8, 7];
    let ranked = rank_new_lemmas(&cands, &p);
    assert_eq!(ranked, vec![(7, 3), (8, 2), (9, 1)]);
    let tie = vec![6u32, 5, 6, 5];
    let ranked_tie = rank_new_lemmas(&tie, &p);
    assert_eq!(ranked_tie, vec![(5, 2), (6, 2)]);
}

#[test]
fn ranking_skips_non_new_lemmas() {
    let p = profile_with(&[(7, LemmaState::Known), (8, LemmaState::Active)]);
    let cands = vec![7u32, 8, 9, 9];
    let ranked = rank_new_lemmas(&cands, &p);
    assert_eq!(ranked, vec![(9, 2)]);
}

#[test]
fn candidates_gather_all_teachable_ids() {
    let mut s = simple_sentence("a", "uno", 3);
    s.adv_s_lemma_ids = vec![1, 2];
    s.diglot_map_numerical = vec![weavelang::numerical_types::NumericalDiglotSegmentMap {
        segment_id_str: "S1".to_string(),
        entries: vec![
            weavelang::numerical_types::NumericalDiglotEntry {
                eng_word_original: "w".to_string(),
                spa_lemma_id: 4,
                exact_spa_form_original: "f".to_string(),
                viable: true,
            },
            weavelang::numerical_types::NumericalDiglotEntry {
                eng_word_original: "x".to_string(),
                spa_lemma_id: 5,
                exact_spa_form_original: "g".to_string(),
                viable: false,
            },
        ],
    }];
    let block = vec![s];
    let cands = gather_block_candidates(&block);
    assert_eq!(cands, vec![1, 2, 3, 4]);
}

#[test]
fn end_to_end_two_sentence_block() {
    // Sentence A renders at the advanced level (both lemmas Known) and
    // contributes two Known ids; sentence B is disqualified from the
    // simple level by a New lemma and falls back to its base text. The
    // first pass is too easy (2/2 over a 0.9 target), so the New lemma
    // is activated; the second pass renders B at the simple level,
    // yielding 2 Known of 3 used, below target, and finalizes.
    let mut a = bare_sentence("a");
    a.adv_s_original = "frase avanzada".to_string();
    a.adv_s_lemma_ids = vec![0, 1];
    a.sim_e_original = "plain a".to_string();
    let mut b = bare_sentence("b");
    b.sim_s_original = "hola c".to_string();
    b.sim_e_original = "plain b".to_string();
    b.sim_s_lemmas_numerical = vec![NumericalSegmentLemmas {
        segment_id_str: "S1".to_string(),
        lemma_ids: vec![2],
    }];
    let block = vec![a, b];
    let p = profile_with(&[(0, LemmaState::Known), (1, LemmaState::Known)]);
    let avail = vec![(2u32, 1u32)];
    let res = run_simulation_numerical(&block, p, &avail, 3, 9, 10, 1);
    assert_eq!(res.attempts_used, 2);
    assert_eq!(res.total_spanish_lemmas_in_block, 3);
    assert_eq!(res.known_lemmas_in_block, 2);
    assert_eq!(res.output_lemma_ids_for_block, vec![0, 1, 2]);
    let text = weavelang::text_generator::generate_final_text_block(
        &block,
        &res.profile_state_for_text_generation,
    );
    assert_eq!(text, "frase avanzada\n\nhola c");
}
