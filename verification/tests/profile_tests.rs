use weavelang::numerical_types::NumericalLearnerProfile;
use weavelang::profile::LearnerProfile;
use weavelang::vocab::{LemmaState, DEFAULT_EXPOSURE_THRESHOLD};

#[test]
fn exposure_activates_new_lemma() {
    let mut p = NumericalLearnerProfile::new();
    p.record_exposures(&[5]);
    let info = p.get_lemma_info(5).unwrap();
    assert_eq!(info.state, LemmaState::Active);
    assert_eq!(info.exposure_count, 1);
    assert_eq!(info.required_exposure_threshold, DEFAULT_EXPOSURE_THRESHOLD);
}

#[test]
fn exposure_reaches_known_at_threshold() {
    let mut p = NumericalLearnerProfile::new();
    let ids = [7u32; 19];
    p.record_exposures(&ids);
    assert_eq!(p.get_lemma_info(7).unwrap().state, LemmaState::Active);
    p.record_exposures(&[7]);
    let info = p.get_lemma_info(7).unwrap();
    assert_eq!(info.state, LemmaState::Known);
    assert_eq!(info.exposure_count, 20);
}

#[test]
fn forced_activation_never_demotes() {
    let mut p = NumericalLearnerProfile::new();
    p.set_lemma_state(3, LemmaState::Active);
    assert_eq!(p.get_lemma_info(3).unwrap().state, LemmaState::Active);
    p.set_lemma_state(3, LemmaState::New);
    assert_eq!(p.get_lemma_info(3).unwrap().state, LemmaState::Active);
    {
        let info = p.get_lemma_info_mut(3);
        info.state = LemmaState::Known;
    }
    p.set_lemma_state(3, LemmaState::Active);
    assert_eq!(p.get_lemma_info(3).unwrap().state, LemmaState::Known);
}

#[test]
fn states_never_regress_under_mixed_calls() {
    let mut p = NumericalLearnerProfile::new();
    let mut seen: Vec<LemmaState> = Vec::new();
    let rank = |s: LemmaState| match s {
        LemmaState::New => 0,
        LemmaState::Active => 1,
        LemmaState::Known => 2,
    };
    for step in 0..30 {
        if step % 3 == 0 {
            p.set_lemma_state(1, LemmaState::Active);
        } else {
            p.record_exposures(&[1, 1]);
        }
        let state = p.get_lemma_info(1).unwrap().state;
        if let Some(&prev) = seen.last() {
            assert!(rank(prev) <= rank(state));
        }
        seen.push(state);
    }
    assert_eq!(*seen.last().unwrap(), LemmaState::Known);
}

#[test]
fn absent_lemma_is_not_comprehended() {
    let p = NumericalLearnerProfile::new();
    assert!(!p.is_lemma_known_or_active(42));
    assert!(!p.is_lemma_comprehended(42, false));
    assert!(!p.is_lemma_comprehended(42, true));
    assert!(p.get_lemma_info(42).is_none());
}

#[test]
fn known_only_comprehension_excludes_active() {
    let mut p = NumericalLearnerProfile::new();
    p.set_lemma_state(1, LemmaState::Active);
    assert!(p.is_lemma_comprehended(1, false));
    assert!(!p.is_lemma_comprehended(1, true));
    {
        let info = p.get_lemma_info_mut(1);
        info.state = LemmaState::Known;
    }
    assert!(p.is_lemma_comprehended(1, true));
}

#[test]
fn counts_track_states() {
    let mut p = NumericalLearnerProfile::new();
    p.set_lemma_state(0, LemmaState::Active);
    p.set_lemma_state(1, LemmaState::Active);
    {
        let info = p.get_lemma_info_mut(2);
        info.state = LemmaState::Known;
    }
    p.record_exposures(&[0, 1, 3]);
    assert_eq!(p.count_known(), 1);
    assert_eq!(p.count_active_only(), 3);
    assert_eq!(p.count_total_known_or_active(), 4);
    assert_eq!(p.vocabulary_size(), 4);
    assert_eq!(p.total_exposure_count(), 3);
}

#[test]
fn clone_profile_is_structural() {
    let mut p = NumericalLearnerProfile::new();
    p.record_exposures(&[1, 2, 2]);
    let q = p.clone_profile();
    assert_eq!(q.count_active_only(), 2);
    assert_eq!(q.total_exposure_count(), 3);
    p.record_exposures(&[3]);
    assert_eq!(q.vocabulary_size(), 2);
    assert_eq!(p.vocabulary_size(), 3);
}

#[test]
fn string_profile_keys_are_lowercased() {
    let mut p = LearnerProfile::new();
    p.record_exposures(&["Casa".to_string()]);
    assert!(p.get_lemma_info("cASA").is_some());
    assert_eq!(p.get_lemma_info("casa").unwrap().state, LemmaState::Active);
    assert_eq!(p.vocabulary_size(), 1);
}

#[test]
fn string_profile_skips_blank_lemmas() {
    let mut p = LearnerProfile::new();
    p.record_exposures(&["   ".to_string(), "".to_string()]);
    assert_eq!(p.vocabulary_size(), 0);
    assert_eq!(p.total_exposure_count(), 0);
}

#[test]
fn string_profile_reaches_known() {
    let mut p = LearnerProfile::new();
    for _ in 0..20 {
        p.record_exposures(&["sol".to_string()]);
    }
    assert_eq!(p.get_lemma_info("SOL").unwrap().state, LemmaState::Known);
    assert!(p.is_lemma_known_or_active("sol"));
    assert_eq!(p.count_known(), 1);
    assert_eq!(p.count_active_only(), 0);
    assert_eq!(p.count_total_known_or_active(), 1);
}
