//! The id-keyed learner profile and the numerical sentence data model.
//!
//! Once a chapter has been interned, every lemma is a dense integer id;
//! the profile maps ids to acquisition records, with an absent id implicitly
//! `New`, and the sentence structures carry the per-sentence rendering
//! inputs with lemma lists resolved to ids.

use vstd::prelude::*;

use crate::vocab::LearnerLemmaInfo;
use crate::vocab::LemmaState;
use crate::vocab::bumped;
use crate::vocab::advanced;
use crate::vocab::comprehended;
use crate::vocab::count_in_state;
use crate::vocab::distinct_keys;
use crate::vocab::expose_one;
use crate::vocab::expose_seq;
use crate::vocab::force_state;
use crate::vocab::has_key;
use crate::vocab::lemma_expose_one;
use crate::vocab::lemma_find_idx_unique;
use crate::vocab::lemma_force_state;
use crate::vocab::lemma_rec_count_le_sum;
use crate::vocab::lemma_sum_take_le;
use crate::vocab::rec_of;
use crate::vocab::set_rec;
use crate::vocab::state_le;
use crate::vocab::state_of;
use crate::vocab::sum_exposures;
use crate::vocab::thresholds_positive;
use crate::vocab::vocab_wf;

verus! {

/// Learner profile keyed by dictionary ids. An id that is not tracked is
/// implicitly `New` with no exposures.
#[derive(Debug, Clone)]
pub struct NumericalLearnerProfile {
    vocabulary: Vec<(u32, LearnerLemmaInfo)>,
}

impl View for NumericalLearnerProfile {
    type V = Seq<(u32, LearnerLemmaInfo)>;

    closed spec fn view(&self) -> Seq<(u32, LearnerLemmaInfo)> {
        self.vocabulary@
    }
}

impl NumericalLearnerProfile {
    /// Internal invariant: distinct ids, positive thresholds, and a total
    /// exposure count that fits the counter type.
    pub open spec fn wf(&self) -> bool {
        vocab_wf(self@)
    }

    /// An empty profile: every lemma is implicitly `New`.
    pub fn new() -> (r: Self)
        ensures
            r@ =~= Seq::<(u32, LearnerLemmaInfo)>::empty(),
            r.wf(),
    {
        NumericalLearnerProfile { vocabulary: Vec::new() }
    }

    /// Index of the entry tracking `lemma_id`, if there is one.
    fn find_entry(&self, lemma_id: u32) -> (r: Option<usize>)
        ensures
            r matches Some(i) ==> i < self@.len() && self@[i as int].0 == lemma_id,
            r is None ==> !has_key(self@, lemma_id),
    {
        let n = self.vocabulary.len();
        let mut i: usize = 0;
        while i < n
            invariant
                i <= n,
                n == self@.len(),
                forall|j: int| 0 <= j < i ==> (#[trigger] self@[j]).0 != lemma_id,
            decreases n - i,
        {
            if self.vocabulary[i].0 == lemma_id {
                return Some(i);
            }
            i += 1;
        }
        None
    }

    /// The record tracked for `lemma_id`, or `None` if the id is untracked.
    pub fn get_lemma_info(&self, lemma_id: u32) -> (r: Option<&LearnerLemmaInfo>)
        requires
            self.wf(),
        ensures
            r is Some <==> has_key(self@, lemma_id),
            r matches Some(info) ==> *info == rec_of(self@, lemma_id),
    {
        match self.find_entry(lemma_id) {
            Some(i) => {
                proof {
                    lemma_find_idx_unique(self@, lemma_id, i as int);
                }
                Some(&self.vocabulary[i].1)
            },
            None => None,
        }
    }

    /// Mutable access to the record for `lemma_id`, tracking the id with
    /// its default record first when absent.
    pub fn get_lemma_info_mut(&mut self, lemma_id: u32) -> (info: &mut LearnerLemmaInfo)
        requires
            old(self).wf(),
        ensures
            *info == rec_of(old(self)@, lemma_id),
            final(self)@ == set_rec(old(self)@, lemma_id, *final(info)),
    {
        let idx = match self.find_entry(lemma_id) {
            Some(i) => {
                proof {
                    lemma_find_idx_unique(self@, lemma_id, i as int);
                }
                i
            },
            None => {
                let n = self.vocabulary.len();
                self.vocabulary.push((lemma_id, LearnerLemmaInfo::default()));
                proof {
                    lemma_find_idx_unique(self@, lemma_id, n as int);
                }
                n
            },
        };
        let ghost pre = self@;
        let r = &mut self.vocabulary[idx].1;
        proof {
            assert(set_rec(old(self)@, lemma_id, *final(r)) =~= pre.update(
                idx as int,
                (lemma_id, *final(r)),
            ));
        }
        r
    }

    /// The lemma is `Known` or `Active`; an untracked id is neither.
    pub fn is_lemma_known_or_active(&self, lemma_id: u32) -> (r: bool)
        requires
            self.wf(),
        ensures
            r == comprehended(self@, lemma_id, false),
    {
        match self.get_lemma_info(lemma_id) {
            Some(info) => info.state == LemmaState::Known || info.state == LemmaState::Active,
            None => false,
        }
    }

    /// The lemma is comprehended: `Known`, or also `Active` when
    /// `require_known_only` is false. An untracked id never is.
    pub fn is_lemma_comprehended(&self, lemma_id: u32, require_known_only: bool) -> (r: bool)
        requires
            self.wf(),
        ensures
            r == comprehended(self@, lemma_id, require_known_only),
    {
        match self.get_lemma_info(lemma_id) {
            Some(info) => {
                if require_known_only {
                    info.state == LemmaState::Known
                } else {
                    info.state == LemmaState::Known || info.state == LemmaState::Active
                }
            },
            None => false,
        }
    }

    /// Record one exposure of every id in `lemma_ids`, in order: each
    /// exposure raises that id's count by one, takes a `New` lemma to
    /// `Active`, and takes an `Active` lemma whose count has reached its
    /// threshold to `Known`. No state ever moves backward.
    pub fn record_exposures(&mut self, lemma_ids: &[u32])
        requires
            old(self).wf(),
            sum_exposures(old(self)@) + lemma_ids@.len() <= u32::MAX,
        ensures
            final(self).wf(),
            final(self)@ == expose_seq(old(self)@, lemma_ids@),
            sum_exposures(final(self)@) == sum_exposures(old(self)@) + lemma_ids@.len(),
            forall|id: u32| state_le(state_of(old(self)@, id), state_of(final(self)@, id)),
    {
        let n = lemma_ids.len();
        let mut i: usize = 0;
        while i < n
            invariant
                i <= n,
                n == lemma_ids@.len(),
                old(self).wf(),
                sum_exposures(old(self)@) + n <= u32::MAX,
                self@ == expose_seq(old(self)@, lemma_ids@.take(i as int)),
                distinct_keys(self@),
                thresholds_positive(self@),
                sum_exposures(self@) == sum_exposures(old(self)@) + i,
            decreases n - i,
        {
            let id = lemma_ids[i];
            proof {
                lemma_rec_count_le_sum(self@, id);
            }
            let cur = match self.find_entry(id) {
                Some(j) => {
                    proof {
                        lemma_find_idx_unique(self@, id, j as int);
                    }
                    Some((j, self.vocabulary[j].1))
                },
                None => None,
            };
            let ghost pre = self@;
            match cur {
                Some((j, r)) => {
                    let nr = bump_record(r);
                    self.vocabulary[j] = (id, nr);
                },
                None => {
                    let nr = bump_record(LearnerLemmaInfo::default());
                    self.vocabulary.push((id, nr));
                },
            }
            proof {
                lemma_expose_one(pre, id);
                assert(self@ =~= expose_one(pre, id));
                assert(lemma_ids@.take(i + 1).drop_last() =~= lemma_ids@.take(i as int));
                assert(lemma_ids@.take(i + 1).last() == lemma_ids@[i as int]);
            }
            i += 1;
        }
        proof {
            assert(lemma_ids@.take(n as int) =~= lemma_ids@);
            assert forall|id: u32| state_le(state_of(old(self)@, id), state_of(self@, id)) by {
                crate::vocab::lemma_expose_seq_monotone(old(self)@, lemma_ids@, id);
            }
        }
    }

    /// Advance the state of `lemma_id` to `new_state` if that is a step
    /// forward in the `New < Active < Known` progression; otherwise leave
    /// the record alone. Never demotes a lemma.
    pub fn set_lemma_state(&mut self, lemma_id: u32, new_state: LemmaState)
        requires
            old(self).wf(),
        ensures
            final(self).wf(),
            final(self)@ == force_state(old(self)@, lemma_id, new_state),
            state_of(final(self)@, lemma_id) == advanced(
                rec_of(old(self)@, lemma_id),
                new_state,
            ).state,
            forall|id: u32| state_le(state_of(old(self)@, id), state_of(final(self)@, id)),
            sum_exposures(final(self)@) == sum_exposures(old(self)@),
    {
        let ghost pre = self@;
        let info = self.get_lemma_info_mut(lemma_id);
        if info.state.rank_exec() < new_state.rank_exec() {
            info.state = new_state;
        }
        proof {
            lemma_force_state(pre, lemma_id, new_state);
            assert forall|id: u32| state_le(state_of(pre, id), state_of(self@, id)) by {
                if id == lemma_id {
                    crate::vocab::lemma_advanced_monotone(rec_of(pre, id), new_state);
                }
            }
        }
    }

    /// Number of tracked lemmas whose state is exactly `Known`.
    pub fn count_known(&self) -> (r: usize)
        ensures
            r as int == count_in_state(self@, LemmaState::Known),
    {
        self.count_state(LemmaState::Known)
    }

    /// Number of tracked lemmas whose state is exactly `Active`.
    pub fn count_active_only(&self) -> (r: usize)
        ensures
            r as int == count_in_state(self@, LemmaState::Active),
    {
        self.count_state(LemmaState::Active)
    }

    /// Number of tracked lemmas that are `Known` or `Active`.
    pub fn count_total_known_or_active(&self) -> (r: usize)
        ensures
            r as int == count_in_state(self@, LemmaState::Known) + count_in_state(
                self@,
                LemmaState::Active,
            ),
    {
        let n = self.vocabulary.len();
        let mut i: usize = 0;
        let mut acc: usize = 0;
        while i < n
            invariant
                i <= n,
                n == self@.len(),
                acc <= i,
                acc as int == count_in_state(self@.take(i as int), LemmaState::Known)
                    + count_in_state(self@.take(i as int), LemmaState::Active),
            decreases n - i,
        {
            let st = self.vocabulary[i].1.state;
            proof {
                assert(self@.take(i + 1).drop_last() =~= self@.take(i as int));
                assert(self@.take(i + 1).last() == self@[i as int]);
                lemma_count_take_le(self@, i as int, LemmaState::Known);
                lemma_count_take_le(self@, i as int, LemmaState::Active);
            }
            if st == LemmaState::Known || st == LemmaState::Active {
                acc += 1;
            }
            i += 1;
        }
        proof {
            assert(self@.take(n as int) =~= self@);
        }
        acc
    }

    /// Number of distinct lemma ids the profile tracks.
    pub fn vocabulary_size(&self) -> (r: usize)
        ensures
            r == self@.len(),
    {
        self.vocabulary.len()
    }

    /// Sum of the exposure counts over all tracked lemmas.
    pub fn total_exposure_count(&self) -> (r: u32)
        requires
            self.wf(),
        ensures
            r as int == sum_exposures(self@),
    {
        let n = self.vocabulary.len();
        let mut i: usize = 0;
        let mut acc: u32 = 0;
        while i < n
            invariant
                i <= n,
                n == self@.len(),
                self.wf(),
                acc as int == sum_exposures(self@.take(i as int)),
            decreases n - i,
        {
            proof {
                assert(self@.take(i + 1).drop_last() =~= self@.take(i as int));
                assert(self@.take(i + 1).last() == self@[i as int]);
                lemma_sum_take_le(self@, i + 1);
            }
            acc = acc + self.vocabulary[i].1.exposure_count;
            i += 1;
        }
        proof {
            assert(self@.take(n as int) =~= self@);
        }
        acc
    }

    /// A structural copy with the same tracked records, for the
    /// calibrator's copy-on-probe discipline.
    pub fn clone_profile(&self) -> (r: Self)
        ensures
            r@ == self@,
    {
        let n = self.vocabulary.len();
        let mut v: Vec<(u32, LearnerLemmaInfo)> = Vec::new();
        let mut i: usize = 0;
        while i < n
            invariant
                i <= n,
                n == self@.len(),
                v@ == self@.take(i as int),
            decreases n - i,
        {
            v.push(self.vocabulary[i]);
            proof {
                assert(self@.take(i + 1) =~= self@.take(i as int).push(self@[i as int]));
            }
            i += 1;
        }
        proof {
            assert(self@.take(n as int) =~= self@);
        }
        NumericalLearnerProfile { vocabulary: v }
    }

    /// The tracked records as plain pairs, in tracking order, for
    /// persistence outside the library.
    pub fn to_records(&self) -> (r: Vec<(u32, LearnerLemmaInfo)>)
        ensures
            r@ == self@,
    {
        self.clone_profile().vocabulary
    }

    /// Shared counting loop for a single state.
    fn count_state(&self, st: LemmaState) -> (r: usize)
        ensures
            r as int == count_in_state(self@, st),
    {
        let n = self.vocabulary.len();
        let mut i: usize = 0;
        let mut acc: usize = 0;
        while i < n
            invariant
                i <= n,
                n == self@.len(),
                acc <= i,
                acc as int == count_in_state(self@.take(i as int), st),
            decreases n - i,
        {
            proof {
                assert(self@.take(i + 1).drop_last() =~= self@.take(i as int));
                assert(self@.take(i + 1).last() == self@[i as int]);
            }
            if self.vocabulary[i].1.state == st {
                acc += 1;
            }
            i += 1;
        }
        proof {
            assert(self@.take(n as int) =~= self@);
        }
        acc
    }
}

/// One segment of a sentence's simple target-language rendering.
#[derive(Debug, Clone)]
pub struct NumericalSegmentData {
    pub id_str: String,
    pub text_original: String,
}

/// Base-language equivalent span for one segment, used when the segment's
/// own lemmas are not yet comprehensible.
#[derive(Debug, Clone)]
pub struct NumericalPhraseAlignment {
    pub segment_id_str: String,
    pub adv_s_span_original: String,
    pub sim_e_span_original: String,
}

/// The tracked lemma ids of one segment.
#[derive(Debug, Clone)]
pub struct NumericalSegmentLemmas {
    pub segment_id_str: String,
    pub lemma_ids: Vec<u32>,
}

/// One word-substitution candidate: a base-language word, the id of the
/// target lemma it teaches, and the exact surface form to put in its place.
#[derive(Debug, Clone)]
pub struct NumericalDiglotEntry {
    pub eng_word_original: String,
    pub spa_lemma_id: u32,
    pub exact_spa_form_original: String,
    pub viable: bool,
}

/// The substitution candidates contributed by one segment.
#[derive(Debug, Clone)]
pub struct NumericalDiglotSegmentMap {
    pub segment_id_str: String,
    pub entries: Vec<NumericalDiglotEntry>,
}

/// One sentence with all five candidate renderings, lemma lists resolved
/// to dictionary ids. Produced by the preprocessor; read-only afterwards.
#[derive(Debug, Clone)]
pub struct NumericalProcessedSentence {
    pub sentence_id_str: String,
    pub adv_s_original: String,
    pub sim_s_original: String,
    pub sim_e_original: String,
    pub sim_s_segments_numerical: Vec<NumericalSegmentData>,
    pub phrase_alignments_numerical: Vec<NumericalPhraseAlignment>,
    pub sim_s_lemmas_numerical: Vec<NumericalSegmentLemmas>,
    pub adv_s_lemma_ids: Vec<u32>,
    pub diglot_map_numerical: Vec<NumericalDiglotSegmentMap>,
    pub locked_phrase_segment_id_strs: Option<Vec<String>>,
}

/// A chapter after interning: the unit the orchestrator splits into blocks.
#[derive(Debug, Clone)]
pub struct NumericalChapter {
    pub source_file_name_original: String,
    pub sentences_numerical: Vec<NumericalProcessedSentence>,
}

/// Partial counts never exceed full counts.
proof fn lemma_count_take_le<K>(s: Seq<(K, LearnerLemmaInfo)>, i: int, st: LemmaState)
    requires
        0 <= i <= s.len(),
    ensures
        count_in_state(s.take(i), st) >= 0,
        count_in_state(s.take(i), st) <= i,
    decreases i,
{
    if i > 0 {
        lemma_count_take_le(s, i - 1, st);
        assert(s.take(i).drop_last() =~= s.take(i - 1));
    }
}

impl LemmaState {
    /// Executable twin of `rank`.
    pub fn rank_exec(self) -> (r: u8)
        ensures
            r as int == self.rank(),
    {
        match self {
            LemmaState::New => 0,
            LemmaState::Active => 1,
            LemmaState::Known => 2,
        }
    }
}

/// Executable twin of `bumped`.
fn bump_record(r: LearnerLemmaInfo) -> (r2: LearnerLemmaInfo)
    requires
        r.exposure_count < u32::MAX,
    ensures
        r2 == bumped(r),
{
    let c = r.exposure_count + 1;
    let s1 = if r.state == LemmaState::New {
        LemmaState::Active
    } else {
        r.state
    };
    let s2 = if s1 == LemmaState::Active && c >= r.required_exposure_threshold {
        LemmaState::Known
    } else {
        s1
    };
    LearnerLemmaInfo { state: s2, exposure_count: c, required_exposure_threshold: r.required_exposure_threshold }
}

} // verus!
