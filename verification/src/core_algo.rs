//! The block calibrator.
//!
//! A block of sentences is rendered repeatedly against a working profile.
//! After each pass the achieved comprehension ratio (`Known` ids over all
//! ids the block used) is compared with the target: a pass that is hard
//! enough, the last permitted pass, or a pass with nothing left to teach
//! is finalized; otherwise up to `K` of the ranked still-`New` lemmas are
//! activated and the block is rendered again. The loop provably returns
//! within the permitted number of attempts, and the finalized outcome is
//! pinned to a recursive model of exactly this search.

use vstd::prelude::*;

use crate::numerical_types::NumericalLearnerProfile;
use crate::numerical_types::NumericalProcessedSentence;
use crate::render::RenderedSentence;
use crate::render::append_ids;
use crate::render::find_seg_lemmas;
use crate::render::insert_sorted;
use crate::render::l3_weave;
use crate::render::l4_scan;
use crate::render::render_sentence;
use crate::render::seg_lemma_ids;
use crate::render::sentence_ids;
use crate::render::sort_dedup;
use crate::vocab::LearnerLemmaInfo;
use crate::vocab::LemmaState;
use crate::vocab::distinct_keys;
use crate::vocab::expose_seq;
use crate::vocab::force_state;
use crate::vocab::lemma_advanced_monotone;
use crate::vocab::lemma_force_state;
use crate::vocab::state_le;
use crate::vocab::state_of;
use crate::vocab::sum_exposures;
use crate::vocab::thresholds_positive;

verus! {

/// One diagnostic event of a calibration run.
#[derive(Debug, Clone, Copy, PartialEq, Eq, Structural)]
pub enum SimulationLogEntry {
    /// A rendering pass was measured: its attempt number, the `Known` ids
    /// it used, and all ids it used.
    AttemptMeasured { attempt: u32, known: usize, total: usize },
    /// A ranked lemma was activated for the next attempt.
    LemmaActivated { lemma_id: u32 },
    /// The run finalized on this attempt.
    Finalized { attempt: u32 },
}

/// Per-block outcome of one calibration run.
#[derive(Debug, Clone)]
pub struct SimulationBlockResult {
    /// The working profile of the finalized attempt; text emission must
    /// render against exactly this profile.
    pub profile_state_for_text_generation: NumericalLearnerProfile,
    /// The finalized profile with the block's exposures recorded: what the
    /// next block starts from.
    pub profile_state_after_block_exposure: NumericalLearnerProfile,
    /// Every lemma id the finalized rendering used, sentence by sentence.
    pub output_lemma_ids_for_block: Vec<u32>,
    /// Diagnostic trace of the run.
    pub simulation_log_entries: Vec<SimulationLogEntry>,
    /// Number of rendering passes the run took.
    pub attempts_used: u32,
    /// How many of the used ids were `Known` under the rendering profile.
    pub known_lemmas_in_block: usize,
    /// How many ids the block used in all.
    pub total_spanish_lemmas_in_block: usize,
}

/// The ids of a ranked activation list, in rank order.
pub open spec fn ranked_ids(available: Seq<(u32, u32)>) -> Seq<u32> {
    available.map_values(|p: (u32, u32)| p.0)
}

/// All lemma ids a block of sentences uses under profile `p`, in sentence
/// order.
pub open spec fn block_ids(
    sents: Seq<NumericalProcessedSentence>,
    p: Seq<(u32, LearnerLemmaInfo)>,
) -> Seq<u32>
    decreases sents.len(),
{
    if sents.len() == 0 {
        Seq::empty()
    } else {
        block_ids(sents.drop_last(), p) + sentence_ids(sents.last(), p)
    }
}

/// How many of `ids` are `Known` under `p`.
pub open spec fn known_count(p: Seq<(u32, LearnerLemmaInfo)>, ids: Seq<u32>) -> int
    decreases ids.len(),
{
    if ids.len() == 0 {
        0
    } else {
        known_count(p, ids.drop_last()) + if state_of(p, ids.last()) == LemmaState::Known {
            1int
        } else {
            0int
        }
    }
}

/// The achieved ratio `known/total` reaches the target `tn/td`.
pub open spec fn ct_met(known: int, total: int, tn: int, td: int) -> bool {
    known * td >= tn * total
}

/// Some id of the ranked list is still `New` under `p`.
pub open spec fn has_new(p: Seq<(u32, LearnerLemmaInfo)>, ranked: Seq<u32>) -> bool {
    exists|i: int| 0 <= i < ranked.len() && state_of(p, #[trigger] ranked[i]) == LemmaState::New
}

/// Activate up to `k` still-`New` ids of the ranked list, in rank order.
pub open spec fn activate_front(
    p: Seq<(u32, LearnerLemmaInfo)>,
    ranked: Seq<u32>,
    k: nat,
) -> Seq<(u32, LearnerLemmaInfo)>
    decreases ranked.len(),
{
    if ranked.len() == 0 || k == 0 {
        p
    } else if state_of(p, ranked[0]) == LemmaState::New {
        activate_front(
            force_state(p, ranked[0], LemmaState::Active),
            ranked.skip(1),
            (k - 1) as nat,
        )
    } else {
        activate_front(p, ranked.skip(1), k)
    }
}

/// Outcome of the calibration search: the rendering profile it settles on
/// and the attempt it finalizes.
pub struct CalibOutcome {
    pub profile: Seq<(u32, LearnerLemmaInfo)>,
    pub attempt: int,
}

/// The calibration search itself: finalize when the pass is hard enough
/// (`total > 0` and the ratio is below target), when this is the last
/// permitted attempt, or when no ranked lemma is still `New`; otherwise
/// activate up to `k` ranked lemmas and try again.
pub open spec fn calib_profile(
    sents: Seq<NumericalProcessedSentence>,
    p: Seq<(u32, LearnerLemmaInfo)>,
    ranked: Seq<u32>,
    a: int,
    r: int,
    tn: int,
    td: int,
    k: nat,
) -> CalibOutcome
    decreases r - a,
{
    let used = block_ids(sents, p);
    let total = used.len() as int;
    let known = known_count(p, used);
    if (total > 0 && !ct_met(known, total, tn, td)) || a >= r || !has_new(p, ranked) {
        CalibOutcome { profile: p, attempt: a }
    } else {
        calib_profile(sents, activate_front(p, ranked, k), ranked, a + 1, r, tn, td, k)
    }
}

/// Upper bound on the ids the woven level can contribute: the length of
/// each segment's own lemma entry, profile-independent.
pub open spec fn l3_ids_bound(s: NumericalProcessedSentence, n: int) -> int
    decreases n,
{
    if n <= 0 {
        0
    } else {
        l3_ids_bound(s, n - 1) + match find_seg_lemmas(
            s.sim_s_lemmas_numerical@,
            s.sim_s_segments_numerical@[n - 1].id_str@,
        ) {
            Option::None => 0int,
            Option::Some(sl) => sl.lemma_ids@.len() as int,
        }
    }
}

/// Upper bound on the ids one sentence can use at any level, under any
/// profile.
pub open spec fn sentence_ids_bound(s: NumericalProcessedSentence) -> int {
    s.adv_s_lemma_ids@.len() + seg_lemma_ids(s.sim_s_lemmas_numerical@).len() + l3_ids_bound(
        s,
        s.sim_s_segments_numerical@.len() as int,
    ) + s.diglot_map_numerical@.len()
}

/// Upper bound on the ids a block can use, under any profile.
pub open spec fn block_ids_bound(sents: Seq<NumericalProcessedSentence>) -> int
    decreases sents.len(),
{
    if sents.len() == 0 {
        0
    } else {
        block_ids_bound(sents.drop_last()) + sentence_ids_bound(sents.last())
    }
}

/// Inserting into a sorted list adds at most one element.
proof fn lemma_insert_sorted_len(s: Seq<u32>, x: u32)
    ensures
        insert_sorted(s, x).len() <= s.len() + 1,
    decreases s.len(),
{
    if s.len() == 0 {
    } else if x < s[0] {
    } else if x == s[0] {
    } else {
        lemma_insert_sorted_len(s.skip(1), x);
    }
}

/// Deduplicating sorting cannot lengthen a list.
proof fn lemma_sort_dedup_len(s: Seq<u32>)
    ensures
        sort_dedup(s).len() <= s.len(),
    decreases s.len(),
{
    if s.len() > 0 {
        lemma_sort_dedup_len(s.drop_last());
        lemma_insert_sorted_len(sort_dedup(s.drop_last()), s.last());
    }
}

/// The diglot scan contributes at most one id per segment map.
proof fn lemma_l4_ids_len(
    s: NumericalProcessedSentence,
    p: Seq<(u32, LearnerLemmaInfo)>,
    n: int,
)
    requires
        n >= 0,
    ensures
        l4_scan(s, p, n).ids.len() <= n,
    decreases n,
{
    if n > 0 {
        lemma_l4_ids_len(s, p, n - 1);
    }
}

/// The woven level's ids stay within the profile-independent bound.
proof fn lemma_l3_ids_bound(s: NumericalProcessedSentence, p: Seq<(u32, LearnerLemmaInfo)>, n: int)
    requires
        n >= 0,
    ensures
        l3_ids_bound(s, n) >= 0,
        l3_weave(s, p, n).ids.len() <= l3_ids_bound(s, n),
    decreases n,
{
    if n > 0 {
        lemma_l3_ids_bound(s, p, n - 1);
    }
}

/// No rendering of a sentence uses more ids than its bound, whatever the
/// profile.
pub proof fn lemma_sentence_ids_bound(
    s: NumericalProcessedSentence,
    p: Seq<(u32, LearnerLemmaInfo)>,
)
    ensures
        sentence_ids_bound(s) >= 0,
        sentence_ids(s, p).len() <= sentence_ids_bound(s),
{
    lemma_l3_ids_bound(s, p, s.sim_s_segments_numerical@.len() as int);
    let nd = s.diglot_map_numerical@.len() as int;
    lemma_l4_ids_len(s, p, nd);
    lemma_sort_dedup_len(l4_scan(s, p, nd).ids);
}

/// No rendering of a block uses more ids than the block's bound, whatever
/// the profile.
pub proof fn lemma_block_ids_bound(
    sents: Seq<NumericalProcessedSentence>,
    p: Seq<(u32, LearnerLemmaInfo)>,
)
    ensures
        block_ids_bound(sents) >= 0,
        block_ids(sents, p).len() <= block_ids_bound(sents),
    decreases sents.len(),
{
    if sents.len() > 0 {
        lemma_block_ids_bound(sents.drop_last(), p);
        lemma_sentence_ids_bound(sents.last(), p);
    }
}

/// Activation preserves well-formedness and the exposure sum, and never
/// moves any state backward.
pub proof fn lemma_activate_front(p: Seq<(u32, LearnerLemmaInfo)>, ranked: Seq<u32>, k: nat)
    requires
        distinct_keys(p),
        thresholds_positive(p),
    ensures
        distinct_keys(activate_front(p, ranked, k)),
        thresholds_positive(activate_front(p, ranked, k)),
        sum_exposures(activate_front(p, ranked, k)) == sum_exposures(p),
        forall|id: u32|
            state_le(state_of(p, id), state_of(#[trigger] activate_front(p, ranked, k), id)),
    decreases ranked.len(),
{
    if ranked.len() == 0 || k == 0 {
    } else if state_of(p, ranked[0]) == LemmaState::New {
        lemma_force_state(p, ranked[0], LemmaState::Active);
        let p2 = force_state(p, ranked[0], LemmaState::Active);
        lemma_activate_front(p2, ranked.skip(1), (k - 1) as nat);
        assert forall|id: u32|
            state_le(
                state_of(p, id),
                state_of(activate_front(p, ranked, k), id),
            ) by {
            lemma_advanced_monotone(crate::vocab::rec_of(p, id), LemmaState::Active);
            assert(state_le(state_of(p, id), state_of(p2, id)));
            assert(state_le(
                state_of(p2, id),
                state_of(activate_front(p2, ranked.skip(1), (k - 1) as nat), id),
            ));
            assert(activate_front(p, ranked, k) == activate_front(
                p2,
                ranked.skip(1),
                (k - 1) as nat,
            ));
        }
    } else {
        lemma_activate_front(p, ranked.skip(1), k);
    }
}

/// The target comparison `known/total >= tn/td`, decided exactly in
/// integers.
fn ct_ge(known: usize, total: usize, tn: u32, td: u32) -> (r: bool)
    ensures
        r == ct_met(known as int, total as int, tn as int, td as int),
{
    proof {
        assert((known as int) * (td as int) <= 0xffff_ffff_ffff_ffff_ffff_ffff_ffff_ffffint
            && (tn as int) * (total as int) <= 0xffff_ffff_ffff_ffff_ffff_ffff_ffff_ffffint)
            by (nonlinear_arith)
            requires
                0 <= known <= u64::MAX,
                0 <= total <= u64::MAX,
                0 <= tn <= u32::MAX,
                0 <= td <= u32::MAX,
        ;
    }
    let lhs: u128 = (known as u128) * (td as u128);
    let rhs: u128 = (tn as u128) * (total as u128);
    lhs >= rhs
}

/// Render every sentence of the block and collect the ids the renderings
/// use, in sentence order.
pub fn render_block_ids(
    sents: &[NumericalProcessedSentence],
    profile: &NumericalLearnerProfile,
) -> (r: Vec<u32>)
    requires
        profile.wf(),
    ensures
        r@ == block_ids(sents@, profile@),
{
    let n = sents.len();
    let mut used: Vec<u32> = Vec::new();
    let mut i: usize = 0;
    while i < n
        invariant
            i <= n,
            n == sents@.len(),
            profile.wf(),
            used@ == block_ids(sents@.take(i as int), profile@),
        decreases n - i,
    {
        let rs: RenderedSentence = render_sentence(&sents[i], profile);
        append_ids(&mut used, &rs.lemma_ids);
        proof {
            assert(sents@.take(i + 1).drop_last() =~= sents@.take(i as int));
            assert(sents@.take(i + 1).last() == sents@[i as int]);
        }
        i += 1;
    }
    proof {
        assert(sents@.take(n as int) =~= sents@);
    }
    used
}

/// How many ids of `ids` are `Known` under the profile.
fn count_known_ids(profile: &NumericalLearnerProfile, ids: &Vec<u32>) -> (r: usize)
    requires
        profile.wf(),
    ensures
        r as int == known_count(profile@, ids@),
{
    let n = ids.len();
    let mut i: usize = 0;
    let mut acc: usize = 0;
    while i < n
        invariant
            i <= n,
            n == ids@.len(),
            profile.wf(),
            acc <= i,
            acc as int == known_count(profile@, ids@.take(i as int)),
        decreases n - i,
    {
        proof {
            assert(ids@.take(i + 1).drop_last() =~= ids@.take(i as int));
            assert(ids@.take(i + 1).last() == ids@[i as int]);
        }
        let is_known = match profile.get_lemma_info(ids[i]) {
            Some(info) => info.state == LemmaState::Known,
            None => false,
        };
        if is_known {
            acc += 1;
        }
        i += 1;
    }
    proof {
        assert(ids@.take(n as int) =~= ids@);
    }
    acc
}

/// Whether any ranked id is still `New` under the profile.
fn has_new_exec(
    profile: &NumericalLearnerProfile,
    available: &Vec<(u32, u32)>,
) -> (r: bool)
    requires
        profile.wf(),
    ensures
        r == has_new(profile@, ranked_ids(available@)),
{
    let n = available.len();
    let mut i: usize = 0;
    while i < n
        invariant
            i <= n,
            n == available@.len(),
            profile.wf(),
            forall|j: int|
                0 <= j < i ==> state_of(profile@, #[trigger] ranked_ids(available@)[j])
                    != LemmaState::New,
        decreases n - i,
    {
        let id = available[i].0;
        let is_new = match profile.get_lemma_info(id) {
            Some(info) => info.state == LemmaState::New,
            None => true,
        };
        if is_new {
            proof {
                assert(ranked_ids(available@)[i as int] == id);
            }
            return true;
        }
        i += 1;
    }
    false
}

/// Activate up to `k` still-`New` ranked lemmas, in rank order.
fn activate_up_to(
    working: &mut NumericalLearnerProfile,
    available: &Vec<(u32, u32)>,
    k: usize,
    log: &mut Vec<SimulationLogEntry>,
)
    requires
        old(working).wf(),
        k >= 1,
    ensures
        final(working).wf(),
        final(working)@ == activate_front(old(working)@, ranked_ids(available@), k as nat),
        sum_exposures(final(working)@) == sum_exposures(old(working)@),
        forall|id: u32| state_le(state_of(old(working)@, id), state_of(final(working)@, id)),
{
    let n = available.len();
    let mut i: usize = 0;
    let mut activated: usize = 0;
    proof {
        lemma_activate_front(old(working)@, ranked_ids(available@), k as nat);
        assert(ranked_ids(available@).skip(0) =~= ranked_ids(available@));
    }
    while i < n && activated < k
        invariant
            i <= n,
            activated <= k,
            n == available@.len(),
            working.wf(),
            sum_exposures(working@) == sum_exposures(old(working)@),
            forall|id: u32| state_le(state_of(old(working)@, id), state_of(working@, id)),
            activate_front(old(working)@, ranked_ids(available@), k as nat) == activate_front(
                working@,
                ranked_ids(available@).skip(i as int),
                (k - activated) as nat,
            ),
        decreases n - i,
    {
        let id = available[i].0;
        let ghost pre = working@;
        let ghost rest = ranked_ids(available@).skip(i as int);
        proof {
            assert(rest[0] == id);
            assert(rest.skip(1) =~= ranked_ids(available@).skip(i + 1));
        }
        let is_new = match working.get_lemma_info(id) {
            Some(info) => info.state == LemmaState::New,
            None => true,
        };
        if is_new {
            working.set_lemma_state(id, LemmaState::Active);
            log.push(SimulationLogEntry::LemmaActivated { lemma_id: id });
            activated += 1;
            proof {
                assert forall|id2: u32|
                    state_le(state_of(old(working)@, id2), state_of(working@, id2)) by {
                    lemma_advanced_monotone(crate::vocab::rec_of(pre, id2), LemmaState::Active);
                }
            }
        }
        i += 1;
    }
    proof {
        if i == n {
            assert(ranked_ids(available@).skip(n as int) =~= Seq::<u32>::empty());
        }
    }
}

/// Calibrate one block: render, measure, and either finalize or activate
/// up to `max_words_to_activate` ranked lemmas and go round again, at most
/// `max_regeneration_attempts` times. Always returns, and the outcome is
/// exactly the recursive calibration search applied to the inputs: the
/// rendering profile, its rendered ids, the `Known` and total counts, and
/// the carried-forward profile with the block's exposures recorded.
pub fn run_simulation_numerical(
    block_sentences: &[NumericalProcessedSentence],
    initial_profile: NumericalLearnerProfile,
    available_new_lemma_ids: &Vec<(u32, u32)>,
    max_regeneration_attempts: u32,
    target_ct_num: u32,
    target_ct_den: u32,
    max_words_to_activate: usize,
) -> (r: SimulationBlockResult)
    requires
        initial_profile.wf(),
        max_regeneration_attempts >= 1,
        target_ct_den >= 1,
        max_words_to_activate >= 1,
        sum_exposures(initial_profile@) + block_ids_bound(block_sentences@) <= u32::MAX,
    ensures
        ({
            let o = calib_profile(
                block_sentences@,
                initial_profile@,
                ranked_ids(available_new_lemma_ids@),
                1,
                max_regeneration_attempts as int,
                target_ct_num as int,
                target_ct_den as int,
                max_words_to_activate as nat,
            );
            r.profile_state_for_text_generation@ == o.profile && r.attempts_used as int
                == o.attempt
        }),
        r.profile_state_for_text_generation.wf(),
        r.output_lemma_ids_for_block@ == block_ids(
            block_sentences@,
            r.profile_state_for_text_generation@,
        ),
        r.total_spanish_lemmas_in_block == r.output_lemma_ids_for_block@.len(),
        r.known_lemmas_in_block as int == known_count(
            r.profile_state_for_text_generation@,
            r.output_lemma_ids_for_block@,
        ),
        r.profile_state_after_block_exposure.wf(),
        r.profile_state_after_block_exposure@ == expose_seq(
            r.profile_state_for_text_generation@,
            r.output_lemma_ids_for_block@,
        ),
        1 <= r.attempts_used <= max_regeneration_attempts,
        forall|id: u32|
            state_le(
                state_of(initial_profile@, id),
                state_of(r.profile_state_after_block_exposure@, id),
            ),
{
    let ghost rids = ranked_ids(available_new_lemma_ids@);
    let ghost tr = max_regeneration_attempts as int;
    let ghost tn = target_ct_num as int;
    let ghost td = target_ct_den as int;
    let ghost tk = max_words_to_activate as nat;
    let mut log: Vec<SimulationLogEntry> = Vec::new();
    let mut working = initial_profile.clone_profile();
    let mut attempt: u32 = 1;
    loop
        invariant
            initial_profile.wf(),
            working.wf(),
            sum_exposures(working@) == sum_exposures(initial_profile@),
            sum_exposures(initial_profile@) + block_ids_bound(block_sentences@) <= u32::MAX,
            max_regeneration_attempts >= 1,
            target_ct_den >= 1,
            max_words_to_activate >= 1,
            1 <= attempt <= max_regeneration_attempts,
            calib_profile(block_sentences@, initial_profile@, rids, 1, tr, tn, td, tk)
                == calib_profile(block_sentences@, working@, rids, attempt as int, tr, tn, td, tk),
            forall|id: u32| state_le(state_of(initial_profile@, id), state_of(working@, id)),
            rids == ranked_ids(available_new_lemma_ids@),
            tr == max_regeneration_attempts as int,
            tn == target_ct_num as int,
            td == target_ct_den as int,
            tk == max_words_to_activate as nat,
        decreases max_regeneration_attempts - attempt,
    {
        let used = render_block_ids(block_sentences, &working);
        let total = used.len();
        let known = count_known_ids(&working, &used);
        log.push(SimulationLogEntry::AttemptMeasured { attempt, known, total });
        let hard_enough = total > 0 && !ct_ge(known, total, target_ct_num, target_ct_den);
        let last_attempt = attempt == max_regeneration_attempts;
        let nothing_new = !has_new_exec(&working, available_new_lemma_ids);
        if hard_enough || last_attempt || nothing_new {
            log.push(SimulationLogEntry::Finalized { attempt });
            proof {
                lemma_block_ids_bound(block_sentences@, working@);
                let o = calib_profile(
                    block_sentences@,
                    working@,
                    rids,
                    attempt as int,
                    tr,
                    tn,
                    td,
                    tk,
                );
                assert(o.profile == working@ && o.attempt == attempt as int);
            }
            let mut after = working.clone_profile();
            after.record_exposures(used.as_slice());
            proof {
                assert forall|id: u32|
                    state_le(state_of(initial_profile@, id), state_of(after@, id)) by {
                    assert(state_le(state_of(initial_profile@, id), state_of(working@, id)));
                    assert(state_le(state_of(working@, id), state_of(after@, id)));
                }
            }
            return SimulationBlockResult {
                profile_state_for_text_generation: working,
                profile_state_after_block_exposure: after,
                output_lemma_ids_for_block: used,
                simulation_log_entries: log,
                attempts_used: attempt,
                known_lemmas_in_block: known,
                total_spanish_lemmas_in_block: total,
            };
        }
        let ghost prew = working@;
        activate_up_to(&mut working, available_new_lemma_ids, max_words_to_activate, &mut log);
        proof {
            assert(calib_profile(block_sentences@, prew, rids, attempt as int, tr, tn, td, tk)
                == calib_profile(block_sentences@, working@, rids, attempt + 1, tr, tn, td, tk));
            assert forall|id: u32|
                state_le(state_of(initial_profile@, id), state_of(working@, id)) by {
                assert(state_le(state_of(initial_profile@, id), state_of(prew, id)));
                assert(state_le(state_of(prew, id), state_of(working@, id)));
            }
        }
        attempt += 1;
    }
}

/// The lemma ids one sentence's rendering uses, for calibration
/// bookkeeping. The same decision pass that emits text computes them.
pub fn determine_sentence_output_lemma_ids(
    n_sentence: &NumericalProcessedSentence,
    profile: &NumericalLearnerProfile,
) -> (r: Vec<u32>)
    requires
        profile.wf(),
    ensures
        r@ == sentence_ids(*n_sentence, profile@),
{
    let rs = render_sentence(n_sentence, profile);
    rs.lemma_ids
}


/// Activation cap: over a ranked list of distinct, still-`New` lemmas,
/// one activation round takes exactly the first `k` of them (or all, if
/// fewer remain) to `Active`, leaves the rest `New`, and touches no other
/// lemma's record.
pub proof fn lemma_activation_cap(p: Seq<(u32, LearnerLemmaInfo)>, ranked: Seq<u32>, k: nat)
    requires
        distinct_keys(p),
        thresholds_positive(p),
        ranked.no_duplicates(),
        forall|i: int| 0 <= i < ranked.len() ==> state_of(p, #[trigger] ranked[i]) == LemmaState::New,
    ensures
        forall|i: int|
            0 <= i < ranked.len() && i < k ==> state_of(
                activate_front(p, ranked, k),
                #[trigger] ranked[i],
            ) == LemmaState::Active,
        forall|i: int|
            k <= i < ranked.len() ==> state_of(activate_front(p, ranked, k), #[trigger] ranked[i])
                == LemmaState::New,
        forall|id: u32|
            !ranked.contains(id) ==> crate::vocab::rec_of(activate_front(p, ranked, k), id)
                == crate::vocab::rec_of(p, id),
    decreases ranked.len(),
{
    if ranked.len() == 0 || k == 0 {
    } else {
        let x = ranked[0];
        lemma_force_state(p, x, LemmaState::Active);
        let p2 = force_state(p, x, LemmaState::Active);
        let rest = ranked.skip(1);
        assert(rest.no_duplicates()) by {
            assert forall|a: int, b: int|
                0 <= a < rest.len() && 0 <= b < rest.len() && a != b implies rest[a] != rest[b] by {
                assert(rest[a] == ranked[a + 1] && rest[b] == ranked[b + 1]);
            }
        }
        assert forall|i: int| 0 <= i < rest.len() implies state_of(p2, #[trigger] rest[i])
            == LemmaState::New by {
            assert(rest[i] == ranked[i + 1]);
            assert(ranked[i + 1] != x);
        }
        lemma_activation_cap(p2, rest, (k - 1) as nat);
        let result = activate_front(p2, rest, (k - 1) as nat);
        assert(activate_front(p, ranked, k) == result);
        assert(!rest.contains(x)) by {
            if rest.contains(x) {
                let w = choose|w: int| 0 <= w < rest.len() && rest[w] == x;
                assert(ranked[w + 1] == x);
            }
        }
        assert(state_of(result, x) == LemmaState::Active);
        assert forall|i: int| 0 <= i < ranked.len() && i < k implies state_of(
            result,
            #[trigger] ranked[i],
        ) == LemmaState::Active by {
            if i > 0 {
                assert(rest[i - 1] == ranked[i]);
            }
        }
        assert forall|i: int| k <= i < ranked.len() implies state_of(result, #[trigger] ranked[i])
            == LemmaState::New by {
            assert(rest[i - 1] == ranked[i]);
        }
        assert forall|id: u32| !ranked.contains(id) implies crate::vocab::rec_of(result, id)
            == crate::vocab::rec_of(p, id) by {
            assert(id != x) by {
                if id == x {
                    assert(ranked.contains(id)) by {
                        assert(ranked[0] == id);
                    }
                }
            }
            assert(!rest.contains(id)) by {
                if rest.contains(id) {
                    let w = choose|w: int| 0 <= w < rest.len() && rest[w] == id;
                    assert(ranked[w + 1] == id);
                }
            }
        }
    }
}

} // verus!
