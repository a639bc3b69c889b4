//! The corpus orchestrator's computational core.
//!
//! A chapter is split into fixed-size blocks; each block gets a ranked
//! list of the still-`New` lemmas it could teach (by descending in-block
//! frequency, ties broken by ascending id), is calibrated against the
//! current profile, and contributes its finalized text; the profile the
//! block leaves behind feeds the next block. A block whose exposure
//! bookkeeping would overflow the counters is skipped and the profile
//! carried past it unchanged.

use vstd::prelude::*;
use vstd::string::StringExecFns;

use crate::core_algo::SimulationBlockResult;
use crate::core_algo::block_ids;
use crate::core_algo::block_ids_bound;
use crate::core_algo::calib_profile;
use crate::core_algo::l3_ids_bound;
use crate::core_algo::ranked_ids;
use crate::core_algo::run_simulation_numerical;
use crate::numerical_types::NumericalDiglotSegmentMap;
use crate::numerical_types::NumericalLearnerProfile;
use crate::numerical_types::NumericalProcessedSentence;
use crate::render::append_ids;
use crate::render::find_seg_lemmas_idx;
use crate::render::seg_lemma_ids;
use crate::text_generator::block_text;
use crate::text_generator::generate_final_text_block;
use crate::vocab::LearnerLemmaInfo;
use crate::vocab::LemmaState;
use crate::vocab::expose_seq;
use crate::vocab::state_le;
use crate::vocab::state_of;
use crate::vocab::sum_exposures;

verus! {

/// The ids of the viable diglot candidates of one entry list.
pub open spec fn viable_entry_ids(
    es: Seq<crate::numerical_types::NumericalDiglotEntry>,
) -> Seq<u32>
    decreases es.len(),
{
    if es.len() == 0 {
        Seq::empty()
    } else if es.last().viable {
        viable_entry_ids(es.drop_last()).push(es.last().spa_lemma_id)
    } else {
        viable_entry_ids(es.drop_last())
    }
}

/// The ids of all viable diglot candidates of a sentence's segment maps.
pub open spec fn viable_diglot_ids(ms: Seq<NumericalDiglotSegmentMap>) -> Seq<u32>
    decreases ms.len(),
{
    if ms.len() == 0 {
        Seq::empty()
    } else {
        viable_diglot_ids(ms.drop_last()) + viable_entry_ids(ms.last().entries@)
    }
}

/// Every lemma id one sentence could teach: its advanced list, all its
/// segment lemma entries, and its viable diglot candidates.
pub open spec fn sentence_candidate_ids(s: NumericalProcessedSentence) -> Seq<u32> {
    s.adv_s_lemma_ids@ + seg_lemma_ids(s.sim_s_lemmas_numerical@) + viable_diglot_ids(
        s.diglot_map_numerical@,
    )
}

/// Every lemma id a block could teach, in sentence order.
pub open spec fn block_candidate_ids(sents: Seq<NumericalProcessedSentence>) -> Seq<u32>
    decreases sents.len(),
{
    if sents.len() == 0 {
        Seq::empty()
    } else {
        block_candidate_ids(sents.drop_last()) + sentence_candidate_ids(sents.last())
    }
}

/// Occurrences of `x` in `s`.
pub open spec fn count_of(x: u32, s: Seq<u32>) -> int
    decreases s.len(),
{
    if s.len() == 0 {
        0
    } else {
        count_of(x, s.drop_last()) + if s.last() == x {
            1int
        } else {
            0int
        }
    }
}

/// The distinct ids of `cands` that are still `New` under `p`, in order
/// of first occurrence.
pub open spec fn new_ids_of(cands: Seq<u32>, p: Seq<(u32, LearnerLemmaInfo)>) -> Seq<u32>
    decreases cands.len(),
{
    if cands.len() == 0 {
        Seq::empty()
    } else {
        let r = new_ids_of(cands.drop_last(), p);
        if state_of(p, cands.last()) == LemmaState::New && !r.contains(cands.last()) {
            r.push(cands.last())
        } else {
            r
        }
    }
}

/// The unranked activation pairs: each still-`New` id with its in-block
/// frequency, in order of first occurrence.
pub open spec fn freq_pairs(cands: Seq<u32>, p: Seq<(u32, LearnerLemmaInfo)>) -> Seq<(u32, u32)> {
    new_ids_of(cands, p).map_values(|id: u32| (id, count_of(id, cands) as u32))
}

/// `a` ranks strictly before `b`: higher frequency, or equal frequency
/// and smaller id.
pub open spec fn ranks_before(a: (u32, u32), b: (u32, u32)) -> bool {
    a.1 > b.1 || (a.1 == b.1 && a.0 < b.0)
}

/// `x` inserted into the ranked list at its rank position.
pub open spec fn insert_ranked(s: Seq<(u32, u32)>, x: (u32, u32)) -> Seq<(u32, u32)>
    decreases s.len(),
{
    if s.len() == 0 {
        seq![x]
    } else if ranks_before(x, s[0]) {
        seq![x] + s
    } else {
        seq![s[0]] + insert_ranked(s.skip(1), x)
    }
}

/// `pairs` sorted by rank via repeated insertion.
pub open spec fn rank_sorted(pairs: Seq<(u32, u32)>) -> Seq<(u32, u32)>
    decreases pairs.len(),
{
    if pairs.len() == 0 {
        Seq::empty()
    } else {
        insert_ranked(rank_sorted(pairs.drop_last()), pairs.last())
    }
}

/// The ranked activation list of a block under profile `p`.
pub open spec fn ranked_new_lemmas(
    cands: Seq<u32>,
    p: Seq<(u32, LearnerLemmaInfo)>,
) -> Seq<(u32, u32)> {
    rank_sorted(freq_pairs(cands, p))
}

/// One more candidate moves exactly its own count.
proof fn lemma_count_of_push(x: u32, s: Seq<u32>, y: u32)
    ensures
        count_of(x, s.push(y)) == count_of(x, s) + if y == x {
            1int
        } else {
            0int
        },
{
    assert(s.push(y).drop_last() =~= s);
}

/// Collect the candidate ids of a block of sentences.
pub fn gather_block_candidates(sents: &[NumericalProcessedSentence]) -> (r: Vec<u32>)
    ensures
        r@ == block_candidate_ids(sents@),
{
    let n = sents.len();
    let mut out: Vec<u32> = Vec::new();
    let mut i: usize = 0;
    while i < n
        invariant
            i <= n,
            n == sents@.len(),
            out@ == block_candidate_ids(sents@.take(i as int)),
        decreases n - i,
    {
        let s = &sents[i];
        append_ids(&mut out, &s.adv_s_lemma_ids);
        let nl = s.sim_s_lemmas_numerical.len();
        let ghost mid1 = out@;
        let mut j: usize = 0;
        while j < nl
            invariant
                j <= nl,
                nl == s.sim_s_lemmas_numerical@.len(),
                out@ == mid1 + seg_lemma_ids(s.sim_s_lemmas_numerical@.take(j as int)),
            decreases nl - j,
        {
            append_ids(&mut out, &s.sim_s_lemmas_numerical[j].lemma_ids);
            proof {
                let es = s.sim_s_lemmas_numerical@;
                assert(es.take(j + 1).drop_last() =~= es.take(j as int));
                assert(es.take(j + 1).last() == es[j as int]);
                assert(mid1 + seg_lemma_ids(es.take(j + 1)) =~= (mid1 + seg_lemma_ids(
                    es.take(j as int),
                )) + es[j as int].lemma_ids@);
            }
            j += 1;
        }
        proof {
            assert(s.sim_s_lemmas_numerical@.take(nl as int) =~= s.sim_s_lemmas_numerical@);
        }
        let nm = s.diglot_map_numerical.len();
        let ghost mid2 = out@;
        let mut k: usize = 0;
        while k < nm
            invariant
                k <= nm,
                nm == s.diglot_map_numerical@.len(),
                out@ == mid2 + viable_diglot_ids(s.diglot_map_numerical@.take(k as int)),
            decreases nm - k,
        {
            let m = &s.diglot_map_numerical[k];
            let ne = m.entries.len();
            let ghost mid3 = out@;
            let mut e: usize = 0;
            while e < ne
                invariant
                    e <= ne,
                    ne == m.entries@.len(),
                    out@ == mid3 + viable_entry_ids(m.entries@.take(e as int)),
                decreases ne - e,
            {
                let entry = &m.entries[e];
                proof {
                    assert(m.entries@.take(e + 1).drop_last() =~= m.entries@.take(e as int));
                    assert(m.entries@.take(e + 1).last() == m.entries@[e as int]);
                }
                if entry.viable {
                    out.push(entry.spa_lemma_id);
                    proof {
                        assert(mid3 + viable_entry_ids(m.entries@.take(e + 1)) =~= (mid3
                            + viable_entry_ids(m.entries@.take(e as int))).push(
                            m.entries@[e as int].spa_lemma_id,
                        ));
                    }
                }
                e += 1;
            }
            proof {
                assert(m.entries@.take(ne as int) =~= m.entries@);
                let ms = s.diglot_map_numerical@;
                assert(ms.take(k + 1).drop_last() =~= ms.take(k as int));
                assert(ms.take(k + 1).last() == ms[k as int]);
                assert(mid2 + viable_diglot_ids(ms.take(k + 1)) =~= (mid2 + viable_diglot_ids(
                    ms.take(k as int),
                )) + viable_entry_ids(ms[k as int].entries@));
            }
            k += 1;
        }
        proof {
            assert(s.diglot_map_numerical@.take(nm as int) =~= s.diglot_map_numerical@);
            assert(sents@.take(i + 1).drop_last() =~= sents@.take(i as int));
            assert(sents@.take(i + 1).last() == sents@[i as int]);
            assert(out@ =~= block_candidate_ids(sents@.take(i as int)) + sentence_candidate_ids(
                sents@[i as int],
            ));
        }
        i += 1;
    }
    proof {
        assert(sents@.take(n as int) =~= sents@);
    }
    out
}

/// Position of `id` among the pairs, if present.
fn find_pair(pairs: &Vec<(u32, u32)>, id: u32) -> (r: Option<usize>)
    ensures
        r matches Some(i) ==> i < pairs@.len() && pairs@[i as int].0 == id,
        r is None ==> forall|j: int| 0 <= j < pairs@.len() ==> (#[trigger] pairs@[j]).0 != id,
{
    let n = pairs.len();
    let mut i: usize = 0;
    while i < n
        invariant
            i <= n,
            n == pairs@.len(),
            forall|j: int| 0 <= j < i ==> (#[trigger] pairs@[j]).0 != id,
        decreases n - i,
    {
        if pairs[i].0 == id {
            return Some(i);
        }
        i += 1;
    }
    None
}

/// Build the unranked frequency pairs of the candidates that are still
/// `New`, in order of first occurrence.
fn build_freq_pairs(
    cands: &Vec<u32>,
    profile: &NumericalLearnerProfile,
) -> (r: Vec<(u32, u32)>)
    requires
        profile.wf(),
        cands@.len() <= u32::MAX,
    ensures
        r@ == freq_pairs(cands@, profile@),
{
    let n = cands.len();
    let mut pairs: Vec<(u32, u32)> = Vec::new();
    let mut i: usize = 0;
    while i < n
        invariant
            i <= n,
            n == cands@.len(),
            n <= u32::MAX,
            profile.wf(),
            pairs@ == freq_pairs(cands@.take(i as int), profile@),
        decreases n - i,
    {
        let id = cands[i];
        let is_new = match profile.get_lemma_info(id) {
            Some(info) => info.state == LemmaState::New,
            None => true,
        };
        let ghost pre = pairs@;
        let ghost prefix = cands@.take(i as int);
        proof {
            assert(cands@.take(i + 1) =~= prefix.push(cands@[i as int]));
            assert(freq_pairs(prefix.push(cands@[i as int]), profile@) == freq_pairs(
                cands@.take(i + 1),
                profile@,
            ));
        }
        if is_new {
            match find_pair(&pairs, id) {
                Some(j) => {
                    let f = pairs[j].1;
                    proof {
                        lemma_freq_pairs_members(prefix, profile@, pre, j as int);
                        lemma_new_ids_push_step(prefix, profile@, cands@[i as int]);
                        lemma_freq_pairs_update(prefix, profile@, cands@[i as int], j as int);
                        lemma_count_bound(id, prefix);
                    }
                    pairs[j] = (id, f + 1);
                    proof {
                        assert(pairs@ =~= freq_pairs(cands@.take(i + 1), profile@));
                    }
                },
                None => {
                    proof {
                        lemma_new_ids_push_step(prefix, profile@, cands@[i as int]);
                        lemma_new_ids_not_contains(prefix, profile@, pre, cands@[i as int]);
                        lemma_freq_pairs_push(prefix, profile@, cands@[i as int]);
                    }
                    pairs.push((id, 1));
                    proof {
                        assert(pairs@ =~= freq_pairs(cands@.take(i + 1), profile@));
                    }
                },
            }
        } else {
            proof {
                lemma_new_ids_push_step(prefix, profile@, cands@[i as int]);
                lemma_freq_pairs_same(prefix, profile@, cands@[i as int]);
                assert(pairs@ =~= freq_pairs(cands@.take(i + 1), profile@));
            }
        }
        i += 1;
    }
    proof {
        assert(cands@.take(n as int) =~= cands@);
    }
    pairs
}

/// Unfolding `new_ids_of` over a push.
proof fn lemma_new_ids_push_step(cands: Seq<u32>, p: Seq<(u32, LearnerLemmaInfo)>, x: u32)
    ensures
        new_ids_of(cands.push(x), p) == if state_of(p, x) == LemmaState::New && !new_ids_of(
            cands,
            p,
        ).contains(x) {
            new_ids_of(cands, p).push(x)
        } else {
            new_ids_of(cands, p)
        },
{
    assert(cands.push(x).drop_last() =~= cands);
}

/// A pair list member's id occurs among the new ids.
proof fn lemma_freq_pairs_members(
    cands: Seq<u32>,
    p: Seq<(u32, LearnerLemmaInfo)>,
    pairs: Seq<(u32, u32)>,
    j: int,
)
    requires
        pairs == freq_pairs(cands, p),
        0 <= j < pairs.len(),
    ensures
        new_ids_of(cands, p).contains(pairs[j].0),
        new_ids_of(cands, p)[j] == pairs[j].0,
{
    assert(new_ids_of(cands, p)[j] == pairs[j].0);
}

/// If no pair holds the id, the id is not among the new ids.
proof fn lemma_new_ids_not_contains(
    cands: Seq<u32>,
    p: Seq<(u32, LearnerLemmaInfo)>,
    pairs: Seq<(u32, u32)>,
    x: u32,
)
    requires
        pairs == freq_pairs(cands, p),
        forall|j: int| 0 <= j < pairs.len() ==> (#[trigger] pairs[j]).0 != x,
    ensures
        !new_ids_of(cands, p).contains(x),
{
    if new_ids_of(cands, p).contains(x) {
        let w = choose|w: int| 0 <= w < new_ids_of(cands, p).len() && new_ids_of(cands, p)[w] == x;
        assert(pairs[w].0 == x);
    }
}

/// Pushing a known `New` id bumps exactly its pair.
proof fn lemma_freq_pairs_update(
    cands: Seq<u32>,
    p: Seq<(u32, LearnerLemmaInfo)>,
    x: u32,
    j: int,
)
    requires
        state_of(p, x) == LemmaState::New,
        new_ids_of(cands, p).contains(x),
        0 <= j < freq_pairs(cands, p).len(),
        freq_pairs(cands, p)[j].0 == x,
        cands.len() < u32::MAX,
    ensures
        freq_pairs(cands.push(x), p) =~= freq_pairs(cands, p).update(
            j,
            (x, (freq_pairs(cands, p)[j].1 + 1) as u32),
        ),
{
    lemma_new_ids_push_step(cands, p, x);
    let ids = new_ids_of(cands, p);
    assert forall|w: int| 0 <= w < ids.len() implies #[trigger] freq_pairs(cands.push(x), p)[w]
        == freq_pairs(cands, p).update(j, (x, (freq_pairs(cands, p)[j].1 + 1) as u32))[w] by {
        lemma_count_of_push(ids[w], cands, x);
        lemma_count_bound(ids[w], cands);
        if w != j {
            assert(ids[w] != x) by {
                if ids[w] == x {
                    lemma_new_ids_distinct(cands, p, w, j);
                }
            }
        }
    }
}

/// Pushing a fresh `New` id appends its pair with count one.
proof fn lemma_freq_pairs_push(cands: Seq<u32>, p: Seq<(u32, LearnerLemmaInfo)>, x: u32)
    requires
        state_of(p, x) == LemmaState::New,
        !new_ids_of(cands, p).contains(x),
        cands.len() < u32::MAX,
    ensures
        freq_pairs(cands.push(x), p) =~= freq_pairs(cands, p).push((x, 1)),
{
    lemma_new_ids_push_step(cands, p, x);
    let ids = new_ids_of(cands, p);
    assert forall|w: int| 0 <= w < ids.len() + 1 implies #[trigger] freq_pairs(cands.push(x), p)[w]
        == freq_pairs(cands, p).push((x, 1))[w] by {
        if w < ids.len() {
            lemma_count_of_push(ids[w], cands, x);
            lemma_count_bound(ids[w], cands);
            assert(ids[w] != x);
        } else {
            lemma_count_of_push(x, cands, x);
            lemma_count_not_contains(x, cands, p);
        }
    }
}

/// Pushing a non-`New` id leaves the pairs unchanged.
proof fn lemma_freq_pairs_same(cands: Seq<u32>, p: Seq<(u32, LearnerLemmaInfo)>, x: u32)
    requires
        state_of(p, x) != LemmaState::New,
    ensures
        freq_pairs(cands.push(x), p) =~= freq_pairs(cands, p),
{
    lemma_new_ids_push_step(cands, p, x);
    let ids = new_ids_of(cands, p);
    assert forall|w: int| 0 <= w < ids.len() implies #[trigger] freq_pairs(cands.push(x), p)[w]
        == freq_pairs(cands, p)[w] by {
        lemma_count_of_push(ids[w], cands, x);
        assert(ids[w] != x) by {
            lemma_new_ids_are_new(cands, p, w);
        }
    }
}

/// Every collected new id really is `New`.
proof fn lemma_new_ids_are_new(cands: Seq<u32>, p: Seq<(u32, LearnerLemmaInfo)>, w: int)
    requires
        0 <= w < new_ids_of(cands, p).len(),
    ensures
        state_of(p, new_ids_of(cands, p)[w]) == LemmaState::New,
    decreases cands.len(),
{
    if cands.len() > 0 {
        let r = new_ids_of(cands.drop_last(), p);
        if w < r.len() {
            lemma_new_ids_are_new(cands.drop_last(), p, w);
        }
    }
}

/// The collected new ids are distinct.
proof fn lemma_new_ids_distinct(cands: Seq<u32>, p: Seq<(u32, LearnerLemmaInfo)>, a: int, b: int)
    requires
        0 <= a < new_ids_of(cands, p).len(),
        0 <= b < new_ids_of(cands, p).len(),
        a != b,
    ensures
        new_ids_of(cands, p)[a] != new_ids_of(cands, p)[b],
    decreases cands.len(),
{
    if cands.len() > 0 {
        let r = new_ids_of(cands.drop_last(), p);
        let full = new_ids_of(cands, p);
        if full.len() == r.len() {
            lemma_new_ids_distinct(cands.drop_last(), p, a, b);
        } else {
            if a < r.len() && b < r.len() {
                lemma_new_ids_distinct(cands.drop_last(), p, a, b);
            } else if a < r.len() {
                assert(!r.contains(cands.last()));
                assert(r[a] != cands.last());
            } else if b < r.len() {
                assert(!r.contains(cands.last()));
                assert(r[b] != cands.last());
            }
        }
    }
}

/// Counts are bounded by the number of candidates.
proof fn lemma_count_bound(x: u32, s: Seq<u32>)
    ensures
        0 <= count_of(x, s) <= s.len(),
    decreases s.len(),
{
    if s.len() > 0 {
        lemma_count_bound(x, s.drop_last());
    }
}

/// An id that never occurs counts zero.
proof fn lemma_count_not_contains(x: u32, s: Seq<u32>, p: Seq<(u32, LearnerLemmaInfo)>)
    requires
        !new_ids_of(s, p).contains(x),
        state_of(p, x) == LemmaState::New,
    ensures
        count_of(x, s) == 0,
    decreases s.len(),
{
    if s.len() > 0 {
        lemma_new_ids_push_mono(s.drop_last(), p, s.last());
        assert(s.drop_last().push(s.last()) =~= s);
        lemma_count_not_contains(x, s.drop_last(), p);
        assert(s.last() != x) by {
            if s.last() == x {
                assert(new_ids_of(s, p).contains(x)) by {
                    lemma_new_ids_complete(s, p, s.len() - 1);
                }
            }
        }
    }
}

/// The collected new ids keep earlier members under a push.
proof fn lemma_new_ids_push_mono(cands: Seq<u32>, p: Seq<(u32, LearnerLemmaInfo)>, x: u32)
    ensures
        forall|y: u32|
            new_ids_of(cands, p).contains(y) ==> new_ids_of(cands.push(x), p).contains(y),
{
    lemma_new_ids_push_step(cands, p, x);
    assert forall|y: u32| new_ids_of(cands, p).contains(y) implies new_ids_of(
        cands.push(x),
        p,
    ).contains(y) by {
        let w = choose|w: int|
            0 <= w < new_ids_of(cands, p).len() && new_ids_of(cands, p)[w] == y;
        assert(new_ids_of(cands.push(x), p)[w] == y);
    }
}

/// A `New` candidate occurs among the collected new ids.
proof fn lemma_new_ids_complete(cands: Seq<u32>, p: Seq<(u32, LearnerLemmaInfo)>, i: int)
    requires
        0 <= i < cands.len(),
        state_of(p, cands[i]) == LemmaState::New,
    ensures
        new_ids_of(cands, p).contains(cands[i]),
    decreases cands.len(),
{
    if i == cands.len() - 1 {
        let r = new_ids_of(cands.drop_last(), p);
        if r.contains(cands.last()) {
            lemma_new_ids_push_mono(cands.drop_last(), p, cands.last());
            assert(cands.drop_last().push(cands.last()) =~= cands);
        } else {
            assert(new_ids_of(cands, p).last() == cands.last());
        }
    } else {
        lemma_new_ids_complete(cands.drop_last(), p, i);
        assert(cands.drop_last()[i] == cands[i]);
        lemma_new_ids_push_mono(cands.drop_last(), p, cands.last());
        assert(cands.drop_last().push(cands.last()) =~= cands);
    }
}


/// Both orders never hold at once, and pairs that are mutually unordered
/// are equal.
proof fn lemma_ranks_total(a: (u32, u32), b: (u32, u32))
    ensures
        !(ranks_before(a, b) && ranks_before(b, a)),
        !ranks_before(a, b) && !ranks_before(b, a) ==> a == b,
{
}

/// Inserting at the scanned rank position is what `insert_ranked` does,
/// as long as the inserted pair equals no list member.
proof fn lemma_insert_ranked_at(s: Seq<(u32, u32)>, x: (u32, u32), j: int)
    requires
        0 <= j <= s.len(),
        forall|k: int| 0 <= k < j ==> ranks_before(#[trigger] s[k], x),
        j < s.len() ==> !ranks_before(s[j], x),
        j < s.len() ==> s[j] != x,
    ensures
        insert_ranked(s, x) == s.take(j) + seq![x] + s.skip(j),
    decreases j,
{
    if s.len() == 0 {
        assert(insert_ranked(s, x) =~= s.take(j) + seq![x] + s.skip(j));
    } else if j == 0 {
        lemma_ranks_total(s[0], x);
        assert(ranks_before(x, s[0]));
        assert(insert_ranked(s, x) =~= s.take(0) + seq![x] + s.skip(0));
    } else {
        lemma_ranks_total(x, s[0]);
        assert(!ranks_before(x, s[0]));
        assert forall|k: int| 0 <= k < j - 1 implies ranks_before(#[trigger] s.skip(1)[k], x) by {
            assert(s.skip(1)[k] == s[k + 1]);
        }
        assert(j - 1 < s.skip(1).len() ==> s.skip(1)[j - 1] == s[j]);
        lemma_insert_ranked_at(s.skip(1), x, j - 1);
        assert(insert_ranked(s, x) =~= s.take(j) + seq![x] + s.skip(j)) by {
            assert(insert_ranked(s, x) == seq![s[0]] + (s.skip(1).take(j - 1) + seq![x] + s.skip(
                1,
            ).skip(j - 1)));
            assert(seq![s[0]] + (s.skip(1).take(j - 1) + seq![x] + s.skip(1).skip(j - 1)) =~= s.take(
                j,
            ) + seq![x] + s.skip(j));
        }
    }
}

/// The frequency pairs carry distinct ids.
proof fn lemma_freq_pairs_distinct(cands: Seq<u32>, p: Seq<(u32, LearnerLemmaInfo)>, a: int, b: int)
    requires
        0 <= a < freq_pairs(cands, p).len(),
        0 <= b < freq_pairs(cands, p).len(),
        a != b,
    ensures
        freq_pairs(cands, p)[a].0 != freq_pairs(cands, p)[b].0,
{
    lemma_new_ids_distinct(cands, p, a, b);
}

/// Rank the still-`New` candidates of a block: by descending in-block
/// frequency, ties broken by ascending lemma id.
pub fn rank_new_lemmas(
    cands: &Vec<u32>,
    profile: &NumericalLearnerProfile,
) -> (r: Vec<(u32, u32)>)
    requires
        profile.wf(),
        cands@.len() <= u32::MAX,
    ensures
        r@ == ranked_new_lemmas(cands@, profile@),
{
    let pairs = build_freq_pairs(cands, profile);
    let n = pairs.len();
    let mut out: Vec<(u32, u32)> = Vec::new();
    let mut i: usize = 0;
    while i < n
        invariant
            i <= n,
            n == pairs@.len(),
            pairs@ == freq_pairs(cands@, profile@),
            out@ == rank_sorted(pairs@.take(i as int)),
            forall|w: int| 0 <= w < out@.len() ==> pairs@.take(i as int).contains(#[trigger] out@[w]),
        decreases n - i,
    {
        let x = pairs[i];
        let m = out.len();
        let mut j: usize = 0;
        while j < m
            invariant
                j <= m,
                m == out@.len(),
                forall|k: int| 0 <= k < j ==> ranks_before(#[trigger] out@[k], x),
            ensures
                j <= m,
                m == out@.len(),
                forall|k: int| 0 <= k < j ==> ranks_before(#[trigger] out@[k], x),
                j < m ==> !ranks_before(out@[j as int], x),
            decreases m - j,
        {
            let c = out[j];
            if !(c.1 > x.1 || (c.1 == x.1 && c.0 < x.0)) {
                break;
            }
            j += 1;
        }
        let ghost pre = out@;
        proof {
            if (j as int) < pre.len() {
                assert(pre[j as int] != x) by {
                    let w = choose|w: int|
                        0 <= w < pairs@.take(i as int).len() && pairs@.take(i as int)[w]
                            == pre[j as int];
                    assert(pairs@[w] == pre[j as int]);
                    lemma_freq_pairs_distinct(cands@, profile@, w, i as int);
                }
            }
            lemma_insert_ranked_at(pre, x, j as int);
        }
        out.insert(j, x);
        proof {
            assert(out@ =~= pre.take(j as int) + seq![x] + pre.skip(j as int));
            assert(pairs@.take(i + 1).drop_last() =~= pairs@.take(i as int));
            assert(pairs@.take(i + 1).last() == pairs@[i as int]);
            assert(out@ == rank_sorted(pairs@.take(i + 1)));
            assert forall|w: int| 0 <= w < out@.len() implies pairs@.take(i + 1).contains(
                #[trigger] out@[w],
            ) by {
                if out@[w] == x {
                    assert(pairs@.take(i + 1)[i as int] == x);
                } else {
                    let v = if w < j {
                        w
                    } else {
                        w - 1
                    };
                    assert(out@[w] == pre[v]);
                    let u = choose|u: int|
                        0 <= u < pairs@.take(i as int).len() && pairs@.take(i as int)[u] == pre[v];
                    assert(pairs@.take(i + 1)[u] == pre[v]);
                }
            }
        }
        i += 1;
    }
    proof {
        assert(pairs@.take(n as int) =~= pairs@);
    }
    out
}

/// One step of the block loop: the ranked activation list is computed,
/// the block is calibrated, its text is emitted against the finalized
/// rendering profile, and the exposures are recorded; a block whose id
/// count or exposure bookkeeping would overflow the counters is skipped
/// whole.
pub struct BlockStep {
    pub skipped: bool,
    pub text: Seq<char>,
    pub profile: Seq<(u32, LearnerLemmaInfo)>,
}

/// The mathematical reading of one block step.
pub open spec fn block_step(
    slice: Seq<NumericalProcessedSentence>,
    p: Seq<(u32, LearnerLemmaInfo)>,
    r: int,
    tn: int,
    td: int,
    k: nat,
) -> BlockStep {
    let cands = block_candidate_ids(slice);
    if cands.len() > u32::MAX || sum_exposures(p) + block_ids_bound(slice) > u32::MAX {
        BlockStep { skipped: true, text: Seq::empty(), profile: p }
    } else {
        let ranked = ranked_new_lemmas(cands, p);
        let o = calib_profile(slice, p, ranked_ids(ranked), 1, r, tn, td, k);
        BlockStep {
            skipped: false,
            text: block_text(slice, o.profile),
            profile: expose_seq(o.profile, block_ids(slice, o.profile)),
        }
    }
}

/// Outcome of processing a chapter from sentence `start` on: the emitted
/// block texts (skipped and blank blocks omitted) and the final profile.
pub struct ChapterOutcome {
    pub texts: Seq<Seq<char>>,
    pub profile: Seq<(u32, LearnerLemmaInfo)>,
}

/// The block loop: fixed-size blocks in order, the last one possibly
/// short, each fed the profile its predecessor left behind.
pub open spec fn chapter_outcome(
    sents: Seq<NumericalProcessedSentence>,
    p: Seq<(u32, LearnerLemmaInfo)>,
    start: int,
    bsize: int,
    r: int,
    tn: int,
    td: int,
    k: nat,
) -> ChapterOutcome
    decreases sents.len() - start,
{
    if start < 0 || start >= sents.len() || bsize < 1 {
        ChapterOutcome { texts: Seq::empty(), profile: p }
    } else {
        let end = if start + bsize <= sents.len() {
            start + bsize
        } else {
            sents.len() as int
        };
        let step = block_step(sents.subrange(start, end), p, r, tn, td, k);
        let rest = chapter_outcome(sents, step.profile, end, bsize, r, tn, td, k);
        let texts = if step.skipped || crate::text::trim_of(step.text).len() == 0 {
            rest.texts
        } else {
            seq![step.text] + rest.texts
        };
        ChapterOutcome { texts, profile: rest.profile }
    }
}

/// Add one sentence's id bound to a running total capped by the exposure
/// counter's range.
fn add_sentence_bound(acc: u64, s: &NumericalProcessedSentence) -> (r: Option<u64>)
    requires
        acc <= u32::MAX,
    ensures
        r matches Some(v) ==> v as int == acc + crate::core_algo::sentence_ids_bound(*s) && v
            <= u32::MAX,
        r is None ==> acc + crate::core_algo::sentence_ids_bound(*s) > u32::MAX,
{
    let limit: u64 = 0xffff_ffffu64;
    let mut cur: u64 = acc;
    proof {
        crate::core_algo::lemma_sentence_ids_bound(*s, Seq::<(u32, LearnerLemmaInfo)>::empty());
    }
    // Advanced lemma list length.
    let t1 = s.adv_s_lemma_ids.len();
    if (t1 as u64) > limit - cur {
        proof {
            lemma_seg_ids_len_nonneg(s.sim_s_lemmas_numerical@, s.sim_s_lemmas_numerical@.len() as int);
            lemma_l3_bound_nonneg(*s, s.sim_s_segments_numerical@.len() as int);
        }
        return None;
    }
    cur = cur + (t1 as u64);
    // Segment lemma entry lengths.
    let nl = s.sim_s_lemmas_numerical.len();
    let mut j: usize = 0;
    while j < nl
        invariant
            j <= nl,
            nl == s.sim_s_lemmas_numerical@.len(),
            limit == 0xffff_ffffu64,
            cur as int == acc + s.adv_s_lemma_ids@.len() + seg_lemma_ids(
                s.sim_s_lemmas_numerical@.take(j as int),
            ).len(),
            acc >= 0,
            cur <= u32::MAX,
        decreases nl - j,
    {
        let t = s.sim_s_lemmas_numerical[j].lemma_ids.len();
        proof {
            assert(s.sim_s_lemmas_numerical@.take(j + 1).drop_last() =~= s.sim_s_lemmas_numerical@.take(j as int));
            assert(s.sim_s_lemmas_numerical@.take(j + 1).last() == s.sim_s_lemmas_numerical@[j as int]);
        }
        if (t as u64) > limit - cur {
            proof {
                lemma_seg_ids_len_mono(s.sim_s_lemmas_numerical@, j + 1);
                lemma_l3_bound_nonneg(*s, s.sim_s_segments_numerical@.len() as int);
            }
            return None;
        }
        cur = cur + (t as u64);
        j += 1;
    }
    proof {
        assert(s.sim_s_lemmas_numerical@.take(nl as int) =~= s.sim_s_lemmas_numerical@);
    }
    // Woven-level bound: the found entry's length per segment.
    let ns = s.sim_s_segments_numerical.len();
    let mut g: usize = 0;
    while g < ns
        invariant
            g <= ns,
            ns == s.sim_s_segments_numerical@.len(),
            limit == 0xffff_ffffu64,
            cur as int == acc + s.adv_s_lemma_ids@.len() + seg_lemma_ids(
                s.sim_s_lemmas_numerical@,
            ).len() + l3_ids_bound(*s, g as int),
            acc >= 0,
            cur <= u32::MAX,
        decreases ns - g,
    {
        let seg = &s.sim_s_segments_numerical[g];
        let t: usize = match find_seg_lemmas_idx(&s.sim_s_lemmas_numerical, &seg.id_str) {
            Some(w) => s.sim_s_lemmas_numerical[w].lemma_ids.len(),
            None => 0,
        };
        proof {
            assert(l3_ids_bound(*s, g + 1) == l3_ids_bound(*s, g as int) + t);
        }
        if (t as u64) > limit - cur {
            proof {
                lemma_l3_bound_mono(*s, g + 1, ns as int);
            }
            return None;
        }
        cur = cur + (t as u64);
        g += 1;
    }
    // Diglot map count.
    let t4 = s.diglot_map_numerical.len();
    if (t4 as u64) > limit - cur {
        return None;
    }
    cur = cur + (t4 as u64);
    Some(cur)
}

/// Prefix lengths of the segment-entry ids are monotone.
proof fn lemma_seg_ids_len_mono(es: Seq<crate::numerical_types::NumericalSegmentLemmas>, i: int)
    requires
        0 <= i <= es.len(),
    ensures
        seg_lemma_ids(es.take(i)).len() <= seg_lemma_ids(es).len(),
    decreases es.len() - i,
{
    if i == es.len() {
        assert(es.take(i) =~= es);
    } else {
        lemma_seg_ids_len_mono(es, i + 1);
        assert(es.take(i + 1).drop_last() =~= es.take(i));
        assert(es.take(i + 1).last() == es[i]);
    }
}

/// Entry-id lengths are never negative.
proof fn lemma_seg_ids_len_nonneg(es: Seq<crate::numerical_types::NumericalSegmentLemmas>, i: int)
    ensures
        seg_lemma_ids(es).len() >= 0,
{
}

/// The woven-level bound is never negative.
proof fn lemma_l3_bound_nonneg(s: NumericalProcessedSentence, n: int)
    requires
        n >= 0,
    ensures
        l3_ids_bound(s, n) >= 0,
    decreases n,
{
    if n > 0 {
        lemma_l3_bound_nonneg(s, n - 1);
    }
}

/// The woven-level bound is monotone in the number of segments.
proof fn lemma_l3_bound_mono(s: NumericalProcessedSentence, i: int, n: int)
    requires
        0 <= i <= n,
    ensures
        l3_ids_bound(s, i) <= l3_ids_bound(s, n),
    decreases n - i,
{
    if i < n {
        lemma_l3_bound_mono(s, i + 1, n);
    }
}

/// Prefix block bounds are monotone.
proof fn lemma_block_bound_mono(sents: Seq<NumericalProcessedSentence>, i: int)
    requires
        0 <= i <= sents.len(),
    ensures
        block_ids_bound(sents.take(i)) <= block_ids_bound(sents),
    decreases sents.len() - i,
{
    if i == sents.len() {
        assert(sents.take(i) =~= sents);
    } else {
        lemma_block_bound_mono(sents, i + 1);
        assert(sents.take(i + 1).drop_last() =~= sents.take(i));
        assert(sents.take(i + 1).last() == sents[i]);
        crate::core_algo::lemma_sentence_ids_bound(
            sents[i],
            Seq::<(u32, LearnerLemmaInfo)>::empty(),
        );
    }
}

/// Decide exactly whether a block's exposures fit the counters: the
/// profile's exposure total plus the block's id bound stays within range.
pub fn block_budget_ok(
    slice: &[NumericalProcessedSentence],
    profile: &NumericalLearnerProfile,
) -> (r: bool)
    requires
        profile.wf(),
    ensures
        r == (sum_exposures(profile@) + block_ids_bound(slice@) <= u32::MAX),
{
    let mut acc: u64 = profile.total_exposure_count() as u64;
    let n = slice.len();
    let mut i: usize = 0;
    while i < n
        invariant
            i <= n,
            n == slice@.len(),
            profile.wf(),
            acc as int == sum_exposures(profile@) + block_ids_bound(slice@.take(i as int)),
            acc <= u32::MAX,
        decreases n - i,
    {
        proof {
            assert(slice@.take(i + 1).drop_last() =~= slice@.take(i as int));
            assert(slice@.take(i + 1).last() == slice@[i as int]);
        }
        match add_sentence_bound(acc, &slice[i]) {
            Some(v) => {
                acc = v;
            },
            None => {
                proof {
                    lemma_block_bound_mono(slice@, i + 1);
                }
                return false;
            },
        }
        i += 1;
    }
    proof {
        assert(slice@.take(n as int) =~= slice@);
    }
    true
}

/// Per-chapter outcome of the orchestrator: the chapter's rendered text
/// (block texts separated by blank lines), the profile the chapter leaves
/// behind, the per-block calibration results, and the indices of blocks
/// that had to be skipped.
pub struct ChapterRunResult {
    pub output_text: String,
    pub final_profile: NumericalLearnerProfile,
    pub block_results: Vec<SimulationBlockResult>,
    pub skipped_blocks: Vec<usize>,
}

/// Process one chapter: split its sentences into blocks of
/// `sentences_per_block` (the last block may be short), calibrate each
/// block against the profile its predecessor left, emit each block's
/// finalized text, and thread the exposure-updated profile through in
/// strict order. No lemma's state ever moves backward across the run.
#[verifier::rlimit(100)]
pub fn run_chapter_simulation(
    chapter_sentences: &Vec<NumericalProcessedSentence>,
    initial_profile: NumericalLearnerProfile,
    sentences_per_block: usize,
    max_regeneration_attempts: u32,
    target_ct_num: u32,
    target_ct_den: u32,
    max_words_to_activate: usize,
) -> (r: ChapterRunResult)
    requires
        initial_profile.wf(),
        sentences_per_block >= 1,
        max_regeneration_attempts >= 1,
        target_ct_den >= 1,
        max_words_to_activate >= 1,
    ensures
        ({
            let o = chapter_outcome(
                chapter_sentences@,
                initial_profile@,
                0,
                sentences_per_block as int,
                max_regeneration_attempts as int,
                target_ct_num as int,
                target_ct_den as int,
                max_words_to_activate as nat,
            );
            r.final_profile@ == o.profile && r.output_text@ == crate::render::join_with(
                o.texts,
                "\n\n"@,
            )
        }),
        r.final_profile.wf(),
        forall|id: u32|
            state_le(state_of(initial_profile@, id), state_of(r.final_profile@, id)),
{
    let ghost bsize = sentences_per_block as int;
    let ghost tr = max_regeneration_attempts as int;
    let ghost tn = target_ct_num as int;
    let ghost td = target_ct_den as int;
    let ghost tk = max_words_to_activate as nat;
    let ghost full = chapter_outcome(
        chapter_sentences@,
        initial_profile@,
        0,
        bsize,
        tr,
        tn,
        td,
        tk,
    );
    let n = chapter_sentences.len();
    let mut profile = initial_profile;
    let mut out = String::new();
    let mut block_results: Vec<SimulationBlockResult> = Vec::new();
    let mut skipped_blocks: Vec<usize> = Vec::new();
    let mut block_counter: usize = 0;
    let mut have_text = false;
    let ghost mut gtexts: Seq<Seq<char>> = Seq::empty();
    let mut start: usize = 0;
    while start < n
        invariant
            start <= n,
            n == chapter_sentences@.len(),
            sentences_per_block >= 1,
            max_regeneration_attempts >= 1,
            target_ct_den >= 1,
            max_words_to_activate >= 1,
            profile.wf(),
            initial_profile.wf(),
            bsize == sentences_per_block as int,
            tr == max_regeneration_attempts as int,
            tn == target_ct_num as int,
            td == target_ct_den as int,
            tk == max_words_to_activate as nat,
            full == chapter_outcome(
                chapter_sentences@,
                initial_profile@,
                0,
                bsize,
                tr,
                tn,
                td,
                tk,
            ),
            full.texts == gtexts + chapter_outcome(
                chapter_sentences@,
                profile@,
                start as int,
                bsize,
                tr,
                tn,
                td,
                tk,
            ).texts,
            full.profile == chapter_outcome(
                chapter_sentences@,
                profile@,
                start as int,
                bsize,
                tr,
                tn,
                td,
                tk,
            ).profile,
            block_counter <= start,
            have_text == (gtexts.len() > 0),
            !have_text ==> out@ == Seq::<char>::empty(),
            have_text ==> out@ == crate::render::join_with(gtexts, "\n\n"@),
            forall|id: u32| state_le(state_of(initial_profile@, id), state_of(profile@, id)),
        decreases n - start,
    {
        let end = if n - start > sentences_per_block {
            start + sentences_per_block
        } else {
            n
        };
        let block = &chapter_sentences[start..end];
        proof {
            assert(block@ == chapter_sentences@.subrange(start as int, end as int));
            assert(end as int == if start as int + bsize <= n as int {
                start as int + bsize
            } else {
                n as int
            });
        }
        let cands = gather_block_candidates(block);
        let fits = block_budget_ok(block, &profile);
        let ghost pre_profile = profile@;
        let ghost step = block_step(block@, pre_profile, tr, tn, td, tk);
        let ghost o_next_pre = chapter_outcome(
            chapter_sentences@,
            step.profile,
            end as int,
            bsize,
            tr,
            tn,
            td,
            tk,
        );
        proof {
            let o_here = chapter_outcome(
                chapter_sentences@,
                pre_profile,
                start as int,
                bsize,
                tr,
                tn,
                td,
                tk,
            );
            assert(o_here.profile == o_next_pre.profile);
            assert(o_here.texts == if step.skipped || crate::text::trim_of(step.text).len() == 0 {
                o_next_pre.texts
            } else {
                seq![step.text] + o_next_pre.texts
            });
        }
        if cands.len() > (u32::MAX as usize) || !fits {
            skipped_blocks.push(block_counter);
            proof {
                assert(step.skipped);
                assert(step.profile == pre_profile);
            }
        } else {
            let ranked = rank_new_lemmas(&cands, &profile);
            let cur = profile;
            let res = run_simulation_numerical(
                block,
                cur,
                &ranked,
                max_regeneration_attempts,
                target_ct_num,
                target_ct_den,
                max_words_to_activate,
            );
            let text = generate_final_text_block(block, &res.profile_state_for_text_generation);
            profile = res.profile_state_after_block_exposure.clone_profile();
            block_results.push(res);
            proof {
                assert(!step.skipped);
                assert(step.text == text@);
                assert(step.profile == profile@);
                assert forall|id: u32|
                    state_le(
                        state_of(initial_profile@, id),
                        state_of(profile@, id),
                    ) by {
                    assert(state_le(state_of(initial_profile@, id), state_of(pre_profile, id)));
                    assert(state_le(state_of(pre_profile, id), state_of(profile@, id)));
                }
            }
            let t = crate::text::trim_str(text.as_str());
            if !t.is_empty() {
                proof {
                    assert(crate::text::trim_of(step.text).len() > 0);
                }
                if have_text {
                    out.append("\n\n");
                } else {
                }
                out.append(text.as_str());
                proof {
                    let old_g = gtexts;
                    gtexts = gtexts.push(text@);
                    assert(gtexts.drop_last() =~= old_g);
                    assert(gtexts.last() == text@);
                    if old_g.len() == 0 {
                        assert(crate::render::join_with(gtexts, "\n\n"@) == gtexts[0]);
                    }
                    assert(old_g + (seq![step.text] + o_next_pre.texts) =~= gtexts
                        + o_next_pre.texts);
                }
                have_text = true;
            } else {
                proof {
                    assert(crate::text::trim_of(step.text).len() == 0);
                }
            }
        }
        start = end;
        block_counter += 1;
    }
    proof {
        let o_end = chapter_outcome(
            chapter_sentences@,
            profile@,
            n as int,
            bsize,
            tr,
            tn,
            td,
            tk,
        );
        assert(o_end.texts =~= Seq::<Seq<char>>::empty());
        assert(gtexts + o_end.texts =~= gtexts);
    }
    ChapterRunResult { output_text: out, final_profile: profile, block_results, skipped_blocks }
}

} // verus!
