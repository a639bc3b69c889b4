//! Lemma acquisition states and the association-list vocabulary model.
//!
//! Both learner profiles (string-keyed and id-keyed) store their records in
//! an association list with distinct keys; the spec functions here give that
//! list its mathematical reading, and the lemmas prove how writing one
//! record (`set_rec`), an exposure, and a forced activation act on it.

use vstd::prelude::*;

verus! {

/// Acquisition state of one vocabulary unit. Transitions only ever move
/// forward: `New` to `Active` to `Known`.
#[derive(Debug, Clone, Copy, PartialEq, Eq, Structural)]
pub enum LemmaState {
    New,
    Active,
    Known,
}

impl LemmaState {
    /// Position of the state in the `New < Active < Known` progression.
    pub open spec fn rank(self) -> int {
        match self {
            LemmaState::New => 0,
            LemmaState::Active => 1,
            LemmaState::Known => 2,
        }
    }
}

/// `a` precedes or equals `b` in the acquisition progression.
pub open spec fn state_le(a: LemmaState, b: LemmaState) -> bool {
    a.rank() <= b.rank()
}

/// Number of exposures after which an `Active` lemma becomes `Known`,
/// unless a record carries its own threshold.
pub const DEFAULT_EXPOSURE_THRESHOLD: u32 = 20;

/// Per-lemma acquisition record.
#[derive(Debug, Clone, Copy, PartialEq, Eq, Structural)]
pub struct LearnerLemmaInfo {
    pub state: LemmaState,
    pub exposure_count: u32,
    pub required_exposure_threshold: u32,
}

/// The record a lemma implicitly has before it is ever tracked.
pub open spec fn default_record() -> LearnerLemmaInfo {
    LearnerLemmaInfo {
        state: LemmaState::New,
        exposure_count: 0,
        required_exposure_threshold: DEFAULT_EXPOSURE_THRESHOLD,
    }
}

impl Default for LearnerLemmaInfo {
    /// An untracked lemma: `New`, no exposures, default threshold.
    fn default() -> (r: Self)
        ensures
            r == default_record(),
    {
        LearnerLemmaInfo {
            state: LemmaState::New,
            exposure_count: 0,
            required_exposure_threshold: DEFAULT_EXPOSURE_THRESHOLD,
        }
    }
}

/// Record after one more exposure: the count rises by one, a `New` lemma
/// becomes `Active`, and an `Active` lemma whose count has reached its
/// threshold becomes `Known`.
pub open spec fn bumped(r: LearnerLemmaInfo) -> LearnerLemmaInfo {
    let c = (r.exposure_count + 1) as u32;
    let s1 = if r.state == LemmaState::New {
        LemmaState::Active
    } else {
        r.state
    };
    let s2 = if s1 == LemmaState::Active && c >= r.required_exposure_threshold {
        LemmaState::Known
    } else {
        s1
    };
    LearnerLemmaInfo {
        state: s2,
        exposure_count: c,
        required_exposure_threshold: r.required_exposure_threshold,
    }
}

/// Record after a forced state change: the state advances to `st` if that
/// is a step forward, and is otherwise left alone (never a demotion).
pub open spec fn advanced(r: LearnerLemmaInfo, st: LemmaState) -> LearnerLemmaInfo {
    if r.state.rank() < st.rank() {
        LearnerLemmaInfo {
            state: st,
            exposure_count: r.exposure_count,
            required_exposure_threshold: r.required_exposure_threshold,
        }
    } else {
        r
    }
}

/// Some entry of the association list carries key `k`.
pub open spec fn has_key<K>(s: Seq<(K, LearnerLemmaInfo)>, k: K) -> bool {
    exists|i: int| 0 <= i < s.len() && (#[trigger] s[i]).0 == k
}

/// Index of the first entry with key `k`, or `-1` if there is none.
pub open spec fn find_idx<K>(s: Seq<(K, LearnerLemmaInfo)>, k: K) -> int
    decreases s.len(),
{
    if s.len() == 0 {
        -1
    } else if s[0].0 == k {
        0
    } else {
        let r = find_idx(s.skip(1), k);
        if r < 0 {
            -1
        } else {
            r + 1
        }
    }
}

/// No two entries share a key.
pub open spec fn distinct_keys<K>(s: Seq<(K, LearnerLemmaInfo)>) -> bool {
    forall|i: int, j: int| 0 <= i < j < s.len() ==> (#[trigger] s[i]).0 != (#[trigger] s[j]).0
}

/// The record stored under `k`, or the implicit default for an absent key.
pub open spec fn rec_of<K>(s: Seq<(K, LearnerLemmaInfo)>, k: K) -> LearnerLemmaInfo {
    if has_key(s, k) {
        s[find_idx(s, k)].1
    } else {
        default_record()
    }
}

/// The acquisition state of the lemma keyed `k` (an absent key is `New`).
pub open spec fn state_of<K>(s: Seq<(K, LearnerLemmaInfo)>, k: K) -> LemmaState {
    rec_of(s, k).state
}

/// The lemma keyed `k` is comprehended: `Known`, or also `Active` when
/// `known_only` is false.
pub open spec fn comprehended<K>(s: Seq<(K, LearnerLemmaInfo)>, k: K, known_only: bool) -> bool {
    if known_only {
        state_of(s, k) == LemmaState::Known
    } else {
        state_of(s, k) == LemmaState::Known || state_of(s, k) == LemmaState::Active
    }
}

/// How many tracked records are exactly in state `st`.
pub open spec fn count_in_state<K>(s: Seq<(K, LearnerLemmaInfo)>, st: LemmaState) -> int
    decreases s.len(),
{
    if s.len() == 0 {
        0
    } else {
        count_in_state(s.drop_last(), st) + if s.last().1.state == st {
            1int
        } else {
            0int
        }
    }
}

/// Sum of the exposure counts of all tracked records.
pub open spec fn sum_exposures<K>(s: Seq<(K, LearnerLemmaInfo)>) -> int
    decreases s.len(),
{
    if s.len() == 0 {
        0
    } else {
        sum_exposures(s.drop_last()) + s.last().1.exposure_count
    }
}

/// Every tracked record carries a positive threshold.
pub open spec fn thresholds_positive<K>(s: Seq<(K, LearnerLemmaInfo)>) -> bool {
    forall|i: int| 0 <= i < s.len() ==> (#[trigger] s[i]).1.required_exposure_threshold >= 1
}

/// Well-formed vocabulary list: distinct keys, positive thresholds, and a
/// total exposure count that fits the counter type.
pub open spec fn vocab_wf<K>(s: Seq<(K, LearnerLemmaInfo)>) -> bool {
    distinct_keys(s) && thresholds_positive(s) && sum_exposures(s) <= u32::MAX
}

/// The list with record `r` stored under `k`: written in place when the
/// key is tracked, appended otherwise.
pub open spec fn set_rec<K>(s: Seq<(K, LearnerLemmaInfo)>, k: K, r: LearnerLemmaInfo) -> Seq<
    (K, LearnerLemmaInfo),
> {
    if has_key(s, k) {
        s.update(find_idx(s, k), (k, r))
    } else {
        s.push((k, r))
    }
}

/// The list after one exposure of the lemma keyed `k`.
pub open spec fn expose_one<K>(s: Seq<(K, LearnerLemmaInfo)>, k: K) -> Seq<(K, LearnerLemmaInfo)> {
    set_rec(s, k, bumped(rec_of(s, k)))
}

/// The list after exposing every key of `ids` in order.
pub open spec fn expose_seq<K>(s: Seq<(K, LearnerLemmaInfo)>, ids: Seq<K>) -> Seq<
    (K, LearnerLemmaInfo),
>
    decreases ids.len(),
{
    if ids.len() == 0 {
        s
    } else {
        expose_one(expose_seq(s, ids.drop_last()), ids.last())
    }
}

/// The list after forcing the lemma keyed `k` toward state `st`.
pub open spec fn force_state<K>(s: Seq<(K, LearnerLemmaInfo)>, k: K, st: LemmaState) -> Seq<
    (K, LearnerLemmaInfo),
> {
    set_rec(s, k, advanced(rec_of(s, k), st))
}

/// `find_idx` finds the first entry with the key, and `-1` exactly when the
/// key is absent.
pub proof fn lemma_find_idx<K>(s: Seq<(K, LearnerLemmaInfo)>, k: K)
    ensures
        has_key(s, k) <==> find_idx(s, k) >= 0,
        has_key(s, k) ==> 0 <= find_idx(s, k) < s.len() && s[find_idx(s, k)].0 == k,
        has_key(s, k) ==> forall|j: int| 0 <= j < find_idx(s, k) ==> (#[trigger] s[j]).0 != k,
    decreases s.len(),
{
    if s.len() == 0 {
    } else if s[0].0 == k {
        assert(has_key(s, k));
    } else {
        lemma_find_idx(s.skip(1), k);
        assert forall|i: int| 0 <= i < s.len() && (#[trigger] s[i]).0 == k implies has_key(
            s.skip(1),
            k,
        ) by {
            assert(s.skip(1)[i - 1] == s[i]);
        }
        if has_key(s.skip(1), k) {
            let r = find_idx(s.skip(1), k);
            assert(s[r + 1] == s.skip(1)[r]);
            assert forall|j: int| 0 <= j < find_idx(s, k) implies (#[trigger] s[j]).0 != k by {
                if j > 0 {
                    assert(s.skip(1)[j - 1] == s[j]);
                }
            }
        }
    }
}

/// With distinct keys, any index holding the key is the found index.
pub proof fn lemma_find_idx_unique<K>(s: Seq<(K, LearnerLemmaInfo)>, k: K, i: int)
    requires
        distinct_keys(s),
        0 <= i < s.len(),
        s[i].0 == k,
    ensures
        find_idx(s, k) == i,
        rec_of(s, k) == s[i].1,
{
    assert(has_key(s, k));
    lemma_find_idx(s, k);
    let f = find_idx(s, k);
    if f < i {
        assert(s[f].0 == s[i].0);
    } else if f > i {
        assert(s[i].0 != k);
    }
}

/// An updated entry moves the sum of exposures by the difference at that
/// index.
pub proof fn lemma_sum_update<K>(s: Seq<(K, LearnerLemmaInfo)>, i: int, p: (K, LearnerLemmaInfo))
    requires
        0 <= i < s.len(),
    ensures
        sum_exposures(s.update(i, p)) == sum_exposures(s) - s[i].1.exposure_count
            + p.1.exposure_count,
    decreases s.len(),
{
    let t = s.update(i, p);
    if i == s.len() - 1 {
        assert(t.drop_last() =~= s.drop_last());
    } else {
        assert(t.drop_last() =~= s.drop_last().update(i, p));
        lemma_sum_update(s.drop_last(), i, p);
        assert(t.last() == s.last());
    }
}

/// A pushed entry adds its exposures to the sum.
pub proof fn lemma_sum_push<K>(s: Seq<(K, LearnerLemmaInfo)>, p: (K, LearnerLemmaInfo))
    ensures
        sum_exposures(s.push(p)) == sum_exposures(s) + p.1.exposure_count,
{
    assert(s.push(p).drop_last() =~= s);
}

/// The sum of exposure counts is never negative.
pub proof fn lemma_sum_nonneg<K>(s: Seq<(K, LearnerLemmaInfo)>)
    ensures
        sum_exposures(s) >= 0,
    decreases s.len(),
{
    if s.len() > 0 {
        lemma_sum_nonneg(s.drop_last());
    }
}

/// Every record's exposure count is at most the sum over the list.
pub proof fn lemma_count_le_sum<K>(s: Seq<(K, LearnerLemmaInfo)>, i: int)
    requires
        0 <= i < s.len(),
    ensures
        s[i].1.exposure_count <= sum_exposures(s),
    decreases s.len(),
{
    lemma_sum_nonneg(s.drop_last());
    if i == s.len() - 1 {
    } else {
        lemma_count_le_sum(s.drop_last(), i);
    }
}

/// A partial sum never exceeds the full sum.
pub proof fn lemma_sum_take_le<K>(s: Seq<(K, LearnerLemmaInfo)>, i: int)
    requires
        0 <= i <= s.len(),
    ensures
        sum_exposures(s.take(i)) <= sum_exposures(s),
    decreases s.len() - i,
{
    if i == s.len() {
        assert(s.take(i) =~= s);
    } else {
        lemma_sum_take_le(s, i + 1);
        assert(s.take(i + 1).drop_last() =~= s.take(i));
        assert(s.take(i + 1).last() == s[i]);
    }
}

/// The record under any key has an exposure count bounded by the sum.
pub proof fn lemma_rec_count_le_sum<K>(s: Seq<(K, LearnerLemmaInfo)>, k: K)
    ensures
        rec_of(s, k).exposure_count <= sum_exposures(s) || !has_key(s, k),
        sum_exposures(s) >= 0,
{
    lemma_sum_nonneg(s);
    if has_key(s, k) {
        lemma_find_idx(s, k);
        lemma_count_le_sum(s, find_idx(s, k));
    }
}

/// Effect of writing one record: key `k` now holds `r`, every other key's
/// record is untouched, the sum moves by the difference at `k`, and key
/// distinctness and positive thresholds are preserved.
pub proof fn lemma_set_rec<K>(s: Seq<(K, LearnerLemmaInfo)>, k: K, r: LearnerLemmaInfo)
    requires
        distinct_keys(s),
    ensures
        distinct_keys(set_rec(s, k, r)),
        has_key(set_rec(s, k, r), k),
        rec_of(set_rec(s, k, r), k) == r,
        forall|k2: K| k2 != k ==> rec_of(set_rec(s, k, r), k2) == rec_of(s, k2),
        forall|k2: K| has_key(set_rec(s, k, r), k2) <==> (has_key(s, k2) || k2 == k),
        sum_exposures(set_rec(s, k, r)) == sum_exposures(s) - rec_of(s, k).exposure_count
            + r.exposure_count,
        thresholds_positive(s) && r.required_exposure_threshold >= 1 ==> thresholds_positive(
            set_rec(s, k, r),
        ),
{
    let t = set_rec(s, k, r);
    lemma_find_idx(s, k);
    if has_key(s, k) {
        let i = find_idx(s, k);
        lemma_sum_update(s, i, (k, r));
        assert forall|i2: int, j2: int| 0 <= i2 < j2 < t.len() implies (#[trigger] t[i2]).0 != (
        #[trigger] t[j2]).0 by {
            assert(t[i2].0 == s[i2].0 && t[j2].0 == s[j2].0);
        }
        lemma_find_idx_unique(t, k, i);
        assert forall|k2: K| k2 != k implies rec_of(t, k2) == rec_of(s, k2) by {
            lemma_rec_of_update_other(s, i, (k, r), k2);
        }
        assert forall|k2: K| has_key(t, k2) implies (has_key(s, k2) || k2 == k) by {
            let w = choose|w: int| 0 <= w < t.len() && (#[trigger] t[w]).0 == k2;
            if w != i {
                assert(s[w].0 == k2);
            }
        }
        assert forall|k2: K| has_key(s, k2) implies has_key(t, k2) by {
            let w = choose|w: int| 0 <= w < s.len() && (#[trigger] s[w]).0 == k2;
            if w == i {
                assert(t[i].0 == k && s[i].0 == k);
            } else {
                assert(t[w].0 == k2);
            }
        }
    } else {
        let p = (k, r);
        lemma_sum_push(s, p);
        assert forall|i2: int, j2: int| 0 <= i2 < j2 < t.len() implies (#[trigger] t[i2]).0 != (
        #[trigger] t[j2]).0 by {
            if j2 < s.len() {
                assert(t[i2] == s[i2] && t[j2] == s[j2]);
            } else {
                assert(t[i2] == s[i2]);
                assert(!(s[i2].0 == k)) by {
                    if s[i2].0 == k {
                        assert(has_key(s, k));
                    }
                }
            }
        }
        lemma_find_idx_unique(t, k, s.len() as int);
        assert forall|k2: K| k2 != k implies rec_of(t, k2) == rec_of(s, k2) by {
            lemma_rec_of_push_other(s, p, k2);
        }
        assert forall|k2: K| has_key(t, k2) implies (has_key(s, k2) || k2 == k) by {
            let w = choose|w: int| 0 <= w < t.len() && (#[trigger] t[w]).0 == k2;
            if w < s.len() {
                assert(s[w].0 == k2);
            }
        }
        assert forall|k2: K| has_key(s, k2) implies has_key(t, k2) by {
            let w = choose|w: int| 0 <= w < s.len() && (#[trigger] s[w]).0 == k2;
            assert(t[w].0 == k2);
        }
    }
}

/// Updating the entry at `i` while keeping its key leaves every other
/// key's record unchanged.
proof fn lemma_rec_of_update_other<K>(
    s: Seq<(K, LearnerLemmaInfo)>,
    i: int,
    p: (K, LearnerLemmaInfo),
    k2: K,
)
    requires
        distinct_keys(s),
        0 <= i < s.len(),
        p.0 == s[i].0,
        k2 != p.0,
    ensures
        rec_of(s.update(i, p), k2) == rec_of(s, k2),
{
    let t = s.update(i, p);
    if has_key(s, k2) {
        lemma_find_idx(s, k2);
        let f = find_idx(s, k2);
        assert(t[f].0 == k2);
        assert forall|i2: int, j2: int| 0 <= i2 < j2 < t.len() implies (#[trigger] t[i2]).0 != (
        #[trigger] t[j2]).0 by {
            assert(t[i2].0 == s[i2].0 && t[j2].0 == s[j2].0);
        }
        lemma_find_idx_unique(t, k2, f);
        assert(f != i);
    } else {
        if has_key(t, k2) {
            let w = choose|w: int| 0 <= w < t.len() && (#[trigger] t[w]).0 == k2;
            assert(s[w].0 == k2);
        }
    }
}

/// A pushed entry with a fresh key leaves every other key's record
/// unchanged.
proof fn lemma_rec_of_push_other<K>(s: Seq<(K, LearnerLemmaInfo)>, p: (K, LearnerLemmaInfo), k2: K)
    requires
        k2 != p.0,
    ensures
        rec_of(s.push(p), k2) == rec_of(s, k2),
{
    let t = s.push(p);
    if has_key(s, k2) {
        lemma_find_idx(s, k2);
        lemma_find_idx(t, k2);
        let f = find_idx(s, k2);
        assert(t[f] == s[f]);
        assert(has_key(t, k2));
        let g = find_idx(t, k2);
        assert(g < s.len()) by {
            if g == s.len() {
                assert(t[g] == p);
            }
        }
        assert(s[g] == t[g]);
        if g < f {
            assert(s[g].0 != k2);
        } else if f < g {
            assert(t[f].0 != k2);
        }
    } else {
        if has_key(t, k2) {
            let w = choose|w: int| 0 <= w < t.len() && (#[trigger] t[w]).0 == k2;
            if w < s.len() {
                assert(s[w].0 == k2);
            } else {
                assert(t[w] == p);
            }
        }
    }
}

/// Effect of one exposure, specialized from `lemma_set_rec`.
pub proof fn lemma_expose_one<K>(s: Seq<(K, LearnerLemmaInfo)>, k: K)
    requires
        distinct_keys(s),
        thresholds_positive(s),
        rec_of(s, k).exposure_count < u32::MAX,
    ensures
        distinct_keys(expose_one(s, k)),
        thresholds_positive(expose_one(s, k)),
        rec_of(expose_one(s, k), k) == bumped(rec_of(s, k)),
        forall|k2: K| k2 != k ==> rec_of(expose_one(s, k), k2) == rec_of(s, k2),
        forall|k2: K| has_key(expose_one(s, k), k2) <==> (has_key(s, k2) || k2 == k),
        sum_exposures(expose_one(s, k)) == sum_exposures(s) + 1,
{
    if has_key(s, k) {
        lemma_find_idx(s, k);
        assert(rec_of(s, k).required_exposure_threshold >= 1);
    }
    lemma_set_rec(s, k, bumped(rec_of(s, k)));
}

/// Effect of a forced state change, specialized from `lemma_set_rec`.
pub proof fn lemma_force_state<K>(s: Seq<(K, LearnerLemmaInfo)>, k: K, st: LemmaState)
    requires
        distinct_keys(s),
        thresholds_positive(s),
    ensures
        distinct_keys(force_state(s, k, st)),
        thresholds_positive(force_state(s, k, st)),
        rec_of(force_state(s, k, st), k) == advanced(rec_of(s, k), st),
        forall|k2: K| k2 != k ==> rec_of(force_state(s, k, st), k2) == rec_of(s, k2),
        forall|k2: K| has_key(force_state(s, k, st), k2) <==> (has_key(s, k2) || k2 == k),
        sum_exposures(force_state(s, k, st)) == sum_exposures(s),
{
    if has_key(s, k) {
        lemma_find_idx(s, k);
        assert(rec_of(s, k).required_exposure_threshold >= 1);
    }
    lemma_set_rec(s, k, advanced(rec_of(s, k), st));
}

/// The acquisition progression is transitive: chains of exposures and
/// forced activations can only ever move a lemma forward through
/// `New`, `Active`, `Known`, never back.
pub proof fn lemma_state_progression(a: LemmaState, b: LemmaState, c: LemmaState)
    requires
        state_le(a, b),
        state_le(b, c),
    ensures
        state_le(a, c),
{
}

/// A bump never moves a state backward.
pub proof fn lemma_bumped_monotone(r: LearnerLemmaInfo)
    ensures
        state_le(r.state, bumped(r).state),
{
}

/// A forced advance never moves a state backward.
pub proof fn lemma_advanced_monotone(r: LearnerLemmaInfo, st: LemmaState)
    ensures
        state_le(r.state, advanced(r, st).state),
{
}

/// Exposing a whole sequence of keys never moves any state backward, keeps
/// the list well-formed, and adds exactly one exposure per key.
pub proof fn lemma_expose_seq_monotone<K>(s: Seq<(K, LearnerLemmaInfo)>, ids: Seq<K>, k: K)
    requires
        distinct_keys(s),
        thresholds_positive(s),
        sum_exposures(s) + ids.len() <= u32::MAX,
    ensures
        distinct_keys(expose_seq(s, ids)),
        thresholds_positive(expose_seq(s, ids)),
        sum_exposures(expose_seq(s, ids)) == sum_exposures(s) + ids.len(),
        state_le(state_of(s, k), state_of(expose_seq(s, ids), k)),
    decreases ids.len(),
{
    if ids.len() == 0 {
    } else {
        let pre = expose_seq(s, ids.drop_last());
        lemma_expose_seq_monotone(s, ids.drop_last(), k);
        lemma_expose_seq_monotone(s, ids.drop_last(), ids.last());
        lemma_rec_count_le_sum(pre, ids.last());
        lemma_expose_one(pre, ids.last());
        if k == ids.last() {
            lemma_bumped_monotone(rec_of(pre, k));
        }
    }
}

} // verus!
