//! The string-keyed learner profile.
//!
//! The same acquisition state machine as the id-keyed profile, keyed by
//! lowercased lemma strings: a lemma that was never tracked is implicitly
//! `New` with no exposures, exposures only ever advance a lemma's state,
//! and empty lemma strings are ignored.

use vstd::prelude::*;

use crate::text::lower_of;
use crate::text::lowercase_str;
use crate::text::trim_of;
use crate::text::trim_str;
use crate::vocab::LearnerLemmaInfo;
use crate::vocab::LemmaState;
use crate::vocab::bumped;
use crate::vocab::comprehended;
use crate::vocab::count_in_state;
use crate::vocab::distinct_keys;
use crate::vocab::expose_one;
use crate::vocab::has_key;
use crate::vocab::lemma_expose_one;
use crate::vocab::lemma_find_idx_unique;
use crate::vocab::lemma_rec_count_le_sum;
use crate::vocab::rec_of;
use crate::vocab::set_rec;
use crate::vocab::state_le;
use crate::vocab::state_of;
use crate::vocab::sum_exposures;
use crate::vocab::thresholds_positive;
use crate::vocab::vocab_wf;

verus! {

/// The list after exposing every raw lemma of `ls` in order: a lemma
/// whose trimmed form is empty is skipped, any other is exposed under its
/// lowercased key.
pub open spec fn expose_lemmas(
    p: Seq<(Seq<char>, LearnerLemmaInfo)>,
    ls: Seq<Seq<char>>,
) -> Seq<(Seq<char>, LearnerLemmaInfo)>
    decreases ls.len(),
{
    if ls.len() == 0 {
        p
    } else {
        let p2 = expose_lemmas(p, ls.drop_last());
        if trim_of(ls.last()).len() == 0 {
            p2
        } else {
            expose_one(p2, lower_of(ls.last()))
        }
    }
}

/// Exposing raw lemmas keeps the list well-formed, adds at most one
/// exposure per lemma, and never moves any state backward.
pub proof fn lemma_expose_lemmas_monotone(
    p: Seq<(Seq<char>, LearnerLemmaInfo)>,
    ls: Seq<Seq<char>>,
    k: Seq<char>,
)
    requires
        distinct_keys(p),
        thresholds_positive(p),
        sum_exposures(p) + ls.len() <= u32::MAX,
    ensures
        distinct_keys(expose_lemmas(p, ls)),
        thresholds_positive(expose_lemmas(p, ls)),
        sum_exposures(p) <= sum_exposures(expose_lemmas(p, ls)) <= sum_exposures(p) + ls.len(),
        state_le(state_of(p, k), state_of(expose_lemmas(p, ls), k)),
    decreases ls.len(),
{
    if ls.len() == 0 {
    } else {
        let pre = expose_lemmas(p, ls.drop_last());
        lemma_expose_lemmas_monotone(p, ls.drop_last(), k);
        if trim_of(ls.last()).len() == 0 {
        } else {
            lemma_expose_lemmas_monotone(p, ls.drop_last(), lower_of(ls.last()));
            lemma_rec_count_le_sum(pre, lower_of(ls.last()));
            lemma_expose_one(pre, lower_of(ls.last()));
            if k == lower_of(ls.last()) {
                crate::vocab::lemma_bumped_monotone(rec_of(pre, k));
            }
        }
    }
}

/// Learner profile keyed by lowercased lemma strings.
#[derive(Debug, Clone)]
pub struct LearnerProfile {
    vocabulary: Vec<(String, LearnerLemmaInfo)>,
}

impl View for LearnerProfile {
    type V = Seq<(Seq<char>, LearnerLemmaInfo)>;

    closed spec fn view(&self) -> Seq<(Seq<char>, LearnerLemmaInfo)> {
        self.vocabulary@.map_values(|p: (String, LearnerLemmaInfo)| (p.0@, p.1))
    }
}

impl LearnerProfile {
    /// Internal invariant: distinct keys, positive thresholds, and a total
    /// exposure count that fits the counter type.
    pub open spec fn wf(&self) -> bool {
        vocab_wf(self@)
    }

    /// An empty profile: every lemma is implicitly `New`.
    pub fn new() -> (r: Self)
        ensures
            r@ =~= Seq::<(Seq<char>, LearnerLemmaInfo)>::empty(),
            r.wf(),
    {
        let r = LearnerProfile { vocabulary: Vec::new() };
        proof {
            assert(r@ =~= Seq::<(Seq<char>, LearnerLemmaInfo)>::empty());
        }
        r
    }

    /// The key a lemma string is tracked under: its lowercased form.
    fn get_key(lemma_str: &str) -> (r: String)
        ensures
            r@ == lower_of(lemma_str@),
    {
        lowercase_str(lemma_str)
    }

    /// Index of the entry tracking `key`, if there is one.
    fn find_entry(&self, key: &String) -> (r: Option<usize>)
        ensures
            r matches Some(i) ==> i < self@.len() && self@[i as int].0 == key@,
            r is None ==> !has_key(self@, key@),
    {
        let n = self.vocabulary.len();
        let mut i: usize = 0;
        while i < n
            invariant
                i <= n,
                n == self@.len(),
                forall|j: int| 0 <= j < i ==> (#[trigger] self@[j]).0 != key@,
            decreases n - i,
        {
            if self.vocabulary[i].0 == *key {
                return Some(i);
            }
            i += 1;
        }
        None
    }

    /// The record tracked for the lemma, or `None` if it is untracked.
    pub fn get_lemma_info(&self, lemma_str: &str) -> (r: Option<&LearnerLemmaInfo>)
        requires
            self.wf(),
        ensures
            r is Some <==> has_key(self@, lower_of(lemma_str@)),
            r matches Some(info) ==> *info == rec_of(self@, lower_of(lemma_str@)),
    {
        let key = Self::get_key(lemma_str);
        match self.find_entry(&key) {
            Some(i) => {
                proof {
                    lemma_find_idx_unique(self@, key@, i as int);
                }
                Some(&self.vocabulary[i].1)
            },
            None => None,
        }
    }

    /// Mutable access to the lemma's record, tracking the lemma with its
    /// default record first when absent.
    pub fn get_lemma_info_mut(&mut self, lemma_str: &str) -> (info: &mut LearnerLemmaInfo)
        requires
            old(self).wf(),
        ensures
            *info == rec_of(old(self)@, lower_of(lemma_str@)),
            final(self)@ == set_rec(old(self)@, lower_of(lemma_str@), *final(info)),
    {
        let key = Self::get_key(lemma_str);
        let idx = match self.find_entry(&key) {
            Some(i) => {
                proof {
                    lemma_find_idx_unique(self@, key@, i as int);
                }
                i
            },
            None => {
                let n = self.vocabulary.len();
                self.vocabulary.push((key, LearnerLemmaInfo::default()));
                proof {
                    assert(self@ =~= old(self)@.push(
                        (lower_of(lemma_str@), crate::vocab::default_record()),
                    ));
                    lemma_find_idx_unique(self@, lower_of(lemma_str@), n as int);
                }
                n
            },
        };
        let ghost pre = self@;
        let ghost prevec = self.vocabulary@;
        let r = &mut self.vocabulary[idx].1;
        proof {
            assert(prevec[idx as int].0@ == lower_of(lemma_str@));
            assert(prevec.update(idx as int, (prevec[idx as int].0, *final(r))).map_values(
                |p: (String, LearnerLemmaInfo)| (p.0@, p.1),
            ) =~= pre.update(idx as int, (lower_of(lemma_str@), *final(r))));
            assert(set_rec(old(self)@, lower_of(lemma_str@), *final(r)) =~= pre.update(
                idx as int,
                (lower_of(lemma_str@), *final(r)),
            ));
        }
        r
    }

    /// The lemma is `Known` or `Active`; an untracked lemma is neither.
    pub fn is_lemma_known_or_active(&self, lemma_str: &str) -> (r: bool)
        requires
            self.wf(),
        ensures
            r == comprehended(self@, lower_of(lemma_str@), false),
    {
        match self.get_lemma_info(lemma_str) {
            Some(info) => info.state == LemmaState::Known || info.state == LemmaState::Active,
            None => false,
        }
    }

    /// Record one exposure of every lemma of `lemmas`, in order, skipping
    /// any whose trimmed form is empty: each exposure raises the lemma's
    /// count by one and advances its state as the thresholds say. No state
    /// ever moves backward.
    pub fn record_exposures(&mut self, lemmas: &[String])
        requires
            old(self).wf(),
            sum_exposures(old(self)@) + lemmas@.len() <= u32::MAX,
        ensures
            final(self).wf(),
            final(self)@ == expose_lemmas(old(self)@, crate::dictionary::lemma_views(lemmas@)),
            forall|k: Seq<char>| state_le(state_of(old(self)@, k), state_of(final(self)@, k)),
    {
        let n = lemmas.len();
        let ghost lv = crate::dictionary::lemma_views(lemmas@);
        let mut i: usize = 0;
        while i < n
            invariant
                i <= n,
                n == lemmas@.len(),
                lv == crate::dictionary::lemma_views(lemmas@),
                old(self).wf(),
                sum_exposures(old(self)@) + n <= u32::MAX,
                self@ == expose_lemmas(old(self)@, lv.take(i as int)),
                distinct_keys(self@),
                thresholds_positive(self@),
                sum_exposures(self@) <= sum_exposures(old(self)@) + i,
            decreases n - i,
        {
            proof {
                assert(lv.take(i + 1).drop_last() =~= lv.take(i as int));
                assert(lv.take(i + 1).last() == lemmas@[i as int]@);
            }
            let t = trim_str(lemmas[i].as_str());
            if !t.is_empty() {
                let key = Self::get_key(lemmas[i].as_str());
                proof {
                    lemma_rec_count_le_sum(self@, key@);
                }
                let ghost pre = self@;
                let found = self.find_entry(&key);
                match found {
                    Some(j) => {
                        proof {
                            lemma_find_idx_unique(self@, key@, j as int);
                        }
                        let rec = self.vocabulary[j].1;
                        let nr = bump_record_exec(rec);
                        self.vocabulary[j] = (key, nr);
                        proof {
                            lemma_expose_one(pre, lower_of(lemmas@[i as int]@));
                            assert(self@ =~= expose_one(pre, lower_of(lemmas@[i as int]@)));
                        }
                    },
                    None => {
                        let nr = bump_record_exec(LearnerLemmaInfo::default());
                        self.vocabulary.push((key, nr));
                        proof {
                            lemma_expose_one(pre, lower_of(lemmas@[i as int]@));
                            assert(self@ =~= expose_one(pre, lower_of(lemmas@[i as int]@)));
                        }
                    },
                }
            }
            i += 1;
        }
        proof {
            assert(lv.take(n as int) =~= lv);
            assert forall|k: Seq<char>| state_le(state_of(old(self)@, k), state_of(self@, k)) by {
                lemma_expose_lemmas_monotone(old(self)@, lv, k);
            }
        }
    }

    /// Number of tracked lemmas that are `Known` or `Active`.
    pub fn count_total_known_or_active(&self) -> (r: usize)
        ensures
            r as int == count_in_state(self@, LemmaState::Known) + count_in_state(
                self@,
                LemmaState::Active,
            ),
    {
        let n = self.vocabulary.len();
        let mut i: usize = 0;
        let mut acc: usize = 0;
        while i < n
            invariant
                i <= n,
                n == self@.len(),
                acc <= 2 * i,
                acc as int == count_in_state(self@.take(i as int), LemmaState::Known)
                    + count_in_state(self@.take(i as int), LemmaState::Active),
            decreases n - i,
        {
            proof {
                assert(self@.take(i + 1).drop_last() =~= self@.take(i as int));
                assert(self@.take(i + 1).last() == self@[i as int]);
                lemma_counts_bounded(self@, i as int);
            }
            let st = self.vocabulary[i].1.state;
            if st == LemmaState::Known || st == LemmaState::Active {
                acc += 1;
            }
            i += 1;
        }
        proof {
            assert(self@.take(n as int) =~= self@);
        }
        acc
    }

    /// Number of distinct lemmas the profile tracks.
    pub fn vocabulary_size(&self) -> (r: usize)
        ensures
            r == self@.len(),
    {
        self.vocabulary.len()
    }

    /// Number of tracked lemmas whose state is exactly `Known`.
    pub fn count_known(&self) -> (r: usize)
        ensures
            r as int == count_in_state(self@, LemmaState::Known),
    {
        self.count_state(LemmaState::Known)
    }

    /// Number of tracked lemmas whose state is exactly `Active`.
    pub fn count_active_only(&self) -> (r: usize)
        ensures
            r as int == count_in_state(self@, LemmaState::Active),
    {
        self.count_state(LemmaState::Active)
    }

    /// Sum of the exposure counts over all tracked lemmas.
    pub fn total_exposure_count(&self) -> (r: u32)
        requires
            self.wf(),
        ensures
            r as int == sum_exposures(self@),
    {
        let n = self.vocabulary.len();
        let mut i: usize = 0;
        let mut acc: u32 = 0;
        while i < n
            invariant
                i <= n,
                n == self@.len(),
                self.wf(),
                acc as int == sum_exposures(self@.take(i as int)),
            decreases n - i,
        {
            proof {
                assert(self@.take(i + 1).drop_last() =~= self@.take(i as int));
                assert(self@.take(i + 1).last() == self@[i as int]);
                crate::vocab::lemma_sum_take_le(self@, i + 1);
            }
            acc = acc + self.vocabulary[i].1.exposure_count;
            i += 1;
        }
        proof {
            assert(self@.take(n as int) =~= self@);
        }
        acc
    }

    /// Shared counting loop for a single state.
    fn count_state(&self, st: LemmaState) -> (r: usize)
        ensures
            r as int == count_in_state(self@, st),
    {
        let n = self.vocabulary.len();
        let mut i: usize = 0;
        let mut acc: usize = 0;
        while i < n
            invariant
                i <= n,
                n == self@.len(),
                acc <= i,
                acc as int == count_in_state(self@.take(i as int), st),
            decreases n - i,
        {
            proof {
                assert(self@.take(i + 1).drop_last() =~= self@.take(i as int));
                assert(self@.take(i + 1).last() == self@[i as int]);
            }
            if self.vocabulary[i].1.state == st {
                acc += 1;
            }
            i += 1;
        }
        proof {
            assert(self@.take(n as int) =~= self@);
        }
        acc
    }
}

/// Partial two-state counts are bounded by the number of entries seen.
proof fn lemma_counts_bounded(s: Seq<(Seq<char>, LearnerLemmaInfo)>, i: int)
    requires
        0 <= i <= s.len(),
    ensures
        0 <= count_in_state(s.take(i), LemmaState::Known) + count_in_state(
            s.take(i),
            LemmaState::Active,
        ) <= i,
    decreases i,
{
    if i > 0 {
        lemma_counts_bounded(s, i - 1);
        assert(s.take(i).drop_last() =~= s.take(i - 1));
    }
}

/// Executable twin of `bumped` for the string-keyed profile.
fn bump_record_exec(r: LearnerLemmaInfo) -> (r2: LearnerLemmaInfo)
    requires
        r.exposure_count < u32::MAX,
    ensures
        r2 == bumped(r),
{
    let c = r.exposure_count + 1;
    let s1 = if r.state == LemmaState::New {
        LemmaState::Active
    } else {
        r.state
    };
    let s2 = if s1 == LemmaState::Active && c >= r.required_exposure_threshold {
        LemmaState::Known
    } else {
        s1
    };
    LearnerLemmaInfo { state: s2, exposure_count: c, required_exposure_threshold: r.required_exposure_threshold }
}

} // verus!
