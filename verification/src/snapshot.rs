//! The persistent snapshot value: one learner profile together with the
//! dictionary its ids refer to. Serialization lives outside the library;
//! this is the plain pair the run starts from and commits after each
//! processed instance.

use vstd::prelude::*;

use crate::dictionary::GlobalLemmaDictionary;
use crate::numerical_types::NumericalLearnerProfile;

verus! {

/// A learner profile and the dictionary its lemma ids index into.
#[derive(Debug, Clone)]
pub struct ProfileSnapshot {
    pub profile: NumericalLearnerProfile,
    pub dictionary: GlobalLemmaDictionary,
}

impl ProfileSnapshot {
    /// Both halves satisfy their internal invariants.
    pub open spec fn wf(&self) -> bool {
        self.profile.wf() && self.dictionary.wf()
    }

    /// A snapshot of an empty run: empty profile, empty dictionary.
    pub fn new_empty() -> (r: Self)
        ensures
            r.wf(),
            r.profile@ =~= Seq::<(u32, crate::vocab::LearnerLemmaInfo)>::empty(),
            r.dictionary@ =~= Seq::<Seq<char>>::empty(),
    {
        ProfileSnapshot {
            profile: NumericalLearnerProfile::new(),
            dictionary: GlobalLemmaDictionary::new(),
        }
    }
}

} // verus!
