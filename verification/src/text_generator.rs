//! Final text emission for a block.
//!
//! The emitted text is produced by the very same renderer that the
//! calibrator probes with, invoked against the finalized rendering
//! profile, so the text always matches the level decisions that the
//! comprehension ratio was measured on.

use vstd::prelude::*;
use vstd::string::StringExecFns;

use crate::numerical_types::NumericalLearnerProfile;
use crate::numerical_types::NumericalProcessedSentence;
use crate::render::RenderedSentence;
use crate::render::join_with;
use crate::render::render_sentence;
use crate::render::sentence_text;
use crate::vocab::LearnerLemmaInfo;

verus! {

/// The texts of all sentences of a block under profile `p`.
pub open spec fn block_texts(
    sents: Seq<NumericalProcessedSentence>,
    p: Seq<(u32, LearnerLemmaInfo)>,
) -> Seq<Seq<char>> {
    sents.map_values(|s: NumericalProcessedSentence| sentence_text(s, p))
}

/// The finalized text of a block: every sentence rendered against `p`,
/// joined by blank lines.
pub open spec fn block_text(
    sents: Seq<NumericalProcessedSentence>,
    p: Seq<(u32, LearnerLemmaInfo)>,
) -> Seq<char> {
    join_with(block_texts(sents, p), "\n\n"@)
}

/// Emit the block's finalized text: each sentence rendered by the single
/// renderer against `profile_for_generation`, joined by blank lines. The
/// level decisions are the same ones the calibrator's id pass made under
/// this profile, because both go through the one renderer.
pub fn generate_final_text_block(
    block_sentences: &[NumericalProcessedSentence],
    profile_for_generation: &NumericalLearnerProfile,
) -> (r: String)
    requires
        profile_for_generation.wf(),
    ensures
        r@ == block_text(block_sentences@, profile_for_generation@),
{
    let n = block_sentences.len();
    let mut out = String::new();
    let mut i: usize = 0;
    while i < n
        invariant
            i <= n,
            n == block_sentences@.len(),
            profile_for_generation.wf(),
            i == 0 ==> out@ == Seq::<char>::empty(),
            i > 0 ==> out@ == join_with(
                block_texts(block_sentences@, profile_for_generation@).take(i as int),
                "\n\n"@,
            ),
        decreases n - i,
    {
        let rs: RenderedSentence = render_sentence(&block_sentences[i], profile_for_generation);
        if i > 0 {
            out.append("\n\n");
        }
        out.append(rs.text.as_str());
        proof {
            let tv = block_texts(block_sentences@, profile_for_generation@);
            assert(tv.take(i + 1).drop_last() =~= tv.take(i as int));
            assert(tv.take(i + 1).last() == sentence_text(
                block_sentences@[i as int],
                profile_for_generation@,
            ));
            if i == 0 {
                assert(tv.take(1)[0] == sentence_text(
                    block_sentences@[0],
                    profile_for_generation@,
                ));
            }
        }
        i += 1;
    }
    proof {
        let tv = block_texts(block_sentences@, profile_for_generation@);
        if n > 0 {
            assert(tv.take(n as int) =~= tv);
        } else {
            assert(tv.len() == 0);
        }
    }
    out
}

} // verus!
