//! Preprocessing: from the parsed string-level chapter to the numerical
//! chapter the renderer works on.
//!
//! Every lemma of the chapter is interned into the dictionary first; the
//! sentences are then rebuilt with each lemma list resolved to the ids the
//! dictionary assigned. A lemma whose normalization is empty is dropped,
//! never interned and never resolved.

use vstd::prelude::*;

use crate::dictionary::GlobalLemmaDictionary;
use crate::dictionary::chapter_lemma_count;
use crate::dictionary::find_str;
use crate::dictionary::has_str;
use crate::dictionary::intern_chapter;
use crate::dictionary::lemma_views;
use crate::llm_data::DiglotEntry;
use crate::llm_data::ProcessedChapter;
use crate::llm_data::ProcessedSentence;
use crate::numerical_types::NumericalChapter;
use crate::numerical_types::NumericalDiglotEntry;
use crate::numerical_types::NumericalDiglotSegmentMap;
use crate::numerical_types::NumericalPhraseAlignment;
use crate::numerical_types::NumericalProcessedSentence;
use crate::numerical_types::NumericalSegmentData;
use crate::numerical_types::NumericalSegmentLemmas;
use crate::text::normalize;

verus! {

/// The ids of the raw lemmas of `keys` under dictionary `df`, in order:
/// a lemma is kept exactly when its normalization is non-empty and
/// stored, and resolves to the id of the stored equal string.
pub open spec fn kept_ids(df: Seq<Seq<char>>, keys: Seq<Seq<char>>) -> Seq<u32>
    decreases keys.len(),
{
    if keys.len() == 0 {
        Seq::empty()
    } else {
        let rest = kept_ids(df, keys.drop_last());
        let k = normalize(keys.last());
        if k.len() > 0 && has_str(df, k) {
            rest.push(find_str(df, k) as u32)
        } else {
            rest
        }
    }
}

/// The numerical diglot entries `out` are exactly the entries of `src`
/// whose target lemma survives normalization, in order, with the target
/// resolved to its id and the other fields carried over.
pub open spec fn diglot_matches(
    df: Seq<Seq<char>>,
    src: Seq<DiglotEntry>,
    out: Seq<NumericalDiglotEntry>,
) -> bool
    decreases src.len(),
{
    if src.len() == 0 {
        out.len() == 0
    } else {
        let k = normalize(src.last().spa_lemma@);
        if k.len() > 0 && has_str(df, k) {
            out.len() > 0 && diglot_matches(df, src.drop_last(), out.drop_last())
                && out.last().eng_word_original@ == src.last().eng_word@
                && out.last().spa_lemma_id as int == find_str(df, k)
                && out.last().exact_spa_form_original@ == src.last().exact_spa_form@
                && out.last().viable == src.last().viable
        } else {
            diglot_matches(df, src.drop_last(), out)
        }
    }
}

/// The locked-phrase list is carried over unchanged.
pub open spec fn locked_matches(src: Option<Vec<String>>, out: Option<Vec<String>>) -> bool {
    match src {
        Option::None => out is None,
        Option::Some(ls) => out matches Option::Some(os) && lemma_views(os@) == lemma_views(ls@),
    }
}

/// One numerical sentence is the faithful resolution of one string-level
/// sentence under dictionary `df`.
pub open spec fn sentence_matches(
    df: Seq<Seq<char>>,
    src: ProcessedSentence,
    out: NumericalProcessedSentence,
) -> bool {
    &&& out.sentence_id_str@ == src.sentence_id@
    &&& out.adv_s_original@ == src.adv_s@
    &&& out.sim_s_original@ == src.sim_s@
    &&& out.sim_e_original@ == src.sim_e@
    &&& out.adv_s_lemma_ids@ == kept_ids(df, lemma_views(src.adv_s_lemmas@))
    &&& out.sim_s_segments_numerical@.len() == src.sim_s_segments@.len()
    &&& (forall|j: int|
        0 <= j < src.sim_s_segments@.len() ==> {
            &&& (#[trigger] out.sim_s_segments_numerical@[j]).id_str@ == src.sim_s_segments@[j].id@
            &&& out.sim_s_segments_numerical@[j].text_original@ == src.sim_s_segments@[j].text@
        })
    &&& out.phrase_alignments_numerical@.len() == src.phrase_alignments@.len()
    &&& (forall|j: int|
        0 <= j < src.phrase_alignments@.len() ==> {
            &&& (#[trigger] out.phrase_alignments_numerical@[j]).segment_id_str@
                == src.phrase_alignments@[j].segment_id@
            &&& out.phrase_alignments_numerical@[j].adv_s_span_original@
                == src.phrase_alignments@[j].adv_s_span@
            &&& out.phrase_alignments_numerical@[j].sim_e_span_original@
                == src.phrase_alignments@[j].sim_e_span@
        })
    &&& out.sim_s_lemmas_numerical@.len() == src.sim_s_lemmas@.len()
    &&& (forall|j: int|
        0 <= j < src.sim_s_lemmas@.len() ==> {
            &&& (#[trigger] out.sim_s_lemmas_numerical@[j]).segment_id_str@
                == src.sim_s_lemmas@[j].segment_id@
            &&& out.sim_s_lemmas_numerical@[j].lemma_ids@ == kept_ids(
                df,
                lemma_views(src.sim_s_lemmas@[j].lemmas@),
            )
        })
    &&& out.diglot_map_numerical@.len() == src.diglot_map@.len()
    &&& (forall|j: int|
        0 <= j < src.diglot_map@.len() ==> {
            &&& (#[trigger] out.diglot_map_numerical@[j]).segment_id_str@
                == src.diglot_map@[j].segment_id@
            &&& diglot_matches(
                df,
                src.diglot_map@[j].entries@,
                out.diglot_map_numerical@[j].entries@,
            )
        })
    &&& locked_matches(src.locked_phrases, out.locked_phrase_segment_id_strs)
}

/// Resolve one raw lemma list to ids under the current dictionary.
fn resolve_ids(dictionary: &GlobalLemmaDictionary, lemmas: &Vec<String>) -> (r: Vec<u32>)
    requires
        dictionary.wf(),
    ensures
        r@ == kept_ids(dictionary@, lemma_views(lemmas@)),
{
    let n = lemmas.len();
    let mut ids: Vec<u32> = Vec::new();
    let mut i: usize = 0;
    while i < n
        invariant
            i <= n,
            n == lemmas@.len(),
            dictionary.wf(),
            ids@ == kept_ids(dictionary@, lemma_views(lemmas@.take(i as int))),
        decreases n - i,
    {
        match dictionary.get_id(lemmas[i].as_str()) {
            Some(id) => {
                ids.push(id);
            },
            None => {},
        }
        proof {
            assert(lemma_views(lemmas@.take(i + 1)).drop_last() =~= lemma_views(
                lemmas@.take(i as int),
            ));
            assert(lemma_views(lemmas@.take(i + 1)).last() == lemmas@[i as int]@);
        }
        i += 1;
    }
    proof {
        assert(lemma_views(lemmas@.take(n as int)) =~= lemma_views(lemmas@));
    }
    ids
}

/// Resolve one diglot entry list, dropping entries whose target lemma
/// does not survive normalization.
fn resolve_diglot_entries(
    dictionary: &GlobalLemmaDictionary,
    entries: &Vec<DiglotEntry>,
) -> (r: Vec<NumericalDiglotEntry>)
    requires
        dictionary.wf(),
    ensures
        diglot_matches(dictionary@, entries@, r@),
{
    let n = entries.len();
    let mut out: Vec<NumericalDiglotEntry> = Vec::new();
    let mut i: usize = 0;
    while i < n
        invariant
            i <= n,
            n == entries@.len(),
            dictionary.wf(),
            diglot_matches(dictionary@, entries@.take(i as int), out@),
        decreases n - i,
    {
        let e = &entries[i];
        let ghost pre = out@;
        match dictionary.get_id(e.spa_lemma.as_str()) {
            Some(id) => {
                out.push(
                    NumericalDiglotEntry {
                        eng_word_original: e.eng_word.clone(),
                        spa_lemma_id: id,
                        exact_spa_form_original: e.exact_spa_form.clone(),
                        viable: e.viable,
                    },
                );
                proof {
                    assert(out@.drop_last() =~= pre);
                }
            },
            None => {},
        }
        proof {
            assert(entries@.take(i + 1).drop_last() =~= entries@.take(i as int));
            assert(entries@.take(i + 1).last() == entries@[i as int]);
        }
        i += 1;
    }
    proof {
        assert(entries@.take(n as int) =~= entries@);
    }
    out
}

/// Resolve one string-level sentence against the current dictionary.
fn resolve_sentence(
    dictionary: &GlobalLemmaDictionary,
    s: &ProcessedSentence,
) -> (r: NumericalProcessedSentence)
    requires
        dictionary.wf(),
    ensures
        sentence_matches(dictionary@, *s, r),
{
    let adv_s_lemma_ids = resolve_ids(dictionary, &s.adv_s_lemmas);

    let nseg = s.sim_s_segments.len();
    let mut sim_s_segments_numerical: Vec<NumericalSegmentData> = Vec::new();
    let mut i: usize = 0;
    while i < nseg
        invariant
            i <= nseg,
            nseg == s.sim_s_segments@.len(),
            sim_s_segments_numerical@.len() == i,
            forall|j: int|
                0 <= j < i ==> {
                    &&& (#[trigger] sim_s_segments_numerical@[j]).id_str@
                        == s.sim_s_segments@[j].id@
                    &&& sim_s_segments_numerical@[j].text_original@ == s.sim_s_segments@[j].text@
                },
        decreases nseg - i,
    {
        let seg = &s.sim_s_segments[i];
        sim_s_segments_numerical.push(
            NumericalSegmentData { id_str: seg.id.clone(), text_original: seg.text.clone() },
        );
        i += 1;
    }

    let nal = s.phrase_alignments.len();
    let mut phrase_alignments_numerical: Vec<NumericalPhraseAlignment> = Vec::new();
    let mut i2: usize = 0;
    while i2 < nal
        invariant
            i2 <= nal,
            nal == s.phrase_alignments@.len(),
            phrase_alignments_numerical@.len() == i2,
            forall|j: int|
                0 <= j < i2 ==> {
                    &&& (#[trigger] phrase_alignments_numerical@[j]).segment_id_str@
                        == s.phrase_alignments@[j].segment_id@
                    &&& phrase_alignments_numerical@[j].adv_s_span_original@
                        == s.phrase_alignments@[j].adv_s_span@
                    &&& phrase_alignments_numerical@[j].sim_e_span_original@
                        == s.phrase_alignments@[j].sim_e_span@
                },
        decreases nal - i2,
    {
        let pa = &s.phrase_alignments[i2];
        phrase_alignments_numerical.push(
            NumericalPhraseAlignment {
                segment_id_str: pa.segment_id.clone(),
                adv_s_span_original: pa.adv_s_span.clone(),
                sim_e_span_original: pa.sim_e_span.clone(),
            },
        );
        i2 += 1;
    }

    let nsl = s.sim_s_lemmas.len();
    let mut sim_s_lemmas_numerical: Vec<NumericalSegmentLemmas> = Vec::new();
    let mut i3: usize = 0;
    while i3 < nsl
        invariant
            i3 <= nsl,
            nsl == s.sim_s_lemmas@.len(),
            dictionary.wf(),
            sim_s_lemmas_numerical@.len() == i3,
            forall|j: int|
                0 <= j < i3 ==> {
                    &&& (#[trigger] sim_s_lemmas_numerical@[j]).segment_id_str@
                        == s.sim_s_lemmas@[j].segment_id@
                    &&& sim_s_lemmas_numerical@[j].lemma_ids@ == kept_ids(
                        dictionary@,
                        lemma_views(s.sim_s_lemmas@[j].lemmas@),
                    )
                },
        decreases nsl - i3,
    {
        let sl = &s.sim_s_lemmas[i3];
        let lemma_ids = resolve_ids(dictionary, &sl.lemmas);
        sim_s_lemmas_numerical.push(
            NumericalSegmentLemmas { segment_id_str: sl.segment_id.clone(), lemma_ids },
        );
        i3 += 1;
    }

    let ndm = s.diglot_map.len();
    let mut diglot_map_numerical: Vec<NumericalDiglotSegmentMap> = Vec::new();
    let mut i4: usize = 0;
    while i4 < ndm
        invariant
            i4 <= ndm,
            ndm == s.diglot_map@.len(),
            dictionary.wf(),
            diglot_map_numerical@.len() == i4,
            forall|j: int|
                0 <= j < i4 ==> {
                    &&& (#[trigger] diglot_map_numerical@[j]).segment_id_str@
                        == s.diglot_map@[j].segment_id@
                    &&& diglot_matches(
                        dictionary@,
                        s.diglot_map@[j].entries@,
                        diglot_map_numerical@[j].entries@,
                    )
                },
        decreases ndm - i4,
    {
        let m = &s.diglot_map[i4];
        let entries = resolve_diglot_entries(dictionary, &m.entries);
        diglot_map_numerical.push(
            NumericalDiglotSegmentMap { segment_id_str: m.segment_id.clone(), entries },
        );
        i4 += 1;
    }

    let locked_phrase_segment_id_strs = match &s.locked_phrases {
        Some(ls) => {
            let nl = ls.len();
            let mut copies: Vec<String> = Vec::new();
            let mut i5: usize = 0;
            while i5 < nl
                invariant
                    i5 <= nl,
                    nl == ls@.len(),
                    copies@.len() == i5,
                    forall|j: int| 0 <= j < i5 ==> (#[trigger] copies@[j])@ == ls@[j]@,
                decreases nl - i5,
            {
                copies.push(ls[i5].clone());
                i5 += 1;
            }
            proof {
                assert(lemma_views(copies@) =~= lemma_views(ls@));
            }
            Some(copies)
        },
        None => None,
    };

    NumericalProcessedSentence {
        sentence_id_str: s.sentence_id.clone(),
        adv_s_original: s.adv_s.clone(),
        sim_s_original: s.sim_s.clone(),
        sim_e_original: s.sim_e.clone(),
        sim_s_segments_numerical,
        phrase_alignments_numerical,
        sim_s_lemmas_numerical,
        adv_s_lemma_ids,
        diglot_map_numerical,
        locked_phrase_segment_id_strs,
    }
}

/// Convert a parsed chapter into the numerical model: every lemma of the
/// chapter is interned into the dictionary (already-assigned ids never
/// move), and every sentence is rebuilt with its lemma lists resolved to
/// the dictionary's ids.
pub fn to_numerical_chapter(
    string_chapter: &ProcessedChapter,
    dictionary: &mut GlobalLemmaDictionary,
) -> (r: NumericalChapter)
    requires
        old(dictionary).wf(),
        old(dictionary)@.len() + chapter_lemma_count(*string_chapter) < u32::MAX,
    ensures
        final(dictionary).wf(),
        final(dictionary)@ == intern_chapter(old(dictionary)@, *string_chapter),
        old(dictionary)@.is_prefix_of(final(dictionary)@),
        r.source_file_name_original@ == string_chapter.source_file_name@,
        r.sentences_numerical@.len() == string_chapter.sentences@.len(),
        forall|i: int|
            0 <= i < string_chapter.sentences@.len() ==> sentence_matches(
                final(dictionary)@,
                string_chapter.sentences@[i],
                #[trigger] r.sentences_numerical@[i],
            ),
{
    dictionary.populate_from_chapter(string_chapter);
    let n = string_chapter.sentences.len();
    let mut sentences_numerical: Vec<NumericalProcessedSentence> = Vec::new();
    let mut i: usize = 0;
    while i < n
        invariant
            i <= n,
            n == string_chapter.sentences@.len(),
            dictionary.wf(),
            sentences_numerical@.len() == i,
            forall|j: int|
                0 <= j < i ==> sentence_matches(
                    dictionary@,
                    string_chapter.sentences@[j],
                    #[trigger] sentences_numerical@[j],
                ),
        decreases n - i,
    {
        let ns = resolve_sentence(dictionary, &string_chapter.sentences[i]);
        sentences_numerical.push(ns);
        i += 1;
    }
    NumericalChapter {
        source_file_name_original: string_chapter.source_file_name.clone(),
        sentences_numerical,
    }
}

} // verus!
