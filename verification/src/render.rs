//! The sentence renderer: a five-level state machine.
//!
//! For one sentence and one learner profile the renderer picks the hardest
//! comprehensible rendering, in strict priority order: the advanced text
//! (every advanced lemma `Known`), the simple text (every tracked segment
//! lemma `Known` or `Active`), a woven mix of segment texts and aligned
//! base-language spans, a diglot text with single-word substitutions, and
//! finally the plain base-language text. One pass computes both the output
//! text and the lemma ids the rendering uses, so the calibration probe and
//! the final text emission cannot diverge.

use vstd::prelude::*;

use crate::numerical_types::NumericalDiglotEntry;
use crate::numerical_types::NumericalLearnerProfile;
use crate::numerical_types::NumericalPhraseAlignment;
use crate::numerical_types::NumericalProcessedSentence;
use crate::numerical_types::NumericalSegmentLemmas;
use crate::text::replaced_first;
use crate::text::trim_of;
use crate::vocab::LearnerLemmaInfo;
use crate::vocab::comprehended;

verus! {

/// The rendering level the state machine settled on.
#[derive(Debug, Clone, Copy, PartialEq, Eq, Structural)]
pub enum RenderLevel {
    Advanced,
    Simple,
    Woven,
    Diglot,
    Fallback,
}

/// Every id of `ids` is comprehended under `p`.
pub open spec fn all_comprehended(
    p: Seq<(u32, LearnerLemmaInfo)>,
    ids: Seq<u32>,
    known_only: bool,
) -> bool {
    forall|i: int| 0 <= i < ids.len() ==> comprehended(p, ids[i], known_only)
}

/// Advanced level: the advanced lemma list is non-empty and every lemma in
/// it is `Known`.
pub open spec fn l1_ok(s: NumericalProcessedSentence, p: Seq<(u32, LearnerLemmaInfo)>) -> bool {
    s.adv_s_lemma_ids@.len() > 0 && all_comprehended(p, s.adv_s_lemma_ids@, true)
}

/// Simple level: the simple text has content, the lemma entries are not
/// missing wholesale while segments exist, and every tracked lemma of
/// every entry is `Known` or `Active` (an empty entry is vacuously fine).
pub open spec fn l2_ok(s: NumericalProcessedSentence, p: Seq<(u32, LearnerLemmaInfo)>) -> bool {
    trim_of(s.sim_s_original@).len() > 0 && !(s.sim_s_lemmas_numerical@.len() == 0
        && s.sim_s_segments_numerical@.len() > 0) && (forall|i: int|
        0 <= i < s.sim_s_lemmas_numerical@.len() ==> all_comprehended(
            p,
            (#[trigger] s.sim_s_lemmas_numerical@[i]).lemma_ids@,
            false,
        ))
}

/// All lemma ids of the simple rendering, segment by segment in order.
pub open spec fn seg_lemma_ids(es: Seq<NumericalSegmentLemmas>) -> Seq<u32>
    decreases es.len(),
{
    if es.len() == 0 {
        Seq::empty()
    } else {
        seg_lemma_ids(es.drop_last()) + es.last().lemma_ids@
    }
}

/// First lemma entry for segment id `id`, if any.
pub open spec fn find_seg_lemmas(es: Seq<NumericalSegmentLemmas>, id: Seq<char>) -> Option<
    NumericalSegmentLemmas,
>
    decreases es.len(),
{
    if es.len() == 0 {
        Option::None
    } else if es[0].segment_id_str@ == id {
        Option::Some(es[0])
    } else {
        find_seg_lemmas(es.skip(1), id)
    }
}

/// First phrase alignment for segment id `id`, if any.
pub open spec fn find_alignment(es: Seq<NumericalPhraseAlignment>, id: Seq<char>) -> Option<
    NumericalPhraseAlignment,
>
    decreases es.len(),
{
    if es.len() == 0 {
        Option::None
    } else if es[0].segment_id_str@ == id {
        Option::Some(es[0])
    } else {
        find_alignment(es.skip(1), id)
    }
}

/// Outcome of weaving the first `n` segments at the woven level.
pub struct L3Weave {
    /// Construction has not failed (no segment without a lemma entry, no
    /// incomprehensible segment without an alignment).
    pub ok: bool,
    /// Emitted parts, one per woven segment.
    pub parts: Seq<Seq<char>>,
    /// Contributed lemma ids.
    pub ids: Seq<u32>,
    /// At least one segment produced target-language content.
    pub spanish: bool,
}

/// Weave the first `n` segments: a segment whose lemma entry is empty or
/// fully comprehended emits its own text and contributes its ids; any
/// other segment emits its aligned base-language span; a segment without
/// lemma entry or without needed alignment fails the construction.
pub open spec fn l3_weave(
    s: NumericalProcessedSentence,
    p: Seq<(u32, LearnerLemmaInfo)>,
    n: int,
) -> L3Weave
    decreases n,
{
    if n <= 0 {
        L3Weave { ok: true, parts: Seq::empty(), ids: Seq::empty(), spanish: false }
    } else {
        let prev = l3_weave(s, p, n - 1);
        let seg = s.sim_s_segments_numerical@[n - 1];
        if !prev.ok {
            prev
        } else {
            match find_seg_lemmas(s.sim_s_lemmas_numerical@, seg.id_str@) {
                Option::None => L3Weave {
                    ok: false,
                    parts: prev.parts,
                    ids: prev.ids,
                    spanish: prev.spanish,
                },
                Option::Some(sl) => {
                    if sl.lemma_ids@.len() == 0 || all_comprehended(p, sl.lemma_ids@, false) {
                        L3Weave {
                            ok: true,
                            parts: prev.parts.push(seg.text_original@),
                            ids: prev.ids + sl.lemma_ids@,
                            spanish: prev.spanish || sl.lemma_ids@.len() > 0,
                        }
                    } else {
                        match find_alignment(s.phrase_alignments_numerical@, seg.id_str@) {
                            Option::None => L3Weave {
                                ok: false,
                                parts: prev.parts,
                                ids: prev.ids,
                                spanish: prev.spanish,
                            },
                            Option::Some(al) => L3Weave {
                                ok: true,
                                parts: prev.parts.push(al.sim_e_span_original@),
                                ids: prev.ids,
                                spanish: prev.spanish,
                            },
                        }
                    }
                },
            }
        }
    }
}

/// Woven level: there are segments, the construction succeeds over all of
/// them, and at least one segment produced target-language content.
pub open spec fn l3_ok(s: NumericalProcessedSentence, p: Seq<(u32, LearnerLemmaInfo)>) -> bool {
    s.sim_s_segments_numerical@.len() > 0 && {
        let w = l3_weave(s, p, s.sim_s_segments_numerical@.len() as int);
        w.ok && w.spanish
    }
}

/// A failed weave stays failed as further segments are added.
pub proof fn lemma_l3_weave_fail_sticks(
    s: NumericalProcessedSentence,
    p: Seq<(u32, LearnerLemmaInfo)>,
    i: int,
    n: int,
)
    requires
        0 <= i <= n,
        !l3_weave(s, p, i).ok,
    ensures
        !l3_weave(s, p, n).ok,
    decreases n - i,
{
    if i < n {
        lemma_l3_weave_fail_sticks(s, p, i + 1, n);
    }
}

/// First viable, comprehended substitution candidate of one segment.
pub open spec fn first_viable(
    p: Seq<(u32, LearnerLemmaInfo)>,
    es: Seq<NumericalDiglotEntry>,
) -> Option<NumericalDiglotEntry>
    decreases es.len(),
{
    if es.len() == 0 {
        Option::None
    } else if es[0].viable && comprehended(p, es[0].spa_lemma_id, false) {
        Option::Some(es[0])
    } else {
        first_viable(p, es.skip(1))
    }
}

/// Outcome of the diglot scan over the first `n` segment maps.
pub struct L4Scan {
    /// The evolving text, starting from the base-language text.
    pub text: Seq<char>,
    /// Target lemma ids of the substitutions, in scan order, undeduplicated.
    pub ids: Seq<u32>,
    /// At least one substitution candidate was found.
    pub made: bool,
}

/// Scan the first `n` diglot segment maps: each map contributes at most
/// one substitution, the first viable entry whose target lemma is `Known`
/// or `Active`; its base word is replaced in the evolving whole-sentence
/// text and its lemma id is contributed.
pub open spec fn l4_scan(
    s: NumericalProcessedSentence,
    p: Seq<(u32, LearnerLemmaInfo)>,
    n: int,
) -> L4Scan
    decreases n,
{
    if n <= 0 {
        L4Scan { text: s.sim_e_original@, ids: Seq::empty(), made: false }
    } else {
        let prev = l4_scan(s, p, n - 1);
        match first_viable(p, s.diglot_map_numerical@[n - 1].entries@) {
            Option::None => prev,
            Option::Some(e) => L4Scan {
                text: replaced_first(prev.text, e.eng_word_original@, e.exact_spa_form_original@),
                ids: prev.ids.push(e.spa_lemma_id),
                made: true,
            },
        }
    }
}

/// Diglot level: there are segment maps and at least one substitution was
/// found.
pub open spec fn l4_ok(s: NumericalProcessedSentence, p: Seq<(u32, LearnerLemmaInfo)>) -> bool {
    s.diglot_map_numerical@.len() > 0 && l4_scan(
        s,
        p,
        s.diglot_map_numerical@.len() as int,
    ).made
}

/// The level the renderer settles on: the first satisfied level in
/// priority order, the base-language fallback when none is.
pub open spec fn chosen_level(
    s: NumericalProcessedSentence,
    p: Seq<(u32, LearnerLemmaInfo)>,
) -> RenderLevel {
    if l1_ok(s, p) {
        RenderLevel::Advanced
    } else if l2_ok(s, p) {
        RenderLevel::Simple
    } else if l3_ok(s, p) {
        RenderLevel::Woven
    } else if l4_ok(s, p) {
        RenderLevel::Diglot
    } else {
        RenderLevel::Fallback
    }
}

/// `parts` joined by `sep`.
pub open spec fn join_with(parts: Seq<Seq<char>>, sep: Seq<char>) -> Seq<char>
    decreases parts.len(),
{
    if parts.len() == 0 {
        Seq::empty()
    } else if parts.len() == 1 {
        parts[0]
    } else {
        join_with(parts.drop_last(), sep) + sep + parts.last()
    }
}

/// `s` is strictly increasing.
pub open spec fn strictly_sorted(s: Seq<u32>) -> bool {
    forall|i: int, j: int| 0 <= i < j < s.len() ==> s[i] < s[j]
}

/// `x` inserted into the sorted sequence `s`, dropped if already present.
pub open spec fn insert_sorted(s: Seq<u32>, x: u32) -> Seq<u32>
    decreases s.len(),
{
    if s.len() == 0 {
        seq![x]
    } else if x < s[0] {
        seq![x] + s
    } else if x == s[0] {
        s
    } else {
        seq![s[0]] + insert_sorted(s.skip(1), x)
    }
}

/// `s` sorted ascending with duplicates removed.
pub open spec fn sort_dedup(s: Seq<u32>) -> Seq<u32>
    decreases s.len(),
{
    if s.len() == 0 {
        Seq::empty()
    } else {
        insert_sorted(sort_dedup(s.drop_last()), s.last())
    }
}

/// `insert_sorted` keeps a sorted sequence sorted and adds exactly `x` to
/// its set of values.
pub proof fn lemma_insert_sorted(s: Seq<u32>, x: u32)
    requires
        strictly_sorted(s),
    ensures
        strictly_sorted(insert_sorted(s, x)),
        insert_sorted(s, x).to_set() =~= s.to_set().insert(x),
    decreases s.len(),
{
    let t = insert_sorted(s, x);
    if s.len() == 0 {
        assert(t =~= seq![x]);
        assert(t.to_set() =~= s.to_set().insert(x)) by {
            assert(t[0] == x);
        }
    } else if x < s[0] {
        assert(t =~= seq![x] + s);
        assert forall|i: int, j: int| 0 <= i < j < t.len() implies t[i] < t[j] by {
            if i == 0 {
                assert(t[j] == s[j - 1]);
                if j - 1 > 0 {
                    assert(s[0] < s[j - 1]);
                }
            } else {
                assert(t[i] == s[i - 1] && t[j] == s[j - 1]);
            }
        }
        assert(t.to_set() =~= s.to_set().insert(x)) by {
            assert forall|y: u32| t.to_set().contains(y) implies s.to_set().insert(x).contains(
                y,
            ) by {
                let w = choose|w: int| 0 <= w < t.len() && t[w] == y;
                if w > 0 {
                    assert(s[w - 1] == y);
                }
            }
            assert forall|y: u32| s.to_set().insert(x).contains(y) implies t.to_set().contains(
                y,
            ) by {
                if y == x {
                    assert(t[0] == y);
                } else {
                    let w = choose|w: int| 0 <= w < s.len() && s[w] == y;
                    assert(t[w + 1] == y);
                }
            }
        }
    } else if x == s[0] {
        assert(t.to_set() =~= s.to_set().insert(x)) by {
            assert(s[0] == x);
            assert(s.to_set().contains(x));
        }
    } else {
        let rest = insert_sorted(s.skip(1), x);
        assert(strictly_sorted(s.skip(1))) by {
            assert forall|i: int, j: int| 0 <= i < j < s.skip(1).len() implies s.skip(1)[i]
                < s.skip(1)[j] by {
                assert(s.skip(1)[i] == s[i + 1] && s.skip(1)[j] == s[j + 1]);
            }
        }
        lemma_insert_sorted(s.skip(1), x);
        assert(t =~= seq![s[0]] + rest);
        assert forall|i: int, j: int| 0 <= i < j < t.len() implies t[i] < t[j] by {
            if i == 0 {
                assert(t[j] == rest[j - 1]);
                assert(rest.to_set().contains(rest[j - 1]));
                if rest[j - 1] == x {
                    assert(s[0] < x);
                } else {
                    assert(s.skip(1).to_set().contains(rest[j - 1]));
                    let w = choose|w: int| 0 <= w < s.skip(1).len() && s.skip(1)[w] == rest[j - 1];
                    assert(s[w + 1] == rest[j - 1]);
                    assert(s[0] < s[w + 1]);
                }
            } else {
                assert(t[i] == rest[i - 1] && t[j] == rest[j - 1]);
            }
        }
        assert(t.to_set() =~= s.to_set().insert(x)) by {
            assert forall|y: u32| t.to_set().contains(y) implies s.to_set().insert(x).contains(
                y,
            ) by {
                let w = choose|w: int| 0 <= w < t.len() && t[w] == y;
                if w == 0 {
                    assert(s[0] == y);
                } else {
                    assert(rest[w - 1] == y);
                    assert(rest.to_set().contains(y));
                    if y != x {
                        assert(s.skip(1).to_set().contains(y));
                        let v = choose|v: int| 0 <= v < s.skip(1).len() && s.skip(1)[v] == y;
                        assert(s[v + 1] == y);
                    }
                }
            }
            assert forall|y: u32| s.to_set().insert(x).contains(y) implies t.to_set().contains(
                y,
            ) by {
                if y == x {
                    assert(rest.to_set().contains(x));
                    let v = choose|v: int| 0 <= v < rest.len() && rest[v] == x;
                    assert(t[v + 1] == x);
                } else {
                    let w = choose|w: int| 0 <= w < s.len() && s[w] == y;
                    if w == 0 {
                        assert(t[0] == y);
                    } else {
                        assert(s.skip(1)[w - 1] == y);
                        assert(s.skip(1).to_set().contains(y));
                        assert(rest.to_set().contains(y));
                        let v = choose|v: int| 0 <= v < rest.len() && rest[v] == y;
                        assert(t[v + 1] == y);
                    }
                }
            }
        }
    }
}

/// `sort_dedup` yields a strictly sorted sequence with the same values.
pub proof fn lemma_sort_dedup(s: Seq<u32>)
    ensures
        strictly_sorted(sort_dedup(s)),
        sort_dedup(s).to_set() =~= s.to_set(),
    decreases s.len(),
{
    if s.len() == 0 {
        assert(sort_dedup(s).to_set() =~= s.to_set());
    } else {
        lemma_sort_dedup(s.drop_last());
        lemma_insert_sorted(sort_dedup(s.drop_last()), s.last());
        assert(s.to_set() =~= s.drop_last().to_set().insert(s.last())) by {
            assert forall|y: u32| s.to_set().contains(y) implies s.drop_last().to_set().insert(
                s.last(),
            ).contains(y) by {
                let w = choose|w: int| 0 <= w < s.len() && s[w] == y;
                if w < s.len() - 1 {
                    assert(s.drop_last()[w] == y);
                }
            }
            assert forall|y: u32| s.drop_last().to_set().insert(s.last()).contains(y) implies s
                .to_set().contains(y) by {
                if y == s.last() {
                } else {
                    let w = choose|w: int| 0 <= w < s.drop_last().len() && s.drop_last()[w] == y;
                    assert(s[w] == y);
                }
            }
        }
    }
}

/// Two strictly sorted sequences over the same set of values are equal.
pub proof fn lemma_sorted_unique(a: Seq<u32>, b: Seq<u32>)
    requires
        strictly_sorted(a),
        strictly_sorted(b),
        a.to_set() == b.to_set(),
    ensures
        a == b,
    decreases a.len(),
{
    if a.len() == 0 {
        if b.len() > 0 {
            assert(b.to_set().contains(b[0]));
            assert(a.to_set().contains(b[0]));
            let w = choose|w: int| 0 <= w < a.len() && a[w] == b[0];
        }
        assert(a =~= b);
    } else {
        assert(a.to_set().contains(a.last()));
        assert(b.to_set().contains(a.last()));
        assert(b.len() > 0);
        let wa = choose|w: int| 0 <= w < b.len() && b[w] == a.last();
        assert(b.to_set().contains(b.last()));
        assert(a.to_set().contains(b.last()));
        let wb = choose|w: int| 0 <= w < a.len() && a[w] == b.last();
        assert(a.last() == b.last()) by {
            if a.last() < b.last() {
                assert(a[wb] == b.last());
                assert(wb < a.len() - 1 ==> a[wb] < a.last());
            } else if b.last() < a.last() {
                assert(b[wa] == a.last());
                assert(wa < b.len() - 1 ==> b[wa] < b.last());
            }
        }
        assert(a.drop_last().to_set() == b.drop_last().to_set()) by {
            assert forall|y: u32| a.drop_last().to_set().contains(y) implies b.drop_last().to_set()
                .contains(y) by {
                let w = choose|w: int| 0 <= w < a.drop_last().len() && a.drop_last()[w] == y;
                assert(a[w] == y);
                assert(y < a.last());
                assert(a.to_set().contains(y));
                assert(b.to_set().contains(y));
                let v = choose|v: int| 0 <= v < b.len() && b[v] == y;
                assert(v < b.len() - 1) by {
                    if v == b.len() - 1 {
                        assert(b[v] == b.last());
                    }
                }
                assert(b.drop_last()[v] == y);
            }
            assert forall|y: u32| b.drop_last().to_set().contains(y) implies a.drop_last().to_set()
                .contains(y) by {
                let w = choose|w: int| 0 <= w < b.drop_last().len() && b.drop_last()[w] == y;
                assert(b[w] == y);
                assert(y < b.last());
                assert(b.to_set().contains(y));
                assert(a.to_set().contains(y));
                let v = choose|v: int| 0 <= v < a.len() && a[v] == y;
                assert(v < a.len() - 1) by {
                    if v == a.len() - 1 {
                        assert(a[v] == a.last());
                    }
                }
                assert(a.drop_last()[v] == y);
            }
            assert(a.drop_last().to_set() =~= b.drop_last().to_set());
        }
        assert(strictly_sorted(a.drop_last()));
        assert(strictly_sorted(b.drop_last()));
        lemma_sorted_unique(a.drop_last(), b.drop_last());
        assert(a =~= b) by {
            assert(a.len() == b.len());
            assert forall|i: int| 0 <= i < a.len() implies a[i] == b[i] by {
                if i < a.len() - 1 {
                    assert(a.drop_last()[i] == b.drop_last()[i]);
                }
            }
        }
    }
}

/// The text the renderer emits for the sentence.
pub open spec fn sentence_text(
    s: NumericalProcessedSentence,
    p: Seq<(u32, LearnerLemmaInfo)>,
) -> Seq<char> {
    match chosen_level(s, p) {
        RenderLevel::Advanced => s.adv_s_original@,
        RenderLevel::Simple => s.sim_s_original@,
        RenderLevel::Woven => join_with(
            l3_weave(s, p, s.sim_s_segments_numerical@.len() as int).parts,
            " "@,
        ),
        RenderLevel::Diglot => l4_scan(s, p, s.diglot_map_numerical@.len() as int).text,
        RenderLevel::Fallback => s.sim_e_original@,
    }
}

/// The lemma ids the rendering uses for comprehension bookkeeping.
pub open spec fn sentence_ids(
    s: NumericalProcessedSentence,
    p: Seq<(u32, LearnerLemmaInfo)>,
) -> Seq<u32> {
    match chosen_level(s, p) {
        RenderLevel::Advanced => s.adv_s_lemma_ids@,
        RenderLevel::Simple => seg_lemma_ids(s.sim_s_lemmas_numerical@),
        RenderLevel::Woven => l3_weave(s, p, s.sim_s_segments_numerical@.len() as int).ids,
        RenderLevel::Diglot => sort_dedup(l4_scan(s, p, s.diglot_map_numerical@.len() as int).ids),
        RenderLevel::Fallback => Seq::empty(),
    }
}

/// The views of a sequence of owned strings.
pub open spec fn parts_view(ps: Seq<String>) -> Seq<Seq<char>> {
    ps.map_values(|x: String| x@)
}

/// One rendered sentence: the settled level, the emitted text, and the
/// lemma ids the rendering uses. A single decision pass produces both the
/// text and the ids, so calibration and emission cannot diverge.
#[derive(Debug, Clone)]
pub struct RenderedSentence {
    pub level: RenderLevel,
    pub text: String,
    pub lemma_ids: Vec<u32>,
}

/// A fresh copy of a vector of ids.
pub(crate) fn copy_ids(src: &Vec<u32>) -> (r: Vec<u32>)
    ensures
        r@ == src@,
{
    let mut r: Vec<u32> = Vec::new();
    let n = src.len();
    let mut i: usize = 0;
    while i < n
        invariant
            i <= n,
            n == src@.len(),
            r@ == src@.take(i as int),
        decreases n - i,
    {
        r.push(src[i]);
        proof {
            assert(src@.take(i + 1) =~= src@.take(i as int).push(src@[i as int]));
        }
        i += 1;
    }
    proof {
        assert(src@.take(n as int) =~= src@);
    }
    r
}

/// Append every id of `src` to `dst`.
pub(crate) fn append_ids(dst: &mut Vec<u32>, src: &Vec<u32>)
    ensures
        final(dst)@ == old(dst)@ + src@,
{
    let n = src.len();
    let mut i: usize = 0;
    while i < n
        invariant
            i <= n,
            n == src@.len(),
            dst@ == old(dst)@ + src@.take(i as int),
        decreases n - i,
    {
        dst.push(src[i]);
        proof {
            assert(old(dst)@ + src@.take(i + 1) =~= (old(dst)@ + src@.take(i as int)).push(
                src@[i as int],
            ));
        }
        i += 1;
    }
    proof {
        assert(old(dst)@ + src@.take(n as int) =~= old(dst)@ + src@);
    }
}

/// Every id of `ids` is comprehended under the profile.
fn check_all_comprehended(
    profile: &NumericalLearnerProfile,
    ids: &Vec<u32>,
    known_only: bool,
) -> (r: bool)
    requires
        profile.wf(),
    ensures
        r == all_comprehended(profile@, ids@, known_only),
{
    let n = ids.len();
    let mut i: usize = 0;
    while i < n
        invariant
            i <= n,
            n == ids@.len(),
            profile.wf(),
            forall|j: int| 0 <= j < i ==> comprehended(profile@, ids@[j], known_only),
        decreases n - i,
    {
        if !profile.is_lemma_comprehended(ids[i], known_only) {
            return false;
        }
        i += 1;
    }
    true
}

/// The advanced level's condition, decided executably.
fn l1_check(s: &NumericalProcessedSentence, profile: &NumericalLearnerProfile) -> (r: bool)
    requires
        profile.wf(),
    ensures
        r == l1_ok(*s, profile@),
{
    !s.adv_s_lemma_ids.is_empty() && check_all_comprehended(profile, &s.adv_s_lemma_ids, true)
}

/// The simple level's condition, decided executably.
fn l2_check(s: &NumericalProcessedSentence, profile: &NumericalLearnerProfile) -> (r: bool)
    requires
        profile.wf(),
    ensures
        r == l2_ok(*s, profile@),
{
    let t = crate::text::trim_str(s.sim_s_original.as_str());
    if t.is_empty() {
        return false;
    }
    if s.sim_s_lemmas_numerical.len() == 0 && s.sim_s_segments_numerical.len() > 0 {
        return false;
    }
    let n = s.sim_s_lemmas_numerical.len();
    let mut i: usize = 0;
    while i < n
        invariant
            i <= n,
            n == s.sim_s_lemmas_numerical@.len(),
            profile.wf(),
            trim_of(s.sim_s_original@).len() > 0,
            !(s.sim_s_lemmas_numerical@.len() == 0 && s.sim_s_segments_numerical@.len() > 0),
            forall|j: int|
                0 <= j < i ==> all_comprehended(
                    profile@,
                    (#[trigger] s.sim_s_lemmas_numerical@[j]).lemma_ids@,
                    false,
                ),
        decreases n - i,
    {
        if !check_all_comprehended(profile, &s.sim_s_lemmas_numerical[i].lemma_ids, false) {
            return false;
        }
        i += 1;
    }
    true
}

/// A match at `j`, with no match before it, is what the first-match search
/// returns.
proof fn lemma_find_seg_lemmas_at(es: Seq<NumericalSegmentLemmas>, id: Seq<char>, j: int)
    requires
        0 <= j < es.len(),
        es[j].segment_id_str@ == id,
        forall|k: int| 0 <= k < j ==> (#[trigger] es[k]).segment_id_str@ != id,
    ensures
        find_seg_lemmas(es, id) == Option::Some(es[j]),
    decreases j,
{
    if j == 0 {
    } else {
        assert(es.skip(1)[j - 1] == es[j]);
        assert forall|k: int| 0 <= k < j - 1 implies (#[trigger] es.skip(1)[k]).segment_id_str@
            != id by {
            assert(es.skip(1)[k] == es[k + 1]);
        }
        lemma_find_seg_lemmas_at(es.skip(1), id, j - 1);
    }
}

/// With no match anywhere, the first-match search returns nothing.
proof fn lemma_find_seg_lemmas_none(es: Seq<NumericalSegmentLemmas>, id: Seq<char>)
    requires
        forall|k: int| 0 <= k < es.len() ==> (#[trigger] es[k]).segment_id_str@ != id,
    ensures
        find_seg_lemmas(es, id) is None,
    decreases es.len(),
{
    if es.len() > 0 {
        assert forall|k: int| 0 <= k < es.skip(1).len() implies (#[trigger] es.skip(
            1,
        )[k]).segment_id_str@ != id by {
            assert(es.skip(1)[k] == es[k + 1]);
        }
        lemma_find_seg_lemmas_none(es.skip(1), id);
    }
}

/// Index of the first lemma entry for segment `id`, if any.
pub(crate) fn find_seg_lemmas_idx(es: &Vec<NumericalSegmentLemmas>, id: &String) -> (r: Option<usize>)
    ensures
        r matches Some(j) ==> j < es@.len() && find_seg_lemmas(es@, id@) == Option::Some(
            es@[j as int],
        ),
        r is None ==> find_seg_lemmas(es@, id@) is None,
{
    let n = es.len();
    let mut i: usize = 0;
    while i < n
        invariant
            i <= n,
            n == es@.len(),
            forall|k: int| 0 <= k < i ==> (#[trigger] es@[k]).segment_id_str@ != id@,
        decreases n - i,
    {
        if es[i].segment_id_str == *id {
            proof {
                lemma_find_seg_lemmas_at(es@, id@, i as int);
            }
            return Some(i);
        }
        i += 1;
    }
    proof {
        lemma_find_seg_lemmas_none(es@, id@);
    }
    None
}

/// A match at `j`, with no match before it, is what the first-match search
/// returns.
proof fn lemma_find_alignment_at(es: Seq<NumericalPhraseAlignment>, id: Seq<char>, j: int)
    requires
        0 <= j < es.len(),
        es[j].segment_id_str@ == id,
        forall|k: int| 0 <= k < j ==> (#[trigger] es[k]).segment_id_str@ != id,
    ensures
        find_alignment(es, id) == Option::Some(es[j]),
    decreases j,
{
    if j == 0 {
    } else {
        assert(es.skip(1)[j - 1] == es[j]);
        assert forall|k: int| 0 <= k < j - 1 implies (#[trigger] es.skip(1)[k]).segment_id_str@
            != id by {
            assert(es.skip(1)[k] == es[k + 1]);
        }
        lemma_find_alignment_at(es.skip(1), id, j - 1);
    }
}

/// With no match anywhere, the first-match search returns nothing.
proof fn lemma_find_alignment_none(es: Seq<NumericalPhraseAlignment>, id: Seq<char>)
    requires
        forall|k: int| 0 <= k < es.len() ==> (#[trigger] es[k]).segment_id_str@ != id,
    ensures
        find_alignment(es, id) is None,
    decreases es.len(),
{
    if es.len() > 0 {
        assert forall|k: int| 0 <= k < es.skip(1).len() implies (#[trigger] es.skip(
            1,
        )[k]).segment_id_str@ != id by {
            assert(es.skip(1)[k] == es[k + 1]);
        }
        lemma_find_alignment_none(es.skip(1), id);
    }
}

/// Index of the first phrase alignment for segment `id`, if any.
fn find_alignment_idx(es: &Vec<NumericalPhraseAlignment>, id: &String) -> (r: Option<usize>)
    ensures
        r matches Some(j) ==> j < es@.len() && find_alignment(es@, id@) == Option::Some(
            es@[j as int],
        ),
        r is None ==> find_alignment(es@, id@) is None,
{
    let n = es.len();
    let mut i: usize = 0;
    while i < n
        invariant
            i <= n,
            n == es@.len(),
            forall|k: int| 0 <= k < i ==> (#[trigger] es@[k]).segment_id_str@ != id@,
        decreases n - i,
    {
        if es[i].segment_id_str == *id {
            proof {
                lemma_find_alignment_at(es@, id@, i as int);
            }
            return Some(i);
        }
        i += 1;
    }
    proof {
        lemma_find_alignment_none(es@, id@);
    }
    None
}

/// A hit at `j`, with no hit before it, is what the first-candidate scan
/// returns.
proof fn lemma_first_viable_at(
    p: Seq<(u32, LearnerLemmaInfo)>,
    es: Seq<NumericalDiglotEntry>,
    j: int,
)
    requires
        0 <= j < es.len(),
        es[j].viable && comprehended(p, es[j].spa_lemma_id, false),
        forall|k: int|
            0 <= k < j ==> !((#[trigger] es[k]).viable && comprehended(p, es[k].spa_lemma_id, false)),
    ensures
        first_viable(p, es) == Option::Some(es[j]),
    decreases j,
{
    if j == 0 {
    } else {
        assert(es.skip(1)[j - 1] == es[j]);
        assert forall|k: int| 0 <= k < j - 1 implies !((#[trigger] es.skip(1)[k]).viable
            && comprehended(p, es.skip(1)[k].spa_lemma_id, false)) by {
            assert(es.skip(1)[k] == es[k + 1]);
        }
        lemma_first_viable_at(p, es.skip(1), j - 1);
    }
}

/// With no hit anywhere, the first-candidate scan returns nothing.
proof fn lemma_first_viable_none(p: Seq<(u32, LearnerLemmaInfo)>, es: Seq<NumericalDiglotEntry>)
    requires
        forall|k: int|
            0 <= k < es.len() ==> !((#[trigger] es[k]).viable && comprehended(
                p,
                es[k].spa_lemma_id,
                false,
            )),
    ensures
        first_viable(p, es) is None,
    decreases es.len(),
{
    if es.len() > 0 {
        assert forall|k: int| 0 <= k < es.skip(1).len() implies !((#[trigger] es.skip(
            1,
        )[k]).viable && comprehended(p, es.skip(1)[k].spa_lemma_id, false)) by {
            assert(es.skip(1)[k] == es[k + 1]);
        }
        lemma_first_viable_none(p, es.skip(1));
    }
}

/// Index of the first viable, comprehended substitution candidate, if any.
fn first_viable_idx(
    profile: &NumericalLearnerProfile,
    es: &Vec<NumericalDiglotEntry>,
) -> (r: Option<usize>)
    requires
        profile.wf(),
    ensures
        r matches Some(j) ==> j < es@.len() && first_viable(profile@, es@) == Option::Some(
            es@[j as int],
        ),
        r is None ==> first_viable(profile@, es@) is None,
{
    let n = es.len();
    let mut i: usize = 0;
    while i < n
        invariant
            i <= n,
            n == es@.len(),
            profile.wf(),
            forall|k: int|
                0 <= k < i ==> !((#[trigger] es@[k]).viable && comprehended(
                    profile@,
                    es@[k].spa_lemma_id,
                    false,
                )),
        decreases n - i,
    {
        let e = &es[i];
        if e.viable && profile.is_lemma_known_or_active(e.spa_lemma_id) {
            proof {
                lemma_first_viable_at(profile@, es@, i as int);
            }
            return Some(i);
        }
        i += 1;
    }
    proof {
        lemma_first_viable_none(profile@, es@);
    }
    None
}

/// Sort a list of ids ascending and drop duplicates.
pub fn sort_dedup_ids(src: &Vec<u32>) -> (r: Vec<u32>)
    ensures
        r@ == sort_dedup(src@),
{
    let mut v: Vec<u32> = Vec::new();
    let n = src.len();
    let mut i: usize = 0;
    while i < n
        invariant
            i <= n,
            n == src@.len(),
            strictly_sorted(v@),
            v@.to_set() == src@.take(i as int).to_set(),
        decreases n - i,
    {
        let x = src[i];
        let m = v.len();
        let mut j: usize = 0;
        while j < m
            invariant
                j <= m,
                m == v@.len(),
                forall|k: int| 0 <= k < j ==> v@[k] < x,
            ensures
                j <= m,
                m == v@.len(),
                forall|k: int| 0 <= k < j ==> v@[k] < x,
                j < m ==> v@[j as int] >= x,
            decreases m - j,
        {
            if v[j] >= x {
                break;
            }
            j += 1;
        }
        let ghost pre = v@;
        if j < v.len() && v[j] == x {
            proof {
                assert(v@.to_set().contains(x));
                assert(src@.take(i + 1).to_set() =~= src@.take(i as int).to_set().insert(x)) by {
                    lemma_take_to_set_insert(src@, i as int);
                }
                assert(v@.to_set() =~= src@.take(i as int).to_set().insert(x));
            }
        } else {
            v.insert(j, x);
            proof {
                assert(j < pre.len() ==> pre[j as int] > x);
                assert forall|a: int, b: int| 0 <= a < b < v@.len() implies v@[a] < v@[b] by {
                    lemma_insert_pointwise(pre, j as int, x, a);
                    lemma_insert_pointwise(pre, j as int, x, b);
                    if a < j && b > j {
                        assert(v@[a] == pre[a] && v@[b] == pre[b - 1]);
                        assert(pre[a] < x);
                        assert(b - 1 >= j);
                        if b - 1 == j {
                            assert(pre[b - 1] > x);
                        } else {
                            assert(pre[j as int] < pre[b - 1]);
                        }
                    }
                }
                assert(v@.to_set() =~= pre.to_set().insert(x)) by {
                    assert forall|y: u32| v@.to_set().contains(y) implies pre.to_set().insert(
                        x,
                    ).contains(y) by {
                        let w = choose|w: int| 0 <= w < v@.len() && v@[w] == y;
                        lemma_insert_pointwise(pre, j as int, x, w);
                    }
                    assert forall|y: u32| pre.to_set().insert(x).contains(y) implies v@.to_set()
                        .contains(y) by {
                        if y == x {
                            lemma_insert_pointwise(pre, j as int, x, j as int);
                            assert(v@[j as int] == x);
                        } else {
                            let w = choose|w: int| 0 <= w < pre.len() && pre[w] == y;
                            if w < j {
                                lemma_insert_pointwise(pre, j as int, x, w);
                                assert(v@[w] == y);
                            } else {
                                lemma_insert_pointwise(pre, j as int, x, w + 1);
                                assert(v@[w + 1] == y);
                            }
                        }
                    }
                }
                assert(src@.take(i + 1).to_set() =~= src@.take(i as int).to_set().insert(x)) by {
                    lemma_take_to_set_insert(src@, i as int);
                }
            }
        }
        i += 1;
    }
    proof {
        assert(src@.take(n as int) =~= src@);
        lemma_sort_dedup(src@);
        lemma_sorted_unique(v@, sort_dedup(src@));
    }
    v
}

/// Pointwise description of inserting `x` at position `j`.
proof fn lemma_insert_pointwise(s: Seq<u32>, j: int, x: u32, a: int)
    requires
        0 <= j <= s.len(),
        0 <= a < s.len() + 1,
    ensures
        a < j ==> s.insert(j, x)[a] == s[a],
        a == j ==> s.insert(j, x)[a] == x,
        a > j ==> s.insert(j, x)[a] == s[a - 1],
{
    s.insert_ensures(j, x);
}

/// Taking one more element inserts exactly that element's value into the
/// prefix's set of values.
proof fn lemma_take_to_set_insert(s: Seq<u32>, i: int)
    requires
        0 <= i < s.len(),
    ensures
        s.take(i + 1).to_set() =~= s.take(i).to_set().insert(s[i]),
{
    assert forall|y: u32| s.take(i + 1).to_set().contains(y) implies s.take(i).to_set().insert(
        s[i],
    ).contains(y) by {
        let w = choose|w: int| 0 <= w < s.take(i + 1).len() && #[trigger] s.take(i + 1)[w] == y;
        if w < i {
            assert(s.take(i)[w] == y);
        }
    }
    assert forall|y: u32| s.take(i).to_set().insert(s[i]).contains(y) implies s.take(
        i + 1,
    ).to_set().contains(y) by {
        if y == s[i] {
            assert(s.take(i + 1)[i] == y);
        } else {
            let w = choose|w: int| 0 <= w < s.take(i).len() && s.take(i)[w] == y;
            assert(s.take(i + 1)[w] == y);
        }
    }
}

/// Join owned string parts with single spaces.
fn join_parts(parts: &Vec<String>) -> (r: String)
    ensures
        r@ == join_with(parts_view(parts@), " "@),
{
    let mut out = String::new();
    let n = parts.len();
    let mut i: usize = 0;
    while i < n
        invariant
            i <= n,
            n == parts@.len(),
            i == 0 ==> out@ == Seq::<char>::empty(),
            i > 0 ==> out@ == join_with(parts_view(parts@).take(i as int), " "@),
        decreases n - i,
    {
        if i > 0 {
            out.append(" ");
        }
        out.append(parts[i].as_str());
        proof {
            let pv = parts_view(parts@);
            assert(pv.take(i + 1).drop_last() =~= pv.take(i as int));
            assert(pv.take(i + 1).last() == parts@[i as int]@);
            if i == 0 {
                assert(pv.take(1)[0] == parts@[0]@);
            }
        }
        i += 1;
    }
    proof {
        if n > 0 {
            assert(parts_view(parts@).take(n as int) =~= parts_view(parts@));
        } else {
            assert(parts_view(parts@).len() == 0);
        }
    }
    out
}

/// Render one sentence against a profile: pick the hardest comprehensible
/// level, emit its text, and report the lemma ids that rendering uses.
/// The renderer never mutates the profile and never fails; a structurally
/// defective sentence degrades to a lower level.
pub fn render_sentence(
    s: &NumericalProcessedSentence,
    profile: &NumericalLearnerProfile,
) -> (r: RenderedSentence)
    requires
        profile.wf(),
    ensures
        r.level == chosen_level(*s, profile@),
        r.text@ == sentence_text(*s, profile@),
        r.lemma_ids@ == sentence_ids(*s, profile@),
{
    if l1_check(s, profile) {
        return RenderedSentence {
            level: RenderLevel::Advanced,
            text: s.adv_s_original.clone(),
            lemma_ids: copy_ids(&s.adv_s_lemma_ids),
        };
    }
    if l2_check(s, profile) {
        let mut ids: Vec<u32> = Vec::new();
        let n = s.sim_s_lemmas_numerical.len();
        let mut i: usize = 0;
        while i < n
            invariant
                i <= n,
                n == s.sim_s_lemmas_numerical@.len(),
                ids@ == seg_lemma_ids(s.sim_s_lemmas_numerical@.take(i as int)),
            decreases n - i,
        {
            append_ids(&mut ids, &s.sim_s_lemmas_numerical[i].lemma_ids);
            proof {
                let es = s.sim_s_lemmas_numerical@;
                assert(es.take(i + 1).drop_last() =~= es.take(i as int));
                assert(es.take(i + 1).last() == es[i as int]);
            }
            i += 1;
        }
        proof {
            assert(s.sim_s_lemmas_numerical@.take(n as int) =~= s.sim_s_lemmas_numerical@);
        }
        return RenderedSentence {
            level: RenderLevel::Simple,
            text: s.sim_s_original.clone(),
            lemma_ids: ids,
        };
    }
    // Woven level: walk the segments, emitting each segment's own text or
    // its aligned base-language span.
    let n3 = s.sim_s_segments_numerical.len();
    let mut parts: Vec<String> = Vec::new();
    let mut ids3: Vec<u32> = Vec::new();
    let mut spanish = false;
    let mut ok = true;
    let mut i: usize = 0;
    while i < n3 && ok
        invariant
            i <= n3,
            n3 == s.sim_s_segments_numerical@.len(),
            profile.wf(),
            ok ==> l3_weave(*s, profile@, i as int).ok,
            ok ==> l3_weave(*s, profile@, i as int).parts == parts_view(parts@),
            ok ==> l3_weave(*s, profile@, i as int).ids == ids3@,
            ok ==> l3_weave(*s, profile@, i as int).spanish == spanish,
            !ok ==> !l3_weave(*s, profile@, n3 as int).ok,
        decreases n3 - i,
    {
        let seg = &s.sim_s_segments_numerical[i];
        match find_seg_lemmas_idx(&s.sim_s_lemmas_numerical, &seg.id_str) {
            Some(j) => {
                let sl = &s.sim_s_lemmas_numerical[j];
                if sl.lemma_ids.len() == 0 || check_all_comprehended(profile, &sl.lemma_ids, false)
                {
                    parts.push(seg.text_original.clone());
                    append_ids(&mut ids3, &sl.lemma_ids);
                    if sl.lemma_ids.len() > 0 {
                        spanish = true;
                    }
                    proof {
                        assert(parts_view(parts@) =~= l3_weave(*s, profile@, i as int).parts.push(
                            seg.text_original@,
                        ));
                    }
                } else {
                    match find_alignment_idx(&s.phrase_alignments_numerical, &seg.id_str) {
                        Some(a) => {
                            parts.push(s.phrase_alignments_numerical[a].sim_e_span_original.clone());
                            proof {
                                assert(parts_view(parts@) =~= l3_weave(
                                    *s,
                                    profile@,
                                    i as int,
                                ).parts.push(
                                    s.phrase_alignments_numerical@[a as int].sim_e_span_original@,
                                ));
                            }
                        },
                        None => {
                            ok = false;
                            proof {
                                lemma_l3_weave_fail_sticks(*s, profile@, i + 1, n3 as int);
                            }
                        },
                    }
                }
            },
            None => {
                ok = false;
                proof {
                    lemma_l3_weave_fail_sticks(*s, profile@, i + 1, n3 as int);
                }
            },
        }
        i += 1;
    }
    if ok && spanish {
        return RenderedSentence {
            level: RenderLevel::Woven,
            text: join_parts(&parts),
            lemma_ids: ids3,
        };
    }
    // Diglot level: at most one substitution per segment map, applied to
    // the evolving whole-sentence text.
    let n4 = s.diglot_map_numerical.len();
    let mut text4 = s.sim_e_original.clone();
    let mut ids4: Vec<u32> = Vec::new();
    let mut made = false;
    let mut i4: usize = 0;
    while i4 < n4
        invariant
            i4 <= n4,
            n4 == s.diglot_map_numerical@.len(),
            profile.wf(),
            text4@ == l4_scan(*s, profile@, i4 as int).text,
            ids4@ == l4_scan(*s, profile@, i4 as int).ids,
            made == l4_scan(*s, profile@, i4 as int).made,
        decreases n4 - i4,
    {
        match first_viable_idx(profile, &s.diglot_map_numerical[i4].entries) {
            Some(j) => {
                let e = &s.diglot_map_numerical[i4].entries[j];
                text4 = crate::text::replace_first_word(
                    text4.as_str(),
                    e.eng_word_original.as_str(),
                    e.exact_spa_form_original.as_str(),
                );
                ids4.push(e.spa_lemma_id);
                made = true;
            },
            None => {},
        }
        i4 += 1;
    }
    if made {
        let deduped = sort_dedup_ids(&ids4);
        return RenderedSentence { level: RenderLevel::Diglot, text: text4, lemma_ids: deduped };
    }
    RenderedSentence {
        level: RenderLevel::Fallback,
        text: s.sim_e_original.clone(),
        lemma_ids: Vec::new(),
    }
}


/// Level priority: whenever the advanced level's condition holds, the
/// renderer settles on it — whatever other levels would also accept — and
/// emits the advanced text verbatim with the advanced lemma ids.
pub proof fn lemma_level_priority(s: NumericalProcessedSentence, p: Seq<(u32, LearnerLemmaInfo)>)
    requires
        l1_ok(s, p),
    ensures
        chosen_level(s, p) == RenderLevel::Advanced,
        sentence_text(s, p) == s.adv_s_original@,
        sentence_ids(s, p) == s.adv_s_lemma_ids@,
{
}

} // verus!
