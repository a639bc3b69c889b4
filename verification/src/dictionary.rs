//! The lemma dictionary: normalized lemma strings interned to dense ids.
//!
//! A lemma's id is its index in the store; ids are assigned in first-come
//! order, never reused and never renumbered, and the stored strings are
//! distinct and non-empty. Interning an already-known lemma returns its
//! existing id and changes nothing.

use vstd::prelude::*;

use crate::llm_data::DiglotEntry;
use crate::llm_data::DiglotSegmentMap;
use crate::llm_data::ProcessedChapter;
use crate::llm_data::ProcessedSentence;
use crate::llm_data::SegmentLemmas;
use crate::text::lowercase_str;
use crate::text::normalize;
use crate::text::trim_str;

verus! {

/// Some stored string equals `key`.
pub open spec fn has_str(d: Seq<Seq<char>>, key: Seq<char>) -> bool {
    exists|i: int| 0 <= i < d.len() && d[i] == key
}

/// Index of the first stored string equal to `key`, or `-1`.
pub open spec fn find_str(d: Seq<Seq<char>>, key: Seq<char>) -> int
    decreases d.len(),
{
    if d.len() == 0 {
        -1
    } else if d[0] == key {
        0
    } else {
        let r = find_str(d.skip(1), key);
        if r < 0 {
            -1
        } else {
            r + 1
        }
    }
}

/// Well-formed store: distinct, non-empty strings, with ids that fit.
pub open spec fn dict_wf(d: Seq<Seq<char>>) -> bool {
    (forall|i: int, j: int| 0 <= i < j < d.len() ==> d[i] != d[j]) && (forall|i: int|
        0 <= i < d.len() ==> (#[trigger] d[i]).len() > 0) && d.len() <= u32::MAX
}

/// The store after interning normalized key `key`: unchanged when the key
/// is empty or already stored, extended by it otherwise.
pub open spec fn intern_one(d: Seq<Seq<char>>, key: Seq<char>) -> Seq<Seq<char>> {
    if key.len() == 0 {
        d
    } else if has_str(d, key) {
        d
    } else {
        d.push(key)
    }
}

/// The id interning normalized key `key` yields, if any.
pub open spec fn intern_id(d: Seq<Seq<char>>, key: Seq<char>) -> Option<int> {
    if key.len() == 0 {
        Option::None
    } else if has_str(d, key) {
        Option::Some(find_str(d, key))
    } else {
        Option::Some(d.len() as int)
    }
}

/// `find_str` finds the first stored occurrence, `-1` exactly on absence.
pub proof fn lemma_find_str(d: Seq<Seq<char>>, key: Seq<char>)
    ensures
        has_str(d, key) <==> find_str(d, key) >= 0,
        has_str(d, key) ==> 0 <= find_str(d, key) < d.len() && d[find_str(d, key)] == key,
        has_str(d, key) ==> forall|j: int| 0 <= j < find_str(d, key) ==> d[j] != key,
    decreases d.len(),
{
    if d.len() == 0 {
    } else if d[0] == key {
        assert(has_str(d, key));
    } else {
        lemma_find_str(d.skip(1), key);
        assert forall|i: int| 0 <= i < d.len() && d[i] == key implies has_str(d.skip(1), key) by {
            assert(d.skip(1)[i - 1] == d[i]);
        }
        if has_str(d.skip(1), key) {
            let r = find_str(d.skip(1), key);
            assert(d[r + 1] == d.skip(1)[r]);
            assert forall|j: int| 0 <= j < find_str(d, key) implies d[j] != key by {
                if j > 0 {
                    assert(d.skip(1)[j - 1] == d[j]);
                }
            }
        }
    }
}

/// With distinct stored strings, any index holding the key is the found
/// index.
pub proof fn lemma_find_str_unique(d: Seq<Seq<char>>, key: Seq<char>, i: int)
    requires
        forall|a: int, b: int| 0 <= a < b < d.len() ==> d[a] != d[b],
        0 <= i < d.len(),
        d[i] == key,
    ensures
        find_str(d, key) == i,
{
    assert(has_str(d, key));
    lemma_find_str(d, key);
    let f = find_str(d, key);
    if f < i {
        assert(d[f] == d[i]);
    } else if f > i {
        assert(d[i] != key);
    }
}

/// Interning preserves well-formedness except for the length bound, grows
/// the store by at most one string, and keeps the old store as a prefix.
pub proof fn lemma_intern_one(d: Seq<Seq<char>>, key: Seq<char>)
    requires
        forall|a: int, b: int| 0 <= a < b < d.len() ==> d[a] != d[b],
        forall|i: int| 0 <= i < d.len() ==> (#[trigger] d[i]).len() > 0,
    ensures
        forall|a: int, b: int|
            0 <= a < b < intern_one(d, key).len() ==> intern_one(d, key)[a] != intern_one(
                d,
                key,
            )[b],
        forall|i: int|
            0 <= i < intern_one(d, key).len() ==> (#[trigger] intern_one(d, key)[i]).len() > 0,
        d.len() <= intern_one(d, key).len() <= d.len() + 1,
        d.is_prefix_of(intern_one(d, key)),
{
    let t = intern_one(d, key);
    if key.len() == 0 || has_str(d, key) {
        assert(d.is_prefix_of(t)) by {
            assert(t =~= d);
        }
    } else {
        assert forall|a: int, b: int| 0 <= a < b < t.len() implies t[a] != t[b] by {
            if b == d.len() {
                assert(t[a] == d[a]);
                if d[a] == key {
                    assert(has_str(d, key));
                }
            } else {
                assert(t[a] == d[a] && t[b] == d[b]);
            }
        }
        assert(d.is_prefix_of(t)) by {
            assert(t.take(d.len() as int) =~= d);
        }
    }
}

/// The views of a list of raw lemma strings.
pub open spec fn lemma_views(ls: Seq<String>) -> Seq<Seq<char>> {
    ls.map_values(|s: String| s@)
}

/// The store after interning the normalization of every raw lemma of
/// `keys`, in order.
pub open spec fn intern_all(d: Seq<Seq<char>>, keys: Seq<Seq<char>>) -> Seq<Seq<char>>
    decreases keys.len(),
{
    if keys.len() == 0 {
        d
    } else {
        intern_one(intern_all(d, keys.drop_last()), normalize(keys.last()))
    }
}

/// The store after interning every lemma of every segment entry, in order.
pub open spec fn intern_seg_lemmas(d: Seq<Seq<char>>, es: Seq<SegmentLemmas>) -> Seq<Seq<char>>
    decreases es.len(),
{
    if es.len() == 0 {
        d
    } else {
        intern_all(intern_seg_lemmas(d, es.drop_last()), lemma_views(es.last().lemmas@))
    }
}

/// The target-lemma strings of one diglot segment map.
pub open spec fn diglot_lemmas(es: Seq<DiglotEntry>) -> Seq<Seq<char>> {
    es.map_values(|e: DiglotEntry| e.spa_lemma@)
}

/// The store after interning every diglot target lemma, in order.
pub open spec fn intern_diglot(d: Seq<Seq<char>>, ms: Seq<DiglotSegmentMap>) -> Seq<Seq<char>>
    decreases ms.len(),
{
    if ms.len() == 0 {
        d
    } else {
        intern_all(intern_diglot(d, ms.drop_last()), diglot_lemmas(ms.last().entries@))
    }
}

/// The store after interning one sentence's lemmas: advanced list first,
/// then the segment entries, then the diglot targets.
pub open spec fn intern_sentence(d: Seq<Seq<char>>, s: ProcessedSentence) -> Seq<Seq<char>> {
    intern_diglot(
        intern_seg_lemmas(intern_all(d, lemma_views(s.adv_s_lemmas@)), s.sim_s_lemmas@),
        s.diglot_map@,
    )
}

/// The store after interning a run of sentences, in order.
pub open spec fn intern_sentences(d: Seq<Seq<char>>, ss: Seq<ProcessedSentence>) -> Seq<Seq<char>>
    decreases ss.len(),
{
    if ss.len() == 0 {
        d
    } else {
        intern_sentence(intern_sentences(d, ss.drop_last()), ss.last())
    }
}

/// The store after scanning a whole chapter.
pub open spec fn intern_chapter(d: Seq<Seq<char>>, ch: ProcessedChapter) -> Seq<Seq<char>> {
    intern_sentences(d, ch.sentences@)
}

/// `intern_all` preserves the store's shape invariants, keeps the old
/// store as a prefix, and grows it by at most one id per lemma.
pub proof fn lemma_intern_all(d: Seq<Seq<char>>, keys: Seq<Seq<char>>)
    requires
        forall|a: int, b: int| 0 <= a < b < d.len() ==> d[a] != d[b],
        forall|i: int| 0 <= i < d.len() ==> (#[trigger] d[i]).len() > 0,
    ensures
        forall|a: int, b: int|
            0 <= a < b < intern_all(d, keys).len() ==> intern_all(d, keys)[a] != intern_all(
                d,
                keys,
            )[b],
        forall|i: int|
            0 <= i < intern_all(d, keys).len() ==> (#[trigger] intern_all(d, keys)[i]).len() > 0,
        d.len() <= intern_all(d, keys).len() <= d.len() + keys.len(),
        d.is_prefix_of(intern_all(d, keys)),
    decreases keys.len(),
{
    if keys.len() == 0 {
        assert(d.is_prefix_of(d)) by {
            assert(d.take(d.len() as int) =~= d);
        }
    } else {
        lemma_intern_all(d, keys.drop_last());
        let mid = intern_all(d, keys.drop_last());
        lemma_intern_one(mid, normalize(keys.last()));
        lemma_prefix_trans(d, mid, intern_all(d, keys));
    }
}

/// Prefixes compose.
proof fn lemma_prefix_trans(a: Seq<Seq<char>>, b: Seq<Seq<char>>, c: Seq<Seq<char>>)
    requires
        a.is_prefix_of(b),
        b.is_prefix_of(c),
    ensures
        a.is_prefix_of(c),
{
    assert(c.take(a.len() as int) =~= a) by {
        assert(b.take(a.len() as int) =~= a);
    }
}

/// `intern_seg_lemmas`: the same shape preservation, prefix and growth
/// bound, with one id at most per lemma of any entry.
pub proof fn lemma_intern_seg_lemmas(d: Seq<Seq<char>>, es: Seq<SegmentLemmas>)
    requires
        forall|a: int, b: int| 0 <= a < b < d.len() ==> d[a] != d[b],
        forall|i: int| 0 <= i < d.len() ==> (#[trigger] d[i]).len() > 0,
    ensures
        forall|a: int, b: int|
            0 <= a < b < intern_seg_lemmas(d, es).len() ==> intern_seg_lemmas(d, es)[a]
                != intern_seg_lemmas(d, es)[b],
        forall|i: int|
            0 <= i < intern_seg_lemmas(d, es).len() ==> (#[trigger] intern_seg_lemmas(
                d,
                es,
            )[i]).len() > 0,
        d.len() <= intern_seg_lemmas(d, es).len() <= d.len() + seg_lemma_count(es),
        d.is_prefix_of(intern_seg_lemmas(d, es)),
    decreases es.len(),
{
    if es.len() == 0 {
        assert(d.is_prefix_of(d)) by {
            assert(d.take(d.len() as int) =~= d);
        }
    } else {
        lemma_intern_seg_lemmas(d, es.drop_last());
        let mid = intern_seg_lemmas(d, es.drop_last());
        lemma_intern_all(mid, lemma_views(es.last().lemmas@));
        lemma_seg_lemma_count_nonneg(es.drop_last());
        lemma_prefix_trans(d, mid, intern_seg_lemmas(d, es));
    }
}

/// `intern_diglot`: the same shape preservation, prefix and growth bound.
pub proof fn lemma_intern_diglot(d: Seq<Seq<char>>, ms: Seq<DiglotSegmentMap>)
    requires
        forall|a: int, b: int| 0 <= a < b < d.len() ==> d[a] != d[b],
        forall|i: int| 0 <= i < d.len() ==> (#[trigger] d[i]).len() > 0,
    ensures
        forall|a: int, b: int|
            0 <= a < b < intern_diglot(d, ms).len() ==> intern_diglot(d, ms)[a] != intern_diglot(
                d,
                ms,
            )[b],
        forall|i: int|
            0 <= i < intern_diglot(d, ms).len() ==> (#[trigger] intern_diglot(d, ms)[i]).len() > 0,
        d.len() <= intern_diglot(d, ms).len() <= d.len() + diglot_lemma_count(ms),
        d.is_prefix_of(intern_diglot(d, ms)),
    decreases ms.len(),
{
    if ms.len() == 0 {
        assert(d.is_prefix_of(d)) by {
            assert(d.take(d.len() as int) =~= d);
        }
    } else {
        lemma_intern_diglot(d, ms.drop_last());
        let mid = intern_diglot(d, ms.drop_last());
        lemma_intern_all(mid, diglot_lemmas(ms.last().entries@));
        lemma_diglot_lemma_count_nonneg(ms.drop_last());
        lemma_prefix_trans(d, mid, intern_diglot(d, ms));
    }
}

/// How many lemma strings the segment entries hold in all.
pub open spec fn seg_lemma_count(es: Seq<SegmentLemmas>) -> int
    decreases es.len(),
{
    if es.len() == 0 {
        0
    } else {
        seg_lemma_count(es.drop_last()) + es.last().lemmas@.len()
    }
}

/// How many target lemmas the diglot maps hold in all.
pub open spec fn diglot_lemma_count(ms: Seq<DiglotSegmentMap>) -> int
    decreases ms.len(),
{
    if ms.len() == 0 {
        0
    } else {
        diglot_lemma_count(ms.drop_last()) + ms.last().entries@.len()
    }
}

/// How many lemma strings one sentence holds in all.
pub open spec fn sentence_lemma_count(s: ProcessedSentence) -> int {
    s.adv_s_lemmas@.len() + seg_lemma_count(s.sim_s_lemmas@) + diglot_lemma_count(s.diglot_map@)
}

/// How many lemma strings a run of sentences holds in all.
pub open spec fn sentences_lemma_count(ss: Seq<ProcessedSentence>) -> int
    decreases ss.len(),
{
    if ss.len() == 0 {
        0
    } else {
        sentences_lemma_count(ss.drop_last()) + sentence_lemma_count(ss.last())
    }
}

/// How many lemma strings a chapter holds in all.
pub open spec fn chapter_lemma_count(ch: ProcessedChapter) -> int {
    sentences_lemma_count(ch.sentences@)
}

proof fn lemma_seg_lemma_count_nonneg(es: Seq<SegmentLemmas>)
    ensures
        seg_lemma_count(es) >= 0,
    decreases es.len(),
{
    if es.len() > 0 {
        lemma_seg_lemma_count_nonneg(es.drop_last());
    }
}

proof fn lemma_diglot_lemma_count_nonneg(ms: Seq<DiglotSegmentMap>)
    ensures
        diglot_lemma_count(ms) >= 0,
    decreases ms.len(),
{
    if ms.len() > 0 {
        lemma_diglot_lemma_count_nonneg(ms.drop_last());
    }
}

proof fn lemma_sentence_lemma_count_nonneg(s: ProcessedSentence)
    ensures
        sentence_lemma_count(s) >= 0,
{
    lemma_seg_lemma_count_nonneg(s.sim_s_lemmas@);
    lemma_diglot_lemma_count_nonneg(s.diglot_map@);
}

proof fn lemma_sentences_lemma_count_nonneg(ss: Seq<ProcessedSentence>)
    ensures
        sentences_lemma_count(ss) >= 0,
    decreases ss.len(),
{
    if ss.len() > 0 {
        lemma_sentences_lemma_count_nonneg(ss.drop_last());
        lemma_sentence_lemma_count_nonneg(ss.last());
    }
}

/// One sentence's interning: shape preservation, prefix, growth bound.
pub proof fn lemma_intern_sentence(d: Seq<Seq<char>>, s: ProcessedSentence)
    requires
        forall|a: int, b: int| 0 <= a < b < d.len() ==> d[a] != d[b],
        forall|i: int| 0 <= i < d.len() ==> (#[trigger] d[i]).len() > 0,
    ensures
        forall|a: int, b: int|
            0 <= a < b < intern_sentence(d, s).len() ==> intern_sentence(d, s)[a]
                != intern_sentence(d, s)[b],
        forall|i: int|
            0 <= i < intern_sentence(d, s).len() ==> (#[trigger] intern_sentence(d, s)[i]).len()
                > 0,
        d.len() <= intern_sentence(d, s).len() <= d.len() + sentence_lemma_count(s),
        d.is_prefix_of(intern_sentence(d, s)),
{
    lemma_intern_all(d, lemma_views(s.adv_s_lemmas@));
    let d1 = intern_all(d, lemma_views(s.adv_s_lemmas@));
    lemma_intern_seg_lemmas(d1, s.sim_s_lemmas@);
    let d2 = intern_seg_lemmas(d1, s.sim_s_lemmas@);
    lemma_intern_diglot(d2, s.diglot_map@);
    lemma_prefix_trans(d, d1, d2);
    lemma_prefix_trans(d, d2, intern_sentence(d, s));
    lemma_seg_lemma_count_nonneg(s.sim_s_lemmas@);
    lemma_diglot_lemma_count_nonneg(s.diglot_map@);
}

/// A run of sentences: shape preservation, prefix, growth bound.
pub proof fn lemma_intern_sentences(d: Seq<Seq<char>>, ss: Seq<ProcessedSentence>)
    requires
        forall|a: int, b: int| 0 <= a < b < d.len() ==> d[a] != d[b],
        forall|i: int| 0 <= i < d.len() ==> (#[trigger] d[i]).len() > 0,
    ensures
        forall|a: int, b: int|
            0 <= a < b < intern_sentences(d, ss).len() ==> intern_sentences(d, ss)[a]
                != intern_sentences(d, ss)[b],
        forall|i: int|
            0 <= i < intern_sentences(d, ss).len() ==> (#[trigger] intern_sentences(
                d,
                ss,
            )[i]).len() > 0,
        d.len() <= intern_sentences(d, ss).len() <= d.len() + sentences_lemma_count(ss),
        d.is_prefix_of(intern_sentences(d, ss)),
    decreases ss.len(),
{
    if ss.len() == 0 {
        assert(d.is_prefix_of(d)) by {
            assert(d.take(d.len() as int) =~= d);
        }
    } else {
        lemma_intern_sentences(d, ss.drop_last());
        let mid = intern_sentences(d, ss.drop_last());
        lemma_intern_sentence(mid, ss.last());
        lemma_sentences_lemma_count_nonneg(ss.drop_last());
        lemma_sentence_lemma_count_nonneg(ss.last());
        lemma_prefix_trans(d, mid, intern_sentences(d, ss));
    }
}

/// The dictionary: normalized lemma strings stored densely; a lemma's id
/// is its index in the store.
#[derive(Debug, Clone)]
pub struct GlobalLemmaDictionary {
    id_to_str: Vec<String>,
}

impl View for GlobalLemmaDictionary {
    type V = Seq<Seq<char>>;

    closed spec fn view(&self) -> Seq<Seq<char>> {
        self.id_to_str@.map_values(|s: String| s@)
    }
}

impl GlobalLemmaDictionary {
    /// Internal invariant of the store.
    pub open spec fn wf(&self) -> bool {
        dict_wf(self@)
    }

    /// An empty dictionary.
    pub fn new() -> (r: Self)
        ensures
            r@ =~= Seq::<Seq<char>>::empty(),
            r.wf(),
    {
        let r = GlobalLemmaDictionary { id_to_str: Vec::new() };
        proof {
            assert(r@ =~= Seq::<Seq<char>>::empty());
        }
        r
    }

    /// Number of interned lemmas.
    pub fn size(&self) -> (r: usize)
        ensures
            r == self@.len(),
    {
        self.id_to_str.len()
    }

    /// The stored normalized string for an assigned id, if the id is in
    /// range.
    pub fn get_str(&self, lemma_id: u32) -> (r: Option<&String>)
        ensures
            r is Some <==> (lemma_id as int) < self@.len(),
            r matches Some(st) ==> st@ == self@[lemma_id as int],
    {
        let idx = lemma_id as usize;
        if idx < self.id_to_str.len() {
            Some(&self.id_to_str[idx])
        } else {
            None
        }
    }

    /// Index of the stored string equal to `key`, if present.
    fn find_key(&self, key: &String) -> (r: Option<usize>)
        requires
            self.wf(),
        ensures
            r matches Some(i) ==> i < self@.len() && self@[i as int] == key@ && i as int
                == find_str(self@, key@),
            r is None ==> !has_str(self@, key@),
    {
        let n = self.id_to_str.len();
        let mut i: usize = 0;
        while i < n
            invariant
                i <= n,
                n == self@.len(),
                self.wf(),
                forall|j: int| 0 <= j < i ==> self@[j] != key@,
            decreases n - i,
        {
            if self.id_to_str[i] == *key {
                proof {
                    lemma_find_str_unique(self@, key@, i as int);
                }
                return Some(i);
            }
            i += 1;
        }
        None
    }

    /// Look up the id of a lemma without interning it: the lemma string is
    /// normalized first, an empty normalization finds nothing, and the
    /// returned id is the index of the stored equal string.
    pub fn get_id(&self, lemma_str: &str) -> (r: Option<u32>)
        requires
            self.wf(),
        ensures
            r is Some <==> (normalize(lemma_str@).len() > 0 && has_str(
                self@,
                normalize(lemma_str@),
            )),
            r matches Some(id) ==> id as int == find_str(self@, normalize(lemma_str@))
                && self@[id as int] == normalize(lemma_str@),
    {
        let key = lowercase_str(trim_str(lemma_str));
        if key.as_str().is_empty() {
            return None;
        }
        match self.find_key(&key) {
            Some(i) => Some(i as u32),
            None => None,
        }
    }

    /// Intern a lemma: normalize it, refuse an empty normalization, return
    /// the existing id of a known lemma unchanged, and otherwise assign
    /// the next sequential id to the normalized string.
    pub fn get_id_or_insert(&mut self, lemma_str: &str) -> (r: Option<u32>)
        requires
            old(self).wf(),
            old(self)@.len() < u32::MAX,
        ensures
            final(self).wf(),
            final(self)@ == intern_one(old(self)@, normalize(lemma_str@)),
            r is None <==> normalize(lemma_str@).len() == 0,
            r matches Some(id) ==> Option::Some(id as int) == intern_id(
                old(self)@,
                normalize(lemma_str@),
            ),
            r matches Some(id) ==> (id as int) < final(self)@.len() && final(self)@[id as int]
                == normalize(lemma_str@),
    {
        let key = lowercase_str(trim_str(lemma_str));
        if key.as_str().is_empty() {
            return None;
        }
        match self.find_key(&key) {
            Some(i) => {
                proof {
                    lemma_find_str(self@, key@);
                }
                Some(i as u32)
            },
            None => {
                let id = self.id_to_str.len();
                let ghost pre = self@;
                self.id_to_str.push(key);
                proof {
                    assert(self@ =~= pre.push(normalize(lemma_str@)));
                    lemma_intern_one(pre, normalize(lemma_str@));
                }
                Some(id as u32)
            },
        }
    }

    /// Scan a whole chapter and intern every lemma it holds: the advanced
    /// lemma lists, the per-segment lemma entries, and the diglot target
    /// lemmas, sentence by sentence in order. Already-assigned ids never
    /// move: the old store is a prefix of the new one.
    pub fn populate_from_chapter(&mut self, chapter_data: &ProcessedChapter)
        requires
            old(self).wf(),
            old(self)@.len() + chapter_lemma_count(*chapter_data) < u32::MAX,
        ensures
            final(self).wf(),
            final(self)@ == intern_chapter(old(self)@, *chapter_data),
            old(self)@.is_prefix_of(final(self)@),
    {
        let ns = chapter_data.sentences.len();
        let mut si: usize = 0;
        proof {
            lemma_sentences_lemma_count_nonneg(chapter_data.sentences@);
            lemma_sentences_count_from_zero(chapter_data.sentences@);
        }
        while si < ns
            invariant
                si <= ns,
                ns == chapter_data.sentences@.len(),
                self.wf(),
                self@ == intern_sentences(old(self)@, chapter_data.sentences@.take(si as int)),
                self@.len() + sentences_count_from(chapter_data.sentences@, si as int)
                    < u32::MAX,
            decreases ns - si,
        {
            let s = &chapter_data.sentences[si];
            let ghost d0 = self@;
            proof {
                lemma_sentences_count_from_unfold(chapter_data.sentences@, si as int);
                lemma_sentence_lemma_count_nonneg(*s);
                lemma_sentences_count_from_nonneg(chapter_data.sentences@, si + 1);
            }
            // Advanced lemma list.
            let na = s.adv_s_lemmas.len();
            let mut ai: usize = 0;
            proof {
                lemma_seg_lemma_count_nonneg(s.sim_s_lemmas@);
                lemma_diglot_lemma_count_nonneg(s.diglot_map@);
            }
            while ai < na
                invariant
                    ai <= na,
                    na == s.adv_s_lemmas@.len(),
                    self.wf(),
                    self@ == intern_all(d0, lemma_views(s.adv_s_lemmas@.take(ai as int))),
                    self@.len() + (na - ai) + seg_lemma_count(s.sim_s_lemmas@)
                        + diglot_lemma_count(s.diglot_map@) + sentences_count_from(
                        chapter_data.sentences@,
                        si + 1,
                    ) < u32::MAX,
                decreases na - ai,
            {
                proof {
                    lemma_seg_lemma_count_nonneg(s.sim_s_lemmas@);
                    lemma_diglot_lemma_count_nonneg(s.diglot_map@);
                    lemma_sentences_count_from_nonneg(chapter_data.sentences@, si + 1);
                }
                self.get_id_or_insert(s.adv_s_lemmas[ai].as_str());
                proof {
                    assert(lemma_views(s.adv_s_lemmas@.take(ai + 1)).drop_last() =~= lemma_views(
                        s.adv_s_lemmas@.take(ai as int),
                    ));
                    assert(lemma_views(s.adv_s_lemmas@.take(ai + 1)).last() == s.adv_s_lemmas@[ai as int]@);
                }
                ai += 1;
            }
            proof {
                assert(lemma_views(s.adv_s_lemmas@.take(na as int)) =~= lemma_views(
                    s.adv_s_lemmas@,
                ));
            }
            let ghost d1 = self@;
            // Per-segment lemma entries.
            let nl = s.sim_s_lemmas.len();
            let mut li: usize = 0;
            proof {
                lemma_seg_count_take(s.sim_s_lemmas@, 0);
            }
            while li < nl
                invariant
                    li <= nl,
                    nl == s.sim_s_lemmas@.len(),
                    self.wf(),
                    self@ == intern_seg_lemmas(d1, s.sim_s_lemmas@.take(li as int)),
                    self@.len() + (seg_lemma_count(s.sim_s_lemmas@) - seg_lemma_count(
                        s.sim_s_lemmas@.take(li as int),
                    )) + diglot_lemma_count(s.diglot_map@) + sentences_count_from(
                        chapter_data.sentences@,
                        si + 1,
                    ) < u32::MAX,
                decreases nl - li,
            {
                let entry = &s.sim_s_lemmas[li];
                let ghost d2 = self@;
                let nk = entry.lemmas.len();
                let mut ki: usize = 0;
                proof {
                    lemma_seg_count_take_step(s.sim_s_lemmas@, li as int);
                    lemma_seg_count_le(s.sim_s_lemmas@, li + 1);
                    lemma_diglot_lemma_count_nonneg(s.diglot_map@);
                    lemma_sentences_count_from_nonneg(chapter_data.sentences@, si + 1);
                }
                while ki < nk
                    invariant
                        ki <= nk,
                        nk == entry.lemmas@.len(),
                        li < s.sim_s_lemmas@.len(),
                        self.wf(),
                        self@ == intern_all(d2, lemma_views(entry.lemmas@.take(ki as int))),
                        self@.len() + (nk - ki) + (seg_lemma_count(s.sim_s_lemmas@)
                            - seg_lemma_count(s.sim_s_lemmas@.take(li + 1))) + diglot_lemma_count(
                            s.diglot_map@,
                        ) + sentences_count_from(chapter_data.sentences@, si + 1) < u32::MAX,
                    decreases nk - ki,
                {
                    proof {
                        lemma_seg_count_le(s.sim_s_lemmas@, li + 1);
                        lemma_diglot_lemma_count_nonneg(s.diglot_map@);
                        lemma_sentences_count_from_nonneg(chapter_data.sentences@, si + 1);
                    }
                    self.get_id_or_insert(entry.lemmas[ki].as_str());
                    proof {
                        assert(lemma_views(entry.lemmas@.take(ki + 1)).drop_last() =~= lemma_views(
                            entry.lemmas@.take(ki as int),
                        ));
                        assert(lemma_views(entry.lemmas@.take(ki + 1)).last() == entry.lemmas@[ki as int]@);
                    }
                    ki += 1;
                }
                proof {
                    assert(lemma_views(entry.lemmas@.take(nk as int)) =~= lemma_views(
                        entry.lemmas@,
                    ));
                    assert(s.sim_s_lemmas@.take(li + 1).drop_last() =~= s.sim_s_lemmas@.take(
                        li as int,
                    ));
                    assert(s.sim_s_lemmas@.take(li + 1).last() == s.sim_s_lemmas@[li as int]);
                    lemma_seg_count_take_step(s.sim_s_lemmas@, li as int);
                }
                li += 1;
            }
            proof {
                assert(s.sim_s_lemmas@.take(nl as int) =~= s.sim_s_lemmas@);
            }
            let ghost d3 = self@;
            // Diglot target lemmas.
            let nm = s.diglot_map.len();
            let mut mi: usize = 0;
            while mi < nm
                invariant
                    mi <= nm,
                    nm == s.diglot_map@.len(),
                    self.wf(),
                    self@ == intern_diglot(d3, s.diglot_map@.take(mi as int)),
                    self@.len() + (diglot_lemma_count(s.diglot_map@) - diglot_lemma_count(
                        s.diglot_map@.take(mi as int),
                    )) + sentences_count_from(chapter_data.sentences@, si + 1) < u32::MAX,
                decreases nm - mi,
            {
                let m = &s.diglot_map[mi];
                let ghost d4 = self@;
                let ne = m.entries.len();
                let mut ei: usize = 0;
                proof {
                    lemma_diglot_count_take_step(s.diglot_map@, mi as int);
                    lemma_diglot_count_le(s.diglot_map@, mi + 1);
                    lemma_sentences_count_from_nonneg(chapter_data.sentences@, si + 1);
                }
                while ei < ne
                    invariant
                        ei <= ne,
                        ne == m.entries@.len(),
                        mi < s.diglot_map@.len(),
                        self.wf(),
                        self@ == intern_all(d4, diglot_lemmas(m.entries@.take(ei as int))),
                        self@.len() + (ne - ei) + (diglot_lemma_count(s.diglot_map@)
                            - diglot_lemma_count(s.diglot_map@.take(mi + 1)))
                            + sentences_count_from(chapter_data.sentences@, si + 1) < u32::MAX,
                    decreases ne - ei,
                {
                    proof {
                        lemma_diglot_count_le(s.diglot_map@, mi + 1);
                        lemma_sentences_count_from_nonneg(chapter_data.sentences@, si + 1);
                    }
                    self.get_id_or_insert(m.entries[ei].spa_lemma.as_str());
                    proof {
                        assert(diglot_lemmas(m.entries@.take(ei + 1)).drop_last() =~= diglot_lemmas(
                            m.entries@.take(ei as int),
                        ));
                        assert(diglot_lemmas(m.entries@.take(ei + 1)).last() == m.entries@[ei as int].spa_lemma@);
                    }
                    ei += 1;
                }
                proof {
                    assert(diglot_lemmas(m.entries@.take(ne as int)) =~= diglot_lemmas(m.entries@));
                    assert(s.diglot_map@.take(mi + 1).drop_last() =~= s.diglot_map@.take(mi as int));
                    assert(s.diglot_map@.take(mi + 1).last() == s.diglot_map@[mi as int]);
                    lemma_diglot_count_take_step(s.diglot_map@, mi as int);
                }
                mi += 1;
            }
            proof {
                assert(s.diglot_map@.take(nm as int) =~= s.diglot_map@);
                assert(chapter_data.sentences@.take(si + 1).drop_last()
                    =~= chapter_data.sentences@.take(si as int));
                assert(chapter_data.sentences@.take(si + 1).last() == chapter_data.sentences@[si as int]);
                lemma_sentences_count_from_unfold(chapter_data.sentences@, si as int);
            }
            si += 1;
        }
        proof {
            assert(chapter_data.sentences@.take(ns as int) =~= chapter_data.sentences@);
            lemma_intern_sentences(old(self)@, chapter_data.sentences@);
        }
    }
}

/// The lemmas still to intern from sentence `i` on.
pub open spec fn sentences_count_from(ss: Seq<ProcessedSentence>, i: int) -> int
    decreases ss.len() - i,
{
    if i < 0 || i >= ss.len() {
        0
    } else {
        sentence_lemma_count(ss[i]) + sentences_count_from(ss, i + 1)
    }
}

proof fn lemma_sentences_count_from_nonneg(ss: Seq<ProcessedSentence>, i: int)
    ensures
        sentences_count_from(ss, i) >= 0,
    decreases ss.len() - i,
{
    if 0 <= i < ss.len() {
        lemma_sentences_count_from_nonneg(ss, i + 1);
        lemma_sentence_lemma_count_nonneg(ss[i]);
    }
}

proof fn lemma_sentences_count_from_unfold(ss: Seq<ProcessedSentence>, i: int)
    requires
        0 <= i < ss.len(),
    ensures
        sentences_count_from(ss, i) == sentence_lemma_count(ss[i]) + sentences_count_from(
            ss,
            i + 1,
        ),
{
}

/// The whole-chapter count equals the count from the first sentence.
pub proof fn lemma_sentences_count_from_zero(ss: Seq<ProcessedSentence>)
    ensures
        sentences_count_from(ss, 0) == sentences_lemma_count(ss),
{
    lemma_sentences_count_split(ss, 0);
    assert(ss.take(0) =~= Seq::<ProcessedSentence>::empty());
}

proof fn lemma_sentences_count_split(ss: Seq<ProcessedSentence>, n: int)
    requires
        0 <= n <= ss.len(),
    ensures
        sentences_lemma_count(ss.take(n)) + sentences_count_from(ss, n) == sentences_lemma_count(
            ss,
        ),
    decreases ss.len() - n,
{
    if n == ss.len() {
        assert(ss.take(n) =~= ss);
    } else {
        lemma_sentences_count_split(ss, n + 1);
        assert(ss.take(n + 1).drop_last() =~= ss.take(n));
        assert(ss.take(n + 1).last() == ss[n]);
    }
}

proof fn lemma_seg_count_take_step(es: Seq<SegmentLemmas>, i: int)
    requires
        0 <= i < es.len(),
    ensures
        seg_lemma_count(es.take(i + 1)) == seg_lemma_count(es.take(i)) + es[i].lemmas@.len(),
{
    assert(es.take(i + 1).drop_last() =~= es.take(i));
    assert(es.take(i + 1).last() == es[i]);
}

proof fn lemma_seg_count_take(es: Seq<SegmentLemmas>, i: int)
    requires
        0 <= i <= es.len(),
    ensures
        seg_lemma_count(es.take(i)) >= 0,
    decreases i,
{
    if i > 0 {
        lemma_seg_count_take(es, i - 1);
        lemma_seg_count_take_step(es, i - 1);
    }
}

proof fn lemma_seg_count_le(es: Seq<SegmentLemmas>, i: int)
    requires
        0 <= i <= es.len(),
    ensures
        seg_lemma_count(es.take(i)) <= seg_lemma_count(es),
    decreases es.len() - i,
{
    if i == es.len() {
        assert(es.take(i) =~= es);
    } else {
        lemma_seg_count_le(es, i + 1);
        lemma_seg_count_take_step(es, i);
    }
}

proof fn lemma_diglot_count_take_step(ms: Seq<DiglotSegmentMap>, i: int)
    requires
        0 <= i < ms.len(),
    ensures
        diglot_lemma_count(ms.take(i + 1)) == diglot_lemma_count(ms.take(i)) + ms[i].entries@.len(),
{
    assert(ms.take(i + 1).drop_last() =~= ms.take(i));
    assert(ms.take(i + 1).last() == ms[i]);
}

proof fn lemma_diglot_count_le(ms: Seq<DiglotSegmentMap>, i: int)
    requires
        0 <= i <= ms.len(),
    ensures
        diglot_lemma_count(ms.take(i)) <= diglot_lemma_count(ms),
    decreases ms.len() - i,
{
    if i == ms.len() {
        assert(ms.take(i) =~= ms);
    } else {
        lemma_diglot_count_le(ms, i + 1);
        lemma_diglot_count_take_step(ms, i);
    }
}


/// Dictionary stability: interning the same normalized key twice yields
/// the same id and leaves the store alone; a fresh key is assigned the
/// next sequential id, one past every id assigned before; and the stored
/// string under the returned id is exactly the normalized key.
pub proof fn lemma_dictionary_stability(d: Seq<Seq<char>>, key: Seq<char>)
    requires
        dict_wf(d),
        key.len() > 0,
    ensures
        intern_id(intern_one(d, key), key) == intern_id(d, key),
        intern_one(intern_one(d, key), key) == intern_one(d, key),
        !has_str(d, key) ==> intern_id(d, key) == Option::Some(d.len() as int),
        intern_id(d, key) matches Option::Some(id) ==> 0 <= id < intern_one(d, key).len()
            && intern_one(d, key)[id] == key,
{
    lemma_find_str(d, key);
    if has_str(d, key) {
    } else {
        let t = d.push(key);
        lemma_intern_one(d, key);
        lemma_find_str_unique(t, key, d.len() as int);
        assert(has_str(t, key));
    }
}

} // verus!
