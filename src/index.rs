//! The searchable index: documents, pages, text results and the word map.

use vstd::prelude::*;
use vstd::utf8::*;
use vstd::pervasive::VecAdditionalExecFns;
use core::cmp::Ordering;
use crate::order::{lex_lt, compare_bytes, lemma_lex_irreflexive, lemma_lex_asymmetric, lemma_lex_transitive};

verus! {

broadcast use vstd::utf8::encode_utf8_decode_utf8;

/// A rendered page of a document.
pub struct Page {
    /// Position of the document in `SearchIndex::documents`.
    pub document_index: u16,
    /// Page number within the document, counting from 0.
    pub page_nr: u16,
    /// Content digest of the lossless render, empty until rendered.
    pub rendered_avif: String,
    /// Content digest of the lossy render, empty until rendered.
    pub rendered_jpeg: String,
    pub width: u16,
    pub height: u16,
}

/// What a page is, with its digests as character sequences.
pub struct PageView {
    pub document_index: u16,
    pub page_nr: u16,
    pub rendered_avif: Seq<char>,
    pub rendered_jpeg: Seq<char>,
    pub width: u16,
    pub height: u16,
}

impl View for Page {
    type V = PageView;

    open spec fn view(&self) -> PageView {
        PageView {
            document_index: self.document_index,
            page_nr: self.page_nr,
            rendered_avif: self.rendered_avif@,
            rendered_jpeg: self.rendered_jpeg@,
            width: self.width,
            height: self.height,
        }
    }
}

/// A line of text on a page, as a rectangle in rendered pixels.
#[derive(Clone, Copy, Debug, PartialEq, Eq, Structural)]
pub struct SearchResult {
    /// Position of the page in `SearchIndex::pages`.
    pub page_index: u32,
    pub x: i16,
    pub y: i16,
    pub width: u16,
    pub height: u16,
}

/// One occurrence of a word: the result it occurs in, and its score.
#[derive(Clone, Copy, Debug, PartialEq, Eq, Structural)]
pub struct Match {
    /// Position of the result in `SearchIndex::results`.
    pub result_index: u32,
    /// The score, as the bit pattern of an IEEE 754 binary32 number.
    pub score_bits: u32,
}

/// A word and its matches.
pub struct WordMatches {
    pub word: String,
    pub matches: Vec<Match>,
}

impl View for WordMatches {
    type V = (Seq<char>, Seq<Match>);

    open spec fn view(&self) -> (Seq<char>, Seq<Match>) {
        (self.word@, self.matches@)
    }
}

/// Words with their matches, kept in increasing byte order of the words,
/// each word once.
pub struct WordMap {
    pub entries: Vec<WordMatches>,
}

impl View for WordMap {
    type V = Seq<(Seq<char>, Seq<Match>)>;

    open spec fn view(&self) -> Seq<(Seq<char>, Seq<Match>)> {
        self.entries@.map_values(|e: WordMatches| e@)
    }
}

/// The byte string by which a word is ordered.
pub open spec fn word_key(w: Seq<char>) -> Seq<u8> {
    encode_utf8(w)
}

pub open spec fn keys_sorted(ws: Seq<(Seq<char>, Seq<Match>)>) -> bool {
    forall|i: int, j: int|
        0 <= i < j < ws.len() ==> #[trigger] lex_lt(word_key(ws[i].0), word_key(ws[j].0))
}

/// The matches stored under `k`: those of the last entry with that word.
pub open spec fn lookup(ws: Seq<(Seq<char>, Seq<Match>)>, k: Seq<char>) -> Option<Seq<Match>>
    decreases ws.len(),
{
    if ws.len() == 0 {
        None
    } else if ws.last().0 == k {
        Some(ws.last().1)
    } else {
        lookup(ws.drop_last(), k)
    }
}

pub open spec fn lookup_or_empty(ws: Seq<(Seq<char>, Seq<Match>)>, k: Seq<char>) -> Seq<Match> {
    match lookup(ws, k) {
        Some(v) => v,
        None => Seq::empty(),
    }
}

/// `k` sorts after every word of `ws`.
pub open spec fn after_all(ws: Seq<(Seq<char>, Seq<Match>)>, k: Seq<char>) -> bool {
    ws.len() == 0 || lex_lt(word_key(ws.last().0), word_key(k))
}

pub proof fn lemma_lookup_at(ws: Seq<(Seq<char>, Seq<Match>)>, i: int)
    requires
        0 <= i < ws.len(),
        forall|j: int| i < j < ws.len() ==> ws[j].0 != ws[i].0,
    ensures
        lookup(ws, ws[i].0) == Some(ws[i].1),
    decreases ws.len(),
{
    if i < ws.len() - 1 {
        lemma_lookup_at(ws.drop_last(), i);
    }
}

pub proof fn lemma_lookup_absent(ws: Seq<(Seq<char>, Seq<Match>)>, k: Seq<char>)
    requires
        forall|j: int| 0 <= j < ws.len() ==> ws[j].0 != k,
    ensures
        lookup(ws, k) is None,
    decreases ws.len(),
{
    if ws.len() > 0 {
        lemma_lookup_absent(ws.drop_last(), k);
    }
}

pub proof fn lemma_sorted_distinct(ws: Seq<(Seq<char>, Seq<Match>)>, i: int, j: int)
    requires
        keys_sorted(ws),
        0 <= i < ws.len(),
        0 <= j < ws.len(),
        i != j,
    ensures
        ws[i].0 != ws[j].0,
{
    if i < j {
        assert(lex_lt(word_key(ws[i].0), word_key(ws[j].0)));
        lemma_lex_irreflexive(word_key(ws[i].0));
    } else {
        assert(lex_lt(word_key(ws[j].0), word_key(ws[i].0)));
        lemma_lex_irreflexive(word_key(ws[j].0));
    }
}

/// In a sorted word list an entry is what `lookup` finds for its word.
pub proof fn lemma_sorted_lookup(ws: Seq<(Seq<char>, Seq<Match>)>, i: int)
    requires
        keys_sorted(ws),
        0 <= i < ws.len(),
    ensures
        lookup(ws, ws[i].0) == Some(ws[i].1),
{
    assert forall|j: int| i < j < ws.len() implies ws[j].0 != ws[i].0 by {
        lemma_sorted_distinct(ws, i, j);
    }
    lemma_lookup_at(ws, i);
}

impl WordMap {
    pub open spec fn wf(&self) -> bool {
        keys_sorted(self@)
    }

    /// An empty map.
    pub fn new() -> (r: WordMap)
        ensures
            r@ == Seq::<(Seq<char>, Seq<Match>)>::empty(),
            r.wf(),
    {
        WordMap { entries: Vec::new() }
    }

    pub fn len(&self) -> (r: usize)
        ensures
            r == self@.len(),
    {
        self.entries.len()
    }

    /// Binary search for `k`: `Ok` with its position, or `Err` with the
    /// position where it would be inserted.
    pub fn find(&self, k: &[u8]) -> (r: Result<usize, usize>)
        requires
            self.wf(),
        ensures
            match r {
                Ok(i) => i < self@.len() && word_key(self@[i as int].0) == k@,
                Err(p) => p <= self@.len()
                    && (forall|i: int| 0 <= i < p ==> lex_lt(word_key(#[trigger] self@[i].0), k@))
                    && (forall|i: int| p <= i < self@.len() ==> lex_lt(k@, word_key(#[trigger] self@[i].0))),
            },
    {
        let mut lo: usize = 0;
        let mut hi: usize = self.entries.len();
        while lo < hi
            invariant
                self.wf(),
                lo <= hi <= self@.len(),
                self@.len() == self.entries@.len(),
                forall|i: int| 0 <= i < lo ==> lex_lt(word_key(#[trigger] self@[i].0), k@),
                forall|i: int| hi <= i < self@.len() ==> lex_lt(k@, word_key(#[trigger] self@[i].0)),
            decreases hi - lo,
        {
            let mid = lo + (hi - lo) / 2;
            let c = compare_bytes(self.entries[mid].word.as_str().as_bytes(), k);
            let ghost km = word_key(self@[mid as int].0);
            match c {
                Ordering::Equal => {
                    return Ok(mid);
                },
                Ordering::Less => {
                    assert forall|i: int| 0 <= i < mid + 1 implies lex_lt(word_key(#[trigger] self@[i].0), k@) by {
                        if i < mid {
                            assert(lex_lt(word_key(self@[i].0), km));
                            lemma_lex_transitive(word_key(self@[i].0), km, k@);
                        }
                    }
                    lo = mid + 1;
                },
                Ordering::Greater => {
                    assert forall|i: int| mid <= i < self@.len() implies lex_lt(k@, word_key(#[trigger] self@[i].0)) by {
                        if i > mid {
                            assert(lex_lt(km, word_key(self@[i].0)));
                            lemma_lex_transitive(k@, km, word_key(self@[i].0));
                        }
                    }
                    hi = mid;
                },
            }
        }
        Err(lo)
    }

    /// Position of the entry for `word`, adding one with no matches if the
    /// word was absent.
    fn slot(&mut self, word: String) -> (i: usize)
        requires
            old(self).wf(),
        ensures
            final(self).wf(),
            i < final(self)@.len(),
            final(self)@[i as int] == (word@, lookup_or_empty(old(self)@, word@)),
            forall|k: Seq<char>| k != word@ ==> #[trigger] lookup(final(self)@, k) == lookup(old(self)@, k),
            after_all(old(self)@, word@) ==> final(self)@ == old(self)@.push((word@, Seq::<Match>::empty()))
                && i == old(self)@.len(),
    {
        let ghost ws = self@;
        let r = self.find(word.as_str().as_bytes());
        match r {
            Ok(i) => {
                proof {
                    lemma_sorted_lookup(ws, i as int);
                    assert(ws[i as int].0 == word@) by {
                        encode_utf8_decode_utf8(ws[i as int].0);
                        encode_utf8_decode_utf8(word@);
                    }
                    if ws.len() > 0 && lex_lt(word_key(ws.last().0), word_key(word@)) {
                        if i < ws.len() - 1 {
                            assert(lex_lt(word_key(ws[i as int].0), word_key(ws.last().0)));
                            lemma_lex_asymmetric(word_key(ws[i as int].0), word_key(ws.last().0));
                        } else {
                            lemma_lex_irreflexive(word_key(word@));
                        }
                    }
                }
                i
            },
            Err(p) => {
                let ghost w = word@;
                self.entries.insert(p, WordMatches { word, matches: Vec::new() });
                let ghost ns = self@;
                proof {
                    assert(ns =~= ws.insert(p as int, (w, Seq::<Match>::empty())));
                    assert forall|a: int, b: int| 0 <= a < b < ns.len() implies #[trigger] lex_lt(word_key(ns[a].0), word_key(ns[b].0)) by {
                        if b < p {
                        } else if a < p && b == p {
                        } else if a < p {
                            assert(lex_lt(word_key(ws[a].0), word_key(w)));
                            assert(lex_lt(word_key(w), word_key(ws[b - 1].0)));
                            lemma_lex_transitive(word_key(ws[a].0), word_key(w), word_key(ws[b - 1].0));
                        } else if a == p {
                        } else {
                            assert(lex_lt(word_key(ws[a - 1].0), word_key(ws[b - 1].0)));
                        }
                    }
                    assert forall|j: int| 0 <= j < ws.len() implies ws[j].0 != w by {
                        if j < p {
                            assert(lex_lt(word_key(ws[j].0), word_key(w)));
                        } else {
                            assert(lex_lt(word_key(w), word_key(ws[j].0)));
                        }
                        lemma_lex_irreflexive(word_key(w));
                    }
                    lemma_lookup_absent(ws, w);
                    assert forall|k: Seq<char>| k != w implies #[trigger] lookup(ns, k) == lookup(ws, k) by {
                        if exists|j: int| 0 <= j < ws.len() && ws[j].0 == k {
                            let j = choose|j: int| 0 <= j < ws.len() && ws[j].0 == k;
                            lemma_sorted_lookup(ws, j);
                            if j < p {
                                assert(ns[j] == ws[j]);
                                lemma_sorted_lookup(ns, j);
                            } else {
                                assert(ns[j + 1] == ws[j]);
                                lemma_sorted_lookup(ns, j + 1);
                            }
                        } else {
                            lemma_lookup_absent(ws, k);
                            assert forall|j: int| 0 <= j < ns.len() implies ns[j].0 != k by {
                                if j < p {
                                    assert(ns[j] == ws[j]);
                                } else if j > p {
                                    assert(ns[j] == ws[j - 1]);
                                }
                            }
                            lemma_lookup_absent(ns, k);
                        }
                    }
                    if after_all(ws, w) && ws.len() > 0 {
                        if p < ws.len() {
                            let l = ws.len() - 1;
                            assert(lex_lt(word_key(w), word_key(ws[l].0)));
                            lemma_lex_asymmetric(word_key(w), word_key(ws[l].0));
                        }
                        assert(ns =~= ws.push((w, Seq::<Match>::empty())));
                    }
                    if ws.len() == 0 {
                        assert(ns =~= ws.push((w, Seq::<Match>::empty())));
                    }
                }
                p
            },
        }
    }

    /// Stores `matches` under `word`, replacing what was there.
    pub fn insert(&mut self, word: String, matches: Vec<Match>)
        requires
            old(self).wf(),
        ensures
            final(self).wf(),
            lookup(final(self)@, word@) == Some(matches@),
            forall|k: Seq<char>| k != word@ ==> #[trigger] lookup(final(self)@, k) == lookup(old(self)@, k),
            after_all(old(self)@, word@) ==> final(self)@ == old(self)@.push((word@, matches@)),
    {
        let ghost old_ws = self@;
        let w = word.clone();
        let i = self.slot(word);
        let ghost mid = self@;
        self.entries.set(i, WordMatches { word: w, matches });
        proof {
            assert(self@ =~= mid.update(i as int, (w@, matches@)));
            assert(keys_sorted(self@)) by {
                assert forall|a: int, b: int| 0 <= a < b < self@.len() implies #[trigger] lex_lt(word_key(self@[a].0), word_key(self@[b].0)) by {
                    assert(lex_lt(word_key(mid[a].0), word_key(mid[b].0)));
                }
            }
            lemma_sorted_lookup(self@, i as int);
            if after_all(old_ws, w@) {
                assert(self@ =~= old_ws.push((w@, matches@)));
            }
            assert forall|k: Seq<char>| k != w@ implies #[trigger] lookup(self@, k) == lookup(mid, k) by {
                if exists|j: int| 0 <= j < mid.len() && mid[j].0 == k {
                    let j = choose|j: int| 0 <= j < mid.len() && mid[j].0 == k;
                    lemma_sorted_lookup(mid, j);
                    lemma_sorted_lookup(self@, j);
                } else {
                    lemma_lookup_absent(mid, k);
                    lemma_lookup_absent(self@, k);
                }
            }
        }
    }

    /// Appends `extra` to the matches stored under `word`, creating the
    /// entry if the word was absent.
    pub fn append(&mut self, word: String, extra: &Vec<Match>)
        requires
            old(self).wf(),
        ensures
            final(self).wf(),
            lookup(final(self)@, word@) == Some(lookup_or_empty(old(self)@, word@) + extra@),
            forall|k: Seq<char>| k != word@ ==> #[trigger] lookup(final(self)@, k) == lookup(old(self)@, k),
    {
        let ghost w = word@;
        let i = self.slot(word);
        let ghost mid = self@;
        let ghost mid_entries = self.entries@;
        let mut e = WordMatches { word: String::new(), matches: Vec::new() };
        self.entries.set_and_swap(i, &mut e);
        assert(e@ == mid[i as int]);
        let mut j: usize = 0;
        let ghost start = e.matches@;
        while j < extra.len()
            invariant
                j <= extra@.len(),
                e.matches@ =~= start + extra@.subrange(0, j as int),
                e.word@ == w,
            decreases extra@.len() - j,
        {
            e.matches.push(extra[j]);
            j = j + 1;
        }
        let ghost ev = e;
        assert(ev@ == (w, start + extra@));
        self.entries.set_and_swap(i, &mut e);
        proof {
            assert(self.entries@ == mid_entries.update(i as int, ev));
            assert(self@ =~= mid.update(i as int, (w, start + extra@)));
            assert(keys_sorted(self@)) by {
                assert forall|a: int, b: int| 0 <= a < b < self@.len() implies #[trigger] lex_lt(word_key(self@[a].0), word_key(self@[b].0)) by {
                    assert(lex_lt(word_key(mid[a].0), word_key(mid[b].0)));
                }
            }
            lemma_sorted_lookup(self@, i as int);
            assert forall|k: Seq<char>| k != w implies #[trigger] lookup(self@, k) == lookup(mid, k) by {
                if exists|j: int| 0 <= j < mid.len() && mid[j].0 == k {
                    let j = choose|j: int| 0 <= j < mid.len() && mid[j].0 == k;
                    lemma_sorted_lookup(mid, j);
                    lemma_sorted_lookup(self@, j);
                } else {
                    lemma_lookup_absent(mid, k);
                    lemma_lookup_absent(self@, k);
                }
            }
        }
    }
}

/// The whole index.
pub struct SearchIndex {
    pub documents: Vec<String>,
    pub pages: Vec<Page>,
    pub results: Vec<SearchResult>,
    pub words: WordMap,
}

pub struct IndexView {
    pub documents: Seq<Seq<char>>,
    pub pages: Seq<PageView>,
    pub results: Seq<SearchResult>,
    pub words: Seq<(Seq<char>, Seq<Match>)>,
}

impl View for SearchIndex {
    type V = IndexView;

    open spec fn view(&self) -> IndexView {
        IndexView {
            documents: self.documents@.map_values(|d: String| d@),
            pages: self.pages@.map_values(|p: Page| p@),
            results: self.results@,
            words: self.words@,
        }
    }
}

/// Every document, page and result index resolves in its list.
pub open spec fn refs_in_range(v: IndexView) -> bool {
    &&& forall|i: int| 0 <= i < v.pages.len() ==> (#[trigger] v.pages[i]).document_index < v.documents.len()
    &&& forall|i: int| 0 <= i < v.results.len() ==> (#[trigger] v.results[i]).page_index < v.pages.len()
    &&& forall|i: int, j: int|
        0 <= i < v.words.len() && 0 <= j < v.words[i].1.len() ==> (#[trigger] v.words[i].1[j]).result_index
            < v.results.len()
}

pub open spec fn shift_page(p: PageView, off: int) -> PageView {
    PageView { document_index: (p.document_index + off) as u16, ..p }
}

pub open spec fn shift_result(r: SearchResult, off: int) -> SearchResult {
    SearchResult { page_index: (r.page_index + off) as u32, ..r }
}

pub open spec fn shift_match(m: Match, off: int) -> Match {
    Match { result_index: (m.result_index + off) as u32, ..m }
}

pub open spec fn shift_matches(ms: Seq<Match>, off: int) -> Seq<Match> {
    ms.map_values(|m: Match| shift_match(m, off))
}

/// What merging `b` into `a` gives, word by word.
pub open spec fn merged_lookup(a: IndexView, b: IndexView, k: Seq<char>) -> Option<Seq<Match>> {
    if lookup(a.words, k) is None && lookup(b.words, k) is None {
        None
    } else {
        Some(lookup_or_empty(a.words, k) + shift_matches(lookup_or_empty(b.words, k), a.results.len() as int))
    }
}

/// Whether the merged index still fits the widths of its indices.
pub open spec fn merge_fits(a: IndexView, b: IndexView) -> bool {
    &&& a.documents.len() + b.documents.len() <= u16::MAX as int + 1
    &&& a.pages.len() + b.pages.len() <= u32::MAX as int + 1
    &&& a.results.len() + b.results.len() <= u32::MAX as int + 1
}

impl SearchIndex {
    pub open spec fn wf(&self) -> bool {
        self.words.wf()
    }

    /// An empty index.
    pub fn new() -> (r: SearchIndex)
        ensures
            r.wf(),
            r@.documents.len() == 0,
            r@.pages.len() == 0,
            r@.results.len() == 0,
            r@.words.len() == 0,
    {
        SearchIndex { documents: Vec::new(), pages: Vec::new(), results: Vec::new(), words: WordMap::new() }
    }

    /// Appends a partial index, rebasing its document, page and result
    /// indices onto the lists of `self`.
    pub fn merge(&mut self, partial: &SearchIndex)
        requires
            old(self).wf(),
            partial.wf(),
            refs_in_range(partial@),
            merge_fits(old(self)@, partial@),
        ensures
            final(self).wf(),
            final(self)@.documents == old(self)@.documents + partial@.documents,
            final(self)@.pages == old(self)@.pages + partial@.pages.map_values(
                |p: PageView| shift_page(p, old(self)@.documents.len() as int),
            ),
            final(self)@.results == old(self)@.results + partial@.results.map_values(
                |r: SearchResult| shift_result(r, old(self)@.pages.len() as int),
            ),
            forall|k: Seq<char>| #[trigger] lookup(final(self)@.words, k) == merged_lookup(old(self)@, partial@, k),
            is_merge(old(self)@, partial@, final(self)@),
            refs_in_range(old(self)@) ==> refs_in_range(final(self)@),
    {
        let ghost a = self@;
        let doc_off = self.documents.len();
        let page_off = self.pages.len();
        let res_off = self.results.len();
        let mut i: usize = 0;
        while i < partial.documents.len()
            invariant
                i <= partial.documents@.len(),
                self@.documents =~= a.documents + partial@.documents.subrange(0, i as int),
                self.pages@ == old(self).pages@,
                self.results@ == old(self).results@,
                self.words == old(self).words,
            decreases partial.documents@.len() - i,
        {
            let ghost prev = self.documents@;
            let c = partial.documents[i].clone();
            self.documents.push(c);
            assert(self.documents@ == prev.push(c));
            assert(self@.documents =~= prev.map_values(|d: String| d@).push(c@));
            assert(partial@.documents.subrange(0, i + 1) =~= partial@.documents.subrange(0, i as int).push(c@));
            i = i + 1;
        }
        assert(self@.documents =~= a.documents + partial@.documents);
        let ghost pshift = partial@.pages.map_values(|p: PageView| shift_page(p, doc_off as int));
        i = 0;
        while i < partial.pages.len()
            invariant
                i <= partial.pages@.len(),
                doc_off == a.documents.len(),
                merge_fits(a, partial@),
                refs_in_range(partial@),
                pshift == partial@.pages.map_values(|p: PageView| shift_page(p, doc_off as int)),
                self@.pages =~= a.pages + pshift.subrange(0, i as int),
                self@.documents == a.documents + partial@.documents,
                self.results@ == old(self).results@,
                self.words == old(self).words,
            decreases partial.pages@.len() - i,
        {
            let p = &partial.pages[i];
            assert(partial@.pages[i as int] == p@);
            assert(p.document_index < partial@.documents.len());
            let np = Page {
                document_index: p.document_index + doc_off as u16,
                page_nr: p.page_nr,
                rendered_avif: p.rendered_avif.clone(),
                rendered_jpeg: p.rendered_jpeg.clone(),
                width: p.width,
                height: p.height,
            };
            let ghost prev = self.pages@;
            self.pages.push(np);
            assert(self.pages@ == prev.push(np));
            assert(np@ == shift_page(p@, doc_off as int));
            assert(self@.pages =~= prev.map_values(|p: Page| p@).push(np@));
            assert(pshift.subrange(0, i + 1) =~= pshift.subrange(0, i as int).push(np@));
            i = i + 1;
        }
        assert(self@.pages =~= a.pages + pshift);
        let ghost rshift = partial@.results.map_values(|r: SearchResult| shift_result(r, page_off as int));
        i = 0;
        while i < partial.results.len()
            invariant
                i <= partial.results@.len(),
                page_off == a.pages.len(),
                merge_fits(a, partial@),
                refs_in_range(partial@),
                rshift == partial@.results.map_values(|r: SearchResult| shift_result(r, page_off as int)),
                self@.results =~= a.results + rshift.subrange(0, i as int),
                self@.documents == a.documents + partial@.documents,
                self@.pages == a.pages + pshift,
                self.words == old(self).words,
            decreases partial.results@.len() - i,
        {
            let r = partial.results[i];
            assert(partial@.results[i as int] == r);
            assert(r.page_index < partial@.pages.len());
            self.results.push(SearchResult { page_index: r.page_index + page_off as u32, ..r });
            i = i + 1;
        }
        assert(self@.results =~= a.results + rshift);
        i = 0;
        while i < partial.words.entries.len()
            invariant
                i <= partial.words@.len(),
                res_off == a.results.len(),
                partial.wf(),
                self.wf(),
                merge_fits(a, partial@),
                refs_in_range(partial@),
                self@.documents == a.documents + partial@.documents,
                self@.pages == a.pages + pshift,
                self@.results == a.results + rshift,
                forall|k: Seq<char>| #[trigger] lookup(self@.words, k) == merged_lookup(
                    a,
                    IndexView { words: partial@.words.subrange(0, i as int), ..partial@ },
                    k,
                ),
            decreases partial.words@.len() - i,
        {
            let e = &partial.words.entries[i];
            let ghost ws = partial@.words;
            assert(ws[i as int] == e@);
            let mut shifted: Vec<Match> = Vec::new();
            let mut j: usize = 0;
            while j < e.matches.len()
                invariant
                    j <= e.matches@.len(),
                    res_off == a.results.len(),
                    merge_fits(a, partial@),
                    refs_in_range(partial@),
                    ws == partial@.words,
                    i < ws.len(),
                    ws[i as int] == e@,
                    shifted@ =~= shift_matches(e.matches@.subrange(0, j as int), res_off as int),
                decreases e.matches@.len() - j,
            {
                let m = e.matches[j];
                assert(ws[i as int].1[j as int] == m);
                assert(0 <= j < partial@.words[i as int].1.len());
                assert(partial@.words[i as int].1[j as int].result_index < partial@.results.len());
                shifted.push(Match { result_index: m.result_index + res_off as u32, ..m });
                j = j + 1;
            }
            assert(e.matches@.subrange(0, j as int) =~= e.matches@);
            let ghost before = self@.words;
            self.words.append(e.word.clone(), &shifted);
            proof {
                let pre = ws.subrange(0, i as int);
                let post = ws.subrange(0, i + 1);
                assert(post.drop_last() =~= pre);
                assert(post.last() == e@);
                assert forall|k: Seq<char>| #[trigger] lookup(self@.words, k) == merged_lookup(
                    a,
                    IndexView { words: post, ..partial@ },
                    k,
                ) by {
                    let pv = IndexView { words: pre, ..partial@ };
                    assert(lookup(before, k) == merged_lookup(a, pv, k));
                    if k != e.word@ {
                        assert(lookup(post, k) == lookup(pre, k));
                    } else {
                        assert(lookup(post, k) == Some(e.matches@));
                        let base = lookup_or_empty(a.words, k);
                        let old_b = lookup_or_empty(pre, k);
                        lemma_sorted_lookup(ws, i as int);
                        assert forall|t: int| 0 <= t < i implies ws[t].0 != k by {
                            lemma_sorted_distinct(ws, t, i as int);
                        }
                        lemma_lookup_absent(pre, k);
                        assert(lookup_or_empty(before, k) =~= base);
                        assert(shift_matches(Seq::<Match>::empty(), res_off as int) =~= Seq::<Match>::empty());
                        assert(base + Seq::<Match>::empty() =~= base);
                    }
                }
            }
            i = i + 1;
        }
        proof {
            assert(partial@.words.subrange(0, i as int) =~= partial@.words);
            let pv = IndexView { words: partial@.words.subrange(0, i as int), ..partial@ };
            assert(pv == partial@);
            if refs_in_range(a) {
                lemma_merge_in_range(a, partial@, self@);
            }
        }
    }
}

impl SearchIndex {
    /// Whether every document, page and result index resolves in its list.
    pub fn refs_valid(&self) -> (r: bool)
        ensures
            r == refs_in_range(self@),
    {
        let v = Ghost(self@);
        let mut i: usize = 0;
        while i < self.pages.len()
            invariant
                v@ == self@,
                i <= self@.pages.len(),
                forall|a: int| 0 <= a < i ==> (#[trigger] self@.pages[a]).document_index < self@.documents.len(),
            decreases self@.pages.len() - i,
        {
            assert(self@.pages[i as int] == self.pages@[i as int]@);
            if self.pages[i].document_index as usize >= self.documents.len() {
                return false;
            }
            i = i + 1;
        }
        i = 0;
        while i < self.results.len()
            invariant
                i <= self@.results.len(),
                forall|a: int| 0 <= a < i ==> (#[trigger] self@.results[a]).page_index < self@.pages.len(),
            decreases self@.results.len() - i,
        {
            if self.results[i].page_index as usize >= self.pages.len() {
                return false;
            }
            i = i + 1;
        }
        i = 0;
        while i < self.words.entries.len()
            invariant
                i <= self@.words.len(),
                forall|a: int, j: int|
                    0 <= a < i && 0 <= j < self@.words[a].1.len() ==> (#[trigger] self@.words[a].1[j]).result_index
                        < self@.results.len(),
            decreases self@.words.len() - i,
        {
            let e = &self.words.entries[i];
            assert(self@.words[i as int] == e@);
            let mut j: usize = 0;
            while j < e.matches.len()
                invariant
                    i < self@.words.len(),
                    self@.words[i as int] == e@,
                    j <= e.matches@.len(),
                    forall|b: int| 0 <= b < j ==> (#[trigger] e.matches@[b]).result_index < self@.results.len(),
                decreases e.matches@.len() - j,
            {
                if e.matches[j].result_index as usize >= self.results.len() {
                    assert(self@.words[i as int].1[j as int] == e.matches@[j as int]);
                    return false;
                }
                j = j + 1;
            }
            proof {
                assert forall|a: int, b: int|
                    0 <= a < i + 1 && 0 <= b < self@.words[a].1.len() implies (#[trigger] self@.words[a].1[b]).result_index
                        < self@.results.len() by {
                    if a == i {
                        assert(self@.words[a].1[b] == e.matches@[b]);
                    }
                }
            }
            i = i + 1;
        }
        true
    }
}

/// What `lookup` finds is an entry of the list.
pub proof fn lemma_lookup_in(ws: Seq<(Seq<char>, Seq<Match>)>, k: Seq<char>)
    requires
        lookup(ws, k) is Some,
    ensures
        exists|x: int| 0 <= x < ws.len() && ws[x] == (k, lookup(ws, k)->Some_0),
    decreases ws.len(),
{
    if ws.last().0 == k {
        assert(ws[ws.len() - 1] == (k, lookup(ws, k)->Some_0));
    } else {
        lemma_lookup_in(ws.drop_last(), k);
        let x = choose|x: int| 0 <= x < ws.drop_last().len() && ws.drop_last()[x] == (k, lookup(ws, k)->Some_0);
        assert(ws[x] == ws.drop_last()[x]);
    }
}

/// `z` is what merging `y` into `x` gives.
pub open spec fn is_merge(x: IndexView, y: IndexView, z: IndexView) -> bool {
    &&& z.documents == x.documents + y.documents
    &&& z.pages == x.pages + y.pages.map_values(|p: PageView| shift_page(p, x.documents.len() as int))
    &&& z.results == x.results + y.results.map_values(|r: SearchResult| shift_result(r, x.pages.len() as int))
    &&& forall|k: Seq<char>| #[trigger] lookup(z.words, k) == merged_lookup(x, y, k)
}

pub proof fn lemma_merge_in_range(x: IndexView, y: IndexView, z: IndexView)
    requires
        refs_in_range(x),
        refs_in_range(y),
        merge_fits(x, y),
        is_merge(x, y, z),
        keys_sorted(z.words),
    ensures
        refs_in_range(z),
{
    assert forall|i: int| 0 <= i < z.pages.len() implies (#[trigger] z.pages[i]).document_index < z.documents.len() by {
        if i >= x.pages.len() {
            assert(y.pages[i - x.pages.len()].document_index < y.documents.len());
        }
    }
    assert forall|i: int| 0 <= i < z.results.len() implies (#[trigger] z.results[i]).page_index < z.pages.len() by {
        if i >= x.results.len() {
            assert(y.results[i - x.results.len()].page_index < y.pages.len());
        }
    }
    assert forall|t: int, j: int|
        0 <= t < z.words.len() && 0 <= j < z.words[t].1.len() implies (#[trigger] z.words[t].1[j]).result_index
            < z.results.len() by {
        let k = z.words[t].0;
        lemma_sorted_lookup(z.words, t);
        let la = lookup_or_empty(x.words, k);
        let lb = lookup_or_empty(y.words, k);
        if j < la.len() {
            if lookup(x.words, k) is Some {
                lemma_lookup_in(x.words, k);
                let w = choose|w: int| 0 <= w < x.words.len() && x.words[w] == (k, la);
                assert(x.words[w].1[j] == la[j]);
            }
        } else {
            if lookup(y.words, k) is Some {
                lemma_lookup_in(y.words, k);
                let w = choose|w: int| 0 <= w < y.words.len() && y.words[w] == (k, lb);
                assert(y.words[w].1[j - la.len()] == lb[j - la.len()]);
            }
        }
    }
}

/// A match as its content: the document's name, the page number and the
/// rectangle of its result, and its score.
pub struct Hit {
    pub document: Seq<char>,
    pub page_nr: u16,
    pub x: i16,
    pub y: i16,
    pub width: u16,
    pub height: u16,
    pub score_bits: u32,
}

pub open spec fn resolve(v: IndexView, m: Match) -> Hit {
    let r = v.results[m.result_index as int];
    let p = v.pages[r.page_index as int];
    Hit {
        document: v.documents[p.document_index as int],
        page_nr: p.page_nr,
        x: r.x,
        y: r.y,
        width: r.width,
        height: r.height,
        score_bits: m.score_bits,
    }
}

/// The content of the matches of word `k`.
pub open spec fn hits(v: IndexView, k: Seq<char>) -> Seq<Hit> {
    lookup_or_empty(v.words, k).map_values(|m: Match| resolve(v, m))
}

proof fn lemma_matches_in_range(v: IndexView, k: Seq<char>)
    requires
        refs_in_range(v),
    ensures
        forall|j: int| 0 <= j < lookup_or_empty(v.words, k).len() ==> (#[trigger] lookup_or_empty(v.words, k)[j]).result_index
            < v.results.len(),
{
    if lookup(v.words, k) is Some {
        lemma_lookup_in(v.words, k);
        let l = lookup_or_empty(v.words, k);
        let w = choose|w: int| 0 <= w < v.words.len() && v.words[w] == (k, l);
        assert forall|j: int| 0 <= j < l.len() implies (#[trigger] l[j]).result_index < v.results.len() by {
            assert(v.words[w].1[j] == l[j]);
        }
    }
}

/// The hits of a word in a merged index are those of the index merged
/// into, then those of the part merged in.
pub proof fn lemma_merge_hits(x: IndexView, y: IndexView, z: IndexView, k: Seq<char>)
    requires
        refs_in_range(x),
        refs_in_range(y),
        merge_fits(x, y),
        is_merge(x, y, z),
    ensures
        hits(z, k) == hits(x, k) + hits(y, k),
{
    let la = lookup_or_empty(x.words, k);
    let lb = lookup_or_empty(y.words, k);
    lemma_matches_in_range(x, k);
    lemma_matches_in_range(y, k);
    assert(lookup(z.words, k) == merged_lookup(x, y, k));
    let lz = lookup_or_empty(z.words, k);
    if lookup(x.words, k) is None && lookup(y.words, k) is None {
        assert(hits(z, k) =~= hits(x, k) + hits(y, k));
    } else {
        assert(lz == la + shift_matches(lb, x.results.len() as int));
        assert forall|j: int| 0 <= j < lz.len() implies #[trigger] resolve(z, lz[j]) == (hits(x, k) + hits(y, k))[j] by {
            if j < la.len() {
                let m = la[j];
                assert(m.result_index < x.results.len());
                let r = x.results[m.result_index as int];
                assert(z.results[m.result_index as int] == r);
                assert(r.page_index < x.pages.len());
                assert(z.pages[r.page_index as int] == x.pages[r.page_index as int]);
                assert(x.pages[r.page_index as int].document_index < x.documents.len());
            } else {
                let m = lb[j - la.len()];
                assert(m.result_index < y.results.len());
                let ri = m.result_index + x.results.len();
                assert(lz[j] == shift_match(m, x.results.len() as int));
                let r = y.results[m.result_index as int];
                assert(z.results[ri] == shift_result(r, x.pages.len() as int));
                assert(r.page_index < y.pages.len());
                let pi = r.page_index + x.pages.len();
                assert(z.pages[pi] == shift_page(y.pages[r.page_index as int], x.documents.len() as int));
                let p = y.pages[r.page_index as int];
                assert(p.document_index < y.documents.len());
                assert(z.documents[p.document_index + x.documents.len()] == y.documents[p.document_index as int]);
            }
        }
        assert(hits(z, k) =~= hits(x, k) + hits(y, k));
    }
}

/// Merging is independent of the order in which partial indices complete:
/// merging `a` then `b` into `g`, or `b` then `a`, leaves every index in
/// range and gives the same documents and, for every word, the same
/// matches by content.
pub proof fn lemma_merge_order_independent(
    g: IndexView,
    a: IndexView,
    b: IndexView,
    ga: IndexView,
    gab: IndexView,
    gb: IndexView,
    gba: IndexView,
    k: Seq<char>,
)
    requires
        refs_in_range(g),
        refs_in_range(a),
        refs_in_range(b),
        merge_fits(g, a),
        merge_fits(ga, b),
        merge_fits(g, b),
        merge_fits(gb, a),
        is_merge(g, a, ga),
        is_merge(ga, b, gab),
        is_merge(g, b, gb),
        is_merge(gb, a, gba),
        keys_sorted(ga.words),
        keys_sorted(gab.words),
        keys_sorted(gb.words),
        keys_sorted(gba.words),
    ensures
        refs_in_range(gab),
        refs_in_range(gba),
        gab.documents.to_multiset() == gba.documents.to_multiset(),
        hits(gab, k).to_multiset() == hits(gba, k).to_multiset(),
{
    broadcast use vstd::seq_lib::lemma_multiset_commutative;

    lemma_merge_in_range(g, a, ga);
    lemma_merge_in_range(ga, b, gab);
    lemma_merge_in_range(g, b, gb);
    lemma_merge_in_range(gb, a, gba);
    lemma_merge_hits(g, a, ga, k);
    lemma_merge_hits(ga, b, gab, k);
    lemma_merge_hits(g, b, gb, k);
    lemma_merge_hits(gb, a, gba, k);
    let hg = hits(g, k);
    let ha = hits(a, k);
    let hb = hits(b, k);
    assert(hits(gab, k) == hg + ha + hb);
    assert(hits(gba, k) == hg + hb + ha);
    assert((hg + ha + hb).to_multiset() =~= hg.to_multiset().add(ha.to_multiset()).add(hb.to_multiset()));
    assert((hg + hb + ha).to_multiset() =~= hg.to_multiset().add(hb.to_multiset()).add(ha.to_multiset()));
    assert(gab.documents == g.documents + a.documents + b.documents);
    assert(gba.documents == g.documents + b.documents + a.documents);
    assert((g.documents + a.documents + b.documents).to_multiset() =~= g.documents.to_multiset().add(
        a.documents.to_multiset(),
    ).add(b.documents.to_multiset()));
    assert((g.documents + b.documents + a.documents).to_multiset() =~= g.documents.to_multiset().add(
        b.documents.to_multiset(),
    ).add(a.documents.to_multiset()));
}

} // verus!
