//! The query engine: prefix expansion of the query's tokens over the word
//! map, hotspot scoring of each page hit, and the ranked pages.

use vstd::prelude::*;
use crate::index::{SearchIndex, IndexView, Page, SearchResult, Match, refs_in_range, word_key};
use crate::order::{lex_lt, lemma_lex_total, lemma_lex_asymmetric, lemma_lex_irreflexive, lemma_lex_prefix};
use crate::hotspot::{PageHotspotImage, decode_score, max_total, SCORE_CAP, score_fixed, apply_all, blank_tiles};
use crate::normalize::{normalize_and_extract_words, normalized, same_text};

verus! {

/// A rectangle containing words from the query.
#[derive(Clone, Copy, Debug, PartialEq, Eq, Structural)]
pub struct Highlight {
    pub x: i16,
    pub y: i16,
    pub width: u16,
    pub height: u16,
}

/// A page that matches the query.
pub struct MatchPage {
    pub document_digest: String,
    pub number: u16,
    pub rendered_avif: String,
    pub rendered_jpeg: String,
    pub width: u16,
    pub height: u16,
    pub highlights: Vec<Highlight>,
}

/// The most results a search returns.
pub const MAX_PAGES: usize = 5;

/// The most highlights a page of the results carries.
pub const MAX_HIGHLIGHTS: usize = 50;

/// The most distinct query words that are scored.
pub const MAX_QUERY_WORDS: usize = 65536;

/// What the query found on one page.
pub struct PageHits {
    pub page_index: u32,
    /// Distinct results of the page, in the order first met.
    pub highlights: Vec<u32>,
    pub image: PageHotspotImage,
}

/// `a` is a prefix of `b`.
pub open spec fn is_prefix(a: Seq<u8>, b: Seq<u8>) -> bool {
    a.len() <= b.len() && b.subrange(0, a.len() as int) == a
}

/// A byte string between a prefix of `b` and `b` itself also starts with that prefix.
proof fn lemma_prefix_between(q: Seq<u8>, a: Seq<u8>, b: Seq<u8>)
    requires
        q == a || lex_lt(q, a),
        lex_lt(a, b),
        is_prefix(q, b),
    ensures
        is_prefix(q, a),
    decreases q.len(),
{
    if q.len() == 0 {
        assert(a.subrange(0, 0) =~= q);
    } else if q == a {
        assert(a.subrange(0, q.len() as int) =~= q);
    } else {
        assert(b[0] == b.subrange(0, q.len() as int)[0]);
        assert(a.len() > 0);
        assert(a[0] == q[0]);
        let q1 = q.drop_first();
        let a1 = a.drop_first();
        let b1 = b.drop_first();
        assert(b1.subrange(0, q1.len() as int) =~= q1) by {
            assert forall|i: int| 0 <= i < q1.len() implies b1.subrange(0, q1.len() as int)[i] == q1[i] by {
                assert(b.subrange(0, q.len() as int)[i + 1] == q[i + 1]);
            }
        }
        lemma_prefix_between(q1, a1, b1);
        assert(a.subrange(0, q.len() as int) =~= q) by {
            assert forall|i: int| 0 <= i < q.len() implies a.subrange(0, q.len() as int)[i] == q[i] by {
                if i > 0 {
                    assert(a1.subrange(0, q1.len() as int)[i - 1] == q1[i - 1]);
                }
            }
        }
    }
}

/// Some match of entry `j`, among its first `kk`, is on page `p`.
pub open spec fn entry_reaches(idx: IndexView, j: int, kk: int, p: int) -> bool {
    exists|k: int|
        0 <= k < kk && k < idx.words[j].1.len() && idx.results[(#[trigger] idx.words[j].1[k]).result_index as int].page_index
            == p
}

/// Some entry among the first `jj` whose word starts with `q` has a match on page `p`.
pub open spec fn word_reaches_upto(idx: IndexView, q: Seq<char>, jj: int, p: int) -> bool {
    exists|j: int|
        0 <= j < jj && j < idx.words.len() && is_prefix(word_key(q), word_key((#[trigger] idx.words[j]).0))
            && entry_reaches(idx, j, idx.words[j].1.len() as int, p)
}

/// A word of the index that starts with `q` has a match on page `p`.
pub open spec fn word_reaches(idx: IndexView, q: Seq<char>, p: int) -> bool {
    word_reaches_upto(idx, q, idx.words.len() as int, p)
}

pub open spec fn query_reaches_upto(idx: IndexView, qs: Seq<Seq<char>>, n: int, p: int) -> bool {
    exists|i: int| 0 <= i < n && i < qs.len() && word_reaches(idx, #[trigger] qs[i], p)
}

/// One of the query words `qs` reaches page `p` by prefix.
pub open spec fn query_reaches(idx: IndexView, qs: Seq<Seq<char>>, p: int) -> bool {
    query_reaches_upto(idx, qs, qs.len() as int, p)
}

pub open spec fn has_hit(hits: Seq<PageHits>, p: int) -> bool {
    exists|i: int| 0 <= i < hits.len() && (#[trigger] hits[i]).page_index == p
}

fn starts_with(b: &[u8], a: &[u8]) -> (r: bool)
    ensures
        r == is_prefix(a@, b@),
{
    if a.len() > b.len() {
        return false;
    }
    let mut i: usize = 0;
    while i < a.len()
        invariant
            a@.len() <= b@.len(),
            i <= a@.len(),
            b@.subrange(0, i as int) == a@.subrange(0, i as int),
        decreases a@.len() - i,
    {
        if a[i] != b[i] {
            assert(b@.subrange(0, a@.len() as int)[i as int] != a@[i as int]);
            return false;
        }
        assert(b@.subrange(0, i + 1) =~= a@.subrange(0, i + 1));
        i = i + 1;
    }
    assert(a@.subrange(0, i as int) =~= a@);
    true
}

/// Page hits are well formed for an index of `results` and `pages`, for
/// `n` query words.
pub open spec fn hits_wf(hits: Seq<PageHits>, idx: crate::index::IndexView, n: nat) -> bool {
    &&& forall|i: int| 0 <= i < hits.len() ==> (#[trigger] hits[i]).page_index < idx.pages.len()
    &&& forall|i: int, j: int| 0 <= i < j < hits.len() ==> #[trigger] hits[i].page_index != #[trigger] hits[j].page_index
    &&& forall|i: int| 0 <= i < hits.len() ==> {
        let h = #[trigger] hits[i];
        &&& h.image.wf()
        &&& h.image.word_count == n
        &&& h.highlights@.len() <= MAX_HIGHLIGHTS
        &&& forall|k: int| 0 <= k < h.highlights@.len() ==> {
            &&& (#[trigger] h.highlights@[k]) < idx.results.len()
            &&& idx.results[h.highlights@[k] as int].page_index == h.page_index
        }
        &&& forall|k: int, l: int| 0 <= k < l < h.highlights@.len() ==> #[trigger] h.highlights@[k] != #[trigger] h.highlights@[l]
    }
}

fn position_of_page(hits: &Vec<PageHits>, page_index: u32) -> (r: Option<usize>)
    ensures
        match r {
            Some(i) => i < hits@.len() && hits@[i as int].page_index == page_index,
            None => forall|i: int| 0 <= i < hits@.len() ==> (#[trigger] hits@[i]).page_index != page_index,
        },
{
    let mut i: usize = 0;
    while i < hits.len()
        invariant
            i <= hits@.len(),
            forall|j: int| 0 <= j < i ==> (#[trigger] hits@[j]).page_index != page_index,
        decreases hits@.len() - i,
    {
        if hits[i].page_index == page_index {
            return Some(i);
        }
        i = i + 1;
    }
    None
}

fn contains_u32(v: &Vec<u32>, x: u32) -> (r: bool)
    ensures
        r == v@.contains(x),
{
    let mut i: usize = 0;
    while i < v.len()
        invariant
            i <= v@.len(),
            forall|j: int| 0 <= j < i ==> v@[j] != x,
        decreases v@.len() - i,
    {
        if v[i] == x {
            return true;
        }
        i = i + 1;
    }
    false
}

/// The distinct words of `ws`, in the order of their first occurrence.
pub open spec fn dedup(ws: Seq<Seq<char>>) -> Seq<Seq<char>>
    decreases ws.len(),
{
    if ws.len() == 0 {
        Seq::empty()
    } else {
        let d = dedup(ws.drop_last());
        if d.contains(ws.last()) {
            d
        } else {
            d.push(ws.last())
        }
    }
}

proof fn lemma_dedup(ws: Seq<Seq<char>>)
    ensures
        dedup(ws).len() <= ws.len(),
        ws.len() > 0 ==> dedup(ws).len() > 0,
        forall|i: int| 0 <= i < dedup(ws).len() ==> ws.contains(#[trigger] dedup(ws)[i]),
        forall|i: int| 0 <= i < ws.len() ==> dedup(ws).contains(#[trigger] ws[i]),
    decreases ws.len(),
{
    if ws.len() > 0 {
        let init = ws.drop_last();
        lemma_dedup(init);
        let d = dedup(init);
        assert forall|i: int| 0 <= i < dedup(ws).len() implies ws.contains(#[trigger] dedup(ws)[i]) by {
            if i < d.len() {
                assert(init.contains(d[i]));
                let t = choose|t: int| 0 <= t < init.len() && init[t] == d[i];
                assert(ws[t] == init[t]);
            } else {
                assert(ws[ws.len() - 1] == ws.last());
            }
        }
        assert forall|i: int| 0 <= i < ws.len() implies dedup(ws).contains(#[trigger] ws[i]) by {
            if i < init.len() {
                assert(ws[i] == init[i]);
                assert(d.contains(init[i]));
                let t = choose|t: int| 0 <= t < d.len() && d[t] == init[i];
                assert(dedup(ws)[t] == d[t]);
            } else if d.contains(ws.last()) {
            } else {
                assert(dedup(ws)[d.len() as int] == ws.last());
            }
        }
        if d.len() > 0 {
            assert(dedup(ws).len() > 0);
        }
    }
}

/// The distinct words of `words`, first occurrences first.
pub fn distinct_words(words: &Vec<String>) -> (r: Vec<String>)
    ensures
        r@.map_values(|w: String| w@) == dedup(words@.map_values(|w: String| w@)),
{
    let ghost wv = words@.map_values(|w: String| w@);
    let mut out: Vec<String> = Vec::new();
    let mut i: usize = 0;
    while i < words.len()
        invariant
            i <= words@.len(),
            wv == words@.map_values(|w: String| w@),
            out@.map_values(|w: String| w@) == dedup(wv.subrange(0, i as int)),
        decreases words@.len() - i,
    {
        let w = &words[i];
        let ghost ov = out@.map_values(|w: String| w@);
        assert(wv.subrange(0, i + 1).drop_last() =~= wv.subrange(0, i as int));
        assert(wv.subrange(0, i + 1).last() == w@);
        let mut seen = false;
        let mut k: usize = 0;
        while k < out.len()
            invariant
                k <= out@.len(),
                ov == out@.map_values(|w: String| w@),
                seen ==> ov.contains(w@),
                !seen ==> forall|a: int| 0 <= a < k ==> ov[a] != w@,
            decreases out@.len() - k,
        {
            if same_text(out[k].as_str(), w.as_str()) {
                assert(ov[k as int] == w@);
                seen = true;
            }
            k = k + 1;
        }
        if !seen {
            out.push(w.clone());
            assert(out@.map_values(|w: String| w@) =~= ov.push(w@));
        }
        i = i + 1;
    }
    assert(wv.subrange(0, i as int) =~= wv);
    out
}

/// The words a query is scored by: the distinct tokens among its first
/// `MAX_QUERY_WORDS`.
pub open spec fn query_words(query: Seq<char>) -> Seq<Seq<char>> {
    let ws = normalized(query);
    dedup(if ws.len() > MAX_QUERY_WORDS { ws.subrange(0, MAX_QUERY_WORDS as int) } else { ws })
}

/// The score a match under the word `d` gives the query word `q`: its own,
/// scaled by the share of `d` that `q` covers.
pub open spec fn scaled_score(bits: u32, q: Seq<char>, d: Seq<char>) -> nat {
    let ql = word_key(q).len();
    let dl = word_key(d).len();
    if dl == 0 {
        score_fixed(bits)
    } else {
        score_fixed(bits) * ql / dl
    }
}

/// What match `m` of the word `d` does to its page's tiles for query word `qi`.
pub open spec fn match_update(idx: IndexView, qi: int, q: Seq<char>, d: Seq<char>, m: Match) -> (int, int, nat) {
    let r = idx.results[m.result_index as int];
    (2 * r.y + r.height, qi, scaled_score(m.score_bits, q, d))
}

/// The updates that the first `kk` matches of entry `j` make to page `p`.
pub open spec fn entry_updates(idx: IndexView, qi: int, q: Seq<char>, j: int, kk: int, p: int) -> Seq<(int, int, nat)>
    decreases kk,
{
    if kk <= 0 {
        Seq::empty()
    } else {
        let prev = entry_updates(idx, qi, q, j, kk - 1, p);
        let m = idx.words[j].1[kk - 1];
        if idx.results[m.result_index as int].page_index == p {
            prev.push(match_update(idx, qi, q, idx.words[j].0, m))
        } else {
            prev
        }
    }
}

/// The updates that the first `jj` entries whose word starts with `q` make to page `p`.
pub open spec fn word_updates(idx: IndexView, qi: int, q: Seq<char>, jj: int, p: int) -> Seq<(int, int, nat)>
    decreases jj,
{
    if jj <= 0 {
        Seq::empty()
    } else {
        let prev = word_updates(idx, qi, q, jj - 1, p);
        if jj - 1 < idx.words.len() && is_prefix(word_key(q), word_key(idx.words[jj - 1].0)) {
            prev + entry_updates(idx, qi, q, jj - 1, idx.words[jj - 1].1.len() as int, p)
        } else {
            prev
        }
    }
}

/// The updates that the first `n` query words make to page `p`.
pub open spec fn query_updates(idx: IndexView, qs: Seq<Seq<char>>, n: int, p: int) -> Seq<(int, int, nat)>
    decreases n,
{
    if n <= 0 {
        Seq::empty()
    } else {
        query_updates(idx, qs, n - 1, p) + word_updates(idx, n - 1, qs[n - 1], idx.words.len() as int, p)
    }
}

/// The relevance of page `p` for the query words `qs`: its best tile once
/// every match of a word that a query word starts has been recorded.
pub open spec fn relevance(idx: IndexView, qs: Seq<Seq<char>>, p: int) -> nat {
    max_total(
        apply_all(blank_tiles(idx.pages[p].height as nat, qs.len()), query_updates(idx, qs, qs.len() as int, p)),
    )
}

/// Page `a` ranks above page `b`: more relevant, or as relevant and earlier.
pub open spec fn ranks_above(idx: IndexView, qs: Seq<Seq<char>>, a: int, b: int) -> bool {
    relevance(idx, qs, a) > relevance(idx, qs, b) || (relevance(idx, qs, a) == relevance(idx, qs, b) && a < b)
}

/// `ps` are the best pages for the query words `qs`, best first: at most
/// `MAX_PAGES`, all reached, in ranking order, and no reached page left out
/// unless `MAX_PAGES` ones rank above it.
pub open spec fn ranked_correctly(idx: IndexView, qs: Seq<Seq<char>>, ps: Seq<int>) -> bool {
    &&& ps.len() <= MAX_PAGES
    &&& forall|i: int| 0 <= i < ps.len() ==> query_reaches(idx, qs, #[trigger] ps[i])
    &&& forall|i: int, j: int| 0 <= i < j < ps.len() ==> ranks_above(idx, qs, #[trigger] ps[i], #[trigger] ps[j])
    &&& forall|p: int|
        query_reaches(idx, qs, p) && !ps.contains(p) ==> ps.len() == MAX_PAGES && ranks_above(
            idx,
            qs,
            ps[ps.len() - 1],
            p,
        )
}

/// The results that the first `kk` matches of entry `j` meet on page `p`, in order.
pub open spec fn entry_results(idx: IndexView, j: int, kk: int, p: int) -> Seq<u32>
    decreases kk,
{
    if kk <= 0 {
        Seq::empty()
    } else {
        let prev = entry_results(idx, j, kk - 1, p);
        let m = idx.words[j].1[kk - 1];
        if idx.results[m.result_index as int].page_index == p {
            prev.push(m.result_index)
        } else {
            prev
        }
    }
}

/// The results that the first `jj` entries whose word starts with `q` meet on page `p`.
pub open spec fn word_results(idx: IndexView, q: Seq<char>, jj: int, p: int) -> Seq<u32>
    decreases jj,
{
    if jj <= 0 {
        Seq::empty()
    } else {
        let prev = word_results(idx, q, jj - 1, p);
        if jj - 1 < idx.words.len() && is_prefix(word_key(q), word_key(idx.words[jj - 1].0)) {
            prev + entry_results(idx, jj - 1, idx.words[jj - 1].1.len() as int, p)
        } else {
            prev
        }
    }
}

/// The results that the first `n` query words meet on page `p`, in the order met.
pub open spec fn query_results(idx: IndexView, qs: Seq<Seq<char>>, n: int, p: int) -> Seq<u32>
    decreases n,
{
    if n <= 0 {
        Seq::empty()
    } else {
        query_results(idx, qs, n - 1, p) + word_results(idx, qs[n - 1], idx.words.len() as int, p)
    }
}

/// The first `MAX_HIGHLIGHTS` distinct values of `s`, in order.
pub open spec fn first_distinct(s: Seq<u32>) -> Seq<u32>
    decreases s.len(),
{
    if s.len() == 0 {
        Seq::empty()
    } else {
        let d = first_distinct(s.drop_last());
        if d.len() < MAX_HIGHLIGHTS && !d.contains(s.last()) {
            d.push(s.last())
        } else {
            d
        }
    }
}

proof fn lemma_word_results_skip(idx: IndexView, q: Seq<char>, lo: int, hi: int, p: int)
    requires
        0 <= lo <= hi,
        forall|jj: int| lo <= jj < hi && jj < idx.words.len() ==> !is_prefix(word_key(q), word_key(#[trigger] idx.words[jj].0)),
    ensures
        word_results(idx, q, hi, p) == word_results(idx, q, lo, p),
    decreases hi - lo,
{
    if hi > lo {
        lemma_word_results_skip(idx, q, lo, hi - 1, p);
    }
}

proof fn lemma_word_updates_skip(idx: IndexView, qi: int, q: Seq<char>, lo: int, hi: int, p: int)
    requires
        0 <= lo <= hi,
        forall|jj: int| lo <= jj < hi && jj < idx.words.len() ==> !is_prefix(word_key(q), word_key(#[trigger] idx.words[jj].0)),
    ensures
        word_updates(idx, qi, q, hi, p) == word_updates(idx, qi, q, lo, p),
    decreases hi - lo,
{
    if hi > lo {
        lemma_word_updates_skip(idx, qi, q, lo, hi - 1, p);
    }
}

/// The tiles of page `p` after the updates `us`.
pub open spec fn page_tiles(idx: IndexView, n: nat, p: int, us: Seq<(int, int, nat)>) -> Seq<Seq<u64>> {
    apply_all(blank_tiles(idx.pages[p].height as nat, n), us)
}

/// Gathers, for every page that a query word reaches by prefix, its
/// distinct results (at most `MAX_HIGHLIGHTS`) and its hotspot image.
pub fn collect_hits(index: &SearchIndex, qwords: &Vec<String>) -> (r: Vec<PageHits>)
    requires
        index.wf(),
        refs_in_range(index@),
        qwords@.len() <= MAX_QUERY_WORDS,
    ensures
        hits_wf(r@, index@, qwords@.len()),
        forall|p: int| has_hit(r@, p) <==> query_reaches(index@, qwords@.map_values(|w: String| w@), p),
        forall|i: int|
            0 <= i < r@.len() ==> (#[trigger] r@[i]).image@ == page_tiles(
                index@,
                qwords@.len() as nat,
                r@[i].page_index as int,
                query_updates(index@, qwords@.map_values(|w: String| w@), qwords@.len() as int, r@[i].page_index as int),
            ),
        forall|i: int|
            0 <= i < r@.len() ==> (#[trigger] r@[i]).highlights@ == first_distinct(
                query_results(index@, qwords@.map_values(|w: String| w@), qwords@.len() as int, r@[i].page_index as int),
            ),
{
    let ghost qs = qwords@.map_values(|w: String| w@);
    let ghost idx = index@;
    let n = qwords.len();
    let mut hits: Vec<PageHits> = Vec::new();
    let mut qi: usize = 0;
    while qi < n
        invariant
            index.wf(),
            refs_in_range(index@),
            idx == index@,
            qs == qwords@.map_values(|w: String| w@),
            n == qwords@.len(),
            n <= MAX_QUERY_WORDS,
            qi <= n,
            hits_wf(hits@, index@, n as nat),
            forall|p: int| has_hit(hits@, p) <==> query_reaches_upto(idx, qs, qi as int, p),
            forall|i: int|
                0 <= i < hits@.len() ==> (#[trigger] hits@[i]).image@ == page_tiles(
                    idx,
                    n as nat,
                    hits@[i].page_index as int,
                    query_updates(idx, qs, qi as int, hits@[i].page_index as int),
                ),
            forall|p: int| !has_hit(hits@, p) ==> query_updates(idx, qs, qi as int, p).len() == 0,
            forall|i: int| 0 <= i < hits@.len() ==> (#[trigger] hits@[i]).highlights@ == first_distinct(query_results(idx, qs, qi as int, hits@[i].page_index as int)),
            forall|p: int| !has_hit(hits@, p) ==> (query_results(idx, qs, qi as int, p)).len() == 0,
        decreases n - qi,
    {
        let q = qwords[qi].as_str().as_bytes();
        let ghost qk = word_key(qs[qi as int]);
        assert(q@ == qk);
        let fr = index.words.find(q);
        let start: usize = match fr {
            Ok(i) => i,
            Err(p) => p,
        };
        let mut j: usize = start;
        proof {
            match fr {
                Ok(i) => {
                    lemma_lex_irreflexive(qk);
                    assert forall|a: int| 0 <= a < start implies lex_lt(word_key(#[trigger] idx.words[a].0), qk) by {
                        assert(lex_lt(word_key(idx.words[a].0), word_key(idx.words[i as int].0)));
                    }
                },
                Err(p) => {
                    if start < idx.words.len() {
                        assert(lex_lt(qk, word_key(idx.words[start as int].0)));
                        lemma_lex_asymmetric(qk, word_key(idx.words[start as int].0));
                    }
                },
            }
            assert forall|jj: int| 0 <= jj < start && jj < idx.words.len() implies !is_prefix(qk, word_key(#[trigger] idx.words[jj].0)) by {
                let kj = word_key(idx.words[jj].0);
                assert(lex_lt(kj, qk));
                if is_prefix(qk, kj) {
                    lemma_lex_prefix(qk, kj);
                    lemma_lex_asymmetric(kj, qk);
                    lemma_lex_irreflexive(qk);
                }
            }
            assert forall|p: int| word_updates(idx, qi as int, qs[qi as int], start as int, p).len() == 0 by {
                lemma_word_updates_skip(idx, qi as int, qs[qi as int], 0, start as int, p);
            }
            assert forall|p: int| query_updates(idx, qs, qi as int, p) + word_updates(idx, qi as int, qs[qi as int], start as int, p)
                =~= query_updates(idx, qs, qi as int, p) by {
                lemma_word_updates_skip(idx, qi as int, qs[qi as int], 0, start as int, p);
            }
            assert forall|p: int| query_results(idx, qs, qi as int, p) + word_results(idx, qs[qi as int], start as int, p)
                =~= query_results(idx, qs, qi as int, p) by {
                lemma_word_results_skip(idx, qs[qi as int], 0, start as int, p);
            }
            assert forall|p: int| !word_reaches_upto(idx, qs[qi as int], start as int, p) by {
                if word_reaches_upto(idx, qs[qi as int], start as int, p) {
                    let jj = choose|jj: int| 0 <= jj < start && jj < idx.words.len() && is_prefix(qk, word_key((#[trigger] idx.words[jj]).0))
                        && entry_reaches(idx, jj, idx.words[jj].1.len() as int, p);
                    let kj = word_key(idx.words[jj].0);
                    assert(lex_lt(kj, qk));
                    lemma_lex_prefix(qk, kj);
                    lemma_lex_asymmetric(kj, qk);
                    lemma_lex_irreflexive(qk);
                }
            }
        }
        while j < index.words.entries.len()
            invariant
                index.wf(),
                refs_in_range(index@),
                idx == index@,
                qs == qwords@.map_values(|w: String| w@),
                n == qwords@.len(),
                n <= MAX_QUERY_WORDS,
                qi < n,
                q@ == qk,
                qk == word_key(qs[qi as int]),
                start <= j <= index.words@.len(),
                start == index.words@.len() || !lex_lt(word_key(idx.words[start as int].0), qk),
                forall|i: int| 0 <= i < start ==> lex_lt(word_key(#[trigger] idx.words[i].0), qk),
                hits_wf(hits@, index@, n as nat),
                forall|p: int| has_hit(hits@, p) <==> (query_reaches_upto(idx, qs, qi as int, p)
                    || word_reaches_upto(idx, qs[qi as int], j as int, p)),
                forall|i: int|
                    0 <= i < hits@.len() ==> (#[trigger] hits@[i]).image@ == page_tiles(
                        idx,
                        n as nat,
                        hits@[i].page_index as int,
                        query_updates(idx, qs, qi as int, hits@[i].page_index as int) + word_updates(idx, qi as int, qs[qi as int], j as int, hits@[i].page_index as int),
                    ),
                forall|p: int| !has_hit(hits@, p) ==> (query_updates(idx, qs, qi as int, p) + word_updates(idx, qi as int, qs[qi as int], j as int, p)).len() == 0,
                forall|i: int| 0 <= i < hits@.len() ==> (#[trigger] hits@[i]).highlights@ == first_distinct(query_results(idx, qs, qi as int, hits@[i].page_index as int) + word_results(idx, qs[qi as int], j as int, hits@[i].page_index as int)),
                forall|p: int| !has_hit(hits@, p) ==> (query_results(idx, qs, qi as int, p) + word_results(idx, qs[qi as int], j as int, p)).len() == 0,
            ensures
                hits_wf(hits@, index@, n as nat),
                forall|p: int| has_hit(hits@, p) <==> (query_reaches_upto(idx, qs, qi as int, p)
                    || word_reaches_upto(idx, qs[qi as int], j as int, p)),
                forall|p: int| word_reaches_upto(idx, qs[qi as int], j as int, p) == word_reaches(idx, qs[qi as int], p),
                forall|i: int|
                    0 <= i < hits@.len() ==> (#[trigger] hits@[i]).image@ == page_tiles(
                        idx,
                        n as nat,
                        hits@[i].page_index as int,
                        query_updates(idx, qs, qi as int, hits@[i].page_index as int) + word_updates(idx, qi as int, qs[qi as int], j as int, hits@[i].page_index as int),
                    ),
                forall|p: int| !has_hit(hits@, p) ==> (query_updates(idx, qs, qi as int, p) + word_updates(idx, qi as int, qs[qi as int], j as int, p)).len() == 0,
                forall|i: int| 0 <= i < hits@.len() ==> (#[trigger] hits@[i]).highlights@ == first_distinct(query_results(idx, qs, qi as int, hits@[i].page_index as int) + word_results(idx, qs[qi as int], j as int, hits@[i].page_index as int)),
                forall|p: int| !has_hit(hits@, p) ==> (query_results(idx, qs, qi as int, p) + word_results(idx, qs[qi as int], j as int, p)).len() == 0,
                forall|p: int|
                    word_updates(idx, qi as int, qs[qi as int], j as int, p) == word_updates(
                        idx,
                        qi as int,
                        qs[qi as int],
                        idx.words.len() as int,
                        p,
                    ),
                forall|p: int| word_results(idx, qs[qi as int], j as int, p) == word_results(idx, qs[qi as int], idx.words.len() as int, p),
            decreases index.words@.len() - j,
        {
            let entry = &index.words.entries[j];
            let d = entry.word.as_str().as_bytes();
            assert(index@.words[j as int] == entry@);
            if !starts_with(d, q) {
                proof {
                    assert forall|jj: int| j <= jj < idx.words.len() implies !is_prefix(qk, word_key(#[trigger] idx.words[jj].0)) by {
                        if jj > j && is_prefix(qk, word_key(idx.words[jj].0)) {
                            let kj = word_key(idx.words[j as int].0);
                            let kjj = word_key(idx.words[jj].0);
                            assert(lex_lt(kj, kjj));
                            if j == start {
                                lemma_lex_total(kj, qk);
                            } else {
                                assert(lex_lt(word_key(idx.words[start as int].0), kj));
                                lemma_lex_total(word_key(idx.words[start as int].0), qk);
                                lemma_lex_total(kj, qk);
                                if lex_lt(kj, qk) {
                                    if word_key(idx.words[start as int].0) != qk {
                                        lemma_lex_asymmetric(word_key(idx.words[start as int].0), qk);
                                        crate::order::lemma_lex_transitive(qk, word_key(idx.words[start as int].0), kj);
                                        lemma_lex_asymmetric(kj, qk);
                                    } else {
                                        lemma_lex_asymmetric(kj, qk);
                                    }
                                }
                            }
                            lemma_lex_asymmetric(kj, qk);
                            lemma_prefix_between(qk, kj, kjj);
                        }
                    }
                    assert forall|p: int| word_reaches_upto(idx, qs[qi as int], j as int, p) == word_reaches(idx, qs[qi as int], p) by {
                        if word_reaches(idx, qs[qi as int], p) && !word_reaches_upto(idx, qs[qi as int], j as int, p) {
                            let jj = choose|jj: int| 0 <= jj < idx.words.len() && jj < idx.words.len() && is_prefix(qk, word_key((#[trigger] idx.words[jj]).0))
                                && entry_reaches(idx, jj, idx.words[jj].1.len() as int, p);
                            assert(jj >= j);
                        }
                    }
                    assert forall|p: int| word_updates(idx, qi as int, qs[qi as int], j as int, p) == word_updates(
                        idx,
                        qi as int,
                        qs[qi as int],
                        idx.words.len() as int,
                        p,
                    ) by {
                        lemma_word_updates_skip(idx, qi as int, qs[qi as int], j as int, idx.words.len() as int, p);
                    }
                    assert forall|p: int| word_results(idx, qs[qi as int], j as int, p) == word_results(
                        idx,
                        qs[qi as int],
                        idx.words.len() as int,
                        p,
                    ) by {
                        lemma_word_results_skip(idx, qs[qi as int], j as int, idx.words.len() as int, p);
                    }
                }
                break;
            }
            let ql = q.len() as u128;
            let dl = d.len() as u128;
            assert(ql <= 0xFFFF_FFFF_FFFF_FFFFu128);
            let mut k: usize = 0;
            while k < entry.matches.len()
                invariant
                    index.wf(),
                    refs_in_range(index@),
                    idx == index@,
                    qs == qwords@.map_values(|w: String| w@),
                    n == qwords@.len(),
                    n <= MAX_QUERY_WORDS,
                    qi < n,
                    j < index.words@.len(),
                    index@.words[j as int] == entry@,
                    is_prefix(qk, word_key(idx.words[j as int].0)),
                    ql <= dl,
                    ql <= 0xFFFF_FFFF_FFFF_FFFFu128,
                    k <= entry.matches@.len(),
                    hits_wf(hits@, index@, n as nat),
                    forall|p: int| has_hit(hits@, p) <==> (query_reaches_upto(idx, qs, qi as int, p)
                        || word_reaches_upto(idx, qs[qi as int], j as int, p) || entry_reaches(idx, j as int, k as int, p)),
                    forall|i: int|
                        0 <= i < hits@.len() ==> (#[trigger] hits@[i]).image@ == page_tiles(
                            idx,
                            n as nat,
                            hits@[i].page_index as int,
                            query_updates(idx, qs, qi as int, hits@[i].page_index as int) + word_updates(idx, qi as int, qs[qi as int], j as int, hits@[i].page_index as int) + entry_updates(idx, qi as int, qs[qi as int], j as int, k as int, hits@[i].page_index as int),
                        ),
                    forall|p: int| !has_hit(hits@, p) ==> (query_updates(idx, qs, qi as int, p) + word_updates(idx, qi as int, qs[qi as int], j as int, p) + entry_updates(idx, qi as int, qs[qi as int], j as int, k as int, p)).len() == 0,
                    forall|i: int| 0 <= i < hits@.len() ==> (#[trigger] hits@[i]).highlights@ == first_distinct(query_results(idx, qs, qi as int, hits@[i].page_index as int) + word_results(idx, qs[qi as int], j as int, hits@[i].page_index as int) + entry_results(idx, j as int, k as int, hits@[i].page_index as int)),
                    forall|p: int| !has_hit(hits@, p) ==> (query_results(idx, qs, qi as int, p) + word_results(idx, qs[qi as int], j as int, p) + entry_results(idx, j as int, k as int, p)).len() == 0,
                    dl == word_key(idx.words[j as int].0).len(),
                    ql == word_key(qs[qi as int]).len(),
                decreases entry.matches@.len() - k,
            {
                let m = entry.matches[k];
                assert(index@.words[j as int].1[k as int] == m);
                assert(m.result_index < index@.results.len());
                let result = index.results[m.result_index as usize];
                assert(result.page_index < index@.pages.len());
                let ghost p0 = result.page_index as int;
                let ghost hits0 = hits@;
                let page = &index.pages[result.page_index as usize];
                let pos = match position_of_page(&hits, result.page_index) {
                    Some(p) => p,
                    None => {
                        let ghost before = hits@;
                        let image = PageHotspotImage::new(page.height as u32, n);
                        hits.push(PageHits { page_index: result.page_index, highlights: Vec::new(), image });
                        proof {
                            assert forall|a: int, b: int| 0 <= a < b < hits@.len() implies #[trigger] hits@[a].page_index
                                != #[trigger] hits@[b].page_index by {
                                if b < before.len() {
                                    assert(hits@[a] == before[a] && hits@[b] == before[b]);
                                } else {
                                    assert(hits@[a] == before[a]);
                                }
                            }
                            assert forall|a: int| 0 <= a < hits@.len() implies (#[trigger] hits@[a]).page_index
                                < index@.pages.len() by {
                                if a < before.len() {
                                    assert(hits@[a] == before[a]);
                                }
                            }
                            assert forall|a: int| 0 <= a < before.len() implies #[trigger] hits@[a] == before[a] by {}
                        }
                        hits.len() - 1
                    },
                };
                proof {
                    assert(hits@[pos as int].page_index == p0);
                    assert(hits@.len() == hits0.len() || (hits@.len() == hits0.len() + 1 && pos == hits0.len()));
                    assert forall|a: int| 0 <= a < hits0.len() implies #[trigger] hits@[a] == hits0[a] by {}
                    if pos == hits0.len() {
                        assert(!has_hit(hits0, p0)) by {
                            if has_hit(hits0, p0) {
                                let a = choose|a: int| 0 <= a < hits0.len() && (#[trigger] hits0[a]).page_index == p0;
                                assert(hits@[a] == hits0[a]);
                            }
                        }
                        assert((query_updates(idx, qs, qi as int, p0) + word_updates(idx, qi as int, qs[qi as int], j as int, p0) + entry_updates(idx, qi as int, qs[qi as int], j as int, k as int, p0)).len() == 0);
                        assert(query_updates(idx, qs, qi as int, p0) + word_updates(idx, qi as int, qs[qi as int], j as int, p0) + entry_updates(idx, qi as int, qs[qi as int], j as int, k as int, p0) =~= Seq::<(int, int, nat)>::empty());
                        assert(idx.pages[p0].height == page.height);
                        assert((query_results(idx, qs, qi as int, p0) + word_results(idx, qs[qi as int], j as int, p0) + entry_results(idx, j as int, k as int, p0)).len() == 0);
                        assert(query_results(idx, qs, qi as int, p0) + word_results(idx, qs[qi as int], j as int, p0) + entry_results(idx, j as int, k as int, p0) =~= Seq::<u32>::empty());
                    }
                    assert(hits@[pos as int].highlights@ == first_distinct(query_results(idx, qs, qi as int, p0) + word_results(idx, qs[qi as int], j as int, p0) + entry_results(idx, j as int, k as int, p0)));
                    assert(hits@[pos as int].image@ == page_tiles(idx, n as nat, p0, query_updates(idx, qs, qi as int, p0) + word_updates(idx, qi as int, qs[qi as int], j as int, p0) + entry_updates(idx, qi as int, qs[qi as int], j as int, k as int, p0)));
                }
                let ghost before = hits@;
                let mut h = PageHits { page_index: 0, highlights: Vec::new(), image: PageHotspotImage { tiled_height: 0, word_count: 0, tiles: Vec::new() } };
                hits.set_and_swap(pos, &mut h);
                let ghost hl0 = h.highlights@;
                if h.highlights.len() < MAX_HIGHLIGHTS && !contains_u32(&h.highlights, m.result_index) {
                    let ghost hl = h.highlights@;
                    h.highlights.push(m.result_index);
                    proof {
                        assert forall|a: int, b: int| 0 <= a < b < h.highlights@.len() implies #[trigger] h.highlights@[a]
                            != #[trigger] h.highlights@[b] by {
                            if b < hl.len() {
                                assert(h.highlights@[a] == hl[a] && h.highlights@[b] == hl[b]);
                            } else {
                                assert(h.highlights@[a] == hl[a]);
                                assert(!hl.contains(m.result_index));
                            }
                        }
                    }
                }
                let y2: i64 = 2 * result.y as i64 + result.height as i64;
                let dv = decode_score(m.score_bits);
                assert(dv as u128 * ql <= 0x100_0000_0000u128 * 0xFFFF_FFFF_FFFF_FFFFu128) by (nonlinear_arith)
                    requires
                        dv <= SCORE_CAP,
                        ql <= 0xFFFF_FFFF_FFFF_FFFFu128,
                ;
                let prod: u128 = dv as u128 * ql;
                let s: u64 = if dl == 0 {
                    dv
                } else {
                    assert(prod / dl <= SCORE_CAP) by (nonlinear_arith)
                        requires
                            dv <= SCORE_CAP,
                            ql <= dl,
                            dl > 0,
                            prod == dv * ql,
                    {
                        assert(prod <= dv * dl);
                    }
                    (prod / dl) as u64
                };
                let ghost x = (y2 as int, qi as int, s as nat);
                proof {
                    assert(idx.results[m.result_index as int] == result);
                    assert(s as nat == scaled_score(m.score_bits, qs[qi as int], idx.words[j as int].0));
                    assert(x == match_update(idx, qi as int, qs[qi as int], idx.words[j as int].0, m));
                    assert(h.image@ == before[pos as int].image@);
                }
                let ghost img0 = h.image@;
                h.image.update_score(y2, qi, s);
                hits.set_and_swap(pos, &mut h);
                proof {
                    let r0 = query_results(idx, qs, qi as int, p0) + word_results(idx, qs[qi as int], j as int, p0) + entry_results(idx, j as int, k as int, p0);
                    assert(hl0 == first_distinct(r0));
                    assert(entry_results(idx, j as int, k + 1, p0) == entry_results(idx, j as int, k as int, p0).push(
                        m.result_index,
                    ));
                    assert(query_results(idx, qs, qi as int, p0) + word_results(idx, qs[qi as int], j as int, p0) + entry_results(idx, j as int, k + 1, p0) =~= r0.push(m.result_index));
                    assert(r0.push(m.result_index).drop_last() =~= r0);
                    assert(hits@[pos as int].highlights@ == first_distinct(query_results(idx, qs, qi as int, p0) + word_results(idx, qs[qi as int], j as int, p0) + entry_results(idx, j as int, k + 1, p0)));
                    assert forall|p: int| p != p0 implies entry_results(idx, j as int, k + 1, p) == entry_results(
                        idx,
                        j as int,
                        k as int,
                        p,
                    ) by {}
                    assert forall|a: int| 0 <= a < hits@.len() implies (#[trigger] hits@[a]).highlights@ == first_distinct(
                        query_results(idx, qs, qi as int, hits@[a].page_index as int) + word_results(idx, qs[qi as int], j as int, hits@[a].page_index as int) + entry_results(idx, j as int, k + 1, hits@[a].page_index as int),
                    ) by {
                        if a != pos {
                            assert(hits@[a] == before[a]);
                            assert(hits@[a].page_index != hits@[pos as int].page_index);
                            assert(a < hits0.len());
                            assert(hits0[a] == hits@[a]);
                        }
                    }
                    let u0 = query_updates(idx, qs, qi as int, p0) + word_updates(idx, qi as int, qs[qi as int], j as int, p0) + entry_updates(idx, qi as int, qs[qi as int], j as int, k as int, p0);
                    assert(entry_updates(idx, qi as int, qs[qi as int], j as int, k + 1, p0) == entry_updates(
                        idx,
                        qi as int,
                        qs[qi as int],
                        j as int,
                        k as int,
                        p0,
                    ).push(x));
                    assert(query_updates(idx, qs, qi as int, p0) + word_updates(idx, qi as int, qs[qi as int], j as int, p0) + entry_updates(idx, qi as int, qs[qi as int], j as int, k + 1, p0) =~= u0.push(x));
                    let b = blank_tiles(idx.pages[p0].height as nat, n as nat);
                    assert(u0.push(x).drop_last() =~= u0);
                    assert(apply_all(b, u0.push(x)) == crate::hotspot::updated(apply_all(b, u0), x.0, x.1, x.2));
                    assert(hits@[pos as int].image@ == page_tiles(idx, n as nat, p0, query_updates(idx, qs, qi as int, p0) + word_updates(idx, qi as int, qs[qi as int], j as int, p0) + entry_updates(idx, qi as int, qs[qi as int], j as int, k + 1, p0)));
                    assert forall|p: int| p != p0 implies entry_updates(idx, qi as int, qs[qi as int], j as int, k + 1, p) == entry_updates(
                        idx,
                        qi as int,
                        qs[qi as int],
                        j as int,
                        k as int,
                        p,
                    ) by {}
                    assert forall|a: int| 0 <= a < hits@.len() implies (#[trigger] hits@[a]).image@ == page_tiles(
                        idx,
                        n as nat,
                        hits@[a].page_index as int,
                        query_updates(idx, qs, qi as int, hits@[a].page_index as int) + word_updates(idx, qi as int, qs[qi as int], j as int, hits@[a].page_index as int) + entry_updates(idx, qi as int, qs[qi as int], j as int, k + 1, hits@[a].page_index as int),
                    ) by {
                        if a != pos {
                            assert(hits@[a] == before[a]);
                            assert(hits@[a].page_index != hits@[pos as int].page_index);
                            assert(a < hits0.len());
                            assert(hits0[a] == hits@[a]);
                        }
                    }
                    assert forall|a: int| 0 <= a < hits@.len() && a != pos implies #[trigger] hits@[a] == before[a] by {}
                    assert(hits@[pos as int].page_index == p0);
                    assert forall|p: int| has_hit(hits@, p) <==> (has_hit(hits0, p) || p == p0) by {
                        if has_hit(hits@, p) {
                            let a = choose|a: int| 0 <= a < hits@.len() && (#[trigger] hits@[a]).page_index == p;
                            if a != pos {
                                assert(hits@[a] == before[a]);
                                assert(a < hits0.len());
                                assert(hits0[a] == before[a]);
                                assert(has_hit(hits0, p));
                            }
                        }
                        if has_hit(hits0, p) {
                            let a = choose|a: int| 0 <= a < hits0.len() && (#[trigger] hits0[a]).page_index == p;
                            assert(before[a] == hits0[a]);
                            if a == pos {
                                assert(hits@[pos as int].page_index == p);
                            } else {
                                assert(hits@[a] == before[a]);
                            }
                        }
                        if p == p0 {
                            assert(hits@[pos as int].page_index == p);
                        }
                    }
                    assert forall|p: int| entry_reaches(idx, j as int, k + 1, p) <==> (entry_reaches(idx, j as int, k as int, p)
                        || p == p0) by {
                        if p == p0 {
                            assert(idx.results[(idx.words[j as int].1[k as int]).result_index as int].page_index == p);
                        }
                    }
                    assert forall|p: int| has_hit(hits@, p) <==> (query_reaches_upto(idx, qs, qi as int, p)
                        || word_reaches_upto(idx, qs[qi as int], j as int, p) || entry_reaches(idx, j as int, k + 1, p)) by {
                        assert(has_hit(hits@, p) <==> (has_hit(hits0, p) || p == p0));
                        assert(entry_reaches(idx, j as int, k + 1, p) <==> (entry_reaches(idx, j as int, k as int, p) || p == p0));
                    }
                    assert forall|p: int| !has_hit(hits@, p) implies (query_results(idx, qs, qi as int, p) + word_results(idx, qs[qi as int], j as int, p) + entry_results(idx, j as int, k + 1, p)).len() == 0 by {
                        assert(has_hit(hits@, p) <==> (has_hit(hits0, p) || p == p0));
                        assert(entry_results(idx, j as int, k + 1, p) == entry_results(idx, j as int, k as int, p));
                    }
                    assert forall|p: int| !has_hit(hits@, p) implies (query_updates(idx, qs, qi as int, p) + word_updates(idx, qi as int, qs[qi as int], j as int, p) + entry_updates(idx, qi as int, qs[qi as int], j as int, k + 1, p)).len() == 0 by {
                        assert(has_hit(hits@, p) <==> (has_hit(hits0, p) || p == p0));
                        assert(entry_updates(idx, qi as int, qs[qi as int], j as int, k + 1, p) == entry_updates(
                            idx,
                            qi as int,
                            qs[qi as int],
                            j as int,
                            k as int,
                            p,
                        ));
                    }
                }
                k = k + 1;
            }
            proof {
                assert forall|p: int| query_results(idx, qs, qi as int, p) + word_results(idx, qs[qi as int], j as int, p) + entry_results(idx, j as int, k as int, p) =~= query_results(idx, qs, qi as int, p) + word_results(
                    idx,
                    qs[qi as int],
                    j + 1,
                    p,
                ) by {
                    assert(k == idx.words[j as int].1.len());
                }
                assert forall|p: int| query_updates(idx, qs, qi as int, p) + word_updates(idx, qi as int, qs[qi as int], j as int, p) + entry_updates(idx, qi as int, qs[qi as int], j as int, k as int, p) =~= query_updates(idx, qs, qi as int, p) + word_updates(
                    idx,
                    qi as int,
                    qs[qi as int],
                    j + 1,
                    p,
                ) by {
                    assert(k == idx.words[j as int].1.len());
                }
                assert forall|p: int| word_reaches_upto(idx, qs[qi as int], j + 1, p) <==> (word_reaches_upto(
                    idx,
                    qs[qi as int],
                    j as int,
                    p,
                ) || entry_reaches(idx, j as int, k as int, p)) by {
                    if entry_reaches(idx, j as int, k as int, p) {
                        assert(idx.words[j as int].1.len() == k);
                    }
                    if word_reaches_upto(idx, qs[qi as int], j + 1, p) {
                        let jj = choose|jj: int| 0 <= jj < j + 1 && jj < idx.words.len() && is_prefix(qk, word_key((#[trigger] idx.words[jj]).0))
                            && entry_reaches(idx, jj, idx.words[jj].1.len() as int, p);
                        if jj == j {
                            assert(entry_reaches(idx, j as int, k as int, p));
                        }
                    }
                }
            }
            j = j + 1;
        }
        proof {
            assert forall|p: int| query_updates(idx, qs, qi + 1, p) == query_updates(idx, qs, qi as int, p) + word_updates(
                idx,
                qi as int,
                qs[qi as int],
                j as int,
                p,
            ) by {}
            assert forall|p: int| query_results(idx, qs, qi + 1, p) == query_results(idx, qs, qi as int, p) + word_results(
                idx,
                qs[qi as int],
                j as int,
                p,
            ) by {}
            assert forall|p: int| query_reaches_upto(idx, qs, qi + 1, p) <==> (query_reaches_upto(idx, qs, qi as int, p)
                || word_reaches(idx, qs[qi as int], p)) by {
                if query_reaches_upto(idx, qs, qi + 1, p) {
                    let i = choose|i: int| 0 <= i < qi + 1 && i < qs.len() && word_reaches(idx, #[trigger] qs[i], p);
                    if i < qi {
                        assert(query_reaches_upto(idx, qs, qi as int, p));
                    }
                }
            }
        }
        qi = qi + 1;
    }
    hits
}

/// The relevance score of a page hit.
pub open spec fn hit_score(h: PageHits) -> nat {
    max_total(h.image@)
}

/// Hit `a` ranks before hit `b`: a higher score, or the same score and a
/// lower page index.
pub open spec fn ranks_before(a: PageHits, b: PageHits) -> bool {
    hit_score(a) > hit_score(b) || (hit_score(a) == hit_score(b) && a.page_index < b.page_index)
}

/// The positions of the best `k` hits, best first.
pub fn rank_pages(hits: &Vec<PageHits>, k: usize) -> (r: Vec<usize>)
    requires
        forall|i: int| 0 <= i < hits@.len() ==> (#[trigger] hits@[i]).image.wf(),
        forall|i: int, j: int| 0 <= i < j < hits@.len() ==> #[trigger] hits@[i].page_index != #[trigger] hits@[j].page_index,
    ensures
        r@.len() == if k < hits@.len() { k as int } else { hits@.len() as int },
        forall|i: int| 0 <= i < r@.len() ==> (#[trigger] r@[i]) < hits@.len(),
        forall|i: int, j: int| 0 <= i < j < r@.len() ==> ranks_before(hits@[#[trigger] r@[i] as int], hits@[#[trigger] r@[j] as int]),
        forall|x: int| 0 <= x < hits@.len() && !r@.contains(x as usize) && r@.len() > 0 ==> ranks_before(
            hits@[r@.last() as int],
            #[trigger] hits@[x],
        ),
        forall|x: int| 0 <= x < hits@.len() && !r@.contains(#[trigger] (x as usize)) ==> r@.len() == k,
{
    let n = hits.len();
    let mut scores: Vec<u64> = Vec::new();
    let mut i: usize = 0;
    while i < n
        invariant
            n == hits@.len(),
            i <= n,
            forall|a: int| 0 <= a < hits@.len() ==> (#[trigger] hits@[a]).image.wf(),
            scores@.len() == i,
            forall|a: int| 0 <= a < i ==> scores@[a] == hit_score(#[trigger] hits@[a]),
        decreases n - i,
    {
        let v = hits[i].image.maximum_score();
        scores.push(v);
        i = i + 1;
    }
    let mut chosen: Vec<bool> = Vec::new();
    i = 0;
    while i < n
        invariant
            i <= n,
            chosen@.len() == i,
            forall|a: int| 0 <= a < i ==> !chosen@[a],
        decreases n - i,
    {
        chosen.push(false);
        i = i + 1;
    }
    proof {
        lemma_count_none(chosen@);
    }
    let want = if k < n { k } else { n };
    let mut out: Vec<usize> = Vec::new();
    while out.len() < want
        invariant
            n == hits@.len(),
            want <= n,
            out@.len() <= want,
            scores@.len() == n,
            chosen@.len() == n,
            forall|a: int| 0 <= a < n ==> scores@[a] == hit_score(#[trigger] hits@[a]),
            forall|a: int, b: int| 0 <= a < b < n ==> #[trigger] hits@[a].page_index != #[trigger] hits@[b].page_index,
            forall|a: int| 0 <= a < out@.len() ==> (#[trigger] out@[a]) < n,
            forall|a: int| 0 <= a < n ==> (#[trigger] chosen@[a] <==> out@.contains(a as usize)),
            forall|a: int, b: int| 0 <= a < b < out@.len() ==> ranks_before(hits@[#[trigger] out@[a] as int], hits@[#[trigger] out@[b] as int]),
            forall|a: int, x: int|
                0 <= a < out@.len() && 0 <= x < n && !chosen@[x] ==> ranks_before(hits@[#[trigger] out@[a] as int], #[trigger] hits@[x]),
            forall|a: int, b: int| 0 <= a < b < out@.len() ==> #[trigger] out@[a] != #[trigger] out@[b],
            count_true(chosen@) == out@.len(),
        decreases want - out@.len(),
    {
        proof {
            if forall|x: int| 0 <= x < n ==> chosen@[x] {
                lemma_count_all(chosen@);
            }
        }
        let mut best: usize = n;
        let mut j: usize = 0;
        while j < n
            invariant
                n == hits@.len(),
                scores@.len() == n,
                chosen@.len() == n,
                j <= n,
                forall|a: int| 0 <= a < n ==> scores@[a] == hit_score(#[trigger] hits@[a]),
                forall|a: int, b: int| 0 <= a < b < n ==> #[trigger] hits@[a].page_index != #[trigger] hits@[b].page_index,
                best == n || (best < j && !chosen@[best as int]),
                best == n ==> forall|x: int| 0 <= x < j ==> chosen@[x],
                best < n ==> forall|x: int|
                    0 <= x < j && !chosen@[x] && x != best ==> ranks_before(hits@[best as int], #[trigger] hits@[x]),
            decreases n - j,
        {
            if !chosen[j] {
                if best == n || scores[j] > scores[best] || (scores[j] == scores[best] && hits[j].page_index
                    < hits[best].page_index) {
                    proof {
                        if best < n {
                            assert forall|x: int| 0 <= x < j + 1 && !chosen@[x] && x != j implies ranks_before(
                                hits@[j as int],
                                #[trigger] hits@[x],
                            ) by {
                                if x != best {
                                    assert(ranks_before(hits@[best as int], hits@[x]));
                                }
                            }
                        }
                    }
                    best = j;
                } else {
                    proof {
                        assert(best != j);
                        assert(hits@[best as int].page_index != hits@[j as int].page_index);
                    }
                }
            }
            j = j + 1;
        }
        proof {
            if best == n {
                assert(false);
            }
        }
        let ghost before = out@;
        let ghost before_chosen = chosen@;
        out.push(best);
        chosen.set(best, true);
        proof {
            lemma_count_set(before_chosen, best as int);
            assert forall|a: int| 0 <= a < n implies (#[trigger] chosen@[a] <==> out@.contains(a as usize)) by {
                if a == best {
                    assert(out@[before.len() as int] == best);
                } else {
                    if out@.contains(a as usize) {
                        let t = choose|t: int| 0 <= t < out@.len() && out@[t] == a as usize;
                        assert(t < before.len());
                        assert(before[t] == a as usize);
                    }
                    if before.contains(a as usize) {
                        let t = choose|t: int| 0 <= t < before.len() && before[t] == a as usize;
                        assert(out@[t] == a as usize);
                    }
                }
            }
            assert forall|a: int, b: int| 0 <= a < b < out@.len() implies #[trigger] out@[a] != #[trigger] out@[b] by {
                if b == before.len() {
                    assert(out@[a] == before[a]);
                    assert(chosen@[before[a] as int] || true);
                }
            }
        }
    }
    proof {
        assert forall|x: int| 0 <= x < n && !out@.contains(#[trigger] (x as usize)) implies out@.len() == k by {
            assert(!chosen@[x]);
            lemma_count_missing(chosen@, x);
        }
    }
    out
}

proof fn lemma_count_missing(s: Seq<bool>, i: int)
    requires
        0 <= i < s.len(),
        !s[i],
    ensures
        count_true(s) < s.len(),
    decreases s.len(),
{
    if i < s.len() - 1 {
        lemma_count_missing(s.drop_last(), i);
    } else {
        lemma_count_le(s.drop_last());
    }
}

proof fn lemma_count_le(s: Seq<bool>)
    ensures
        count_true(s) <= s.len(),
    decreases s.len(),
{
    if s.len() > 0 {
        lemma_count_le(s.drop_last());
    }
}

pub open spec fn count_true(s: Seq<bool>) -> nat
    decreases s.len(),
{
    if s.len() == 0 {
        0
    } else {
        count_true(s.drop_last()) + if s.last() { 1nat } else { 0nat }
    }
}

proof fn lemma_count_all(s: Seq<bool>)
    requires
        forall|x: int| 0 <= x < s.len() ==> s[x],
    ensures
        count_true(s) == s.len(),
    decreases s.len(),
{
    if s.len() > 0 {
        lemma_count_all(s.drop_last());
    }
}

proof fn lemma_count_none(s: Seq<bool>)
    requires
        forall|x: int| 0 <= x < s.len() ==> !s[x],
    ensures
        count_true(s) == 0,
    decreases s.len(),
{
    if s.len() > 0 {
        lemma_count_none(s.drop_last());
    }
}

proof fn lemma_count_set(s: Seq<bool>, i: int)
    requires
        0 <= i < s.len(),
        !s[i],
    ensures
        count_true(s.update(i, true)) == count_true(s) + 1,
    decreases s.len(),
{
    if i < s.len() - 1 {
        assert(s.update(i, true).drop_last() =~= s.drop_last().update(i, true));
        lemma_count_set(s.drop_last(), i);
    } else {
        assert(s.update(i, true).drop_last() =~= s.drop_last());
    }
}

/// The rectangle of a result.
pub open spec fn rect_of(r: SearchResult) -> Highlight {
    Highlight { x: r.x, y: r.y, width: r.width, height: r.height }
}

/// `h` is the rectangle of a result on page `p`.
pub open spec fn is_result_rect(idx: crate::index::IndexView, p: int, h: Highlight) -> bool {
    exists|ri: int| 0 <= ri < idx.results.len() && idx.results[ri].page_index == p && h == rect_of(#[trigger] idx.results[ri])
}

/// `mp` shows page `p` of the index, with highlights that are results of that page.
pub open spec fn shows_page(mp: MatchPage, idx: crate::index::IndexView, p: int) -> bool {
    let page = idx.pages[p];
    &&& 0 <= p < idx.pages.len()
    &&& page.document_index < idx.documents.len()
    &&& mp.document_digest@ == idx.documents[page.document_index as int]
    &&& mp.number == page.page_nr
    &&& mp.rendered_avif@ == page.rendered_avif
    &&& mp.rendered_jpeg@ == page.rendered_jpeg
    &&& mp.width == page.width
    &&& mp.height == page.height
    &&& mp.highlights@.len() <= MAX_HIGHLIGHTS
    &&& forall|k: int| 0 <= k < mp.highlights@.len() ==> is_result_rect(idx, p as int, #[trigger] mp.highlights@[k])
}

/// Ranking is monotone across indices: when page `p` has the same height in
/// two indices and its match updates in `b` are those of `a`, each scoring
/// at least as much, followed by more, it is at least as relevant in `b`.
pub proof fn lemma_relevance_monotone(a: IndexView, b: IndexView, qs: Seq<Seq<char>>, p: int)
    requires
        a.pages[p].height == b.pages[p].height,
        crate::hotspot::matches_fit(query_updates(a, qs, qs.len() as int, p), qs.len()),
        crate::hotspot::matches_fit(query_updates(b, qs, qs.len() as int, p), qs.len()),
        query_updates(a, qs, qs.len() as int, p).len() <= query_updates(b, qs, qs.len() as int, p).len(),
        forall|i: int|
            0 <= i < query_updates(a, qs, qs.len() as int, p).len() ==> {
                let u = query_updates(a, qs, qs.len() as int, p)[i];
                let v = #[trigger] query_updates(b, qs, qs.len() as int, p)[i];
                v.0 == u.0 && v.1 == u.1 && v.2 >= u.2
            },
    ensures
        relevance(b, qs, p) >= relevance(a, qs, p),
{
    let blank = blank_tiles(a.pages[p].height as nat, qs.len());
    assert(crate::hotspot::has_shape(blank, qs.len()));
    let us = query_updates(a, qs, qs.len() as int, p);
    let vs = query_updates(b, qs, qs.len() as int, p);
    assert forall|i: int| 0 <= i < us.len() implies (#[trigger] vs[i]).0 == us[i].0 && vs[i].1 == us[i].1 && vs[i].2 >= us[i].2 by {}
    crate::hotspot::lemma_ranking_monotone(blank, us, vs, qs.len());
}

/// The rectangles of the results `rs`.
pub open spec fn rects(idx: IndexView, rs: Seq<u32>) -> Seq<Highlight> {
    rs.map_values(|ri: u32| rect_of(idx.results[ri as int]))
}

/// The highlights of page `p`: its first `MAX_HIGHLIGHTS` distinct results
/// met by the query words `qs`, in the order met.
pub open spec fn page_highlights(idx: IndexView, qs: Seq<Seq<char>>, p: int) -> Seq<Highlight> {
    rects(idx, first_distinct(query_results(idx, qs, qs.len() as int, p)))
}

/// The pages that best match `query`, best first: at most `MAX_PAGES`,
/// ranked by relevance, then by position in the index.
pub fn search(index: &SearchIndex, query: &str) -> (r: Vec<MatchPage>)
    requires
        index.wf(),
        refs_in_range(index@),
    ensures
        exists|ps: Seq<int>|
            {
                &&& ranked_correctly(index@, query_words(query@), ps)
                &&& ps.len() == r@.len()
                &&& forall|i: int| 0 <= i < r@.len() ==> shows_page(#[trigger] r@[i], index@, ps[i])
                &&& forall|i: int|
                    0 <= i < r@.len() ==> (#[trigger] r@[i]).highlights@ == page_highlights(index@, query_words(query@), ps[i])
            },
        query@.len() == 0 ==> r@.len() == 0,
{
    let mut words = normalize_and_extract_words(query);
    proof {
        if query@.len() == 0 {
            crate::normalize::lemma_empty_text_has_no_tokens();
            assert(query@ =~= Seq::<char>::empty());
        }
    }
    if words.len() > MAX_QUERY_WORDS {
        words.truncate(MAX_QUERY_WORDS);
    }
    let ghost wv = words@.map_values(|w: String| w@);
    proof {
        let ws = normalized(query@);
        if ws.len() > MAX_QUERY_WORDS {
            assert(wv =~= ws.subrange(0, MAX_QUERY_WORDS as int));
        } else {
            assert(wv =~= ws);
        }
        lemma_dedup(wv);
    }
    let qwords = distinct_words(&words);
    let ghost qs = qwords@.map_values(|w: String| w@);
    assert(qs == query_words(query@));
    let hits = collect_hits(index, &qwords);
    proof {
        if query@.len() == 0 {
            assert(words@.len() == 0);
            assert(qs.len() == 0);
            if hits@.len() > 0 {
                assert(has_hit(hits@, hits@[0].page_index as int));
            }
        }
    }
    let order = rank_pages(&hits, MAX_PAGES);
    let ghost ps = order@.map_values(|o: usize| hits@[o as int].page_index as int);
    proof {
        let idx = index@;
        assert forall|a: int| 0 <= a < hits@.len() implies hit_score(#[trigger] hits@[a]) == relevance(
            idx,
            qs,
            hits@[a].page_index as int,
        ) by {}
        assert forall|i: int| 0 <= i < ps.len() implies query_reaches(idx, qs, #[trigger] ps[i]) by {
            assert(has_hit(hits@, hits@[order@[i] as int].page_index as int));
        }
        assert forall|i: int, j: int| 0 <= i < j < ps.len() implies ranks_above(idx, qs, #[trigger] ps[i], #[trigger] ps[j]) by {
            assert(ranks_before(hits@[order@[i] as int], hits@[order@[j] as int]));
            assert(hit_score(hits@[order@[i] as int]) == relevance(idx, qs, ps[i]));
            assert(hit_score(hits@[order@[j] as int]) == relevance(idx, qs, ps[j]));
        }
        assert forall|p: int| query_reaches(idx, qs, p) && !ps.contains(p) implies ps.len() == MAX_PAGES && ranks_above(
            idx,
            qs,
            ps[ps.len() - 1],
            p,
        ) by {
            assert(has_hit(hits@, p));
            let x = choose|x: int| 0 <= x < hits@.len() && (#[trigger] hits@[x]).page_index == p;
            assert(!order@.contains(x as usize)) by {
                if order@.contains(x as usize) {
                    let t = choose|t: int| 0 <= t < order@.len() && order@[t] == x as usize;
                    assert(ps[t] == p);
                }
            }
            assert(order@.len() > 0);
            assert(ranks_before(hits@[order@.last() as int], hits@[x]));
            assert(ps[ps.len() - 1] == hits@[order@.last() as int].page_index as int);
            assert(hit_score(hits@[order@.last() as int]) == relevance(idx, qs, ps[ps.len() - 1]));
            assert(hit_score(hits@[x]) == relevance(idx, qs, p));
        }
    }
    let mut out: Vec<MatchPage> = Vec::new();
    let mut i: usize = 0;
    while i < order.len()
        invariant
            index.wf(),
            refs_in_range(index@),
            hits_wf(hits@, index@, qwords@.len()),
            order@.len() <= MAX_PAGES,
            forall|a: int| 0 <= a < order@.len() ==> (#[trigger] order@[a]) < hits@.len(),
            ps == order@.map_values(|o: usize| hits@[o as int].page_index as int),
            i <= order@.len(),
            out@.len() == i,
            forall|a: int| 0 <= a < out@.len() ==> shows_page(#[trigger] out@[a], index@, ps[a]),
            qs == qwords@.map_values(|w: String| w@),
            forall|a: int| 0 <= a < out@.len() ==> (#[trigger] out@[a]).highlights@ == page_highlights(index@, qs, ps[a]),
            forall|a: int|
                0 <= a < hits@.len() ==> (#[trigger] hits@[a]).highlights@ == first_distinct(
                    query_results(index@, qs, qs.len() as int, hits@[a].page_index as int),
                ),
        decreases order@.len() - i,
    {
        let h = &hits[order[i]];
        assert(hits@[order@[i as int] as int] == *h);
        let pi = h.page_index as usize;
        let page = &index.pages[pi];
        assert(index@.pages[pi as int] == page@);
        let mut highlights: Vec<Highlight> = Vec::new();
        let mut k: usize = 0;
        while k < h.highlights.len()
            invariant
                hits_wf(hits@, index@, qwords@.len()),
                order@.len() <= MAX_PAGES,
                i < order@.len(),
                order@[i as int] < hits@.len(),
                hits@[order@[i as int] as int] == *h,
                pi == h.page_index,
                k <= h.highlights@.len(),
                highlights@.len() == k,
                forall|a: int| 0 <= a < highlights@.len() ==> is_result_rect(index@, pi as int, #[trigger] highlights@[a]),
                highlights@ == rects(index@, h.highlights@.subrange(0, k as int)),
            decreases h.highlights@.len() - k,
        {
            let ri = h.highlights[k];
            assert(ri < index@.results.len());
            let res = index.results[ri as usize];
            let hl = Highlight { x: res.x, y: res.y, width: res.width, height: res.height };
            let ghost before = highlights@;
            highlights.push(hl);
            proof {
                assert(index@.results[ri as int] == res);
                assert(highlights@ =~= rects(index@, h.highlights@.subrange(0, k + 1)));
                assert forall|a: int| 0 <= a < highlights@.len() implies is_result_rect(index@, pi as int, #[trigger] highlights@[a]) by {
                    if a < before.len() {
                        assert(highlights@[a] == before[a]);
                    } else {
                        assert(highlights@[a] == hl);
                        assert(index@.results[ri as int] == res);
                        assert(hl == rect_of(index@.results[ri as int]));
                    }
                }
            }
            k = k + 1;
        }
        let di = page.document_index as usize;
        assert(di < index@.documents.len());
        let ghost hv = highlights@;
        let mp = MatchPage {
            document_digest: index.documents[di].clone(),
            number: page.page_nr,
            rendered_avif: page.rendered_avif.clone(),
            rendered_jpeg: page.rendered_jpeg.clone(),
            width: page.width,
            height: page.height,
            highlights,
        };
        assert(h.highlights@.len() <= MAX_HIGHLIGHTS);
        assert(mp.highlights@ == hv);
        assert(ps[i as int] == pi as int);
        assert(shows_page(mp, index@, pi as int));
        assert(h.highlights@.subrange(0, k as int) =~= h.highlights@);
        assert(mp.highlights@ == page_highlights(index@, qs, ps[i as int]));
        let ghost before = out@;
        out.push(mp);
        proof {
            assert forall|a: int| 0 <= a < out@.len() implies shows_page(#[trigger] out@[a], index@, ps[a])
                && out@[a].highlights@ == page_highlights(index@, qs, ps[a]) by {
                if a < before.len() {
                    assert(out@[a] == before[a]);
                } else {
                    assert(out@[a] == mp);
                }
            }
        }
        i = i + 1;
    }
    assert(ranked_correctly(index@, qs, ps));
    out
}

} // verus!
