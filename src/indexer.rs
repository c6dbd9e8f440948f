//! Building the partial index of one document: where its content starts,
//! which lines and pages it keeps, and which pages still need a render.

use vstd::prelude::*;
use crate::index::{
    IndexView,
    SearchIndex, Page, PageView, SearchResult, Match, lookup, lookup_or_empty, refs_in_range,
};
use crate::render_cache::{DocumentMap, Image, ImageView, CacheView, cached_image, image_complete, cache_fits,
    parse_cache, enc_cache, lemma_cache_round_trip};
use crate::normalize::same_text;
use crate::digest::{content_id, base64_url_of, blake3_of};

verus! {

/// An entry of a document's outline, listed in pre-order: children follow
/// their parent one level deeper.
pub struct OutlineEntry {
    pub title: String,
    /// The page the entry points to, if any.
    pub page: Option<u32>,
    /// Vertical offset of the target on its page, in hundredths of a point.
    pub y: i32,
    /// Nesting level, 0 at the top.
    pub depth: u32,
}

/// Stems that open a statement worth finding first: theorem, definition,
/// property, method.
pub open spec fn emphasis_stems() -> Seq<Seq<char>> {
    seq!["theorem"@, "definit"@, "propriet"@, "method"@]
}

/// A line whose first token opens a theorem, a definition, a property or a
/// method; its importance is raised.
pub fn is_emphasis_line(tokens: &Vec<String>) -> (r: bool)
    ensures
        r == (tokens@.len() > 0 && emphasis_stems().contains(tokens@[0]@)),
{
    if tokens.len() == 0 {
        return false;
    }
    let t = tokens[0].as_str();
    let list: [&str; 4] = ["theorem", "definit", "propriet", "method"];
    assert(list@.map_values(|s: &str| s@) =~= emphasis_stems());
    let mut i: usize = 0;
    while i < 4
        invariant
            i <= 4,
            tokens@.len() > 0,
            t@ == tokens@[0]@,
            list@.map_values(|s: &str| s@) == emphasis_stems(),
            forall|j: int| 0 <= j < i ==> emphasis_stems()[j] != t@,
        decreases 4 - i,
    {
        assert(emphasis_stems()[i as int] == list@[i as int]@);
        if same_text(t, list[i]) {
            assert(emphasis_stems()[i as int] == tokens@[0]@);
            return true;
        }
        i = i + 1;
    }
    false
}

/// A line drawn over a background to ignore: every corner of its box
/// samples to one of the colours to ignore.
pub open spec fn corners_hidden(corners: Seq<(u8, u8, u8)>, ignore: Seq<(u8, u8, u8)>) -> bool {
    forall|i: int| 0 <= i < corners.len() ==> ignore.contains(#[trigger] corners[i])
}

/// Whether a line is left out because all four corners of its box show a
/// colour to ignore.
pub fn line_hidden(corners: &[(u8, u8, u8); 4], ignore: &Vec<(u8, u8, u8)>) -> (r: bool)
    ensures
        r == corners_hidden(corners@, ignore@),
{
    let mut i: usize = 0;
    while i < 4
        invariant
            i <= 4,
            corners@.len() == 4,
            forall|a: int| 0 <= a < i ==> ignore@.contains(#[trigger] corners@[a]),
        decreases 4 - i,
    {
        let c = corners[i];
        let mut found = false;
        let mut j: usize = 0;
        while j < ignore.len()
            invariant
                j <= ignore@.len(),
                c == corners@[i as int],
                found ==> ignore@.contains(c),
                !found ==> forall|b: int| 0 <= b < j ==> ignore@[b] != c,
            decreases ignore@.len() - j,
        {
            if ignore[j].0 == c.0 && ignore[j].1 == c.1 && ignore[j].2 == c.2 {
                assert(ignore@[j as int] == c);
                found = true;
            }
            j = j + 1;
        }
        if !found {
            return false;
        }
        i = i + 1;
    }
    true
}

/// The point from which a document's text is indexed.
#[derive(Clone, Copy, Debug, PartialEq, Eq, Structural)]
pub struct Anchor {
    pub page: u32,
    /// Vertical offset on `page`, in hundredths of a point.
    pub y: i32,
}

pub open spec fn ascii_lower(c: char) -> char {
    crate::normalize::to_lower(c)
}

/// Equal texts when ASCII letters are compared without case.
pub open spec fn eq_ignore_ascii_case(a: Seq<char>, b: Seq<char>) -> bool {
    a.len() == b.len() && forall|i: int| 0 <= i < a.len() ==> ascii_lower(#[trigger] a[i]) == ascii_lower(b[i])
}

/// The title of a table of contents.
pub open spec fn is_contents_title(t: Seq<char>) -> bool {
    eq_ignore_ascii_case(t, "table des matières"@)
}

/// From entry `k` on, the first top-level entry whose title is no table
/// of contents.
pub open spec fn first_top(titles: Seq<Seq<char>>, depths: Seq<u32>, k: int) -> Option<int>
    decreases titles.len() - k,
{
    if k < 0 || k >= titles.len() || k >= depths.len() {
        None
    } else if depths[k] == 0 && !is_contents_title(titles[k]) {
        Some(k)
    } else {
        first_top(titles, depths, k + 1)
    }
}

/// The leaf reached from entry `k` by always taking the first child.
pub open spec fn first_leaf(depths: Seq<u32>, k: int) -> int
    decreases depths.len() - k,
{
    if 0 <= k && k + 1 < depths.len() && depths[k + 1] > depths[k] {
        first_leaf(depths, k + 1)
    } else {
        k
    }
}

pub open spec fn titles_of(es: Seq<OutlineEntry>) -> Seq<Seq<char>> {
    es.map_values(|e: OutlineEntry| e.title@)
}

pub open spec fn depths_of(es: Seq<OutlineEntry>) -> Seq<u32> {
    es.map_values(|e: OutlineEntry| e.depth)
}

/// The anchor an outline gives: the first-child leaf under the first
/// top-level entry that is no table of contents, if it points to a page.
pub open spec fn anchor_of(es: Seq<OutlineEntry>) -> Option<Anchor> {
    match first_top(titles_of(es), depths_of(es), 0) {
        Some(k) => {
            let l = first_leaf(depths_of(es), k);
            match es[l].page {
                Some(p) => Some(Anchor { page: p, y: es[l].y }),
                None => None,
            }
        },
        None => None,
    }
}

/// Whether `t` reads "table des matières", ASCII letters in any case.
pub fn is_contents(t: &String) -> (r: bool)
    ensures
        r == is_contents_title(t@),
{
    let a = crate::normalize::chars_of(t.as_str());
    let b = crate::normalize::chars_of("table des matières");
    if a.len() != b.len() {
        return false;
    }
    let mut i: usize = 0;
    while i < a.len()
        invariant
            a@ == t@,
            b@ == "table des matières"@,
            a@.len() == b@.len(),
            i <= a@.len(),
            forall|j: int| 0 <= j < i ==> ascii_lower(#[trigger] a@[j]) == ascii_lower(b@[j]),
        decreases a@.len() - i,
    {
        let x = a[i];
        let y = b[i];
        let lx = if 'A' <= x && x <= 'Z' { ((x as u8) + 32) as char } else { x };
        let ly = if 'A' <= y && y <= 'Z' { ((y as u8) + 32) as char } else { y };
        if lx != ly {
            return false;
        }
        i = i + 1;
    }
    true
}

/// Where a document's content starts: the first top-level outline entry
/// that is no table of contents, then its first child, down to a leaf.
pub fn content_start(outline: &Vec<OutlineEntry>) -> (r: Option<Anchor>)
    ensures
        r == anchor_of(outline@),
{
    let ghost titles = titles_of(outline@);
    let ghost depths = depths_of(outline@);
    let n = outline.len();
    let mut k: usize = 0;
    while k < n && (outline[k].depth != 0 || is_contents(&outline[k].title))
        invariant
            n == outline@.len(),
            titles == titles_of(outline@),
            depths == depths_of(outline@),
            k <= n,
            first_top(titles, depths, 0) == first_top(titles, depths, k as int),
        decreases n - k,
    {
        assert(titles[k as int] == outline@[k as int].title@ && depths[k as int] == outline@[k as int].depth);
        k = k + 1;
    }
    if k >= n {
        return None;
    }
    assert(titles[k as int] == outline@[k as int].title@ && depths[k as int] == outline@[k as int].depth);
    assert(first_top(titles, depths, 0) == Some(k as int));
    let ghost top = k as int;
    while k + 1 < n && outline[k + 1].depth > outline[k].depth
        invariant
            n == outline@.len(),
            depths == depths_of(outline@),
            top <= k < n,
            first_leaf(depths, top) == first_leaf(depths, k as int),
        decreases n - k,
    {
        assert(depths[k as int] == outline@[k as int].depth && depths[k + 1] == outline@[k + 1].depth);
        k = k + 1;
    }
    assert(depths[k as int] == outline@[k as int].depth);
    if k + 1 < n {
        assert(depths[k + 1] == outline@[k + 1].depth);
    }
    assert(first_leaf(depths, k as int) == k as int);
    let e = &outline[k];
    match e.page {
        Some(p) => Some(Anchor { page: p, y: e.y }),
        None => None,
    }
}

/// A line at the bottom offset `bottom` of page `page_nr` (both in the
/// anchor's units) comes at or after the anchor.
pub open spec fn in_content(anchor: Option<Anchor>, page_nr: u32, bottom: i32) -> bool {
    match anchor {
        Some(a) => page_nr > a.page || (page_nr == a.page && bottom >= a.y),
        None => true,
    }
}

/// Whether a line is indexed, given where the content starts.
pub fn line_in_content(anchor: Option<Anchor>, page_nr: u32, bottom: i32) -> (r: bool)
    ensures
        r == in_content(anchor, page_nr, bottom),
{
    match anchor {
        Some(a) => page_nr > a.page || (page_nr == a.page && bottom >= a.y),
        None => true,
    }
}

/// The render a page starts with, and whether it still needs rendering:
/// a cached record with both variants is taken as it is.
pub open spec fn page_plan(c: CacheView, name: Seq<char>, nr: u16) -> (ImageView, bool) {
    match cached_image(c, name, nr) {
        Some(img) => (img, !image_complete(img)),
        None => (ImageView { rendered_avif: Seq::empty(), rendered_jpeg: Seq::empty(), width: 0, height: 0 }, true),
    }
}

/// The render page `nr` of document `name` starts with, and whether it
/// still needs rendering.
pub fn plan_page(cache: &DocumentMap, name: &String, nr: u16) -> (r: (Image, bool))
    requires
        cache.wf(),
    ensures
        (r.0@, r.1) == page_plan(cache@, name@, nr),
{
    match cache.get(name, nr) {
        Some(img) => {
            let complete = img.is_complete();
            (img.duplicate(), !complete)
        },
        None => (Image { rendered_avif: String::new(), rendered_jpeg: String::new(), width: 0, height: 0 }, true),
    }
}

/// A rebuild against an unchanged cache reuses its renders: once a page's
/// render is cached with both variants, the cache as written and read back
/// yields the same digests and size for that page and asks no new render.
pub proof fn lemma_rebuild_reuses_renders(c: CacheView, name: Seq<char>, nr: u16, img: ImageView)
    requires
        cache_fits(c),
        cached_image(c, name, nr) == Some(img),
        image_complete(img),
    ensures
        parse_cache(enc_cache(c)) is Ok,
        page_plan(parse_cache(enc_cache(c))->Ok_0, name, nr) == (img, false),
{
    lemma_cache_round_trip(c);
}

/// `ts` holds the token `k`.
pub open spec fn has_token(ts: Seq<String>, k: Seq<char>) -> bool {
    exists|i: int| 0 <= i < ts.len() && (#[trigger] ts[i])@ == k
}

/// Some result lies on page `i`.
pub open spec fn page_has_results(v: IndexView, i: int) -> bool {
    exists|r: int| 0 <= r < v.results.len() && (#[trigger] v.results[r]).page_index == i
}

/// The kept pages come in increasing page order, each with a result, and
/// every word has at least one match.
pub open spec fn kept_pages_ordered(v: IndexView) -> bool {
    &&& forall|i: int, j: int| 0 <= i < j < v.pages.len() ==> (#[trigger] v.pages[i]).page_nr < (#[trigger] v.pages[j]).page_nr
    &&& forall|i: int| 0 <= i < v.pages.len() ==> page_has_results(v, i)
    &&& forall|i: int| 0 <= i < v.words.len() ==> (#[trigger] v.words[i]).1.len() > 0
}

/// The partial index of one document, built page by page.
pub struct DocumentIndexer {
    pub index: SearchIndex,
    /// The page being scanned has at least one result.
    pub page_has_result: bool,
}

impl DocumentIndexer {
    /// The index is well formed; results point to kept pages, or to the
    /// page being scanned; matches point to results.
    pub open spec fn wf(&self) -> bool {
        let v = self.index@;
        &&& self.index.wf()
        &&& v.documents.len() == 1
        &&& forall|i: int| 0 <= i < v.pages.len() ==> (#[trigger] v.pages[i]).document_index == 0
        &&& forall|i: int|
            0 <= i < v.results.len() ==> (#[trigger] v.results[i]).page_index < v.pages.len() || (self.page_has_result
                && v.results[i].page_index == v.pages.len())
        &&& forall|i: int, j: int|
            0 <= i < v.words.len() && 0 <= j < v.words[i].1.len() ==> (#[trigger] v.words[i].1[j]).result_index
                < v.results.len()
        &&& kept_pages_ordered(v)
        &&& self.page_has_result ==> page_has_results(v, v.pages.len() as int)
    }

    /// An empty partial index of the document `name`.
    pub fn new(name: String) -> (r: DocumentIndexer)
        ensures
            r.wf(),
            !r.page_has_result,
            r.index@.documents == seq![name@],
            r.index@.pages.len() == 0,
            r.index@.results.len() == 0,
            r.index@.words.len() == 0,
    {
        let mut index = SearchIndex::new();
        let ghost nv = name@;
        index.documents.push(name);
        assert(index@.documents =~= seq![nv]);
        DocumentIndexer { index, page_has_result: false }
    }

    /// Records a line of the page being scanned: its tokens, its score and
    /// its rectangle. A line without tokens is not recorded; a token given
    /// twice counts once.
    pub fn add_line(&mut self, tokens: &Vec<String>, score_bits: u32, x: i16, y: i16, width: u16, height: u16)
        requires
            old(self).wf(),
            old(self).index@.pages.len() < u32::MAX,
            old(self).index@.results.len() < u32::MAX,
        ensures
            final(self).wf(),
            final(self).index@.documents == old(self).index@.documents,
            final(self).index@.pages == old(self).index@.pages,
            tokens@.len() == 0 ==> *final(self) == *old(self),
            tokens@.len() > 0 ==> {
                &&& final(self).page_has_result
                &&& final(self).index@.results == old(self).index@.results.push(
                    SearchResult { page_index: old(self).index@.pages.len() as u32, x, y, width, height },
                )
                &&& forall|k: Seq<char>| #[trigger] lookup(final(self).index@.words, k) == if has_token(tokens@, k) {
                    Some(
                        lookup_or_empty(old(self).index@.words, k).push(
                            Match { result_index: old(self).index@.results.len() as u32, score_bits },
                        ),
                    )
                } else {
                    lookup(old(self).index@.words, k)
                }
            },
    {
        if tokens.len() == 0 {
            return;
        }
        let ghost v0 = self.index@;
        let page_index = self.index.pages.len() as u32;
        let result_index = self.index.results.len() as u32;
        self.index.results.push(SearchResult { page_index, x, y, width, height });
        self.page_has_result = true;
        let m = Match { result_index, score_bits };
        let mut one: Vec<Match> = Vec::new();
        one.push(m);
        let mut i: usize = 0;
        while i < tokens.len()
            invariant
                i <= tokens@.len(),
                one@ == seq![m],
                self.index.wf(),
                self.page_has_result,
                self.index@.documents == v0.documents,
                self.index@.pages == v0.pages,
                self.index@.results == v0.results.push(SearchResult { page_index, x, y, width, height }),
                page_index == v0.pages.len(),
                result_index == v0.results.len(),
                m == (Match { result_index, score_bits }),
                forall|k: Seq<char>| #[trigger] lookup(self.index@.words, k) == if has_token(tokens@.subrange(0, i as int), k) {
                    Some(lookup_or_empty(v0.words, k).push(m))
                } else {
                    lookup(v0.words, k)
                },
            decreases tokens@.len() - i,
        {
            let t = &tokens[i];
            let mut seen = false;
            let mut j: usize = 0;
            while j < i
                invariant
                    j <= i,
                    i < tokens@.len(),
                    seen ==> has_token(tokens@.subrange(0, i as int), t@),
                    !seen ==> forall|a: int| 0 <= a < j ==> tokens@[a]@ != t@,
                decreases i - j,
            {
                if same_text(tokens[j].as_str(), t.as_str()) {
                    assert(tokens@.subrange(0, i as int)[j as int] == tokens@[j as int]);
                    seen = true;
                }
                j = j + 1;
            }
            let ghost before = self.index@.words;
            proof {
                assert forall|k: Seq<char>| has_token(tokens@.subrange(0, i + 1), k) == (has_token(
                    tokens@.subrange(0, i as int),
                    k,
                ) || k == t@) by {
                    if has_token(tokens@.subrange(0, i + 1), k) {
                        let a = choose|a: int| 0 <= a < i + 1 && (#[trigger] tokens@.subrange(0, i + 1)[a])@ == k;
                        if a < i {
                            assert(tokens@.subrange(0, i as int)[a] == tokens@.subrange(0, i + 1)[a]);
                        }
                    }
                    if has_token(tokens@.subrange(0, i as int), k) {
                        let a = choose|a: int| 0 <= a < i && (#[trigger] tokens@.subrange(0, i as int)[a])@ == k;
                        assert(tokens@.subrange(0, i as int)[a] == tokens@.subrange(0, i + 1)[a]);
                    }
                    if k == t@ {
                        assert(tokens@.subrange(0, i + 1)[i as int] == tokens@[i as int]);
                    }
                }
            }
            if !seen {
                proof {
                    assert(!has_token(tokens@.subrange(0, i as int), t@)) by {
                        if has_token(tokens@.subrange(0, i as int), t@) {
                            let a = choose|a: int| 0 <= a < i && (#[trigger] tokens@.subrange(0, i as int)[a])@ == t@;
                            assert(tokens@.subrange(0, i as int)[a] == tokens@[a]);
                        }
                    }
                }
                self.index.words.append(t.clone(), &one);
            }
            proof {
                assert forall|k: Seq<char>| #[trigger] lookup(self.index@.words, k) == if has_token(
                    tokens@.subrange(0, i + 1),
                    k,
                ) {
                    Some(lookup_or_empty(v0.words, k).push(m))
                } else {
                    lookup(v0.words, k)
                } by {
                    if k == t@ && !seen {
                        assert(lookup_or_empty(before, k) == lookup_or_empty(v0.words, k));
                        assert(lookup_or_empty(v0.words, k) + seq![m] =~= lookup_or_empty(v0.words, k).push(m));
                    }
                }
            }
            i = i + 1;
        }
        assert(tokens@.subrange(0, i as int) =~= tokens@);
        proof {
            let v = self.index@;
            assert forall|a: int, b: int|
                0 <= a < v.words.len() && 0 <= b < v.words[a].1.len() implies (#[trigger] v.words[a].1[b]).result_index
                    < v.results.len() by {
                let k = v.words[a].0;
                crate::index::lemma_sorted_lookup(v.words, a);
                if lookup(v0.words, k) is Some {
                    crate::index::lemma_lookup_in(v0.words, k);
                }
                let base = lookup_or_empty(v0.words, k);
                if has_token(tokens@, k) {
                    if b < base.len() {
                        let x = choose|x: int| 0 <= x < v0.words.len() && v0.words[x] == (k, base);
                        assert(v0.words[x].1[b] == base[b]);
                    }
                } else {
                    let x = choose|x: int| 0 <= x < v0.words.len() && v0.words[x] == (k, base);
                    assert(v0.words[x].1[b] == base[b]);
                }
            }
            assert forall|a: int| 0 <= a < v.results.len() implies (#[trigger] v.results[a]).page_index < v.pages.len() || (
            self.page_has_result && v.results[a].page_index == v.pages.len()) by {
                if a < v0.results.len() {
                    assert(v.results[a] == v0.results[a]);
                }
            }
            assert forall|a: int| 0 <= a < v.pages.len() implies page_has_results(v, a) by {
                assert(page_has_results(v0, a));
                let r = choose|r: int| 0 <= r < v0.results.len() && (#[trigger] v0.results[r]).page_index == a;
                assert(v.results[r] == v0.results[r]);
            }
            assert(v.results[v0.results.len() as int].page_index == v.pages.len());
            assert(page_has_results(v, v.pages.len() as int));
            assert forall|a: int| 0 <= a < v.words.len() implies (#[trigger] v.words[a]).1.len() > 0 by {
                let k = v.words[a].0;
                crate::index::lemma_sorted_lookup(v.words, a);
                if !has_token(tokens@, k) {
                    crate::index::lemma_lookup_in(v0.words, k);
                    let x = choose|x: int| 0 <= x < v0.words.len() && v0.words[x] == (k, lookup(v0.words, k)->Some_0);
                    assert(v0.words[x].1.len() > 0);
                }
            }
        }
    }

    /// Closes the scan of page `page_nr`: a page with at least one result
    /// is kept, with `render` as its render so far.
    pub fn finish_page(&mut self, page_nr: u16, render: Image)
        requires
            old(self).wf(),
            old(self).page_has_result && old(self).index@.pages.len() > 0 ==> old(self).index@.pages.last().page_nr
                < page_nr,
        ensures
            final(self).wf(),
            !final(self).page_has_result,
            final(self).index@.documents == old(self).index@.documents,
            final(self).index@.results == old(self).index@.results,
            final(self).index@.words == old(self).index@.words,
            final(self).index@.pages == if old(self).page_has_result {
                old(self).index@.pages.push(
                    PageView {
                        document_index: 0,
                        page_nr,
                        rendered_avif: render@.rendered_avif,
                        rendered_jpeg: render@.rendered_jpeg,
                        width: render@.width,
                        height: render@.height,
                    },
                )
            } else {
                old(self).index@.pages
            },
    {
        if self.page_has_result {
            let ghost v0 = self.index@;
            let page = Page {
                document_index: 0,
                page_nr,
                rendered_avif: render.rendered_avif,
                rendered_jpeg: render.rendered_jpeg,
                width: render.width,
                height: render.height,
            };
            let ghost pv = page@;
            self.index.pages.push(page);
            self.page_has_result = false;
            proof {
                let v = self.index@;
                assert(v.pages =~= v0.pages.push(pv));
                assert forall|i: int| 0 <= i < v.pages.len() implies (#[trigger] v.pages[i]).document_index == 0 by {
                    if i < v0.pages.len() {
                        assert(v.pages[i] == v0.pages[i]);
                    }
                }
                assert forall|i: int| 0 <= i < v.results.len() implies (#[trigger] v.results[i]).page_index
                    < v.pages.len() || (self.page_has_result && v.results[i].page_index == v.pages.len()) by {
                    assert(v.results[i] == v0.results[i]);
                }
                assert(v.words == v0.words);
                assert(v.results == v0.results);
                assert forall|i: int, j: int| 0 <= i < j < v.pages.len() implies (#[trigger] v.pages[i]).page_nr < (
                #[trigger] v.pages[j]).page_nr by {
                    if j == v0.pages.len() {
                        assert(v.pages[i] == v0.pages[i]);
                        if i < v0.pages.len() - 1 {
                            assert(v0.pages[i].page_nr < v0.pages[v0.pages.len() - 1].page_nr);
                        }
                    } else {
                        assert(v.pages[i] == v0.pages[i] && v.pages[j] == v0.pages[j]);
                    }
                }
                assert forall|i: int| 0 <= i < v.pages.len() implies page_has_results(v, i) by {
                    if i < v0.pages.len() {
                        assert(page_has_results(v0, i));
                    } else {
                        assert(page_has_results(v0, v0.pages.len() as int));
                    }
                }
            }
        } else {
            proof {
                let v = self.index@;
                assert forall|i: int| 0 <= i < v.results.len() implies (#[trigger] v.results[i]).page_index
                    < v.pages.len() || (self.page_has_result && v.results[i].page_index == v.pages.len()) by {}
            }
        }
    }

    /// Sets the render of the kept page at position `pos`.
    pub fn set_render(&mut self, pos: usize, render: Image)
        requires
            old(self).wf(),
            pos < old(self).index@.pages.len(),
        ensures
            final(self).wf(),
            final(self).page_has_result == old(self).page_has_result,
            final(self).index@.documents == old(self).index@.documents,
            final(self).index@.results == old(self).index@.results,
            final(self).index@.words == old(self).index@.words,
            final(self).index@.pages == old(self).index@.pages.update(
                pos as int,
                PageView {
                    rendered_avif: render@.rendered_avif,
                    rendered_jpeg: render@.rendered_jpeg,
                    width: render@.width,
                    height: render@.height,
                    ..old(self).index@.pages[pos as int]
                },
            ),
    {
        let ghost v0 = self.index@;
        let old_page = &self.index.pages[pos];
        assert(v0.pages[pos as int] == old_page@);
        assert(old_page.document_index == 0);
        let page = Page {
            document_index: old_page.document_index,
            page_nr: old_page.page_nr,
            rendered_avif: render.rendered_avif,
            rendered_jpeg: render.rendered_jpeg,
            width: render.width,
            height: render.height,
        };
        let ghost pv = page@;
        let ghost ps = self.index.pages@;
        self.index.pages.set(pos, page);
        proof {
            let v = self.index@;
            assert(self.index.pages@ == ps.update(pos as int, page));
            assert(v.pages =~= v0.pages.update(pos as int, pv));
            assert forall|i: int| 0 <= i < v.pages.len() implies (#[trigger] v.pages[i]).document_index == 0 by {
                if i != pos {
                    assert(v.pages[i] == v0.pages[i]);
                }
            }
            assert(v.pages.len() == v0.pages.len());
            assert(v.words == v0.words);
            assert(v.results == v0.results);
            assert(v.documents == v0.documents);
            assert(self.index.wf());
            assert(v.pages[pos as int].page_nr == v0.pages[pos as int].page_nr);
            assert forall|a: int, b: int| 0 <= a < b < v.pages.len() implies (#[trigger] v.pages[a]).page_nr < (
            #[trigger] v.pages[b]).page_nr by {
                assert(v.pages[a].page_nr == v0.pages[a].page_nr);
                assert(v.pages[b].page_nr == v0.pages[b].page_nr);
            }
            assert forall|a: int| 0 <= a <= v.pages.len() implies page_has_results(v, a) == page_has_results(v0, a) by {}
            assert forall|a: int| 0 <= a < v.words.len() implies (#[trigger] v.words[a]).1.len() > 0 by {
                assert(v.words[a] == v0.words[a]);
            }
            assert forall|i: int| 0 <= i < v.results.len() implies (#[trigger] v.results[i]).page_index
                < v.pages.len() || (self.page_has_result && v.results[i].page_index == v.pages.len()) by {
                assert(v.results[i] == v0.results[i]);
            }
        }
    }

    /// The positions of the kept pages that still miss a variant.
    pub fn pages_to_render(&self) -> (r: Vec<usize>)
        ensures
            forall|i: int| 0 <= i < r@.len() ==> (#[trigger] r@[i]) < self.index@.pages.len(),
            forall|p: int|
                0 <= p < self.index@.pages.len() ==> (r@.contains(p as usize) <==> (
                #[trigger] self.index@.pages[p]).rendered_avif.len() == 0 || self.index@.pages[p].rendered_jpeg.len()
                == 0),
    {
        let mut out: Vec<usize> = Vec::new();
        let mut i: usize = 0;
        while i < self.index.pages.len()
            invariant
                i <= self.index@.pages.len(),
                self.index@.pages.len() == self.index.pages@.len(),
                forall|a: int| 0 <= a < out@.len() ==> (#[trigger] out@[a]) < i,
                forall|p: int|
                    0 <= p < i ==> (out@.contains(p as usize) <==> (#[trigger] self.index@.pages[p]).rendered_avif.len()
                        == 0 || self.index@.pages[p].rendered_jpeg.len() == 0),
            decreases self.index@.pages.len() - i,
        {
            let p = &self.index.pages[i];
            assert(self.index@.pages[i as int] == p@);
            let ghost before = out@;
            if p.rendered_avif.as_str().is_empty() || p.rendered_jpeg.as_str().is_empty() {
                out.push(i);
            }
            proof {
                assert forall|q: int| 0 <= q < i + 1 implies (out@.contains(q as usize) <==> (
                #[trigger] self.index@.pages[q]).rendered_avif.len() == 0 || self.index@.pages[q].rendered_jpeg.len()
                    == 0) by {
                    if q < i {
                        if out@.contains(q as usize) {
                            let t = choose|t: int| 0 <= t < out@.len() && out@[t] == q as usize;
                            if t < before.len() {
                                assert(before[t] == q as usize);
                            } else {
                                assert(out@[t] == i);
                            }
                        }
                        if before.contains(q as usize) {
                            let t = choose|t: int| 0 <= t < before.len() && before[t] == q as usize;
                            assert(out@[t] == q as usize);
                        }
                    } else {
                        if out@.len() > before.len() {
                            assert(out@[before.len() as int] == i);
                        } else {
                            if out@.contains(q as usize) {
                                let t = choose|t: int| 0 <= t < out@.len() && out@[t] == q as usize;
                                assert(before[t] < i);
                            }
                        }
                    }
                }
            }
            i = i + 1;
        }
        out
    }

    /// The partial index; a document without kept pages leaves no name.
    pub fn finish(self) -> (r: SearchIndex)
        requires
            self.wf(),
            !self.page_has_result,
        ensures
            r.wf(),
            refs_in_range(r@),
            kept_pages_ordered(r@),
            r@.pages == self.index@.pages,
            r@.results == self.index@.results,
            r@.words == self.index@.words,
            r@.documents == if self.index@.pages.len() == 0 {
                Seq::<Seq<char>>::empty()
            } else {
                self.index@.documents
            },
    {
        let mut index = self.index;
        if index.pages.len() == 0 {
            index.documents.clear();
            assert(index@.documents =~= Seq::<Seq<char>>::empty());
        }
        index
    }
}

/// The render record of a page from the bytes of its two encoded
/// variants: each named by its content identifier, so both are set.
pub fn render_record(lossless: &[u8], lossy: &[u8], width: u16, height: u16) -> (r: Image)
    ensures
        r.rendered_avif@ == base64_url_of(blake3_of(lossless@)),
        r.rendered_jpeg@ == base64_url_of(blake3_of(lossy@)),
        r.width == width,
        r.height == height,
        image_complete(r@),
{
    Image { rendered_avif: content_id(lossless), rendered_jpeg: content_id(lossy), width, height }
}

} // verus!
