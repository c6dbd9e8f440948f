//! The render cache: for each document, the renders already made of its
//! pages, kept between runs so that unchanged pages are not encoded again.

use vstd::prelude::*;
use vstd::pervasive::VecAdditionalExecFns;
use crate::codec::{
    DecodeError, le_u16, enc_str, str_fits, parse_u16, parse_str, deserialize_u16, deserialize_string, write_u16,
    write_string,
};
use crate::persist::{enc_all, parse_all, lemma_parse_all_err, reads_back, lemma_parse_all_round_trip};
use crate::codec::{lemma_u16_round_trip, lemma_str_round_trip};

verus! {

/// The renders of one page: a content digest per variant (empty when that
/// variant is not rendered yet) and the pixel size.
pub struct Image {
    pub rendered_avif: String,
    pub rendered_jpeg: String,
    pub width: u16,
    pub height: u16,
}

pub struct ImageView {
    pub rendered_avif: Seq<char>,
    pub rendered_jpeg: Seq<char>,
    pub width: u16,
    pub height: u16,
}

impl View for Image {
    type V = ImageView;

    open spec fn view(&self) -> ImageView {
        ImageView {
            rendered_avif: self.rendered_avif@,
            rendered_jpeg: self.rendered_jpeg@,
            width: self.width,
            height: self.height,
        }
    }
}

impl Image {
    /// A copy of the record.
    pub fn duplicate(&self) -> (r: Image)
        ensures
            r@ == self@,
    {
        Image {
            rendered_avif: self.rendered_avif.clone(),
            rendered_jpeg: self.rendered_jpeg.clone(),
            width: self.width,
            height: self.height,
        }
    }

    /// Both variants are rendered.
    pub fn is_complete(&self) -> (r: bool)
        ensures
            r == image_complete(self@),
    {
        !self.rendered_avif.as_str().is_empty() && !self.rendered_jpeg.as_str().is_empty()
    }
}

pub open spec fn image_complete(v: ImageView) -> bool {
    v.rendered_avif.len() > 0 && v.rendered_jpeg.len() > 0
}

/// Each key at most once.
pub open spec fn unique_keys<K, V>(s: Seq<(K, V)>) -> bool {
    forall|i: int, j: int| 0 <= i < j < s.len() ==> #[trigger] s[i].0 != #[trigger] s[j].0
}

/// The value of the last entry with key `k`.
pub open spec fn value_of<K, V>(s: Seq<(K, V)>, k: K) -> Option<V>
    decreases s.len(),
{
    if s.len() == 0 {
        None
    } else if s.last().0 == k {
        Some(s.last().1)
    } else {
        value_of(s.drop_last(), k)
    }
}

pub proof fn lemma_value_at<K, V>(s: Seq<(K, V)>, i: int)
    requires
        0 <= i < s.len(),
        forall|j: int| i < j < s.len() ==> s[j].0 != s[i].0,
    ensures
        value_of(s, s[i].0) == Some(s[i].1),
    decreases s.len(),
{
    if i < s.len() - 1 {
        lemma_value_at(s.drop_last(), i);
    }
}

pub proof fn lemma_value_absent<K, V>(s: Seq<(K, V)>, k: K)
    requires
        forall|j: int| 0 <= j < s.len() ==> s[j].0 != k,
    ensures
        value_of(s, k) is None,
    decreases s.len(),
{
    if s.len() > 0 {
        lemma_value_absent(s.drop_last(), k);
    }
}

/// After replacing or appending the entry of `k` with `v` in a list with
/// unique keys, `k` maps to `v` and every other key is unchanged.
pub proof fn lemma_put<K, V>(s: Seq<(K, V)>, t: Seq<(K, V)>, k: K, v: V)
    requires
        unique_keys(s),
        (exists|i: int| 0 <= i < s.len() && s[i].0 == k && t == s.update(i, (k, v))) || ((forall|j: int|
            0 <= j < s.len() ==> s[j].0 != k) && t == s.push((k, v))),
    ensures
        unique_keys(t),
        value_of(t, k) == Some(v),
        forall|k2: K| k2 != k ==> #[trigger] value_of(t, k2) == value_of(s, k2),
{
    assert(unique_keys(t)) by {
        assert forall|a: int, b: int| 0 <= a < b < t.len() implies #[trigger] t[a].0 != #[trigger] t[b].0 by {
            if exists|i: int| 0 <= i < s.len() && s[i].0 == k && t == s.update(i, (k, v)) {
                let i = choose|i: int| 0 <= i < s.len() && s[i].0 == k && t == s.update(i, (k, v));
                assert(t[a].0 == s[a].0 && t[b].0 == s[b].0);
            } else {
                if b == s.len() {
                    assert(t[a] == s[a]);
                } else {
                    assert(t[a] == s[a] && t[b] == s[b]);
                }
            }
        }
    }
    if exists|i: int| 0 <= i < s.len() && s[i].0 == k && t == s.update(i, (k, v)) {
        let i = choose|i: int| 0 <= i < s.len() && s[i].0 == k && t == s.update(i, (k, v));
        lemma_value_at(t, i);
        assert forall|k2: K| k2 != k implies #[trigger] value_of(t, k2) == value_of(s, k2) by {
            if exists|j: int| 0 <= j < s.len() && s[j].0 == k2 {
                let j = choose|j: int| 0 <= j < s.len() && s[j].0 == k2;
                lemma_value_at(s, j);
                lemma_value_at(t, j);
            } else {
                lemma_value_absent(s, k2);
                assert forall|j: int| 0 <= j < t.len() implies t[j].0 != k2 by {
                    if j != i {
                        assert(t[j] == s[j]);
                    }
                }
                lemma_value_absent(t, k2);
            }
        }
    } else {
        assert(t.drop_last() =~= s);
    }
}

/// The renders of a document's pages, by page number.
pub struct PageImageMap {
    pub pages: Vec<(u16, Image)>,
}

pub type PagesView = Seq<(u16, ImageView)>;

impl View for PageImageMap {
    type V = PagesView;

    open spec fn view(&self) -> PagesView {
        self.pages@.map_values(|e: (u16, Image)| (e.0, e.1@))
    }
}

impl PageImageMap {
    /// A map with no page.
    pub fn new() -> (r: PageImageMap)
        ensures
            r@ == Seq::<(u16, ImageView)>::empty(),
    {
        PageImageMap { pages: Vec::new() }
    }

    pub open spec fn wf(&self) -> bool {
        unique_keys(self@)
    }

    /// The render of page `nr`, if any.
    pub fn get(&self, nr: u16) -> (r: Option<&Image>)
        requires
            self.wf(),
        ensures
            match value_of(self@, nr) {
                Some(v) => r is Some && r->Some_0@ == v,
                None => r is None,
            },
    {
        let mut i: usize = 0;
        while i < self.pages.len()
            invariant
                self.wf(),
                i <= self@.len(),
                self@.len() == self.pages@.len(),
                forall|j: int| 0 <= j < i ==> self@[j].0 != nr,
            decreases self@.len() - i,
        {
            if self.pages[i].0 == nr {
                proof {
                    assert(self@[i as int].0 == nr);
                    assert forall|j: int| i < j < self@.len() implies self@[j].0 != self@[i as int].0 by {
                        assert(self@[i as int].0 != self@[j].0);
                    }
                    lemma_value_at(self@, i as int);
                }
                return Some(&self.pages[i].1);
            }
            i = i + 1;
        }
        proof {
            lemma_value_absent(self@, nr);
        }
        None
    }

    /// Stores `image` as the render of page `nr`.
    pub fn put(&mut self, nr: u16, image: Image)
        requires
            old(self).wf(),
        ensures
            final(self).wf(),
            value_of(final(self)@, nr) == Some(image@),
            forall|k: u16| k != nr ==> #[trigger] value_of(final(self)@, k) == value_of(old(self)@, k),
            (forall|j: int| 0 <= j < old(self)@.len() ==> old(self)@[j].0 != nr) ==> final(self)@ == old(self)@.push(
                (nr, image@),
            ),
    {
        let ghost s = self@;
        let ghost ps = self.pages@;
        let ghost iv = image@;
        let mut i: usize = 0;
        while i < self.pages.len()
            invariant
                unique_keys(s),
                self.pages@ == ps,
                s == ps.map_values(|e: (u16, Image)| (e.0, e.1@)),
                iv == image@,
                self@ == s,
                s == old(self)@,
                i <= s.len(),
                s.len() == self.pages@.len(),
                forall|j: int| 0 <= j < i ==> s[j].0 != nr,
            decreases s.len() - i,
        {
            if self.pages[i].0 == nr {
                assert(s[i as int].0 == nr);
                let ghost e = (nr, image);
                self.pages.set(i, (nr, image));
                proof {
                    assert(self.pages@ == ps.update(i as int, e));
                    assert(self@ =~= s.update(i as int, (nr, iv)));
                    lemma_put(s, self@, nr, iv);
                    assert(forall|k: u16| k != nr ==> #[trigger] value_of(self@, k) == value_of(s, k));
                    assert(s == old(self)@);
                }
                return;
            }
            i = i + 1;
        }
        self.pages.push((nr, image));
        proof {
            assert(self@ =~= s.push((nr, iv)));
            lemma_put(s, self@, nr, iv);
        }
    }
}

/// The render cache: each document's name with the renders of its pages.
pub struct DocumentMap {
    pub documents: Vec<(String, PageImageMap)>,
}

pub type CacheView = Seq<(Seq<char>, PagesView)>;

impl View for DocumentMap {
    type V = CacheView;

    open spec fn view(&self) -> CacheView {
        self.documents@.map_values(|e: (String, PageImageMap)| (e.0@, e.1@))
    }
}

/// The render cached for page `nr` of document `name`.
pub open spec fn cached_image(c: CacheView, name: Seq<char>, nr: u16) -> Option<ImageView> {
    match value_of(c, name) {
        Some(pages) => value_of(pages, nr),
        None => None,
    }
}

impl DocumentMap {
    /// An empty cache.
    pub fn new() -> (r: DocumentMap)
        ensures
            r@ == Seq::<(Seq<char>, PagesView)>::empty(),
            r.wf(),
    {
        DocumentMap { documents: Vec::new() }
    }

    pub open spec fn wf(&self) -> bool {
        &&& unique_keys(self@)
        &&& forall|i: int| 0 <= i < self.documents@.len() ==> (#[trigger] self.documents@[i]).1.wf()
    }

    /// Position of the entry of `name`, if any.
    fn position(&self, name: &String) -> (r: Option<usize>)
        requires
            self.wf(),
        ensures
            match r {
                Some(i) => i < self@.len() && self@[i as int].0 == name@ && value_of(self@, name@) == Some(
                    self@[i as int].1,
                ),
                None => value_of(self@, name@) is None && forall|j: int| 0 <= j < self@.len() ==> self@[j].0 != name@,
            },
    {
        let mut i: usize = 0;
        while i < self.documents.len()
            invariant
                self.wf(),
                i <= self@.len(),
                self@.len() == self.documents@.len(),
                forall|j: int| 0 <= j < i ==> self@[j].0 != name@,
            decreases self@.len() - i,
        {
            if self.documents[i].0 == *name {
                proof {
                    assert(self@[i as int].0 == name@);
                    assert forall|j: int| i < j < self@.len() implies self@[j].0 != self@[i as int].0 by {
                        assert(self@[i as int].0 != self@[j].0);
                    }
                    lemma_value_at(self@, i as int);
                }
                return Some(i);
            }
            i = i + 1;
        }
        proof {
            lemma_value_absent(self@, name@);
        }
        None
    }

    /// Adds an empty entry for `name` unless it has one.
    pub fn ensure_document(&mut self, name: &String)
        requires
            old(self).wf(),
        ensures
            final(self).wf(),
            value_of(final(self)@, name@) == Some(
                match value_of(old(self)@, name@) {
                    Some(p) => p,
                    None => Seq::<(u16, ImageView)>::empty(),
                },
            ),
            forall|k: Seq<char>| k != name@ ==> #[trigger] value_of(final(self)@, k) == value_of(old(self)@, k),
    {
        match self.position(name) {
            Some(_) => {},
            None => {
                let ghost s = self@;
                let m = PageImageMap::new();
                let ghost mv = m@;
                self.documents.push((name.clone(), m));
                proof {
                    assert(self@ =~= s.push((name@, mv)));
                    lemma_put(s, self@, name@, mv);
                }
            },
        }
    }

    /// The render cached for page `nr` of document `name`, if any.
    pub fn get(&self, name: &String, nr: u16) -> (r: Option<&Image>)
        requires
            self.wf(),
        ensures
            match cached_image(self@, name@, nr) {
                Some(v) => r is Some && r->Some_0@ == v,
                None => r is None,
            },
    {
        match self.position(name) {
            Some(i) => {
                assert(self.documents@[i as int].1.wf());
                self.documents[i].1.get(nr)
            },
            None => None,
        }
    }

    /// Records `image` as the render of page `nr` of document `name`.
    pub fn record(&mut self, name: &String, nr: u16, image: Image)
        requires
            old(self).wf(),
        ensures
            final(self).wf(),
            cached_image(final(self)@, name@, nr) == Some(image@),
            forall|k: Seq<char>, n: u16| (k != name@ || n != nr) ==> #[trigger] cached_image(final(self)@, k, n)
                == cached_image(old(self)@, k, n),
    {
        self.ensure_document(name);
        let ghost s = self@;
        let i = match self.position(name) {
            Some(i) => i,
            None => {
                assert(false);
                return;
            },
        };
        let ghost es = self.documents@;
        let mut entry = (String::new(), PageImageMap::new());
        self.documents.set_and_swap(i, &mut entry);
        assert(es[i as int].1.wf());
        let ghost before = entry.1@;
        entry.1.put(nr, image);
        let ghost ev = (entry.0@, entry.1@);
        assert(entry.1.wf());
        let ghost ent = entry;
        self.documents.set_and_swap(i, &mut entry);
        proof {
            assert(self.documents@ == es.update(i as int, ent));
            assert(self@ =~= s.update(i as int, (name@, ent.1@)));
            lemma_put(s, self@, name@, ent.1@);
            assert forall|j: int| 0 <= j < self.documents@.len() implies (#[trigger] self.documents@[j]).1.wf() by {
                if j != i {
                    assert(self.documents@[j] == es[j]);
                }
            }
        }
    }
}

/// A page record: page number, the two digests, width and height.
pub open spec fn enc_page_rec(e: (u16, ImageView)) -> Seq<u8> {
    le_u16(e.0) + enc_str(e.1.rendered_avif) + enc_str(e.1.rendered_jpeg) + le_u16(e.1.width) + le_u16(e.1.height)
}

pub open spec fn parse_page_rec(b: Seq<u8>, p0: int) -> Result<((u16, ImageView), int), DecodeError> {
    match parse_u16(b, p0) {
        Err(e) => Err(e),
        Ok((nr, p1)) => match parse_str(b, p1) {
            Err(e) => Err(e),
            Ok((rendered_avif, p2)) => match parse_str(b, p2) {
                Err(e) => Err(e),
                Ok((rendered_jpeg, p3)) => match parse_u16(b, p3) {
                    Err(e) => Err(e),
                    Ok((width, p4)) => match parse_u16(b, p4) {
                        Err(e) => Err(e),
                        Ok((height, p5)) => Ok(((nr, ImageView { rendered_avif, rendered_jpeg, width, height }), p5)),
                    },
                },
            },
        },
    }
}

pub open spec fn page_rec_enc() -> spec_fn((u16, ImageView)) -> Seq<u8> {
    |e: (u16, ImageView)| enc_page_rec(e)
}

pub open spec fn page_rec_parser() -> spec_fn(Seq<u8>, int) -> Result<((u16, ImageView), int), DecodeError> {
    |b: Seq<u8>, p: int| parse_page_rec(b, p)
}

/// A document record: its name, the number of pages as a `u16`, then the page records.
pub open spec fn enc_doc(e: (Seq<char>, PagesView)) -> Seq<u8> {
    enc_str(e.0) + le_u16(e.1.len() as u16) + enc_all(e.1, page_rec_enc())
}

pub open spec fn parse_doc(b: Seq<u8>, p0: int) -> Result<((Seq<char>, PagesView), int), DecodeError> {
    match parse_str(b, p0) {
        Err(e) => Err(e),
        Ok((name, p1)) => match parse_u16(b, p1) {
            Err(e) => Err(e),
            Ok((n, p2)) => match parse_all(b, p2, n as nat, page_rec_parser()) {
                Err(e) => Err(e),
                Ok((pages, p3)) => Ok(((name, pages), p3)),
            },
        },
    }
}

pub open spec fn doc_enc() -> spec_fn((Seq<char>, PagesView)) -> Seq<u8> {
    |e: (Seq<char>, PagesView)| enc_doc(e)
}

pub open spec fn doc_parser() -> spec_fn(Seq<u8>, int) -> Result<((Seq<char>, PagesView), int), DecodeError> {
    |b: Seq<u8>, p: int| parse_doc(b, p)
}

/// The bytes of a cache: the number of documents as a `u16`, then the document records.
pub open spec fn enc_cache(v: CacheView) -> Seq<u8> {
    le_u16(v.len() as u16) + enc_all(v, doc_enc())
}

/// Reads a cache from the start of `b`, records as stored and in stored order.
pub open spec fn parse_cache(b: Seq<u8>) -> Result<CacheView, DecodeError> {
    match parse_u16(b, 0) {
        Err(e) => Err(e),
        Ok((n, p1)) => match parse_all(b, p1, n as nat, doc_parser()) {
            Err(e) => Err(e),
            Ok((docs, _p2)) => Ok(docs),
        },
    }
}

/// Every count fits its `u16` field and every digest or name its `u32` length.
pub open spec fn cache_fits(v: CacheView) -> bool {
    &&& v.len() <= u16::MAX
    &&& forall|i: int|
        0 <= i < v.len() ==> {
            &&& str_fits((#[trigger] v[i]).0)
            &&& v[i].1.len() <= u16::MAX
            &&& forall|j: int|
                0 <= j < v[i].1.len() ==> str_fits((#[trigger] v[i].1[j]).1.rendered_avif) && str_fits(
                    v[i].1[j].1.rendered_jpeg,
                )
        }
}

pub proof fn lemma_page_rec_round_trip(e: (u16, ImageView), pre: Seq<u8>, post: Seq<u8>)
    requires
        str_fits(e.1.rendered_avif),
        str_fits(e.1.rendered_jpeg),
    ensures
        parse_page_rec(pre + enc_page_rec(e) + post, pre.len() as int) == Ok::<((u16, ImageView), int), DecodeError>(
            (e, pre.len() as int + enc_page_rec(e).len()),
        ),
{
    let b = pre + enc_page_rec(e) + post;
    let s1 = le_u16(e.0);
    let s2 = enc_str(e.1.rendered_avif);
    let s3 = enc_str(e.1.rendered_jpeg);
    let s4 = le_u16(e.1.width);
    let s5 = le_u16(e.1.height);
    let p0 = pre.len() as int;
    let p1 = p0 + 2;
    let p2 = p1 + s2.len();
    let p3 = p2 + s3.len();
    let p4 = p3 + 2;
    let p5 = p4 + 2;
    assert(parse_u16(b, p0) == Ok::<(u16, int), DecodeError>((e.0, p1))) by {
        assert(b =~= pre + s1 + (s2 + s3 + s4 + s5 + post));
        lemma_u16_round_trip(e.0, pre, s2 + s3 + s4 + s5 + post);
    }
    assert(parse_str(b, p1) == Ok::<(Seq<char>, int), DecodeError>((e.1.rendered_avif, p2))) by {
        assert(b =~= (pre + s1) + s2 + (s3 + s4 + s5 + post));
        lemma_str_round_trip(e.1.rendered_avif, pre + s1, s3 + s4 + s5 + post);
    }
    assert(parse_str(b, p2) == Ok::<(Seq<char>, int), DecodeError>((e.1.rendered_jpeg, p3))) by {
        assert(b =~= (pre + s1 + s2) + s3 + (s4 + s5 + post));
        lemma_str_round_trip(e.1.rendered_jpeg, pre + s1 + s2, s4 + s5 + post);
    }
    assert(parse_u16(b, p3) == Ok::<(u16, int), DecodeError>((e.1.width, p4))) by {
        assert(b =~= (pre + s1 + s2 + s3) + s4 + (s5 + post));
        lemma_u16_round_trip(e.1.width, pre + s1 + s2 + s3, s5 + post);
    }
    assert(parse_u16(b, p4) == Ok::<(u16, int), DecodeError>((e.1.height, p5))) by {
        assert(b =~= (pre + s1 + s2 + s3 + s4) + s5 + post);
        lemma_u16_round_trip(e.1.height, pre + s1 + s2 + s3 + s4, post);
    }
}

pub proof fn lemma_doc_round_trip(e: (Seq<char>, PagesView), pre: Seq<u8>, post: Seq<u8>)
    requires
        str_fits(e.0),
        e.1.len() <= u16::MAX,
        forall|j: int|
            0 <= j < e.1.len() ==> str_fits((#[trigger] e.1[j]).1.rendered_avif) && str_fits(e.1[j].1.rendered_jpeg),
    ensures
        parse_doc(pre + enc_doc(e) + post, pre.len() as int) == Ok::<((Seq<char>, PagesView), int), DecodeError>(
            (e, pre.len() as int + enc_doc(e).len()),
        ),
{
    let b = pre + enc_doc(e) + post;
    let s1 = enc_str(e.0);
    let n = e.1.len() as u16;
    let s2 = le_u16(n);
    let s3 = enc_all(e.1, page_rec_enc());
    assert(b =~= pre + s1 + (s2 + s3 + post));
    lemma_str_round_trip(e.0, pre, s2 + s3 + post);
    assert(b =~= (pre + s1) + s2 + (s3 + post));
    lemma_u16_round_trip(n, pre + s1, s3 + post);
    assert(reads_back(e.1, page_rec_enc(), page_rec_parser())) by {
        assert forall|i: int, pre2: Seq<u8>, post2: Seq<u8>|
            0 <= i < e.1.len() implies #[trigger] page_rec_parser()(pre2 + page_rec_enc()(e.1[i]) + post2, pre2.len() as int)
                == Ok::<((u16, ImageView), int), DecodeError>((e.1[i], pre2.len() as int + page_rec_enc()(e.1[i]).len())) by {
            lemma_page_rec_round_trip(e.1[i], pre2, post2);
        }
    }
    assert(b =~= (pre + s1 + s2) + s3 + post);
    lemma_parse_all_round_trip(e.1, pre + s1 + s2, post, page_rec_enc(), page_rec_parser());
}

/// Reading back a written cache gives the records that were written, in their order.
pub proof fn lemma_cache_round_trip(v: CacheView)
    requires
        cache_fits(v),
    ensures
        parse_cache(enc_cache(v)) == Ok::<CacheView, DecodeError>(v),
{
    let e = Seq::<u8>::empty();
    let n = v.len() as u16;
    let b = enc_cache(v);
    assert(b =~= e + le_u16(n) + enc_all(v, doc_enc()));
    lemma_u16_round_trip(n, e, enc_all(v, doc_enc()));
    assert(reads_back(v, doc_enc(), doc_parser())) by {
        assert forall|i: int, pre2: Seq<u8>, post2: Seq<u8>|
            0 <= i < v.len() implies #[trigger] doc_parser()(pre2 + doc_enc()(v[i]) + post2, pre2.len() as int)
                == Ok::<((Seq<char>, PagesView), int), DecodeError>((v[i], pre2.len() as int + doc_enc()(v[i]).len())) by {
            lemma_doc_round_trip(v[i], pre2, post2);
        }
    }
    assert(b =~= le_u16(n) + enc_all(v, doc_enc()) + e);
    lemma_parse_all_round_trip(v, le_u16(n), e, doc_enc(), doc_parser());
}

/// Reads a page record at `*pos` and moves past it.
fn deserialize_page_rec(b: &[u8], pos: &mut usize) -> (r: Result<(u16, Image), DecodeError>)
    ensures
        match parse_page_rec(b@, *old(pos) as int) {
            Ok((v, q)) => r is Ok && (r->Ok_0.0, r->Ok_0.1@) == v && *final(pos) == q,
            Err(e) => r == Err::<(u16, Image), DecodeError>(e),
        },
{
    let nr = match deserialize_u16(b, pos) {
        Ok(v) => v,
        Err(e) => return Err(e),
    };
    let rendered_avif = match deserialize_string(b, pos) {
        Ok(v) => v,
        Err(e) => return Err(e),
    };
    let rendered_jpeg = match deserialize_string(b, pos) {
        Ok(v) => v,
        Err(e) => return Err(e),
    };
    let width = match deserialize_u16(b, pos) {
        Ok(v) => v,
        Err(e) => return Err(e),
    };
    let height = match deserialize_u16(b, pos) {
        Ok(v) => v,
        Err(e) => return Err(e),
    };
    Ok((nr, Image { rendered_avif, rendered_jpeg, width, height }))
}

/// Reads a document record at `*pos` and moves past it. A page stored
/// twice keeps its last record.
fn deserialize_doc(b: &[u8], pos: &mut usize) -> (r: Result<(String, PageImageMap), DecodeError>)
    ensures
        match parse_doc(b@, *old(pos) as int) {
            Ok((v, q)) => r is Ok && {
                let (name, pages) = r->Ok_0;
                &&& name@ == v.0
                &&& pages.wf()
                &&& forall|k: u16| #[trigger] value_of(pages@, k) == value_of(v.1, k)
                &&& unique_keys(v.1) ==> pages@ == v.1
                &&& *final(pos) == q
            },
            Err(e) => r == Err::<(String, PageImageMap), DecodeError>(e),
        },
{
    let ghost p0 = *pos as int;
    let name = match deserialize_string(b, pos) {
        Ok(v) => v,
        Err(e) => return Err(e),
    };
    let ghost p1 = *pos as int;
    let n = match deserialize_u16(b, pos) {
        Ok(n) => n,
        Err(e) => return Err(e),
    };
    let ghost p2 = *pos as int;
    let mut pages = PageImageMap::new();
    let ghost mut read: PagesView = Seq::empty();
    let mut i: u16 = 0;
    while i < n
        invariant
            i <= n,
            p0 == *old(pos) as int,
            parse_str(b@, p0) == Ok::<(Seq<char>, int), DecodeError>((name@, p1)),
            parse_u16(b@, p1) == Ok::<(u16, int), DecodeError>((n, p2)),
            parse_all(b@, p2, i as nat, page_rec_parser()) == Ok::<(PagesView, int), DecodeError>((read, *pos as int)),
            pages.wf(),
            forall|k: u16| #[trigger] value_of(pages@, k) == value_of(read, k),
            unique_keys(read) ==> pages@ == read,
        decreases n - i,
    {
        match deserialize_page_rec(b, pos) {
            Ok((nr, image)) => {
                let ghost ev = (nr, image@);
                let ghost old_read = read;
                pages.put(nr, image);
                proof {
                    read = read.push(ev);
                    assert(read.drop_last() =~= old_read);
                    if unique_keys(read) {
                        assert(unique_keys(old_read)) by {
                            assert forall|a: int, c: int| 0 <= a < c < old_read.len() implies #[trigger] old_read[a].0
                                != #[trigger] old_read[c].0 by {
                                assert(old_read[a] == read[a] && old_read[c] == read[c]);
                            }
                        }
                        assert forall|j: int| 0 <= j < old_read.len() implies old_read[j].0 != nr by {
                            assert(read[j] == old_read[j]);
                            assert(read[old_read.len() as int] == ev);
                            assert(read[j].0 != read[old_read.len() as int].0);
                        }
                    }
                }
            },
            Err(e) => {
                proof {
                    lemma_parse_all_err(b@, p2, (i + 1) as nat, n as nat, page_rec_parser());
                }
                return Err(e);
            },
        }
        i = i + 1;
    }
    Ok((name, pages))
}

impl DocumentMap {
    /// Stores `pages` as the renders of document `name`, replacing what was there.
    fn insert_document(&mut self, name: String, pages: PageImageMap)
        requires
            old(self).wf(),
            pages.wf(),
        ensures
            final(self).wf(),
            value_of(final(self)@, name@) == Some(pages@),
            forall|k: Seq<char>| k != name@ ==> #[trigger] value_of(final(self)@, k) == value_of(old(self)@, k),
            (forall|j: int| 0 <= j < old(self)@.len() ==> old(self)@[j].0 != name@) ==> final(self)@ == old(
                self,
            )@.push((name@, pages@)),
    {
        let ghost s = self@;
        let ghost es = self.documents@;
        let ghost e = (name, pages);
        let ghost ev = (name@, pages@);
        match self.position(&name) {
            Some(i) => {
                self.documents.set(i, (name, pages));
                proof {
                    assert(self.documents@ == es.update(i as int, e));
                    assert(self@ =~= s.update(i as int, ev));
                    lemma_put(s, self@, ev.0, ev.1);
                    assert forall|j: int| 0 <= j < self.documents@.len() implies (#[trigger] self.documents@[j]).1.wf() by {
                        if j != i {
                            assert(self.documents@[j] == es[j]);
                        }
                    }
                }
            },
            None => {
                self.documents.push((name, pages));
                proof {
                    assert(self.documents@ == es.push(e));
                    assert(self@ =~= s.push(ev));
                    lemma_put(s, self@, ev.0, ev.1);
                    assert forall|j: int| 0 <= j < self.documents@.len() implies (#[trigger] self.documents@[j]).1.wf() by {
                        if j < es.len() {
                            assert(self.documents@[j] == es[j]);
                        }
                    }
                }
            },
        }
    }

    /// Reads a cache from the start of `b`. A document stored twice keeps its
    /// last record; within a record, so does a page.
    pub fn deserialize(b: &[u8]) -> (r: Result<DocumentMap, DecodeError>)
        ensures
            match parse_cache(b@) {
                Ok(docs) => r is Ok && {
                    let c = r->Ok_0;
                    &&& c.wf()
                    &&& forall|k: Seq<char>, n: u16| #[trigger] cached_image(c@, k, n) == cached_image(docs, k, n)
                    &&& (unique_keys(docs) && forall|i: int| 0 <= i < docs.len() ==> unique_keys(
                        #[trigger] docs[i].1,
                    )) ==> c@ == docs
                },
                Err(e) => r == Err::<DocumentMap, DecodeError>(e),
            },
    {
        let mut pos: usize = 0;
        let n = match deserialize_u16(b, &mut pos) {
            Ok(n) => n,
            Err(e) => return Err(e),
        };
        let ghost p1 = pos as int;
        let mut docs = DocumentMap::new();
        let ghost mut read: CacheView = Seq::empty();
        let mut i: u16 = 0;
        while i < n
            invariant
                i <= n,
                parse_u16(b@, 0) == Ok::<(u16, int), DecodeError>((n, p1)),
                parse_all(b@, p1, i as nat, doc_parser()) == Ok::<(CacheView, int), DecodeError>((read, pos as int)),
                docs.wf(),
                forall|k: Seq<char>, nr: u16| #[trigger] cached_image(docs@, k, nr) == cached_image(read, k, nr),
                (unique_keys(read) && forall|t: int| 0 <= t < read.len() ==> unique_keys(#[trigger] read[t].1))
                    ==> docs@ == read,
            decreases n - i,
        {
            let ghost q = pos as int;
            match deserialize_doc(b, &mut pos) {
                Ok((name, pages)) => {
                    let ghost v = parse_doc(b@, q)->Ok_0.0;
                    let ghost rv = (name@, pages@);
                    let ghost old_read = read;
                    let ghost old_docs = docs@;
                    docs.insert_document(name, pages);
                    proof {
                        read = read.push(v);
                        assert(read.drop_last() =~= old_read);
                        assert forall|k: Seq<char>, nr: u16| #[trigger] cached_image(docs@, k, nr) == cached_image(read, k, nr) by {
                            if k != rv.0 {
                                assert(value_of(docs@, k) == value_of(old_docs, k));
                                assert(cached_image(old_docs, k, nr) == cached_image(old_read, k, nr));
                            } else {
                                assert(value_of(rv.1, nr) == value_of(v.1, nr));
                            }
                        }
                        if unique_keys(read) && forall|t: int| 0 <= t < read.len() ==> unique_keys(#[trigger] read[t].1) {
                            assert(unique_keys(read[old_read.len() as int].1));
                            assert(rv.1 == v.1);
                            assert(unique_keys(old_read)) by {
                                assert forall|a: int, c: int| 0 <= a < c < old_read.len() implies #[trigger] old_read[a].0
                                    != #[trigger] old_read[c].0 by {
                                    assert(old_read[a] == read[a] && old_read[c] == read[c]);
                                }
                            }
                            assert forall|t: int| 0 <= t < old_read.len() implies unique_keys(#[trigger] old_read[t].1) by {
                                assert(old_read[t] == read[t]);
                            }
                            assert forall|j: int| 0 <= j < old_read.len() implies old_read[j].0 != rv.0 by {
                                assert(read[j] == old_read[j]);
                                assert(read[old_read.len() as int].0 == rv.0);
                            }
                            assert(docs@ =~= read);
                        }
                    }
                },
                Err(e) => {
                    proof {
                        lemma_parse_all_err(b@, p1, (i + 1) as nat, n as nat, doc_parser());
                    }
                    return Err(e);
                },
            }
            i = i + 1;
        }
        Ok(docs)
    }

    /// The persisted bytes of the cache, documents and pages in stored order.
    pub fn serialize(&self) -> (r: Vec<u8>)
        requires
            cache_fits(self@),
        ensures
            r@ == enc_cache(self@),
    {
        let mut out: Vec<u8> = Vec::new();
        write_u16(&mut out, self.documents.len() as u16);
        let mut i: usize = 0;
        while i < self.documents.len()
            invariant
                cache_fits(self@),
                i <= self@.len(),
                self@.len() == self.documents@.len(),
                out@ == le_u16(self@.len() as u16) + enc_all(self@.subrange(0, i as int), doc_enc()),
            decreases self@.len() - i,
        {
            assert(self@.subrange(0, i + 1).drop_last() =~= self@.subrange(0, i as int));
            let d = &self.documents[i];
            let ghost dv = self@[i as int];
            assert(dv == (d.0@, d.1@));
            assert(str_fits(dv.0));
            let ghost before = out@;
            write_string(&mut out, d.0.as_str());
            write_u16(&mut out, d.1.pages.len() as u16);
            let ghost mid = out@;
            let mut j: usize = 0;
            while j < d.1.pages.len()
                invariant
                    cache_fits(self@),
                    i < self@.len(),
                    dv == self@[i as int],
                    dv.1 == d.1@,
                    j <= d.1@.len(),
                    d.1@.len() == d.1.pages@.len(),
                    out@ == mid + enc_all(d.1@.subrange(0, j as int), page_rec_enc()),
                decreases d.1@.len() - j,
            {
                assert(d.1@.subrange(0, j + 1).drop_last() =~= d.1@.subrange(0, j as int));
                let e = &d.1.pages[j];
                assert(d.1@[j as int] == (e.0, e.1@));
                assert(str_fits(dv.1[j as int].1.rendered_avif) && str_fits(dv.1[j as int].1.rendered_jpeg));
                let ghost before_p = out@;
                write_u16(&mut out, e.0);
                write_string(&mut out, e.1.rendered_avif.as_str());
                write_string(&mut out, e.1.rendered_jpeg.as_str());
                write_u16(&mut out, e.1.width);
                write_u16(&mut out, e.1.height);
                assert(out@ =~= before_p + enc_page_rec((e.0, e.1@)));
                j = j + 1;
            }
            assert(d.1@.subrange(0, j as int) =~= d.1@);
            assert(out@ =~= before + enc_doc(dv));
            i = i + 1;
        }
        assert(self@.subrange(0, i as int) =~= self@);
        out
    }
}

} // verus!
