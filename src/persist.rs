//! The persisted form of a `SearchIndex`, and reading it back.

use vstd::prelude::*;
use crate::codec::{
    DecodeError, le_u16, le_u32, le_i16, enc_str, str_fits, parse_u16, parse_i16, parse_u32, parse_str, tracks,
    lemma_u16_round_trip, lemma_i16_round_trip, lemma_u32_round_trip, lemma_str_round_trip, deserialize_u16,
    deserialize_i16, deserialize_u32, deserialize_string, write_u16, write_i16, write_u32, write_string,
};
use crate::index::{
    Page, PageView, SearchResult, Match, WordMatches, WordMap, SearchIndex, IndexView, keys_sorted, lookup,
    after_all,
};

verus! {

/// The items of `s`, each encoded by `f`, one after the other.
pub open spec fn enc_all<T>(s: Seq<T>, f: spec_fn(T) -> Seq<u8>) -> Seq<u8>
    decreases s.len(),
{
    if s.len() == 0 {
        Seq::empty()
    } else {
        enc_all(s.drop_last(), f) + f(s.last())
    }
}

/// `n` items read one after the other by `f`, starting at `p`.
pub open spec fn parse_all<T>(
    b: Seq<u8>,
    p: int,
    n: nat,
    f: spec_fn(Seq<u8>, int) -> Result<(T, int), DecodeError>,
) -> Result<(Seq<T>, int), DecodeError>
    decreases n,
{
    if n == 0 {
        Ok((Seq::empty(), p))
    } else {
        match parse_all(b, p, (n - 1) as nat, f) {
            Ok((xs, q)) => match f(b, q) {
                Ok((x, r)) => Ok((xs.push(x), r)),
                Err(e) => Err(e),
            },
            Err(e) => Err(e),
        }
    }
}

/// `f` reads back, from any surrounding bytes, what `g` wrote for each item of `s`.
pub open spec fn reads_back<T>(
    s: Seq<T>,
    g: spec_fn(T) -> Seq<u8>,
    f: spec_fn(Seq<u8>, int) -> Result<(T, int), DecodeError>,
) -> bool {
    forall|i: int, pre: Seq<u8>, post: Seq<u8>|
        0 <= i < s.len() ==> #[trigger] f(pre + g(s[i]) + post, pre.len() as int) == Ok::<(T, int), DecodeError>(
            (s[i], pre.len() as int + g(s[i]).len()),
        )
}

pub proof fn lemma_parse_all_round_trip<T>(
    s: Seq<T>,
    pre: Seq<u8>,
    post: Seq<u8>,
    g: spec_fn(T) -> Seq<u8>,
    f: spec_fn(Seq<u8>, int) -> Result<(T, int), DecodeError>,
)
    requires
        reads_back(s, g, f),
    ensures
        parse_all(pre + enc_all(s, g) + post, pre.len() as int, s.len(), f) == Ok::<(Seq<T>, int), DecodeError>(
            (s, pre.len() as int + enc_all(s, g).len()),
        ),
    decreases s.len(),
{
    if s.len() == 0 {
        assert(s =~= Seq::<T>::empty());
    } else {
        let x = s.last();
        let init = s.drop_last();
        let b = pre + enc_all(s, g) + post;
        assert(reads_back(init, g, f)) by {
            assert forall|i: int, pre2: Seq<u8>, post2: Seq<u8>|
                0 <= i < init.len() implies #[trigger] f(pre2 + g(init[i]) + post2, pre2.len() as int)
                    == Ok::<(T, int), DecodeError>((init[i], pre2.len() as int + g(init[i]).len())) by {
                assert(init[i] == s[i]);
                assert(f(pre2 + g(s[i]) + post2, pre2.len() as int) == Ok::<(T, int), DecodeError>(
                    (s[i], pre2.len() as int + g(s[i]).len()),
                ));
            }
        }
        assert(b =~= pre + enc_all(init, g) + (g(x) + post));
        lemma_parse_all_round_trip(init, pre, g(x) + post, g, f);
        let pre2 = pre + enc_all(init, g);
        assert(b =~= pre2 + g(s[s.len() - 1]) + post);
        assert(f(pre2 + g(s[s.len() - 1]) + post, pre2.len() as int) == Ok::<(T, int), DecodeError>(
            (s[s.len() - 1], pre2.len() as int + g(s[s.len() - 1]).len()),
        ));
        assert(init.push(x) =~= s);
    }
}

pub proof fn lemma_parse_all_err<T>(
    b: Seq<u8>,
    p: int,
    m: nat,
    n: nat,
    f: spec_fn(Seq<u8>, int) -> Result<(T, int), DecodeError>,
)
    requires
        m <= n,
        parse_all(b, p, m, f) is Err,
    ensures
        parse_all(b, p, n, f) == parse_all(b, p, m, f),
    decreases n - m,
{
    if m < n {
        lemma_parse_all_err(b, p, m, (n - 1) as nat, f);
    }
}

pub open spec fn enc_page(p: PageView) -> Seq<u8> {
    le_u16(p.document_index) + le_u16(p.page_nr) + enc_str(p.rendered_avif) + enc_str(p.rendered_jpeg) + le_u16(
        p.width,
    ) + le_u16(p.height)
}

pub open spec fn parse_page(b: Seq<u8>, p0: int) -> Result<(PageView, int), DecodeError> {
    match parse_u16(b, p0) {
        Err(e) => Err(e),
        Ok((document_index, p1)) => match parse_u16(b, p1) {
            Err(e) => Err(e),
            Ok((page_nr, p2)) => match parse_str(b, p2) {
                Err(e) => Err(e),
                Ok((rendered_avif, p3)) => match parse_str(b, p3) {
                    Err(e) => Err(e),
                    Ok((rendered_jpeg, p4)) => match parse_u16(b, p4) {
                        Err(e) => Err(e),
                        Ok((width, p5)) => match parse_u16(b, p5) {
                            Err(e) => Err(e),
                            Ok((height, p6)) => Ok(
                                (PageView { document_index, page_nr, rendered_avif, rendered_jpeg, width, height }, p6),
                            ),
                        },
                    },
                },
            },
        },
    }
}

pub open spec fn enc_result(r: SearchResult) -> Seq<u8> {
    le_u32(r.page_index) + le_i16(r.x) + le_i16(r.y) + le_u16(r.width) + le_u16(r.height)
}

pub open spec fn parse_result(b: Seq<u8>, p0: int) -> Result<(SearchResult, int), DecodeError> {
    match parse_u32(b, p0) {
        Err(e) => Err(e),
        Ok((page_index, p1)) => match parse_i16(b, p1) {
            Err(e) => Err(e),
            Ok((x, p2)) => match parse_i16(b, p2) {
                Err(e) => Err(e),
                Ok((y, p3)) => match parse_u16(b, p3) {
                    Err(e) => Err(e),
                    Ok((width, p4)) => match parse_u16(b, p4) {
                        Err(e) => Err(e),
                        Ok((height, p5)) => Ok((SearchResult { page_index, x, y, width, height }, p5)),
                    },
                },
            },
        },
    }
}

pub open spec fn enc_match(m: Match) -> Seq<u8> {
    le_u32(m.result_index) + le_u32(m.score_bits)
}

pub open spec fn parse_match(b: Seq<u8>, p0: int) -> Result<(Match, int), DecodeError> {
    match parse_u32(b, p0) {
        Err(e) => Err(e),
        Ok((result_index, p1)) => match parse_u32(b, p1) {
            Err(e) => Err(e),
            Ok((score_bits, p2)) => Ok((Match { result_index, score_bits }, p2)),
        },
    }
}

pub open spec fn str_enc() -> spec_fn(Seq<char>) -> Seq<u8> {
    |s: Seq<char>| enc_str(s)
}

pub open spec fn str_parser() -> spec_fn(Seq<u8>, int) -> Result<(Seq<char>, int), DecodeError> {
    |b: Seq<u8>, p: int| parse_str(b, p)
}

pub open spec fn page_enc() -> spec_fn(PageView) -> Seq<u8> {
    |p: PageView| enc_page(p)
}

pub open spec fn page_parser() -> spec_fn(Seq<u8>, int) -> Result<(PageView, int), DecodeError> {
    |b: Seq<u8>, p: int| parse_page(b, p)
}

pub open spec fn result_enc() -> spec_fn(SearchResult) -> Seq<u8> {
    |r: SearchResult| enc_result(r)
}

pub open spec fn result_parser() -> spec_fn(Seq<u8>, int) -> Result<(SearchResult, int), DecodeError> {
    |b: Seq<u8>, p: int| parse_result(b, p)
}

pub open spec fn match_enc() -> spec_fn(Match) -> Seq<u8> {
    |m: Match| enc_match(m)
}

pub open spec fn match_parser() -> spec_fn(Seq<u8>, int) -> Result<(Match, int), DecodeError> {
    |b: Seq<u8>, p: int| parse_match(b, p)
}

/// A word entry: the word, the number of matches as a `u32`, then the matches.
pub open spec fn enc_word(e: (Seq<char>, Seq<Match>)) -> Seq<u8> {
    enc_str(e.0) + le_u32(e.1.len() as u32) + enc_all(e.1, match_enc())
}

pub open spec fn parse_word(b: Seq<u8>, p0: int) -> Result<((Seq<char>, Seq<Match>), int), DecodeError> {
    match parse_str(b, p0) {
        Err(e) => Err(e),
        Ok((w, p1)) => match parse_u32(b, p1) {
            Err(e) => Err(e),
            Ok((n, p2)) => match parse_all(b, p2, n as nat, match_parser()) {
                Err(e) => Err(e),
                Ok((ms, p3)) => Ok(((w, ms), p3)),
            },
        },
    }
}

pub open spec fn word_enc() -> spec_fn((Seq<char>, Seq<Match>)) -> Seq<u8> {
    |e: (Seq<char>, Seq<Match>)| enc_word(e)
}

pub open spec fn word_parser() -> spec_fn(Seq<u8>, int) -> Result<((Seq<char>, Seq<Match>), int), DecodeError> {
    |b: Seq<u8>, p: int| parse_word(b, p)
}

/// A counted list: the number of items as a `u32`, then the items.
pub open spec fn enc_counted<T>(s: Seq<T>, g: spec_fn(T) -> Seq<u8>) -> Seq<u8> {
    le_u32(s.len() as u32) + enc_all(s, g)
}

pub open spec fn parse_counted<T>(
    b: Seq<u8>,
    p: int,
    f: spec_fn(Seq<u8>, int) -> Result<(T, int), DecodeError>,
) -> Result<(Seq<T>, int), DecodeError> {
    match parse_u32(b, p) {
        Err(e) => Err(e),
        Ok((n, q)) => parse_all(b, q, n as nat, f),
    }
}

/// The bytes of an index: documents, pages, results, then words, each a counted list.
pub open spec fn enc_index(v: IndexView) -> Seq<u8> {
    enc_counted(v.documents, str_enc()) + enc_counted(v.pages, page_enc()) + enc_counted(v.results, result_enc())
        + enc_counted(v.words, word_enc())
}

/// Reads an index from the start of `b`; the word list is as stored, in
/// stored order. Bytes after the index are not read.
pub open spec fn parse_index(b: Seq<u8>) -> Result<IndexView, DecodeError> {
    match parse_counted(b, 0, str_parser()) {
        Err(e) => Err(e),
        Ok((documents, p1)) => match parse_counted(b, p1, page_parser()) {
            Err(e) => Err(e),
            Ok((pages, p2)) => match parse_counted(b, p2, result_parser()) {
                Err(e) => Err(e),
                Ok((results, p3)) => match parse_counted(b, p3, word_parser()) {
                    Err(e) => Err(e),
                    Ok((words, _p4)) => Ok(IndexView { documents, pages, results, words }),
                },
            },
        },
    }
}

pub open spec fn page_fits(p: PageView) -> bool {
    str_fits(p.rendered_avif) && str_fits(p.rendered_jpeg)
}

pub open spec fn word_fits(e: (Seq<char>, Seq<Match>)) -> bool {
    str_fits(e.0) && e.1.len() <= u32::MAX
}

/// Every count and string length of the index fits its `u32` field.
pub open spec fn index_fits(v: IndexView) -> bool {
    &&& v.documents.len() <= u32::MAX
    &&& v.pages.len() <= u32::MAX
    &&& v.results.len() <= u32::MAX
    &&& v.words.len() <= u32::MAX
    &&& forall|i: int| 0 <= i < v.documents.len() ==> str_fits(#[trigger] v.documents[i])
    &&& forall|i: int| 0 <= i < v.pages.len() ==> page_fits(#[trigger] v.pages[i])
    &&& forall|i: int| 0 <= i < v.words.len() ==> word_fits(#[trigger] v.words[i])
}

#[verifier::rlimit(50)]
pub proof fn lemma_page_round_trip(v: PageView, pre: Seq<u8>, post: Seq<u8>)
    requires
        page_fits(v),
    ensures
        parse_page(pre + enc_page(v) + post, pre.len() as int) == Ok::<(PageView, int), DecodeError>(
            (v, pre.len() as int + enc_page(v).len()),
        ),
{
    let b = pre + enc_page(v) + post;
    let s1 = le_u16(v.document_index);
    let s2 = le_u16(v.page_nr);
    let s3 = enc_str(v.rendered_avif);
    let s4 = enc_str(v.rendered_jpeg);
    let s5 = le_u16(v.width);
    let s6 = le_u16(v.height);
    let p0 = pre.len() as int;
    let p1 = p0 + 2;
    let p2 = p1 + 2;
    let p3 = p2 + s3.len();
    let p4 = p3 + s4.len();
    let p5 = p4 + 2;
    let p6 = p5 + 2;
    assert(parse_u16(b, p0) == Ok::<(u16, int), DecodeError>((v.document_index, p1))) by {
        assert(b =~= pre + s1 + (s2 + s3 + s4 + s5 + s6 + post));
        lemma_u16_round_trip(v.document_index, pre, s2 + s3 + s4 + s5 + s6 + post);
    }
    assert(parse_u16(b, p1) == Ok::<(u16, int), DecodeError>((v.page_nr, p2))) by {
        assert(b =~= (pre + s1) + s2 + (s3 + s4 + s5 + s6 + post));
        lemma_u16_round_trip(v.page_nr, pre + s1, s3 + s4 + s5 + s6 + post);
    }
    assert(parse_str(b, p2) == Ok::<(Seq<char>, int), DecodeError>((v.rendered_avif, p3))) by {
        assert(b =~= (pre + s1 + s2) + s3 + (s4 + s5 + s6 + post));
        lemma_str_round_trip(v.rendered_avif, pre + s1 + s2, s4 + s5 + s6 + post);
    }
    assert(parse_str(b, p3) == Ok::<(Seq<char>, int), DecodeError>((v.rendered_jpeg, p4))) by {
        assert(b =~= (pre + s1 + s2 + s3) + s4 + (s5 + s6 + post));
        lemma_str_round_trip(v.rendered_jpeg, pre + s1 + s2 + s3, s5 + s6 + post);
    }
    assert(parse_u16(b, p4) == Ok::<(u16, int), DecodeError>((v.width, p5))) by {
        assert(b =~= (pre + s1 + s2 + s3 + s4) + s5 + (s6 + post));
        lemma_u16_round_trip(v.width, pre + s1 + s2 + s3 + s4, s6 + post);
    }
    assert(parse_u16(b, p5) == Ok::<(u16, int), DecodeError>((v.height, p6))) by {
        assert(b =~= (pre + s1 + s2 + s3 + s4 + s5) + s6 + post);
        lemma_u16_round_trip(v.height, pre + s1 + s2 + s3 + s4 + s5, post);
    }
}

pub proof fn lemma_result_round_trip(v: SearchResult, pre: Seq<u8>, post: Seq<u8>)
    ensures
        parse_result(pre + enc_result(v) + post, pre.len() as int) == Ok::<(SearchResult, int), DecodeError>(
            (v, pre.len() as int + enc_result(v).len()),
        ),
{
    let b = pre + enc_result(v) + post;
    let s1 = le_u32(v.page_index);
    let s2 = le_i16(v.x);
    let s3 = le_i16(v.y);
    let s4 = le_u16(v.width);
    let s5 = le_u16(v.height);
    assert(b =~= pre + s1 + (s2 + s3 + s4 + s5 + post));
    lemma_u32_round_trip(v.page_index, pre, s2 + s3 + s4 + s5 + post);
    assert(b =~= (pre + s1) + s2 + (s3 + s4 + s5 + post));
    lemma_i16_round_trip(v.x, pre + s1, s3 + s4 + s5 + post);
    assert(b =~= (pre + s1 + s2) + s3 + (s4 + s5 + post));
    lemma_i16_round_trip(v.y, pre + s1 + s2, s4 + s5 + post);
    assert(b =~= (pre + s1 + s2 + s3) + s4 + (s5 + post));
    lemma_u16_round_trip(v.width, pre + s1 + s2 + s3, s5 + post);
    assert(b =~= (pre + s1 + s2 + s3 + s4) + s5 + post);
    lemma_u16_round_trip(v.height, pre + s1 + s2 + s3 + s4, post);
}

pub proof fn lemma_match_round_trip(v: Match, pre: Seq<u8>, post: Seq<u8>)
    ensures
        parse_match(pre + enc_match(v) + post, pre.len() as int) == Ok::<(Match, int), DecodeError>(
            (v, pre.len() as int + enc_match(v).len()),
        ),
{
    let b = pre + enc_match(v) + post;
    let s1 = le_u32(v.result_index);
    let s2 = le_u32(v.score_bits);
    assert(b =~= pre + s1 + (s2 + post));
    lemma_u32_round_trip(v.result_index, pre, s2 + post);
    assert(b =~= (pre + s1) + s2 + post);
    lemma_u32_round_trip(v.score_bits, pre + s1, post);
}

pub proof fn lemma_counted_round_trip<T>(
    s: Seq<T>,
    pre: Seq<u8>,
    post: Seq<u8>,
    g: spec_fn(T) -> Seq<u8>,
    f: spec_fn(Seq<u8>, int) -> Result<(T, int), DecodeError>,
)
    requires
        reads_back(s, g, f),
        s.len() <= u32::MAX,
    ensures
        parse_counted(pre + enc_counted(s, g) + post, pre.len() as int, f) == Ok::<(Seq<T>, int), DecodeError>(
            (s, pre.len() as int + enc_counted(s, g).len()),
        ),
{
    let b = pre + enc_counted(s, g) + post;
    let n = s.len() as u32;
    assert(b =~= pre + le_u32(n) + (enc_all(s, g) + post));
    lemma_u32_round_trip(n, pre, enc_all(s, g) + post);
    assert(b =~= (pre + le_u32(n)) + enc_all(s, g) + post);
    lemma_parse_all_round_trip(s, pre + le_u32(n), post, g, f);
}

pub proof fn lemma_word_round_trip(v: (Seq<char>, Seq<Match>), pre: Seq<u8>, post: Seq<u8>)
    requires
        word_fits(v),
    ensures
        parse_word(pre + enc_word(v) + post, pre.len() as int) == Ok::<((Seq<char>, Seq<Match>), int), DecodeError>(
            (v, pre.len() as int + enc_word(v).len()),
        ),
{
    let b = pre + enc_word(v) + post;
    let s1 = enc_str(v.0);
    let rest = enc_counted(v.1, match_enc());
    assert(b =~= pre + s1 + (rest + post));
    lemma_str_round_trip(v.0, pre, rest + post);
    assert(b =~= (pre + s1) + rest + post);
    assert(reads_back(v.1, match_enc(), match_parser())) by {
        assert forall|i: int, pre2: Seq<u8>, post2: Seq<u8>|
            0 <= i < v.1.len() implies #[trigger] match_parser()(pre2 + match_enc()(v.1[i]) + post2, pre2.len() as int)
                == Ok::<(Match, int), DecodeError>((v.1[i], pre2.len() as int + match_enc()(v.1[i]).len())) by {
            lemma_match_round_trip(v.1[i], pre2, post2);
        }
    }
    lemma_counted_round_trip(v.1, pre + s1, post, match_enc(), match_parser());
}

/// Reading back what was written gives the index that was written: its
/// documents, pages, results and word entries, in their order.
pub proof fn lemma_index_round_trip(v: IndexView)
    requires
        index_fits(v),
    ensures
        parse_index(enc_index(v)) == Ok::<IndexView, DecodeError>(v),
{
    let c1 = enc_counted(v.documents, str_enc());
    let c2 = enc_counted(v.pages, page_enc());
    let c3 = enc_counted(v.results, result_enc());
    let c4 = enc_counted(v.words, word_enc());
    let b = enc_index(v);
    let e = Seq::<u8>::empty();
    assert(reads_back(v.documents, str_enc(), str_parser())) by {
        assert forall|i: int, pre2: Seq<u8>, post2: Seq<u8>|
            0 <= i < v.documents.len() implies #[trigger] str_parser()(pre2 + str_enc()(v.documents[i]) + post2, pre2.len() as int)
                == Ok::<(Seq<char>, int), DecodeError>((v.documents[i], pre2.len() as int + str_enc()(v.documents[i]).len())) by {
            lemma_str_round_trip(v.documents[i], pre2, post2);
        }
    }
    assert(reads_back(v.pages, page_enc(), page_parser())) by {
        assert forall|i: int, pre2: Seq<u8>, post2: Seq<u8>|
            0 <= i < v.pages.len() implies #[trigger] page_parser()(pre2 + page_enc()(v.pages[i]) + post2, pre2.len() as int)
                == Ok::<(PageView, int), DecodeError>((v.pages[i], pre2.len() as int + page_enc()(v.pages[i]).len())) by {
            lemma_page_round_trip(v.pages[i], pre2, post2);
        }
    }
    assert(reads_back(v.results, result_enc(), result_parser())) by {
        assert forall|i: int, pre2: Seq<u8>, post2: Seq<u8>|
            0 <= i < v.results.len() implies #[trigger] result_parser()(pre2 + result_enc()(v.results[i]) + post2, pre2.len() as int)
                == Ok::<(SearchResult, int), DecodeError>((v.results[i], pre2.len() as int + result_enc()(v.results[i]).len())) by {
            lemma_result_round_trip(v.results[i], pre2, post2);
        }
    }
    assert(reads_back(v.words, word_enc(), word_parser())) by {
        assert forall|i: int, pre2: Seq<u8>, post2: Seq<u8>|
            0 <= i < v.words.len() implies #[trigger] word_parser()(pre2 + word_enc()(v.words[i]) + post2, pre2.len() as int)
                == Ok::<((Seq<char>, Seq<Match>), int), DecodeError>((v.words[i], pre2.len() as int + word_enc()(v.words[i]).len())) by {
            lemma_word_round_trip(v.words[i], pre2, post2);
        }
    }
    assert(b =~= e + c1 + (c2 + c3 + c4));
    lemma_counted_round_trip(v.documents, e, c2 + c3 + c4, str_enc(), str_parser());
    assert(b =~= c1 + c2 + (c3 + c4));
    lemma_counted_round_trip(v.pages, c1, c3 + c4, page_enc(), page_parser());
    assert(b =~= (c1 + c2) + c3 + c4);
    lemma_counted_round_trip(v.results, c1 + c2, c4, result_enc(), result_parser());
    assert(b =~= (c1 + c2 + c3) + c4 + e);
    lemma_counted_round_trip(v.words, c1 + c2 + c3, e, word_enc(), word_parser());
}

/// Reads a counted list of strings at `*pos` and moves past it.
pub fn deserialize_vec_string(b: &[u8], pos: &mut usize) -> (r: Result<Vec<String>, DecodeError>)
    ensures
        match parse_counted(b@, *old(pos) as int, str_parser()) {
            Ok((v, q)) => r is Ok && r->Ok_0@.map_values(|s: String| s@) == v && *final(pos) == q,
            Err(e) => r == Err::<Vec<String>, DecodeError>(e),
        },
{
    let n = match deserialize_u32(b, pos) {
        Ok(n) => n,
        Err(e) => return Err(e),
    };
    let ghost p0 = *pos as int;
    let mut out: Vec<String> = Vec::new();
    assert(out@.map_values(|s: String| s@) =~= Seq::<Seq<char>>::empty());
    let mut i: u32 = 0;
    while i < n
        invariant
            i <= n,
            parse_u32(b@, *old(pos) as int) == Ok::<(u32, int), DecodeError>((n, p0)),
            parse_all(b@, p0, i as nat, str_parser()) == Ok::<(Seq<Seq<char>>, int), DecodeError>(
                (out@.map_values(|s: String| s@), *pos as int),
            ),
        decreases n - i,
    {
        let ghost before = out@;
        match deserialize_string(b, pos) {
            Ok(s) => {
                out.push(s);
                assert(out@.map_values(|s: String| s@) =~= before.map_values(|s: String| s@).push(s@));
            },
            Err(e) => {
                proof {
                    lemma_parse_all_err(b@, p0, (i + 1) as nat, n as nat, str_parser());
                }
                return Err(e);
            },
        }
        i = i + 1;
    }
    Ok(out)
}

impl Page {
    /// Reads a page record at `*pos` and moves past it.
    pub fn deserialize(b: &[u8], pos: &mut usize) -> (r: Result<Page, DecodeError>)
        ensures
            match parse_page(b@, *old(pos) as int) {
                Ok((v, q)) => r is Ok && r->Ok_0@ == v && *final(pos) == q,
                Err(e) => r == Err::<Page, DecodeError>(e),
            },
    {
        let document_index = match deserialize_u16(b, pos) {
            Ok(v) => v,
            Err(e) => return Err(e),
        };
        let page_nr = match deserialize_u16(b, pos) {
            Ok(v) => v,
            Err(e) => return Err(e),
        };
        let rendered_avif = match deserialize_string(b, pos) {
            Ok(v) => v,
            Err(e) => return Err(e),
        };
        let rendered_jpeg = match deserialize_string(b, pos) {
            Ok(v) => v,
            Err(e) => return Err(e),
        };
        let width = match deserialize_u16(b, pos) {
            Ok(v) => v,
            Err(e) => return Err(e),
        };
        let height = match deserialize_u16(b, pos) {
            Ok(v) => v,
            Err(e) => return Err(e),
        };
        Ok(Page { document_index, page_nr, rendered_avif, rendered_jpeg, width, height })
    }
}

impl SearchResult {
    /// Reads a result record at `*pos` and moves past it.
    pub fn deserialize(b: &[u8], pos: &mut usize) -> (r: Result<SearchResult, DecodeError>)
        ensures
            tracks(r, *final(pos) as int, parse_result(b@, *old(pos) as int)),
    {
        let page_index = match deserialize_u32(b, pos) {
            Ok(v) => v,
            Err(e) => return Err(e),
        };
        let x = match deserialize_i16(b, pos) {
            Ok(v) => v,
            Err(e) => return Err(e),
        };
        let y = match deserialize_i16(b, pos) {
            Ok(v) => v,
            Err(e) => return Err(e),
        };
        let width = match deserialize_u16(b, pos) {
            Ok(v) => v,
            Err(e) => return Err(e),
        };
        let height = match deserialize_u16(b, pos) {
            Ok(v) => v,
            Err(e) => return Err(e),
        };
        Ok(SearchResult { page_index, x, y, width, height })
    }
}

impl Match {
    /// Reads a match record at `*pos` and moves past it.
    pub fn deserialize(b: &[u8], pos: &mut usize) -> (r: Result<Match, DecodeError>)
        ensures
            tracks(r, *final(pos) as int, parse_match(b@, *old(pos) as int)),
    {
        let result_index = match deserialize_u32(b, pos) {
            Ok(v) => v,
            Err(e) => return Err(e),
        };
        let score_bits = match deserialize_u32(b, pos) {
            Ok(v) => v,
            Err(e) => return Err(e),
        };
        Ok(Match { result_index, score_bits })
    }
}

/// Reads a word entry at `*pos` and moves past it.
fn deserialize_word(b: &[u8], pos: &mut usize) -> (r: Result<WordMatches, DecodeError>)
    ensures
        match parse_word(b@, *old(pos) as int) {
            Ok((v, q)) => r is Ok && r->Ok_0@ == v && *final(pos) == q,
            Err(e) => r == Err::<WordMatches, DecodeError>(e),
        },
{
    let ghost p0 = *pos as int;
    let word = match deserialize_string(b, pos) {
        Ok(v) => v,
        Err(e) => return Err(e),
    };
    let ghost p1 = *pos as int;
    let n = match deserialize_u32(b, pos) {
        Ok(n) => n,
        Err(e) => return Err(e),
    };
    let ghost p2 = *pos as int;
    let mut matches: Vec<Match> = Vec::new();
    let mut i: u32 = 0;
    while i < n
        invariant
            i <= n,
            p0 == *old(pos) as int,
            parse_str(b@, p0) == Ok::<(Seq<char>, int), DecodeError>((word@, p1)),
            parse_u32(b@, p1) == Ok::<(u32, int), DecodeError>((n, p2)),
            parse_all(b@, p2, i as nat, match_parser()) == Ok::<(Seq<Match>, int), DecodeError>(
                (matches@, *pos as int),
            ),
        decreases n - i,
    {
        match Match::deserialize(b, pos) {
            Ok(m) => {
                matches.push(m);
            },
            Err(e) => {
                proof {
                    lemma_parse_all_err(b@, p2, (i + 1) as nat, n as nat, match_parser());
                }
                return Err(e);
            },
        }
        i = i + 1;
    }
    Ok(WordMatches { word, matches })
}

impl SearchIndex {
    /// Reads an index from the start of `b`. A word stored twice keeps its
    /// last list of matches; the words come out in byte order whatever the
    /// stored order.
    pub fn deserialize(b: &[u8]) -> (r: Result<SearchIndex, DecodeError>)
        ensures
            match parse_index(b@) {
                Ok(v) => r is Ok && {
                    let idx = r->Ok_0;
                    &&& idx.wf()
                    &&& idx@.documents == v.documents
                    &&& idx@.pages == v.pages
                    &&& idx@.results == v.results
                    &&& forall|k: Seq<char>| #[trigger] lookup(idx@.words, k) == lookup(v.words, k)
                    &&& keys_sorted(v.words) ==> idx@.words == v.words
                },
                Err(e) => r == Err::<SearchIndex, DecodeError>(e),
            },
    {
        let mut pos: usize = 0;
        let documents = match deserialize_vec_string(b, &mut pos) {
            Ok(v) => v,
            Err(e) => return Err(e),
        };
        let ghost p1 = pos as int;
        let page_count = match deserialize_u32(b, &mut pos) {
            Ok(n) => n,
            Err(e) => return Err(e),
        };
        let ghost p1b = pos as int;
        let mut pages: Vec<Page> = Vec::new();
        assert(pages@.map_values(|p: Page| p@) =~= Seq::<PageView>::empty());
        let mut i: u32 = 0;
        while i < page_count
            invariant
                i <= page_count,
                parse_counted(b@, 0, str_parser()) == Ok::<(Seq<Seq<char>>, int), DecodeError>(
                    (documents@.map_values(|s: String| s@), p1),
                ),
                parse_u32(b@, p1) == Ok::<(u32, int), DecodeError>((page_count, p1b)),
                parse_all(b@, p1b, i as nat, page_parser()) == Ok::<(Seq<PageView>, int), DecodeError>(
                    (pages@.map_values(|p: Page| p@), pos as int),
                ),
            decreases page_count - i,
        {
            let ghost before = pages@;
            match Page::deserialize(b, &mut pos) {
                Ok(p) => {
                    pages.push(p);
                    assert(pages@.map_values(|p: Page| p@) =~= before.map_values(|p: Page| p@).push(p@));
                },
                Err(e) => {
                    proof {
                        lemma_parse_all_err(b@, p1b, (i + 1) as nat, page_count as nat, page_parser());
                    }
                    return Err(e);
                },
            }
            i = i + 1;
        }
        let ghost p2 = pos as int;
        let result_count = match deserialize_u32(b, &mut pos) {
            Ok(n) => n,
            Err(e) => return Err(e),
        };
        let ghost p2b = pos as int;
        let ghost pages_v = pages@.map_values(|p: Page| p@);
        let mut results: Vec<SearchResult> = Vec::new();
        i = 0;
        while i < result_count
            invariant
                i <= result_count,
                parse_counted(b@, 0, str_parser()) == Ok::<(Seq<Seq<char>>, int), DecodeError>(
                    (documents@.map_values(|s: String| s@), p1),
                ),
                parse_counted(b@, p1, page_parser()) == Ok::<(Seq<PageView>, int), DecodeError>((pages_v, p2)),
                pages_v == pages@.map_values(|p: Page| p@),
                parse_u32(b@, p2) == Ok::<(u32, int), DecodeError>((result_count, p2b)),
                parse_all(b@, p2b, i as nat, result_parser()) == Ok::<(Seq<SearchResult>, int), DecodeError>(
                    (results@, pos as int),
                ),
            decreases result_count - i,
        {
            match SearchResult::deserialize(b, &mut pos) {
                Ok(r) => {
                    results.push(r);
                },
                Err(e) => {
                    proof {
                        lemma_parse_all_err(b@, p2b, (i + 1) as nat, result_count as nat, result_parser());
                    }
                    return Err(e);
                },
            }
            i = i + 1;
        }
        let ghost p3 = pos as int;
        let word_count = match deserialize_u32(b, &mut pos) {
            Ok(n) => n,
            Err(e) => return Err(e),
        };
        let ghost p3b = pos as int;
        let mut words = WordMap::new();
        let ghost mut read: Seq<(Seq<char>, Seq<Match>)> = Seq::empty();
        i = 0;
        while i < word_count
            invariant
                i <= word_count,
                parse_counted(b@, 0, str_parser()) == Ok::<(Seq<Seq<char>>, int), DecodeError>(
                    (documents@.map_values(|s: String| s@), p1),
                ),
                parse_counted(b@, p1, page_parser()) == Ok::<(Seq<PageView>, int), DecodeError>((pages_v, p2)),
                pages_v == pages@.map_values(|p: Page| p@),
                parse_counted(b@, p2, result_parser()) == Ok::<(Seq<SearchResult>, int), DecodeError>((results@, p3)),
                parse_u32(b@, p3) == Ok::<(u32, int), DecodeError>((word_count, p3b)),
                parse_all(b@, p3b, i as nat, word_parser()) == Ok::<(Seq<(Seq<char>, Seq<Match>)>, int), DecodeError>(
                    (read, pos as int),
                ),
                words.wf(),
                forall|k: Seq<char>| #[trigger] lookup(words@, k) == lookup(read, k),
                keys_sorted(read) ==> words@ == read,
            decreases word_count - i,
        {
            match deserialize_word(b, &mut pos) {
                Ok(e) => {
                    let ghost ev = e@;
                    let ghost old_words = words@;
                    let ghost old_read = read;
                    words.insert(e.word, e.matches);
                    proof {
                        read = read.push(ev);
                        assert(read.drop_last() =~= old_read);
                        if keys_sorted(read) {
                            assert(keys_sorted(old_read)) by {
                                assert forall|a: int, c: int| 0 <= a < c < old_read.len() implies #[trigger] crate::order::lex_lt(
                                    crate::index::word_key(old_read[a].0),
                                    crate::index::word_key(old_read[c].0),
                                ) by {
                                    assert(old_read[a] == read[a] && old_read[c] == read[c]);
                                }
                            }
                            if old_read.len() > 0 {
                                assert(read[old_read.len() - 1] == old_read.last());
                                assert(read[old_read.len() as int] == ev);
                            }
                            assert(after_all(old_words, ev.0));
                        }
                    }
                },
                Err(e) => {
                    proof {
                        lemma_parse_all_err(b@, p3b, (i + 1) as nat, word_count as nat, word_parser());
                    }
                    return Err(e);
                },
            }
            i = i + 1;
        }
        Ok(SearchIndex { documents, pages, results, words })
    }

    /// The persisted bytes of the index.
    pub fn serialize(&self) -> (r: Vec<u8>)
        requires
            index_fits(self@),
        ensures
            r@ == enc_index(self@),
    {
        let v = Ghost(self@);
        let mut out: Vec<u8> = Vec::new();
        write_u32(&mut out, self.documents.len() as u32);
        let mut i: usize = 0;
        while i < self.documents.len()
            invariant
                v@ == self@,
                index_fits(self@),
                i <= self.documents@.len(),
                out@ == le_u32(self.documents@.len() as u32) + enc_all(
                    self@.documents.subrange(0, i as int),
                    str_enc(),
                ),
            decreases self.documents@.len() - i,
        {
            assert(self@.documents.subrange(0, i + 1).drop_last() =~= self@.documents.subrange(0, i as int));
            assert(str_fits(self@.documents[i as int]));
            write_string(&mut out, self.documents[i].as_str());
            i = i + 1;
        }
        assert(self@.documents.subrange(0, i as int) =~= self@.documents);
        let ghost c1 = out@;
        write_u32(&mut out, self.pages.len() as u32);
        i = 0;
        while i < self.pages.len()
            invariant
                index_fits(self@),
                i <= self.pages@.len(),
                out@ == c1 + le_u32(self.pages@.len() as u32) + enc_all(self@.pages.subrange(0, i as int), page_enc()),
            decreases self.pages@.len() - i,
        {
            assert(self@.pages.subrange(0, i + 1).drop_last() =~= self@.pages.subrange(0, i as int));
            let p = &self.pages[i];
            assert(self@.pages[i as int] == p@);
            assert(page_fits(p@));
            let ghost before = out@;
            write_u16(&mut out, p.document_index);
            write_u16(&mut out, p.page_nr);
            write_string(&mut out, p.rendered_avif.as_str());
            write_string(&mut out, p.rendered_jpeg.as_str());
            write_u16(&mut out, p.width);
            write_u16(&mut out, p.height);
            assert(out@ =~= before + enc_page(p@));
            i = i + 1;
        }
        assert(self@.pages.subrange(0, i as int) =~= self@.pages);
        let ghost c2 = out@;
        write_u32(&mut out, self.results.len() as u32);
        i = 0;
        while i < self.results.len()
            invariant
                index_fits(self@),
                i <= self.results@.len(),
                out@ == c2 + le_u32(self.results@.len() as u32) + enc_all(
                    self@.results.subrange(0, i as int),
                    result_enc(),
                ),
            decreases self.results@.len() - i,
        {
            assert(self@.results.subrange(0, i + 1).drop_last() =~= self@.results.subrange(0, i as int));
            let r = self.results[i];
            let ghost before = out@;
            write_u32(&mut out, r.page_index);
            write_i16(&mut out, r.x);
            write_i16(&mut out, r.y);
            write_u16(&mut out, r.width);
            write_u16(&mut out, r.height);
            assert(out@ =~= before + enc_result(r));
            i = i + 1;
        }
        assert(self@.results.subrange(0, i as int) =~= self@.results);
        let ghost c3 = out@;
        write_u32(&mut out, self.words.entries.len() as u32);
        i = 0;
        while i < self.words.entries.len()
            invariant
                index_fits(self@),
                i <= self.words@.len(),
                out@ == c3 + le_u32(self.words@.len() as u32) + enc_all(self@.words.subrange(0, i as int), word_enc()),
            decreases self.words@.len() - i,
        {
            assert(self@.words.subrange(0, i + 1).drop_last() =~= self@.words.subrange(0, i as int));
            let e = &self.words.entries[i];
            assert(self@.words[i as int] == e@);
            assert(word_fits(e@));
            let ghost before = out@;
            write_string(&mut out, e.word.as_str());
            write_u32(&mut out, e.matches.len() as u32);
            let ghost mid = out@;
            let mut j: usize = 0;
            while j < e.matches.len()
                invariant
                    j <= e.matches@.len(),
                    out@ == mid + enc_all(e.matches@.subrange(0, j as int), match_enc()),
                decreases e.matches@.len() - j,
            {
                assert(e.matches@.subrange(0, j + 1).drop_last() =~= e.matches@.subrange(0, j as int));
                let m = e.matches[j];
                let ghost before_m = out@;
                write_u32(&mut out, m.result_index);
                write_u32(&mut out, m.score_bits);
                assert(out@ =~= before_m + enc_match(m));
                j = j + 1;
            }
            assert(e.matches@.subrange(0, j as int) =~= e.matches@);
            assert(out@ =~= before + enc_word(e@));
            i = i + 1;
        }
        assert(self@.words.subrange(0, i as int) =~= self@.words);
        assert(out@ =~= enc_index(self@));
        out
    }
}

} // verus!
