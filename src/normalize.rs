//! Text normalisation: a line of text becomes canonical search tokens.

use vstd::prelude::*;
use vstd::string::{StrSliceExecFns, StringSliceAdditionalSpecFns};
use vstd::utf8::encode_utf8;
use core::cmp::Ordering;
use crate::order::compare_bytes;

verus! {

/// The ASCII transliteration that `deunicode::deunicode` gives of a text.
pub uninterp spec fn deunicode_of(s: Seq<char>) -> Seq<char>;

/// The stem that the French Snowball stemmer gives of a word.
pub uninterp spec fn french_stem_of(w: Seq<char>) -> Seq<char>;

pub open spec fn all_ascii(s: Seq<char>) -> bool {
    forall|i: int| 0 <= i < s.len() ==> (#[trigger] s[i] as u32) < 128
}

/// Every character is below U+007F, the range that `deunicode` returns as it is.
pub open spec fn below_del(s: Seq<char>) -> bool {
    forall|i: int| 0 <= i < s.len() ==> (#[trigger] s[i] as u32) < 127
}

/// Relies on `deunicode::deunicode`: the result is ASCII, and text whose
/// characters are all below U+007F comes back as it is.
#[verifier::external_body]
fn transliterate(s: &str) -> (r: String)
    ensures
        r@ == deunicode_of(s@),
        all_ascii(r@),
        below_del(s@) ==> r@ == s@,
{
    deunicode::deunicode(s)
}

/// Relies on `rust_stemmers::Stemmer::stem` with the French algorithm.
#[verifier::external_body]
fn french_stem(w: &str) -> (r: String)
    ensures
        r@ == french_stem_of(w@),
{
    rust_stemmers::Stemmer::create(rust_stemmers::Algorithm::French).stem(w).to_string()
}

/// Relies on `String::push`: the character is appended.
#[verifier::external_body]
fn push_char(s: &mut String, c: char)
    ensures
        final(s)@ == old(s)@.push(c),
{
    s.push(c)
}

pub open spec fn is_alnum(c: char) -> bool {
    ('0' <= c && c <= '9') || ('A' <= c && c <= 'Z') || ('a' <= c && c <= 'z')
}

pub open spec fn is_punct(c: char) -> bool {
    ('!' <= c && c <= '/') || (':' <= c && c <= '@') || ('[' <= c && c <= '`') || ('{' <= c && c <= '~')
}

pub open spec fn is_space(c: char) -> bool {
    c == ' ' || c == '\t' || c == '\n' || c == '\x0C' || c == '\r'
}

pub open spec fn to_lower(c: char) -> char {
    if 'A' <= c && c <= 'Z' {
        ((c as u32) + 32) as char
    } else {
        c
    }
}

/// Punctuation but the dot becomes a space; what is neither alphanumeric
/// nor a space then goes, so that "t.e.s.t." reads "test".
pub open spec fn clean(s: Seq<char>) -> Seq<char>
    decreases s.len(),
{
    if s.len() == 0 {
        Seq::empty()
    } else {
        let c = s.last();
        let rest = clean(s.drop_last());
        if is_punct(c) && c != '.' {
            rest.push(' ')
        } else if is_alnum(c) || is_space(c) {
            rest.push(c)
        } else {
            rest
        }
    }
}

/// The pieces between non-alphanumeric characters, empty ones included.
pub open spec fn segments(s: Seq<char>) -> Seq<Seq<char>>
    decreases s.len(),
{
    if s.len() == 0 {
        seq![Seq::empty()]
    } else {
        let p = segments(s.drop_last());
        let c = s.last();
        if is_alnum(c) {
            p.update(p.len() - 1, p.last().push(c))
        } else {
            p.push(Seq::empty())
        }
    }
}

/// The lower-cased pieces of a transliterated line.
pub open spec fn raw_words(ascii: Seq<char>) -> Seq<Seq<char>> {
    segments(clean(ascii)).map_values(|w: Seq<char>| w.map_values(|c: char| to_lower(c)))
}

fn is_alnum_char(c: char) -> (r: bool)
    ensures
        r == is_alnum(c),
{
    ('0' <= c && c <= '9') || ('A' <= c && c <= 'Z') || ('a' <= c && c <= 'z')
}

pub fn chars_of(s: &str) -> (r: Vec<char>)
    ensures
        r@ == s@,
{
    let n = s.unicode_len();
    let mut out: Vec<char> = Vec::new();
    let mut i: usize = 0;
    while i < n
        invariant
            n == s@.len(),
            i <= n,
            out@ == s@.subrange(0, i as int),
        decreases n - i,
    {
        out.push(s.get_char(i));
        assert(out@ =~= s@.subrange(0, i + 1));
        i = i + 1;
    }
    assert(out@ =~= s@);
    out
}

pub fn string_of(v: &Vec<char>) -> (r: String)
    ensures
        r@ == v@,
{
    let mut s = String::new();
    let mut i: usize = 0;
    while i < v.len()
        invariant
            i <= v@.len(),
            s@ == v@.subrange(0, i as int),
        decreases v@.len() - i,
    {
        push_char(&mut s, v[i]);
        assert(s@ =~= v@.subrange(0, i + 1));
        i = i + 1;
    }
    assert(s@ =~= v@);
    s
}

/// Splits a transliterated line into lower-cased words, empty pieces
/// included: punctuation but dots separates words, dots are dropped.
pub fn split_words(ascii: &str) -> (r: Vec<String>)
    ensures
        r@.map_values(|w: String| w@) == raw_words(ascii@),
{
    let cs = chars_of(ascii);
    let mut cleaned: Vec<char> = Vec::new();
    let mut i: usize = 0;
    while i < cs.len()
        invariant
            cs@ == ascii@,
            i <= cs@.len(),
            cleaned@ == clean(cs@.subrange(0, i as int)),
        decreases cs@.len() - i,
    {
        let c = cs[i];
        assert(cs@.subrange(0, i + 1).drop_last() =~= cs@.subrange(0, i as int));
        if (('!' <= c && c <= '/') || (':' <= c && c <= '@') || ('[' <= c && c <= '`') || ('{' <= c && c <= '~'))
            && c != '.' {
            cleaned.push(' ');
        } else if is_alnum_char(c) || c == ' ' || c == '\t' || c == '\n' || c == '\x0C' || c == '\r' {
            cleaned.push(c);
        }
        i = i + 1;
    }
    assert(cs@.subrange(0, i as int) =~= cs@);
    let ghost cl = cleaned@;
    let mut words: Vec<Vec<char>> = Vec::new();
    let mut current: Vec<char> = Vec::new();
    i = 0;
    while i < cleaned.len()
        invariant
            cl == cleaned@,
            i <= cl.len(),
            words@.map_values(|w: Vec<char>| w@).push(current@) == segments(cl.subrange(0, i as int)),
        decreases cl.len() - i,
    {
        let c = cleaned[i];
        let ghost prev = segments(cl.subrange(0, i as int));
        assert(cl.subrange(0, i + 1).drop_last() =~= cl.subrange(0, i as int));
        let ghost ws0 = words@.map_values(|w: Vec<char>| w@);
        if is_alnum_char(c) {
            current.push(c);
            assert(ws0.push(current@) =~= prev.update(prev.len() - 1, prev.last().push(c)));
        } else {
            let done = current;
            words.push(done);
            current = Vec::new();
            assert(words@.map_values(|w: Vec<char>| w@) =~= ws0.push(done@));
            assert(words@.map_values(|w: Vec<char>| w@).push(current@) =~= prev.push(Seq::<char>::empty()));
        }
        i = i + 1;
    }
    assert(cl.subrange(0, i as int) =~= cl);
    let ghost ws0 = words@.map_values(|w: Vec<char>| w@);
    words.push(current);
    let ghost segs = segments(cl);
    assert(words@.map_values(|w: Vec<char>| w@) =~= segs);
    let mut out: Vec<String> = Vec::new();
    let mut k: usize = 0;
    while k < words.len()
        invariant
            k <= words@.len(),
            segs == words@.map_values(|w: Vec<char>| w@),
            segs == segments(clean(ascii@)),
            out@.map_values(|w: String| w@) == segs.subrange(0, k as int).map_values(
                |w: Seq<char>| w.map_values(|c: char| to_lower(c)),
            ),
        decreases words@.len() - k,
    {
        let w = &words[k];
        assert(segs[k as int] == w@);
        let mut lw: Vec<char> = Vec::new();
        let mut j: usize = 0;
        while j < w.len()
            invariant
                j <= w@.len(),
                lw@ == w@.subrange(0, j as int).map_values(|c: char| to_lower(c)),
            decreases w@.len() - j,
        {
            let c = w[j];
            let l = if 'A' <= c && c <= 'Z' {
                ((c as u8) + 32) as char
            } else {
                c
            };
            assert(l == to_lower(c));
            lw.push(l);
            assert(lw@ =~= w@.subrange(0, j + 1).map_values(|c: char| to_lower(c)));
            j = j + 1;
        }
        assert(w@.subrange(0, j as int) =~= w@);
        let ghost before = out@.map_values(|w: String| w@);
        let st = string_of(&lw);
        out.push(st);
        assert(out@.map_values(|w: String| w@) =~= before.push(st@));
        assert(segs.subrange(0, k + 1).map_values(|w: Seq<char>| w.map_values(|c: char| to_lower(c))) =~= segs.subrange(
            0,
            k as int,
        ).map_values(|w: Seq<char>| w.map_values(|c: char| to_lower(c))).push(lw@));
        k = k + 1;
    }
    assert(segs.subrange(0, k as int) =~= segs);
    out
}

/// Words that carry no meaning for search, as the stemmer leaves them.
pub open spec fn stop_words() -> Seq<Seq<char>> {
    seq![
        "le"@, "la"@, "de"@, "un"@, "et"@, "en"@, "que"@, "dan"@, "pour"@, "ce"@, "qui"@, "ne"@, "se"@,
        "sur"@, "pas"@, "par"@, "on"@, "mais"@, "ou"@, "comm"@, "il"@, "du"@, "lorsqu"@, "une"@, "est"@,
        "sont"@,
    ]
}

/// "cs" stands for Cauchy-Schwarz and is kept as it is, as is an empty
/// piece; other words are stemmed.
pub open spec fn stem_word(w: Seq<char>) -> Seq<char> {
    if w == "cs"@ || w.len() == 0 {
        w
    } else {
        french_stem_of(w)
    }
}

/// A token is kept when it has at least two bytes and is no stop word.
pub open spec fn keep_token(t: Seq<char>) -> bool {
    encode_utf8(t).len() >= 2 && !stop_words().contains(t)
}

pub open spec fn filter_tokens(ts: Seq<Seq<char>>) -> Seq<Seq<char>>
    decreases ts.len(),
{
    if ts.len() == 0 {
        Seq::empty()
    } else {
        let rest = filter_tokens(ts.drop_last());
        if keep_token(ts.last()) {
            rest.push(ts.last())
        } else {
            rest
        }
    }
}

/// The tokens joined by single spaces.
pub open spec fn join(ts: Seq<Seq<char>>) -> Seq<char>
    decreases ts.len(),
{
    if ts.len() == 0 {
        Seq::empty()
    } else if ts.len() == 1 {
        ts[0]
    } else {
        join(ts.drop_last()) + seq![' '] + ts.last()
    }
}

/// The synonym table: a canonical form and the aliases it replaces.
pub open spec fn synonyms() -> Seq<(Seq<char>, Seq<Seq<char>>)> {
    seq![("cauchy schwarz"@, seq!["cs"@])]
}

/// The first position at or after `i` where `a` occurs in `w`.
pub open spec fn find_from(w: Seq<char>, a: Seq<char>, i: int) -> Option<int>
    decreases w.len() - i,
{
    if i < 0 || i >= w.len() || i + a.len() > w.len() {
        None
    } else if w.subrange(i, i + a.len()) == a {
        Some(i)
    } else {
        find_from(w, a, i + 1)
    }
}

/// An occurrence of `n` characters at `p` stands between spaces or the ends.
pub open spec fn at_word_boundary(w: Seq<char>, p: int, n: int) -> bool {
    (p == 0 || w[p - 1] == ' ') && (p + n >= w.len() || w[p + n] == ' ')
}

/// Replaces, scanning from `i`, each occurrence of `a` that is a whole
/// word by `c`; the scan goes on after the replaced text.
pub open spec fn replace_from(w: Seq<char>, a: Seq<char>, c: Seq<char>, i: int) -> Seq<char>
    decreases w.len() - i,
{
    if a.len() == 0 {
        w
    } else {
        match find_from(w, a, i) {
            None => w,
            Some(p) => if p < i || p + a.len() > w.len() {
                w
            } else if at_word_boundary(w, p, a.len() as int) {
                replace_from(w.subrange(0, p) + c + w.subrange(p + a.len(), w.len() as int), a, c, p + c.len())
            } else {
                replace_from(w, a, c, p + a.len())
            },
        }
    }
}

pub open spec fn replace_aliases(w: Seq<char>, aliases: Seq<Seq<char>>, c: Seq<char>) -> Seq<char>
    decreases aliases.len(),
{
    if aliases.len() == 0 {
        w
    } else {
        replace_from(replace_aliases(w, aliases.drop_last(), c), aliases.last(), c, 0)
    }
}

pub open spec fn apply_synonyms(w: Seq<char>, table: Seq<(Seq<char>, Seq<Seq<char>>)>) -> Seq<char>
    decreases table.len(),
{
    if table.len() == 0 {
        w
    } else {
        replace_aliases(apply_synonyms(w, table.drop_last()), table.last().1, table.last().0)
    }
}

/// The pieces between spaces, empty ones included.
pub open spec fn space_pieces(s: Seq<char>) -> Seq<Seq<char>>
    decreases s.len(),
{
    if s.len() == 0 {
        seq![Seq::empty()]
    } else {
        let p = space_pieces(s.drop_last());
        if s.last() == ' ' {
            p.push(Seq::empty())
        } else {
            p.update(p.len() - 1, p.last().push(s.last()))
        }
    }
}

pub open spec fn non_empty(ts: Seq<Seq<char>>) -> Seq<Seq<char>>
    decreases ts.len(),
{
    if ts.len() == 0 {
        Seq::empty()
    } else if ts.last().len() == 0 {
        non_empty(ts.drop_last())
    } else {
        non_empty(ts.drop_last()).push(ts.last())
    }
}

/// Kept tokens, joined, with synonyms made canonical, split again.
pub open spec fn canonical_words(tokens: Seq<Seq<char>>) -> Seq<Seq<char>> {
    non_empty(space_pieces(apply_synonyms(join(tokens), synonyms())))
}

/// The tokens of a line already in plain ASCII below U+007F, which
/// transliteration leaves as it is.
pub open spec fn normalized_plain(s: Seq<char>) -> Seq<Seq<char>> {
    canonical_words(filter_tokens(raw_words(s).map_values(|w: Seq<char>| stem_word(w))))
}

/// The empty text has no tokens.
pub proof fn lemma_empty_text_has_no_tokens()
    ensures
        normalized_plain(Seq::<char>::empty()).len() == 0,
{
    let e = Seq::<char>::empty();
    assert(clean(e) =~= e);
    assert(segments(e) == seq![e]);
    let raw = raw_words(e);
    assert(e.map_values(|c: char| to_lower(c)) =~= e);
    assert(raw.len() == 1);
    assert(raw[0] == seq![e][0].map_values(|c: char| to_lower(c)));
    assert(raw =~= seq![e]);
    let stems = raw.map_values(|w: Seq<char>| stem_word(w));
    assert(stems =~= seq![e]);
    assert(encode_utf8(e).len() == 0);
    assert(stems.drop_last() =~= Seq::<Seq<char>>::empty());
    assert(stems.last() == e);
    assert(!keep_token(e));
    assert(filter_tokens(stems.drop_last()) =~= Seq::<Seq<char>>::empty());
    assert(filter_tokens(stems) =~= Seq::<Seq<char>>::empty());
    let j = join(Seq::<Seq<char>>::empty());
    assert(j =~= e);
    let table = synonyms();
    assert(table.drop_last() =~= Seq::<(Seq<char>, Seq<Seq<char>>)>::empty());
    assert(table.last().1.drop_last() =~= Seq::<Seq<char>>::empty());
    assert(apply_synonyms(e, table.drop_last()) == e);
    assert(replace_aliases(e, table.last().1.drop_last(), table.last().0) == e);
    assert(find_from(e, table.last().1.last(), 0) is None);
    assert(replace_from(e, table.last().1.last(), table.last().0, 0) == e);
    assert(apply_synonyms(e, table) == e);
    assert(space_pieces(e) == seq![e]);
    assert(seq![e].drop_last() =~= Seq::<Seq<char>>::empty());
    assert(non_empty(seq![e]) == non_empty(Seq::<Seq<char>>::empty()));
}

/// The tokens of a line of text.
pub open spec fn normalized(s: Seq<char>) -> Seq<Seq<char>> {
    canonical_words(filter_tokens(raw_words(deunicode_of(s)).map_values(|w: Seq<char>| stem_word(w))))
}

/// Whether two texts are the same.
pub fn same_text(a: &str, b: &str) -> (r: bool)
    ensures
        r == (a@ == b@),
{
    let ab = a.as_bytes();
    let c = compare_bytes(ab, b.as_bytes());
    proof {
        vstd::utf8::encode_utf8_decode_utf8(a@);
        vstd::utf8::encode_utf8_decode_utf8(b@);
    }
    match c {
        Ordering::Equal => true,
        _ => {
            proof {
                crate::order::lemma_lex_irreflexive(ab@);
            }
            false
        },
    }
}

/// Whether `t` is a stop word.
pub fn is_stop_word(t: &str) -> (r: bool)
    ensures
        r == stop_words().contains(t@),
{
    let list: [&str; 26] = [
        "le", "la", "de", "un", "et", "en", "que", "dan", "pour", "ce", "qui", "ne", "se", "sur", "pas", "par",
        "on", "mais", "ou", "comm", "il", "du", "lorsqu", "une", "est", "sont",
    ];
    assert(list@.map_values(|s: &str| s@) =~= stop_words());
    let mut i: usize = 0;
    while i < 26
        invariant
            i <= 26,
            list@.map_values(|s: &str| s@) == stop_words(),
            forall|j: int| 0 <= j < i ==> stop_words()[j] != t@,
        decreases 26 - i,
    {
        assert(stop_words()[i as int] == list@[i as int]@);
        if same_text(t, list[i]) {
            assert(stop_words()[i as int] == t@);
            return true;
        }
        i = i + 1;
    }
    false
}

/// Stems each word ("cs" excepted) and keeps the tokens of at least two
/// bytes that are no stop words.
pub fn stem_and_filter(words: &Vec<String>) -> (r: Vec<String>)
    ensures
        r@.map_values(|w: String| w@) == filter_tokens(
            words@.map_values(|w: String| w@).map_values(|w: Seq<char>| stem_word(w)),
        ),
{
    let ghost stems = words@.map_values(|w: String| w@).map_values(|w: Seq<char>| stem_word(w));
    let mut out: Vec<String> = Vec::new();
    let mut i: usize = 0;
    while i < words.len()
        invariant
            i <= words@.len(),
            stems == words@.map_values(|w: String| w@).map_values(|w: Seq<char>| stem_word(w)),
            out@.map_values(|w: String| w@) == filter_tokens(stems.subrange(0, i as int)),
        decreases words@.len() - i,
    {
        let w = &words[i];
        let t = if w.as_str().is_empty() || same_text(w.as_str(), "cs") {
            w.clone()
        } else {
            french_stem(w.as_str())
        };
        assert(t@ == stems[i as int]);
        assert(stems.subrange(0, i + 1).drop_last() =~= stems.subrange(0, i as int));
        let ghost before = out@.map_values(|w: String| w@);
        let ts = t.as_str();
        let long_enough = ts.as_bytes().len() >= 2;
        assert(long_enough == (encode_utf8(t@).len() >= 2));
        let keep = long_enough && !is_stop_word(ts);
        assert(keep == keep_token(stems[i as int]));
        if keep {
            out.push(t);
            assert(out@.map_values(|w: String| w@) =~= before.push(stems[i as int]));
        }
        i = i + 1;
    }
    assert(stems.subrange(0, i as int) =~= stems);
    out
}

proof fn lemma_find_from(w: Seq<char>, a: Seq<char>, i: int)
    requires
        find_from(w, a, i) is Some,
    ensures
        i <= find_from(w, a, i)->Some_0,
        find_from(w, a, i)->Some_0 + a.len() <= w.len(),
        find_from(w, a, i)->Some_0 < w.len(),
    decreases w.len() - i,
{
    if !(i < 0 || i >= w.len() || i + a.len() > w.len()) && w.subrange(i, i + a.len()) != a {
        lemma_find_from(w, a, i + 1);
    }
}

fn matches_at(w: &Vec<char>, a: &Vec<char>, j: usize) -> (r: bool)
    requires
        j + a@.len() <= w@.len(),
    ensures
        r == (w@.subrange(j as int, j + a@.len()) == a@),
{
    let wl = w.len();
    let mut k: usize = 0;
    while k < a.len()
        invariant
            wl == w@.len(),
            j + a@.len() <= w@.len(),
            k <= a@.len(),
            w@.subrange(j as int, j + k) == a@.subrange(0, k as int),
        decreases a@.len() - k,
    {
        if w[j + k] != a[k] {
            assert(w@.subrange(j as int, j + a@.len())[k as int] != a@[k as int]);
            return false;
        }
        assert(w@.subrange(j as int, j + k + 1) =~= a@.subrange(0, k + 1));
        k = k + 1;
    }
    assert(a@.subrange(0, k as int) =~= a@);
    true
}

fn find(w: &Vec<char>, a: &Vec<char>, i: usize) -> (r: Option<usize>)
    ensures
        match find_from(w@, a@, i as int) {
            Some(p) => r == Some(p as usize),
            None => r is None,
        },
{
    let mut j: usize = i;
    while j < w.len() && a.len() <= w.len() - j
        invariant
            i <= j,
            find_from(w@, a@, i as int) == find_from(w@, a@, j as int),
        decreases w@.len() - j,
    {
        if matches_at(w, a, j) {
            return Some(j);
        }
        j = j + 1;
    }
    None
}

/// Replaces each whole-word occurrence of `a` in `w` by `c`, as `replace_from` says.
fn replace_words(text: &Vec<char>, a: &Vec<char>, c: &Vec<char>) -> (r: Vec<char>)
    ensures
        r@ == replace_from(text@, a@, c@, 0),
{
    let ghost w0 = text@;
    let mut w: Vec<char> = Vec::new();
    let mut k: usize = 0;
    while k < text.len()
        invariant
            k <= text@.len(),
            w@ == text@.subrange(0, k as int),
        decreases text@.len() - k,
    {
        w.push(text[k]);
        assert(w@ =~= text@.subrange(0, k + 1));
        k = k + 1;
    }
    assert(w@ =~= text@);
    if a.len() == 0 {
        return w;
    }
    let mut i: usize = 0;
    loop
        invariant
            a@.len() > 0,
            w0 == text@,
            replace_from(w0, a@, c@, 0) == replace_from(w@, a@, c@, i as int),
        decreases w@.len() - i,
    {
        match find(&w, a, i) {
            None => {
                assert(replace_from(w@, a@, c@, i as int) == w@);
                return w;
            },
            Some(p) => {
                proof {
                    lemma_find_from(w@, a@, i as int);
                }
                let n = a.len();
                let wl = w.len();
                let boundary = (p == 0 || w[p - 1] == ' ') && (p + n >= w.len() || w[p + n] == ' ');
                assert(boundary == at_word_boundary(w@, p as int, n as int));
                if boundary {
                    let mut next: Vec<char> = Vec::new();
                    let mut k: usize = 0;
                    while k < p
                        invariant
                            k <= p,
                            p + n <= w@.len(),
                            next@ == w@.subrange(0, k as int),
                        decreases p - k,
                    {
                        next.push(w[k]);
                        assert(next@ =~= w@.subrange(0, k + 1));
                        k = k + 1;
                    }
                    k = 0;
                    while k < c.len()
                        invariant
                            k <= c@.len(),
                            p + n <= w@.len(),
                            next@ == w@.subrange(0, p as int) + c@.subrange(0, k as int),
                        decreases c@.len() - k,
                    {
                        next.push(c[k]);
                        assert(next@ =~= w@.subrange(0, p as int) + c@.subrange(0, k + 1));
                        k = k + 1;
                    }
                    assert(c@.subrange(0, k as int) =~= c@);
                    let ghost head = next@;
                    k = p + n;
                    while k < w.len()
                        invariant
                            p + n <= k <= w@.len(),
                            next@ == head + w@.subrange(p + n, k as int),
                        decreases w@.len() - k,
                    {
                        next.push(w[k]);
                        assert(next@ =~= head + w@.subrange(p + n, k + 1));
                        k = k + 1;
                    }
                    assert(next@ =~= w@.subrange(0, p as int) + c@ + w@.subrange(p + n, w@.len() as int));
                    let nl = next.len();
                    assert(p + c@.len() <= nl);
                    i = p + c.len();
                    w = next;
                } else {
                    i = p + n;
                }
            },
        }
    }
}

/// Joins the tokens, makes synonyms canonical and splits the result into
/// words again.
pub fn canonicalize_words(tokens: &Vec<String>) -> (r: Vec<String>)
    ensures
        r@.map_values(|w: String| w@) == canonical_words(tokens@.map_values(|w: String| w@)),
{
    let ghost ts = tokens@.map_values(|w: String| w@);
    let mut text: Vec<char> = Vec::new();
    let mut i: usize = 0;
    while i < tokens.len()
        invariant
            i <= tokens@.len(),
            ts == tokens@.map_values(|w: String| w@),
            text@ == join(ts.subrange(0, i as int)),
        decreases tokens@.len() - i,
    {
        let t = chars_of(tokens[i].as_str());
        assert(t@ == ts[i as int]);
        let ghost before = text@;
        if i > 0 {
            text.push(' ');
        }
        let mut k: usize = 0;
        while k < t.len()
            invariant
                k <= t@.len(),
                text@ == (if i > 0 { before + seq![' '] } else { before }) + t@.subrange(0, k as int),
            decreases t@.len() - k,
        {
            text.push(t[k]);
            assert(text@ =~= (if i > 0 { before + seq![' '] } else { before }) + t@.subrange(0, k + 1));
            k = k + 1;
        }
        assert(t@.subrange(0, k as int) =~= t@);
        assert(ts.subrange(0, i + 1).drop_last() =~= ts.subrange(0, i as int));
        if i == 0 {
            assert(text@ =~= join(ts.subrange(0, 1)));
        }
        i = i + 1;
    }
    assert(ts.subrange(0, i as int) =~= ts);
    let canonical = chars_of("cauchy schwarz");
    let alias = chars_of("cs");
    let ghost joined = text@;
    let text = replace_words(&text, &alias, &canonical);
    proof {
        let table = synonyms();
        assert(table.drop_last() =~= Seq::<(Seq<char>, Seq<Seq<char>>)>::empty());
        assert(table.last().1.drop_last() =~= Seq::<Seq<char>>::empty());
        assert(apply_synonyms(joined, table.drop_last()) == joined);
        assert(replace_aliases(joined, table.last().1.drop_last(), table.last().0) == joined);
        assert(table.last().1.last() == alias@);
        assert(table.last().0 == canonical@);
        assert(text@ == apply_synonyms(joined, table));
    }
    let ghost full = text@;
    let mut pieces: Vec<String> = Vec::new();
    let mut current: Vec<char> = Vec::new();
    i = 0;
    assert(full.subrange(0, 0) =~= Seq::<char>::empty());
    assert(space_pieces(Seq::<char>::empty()) == seq![Seq::<char>::empty()]);
    assert(seq![Seq::<char>::empty()].drop_last() =~= Seq::<Seq<char>>::empty());
    assert(non_empty(seq![Seq::<char>::empty()]) == non_empty(seq![Seq::<char>::empty()].drop_last()));
    assert(non_empty(Seq::<Seq<char>>::empty()) == Seq::<Seq<char>>::empty());
    assert(Seq::<Seq<char>>::empty() + Seq::<Seq<char>>::empty() =~= Seq::<Seq<char>>::empty());
    assert(pieces@.map_values(|w: String| w@) =~= Seq::<Seq<char>>::empty());
    while i < text.len()
        invariant
            full == text@,
            i <= full.len(),
            pieces@.map_values(|w: String| w@) + (if current@.len() == 0 {
                Seq::<Seq<char>>::empty()
            } else {
                seq![current@]
            }) == non_empty(space_pieces(full.subrange(0, i as int))),
            space_pieces(full.subrange(0, i as int)).last() == current@,
            space_pieces(full.subrange(0, i as int)).len() >= 1,
        decreases full.len() - i,
    {
        let c = text[i];
        let ghost prev = space_pieces(full.subrange(0, i as int));
        let ghost before = pieces@.map_values(|w: String| w@);
        assert(full.subrange(0, i + 1).drop_last() =~= full.subrange(0, i as int));
        assert(full.subrange(0, i + 1).last() == c);
        if c == ' ' {
            let ghost now = space_pieces(full.subrange(0, i + 1));
            assert(now == prev.push(Seq::<char>::empty()));
            assert(now.drop_last() =~= prev);
            assert(non_empty(now) == non_empty(prev));
            if current.len() > 0 {
                let st = string_of(&current);
                pieces.push(st);
                assert(pieces@.map_values(|w: String| w@) =~= before.push(st@));
                assert(pieces@.map_values(|w: String| w@) =~= before + seq![st@]);
                assert(pieces@.map_values(|w: String| w@) == non_empty(now));
            } else {
                assert(before + Seq::<Seq<char>>::empty() =~= before);
            }
            current = Vec::new();
            assert(pieces@.map_values(|w: String| w@) + Seq::<Seq<char>>::empty() =~= pieces@.map_values(
                |w: String| w@,
            ));
        } else {
            let ghost old_cur = current@;
            current.push(c);
            let ghost now = space_pieces(full.subrange(0, i + 1));
            assert(now == prev.update(prev.len() - 1, old_cur.push(c)));
            assert(now.drop_last() =~= prev.drop_last());
            assert(now.last() == current@);
            assert(non_empty(now) == non_empty(prev.drop_last()).push(current@));
            assert(prev.drop_last().push(prev.last()) =~= prev);
            proof {
                if old_cur.len() == 0 {
                    assert(non_empty(prev) == non_empty(prev.drop_last()));
                    assert(before + Seq::<Seq<char>>::empty() =~= before);
                    assert(before == non_empty(prev.drop_last()));
                } else {
                    assert(non_empty(prev) == non_empty(prev.drop_last()).push(old_cur));
                    assert(before + seq![old_cur] =~= before.push(old_cur));
                    assert(before.push(old_cur).drop_last() =~= before);
                    assert(non_empty(prev.drop_last()).push(old_cur).drop_last() =~= non_empty(prev.drop_last()));
                    assert(before == non_empty(prev.drop_last()));
                }
                assert(before + seq![old_cur.push(c)] =~= non_empty(prev.drop_last()).push(old_cur.push(c)));
            }
            assert(before + seq![current@] =~= before.push(current@));
        }
        i = i + 1;
    }
    assert(full.subrange(0, i as int) =~= full);
    if current.len() > 0 {
        let ghost before = pieces@.map_values(|w: String| w@);
        let st = string_of(&current);
        pieces.push(st);
        assert(pieces@.map_values(|w: String| w@) =~= before + seq![st@]);
    } else {
        assert(pieces@.map_values(|w: String| w@) + Seq::<Seq<char>>::empty() =~= pieces@.map_values(
            |w: String| w@,
        ));
    }
    pieces
}

/// The canonical search tokens of a line of text, in order, duplicates kept.
pub fn normalize_and_extract_words(s: &str) -> (r: Vec<String>)
    ensures
        r@.map_values(|w: String| w@) == normalized(s@),
        below_del(s@) ==> r@.map_values(|w: String| w@) == normalized_plain(s@),
{
    let ascii = transliterate(s);
    let words = split_words(ascii.as_str());
    let tokens = stem_and_filter(&words);
    canonicalize_words(&tokens)
}

/// `needle` occurs in `hay`; the empty text occurs everywhere.
pub open spec fn occurs_in(needle: Seq<char>, hay: Seq<char>) -> bool {
    needle.len() == 0 || find_from(hay, needle, 0) is Some
}

/// Whether `needle` occurs in `hay`.
pub fn contains_text(hay: &str, needle: &str) -> (r: bool)
    ensures
        r == occurs_in(needle@, hay@),
{
    let h = chars_of(hay);
    let n = chars_of(needle);
    if n.len() == 0 {
        return true;
    }
    find(&h, &n, 0).is_some()
}

/// The first `limit` pages, by position, with a line in which `needle` occurs.
pub open spec fn pages_with_text(pages: Seq<Seq<Seq<char>>>, needle: Seq<char>, limit: nat) -> Seq<int>
    decreases pages.len(),
{
    if pages.len() == 0 {
        Seq::empty()
    } else {
        let before = pages_with_text(pages.drop_last(), needle, limit);
        if before.len() < limit && exists|l: int| 0 <= l < pages.last().len() && occurs_in(needle, #[trigger] pages.last()[l]) {
            before.push(pages.len() - 1)
        } else {
            before
        }
    }
}

/// The positions of the first `limit` pages with a line in which `needle` occurs.
pub fn pages_containing(pages: &Vec<Vec<String>>, needle: &str, limit: usize) -> (r: Vec<usize>)
    ensures
        r@.map_values(|i: usize| i as int) == pages_with_text(
            pages@.map_values(|p: Vec<String>| p@.map_values(|l: String| l@)),
            needle@,
            limit as nat,
        ),
{
    let ghost pv = pages@.map_values(|p: Vec<String>| p@.map_values(|l: String| l@));
    let mut out: Vec<usize> = Vec::new();
    let mut i: usize = 0;
    while i < pages.len()
        invariant
            i <= pages@.len(),
            pv == pages@.map_values(|p: Vec<String>| p@.map_values(|l: String| l@)),
            out@.map_values(|i: usize| i as int) == pages_with_text(pv.subrange(0, i as int), needle@, limit as nat),
        decreases pages@.len() - i,
    {
        let page = &pages[i];
        assert(pv[i as int] == page@.map_values(|l: String| l@));
        assert(pv.subrange(0, i + 1).drop_last() =~= pv.subrange(0, i as int));
        let mut found = false;
        if out.len() < limit {
            let mut l: usize = 0;
            while l < page.len()
                invariant
                    l <= page@.len(),
                    i < pv.len(),
                    pv[i as int] == page@.map_values(|l: String| l@),
                    found ==> exists|m: int| 0 <= m < pv[i as int].len() && occurs_in(needle@, #[trigger] pv[i as int][m]),
                    !found ==> forall|m: int| 0 <= m < l ==> !occurs_in(needle@, #[trigger] pv[i as int][m]),
                decreases page@.len() - l,
            {
                if !found && contains_text(page[l].as_str(), needle) {
                    assert(pv[i as int][l as int] == page@[l as int]@);
                    found = true;
                }
                assert(pv[i as int][l as int] == page@[l as int]@);
                l = l + 1;
            }
        }
        let ghost before = out@.map_values(|i: usize| i as int);
        assert(pv.subrange(0, i + 1).last() == pv[i as int]);
        assert(before.len() == out@.len());
        if found {
            out.push(i);
            assert(out@.map_values(|i: usize| i as int) =~= before.push(i as int));
        }
        i = i + 1;
    }
    assert(pv.subrange(0, i as int) =~= pv);
    out
}

} // verus!
