//! The two pieces of HTTP that the query endpoint needs: reading the
//! method and target of a request line, and writing a response.

use vstd::prelude::*;
use vstd::utf8::encode_utf8;
use crate::normalize::{chars_of, string_of};

verus! {

/// The first position at or after `from` that holds `c`.
pub open spec fn first_at(b: Seq<u8>, c: u8, from: int) -> Option<int>
    decreases b.len() - from,
{
    if from < 0 || from >= b.len() {
        None
    } else if b[from] == c {
        Some(from)
    } else {
        first_at(b, c, from + 1)
    }
}

/// Method and target of a request: the bytes before the first space, and
/// those between it and the next space.
pub open spec fn request_line(b: Seq<u8>) -> Option<(Seq<u8>, Seq<u8>)> {
    match first_at(b, 32, 0) {
        None => None,
        Some(s1) => match first_at(b, 32, s1 + 1) {
            None => None,
            Some(s2) => Some((b.subrange(0, s1), b.subrange(s1 + 1, s2))),
        },
    }
}

proof fn lemma_first_at(b: Seq<u8>, c: u8, from: int)
    requires
        first_at(b, c, from) is Some,
    ensures
        from <= first_at(b, c, from)->Some_0 < b.len(),
    decreases b.len() - from,
{
    if !(from < 0 || from >= b.len()) && b[from] != c {
        lemma_first_at(b, c, from + 1);
    }
}

fn find_byte(b: &[u8], c: u8, from: usize) -> (r: Option<usize>)
    ensures
        match first_at(b@, c, from as int) {
            Some(p) => r == Some(p as usize),
            None => r is None,
        },
{
    let mut i = from;
    while i < b.len()
        invariant
            from <= i,
            first_at(b@, c, from as int) == first_at(b@, c, i as int),
        decreases b@.len() - i,
    {
        if b[i] == c {
            return Some(i);
        }
        i = i + 1;
    }
    None
}

fn copy_range(b: &[u8], lo: usize, hi: usize) -> (r: Vec<u8>)
    requires
        lo <= hi <= b@.len(),
    ensures
        r@ == b@.subrange(lo as int, hi as int),
{
    let mut out: Vec<u8> = Vec::new();
    let mut i = lo;
    while i < hi
        invariant
            lo <= i <= hi <= b@.len(),
            out@ == b@.subrange(lo as int, i as int),
        decreases hi - i,
    {
        out.push(b[i]);
        assert(out@ =~= b@.subrange(lo as int, i + 1));
        i = i + 1;
    }
    out
}

/// The method and target of the request whose first bytes are `b`, once
/// both spaces that end them have arrived.
pub fn parse_request_line(b: &[u8]) -> (r: Option<(Vec<u8>, Vec<u8>)>)
    ensures
        match request_line(b@) {
            Some((m, u)) => r is Some && r->Some_0.0@ == m && r->Some_0.1@ == u,
            None => r is None,
        },
{
    let bl = b.len();
    let s1 = match find_byte(b, 32, 0) {
        Some(p) => p,
        None => return None,
    };
    proof {
        lemma_first_at(b@, 32, 0);
        assert(s1 < bl);
    }
    let s2 = match find_byte(b, 32, s1 + 1) {
        Some(p) => p,
        None => return None,
    };
    proof {
        lemma_first_at(b@, 32, s1 + 1);
    }
    Some((copy_range(b, 0, s1), copy_range(b, s1 + 1, s2)))
}

pub open spec fn digit(n: nat) -> char {
    ((48 + n % 10) as u32) as char
}

/// The decimal digits of `n`.
pub open spec fn decimal(n: nat) -> Seq<char>
    decreases n,
{
    if n < 10 {
        seq![digit(n)]
    } else {
        decimal(n / 10).push(digit(n))
    }
}

/// The reason phrase of a status code.
pub open spec fn reason(code: u32) -> Seq<char> {
    if code == 200 {
        "OK"@
    } else {
        "Unknown"@
    }
}

/// Each header as a new line `name: value`.
pub open spec fn header_lines(hs: Seq<(Seq<char>, Seq<char>)>) -> Seq<char>
    decreases hs.len(),
{
    if hs.len() == 0 {
        Seq::empty()
    } else {
        header_lines(hs.drop_last()) + "\r\n"@ + hs.last().0 + ": "@ + hs.last().1
    }
}

/// The head of a response: status line, headers, and the blank line.
pub open spec fn response_head(code: u32, hs: Seq<(Seq<char>, Seq<char>)>) -> Seq<char> {
    "HTTP/1.1 "@ + decimal(code as nat) + " "@ + reason(code) + header_lines(hs) + "\r\n\r\n"@
}

fn decimal_chars(n: u32) -> (r: Vec<char>)
    ensures
        r@ == decimal(n as nat),
    decreases n,
{
    let d = ((48 + n % 10) as u8) as char;
    assert(d == digit(n as nat));
    if n < 10 {
        let mut v: Vec<char> = Vec::new();
        v.push(d);
        assert(v@ =~= seq![digit(n as nat)]);
        v
    } else {
        let mut v = decimal_chars(n / 10);
        v.push(d);
        v
    }
}

fn append(out: &mut Vec<char>, s: &str)
    ensures
        final(out)@ == old(out)@ + s@,
{
    let cs = chars_of(s);
    let mut i: usize = 0;
    let ghost start = out@;
    while i < cs.len()
        invariant
            out@ == start + cs@.subrange(0, i as int),
            start == old(out)@,
            cs@ == s@,
            i <= cs@.len(),
        decreases cs@.len() - i,
    {
        out.push(cs[i]);
        assert(out@ =~= start + cs@.subrange(0, i + 1));
        i = i + 1;
    }
    assert(out@ =~= old(out)@ + s@);
}

/// The bytes of a response: its head in UTF-8, then the body.
pub fn format_response(status_code: u32, headers: &Vec<(String, String)>, body: &Vec<u8>) -> (r: Vec<u8>)
    ensures
        r@ == encode_utf8(response_head(status_code, headers@.map_values(|h: (String, String)| (h.0@, h.1@))))
            + body@,
{
    let ghost hs = headers@.map_values(|h: (String, String)| (h.0@, h.1@));
    let mut head: Vec<char> = Vec::new();
    append(&mut head, "HTTP/1.1 ");
    let digits = decimal_chars(status_code);
    let mut i: usize = 0;
    let ghost s0 = head@;
    while i < digits.len()
        invariant
            head@ == s0 + digits@.subrange(0, i as int),
            i <= digits@.len(),
        decreases digits@.len() - i,
    {
        head.push(digits[i]);
        assert(head@ =~= s0 + digits@.subrange(0, i + 1));
        i = i + 1;
    }
    assert(digits@.subrange(0, i as int) =~= digits@);
    append(&mut head, " ");
    if status_code == 200 {
        append(&mut head, "OK");
    } else {
        append(&mut head, "Unknown");
    }
    let ghost s1 = head@;
    i = 0;
    while i < headers.len()
        invariant
            hs == headers@.map_values(|h: (String, String)| (h.0@, h.1@)),
            i <= headers@.len(),
            head@ == s1 + header_lines(hs.subrange(0, i as int)),
        decreases headers@.len() - i,
    {
        assert(hs.subrange(0, i + 1).drop_last() =~= hs.subrange(0, i as int));
        append(&mut head, "\r\n");
        append(&mut head, headers[i].0.as_str());
        append(&mut head, ": ");
        append(&mut head, headers[i].1.as_str());
        assert(head@ =~= s1 + header_lines(hs.subrange(0, i + 1)));
        i = i + 1;
    }
    assert(hs.subrange(0, i as int) =~= hs);
    append(&mut head, "\r\n\r\n");
    assert(head@ =~= response_head(status_code, hs));
    let text = string_of(&head);
    let bytes = text.as_str().as_bytes();
    let mut out: Vec<u8> = Vec::new();
    i = 0;
    while i < bytes.len()
        invariant
            bytes@ == encode_utf8(head@),
            i <= bytes@.len(),
            out@ == bytes@.subrange(0, i as int),
        decreases bytes@.len() - i,
    {
        out.push(bytes[i]);
        assert(out@ =~= bytes@.subrange(0, i + 1));
        i = i + 1;
    }
    let ghost mid = out@;
    assert(mid =~= bytes@);
    i = 0;
    while i < body.len()
        invariant
            i <= body@.len(),
            out@ == mid + body@.subrange(0, i as int),
        decreases body@.len() - i,
    {
        out.push(body[i]);
        assert(out@ =~= mid + body@.subrange(0, i + 1));
        i = i + 1;
    }
    assert(out@ =~= mid + body@);
    out
}

} // verus!
