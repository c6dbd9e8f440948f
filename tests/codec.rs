use search_index::codec::DecodeError;
use search_index::index::{Match, Page, SearchIndex, SearchResult};

fn sample_index() -> SearchIndex {
    let mut idx = SearchIndex::new();
    idx.documents.push("23_rev_Espaces_prehilbertiens.pdf".to_string());
    idx.documents.push("é.pdf".to_string());
    idx.pages.push(Page {
        document_index: 0,
        page_nr: 4,
        rendered_avif: "abc".to_string(),
        rendered_jpeg: "def".to_string(),
        width: 1071,
        height: 1515,
    });
    idx.pages.push(Page {
        document_index: 1,
        page_nr: 0,
        rendered_avif: String::new(),
        rendered_jpeg: "x".to_string(),
        width: 10,
        height: 20,
    });
    idx.results.push(SearchResult { page_index: 0, x: -3, y: 100, width: 300, height: 20 });
    idx.results.push(SearchResult { page_index: 1, x: 7, y: -8, width: 1, height: 2 });
    idx.words.insert("schwarz".to_string(), vec![Match { result_index: 1, score_bits: 1.25f32.to_bits() }]);
    idx.words.insert(
        "cauchy".to_string(),
        vec![
            Match { result_index: 0, score_bits: 1.5f32.to_bits() },
            Match { result_index: 1, score_bits: 1.75f32.to_bits() },
        ],
    );
    idx
}

fn same_index(a: &SearchIndex, b: &SearchIndex) -> bool {
    if a.documents != b.documents || a.results != b.results || a.pages.len() != b.pages.len() {
        return false;
    }
    for (p, q) in a.pages.iter().zip(b.pages.iter()) {
        if p.document_index != q.document_index
            || p.page_nr != q.page_nr
            || p.rendered_avif != q.rendered_avif
            || p.rendered_jpeg != q.rendered_jpeg
            || p.width != q.width
            || p.height != q.height
        {
            return false;
        }
    }
    if a.words.entries.len() != b.words.entries.len() {
        return false;
    }
    for (e, f) in a.words.entries.iter().zip(b.words.entries.iter()) {
        if e.word != f.word || e.matches != f.matches {
            return false;
        }
    }
    true
}

#[test]
fn empty_index_round_trip() {
    let idx = SearchIndex::new();
    let bytes = idx.serialize();
    assert_eq!(bytes, vec![0u8; 16]);
    let back = SearchIndex::deserialize(&bytes).ok().unwrap();
    assert!(same_index(&idx, &back));
}

#[test]
fn representative_index_round_trip() {
    let idx = sample_index();
    let bytes = idx.serialize();
    let back = SearchIndex::deserialize(&bytes).ok().unwrap();
    assert!(same_index(&idx, &back));
    let words: Vec<&str> = back.words.entries.iter().map(|e| e.word.as_str()).collect();
    assert_eq!(words, vec!["cauchy", "schwarz"]);
}

#[test]
fn layout_is_little_endian_with_length_prefixes() {
    let mut idx = SearchIndex::new();
    idx.documents.push("ab".to_string());
    let bytes = idx.serialize();
    assert_eq!(bytes, vec![1, 0, 0, 0, 2, 0, 0, 0, b'a', b'b', 0, 0, 0, 0, 0, 0, 0, 0, 0, 0, 0, 0]);
}

#[test]
fn truncated_input_is_rejected() {
    let bytes = sample_index().serialize();
    for cut in [0usize, 3, 10, bytes.len() - 1] {
        assert_eq!(SearchIndex::deserialize(&bytes[..cut]).err(), Some(DecodeError::UnexpectedEnd));
    }
}

#[test]
fn invalid_utf8_is_rejected() {
    let bytes = vec![1, 0, 0, 0, 1, 0, 0, 0, 0xff];
    assert_eq!(SearchIndex::deserialize(&bytes).err(), Some(DecodeError::InvalidUtf8));
}

#[test]
fn unsorted_words_come_back_sorted_and_last_wins() {
    let mut bytes = vec![0u8; 12];
    bytes.extend_from_slice(&3u32.to_le_bytes());
    for (w, ri) in [("zeta", 1u32), ("alpha", 2), ("zeta", 3)] {
        bytes.extend_from_slice(&(w.len() as u32).to_le_bytes());
        bytes.extend_from_slice(w.as_bytes());
        bytes.extend_from_slice(&1u32.to_le_bytes());
        bytes.extend_from_slice(&ri.to_le_bytes());
        bytes.extend_from_slice(&0u32.to_le_bytes());
    }
    let idx = SearchIndex::deserialize(&bytes).ok().unwrap();
    let got: Vec<(String, u32)> =
        idx.words.entries.iter().map(|e| (e.word.clone(), e.matches[0].result_index)).collect();
    assert_eq!(got, vec![("alpha".to_string(), 2), ("zeta".to_string(), 3)]);
}

#[test]
fn reference_check_spots_dangling_indices() {
    let idx = sample_index();
    assert!(idx.refs_valid());
    let mut bad = sample_index();
    bad.results.push(SearchResult { page_index: 9, x: 0, y: 0, width: 0, height: 0 });
    assert!(!bad.refs_valid());
    let mut bad = sample_index();
    bad.words.insert("x".to_string(), vec![Match { result_index: 7, score_bits: 0 }]);
    assert!(!bad.refs_valid());
}
