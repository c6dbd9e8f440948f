use search_index::hotspot::{decode_score, int_sqrt, PageHotspotImage};
use search_index::index::{Match, Page, SearchIndex, SearchResult};
use search_index::search::search;

fn page(doc: u16, nr: u16, height: u16) -> Page {
    Page {
        document_index: doc,
        page_nr: nr,
        rendered_avif: format!("a{}", nr),
        rendered_jpeg: format!("j{}", nr),
        width: 600,
        height,
    }
}

fn sample() -> SearchIndex {
    let mut idx = SearchIndex::new();
    idx.documents.push("23_rev_Espaces_prehilbertiens.pdf".to_string());
    idx.pages.push(page(0, 4, 1000));
    idx.pages.push(page(0, 16, 1000));
    idx.results.push(SearchResult { page_index: 0, x: 10, y: 100, width: 300, height: 20 });
    idx.results.push(SearchResult { page_index: 1, x: 10, y: 100, width: 300, height: 20 });
    idx.results.push(SearchResult { page_index: 1, x: 10, y: 900, width: 300, height: 20 });
    let s = 1.5f32.to_bits();
    idx.words.insert(
        "cauchy".to_string(),
        vec![Match { result_index: 0, score_bits: s }, Match { result_index: 1, score_bits: 1.9f32.to_bits() }],
    );
    idx.words.insert("schwarz".to_string(), vec![Match { result_index: 0, score_bits: s }, Match { result_index: 2, score_bits: s }]);
    idx.words.insert("orthogonal".to_string(), vec![Match { result_index: 1, score_bits: s }]);
    idx
}

#[test]
fn decode_score_is_fixed_point() {
    assert_eq!(decode_score(1.0f32.to_bits()), 65536);
    assert_eq!(decode_score(1.5f32.to_bits()), 98304);
    assert_eq!(decode_score(0.0f32.to_bits()), 0);
    assert_eq!(decode_score((-2.0f32).to_bits()), 0);
    assert_eq!(decode_score(f32::NAN.to_bits()), 0);
    assert_eq!(decode_score(1.0e30f32.to_bits()), 1 << 40);
}

#[test]
fn integer_square_root() {
    assert_eq!(int_sqrt(0), 0);
    assert_eq!(int_sqrt(15), 3);
    assert_eq!(int_sqrt(16), 4);
    assert_eq!(int_sqrt(u64::MAX), 4294967295);
}

#[test]
fn hotspot_tiles_and_falloff() {
    let mut img = PageHotspotImage::new(130, 1);
    assert_eq!(img.tiles.len(), 3);
    img.update_score(2 * 10 + 20, 0, 40000);
    // Doubled centre 40: tile 0 (doubled centre 64) gets the full falloff
    // (136^2 = 18496), tile 1 (distance 152) the floor of a quarter, tile 2
    // is out of reach.
    assert_eq!(img.tiles[0][0], 18496);
    assert_eq!(img.tiles[1][0], 10000);
    assert_eq!(img.tiles[2][0], 0);
    assert_eq!(img.maximum_score(), 136);
    img.update_score(40, 0, 100);
    assert_eq!(img.tiles[0][0], 18496);
}

#[test]
fn ranking_is_monotone_in_match_scores() {
    let mut low = PageHotspotImage::new(1000, 2);
    let mut high = PageHotspotImage::new(1000, 2);
    low.update_score(220, 0, 65536);
    high.update_score(220, 0, 98304);
    assert!(high.maximum_score() >= low.maximum_score());
    high.update_score(220, 1, 1000);
    assert!(high.maximum_score() > low.maximum_score());
}

#[test]
fn search_ranks_cooccurring_words_first() {
    let idx = sample();
    let r = search(&idx, "cs");
    assert!(!r.is_empty());
    assert_eq!(r[0].document_digest, "23_rev_Espaces_prehilbertiens.pdf");
    assert_eq!(r[0].number, 4);
    assert_eq!(r[0].rendered_avif, "a4");
    assert_eq!(r[0].highlights.len(), 1);
    assert_eq!(r[0].highlights[0].y, 100);
    assert_eq!(r.len(), 2);
    assert_eq!(r[1].number, 16);
    assert_eq!(r[1].highlights.len(), 2);
}

#[test]
fn search_expands_prefixes() {
    let idx = sample();
    let r = search(&idx, "orthogonal");
    assert_eq!(r.len(), 1);
    assert_eq!(r[0].number, 16);
    let r = search(&idx, "orth");
    assert_eq!(r.len(), 1);
}

#[test]
fn empty_or_stop_word_query_finds_nothing() {
    let idx = sample();
    assert!(search(&idx, "").is_empty());
    assert!(search(&idx, "le la").is_empty());
    assert!(search(&idx, "inconnu").is_empty());
}

#[test]
fn results_and_highlights_are_capped() {
    let mut idx = SearchIndex::new();
    idx.documents.push("d.pdf".to_string());
    let mut matches = Vec::new();
    for p in 0..7u16 {
        idx.pages.push(page(0, p, 1000));
        for k in 0..(if p == 0 { 60 } else { 1 }) {
            matches.push(Match { result_index: idx.results.len() as u32, score_bits: 1.0f32.to_bits() });
            idx.results.push(SearchResult { page_index: p as u32, x: 0, y: (k * 10) as i16, width: 5, height: 5 });
        }
    }
    idx.words.insert("loi".to_string(), matches);
    let r = search(&idx, "loi");
    assert_eq!(r.len(), 5);
    assert_eq!(r[0].number, 0);
    assert_eq!(r[0].highlights.len(), 50);
    assert_eq!(r[1].number, 1);
}

#[test]
fn empty_query_on_any_index_is_empty() {
    assert!(search(&SearchIndex::new(), "").is_empty());
    assert!(search(&sample(), "   ").is_empty());
}

#[test]
fn highlights_are_the_first_distinct_results_in_order() {
    let idx = sample();
    let r = search(&idx, "cs");
    // Page 16: "cauchy" meets result 1 (y 100) first, then "schwarz" result 2 (y 900).
    let ys: Vec<i16> = r[1].highlights.iter().map(|h| h.y).collect();
    assert_eq!(ys, vec![100, 900]);
}
