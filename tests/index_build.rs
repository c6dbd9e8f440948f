use search_index::index::{Match, Page, SearchIndex, SearchResult};
use search_index::indexer::{
    content_start, is_emphasis_line, line_hidden, line_in_content, plan_page, render_record, Anchor, DocumentIndexer,
    OutlineEntry,
};
use search_index::render_cache::{DocumentMap, Image};

fn strings(v: &[&str]) -> Vec<String> {
    v.iter().map(|s| s.to_string()).collect()
}

fn image(a: &str, j: &str, w: u16, h: u16) -> Image {
    Image { rendered_avif: a.to_string(), rendered_jpeg: j.to_string(), width: w, height: h }
}

fn partial(name: &str, lines: &[(&[&str], i16)]) -> SearchIndex {
    let mut ix = DocumentIndexer::new(name.to_string());
    for (tokens, y) in lines {
        ix.add_line(&strings(tokens), 1.5f32.to_bits(), 0, *y, 100, 20);
    }
    ix.finish_page(3, image("a", "j", 600, 800));
    ix.finish()
}

fn word_hits(idx: &SearchIndex, word: &str) -> Vec<(String, u16, i16)> {
    let mut out = Vec::new();
    for e in idx.words.entries.iter() {
        if e.word == word {
            for m in e.matches.iter() {
                let r = &idx.results[m.result_index as usize];
                let p = &idx.pages[r.page_index as usize];
                out.push((idx.documents[p.document_index as usize].clone(), p.page_nr, r.y));
            }
        }
    }
    out.sort();
    out
}

#[test]
fn indexer_records_lines_and_dedups_tokens() {
    let mut ix = DocumentIndexer::new("d.pdf".to_string());
    ix.add_line(&strings(&[]), 0, 0, 0, 1, 1);
    assert!(ix.index.results.is_empty());
    ix.add_line(&strings(&["loi", "normal", "loi"]), 7, 1, 2, 3, 4);
    assert_eq!(ix.index.results, vec![SearchResult { page_index: 0, x: 1, y: 2, width: 3, height: 4 }]);
    let words: Vec<(String, Vec<Match>)> =
        ix.index.words.entries.iter().map(|e| (e.word.clone(), e.matches.clone())).collect();
    let m = Match { result_index: 0, score_bits: 7 };
    assert_eq!(words, vec![("loi".to_string(), vec![m]), ("normal".to_string(), vec![m])]);
    ix.finish_page(5, image("", "", 0, 0));
    assert_eq!(ix.pages_to_render(), vec![0]);
    ix.set_render(0, image("A", "J", 10, 20));
    assert!(ix.pages_to_render().is_empty());
    let idx = ix.finish();
    assert_eq!(idx.documents, strings(&["d.pdf"]));
    assert_eq!(idx.pages[0].page_nr, 5);
    assert_eq!(idx.pages[0].rendered_avif, "A");
}

#[test]
fn document_without_kept_pages_leaves_no_name() {
    let mut ix = DocumentIndexer::new("empty.pdf".to_string());
    ix.finish_page(0, image("", "", 0, 0));
    let idx = ix.finish();
    assert!(idx.documents.is_empty());
    assert!(idx.pages.is_empty());
}

#[test]
fn merge_rebases_indices_in_any_order() {
    let a = partial("a.pdf", &[(&["loi", "normal"], 10), (&["loi"], 50)]);
    let b = partial("b.pdf", &[(&["loi"], 30)]);
    let mut ab = SearchIndex::new();
    ab.merge(&a);
    ab.merge(&b);
    let mut ba = SearchIndex::new();
    ba.merge(&b);
    ba.merge(&a);
    assert_eq!(ab.documents, strings(&["a.pdf", "b.pdf"]));
    assert_eq!(ba.documents, strings(&["b.pdf", "a.pdf"]));
    assert_eq!(ba.pages[1].document_index, 1);
    assert_eq!(ba.results[1].page_index, 1);
    for idx in [&ab, &ba] {
        for p in idx.pages.iter() {
            assert!((p.document_index as usize) < idx.documents.len());
        }
        for r in idx.results.iter() {
            assert!((r.page_index as usize) < idx.pages.len());
        }
        for e in idx.words.entries.iter() {
            for m in e.matches.iter() {
                assert!((m.result_index as usize) < idx.results.len());
            }
        }
    }
    assert_eq!(word_hits(&ab, "loi"), word_hits(&ba, "loi"));
    assert_eq!(
        word_hits(&ab, "loi"),
        vec![("a.pdf".to_string(), 3, 10), ("a.pdf".to_string(), 3, 50), ("b.pdf".to_string(), 3, 30)]
    );
    assert_eq!(word_hits(&ab, "normal"), word_hits(&ba, "normal"));
}

#[test]
fn outline_anchor_skips_table_of_contents_and_descends() {
    let e = |t: &str, page: Option<u32>, y: i32, depth: u32| OutlineEntry { title: t.to_string(), page, y, depth };
    let outline = vec![
        e("TABLE DES MATIèRES", Some(0), 0, 0),
        e("Chapitre", Some(1), 500, 0),
        e("Table des matières", Some(1), 600, 1),
        e("Section", Some(2), 700, 1),
        e("Sous-section", Some(3), 800, 2),
        e("Autre", Some(9), 0, 0),
    ];
    // The first child is taken whatever its title.
    assert_eq!(content_start(&outline), Some(Anchor { page: 1, y: 600 }));
    let nested = vec![
        e("Chapitre", Some(1), 500, 0),
        e("Section", Some(2), 700, 1),
        e("Sous-section", Some(3), 800, 2),
        e("Autre section", Some(4), 900, 1),
    ];
    assert_eq!(content_start(&nested), Some(Anchor { page: 3, y: 800 }));
    let only_toc_child = vec![e("A", Some(1), 10, 0), e("table des matières", Some(2), 20, 1)];
    assert_eq!(content_start(&only_toc_child), Some(Anchor { page: 2, y: 20 }));
    assert_eq!(content_start(&vec![e("Autre", Some(9), 0, 0)]), Some(Anchor { page: 9, y: 0 }));
    assert_eq!(content_start(&Vec::new()), None);
    assert_eq!(content_start(&vec![e("table des matières", Some(0), 0, 0)]), None);
}

#[test]
fn outline_title_case_folding_is_ascii_only() {
    let e = |t: &str| OutlineEntry { title: t.to_string(), page: Some(4), y: 1, depth: 0 };
    assert_eq!(content_start(&vec![e("TABLE DES MATIèRES")]), None);
    assert_eq!(content_start(&vec![e("TABLE DES MATIÈRES")]), Some(Anchor { page: 4, y: 1 }));
}

#[test]
fn lines_before_the_anchor_are_skipped() {
    let a = Some(Anchor { page: 2, y: 300 });
    assert!(!line_in_content(a, 1, 900));
    assert!(!line_in_content(a, 2, 299));
    assert!(line_in_content(a, 2, 300));
    assert!(line_in_content(a, 3, 0));
    assert!(line_in_content(None, 0, 0));
}

#[test]
fn cached_renders_are_reused_after_a_round_trip() {
    let name = "doc.pdf".to_string();
    let mut cache = DocumentMap::new();
    cache.ensure_document(&name);
    let (first, needs) = plan_page(&cache, &name, 2);
    assert!(needs);
    assert_eq!(first.rendered_avif, "");
    cache.record(&name, 2, image("AV", "JP", 640, 480));
    cache.record(&name, 3, image("", "JP3", 1, 1));
    let (img, needs) = plan_page(&cache, &name, 2);
    assert!(!needs);
    assert_eq!((img.rendered_avif.as_str(), img.rendered_jpeg.as_str(), img.width, img.height), ("AV", "JP", 640, 480));
    assert!(plan_page(&cache, &name, 3).1);
    let bytes = cache.serialize();
    let back = DocumentMap::deserialize(&bytes).ok().unwrap();
    let (img2, needs2) = plan_page(&back, &name, 2);
    assert!(!needs2);
    assert_eq!(img2.rendered_avif, "AV");
    assert_eq!(img2.rendered_jpeg, "JP");
    assert_eq!(back.serialize(), bytes);
}

#[test]
fn cache_layout_and_errors() {
    let empty = DocumentMap::new();
    assert_eq!(empty.serialize(), vec![0, 0]);
    assert!(DocumentMap::deserialize(&[0, 0]).ok().unwrap().documents.is_empty());
    assert!(DocumentMap::deserialize(&[1]).is_err());
    let mut c = DocumentMap::new();
    c.record(&"d".to_string(), 1, image("a", "b", 2, 3));
    let bytes = c.serialize();
    assert_eq!(
        bytes,
        vec![1, 0, 1, 0, 0, 0, b'd', 1, 0, 1, 0, 1, 0, 0, 0, b'a', 1, 0, 0, 0, b'b', 2, 0, 3, 0]
    );
}

#[test]
fn page_deserialize_reads_one_record() {
    let mut idx = SearchIndex::new();
    idx.documents.push("d".to_string());
    idx.pages.push(Page {
        document_index: 0,
        page_nr: 2,
        rendered_avif: "x".to_string(),
        rendered_jpeg: "".to_string(),
        width: 3,
        height: 4,
    });
    let bytes = idx.serialize();
    let mut pos: usize = 4 + 4 + 1 + 4;
    let p = Page::deserialize(&bytes, &mut pos).ok().unwrap();
    assert_eq!((p.page_nr, p.rendered_avif.as_str(), p.width, p.height), (2, "x", 3, 4));
    assert_eq!(pos, 13 + 2 + 2 + 5 + 4 + 2 + 2);
}

#[test]
fn emphasis_lines_start_with_a_statement_stem() {
    assert!(is_emphasis_line(&strings(&["theorem", "pythagor"])));
    assert!(is_emphasis_line(&strings(&["definit"])));
    assert!(!is_emphasis_line(&strings(&["pythagor", "theorem"])));
    assert!(!is_emphasis_line(&strings(&[])));
}

#[test]
fn lines_over_ignored_colours_are_hidden() {
    let white = (255u8, 255u8, 255u8);
    let grey = (200u8, 200u8, 200u8);
    assert!(line_hidden(&[white, white, grey, white], &vec![white, grey]));
    assert!(!line_hidden(&[white, white, (0, 0, 0), white], &vec![white, grey]));
    assert!(!line_hidden(&[white; 4], &Vec::new()));
}

#[test]
fn render_records_name_both_variants_by_content() {

    let img = render_record(b"lossless bytes", b"lossy bytes", 640, 480);
    assert_eq!(img.rendered_avif.len(), 43);
    assert_eq!(img.rendered_jpeg.len(), 43);
    assert_ne!(img.rendered_avif, img.rendered_jpeg);
    assert!(img.is_complete());
    assert_eq!((img.width, img.height), (640, 480));
    assert_eq!(render_record(b"lossless bytes", b"x", 1, 1).rendered_avif, img.rendered_avif);
}

#[test]
fn kept_pages_follow_page_order() {
    let mut ix = DocumentIndexer::new("d.pdf".to_string());
    ix.add_line(&strings(&["loi"]), 1, 0, 0, 1, 1);
    ix.finish_page(2, image("a", "b", 1, 1));
    ix.finish_page(3, image("", "", 0, 0));
    ix.add_line(&strings(&["normal"]), 1, 0, 0, 1, 1);
    ix.finish_page(7, image("c", "d", 1, 1));
    let idx = ix.finish();
    let nrs: Vec<u16> = idx.pages.iter().map(|p| p.page_nr).collect();
    assert_eq!(nrs, vec![2, 7]);
    assert_eq!(idx.results.iter().map(|r| r.page_index).collect::<Vec<u32>>(), vec![0, 1]);
}
