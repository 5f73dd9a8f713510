use sigocr::chunk::{
    chunks_to_document, document_fits, extract_chunk, extract_media_box, page_dimensions,
    plan_chunks, plan_extraction, positioned_chars, ChunkResult, PageInput, RawChar,
};
use sigocr::error::SigocrError;
use sigocr::pdf::{has_embedded_text_bytes, has_visible_text, open_doc, page_count, pages_to_check, text_check_step, decide_pages};
use sigocr::types::{Page, Span};

const U: i32 = 1024;

fn raw(ch: char, x: i32, y: i32) -> RawChar {
    RawChar { ch, x: x * U, y: y * U, width: 6 * U, height: 10 * U, font_size: 10 * U, font_name: "F".to_string() }
}

fn raw_text(text: &str, x: i32, y: i32) -> Vec<RawChar> {
    text.chars().enumerate().map(|(i, c)| raw(c, x + 6 * i as i32, y)).collect()
}

fn page(index: usize, chars: Option<Vec<RawChar>>) -> PageInput {
    PageInput { page_index: index, width: 612 * 1024, height: 792 * 1024, chars }
}

#[test]
fn control_characters_are_dropped_and_sizes_defaulted() {
    let mut input = vec![raw('a', 0, 0), raw('\u{7}', 6, 0), raw('\n', 12, 0), raw('\t', 18, 0)];
    input.push(RawChar { ch: 'b', x: 0, y: 0, width: 0, height: -1, font_size: 10 * U, font_name: "F".into() });
    let out = positioned_chars(&input, 4);
    let chars: Vec<char> = out.iter().map(|c| c.ch).collect();
    assert_eq!(chars, vec!['a', '\n', '\t', 'b']);
    assert_eq!(out[3].width, 6144); // 0.6 of 10 points
    assert_eq!(out[3].height, 10 * U);
    assert_eq!(out[0].page_number, 4);
}

#[test]
fn default_width_rounds_to_nearest_unit() {
    let mk = |fs: i32| RawChar { ch: 'x', x: 0, y: 0, width: 0, height: 1, font_size: fs, font_name: "F".into() };
    let out = positioned_chars(&vec![mk(1), mk(3), mk(4), mk(-3)], 1);
    let widths: Vec<i32> = out.iter().map(|c| c.width).collect();
    assert_eq!(widths, vec![1, 2, 2, -2]);
}

#[test]
fn embedded_text_step_decides_per_page() {
    assert!(matches!(text_check_step(&Ok("  hello ".to_string())), Some(Ok(true))));
    assert!(text_check_step(&Ok(" \n\t".to_string())).is_none());
    match text_check_step(&Err("broken page".to_string())) {
        Some(Err(SigocrError::Pdf(m))) => assert_eq!(m, "broken page"),
        _ => panic!("expected a PDF error"),
    }
}

#[test]
fn embedded_text_decision_over_pages() {
    let ok = |t: &str| Ok::<String, String>(t.to_string());
    let err = |m: &str| Err::<String, String>(m.to_string());
    assert!(matches!(decide_pages(&vec![]), Ok(false)));
    assert!(matches!(decide_pages(&vec![ok(" "), ok("\n"), ok("")]), Ok(false)));
    assert!(matches!(decide_pages(&vec![ok(" "), ok("text"), err("later failure")]), Ok(true)));
    match decide_pages(&vec![ok("  "), err("bad page"), ok("text")]) {
        Err(SigocrError::Pdf(m)) => assert_eq!(m, "bad page"),
        _ => panic!("expected the reader's failure"),
    }
}

#[test]
fn pages_with_few_characters_have_no_text() {
    let pages = vec![page(0, Some(raw_text("short", 10, 700))), page(1, None)];
    let chunk = extract_chunk(&pages);
    assert!(!chunk.has_text);
    assert!(chunk.paragraphs.is_empty());
    assert_eq!(chunk.content, "");
    assert_eq!(
        chunk.pages,
        vec![
            Page { page_number: 1, width: 612 * 1024, height: 792 * 1024 },
            Page { page_number: 2, width: 612 * 1024, height: 792 * 1024 },
        ]
    );
    assert!(chunks_to_document(vec![chunk]).is_none());
}

#[test]
fn whitespace_does_not_count_toward_text() {
    let spaces = extract_chunk(&vec![page(0, Some(raw_text("          ", 10, 700)))]);
    assert!(!spaces.has_text);
    let nine = extract_chunk(&vec![page(0, Some(raw_text("a b c d e f g h i", 10, 700)))]);
    assert!(!nine.has_text);
    assert!(nine.paragraphs.is_empty());
    let ten = extract_chunk(&vec![page(0, Some(raw_text("a b c d e f g h i j", 10, 700)))]);
    assert!(ten.has_text);
    assert_eq!(ten.content, "a b c d e f g h i j");
}

#[test]
fn chunks_join_into_one_document_with_moved_spans() {
    let first = extract_chunk(&vec![page(0, Some(raw_text("first page text", 10, 700)))]);
    assert!(first.has_text);
    assert_eq!(first.content, "first page text");
    let empty = extract_chunk(&vec![page(1, None)]);
    let second = extract_chunk(&vec![page(2, Some(raw_text("second \u{1F600} page", 10, 700)))]);
    assert_eq!(second.paragraphs[0].spans[0], Span { offset: 0, length: 14 });
    let chunks = vec![first, empty, second];
    assert!(document_fits(&chunks));
    let doc = chunks_to_document(chunks).unwrap();
    assert_eq!(doc.content, "first page text\nsecond \u{1F600} page");
    assert_eq!(doc.pages.len(), 3);
    assert_eq!(doc.pages[2].page_number, 3);
    assert_eq!(doc.paragraphs.len(), 2);
    assert_eq!(doc.paragraphs[1].spans[0], Span { offset: 16, length: 14 });
    assert!(doc.tables.is_empty());
    let units: Vec<u16> = doc.content.encode_utf16().collect();
    for p in &doc.paragraphs {
        let s = p.spans[0];
        let slice = &units[s.offset as usize..(s.offset + s.length) as usize];
        assert_eq!(String::from_utf16(slice).unwrap(), p.content);
    }
}

#[test]
fn no_chunks_no_document() {
    let chunks: Vec<ChunkResult> = Vec::new();
    assert!(document_fits(&chunks));
    assert!(chunks_to_document(chunks).is_none());
}

#[test]
fn chunk_plans_cover_all_pages() {
    assert_eq!(plan_chunks(0, 4), vec![]);
    assert_eq!(plan_chunks(5, 4), vec![(0, 5)]);
    assert_eq!(plan_chunks(20, 8), vec![(0, 20)]);
    assert_eq!(plan_chunks(45, 2), vec![(0, 22), (22, 44), (44, 45)]);
    assert_eq!(plan_chunks(45, 8), vec![(0, 10), (10, 20), (20, 30), (30, 40), (40, 45)]);
    assert_eq!(plan_chunks(7, 0), vec![(0, 7)]);
}

#[test]
fn extraction_plan_uses_the_thread_pool() {
    assert_eq!(plan_extraction(0), vec![]);
    assert_eq!(plan_extraction(12), vec![(0, 12)]);
    let big = plan_extraction(1000);
    assert_eq!(big[0].0, 0);
    assert_eq!(big.last().unwrap().1, 1000);
    for w in big.windows(2) {
        assert_eq!(w[0].1, w[1].0);
        assert!(w[0].1 - w[0].0 >= 10);
    }
}

#[test]
fn page_size_from_media_box_or_letter() {
    let letter = (612 * 1024, 792 * 1024);
    assert_eq!(page_dimensions(&None), letter);
    assert_eq!(page_dimensions(&Some(vec![Some(0), Some(0)])), letter);
    let a4 = vec![Some(0), Some(0), Some(595 * U), Some(842 * U)];
    assert_eq!(page_dimensions(&Some(a4)), (595 * 1024, 842 * 1024));
    let flipped = vec![Some(100 * U), Some(900 * U), Some(50 * U), None, Some(7)];
    assert_eq!(extract_media_box(&flipped), Some((50 * 1024, 108 * 1024)));
    let missing = vec![None, None, None, None];
    assert_eq!(extract_media_box(&missing), Some(letter));
}

#[test]
fn error_messages() {
    assert_eq!(SigocrError::NotFound("/x.pdf".into()).message(), "ENOENT: /x.pdf");
    assert_eq!(SigocrError::Pdf("bad xref".into()).message(), "PDF error: bad xref");
    assert_eq!(SigocrError::Io("denied".into()).message(), "denied");
    assert_eq!(SigocrError::Other("other".into()).message(), "other");
}

#[test]
fn chunk_content_is_its_paragraphs_joined() {
    let mut chars = raw_text("Heading text", 10, 700);
    chars.extend(raw_text("Body of the page", 10, 600));
    let chunk = extract_chunk(&vec![page(0, Some(chars))]);
    let texts: Vec<&str> = chunk.paragraphs.iter().map(|p| p.content.as_str()).filter(|c| !c.is_empty()).collect();
    assert_eq!(texts, vec!["Heading text", "Body of the page"]);
    assert_eq!(chunk.content, texts.join("\n"));
}

#[test]
fn split_extraction_gives_the_same_document() {
    let pages = || {
        vec![
            page(0, Some(raw_text("first page text", 10, 700))),
            page(1, Some(raw_text("tiny", 10, 700))),
            page(2, Some(raw_text("third page \u{1F600} words", 10, 700))),
            page(3, None),
            page(4, Some(raw_text("fifth page text", 10, 700))),
        ]
    };
    let all = pages();
    let whole = chunks_to_document(vec![extract_chunk(&all)]).unwrap();
    let mut rest = pages();
    let tail = rest.split_off(2);
    let split = chunks_to_document(vec![extract_chunk(&rest), extract_chunk(&tail)]).unwrap();
    assert_eq!(split.content, whole.content);
    assert_eq!(split.pages, whole.pages);
    assert_eq!(split.paragraphs.len(), whole.paragraphs.len());
    for (a, b) in split.paragraphs.iter().zip(whole.paragraphs.iter()) {
        assert_eq!(a.content, b.content);
        assert_eq!(a.role, b.role);
        assert_eq!(a.spans, b.spans);
        assert_eq!(a.bounding_regions[0].polygon, b.bounding_regions[0].polygon);
    }
    assert_eq!(whole.content, "first page text\nthird page \u{1F600} words\nfifth page text");
}

#[test]
fn garbage_is_not_a_pdf() {
    let data = b"this is not a pdf";
    assert!(matches!(open_doc(data), Err(SigocrError::Pdf(_))));
    assert!(matches!(page_count(data), Err(SigocrError::Pdf(_))));
    assert!(matches!(has_embedded_text_bytes(data), Err(SigocrError::Pdf(_))));
    let message = |r: SigocrError| match r {
        SigocrError::Pdf(m) => m,
        _ => panic!("not a PDF error"),
    };
    let opened = message(open_doc(data).err().unwrap());
    assert!(!opened.is_empty());
    assert_eq!(message(page_count(data).unwrap_err()), opened);
    assert_eq!(message(has_embedded_text_bytes(data).unwrap_err()), opened);
}

#[test]
fn embedded_text_check_reads_three_pages_and_ignores_blanks() {
    assert_eq!(pages_to_check(0), 0);
    assert_eq!(pages_to_check(2), 2);
    assert_eq!(pages_to_check(50), 3);
    assert!(!has_visible_text(&" \n\t\u{3000}".to_string()));
    assert!(has_visible_text(&"  x ".to_string()));
    assert!(!has_visible_text(&String::new()));
}
