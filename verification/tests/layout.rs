use sigocr::paragraphs::group_into_paragraphs;
use sigocr::reading_order::{group_into_lines, PositionedChar, TextLine};
use sigocr::tables::{cluster_columns, detect_tables, find_column, find_table_run, Column};
use sigocr::types::Span;

const U: i32 = 1024;

fn pc(ch: char, x: i32, y: i32, w: i32, fs: i32) -> PositionedChar {
    PositionedChar {
        ch,
        x: x * U,
        y: y * U,
        width: w * U,
        height: fs * U,
        font_size: fs * U,
        font_name: "Helvetica".to_string(),
        page_number: 1,
    }
}

/// Characters of a word laid out left to right, 6 points apart.
fn word(text: &str, x: i32, y: i32, fs: i32) -> Vec<PositionedChar> {
    text.chars()
        .enumerate()
        .map(|(i, c)| pc(c, x + 6 * i as i32, y, 6, fs))
        .collect()
}

fn line_of(text: &str, x: i32, y: i32, fs: i32) -> TextLine {
    let mut lines = group_into_lines(word(text, x, y, fs));
    assert_eq!(lines.len(), 1);
    lines.pop().unwrap()
}

#[test]
fn lines_are_sorted_top_to_bottom_then_left_to_right() {
    let mut chars = word("low", 10, 100, 10);
    chars.extend(word("high", 10, 700, 10));
    chars.reverse();
    let lines = group_into_lines(chars);
    assert_eq!(lines.len(), 2);
    assert_eq!(lines[0].text(), "high");
    assert_eq!(lines[1].text(), "low");
    assert_eq!(lines[0].y, 700 * U);
    assert_eq!(lines[0].min_x, 10 * U);
    assert_eq!(lines[0].max_x, ((10 + 18 + 6) * U) as i64);
    assert_eq!(lines[0].font_size, 10 * U);
}

#[test]
fn characters_within_half_font_size_share_a_line() {
    let mut chars = word("ab", 10, 100, 10);
    // 4 points lower: within half of the 10-point font size
    chars.push(pc('c', 22, 96, 6, 10));
    // 6 points lower than the line's first character: a new line
    chars.push(pc('d', 10, 94, 6, 10));
    let lines = group_into_lines(chars);
    assert_eq!(lines.len(), 2);
    assert_eq!(lines[0].text(), "abc");
    assert_eq!(lines[1].text(), "d");
}

#[test]
fn empty_input_gives_no_lines() {
    assert!(group_into_lines(Vec::new()).is_empty());
}

#[test]
fn line_sorting_is_stable_for_equal_positions() {
    let chars = vec![pc('x', 10, 100, 6, 10), pc('y', 10, 100, 6, 10)];
    let lines = group_into_lines(chars);
    assert_eq!(lines[0].text(), "xy");
}

#[test]
fn paragraph_inserts_spaces_at_gaps_and_joins_lines() {
    let mut chars = word("Hello", 10, 700, 10);
    chars.extend(word("world", 60, 700, 10));
    chars.extend(word("again", 10, 688, 10));
    let lines = group_into_lines(chars);
    assert_eq!(lines.len(), 2);
    let mut offset = 0usize;
    let mut content = String::new();
    let paras = group_into_paragraphs(lines, 1, 792 * 1024, &mut offset, &mut content);
    assert_eq!(paras.len(), 1);
    assert_eq!(paras[0].content, "Hello world\nagain");
    assert_eq!(content, "Hello world\nagain");
    assert_eq!(offset, 17);
    assert_eq!(paras[0].spans, vec![Span { offset: 0, length: 17 }]);
    assert_eq!(paras[0].role, None);
    let poly = &paras[0].bounding_regions[0].polygon;
    assert_eq!(paras[0].bounding_regions[0].page_number, 1);
    assert_eq!(poly, &vec![10 * 1024, 688 * 1024, 90 * 1024, 688 * 1024, 90 * 1024, 710 * 1024, 10 * 1024, 710 * 1024]);
}

#[test]
fn large_gap_and_font_change_start_new_paragraphs() {
    let lines = vec![
        line_of("Heading", 10, 600, 20),
        line_of("body one", 10, 570, 10),
        line_of("body two", 10, 558, 10),
        line_of("far below", 10, 500, 10),
    ];
    let mut offset = 0usize;
    let mut content = String::new();
    let paras = group_into_paragraphs(lines, 3, 792 * 1024, &mut offset, &mut content);
    let texts: Vec<&str> = paras.iter().map(|p| p.content.as_str()).collect();
    assert_eq!(texts, vec!["Heading", "body one\nbody two", "far below"]);
    assert_eq!(content, "Heading\nbody one\nbody two\nfar below");
    assert_eq!(paras[1].spans[0], Span { offset: 8, length: 17 });
    assert_eq!(paras[2].spans[0], Span { offset: 26, length: 9 });
    // median font size is 10pt; 20pt is more than 1.6 times it
    assert_eq!(paras[0].role.as_deref(), Some("title"));
    assert_eq!(paras[1].role, None);
}

#[test]
fn roles_from_position_and_size() {
    let height = 1000 * 1024;
    let cases: Vec<(TextLine, Option<&str>)> = vec![
        (line_of("12", 300, 50, 10), Some("pageNumber")),
        (line_of("+7", 300, 50, 10), Some("pageNumber")),
        (line_of("1234567", 300, 40, 10), Some("pageFooter")),
        (line_of("Chapter", 300, 950, 10), Some("pageHeader")),
        (line_of("note", 300, 40, 10), Some("pageFooter")),
        (line_of("note", 300, 60, 10), None),
        (line_of("Big", 300, 500, 13), Some("sectionHeading")),
    ];
    for (line, expected) in cases {
        let m1 = line_of("median", 10, 400, 10);
        let m2 = line_of("median", 10, 300, 10);
        let mut offset = 0usize;
        let mut content = String::new();
        // the first line of a paragraph decides its role; the two other
        // lines keep the median font size at 10pt
        let paras = group_into_paragraphs(vec![line, m1, m2], 1, height, &mut offset, &mut content);
        assert_eq!(paras[0].role.as_deref(), expected);
    }
}

#[test]
fn spans_count_utf16_units_and_separators() {
    let mut content = String::from("ab");
    let mut offset = 2usize;
    let lines = vec![line_of("x\u{1F600}y", 10, 500, 10)];
    let paras = group_into_paragraphs(lines, 1, 792 * 1024, &mut offset, &mut content);
    assert_eq!(content, "ab\nx\u{1F600}y");
    assert_eq!(paras[0].spans[0], Span { offset: 3, length: 4 });
    assert_eq!(offset, 7);
    let units: Vec<u16> = content.encode_utf16().collect();
    let selected = String::from_utf16(&units[3..7]).unwrap();
    assert_eq!(selected, paras[0].content);
}

#[test]
fn whitespace_only_lines_are_skipped_in_paragraph_text() {
    let lines = vec![line_of("one", 10, 500, 10), line_of("   ", 10, 488, 10), line_of("two", 10, 476, 10)];
    let mut offset = 0usize;
    let mut content = String::new();
    let paras = group_into_paragraphs(lines, 1, 792 * 1024, &mut offset, &mut content);
    assert_eq!(paras.len(), 1);
    assert_eq!(paras[0].content, "one\ntwo");
}

#[test]
fn columns_cluster_within_eight_points() {
    let xs = vec![10 * U, 12 * U, 18 * U, 100 * U, 104 * U, 300 * U];
    let cols = cluster_columns(&xs);
    assert_eq!(cols, vec![Column { min_x: 10 * U, max_x: 18 * U }, Column { min_x: 100 * U, max_x: 104 * U }]);
    assert_eq!(find_column(26 * U, &cols), Some(0));
    assert_eq!(find_column(27 * U, &cols), None);
    assert_eq!(find_column(92 * U, &cols), Some(1));
    assert!(cluster_columns(&Vec::new()).is_empty());
}

#[test]
fn tables_from_aligned_rows() {
    let lines = vec![
        line_of("Name", 10, 700, 10),
        line_of("Qty", 200, 700, 10),
        line_of("Apple", 10, 680, 10),
        line_of("3", 200, 682, 10),
    ];
    let mut offset = 5usize;
    let mut content = String::from("intro");
    let (tables, used) = detect_tables(&lines, 2, &mut offset, &mut content);
    assert_eq!(tables.len(), 1);
    assert_eq!(used, vec![0, 1, 2, 3]);
    let t = &tables[0];
    assert_eq!(t.row_count, 2);
    assert_eq!(t.column_count, 2);
    let cells: Vec<&str> = t.cells.iter().map(|c| c.content.as_str()).collect();
    assert_eq!(cells, vec!["cell_0_0", "cell_0_1", "cell_1_0", "cell_1_1"]);
    assert_eq!(t.cells[0].kind.as_deref(), Some("columnHeader"));
    assert_eq!(t.cells[2].kind, None);
    assert_eq!(t.cells[3].row_index, 1);
    assert_eq!(t.cells[3].column_index, 1);
    assert_eq!(t.cells[0].spans[0], Span { offset: 6, length: 0 });
    assert_eq!(t.cells[1].spans[0], Span { offset: 14, length: 0 });
    assert_eq!(t.spans[0], Span { offset: 6, length: 35 });
    assert_eq!(t.bounding_regions[0].polygon, vec![0; 8]);
    assert_eq!(t.bounding_regions[0].page_number, 2);
    assert_eq!(content, "intro\ncell_0_0 cell_0_1 cell_1_0 cell_1_1");
    assert_eq!(offset, 41);
    assert_eq!(offset, content.encode_utf16().count());
    let s = t.spans[0];
    assert_eq!(&content[s.offset as usize..(s.offset + s.length) as usize], "cell_0_0 cell_0_1 cell_1_0 cell_1_1");
}

#[test]
fn table_after_empty_content_has_no_separator() {
    let lines = vec![
        line_of("Name", 10, 700, 10),
        line_of("Qty", 200, 700, 10),
        line_of("Apple", 10, 680, 10),
        line_of("3", 200, 682, 10),
    ];
    let mut offset = 0usize;
    let mut content = String::new();
    let (tables, _) = detect_tables(&lines, 1, &mut offset, &mut content);
    assert_eq!(tables[0].spans[0], Span { offset: 0, length: 35 });
    assert_eq!(offset, 35);
    assert_eq!(content, "cell_0_0 cell_0_1 cell_1_0 cell_1_1");
}

#[test]
fn table_run_past_the_last_line_is_empty() {
    let lines = vec![line_of("Name", 10, 700, 10), line_of("Qty", 200, 700, 10)];
    let cols = cluster_columns(&vec![10 * U, 10 * U, 200 * U, 200 * U]);
    let run = find_table_run(&lines, 5, &cols);
    assert!(run.rows.is_empty());
    assert!(run.line_indices.is_empty());
    assert_eq!(run.end_index, 5);
    assert_eq!(run.col_count, 2);
    let run = find_table_run(&lines, 2, &cols);
    assert_eq!(run.end_index, 2);
}

#[test]
fn no_table_without_two_columns() {
    let lines = vec![line_of("one", 10, 700, 10), line_of("two", 10, 680, 10)];
    let mut offset = 0usize;
    let mut content = String::new();
    let (tables, used) = detect_tables(&lines, 1, &mut offset, &mut content);
    assert!(tables.is_empty());
    assert!(used.is_empty());
    assert_eq!(content, "");
    let (tables, _) = detect_tables(&lines[..1], 1, &mut offset, &mut content);
    assert!(tables.is_empty());
}
