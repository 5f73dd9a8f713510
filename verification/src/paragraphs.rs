//! Paragraphs: consecutive lines grouped by vertical spacing and font size,
//! with a role guessed from position and size, a bounding box, and a span
//! into the document content.
use vstd::prelude::*;
use crate::content::{needs_separator, place_all, place_text, placed_at, offset_after, offset_after_all, lemma_offset_monotone};
use crate::reading_order::{chars_text, line_views, LineView, PositionedChar, TextLine};
use crate::sort::{is_stable_order, stable_order, stable_order_of};
use crate::text::{is_whitespace_char, is_ws, push_char, string_from_chars, trim, trim_chars, utf16_len, lemma_utf16_concat};
use crate::types::{BoundingRegion, Paragraph, Span};

verus! {

/// Between `prev` and `curr` a space is written: the horizontal gap after
/// `prev` exceeds 0.3 of its width and neither is whitespace.
pub open spec fn needs_space(prev: PositionedChar, curr: PositionedChar) -> bool {
    &&& 10 * (curr.x - (prev.x + prev.width)) > 3 * prev.width
    &&& !is_ws(prev.ch)
    &&& !is_ws(curr.ch)
}

/// Text of the first `n` characters of a line, with spaces inserted at gaps.
pub open spec fn spaced_text(cs: Seq<PositionedChar>, n: int) -> Seq<char>
    decreases n,
{
    if n <= 0 {
        Seq::empty()
    } else if n == 1 {
        seq![cs[0].ch]
    } else if needs_space(cs[n - 2], cs[n - 1]) {
        spaced_text(cs, n - 1).push(' ').push(cs[n - 1].ch)
    } else {
        spaced_text(cs, n - 1).push(cs[n - 1].ch)
    }
}

/// A line's text as paragraphs show it.
pub open spec fn line_text(line: LineView) -> Seq<char> {
    spaced_text(line.chars, line.chars.len() as int)
}

/// Lines joined by newlines, trimmed, skipping lines that trim to nothing.
pub open spec fn joined_lines(lines: Seq<LineView>) -> Seq<char>
    decreases lines.len(),
{
    if lines.len() == 0 {
        Seq::empty()
    } else {
        let acc = joined_lines(lines.drop_last());
        let t = trim(line_text(lines.last()));
        if t.len() == 0 {
            acc
        } else if acc.len() == 0 {
            t
        } else {
            acc.push('\n') + t
        }
    }
}

/// `curr` starts a new paragraph after `prev`: the vertical gap exceeds
/// 2.25 times `prev`'s font size (1.5 times a 1.5 line spacing), or the
/// font size changes by more than 15%.
pub open spec fn paragraph_break(prev: LineView, curr: LineView) -> bool {
    let gap = prev.y - curr.y;
    let d = curr.font_size - prev.font_size;
    let ad = if d < 0 {
        -d
    } else {
        d
    };
    4 * gap > 9 * prev.font_size || 20 * ad > 3 * prev.font_size
}

/// The paragraphs (as groups of lines) formed by the first `n` lines.
pub open spec fn paragraph_groups(lines: Seq<LineView>, n: int) -> Seq<Seq<LineView>>
    decreases n,
{
    if n <= 0 {
        Seq::empty()
    } else if n == 1 {
        seq![seq![lines[0]]]
    } else {
        let g = paragraph_groups(lines, n - 1);
        if paragraph_break(lines[n - 2], lines[n - 1]) {
            g.push(seq![lines[n - 1]])
        } else {
            g.update(g.len() - 1, g.last().push(lines[n - 1]))
        }
    }
}

pub open spec fn min_i64(a: int, b: int) -> int {
    if a <= b {
        a
    } else {
        b
    }
}

pub open spec fn max_i64(a: int, b: int) -> int {
    if a >= b {
        a
    } else {
        b
    }
}

/// Leftmost line start of a non-empty group.
pub open spec fn group_min_x(g: Seq<LineView>) -> int
    decreases g.len(),
{
    if g.len() <= 1 {
        g[0].min_x as int
    } else {
        min_i64(group_min_x(g.drop_last()), g.last().min_x as int)
    }
}

/// Rightmost line end of a non-empty group.
pub open spec fn group_max_x(g: Seq<LineView>) -> int
    decreases g.len(),
{
    if g.len() <= 1 {
        g[0].max_x as int
    } else {
        max_i64(group_max_x(g.drop_last()), g.last().max_x as int)
    }
}

/// Lowest baseline of a non-empty group.
pub open spec fn group_min_y(g: Seq<LineView>) -> int
    decreases g.len(),
{
    if g.len() <= 1 {
        g[0].y as int
    } else {
        min_i64(group_min_y(g.drop_last()), g.last().y as int)
    }
}

/// Highest line top (baseline plus font size) of a non-empty group.
pub open spec fn group_max_y(g: Seq<LineView>) -> int
    decreases g.len(),
{
    if g.len() <= 1 {
        g[0].y + g[0].font_size
    } else {
        max_i64(group_max_y(g.drop_last()), g.last().y + g.last().font_size)
    }
}

/// The bounding polygon of a group: corners (min_x,min_y), (max_x,min_y),
/// (max_x,max_y), (min_x,max_y).
pub open spec fn group_polygon(g: Seq<LineView>) -> Seq<i64> {
    seq![
        group_min_x(g) as i64,
        group_min_y(g) as i64,
        group_max_x(g) as i64,
        group_min_y(g) as i64,
        group_max_x(g) as i64,
        group_max_y(g) as i64,
        group_min_x(g) as i64,
        group_max_y(g) as i64,
    ]
}

pub open spec fn is_ascii_digit(c: char) -> bool {
    '0' <= c <= '9'
}

/// `s.len() <= 6 && s.parse::<u32>().is_ok()`: at most six characters, an
/// optional `+`, then at least one ASCII digit and nothing else (such a
/// text is ASCII, so its length in bytes is its length in characters, and
/// six digits cannot overflow a `u32`).
pub open spec fn is_page_number_text(s: Seq<char>) -> bool {
    &&& s.len() <= 6
    &&& digits_part(s).len() > 0
    &&& forall|i: int| 0 <= i < digits_part(s).len() ==> is_ascii_digit(#[trigger] digits_part(s)[i])
}

/// The text after an optional leading `+`.
pub open spec fn digits_part(s: Seq<char>) -> Seq<char> {
    if s.len() > 0 && s[0] == '+' {
        s.drop_first()
    } else {
        s
    }
}

/// The role of a paragraph whose first line is `line`, on a page of
/// height `page_height`, where the median font size is `median`.
pub open spec fn role_of(line: LineView, page_height: i64, median: i32) -> Option<Seq<char>> {
    let y = line.y as int;
    let h = page_height as int;
    let fs = line.font_size as int;
    if 25 * y < 2 * h && is_page_number_text(trim(chars_text(line.chars))) {
        Some("pageNumber"@)
    } else if 25 * y > 23 * h {
        Some("pageHeader"@)
    } else if 20 * y < h {
        Some("pageFooter"@)
    } else if 5 * fs > 8 * median {
        Some("title"@)
    } else if 5 * fs > 6 * median {
        Some("sectionHeading"@)
    } else {
        None
    }
}

/// An optional string carries the optional text.
pub open spec fn option_text(r: Option<String>, t: Option<Seq<char>>) -> bool {
    match r {
        Some(s) => t == Some(s@),
        None => t is None,
    }
}

/// Sort keys for font sizes.
pub open spec fn font_keys(lines: Seq<LineView>) -> Seq<(i64, i64)> {
    lines.map_values(|l: LineView| (l.font_size as i64, 0i64))
}

/// The median font size: the element at position n/2 of the sizes sorted
/// ascending.
pub open spec fn median_font_size(lines: Seq<LineView>) -> i32 {
    lines[stable_order_of(font_keys(lines))[(lines.len() / 2) as int] as int].font_size
}

/// `p` is the paragraph built from `group`, appended after `content` with
/// running offset `offset`.
pub open spec fn paragraph_from(
    p: Paragraph,
    group: Seq<LineView>,
    page_number: i32,
    page_height: i64,
    median: i32,
    content: Seq<char>,
    offset: int,
) -> bool {
    let t = joined_lines(group);
    &&& p.content@ == t
    &&& option_text(p.role, role_of(group[0], page_height, median))
    &&& p.spans@ == seq![
        Span { offset: placed_at(content, offset, t) as i32, length: utf16_len(t) as i32 },
    ]
    &&& p.bounding_regions@.len() == 1
    &&& p.bounding_regions@[0].page_number == page_number
    &&& p.bounding_regions@[0].polygon@ == group_polygon(group)
}

/// The texts of the paragraphs of `groups`.
pub open spec fn group_texts(groups: Seq<Seq<LineView>>) -> Seq<Seq<char>> {
    groups.map_values(|g: Seq<LineView>| joined_lines(g))
}

/// `paras` are the paragraphs that `group_into_paragraphs` builds from
/// `lines`, appended after `content` with running offset `offset`.
pub open spec fn paragraphs_of(
    lines: Seq<LineView>,
    page_number: i32,
    page_height: i64,
    content: Seq<char>,
    offset: int,
    paras: Seq<Paragraph>,
) -> bool {
    let g = paragraph_groups(lines, lines.len() as int);
    let texts = group_texts(g);
    &&& paras.len() == g.len()
    &&& forall|k: int|
        0 <= k < paras.len() ==> paragraph_from(
            #[trigger] paras[k],
            g[k],
            page_number,
            page_height,
            median_font_size(lines),
            place_all(content, texts.take(k)),
            offset_after_all(content, offset, texts.take(k)),
        )
}

/// Converts a line to a string, inserting spaces between characters whose
/// gap is larger than 0.3 of the previous character's width.
fn line_to_text(line: &TextLine) -> (t: Vec<char>)
    ensures
        t@ == line_text(line@),
{
    let cs = &line.chars;
    let mut result: Vec<char> = Vec::new();
    if cs.len() == 0 {
        return result;
    }
    result.push(cs[0].ch);
    let mut i: usize = 1;
    assert(result@ =~= spaced_text(cs@, 1));
    while i < cs.len()
        invariant
            1 <= i <= cs@.len(),
            result@ == spaced_text(cs@, i as int),
        decreases cs@.len() - i,
    {
        let prev = &cs[i - 1];
        let curr = &cs[i];
        let gap = curr.x as i64 - (prev.x as i64 + prev.width as i64);
        if 10 * gap > 3 * (prev.width as i64) && !is_whitespace_char(prev.ch)
            && !is_whitespace_char(curr.ch) {
            result.push(' ');
        }
        result.push(curr.ch);
        i = i + 1;
    }
    result
}

/// `s.trim()` is a page number of at most six characters.
fn is_page_number(s: &Vec<char>) -> (b: bool)
    ensures
        b == is_page_number_text(s@),
{
    let n = s.len();
    if n > 6 || n == 0 {
        return false;
    }
    let start: usize = if s[0] == '+' {
        1
    } else {
        0
    };
    if start >= n {
        return false;
    }
    let ghost d = digits_part(s@);
    let mut i = start;
    while i < n
        invariant
            n == s@.len(),
            0 <= start <= i <= n,
            start == (if s@[0] == '+' {
                1int
            } else {
                0
            }),
            d == s@.subrange(start as int, n as int),
            d == digits_part(s@),
            1 <= n <= 6,
            forall|k: int| 0 <= k < i - start ==> is_ascii_digit(#[trigger] d[k]),
        decreases n - i,
    {
        let c = s[i];
        if !('0' <= c && c <= '9') {
            assert(!is_ascii_digit(d[i - start]));
            return false;
        }
        i = i + 1;
    }
    true
}

/// Role from position and font size heuristics.
fn detect_role(line: &TextLine, page_height: i64, median_font_size: i32) -> (r: Option<String>)
    ensures
        option_text(r, role_of(line@, page_height, median_font_size)),
{
    let y = line.y as i128;
    let h = page_height as i128;
    let fs = line.font_size as i128;
    let m = median_font_size as i128;
    if 25 * y < 2 * h {
        let text = line.text();
        let chars = crate::text::chars_of(text.as_str());
        let trimmed = trim_chars(&chars);
        if is_page_number(&trimmed) {
            return Some(String::from_str("pageNumber"));
        }
    }
    if 25 * y > 23 * h {
        return Some(String::from_str("pageHeader"));
    }
    if 20 * y < h {
        return Some(String::from_str("pageFooter"));
    }
    if 5 * fs > 8 * m {
        return Some(String::from_str("title"));
    }
    if 5 * fs > 6 * m {
        return Some(String::from_str("sectionHeading"));
    }
    None
}

/// Median of the lines' font sizes (the element at index n/2 once sorted).
fn median_of(lines: &Vec<TextLine>) -> (m: i32)
    requires
        lines@.len() > 0,
    ensures
        m == median_font_size(line_views(lines@)),
{
    let mut keys: Vec<(i64, i64)> = Vec::new();
    let mut i: usize = 0;
    while i < lines.len()
        invariant
            0 <= i <= lines@.len(),
            keys@ =~= font_keys(line_views(lines@)).take(i as int),
        decreases lines@.len() - i,
    {
        keys.push((lines[i].font_size as i64, 0));
        i = i + 1;
    }
    assert(keys@ =~= font_keys(line_views(lines@)));
    let order = stable_order(&keys);
    assert(is_stable_order(keys@, order@));
    let k = order[lines.len() / 2];
    lines[k].font_size
}

/// Appends `text` to the content: a newline first when both are
/// non-empty, keeping the running offset in UTF-16 units.
/// Returns where the text starts and its UTF-16 length.
fn append_text(content_offset: &mut usize, full_content: &mut String, text: &Vec<char>) -> (r: (
    usize,
    usize,
))
    requires
        offset_after(old(full_content)@, *old(content_offset) as int, text@) <= usize::MAX,
    ensures
        final(full_content)@ == place_text(old(full_content)@, text@),
        r.0 == placed_at(old(full_content)@, *old(content_offset) as int, text@),
        r.1 == utf16_len(text@),
        *final(content_offset) == offset_after(old(full_content)@, *old(content_offset) as int, text@),
{
    if !full_content.as_str().is_empty() && text.len() > 0 {
        push_char(full_content, '\n');
        *content_offset = *content_offset + 1;
    }
    let start = *content_offset;
    let mut n: usize = 0;
    let mut i: usize = 0;
    while i < text.len()
        invariant
            0 <= i <= text@.len(),
            n == utf16_len(text@.take(i as int)),
            start + utf16_len(text@) <= usize::MAX,
        decreases text@.len() - i,
    {
        proof {
            assert(text@.take(i + 1) =~= text@.take(i as int) + seq![text@[i as int]]);
            assert(text@ =~= text@.take(i + 1) + text@.skip(i + 1));
            lemma_utf16_concat(text@.take(i + 1), text@.skip(i + 1));
            assert(text@.take(i + 1).drop_last() =~= text@.take(i as int));
        }
        if (text[i] as u32) >= 0x10000 {
            n = n + 2;
        } else {
            n = n + 1;
        }
        i = i + 1;
    }
    assert(text@.take(i as int) =~= text@);
    let s = string_from_chars(text);
    full_content.append(s.as_str());
    proof {
        if needs_separator(old(full_content)@, text@) {
            assert(old(full_content)@.push('\n') + text@ =~= final(full_content)@) by {
                assert(full_content@ == old(full_content)@.push('\n') + text@);
            }
        }
    }
    *content_offset = start + n;
    (start, n)
}

/// Builds the paragraph of lines `start..end`, appending its text to the
/// document content.
fn build_paragraph(
    lines: &Vec<TextLine>,
    start: usize,
    end: usize,
    page_number: i32,
    page_height: i64,
    median_font_size: i32,
    content_offset: &mut usize,
    full_content: &mut String,
) -> (p: Paragraph)
    requires
        start < end <= lines@.len(),
        offset_after(
            old(full_content)@,
            *old(content_offset) as int,
            joined_lines(line_views(lines@).subrange(start as int, end as int)),
        ) <= usize::MAX,
    ensures
        paragraph_from(
            p,
            line_views(lines@).subrange(start as int, end as int),
            page_number,
            page_height,
            median_font_size,
            old(full_content)@,
            *old(content_offset) as int,
        ),
        final(full_content)@ == place_text(
            old(full_content)@,
            joined_lines(line_views(lines@).subrange(start as int, end as int)),
        ),
        *final(content_offset) == offset_after(
            old(full_content)@,
            *old(content_offset) as int,
            joined_lines(line_views(lines@).subrange(start as int, end as int)),
        ),
{
    let ghost g = line_views(lines@).subrange(start as int, end as int);
    let mut text: Vec<char> = Vec::new();
    let mut min_x: i64 = lines[start].min_x as i64;
    let mut max_x: i64 = lines[start].max_x;
    let mut min_y: i64 = lines[start].y as i64;
    let mut max_y: i64 = lines[start].y as i64 + lines[start].font_size as i64;
    let mut k = start;
    while k < end
        invariant
            start <= k <= end <= lines@.len(),
            start < end,
            g == line_views(lines@).subrange(start as int, end as int),
            text@ == joined_lines(line_views(lines@).subrange(start as int, k as int)),
            k > start ==> min_x == group_min_x(line_views(lines@).subrange(start as int, k as int)),
            k > start ==> max_x == group_max_x(line_views(lines@).subrange(start as int, k as int)),
            k > start ==> min_y == group_min_y(line_views(lines@).subrange(start as int, k as int)),
            k > start ==> max_y == group_max_y(line_views(lines@).subrange(start as int, k as int)),
            k == start ==> min_x == lines@[start as int]@.min_x,
            k == start ==> max_x == lines@[start as int].max_x,
            k == start ==> min_y == lines@[start as int].y,
            k == start ==> max_y == lines@[start as int].y + lines@[start as int].font_size,
        decreases end - k,
    {
        let ghost before = line_views(lines@).subrange(start as int, k as int);
        let ghost after = line_views(lines@).subrange(start as int, k + 1);
        assert(after.drop_last() =~= before);
        let line = &lines[k];
        let lt = line_to_text(line);
        let t = trim_chars(&lt);
        if t.len() > 0 {
            if text.len() > 0 {
                text.push('\n');
            }
            let mut j: usize = 0;
            let ghost base = text@;
            while j < t.len()
                invariant
                    0 <= j <= t@.len(),
                    text@ == base + t@.take(j as int),
                decreases t@.len() - j,
            {
                text.push(t[j]);
                assert(t@.take(j + 1) =~= t@.take(j as int).push(t@[j as int]));
                j = j + 1;
            }
            assert(t@.take(j as int) =~= t@);
            proof {
                if before.len() > 0 && joined_lines(before).len() > 0 {
                    assert(text@ =~= joined_lines(before).push('\n') + t@);
                } else {
                    assert(text@ =~= t@);
                }
            }
        }
        if k > start {
            if (line.min_x as i64) < min_x {
                min_x = line.min_x as i64;
            }
            if line.max_x > max_x {
                max_x = line.max_x;
            }
            if (line.y as i64) < min_y {
                min_y = line.y as i64;
            }
            if line.y as i64 + line.font_size as i64 > max_y {
                max_y = line.y as i64 + line.font_size as i64;
            }
        }
        proof {
            if k == start {
                assert(after =~= seq![lines@[start as int]@]);
            }
        }
        k = k + 1;
    }
    assert(line_views(lines@).subrange(start as int, k as int) =~= g);
    let role = detect_role(&lines[start], page_height, median_font_size);
    let (span_offset, len16) = append_text(content_offset, full_content, &text);
    let content = string_from_chars(&text);
    let polygon: Vec<i64> = vec![min_x, min_y, max_x, min_y, max_x, max_y, min_x, max_y];
    assert(polygon@ =~= group_polygon(g));
    let region = BoundingRegion { page_number, polygon };
    let mut regions: Vec<BoundingRegion> = Vec::new();
    regions.push(region);
    let mut spans: Vec<Span> = Vec::new();
    spans.push(Span { offset: span_offset as i32, length: len16 as i32 });
    assert(g[0] == lines@[start as int]@);
    let p = Paragraph { content, role, spans, bounding_regions: regions };
    assert(p.spans@ =~= seq![
        Span {
            offset: placed_at(old(full_content)@, *old(content_offset) as int, joined_lines(g)) as i32,
            length: utf16_len(joined_lines(g)) as i32,
        },
    ]);
    p
}

/// Group lines into paragraphs based on vertical spacing.
/// Lines that are close together (within ~1.5x line height) form a paragraph.
/// Lines with different font sizes or large gaps start new paragraphs.
/// Each paragraph's text is appended to `full_content`, and
/// `content_offset` advances by its UTF-16 length (plus one for a
/// separating newline).
pub fn group_into_paragraphs(
    lines: Vec<TextLine>,
    page_number: i32,
    page_height: i64,
    content_offset: &mut usize,
    full_content: &mut String,
) -> (paras: Vec<Paragraph>)
    requires
        offset_after_all(
            old(full_content)@,
            *old(content_offset) as int,
            group_texts(paragraph_groups(line_views(lines@), lines@.len() as int)),
        ) <= usize::MAX,
    ensures
        paragraphs_of(
            line_views(lines@),
            page_number,
            page_height,
            old(full_content)@,
            *old(content_offset) as int,
            paras@,
        ),
        final(full_content)@ == place_all(
            old(full_content)@,
            group_texts(paragraph_groups(line_views(lines@), lines@.len() as int)),
        ),
        *final(content_offset) == offset_after_all(
            old(full_content)@,
            *old(content_offset) as int,
            group_texts(paragraph_groups(line_views(lines@), lines@.len() as int)),
        ),
{
    let mut paras: Vec<Paragraph> = Vec::new();
    let n = lines.len();
    if n == 0 {
        return paras;
    }
    let median = median_of(&lines);
    let ghost c0 = full_content@;
    let ghost o0 = *content_offset as int;
    let ghost all = group_texts(paragraph_groups(line_views(lines@), n as int));
    let mut start: usize = 0;
    let mut i: usize = 1;
    assert(paragraph_groups(line_views(lines@), 1)[0] =~= line_views(lines@).subrange(0, 1));
    while i < n
        invariant
            n == lines@.len(),
            0 <= start < i <= n,
            median == median_font_size(line_views(lines@)),
            all == group_texts(paragraph_groups(line_views(lines@), n as int)),
            offset_after_all(c0, o0, all) <= usize::MAX,
            paras@.len() + 1 == paragraph_groups(line_views(lines@), i as int).len(),
            paragraph_groups(line_views(lines@), i as int).last() == line_views(lines@).subrange(start as int, i as int),
            forall|k: int|
                0 <= k < paras@.len() ==> paragraph_from(
                    #[trigger] paras@[k],
                    paragraph_groups(line_views(lines@), n as int)[k],
                    page_number,
                    page_height,
                    median,
                    place_all(c0, all.take(k)),
                    offset_after_all(c0, o0, all.take(k)),
                ),
            full_content@ == place_all(c0, all.take(paras@.len() as int)),
            *content_offset == offset_after_all(c0, o0, all.take(paras@.len() as int)),
        decreases n - i,
    {
        let ghost g = paragraph_groups(line_views(lines@), i as int);
        if paragraph_break_at(&lines, i) {
            proof {
                lemma_groups_prefix(line_views(lines@), i as int, n as int);
                assert(paragraph_groups(line_views(lines@), i + 1) == g.push(seq![lines@[i as int]@]));
                lemma_step_bound(c0, o0, all, paras@.len() as int);
                assert(all[paras@.len() as int] == joined_lines(line_views(lines@).subrange(start as int, i as int)));
            }
            let p = build_paragraph(
                &lines,
                start,
                i,
                page_number,
                page_height,
                median,
                content_offset,
                full_content,
            );
            proof {
                let k = paras@.len() as int;
                assert(all.take(k + 1) =~= all.take(k).push(all[k]));
                assert(all.take(k + 1).drop_last() =~= all.take(k));
            }
            paras.push(p);
            start = i;
            proof {
                assert(paragraph_groups(line_views(lines@), i + 1).last() =~= line_views(lines@).subrange(i as int, i + 1));
            }
        } else {
            proof {
                assert(paragraph_groups(line_views(lines@), i + 1) == g.update(
                    g.len() - 1,
                    g.last().push(lines@[i as int]@),
                ));
                assert(line_views(lines@).subrange(start as int, i + 1) =~= line_views(lines@).subrange(
                    start as int,
                    i as int,
                ).push(lines@[i as int]@));
            }
        }
        i = i + 1;
    }
    proof {
        lemma_groups_len(line_views(lines@), n as int);
        assert(all[paras@.len() as int] == joined_lines(line_views(lines@).subrange(start as int, n as int)));
        lemma_step_bound(c0, o0, all, paras@.len() as int);
    }
    let p = build_paragraph(
        &lines,
        start,
        n,
        page_number,
        page_height,
        median,
        content_offset,
        full_content,
    );
    proof {
        let k = paras@.len() as int;
        assert(all.take(k + 1) =~= all);
        assert(all.take(k + 1).drop_last() =~= all.take(k));
    }
    paras.push(p);
    paras
}

fn paragraph_break_at(lines: &Vec<TextLine>, i: usize) -> (b: bool)
    requires
        1 <= i < lines@.len(),
    ensures
        b == paragraph_break(lines@[i - 1]@, lines@[i as int]@),
{
    let prev = &lines[i - 1];
    let curr = &lines[i];
    let gap = prev.y as i64 - curr.y as i64;
    let d = curr.font_size as i64 - prev.font_size as i64;
    let ad = if d < 0 {
        -d
    } else {
        d
    };
    4 * gap > 9 * (prev.font_size as i64) || 20 * ad > 3 * (prev.font_size as i64)
}

proof fn lemma_groups_len(lines: Seq<LineView>, n: int)
    requires
        1 <= n,
    ensures
        paragraph_groups(lines, n).len() >= 1,
    decreases n,
{
    if n > 1 {
        lemma_groups_len(lines, n - 1);
    }
}

/// Groups closed before line `i` stay as they are when more lines follow.
proof fn lemma_groups_prefix(lines: Seq<LineView>, i: int, n: int)
    requires
        1 <= i <= n,
    ensures
        paragraph_groups(lines, i).len() <= paragraph_groups(lines, n).len(),
        forall|k: int|
            0 <= k < paragraph_groups(lines, i).len() - 1 ==> #[trigger] paragraph_groups(
                lines,
                i,
            )[k] == paragraph_groups(lines, n)[k],
        i < n && paragraph_break(lines[i - 1], lines[i]) ==> paragraph_groups(lines, i).last()
            == paragraph_groups(lines, n)[paragraph_groups(lines, i).len() - 1],
    decreases n - i,
{
    lemma_groups_len(lines, i);
    if i < n {
        lemma_groups_prefix(lines, i + 1, n);
        lemma_groups_len(lines, i + 1);
        let g = paragraph_groups(lines, i);
        let g1 = paragraph_groups(lines, i + 1);
        if paragraph_break(lines[i - 1], lines[i]) {
            assert(g1 == g.push(seq![lines[i]]));
            assert(forall|k: int| 0 <= k < g.len() ==> g1[k] == #[trigger] g[k]);
        } else {
            assert(g1 == g.update(g.len() - 1, g.last().push(lines[i])));
            assert(forall|k: int| 0 <= k < g.len() - 1 ==> g1[k] == #[trigger] g[k]);
        }
    }
}

proof fn lemma_step_bound(c0: Seq<char>, o0: int, all: Seq<Seq<char>>, k: int)
    requires
        0 <= k < all.len(),
        offset_after_all(c0, o0, all) <= usize::MAX,
    ensures
        offset_after(place_all(c0, all.take(k)), offset_after_all(c0, o0, all.take(k)), all[k])
            <= usize::MAX,
        offset_after_all(c0, o0, all.take(k + 1)) == offset_after(
            place_all(c0, all.take(k)),
            offset_after_all(c0, o0, all.take(k)),
            all[k],
        ),
        place_all(c0, all.take(k + 1)) == place_text(place_all(c0, all.take(k)), all[k]),
{
    lemma_offset_monotone(c0, o0, all, k + 1);
    assert(all.take(k + 1).drop_last() =~= all.take(k));
    assert(all.take(k + 1).last() == all[k]);
}

} // verus!
