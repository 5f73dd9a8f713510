//! Page ranges ("chunks") and their assembly: characters of each page go
//! through reading order and paragraph grouping, chunk results are joined
//! into one document.
use vstd::prelude::*;
use crate::content::{needs_separator, place_all, place_text, placed_at, offset_after, offset_after_all, lemma_offset_monotone};
use crate::paragraphs::{group_into_paragraphs, group_texts, paragraph_groups, paragraphs_of};
use crate::reading_order::{group_into_lines, lines_model, LineView, PositionedChar};
use crate::text::{is_control_char, is_ctrl, is_whitespace_char, is_ws, push_char, utf16_len, lemma_utf16_concat};
use crate::types::{Document, Page, Paragraph, Span, UNITS_PER_POINT};
use crate::bounds::{raw_total, lemma_chunk_offset_bound};

verus! {

/// Minimum number of non-whitespace characters for a page to count as
/// having text.
pub const MIN_TEXT_CHARS: usize = 10;

/// Minimum pages before extraction is split into parallel chunks.
pub const PARALLEL_THRESHOLD: usize = 20;

/// A character as the PDF reader reports it (fixed-point units; a width
/// or height of zero or less means the reader did not know it).
#[derive(Debug)]
pub struct RawChar {
    pub ch: char,
    pub x: i32,
    pub y: i32,
    pub width: i32,
    pub height: i32,
    pub font_size: i32,
    pub font_name: String,
}

/// One page as the PDF reader reports it: its index, size, and its
/// characters (`None` when the reader could not extract them).
#[derive(Debug)]
pub struct PageInput {
    pub page_index: usize,
    pub width: i64,
    pub height: i64,
    pub chars: Option<Vec<RawChar>>,
}

/// Result of extracting a range of pages.
#[derive(Debug)]
pub struct ChunkResult {
    pub pages: Vec<Page>,
    pub paragraphs: Vec<Paragraph>,
    pub content: String,
    pub has_text: bool,
}

/// Control characters other than newline and tab are dropped.
pub open spec fn keeps_char(c: char) -> bool {
    !(is_ctrl(c) && c != '\n' && c != '\t')
}

/// 0.6 of the font size, rounded to the nearest unit (a fifth is never
/// halfway): the width assumed for a character whose width is unknown.
pub open spec fn default_width(font_size: i32) -> i32 {
    if font_size >= 0 {
        ((3 * font_size + 2) / 5) as i32
    } else {
        (0 - (3 * (0 - font_size) + 2) / 5) as i32
    }
}

/// The positioned character made from a reported one.
pub open spec fn positioned(r: RawChar, page_number: i32) -> PositionedChar {
    PositionedChar {
        ch: r.ch,
        x: r.x,
        y: r.y,
        width: if r.width > 0 {
            r.width
        } else {
            default_width(r.font_size)
        },
        height: if r.height > 0 {
            r.height
        } else {
            r.font_size
        },
        font_size: r.font_size,
        font_name: r.font_name,
        page_number,
    }
}

/// The positioned characters of a page: reported characters in order,
/// control characters (but newline and tab) dropped.
pub open spec fn positioned_all(raw: Seq<RawChar>, page_number: i32) -> Seq<PositionedChar>
    decreases raw.len(),
{
    if raw.len() == 0 {
        Seq::empty()
    } else if keeps_char(raw.last().ch) {
        positioned_all(raw.drop_last(), page_number).push(positioned(raw.last(), page_number))
    } else {
        positioned_all(raw.drop_last(), page_number)
    }
}

/// 1-based page number of a page (the index plus one, wrapping).
pub open spec fn page_number_of(p: PageInput) -> i32 {
    if p.page_index < usize::MAX {
        (p.page_index + 1) as i32
    } else {
        0i32
    }
}

/// A page's metadata.
pub open spec fn page_meta(p: PageInput) -> Page {
    Page { page_number: page_number_of(p), width: p.width, height: p.height }
}

/// The positioned characters of a page (none when extraction failed).
pub open spec fn page_chars(p: PageInput) -> Seq<PositionedChar> {
    match p.chars {
        Some(v) => positioned_all(v@, page_number_of(p)),
        None => Seq::empty(),
    }
}

/// Number of characters that are not whitespace.
pub open spec fn visible_count(chars: Seq<PositionedChar>) -> nat
    decreases chars.len(),
{
    if chars.len() == 0 {
        0
    } else {
        visible_count(chars.drop_last()) + if is_ws(chars.last().ch) {
            0nat
        } else {
            1nat
        }
    }
}

/// The page has text: its characters were extracted and at least
/// `MIN_TEXT_CHARS` of the kept ones are not whitespace.
pub open spec fn page_has_text(p: PageInput) -> bool {
    p.chars is Some && visible_count(page_chars(p)) >= MIN_TEXT_CHARS
}

/// The lines of a page.
pub open spec fn page_lines(p: PageInput) -> Seq<LineView> {
    lines_model(page_chars(p))
}

/// The paragraph texts of a page.
pub open spec fn page_texts(p: PageInput) -> Seq<Seq<char>> {
    let l = page_lines(p);
    group_texts(paragraph_groups(l, l.len() as int))
}

/// Number of paragraphs of a page with text.
pub open spec fn page_paragraph_count(p: PageInput) -> nat {
    let l = page_lines(p);
    paragraph_groups(l, l.len() as int).len()
}

/// The chunk content after the given pages.
pub open spec fn chunk_content(pages: Seq<PageInput>) -> Seq<char>
    decreases pages.len(),
{
    if pages.len() == 0 {
        Seq::empty()
    } else if page_has_text(pages.last()) {
        place_all(chunk_content(pages.drop_last()), page_texts(pages.last()))
    } else {
        chunk_content(pages.drop_last())
    }
}

/// The running UTF-16 offset after the given pages.
pub open spec fn chunk_offset(pages: Seq<PageInput>) -> int
    decreases pages.len(),
{
    if pages.len() == 0 {
        0
    } else if page_has_text(pages.last()) {
        offset_after_all(
            chunk_content(pages.drop_last()),
            chunk_offset(pages.drop_last()),
            page_texts(pages.last()),
        )
    } else {
        chunk_offset(pages.drop_last())
    }
}

/// `paras` are the paragraphs of the given pages, page by page.
pub open spec fn chunk_paragraphs(pages: Seq<PageInput>, paras: Seq<Paragraph>) -> bool
    decreases pages.len(),
{
    if pages.len() == 0 {
        paras.len() == 0
    } else if page_has_text(pages.last()) {
        let p = pages.last();
        let n = page_paragraph_count(p);
        let before = pages.drop_last();
        &&& paras.len() >= n
        &&& chunk_paragraphs(before, paras.take(paras.len() - n))
        &&& paragraphs_of(
            page_lines(p),
            page_number_of(p),
            p.height,
            chunk_content(before),
            chunk_offset(before),
            paras.skip(paras.len() - n),
        )
    } else {
        chunk_paragraphs(pages.drop_last(), paras)
    }
}

/// `c` is what `extract_chunk` returns for `pages`.
pub open spec fn chunk_of(pages: Seq<PageInput>, c: ChunkResult) -> bool {
    &&& c.pages@ == pages.map_values(|p: PageInput| page_meta(p))
    &&& c.has_text == (exists|k: int| 0 <= k < pages.len() && page_has_text(#[trigger] pages[k]))
    &&& c.content@ == chunk_content(pages)
    &&& chunk_paragraphs(pages, c.paragraphs@)
}

pub proof fn lemma_chunk_offset_monotone(pages: Seq<PageInput>, k: int)
    requires
        0 <= k <= pages.len(),
    ensures
        0 <= chunk_offset(pages.take(k)) <= chunk_offset(pages),
    decreases pages.len(),
{
    if k == pages.len() {
        assert(pages.take(k) =~= pages);
        if k > 0 {
            lemma_chunk_offset_monotone(pages.drop_last(), k - 1);
            assert(pages.drop_last().take(k - 1) =~= pages.drop_last());
            if page_has_text(pages.last()) {
                let t = page_texts(pages.last());
                lemma_offset_monotone(chunk_content(pages.drop_last()), chunk_offset(pages.drop_last()), t, t.len() as int);
            }
        }
    } else {
        lemma_chunk_offset_monotone(pages.drop_last(), k);
        assert(pages.drop_last().take(k) =~= pages.take(k));
        lemma_chunk_offset_monotone(pages.drop_last(), pages.len() - 1);
        assert(pages.drop_last().take(pages.len() - 1) =~= pages.drop_last());
        if page_has_text(pages.last()) {
            let t = page_texts(pages.last());
            lemma_offset_monotone(chunk_content(pages.drop_last()), chunk_offset(pages.drop_last()), t, t.len() as int);
            assert(t.take(t.len() as int) =~= t);
        }
    }
}

fn page_number_from_index(index: usize) -> (n: i32)
    ensures
        n == (if index < usize::MAX {
            (index + 1) as i32
        } else {
            0i32
        }),
{
    if index < usize::MAX {
        (index + 1) as i32
    } else {
        0
    }
}

fn default_width_of(font_size: i32) -> (w: i32)
    ensures
        w == default_width(font_size),
{
    if font_size >= 0 {
        ((3 * (font_size as i64) + 2) / 5) as i32
    } else {
        (0 - (3 * (0 - (font_size as i64)) + 2) / 5) as i32
    }
}

/// The positioned characters of a page.
pub fn positioned_chars(raw: &Vec<RawChar>, page_number: i32) -> (out: Vec<PositionedChar>)
    ensures
        out@ == positioned_all(raw@, page_number),
{
    let mut out: Vec<PositionedChar> = Vec::new();
    let mut i: usize = 0;
    while i < raw.len()
        invariant
            0 <= i <= raw@.len(),
            out@ == positioned_all(raw@.take(i as int), page_number),
        decreases raw@.len() - i,
    {
        let r = &raw[i];
        assert(raw@.take(i + 1).drop_last() =~= raw@.take(i as int));
        if !(is_control_char(r.ch) && r.ch != '\n' && r.ch != '\t') {
            let width = if r.width > 0 {
                r.width
            } else {
                default_width_of(r.font_size)
            };
            let height = if r.height > 0 {
                r.height
            } else {
                r.font_size
            };
            out.push(
                PositionedChar {
                    ch: r.ch,
                    x: r.x,
                    y: r.y,
                    width,
                    height,
                    font_size: r.font_size,
                    font_name: r.font_name.clone(),
                    page_number,
                },
            );
        }
        i = i + 1;
    }
    assert(raw@.take(i as int) =~= raw@);
    out
}

/// Number of characters that are not whitespace.
pub fn count_visible(chars: &Vec<PositionedChar>) -> (n: usize)
    ensures
        n == visible_count(chars@),
{
    let mut n: usize = 0;
    let mut i: usize = 0;
    while i < chars.len()
        invariant
            0 <= i <= chars@.len(),
            n == visible_count(chars@.take(i as int)),
            n <= i,
        decreases chars@.len() - i,
    {
        assert(chars@.take(i + 1).drop_last() =~= chars@.take(i as int));
        if !is_whitespace_char(chars[i].ch) {
            n = n + 1;
        }
        i = i + 1;
    }
    assert(chars@.take(i as int) =~= chars@);
    n
}

/// Extracts a range of pages: every page's metadata, and for pages with
/// text their paragraphs, appended to the chunk content with UTF-16 spans
/// relative to it.
pub fn extract_chunk(pages: &Vec<PageInput>) -> (c: ChunkResult)
    requires
        raw_total(pages@) <= usize::MAX / 8,
    ensures
        chunk_of(pages@, c),
{
    proof {
        lemma_chunk_offset_bound(pages@);
    }
    let mut out_pages: Vec<Page> = Vec::new();
    let mut paragraphs: Vec<Paragraph> = Vec::new();
    let mut content = String::new();
    let mut offset: usize = 0;
    let mut has_text = false;
    let mut k: usize = 0;
    while k < pages.len()
        invariant
            0 <= k <= pages@.len(),
            chunk_offset(pages@) <= usize::MAX,
            out_pages@ == pages@.take(k as int).map_values(|p: PageInput| page_meta(p)),
            has_text == (exists|j: int| 0 <= j < k && page_has_text(#[trigger] pages@[j])),
            content@ == chunk_content(pages@.take(k as int)),
            offset == chunk_offset(pages@.take(k as int)),
            chunk_paragraphs(pages@.take(k as int), paragraphs@),
        decreases pages@.len() - k,
    {
        let page = &pages[k];
        let ghost before = pages@.take(k as int);
        let ghost upto = pages@.take(k + 1);
        assert(upto.drop_last() =~= before);
        assert(upto.last() == *page);
        let page_number = page_number_from_index(page.page_index);
        out_pages.push(Page { page_number, width: page.width, height: page.height });
        assert(out_pages@ =~= upto.map_values(|p: PageInput| page_meta(p)));
        match &page.chars {
            None => {
                assert(!page_has_text(*page));
            },
            Some(raw) => {
                let positioned = positioned_chars(raw, page_number);
                if count_visible(&positioned) >= MIN_TEXT_CHARS {
                    has_text = true;
                    let lines = group_into_lines(positioned);
                    proof {
                        lemma_chunk_offset_monotone(pages@, k + 1);
                    }
                    let mut page_paragraphs = group_into_paragraphs(
                        lines,
                        page_number,
                        page.height,
                        &mut offset,
                        &mut content,
                    );
                    let ghost old_paras = paragraphs@;
                    let ghost new_paras = page_paragraphs@;
                    paragraphs.append(&mut page_paragraphs);
                    proof {
                        let n = page_paragraph_count(*page);
                        assert(new_paras.len() == n);
                        assert(paragraphs@.take(paragraphs@.len() - n) =~= old_paras);
                        assert(paragraphs@.skip(paragraphs@.len() - n) =~= new_paras);
                    }
                } else {
                    assert(!page_has_text(*page));
                }
            },
        }
        proof {
            if page_has_text(*page) {
                assert(page_has_text(pages@[k as int]));
            }
            assert(has_text == (exists|j: int| 0 <= j < k + 1 && page_has_text(#[trigger] pages@[j])))
                by {
                if has_text && !(exists|j: int| 0 <= j < k && page_has_text(#[trigger] pages@[j])) {
                    assert(page_has_text(pages@[k as int]));
                }
            }
        }
        k = k + 1;
    }
    assert(pages@.take(k as int) =~= pages@);
    ChunkResult { pages: out_pages, paragraphs, content, has_text }
}


/// The document content after the given chunks: each chunk with text
/// contributes its content, after a newline when both are non-empty.
pub open spec fn doc_content(chunks: Seq<ChunkResult>) -> Seq<char>
    decreases chunks.len(),
{
    if chunks.len() == 0 {
        Seq::empty()
    } else if chunks.last().has_text {
        place_text(doc_content(chunks.drop_last()), chunks.last().content@)
    } else {
        doc_content(chunks.drop_last())
    }
}

/// The running UTF-16 offset after the given chunks.
pub open spec fn doc_offset(chunks: Seq<ChunkResult>) -> int
    decreases chunks.len(),
{
    if chunks.len() == 0 {
        0
    } else if chunks.last().has_text {
        offset_after(
            doc_content(chunks.drop_last()),
            doc_offset(chunks.drop_last()),
            chunks.last().content@,
        )
    } else {
        doc_offset(chunks.drop_last())
    }
}

/// Where the content of the last of `chunks` starts in the document.
pub open spec fn doc_base(chunks: Seq<ChunkResult>) -> int {
    placed_at(
        doc_content(chunks.drop_last()),
        doc_offset(chunks.drop_last()),
        chunks.last().content@,
    )
}

/// The pages of all chunks, in order.
pub open spec fn doc_pages(chunks: Seq<ChunkResult>) -> Seq<Page>
    decreases chunks.len(),
{
    if chunks.len() == 0 {
        Seq::empty()
    } else {
        doc_pages(chunks.drop_last()) + chunks.last().pages@
    }
}

/// A span moved by `base` (adding with wrap-around at the bounds of `i32`).
pub open spec fn shifted_span(s: Span, base: i32) -> Span {
    Span { offset: vstd::wrapping::i32_specs::wrapping_add(s.offset, base), length: s.length }
}

/// `q` is `p` with every span moved by `base`.
pub open spec fn shifted(q: Paragraph, p: Paragraph, base: i32) -> bool {
    &&& q.content == p.content
    &&& q.role == p.role
    &&& q.bounding_regions == p.bounding_regions
    &&& q.spans@ == p.spans@.map_values(|s: Span| shifted_span(s, base))
}

/// `paras` are the paragraphs of the chunks with text, chunk by chunk,
/// with spans moved to where the chunk content starts in the document.
pub open spec fn doc_paragraphs(chunks: Seq<ChunkResult>, paras: Seq<Paragraph>) -> bool
    decreases chunks.len(),
{
    if chunks.len() == 0 {
        paras.len() == 0
    } else if chunks.last().has_text {
        let own = chunks.last().paragraphs@;
        let n = own.len();
        let m = paras.len() - n;
        &&& paras.len() >= n
        &&& doc_paragraphs(chunks.drop_last(), paras.take(m))
        &&& forall|j: int|
            0 <= j < n ==> shifted(#[trigger] paras[m + j], own[j], doc_base(chunks) as i32)
    } else {
        doc_paragraphs(chunks.drop_last(), paras)
    }
}

/// `d` is what `chunks_to_document` returns for `chunks`: nothing when no
/// chunk has text, else the joined content, all pages, the paragraphs of
/// the chunks with text, and no tables.
pub open spec fn document_of(chunks: Seq<ChunkResult>, d: Option<Document>) -> bool {
    match d {
        None => !(exists|k: int| 0 <= k < chunks.len() && (#[trigger] chunks[k]).has_text),
        Some(doc) => {
            &&& exists|k: int| 0 <= k < chunks.len() && (#[trigger] chunks[k]).has_text
            &&& doc.content@ == doc_content(chunks)
            &&& doc.pages@ == doc_pages(chunks)
            &&& doc_paragraphs(chunks, doc.paragraphs@)
            &&& doc.tables@.len() == 0
        },
    }
}

pub proof fn lemma_doc_offset_monotone(chunks: Seq<ChunkResult>, k: int)
    requires
        0 <= k <= chunks.len(),
    ensures
        0 <= doc_offset(chunks.take(k)) <= doc_offset(chunks),
    decreases chunks.len(),
{
    if chunks.len() > 0 {
        if k == chunks.len() {
            assert(chunks.take(k) =~= chunks);
            lemma_doc_offset_monotone(chunks.drop_last(), k - 1);
            assert(chunks.drop_last().take(k - 1) =~= chunks.drop_last());
        } else {
            lemma_doc_offset_monotone(chunks.drop_last(), k);
            assert(chunks.drop_last().take(k) =~= chunks.take(k));
            lemma_doc_offset_monotone(chunks.drop_last(), chunks.len() - 1);
            assert(chunks.drop_last().take(chunks.len() - 1) =~= chunks.drop_last());
        }
    } else {
        assert(chunks.take(k) =~= chunks);
    }
}

fn shift_paragraph(p: Paragraph, base: i32) -> (q: Paragraph)
    ensures
        shifted(q, p, base),
{
    let Paragraph { content, role, spans, bounding_regions } = p;
    let mut moved: Vec<Span> = Vec::new();
    let mut i: usize = 0;
    while i < spans.len()
        invariant
            0 <= i <= spans@.len(),
            moved@ =~= spans@.take(i as int).map_values(|s: Span| shifted_span(s, base)),
        decreases spans@.len() - i,
    {
        let s = spans[i];
        moved.push(Span { offset: s.offset.wrapping_add(base), length: s.length });
        i = i + 1;
    }
    assert(spans@.take(i as int) =~= spans@);
    Paragraph { content, role, spans: moved, bounding_regions }
}

/// UTF-16 length of a string.
fn utf16_length(s: &String, limit: usize) -> (r: Option<usize>)
    ensures
        match r {
            Some(n) => n == utf16_len(s@) && n <= limit,
            None => utf16_len(s@) > limit,
        },
{
    let cs = crate::text::chars_of(s.as_str());
    let mut n: usize = 0;
    let mut i: usize = 0;
    while i < cs.len()
        invariant
            0 <= i <= cs@.len(),
            n == utf16_len(cs@.take(i as int)),
            n <= limit,
            cs@ == s@,
        decreases cs@.len() - i,
    {
        assert(cs@.take(i + 1).drop_last() =~= cs@.take(i as int));
        let w: usize = if (cs[i] as u32) >= 0x10000 {
            2
        } else {
            1
        };
        if w > limit - n {
            proof {
                assert(cs@ =~= cs@.take(i + 1) + cs@.skip(i + 1));
                lemma_utf16_concat(cs@.take(i + 1), cs@.skip(i + 1));
            }
            return None;
        }
        n = n + w;
        i = i + 1;
    }
    assert(cs@.take(i as int) =~= cs@);
    Some(n)
}

/// Whether joining `chunks` keeps the running offset within `usize`
/// (which `chunks_to_document` requires).
pub fn document_fits(chunks: &Vec<ChunkResult>) -> (b: bool)
    ensures
        b == (doc_offset(chunks@) <= usize::MAX),
{
    let mut content_empty = true;
    let mut offset: usize = 0;
    let mut k: usize = 0;
    while k < chunks.len()
        invariant
            0 <= k <= chunks@.len(),
            content_empty == (doc_content(chunks@.take(k as int)).len() == 0),
            offset == doc_offset(chunks@.take(k as int)),
        decreases chunks@.len() - k,
    {
        let c = &chunks[k];
        assert(chunks@.take(k + 1).drop_last() =~= chunks@.take(k as int));
        if c.has_text {
            let this_empty = c.content.as_str().is_empty();
            if !content_empty && !this_empty {
                if offset == usize::MAX {
                    proof {
                        lemma_doc_offset_monotone(chunks@, k + 1);
                    }
                    return false;
                }
                offset = offset + 1;
            }
            match utf16_length(&c.content, usize::MAX - offset) {
                None => {
                    proof {
                        lemma_doc_offset_monotone(chunks@, k + 1);
                    }
                    return false;
                },
                Some(n) => {
                    offset = offset + n;
                },
            }
            content_empty = content_empty && this_empty;
        }
        k = k + 1;
    }
    assert(chunks@.take(k as int) =~= chunks@);
    true
}

/// Joins chunk results into a document: pages of every chunk; content and
/// paragraphs of the chunks with text, each chunk's content after a newline
/// when both sides are non-empty and its spans moved to where it starts.
/// Nothing when no chunk has text.
pub fn chunks_to_document(chunk_results: Vec<ChunkResult>) -> (d: Option<Document>)
    requires
        doc_offset(chunk_results@) <= usize::MAX,
    ensures
        document_of(chunk_results@, d),
{
    let ghost chunks = chunk_results@;
    let mut full_content = String::new();
    let mut content_offset: usize = 0;
    let mut all_pages: Vec<Page> = Vec::new();
    let mut all_paragraphs: Vec<Paragraph> = Vec::new();
    let mut has_any_text = false;
    for chunk in it: chunk_results
        invariant
            chunks == it.seq(),
            doc_offset(chunks) <= usize::MAX,
            full_content@ == doc_content(chunks.take(it.index() as int)),
            content_offset == doc_offset(chunks.take(it.index() as int)),
            all_pages@ == doc_pages(chunks.take(it.index() as int)),
            doc_paragraphs(chunks.take(it.index() as int), all_paragraphs@),
            has_any_text == (exists|j: int|
                0 <= j < it.index() && (#[trigger] chunks[j]).has_text),
    {
        let ghost k = it.index();
        let ghost before = chunks.take(k as int);
        let ghost upto = chunks.take(k + 1);
        assert(upto.drop_last() =~= before);
        assert(upto.last() == chunk);
        let ChunkResult { pages, paragraphs, content, has_text } = chunk;
        let mut pages = pages;
        all_pages.append(&mut pages);
        if has_text {
            has_any_text = true;
            proof {
                lemma_doc_offset_monotone(chunks, k + 1);
            }
            if !full_content.as_str().is_empty() && !content.as_str().is_empty() {
                push_char(&mut full_content, '\n');
                content_offset = content_offset + 1;
            }
            let base_offset = content_offset;
            match utf16_length(&content, usize::MAX - content_offset) {
                Some(n) => {
                    content_offset = content_offset + n;
                },
                None => {
                    assert(false);
                },
            }
            full_content.append(content.as_str());
            proof {
                if needs_separator(doc_content(before), content@) {
                    assert(full_content@ =~= doc_content(before).push('\n') + content@);
                }
            }
            let ghost own = paragraphs@;
            let ghost prev = all_paragraphs@;
            let base = base_offset as i32;
            for p in pit: paragraphs
                invariant
                    own == pit.seq(),
                    all_paragraphs@.len() == prev.len() + pit.index(),
                    all_paragraphs@.take(prev.len() as int) == prev,
                    forall|j: int|
                        0 <= j < pit.index() ==> shifted(
                            #[trigger] all_paragraphs@[prev.len() + j],
                            own[j],
                            base,
                        ),
            {
                let q = shift_paragraph(p, base);
                let ghost before_push = all_paragraphs@;
                all_paragraphs.push(q);
                assert(all_paragraphs@.take(prev.len() as int) =~= before_push.take(prev.len() as int));
            }
            proof {
                let m = prev.len() as int;
                assert(all_paragraphs@.take(m) =~= prev);
                assert(doc_base(upto) == base_offset);
            }
        }
        proof {
            if upto.last().has_text {
                assert(chunks[k as int].has_text);
            }
        }
    }
    assert(chunks.take(chunks.len() as int) =~= chunks);
    if !has_any_text {
        return None;
    }
    Some(Document { content: full_content, pages: all_pages, paragraphs: all_paragraphs, tables: Vec::new() })
}


/// Pages per chunk: all pages in one chunk up to `PARALLEL_THRESHOLD`
/// pages, else the pages shared among the threads, at least ten each.
pub open spec fn chunk_size_for(count: int, num_threads: int) -> int {
    if count <= PARALLEL_THRESHOLD {
        count
    } else if count / num_threads >= 10 {
        count / num_threads
    } else {
        10
    }
}

/// The page ranges `[start, end)` from `start` on, each `size` pages long
/// but the last, which ends at `count`.
pub open spec fn chunk_ranges(start: int, count: int, size: int) -> Seq<(usize, usize)>
    decreases count - start,
{
    if start >= count || size <= 0 {
        Seq::empty()
    } else {
        let end = if start + size < count {
            start + size
        } else {
            count
        };
        seq![(start as usize, end as usize)] + chunk_ranges(end, count, size)
    }
}

/// The ranges cover `[start, count)` in order, each non-empty, each
/// following the previous one.
pub open spec fn covers(r: Seq<(usize, usize)>, start: int, count: int) -> bool {
    &&& (start >= count) == (r.len() == 0)
    &&& r.len() > 0 ==> r[0].0 == start && r.last().1 == count
    &&& forall|k: int| 0 <= k < r.len() ==> (#[trigger] r[k]).0 < r[k].1
    &&& forall|k: int| 0 <= k < r.len() - 1 ==> (#[trigger] r[k]).1 == r[k + 1].0
}

proof fn lemma_chunk_ranges_cover(start: int, count: int, size: int)
    requires
        0 <= start <= count <= usize::MAX,
        size > 0,
    ensures
        covers(chunk_ranges(start, count, size), start, count),
    decreases count - start,
{
    if start < count {
        let end = if start + size < count {
            start + size
        } else {
            count
        };
        lemma_chunk_ranges_cover(end, count, size);
        let rest = chunk_ranges(end, count, size);
        let r = chunk_ranges(start, count, size);
        assert(r == seq![(start as usize, end as usize)] + rest);
        assert forall|k: int| 0 <= k < r.len() - 1 implies (#[trigger] r[k]).1 == r[k + 1].0 by {
            if k > 0 {
                assert(r[k] == rest[k - 1]);
                assert(r[k + 1] == rest[k]);
            }
        }
        assert forall|k: int| 0 <= k < r.len() implies (#[trigger] r[k]).0 < r[k].1 by {
            if k > 0 {
                assert(r[k] == rest[k - 1]);
            }
        }
    }
}

/// Splits `count` pages into the ranges that are extracted separately:
/// one range when there are at most `PARALLEL_THRESHOLD` pages, else
/// ranges of `max(count / num_threads, 10)` pages; none for no pages.
pub fn plan_chunks(count: usize, num_threads: usize) -> (r: Vec<(usize, usize)>)
    requires
        count > PARALLEL_THRESHOLD ==> num_threads > 0,
    ensures
        r@ == chunk_ranges(0, count as int, chunk_size_for(count as int, num_threads as int)),
        covers(r@, 0, count as int),
{
    let size: usize = if count <= PARALLEL_THRESHOLD {
        count
    } else if count / num_threads >= 10 {
        count / num_threads
    } else {
        10
    };
    let ghost sz = size as int;
    let mut r: Vec<(usize, usize)> = Vec::new();
    let mut start: usize = 0;
    while start < count
        invariant
            size == chunk_size_for(count as int, num_threads as int),
            start <= count,
            count > 0 ==> size > 0,
            r@ + chunk_ranges(start as int, count as int, size as int) == chunk_ranges(
                0,
                count as int,
                size as int,
            ),
        decreases count - start,
    {
        let end = if count - start > size {
            start + size
        } else {
            count
        };
        let ghost old_r = r@;
        r.push((start, end));
        assert(chunk_ranges(start as int, count as int, size as int) == seq![(start, end)]
            + chunk_ranges(end as int, count as int, size as int));
        assert(r@ + chunk_ranges(end as int, count as int, size as int) =~= old_r + chunk_ranges(
            start as int,
            count as int,
            size as int,
        ));
        start = end;
    }
    assert(r@ =~= r@ + chunk_ranges(start as int, count as int, size as int));
    proof {
        if count > 0 {
            lemma_chunk_ranges_cover(0, count as int, size as int);
        }
    }
    r
}

/// Default page size: US Letter, 612 x 792 points.
pub open spec fn default_page_size() -> (i64, i64) {
    ((612 * UNITS_PER_POINT) as i64, (792 * UNITS_PER_POINT) as i64)
}

pub open spec fn abs_diff(a: i32, b: i32) -> i64 {
    if a >= b {
        (a - b) as i64
    } else {
        (b - a) as i64
    }
}

/// Width and height from a `/MediaBox` array whose entries are numbers
/// (or `None` for entries that are not): missing lower corner coordinates
/// count as 0, missing upper ones as 612 and 792 points. Arrays with fewer
/// than four entries give nothing.
pub open spec fn media_box_size(entries: Seq<Option<i32>>) -> Option<(i64, i64)> {
    if entries.len() >= 4 {
        let x0 = match entries[0] { Some(v) => v, None => 0i32 };
        let y0 = match entries[1] { Some(v) => v, None => 0i32 };
        let x1 = match entries[2] { Some(v) => v, None => (612 * UNITS_PER_POINT) as i32 };
        let y1 = match entries[3] { Some(v) => v, None => (792 * UNITS_PER_POINT) as i32 };
        Some((abs_diff(x1, x0), abs_diff(y1, y0)))
    } else {
        None
    }
}

/// Page size from the page's `/MediaBox` (`None` when the page object is
/// not a dictionary with a `/MediaBox` array), else the default size.
pub open spec fn page_size(media_box: Option<Seq<Option<i32>>>) -> (i64, i64) {
    match media_box {
        Some(e) => match media_box_size(e) {
            Some(s) => s,
            None => default_page_size(),
        },
        None => default_page_size(),
    }
}

fn entry_or(e: Option<i32>, default: i32) -> (v: i32)
    ensures
        v == (match e { Some(x) => x, None => default }),
{
    match e {
        Some(x) => x,
        None => default,
    }
}

fn diff(a: i32, b: i32) -> (d: i64)
    ensures
        d == abs_diff(a, b),
{
    if a >= b {
        a as i64 - b as i64
    } else {
        b as i64 - a as i64
    }
}

/// Width and height of a `/MediaBox` array (see `media_box_size`).
pub fn extract_media_box(entries: &Vec<Option<i32>>) -> (r: Option<(i64, i64)>)
    ensures
        r == media_box_size(entries@),
{
    if entries.len() >= 4 {
        let x0 = entry_or(entries[0], 0);
        let y0 = entry_or(entries[1], 0);
        let x1 = entry_or(entries[2], 612 * 1024);
        let y1 = entry_or(entries[3], 792 * 1024);
        Some((diff(x1, x0), diff(y1, y0)))
    } else {
        None
    }
}

/// Page width and height in fixed-point units, from the page's
/// `/MediaBox` when it has a usable one, else US Letter.
pub fn page_dimensions(media_box: &Option<Vec<Option<i32>>>) -> (r: (i64, i64))
    ensures
        r == page_size(match media_box { Some(v) => Some(v@), None => None }),
{
    match media_box {
        Some(e) => match extract_media_box(e) {
            Some(s) => s,
            None => (612 * 1024, 792 * 1024),
        },
        None => (612 * 1024, 792 * 1024),
    }
}


/// `rayon::current_num_threads`: the number of threads of the current
/// rayon pool. It depends on the machine and the pool; a pool always has
/// at least one thread.
#[verifier::external_body]
fn current_num_threads() -> (n: usize)
    ensures
        n >= 1,
{
    rayon::current_num_threads()
}

/// Page ranges for extracting `count` pages with the current thread
/// pool: those of `plan_chunks` for the pool's thread count (which depends
/// on the machine).
pub fn plan_extraction(count: usize) -> (r: Vec<(usize, usize)>)
    ensures
        covers(r@, 0, count as int),
        exists|t: int|
            t >= 1 && r@ == chunk_ranges(0, count as int, chunk_size_for(count as int, t)),
{
    let num_threads = current_num_threads();
    plan_chunks(count, num_threads)
}
} // verus!
