//! How chunk and document contents are made of paragraph texts, and what
//! joining chunks keeps.
use vstd::prelude::*;
use crate::chunk::{doc_base, doc_content, doc_offset, doc_paragraphs, lemma_doc_offset_monotone, shifted, shifted_span, chunk_content, chunk_of, chunk_offset, chunk_paragraphs, page_has_text, page_lines, page_number_of, page_paragraph_count, page_texts, ChunkResult, PageInput};
use crate::content::{needs_separator, offset_after_all, place_all, place_text};
use crate::laws::lemma_doc_consistent;
use crate::text::{utf16_len, utf16_units, lemma_utf16_concat, lemma_utf16_len_units, lemma_utf16_single};
use crate::paragraphs::{group_texts, median_font_size, paragraph_from, paragraph_groups, paragraphs_of};
use crate::reading_order::LineView;
use crate::types::Paragraph;

verus! {

/// Texts joined by newlines, empty ones left out.
pub open spec fn joined_nonempty(texts: Seq<Seq<char>>) -> Seq<char>
    decreases texts.len(),
{
    if texts.len() == 0 {
        Seq::empty()
    } else {
        let a = joined_nonempty(texts.drop_last());
        let t = texts.last();
        if a.len() == 0 {
            t
        } else if t.len() == 0 {
            a
        } else {
            a.push('\n') + t
        }
    }
}

/// The texts of paragraphs.
pub open spec fn paragraph_texts(paras: Seq<Paragraph>) -> Seq<Seq<char>> {
    paras.map_values(|p: Paragraph| p.content@)
}

/// Appending texts one by one continues the join.
pub proof fn lemma_joined_append(a: Seq<Seq<char>>, b: Seq<Seq<char>>)
    ensures
        joined_nonempty(a + b) == place_all(joined_nonempty(a), b),
    decreases b.len(),
{
    if b.len() == 0 {
        assert(a + b =~= a);
    } else {
        lemma_joined_append(a, b.drop_last());
        assert((a + b).drop_last() =~= a + b.drop_last());
        assert((a + b).last() == b.last());
        let x = joined_nonempty(a + b.drop_last());
        let t = b.last();
        if x.len() == 0 {
            assert(place_text(x, t) =~= t);
        } else if t.len() == 0 {
            assert(place_text(x, t) =~= x);
        }
    }
}

proof fn lemma_paragraph_texts_of(
    lines: Seq<LineView>,
    page_number: i32,
    page_height: i64,
    content: Seq<char>,
    offset: int,
    paras: Seq<Paragraph>,
)
    requires
        paragraphs_of(lines, page_number, page_height, content, offset, paras),
    ensures
        paragraph_texts(paras) == group_texts(paragraph_groups(lines, lines.len() as int)),
{
    let g = paragraph_groups(lines, lines.len() as int);
    assert forall|k: int| 0 <= k < paras.len() implies paragraph_texts(paras)[k] == group_texts(g)[k] by {
        assert(paragraph_from(
            paras[k],
            g[k],
            page_number,
            page_height,
            median_font_size(lines),
            place_all(content, group_texts(g).take(k)),
            offset_after_all(content, offset, group_texts(g).take(k)),
        ));
    }
    assert(paragraph_texts(paras) =~= group_texts(g));
}

#[verifier::rlimit(50)]
proof fn lemma_chunk_content_joins(pages: Seq<PageInput>, paras: Seq<Paragraph>)
    requires
        chunk_paragraphs(pages, paras),
    ensures
        chunk_content(pages) == joined_nonempty(paragraph_texts(paras)),
    decreases pages.len(),
{
    if pages.len() == 0 {
        assert(paragraph_texts(paras) =~= Seq::<Seq<char>>::empty());
    } else {
        let before = pages.drop_last();
        let p = pages.last();
        if page_has_text(p) {
            let n = page_paragraph_count(p);
            let m = paras.len() - n;
            lemma_chunk_content_joins(before, paras.take(m));
            let texts = page_texts(p);
            lemma_paragraph_texts_of(
                page_lines(p),
                page_number_of(p),
                p.height,
                chunk_content(before),
                chunk_offset(before),
                paras.skip(m),
            );
            assert(paragraph_texts(paras) =~= paragraph_texts(paras.take(m)) + paragraph_texts(
                paras.skip(m),
            ));
            lemma_joined_append(paragraph_texts(paras.take(m)), texts);
        } else {
            lemma_chunk_content_joins(before, paras);
        }
    }
}

/// A chunk's content is its paragraphs' texts joined by newlines, empty
/// ones left out.
pub proof fn lemma_chunk_content_is_paragraphs(pages: Seq<PageInput>, c: ChunkResult)
    requires
        chunk_of(pages, c),
    ensures
        c.content@ == joined_nonempty(paragraph_texts(c.paragraphs@)),
{
    lemma_chunk_content_joins(pages, c.paragraphs@);
}

/// Number of paragraphs that the first `k` chunks contribute to a
/// document (those of the chunks with text).
pub open spec fn paragraphs_before(chunks: Seq<ChunkResult>, k: int) -> int
    decreases k,
{
    if k <= 0 {
        0
    } else {
        paragraphs_before(chunks, k - 1) + if chunks[k - 1].has_text {
            chunks[k - 1].paragraphs@.len() as int
        } else {
            0int
        }
    }
}

/// The UTF-16 units of `content` from `offset` on, `length` of them.
pub open spec fn units_at(content: Seq<char>, offset: int, length: int) -> Seq<u16> {
    utf16_units(content).subrange(offset, offset + length)
}

pub proof fn lemma_paragraphs_before_prefix(chunks: Seq<ChunkResult>, k: int)
    requires
        0 <= k < chunks.len(),
    ensures
        paragraphs_before(chunks.drop_last(), k) == paragraphs_before(chunks, k),
        0 <= paragraphs_before(chunks, k),
    decreases k,
{
    if k > 0 {
        lemma_paragraphs_before_prefix(chunks, k - 1);
        assert(chunks.drop_last()[k - 1] == chunks[k - 1]);
    }
}

pub proof fn lemma_paragraph_count(chunks: Seq<ChunkResult>, paras: Seq<Paragraph>)
    requires
        doc_paragraphs(chunks, paras),
    ensures
        paras.len() == paragraphs_before(chunks, chunks.len() as int),
    decreases chunks.len(),
{
    if chunks.len() > 0 {
        let before = chunks.drop_last();
        if chunks.last().has_text {
            let m = paras.len() - chunks.last().paragraphs@.len();
            lemma_paragraph_count(before, paras.take(m));
        } else {
            lemma_paragraph_count(before, paras);
        }
        if before.len() > 0 {
            lemma_paragraphs_before_prefix(chunks, before.len() as int);
        }
        assert(chunks[chunks.len() - 1] == chunks.last());
    }
}

/// Joining chunks moves every span of a chunk with text by where the
/// chunk's content starts in the document, and a span that lies within
/// the chunk's content (in UTF-16 units) selects in the document the same
/// units as in the chunk, when the document's UTF-16 length fits an `i32`.
/// The `j`-th paragraph of the `k`-th chunk is the document's paragraph
/// `paragraphs_before(chunks, k) + j`.
pub proof fn lemma_merge_keeps_selection(
    chunks: Seq<ChunkResult>,
    paras: Seq<Paragraph>,
    k: int,
    j: int,
    i: int,
)
    requires
        doc_paragraphs(chunks, paras),
        doc_offset(chunks) <= i32::MAX,
        0 <= k < chunks.len(),
        chunks[k].has_text,
        0 <= j < chunks[k].paragraphs@.len(),
        0 <= i < chunks[k].paragraphs@[j].spans@.len(),
        0 <= chunks[k].paragraphs@[j].spans@[i].offset,
        0 <= chunks[k].paragraphs@[j].spans@[i].length,
        chunks[k].paragraphs@[j].spans@[i].offset + chunks[k].paragraphs@[j].spans@[i].length
            <= utf16_len(chunks[k].content@),
    ensures
        ({
            let p = chunks[k].paragraphs@[j];
            let s = p.spans@[i];
            let x = paragraphs_before(chunks, k) + j;
            let base = doc_base(chunks.take(k + 1));
            &&& 0 <= x < paras.len()
            &&& shifted(paras[x], p, base as i32)
            &&& paras[x].spans@[i].offset == s.offset + base
            &&& s.offset + base + s.length <= utf16_len(doc_content(chunks))
            &&& units_at(doc_content(chunks), s.offset + base, s.length as int) == units_at(
                chunks[k].content@,
                s.offset as int,
                s.length as int,
            )
        }),
    decreases chunks.len(),
{
    let n = chunks.len() - 1;
    let before = chunks.drop_last();
    let p = chunks[k].paragraphs@[j];
    let s = p.spans@[i];
    lemma_doc_consistent(chunks);
    lemma_doc_consistent(before);
    lemma_doc_offset_monotone(chunks, n);
    assert(chunks.take(n) =~= before);
    assert(chunks[n] == chunks.last());
    let m = if chunks.last().has_text {
        paras.len() - chunks.last().paragraphs@.len()
    } else {
        paras.len() as int
    };
    let rest_paras = paras.take(m);
    if chunks.last().has_text {
        assert(doc_paragraphs(before, rest_paras));
    } else {
        assert(rest_paras =~= paras);
    }
    lemma_paragraph_count(before, rest_paras);
    if k > 0 {
        lemma_paragraphs_before_prefix(chunks, k);
    }
    if k == n {
        assert(chunks.take(k + 1) =~= chunks);
        if n > 0 {
            lemma_paragraphs_before_prefix(chunks, n);
        }
        assert(paragraphs_before(chunks, k) == m);
        let base = doc_base(chunks);
        let c0 = doc_content(before);
        let ct = chunks.last().content@;
        let prefix = if needs_separator(c0, ct) {
            c0.push('\n')
        } else {
            c0
        };
        let c1 = doc_content(chunks);
        assert(c1 =~= prefix + ct);
        if needs_separator(c0, ct) {
            assert(prefix =~= c0 + seq!['\n']);
            lemma_utf16_concat(c0, seq!['\n']);
            lemma_utf16_single('\n');
        }
        assert(base == utf16_len(prefix));
        lemma_utf16_concat(prefix, ct);
        lemma_utf16_len_units(prefix);
        lemma_utf16_len_units(ct);
        assert(shifted(paras[m + j], p, base as i32));
        assert(paras[m + j].spans@[i] == shifted_span(s, base as i32));
        assert(units_at(c1, s.offset + base, s.length as int) =~= units_at(
            ct,
            s.offset as int,
            s.length as int,
        ));
    } else {
        assert(before[k] == chunks[k]);
        lemma_merge_keeps_selection(before, rest_paras, k, j, i);
        assert(before.take(k + 1) =~= chunks.take(k + 1));
        let x = paragraphs_before(chunks, k) + j;
        assert(rest_paras[x] == paras[x]);
        let c0 = doc_content(before);
        let c1 = doc_content(chunks);
        let r = c1.skip(c0.len() as int);
        if chunks.last().has_text {
            let ct = chunks.last().content@;
            if needs_separator(c0, ct) {
                assert(c1 =~= c0 + (seq!['\n'] + ct));
            } else {
                assert(c1 =~= c0 + ct);
            }
        }
        assert(c1 =~= c0 + r);
        lemma_utf16_concat(c0, r);
        lemma_utf16_len_units(c0);
        let base = doc_base(chunks.take(k + 1));
        assert(doc_base(before.take(k + 1)) == base);
        assert(s.offset + base + s.length <= utf16_len(c0));
        assert(utf16_units(c1) == utf16_units(c0) + utf16_units(r));
        lemma_doc_consistent(chunks.take(k + 1).drop_last());
        assert(base >= 0);
        let u0 = utf16_units(c0);
        let u1 = utf16_units(c1);
        let a = s.offset + base;
        let b = a + s.length;
        assert(b <= u0.len());
        assert forall|t: int| 0 <= t < b - a implies u1.subrange(a, b)[t] == u0.subrange(a, b)[t] by {
            assert(u1[a + t] == u0[a + t]);
        }
        assert(u1.subrange(a, b) =~= u0.subrange(a, b));
        assert(units_at(c1, s.offset + base, s.length as int) =~= units_at(
            c0,
            s.offset + base,
            s.length as int,
        ));
    }
}

/// The `j`-th paragraph of the `k`-th chunk, when it has text, is the
/// document's paragraph `paragraphs_before(chunks, k) + j`, its spans
/// moved by where the chunk's content starts.
pub proof fn lemma_doc_paragraph_at(chunks: Seq<ChunkResult>, paras: Seq<Paragraph>, k: int, j: int)
    requires
        doc_paragraphs(chunks, paras),
        0 <= k < chunks.len(),
        chunks[k].has_text,
        0 <= j < chunks[k].paragraphs@.len(),
    ensures
        0 <= paragraphs_before(chunks, k) + j < paras.len(),
        shifted(
            paras[paragraphs_before(chunks, k) + j],
            chunks[k].paragraphs@[j],
            doc_base(chunks.take(k + 1)) as i32,
        ),
    decreases chunks.len(),
{
    let n = chunks.len() - 1;
    let before = chunks.drop_last();
    assert(chunks[n] == chunks.last());
    let m = if chunks.last().has_text {
        paras.len() - chunks.last().paragraphs@.len()
    } else {
        paras.len() as int
    };
    let rest_paras = paras.take(m);
    if !chunks.last().has_text {
        assert(rest_paras =~= paras);
    }
    lemma_paragraph_count(before, rest_paras);
    if k > 0 {
        lemma_paragraphs_before_prefix(chunks, k);
    }
    if k == n {
        assert(chunks.take(k + 1) =~= chunks);
        if n > 0 {
            lemma_paragraphs_before_prefix(chunks, n);
        }
        assert(paragraphs_before(chunks, k) == m);
    } else {
        assert(before[k] == chunks[k]);
        lemma_doc_paragraph_at(before, rest_paras, k, j);
        assert(before.take(k + 1) =~= chunks.take(k + 1));
        assert(rest_paras[paragraphs_before(chunks, k) + j] == paras[paragraphs_before(chunks, k) + j]);
    }
}

/// The document's paragraph `y` is the `j`-th paragraph of chunk `k`.
pub open spec fn comes_from(chunks: Seq<ChunkResult>, y: int, k: int, j: int) -> bool {
    0 <= k < chunks.len() && chunks[k].has_text && 0 <= j < chunks[k].paragraphs@.len() && y
        == paragraphs_before(chunks, k) + j
}

/// Every paragraph of a document comes from one chunk with text.
pub proof fn lemma_paragraph_origin(chunks: Seq<ChunkResult>, y: int)
    requires
        0 <= y < paragraphs_before(chunks, chunks.len() as int),
    ensures
        exists|k: int, j: int| #[trigger] comes_from(chunks, y, k, j),
    decreases chunks.len(),
{
    let n = chunks.len() - 1;
    let before = chunks.drop_last();
    if n > 0 {
        lemma_paragraphs_before_prefix(chunks, n);
    }
    if y < paragraphs_before(chunks, n) {
        lemma_paragraph_origin(before, y);
        let (k, j) = choose|k: int, j: int| #[trigger] comes_from(before, y, k, j);
        assert(before[k] == chunks[k]);
        if k > 0 {
            lemma_paragraphs_before_prefix(chunks, k);
        }
        assert(comes_from(chunks, y, k, j));
    } else {
        let j = y - paragraphs_before(chunks, n);
        assert(comes_from(chunks, y, n, j));
    }
}

/// Joining chunks moves each paragraph of a chunk with text into the
/// document unchanged but for its span offsets: the `j`-th paragraph of the
/// `k`-th chunk is the document paragraph `paragraphs_before(chunks, k) +
/// j`, with the same text, role and regions, and spans of the same
/// number and lengths.
pub proof fn lemma_join_keeps_paragraphs(chunks: Seq<ChunkResult>, paras: Seq<Paragraph>, k: int, j: int)
    requires
        doc_paragraphs(chunks, paras),
        0 <= k < chunks.len(),
        chunks[k].has_text,
        0 <= j < chunks[k].paragraphs@.len(),
    ensures
        ({
            let p = chunks[k].paragraphs@[j];
            let q = paras[paragraphs_before(chunks, k) + j];
            &&& 0 <= paragraphs_before(chunks, k) + j < paras.len()
            &&& q.content == p.content
            &&& q.role == p.role
            &&& q.bounding_regions == p.bounding_regions
            &&& q.spans@.len() == p.spans@.len()
            &&& forall|i: int| 0 <= i < p.spans@.len() ==> (#[trigger] q.spans@[i]).length == p.spans@[i].length
        }),
{
    lemma_doc_paragraph_at(chunks, paras, k, j);
}

} // verus!
