//! Properties of the library as a whole.
use vstd::prelude::*;
use crate::chunk::{chunk_content, chunk_of, chunk_offset, chunk_paragraphs, doc_base, doc_content, doc_offset, doc_pages, doc_paragraphs, document_of, page_has_text, page_meta, page_texts, page_paragraph_count, shifted, shifted_span, ChunkResult, PageInput, lemma_doc_offset_monotone};
use crate::content::{locates, place_all, place_text, offset_after_all, start_of, needs_separator, lemma_offsets_consistent, lemma_offset_monotone, lemma_place_all_prefix};
use crate::paragraphs::{group_texts, median_font_size, paragraph_break, paragraph_from, paragraph_groups, paragraphs_of};
use crate::reading_order::{in_reading_order, line_groups, line_model, on_same_line, reading_keys, x_keys, LineView, PositionedChar};
use crate::sort::{is_permutation, lemma_stable_order, permute, precedes, stable_order_of};
use crate::text::{utf16_len, utf16_units, lemma_utf16_concat, lemma_utf16_len_units, lemma_utf16_single};
use crate::types::{Document, Page, Paragraph};

verus! {

/// Every paragraph has one span, whose length is the UTF-16 length of its
/// text and which selects exactly that text in `content`.
pub open spec fn spans_locate(content: Seq<char>, paras: Seq<Paragraph>) -> bool {
    forall|k: int|
        0 <= k < paras.len() ==> {
            let p = #[trigger] paras[k];
            &&& p.spans@.len() == 1
            &&& p.spans@[0].length == utf16_len(p.content@)
            &&& locates(content, p.spans@[0].offset as int, p.content@)
        }
}

/// What a span selects stays selected when text is appended.
pub proof fn lemma_locates_extend(c: Seq<char>, r: Seq<char>, s: int, t: Seq<char>)
    requires
        locates(c, s, t),
    ensures
        locates(c + r, s, t),
{
    lemma_utf16_concat(c, r);
    lemma_utf16_len_units(c);
    lemma_utf16_len_units(c + r);
    let u = utf16_units(c);
    assert(utf16_units(c + r).subrange(s, s + utf16_len(t)) =~= u.subrange(s, s + utf16_len(t)));
}

/// A chunk's running offset is the UTF-16 length of its content.
pub proof fn lemma_chunk_consistent(pages: Seq<PageInput>)
    ensures
        chunk_offset(pages) == utf16_len(chunk_content(pages)),
    decreases pages.len(),
{
    if pages.len() == 0 {
        assert(utf16_len(Seq::<char>::empty()) == 0);
    } else {
        lemma_chunk_consistent(pages.drop_last());
        if page_has_text(pages.last()) {
            lemma_offsets_consistent(
                chunk_content(pages.drop_last()),
                chunk_offset(pages.drop_last()),
                page_texts(pages.last()),
            );
        }
    }
}

/// Within a chunk, every paragraph's span selects its text in the chunk
/// content, when the chunk's UTF-16 length fits an `i32`.
pub proof fn lemma_chunk_spans_locate(pages: Seq<PageInput>, paras: Seq<Paragraph>)
    requires
        chunk_paragraphs(pages, paras),
        chunk_offset(pages) <= i32::MAX,
    ensures
        spans_locate(chunk_content(pages), paras),
    decreases pages.len(),
{
    if pages.len() > 0 {
        let before = pages.drop_last();
        if page_has_text(pages.last()) {
            let p = pages.last();
            let n = page_paragraph_count(p);
            let m = paras.len() - n;
            let c0 = chunk_content(before);
            let o0 = chunk_offset(before);
            let texts = page_texts(p);
            lemma_chunk_consistent(before);
            lemma_offset_monotone(c0, o0, texts, 0);
            lemma_chunk_spans_locate(before, paras.take(m));
            lemma_offsets_consistent(c0, o0, texts);
            lemma_place_all_prefix(c0, texts, 0);
            assert(texts.take(0) =~= Seq::<Seq<char>>::empty());
            let c1 = chunk_content(pages);
            let rest = c1.skip(c0.len() as int);
            assert(c1 == c0 + rest);
            assert forall|k: int| 0 <= k < paras.len() implies {
                let q = #[trigger] paras[k];
                &&& q.spans@.len() == 1
                &&& q.spans@[0].length == utf16_len(q.content@)
                &&& locates(c1, q.spans@[0].offset as int, q.content@)
            } by {
                if k < m {
                    assert(paras.take(m)[k] == paras[k]);
                    lemma_locates_extend(c0, rest, paras[k].spans@[0].offset as int, paras[k].content@);
                } else {
                    let j = k - m;
                    let new_paras = paras.skip(m);
                    assert(new_paras[j] == paras[k]);
                    assert(texts[j] == paras[k].content@);
                    lemma_offset_monotone(c0, o0, texts, j);
                    let s = start_of(c0, o0, texts, j);
                    assert(locates(c1, s, texts[j]));
                    assert(0 <= s);
                }
            }
        } else {
            lemma_chunk_spans_locate(before, paras);
        }
    }
}

/// The document's running offset is the UTF-16 length of its content.
pub proof fn lemma_doc_consistent(chunks: Seq<ChunkResult>)
    ensures
        doc_offset(chunks) == utf16_len(doc_content(chunks)),
    decreases chunks.len(),
{
    if chunks.len() == 0 {
        assert(utf16_len(Seq::<char>::empty()) == 0);
    } else {
        lemma_doc_consistent(chunks.drop_last());
        if chunks.last().has_text {
            let t = seq![chunks.last().content@];
            lemma_offsets_consistent(
                doc_content(chunks.drop_last()),
                doc_offset(chunks.drop_last()),
                t,
            );
            assert(t.drop_last() =~= Seq::<Seq<char>>::empty());
            let c0 = doc_content(chunks.drop_last());
            let o0 = doc_offset(chunks.drop_last());
            assert(place_all(c0, t.drop_last()) == c0);
            assert(offset_after_all(c0, o0, t.drop_last()) == o0);
            assert(place_all(c0, t) == place_text(c0, chunks.last().content@));
        }
    }
}

/// Joining chunks keeps every span on its text: each chunk's spans,
/// moved to where the chunk content starts, select the same text in the
/// document content, when that content's UTF-16 length fits an `i32`.
pub proof fn lemma_document_spans_locate(chunks: Seq<ChunkResult>, paras: Seq<Paragraph>)
    requires
        doc_paragraphs(chunks, paras),
        doc_offset(chunks) <= i32::MAX,
        forall|k: int|
            0 <= k < chunks.len() && (#[trigger] chunks[k]).has_text ==> spans_locate(
                chunks[k].content@,
                chunks[k].paragraphs@,
            ),
    ensures
        spans_locate(doc_content(chunks), paras),
    decreases chunks.len(),
{
    if chunks.len() > 0 {
        let before = chunks.drop_last();
        assert forall|k: int|
            0 <= k < before.len() && (#[trigger] before[k]).has_text implies spans_locate(
            before[k].content@,
            before[k].paragraphs@,
        ) by {
            assert(before[k] == chunks[k]);
        }
        lemma_doc_offset_monotone(chunks, chunks.len() - 1);
        assert(chunks.take(chunks.len() - 1) =~= before);
        if chunks.last().has_text {
            let own = chunks.last().paragraphs@;
            let n = own.len();
            let m = paras.len() - n;
            lemma_document_spans_locate(before, paras.take(m));
            let c0 = doc_content(before);
            let o0 = doc_offset(before);
            let ct = chunks.last().content@;
            lemma_doc_consistent(before);
            let base = doc_base(chunks);
            let prefix = if needs_separator(c0, ct) {
                c0.push('\n')
            } else {
                c0
            };
            let c1 = doc_content(chunks);
            assert(c1 =~= prefix + ct);
            if needs_separator(c0, ct) {
                assert(prefix =~= c0 + seq!['\n']);
                lemma_utf16_concat(c0, seq!['\n']);
                lemma_utf16_single('\n');
            }
            assert(base == utf16_len(prefix));
            lemma_utf16_concat(prefix, ct);
            lemma_utf16_len_units(prefix);
            lemma_utf16_len_units(ct);
            assert(chunks[chunks.len() - 1] == chunks.last());
            assert(spans_locate(ct, own));
            assert forall|k: int| 0 <= k < paras.len() implies {
                let q = #[trigger] paras[k];
                &&& q.spans@.len() == 1
                &&& q.spans@[0].length == utf16_len(q.content@)
                &&& locates(c1, q.spans@[0].offset as int, q.content@)
            } by {
                if k < m {
                    assert(paras.take(m)[k] == paras[k]);
                    assert(c1 =~= c0 + c1.skip(c0.len() as int));
                    lemma_locates_extend(c0, c1.skip(c0.len() as int), paras[k].spans@[0].offset as int, paras[k].content@);
                } else {
                    let j = k - m;
                    let p = own[j];
                    assert(shifted(paras[m + j], p, base as i32));
                    assert(m + j == k);
                    let s = p.spans@[0].offset as int;
                    assert(locates(ct, s, p.content@));
                    assert(paras[k].spans@[0] == shifted_span(p.spans@[0], base as i32));
                    assert(paras[k].spans@[0].offset == s + base);
                    let u = utf16_units(c1);
                    assert(u.subrange(base + s, base + s + utf16_len(p.content@)) =~= utf16_units(ct).subrange(
                        s,
                        s + utf16_len(p.content@),
                    ));
                }
            }
        } else {
            lemma_document_spans_locate(before, paras);
        }
    }
}

/// Central property: in a document joined from extracted chunks, every
/// paragraph's span selects exactly its text in the document content, in
/// UTF-16 code units (offsets usable with JavaScript `String.slice`), when
/// the content's UTF-16 length fits an `i32`.
pub proof fn lemma_extracted_spans_locate(
    chunk_pages: Seq<Seq<PageInput>>,
    chunks: Seq<ChunkResult>,
    doc: Document,
)
    requires
        chunk_pages.len() == chunks.len(),
        forall|k: int| 0 <= k < chunks.len() ==> chunk_of(#[trigger] chunk_pages[k], chunks[k]),
        document_of(chunks, Some(doc)),
        utf16_len(doc.content@) <= i32::MAX,
    ensures
        spans_locate(doc.content@, doc.paragraphs@),
{
    lemma_doc_consistent(chunks);
    assert forall|k: int|
        0 <= k < chunks.len() && (#[trigger] chunks[k]).has_text implies spans_locate(
        chunks[k].content@,
        chunks[k].paragraphs@,
    ) by {
        assert(chunk_of(chunk_pages[k], chunks[k]));
        lemma_chunk_consistent(chunk_pages[k]);
        lemma_doc_offset_monotone(chunks, k + 1);
        let t = chunks.take(k + 1);
        assert(t.drop_last() =~= chunks.take(k));
        assert(t.last() == chunks[k]);
        lemma_offset_monotone(
            doc_content(chunks.take(k)),
            doc_offset(chunks.take(k)),
            seq![chunks[k].content@],
            0,
        );
        lemma_doc_offset_monotone(chunks, k);
        lemma_chunk_spans_locate(chunk_pages[k], chunks[k].paragraphs@);
    }
    lemma_document_spans_locate(chunks, doc.paragraphs@);
}

/// The concatenation of a sequence of sequences.
pub open spec fn flatten_pages(chunk_pages: Seq<Seq<PageInput>>) -> Seq<PageInput>
    decreases chunk_pages.len(),
{
    if chunk_pages.len() == 0 {
        Seq::empty()
    } else {
        flatten_pages(chunk_pages.drop_last()) + chunk_pages.last()
    }
}

/// Joining chunks keeps every page, in order, with its 1-based number
/// and size: a document lists all pages, with or without text.
pub proof fn lemma_document_pages(
    chunk_pages: Seq<Seq<PageInput>>,
    chunks: Seq<ChunkResult>,
)
    requires
        chunk_pages.len() == chunks.len(),
        forall|k: int| 0 <= k < chunks.len() ==> chunk_of(#[trigger] chunk_pages[k], chunks[k]),
    ensures
        doc_pages(chunks) == flatten_pages(chunk_pages).map_values(|p: PageInput| page_meta(p)),
    decreases chunks.len(),
{
    if chunks.len() > 0 {
        let cp = chunk_pages.drop_last();
        let cs = chunks.drop_last();
        assert forall|k: int| 0 <= k < cs.len() implies chunk_of(#[trigger] cp[k], cs[k]) by {
            assert(cp[k] == chunk_pages[k]);
            assert(cs[k] == chunks[k]);
        }
        lemma_document_pages(cp, cs);
        assert(chunk_of(chunk_pages[chunks.len() - 1], chunks[chunks.len() - 1]));
        assert(flatten_pages(chunk_pages).map_values(|p: PageInput| page_meta(p)) =~= flatten_pages(
            cp,
        ).map_values(|p: PageInput| page_meta(p)) + chunk_pages.last().map_values(
            |p: PageInput| page_meta(p),
        ));
    } else {
        assert(flatten_pages(chunk_pages).map_values(|p: PageInput| page_meta(p)) =~= Seq::<
            Page,
        >::empty());
    }
}

/// A PDF yields no document exactly when none of its pages has text (at
/// least ten kept characters that are not whitespace).
pub proof fn lemma_no_document_without_text(
    chunk_pages: Seq<Seq<PageInput>>,
    chunks: Seq<ChunkResult>,
    d: Option<Document>,
)
    requires
        chunk_pages.len() == chunks.len(),
        forall|k: int| 0 <= k < chunks.len() ==> chunk_of(#[trigger] chunk_pages[k], chunks[k]),
        document_of(chunks, d),
    ensures
        d is None <==> forall|k: int, j: int|
            0 <= k < chunk_pages.len() && 0 <= j < chunk_pages[k].len() ==> !page_has_text(
                #[trigger] chunk_pages[k][j],
            ),
{
    if d is None {
        assert forall|k: int, j: int|
            0 <= k < chunk_pages.len() && 0 <= j < chunk_pages[k].len() implies !page_has_text(
            #[trigger] chunk_pages[k][j],
        ) by {
            assert(chunk_of(chunk_pages[k], chunks[k]));
            if page_has_text(chunk_pages[k][j]) {
                assert(chunks[k].has_text);
            }
        }
    } else {
        let k = choose|k: int| 0 <= k < chunks.len() && (#[trigger] chunks[k]).has_text;
        assert(chunk_of(chunk_pages[k], chunks[k]));
        let j = choose|j: int| 0 <= j < chunk_pages[k].len() && page_has_text(#[trigger] chunk_pages[k][j]);
        assert(page_has_text(chunk_pages[k][j]));
    }
}


/// The concatenation of groups.
pub open spec fn concat<T>(g: Seq<Seq<T>>) -> Seq<T>
    decreases g.len(),
{
    if g.len() == 0 {
        Seq::empty()
    } else {
        concat(g.drop_last()) + g.last()
    }
}

/// Groups are non-empty, no break separates consecutive lines of a group,
/// and a break separates each group from the one before.
pub open spec fn split_at_breaks(groups: Seq<Seq<LineView>>) -> bool {
    &&& forall|k: int| 0 <= k < groups.len() ==> (#[trigger] groups[k]).len() > 0
    &&& forall|k: int, j: int|
        0 <= k < groups.len() && 1 <= j < groups[k].len() ==> !paragraph_break(
            groups[k][j - 1],
            #[trigger] groups[k][j],
        )
    &&& forall|k: int|
        1 <= k < groups.len() ==> paragraph_break(groups[k - 1].last(), (#[trigger] groups[k])[0])
}

proof fn lemma_paragraph_split(lines: Seq<LineView>, n: int)
    requires
        1 <= n <= lines.len(),
    ensures
        concat(paragraph_groups(lines, n)) == lines.take(n),
        split_at_breaks(paragraph_groups(lines, n)),
    decreases n,
{
    let g = paragraph_groups(lines, n);
    if n == 1 {
        assert(g.drop_last() =~= Seq::<Seq<LineView>>::empty());
        assert(concat(g) == concat(g.drop_last()) + g.last());
        assert(concat(g) =~= lines.take(1));
    } else {
        lemma_paragraph_split(lines, n - 1);
        let g0 = paragraph_groups(lines, n - 1);
        let l = lines[n - 1];
        assert(lines.take(n) =~= lines.take(n - 1).push(l));
        assert(g0.len() > 0);
        assert(g0[g0.len() - 1] == g0.last());
        assert(concat(g0) == concat(g0.drop_last()) + g0.last());
        assert(g0.last().last() == lines[n - 2]) by {
            assert(concat(g0).last() == g0.last().last());
            assert(lines.take(n - 1).last() == lines[n - 2]);
        }
        if paragraph_break(lines[n - 2], l) {
            assert(g == g0.push(seq![l]));
            assert(g.drop_last() =~= g0);
            assert(concat(g) =~= lines.take(n));
            assert forall|k: int, j: int|
                0 <= k < g.len() && 1 <= j < g[k].len() implies !paragraph_break(
                g[k][j - 1],
                #[trigger] g[k][j],
            ) by {
                assert(k < g0.len());
                assert(g[k] == g0[k]);
            }
            assert forall|k: int| 1 <= k < g.len() implies paragraph_break(
                g[k - 1].last(),
                (#[trigger] g[k])[0],
            ) by {
                if k < g0.len() {
                    assert(g[k] == g0[k]);
                    assert(g[k - 1] == g0[k - 1]);
                }
            }
        } else {
            let last = g0.last().push(l);
            assert(g == g0.update(g0.len() - 1, last));
            assert(g.drop_last() =~= g0.drop_last());
            assert(concat(g) =~= concat(g0.drop_last()) + last);
            assert(concat(g) =~= lines.take(n));
            assert forall|k: int, j: int|
                0 <= k < g.len() && 1 <= j < g[k].len() implies !paragraph_break(
                g[k][j - 1],
                #[trigger] g[k][j],
            ) by {
                if k < g0.len() - 1 {
                    assert(g[k] == g0[k]);
                } else if j < last.len() - 1 {
                    assert(g[k][j] == g0[k][j]);
                    assert(g[k][j - 1] == g0[k][j - 1]);
                }
            }
            assert forall|k: int| 1 <= k < g.len() implies paragraph_break(
                g[k - 1].last(),
                (#[trigger] g[k])[0],
            ) by {
                assert(g[k][0] == g0[k][0]);
                assert(g[k - 1] == g0[k - 1]);
            }
        }
    }
}

/// Paragraphs split the lines in order, exactly at the breaks: each
/// paragraph is a run of consecutive lines with no large gap or font size
/// change inside, and each begins where such a break occurs.
pub proof fn lemma_paragraphs_split_lines(lines: Seq<LineView>)
    ensures
        concat(paragraph_groups(lines, lines.len() as int)) == lines,
        split_at_breaks(paragraph_groups(lines, lines.len() as int)),
{
    if lines.len() == 0 {
        assert(concat(Seq::<Seq<LineView>>::empty()) =~= lines);
    } else {
        lemma_paragraph_split(lines, lines.len() as int);
        assert(lines.take(lines.len() as int) =~= lines);
    }
}

/// Characters in reading order go from the top of the page down, and left
/// to right at equal height; no character is lost or repeated.
pub proof fn lemma_reading_order(chars: Seq<PositionedChar>)
    requires
        chars.len() <= usize::MAX,
    ensures
        in_reading_order(chars) == permute(chars, stable_order_of(reading_keys(chars))),
        is_permutation(stable_order_of(reading_keys(chars)), chars.len()),
        forall|i: int, j: int|
            0 <= i < j < chars.len() ==> {
                let a = #[trigger] in_reading_order(chars)[i];
                let b = #[trigger] in_reading_order(chars)[j];
                a.y > b.y || (a.y == b.y && a.x <= b.x)
            },
{
    let keys = reading_keys(chars);
    lemma_stable_order(keys);
    let p = stable_order_of(keys);
    assert forall|i: int, j: int| 0 <= i < j < chars.len() implies {
        let a = #[trigger] in_reading_order(chars)[i];
        let b = #[trigger] in_reading_order(chars)[j];
        a.y > b.y || (a.y == b.y && a.x <= b.x)
    } by {
        assert(precedes(keys, p[i] as int, p[j] as int));
        assert(p[i] < chars.len() && p[j] < chars.len());
    }
}

/// Each line's characters go left to right.
pub proof fn lemma_line_left_to_right(group: Seq<PositionedChar>)
    requires
        group.len() <= usize::MAX,
    ensures
        forall|i: int, j: int|
            0 <= i < j < line_model(group).chars.len() ==> (#[trigger] line_model(group).chars[i]).x
                <= (#[trigger] line_model(group).chars[j]).x,
        line_model(group).chars.len() == group.len(),
{
    let keys = x_keys(group);
    lemma_stable_order(keys);
    let p = stable_order_of(keys);
    assert forall|i: int, j: int| 0 <= i < j < line_model(group).chars.len() implies (#[trigger] line_model(
        group,
    ).chars[i]).x <= (#[trigger] line_model(group).chars[j]).x by {
        assert(precedes(keys, p[i] as int, p[j] as int));
    }
}

/// Lines split the characters in reading order: concatenated, the
/// lines' character groups are the characters in reading order, and every
/// character of a line after its first is within half the first one's
/// font size of it in height.
pub proof fn lemma_lines_split_characters(chars: Seq<PositionedChar>)
    ensures
        concat(line_groups(in_reading_order(chars), in_reading_order(chars).len() as int))
            == in_reading_order(chars),
        forall|k: int, j: int|
            0 <= k < line_groups(in_reading_order(chars), in_reading_order(chars).len() as int).len()
                && 1 <= j < line_groups(in_reading_order(chars), in_reading_order(chars).len() as int)[k].len()
                ==> on_same_line(
                line_groups(in_reading_order(chars), in_reading_order(chars).len() as int)[k][0],
                #[trigger] line_groups(in_reading_order(chars), in_reading_order(chars).len() as int)[k][j],
            ),
{
    let s = in_reading_order(chars);
    lemma_line_split(s, s.len() as int);
    assert(s.take(s.len() as int) =~= s);
}

proof fn lemma_line_split(s: Seq<PositionedChar>, n: int)
    requires
        0 <= n <= s.len(),
    ensures
        concat(line_groups(s, n)) == s.take(n),
        forall|k: int, j: int|
            0 <= k < line_groups(s, n).len() && 1 <= j < line_groups(s, n)[k].len() ==> on_same_line(
                line_groups(s, n)[k][0],
                #[trigger] line_groups(s, n)[k][j],
            ),
        n >= 1 ==> line_groups(s, n).len() >= 1 && line_groups(s, n).last().len() >= 1,
    decreases n,
{
    let g = line_groups(s, n);
    if n == 0 {
        assert(concat(g) =~= s.take(0));
    } else if n == 1 {
        assert(g.drop_last() =~= Seq::<Seq<PositionedChar>>::empty());
        assert(concat(g) == concat(g.drop_last()) + g.last());
        assert(concat(g) =~= s.take(1));
    } else {
        lemma_line_split(s, n - 1);
        let g0 = line_groups(s, n - 1);
        let c = s[n - 1];
        assert(s.take(n) =~= s.take(n - 1).push(c));
        if on_same_line(g0.last()[0], c) {
            let last = g0.last().push(c);
            assert(g == g0.update(g0.len() - 1, last));
            assert(g.drop_last() =~= g0.drop_last());
            assert(concat(g0) == concat(g0.drop_last()) + g0.last());
            assert(concat(g) =~= s.take(n));
            assert forall|k: int, j: int|
                0 <= k < g.len() && 1 <= j < g[k].len() implies on_same_line(
                g[k][0],
                #[trigger] g[k][j],
            ) by {
                if k < g0.len() - 1 {
                    assert(g[k] == g0[k]);
                } else if j < last.len() - 1 {
                    assert(g[k][j] == g0[k][j]);
                    assert(g0[k] == g0.last());
                }
            }
        } else {
            assert(g == g0.push(seq![c]));
            assert(g.drop_last() =~= g0);
            assert(concat(g) =~= s.take(n));
            assert forall|k: int, j: int|
                0 <= k < g.len() && 1 <= j < g[k].len() implies on_same_line(
                g[k][0],
                #[trigger] g[k][j],
            ) by {
                if k < g0.len() {
                    assert(g[k] == g0[k]);
                }
            }
        }
    }
}
/// The paragraphs of one page, appended to content whose running offset
/// is its UTF-16 length: the content only grows, the offset stays its
/// UTF-16 length, every paragraph's span selects its text in the new
/// content, and every paragraph's region is on the page. Stated when the
/// new offset fits an `i32` (spans hold `i32` offsets).
pub proof fn lemma_page_paragraph_spans(
    lines: Seq<LineView>,
    page_number: i32,
    page_height: i64,
    content: Seq<char>,
    offset: int,
    paras: Seq<Paragraph>,
)
    requires
        paragraphs_of(lines, page_number, page_height, content, offset, paras),
        offset == utf16_len(content),
        offset_after_all(
            content,
            offset,
            group_texts(paragraph_groups(lines, lines.len() as int)),
        ) <= i32::MAX,
    ensures
        ({
            let texts = group_texts(paragraph_groups(lines, lines.len() as int));
            let c1 = place_all(content, texts);
            &&& content.len() <= c1.len()
            &&& c1.take(content.len() as int) == content
            &&& offset_after_all(content, offset, texts) == utf16_len(c1)
            &&& spans_locate(c1, paras)
            &&& forall|k: int|
                0 <= k < paras.len() ==> (#[trigger] paras[k]).bounding_regions@.len() == 1
                    && paras[k].bounding_regions@[0].page_number == page_number
        }),
{
    let g = paragraph_groups(lines, lines.len() as int);
    let texts = group_texts(g);
    let c1 = place_all(content, texts);
    lemma_offsets_consistent(content, offset, texts);
    lemma_place_all_prefix(content, texts, 0);
    assert(texts.take(0) =~= Seq::<Seq<char>>::empty());
    assert(c1.take(content.len() as int) =~= content);
    assert forall|k: int| 0 <= k < paras.len() implies {
        let p = #[trigger] paras[k];
        &&& p.spans@.len() == 1
        &&& p.spans@[0].length == utf16_len(p.content@)
        &&& locates(c1, p.spans@[0].offset as int, p.content@)
    } by {
        assert(paragraph_from(
            paras[k],
            g[k],
            page_number,
            page_height,
            median_font_size(lines),
            place_all(content, texts.take(k)),
            offset_after_all(content, offset, texts.take(k)),
        ));
        lemma_offset_monotone(content, offset, texts, k);
        lemma_offset_monotone(content, offset, texts, 0);
        assert(texts[k] == paras[k].content@);
        assert(locates(c1, start_of(content, offset, texts, k), texts[k]));
    }
}

} // verus!
