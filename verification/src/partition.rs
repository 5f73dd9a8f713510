//! Extracting the pages of a PDF in chunks and joining the results gives
//! the document that one chunk of all the pages gives.
use vstd::prelude::*;
use crate::chunk::{chunk_of, doc_base, doc_content, doc_pages, doc_paragraphs, document_of, shifted_span, ChunkResult, chunk_content, chunk_offset, chunk_paragraphs, page_has_text, page_lines, page_number_of, page_paragraph_count, page_texts, PageInput};
use crate::content::{needs_separator, offset_after_all, place_all, placed_at, place_text, lemma_offsets_consistent};
use crate::joining::{comes_from, joined_nonempty, paragraphs_before, lemma_doc_paragraph_at, lemma_paragraph_count, lemma_paragraph_origin, lemma_joined_append, lemma_paragraphs_before_prefix};
use crate::laws::{flatten_pages, lemma_chunk_consistent, lemma_doc_consistent, lemma_document_pages};
use crate::paragraphs::{joined_lines, group_texts, median_font_size, paragraph_from, paragraph_groups, paragraphs_of};
use crate::text::{utf16_len, lemma_utf16_concat, lemma_utf16_len_bounds, lemma_utf16_single};
use crate::types::{BoundingRegion, Document, Page, Paragraph, Span};

verus! {

/// The paragraphs that a run of pages yields, in order: for each page with
/// text, each of its paragraph groups, named by the page and the group's
/// index.
pub open spec fn sources(pages: Seq<PageInput>) -> Seq<(PageInput, int)>
    decreases pages.len(),
{
    if pages.len() == 0 {
        Seq::empty()
    } else {
        let p = pages.last();
        sources(pages.drop_last()) + if page_has_text(p) {
            Seq::new(page_paragraph_count(p), |k: int| (p, k))
        } else {
            Seq::empty()
        }
    }
}

/// The text of the paragraph of a source.
pub open spec fn source_text(s: (PageInput, int)) -> Seq<char> {
    page_texts(s.0)[s.1]
}

/// The texts of the paragraphs that a run of pages yields.
pub open spec fn source_texts(pages: Seq<PageInput>) -> Seq<Seq<char>> {
    sources(pages).map_values(|s: (PageInput, int)| source_text(s))
}

/// `q` is the paragraph of source `s`, placed after the content `c`.
pub open spec fn paragraph_of_source(q: Paragraph, s: (PageInput, int), c: Seq<char>) -> bool {
    let l = page_lines(s.0);
    paragraph_from(
        q,
        paragraph_groups(l, l.len() as int)[s.1],
        page_number_of(s.0),
        s.0.height,
        median_font_size(l),
        c,
        utf16_len(c) as int,
    )
}

proof fn lemma_page_sources(p: PageInput)
    requires
        page_has_text(p),
    ensures
        Seq::new(page_paragraph_count(p), |k: int| (p, k)).map_values(
            |s: (PageInput, int)| source_text(s),
        ) == page_texts(p),
{
    let l = page_lines(p);
    let g = paragraph_groups(l, l.len() as int);
    assert(Seq::new(page_paragraph_count(p), |k: int| (p, k)).map_values(
        |s: (PageInput, int)| source_text(s),
    ) =~= page_texts(p));
}

/// Within a chunk, the `x`-th paragraph is that of the `x`-th source,
/// placed after the join of the texts before it.
#[verifier::rlimit(80)]
pub proof fn lemma_chunk_sources(pages: Seq<PageInput>, paras: Seq<Paragraph>)
    requires
        chunk_paragraphs(pages, paras),
    ensures
        paras.len() == sources(pages).len(),
        chunk_content(pages) == joined_nonempty(source_texts(pages)),
        forall|x: int|
            0 <= x < paras.len() ==> paragraph_of_source(
                #[trigger] paras[x],
                sources(pages)[x],
                joined_nonempty(source_texts(pages).take(x)),
            ),
    decreases pages.len(),
{
    if pages.len() == 0 {
        assert(source_texts(pages) =~= Seq::<Seq<char>>::empty());
    } else {
        let before = pages.drop_last();
        let p = pages.last();
        if page_has_text(p) {
            let n = page_paragraph_count(p);
            let m = paras.len() - n;
            lemma_chunk_sources(before, paras.take(m));
            lemma_chunk_consistent(before);
            lemma_page_sources(p);
            let cb = chunk_content(before);
            let ob = chunk_offset(before);
            let sb = source_texts(before);
            let tp = page_texts(p);
            let l = page_lines(p);
            let g = paragraph_groups(l, l.len() as int);
            assert(source_texts(pages) =~= sb + tp);
            lemma_joined_append(sb, tp);
            assert forall|x: int| 0 <= x < paras.len() implies paragraph_of_source(
                #[trigger] paras[x],
                sources(pages)[x],
                joined_nonempty(source_texts(pages).take(x)),
            ) by {
                if x < m {
                    assert(paras.take(m)[x] == paras[x]);
                    assert(sources(pages)[x] == sources(before)[x]);
                    assert(source_texts(pages).take(x) =~= sb.take(x));
                } else {
                    let k = x - m;
                    assert(paras.skip(m)[k] == paras[x]);
                    assert(paragraphs_of(l, page_number_of(p), p.height, cb, ob, paras.skip(m)));
                    assert(paragraph_from(
                        paras.skip(m)[k],
                        g[k],
                        page_number_of(p),
                        p.height,
                        median_font_size(l),
                        place_all(cb, group_texts(g).take(k)),
                        offset_after_all(cb, ob, group_texts(g).take(k)),
                    ));
                    lemma_offsets_consistent(cb, ob, tp.take(k));
                    lemma_joined_append(sb, tp.take(k));
                    assert(source_texts(pages).take(x) =~= sb + tp.take(k));
                    assert(sources(pages)[x] == (p, k));
                }
            }
        } else {
            lemma_chunk_sources(before, paras);
            assert(sources(pages) =~= sources(before));
            assert(source_texts(pages) =~= source_texts(before));
        }
    }
}

proof fn lemma_sources_valid(pages: Seq<PageInput>)
    ensures
        forall|x: int|
            0 <= x < sources(pages).len() ==> 0 <= (#[trigger] sources(pages)[x]).1
                < page_paragraph_count(sources(pages)[x].0),
    decreases pages.len(),
{
    if pages.len() > 0 {
        lemma_sources_valid(pages.drop_last());
        let b = sources(pages.drop_last());
        assert forall|x: int| 0 <= x < sources(pages).len() implies 0 <= (#[trigger] sources(
            pages,
        )[x]).1 < page_paragraph_count(sources(pages)[x].0) by {
            if x < b.len() {
                assert(sources(pages)[x] == b[x]);
            }
        }
    }
}

proof fn lemma_sources_append(a: Seq<PageInput>, b: Seq<PageInput>)
    ensures
        sources(a + b) == sources(a) + sources(b),
        source_texts(a + b) == source_texts(a) + source_texts(b),
    decreases b.len(),
{
    if b.len() == 0 {
        assert(a + b =~= a);
        assert(sources(a) + sources(b) =~= sources(a));
    } else {
        lemma_sources_append(a, b.drop_last());
        assert((a + b).drop_last() =~= a + b.drop_last());
        assert((a + b).last() == b.last());
        assert(sources(a + b) =~= sources(a) + sources(b));
    }
    assert(source_texts(a + b) =~= source_texts(a) + source_texts(b));
}

proof fn lemma_no_text_no_sources(pages: Seq<PageInput>)
    requires
        forall|j: int| 0 <= j < pages.len() ==> !page_has_text(#[trigger] pages[j]),
    ensures
        sources(pages).len() == 0,
    decreases pages.len(),
{
    if pages.len() > 0 {
        assert(!page_has_text(pages[pages.len() - 1]));
        assert forall|j: int| 0 <= j < pages.drop_last().len() implies !page_has_text(
            #[trigger] pages.drop_last()[j],
        ) by {
            assert(pages.drop_last()[j] == pages[j]);
        }
        lemma_no_text_no_sources(pages.drop_last());
    }
}

proof fn lemma_place_text_assoc(c: Seq<char>, a: Seq<char>, t: Seq<char>)
    ensures
        place_text(place_text(c, a), t) == place_text(c, place_text(a, t)),
{
    if c.len() == 0 {
        assert(place_text(c, a) =~= a);
        assert(place_text(c, place_text(a, t)) =~= place_text(a, t));
    } else if a.len() == 0 {
        assert(place_text(c, a) =~= c);
        assert(place_text(a, t) =~= t);
    } else if t.len() == 0 {
        assert(place_text(a, t) =~= a);
        assert(place_text(place_text(c, a), t) =~= place_text(c, a));
    } else {
        assert(place_text(place_text(c, a), t) =~= place_text(c, place_text(a, t)));
    }
}

/// Appending texts one by one is appending their join.
pub proof fn lemma_place_all_join(c: Seq<char>, texts: Seq<Seq<char>>)
    ensures
        place_all(c, texts) == place_text(c, joined_nonempty(texts)),
    decreases texts.len(),
{
    if texts.len() == 0 {
        assert(place_text(c, Seq::<char>::empty()) =~= c);
    } else {
        lemma_place_all_join(c, texts.drop_last());
        lemma_place_text_assoc(c, joined_nonempty(texts.drop_last()), texts.last());
        let a = joined_nonempty(texts.drop_last());
        let t = texts.last();
        if a.len() == 0 {
            assert(place_text(a, t) =~= t);
        } else if t.len() == 0 {
            assert(place_text(a, t) =~= a);
        }
    }
}

proof fn lemma_paragraphs_before_take(chunks: Seq<ChunkResult>, k: int)
    requires
        0 <= k <= chunks.len(),
    ensures
        paragraphs_before(chunks.take(k), k) == paragraphs_before(chunks, k),
    decreases k,
{
    if k > 0 {
        lemma_paragraphs_before_take(chunks, k - 1);
        lemma_paragraphs_before_take_eq(chunks.take(k), chunks.take(k - 1), k - 1);
        assert(chunks.take(k)[k - 1] == chunks[k - 1]);
    }
}

proof fn lemma_paragraphs_before_take_eq(a: Seq<ChunkResult>, b: Seq<ChunkResult>, k: int)
    requires
        0 <= k <= a.len(),
        k <= b.len(),
        forall|i: int| 0 <= i < k ==> a[i] == b[i],
    ensures
        paragraphs_before(a, k) == paragraphs_before(b, k),
    decreases k,
{
    if k > 0 {
        lemma_paragraphs_before_take_eq(a, b, k - 1);
        assert(a[k - 1] == b[k - 1]);
    }
}

/// The document joined from chunks of a page partition is the join of the
/// texts of all the pages, and carries one paragraph per source.
pub proof fn lemma_doc_sources(parts: Seq<Seq<PageInput>>, chunks: Seq<ChunkResult>)
    requires
        parts.len() == chunks.len(),
        forall|k: int| 0 <= k < chunks.len() ==> chunk_of(#[trigger] parts[k], chunks[k]),
    ensures
        doc_content(chunks) == joined_nonempty(source_texts(flatten_pages(parts))),
        paragraphs_before(chunks, chunks.len() as int) == sources(flatten_pages(parts)).len(),
    decreases chunks.len(),
{
    if chunks.len() == 0 {
        assert(source_texts(flatten_pages(parts)) =~= Seq::<Seq<char>>::empty());
    } else {
        let n = chunks.len() - 1;
        let bp = parts.drop_last();
        let bc = chunks.drop_last();
        assert forall|k: int| 0 <= k < bc.len() implies chunk_of(#[trigger] bp[k], bc[k]) by {
            assert(bp[k] == parts[k]);
            assert(bc[k] == chunks[k]);
        }
        lemma_doc_sources(bp, bc);
        let c = chunks[n];
        let pl = parts[n];
        assert(chunk_of(pl, c));
        assert(c == chunks.last());
        assert(pl == parts.last());
        lemma_chunk_sources(pl, c.paragraphs@);
        lemma_sources_append(flatten_pages(bp), pl);
        if n > 0 {
            lemma_paragraphs_before_prefix(chunks, n);
        }
        let xb = source_texts(flatten_pages(bp));
        let y = source_texts(pl);
        lemma_joined_append(xb, y);
        lemma_place_all_join(joined_nonempty(xb), y);
        if !c.has_text {
            assert forall|j: int| 0 <= j < pl.len() implies !page_has_text(#[trigger] pl[j]) by {
                if page_has_text(pl[j]) {
                    assert(exists|k: int| 0 <= k < pl.len() && page_has_text(#[trigger] pl[k]));
                }
            }
            lemma_no_text_no_sources(pl);
            assert(y =~= Seq::<Seq<char>>::empty());
            assert(xb + y =~= xb);
        }
    }
}

proof fn lemma_flatten_split(parts: Seq<Seq<PageInput>>, t: int)
    requires
        0 <= t <= parts.len(),
    ensures
        flatten_pages(parts) == flatten_pages(parts.take(t)) + flatten_pages(parts.skip(t)),
    decreases parts.len(),
{
    if t == parts.len() {
        assert(parts.take(t) =~= parts);
        assert(parts.skip(t) =~= Seq::<Seq<PageInput>>::empty());
        assert(flatten_pages(parts) + Seq::<PageInput>::empty() =~= flatten_pages(parts));
    } else {
        lemma_flatten_split(parts.drop_last(), t);
        assert(parts.drop_last().take(t) =~= parts.take(t));
        assert(parts.drop_last().skip(t) =~= parts.skip(t).drop_last());
        assert(parts.skip(t).last() == parts.last());
        assert(flatten_pages(parts) =~= flatten_pages(parts.take(t)) + flatten_pages(parts.skip(t)));
    }
}

proof fn lemma_flatten_member(parts: Seq<Seq<PageInput>>, k: int, j: int)
    requires
        0 <= k < parts.len(),
        0 <= j < parts[k].len(),
    ensures
        exists|i: int| 0 <= i < flatten_pages(parts).len() && #[trigger] flatten_pages(parts)[i] == parts[k][j],
    decreases parts.len(),
{
    let b = parts.drop_last();
    if k < parts.len() - 1 {
        lemma_flatten_member(b, k, j);
        assert(b[k] == parts[k]);
        let i = choose|i: int| 0 <= i < flatten_pages(b).len() && #[trigger] flatten_pages(b)[i] == b[k][j];
        assert(flatten_pages(parts)[i] == parts[k][j]);
    } else {
        let i = flatten_pages(b).len() + j;
        assert(flatten_pages(parts)[i] == parts[k][j]);
    }
}

proof fn lemma_flatten_origin(parts: Seq<Seq<PageInput>>, i: int)
    requires
        0 <= i < flatten_pages(parts).len(),
    ensures
        exists|k: int, j: int| 0 <= k < parts.len() && 0 <= j < parts[k].len() && #[trigger] parts[k][j] == flatten_pages(parts)[i],
    decreases parts.len(),
{
    let b = parts.drop_last();
    if i < flatten_pages(b).len() {
        lemma_flatten_origin(b, i);
        let (k, j) = choose|k: int, j: int| 0 <= k < b.len() && 0 <= j < b[k].len() && #[trigger] b[k][j] == flatten_pages(b)[i];
        assert(b[k] == parts[k]);
        assert(parts[k][j] == flatten_pages(parts)[i]);
    } else {
        let k = parts.len() - 1;
        let j = i - flatten_pages(b).len();
        assert(parts[k][j] == flatten_pages(parts)[i]);
    }
}

proof fn lemma_place_text_len(a: Seq<char>, b: Seq<char>)
    ensures
        utf16_len(place_text(a, b)) == utf16_len(a) + (if needs_separator(a, b) {
            1int
        } else {
            0int
        }) + utf16_len(b),
        (place_text(a, b).len() == 0) == (a.len() == 0 && b.len() == 0),
        place_text(a, b).len() >= a.len(),
{
    if needs_separator(a, b) {
        assert(place_text(a, b) =~= (a + seq!['\n']) + b);
        lemma_utf16_concat(a, seq!['\n']);
        lemma_utf16_single('\n');
        lemma_utf16_concat(a + seq!['\n'], b);
    } else {
        lemma_utf16_concat(a, b);
    }
}

proof fn lemma_joined_prefix(ts: Seq<Seq<char>>, y: int)
    requires
        0 <= y <= ts.len(),
    ensures
        joined_nonempty(ts) == place_text(joined_nonempty(ts.take(y)), joined_nonempty(ts.skip(y))),
        utf16_len(joined_nonempty(ts.take(y))) <= utf16_len(joined_nonempty(ts)),
        joined_nonempty(ts.take(y)).len() > 0 ==> joined_nonempty(ts).len() > 0,
{
    assert(ts =~= ts.take(y) + ts.skip(y));
    lemma_joined_append(ts.take(y), ts.skip(y));
    lemma_place_all_join(joined_nonempty(ts.take(y)), ts.skip(y));
    lemma_place_text_len(joined_nonempty(ts.take(y)), joined_nonempty(ts.skip(y)));
}

proof fn lemma_offset_arith(a: Seq<char>, l: Seq<char>, t: Seq<char>)
    requires
        t.len() > 0,
    ensures
        placed_at(place_text(a, l), utf16_len(place_text(a, l)) as int, t) == placed_at(
            l,
            utf16_len(l) as int,
            t,
        ) + utf16_len(a) + (if a.len() > 0 {
            1int
        } else {
            0int
        }),
{
    lemma_place_text_len(a, l);
    if l.len() == 0 {
        assert(place_text(a, l) =~= a);
    }
}

/// The text, role, regions and span length of a paragraph.
pub open spec fn role_view(r: Option<String>) -> Option<Seq<char>> {
    match r {
        Some(s) => Some(s@),
        None => None,
    }
}

/// The page numbers and polygons of regions.
pub open spec fn regions_view(rs: Seq<BoundingRegion>) -> Seq<(i32, Seq<i64>)> {
    rs.map_values(|r: BoundingRegion| (r.page_number, r.polygon@))
}

/// Two paragraphs carry the same text, role, regions and span length,
/// and, when the text is not empty, the same span.
pub open spec fn same_paragraph(p: Paragraph, q: Paragraph) -> bool {
    &&& p.content@ == q.content@
    &&& role_view(p.role) == role_view(q.role)
    &&& regions_view(p.bounding_regions@) == regions_view(q.bounding_regions@)
    &&& p.spans@.len() == 1
    &&& q.spans@.len() == 1
    &&& p.spans@[0].length == q.spans@[0].length
    &&& p.content@.len() > 0 ==> p.spans@ == q.spans@
}

proof fn lemma_same_source(p: Paragraph, q: Paragraph, s: (PageInput, int), c: Seq<char>, d: Seq<char>)
    requires
        paragraph_of_source(p, s, c),
        paragraph_of_source(q, s, d),
    ensures
        p.content@ == q.content@,
        role_view(p.role) == role_view(q.role),
        regions_view(p.bounding_regions@) == regions_view(q.bounding_regions@),
{
    assert(regions_view(p.bounding_regions@) =~= regions_view(q.bounding_regions@));
}

#[verifier::rlimit(100)]
proof fn lemma_partition_paragraph(
    parts: Seq<Seq<PageInput>>,
    chunks: Seq<ChunkResult>,
    whole: ChunkResult,
    ps1: Seq<Paragraph>,
    ps2: Seq<Paragraph>,
    k: int,
    j: int,
)
    requires
        parts.len() == chunks.len(),
        forall|i: int| 0 <= i < chunks.len() ==> chunk_of(#[trigger] parts[i], chunks[i]),
        chunk_of(flatten_pages(parts), whole),
        doc_paragraphs(chunks, ps1),
        doc_paragraphs(seq![whole], ps2),
        utf16_len(doc_content(chunks)) <= i32::MAX,
        0 <= k < chunks.len(),
        chunks[k].has_text,
        0 <= j < chunks[k].paragraphs@.len(),
    ensures
        0 <= paragraphs_before(chunks, k) + j < ps1.len(),
        paragraphs_before(chunks, k) + j < ps2.len(),
        same_paragraph(ps1[paragraphs_before(chunks, k) + j], ps2[paragraphs_before(chunks, k) + j]),
{
    let y = paragraphs_before(chunks, k) + j;
    let f = flatten_pages(parts);
    let pk = parts[k];
    let ck = chunks[k];
    assert(chunk_of(pk, ck));
    // The chunk's own paragraph and the whole chunk's paragraph.
    lemma_chunk_sources(pk, ck.paragraphs@);
    lemma_chunk_sources(f, whole.paragraphs@);
    // Where the chunk's sources sit among all sources.
    let tk = parts.take(k);
    let fk = flatten_pages(tk);
    lemma_flatten_split(parts, k + 1);
    assert(parts.take(k + 1).drop_last() =~= tk);
    assert(parts.take(k + 1).last() == pk);
    let fk1 = flatten_pages(parts.take(k + 1));
    assert(fk1 == fk + pk);
    lemma_sources_append(fk, pk);
    lemma_sources_append(fk1, flatten_pages(parts.skip(k + 1)));
    assert forall|i: int| 0 <= i < tk.len() implies chunk_of(#[trigger] tk[i], chunks.take(k)[i]) by {
        assert(tk[i] == parts[i]);
        assert(chunks.take(k)[i] == chunks[i]);
    }
    lemma_doc_sources(tk, chunks.take(k));
    lemma_paragraphs_before_take(chunks, k);
    let nk = sources(fk).len();
    assert(y == nk + j);
    assert(sources(f)[y] == sources(pk)[j]);
    let st = source_texts(f);
    let stk = source_texts(pk);
    let a = joined_nonempty(source_texts(fk));
    let l = joined_nonempty(stk.take(j));
    let g = joined_nonempty(st.take(y));
    assert(st.take(y) =~= source_texts(fk) + stk.take(j));
    lemma_joined_append(source_texts(fk), stk.take(j));
    lemma_place_all_join(a, stk.take(j));
    assert(g == place_text(a, l));
    assert(y < whole.paragraphs@.len());
    // The whole chunk has text, as the page with text is among its pages.
    let jp = choose|jp: int| 0 <= jp < pk.len() && page_has_text(#[trigger] pk[jp]);
    lemma_flatten_member(parts, k, jp);
    let ip = choose|ip: int| 0 <= ip < f.len() && #[trigger] f[ip] == parts[k][jp];
    assert(page_has_text(f[ip]));
    assert(whole.has_text);
    // Both documents' paragraphs.
    lemma_doc_paragraph_at(chunks, ps1, k, j);
    lemma_doc_paragraph_at(seq![whole], ps2, 0, y);
    let w = seq![whole];
    assert(w.take(1) =~= w);
    assert(w.drop_last() =~= Seq::<ChunkResult>::empty());
    assert(paragraphs_before(w, 0) == 0);
    assert(doc_base(w) == 0);
    let p = ck.paragraphs@[j];
    let q = whole.paragraphs@[y];
    assert(paragraph_of_source(p, sources(pk)[j], l));
    assert(paragraph_of_source(q, sources(f)[y], g));
    lemma_same_source(p, q, sources(pk)[j], l, g);
    let base = doc_base(chunks.take(k + 1));
    assert(chunks.take(k + 1).drop_last() =~= chunks.take(k));
    assert(chunks.take(k + 1).last() == ck);
    lemma_doc_consistent(chunks.take(k));
    let t = st[y];
    assert(t == stk[j]);
    lemma_place_text_len(l, t);
    if t.len() > 0 {
        lemma_offset_arith(a, l, t);
        // The chunk's content is not empty, so the base is past the separator.
        lemma_joined_prefix(stk, j + 1);
        assert(stk.take(j + 1).drop_last() =~= stk.take(j));
        assert(stk.take(j + 1).last() == t);
        assert(ck.content@ == joined_nonempty(stk));
        assert(ck.content@.len() > 0);
        assert(base == utf16_len(a) + (if a.len() > 0 {
            1int
        } else {
            0int
        }));
        // Bounds: the paragraph ends within the document.
        lemma_joined_prefix(st, y + 1);
        assert(st.take(y + 1).drop_last() =~= st.take(y));
        assert(st.take(y + 1).last() == t);
        lemma_place_text_len(g, t);
        lemma_doc_sources(parts, chunks);
        lemma_utf16_len_bounds(a);
        lemma_utf16_len_bounds(l);
    }
    assert(ps1[y].spans@ =~= p.spans@.map_values(|s: Span| shifted_span(s, base as i32)));
    assert(ps2[y].spans@ =~= q.spans@.map_values(|s: Span| shifted_span(s, 0i32)));
    lemma_sources_valid(pk);
    let src = sources(pk)[j];
    let lsrc = page_lines(src.0);
    assert(t == source_text(src));
    assert(source_text(src) == joined_lines(paragraph_groups(lsrc, lsrc.len() as int)[src.1]));
    assert(p.content@ == t);
    assert(ps1[y].content@ == ps2[y].content@);
    assert(role_view(ps1[y].role) == role_view(ps2[y].role));
    assert(regions_view(ps1[y].bounding_regions@) == regions_view(ps2[y].bounding_regions@));
    assert(ps1[y].spans@.len() == 1);
    assert(ps2[y].spans@.len() == 1);
    assert(ps1[y].spans@[0].length == ps2[y].spans@[0].length);
    if t.len() > 0 {
        assert(ps1[y].spans@[0].offset == ps2[y].spans@[0].offset);
        assert(ps1[y].spans@ =~= ps2[y].spans@);
    }
}

/// Extracting the pages of a PDF in chunks (any split of the pages into
/// consecutive runs, as the parallel path does) and joining the chunk
/// results gives the document that one chunk of all the pages gives (the
/// sequential path): both exist or neither, with the same content, pages
/// and (no) tables, and paragraph by paragraph the same text, role,
/// regions and span length, and the same span for every paragraph whose
/// text is not empty. Stated when the document's UTF-16 length fits an
/// `i32`.
pub proof fn lemma_partition_same_document(
    parts: Seq<Seq<PageInput>>,
    chunks: Seq<ChunkResult>,
    whole: ChunkResult,
    d1: Option<Document>,
    d2: Option<Document>,
)
    requires
        parts.len() == chunks.len(),
        forall|i: int| 0 <= i < chunks.len() ==> chunk_of(#[trigger] parts[i], chunks[i]),
        chunk_of(flatten_pages(parts), whole),
        document_of(chunks, d1),
        document_of(seq![whole], d2),
        utf16_len(doc_content(chunks)) <= i32::MAX,
    ensures
        d1 is Some <==> d2 is Some,
        d1 matches Some(a) ==> d2 matches Some(b) && {
            &&& a.content@ == b.content@
            &&& a.pages@ == b.pages@
            &&& a.tables@.len() == 0
            &&& b.tables@.len() == 0
            &&& a.paragraphs@.len() == b.paragraphs@.len()
            &&& forall|y: int|
                0 <= y < a.paragraphs@.len() ==> same_paragraph(
                    #[trigger] a.paragraphs@[y],
                    b.paragraphs@[y],
                )
        },
{
    let f = flatten_pages(parts);
    let w = seq![whole];
    assert(w[0] == whole);
    assert(w.drop_last() =~= Seq::<ChunkResult>::empty());
    if exists|k: int| 0 <= k < chunks.len() && (#[trigger] chunks[k]).has_text {
        let k = choose|k: int| 0 <= k < chunks.len() && (#[trigger] chunks[k]).has_text;
        assert(chunk_of(parts[k], chunks[k]));
        let jp = choose|jp: int| 0 <= jp < parts[k].len() && page_has_text(#[trigger] parts[k][jp]);
        lemma_flatten_member(parts, k, jp);
        let ip = choose|ip: int| 0 <= ip < f.len() && #[trigger] f[ip] == parts[k][jp];
        assert(page_has_text(f[ip]));
    }
    if whole.has_text {
        let ip = choose|ip: int| 0 <= ip < f.len() && page_has_text(#[trigger] f[ip]);
        lemma_flatten_origin(parts, ip);
        let (k, jp) = choose|k: int, jp: int|
            0 <= k < parts.len() && 0 <= jp < parts[k].len() && #[trigger] parts[k][jp] == f[ip];
        assert(chunk_of(parts[k], chunks[k]));
        assert(page_has_text(parts[k][jp]));
        assert(chunks[k].has_text);
    }
    if let Some(a) = d1 {
        let b = d2.unwrap();
        lemma_doc_sources(parts, chunks);
        lemma_chunk_sources(f, whole.paragraphs@);
        assert(w.last() == whole);
        assert(whole.has_text);
        assert(doc_content(w.drop_last()) == Seq::<char>::empty());
        assert(doc_pages(w.drop_last()) == Seq::<Page>::empty());
        assert(place_text(Seq::<char>::empty(), whole.content@) =~= whole.content@);
        assert(doc_content(w) == whole.content@);
        assert(b.content@ == whole.content@);
        lemma_document_pages(parts, chunks);
        assert(doc_pages(w) =~= whole.pages@);
        lemma_paragraph_count(chunks, a.paragraphs@);
        lemma_paragraph_count(w, b.paragraphs@);
        assert(paragraphs_before(w, 0) == 0);
        assert forall|y: int| 0 <= y < a.paragraphs@.len() implies same_paragraph(
            #[trigger] a.paragraphs@[y],
            b.paragraphs@[y],
        ) by {
            lemma_paragraph_origin(chunks, y);
            let (k, j) = choose|k: int, j: int| #[trigger] comes_from(chunks, y, k, j);
            lemma_partition_paragraph(parts, chunks, whole, a.paragraphs@, b.paragraphs@, k, j);
        }
    }
}

} // verus!
