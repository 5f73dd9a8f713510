//! What the paragraphs of a page promise about their roles and their
//! bounding boxes, stated over the lines they are made of.
use vstd::prelude::*;
use crate::laws::{lemma_paragraphs_split_lines, split_at_breaks};
use crate::paragraphs::{group_polygon, option_text, role_of, group_max_x, group_max_y, group_min_x, group_min_y, group_texts, median_font_size, paragraph_from, paragraph_groups, paragraphs_of, is_page_number_text};
use crate::content::{offset_after_all, place_all};
use crate::reading_order::{chars_text, LineView};
use crate::text::trim;
use crate::types::Paragraph;

verus! {

/// A line sits near the bottom of the page (below 8% of its height) and
/// its trimmed text is a page number (at most six characters, digits after
/// an optional `+`, as `u32` parsing accepts).
pub open spec fn looks_like_page_number(l: LineView, page_height: i64) -> bool {
    25 * l.y < 2 * page_height && is_page_number_text(trim(chars_text(l.chars)))
}

/// Roles by position, page numbers first: a paragraph whose first line is
/// a page number near the bottom of the page (below 8% of its height) is a
/// `pageNumber`, whatever else holds; otherwise one starting above 92% of
/// the height is a `pageHeader`, and otherwise one starting below 5% is a
/// `pageFooter`. Only a page-number line gets `pageNumber`.
pub proof fn lemma_positional_roles(
    lines: Seq<LineView>,
    page_number: i32,
    page_height: i64,
    content: Seq<char>,
    offset: int,
    paras: Seq<Paragraph>,
)
    requires
        paragraphs_of(lines, page_number, page_height, content, offset, paras),
    ensures
        forall|k: int|
            0 <= k < paras.len() ==> {
                let l = paragraph_groups(lines, lines.len() as int)[k][0];
                let r = (#[trigger] paras[k]).role;
                &&& looks_like_page_number(l, page_height) ==> (r matches Some(s) && s@ == "pageNumber"@)
                &&& (!looks_like_page_number(l, page_height) && 25 * l.y > 23 * page_height) ==> (
                r matches Some(s) && s@ == "pageHeader"@)
                &&& (!looks_like_page_number(l, page_height) && 25 * l.y <= 23 * page_height && 20
                    * l.y < page_height) ==> (r matches Some(s) && s@ == "pageFooter"@)
                &&& (r matches Some(s) && s@ == "pageNumber"@) ==> looks_like_page_number(
                    l,
                    page_height,
                )
            },
{
    reveal_strlit("pageNumber");
    reveal_strlit("pageHeader");
    reveal_strlit("pageFooter");
    reveal_strlit("title");
    reveal_strlit("sectionHeading");
    let g = paragraph_groups(lines, lines.len() as int);
    let texts = group_texts(g);
    assert forall|k: int| 0 <= k < paras.len() implies {
        let l = g[k][0];
        let r = (#[trigger] paras[k]).role;
        &&& looks_like_page_number(l, page_height) ==> (r matches Some(s) && s@ == "pageNumber"@)
        &&& (!looks_like_page_number(l, page_height) && 25 * l.y > 23 * page_height) ==> (
        r matches Some(s) && s@ == "pageHeader"@)
        &&& (!looks_like_page_number(l, page_height) && 25 * l.y <= 23 * page_height && 20 * l.y
            < page_height) ==> (r matches Some(s) && s@ == "pageFooter"@)
        &&& (r matches Some(s) && s@ == "pageNumber"@) ==> looks_like_page_number(l, page_height)
    } by {
        assert(paragraph_from(
            paras[k],
            g[k],
            page_number,
            page_height,
            median_font_size(lines),
            place_all(content, texts.take(k)),
            offset_after_all(content, offset, texts.take(k)),
        ));
        let l = g[k][0];
        let ro = role_of(l, page_height, median_font_size(lines));
        assert(option_text(paras[k].role, ro));
        assert(looks_like_page_number(l, page_height) ==> ro == Some("pageNumber"@));
        reveal_strlit("pageNumber");
        reveal_strlit("pageHeader");
        reveal_strlit("pageFooter");
        reveal_strlit("title");
        reveal_strlit("sectionHeading");
        assert("pageNumber"@[4] != "pageHeader"@[4]);
        assert("pageNumber"@[4] != "pageFooter"@[4]);
        assert("pageNumber"@.len() != "title"@.len());
        assert("pageNumber"@.len() != "sectionHeading"@.len());
    }
}

proof fn lemma_group_extent(g: Seq<LineView>)
    requires
        g.len() > 0,
    ensures
        forall|i: int|
            0 <= i < g.len() ==> group_min_x(g) <= (#[trigger] g[i]).min_x && g[i].max_x
                <= group_max_x(g) && group_min_y(g) <= g[i].y && g[i].y + g[i].font_size
                <= group_max_y(g),
        exists|i: int| 0 <= i < g.len() && group_min_x(g) == (#[trigger] g[i]).min_x,
        exists|i: int| 0 <= i < g.len() && group_max_x(g) == (#[trigger] g[i]).max_x,
        exists|i: int| 0 <= i < g.len() && group_min_y(g) == (#[trigger] g[i]).y,
        exists|i: int| 0 <= i < g.len() && group_max_y(g) == (#[trigger] g[i]).y + g[i].font_size,
    decreases g.len(),
{
    if g.len() == 1 {
        assert(0 <= 0 < g.len() && group_min_x(g) == g[0].min_x);
        assert(0 <= 0 < g.len() && group_max_x(g) == g[0].max_x);
        assert(0 <= 0 < g.len() && group_min_y(g) == g[0].y);
        assert(0 <= 0 < g.len() && group_max_y(g) == g[0].y + g[0].font_size);
    } else {
        let b = g.drop_last();
        lemma_group_extent(b);
        let n = g.len() - 1;
        assert(g[n] == g.last());
        assert forall|i: int| 0 <= i < g.len() implies group_min_x(g) <= (#[trigger] g[i]).min_x
            && g[i].max_x <= group_max_x(g) && group_min_y(g) <= g[i].y && g[i].y + g[i].font_size
            <= group_max_y(g) by {
            if i < n {
                assert(b[i] == g[i]);
            }
        }
        let i1 = choose|i: int| 0 <= i < b.len() && group_min_x(b) == (#[trigger] b[i]).min_x;
        let i2 = choose|i: int| 0 <= i < b.len() && group_max_x(b) == (#[trigger] b[i]).max_x;
        let i3 = choose|i: int| 0 <= i < b.len() && group_min_y(b) == (#[trigger] b[i]).y;
        let i4 = choose|i: int| 0 <= i < b.len() && group_max_y(b) == (#[trigger] b[i]).y + b[i].font_size;
        assert(b[i1] == g[i1]);
        assert(b[i2] == g[i2]);
        assert(b[i3] == g[i3]);
        assert(b[i4] == g[i4]);
        if group_min_x(g) == g[n].min_x {
            assert(0 <= n < g.len() && group_min_x(g) == g[n].min_x);
        } else {
            assert(0 <= i1 < g.len() && group_min_x(g) == g[i1].min_x);
        }
        if group_max_x(g) == g[n].max_x {
            assert(0 <= n < g.len() && group_max_x(g) == g[n].max_x);
        } else {
            assert(0 <= i2 < g.len() && group_max_x(g) == g[i2].max_x);
        }
        if group_min_y(g) == g[n].y {
            assert(0 <= n < g.len() && group_min_y(g) == g[n].y);
        } else {
            assert(0 <= i3 < g.len() && group_min_y(g) == g[i3].y);
        }
        if group_max_y(g) == g[n].y + g[n].font_size {
            assert(0 <= n < g.len() && group_max_y(g) == g[n].y + g[n].font_size);
        } else {
            assert(0 <= i4 < g.len() && group_max_y(g) == g[i4].y + g[i4].font_size);
        }
    }
}

/// The four corners of a box: left, bottom, right, top.
pub open spec fn is_box(poly: Seq<i64>) -> bool {
    &&& poly.len() == 8
    &&& poly[6] == poly[0]
    &&& poly[3] == poly[1]
    &&& poly[4] == poly[2]
    &&& poly[7] == poly[5]
}

/// The box of a non-empty group holds its lines, and each edge is reached.
pub open spec fn box_holds(g: Seq<LineView>, poly: Seq<i64>) -> bool {
    &&& g.len() > 0
    &&& is_box(poly)
    &&& forall|i: int|
        0 <= i < g.len() ==> poly[0] <= (#[trigger] g[i]).min_x && g[i].max_x <= poly[2] && poly[1]
            <= g[i].y && g[i].y + g[i].font_size <= poly[5]
    &&& exists|i: int| 0 <= i < g.len() && poly[0] == (#[trigger] g[i]).min_x
    &&& exists|i: int| 0 <= i < g.len() && poly[2] == (#[trigger] g[i]).max_x
    &&& exists|i: int| 0 <= i < g.len() && poly[1] == (#[trigger] g[i]).y
    &&& exists|i: int| 0 <= i < g.len() && poly[5] == (#[trigger] g[i]).y + g[i].font_size
}

proof fn lemma_group_box(g: Seq<LineView>)
    requires
        g.len() > 0,
    ensures
        box_holds(g, group_polygon(g)),
{
    lemma_group_extent(g);
    let poly = group_polygon(g);
    let i1 = choose|i: int| 0 <= i < g.len() && group_min_x(g) == (#[trigger] g[i]).min_x;
    let i2 = choose|i: int| 0 <= i < g.len() && group_max_x(g) == (#[trigger] g[i]).max_x;
    let i3 = choose|i: int| 0 <= i < g.len() && group_min_y(g) == (#[trigger] g[i]).y;
    let i4 = choose|i: int| 0 <= i < g.len() && group_max_y(g) == (#[trigger] g[i]).y + g[i].font_size;
    assert(poly[0] == g[i1].min_x);
    assert(poly[2] == g[i2].max_x);
    assert(poly[1] == g[i3].y);
    assert(poly[5] == g[i4].y + g[i4].font_size);
}

/// Each paragraph's bounding polygon is the smallest box holding all its
/// lines: every line starts at or right of its left edge, ends at or left
/// of its right edge, and lies between its bottom (baselines) and its top
/// (baseline plus font size); each edge is reached by some line.
pub proof fn lemma_paragraph_box_holds_lines(
    lines: Seq<LineView>,
    page_number: i32,
    page_height: i64,
    content: Seq<char>,
    offset: int,
    paras: Seq<Paragraph>,
)
    requires
        paragraphs_of(lines, page_number, page_height, content, offset, paras),
    ensures
        forall|k: int|
            0 <= k < paras.len() ==> box_holds(
                paragraph_groups(lines, lines.len() as int)[k],
                (#[trigger] paras[k]).bounding_regions@[0].polygon@,
            ),
{
    let gs = paragraph_groups(lines, lines.len() as int);
    let texts = group_texts(gs);
    lemma_paragraphs_split_lines(lines);
    assert(split_at_breaks(gs));
    assert forall|k: int| 0 <= k < paras.len() implies box_holds(
        gs[k],
        (#[trigger] paras[k]).bounding_regions@[0].polygon@,
    ) by {
        assert(paragraph_from(
            paras[k],
            gs[k],
            page_number,
            page_height,
            median_font_size(lines),
            place_all(content, texts.take(k)),
            offset_after_all(content, offset, texts.take(k)),
        ));
        assert(gs[k].len() > 0);
        lemma_group_box(gs[k]);
    }
}

} // verus!
