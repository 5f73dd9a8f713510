//! Size bounds: how far the UTF-16 offset of a chunk can grow, in terms of
//! the number of characters the PDF reader reported.
use vstd::prelude::*;
use crate::chunk::{chunk_content, chunk_offset, page_chars, page_has_text, page_lines, page_texts, positioned_all, PageInput, RawChar};
use crate::content::{offset_after_all};
use crate::paragraphs::{group_texts, joined_lines, line_text, paragraph_groups, spaced_text, paragraph_break};
use crate::reading_order::{in_reading_order, line_groups, line_model, lines_model, on_same_line, reading_keys, x_keys, LineView, PositionedChar};
use crate::sort::{lemma_stable_order};
use crate::text::{first_non_ws, last_non_ws_end, trim, lemma_first_non_ws, lemma_last_non_ws_end, lemma_utf16_len_bounds};

verus! {

/// Number of characters the reader reported for the given pages.
pub open spec fn raw_total(pages: Seq<PageInput>) -> nat
    decreases pages.len(),
{
    if pages.len() == 0 {
        0
    } else {
        raw_total(pages.drop_last()) + match pages.last().chars {
            Some(v) => v@.len(),
            None => 0,
        }
    }
}

/// Total length of a sequence of groups.
pub open spec fn total_len<T>(g: Seq<Seq<T>>) -> nat
    decreases g.len(),
{
    if g.len() == 0 {
        0
    } else {
        total_len(g.drop_last()) + g.last().len()
    }
}

/// Characters of a line, twice, plus one: bounds the line's text and the
/// newline after it.
pub open spec fn line_budget(lines: Seq<LineView>) -> nat
    decreases lines.len(),
{
    if lines.len() == 0 {
        0
    } else {
        line_budget(lines.drop_last()) + 2 * lines.last().chars.len() + 1
    }
}

/// The line budgets of groups of lines, added up.
pub open spec fn groups_budget(g: Seq<Seq<LineView>>) -> nat
    decreases g.len(),
{
    if g.len() == 0 {
        0
    } else {
        groups_budget(g.drop_last()) + line_budget(g.last())
    }
}

/// Twice each text's length plus one, added up: bounds the offset growth.
pub open spec fn texts_cost(texts: Seq<Seq<char>>) -> nat
    decreases texts.len(),
{
    if texts.len() == 0 {
        0
    } else {
        texts_cost(texts.drop_last()) + 2 * texts.last().len() + 1
    }
}

proof fn lemma_spaced_text_len(cs: Seq<PositionedChar>, n: int)
    requires
        0 <= n <= cs.len(),
    ensures
        spaced_text(cs, n).len() <= 2 * n,
    decreases n,
{
    if n > 1 {
        lemma_spaced_text_len(cs, n - 1);
    }
}

proof fn lemma_trim_len(s: Seq<char>)
    ensures
        trim(s).len() <= s.len(),
{
    lemma_first_non_ws(s, 0);
    lemma_last_non_ws_end(s, s.len() as int);
    let a = first_non_ws(s, 0);
    if a < s.len() {
        let b = last_non_ws_end(s, s.len() as int);
        assert(b > a) by {
            if b <= a {
                assert(crate::text::is_ws(s[a]));
            }
        }
    }
}

proof fn lemma_joined_len(g: Seq<LineView>)
    ensures
        joined_lines(g).len() <= line_budget(g),
    decreases g.len(),
{
    if g.len() > 0 {
        lemma_joined_len(g.drop_last());
        let l = g.last();
        lemma_spaced_text_len(l.chars, l.chars.len() as int);
        lemma_trim_len(line_text(l));
    }
}

proof fn lemma_budget_push(lines: Seq<LineView>, l: LineView)
    ensures
        line_budget(lines.push(l)) == line_budget(lines) + 2 * l.chars.len() + 1,
{
    assert(lines.push(l).drop_last() =~= lines);
}

/// Paragraph groups split the lines: their budgets add up to the lines'
/// budget, and there are no more groups than lines.
proof fn lemma_paragraph_groups_budget(lines: Seq<LineView>, n: int)
    requires
        0 <= n <= lines.len(),
    ensures
        groups_budget(paragraph_groups(lines, n)) == line_budget(lines.take(n)),
        paragraph_groups(lines, n).len() <= n,
        n >= 1 ==> paragraph_groups(lines, n).len() >= 1,
    decreases n,
{
    if n == 0 {
        assert(lines.take(0) =~= Seq::<LineView>::empty());
    } else if n == 1 {
        assert(lines.take(1) =~= seq![lines[0]]);
        let g = paragraph_groups(lines, 1);
        assert(g.drop_last() =~= Seq::<Seq<LineView>>::empty());
        assert(seq![lines[0]].drop_last() =~= Seq::<LineView>::empty());
        assert(groups_budget(g) == groups_budget(g.drop_last()) + line_budget(g.last()));
        assert(line_budget(seq![lines[0]]) == line_budget(Seq::<LineView>::empty()) + 2
            * lines[0].chars.len() + 1);
        assert(groups_budget(g) == line_budget(lines.take(n)));
    } else {
        lemma_paragraph_groups_budget(lines, n - 1);
        let g = paragraph_groups(lines, n - 1);
        let l = lines[n - 1];
        assert(lines.take(n) =~= lines.take(n - 1).push(l));
        lemma_budget_push(lines.take(n - 1), l);
        if paragraph_break(lines[n - 2], l) {
            let g1 = g.push(seq![l]);
            assert(g1.drop_last() =~= g);
            assert(seq![l].drop_last() =~= Seq::<LineView>::empty());
            assert(g1 == paragraph_groups(lines, n));
            assert(line_budget(seq![l]) == line_budget(Seq::<LineView>::empty()) + 2 * l.chars.len()
                + 1);
            assert(groups_budget(g1) == groups_budget(g) + line_budget(seq![l]));
            assert(groups_budget(g1) == line_budget(lines.take(n)));
        } else {
            let g1 = g.update(g.len() - 1, g.last().push(l));
            assert(g1.drop_last() =~= g.drop_last());
            assert(g1.last() == g.last().push(l));
            lemma_budget_push(g.last(), l);
            assert(groups_budget(g) == groups_budget(g.drop_last()) + line_budget(g.last()));
            assert(groups_budget(g1) == groups_budget(g1.drop_last()) + line_budget(g1.last()));
            assert(g1 == paragraph_groups(lines, n));
            assert(groups_budget(g1) == line_budget(lines.take(n)));
        }
    }
}

proof fn lemma_texts_cost(g: Seq<Seq<LineView>>)
    ensures
        texts_cost(group_texts(g)) <= 2 * groups_budget(g) + g.len(),
    decreases g.len(),
{
    if g.len() > 0 {
        lemma_texts_cost(g.drop_last());
        assert(group_texts(g).drop_last() =~= group_texts(g.drop_last()));
        lemma_joined_len(g.last());
    }
}

proof fn lemma_offset_growth(c: Seq<char>, o: int, texts: Seq<Seq<char>>)
    ensures
        o <= offset_after_all(c, o, texts) <= o + texts_cost(texts),
    decreases texts.len(),
{
    if texts.len() > 0 {
        lemma_offset_growth(c, o, texts.drop_last());
        lemma_utf16_len_bounds(texts.last());
    }
}

proof fn lemma_line_groups_len(s: Seq<PositionedChar>, n: int)
    requires
        0 <= n <= s.len(),
    ensures
        total_len(line_groups(s, n)) == n,
        line_groups(s, n).len() <= n,
        n >= 1 ==> line_groups(s, n).len() >= 1 && line_groups(s, n).last().len() >= 1,
    decreases n,
{
    if n == 1 {
        let g = line_groups(s, 1);
        assert(g.drop_last() =~= Seq::<Seq<PositionedChar>>::empty());
        assert(total_len(g) == total_len(g.drop_last()) + g.last().len());
    } else if n > 1 {
        lemma_line_groups_len(s, n - 1);
        let g = line_groups(s, n - 1);
        if on_same_line(g.last()[0], s[n - 1]) {
            let g1 = g.update(g.len() - 1, g.last().push(s[n - 1]));
            assert(g1.drop_last() =~= g.drop_last());
            assert(total_len(g) == total_len(g.drop_last()) + g.last().len());
            assert(total_len(g1) == total_len(g1.drop_last()) + g1.last().len());
        } else {
            let g1 = g.push(seq![s[n - 1]]);
            assert(g1.drop_last() =~= g);
            assert(total_len(g1) == total_len(g1.drop_last()) + g1.last().len());
        }
    }
}

/// Characters of the lines, added up.
pub open spec fn chars_total(lines: Seq<LineView>) -> nat
    decreases lines.len(),
{
    if lines.len() == 0 {
        0
    } else {
        chars_total(lines.drop_last()) + lines.last().chars.len()
    }
}

proof fn lemma_line_model_len(g: Seq<PositionedChar>)
    requires
        g.len() <= usize::MAX,
    ensures
        line_model(g).chars.len() == g.len(),
{
    lemma_stable_order(x_keys(g));
}

proof fn lemma_models_chars(groups: Seq<Seq<PositionedChar>>)
    requires
        forall|k: int| 0 <= k < groups.len() ==> (#[trigger] groups[k]).len() <= usize::MAX,
    ensures
        chars_total(groups.map_values(|g: Seq<PositionedChar>| line_model(g))) == total_len(groups),
        line_budget(groups.map_values(|g: Seq<PositionedChar>| line_model(g))) == 2 * total_len(
            groups,
        ) + groups.len(),
    decreases groups.len(),
{
    if groups.len() > 0 {
        let pre = groups.drop_last();
        assert forall|k: int| 0 <= k < pre.len() implies (#[trigger] pre[k]).len() <= usize::MAX by {
            assert(pre[k] == groups[k]);
        }
        lemma_models_chars(pre);
        assert(groups.map_values(|g: Seq<PositionedChar>| line_model(g)).drop_last()
            =~= pre.map_values(|g: Seq<PositionedChar>| line_model(g)));
        assert(groups[groups.len() - 1] == groups.last());
        lemma_line_model_len(groups.last());
    }
}

/// The lines of `chars` hold all of them: as many characters as there
/// are, in no more lines than that.
proof fn lemma_lines_model_size(chars: Seq<PositionedChar>)
    requires
        chars.len() <= usize::MAX,
    ensures
        line_budget(lines_model(chars)) <= 3 * chars.len(),
        lines_model(chars).len() <= chars.len(),
{
    lemma_stable_order(reading_keys(chars));
    let s = in_reading_order(chars);
    assert(s.len() == chars.len());
    let groups = line_groups(s, s.len() as int);
    lemma_line_groups_len(s, s.len() as int);
    assert forall|k: int| 0 <= k < groups.len() implies (#[trigger] groups[k]).len() <= usize::MAX by {
        lemma_group_le_total(groups, k);
    }
    lemma_models_chars(groups);
}

proof fn lemma_group_le_total<T>(g: Seq<Seq<T>>, k: int)
    requires
        0 <= k < g.len(),
    ensures
        g[k].len() <= total_len(g),
    decreases g.len(),
{
    if k < g.len() - 1 {
        lemma_group_le_total(g.drop_last(), k);
    }
}

proof fn lemma_positioned_len(raw: Seq<RawChar>, pn: i32)
    ensures
        positioned_all(raw, pn).len() <= raw.len(),
    decreases raw.len(),
{
    if raw.len() > 0 {
        lemma_positioned_len(raw.drop_last(), pn);
    }
}

/// A page with text advances the offset by at most seven UTF-16 units per
/// reported character.
proof fn lemma_page_growth(p: PageInput, c: Seq<char>, o: int)
    requires
        page_has_text(p),
        p.chars.unwrap()@.len() <= usize::MAX,
    ensures
        offset_after_all(c, o, page_texts(p)) <= o + 7 * p.chars.unwrap()@.len(),
{
    let v = p.chars.unwrap()@;
    let chars = page_chars(p);
    lemma_positioned_len(v, crate::chunk::page_number_of(p));
    lemma_lines_model_size(chars);
    let lines = page_lines(p);
    let g = paragraph_groups(lines, lines.len() as int);
    lemma_paragraph_groups_budget(lines, lines.len() as int);
    assert(lines.take(lines.len() as int) =~= lines);
    lemma_texts_cost(g);
    lemma_offset_growth(c, o, page_texts(p));
}

/// A chunk's offset is at most seven times the number of reported
/// characters.
pub proof fn lemma_chunk_offset_bound(pages: Seq<PageInput>)
    requires
        raw_total(pages) <= usize::MAX,
    ensures
        0 <= chunk_offset(pages) <= 7 * raw_total(pages),
    decreases pages.len(),
{
    if pages.len() > 0 {
        let pre = pages.drop_last();
        lemma_chunk_offset_bound(pre);
        let p = pages.last();
        assert(pages[pages.len() - 1] == p);
        if page_has_text(p) {
            lemma_page_growth(p, chunk_content(pre), chunk_offset(pre));
            lemma_offset_growth(chunk_content(pre), chunk_offset(pre), page_texts(p));
        }
    }
}

} // verus!
