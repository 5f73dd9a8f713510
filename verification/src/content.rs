//! How texts are appended to the document content, and where their spans
//! land: a text goes after the content, separated by a newline when both
//! are non-empty, and its span starts after that newline.
use vstd::prelude::*;
use crate::text::{utf16_len, utf16_units, lemma_utf16_concat, lemma_utf16_len_units, lemma_utf16_single};

verus! {

/// A newline goes between the content and the appended text.
pub open spec fn needs_separator(content: Seq<char>, text: Seq<char>) -> bool {
    content.len() > 0 && text.len() > 0
}

/// The content after appending `text`.
pub open spec fn place_text(content: Seq<char>, text: Seq<char>) -> Seq<char> {
    if needs_separator(content, text) {
        content.push('\n') + text
    } else {
        content + text
    }
}

/// Offset at which the appended text starts, given the running offset.
pub open spec fn placed_at(content: Seq<char>, offset: int, text: Seq<char>) -> int {
    if needs_separator(content, text) {
        offset + 1
    } else {
        offset
    }
}

/// Running offset after appending `text`.
pub open spec fn offset_after(content: Seq<char>, offset: int, text: Seq<char>) -> int {
    placed_at(content, offset, text) + utf16_len(text)
}

/// The content after appending each of `texts` in turn.
pub open spec fn place_all(content: Seq<char>, texts: Seq<Seq<char>>) -> Seq<char>
    decreases texts.len(),
{
    if texts.len() == 0 {
        content
    } else {
        place_text(place_all(content, texts.drop_last()), texts.last())
    }
}

/// The running offset after appending each of `texts` in turn.
pub open spec fn offset_after_all(content: Seq<char>, offset: int, texts: Seq<Seq<char>>) -> int
    decreases texts.len(),
{
    if texts.len() == 0 {
        offset
    } else {
        offset_after(
            place_all(content, texts.drop_last()),
            offset_after_all(content, offset, texts.drop_last()),
            texts.last(),
        )
    }
}

/// Where the `k`-th of `texts` starts.
pub open spec fn start_of(content: Seq<char>, offset: int, texts: Seq<Seq<char>>, k: int) -> int {
    placed_at(
        place_all(content, texts.take(k)),
        offset_after_all(content, offset, texts.take(k)),
        texts[k],
    )
}

/// The UTF-16 units of `content` from `start` for the length of `text`
/// are exactly those of `text`: a span at `start` selects `text`.
pub open spec fn locates(content: Seq<char>, start: int, text: Seq<char>) -> bool {
    let u = utf16_units(content);
    &&& 0 <= start
    &&& start + utf16_len(text) <= u.len()
    &&& u.subrange(start, start + utf16_len(text)) == utf16_units(text)
}

pub proof fn lemma_offset_monotone(content: Seq<char>, offset: int, texts: Seq<Seq<char>>, k: int)
    requires
        0 <= k <= texts.len(),
    ensures
        offset <= offset_after_all(content, offset, texts.take(k)) <= offset_after_all(
            content,
            offset,
            texts,
        ),
        k < texts.len() ==> offset_after_all(content, offset, texts.take(k)) <= start_of(
            content,
            offset,
            texts,
            k,
        ) && start_of(content, offset, texts, k) + utf16_len(texts[k]) <= offset_after_all(
            content,
            offset,
            texts,
        ),
    decreases texts.len(),
{
    if texts.len() > 0 {
        if k == texts.len() {
            assert(texts.take(k) =~= texts);
            lemma_offset_monotone(content, offset, texts.drop_last(), k - 1);
            assert(texts.drop_last().take(k - 1) =~= texts.drop_last());
        } else {
            lemma_offset_monotone(content, offset, texts.drop_last(), k);
            assert(texts.drop_last().take(k) =~= texts.take(k));
            if k == texts.len() - 1 {
                assert(texts.take(k) =~= texts.drop_last());
            } else {
                assert(texts.drop_last()[k] == texts[k]);
            }
        }
    } else {
        assert(texts.take(k) =~= texts);
    }
}

/// The content only grows: each step keeps what was there.
pub proof fn lemma_place_all_prefix(content: Seq<char>, texts: Seq<Seq<char>>, k: int)
    requires
        0 <= k <= texts.len(),
    ensures
        place_all(content, texts.take(k)).len() <= place_all(content, texts).len(),
        place_all(content, texts) == place_all(content, texts.take(k)) + place_all(
            content,
            texts,
        ).skip(place_all(content, texts.take(k)).len() as int),
    decreases texts.len(),
{
    if k == texts.len() {
        assert(texts.take(k) =~= texts);
        assert(place_all(content, texts).skip(place_all(content, texts).len() as int) =~= Seq::<
            char,
        >::empty());
        assert(place_all(content, texts) =~= place_all(content, texts) + Seq::<char>::empty());
    } else {
        lemma_place_all_prefix(content, texts.drop_last(), k);
        assert(texts.drop_last().take(k) =~= texts.take(k));
        let a = place_all(content, texts.take(k));
        let b = place_all(content, texts.drop_last());
        let c = place_all(content, texts);
        assert(c.len() >= b.len());
        assert(c =~= b + c.skip(b.len() as int));
        assert(c =~= a + c.skip(a.len() as int));
    }
}

/// With the running offset counting the UTF-16 units of the content,
/// it keeps doing so, and each text's start is where it lands.
pub proof fn lemma_offsets_consistent(content: Seq<char>, offset: int, texts: Seq<Seq<char>>)
    requires
        offset == utf16_len(content),
    ensures
        offset_after_all(content, offset, texts) == utf16_len(place_all(content, texts)),
        forall|k: int|
            0 <= k < texts.len() ==> locates(
                place_all(content, texts),
                #[trigger] start_of(content, offset, texts, k),
                texts[k],
            ),
    decreases texts.len(),
{
    if texts.len() > 0 {
        let pre = texts.drop_last();
        lemma_offsets_consistent(content, offset, pre);
        let c0 = place_all(content, pre);
        let o0 = offset_after_all(content, offset, pre);
        let t = texts.last();
        let c1 = place_all(content, texts);
        if needs_separator(c0, t) {
            lemma_utf16_concat(c0.push('\n'), t);
            lemma_utf16_concat(c0, seq!['\n']);
            assert(c0.push('\n') =~= c0 + seq!['\n']);
            lemma_utf16_single('\n');
        } else {
            lemma_utf16_concat(c0, t);
        }
        assert forall|k: int| 0 <= k < texts.len() implies locates(
            c1,
            #[trigger] start_of(content, offset, texts, k),
            texts[k],
        ) by {
            if k == texts.len() - 1 {
                assert(texts.take(k) =~= pre);
                let s = start_of(content, offset, texts, k);
                let base = if needs_separator(c0, t) {
                    c0.push('\n')
                } else {
                    c0
                };
                assert(c1 =~= base + t);
                lemma_utf16_concat(base, t);
                lemma_utf16_len_units(base);
                lemma_utf16_len_units(t);
                if needs_separator(c0, t) {
                    assert(base =~= c0 + seq!['\n']);
                    lemma_utf16_concat(c0, seq!['\n']);
                    lemma_utf16_single('\n');
                }
                assert(s == utf16_len(base));
                assert(utf16_units(c1).subrange(s, s + utf16_len(t)) =~= utf16_units(t));
            } else {
                assert(texts.take(k) =~= pre.take(k));
                assert(pre[k] == texts[k]);
                assert(start_of(content, offset, texts, k) == start_of(content, offset, pre, k));
                assert(locates(c0, start_of(content, offset, pre, k), pre[k]));
                let base = if needs_separator(c0, t) {
                    c0.push('\n')
                } else {
                    c0
                };
                let rest = if needs_separator(c0, t) {
                    seq!['\n'] + t
                } else {
                    t
                };
                assert(c1 =~= c0 + rest);
                lemma_utf16_concat(c0, rest);
                let s = start_of(content, offset, texts, k);
                let u0 = utf16_units(c0);
                assert(utf16_units(c1).subrange(s, s + utf16_len(pre[k])) =~= u0.subrange(
                    s,
                    s + utf16_len(pre[k]),
                ));
                lemma_utf16_len_units(c0);
                lemma_utf16_len_units(c1);
            }
        }
    }
}

} // verus!
