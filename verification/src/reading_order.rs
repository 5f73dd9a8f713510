//! Reading order: characters sorted top-to-bottom, left-to-right, and
//! grouped into lines by vertical proximity.
use vstd::prelude::*;
use crate::sort::{is_stable_order, permute, stable_order, stable_order_of};
use crate::text::push_char;

verus! {

/// Character with position data extracted from a PDF page
/// (fixed-point units, PDF coordinates: y grows upwards).
#[derive(Debug)]
pub struct PositionedChar {
    pub ch: char,
    pub x: i32,
    pub y: i32,
    pub width: i32,
    pub height: i32,
    pub font_size: i32,
    pub font_name: String,
    pub page_number: i32,
}

impl Clone for PositionedChar {
    fn clone(&self) -> (r: Self)
        ensures
            r == *self,
    {
        PositionedChar {
            ch: self.ch,
            x: self.x,
            y: self.y,
            width: self.width,
            height: self.height,
            font_size: self.font_size,
            font_name: self.font_name.clone(),
            page_number: self.page_number,
        }
    }
}

/// A line of text grouped from characters by Y proximity.
#[derive(Debug)]
pub struct TextLine {
    pub chars: Vec<PositionedChar>,
    pub y: i32,
    pub min_x: i32,
    pub max_x: i64,
    pub font_size: i32,
}

/// What a line holds, as a value.
pub struct LineView {
    pub chars: Seq<PositionedChar>,
    pub y: i32,
    pub min_x: i32,
    pub max_x: i64,
    pub font_size: i32,
}

impl View for TextLine {
    type V = LineView;

    open spec fn view(&self) -> LineView {
        LineView {
            chars: self.chars@,
            y: self.y,
            min_x: self.min_x,
            max_x: self.max_x,
            font_size: self.font_size,
        }
    }
}

/// The characters of a sequence, without positions.
pub open spec fn chars_text(cs: Seq<PositionedChar>) -> Seq<char> {
    cs.map_values(|c: PositionedChar| c.ch)
}

impl TextLine {
    /// The line's characters concatenated, with no separators.
    pub fn text(&self) -> (s: String)
        ensures
            s@ == chars_text(self.chars@),
    {
        let mut s = String::new();
        let mut i: usize = 0;
        while i < self.chars.len()
            invariant
                0 <= i <= self.chars@.len(),
                s@ == chars_text(self.chars@.take(i as int)),
            decreases self.chars@.len() - i,
        {
            push_char(&mut s, self.chars[i].ch);
            assert(chars_text(self.chars@.take(i + 1)) =~= chars_text(self.chars@.take(i as int)).push(
                self.chars@[i as int].ch,
            ));
            i = i + 1;
        }
        assert(self.chars@.take(i as int) =~= self.chars@);
        s
    }
}

/// Sort key for reading order: higher y first, then smaller x.
pub open spec fn reading_key(c: PositionedChar) -> (i64, i64) {
    ((0 - c.y) as i64, c.x as i64)
}

/// Sort key for order within a line: smaller x first.
pub open spec fn x_key(c: PositionedChar) -> (i64, i64) {
    (c.x as i64, 0i64)
}

pub open spec fn reading_keys(cs: Seq<PositionedChar>) -> Seq<(i64, i64)> {
    cs.map_values(|c: PositionedChar| reading_key(c))
}

pub open spec fn x_keys(cs: Seq<PositionedChar>) -> Seq<(i64, i64)> {
    cs.map_values(|c: PositionedChar| x_key(c))
}

/// The characters in reading order (a stable sort by `reading_key`).
pub open spec fn in_reading_order(cs: Seq<PositionedChar>) -> Seq<PositionedChar> {
    permute(cs, stable_order_of(reading_keys(cs)))
}

/// The characters left to right (a stable sort by `x_key`).
pub open spec fn left_to_right(cs: Seq<PositionedChar>) -> Seq<PositionedChar> {
    permute(cs, stable_order_of(x_keys(cs)))
}

/// `c` belongs to the line whose first character is `head`: their y
/// values differ by at most half the head's font size.
pub open spec fn on_same_line(head: PositionedChar, c: PositionedChar) -> bool {
    let d = c.y - head.y;
    let ad = if d < 0 {
        -d
    } else {
        d
    };
    2 * ad <= head.font_size
}

/// The lines formed by the first `n` characters of a reading-ordered
/// sequence: a character joins the current line when it is on the same
/// line as that line's first character, else it starts a new line.
pub open spec fn line_groups(s: Seq<PositionedChar>, n: int) -> Seq<Seq<PositionedChar>>
    decreases n,
{
    if n <= 0 {
        Seq::empty()
    } else if n == 1 {
        seq![seq![s[0]]]
    } else {
        let g = line_groups(s, n - 1);
        let cur = g.last();
        if on_same_line(cur[0], s[n - 1]) {
            g.update(g.len() - 1, cur.push(s[n - 1]))
        } else {
            g.push(seq![s[n - 1]])
        }
    }
}

/// The line built from the characters `group`: sorted left to right,
/// with y, left edge and font size from its first character and right
/// edge from its last.
pub open spec fn line_model(group: Seq<PositionedChar>) -> LineView {
    let s = left_to_right(group);
    if s.len() > 0 {
        LineView {
            chars: s,
            y: s[0].y,
            min_x: s[0].x,
            max_x: (s.last().x + s.last().width) as i64,
            font_size: s[0].font_size,
        }
    } else {
        LineView { chars: s, y: 0, min_x: 0, max_x: 0, font_size: 0 }
    }
}

/// The lines that `group_into_lines` forms from `chars`.
pub open spec fn lines_model(chars: Seq<PositionedChar>) -> Seq<LineView> {
    let s = in_reading_order(chars);
    line_groups(s, s.len() as int).map_values(|g: Seq<PositionedChar>| line_model(g))
}

/// The views of a sequence of lines.
pub open spec fn line_views(lines: Seq<TextLine>) -> Seq<LineView> {
    lines.map_values(|l: TextLine| l@)
}

/// The items of `v` in the order `p`, cloned.
fn arrange(v: &Vec<PositionedChar>, p: &Vec<usize>) -> (r: Vec<PositionedChar>)
    requires
        forall|i: int| 0 <= i < p@.len() ==> #[trigger] p@[i] < v@.len(),
    ensures
        r@ == permute(v@, p@),
{
    let mut r: Vec<PositionedChar> = Vec::new();
    let mut i: usize = 0;
    while i < p.len()
        invariant
            0 <= i <= p@.len(),
            forall|j: int| 0 <= j < p@.len() ==> #[trigger] p@[j] < v@.len(),
            r@ =~= permute(v@, p@.take(i as int)),
        decreases p@.len() - i,
    {
        assert(p@[i as int] < v@.len());
        r.push(v[p[i]].clone());
        assert(p@.take(i + 1) =~= p@.take(i as int).push(p@[i as int]));
        i = i + 1;
    }
    assert(p@.take(i as int) =~= p@);
    r
}

/// Characters stably sorted by `key` (reading order when `reading` holds,
/// left to right otherwise).
fn sort_chars(chars: &Vec<PositionedChar>, reading: bool) -> (r: Vec<PositionedChar>)
    ensures
        r@.len() == chars@.len(),
        reading ==> r@ == in_reading_order(chars@),
        !reading ==> r@ == left_to_right(chars@),
{
    let mut keys: Vec<(i64, i64)> = Vec::new();
    let mut i: usize = 0;
    let ghost ks = if reading {
        reading_keys(chars@)
    } else {
        x_keys(chars@)
    };
    while i < chars.len()
        invariant
            0 <= i <= chars@.len(),
            ks == (if reading {
                reading_keys(chars@)
            } else {
                x_keys(chars@)
            }),
            keys@ =~= ks.take(i as int),
        decreases chars@.len() - i,
    {
        let c = &chars[i];
        if reading {
            keys.push((0 - c.y as i64, c.x as i64));
        } else {
            keys.push((c.x as i64, 0));
        }
        i = i + 1;
    }
    assert(keys@ =~= ks);
    let order = stable_order(&keys);
    assert(is_stable_order(keys@, order@));
    arrange(chars, &order)
}

/// Builds a line from its characters: sorted left to right, with the
/// line's y, x extent and font size taken from its end characters.
fn build_line(chars: Vec<PositionedChar>) -> (line: TextLine)
    ensures
        line@ == line_model(chars@),
{
    let sorted = sort_chars(&chars, false);
    let n = sorted.len();
    if n == 0 {
        return TextLine { chars: sorted, y: 0, min_x: 0, max_x: 0, font_size: 0 };
    }
    let y = sorted[0].y;
    let min_x = sorted[0].x;
    let max_x = sorted[n - 1].x as i64 + sorted[n - 1].width as i64;
    let font_size = sorted[0].font_size;
    TextLine { chars: sorted, y, min_x, max_x, font_size }
}

fn same_line(head_y: i32, head_font_size: i32, y: i32) -> (b: bool)
    ensures
        b == ({
            let d = y - head_y;
            let ad = if d < 0 {
                -d
            } else {
                d
            };
            2 * ad <= head_font_size
        }),
{
    let d = y as i64 - head_y as i64;
    let ad = if d < 0 {
        -d
    } else {
        d
    };
    2 * ad <= head_font_size as i64
}

/// Sort characters into reading order (top-to-bottom, left-to-right)
/// and group them into lines based on Y-coordinate proximity.
pub fn group_into_lines(chars: Vec<PositionedChar>) -> (lines: Vec<TextLine>)
    ensures
        line_views(lines@) == lines_model(chars@),
{
    let sorted = sort_chars(&chars, true);
    let ghost s = in_reading_order(chars@);
    let n = sorted.len();
    let mut lines: Vec<TextLine> = Vec::new();
    if n == 0 {
        return lines;
    }
    let mut current: Vec<PositionedChar> = Vec::new();
    current.push(sorted[0].clone());
    let mut current_y = sorted[0].y;
    let mut current_font_size = sorted[0].font_size;
    let mut i: usize = 1;
    assert(current@ =~= seq![s[0]]);
    while i < n
        invariant
            sorted@ == s,
            n == s.len(),
            1 <= i <= n,
            lines@.len() + 1 == line_groups(s, i as int).len(),
            forall|k: int|
                0 <= k < lines@.len() ==> #[trigger] lines@[k]@ == line_model(
                    line_groups(s, i as int)[k],
                ),
            current@ == line_groups(s, i as int).last(),
            current@.len() > 0,
            current_y == current@[0].y,
            current_font_size == current@[0].font_size,
        decreases n - i,
    {
        let ch = sorted[i].clone();
        let ghost g = line_groups(s, i as int);
        if same_line(current_y, current_font_size, ch.y) {
            current.push(ch);
            proof {
                assert(line_groups(s, i + 1) == g.update(g.len() - 1, g.last().push(s[i as int])));
            }
        } else {
            let mut finished: Vec<PositionedChar> = Vec::new();
            std::mem::swap(&mut finished, &mut current);
            let line = build_line(finished);
            lines.push(line);
            current_y = ch.y;
            current_font_size = ch.font_size;
            current.push(ch);
            proof {
                assert(line_groups(s, i + 1) == g.push(seq![s[i as int]]));
                assert(current@ =~= seq![s[i as int]]);
            }
        }
        i = i + 1;
    }
    let line = build_line(current);
    lines.push(line);
    assert(line_views(lines@) =~= lines_model(chars@));
    lines
}

} // verus!
