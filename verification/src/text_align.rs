//! Alignment of the text on each line: trimming, keeping the original width,
//! and centering the content of single-cell box lines.
use vstd::prelude::*;
use crate::display_width::{center_chars, center_spec, width_of, width_of_chars};
use crate::error::Error;
use crate::grid::GridMetrics;
use crate::parser::ParsedDiagram;
use crate::text::{
    chars_of, kept_len, kept_length, lead_len, leading_len, lines_view, push_all, push_spaces, trim_end_chars,
    slice_chars, spaces, string_of, trim_chars, trim_end_spec, trim_spec,
};
use crate::utils::{box_drawing_spec, is_box_drawing_char};

verus! {

#[derive(Debug, Clone, Copy, PartialEq, Eq, Structural)]
pub enum Style {
    Minimal,
    Standard,
    Detailed,
}

/// Characters that make up frame-only lines.
pub open spec fn frame_char(c: char) -> bool {
    c == '│' || c == '─' || c == '┌' || c == '┐' || c == '└' || c == '┘' || c == '├' || c == '┤'
        || c == '┬' || c == '┴' || c == '┼' || c == ' '
}

/// A line that holds something besides frame glyphs and spaces.
pub open spec fn is_text_line_spec(l: Seq<char>) -> bool {
    exists|i: int| 0 <= i < l.len() && !frame_char(#[trigger] l[i])
}

pub open spec fn vertical_border(c: char) -> bool {
    c == '│' || c == '║' || c == '|'
}

/// The leading spaces and tabs of a line.
pub open spec fn indent_of(l: Seq<char>) -> Seq<char> {
    l.take(lead_len(l, true) as int)
}

/// A line without its leading spaces and tabs.
pub open spec fn rest_of(l: Seq<char>) -> Seq<char> {
    l.skip(lead_len(l, true) as int)
}

/// What is left of a line once its blank indentation and trailing blanks are removed.
pub open spec fn body_of(l: Seq<char>) -> Seq<char> {
    trim_end_spec(rest_of(l), true)
}

/// A line whose body is a single vertical border glyph. The cell-centering
/// step is not defined on such lines (the slice between the two borders would
/// start after it ends).
pub open spec fn lone_border_line(l: Seq<char>) -> bool {
    body_of(l).len() == 1 && vertical_border(body_of(l)[0])
}

/// The centered form of a line `│   text │` whose only content is text between
/// two vertical borders, or `None` when the line does not have that shape.
pub open spec fn center_cell_spec(l: Seq<char>) -> Option<Seq<char>> {
    let body = body_of(l);
    if body.len() == 0 || !vertical_border(body[0]) || !vertical_border(body.last()) {
        None
    } else {
        let inner = body.subrange(1, body.len() - 1);
        let content = trim_spec(inner);
        if content.len() == 0 {
            None
        } else if exists|i: int|
            0 <= i < inner.len() && (box_drawing_spec(#[trigger] inner[i]) || vertical_border(
                inner[i],
            )) {
            None
        } else if width_of(content) >= width_of(inner) {
            None
        } else {
            let pad = (width_of(inner) - width_of(content)) as nat;
            Some(
                indent_of(l) + seq![body[0]] + spaces(pad / 2) + content + spaces(
                    (pad - pad / 2) as nat,
                ) + seq![body.last()],
            )
        }
    }
}

/// The aligned form of a text line.
pub open spec fn align_line_spec(l: Seq<char>, style: Style) -> Seq<char> {
    if style != Style::Minimal && center_cell_spec(l) is Some {
        center_cell_spec(l)->0
    } else {
        let rest = rest_of(l);
        let trimmed = trim_spec(rest);
        let text_len = width_of(trimmed);
        let rest_width = width_of(rest);
        if trimmed.len() == 0 {
            seq![]
        } else if rest_width <= text_len {
            l
        } else if style == Style::Detailed {
            indent_of(l) + center_spec(trimmed, rest_width)
        } else {
            indent_of(l) + trimmed + spaces((rest_width - text_len) as nat)
        }
    }
}

/// Every text line aligned; frame-only lines are kept.
pub open spec fn align_lines_spec(g: Seq<Seq<char>>, style: Style) -> Seq<Seq<char>> {
    Seq::new(
        g.len(),
        |y: int|
            if is_text_line_spec(g[y]) {
                align_line_spec(g[y], style)
            } else {
                g[y]
            },
    )
}

/// The lines on which alignment in `style` is defined.
pub open spec fn alignable(g: Seq<Seq<char>>, style: Style) -> bool {
    style == Style::Minimal || forall|y: int|
        0 <= y < g.len() && is_text_line_spec(#[trigger] g[y]) ==> !lone_border_line(g[y])
}

fn is_frame_char(c: char) -> (r: bool)
    ensures
        r == frame_char(c),
{
    c == '│' || c == '─' || c == '┌' || c == '┐' || c == '└' || c == '┘' || c == '├' || c == '┤'
        || c == '┬' || c == '┴' || c == '┼' || c == ' '
}

fn is_text_chars(v: &[char]) -> (r: bool)
    ensures
        r == is_text_line_spec(v@),
{
    let mut i: usize = 0;
    while i < v.len()
        invariant
            i <= v@.len(),
            forall|j: int| 0 <= j < i ==> frame_char(#[trigger] v@[j]),
        decreases v@.len() - i,
    {
        if !is_frame_char(v[i]) {
            return true;
        }
        i = i + 1;
    }
    false
}

/// Whether `line` holds anything besides frame glyphs and spaces.
pub fn is_text_line(line: &str) -> (r: bool)
    ensures
        r == is_text_line_spec(line@),
{
    let v = chars_of(line);
    is_text_chars(&v)
}

fn is_vertical_border(c: char) -> (r: bool)
    ensures
        r == vertical_border(c),
{
    c == '│' || c == '║' || c == '|'
}

/// The leading spaces and tabs of `s`, and the rest.
pub fn split_leading_whitespace(s: &str) -> (r: (&str, &str))
    ensures
        r.0@ == indent_of(s@),
        r.1@ == rest_of(s@),
        r.0@ + r.1@ == s@,
{
    let v = chars_of(s);
    let k = leading_len(&v, true);
    proof {
        crate::text::lemma_lead_len(s@, true);
        assert(s@.take(k as int) + s@.skip(k as int) =~= s@);
    }
    (s.substring_char(0, k), s.substring_char(k, v.len()))
}

fn indent_and_rest(v: &[char]) -> (r: (Vec<char>, Vec<char>))
    ensures
        r.0@ == indent_of(v@),
        r.1@ == rest_of(v@),
{
    let k = leading_len(v, true);
    proof {
        crate::text::lemma_lead_len(v@, true);
    }
    (slice_chars(v, 0, k), slice_chars(v, k, v.len()))
}

fn center_cell_chars(v: &[char]) -> (r: Option<Vec<char>>)
    requires
        !lone_border_line(v@),
    ensures
        r matches Some(w) ==> center_cell_spec(v@) == Some(w@),
        r is None ==> center_cell_spec(v@) is None,
{
    let (indent, rest0) = indent_and_rest(v);
    let k = kept_length(&rest0, true);
    proof {
        crate::text::lemma_kept_len(rest0@, true);
    }
    let rest = slice_chars(&rest0, 0, k);
    assert(rest@ == body_of(v@));
    if rest.len() == 0 {
        return None;
    }
    let first_ch = rest[0];
    let last_ch = rest[rest.len() - 1];
    assert(last_ch == body_of(v@).last());
    assert(first_ch == body_of(v@)[0]);
    if !is_vertical_border(first_ch) || !is_vertical_border(last_ch) {
        return None;
    }
    let inner = slice_chars(&rest, 1, rest.len() - 1);
    let content = trim_chars(&inner);
    if content.len() == 0 {
        return None;
    }
    let mut i: usize = 0;
    while i < inner.len()
        invariant
            i <= inner@.len(),
            body_of(v@).len() >= 2,
            inner@ == body_of(v@).subrange(1, body_of(v@).len() - 1),
            forall|j: int|
                0 <= j < i ==> !(box_drawing_spec(#[trigger] inner@[j]) || vertical_border(
                    inner@[j],
                )),
        decreases inner@.len() - i,
    {
        if is_box_drawing_char(inner[i]) || is_vertical_border(inner[i]) {
            assert(box_drawing_spec(inner@[i as int]) || vertical_border(inner@[i as int]));
            return None;
        }
        i = i + 1;
    }
    let inner_width = width_of_chars(&inner);
    let content_width = width_of_chars(&content);
    if content_width >= inner_width {
        return None;
    }
    let padding = inner_width - content_width;
    let left_pad = padding / 2;
    let right_pad = padding - left_pad;
    let mut out = indent;
    out.push(first_ch);
    push_spaces(&mut out, left_pad);
    push_all(&mut out, &content);
    push_spaces(&mut out, right_pad);
    out.push(last_ch);
    proof {
        let pad = (inner_width - content_width) as nat;
        assert(out@ =~= indent_of(v@) + seq![rest@[0]] + spaces(pad / 2) + content@ + spaces(
            (pad - pad / 2) as nat,
        ) + seq![rest@.last()]);
    }
    Some(out)
}

/// Centers the content of a line made of one box cell (`│ text │`), or
/// returns `None` when the line is not such a line.
pub fn try_center_single_cell_box_line(line: &str) -> (r: Option<String>)
    requires
        !lone_border_line(line@),
    ensures
        r matches Some(s) ==> center_cell_spec(line@) == Some(s@),
        r is None ==> center_cell_spec(line@) is None,
{
    let v = chars_of(line);
    match center_cell_chars(&v) {
        Some(w) => Some(string_of(&w)),
        None => None,
    }
}

/// Centers `text` in `width` cells (the text itself when it is not narrower).
pub fn center_text(text: &str, width: usize) -> (r: String)
    ensures
        r@ == center_spec(text@, width as nat),
{
    let v = chars_of(text);
    let w = center_chars(&v, width);
    string_of(&w)
}

fn align_chars(v: &[char], style: Style) -> (r: Vec<char>)
    requires
        style == Style::Minimal || !lone_border_line(v@),
    ensures
        r@ == align_line_spec(v@, style),
{
    if style == Style::Standard || style == Style::Detailed {
        if let Some(centered) = center_cell_chars(v) {
            return centered;
        }
    }
    let (indent, rest) = indent_and_rest(v);
    let trimmed = trim_chars(&rest);
    let text_len = width_of_chars(&trimmed);
    let rest_width = width_of_chars(&rest);
    if trimmed.len() == 0 {
        return Vec::new();
    }
    if rest_width <= text_len {
        return slice_chars(v, 0, v.len());
    }
    let mut out = indent;
    if style == Style::Detailed {
        let centered = center_chars(&trimmed, rest_width);
        push_all(&mut out, &centered);
    } else {
        push_all(&mut out, &trimmed);
        push_spaces(&mut out, rest_width - text_len);
    }
    proof {
        assert(v@.subrange(0, v@.len() as int) =~= v@);
    }
    out
}

/// Aligns the text of one line in the given style.
pub fn align_text_in_line(line: &str, style: Style) -> (r: String)
    requires
        style == Style::Minimal || !lone_border_line(line@),
    ensures
        r@ == align_line_spec(line@, style),
{
    let v = chars_of(line);
    let w = align_chars(&v, style);
    string_of(&w)
}

/// Aligns the text of every text line of the diagram.
pub fn align_text_content(diagram: &mut ParsedDiagram, _metrics: &GridMetrics, style: Style) -> (r:
    Result<(), Error>)
    requires
        alignable(lines_view(old(diagram).lines@), style),
    ensures
        r is Ok,
        lines_view(final(diagram).lines@) == align_lines_spec(
            lines_view(old(diagram).lines@),
            style,
        ),
        final(diagram).diagram_type == old(diagram).diagram_type,
{
    let ghost g = lines_view(diagram.lines@);
    let mut out: Vec<String> = Vec::new();
    let mut y: usize = 0;
    while y < diagram.lines.len()
        invariant
            y <= diagram.lines@.len(),
            g == lines_view(diagram.lines@),
            alignable(g, style),
            lines_view(out@) == align_lines_spec(g, style).take(y as int),
        decreases diagram.lines@.len() - y,
    {
        let v = chars_of(diagram.lines[y].as_str());
        assert(v@ == g[y as int]);
        let new_line = if is_text_chars(&v) {
            let w = align_chars(&v, style);
            string_of(&w)
        } else {
            string_of(&v)
        };
        let ghost before = out@;
        out.push(new_line);
        proof {
            assert(lines_view(out@) =~= lines_view(before).push(new_line@));
            assert(align_lines_spec(g, style).take(y + 1) =~= align_lines_spec(g, style).take(
                y as int,
            ).push(align_lines_spec(g, style)[y as int]));
        }
        y = y + 1;
    }
    proof {
        assert(align_lines_spec(g, style).take(y as int) =~= align_lines_spec(g, style));
    }
    diagram.lines = out;
    Ok(())
}

/// Frame-only lines are left untouched, and the number of lines is kept.
pub proof fn lemma_align_keeps_frame_lines(g: Seq<Seq<char>>, style: Style, y: int)
    requires
        0 <= y < g.len(),
        !is_text_line_spec(g[y]),
    ensures
        align_lines_spec(g, style).len() == g.len(),
        align_lines_spec(g, style)[y] == g[y],
{
}

/// Alignment never changes the indentation of a line that keeps text.
pub proof fn lemma_align_keeps_indent(l: Seq<char>, style: Style)
    requires
        trim_spec(rest_of(l)).len() > 0,
        style == Style::Minimal || center_cell_spec(l) is None,
    ensures
        align_line_spec(l, style).take(lead_len(l, true) as int) == indent_of(l),
{
    crate::text::lemma_lead_len(l, true);
    let k = lead_len(l, true) as int;
    let r = align_line_spec(l, style);
    if width_of(rest_of(l)) <= width_of(trim_spec(rest_of(l))) {
        assert(r == l);
    } else {
        assert(r.take(k) =~= indent_of(l));
    }
}

} // verus!

verus! {

fn is_lone_border_line(v: &[char]) -> (r: bool)
    ensures
        r == lone_border_line(v@),
{
    let lead = leading_len(v, true);
    proof {
        crate::text::lemma_lead_len(v@, true);
    }
    let rest = slice_chars(v, lead, v.len());
    assert(rest@ == rest_of(v@));
    let body = trim_end_chars(&rest, true);
    body.len() == 1 && is_vertical_border(body[0])
}

/// Whether every line can be aligned with `style`: with `Standard` or
/// `Detailed`, no text line may consist of a lone vertical border.
pub fn is_alignable(lines: &[String], style: Style) -> (r: bool)
    ensures
        r == alignable(lines_view(lines@), style),
{
    if style == Style::Minimal {
        return true;
    }
    let ghost g = lines_view(lines@);
    let mut y: usize = 0;
    while y < lines.len()
        invariant
            y <= lines@.len(),
            g == lines_view(lines@),
            style != Style::Minimal,
            forall|j: int| 0 <= j < y && is_text_line_spec(#[trigger] g[j]) ==> !lone_border_line(g[j]),
        decreases lines@.len() - y,
    {
        let v = chars_of(lines[y].as_str());
        assert(v@ == g[y as int]);
        if is_text_chars(&v) && is_lone_border_line(&v) {
            return false;
        }
        y = y + 1;
    }
    true
}

} // verus!

verus! {

proof fn lemma_narrow_subrange(s: Seq<char>, a: int, b: int)
    requires
        crate::display_width::narrow(s),
        0 <= a <= b <= s.len(),
    ensures
        crate::display_width::narrow(s.subrange(a, b)),
{
    assert forall|i: int| 0 <= i < b - a implies crate::display_width::narrow_char(
        #[trigger] s.subrange(a, b)[i],
    ) by {
        assert(s.subrange(a, b)[i] == s[a + i]);
    }
}

/// With the `Minimal` style, aligning a narrow text line keeps its display
/// width (a line with no text besides its indentation becomes empty), and the
/// line stays narrow.
pub proof fn lemma_minimal_keeps_width(l: Seq<char>)
    requires
        crate::display_width::narrow(l),
        l.len() <= usize::MAX,
    ensures
        crate::display_width::narrow(align_line_spec(l, Style::Minimal)),
        trim_spec(rest_of(l)).len() > 0 ==> width_of(align_line_spec(l, Style::Minimal)) == width_of(l),
        trim_spec(rest_of(l)).len() == 0 ==> align_line_spec(l, Style::Minimal).len() == 0,
{
    let k = lead_len(l, true);
    crate::text::lemma_lead_len(l, true);
    let indent = indent_of(l);
    let rest = rest_of(l);
    lemma_narrow_subrange(l, 0, k as int);
    lemma_narrow_subrange(l, k as int, l.len() as int);
    assert(indent =~= l.subrange(0, k as int));
    assert(rest =~= l.subrange(k as int, l.len() as int));
    let e = trim_end_spec(rest, false);
    crate::text::lemma_kept_len(rest, false);
    lemma_narrow_subrange(rest, 0, kept_len(rest, false) as int);
    assert(e =~= rest.subrange(0, kept_len(rest, false) as int));
    let lt = lead_len(e, false);
    crate::text::lemma_lead_len(e, false);
    lemma_narrow_subrange(e, lt as int, e.len() as int);
    let trimmed = trim_spec(rest);
    assert(trimmed =~= e.subrange(lt as int, e.len() as int));
    crate::display_width::lemma_narrow_width(l);
    crate::display_width::lemma_narrow_width(rest);
    crate::display_width::lemma_narrow_width(trimmed);
    let r = align_line_spec(l, Style::Minimal);
    if trimmed.len() == 0 {
    } else if width_of(rest) <= width_of(trimmed) {
    } else {
        let n = (rest.len() - trimmed.len()) as nat;
        assert(r == indent + trimmed + spaces(n));
        assert forall|i: int| 0 <= i < r.len() implies crate::display_width::narrow_char(
            #[trigger] r[i],
        ) by {
            if i < indent.len() {
                assert(r[i] == indent[i]);
            } else if i < indent.len() + trimmed.len() {
                assert(r[i] == trimmed[i - indent.len()]);
            } else {
                assert(r[i] == ' ');
            }
        }
        assert(r.len() == l.len());
        crate::display_width::lemma_narrow_width(r);
    }
}

} // verus!

verus! {

/// With the `Minimal` style, aligning a narrow diagram keeps the display width
/// of every line, except that a text line with nothing but blanks after its
/// indentation becomes empty.
pub proof fn lemma_minimal_alignment_keeps_widths(g: Seq<Seq<char>>)
    requires
        forall|y: int|
            0 <= y < g.len() ==> crate::display_width::narrow(#[trigger] g[y]) && g[y].len()
                <= usize::MAX,
    ensures
        align_lines_spec(g, Style::Minimal).len() == g.len(),
        forall|y: int|
            0 <= y < g.len() ==> #[trigger] align_lines_spec(g, Style::Minimal)[y].len() == 0
                || width_of(align_lines_spec(g, Style::Minimal)[y]) == width_of(g[y]),
{
    let a = align_lines_spec(g, Style::Minimal);
    assert forall|y: int| 0 <= y < g.len() implies #[trigger] a[y].len() == 0 || width_of(a[y])
        == width_of(g[y]) by {
        if is_text_line_spec(g[y]) {
            lemma_minimal_keeps_width(g[y]);
        }
    }
}

} // verus!

verus! {

/// A single-cell box line that alignment centers (`Standard` or `Detailed`)
/// becomes its indentation, its left border, the trimmed content of the cell
/// with `a` spaces before and `b` after, and its right border, where the
/// spaces fill the cell to its old width and differ by at most one: `a` is
/// the floor and `b` the ceiling of half the free space.
pub proof fn lemma_single_cell_centered(l: Seq<char>, style: Style)
    requires
        style != Style::Minimal,
        center_cell_spec(l) is Some,
    ensures
        ({
            let body = body_of(l);
            let inner = body.subrange(1, body.len() - 1);
            let content = trim_spec(inner);
            exists|a: nat, b: nat|
                {
                    &&& a <= b <= a + 1
                    &&& a + width_of(content) + b == width_of(inner)
                    &&& align_line_spec(l, style) == indent_of(l) + seq![body[0]] + spaces(a)
                        + content + spaces(b) + seq![body.last()]
                }
        }),
{
    let body = body_of(l);
    let inner = body.subrange(1, body.len() - 1);
    let content = trim_spec(inner);
    let pad = (width_of(inner) - width_of(content)) as nat;
    let a = pad / 2;
    let b = (pad - pad / 2) as nat;
    assert(a <= b <= a + 1);
    assert(align_line_spec(l, style) == indent_of(l) + seq![body[0]] + spaces(a) + content + spaces(
        b,
    ) + seq![body.last()]);
}

} // verus!

verus! {

/// A text line that is not a centered single cell, with text after its
/// indentation and room to spare, keeps its indentation and its text and is
/// laid out in the width its text part had: `Minimal` and `Standard` put the
/// text first and all free cells after it; `Detailed` centers it, the free
/// cells before and after differing by at most one.
pub proof fn lemma_text_line_layout(l: Seq<char>, style: Style)
    requires
        style == Style::Minimal || center_cell_spec(l) is None,
        trim_spec(rest_of(l)).len() > 0,
        width_of(trim_spec(rest_of(l))) < width_of(rest_of(l)),
    ensures
        exists|a: nat, b: nat|
            #![trigger spaces(a), spaces(b)]
            {
                &&& a + width_of(trim_spec(rest_of(l))) + b == width_of(rest_of(l))
                &&& align_line_spec(l, style) == indent_of(l) + spaces(a) + trim_spec(rest_of(l))
                    + spaces(b)
                &&& (style != Style::Detailed ==> a == 0)
                &&& (style == Style::Detailed ==> a <= b <= a + 1)
            },
{
    let t = trim_spec(rest_of(l));
    let pad = (width_of(rest_of(l)) - width_of(t)) as nat;
    if style == Style::Detailed {
        let a = pad / 2;
        let b = (pad - pad / 2) as nat;
        assert(align_line_spec(l, style) == indent_of(l) + spaces(a) + t + spaces(b));
    } else {
        assert(spaces(0) + t =~= t);
        assert(align_line_spec(l, style) == indent_of(l) + spaces(0) + t + spaces(pad));
    }
}

} // verus!
