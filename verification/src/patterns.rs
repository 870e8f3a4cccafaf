//! Classification of a diagram by the glyphs and layout of its lines.
use vstd::prelude::*;
use crate::text::{chars_of, lines_view};

verus! {

#[derive(Debug, Clone, Copy, PartialEq, Eq, Structural)]
pub enum DiagramType {
    Flowchart,
    Tree,
    Architecture,
    Sequence,
    Table,
    Unknown,
}

/// `a` immediately followed by `b` somewhere in `s`.
pub open spec fn has_pair(s: Seq<char>, a: char, b: char) -> bool {
    exists|i: int| 0 <= i && i + 1 < s.len() && #[trigger] s[i] == a && s[i + 1] == b
}

pub open spec fn arrow_line(l: Seq<char>) -> bool {
    has_pair(l, '-', '>') || has_pair(l, '=', '>') || l.contains('→')
}

/// Box glyphs: Unicode corners and verticals, or their ASCII stand-ins.
pub open spec fn border_line(l: Seq<char>) -> bool {
    l.contains('┌') || l.contains('│') || l.contains('+') || l.contains('|')
}

pub open spec fn vertical_line(l: Seq<char>) -> bool {
    l.contains('│')
}

pub open spec fn layer_line(l: Seq<char>) -> bool {
    (l.contains('├') && l.contains('┤')) || (l.contains('┌') && l.contains('└'))
}

pub open spec fn table_line(l: Seq<char>) -> bool {
    l.contains('┬') || l.contains('┼')
}

pub open spec fn indented(l: Seq<char>) -> bool {
    l.len() >= 2 && l[0] == ' ' && l[1] == ' '
}

/// The classification rules, in order of precedence:
/// - `Tree`: no arrows, and an indented line that carries a tree glyph
///   (`├` or `│`), or any indented line when the diagram has no box glyphs;
/// - `Flowchart`: arrows (`->`, `=>`, `→`) together with box glyphs;
/// - `Architecture`: a layered line (`├…┤`, or `┌…└` on one line) with box glyphs;
/// - `Sequence`: vertical `│` lines with box glyphs but neither layers nor a
///   closed frame (a `┌` line and a `└` line);
/// - `Table`: box glyphs together with `┬`/`┼` junctions or a closed frame;
/// - `Unknown` otherwise.
pub open spec fn detect_type_spec(g: Seq<Seq<char>>) -> DiagramType {
    let has_arrows = exists|y: int| 0 <= y < g.len() && arrow_line(#[trigger] g[y]);
    let has_borders = exists|y: int| 0 <= y < g.len() && border_line(#[trigger] g[y]);
    let has_tree_indent = exists|y: int|
        0 <= y < g.len() && indented(#[trigger] g[y]) && (g[y].contains('├') || g[y].contains(
            '│',
        ) || !has_borders);
    let has_layers = exists|y: int| 0 <= y < g.len() && layer_line(#[trigger] g[y]);
    let has_vertical_lines = exists|y: int| 0 <= y < g.len() && vertical_line(#[trigger] g[y]);
    let has_tables = exists|y: int| 0 <= y < g.len() && table_line(#[trigger] g[y]);
    let has_frame = (exists|y: int| 0 <= y < g.len() && (#[trigger] g[y]).contains('┌')) && (
    exists|y: int| 0 <= y < g.len() && (#[trigger] g[y]).contains('└'));
    if has_tree_indent && !has_arrows {
        DiagramType::Tree
    } else if has_arrows && (has_borders || has_vertical_lines) {
        DiagramType::Flowchart
    } else if has_layers && has_borders {
        DiagramType::Architecture
    } else if has_vertical_lines && has_borders && !has_layers && !has_frame {
        DiagramType::Sequence
    } else if has_borders && (has_tables || has_frame) {
        DiagramType::Table
    } else {
        DiagramType::Unknown
    }
}

pub fn contains_char(v: &[char], c: char) -> (r: bool)
    ensures
        r == v@.contains(c),
{
    let mut i: usize = 0;
    while i < v.len()
        invariant
            i <= v@.len(),
            forall|j: int| 0 <= j < i ==> v@[j] != c,
        decreases v@.len() - i,
    {
        if v[i] == c {
            return true;
        }
        i = i + 1;
    }
    false
}

fn contains_pair(v: &[char], a: char, b: char) -> (r: bool)
    ensures
        r == has_pair(v@, a, b),
{
    let mut i: usize = 0;
    while i < v.len()
        invariant
            forall|j: int| 0 <= j < i && j + 1 < v@.len() ==> !(#[trigger] v@[j] == a && v@[j + 1] == b),
        decreases v@.len() - i,
    {
        if i + 1 < v.len() && v[i] == a && v[i + 1] == b {
            return true;
        }
        i = i + 1;
    }
    false
}

/// Per-line facts that the classification reads.
struct LineFacts {
    arrow: bool,
    border: bool,
    indented: bool,
    tree_glyph: bool,
    vertical: bool,
    layer: bool,
    table: bool,
    top_left: bool,
    bottom_left: bool,
}

fn line_facts(v: &[char]) -> (f: LineFacts)
    ensures
        f.arrow == arrow_line(v@),
        f.border == border_line(v@),
        f.indented == indented(v@),
        f.tree_glyph == (v@.contains('├') || v@.contains('│')),
        f.vertical == vertical_line(v@),
        f.layer == layer_line(v@),
        f.table == table_line(v@),
        f.top_left == v@.contains('┌'),
        f.bottom_left == v@.contains('└'),
{
    let pipe_u = contains_char(v, '│');
    let corner_tl = contains_char(v, '┌');
    let corner_bl = contains_char(v, '└');
    let tee_r = contains_char(v, '├');
    let tee_l = contains_char(v, '┤');
    LineFacts {
        arrow: contains_pair(v, '-', '>') || contains_pair(v, '=', '>') || contains_char(v, '→'),
        border: corner_tl || pipe_u || contains_char(v, '+') || contains_char(v, '|'),
        indented: v.len() >= 2 && v[0] == ' ' && v[1] == ' ',
        tree_glyph: tee_r || pipe_u,
        vertical: pipe_u,
        layer: (tee_r && tee_l) || (corner_tl && corner_bl),
        table: contains_char(v, '┬') || contains_char(v, '┼'),
        top_left: corner_tl,
        bottom_left: corner_bl,
    }
}

/// Classifies a diagram (see `detect_type_spec` for the rules).
pub fn detect_type(lines: &[String]) -> (r: DiagramType)
    ensures
        r == detect_type_spec(lines_view(lines@)),
{
    let ghost g = lines_view(lines@);
    let mut has_arrows = false;
    let mut has_borders = false;
    let mut has_indent_glyph = false;
    let mut has_indent = false;
    let mut has_layers = false;
    let mut has_vertical_lines = false;
    let mut has_tables = false;
    let mut has_top = false;
    let mut has_bottom = false;
    let mut y: usize = 0;
    while y < lines.len()
        invariant
            y <= lines@.len(),
            g == lines_view(lines@),
            g.len() == lines@.len(),
            has_arrows == exists|k: int| 0 <= k < y && arrow_line(#[trigger] g[k]),
            has_borders == exists|k: int| 0 <= k < y && border_line(#[trigger] g[k]),
            has_indent_glyph == exists|k: int|
                0 <= k < y && indented(#[trigger] g[k]) && (g[k].contains('├') || g[k].contains(
                    '│',
                )),
            has_indent == exists|k: int| 0 <= k < y && indented(#[trigger] g[k]),
            has_layers == exists|k: int| 0 <= k < y && layer_line(#[trigger] g[k]),
            has_vertical_lines == exists|k: int| 0 <= k < y && vertical_line(#[trigger] g[k]),
            has_tables == exists|k: int| 0 <= k < y && table_line(#[trigger] g[k]),
            has_top == exists|k: int| 0 <= k < y && (#[trigger] g[k]).contains('┌'),
            has_bottom == exists|k: int| 0 <= k < y && (#[trigger] g[k]).contains('└'),
        decreases lines@.len() - y,
    {
        let v = chars_of(lines[y].as_str());
        assert(v@ == g[y as int]);
        let f = line_facts(&v);
        has_arrows = has_arrows || f.arrow;
        has_borders = has_borders || f.border;
        has_indent_glyph = has_indent_glyph || (f.indented && f.tree_glyph);
        has_indent = has_indent || f.indented;
        has_layers = has_layers || f.layer;
        has_vertical_lines = has_vertical_lines || f.vertical;
        has_tables = has_tables || f.table;
        has_top = has_top || f.top_left;
        has_bottom = has_bottom || f.bottom_left;
        y = y + 1;
    }
    let has_tree_indent = has_indent_glyph || (has_indent && !has_borders);
    let has_frame = has_top && has_bottom;
    proof {
        if has_indent && !has_borders {
            let k = choose|k: int| 0 <= k < y && indented(#[trigger] g[k]);
            assert(indented(g[k]) && !has_borders);
        }
    }
    if has_tree_indent && !has_arrows {
        DiagramType::Tree
    } else if has_arrows && (has_borders || has_vertical_lines) {
        DiagramType::Flowchart
    } else if has_layers && has_borders {
        DiagramType::Architecture
    } else if has_vertical_lines && has_borders && !has_layers && !has_frame {
        DiagramType::Sequence
    } else if has_borders && (has_tables || has_frame) {
        DiagramType::Table
    } else {
        DiagramType::Unknown
    }
}

} // verus!

verus! {

/// A diagram without arrows (`->`, `=>`, `→`) and without tree indentation
/// (no line that starts with two spaces and holds `├` or `│`), that has a
/// layered line (`├` and `┤`, or `┌` and `└`, on one line) and box glyphs
/// (`┌`, `│`, `+` or `|` on some line), is an architecture diagram, whatever
/// its frame, vertical lines or table junctions.
pub proof fn lemma_layered_is_architecture(g: Seq<Seq<char>>)
    requires
        forall|y: int|
            0 <= y < g.len() ==> !has_pair(#[trigger] g[y], '-', '>') && !has_pair(g[y], '=', '>')
                && !g[y].contains('→'),
        forall|y: int|
            0 <= y < g.len() && #[trigger] g[y].len() >= 2 && g[y][0] == ' ' && g[y][1] == ' '
                ==> !g[y].contains('├') && !g[y].contains('│'),
        exists|y: int|
            #![trigger g[y]]
            0 <= y < g.len() && ((g[y].contains('├') && g[y].contains('┤')) || (g[y].contains('┌')
                && g[y].contains('└'))),
        exists|y: int|
            #![trigger g[y]]
            0 <= y < g.len() && (g[y].contains('┌') || g[y].contains('│') || g[y].contains('+')
                || g[y].contains('|')),
    ensures
        detect_type_spec(g) == DiagramType::Architecture,
{
    let ya = choose|y: int|
        #![trigger g[y]]
        0 <= y < g.len() && ((g[y].contains('├') && g[y].contains('┤')) || (g[y].contains('┌')
            && g[y].contains('└')));
    assert(layer_line(g[ya]));
    let yb = choose|y: int|
        #![trigger g[y]]
        0 <= y < g.len() && (g[y].contains('┌') || g[y].contains('│') || g[y].contains('+')
            || g[y].contains('|'));
    assert(border_line(g[yb]));
    assert(!exists|y: int| 0 <= y < g.len() && arrow_line(#[trigger] g[y]));
    assert(!exists|y: int|
        0 <= y < g.len() && indented(#[trigger] g[y]) && (g[y].contains('├') || g[y].contains('│')
            || !(exists|y: int| 0 <= y < g.len() && border_line(#[trigger] g[y]))));
}

} // verus!
