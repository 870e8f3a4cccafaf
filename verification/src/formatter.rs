//! The formatting pipeline: parse, fix whitespace, fix glyphs, align text, render.
use vstd::prelude::*;
use crate::box_drawing::{fix_box_drawing_symbols, fixed_lines};
use crate::cli::Options;
use crate::error::Error;
use crate::grid::{
    analyze_grid, lemma_normalize_line_on_grid, lemma_shrink_width, normalize_line_spec,
    normalize_lines_spec, normalize_whitespace, shrink_lines_spec, shrink_overflowing_box_lines,
    GridMetrics,
};
use crate::parser::{join_lines, lemma_join_push, parse, split_lines, ParsedDiagram};
use crate::text::{chars_of, lines_view, push_all, string_of, trim_chars, trim_spec};
use crate::text_align::{
    align_line_spec, align_lines_spec, align_text_content, alignable, is_alignable,
    is_text_line_spec, lemma_minimal_keeps_width, Style,
};
use crate::display_width::width_of;

verus! {

/// The grid column width used for whitespace normalization: the one given in
/// the options when it is above 2; otherwise 2, with which lines are only
/// trimmed (a box's own width is not a grid to pad other lines to).
pub open spec fn grid_width_spec(o: Options) -> usize {
    if o.width > 2 {
        o.width
    } else {
        2
    }
}

/// The lines once whitespace and glyphs are fixed, before text alignment.
pub open spec fn prepared_lines(ls: Seq<Seq<char>>, o: Options) -> Seq<Seq<char>> {
    let a = if o.fix_whitespace {
        normalize_lines_spec(shrink_lines_spec(ls), grid_width_spec(o))
    } else {
        ls
    };
    if o.fix_box_drawing {
        fixed_lines(a)
    } else {
        a
    }
}

/// A line that is empty or holds only whitespace.
pub open spec fn blank_line(l: Seq<char>) -> bool {
    trim_spec(l).len() == 0
}

/// The lines that are not blank, in order.
pub open spec fn drop_blank_lines(ls: Seq<Seq<char>>) -> Seq<Seq<char>>
    decreases ls.len(),
{
    if ls.len() == 0 {
        ls
    } else {
        drop_blank_lines(ls.drop_last()) + if blank_line(ls.last()) {
            Seq::<Seq<char>>::empty()
        } else {
            seq![ls.last()]
        }
    }
}

/// The lines of the formatted diagram.
pub open spec fn output_lines(ls: Seq<Seq<char>>, o: Options) -> Seq<Seq<char>> {
    let aligned = align_lines_spec(prepared_lines(ls, o), o.style);
    if o.preserve_empty_lines {
        aligned
    } else {
        drop_blank_lines(aligned)
    }
}

/// The inputs that can be formatted: text alignment is defined on the
/// prepared lines (see `alignable`).
pub open spec fn formattable(input: Seq<char>, o: Options) -> bool {
    input.len() == 0 || alignable(prepared_lines(split_lines(input), o), o.style)
}

/// Runs the steps before text alignment on a parsed diagram and returns the
/// grid metrics they used.
fn prepare_diagram(diagram: &mut ParsedDiagram, options: &Options) -> (m: GridMetrics)
    ensures
        lines_view(final(diagram).lines@) == prepared_lines(lines_view(old(diagram).lines@), *options),
        final(diagram).diagram_type == old(diagram).diagram_type,
{
    let mut grid_metrics = match analyze_grid(&diagram.lines) {
        Ok(m) => m,
        Err(_) => {
            proof {
                assert(false);
            }
            GridMetrics { column_width: 2, row_height: 1, columns: Vec::new(), rows: Vec::new() }
        },
    };
    // Lines are padded to a grid only when a column width above 2 is asked for.
    grid_metrics.column_width = if options.width > 2 {
        options.width
    } else {
        2
    };
    if options.fix_whitespace {
        let _ = shrink_overflowing_box_lines(diagram);
        let _ = normalize_whitespace(diagram, &grid_metrics);
    }
    if options.fix_box_drawing {
        let _ = fix_box_drawing_symbols(diagram);
    }
    grid_metrics
}

/// Drops the empty and whitespace-only lines of the diagram.
fn remove_blank_lines(diagram: &mut ParsedDiagram)
    ensures
        lines_view(final(diagram).lines@) == drop_blank_lines(lines_view(old(diagram).lines@)),
        final(diagram).diagram_type == old(diagram).diagram_type,
{
    let ghost ls = lines_view(diagram.lines@);
    let mut kept: Vec<String> = Vec::new();
    let mut y: usize = 0;
    while y < diagram.lines.len()
        invariant
            y <= diagram.lines@.len(),
            ls == lines_view(diagram.lines@),
            lines_view(kept@) == drop_blank_lines(ls.take(y as int)),
        decreases diagram.lines@.len() - y,
    {
        let v = chars_of(diagram.lines[y].as_str());
        let t = trim_chars(&v);
        let ghost before = kept@;
        proof {
            assert(ls.take(y + 1).drop_last() =~= ls.take(y as int));
            assert(ls.take(y + 1).last() == ls[y as int]);
        }
        if t.len() > 0 {
            kept.push(diagram.lines[y].clone());
            assert(lines_view(kept@) =~= lines_view(before) + seq![ls[y as int]]);
        } else {
            assert(lines_view(kept@) =~= lines_view(before) + Seq::<Seq<char>>::empty());
        }
        y = y + 1;
    }
    assert(ls.take(ls.len() as int) =~= ls);
    diagram.lines = kept;
}

/// The lines of the diagram joined with `\n`.
pub fn render(diagram: &ParsedDiagram) -> (r: Result<String, Error>)
    ensures
        r matches Ok(s) && s@ == join_lines(lines_view(diagram.lines@)),
{
    let ghost ls = lines_view(diagram.lines@);
    let mut out: Vec<char> = Vec::new();
    let mut y: usize = 0;
    while y < diagram.lines.len()
        invariant
            y <= diagram.lines@.len(),
            ls == lines_view(diagram.lines@),
            out@ == join_lines(ls.take(y as int)),
        decreases diagram.lines@.len() - y,
    {
        if y > 0 {
            out.push('\n');
        }
        let v = chars_of(diagram.lines[y].as_str());
        push_all(&mut out, &v);
        proof {
            lemma_join_push(ls.take(y as int), ls[y as int]);
            assert(ls.take(y + 1) =~= ls.take(y as int).push(ls[y as int]));
        }
        y = y + 1;
    }
    assert(ls.take(ls.len() as int) =~= ls);
    Ok(string_of(&out))
}

/// Formats an ASCII/Unicode diagram: fixes whitespace and box-drawing glyphs
/// as the options ask, aligns the text, and renders the lines.
/// Empty input is rejected with `Error::InvalidInput("Empty input")`.
pub fn format_ascii(input: &str, options: &Options) -> (r: Result<String, Error>)
    requires
        formattable(input@, *options),
    ensures
        r is Err <==> input@.len() == 0,
        r matches Err(Error::InvalidInput(msg)) ==> msg@ == "Empty input"@,
        r matches Ok(s) ==> s@ == join_lines(output_lines(split_lines(input@), *options)),
{
    let mut diagram = match parse(input) {
        Ok(d) => d,
        Err(e) => {
            return Err(e);
        },
    };
    let grid_metrics = prepare_diagram(&mut diagram, options);
    let _ = align_text_content(&mut diagram, &grid_metrics, options.style);
    if !options.preserve_empty_lines {
        remove_blank_lines(&mut diagram);
    }
    render(&diagram)
}

/// Whether `format_ascii` is defined on `input` with `options` (see `formattable`).
pub fn is_formattable(input: &str, options: &Options) -> (r: bool)
    ensures
        r == formattable(input@, *options),
{
    let mut diagram = match parse(input) {
        Ok(d) => d,
        Err(_) => {
            return true;
        },
    };
    let _ = prepare_diagram(&mut diagram, options);
    is_alignable(&diagram.lines, options.style)
}

/// `format_ascii` on the inputs where it is defined, `None` on the others.
pub fn format_ascii_checked(input: &str, options: &Options) -> (r: Option<Result<String, Error>>)
    ensures
        r is None <==> !formattable(input@, *options),
        r matches Some(x) ==> (x is Err <==> input@.len() == 0),
        r matches Some(Err(Error::InvalidInput(msg))) ==> msg@ == "Empty input"@,
        r matches Some(Ok(s)) ==> s@ == join_lines(output_lines(split_lines(input@), *options)),
{
    if is_formattable(input, options) {
        Some(format_ascii(input, options))
    } else {
        None
    }
}

} // verus!

verus! {

proof fn lemma_drop_blank_lines(ls: Seq<Seq<char>>)
    ensures
        drop_blank_lines(ls).len() <= ls.len(),
        forall|i: int|
            0 <= i < drop_blank_lines(ls).len() ==> !blank_line(#[trigger] drop_blank_lines(ls)[i]),
    decreases ls.len(),
{
    if ls.len() > 0 {
        lemma_drop_blank_lines(ls.drop_last());
        let p = drop_blank_lines(ls.drop_last());
        let d = drop_blank_lines(ls);
        assert forall|i: int| 0 <= i < d.len() implies !blank_line(#[trigger] d[i]) by {
            if i < p.len() {
                assert(d[i] == p[i]);
            }
        }
    }
}

/// Formatting keeps one line per input line when empty lines are preserved;
/// otherwise no line of the output is empty or whitespace-only, and there are
/// no more lines than in the input.
pub proof fn lemma_format_line_count(ls: Seq<Seq<char>>, o: Options)
    ensures
        o.preserve_empty_lines ==> output_lines(ls, o).len() == ls.len(),
        !o.preserve_empty_lines ==> output_lines(ls, o).len() <= ls.len(),
        !o.preserve_empty_lines ==> forall|i: int|
            0 <= i < output_lines(ls, o).len() ==> !blank_line(#[trigger] output_lines(ls, o)[i]),
{
    lemma_drop_blank_lines(align_lines_spec(prepared_lines(ls, o), o.style));
}

} // verus!

verus! {

proof fn lemma_drop_blank_lines_from(ls: Seq<Seq<char>>)
    ensures
        forall|i: int|
            0 <= i < drop_blank_lines(ls).len() ==> exists|j: int|
                0 <= j < ls.len() && #[trigger] drop_blank_lines(ls)[i] == ls[j],
    decreases ls.len(),
{
    if ls.len() > 0 {
        let q = ls.drop_last();
        lemma_drop_blank_lines_from(q);
        let p = drop_blank_lines(q);
        let d = drop_blank_lines(ls);
        assert forall|i: int| 0 <= i < d.len() implies exists|j: int|
            0 <= j < ls.len() && #[trigger] d[i] == ls[j] by {
            if i < p.len() {
                assert(d[i] == p[i]);
                let j = choose|j: int| 0 <= j < q.len() && #[trigger] p[i] == q[j];
                assert(q[j] == ls[j]);
            } else {
                assert(d[i] == ls[ls.len() - 1]);
            }
        }
    }
}

/// One line of the pipeline below: with the `Minimal` style and no glyph
/// fixing, a narrow line ends up at a multiple of the grid column width.
proof fn lemma_minimal_line_on_grid(ls: Seq<Seq<char>>, o: Options, y: int)
    requires
        o.style == Style::Minimal,
        o.fix_whitespace,
        !o.fix_box_drawing,
        o.width > 2,
        0 <= y < ls.len(),
        crate::display_width::narrow(ls[y]),
        ls[y].len() + o.width <= usize::MAX,
    ensures
        width_of(align_lines_spec(prepared_lines(ls, o), o.style)[y]) % (o.width as nat) == 0,
{
    let a = shrink_lines_spec(ls);
    lemma_shrink_width(ls, y);
    crate::display_width::lemma_narrow_width(ls[y]);
    if a[y] != ls[y] {
        if a[y].len() > usize::MAX {
            assert(width_of(a[y]) == usize::MAX);
        }
        crate::display_width::lemma_narrow_width(a[y]);
    }
    let n = normalize_lines_spec(a, o.width);
    assert(prepared_lines(ls, o) == n);
    lemma_normalize_line_on_grid(a[y], o.width);
    assert(n[y] == normalize_line_spec(a[y], o.width));
    assert(width_of(n[y]) % (o.width as nat) == 0);
    let al = align_lines_spec(n, o.style);
    if is_text_line_spec(n[y]) {
        lemma_minimal_keeps_width(n[y]);
        let r = align_line_spec(n[y], Style::Minimal);
        assert(al[y] == r);
        if r.len() == 0 {
            assert(crate::display_width::narrow(r));
            assert(width_of(r) == 0);
            assert(0nat % (o.width as nat) == 0) by (nonlinear_arith)
                requires
                    o.width > 2,
            ;
        } else {
            assert(width_of(r) == width_of(n[y]));
        }
    } else {
        assert(al[y] == n[y]);
    }
    assert(width_of(al[y]) % (o.width as nat) == 0);
    assert(align_lines_spec(prepared_lines(ls, o), o.style) == al);
}

/// With the `Minimal` style, whitespace fixing on, glyph fixing off and a
/// column width above 2, every line of the output of narrow input (printable
/// ASCII and box-drawing glyphs only) has a display width that is a multiple
/// of the column width.
pub proof fn lemma_minimal_output_on_grid(ls: Seq<Seq<char>>, o: Options)
    requires
        o.style == Style::Minimal,
        o.fix_whitespace,
        !o.fix_box_drawing,
        o.width > 2,
        forall|y: int| 0 <= y < ls.len() ==> crate::display_width::narrow(#[trigger] ls[y]),
        forall|y: int| 0 <= y < ls.len() ==> #[trigger] ls[y].len() + o.width <= usize::MAX,
    ensures
        forall|i: int|
            0 <= i < output_lines(ls, o).len() ==> width_of(#[trigger] output_lines(ls, o)[i]) % (
            o.width as nat) == 0,
{
    let aligned = align_lines_spec(prepared_lines(ls, o), o.style);
    assert(aligned.len() == ls.len());
    assert forall|y: int| 0 <= y < aligned.len() implies width_of(#[trigger] aligned[y]) % (
    o.width as nat) == 0 by {
        lemma_minimal_line_on_grid(ls, o, y);
    }
    if !o.preserve_empty_lines {
        lemma_drop_blank_lines_from(aligned);
        let d = drop_blank_lines(aligned);
        assert forall|i: int| 0 <= i < d.len() implies width_of(#[trigger] d[i]) % (o.width as nat)
            == 0 by {
            let j = choose|j: int| 0 <= j < aligned.len() && #[trigger] d[i] == aligned[j];
            assert(width_of(aligned[j]) % (o.width as nat) == 0);
        }
    }
}

} // verus!
