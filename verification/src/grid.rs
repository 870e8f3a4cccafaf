//! Grid analysis of a diagram and whitespace normalization.
use vstd::prelude::*;
use crate::display_width::{char_width, display_width_char, width_of, width_of_chars};
use crate::error::Error;
use crate::parser::ParsedDiagram;
use crate::text::{
    chars_of, grid_view, kept_len, kept_length, lead_len, leading_len, lines_view, push_spaces,
    slice_chars, spaces, string_of, to_grid, trim_end_chars, trim_end_spec,
};
use crate::utils::{most_common, most_common_spec, occurrences};

verus! {

#[derive(Debug, Clone)]
pub struct GridMetrics {
    pub column_width: usize,
    pub row_height: usize,
    pub columns: Vec<usize>,
    pub rows: Vec<usize>,
}

pub open spec fn grid_vertical_marker(c: char) -> bool {
    c == '\u{2502}' || c == '\u{2551}' || c == '\u{251c}' || c == '\u{2524}' || c == '\u{253c}'
        || c == '\u{2560}' || c == '\u{2563}' || c == '\u{256c}' || c == '|'
}

pub open spec fn grid_horizontal_marker(c: char) -> bool {
    c == '\u{2500}' || c == '\u{2550}' || c == '\u{252c}' || c == '\u{2534}' || c == '\u{253c}'
        || c == '\u{2566}' || c == '\u{2569}' || c == '\u{256c}' || c == '-' || c == '='
}

fn is_grid_vertical_marker(ch: char) -> (r: bool)
    ensures
        r == grid_vertical_marker(ch),
{
    ch == '\u{2502}' || ch == '\u{2551}' || ch == '\u{251c}' || ch == '\u{2524}' || ch
        == '\u{253c}' || ch == '\u{2560}' || ch == '\u{2563}' || ch == '\u{256c}' || ch == '|'
}

fn is_grid_horizontal_marker(ch: char) -> (r: bool)
    ensures
        r == grid_horizontal_marker(ch),
{
    ch == '\u{2500}' || ch == '\u{2550}' || ch == '\u{252c}' || ch == '\u{2534}' || ch
        == '\u{253c}' || ch == '\u{2566}' || ch == '\u{2569}' || ch == '\u{256c}' || ch == '-' || ch
        == '='
}

/// The terminal column where character `i` of `l` starts: the widths of the
/// characters before it, summed with saturation at `usize::MAX`.
pub open spec fn cell_offset(l: Seq<char>, i: nat) -> nat
    decreases i,
{
    if i == 0 {
        0
    } else {
        let p = cell_offset(l, (i - 1) as nat) + char_width(l[i - 1]);
        if p > usize::MAX {
            usize::MAX as nat
        } else {
            p
        }
    }
}

/// The columns of the vertical grid markers among the first `n` characters of `l`.
pub open spec fn line_marker_columns(l: Seq<char>, n: nat) -> Seq<usize>
    decreases n,
{
    if n == 0 {
        seq![]
    } else {
        line_marker_columns(l, (n - 1) as nat) + if grid_vertical_marker(l[n - 1]) {
            seq![cell_offset(l, (n - 1) as nat) as usize]
        } else {
            seq![]
        }
    }
}

/// The columns of all vertical grid markers of the first `k` lines, line by line.
pub open spec fn marker_columns(g: Seq<Seq<char>>, k: nat) -> Seq<usize>
    decreases k,
{
    if k == 0 {
        seq![]
    } else {
        marker_columns(g, (k - 1) as nat) + line_marker_columns(g[k - 1], g[k - 1].len())
    }
}

/// A column is a grid column when at least half of the lines (and at least
/// one) put a vertical marker there.
pub open spec fn column_threshold(n: nat) -> nat {
    if n / 2 >= 1 {
        n / 2
    } else {
        1
    }
}

pub open spec fn is_grid_column(g: Seq<Seq<char>>, x: usize) -> bool {
    occurrences(marker_columns(g, g.len()), x) >= column_threshold(g.len())
}

pub open spec fn strictly_increasing(s: Seq<usize>) -> bool {
    forall|i: int, j: int| 0 <= i < j < s.len() ==> s[i] < s[j]
}

/// The grid columns in increasing order.
pub open spec fn vertical_positions_spec(g: Seq<Seq<char>>) -> Seq<usize> {
    choose|p: Seq<usize>|
        strictly_increasing(p) && forall|x: usize| p.contains(x) <==> is_grid_column(g, x)
}

/// The distances between consecutive positions.
pub open spec fn gaps(p: Seq<usize>) -> Seq<usize> {
    if p.len() == 0 {
        seq![]
    } else {
        Seq::new((p.len() - 1) as nat, |i: int| (p[i + 1] - p[i]) as usize)
    }
}

/// The most common gap between grid columns, or 2 when there is none.
pub open spec fn column_width_spec(p: Seq<usize>) -> usize {
    match most_common_spec(gaps(p)) {
        Some(w) => w,
        None => 2,
    }
}

/// The indices of the lines that hold a horizontal grid marker.
pub open spec fn horizontal_rows(g: Seq<Seq<char>>, k: nat) -> Seq<usize>
    decreases k,
{
    if k == 0 {
        seq![]
    } else {
        horizontal_rows(g, (k - 1) as nat) + if g[k - 1].contains('\u{2500}') || exists|i: int|
            0 <= i < g[k - 1].len() && grid_horizontal_marker(#[trigger] g[k - 1][i]) {
            seq![(k - 1) as usize]
        } else {
            seq![]
        }
    }
}

proof fn lemma_take_push_contains(s: Seq<usize>, i: int, z: usize)
    requires
        0 <= i < s.len(),
    ensures
        s.take(i + 1).contains(z) <==> (s.take(i).contains(z) || s[i] == z),
{
    if s.take(i + 1).contains(z) {
        let j = choose|j: int| 0 <= j < i + 1 && #[trigger] s.take(i + 1)[j] == z;
        if j < i {
            assert(s.take(i)[j] == z);
        }
    }
    if s.take(i).contains(z) {
        let j = choose|j: int| 0 <= j < i && #[trigger] s.take(i)[j] == z;
        assert(s.take(i + 1)[j] == z);
    }
    if s[i] == z {
        assert(s.take(i + 1)[i] == z);
    }
}

pub open spec fn positions_so_far(p: Seq<usize>, all: Seq<usize>, i: int, g: Seq<Seq<char>>) -> bool {
    forall|z: usize| #[trigger] p.contains(z) <==> (all.take(i).contains(z) && is_grid_column(g, z))
}

/// Two increasing sequences with the same elements are equal.
proof fn lemma_increasing_unique(a: Seq<usize>, b: Seq<usize>)
    requires
        strictly_increasing(a),
        strictly_increasing(b),
        forall|x: usize| a.contains(x) <==> b.contains(x),
    ensures
        a == b,
    decreases a.len(),
{
    if a.len() == 0 {
        if b.len() > 0 {
            assert(b.contains(b[0]));
        }
    } else {
        assert(a.contains(a[0]));
        assert(b.len() > 0);
        assert(b.contains(b[0]));
        let i = choose|i: int| 0 <= i < b.len() && b[i] == a[0];
        let j = choose|j: int| 0 <= j < a.len() && a[j] == b[0];
        if i > 0 {
            assert(b[0] < b[i]);
            if j > 0 {
                assert(a[0] < a[j]);
            }
        }
        assert(a[0] == b[0]);
        let a1 = a.drop_first();
        let b1 = b.drop_first();
        assert forall|x: usize| a1.contains(x) implies b1.contains(x) by {
            let k = choose|k: int| 0 <= k < a1.len() && a1[k] == x;
            assert(a.contains(x));
            let m = choose|m: int| 0 <= m < b.len() && b[m] == x;
            assert(a[k + 1] == x);
            assert(a[0] < a[k + 1]);
            assert(m != 0);
            assert(b1[m - 1] == x);
        }
        assert forall|x: usize| b1.contains(x) implies a1.contains(x) by {
            let k = choose|k: int| 0 <= k < b1.len() && b1[k] == x;
            assert(b.contains(x));
            let m = choose|m: int| 0 <= m < a.len() && a[m] == x;
            assert(b[k + 1] == x);
            assert(b[0] < b[k + 1]);
            assert(m != 0);
            assert(a1[m - 1] == x);
        }
        lemma_increasing_unique(a1, b1);
        assert(a =~= seq![a[0]] + a1);
        assert(b =~= seq![b[0]] + b1);
    }
}

/// The columns of the vertical markers of one line, appended to `out`.
fn push_line_marker_columns(line: &[char], out: &mut Vec<usize>)
    ensures
        final(out)@ == old(out)@ + line_marker_columns(line@, line@.len()),
{
    let ghost start = out@;
    let mut x_cells: usize = 0;
    let mut i: usize = 0;
    while i < line.len()
        invariant
            i <= line@.len(),
            x_cells == cell_offset(line@, i as nat),
            out@ == start + line_marker_columns(line@, i as nat),
        decreases line@.len() - i,
    {
        let ch = line[i];
        if is_grid_vertical_marker(ch) {
            out.push(x_cells);
        }
        proof {
            assert(line_marker_columns(line@, (i + 1) as nat) == line_marker_columns(line@, i as nat)
                + if grid_vertical_marker(line@[i as int]) {
                seq![cell_offset(line@, i as nat) as usize]
            } else {
                seq![]
            });
            if grid_vertical_marker(ch) {
                assert(start + line_marker_columns(line@, (i + 1) as nat) =~= (start
                    + line_marker_columns(line@, i as nat)).push(x_cells));
            } else {
                assert(start + line_marker_columns(line@, (i + 1) as nat) =~= start
                    + line_marker_columns(line@, i as nat));
            }
        }
        let w = display_width_char(ch);
        x_cells = x_cells.saturating_add(w);
        i = i + 1;
    }
}

/// Inserts `x` into the increasing sequence `v`, keeping it increasing.
fn insert_sorted(v: &mut Vec<usize>, x: usize)
    requires
        strictly_increasing(old(v)@),
        !old(v)@.contains(x),
    ensures
        strictly_increasing(final(v)@),
        forall|y: usize| final(v)@.contains(y) <==> (old(v)@.contains(y) || y == x),
{
    let mut p: usize = 0;
    while p < v.len() && v[p] < x
        invariant
            p <= v@.len(),
            forall|j: int| 0 <= j < p ==> #[trigger] v@[j] < x,
        decreases v@.len() - p,
    {
        p = p + 1;
    }
    let ghost before = v@;
    proof {
        if p < before.len() {
            assert(before[p as int] != x) by {
                if before[p as int] == x {
                    assert(before.contains(x));
                }
            }
        }
    }
    v.insert(p, x);
    proof {
        let after = v@;
        assert(after =~= before.insert(p as int, x));
        assert forall|i: int, j: int| 0 <= i < j < after.len() implies after[i] < after[j] by {
            if j < p {
            } else if j == p {
                assert(after[i] == before[i]);
            } else if i < p {
                assert(after[j] == before[j - 1]);
                assert(before[p as int] > x || p == before.len());
                if p < before.len() && j - 1 > p {
                    assert(before[p as int] < before[j - 1]);
                }
            } else if i == p {
                assert(after[j] == before[j - 1]);
                if j - 1 > p {
                    assert(before[p as int] < before[j - 1]);
                }
            } else {
                assert(after[i] == before[i - 1]);
                assert(after[j] == before[j - 1]);
            }
        }
        assert forall|y: usize| after.contains(y) <==> (before.contains(y) || y == x) by {
            if after.contains(y) {
                let k = choose|k: int| 0 <= k < after.len() && after[k] == y;
                if k < p {
                    assert(before[k] == y);
                } else if k > p {
                    assert(before[k - 1] == y);
                }
            }
            if before.contains(y) {
                let k = choose|k: int| 0 <= k < before.len() && before[k] == y;
                if k < p {
                    assert(after[k] == y);
                } else {
                    assert(after[k + 1] == y);
                }
            }
            if y == x {
                assert(after[p as int] == y);
            }
        }
    }
}

/// The columns where vertical grid markers line up in at least half of the
/// lines, in increasing order.
pub fn find_vertical_positions(lines: &[String]) -> (positions: Vec<usize>)
    ensures
        positions@ == vertical_positions_spec(lines_view(lines@)),
        strictly_increasing(positions@),
        forall|x: usize| positions@.contains(x) <==> is_grid_column(lines_view(lines@), x),
{
    let ghost g = lines_view(lines@);
    let grid = to_grid(lines);
    let mut all: Vec<usize> = Vec::new();
    let mut y: usize = 0;
    while y < grid.len()
        invariant
            y <= grid@.len(),
            grid_view(grid@) == g,
            g.len() == grid@.len(),
            all@ == marker_columns(g, y as nat),
        decreases grid@.len() - y,
    {
        assert(grid@[y as int]@ == g[y as int]);
        push_line_marker_columns(grid[y].as_slice(), &mut all);
        y = y + 1;
    }
    // How many markers sit in each column.
    let mut counts: std::collections::HashMap<usize, usize> = std::collections::HashMap::new();
    let mut i: usize = 0;
    while i < all.len()
        invariant
            i <= all@.len(),
            forall|x: usize|
                #[trigger] occurrences(all@.take(i as int), x) == if counts@.contains_key(x) {
                    counts@[x] as nat
                } else {
                    0
                },
        decreases all@.len() - i,
    {
        broadcast use vstd::std_specs::hash::group_hash_axioms;

        let x = all[i];
        let c: usize = match counts.get(&x) {
            Some(c) => *c,
            None => 0,
        };
        proof {
            crate::utils::lemma_occurrences_le(all@.take(i as int), x);
            assert(occurrences(all@.take(i as int), x) == c);
        }
        let ghost before = counts@;
        counts.insert(x, c + 1);
        proof {
            assert(counts@ == before.insert(x, (c + 1) as usize));
            assert(all@.take(i + 1).drop_last() =~= all@.take(i as int));
            assert(all@.take(i + 1).last() == x);
            assert forall|z: usize|
                #[trigger] occurrences(all@.take(i + 1), z) == if counts@.contains_key(z) {
                    counts@[z] as nat
                } else {
                    0
                } by {
                assert(occurrences(all@.take(i as int), z) == if before.contains_key(z) {
                    before[z] as nat
                } else {
                    0
                });
            }
        }
        i = i + 1;
    }
    assert(all@.take(all@.len() as int) =~= all@);
    let n = lines.len();
    let threshold = if n / 2 >= 1 {
        n / 2
    } else {
        1
    };
    let mut positions: Vec<usize> = Vec::new();
    let mut i: usize = 0;
    while i < all.len()
        invariant
            i <= all@.len(),
            all@ == marker_columns(g, g.len()),
            threshold == column_threshold(g.len()),
            strictly_increasing(positions@),
            positions_so_far(positions@, all@, i as int, g),
            forall|x: usize|
                #[trigger] occurrences(all@, x) == if counts@.contains_key(x) {
                    counts@[x] as nat
                } else {
                    0
                },
        decreases all@.len() - i,
    {
        broadcast use vstd::std_specs::hash::group_hash_axioms;

        let x = all[i];
        let c: usize = match counts.get(&x) {
            Some(c) => *c,
            None => 0,
        };
        assert(occurrences(all@, x) == c);
        let mut present = false;
        let mut k: usize = 0;
        while k < positions.len()
            invariant
                k <= positions@.len(),
                present == positions@.take(k as int).contains(x),
                i < all@.len(),
                all@ == marker_columns(g, g.len()),
                threshold == column_threshold(g.len()),
                strictly_increasing(positions@),
                positions_so_far(positions@, all@, i as int, g),
                forall|x: usize|
                    #[trigger] occurrences(all@, x) == if counts@.contains_key(x) {
                        counts@[x] as nat
                    } else {
                        0
                    },
            decreases positions@.len() - k,
        {
            proof {
                assert(positions@.take(k + 1) =~= positions@.take(k as int).push(
                    positions@[k as int],
                ));
            }
            if positions[k] == x {
                present = true;
                assert(positions@.take(k + 1)[k as int] == x);
            }
            proof {
                if positions@.take(k + 1).contains(x) && !positions@.take(k as int).contains(x) {
                    let j = choose|j: int| 0 <= j < k + 1 && #[trigger] positions@.take(k + 1)[j] == x;
                    if j < k {
                        assert(positions@.take(k as int)[j] == x);
                    }
                }
                if positions@.take(k as int).contains(x) {
                    let j = choose|j: int| 0 <= j < k && #[trigger] positions@.take(k as int)[j] == x;
                    assert(positions@.take(k + 1)[j] == x);
                }
            }
            k = k + 1;
        }
        proof {
            assert(positions@.take(k as int) =~= positions@);
        }
        let ghost pos_before = positions@;
        if c >= threshold && !present {
            insert_sorted(&mut positions, x);
        }
        proof {
            assert(is_grid_column(g, x) == (c >= threshold));
            assert forall|z: usize|
                #[trigger] positions@.contains(z) <==> (all@.take(i + 1).contains(z) && is_grid_column(
                    g,
                    z,
                )) by {
                lemma_take_push_contains(all@, i as int, z);
                assert(pos_before.contains(z) <==> (all@.take(i as int).contains(z)
                    && is_grid_column(g, z)));
                if c >= threshold && !present {
                    assert(positions@.contains(z) <==> (pos_before.contains(z) || z == x));
                } else {
                    assert(positions@ == pos_before);
                }
            }
        }
        i = i + 1;
    }
    proof {
        assert(all@.take(all@.len() as int) =~= all@);
        assert forall|x: usize| positions@.contains(x) <==> is_grid_column(g, x) by {
            if is_grid_column(g, x) {
                crate::utils::lemma_occurrences_contains(all@, x);
            }
        }
        let p = vertical_positions_spec(g);
        assert(strictly_increasing(p) && forall|x: usize| p.contains(x) <==> is_grid_column(g, x));
        lemma_increasing_unique(positions@, p);
    }
    positions
}

fn line_has_horizontal_marker(line: &[char]) -> (r: bool)
    ensures
        r == (line@.contains('\u{2500}') || exists|i: int|
            0 <= i < line@.len() && grid_horizontal_marker(#[trigger] line@[i])),
{
    let mut i: usize = 0;
    while i < line.len()
        invariant
            i <= line@.len(),
            forall|j: int| 0 <= j < i ==> !grid_horizontal_marker(#[trigger] line@[j]),
        decreases line@.len() - i,
    {
        if is_grid_horizontal_marker(line[i]) {
            return true;
        }
        i = i + 1;
    }
    proof {
        if line@.contains('\u{2500}') {
            let j = choose|j: int| 0 <= j < line@.len() && line@[j] == '\u{2500}';
            assert(grid_horizontal_marker(line@[j]));
        }
    }
    false
}

/// The indices of the lines that hold a horizontal grid marker.
pub fn find_horizontal_positions(lines: &[String]) -> (positions: Vec<usize>)
    ensures
        positions@ == horizontal_rows(lines_view(lines@), lines@.len() as nat),
{
    let ghost g = lines_view(lines@);
    let mut positions: Vec<usize> = Vec::new();
    let mut y: usize = 0;
    while y < lines.len()
        invariant
            y <= lines@.len(),
            g == lines_view(lines@),
            positions@ == horizontal_rows(g, y as nat),
        decreases lines@.len() - y,
    {
        let v = chars_of(lines[y].as_str());
        assert(v@ == g[y as int]);
        if line_has_horizontal_marker(&v) {
            positions.push(y);
        }
        proof {
            if line_has_horizontal_marker_spec(g[y as int]) {
                assert(horizontal_rows(g, (y + 1) as nat) =~= horizontal_rows(g, y as nat).push(
                    y,
                ));
            } else {
                assert(horizontal_rows(g, (y + 1) as nat) =~= horizontal_rows(g, y as nat));
            }
        }
        y = y + 1;
    }
    positions
}

pub open spec fn line_has_horizontal_marker_spec(l: Seq<char>) -> bool {
    l.contains('\u{2500}') || exists|i: int| 0 <= i < l.len() && grid_horizontal_marker(#[trigger] l[i])
}

/// Analyzes the grid of a diagram: the aligned vertical columns, the most
/// common distance between them, and the lines with horizontal strokes.
pub fn analyze_grid(lines: &[String]) -> (r: Result<GridMetrics, Error>)
    ensures
        r matches Ok(m) && m.columns@ == vertical_positions_spec(lines_view(lines@))
            && m.column_width == column_width_spec(m.columns@) && m.row_height == 1 && m.rows@
            == horizontal_rows(lines_view(lines@), lines@.len() as nat),
{
    let vertical_positions = find_vertical_positions(lines);
    let column_width = if vertical_positions.len() > 0 {
        let mut gap_list: Vec<usize> = Vec::new();
        let mut i: usize = 0;
        while i < vertical_positions.len() - 1
            invariant
                strictly_increasing(vertical_positions@),
                i < vertical_positions@.len(),
                gap_list@ == gaps(vertical_positions@).take(i as int),
            decreases vertical_positions@.len() - i,
        {
            let d = vertical_positions[i + 1] - vertical_positions[i];
            gap_list.push(d);
            proof {
                assert(gaps(vertical_positions@).take(i + 1) =~= gaps(vertical_positions@).take(
                    i as int,
                ).push(d));
            }
            i = i + 1;
        }
        proof {
            assert(gaps(vertical_positions@).take(i as int) =~= gaps(vertical_positions@));
            broadcast use vstd::laws_eq::group_laws_eq;
        }
        match most_common(gap_list.as_slice()) {
            Some(w) => w,
            None => 2,
        }
    } else {
        proof {
            assert(gaps(vertical_positions@) =~= Seq::<usize>::empty());
        }
        2
    };
    let horizontal_positions = find_horizontal_positions(lines);
    Ok(GridMetrics {
        column_width,
        row_height: 1,
        columns: vertical_positions,
        rows: horizontal_positions,
    })
}

/// Rounds `value` up to the next multiple of `grid_size`.
pub fn align_to_grid(value: usize, grid_size: usize) -> (r: usize)
    requires
        grid_size == 0 || crate::utils::align_to_grid_spec(value as nat, grid_size as nat)
            <= usize::MAX,
    ensures
        r == crate::utils::align_to_grid_spec(value as nat, grid_size as nat),
{
    if grid_size == 0 {
        return value;
    }
    let q0 = value / grid_size;
    let q = if value % grid_size == 0 {
        q0
    } else {
        proof {
            assert(q0 < usize::MAX) by (nonlinear_arith)
                requires
                    value % grid_size != 0,
                    q0 == value / grid_size,
                    grid_size > 0,
                    value <= usize::MAX,
            ;
        }
        q0 + 1
    };
    proof {
        let g = grid_size as int;
        let v = value as int;
        assert((v + g - 1) / g == v / g + if v % g == 0 {
            0int
        } else {
            1int
        }) by (nonlinear_arith)
            requires
                g > 0,
                v >= 0,
        ;
    }
    q * grid_size
}

/// A line with its trailing whitespace removed and, when the grid is wider
/// than two cells, padded with spaces up to the next multiple of the column
/// width (a line whose padded width would not fit a `usize` is only trimmed).
pub open spec fn normalize_line_spec(l: Seq<char>, column_width: usize) -> Seq<char> {
    let t = trim_end_spec(l, false);
    if column_width <= 2 {
        t
    } else {
        let w = width_of(t);
        let target = crate::utils::align_to_grid_spec(w, column_width as nat);
        if target > usize::MAX || w >= target {
            t
        } else {
            t + spaces((target - w) as nat)
        }
    }
}

pub open spec fn normalize_lines_spec(g: Seq<Seq<char>>, column_width: usize) -> Seq<Seq<char>> {
    Seq::new(g.len(), |y: int| normalize_line_spec(g[y], column_width))
}

/// Trims trailing whitespace from every line and pads lines to the grid.
pub fn normalize_whitespace(diagram: &mut ParsedDiagram, metrics: &GridMetrics) -> (r: Result<
    (),
    Error,
>)
    ensures
        r is Ok,
        lines_view(final(diagram).lines@) == normalize_lines_spec(
            lines_view(old(diagram).lines@),
            metrics.column_width,
        ),
        final(diagram).diagram_type == old(diagram).diagram_type,
{
    let ghost g = lines_view(diagram.lines@);
    let cw = metrics.column_width;
    let mut out: Vec<String> = Vec::new();
    let mut y: usize = 0;
    while y < diagram.lines.len()
        invariant
            y <= diagram.lines@.len(),
            g == lines_view(diagram.lines@),
            cw == metrics.column_width,
            lines_view(out@) == normalize_lines_spec(g, cw).take(y as int),
        decreases diagram.lines@.len() - y,
    {
        let v = chars_of(diagram.lines[y].as_str());
        assert(v@ == g[y as int]);
        let mut line = trim_end_chars(&v, false);
        if cw > 2 {
            let current_len = width_of_chars(&line);
            proof {
                crate::utils::lemma_align_to_grid_bounds(current_len as nat, cw as nat);
            }
            let q0 = current_len / cw;
            let q = if current_len % cw == 0 {
                q0
            } else {
                proof {
                    assert(q0 < usize::MAX) by (nonlinear_arith)
                        requires
                            current_len % cw != 0,
                            q0 == current_len / cw,
                            cw > 0,
                            current_len <= usize::MAX,
                    ;
                }
                q0 + 1
            };
            proof {
                let g2 = cw as int;
                let v2 = current_len as int;
                assert((v2 + g2 - 1) / g2 == v2 / g2 + if v2 % g2 == 0 {
                    0int
                } else {
                    1int
                }) by (nonlinear_arith)
                    requires
                        g2 > 0,
                        v2 >= 0,
                ;
                assert(q <= usize::MAX / cw <==> q * cw <= usize::MAX) by (nonlinear_arith)
                    requires
                        cw > 0,
                ;
            }
            if q <= usize::MAX / cw {
                let target_len = align_to_grid(current_len, cw);
                if current_len < target_len {
                    push_spaces(&mut line, target_len - current_len);
                }
            }
        }
        let s = string_of(&line);
        let ghost before = out@;
        out.push(s);
        proof {
            assert(lines_view(out@) =~= lines_view(before).push(s@));
            assert(normalize_lines_spec(g, cw).take(y + 1) =~= normalize_lines_spec(g, cw).take(
                y as int,
            ).push(normalize_line_spec(g[y as int], cw)));
        }
        y = y + 1;
    }
    proof {
        assert(normalize_lines_spec(g, cw).take(y as int) =~= normalize_lines_spec(g, cw));
    }
    diagram.lines = out;
    Ok(())
}

} // verus!

verus! {

pub open spec fn border_char(c: char) -> bool {
    c == '\u{2502}' || c == '\u{2551}' || c == '|'
}

fn is_vertical_border(ch: char) -> (r: bool)
    ensures
        r == border_char(ch),
{
    ch == '\u{2502}' || ch == '\u{2551}' || ch == '|'
}

/// The number of leading spaces and tabs of `line`.
pub fn leading_whitespace_len(line: &str) -> (r: usize)
    ensures
        r == lead_len(line@, true),
{
    let v = chars_of(line);
    leading_len(&v, true)
}

/// `rm` with positions `lo..=hi` marked.
pub open spec fn mark_range(rm: Seq<bool>, lo: int, hi: int) -> Seq<bool> {
    Seq::new(rm.len(), |j: int| if lo <= j <= hi { true } else { rm[j] })
}

pub open spec fn min_nat(a: nat, b: nat) -> nat {
    if a <= b {
        a
    } else {
        b
    }
}

/// The first position of the run of unmarked spaces that ends at `i`,
/// looking no further left than `min + 1`.
pub open spec fn run_start_spec(chars: Seq<char>, rm: Seq<bool>, min: int, i: int) -> int
    decreases i,
{
    if i > min && i >= 1 && chars[i - 1] == ' ' && !rm[i - 1] {
        run_start_spec(chars, rm, min, i - 1)
    } else {
        i
    }
}

/// The last position of the run of unmarked spaces that starts at `i`.
pub open spec fn run_end_spec(chars: Seq<char>, rm: Seq<bool>, i: int) -> int
    decreases chars.len() - i,
{
    if 0 <= i && i + 1 < chars.len() && chars[i + 1] == ' ' && !rm[i + 1] {
        run_end_spec(chars, rm, i + 1)
    } else {
        i
    }
}

/// Scanning leftwards from `i`: every run of unmarked spaces that touches a
/// vertical border on its right (and, unless `allow`, does not touch one on its
/// left, and does not reach back to `min`) gives up spaces from its right end
/// until `ex` spaces have been marked.
pub open spec fn before_pass(
    chars: Seq<char>,
    rm: Seq<bool>,
    min: int,
    ex: nat,
    allow: bool,
    i: int,
) -> (Seq<bool>, nat)
    decreases i + 1,
{
    if ex == 0 || i < min || i < 0 || i + 1 >= chars.len() {
        (rm, ex)
    } else if rm[i] || chars[i] != ' ' || !border_char(chars[i + 1]) {
        before_pass(chars, rm, min, ex, allow, i - 1)
    } else {
        let rs = run_start_spec(chars, rm, min, i);
        if rs <= min || rs < 1 || rs > i || (!allow && border_char(chars[rs - 1])) {
            before_pass(chars, rm, min, ex, allow, i - 1)
        } else {
            let k = min_nat(ex, (i - rs + 1) as nat);
            before_pass(chars, mark_range(rm, i - k + 1, i), min, (ex - k) as nat, allow, rs - 1)
        }
    }
}

/// Scanning rightwards from `i`: every run of unmarked spaces that follows a
/// vertical border (and, unless `allow`, is not followed by one, and does not
/// reach the end of the line) gives up spaces from its left end until `ex`
/// spaces have been marked.
pub open spec fn after_pass(chars: Seq<char>, rm: Seq<bool>, ex: nat, allow: bool, i: int) -> (
    Seq<bool>,
    nat,
)
    decreases chars.len() - i,
{
    if ex == 0 || i < 0 || i >= chars.len() {
        (rm, ex)
    } else if rm[i] || chars[i] != ' ' || !(i > 0 && border_char(chars[i - 1])) {
        after_pass(chars, rm, ex, allow, i + 1)
    } else {
        let re = run_end_spec(chars, rm, i);
        if re + 1 >= chars.len() {
            (rm, ex)
        } else if re < i {
            after_pass(chars, rm, ex, allow, i + 1)
        } else if !allow && border_char(chars[re + 1]) {
            after_pass(chars, rm, ex, allow, re + 1)
        } else {
            let k = min_nat(ex, (re - i + 1) as nat);
            after_pass(chars, mark_range(rm, i, i + k - 1), (ex - k) as nat, allow, re + 1)
        }
    }
}

pub open spec fn before_full(chars: Seq<char>, rm: Seq<bool>, min: int, ex: nat, allow: bool) -> (
    Seq<bool>,
    nat,
) {
    if ex == 0 || chars.len() < min + 2 {
        (rm, ex)
    } else {
        before_pass(chars, rm, min, ex, allow, chars.len() - 2)
    }
}

pub open spec fn after_full(chars: Seq<char>, rm: Seq<bool>, min: int, ex: nat, allow: bool) -> (
    Seq<bool>,
    nat,
) {
    if ex == 0 || chars.len() < min + 2 {
        (rm, ex)
    } else {
        after_pass(chars, rm, ex, allow, min)
    }
}

/// The spaces marked for removal, and the excess left over, when `ex` cells
/// must be taken out of a line whose indentation ends at `min`: first spaces
/// before and after borders that do not sit between two borders, then any
/// spaces next to borders.
pub open spec fn removals_spec(chars: Seq<char>, min: int, ex: nat) -> (Seq<bool>, nat) {
    let rm0 = Seq::new(chars.len(), |j: int| false);
    let s1 = before_full(chars, rm0, min, ex, false);
    let s2 = after_full(chars, s1.0, min, s1.1, false);
    let s3 = before_full(chars, s2.0, min, s2.1, true);
    after_full(chars, s3.0, min, s3.1, true)
}

/// The characters of `chars` that are not marked.
pub open spec fn keep_unmarked(chars: Seq<char>, rm: Seq<bool>) -> Seq<char>
    decreases chars.len(),
{
    if chars.len() == 0 {
        seq![]
    } else {
        keep_unmarked(chars.drop_last(), rm.drop_last()) + if rm.last() {
            seq![]
        } else {
            seq![chars.last()]
        }
    }
}

proof fn lemma_run_start(chars: Seq<char>, rm: Seq<bool>, min: int, i: int)
    requires
        0 <= min <= i < chars.len(),
        rm.len() == chars.len(),
    ensures
        min <= run_start_spec(chars, rm, min, i) <= i,
        forall|j: int|
            run_start_spec(chars, rm, min, i) <= j < i ==> chars[j] == ' ' && !rm[j],
    decreases i,
{
    if i > min && i >= 1 && chars[i - 1] == ' ' && !rm[i - 1] {
        lemma_run_start(chars, rm, min, i - 1);
    }
}

proof fn lemma_run_end(chars: Seq<char>, rm: Seq<bool>, i: int)
    requires
        0 <= i < chars.len(),
        rm.len() == chars.len(),
    ensures
        i <= run_end_spec(chars, rm, i) < chars.len(),
        forall|j: int| i < j <= run_end_spec(chars, rm, i) ==> chars[j] == ' ' && !rm[j],
    decreases chars.len() - i,
{
    if i + 1 < chars.len() && chars[i + 1] == ' ' && !rm[i + 1] {
        lemma_run_end(chars, rm, i + 1);
    }
}

/// Marks positions `lo..=hi` of `remove`.
fn mark_positions(remove: &mut Vec<bool>, lo: usize, hi: usize)
    requires
        lo <= hi + 1,
        hi < old(remove)@.len(),
    ensures
        final(remove)@ == mark_range(old(remove)@, lo as int, hi as int),
{
    let ghost start = remove@;
    let mut j: usize = lo;
    while j <= hi
        invariant
            lo <= j <= hi + 1,
            hi < start.len(),
            hi < remove.len(),
            remove@ == mark_range(start, lo as int, j - 1),
        decreases hi + 1 - j,
    {
        remove.set(j, true);
        proof {
            assert(remove@ =~= mark_range(start, lo as int, j as int));
        }
        j = j + 1;
    }
}

/// Marks spaces just before vertical borders (see `before_pass`).
pub fn remove_spaces_before_vertical_border(
    chars: &[char],
    remove: &mut Vec<bool>,
    min_index: usize,
    excess: &mut usize,
    allow_border_left: bool,
)
    requires
        old(remove)@.len() == chars@.len(),
    ensures
        final(remove)@.len() == chars@.len(),
        (final(remove)@, *final(excess) as nat) == before_full(
            chars@,
            old(remove)@,
            min_index as int,
            *old(excess) as nat,
            allow_border_left,
        ),
{
    if *excess == 0 {
        return;
    }
    if chars.len() < 2 || chars.len() - 2 < min_index {
        return;
    }
    let ghost c = chars@;
    let ghost min = min_index as int;
    let ghost target = before_full(c, remove@, min, *excess as nat, allow_border_left);
    let mut i: usize = chars.len() - 2;
    loop
        invariant
            c == chars@,
            min == min_index as int,
            remove@.len() == c.len(),
            i + 2 <= c.len(),
            before_pass(c, remove@, min, *excess as nat, allow_border_left, i as int) == target,
            target == before_full(
                chars@,
                old(remove)@,
                min_index as int,
                *old(excess) as nat,
                allow_border_left,
            ),
        ensures
            remove@.len() == c.len(),
            (remove@, *excess as nat) == target,
        decreases i,
    {
        if *excess == 0 || i < min_index {
            return;
        }
        if remove[i] || chars[i] != ' ' || !is_vertical_border(chars[i + 1]) {
            if i == 0 {
                assert(before_pass(c, remove@, min, *excess as nat, allow_border_left, -1) == (
                remove@, *excess as nat));
                return;
            }
            i = i - 1;
            continue;
        }
        let mut run_start = i;
        while run_start > min_index && chars[run_start - 1] == ' ' && !remove[run_start - 1]
            invariant
                min_index <= run_start <= i,
                min == min_index as int,
                i < c.len(),
                c == chars@,
                remove@.len() == c.len(),
                run_start_spec(c, remove@, min, run_start as int) == run_start_spec(
                    c,
                    remove@,
                    min,
                    i as int,
                ),
            decreases run_start,
        {
            run_start = run_start - 1;
        }
        proof {
            lemma_run_start(c, remove@, min, i as int);
        }
        if run_start == min_index || (!allow_border_left && is_vertical_border(
            chars[run_start - 1],
        )) {
            if i == 0 {
                assert(before_pass(c, remove@, min, *excess as nat, allow_border_left, -1) == (
                remove@, *excess as nat));
                return;
            }
            i = i - 1;
            continue;
        }
        let run_len = i - run_start + 1;
        let k = if *excess <= run_len {
            *excess
        } else {
            run_len
        };
        mark_positions(remove, i + 1 - k, i);
        *excess = *excess - k;
        i = run_start - 1;
    }
}

/// Marks spaces just after vertical borders (see `after_pass`).
pub fn remove_spaces_after_vertical_border(
    chars: &[char],
    remove: &mut Vec<bool>,
    min_index: usize,
    excess: &mut usize,
    allow_border_right: bool,
)
    requires
        old(remove)@.len() == chars@.len(),
    ensures
        final(remove)@.len() == chars@.len(),
        (final(remove)@, *final(excess) as nat) == after_full(
            chars@,
            old(remove)@,
            min_index as int,
            *old(excess) as nat,
            allow_border_right,
        ),
{
    if *excess == 0 {
        return;
    }
    if chars.len() < 2 || chars.len() - 2 < min_index {
        return;
    }
    let ghost c = chars@;
    let ghost target = after_full(c, remove@, min_index as int, *excess as nat, allow_border_right);
    let mut i: usize = min_index;
    loop
        invariant
            c == chars@,
            remove@.len() == c.len(),
            i <= c.len(),
            after_pass(c, remove@, *excess as nat, allow_border_right, i as int) == target,
            target == after_full(
                chars@,
                old(remove)@,
                min_index as int,
                *old(excess) as nat,
                allow_border_right,
            ),
        ensures
            remove@.len() == c.len(),
            (remove@, *excess as nat) == target,
        decreases c.len() - i,
    {
        if *excess == 0 || i >= chars.len() {
            return;
        }
        if remove[i] || chars[i] != ' ' || !(i > 0 && is_vertical_border(chars[i - 1])) {
            i = i + 1;
            continue;
        }
        let mut run_end = i;
        while run_end < chars.len() - 1 && chars[run_end + 1] == ' ' && !remove[run_end + 1]
            invariant
                i <= run_end < c.len(),
                c == chars@,
                remove@.len() == c.len(),
                run_end_spec(c, remove@, run_end as int) == run_end_spec(c, remove@, i as int),
            decreases c.len() - run_end,
        {
            run_end = run_end + 1;
        }
        proof {
            lemma_run_end(c, remove@, i as int);
        }
        if run_end >= chars.len() - 1 {
            i = run_end + 1;
            continue;
        }
        if !allow_border_right && is_vertical_border(chars[run_end + 1]) {
            i = run_end + 1;
            continue;
        }
        let run_len = run_end - i + 1;
        let k = if *excess <= run_len {
            *excess
        } else {
            run_len
        };
        mark_positions(remove, i, i + k - 1);
        *excess = *excess - k;
        i = run_end + 1;
    }
}

/// Marks the spaces to remove so that a line loses `excess` cells.
fn mark_padding_removals(chars: &[char], min_index: usize, excess: &mut usize) -> (remove: Vec<
    bool,
>)
    ensures
        (remove@, *final(excess) as nat) == removals_spec(chars@, min_index as int, *old(excess) as nat),
{
    let mut remove: Vec<bool> = Vec::new();
    let mut j: usize = 0;
    while j < chars.len()
        invariant
            j <= chars@.len(),
            remove@ == Seq::new(j as nat, |k: int| false),
        decreases chars@.len() - j,
    {
        remove.push(false);
        proof {
            assert(remove@ =~= Seq::new((j + 1) as nat, |k: int| false));
        }
        j = j + 1;
    }
    remove_spaces_before_vertical_border(chars, &mut remove, min_index, excess, false);
    remove_spaces_after_vertical_border(chars, &mut remove, min_index, excess, false);
    remove_spaces_before_vertical_border(chars, &mut remove, min_index, excess, true);
    remove_spaces_after_vertical_border(chars, &mut remove, min_index, excess, true);
    remove
}

} // verus!

verus! {

/// The widths (those above zero) of the first `k` lines indented by `indent`
/// blanks, in line order.
pub open spec fn group_widths(g: Seq<Seq<char>>, indent: nat, k: nat) -> Seq<usize>
    decreases k,
{
    if k == 0 {
        seq![]
    } else {
        group_widths(g, indent, (k - 1) as nat) + if lead_len(g[k - 1], true) == indent && width_of(
            g[k - 1],
        ) > 0 {
            seq![width_of(g[k - 1]) as usize]
        } else {
            seq![]
        }
    }
}

/// A line made `excess` cells narrower by removing padding next to borders,
/// or kept as it is when no padding could be removed.
pub open spec fn shrink_line_spec(l: Seq<char>, indent: nat, excess: nat) -> Seq<char> {
    let (rm, left) = removals_spec(l, indent as int, excess);
    if left == excess {
        l
    } else {
        keep_unmarked(l, rm)
    }
}

/// A line wider than the most common width of the lines with its indentation
/// is shrunk toward that width.
pub open spec fn shrink_one_spec(g: Seq<Seq<char>>, y: int) -> Seq<char> {
    let l = g[y];
    let indent = lead_len(l, true);
    match most_common_spec(group_widths(g, indent, g.len())) {
        None => l,
        Some(target) => if width_of(l) <= target {
            l
        } else {
            shrink_line_spec(l, indent, (width_of(l) - target) as nat)
        },
    }
}

pub open spec fn shrink_lines_spec(g: Seq<Seq<char>>) -> Seq<Seq<char>> {
    Seq::new(g.len(), |y: int| shrink_one_spec(g, y))
}

fn keep_unmarked_chars(chars: &[char], remove: &[bool]) -> (r: Vec<char>)
    requires
        remove@.len() == chars@.len(),
    ensures
        r@ == keep_unmarked(chars@, remove@),
{
    let mut out: Vec<char> = Vec::new();
    let mut i: usize = 0;
    while i < chars.len()
        invariant
            i <= chars@.len(),
            remove@.len() == chars@.len(),
            out@ == keep_unmarked(chars@.take(i as int), remove@.take(i as int)),
        decreases chars@.len() - i,
    {
        proof {
            assert(chars@.take(i + 1).drop_last() =~= chars@.take(i as int));
            assert(remove@.take(i + 1).drop_last() =~= remove@.take(i as int));
        }
        if !remove[i] {
            out.push(chars[i]);
        }
        i = i + 1;
    }
    proof {
        assert(chars@.take(i as int) =~= chars@);
        assert(remove@.take(i as int) =~= remove@);
    }
    out
}

/// Line `y` of the grid shrunk toward the most common width of its group.
fn shrink_line_in_group(grid: &[Vec<char>], indent: usize, widths: &[usize], lengths: &[usize], y: usize) -> (r: Vec<char>)
    requires
        y < grid@.len(),
        widths@.len() == grid@.len(),
        indent == lead_len(grid_view(grid@)[y as int], true),
        forall|j: int| 0 <= j < grid@.len() ==> #[trigger] widths@[j] == width_of(grid_view(grid@)[j]),
        lengths@ == group_widths(grid_view(grid@), indent as nat, grid@.len() as nat),
    ensures
        r@ == shrink_one_spec(grid_view(grid@), y as int),
{
    let ghost g = grid_view(grid@);
    proof {
        broadcast use vstd::laws_eq::group_laws_eq;
    }
    let target = most_common(lengths);
    let line = &grid[y];
    assert(line@ == g[y as int]);
    let new_line: Vec<char> = match target {
        None => slice_chars(line.as_slice(), 0, line.len()),
        Some(target_len) => {
            let line_len = widths[y];
            if line_len <= target_len {
                slice_chars(line.as_slice(), 0, line.len())
            } else {
                let mut excess = line_len - target_len;
                let remove = mark_padding_removals(line.as_slice(), indent, &mut excess);
                if excess == line_len - target_len {
                    slice_chars(line.as_slice(), 0, line.len())
                } else {
                    proof {
                        crate::grid::lemma_removals_len(line@, indent as int, (line_len - target_len) as nat);
                    }
                    keep_unmarked_chars(line.as_slice(), remove.as_slice())
                }
            }
        },
    };
    proof {
        assert(line@.subrange(0, line@.len() as int) =~= line@);
    }
    new_line
}

/// Shrink lines that overflow a box by trimming padding next to vertical borders.
///
/// Lines are grouped by their indentation; a line wider than the most common
/// width of its group loses spaces next to vertical borders, as many as it
/// exceeds that width by (or fewer, when there is not enough padding).
pub fn shrink_overflowing_box_lines(diagram: &mut ParsedDiagram) -> (r: Result<(), Error>)
    ensures
        r is Ok,
        lines_view(final(diagram).lines@) == shrink_lines_spec(lines_view(old(diagram).lines@)),
        final(diagram).diagram_type == old(diagram).diagram_type,
{
    let grid = to_grid(diagram.lines.as_slice());
    let ghost g = grid_view(grid@);
    let mut indents: Vec<usize> = Vec::new();
    let mut widths: Vec<usize> = Vec::new();
    let mut k: usize = 0;
    while k < grid.len()
        invariant
            k <= grid@.len(),
            g == grid_view(grid@),
            indents@.len() == k,
            widths@.len() == k,
            forall|j: int| 0 <= j < k ==> #[trigger] indents@[j] == lead_len(g[j], true),
            forall|j: int| 0 <= j < k ==> #[trigger] widths@[j] == width_of(g[j]),
        decreases grid@.len() - k,
    {
        assert(grid@[k as int]@ == g[k as int]);
        indents.push(leading_len(grid[k].as_slice(), true));
        widths.push(width_of_chars(grid[k].as_slice()));
        k = k + 1;
    }
    // The widths of the lines of each indentation, in line order.
    let mut groups: std::collections::HashMap<usize, Vec<usize>> = std::collections::HashMap::new();
    let mut k: usize = 0;
    while k < grid.len()
        invariant
            k <= grid@.len(),
            g == grid_view(grid@),
            indents@.len() == grid@.len(),
            widths@.len() == grid@.len(),
            forall|j: int| 0 <= j < grid@.len() ==> #[trigger] indents@[j] == lead_len(g[j], true),
            forall|j: int| 0 <= j < grid@.len() ==> #[trigger] widths@[j] == width_of(g[j]),
            forall|ind: usize|
                #[trigger] group_widths(g, ind as nat, k as nat) == if groups@.contains_key(ind) {
                    groups@[ind]@
                } else {
                    Seq::<usize>::empty()
                },
        decreases grid@.len() - k,
    {
        broadcast use vstd::std_specs::hash::group_hash_axioms;

        let ind = indents[k];
        let ghost before = groups@;
        if widths[k] > 0 {
            let mut list: Vec<usize> = match groups.get(&ind) {
                Some(l) => l.clone(),
                None => Vec::new(),
            };
            assert(list@ == group_widths(g, ind as nat, k as nat));
            list.push(widths[k]);
            let ghost lv = list@;
            groups.insert(ind, list);
            assert(groups@ == before.insert(ind, list));
            assert(groups@.contains_key(ind) && groups@[ind]@ == lv);
        }
        let ghost kk = k;
        k = k + 1;
        proof {
            assert forall|i2: usize|
                #[trigger] group_widths(g, i2 as nat, k as nat) == if groups@.contains_key(i2) {
                    groups@[i2]@
                } else {
                    Seq::<usize>::empty()
                } by {
                assert(group_widths(g, i2 as nat, kk as nat) == if before.contains_key(i2) {
                    before[i2]@
                } else {
                    Seq::<usize>::empty()
                });
                if i2 != ind || widths@[kk as int] == 0 {
                    assert(groups@.contains_key(i2) == before.contains_key(i2));
                    assert(groups@.contains_key(i2) ==> groups@[i2] == before[i2]);
                }
                if i2 == ind && widths@[kk as int] > 0 {
                    assert(group_widths(g, i2 as nat, k as nat) =~= group_widths(
                        g,
                        i2 as nat,
                        kk as nat,
                    ).push(widths@[kk as int]));
                } else {
                    assert(group_widths(g, i2 as nat, k as nat) =~= group_widths(
                        g,
                        i2 as nat,
                        kk as nat,
                    ));
                }
            }
        }
    }
    let mut out: Vec<Vec<char>> = Vec::new();
    let mut y: usize = 0;
    while y < grid.len()
        invariant
            y <= grid@.len(),
            g == grid_view(grid@),
            indents@.len() == grid@.len(),
            widths@.len() == grid@.len(),
            forall|j: int| 0 <= j < grid@.len() ==> #[trigger] indents@[j] == lead_len(g[j], true),
            forall|j: int| 0 <= j < grid@.len() ==> #[trigger] widths@[j] == width_of(g[j]),
            forall|ind: usize|
                #[trigger] group_widths(g, ind as nat, grid@.len() as nat) == if groups@.contains_key(ind) {
                    groups@[ind]@
                } else {
                    Seq::<usize>::empty()
                },
            grid_view(out@) == shrink_lines_spec(g).take(y as int),
        decreases grid@.len() - y,
    {
        broadcast use vstd::std_specs::hash::group_hash_axioms;

        let ind = indents[y];
        let empty: Vec<usize> = Vec::new();
        let lengths: &Vec<usize> = match groups.get(&ind) {
            Some(l) => l,
            None => &empty,
        };
        assert(lengths@ == group_widths(g, ind as nat, grid@.len() as nat));
        let new_line = shrink_line_in_group(grid.as_slice(), ind, widths.as_slice(), lengths.as_slice(), y);
        let ghost before = out@;
        out.push(new_line);
        proof {
            assert(grid_view(out@) =~= grid_view(before).push(new_line@));
            assert(shrink_lines_spec(g).take(y + 1) =~= shrink_lines_spec(g).take(y as int).push(
                shrink_lines_spec(g)[y as int],
            ));
        }
        y = y + 1;
    }
    proof {
        assert(shrink_lines_spec(g).take(y as int) =~= shrink_lines_spec(g));
    }
    diagram.lines = crate::text::from_grid(out.as_slice());
    Ok(())
}

proof fn lemma_before_pass_len(chars: Seq<char>, rm: Seq<bool>, min: int, ex: nat, allow: bool, i: int)
    ensures
        before_pass(chars, rm, min, ex, allow, i).0.len() == rm.len(),
    decreases i + 1,
{
    if ex == 0 || i < min || i < 0 || i + 1 >= chars.len() {
    } else if rm[i] || chars[i] != ' ' || !border_char(chars[i + 1]) {
        lemma_before_pass_len(chars, rm, min, ex, allow, i - 1);
    } else {
        let rs = run_start_spec(chars, rm, min, i);
        if rs <= min || rs < 1 || rs > i || (!allow && border_char(chars[rs - 1])) {
            lemma_before_pass_len(chars, rm, min, ex, allow, i - 1);
        } else {
            let k = min_nat(ex, (i - rs + 1) as nat);
            lemma_before_pass_len(chars, mark_range(rm, i - k + 1, i), min, (ex - k) as nat, allow, rs - 1);
        }
    }
}

proof fn lemma_after_pass_len(chars: Seq<char>, rm: Seq<bool>, ex: nat, allow: bool, i: int)
    ensures
        after_pass(chars, rm, ex, allow, i).0.len() == rm.len(),
    decreases chars.len() - i,
{
    if ex == 0 || i < 0 || i >= chars.len() {
    } else if rm[i] || chars[i] != ' ' || !(i > 0 && border_char(chars[i - 1])) {
        lemma_after_pass_len(chars, rm, ex, allow, i + 1);
    } else {
        let re = run_end_spec(chars, rm, i);
        if re + 1 >= chars.len() {
        } else if re < i {
            lemma_after_pass_len(chars, rm, ex, allow, i + 1);
        } else if !allow && border_char(chars[re + 1]) {
            lemma_after_pass_len(chars, rm, ex, allow, re + 1);
        } else {
            let k = min_nat(ex, (re - i + 1) as nat);
            lemma_after_pass_len(chars, mark_range(rm, i, i + k - 1), (ex - k) as nat, allow, re + 1);
        }
    }
}

proof fn lemma_removals_len(chars: Seq<char>, min: int, ex: nat)
    ensures
        removals_spec(chars, min, ex).0.len() == chars.len(),
{
    let rm0 = Seq::new(chars.len(), |j: int| false);
    let s1 = before_full(chars, rm0, min, ex, false);
    if !(ex == 0 || chars.len() < min + 2) {
        lemma_before_pass_len(chars, rm0, min, ex, false, chars.len() - 2);
    }
    let s2 = after_full(chars, s1.0, min, s1.1, false);
    if !(s1.1 == 0 || chars.len() < min + 2) {
        lemma_after_pass_len(chars, s1.0, s1.1, false, min);
    }
    let s3 = before_full(chars, s2.0, min, s2.1, true);
    if !(s2.1 == 0 || chars.len() < min + 2) {
        lemma_before_pass_len(chars, s2.0, min, s2.1, true, chars.len() - 2);
    }
    if !(s3.1 == 0 || chars.len() < min + 2) {
        lemma_after_pass_len(chars, s3.0, s3.1, true, min);
    }
}

} // verus!

verus! {

pub open spec fn outer_border_char(ch: char) -> bool {
    ch == '\u{2502}' || ch == '\u{2551}' || ch == '|' || ch == '+' || ch == '\u{250c}' || ch
        == '\u{2510}' || ch == '\u{2514}' || ch == '\u{2518}' || ch == '\u{251c}' || ch == '\u{2524}'
        || ch == '\u{252c}' || ch == '\u{2534}' || ch == '\u{253c}' || ch == '\u{256d}' || ch
        == '\u{256e}' || ch == '\u{2570}' || ch == '\u{256f}' || ch == '\u{2554}' || ch == '\u{2557}'
        || ch == '\u{255a}' || ch == '\u{255d}' || ch == '\u{2560}' || ch == '\u{2563}' || ch
        == '\u{2566}' || ch == '\u{2569}' || ch == '\u{256c}'
}

fn is_outer_border_char(ch: char) -> (r: bool)
    ensures
        r == outer_border_char(ch),
{
    ch == '\u{2502}' || ch == '\u{2551}' || ch == '|' || ch == '+' || ch == '\u{250c}' || ch
        == '\u{2510}' || ch == '\u{2514}' || ch == '\u{2518}' || ch == '\u{251c}' || ch == '\u{2524}'
        || ch == '\u{252c}' || ch == '\u{2534}' || ch == '\u{253c}' || ch == '\u{256d}' || ch
        == '\u{256e}' || ch == '\u{2570}' || ch == '\u{256f}' || ch == '\u{2554}' || ch == '\u{2557}'
        || ch == '\u{255a}' || ch == '\u{255d}' || ch == '\u{2560}' || ch == '\u{2563}' || ch
        == '\u{2566}' || ch == '\u{2569}' || ch == '\u{256c}'
}

/// The frame of a line whose first and last non-blank characters are border
/// glyphs (and distinct positions): its indentation, the position of its
/// right border, and the display width up to and including that border.
pub struct OuterBorderInfo {
    pub indent: usize,
    pub right: usize,
    pub right_end: usize,
    pub effective_width: usize,
}

pub open spec fn border_info_spec(l: Seq<char>) -> Option<(nat, nat, nat)> {
    let f = lead_len(l, true);
    let k = kept_len(l, true);
    if k == 0 || f >= l.len() || f + 1 >= k {
        None
    } else if !outer_border_char(l[f as int]) || !outer_border_char(l[k - 1]) {
        None
    } else {
        Some((f, (k - 1) as nat, width_of(l.take(k as int))))
    }
}

pub open spec fn info_matches(info: Option<OuterBorderInfo>, l: Seq<char>) -> bool {
    match border_info_spec(l) {
        None => info is None,
        Some((indent, right, w)) => info matches Some(i) && i.indent == indent && i.right == right
            && i.right_end == right + 1 && i.effective_width == w,
    }
}

fn outer_border_info(line: &[char]) -> (r: Option<OuterBorderInfo>)
    ensures
        info_matches(r, line@),
{
    let f = leading_len(line, true);
    let k = kept_length(line, true);
    proof {
        crate::text::lemma_lead_len(line@, true);
        crate::text::lemma_kept_len(line@, true);
    }
    if k == 0 || f >= line.len() || f + 1 >= k {
        return None;
    }
    if !is_outer_border_char(line[f]) || !is_outer_border_char(line[k - 1]) {
        return None;
    }
    let prefix = slice_chars(line, 0, k);
    let effective_width = width_of_chars(&prefix);
    Some(OuterBorderInfo { indent: f, right: k - 1, right_end: k, effective_width })
}

/// An inner vertical border just left of the outer right border (separated
/// from it by at most `max_trailing` blanks, and right of the indentation).
pub open spec fn inner_border_spec(l: Seq<char>, indent: nat, right: nat, max_trailing: nat) -> Option<nat> {
    let prefix = l.take(right as int);
    let t = kept_len(prefix, true);
    if t == prefix.len() || (prefix.len() - t) > max_trailing || t == 0 {
        None
    } else if t - 1 <= indent {
        None
    } else if border_char(prefix[t - 1]) {
        Some((t - 1) as nat)
    } else {
        None
    }
}

fn trailing_inner_vertical_border(
    line: &[char],
    indent: usize,
    outer_right: usize,
    max_trailing_padding: usize,
) -> (r: Option<usize>)
    requires
        outer_right <= line@.len(),
    ensures
        r == match inner_border_spec(line@, indent as nat, outer_right as nat, max_trailing_padding as nat) {
            Some(p) => Some(p as usize),
            None => None::<usize>,
        },
{
    let prefix = slice_chars(line, 0, outer_right);
    assert(prefix@ == line@.take(outer_right as int));
    let t = kept_length(&prefix, true);
    proof {
        crate::text::lemma_kept_len(prefix@, true);
    }
    if t == prefix.len() || prefix.len() - t > max_trailing_padding || t == 0 {
        return None;
    }
    if t - 1 <= indent {
        return None;
    }
    if is_vertical_border(prefix[t - 1]) {
        Some(t - 1)
    } else {
        None
    }
}

pub open spec fn pad_stroke(c: char) -> bool {
    c == '\u{2500}' || c == '\u{2550}' || c == '-' || c == '_' || c == '='
}

/// A framed line widened to `target` cells: the padding goes before an inner
/// vertical border near the right edge (as spaces), or else before the outer
/// right border (repeating the stroke just before it, or spaces). Anything
/// after the right border is dropped.
pub open spec fn widen_line_spec(l: Seq<char>, target: nat) -> Seq<char> {
    match border_info_spec(l) {
        None => l,
        Some((indent, right, w)) => if w >= target {
            l
        } else {
            let pad = (target - w) as nat;
            match inner_border_spec(l, indent, right, 4) {
                Some(p) => l.take(p as int) + crate::text::repeat_char(' ', pad) + l.subrange(
                    p as int,
                    right + 1int,
                ),
                None => {
                    let before = l[right - 1];
                    let c = if pad_stroke(before) {
                        before
                    } else {
                        ' '
                    };
                    l.take(right as int) + crate::text::repeat_char(c, pad) + l.subrange(
                        right as int,
                        right + 1int,
                    )
                },
            }
        },
    }
}

/// The widest framed line of a group.
pub open spec fn frame_width(ls: Seq<Seq<char>>) -> nat
    decreases ls.len(),
{
    if ls.len() == 0 {
        0
    } else {
        let rest = frame_width(ls.drop_last());
        match border_info_spec(ls.last()) {
            Some((_, _, w)) => if w > rest {
                w
            } else {
                rest
            },
            None => rest,
        }
    }
}

/// Every framed line of a group widened to the widest one.
pub open spec fn align_range_spec(ls: Seq<Seq<char>>) -> Seq<Seq<char>> {
    if frame_width(ls) == 0 {
        ls
    } else {
        Seq::new(ls.len(), |j: int| widen_line_spec(ls[j], frame_width(ls)))
    }
}

pub open spec fn framed_with_indent(l: Seq<char>, indent: nat) -> bool {
    match border_info_spec(l) {
        Some((ind, _, _)) => ind == indent,
        None => false,
    }
}

/// The end of the run of framed lines with indentation `indent` from `i` on.
pub open spec fn frame_run_end(g: Seq<Seq<char>>, i: int, indent: nat) -> int
    decreases g.len() - i,
{
    if 0 <= i < g.len() && framed_with_indent(g[i], indent) {
        frame_run_end(g, i + 1, indent)
    } else {
        i
    }
}

/// The lines from `i` on, with every run of framed lines that share their
/// indentation aligned to the run's widest line.
pub open spec fn align_borders_from(g: Seq<Seq<char>>, i: int) -> Seq<Seq<char>>
    decreases g.len() - i,
{
    if i < 0 || i >= g.len() {
        seq![]
    } else {
        match border_info_spec(g[i]) {
            None => seq![g[i]] + align_borders_from(g, i + 1),
            Some((indent, _, _)) => {
                let e = frame_run_end(g, i + 1, indent);
                if e <= i || e > g.len() {
                    seq![g[i]] + align_borders_from(g, i + 1)
                } else {
                    align_range_spec(g.subrange(i, e)) + align_borders_from(g, e)
                }
            },
        }
    }
}

fn widen_line(line: &[char], target: usize) -> (r: Vec<char>)
    requires
        target >= 1,
    ensures
        r@ == widen_line_spec(line@, target as nat),
{
    let info = match outer_border_info(line) {
        None => return slice_chars(line, 0, line.len()),
        Some(info) => info,
    };
    proof {
        assert(line@.subrange(0, line@.len() as int) =~= line@);
        crate::text::lemma_kept_len(line@, true);
    }
    if info.effective_width >= target {
        return slice_chars(line, 0, line.len());
    }
    let pad = target - info.effective_width;
    let (insert_pos, pad_char) = match trailing_inner_vertical_border(line, info.indent, info.right, 4) {
        Some(p) => (p, ' '),
        None => {
            let before = line[info.right - 1];
            let c = if before == '\u{2500}' || before == '\u{2550}' || before == '-' || before == '_'
                || before == '=' {
                before
            } else {
                ' '
            };
            (info.right, c)
        },
    };
    proof {
        let ghost ib = inner_border_spec(line@, info.indent as nat, info.right as nat, 4);
        if ib is Some {
            crate::text::lemma_kept_len(line@.take(info.right as int), true);
        }
    }
    let mut out = slice_chars(line, 0, insert_pos);
    crate::text::push_repeat(&mut out, pad_char, pad);
    let tail = slice_chars(line, insert_pos, info.right_end);
    crate::text::push_all(&mut out, &tail);
    out
}

fn align_box_borders_in_range(lines: &[Vec<char>]) -> (r: Vec<Vec<char>>)
    ensures
        grid_view(r@) == align_range_spec(grid_view(lines@)),
{
    let ghost ls = grid_view(lines@);
    let mut target_width: usize = 0;
    let mut j: usize = 0;
    while j < lines.len()
        invariant
            j <= lines@.len(),
            ls == grid_view(lines@),
            target_width == frame_width(ls.take(j as int)),
        decreases lines@.len() - j,
    {
        proof {
            assert(ls.take(j + 1).drop_last() =~= ls.take(j as int));
            assert(lines@[j as int]@ == ls[j as int]);
        }
        match outer_border_info(lines[j].as_slice()) {
            Some(info) => {
                if info.effective_width > target_width {
                    target_width = info.effective_width;
                }
            },
            None => {},
        }
        j = j + 1;
    }
    proof {
        assert(ls.take(j as int) =~= ls);
    }
    let mut out: Vec<Vec<char>> = Vec::new();
    let mut y: usize = 0;
    while y < lines.len()
        invariant
            y <= lines@.len(),
            ls == grid_view(lines@),
            target_width == frame_width(ls),
            grid_view(out@) == align_range_spec(ls).take(y as int),
        decreases lines@.len() - y,
    {
        assert(lines@[y as int]@ == ls[y as int]);
        let new_line = if target_width == 0 {
            slice_chars(lines[y].as_slice(), 0, lines[y].len())
        } else {
            widen_line(lines[y].as_slice(), target_width)
        };
        proof {
            assert(ls[y as int].subrange(0, ls[y as int].len() as int) =~= ls[y as int]);
        }
        let ghost before = out@;
        out.push(new_line);
        proof {
            assert(grid_view(out@) =~= grid_view(before).push(new_line@));
            assert(align_range_spec(ls).take(y + 1) =~= align_range_spec(ls).take(y as int).push(
                align_range_spec(ls)[y as int],
            ));
        }
        y = y + 1;
    }
    proof {
        assert(align_range_spec(ls).take(y as int) =~= align_range_spec(ls));
    }
    out
}

/// Aligns outer box borders by normalizing line widths.
///
/// This pass is conservative: it only touches runs of consecutive lines that
/// look like box frames (first and last non-whitespace characters are border
/// glyphs). It pads inside the right border so the right edge aligns.
pub fn align_box_borders(diagram: &mut ParsedDiagram) -> (r: Result<(), Error>)
    ensures
        r is Ok,
        lines_view(final(diagram).lines@) == align_borders_from(lines_view(old(diagram).lines@), 0),
        final(diagram).diagram_type == old(diagram).diagram_type,
{
    let grid = to_grid(diagram.lines.as_slice());
    let ghost g = grid_view(grid@);
    let mut out: Vec<Vec<char>> = Vec::new();
    let mut i: usize = 0;
    while i < grid.len()
        invariant
            i <= grid@.len(),
            g == grid_view(grid@),
            grid_view(out@) + align_borders_from(g, i as int) == align_borders_from(g, 0),
        decreases grid@.len() - i,
    {
        assert(grid@[i as int]@ == g[i as int]);
        let start_info = match outer_border_info(grid[i].as_slice()) {
            None => {
                let ghost before = out@;
                out.push(slice_chars(grid[i].as_slice(), 0, grid[i].len()));
                proof {
                    assert(g[i as int].subrange(0, g[i as int].len() as int) =~= g[i as int]);
                    assert(grid_view(out@) =~= grid_view(before).push(g[i as int]));
                    assert(grid_view(out@) + align_borders_from(g, i + 1) =~= grid_view(before)
                        + align_borders_from(g, i as int));
                }
                i = i + 1;
                continue;
            },
            Some(info) => info,
        };
        let start = i;
        let indent = start_info.indent;
        i = i + 1;
        loop
            invariant
                start < i <= grid@.len(),
                g == grid_view(grid@),
                frame_run_end(g, i as int, indent as nat) == frame_run_end(g, start + 1, indent as nat),
            ensures
                start < i <= grid@.len(),
                i as int == frame_run_end(g, start + 1, indent as nat),
            decreases grid@.len() - i,
        {
            if i >= grid.len() {
                break;
            }
            assert(grid@[i as int]@ == g[i as int]);
            match outer_border_info(grid[i].as_slice()) {
                None => break,
                Some(info) => {
                    if info.indent != indent {
                        break;
                    }
                },
            }
            i = i + 1;
        }
        let end = i;
        let mut range: Vec<Vec<char>> = Vec::new();
        let mut k: usize = start;
        while k < end
            invariant
                start <= k <= end <= grid@.len(),
                g == grid_view(grid@),
                grid_view(range@) == g.subrange(start as int, k as int),
            decreases end - k,
        {
            let ghost before = range@;
            range.push(slice_chars(grid[k].as_slice(), 0, grid[k].len()));
            proof {
                assert(g[k as int].subrange(0, g[k as int].len() as int) =~= g[k as int]);
                assert(grid_view(range@) =~= grid_view(before).push(g[k as int]));
                assert(g.subrange(start as int, k + 1) =~= g.subrange(start as int, k as int).push(
                    g[k as int],
                ));
            }
            k = k + 1;
        }
        let aligned = align_box_borders_in_range(range.as_slice());
        let ghost before = out@;
        let mut m: usize = 0;
        while m < aligned.len()
            invariant
                m <= aligned@.len(),
                grid_view(out@) == grid_view(before) + grid_view(aligned@).take(m as int),
            decreases aligned@.len() - m,
        {
            let ghost b2 = out@;
            out.push(slice_chars(aligned[m].as_slice(), 0, aligned[m].len()));
            proof {
                assert(aligned@[m as int]@.subrange(0, aligned@[m as int]@.len() as int)
                    =~= aligned@[m as int]@);
                assert(grid_view(out@) =~= grid_view(b2).push(aligned@[m as int]@));
                assert(grid_view(aligned@).take(m + 1) =~= grid_view(aligned@).take(m as int).push(
                    aligned@[m as int]@,
                ));
            }
            m = m + 1;
        }
        proof {
            assert(grid_view(aligned@).take(m as int) =~= grid_view(aligned@));
            assert(grid_view(out@) + align_borders_from(g, end as int) =~= grid_view(before)
                + align_borders_from(g, start as int));
        }
    }
    proof {
        assert(grid_view(out@) =~= grid_view(out@) + align_borders_from(g, i as int));
    }
    diagram.lines = crate::text::from_grid(out.as_slice());
    Ok(())
}

} // verus!

verus! {

/// Positions `j..=k` hold spaces and a vertical border follows at `k + 1`.
pub open spec fn run_left_of_border(chars: Seq<char>, j: int, k: int) -> bool {
    &&& 0 <= j <= k
    &&& k + 1 < chars.len()
    &&& border_char(chars[k + 1])
    &&& forall|m: int| j <= m <= k ==> chars[m] == ' '
}

/// A vertical border sits at `k` and positions `k + 1..=j` hold spaces.
pub open spec fn run_right_of_border(chars: Seq<char>, k: int, j: int) -> bool {
    &&& 0 <= k < j < chars.len()
    &&& border_char(chars[k])
    &&& forall|m: int| k < m <= j ==> chars[m] == ' '
}

/// The space at `j` belongs to a run of spaces that touches a vertical border
/// (`│`, `║` or `|`) on its right or on its left.
pub open spec fn padding_space(chars: Seq<char>, j: int) -> bool {
    ||| exists|k: int| #[trigger] run_left_of_border(chars, j, k)
    ||| exists|k: int| #[trigger] run_right_of_border(chars, k, j)
}

/// Every marked position of `rm` holds a space of `chars` at or after `min`,
/// in a run of spaces next to a vertical border.
pub open spec fn marks_padding(chars: Seq<char>, rm: Seq<bool>, min: int) -> bool {
    &&& rm.len() == chars.len()
    &&& forall|j: int|
        0 <= j < rm.len() && #[trigger] rm[j] ==> chars[j] == ' ' && j >= min && padding_space(
            chars,
            j,
        )
}

proof fn lemma_before_pass_marks(chars: Seq<char>, rm: Seq<bool>, min: int, ex: nat, allow: bool, i: int)
    requires
        marks_padding(chars, rm, min),
        min >= 0,
    ensures
        marks_padding(chars, before_pass(chars, rm, min, ex, allow, i).0, min),
    decreases i + 1,
{
    if ex == 0 || i < min || i < 0 || i + 1 >= chars.len() {
    } else if rm[i] || chars[i] != ' ' || !border_char(chars[i + 1]) {
        lemma_before_pass_marks(chars, rm, min, ex, allow, i - 1);
    } else {
        let rs = run_start_spec(chars, rm, min, i);
        if rs <= min || rs < 1 || rs > i || (!allow && border_char(chars[rs - 1])) {
            lemma_before_pass_marks(chars, rm, min, ex, allow, i - 1);
        } else {
            lemma_run_start(chars, rm, min, i);
            let k = min_nat(ex, (i - rs + 1) as nat);
            let rm2 = mark_range(rm, i - k + 1, i);
            assert forall|j: int| 0 <= j < rm2.len() && #[trigger] rm2[j] implies chars[j] == ' '
                && j >= min && padding_space(chars, j) by {
                if i - k + 1 <= j <= i && !rm[j] {
                    assert(j >= rs);
                    if j < i {
                        assert(chars[j] == ' ');
                    }
                    assert(run_left_of_border(chars, j, i));
                }
            }
            lemma_before_pass_marks(chars, rm2, min, (ex - k) as nat, allow, rs - 1);
        }
    }
}

proof fn lemma_after_pass_marks(chars: Seq<char>, rm: Seq<bool>, min: int, ex: nat, allow: bool, i: int)
    requires
        marks_padding(chars, rm, min),
        i >= min,
    ensures
        marks_padding(chars, after_pass(chars, rm, ex, allow, i).0, min),
    decreases chars.len() - i,
{
    if ex == 0 || i < 0 || i >= chars.len() {
    } else if rm[i] || chars[i] != ' ' || !(i > 0 && border_char(chars[i - 1])) {
        lemma_after_pass_marks(chars, rm, min, ex, allow, i + 1);
    } else {
        lemma_run_end(chars, rm, i);
        let re = run_end_spec(chars, rm, i);
        if re + 1 >= chars.len() {
        } else if re < i {
            lemma_after_pass_marks(chars, rm, min, ex, allow, i + 1);
        } else if !allow && border_char(chars[re + 1]) {
            lemma_after_pass_marks(chars, rm, min, ex, allow, re + 1);
        } else {
            let k = min_nat(ex, (re - i + 1) as nat);
            let rm2 = mark_range(rm, i, i + k - 1);
            assert forall|j: int| 0 <= j < rm2.len() && #[trigger] rm2[j] implies chars[j] == ' '
                && j >= min && padding_space(chars, j) by {
                if i <= j <= i + k - 1 && !rm[j] {
                    if j > i {
                        assert(chars[j] == ' ');
                    }
                    assert(run_right_of_border(chars, i - 1, j));
                }
            }
            lemma_after_pass_marks(chars, rm2, min, (ex - k) as nat, allow, re + 1);
        }
    }
}

proof fn lemma_removals_marks(chars: Seq<char>, min: int, ex: nat)
    requires
        min >= 0,
    ensures
        marks_padding(chars, removals_spec(chars, min, ex).0, min),
{
    let rm0 = Seq::new(chars.len(), |j: int| false);
    let s1 = before_full(chars, rm0, min, ex, false);
    lemma_before_pass_marks(chars, rm0, min, ex, false, chars.len() - 2);
    let s2 = after_full(chars, s1.0, min, s1.1, false);
    lemma_after_pass_marks(chars, s1.0, min, s1.1, false, min);
    let s3 = before_full(chars, s2.0, min, s2.1, true);
    lemma_before_pass_marks(chars, s2.0, min, s2.1, true, chars.len() - 2);
    lemma_after_pass_marks(chars, s3.0, min, s3.1, true, min);
}

proof fn lemma_keep_unmarked_none(chars: Seq<char>, rm: Seq<bool>)
    requires
        rm.len() == chars.len(),
        forall|j: int| 0 <= j < rm.len() ==> !#[trigger] rm[j],
    ensures
        keep_unmarked(chars, rm) == chars,
    decreases chars.len(),
{
    if chars.len() > 0 {
        lemma_keep_unmarked_none(chars.drop_last(), rm.drop_last());
        assert(chars.drop_last().push(chars.last()) =~= chars);
    }
}

/// Shrinking never touches anything but padding: every line comes out as the
/// line with some of its spaces taken out, none of them in its indentation,
/// each in a run of spaces next to a vertical border (`│`, `║` or `|`).
pub proof fn lemma_shrink_removes_only_padding(g: Seq<Seq<char>>, y: int)
    requires
        0 <= y < g.len(),
    ensures
        shrink_lines_spec(g).len() == g.len(),
        exists|rm: Seq<bool>|
            marks_padding(g[y], rm, lead_len(g[y], true) as int) && #[trigger] keep_unmarked(
                g[y],
                rm,
            ) == shrink_lines_spec(g)[y],
{
    let l = g[y];
    let indent = lead_len(l, true);
    let none = Seq::new(l.len(), |j: int| false);
    lemma_keep_unmarked_none(l, none);
    assert(marks_padding(l, none, indent as int));
    match most_common_spec(group_widths(g, indent, g.len())) {
        None => {
            assert(keep_unmarked(l, none) == shrink_lines_spec(g)[y]);
        },
        Some(target) => {
            if width_of(l) <= target {
                assert(keep_unmarked(l, none) == shrink_lines_spec(g)[y]);
            } else {
                let excess = (width_of(l) - target) as nat;
                let (rm, left) = removals_spec(l, indent as int, excess);
                lemma_removals_marks(l, indent as int, excess);
                if left == excess {
                    assert(keep_unmarked(l, none) == shrink_lines_spec(g)[y]);
                } else {
                    assert(keep_unmarked(l, rm) == shrink_lines_spec(g)[y]);
                }
            }
        },
    }
}

} // verus!

verus! {

proof fn lemma_frame_run_end(g: Seq<Seq<char>>, i: int, indent: nat)
    requires
        0 <= i <= g.len(),
    ensures
        i <= frame_run_end(g, i, indent) <= g.len(),
        forall|j: int| i <= j < frame_run_end(g, i, indent) ==> framed_with_indent(#[trigger] g[j], indent),
    decreases g.len() - i,
{
    if i < g.len() && framed_with_indent(g[i], indent) {
        lemma_frame_run_end(g, i + 1, indent);
    }
}

proof fn lemma_align_borders_from(g: Seq<Seq<char>>, i: int)
    requires
        0 <= i <= g.len(),
    ensures
        align_borders_from(g, i).len() == g.len() - i,
        forall|y: int|
            i <= y < g.len() && border_info_spec(#[trigger] g[y]) is None ==> align_borders_from(
                g,
                i,
            )[y - i] == g[y],
    decreases g.len() - i,
{
    if i < g.len() {
        let r = align_borders_from(g, i);
        match border_info_spec(g[i]) {
            None => {
                lemma_align_borders_from(g, i + 1);
                assert forall|y: int|
                    i <= y < g.len() && border_info_spec(#[trigger] g[y]) is None implies r[y - i]
                    == g[y] by {
                    if y > i {
                        assert(r[y - i] == align_borders_from(g, i + 1)[y - (i + 1)]);
                    }
                }
            },
            Some((indent, _, _)) => {
                lemma_frame_run_end(g, i + 1, indent);
                let e = frame_run_end(g, i + 1, indent);
                lemma_align_borders_from(g, e);
                lemma_align_borders_from(g, i + 1);
                if e <= i || e > g.len() {
                    assert forall|y: int|
                        i <= y < g.len() && border_info_spec(#[trigger] g[y]) is None implies r[y
                        - i] == g[y] by {
                        if y > i {
                            assert(r[y - i] == align_borders_from(g, i + 1)[y - (i + 1)]);
                        }
                    }
                } else {
                    let a = align_range_spec(g.subrange(i, e));
                    assert(a.len() == e - i);
                    assert forall|y: int|
                        i <= y < g.len() && border_info_spec(#[trigger] g[y]) is None implies r[y
                        - i] == g[y] by {
                        if y < e {
                            if y > i {
                                assert(framed_with_indent(g[y], indent));
                            }
                        } else {
                            assert(r[y - i] == align_borders_from(g, e)[y - e]);
                        }
                    }
                }
            },
        }
    }
}

/// Aligning box borders keeps the number of lines and never touches a line
/// that does not look like part of a box frame (whose first and last
/// non-blank characters are not both border glyphs).
pub proof fn lemma_align_borders_keeps_unframed_lines(g: Seq<Seq<char>>, y: int)
    requires
        0 <= y < g.len(),
        border_info_spec(g[y]) is None,
    ensures
        align_borders_from(g, 0).len() == g.len(),
        align_borders_from(g, 0)[y] == g[y],
{
    lemma_align_borders_from(g, 0);
}

} // verus!

verus! {

/// How many positions of `rm` are marked.
pub open spec fn marked_count(rm: Seq<bool>) -> nat
    decreases rm.len(),
{
    if rm.len() == 0 {
        0
    } else {
        marked_count(rm.drop_last()) + if rm.last() {
            1nat
        } else {
            0nat
        }
    }
}

pub open spec fn range_overlap(lo: int, hi: int, n: int) -> int {
    if n <= lo {
        0
    } else if n <= hi + 1 {
        n - lo
    } else {
        hi + 1 - lo
    }
}

proof fn lemma_mark_range_count(rm: Seq<bool>, lo: int, hi: int, n: int)
    requires
        0 <= lo <= hi + 1,
        hi < rm.len(),
        0 <= n <= rm.len(),
        forall|j: int| lo <= j <= hi ==> !#[trigger] rm[j],
    ensures
        marked_count(mark_range(rm, lo, hi).take(n)) == marked_count(rm.take(n)) + range_overlap(
            lo,
            hi,
            n,
        ),
    decreases n,
{
    if n > 0 {
        lemma_mark_range_count(rm, lo, hi, n - 1);
        assert(mark_range(rm, lo, hi).take(n).drop_last() =~= mark_range(rm, lo, hi).take(n - 1));
        assert(rm.take(n).drop_last() =~= rm.take(n - 1));
    } else {
        assert(mark_range(rm, lo, hi).take(0) =~= rm.take(0));
    }
}

proof fn lemma_mark_range_adds(rm: Seq<bool>, lo: int, hi: int)
    requires
        0 <= lo <= hi + 1,
        hi < rm.len(),
        forall|j: int| lo <= j <= hi ==> !#[trigger] rm[j],
    ensures
        marked_count(mark_range(rm, lo, hi)) == marked_count(rm) + (hi + 1 - lo),
{
    lemma_mark_range_count(rm, lo, hi, rm.len() as int);
    assert(mark_range(rm, lo, hi).take(rm.len() as int) =~= mark_range(rm, lo, hi));
    assert(rm.take(rm.len() as int) =~= rm);
}

/// Keeps every earlier mark, and every newly marked space is counted against
/// the excess.
pub open spec fn marks_accounted(rm: Seq<bool>, ex: nat, rm2: Seq<bool>, ex2: nat) -> bool {
    &&& rm2.len() == rm.len()
    &&& forall|j: int| 0 <= j < rm.len() && #[trigger] rm[j] ==> rm2[j]
    &&& ex2 <= ex
    &&& marked_count(rm2) + ex2 == marked_count(rm) + ex
}

proof fn lemma_accounted_trans(
    rm: Seq<bool>,
    ex: nat,
    rm2: Seq<bool>,
    ex2: nat,
    rm3: Seq<bool>,
    ex3: nat,
)
    requires
        marks_accounted(rm, ex, rm2, ex2),
        marks_accounted(rm2, ex2, rm3, ex3),
    ensures
        marks_accounted(rm, ex, rm3, ex3),
{
    assert forall|j: int| 0 <= j < rm.len() && #[trigger] rm[j] implies rm3[j] by {
        assert(rm2[j]);
    }
}

proof fn lemma_before_pass_accounted(chars: Seq<char>, rm: Seq<bool>, min: int, ex: nat, allow: bool, i: int)
    requires
        rm.len() == chars.len(),
        min >= 0,
    ensures
        marks_accounted(
            rm,
            ex,
            before_pass(chars, rm, min, ex, allow, i).0,
            before_pass(chars, rm, min, ex, allow, i).1,
        ),
    decreases i + 1,
{
    if ex == 0 || i < min || i < 0 || i + 1 >= chars.len() {
    } else if rm[i] || chars[i] != ' ' || !border_char(chars[i + 1]) {
        lemma_before_pass_accounted(chars, rm, min, ex, allow, i - 1);
    } else {
        let rs = run_start_spec(chars, rm, min, i);
        if rs <= min || rs < 1 || rs > i || (!allow && border_char(chars[rs - 1])) {
            lemma_before_pass_accounted(chars, rm, min, ex, allow, i - 1);
        } else {
            lemma_run_start(chars, rm, min, i);
            let k = min_nat(ex, (i - rs + 1) as nat);
            let rm2 = mark_range(rm, i - k + 1, i);
            lemma_mark_range_adds(rm, i - k + 1, i);
            lemma_before_pass_accounted(chars, rm2, min, (ex - k) as nat, allow, rs - 1);
            let r = before_pass(chars, rm2, min, (ex - k) as nat, allow, rs - 1);
            assert(marks_accounted(rm, ex, rm2, (ex - k) as nat));
            lemma_accounted_trans(rm, ex, rm2, (ex - k) as nat, r.0, r.1);
        }
    }
}

proof fn lemma_after_pass_accounted(chars: Seq<char>, rm: Seq<bool>, ex: nat, allow: bool, i: int)
    requires
        rm.len() == chars.len(),
    ensures
        marks_accounted(
            rm,
            ex,
            after_pass(chars, rm, ex, allow, i).0,
            after_pass(chars, rm, ex, allow, i).1,
        ),
    decreases chars.len() - i,
{
    if ex == 0 || i < 0 || i >= chars.len() {
    } else if rm[i] || chars[i] != ' ' || !(i > 0 && border_char(chars[i - 1])) {
        lemma_after_pass_accounted(chars, rm, ex, allow, i + 1);
    } else {
        lemma_run_end(chars, rm, i);
        let re = run_end_spec(chars, rm, i);
        if re + 1 >= chars.len() {
        } else if re < i {
            lemma_after_pass_accounted(chars, rm, ex, allow, i + 1);
        } else if !allow && border_char(chars[re + 1]) {
            lemma_after_pass_accounted(chars, rm, ex, allow, re + 1);
        } else {
            let k = min_nat(ex, (re - i + 1) as nat);
            let rm2 = mark_range(rm, i, i + k - 1);
            lemma_mark_range_adds(rm, i, i + k - 1);
            lemma_after_pass_accounted(chars, rm2, (ex - k) as nat, allow, re + 1);
            let r = after_pass(chars, rm2, (ex - k) as nat, allow, re + 1);
            assert(marks_accounted(rm, ex, rm2, (ex - k) as nat));
            lemma_accounted_trans(rm, ex, rm2, (ex - k) as nat, r.0, r.1);
        }
    }
}

/// The removal passes of a line take out exactly as many spaces as they
/// subtract from the excess, never more than the excess, and each pass keeps
/// the marks of the passes before it.
pub proof fn lemma_removals_accounted(chars: Seq<char>, min: int, ex: nat)
    requires
        min >= 0,
    ensures
        removals_spec(chars, min, ex).1 <= ex,
        marked_count(removals_spec(chars, min, ex).0) + removals_spec(chars, min, ex).1 == ex,
{
    let rm0 = Seq::new(chars.len(), |j: int| false);
    assert(marked_count(rm0) == 0) by {
        lemma_marked_count_none(rm0);
    }
    let s1 = before_full(chars, rm0, min, ex, false);
    lemma_before_pass_accounted(chars, rm0, min, ex, false, chars.len() - 2);
    let s2 = after_full(chars, s1.0, min, s1.1, false);
    lemma_after_pass_accounted(chars, s1.0, s1.1, false, min);
    let s3 = before_full(chars, s2.0, min, s2.1, true);
    lemma_before_pass_accounted(chars, s2.0, min, s2.1, true, chars.len() - 2);
    lemma_after_pass_accounted(chars, s3.0, s3.1, true, min);
}

proof fn lemma_marked_count_none(rm: Seq<bool>)
    requires
        forall|j: int| 0 <= j < rm.len() ==> !#[trigger] rm[j],
    ensures
        marked_count(rm) == 0,
    decreases rm.len(),
{
    if rm.len() > 0 {
        lemma_marked_count_none(rm.drop_last());
    }
}

} // verus!

verus! {

/// The indentation, right border position and width of a framed line.
pub open spec fn frame_of(l: Seq<char>) -> (nat, nat, nat) {
    border_info_spec(l)->0
}

/// Narrow text: printable ASCII and box-drawing glyphs only.
pub open spec fn narrow_lines(ls: Seq<Seq<char>>) -> bool {
    forall|y: int|
        0 <= y < ls.len() ==> crate::display_width::narrow(#[trigger] ls[y]) && ls[y].len()
            <= usize::MAX
}

proof fn lemma_insert_keeps_frame(l: Seq<char>, p: int, run: Seq<char>)
    requires
        border_info_spec(l) is Some,
        lead_len(l, true) < p <= frame_of(l).1,
        crate::display_width::narrow(l),
        crate::display_width::narrow(run),
        l.len() + run.len() <= usize::MAX,
    ensures
        ({
            let (f, right, w) = frame_of(l);
            let n = l.take(p) + run + l.subrange(p, (right + 1) as int);
            &&& border_info_spec(n) == Some((f, (right + run.len()) as nat, (right + 1 + run.len()) as nat))
            &&& crate::display_width::narrow(n)
        }),
{
    let (f, right, w) = frame_of(l);
    let n = l.take(p) + run + l.subrange(p, (right + 1) as int);
    crate::text::lemma_lead_len(l, true);
    crate::text::lemma_kept_len(l, true);
    assert(n.len() == right + 1 + run.len());
    assert(n.last() == l[right as int]);
    crate::text::lemma_kept_len_unique(n, true, n.len() as int);
    assert forall|j: int| 0 <= j < f implies crate::text::strippable(#[trigger] n[j], true) by {
        assert(n[j] == l[j]);
    }
    assert(n[f as int] == l[f as int]);
    crate::text::lemma_lead_len_unique(n, true, f as int);
    assert forall|j: int| 0 <= j < n.len() implies crate::display_width::narrow_char(#[trigger] n[j]) by {
        if j < p {
            assert(n[j] == l[j]);
        } else if j < p + run.len() {
            assert(n[j] == run[j - p]);
        } else {
            assert(n[j] == l[j - run.len()]);
        }
    }
    assert(n.take(n.len() as int) =~= n);
    crate::display_width::lemma_narrow_width(n);
}

/// On narrow text, widening a framed line to `target` cells makes its frame
/// exactly `target` cells wide and keeps its indentation; a line already that
/// wide or wider is left as it is.
pub proof fn lemma_widen_line_width(l: Seq<char>, target: nat)
    requires
        border_info_spec(l) is Some,
        crate::display_width::narrow(l),
        l.len() + target <= usize::MAX,
    ensures
        frame_of(l).2 >= target ==> widen_line_spec(l, target) == l,
        frame_of(l).2 < target ==> border_info_spec(widen_line_spec(l, target)) is Some
            && frame_of(widen_line_spec(l, target)).0 == frame_of(l).0
            && frame_of(widen_line_spec(l, target)).2 == target,
        crate::display_width::narrow(widen_line_spec(l, target)),
        widen_line_spec(l, target).len() <= l.len() + target,
{
    let (f, right, w) = frame_of(l);
    crate::text::lemma_lead_len(l, true);
    crate::text::lemma_kept_len(l, true);
    assert(l.take((right + 1) as int).len() == right + 1);
    assert(crate::display_width::narrow(l.take((right + 1) as int)));
    crate::display_width::lemma_narrow_width(l.take((right + 1) as int));
    assert(w == right + 1);
    if w < target {
        let pad = (target - w) as nat;
        match inner_border_spec(l, f, right, 4) {
            Some(p) => {
                let prefix = l.take(right as int);
                crate::text::lemma_kept_len(prefix, true);
                lemma_insert_keeps_frame(l, p as int, crate::text::repeat_char(' ', pad));
            },
            None => {
                let before = l[right - 1];
                let c = if pad_stroke(before) {
                    before
                } else {
                    ' '
                };
                lemma_insert_keeps_frame(l, right as int, crate::text::repeat_char(c, pad));
                assert(l.take(right as int) + crate::text::repeat_char(c, pad) + l.subrange(
                    right as int,
                    right + 1int,
                ) == widen_line_spec(l, target));
            },
        }
    }
}

proof fn lemma_frame_width_bound(ls: Seq<Seq<char>>, y: int)
    requires
        0 <= y < ls.len(),
        border_info_spec(ls[y]) is Some,
    ensures
        frame_of(ls[y]).2 <= frame_width(ls),
    decreases ls.len(),
{
    if y < ls.len() - 1 {
        lemma_frame_width_bound(ls.drop_last(), y);
    }
}

proof fn lemma_frame_width_le(ls: Seq<Seq<char>>, bound: nat)
    requires
        forall|y: int|
            0 <= y < ls.len() && border_info_spec(#[trigger] ls[y]) is Some ==> frame_of(ls[y]).2 <= bound,
    ensures
        frame_width(ls) <= bound,
    decreases ls.len(),
{
    if ls.len() > 0 {
        lemma_frame_width_le(ls.drop_last(), bound);
    }
}

proof fn lemma_frame_width_ge(ls: Seq<Seq<char>>, y: int, v: nat)
    requires
        0 <= y < ls.len(),
        border_info_spec(ls[y]) is Some,
        frame_of(ls[y]).2 == v,
    ensures
        frame_width(ls) >= v,
{
    lemma_frame_width_bound(ls, y);
}

/// Aligning a run of narrow framed lines brings every framed line's frame to
/// the width of the widest one (keeping its indentation), leaves the other
/// lines as they are, and aligning again changes nothing.
pub proof fn lemma_align_range_aligns(ls: Seq<Seq<char>>)
    requires
        forall|y: int|
            0 <= y < ls.len() ==> crate::display_width::narrow(#[trigger] ls[y]) && ls[y].len()
                <= usize::MAX / 2,
    ensures
        align_range_spec(ls).len() == ls.len(),
        forall|y: int|
            0 <= y < ls.len() && border_info_spec(#[trigger] ls[y]) is None ==> align_range_spec(
                ls,
            )[y] == ls[y],
        forall|y: int|
            0 <= y < ls.len() && border_info_spec(#[trigger] ls[y]) is Some ==> border_info_spec(
                align_range_spec(ls)[y],
            ) is Some && frame_of(align_range_spec(ls)[y]).0 == frame_of(ls[y]).0
                && frame_of(align_range_spec(ls)[y]).2 == frame_width(ls),
        align_range_spec(align_range_spec(ls)) == align_range_spec(ls),
{
    let wmax = frame_width(ls);
    let r = align_range_spec(ls);
    assert forall|y: int| 0 <= y < ls.len() && border_info_spec(#[trigger] ls[y]) is Some implies frame_of(
        ls[y],
    ).2 <= usize::MAX / 2 by {
        let (f, right, w) = frame_of(ls[y]);
        crate::text::lemma_kept_len(ls[y], true);
        assert(crate::display_width::narrow(ls[y].take((right + 1) as int)));
        crate::display_width::lemma_narrow_width(ls[y].take((right + 1) as int));
    }
    lemma_frame_width_le(ls, (usize::MAX / 2) as nat);
    assert forall|y: int| 0 <= y < ls.len() && border_info_spec(#[trigger] ls[y]) is Some implies border_info_spec(
        r[y],
    ) is Some && frame_of(r[y]).0 == frame_of(ls[y]).0 && frame_of(r[y]).2
        == wmax by {
        lemma_frame_width_bound(ls, y);
        let (f, right, w) = frame_of(ls[y]);
        crate::text::lemma_kept_len(ls[y], true);
        assert(crate::display_width::narrow(ls[y].take((right + 1) as int)));
        crate::display_width::lemma_narrow_width(ls[y].take((right + 1) as int));
        assert(w <= ls[y].len());
        lemma_widen_line_width(ls[y], wmax);
        if w >= wmax {
            assert(w == wmax);
        }
    }
    if wmax > 0 {
        assert forall|y: int| 0 <= y < r.len() && border_info_spec(#[trigger] r[y]) is Some implies frame_of(r[y]).2 <= wmax by {
            if border_info_spec(ls[y]) is None {
                assert(r[y] == ls[y]);
            }
        }
        lemma_frame_width_le(r, wmax);
        let y0 = choose|y: int| 0 <= y < ls.len() && border_info_spec(#[trigger] ls[y]) is Some;
        if exists|y: int| 0 <= y < ls.len() && border_info_spec(#[trigger] ls[y]) is Some {
            lemma_frame_width_ge(r, y0, wmax);
        } else {
            lemma_frame_width_le(ls, 0);
        }
        assert(frame_width(r) == wmax);
        let r2 = align_range_spec(r);
        assert forall|y: int| 0 <= y < r.len() implies #[trigger] r2[y] == r[y] by {
            if border_info_spec(ls[y]) is None {
                assert(r[y] == ls[y]);
            } else {
                lemma_widen_line_width(ls[y], wmax);
            }
        }
        assert(r2 =~= r);
    }
}

} // verus!

verus! {

proof fn lemma_frame_run_end_exact(g: Seq<Seq<char>>, j: int, e: int, indent: nat)
    requires
        0 <= j <= e <= g.len(),
        forall|y: int| j <= y < e ==> framed_with_indent(#[trigger] g[y], indent),
        e == g.len() || !framed_with_indent(g[e], indent),
    ensures
        frame_run_end(g, j, indent) == e,
    decreases e - j,
{
    if j < e {
        lemma_frame_run_end_exact(g, j + 1, e, indent);
    }
}

proof fn lemma_frame_run_end_stop(g: Seq<Seq<char>>, i: int, indent: nat)
    requires
        0 <= i <= g.len(),
    ensures
        frame_run_end(g, i, indent) == g.len() || !framed_with_indent(
            g[frame_run_end(g, i, indent)],
            indent,
        ),
    decreases g.len() - i,
{
    if i < g.len() && framed_with_indent(g[i], indent) {
        lemma_frame_run_end_stop(g, i + 1, indent);
    }
}

proof fn lemma_frame_run_end_shift(g: Seq<Seq<char>>, i: int, j: int, indent: nat)
    requires
        0 <= i <= j,
        i <= g.len(),
    ensures
        frame_run_end(g.skip(i), j - i, indent) + i == frame_run_end(g, j, indent),
    decreases g.len() - j,
{
    if j < g.len() && framed_with_indent(g[j], indent) {
        assert(g.skip(i)[j - i] == g[j]);
        lemma_frame_run_end_shift(g, i, j + 1, indent);
    } else if i <= j < g.len() {
        assert(g.skip(i)[j - i] == g[j]);
    }
}

proof fn lemma_align_borders_shift(g: Seq<Seq<char>>, i: int, j: int)
    requires
        0 <= i <= j,
        i <= g.len(),
    ensures
        align_borders_from(g, j) == align_borders_from(g.skip(i), j - i),
    decreases g.len() - j,
{
    let t = g.skip(i);
    if j < g.len() {
        assert(t[j - i] == g[j]);
        lemma_align_borders_shift(g, i, j + 1);
        match border_info_spec(g[j]) {
            None => {},
            Some((indent, _, _)) => {
                lemma_frame_run_end(g, j + 1, indent);
                lemma_frame_run_end_shift(g, i, j + 1, indent);
                let e = frame_run_end(g, j + 1, indent);
                if e > j {
                    lemma_align_borders_shift(g, i, e);
                }
                assert(t.subrange(j - i, e - i) =~= g.subrange(j, e));
            },
        }
    }
}

/// Two lines framed with the same indentation.
pub open spec fn same_frame(a: Seq<char>, b: Seq<char>) -> bool {
    border_info_spec(a) is Some && border_info_spec(b) is Some && frame_of(a).0 == frame_of(b).0
}

/// Lines of printable ASCII and box-drawing glyphs, short enough to be padded.
pub open spec fn narrow_short(g: Seq<Seq<char>>) -> bool {
    forall|y: int|
        0 <= y < g.len() ==> crate::display_width::narrow(#[trigger] g[y]) && g[y].len()
            <= usize::MAX / 2
}

/// The lines `a` are the lines `g` with box borders aligned: as many lines,
/// framed lines stay framed with their indentation, adjacent framed lines
/// with the same indentation have frames of the same width, and aligning
/// again changes nothing.
pub open spec fn borders_settled(g: Seq<Seq<char>>, a: Seq<Seq<char>>) -> bool {
    &&& a.len() == g.len()
    &&& forall|y: int|
        0 <= y < g.len() ==> (border_info_spec(#[trigger] g[y]) is Some <==> border_info_spec(a[y]) is Some)
    &&& forall|y: int|
        0 <= y < g.len() && border_info_spec(#[trigger] g[y]) is Some ==> frame_of(a[y]).0 == frame_of(
            g[y],
        ).0
    &&& forall|y: int|
        0 <= y < g.len() - 1 && #[trigger] same_frame(a[y], a[y + 1]) ==> frame_of(a[y]).2 == frame_of(
            a[y + 1],
        ).2
    &&& align_borders_from(a, 0) == a
}

proof fn lemma_unframed_step(g: Seq<Seq<char>>)
    requires
        g.len() > 0,
        border_info_spec(g[0]) is None,
        borders_settled(g.skip(1), align_borders_from(g.skip(1), 0)),
    ensures
        borders_settled(g, align_borders_from(g, 0)),
{
    let a = align_borders_from(g, 0);
    let t = g.skip(1);
    lemma_align_borders_shift(g, 1, 1);
    let b = align_borders_from(t, 0);
    assert(a == seq![g[0]] + b);
    assert forall|y: int| 1 <= y < g.len() implies #[trigger] a[y] == b[y - 1] && g[y] == t[y - 1] by {}
    assert forall|y: int| 0 <= y < g.len() - 1 && #[trigger] same_frame(a[y], a[y + 1]) implies frame_of(
        a[y],
    ).2 == frame_of(a[y + 1]).2 by {
        if y > 0 {
            assert(same_frame(b[y - 1], b[y]));
        }
    }
    lemma_align_borders_shift(a, 1, 1);
    assert(a.skip(1) =~= b);
    assert(align_borders_from(a, 0) == seq![a[0]] + align_borders_from(a, 1));
    assert(align_borders_from(a, 0) =~= a);
}

proof fn lemma_framed_step(g: Seq<Seq<char>>, indent: nat, e: int)
    requires
        narrow_short(g),
        g.len() > 0,
        border_info_spec(g[0]) is Some,
        frame_of(g[0]).0 == indent,
        e == frame_run_end(g, 1, indent),
        1 <= e <= g.len(),
        forall|y: int| 1 <= y < e ==> framed_with_indent(#[trigger] g[y], indent),
        e == g.len() || !framed_with_indent(g[e], indent),
        borders_settled(g.skip(e), align_borders_from(g.skip(e), 0)),
    ensures
        borders_settled(g, align_borders_from(g, 0)),
{
    let a = align_borders_from(g, 0);
    let run = g.subrange(0, e);
    lemma_align_range_aligns(run);
    let r = align_range_spec(run);
    let t = g.skip(e);
    lemma_align_borders_shift(g, e, e);
    let b = align_borders_from(t, 0);
    assert(a == r + b);
    assert forall|y: int| 0 <= y < e implies #[trigger] a[y] == r[y] && g[y] == run[y] by {}
    assert forall|y: int| e <= y < g.len() implies #[trigger] a[y] == b[y - e] && g[y] == t[y - e] by {}
    assert forall|y: int| 0 <= y < e implies framed_with_indent(#[trigger] run[y], indent) by {
        if y > 0 {
            assert(run[y] == g[y]);
        }
    }
    if e < g.len() {
        assert(a[e] == b[0] && g[e] == t[0]);
        assert(!framed_with_indent(a[e], indent));
    }
    assert forall|y: int| 0 <= y < e implies framed_with_indent(#[trigger] a[y], indent) by {
        assert(framed_with_indent(run[y], indent));
    }
    assert forall|y: int| 0 <= y < g.len() - 1 && #[trigger] same_frame(a[y], a[y + 1]) implies frame_of(
        a[y],
    ).2 == frame_of(a[y + 1]).2 by {
        if y + 1 < e {
            assert(a[y] == r[y] && g[y] == run[y]);
            assert(a[y + 1] == r[y + 1] && g[y + 1] == run[y + 1]);
            assert(framed_with_indent(run[y], indent));
            assert(framed_with_indent(run[y + 1], indent));
            assert(frame_of(r[y]).2 == frame_width(run));
            assert(frame_of(r[y + 1]).2 == frame_width(run));
        } else if y + 1 == e {
            assert(framed_with_indent(a[y], indent));
            assert(frame_of(a[y]).0 == indent);
            assert(framed_with_indent(a[e], indent));
        } else {
            let k = y - e;
            assert(a[y] == b[k]);
            assert(a[y + 1] == b[k + 1]);
            assert(same_frame(b[k], b[k + 1]));
        }
    }
    lemma_frame_run_end_exact(a, 1, e, indent);
    assert(a.subrange(0, e) =~= r);
    lemma_align_borders_shift(a, e, e);
    assert(a.skip(e) =~= b);
    assert(align_borders_from(a, 0) == align_range_spec(r) + align_borders_from(a, e));
    assert(align_borders_from(a, 0) =~= a);
}

proof fn lemma_align_borders_props(g: Seq<Seq<char>>)
    requires
        narrow_short(g),
    ensures
        borders_settled(g, align_borders_from(g, 0)),
    decreases g.len(),
{
    lemma_align_borders_from(g, 0);
    if g.len() == 0 {
        assert(align_borders_from(g, 0) =~= g);
        return;
    }
    match border_info_spec(g[0]) {
        None => {
            let t = g.skip(1);
            assert forall|y: int| 0 <= y < t.len() implies crate::display_width::narrow(#[trigger] t[y])
                && t[y].len() <= usize::MAX / 2 by {
                assert(t[y] == g[y + 1]);
            }
            lemma_align_borders_props(t);
            lemma_unframed_step(g);
        },
        Some((indent, _, _)) => {
            lemma_frame_run_end(g, 1, indent);
            lemma_frame_run_end_stop(g, 1, indent);
            let e = frame_run_end(g, 1, indent);
            let t = g.skip(e);
            assert forall|y: int| 0 <= y < t.len() implies crate::display_width::narrow(#[trigger] t[y])
                && t[y].len() <= usize::MAX / 2 by {
                assert(t[y] == g[y + e]);
            }
            lemma_align_borders_props(t);
            lemma_framed_step(g, indent, e);
        },
    }
}

/// On narrow text (printable ASCII and box-drawing glyphs), aligning box
/// borders is settled in one call: framed lines stay framed with their
/// indentation, any two adjacent framed lines with the same indentation end
/// up with frames of the same display width (the widest of their run), and
/// aligning again changes nothing.
pub proof fn lemma_align_borders_aligns(g: Seq<Seq<char>>)
    requires
        narrow_short(g),
    ensures
        align_borders_from(g, 0).len() == g.len(),
        forall|y: int|
            0 <= y < g.len() && border_info_spec(#[trigger] g[y]) is Some ==> border_info_spec(
                align_borders_from(g, 0)[y],
            ) is Some && frame_of(align_borders_from(g, 0)[y]).0 == frame_of(g[y]).0,
        forall|y: int|
            0 <= y < g.len() - 1 && #[trigger] same_frame(
                align_borders_from(g, 0)[y],
                align_borders_from(g, 0)[y + 1],
            ) ==> frame_of(align_borders_from(g, 0)[y]).2 == frame_of(
                align_borders_from(g, 0)[y + 1],
            ).2,
        align_borders_from(align_borders_from(g, 0), 0) == align_borders_from(g, 0),
{
    lemma_align_borders_props(g);
}

} // verus!

verus! {

proof fn lemma_keep_unmarked_len(chars: Seq<char>, rm: Seq<bool>)
    requires
        rm.len() == chars.len(),
    ensures
        keep_unmarked(chars, rm).len() + marked_count(rm) == chars.len(),
        crate::display_width::narrow(chars) ==> crate::display_width::narrow(keep_unmarked(chars, rm)),
    decreases chars.len(),
{
    if chars.len() > 0 {
        lemma_keep_unmarked_len(chars.drop_last(), rm.drop_last());
        let k = keep_unmarked(chars.drop_last(), rm.drop_last());
        if crate::display_width::narrow(chars) {
            assert(crate::display_width::narrow(chars.drop_last())) by {
                assert forall|i: int| 0 <= i < chars.drop_last().len() implies crate::display_width::narrow_char(
                    #[trigger] chars.drop_last()[i],
                ) by {
                    assert(chars.drop_last()[i] == chars[i]);
                }
            }
            assert(crate::display_width::narrow_char(chars.last()));
        }
    }
}

/// On narrow text, a line that shrinking changes ends up at least as wide as
/// the most common width of the lines with its indentation (the target) and
/// narrower than it was.
pub proof fn lemma_shrink_width(g: Seq<Seq<char>>, y: int)
    requires
        0 <= y < g.len(),
        crate::display_width::narrow(g[y]),
        g[y].len() <= usize::MAX,
    ensures
        shrink_lines_spec(g)[y] != g[y] ==> {
            let target = most_common_spec(group_widths(g, lead_len(g[y], true), g.len()));
            &&& target is Some
            &&& target->0 <= width_of(shrink_lines_spec(g)[y])
            &&& width_of(shrink_lines_spec(g)[y]) < width_of(g[y])
            &&& crate::display_width::narrow(shrink_lines_spec(g)[y])
        },
{
    let l = g[y];
    let indent = lead_len(l, true);
    crate::display_width::lemma_narrow_width(l);
    match most_common_spec(group_widths(g, indent, g.len())) {
        None => {},
        Some(target) => {
            if width_of(l) > target {
                let excess = (width_of(l) - target) as nat;
                let (rm, left) = removals_spec(l, indent as int, excess);
                lemma_removals_len(l, indent as int, excess);
                lemma_removals_accounted(l, indent as int, excess);
                if left != excess {
                    lemma_keep_unmarked_len(l, rm);
                    let n = keep_unmarked(l, rm);
                    crate::display_width::lemma_narrow_width(n);
                }
            }
        },
    }
}

} // verus!

verus! {

/// On narrow text, a line padded to a grid of `column_width > 2` columns ends
/// at a multiple of the column width, and stays narrow.
pub proof fn lemma_normalize_line_on_grid(l: Seq<char>, column_width: usize)
    requires
        crate::display_width::narrow(l),
        column_width > 2,
        l.len() + column_width <= usize::MAX,
    ensures
        crate::display_width::narrow(normalize_line_spec(l, column_width)),
        width_of(normalize_line_spec(l, column_width)) % (column_width as nat) == 0,
        normalize_line_spec(l, column_width).len() < l.len() + column_width,
{
    let t = trim_end_spec(l, false);
    crate::text::lemma_kept_len(l, false);
    assert forall|i: int| 0 <= i < t.len() implies crate::display_width::narrow_char(#[trigger] t[i]) by {
        assert(t[i] == l[i]);
    }
    crate::display_width::lemma_narrow_width(t);
    let w = width_of(t);
    crate::utils::lemma_align_to_grid_bounds(w, column_width as nat);
    let target = crate::utils::align_to_grid_spec(w, column_width as nat);
    let r = normalize_line_spec(l, column_width);
    if w >= target {
        assert(r == t);
    } else {
        let n = (target - w) as nat;
        assert(r == t + spaces(n));
        assert forall|i: int| 0 <= i < r.len() implies crate::display_width::narrow_char(
            #[trigger] r[i],
        ) by {
            if i < t.len() {
                assert(r[i] == t[i]);
            } else {
                assert(r[i] == ' ');
            }
        }
        crate::display_width::lemma_narrow_width(r);
    }
}

} // verus!

verus! {

/// The pass that marks spaces before vertical borders keeps every mark it is
/// given, takes exactly one cell of excess per new mark (so the excess never
/// grows), and, where the marks it is given are padding spaces at or after
/// `min`, so are all marks it leaves.
pub proof fn lemma_before_full_marks(chars: Seq<char>, rm: Seq<bool>, min: int, ex: nat, allow: bool)
    requires
        rm.len() == chars.len(),
        min >= 0,
    ensures
        marks_accounted(rm, ex, before_full(chars, rm, min, ex, allow).0, before_full(chars, rm, min, ex, allow).1),
        marks_padding(chars, rm, min) ==> marks_padding(chars, before_full(chars, rm, min, ex, allow).0, min),
{
    if !(ex == 0 || chars.len() < min + 2) {
        lemma_before_pass_accounted(chars, rm, min, ex, allow, chars.len() - 2);
        if marks_padding(chars, rm, min) {
            lemma_before_pass_marks(chars, rm, min, ex, allow, chars.len() - 2);
        }
    }
}

/// The pass that marks spaces after vertical borders keeps every mark it is
/// given, takes exactly one cell of excess per new mark, and, where the marks
/// it is given are padding spaces at or after `min`, so are all marks it leaves.
pub proof fn lemma_after_full_marks(chars: Seq<char>, rm: Seq<bool>, min: int, ex: nat, allow: bool)
    requires
        rm.len() == chars.len(),
        min >= 0,
    ensures
        marks_accounted(rm, ex, after_full(chars, rm, min, ex, allow).0, after_full(chars, rm, min, ex, allow).1),
        marks_padding(chars, rm, min) ==> marks_padding(chars, after_full(chars, rm, min, ex, allow).0, min),
{
    if !(ex == 0 || chars.len() < min + 2) {
        lemma_after_pass_accounted(chars, rm, ex, allow, min);
        if marks_padding(chars, rm, min) {
            lemma_after_pass_marks(chars, rm, min, ex, allow, min);
        }
    }
}

} // verus!

verus! {

/// What whitespace normalization makes of a line: the line cut after its last
/// non-whitespace character (everything cut off is whitespace), followed by
/// `n` spaces, where `n` is zero when the column width is 2 or less (the line
/// then has no trailing whitespace at all) and otherwise brings a narrow line
/// to the next multiple of the column width.
pub proof fn lemma_normalize_line_trims(l: Seq<char>, column_width: usize)
    ensures
        exists|k: nat, n: nat|
            #![trigger l.take(k as int), spaces(n)]
            {
                &&& k <= l.len()
                &&& (k == 0 || !crate::text::is_unicode_ws(l[k - 1]))
                &&& (forall|j: int| k <= j < l.len() ==> crate::text::is_unicode_ws(#[trigger] l[j]))
                &&& normalize_line_spec(l, column_width) == l.take(k as int) + spaces(n)
                &&& (column_width <= 2 ==> n == 0)
            },
        column_width <= 2 ==> {
            let r = normalize_line_spec(l, column_width);
            r.len() == 0 || !crate::text::is_unicode_ws(r.last())
        },
{
    let k = kept_len(l, false);
    crate::text::lemma_kept_len(l, false);
    let t = trim_end_spec(l, false);
    let r = normalize_line_spec(l, column_width);
    let n: nat = if column_width <= 2 {
        0
    } else {
        let w = width_of(t);
        let target = crate::utils::align_to_grid_spec(w, column_width as nat);
        if target > usize::MAX || w >= target {
            0
        } else {
            (target - w) as nat
        }
    };
    assert(r =~= l.take(k as int) + spaces(n));
    if k > 0 {
        assert(!crate::text::is_unicode_ws(l[k - 1]));
    }
    assert(forall|j: int| k <= j < l.len() ==> crate::text::is_unicode_ws(#[trigger] l[j]));
    if column_width <= 2 && r.len() > 0 {
        assert(r.last() == l[k - 1]);
    }
}

} // verus!
