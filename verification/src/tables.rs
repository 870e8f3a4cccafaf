//! Detection and re-layout of box-drawing tables.
use vstd::prelude::*;
use crate::display_width::{center_chars, center_spec, width_of, width_of_chars};
use crate::error::Error;
use crate::parser::ParsedDiagram;
use crate::patterns::contains_char;
use crate::text::{
    from_grid, grid_view, lines_view, push_all, push_repeat, push_spaces, repeat_char, slice_chars, spaces_vec,
    spaces, string_of, to_grid, trim_chars, trim_spec,
};

verus! {

#[derive(Debug, Clone, Copy, PartialEq, Eq, Structural)]
pub struct TableGroup {
    pub start_line: usize,
    pub end_line: usize,
    pub marker_count: usize,
}

pub open spec fn table_marker(c: char) -> bool {
    c == '│' || c == '║' || c == '┌' || c == '┐' || c == '└' || c == '┘' || c == '├' || c == '┤'
        || c == '┬' || c == '┴' || c == '┼' || c == '╭' || c == '╮' || c == '╰' || c == '╯' || c
        == '╔' || c == '╗' || c == '╚' || c == '╝' || c == '╠' || c == '╣' || c == '╦' || c == '╩'
        || c == '╬' || c == '╒' || c == '╓' || c == '╕' || c == '╖' || c == '╘' || c == '╙' || c
        == '╛' || c == '╜' || c == '╞' || c == '╟' || c == '╡' || c == '╢' || c == '╤' || c == '╥'
        || c == '╧' || c == '╨' || c == '╪' || c == '╫'
}

pub open spec fn table_junction(c: char) -> bool {
    c == '┬' || c == '┼' || c == '┴' || c == '╦' || c == '╬' || c == '╩' || c == '╤' || c == '╥'
        || c == '╧' || c == '╨' || c == '╪' || c == '╫'
}

pub open spec fn vertical_border_char(c: char) -> bool {
    c == '│' || c == '║' || c == '|'
}

/// A line with a horizontal stroke: a border line of a table.
pub open spec fn border_line(l: Seq<char>) -> bool {
    l.contains('─') || l.contains('═')
}

/// The table markers among the first `n` characters of `l`, with their positions.
pub open spec fn markers_upto(l: Seq<char>, n: nat) -> Seq<(usize, char)>
    decreases n,
{
    if n == 0 {
        seq![]
    } else {
        markers_upto(l, (n - 1) as nat) + if table_marker(l[n - 1]) {
            seq![((n - 1) as usize, l[n - 1])]
        } else {
            seq![]
        }
    }
}

/// The table markers of a line, with their positions, in order.
pub open spec fn markers_of(l: Seq<char>) -> Seq<(usize, char)> {
    markers_upto(l, l.len())
}

/// The characters strictly between marker `k` and marker `k + 1`.
pub open spec fn segment(l: Seq<char>, k: int) -> Option<Seq<char>> {
    let m = markers_of(l);
    if 0 <= k && k + 1 < m.len() && m[k].0 + 1 <= m[k + 1].0 && m[k + 1].0 <= l.len() {
        Some(l.subrange(m[k].0 + 1, m[k + 1].0 as int))
    } else {
        None
    }
}

pub open spec fn blank_only(s: Seq<char>) -> bool {
    forall|i: int| 0 <= i < s.len() ==> crate::text::is_blank(#[trigger] s[i])
}

/// Whether a run of lines with `marker_count` markers each looks like a table:
/// at least three markers, a border line with a junction, and a content line
/// with some text in a cell.
pub open spec fn table_candidate(ls: Seq<Seq<char>>, marker_count: nat) -> bool {
    &&& marker_count >= 3
    &&& exists|y: int|
        0 <= y < ls.len() && border_line(#[trigger] ls[y]) && exists|i: int|
            0 <= i < ls[y].len() && table_junction(#[trigger] ls[y][i])
    &&& exists|y: int|
        0 <= y < ls.len() && !border_line(#[trigger] ls[y]) && markers_of(ls[y]).len()
            == marker_count && exists|k: int|
            0 <= k < marker_count - 1 && #[trigger] segment(ls[y], k) is Some && trim_spec(
                segment(ls[y], k)->0,
            ).len() > 0
}

pub open spec fn has_markers(l: Seq<char>) -> bool {
    exists|i: int| 0 <= i < l.len() && table_marker(#[trigger] l[i])
}

/// The end of the run of lines with table markers that starts at `i`.
pub open spec fn marker_run_end(g: Seq<Seq<char>>, i: int) -> int
    decreases g.len() - i,
{
    if 0 <= i < g.len() && has_markers(g[i]) {
        marker_run_end(g, i + 1)
    } else {
        i
    }
}

/// The end of the lines from `j` (before `e`) with exactly `count` markers.
pub open spec fn same_count_end(g: Seq<Seq<char>>, j: int, e: int, count: nat) -> int
    decreases e - j,
{
    if 0 <= j < e && e <= g.len() && markers_of(g[j]).len() == count {
        same_count_end(g, j + 1, e, count)
    } else {
        j
    }
}

/// The table groups among the lines `j..e` of a run: consecutive lines with
/// the same number of markers that form a table candidate.
pub open spec fn run_groups(g: Seq<Seq<char>>, j: int, e: int) -> Seq<TableGroup>
    decreases e - j,
{
    if j < 0 || j >= e || e > g.len() {
        seq![]
    } else {
        let count = markers_of(g[j]).len();
        let j2 = same_count_end(g, j + 1, e, count);
        if j2 <= j || j2 > e {
            seq![]
        } else {
            (if table_candidate(g.subrange(j, j2), count) {
                seq![TableGroup { start_line: j as usize, end_line: j2 as usize, marker_count: count as usize }]
            } else {
                seq![]
            }) + run_groups(g, j2, e)
        }
    }
}

/// The table groups of the lines from `i` on.
pub open spec fn groups_from(g: Seq<Seq<char>>, i: int) -> Seq<TableGroup>
    decreases g.len() - i,
{
    if i < 0 || i >= g.len() {
        seq![]
    } else if !has_markers(g[i]) {
        groups_from(g, i + 1)
    } else {
        let e = marker_run_end(g, i + 1);
        if e <= i || e > g.len() {
            seq![]
        } else {
            run_groups(g, i, e) + groups_from(g, e)
        }
    }
}

pub fn is_table_marker(ch: char) -> (r: bool)
    ensures
        r == table_marker(ch),
{
    ch == '│' || ch == '║' || ch == '┌' || ch == '┐' || ch == '└' || ch == '┘' || ch == '├' || ch
        == '┤' || ch == '┬' || ch == '┴' || ch == '┼' || ch == '╭' || ch == '╮' || ch == '╰' || ch
        == '╯' || ch == '╔' || ch == '╗' || ch == '╚' || ch == '╝' || ch == '╠' || ch == '╣' || ch
        == '╦' || ch == '╩' || ch == '╬' || ch == '╒' || ch == '╓' || ch == '╕' || ch == '╖' || ch
        == '╘' || ch == '╙' || ch == '╛' || ch == '╜' || ch == '╞' || ch == '╟' || ch == '╡' || ch
        == '╢' || ch == '╤' || ch == '╥' || ch == '╧' || ch == '╨' || ch == '╪' || ch == '╫'
}

fn is_table_junction(ch: char) -> (r: bool)
    ensures
        r == table_junction(ch),
{
    ch == '┬' || ch == '┼' || ch == '┴' || ch == '╦' || ch == '╬' || ch == '╩' || ch == '╤' || ch
        == '╥' || ch == '╧' || ch == '╨' || ch == '╪' || ch == '╫'
}

fn is_vertical_border_char(ch: char) -> (r: bool)
    ensures
        r == vertical_border_char(ch),
{
    ch == '│' || ch == '║' || ch == '|'
}

fn has_table_markers(line: &[char]) -> (r: bool)
    ensures
        r == has_markers(line@),
{
    let mut i: usize = 0;
    while i < line.len()
        invariant
            i <= line@.len(),
            forall|j: int| 0 <= j < i ==> !table_marker(#[trigger] line@[j]),
        decreases line@.len() - i,
    {
        if is_table_marker(line[i]) {
            return true;
        }
        i = i + 1;
    }
    false
}

fn is_border_line(line: &[char]) -> (r: bool)
    ensures
        r == border_line(line@),
{
    contains_char(line, '─') || contains_char(line, '═')
}

proof fn lemma_markers_upto(l: Seq<char>, n: nat)
    requires
        n <= l.len(),
        l.len() <= usize::MAX,
    ensures
        forall|k: int|
            0 <= k < markers_upto(l, n).len() ==> (#[trigger] markers_upto(l, n)[k]).0 < n
                && markers_upto(l, n)[k].1 == l[markers_upto(l, n)[k].0 as int],
        forall|a: int, b: int|
            0 <= a < b < markers_upto(l, n).len() ==> markers_upto(l, n)[a].0 < markers_upto(
                l,
                n,
            )[b].0,
    decreases n,
{
    if n > 0 {
        lemma_markers_upto(l, (n - 1) as nat);
        let p = markers_upto(l, (n - 1) as nat);
        let m = markers_upto(l, n);
        assert forall|k: int| 0 <= k < m.len() implies (#[trigger] m[k]).0 < n && m[k].1 == l[m[k].0 as int] by {
            if k < p.len() {
                assert(m[k] == p[k]);
            } else {
                assert(table_marker(l[n - 1]));
                assert(m[k] == ((n - 1) as usize, l[n - 1]));
            }
        }
        assert forall|a: int, b: int| 0 <= a < b < m.len() implies m[a].0 < m[b].0 by {
            if b < p.len() {
                assert(m[a] == p[a]);
                assert(m[b] == p[b]);
            } else {
                assert(m[a] == p[a]);
                assert(p[a].0 < n - 1);
                assert(table_marker(l[n - 1]));
                assert(m[b] == ((n - 1) as usize, l[n - 1]));
            }
        }
    }
}

/// Markers are in increasing positions inside the line, and each is the
/// character at its position.
pub proof fn lemma_markers(l: Seq<char>)
    requires
        l.len() <= usize::MAX,
    ensures
        forall|k: int|
            0 <= k < markers_of(l).len() ==> (#[trigger] markers_of(l)[k]).0 < l.len()
                && markers_of(l)[k].1 == l[markers_of(l)[k].0 as int],
        forall|a: int, b: int|
            0 <= a < b < markers_of(l).len() ==> markers_of(l)[a].0 < markers_of(l)[b].0,
{
    lemma_markers_upto(l, l.len());
}

/// The table markers of a line with their (character) positions.
fn extract_table_markers(line: &[char]) -> (r: Vec<(usize, char)>)
    ensures
        r@ == markers_of(line@),
{
    let mut out: Vec<(usize, char)> = Vec::new();
    let mut i: usize = 0;
    while i < line.len()
        invariant
            i <= line@.len(),
            out@ == markers_upto(line@, i as nat),
        decreases line@.len() - i,
    {
        if is_table_marker(line[i]) {
            out.push((i, line[i]));
        }
        proof {
            if table_marker(line@[i as int]) {
                assert(markers_upto(line@, (i + 1) as nat) =~= markers_upto(line@, i as nat).push(
                    (i, line@[i as int]),
                ));
            } else {
                assert(markers_upto(line@, (i + 1) as nat) =~= markers_upto(line@, i as nat));
            }
        }
        i = i + 1;
    }
    out
}

/// The characters between marker `seg_idx` and the next one.
fn slice_segment(line: &[char], markers: &[(usize, char)], seg_idx: usize) -> (r: Option<Vec<char>>)
    requires
        markers@ == markers_of(line@),
    ensures
        r matches Some(v) ==> segment(line@, seg_idx as int) == Some(v@),
        r is None ==> segment(line@, seg_idx as int) is None,
{
    if seg_idx >= markers.len() || markers.len() - seg_idx < 2 {
        return None;
    }
    let (left, _) = markers[seg_idx];
    let (right, _) = markers[seg_idx + 1];
    let n = line.len();
    assert(line@.len() == n);
    proof {
        lemma_markers(line@);
    }
    if left >= right || right > line.len() {
        return None;
    }
    Some(slice_chars(line, left + 1, right))
}

fn has_text_cell(line: &[char], markers: &[(usize, char)], marker_count: usize) -> (r: bool)
    requires
        markers@ == markers_of(line@),
        marker_count >= 1,
    ensures
        r == exists|k: int|
            0 <= k < marker_count - 1 && #[trigger] segment(line@, k) is Some && trim_spec(
                segment(line@, k)->0,
            ).len() > 0,
{
    let mut k: usize = 0;
    while k < marker_count - 1
        invariant
            k <= marker_count - 1,
            markers@ == markers_of(line@),
            forall|j: int|
                0 <= j < k ==> !(#[trigger] segment(line@, j) is Some && trim_spec(
                    segment(line@, j)->0,
                ).len() > 0),
        decreases marker_count - 1 - k,
    {
        match slice_segment(line, markers, k) {
            Some(seg) => {
                let t = trim_chars(&seg);
                if t.len() > 0 {
                    return true;
                }
            },
            None => {},
        }
        k = k + 1;
    }
    false
}

/// Whether lines form a table (see `table_candidate`).
fn is_table_candidate(lines: &[Vec<char>], marker_count: usize) -> (r: bool)
    ensures
        r == table_candidate(grid_view(lines@), marker_count as nat),
{
    let ghost ls = grid_view(lines@);
    if marker_count < 3 {
        return false;
    }
    let mut has_junction_border_line = false;
    let mut y: usize = 0;
    while y < lines.len()
        invariant
            y <= lines@.len(),
            ls == grid_view(lines@),
            has_junction_border_line == exists|j: int|
                0 <= j < y && border_line(#[trigger] ls[j]) && exists|i: int|
                    0 <= i < ls[j].len() && table_junction(#[trigger] ls[j][i]),
        decreases lines@.len() - y,
    {
        let line = lines[y].as_slice();
        assert(line@ == ls[y as int]);
        let mut junction = false;
        let mut i: usize = 0;
        while i < line.len()
            invariant
                i <= line@.len(),
                junction == exists|j: int| 0 <= j < i && table_junction(#[trigger] line@[j]),
            decreases line@.len() - i,
        {
            if is_table_junction(line[i]) {
                junction = true;
            }
            i = i + 1;
        }
        if is_border_line(line) && junction {
            has_junction_border_line = true;
        }
        y = y + 1;
    }
    if !has_junction_border_line {
        return false;
    }
    let mut y: usize = 0;
    while y < lines.len()
        invariant
            y <= lines@.len(),
            ls == grid_view(lines@),
            marker_count >= 3,
            exists|j: int|
                0 <= j < ls.len() && border_line(#[trigger] ls[j]) && exists|i: int|
                    0 <= i < ls[j].len() && table_junction(#[trigger] ls[j][i]),
            forall|j: int|
                0 <= j < y ==> !(!border_line(#[trigger] ls[j]) && markers_of(ls[j]).len()
                    == marker_count && exists|k: int|
                    0 <= k < marker_count - 1 && #[trigger] segment(ls[j], k) is Some
                        && trim_spec(segment(ls[j], k)->0).len() > 0),
        decreases lines@.len() - y,
    {
        let line = lines[y].as_slice();
        assert(line@ == ls[y as int]);
        if !is_border_line(line) {
            let markers = extract_table_markers(line);
            if markers.len() == marker_count && has_text_cell(line, markers.as_slice(), marker_count) {
                assert(!border_line(ls[y as int]) && markers_of(ls[y as int]).len() == marker_count);
                return true;
            }
        }
        y = y + 1;
    }
    false
}

proof fn lemma_same_count_end(g: Seq<Seq<char>>, j: int, e: int, count: nat)
    requires
        0 <= j <= e <= g.len(),
    ensures
        j <= same_count_end(g, j, e, count) <= e,
    decreases e - j,
{
    if j < e && markers_of(g[j]).len() == count {
        lemma_same_count_end(g, j + 1, e, count);
    }
}

proof fn lemma_marker_run_end(g: Seq<Seq<char>>, i: int)
    requires
        0 <= i <= g.len(),
    ensures
        i <= marker_run_end(g, i) <= g.len(),
    decreases g.len() - i,
{
    if i < g.len() && has_markers(g[i]) {
        lemma_marker_run_end(g, i + 1);
    }
}

/// A group found in a run is a non-empty range of the run's lines.
pub open spec fn group_within(t: TableGroup, lo: int, hi: int) -> bool {
    lo <= t.start_line < t.end_line <= hi
}

proof fn lemma_run_groups_bounds(g: Seq<Seq<char>>, j: int, e: int)
    requires
        0 <= j,
        e <= g.len() <= usize::MAX,
    ensures
        forall|k: int|
            0 <= k < run_groups(g, j, e).len() ==> group_within(#[trigger] run_groups(g, j, e)[k], j, e),
    decreases e - j,
{
    if j < e {
        let count = markers_of(g[j]).len();
        lemma_same_count_end(g, j + 1, e, count);
        let j2 = same_count_end(g, j + 1, e, count);
        lemma_run_groups_bounds(g, j2, e);
        let rest = run_groups(g, j2, e);
        let rg = run_groups(g, j, e);
        assert forall|k: int| 0 <= k < rg.len() implies group_within(#[trigger] rg[k], j, e) by {
            if table_candidate(g.subrange(j, j2), count) {
                if k > 0 {
                    assert(rg[k] == rest[k - 1]);
                }
            } else {
                assert(rg[k] == rest[k]);
            }
        }
    }
}

proof fn lemma_groups_from_bounds(g: Seq<Seq<char>>, i: int)
    requires
        0 <= i,
        g.len() <= usize::MAX,
    ensures
        forall|k: int|
            0 <= k < groups_from(g, i).len() ==> group_within(
                #[trigger] groups_from(g, i)[k],
                i,
                g.len() as int,
            ),
    decreases g.len() - i,
{
    if i < g.len() {
        if !has_markers(g[i]) {
            lemma_groups_from_bounds(g, i + 1);
            let all = groups_from(g, i);
            assert forall|k: int| 0 <= k < all.len() implies group_within(#[trigger] all[k], i, g.len() as int) by {
                assert(group_within(groups_from(g, i + 1)[k], i + 1, g.len() as int));
            }
        } else {
            lemma_marker_run_end(g, i + 1);
            let e = marker_run_end(g, i + 1);
            lemma_run_groups_bounds(g, i, e);
            lemma_groups_from_bounds(g, e);
            let rg = run_groups(g, i, e);
            let rest = groups_from(g, e);
            let all = groups_from(g, i);
            assert(all == rg + rest);
            assert forall|k: int| 0 <= k < all.len() implies group_within(#[trigger] all[k], i, g.len() as int) by {
                if k < rg.len() {
                    assert(all[k] == rg[k]);
                } else {
                    assert(all[k] == rest[k - rg.len()]);
                }
            }
        }
    }
}

/// Finds the groups of consecutive lines that form tables.
pub fn detect_table_groups(lines: &[String]) -> (groups: Vec<TableGroup>)
    ensures
        groups@ == groups_from(lines_view(lines@), 0),
        forall|k: int| 0 <= k < groups@.len() ==> group_within(#[trigger] groups@[k], 0, lines@.len() as int),
        forall|k: int| 0 <= k < groups@.len() ==> table_run(lines_view(lines@), #[trigger] groups@[k]),
        ordered_groups(groups@),
        forall|s: int, e: int, k: nat|
            #![trigger maximal_run(lines_view(lines@), s, e, k), table_candidate(lines_view(lines@).subrange(s, e), k)]
            maximal_run(lines_view(lines@), s, e, k) && k >= 3 && table_candidate(
                lines_view(lines@).subrange(s, e),
                k,
            ) ==> groups@.contains(
                TableGroup { start_line: s as usize, end_line: e as usize, marker_count: k as usize },
            ),
{
    let n = lines.len();
    assert(lines@.len() == n);
    proof {
        lemma_groups_from_bounds(lines_view(lines@), 0);
    }
    let grid = to_grid(lines);
    let ghost g = grid_view(grid@);
    let mut counts: Vec<usize> = Vec::new();
    let mut flags: Vec<bool> = Vec::new();
    let mut y: usize = 0;
    while y < grid.len()
        invariant
            y <= grid@.len(),
            g == grid_view(grid@),
            counts@.len() == y,
            flags@.len() == y,
            forall|j: int| 0 <= j < y ==> #[trigger] counts@[j] == markers_of(g[j]).len(),
            forall|j: int| 0 <= j < y ==> #[trigger] flags@[j] == has_markers(g[j]),
            forall|j: int| 0 <= j < y ==> (#[trigger] g[j]).len() <= usize::MAX,
        decreases grid@.len() - y,
    {
        assert(grid@[y as int]@ == g[y as int]);
        let len_y = grid[y].len();
        assert(g[y as int].len() == len_y);
        counts.push(extract_table_markers(grid[y].as_slice()).len());
        flags.push(has_table_markers(grid[y].as_slice()));
        y = y + 1;
    }
    proof {
        lemma_table_groups_are_maximal_runs(g);
    }
    let mut groups: Vec<TableGroup> = Vec::new();
    let mut i: usize = 0;
    while i < grid.len()
        invariant
            i <= grid@.len(),
            g == grid_view(grid@),
            counts@.len() == grid@.len(),
            flags@.len() == grid@.len(),
            forall|j: int| 0 <= j < grid@.len() ==> #[trigger] counts@[j] == markers_of(g[j]).len(),
            forall|j: int| 0 <= j < grid@.len() ==> #[trigger] flags@[j] == has_markers(g[j]),
            groups@ + groups_from(g, i as int) == groups_from(g, 0),
        decreases grid@.len() - i,
    {
        if !flags[i] {
            i = i + 1;
            continue;
        }
        let start_run = i;
        i = i + 1;
        while i < grid.len() && flags[i]
            invariant
                start_run < i <= grid@.len(),
                g == grid_view(grid@),
                flags@.len() == grid@.len(),
                forall|j: int| 0 <= j < grid@.len() ==> #[trigger] flags@[j] == has_markers(g[j]),
                marker_run_end(g, i as int) == marker_run_end(g, start_run + 1),
            decreases grid@.len() - i,
        {
            i = i + 1;
        }
        let end_run = i;
        assert(end_run as int == marker_run_end(g, start_run + 1));
        let ghost before_run = groups@;
        let mut j = start_run;
        while j < end_run
            invariant
                start_run <= j <= end_run <= grid@.len(),
                g == grid_view(grid@),
                counts@.len() == grid@.len(),
                forall|k: int| 0 <= k < grid@.len() ==> #[trigger] counts@[k] == markers_of(g[k]).len(),
                groups@ + run_groups(g, j as int, end_run as int) == before_run + run_groups(
                    g,
                    start_run as int,
                    end_run as int,
                ),
            decreases end_run - j,
        {
            let count = counts[j];
            let start_group = j;
            j = j + 1;
            while j < end_run && counts[j] == count
                invariant
                    start_group < j <= end_run <= grid@.len(),
                    g == grid_view(grid@),
                    counts@.len() == grid@.len(),
                    count == markers_of(g[start_group as int]).len(),
                    forall|k: int|
                        0 <= k < grid@.len() ==> #[trigger] counts@[k] == markers_of(g[k]).len(),
                    same_count_end(g, j as int, end_run as int, count as nat) == same_count_end(
                        g,
                        start_group + 1,
                        end_run as int,
                        count as nat,
                    ),
                decreases end_run - j,
            {
                j = j + 1;
            }
            let mut sub: Vec<Vec<char>> = Vec::new();
            let mut k: usize = start_group;
            while k < j
                invariant
                    start_group <= k <= j <= grid@.len(),
                    g == grid_view(grid@),
                    grid_view(sub@) == g.subrange(start_group as int, k as int),
                decreases j - k,
            {
                let ghost b = sub@;
                sub.push(slice_chars(grid[k].as_slice(), 0, grid[k].len()));
                proof {
                    assert(g[k as int].subrange(0, g[k as int].len() as int) =~= g[k as int]);
                    assert(grid_view(sub@) =~= grid_view(b).push(g[k as int]));
                    assert(g.subrange(start_group as int, k + 1) =~= g.subrange(
                        start_group as int,
                        k as int,
                    ).push(g[k as int]));
                }
                k = k + 1;
            }
            let ghost b2 = groups@;
            if is_table_candidate(sub.as_slice(), count) {
                groups.push(TableGroup { start_line: start_group, end_line: j, marker_count: count });
            }
            proof {
                assert(groups@ + run_groups(g, j as int, end_run as int) =~= b2 + run_groups(
                    g,
                    start_group as int,
                    end_run as int,
                ));
            }
        }
        proof {
            assert(groups@ =~= before_run + run_groups(g, start_run as int, end_run as int));
            assert(groups@ + groups_from(g, end_run as int) =~= before_run + groups_from(
                g,
                start_run as int,
            ));
        }
    }
    proof {
        assert(groups@ =~= groups@ + groups_from(g, i as int));
    }
    groups
}

} // verus!

verus! {

/// A line of a table with its markers and whether it is a border line.
#[derive(Debug, Clone)]
pub struct ParsedTableLine {
    pub markers: Vec<(usize, char)>,
    pub is_border_line: bool,
}

/// The lines of a table and the line that heads it, if any.
#[derive(Debug, Clone)]
pub struct ParsedTableGroup {
    pub lines: Vec<ParsedTableLine>,
    pub header_line: Option<usize>,
}

/// Every line has exactly `marker_count` markers.
pub open spec fn uniform_markers(ls: Seq<Seq<char>>, marker_count: nat) -> bool {
    forall|y: int| 0 <= y < ls.len() ==> markers_of(#[trigger] ls[y]).len() == marker_count
}

/// The first content line (from `i` on) that is directly followed by a border line.
pub open spec fn header_from(ls: Seq<Seq<char>>, i: int) -> Option<nat>
    decreases ls.len() - i,
{
    if i < 0 || i >= ls.len() {
        None
    } else if !border_line(ls[i]) && i + 1 < ls.len() && border_line(ls[i + 1]) {
        Some(i as nat)
    } else {
        header_from(ls, i + 1)
    }
}

/// The first non-border line (from `i` on) directly followed by a border line.
pub open spec fn header_flags(b: Seq<bool>, i: int) -> Option<usize>
    decreases b.len() - i,
{
    if i < 0 || i >= b.len() {
        None
    } else if !b[i] && i + 1 < b.len() && b[i + 1] {
        Some(i as usize)
    } else {
        header_flags(b, i + 1)
    }
}

pub open spec fn border_flags(p: Seq<ParsedTableLine>) -> Seq<bool> {
    Seq::new(p.len(), |i: int| p[i].is_border_line)
}

/// The header of a table: the first content line directly followed by a border line.
pub fn detect_header_line(lines: &[ParsedTableLine]) -> (r: Option<usize>)
    ensures
        r == header_flags(border_flags(lines@), 0),
{
    let ghost b = border_flags(lines@);
    let mut idx: usize = 0;
    while idx < lines.len()
        invariant
            idx <= lines@.len(),
            b == border_flags(lines@),
            header_flags(b, idx as int) == header_flags(b, 0),
        decreases lines@.len() - idx,
    {
        if !lines[idx].is_border_line && idx + 1 < lines.len() && lines[idx + 1].is_border_line {
            return Some(idx);
        }
        idx = idx + 1;
    }
    None
}

/// The header found from the border flags of the lines is that of the lines.
proof fn lemma_header_flags(b: Seq<bool>, ls: Seq<Seq<char>>, i: int)
    requires
        b.len() == ls.len(),
        ls.len() <= usize::MAX,
        forall|k: int| 0 <= k < ls.len() ==> #[trigger] b[k] == border_line(ls[k]),
    ensures
        header_flags(b, i) == match header_from(ls, i) {
            Some(h) => Some(h as usize),
            None => None::<usize>,
        },
    decreases ls.len() - i,
{
    if 0 <= i < ls.len() {
        lemma_header_flags(b, ls, i + 1);
        if i + 1 < ls.len() {
            assert(b[i + 1] == border_line(ls[i + 1]));
        }
        assert(b[i] == border_line(ls[i]));
    }
}

pub open spec fn parsed_matches(p: ParsedTableGroup, ls: Seq<Seq<char>>) -> bool {
    &&& p.lines@.len() == ls.len()
    &&& forall|y: int|
        0 <= y < ls.len() ==> (#[trigger] p.lines@[y]).markers@ == markers_of(ls[y])
            && p.lines@[y].is_border_line == border_line(ls[y])
    &&& p.header_line == match header_from(ls, 0) {
        Some(h) => Some(h as usize),
        None => None::<usize>,
    }
}

/// The markers and border flags of every line of a table, and its header line;
/// `None` when some line does not have exactly `marker_count` markers.
pub fn parse_table_group(lines: &[String], marker_count: usize) -> (r: Option<ParsedTableGroup>)
    ensures
        r is Some <==> uniform_markers(lines_view(lines@), marker_count as nat),
        r matches Some(p) ==> parsed_matches(p, lines_view(lines@)),
{
    let grid = to_grid(lines);
    let ghost ls = grid_view(grid@);
    let mut parsed: Vec<ParsedTableLine> = Vec::new();
    let mut y: usize = 0;
    while y < grid.len()
        invariant
            y <= grid@.len(),
            ls == grid_view(grid@),
            ls == lines_view(lines@),
            parsed@.len() == y,
            forall|k: int|
                0 <= k < y ==> (#[trigger] parsed@[k]).markers@ == markers_of(ls[k])
                    && parsed@[k].is_border_line == border_line(ls[k]),
            forall|k: int| 0 <= k < y ==> markers_of(#[trigger] ls[k]).len() == marker_count,
        decreases grid@.len() - y,
    {
        let line = grid[y].as_slice();
        assert(line@ == ls[y as int]);
        let markers = extract_table_markers(line);
        if markers.len() != marker_count {
            assert(markers_of(ls[y as int]).len() != marker_count);
            return None;
        }
        let is_border = is_border_line(line);
        parsed.push(ParsedTableLine { markers, is_border_line: is_border });
        y = y + 1;
    }
    let header_line = detect_header_line(parsed.as_slice());
    proof {
        let b = border_flags(parsed@);
        assert forall|k: int| 0 <= k < ls.len() implies #[trigger] b[k] == border_line(ls[k]) by {
            assert(parsed@[k].is_border_line == border_line(ls[k]));
        }
        lemma_header_flags(b, ls, 0);
    }
    Some(ParsedTableGroup { lines: parsed, header_line })
}

} // verus!

verus! {

pub open spec fn seg_count(marker_count: nat) -> nat {
    if marker_count >= 1 {
        (marker_count - 1) as nat
    } else {
        0
    }
}

pub open spec fn seg_width(l: Seq<char>, k: int) -> nat {
    match segment(l, k) {
        Some(s) => width_of(s),
        None => 0,
    }
}

/// The display widths of the first `n` segments of a line, added up.
pub open spec fn seg_width_sum(l: Seq<char>, n: nat) -> nat
    decreases n,
{
    if n == 0 {
        0
    } else {
        seg_width_sum(l, (n - 1) as nat) + seg_width(l, n - 1)
    }
}

/// The widest sum of segment widths among the first `n` lines.
pub open spec fn max_seg_sum(ls: Seq<Seq<char>>, sc: nat, n: nat) -> nat
    decreases n,
{
    if n == 0 {
        0
    } else {
        let a = max_seg_sum(ls, sc, (n - 1) as nat);
        let b = seg_width_sum(ls[n - 1], sc);
        if b > a {
            b
        } else {
            a
        }
    }
}

/// Segment `k` exists and holds only blanks on every line.
pub open spec fn seg_blank_everywhere(ls: Seq<Seq<char>>, k: int) -> bool {
    forall|y: int|
        0 <= y < ls.len() ==> #[trigger] segment(ls[y], k) is Some && blank_only(
            segment(ls[y], k)->0,
        )
}

/// The narrowest width of segment `k` among the first `n` lines that have it.
pub open spec fn min_seg_width(ls: Seq<Seq<char>>, k: int, n: nat) -> Option<nat>
    decreases n,
{
    if n == 0 {
        None
    } else {
        let a = min_seg_width(ls, k, (n - 1) as nat);
        match segment(ls[n - 1], k) {
            None => a,
            Some(s) => match a {
                None => Some(width_of(s)),
                Some(x) => Some(
                    if width_of(s) < x {
                        width_of(s)
                    } else {
                        x
                    },
                ),
            },
        }
    }
}

pub open spec fn unwrap_or_zero(o: Option<nat>) -> nat {
    match o {
        Some(x) => x,
        None => 0,
    }
}

/// Whether the outer left and right segments are padding (blank on every
/// line), and the widths kept for them (the narrowest, equal on both sides
/// when both are padding).
pub open spec fn padding_spec(ls: Seq<Seq<char>>, sc: nat) -> (bool, bool, nat, nat) {
    let lp = seg_blank_everywhere(ls, 0);
    let rp = seg_blank_everywhere(ls, sc - 1);
    let lw = if lp {
        unwrap_or_zero(min_seg_width(ls, 0, ls.len()))
    } else {
        0
    };
    let rw = if rp {
        unwrap_or_zero(min_seg_width(ls, sc - 1, ls.len()))
    } else {
        0
    };
    if lp && rp {
        let p = if lw <= rw {
            lw
        } else {
            rw
        };
        (lp, rp, p, p)
    } else {
        (lp, rp, lw, rw)
    }
}

pub open spec fn sat_sub(a: nat, b: nat) -> nat {
    if a >= b {
        (a - b) as nat
    } else {
        0
    }
}

pub open spec fn contains_art(c: Seq<char>) -> bool {
    c.contains('_') && (c.contains('/') || c.contains('\\'))
}

/// A content cell whose text looks like ASCII art (an underscore with a slash).
pub open spec fn art_cell(l: Seq<char>, k: int) -> bool {
    !border_line(l) && segment(l, k) is Some && trim_spec(segment(l, k)->0).len() > 0
        && contains_art(trim_spec(segment(l, k)->0))
}

pub open spec fn is_art_spec(ls: Seq<Seq<char>>, cs: nat, ce: nat) -> bool {
    exists|y: int, k: int| 0 <= y < ls.len() && cs <= k < ce && #[trigger] art_cell(ls[y], k)
}

/// The width a cell needs: its content and one space on each side.
pub open spec fn cell_min(w: nat) -> nat {
    let a = if w + 2 > usize::MAX {
        usize::MAX as nat
    } else {
        w + 2
    };
    if a >= 1 {
        a
    } else {
        1
    }
}

pub open spec fn cell_content(s: Seq<char>, art: bool) -> Seq<char> {
    if art {
        s
    } else {
        trim_spec(s)
    }
}

/// The width column `k` needs over the first `n` content lines.
pub open spec fn min_col(ls: Seq<Seq<char>>, k: int, art: bool, n: nat) -> nat
    decreases n,
{
    if n == 0 {
        0
    } else {
        let a = min_col(ls, k, art, (n - 1) as nat);
        if border_line(ls[n - 1]) || segment(ls[n - 1], k) is None {
            a
        } else {
            let b = cell_min(width_of(cell_content(segment(ls[n - 1], k)->0, art)));
            if b > a {
                b
            } else {
                a
            }
        }
    }
}

pub open spec fn min_cols(ls: Seq<Seq<char>>, cs: nat, ce: nat, art: bool) -> Seq<nat> {
    Seq::new((ce - cs) as nat, |c: int| min_col(ls, cs + c, art, ls.len()))
}

pub open spec fn sum_nat(s: Seq<nat>) -> nat
    decreases s.len(),
{
    if s.len() == 0 {
        0
    } else {
        sum_nat(s.drop_last()) + s.last()
    }
}

/// The widths of all segments: padding segments keep their width, columns get
/// what they need plus an even share of the spare width (the first columns
/// take one more cell each of the remainder).
pub open spec fn targets_spec(
    sc: nat,
    cs: nat,
    ce: nat,
    mins: Seq<nat>,
    extra: nat,
    lp: bool,
    rp: bool,
    lw: nat,
    rw: nat,
) -> Seq<usize> {
    Seq::new(
        sc,
        |k: int|
            if cs <= k < ce {
                (mins[k - cs] + extra / ((ce - cs) as nat) + if k - cs < extra % ((ce - cs) as nat) {
                    1nat
                } else {
                    0nat
                }) as usize
            } else if lp && k == 0 {
                lw as usize
            } else if rp && k == sc - 1 {
                rw as usize
            } else {
                0usize
            },
    )
}

/// The layout of a table group, or `None` when the group is left as it is
/// (markers differ between lines, no column to lay out, the widest line is
/// wider than a `usize` can count, or the columns need more room than there is).
pub open spec fn layout_spec(ls: Seq<Seq<char>>, mc: nat) -> Option<
    (Seq<usize>, nat, nat, bool),
> {
    let sc = seg_count(mc);
    let (lp, rp, lw, rw) = padding_spec(ls, sc);
    let cs: nat = if lp {
        1
    } else {
        0
    };
    let ce: nat = if rp {
        sat_sub(sc, 1)
    } else {
        sc
    };
    let total = max_seg_sum(ls, sc, ls.len());
    let available = sat_sub(sat_sub(total, lw), rw);
    let art = is_art_spec(ls, cs, ce);
    let mins = min_cols(ls, cs, ce, art);
    if ls.len() == 0 || !uniform_markers(ls, mc) || sc == 0 || ce <= cs || total > usize::MAX
        || sum_nat(mins) > available {
        None
    } else {
        Some(
            (
                targets_spec(sc, cs, ce, mins, (available - sum_nat(mins)) as nat, lp, rp, lw, rw),
                cs,
                ce,
                art,
            ),
        )
    }
}

pub open spec fn double_char(c: char) -> bool {
    c == '╔' || c == '╗' || c == '╚' || c == '╝' || c == '╠' || c == '╣' || c == '╦' || c == '╩'
        || c == '╬' || c == '║' || c == '╒' || c == '╓' || c == '╕' || c == '╖' || c == '╘' || c
        == '╙' || c == '╛' || c == '╜' || c == '╞' || c == '╟' || c == '╡' || c == '╢' || c == '╤'
        || c == '╥' || c == '╧' || c == '╨' || c == '╪' || c == '╫'
}

/// The horizontal stroke of a line: the one it already uses, or the double
/// stroke when it has double-line glyphs.
pub open spec fn fill_spec(l: Seq<char>) -> char {
    if l.contains('═') {
        '═'
    } else if l.contains('─') {
        '─'
    } else if exists|i: int| 0 <= i < l.len() && double_char(#[trigger] l[i]) {
        '═'
    } else {
        '─'
    }
}

pub open spec fn left_junction(outer: char, horizontal: char) -> char {
    if outer == '║' {
        if horizontal == '═' {
            '╠'
        } else {
            '╟'
        }
    } else if horizontal == '═' {
        '╞'
    } else {
        '├'
    }
}

pub open spec fn right_junction(outer: char, horizontal: char) -> char {
    if outer == '║' {
        if horizontal == '═' {
            '╣'
        } else {
            '╢'
        }
    } else if horizontal == '═' {
        '╡'
    } else {
        '┤'
    }
}

/// The outer vertical border of the first content line: its first marker
/// (`left`) or its last one, when that marker is a vertical border.
pub open spec fn outer_border_spec(ls: Seq<Seq<char>>, i: int, mc: nat, left: bool) -> Option<char>
    decreases ls.len() - i,
{
    if i < 0 || i >= ls.len() {
        None
    } else if !border_line(ls[i]) {
        let c = if left {
            markers_of(ls[i])[0].1
        } else {
            markers_of(ls[i])[mc - 1].1
        };
        if vertical_border_char(c) {
            Some(c)
        } else {
            None
        }
    } else {
        outer_border_spec(ls, i + 1, mc, left)
    }
}

/// The text of a segment laid out in `tw` cells.
pub open spec fn seg_body(
    l: Seq<char>,
    li: int,
    k: int,
    seg: Seq<char>,
    tw: nat,
    cs: nat,
    ce: nat,
    art: bool,
    header: Option<usize>,
) -> Seq<char> {
    let is_header = header == Some(li as usize);
    if border_line(l) {
        if seg.contains('─') || seg.contains('═') {
            repeat_char(fill_spec(l), tw)
        } else {
            spaces(tw)
        }
    } else if k < cs || k >= ce {
        spaces(tw)
    } else if art && !is_header {
        if width_of(seg) >= tw {
            seg
        } else {
            seg + spaces((tw - width_of(seg)) as nat)
        }
    } else {
        let c = trim_spec(seg);
        let cw = width_of(c);
        if c.len() == 0 {
            spaces(tw)
        } else if tw <= cw {
            c
        } else if is_header {
            if tw >= cw + 2 {
                seq![' '] + center_spec(c, (tw - 2) as nat) + seq![' ']
            } else {
                center_spec(c, tw)
            }
        } else {
            let lead: nat = if tw >= 1 {
                1
            } else {
                0
            };
            spaces(lead) + c + spaces(sat_sub(tw, lead + cw))
        }
    }
}

/// Marker `k` of a line (joined to the outer border on border lines)
/// followed by its laid-out segment.
pub open spec fn render_seg(
    l: Seq<char>,
    li: int,
    k: int,
    targets: Seq<usize>,
    cs: nat,
    ce: nat,
    art: bool,
    header: Option<usize>,
    outer_left: Option<char>,
) -> Seq<char> {
    let lc = markers_of(l)[k].1;
    let mch = if border_line(l) && k == 0 && outer_left is Some && !vertical_border_char(lc) {
        left_junction(outer_left->0, fill_spec(l))
    } else {
        lc
    };
    seq![mch] + match segment(l, k) {
        None => seq![],
        Some(seg) => seg_body(l, li, k, seg, targets[k] as nat, cs, ce, art, header),
    }
}

pub open spec fn render_segs(
    l: Seq<char>,
    li: int,
    n: nat,
    targets: Seq<usize>,
    cs: nat,
    ce: nat,
    art: bool,
    header: Option<usize>,
    outer_left: Option<char>,
) -> Seq<char>
    decreases n,
{
    if n == 0 {
        seq![]
    } else {
        render_segs(l, li, (n - 1) as nat, targets, cs, ce, art, header, outer_left) + render_seg(
            l,
            li,
            n - 1,
            targets,
            cs,
            ce,
            art,
            header,
            outer_left,
        )
    }
}

/// A table line laid out: what precedes its first marker, every marker with
/// its segment, the last marker, and what follows it.
pub open spec fn render_line_spec(
    l: Seq<char>,
    li: int,
    mc: nat,
    targets: Seq<usize>,
    cs: nat,
    ce: nat,
    art: bool,
    header: Option<usize>,
    outer_left: Option<char>,
    outer_right: Option<char>,
) -> Seq<char> {
    let m = markers_of(l);
    let last = m[mc - 1];
    let last_marker = if border_line(l) && outer_right is Some && !vertical_border_char(last.1) {
        right_junction(outer_right->0, fill_spec(l))
    } else {
        last.1
    };
    l.take(m[0].0 as int) + render_segs(
        l,
        li,
        seg_count(mc),
        targets,
        cs,
        ce,
        art,
        header,
        outer_left,
    ) + seq![last_marker] + if last.0 + 1 < l.len() {
        l.skip(last.0 + 1)
    } else {
        seq![]
    }
}

/// The lines of a table group laid out, or unchanged when the group has no
/// layout.
pub open spec fn format_group_spec(ls: Seq<Seq<char>>, mc: nat) -> Seq<Seq<char>> {
    match layout_spec(ls, mc) {
        None => ls,
        Some((targets, cs, ce, art)) => Seq::new(
            ls.len(),
            |i: int|
                render_line_spec(
                    ls[i],
                    i,
                    mc,
                    targets,
                    cs,
                    ce,
                    art,
                    header_flags(Seq::new(ls.len(), |j: int| border_line(ls[j])), 0),
                    outer_border_spec(ls, 0, mc, true),
                    outer_border_spec(ls, 0, mc, false),
                ),
        ),
    }
}

} // verus!

verus! {

/// The parsed lines describe the lines `ls`: markers and border flags.
pub open spec fn infos_ok(infos: Seq<ParsedTableLine>, ls: Seq<Seq<char>>) -> bool {
    &&& infos.len() == ls.len()
    &&& forall|y: int|
        0 <= y < ls.len() ==> (#[trigger] infos[y]).markers@ == markers_of(ls[y])
            && infos[y].is_border_line == border_line(ls[y])
}

proof fn lemma_seg_width_sum_mono(l: Seq<char>, a: nat, b: nat)
    requires
        a <= b,
    ensures
        seg_width_sum(l, a) <= seg_width_sum(l, b),
    decreases b,
{
    if a < b {
        lemma_seg_width_sum_mono(l, a, (b - 1) as nat);
    }
}

/// The display widths of the first `n` segments of a line added up, or
/// `None` when the sum does not fit a `usize`.
fn sum_segment_widths(line: &[char], markers: &[(usize, char)], n: usize) -> (r: Option<usize>)
    requires
        markers@ == markers_of(line@),
    ensures
        r matches Some(s) ==> s == seg_width_sum(line@, n as nat),
        r is None ==> seg_width_sum(line@, n as nat) > usize::MAX,
{
    let mut total: usize = 0;
    let mut k: usize = 0;
    while k < n
        invariant
            k <= n,
            markers@ == markers_of(line@),
            total == seg_width_sum(line@, k as nat),
        decreases n - k,
    {
        let w = match slice_segment(line, markers, k) {
            Some(seg) => width_of_chars(&seg),
            None => 0,
        };
        if w > usize::MAX - total {
            proof {
                lemma_seg_width_sum_mono(line@, (k + 1) as nat, n as nat);
            }
            return None;
        }
        total = total + w;
        k = k + 1;
    }
    Some(total)
}

proof fn lemma_max_seg_sum_ge(ls: Seq<Seq<char>>, sc: nat, n: nat, y: int)
    requires
        0 <= y < n <= ls.len(),
    ensures
        max_seg_sum(ls, sc, n) >= seg_width_sum(ls[y], sc),
    decreases n,
{
    if y < n - 1 {
        lemma_max_seg_sum_ge(ls, sc, (n - 1) as nat, y);
    }
}

proof fn lemma_max_seg_sum_mono(ls: Seq<Seq<char>>, sc: nat, a: nat, b: nat)
    requires
        a <= b <= ls.len(),
    ensures
        max_seg_sum(ls, sc, a) <= max_seg_sum(ls, sc, b),
    decreases b,
{
    if a < b {
        lemma_max_seg_sum_mono(ls, sc, a, (b - 1) as nat);
    }
}

/// The widest line of the group, measured over its segments.
fn max_segment_sum(grid: &[Vec<char>], infos: &[ParsedTableLine], sc: usize) -> (r: Option<usize>)
    requires
        infos_ok(infos@, grid_view(grid@)),
    ensures
        r matches Some(t) ==> t == max_seg_sum(grid_view(grid@), sc as nat, grid@.len() as nat),
        r is None ==> max_seg_sum(grid_view(grid@), sc as nat, grid@.len() as nat) > usize::MAX,
{
    let ghost ls = grid_view(grid@);
    let mut best: usize = 0;
    let mut y: usize = 0;
    while y < grid.len()
        invariant
            y <= grid@.len(),
            ls == grid_view(grid@),
            infos_ok(infos@, ls),
            best == max_seg_sum(ls, sc as nat, y as nat),
        decreases grid@.len() - y,
    {
        assert(grid@[y as int]@ == ls[y as int]);
        match sum_segment_widths(grid[y].as_slice(), infos[y].markers.as_slice(), sc) {
            Some(s) => {
                if s > best {
                    best = s;
                }
            },
            None => {
                proof {
                    lemma_max_seg_sum_ge(ls, sc as nat, ls.len(), y as int);
                }
                return None;
            },
        }
        y = y + 1;
    }
    Some(best)
}

fn is_blank_chars(v: &[char]) -> (r: bool)
    ensures
        r == blank_only(v@),
{
    let mut i: usize = 0;
    while i < v.len()
        invariant
            i <= v@.len(),
            forall|j: int| 0 <= j < i ==> crate::text::is_blank(#[trigger] v@[j]),
        decreases v@.len() - i,
    {
        if !(v[i] == ' ' || v[i] == '\t') {
            return false;
        }
        i = i + 1;
    }
    true
}

/// Segment `seg_idx` exists and is blank on every line.
fn segment_is_whitespace_only(grid: &[Vec<char>], infos: &[ParsedTableLine], seg_idx: usize) -> (r: bool)
    requires
        infos_ok(infos@, grid_view(grid@)),
    ensures
        r == seg_blank_everywhere(grid_view(grid@), seg_idx as int),
{
    let ghost ls = grid_view(grid@);
    let mut y: usize = 0;
    while y < grid.len()
        invariant
            y <= grid@.len(),
            ls == grid_view(grid@),
            infos_ok(infos@, ls),
            forall|j: int|
                0 <= j < y ==> #[trigger] segment(ls[j], seg_idx as int) is Some && blank_only(
                    segment(ls[j], seg_idx as int)->0,
                ),
        decreases grid@.len() - y,
    {
        assert(grid@[y as int]@ == ls[y as int]);
        match slice_segment(grid[y].as_slice(), infos[y].markers.as_slice(), seg_idx) {
            None => {
                return false;
            },
            Some(seg) => {
                if !is_blank_chars(&seg) {
                    return false;
                }
            },
        }
        y = y + 1;
    }
    true
}

/// The narrowest width of segment `seg_idx` over the lines (0 when no line has it).
fn min_segment_width(grid: &[Vec<char>], infos: &[ParsedTableLine], seg_idx: usize) -> (r: usize)
    requires
        infos_ok(infos@, grid_view(grid@)),
    ensures
        r == unwrap_or_zero(min_seg_width(grid_view(grid@), seg_idx as int, grid@.len() as nat)),
{
    let ghost ls = grid_view(grid@);
    let mut best: Option<usize> = None;
    let mut y: usize = 0;
    while y < grid.len()
        invariant
            y <= grid@.len(),
            ls == grid_view(grid@),
            infos_ok(infos@, ls),
            match min_seg_width(ls, seg_idx as int, y as nat) {
                None => best is None,
                Some(x) => best == Some(x as usize) && x <= usize::MAX,
            },
        decreases grid@.len() - y,
    {
        assert(grid@[y as int]@ == ls[y as int]);
        match slice_segment(grid[y].as_slice(), infos[y].markers.as_slice(), seg_idx) {
            None => {},
            Some(seg) => {
                let w = width_of_chars(&seg);
                best = match best {
                    None => Some(w),
                    Some(x) => Some(
                        if w < x {
                            w
                        } else {
                            x
                        },
                    ),
                };
            },
        }
        y = y + 1;
    }
    match best {
        Some(x) => x,
        None => 0,
    }
}

fn contains_art_chars(c: &[char]) -> (r: bool)
    ensures
        r == contains_art(c@),
{
    contains_char(c, '_') && (contains_char(c, '/') || contains_char(c, '\\'))
}

/// Whether some content cell of the columns looks like ASCII art.
fn group_has_ascii_art(
    grid: &[Vec<char>],
    infos: &[ParsedTableLine],
    col_start: usize,
    col_end: usize,
) -> (r: bool)
    requires
        infos_ok(infos@, grid_view(grid@)),
    ensures
        r == is_art_spec(grid_view(grid@), col_start as nat, col_end as nat),
{
    let ghost ls = grid_view(grid@);
    let mut y: usize = 0;
    while y < grid.len()
        invariant
            y <= grid@.len(),
            ls == grid_view(grid@),
            infos_ok(infos@, ls),
            forall|j: int, k: int| 0 <= j < y && col_start <= k < col_end ==> !#[trigger] art_cell(ls[j], k),
        decreases grid@.len() - y,
    {
        let line = grid[y].as_slice();
        assert(line@ == ls[y as int]);
        let border = infos[y].is_border_line;
        let mut k: usize = col_start;
        while k < col_end
            invariant
                col_start <= k,
                y < grid@.len(),
                ls == grid_view(grid@),
                line@ == ls[y as int],
                infos_ok(infos@, ls),
                border == border_line(line@),
                forall|kk: int| col_start <= kk < k ==> !#[trigger] art_cell(ls[y as int], kk),
            decreases col_end - k,
        {
            if !border {
                match slice_segment(line, infos[y].markers.as_slice(), k) {
                    Some(seg) => {
                        let t = trim_chars(&seg);
                        if t.len() > 0 && contains_art_chars(&t) {
                            assert(art_cell(ls[y as int], k as int));
                            assert(0 <= y < ls.len() && col_start <= k < col_end);
                            return true;
                        }
                    },
                    None => {},
                }
            }
            k = k + 1;
        }
        y = y + 1;
    }
    false
}

/// The width column `seg_idx` needs over the content lines.
fn min_column_width(grid: &[Vec<char>], infos: &[ParsedTableLine], seg_idx: usize, art: bool) -> (r: usize)
    requires
        infos_ok(infos@, grid_view(grid@)),
    ensures
        r == min_col(grid_view(grid@), seg_idx as int, art, grid@.len() as nat),
{
    let ghost ls = grid_view(grid@);
    let mut best: usize = 0;
    let mut y: usize = 0;
    while y < grid.len()
        invariant
            y <= grid@.len(),
            ls == grid_view(grid@),
            infos_ok(infos@, ls),
            best == min_col(ls, seg_idx as int, art, y as nat),
        decreases grid@.len() - y,
    {
        let line = grid[y].as_slice();
        assert(line@ == ls[y as int]);
        if !infos[y].is_border_line {
            match slice_segment(line, infos[y].markers.as_slice(), seg_idx) {
                Some(seg) => {
                    let content = if art {
                        seg
                    } else {
                        trim_chars(&seg)
                    };
                    let w = width_of_chars(&content);
                    let a = if w > usize::MAX - 2 {
                        usize::MAX
                    } else {
                        w + 2
                    };
                    let b = if a >= 1 {
                        a
                    } else {
                        1
                    };
                    if b > best {
                        best = b;
                    }
                },
                None => {},
            }
        }
        y = y + 1;
    }
    best
}

fn is_double_char(c: char) -> (r: bool)
    ensures
        r == double_char(c),
{
    c == '╔' || c == '╗' || c == '╚' || c == '╝' || c == '╠' || c == '╣' || c == '╦' || c == '╩'
        || c == '╬' || c == '║' || c == '╒' || c == '╓' || c == '╕' || c == '╖' || c == '╘' || c
        == '╙' || c == '╛' || c == '╜' || c == '╞' || c == '╟' || c == '╡' || c == '╢' || c == '╤'
        || c == '╥' || c == '╧' || c == '╨' || c == '╪' || c == '╫'
}

/// The horizontal stroke a border line uses (see `fill_spec`).
pub fn choose_horizontal_fill_char(line: &[char]) -> (r: char)
    ensures
        r == fill_spec(line@),
{
    if contains_char(line, '═') {
        return '═';
    }
    if contains_char(line, '─') {
        return '─';
    }
    let mut i: usize = 0;
    while i < line.len()
        invariant
            i <= line@.len(),
            !line@.contains('═'),
            !line@.contains('─'),
            forall|j: int| 0 <= j < i ==> !double_char(#[trigger] line@[j]),
        decreases line@.len() - i,
    {
        if is_double_char(line[i]) {
            assert(double_char(line@[i as int]));
            return '═';
        }
        i = i + 1;
    }
    '─'
}

fn border_left_marker(outer_vertical: char, horizontal: char) -> (r: char)
    ensures
        r == left_junction(outer_vertical, horizontal),
{
    let outer_double = outer_vertical == '║';
    let horiz_double = horizontal == '═';
    match (outer_double, horiz_double) {
        (true, true) => '╠',
        (true, false) => '╟',
        (false, true) => '╞',
        (false, false) => '├',
    }
}

fn border_right_marker(outer_vertical: char, horizontal: char) -> (r: char)
    ensures
        r == right_junction(outer_vertical, horizontal),
{
    let outer_double = outer_vertical == '║';
    let horiz_double = horizontal == '═';
    match (outer_double, horiz_double) {
        (true, true) => '╣',
        (true, false) => '╢',
        (false, true) => '╡',
        (false, false) => '┤',
    }
}

/// The outer border found on the first content line.
fn outer_border(grid: &[Vec<char>], infos: &[ParsedTableLine], mc: usize, left: bool) -> (r: Option<char>)
    requires
        infos_ok(infos@, grid_view(grid@)),
        uniform_markers(grid_view(grid@), mc as nat),
        mc >= 1,
    ensures
        r == outer_border_spec(grid_view(grid@), 0, mc as nat, left),
{
    let ghost ls = grid_view(grid@);
    let mut y: usize = 0;
    while y < grid.len()
        invariant
            y <= grid@.len(),
            ls == grid_view(grid@),
            infos_ok(infos@, ls),
            uniform_markers(ls, mc as nat),
            mc >= 1,
            outer_border_spec(ls, y as int, mc as nat, left) == outer_border_spec(ls, 0, mc as nat, left),
        decreases grid@.len() - y,
    {
        let line = grid[y].as_slice();
        assert(line@ == ls[y as int]);
        if !infos[y].is_border_line {
            assert(markers_of(ls[y as int]).len() == mc);
            let c = if left {
                infos[y].markers[0].1
            } else {
                infos[y].markers[mc - 1].1
            };
            if is_vertical_border_char(c) {
                return Some(c);
            } else {
                return None;
            }
        }
        y = y + 1;
    }
    None
}

} // verus!

verus! {

/// The text of a segment laid out in `tw` cells (see `seg_body`).
fn render_seg_body(
    line: &[char],
    li: usize,
    k: usize,
    seg: &[char],
    tw: usize,
    cs: usize,
    ce: usize,
    art: bool,
    header: Option<usize>,
    border: bool,
    fill: char,
) -> (r: Vec<char>)
    requires
        border == border_line(line@),
        fill == fill_spec(line@),
    ensures
        r@ == seg_body(line@, li as int, k as int, seg@, tw as nat, cs as nat, ce as nat, art, header),
{
    let is_header = match header {
        Some(h) => h == li,
        None => false,
    };
    if border {
        if contains_char(seg, '─') || contains_char(seg, '═') {
            let mut out: Vec<char> = Vec::new();
            push_repeat(&mut out, fill, tw);
            proof {
                assert(Seq::<char>::empty() + repeat_char(fill, tw as nat) =~= repeat_char(fill, tw as nat));
            }
            return out;
        }
        return spaces_vec(tw);
    }
    if k < cs || k >= ce {
        return spaces_vec(tw);
    }
    if art && !is_header {
        let w = width_of_chars(seg);
        let mut out = slice_chars(seg, 0, seg.len());
        proof {
            assert(seg@.subrange(0, seg@.len() as int) =~= seg@);
        }
        if w < tw {
            push_spaces(&mut out, tw - w);
        }
        return out;
    }
    let c = trim_chars(seg);
    let cw = width_of_chars(&c);
    if c.len() == 0 {
        return spaces_vec(tw);
    }
    if tw <= cw {
        return c;
    }
    if is_header {
        if tw - cw >= 2 {
            let mut out: Vec<char> = Vec::new();
            out.push(' ');
            let centered = center_chars(&c, tw - 2);
            push_all(&mut out, &centered);
            out.push(' ');
            proof {
                assert(out@ =~= seq![' '] + center_spec(c@, (tw - 2) as nat) + seq![' ']);
            }
            return out;
        }
        return center_chars(&c, tw);
    }
    let lead: usize = 1;
    let mut out = spaces_vec(lead);
    push_all(&mut out, &c);
    push_spaces(&mut out, tw - (lead + cw));
    out
}

/// A table line laid out (see `render_line_spec`).
fn render_table_line(
    line: &[char],
    li: usize,
    markers: &[(usize, char)],
    mc: usize,
    targets: &[usize],
    cs: usize,
    ce: usize,
    art: bool,
    header: Option<usize>,
    outer_left: Option<char>,
    outer_right: Option<char>,
) -> (r: Vec<char>)
    requires
        markers@ == markers_of(line@),
        markers@.len() == mc,
        mc >= 2,
        targets@.len() == mc - 1,
    ensures
        r@ == render_line_spec(
            line@,
            li as int,
            mc as nat,
            targets@,
            cs as nat,
            ce as nat,
            art,
            header,
            outer_left,
            outer_right,
        ),
{
    let n = line.len();
    assert(line@.len() == n);
    proof {
        lemma_markers(line@);
    }
    let border = is_border_line(line);
    let fill = choose_horizontal_fill_char(line);
    let mut out = slice_chars(line, 0, markers[0].0);
    let ghost prefix = out@;
    assert(prefix == line@.take(markers_of(line@)[0].0 as int));
    let sc = mc - 1;
    let mut k: usize = 0;
    while k < sc
        invariant
            k <= sc,
            sc == mc - 1,
            markers@ == markers_of(line@),
            markers@.len() == mc,
            targets@.len() == sc,
            border == border_line(line@),
            fill == fill_spec(line@),
            out@ == prefix + render_segs(
                line@,
                li as int,
                k as nat,
                targets@,
                cs as nat,
                ce as nat,
                art,
                header,
                outer_left,
            ),
        decreases sc - k,
    {
        let ghost before = out@;
        let lc = markers[k].1;
        let mut mch = lc;
        if border && k == 0 && !is_vertical_border_char(lc) {
            match outer_left {
                Some(outer) => {
                    mch = border_left_marker(outer, fill);
                },
                None => {},
            }
        }
        out.push(mch);
        match slice_segment(line, markers, k) {
            Some(seg) => {
                let body = render_seg_body(
                    line,
                    li,
                    k,
                    &seg,
                    targets[k],
                    cs,
                    ce,
                    art,
                    header,
                    border,
                    fill,
                );
                push_all(&mut out, &body);
            },
            None => {},
        }
        proof {
            let rs = render_seg(line@, li as int, k as int, targets@, cs as nat, ce as nat, art, header, outer_left);
            assert(out@ =~= before + rs);
            assert(render_segs(line@, li as int, (k + 1) as nat, targets@, cs as nat, ce as nat, art, header, outer_left)
                == render_segs(line@, li as int, k as nat, targets@, cs as nat, ce as nat, art, header, outer_left) + rs);
        }
        k = k + 1;
    }
    let last_pos = markers[mc - 1].0;
    let last_ch = markers[mc - 1].1;
    let mut last_marker = last_ch;
    if border && !is_vertical_border_char(last_ch) {
        match outer_right {
            Some(outer) => {
                last_marker = border_right_marker(outer, fill);
            },
            None => {},
        }
    }
    out.push(last_marker);
    let ghost mid = out@;
    if last_pos + 1 < line.len() {
        let suffix = slice_chars(line, last_pos + 1, line.len());
        push_all(&mut out, &suffix);
        proof {
            assert(line@.skip(last_pos + 1) =~= line@.subrange(last_pos + 1, line@.len() as int));
        }
    }
    proof {
        if !(last_pos + 1 < line@.len()) {
            assert(out@ =~= mid + Seq::<char>::empty());
        }
    }
    out
}

} // verus!

verus! {

proof fn lemma_sum_nat_take(s: Seq<nat>, c: int)
    requires
        0 <= c < s.len(),
    ensures
        sum_nat(s.take(c + 1)) == sum_nat(s.take(c)) + s[c],
{
    assert(s.take(c + 1).drop_last() =~= s.take(c));
}

proof fn lemma_sum_nat_ge(s: Seq<nat>, c: int)
    requires
        0 <= c < s.len(),
    ensures
        sum_nat(s) >= s[c],
    decreases s.len(),
{
    if c < s.len() - 1 {
        lemma_sum_nat_ge(s.drop_last(), c);
    }
}

proof fn lemma_share_bound(extra: nat, n: nat, c: nat)
    requires
        n >= 1,
    ensures
        extra / n + (if c < extra % n {
            1nat
        } else {
            0nat
        }) <= extra,
{
    assert(extra / n + (if c < extra % n {
        1nat
    } else {
        0nat
    }) <= extra) by (nonlinear_arith)
        requires
            n >= 1,
    {
        assert(extra == n * (extra / n) + extra % n);
        assert(n * (extra / n) >= extra / n);
    }
}

/// The width every column from `cs` to `ce` needs, and their sum; `None`
/// when the sum does not fit a `usize`.
fn column_minimums(grid: &[Vec<char>], infos: &[ParsedTableLine], cs: usize, ce: usize, art: bool) -> (r:
    Option<(Vec<usize>, usize)>)
    requires
        infos_ok(infos@, grid_view(grid@)),
        cs <= ce,
    ensures
        match r {
            None => sum_nat(min_cols(grid_view(grid@), cs as nat, ce as nat, art)) > usize::MAX,
            Some((mins, sum)) => {
                let ms = min_cols(grid_view(grid@), cs as nat, ce as nat, art);
                &&& mins@.len() == ms.len()
                &&& forall|j: int| 0 <= j < ms.len() ==> #[trigger] mins@[j] as nat == ms[j]
                &&& sum == sum_nat(ms)
            },
        },
{
    let ghost ls = grid_view(grid@);
    let ghost ms = min_cols(ls, cs as nat, ce as nat, art);
    let n = ce - cs;
    let mut mins: Vec<usize> = Vec::new();
    let mut sum: usize = 0;
    let mut over = false;
    let mut c: usize = 0;
    while c < n
        invariant
            c <= n,
            n == ce - cs,
            ls == grid_view(grid@),
            infos_ok(infos@, ls),
            ms == min_cols(ls, cs as nat, ce as nat, art),
            ms.len() == n,
            mins@.len() == c,
            forall|j: int| 0 <= j < c ==> #[trigger] mins@[j] as nat == ms[j],
            !over ==> sum == sum_nat(ms.take(c as int)),
            over ==> sum_nat(ms.take(c as int)) > usize::MAX,
        decreases n - c,
    {
        let w = min_column_width(grid, infos, cs + c, art);
        mins.push(w);
        proof {
            lemma_sum_nat_take(ms, c as int);
        }
        if !over {
            if w > usize::MAX - sum {
                over = true;
            } else {
                sum = sum + w;
            }
        }
        c = c + 1;
    }
    assert(ms.take(n as int) =~= ms);
    if over {
        None
    } else {
        Some((mins, sum))
    }
}

/// The width of every segment (see `targets_spec`).
fn segment_targets(
    sc: usize,
    cs: usize,
    ce: usize,
    mins: &[usize],
    sum: usize,
    extra: usize,
    lp: bool,
    rp: bool,
    lw: usize,
    rw: usize,
    Ghost(ms): Ghost<Seq<nat>>,
) -> (targets: Vec<usize>)
    requires
        cs < ce <= sc,
        ms.len() == ce - cs,
        mins@.len() == ms.len(),
        forall|j: int| 0 <= j < ms.len() ==> #[trigger] mins@[j] as nat == ms[j],
        sum == sum_nat(ms),
        sum + extra <= usize::MAX,
    ensures
        targets@ == targets_spec(
            sc as nat,
            cs as nat,
            ce as nat,
            ms,
            extra as nat,
            lp,
            rp,
            lw as nat,
            rw as nat,
        ),
{
    let n = ce - cs;
    let add = extra / n;
    let rem = extra % n;
    let mut targets: Vec<usize> = Vec::new();
    let mut k: usize = 0;
    while k < sc
        invariant
            k <= sc,
            n == ce - cs,
            cs < ce <= sc,
            ms.len() == n,
            mins@.len() == n,
            forall|j: int| 0 <= j < n ==> #[trigger] mins@[j] as nat == ms[j],
            sum == sum_nat(ms),
            sum + extra <= usize::MAX,
            add == extra / n,
            rem == extra % n,
            targets@.len() == k,
            forall|j: int|
                0 <= j < k ==> #[trigger] targets@[j] == targets_spec(
                    sc as nat,
                    cs as nat,
                    ce as nat,
                    ms,
                    extra as nat,
                    lp,
                    rp,
                    lw as nat,
                    rw as nat,
                )[j],
        decreases sc - k,
    {
        let t: usize = if cs <= k && k < ce {
            let j = k - cs;
            proof {
                lemma_sum_nat_ge(ms, j as int);
                lemma_share_bound(extra as nat, n as nat, j as nat);
            }
            let one: usize = if j < rem {
                1
            } else {
                0
            };
            mins[j] + add + one
        } else if lp && k == 0 {
            lw
        } else if rp && k == sc - 1 {
            rw
        } else {
            0
        };
        targets.push(t);
        k = k + 1;
    }
    assert(targets@ =~= targets_spec(
        sc as nat,
        cs as nat,
        ce as nat,
        ms,
        extra as nat,
        lp,
        rp,
        lw as nat,
        rw as nat,
    ));
    targets
}

/// The layout of a table group: the width of every segment, the range of
/// columns, and whether the table holds ASCII art (see `layout_spec`).
fn compute_layout(grid: &[Vec<char>], infos: &[ParsedTableLine], mc: usize) -> (r: Option<
    (Vec<usize>, usize, usize, bool),
>)
    requires
        infos_ok(infos@, grid_view(grid@)),
        uniform_markers(grid_view(grid@), mc as nat),
        grid@.len() > 0,
    ensures
        match layout_spec(grid_view(grid@), mc as nat) {
            None => r is None,
            Some((t, cs, ce, art)) => r matches Some((v, c1, c2, a)) && v@ == t && c1 == cs && c2
                == ce && a == art,
        },
{
    let ghost ls = grid_view(grid@);
    if mc < 2 {
        return None;
    }
    let sc = mc - 1;
    let total = match max_segment_sum(grid, infos, sc) {
        Some(t) => t,
        None => {
            return None;
        },
    };
    let lp = segment_is_whitespace_only(grid, infos, 0);
    let rp = segment_is_whitespace_only(grid, infos, sc - 1);
    let mut lw: usize = if lp {
        min_segment_width(grid, infos, 0)
    } else {
        0
    };
    let mut rw: usize = if rp {
        min_segment_width(grid, infos, sc - 1)
    } else {
        0
    };
    if lp && rp {
        let p = if lw <= rw {
            lw
        } else {
            rw
        };
        lw = p;
        rw = p;
    }
    assert(padding_spec(ls, sc as nat) == (lp, rp, lw as nat, rw as nat));
    let cs: usize = if lp {
        1
    } else {
        0
    };
    let ce: usize = if rp {
        sc - 1
    } else {
        sc
    };
    if ce <= cs {
        return None;
    }
    let a1: usize = if total >= lw {
        total - lw
    } else {
        0
    };
    let available: usize = if a1 >= rw {
        a1 - rw
    } else {
        0
    };
    let art = group_has_ascii_art(grid, infos, cs, ce);
    let ghost ms = min_cols(ls, cs as nat, ce as nat, art);
    let (mins, sum) = match column_minimums(grid, infos, cs, ce, art) {
        Some(m) => m,
        None => {
            return None;
        },
    };
    if sum > available {
        return None;
    }
    let extra = available - sum;
    let targets = segment_targets(sc, cs, ce, mins.as_slice(), sum, extra, lp, rp, lw, rw, Ghost(ms));
    Some((targets, cs, ce, art))
}

} // verus!

verus! {

/// Lays out one table group in place: every column gets the width its
/// content needs plus an even share of the room the widest line gives, the
/// header line is centered, and border lines are redrawn with the stroke they
/// use. A group without a layout (see `layout_spec`) is left as it is.
pub fn format_table_group(lines: &mut [String], marker_count: usize)
    ensures
        lines_view(final(lines)@) == format_group_spec(lines_view(old(lines)@), marker_count as nat),
{
    let ghost ls = lines_view(lines@);
    if lines.len() == 0 {
        return;
    }
    let parsed = match parse_table_group(lines, marker_count) {
        Some(p) => p,
        None => {
            return;
        },
    };
    let snapshot = to_grid(lines);
    assert(grid_view(snapshot@) == ls);
    proof {
        lemma_header_flags(Seq::new(ls.len(), |j: int| border_line(ls[j])), ls, 0);
    }
    if marker_count < 2 {
        return;
    }
    let outer_left = outer_border(&snapshot, parsed.lines.as_slice(), marker_count, true);
    let outer_right = outer_border(&snapshot, parsed.lines.as_slice(), marker_count, false);
    let (targets, cs, ce, art) = match compute_layout(&snapshot, parsed.lines.as_slice(), marker_count) {
        Some(l) => l,
        None => {
            return;
        },
    };
    let ghost spec = format_group_spec(ls, marker_count as nat);
    let mut y: usize = 0;
    while y < lines.len()
        invariant
            y <= lines@.len(),
            lines@.len() == ls.len(),
            ls == grid_view(snapshot@),
            infos_ok(parsed.lines@, ls),
            uniform_markers(ls, marker_count as nat),
            marker_count >= 2,
            parsed.header_line == header_flags(Seq::new(ls.len(), |j: int| border_line(ls[j])), 0),
            layout_spec(ls, marker_count as nat) == Some((targets@, cs as nat, ce as nat, art)),
            outer_left == outer_border_spec(ls, 0, marker_count as nat, true),
            outer_right == outer_border_spec(ls, 0, marker_count as nat, false),
            spec == format_group_spec(ls, marker_count as nat),
            spec.len() == ls.len(),
            forall|j: int| 0 <= j < y ==> (#[trigger] lines@[j])@ == spec[j],
        decreases lines@.len() - y,
    {
        assert(snapshot@[y as int]@ == ls[y as int]);
        assert(markers_of(ls[y as int]).len() == marker_count);
        let new_line = render_table_line(
            snapshot[y].as_slice(),
            y,
            parsed.lines[y].markers.as_slice(),
            marker_count,
            targets.as_slice(),
            cs,
            ce,
            art,
            parsed.header_line,
            outer_left,
            outer_right,
        );
        lines[y] = string_of(&new_line);
        y = y + 1;
    }
    assert(lines_view(lines@) =~= spec);
}

/// The lines after laying out group `g`: the group's lines are replaced by
/// their layout, the others stay.
pub open spec fn apply_group(ls: Seq<Seq<char>>, g: TableGroup) -> Seq<Seq<char>> {
    let s = g.start_line as int;
    let e = g.end_line as int;
    if s < e && e <= ls.len() {
        ls.take(s) + format_group_spec(ls.subrange(s, e), g.marker_count as nat) + ls.skip(e)
    } else {
        ls
    }
}

/// The lines after laying out the groups `gs` one after the other.
pub open spec fn apply_groups(ls: Seq<Seq<char>>, gs: Seq<TableGroup>) -> Seq<Seq<char>>
    decreases gs.len(),
{
    if gs.len() == 0 {
        ls
    } else {
        apply_group(apply_groups(ls, gs.drop_last()), gs.last())
    }
}

/// Every table of the lines laid out.
pub open spec fn tables_spec(ls: Seq<Seq<char>>) -> Seq<Seq<char>> {
    apply_groups(ls, groups_from(ls, 0))
}

proof fn lemma_apply_groups_len(ls: Seq<Seq<char>>, gs: Seq<TableGroup>)
    ensures
        apply_groups(ls, gs).len() == ls.len(),
    decreases gs.len(),
{
    if gs.len() > 0 {
        lemma_apply_groups_len(ls, gs.drop_last());
        let p = apply_groups(ls, gs.drop_last());
        let g = gs.last();
        if (g.start_line as int) < (g.end_line as int) && (g.end_line as int) <= p.len() {
            assert(format_group_spec(p.subrange(g.start_line as int, g.end_line as int), g.marker_count as nat).len()
                == g.end_line - g.start_line);
        }
    }
}

/// Lays out the lines of group `g` in place (see `apply_group`).
fn format_group_lines(lines: &mut Vec<String>, g: TableGroup)
    requires
        g.start_line < g.end_line <= old(lines)@.len(),
    ensures
        lines_view(final(lines)@) == apply_group(lines_view(old(lines)@), g),
{
    let ghost before = lines_view(lines@);
    let mut sub: Vec<String> = Vec::new();
    let mut j: usize = g.start_line;
    while j < g.end_line
        invariant
            g.start_line <= j <= g.end_line <= lines@.len(),
            lines_view(sub@) == before.subrange(g.start_line as int, j as int),
            before == lines_view(lines@),
        decreases g.end_line - j,
    {
        let ghost b = sub@;
        sub.push(lines[j].clone());
        proof {
            assert(lines_view(sub@) =~= lines_view(b).push(before[j as int]));
            assert(before.subrange(g.start_line as int, j + 1) =~= before.subrange(
                g.start_line as int,
                j as int,
            ).push(before[j as int]));
        }
        j = j + 1;
    }
    format_table_group(sub.as_mut_slice(), g.marker_count);
    let ghost formatted = lines_view(sub@);
    assert(formatted.len() == g.end_line - g.start_line);
    let mut j: usize = 0;
    while j < sub.len()
        invariant
            j <= sub@.len(),
            sub@.len() == g.end_line - g.start_line,
            g.end_line <= lines@.len(),
            lines@.len() == before.len(),
            formatted == lines_view(sub@),
            forall|k: int|
                0 <= k < before.len() ==> (#[trigger] lines@[k])@ == if g.start_line <= k
                    < g.start_line + j {
                    formatted[k - g.start_line]
                } else {
                    before[k]
                },
        decreases sub@.len() - j,
    {
        lines[g.start_line + j] = sub[j].clone();
        j = j + 1;
    }
    assert(lines_view(lines@) =~= apply_group(before, g));
}

/// Lays out every table of the diagram.
pub fn format_tables(diagram: &mut ParsedDiagram) -> (r: Result<(), Error>)
    ensures
        r is Ok,
        lines_view(final(diagram).lines@) == tables_spec(lines_view(old(diagram).lines@)),
        final(diagram).lines@.len() == old(diagram).lines@.len(),
        final(diagram).diagram_type == old(diagram).diagram_type,
{
    let ghost ls = lines_view(diagram.lines@);
    let groups = detect_table_groups(&diagram.lines);
    let mut i: usize = 0;
    while i < groups.len()
        invariant
            i <= groups@.len(),
            groups@ == groups_from(ls, 0),
            forall|k: int| 0 <= k < groups@.len() ==> group_within(#[trigger] groups@[k], 0, ls.len() as int),
            lines_view(diagram.lines@) == apply_groups(ls, groups@.take(i as int)),
            diagram.lines@.len() == ls.len(),
            diagram.diagram_type == old(diagram).diagram_type,
            ls == lines_view(old(diagram).lines@),
        decreases groups@.len() - i,
    {
        let g = groups[i];
        proof {
            assert(groups@.take(i + 1).drop_last() =~= groups@.take(i as int));
            assert(groups@.take(i + 1).last() == g);
            assert(group_within(groups@[i as int], 0, ls.len() as int));
            lemma_apply_groups_len(ls, groups@.take(i as int));
        }
        if g.start_line < g.end_line {
            format_group_lines(&mut diagram.lines, g);
        }
        proof {
            lemma_apply_groups_len(ls, groups@.take(i + 1));
        }
        i = i + 1;
    }
    assert(groups@.take(groups@.len() as int) =~= groups@);
    Ok(())
}

} // verus!

verus! {

proof fn lemma_apply_groups_outside(ls: Seq<Seq<char>>, gs: Seq<TableGroup>, y: int)
    requires
        0 <= y < ls.len(),
        forall|k: int|
            0 <= k < gs.len() ==> !((#[trigger] gs[k]).start_line <= y < gs[k].end_line),
    ensures
        apply_groups(ls, gs)[y] == ls[y],
    decreases gs.len(),
{
    if gs.len() > 0 {
        let init = gs.drop_last();
        assert forall|k: int| 0 <= k < init.len() implies !((#[trigger] init[k]).start_line <= y < init[k].end_line) by {
            assert(init[k] == gs[k]);
        }
        lemma_apply_groups_outside(ls, init, y);
        lemma_apply_groups_len(ls, init);
        let p = apply_groups(ls, init);
        let g = gs.last();
        assert(!(g.start_line <= y < g.end_line));
        let s = g.start_line as int;
        let e = g.end_line as int;
        if s < e && e <= p.len() {
            let f = format_group_spec(p.subrange(s, e), g.marker_count as nat);
            assert(f.len() == e - s);
            if y < s {
                assert((p.take(s) + f + p.skip(e))[y] == p.take(s)[y]);
            } else {
                assert((p.take(s) + f + p.skip(e))[y] == p.skip(e)[y - e]);
            }
        }
    }
}

/// Laying out tables keeps the number of lines and leaves every line outside
/// the detected table groups as it was.
pub proof fn lemma_tables_keep_other_lines(ls: Seq<Seq<char>>, y: int)
    requires
        0 <= y < ls.len(),
        forall|k: int|
            0 <= k < groups_from(ls, 0).len() ==> !((#[trigger] groups_from(ls, 0)[k]).start_line
                <= y < groups_from(ls, 0)[k].end_line),
    ensures
        tables_spec(ls).len() == ls.len(),
        tables_spec(ls)[y] == ls[y],
{
    lemma_apply_groups_len(ls, groups_from(ls, 0));
    lemma_apply_groups_outside(ls, groups_from(ls, 0), y);
}

} // verus!

verus! {

/// The widths of a sequence of segments added up.
pub open spec fn sum_widths(s: Seq<usize>) -> nat
    decreases s.len(),
{
    if s.len() == 0 {
        0
    } else {
        sum_widths(s.drop_last()) + s.last() as nat
    }
}

proof fn lemma_sum_widths_split(s: Seq<usize>, i: int)
    requires
        0 <= i <= s.len(),
    ensures
        sum_widths(s) == sum_widths(s.take(i)) + sum_widths(s.skip(i)),
    decreases s.len(),
{
    if i < s.len() {
        lemma_sum_widths_split(s.drop_last(), i);
        assert(s.drop_last().take(i) =~= s.take(i));
        assert(s.skip(i).drop_last() =~= s.drop_last().skip(i));
        assert(s.skip(i).last() == s.last());
    } else {
        assert(s.take(i) =~= s);
        assert(s.skip(i).len() == 0);
    }
}

/// The column widths: what each column needs plus its share of `extra`.
pub open spec fn column_widths(mins: Seq<nat>, extra: nat, m: nat) -> Seq<usize> {
    let n = mins.len();
    Seq::new(
        m,
        |c: int|
            (mins[c] + extra / n + if c < extra % n {
                1nat
            } else {
                0nat
            }) as usize,
    )
}

proof fn lemma_column_widths_sum(mins: Seq<nat>, extra: nat, m: nat)
    requires
        m <= mins.len(),
        mins.len() >= 1,
        sum_nat(mins) + extra <= usize::MAX,
    ensures
        sum_widths(column_widths(mins, extra, m)) == sum_nat(mins.take(m as int)) + m * (extra
            / mins.len()) + if m < extra % mins.len() {
            m
        } else {
            extra % mins.len()
        },
    decreases m,
{
    let n = mins.len();
    if m > 0 {
        let c = (m - 1) as nat;
        lemma_column_widths_sum(mins, extra, c);
        assert(column_widths(mins, extra, m).drop_last() =~= column_widths(mins, extra, c));
        lemma_sum_nat_ge(mins, c as int);
        lemma_share_bound(extra, n, c);
        lemma_sum_nat_take(mins, c as int);
        let q = extra / n;
        assert(m * q == c * q + q) by (nonlinear_arith)
            requires
                m == c + 1,
        ;
    } else {
        assert(mins.take(0) =~= Seq::<nat>::empty());
    }
}

proof fn lemma_min_seg_width_le(ls: Seq<Seq<char>>, k: int, n: nat, y: int)
    requires
        0 <= y < n <= ls.len(),
        segment(ls[y], k) is Some,
    ensures
        min_seg_width(ls, k, n) is Some,
        unwrap_or_zero(min_seg_width(ls, k, n)) <= seg_width(ls[y], k),
    decreases n,
{
    if y < n - 1 {
        lemma_min_seg_width_le(ls, k, (n - 1) as nat, y);
    }
    if n > 1 && segment(ls[n - 1], k) is None {
        if y == n - 1 {
            assert(false);
        }
    }
}

proof fn lemma_seg_width_sum_ends(l: Seq<char>, sc: nat)
    requires
        sc >= 1,
    ensures
        seg_width_sum(l, sc) >= seg_width(l, 0),
        seg_width_sum(l, sc) >= seg_width(l, sc - 1),
        sc >= 2 ==> seg_width_sum(l, sc) >= seg_width(l, 0) + seg_width(l, sc - 1),
{
    reveal_with_fuel(seg_width_sum, 2);
    assert(seg_width_sum(l, 1) == seg_width(l, 0));
    lemma_seg_width_sum_mono(l, 1, sc);
    if sc >= 2 {
        lemma_seg_width_sum_mono(l, 1, (sc - 1) as nat);
    }
}

/// The padding kept on both ends is no wider than the widest line.
proof fn lemma_padding_fits(ls: Seq<Seq<char>>, sc: nat)
    requires
        ls.len() > 0,
        sc >= 1,
        padding_spec(ls, sc).0 && padding_spec(ls, sc).1 ==> sc >= 2,
    ensures
        max_seg_sum(ls, sc, ls.len()) >= padding_spec(ls, sc).2 + padding_spec(ls, sc).3,
{
    let (lp, rp, lw, rw) = padding_spec(ls, sc);
    lemma_max_seg_sum_ge(ls, sc, ls.len(), 0);
    lemma_seg_width_sum_ends(ls[0], sc);
    if lp {
        assert(segment(ls[0], 0) is Some);
        lemma_min_seg_width_le(ls, 0, ls.len(), 0);
    }
    if rp {
        assert(segment(ls[0], sc - 1) is Some);
        lemma_min_seg_width_le(ls, sc - 1, ls.len(), 0);
    }
}

proof fn lemma_targets_sum(
    sc: nat,
    cs: nat,
    ce: nat,
    mins: Seq<nat>,
    extra: nat,
    lp: bool,
    rp: bool,
    lw: nat,
    rw: nat,
)
    requires
        cs == (if lp {
            1nat
        } else {
            0nat
        }),
        ce == (if rp {
            (sc - 1) as nat
        } else {
            sc
        }),
        cs < ce <= sc,
        mins.len() == ce - cs,
        sum_nat(mins) + extra <= usize::MAX,
        lw <= usize::MAX,
        rw <= usize::MAX,
    ensures
        sum_widths(targets_spec(sc, cs, ce, mins, extra, lp, rp, lw, rw)) == sum_nat(mins) + extra
            + (if lp {
            lw
        } else {
            0
        }) + (if rp {
            rw
        } else {
            0
        }),
{
    let t = targets_spec(sc, cs, ce, mins, extra, lp, rp, lw, rw);
    let n = (ce - cs) as nat;
    lemma_sum_widths_split(t, cs as int);
    lemma_sum_widths_split(t.skip(cs as int), n as int);
    lemma_column_widths_sum(mins, extra, n);
    assert(mins.take(n as int) =~= mins);
    assert(t.skip(cs as int).take(n as int) =~= column_widths(mins, extra, n));
    assert(n * (extra / n) + extra % n == extra) by (nonlinear_arith)
        requires
            n >= 1,
    ;
    let pre = t.take(cs as int);
    let post = t.skip(cs as int).skip(n as int);
    if lp {
        assert(pre.drop_last() =~= Seq::<usize>::empty());
        assert(sum_widths(pre.drop_last()) == 0);
        assert(pre.last() == t[0]);
        assert(sum_widths(pre) == lw);
    } else {
        assert(sum_widths(pre) == 0);
    }
    if rp {
        assert(post.len() == 1);
        assert(post.drop_last() =~= Seq::<usize>::empty());
        assert(sum_widths(post.drop_last()) == 0);
        assert(post.last() == t[sc - 1]);
        assert(sum_widths(post) == rw);
    } else {
        assert(post.len() == 0);
    }
}

/// A laid-out table is exactly as wide as its widest line: the widths given to
/// its segments add up to the largest sum of segment widths over its lines.
pub proof fn lemma_layout_fills_width(ls: Seq<Seq<char>>, mc: nat)
    requires
        layout_spec(ls, mc) is Some,
    ensures
        sum_widths((layout_spec(ls, mc)->0).0) == max_seg_sum(ls, seg_count(mc), ls.len()),
{
    let sc = seg_count(mc);
    let (lp, rp, lw, rw) = padding_spec(ls, sc);
    let cs: nat = if lp {
        1
    } else {
        0
    };
    let ce: nat = if rp {
        sat_sub(sc, 1)
    } else {
        sc
    };
    let total = max_seg_sum(ls, sc, ls.len());
    let available = sat_sub(sat_sub(total, lw), rw);
    let art = is_art_spec(ls, cs, ce);
    let mins = min_cols(ls, cs, ce, art);
    assert(ls.len() > 0 && sc >= 1 && cs < ce && total <= usize::MAX && sum_nat(mins) <= available);
    let extra = (available - sum_nat(mins)) as nat;
    assert((layout_spec(ls, mc)->0).0 == targets_spec(sc, cs, ce, mins, extra, lp, rp, lw, rw));
    lemma_padding_fits(ls, sc);
    lemma_targets_sum(sc, cs, ce, mins, extra, lp, rp, lw, rw);
}

} // verus!

verus! {

/// The number of table markers on a line.
pub open spec fn marker_count(l: Seq<char>) -> nat {
    markers_of(l).len()
}

/// Lines `s..e` all have `k` table markers, and the lines just before and
/// just after (where they exist) do not: a maximal run of equal marker counts.
pub open spec fn maximal_run(g: Seq<Seq<char>>, s: int, e: int, k: nat) -> bool {
    &&& 0 <= s < e <= g.len()
    &&& forall|y: int| s <= y < e ==> marker_count(#[trigger] g[y]) == k
    &&& s == 0 || marker_count(g[s - 1]) != k
    &&& e == g.len() || marker_count(g[e]) != k
}

/// A group is a maximal run of at least three markers per line that looks
/// like a table (see `table_candidate`).
pub open spec fn table_run(g: Seq<Seq<char>>, t: TableGroup) -> bool {
    &&& maximal_run(g, t.start_line as int, t.end_line as int, t.marker_count as nat)
    &&& t.marker_count >= 3
    &&& table_candidate(
        g.subrange(t.start_line as int, t.end_line as int),
        t.marker_count as nat,
    )
}

/// Groups listed in order of their lines, without overlap.
pub open spec fn ordered_groups(gs: Seq<TableGroup>) -> bool {
    forall|a: int, b: int| 0 <= a < b < gs.len() ==> (#[trigger] gs[a]).end_line <= (
    #[trigger] gs[b]).start_line
}

proof fn lemma_markers_upto_count(l: Seq<char>, n: nat)
    requires
        n <= l.len(),
    ensures
        markers_upto(l, n).len() <= n,
        markers_upto(l, n).len() == 0 <==> forall|i: int| 0 <= i < n ==> !table_marker(#[trigger] l[i]),
    decreases n,
{
    if n > 0 {
        lemma_markers_upto_count(l, (n - 1) as nat);
        if markers_upto(l, (n - 1) as nat).len() != 0 {
            let i = choose|i: int| 0 <= i < n - 1 && table_marker(#[trigger] l[i]);
            assert(table_marker(l[i]));
        }
    }
}

/// A line without table markers has none counted, and no line has more
/// markers than characters.
proof fn lemma_marker_count(l: Seq<char>)
    ensures
        marker_count(l) <= l.len(),
        marker_count(l) == 0 <==> !has_markers(l),
{
    lemma_markers_upto_count(l, l.len());
}

proof fn lemma_same_count_end_run(g: Seq<Seq<char>>, j: int, e: int, count: nat)
    requires
        0 <= j <= e <= g.len(),
    ensures
        forall|y: int| j <= y < same_count_end(g, j, e, count) ==> marker_count(#[trigger] g[y]) == count,
        same_count_end(g, j, e, count) == e || marker_count(g[same_count_end(g, j, e, count)])
            != count,
    decreases e - j,
{
    if j < e && markers_of(g[j]).len() == count {
        lemma_same_count_end_run(g, j + 1, e, count);
    }
}

proof fn lemma_marker_run_end_run(g: Seq<Seq<char>>, i: int)
    requires
        0 <= i <= g.len(),
    ensures
        forall|y: int| i <= y < marker_run_end(g, i) ==> has_markers(#[trigger] g[y]),
        marker_run_end(g, i) == g.len() || !has_markers(g[marker_run_end(g, i)]),
    decreases g.len() - i,
{
    if i < g.len() && has_markers(g[i]) {
        lemma_marker_run_end_run(g, i + 1);
    }
}

proof fn lemma_run_groups_runs(g: Seq<Seq<char>>, j: int, e: int)
    requires
        0 <= j,
        e <= g.len() <= usize::MAX,
        forall|y: int| 0 <= y < g.len() ==> (#[trigger] g[y]).len() <= usize::MAX,
        forall|y: int| j <= y < e ==> has_markers(#[trigger] g[y]),
        e == g.len() || !has_markers(g[e]),
        j < e && j > 0 ==> marker_count(g[j - 1]) != marker_count(g[j]),
    ensures
        forall|k: int| 0 <= k < run_groups(g, j, e).len() ==> table_run(g, #[trigger] run_groups(g, j, e)[k]),
        ordered_groups(run_groups(g, j, e)),
    decreases e - j,
{
    if j < e {
        let count = markers_of(g[j]).len();
        lemma_same_count_end(g, j + 1, e, count);
        lemma_same_count_end_run(g, j + 1, e, count);
        let j2 = same_count_end(g, j + 1, e, count);
        if j2 < e {
            lemma_marker_count(g[j2 - 1]);
        }
        lemma_run_groups_runs(g, j2, e);
        lemma_run_groups_bounds(g, j2, e);
        let rest = run_groups(g, j2, e);
        let rg = run_groups(g, j, e);
        lemma_marker_count(g[j]);
        if e < g.len() {
            lemma_marker_count(g[e]);
        }
        if j > 0 {
            lemma_marker_count(g[j - 1]);
        }
        if table_candidate(g.subrange(j, j2), count) {
            let t = TableGroup { start_line: j as usize, end_line: j2 as usize, marker_count: count as usize };
            assert(rg[0] == t);
            assert(table_run(g, t));
            assert forall|k: int| 0 <= k < rg.len() implies table_run(g, #[trigger] rg[k]) by {
                if k > 0 {
                    assert(rg[k] == rest[k - 1]);
                }
            }
            assert forall|a: int, b: int| 0 <= a < b < rg.len() implies (#[trigger] rg[a]).end_line <= (
            #[trigger] rg[b]).start_line by {
                assert(rg[b] == rest[b - 1]);
                assert(group_within(rest[b - 1], j2, e));
                if a > 0 {
                    assert(rg[a] == rest[a - 1]);
                }
            }
        } else {
            assert(rg =~= rest);
        }
    }
}

proof fn lemma_groups_from_runs(g: Seq<Seq<char>>, i: int)
    requires
        0 <= i,
        g.len() <= usize::MAX,
        forall|y: int| 0 <= y < g.len() ==> (#[trigger] g[y]).len() <= usize::MAX,
        0 < i < g.len() && has_markers(g[i]) ==> !has_markers(g[i - 1]),
    ensures
        forall|k: int| 0 <= k < groups_from(g, i).len() ==> table_run(g, #[trigger] groups_from(g, i)[k]),
        ordered_groups(groups_from(g, i)),
    decreases g.len() - i,
{
    if i < g.len() {
        if !has_markers(g[i]) {
            lemma_groups_from_runs(g, i + 1);
        } else {
            lemma_marker_run_end(g, i + 1);
            lemma_marker_run_end_run(g, i + 1);
            let e = marker_run_end(g, i + 1);
            if i > 0 {
                lemma_marker_count(g[i - 1]);
                lemma_marker_count(g[i]);
            }
            lemma_run_groups_runs(g, i, e);
            lemma_run_groups_bounds(g, i, e);
            if e < g.len() {
                assert(!has_markers(g[e]));
            }
            lemma_groups_from_runs(g, e);
            lemma_groups_from_bounds(g, e);
            let rg = run_groups(g, i, e);
            let rest = groups_from(g, e);
            let all = groups_from(g, i);
            assert(all == rg + rest);
            assert forall|k: int| 0 <= k < all.len() implies table_run(g, #[trigger] all[k]) by {
                if k < rg.len() {
                    assert(all[k] == rg[k]);
                } else {
                    assert(all[k] == rest[k - rg.len()]);
                }
            }
            assert forall|a: int, b: int| 0 <= a < b < all.len() implies (#[trigger] all[a]).end_line <= (
            #[trigger] all[b]).start_line by {
                if b < rg.len() {
                    assert(all[a] == rg[a]);
                    assert(all[b] == rg[b]);
                } else if a < rg.len() {
                    assert(all[a] == rg[a]);
                    assert(group_within(rg[a], i, e));
                    assert(all[b] == rest[b - rg.len()]);
                    assert(group_within(rest[b - rg.len()], e, g.len() as int));
                } else {
                    assert(all[a] == rest[a - rg.len()]);
                    assert(all[b] == rest[b - rg.len()]);
                }
            }
        }
    }
}

proof fn lemma_seq_concat_contains(a: Seq<TableGroup>, b: Seq<TableGroup>, t: TableGroup)
    ensures
        a.contains(t) ==> (a + b).contains(t),
        b.contains(t) ==> (a + b).contains(t),
{
    if a.contains(t) {
        let k = choose|k: int| 0 <= k < a.len() && a[k] == t;
        assert((a + b)[k] == t);
    }
    if b.contains(t) {
        let k = choose|k: int| 0 <= k < b.len() && b[k] == t;
        assert((a + b)[a.len() + k] == t);
    }
}

proof fn lemma_run_groups_complete(g: Seq<Seq<char>>, j: int, e2: int, s: int, e: int, k: nat)
    requires
        0 <= j <= s,
        e <= e2 <= g.len() <= usize::MAX,
        forall|y: int| 0 <= y < g.len() ==> (#[trigger] g[y]).len() <= usize::MAX,
        maximal_run(g, s, e, k),
        k >= 3,
        table_candidate(g.subrange(s, e), k),
        forall|y: int| j <= y < e2 ==> has_markers(#[trigger] g[y]),
    ensures
        run_groups(g, j, e2).contains(
            TableGroup { start_line: s as usize, end_line: e as usize, marker_count: k as usize },
        ),
    decreases e2 - j,
{
    let t = TableGroup { start_line: s as usize, end_line: e as usize, marker_count: k as usize };
    let count = markers_of(g[j]).len();
    lemma_same_count_end(g, j + 1, e2, count);
    lemma_same_count_end_run(g, j + 1, e2, count);
    let j2 = same_count_end(g, j + 1, e2, count);
    let rest = run_groups(g, j2, e2);
    let rg = run_groups(g, j, e2);
    lemma_marker_count(g[s]);
    if j == s {
        assert(count == k);
        if j2 < e {
            assert(marker_count(g[j2]) == k);
        }
        if e < j2 {
            assert(marker_count(g[e]) == k);
        }
        assert(j2 == e);
        assert(table_candidate(g.subrange(j, j2), count));
        assert(rg[0] == t);
    } else {
        if j2 > s {
            assert(marker_count(g[s - 1]) == count);
            assert(marker_count(g[s]) == count);
        }
        lemma_run_groups_complete(g, j2, e2, s, e, k);
        if table_candidate(g.subrange(j, j2), count) {
            let first = TableGroup { start_line: j as usize, end_line: j2 as usize, marker_count: count as usize };
            lemma_seq_concat_contains(seq![first], rest, t);
        } else {
            assert(rg =~= rest);
        }
    }
}

proof fn lemma_groups_from_complete(g: Seq<Seq<char>>, i: int, s: int, e: int, k: nat)
    requires
        0 <= i <= s,
        g.len() <= usize::MAX,
        forall|y: int| 0 <= y < g.len() ==> (#[trigger] g[y]).len() <= usize::MAX,
        0 < i < g.len() && has_markers(g[i]) ==> !has_markers(g[i - 1]),
        maximal_run(g, s, e, k),
        k >= 3,
        table_candidate(g.subrange(s, e), k),
    ensures
        groups_from(g, i).contains(
            TableGroup { start_line: s as usize, end_line: e as usize, marker_count: k as usize },
        ),
    decreases g.len() - i,
{
    let t = TableGroup { start_line: s as usize, end_line: e as usize, marker_count: k as usize };
    lemma_marker_count(g[s]);
    if !has_markers(g[i]) {
        lemma_groups_from_complete(g, i + 1, s, e, k);
    } else {
        lemma_marker_run_end(g, i + 1);
        lemma_marker_run_end_run(g, i + 1);
        let e2 = marker_run_end(g, i + 1);
        let rg = run_groups(g, i, e2);
        let rest = groups_from(g, e2);
        assert(groups_from(g, i) == rg + rest);
        if s < e2 {
            if e2 < e {
                lemma_marker_count(g[e2]);
                assert(marker_count(g[e2]) == k);
            }
            lemma_run_groups_complete(g, i, e2, s, e, k);
        } else {
            if s > i {
                if s == e2 {
                } else {
                    lemma_marker_count(g[e2]);
                }
            }
            lemma_groups_from_complete(g, e2, s, e, k);
        }
        lemma_seq_concat_contains(rg, rest, t);
    }
}

/// The table groups are exactly the maximal runs of lines with the same
/// number (at least three) of table markers that look like a table (see
/// `table_candidate`), in the order of their lines, without overlapping.
pub proof fn lemma_table_groups_are_maximal_runs(g: Seq<Seq<char>>)
    requires
        g.len() <= usize::MAX,
        forall|y: int| 0 <= y < g.len() ==> (#[trigger] g[y]).len() <= usize::MAX,
    ensures
        forall|k: int| 0 <= k < groups_from(g, 0).len() ==> table_run(g, #[trigger] groups_from(g, 0)[k]),
        ordered_groups(groups_from(g, 0)),
        forall|s: int, e: int, k: nat|
            #![trigger maximal_run(g, s, e, k), table_candidate(g.subrange(s, e), k)]
            maximal_run(g, s, e, k) && k >= 3 && table_candidate(g.subrange(s, e), k)
                ==> groups_from(g, 0).contains(
                TableGroup { start_line: s as usize, end_line: e as usize, marker_count: k as usize },
            ),
{
    lemma_groups_from_runs(g, 0);
    assert forall|s: int, e: int, k: nat|
        #![trigger maximal_run(g, s, e, k), table_candidate(g.subrange(s, e), k)]
        maximal_run(g, s, e, k) && k >= 3 && table_candidate(g.subrange(s, e), k)
            implies groups_from(g, 0).contains(
            TableGroup { start_line: s as usize, end_line: e as usize, marker_count: k as usize },
        ) by {
        lemma_groups_from_complete(g, 0, s, e, k);
    }
}

} // verus!

verus! {

/// Table markers are box-drawing glyphs other than the straight horizontal
/// strokes (so a border's fill lies between markers), and every junction is a
/// marker.
pub proof fn lemma_table_marker_glyphs(c: char)
    ensures
        table_marker(c) ==> crate::utils::box_drawing_spec(c) && c != '─' && c != '═',
        table_junction(c) ==> table_marker(c),
{
}

} // verus!

verus! {

proof fn lemma_apply_group_outside(p: Seq<Seq<char>>, t: TableGroup, y: int)
    requires
        0 <= y < p.len(),
        !(t.start_line <= y < t.end_line),
    ensures
        apply_group(p, t).len() == p.len(),
        apply_group(p, t)[y] == p[y],
{
    let s = t.start_line as int;
    let e = t.end_line as int;
    if s < e && e <= p.len() {
        let f = format_group_spec(p.subrange(s, e), t.marker_count as nat);
        assert(f.len() == e - s);
        if y < s {
            assert((p.take(s) + f + p.skip(e))[y] == p.take(s)[y]);
        } else {
            assert((p.take(s) + f + p.skip(e))[y] == p.skip(e)[y - e]);
        }
    }
}

proof fn lemma_apply_groups_each(ls: Seq<Seq<char>>, gs: Seq<TableGroup>, idx: int)
    requires
        0 <= idx < gs.len(),
        ordered_groups(gs),
        forall|k: int| 0 <= k < gs.len() ==> group_within(#[trigger] gs[k], 0, ls.len() as int),
    ensures
        apply_groups(ls, gs).subrange(gs[idx].start_line as int, gs[idx].end_line as int)
            == format_group_spec(
            ls.subrange(gs[idx].start_line as int, gs[idx].end_line as int),
            gs[idx].marker_count as nat,
        ),
    decreases gs.len(),
{
    let init = gs.drop_last();
    let last = gs.last();
    let p = apply_groups(ls, init);
    lemma_apply_groups_len(ls, init);
    let s = gs[idx].start_line as int;
    let e = gs[idx].end_line as int;
    assert(group_within(gs[idx], 0, ls.len() as int));
    assert(ordered_groups(init)) by {
        assert forall|a: int, b: int| 0 <= a < b < init.len() implies (#[trigger] init[a]).end_line <= (
        #[trigger] init[b]).start_line by {
            assert(init[a] == gs[a] && init[b] == gs[b]);
        }
    }
    assert forall|k: int| 0 <= k < init.len() implies group_within(#[trigger] init[k], 0, ls.len() as int) by {
        assert(init[k] == gs[k]);
    }
    if idx == gs.len() - 1 {
        assert forall|y: int| s <= y < e implies p[y] == ls[y] by {
            assert forall|k: int| 0 <= k < init.len() implies !((#[trigger] init[k]).start_line <= y
                < init[k].end_line) by {
                assert(init[k] == gs[k]);
                assert(gs[k].end_line <= gs[idx].start_line);
            }
            lemma_apply_groups_outside(ls, init, y);
        }
        assert(p.subrange(s, e) =~= ls.subrange(s, e));
        let f = format_group_spec(p.subrange(s, e), last.marker_count as nat);
        assert(f.len() == e - s);
        assert((p.take(s) + f + p.skip(e)).subrange(s, e) =~= f);
    } else {
        lemma_apply_groups_each(ls, init, idx);
        assert(init[idx] == gs[idx]);
        assert(gs[idx].end_line <= last.start_line);
        let r = apply_group(p, last);
        assert forall|y: int| s <= y < e implies r[y] == p[y] by {
            lemma_apply_group_outside(p, last, y);
        }
        lemma_apply_group_outside(p, last, s);
        assert(r.subrange(s, e) =~= p.subrange(s, e));
    }
}

/// Laying out the tables of a diagram lays out every group as it would be
/// laid out on its own: the lines of each detected group become exactly that
/// group's layout (see `format_group_spec`).
pub proof fn lemma_tables_lay_out_each_group(ls: Seq<Seq<char>>, idx: int)
    requires
        ls.len() <= usize::MAX,
        forall|y: int| 0 <= y < ls.len() ==> (#[trigger] ls[y]).len() <= usize::MAX,
        0 <= idx < groups_from(ls, 0).len(),
    ensures
        ({
            let t = groups_from(ls, 0)[idx];
            tables_spec(ls).subrange(t.start_line as int, t.end_line as int) == format_group_spec(
                ls.subrange(t.start_line as int, t.end_line as int),
                t.marker_count as nat,
            )
        }),
{
    lemma_table_groups_are_maximal_runs(ls);
    lemma_groups_from_bounds(ls, 0);
    lemma_apply_groups_each(ls, groups_from(ls, 0), idx);
}

} // verus!

verus! {

proof fn lemma_centered_keeps_text(c: Seq<char>, w: nat)
    requires
        crate::text::trimmed(c),
    ensures
        trim_spec(center_spec(c, w)) == c,
        trim_spec(seq![' '] + center_spec(c, w) + seq![' ']) == c,
{
    if width_of(c) >= w {
        crate::text::lemma_trim_padded(c, 0, 0);
        assert(spaces(0) + c + spaces(0) =~= c);
        crate::text::lemma_trim_padded(c, 1, 1);
        assert(seq![' '] + c + seq![' '] =~= spaces(1) + c + spaces(1));
    } else {
        let pad = (w - width_of(c)) as nat;
        let x = pad / 2;
        let y = (pad - pad / 2) as nat;
        crate::text::lemma_trim_padded(c, x, y);
        crate::text::lemma_trim_padded(c, x + 1, y + 1);
        assert(seq![' '] + (spaces(x) + c + spaces(y)) + seq![' '] =~= spaces(x + 1) + c + spaces(
            y + 1,
        ));
    }
}

/// On a content line, a laid-out segment trims to what the segment trimmed to.
proof fn lemma_seg_body_keeps_text(
    l: Seq<char>,
    li: int,
    k: int,
    seg: Seq<char>,
    tw: nat,
    cs: nat,
    ce: nat,
    art: bool,
    header: Option<usize>,
)
    requires
        !border_line(l),
        k < cs || k >= ce ==> trim_spec(seg).len() == 0,
    ensures
        trim_spec(seg_body(l, li, k, seg, tw, cs, ce, art, header)) == trim_spec(seg),
{
    let is_header = header == Some(li as usize);
    let c = trim_spec(seg);
    crate::text::lemma_trim_is_trimmed(seg);
    crate::text::lemma_trim_padded(Seq::<char>::empty(), tw, 0);
    assert(spaces(tw) + Seq::<char>::empty() + spaces(0) =~= spaces(tw));
    if k < cs || k >= ce {
    } else if art && !is_header {
        if width_of(seg) < tw {
            crate::text::lemma_trim_pad_right(seg, (tw - width_of(seg)) as nat);
        }
    } else {
        let cw = width_of(c);
        if c.len() == 0 {
            assert(c =~= Seq::<char>::empty());
        } else if tw <= cw {
            crate::text::lemma_trim_padded(c, 0, 0);
            assert(spaces(0) + c + spaces(0) =~= c);
        } else if is_header {
            if tw >= cw + 2 {
                lemma_centered_keeps_text(c, (tw - 2) as nat);
            } else {
                lemma_centered_keeps_text(c, tw);
            }
        } else {
            let lead: nat = if tw >= 1 {
                1
            } else {
                0
            };
            crate::text::lemma_trim_padded(c, lead, sat_sub(tw, lead + cw));
        }
    }
}

} // verus!

verus! {

/// On a content line of a laid-out table (a line without `─` or `═`), what
/// precedes the first marker and what follows the last one are kept, every
/// marker is kept, and every segment trims to what it trimmed to before: the
/// layout only moves the text of a cell within its cell.
pub proof fn lemma_table_layout_keeps_text(ls: Seq<Seq<char>>, mc: nat, i: int, k: int)
    requires
        layout_spec(ls, mc) is Some,
        0 <= i < ls.len(),
        !border_line(ls[i]),
        0 <= k < mc - 1,
        ls[i].len() <= usize::MAX,
    ensures
        ({
            let l = ls[i];
            let m = markers_of(l);
            let (targets, cs, ce, art) = layout_spec(ls, mc)->0;
            let hdr = header_flags(Seq::new(ls.len(), |j: int| border_line(ls[j])), 0);
            let ol = outer_border_spec(ls, 0, mc, true);
            let rs = render_seg(l, i, k, targets, cs, ce, art, hdr, ol);
            &&& format_group_spec(ls, mc)[i] == l.take(m[0].0 as int) + render_segs(
                l,
                i,
                seg_count(mc),
                targets,
                cs,
                ce,
                art,
                hdr,
                ol,
            ) + seq![m[mc - 1].1] + (if m[mc - 1].0 + 1 < l.len() {
                l.skip(m[mc - 1].0 + 1)
            } else {
                seq![]
            })
            &&& rs.len() >= 1
            &&& rs[0] == m[k].1
            &&& trim_spec(rs.drop_first()) == trim_spec(segment(l, k)->0)
        }),
{
    let l = ls[i];
    let m = markers_of(l);
    let sc = seg_count(mc);
    let (lp, rp, lw, rw) = padding_spec(ls, sc);
    let (targets, cs, ce, art) = layout_spec(ls, mc)->0;
    let hdr = header_flags(Seq::new(ls.len(), |j: int| border_line(ls[j])), 0);
    let ol = outer_border_spec(ls, 0, mc, true);
    assert(uniform_markers(ls, mc));
    assert(m.len() == mc);
    lemma_markers(l);
    assert(m[k].0 < m[k + 1].0);
    assert(segment(l, k) is Some);
    let seg = segment(l, k)->0;
    assert(cs == (if lp {
        1nat
    } else {
        0nat
    }));
    if k < cs {
        assert(segment(ls[i], 0) is Some && blank_only(segment(ls[i], 0)->0));
        crate::text::lemma_trim_blank(seg);
    }
    if k >= ce {
        assert(rp);
        assert(k == sc - 1);
        assert(segment(ls[i], sc - 1) is Some && blank_only(segment(ls[i], sc - 1)->0));
        crate::text::lemma_trim_blank(seg);
    }
    lemma_seg_body_keeps_text(l, i, k, seg, targets[k] as nat, cs, ce, art, hdr);
    let rs = render_seg(l, i, k, targets, cs, ce, art, hdr, ol);
    assert(rs.drop_first() =~= seg_body(l, i, k, seg, targets[k] as nat, cs, ce, art, hdr));
}

} // verus!

verus! {

proof fn lemma_narrow_trim(s: Seq<char>)
    requires
        crate::display_width::narrow(s),
    ensures
        crate::display_width::narrow(trim_spec(s)),
        trim_spec(s).len() <= s.len(),
{
    let k = crate::text::kept_len(s, false);
    crate::text::lemma_kept_len(s, false);
    let e = crate::text::trim_end_spec(s, false);
    crate::text::lemma_lead_len(e, false);
    let l = crate::text::lead_len(e, false);
    let t = trim_spec(s);
    assert forall|i: int| 0 <= i < t.len() implies crate::display_width::narrow_char(#[trigger] t[i]) by {
        assert(t[i] == s[l + i]);
    }
}

proof fn lemma_min_col_ge(ls: Seq<Seq<char>>, k: int, art: bool, n: nat, y: int)
    requires
        0 <= y < n <= ls.len(),
        !border_line(ls[y]),
        segment(ls[y], k) is Some,
    ensures
        min_col(ls, k, art, n) >= cell_min(width_of(cell_content(segment(ls[y], k)->0, art))),
    decreases n,
{
    if y < n - 1 {
        lemma_min_col_ge(ls, k, art, (n - 1) as nat, y);
    }
}

/// A laid-out segment of narrow text that is given enough room is narrow and
/// exactly `tw` characters long.
proof fn lemma_seg_body_fits(
    l: Seq<char>,
    li: int,
    k: int,
    seg: Seq<char>,
    tw: nat,
    cs: nat,
    ce: nat,
    art: bool,
    header: Option<usize>,
)
    requires
        crate::display_width::narrow(seg),
        seg.len() <= usize::MAX,
        tw <= usize::MAX,
        crate::display_width::narrow_char(fill_spec(l)),
        cs <= k < ce && !border_line(l) ==> tw >= cell_min(width_of(cell_content(seg, art))),
    ensures
        crate::display_width::narrow(seg_body(l, li, k, seg, tw, cs, ce, art, header)),
        seg_body(l, li, k, seg, tw, cs, ce, art, header).len() == tw,
{
    let is_header = header == Some(li as usize);
    let body = seg_body(l, li, k, seg, tw, cs, ce, art, header);
    crate::display_width::lemma_narrow_width(seg);
    assert(crate::display_width::narrow(spaces(tw)));
    if border_line(l) {
        assert(crate::display_width::narrow(repeat_char(fill_spec(l), tw)));
    } else if k < cs || k >= ce {
    } else if art && !is_header {
        let w = width_of(seg);
        if w < tw {
            assert(crate::display_width::narrow(seg + spaces((tw - w) as nat)));
        }
    } else {
        let c = trim_spec(seg);
        lemma_narrow_trim(seg);
        crate::display_width::lemma_narrow_width(c);
        let cw = width_of(c);
        assert(cw == c.len());
        if c.len() == 0 {
        } else if tw <= cw {
        } else if is_header {
            if tw >= cw + 2 {
                let w = (tw - 2) as nat;
                if cw < w {
                    let pad = (w - cw) as nat;
                    assert(crate::display_width::narrow(
                        seq![' '] + (spaces(pad / 2) + c + spaces((pad - pad / 2) as nat)) + seq![' '],
                    ));
                } else {
                    assert(crate::display_width::narrow(seq![' '] + c + seq![' ']));
                }
            } else {
                let pad = (tw - cw) as nat;
                assert(crate::display_width::narrow(
                    spaces(pad / 2) + c + spaces((pad - pad / 2) as nat),
                ));
            }
        } else {
            assert(crate::display_width::narrow(spaces(1) + c + spaces(sat_sub(tw, 1 + cw))));
        }
    }
}

proof fn lemma_targets_cover_columns(
    sc: nat,
    cs: nat,
    ce: nat,
    mins: Seq<nat>,
    extra: nat,
    lp: bool,
    rp: bool,
    lw: nat,
    rw: nat,
    k: int,
)
    requires
        cs <= k < ce <= sc,
        mins.len() == ce - cs,
        sum_nat(mins) + extra <= usize::MAX,
    ensures
        targets_spec(sc, cs, ce, mins, extra, lp, rp, lw, rw)[k] as nat >= mins[k - cs],
{
    let n = (ce - cs) as nat;
    lemma_sum_nat_ge(mins, k - cs);
    lemma_share_bound(extra, n, (k - cs) as nat);
}

/// Laid-out tables are aligned. When every line of a group is made of
/// printable ASCII and box-drawing glyphs, every laid-out line is its text
/// before the first marker, then each marker `k` followed by a run of text
/// exactly `targets[k]` cells wide, then the last marker and what followed
/// it; so on every line each column has the same width, and the widths add up
/// to the widest line (`lemma_layout_fills_width`).
pub proof fn lemma_table_columns_aligned(ls: Seq<Seq<char>>, mc: nat, i: int, k: int)
    requires
        layout_spec(ls, mc) is Some,
        0 <= i < ls.len(),
        0 <= k < mc - 1,
        forall|y: int|
            0 <= y < ls.len() ==> crate::display_width::narrow(#[trigger] ls[y]) && ls[y].len()
                <= usize::MAX,
    ensures
        ({
            let l = ls[i];
            let (targets, cs, ce, art) = layout_spec(ls, mc)->0;
            let hdr = header_flags(Seq::new(ls.len(), |j: int| border_line(ls[j])), 0);
            let ol = outer_border_spec(ls, 0, mc, true);
            let or = outer_border_spec(ls, 0, mc, false);
            let rs = render_seg(l, i, k, targets, cs, ce, art, hdr, ol);
            &&& format_group_spec(ls, mc)[i] == render_line_spec(
                l,
                i,
                mc,
                targets,
                cs,
                ce,
                art,
                hdr,
                ol,
                or,
            )
            &&& rs.len() >= 1
            &&& crate::display_width::narrow(rs.drop_first())
            &&& width_of(rs.drop_first()) == targets[k] as nat
        }),
{
    let l = ls[i];
    let m = markers_of(l);
    let sc = seg_count(mc);
    let (lp, rp, lw, rw) = padding_spec(ls, sc);
    let (targets, cs, ce, art) = layout_spec(ls, mc)->0;
    let hdr = header_flags(Seq::new(ls.len(), |j: int| border_line(ls[j])), 0);
    let ol = outer_border_spec(ls, 0, mc, true);
    let total = max_seg_sum(ls, sc, ls.len());
    let available = sat_sub(sat_sub(total, lw), rw);
    let mins = min_cols(ls, cs, ce, art);
    assert(uniform_markers(ls, mc));
    assert(m.len() == mc);
    assert(crate::display_width::narrow(ls[i]) && ls[i].len() <= usize::MAX);
    lemma_markers(l);
    assert(m[k].0 < m[k + 1].0);
    assert(segment(l, k) is Some);
    let seg = segment(l, k)->0;
    assert(crate::display_width::narrow(seg)) by {
        assert forall|j: int| 0 <= j < seg.len() implies crate::display_width::narrow_char(
            #[trigger] seg[j],
        ) by {
            assert(seg[j] == l[m[k].0 + 1 + j]);
        }
    }
    assert(targets == targets_spec(
        sc,
        cs,
        ce,
        mins,
        (available - sum_nat(mins)) as nat,
        lp,
        rp,
        lw,
        rw,
    ));
    if cs <= k < ce && !border_line(l) {
        lemma_targets_cover_columns(
            sc,
            cs,
            ce,
            mins,
            (available - sum_nat(mins)) as nat,
            lp,
            rp,
            lw,
            rw,
            k,
        );
        assert(mins[k - cs] == min_col(ls, k, art, ls.len()));
        lemma_min_col_ge(ls, k, art, ls.len(), i);
    }
    lemma_seg_body_fits(l, i, k, seg, targets[k] as nat, cs, ce, art, hdr);
    let rs = render_seg(l, i, k, targets, cs, ce, art, hdr, ol);
    let body = seg_body(l, i, k, seg, targets[k] as nat, cs, ce, art, hdr);
    assert(rs.drop_first() =~= body);
    crate::display_width::lemma_narrow_width(body);
}

} // verus!

verus! {

/// Re-rendering a border line of a laid-out table keeps its horizontal
/// stroke: every segment of the line that held a stroke is refilled, to its
/// column's width, only with `═` when the line uses `═` and only with `─`
/// otherwise; a segment without a stroke becomes spaces.
pub proof fn lemma_table_border_keeps_stroke(ls: Seq<Seq<char>>, mc: nat, i: int, k: int)
    requires
        layout_spec(ls, mc) is Some,
        0 <= i < ls.len(),
        0 <= k < mc - 1,
        ls[i].len() <= usize::MAX,
        ls[i].contains('─') || ls[i].contains('═'),
    ensures
        ({
            let l = ls[i];
            let (targets, cs, ce, art) = layout_spec(ls, mc)->0;
            let hdr = header_flags(Seq::new(ls.len(), |j: int| border_line(ls[j])), 0);
            let ol = outer_border_spec(ls, 0, mc, true);
            let or = outer_border_spec(ls, 0, mc, false);
            let rs = render_seg(l, i, k, targets, cs, ce, art, hdr, ol);
            let seg = segment(l, k)->0;
            let stroke = if l.contains('═') {
                '═'
            } else {
                '─'
            };
            &&& format_group_spec(ls, mc)[i] == render_line_spec(
                l,
                i,
                mc,
                targets,
                cs,
                ce,
                art,
                hdr,
                ol,
                or,
            )
            &&& segment(l, k) is Some
            &&& rs.len() == targets[k] + 1
            &&& (seg.contains('─') || seg.contains('═')) ==> forall|j: int|
                1 <= j < rs.len() ==> #[trigger] rs[j] == stroke
            &&& !(seg.contains('─') || seg.contains('═')) ==> forall|j: int|
                1 <= j < rs.len() ==> #[trigger] rs[j] == ' '
        }),
{
    let l = ls[i];
    let m = markers_of(l);
    let (targets, cs, ce, art) = layout_spec(ls, mc)->0;
    let hdr = header_flags(Seq::new(ls.len(), |j: int| border_line(ls[j])), 0);
    let ol = outer_border_spec(ls, 0, mc, true);
    assert(uniform_markers(ls, mc));
    assert(m.len() == mc);
    lemma_markers(l);
    assert(m[k].0 < m[k + 1].0);
    assert(segment(l, k) is Some);
    let seg = segment(l, k)->0;
    assert(border_line(l));
    let rs = render_seg(l, i, k, targets, cs, ce, art, hdr, ol);
    let body = seg_body(l, i, k, seg, targets[k] as nat, cs, ce, art, hdr);
    assert(rs.drop_first() =~= body);
    assert forall|j: int| 1 <= j < rs.len() implies #[trigger] rs[j] == body[j - 1] by {}
}

} // verus!
