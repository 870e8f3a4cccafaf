//! Conversion of ASCII pseudo-graphics (`+ - _ | ! / \ v ^ < >`) into
//! Unicode box-drawing glyphs, decided per character from its neighbours.
use vstd::prelude::*;
use crate::error::Error;
use crate::parser::ParsedDiagram;
use crate::text::{from_grid, grid_view, is_alphanumeric, lines_view, to_grid, unicode_alphanumeric};
use crate::utils::{diagonal_spec, horizontal_spec, is_diagonal, is_horizontal, is_vertical, vertical_spec};

verus! {

/// The character at column `x` of line `y`, if there is one.
pub open spec fn cell(g: Seq<Seq<char>>, x: int, y: int) -> Option<char> {
    if 0 <= y < g.len() && 0 <= x < g[y].len() {
        Some(g[y][x])
    } else {
        None
    }
}

/// A neighbour that is part of a word or identifier.
pub open spec fn is_word(o: Option<char>) -> bool {
    o matches Some(c) && unicode_alphanumeric(c)
}

pub open spec fn corner_or_junction(c: char) -> bool {
    c == '┌' || c == '┐' || c == '└' || c == '┘' || c == '┬' || c == '┴' || c == '┼' || c == '+'
        || c == '├' || c == '┤'
}

pub open spec fn horizontal_like(c: char) -> bool {
    horizontal_spec(c) || corner_or_junction(c)
}

pub open spec fn vertical_like(c: char) -> bool {
    vertical_spec(c) || corner_or_junction(c)
}

pub open spec fn arrow_like(c: char) -> bool {
    c == 'v' || c == '^' || c == '<' || c == '>'
}

pub open spec fn ascii_pseudo_graphics(c: char) -> bool {
    c == '+' || c == '-' || c == '_' || c == '|' || c == '!' || c == '/' || c == '\\' || arrow_like(
        c,
    )
}

pub open spec fn unicode_vertical_border(c: char) -> bool {
    c == '│' || c == '║'
}

pub open spec fn opt_is(o: Option<char>, p: spec_fn(char) -> bool) -> bool {
    o matches Some(c) && p(c)
}

/// Column `x` of `line` has a Unicode vertical border on its left and one at
/// or after it.
pub open spec fn inside_unicode_verticals(line: Seq<char>, x: int) -> bool {
    (exists|i: int| 0 <= i < x && i < line.len() && unicode_vertical_border(#[trigger] line[i]))
        && (exists|j: int| x <= j < line.len() && unicode_vertical_border(#[trigger] line[j]))
}

pub open spec fn should_fix_horizontal_spec(g: Seq<Seq<char>>, x: int, y: int) -> bool {
    let l = cell(g, x - 1, y);
    let r = cell(g, x + 1, y);
    let u = cell(g, x, y - 1);
    let d = cell(g, x, y + 1);
    !(is_word(l) && is_word(r)) && (opt_is(l, |c| horizontal_like(c)) || opt_is(
        r,
        |c| horizontal_like(c),
    ) || opt_is(u, |c| vertical_like(c)) || opt_is(d, |c| vertical_like(c)) || opt_is(
        l,
        |c| arrow_like(c),
    ) || opt_is(r, |c| arrow_like(c)))
}

pub open spec fn should_fix_vertical_spec(g: Seq<Seq<char>>, x: int, y: int) -> bool {
    let l = cell(g, x - 1, y);
    let r = cell(g, x + 1, y);
    let u = cell(g, x, y - 1);
    let d = cell(g, x, y + 1);
    !(is_word(l) || is_word(r)) && (opt_is(l, |c| horizontal_like(c)) || opt_is(
        r,
        |c| horizontal_like(c),
    ) || opt_is(u, |c| vertical_like(c)) || opt_is(d, |c| vertical_like(c)) || !opt_is(
        l,
        |c| c != ' ',
    ) || !opt_is(r, |c| c != ' '))
}

pub open spec fn should_fix_diagonal_spec(g: Seq<Seq<char>>, x: int, y: int) -> bool {
    !(is_word(cell(g, x - 1, y)) || is_word(cell(g, x + 1, y)))
}

pub open spec fn should_fix_arrow_spec(ch: char, g: Seq<Seq<char>>, x: int, y: int) -> bool {
    let l = cell(g, x - 1, y);
    let r = cell(g, x + 1, y);
    if is_word(l) && is_word(r) {
        false
    } else if ch == 'v' || ch == '^' {
        !(is_word(l) || is_word(r))
    } else if ch == '<' || ch == '>' {
        opt_is(l, |c| horizontal_like(c)) || opt_is(r, |c| horizontal_like(c)) || !(is_word(l)
            || is_word(r))
    } else {
        true
    }
}

/// The four strokes around `(x, y)`: horizontal on the left and right,
/// vertical above and below.
pub open spec fn strokes(g: Seq<Seq<char>>, x: int, y: int) -> (bool, bool, bool, bool) {
    (
        opt_is(cell(g, x - 1, y), |c| horizontal_spec(c)),
        opt_is(cell(g, x + 1, y), |c| horizontal_spec(c)),
        opt_is(cell(g, x, y - 1), |c| vertical_spec(c)),
        opt_is(cell(g, x, y + 1), |c| vertical_spec(c)),
    )
}

/// The junction glyph for a `+` with the given strokes (left, right, up, down).
pub open spec fn plus_glyph(s: (bool, bool, bool, bool)) -> char {
    match s {
        (true, true, true, true) => '┼',
        (true, true, false, false) => '─',
        (false, false, true, true) => '│',
        (true, true, true, false) => '┴',
        (true, true, false, true) => '┬',
        (true, false, true, true) => '┤',
        (false, true, true, true) => '├',
        (true, false, true, false) => '┘',
        (true, false, false, true) => '┐',
        (false, true, true, false) => '└',
        (false, true, false, true) => '┌',
        _ => '+',
    }
}

/// The glyph of a line stroke with the given surroundings: a T junction where
/// three strokes meet, otherwise the plain `straight` glyph.
pub open spec fn stroke_glyph(s: (bool, bool, bool, bool), straight: char) -> char {
    let (l, r, u, d) = s;
    if l && r && u && !d {
        '┴'
    } else if l && r && !u && d {
        '┬'
    } else if l && !r && u && d {
        '┤'
    } else if !l && r && u && d {
        '├'
    } else {
        straight
    }
}

pub open spec fn diagonal_glyph(ch: char) -> char {
    if ch == '/' {
        '╱'
    } else if ch == '\\' {
        '╲'
    } else {
        ch
    }
}

pub open spec fn arrow_glyph(ch: char) -> char {
    if ch == 'v' {
        '▼'
    } else if ch == '^' {
        '▲'
    } else if ch == '<' {
        '◀'
    } else if ch == '>' {
        '▶'
    } else {
        ch
    }
}

/// The fixed character at `(x, y)`.
pub open spec fn fix_char_spec(g: Seq<Seq<char>>, x: int, y: int) -> char {
    let ch = g[y][x];
    if ascii_pseudo_graphics(ch) && inside_unicode_verticals(g[y], x) {
        ch
    } else if ch == '+' {
        plus_glyph(strokes(g, x, y))
    } else if ch == '-' || ch == '_' {
        if should_fix_horizontal_spec(g, x, y) {
            stroke_glyph(strokes(g, x, y), '─')
        } else {
            ch
        }
    } else if ch == '|' || ch == '!' {
        if should_fix_vertical_spec(g, x, y) {
            stroke_glyph(strokes(g, x, y), '│')
        } else {
            ch
        }
    } else if ch == '/' || ch == '\\' {
        if should_fix_diagonal_spec(g, x, y) {
            diagonal_glyph(ch)
        } else {
            ch
        }
    } else if diagonal_spec(ch) {
        diagonal_glyph(ch)
    } else if arrow_like(ch) {
        if should_fix_arrow_spec(ch, g, x, y) {
            arrow_glyph(ch)
        } else {
            ch
        }
    } else {
        ch
    }
}

/// Every line of the diagram with each character fixed; every decision looks
/// at the neighbours in the diagram as it was before any fix.
pub open spec fn fixed_lines(g: Seq<Seq<char>>) -> Seq<Seq<char>> {
    Seq::new(g.len(), |y: int| Seq::new(g[y].len(), |x: int| fix_char_spec(g, x, y)))
}

fn get_neighbor_char(x: usize, y: usize, grid: &[Vec<char>]) -> (r: Option<char>)
    ensures
        r == cell(grid_view(grid@), x as int, y as int),
{
    if y >= grid.len() {
        return None;
    }
    if x < grid[y].len() {
        Some(grid[y][x])
    } else {
        None
    }
}

fn left_of(x: usize, y: usize, grid: &[Vec<char>]) -> (r: Option<char>)
    ensures
        r == cell(grid_view(grid@), x - 1, y as int),
{
    if x == 0 {
        None
    } else {
        get_neighbor_char(x - 1, y, grid)
    }
}

fn right_of(x: usize, y: usize, grid: &[Vec<char>]) -> (r: Option<char>)
    ensures
        r == cell(grid_view(grid@), x + 1, y as int),
{
    if y >= grid.len() {
        return None;
    }
    let n = grid[y].len();
    if n > 0 && x < n - 1 {
        get_neighbor_char(x + 1, y, grid)
    } else {
        None
    }
}

fn above(x: usize, y: usize, grid: &[Vec<char>]) -> (r: Option<char>)
    ensures
        r == cell(grid_view(grid@), x as int, y - 1),
{
    if y == 0 {
        None
    } else {
        get_neighbor_char(x, y - 1, grid)
    }
}

fn below(x: usize, y: usize, grid: &[Vec<char>]) -> (r: Option<char>)
    ensures
        r == cell(grid_view(grid@), x as int, y + 1),
{
    if grid.len() > 0 && y < grid.len() - 1 {
        get_neighbor_char(x, y + 1, grid)
    } else {
        None
    }
}

fn is_word_boundary_char(ch: Option<char>) -> (r: bool)
    ensures
        r == is_word(ch),
{
    match ch {
        Some(c) => is_alphanumeric(c),
        None => false,
    }
}

fn is_corner_or_junction(ch: char) -> (r: bool)
    ensures
        r == corner_or_junction(ch),
{
    ch == '┌' || ch == '┐' || ch == '└' || ch == '┘' || ch == '┬' || ch == '┴' || ch == '┼' || ch
        == '+' || ch == '├' || ch == '┤'
}

fn is_horizontal_like(ch: char) -> (r: bool)
    ensures
        r == horizontal_like(ch),
{
    is_horizontal(ch) || is_corner_or_junction(ch)
}

fn is_vertical_like(ch: char) -> (r: bool)
    ensures
        r == vertical_like(ch),
{
    is_vertical(ch) || is_corner_or_junction(ch)
}

fn is_arrow_like(ch: char) -> (r: bool)
    ensures
        r == arrow_like(ch),
{
    ch == 'v' || ch == '^' || ch == '<' || ch == '>'
}

fn is_ascii_pseudo_graphics(ch: char) -> (r: bool)
    ensures
        r == ascii_pseudo_graphics(ch),
{
    ch == '+' || ch == '-' || ch == '_' || ch == '|' || ch == '!' || ch == '/' || ch == '\\'
        || is_arrow_like(ch)
}

fn is_unicode_vertical_border(ch: char) -> (r: bool)
    ensures
        r == unicode_vertical_border(ch),
{
    ch == '│' || ch == '║'
}

fn some_horizontal_like(o: Option<char>) -> (r: bool)
    ensures
        r == opt_is(o, |c| horizontal_like(c)),
{
    match o {
        Some(c) => is_horizontal_like(c),
        None => false,
    }
}

fn some_vertical_like(o: Option<char>) -> (r: bool)
    ensures
        r == opt_is(o, |c| vertical_like(c)),
{
    match o {
        Some(c) => is_vertical_like(c),
        None => false,
    }
}

fn some_arrow_like(o: Option<char>) -> (r: bool)
    ensures
        r == opt_is(o, |c| arrow_like(c)),
{
    match o {
        Some(c) => is_arrow_like(c),
        None => false,
    }
}

/// The columns of `line` that hold a Unicode vertical border, in order.
fn unicode_vertical_columns(line: &[char]) -> (cols: Vec<usize>)
    ensures
        forall|i: int, j: int| 0 <= i < j < cols@.len() ==> cols@[i] < cols@[j],
        forall|i: int| 0 <= i < cols@.len() ==> #[trigger] cols@[i] < line@.len()
            && unicode_vertical_border(line@[cols@[i] as int]),
        forall|p: int|
            0 <= p < line@.len() && unicode_vertical_border(#[trigger] line@[p]) ==> cols@.contains(
                p as usize,
            ),
{
    let mut cols: Vec<usize> = Vec::new();
    let mut x: usize = 0;
    while x < line.len()
        invariant
            x <= line@.len(),
            forall|i: int, j: int| 0 <= i < j < cols@.len() ==> cols@[i] < cols@[j],
            forall|i: int| 0 <= i < cols@.len() ==> #[trigger] cols@[i] < x && unicode_vertical_border(
                line@[cols@[i] as int],
            ),
            forall|p: int|
                0 <= p < x && unicode_vertical_border(#[trigger] line@[p]) ==> cols@.contains(
                    p as usize,
                ),
        decreases line@.len() - x,
    {
        if is_unicode_vertical_border(line[x]) {
            let ghost before = cols@;
            cols.push(x);
            proof {
                assert forall|p: int|
                    0 <= p < x + 1 && unicode_vertical_border(#[trigger] line@[p]) implies cols@.contains(
                    p as usize,
                ) by {
                    if p < x {
                        let k = choose|k: int| 0 <= k < before.len() && before[k] == p as usize;
                        assert(cols@[k] == p as usize);
                    } else {
                        assert(cols@[before.len() as int] == p as usize);
                    }
                }
            }
        }
        x = x + 1;
    }
    cols
}

/// Whether column `x` lies between the first and the last Unicode vertical
/// border of its line (`unicode_verticals` holds their columns in order).
fn is_inside_unicode_vertical_borders(x: usize, unicode_verticals: &[usize]) -> (r: bool)
    requires
        forall|i: int, j: int|
            0 <= i < j < unicode_verticals@.len() ==> unicode_verticals@[i] < unicode_verticals@[j],
    ensures
        r == ((exists|i: int| 0 <= i < unicode_verticals@.len() && #[trigger] unicode_verticals@[i]
            < x) && (exists|i: int|
            0 <= i < unicode_verticals@.len() && #[trigger] unicode_verticals@[i] >= x)),
{
    if unicode_verticals.len() < 2 {
        proof {
            let uv = unicode_verticals@;
            if (exists|i: int| 0 <= i < uv.len() && #[trigger] uv[i] < x) && (exists|i: int|
                0 <= i < uv.len() && #[trigger] uv[i] >= x) {
                let i = choose|i: int| 0 <= i < uv.len() && #[trigger] uv[i] < x;
                let j = choose|j: int| 0 <= j < uv.len() && #[trigger] uv[j] >= x;
                assert(i == 0 && j == 0);
            }
        }
        return false;
    }
    let mut idx: usize = 0;
    while idx < unicode_verticals.len() && unicode_verticals[idx] < x
        invariant
            idx <= unicode_verticals@.len(),
            forall|i: int| 0 <= i < idx ==> #[trigger] unicode_verticals@[i] < x,
        decreases unicode_verticals@.len() - idx,
    {
        idx = idx + 1;
    }
    proof {
        if idx > 0 {
            assert(unicode_verticals@[0] < x);
        }
        if idx < unicode_verticals@.len() {
            assert(unicode_verticals@[idx as int] >= x);
            assert forall|i: int| idx <= i < unicode_verticals@.len() implies #[trigger] unicode_verticals@[i]
                >= x by {
                if i > idx {
                    assert(unicode_verticals@[idx as int] < unicode_verticals@[i]);
                }
            }
        }
        if idx == 0 {
            assert forall|i: int| 0 <= i < unicode_verticals@.len() implies #[trigger] unicode_verticals@[i]
                >= x by {
                if i > 0 {
                    assert(unicode_verticals@[0] < unicode_verticals@[i]);
                }
            }
        }
    }
    idx > 0 && idx < unicode_verticals.len()
}

fn should_fix_horizontal(x: usize, y: usize, grid: &[Vec<char>]) -> (r: bool)
    ensures
        r == should_fix_horizontal_spec(grid_view(grid@), x as int, y as int),
{
    let left = left_of(x, y, grid);
    let right = right_of(x, y, grid);
    let up = above(x, y, grid);
    let down = below(x, y, grid);
    if is_word_boundary_char(left) && is_word_boundary_char(right) {
        return false;
    }
    some_horizontal_like(left) || some_horizontal_like(right) || some_vertical_like(up)
        || some_vertical_like(down) || some_arrow_like(left) || some_arrow_like(right)
}

fn none_or_space(o: Option<char>) -> (r: bool)
    ensures
        r == !opt_is(o, |c| c != ' '),
{
    match o {
        Some(c) => c == ' ',
        None => true,
    }
}

fn should_fix_vertical(x: usize, y: usize, grid: &[Vec<char>]) -> (r: bool)
    ensures
        r == should_fix_vertical_spec(grid_view(grid@), x as int, y as int),
{
    let left = left_of(x, y, grid);
    let right = right_of(x, y, grid);
    let up = above(x, y, grid);
    let down = below(x, y, grid);
    if is_word_boundary_char(left) || is_word_boundary_char(right) {
        return false;
    }
    some_horizontal_like(left) || some_horizontal_like(right) || some_vertical_like(up)
        || some_vertical_like(down) || none_or_space(left) || none_or_space(right)
}

fn should_fix_diagonal(x: usize, y: usize, grid: &[Vec<char>]) -> (r: bool)
    ensures
        r == should_fix_diagonal_spec(grid_view(grid@), x as int, y as int),
{
    let left = left_of(x, y, grid);
    let right = right_of(x, y, grid);
    !(is_word_boundary_char(left) || is_word_boundary_char(right))
}

fn should_fix_arrow(ch: char, x: usize, y: usize, grid: &[Vec<char>]) -> (r: bool)
    ensures
        r == should_fix_arrow_spec(ch, grid_view(grid@), x as int, y as int),
{
    let left = left_of(x, y, grid);
    let right = right_of(x, y, grid);
    let wl = is_word_boundary_char(left);
    let wr = is_word_boundary_char(right);
    if wl && wr {
        return false;
    }
    if ch == 'v' || ch == '^' {
        !(wl || wr)
    } else if ch == '<' || ch == '>' {
        some_horizontal_like(left) || some_horizontal_like(right) || !(wl || wr)
    } else {
        true
    }
}

fn some_horizontal(o: Option<char>) -> (r: bool)
    ensures
        r == opt_is(o, |c| horizontal_spec(c)),
{
    match o {
        Some(c) => is_horizontal(c),
        None => false,
    }
}

fn some_vertical(o: Option<char>) -> (r: bool)
    ensures
        r == opt_is(o, |c| vertical_spec(c)),
{
    match o {
        Some(c) => is_vertical(c),
        None => false,
    }
}

fn get_strokes(x: usize, y: usize, grid: &[Vec<char>]) -> (s: (bool, bool, bool, bool))
    ensures
        s == strokes(grid_view(grid@), x as int, y as int),
{
    (
        some_horizontal(left_of(x, y, grid)),
        some_horizontal(right_of(x, y, grid)),
        some_vertical(above(x, y, grid)),
        some_vertical(below(x, y, grid)),
    )
}

pub fn fix_plus(x: usize, y: usize, grid: &[Vec<char>]) -> (r: Result<char, Error>)
    ensures
        r == Ok::<char, Error>(plus_glyph(strokes(grid_view(grid@), x as int, y as int))),
{
    let (has_left, has_right, has_up, has_down) = get_strokes(x, y, grid);
    match (has_left, has_right, has_up, has_down) {
        (true, true, true, true) => Ok('┼'),
        (true, true, false, false) => Ok('─'),
        (false, false, true, true) => Ok('│'),
        (true, true, true, false) => Ok('┴'),
        (true, true, false, true) => Ok('┬'),
        (true, false, true, true) => Ok('┤'),
        (false, true, true, true) => Ok('├'),
        (true, false, true, false) => Ok('┘'),
        (true, false, false, true) => Ok('┐'),
        (false, true, true, false) => Ok('└'),
        (false, true, false, true) => Ok('┌'),
        _ => Ok('+'),
    }
}

fn stroke_junction(s: (bool, bool, bool, bool), straight: char) -> (r: char)
    ensures
        r == stroke_glyph(s, straight),
{
    let (has_left, has_right, has_up, has_down) = s;
    if has_left && has_right && has_up && !has_down {
        return '┴';
    }
    if has_left && has_right && !has_up && has_down {
        return '┬';
    }
    if has_left && !has_right && has_up && has_down {
        return '┤';
    }
    if !has_left && has_right && has_up && has_down {
        return '├';
    }
    straight
}

fn fix_horizontal(x: usize, y: usize, grid: &[Vec<char>]) -> (r: Result<char, Error>)
    ensures
        r == Ok::<char, Error>(stroke_glyph(strokes(grid_view(grid@), x as int, y as int), '─')),
{
    Ok(stroke_junction(get_strokes(x, y, grid), '─'))
}

fn fix_vertical(x: usize, y: usize, grid: &[Vec<char>]) -> (r: Result<char, Error>)
    ensures
        r == Ok::<char, Error>(stroke_glyph(strokes(grid_view(grid@), x as int, y as int), '│')),
{
    Ok(stroke_junction(get_strokes(x, y, grid), '│'))
}

fn fix_diagonal(ch: char) -> (r: Result<char, Error>)
    ensures
        r == Ok::<char, Error>(diagonal_glyph(ch)),
{
    match ch {
        '/' => Ok('╱'),
        '\\' => Ok('╲'),
        _ => Ok(ch),
    }
}

fn fix_arrow(ch: char) -> (r: Result<char, Error>)
    ensures
        r == Ok::<char, Error>(arrow_glyph(ch)),
{
    match ch {
        'v' => Ok('▼'),
        '^' => Ok('▲'),
        '<' => Ok('◀'),
        '>' => Ok('▶'),
        _ => Ok(ch),
    }
}

pub fn fix_char(ch: char, x: usize, y: usize, grid: &[Vec<char>], unicode_verticals: &[usize]) -> (r:
    Result<char, Error>)
    requires
        y < grid@.len(),
        x < grid@[y as int]@.len(),
        ch == grid@[y as int]@[x as int],
        forall|i: int, j: int|
            0 <= i < j < unicode_verticals@.len() ==> unicode_verticals@[i] < unicode_verticals@[j],
        forall|i: int|
            0 <= i < unicode_verticals@.len() ==> #[trigger] unicode_verticals@[i]
                < grid@[y as int]@.len() && unicode_vertical_border(
                grid@[y as int]@[unicode_verticals@[i] as int],
            ),
        forall|p: int|
            0 <= p < grid@[y as int]@.len() && unicode_vertical_border(#[trigger] grid@[y as int]@[p])
                ==> unicode_verticals@.contains(p as usize),
    ensures
        r == Ok::<char, Error>(fix_char_spec(grid_view(grid@), x as int, y as int)),
{
    let ghost g = grid_view(grid@);
    let ghost line = grid@[y as int]@;
    assert(g[y as int] == line);
    let n = grid[y].len();
    assert(line.len() == n);
    let inside = is_inside_unicode_vertical_borders(x, unicode_verticals);
    proof {
        let uv = unicode_verticals@;
        if inside {
            let i = choose|i: int| 0 <= i < uv.len() && #[trigger] uv[i] < x;
            let j = choose|j: int| 0 <= j < uv.len() && #[trigger] uv[j] >= x;
            assert(unicode_vertical_border(line[uv[i] as int]));
            assert(unicode_vertical_border(line[uv[j] as int]));
        }
        if inside_unicode_verticals(line, x as int) {
            let i = choose|i: int|
                0 <= i < x && i < line.len() && unicode_vertical_border(#[trigger] line[i]);
            let j = choose|j: int| x <= j < line.len() && unicode_vertical_border(#[trigger] line[j]);
            assert(uv.contains(i as usize));
            assert(uv.contains(j as usize));
            let a = choose|a: int| 0 <= a < uv.len() && uv[a] == i as usize;
            let b = choose|b: int| 0 <= b < uv.len() && uv[b] == j as usize;
            assert(uv[a] < x);
            assert(uv[b] >= x);
        }
    }
    if is_ascii_pseudo_graphics(ch) && inside {
        return Ok(ch);
    }
    if ch == '+' {
        fix_plus(x, y, grid)
    } else if ch == '-' || ch == '_' {
        if should_fix_horizontal(x, y, grid) {
            fix_horizontal(x, y, grid)
        } else {
            Ok(ch)
        }
    } else if ch == '|' || ch == '!' {
        if should_fix_vertical(x, y, grid) {
            fix_vertical(x, y, grid)
        } else {
            Ok(ch)
        }
    } else if ch == '/' || ch == '\\' {
        if should_fix_diagonal(x, y, grid) {
            fix_diagonal(ch)
        } else {
            Ok(ch)
        }
    } else if is_diagonal(ch) {
        fix_diagonal(ch)
    } else if is_arrow_like(ch) {
        if should_fix_arrow(ch, x, y, grid) {
            fix_arrow(ch)
        } else {
            Ok(ch)
        }
    } else {
        Ok(ch)
    }
}

/// Replaces ASCII pseudo-graphics with box-drawing glyphs. Every character is
/// decided from the diagram as it was before the call; lines keep their length.
pub fn fix_box_drawing_symbols(diagram: &mut ParsedDiagram) -> (r: Result<(), Error>)
    ensures
        r is Ok,
        lines_view(final(diagram).lines@) == fixed_lines(lines_view(old(diagram).lines@)),
        final(diagram).diagram_type == old(diagram).diagram_type,
{
    let grid = to_grid(diagram.lines.as_slice());
    let ghost g = grid_view(grid@);
    let mut new_grid: Vec<Vec<char>> = Vec::new();
    let mut y: usize = 0;
    while y < grid.len()
        invariant
            y <= grid@.len(),
            g == grid_view(grid@),
            grid_view(new_grid@) == fixed_lines(g).take(y as int),
        decreases grid@.len() - y,
    {
        let line = &grid[y];
        let unicode_verticals = unicode_vertical_columns(line.as_slice());
        let mut new_line: Vec<char> = Vec::new();
        let mut x: usize = 0;
        while x < line.len()
            invariant
                y < grid@.len(),
                line == grid@[y as int],
                x <= line@.len(),
                g == grid_view(grid@),
                new_line@ == fixed_lines(g)[y as int].take(x as int),
                forall|i: int, j: int|
                    0 <= i < j < unicode_verticals@.len() ==> unicode_verticals@[i]
                        < unicode_verticals@[j],
                forall|i: int|
                    0 <= i < unicode_verticals@.len() ==> #[trigger] unicode_verticals@[i]
                        < line@.len() && unicode_vertical_border(
                        line@[unicode_verticals@[i] as int],
                    ),
                forall|p: int|
                    0 <= p < line@.len() && unicode_vertical_border(#[trigger] line@[p])
                        ==> unicode_verticals@.contains(p as usize),
            decreases line@.len() - x,
        {
            let fixed = fix_char(line[x], x, y, grid.as_slice(), unicode_verticals.as_slice());
            let c = match fixed {
                Ok(c) => c,
                Err(e) => return Err(e),
            };
            new_line.push(c);
            proof {
                assert(fixed_lines(g)[y as int].take(x + 1) =~= fixed_lines(g)[y as int].take(
                    x as int,
                ).push(c));
            }
            x = x + 1;
        }
        proof {
            assert(fixed_lines(g)[y as int].take(x as int) =~= fixed_lines(g)[y as int]);
        }
        let ghost before = new_grid@;
        new_grid.push(new_line);
        proof {
            assert(grid_view(new_grid@) =~= grid_view(before).push(fixed_lines(g)[y as int]));
            assert(fixed_lines(g).take(y + 1) =~= fixed_lines(g).take(y as int).push(
                fixed_lines(g)[y as int],
            ));
        }
        y = y + 1;
    }
    proof {
        assert(fixed_lines(g).take(y as int) =~= fixed_lines(g));
    }
    diagram.lines = from_grid(new_grid.as_slice());
    Ok(())
}

/// The fix keeps the number of lines and the length of every line.
pub proof fn lemma_fix_preserves_shape(g: Seq<Seq<char>>)
    ensures
        fixed_lines(g).len() == g.len(),
        forall|y: int| 0 <= y < g.len() ==> (#[trigger] fixed_lines(g)[y]).len() == g[y].len(),
{
}

/// Characters other than ASCII pseudo-graphics are never changed.
pub proof fn lemma_fix_keeps_other_chars(g: Seq<Seq<char>>, x: int, y: int)
    requires
        0 <= y < g.len(),
        0 <= x < g[y].len(),
        !ascii_pseudo_graphics(g[y][x]),
    ensures
        fixed_lines(g)[y][x] == g[y][x],
{
}

/// Letters inside words never turn into arrows, hyphens and underscores
/// between word characters stay, and slashes next to a word character stay.
pub proof fn lemma_fix_keeps_words(g: Seq<Seq<char>>, x: int, y: int)
    requires
        0 <= y < g.len(),
        0 <= x < g[y].len(),
        ((g[y][x] == 'v' || g[y][x] == '^') && (is_word(cell(g, x - 1, y)) || is_word(
            cell(g, x + 1, y),
        ))) || ((g[y][x] == '-' || g[y][x] == '_' || g[y][x] == '<' || g[y][x] == '>') && is_word(
            cell(g, x - 1, y),
        ) && is_word(cell(g, x + 1, y))) || ((g[y][x] == '/' || g[y][x] == '\\' || g[y][x] == '|'
            || g[y][x] == '!') && (is_word(cell(g, x - 1, y)) || is_word(cell(g, x + 1, y)))),
    ensures
        fixed_lines(g)[y][x] == g[y][x],
{
}

/// Every changed character becomes a box-drawing glyph, a diagonal or an arrow head.
pub proof fn lemma_fix_output_glyphs(g: Seq<Seq<char>>, x: int, y: int)
    requires
        0 <= y < g.len(),
        0 <= x < g[y].len(),
        fixed_lines(g)[y][x] != g[y][x],
    ensures
        ('\u{2500}' <= fixed_lines(g)[y][x] && fixed_lines(g)[y][x] <= '\u{257f}') || fixed_lines(
            g,
        )[y][x] == '▼' || fixed_lines(g)[y][x] == '▲' || fixed_lines(g)[y][x] == '◀'
            || fixed_lines(g)[y][x] == '▶',
{
}

} // verus!

verus! {

/// What each character can become. Pseudo-graphics between two Unicode
/// vertical borders of its line stay as they are; otherwise a `+` becomes the
/// glyph of the strokes around it (left/right horizontal, up/down vertical; see
/// `plus_glyph`), `-`/`_` stay or become `─` or a tee, `|`/`!` stay or become
/// `│` or a tee, `/` and `\` stay or become `╱` and `╲`, and `v ^ < >` stay or
/// become `▼ ▲ ◀ ▶`.
pub proof fn lemma_fix_char_outcomes(g: Seq<Seq<char>>, x: int, y: int)
    requires
        0 <= y < g.len(),
        0 <= x < g[y].len(),
    ensures
        ascii_pseudo_graphics(g[y][x]) && inside_unicode_verticals(g[y], x) ==> fixed_lines(g)[y][x]
            == g[y][x],
        g[y][x] == '+' && !inside_unicode_verticals(g[y], x) ==> fixed_lines(g)[y][x] == plus_glyph(
            strokes(g, x, y),
        ),
        g[y][x] == '-' || g[y][x] == '_' ==> {
            let r = fixed_lines(g)[y][x];
            r == g[y][x] || r == '─' || r == '┴' || r == '┬' || r == '┤' || r == '├'
        },
        g[y][x] == '|' || g[y][x] == '!' ==> {
            let r = fixed_lines(g)[y][x];
            r == g[y][x] || r == '│' || r == '┴' || r == '┬' || r == '┤' || r == '├'
        },
        g[y][x] == '/' ==> fixed_lines(g)[y][x] == '/' || fixed_lines(g)[y][x] == '╱',
        g[y][x] == '\\' ==> fixed_lines(g)[y][x] == '\\' || fixed_lines(g)[y][x] == '╲',
        g[y][x] == 'v' ==> fixed_lines(g)[y][x] == 'v' || fixed_lines(g)[y][x] == '▼',
        g[y][x] == '^' ==> fixed_lines(g)[y][x] == '^' || fixed_lines(g)[y][x] == '▲',
        g[y][x] == '<' ==> fixed_lines(g)[y][x] == '<' || fixed_lines(g)[y][x] == '◀',
        g[y][x] == '>' ==> fixed_lines(g)[y][x] == '>' || fixed_lines(g)[y][x] == '▶',
{
}

} // verus!

verus! {

/// A line stroke that gets fixed takes the glyph whose arms match the strokes
/// around it, read straight from the neighbouring characters: horizontal
/// strokes on both sides and a vertical one only below give the down-tee `┬`,
/// one only above the up-tee `┴`; vertical strokes above and below with a
/// horizontal one only on the left give `┤`, only on the right `├`; any other
/// surroundings give the straight stroke (`─` for `-`/`_`, `│` for `|`/`!`).
pub proof fn lemma_fixed_stroke_arms(g: Seq<Seq<char>>, x: int, y: int)
    requires
        0 <= y < g.len(),
        0 <= x < g[y].len(),
        g[y][x] == '-' || g[y][x] == '_' || g[y][x] == '|' || g[y][x] == '!',
        fixed_lines(g)[y][x] != g[y][x],
    ensures
        ({
            let left = x > 0 && horizontal_spec(g[y][x - 1]);
            let right = x + 1 < g[y].len() && horizontal_spec(g[y][x + 1]);
            let up = y > 0 && x < g[y - 1].len() && vertical_spec(g[y - 1][x]);
            let down = y + 1 < g.len() && x < g[y + 1].len() && vertical_spec(g[y + 1][x]);
            let r = fixed_lines(g)[y][x];
            let straight = if g[y][x] == '-' || g[y][x] == '_' {
                '─'
            } else {
                '│'
            };
            &&& (left && right && !up && down ==> r == '┬')
            &&& (left && right && up && !down ==> r == '┴')
            &&& (left && !right && up && down ==> r == '┤')
            &&& (!left && right && up && down ==> r == '├')
            &&& (!(left && right && !up && down) && !(left && right && up && !down) && !(left
                && !right && up && down) && !(!left && right && up && down) ==> r == straight)
        }),
{
    let s = strokes(g, x, y);
    assert(s.0 == (x > 0 && horizontal_spec(g[y][x - 1])));
    assert(s.1 == (x + 1 < g[y].len() && horizontal_spec(g[y][x + 1])));
    assert(s.2 == (y > 0 && x < g[y - 1].len() && vertical_spec(g[y - 1][x])));
    assert(s.3 == (y + 1 < g.len() && x < g[y + 1].len() && vertical_spec(g[y + 1][x])));
}

} // verus!

verus! {

/// A `+` outside Unicode vertical borders becomes the glyph whose arms are
/// exactly the strokes around it, read from the neighbouring characters
/// (horizontal on the left/right, vertical above/below): all four give `┼`,
/// three give the tee that points away from the missing one, two give a
/// corner or a straight stroke, and fewer than two leave the `+`.
pub proof fn lemma_fixed_plus_arms(g: Seq<Seq<char>>, x: int, y: int)
    requires
        0 <= y < g.len(),
        0 <= x < g[y].len(),
        g[y][x] == '+',
        !inside_unicode_verticals(g[y], x),
    ensures
        ({
            let left = x > 0 && horizontal_spec(g[y][x - 1]);
            let right = x + 1 < g[y].len() && horizontal_spec(g[y][x + 1]);
            let up = y > 0 && x < g[y - 1].len() && vertical_spec(g[y - 1][x]);
            let down = y + 1 < g.len() && x < g[y + 1].len() && vertical_spec(g[y + 1][x]);
            let r = fixed_lines(g)[y][x];
            &&& (left && right && up && down ==> r == '┼')
            &&& (left && right && up && !down ==> r == '┴')
            &&& (left && right && !up && down ==> r == '┬')
            &&& (left && !right && up && down ==> r == '┤')
            &&& (!left && right && up && down ==> r == '├')
            &&& (left && right && !up && !down ==> r == '─')
            &&& (!left && !right && up && down ==> r == '│')
            &&& (left && !right && up && !down ==> r == '┘')
            &&& (left && !right && !up && down ==> r == '┐')
            &&& (!left && right && up && !down ==> r == '└')
            &&& (!left && right && !up && down ==> r == '┌')
            &&& ((left as int) + (right as int) + (up as int) + (down as int) < 2 ==> r == '+')
        }),
{
    let s = strokes(g, x, y);
    assert(s.0 == (x > 0 && horizontal_spec(g[y][x - 1])));
    assert(s.1 == (x + 1 < g[y].len() && horizontal_spec(g[y][x + 1])));
    assert(s.2 == (y > 0 && x < g[y - 1].len() && vertical_spec(g[y - 1][x])));
    assert(s.3 == (y + 1 < g.len() && x < g[y + 1].len() && vertical_spec(g[y + 1][x])));
}

} // verus!
