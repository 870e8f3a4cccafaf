//! Widening a box by inserting cells in one of its lines.
use vstd::prelude::*;
use crate::text::{chars_of, lines_view, push_repeat, repeat_char, string_of};

verus! {

/// `l` with `n` copies of `fill` inserted before position `pos`; unchanged
/// when `pos` is not a position of `l`.
pub open spec fn insert_run(l: Seq<char>, pos: int, n: nat, fill: char) -> Seq<char> {
    if 0 <= pos < l.len() {
        l.take(pos) + repeat_char(fill, n) + l.skip(pos)
    } else {
        l
    }
}

/// The lines after inserting `n` copies of `fill` in line `y` before the last
/// cell of a box that starts at `start_x` and is `old_width` cells wide.
pub open spec fn expand_spec(
    ls: Seq<Seq<char>>,
    start_x: nat,
    y: nat,
    old_width: nat,
    n: nat,
    fill: char,
) -> Seq<Seq<char>> {
    if y < ls.len() {
        ls.update(y as int, insert_run(ls[y as int], start_x + old_width - 1, n, fill))
    } else {
        ls
    }
}

fn insert_fill(lines: &mut [String], start_x: usize, y: usize, old_width: usize, diff: usize, fill: char)
    requires
        y < old(lines)@.len() ==> 1 <= start_x + old_width <= usize::MAX,
    ensures
        lines_view(final(lines)@) == expand_spec(
            lines_view(old(lines)@),
            start_x as nat,
            y as nat,
            old_width as nat,
            diff as nat,
            fill,
        ),
{
    if y >= lines.len() {
        return;
    }
    let chars = chars_of(lines[y].as_str());
    let insert_pos = start_x + old_width - 1;
    if insert_pos > chars.len() {
        return;
    }
    let mut new_chars: Vec<char> = Vec::new();
    let mut i: usize = 0;
    while i < chars.len()
        invariant
            i <= chars@.len(),
            insert_pos <= chars@.len(),
            new_chars@ == if i > insert_pos {
                chars@.take(insert_pos as int) + repeat_char(fill, diff as nat) + chars@.subrange(
                    insert_pos as int,
                    i as int,
                )
            } else {
                chars@.take(i as int)
            },
        decreases chars@.len() - i,
    {
        let ghost before = new_chars@;
        if i == insert_pos {
            push_repeat(&mut new_chars, fill, diff);
        }
        new_chars.push(chars[i]);
        proof {
            if i > insert_pos {
                assert(chars@.subrange(insert_pos as int, i + 1) =~= chars@.subrange(
                    insert_pos as int,
                    i as int,
                ).push(chars@[i as int]));
            } else if i == insert_pos {
                assert(chars@.subrange(insert_pos as int, i + 1) =~= seq![chars@[i as int]]);
                assert(before =~= chars@.take(insert_pos as int));
            } else {
                assert(chars@.take(i + 1) =~= chars@.take(i as int).push(chars@[i as int]));
            }
        }
        i = i + 1;
    }
    proof {
        if insert_pos < chars@.len() {
            assert(chars@.subrange(insert_pos as int, chars@.len() as int) =~= chars@.skip(
                insert_pos as int,
            ));
        } else {
            assert(chars@.take(chars@.len() as int) =~= chars@);
        }
    }
    lines[y] = string_of(&new_chars);
    proof {
        assert(lines_view(lines@) =~= expand_spec(
            lines_view(old(lines)@),
            start_x as nat,
            y as nat,
            old_width as nat,
            diff as nat,
            fill,
        ));
    }
}

/// Inserts `diff` spaces in line `y` before the right border of a box that
/// starts at `start_x` and is `old_width` cells wide.
pub fn expand_content_line(lines: &mut [String], start_x: usize, y: usize, old_width: usize, diff: usize)
    requires
        y < old(lines)@.len() ==> 1 <= start_x + old_width <= usize::MAX,
    ensures
        lines_view(final(lines)@) == expand_spec(
            lines_view(old(lines)@),
            start_x as nat,
            y as nat,
            old_width as nat,
            diff as nat,
            ' ',
        ),
{
    insert_fill(lines, start_x, y, old_width, diff, ' ');
}

/// Inserts `diff` copies of `fill_char` in line `y` before the right corner
/// of a box that starts at `start_x` and is `old_width` cells wide.
pub fn expand_horizontal_line(
    lines: &mut [String],
    start_x: usize,
    y: usize,
    old_width: usize,
    diff: usize,
    fill_char: char,
)
    requires
        y < old(lines)@.len() ==> 1 <= start_x + old_width <= usize::MAX,
    ensures
        lines_view(final(lines)@) == expand_spec(
            lines_view(old(lines)@),
            start_x as nat,
            y as nat,
            old_width as nat,
            diff as nat,
            fill_char,
        ),
{
    insert_fill(lines, start_x, y, old_width, diff, fill_char);
}

} // verus!
