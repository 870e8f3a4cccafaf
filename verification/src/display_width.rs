//! Terminal display width of text, as `unicode-display-width` computes it
//! (one or two cells per extended grapheme cluster), and padding to a width.
use vstd::prelude::*;
use crate::text::{chars_of, push_all, push_spaces, slice_chars, spaces, spaces_vec, string_of};

verus! {

/// The number of terminal cells that `unicode_display_width::width` reports
/// for the text `s`.
pub uninterp spec fn text_width(s: Seq<char>) -> u64;

/// Printable ASCII (`' '..='~'`) or a box-drawing glyph (U+2500..=U+257F).
pub open spec fn narrow_char(c: char) -> bool {
    (' ' <= c && c <= '~') || ('\u{2500}' <= c && c <= '\u{257f}')
}

/// Text made only of printable ASCII and box-drawing glyphs.
pub open spec fn narrow(s: Seq<char>) -> bool {
    forall|i: int| 0 <= i < s.len() ==> narrow_char(#[trigger] s[i])
}

/// The cells `unicode_display_width::width` reports for `s`: one per
/// character for narrow text, the named result otherwise.
pub open spec fn cells(s: Seq<char>) -> nat {
    if narrow(s) {
        s.len()
    } else {
        text_width(s) as nat
    }
}

/// `unicode_display_width::width` on the text made of the characters `v`.
/// What the crate's source shows directly is stated: the width is a sum of one
/// or two cells per grapheme cluster, so it is zero exactly for empty text and
/// at most two cells per character. Printable ASCII characters and box-drawing
/// glyphs (U+2500..=U+257F) never join other such characters in a cluster and
/// are not in the crate's double-width table, so text made only of them takes
/// one cell per character. For other text the result is named `text_width`;
/// how it is segmented is left unsaid.
#[verifier::external_body]
fn unicode_width(v: &[char]) -> (w: u64)
    ensures
        !narrow(v@) ==> w == text_width(v@),
        narrow(v@) ==> w == v@.len(),
        v@.len() == 0 ==> w == 0,
        v@.len() > 0 ==> w >= 1,
        w <= 2 * v@.len(),
{
    let s: String = v.iter().collect();
    unicode_display_width::width(&s)
}

/// The display width of `s` as a `usize` (saturating at `usize::MAX`).
pub open spec fn width_of(s: Seq<char>) -> nat {
    if cells(s) <= usize::MAX {
        cells(s)
    } else {
        usize::MAX as nat
    }
}

/// Narrow text that fits a `usize` is as wide as it is long.
pub proof fn lemma_narrow_width(s: Seq<char>)
    requires
        narrow(s),
        s.len() <= usize::MAX,
    ensures
        width_of(s) == s.len(),
{
}

/// The display width of a single character.
pub open spec fn char_width(c: char) -> nat {
    width_of(seq![c])
}

/// Display width of a character slice.
pub fn width_of_chars(v: &[char]) -> (w: usize)
    ensures
        w == width_of(v@),
        v@.len() == 0 ==> w == 0,
        v@.len() > 0 ==> w >= 1,
        w <= 2 * v@.len(),
        narrow(v@) ==> w == v@.len(),
{
    let n = v.len();
    assert(v@.len() == n);
    let t = unicode_width(v);
    if t <= usize::MAX as u64 {
        t as usize
    } else {
        usize::MAX
    }
}

/// Returns the display width of the string in terminal cells.
pub fn display_width(s: &str) -> (w: usize)
    ensures
        w == width_of(s@),
        narrow(s@) ==> w == s@.len(),
{
    let v = chars_of(s);
    width_of_chars(&v)
}

/// Returns the display width of a single character.
pub fn display_width_char(ch: char) -> (w: usize)
    ensures
        w == char_width(ch),
        1 <= w <= 2,
{
    let v: Vec<char> = vec![ch];
    proof {
        assert(v@ =~= seq![ch]);
    }
    width_of_chars(&v)
}

/// `s`, measured as `w` cells wide, padded on the right with spaces up to `width` cells.
pub open spec fn pad_right_spec(s: Seq<char>, w: nat, width: nat) -> Seq<char> {
    if w >= width {
        s
    } else {
        s + spaces((width - w) as nat)
    }
}

/// `s`, measured as `w` cells wide, padded on the left with spaces up to `width` cells.
pub open spec fn pad_left_spec(s: Seq<char>, w: nat, width: nat) -> Seq<char> {
    if w >= width {
        s
    } else {
        spaces((width - w) as nat) + s
    }
}

/// `s`, measured as `w` cells wide, centered in `width` cells; an odd padding
/// leaves the extra cell on the right.
pub open spec fn pad_center_spec(s: Seq<char>, w: nat, width: nat) -> Seq<char> {
    if w >= width {
        s
    } else {
        let pad = (width - w) as nat;
        spaces(pad / 2) + s + spaces((pad - pad / 2) as nat)
    }
}

/// `s` padded on the right with spaces up to `width` cells.
pub open spec fn ljust_spec(s: Seq<char>, width: nat) -> Seq<char> {
    pad_right_spec(s, width_of(s), width)
}

/// `s` padded on the left with spaces up to `width` cells.
pub open spec fn rjust_spec(s: Seq<char>, width: nat) -> Seq<char> {
    pad_left_spec(s, width_of(s), width)
}

/// `s` centered in `width` cells; an odd padding leaves the extra cell on the right.
pub open spec fn center_spec(s: Seq<char>, width: nat) -> Seq<char> {
    pad_center_spec(s, width_of(s), width)
}

/// Pads `v`, whose display width is `w`, on the right up to `width` cells.
pub fn pad_right(v: &[char], w: usize, width: usize) -> (r: Vec<char>)
    ensures
        r@ == pad_right_spec(v@, w as nat, width as nat),
{
    let mut out = slice_chars(v, 0, v.len());
    proof {
        assert(v@.subrange(0, v@.len() as int) =~= v@);
    }
    if w < width {
        push_spaces(&mut out, width - w);
    }
    out
}

/// Pads `v`, whose display width is `w`, on the left up to `width` cells.
pub fn pad_left(v: &[char], w: usize, width: usize) -> (r: Vec<char>)
    ensures
        r@ == pad_left_spec(v@, w as nat, width as nat),
{
    if w >= width {
        let out = slice_chars(v, 0, v.len());
        proof {
            assert(v@.subrange(0, v@.len() as int) =~= v@);
        }
        return out;
    }
    let mut out = spaces_vec(width - w);
    push_all(&mut out, v);
    out
}

/// Centers `v`, whose display width is `w`, in `width` cells.
pub fn pad_center(v: &[char], w: usize, width: usize) -> (r: Vec<char>)
    ensures
        r@ == pad_center_spec(v@, w as nat, width as nat),
{
    if w >= width {
        let out = slice_chars(v, 0, v.len());
        proof {
            assert(v@.subrange(0, v@.len() as int) =~= v@);
        }
        return out;
    }
    let pad = width - w;
    let left = pad / 2;
    let right = pad - left;
    let mut out = spaces_vec(left);
    push_all(&mut out, v);
    push_spaces(&mut out, right);
    out
}

/// Pads `s` on the right with spaces until it reaches `width` cells.
pub fn ljust_to_width(s: &str, width: usize) -> (r: String)
    ensures
        r@ == ljust_spec(s@, width as nat),
{
    let v = chars_of(s);
    let w = width_of_chars(&v);
    string_of(&pad_right(&v, w, width))
}

/// Pads `s` on the left with spaces until it reaches `width` cells.
pub fn rjust_to_width(s: &str, width: usize) -> (r: String)
    ensures
        r@ == rjust_spec(s@, width as nat),
{
    let v = chars_of(s);
    let w = width_of_chars(&v);
    string_of(&pad_left(&v, w, width))
}

/// Centers the characters `v` in a field of `width` cells.
pub fn center_chars(v: &[char], width: usize) -> (r: Vec<char>)
    ensures
        r@ == center_spec(v@, width as nat),
{
    let w = width_of_chars(v);
    pad_center(v, w, width)
}

/// Centers `s` in a field of `width` cells.
///
/// If padding is odd, the extra cell is placed on the right.
pub fn center_to_width(s: &str, width: usize) -> (r: String)
    ensures
        r@ == center_spec(s@, width as nat),
{
    let v = chars_of(s);
    let out = center_chars(&v, width);
    string_of(&out)
}

} // verus!
