//! Character-level building blocks shared by every pass: converting between
//! `str`/`String` and `Vec<char>`, runs of spaces, and whitespace trimming.
use vstd::prelude::*;

verus! {

/// `n` space characters.
pub open spec fn spaces(n: nat) -> Seq<char> {
    Seq::new(n, |i: int| ' ')
}

/// The character view of every line of a diagram.
pub open spec fn lines_view(lines: Seq<String>) -> Seq<Seq<char>> {
    lines.map_values(|s: String| s@)
}

/// The characters of `s`, in order.
pub fn chars_of(s: &str) -> (v: Vec<char>)
    ensures
        v@ == s@,
{
    let mut v: Vec<char> = Vec::new();
    for c in it: s.chars()
        invariant
            v@ == it.seq().take(it.index() as int),
            it.seq() == s@,
    {
        v.push(c);
    }
    v
}

/// Appends one character to a `String` (std's `String::push`).
#[verifier::external_body]
fn push_char(s: &mut String, c: char)
    ensures
        final(s)@ == old(s)@.push(c),
{
    s.push(c);
}

/// The `String` made of the characters of `v`.
pub fn string_of(v: &[char]) -> (s: String)
    ensures
        s@ == v@,
{
    let mut s = String::new();
    let mut i: usize = 0;
    while i < v.len()
        invariant
            i <= v@.len(),
            s@ == v@.take(i as int),
        decreases v@.len() - i,
    {
        push_char(&mut s, v[i]);
        proof {
            assert(v@.take(i as int).push(v@[i as int]) =~= v@.take(i + 1));
        }
        i = i + 1;
    }
    proof {
        assert(v@.take(v@.len() as int) =~= v@);
    }
    s
}

/// Appends `n` spaces to `v`.
pub fn push_spaces(v: &mut Vec<char>, n: usize)
    ensures
        final(v)@ == old(v)@ + spaces(n as nat),
{
    let ghost start = v@;
    let mut i: usize = 0;
    while i < n
        invariant
            i <= n,
            v@ == start + spaces(i as nat),
        decreases n - i,
    {
        v.push(' ');
        proof {
            assert(start + spaces((i + 1) as nat) =~= (start + spaces(i as nat)).push(' '));
        }
        i = i + 1;
    }
}

/// Appends all characters of `w` to `v`.
pub fn push_all(v: &mut Vec<char>, w: &[char])
    ensures
        final(v)@ == old(v)@ + w@,
{
    let ghost start = v@;
    let mut i: usize = 0;
    while i < w.len()
        invariant
            i <= w@.len(),
            v@ == start + w@.take(i as int),
        decreases w@.len() - i,
    {
        v.push(w[i]);
        proof {
            assert(start + w@.take(i + 1) =~= (start + w@.take(i as int)).push(w@[i as int]));
        }
        i = i + 1;
    }
    proof {
        assert(w@.take(w@.len() as int) =~= w@);
    }
}

/// The characters of `v` from `from` up to (not including) `to`.
pub fn slice_chars(v: &[char], from: usize, to: usize) -> (r: Vec<char>)
    requires
        from <= to <= v@.len(),
    ensures
        r@ == v@.subrange(from as int, to as int),
{
    let mut r: Vec<char> = Vec::new();
    let mut i: usize = from;
    while i < to
        invariant
            from <= i <= to <= v@.len(),
            r@ == v@.subrange(from as int, i as int),
        decreases to - i,
    {
        r.push(v[i]);
        proof {
            assert(v@.subrange(from as int, i + 1) =~= v@.subrange(from as int, i as int).push(
                v@[i as int],
            ));
        }
        i = i + 1;
    }
    r
}

/// A `Vec` of `n` spaces.
pub fn spaces_vec(n: usize) -> (r: Vec<char>)
    ensures
        r@ == spaces(n as nat),
{
    let mut r: Vec<char> = Vec::new();
    push_spaces(&mut r, n);
    proof {
        assert(Seq::<char>::empty() + spaces(n as nat) =~= spaces(n as nat));
    }
    r
}

/// Unicode `White_Space`, the set that `char::is_whitespace` and `str::trim` use.
pub open spec fn is_unicode_ws(c: char) -> bool {
    ||| ('\u{9}' <= c && c <= '\u{d}')
    ||| c == ' '
    ||| c == '\u{85}'
    ||| c == '\u{a0}'
    ||| c == '\u{1680}'
    ||| ('\u{2000}' <= c && c <= '\u{200a}')
    ||| c == '\u{2028}'
    ||| c == '\u{2029}'
    ||| c == '\u{202f}'
    ||| c == '\u{205f}'
    ||| c == '\u{3000}'
}

/// A space or a tab: the indentation characters of a diagram line.
pub open spec fn is_blank(c: char) -> bool {
    c == ' ' || c == '\t'
}

/// The characters removed by a trim: blanks only, or all Unicode whitespace.
pub open spec fn strippable(c: char, blank_only: bool) -> bool {
    if blank_only {
        is_blank(c)
    } else {
        is_unicode_ws(c)
    }
}

pub fn is_whitespace(c: char) -> (r: bool)
    ensures
        r == is_unicode_ws(c),
{
    ('\u{9}' <= c && c <= '\u{d}') || c == ' ' || c == '\u{85}' || c == '\u{a0}' || c
        == '\u{1680}' || ('\u{2000}' <= c && c <= '\u{200a}') || c == '\u{2028}' || c
        == '\u{2029}' || c == '\u{202f}' || c == '\u{205f}' || c == '\u{3000}'
}

pub fn is_strippable(c: char, blank_only: bool) -> (r: bool)
    ensures
        r == strippable(c, blank_only),
{
    if blank_only {
        c == ' ' || c == '\t'
    } else {
        is_whitespace(c)
    }
}

/// The number of leading characters of `s` that a trim removes.
pub open spec fn lead_len(s: Seq<char>, blank_only: bool) -> nat
    decreases s.len(),
{
    if s.len() == 0 || !strippable(s[0], blank_only) {
        0
    } else {
        1 + lead_len(s.drop_first(), blank_only)
    }
}

/// The length of `s` once its trailing strippable characters are removed.
pub open spec fn kept_len(s: Seq<char>, blank_only: bool) -> nat
    decreases s.len(),
{
    if s.len() == 0 || !strippable(s.last(), blank_only) {
        s.len()
    } else {
        kept_len(s.drop_last(), blank_only)
    }
}

pub open spec fn trim_start_spec(s: Seq<char>, blank_only: bool) -> Seq<char> {
    s.skip(lead_len(s, blank_only) as int)
}

pub open spec fn trim_end_spec(s: Seq<char>, blank_only: bool) -> Seq<char> {
    s.take(kept_len(s, blank_only) as int)
}

/// `str::trim`: both ends stripped of Unicode whitespace.
pub open spec fn trim_spec(s: Seq<char>) -> Seq<char> {
    trim_start_spec(trim_end_spec(s, false), false)
}

pub proof fn lemma_lead_len(s: Seq<char>, b: bool)
    ensures
        lead_len(s, b) <= s.len(),
        forall|j: int| 0 <= j < lead_len(s, b) ==> strippable(#[trigger] s[j], b),
        lead_len(s, b) < s.len() ==> !strippable(s[lead_len(s, b) as int], b),
    decreases s.len(),
{
    if s.len() > 0 && strippable(s[0], b) {
        lemma_lead_len(s.drop_first(), b);
        assert forall|j: int| 0 <= j < lead_len(s, b) implies strippable(#[trigger] s[j], b) by {
            if j > 0 {
                assert(s[j] == s.drop_first()[j - 1]);
            }
        }
    }
}

pub proof fn lemma_kept_len(s: Seq<char>, b: bool)
    ensures
        kept_len(s, b) <= s.len(),
        forall|j: int| kept_len(s, b) <= j < s.len() ==> strippable(#[trigger] s[j], b),
        kept_len(s, b) > 0 ==> !strippable(s[kept_len(s, b) - 1], b),
    decreases s.len(),
{
    if s.len() > 0 && strippable(s.last(), b) {
        lemma_kept_len(s.drop_last(), b);
        assert forall|j: int| kept_len(s, b) <= j < s.len() implies strippable(
            #[trigger] s[j],
            b,
        ) by {
            if j < s.len() - 1 {
                assert(s[j] == s.drop_last()[j]);
            }
        }
    }
}

/// Any prefix run of strippable characters followed by a non-strippable one
/// (or the end) is exactly the leading run.
pub proof fn lemma_lead_len_unique(s: Seq<char>, b: bool, k: int)
    requires
        0 <= k <= s.len(),
        forall|j: int| 0 <= j < k ==> strippable(#[trigger] s[j], b),
        k < s.len() ==> !strippable(s[k], b),
    ensures
        lead_len(s, b) == k,
    decreases s.len(),
{
    if k > 0 {
        assert(strippable(s[0], b));
        assert forall|j: int| 0 <= j < k - 1 implies strippable(#[trigger] s.drop_first()[j], b) by {
            assert(s.drop_first()[j] == s[j + 1]);
        }
        if k - 1 < s.drop_first().len() {
            assert(s.drop_first()[k - 1] == s[k]);
        }
        lemma_lead_len_unique(s.drop_first(), b, k - 1);
    }
}

/// Any suffix run of strippable characters preceded by a non-strippable one
/// (or the start) is exactly the trailing run.
pub proof fn lemma_kept_len_unique(s: Seq<char>, b: bool, k: int)
    requires
        0 <= k <= s.len(),
        forall|j: int| k <= j < s.len() ==> strippable(#[trigger] s[j], b),
        k > 0 ==> !strippable(s[k - 1], b),
    ensures
        kept_len(s, b) == k,
    decreases s.len(),
{
    if k < s.len() {
        assert(strippable(s.last(), b));
        assert forall|j: int| k <= j < s.drop_last().len() implies strippable(
            #[trigger] s.drop_last()[j],
            b,
        ) by {
            assert(s.drop_last()[j] == s[j]);
        }
        if k > 0 {
            assert(s.drop_last()[k - 1] == s[k - 1]);
        }
        lemma_kept_len_unique(s.drop_last(), b, k);
    }
}

/// The number of leading strippable characters of `v`.
pub fn leading_len(v: &[char], blank_only: bool) -> (r: usize)
    ensures
        r == lead_len(v@, blank_only),
{
    let mut i: usize = 0;
    while i < v.len() && is_strippable(v[i], blank_only)
        invariant
            i <= v@.len(),
            forall|j: int| 0 <= j < i ==> strippable(#[trigger] v@[j], blank_only),
        decreases v@.len() - i,
    {
        i = i + 1;
    }
    proof {
        lemma_lead_len_unique(v@, blank_only, i as int);
    }
    i
}

/// The length of `v` without its trailing strippable characters.
pub fn kept_length(v: &[char], blank_only: bool) -> (r: usize)
    ensures
        r == kept_len(v@, blank_only),
{
    let mut i: usize = v.len();
    while i > 0 && is_strippable(v[i - 1], blank_only)
        invariant
            i <= v@.len(),
            forall|j: int| i <= j < v@.len() ==> strippable(#[trigger] v@[j], blank_only),
        decreases i,
    {
        i = i - 1;
    }
    proof {
        lemma_kept_len_unique(v@, blank_only, i as int);
    }
    i
}

/// `v` without its trailing strippable characters.
pub fn trim_end_chars(v: &[char], blank_only: bool) -> (r: Vec<char>)
    ensures
        r@ == trim_end_spec(v@, blank_only),
{
    let k = kept_length(v, blank_only);
    proof {
        lemma_kept_len(v@, blank_only);
    }
    slice_chars(v, 0, k)
}

/// `v` without its leading strippable characters.
pub fn trim_start_chars(v: &[char], blank_only: bool) -> (r: Vec<char>)
    ensures
        r@ == trim_start_spec(v@, blank_only),
{
    let k = leading_len(v, blank_only);
    proof {
        lemma_lead_len(v@, blank_only);
    }
    slice_chars(v, k, v.len())
}

/// `str::trim` on a character vector.
pub fn trim_chars(v: &[char]) -> (r: Vec<char>)
    ensures
        r@ == trim_spec(v@),
{
    let e = trim_end_chars(v, false);
    trim_start_chars(&e, false)
}

/// Whether `c` is alphanumeric in the sense of `char::is_alphanumeric`
/// (Unicode `Alphabetic` or `Numeric`).
pub uninterp spec fn unicode_alphanumeric(c: char) -> bool;

pub open spec fn is_ascii_alphanumeric(c: char) -> bool {
    ('a' <= c && c <= 'z') || ('A' <= c && c <= 'Z') || ('0' <= c && c <= '9')
}

/// std's `char::is_alphanumeric`. The contract names its result and states
/// only its ASCII part: on ASCII characters it holds exactly of letters and
/// digits. What it says of other characters (Unicode tables) is left unsaid.
#[verifier::external_body]
pub(crate) fn is_alphanumeric(c: char) -> (r: bool)
    ensures
        r == unicode_alphanumeric(c),
        c <= '\u{7f}' ==> (r == is_ascii_alphanumeric(c)),
{
    c.is_alphanumeric()
}

} // verus!

verus! {

/// The character view of a grid of character vectors.
pub open spec fn grid_view(grid: Seq<Vec<char>>) -> Seq<Seq<char>> {
    grid.map_values(|v: Vec<char>| v@)
}

/// The characters of every line.
pub fn to_grid(lines: &[String]) -> (grid: Vec<Vec<char>>)
    ensures
        grid_view(grid@) == lines_view(lines@),
        grid@.len() == lines@.len(),
{
    let mut grid: Vec<Vec<char>> = Vec::new();
    let mut y: usize = 0;
    while y < lines.len()
        invariant
            y <= lines@.len(),
            grid_view(grid@) == lines_view(lines@).take(y as int),
            grid@.len() == y,
        decreases lines@.len() - y,
    {
        let v = chars_of(lines[y].as_str());
        let ghost before = grid@;
        grid.push(v);
        proof {
            assert(grid_view(grid@) =~= grid_view(before).push(v@));
            assert(lines_view(lines@).take(y + 1) =~= lines_view(lines@).take(y as int).push(
                lines@[y as int]@,
            ));
        }
        y = y + 1;
    }
    proof {
        assert(lines_view(lines@).take(lines@.len() as int) =~= lines_view(lines@));
    }
    grid
}

/// A `String` for every row of the grid.
pub fn from_grid(grid: &[Vec<char>]) -> (lines: Vec<String>)
    ensures
        lines_view(lines@) == grid_view(grid@),
        lines@.len() == grid@.len(),
{
    let mut lines: Vec<String> = Vec::new();
    let mut y: usize = 0;
    while y < grid.len()
        invariant
            y <= grid@.len(),
            lines_view(lines@) == grid_view(grid@).take(y as int),
            lines@.len() == y,
        decreases grid@.len() - y,
    {
        let s = string_of(grid[y].as_slice());
        let ghost before = lines@;
        lines.push(s);
        proof {
            assert(lines_view(lines@) =~= lines_view(before).push(s@));
            assert(grid_view(grid@).take(y + 1) =~= grid_view(grid@).take(y as int).push(
                grid@[y as int]@,
            ));
        }
        y = y + 1;
    }
    proof {
        assert(grid_view(grid@).take(grid@.len() as int) =~= grid_view(grid@));
    }
    lines
}

} // verus!

verus! {

/// `n` copies of `c`.
pub open spec fn repeat_char(c: char, n: nat) -> Seq<char> {
    Seq::new(n, |i: int| c)
}

/// Appends `n` copies of `c` to `v`.
pub fn push_repeat(v: &mut Vec<char>, c: char, n: usize)
    ensures
        final(v)@ == old(v)@ + repeat_char(c, n as nat),
{
    let ghost start = v@;
    let mut i: usize = 0;
    while i < n
        invariant
            i <= n,
            v@ == start + repeat_char(c, i as nat),
        decreases n - i,
    {
        v.push(c);
        proof {
            assert(start + repeat_char(c, (i + 1) as nat) =~= (start + repeat_char(c, i as nat)).push(c));
        }
        i = i + 1;
    }
}

} // verus!

verus! {

/// Neither end of `c` is Unicode whitespace (what `trim_spec` leaves).
pub open spec fn trimmed(c: Seq<char>) -> bool {
    c.len() == 0 || (!is_unicode_ws(c[0]) && !is_unicode_ws(c.last()))
}

/// What a trim leaves has no whitespace at either end.
pub proof fn lemma_trim_is_trimmed(s: Seq<char>)
    ensures
        trimmed(trim_spec(s)),
{
    let k = kept_len(s, false);
    lemma_kept_len(s, false);
    let e = trim_end_spec(s, false);
    assert(e.len() == k);
    lemma_lead_len(e, false);
    let l = lead_len(e, false);
    let t = trim_spec(s);
    if t.len() > 0 {
        assert(t[0] == e[l as int]);
        assert(t.last() == e[k - 1]);
        assert(e[k - 1] == s[k - 1]);
    }
}

/// Trimming text padded with spaces on both sides gives back the text,
/// when the text has no whitespace at its ends.
pub proof fn lemma_trim_padded(c: Seq<char>, a: nat, b: nat)
    requires
        trimmed(c),
    ensures
        trim_spec(spaces(a) + c + spaces(b)) == c,
{
    let s = spaces(a) + c + spaces(b);
    if c.len() > 0 {
        let k = a + c.len();
        assert(s[k - 1] == c.last());
        lemma_kept_len_unique(s, false, k as int);
        let e = trim_end_spec(s, false);
        assert(e =~= spaces(a) + c);
        assert(e[a as int] == c[0]);
        lemma_lead_len_unique(e, false, a as int);
        assert(trim_spec(s) =~= c);
    } else {
        lemma_kept_len_unique(s, false, 0);
        assert(trim_spec(s) =~= c);
    }
}

/// Trailing spaces do not change what a trim leaves.
pub proof fn lemma_trim_pad_right(s: Seq<char>, b: nat)
    ensures
        trim_spec(s + spaces(b)) == trim_spec(s),
{
    let t = s + spaces(b);
    let k = kept_len(s, false);
    lemma_kept_len(s, false);
    assert forall|j: int| k <= j < t.len() implies strippable(#[trigger] t[j], false) by {
        if j < s.len() {
            assert(t[j] == s[j]);
        }
    }
    if k > 0 {
        assert(t[k - 1] == s[k - 1]);
    }
    lemma_kept_len_unique(t, false, k as int);
    assert(trim_end_spec(t, false) =~= trim_end_spec(s, false));
}

/// Text made only of spaces and tabs trims to nothing.
pub proof fn lemma_trim_blank(s: Seq<char>)
    requires
        forall|i: int| 0 <= i < s.len() ==> is_blank(#[trigger] s[i]),
    ensures
        trim_spec(s).len() == 0,
{
    lemma_kept_len_unique(s, false, 0);
}

} // verus!
