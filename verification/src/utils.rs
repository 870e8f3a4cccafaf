//! Character classes of box-drawing diagrams and small shared helpers.
use vstd::prelude::*;
use vstd::laws_eq::obeys_concrete_eq;
use vstd::std_specs::cmp::PartialEqSpec;

verus! {

/// U+2500..=U+253F and U+2550..=U+257F.
pub open spec fn box_drawing_spec(ch: char) -> bool {
    ('\u{2500}' <= ch && ch <= '\u{253f}') || ('\u{2550}' <= ch && ch <= '\u{257f}')
}

pub open spec fn horizontal_spec(ch: char) -> bool {
    ch == '─' || ch == '═' || ch == '┄' || ch == '┅' || ch == '-' || ch == '_'
}

pub open spec fn vertical_spec(ch: char) -> bool {
    ch == '│' || ch == '║' || ch == '┆' || ch == '┇' || ch == '|' || ch == '!'
}

pub open spec fn arrow_spec(ch: char) -> bool {
    ch == '↑' || ch == '↓' || ch == '←' || ch == '→' || ch == '▼' || ch == '▶' || ch == '◀'
}

pub open spec fn diagonal_spec(ch: char) -> bool {
    ch == '/' || ch == '\\' || ch == '╱' || ch == '╲'
}

pub fn is_box_drawing_char(ch: char) -> (r: bool)
    ensures
        r == box_drawing_spec(ch),
{
    ('\u{2500}' <= ch && ch <= '\u{253f}') || ('\u{2550}' <= ch && ch <= '\u{257f}')
}

pub fn is_horizontal(ch: char) -> (r: bool)
    ensures
        r == horizontal_spec(ch),
{
    ch == '─' || ch == '═' || ch == '┄' || ch == '┅' || ch == '-' || ch == '_'
}

pub fn is_vertical(ch: char) -> (r: bool)
    ensures
        r == vertical_spec(ch),
{
    ch == '│' || ch == '║' || ch == '┆' || ch == '┇' || ch == '|' || ch == '!'
}

pub fn is_arrow(ch: char) -> (r: bool)
    ensures
        r == arrow_spec(ch),
{
    ch == '↑' || ch == '↓' || ch == '←' || ch == '→' || ch == '▼' || ch == '▶' || ch == '◀'
}

pub fn is_diagonal(ch: char) -> (r: bool)
    ensures
        r == diagonal_spec(ch),
{
    ch == '/' || ch == '\\' || ch == '╱' || ch == '╲'
}

/// How many times `x` occurs in `s`.
pub open spec fn occurrences<T>(s: Seq<T>, x: T) -> nat
    decreases s.len(),
{
    if s.len() == 0 {
        0
    } else {
        occurrences(s.drop_last(), x) + if s.last() == x {
            1nat
        } else {
            0nat
        }
    }
}

/// The first index among `s[0..n)` whose element occurs most often in `s`.
pub open spec fn best_index<T>(s: Seq<T>, n: nat) -> nat
    decreases n,
{
    if n <= 1 {
        0
    } else {
        let b = best_index(s, (n - 1) as nat);
        if occurrences(s, s[n - 1]) > occurrences(s, s[b as int]) {
            (n - 1) as nat
        } else {
            b
        }
    }
}

/// The most frequent element of `s` (the earliest one among equally frequent
/// ones), or `None` for an empty sequence.
pub open spec fn most_common_spec<T>(s: Seq<T>) -> Option<T> {
    if s.len() == 0 {
        None
    } else {
        Some(s[best_index(s, s.len()) as int])
    }
}

/// A value occurs no more often than the sequence is long.
pub proof fn lemma_occurrences_le<T>(s: Seq<T>, x: T)
    ensures
        occurrences(s, x) <= s.len(),
    decreases s.len(),
{
    if s.len() > 0 {
        lemma_occurrences_le(s.drop_last(), x);
    }
}

pub proof fn lemma_occurrences_contains<T>(s: Seq<T>, x: T)
    ensures
        occurrences(s, x) > 0 <==> s.contains(x),
    decreases s.len(),
{
    if s.len() > 0 {
        lemma_occurrences_contains(s.drop_last(), x);
        if s.drop_last().contains(x) {
            let i = choose|i: int| 0 <= i < s.drop_last().len() && s.drop_last()[i] == x;
            assert(s[i] == x);
        }
        if s.contains(x) && s.last() != x {
            let i = choose|i: int| 0 <= i < s.len() && s[i] == x;
            assert(s.drop_last()[i] == x);
        }
    }
}

proof fn lemma_best_index<T>(s: Seq<T>, n: nat)
    requires
        1 <= n <= s.len(),
    ensures
        best_index(s, n) < n,
        forall|j: int| 0 <= j < n ==> occurrences(s, #[trigger] s[j]) <= occurrences(
            s,
            s[best_index(s, n) as int],
        ),
    decreases n,
{
    if n > 1 {
        lemma_best_index(s, (n - 1) as nat);
    }
}

/// The most frequent element of `s` occurs in `s` at least as often as any value.
pub proof fn lemma_most_common_is_maximal<T>(s: Seq<T>)
    requires
        s.len() > 0,
    ensures
        s.contains(most_common_spec(s)->0),
        forall|y: T| #[trigger] occurrences(s, y) <= occurrences(s, most_common_spec(s)->0),
{
    lemma_best_index(s, s.len());
    let x = most_common_spec(s)->0;
    assert(s[best_index(s, s.len()) as int] == x);
    assert forall|y: T| #[trigger] occurrences(s, y) <= occurrences(s, x) by {
        lemma_occurrences_contains(s, y);
        if s.contains(y) {
            let j = choose|j: int| 0 <= j < s.len() && s[j] == y;
            assert(occurrences(s, s[j]) <= occurrences(s, x));
        }
    }
}

pub(crate) fn count_occurrences<T: PartialEq + Copy>(items: &[T], x: T) -> (c: usize)
    ensures
        c <= items@.len(),
        obeys_concrete_eq::<T>() ==> c == occurrences(items@, x),
{
    let mut c: usize = 0;
    let mut i: usize = 0;
    while i < items.len()
        invariant
            i <= items@.len(),
            c <= i,
            obeys_concrete_eq::<T>() ==> c == occurrences(items@.take(i as int), x),
        decreases items@.len() - i,
    {
        proof {
            reveal(obeys_concrete_eq);
            assert(items@.take(i + 1).drop_last() =~= items@.take(i as int));
        }
        if items[i] == x {
            c = c + 1;
        }
        i = i + 1;
    }
    proof {
        assert(items@.take(items@.len() as int) =~= items@);
    }
    c
}

/// Returns the element that occurs most often in `items` (`None` when empty).
/// Among equally frequent elements the earliest one is returned. Counting
/// compares items with `==`; when `==` is the equality of values
/// (`obeys_concrete_eq`), the result is exactly `most_common_spec`.
pub fn most_common<T: PartialEq + Copy>(items: &[T]) -> (r: Option<T>)
    ensures
        r is None <==> items@.len() == 0,
        r matches Some(x) ==> items@.contains(x),
        obeys_concrete_eq::<T>() ==> r == most_common_spec(items@),
        obeys_concrete_eq::<T>() ==> (r matches Some(x) ==> forall|y: T|
            #[trigger] occurrences(items@, y) <= occurrences(items@, x)),
{
    if items.len() == 0 {
        return None;
    }
    let mut best: usize = 0;
    let mut best_count = count_occurrences(items, items[0]);
    let mut i: usize = 1;
    while i < items.len()
        invariant
            1 <= i <= items@.len(),
            best < i,
            obeys_concrete_eq::<T>() ==> best == best_index(items@, i as nat),
            obeys_concrete_eq::<T>() ==> best_count == occurrences(items@, items@[best as int]),
        decreases items@.len() - i,
    {
        let c = count_occurrences(items, items[i]);
        if c > best_count {
            best = i;
            best_count = c;
        }
        i = i + 1;
    }
    proof {
        if obeys_concrete_eq::<T>() {
            lemma_most_common_is_maximal(items@);
        }
        assert(items@[best as int] == items@[best as int]);
    }
    Some(items[best])
}

/// The least multiple of `grid_size` that is at least `value`
/// (`value` itself when `grid_size` is zero).
pub open spec fn align_to_grid_spec(value: nat, grid_size: nat) -> nat {
    if grid_size == 0 {
        value
    } else {
        ((value + grid_size - 1) / grid_size as int) as nat * grid_size
    }
}

pub proof fn lemma_align_to_grid_bounds(value: nat, g: nat)
    requires
        g > 0,
    ensures
        align_to_grid_spec(value, g) % g == 0,
        value <= align_to_grid_spec(value, g) < value + g,
{
    let q = ((value + g - 1) / g as int) as nat;
    assert((value + g - 1) == q * g + (value + g - 1) % (g as int)) by (nonlinear_arith)
        requires
            g > 0,
            q == (value + g - 1) / g as int,
    ;
    assert(((q * g) as int) % (g as int) == 0) by (nonlinear_arith)
        requires
            g > 0,
    ;
}

/// Rounds `value` up to the next multiple of `grid_size`.
pub fn align_to_grid(value: usize, grid_size: usize) -> (r: usize)
    requires
        grid_size == 0 || value + grid_size - 1 <= usize::MAX,
    ensures
        r == align_to_grid_spec(value as nat, grid_size as nat),
        grid_size > 0 ==> r % grid_size == 0 && value <= r < value + grid_size,
{
    if grid_size == 0 {
        return value;
    }
    proof {
        lemma_align_to_grid_bounds(value as nat, grid_size as nat);
    }
    let q = (value + (grid_size - 1)) / grid_size;
    proof {
        assert(q * grid_size <= value + grid_size - 1) by (nonlinear_arith)
            requires
                grid_size > 0,
                q == (value + grid_size - 1) / grid_size as int,
        ;
    }
    q * grid_size
}

/// Rounding up is idempotent, and a value that is already a multiple of the
/// grid size is left as it is.
pub proof fn lemma_align_to_grid_idempotent(value: nat, grid_size: nat)
    ensures
        align_to_grid_spec(align_to_grid_spec(value, grid_size), grid_size) == align_to_grid_spec(
            value,
            grid_size,
        ),
        grid_size > 0 && value % grid_size == 0 ==> align_to_grid_spec(value, grid_size) == value,
{
    if grid_size > 0 {
        let a = align_to_grid_spec(value, grid_size);
        lemma_align_to_grid_bounds(value, grid_size);
        lemma_align_to_grid_bounds(a, grid_size);
        let b = align_to_grid_spec(a, grid_size);
        assert(b == a) by (nonlinear_arith)
            requires
                a % grid_size == 0,
                b % grid_size == 0,
                a <= b < a + grid_size,
                grid_size > 0,
        ;
        if value % grid_size == 0 {
            assert(a == value) by (nonlinear_arith)
                requires
                    a % grid_size == 0,
                    value % grid_size == 0,
                    value <= a < value + grid_size,
                    grid_size > 0,
            ;
        }
    }
}

/// The `index`-th character of `s`, if any.
pub fn get_char_at(s: &str, index: usize) -> (r: Option<char>)
    ensures
        r == (if index < s@.len() {
            Some(s@[index as int])
        } else {
            None
        }),
{
    let n = s.unicode_len();
    if index < n {
        Some(s.get_char(index))
    } else {
        None
    }
}

/// The characters on either side of a position in a line.
#[derive(Debug, Clone, Copy)]
pub struct Neighbors {
    pub left: Option<char>,
    pub right: Option<char>,
}

/// The characters of `s` just left and just right of position `x`
/// (`x + 1` must not overflow).
pub fn get_neighbors(s: &str, x: usize) -> (r: Neighbors)
    requires
        x < usize::MAX,
    ensures
        r.left == (if 0 < x <= s@.len() {
            Some(s@[x - 1])
        } else {
            None
        }),
        r.right == (if x + 1 < s@.len() {
            Some(s@[x + 1])
        } else {
            None
        }),
{
    let n = s.unicode_len();
    let left = if x > 0 && x - 1 < n {
        Some(s.get_char(x - 1))
    } else {
        None
    };
    let right = if x < n && x + 1 < n {
        Some(s.get_char(x + 1))
    } else {
        None
    };
    Neighbors { left, right }
}

} // verus!
