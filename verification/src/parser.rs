//! Splitting input text into the lines of a diagram.
use vstd::prelude::*;
use crate::error::Error;
use crate::patterns::{detect_type, detect_type_spec, DiagramType};
use crate::text::{chars_of, lines_view, string_of};

verus! {

#[derive(Debug, Clone)]
pub struct ParsedDiagram {
    pub lines: Vec<String>,
    pub diagram_type: DiagramType,
}

#[derive(Debug, Clone, Copy)]
pub struct Rect {
    pub x: usize,
    pub y: usize,
    pub width: usize,
    pub height: usize,
}

#[derive(Debug, Clone, Copy)]
pub struct Point {
    pub x: usize,
    pub y: usize,
}

#[derive(Debug, Clone)]
pub struct Connection {
    pub from: Point,
    pub to: Point,
}

/// A line without the carriage return that ends a `\r\n` line ending.
pub open spec fn strip_cr(l: Seq<char>) -> Seq<char> {
    if l.len() > 0 && l.last() == '\r' {
        l.drop_last()
    } else {
        l
    }
}

/// The lines completed so far and the line in progress after reading `s`.
pub open spec fn line_state(s: Seq<char>) -> (Seq<Seq<char>>, Seq<char>)
    decreases s.len(),
{
    if s.len() == 0 {
        (seq![], seq![])
    } else {
        let (done, cur) = line_state(s.drop_last());
        if s.last() == '\n' {
            (done.push(strip_cr(cur)), seq![])
        } else {
            (done, cur.push(s.last()))
        }
    }
}

/// `str::lines`: lines end at `\n` or `\r\n`; a final line ending is optional.
pub open spec fn split_lines(s: Seq<char>) -> Seq<Seq<char>> {
    let (done, cur) = line_state(s);
    if cur.len() > 0 {
        done.push(cur)
    } else {
        done
    }
}

/// Lines joined with `\n` between them.
pub open spec fn join_lines(ls: Seq<Seq<char>>) -> Seq<char>
    decreases ls.len(),
{
    if ls.len() == 0 {
        seq![]
    } else if ls.len() == 1 {
        ls[0]
    } else {
        join_lines(ls.drop_last()) + seq!['\n'] + ls.last()
    }
}

proof fn lemma_line_state_nonempty(s: Seq<char>)
    requires
        s.len() > 0,
    ensures
        line_state(s).0.len() > 0 || line_state(s).1.len() > 0,
    decreases s.len(),
{
}

/// Only empty input has no lines.
pub proof fn lemma_split_lines_empty(s: Seq<char>)
    ensures
        split_lines(s).len() == 0 <==> s.len() == 0,
{
    if s.len() > 0 {
        lemma_line_state_nonempty(s);
    }
}

pub proof fn lemma_join_push(ls: Seq<Seq<char>>, x: Seq<char>)
    ensures
        join_lines(ls.push(x)) == if ls.len() == 0 {
            x
        } else {
            join_lines(ls) + seq!['\n'] + x
        },
{
    assert(ls.push(x).drop_last() =~= ls);
}

proof fn lemma_join_state(s: Seq<char>)
    requires
        !s.contains('\r'),
    ensures
        join_lines(line_state(s).0.push(line_state(s).1)) == s,
        forall|i: int| 0 <= i < line_state(s).1.len() ==> line_state(s).1[i] != '\n',
    decreases s.len(),
{
    if s.len() > 0 {
        let t = s.drop_last();
        assert(!t.contains('\r')) by {
            if t.contains('\r') {
                let i = choose|i: int| 0 <= i < t.len() && t[i] == '\r';
                assert(s[i] == '\r');
            }
        }
        lemma_join_state(t);
        let (done, cur) = line_state(t);
        assert(s.last() != '\r') by {
            assert(s[s.len() - 1] == s.last());
        }
        lemma_join_push(done, cur);
        if s.last() == '\n' {
            assert(cur.len() == 0 || cur.last() != '\r') by {
                if cur.len() > 0 {
                    // every character of the line in progress comes from `t`
                    assert(cur.last() != '\r') by {
                        lemma_cur_is_suffix(t);
                    }
                }
            }
            assert(strip_cr(cur) == cur);
            lemma_join_push(done.push(cur), seq![]);
            assert(join_lines(done.push(cur)) + seq!['\n'] + seq![] =~= t + seq!['\n']);
            assert(t.push('\n') =~= s);
        } else {
            lemma_join_push(done, cur.push(s.last()));
            if done.len() == 0 {
                assert(cur.push(s.last()) =~= cur + seq![s.last()]);
            } else {
                assert(join_lines(done) + seq!['\n'] + cur.push(s.last()) =~= (join_lines(done)
                    + seq!['\n'] + cur) + seq![s.last()]);
            }
            assert(t + seq![s.last()] =~= s);
        }
    }
}

/// The line in progress is made of the last characters read.
proof fn lemma_cur_is_suffix(s: Seq<char>)
    ensures
        line_state(s).1.len() <= s.len(),
        forall|i: int|
            0 <= i < line_state(s).1.len() ==> line_state(s).1[i] == s[s.len()
                - line_state(s).1.len() + i],
    decreases s.len(),
{
    if s.len() > 0 {
        lemma_cur_is_suffix(s.drop_last());
    }
}

/// Joining the lines of a text with `\n` gives the text back, when it has no
/// carriage returns and does not end with a line ending.
pub proof fn lemma_join_split_lines(s: Seq<char>)
    requires
        s.len() > 0,
        !s.contains('\r'),
        s.last() != '\n',
    ensures
        join_lines(split_lines(s)) == s,
{
    lemma_join_state(s);
    assert(s.drop_last().push(s.last()) =~= s);
}

/// Splits `input` into lines and classifies the diagram.
/// Empty input is rejected with `Error::InvalidInput("Empty input")`.
pub fn parse(input: &str) -> (r: Result<ParsedDiagram, Error>)
    ensures
        r is Err <==> input@.len() == 0,
        r matches Err(Error::InvalidInput(msg)) ==> msg@ == "Empty input"@,
        r matches Ok(d) ==> lines_view(d.lines@) == split_lines(input@) && d.diagram_type
            == detect_type_spec(split_lines(input@)),
{
    let v = chars_of(input);
    let mut lines: Vec<String> = Vec::new();
    let mut cur: Vec<char> = Vec::new();
    let mut i: usize = 0;
    while i < v.len()
        invariant
            i <= v@.len(),
            (lines_view(lines@), cur@) == line_state(v@.take(i as int)),
        decreases v@.len() - i,
    {
        let c = v[i];
        proof {
            assert(v@.take(i + 1).drop_last() =~= v@.take(i as int));
        }
        if c == '\n' {
            let mut k = cur.len();
            if k > 0 && cur[k - 1] == '\r' {
                k = k - 1;
            }
            let mut line: Vec<char> = Vec::new();
            let mut j: usize = 0;
            while j < k
                invariant
                    j <= k <= cur@.len(),
                    line@ == cur@.take(j as int),
                decreases k - j,
            {
                line.push(cur[j]);
                proof {
                    assert(cur@.take(j + 1) =~= cur@.take(j as int).push(cur@[j as int]));
                }
                j = j + 1;
            }
            proof {
                if k < cur@.len() {
                    assert(cur@.take(k as int) =~= cur@.drop_last());
                } else {
                    assert(cur@.take(k as int) =~= cur@);
                }
            }
            let s = string_of(&line);
            let ghost old_lines = lines@;
            lines.push(s);
            proof {
                assert(lines_view(lines@) =~= lines_view(old_lines).push(line@));
            }
            cur = Vec::new();
        } else {
            cur.push(c);
        }
        i = i + 1;
    }
    proof {
        assert(v@.take(v@.len() as int) =~= v@);
    }
    if cur.len() > 0 {
        let s = string_of(&cur);
        let ghost old_lines = lines@;
        lines.push(s);
        proof {
            assert(lines_view(lines@) =~= lines_view(old_lines).push(cur@));
        }
    }
    proof {
        lemma_split_lines_empty(input@);
    }
    if lines.len() == 0 {
        return Err(Error::InvalidInput(String::from_str("Empty input")));
    }
    let diagram_type = detect_type(&lines);
    Ok(ParsedDiagram { lines, diagram_type })
}

} // verus!
