//! Text as grids see it: the lines of a text, and a grid drawn as text.

use vstd::prelude::*;
use crate::model::GridModel;

verus! {

/// `line` without one trailing carriage return.
pub open spec fn strip_cr(line: Seq<char>) -> Seq<char> {
    if line.len() > 0 && line.last() == '\r' {
        line.drop_last()
    } else {
        line
    }
}

/// Reading `s` from the start: the lines ended by a newline so far (each without
/// its line ending), and the characters read since the last newline.
pub open spec fn split_lines(s: Seq<char>) -> (Seq<Seq<char>>, Seq<char>)
    decreases s.len(),
{
    if s.len() == 0 {
        (seq![], seq![])
    } else {
        let (done, cur) = split_lines(s.drop_last());
        if s.last() == '\n' {
            (done.push(strip_cr(cur)), seq![])
        } else {
            (done, cur.push(s.last()))
        }
    }
}

/// The lines of a text: split at each newline, a newline's preceding carriage
/// return dropped, and no empty line after a final newline.
pub open spec fn lines_of(s: Seq<char>) -> Seq<Seq<char>> {
    let (done, cur) = split_lines(s);
    if cur.len() == 0 {
        done
    } else {
        done.push(cur)
    }
}

/// `rows` holds, for each of `lines`, the cells that `convert` made of its characters.
pub open spec fn rows_made<T, F: Fn(char) -> T>(rows: Seq<Seq<T>>, lines: Seq<Seq<char>>, convert: F) -> bool {
    &&& rows.len() == lines.len()
    &&& forall|y: int|
        0 <= y < rows.len() ==> {
            &&& (#[trigger] rows[y]).len() == lines[y].len()
            &&& forall|x: int| 0 <= x < rows[y].len() ==> call_ensures(convert, (lines[y][x],), #[trigger] rows[y][x])
        }
}

/// The lines ended so far only grow as more of a text is read.
pub(crate) proof fn lemma_done_prefix(s: Seq<char>, i: int, j: int)
    requires
        0 <= i <= j <= s.len(),
    ensures
        split_lines(s.take(i)).0.len() <= split_lines(s.take(j)).0.len(),
        forall|k: int|
            0 <= k < split_lines(s.take(i)).0.len() ==> #[trigger] split_lines(s.take(i)).0[k] == split_lines(s.take(j)).0[k],
    decreases j - i,
{
    if i < j {
        lemma_done_prefix(s, i, j - 1);
        assert(s.take(j).drop_last() =~= s.take(j - 1));
    }
}

/// Where character `i` of `s` is a newline, the line it ends, without a
/// preceding carriage return, is the next line of `s`.
pub(crate) proof fn lemma_line_prefix(s: Seq<char>, i: int)
    requires
        0 <= i < s.len(),
        s[i] == '\n',
    ensures
        split_lines(s.take(i)).0.len() < lines_of(s).len(),
        lines_of(s)[split_lines(s.take(i)).0.len() as int] == strip_cr(split_lines(s.take(i)).1),
{
    assert(s.take(i + 1).drop_last() =~= s.take(i));
    lemma_done_prefix(s, i + 1, s.len() as int);
    assert(s.take(s.len() as int) =~= s);
    let k = split_lines(s.take(i)).0.len() as int;
    assert(split_lines(s.take(i + 1)).0[k] == strip_cr(split_lines(s.take(i)).1));
}

/// Where `s` does not end in a newline, its last line is what follows the last newline.
pub(crate) proof fn lemma_last_line(s: Seq<char>)
    requires
        split_lines(s).1.len() > 0,
    ensures
        lines_of(s) == split_lines(s).0.push(split_lines(s).1),
{
}

/// The characters of `text`, in order.
pub(crate) fn chars_of(text: &str) -> (r: Vec<char>)
    ensures
        r@ == text@,
{
    let mut r: Vec<char> = Vec::new();
    for c in it: text.chars()
        invariant
            r@ == it.seq().take(it.index() as int),
    {
        r.push(c);
    }
    r
}

/// The cells that `convert` makes of `line`, in order.
pub(crate) fn convert_chars<T, F: Fn(char) -> T>(line: &Vec<char>, convert: &F) -> (r: Vec<T>)
    requires
        forall|c: char| call_requires(*convert, (c,)),
    ensures
        r@.len() == line@.len(),
        forall|x: int| 0 <= x < r@.len() ==> call_ensures(*convert, (line@[x],), #[trigger] r@[x]),
{
    let mut r: Vec<T> = Vec::new();
    let mut i: usize = 0;
    while i < line.len()
        invariant
            i <= line@.len(),
            r@.len() == i,
            forall|c: char| call_requires(*convert, (c,)),
            forall|x: int| 0 <= x < i ==> call_ensures(*convert, (line@[x],), #[trigger] r@[x]),
        decreases line@.len() - i,
    {
        r.push(convert(line[i]));
        i = i + 1;
    }
    r
}

/// The lines of `rows` joined into one text, each followed by a newline.
pub open spec fn joined(rows: Seq<Seq<char>>) -> Seq<char>
    decreases rows.len(),
{
    if rows.len() == 0 {
        seq![]
    } else {
        joined(rows.drop_last()) + rows.last().push('\n')
    }
}

/// `rows` draws `m`, top row first, each row from the left: the character at
/// `rows[y][x]` is one that `glyph` may give for the value at `(x, y)`.
pub open spec fn drawn<T, F: Fn(&T) -> char>(m: GridModel<T>, glyph: F, rows: Seq<Seq<char>>) -> bool {
    &&& rows.len() == m.height
    &&& forall|y: int| 0 <= y < m.height ==> (#[trigger] rows[y]).len() == m.width
    &&& forall|x: int, y: int| m.in_bounds(x, y) ==> call_ensures(glyph, (&m.cell(x, y),), #[trigger] rows[y][x])
}

/// Relies on `String::push`: it appends one character.
#[verifier::external_body]
pub(crate) fn push_char(s: &mut String, c: char)
    ensures
        final(s)@ == old(s)@.push(c),
{
    s.push(c)
}

} // verus!
