//! Splitting a document into lines, and a reader that hands the lines out
//! one at a time.

use vstd::prelude::*;
use crate::text::{chars_of, find_chars, find_from, lemma_find_from, occurs_at};

verus! {

/// `l` without one trailing carriage return.
pub open spec fn strip_cr(l: Seq<char>) -> Seq<char> {
    if l.len() > 0 && l.last() == '\r' {
        l.drop_last()
    } else {
        l
    }
}

/// The lines of `s` from position `pos` on: each line ends before a `\n`, or
/// before a `\r\n`, or at the end of `s`; an empty rest holds no line.
pub open spec fn lines_from(s: Seq<char>, pos: int) -> Seq<Seq<char>>
    decreases s.len() - pos,
{
    if pos < 0 || pos >= s.len() {
        Seq::empty()
    } else {
        match find_from(s, seq!['\n'], pos) {
            Some(k) => {
                proof { lemma_find_from(s, seq!['\n'], pos); }
                seq![strip_cr(s.subrange(pos, k))] + lines_from(s, k + 1)
            },
            None => seq![s.subrange(pos, s.len() as int)],
        }
    }
}

/// The lines of `s`, as `str::lines` gives them.
pub open spec fn lines(s: Seq<char>) -> Seq<Seq<char>> {
    lines_from(s, 0)
}

/// The character sequences of a sequence of string slices.
pub open spec fn str_views(v: Seq<&str>) -> Seq<Seq<char>> {
    v.map_values(|l: &str| l@)
}

/// The lines of a document, and the position of the next line to read.
pub struct LineReader<'a> {
    lines: Vec<&'a str>,
    pos: usize,
}

impl<'a> View for LineReader<'a> {
    /// All lines of the document, and the position of the next one.
    type V = (Seq<Seq<char>>, int);

    closed spec fn view(&self) -> (Seq<Seq<char>>, int) {
        (str_views(self.lines@), self.pos as int)
    }
}

impl<'a> LineReader<'a> {
    /// The position of the next line lies within the document.
    pub closed spec fn wf(&self) -> bool {
        self.pos <= self.lines@.len() <= usize::MAX
    }

    /// A reader at the first line of `input`.
    pub fn new(input: &'a str) -> (r: Self)
        ensures
            r.wf(),
            r@.0 == lines(input@),
            r@.1 == 0,
    {
        let chars = chars_of(input);
        let n = chars.len();
        let ghost s = input@;
        let newline = vec!['\n'];
        assert(newline@ =~= seq!['\n']);
        let mut out: Vec<&'a str> = Vec::new();
        let mut pos: usize = 0;
        while pos < n
            invariant
                chars@ == s,
                s == input@,
                n == s.len(),
                pos <= n,
                newline@ == seq!['\n'],
                str_views(out@) + lines_from(s, pos as int) == lines(s),
            decreases n - pos,
        {
            let ghost before = str_views(out@);
            let found = find_chars(&chars, &newline, pos);
            proof { lemma_find_from(s, seq!['\n'], pos as int); }
            match found {
                Some(k) => {
                    let end = if k > pos && chars[k - 1] == '\r' { k - 1 } else { k };
                    if k > pos {
                        assert(s.subrange(pos as int, k as int).drop_last() =~= s.subrange(
                            pos as int,
                            k - 1,
                        ));
                    }
                    let line = input.substring_char(pos, end);
                    out.push(line);
                    assert(str_views(out@) =~= before.push(line@));
                    pos = k + 1;
                },
                None => {
                    let line = input.substring_char(pos, n);
                    out.push(line);
                    assert(str_views(out@) =~= before.push(line@));
                    pos = n;
                },
            }
        }
        assert(str_views(out@) =~= lines(s));
        assert(out.len() == out@.len());  // the number of lines fits in usize
        LineReader { lines: out, pos: 0 }
    }

    /// The next line, if any, without moving past it.
    pub fn peek_line(&self) -> (r: Option<&'a str>)
        requires
            self.wf(),
        ensures
            self@.1 < self@.0.len() ==> r is Some && r->0@ == self@.0[self@.1],
            self@.1 >= self@.0.len() ==> r is None,
    {
        if self.pos < self.lines.len() {
            Some(self.lines[self.pos])
        } else {
            None
        }
    }

    /// The next line, if any, moving past it.
    pub fn next_line(&mut self) -> (r: Option<&'a str>)
        requires
            old(self).wf(),
        ensures
            final(self).wf(),
            final(self)@.0 == old(self)@.0,
            old(self)@.1 < old(self)@.0.len() ==> r is Some && r->0@ == old(self)@.0[old(self)@.1]
                && final(self)@.1 == old(self)@.1 + 1,
            old(self)@.1 >= old(self)@.0.len() ==> r is None && final(self)@.1 == old(self)@.1,
    {
        if self.pos < self.lines.len() {
            let line = self.lines[self.pos];
            self.pos = self.pos + 1;
            Some(line)
        } else {
            None
        }
    }

    /// The line `n` places after the next one, if any, without moving.
    pub fn peek_nth(&self, n: usize) -> (r: Option<&'a str>)
        requires
            self.wf(),
        ensures
            self@.1 + n < self@.0.len() ==> r is Some && r->0@ == self@.0[self@.1 + n],
            self@.1 + n >= self@.0.len() ==> r is None,
    {
        if n < self.lines.len() - self.pos {
            Some(self.lines[self.pos + n])
        } else {
            None
        }
    }

    /// The view keeps the position within the document.
    pub proof fn lemma_wf(&self)
        requires
            self.wf(),
        ensures
            0 <= self@.1 <= self@.0.len(),
            self@.0.len() <= usize::MAX,
    {
    }
}

proof fn lemma_find_newline_extended(s: Seq<char>, pos: int)
    requires
        0 <= pos <= s.len(),
    ensures
        find_from(s.push('\n'), seq!['\n'], pos) == match find_from(s, seq!['\n'], pos) {
            Some(k) => Some(k),
            None => Some(s.len() as int),
        },
    decreases s.len() - pos,
{
    let t = s.push('\n');
    let p = seq!['\n'];
    if pos < s.len() {
        assert(t.subrange(pos, pos + 1) =~= s.subrange(pos, pos + 1));
        if !occurs_at(s, p, pos) {
            lemma_find_newline_extended(s, pos + 1);
        }
    } else {
        assert(t.subrange(pos, pos + 1) =~= p);
    }
}

proof fn lemma_lines_from_extended(s: Seq<char>, pos: int)
    requires
        0 <= pos < s.len(),
        s.len() > 0,
        s.last() != '\n',
        s.last() != '\r',
    ensures
        lines_from(s.push('\n'), pos) == lines_from(s, pos),
    decreases s.len() - pos,
{
    let t = s.push('\n');
    let p = seq!['\n'];
    lemma_find_newline_extended(s, pos);
    lemma_find_from(s, p, pos);
    match find_from(s, p, pos) {
            Some(k) => {
                assert(t.subrange(pos, k) =~= s.subrange(pos, k));
                assert(s.subrange(k, k + 1)[0] == s[k]);
                assert(k + 1 < s.len());
                lemma_lines_from_extended(s, k + 1);
            },
            None => {
                let line = t.subrange(pos, s.len() as int);
                assert(line =~= s.subrange(pos, s.len() as int));
                assert(line.last() == s.last());
                assert(lines_from(t, (s.len() + 1) as int) =~= Seq::<Seq<char>>::empty());
                assert(lines_from(t, pos) =~= seq![strip_cr(line)]);
            },
    }
}

/// A final line ending adds no line: `s` and `s` followed by `\n` have the same
/// lines, where `s` does not already end a line.
pub proof fn lemma_lines_final_newline(s: Seq<char>)
    requires
        s.len() > 0,
        s.last() != '\n',
        s.last() != '\r',
    ensures
        lines(s.push('\n')) == lines(s),
{
    lemma_lines_from_extended(s, 0);
}


/// The lines of `s` from `k + j` on are the lines of the part of `s` from `k`
/// on, from `j` on.
pub proof fn lemma_lines_from_shift(s: Seq<char>, k: int, j: int)
    requires
        0 <= k <= s.len(),
        0 <= j,
    ensures
        lines_from(s, k + j) == lines_from(s.subrange(k, s.len() as int), j),
    decreases s.len() - (k + j),
{
    let t = s.subrange(k, s.len() as int);
    if k + j < s.len() {
        crate::text::lemma_find_from_shift(s, seq!['\n'], k, j);
        lemma_find_from(t, seq!['\n'], j);
        match find_from(t, seq!['\n'], j) {
            Some(x) => {
                assert(s.subrange(k + j, x + k) =~= t.subrange(j, x));
                lemma_lines_from_shift(s, k, x + 1);
            },
            None => {
                assert(s.subrange(k + j, s.len() as int) =~= t.subrange(j, t.len() as int));
            },
        }
    }
}

} // verus!
