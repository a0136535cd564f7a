use vstd::prelude::*;

use crate::text::{chars_of, find_sub, find_sub_spec, lemma_find_sub_spec, slice_of, string_of, trim, trim_spec};

verus! {

/// Each line as its sequence of characters.
pub open spec fn lines_text(lines: Seq<String>) -> Seq<Seq<char>> {
    lines.map_values(|l: String| l@)
}

/// A position in a sequence of text lines: the lines that a block reader
/// takes its input from, one after the other.
pub struct LineCursor {
    pub lines: Vec<String>,
    /// The index of the next line to be read; at or past the end, no line
    /// is left.
    pub pos: usize,
}

impl LineCursor {
    /// The lines, each as its sequence of characters.
    pub open spec fn text(&self) -> Seq<Seq<char>> {
        lines_text(self.lines@)
    }

    /// A cursor at the first of `lines`.
    pub fn new(lines: Vec<String>) -> (c: LineCursor)
        ensures
            c.lines == lines,
            c.pos == 0,
    {
        LineCursor { lines, pos: 0 }
    }

    /// The next line, if one is left, after which the cursor stands past it.
    pub fn next_line(&mut self) -> (r: Option<Vec<char>>)
        ensures
            final(self).lines == old(self).lines,
            old(self).pos < old(self).lines.len() ==> (r matches Some(l) && l@ == old(
                self,
            ).text()[old(self).pos as int] && final(self).pos == old(self).pos + 1),
            old(self).pos >= old(self).lines.len() ==> (r is None && final(self).pos == old(
                self,
            ).pos),
    {
        if self.pos < self.lines.len() {
            let l = chars_of(self.lines[self.pos].as_str());
            self.pos = self.pos + 1;
            Some(l)
        } else {
            None
        }
    }
}

/// Why a block could not be read.
#[derive(Debug, Clone, Copy, PartialEq, Eq, Structural)]
pub enum BlockError {
    /// The input ended before the brace that closes the block.
    UnterminatedBlock,
}

/// The state of the brace-block scanner: the block text collected so far,
/// how many inner braces are open, which kind of quote (if any) the text is
/// inside, whether the previous character was a backslash, and whether the
/// closing brace has been met.
pub struct ScanModel {
    pub out: Seq<char>,
    pub open: nat,
    pub in_single: bool,
    pub in_double: bool,
    pub in_backtick: bool,
    pub escape: bool,
    pub done: bool,
}

/// The scanner before the first character after the opening brace.
pub open spec fn scan_init() -> ScanModel {
    ScanModel {
        out: Seq::empty(),
        open: 0,
        in_single: false,
        in_double: false,
        in_backtick: false,
        escape: false,
        done: false,
    }
}

/// Inside a quoted string of any of the three kinds.
pub open spec fn quoted(m: ScanModel) -> bool {
    m.in_single || m.in_double || m.in_backtick
}

/// One character of input. A character after a backslash is taken as it is;
/// a quote toggles its kind of string unless another kind is open; braces
/// outside strings count nesting, and a closing brace at nesting zero ends the
/// block without being kept. Every other character is kept.
pub open spec fn scan_step(m: ScanModel, c: char) -> ScanModel {
    let kept = m.out.push(c);
    if m.escape {
        ScanModel { out: kept, escape: false, ..m }
    } else if c == '\\' {
        ScanModel { out: kept, escape: true, ..m }
    } else if c == '\'' {
        ScanModel {
            out: kept,
            in_single: if !m.in_double && !m.in_backtick {
                !m.in_single
            } else {
                m.in_single
            },
            ..m
        }
    } else if c == '"' {
        ScanModel {
            out: kept,
            in_double: if !m.in_single && !m.in_backtick {
                !m.in_double
            } else {
                m.in_double
            },
            ..m
        }
    } else if c == '`' {
        ScanModel {
            out: kept,
            in_backtick: if !m.in_single && !m.in_double {
                !m.in_backtick
            } else {
                m.in_backtick
            },
            ..m
        }
    } else if c == '{' && !quoted(m) {
        ScanModel { out: kept, open: m.open + 1, ..m }
    } else if c == '}' && !quoted(m) {
        if m.open == 0 {
            ScanModel { done: true, ..m }
        } else {
            ScanModel { out: kept, open: (m.open - 1) as nat, ..m }
        }
    } else {
        ScanModel { out: kept, ..m }
    }
}

/// The characters of `s` fed one after the other; nothing changes once the
/// block is closed.
pub open spec fn scan_chars(m: ScanModel, s: Seq<char>) -> ScanModel
    decreases s.len(),
{
    if s.len() == 0 {
        m
    } else {
        let p = scan_chars(m, s.drop_last());
        if p.done {
            p
        } else {
            scan_step(p, s.last())
        }
    }
}

/// A whole line: its characters, then a line break unless the line closed
/// the block.
pub open spec fn scan_line(m: ScanModel, s: Seq<char>) -> ScanModel {
    let p = scan_chars(m, s);
    if p.done {
        p
    } else {
        ScanModel { out: p.out.push('\n'), ..p }
    }
}

/// The lines from index `i` on, until the block closes or the lines run out;
/// with the state reached and the index of the first line not read.
pub open spec fn scan_lines(m: ScanModel, ls: Seq<Seq<char>>, i: nat) -> (ScanModel, nat)
    decreases ls.len() - i,
{
    if m.done || i >= ls.len() {
        (m, i)
    } else {
        scan_lines(scan_line(m, ls[i as int]), ls, i + 1)
    }
}

/// A brace block that starts with `first` (the rest of the line after the
/// opening brace; when empty it is skipped, no line break stands for it) and
/// goes on with the lines from index `pos`: the block's text, or `Err` when
/// the lines end before it closes; with the index of the first line not read.
pub open spec fn block_spec(ls: Seq<Seq<char>>, pos: nat, first: Seq<char>) -> (
    Result<Seq<char>, ()>,
    nat,
) {
    let m1 = if first.len() == 0 {
        scan_init()
    } else {
        scan_line(scan_init(), first)
    };
    let (m2, j) = scan_lines(m1, ls, pos);
    if m2.done {
        (Ok(m2.out), j)
    } else {
        (Err(()), j)
    }
}

/// The block scanner never moves backwards, nor past the last line.
pub proof fn lemma_scan_lines_bounds(m: ScanModel, ls: Seq<Seq<char>>, i: nat)
    ensures
        scan_lines(m, ls, i).1 >= i,
        i <= ls.len() ==> scan_lines(m, ls, i).1 <= ls.len(),
    decreases ls.len() - i,
{
    if !(m.done || i >= ls.len()) {
        lemma_scan_lines_bounds(scan_line(m, ls[i as int]), ls, i + 1);
    }
}

/// The executable scanner; `model` gives its state as a `ScanModel`.
struct BraceScanner {
    out: Vec<char>,
    open: usize,
    in_single: bool,
    in_double: bool,
    in_backtick: bool,
    escape: bool,
    done: bool,
}

impl BraceScanner {
    spec fn model(&self) -> ScanModel {
        ScanModel {
            out: self.out@,
            open: self.open as nat,
            in_single: self.in_single,
            in_double: self.in_double,
            in_backtick: self.in_backtick,
            escape: self.escape,
            done: self.done,
        }
    }

    /// The nesting count never exceeds the text kept, so it cannot overflow.
    spec fn wf(&self) -> bool {
        self.open <= self.out.len()
    }

    fn new() -> (s: BraceScanner)
        ensures
            s.model() == scan_init(),
            s.wf(),
    {
        BraceScanner {
            out: Vec::new(),
            open: 0,
            in_single: false,
            in_double: false,
            in_backtick: false,
            escape: false,
            done: false,
        }
    }

    fn feed_char(&mut self, c: char)
        requires
            old(self).wf(),
        ensures
            final(self).wf(),
            final(self).model() == (if old(self).model().done {
                old(self).model()
            } else {
                scan_step(old(self).model(), c)
            }),
    {
        if self.done {
            return;
        }
        let quoted = self.in_single || self.in_double || self.in_backtick;
        if self.escape {
            self.out.push(c);
            self.escape = false;
        } else if c == '\\' {
            self.out.push(c);
            self.escape = true;
        } else if c == '\'' {
            self.out.push(c);
            if !self.in_double && !self.in_backtick {
                self.in_single = !self.in_single;
            }
        } else if c == '"' {
            self.out.push(c);
            if !self.in_single && !self.in_backtick {
                self.in_double = !self.in_double;
            }
        } else if c == '`' {
            self.out.push(c);
            if !self.in_single && !self.in_double {
                self.in_backtick = !self.in_backtick;
            }
        } else if c == '{' && !quoted {
            self.out.push(c);
            proof {
                // the text kept fits in memory, and the count never exceeds it
                assert(self.out@.len() == self.out.len());
            }
            self.open = self.open + 1;
        } else if c == '}' && !quoted {
            if self.open == 0 {
                self.done = true;
            } else {
                self.out.push(c);
                self.open = self.open - 1;
            }
        } else {
            self.out.push(c);
        }
    }

    fn feed_line(&mut self, line: &Vec<char>)
        requires
            old(self).wf(),
        ensures
            final(self).wf(),
            final(self).model() == scan_line(old(self).model(), line@),
    {
        let ghost m0 = self.model();
        let mut i: usize = 0;
        assert(line@.take(0) =~= Seq::<char>::empty());
        while i < line.len()
            invariant
                i <= line.len(),
                self.wf(),
                self.model() == scan_chars(m0, line@.take(i as int)),
            decreases line.len() - i,
        {
            assert(line@.take(i + 1).drop_last() =~= line@.take(i as int));
            self.feed_char(line[i]);
            i += 1;
        }
        assert(line@.take(line.len() as int) =~= line@);
        if !self.done {
            self.out.push('\n');
        }
    }
}

/// Reads a brace-delimited block whose opening brace has been seen:
/// `first_after_open` is what followed that brace on its line, and the block
/// goes on with the cursor's lines. Braces inside single, double or back
/// quotes, and characters after a backslash, do not count. The text up to the
/// matching closing brace is returned without that brace, each line that was
/// read in full ending in a line break; the cursor stands after the line that
/// held the closing brace. When the lines end first, the result is
/// `UnterminatedBlock` and no line is left.
pub fn read_brace_block(lines: &mut LineCursor, first_after_open: &str) -> (res: Result<
    String,
    BlockError,
>)
    ensures
        final(lines).lines == old(lines).lines,
        final(lines).pos == block_spec(old(lines).text(), old(lines).pos as nat, first_after_open@).1,
        res matches Ok(b) ==> block_spec(old(lines).text(), old(lines).pos as nat, first_after_open@).0
            == Ok::<Seq<char>, ()>(b@),
        res matches Err(e) ==> e == BlockError::UnterminatedBlock && block_spec(
            old(lines).text(),
            old(lines).pos as nat,
            first_after_open@,
        ).0 is Err,
{
    let ghost ls = old(lines).text();
    let ghost pos0 = old(lines).pos as nat;
    let mut sc = BraceScanner::new();
    let first = chars_of(first_after_open);
    if first.len() > 0 {
        sc.feed_line(&first);
    }
    let ghost m1 = sc.model();
    loop
        invariant
            sc.wf(),
            lines.lines == old(lines).lines,
            ls == lines.text(),
            scan_lines(sc.model(), ls, lines.pos as nat) == scan_lines(m1, ls, pos0),
            m1 == (if first@.len() == 0 {
                scan_init()
            } else {
                scan_line(scan_init(), first_after_open@)
            }),
        ensures
            sc.wf(),
            lines.lines == old(lines).lines,
            scan_lines(sc.model(), ls, lines.pos as nat) == scan_lines(m1, ls, pos0),
            sc.done || lines.pos >= lines.lines.len(),
        decreases lines.lines.len() - lines.pos + (if sc.done { 0int } else { 1int }),
    {
        if sc.done {
            break;
        }
        match lines.next_line() {
            Some(line) => {
                sc.feed_line(&line);
            },
            None => {
                break;
            },
        }
    }
    if sc.done {
        Ok(string_of(&sc.out))
    } else {
        Err(BlockError::UnterminatedBlock)
    }
}


/// The lines from index `i` on, appended to `acc` each with a line break,
/// up to the first line that holds `marker`. Of that line only the text
/// before the marker is kept, with a line break, and only when it is not all
/// white space. With the index of the first line not read.
pub open spec fn parse_lines(ls: Seq<Seq<char>>, i: nat, marker: Seq<char>, acc: Seq<char>) -> (
    Seq<char>,
    nat,
)
    decreases ls.len() - i,
{
    if i >= ls.len() {
        (acc, i)
    } else {
        let l = ls[i as int];
        match find_sub_spec(l, marker) {
            Some(k) => {
                let before = l.take(k);
                (
                    if trim_spec(before).len() > 0 {
                        acc + before.push('\n')
                    } else {
                        acc
                    },
                    i + 1,
                )
            },
            None => parse_lines(ls, i + 1, marker, acc + l.push('\n')),
        }
    }
}

/// Appends the characters of `s` to `out`.
fn push_all(out: &mut Vec<char>, s: &Vec<char>)
    ensures
        final(out)@ == old(out)@ + s@,
{
    let mut i: usize = 0;
    while i < s.len()
        invariant
            i <= s.len(),
            out@ == old(out)@ + s@.take(i as int),
        decreases s.len() - i,
    {
        out.push(s[i]);
        assert(s@.take(i + 1) =~= s@.take(i as int).push(s@[i as int]));
        i += 1;
    }
    assert(s@.take(s.len() as int) =~= s@);
}

/// Reads lines up to the first that holds `closing_marker`: the lines before
/// it, each with a line break, then the text before the marker on its line
/// (with a line break) unless that text is blank. The cursor stands after the
/// marker's line, or at the end when no line holds the marker.
pub fn parse_block(lines: &mut LineCursor, closing_marker: &str) -> (res: String)
    ensures
        final(lines).lines == old(lines).lines,
        (res@, final(lines).pos as nat) == parse_lines(
            old(lines).text(),
            old(lines).pos as nat,
            closing_marker@,
            Seq::empty(),
        ),
{
    let ghost ls = old(lines).text();
    let marker = chars_of(closing_marker);
    let mut out: Vec<char> = Vec::new();
    loop
        invariant
            lines.lines == old(lines).lines,
            ls == lines.text(),
            marker@ == closing_marker@,
            parse_lines(ls, lines.pos as nat, marker@, out@) == parse_lines(
                ls,
                old(lines).pos as nat,
                marker@,
                Seq::empty(),
            ),
        decreases lines.lines.len() - lines.pos,
    {
        match lines.next_line() {
            Some(line) => {
                match find_sub(&line, &marker) {
                    Some(k) => {
                        proof {
                            lemma_find_sub_spec(line@, marker@);
                        }
                        let before = slice_of(&line, 0, k);
                        assert(before@ =~= line@.take(k as int));
                        let t = trim(&before);
                        if t.len() > 0 {
                            push_all(&mut out, &before);
                            out.push('\n');
                        }
                        return string_of(&out);
                    },
                    None => {
                        push_all(&mut out, &line);
                        out.push('\n');
                    },
                }
            },
            None => {
                return string_of(&out);
            },
        }
    }
}

} // verus!
