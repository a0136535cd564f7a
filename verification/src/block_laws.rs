use vstd::prelude::*;

use crate::block::{block_spec, lemma_scan_lines_bounds, quoted, scan_chars, scan_init, scan_line, scan_lines, scan_step, ScanModel};
use crate::block::parse_lines;
use crate::text::{find_sub_spec, has_prefix, trim_spec};

verus! {

/// The lines `ls[i..j]`, each followed by a line break, one after the other.
pub open spec fn line_stream(ls: Seq<Seq<char>>, i: nat, j: nat) -> Seq<char>
    decreases j - i,
{
    if i >= j || i >= ls.len() {
        Seq::empty()
    } else {
        ls[i as int].push('\n') + line_stream(ls, i + 1, j)
    }
}

/// The text a block reader goes through when it starts with `first` and then
/// reads the lines `ls[pos..j]`.
pub open spec fn block_stream(ls: Seq<Seq<char>>, pos: nat, first: Seq<char>, j: nat) -> Seq<char> {
    (if first.len() == 0 {
        Seq::empty()
    } else {
        first.push('\n')
    }) + line_stream(ls, pos, j)
}

/// One step keeps the character, or closes the block on a `}` and keeps
/// nothing.
proof fn lemma_step_keeps(m: ScanModel, c: char)
    ensures
        scan_step(m, c).done ==> !m.done ==> c == '}' && scan_step(m, c).out == m.out,
        !scan_step(m, c).done ==> scan_step(m, c).out == m.out.push(c),
        m.done ==> scan_step(m, c).done,
{
}

proof fn lemma_chars_keep(m: ScanModel, s: Seq<char>)
    requires
        !m.done,
    ensures
        !scan_chars(m, s).done ==> scan_chars(m, s).out == m.out + s,
        scan_chars(m, s).done ==> exists|k: int|
            0 <= k < s.len() && scan_chars(m, s).out.push('}') == m.out + #[trigger] s.take(k + 1),
    decreases s.len(),
{
    if s.len() > 0 {
        let p = scan_chars(m, s.drop_last());
        lemma_chars_keep(m, s.drop_last());
        lemma_step_keeps(p, s.last());
        if p.done {
            let k = choose|k: int|
                0 <= k < s.drop_last().len() && p.out.push('}') == m.out + #[trigger] s.drop_last().take(k + 1);
            assert(s.drop_last().take(k + 1) =~= s.take(k + 1));
        } else {
            assert(p.out == m.out + s.drop_last());
            if scan_step(p, s.last()).done {
                let k = s.len() - 1;
                assert(s.take(k + 1) =~= s.drop_last().push('}'));
                assert(scan_chars(m, s).out.push('}') =~= m.out + s.take(k + 1));
            } else {
                assert(m.out + s.drop_last().push(s.last()) =~= m.out + s);
            }
        }
    } else {
        assert(m.out + s =~= m.out);
    }
}

proof fn lemma_line_keeps(m: ScanModel, s: Seq<char>)
    requires
        !m.done,
    ensures
        !scan_line(m, s).done ==> scan_line(m, s).out == m.out + s.push('\n'),
        scan_line(m, s).done ==> has_prefix(m.out + s.push('\n'), scan_line(m, s).out.push('}')),
{
    lemma_chars_keep(m, s);
    let p = scan_chars(m, s);
    if p.done {
        let k = choose|k: int| 0 <= k < s.len() && p.out.push('}') == m.out + #[trigger] s.take(k + 1);
        let whole = m.out + s.push('\n');
        assert(whole.subrange(0, p.out.push('}').len() as int) =~= m.out + s.take(k + 1));
    } else {
        assert(p.out.push('\n') =~= m.out + s.push('\n'));
    }
}

proof fn lemma_prefix_extend(a: Seq<char>, b: Seq<char>, c: Seq<char>)
    requires
        has_prefix(a, b),
    ensures
        has_prefix(a + c, b),
{
    assert((a + c).subrange(0, b.len() as int) =~= a.subrange(0, b.len() as int));
}

#[verifier::rlimit(30)]
proof fn lemma_lines_keep(m: ScanModel, ls: Seq<Seq<char>>, i: nat)
    requires
        !m.done,
    ensures
        !scan_lines(m, ls, i).0.done ==> scan_lines(m, ls, i).0.out == m.out + line_stream(
            ls,
            i,
            scan_lines(m, ls, i).1,
        ) && scan_lines(m, ls, i).1 >= ls.len(),
        scan_lines(m, ls, i).0.done ==> has_prefix(
            m.out + line_stream(ls, i, scan_lines(m, ls, i).1),
            scan_lines(m, ls, i).0.out.push('}'),
        ),
    decreases ls.len() - i,
{
    let (r, j) = scan_lines(m, ls, i);
    if i >= ls.len() {
        assert(r == m && j == i);
        assert(line_stream(ls, i, i) =~= Seq::<char>::empty());
        assert(m.out + line_stream(ls, i, i) =~= m.out);
    } else {
        let l = ls[i as int];
        let m2 = scan_line(m, l);
        assert(scan_lines(m, ls, i) == scan_lines(m2, ls, i + 1));
        lemma_line_keeps(m, l);
        lemma_scan_lines_bounds(m2, ls, i + 1);
        if m2.done {
            assert(j == i + 1 && r == m2);
            assert(line_stream(ls, i + 1, i + 1) =~= Seq::<char>::empty());
            assert(line_stream(ls, i, i + 1) =~= l.push('\n'));
            assert(m.out + line_stream(ls, i, j) =~= m.out + l.push('\n'));
        } else {
            lemma_lines_keep(m2, ls, i + 1);
            assert(j >= i + 1);
            assert(line_stream(ls, i, j) == l.push('\n') + line_stream(ls, i + 1, j));
            assert(m2.out == m.out + l.push('\n'));
            assert(m2.out + line_stream(ls, i + 1, j) =~= m.out + line_stream(ls, i, j));
        }
    }
}

/// A block is read verbatim: the text returned, followed by the closing
/// brace, is exactly how the input it went through begins.
pub proof fn law_block_is_verbatim(ls: Seq<Seq<char>>, pos: nat, first: Seq<char>)
    ensures
        block_spec(ls, pos, first).0 matches Ok(b) ==> has_prefix(
            block_stream(ls, pos, first, block_spec(ls, pos, first).1),
            b.push('}'),
        ),
{
    let m0 = scan_init();
    let m1 = if first.len() == 0 {
        m0
    } else {
        scan_line(m0, first)
    };
    let head = if first.len() == 0 {
        Seq::<char>::empty()
    } else {
        first.push('\n')
    };
    if first.len() > 0 {
        lemma_line_keeps(m0, first);
    }
    let (m2, j) = scan_lines(m1, ls, pos);
    if m1.done {
        assert(j == pos);
        assert(line_stream(ls, pos, pos) =~= Seq::<char>::empty());
        assert(m0.out + first.push('\n') =~= head);
        assert(block_stream(ls, pos, first, j) =~= head);
    } else {
        assert(m1.out =~= head);
        lemma_lines_keep(m1, ls, pos);
    }
}

/// A block that is not closed takes every line that was left.
pub proof fn law_unterminated_block_takes_all(ls: Seq<Seq<char>>, pos: nat, first: Seq<char>)
    ensures
        block_spec(ls, pos, first).0 is Err ==> block_spec(ls, pos, first).1 >= ls.len(),
{
    let m1 = if first.len() == 0 {
        scan_init()
    } else {
        scan_line(scan_init(), first)
    };
    if !m1.done {
        lemma_lines_keep(m1, ls, pos);
    }
}


/// A character that neither opens a string nor escapes: every character but
/// the three quotes and the backslash.
pub open spec fn is_plain(c: char) -> bool {
    c != '\'' && c != '"' && c != '`' && c != '\\'
}

/// Every character of `s` is plain.
pub open spec fn all_plain(s: Seq<char>) -> bool {
    forall|i: int| 0 <= i < s.len() ==> is_plain(#[trigger] s[i])
}

/// The number of `{` in `s` less the number of `}`.
pub open spec fn depth(s: Seq<char>) -> int
    decreases s.len(),
{
    if s.len() == 0 {
        0
    } else {
        depth(s.drop_last()) + if s.last() == '{' {
            1int
        } else if s.last() == '}' {
            -1int
        } else {
            0int
        }
    }
}

/// `s` has as many `{` as `}`, and no beginning of it has more `}` than `{`.
pub open spec fn balanced(s: Seq<char>) -> bool {
    &&& depth(s) == 0
    &&& forall|k: int| 0 <= k <= s.len() ==> depth(#[trigger] s.take(k)) >= 0
}

/// No beginning of `s` has more `}` than `{`.
pub open spec fn never_below_zero(s: Seq<char>) -> bool {
    forall|k: int| 0 <= k <= s.len() ==> depth(#[trigger] s.take(k)) >= 0
}

/// What holds of the scanner on plain text: outside any string, no escape
/// pending, the nesting count equal to the text's brace depth; and, once the
/// block is closed, the text balanced.
spec fn plain_inv(m: ScanModel) -> bool {
    if m.done {
        balanced(m.out)
    } else {
        &&& !quoted(m)
        &&& !m.escape
        &&& m.open == depth(m.out)
        &&& never_below_zero(m.out)
    }
}

proof fn lemma_push_depth(out: Seq<char>, c: char)
    ensures
        depth(out.push(c)) == depth(out) + if c == '{' {
            1int
        } else if c == '}' {
            -1int
        } else {
            0int
        },
        forall|k: int| 0 <= k <= out.len() ==> #[trigger] out.push(c).take(k) == out.take(k),
{
    assert(out.push(c).drop_last() =~= out);
    assert forall|k: int| 0 <= k <= out.len() implies #[trigger] out.push(c).take(k) == out.take(k) by {
        assert(out.push(c).take(k) =~= out.take(k));
    }
}

proof fn lemma_push_keeps_nonneg(out: Seq<char>, c: char)
    requires
        never_below_zero(out),
        depth(out.push(c)) >= 0,
    ensures
        never_below_zero(out.push(c)),
{
    lemma_push_depth(out, c);
    assert forall|k: int| 0 <= k <= out.push(c).len() implies depth(#[trigger] out.push(c).take(k)) >= 0 by {
        if k <= out.len() {
            assert(out.push(c).take(k) == out.take(k));
        } else {
            assert(out.push(c).take(k) =~= out.push(c));
        }
    }
}

proof fn lemma_step_plain(m: ScanModel, c: char)
    requires
        !m.done,
        plain_inv(m),
        is_plain(c),
    ensures
        plain_inv(scan_step(m, c)),
{
    lemma_push_depth(m.out, c);
    let r = scan_step(m, c);
    if r.done {
        assert(m.out.take(m.out.len() as int) =~= m.out);
    } else {
        lemma_push_keeps_nonneg(m.out, c);
    }
}

proof fn lemma_chars_plain(m: ScanModel, s: Seq<char>)
    requires
        plain_inv(m),
        all_plain(s),
    ensures
        plain_inv(scan_chars(m, s)),
    decreases s.len(),
{
    if s.len() > 0 {
        assert(all_plain(s.drop_last()));
        lemma_chars_plain(m, s.drop_last());
        let p = scan_chars(m, s.drop_last());
        if !p.done {
            assert(is_plain(s[s.len() - 1]));
            lemma_step_plain(p, s.last());
        }
    }
}

proof fn lemma_line_plain(m: ScanModel, s: Seq<char>)
    requires
        plain_inv(m),
        all_plain(s),
    ensures
        plain_inv(scan_line(m, s)),
{
    lemma_chars_plain(m, s);
    let p = scan_chars(m, s);
    if !p.done {
        lemma_push_depth(p.out, '\n');
        lemma_push_keeps_nonneg(p.out, '\n');
    }
}

proof fn lemma_lines_plain(m: ScanModel, ls: Seq<Seq<char>>, i: nat)
    requires
        plain_inv(m),
        forall|k: int| i <= k < ls.len() ==> all_plain(#[trigger] ls[k]),
    ensures
        plain_inv(scan_lines(m, ls, i).0),
    decreases ls.len() - i,
{
    if !(m.done || i >= ls.len()) {
        lemma_line_plain(m, ls[i as int]);
        lemma_lines_plain(scan_line(m, ls[i as int]), ls, i + 1);
    }
}

/// In text without quotes or backslashes, the block returned has balanced
/// braces: the reader stops at the first `}` that closes more than was opened.
pub proof fn law_plain_block_is_balanced(ls: Seq<Seq<char>>, pos: nat, first: Seq<char>)
    requires
        all_plain(first),
        forall|k: int| pos <= k < ls.len() ==> all_plain(#[trigger] ls[k]),
    ensures
        block_spec(ls, pos, first).0 matches Ok(b) ==> balanced(b),
{
    let m0 = scan_init();
    assert(m0.out.take(0) =~= m0.out);
    assert(plain_inv(m0));
    let m1 = if first.len() == 0 {
        m0
    } else {
        scan_line(m0, first)
    };
    if first.len() > 0 {
        lemma_line_plain(m0, first);
    }
    lemma_lines_plain(m1, ls, pos);
}

proof fn lemma_done_stays(m: ScanModel, s: Seq<char>, n: int, n2: int)
    requires
        0 <= n <= n2 <= s.len(),
        scan_chars(m, s.take(n)).done,
    ensures
        scan_chars(m, s.take(n2)) == scan_chars(m, s.take(n)),
    decreases n2 - n,
{
    if n2 > n {
        lemma_done_stays(m, s, n, n2 - 1);
        assert(s.take(n2).drop_last() =~= s.take(n2 - 1));
    }
}

/// The scanner on `b + "}" + tail` after `k` characters of `b`.
spec fn reading(b: Seq<char>, k: int) -> ScanModel {
    ScanModel {
        out: b.take(k),
        open: depth(b.take(k)) as nat,
        in_single: false,
        in_double: false,
        in_backtick: false,
        escape: false,
        done: false,
    }
}

proof fn lemma_reading(b: Seq<char>, s: Seq<char>, k: int)
    requires
        all_plain(b),
        balanced(b),
        0 <= k <= b.len(),
        b.len() < s.len(),
        s.take(b.len() as int) == b,
    ensures
        scan_chars(scan_init(), s.take(k)) == reading(b, k),
    decreases k,
{
    if k == 0 {
        assert(s.take(0) =~= Seq::<char>::empty());
        assert(b.take(0) =~= Seq::<char>::empty());
    } else {
        lemma_reading(b, s, k - 1);
        assert(s.take(k).drop_last() =~= s.take(k - 1));
        assert(s[k - 1] == b[k - 1]) by {
            assert(s.take(b.len() as int)[k - 1] == s[k - 1]);
        }
        assert(is_plain(b[k - 1]));
        assert(b.take(k).drop_last() =~= b.take(k - 1));
        assert(b.take(k - 1).push(b[k - 1]) =~= b.take(k));
        assert(depth(b.take(k)) >= 0);
    }
}

/// What a read gives back: a plain, balanced text followed by `}` on the
/// line where the block opens is returned exactly, whatever follows the brace
/// on that line, and no further line is read.
pub proof fn law_block_round_trip(ls: Seq<Seq<char>>, pos: nat, b: Seq<char>, tail: Seq<char>)
    requires
        all_plain(b),
        balanced(b),
    ensures
        block_spec(ls, pos, b + seq!['}'] + tail) == (Ok::<Seq<char>, ()>(b), pos),
{
    let s = b + seq!['}'] + tail;
    let n = b.len() as int;
    assert(s.take(n) =~= b);
    lemma_reading(b, s, n);
    assert(b.take(n) =~= b);
    assert(s.take(n + 1).drop_last() =~= s.take(n));
    assert(s[n] == '}');
    let m = scan_chars(scan_init(), s.take(n + 1));
    assert(m.done && m.out == b);
    lemma_done_stays(scan_init(), s, n + 1, s.len() as int);
    assert(s.take(s.len() as int) =~= s);
}


/// The scanner on `"` + `x` + `"}` + tail after the opening quote and `k`
/// characters of `x`.
spec fn reading_quoted(x: Seq<char>, k: int) -> ScanModel {
    ScanModel {
        out: seq!['"'] + x.take(k),
        open: 0,
        in_single: false,
        in_double: true,
        in_backtick: false,
        escape: false,
        done: false,
    }
}

proof fn lemma_reading_quoted(x: Seq<char>, s: Seq<char>, k: int)
    requires
        forall|i: int| 0 <= i < x.len() ==> #[trigger] x[i] != '"' && x[i] != '\\',
        0 <= k <= x.len(),
        x.len() + 1 < s.len(),
        s.take(x.len() as int + 1) == seq!['"'] + x,
    ensures
        scan_chars(scan_init(), s.take(k + 1)) == reading_quoted(x, k),
    decreases k,
{
    if k == 0 {
        assert(s.take(1).drop_last() =~= Seq::<char>::empty());
        assert(s[0] == '"') by {
            assert(s.take(x.len() as int + 1)[0] == s[0]);
        }
        assert(seq!['"'] + x.take(0) =~= seq!['"']);
        assert(s.take(1).last() == s[0]);
        assert(scan_init().out.push('"') =~= seq!['"'] + x.take(0));
        assert(scan_step(scan_init(), '"') == reading_quoted(x, 0));
        assert(scan_chars(scan_init(), s.take(1).drop_last()) == scan_init());
        assert(scan_chars(scan_init(), s.take(1)) == scan_step(scan_init(), s[0]));
    } else {
        lemma_reading_quoted(x, s, k - 1);
        assert(s.take(k + 1).drop_last() =~= s.take(k));
        assert(s[k] == x[k - 1]) by {
            assert(s.take(x.len() as int + 1)[k] == s[k]);
        }
        assert(seq!['"'] + x.take(k - 1) + seq![x[k - 1]] =~= seq!['"'] + x.take(k));
        assert((seq!['"'] + x.take(k - 1)).push(x[k - 1]) =~= seq!['"'] + x.take(k));
        assert(s.take(k + 1).last() == s[k]);
        let c = x[k - 1];
        assert(c != '"' && c != '\\');
        assert(scan_step(reading_quoted(x, k - 1), c) == reading_quoted(x, k));
        assert(scan_chars(scan_init(), s.take(k + 1)) == scan_step(
            scan_chars(scan_init(), s.take(k)),
            s[k],
        ));
    }
}

/// Braces inside a double-quoted string do not count: a block that is one
/// such string, followed by `}`, is returned exactly, whatever braces and
/// other quotes the string holds.
pub proof fn law_quoted_braces_ignored(ls: Seq<Seq<char>>, pos: nat, x: Seq<char>, tail: Seq<char>)
    requires
        forall|i: int| 0 <= i < x.len() ==> #[trigger] x[i] != '"' && x[i] != '\\',
    ensures
        block_spec(ls, pos, seq!['"'] + x + seq!['"', '}'] + tail) == (
            Ok::<Seq<char>, ()>(seq!['"'] + x + seq!['"']),
            pos,
        ),
{
    let s = seq!['"'] + x + seq!['"', '}'] + tail;
    let n = x.len() as int;
    assert(s.take(n + 1) =~= seq!['"'] + x);
    lemma_reading_quoted(x, s, n);
    assert(x.take(n) =~= x);
    assert(s.take(n + 2).drop_last() =~= s.take(n + 1));
    assert(s[n + 1] == '"');
    let m1 = scan_chars(scan_init(), s.take(n + 2));
    assert(m1.out =~= seq!['"'] + x + seq!['"']);
    assert(!m1.done && !quoted(m1) && m1.open == 0 && !m1.escape);
    assert(s.take(n + 3).drop_last() =~= s.take(n + 2));
    assert(s[n + 2] == '}');
    let m2 = scan_chars(scan_init(), s.take(n + 3));
    assert(m2.done && m2.out == seq!['"'] + x + seq!['"']);
    lemma_done_stays(scan_init(), s, n + 3, s.len() as int);
    assert(s.take(s.len() as int) =~= s);
}


/// One character of a block's text read again by the scanner, where a line
/// break marks the end of a line: it is kept and changes nothing else, as
/// when the block was read line by line.
pub open spec fn rescan_step(m: ScanModel, c: char) -> ScanModel {
    if c == '\n' {
        ScanModel { out: m.out.push(c), ..m }
    } else {
        scan_step(m, c)
    }
}

/// A block's text read again by the scanner, from its start.
pub open spec fn rescan(s: Seq<char>) -> ScanModel
    decreases s.len(),
{
    if s.len() == 0 {
        scan_init()
    } else {
        let p = rescan(s.drop_last());
        if p.done {
            p
        } else {
            rescan_step(p, s.last())
        }
    }
}

/// `s` holds no line break.
pub open spec fn no_break(s: Seq<char>) -> bool {
    forall|i: int| 0 <= i < s.len() ==> #[trigger] s[i] != '\n'
}

/// What holds of the scanner when its input lines hold no line break: read
/// again, the text kept so far brings the scanner to the same state; once the
/// block is closed, reading its text again leaves it open at nesting zero.
spec fn rescan_inv(m: ScanModel) -> bool {
    if m.done {
        !rescan(m.out).done && rescan(m.out).open == 0
    } else {
        rescan(m.out) == m
    }
}

proof fn lemma_rescan_push(s: Seq<char>, c: char)
    requires
        !rescan(s).done,
    ensures
        rescan(s.push(c)) == rescan_step(rescan(s), c),
{
    assert(s.push(c).drop_last() =~= s);
}

proof fn lemma_rescan_step(m: ScanModel, c: char)
    requires
        !m.done,
        rescan_inv(m),
        c != '\n',
    ensures
        rescan_inv(scan_step(m, c)),
{
    let r = scan_step(m, c);
    if !r.done {
        lemma_rescan_push(m.out, c);
    }
}

proof fn lemma_rescan_chars(m: ScanModel, s: Seq<char>)
    requires
        rescan_inv(m),
        no_break(s),
    ensures
        rescan_inv(scan_chars(m, s)),
    decreases s.len(),
{
    if s.len() > 0 {
        assert(no_break(s.drop_last()));
        lemma_rescan_chars(m, s.drop_last());
        let p = scan_chars(m, s.drop_last());
        if !p.done {
            assert(s[s.len() - 1] != '\n');
            lemma_rescan_step(p, s.last());
        }
    }
}

proof fn lemma_rescan_line(m: ScanModel, s: Seq<char>)
    requires
        rescan_inv(m),
        no_break(s),
    ensures
        rescan_inv(scan_line(m, s)),
{
    lemma_rescan_chars(m, s);
    let p = scan_chars(m, s);
    if !p.done {
        lemma_rescan_push(p.out, '\n');
    }
}

proof fn lemma_rescan_lines(m: ScanModel, ls: Seq<Seq<char>>, i: nat)
    requires
        rescan_inv(m),
        forall|k: int| i <= k < ls.len() ==> no_break(#[trigger] ls[k]),
    ensures
        rescan_inv(scan_lines(m, ls, i).0),
    decreases ls.len() - i,
{
    if !(m.done || i >= ls.len()) {
        lemma_rescan_line(m, ls[i as int]);
        lemma_rescan_lines(scan_line(m, ls[i as int]), ls, i + 1);
    }
}

/// The block returned is balanced by the scanner's own count of braces
/// (outside strings, not after a backslash, a line break ending a line):
/// read again, it never reaches a closing brace at nesting zero and ends at
/// nesting zero. This holds for any input whose lines hold no line break, as
/// lines never do.
pub proof fn law_block_balanced_as_scanned(ls: Seq<Seq<char>>, pos: nat, first: Seq<char>)
    requires
        no_break(first),
        forall|k: int| pos <= k < ls.len() ==> no_break(#[trigger] ls[k]),
    ensures
        block_spec(ls, pos, first).0 matches Ok(b) ==> !rescan(b).done && rescan(b).open == 0,
{
    let m0 = scan_init();
    assert(rescan(m0.out) == m0);
    let m1 = if first.len() == 0 {
        m0
    } else {
        scan_line(m0, first)
    };
    if first.len() > 0 {
        lemma_rescan_line(m0, first);
    }
    lemma_rescan_lines(m1, ls, pos);
}


/// One of the three quote characters.
pub open spec fn is_quote(q: char) -> bool {
    q == '\'' || q == '"' || q == '`'
}

/// `s` holds neither the quote `q` nor a backslash.
pub open spec fn free_of(s: Seq<char>, q: char) -> bool {
    forall|i: int| 0 <= i < s.len() ==> #[trigger] s[i] != q && s[i] != '\\'
}

/// The scanner stands inside a string opened by `q`, with no escape pending.
spec fn in_string(m: ScanModel, q: char) -> bool {
    &&& !m.done
    &&& !m.escape
    &&& m.in_single == (q == '\'')
    &&& m.in_double == (q == '"')
    &&& m.in_backtick == (q == '`')
}

/// The scanner stands outside strings, with no escape pending.
spec fn outside(m: ScanModel) -> bool {
    !m.done && !m.escape && !quoted(m)
}

/// Feeding `a` then `b` is feeding `a + b`.
proof fn lemma_chars_append(m: ScanModel, a: Seq<char>, b: Seq<char>)
    ensures
        scan_chars(m, a + b) == scan_chars(scan_chars(m, a), b),
    decreases b.len(),
{
    if b.len() == 0 {
        assert(a + b =~= a);
    } else {
        lemma_chars_append(m, a, b.drop_last());
        assert((a + b).drop_last() =~= a + b.drop_last());
        assert((a + b).last() == b.last());
    }
}

/// One character fed alone.
proof fn lemma_chars_one(m: ScanModel, c: char)
    ensures
        scan_chars(m, seq![c]) == (if m.done {
            m
        } else {
            scan_step(m, c)
        }),
{
    assert(seq![c].drop_last() =~= Seq::<char>::empty());
    assert(scan_chars(m, seq![c].drop_last()) == m);
    assert(seq![c].last() == c);
}

/// Once the block is closed, further characters change nothing.
proof fn lemma_chars_after_done(m: ScanModel, s: Seq<char>)
    requires
        m.done,
    ensures
        scan_chars(m, s) == m,
    decreases s.len(),
{
    if s.len() > 0 {
        lemma_chars_after_done(m, s.drop_last());
    }
}

/// Inside a string, characters other than its quote and the backslash are
/// kept and change nothing else: braces and the other quotes do not count.
proof fn lemma_in_string_chars(m: ScanModel, q: char, z: Seq<char>)
    requires
        is_quote(q),
        in_string(m, q),
        free_of(z, q),
    ensures
        scan_chars(m, z) == (ScanModel { out: m.out + z, ..m }),
    decreases z.len(),
{
    if z.len() == 0 {
        assert(m.out + z =~= m.out);
    } else {
        assert(free_of(z.drop_last(), q));
        lemma_in_string_chars(m, q, z.drop_last());
        let c = z.last();
        assert(c == z[z.len() - 1]);
        assert((m.out + z.drop_last()).push(c) =~= m.out + z);
    }
}

/// A string opened by `q`, then `body`, then the closing `q` and a `}`,
/// read from outside strings at nesting zero: the `}` closes the block.
proof fn lemma_string_then_close(m: ScanModel, q: char, body: Seq<char>, after_open: ScanModel)
    requires
        is_quote(q),
        outside(m),
        m.open == 0,
        after_open == scan_chars(scan_chars(m, seq![q]), body),
        in_string(after_open, q),
        after_open.open == 0,
    ensures
        scan_chars(m, seq![q] + body + seq![q, '}']) == (ScanModel {
            out: after_open.out.push(q),
            in_single: false,
            in_double: false,
            in_backtick: false,
            done: true,
            ..after_open
        }),
{
    lemma_chars_append(m, seq![q], body);
    lemma_chars_append(m, seq![q] + body, seq![q, '}']);
    lemma_chars_append(after_open, seq![q], seq!['}']);
    assert(seq![q, '}'] =~= seq![q] + seq!['}']);
    lemma_chars_one(after_open, q);
    let closed = scan_step(after_open, q);
    lemma_chars_one(closed, '}');
}

/// Braces, and quotes of the other two kinds, inside a string do not count,
/// whichever of the three quotes opens it: a block that is one such string,
/// followed by `}`, is returned exactly, and no further line is read.
pub proof fn law_string_braces_ignored(
    ls: Seq<Seq<char>>,
    pos: nat,
    q: char,
    x: Seq<char>,
    tail: Seq<char>,
)
    requires
        is_quote(q),
        free_of(x, q),
    ensures
        block_spec(ls, pos, seq![q] + x + seq![q, '}'] + tail) == (
            Ok::<Seq<char>, ()>(seq![q] + x + seq![q]),
            pos,
        ),
{
    let m0 = scan_init();
    lemma_chars_one(m0, q);
    let m1 = scan_chars(m0, seq![q]);
    assert(m1.out =~= seq![q]);
    lemma_in_string_chars(m1, q, x);
    let m2 = scan_chars(m1, x);
    lemma_string_then_close(m0, q, x, m2);
    let s1 = seq![q] + x + seq![q, '}'];
    let m3 = scan_chars(m0, s1);
    assert(m3.out =~= seq![q] + x + seq![q]);
    lemma_chars_append(m0, s1, tail);
    lemma_chars_after_done(m3, tail);
}

/// A backslash inside a string escapes the next character, whatever it is:
/// an escaped quote does not end the string, so in a block that is a string
/// holding `\` and any character, followed by `}`, that `}` closes the block
/// and everything before it is returned; no further line is read.
pub proof fn law_escape_inside_string(
    ls: Seq<Seq<char>>,
    pos: nat,
    q: char,
    x: Seq<char>,
    c: char,
    y: Seq<char>,
    tail: Seq<char>,
)
    requires
        is_quote(q),
        free_of(x, q),
        free_of(y, q),
    ensures
        block_spec(ls, pos, seq![q] + x + seq!['\\', c] + y + seq![q, '}'] + tail) == (
            Ok::<Seq<char>, ()>(seq![q] + x + seq!['\\', c] + y + seq![q]),
            pos,
        ),
{
    let m0 = scan_init();
    let body = x + seq!['\\', c] + y;
    lemma_chars_one(m0, q);
    let m1 = scan_chars(m0, seq![q]);
    assert(m1.out =~= seq![q]);
    lemma_in_string_chars(m1, q, x);
    let m2 = scan_chars(m1, x);
    lemma_chars_append(m1, x, seq!['\\', c]);
    lemma_chars_append(m2, seq!['\\'], seq![c]);
    assert(seq!['\\', c] =~= seq!['\\'] + seq![c]);
    lemma_chars_one(m2, '\\');
    let m3 = scan_step(m2, '\\');
    lemma_chars_one(m3, c);
    let m4 = scan_step(m3, c);
    assert(m4.out =~= m2.out + seq!['\\', c]);
    assert(in_string(m4, q));
    lemma_in_string_chars(m4, q, y);
    lemma_chars_append(m1, x + seq!['\\', c], y);
    let m5 = scan_chars(m1, body);
    assert(m5.out =~= seq![q] + body);
    lemma_string_then_close(m0, q, body, m5);
    let s1 = seq![q] + body + seq![q, '}'];
    assert(s1 =~= seq![q] + x + seq!['\\', c] + y + seq![q, '}']);
    let m6 = scan_chars(m0, s1);
    assert(m6.out =~= seq![q] + x + seq!['\\', c] + y + seq![q]);
    lemma_chars_append(m0, s1, tail);
    lemma_chars_after_done(m6, tail);
}


/// What `parse_block` keeps of the line that holds the marker: the text
/// before the marker, with a line break, unless it is blank.
pub open spec fn marker_line_part(l: Seq<char>, marker: Seq<char>) -> Seq<char> {
    let before = l.take(find_sub_spec(l, marker)->0);
    if trim_spec(before).len() > 0 {
        before.push('\n')
    } else {
        Seq::empty()
    }
}

proof fn lemma_parse_to_marker(ls: Seq<Seq<char>>, i: nat, m: nat, marker: Seq<char>, acc: Seq<char>)
    requires
        i <= m < ls.len(),
        forall|t: int| i <= t < m ==> find_sub_spec(#[trigger] ls[t], marker) is None,
        find_sub_spec(ls[m as int], marker) is Some,
    ensures
        parse_lines(ls, i, marker, acc) == (acc + line_stream(ls, i, m) + marker_line_part(
            ls[m as int],
            marker,
        ), m + 1),
    decreases m - i,
{
    if i == m {
        assert(line_stream(ls, i, m) =~= Seq::<char>::empty());
        assert(acc + line_stream(ls, i, m) + marker_line_part(ls[m as int], marker) =~= acc
            + marker_line_part(ls[m as int], marker));
    } else {
        assert(find_sub_spec(ls[i as int], marker) is None);
        lemma_parse_to_marker(ls, i + 1, m, marker, acc + ls[i as int].push('\n'));
        assert(acc + ls[i as int].push('\n') + line_stream(ls, i + 1, m) =~= acc + line_stream(
            ls,
            i,
            m,
        ));
    }
}

proof fn lemma_parse_no_marker(ls: Seq<Seq<char>>, i: nat, marker: Seq<char>, acc: Seq<char>)
    requires
        i <= ls.len(),
        forall|t: int| i <= t < ls.len() ==> find_sub_spec(#[trigger] ls[t], marker) is None,
    ensures
        parse_lines(ls, i, marker, acc) == (acc + line_stream(ls, i, ls.len()), ls.len()),
    decreases ls.len() - i,
{
    if i == ls.len() {
        assert(acc + line_stream(ls, i, ls.len()) =~= acc);
    } else {
        assert(find_sub_spec(ls[i as int], marker) is None);
        lemma_parse_no_marker(ls, i + 1, marker, acc + ls[i as int].push('\n'));
        assert(acc + ls[i as int].push('\n') + line_stream(ls, i + 1, ls.len()) =~= acc
            + line_stream(ls, i, ls.len()));
    }
}

/// A marker-delimited block is made of every line before the marker's line,
/// each exactly as it is and followed by a line break (blank lines too),
/// then the text before the marker on its line with a line break unless
/// that text is blank; the cursor then stands after the marker's line.
pub proof fn law_parse_block_copies_lines(ls: Seq<Seq<char>>, pos: nat, m: nat, marker: Seq<char>)
    requires
        pos <= m < ls.len(),
        forall|t: int| pos <= t < m ==> find_sub_spec(#[trigger] ls[t], marker) is None,
        find_sub_spec(ls[m as int], marker) is Some,
    ensures
        parse_lines(ls, pos, marker, Seq::empty()) == (line_stream(ls, pos, m) + marker_line_part(
            ls[m as int],
            marker,
        ), m + 1),
{
    lemma_parse_to_marker(ls, pos, m, marker, Seq::empty());
    assert(Seq::<char>::empty() + line_stream(ls, pos, m) =~= line_stream(ls, pos, m));
}

/// With no marker in the lines left, every one of them is kept exactly as it
/// is, each followed by a line break, and the cursor stands at the end.
pub proof fn law_parse_block_without_marker(ls: Seq<Seq<char>>, pos: nat, marker: Seq<char>)
    requires
        pos <= ls.len(),
        forall|t: int| pos <= t < ls.len() ==> find_sub_spec(#[trigger] ls[t], marker) is None,
    ensures
        parse_lines(ls, pos, marker, Seq::empty()) == (line_stream(ls, pos, ls.len()), ls.len()),
{
    lemma_parse_no_marker(ls, pos, marker, Seq::empty());
    assert(Seq::<char>::empty() + line_stream(ls, pos, ls.len()) =~= line_stream(ls, pos, ls.len()));
}

} // verus!
