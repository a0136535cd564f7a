use vstd::prelude::*;

use crate::block::{block_spec, lemma_scan_lines_bounds, scan_init, scan_line, scan_lines, ScanModel};
use crate::compile::{
    block_start, choice_id_spec, compile_init, compile_spec, keyword_spec, lemma_step_advances, run_spec, step_spec,
    untitled_spec, CompileState, Directive, EntryV, QuestionV,
};
use crate::text::{find_spec, has_prefix, trim_spec};

verus! {

/// The directive a line holds: the first keyword, in the order they are
/// tried, that the trimmed line starts with; `None` for a blank line or one
/// that starts with no keyword.
pub open spec fn directive_of(raw: Seq<char>) -> Option<Directive> {
    let line = trim_spec(raw);
    if line.len() == 0 {
        None
    } else if has_prefix(line, keyword_spec(Directive::Comment)) {
        Some(Directive::Comment)
    } else if has_prefix(line, keyword_spec(Directive::Title)) {
        Some(Directive::Title)
    } else if has_prefix(line, keyword_spec(Directive::PageTitle)) {
        Some(Directive::PageTitle)
    } else if has_prefix(line, keyword_spec(Directive::Import)) {
        Some(Directive::Import)
    } else if has_prefix(line, keyword_spec(Directive::Insert)) {
        Some(Directive::Insert)
    } else if has_prefix(line, keyword_spec(Directive::Choice)) {
        Some(Directive::Choice)
    } else if has_prefix(line, keyword_spec(Directive::Html)) {
        Some(Directive::Html)
    } else if has_prefix(line, keyword_spec(Directive::Js)) {
        Some(Directive::Js)
    } else if has_prefix(line, keyword_spec(Directive::Css)) {
        Some(Directive::Css)
    } else {
        None
    }
}

/// A document title is emitted as one more entry, and the page being filled
/// (if any) stays as it was: a title neither starts nor changes a page.
pub proof fn law_title_keeps_page(ls: Seq<Seq<char>>, i: nat, st: CompileState)
    requires
        i < ls.len(),
        directive_of(ls[i as int]) == Some(Directive::Title),
    ensures
        step_spec(ls, i, st) matches Ok((st2, j)) && j == i + 1 && st2.page == st.page
            && st2.ast.len() == st.ast.len() + 1 && st2.ast.take(st.ast.len() as int) == st.ast
            && st2.ast.last() is DocTitle,
{
    let (st2, j) = step_spec(ls, i, st)->Ok_0;
    assert(st2.ast.take(st.ast.len() as int) =~= st.ast);
}

/// A page title given while the current page is still untitled names that
/// page and keeps its questions; nothing is emitted.
pub proof fn law_page_title_adopts_untitled(
    ls: Seq<Seq<char>>,
    i: nat,
    st: CompileState,
    qs: Seq<QuestionV>,
)
    requires
        i < ls.len(),
        directive_of(ls[i as int]) == Some(Directive::PageTitle),
        st.page == Some((untitled_spec(), qs)),
    ensures
        match step_spec(ls, i, st) {
            Ok((st2, j)) => j == i + 1 && st2.ast == st.ast && match st2.page {
                Some((_, qs2)) => qs2 == qs,
                None => false,
            },
            Err(_) => false,
        },
{
}

/// A page title given while a titled page is being filled emits that page
/// and starts an empty one.
pub proof fn law_page_title_closes_titled(
    ls: Seq<Seq<char>>,
    i: nat,
    st: CompileState,
    t: Seq<char>,
    qs: Seq<QuestionV>,
)
    requires
        i < ls.len(),
        directive_of(ls[i as int]) == Some(Directive::PageTitle),
        st.page == Some((t, qs)),
        t != untitled_spec(),
    ensures
        match step_spec(ls, i, st) {
            Ok((st2, j)) => j == i + 1 && st2.ast == st.ast.push(EntryV::Page(t, qs)) && match st2.page {
                Some((_, qs2)) => qs2.len() == 0,
                None => false,
            },
            Err(_) => false,
        },
{
}

/// A question directive emits no entry: its question, if it makes one, joins
/// the current page after the questions already there, and the page keeps its
/// title; with no current page, an untitled one starts with it.
pub proof fn law_question_joins_page(ls: Seq<Seq<char>>, i: nat, st: CompileState)
    requires
        i < ls.len(),
        directive_of(ls[i as int]) matches Some(d) && (d == Directive::Insert || d
            == Directive::Choice || d == Directive::Html || d == Directive::Js || d
            == Directive::Css),
    ensures
        step_spec(ls, i, st) matches Ok((st2, j)) ==> st2.ast == st.ast && match st.page {
            Some((t, qs)) => match st2.page {
                Some((t2, qs2)) => t2 == t && (qs2 == qs || (qs2.len() == qs.len() + 1 && qs2.take(
                    qs.len() as int,
                ) == qs)),
                None => false,
            },
            None => match st2.page {
                Some((t2, qs2)) => t2 == untitled_spec() && qs2.len() == 1,
                None => true,
            },
        },
{
    if let Ok((st2, j)) = step_spec(ls, i, st) {
        if let Some((t, qs)) = st.page {
            if let Some((t2, qs2)) = st2.page {
                if qs2 != qs {
                    assert(qs2.take(qs.len() as int) =~= qs);
                }
            }
        }
    }
}

/// A line that does nothing: blank, a `//` comment, or one that starts with
/// no keyword.
pub open spec fn is_quiet(raw: Seq<char>) -> bool {
    directive_of(raw) is None || directive_of(raw) == Some(Directive::Comment)
}

proof fn lemma_quiet_run(ls: Seq<Seq<char>>, i: nat, st: CompileState)
    requires
        forall|k: int| i <= k < ls.len() ==> is_quiet(#[trigger] ls[k]),
    ensures
        run_spec(ls, i, st) == Ok::<Seq<EntryV>, ()>(crate::compile::finish(st)),
    decreases ls.len() - i,
{
    if i < ls.len() {
        assert(is_quiet(ls[i as int]));
        assert(step_spec(ls, i, st) == Ok::<(CompileState, nat), ()>((st, i + 1)));
        lemma_quiet_run(ls, i + 1, st);
    }
}

/// Input made only of blank lines, `//` comments and lines that start with
/// no keyword compiles to no entry at all.
pub proof fn law_quiet_input_compiles_to_nothing(ls: Seq<Seq<char>>)
    requires
        forall|k: int| 0 <= k < ls.len() ==> is_quiet(#[trigger] ls[k]),
    ensures
        compile_spec(ls) == Ok::<Seq<EntryV>, ()>(Seq::empty()),
{
    lemma_quiet_run(ls, 0, compile_init());
}


/// The state in which the compiler, run from line `i` in state `st`, stands
/// at line `k` between two directives; `None` when it never stands there
/// (because `k` lies inside a block, or a block before it is not closed).
pub open spec fn reach_state(ls: Seq<Seq<char>>, i: nat, st: CompileState, k: nat) -> Option<CompileState>
    decreases ls.len() - i,
{
    if i > k {
        None
    } else if i == k {
        Some(st)
    } else if i >= ls.len() {
        None
    } else {
        match step_spec(ls, i, st) {
            Err(_) => None,
            Ok((st2, j)) => {
                proof {
                    lemma_step_advances(ls, i, st);
                }
                reach_state(ls, j, st2, k)
            },
        }
    }
}

proof fn lemma_skip_shift(a_ls: Seq<Seq<char>>, a: int, b_ls: Seq<Seq<char>>, b: int, d: int)
    requires
        0 <= a <= a_ls.len(),
        0 <= b <= b_ls.len(),
        a_ls.skip(a) == b_ls.skip(b),
        0 <= d <= a_ls.len() - a,
    ensures
        a_ls.skip(a + d) == b_ls.skip(b + d),
{
    assert(a_ls.skip(a).len() == a_ls.len() - a);
    assert(b_ls.skip(b).len() == b_ls.len() - b);
    assert forall|t: int| 0 <= t < a_ls.len() - (a + d) implies #[trigger] a_ls.skip(a + d)[t] == b_ls.skip(
        b + d,
    )[t] by {
        assert(a_ls.skip(a)[d + t] == b_ls.skip(b)[d + t]);
        assert(a_ls.skip(a)[d + t] == a_ls[a + d + t]);
        assert(b_ls.skip(b)[d + t] == b_ls[b + d + t]);
    }
    assert(a_ls.skip(a + d) =~= b_ls.skip(b + d));
}

proof fn lemma_scan_lines_shift(m: ScanModel, a_ls: Seq<Seq<char>>, a: nat, b_ls: Seq<Seq<char>>, b: nat)
    requires
        a <= a_ls.len(),
        b <= b_ls.len(),
        a_ls.skip(a as int) == b_ls.skip(b as int),
    ensures
        scan_lines(m, a_ls, a).0 == scan_lines(m, b_ls, b).0,
        scan_lines(m, a_ls, a).1 - a == scan_lines(m, b_ls, b).1 - b,
    decreases a_ls.len() - a,
{
    assert(a_ls.skip(a as int).len() == a_ls.len() - a);
    assert(b_ls.skip(b as int).len() == b_ls.len() - b);
    if !m.done && a < a_ls.len() {
        assert(a_ls[a as int] == a_ls.skip(a as int)[0]);
        assert(b_ls[b as int] == b_ls.skip(b as int)[0]);
        lemma_skip_shift(a_ls, a as int, b_ls, b as int, 1);
        lemma_scan_lines_shift(scan_line(m, a_ls[a as int]), a_ls, a + 1, b_ls, b + 1);
    }
}

/// Two step results that agree up to where their inputs are placed.
spec fn shifted(
    r1: Result<(CompileState, nat), ()>,
    r2: Result<(CompileState, nat), ()>,
    a: int,
    b: int,
) -> bool {
    match (r1, r2) {
        (Ok((s1, j1)), Ok((s2, j2))) => s1 == s2 && j1 - a == j2 - b,
        (Err(_), Err(_)) => true,
        _ => false,
    }
}

proof fn lemma_step_shift(a_ls: Seq<Seq<char>>, a: nat, b_ls: Seq<Seq<char>>, b: nat, st: CompileState)
    requires
        a < a_ls.len(),
        b < b_ls.len(),
        a_ls.skip(a as int) == b_ls.skip(b as int),
    ensures
        shifted(step_spec(a_ls, a, st), step_spec(b_ls, b, st), a as int, b as int),
{
    assert(a_ls.skip(a as int).len() == a_ls.len() - a);
    assert(b_ls.skip(b as int).len() == b_ls.len() - b);
    assert(a_ls[a as int] == a_ls.skip(a as int)[0]);
    assert(b_ls[b as int] == b_ls.skip(b as int)[0]);
    lemma_skip_shift(a_ls, a as int, b_ls, b as int, 1);
    let f = block_start(a_ls[a as int]);
    let m1 = if f.len() == 0 {
        scan_init()
    } else {
        scan_line(scan_init(), f)
    };
    lemma_scan_lines_shift(m1, a_ls, a + 1, b_ls, b + 1);
}

/// The compiler's result depends only on the lines from where it stands on.
proof fn lemma_run_shift(a_ls: Seq<Seq<char>>, a: nat, b_ls: Seq<Seq<char>>, b: nat, st: CompileState)
    requires
        a <= a_ls.len(),
        b <= b_ls.len(),
        a_ls.skip(a as int) == b_ls.skip(b as int),
    ensures
        run_spec(a_ls, a, st) == run_spec(b_ls, b, st),
    decreases a_ls.len() - a,
{
    assert(a_ls.skip(a as int).len() == a_ls.len() - a);
    assert(b_ls.skip(b as int).len() == b_ls.len() - b);
    if a < a_ls.len() {
        lemma_step_shift(a_ls, a, b_ls, b, st);
        lemma_step_advances(a_ls, a, st);
        lemma_step_advances(b_ls, b, st);
        if let Ok((s1, j1)) = step_spec(a_ls, a, st) {
            let (s2, j2) = step_spec(b_ls, b, st)->Ok_0;
            lemma_skip_shift(a_ls, a as int, b_ls, b as int, j1 - a);
            assert(b + (j1 - a) == j2);
            lemma_run_shift(a_ls, j1, b_ls, j2, s1);
        }
    }
}

proof fn lemma_scan_lines_agree(m: ScanModel, a_ls: Seq<Seq<char>>, b_ls: Seq<Seq<char>>, i: nat, k: nat)
    requires
        k <= a_ls.len(),
        k <= b_ls.len(),
        forall|t: int| i <= t < k ==> a_ls[t] == b_ls[t],
        scan_lines(m, a_ls, i).0.done,
        scan_lines(m, a_ls, i).1 <= k,
    ensures
        scan_lines(m, b_ls, i) == scan_lines(m, a_ls, i),
    decreases a_ls.len() - i,
{
    if !m.done {
        let m2 = scan_line(m, a_ls[i as int]);
        lemma_scan_lines_bounds(m2, a_ls, i + 1);
        assert(a_ls[i as int] == b_ls[i as int]);
        lemma_scan_lines_agree(m2, a_ls, b_ls, i + 1, k);
    }
}

proof fn lemma_step_agree(a_ls: Seq<Seq<char>>, b_ls: Seq<Seq<char>>, i: nat, k: nat, st: CompileState)
    requires
        i < k,
        k <= a_ls.len(),
        k <= b_ls.len(),
        forall|t: int| i <= t < k ==> a_ls[t] == b_ls[t],
        step_spec(a_ls, i, st) matches Ok((_, j)) && j <= k,
    ensures
        step_spec(b_ls, i, st) == step_spec(a_ls, i, st),
{
    assert(a_ls[i as int] == b_ls[i as int]);
    let f = block_start(a_ls[i as int]);
    let m1 = if f.len() == 0 {
        scan_init()
    } else {
        scan_line(scan_init(), f)
    };
    let (m2, j2) = scan_lines(m1, a_ls, i + 1);
    if m2.done && j2 <= k {
        lemma_scan_lines_agree(m1, a_ls, b_ls, i + 1, k);
    }
}

/// Up to a line where the compiler stands, any input that agrees on the lines
/// before it is compiled the same way.
proof fn lemma_run_to(ls: Seq<Seq<char>>, ls2: Seq<Seq<char>>, i: nat, st: CompileState, k: nat)
    requires
        reach_state(ls, i, st, k) is Some,
        k <= ls.len(),
        k <= ls2.len(),
        forall|t: int| 0 <= t < k ==> ls[t] == ls2[t],
    ensures
        run_spec(ls2, i, st) == run_spec(ls2, k, reach_state(ls, i, st, k)->0),
    decreases ls.len() - i,
{
    if i < k {
        lemma_step_advances(ls, i, st);
        assert(i < ls.len());
        let (st2, j) = step_spec(ls, i, st)->Ok_0;
        assert(reach_state(ls, i, st, k) == reach_state(ls, j, st2, k));
        assert(reach_state(ls, j, st2, k) is Some);
        assert(j <= k);
        lemma_step_agree(ls, ls2, i, k, st);
        lemma_step_advances(ls2, i, st);
        lemma_run_to(ls, ls2, j, st2, k);
    }
}

proof fn lemma_quiet_span(ls: Seq<Seq<char>>, i: nat, e: nat, st: CompileState)
    requires
        i <= e <= ls.len(),
        forall|t: int| i <= t < e ==> is_quiet(#[trigger] ls[t]),
    ensures
        run_spec(ls, i, st) == run_spec(ls, e, st),
    decreases e - i,
{
    if i < e {
        assert(is_quiet(ls[i as int]));
        assert(step_spec(ls, i, st) == Ok::<(CompileState, nat), ()>((st, i + 1)));
        lemma_quiet_span(ls, i + 1, e, st);
    }
}

/// Blank lines, `//` comments and lines that start with no keyword can be
/// inserted at any line where the compiler stands between directives (not
/// inside a block) without changing what the input compiles to.
pub proof fn law_quiet_lines_can_be_inserted(ls: Seq<Seq<char>>, k: nat, qs: Seq<Seq<char>>)
    requires
        k <= ls.len(),
        reach_state(ls, 0, compile_init(), k) is Some,
        forall|t: int| 0 <= t < qs.len() ==> is_quiet(#[trigger] qs[t]),
    ensures
        compile_spec(ls.take(k as int) + qs + ls.skip(k as int)) == compile_spec(ls),
{
    let ls2 = ls.take(k as int) + qs + ls.skip(k as int);
    let sk = reach_state(ls, 0, compile_init(), k)->0;
    assert forall|t: int| 0 <= t < k implies ls[t] == ls2[t] by {
        assert(ls2[t] == ls.take(k as int)[t]);
    }
    lemma_run_to(ls, ls2, 0, compile_init(), k);
    let e = k + qs.len();
    assert forall|t: int| k <= t < e implies is_quiet(#[trigger] ls2[t]) by {
        assert(ls2[t] == qs[t - k]);
    }
    lemma_quiet_span(ls2, k, e, sk);
    assert(ls2.skip(e as int) =~= ls.skip(k as int));
    lemma_run_shift(ls2, e, ls, k, sk);
    lemma_run_to(ls, ls, 0, compile_init(), k);
}


/// Where the compiler stands before a line it reaches from line `i`, it
/// stands in the same state in any input that agrees on the lines before that
/// line.
proof fn lemma_reach_agree(
    ls: Seq<Seq<char>>,
    ls2: Seq<Seq<char>>,
    i: nat,
    st: CompileState,
    k: nat,
    k2: nat,
)
    requires
        reach_state(ls, i, st, k) is Some,
        k2 <= k,
        k <= ls.len(),
        k <= ls2.len(),
        forall|t: int| 0 <= t < k ==> ls[t] == ls2[t],
    ensures
        reach_state(ls2, i, st, k2) == reach_state(ls, i, st, k2),
    decreases ls.len() - i,
{
    if i < k2 {
        lemma_step_advances(ls, i, st);
        assert(i < ls.len());
        let (st2, j) = step_spec(ls, i, st)->Ok_0;
        assert(reach_state(ls, i, st, k) == reach_state(ls, j, st2, k));
        assert(j <= k);
        lemma_step_agree(ls, ls2, i, k, st);
        lemma_step_advances(ls2, i, st);
        lemma_reach_agree(ls, ls2, j, st2, k, k2);
    }
}

/// `qs` inserted into `ls` before line `k`.
pub open spec fn insert_lines(ls: Seq<Seq<char>>, k: nat, qs: Seq<Seq<char>>) -> Seq<Seq<char>> {
    ls.take(k as int) + qs + ls.skip(k as int)
}

/// Several insertions, made one after the other in the order given; each
/// gives the line before which its lines go and the lines.
pub open spec fn insert_all(ls: Seq<Seq<char>>, ins: Seq<(nat, Seq<Seq<char>>)>) -> Seq<Seq<char>>
    decreases ins.len(),
{
    if ins.len() == 0 {
        ls
    } else {
        insert_all(insert_lines(ls, ins[0].0, ins[0].1), ins.drop_first())
    }
}

/// Quiet lines can be inserted at any number of places where the compiler
/// stands between directives, without changing what the input compiles to.
/// The places are lines of the original input, given from the last to the
/// first, so that each insertion leaves the places before it where they were.
pub proof fn law_quiet_lines_can_be_inserted_anywhere(ls: Seq<Seq<char>>, ins: Seq<(nat, Seq<Seq<char>>)>)
    requires
        forall|i: int|
            0 <= i < ins.len() ==> (#[trigger] ins[i]).0 <= ls.len() && reach_state(
                ls,
                0,
                compile_init(),
                ins[i].0,
            ) is Some && forall|t: int| 0 <= t < ins[i].1.len() ==> is_quiet(#[trigger] ins[i].1[t]),
        forall|i: int, j: int| 0 <= i < j < ins.len() ==> (#[trigger] ins[j]).0 <= (#[trigger] ins[i]).0,
    ensures
        compile_spec(insert_all(ls, ins)) == compile_spec(ls),
    decreases ins.len(),
{
    if ins.len() > 0 {
        let (k, qs) = ins[0];
        let ls1 = insert_lines(ls, k, qs);
        law_quiet_lines_can_be_inserted(ls, k, qs);
        assert forall|t: int| 0 <= t < k implies ls[t] == ls1[t] by {
            assert(ls1[t] == ls.take(k as int)[t]);
        }
        let rest = ins.drop_first();
        assert forall|i: int|
            0 <= i < rest.len() implies (#[trigger] rest[i]).0 <= ls1.len() && reach_state(
                ls1,
                0,
                compile_init(),
                rest[i].0,
            ) is Some && forall|t: int| 0 <= t < rest[i].1.len() ==> is_quiet(#[trigger] rest[i].1[t]) by {
            assert(rest[i] == ins[i + 1]);
            assert(ins[i + 1].0 <= ins[0].0);
            lemma_reach_agree(ls, ls1, 0, compile_init(), k, rest[i].0);
        }
        assert forall|i: int, j: int| 0 <= i < j < rest.len() implies (#[trigger] rest[j]).0 <= (
        #[trigger] rest[i]).0 by {
            assert(rest[i] == ins[i + 1] && rest[j] == ins[j + 1]);
        }
        law_quiet_lines_can_be_inserted_anywhere(ls1, rest);
    }
}


/// The page after question `q` joins it: the current page gains `q` at the
/// end, keeping its title; with no current page, an untitled one holds `q`.
pub open spec fn page_with(page: Option<(Seq<char>, Seq<QuestionV>)>, q: QuestionV) -> (Seq<char>, Seq<QuestionV>) {
    match page {
        Some((t, qs)) => (t, qs.push(q)),
        None => (untitled_spec(), seq![q]),
    }
}

/// A block directive reads its block from after the first `{` of its line
/// (from the next line when the line has none, which an `insert` line must)
/// and adds to the page a question of its own kind: `insert` an Insert,
/// `choice` a Choose (with the choice's identifier), `html` an Html, `js` a
/// Js, `css` a Css, each holding the block read; nothing is emitted, and the
/// compiler goes on after the block. When the block is not closed the line
/// fails.
pub proof fn law_block_directive_makes_its_question(
    ls: Seq<Seq<char>>,
    i: nat,
    st: CompileState,
    d: Directive,
    first: Seq<char>,
)
    requires
        i < ls.len(),
        directive_of(ls[i as int]) == Some(d),
        d == Directive::Insert || d == Directive::Choice || d == Directive::Html || d == Directive::Js
            || d == Directive::Css,
        d == Directive::Insert ==> find_spec(ls[i as int], '{') is Some,
        first == (match find_spec(ls[i as int], '{') {
            Some(o) => ls[i as int].skip(o + 1),
            None => Seq::<char>::empty(),
        }),
    ensures
        block_spec(ls, i + 1, first).0 is Err ==> step_spec(ls, i, st) is Err,
        block_spec(ls, i + 1, first).0 matches Ok(t) ==> {
            let j = block_spec(ls, i + 1, first).1;
            let q = if d == Directive::Insert {
                QuestionV::Insert(t)
            } else if d == Directive::Choice {
                QuestionV::Choose { id: choice_id_spec(trim_spec(ls[i as int])), block: t }
            } else if d == Directive::Html {
                QuestionV::Html(t)
            } else if d == Directive::Js {
                QuestionV::Js(t)
            } else {
                QuestionV::Css(t)
            };
            step_spec(ls, i, st) == Ok::<(CompileState, nat), ()>(
                (CompileState { ast: st.ast, page: Some(page_with(st.page, q)) }, j),
            )
        },
{
    assert(first == block_start(ls[i as int]));
}

} // verus!
