use vstd::prelude::*;

use crate::block::{
    block_spec, lemma_scan_lines_bounds, lines_text, read_brace_block, scan_init, scan_line, BlockError,
    LineCursor,
};
use crate::text::{
    find_char, find_spec, has_prefix, join_from, join_spec, lemma_find_spec, second_piece,
    second_piece_spec, slice_of, split_whitespace, starts_with, string_of, trim, trim_spec, upto,
    upto_spec, words_spec,
};

verus! {

/// One item of a questionnaire page. A question holds the text of its
/// directive's block; a choice also holds the identifier written after the
/// keyword.
#[derive(Debug, PartialEq, Eq)]
pub enum Question {
    Choose { id: Option<String>, block: String },
    Insert(String),
    Html(String),
    Js(String),
    Css(String),
}

/// One entry of a compiled questionnaire.
#[derive(Debug, PartialEq, Eq)]
pub enum Entry {
    Import { path: String },
    /// Document-level title (the big title for the whole questionnaire)
    DocTitle(String),
    Page { title: String, content: Vec<Question> },
}

/// A question with its texts as character sequences.
pub enum QuestionV {
    Choose { id: Option<Seq<char>>, block: Seq<char> },
    Insert(Seq<char>),
    Html(Seq<char>),
    Js(Seq<char>),
    Css(Seq<char>),
}

/// An entry with its texts as character sequences.
pub enum EntryV {
    Import(Seq<char>),
    DocTitle(Seq<char>),
    Page(Seq<char>, Seq<QuestionV>),
}

impl View for Question {
    type V = QuestionV;

    open spec fn view(&self) -> QuestionV {
        match self {
            Question::Choose { id, block } => QuestionV::Choose {
                id: match id {
                    Some(s) => Some(s@),
                    None => None,
                },
                block: block@,
            },
            Question::Insert(s) => QuestionV::Insert(s@),
            Question::Html(s) => QuestionV::Html(s@),
            Question::Js(s) => QuestionV::Js(s@),
            Question::Css(s) => QuestionV::Css(s@),
        }
    }
}

/// The questions of a list, each by its view.
pub open spec fn questions_view(qs: Seq<Question>) -> Seq<QuestionV> {
    qs.map_values(|q: Question| q@)
}

impl View for Entry {
    type V = EntryV;

    open spec fn view(&self) -> EntryV {
        match self {
            Entry::Import { path } => EntryV::Import(path@),
            Entry::DocTitle(s) => EntryV::DocTitle(s@),
            Entry::Page { title, content } => EntryV::Page(title@, questions_view(content@)),
        }
    }
}

/// The entries of a list, each by its view.
pub open spec fn entries_view(es: Seq<Entry>) -> Seq<EntryV> {
    es.map_values(|e: Entry| e@)
}

/// The keywords that start a directive line, in the order they are tried.
pub enum Directive {
    Comment,
    Title,
    PageTitle,
    Import,
    Insert,
    Choice,
    Html,
    Js,
    Css,
}

/// The text of each keyword.
pub open spec fn keyword_spec(d: Directive) -> Seq<char> {
    match d {
        Directive::Comment => seq!['/', '/'],
        Directive::Title => seq!['t', 'i', 't', 'l', 'e'],
        Directive::PageTitle => seq!['@', 'p'],
        Directive::Import => seq!['i', 'm', 'p', 'o', 'r', 't'],
        Directive::Insert => seq!['i', 'n', 's', 'e', 'r', 't'],
        Directive::Choice => seq!['c', 'h', 'o', 'i', 'c', 'e'],
        Directive::Html => seq!['h', 't', 'm', 'l'],
        Directive::Js => seq!['j', 's'],
        Directive::Css => seq!['c', 's', 's'],
    }
}

/// The text of a keyword.
pub fn keyword(d: Directive) -> (v: Vec<char>)
    ensures
        v@ == keyword_spec(d),
{
    let v = match d {
        Directive::Comment => vec!['/', '/'],
        Directive::Title => vec!['t', 'i', 't', 'l', 'e'],
        Directive::PageTitle => vec!['@', 'p'],
        Directive::Import => vec!['i', 'm', 'p', 'o', 'r', 't'],
        Directive::Insert => vec!['i', 'n', 's', 'e', 'r', 't'],
        Directive::Choice => vec!['c', 'h', 'o', 'i', 'c', 'e'],
        Directive::Html => vec!['h', 't', 'm', 'l'],
        Directive::Js => vec!['j', 's'],
        Directive::Css => vec!['c', 's', 's'],
    };
    assert(v@ =~= keyword_spec(d));
    v
}

/// The title that stands for a page with none.
pub open spec fn untitled_spec() -> Seq<char> {
    seq!['u', 'n', 't', 'i', 't', 'l', 'e', 'd']
}

/// The placeholder title.
pub fn untitled() -> (v: Vec<char>)
    ensures
        v@ == untitled_spec(),
{
    let v = vec!['u', 'n', 't', 'i', 't', 'l', 'e', 'd'];
    assert(v@ =~= untitled_spec());
    v
}


/// Where the compiler stands between two lines: the entries emitted so far,
/// and the page being filled (its title and questions), if any.
pub struct CompileState {
    pub ast: Seq<EntryV>,
    pub page: Option<(Seq<char>, Seq<QuestionV>)>,
}

/// Before the first line.
pub open spec fn compile_init() -> CompileState {
    CompileState { ast: Seq::empty(), page: None }
}

/// The title given after `title` or `@p` (already trimmed): the text between
/// the first two double quotes when it starts with one, else the text itself,
/// and the placeholder when there is none.
pub open spec fn title_text_spec(rest: Seq<char>) -> Seq<char> {
    if rest.len() > 0 && rest[0] == '"' {
        match second_piece_spec(rest, '"') {
            Some(t) => t,
            None => untitled_spec(),
        }
    } else if rest.len() > 0 {
        rest
    } else {
        untitled_spec()
    }
}

/// A question joins the current page; with no page, an untitled page starts
/// with it.
pub open spec fn add_question(st: CompileState, q: QuestionV) -> CompileState {
    match st.page {
        Some((t, c)) => CompileState { page: Some((t, c.push(q))), ..st },
        None => CompileState { page: Some((untitled_spec(), seq![q])), ..st },
    }
}

/// A page title: an untitled current page takes it, keeping its questions;
/// a titled one is emitted and a new empty page starts with it.
pub open spec fn open_page(st: CompileState, title: Seq<char>) -> CompileState {
    match st.page {
        Some((t, c)) => if t == untitled_spec() {
            CompileState { page: Some((title, c)), ..st }
        } else {
            CompileState { ast: st.ast.push(EntryV::Page(t, c)), page: Some((title, Seq::empty())) }
        },
        None => CompileState { page: Some((title, Seq::empty())), ..st },
    }
}

/// The entries once the input ends: the current page, if any, is emitted.
pub open spec fn finish(st: CompileState) -> Seq<EntryV> {
    match st.page {
        Some((t, c)) => st.ast.push(EntryV::Page(t, c)),
        None => st.ast,
    }
}

/// What follows the first opening brace of a raw line (nothing if it has none).
pub open spec fn block_start(raw: Seq<char>) -> Seq<char> {
    match find_spec(raw, '{') {
        Some(o) => raw.skip(o + 1),
        None => Seq::empty(),
    }
}

/// The identifier of a choice: the second word before any opening brace.
pub open spec fn choice_id_spec(line: Seq<char>) -> Option<Seq<char>> {
    let ws = words_spec(upto_spec(line, '{'));
    if ws.len() >= 2 {
        Some(ws[1])
    } else {
        None
    }
}

/// The question that a block directive makes of its block.
pub open spec fn make_question(d: Directive, id: Option<Seq<char>>, b: Seq<char>) -> QuestionV {
    match d {
        Directive::Choice => QuestionV::Choose { id, block: b },
        Directive::Html => QuestionV::Html(b),
        Directive::Js => QuestionV::Js(b),
        Directive::Css => QuestionV::Css(b),
        _ => QuestionV::Insert(b),
    }
}

/// A block directive on line `i`: its block is read from `first` and the
/// lines after `i`, and its question joins the page; `Err` when the block is
/// not closed.
pub open spec fn block_directive(
    ls: Seq<Seq<char>>,
    i: nat,
    st: CompileState,
    d: Directive,
    id: Option<Seq<char>>,
    first: Seq<char>,
) -> Result<(CompileState, nat), ()> {
    let (b, j) = block_spec(ls, i + 1, first);
    match b {
        Ok(t) => Ok((add_question(st, make_question(d, id, t)), j)),
        Err(_) => Err(()),
    }
}

/// The effect of line `i`: the next state and the index of the next line to
/// read, or `Err` when a block it opens is not closed. The line, trimmed, is
/// skipped when blank or a `//` comment, and otherwise tried against the
/// keywords in order; a line that starts with none of them is skipped.
pub open spec fn step_spec(ls: Seq<Seq<char>>, i: nat, st: CompileState) -> Result<(CompileState, nat), ()> {
    let raw = ls[i as int];
    let line = trim_spec(raw);
    let next = i + 1;
    if line.len() == 0 || has_prefix(line, keyword_spec(Directive::Comment)) {
        Ok((st, next))
    } else if has_prefix(line, keyword_spec(Directive::Title)) {
        let title = title_text_spec(trim_spec(line.skip(keyword_spec(Directive::Title).len() as int)));
        Ok((CompileState { ast: st.ast.push(EntryV::DocTitle(title)), ..st }, next))
    } else if has_prefix(line, keyword_spec(Directive::PageTitle)) {
        Ok((open_page(st, title_text_spec(trim_spec(line.skip(keyword_spec(Directive::PageTitle).len() as int)))), next))
    } else if has_prefix(line, keyword_spec(Directive::Import)) {
        let path = match second_piece_spec(line, '"') {
            Some(p) => p,
            None => Seq::empty(),
        };
        Ok((CompileState { ast: st.ast.push(EntryV::Import(path)), ..st }, next))
    } else if has_prefix(line, keyword_spec(Directive::Insert)) {
        if find_spec(raw, '{') is Some {
            block_directive(ls, i, st, Directive::Insert, None, block_start(raw))
        } else {
            let ws = words_spec(line);
            if ws.len() > 1 {
                Ok((add_question(st, QuestionV::Insert(join_spec(ws.skip(1)))), next))
            } else {
                Ok((st, next))
            }
        }
    } else if has_prefix(line, keyword_spec(Directive::Choice)) {
        block_directive(ls, i, st, Directive::Choice, choice_id_spec(line), block_start(raw))
    } else if has_prefix(line, keyword_spec(Directive::Html)) {
        block_directive(ls, i, st, Directive::Html, None, block_start(raw))
    } else if has_prefix(line, keyword_spec(Directive::Js)) {
        block_directive(ls, i, st, Directive::Js, None, block_start(raw))
    } else if has_prefix(line, keyword_spec(Directive::Css)) {
        block_directive(ls, i, st, Directive::Css, None, block_start(raw))
    } else {
        Ok((st, next))
    }
}

/// A line's effect moves on by at least that line and not past the end.
pub proof fn lemma_step_advances(ls: Seq<Seq<char>>, i: nat, st: CompileState)
    requires
        i < ls.len(),
    ensures
        step_spec(ls, i, st) matches Ok((_, j)) ==> i < j <= ls.len(),
{
    let raw = ls[i as int];
    let first = block_start(raw);
    let m1 = if first.len() == 0 {
        scan_init()
    } else {
        scan_line(scan_init(), first)
    };
    lemma_scan_lines_bounds(m1, ls, i + 1);
}

/// The lines from index `i` on, from state `st`: the entries, or `Err` when
/// a block is not closed.
pub open spec fn run_spec(ls: Seq<Seq<char>>, i: nat, st: CompileState) -> Result<Seq<EntryV>, ()>
    decreases ls.len() - i,
{
    if i >= ls.len() {
        Ok(finish(st))
    } else {
        match step_spec(ls, i, st) {
            Err(_) => Err(()),
            Ok((st2, j)) => {
                proof {
                    lemma_step_advances(ls, i, st);
                }
                run_spec(ls, j, st2)
            },
        }
    }
}

/// What a questionnaire's lines compile to.
pub open spec fn compile_spec(ls: Seq<Seq<char>>) -> Result<Seq<EntryV>, ()> {
    run_spec(ls, 0, compile_init())
}


/// The title given after a `title` or `@p` keyword (`rest` already trimmed).
pub fn title_text(rest: &Vec<char>) -> (t: Vec<char>)
    ensures
        t@ == title_text_spec(rest@),
{
    if rest.len() > 0 && rest[0] == '"' {
        match second_piece(rest, '"') {
            Some(t) => t,
            None => untitled(),
        }
    } else if rest.len() > 0 {
        slice_of(rest, 0, rest.len())
    } else {
        untitled()
    }
}

/// The identifier of a choice line (trimmed).
pub fn choice_id(line: &Vec<char>) -> (id: Option<Vec<char>>)
    ensures
        id matches Some(v) ==> choice_id_spec(line@) == Some(v@),
        id is None ==> choice_id_spec(line@) is None,
{
    let head = upto(line, '{');
    let ws = split_whitespace(&head);
    if ws.len() >= 2 {
        let w = slice_of(&ws[1], 0, ws[1].len());
        assert(w@ =~= ws@.map_values(|w: Vec<char>| w@)[1]);
        Some(w)
    } else {
        None
    }
}

/// The compiler's executable state; `state` gives it as a `CompileState`.
struct Compiler {
    ast: Vec<Entry>,
    page: Option<(Vec<char>, Vec<Question>)>,
}

impl Compiler {
    spec fn state(&self) -> CompileState {
        CompileState {
            ast: entries_view(self.ast@),
            page: match self.page {
                Some((t, c)) => Some((t@, questions_view(c@))),
                None => None,
            },
        }
    }

    fn push_entry(&mut self, e: Entry)
        ensures
            final(self).state() == (CompileState { ast: old(self).state().ast.push(e@), ..old(self).state() }),
    {
        self.ast.push(e);
        assert(entries_view(self.ast@) =~= entries_view(old(self).ast@).push(e@));
    }

    fn add_question(&mut self, q: Question)
        ensures
            final(self).state() == add_question(old(self).state(), q@),
    {
        match self.page.take() {
            Some((t, c)) => {
                let mut c = c;
                let ghost c0 = c@;
                c.push(q);
                assert(questions_view(c@) =~= questions_view(c0).push(q@));
                self.page = Some((t, c));
            },
            None => {
                let mut c: Vec<Question> = Vec::new();
                c.push(q);
                assert(questions_view(c@) =~= seq![q@]);
                self.page = Some((untitled(), c));
            },
        }
    }

    fn open_page(&mut self, title: Vec<char>)
        ensures
            final(self).state() == open_page(old(self).state(), title@),
    {
        match self.page.take() {
            Some((t, c)) => {
                let u = untitled();
                if crate::text::same_chars(&t, &u) {
                    self.page = Some((title, c));
                } else {
                    self.push_entry(Entry::Page { title: string_of(&t), content: c });
                    let empty: Vec<Question> = Vec::new();
                    assert(questions_view(empty@) =~= Seq::<QuestionV>::empty());
                    self.page = Some((title, empty));
                }
            },
            None => {
                let empty: Vec<Question> = Vec::new();
                assert(questions_view(empty@) =~= Seq::<QuestionV>::empty());
                self.page = Some((title, empty));
            },
        }
    }

    fn finish(self) -> (r: Vec<Entry>)
        ensures
            entries_view(r@) == finish(self.state()),
    {
        let mut c = self;
        match c.page.take() {
            Some((t, q)) => {
                c.push_entry(Entry::Page { title: string_of(&t), content: q });
            },
            None => {},
        }
        c.ast
    }

    /// Reads a block directive's block and adds its question.
    fn block_directive(
        &mut self,
        cur: &mut LineCursor,
        d: Directive,
        id: Option<Vec<char>>,
        first: &Vec<char>,
    ) -> (r: Result<(), BlockError>)
        requires
            old(cur).pos >= 1,
        ensures
            final(cur).lines == old(cur).lines,
            block_directive(
                old(cur).text(),
                (old(cur).pos - 1) as nat,
                old(self).state(),
                d,
                match id {
                    Some(v) => Some(v@),
                    None => None,
                },
                first@,
            ) matches Ok((st, j)) ==> r is Ok && final(self).state() == st && final(cur).pos == j,
            block_directive(
                old(cur).text(),
                (old(cur).pos - 1) as nat,
                old(self).state(),
                d,
                match id {
                    Some(v) => Some(v@),
                    None => None,
                },
                first@,
            ) is Err ==> r is Err,
    {
        let fs = string_of(first);
        match read_brace_block(cur, fs.as_str()) {
            Ok(b) => {
                let q = match d {
                    Directive::Choice => Question::Choose {
                        id: match id {
                            Some(v) => Some(string_of(&v)),
                            None => None,
                        },
                        block: b,
                    },
                    Directive::Html => Question::Html(b),
                    Directive::Js => Question::Js(b),
                    Directive::Css => Question::Css(b),
                    _ => Question::Insert(b),
                };
                self.add_question(q);
                Ok(())
            },
            Err(e) => Err(e),
        }
    }

    /// Carries out one line; the cursor stands after it.
    #[verifier::rlimit(50)]
    fn line(&mut self, cur: &mut LineCursor, raw: Vec<char>) -> (r: Result<(), BlockError>)
        requires
            1 <= old(cur).pos <= old(cur).lines.len(),
            raw@ == old(cur).text()[old(cur).pos - 1],
        ensures
            final(cur).lines == old(cur).lines,
            step_spec(old(cur).text(), (old(cur).pos - 1) as nat, old(self).state()) matches Ok(
                (st, j),
            ) ==> r is Ok && final(self).state() == st && final(cur).pos == j,
            step_spec(old(cur).text(), (old(cur).pos - 1) as nat, old(self).state()) is Err
                ==> r is Err,
    {
        let line = trim(&raw);
        if line.len() == 0 || starts_with(&line, &keyword(Directive::Comment)) {
            return Ok(());
        }
        let kw_title = keyword(Directive::Title);
        if starts_with(&line, &kw_title) {
            let rest = trim(&slice_of(&line, kw_title.len(), line.len()));
            assert(line@.subrange(kw_title.len() as int, line@.len() as int) =~= line@.skip(
                kw_title.len() as int,
            ));
            let t = title_text(&rest);
            self.push_entry(Entry::DocTitle(string_of(&t)));
            return Ok(());
        }
        let kw_page = keyword(Directive::PageTitle);
        if starts_with(&line, &kw_page) {
            let rest = trim(&slice_of(&line, kw_page.len(), line.len()));
            assert(line@.subrange(kw_page.len() as int, line@.len() as int) =~= line@.skip(
                kw_page.len() as int,
            ));
            let t = title_text(&rest);
            self.open_page(t);
            return Ok(());
        }
        if starts_with(&line, &keyword(Directive::Import)) {
            let path = match second_piece(&line, '"') {
                Some(p) => p,
                None => Vec::new(),
            };
            self.push_entry(Entry::Import { path: string_of(&path) });
            return Ok(());
        }
        let open = find_char(&raw, '{');
        let first = match open {
            Some(o) => {
                proof {
                    lemma_find_spec(raw@, '{');
                }
                let f = slice_of(&raw, o + 1, raw.len());
                assert(f@ =~= raw@.skip(o + 1));
                f
            },
            None => Vec::new(),
        };
        assert(first@ =~= block_start(raw@));
        if starts_with(&line, &keyword(Directive::Insert)) {
            if open.is_some() {
                return self.block_directive(cur, Directive::Insert, None, &first);
            }
            let ws = split_whitespace(&line);
            if ws.len() > 1 {
                let text = join_from(&ws, 1);
                self.add_question(Question::Insert(string_of(&text)));
            }
            return Ok(());
        }
        if starts_with(&line, &keyword(Directive::Choice)) {
            let id = choice_id(&line);
            return self.block_directive(cur, Directive::Choice, id, &first);
        }
        if starts_with(&line, &keyword(Directive::Html)) {
            return self.block_directive(cur, Directive::Html, None, &first);
        }
        if starts_with(&line, &keyword(Directive::Js)) {
            return self.block_directive(cur, Directive::Js, None, &first);
        }
        if starts_with(&line, &keyword(Directive::Css)) {
            return self.block_directive(cur, Directive::Css, None, &first);
        }
        Ok(())
    }
}

/// Compiles the lines of a questionnaire source into its entries: document
/// titles and imports as they come, and pages of questions. Questions met
/// before any page title go to an untitled page, which the first page title
/// then names. Fails when a block is not closed before the input ends.
pub fn compile(lines: Vec<String>) -> (res: Result<Vec<Entry>, BlockError>)
    ensures
        res matches Ok(es) ==> compile_spec(lines_text(lines@)) == Ok::<
            Seq<EntryV>,
            (),
        >(entries_view(es@)),
        res is Err ==> compile_spec(lines_text(lines@)) is Err,
        res matches Err(e) ==> e == BlockError::UnterminatedBlock,
{
    let mut cur = LineCursor::new(lines);
    let ghost ls = cur.text();
    let mut c = Compiler { ast: Vec::new(), page: None };
    assert(c.state().ast =~= Seq::<EntryV>::empty());
    let mut failed = false;
    loop
        invariant_except_break
            cur.pos <= cur.lines.len(),
            !failed,
            run_spec(ls, cur.pos as nat, c.state()) == compile_spec(ls),
        invariant
            ls == cur.text(),
        ensures
            failed ==> compile_spec(ls) is Err,
            !failed ==> cur.pos == cur.lines.len() && run_spec(ls, cur.pos as nat, c.state())
                == compile_spec(ls),
        decreases cur.lines.len() - cur.pos,
    {
        match cur.next_line() {
            Some(raw) => {
                let ghost before = c.state();
                let ghost i = (cur.pos - 1) as nat;
                match c.line(&mut cur, raw) {
                    Ok(()) => {
                        proof {
                            lemma_step_advances(ls, i, before);
                        }
                    },
                    Err(_) => {
                        assert(step_spec(ls, i, before) is Err);
                        failed = true;
                        break;
                    },
                }
            },
            None => {
                break;
            },
        }
    }
    if failed {
        return Err(BlockError::UnterminatedBlock);
    }
    Ok(c.finish())
}

} // verus!
