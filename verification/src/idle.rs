use vstd::prelude::*;

use crate::text::{chars_of, string_of};
use vstd::string::*;

verus! {

/// The editor's live-preview switch: when on, every change of the text
/// compiles it again. It also counts (as ghost state) how often its button
/// has been pressed.
pub struct LiveMode {
    on: bool,
    presses: Ghost<nat>,
}

/// The caption of the live-preview button.
pub open spec fn live_label_spec(on: bool) -> Seq<char> {
    if on {
        seq!['L', 'i', 'v', 'e', ':', ' ', 'O', 'N']
    } else {
        seq!['L', 'i', 'v', 'e', ':', ' ', 'O', 'F', 'F']
    }
}

/// The caption of the live-preview button.
pub fn live_label(on: bool) -> (s: String)
    ensures
        s@ == live_label_spec(on),
{
    let v = if on {
        vec!['L', 'i', 'v', 'e', ':', ' ', 'O', 'N']
    } else {
        vec!['L', 'i', 'v', 'e', ':', ' ', 'O', 'F', 'F']
    };
    assert(v@ =~= live_label_spec(on));
    string_of(&v)
}

/// What a press of the live-preview button leads to: the button's new caption,
/// and whether to compile at once.
pub struct LiveToggle {
    pub label: String,
    pub run_now: bool,
}

impl LiveMode {
    /// The switch is as many presses of the button have left it.
    #[verifier::type_invariant]
    spec fn inv(self) -> bool {
        self.on == on_after_presses(false, self.presses@)
    }

    /// Whether live preview is on.
    pub closed spec fn is_on(&self) -> bool {
        self.on
    }

    /// How often the button has been pressed since `new`.
    pub closed spec fn presses(&self) -> nat {
        self.presses@
    }

    /// Live preview starts off, with no press yet.
    pub fn new() -> (m: LiveMode)
        ensures
            !m.is_on(),
            m.presses() == 0,
    {
        LiveMode { on: false, presses: Ghost(0) }
    }

    /// A press of the button: the switch flips, so it is on exactly after an
    /// odd number of presses; switching on compiles at once, and the caption
    /// follows the switch.
    pub fn toggle(&mut self) -> (t: LiveToggle)
        ensures
            final(self).presses() == old(self).presses() + 1,
            final(self).is_on() == !old(self).is_on(),
            final(self).is_on() == (final(self).presses() % 2 == 1),
            t.run_now == final(self).is_on(),
            t.label@ == live_label_spec(final(self).is_on()),
    {
        proof {
            use_type_invariant(&*self);
            law_live_after_presses(self.presses@ + 1);
        }
        let on = !self.on;
        *self = LiveMode { on, presses: Ghost(self.presses@ + 1) };
        LiveToggle { label: live_label(on), run_now: on }
    }

    /// Whether a change of the text compiles it again: exactly when live
    /// preview is on, which is after an odd number of presses.
    pub fn runs_on_change(&self) -> (b: bool)
        ensures
            b == self.is_on(),
            b == (self.presses() % 2 == 1),
    {
        proof {
            use_type_invariant(self);
            law_live_after_presses(self.presses@);
        }
        self.on
    }
}

/// Whether live preview is on after `n` presses of its button, starting from
/// `on`: each press flips it (`LiveMode::toggle`).
pub open spec fn on_after_presses(on: bool, n: nat) -> bool
    decreases n,
{
    if n == 0 {
        on
    } else {
        !on_after_presses(on, (n - 1) as nat)
    }
}

/// From the state `LiveMode::new` gives (off), live preview is on after `n`
/// presses exactly when `n` is odd; the button then reads "Live: ON", and the
/// `n`-th press compiles at once, else it reads "Live: OFF" and that press
/// does not compile.
pub proof fn law_live_after_presses(n: nat)
    ensures
        on_after_presses(false, n) == (n % 2 == 1),
        live_label_spec(on_after_presses(false, n)) == (if n % 2 == 1 {
            seq!['L', 'i', 'v', 'e', ':', ' ', 'O', 'N']
        } else {
            seq!['L', 'i', 'v', 'e', ':', ' ', 'O', 'F', 'F']
        }),
    decreases n,
{
    if n > 0 {
        law_live_after_presses((n - 1) as nat);
    }
}

/// The terminal lines after a run, whatever its exit status: first the exit
/// line; then what the compiler printed to standard output and to standard
/// error, each exactly as printed and each only when there is any; then
/// "sqe-core failed" exactly when the run did not succeed.
pub proof fn law_core_report_lines(status: Seq<char>, success: bool, stdout: Seq<char>, stderr: Seq<char>)
    ensures
        core_messages_spec(status, success, stdout, stderr).len() == 1 + (if stdout.len() > 0 {
            1int
        } else {
            0int
        }) + (if stderr.len() > 0 {
            1int
        } else {
            0int
        }) + (if success {
            0int
        } else {
            1int
        }),
        core_messages_spec(status, success, stdout, stderr)[0] == "> sqe-core exited with "@ + status,
        stdout.len() > 0 ==> core_messages_spec(status, success, stdout, stderr)[1] == stdout,
        stderr.len() > 0 ==> core_messages_spec(status, success, stdout, stderr)[if stdout.len() > 0 {
            2int
        } else {
            1int
        }] == stderr,
        !success ==> core_messages_spec(status, success, stdout, stderr).last() == "sqe-core failed"@,
{
}

/// What the editor does once a run is over and, after a successful run, the
/// output directory has been searched (`found` is the page found, if any):
/// a last terminal line, and the page to preview.
pub struct PreviewOutcome {
    pub message: Option<String>,
    pub preview: Option<String>,
}

/// After a successful run (`look_for_html`, as `core_report` gives it) the
/// page found is previewed; when none was found the terminal reads "No HTML
/// output found" and nothing is previewed. After a failed run nothing more is
/// shown and nothing is previewed.
pub fn preview_outcome(look_for_html: bool, found: Option<String>) -> (r: PreviewOutcome)
    ensures
        r.preview == (if look_for_html { found } else { None }),
        look_for_html && found is None ==> (r.message matches Some(m) && m@ == "No HTML output found"@),
        !(look_for_html && found is None) ==> r.message is None,
{
    if !look_for_html {
        return PreviewOutcome { message: None, preview: None };
    }
    match found {
        Some(p) => PreviewOutcome { message: None, preview: Some(p) },
        None => PreviewOutcome {
            message: Some(String::from_str("No HTML output found")),
            preview: None,
        },
    }
}

/// `c` equals the lower-case ASCII letter or character `lower` when ASCII
/// letters are taken without regard to case.
pub open spec fn ascii_ci_char_eq(c: char, lower: char) -> bool {
    c == lower || ('a' <= lower && lower <= 'z' && c as u32 == lower as u32 - 32)
}

/// `s` equals `lower` (which is written in lower case) ignoring ASCII case, as
/// `eq_ignore_ascii_case` compares.
pub open spec fn ascii_ci_eq(s: Seq<char>, lower: Seq<char>) -> bool {
    s.len() == lower.len() && forall|i: int| 0 <= i < s.len() ==> ascii_ci_char_eq(s[i], lower[i])
}

/// A file extension that marks an HTML page: `html` or `htm`, in any case.
pub open spec fn is_html_ext_spec(ext: Seq<char>) -> bool {
    ascii_ci_eq(ext, seq!['h', 't', 'm', 'l']) || ascii_ci_eq(ext, seq!['h', 't', 'm'])
}

fn ascii_ci_eq_exec(s: &Vec<char>, lower: &Vec<char>) -> (r: bool)
    ensures
        r == ascii_ci_eq(s@, lower@),
{
    if s.len() != lower.len() {
        return false;
    }
    let mut i: usize = 0;
    while i < s.len()
        invariant
            s.len() == lower.len(),
            i <= s.len(),
            forall|j: int| 0 <= j < i ==> ascii_ci_char_eq(s@[j], lower@[j]),
        decreases s.len() - i,
    {
        let c = s[i];
        let l = lower[i];
        let same = c == l || ('a' <= l && l <= 'z' && (c as u32) == (l as u32) - 32);
        if !same {
            return false;
        }
        i += 1;
    }
    true
}

/// Whether a file extension marks an HTML page.
pub fn is_html_extension(ext: &str) -> (b: bool)
    ensures
        b == is_html_ext_spec(ext@),
{
    let e = chars_of(ext);
    let html = vec!['h', 't', 'm', 'l'];
    let htm = vec!['h', 't', 'm'];
    assert(html@ =~= seq!['h', 't', 'm', 'l']);
    assert(htm@ =~= seq!['h', 't', 'm']);
    ascii_ci_eq_exec(&e, &html) || ascii_ci_eq_exec(&e, &htm)
}

/// What kind of thing a directory entry is.
#[derive(Debug, Clone, Copy, PartialEq, Eq, Structural)]
pub enum EntryKind {
    File,
    Dir,
    Other,
}

/// A directory entry as the search needs it: a number by which the caller
/// finds its path again, its kind, and its file extension, if it has one.
pub struct ListingEntry {
    pub id: usize,
    pub kind: EntryKind,
    pub extension: Option<String>,
}

/// The entry is an HTML file.
pub open spec fn is_html_file(e: ListingEntry) -> bool {
    e.kind == EntryKind::File && (e.extension matches Some(x) && is_html_ext_spec(x@))
}

/// The index of the first HTML file in a listing.
pub open spec fn first_html(es: Seq<ListingEntry>) -> Option<int>
    decreases es.len(),
{
    if es.len() == 0 {
        None
    } else if is_html_file(es[0]) {
        Some(0)
    } else {
        match first_html(es.drop_first()) {
            Some(i) => Some(i + 1),
            None => None,
        }
    }
}

/// The ids of the directories in a listing, in order.
pub open spec fn dir_ids(es: Seq<ListingEntry>) -> Seq<usize>
    decreases es.len(),
{
    if es.len() == 0 {
        Seq::empty()
    } else if es.last().kind == EntryKind::Dir {
        dir_ids(es.drop_last()).push(es.last().id)
    } else {
        dir_ids(es.drop_last())
    }
}

/// A depth-first search for the first HTML file under a directory. The
/// caller lists the directories that `next_dir` hands out and shows each
/// listing to `visit`; directories are numbered by the caller.
pub struct HtmlSearch {
    pub stack: Vec<usize>,
}

impl HtmlSearch {
    /// A search that starts at the directory numbered `root`.
    pub fn new(root: usize) -> (s: HtmlSearch)
        ensures
            s.stack@ == seq![root],
    {
        let mut stack: Vec<usize> = Vec::new();
        stack.push(root);
        HtmlSearch { stack }
    }

    /// The directory to list next: the one found last that is not listed yet.
    pub fn next_dir(&mut self) -> (d: Option<usize>)
        ensures
            old(self).stack@.len() == 0 ==> (d is None && final(self).stack@ == old(self).stack@),
            old(self).stack@.len() > 0 ==> (d == Some(old(self).stack@.last()) && final(self).stack@ == old(self).stack@.drop_last()),
    {
        self.stack.pop()
    }

    /// A directory's listing: the first HTML file in it, if any. The
    /// directories listed before that file (all of them, when there is none)
    /// are kept to be searched later.
    pub fn visit(&mut self, entries: &Vec<ListingEntry>) -> (hit: Option<usize>)
        ensures
            first_html(entries@) matches Some(k) ==> (hit == Some(entries@[k].id) && final(self).stack@ == old(self).stack@ + dir_ids(entries@.take(k))),
            first_html(entries@) is None ==> (hit is None && final(self).stack@ == old(self).stack@ + dir_ids(entries@)),
    {
        let ghost es = entries@;
        proof {
            lemma_first_html(es);
        }
        let mut i: usize = 0;
        assert(es.take(0) =~= Seq::<ListingEntry>::empty());
        while i < entries.len()
            invariant
                es == entries@,
                i <= entries.len(),
                forall|j: int| 0 <= j < i ==> !is_html_file(es[j]),
                self.stack@ == old(self).stack@ + dir_ids(es.take(i as int)),
                first_html(es) matches Some(k) ==> (0 <= k < es.len() && is_html_file(es[k])
                    && forall|j: int| 0 <= j < k ==> !is_html_file(es[j])),
                first_html(es) is None ==> forall|j: int| 0 <= j < es.len() ==> !is_html_file(es[j]),
            decreases entries.len() - i,
        {
            let e = &entries[i];
            let html = match &e.extension {
                Some(x) => is_html_extension(x.as_str()),
                None => false,
            };
            if e.kind == EntryKind::File && html {
                proof {
                    if let Some(k) = first_html(es) {
                        if k > i {
                            assert(!is_html_file(es[i as int]));
                        }
                        if k < i {
                            assert(!is_html_file(es[k]));
                        }
                    }
                }
                return Some(e.id);
            }
            assert(es.take(i + 1).drop_last() =~= es.take(i as int));
            if e.kind == EntryKind::Dir {
                self.stack.push(e.id);
            }
            i += 1;
        }
        proof {
            if let Some(k) = first_html(es) {
                assert(is_html_file(es[k]));
            }
        }
        assert(es.take(es.len() as int) =~= es);
        None
    }
}

/// `first_html` gives the first HTML file, or `None` when there is none.
pub proof fn lemma_first_html(es: Seq<ListingEntry>)
    ensures
        first_html(es) matches Some(k) ==> (0 <= k < es.len() && is_html_file(es[k]) && forall|j: int|
            0 <= j < k ==> !is_html_file(es[j])),
        first_html(es) is None ==> forall|j: int| 0 <= j < es.len() ==> !is_html_file(es[j]),
    decreases es.len(),
{
    if es.len() > 0 && !is_html_file(es[0]) {
        lemma_first_html(es.drop_first());
        assert forall|j: int| 1 <= j < es.len() implies es[j] == es.drop_first()[j - 1] by {}
    }
}


/// The lines the editor's terminal shows after a run of the compiler: its
/// exit status, then what it printed to standard output and to standard
/// error (each only when there is any), then a failure notice when the run
/// did not succeed.
pub open spec fn core_messages_spec(status: Seq<char>, success: bool, stdout: Seq<char>, stderr: Seq<char>) -> Seq<Seq<char>> {
    seq!["> sqe-core exited with "@ + status]
        + (if stdout.len() > 0 { seq![stdout] } else { Seq::empty() })
        + (if stderr.len() > 0 { seq![stderr] } else { Seq::empty() })
        + (if success { Seq::empty() } else { seq!["sqe-core failed"@] })
}

/// What the editor does after a run of the compiler: the terminal lines,
/// and whether to look for the HTML page to preview (only after a
/// successful run).
pub struct CoreReport {
    pub messages: Vec<String>,
    pub look_for_html: bool,
}

/// The report on a finished run of the compiler, given its exit status as
/// text, whether it succeeded, and what it printed.
pub fn core_report(status: &str, success: bool, stdout: &str, stderr: &str) -> (r: CoreReport)
    ensures
        r.look_for_html == success,
        r.messages@.map_values(|m: String| m@) == core_messages_spec(status@, success, stdout@, stderr@),
{
    let mut messages: Vec<String> = Vec::new();
    let mut first = String::from_str("> sqe-core exited with ");
    first.append(status);
    messages.push(first);
    let ghost m1 = messages@.map_values(|m: String| m@);
    if !stdout.is_empty() {
        messages.push(String::from_str(stdout));
    }
    let ghost m2 = messages@.map_values(|m: String| m@);
    if !stderr.is_empty() {
        messages.push(String::from_str(stderr));
    }
    let ghost m3 = messages@.map_values(|m: String| m@);
    if !success {
        messages.push(String::from_str("sqe-core failed"));
    }
    assert(messages@.map_values(|m: String| m@) =~= core_messages_spec(status@, success, stdout@, stderr@));
    CoreReport { messages, look_for_html: success }
}

} // verus!
