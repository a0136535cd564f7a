use sqe_core::idle::{core_report, preview_outcome, is_html_extension, EntryKind, HtmlSearch, ListingEntry, LiveMode};

#[test]
fn live_mode_toggles() {
    let mut m = LiveMode::new();
    assert!(!m.runs_on_change());
    let t = m.toggle();
    assert_eq!(t.label, "Live: ON");
    assert!(t.run_now);
    assert!(m.runs_on_change());
    let t = m.toggle();
    assert_eq!(t.label, "Live: OFF");
    assert!(!t.run_now);
    assert!(!m.runs_on_change());
}

#[test]
fn html_extensions() {
    for e in ["html", "HTML", "Htm", "htm"] {
        assert!(is_html_extension(e), "{}", e);
    }
    for e in ["", "xhtml", "ht", "html5", "htmł", "txt"] {
        assert!(!is_html_extension(e), "{}", e);
    }
}

fn entry(id: usize, kind: EntryKind, ext: Option<&str>) -> ListingEntry {
    ListingEntry { id, kind, extension: ext.map(|s| s.to_string()) }
}

#[test]
fn search_finds_first_html_and_keeps_directories() {
    let mut s = HtmlSearch::new(0);
    assert_eq!(s.next_dir(), Some(0));
    let listing = vec![
        entry(1, EntryKind::Dir, None),
        entry(2, EntryKind::File, Some("css")),
        entry(3, EntryKind::Dir, None),
        entry(4, EntryKind::File, Some("HTM")),
        entry(5, EntryKind::Dir, None),
    ];
    assert_eq!(s.visit(&listing), Some(4));
    assert_eq!(s.stack, vec![1, 3]);
}

#[test]
fn search_without_html_keeps_all_directories() {
    let mut s = HtmlSearch::new(7);
    assert_eq!(s.next_dir(), Some(7));
    let listing = vec![
        entry(1, EntryKind::Dir, None),
        entry(2, EntryKind::Other, Some("html")),
        entry(3, EntryKind::Dir, Some("html")),
    ];
    assert_eq!(s.visit(&listing), None);
    assert_eq!(s.next_dir(), Some(3));
    assert_eq!(s.next_dir(), Some(1));
    assert_eq!(s.next_dir(), None);
}

#[test]
fn report_on_success_and_failure() {
    let r = core_report("exit status: 0", true, "Parsed AST", "");
    assert!(r.look_for_html);
    assert_eq!(r.messages, vec!["> sqe-core exited with exit status: 0".to_string(), "Parsed AST".to_string()]);
    let r = core_report("exit status: 1", false, "", "boom");
    assert!(!r.look_for_html);
    assert_eq!(
        r.messages,
        vec![
            "> sqe-core exited with exit status: 1".to_string(),
            "boom".to_string(),
            "sqe-core failed".to_string()
        ]
    );
}

#[test]
fn live_mode_after_many_presses() {
    let mut m = LiveMode::new();
    for n in 1..=7u32 {
        let t = m.toggle();
        assert_eq!(m.runs_on_change(), n % 2 == 1);
        assert_eq!(t.run_now, n % 2 == 1);
        assert_eq!(t.label, if n % 2 == 1 { "Live: ON" } else { "Live: OFF" });
    }
}

#[test]
fn preview_after_run() {
    let r = preview_outcome(true, Some("/tmp/x/index.html".to_string()));
    assert_eq!(r.message, None);
    assert_eq!(r.preview, Some("/tmp/x/index.html".to_string()));
    let r = preview_outcome(true, None);
    assert_eq!(r.message, Some("No HTML output found".to_string()));
    assert_eq!(r.preview, None);
    let r = preview_outcome(false, None);
    assert_eq!(r.message, None);
    assert_eq!(r.preview, None);
}
