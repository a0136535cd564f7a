use sqe_core::block::BlockError;
use sqe_core::compile::{compile, Entry, Question};

fn lines(text: &str) -> Vec<String> {
    text.lines().map(|l| l.to_string()).collect()
}

fn s(x: &str) -> String {
    x.to_string()
}

#[test]
fn compile_full_questionnaire() {
    let src = r#"
// a comment
title "Survey 2024" extra
import "style.css"
@p "Page One"
choice q1 {
  a) yes
  b) no
}
insert Your name please
html { <b>bold</b> }
@p Page Two
js {
  let x = "}";
}
css {
p { color: red; }
}
"#;
    let ast = compile(lines(src)).unwrap();
    assert_eq!(
        ast,
        vec![
            Entry::DocTitle(s("Survey 2024")),
            Entry::Import { path: s("style.css") },
            Entry::Page {
                title: s("Page One"),
                content: vec![
                    Question::Choose { id: Some(s("q1")), block: s("  a) yes\n  b) no\n") },
                    Question::Insert(s("Your name please")),
                    Question::Html(s(" <b>bold</b> ")),
                ],
            },
            Entry::Page {
                title: s("Page Two"),
                content: vec![
                    Question::Js(s("  let x = \"}\";\n")),
                    Question::Css(s("p { color: red; }\n")),
                ],
            },
        ]
    );
}

#[test]
fn compile_questions_before_page_title_are_adopted() {
    let ast = compile(lines("insert hello   world\n@p First\ninsert again")).unwrap();
    assert_eq!(
        ast,
        vec![Entry::Page {
            title: s("First"),
            content: vec![Question::Insert(s("hello world")), Question::Insert(s("again"))],
        }]
    );
}

#[test]
fn compile_title_does_not_touch_page() {
    let ast = compile(lines("@p A\ninsert x\ntitle Doc\ninsert y")).unwrap();
    assert_eq!(
        ast,
        vec![
            Entry::DocTitle(s("Doc")),
            Entry::Page { title: s("A"), content: vec![Question::Insert(s("x")), Question::Insert(s("y"))] },
        ]
    );
}

#[test]
fn compile_empty_titles_become_untitled() {
    let ast = compile(lines("title\n@p\n@p Next")).unwrap();
    assert_eq!(
        ast,
        vec![Entry::DocTitle(s("untitled")), Entry::Page { title: s("Next"), content: vec![] }]
    );
}

#[test]
fn compile_page_titles_close_pages() {
    let ast = compile(lines("@p A\n@p B\n@p \"C D\" ignored")).unwrap();
    assert_eq!(
        ast,
        vec![
            Entry::Page { title: s("A"), content: vec![] },
            Entry::Page { title: s("B"), content: vec![] },
            Entry::Page { title: s("C D"), content: vec![] },
        ]
    );
}

#[test]
fn compile_import_without_quotes_has_empty_path() {
    assert_eq!(compile(lines("import x")).unwrap(), vec![Entry::Import { path: s("") }]);
    assert_eq!(compile(lines("import \"a")).unwrap(), vec![Entry::Import { path: s("a") }]);
}

#[test]
fn compile_insert_single_word_is_dropped() {
    assert_eq!(compile(lines("insert")).unwrap(), vec![]);
    assert_eq!(compile(lines("insert   ")).unwrap(), vec![]);
}

#[test]
fn compile_block_on_following_lines() {
    let ast = compile(lines("choice\n{\nA\n}\nhtml\nX }")).unwrap();
    assert_eq!(
        ast,
        vec![Entry::Page {
            title: s("untitled"),
            content: vec![Question::Choose { id: None, block: s("{\nA\n}\nhtml\nX ") }],
        }]
    );
}

#[test]
fn compile_unterminated_block_fails() {
    assert_eq!(compile(lines("@p A\nhtml {\n<p>")), Err(BlockError::UnterminatedBlock));
}

#[test]
fn compile_quiet_input_is_empty() {
    assert_eq!(compile(lines("\n   \n// x\nnothing here\n\t// y")).unwrap(), vec![]);
    assert_eq!(compile(vec![]).unwrap(), vec![]);
}

#[test]
fn compile_untitled_page_title_is_placeholder_again() {
    let ast = compile(lines("@p untitled\ninsert a b\n@p Real")).unwrap();
    assert_eq!(
        ast,
        vec![Entry::Page { title: s("Real"), content: vec![Question::Insert(s("a b"))] }]
    );
}

#[test]
fn compile_keywords_match_as_prefixes() {
    let ast = compile(lines("titles \"T\"\njsx { a }")).unwrap();
    assert_eq!(
        ast,
        vec![
            Entry::DocTitle(s("s \"T\"")),
            Entry::Page { title: s("untitled"), content: vec![Question::Js(s(" a "))] },
        ]
    );
}

#[test]
fn compile_quiet_lines_inserted_between_directives_change_nothing() {
    let base = "title T\n@p A\nchoice q {\n  x\n}\ninsert a b\nhtml {\n<p>\n}";
    let quiet = "title T\n\n// note\n@p A\nremark here\nchoice q {\n  x\n}\n   \ninsert a b\n// end\nhtml {\n<p>\n}\n\n";
    assert_eq!(compile(lines(base)), compile(lines(quiet)));
    assert_eq!(compile(lines("// c\n\nfoo bar")).unwrap(), vec![]);
}
