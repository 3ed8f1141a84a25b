use phlex_emmet_ls::lsp::{
    capabilities, completion_handler, completion_item, CompletionItemKind, text_edit, Position, Range, TextDocumentSyncKind,
};
use phlex_emmet_ls::parser::{multipliers_in_range, parse, ParseError};
use phlex_emmet_ls::rendering::Renderer;
use phlex_emmet_ls::types::{from_tag, EmmetNode};
use phlex_emmet_ls::utils::{abbreviation_in_line, extract_abbreviation, try_extract_abbreviation};
use ropey::Rope;

fn render(abbr: &str) -> String {
    parse(abbr).unwrap().render()
}

#[test]
fn empty_abbreviation_is_a_div() {
    assert_eq!(parse("").unwrap(), EmmetNode::from_tag("div"));
}

fn error_of(abbr: &str) -> ParseError {
    parse(abbr).unwrap_err()
}

fn err(line: usize, column: usize, expected: &[&str]) -> ParseError {
    ParseError { line, column, expected: expected.iter().map(|t| t.to_string()).collect() }
}

#[test]
fn refused_abbreviations_report_the_furthest_failure() {
    assert_eq!(error_of("div#"), err(1, 5, &["identifier"]));
    assert_eq!(error_of("a>b#"), err(1, 5, &["identifier"]));
    assert_eq!(error_of("div."), err(1, 5, &["identifier"]));
    assert_eq!(error_of("div{abc"), err(1, 8, &["\"}\"", "[^'}']"]));
    assert_eq!(error_of("{"), err(1, 2, &["\"}\"", "[^'}']"]));
    assert_eq!(error_of("div*"), err(1, 5, &["['0'..='9']"]));
    assert_eq!(
        error_of("div.a#b"),
        err(1, 6, &["\"*\"", "\"+\"", "\".\"", "\">\"", "\"{\"", "EOF"])
    );
    assert_eq!(error_of("li*3x"), err(1, 5, &["\"+\"", "\">\"", "EOF", "['0'..='9']"]));
    assert_eq!(error_of("p{x}y#"), err(1, 5, &["\"*\"", "\"+\"", "\">\"", "EOF"]));
    assert_eq!(error_of("a\nb#"), err(2, 3, &["identifier"]));
    assert_eq!(error_of("é#"), err(1, 3, &["identifier"]));
}

#[test]
fn implicit_div_takes_a_multiplier() {
    let mut expected = EmmetNode::from_tag("div");
    expected.multiplier = 3;
    assert_eq!(parse("*3").unwrap(), expected);
}

#[test]
fn identifiers_take_every_other_character() {
    let mut expected = EmmetNode::from_tag("my tag}9");
    expected.classes = vec!["a b".to_string()];
    assert_eq!(parse("my tag}9.a b").unwrap(), expected);
}

#[test]
fn text_may_hold_operators_and_braces() {
    let mut expected = EmmetNode::from_tag("p");
    expected.text = Some("a>b+{c".to_string());
    assert_eq!(parse("p{a>b+{c}").unwrap(), expected);
}

#[test]
fn multiplier_reads_decimal_digits() {
    assert_eq!(parse("li*007").unwrap().multiplier, 7);
    assert_eq!(parse("li*0").unwrap().multiplier, 0);
    assert_eq!(parse("li*18446744073709551615").unwrap().multiplier, usize::MAX);
}

#[test]
fn oversized_multipliers_are_detected() {
    assert!(multipliers_in_range("ul>li*3"));
    assert!(!multipliers_in_range("li*99999999999999999999999"));
    assert!(!multipliers_in_range("ul>li*18446744073709551616 x"));
}

#[test]
fn full_order_of_attributes() {
    let expected = from_tag("a")
        .add(None, None, None, None, Some("i"), Some("t"), Some("c1"))
        .add(None, None, None, None, None, None, Some("c2"));
    let mut expected = expected;
    expected.multiplier = 2;
    assert_eq!(parse("a#i.c1.c2{t}*2").unwrap(), expected);
}

#[test]
fn law_child_on_values() {
    let inner = parse("ul>li").unwrap();
    let expected = from_tag("nav").add_child(inner);
    assert_eq!(parse("nav>ul>li").unwrap(), expected);
    assert!(parse("nav>ul#").is_err());
}

#[test]
fn law_sibling_on_values() {
    let rest = parse("p>span").unwrap();
    let expected = from_tag("h1").add_sibling(rest);
    assert_eq!(parse("h1+p>span").unwrap(), expected);
}

#[test]
fn builder_appends_in_order() {
    let mut n = EmmetNode::new("ul", Some("x".to_string()), Some(vec!["k".to_string()]), None, None);
    let copy = n.add(
        Some(from_tag("li")),
        Some(from_tag("p")),
        Some("a"),
        Some("b"),
        None,
        None,
        Some("m"),
    );
    assert_eq!(copy, n);
    assert_eq!(n.tag, "ul");
    assert_eq!(n.id, Some("x".to_string()));
    assert_eq!(n.classes, vec!["k".to_string(), "m".to_string()]);
    assert_eq!(n.children, vec![from_tag("li"), from_tag("a")]);
    assert_eq!(n.siblings, vec![from_tag("p"), from_tag("b")]);
    assert_eq!(n.multiplier, 1);
    assert_eq!(n.text, None);
}

#[test]
fn render_bare_element() {
    assert_eq!(render("div"), "div {  }\n");
}

#[test]
fn render_classes_and_id() {
    assert_eq!(render("div.a.b"), "div(class: 'a b') {  }\n");
    assert_eq!(render("div#x"), "div(id: 'x') {  }\n");
}

#[test]
fn render_class_and_id_together() {
    assert_eq!(render("div#b.a"), "div(class: 'a', id: 'b') {  }\n");
    assert_eq!(render("div#b.a.c"), "div(class: 'a c', id: 'b') {  }\n");
}

#[test]
fn render_children_and_siblings() {
    assert_eq!(render("div+p"), "div {  }\np {  }\n");
    assert_eq!(render("ul>li"), "ul { li {  }\n }\n");
}

#[test]
fn render_multiplied() {
    assert_eq!(render("ul>li*3"), "ul { li {  }\n\nli {  }\n\nli {  }\n }\n");
    assert_eq!(render("li*0"), "");
    assert_eq!(render("li*2"), format!("{}\n{}", render("li"), render("li")));
}

#[test]
fn render_puts_text_in_braces() {
    assert_eq!(render("p{Hello World}"), "p { \"Hello World\" }\n");
    assert_eq!(render("p{}"), "p { \"\" }\n");
    assert_eq!(render("p.x{Hi}>span"), "p(class: 'x') { \"Hi\"\nspan {  }\n }\n");
    assert_eq!(render("p{Hi}*2"), "p { \"Hi\" }\n\np { \"Hi\" }\n");
}

#[test]
fn capabilities_announce_trigger_characters() {
    let c = capabilities();
    assert_eq!(c.text_document_sync, TextDocumentSyncKind::Full);
    assert_eq!(c.trigger_characters.len(), 57);
    assert_eq!(c.trigger_characters[0], "a");
    assert_eq!(c.trigger_characters[25], "z");
    assert_eq!(c.trigger_characters[26], "A");
    assert_eq!(c.trigger_characters[51], "Z");
    assert_eq!(&c.trigger_characters[52..], &[">", ".", "+", "*", "#"]);
}

#[test]
fn text_edit_spans_the_abbreviation() {
    let e = text_edit("ul>li", "X".to_string(), Position { line: 4, character: 9 });
    assert_eq!(
        e.range,
        Range { start: Position { line: 4, character: 4 }, end: Position { line: 4, character: 9 } }
    );
    assert_eq!(e.new_text, "X");
    let item = completion_item("ul>li", e);
    assert_eq!(item.label, "ul>li");
    assert_eq!(item.kind, CompletionItemKind::Snippet);
    assert_eq!(item.detail, Some("X".to_string()));
    assert_eq!(item.text_edit.new_text, "X");
}

#[test]
fn completion_for_an_abbreviation() {
    let item = completion_handler("ul>li*2", Position { line: 0, character: 9 }).unwrap();
    assert_eq!(item.label, "ul>li*2");
    assert_eq!(item.text_edit.new_text, "ul { li {  }\n\nli {  }\n }\n");
    assert_eq!(item.detail, Some(item.text_edit.new_text.clone()));
    assert_eq!(item.text_edit.range.start, Position { line: 0, character: 2 });
    assert_eq!(item.text_edit.range.end, Position { line: 0, character: 9 });
}

#[test]
fn no_completion_for_a_refused_abbreviation() {
    assert_eq!(completion_handler("div#", Position { line: 0, character: 4 }), None);
}

#[test]
fn abbreviation_follows_the_last_boundary() {
    assert_eq!(abbreviation_in_line("  div {ul>li", 12), "ul>li");
    assert_eq!(abbreviation_in_line("\tp.a b", 6), "b");
    assert_eq!(abbreviation_in_line("ul>li", 5), "ul>li");
    assert_eq!(abbreviation_in_line("ul>li more", 5), "ul>li");
    assert_eq!(abbreviation_in_line("x ", 2), "");
    assert_eq!(abbreviation_in_line("é ul", 5), "ul");
}

#[test]
fn extract_from_a_document() {
    let doc = Rope::from_str("first line\n  ul>li\r\nlast");
    let p = Position { line: 1, character: 7 };
    assert_eq!(extract_abbreviation(&doc, p), "ul>li");
    assert_eq!(try_extract_abbreviation(&doc, p), Some("ul>li".to_string()));
    assert_eq!(try_extract_abbreviation(&doc, Position { line: 2, character: 4 }), Some("last".to_string()));
    assert_eq!(try_extract_abbreviation(&doc, Position { line: 0, character: 5 }), Some("first".to_string()));
}

#[test]
fn extract_refuses_what_is_not_in_the_document() {
    let doc = Rope::from_str("é\nab");
    assert_eq!(try_extract_abbreviation(&doc, Position { line: 2, character: 0 }), None);
    assert_eq!(try_extract_abbreviation(&doc, Position { line: 1, character: 3 }), None);
    assert_eq!(try_extract_abbreviation(&doc, Position { line: 0, character: 1 }), None);
    assert_eq!(try_extract_abbreviation(&doc, Position { line: 0, character: 2 }), Some("é".to_string()));
}

#[test]
fn lines_end_at_every_kind_of_break() {
    let doc = Rope::from_str("a\rb\u{2028}c\r\nd");
    assert_eq!(try_extract_abbreviation(&doc, Position { line: 1, character: 1 }), Some("b".to_string()));
    assert_eq!(try_extract_abbreviation(&doc, Position { line: 2, character: 1 }), Some("c".to_string()));
    assert_eq!(try_extract_abbreviation(&doc, Position { line: 3, character: 1 }), Some("d".to_string()));
    assert_eq!(try_extract_abbreviation(&doc, Position { line: 4, character: 0 }), None);
}

#[test]
fn clone_copies_the_whole_tree() {
    let n = parse("ul#a.b{t}*2>li+p").unwrap();
    let c = n.clone();
    assert_eq!(c, n);
    assert_eq!(c.render(), n.render());
}

#[test]
fn render_laws_on_values() {
    assert_eq!(render("nav>ul>li*2"), format!("nav {{ {} }}\n", render("ul>li*2")));
    assert_eq!(render("h1+p.x"), format!("h1 {{  }}\n{}", render("p.x")));
    assert_eq!(render("li*3"), format!("{}\n{}", render("li*2"), render("li")));
}

#[test]
fn one_child_and_one_sibling_per_element() {
    let n = parse("a>b>c+d+e").unwrap();
    assert_eq!(n.children.len(), 1);
    assert_eq!(n.siblings.len(), 0);
    assert_eq!(n.children[0].children.len(), 1);
    assert_eq!(n.children[0].children[0].siblings.len(), 1);
    assert_eq!(n.children[0].children[0].siblings[0].siblings.len(), 1);
    let m = parse("a+b>c").unwrap();
    assert_eq!((m.children.len(), m.siblings.len()), (0, 1));
    assert_eq!((m.siblings[0].children.len(), m.siblings[0].siblings.len()), (1, 0));
}

#[test]
fn parse_error_message_reads_like_the_grammar_report() {
    assert_eq!(
        error_of("div#").message(),
        "Failed to parse Emmet expression: error at 1:5: expected identifier"
    );
    assert_eq!(
        error_of("div{abc").message(),
        "Failed to parse Emmet expression: error at 1:8: expected one of \"}\", [^'}']"
    );
    assert_eq!(
        error_of("li*3x").message(),
        "Failed to parse Emmet expression: error at 1:5: expected one of \"+\", \">\", EOF, ['0'..='9']"
    );
    assert_eq!(
        err(12, 345, &[]).message(),
        "Failed to parse Emmet expression: error at 12:345: expected <unreported>"
    );
}
