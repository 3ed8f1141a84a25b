//! The completion logic of the language server: the trigger characters it
//! announces and the completion it offers for an abbreviation.
use vstd::prelude::*;
use vstd::string::*;
use crate::parser::{parse, parse_multipliers_fit, spec_parse};
use crate::rendering::{Renderer, render_spec};
use crate::types::{EmmetNode, strings_view};

verus! {

broadcast use vstd::string::group_string_axioms;

/// A position in a document: zero-based line and column.
#[derive(Debug, Clone, Copy, PartialEq, Eq)]
pub struct Position {
    pub line: u32,
    pub character: u32,
}

/// The text between two positions.
#[derive(Debug, Clone, Copy, PartialEq, Eq)]
pub struct Range {
    pub start: Position,
    pub end: Position,
}

/// Replace the text of `range` with `new_text`.
#[derive(Debug, PartialEq, Eq)]
pub struct TextEdit {
    pub range: Range,
    pub new_text: String,
}

/// The kinds of completion this server offers.
#[derive(Debug, Clone, Copy, PartialEq, Eq)]
pub enum CompletionItemKind {
    Snippet,
}

/// A completion: its label, its kind, the text it expands to and the edit
/// that inserts it.
#[derive(Debug, PartialEq, Eq)]
pub struct CompletionItem {
    pub label: String,
    pub kind: CompletionItemKind,
    pub detail: Option<String>,
    pub text_edit: TextEdit,
}

/// How the client sends changes of a document to the server.
#[derive(Debug, Clone, Copy, PartialEq, Eq)]
pub enum TextDocumentSyncKind {
    Disabled,
    Full,
    Incremental,
}

/// What the server announces to the client.
#[derive(Debug, PartialEq, Eq)]
pub struct ServerCapabilities {
    pub trigger_characters: Vec<String>,
    pub text_document_sync: TextDocumentSyncKind,
}

/// An error answered to a request.
#[derive(Debug, PartialEq, Eq)]
pub struct ResponseFailure {
    pub code: i32,
    pub message: String,
}

/// The error code of an internal error of the server.
pub const INTERNAL_ERROR: i32 = -32603;

/// The characters on which the client asks for a completion: the letters
/// `a` to `z`, then `A` to `Z`, then `>`, `.`, `+`, `*` and `#`.
pub open spec fn trigger_chars() -> Seq<char> {
    Seq::new(26, |k: int| (('a' as int) + k) as char) + Seq::new(26, |k: int| (('A' as int) + k) as char)
        + seq!['>', '.', '+', '*', '#']
}

/// The capabilities of the server: a completion on each trigger character
/// (each as a string of its own), and whole documents sent on each change.
pub fn capabilities() -> (c: ServerCapabilities)
    ensures
        strings_view(c.trigger_characters@) == trigger_chars().map_values(|ch: char| seq![ch]),
        c.text_document_sync == TextDocumentSyncKind::Full,
{
    let all = "abcdefghijklmnopqrstuvwxyzABCDEFGHIJKLMNOPQRSTUVWXYZ>.+*#";
    proof {
        reveal_strlit("abcdefghijklmnopqrstuvwxyzABCDEFGHIJKLMNOPQRSTUVWXYZ>.+*#");
        assert(all@ =~= trigger_chars());
    }
    let mut charset: Vec<String> = Vec::new();
    for i in 0..57
        invariant
            all@ == trigger_chars(),
            strings_view(charset@) == trigger_chars().take(i as int).map_values(|ch: char| seq![ch]),
    {
        let s = all.substring_char(i, i + 1).to_owned();
        proof {
            assert(s@ =~= seq![trigger_chars()[i as int]]);
            assert(strings_view(charset@.push(s)) =~= strings_view(charset@).push(s@));
            assert(trigger_chars().take(i + 1).map_values(|ch: char| seq![ch]) =~= trigger_chars().take(
                i as int,
            ).map_values(|ch: char| seq![ch]).push(seq![trigger_chars()[i as int]]));
        }
        charset.push(s);
    }
    assert(trigger_chars().take(57) =~= trigger_chars());
    ServerCapabilities { trigger_characters: charset, text_document_sync: TextDocumentSyncKind::Full }
}

/// The edit that replaces the abbreviation just before `position` (as many
/// columns as `abbr` has bytes) with `expansion`.
pub fn text_edit(abbr: &str, expansion: String, position: Position) -> (e: TextEdit)
    requires
        abbr.len() <= position.character,
    ensures
        e.range.start == (Position { line: position.line, character: (position.character - abbr.len()) as u32 }),
        e.range.end == position,
        e.new_text@ == expansion@,
{
    TextEdit {
        range: Range {
            start: Position { line: position.line, character: position.character - abbr.len() as u32 },
            end: Position { line: position.line, character: position.character },
        },
        new_text: expansion,
    }
}

/// The snippet labelled `abbr` that applies `edit` and shows the text it
/// inserts.
pub fn completion_item(abbr: &str, edit: TextEdit) -> (item: CompletionItem)
    ensures
        item.label@ == abbr@,
        item.kind == CompletionItemKind::Snippet,
        item.detail matches Some(d) && d@ == edit.new_text@,
        item.text_edit == edit,
{
    let detail = edit.new_text.as_str().to_owned();
    CompletionItem {
        label: abbr.to_owned(),
        kind: CompletionItemKind::Snippet,
        detail: Some(detail),
        text_edit: edit,
    }
}

/// Parses an abbreviation for a completion; a refused one becomes an
/// internal error of the server.
fn try_parse_completion(abbr: &str) -> (r: Result<EmmetNode, ResponseFailure>)
    requires
        parse_multipliers_fit(abbr@),
        abbr@.len() < usize::MAX,
    ensures
        r matches Ok(n) ==> spec_parse(abbr@) == Some(n@),
        r matches Err(e) ==> spec_parse(abbr@) is None && e.code == INTERNAL_ERROR && e.message@
            == "Failed to parse Emmet expression"@,
{
    match parse(abbr) {
        Ok(node) => Ok(node),
        Err(_) => Err(ResponseFailure { code: INTERNAL_ERROR, message: "Failed to parse Emmet expression".to_owned() }),
    }
}

/// The completion offered for the abbreviation `abbr` that ends at
/// `position`: none where the abbreviation is refused; else one item
/// labelled `abbr` whose edit replaces it with its expansion.
pub fn completion_handler(abbr: &str, position: Position) -> (r: Option<CompletionItem>)
    requires
        parse_multipliers_fit(abbr@),
        abbr@.len() < usize::MAX,
        spec_parse(abbr@) is Some ==> abbr.len() <= position.character,
    ensures
        r is Some <==> spec_parse(abbr@) is Some,
        r matches Some(item) ==> {
            &&& item.label@ == abbr@
            &&& item.kind == CompletionItemKind::Snippet
            &&& item.text_edit.new_text@ == render_spec(spec_parse(abbr@)->0)
            &&& item.detail matches Some(d) && d@ == item.text_edit.new_text@
            &&& item.text_edit.range.start == (Position {
                line: position.line,
                character: (position.character - abbr.len()) as u32,
            })
            &&& item.text_edit.range.end == position
        },
{
    let node = match try_parse_completion(abbr) {
        Ok(node) => node,
        Err(_) => {
            return None;
        },
    };
    let expansion = node.render();
    let edit = text_edit(abbr, expansion, position);
    let item = completion_item(abbr, edit);
    Some(item)
}

} // verus!
