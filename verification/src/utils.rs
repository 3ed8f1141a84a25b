//! Finding the abbreviation that ends at the cursor in a document.
use vstd::prelude::*;
use vstd::string::*;
use vstd::utf8::*;
use ropey::Rope;
use crate::lsp::Position;
use crate::text::collect_chars;

verus! {

broadcast use vstd::string::group_string_axioms;

/// A document's text, held by the rope library.
#[verifier::external_type_specification]
#[verifier::external_body]
pub struct ExRope(Rope);

/// The characters that a rope holds.
pub uninterp spec fn rope_text(doc: Rope) -> Seq<char>;

/// A character that ends a line in a rope (besides the pair CR LF, which
/// ends a line as one break).
pub open spec fn is_line_break(c: char) -> bool {
    c == '\n' || c == '\u{000B}' || c == '\u{000C}' || c == '\r' || c == '\u{0085}' || c == '\u{2028}'
        || c == '\u{2029}'
}

/// The position of the first line-break character at or after `i`, or the
/// length of `t` where there is none.
pub open spec fn first_break(t: Seq<char>, i: int) -> int
    decreases t.len() - i,
{
    if i < 0 || i >= t.len() {
        t.len() as int
    } else if is_line_break(t[i]) {
        i
    } else {
        first_break(t, i + 1)
    }
}

pub proof fn lemma_first_break(t: Seq<char>, i: int)
    requires
        0 <= i <= t.len(),
    ensures
        i <= first_break(t, i) <= t.len(),
        first_break(t, i) < t.len() ==> is_line_break(t[first_break(t, i)]),
        forall|k: int| i <= k < first_break(t, i) ==> !is_line_break(#[trigger] t[k]),
    decreases t.len() - i,
{
    if i < t.len() && !is_line_break(t[i]) {
        lemma_first_break(t, i + 1);
    }
}

/// The lines of a text: a line starts at the start of the text and after
/// each line break, and holds the break that ends it; CR LF is one break.
/// A text has one line more than it has breaks (the last may be empty).
pub open spec fn text_lines(t: Seq<char>) -> Seq<Seq<char>>
    decreases t.len(),
{
    let k = first_break(t, 0);
    if k >= t.len() {
        seq![t]
    } else {
        let w: int = if t[k] == '\r' && k + 1 < t.len() && t[k + 1] == '\n' {
            2
        } else {
            1
        };
        proof {
            lemma_first_break(t, 0);
        }
        seq![t.subrange(0, k + w)] + text_lines(t.skip(k + w))
    }
}

/// `Rope::len_lines`: the number of lines of the rope.
#[verifier::external_body]
fn rope_len_lines(doc: &Rope) -> (n: usize)
    ensures
        n == text_lines(rope_text(*doc)).len(),
{
    doc.len_lines()
}

/// `Rope::line`, made a `String`: the text of line `line_idx`, with the
/// break that ends it.
#[verifier::external_body]
fn rope_line(doc: &Rope, line_idx: usize) -> (line: String)
    requires
        line_idx < text_lines(rope_text(*doc)).len(),
    ensures
        line@ == text_lines(rope_text(*doc))[line_idx as int],
{
    doc.line(line_idx).to_string()
}

/// A character before which an abbreviation starts.
pub open spec fn is_abbreviation_boundary(c: char) -> bool {
    c == ' ' || c == '\t' || c == '{'
}

/// The position of the last boundary character of `p`, or -1 where there is none.
pub open spec fn last_boundary(p: Seq<char>) -> int
    decreases p.len(),
{
    if p.len() == 0 {
        -1
    } else if is_abbreviation_boundary(p.last()) {
        p.len() - 1
    } else {
        last_boundary(p.drop_last())
    }
}

/// The abbreviation at the end of `p`: what follows its last boundary
/// character (all of `p` where there is none).
pub open spec fn abbreviation_of(p: Seq<char>) -> Seq<char> {
    p.skip(last_boundary(p) + 1)
}

/// The characters of `line` that its first `col` bytes (in UTF-8) encode.
pub open spec fn line_prefix(line: Seq<char>, col: int) -> Seq<char> {
    decode_utf8(encode_utf8(line).subrange(0, col))
}

/// `col` is a byte offset in the UTF-8 encoding of `line` (at most its
/// length) that falls between two characters.
pub open spec fn is_column_of(line: Seq<char>, col: int) -> bool {
    is_char_boundary(encode_utf8(line), col)
}

proof fn lemma_last_boundary(p: Seq<char>)
    ensures
        -1 <= last_boundary(p) < p.len(),
        last_boundary(p) >= 0 ==> is_abbreviation_boundary(p[last_boundary(p)]),
        forall|k: int| last_boundary(p) < k < p.len() ==> !is_abbreviation_boundary(#[trigger] p[k]),
    decreases p.len(),
{
    if p.len() > 0 && !is_abbreviation_boundary(p.last()) {
        lemma_last_boundary(p.drop_last());
        assert forall|k: int| last_boundary(p) < k < p.len() implies !is_abbreviation_boundary(
            #[trigger] p[k],
        ) by {
            if k < p.len() - 1 {
                assert(p.drop_last()[k] == p[k]);
            }
        }
    }
}

/// The abbreviation at the end of a text is the longest end of it that holds
/// no space, tab or `{`: it is an end of the text, holds none of the three,
/// and is either the whole text or preceded by one of them (any other
/// character, such as `.`, `#`, `>`, `+` or `*`, belongs to it).
pub proof fn law_abbreviation_of(p: Seq<char>)
    ensures
        abbreviation_of(p).len() <= p.len(),
        abbreviation_of(p) == p.skip(p.len() - abbreviation_of(p).len()),
        forall|k: int|
            0 <= k < abbreviation_of(p).len() ==> #[trigger] abbreviation_of(p)[k] != ' '
                && abbreviation_of(p)[k] != '\t' && abbreviation_of(p)[k] != '{',
        abbreviation_of(p).len() < p.len() ==> {
            let c = p[p.len() - abbreviation_of(p).len() - 1];
            c == ' ' || c == '\t' || c == '{'
        },
{
    lemma_last_boundary(p);
    let a = abbreviation_of(p);
    assert forall|k: int| 0 <= k < a.len() implies !is_abbreviation_boundary(#[trigger] a[k]) by {
        assert(a[k] == p[last_boundary(p) + 1 + k]);
    }
}

/// The abbreviation that ends at byte `col` of `line`.
pub fn abbreviation_in_line(line: &str, col: usize) -> (r: String)
    requires
        is_column_of(line@, col as int),
    ensures
        r@ == abbreviation_of(line_prefix(line@, col as int)),
{
    proof {
        broadcast use vstd::utf8::group_utf8_lib;
    }
    let (prefix, _) = line.split_at(col);
    proof {
        broadcast use vstd::utf8::group_utf8_lib;
        assert(decode_utf8(encode_utf8(prefix@)) == prefix@);
    }
    let chars = collect_chars(prefix);
    let mut k = chars.len();
    assert(chars@.take(chars@.len() as int) =~= chars@);
    while k > 0 && chars[k - 1] != ' ' && chars[k - 1] != '\t' && chars[k - 1] != '{'
        invariant
            k <= chars@.len(),
            last_boundary(chars@) == last_boundary(chars@.take(k as int)),
        decreases k,
    {
        assert(chars@.take(k as int).drop_last() =~= chars@.take(k - 1));
        k = k - 1;
    }
    assert(chars@.take(chars@.len() as int) =~= chars@);
    proof {
        if k > 0 {
            assert(chars@.take(k as int).last() == chars@[k - 1]);
        }
    }
    assert(last_boundary(chars@) + 1 == k);
    prefix.substring_char(k, chars.len()).to_owned()
}

/// The abbreviation that ends at `position` in `doc`.
pub fn extract_abbreviation(doc: &Rope, position: Position) -> (r: String)
    requires
        (position.line as int) < text_lines(rope_text(*doc)).len(),
        is_column_of(text_lines(rope_text(*doc))[position.line as int], position.character as int),
    ensures
        r@ == abbreviation_of(
            line_prefix(text_lines(rope_text(*doc))[position.line as int], position.character as int),
        ),
{
    let line = rope_line(doc, position.line as usize);
    abbreviation_in_line(line.as_str(), position.character as usize)
}

/// The abbreviation that ends at `position` in `doc`, or `None` where the
/// document has no such line or the column does not fall between two
/// characters of it (within its bytes).
pub fn try_extract_abbreviation(doc: &Rope, position: Position) -> (r: Option<String>)
    ensures
        r is Some <==> ((position.line as int) < text_lines(rope_text(*doc)).len() && is_column_of(
            text_lines(rope_text(*doc))[position.line as int],
            position.character as int,
        )),
        r matches Some(a) ==> a@ == abbreviation_of(
            line_prefix(text_lines(rope_text(*doc))[position.line as int], position.character as int),
        ),
{
    let line_idx = position.line as usize;
    if line_idx >= rope_len_lines(doc) {
        return None;
    }
    let line = rope_line(doc, line_idx);
    let col = position.character as usize;
    let text = line.as_str();
    if !text.is_char_boundary(col) {
        return None;
    }
    Some(extract_abbreviation(doc, position))
}

} // verus!
