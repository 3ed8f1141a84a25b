//! The abbreviation grammar, as a parsing expression grammar over characters:
//!
//! ```text
//! node       <- (identifier / implicit "div") id? class* text? multiplier?
//!               (">" node)* ("+" node)*
//! identifier <- [^ '#' '.' '*' '{' '+' '>']+
//! id         <- "#" identifier
//! class      <- "." identifier
//! text       <- "{" [^ '}']* "}"
//! multiplier <- "*" ['0'..='9']+
//! ```
//!
//! Repetitions are greedy and never give back what they consumed; the whole
//! input must be consumed by one `node`.
use vstd::prelude::*;
use vstd::string::*;
use crate::text::{collect_chars, join_strings, seq_join};
use crate::types::{EmmetNode, EmmetNodeView, bare_node, lemma_nodes_view, lemma_nodes_view_push, nodes_view, opt_string_view, strings_view};

verus! {

broadcast use vstd::string::group_string_axioms;

/// A character that may stand in an identifier.
pub open spec fn is_ident_char(c: char) -> bool {
    c != '#' && c != '.' && c != '*' && c != '{' && c != '+' && c != '>'
}

pub open spec fn is_digit(c: char) -> bool {
    '0' <= c && c <= '9'
}

/// The number of identifier characters in `s` from position `i` on.
pub open spec fn ident_len(s: Seq<char>, i: int) -> nat
    decreases s.len() - i,
{
    if 0 <= i < s.len() && is_ident_char(s[i]) {
        1 + ident_len(s, i + 1)
    } else {
        0
    }
}

/// The number of decimal digits in `s` from position `i` on.
pub open spec fn digit_len(s: Seq<char>, i: int) -> nat
    decreases s.len() - i,
{
    if 0 <= i < s.len() && is_digit(s[i]) {
        1 + digit_len(s, i + 1)
    } else {
        0
    }
}

/// The number of characters other than `}` in `s` from position `i` on.
pub open spec fn text_len(s: Seq<char>, i: int) -> nat
    decreases s.len() - i,
{
    if 0 <= i < s.len() && s[i] != '}' {
        1 + text_len(s, i + 1)
    } else {
        0
    }
}

/// The number written by a sequence of decimal digits.
pub open spec fn digits_value(d: Seq<char>) -> nat
    decreases d.len(),
{
    if d.len() == 0 {
        0
    } else {
        digits_value(d.drop_last()) * 10 + ((d.last() as nat) - ('0' as nat)) as nat
    }
}

pub proof fn lemma_ident_len_bound(s: Seq<char>, i: int)
    requires
        0 <= i <= s.len(),
    ensures
        i + ident_len(s, i) <= s.len(),
        forall|k: int| i <= k < i + ident_len(s, i) ==> is_ident_char(#[trigger] s[k]),
        i + ident_len(s, i) < s.len() ==> !is_ident_char(s[i + ident_len(s, i)]),
    decreases s.len() - i,
{
    if i < s.len() && is_ident_char(s[i]) {
        lemma_ident_len_bound(s, i + 1);
    }
}

pub proof fn lemma_digit_len_bound(s: Seq<char>, i: int)
    requires
        0 <= i <= s.len(),
    ensures
        i + digit_len(s, i) <= s.len(),
        forall|k: int| i <= k < i + digit_len(s, i) ==> is_digit(#[trigger] s[k]),
        i + digit_len(s, i) < s.len() ==> !is_digit(s[i + digit_len(s, i)]),
    decreases s.len() - i,
{
    if i < s.len() && is_digit(s[i]) {
        lemma_digit_len_bound(s, i + 1);
    }
}

pub proof fn lemma_text_len_bound(s: Seq<char>, i: int)
    requires
        0 <= i <= s.len(),
    ensures
        i + text_len(s, i) <= s.len(),
        forall|k: int| i <= k < i + text_len(s, i) ==> #[trigger] s[k] != '}',
        i + text_len(s, i) < s.len() ==> s[i + text_len(s, i)] == '}',
    decreases s.len() - i,
{
    if i < s.len() && s[i] != '}' {
        lemma_text_len_bound(s, i + 1);
    }
}

/// The name used where an element names no tag.
pub open spec fn implicit_tag() -> Seq<char> {
    seq!['d', 'i', 'v']
}

/// The tag at position `i` and the position after it.
pub open spec fn parse_tag(s: Seq<char>, i: int) -> (Seq<char>, int) {
    let n = ident_len(s, i);
    if n > 0 {
        (s.subrange(i, i + n), i + n)
    } else {
        (implicit_tag(), i)
    }
}

/// The optional `#id` at position `i` and the position after it.
pub open spec fn parse_id(s: Seq<char>, i: int) -> (Option<Seq<char>>, int) {
    if 0 <= i < s.len() && s[i] == '#' && ident_len(s, i + 1) > 0 {
        let n = ident_len(s, i + 1);
        (Some(s.subrange(i + 1, i + 1 + n)), i + 1 + n)
    } else {
        (None, i)
    }
}

/// The `.class` items from position `i` on and the position after them.
pub open spec fn parse_classes(s: Seq<char>, i: int) -> (Seq<Seq<char>>, int)
    decreases s.len() - i,
{
    if 0 <= i < s.len() && s[i] == '.' && ident_len(s, i + 1) > 0 {
        let n = ident_len(s, i + 1);
        proof {
            lemma_ident_len_bound(s, i + 1);
        }
        let (rest, e) = parse_classes(s, i + 1 + n);
        (seq![s.subrange(i + 1, i + 1 + n)] + rest, e)
    } else {
        (Seq::empty(), i)
    }
}

/// The optional `{text}` at position `i` and the position after it.
pub open spec fn parse_text(s: Seq<char>, i: int) -> (Option<Seq<char>>, int) {
    if 0 <= i < s.len() && s[i] == '{' && i + 1 + text_len(s, i + 1) < s.len() {
        let n = text_len(s, i + 1);
        (Some(s.subrange(i + 1, i + 1 + n)), i + 2 + n)
    } else {
        (None, i)
    }
}

/// The optional `*count` at position `i` (one where absent) and the
/// position after it.
pub open spec fn parse_multiplier(s: Seq<char>, i: int) -> (nat, int) {
    if 0 <= i < s.len() && s[i] == '*' && digit_len(s, i + 1) > 0 {
        let n = digit_len(s, i + 1);
        (digits_value(s.subrange(i + 1, i + 1 + n)), i + 1 + n)
    } else {
        (1, i)
    }
}

/// The position after the attributes (tag, id, classes, text, multiplier)
/// of an element that starts at `i`.
pub open spec fn header_end(s: Seq<char>, i: int) -> int {
    let p1 = parse_tag(s, i).1;
    let p2 = parse_id(s, p1).1;
    let p3 = parse_classes(s, p2).1;
    let p4 = parse_text(s, p3).1;
    parse_multiplier(s, p4).1
}

pub proof fn lemma_header_bounds(s: Seq<char>, i: int)
    requires
        0 <= i <= s.len(),
    ensures
        i <= header_end(s, i) <= s.len(),
{
    lemma_ident_len_bound(s, i);
    let p1 = parse_tag(s, i).1;
    if 0 <= p1 < s.len() {
        lemma_ident_len_bound(s, p1 + 1);
    }
    let p2 = parse_id(s, p1).1;
    lemma_classes_bounds(s, p2);
    let p3 = parse_classes(s, p2).1;
    if 0 <= p3 < s.len() {
        lemma_text_len_bound(s, p3 + 1);
    }
    let p4 = parse_text(s, p3).1;
    if 0 <= p4 < s.len() {
        lemma_digit_len_bound(s, p4 + 1);
    }
}

pub proof fn lemma_classes_bounds(s: Seq<char>, i: int)
    requires
        0 <= i <= s.len(),
    ensures
        i <= parse_classes(s, i).1 <= s.len(),
    decreases s.len() - i,
{
    if 0 <= i < s.len() && s[i] == '.' && ident_len(s, i + 1) > 0 {
        lemma_ident_len_bound(s, i + 1);
        lemma_classes_bounds(s, i + 1 + ident_len(s, i + 1));
    }
}

/// The element that starts at position `i`, and the position after it,
/// its nested elements and the elements that follow it.
pub open spec fn parse_node(s: Seq<char>, i: int) -> (EmmetNodeView, int)
    decreases s.len() - i, 1int,
{
    if 0 <= i <= s.len() {
        let (tag, p1) = parse_tag(s, i);
        let (id, p2) = parse_id(s, p1);
        let (classes, p3) = parse_classes(s, p2);
        let (text, p4) = parse_text(s, p3);
        let (multiplier, p5) = parse_multiplier(s, p4);
        proof {
            lemma_header_bounds(s, i);
        }
        let (children, p6) = parse_list(s, p5, '>');
        let (siblings, p7) = if p5 <= p6 <= s.len() {
            parse_list(s, p6, '+')
        } else {
            (Seq::empty(), p6)
        };
        (EmmetNodeView { tag, id, classes, children, siblings, multiplier, text }, p7)
    } else {
        (bare_node(implicit_tag()), i)
    }
}

/// The elements each introduced by `sep` from position `i` on, and the
/// position after them.
pub open spec fn parse_list(s: Seq<char>, i: int, sep: char) -> (Seq<EmmetNodeView>, int)
    decreases s.len() - i, 0int,
{
    if 0 <= i < s.len() && s[i] == sep {
        let (n, q) = parse_node(s, i + 1);
        if i < q <= s.len() {
            let (rest, e) = parse_list(s, q, sep);
            (seq![n] + rest, e)
        } else {
            (seq![n], q)
        }
    } else {
        (Seq::empty(), i)
    }
}


pub proof fn lemma_parse_node_bounds(s: Seq<char>, i: int)
    requires
        0 <= i <= s.len(),
    ensures
        i <= parse_node(s, i).1 <= s.len(),
    decreases s.len() - i, 1int,
{
    lemma_header_bounds(s, i);
    let p5 = header_end(s, i);
    lemma_parse_list_bounds(s, p5, '>');
    let p6 = parse_list(s, p5, '>').1;
    lemma_parse_list_bounds(s, p6, '+');
}

pub proof fn lemma_parse_list_bounds(s: Seq<char>, i: int, sep: char)
    requires
        0 <= i <= s.len(),
    ensures
        i <= parse_list(s, i, sep).1 <= s.len(),
    decreases s.len() - i, 0int,
{
    if i < s.len() && s[i] == sep {
        lemma_parse_node_bounds(s, i + 1);
        let q = parse_node(s, i + 1).1;
        lemma_parse_list_bounds(s, q, sep);
    }
}

/// Where the parts of one element end: the element starts at `start`; its
/// tag ends at `after_tag`; its id and classes at `after_classes`; its text
/// at `after_text`; its multiplier (the whole header) at `end`.
pub struct Stage {
    pub start: int,
    pub after_tag: int,
    pub after_classes: int,
    pub after_text: int,
    pub end: int,
}

/// The parts of the element that starts at `i`.
pub open spec fn header_stage(s: Seq<char>, i: int) -> Stage {
    let p1 = parse_tag(s, i).1;
    let p2 = parse_id(s, p1).1;
    let p3 = parse_classes(s, p2).1;
    let p4 = parse_text(s, p3).1;
    Stage { start: i, after_tag: p1, after_classes: p3, after_text: p4, end: parse_multiplier(s, p4).1 }
}

/// The parts of the last element read when parsing from `i`: the last
/// element that follows, else the last one nested, else the element itself.
pub open spec fn last_stage(s: Seq<char>, i: int) -> Stage
    decreases s.len() - i, 1int,
{
    if 0 <= i <= s.len() {
        let p5 = header_end(s, i);
        proof {
            lemma_header_bounds(s, i);
        }
        let nested = list_last(s, p5, '>');
        let p6 = parse_list(s, p5, '>').1;
        let following = if p5 <= p6 <= s.len() {
            list_last(s, p6, '+')
        } else {
            None
        };
        match following {
            Some(x) => x,
            None => match nested {
                Some(x) => x,
                None => header_stage(s, i),
            },
        }
    } else {
        header_stage(s, i)
    }
}

/// The parts of the last element read by the list of elements each
/// introduced by `sep` from `i` on, if the list is not empty.
pub open spec fn list_last(s: Seq<char>, i: int, sep: char) -> Option<Stage>
    decreases s.len() - i, 0int,
{
    if 0 <= i < s.len() && s[i] == sep {
        let q = parse_node(s, i + 1).1;
        let rest = if i < q <= s.len() {
            list_last(s, q, sep)
        } else {
            None
        };
        match rest {
            Some(x) => Some(x),
            None => Some(last_stage(s, i + 1)),
        }
    } else {
        None
    }
}

/// Every multiplier in the element, in its nested elements and in the
/// elements that follow it fits in a `usize`.
pub open spec fn node_fits(n: EmmetNodeView) -> bool
    decreases n,
{
    n.multiplier <= usize::MAX && list_fits(n.children) && list_fits(n.siblings)
}

pub open spec fn list_fits(l: Seq<EmmetNodeView>) -> bool
    decreases l,
{
    l.len() == 0 || (list_fits(l.drop_last()) && node_fits(l.last()))
}

pub proof fn lemma_list_fits(l: Seq<EmmetNodeView>)
    ensures
        list_fits(l) <==> forall|k: int| 0 <= k < l.len() ==> node_fits(#[trigger] l[k]),
    decreases l.len(),
{
    if l.len() > 0 {
        lemma_list_fits(l.drop_last());
        if list_fits(l) {
            assert forall|k: int| 0 <= k < l.len() implies node_fits(#[trigger] l[k]) by {
                if k < l.len() - 1 {
                    assert(l.drop_last()[k] == l[k]);
                }
            }
        }
        if forall|k: int| 0 <= k < l.len() ==> node_fits(#[trigger] l[k]) {
            assert forall|k: int| 0 <= k < l.drop_last().len() implies node_fits(
                #[trigger] l.drop_last()[k],
            ) by {
                assert(l.drop_last()[k] == l[k]);
            }
        }
    }
}

/// The element tree that a whole abbreviation denotes, if the grammar
/// consumes all of it.
pub open spec fn spec_parse(s: Seq<char>) -> Option<EmmetNodeView> {
    let (n, e) = parse_node(s, 0);
    if e == s.len() {
        Some(n)
    } else {
        None
    }
}

/// Every multiplier that parsing `s` reads fits in a `usize` (reading a
/// larger one is a fault).
pub open spec fn parse_multipliers_fit(s: Seq<char>) -> bool {
    node_fits(parse_node(s, 0).0)
}

/// The reason an abbreviation is refused, as the grammar reports it: the
/// line and column (both counted from one) of the furthest position at which
/// a part of the grammar failed to match, and what was expected there (in
/// sorted order).
#[derive(Debug, PartialEq, Eq)]
pub struct ParseError {
    pub line: usize,
    pub column: usize,
    pub expected: Vec<String>,
}

/// The decimal digit `d` as a character.
pub open spec fn digit_char(d: nat) -> char {
    (('0' as int) + d) as char
}

/// The decimal numeral of `n`, without leading zeros.
pub open spec fn decimal(n: nat) -> Seq<char>
    decreases n,
{
    if n < 10 {
        seq![digit_char(n)]
    } else {
        decimal(n / 10).push(digit_char(n % 10))
    }
}

fn decimal_text(n: usize) -> (r: String)
    ensures
        r@ == decimal(n as nat),
    decreases n,
{
    let digits = "0123456789";
    proof {
        reveal_strlit("0123456789");
    }
    let d = n % 10;
    let last = digits.substring_char(d, d + 1);
    assert(last@ =~= seq![digit_char(d as nat)]);
    if n < 10 {
        last.to_owned()
    } else {
        let mut r = decimal_text(n / 10);
        r.append(last);
        r
    }
}

fn substring(input: &str, s: &Vec<char>, a: usize, b: usize) -> (r: String)
    requires
        s@ == input@,
        a <= b <= s.len(),
    ensures
        r@ == s@.subrange(a as int, b as int),
{
    input.substring_char(a, b).to_owned()
}

fn scan_ident(s: &Vec<char>, i: usize) -> (e: usize)
    requires
        i <= s.len(),
    ensures
        e == i + ident_len(s@, i as int),
{
    let mut j = i;
    while j < s.len() && s[j] != '#' && s[j] != '.' && s[j] != '*' && s[j] != '{' && s[j] != '+'
        && s[j] != '>'
        invariant
            i <= j <= s.len(),
            ident_len(s@, i as int) == (j - i) + ident_len(s@, j as int),
        decreases s.len() - j,
    {
        j = j + 1;
    }
    j
}

fn scan_digits(s: &Vec<char>, i: usize) -> (e: usize)
    requires
        i <= s.len(),
    ensures
        e == i + digit_len(s@, i as int),
{
    let mut j = i;
    while j < s.len() && '0' <= s[j] && s[j] <= '9'
        invariant
            i <= j <= s.len(),
            digit_len(s@, i as int) == (j - i) + digit_len(s@, j as int),
        decreases s.len() - j,
    {
        j = j + 1;
    }
    j
}

fn scan_text(s: &Vec<char>, i: usize) -> (e: usize)
    requires
        i <= s.len(),
    ensures
        e == i + text_len(s@, i as int),
{
    let mut j = i;
    while j < s.len() && s[j] != '}'
        invariant
            i <= j <= s.len(),
            text_len(s@, i as int) == (j - i) + text_len(s@, j as int),
        decreases s.len() - j,
    {
        j = j + 1;
    }
    j
}

proof fn lemma_digits_value_prefix(d: Seq<char>, k: int)
    requires
        0 <= k <= d.len(),
    ensures
        digits_value(d.take(k)) <= digits_value(d),
    decreases d.len(),
{
    if k < d.len() {
        assert(d.drop_last().take(k) =~= d.take(k));
        lemma_digits_value_prefix(d.drop_last(), k);
    } else {
        assert(d.take(k) =~= d);
    }
}

/// The number written by the digits `s[a..b]`, or `None` where it exceeds
/// `usize::MAX`.
fn digits_number(s: &Vec<char>, a: usize, b: usize) -> (r: Option<usize>)
    requires
        a <= b <= s.len(),
        forall|k: int| a <= k < b ==> is_digit(#[trigger] s@[k]),
    ensures
        r matches Some(v) ==> v == digits_value(s@.subrange(a as int, b as int)),
        r is None ==> digits_value(s@.subrange(a as int, b as int)) > usize::MAX,
{
    let mut v: usize = 0;
    let mut j = a;
    assert(s@.subrange(a as int, a as int) =~= Seq::<char>::empty());
    while j < b
        invariant
            a <= j <= b <= s.len(),
            forall|k: int| a <= k < b ==> is_digit(#[trigger] s@[k]),
            v == digits_value(s@.subrange(a as int, j as int)),
        decreases b - j,
    {
        let c = s[j];
        assert(is_digit(s@[j as int]));
        let d = (c as u32 - '0' as u32) as usize;
        proof {
            let w = s@.subrange(a as int, j + 1);
            assert(w.drop_last() =~= s@.subrange(a as int, j as int));
            assert(w.last() == c);
            assert(s@.subrange(a as int, b as int).take(j + 1 - a) =~= w);
            lemma_digits_value_prefix(s@.subrange(a as int, b as int), j + 1 - a);
        }
        match v.checked_mul(10) {
            Some(m) => match m.checked_add(d) {
                Some(n) => {
                    v = n;
                },
                None => {
                    return None;
                },
            },
            None => {
                return None;
            },
        }
        j = j + 1;
    }
    Some(v)
}

/// The end of the `.class` item at position `p`, or `p` where none starts there.
fn class_end(s: &Vec<char>, p: usize) -> (e: usize)
    requires
        p <= s.len(),
    ensures
        e == (if p < s.len() && s@[p as int] == '.' && ident_len(s@, p + 1) > 0 {
            p + 1 + ident_len(s@, p + 1)
        } else {
            p as int
        }),
{
    if p < s.len() && s[p] == '.' {
        let e = scan_ident(s, p + 1);
        if e > p + 1 {
            e
        } else {
            p
        }
    } else {
        p
    }
}


struct ParseStage {
    start: usize,
    after_tag: usize,
    after_classes: usize,
    after_text: usize,
    end: usize,
}

spec fn stage_view(st: ParseStage) -> Stage {
    Stage {
        start: st.start as int,
        after_tag: st.after_tag as int,
        after_classes: st.after_classes as int,
        after_text: st.after_text as int,
        end: st.end as int,
    }
}

/// Parses the element that starts at `i`; `Err` where a multiplier read on
/// the way exceeds `usize::MAX`.
#[verifier::rlimit(60)]
#[verifier::spinoff_prover]
fn parse_node_at(input: &str, s: &Vec<char>, i: usize) -> (r: Result<(EmmetNode, usize, ParseStage), ()>)
    requires
        s@ == input@,
        i <= s.len(),
    ensures
        r is Ok <==> node_fits(parse_node(s@, i as int).0),
        r matches Ok((n, e, st)) ==> n@ == parse_node(s@, i as int).0 && e == parse_node(s@, i as int).1
            && stage_view(st) == last_stage(s@, i as int),
    decreases s.len() - i,
{
    let ghost sq = s@;
    let ghost spec_node = parse_node(sq, i as int).0;
    proof {
        lemma_header_bounds(sq, i as int);
        lemma_ident_len_bound(sq, i as int);
    }
    // tag
    let p1 = scan_ident(s, i);
    let tag = if p1 > i {
        substring(input, s, i, p1)
    } else {
        let d = "div";
        proof {
            reveal_strlit("div");
        }
        let t = d.to_owned();
        assert(t@ =~= implicit_tag());
        t
    };
    assert(tag@ == spec_node.tag);
    // id
    let mut id: Option<String> = None;
    let mut p2 = p1;
    if p1 < s.len() && s[p1] == '#' {
        proof {
            lemma_ident_len_bound(sq, p1 + 1);
        }
        let e = scan_ident(s, p1 + 1);
        if e > p1 + 1 {
            id = Some(substring(input, s, p1 + 1, e));
            p2 = e;
        }
    }
    assert(p2 == parse_id(sq, p1 as int).1);
    assert(opt_string_view(id) == spec_node.id);
    // classes
    let mut classes: Vec<String> = Vec::new();
    let mut p3 = p2;
    proof {
        lemma_classes_bounds(sq, p2 as int);
    }
    let mut e = class_end(s, p3);
    while e > p3
        invariant
            sq == s@,
            p2 <= p3 <= s.len(),
            e == (if p3 < s.len() && sq[p3 as int] == '.' && ident_len(sq, p3 + 1) > 0 {
                p3 + 1 + ident_len(sq, p3 + 1)
            } else {
                p3 as int
            }),
            parse_classes(sq, p2 as int).0 == strings_view(classes@) + parse_classes(sq, p3 as int).0,
            parse_classes(sq, p2 as int).1 == parse_classes(sq, p3 as int).1,
            s@ == input@,
        decreases s.len() - p3,
    {
        proof {
            lemma_ident_len_bound(sq, p3 + 1);
        }
        let c = substring(input, s, p3 + 1, e);
        proof {
            let ghost old_view = strings_view(classes@);
            assert(strings_view(classes@.push(c)) =~= old_view.push(c@));
            assert(parse_classes(sq, p3 as int).0 =~= seq![c@] + parse_classes(sq, e as int).0);
            assert(old_view + (seq![c@] + parse_classes(sq, e as int).0) =~= old_view.push(c@)
                + parse_classes(sq, e as int).0);
        }
        classes.push(c);
        p3 = e;
        e = class_end(s, p3);
    }
    assert(strings_view(classes@) =~= strings_view(classes@) + Seq::<Seq<char>>::empty());
    assert(strings_view(classes@) == spec_node.classes);
    assert(p3 == parse_classes(sq, p2 as int).1);
    // text
    let mut text: Option<String> = None;
    let mut p4 = p3;
    if p3 < s.len() && s[p3] == '{' {
        proof {
            lemma_text_len_bound(sq, p3 + 1);
        }
        let e = scan_text(s, p3 + 1);
        if e < s.len() {
            text = Some(substring(input, s, p3 + 1, e));
            p4 = e + 1;
        }
    }
    assert(p4 == parse_text(sq, p3 as int).1);
    assert(opt_string_view(text) == spec_node.text);
    // multiplier
    let mut multiplier: usize = 1;
    let mut p5 = p4;
    if p4 < s.len() && s[p4] == '*' {
        proof {
            lemma_digit_len_bound(sq, p4 + 1);
        }
        let e = scan_digits(s, p4 + 1);
        if e > p4 + 1 {
            match digits_number(s, p4 + 1, e) {
                Some(v) => {
                    multiplier = v;
                    p5 = e;
                },
                None => {
                    return Err(());
                },
            }
        }
    }
    assert(p5 == header_end(sq, i as int));
    assert(multiplier == spec_node.multiplier);
    let own = ParseStage { start: i, after_tag: p1, after_classes: p3, after_text: p4, end: p5 };
    assert(stage_view(own) == header_stage(sq, i as int));
    // nested elements
    let mut children: Vec<EmmetNode> = Vec::new();
    let mut p6 = p5;
    let mut nested_last: Option<ParseStage> = None;
    proof { lemma_nodes_view(children@); }
    while p6 < s.len() && s[p6] == '>'
        invariant
            sq == s@,
            s@ == input@,
            i <= p5 <= p6 <= s.len(),
            spec_node == parse_node(sq, i as int).0,
            p5 == header_end(sq, i as int),
            nodes_view(children@).len() == children@.len(),
            parse_list(sq, p5 as int, '>').0 == nodes_view(children@) + parse_list(sq, p6 as int, '>').0,
            parse_list(sq, p5 as int, '>').1 == parse_list(sq, p6 as int, '>').1,
            forall|k: int| 0 <= k < children@.len() ==> node_fits(#[trigger] nodes_view(children@)[k]),
            list_last(sq, p5 as int, '>') == match list_last(sq, p6 as int, '>') {
                Some(x) => Some(x),
                None => match nested_last { Some(st) => Some(stage_view(st)), None => None },
            },
        decreases s.len() - p6,
    {
        proof {
            lemma_parse_node_bounds(sq, p6 + 1);
        }
        match parse_node_at(input, s, p6 + 1) {
            Ok((c, q, st)) => {
                proof {
                    lemma_nodes_view(children@);
                    lemma_nodes_view_push(children@, c);
                    let ghost old_view = nodes_view(children@);
                    assert(parse_list(sq, p6 as int, '>').0 =~= seq![c@] + parse_list(sq, q as int, '>').0);
                    assert(old_view + (seq![c@] + parse_list(sq, q as int, '>').0) =~= old_view.push(c@)
                        + parse_list(sq, q as int, '>').0);
                }
                children.push(c);
                p6 = q;
                nested_last = Some(st);
                proof { lemma_nodes_view(children@); }
            },
            Err(()) => {
                proof {
                    lemma_nodes_view(children@);
                    let ghost l = parse_list(sq, p5 as int, '>').0;
                    let ghost k = children@.len() as int;
                    assert(parse_list(sq, p6 as int, '>').0[0] == parse_node(sq, p6 + 1).0);
                    assert(l[k] == parse_node(sq, p6 + 1).0);
                    lemma_list_fits(l);
                    assert(spec_node.children == l);
                    assert(!node_fits(spec_node));
                }
                return Err(());
            },
        }
    }
    proof {
        lemma_nodes_view(children@);
        assert(nodes_view(children@) =~= nodes_view(children@) + Seq::<EmmetNodeView>::empty());
        lemma_list_fits(nodes_view(children@));
    }
    assert(nodes_view(children@) == spec_node.children);
    // following elements
    let mut siblings: Vec<EmmetNode> = Vec::new();
    let mut p7 = p6;
    let mut following_last: Option<ParseStage> = None;
    proof { lemma_nodes_view(siblings@); }
    while p7 < s.len() && s[p7] == '+'
        invariant
            sq == s@,
            s@ == input@,
            i <= p5 <= p6 <= p7 <= s.len(),
            spec_node == parse_node(sq, i as int).0,
            p5 == header_end(sq, i as int),
            p6 == parse_list(sq, p5 as int, '>').1,
            nodes_view(siblings@).len() == siblings@.len(),
            parse_list(sq, p6 as int, '+').0 == nodes_view(siblings@) + parse_list(sq, p7 as int, '+').0,
            parse_list(sq, p6 as int, '+').1 == parse_list(sq, p7 as int, '+').1,
            forall|k: int| 0 <= k < siblings@.len() ==> node_fits(#[trigger] nodes_view(siblings@)[k]),
            list_last(sq, p6 as int, '+') == match list_last(sq, p7 as int, '+') {
                Some(x) => Some(x),
                None => match following_last { Some(st) => Some(stage_view(st)), None => None },
            },
        decreases s.len() - p7,
    {
        proof {
            lemma_parse_node_bounds(sq, p7 + 1);
        }
        match parse_node_at(input, s, p7 + 1) {
            Ok((c, q, st)) => {
                proof {
                    lemma_nodes_view(siblings@);
                    lemma_nodes_view_push(siblings@, c);
                    let ghost old_view = nodes_view(siblings@);
                    assert(parse_list(sq, p7 as int, '+').0 =~= seq![c@] + parse_list(sq, q as int, '+').0);
                    assert(old_view + (seq![c@] + parse_list(sq, q as int, '+').0) =~= old_view.push(c@)
                        + parse_list(sq, q as int, '+').0);
                }
                siblings.push(c);
                p7 = q;
                following_last = Some(st);
                proof { lemma_nodes_view(siblings@); }
            },
            Err(()) => {
                proof {
                    lemma_nodes_view(siblings@);
                    let ghost l = parse_list(sq, p6 as int, '+').0;
                    let ghost k = siblings@.len() as int;
                    assert(parse_list(sq, p7 as int, '+').0[0] == parse_node(sq, p7 + 1).0);
                    assert(l[k] == parse_node(sq, p7 + 1).0);
                    lemma_list_fits(l);
                    assert(spec_node.siblings == l);
                    assert(!node_fits(spec_node));
                }
                return Err(());
            },
        }
    }
    proof {
        lemma_nodes_view(siblings@);
        assert(nodes_view(siblings@) =~= nodes_view(siblings@) + Seq::<EmmetNodeView>::empty());
        lemma_list_fits(nodes_view(siblings@));
    }
    assert(nodes_view(siblings@) == spec_node.siblings);
    let n = EmmetNode { tag, id, classes, children, siblings, multiplier, text };
    assert(n@ == spec_node);
    proof {
        assert(list_last(sq, p6 as int, '>') is None);
        assert(list_last(sq, p7 as int, '+') is None);
        assert(p6 == parse_list(sq, header_end(sq, i as int), '>').1);
    }
    let last = match following_last {
        Some(st) => st,
        None => match nested_last {
            Some(st) => st,
            None => own,
        },
    };
    Ok((n, p7, last))
}


/// The single token `t` where `b` holds, else nothing.
pub open spec fn token_if(b: bool, t: Seq<char>) -> Seq<Seq<char>> {
    if b {
        seq![t]
    } else {
        Seq::empty()
    }
}

/// The furthest position (in characters) at which a part of the grammar
/// fails to match when the whole of `s` is not consumed. Parsing stops at
/// `e`; the last element read there is at one of its parts, and the part
/// that the character at `e` could start is tried further: an id (`#`) or a
/// class (`.`) without a name fails just after it, a text (`{`) without a
/// closing `}` fails at the end of the input, a multiplier (`*`) without a
/// digit fails just after it. Else the furthest failure is at `e` itself.
pub open spec fn failure_position(s: Seq<char>) -> int {
    let e = parse_node(s, 0).1;
    let st = last_stage(s, 0);
    if st.after_tag == e && s[e] == '#' {
        e + 1
    } else if st.after_classes == e && s[e] == '.' {
        e + 1
    } else if st.after_classes == e && s[e] == '{' {
        s.len() as int
    } else if st.after_text == e && s[e] == '*' {
        e + 1
    } else {
        e
    }
}

/// What the grammar expected at the furthest failure, in sorted order: a
/// name after a lone `#` or `.`; a `}` or more text after an unclosed `{`; a
/// digit after a lone `*`. Else, at the position `e` where parsing stopped,
/// every part that the last element could still take there (`#` after its
/// tag, `.` and `{` after its classes, `*` after its text, a digit after its
/// multiplier, a tag name where it is empty), a `>` or `+`, and the end.
pub open spec fn expected_tokens(s: Seq<char>) -> Seq<Seq<char>> {
    let e = parse_node(s, 0).1;
    let st = last_stage(s, 0);
    if st.after_tag == e && s[e] == '#' {
        seq!["identifier"@]
    } else if st.after_classes == e && s[e] == '.' {
        seq!["identifier"@]
    } else if st.after_classes == e && s[e] == '{' {
        seq!["\"}\""@, "[^'}']"@]
    } else if st.after_text == e && s[e] == '*' {
        seq!["['0'..='9']"@]
    } else {
        token_if(st.after_tag == e, "\"#\""@) + token_if(st.after_text == e, "\"*\""@) + seq!["\"+\""@]
            + token_if(st.after_classes == e, "\".\""@) + seq!["\">\""@] + token_if(
            st.after_classes == e,
            "\"{\""@,
        ) + seq!["EOF"@] + token_if(st.after_text < st.end, "['0'..='9']"@) + token_if(
            st.start == st.after_tag && st.start == e,
            "identifier"@,
        )
    }
}

/// The number of line feeds in `p`.
pub open spec fn newline_count(p: Seq<char>) -> nat
    decreases p.len(),
{
    if p.len() == 0 {
        0
    } else {
        newline_count(p.drop_last()) + if p.last() == '\n' {
            1nat
        } else {
            0nat
        }
    }
}

/// The number of characters after the last line feed of `p` (all of them
/// where there is none).
pub open spec fn last_line_len(p: Seq<char>) -> nat
    decreases p.len(),
{
    if p.len() == 0 {
        0
    } else if p.last() == '\n' {
        0
    } else {
        last_line_len(p.drop_last()) + 1
    }
}

/// The list of expected tokens as the grammar words it: the token alone, or
/// `one of` and the tokens separated by `, `.
pub open spec fn expected_text(tokens: Seq<Seq<char>>) -> Seq<char> {
    if tokens.len() == 0 {
        "<unreported>"@
    } else if tokens.len() == 1 {
        tokens[0]
    } else {
        "one of "@ + seq_join(tokens, ", "@)
    }
}

impl ParseError {
    /// The error as a sentence: `Failed to parse Emmet expression: error at
    /// LINE:COLUMN: expected ...`.
    pub fn message(&self) -> (m: String)
        ensures
            m@ == "Failed to parse Emmet expression: error at "@ + decimal(self.line as nat) + ":"@
                + decimal(self.column as nat) + ": expected "@ + expected_text(strings_view(self.expected@)),
    {
        let mut m = "Failed to parse Emmet expression: error at ".to_owned();
        m.append(decimal_text(self.line).as_str());
        m.append(":");
        m.append(decimal_text(self.column).as_str());
        m.append(": expected ");
        if self.expected.len() == 0 {
            m.append("<unreported>");
        } else if self.expected.len() == 1 {
            m.append(self.expected[0].as_str());
        } else {
            m.append("one of ");
            m.append(join_strings(&self.expected, ", ").as_str());
        }
        m
    }
}

fn token(t: &str) -> (r: String)
    ensures
        r@ == t@,
{
    t.to_owned()
}

fn push_token_if(v: &mut Vec<String>, b: bool, t: &str)
    ensures
        strings_view(final(v)@) == strings_view(old(v)@) + token_if(b, t@),
{
    if b {
        let ghost before = strings_view(v@);
        v.push(token(t));
        assert(strings_view(v@) =~= before + token_if(b, t@));
    } else {
        assert(strings_view(v@) =~= strings_view(v@) + token_if(b, t@));
    }
}

/// The error for an input of which parsing consumed only the first `e`
/// characters.
fn parse_failure(s: &Vec<char>, e: usize, st: ParseStage) -> (err: ParseError)
    requires
        e < s.len() < usize::MAX,
        e == parse_node(s@, 0).1,
        stage_view(st) == last_stage(s@, 0),
    ensures
        err.line == newline_count(s@.take(failure_position(s@))) + 1,
        err.column == last_line_len(s@.take(failure_position(s@))) + 1,
        strings_view(err.expected@) == expected_tokens(s@),
{
    let c = s[e];
    let mut expected: Vec<String> = Vec::new();
    let f: usize;
    if st.after_tag == e && c == '#' {
        f = e + 1;
        expected.push(token("identifier"));
    } else if st.after_classes == e && c == '.' {
        f = e + 1;
        expected.push(token("identifier"));
    } else if st.after_classes == e && c == '{' {
        f = s.len();
        expected.push(token("\"}\""));
        expected.push(token("[^'}']"));
    } else if st.after_text == e && c == '*' {
        f = e + 1;
        expected.push(token("['0'..='9']"));
    } else {
        f = e;
        push_token_if(&mut expected, st.after_tag == e, "\"#\"");
        push_token_if(&mut expected, st.after_text == e, "\"*\"");
        push_token_if(&mut expected, true, "\"+\"");
        push_token_if(&mut expected, st.after_classes == e, "\".\"");
        push_token_if(&mut expected, true, "\">\"");
        push_token_if(&mut expected, st.after_classes == e, "\"{\"");
        push_token_if(&mut expected, true, "EOF");
        push_token_if(&mut expected, st.after_text < st.end, "['0'..='9']");
        push_token_if(&mut expected, st.start == st.after_tag && st.start == e, "identifier");
    }
    assert(strings_view(expected@) =~= expected_tokens(s@));
    assert(f == failure_position(s@));
    let mut lines: usize = 0;
    let mut column: usize = 0;
    for k in 0..f
        invariant
            f <= s.len() < usize::MAX,
            lines == newline_count(s@.take(k as int)),
            column == last_line_len(s@.take(k as int)),
            lines <= k,
            column <= k,
    {
        assert(s@.take(k + 1).drop_last() =~= s@.take(k as int));
        assert(s@.take(k + 1).last() == s@[k as int]);
        if s[k] == '\n' {
            lines = lines + 1;
            column = 0;
        } else {
            column = column + 1;
        }
    }
    ParseError { line: lines + 1, column: column + 1, expected }
}

/// Parses a whole abbreviation into its element tree.
///
/// `Ok` exactly where the grammar consumes all of `input`, with the tree it
/// denotes; otherwise `Err` with the line and column of the furthest failure
/// and what the grammar expected there. (An input holds fewer than
/// `usize::MAX` characters: a string cannot be that long.)
pub fn parse(input: &str) -> (r: Result<EmmetNode, ParseError>)
    requires
        parse_multipliers_fit(input@),
        input@.len() < usize::MAX,
    ensures
        r matches Ok(n) ==> spec_parse(input@) == Some(n@),
        r matches Err(err) ==> {
            &&& spec_parse(input@) is None
            &&& err.line == newline_count(input@.take(failure_position(input@))) + 1
            &&& err.column == last_line_len(input@.take(failure_position(input@))) + 1
            &&& strings_view(err.expected@) == expected_tokens(input@)
        },
{
    let s = collect_chars(input);
    match parse_node_at(input, &s, 0) {
        Ok((n, e, st)) => {
            if e == s.len() {
                Ok(n)
            } else {
                assert(s@.len() == input@.len());
                proof {
                    lemma_parse_node_bounds(s@, 0);
                }
                Err(parse_failure(&s, e, st))
            }
        },
        Err(()) => {
            proof {
                assert(false);
            }
            Err(ParseError { line: 0, column: 0, expected: Vec::new() })
        },
    }
}

/// Whether every multiplier that parsing `input` reads fits in a `usize`,
/// which `parse` requires.
pub fn multipliers_in_range(input: &str) -> (b: bool)
    ensures
        b == parse_multipliers_fit(input@),
{
    let s = collect_chars(input);
    parse_node_at(input, &s, 0).is_ok()
}

} // verus!
