//! Laws of the abbreviation grammar: what each operator of the syntax
//! makes of the element it follows.
use vstd::prelude::*;
use crate::parser::{
    decimal, digit_char,
    digit_len, digits_value, header_end, ident_len, implicit_tag, is_digit, is_ident_char,
    lemma_header_bounds, lemma_parse_list_bounds, lemma_parse_node_bounds, parse_classes,
    parse_id, parse_list, parse_multiplier, parse_node, parse_tag, parse_text, spec_parse,
    text_len,
};
use crate::types::{EmmetNodeView, bare_node};

verus! {

// Parsing at position `p.len() + j` of `p + r` is parsing `r` at `j`.

proof fn lemma_shift_ident(p: Seq<char>, r: Seq<char>, j: int)
    requires
        0 <= j <= r.len(),
    ensures
        ident_len(p + r, p.len() + j) == ident_len(r, j),
    decreases r.len() - j,
{
    let s = p + r;
    if j < r.len() {
        assert(s[p.len() + j] == r[j]);
        lemma_shift_ident(p, r, j + 1);
    }
}

proof fn lemma_shift_digits(p: Seq<char>, r: Seq<char>, j: int)
    requires
        0 <= j <= r.len(),
    ensures
        digit_len(p + r, p.len() + j) == digit_len(r, j),
    decreases r.len() - j,
{
    let s = p + r;
    if j < r.len() {
        assert(s[p.len() + j] == r[j]);
        lemma_shift_digits(p, r, j + 1);
    }
}

proof fn lemma_shift_text(p: Seq<char>, r: Seq<char>, j: int)
    requires
        0 <= j <= r.len(),
    ensures
        text_len(p + r, p.len() + j) == text_len(r, j),
    decreases r.len() - j,
{
    let s = p + r;
    if j < r.len() {
        assert(s[p.len() + j] == r[j]);
        lemma_shift_text(p, r, j + 1);
    }
}

proof fn lemma_shift_sub(p: Seq<char>, r: Seq<char>, a: int, b: int)
    requires
        0 <= a <= b <= r.len(),
    ensures
        (p + r).subrange(p.len() + a, p.len() + b) == r.subrange(a, b),
{
    assert((p + r).subrange(p.len() + a, p.len() + b) =~= r.subrange(a, b));
}

proof fn lemma_shift_classes(p: Seq<char>, r: Seq<char>, j: int)
    requires
        0 <= j <= r.len(),
    ensures
        parse_classes(p + r, p.len() + j).0 == parse_classes(r, j).0,
        parse_classes(p + r, p.len() + j).1 == parse_classes(r, j).1 + p.len(),
    decreases r.len() - j,
{
    let s = p + r;
    if j < r.len() {
        assert(s[p.len() + j] == r[j]);
        if j + 1 <= r.len() {
            lemma_shift_ident(p, r, j + 1);
        }
        if r[j] == '.' && ident_len(r, j + 1) > 0 {
            crate::parser::lemma_ident_len_bound(r, j + 1);
            let n = ident_len(r, j + 1);
            lemma_shift_sub(p, r, j + 1, j + 1 + n);
            lemma_shift_classes(p, r, j + 1 + n);
        }
    }
}

proof fn lemma_shift_header(p: Seq<char>, r: Seq<char>, j: int)
    requires
        0 <= j <= r.len(),
    ensures
        header_end(p + r, p.len() + j) == header_end(r, j) + p.len(),
        parse_tag(p + r, p.len() + j).0 == parse_tag(r, j).0,
        parse_id(p + r, parse_tag(p + r, p.len() + j).1).0 == parse_id(r, parse_tag(r, j).1).0,
        parse_classes(p + r, parse_id(p + r, parse_tag(p + r, p.len() + j).1).1).0 == parse_classes(
            r,
            parse_id(r, parse_tag(r, j).1).1,
        ).0,
        parse_text(p + r, parse_classes(p + r, parse_id(p + r, parse_tag(p + r, p.len() + j).1).1).1).0
            == parse_text(r, parse_classes(r, parse_id(r, parse_tag(r, j).1).1).1).0,
        parse_multiplier(
            p + r,
            parse_text(p + r, parse_classes(p + r, parse_id(p + r, parse_tag(p + r, p.len() + j).1).1).1).1,
        ).0 == parse_multiplier(r, parse_text(r, parse_classes(r, parse_id(r, parse_tag(r, j).1).1).1).1).0,
{
    let s = p + r;
    let o = p.len() as int;
    crate::parser::lemma_ident_len_bound(r, j);
    lemma_shift_ident(p, r, j);
    let n0 = ident_len(r, j);
    lemma_shift_sub(p, r, j, j + n0);
    let p1 = parse_tag(r, j).1;
    assert(parse_tag(s, o + j).1 == p1 + o);
    if p1 < r.len() {
        assert(s[o + p1] == r[p1]);
        lemma_shift_ident(p, r, p1 + 1);
        crate::parser::lemma_ident_len_bound(r, p1 + 1);
        lemma_shift_sub(p, r, p1 + 1, p1 + 1 + ident_len(r, p1 + 1));
    }
    let p2 = parse_id(r, p1).1;
    assert(parse_id(s, p1 + o).1 == p2 + o);
    crate::parser::lemma_classes_bounds(r, p2);
    lemma_shift_classes(p, r, p2);
    let p3 = parse_classes(r, p2).1;
    if p3 < r.len() {
        assert(s[o + p3] == r[p3]);
        lemma_shift_text(p, r, p3 + 1);
        crate::parser::lemma_text_len_bound(r, p3 + 1);
        lemma_shift_sub(p, r, p3 + 1, p3 + 1 + text_len(r, p3 + 1));
    }
    let p4 = parse_text(r, p3).1;
    assert(parse_text(s, p3 + o).1 == p4 + o);
    if p4 < r.len() {
        assert(s[o + p4] == r[p4]);
        lemma_shift_digits(p, r, p4 + 1);
        crate::parser::lemma_digit_len_bound(r, p4 + 1);
        lemma_shift_sub(p, r, p4 + 1, p4 + 1 + digit_len(r, p4 + 1));
    }
}

proof fn lemma_shift_node(p: Seq<char>, r: Seq<char>, j: int)
    requires
        0 <= j <= r.len(),
    ensures
        parse_node(p + r, p.len() + j).0 == parse_node(r, j).0,
        parse_node(p + r, p.len() + j).1 == parse_node(r, j).1 + p.len(),
    decreases r.len() - j, 1int,
{
    let o = p.len() as int;
    lemma_shift_header(p, r, j);
    lemma_header_bounds(r, j);
    let p5 = header_end(r, j);
    lemma_shift_list(p, r, p5, '>');
    lemma_parse_list_bounds(r, p5, '>');
    let p6 = parse_list(r, p5, '>').1;
    lemma_shift_list(p, r, p6, '+');
}

proof fn lemma_shift_list(p: Seq<char>, r: Seq<char>, j: int, sep: char)
    requires
        0 <= j <= r.len(),
    ensures
        parse_list(p + r, p.len() + j, sep).0 == parse_list(r, j, sep).0,
        parse_list(p + r, p.len() + j, sep).1 == parse_list(r, j, sep).1 + p.len(),
    decreases r.len() - j, 0int,
{
    let s = p + r;
    let o = p.len() as int;
    if j < r.len() {
        assert(s[o + j] == r[j]);
        if r[j] == sep {
            lemma_shift_node(p, r, j + 1);
            lemma_parse_node_bounds(r, j + 1);
            let q = parse_node(r, j + 1).1;
            lemma_shift_list(p, r, q, sep);
        }
    }
}


// Where an element stops, the next character is neither `>` nor `+`.

proof fn lemma_node_end(s: Seq<char>, i: int)
    requires
        0 <= i <= s.len(),
    ensures
        parse_node(s, i).1 < s.len() ==> s[parse_node(s, i).1] != '>' && s[parse_node(s, i).1] != '+',
    decreases s.len() - i, 1int,
{
    lemma_header_bounds(s, i);
    let p5 = header_end(s, i);
    lemma_list_end(s, p5, '>');
    lemma_parse_list_bounds(s, p5, '>');
    let p6 = parse_list(s, p5, '>').1;
    lemma_list_end(s, p6, '+');
}

proof fn lemma_list_end(s: Seq<char>, i: int, sep: char)
    requires
        0 <= i <= s.len(),
        sep == '>' || sep == '+',
    ensures
        parse_list(s, i, sep).1 < s.len() ==> s[parse_list(s, i, sep).1] != sep,
        parse_list(s, i, sep).1 < s.len() && parse_list(s, i, sep).0.len() > 0 ==> s[parse_list(
            s,
            i,
            sep,
        ).1] != '>' && s[parse_list(s, i, sep).1] != '+',
        parse_list(s, i, sep).0.len() == 0 ==> parse_list(s, i, sep).1 == i,
    decreases s.len() - i, 0int,
{
    if i < s.len() && s[i] == sep {
        lemma_node_end(s, i + 1);
        lemma_parse_node_bounds(s, i + 1);
        let q = parse_node(s, i + 1).1;
        lemma_list_end(s, q, sep);
    }
}

proof fn lemma_ident_exact(s: Seq<char>, i: int, m: int)
    requires
        0 <= i,
        0 <= m,
        i + m <= s.len(),
        forall|k: int| i <= k < i + m ==> is_ident_char(#[trigger] s[k]),
        i + m == s.len() || !is_ident_char(s[i + m]),
    ensures
        ident_len(s, i) == m,
    decreases m,
{
    if m > 0 {
        lemma_ident_exact(s, i + 1, m - 1);
    }
}

proof fn lemma_digits_exact(s: Seq<char>, i: int, m: int)
    requires
        0 <= i,
        0 <= m,
        i + m <= s.len(),
        forall|k: int| i <= k < i + m ==> is_digit(#[trigger] s[k]),
        i + m == s.len() || !is_digit(s[i + m]),
    ensures
        digit_len(s, i) == m,
    decreases m,
{
    if m > 0 {
        lemma_digits_exact(s, i + 1, m - 1);
    }
}

proof fn lemma_text_exact(s: Seq<char>, i: int, m: int)
    requires
        0 <= i,
        0 <= m,
        i + m <= s.len(),
        forall|k: int| i <= k < i + m ==> #[trigger] s[k] != '}',
        i + m == s.len() || s[i + m] == '}',
    ensures
        text_len(s, i) == m,
    decreases m,
{
    if m > 0 {
        lemma_text_exact(s, i + 1, m - 1);
    }
}

/// A sequence of identifier characters (a name).
pub open spec fn is_name(t: Seq<char>) -> bool {
    &&& t.len() > 0
    &&& forall|k: int|
        0 <= k < t.len() ==> #[trigger] t[k] != '#' && t[k] != '.' && t[k] != '*' && t[k] != '{' && t[k]
            != '+' && t[k] != '>'
}

/// The tag `t` with the rest `r` after it, where `r` starts with none of the
/// characters of an id, a class, a text or a multiplier: the element
/// `t` has exactly what the operators of `r` give it, and its end is that of
/// the operators.
proof fn lemma_tag_then(t: Seq<char>, r: Seq<char>)
    requires
        is_name(t),
        r.len() > 0,
        r[0] != '#' && r[0] != '.' && r[0] != '{' && r[0] != '*',
        !is_ident_char(r[0]),
    ensures
        header_end(t + r, t.len() as int) == t.len(),
        parse_tag(t + r, 0) == (t, t.len() as int),
        parse_node(t + r, 0).0.tag == t,
        parse_node(t + r, 0).0.id is None,
        parse_node(t + r, 0).0.classes == Seq::<Seq<char>>::empty(),
        parse_node(t + r, 0).0.text is None,
        parse_node(t + r, 0).0.multiplier == 1,
        header_end(t + r, 0) == t.len(),
{
    let s = t + r;
    assert(s[t.len() as int] == r[0]);
    lemma_ident_exact(s, 0, t.len() as int);
    assert(s.subrange(0, t.len() as int) =~= t);
}

/// An abbreviation made of one name is the element of that tag and nothing else.
pub proof fn law_name_alone(t: Seq<char>)
    requires
        is_name(t),
    ensures
        spec_parse(t) == Some(bare_node(t)),
{
    lemma_ident_exact(t, 0, t.len() as int);
    assert(t.subrange(0, t.len() as int) =~= t);
    lemma_header_bounds(t, 0);
}

/// Where an abbreviation does not start with a name (it is empty, or starts
/// with `#`, `.`, `{`, `*`, `>` or `+`), its element is a `div`.
pub proof fn law_implicit_div(s: Seq<char>)
    requires
        s.len() == 0 || s[0] == '#' || s[0] == '.' || s[0] == '*' || s[0] == '{' || s[0] == '+' || s[0]
            == '>',
    ensures
        parse_node(s, 0).0.tag == implicit_tag(),
        spec_parse(s) matches Some(n) ==> n.tag == seq!['d', 'i', 'v'],
{
}

/// `t>r` nests the element tree of `r` in the element `t`; it is refused
/// exactly where `r` is.
pub proof fn law_child(t: Seq<char>, r: Seq<char>)
    requires
        is_name(t),
    ensures
        spec_parse(t + seq!['>'] + r) == match spec_parse(r) {
            Some(n) => Some(EmmetNodeView { children: seq![n], ..bare_node(t) }),
            None => None::<EmmetNodeView>,
        },
{
    let p = t + seq!['>'];
    let s = p + r;
    assert(t + (seq!['>'] + r) == s);
    lemma_tag_then(t, seq!['>'] + r);
    let o = t.len() as int;
    assert(s[o] == '>');
    lemma_shift_node(p, r, 0);
    lemma_parse_node_bounds(r, 0);
    lemma_node_end(r, 0);
    let q = parse_node(r, 0).1 + p.len();
    if q < s.len() {
        assert(s[q] == r[parse_node(r, 0).1]);
    }
    lemma_parse_list_bounds(s, q, '>');
    assert(parse_list(s, q, '>').0 =~= Seq::<EmmetNodeView>::empty());
    assert(parse_list(s, o, '>').0 =~= seq![parse_node(r, 0).0]);
    assert(parse_list(s, q, '+').0 =~= Seq::<EmmetNodeView>::empty());
}

/// `t+r` puts the element tree of `r` after the element `t`; it is refused
/// exactly where `r` is.
pub proof fn law_sibling(t: Seq<char>, r: Seq<char>)
    requires
        is_name(t),
    ensures
        spec_parse(t + seq!['+'] + r) == match spec_parse(r) {
            Some(n) => Some(EmmetNodeView { siblings: seq![n], ..bare_node(t) }),
            None => None::<EmmetNodeView>,
        },
{
    let p = t + seq!['+'];
    let s = p + r;
    assert(t + (seq!['+'] + r) == s);
    lemma_tag_then(t, seq!['+'] + r);
    let o = t.len() as int;
    assert(s[o] == '+');
    assert(parse_list(s, o, '>').0 =~= Seq::<EmmetNodeView>::empty());
    lemma_shift_node(p, r, 0);
    lemma_parse_node_bounds(r, 0);
    lemma_node_end(r, 0);
    let q = parse_node(r, 0).1 + p.len();
    if q < s.len() {
        assert(s[q] == r[parse_node(r, 0).1]);
    }
    assert(parse_list(s, q, '+').0 =~= Seq::<EmmetNodeView>::empty());
    assert(parse_list(s, o, '+').0 =~= seq![parse_node(r, 0).0]);
}

/// `t*d`, with `d` decimal digits, is the element `t` with the number that
/// `d` writes as its multiplier.
pub proof fn law_multiplier(t: Seq<char>, d: Seq<char>)
    requires
        is_name(t),
        d.len() > 0,
        forall|k: int| 0 <= k < d.len() ==> '0' <= #[trigger] d[k] && d[k] <= '9',
    ensures
        spec_parse(t + seq!['*'] + d) == Some(
            EmmetNodeView { multiplier: digits_value(d), ..bare_node(t) },
        ),
{
    let s = t + seq!['*'] + d;
    let o = t.len() as int;
    assert(s[o] == '*');
    lemma_ident_exact(s, 0, o);
    assert(s.subrange(0, o) =~= t);
    assert forall|k: int| o + 1 <= k < o + 1 + d.len() implies is_digit(#[trigger] s[k]) by {
        assert(s[k] == d[k - o - 1]);
    }
    lemma_digits_exact(s, o + 1, d.len() as int);
    assert(s.subrange(o + 1, o + 1 + d.len()) =~= d);
    lemma_header_bounds(s, 0);
}

/// `t.c`, with `c` a name, is the element `t` with the class `c`.
pub proof fn law_class(t: Seq<char>, c: Seq<char>)
    requires
        is_name(t),
        is_name(c),
    ensures
        spec_parse(t + seq!['.'] + c) == Some(EmmetNodeView { classes: seq![c], ..bare_node(t) }),
{
    let s = t + seq!['.'] + c;
    let o = t.len() as int;
    assert(s[o] == '.');
    lemma_ident_exact(s, 0, o);
    assert(s.subrange(0, o) =~= t);
    assert forall|k: int| o + 1 <= k < o + 1 + c.len() implies is_ident_char(#[trigger] s[k]) by {
        assert(s[k] == c[k - o - 1]);
    }
    lemma_ident_exact(s, o + 1, c.len() as int);
    assert(s.subrange(o + 1, o + 1 + c.len()) =~= c);
    assert(parse_classes(s, s.len() as int).0 =~= Seq::<Seq<char>>::empty());
    assert(parse_classes(s, o).0 =~= seq![c]);
    lemma_header_bounds(s, 0);
}

/// `t#i`, with `i` a name, is the element `t` with the id `i`.
pub proof fn law_id(t: Seq<char>, i: Seq<char>)
    requires
        is_name(t),
        is_name(i),
    ensures
        spec_parse(t + seq!['#'] + i) == Some(EmmetNodeView { id: Some(i), ..bare_node(t) }),
{
    let s = t + seq!['#'] + i;
    let o = t.len() as int;
    assert(s[o] == '#');
    lemma_ident_exact(s, 0, o);
    assert(s.subrange(0, o) =~= t);
    assert forall|k: int| o + 1 <= k < o + 1 + i.len() implies is_ident_char(#[trigger] s[k]) by {
        assert(s[k] == i[k - o - 1]);
    }
    lemma_ident_exact(s, o + 1, i.len() as int);
    assert(s.subrange(o + 1, o + 1 + i.len()) =~= i);
    assert(parse_classes(s, s.len() as int).0 =~= Seq::<Seq<char>>::empty());
    lemma_header_bounds(s, 0);
}

/// `t{x}`, where `x` holds no `}`, is the element `t` with the text `x`.
pub proof fn law_text(t: Seq<char>, x: Seq<char>)
    requires
        is_name(t),
        forall|k: int| 0 <= k < x.len() ==> #[trigger] x[k] != '}',
    ensures
        spec_parse(t + seq!['{'] + x + seq!['}']) == Some(EmmetNodeView { text: Some(x), ..bare_node(t) }),
{
    let s = t + seq!['{'] + x + seq!['}'];
    let o = t.len() as int;
    assert(s[o] == '{');
    lemma_ident_exact(s, 0, o);
    assert(s.subrange(0, o) =~= t);
    assert forall|k: int| o + 1 <= k < o + 1 + x.len() implies #[trigger] s[k] != '}' by {
        assert(s[k] == x[k - o - 1]);
    }
    assert(s[o + 1 + x.len()] == '}');
    lemma_text_exact(s, o + 1, x.len() as int);
    assert(s.subrange(o + 1, o + 1 + x.len()) =~= x);
    lemma_header_bounds(s, 0);
}


proof fn lemma_list_single(s: Seq<char>, i: int, sep: char)
    requires
        0 <= i <= s.len(),
        sep == '>' || sep == '+',
    ensures
        parse_list(s, i, sep).0.len() <= 1,
{
    if i < s.len() && s[i] == sep {
        lemma_node_end(s, i + 1);
        lemma_parse_node_bounds(s, i + 1);
        let q = parse_node(s, i + 1).1;
        lemma_parse_list_bounds(s, q, sep);
        assert(parse_list(s, q, sep).0.len() == 0);
    }
}


/// An element tree as the grammar builds it: each element has at most one
/// nested or following element (not both); its tag, id and classes are
/// names; its text holds no `}`; and so on down the tree.
pub open spec fn tree_well_shaped(n: EmmetNodeView) -> bool
    decreases n,
{
    &&& n.children.len() + n.siblings.len() <= 1
    &&& is_name(n.tag)
    &&& (n.id matches Some(i) ==> is_name(i))
    &&& forall|k: int| 0 <= k < n.classes.len() ==> is_name(#[trigger] n.classes[k])
    &&& (n.text matches Some(x) ==> forall|k: int| 0 <= k < x.len() ==> #[trigger] x[k] != '}')
    &&& list_well_shaped(n.children)
    &&& list_well_shaped(n.siblings)
}

pub open spec fn list_well_shaped(l: Seq<EmmetNodeView>) -> bool
    decreases l,
{
    l.len() == 0 || (list_well_shaped(l.drop_last()) && tree_well_shaped(l.last()))
}

proof fn lemma_list_well_shaped(l: Seq<EmmetNodeView>)
    ensures
        list_well_shaped(l) <==> forall|k: int| 0 <= k < l.len() ==> tree_well_shaped(#[trigger] l[k]),
    decreases l.len(),
{
    if l.len() > 0 {
        lemma_list_well_shaped(l.drop_last());
        if list_well_shaped(l) {
            assert forall|k: int| 0 <= k < l.len() implies tree_well_shaped(#[trigger] l[k]) by {
                if k < l.len() - 1 {
                    assert(l.drop_last()[k] == l[k]);
                }
            }
        }
        if forall|k: int| 0 <= k < l.len() ==> tree_well_shaped(#[trigger] l[k]) {
            assert forall|k: int| 0 <= k < l.drop_last().len() implies tree_well_shaped(
                #[trigger] l.drop_last()[k],
            ) by {
                assert(l.drop_last()[k] == l[k]);
            }
        }
    }
}

proof fn lemma_name_at(s: Seq<char>, i: int)
    requires
        0 <= i <= s.len(),
        ident_len(s, i) > 0,
    ensures
        is_name(s.subrange(i, i + ident_len(s, i))),
{
    crate::parser::lemma_ident_len_bound(s, i);
    let t = s.subrange(i, i + ident_len(s, i));
    assert forall|k: int| 0 <= k < t.len() implies is_ident_char(#[trigger] t[k]) by {
        assert(t[k] == s[i + k]);
    }
}

proof fn lemma_classes_names(s: Seq<char>, i: int)
    requires
        0 <= i <= s.len(),
    ensures
        forall|k: int| 0 <= k < parse_classes(s, i).0.len() ==> is_name(#[trigger] parse_classes(s, i).0[k]),
    decreases s.len() - i,
{
    if i < s.len() && s[i] == '.' && ident_len(s, i + 1) > 0 {
        crate::parser::lemma_ident_len_bound(s, i + 1);
        lemma_name_at(s, i + 1);
        let n = ident_len(s, i + 1);
        lemma_classes_names(s, i + 1 + n);
        let l = parse_classes(s, i).0;
        let rest = parse_classes(s, i + 1 + n).0;
        assert forall|k: int| 0 <= k < l.len() implies is_name(#[trigger] l[k]) by {
            if k > 0 {
                assert(l[k] == rest[k - 1]);
            }
        }
    }
}

proof fn lemma_node_shape(s: Seq<char>, i: int)
    requires
        0 <= i <= s.len(),
    ensures
        tree_well_shaped(parse_node(s, i).0),
    decreases s.len() - i, 1int,
{
    let n = parse_node(s, i).0;
    lemma_header_bounds(s, i);
    crate::parser::lemma_ident_len_bound(s, i);
    if ident_len(s, i) > 0 {
        lemma_name_at(s, i);
    } else {
        assert(is_name(implicit_tag()));
    }
    let p1 = parse_tag(s, i).1;
    if p1 < s.len() && ident_len(s, p1 + 1) > 0 {
        lemma_name_at(s, p1 + 1);
    }
    let p2 = parse_id(s, p1).1;
    crate::parser::lemma_classes_bounds(s, p2);
    lemma_classes_names(s, p2);
    let p3 = parse_classes(s, p2).1;
    if p3 < s.len() {
        crate::parser::lemma_text_len_bound(s, p3 + 1);
        if n.text is Some {
            let x = n.text->0;
            assert forall|k: int| 0 <= k < x.len() implies #[trigger] x[k] != '}' by {
                assert(x[k] == s[p3 + 1 + k]);
            }
        }
    }
    let p5 = header_end(s, i);
    lemma_list_single(s, p5, '>');
    lemma_list_shape(s, p5, '>');
    lemma_list_end(s, p5, '>');
    lemma_parse_list_bounds(s, p5, '>');
    let p6 = parse_list(s, p5, '>').1;
    lemma_list_single(s, p6, '+');
    lemma_list_shape(s, p6, '+');
    if parse_list(s, p5, '>').0.len() > 0 {
        assert(parse_list(s, p6, '+').0.len() == 0);
    }
}

proof fn lemma_list_shape(s: Seq<char>, i: int, sep: char)
    requires
        0 <= i <= s.len(),
        sep == '>' || sep == '+',
    ensures
        list_well_shaped(parse_list(s, i, sep).0),
    decreases s.len() - i, 0int,
{
    let l = parse_list(s, i, sep).0;
    if i < s.len() && s[i] == sep {
        lemma_node_shape(s, i + 1);
        lemma_parse_node_bounds(s, i + 1);
        let q = parse_node(s, i + 1).1;
        lemma_list_shape(s, q, sep);
        let rest = parse_list(s, q, sep).0;
        lemma_list_well_shaped(rest);
        assert forall|k: int| 0 <= k < l.len() implies tree_well_shaped(#[trigger] l[k]) by {
            if k > 0 {
                assert(l[k] == rest[k - 1]);
            }
        }
    }
    lemma_list_well_shaped(l);
}

/// Every tree the grammar builds is well shaped: no element has more than
/// one nested or following element, nor both; tags, ids and classes are
/// non-empty and free of `#.*{+>`; texts hold no `}`.
pub proof fn law_parsed_tree_shape(s: Seq<char>)
    ensures
        spec_parse(s) matches Some(n) ==> tree_well_shaped(n),
        forall|i: int| 0 <= i <= s.len() ==> tree_well_shaped(#[trigger] parse_node(s, i).0),
{
    assert forall|i: int| 0 <= i <= s.len() implies tree_well_shaped(#[trigger] parse_node(s, i).0) by {
        lemma_node_shape(s, i);
    }
    lemma_node_shape(s, 0);
}


/// The text `.c1.c2...` of a list of classes.
pub open spec fn classes_text(cs: Seq<Seq<char>>) -> Seq<char>
    decreases cs.len(),
{
    if cs.len() == 0 {
        Seq::empty()
    } else {
        seq!['.'] + cs[0] + classes_text(cs.drop_first())
    }
}

/// The text of an element's header: its tag name, then `#id`, the
/// `.class`es, `{text}` and `*count`, each where given.
pub open spec fn header_text(
    t: Seq<char>,
    id: Option<Seq<char>>,
    cs: Seq<Seq<char>>,
    text: Option<Seq<char>>,
    count: Option<Seq<char>>,
) -> Seq<char> {
    t + (match id {
        Some(i) => seq!['#'] + i,
        None => Seq::empty(),
    }) + classes_text(cs) + (match text {
        Some(x) => seq!['{'] + x + seq!['}'],
        None => Seq::empty(),
    }) + (match count {
        Some(d) => seq!['*'] + d,
        None => Seq::empty(),
    })
}

/// The parts of a header are well formed: names for the tag, the id and
/// every class; a text without `}`; a count of one or more decimal digits.
pub open spec fn header_parts_ok(
    t: Seq<char>,
    id: Option<Seq<char>>,
    cs: Seq<Seq<char>>,
    text: Option<Seq<char>>,
    count: Option<Seq<char>>,
) -> bool {
    &&& is_name(t)
    &&& (id matches Some(i) ==> is_name(i))
    &&& forall|k: int| 0 <= k < cs.len() ==> is_name(#[trigger] cs[k])
    &&& (text matches Some(x) ==> forall|k: int| 0 <= k < x.len() ==> #[trigger] x[k] != '}')
    &&& (count matches Some(d) ==> d.len() > 0 && forall|k: int|
        0 <= k < d.len() ==> '0' <= #[trigger] d[k] && d[k] <= '9')
}

/// The element that a well formed header denotes, with the given nested
/// and following elements.
pub open spec fn header_element(
    t: Seq<char>,
    id: Option<Seq<char>>,
    cs: Seq<Seq<char>>,
    text: Option<Seq<char>>,
    count: Option<Seq<char>>,
    children: Seq<EmmetNodeView>,
    siblings: Seq<EmmetNodeView>,
) -> EmmetNodeView {
    EmmetNodeView {
        tag: t,
        id,
        classes: cs,
        children,
        siblings,
        multiplier: match count {
            Some(d) => digits_value(d),
            None => 1,
        },
        text,
    }
}

proof fn lemma_classes_exact(s: Seq<char>, o: int, cs: Seq<Seq<char>>)
    requires
        0 <= o,
        o + classes_text(cs).len() <= s.len(),
        s.subrange(o, o + classes_text(cs).len()) == classes_text(cs),
        forall|k: int| 0 <= k < cs.len() ==> is_name(#[trigger] cs[k]),
        o + classes_text(cs).len() == s.len() || (s[o + classes_text(cs).len()] != '.' && !is_ident_char(
            s[o + classes_text(cs).len()],
        )),
    ensures
        parse_classes(s, o) == (cs, o + classes_text(cs).len()),
    decreases cs.len(),
{
    let ct = classes_text(cs);
    let e = o + ct.len();
    if cs.len() == 0 {
        if o < s.len() {
            assert(s[o] != '.');
        }
        assert(parse_classes(s, o).0 =~= cs);
    } else {
        let c = cs[0];
        assert(is_name(c));
        let rest = classes_text(cs.drop_first());
        assert(ct =~= seq!['.'] + c + rest);
        assert(s[o] == ct[0]);
        assert forall|k: int| o + 1 <= k < o + 1 + c.len() implies is_ident_char(#[trigger] s[k]) by {
            assert(s[k] == ct[k - o]);
            assert(ct[k - o] == c[k - o - 1]);
        }
        let m = o + 1 + c.len();
        if m < s.len() {
            if rest.len() > 0 {
                assert(s[m] == ct[m - o]);
                assert(ct[m - o] == rest[0]);
                assert(rest[0] == '.');
            }
        }
        lemma_ident_exact(s, o + 1, c.len() as int);
        assert forall|k: int| 0 <= k < c.len() implies s.subrange(o + 1, m)[k] == c[k] by {
            assert(s[o + 1 + k] == ct[1 + k]);
        }
        assert(s.subrange(o + 1, m) =~= c);
        assert forall|k: int| 0 <= k < cs.drop_first().len() implies is_name(#[trigger] cs.drop_first()[k]) by {
            assert(cs.drop_first()[k] == cs[k + 1]);
        }
        assert(s.subrange(m, m + rest.len()) =~= rest) by {
            assert forall|k: int| 0 <= k < rest.len() implies s.subrange(m, m + rest.len())[k] == rest[k] by {
                assert(s[m + k] == ct[m + k - o]);
            }
        }
        lemma_classes_exact(s, m, cs.drop_first());
        assert(parse_classes(s, o).0 =~= cs);
    }
}

proof fn lemma_pieces(a: Seq<char>, b: Seq<char>, c: Seq<char>, d: Seq<char>, e: Seq<char>, rest: Seq<char>)
    ensures
        ({
            let s = a + b + c + d + e + rest;
            let o1 = a.len() as int;
            let o2 = o1 + b.len();
            let o3 = o2 + c.len();
            let o4 = o3 + d.len();
            let o5 = o4 + e.len();
            &&& s.len() == o5 + rest.len()
            &&& s.subrange(0, o1) == a
            &&& s.subrange(o1, o2) == b
            &&& s.subrange(o2, o3) == c
            &&& s.subrange(o3, o4) == d
            &&& s.subrange(o4, o5) == e
            &&& s.subrange(o5, s.len() as int) == rest
        }),
{
    let s = a + b + c + d + e + rest;
    let o1 = a.len() as int;
    let o2 = o1 + b.len();
    let o3 = o2 + c.len();
    let o4 = o3 + d.len();
    let o5 = o4 + e.len();
    assert(s.subrange(0, o1) =~= a);
    assert(s.subrange(o1, o2) =~= b);
    assert(s.subrange(o2, o3) =~= c);
    assert(s.subrange(o3, o4) =~= d);
    assert(s.subrange(o4, o5) =~= e);
    assert(s.subrange(o5, s.len() as int) =~= rest);
}

proof fn lemma_stage_tag(s: Seq<char>, t: Seq<char>, o1: int)
    requires
        0 <= o1 <= s.len(),
        s.subrange(0, o1) == t,
        is_name(t),
        o1 == s.len() || !is_ident_char(s[o1]),
    ensures
        parse_tag(s, 0) == (t, o1),
{
    assert forall|k: int| 0 <= k < o1 implies is_ident_char(#[trigger] s[k]) by {
        assert(s[k] == s.subrange(0, o1)[k]);
    }
    lemma_ident_exact(s, 0, o1);
}

proof fn lemma_stage_id(s: Seq<char>, o1: int, id: Option<Seq<char>>, o2: int)
    requires
        0 <= o1 <= o2 <= s.len(),
        s.subrange(o1, o2) == (match id {
            Some(i) => seq!['#'] + i,
            None => Seq::<char>::empty(),
        }),
        id matches Some(i) ==> is_name(i),
        o2 == s.len() || (s[o2] != '#' && !is_ident_char(s[o2])),
    ensures
        parse_id(s, o1) == (id, o2),
{
    if id is Some {
        let i = id->0;
        let w = s.subrange(o1, o2);
        assert(w == seq!['#'] + i);
        assert(w.len() == o2 - o1);
        assert(w.len() == 1 + i.len());
        assert(w[0] == '#');
        assert(s[o1] == s.subrange(o1, o2)[0]);
        assert forall|k: int| o1 + 1 <= k < o2 implies is_ident_char(#[trigger] s[k]) by {
            assert(s[k] == s.subrange(o1, o2)[k - o1]);
        }
        lemma_ident_exact(s, o1 + 1, i.len() as int);
        assert(s.subrange(o1 + 1, o2) =~= i) by {
            assert forall|k: int| 0 <= k < i.len() implies s.subrange(o1 + 1, o2)[k] == i[k] by {
                assert(s[o1 + 1 + k] == s.subrange(o1, o2)[k + 1]);
            }
        }
    } else {
        assert(s.subrange(o1, o2).len() == 0);
        assert(o1 == o2);
    }
}

proof fn lemma_stage_text(s: Seq<char>, o3: int, text: Option<Seq<char>>, o4: int)
    requires
        0 <= o3 <= o4 <= s.len(),
        s.subrange(o3, o4) == (match text {
            Some(x) => seq!['{'] + x + seq!['}'],
            None => Seq::<char>::empty(),
        }),
        text matches Some(x) ==> forall|k: int| 0 <= k < x.len() ==> #[trigger] x[k] != '}',
        o4 == s.len() || s[o4] != '{',
    ensures
        parse_text(s, o3) == (text, o4),
{
    if text is Some {
        let x = text->0;
        let w = s.subrange(o3, o4);
        assert(w == seq!['{'] + x + seq!['}']);
        assert(w.len() == o4 - o3);
        assert(w.len() == 2 + x.len());
        assert(w[0] == '{');
        assert(w[(1 + x.len()) as int] == '}');
        assert(s[o3] == w[0]);
        assert forall|k: int| o3 + 1 <= k < o3 + 1 + x.len() implies #[trigger] s[k] != '}' by {
            assert(s[k] == w[k - o3]);
        }
        assert(s[o3 + 1 + x.len()] == w[(1 + x.len()) as int]);
        lemma_text_exact(s, o3 + 1, x.len() as int);
        assert(s.subrange(o3 + 1, o3 + 1 + x.len()) =~= x) by {
            assert forall|k: int| 0 <= k < x.len() implies s.subrange(o3 + 1, o3 + 1 + x.len())[k] == x[k] by {
                assert(s[o3 + 1 + k] == w[k + 1]);
            }
        }
    } else {
        assert(s.subrange(o3, o4).len() == 0);
        assert(o3 == o4);
    }
}

proof fn lemma_stage_count(s: Seq<char>, o4: int, count: Option<Seq<char>>, o5: int)
    requires
        0 <= o4 <= o5 <= s.len(),
        s.subrange(o4, o5) == (match count {
            Some(d) => seq!['*'] + d,
            None => Seq::<char>::empty(),
        }),
        count matches Some(d) ==> d.len() > 0 && forall|k: int| 0 <= k < d.len() ==> '0' <= #[trigger] d[k] && d[k] <= '9',
        o5 == s.len() || (s[o5] != '*' && !is_digit(s[o5])),
    ensures
        parse_multiplier(s, o4) == (match count {
            Some(d) => digits_value(d),
            None => 1nat,
        }, o5),
{
    if count is Some {
        let d = count->0;
        let w = s.subrange(o4, o5);
        assert(w == seq!['*'] + d);
        assert(w.len() == o5 - o4);
        assert(w.len() == 1 + d.len());
        assert(w[0] == '*');
        assert(s[o4] == w[0]);
        assert forall|k: int| o4 + 1 <= k < o5 implies is_digit(#[trigger] s[k]) by {
            assert(s[k] == w[k - o4]);
        }
        lemma_digits_exact(s, o4 + 1, d.len() as int);
        assert(s.subrange(o4 + 1, o5) =~= d) by {
            assert forall|k: int| 0 <= k < d.len() implies s.subrange(o4 + 1, o5)[k] == d[k] by {
                assert(s[o4 + 1 + k] == w[k + 1]);
            }
        }
    } else {
        assert(s.subrange(o4, o5).len() == 0);
        assert(o4 == o5);
    }
}

/// A well formed header followed by nothing, `>` or `+` is read part by
/// part: the element gets exactly the tag, id, classes, text and count of
/// the header, which ends where its count does.
#[verifier::rlimit(100)]
#[verifier::spinoff_prover]
proof fn lemma_header(
    t: Seq<char>,
    id: Option<Seq<char>>,
    cs: Seq<Seq<char>>,
    text: Option<Seq<char>>,
    count: Option<Seq<char>>,
    rest: Seq<char>,
)
    requires
        header_parts_ok(t, id, cs, text, count),
        rest.len() == 0 || rest[0] == '>' || rest[0] == '+',
    ensures
        ({
            let s = header_text(t, id, cs, text, count) + rest;
            &&& header_end(s, 0) == header_text(t, id, cs, text, count).len()
            &&& parse_node(s, 0).0.tag == t
            &&& parse_node(s, 0).0.id == id
            &&& parse_node(s, 0).0.classes == cs
            &&& parse_node(s, 0).0.text == text
            &&& parse_node(s, 0).0.multiplier == header_element(t, id, cs, text, count, Seq::empty(), Seq::empty()).multiplier
        }),
{
    let idp = match id {
        Some(i) => seq!['#'] + i,
        None => Seq::<char>::empty(),
    };
    let ct = classes_text(cs);
    let tp = match text {
        Some(x) => seq!['{'] + x + seq!['}'],
        None => Seq::<char>::empty(),
    };
    let cp = match count {
        Some(d) => seq!['*'] + d,
        None => Seq::<char>::empty(),
    };
    let h = header_text(t, id, cs, text, count);
    assert(h == t + idp + ct + tp + cp);
    let s = h + rest;
    lemma_pieces(t, idp, ct, tp, cp, rest);
    let o1 = t.len() as int;
    let o2 = o1 + idp.len();
    let o3 = o2 + ct.len();
    let o4 = o3 + tp.len();
    let o5 = o4 + cp.len();
    // the first character after each part
    if o5 < s.len() {
        assert(s[o5] == s.subrange(o5, s.len() as int)[0]);
    }
    if o4 < s.len() && cp.len() > 0 {
        assert(s[o4] == s.subrange(o4, o5)[0]);
    }
    if o3 < s.len() && tp.len() > 0 {
        assert(s[o3] == s.subrange(o3, o4)[0]);
    }
    if o2 < s.len() && ct.len() > 0 {
        assert(s[o2] == s.subrange(o2, o3)[0]);
    }
    if o1 < s.len() && idp.len() > 0 {
        assert(s[o1] == s.subrange(o1, o2)[0]);
    }
    lemma_stage_count(s, o4, count, o5);
    lemma_stage_text(s, o3, text, o4);
    lemma_classes_exact(s, o2, cs);
    lemma_stage_id(s, o1, id, o2);
    lemma_stage_tag(s, t, o1);
    lemma_header_bounds(s, 0);
}

/// A well formed header alone is the element it describes, with nothing
/// nested and nothing after it.
pub proof fn law_header_alone(
    t: Seq<char>,
    id: Option<Seq<char>>,
    cs: Seq<Seq<char>>,
    text: Option<Seq<char>>,
    count: Option<Seq<char>>,
)
    requires
        header_parts_ok(t, id, cs, text, count),
    ensures
        spec_parse(header_text(t, id, cs, text, count)) == Some(
            header_element(t, id, cs, text, count, Seq::empty(), Seq::empty()),
        ),
{
    let h = header_text(t, id, cs, text, count);
    lemma_header(t, id, cs, text, count, Seq::empty());
    assert(h + Seq::<char>::empty() =~= h);
    let o = h.len() as int;
    assert(parse_list(h, o, '>').0 =~= Seq::<EmmetNodeView>::empty());
    assert(parse_list(h, o, '+').0 =~= Seq::<EmmetNodeView>::empty());
}

/// After any well formed header (tag, `#id`, `.class`es, `{text}`,
/// `*count`), `>r` nests the tree of `r` in the element and puts nothing
/// after it, whatever the count; it is refused exactly where `r` is.
pub proof fn law_header_child(
    t: Seq<char>,
    id: Option<Seq<char>>,
    cs: Seq<Seq<char>>,
    text: Option<Seq<char>>,
    count: Option<Seq<char>>,
    r: Seq<char>,
)
    requires
        header_parts_ok(t, id, cs, text, count),
    ensures
        spec_parse(header_text(t, id, cs, text, count) + seq!['>'] + r) == match spec_parse(r) {
            Some(n) => Some(header_element(t, id, cs, text, count, seq![n], Seq::empty())),
            None => None::<EmmetNodeView>,
        },
{
    let h = header_text(t, id, cs, text, count);
    let p = h + seq!['>'];
    let s = p + r;
    assert(h + (seq!['>'] + r) == s);
    lemma_header(t, id, cs, text, count, seq!['>'] + r);
    let o = h.len() as int;
    assert(s[o] == '>');
    lemma_shift_node(p, r, 0);
    lemma_parse_node_bounds(r, 0);
    lemma_node_end(r, 0);
    let q = parse_node(r, 0).1 + p.len();
    if q < s.len() {
        assert(s[q] == r[parse_node(r, 0).1]);
    }
    lemma_parse_list_bounds(s, q, '>');
    assert(parse_list(s, q, '>').0 =~= Seq::<EmmetNodeView>::empty());
    assert(parse_list(s, o, '>').0 =~= seq![parse_node(r, 0).0]);
    assert(parse_list(s, q, '+').0 =~= Seq::<EmmetNodeView>::empty());
}

/// After any well formed header, `+r` puts the tree of `r` after the element
/// and nests nothing in it, whatever the count; it is refused exactly where
/// `r` is.
pub proof fn law_header_sibling(
    t: Seq<char>,
    id: Option<Seq<char>>,
    cs: Seq<Seq<char>>,
    text: Option<Seq<char>>,
    count: Option<Seq<char>>,
    r: Seq<char>,
)
    requires
        header_parts_ok(t, id, cs, text, count),
    ensures
        spec_parse(header_text(t, id, cs, text, count) + seq!['+'] + r) == match spec_parse(r) {
            Some(n) => Some(header_element(t, id, cs, text, count, Seq::empty(), seq![n])),
            None => None::<EmmetNodeView>,
        },
{
    let h = header_text(t, id, cs, text, count);
    let p = h + seq!['+'];
    let s = p + r;
    assert(h + (seq!['+'] + r) == s);
    lemma_header(t, id, cs, text, count, seq!['+'] + r);
    let o = h.len() as int;
    assert(s[o] == '+');
    assert(parse_list(s, o, '>').0 =~= Seq::<EmmetNodeView>::empty());
    lemma_shift_node(p, r, 0);
    lemma_parse_node_bounds(r, 0);
    lemma_node_end(r, 0);
    let q = parse_node(r, 0).1 + p.len();
    if q < s.len() {
        assert(s[q] == r[parse_node(r, 0).1]);
    }
    assert(parse_list(s, q, '+').0 =~= Seq::<EmmetNodeView>::empty());
    assert(parse_list(s, o, '+').0 =~= seq![parse_node(r, 0).0]);
}


proof fn lemma_decimal(n: nat)
    ensures
        decimal(n).len() > 0,
        forall|k: int| 0 <= k < decimal(n).len() ==> '0' <= #[trigger] decimal(n)[k] && decimal(n)[k] <= '9',
        digits_value(decimal(n)) == n,
    decreases n,
{
    let d = decimal(n);
    let k = n % 10;
    assert(0 <= k < 10);
    assert((('0' as int) + k) as char as int == ('0' as int) + k);
    assert((digit_char(k) as nat) - ('0' as nat) == k);
    assert(d.last() == digit_char(k));
    assert(digits_value(d) == digits_value(d.drop_last()) * 10 + k);
    if n < 10 {
        assert(d.drop_last() =~= Seq::<char>::empty());
        assert(digits_value(d.drop_last()) == 0);
    } else {
        lemma_decimal(n / 10);
        assert(d.drop_last() =~= decimal(n / 10));
        assert((n / 10) * 10 + n % 10 == n);
        assert forall|k: int| 0 <= k < d.len() implies '0' <= #[trigger] d[k] && d[k] <= '9' by {
            if k < d.len() - 1 {
                assert(d[k] == decimal(n / 10)[k]);
            }
        }
    }
}

/// The count after `*` is the number its digits write: for every number
/// `m`, a name followed by `*` and the decimal numeral of `m` is that
/// element with multiplier `m`.
pub proof fn law_count_reads_its_number(t: Seq<char>, m: nat)
    requires
        is_name(t),
    ensures
        spec_parse(t + seq!['*'] + decimal(m)) == Some(
            EmmetNodeView {
                tag: t,
                id: None,
                classes: Seq::empty(),
                children: Seq::empty(),
                siblings: Seq::empty(),
                multiplier: m,
                text: None,
            },
        ),
{
    lemma_decimal(m);
    law_header_alone(t, None, Seq::empty(), None, Some(decimal(m)));
    assert(classes_text(Seq::<Seq<char>>::empty()) =~= Seq::<char>::empty());
    assert(header_text(t, None, Seq::empty(), None, Some(decimal(m))) =~= t + seq!['*'] + decimal(m));
}

/// Every name is read whole as a class: for any name `c` (characters other
/// than `#`, `.`, `*`, `{`, `+` and `>`, such as `-` or `_`), `t.c` is the
/// element `t` with the single class `c`.
pub proof fn law_class_name(t: Seq<char>, c: Seq<char>)
    requires
        t.len() > 0,
        c.len() > 0,
        forall|k: int|
            0 <= k < t.len() ==> #[trigger] t[k] != '#' && t[k] != '.' && t[k] != '*' && t[k] != '{' && t[k]
                != '+' && t[k] != '>',
        forall|k: int|
            0 <= k < c.len() ==> #[trigger] c[k] != '#' && c[k] != '.' && c[k] != '*' && c[k] != '{' && c[k]
                != '+' && c[k] != '>',
    ensures
        spec_parse(t + seq!['.'] + c) == Some(
            EmmetNodeView {
                tag: t,
                id: None,
                classes: seq![c],
                children: Seq::empty(),
                siblings: Seq::empty(),
                multiplier: 1,
                text: None,
            },
        ),
{
    law_header_alone(t, None, seq![c], None, None);
    assert(classes_text(seq![c].drop_first()) =~= Seq::<char>::empty());
    assert(classes_text(seq![c]) =~= seq!['.'] + c);
    assert(header_text(t, None, seq![c], None, None) =~= t + seq!['.'] + c);
}

} // verus!
