//! Expansion of an element tree into Phlex markup.
use vstd::prelude::*;
use vstd::string::*;
use crate::text::{join_strings, repeat_join, repeated, seq_join};
use crate::types::{EmmetNode, EmmetNodeView, bare_node, lemma_nodes_view, nodes_view, opt_seq, strings_view};

verus! {

broadcast use vstd::string::group_string_axioms;

/// The `class:` argument of an element, where it has classes.
pub open spec fn class_argument(n: EmmetNodeView) -> Option<Seq<char>> {
    if n.classes.len() == 0 {
        None
    } else {
        Some("class: '"@ + seq_join(n.classes, " "@) + "'"@)
    }
}

/// The `id:` argument of an element, where it has an id.
pub open spec fn id_argument(n: EmmetNodeView) -> Option<Seq<char>> {
    match n.id {
        Some(id) => Some("id: '"@ + id + "'"@),
        None => None,
    }
}

/// The argument list of an element: empty where it has neither classes nor
/// id; else, in parentheses, the class argument and then the id argument,
/// separated by `", "`.
pub open spec fn arguments_text(n: EmmetNodeView) -> Seq<char> {
    let items = opt_seq(class_argument(n)) + opt_seq(id_argument(n));
    if items.len() == 0 {
        Seq::empty()
    } else {
        "("@ + seq_join(items, ", "@) + ")"@
    }
}

/// The text of an element as a string literal of the markup: verbatim,
/// between double quotes.
pub open spec fn text_item(n: EmmetNodeView) -> Option<Seq<char>> {
    match n.text {
        Some(t) => Some("\""@ + t + "\""@),
        None => None,
    }
}

/// The markup of one copy of an element: tag, arguments, then in braces its
/// text (if any) and its nested elements, one per line; then a line break
/// and the following elements (one per line).
pub open spec fn expansion_text(n: EmmetNodeView) -> Seq<char>
    decreases n, 0int,
{
    n.tag + arguments_text(n) + " { "@ + seq_join(opt_seq(text_item(n)) + render_list(n.children), "\n"@)
        + " }"@ + "\n"@ + seq_join(render_list(n.siblings), "\n"@)
}

/// The markup of an element: its expansion repeated `multiplier` times, one
/// copy per line (nothing at all for a multiplier of zero).
pub open spec fn render_spec(n: EmmetNodeView) -> Seq<char>
    decreases n, 1int,
{
    seq_join(repeated(expansion_text(n), n.multiplier), "\n"@)
}

pub open spec fn render_list(l: Seq<EmmetNodeView>) -> Seq<Seq<char>>
    decreases l,
{
    if l.len() == 0 {
        Seq::empty()
    } else {
        render_list(l.drop_last()).push(render_spec(l.last()))
    }
}

pub proof fn lemma_render_list(l: Seq<EmmetNodeView>)
    ensures
        render_list(l).len() == l.len(),
        forall|k: int| 0 <= k < l.len() ==> #[trigger] render_list(l)[k] == render_spec(l[k]),
    decreases l.len(),
{
    if l.len() > 0 {
        lemma_render_list(l.drop_last());
    }
}

/// An element with a multiplier of zero expands to nothing.
pub proof fn law_render_zero(n: EmmetNodeView)
    requires
        n.multiplier == 0,
    ensures
        render_spec(n) == Seq::<char>::empty(),
{
    assert(repeated(expansion_text(n), 0) =~= Seq::<Seq<char>>::empty());
}

/// An element with a multiplier of one expands to one copy of its markup.
pub proof fn law_render_once(n: EmmetNodeView)
    requires
        n.multiplier == 1,
    ensures
        render_spec(n) == expansion_text(n),
{
    assert(repeated(expansion_text(n), 1).drop_last() =~= Seq::<Seq<char>>::empty());
}

/// One more in the multiplier adds a line break and one more copy of the
/// element's markup.
pub proof fn law_render_more(n: EmmetNodeView)
    requires
        n.multiplier >= 1,
    ensures
        render_spec(EmmetNodeView { multiplier: n.multiplier + 1, ..n }) == render_spec(n) + "\n"@
            + expansion_text(n),
        render_spec(EmmetNodeView { multiplier: n.multiplier + 1, ..n }) == render_spec(n) + "\n"@
            + render_spec(EmmetNodeView { multiplier: 1, ..n }),
{
    let m = EmmetNodeView { multiplier: n.multiplier + 1, ..n };
    law_render_once(EmmetNodeView { multiplier: 1, ..n });
    assert(expansion_text(EmmetNodeView { multiplier: 1, ..n }) == expansion_text(n));
    assert(expansion_text(m) == expansion_text(n));
    assert(repeated(expansion_text(n), n.multiplier + 1).drop_last() =~= repeated(
        expansion_text(n),
        n.multiplier,
    ));
}

/// The element `t` holding one nested element `n` expands to `t`, then the
/// markup of `n` in braces, then a line break.
pub proof fn law_render_child(t: Seq<char>, n: EmmetNodeView)
    ensures
        render_spec(EmmetNodeView { children: seq![n], ..bare_node(t) }) == t + " { "@ + render_spec(n)
            + " }"@ + "\n"@,
{
    let m = EmmetNodeView { children: seq![n], ..bare_node(t) };
    lemma_bare_arguments(m);
    lemma_render_list(seq![n]);
    assert(render_list(seq![n]) =~= seq![render_spec(n)]);
    assert(render_list(Seq::<EmmetNodeView>::empty()) =~= Seq::<Seq<char>>::empty());
    assert(opt_seq(text_item(m)) + render_list(seq![n]) =~= seq![render_spec(n)]);
    law_render_once(m);
    assert(expansion_text(m) =~= t + " { "@ + render_spec(n) + " }"@ + "\n"@);
}

/// The element `t` followed by one element `n` expands to `t` with empty
/// braces, a line break, then the markup of `n`.
pub proof fn law_render_sibling(t: Seq<char>, n: EmmetNodeView)
    ensures
        render_spec(EmmetNodeView { siblings: seq![n], ..bare_node(t) }) == t + " { "@ + " }"@ + "\n"@
            + render_spec(n),
{
    let m = EmmetNodeView { siblings: seq![n], ..bare_node(t) };
    lemma_bare_arguments(m);
    lemma_render_list(seq![n]);
    assert(render_list(seq![n]) =~= seq![render_spec(n)]);
    assert(render_list(Seq::<EmmetNodeView>::empty()) =~= Seq::<Seq<char>>::empty());
    assert(opt_seq(text_item(m)) + render_list(Seq::<EmmetNodeView>::empty()) =~= Seq::<Seq<char>>::empty());
    law_render_once(m);
    assert(expansion_text(m) =~= t + " { "@ + " }"@ + "\n"@ + render_spec(n));
}

/// The element `t` with the text `x` expands to `t`, then `x` between double
/// quotes in braces, then a line break.
pub proof fn law_render_text(t: Seq<char>, x: Seq<char>)
    ensures
        render_spec(EmmetNodeView { text: Some(x), ..bare_node(t) }) == t + " { "@ + "\""@ + x + "\""@
            + " }"@ + "\n"@,
{
    let m = EmmetNodeView { text: Some(x), ..bare_node(t) };
    lemma_bare_arguments(m);
    assert(render_list(Seq::<EmmetNodeView>::empty()) =~= Seq::<Seq<char>>::empty());
    assert(opt_seq(text_item(m)) + render_list(Seq::<EmmetNodeView>::empty()) =~= seq!["\""@ + x + "\""@]);
    law_render_once(m);
    assert(expansion_text(m) =~= t + " { "@ + "\""@ + x + "\""@ + " }"@ + "\n"@);
}

/// An element with classes and an id passes both as one argument list: the
/// classes (joined with spaces) then the id, separated by `", "`.
pub proof fn law_render_class_and_id(n: EmmetNodeView)
    requires
        n.classes.len() > 0,
        n.id is Some,
    ensures
        arguments_text(n) == "("@ + "class: '"@ + seq_join(n.classes, " "@) + "'"@ + ", "@ + "id: '"@
            + n.id->0 + "'"@ + ")"@,
{
    let items = opt_seq(class_argument(n)) + opt_seq(id_argument(n));
    assert(items.len() == 2);
    assert(items.drop_last() =~= seq![class_argument(n)->0]);
    assert(seq_join(items.drop_last(), ", "@) == class_argument(n)->0);
    assert(items.last() == id_argument(n)->0);
    assert(seq_join(items, ", "@) == class_argument(n)->0 + ", "@ + id_argument(n)->0);
    assert(arguments_text(n) =~= "("@ + "class: '"@ + seq_join(n.classes, " "@) + "'"@ + ", "@ + "id: '"@
        + n.id->0 + "'"@ + ")"@);
}

proof fn lemma_bare_arguments(m: EmmetNodeView)
    requires
        m.classes.len() == 0,
        m.id is None,
    ensures
        arguments_text(m) == Seq::<char>::empty(),
{
    assert(opt_seq(class_argument(m)) + opt_seq(id_argument(m)) =~= Seq::<Seq<char>>::empty());
}

/// For any element read once, the elements that follow it come after its
/// own markup: the markup of an element with one following element `x` is
/// the markup of the element alone, then that of `x`.
pub proof fn law_render_following(n: EmmetNodeView, x: EmmetNodeView)
    ensures
        render_spec(EmmetNodeView { siblings: seq![x], multiplier: 1, ..n }) == render_spec(
            EmmetNodeView { siblings: Seq::empty(), multiplier: 1, ..n },
        ) + render_spec(x),
{
    let a = EmmetNodeView { siblings: seq![x], multiplier: 1, ..n };
    let b = EmmetNodeView { siblings: Seq::empty(), multiplier: 1, ..n };
    law_render_once(a);
    law_render_once(b);
    lemma_render_list(seq![x]);
    assert(render_list(seq![x]) =~= seq![render_spec(x)]);
    assert(render_list(Seq::<EmmetNodeView>::empty()) =~= Seq::<Seq<char>>::empty());
    assert(arguments_text(a) == arguments_text(b));
    assert(expansion_text(a) =~= expansion_text(b) + render_spec(x));
}

/// An element read once, with nothing nested and nothing after it, is its
/// tag; then, in parentheses, `class: '...'` with its classes joined by
/// spaces and `id: '...'` (those it has, separated by `", "`); then braces
/// holding its text between double quotes (if any); then a line break.
pub proof fn law_render_leaf(n: EmmetNodeView)
    requires
        n.children.len() == 0,
        n.siblings.len() == 0,
        n.multiplier == 1,
    ensures
        render_spec(n) == n.tag + (if n.classes.len() == 0 && n.id is None {
            Seq::<char>::empty()
        } else if n.id is None {
            "(class: '"@ + seq_join(n.classes, " "@) + "')"@
        } else if n.classes.len() == 0 {
            "(id: '"@ + n.id->0 + "')"@
        } else {
            "(class: '"@ + seq_join(n.classes, " "@) + "', id: '"@ + n.id->0 + "')"@
        }) + " { "@ + (match n.text {
            Some(x) => "\""@ + x + "\""@,
            None => Seq::<char>::empty(),
        }) + " }"@ + "\n"@,
{
    reveal_strlit("(class: '");
    reveal_strlit("')");
    reveal_strlit("(id: '");
    reveal_strlit("', id: '");
    reveal_strlit("class: '");
    reveal_strlit("'");
    reveal_strlit("id: '");
    reveal_strlit("(");
    reveal_strlit(")");
    reveal_strlit(", ");
    law_render_once(n);
    assert(render_list(Seq::<EmmetNodeView>::empty()) =~= Seq::<Seq<char>>::empty());
    assert(n.children =~= Seq::<EmmetNodeView>::empty());
    assert(n.siblings =~= Seq::<EmmetNodeView>::empty());
    let items = opt_seq(class_argument(n)) + opt_seq(id_argument(n));
    if n.classes.len() > 0 && n.id is Some {
        law_render_class_and_id(n);
    } else if n.classes.len() > 0 {
        assert(items =~= seq![class_argument(n)->0]);
    } else if n.id is Some {
        assert(items =~= seq![id_argument(n)->0]);
    } else {
        assert(items =~= Seq::<Seq<char>>::empty());
    }
    let body = opt_seq(text_item(n)) + render_list(n.children);
    if n.text is Some {
        assert(body =~= seq![text_item(n)->0]);
    } else {
        assert(body =~= Seq::<Seq<char>>::empty());
    }
    let args = if n.classes.len() == 0 && n.id is None {
        Seq::<char>::empty()
    } else if n.id is None {
        "(class: '"@ + seq_join(n.classes, " "@) + "')"@
    } else if n.classes.len() == 0 {
        "(id: '"@ + n.id->0 + "')"@
    } else {
        "(class: '"@ + seq_join(n.classes, " "@) + "', id: '"@ + n.id->0 + "')"@
    };
    assert(arguments_text(n) =~= args);
}

/// Nesting one element `c` in an element read once, with no text and
/// nothing after it, puts the markup of `c` between its braces: the markup
/// ends as ` { ` + markup of `c` + ` }` + line break where, without `c`, it
/// ends as ` {  }` + line break, and the two agree before that.
pub proof fn law_render_nested(n: EmmetNodeView, c: EmmetNodeView)
    requires
        n.siblings.len() == 0,
        n.text is None,
        n.multiplier == 1,
    ensures
        ({
            let alone = render_spec(EmmetNodeView { children: Seq::empty(), ..n });
            &&& alone.len() >= 6
            &&& alone.skip(alone.len() - 6) == " {  }\n"@
            &&& render_spec(EmmetNodeView { children: seq![c], ..n }) == alone.take(alone.len() - 6)
                + " { "@ + render_spec(c) + " }"@ + "\n"@
        }),
{
    reveal_strlit(" {  }\n");
    reveal_strlit(" { ");
    reveal_strlit(" }");
    reveal_strlit("\n");
    let a = EmmetNodeView { children: seq![c], ..n };
    let b = EmmetNodeView { children: Seq::empty(), ..n };
    law_render_once(a);
    law_render_once(b);
    lemma_render_list(seq![c]);
    assert(render_list(seq![c]) =~= seq![render_spec(c)]);
    assert(render_list(Seq::<EmmetNodeView>::empty()) =~= Seq::<Seq<char>>::empty());
    assert(n.siblings =~= Seq::<EmmetNodeView>::empty());
    assert(opt_seq(text_item(a)) + render_list(a.children) =~= seq![render_spec(c)]);
    assert(opt_seq(text_item(b)) + render_list(b.children) =~= Seq::<Seq<char>>::empty());
    assert(arguments_text(a) == arguments_text(b));
    let pre = n.tag + arguments_text(n);
    assert(expansion_text(b) =~= pre + " {  }\n"@);
    assert(expansion_text(a) =~= pre + " { "@ + render_spec(c) + " }"@ + "\n"@);
    assert(expansion_text(b).take(expansion_text(b).len() - 6) =~= pre);
    assert(expansion_text(b).skip(expansion_text(b).len() - 6) =~= " {  }\n"@);
}

/// Expansion of an abbreviation tree into markup.
pub trait Renderer {
    fn render(&self) -> String;
}

impl Renderer for EmmetNode {
    fn render(&self) -> (s: String)
        ensures
            s@ == render_spec(self@),
    {
        render_node(self)
    }
}

fn render_all(nodes: &Vec<EmmetNode>) -> (r: Vec<String>)
    ensures
        strings_view(r@) == render_list(nodes_view(nodes@)),
    decreases nodes@, 1nat,
{
    let mut r: Vec<String> = Vec::new();
    proof {
        lemma_nodes_view(nodes@);
    }
    for i in 0..nodes.len()
        invariant
            r@.len() == i,
            nodes_view(nodes@).len() == nodes@.len(),
            forall|k: int| 0 <= k < i ==> #[trigger] r@[k]@ == render_spec(nodes_view(nodes@)[k]),
            forall|k: int| 0 <= k < nodes@.len() ==> #[trigger] nodes_view(nodes@)[k] == nodes@[k]@,
    {
        r.push(render_node(&nodes[i]));
    }
    proof {
        lemma_render_list(nodes_view(nodes@));
        assert(strings_view(r@) =~= render_list(nodes_view(nodes@)));
    }
    r
}

fn render_node(n: &EmmetNode) -> (s: String)
    ensures
        s@ == render_spec(n@),
    decreases *n, 0nat,
{
    let ghost v = n@;
    let mut arguments: Vec<String> = Vec::new();
    if n.classes.len() > 0 {
        let mut c = "class: '".to_owned();
        let joined = join_strings(&n.classes, " ");
        c.append(joined.as_str());
        c.append("'");
        arguments.push(c);
    }
    match &n.id {
        Some(id) => {
            let mut c = "id: '".to_owned();
            c.append(id.as_str());
            c.append("'");
            arguments.push(c);
        },
        None => {},
    }
    assert(strings_view(arguments@) =~= opt_seq(class_argument(v)) + opt_seq(id_argument(v)));
    let args = if arguments.len() == 0 {
        String::new()
    } else {
        let mut a = "(".to_owned();
        let joined = join_strings(&arguments, ", ");
        a.append(joined.as_str());
        a.append(")");
        a
    };
    assert(args@ =~= arguments_text(v));
    let mut body: Vec<String> = Vec::new();
    match &n.text {
        Some(t) => {
            let mut q = "\"".to_owned();
            q.append(t.as_str());
            q.append("\"");
            body.push(q);
        },
        None => {},
    }
    assert(strings_view(body@) =~= opt_seq(text_item(v)));
    let mut rendered = render_all(&n.children);
    let ghost before = body@;
    body.append(&mut rendered);
    assert(strings_view(body@) =~= strings_view(before) + render_list(nodes_view(n.children@)));
    let children = join_strings(&body, "\n");
    let siblings = join_strings(&render_all(&n.siblings), "\n");
    let mut expansion = n.tag.as_str().to_owned();
    expansion.append(args.as_str());
    expansion.append(" { ");
    expansion.append(children.as_str());
    expansion.append(" }");
    expansion.append("\n");
    expansion.append(siblings.as_str());
    assert(expansion@ =~= expansion_text(v));
    if n.multiplier == 1 {
        assert(repeated(expansion@, 1).drop_last() =~= Seq::<Seq<char>>::empty());
        expansion
    } else {
        repeat_join(&expansion, n.multiplier, "\n")
    }
}

} // verus!
