use vstd::prelude::*;

verus! {

/// One element of an Emmet abbreviation: a tag with its attributes, the
/// elements nested in it (`>`) and the elements that follow it (`+`).
#[derive(Debug, PartialEq)]
pub struct EmmetNode {
    pub tag: String,
    pub id: Option<String>,
    pub classes: Vec<String>,
    pub children: Vec<EmmetNode>,
    pub siblings: Vec<EmmetNode>,
    pub multiplier: usize,
    pub text: Option<String>,
}

/// The mathematical value of an [`EmmetNode`]: every string taken as its
/// sequence of characters.
pub struct EmmetNodeView {
    pub tag: Seq<char>,
    pub id: Option<Seq<char>>,
    pub classes: Seq<Seq<char>>,
    pub children: Seq<EmmetNodeView>,
    pub siblings: Seq<EmmetNodeView>,
    pub multiplier: nat,
    pub text: Option<Seq<char>>,
}

pub open spec fn opt_string_view(o: Option<String>) -> Option<Seq<char>> {
    match o {
        Some(s) => Some(s@),
        None => None,
    }
}

pub open spec fn strings_view(s: Seq<String>) -> Seq<Seq<char>> {
    s.map_values(|x: String| x@)
}

pub open spec fn node_view(n: EmmetNode) -> EmmetNodeView
    decreases n,
{
    EmmetNodeView {
        tag: n.tag@,
        id: opt_string_view(n.id),
        classes: strings_view(n.classes@),
        children: nodes_view(n.children@),
        siblings: nodes_view(n.siblings@),
        multiplier: n.multiplier as nat,
        text: opt_string_view(n.text),
    }
}

pub open spec fn nodes_view(s: Seq<EmmetNode>) -> Seq<EmmetNodeView>
    decreases s,
{
    if s.len() == 0 {
        Seq::empty()
    } else {
        nodes_view(s.drop_last()).push(node_view(s.last()))
    }
}

impl View for EmmetNode {
    type V = EmmetNodeView;

    open spec fn view(&self) -> EmmetNodeView {
        node_view(*self)
    }
}

/// The sequence holding the value of `o`, if any.
pub open spec fn opt_seq<A>(o: Option<A>) -> Seq<A> {
    match o {
        Some(x) => seq![x],
        None => Seq::empty(),
    }
}

/// The value of an element named `tag` with no attributes, nothing nested,
/// nothing after it and a multiplier of one.
pub open spec fn bare_node(tag: Seq<char>) -> EmmetNodeView {
    EmmetNodeView {
        tag,
        id: None,
        classes: Seq::empty(),
        children: Seq::empty(),
        siblings: Seq::empty(),
        multiplier: 1,
        text: None,
    }
}

/// What `add` makes of a node: each given child and sibling appended (the
/// node first, then the one named by a string), the id and the text
/// replaced where given, the class appended where given.
pub open spec fn added(
    n: EmmetNodeView,
    child: Option<EmmetNodeView>,
    sibling: Option<EmmetNodeView>,
    child_str: Option<Seq<char>>,
    sibling_str: Option<Seq<char>>,
    id: Option<Seq<char>>,
    text: Option<Seq<char>>,
    class: Option<Seq<char>>,
) -> EmmetNodeView {
    EmmetNodeView {
        tag: n.tag,
        id: if id is Some { id } else { n.id },
        classes: n.classes + opt_seq(class),
        children: n.children + opt_seq(child) + opt_seq(child_str).map_values(|t: Seq<char>| bare_node(t)),
        siblings: n.siblings + opt_seq(sibling) + opt_seq(sibling_str).map_values(|t: Seq<char>| bare_node(t)),
        multiplier: n.multiplier,
        text: if text is Some { text } else { n.text },
    }
}

pub open spec fn opt_str_view(o: Option<&str>) -> Option<Seq<char>> {
    match o {
        Some(s) => Some(s@),
        None => None,
    }
}

pub open spec fn opt_node_view(o: Option<EmmetNode>) -> Option<EmmetNodeView> {
    match o {
        Some(n) => Some(n@),
        None => None,
    }
}

pub proof fn lemma_nodes_view(s: Seq<EmmetNode>)
    ensures
        nodes_view(s).len() == s.len(),
        forall|i: int| 0 <= i < s.len() ==> #[trigger] nodes_view(s)[i] == node_view(s[i]),
    decreases s.len(),
{
    if s.len() > 0 {
        lemma_nodes_view(s.drop_last());
    }
}

pub proof fn lemma_nodes_view_push(s: Seq<EmmetNode>, n: EmmetNode)
    ensures
        nodes_view(s.push(n)) == nodes_view(s).push(node_view(n)),
{
    assert(s.push(n).drop_last() =~= s);
}

fn copy_string(s: &String) -> (r: String)
    ensures
        r@ == s@,
{
    s.as_str().to_owned()
}

fn copy_opt_string(o: &Option<String>) -> (r: Option<String>)
    ensures
        opt_string_view(r) == opt_string_view(*o),
{
    match o {
        Some(s) => Some(copy_string(s)),
        None => None,
    }
}

fn copy_strings(v: &Vec<String>) -> (r: Vec<String>)
    ensures
        strings_view(r@) == strings_view(v@),
{
    let mut r: Vec<String> = Vec::new();
    for i in 0..v.len()
        invariant
            r@.len() == i,
            forall|j: int| 0 <= j < i ==> #[trigger] r@[j]@ == v@[j]@,
    {
        r.push(copy_string(&v[i]));
    }
    assert(strings_view(r@) =~= strings_view(v@));
    r
}

fn copy_nodes(v: &Vec<EmmetNode>) -> (r: Vec<EmmetNode>)
    ensures
        nodes_view(r@) == nodes_view(v@),
    decreases v@, 1nat,
{
    let mut r: Vec<EmmetNode> = Vec::new();
    for i in 0..v.len()
        invariant
            r@.len() == i,
            forall|j: int| 0 <= j < i ==> #[trigger] node_view(r@[j]) == node_view(v@[j]),
    {
        r.push(copy_node(&v[i]));
    }
    proof {
        lemma_nodes_view(r@);
        lemma_nodes_view(v@);
        assert(nodes_view(r@) =~= nodes_view(v@));
    }
    r
}

fn copy_node(n: &EmmetNode) -> (r: EmmetNode)
    ensures
        r@ == n@,
    decreases *n, 0nat,
{
    EmmetNode {
        tag: copy_string(&n.tag),
        id: copy_opt_string(&n.id),
        classes: copy_strings(&n.classes),
        children: copy_nodes(&n.children),
        siblings: copy_nodes(&n.siblings),
        multiplier: n.multiplier,
        text: copy_opt_string(&n.text),
    }
}

impl Clone for EmmetNode {
    /// A copy of the whole tree.
    fn clone(&self) -> (r: EmmetNode)
        ensures
            r@ == self@,
    {
        copy_node(self)
    }
}

fn str_to_string(s: &str) -> (r: String)
    ensures
        r@ == s@,
{
    s.to_owned()
}

impl EmmetNode {
    /// An element named `tag`, with the given id, classes, nested elements
    /// and following elements (none where `None`), no text and a multiplier
    /// of one.
    pub fn new(
        tag: &str,
        id: Option<String>,
        classes: Option<Vec<String>>,
        children: Option<Vec<EmmetNode>>,
        siblings: Option<Vec<EmmetNode>>,
    ) -> (n: EmmetNode)
        ensures
            n@ == (EmmetNodeView {
                tag: tag@,
                id: opt_string_view(id),
                classes: match classes { Some(c) => strings_view(c@), None => Seq::empty() },
                children: match children { Some(c) => nodes_view(c@), None => Seq::empty() },
                siblings: match siblings { Some(c) => nodes_view(c@), None => Seq::empty() },
                multiplier: 1,
                text: None,
            }),
    {
        let classes = match classes {
            Some(c) => c,
            None => Vec::new(),
        };
        let children = match children {
            Some(c) => c,
            None => Vec::new(),
        };
        let siblings = match siblings {
            Some(c) => c,
            None => Vec::new(),
        };
        let n = EmmetNode {
            tag: str_to_string(tag),
            id,
            classes,
            children,
            siblings,
            multiplier: 1,
            text: None,
        };
        proof {
            assert(strings_view(Seq::<String>::empty()) =~= Seq::<Seq<char>>::empty());
        }
        n
    }

    /// An element named `tag` with nothing else set.
    pub fn from_tag(tag: &str) -> (n: EmmetNode)
        ensures
            n@ == bare_node(tag@),
            n@ == (EmmetNodeView {
                tag: tag@,
                id: None,
                classes: Seq::empty(),
                children: Seq::empty(),
                siblings: Seq::empty(),
                multiplier: 1,
                text: None,
            }),
    {
        EmmetNode::new(tag, None, None, None, None)
    }

    /// Appends the given child and sibling (each given node, then an element
    /// named by each given string), sets the id and the text where given and
    /// appends the class where given; returns a copy of the updated node.
    pub fn add(
        &mut self,
        child: Option<EmmetNode>,
        sibling: Option<EmmetNode>,
        child_str: Option<&str>,
        sibling_str: Option<&str>,
        id: Option<&str>,
        text: Option<&str>,
        class: Option<&str>,
    ) -> (r: EmmetNode)
        ensures
            final(self)@ == added(
                old(self)@,
                opt_node_view(child),
                opt_node_view(sibling),
                opt_str_view(child_str),
                opt_str_view(sibling_str),
                opt_str_view(id),
                opt_str_view(text),
                opt_str_view(class),
            ),
            r@ == final(self)@,
            final(self)@.tag == old(self)@.tag,
            final(self)@.multiplier == old(self)@.multiplier,
            id matches Some(x) ==> final(self)@.id == Some(x@),
            id is None ==> final(self)@.id == old(self)@.id,
            text matches Some(x) ==> final(self)@.text == Some(x@),
            text is None ==> final(self)@.text == old(self)@.text,
            class matches Some(c) ==> final(self)@.classes == old(self)@.classes.push(c@),
            class is None ==> final(self)@.classes == old(self)@.classes,
            final(self)@.children.len() == old(self)@.children.len() + (if child is Some { 1int } else { 0 })
                + (if child_str is Some { 1int } else { 0 }),
            forall|k: int| 0 <= k < old(self)@.children.len() ==> final(self)@.children[k] == old(self)@.children[k],
            child matches Some(c) ==> final(self)@.children[old(self)@.children.len() as int] == c@,
            child_str matches Some(t) ==> final(self)@.children.last() == (EmmetNodeView {
                tag: t@,
                id: None,
                classes: Seq::empty(),
                children: Seq::empty(),
                siblings: Seq::empty(),
                multiplier: 1,
                text: None,
            }),
            final(self)@.siblings.len() == old(self)@.siblings.len() + (if sibling is Some { 1int } else { 0 })
                + (if sibling_str is Some { 1int } else { 0 }),
            forall|k: int| 0 <= k < old(self)@.siblings.len() ==> final(self)@.siblings[k] == old(self)@.siblings[k],
            sibling matches Some(c) ==> final(self)@.siblings[old(self)@.siblings.len() as int] == c@,
            sibling_str matches Some(t) ==> final(self)@.siblings.last() == (EmmetNodeView {
                tag: t@,
                id: None,
                classes: Seq::empty(),
                children: Seq::empty(),
                siblings: Seq::empty(),
                multiplier: 1,
                text: None,
            }),
    {
        if let Some(c) = child {
            proof { lemma_nodes_view_push(self.children@, c); }
            self.children.push(c);
        }
        if let Some(s) = sibling {
            proof { lemma_nodes_view_push(self.siblings@, s); }
            self.siblings.push(s);
        }
        if let Some(c_str) = child_str {
            let c = from_tag(c_str);
            proof { lemma_nodes_view_push(self.children@, c); }
            self.children.push(c);
        }
        if let Some(s_str) = sibling_str {
            let s = from_tag(s_str);
            proof { lemma_nodes_view_push(self.siblings@, s); }
            self.siblings.push(s);
        }
        if let Some(id_str) = id {
            self.id = Some(str_to_string(id_str));
        }
        if let Some(t) = text {
            self.text = Some(str_to_string(t));
        }
        if let Some(c) = class {
            self.classes.push(str_to_string(c));
        }
        proof {
            let want = added(
                old(self)@,
                opt_node_view(child),
                opt_node_view(sibling),
                opt_str_view(child_str),
                opt_str_view(sibling_str),
                opt_str_view(id),
                opt_str_view(text),
                opt_str_view(class),
            );
            assert(nodes_view(self.children@) =~= want.children);
            assert(nodes_view(self.siblings@) =~= want.siblings);
            assert(strings_view(self.classes@) =~= want.classes);
        }
        self.clone()
    }

    /// Appends `child` to the nested elements; returns a copy of the result.
    pub fn add_child(&mut self, child: EmmetNode) -> (r: EmmetNode)
        ensures
            final(self)@ == (EmmetNodeView { children: old(self)@.children.push(child@), ..old(self)@ }),
            r@ == final(self)@,
    {
        let r = self.add(Some(child), None, None, None, None, None, None);
        proof {
            assert(self@.children =~= old(self)@.children.push(child@));
            assert(self@.siblings =~= old(self)@.siblings);
            assert(self@.classes =~= old(self)@.classes);
        }
        r
    }

    /// Appends `sibling` to the following elements; returns a copy of the result.
    pub fn add_sibling(&mut self, sibling: EmmetNode) -> (r: EmmetNode)
        ensures
            final(self)@ == (EmmetNodeView { siblings: old(self)@.siblings.push(sibling@), ..old(self)@ }),
            r@ == final(self)@,
    {
        let r = self.add(None, Some(sibling), None, None, None, None, None);
        proof {
            assert(self@.siblings =~= old(self)@.siblings.push(sibling@));
            assert(self@.children =~= old(self)@.children);
            assert(self@.classes =~= old(self)@.classes);
        }
        r
    }
}

/// An element named `tag` with nothing else set.
pub fn from_tag(tag: &str) -> (n: EmmetNode)
    ensures
        n@ == bare_node(tag@),
        n@ == (EmmetNodeView {
            tag: tag@,
            id: None,
            classes: Seq::empty(),
            children: Seq::empty(),
            siblings: Seq::empty(),
            multiplier: 1,
            text: None,
        }),
{
    EmmetNode::new(tag, None, None, None, None)
}

} // verus!
