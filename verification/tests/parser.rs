use phlex_emmet_ls::parser::parse;
use phlex_emmet_ls::types::EmmetNode;

fn node(tag: &str) -> EmmetNode {
    EmmetNode::from_tag(tag)
}

fn nested(tags: &[&str]) -> EmmetNode {
    let mut node_ = node(tags[tags.len() - 1]);
    for tag in tags[..tags.len() - 1].iter().rev() {
        node_ = node(tag).add_child(node_);
    }
    node_
}

fn chained(tags: &[&str]) -> EmmetNode {
    let mut node_ = node(tags[tags.len() - 1]);
    for tag in tags[..tags.len() - 1].iter().rev() {
        node_ = node(tag).add_sibling(node_);
    }
    node_
}

#[test]
fn simple_tag() {
    assert_eq!(parse("div").unwrap(), node("div"))
}

#[test]
fn nested_tags() {
    assert_eq!(parse("div>ul>li").unwrap(), nested(&["div", "ul", "li"]))
}

#[test]
fn sibling() {
    assert_eq!(parse("div+p").unwrap(), chained(&["div", "p"]))
}

#[test]
fn siblings() {
    assert_eq!(parse("div+p+h1").unwrap(), chained(&["div", "p", "h1"]))
}

#[test]
fn nested_plus_siblings() {
    let p = node("p").add_child(chained(&["span", "em"]));
    let sibling = node("div").add_child(p);

    let div = node("div").add_sibling(sibling);
    assert_eq!(parse("div+div>p>span+em").unwrap(), div);
}

#[test]
fn multiplication() {
    assert_eq!(
        parse("ul>li*3")
            .unwrap()
            .children
            .first()
            .unwrap()
            .multiplier,
        3
    );
}

#[test]
fn test_class() {
    let mut expected = EmmetNode::from_tag("div");
    expected.classes = vec!["container".to_string()];
    assert_eq!(parse("div.container").unwrap(), expected);
}

#[test]
fn test_multiple_classes() {
    let mut expected = EmmetNode::from_tag("div");
    expected.classes = vec![
        "container".to_string(),
        "wrapper".to_string(),
        "main".to_string(),
    ];
    assert_eq!(parse("div.container.wrapper.main").unwrap(), expected);
}

#[test]
fn test_id() {
    let mut expected = EmmetNode::from_tag("div");
    expected.id = Some("header".to_string());
    assert_eq!(parse("div#header").unwrap(), expected);
}

#[test]
fn test_class_and_id() {
    let mut expected = EmmetNode::from_tag("div");
    expected.id = Some("header".to_string());
    expected.classes = vec!["container".to_string()];
    assert_eq!(parse("div#header.container").unwrap(), expected);
}

#[test]
fn test_implicit_div() {
    let mut expected = EmmetNode::from_tag("div");
    expected.classes = vec!["container".to_string()];
    assert_eq!(parse(".container").unwrap(), expected);

    let mut expected = EmmetNode::from_tag("div");
    expected.id = Some("main".to_string());
    assert_eq!(parse("#main").unwrap(), expected);
}

#[test]
fn test_text_content() {
    let mut expected = EmmetNode::from_tag("p");
    expected.text = Some("Hello World".to_string());
    assert_eq!(parse("p{Hello World}").unwrap(), expected);
}

#[test]
fn test_complex_combination() {
    let expected = node("div").add(
        None,
        None,
        None,
        None,
        Some("main"),
        Some("Content"),
        Some("container"),
    );

    assert_eq!(parse("div#main.container{Content}").unwrap(), expected);
}

#[test]
fn test_siblings_with_text() {
    let mut first = node("div").add(None, None, None, None, None, None, Some("first"));
    let second = node("div").add(None, None, None, None, None, Some("Content"), Some("second"));
    first.siblings.push(second);

    assert_eq!(parse("div.first+div.second{Content}").unwrap(), first);
}

#[test]
fn test_multiplication_with_classes() {
    let mut expected = node("li").add(None, None, None, None, None, None, Some("item"));
    expected.multiplier = 3;

    let mut parent = node("ul");
    parent.children.push(expected);

    assert_eq!(parse("ul>li.item*3").unwrap(), parent);
}
