use broust::dom::{Element, HTMLParser, Tree};

fn parse(body: &str) -> Tree {
    HTMLParser::new(body.to_string()).parse()
}

fn tag_of(tree: &Tree, index: usize) -> String {
    match &tree.node(index).value {
        Element::Tag(tag) => tag.tag.clone(),
        Element::Text(text) => panic!("node {} is the text {:?}", index, text),
    }
}

fn text_of(tree: &Tree, index: usize) -> String {
    match &tree.node(index).value {
        Element::Text(text) => text.clone(),
        Element::Tag(tag) => panic!("node {} is the tag {:?}", index, tag.tag),
    }
}

fn children(tree: &Tree, index: usize) -> Vec<usize> {
    tree.node(index).children.clone()
}

/// The tree as nested brackets: `name[child child]`, text in quotes.
fn shape(tree: &Tree, index: usize) -> String {
    match &tree.node(index).value {
        Element::Text(text) => format!("{:?}", text),
        Element::Tag(tag) => {
            let inner: Vec<String> =
                tree.node(index).children.iter().map(|c| shape(tree, *c)).collect();
            format!("{}[{}]", tag.tag, inner.join(" "))
        }
    }
}

#[test]
fn well_nested_input_round_trips() {
    let tree = parse("<a><b>x</b></a>");
    let root = tree.root();
    assert_eq!(tag_of(&tree, root), "a");
    let kids = children(&tree, root);
    assert_eq!(kids.len(), 1);
    assert_eq!(tag_of(&tree, kids[0]), "b");
    let grandkids = children(&tree, kids[0]);
    assert_eq!(grandkids.len(), 1);
    assert_eq!(text_of(&tree, grandkids[0]), "x");
    assert!(children(&tree, grandkids[0]).is_empty());
}

#[test]
fn unclosed_tags_are_closed_at_the_end() {
    let open = parse("<a><b>x");
    let closed = parse("<a><b>x</b></a>");
    assert_eq!(shape(&open, open.root()), "a[b[\"x\"]]");
    assert_eq!(shape(&open, open.root()), shape(&closed, closed.root()));
}

#[test]
fn void_elements_do_not_nest() {
    let tree = parse("<p>a<br>b</p>");
    let root = tree.root();
    assert_eq!(tag_of(&tree, root), "p");
    let kids = children(&tree, root);
    assert_eq!(kids.len(), 3);
    assert_eq!(text_of(&tree, kids[0]), "a");
    assert_eq!(tag_of(&tree, kids[1]), "br");
    assert!(children(&tree, kids[1]).is_empty());
    assert_eq!(text_of(&tree, kids[2]), "b");
}

#[test]
fn stray_closing_tag_is_ignored() {
    let tree = parse("</div>hello");
    let root = tree.root();
    let kids = children(&tree, root);
    assert_eq!(kids.len(), 1);
    assert_eq!(text_of(&tree, kids[0]), "hello");
    assert_eq!(tag_of(&tree, root), "html");
}

#[test]
fn attributes_are_parsed() {
    let tree = parse("<a href=\"x\" target=_blank disabled>");
    let root = tree.node(tree.root());
    match &root.value {
        Element::Tag(tag) => {
            assert_eq!(tag.tag, "a");
            assert_eq!(tag.attributes.len(), 3);
            assert_eq!(tag.attributes.get("href").map(|v| v.as_str()), Some("x"));
            assert_eq!(tag.attributes.get("target").map(|v| v.as_str()), Some("_blank"));
            assert_eq!(tag.attributes.get("disabled").map(|v| v.as_str()), Some(""));
        }
        Element::Text(_) => panic!("the root is a text"),
    }
}

#[test]
fn attribute_keys_and_tag_names_are_lowercased() {
    let tree = parse("<DIV CLASS=Big ID='Main'>");
    let root = tree.node(tree.root());
    match &root.value {
        Element::Tag(tag) => {
            assert_eq!(tag.tag, "div");
            assert_eq!(tag.attributes.get("class").map(|v| v.as_str()), Some("Big"));
            assert_eq!(tag.attributes.get("id").map(|v| v.as_str()), Some("Main"));
            assert_eq!(tag.attributes.get("CLASS"), None);
        }
        Element::Text(_) => panic!("the root is a text"),
    }
}

#[test]
fn parents_point_back() {
    let tree = parse("<a><b>x</b><c></c></a>");
    assert_eq!(tree.len(), 4);
    assert_eq!(tree.node(0).parent, None);
    for index in 1..tree.len() {
        let parent = tree.node(index).parent.expect("a parent");
        assert!(parent < index);
        let count = tree.node(parent).children.iter().filter(|c| **c == index).count();
        assert_eq!(count, 1);
    }
}

#[test]
fn an_empty_document_has_the_implicit_root() {
    for body in ["", "   \n", "<!doctype html>", "<!-- a comment -->", "</a></b>", "<>", "< >"] {
        let tree = parse(body);
        assert_eq!(shape(&tree, tree.root()), "html[]", "{:?}", body);
        assert_eq!(tree.len(), 1);
    }
}

#[test]
fn text_before_any_tag_hangs_from_the_implicit_root() {
    let tree = parse("hello<b>x</b>");
    assert_eq!(shape(&tree, tree.root()), "html[\"hello\" b[\"x\"]]");
}

#[test]
fn a_void_element_before_any_tag_hangs_from_the_implicit_root() {
    let tree = parse("<br>x");
    assert_eq!(shape(&tree, tree.root()), "html[br[] \"x\"]");
}

#[test]
fn the_root_is_never_closed() {
    let tree = parse("<a>x</a>y</a><b>z");
    assert_eq!(shape(&tree, tree.root()), "a[\"x\" \"y\" b[\"z\"]]");
}

#[test]
fn closing_tags_close_by_position_not_by_name() {
    let tree = parse("<a><b>x</i>y</a>");
    assert_eq!(shape(&tree, tree.root()), "a[b[\"x\"] \"y\"]");
}

#[test]
fn comments_and_declarations_are_dropped() {
    let tree = parse("<!DOCTYPE html><html><!-- note -->x</html>");
    assert_eq!(shape(&tree, tree.root()), "html[\"x\"]");
    assert_eq!(tree.len(), 2);
}

#[test]
fn blank_text_makes_no_node() {
    let tree = parse("<a> \n\t <b> </b>  </a>");
    assert_eq!(shape(&tree, tree.root()), "a[b[]]");
    let tree = parse("<a> x </a>");
    assert_eq!(shape(&tree, tree.root()), "a[\" x \"]");
}

#[test]
fn all_void_elements_are_leaves() {
    for name in [
        "area", "base", "br", "col", "embed", "hr", "img", "input", "link", "meta", "param",
        "source", "track", "wbr",
    ] {
        let tree = parse(&format!("<div><{}>x</div>", name.to_uppercase()));
        assert_eq!(shape(&tree, tree.root()), format!("div[{}[] \"x\"]", name));
    }
    let tree = parse("<div><br/>x</div>");
    assert_eq!(shape(&tree, tree.root()), "div[br/[\"x\"]]");
}

#[test]
fn an_unterminated_tag_is_dropped() {
    let tree = parse("<a>x<b");
    assert_eq!(shape(&tree, tree.root()), "a[\"x\"]");
}

fn attributes_of(body: &str) -> Vec<(String, String)> {
    let tree = parse(body);
    match &tree.node(tree.root()).value {
        Element::Tag(tag) => (0..tag.attributes.len())
            .map(|i| {
                let (k, v) = tag.attributes.entry(i);
                (k.clone(), v.clone())
            })
            .collect(),
        Element::Text(_) => panic!("the root is a text"),
    }
}

fn pairs(list: &[(&str, &str)]) -> Vec<(String, String)> {
    list.iter().map(|(k, v)| (k.to_string(), v.to_string())).collect()
}

#[test]
fn quotes_are_stripped_in_pairs_only() {
    assert_eq!(attributes_of("<a b='c'>"), pairs(&[("b", "c")]));
    assert_eq!(attributes_of("<a b=\"c\">"), pairs(&[("b", "c")]));
    // Two quotes alone are not longer than two characters.
    assert_eq!(attributes_of("<a b=\"\">"), pairs(&[("b", "\"\"")]));
    assert_eq!(attributes_of("<a b=''>"), pairs(&[("b", "''")]));
    // The quotes have to match.
    assert_eq!(attributes_of("<a b='c\">"), pairs(&[("b", "'c\"")]));
    assert_eq!(attributes_of("<a b='c>"), pairs(&[("b", "'c")]));
    assert_eq!(attributes_of("<a b=c'>"), pairs(&[("b", "c'")]));
    assert_eq!(attributes_of("<a b='''>"), pairs(&[("b", "'")]));
}

#[test]
fn attributes_split_at_the_first_equals_sign() {
    assert_eq!(attributes_of("<a b=c=d>"), pairs(&[("b", "c=d")]));
    assert_eq!(attributes_of("<a =c>"), pairs(&[("", "c")]));
    assert_eq!(attributes_of("<a b=>"), pairs(&[("b", "")]));
    assert_eq!(attributes_of("<a B=C D>"), pairs(&[("b", "C"), ("d", "")]));
}

#[test]
fn quoted_values_are_cut_at_white_space() {
    assert_eq!(
        attributes_of("<a title=\"x y\">"),
        pairs(&[("title", "\"x"), ("y\"", "")])
    );
}

#[test]
fn a_later_attribute_overrides_an_earlier_one() {
    assert_eq!(attributes_of("<a x=1 y=2 X=3>"), pairs(&[("x", "3"), ("y", "2")]));
}

#[test]
fn the_parser_can_be_driven_by_hand() {
    let mut parser = HTMLParser::new(String::new());
    parser.add_tag("DIV id=a".to_string());
    parser.add_text("  ".to_string());
    parser.add_text("one".to_string());
    parser.add_element("br".to_string(), broust::string_map::StringMap::new());
    parser.add_element("span".to_string(), broust::string_map::StringMap::new());
    parser.add_text("two".to_string());
    parser.add_element("/anything".to_string(), broust::string_map::StringMap::new());
    parser.add_element("!x".to_string(), broust::string_map::StringMap::new());
    parser.add_element("".to_string(), broust::string_map::StringMap::new());
    parser.add_tag("em".to_string());
    let tree = parser.finish();
    assert_eq!(shape(&tree, tree.root()), "div[\"one\" br[] span[\"two\"] em[]]");
    // The parser is as new and can be used again.
    let again = parser.finish();
    assert_eq!(shape(&again, again.root()), "html[]");
}

#[test]
fn parsing_twice_gives_the_same_tree() {
    let mut parser = HTMLParser::new("<a><b>x</b>y".to_string());
    let first = parser.parse();
    let second = parser.parse();
    assert_eq!(shape(&first, 0), "a[b[\"x\"] \"y\"]");
    assert_eq!(shape(&first, 0), shape(&second, 0));
}

#[test]
fn get_attributes_gives_name_and_attributes() {
    let parser = HTMLParser::new(String::new());
    let (name, attributes) = parser.get_attributes("  IMG  SRC=a.png  ALT='x' ".to_string());
    assert_eq!(name, "img");
    assert_eq!(attributes.len(), 2);
    assert_eq!(attributes.get("src").map(|v| v.as_str()), Some("a.png"));
    assert_eq!(attributes.get("alt").map(|v| v.as_str()), Some("x"));
    let (name, attributes) = parser.get_attributes(" ".to_string());
    assert_eq!(name, "");
    assert_eq!(attributes.len(), 0);
}

#[test]
fn a_tree_prints_as_an_outline() {
    let tree = parse("<a><b>x</b><br>y</a>");
    assert_eq!(tree.to_string(), "<a>\n\t<b>\n\t\tx\n\t<br>\n\ty\n");
    let mut out = String::from(">");
    broust::dom::print_tree(&tree, 1, 2, &mut out);
    assert_eq!(out, ">\t\t<b>\n\t\t\tx\n");
}

#[test]
fn deep_nesting_is_kept() {
    let depth = 200;
    let body = "<div>".repeat(depth);
    let tree = parse(&body);
    assert_eq!(tree.len(), depth);
    let mut index = tree.root();
    for _ in 1..depth {
        let kids = children(&tree, index);
        assert_eq!(kids.len(), 1);
        index = kids[0];
    }
    assert!(children(&tree, index).is_empty());
}

/// The tree as markup: a text as it stands, an element as its opening tag,
/// its children and its closing tag.
fn markup(tree: &Tree, index: usize) -> String {
    match &tree.node(index).value {
        Element::Text(text) => text.clone(),
        Element::Tag(tag) => {
            let inner: Vec<String> =
                tree.node(index).children.iter().map(|c| markup(tree, *c)).collect();
            format!("<{}>{}</{}>", tag.tag, inner.join(""), tag.tag)
        }
    }
}

#[test]
fn well_nested_markup_comes_back_as_it_was_written() {
    for body in [
        "<a></a>",
        "<a>x</a>",
        "<a><b>x</b></a>",
        "<html><body><h1>Title here</h1><p>one <b>two</b> three<i><u>four</u></i></p><div></div>end</body></html>",
        "<x-y>a b<z1>c</z1> d </x-y>",
    ] {
        let tree = parse(body);
        assert_eq!(markup(&tree, tree.root()), body);
        let again = parse(&markup(&tree, tree.root()));
        assert_eq!(shape(&again, again.root()), shape(&tree, tree.root()));
    }
}

#[test]
fn trailing_closing_tags_can_be_left_out() {
    let whole = "<html><body><p>one <b>two</b></p><div>three <i>four</i></div></body></html>";
    let expected = parse(whole);
    for cut in [
        "<html><body><p>one <b>two</b></p><div>three <i>four</i></div></body>",
        "<html><body><p>one <b>two</b></p><div>three <i>four</i></div>",
        "<html><body><p>one <b>two</b></p><div>three <i>four</i>",
        "<html><body><p>one <b>two</b></p><div>three <i>four",
    ] {
        let tree = parse(cut);
        assert_eq!(shape(&tree, tree.root()), shape(&expected, expected.root()), "{:?}", cut);
    }
    // Any closing tags at the end change nothing, whatever they name.
    let more = parse("<a><b>x</c></d></e></f>");
    assert_eq!(shape(&more, more.root()), "a[b[\"x\"]]");
}

#[test]
fn texts_hold_no_angle_bracket_and_void_elements_no_children() {
    let tree = parse("<div>a > b < c<br>d<img src=x>e</br></div>");
    for index in 0..tree.len() {
        let node = tree.node(index);
        match &node.value {
            Element::Text(text) => {
                assert!(!text.contains('<') && !text.contains('>'));
                assert!(node.children.is_empty());
            }
            Element::Tag(tag) => {
                if tag.tag == "br" || tag.tag == "img" {
                    assert!(node.children.is_empty());
                }
            }
        }
    }
}
