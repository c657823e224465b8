use docstyle::ParseError;
use docstyle::dom::Node;
use docstyle::dom::NodeType;
use docstyle::html::parse_html;
use docstyle::html::to_markup;

/// Structural equality of two trees, with attribute order ignored.
fn node_eq(a: &Node, b: &Node) -> bool {
    match (&a.node_type, &b.node_type) {
        (NodeType::Text(x), NodeType::Text(y)) => x == y,
        (NodeType::Element(x), NodeType::Element(y)) => {
            if x.tag_name != y.tag_name {
                return false;
            }
            if x.attributes.len() != y.attributes.len() {
                return false;
            }
            let mut i = 0;
            while i < x.attributes.len() {
                let name = x.attributes.name_at(i);
                let value = x.attributes.value_at(i);
                match y.attributes.get(name.as_str()) {
                    Some(v) => {
                        if v != value {
                            return false;
                        }
                    }
                    None => return false,
                }
                i += 1;
            }
            if a.children.len() != b.children.len() {
                return false;
            }
            let mut k = 0;
            while k < a.children.len() {
                if !node_eq(&a.children[k], &b.children[k]) {
                    return false;
                }
                k += 1;
            }
            true
        }
        _ => false,
    }
}

fn expect_element(n: &Node) -> (&String, &docstyle::dom::AttrMap) {
    match &n.node_type {
        NodeType::Element(ed) => (&ed.tag_name, &ed.attributes),
        NodeType::Text(_) => panic!("expected an element node"),
    }
}

fn expect_text(n: &Node) -> &String {
    match &n.node_type {
        NodeType::Text(t) => t,
        NodeType::Element(_) => panic!("expected a text node"),
    }
}

#[test]
fn well_formed_element_with_attribute_and_text() {
    let n = parse_html("<p id=\"x\">hi</p>").unwrap();
    let (tag, attrs) = expect_element(&n);
    assert_eq!(tag, "p");
    assert_eq!(attrs.len(), 1);
    assert_eq!(attrs.get("id").unwrap(), "x");
    assert_eq!(n.children.len(), 1);
    assert_eq!(expect_text(&n.children[0]), "hi");
}

#[test]
fn mismatched_closing_tag_fails() {
    assert_eq!(parse_html("<a></b>").unwrap_err(), ParseError::TagMismatch);
    assert_eq!(
        parse_html("<div><p></div></p>").unwrap_err(),
        ParseError::TagMismatch
    );
}

#[test]
fn unterminated_attribute_value_fails() {
    assert_eq!(
        parse_html("<a href=\"x>").unwrap_err(),
        ParseError::UnterminatedAttributeValue
    );
}

#[test]
fn two_top_level_elements_get_an_html_root() {
    let n = parse_html("<p></p><p></p>").unwrap();
    let (tag, attrs) = expect_element(&n);
    assert_eq!(tag, "html");
    assert_eq!(attrs.len(), 0);
    assert_eq!(n.children.len(), 2);
    let (t0, _) = expect_element(&n.children[0]);
    let (t1, _) = expect_element(&n.children[1]);
    assert_eq!(t0, "p");
    assert_eq!(t1, "p");
}

#[test]
fn round_trip_is_structurally_equal() {
    let source = "<div id=\"main\" class=\"note\">hello<p lang=\"en\">world</p><br></br></div>";
    let n = parse_html(source).unwrap();
    let markup = to_markup(&n);
    let m = parse_html(markup.as_str()).unwrap();
    assert!(node_eq(&n, &m));
}

#[test]
fn round_trip_of_a_synthesized_root() {
    let n = parse_html("hi<p></p>").unwrap();
    let markup = to_markup(&n);
    assert_eq!(markup, "<html>hi<p></p></html>");
    let m = parse_html(markup.as_str()).unwrap();
    assert!(node_eq(&n, &m));
}

#[test]
fn empty_input_yields_an_empty_root() {
    let n = parse_html("").unwrap();
    let (tag, _) = expect_element(&n);
    assert_eq!(tag, "html");
    assert_eq!(n.children.len(), 0);
}

#[test]
fn single_text_input_is_returned_directly() {
    let n = parse_html("just text").unwrap();
    assert_eq!(expect_text(&n), "just text");
}

#[test]
fn surrounding_whitespace_is_skipped() {
    let n = parse_html("  <p> \n\t </p>  ").unwrap();
    let (tag, _) = expect_element(&n);
    assert_eq!(tag, "p");
    assert_eq!(n.children.len(), 0);
}

#[test]
fn later_duplicate_attribute_wins() {
    let n = parse_html("<a x=\"1\" x=\"2\"></a>").unwrap();
    let (_, attrs) = expect_element(&n);
    assert_eq!(attrs.len(), 1);
    assert_eq!(attrs.get("x").unwrap(), "2");
}

#[test]
fn single_quoted_attribute_values_work() {
    let n = parse_html("<a x='1\"'></a>").unwrap();
    let (_, attrs) = expect_element(&n);
    assert_eq!(attrs.get("x").unwrap(), "1\"");
}

#[test]
fn multi_byte_text_is_preserved() {
    let n = parse_html("<p>héllo wörld ✓</p>").unwrap();
    assert_eq!(expect_text(&n.children[0]), "héllo wörld ✓");
}

#[test]
fn missing_equals_in_attribute_is_malformed() {
    assert_eq!(parse_html("<a b></a>").unwrap_err(), ParseError::MalformedTag);
}

#[test]
fn unclosed_element_runs_out_of_input() {
    assert_eq!(
        parse_html("<a>").unwrap_err(),
        ParseError::UnexpectedEndOfInput
    );
}

#[test]
fn nested_elements_parse_to_a_nested_tree() {
    let n = parse_html("<div><span>a</span>b</div>").unwrap();
    let (tag, _) = expect_element(&n);
    assert_eq!(tag, "div");
    assert_eq!(n.children.len(), 2);
    let (inner, _) = expect_element(&n.children[0]);
    assert_eq!(inner, "span");
    assert_eq!(expect_text(&n.children[0].children[0]), "a");
    assert_eq!(expect_text(&n.children[1]), "b");
}
