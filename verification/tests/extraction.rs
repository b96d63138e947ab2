use markup_extract::engine::{check_unique_names, Extractor, Replacements};
use markup_extract::loader::normalize;
use markup_extract::node::{find_attribute, ExtractionRecord, Node};
use markup_extract::serialize::serialize_html;
use markup_extract::walker::walk;
use markup_extract::ExtractError;

fn elem(tag: &str, attrs: &[(&str, &str)], children: Vec<Node>) -> Node {
    Node::Element {
        tag: tag.to_string(),
        attrs: attrs
            .iter()
            .map(|(k, v)| (k.to_string(), v.to_string()))
            .collect(),
        children,
    }
}

fn text(payload: &str) -> Node {
    Node::Text {
        text: payload.to_string(),
    }
}

fn jsx_config() -> Extractor {
    Extractor {
        replacements: Replacements {
            pre: "const %=()=>(".to_string(),
            post: ");".to_string(),
            replacement: "<%/>".to_string(),
            content: "{props.children}".to_string(),
            attributes: "{props.%}".to_string(),
            file_extension: "jsx".to_string(),
        },
    }
}

/// Stands in for the external markup-to-target-syntax converter: like the
/// real converter, it writes self-closing tags with a space before the
/// `/>`, which turns the serialized content placeholder into the fixed
/// content-slot token the engine replaces.
fn convert(s: &str) -> String {
    s.replace("<replace_content/>", "<replace_content />")
}

fn walk_all(root: Node) -> (Node, Vec<ExtractionRecord>) {
    let mut records = Vec::new();
    let walked = walk(root, &mut records);
    (walked, records)
}

#[test]
fn single_extraction_produces_one_component() {
    let root = elem(
        "div",
        &[],
        vec![elem("section", &[("data-extract", "foo")], vec![text("hello")])],
    );
    let (walked, records) = walk_all(root);
    assert_eq!(records.len(), 1);
    assert_eq!(records[0].name, "foo");
    assert_eq!(
        serialize_html(&records[0].node, true),
        "<section data-extract=\"foo\">hello</section>"
    );
    assert_eq!(
        serialize_html(&walked, true),
        "<div><replace_replacement-foo/></div>"
    );
    let body = serialize_html(&records[0].node, true);
    let rendered = jsx_config().render_template(&records[0].name, &body);
    assert_eq!(
        rendered,
        "const foo=()=>( <section data-extract=\"foo\">hello</section> );"
    );
}

#[test]
fn not_marker_deletes_node_and_produces_no_file() {
    let root = elem(
        "div",
        &[],
        vec![
            elem("aside", &[("data-extract", "not")], vec![text("secret")]),
            text("kept"),
        ],
    );
    let (walked, records) = walk_all(root);
    assert_eq!(records.len(), 0);
    let out = serialize_html(&walked, true);
    assert_eq!(out, "<div>kept</div>");
    assert!(!out.contains("secret"));
    assert!(!out.contains("aside"));
}

#[test]
fn content_marker_yields_configured_content_string() {
    let root = elem(
        "div",
        &[],
        vec![elem(
            "card",
            &[("data-extract", "Card")],
            vec![elem("slot", &[("data-content", "x")], vec![text("old")])],
        )],
    );
    let (_, records) = walk_all(root);
    assert_eq!(records.len(), 1);
    let body = serialize_html(&records[0].node, true);
    assert_eq!(
        body,
        "<card data-extract=\"Card\"><slot data-content=\"x\"><replace_content/></slot></card>"
    );
    assert!(!body.contains("old"));
    let substituted = jsx_config().text_replacements(&convert(&body));
    assert_eq!(
        substituted,
        "<card data-extract=\"Card\"><slot data-content=\"x\">{props.children}</slot></card>"
    );
}

#[test]
fn nested_markers_produce_two_components_inner_first() {
    let root = elem(
        "div",
        &[],
        vec![elem(
            "outer",
            &[("data-extract", "outer")],
            vec![elem("inner", &[("data-extract", "inner")], vec![text("deep")])],
        )],
    );
    let (walked, records) = walk_all(root);
    assert_eq!(records.len(), 2);
    assert_eq!(records[0].name, "inner");
    assert_eq!(records[1].name, "outer");
    assert_eq!(
        serialize_html(&records[0].node, true),
        "<inner data-extract=\"inner\">deep</inner>"
    );
    let outer_body = serialize_html(&records[1].node, true);
    assert_eq!(
        outer_body,
        "<outer data-extract=\"outer\"><replace_replacement-inner/></outer>"
    );
    assert!(!outer_body.contains("deep"));
    let substituted = jsx_config().text_replacements(&outer_body);
    assert_eq!(
        substituted,
        "<outer data-extract=\"outer\"><inner/></outer>"
    );
    assert_eq!(
        serialize_html(&walked, true),
        "<div><replace_replacement-outer/></div>"
    );
}

#[test]
fn walk_without_markers_changes_nothing() {
    let root = elem(
        "main",
        &[("class", "wide")],
        vec![text("alpha"), elem("p", &[], vec![text("beta")])],
    );
    let before = serialize_html(&root, true);
    let (walked, records) = walk_all(root);
    assert_eq!(records.len(), 0);
    assert_eq!(serialize_html(&walked, true), before);
}

#[test]
fn substitution_leaves_token_free_text_unchanged() {
    let text = "<main class=\"wide\">alpha<p>beta</p></main>";
    assert_eq!(jsx_config().text_replacements(text), text);
}

#[test]
fn content_token_is_the_converted_spaced_shape() {
    let extractor = jsx_config();
    assert_eq!(
        extractor.text_replacements("<replace_content />"),
        "{props.children}"
    );
    let unconverted = "<replace_content/>";
    assert_eq!(extractor.text_replacements(unconverted), unconverted);
}

#[test]
fn serialization_escapes_entities() {
    let node = elem(
        "p",
        &[("title", "say \"hi\" & go")],
        vec![text("1 < 2 && 3 > 2")],
    );
    assert_eq!(
        serialize_html(&node, true),
        "<p title=\"say &quot;hi&quot; &amp; go\">1 &lt; 2 &amp;&amp; 3 &gt; 2</p>"
    );
}

#[test]
fn attribute_marker_rewritten_exactly_once() {
    let converted = "<span data-attribute=\"title\">x</span>";
    assert_eq!(
        jsx_config().text_replacements(converted),
        "<span {props.title}>x</span>"
    );
}

#[test]
fn example_config_end_to_end() {
    let root = elem(
        "div",
        &[],
        vec![elem(
            "div",
            &[("data-extract", "Card")],
            vec![
                elem("div", &[("data-content", "")], vec![text("x")]),
                elem("span", &[("data-attribute", "title")], vec![]),
            ],
        )],
    );
    let (_, records) = walk_all(root);
    assert_eq!(records.len(), 1);
    assert_eq!(records[0].name, "Card");
    let extractor = jsx_config();
    let body = convert(&serialize_html(&records[0].node, true));
    let rendered = extractor.render_template(&records[0].name, &body);
    assert_eq!(
        rendered,
        "const Card=()=>( <div data-extract=\"Card\"><div data-content=\"\">{props.children}</div><span {props.title}/></div> );"
    );
    assert_eq!(extractor.output_file_name(&records[0].name), "Card.jsx");
}

#[test]
fn replacement_substitutes_percent() {
    assert_eq!(jsx_config().replacement("Nav"), "<Nav/>");
}

#[test]
fn attribute_substitutes_percent() {
    assert_eq!(jsx_config().attribute("title"), "{props.title}");
}

#[test]
fn replacement_with_multiple_percent_tokens() {
    let extractor = Extractor {
        replacements: Replacements {
            pre: String::new(),
            post: String::new(),
            replacement: "%-%".to_string(),
            content: String::new(),
            attributes: String::new(),
            file_extension: String::new(),
        },
    };
    assert_eq!(extractor.replacement("x"), "x-x");
}

#[test]
fn substitution_is_global_over_every_occurrence() {
    let converted = "<replace_replacement-a/><b/><replace_replacement-c/>";
    assert_eq!(jsx_config().text_replacements(converted), "<a/><b/><c/>");
}

#[test]
fn render_strips_converter_artifact() {
    let converted = "<input defaultValue={\"\"}/>";
    let rendered = jsx_config().render_template("Field", converted);
    assert_eq!(rendered, "const Field=()=>( <input /> );");
}

#[test]
fn normalize_descends_fixed_positions() {
    let target = elem("section", &[("id", "everything")], vec![text("work")]);
    let holder = elem("body", &[], vec![text("a"), text("b"), target]);
    let root = elem(
        "document",
        &[],
        vec![text("doctype"), text("timestamp"), text("watermark"), holder],
    );
    let sub = normalize(root).unwrap();
    assert_eq!(
        serialize_html(&sub, true),
        "<section id=\"everything\">work</section>"
    );
}

#[test]
fn normalize_rejects_short_document() {
    let root = elem("document", &[], vec![text("only")]);
    match normalize(root) {
        Err(e) => {
            assert_eq!(e, ExtractError::Structure);
            assert_eq!(e.describe(), "expected document structure is missing");
        }
        Ok(_) => panic!("expected a structure error"),
    }
}

#[test]
fn normalize_rejects_shallow_target() {
    let holder = elem("body", &[], vec![text("a")]);
    let root = elem(
        "document",
        &[],
        vec![text("doctype"), text("timestamp"), text("watermark"), holder],
    );
    match normalize(root) {
        Err(e) => assert_eq!(e, ExtractError::Structure),
        Ok(_) => panic!("expected a structure error"),
    }
}

#[test]
fn colliding_names_are_detected() {
    let records = vec![
        ExtractionRecord { name: "Card".to_string(), node: text("a") },
        ExtractionRecord { name: "Nav".to_string(), node: text("b") },
        ExtractionRecord { name: "Card".to_string(), node: text("c") },
    ];
    assert!(!check_unique_names(&records));
    let distinct = vec![
        ExtractionRecord { name: "Card".to_string(), node: text("a") },
        ExtractionRecord { name: "Nav".to_string(), node: text("b") },
    ];
    assert!(check_unique_names(&distinct));
}

#[test]
fn find_attribute_returns_first_value() {
    let node = elem("a", &[("href", "x"), ("href", "y"), ("rel", "z")], vec![]);
    assert_eq!(find_attribute(&node, "href"), Some("x".to_string()));
    assert_eq!(find_attribute(&node, "rel"), Some("z".to_string()));
    assert_eq!(find_attribute(&node, "class"), None);
    assert_eq!(find_attribute(&text("t"), "href"), None);
}

#[test]
fn serialization_shapes() {
    assert_eq!(serialize_html(&text("plain"), true), "plain");
    assert_eq!(serialize_html(&elem("br", &[], vec![]), true), "<br/>");
    let tree = elem("ul", &[], vec![elem("li", &[], vec![text("one")])]);
    assert_eq!(serialize_html(&tree, true), "<ul><li>one</li></ul>");
    assert_eq!(serialize_html(&tree, false), "<li>one</li>");
}

#[test]
fn empty_extraction_name_is_preserved() {
    let root = elem(
        "div",
        &[],
        vec![elem("section", &[("data-extract", "")], vec![])],
    );
    let (_, records) = walk_all(root);
    assert_eq!(records.len(), 1);
    assert_eq!(records[0].name, "");
    assert_eq!(jsx_config().output_file_name(&records[0].name), ".jsx");
}

#[test]
fn extract_and_content_on_one_node() {
    let root = elem(
        "div",
        &[],
        vec![elem(
            "card",
            &[("data-extract", "Card"), ("data-content", "")],
            vec![text("old")],
        )],
    );
    let (walked, records) = walk_all(root);
    assert_eq!(records.len(), 1);
    assert_eq!(
        serialize_html(&records[0].node, true),
        "<card data-extract=\"Card\" data-content=\"\"><replace_content/></card>"
    );
    assert_eq!(
        serialize_html(&walked, true),
        "<div><replace_replacement-Card/></div>"
    );
}
