use htmlpack::dom::{foreign_elements, image_refs, rewrite, Attribute, Node, NodeData, QualName, HTML_NAMESPACE};
use htmlpack::packer::{Packer, Resolution, Warning};
use htmlpack::resource::data_uri;

const SVG: &str = "http://www.w3.org/2000/svg";

fn qual(ns: &str, local: &str) -> QualName {
    QualName { prefix: None, ns: ns.to_string(), local: local.to_string() }
}

fn attr(name: &str, value: &str) -> Attribute {
    Attribute { name: qual("", name), value: value.to_string() }
}

fn element(ns: &str, local: &str, attrs: Vec<Attribute>, children: Vec<Node>) -> Node {
    Node { data: NodeData::Element { name: qual(ns, local), attrs }, children }
}

fn html(local: &str, attrs: Vec<Attribute>, children: Vec<Node>) -> Node {
    element(HTML_NAMESPACE, local, attrs, children)
}

fn text(s: &str) -> Node {
    Node { data: NodeData::Text { contents: s.to_string() }, children: vec![] }
}

fn document(body: Vec<Node>) -> Node {
    Node {
        data: NodeData::Document,
        children: vec![html("html", vec![], vec![html("head", vec![], vec![]), html("body", vec![], body)])],
    }
}

fn img_src(src: &str) -> Node {
    html("img", vec![attr("src", src)], vec![])
}

/// The `src` values of the document's `img` elements, in document order.
fn srcs(doc: &Node) -> Vec<String> {
    image_refs(doc)
}

fn body_img_attrs(doc: &Node) -> &Vec<Attribute> {
    match &doc.children[0].children[1].children[0].data {
        NodeData::Element { attrs, .. } => attrs,
        _ => panic!("not an element"),
    }
}

fn nothing_present(_: &str) -> bool {
    false
}

fn nothing_read(_: &str) -> Option<Vec<u8>> {
    None
}

#[test]
fn scenario_a_inlines_png_from_base_directory() {
    let mut doc = document(vec![img_src("a.png")]);
    let mut packer = Packer::new("out".to_string(), vec![], false);
    packer.set_input("page.html");
    let present = |p: &str| p == "a.png";
    let read = |p: &str| if p == "a.png" { Some(vec![0u8, 1, 2]) } else { None };
    let warnings = packer.inline_images(&mut doc, &present, &read);
    assert!(warnings.is_empty());
    assert_eq!(body_img_attrs(&doc)[0].value, "data:image/png;base64,AAEC");
}

#[test]
fn scenario_b_existing_destination_is_skipped() {
    let packer = Packer::new("out".to_string(), vec![], false);
    assert!(!packer.should_write(true));
    assert!(packer.should_write(false));
    let w = Warning::OutputExists("out/page.html".to_string());
    assert_eq!(w.message(), "output file already exists: out/page.html, use -w to overwrite it");
    let overwriting = Packer::new("out".to_string(), vec![], true);
    assert!(overwriting.should_write(true));
}

#[test]
fn scenario_c_missing_image_is_kept_and_reported() {
    let mut doc = document(vec![img_src("missing.png")]);
    let packer = Packer::new("out".to_string(), vec!["p1".to_string()], false);
    let warnings = packer.inline_images(&mut doc, &nothing_present, &nothing_read);
    assert_eq!(body_img_attrs(&doc)[0].value, "missing.png");
    assert_eq!(warnings, vec![Warning::NotFound("missing.png".to_string())]);
    assert_eq!(warnings[0].message(), "not found: img src=missing.png");
}

#[test]
fn resolution_prefers_base_then_search_paths_in_order() {
    let mut packer = Packer::new("out".to_string(), vec!["p1".to_string(), "p2".to_string()], false);
    packer.set_input("d/page.html");
    let all = |p: &str| p == "d/x.png" || p == "p1/x.png" || p == "p2/x.png";
    assert_eq!(packer.find_image("x.png", &all), Some("d/x.png".to_string()));
    let search_only = |p: &str| p == "p1/x.png" || p == "p2/x.png";
    assert_eq!(packer.find_image("x.png", &search_only), Some("p1/x.png".to_string()));
    let last_only = |p: &str| p == "p2/x.png";
    assert_eq!(packer.find_image("x.png", &last_only), Some("p2/x.png".to_string()));
    assert_eq!(packer.find_image("x.png", &nothing_present), None);
}

#[test]
fn embedded_value_decodes_to_file_bytes() {
    let bytes: Vec<u8> = (0u8..=255).collect();
    let uri = data_uri("pics/photo.jpg", &bytes);
    let prefix = "data:image/jpeg;base64,";
    assert!(uri.starts_with(prefix));
    let decoded = base64::decode(&uri[prefix.len()..]).unwrap();
    assert_eq!(decoded, bytes);
}

#[test]
fn data_uri_of_unknown_extension_is_octet_stream() {
    assert_eq!(data_uri("blob.zzqx", &[255u8]), "data:application/octet-stream;base64,/w==");
    assert_eq!(data_uri("empty.gif", &[]), "data:image/gif;base64,");
}

#[test]
fn document_without_images_is_unchanged() {
    let build = || {
        document(vec![
            html("p", vec![attr("class", "x")], vec![text("hello")]),
            Node { data: NodeData::Comment { contents: " c ".to_string() }, children: vec![] },
        ])
    };
    let mut doc = build();
    let packer = Packer::new("out".to_string(), vec![], false);
    let present = |_: &str| true;
    let read = |_: &str| Some(vec![1u8]);
    let warnings = packer.inline_images(&mut doc, &present, &read);
    assert!(warnings.is_empty());
    assert_eq!(doc, build());
}

#[test]
fn second_pass_over_inlined_output_keeps_values() {
    let inlined = "data:image/png;base64,AAEC";
    let mut doc = document(vec![img_src(inlined)]);
    let packer = Packer::new("out".to_string(), vec![], false);
    let warnings = packer.inline_images(&mut doc, &nothing_present, &nothing_read);
    assert_eq!(body_img_attrs(&doc)[0].value, inlined);
    assert_eq!(warnings, vec![Warning::NotFound(inlined.to_string())]);
}

#[test]
fn unreadable_image_is_kept_without_warning() {
    let mut doc = document(vec![img_src("a.png")]);
    let packer = Packer::new("out".to_string(), vec![], false);
    let present = |_: &str| true;
    let warnings = packer.inline_images(&mut doc, &present, &nothing_read);
    assert!(warnings.is_empty());
    assert_eq!(body_img_attrs(&doc)[0].value, "a.png");
    assert_eq!(packer.resolve("a.png", &present, &nothing_read), Resolution::Unreadable);
    assert_eq!(packer.resolve("a.png", &nothing_present, &nothing_read), Resolution::NotFound);
}

#[test]
fn every_src_attribute_is_rewritten_in_order() {
    let img = html("img", vec![attr("src", "a.png"), attr("alt", "a.png"), attr("src", "b.png")], vec![]);
    let mut doc = document(vec![img, html("div", vec![], vec![img_src("c.png")])]);
    assert_eq!(srcs(&doc), vec!["a.png".to_string(), "b.png".to_string(), "c.png".to_string()]);
    let table = vec![("a.png".to_string(), "A".to_string()), ("c.png".to_string(), "C".to_string())];
    rewrite(&mut doc, &table);
    let attrs = body_img_attrs(&doc);
    assert_eq!(attrs[0].value, "A");
    assert_eq!(attrs[1].value, "a.png");
    assert_eq!(attrs[2].value, "b.png");
    assert_eq!(srcs(&doc), vec!["A".to_string(), "b.png".to_string(), "C".to_string()]);
}

#[test]
fn foreign_elements_are_skipped_with_their_subtrees() {
    let svg = element(SVG, "svg", vec![], vec![element(SVG, "img", vec![attr("src", "s.png")], vec![]), img_src("inner.png")]);
    let mut doc = document(vec![svg, img_src("outer.png")]);
    assert_eq!(srcs(&doc), vec!["outer.png".to_string()]);
    let packer = Packer::new("out".to_string(), vec![], false);
    let present = |_: &str| true;
    let read = |_: &str| Some(vec![0u8]);
    let warnings = packer.inline_images(&mut doc, &present, &read);
    assert!(warnings.is_empty());
    assert_eq!(srcs(&doc), vec!["data:image/png;base64,AA==".to_string()]);
}

#[test]
fn non_image_elements_keep_src() {
    let mut doc = document(vec![html("script", vec![attr("src", "a.js")], vec![])]);
    assert!(srcs(&doc).is_empty());
    let table = vec![("a.js".to_string(), "X".to_string())];
    rewrite(&mut doc, &table);
    assert_eq!(body_img_attrs(&doc)[0].value, "a.js");
}

#[test]
fn first_table_entry_wins() {
    let mut doc = document(vec![img_src("a.png")]);
    let table = vec![("a.png".to_string(), "first".to_string()), ("a.png".to_string(), "second".to_string())];
    rewrite(&mut doc, &table);
    assert_eq!(body_img_attrs(&doc)[0].value, "first");
}

#[test]
fn destination_joins_file_name_onto_output_directory() {
    let packer = Packer::new("out".to_string(), vec![], false);
    assert_eq!(packer.destination("site/pages/index.html"), Some("out/index.html".to_string()));
    assert_eq!(packer.destination("index.html"), Some("out/index.html".to_string()));
    assert_eq!(packer.destination(""), None);
}

#[test]
fn input_without_parent_uses_current_directory() {
    let mut packer = Packer::new("out".to_string(), vec![], false);
    packer.set_input("/");
    let present = |p: &str| p == "x.png";
    assert_eq!(packer.find_image("x.png", &present), Some("x.png".to_string()));
    packer.set_input("a/b/page.html");
    let nested = |p: &str| p == "a/b/x.png";
    assert_eq!(packer.find_image("x.png", &nested), Some("a/b/x.png".to_string()));
}

#[test]
fn absolute_reference_replaces_directory() {
    let packer = Packer::new("out".to_string(), vec![], false);
    let present = |p: &str| p == "/abs/x.png";
    assert_eq!(packer.find_image("/abs/x.png", &present), Some("/abs/x.png".to_string()));
}

#[test]
fn foreign_elements_are_listed_outermost_first() {
    let math = element("http://www.w3.org/1998/Math/MathML", "math", vec![], vec![]);
    let svg = element(SVG, "svg", vec![], vec![element(SVG, "g", vec![], vec![])]);
    let doc = document(vec![svg, html("div", vec![], vec![math]), img_src("a.png")]);
    assert_eq!(foreign_elements(&doc), vec!["svg".to_string(), "math".to_string()]);
    assert!(foreign_elements(&document(vec![img_src("a.png")])).is_empty());
    let w = Warning::ForeignElement("svg".to_string());
    assert_eq!(w.message(), "skipped foreign element: svg");
}
