use arena_dom::Attribute;
use arena_dom::DomError;
use arena_dom::ElementFlags;
use arena_dom::GenerationalArenaDom;
use arena_dom::Handle;
use arena_dom::NodeData;
use arena_dom::NodeOrText;
use arena_dom::QualName;
use arena_dom::QuirksMode;

fn qual(local: &str) -> QualName {
    QualName {
        ns: String::from("http://www.w3.org/1999/xhtml"),
        local: String::from(local),
    }
}

fn attr(local: &str, value: &str) -> Attribute {
    Attribute {
        name: qual(local),
        value: String::from(value),
    }
}

fn plain_flags() -> ElementFlags {
    ElementFlags {
        template: false,
        mathml_annotation_xml_integration_point: false,
    }
}

fn new_dom_with_element(local: &str) -> (GenerationalArenaDom, Handle) {
    let mut dom = GenerationalArenaDom::default();
    let el = dom.create_element(qual(local), Vec::new(), plain_flags());
    let doc = dom.get_document();
    dom.append(&doc, NodeOrText::AppendNode(el)).unwrap();
    (dom, el)
}

fn children_of(dom: &GenerationalArenaDom, h: &Handle) -> Vec<Handle> {
    let mut out = Vec::new();
    let mut cur = dom.first_child(h).unwrap();
    while let Some(c) = cur {
        out.push(c);
        cur = dom.next_sibling(&c).unwrap();
    }
    out
}

fn reachable_from(dom: &GenerationalArenaDom, from: &Handle, target: &Handle) -> bool {
    if dom.same_node(from, target) {
        return true;
    }
    for c in children_of(dom, from) {
        if reachable_from(dom, &c, target) {
            return true;
        }
    }
    false
}

fn text_of(dom: &GenerationalArenaDom, h: &Handle) -> String {
    match dom.get_node(h).unwrap() {
        NodeData::Text { contents } => contents.clone(),
        other => panic!("expected a text node, found {:?}", other),
    }
}

#[test]
fn coalescing_two_text_appends() {
    let (mut dom, el) = new_dom_with_element("p");
    dom.append(&el, NodeOrText::AppendText(String::from("a"))).unwrap();
    dom.append(&el, NodeOrText::AppendText(String::from("b"))).unwrap();
    let kids = children_of(&dom, &el);
    assert_eq!(kids.len(), 1);
    assert_eq!(text_of(&dom, &kids[0]), "ab");
}

#[test]
fn no_coalescing_across_non_text_child() {
    let (mut dom, el) = new_dom_with_element("p");
    dom.append(&el, NodeOrText::AppendText(String::from("a"))).unwrap();
    let comment = dom.create_comment(String::from("c"));
    dom.append(&el, NodeOrText::AppendNode(comment)).unwrap();
    dom.append(&el, NodeOrText::AppendText(String::from("b"))).unwrap();
    let kids = children_of(&dom, &el);
    assert_eq!(kids.len(), 3);
    assert_eq!(text_of(&dom, &kids[0]), "a");
    assert!(matches!(dom.get_node(&kids[1]).unwrap(), NodeData::Comment { .. }));
    assert_eq!(text_of(&dom, &kids[2]), "b");
}

#[test]
fn coalescing_across_insert_before() {
    let (mut dom, el) = new_dom_with_element("p");
    dom.append(&el, NodeOrText::AppendText(String::from("x"))).unwrap();
    let comment = dom.create_comment(String::from("c"));
    dom.append(&el, NodeOrText::AppendNode(comment)).unwrap();
    dom.append_before_sibling(&comment, NodeOrText::AppendText(String::from("y")))
        .unwrap();
    let kids = children_of(&dom, &el);
    assert_eq!(kids.len(), 2);
    assert_eq!(text_of(&dom, &kids[0]), "xy");
    assert!(matches!(dom.get_node(&kids[1]).unwrap(), NodeData::Comment { .. }));
}

#[test]
fn insert_before_without_preceding_text_creates_node() {
    let (mut dom, el) = new_dom_with_element("p");
    let comment = dom.create_comment(String::from("c"));
    dom.append(&el, NodeOrText::AppendNode(comment)).unwrap();
    dom.append_before_sibling(&comment, NodeOrText::AppendText(String::from("y")))
        .unwrap();
    let kids = children_of(&dom, &el);
    assert_eq!(kids.len(), 2);
    assert_eq!(text_of(&dom, &kids[0]), "y");
}

#[test]
fn add_attrs_if_missing_keeps_existing_value() {
    let mut dom = GenerationalArenaDom::default();
    let el = dom.create_element(qual("div"), vec![attr("class", "b")], plain_flags());
    dom.add_attrs_if_missing(&el, vec![attr("class", "a")]).unwrap();
    match dom.get_node(&el).unwrap() {
        NodeData::Element { attrs, .. } => {
            assert_eq!(attrs.len(), 1);
            assert_eq!(attrs[0].value, "b");
        }
        _ => panic!("expected an element"),
    }
}

#[test]
fn add_attrs_if_missing_adds_absent_name() {
    let mut dom = GenerationalArenaDom::default();
    let el = dom.create_element(qual("div"), vec![attr("id", "i")], plain_flags());
    dom.add_attrs_if_missing(&el, vec![attr("class", "a")]).unwrap();
    match dom.get_node(&el).unwrap() {
        NodeData::Element { attrs, .. } => {
            assert_eq!(attrs.len(), 2);
            assert_eq!(attrs[0].name.local, "id");
            assert_eq!(attrs[0].value, "i");
            assert_eq!(attrs[1].name.local, "class");
            assert_eq!(attrs[1].value, "a");
        }
        _ => panic!("expected an element"),
    }
}

#[test]
fn add_attrs_on_non_element_fails() {
    let mut dom = GenerationalArenaDom::default();
    let comment = dom.create_comment(String::from("c"));
    let r = dom.add_attrs_if_missing(&comment, vec![attr("class", "a")]);
    assert_eq!(r, Err(DomError::NotAnElement));
}

#[test]
fn doctype_lands_under_document_root() {
    let (mut dom, el) = new_dom_with_element("html");
    dom.append(&el, NodeOrText::AppendText(String::from("body"))).unwrap();
    dom.append_doctype_to_document(
        String::from("html"),
        String::new(),
        String::new(),
    );
    let doc = dom.get_document();
    let kids = children_of(&dom, &doc);
    let last = kids.last().unwrap();
    match dom.get_node(last).unwrap() {
        NodeData::Doctype { name, public_id, system_id } => {
            assert_eq!(name, "html");
            assert_eq!(public_id, "");
            assert_eq!(system_id, "");
        }
        other => panic!("expected a doctype, found {:?}", other),
    }
    assert_eq!(dom.parent_node(last).unwrap(), Some(doc));
}

#[test]
fn template_contents_isolated_from_document() {
    let mut dom = GenerationalArenaDom::default();
    let tpl = dom.create_element(
        qual("template"),
        Vec::new(),
        ElementFlags {
            template: true,
            mathml_annotation_xml_integration_point: false,
        },
    );
    let doc = dom.get_document();
    dom.append(&doc, NodeOrText::AppendNode(tpl)).unwrap();
    let contents = dom.get_template_contents(&tpl).unwrap();
    assert!(matches!(dom.get_node(&contents).unwrap(), NodeData::Document));
    assert_eq!(dom.parent_node(&contents).unwrap(), None);
    assert!(!reachable_from(&dom, &doc, &contents));
    dom.append(&contents, NodeOrText::AppendText(String::from("inner")))
        .unwrap();
    assert!(!reachable_from(&dom, &doc, &contents));
}

#[test]
fn non_template_has_no_contents() {
    let mut dom = GenerationalArenaDom::default();
    let el = dom.create_element(qual("div"), Vec::new(), plain_flags());
    assert_eq!(dom.get_template_contents(&el), Err(DomError::NotATemplate));
    let comment = dom.create_comment(String::from("c"));
    assert_eq!(dom.get_template_contents(&comment), Err(DomError::NotATemplate));
}

#[test]
fn reparent_children_moves_in_order() {
    let mut dom = GenerationalArenaDom::default();
    let doc = dom.get_document();
    let n = dom.create_element(qual("ul"), Vec::new(), plain_flags());
    let m = dom.create_element(qual("ol"), Vec::new(), plain_flags());
    dom.append(&doc, NodeOrText::AppendNode(n)).unwrap();
    dom.append(&doc, NodeOrText::AppendNode(m)).unwrap();
    let c1 = dom.create_element(qual("li"), Vec::new(), plain_flags());
    let c2 = dom.create_element(qual("li"), Vec::new(), plain_flags());
    dom.append(&n, NodeOrText::AppendNode(c1)).unwrap();
    dom.append(&n, NodeOrText::AppendNode(c2)).unwrap();
    let c0 = dom.create_comment(String::from("existing"));
    dom.append(&m, NodeOrText::AppendNode(c0)).unwrap();
    dom.reparent_children(&n, &m).unwrap();
    assert_eq!(children_of(&dom, &n).len(), 0);
    let m_kids = children_of(&dom, &m);
    assert_eq!(m_kids, vec![c0, c1, c2]);
    assert_eq!(dom.parent_node(&c1).unwrap(), Some(m));
    assert_eq!(dom.parent_node(&c2).unwrap(), Some(m));
}

#[test]
fn detached_node_keeps_its_subtree() {
    let mut dom = GenerationalArenaDom::default();
    let doc = dom.get_document();
    let n = dom.create_element(qual("div"), Vec::new(), plain_flags());
    dom.append(&doc, NodeOrText::AppendNode(n)).unwrap();
    let c1 = dom.create_comment(String::from("one"));
    let c2 = dom.create_comment(String::from("two"));
    dom.append(&n, NodeOrText::AppendNode(c1)).unwrap();
    dom.append(&n, NodeOrText::AppendNode(c2)).unwrap();
    dom.remove_from_parent(&n).unwrap();
    assert!(!reachable_from(&dom, &doc, &n));
    assert!(!reachable_from(&dom, &doc, &c1));
    assert!(reachable_from(&dom, &n, &c1));
    assert!(reachable_from(&dom, &n, &c2));
    assert_eq!(children_of(&dom, &n), vec![c1, c2]);
}

#[test]
fn append_based_on_parent_node_picks_sibling_insert_when_attached() {
    let (mut dom, el) = new_dom_with_element("table");
    let prev = dom.create_element(qual("div"), Vec::new(), plain_flags());
    let doc = dom.get_document();
    dom.append(&doc, NodeOrText::AppendNode(prev)).unwrap();
    dom.append_based_on_parent_node(&el, &prev, NodeOrText::AppendText(String::from("t")))
        .unwrap();
    let doc_kids = children_of(&dom, &doc);
    assert_eq!(text_of(&dom, &doc_kids[0]), "t");
    assert!(dom.same_node(&doc_kids[1], &el));
}

#[test]
fn append_based_on_parent_node_falls_back_when_detached() {
    let mut dom = GenerationalArenaDom::default();
    let el = dom.create_element(qual("table"), Vec::new(), plain_flags());
    let prev = dom.create_element(qual("div"), Vec::new(), plain_flags());
    let doc = dom.get_document();
    dom.append(&doc, NodeOrText::AppendNode(prev)).unwrap();
    dom.append_based_on_parent_node(&el, &prev, NodeOrText::AppendText(String::from("t")))
        .unwrap();
    let kids = children_of(&dom, &prev);
    assert_eq!(kids.len(), 1);
    assert_eq!(text_of(&dom, &kids[0]), "t");
}

#[test]
fn handles_stay_valid_through_mutation() {
    let mut dom = GenerationalArenaDom::default();
    let doc = dom.get_document();
    let mut handles = vec![doc];
    for i in 0..10 {
        let el = dom.create_element(qual("div"), Vec::new(), plain_flags());
        dom.append(&doc, NodeOrText::AppendNode(el)).unwrap();
        if i % 2 == 0 {
            dom.remove_from_parent(&el).unwrap();
        }
        handles.push(el);
    }
    dom.append_doctype_to_document(String::from("html"), String::new(), String::new());
    for h in &handles {
        assert!(dom.get_node(h).is_ok());
    }
}

#[test]
fn invalid_handle_is_reported() {
    let mut dom = GenerationalArenaDom::default();
    let bogus_index = Handle { index: 999, generation: 0 };
    assert!(matches!(dom.get_node(&bogus_index), Err(DomError::InvalidHandle)));
    assert_eq!(
        dom.append(&bogus_index, NodeOrText::AppendText(String::from("a"))),
        Err(DomError::InvalidHandle)
    );
    let doc = dom.get_document();
    let stale_generation = Handle { index: doc.index, generation: doc.generation + 1 };
    assert!(matches!(dom.get_node(&stale_generation), Err(DomError::InvalidHandle)));
    assert_eq!(dom.remove_from_parent(&stale_generation), Err(DomError::InvalidHandle));
}

#[test]
fn not_an_element_is_reported() {
    let mut dom = GenerationalArenaDom::default();
    let doc = dom.get_document();
    assert!(matches!(dom.elem_name(&doc), Err(DomError::NotAnElement)));
    assert!(matches!(
        dom.is_mathml_annotation_xml_integration_point(&doc),
        Err(DomError::NotAnElement)
    ));
}

#[test]
fn no_parent_is_reported_for_detached_sibling() {
    let mut dom = GenerationalArenaDom::default();
    let el = dom.create_element(qual("div"), Vec::new(), plain_flags());
    let r = dom.append_before_sibling(&el, NodeOrText::AppendText(String::from("a")));
    assert_eq!(r, Err(DomError::NoParent));
}

#[test]
fn elem_name_and_flags_read_back() {
    let mut dom = GenerationalArenaDom::default();
    let el = dom.create_element(
        qual("annotation-xml"),
        Vec::new(),
        ElementFlags {
            template: false,
            mathml_annotation_xml_integration_point: true,
        },
    );
    let name = dom.elem_name(&el).unwrap();
    assert_eq!(name.local, "annotation-xml");
    assert_eq!(name.ns, "http://www.w3.org/1999/xhtml");
    assert!(dom.is_mathml_annotation_xml_integration_point(&el).unwrap());
    let plain = dom.create_element(qual("div"), Vec::new(), plain_flags());
    assert!(!dom.is_mathml_annotation_xml_integration_point(&plain).unwrap());
}

#[test]
fn same_node_is_identity_not_payload() {
    let mut dom = GenerationalArenaDom::default();
    let a = dom.create_comment(String::from("c"));
    let b = dom.create_comment(String::from("c"));
    assert!(dom.same_node(&a, &a));
    assert!(!dom.same_node(&a, &b));
}

#[test]
fn errors_and_quirks_accumulate() {
    let mut dom = GenerationalArenaDom::default();
    assert_eq!(dom.quirks_mode, QuirksMode::NoQuirks);
    dom.parse_error(String::from("first"));
    dom.parse_error(String::from("second"));
    dom.set_quirks_mode(QuirksMode::Quirks);
    let done = dom.finish();
    assert_eq!(done.errors, vec![String::from("first"), String::from("second")]);
    assert_eq!(done.quirks_mode, QuirksMode::Quirks);
}

#[test]
fn preceding_node_walks_left() {
    let (mut dom, el) = new_dom_with_element("p");
    let a = dom.create_comment(String::from("a"));
    let b = dom.create_comment(String::from("b"));
    dom.append(&el, NodeOrText::AppendNode(a)).unwrap();
    dom.append(&el, NodeOrText::AppendNode(b)).unwrap();
    assert_eq!(dom.preceding_node(&b).unwrap(), Some(a));
    assert_eq!(dom.preceding_node(&a).unwrap(), None);
    let detached = dom.create_comment(String::from("d"));
    assert_eq!(dom.preceding_node(&detached).unwrap(), None);
}

#[test]
fn append_moves_a_node_between_parents() {
    let mut dom = GenerationalArenaDom::default();
    let doc = dom.get_document();
    let p1 = dom.create_element(qual("p"), Vec::new(), plain_flags());
    let p2 = dom.create_element(qual("p"), Vec::new(), plain_flags());
    dom.append(&doc, NodeOrText::AppendNode(p1)).unwrap();
    dom.append(&doc, NodeOrText::AppendNode(p2)).unwrap();
    let c = dom.create_comment(String::from("c"));
    dom.append(&p1, NodeOrText::AppendNode(c)).unwrap();
    dom.append(&p2, NodeOrText::AppendNode(c)).unwrap();
    assert_eq!(children_of(&dom, &p1).len(), 0);
    assert_eq!(children_of(&dom, &p2), vec![c]);
    assert_eq!(dom.parent_node(&c).unwrap(), Some(p2));
}

#[test]
fn processing_instruction_round_trip() {
    let mut dom = GenerationalArenaDom::default();
    let pi = dom.create_pi(String::from("xml"), String::from("version=\"1.0\""));
    match dom.get_node(&pi).unwrap() {
        NodeData::ProcessingInstruction { target, contents } => {
            assert_eq!(target, "xml");
            assert_eq!(contents, "version=\"1.0\"");
        }
        other => panic!("expected a processing instruction, found {:?}", other),
    }
}
