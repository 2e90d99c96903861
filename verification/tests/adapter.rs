//! Tests that drive the adapter directly through its callback set, the way
//! the tree-construction engine would.

use html5_tree_adapter::dom::{Attribute, NodeData, QualifiedName};
use html5_tree_adapter::handle::Handle;
use html5_tree_adapter::sink::{ElementFlags, NodeOrText, QuirksMode, Sink};

fn qn(local: &str) -> QualifiedName {
    QualifiedName { ns: String::from("http://www.w3.org/1999/xhtml"), local: String::from(local) }
}

fn attr(local: &str, value: &str) -> Attribute {
    Attribute { name: qn(local), value: String::from(value) }
}

fn no_flags() -> ElementFlags {
    ElementFlags { template: false, mathml_annotation_xml_integration_point: false }
}

#[test]
fn error_collection_preserves_order_and_lines() {
    let mut sink = Sink::new();
    sink.parse_error(String::from("first"));
    sink.set_current_line(3);
    sink.parse_error(String::from("second"));
    sink.parse_error(String::from("third"));
    sink.set_current_line(9);
    sink.parse_error(String::from("fourth"));
    let result = sink.into_parse_result();
    let errors = &result.error_container;
    assert_eq!(errors.count(), 4);
    let e0 = errors.get(0).unwrap();
    assert_eq!(e0.line, 1);
    assert_eq!(e0.msg, "first");
    let e1 = errors.get(1).unwrap();
    assert_eq!(e1.line, 3);
    assert_eq!(e1.msg, "second");
    let e2 = errors.get(2).unwrap();
    assert_eq!(e2.line, 3);
    assert_eq!(e2.msg, "third");
    let e3 = errors.get(3).unwrap();
    assert_eq!(e3.line, 9);
    assert_eq!(e3.msg, "fourth");
    assert!(errors.get(4).is_none());
}

#[test]
fn error_count_matches_invocations() {
    let mut sink = Sink::new();
    assert_eq!(sink.error_container.count(), 0);
    for i in 0..17u64 {
        sink.set_current_line(i + 1);
        sink.parse_error(format!("error number {}", i));
    }
    assert_eq!(sink.error_container.count(), 17);
    for i in 0..17usize {
        let e = sink.error_container.get(i).unwrap();
        assert_eq!(e.line, (i + 1) as u64);
        assert_eq!(e.msg, format!("error number {}", i));
    }
}

#[test]
fn template_contents_distinct_and_stable() {
    let mut sink = Sink::new();
    let tpl = sink.create_element(
        qn("template"),
        Vec::new(),
        ElementFlags { template: true, mathml_annotation_xml_integration_point: false },
    );
    let contents = sink.get_template_contents(&tpl);
    assert_ne!(contents.as_raw(), tpl.as_raw());
    // stable across repeated queries within one parse
    let again = sink.get_template_contents(&tpl);
    assert_eq!(contents.as_raw(), again.as_raw());
    // the contents handle denotes a fragment node
    assert!(matches!(sink.dom.data[contents.as_raw()], NodeData::Fragment));
    // still stable after unrelated work
    let div = sink.create_element(qn("div"), Vec::new(), no_flags());
    sink.append(&Handle(0), NodeOrText::AppendNode(div));
    let later = sink.get_template_contents(&tpl);
    assert_eq!(contents.as_raw(), later.as_raw());
}

#[test]
fn integration_point_reflects_creation_flag() {
    let mut sink = Sink::new();
    let marked = sink.create_element(
        qn("annotation-xml"),
        Vec::new(),
        ElementFlags { template: false, mathml_annotation_xml_integration_point: true },
    );
    let plain = sink.create_element(qn("div"), Vec::new(), no_flags());
    assert!(sink.is_mathml_annotation_xml_integration_point(&marked));
    assert!(!sink.is_mathml_annotation_xml_integration_point(&plain));
    // unrelated callbacks do not disturb the flag, for the parse's duration
    sink.append(&Handle(0), NodeOrText::AppendNode(marked));
    sink.parse_error(String::from("noise"));
    sink.set_current_line(5);
    let other = sink.create_element(qn("span"), Vec::new(), no_flags());
    sink.append(&Handle(0), NodeOrText::AppendNode(other));
    assert!(sink.is_mathml_annotation_xml_integration_point(&marked));
    assert!(!sink.is_mathml_annotation_xml_integration_point(&plain));
    assert!(!sink.is_mathml_annotation_xml_integration_point(&other));
}

#[test]
fn doctype_with_both_identifiers_empty_records_absent() {
    let mut sink = Sink::new();
    sink.append_doctype_to_document(String::from("html"), String::new(), String::new());
    let result = sink.into_parse_result();
    let doc_children = &result.doc.children[0];
    assert_eq!(doc_children.len(), 1);
    match &result.doc.data[doc_children[0]] {
        NodeData::Doctype { name, public_id, system_id } => {
            assert_eq!(name, "html");
            assert!(public_id.is_none());
            assert!(system_id.is_none());
        }
        other => panic!("expected a doctype node, found {:?}", other),
    }
}

#[test]
fn doctype_with_one_empty_identifier_records_it_present() {
    let mut sink = Sink::new();
    sink.append_doctype_to_document(
        String::from("html"),
        String::new(),
        String::from("about:legacy-compat"),
    );
    let result = sink.into_parse_result();
    let doc_children = &result.doc.children[0];
    assert_eq!(doc_children.len(), 1);
    match &result.doc.data[doc_children[0]] {
        NodeData::Doctype { name, public_id, system_id } => {
            assert_eq!(name, "html");
            assert_eq!(public_id.as_deref(), Some(""));
            assert_eq!(system_id.as_deref(), Some("about:legacy-compat"));
        }
        other => panic!("expected a doctype node, found {:?}", other),
    }
}

#[test]
fn add_attrs_if_missing_is_idempotent() {
    let mut sink = Sink::new();
    let el = sink.create_element(qn("form"), vec![attr("id", "main")], no_flags());
    let supplied = || vec![attr("id", "other"), attr("class", "wide"), attr("class", "dup")];
    sink.add_attrs_if_missing(&el, supplied());
    // "id" already present: kept with its original value; "class" added once
    let attrs = &sink.dom.attrs[el.as_raw()];
    assert_eq!(attrs.len(), 2);
    assert_eq!(attrs[0].name.local, "id");
    assert_eq!(attrs[0].value, "main");
    assert_eq!(attrs[1].name.local, "class");
    assert_eq!(attrs[1].value, "wide");
    // a second call with the identical set changes nothing
    sink.add_attrs_if_missing(&el, supplied());
    let attrs = &sink.dom.attrs[el.as_raw()];
    assert_eq!(attrs.len(), 2);
    assert_eq!(attrs[0].name.local, "id");
    assert_eq!(attrs[0].value, "main");
    assert_eq!(attrs[1].name.local, "class");
    assert_eq!(attrs[1].value, "wide");
}

#[test]
fn create_element_applies_duplicate_attributes_independently() {
    let mut sink = Sink::new();
    let el = sink.create_element(qn("p"), vec![attr("x", "1"), attr("x", "2")], no_flags());
    let attrs = &sink.dom.attrs[el.as_raw()];
    assert_eq!(attrs.len(), 2);
    assert_eq!(attrs[0].value, "1");
    assert_eq!(attrs[1].value, "2");
    assert!(sink.has_attribute(&el, &qn("x")));
    assert!(!sink.has_attribute(&el, &qn("y")));
}

#[test]
fn append_text_materializes_fresh_nodes_per_chunk() {
    let mut sink = Sink::new();
    let body = sink.create_element(qn("body"), Vec::new(), no_flags());
    sink.append(&Handle(0), NodeOrText::AppendNode(body));
    sink.append(&body, NodeOrText::AppendText(String::from("Hi")));
    sink.append(&body, NodeOrText::AppendText(String::from("Hi")));
    let kids = &sink.dom.children[body.as_raw()];
    assert_eq!(kids.len(), 2);
    assert_ne!(kids[0], kids[1]);
    for k in kids {
        match &sink.dom.data[*k] {
            NodeData::Text { text } => assert_eq!(text, "Hi"),
            other => panic!("expected a text node, found {:?}", other),
        }
    }
}

#[test]
fn append_before_sibling_inserts_in_order() {
    let mut sink = Sink::new();
    let parent = sink.create_element(qn("ul"), Vec::new(), no_flags());
    sink.append(&Handle(0), NodeOrText::AppendNode(parent));
    let a = sink.create_element(qn("li"), Vec::new(), no_flags());
    let b = sink.create_element(qn("li"), Vec::new(), no_flags());
    let c = sink.create_element(qn("li"), Vec::new(), no_flags());
    sink.append(&parent, NodeOrText::AppendNode(a));
    sink.append(&parent, NodeOrText::AppendNode(c));
    sink.append_before_sibling(&c, NodeOrText::AppendNode(b));
    assert_eq!(
        sink.dom.children[parent.as_raw()],
        vec![a.as_raw(), b.as_raw(), c.as_raw()]
    );
    sink.append_before_sibling(&a, NodeOrText::AppendText(String::from("lead")));
    let kids = &sink.dom.children[parent.as_raw()];
    assert_eq!(kids.len(), 4);
    assert!(matches!(&sink.dom.data[kids[0]], NodeData::Text { text } if text == "lead"));
    assert_eq!(kids[1], a.as_raw());
}

#[test]
fn append_based_on_parent_node_resolves_both_branches() {
    let mut sink = Sink::new();
    let table = sink.create_element(qn("table"), Vec::new(), no_flags());
    let fallback = sink.create_element(qn("div"), Vec::new(), no_flags());
    sink.append(&Handle(0), NodeOrText::AppendNode(fallback));
    // `table` is detached: the fallback parent receives the node
    let x = sink.create_element(qn("i"), Vec::new(), no_flags());
    sink.append_based_on_parent_node(&table, &fallback, NodeOrText::AppendNode(x));
    assert_eq!(sink.dom.children[fallback.as_raw()], vec![x.as_raw()]);
    // once `table` has a parent, insertion goes before it instead
    sink.append(&fallback, NodeOrText::AppendNode(table));
    let y = sink.create_element(qn("b"), Vec::new(), no_flags());
    sink.append_based_on_parent_node(&table, &fallback, NodeOrText::AppendNode(y));
    assert_eq!(
        sink.dom.children[fallback.as_raw()],
        vec![x.as_raw(), y.as_raw(), table.as_raw()]
    );
}

#[test]
fn remove_from_parent_unlinks_and_allows_reinsertion() {
    let mut sink = Sink::new();
    let parent = sink.create_element(qn("div"), Vec::new(), no_flags());
    sink.append(&Handle(0), NodeOrText::AppendNode(parent));
    let child = sink.create_element(qn("span"), Vec::new(), no_flags());
    sink.append(&parent, NodeOrText::AppendNode(child));
    assert_eq!(sink.dom.parent[child.as_raw()], Some(parent.as_raw()));
    sink.remove_from_parent(&child);
    assert_eq!(sink.dom.parent[child.as_raw()], None);
    assert!(sink.dom.children[parent.as_raw()].is_empty());
    // the node stays allocated and can be inserted again
    sink.append(&parent, NodeOrText::AppendNode(child));
    assert_eq!(sink.dom.children[parent.as_raw()], vec![child.as_raw()]);
    // unlinking a detached node is a no-op
    sink.remove_from_parent(&parent);
    sink.remove_from_parent(&parent);
    assert_eq!(sink.dom.parent[parent.as_raw()], None);
}

#[test]
fn reparent_children_moves_all_children_in_order() {
    let mut sink = Sink::new();
    let from = sink.create_element(qn("div"), Vec::new(), no_flags());
    let to = sink.create_element(qn("section"), Vec::new(), no_flags());
    let existing = sink.create_element(qn("em"), Vec::new(), no_flags());
    sink.append(&to, NodeOrText::AppendNode(existing));
    let a = sink.create_element(qn("b"), Vec::new(), no_flags());
    let b = sink.create_element(qn("i"), Vec::new(), no_flags());
    let c = sink.create_element(qn("u"), Vec::new(), no_flags());
    sink.append(&from, NodeOrText::AppendNode(a));
    sink.append(&from, NodeOrText::AppendNode(b));
    sink.append(&from, NodeOrText::AppendNode(c));
    sink.reparent_children(&from, &to);
    assert!(sink.dom.children[from.as_raw()].is_empty());
    assert_eq!(
        sink.dom.children[to.as_raw()],
        vec![existing.as_raw(), a.as_raw(), b.as_raw(), c.as_raw()]
    );
    for moved in [a, b, c] {
        assert_eq!(sink.dom.parent[moved.as_raw()], Some(to.as_raw()));
    }
}

#[test]
fn elem_name_returns_registered_name() {
    let mut sink = Sink::new();
    let el = sink.create_element(qn("article"), Vec::new(), no_flags());
    let name = sink.elem_name(&el);
    assert_eq!(name.local, "article");
    assert_eq!(name.ns, "http://www.w3.org/1999/xhtml");
}

#[test]
fn same_node_compares_identity() {
    let mut sink = Sink::new();
    let a = sink.create_element(qn("div"), Vec::new(), no_flags());
    let b = sink.create_element(qn("div"), Vec::new(), no_flags());
    assert!(sink.same_node(&a, &a));
    assert!(!sink.same_node(&a, &b));
    let doc = sink.get_document();
    assert!(sink.same_node(&Handle(0), &doc));
}

#[test]
fn quirks_mode_and_finish_change_nothing() {
    let mut sink = Sink::new();
    let el = sink.create_element(qn("html"), Vec::new(), no_flags());
    sink.append(&Handle(0), NodeOrText::AppendNode(el));
    sink.set_quirks_mode(QuirksMode::Quirks);
    sink.set_quirks_mode(QuirksMode::NoQuirks);
    let sink = sink.finish();
    assert_eq!(sink.dom.children[0], vec![el.as_raw()]);
    assert_eq!(sink.error_container.count(), 0);
}

#[test]
fn destroying_one_result_leaves_others_intact() {
    let mut first = Sink::new();
    first.parse_error(String::from("kept"));
    let kept = first.into_parse_result();

    let mut second = Sink::new();
    second.parse_error(String::from("gone"));
    let doomed = second.into_parse_result();
    drop(doomed);

    // the surviving result is unaffected by the other's destruction
    assert_eq!(kept.error_container.count(), 1);
    assert_eq!(kept.error_container.get(0).unwrap().msg, "kept");
    assert!(matches!(kept.doc.data[0], NodeData::Document));
}

#[test]
fn comments_and_processing_instructions_are_not_elements() {
    let mut sink = Sink::new();
    let comment = sink.create_comment(String::from(" note "));
    let pi = sink.create_pi(String::from("xml-stylesheet"), String::from("href=\"a.css\""));
    sink.append(&Handle(0), NodeOrText::AppendNode(comment));
    sink.append(&Handle(0), NodeOrText::AppendNode(pi));
    assert!(matches!(&sink.dom.data[comment.as_raw()], NodeData::Comment { text } if text == " note "));
    match &sink.dom.data[pi.as_raw()] {
        NodeData::ProcessingInstruction { target, data } => {
            assert_eq!(target, "xml-stylesheet");
            assert_eq!(data, "href=\"a.css\"");
        }
        other => panic!("expected a processing instruction, found {:?}", other),
    }
    // neither enters the name registry
    assert!(sink.names[comment.as_raw()].is_none());
    assert!(sink.names[pi.as_raw()].is_none());
}

#[test]
fn append_moves_an_already_linked_node() {
    let mut sink = Sink::new();
    let a = sink.create_element(qn("div"), Vec::new(), no_flags());
    let b = sink.create_element(qn("div"), Vec::new(), no_flags());
    let child = sink.create_element(qn("span"), Vec::new(), no_flags());
    sink.append(&a, NodeOrText::AppendNode(child));
    assert_eq!(sink.dom.children[a.as_raw()], vec![child.as_raw()]);
    // appending elsewhere unlinks from the old parent first
    sink.append(&b, NodeOrText::AppendNode(child));
    assert!(sink.dom.children[a.as_raw()].is_empty());
    assert_eq!(sink.dom.children[b.as_raw()], vec![child.as_raw()]);
    assert_eq!(sink.dom.parent[child.as_raw()], Some(b.as_raw()));
}

#[test]
fn get_document_is_the_root() {
    let mut sink = Sink::new();
    let doc = sink.get_document();
    assert_eq!(doc.as_raw(), 0);
    assert!(matches!(sink.dom.data[doc.as_raw()], NodeData::Document));
}
