use llm_readability::calls::{
    next_call, Replay, SerializableHandle, SerializerCall, TraversalScope,
};
use llm_readability::dom;
use llm_readability::extractor::can_extract;
use llm_readability::html::{serialize, HtmlWriter};
use llm_readability::interface::{
    Attribute, ElementFlags, Handle, NodeOrText, QualName, QuirksMode,
};
use llm_readability::rcdom::{Node, NodeData, RcDom};

const HTML: &str = "http://www.w3.org/1999/xhtml";

const PLAIN: ElementFlags =
    ElementFlags { template: false, mathml_annotation_xml_integration_point: false };

fn name(local: &str) -> QualName {
    QualName::new(None, HTML.to_string(), local.to_string())
}

fn attribute(local: &str, value: &str) -> Attribute {
    Attribute {
        name: QualName::new(None, String::new(), local.to_string()),
        value: value.to_string(),
    }
}

fn element(dom: &mut RcDom, local: &str) -> Handle {
    dom.create_element(name(local), vec![], PLAIN)
}

fn child(dom: &mut RcDom, parent: Handle, local: &str) -> Handle {
    let h = element(dom, local);
    dom.append(parent, NodeOrText::AppendNode(h));
    h
}

fn text(dom: &mut RcDom, parent: Handle, contents: &str) {
    dom.append(parent, NodeOrText::AppendText(contents.to_string()));
}

fn children(dom: &RcDom, h: Handle) -> Vec<Handle> {
    dom.nodes[h.0].children.clone()
}

fn whole(dom: &RcDom, h: Handle) -> String {
    let bytes = serialize(dom, &SerializableHandle::from(h), TraversalScope::IncludeNode);
    String::from_utf8(bytes).unwrap()
}

fn inner(dom: &RcDom, h: Handle) -> String {
    let bytes = serialize(dom, &SerializableHandle::from(h), TraversalScope::ChildrenOnly);
    String::from_utf8(bytes).unwrap()
}

#[test]
fn a_fresh_document_is_a_document_node() {
    let dom = RcDom::default();
    assert_eq!(dom.node_count(), 1);
    assert_eq!(dom.get_document(), dom.document);
    assert!(matches!(dom.nodes[dom.document.0].data, NodeData::Document));
    assert!(dom.parent(dom.document).is_none());
    assert!(dom.errors.is_empty());
    assert_eq!(dom.quirks_mode, QuirksMode::NoQuirks);
    assert_eq!(dom.finish().node_count(), 1);
}

#[test]
fn a_new_node_stands_alone() {
    let node = Node::new(NodeData::Text { contents: "x".to_string() });
    assert!(node.parent.is_none());
    assert!(node.children.is_empty());
}

#[test]
fn errors_and_quirks_are_recorded() {
    let mut dom = RcDom::default();
    dom.parse_error("first".to_string());
    dom.parse_error("second".to_string());
    dom.set_quirks_mode(QuirksMode::LimitedQuirks);
    assert_eq!(dom.errors, vec!["first".to_string(), "second".to_string()]);
    assert_eq!(dom.quirks_mode, QuirksMode::LimitedQuirks);
}

#[test]
fn appended_text_joins_the_text_before_it() {
    let mut dom = RcDom::default();
    let p = child(&mut dom, Handle(0), "p");
    text(&mut dom, p, "one");
    text(&mut dom, p, " two");
    assert_eq!(children(&dom, p).len(), 1);
    let b = child(&mut dom, p, "b");
    text(&mut dom, p, "three");
    assert_eq!(children(&dom, p).len(), 3);
    assert_eq!(dom.parent(b), Some(p));
    assert_eq!(inner(&dom, p), "one two<b></b>three");
}

#[test]
fn something_goes_before_a_sibling() {
    let mut dom = RcDom::default();
    let p = child(&mut dom, Handle(0), "p");
    let b = child(&mut dom, p, "b");
    dom.append_before_sibling(b, NodeOrText::AppendText("one".to_string()));
    dom.append_before_sibling(b, NodeOrText::AppendText(" two".to_string()));
    assert_eq!(inner(&dom, p), "one two<b></b>");
    assert_eq!(children(&dom, p).len(), 2);
    let i = element(&mut dom, "i");
    dom.append_before_sibling(b, NodeOrText::AppendNode(i));
    assert_eq!(inner(&dom, p), "one two<i></i><b></b>");
    assert_eq!(dom.get_parent_and_index(b), Some((p, 2)));
}

#[test]
fn a_node_put_before_a_sibling_leaves_its_place() {
    let mut dom = RcDom::default();
    let p = child(&mut dom, Handle(0), "p");
    let q = child(&mut dom, Handle(0), "q");
    let a = child(&mut dom, p, "a");
    let b = child(&mut dom, q, "b");
    dom.append_before_sibling(b, NodeOrText::AppendNode(a));
    assert!(children(&dom, p).is_empty());
    assert_eq!(children(&dom, q), vec![a, b]);
    assert_eq!(dom.parent(a), Some(q));
}

#[test]
fn the_place_is_counted_before_the_node_leaves() {
    let mut dom = RcDom::default();
    let p = child(&mut dom, Handle(0), "p");
    let a = child(&mut dom, p, "a");
    let b = child(&mut dom, p, "b");
    let c = child(&mut dom, p, "c");
    dom.append_before_sibling(c, NodeOrText::AppendNode(a));
    assert_eq!(children(&dom, p), vec![b, c, a]);
}

#[test]
fn the_parent_decides_where_something_goes() {
    let mut dom = RcDom::default();
    let p = child(&mut dom, Handle(0), "p");
    let table = child(&mut dom, p, "table");
    let loose = element(&mut dom, "table");
    dom.append_based_on_parent_node(table, p, NodeOrText::AppendText("before".to_string()));
    dom.append_based_on_parent_node(loose, p, NodeOrText::AppendText("after".to_string()));
    assert_eq!(inner(&dom, p), "before<table></table>after");
}

#[test]
fn removing_undoes_appending() {
    let mut dom = RcDom::default();
    let p = child(&mut dom, Handle(0), "p");
    child(&mut dom, p, "a");
    let before = children(&dom, p);
    let b = child(&mut dom, p, "b");
    dom.remove_from_parent(b);
    assert_eq!(children(&dom, p), before);
    assert!(dom.parent(b).is_none());
    assert_eq!(dom.get_parent_and_index(b), None);
    dom.remove_from_parent(b);
    assert_eq!(children(&dom, p), before);
}

#[test]
fn children_move_to_a_new_parent() {
    let mut dom = RcDom::default();
    let p = child(&mut dom, Handle(0), "p");
    let q = child(&mut dom, Handle(0), "q");
    let a = child(&mut dom, p, "a");
    let b = child(&mut dom, p, "b");
    let c = child(&mut dom, q, "c");
    dom.reparent_children(p, q);
    assert!(children(&dom, p).is_empty());
    assert_eq!(children(&dom, q), vec![c, a, b]);
    assert_eq!(dom.parent(a), Some(q));
    assert_eq!(dom.parent(b), Some(q));
    assert!(can_extract(&dom, q));
}

#[test]
fn only_missing_attributes_are_added() {
    let mut dom = RcDom::default();
    let p = dom.create_element(name("p"), vec![attribute("id", "old")], PLAIN);
    dom.append(Handle(0), NodeOrText::AppendNode(p));
    let more = vec![attribute("id", "new"), attribute("class", "c")];
    dom.add_attrs_if_missing(p, more.clone());
    assert_eq!(whole(&dom, p), "<p id=\"old\" class=\"c\"></p>");
    dom.add_attrs_if_missing(p, more);
    assert_eq!(whole(&dom, p), "<p id=\"old\" class=\"c\"></p>");
}

#[test]
fn a_template_is_created_with_contents() {
    let mut dom = RcDom::default();
    let flags = ElementFlags { template: true, mathml_annotation_xml_integration_point: true };
    let t = dom.create_element(name("template"), vec![], flags);
    let contents = dom.get_template_contents(t);
    assert!(matches!(dom.nodes[contents.0].data, NodeData::Document));
    assert!(children(&dom, contents).is_empty());
    assert!(dom.is_mathml_annotation_xml_integration_point(t));
    assert_eq!(dom.elem_name(t).local, "template");
    assert!(dom.same_node(t, t));
    assert!(!dom.same_node(t, contents));
}

#[test]
fn every_kind_of_node_is_written() {
    let mut dom = RcDom::default();
    dom.append_doctype_to_document("html".to_string(), "public".to_string(), String::new());
    let comment = dom.create_comment("note".to_string());
    dom.append(Handle(0), NodeOrText::AppendNode(comment));
    let pi = dom.create_pi("target".to_string(), "data".to_string());
    dom.append(Handle(0), NodeOrText::AppendNode(pi));
    let p = dom.create_element(name("p"), vec![attribute("title", "a\"b<c>&\u{a0}")], PLAIN);
    dom.append(Handle(0), NodeOrText::AppendNode(p));
    text(&mut dom, p, "a\"b<c>&\u{a0}é");
    assert!(can_extract(&dom, Handle(0)));
    assert_eq!(
        inner(&dom, Handle(0)),
        "<!DOCTYPE html><!--note--><?target data><p title=\"a&quot;b&lt;c&gt;&amp;&nbsp;\">a\"b&lt;c&gt;&amp;&nbsp;é</p>"
    );
    assert_eq!(whole(&dom, comment), "<!--note-->");
}

#[test]
fn tags_inside_a_void_element_are_left_out() {
    let mut dom = RcDom::default();
    let br = child(&mut dom, Handle(0), "br");
    let b = child(&mut dom, br, "b");
    text(&mut dom, b, "x");
    child(&mut dom, Handle(0), "i");
    assert_eq!(inner(&dom, Handle(0)), "<br>x<i></i>");
}

#[test]
fn void_elements_of_other_namespaces_have_an_end_tag() {
    let mut dom = RcDom::default();
    let svg = QualName::new(None, "http://www.w3.org/2000/svg".to_string(), "link".to_string());
    let odd = Attribute {
        name: QualName::new(None, "urn:odd".to_string(), "a".to_string()),
        value: "v".to_string(),
    };
    let xmlns = Attribute {
        name: QualName::new(
            Some("xmlns".to_string()),
            "http://www.w3.org/2000/xmlns/".to_string(),
            "b".to_string(),
        ),
        value: "w".to_string(),
    };
    let link = dom.create_element(svg, vec![odd, xmlns], PLAIN);
    dom.append(Handle(0), NodeOrText::AppendNode(link));
    assert_eq!(whole(&dom, link), "<link unknown_namespace:a=\"v\" xmlns:b=\"w\"></link>");
}

#[test]
fn text_of_a_script_in_another_namespace_is_escaped() {
    let mut dom = RcDom::default();
    let svg = QualName::new(None, "http://www.w3.org/2000/svg".to_string(), "script".to_string());
    let foreign = dom.create_element(svg, vec![], PLAIN);
    dom.append(Handle(0), NodeOrText::AppendNode(foreign));
    text(&mut dom, foreign, "1 < 2");
    let script = child(&mut dom, Handle(0), "script");
    text(&mut dom, script, "1 < 2");
    assert_eq!(inner(&dom, Handle(0)), "<script>1 &lt; 2</script><script>1 < 2</script>");
}

#[test]
fn a_copy_is_written_like_what_it_copies() {
    let mut dom = RcDom::default();
    let p = dom.create_element(name("p"), vec![attribute("id", "x")], PLAIN);
    dom.append(Handle(0), NodeOrText::AppendNode(p));
    text(&mut dom, p, "one ");
    let b = child(&mut dom, p, "b");
    text(&mut dom, b, "two");
    let count = dom.node_count();
    let copy = dom.clone_with_subtree(p);
    assert_eq!(dom.node_count(), count + 4);
    assert_ne!(copy, p);
    assert_eq!(whole(&dom, copy), "<p id=\"x\">one <b>two</b></p>");
    assert_eq!(whole(&dom, copy), whole(&dom, p));
    assert_eq!(dom.parent(copy), Some(Handle(0)));
}

#[test]
fn an_option_is_cloned_into_selectedcontent() {
    let mut dom = RcDom::default();
    let option = child(&mut dom, Handle(0), "option");
    text(&mut dom, option, "one");
    child(&mut dom, option, "b");
    let selectedcontent = child(&mut dom, Handle(0), "selectedcontent");
    text(&mut dom, selectedcontent, "old");
    let i = child(&mut dom, selectedcontent, "i");
    let u = child(&mut dom, i, "u");
    let s = child(&mut dom, u, "s");
    let old = children(&dom, selectedcontent)[0];
    dom.clone_an_option_into_selectedcontent(option, selectedcontent, &vec![option, u]);
    assert!(dom.nodes[old.0].dropped && dom.nodes[i.0].dropped && dom.nodes[s.0].dropped);
    assert!(!dom.nodes[u.0].dropped);
    assert!(children(&dom, i).is_empty() && children(&dom, u).is_empty());
    assert_eq!(inner(&dom, selectedcontent), "one<b></b>");
    assert_eq!(inner(&dom, option), "one<b></b>");
    assert_ne!(children(&dom, selectedcontent), children(&dom, option));
}

#[test]
fn the_nearest_select_of_an_option() {
    let mut dom = RcDom::default();
    let select = child(&mut dom, Handle(0), "select");
    let direct = child(&mut dom, select, "option");
    assert_eq!(dom.get_option_element_nearest_ancestor_select(direct), Some(select));
    let group = child(&mut dom, select, "optgroup");
    let grouped = child(&mut dom, group, "option");
    assert_eq!(dom.get_option_element_nearest_ancestor_select(grouped), Some(select));
    let nested = child(&mut dom, group, "optgroup");
    let twice = child(&mut dom, nested, "option");
    assert_eq!(dom.get_option_element_nearest_ancestor_select(twice), None);
    for shield in ["datalist", "hr", "option"] {
        let between = child(&mut dom, select, shield);
        let shielded = child(&mut dom, between, "option");
        assert_eq!(dom.get_option_element_nearest_ancestor_select(shielded), None);
    }
    let free = child(&mut dom, Handle(0), "option");
    assert_eq!(dom.get_option_element_nearest_ancestor_select(free), None);
    let loose = element(&mut dom, "option");
    assert_eq!(dom.get_option_element_nearest_ancestor_select(loose), None);
}

#[test]
fn a_select_has_no_enabled_selectedcontent() {
    let mut dom = RcDom::default();
    let select = child(&mut dom, Handle(0), "select");
    child(&mut dom, select, "selectedcontent");
    assert_eq!(dom.get_a_selects_enabled_selectedcontent(select), None);
    let odd = child(&mut dom, Handle(0), "selectedcontent");
    assert_eq!(dom.get_a_selects_enabled_selectedcontent(odd), None);
    let first = child(&mut dom, odd, "b");
    assert_eq!(dom.get_a_selects_enabled_selectedcontent(odd), Some(first));
    let more = vec![attribute("multiple", "")];
    dom.add_attrs_if_missing(odd, more);
    assert_eq!(dom.get_a_selects_enabled_selectedcontent(odd), None);
}

#[test]
fn a_selected_option_leaves_the_document_as_it_is() {
    let mut dom = RcDom::default();
    let select = child(&mut dom, Handle(0), "select");
    child(&mut dom, select, "selectedcontent");
    let option = dom.create_element(name("option"), vec![attribute("selected", "")], PLAIN);
    dom.append(select, NodeOrText::AppendNode(option));
    text(&mut dom, option, "one");
    let before = whole(&dom, select);
    let count = dom.node_count();
    dom.maybe_clone_an_option_into_selectedcontent(option);
    assert_eq!(whole(&dom, select), before);
    assert_eq!(dom.node_count(), count);
}

#[test]
fn the_shape_of_a_document_is_checked() {
    let mut dom = RcDom::default();
    let p = child(&mut dom, Handle(0), "p");
    let q = child(&mut dom, p, "q");
    assert!(dom.is_well_formed());
    assert!(dom.has_finite_depth());
    assert!(can_extract(&dom, q));
    assert!(!can_extract(&dom, Handle(3)));

    dom.nodes[q.0].children.push(p);
    assert!(!dom.has_finite_depth());
    assert!(!can_extract(&dom, q));
    dom.nodes[q.0].children.pop();

    dom.nodes[q.0].children.push(Handle(9));
    assert!(!dom.is_well_formed());
    assert!(!can_extract(&dom, q));
}

#[test]
fn a_document_node_is_in_the_way_only_where_it_would_be_written() {
    let mut dom = RcDom::default();
    let p = child(&mut dom, Handle(0), "p");
    let q = child(&mut dom, Handle(0), "q");
    let flags = ElementFlags { template: true, mathml_annotation_xml_integration_point: false };
    let template = dom.create_element(name("template"), vec![], flags);
    let document = dom.get_template_contents(template);
    dom.append(p, NodeOrText::AppendNode(document));
    let scope = TraversalScope::IncludeNode;
    assert!(!can_extract(&dom, p));
    assert!(!can_extract(&dom, Handle(0)));
    assert!(can_extract(&dom, q));
    assert!(!SerializableHandle::from(p).is_writable(&dom, scope));
    assert!(!SerializableHandle::from(document).is_writable(&dom, scope));
    assert!(can_extract(&dom, document));
    let comment = dom.create_comment("c".to_string());
    dom.append(q, NodeOrText::AppendNode(comment));
    dom.remove_from_parent(document);
    dom.append(comment, NodeOrText::AppendNode(document));
    assert!(can_extract(&dom, Handle(0)));
}

#[test]
fn dropping_a_node_takes_apart_what_hangs_under_it() {
    let mut dom = RcDom::default();
    let p = child(&mut dom, Handle(0), "p");
    let a = child(&mut dom, p, "a");
    let b = child(&mut dom, a, "b");
    let c = child(&mut dom, b, "c");
    let other = child(&mut dom, Handle(0), "i");
    let kept = child(&mut dom, other, "u");
    dom.remove_from_parent(p);
    dom.drop_node(p, &vec![b]);
    assert!(dom.nodes[p.0].dropped && dom.nodes[a.0].dropped && dom.nodes[c.0].dropped);
    assert!(!dom.nodes[b.0].dropped);
    for h in [p, a, b, c] {
        assert!(children(&dom, h).is_empty());
    }
    assert_eq!(dom.parent(b), Some(a));
    assert_eq!(dom.live_parent(b), None);
    assert_eq!(children(&dom, other), vec![kept]);
    assert_eq!(dom.live_parent(kept), Some(other));
    assert_eq!(inner(&dom, Handle(0)), "<i><u></u></i>");
}

#[test]
fn dropping_a_node_takes_its_template_contents_apart() {
    let mut dom = RcDom::default();
    let flags = ElementFlags { template: true, mathml_annotation_xml_integration_point: false };
    let first = dom.create_element(name("template"), vec![], flags);
    let second = dom.create_element(name("template"), vec![], flags);
    let div = element(&mut dom, "div");
    dom.append(div, NodeOrText::AppendNode(second));
    let in_first = dom.get_template_contents(first);
    let in_second = dom.get_template_contents(second);
    let x = child(&mut dom, in_first, "x");
    let y = child(&mut dom, in_second, "y");

    dom.drop_node(div, &vec![second]);
    assert!(dom.nodes[in_second.0].dropped && dom.nodes[y.0].dropped);
    assert!(children(&dom, in_second).is_empty());
    assert!(matches!(
        dom.nodes[second.0].data,
        NodeData::Element { template_contents: None, .. }
    ));

    dom.drop_node(first, &vec![in_first]);
    assert_eq!(children(&dom, in_first), vec![x]);
    assert!(!dom.nodes[in_first.0].dropped && !dom.nodes[x.0].dropped);
    dom.drop_node(in_first, &vec![]);
    assert!(dom.nodes[in_first.0].dropped && dom.nodes[x.0].dropped);
}

#[test]
fn a_replaced_child_that_is_held_is_not_taken_apart() {
    let mut dom = RcDom::default();
    let option = child(&mut dom, Handle(0), "option");
    let selectedcontent = child(&mut dom, Handle(0), "selectedcontent");
    let i = child(&mut dom, selectedcontent, "i");
    let u = child(&mut dom, i, "u");
    dom.clone_an_option_into_selectedcontent(option, selectedcontent, &vec![i]);
    assert!(children(&dom, selectedcontent).is_empty());
    assert!(!dom.nodes[i.0].dropped && !dom.nodes[u.0].dropped);
    assert_eq!(children(&dom, i), vec![u]);
}

#[test]
fn template_contents_that_a_copy_shares_are_kept() {
    let mut dom = RcDom::default();
    let flags = ElementFlags { template: true, mathml_annotation_xml_integration_point: false };
    let template = dom.create_element(name("template"), vec![], flags);
    let contents = dom.get_template_contents(template);
    let p = child(&mut dom, contents, "p");
    let copy = dom.clone_with_subtree(template);
    dom.drop_node(template, &vec![]);
    assert!(dom.nodes[template.0].dropped);
    assert!(!dom.nodes[contents.0].dropped);
    assert_eq!(dom.get_template_contents(copy), contents);
    assert_eq!(children(&dom, contents), vec![p]);
    dom.drop_unheld(&vec![copy, contents], &vec![copy]);
    assert!(!dom.nodes[copy.0].dropped && !dom.nodes[contents.0].dropped);
    dom.drop_unheld(&vec![copy], &vec![]);
    assert!(dom.nodes[copy.0].dropped && dom.nodes[contents.0].dropped && dom.nodes[p.0].dropped);
}

#[test]
fn a_dropped_parent_ends_the_way_up() {
    let mut dom = RcDom::default();
    let select = element(&mut dom, "select");
    let group = child(&mut dom, select, "optgroup");
    let option = child(&mut dom, group, "option");
    assert_eq!(dom.get_option_element_nearest_ancestor_select(option), Some(select));
    dom.drop_node(select, &vec![group, option]);
    assert_eq!(dom.get_option_element_nearest_ancestor_select(option), None);
}

#[test]
fn the_way_up_is_checked() {
    let mut dom = RcDom::default();
    let p = child(&mut dom, Handle(0), "p");
    let q = child(&mut dom, p, "q");
    assert!(dom.way_up_ends(q));
    dom.nodes[p.0].parent = Some(q);
    assert!(!dom.way_up_ends(q));
}

fn told(calls: &Vec<SerializerCall>) -> Vec<String> {
    calls
        .iter()
        .map(|c| match c {
            SerializerCall::StartElem { name, attrs } => {
                format!("start {} {}", name.local, attrs.len())
            }
            SerializerCall::EndElem { name } => format!("end {}", name.local),
            SerializerCall::WriteText { text } => format!("text {}", text),
            SerializerCall::WriteComment { text } => format!("comment {}", text),
            SerializerCall::WriteDoctype { name } => format!("doctype {}", name),
            SerializerCall::WriteProcessingInstruction { target, data } => {
                format!("pi {} {}", target, data)
            }
        })
        .collect()
}

fn sample() -> (RcDom, Handle) {
    let mut dom = RcDom::default();
    let p = dom.create_element(name("p"), vec![attribute("id", "x")], PLAIN);
    dom.append(Handle(0), NodeOrText::AppendNode(p));
    text(&mut dom, p, "one");
    let br = child(&mut dom, p, "br");
    let comment = dom.create_comment("two".to_string());
    dom.append(br, NodeOrText::AppendNode(comment));
    let pi = dom.create_pi("t".to_string(), "d".to_string());
    dom.append(p, NodeOrText::AppendNode(pi));
    (dom, p)
}

#[test]
fn a_node_is_written_by_calls_in_document_order() {
    let (dom, p) = sample();
    let node = SerializableHandle::from(p);
    let inside = vec!["text one", "start br 0", "comment two", "end br", "pi t d"];
    assert_eq!(told(&node.calls(&dom, TraversalScope::ChildrenOnly)), inside);
    let mut all = vec!["start p 1"];
    all.extend(inside);
    all.push("end p");
    assert_eq!(told(&node.calls(&dom, TraversalScope::IncludeNode)), all);
}

#[test]
fn the_first_error_ends_the_calls() {
    let (dom, p) = sample();
    let calls = SerializableHandle::from(p).calls(&dom, TraversalScope::IncludeNode);
    let run = |failing: usize| {
        let mut made = 0;
        let mut reply: Result<(), usize> = Ok(());
        loop {
            match next_call(&calls, made, reply) {
                Replay::Call(i) => {
                    assert_eq!(i, made);
                    reply = if i == failing { Err(i) } else { Ok(()) };
                    made += 1;
                }
                Replay::Done(outcome) => return (made, outcome),
            }
        }
    };
    assert_eq!(run(0), (1, Err(0)));
    assert_eq!(run(3), (4, Err(3)));
    assert_eq!(run(6), (7, Err(6)));
    assert_eq!(run(7), (7, Ok(())));
}

#[test]
fn a_writer_takes_one_node_after_the_other() {
    let (dom, p) = sample();
    let node = SerializableHandle::from(p);
    let mut writer = HtmlWriter::in_memory();
    node.serialize(&dom, &mut writer, TraversalScope::ChildrenOnly);
    node.serialize(&dom, &mut writer, TraversalScope::IncludeNode);
    assert_eq!(
        String::from_utf8(writer.finish()).unwrap(),
        "one<br><!--two--><?t d><p id=\"x\">one<br><!--two--><?t d></p>"
    );
}

#[test]
fn setting_one_attribute_leaves_the_others() {
    let mut dom = RcDom::default();
    let attrs = vec![attribute("id", "x"), attribute("class", "y"), attribute("id", "z")];
    let p = dom.create_element(name("p"), attrs, PLAIN);
    dom::set_attr("id", "new", &mut dom, p);
    assert_eq!(dom::get_attr("id", &dom, p), Some("new".to_string()));
    assert_eq!(dom::get_attr("class", &dom, p), Some("y".to_string()));
    assert_eq!(whole(&dom, p), "<p id=\"new\" class=\"y\" id=\"z\"></p>");
    let document = dom.document;
    dom::set_attr("id", "new", &mut dom, document);
    assert_eq!(dom::get_attr("id", &dom, document), None);
}

#[test]
fn cleaning_one_attribute_leaves_the_others() {
    let mut attrs = vec![attribute("id", "x"), attribute("class", "y")];
    dom::clean_attr("id", &mut attrs);
    assert_eq!(dom::attr("id", &attrs), None);
    assert_eq!(dom::attr("class", &attrs), Some("y".to_string()));
}
