use html5ever::tendril::{StrTendril, TendrilSink};
use html5ever::{parse_document, LocalName, Namespace};
use llm_readability::calls::{SerializableHandle, TraversalScope};
use llm_readability::dom;
use llm_readability::extractor;
use llm_readability::html;
use llm_readability::interface::{
    Attribute, ElementFlags, Handle, NodeOrText, QualName, QuirksMode,
};
use llm_readability::rcdom::{NodeData, RcDom};
use llm_readability::scorer;
use markup5ever::interface::tree_builder;
use markup5ever::interface::{ElemName, TreeSink};
use std::borrow::Cow;
use std::cell::RefCell;

#[derive(Debug)]
struct Name {
    ns: Namespace,
    local: LocalName,
}

impl ElemName for Name {
    fn ns(&self) -> &Namespace {
        &self.ns
    }

    fn local_name(&self) -> &LocalName {
        &self.local
    }
}

fn own_name(name: &html5ever::QualName) -> QualName {
    QualName::new(
        name.prefix.as_ref().map(|p| p.to_string()),
        name.ns.to_string(),
        name.local.to_string(),
    )
}

fn own_attrs(attrs: Vec<html5ever::Attribute>) -> Vec<Attribute> {
    attrs
        .iter()
        .map(|a| Attribute { name: own_name(&a.name), value: a.value.to_string() })
        .collect()
}

fn own_child(child: tree_builder::NodeOrText<Handle>) -> NodeOrText {
    match child {
        tree_builder::NodeOrText::AppendNode(node) => NodeOrText::AppendNode(node),
        tree_builder::NodeOrText::AppendText(text) => NodeOrText::AppendText(text.to_string()),
    }
}

struct Sink(RefCell<RcDom>);

impl TreeSink for Sink {
    type Handle = Handle;
    type Output = RcDom;
    type ElemName<'a> = Name;

    fn finish(self) -> RcDom {
        self.0.into_inner().finish()
    }

    fn parse_error(&self, msg: Cow<'static, str>) {
        self.0.borrow_mut().parse_error(msg.into_owned());
    }

    fn get_document(&self) -> Handle {
        self.0.borrow().get_document()
    }

    fn elem_name<'a>(&'a self, target: &'a Handle) -> Name {
        let dom = self.0.borrow();
        let name = dom.elem_name(*target);
        Name {
            ns: Namespace::from(name.ns.as_str()),
            local: LocalName::from(name.local.as_str()),
        }
    }

    fn create_element(
        &self,
        name: html5ever::QualName,
        attrs: Vec<html5ever::Attribute>,
        flags: tree_builder::ElementFlags,
    ) -> Handle {
        let flags = ElementFlags {
            template: flags.template,
            mathml_annotation_xml_integration_point: flags.mathml_annotation_xml_integration_point,
        };
        self.0.borrow_mut().create_element(own_name(&name), own_attrs(attrs), flags)
    }

    fn create_comment(&self, text: StrTendril) -> Handle {
        self.0.borrow_mut().create_comment(text.to_string())
    }

    fn create_pi(&self, target: StrTendril, data: StrTendril) -> Handle {
        self.0.borrow_mut().create_pi(target.to_string(), data.to_string())
    }

    fn append(&self, parent: &Handle, child: tree_builder::NodeOrText<Handle>) {
        self.0.borrow_mut().append(*parent, own_child(child));
    }

    fn append_based_on_parent_node(
        &self,
        element: &Handle,
        prev_element: &Handle,
        child: tree_builder::NodeOrText<Handle>,
    ) {
        self.0.borrow_mut().append_based_on_parent_node(*element, *prev_element, own_child(child));
    }

    fn append_doctype_to_document(
        &self,
        name: StrTendril,
        public_id: StrTendril,
        system_id: StrTendril,
    ) {
        self.0.borrow_mut().append_doctype_to_document(
            name.to_string(),
            public_id.to_string(),
            system_id.to_string(),
        );
    }

    fn get_template_contents(&self, target: &Handle) -> Handle {
        self.0.borrow().get_template_contents(*target)
    }

    fn same_node(&self, x: &Handle, y: &Handle) -> bool {
        self.0.borrow().same_node(*x, *y)
    }

    fn set_quirks_mode(&self, mode: tree_builder::QuirksMode) {
        self.0.borrow_mut().set_quirks_mode(match mode {
            tree_builder::QuirksMode::Quirks => QuirksMode::Quirks,
            tree_builder::QuirksMode::LimitedQuirks => QuirksMode::LimitedQuirks,
            tree_builder::QuirksMode::NoQuirks => QuirksMode::NoQuirks,
        });
    }

    fn append_before_sibling(&self, sibling: &Handle, child: tree_builder::NodeOrText<Handle>) {
        self.0.borrow_mut().append_before_sibling(*sibling, own_child(child));
    }

    fn add_attrs_if_missing(&self, target: &Handle, attrs: Vec<html5ever::Attribute>) {
        self.0.borrow_mut().add_attrs_if_missing(*target, own_attrs(attrs));
    }

    fn remove_from_parent(&self, target: &Handle) {
        self.0.borrow_mut().remove_from_parent(*target);
    }

    fn reparent_children(&self, node: &Handle, new_parent: &Handle) {
        self.0.borrow_mut().reparent_children(*node, *new_parent);
    }

    fn is_mathml_annotation_xml_integration_point(&self, target: &Handle) -> bool {
        self.0.borrow().is_mathml_annotation_xml_integration_point(*target)
    }

    fn maybe_clone_an_option_into_selectedcontent(&self, option: &Handle) {
        self.0.borrow_mut().maybe_clone_an_option_into_selectedcontent(*option);
    }
}

fn parse_html(html: &str) -> RcDom {
    parse_document(Sink(RefCell::new(RcDom::default())), Default::default())
        .from_utf8()
        .read_from(&mut html.as_bytes())
        .unwrap()
}

fn find_element(dom: &RcDom, handle: Handle, tag: &str) -> Option<Handle> {
    if let Some(name) = dom::get_tag_name(dom, handle) {
        if name == tag {
            return Some(handle);
        }
    }
    for child in dom.nodes[handle.0].children.iter() {
        if let Some(found) = find_element(dom, *child, tag) {
            return Some(found);
        }
    }
    None
}

#[test]
fn test_get_tag_name() {
    let dom = parse_html("<html><body><div>test</div></body></html>");
    let div = find_element(&dom, dom.document, "div").unwrap();
    assert_eq!(dom::get_tag_name(&dom, div), Some("div".to_string()));
}

#[test]
fn test_get_attr() {
    let dom =
        parse_html(r#"<html><body><div id="main" class="container">test</div></body></html>"#);
    let div = find_element(&dom, dom.document, "div").unwrap();
    assert_eq!(dom::get_attr("id", &dom, div), Some("main".to_string()));
    assert_eq!(dom::get_attr("class", &dom, div), Some("container".to_string()));
    assert_eq!(dom::get_attr("nonexistent", &dom, div), None);
}

#[test]
fn test_set_attr() {
    let mut dom = parse_html(r#"<html><body><div id="test">Content</div></body></html>"#);
    let div = find_element(&dom, dom.document, "div").unwrap();

    dom::set_attr("id", "new-id", &mut dom, div);
    let id = dom::get_attr("id", &dom, div).unwrap();
    assert_eq!(id, "new-id");
}

#[test]
fn test_set_attr_nonexistent() {
    let mut dom = parse_html(r#"<html><body><div>Content</div></body></html>"#);
    let div = find_element(&dom, dom.document, "div").unwrap();

    dom::set_attr("id", "new-id", &mut dom, div);
    let id = dom::get_attr("id", &dom, div);
    assert!(id.is_none());
}

#[test]
fn test_clean_attr() {
    let mut dom = parse_html(r#"<html><body><div class="test-class">Content</div></body></html>"#);
    let div = find_element(&dom, dom.document, "div").unwrap();

    match &mut dom.nodes[div.0].data {
        NodeData::Element { attrs, .. } => {
            assert!(dom::attr("class", attrs).is_some());
            dom::clean_attr("class", attrs);
            assert!(dom::attr("class", attrs).is_none());
        }
        _ => panic!("a div is an element"),
    }
}

#[test]
fn test_clean_attr_nonexistent() {
    let mut dom = parse_html(r#"<html><body><div id="test-id">Content</div></body></html>"#);
    let div = find_element(&dom, dom.document, "div").unwrap();

    match &mut dom.nodes[div.0].data {
        NodeData::Element { attrs, .. } => {
            let initial_len = attrs.len();
            dom::clean_attr("class", attrs);
            assert_eq!(attrs.len(), initial_len);
        }
        _ => panic!("a div is an element"),
    }
}

#[test]
fn test_attr_function() {
    let dom =
        parse_html(r#"<html><body><div id="my-id" class="my-class">Content</div></body></html>"#);
    let div = find_element(&dom, dom.document, "div").unwrap();

    match &dom.nodes[div.0].data {
        NodeData::Element { attrs, .. } => {
            assert_eq!(dom::attr("id", attrs), Some("my-id".to_string()));
            assert_eq!(dom::attr("class", attrs), Some("my-class".to_string()));
            assert_eq!(dom::attr("style", attrs), None);
        }
        _ => panic!("a div is an element"),
    }
}

#[test]
fn test_get_tag_name_text_node() {
    let dom = parse_html("<html><body>Text content</body></html>");
    let body = find_element(&dom, dom.document, "body").unwrap();
    for child in dom.nodes[body.0].children.iter() {
        let tag_name = dom::get_tag_name(&dom, *child);
        assert!(tag_name.is_none());
    }
}

#[test]
fn test_fix_img_path() {
    let mut dom = parse_html(r#"<html><body><img src="/images/test.jpg"></body></html>"#);
    let img = find_element(&dom, dom.document, "img").unwrap();
    let url = url::Url::parse("https://example.com/article").unwrap();

    let result = scorer::fix_img_path(&mut dom, img, url.as_str());
    assert!(result);

    let src = dom::get_attr("src", &dom, img).unwrap();
    assert_eq!(src, "https://example.com/images/test.jpg");
}

#[test]
fn test_fix_anchor_path() {
    let mut dom = parse_html(r#"<html><body><a href="/other-page">Link</a></body></html>"#);
    let a = find_element(&dom, dom.document, "a").unwrap();
    let url = url::Url::parse("https://example.com/article").unwrap();

    let result = scorer::fix_anchor_path(&mut dom, a, url.as_str());
    assert!(result);

    let href = dom::get_attr("href", &dom, a).unwrap();
    assert_eq!(href, "https://example.com/other-page");
}

#[test]
fn test_fix_img_path_absolute_url() {
    let mut dom =
        parse_html(r#"<html><body><img src="https://other.com/image.jpg"></body></html>"#);
    let img = find_element(&dom, dom.document, "img").unwrap();
    let url = url::Url::parse("https://example.com/article").unwrap();

    let result = scorer::fix_img_path(&mut dom, img, url.as_str());
    assert!(result);

    let src = dom::get_attr("src", &dom, img).unwrap();
    assert_eq!(src, "https://other.com/image.jpg");
}

#[test]
fn test_fix_img_path_no_src() {
    let mut dom = parse_html(r#"<html><body><img alt="no src"></body></html>"#);
    let img = find_element(&dom, dom.document, "img").unwrap();
    let url = url::Url::parse("https://example.com/article").unwrap();

    let result = scorer::fix_img_path(&mut dom, img, url.as_str());
    assert!(!result);
}

#[test]
fn test_fix_anchor_path_absolute_url() {
    let mut dom =
        parse_html(r#"<html><body><a href="https://other.com/page">Link</a></body></html>"#);
    let a = find_element(&dom, dom.document, "a").unwrap();
    let url = url::Url::parse("https://example.com/article").unwrap();

    let result = scorer::fix_anchor_path(&mut dom, a, url.as_str());
    assert!(result);

    let href = dom::get_attr("href", &dom, a).unwrap();
    assert_eq!(href, "https://other.com/page");
}

#[test]
fn test_fix_anchor_path_no_href() {
    let mut dom = parse_html(r#"<html><body><a name="anchor">Anchor</a></body></html>"#);
    let a = find_element(&dom, dom.document, "a").unwrap();
    let url = url::Url::parse("https://example.com/article").unwrap();

    let result = scorer::fix_anchor_path(&mut dom, a, url.as_str());
    assert!(!result);
}

#[test]
fn a_link_that_cannot_be_resolved_stays() {
    let mut dom = parse_html(r#"<a href="/other-page">Link</a>"#);
    let a = find_element(&dom, dom.document, "a").unwrap();
    assert!(scorer::fix_anchor_path(&mut dom, a, "no address"));
    assert_eq!(dom::get_attr("href", &dom, a), Some("/other-page".to_string()));
}

fn written(page: &str) -> String {
    let dom = parse_html(page);
    assert!(extractor::can_extract(&dom, dom.document));
    let node = SerializableHandle::from(dom.document);
    String::from_utf8(html::serialize(&dom, &node, TraversalScope::ChildrenOnly)).unwrap()
}

#[test]
fn a_document_is_written_as_it_was_read() {
    let page = "<!DOCTYPE html><html lang=\"en\"><head><title>T</title></head>\
                <body><!--note--><p class=\"a b\">one<br>two</p></body></html>";
    assert_eq!(written(page), page);
}

#[test]
fn text_and_attributes_are_escaped() {
    assert_eq!(
        written("<p title='&quot;&lt;&amp;'>a &lt; b &gt; c &amp; d&nbsp;\"e\"</p>"),
        "<html><head></head><body><p title=\"&quot;&lt;&amp;\">a &lt; b &gt; c &amp; d&nbsp;\"e\"</p></body></html>"
    );
}

#[test]
fn scripts_and_styles_are_not_escaped() {
    assert_eq!(
        written("<head><style>a > b</style><script>1 < 2 && 3</script>"),
        "<html><head><style>a > b</style><script>1 < 2 && 3</script></head><body></body></html>"
    );
}

#[test]
fn attributes_of_other_namespaces_keep_their_prefix() {
    assert_eq!(
        written("<svg xmlns='http://www.w3.org/2000/svg' xlink:href='#a' xml:lang='en'><path></path></svg>"),
        "<html><head></head><body><svg xmlns=\"http://www.w3.org/2000/svg\" xlink:href=\"#a\" xml:lang=\"en\"><path></path></svg></body></html>"
    );
}

#[test]
fn misnested_formatting_is_rebuilt() {
    assert_eq!(
        written("<p>1<b>2<i>3</b>4</i>5</p>"),
        "<html><head></head><body><p>1<b>2<i>3</i></b><i>4</i>5</p></body></html>"
    );
}

#[test]
fn text_in_a_table_goes_before_it() {
    assert_eq!(
        written("<body>a<table>b<tr><td>c</td></tr>d</table>"),
        "<html><head></head><body>abd<table><tbody><tr><td>c</td></tr></tbody></table></body></html>"
    );
}

#[test]
fn attributes_of_a_second_body_tag_are_added() {
    assert_eq!(
        written("<body class=\"a\"><body class=\"b\" id=\"c\">x"),
        "<html><head></head><body class=\"a\" id=\"c\">x</body></html>"
    );
}

#[test]
fn a_template_has_contents_of_its_own() {
    let dom = parse_html("<body><template><p>inside</p></template></body>");
    let template = find_element(&dom, dom.document, "template").unwrap();
    assert!(dom.nodes[template.0].children.is_empty());
    let contents = dom.get_template_contents(template);
    assert!(find_element(&dom, contents, "p").is_some());
    assert!(find_element(&dom, dom.document, "p").is_none());
}

#[test]
fn a_select_clones_no_option() {
    let page = "<body><select><button><selectedcontent></selectedcontent></button>\
                <option selected=\"\">one</option></select>";
    let dom = parse_html(page);
    if let Some(selectedcontent) = find_element(&dom, dom.document, "selectedcontent") {
        assert!(dom.nodes[selectedcontent.0].children.is_empty());
    }
}

#[test]
fn a_page_without_doctype_is_in_quirks_mode() {
    assert_eq!(parse_html("<p>x").quirks_mode, QuirksMode::Quirks);
    assert_eq!(parse_html("<!DOCTYPE html><p>x").quirks_mode, QuirksMode::NoQuirks);
    assert!(!parse_html("<p>x").errors.is_empty());
}

#[test]
fn a_parsed_document_becomes_a_reader_page() {
    let dom = parse_html("<html><body><article><p>One &amp; two</p></article></body></html>");
    let article = find_element(&dom, dom.document, "article").unwrap();
    assert!(extractor::can_extract(&dom, article));
    let product = extractor::process_dom(
        &dom,
        article,
        "One & two".to_string(),
        "Title",
        "en",
        "https://example.com/",
    )
    .unwrap();
    assert_eq!(product.text, "One & two");
    assert!(product.content.starts_with("<html class=\"paper\" lang=\"en\"><head>\n"));
    assert!(product.content.contains("<base href=\"https://example.com/\">\n<title>Title</title>\n"));
    assert!(product.content.ends_with("</head><body>\n<p>One &amp; two</p></body></html>"));
}

#[test]
fn japanese_content_is_kept() {
    let dom = parse_html("<body><p>これは日本語の記事の本文です。</p></body>");
    let body = find_element(&dom, dom.document, "body").unwrap();
    let product =
        extractor::process_dom(&dom, body, String::new(), "", "", "https://example.jp/").unwrap();
    assert!(product.content.contains("<p>これは日本語の記事の本文です。</p>"));
}

#[test]
fn a_declared_encoding_is_used() {
    let dom = parse_html("<body><div><meta charset=\"windows-1252\"><p>é</p></div></body>");
    let div = find_element(&dom, dom.document, "div").unwrap();
    let product =
        extractor::process_dom(&dom, div, String::new(), "", "", "https://example.com/").unwrap();
    assert!(product.content.contains("<meta charset=\"windows-1252\"><p>\u{c3}\u{a9}</p>"));
}

#[test]
fn an_empty_node_gives_an_empty_page() {
    let dom = parse_html("<body><div></div></body>");
    let div = find_element(&dom, dom.document, "div").unwrap();
    let product =
        extractor::process_dom(&dom, div, String::new(), "", "", "https://example.com/").unwrap();
    assert!(product.content.ends_with("</head><body>\n</body></html>"));
}
