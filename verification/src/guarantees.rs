//! What the operations of the library are for, said of what goes in and what comes out.

use crate::calls::{all_writable, trace, writable, CallView, TraversalScope};
use crate::dom::{
    attribute_value, lemma_attribute_index, node_attributes, with_attribute_value,
    with_node_attributes, without_attribute,
};
use crate::extractor::{
    content_bytes, page_html, picked, Feed, FeedAction, ReadAction, ReadProgress,
};
use crate::html::{
    end_tag, escaped, forest_html, fragment, is_html_namespace, is_raw_text_element,
    is_void_element, opened, start_tag, tree_html, OpenElement,
};
use crate::interface::{has_attribute, has_qualified_attribute, AttributeView, Handle, NodeOrText};
use crate::lemmas::lemma_position;
use crate::model::{
    detached, forest_size, missing_attributes, tree_size, DataView, DomView,
};
use crate::scorer::{
    at_most, begins_with, is_local, is_nan, is_top, leads_from, rank, scores, with_resolved_link,
    wins, Candidate, Score,
};
use vstd::prelude::*;
use vstd::utf8::encode_utf8;

verus! {

// ---- the reader page ----

/// The text of a reader page: the start tag with the language, if there is one; the head with the
/// base address and the title, if there is one; the content; the end.
pub proof fn law_page_text(lang: Seq<char>, title: Seq<char>, url: Seq<char>, content: Seq<char>)
    ensures
        ({
            let head = "><head>\n<meta name=\"disabled-adaptations\" content=\"watch\">\n<meta http-equiv=\"Content-Type\" content=\"text/html; charset=utf-8\">\n<meta name=\"viewport\" content=\"initial-scale=1\">\n<base href=\""@;
            let rest = "\n<script>window.isReaderPage = true;</script>\n</head><body>\n"@;
            let end = "</body></html>"@;
            let page = page_html(lang, title, url, content);
            &&& lang.len() == 0 && title.len() == 0 ==> page == "<html class=\"paper\""@ + head + url
                + "\">\n"@ + rest + content + end
            &&& lang.len() > 0 && title.len() == 0 ==> page == "<html class=\"paper\""@
                + " lang=\""@ + lang + "\""@ + head + url + "\">\n"@ + rest + content + end
            &&& lang.len() == 0 && title.len() > 0 ==> page == "<html class=\"paper\""@ + head + url
                + "\">\n"@ + "<title>"@ + title + "</title>"@ + rest + content + end
            &&& lang.len() > 0 && title.len() > 0 ==> page == "<html class=\"paper\""@ + " lang=\""@
                + lang + "\""@ + head + url + "\">\n"@ + "<title>"@ + title + "</title>"@ + rest
                + content + end
        }),
{
    reveal_strlit("");
    let head = "><head>\n<meta name=\"disabled-adaptations\" content=\"watch\">\n<meta http-equiv=\"Content-Type\" content=\"text/html; charset=utf-8\">\n<meta name=\"viewport\" content=\"initial-scale=1\">\n<base href=\""@;
    let rest = "\n<script>window.isReaderPage = true;</script>\n</head><body>\n"@;
    let end = "</body></html>"@;
    let page = page_html(lang, title, url, content);
    let start = "<html class=\"paper\""@;
    if lang.len() == 0 && title.len() == 0 {
        assert(page =~= start + head + url + "\">\n"@ + rest + content + end);
    } else if lang.len() > 0 && title.len() == 0 {
        assert(page =~= start + " lang=\""@ + lang + "\""@ + head + url + "\">\n"@ + rest + content
            + end);
    } else if lang.len() == 0 {
        assert(page =~= start + head + url + "\">\n"@ + "<title>"@ + title + "</title>"@ + rest
            + content + end);
    } else {
        assert(page =~= start + " lang=\""@ + lang + "\""@ + head + url + "\">\n"@ + "<title>"@
            + title + "</title>"@ + rest + content + end);
    }
}

/// How long the language attribute of a page is.
pub open spec fn lang_len(lang: Seq<char>) -> int {
    if lang.len() == 0 {
        0
    } else {
        lang.len() as int + 8
    }
}

/// The language stands in the start tag and nowhere else: what comes after it is the same in every
/// language.
pub proof fn law_language_is_in_the_start_tag(
    lang: Seq<char>,
    other: Seq<char>,
    title: Seq<char>,
    url: Seq<char>,
    content: Seq<char>,
)
    ensures
        page_html(lang, title, url, content).skip(19 + lang_len(lang)) == page_html(
            other,
            title,
            url,
            content,
        ).skip(19 + lang_len(other)),
        page_html(lang, title, url, content).take(19) == "<html class=\"paper\""@,
        lang.len() > 0 ==> page_html(lang, title, url, content).subrange(19, 19 + lang_len(lang))
            == " lang=\""@ + lang + "\""@,
{
    reveal_strlit("");
    reveal_strlit("<html class=\"paper\"");
    reveal_strlit(" lang=\"");
    reveal_strlit("\"");
    let a = page_html(lang, title, url, content);
    let b = page_html(other, title, url, content);
    assert("<html class=\"paper\""@.len() == 19);
    assert(a.skip(19 + lang_len(lang)) =~= b.skip(19 + lang_len(other)));
    assert(a.take(19) =~= "<html class=\"paper\""@);
    if lang.len() > 0 {
        assert(a.subrange(19, 19 + lang_len(lang)) =~= " lang=\""@ + lang + "\""@);
    }
}

/// A title stands in the head, right after the base address, whatever the language is.
pub proof fn law_title_follows_the_base_address(
    lang: Seq<char>,
    title: Seq<char>,
    url: Seq<char>,
    content: Seq<char>,
)
    requires
        title.len() > 0,
    ensures
        exists|before: Seq<char>, after: Seq<char>| #[trigger]
            (before + ("<base href=\""@ + url + "\">\n<title>"@ + title
                + "</title>\n<script>window.isReaderPage = true;</script>\n</head><body>\n"@)
                + after) == page_html(lang, title, url, content),
{
    reveal_strlit("");
    reveal_strlit("<base href=\"");
    reveal_strlit("\">\n");
    reveal_strlit("<title>");
    reveal_strlit("\">\n<title>");
    reveal_strlit("</title>");
    reveal_strlit("\n<script>window.isReaderPage = true;</script>\n</head><body>\n");
    reveal_strlit("</title>\n<script>window.isReaderPage = true;</script>\n</head><body>\n");
    reveal_strlit("><head>\n<meta name=\"disabled-adaptations\" content=\"watch\">\n<meta http-equiv=\"Content-Type\" content=\"text/html; charset=utf-8\">\n<meta name=\"viewport\" content=\"initial-scale=1\">\n<base href=\"");
    let head = "><head>\n<meta name=\"disabled-adaptations\" content=\"watch\">\n<meta http-equiv=\"Content-Type\" content=\"text/html; charset=utf-8\">\n<meta name=\"viewport\" content=\"initial-scale=1\">\n<base href=\""@;
    let page = page_html(lang, title, url, content);
    let start = "<html class=\"paper\""@ + crate::extractor::lang_html(lang);
    let before = start + head.take(head.len() - 12);
    let after = content + "</body></html>"@;
    assert(head =~= head.take(head.len() - 12) + "<base href=\""@);
    assert("\">\n<title>"@ =~= "\">\n"@ + "<title>"@);
    assert("</title>\n<script>window.isReaderPage = true;</script>\n</head><body>\n"@
        =~= "</title>"@ + "\n<script>window.isReaderPage = true;</script>\n</head><body>\n"@);
    let middle = "<base href=\""@ + url + "\">\n<title>"@ + title
        + "</title>\n<script>window.isReaderPage = true;</script>\n</head><body>\n"@;
    assert(before + middle + after =~= page);
}

/// The content is the body: a page is the page without content, with the content before the last
/// two end tags.
pub proof fn law_content_is_the_body(
    lang: Seq<char>,
    title: Seq<char>,
    url: Seq<char>,
    content: Seq<char>,
)
    ensures
        ({
            let empty = page_html(lang, title, url, Seq::empty());
            &&& empty.len() >= 14
            &&& empty.skip(empty.len() - 14) == "</body></html>"@
            &&& page_html(lang, title, url, content) == empty.take(empty.len() - 14) + content
                + "</body></html>"@
        }),
{
    reveal_strlit("</body></html>");
    let empty = page_html(lang, title, url, Seq::empty());
    let end = "</body></html>"@;
    assert(end.len() == 14);
    assert(empty.skip(empty.len() - 14) =~= end);
    assert(page_html(lang, title, url, content) =~= empty.take(empty.len() - 14) + content + end);
}

// ---- what is written ----

/// Trees one after the other are written one after the other.
proof fn lemma_forest_pieces(d: DomView, hs: Seq<Handle>, outer: OpenElement)
    ensures
        forest_html(d.forest(hs), outer) == Seq::new(
            hs.len(),
            |i: int| fragment(d, hs[i], TraversalScope::IncludeNode, outer),
        ).flatten(),
    decreases hs.len(),
{
    let pieces = Seq::new(
        hs.len(),
        |i: int| fragment(d, hs[i], TraversalScope::IncludeNode, outer),
    );
    if hs.len() > 0 {
        let tail = hs.drop_first();
        lemma_forest_pieces(d, tail, outer);
        lemma_one_node(d, hs.first(), outer);
        assert(d.forest(hs).first() == d.tree(hs.first()));
        assert(d.forest(hs).drop_first() =~= d.forest(tail));
        assert(pieces.drop_first() =~= Seq::new(
            tail.len(),
            |i: int| fragment(d, tail[i], TraversalScope::IncludeNode, outer),
        ));
    }
}

/// A node is written as its tree.
proof fn lemma_one_node(d: DomView, h: Handle, outer: OpenElement)
    ensures
        fragment(d, h, TraversalScope::IncludeNode, outer) == tree_html(d.tree(h), outer),
{
    let forest = d.forest(seq![h]);
    reveal_with_fuel(forest_html, 2);
    assert(forest.first() == d.tree(h));
    assert(forest.drop_first() =~= Seq::empty());
    assert(tree_html(d.tree(h), outer) + Seq::<char>::empty() =~= tree_html(d.tree(h), outer));
}

/// What hangs under a node is written child by child: every child, in their order, none left out.
pub proof fn law_children_are_written_in_order(d: DomView, h: Handle, outer: OpenElement)
    ensures
        fragment(d, h, TraversalScope::ChildrenOnly, outer) == Seq::new(
            d.children(h).len(),
            |i: int| fragment(d, d.children(h)[i], TraversalScope::IncludeNode, outer),
        ).flatten(),
{
    lemma_forest_pieces(d, d.children(h), outer);
}

/// What each kind of node is written as. An element is its start tag with all its attributes, its
/// children one after the other, and its end tag.
pub proof fn law_node_is_written(d: DomView, h: Handle, outer: OpenElement)
    requires
        d.wf(),
        d.finite_depth(),
        d.valid(h),
    ensures
        match d.data(h) {
            DataView::Element { name, attrs, .. } => {
                let inside = Seq::new(
                    d.children(h).len(),
                    |i: int|
                        fragment(
                            d,
                            d.children(h)[i],
                            TraversalScope::IncludeNode,
                            opened(outer, name),
                        ),
                ).flatten();
                let void = is_html_namespace(name.ns) && is_void_element(name.local);
                &&& outer.1 ==> fragment(d, h, TraversalScope::IncludeNode, outer) == inside
                &&& !outer.1 && void ==> fragment(d, h, TraversalScope::IncludeNode, outer)
                    == start_tag(name, attrs) + inside
                &&& !outer.1 && !void ==> fragment(d, h, TraversalScope::IncludeNode, outer)
                    == start_tag(name, attrs) + inside + end_tag(name)
            },
            DataView::Text { contents } => {
                &&& outer.0 is None ==> fragment(d, h, TraversalScope::IncludeNode, outer)
                    == escaped(contents, false)
                &&& outer.0 matches Some(local) ==> (is_raw_text_element(local) ==> fragment(
                    d,
                    h,
                    TraversalScope::IncludeNode,
                    outer,
                ) == contents)
                &&& outer.0 matches Some(local) ==> (!is_raw_text_element(local) ==> fragment(
                    d,
                    h,
                    TraversalScope::IncludeNode,
                    outer,
                ) == escaped(contents, false))
            },
            DataView::Comment { contents } => fragment(d, h, TraversalScope::IncludeNode, outer)
                == "<!--"@ + contents + "-->"@,
            DataView::Doctype { name, .. } => fragment(d, h, TraversalScope::IncludeNode, outer)
                == "<!DOCTYPE "@ + name + ">"@,
            DataView::ProcessingInstruction { target, contents } => fragment(
                d,
                h,
                TraversalScope::IncludeNode,
                outer,
            ) == "<?"@ + target + " "@ + contents + ">"@,
            DataView::Document => true,
        },
{
    lemma_one_node(d, h, outer);
    if let DataView::Element { name, attrs, .. } = d.data(h) {
        assert(d.tree(h).children =~= d.forest(d.children(h)));
        lemma_forest_pieces(d, d.children(h), opened(outer, name));
        let inside = forest_html(d.tree(h).children, opened(outer, name));
        assert(Seq::<char>::empty() + inside + Seq::<char>::empty() =~= inside);
        assert(start_tag(name, attrs) + inside + Seq::<char>::empty() =~= start_tag(name, attrs)
            + inside);
    }
}

/// The name of an HTML element is known inside it; nothing inside a void element has tags.
pub proof fn law_inside_an_element(d: DomView, h: Handle, outer: OpenElement)
    requires
        d.is_element(h),
    ensures
        ({
            let name = d.data(h)->Element_name;
            let inner = opened(outer, name);
            &&& name.ns == "http://www.w3.org/1999/xhtml"@ ==> inner.0 == Some(name.local)
            &&& name.ns != "http://www.w3.org/1999/xhtml"@ ==> inner.0 is None
            &&& outer.1 ==> inner.1
            &&& !outer.1 && name.ns != "http://www.w3.org/1999/xhtml"@ ==> !inner.1
            &&& !outer.1 && name.ns == "http://www.w3.org/1999/xhtml"@ ==> inner.1
                == is_void_element(name.local)
        }),
{
}

/// The content of a page is the HTML of all children of the chosen node, in their order.
pub proof fn law_content_is_all_children(d: DomView, node: Handle)
    ensures
        content_bytes(d, node) == encode_utf8(
            Seq::new(
                d.children(node).len(),
                |i: int|
                    fragment(d, d.children(node)[i], TraversalScope::IncludeNode, (None, false)),
            ).flatten(),
        ),
{
    law_children_are_written_in_order(d, node, (None, false));
}

/// A node that is no element is written by one call, which has all its text.
pub proof fn law_leaf_trace(d: DomView, h: Handle)
    requires
        d.wf(),
        d.finite_depth(),
        d.valid(h),
    ensures
        match d.data(h) {
            DataView::Text { contents } => trace(d, h, TraversalScope::IncludeNode) == seq![
                CallView::WriteText { text: contents },
            ],
            DataView::Comment { contents } => trace(d, h, TraversalScope::IncludeNode) == seq![
                CallView::WriteComment { text: contents },
            ],
            DataView::Doctype { name, .. } => trace(d, h, TraversalScope::IncludeNode) == seq![
                CallView::WriteDoctype { name },
            ],
            DataView::ProcessingInstruction { target, contents } => trace(
                d,
                h,
                TraversalScope::IncludeNode,
            ) == seq![CallView::WriteProcessingInstruction { target, data: contents }],
            _ => true,
        },
{
    let forest = d.forest(seq![h]);
    reveal_with_fuel(crate::calls::forest_calls, 2);
    assert(forest.first() == d.tree(h));
    assert(forest.drop_first() =~= Seq::empty());
    assert(crate::calls::tree_calls(d.tree(h)) + Seq::<CallView>::empty()
        =~= crate::calls::tree_calls(d.tree(h)));
}

/// A document node cannot be written, an element can if its children can, anything else can.
pub proof fn law_what_can_be_written(d: DomView, h: Handle)
    requires
        d.wf(),
        d.finite_depth(),
        d.valid(h),
    ensures
        all_writable(d, h, TraversalScope::IncludeNode) == match d.data(h) {
            DataView::Document => false,
            DataView::Element { .. } => all_writable(d, h, TraversalScope::ChildrenOnly),
            _ => true,
        },
        all_writable(d, h, TraversalScope::ChildrenOnly) == (forall|i: int|
            0 <= i < d.children(h).len() ==> #[trigger] all_writable(
                d,
                d.children(h)[i],
                TraversalScope::IncludeNode,
            )),
{
    let hs = d.children(h);
    let tree = d.tree(h);
    assert(d.node_wf(d.node(h)));
    assert forall|x: Handle| #[trigger] all_writable(d, x, TraversalScope::IncludeNode) == writable(
        d.tree(x),
    ) by {
        assert(seq![x][0] == x);
        if all_writable(d, x, TraversalScope::IncludeNode) {
            assert(crate::calls::selected(d, x, TraversalScope::IncludeNode)[0] == x);
        }
    }
    assert forall|i: int| 0 <= i < hs.len() implies d.tree(#[trigger] hs[i]) == tree.children[i] by {}
    if all_writable(d, h, TraversalScope::ChildrenOnly) {
        assert forall|i: int| 0 <= i < hs.len() implies #[trigger] all_writable(
            d,
            hs[i],
            TraversalScope::IncludeNode,
        ) by {
            assert(writable(d.tree(hs[i])));
        }
        assert forall|i: int| 0 <= i < tree.children.len() implies writable(
            #[trigger] tree.children[i],
        ) by {
            assert(writable(d.tree(hs[i])));
        }
    }
    if forall|i: int|
        0 <= i < hs.len() ==> #[trigger] all_writable(d, hs[i], TraversalScope::IncludeNode) {
        assert forall|i: int| 0 <= i < hs.len() implies writable(d.tree(#[trigger] hs[i])) by {
            assert(all_writable(d, hs[i], TraversalScope::IncludeNode));
        }
    }
    if d.is_element(h) && writable(tree) {
        assert forall|i: int| 0 <= i < hs.len() implies writable(d.tree(#[trigger] hs[i])) by {
            assert(writable(tree.children[i]));
        }
    }
}

// ---- the chosen candidate ----

/// Scores are ordered as the doubles that their bits stand for: a set sign bit makes a score
/// negative, the other bits are its size, zero has no sign, and what lies beyond infinity is not a
/// number and compares with nothing.
pub proof fn law_scores_are_ordered_like_doubles(a: Score, b: Score)
    ensures
        is_nan(a) == (0x7ff0_0000_0000_0000 < a < 0x8000_0000_0000_0000 || a
            > 0xfff0_0000_0000_0000),
        is_nan(a) || is_nan(b) ==> !at_most(a, b),
        !is_nan(a) && !is_nan(b) ==> {
            &&& a < 0x8000_0000_0000_0000 && b < 0x8000_0000_0000_0000 ==> at_most(a, b) == (a <= b)
            &&& a >= 0x8000_0000_0000_0000 && b >= 0x8000_0000_0000_0000 ==> at_most(a, b) == (b
                <= a)
            &&& a >= 0x8000_0000_0000_0000 && b < 0x8000_0000_0000_0000 ==> at_most(a, b)
            &&& a < 0x8000_0000_0000_0000 && b >= 0x8000_0000_0000_0000 ==> at_most(a, b) == (a == 0
                && b == 0x8000_0000_0000_0000)
        },
        !is_nan(a) && !is_nan(b) ==> at_most(a, b) || at_most(b, a),
        at_most(a, b) == (!is_nan(a) && !is_nan(b) && rank(a) <= rank(b)),
        rank(0) == 0,
{
}

/// What is picked is a candidate of the list, by its own path and node; where there is no best one,
/// it is the document.
pub proof fn law_picked_is_the_candidate(
    candidates: Seq<Candidate>,
    top: Option<int>,
    document: Handle,
)
    requires
        is_top(scores(candidates), top),
    ensures
        match top {
            Some(i) => {
                &&& 0 <= i < candidates.len()
                &&& picked(candidates, top, document).0 == candidates[i].id@
                &&& picked(candidates, top, document).1 == candidates[i].node
            },
            None => {
                &&& picked(candidates, top, document).0 == "/"@
                &&& picked(candidates, top, document).1 == document
            },
        },
{
}

/// Where every score is a number, the candidate that is picked has the greatest score, is the first
/// that has it, and its score is above zero; the document is picked only where no score is.
pub proof fn law_best_candidate(candidates: Seq<Candidate>, top: Option<int>)
    requires
        is_top(scores(candidates), top),
        forall|j: int| 0 <= j < candidates.len() ==> !is_nan((#[trigger] candidates[j]).score),
    ensures
        match top {
            Some(i) => {
                &&& 0 <= i < candidates.len()
                &&& rank(candidates[i].score) > 0
                &&& forall|j: int|
                    0 <= j < i ==> rank((#[trigger] candidates[j]).score) < rank(candidates[i].score)
                &&& forall|j: int|
                    i < j < candidates.len() ==> rank((#[trigger] candidates[j]).score) <= rank(
                        candidates[i].score,
                    )
            },
            None => forall|j: int|
                0 <= j < candidates.len() ==> rank((#[trigger] candidates[j]).score) <= 0,
        },
        (exists|j: int| 0 <= j < candidates.len() && rank((#[trigger] candidates[j]).score) > 0)
            ==> top is Some,
{
    let s = scores(candidates);
    assert forall|j: int| 0 <= j < candidates.len() implies #[trigger] s[j] == candidates[j].score
        by {}
    assert forall|j: int| 0 <= j < s.len() implies !is_nan(#[trigger] s[j]) by {
        assert(!is_nan(candidates[j].score));
    }
    crate::scorer::law_top_is_first_greatest(s, top);
    match top {
        Some(i) => {
            assert forall|j: int| 0 <= j < i implies rank((#[trigger] candidates[j]).score) < rank(
                candidates[i].score,
            ) by {
                assert(rank(s[j]) < rank(s[i]));
            }
            assert forall|j: int| i < j < candidates.len() implies rank(
                (#[trigger] candidates[j]).score,
            ) <= rank(candidates[i].score) by {
                assert(rank(s[j]) <= rank(s[i]));
            }
        },
        None => {
            assert forall|j: int| 0 <= j < candidates.len() implies rank(
                (#[trigger] candidates[j]).score,
            ) <= 0 by {
                assert(rank(s[j]) <= 0);
            }
        },
    }
}

/// What is not a number beats what came before it, and is beaten by what comes after it: where `k`
/// is the last that is none, the best is that one if nothing follows it, and else the first of the
/// greatest that follow it.
pub proof fn law_best_after_the_last_nan(scores: Seq<Score>, top: Option<int>, k: int)
    requires
        is_top(scores, top),
        0 <= k < scores.len(),
        is_nan(scores[k]),
        forall|j: int| k < j < scores.len() ==> !is_nan(#[trigger] scores[j]),
    ensures
        k == scores.len() - 1 ==> top == Some(k),
        k < scores.len() - 1 ==> {
            &&& top is Some
            &&& k < top->0 < scores.len()
            &&& forall|j: int|
                k < j < top->0 ==> rank(#[trigger] scores[j]) < rank(scores[top->0])
            &&& forall|j: int|
                top->0 < j < scores.len() ==> rank(#[trigger] scores[j]) <= rank(scores[top->0])
        },
{
    if top is None {
        assert(at_most(scores[k], crate::scorer::ZERO));
    }
    let i = top->0;
    assert(wins(scores, i));
    let lo = choose|lo: int| leads_from(scores, lo, i);
    if k > i {
        assert(at_most(scores[k], scores[i]));
    }
    if k < scores.len() - 1 {
        if i == k {
            assert(at_most(scores[k + 1], scores[k]));
        }
        if lo > 0 && lo - 1 > k {
            assert(!is_nan(scores[lo - 1]));
        }
        assert forall|j: int| k < j < i implies rank(#[trigger] scores[j]) < rank(scores[i]) by {
            assert(!at_most(scores[i], scores[j]));
        }
        assert forall|j: int| i < j < scores.len() implies rank(#[trigger] scores[j]) <= rank(
            scores[i],
        ) by {
            assert(at_most(scores[j], scores[i]));
        }
    }
}

// ---- building a document ----

/// A node that is appended stands last under its new parent, which is its parent then. Nothing else
/// changes.
pub proof fn law_appended_node_stands_last(d: DomView, parent: Handle, node: Handle)
    requires
        d.valid(parent),
        d.valid(node),
    ensures
        ({
            let e = d.append(parent, NodeOrText::AppendNode(node));
            &&& e == DomView { nodes: e.nodes, ..d }
            &&& e.nodes.len() == d.nodes.len()
            &&& e.children(parent) == d.children(parent).push(node)
            &&& e.parent(node) == Some(parent)
            &&& forall|x: Handle| #[trigger]
                d.valid(x) ==> {
                    &&& x != parent ==> e.children(x) == d.children(x)
                    &&& x != node ==> e.parent(x) == d.parent(x)
                    &&& e.data(x) == d.data(x)
                    &&& e.dropped(x) == d.dropped(x)
                }
        }),
{
}

/// A text that is appended joins the text that stands last, if one does; else it stands last, as a
/// new text node. Nothing else changes.
pub proof fn law_appended_text_stands_last(d: DomView, parent: Handle, text: String)
    requires
        d.wf(),
        d.valid(parent),
        d.nodes.len() < usize::MAX,
    ensures
        ({
            let e = d.append(parent, NodeOrText::AppendText(text));
            let s = d.children(parent);
            let joins = s.len() > 0 && d.data(s.last()) is Text;
            let h = Handle(d.nodes.len() as usize);
            &&& e == DomView { nodes: e.nodes, ..d }
            &&& joins ==> {
                &&& e.nodes.len() == d.nodes.len()
                &&& e.data(s.last()) == (DataView::Text {
                    contents: d.data(s.last())->Text_contents + text@,
                })
                &&& forall|x: Handle| #[trigger]
                    d.valid(x) ==> {
                        &&& e.children(x) == d.children(x)
                        &&& e.parent(x) == d.parent(x)
                        &&& x != s.last() ==> e.data(x) == d.data(x)
                        &&& e.dropped(x) == d.dropped(x)
                    }
            }
            &&& !joins ==> {
                &&& e.nodes.len() == d.nodes.len() + 1
                &&& e.children(parent) == s.push(h)
                &&& e.parent(h) == Some(parent)
                &&& e.children(h).len() == 0
                &&& e.data(h) == (DataView::Text { contents: text@ })
                &&& !e.dropped(h)
                &&& forall|x: Handle| #[trigger]
                    d.valid(x) ==> {
                        &&& x != parent ==> e.children(x) == d.children(x)
                        &&& e.parent(x) == d.parent(x)
                        &&& e.data(x) == d.data(x)
                        &&& e.dropped(x) == d.dropped(x)
                    }
            }
        }),
{
    assert(d.node_wf(d.node(parent)));
}

/// A node that comes from elsewhere is put directly before the sibling: the children of the
/// sibling's parent are those that it had, in their order, with the node in front of the sibling.
/// The node leaves the parent that it had. Nothing else changes.
pub proof fn law_node_is_put_before_the_sibling(
    d: DomView,
    sibling: Handle,
    parent: Handle,
    node: Handle,
)
    requires
        d.wf(),
        d.valid(sibling),
        d.valid(node),
        d.parent(sibling) == Some(parent),
        d.locatable(sibling),
        d.locatable(node),
        d.parent(node) != Some(parent),
    ensures
        ({
            let e = d.append_before_sibling(sibling, NodeOrText::AppendNode(node));
            &&& e == DomView { nodes: e.nodes, ..d }
            &&& e.nodes.len() == d.nodes.len()
            &&& exists|k: int|
                {
                    &&& 0 <= k < d.children(parent).len()
                    &&& #[trigger] d.children(parent)[k] == sibling
                    &&& forall|j: int| 0 <= j < k ==> d.children(parent)[j] != sibling
                    &&& e.children(parent) == d.children(parent).take(k) + seq![node, sibling]
                        + d.children(parent).skip(k + 1)
                    &&& e.children(parent)[k] == node
                    &&& e.children(parent)[k + 1] == sibling
                }
            &&& e.parent(node) == Some(parent)
            &&& d.parent(node) matches Some(q) ==> {
                exists|before: Seq<Handle>, after: Seq<Handle>|
                    {
                        &&& d.children(q) == before + seq![node] + after
                        &&& !before.contains(node)
                        &&& e.children(q) == #[trigger] (before + after)
                    }
            }
            &&& forall|x: Handle| #[trigger]
                d.valid(x) ==> {
                    &&& x != parent && d.parent(node) != Some(x) ==> e.children(x) == d.children(x)
                    &&& x != node ==> e.parent(x) == d.parent(x)
                    &&& e.data(x) == d.data(x)
                    &&& e.dropped(x) == d.dropped(x)
                }
        }),
{
    let e = d.append_before_sibling(sibling, NodeOrText::AppendNode(node));
    let s = d.children(parent);
    assert(d.node_wf(d.node(sibling)));
    assert(d.node_wf(d.node(node)));
    lemma_position(d, parent, sibling);
    let i = d.position(parent, sibling);
    let f = d.detach(node);
    if let Some(q) = d.parent(node) {
        lemma_position(d, q, node);
        let t = d.children(q);
        let k = d.position(q, node);
        assert(f.children(q) =~= t.remove(k));
        let before = t.take(k);
        let after = t.skip(k + 1);
        assert(t =~= before + seq![node] + after);
        assert(t.remove(k) =~= before + after);
        assert(!before.contains(node));
        assert(e.children(q) == before + after);
    }
    assert(f.children(parent) == s);
    assert(e.children(parent) =~= s.insert(i, node));
    assert(e.children(parent) =~= s.take(i) + seq![node, sibling] + s.skip(i + 1));
    assert(d.children(parent)[i] == sibling);
}

/// A node that is put before a sibling of its own leaves its place first, and then takes the place,
/// counted from the front, that the sibling had before. Nothing else changes.
pub proof fn law_node_moves_among_its_siblings(
    d: DomView,
    sibling: Handle,
    parent: Handle,
    node: Handle,
    m: int,
    i: int,
)
    requires
        d.wf(),
        d.valid(sibling),
        d.valid(node),
        d.parent(sibling) == Some(parent),
        d.parent(node) == Some(parent),
        0 <= m < d.children(parent).len(),
        d.children(parent)[m] == node,
        forall|j: int| 0 <= j < m ==> d.children(parent)[j] != node,
        0 <= i < d.children(parent).len(),
        d.children(parent)[i] == sibling,
        forall|j: int| 0 <= j < i ==> d.children(parent)[j] != sibling,
    ensures
        ({
            let e = d.append_before_sibling(sibling, NodeOrText::AppendNode(node));
            &&& e == DomView { nodes: e.nodes, ..d }
            &&& e.nodes.len() == d.nodes.len()
            &&& e.children(parent) == d.children(parent).remove(m).insert(i, node)
            &&& e.parent(node) == Some(parent)
            &&& forall|x: Handle| #[trigger]
                d.valid(x) ==> {
                    &&& x != parent ==> e.children(x) == d.children(x)
                    &&& e.parent(x) == d.parent(x)
                    &&& e.data(x) == d.data(x)
                    &&& e.dropped(x) == d.dropped(x)
                }
        }),
{
    let e = d.append_before_sibling(sibling, NodeOrText::AppendNode(node));
    let s = d.children(parent);
    assert(d.node_wf(d.node(sibling)));
    assert(s.contains(sibling) && s.contains(node));
    lemma_position(d, parent, sibling);
    lemma_position(d, parent, node);
    assert(d.position(parent, sibling) == i);
    assert(d.position(parent, node) == m);
    let f = d.detach(node);
    assert(f.children(parent) =~= s.remove(m));
    assert(e.children(parent) =~= s.remove(m).insert(i, node));
}

/// A text that is put before a sibling joins the text that stands just before it, if one does; else
/// it stands there as a new text node. Nothing else changes.
pub proof fn law_text_is_put_before_the_sibling(
    d: DomView,
    sibling: Handle,
    parent: Handle,
    text: String,
    i: int,
)
    requires
        d.wf(),
        d.valid(sibling),
        d.parent(sibling) == Some(parent),
        d.nodes.len() < usize::MAX,
        0 <= i < d.children(parent).len(),
        d.children(parent)[i] == sibling,
        forall|j: int| 0 <= j < i ==> d.children(parent)[j] != sibling,
    ensures
        ({
            let e = d.append_before_sibling(sibling, NodeOrText::AppendText(text));
            let s = d.children(parent);
            let joins = i > 0 && d.data(s[i - 1]) is Text;
            let h = Handle(d.nodes.len() as usize);
            &&& e == DomView { nodes: e.nodes, ..d }
            &&& joins ==> {
                &&& e.nodes.len() == d.nodes.len()
                &&& e.data(s[i - 1]) == (DataView::Text {
                    contents: d.data(s[i - 1])->Text_contents + text@,
                })
                &&& forall|x: Handle| #[trigger]
                    d.valid(x) ==> {
                        &&& e.children(x) == d.children(x)
                        &&& e.parent(x) == d.parent(x)
                        &&& x != s[i - 1] ==> e.data(x) == d.data(x)
                        &&& e.dropped(x) == d.dropped(x)
                    }
            }
            &&& !joins ==> {
                &&& e.nodes.len() == d.nodes.len() + 1
                &&& e.children(parent) == s.take(i) + seq![h, sibling] + s.skip(i + 1)
                &&& e.parent(h) == Some(parent)
                &&& e.children(h).len() == 0
                &&& e.data(h) == (DataView::Text { contents: text@ })
                &&& !e.dropped(h)
                &&& forall|x: Handle| #[trigger]
                    d.valid(x) ==> {
                        &&& x != parent ==> e.children(x) == d.children(x)
                        &&& e.parent(x) == d.parent(x)
                        &&& e.data(x) == d.data(x)
                        &&& e.dropped(x) == d.dropped(x)
                    }
            }
        }),
{
    let e = d.append_before_sibling(sibling, NodeOrText::AppendText(text));
    let s = d.children(parent);
    let h = Handle(d.nodes.len() as usize);
    assert(d.node_wf(d.node(sibling)));
    assert(d.node_wf(d.node(parent)));
    assert(s.contains(sibling));
    lemma_position(d, parent, sibling);
    assert(d.position(parent, sibling) == i);
    if !(i > 0 && d.data(s[i - 1]) is Text) {
        assert(e.children(parent) =~= s.insert(i, h));
        assert(e.children(parent) =~= s.take(i) + seq![h, sibling] + s.skip(i + 1));
    }
}

/// A node that is removed is without a parent, and the children that its parent had are left in
/// their order without it. Nothing else changes.
pub proof fn law_removed_node_is_gone(d: DomView, h: Handle)
    requires
        d.wf(),
        d.valid(h),
        d.locatable(h),
    ensures
        ({
            let e = d.detach(h);
            &&& e == DomView { nodes: e.nodes, ..d }
            &&& e.nodes.len() == d.nodes.len()
            &&& e.parent(h) is None
            &&& d.parent(h) matches Some(q) ==> {
                exists|before: Seq<Handle>, after: Seq<Handle>|
                    {
                        &&& d.children(q) == before + seq![h] + after
                        &&& !before.contains(h)
                        &&& e.children(q) == #[trigger] (before + after)
                    }
            }
            &&& forall|x: Handle| #[trigger]
                d.valid(x) ==> {
                    &&& d.parent(h) != Some(x) ==> e.children(x) == d.children(x)
                    &&& x != h ==> e.parent(x) == d.parent(x)
                    &&& e.data(x) == d.data(x)
                    &&& e.dropped(x) == d.dropped(x)
                }
        }),
{
    let e = d.detach(h);
    assert(d.node_wf(d.node(h)));
    if let Some(q) = d.parent(h) {
        lemma_position(d, q, h);
        let t = d.children(q);
        let k = d.position(q, h);
        assert(e.children(q) =~= t.remove(k));
        let before = t.take(k);
        let after = t.skip(k + 1);
        assert(t =~= before + seq![h] + after);
        assert(t.remove(k) =~= before + after);
        assert(!before.contains(h));
        assert(e.children(q) == before + after);
    }
}

/// The children of a node move to their new parent: they stand there after those that it had, in
/// their order, and it is their parent. The node has none left. Nothing else changes.
pub proof fn law_children_move_to_the_new_parent(d: DomView, node: Handle, new_parent: Handle)
    requires
        d.wf(),
        d.valid(node),
        d.valid(new_parent),
        node != new_parent,
    ensures
        ({
            let e = d.reparent_children(node, new_parent);
            &&& e == DomView { nodes: e.nodes, ..d }
            &&& e.nodes.len() == d.nodes.len()
            &&& e.children(node).len() == 0
            &&& e.children(new_parent) == d.children(new_parent) + d.children(node)
            &&& forall|x: Handle| #[trigger]
                d.valid(x) ==> {
                    &&& x != node && x != new_parent ==> e.children(x) == d.children(x)
                    &&& d.children(node).contains(x) ==> e.parent(x) == Some(new_parent)
                    &&& !d.children(node).contains(x) ==> e.parent(x) == d.parent(x)
                    &&& e.data(x) == d.data(x)
                    &&& e.dropped(x) == d.dropped(x)
                }
        }),
{
    let e = d.reparent_children(node, new_parent);
    assert forall|x: Handle| #[trigger] d.valid(x) implies {
        &&& x != node && x != new_parent ==> e.children(x) == d.children(x)
        &&& d.children(node).contains(x) ==> e.parent(x) == Some(new_parent)
        &&& !d.children(node).contains(x) ==> e.parent(x) == d.parent(x)
        &&& e.data(x) == d.data(x)
        &&& e.dropped(x) == d.dropped(x)
    } by {
        assert(Handle(x.0 as int as usize) == x);
    }
}

/// A node that is created is what it was created as, and stands alone. The nodes that were there
/// stay as they were.
pub proof fn law_created_node_stands_alone(d: DomView, data: DataView)
    requires
        d.nodes.len() < usize::MAX,
    ensures
        ({
            let e = d.add_node(detached(data));
            let h = Handle(d.nodes.len() as usize);
            &&& d.next_handle() == h
            &&& e == DomView { nodes: e.nodes, ..d }
            &&& e.nodes.len() == d.nodes.len() + 1
            &&& e.valid(h)
            &&& e.data(h) == data
            &&& e.parent(h) is None
            &&& e.children(h).len() == 0
            &&& !e.dropped(h)
            &&& forall|x: Handle| #[trigger] d.valid(x) ==> e.node(x) == d.node(x)
        }),
{
}

/// What a filter leaves passes it, and was there.
proof fn lemma_filter_left(
    s: Seq<AttributeView>,
    keep: spec_fn(AttributeView) -> bool,
    k: int,
)
    requires
        0 <= k < s.filter(keep).len(),
    ensures
        keep(s.filter(keep)[k]),
        s.contains(s.filter(keep)[k]),
    decreases s.len(),
{
    reveal(Seq::filter);
    let rest = s.drop_last().filter(keep);
    if k < rest.len() {
        lemma_filter_left(s.drop_last(), keep, k);
        assert(s.filter(keep)[k] == rest[k]);
        let j = choose|j: int| 0 <= j < s.len() - 1 && s.drop_last()[j] == rest[k];
        assert(s[j] == rest[k]);
    } else {
        assert(s.filter(keep)[k] == s.last());
    }
}

/// An element that attributes are added to keeps those that it has, in front and as they are; what
/// comes after them are attributes that were to be added and whose name it did not have; and every
/// name that was to be added is there. The rest of the element, and all other nodes, stay.
pub proof fn law_missing_attributes_are_added(d: DomView, h: Handle, attrs: Seq<AttributeView>)
    requires
        d.valid(h),
        d.is_element(h),
    ensures
        ({
            let e = d.add_attrs_if_missing(h, attrs);
            let old_attrs = d.data(h)->Element_attrs;
            let new_attrs = e.data(h)->Element_attrs;
            &&& e == DomView { nodes: e.nodes, ..d }
            &&& e.nodes.len() == d.nodes.len()
            &&& e.is_element(h)
            &&& e.data(h)->Element_name == d.data(h)->Element_name
            &&& e.data(h)->template_contents == d.data(h)->template_contents
            &&& e.data(h)->mathml_annotation_xml_integration_point == d.data(
                h,
            )->mathml_annotation_xml_integration_point
            &&& e.children(h) == d.children(h)
            &&& e.parent(h) == d.parent(h)
            &&& e.dropped(h) == d.dropped(h)
            &&& forall|x: Handle| #[trigger] d.valid(x) && x != h ==> e.node(x) == d.node(x)
            &&& new_attrs.len() >= old_attrs.len()
            &&& new_attrs.take(old_attrs.len() as int) == old_attrs
            &&& new_attrs.skip(old_attrs.len() as int) == attrs.filter(
                |a: AttributeView| !has_qualified_attribute(old_attrs, a.name),
            )
            &&& forall|k: int|
                old_attrs.len() <= k < new_attrs.len() ==> attrs.contains(#[trigger] new_attrs[k])
                    && forall|j: int|
                    0 <= j < old_attrs.len() ==> (#[trigger] old_attrs[j]).name != new_attrs[k].name
            &&& forall|k: int|
                0 <= k < attrs.len() ==> has_qualified_attribute(
                    new_attrs,
                    (#[trigger] attrs[k]).name,
                )
        }),
{
    let e = d.add_attrs_if_missing(h, attrs);
    let old_attrs = d.data(h)->Element_attrs;
    let new_attrs = e.data(h)->Element_attrs;
    let added = missing_attributes(old_attrs, attrs);
    let keep = |a: AttributeView| !has_qualified_attribute(old_attrs, a.name);
    assert(new_attrs == old_attrs + added);
    assert(new_attrs.take(old_attrs.len() as int) =~= old_attrs);
    assert(new_attrs.skip(old_attrs.len() as int) =~= added);
    assert forall|k: int| old_attrs.len() <= k < new_attrs.len() implies attrs.contains(
        #[trigger] new_attrs[k],
    ) && forall|j: int|
        0 <= j < old_attrs.len() ==> (#[trigger] old_attrs[j]).name != new_attrs[k].name by {
        lemma_filter_left(attrs, keep, k - old_attrs.len());
        assert(new_attrs[k] == attrs.filter(keep)[k - old_attrs.len()]);
    }
    assert forall|k: int| 0 <= k < attrs.len() implies has_qualified_attribute(
        new_attrs,
        (#[trigger] attrs[k]).name,
    ) by {
        crate::laws::law_added_attrs_are_there(old_attrs, attrs, k);
    }
}

// ---- links and attributes ----

/// A link stays on the site unless it begins with `//`, `http://` or `https://`.
pub proof fn law_links_that_leave_the_site(url: Seq<char>, rest: Seq<char>)
    ensures
        !is_local("//"@ + rest),
        !is_local("http://"@ + rest),
        !is_local("https://"@ + rest),
        !is_local(url) ==> exists|tail: Seq<char>|
            {
                ||| url == #[trigger] ("//"@ + tail)
                ||| url == "http://"@ + tail
                ||| url == "https://"@ + tail
            },
{
    let a = "//"@;
    let b = "http://"@;
    let c = "https://"@;
    assert((a + rest).take(a.len() as int) =~= a);
    assert((b + rest).take(b.len() as int) =~= b);
    assert((c + rest).take(c.len() as int) =~= c);
    if begins_with(url, a) {
        assert(url =~= a + url.skip(a.len() as int));
    } else if begins_with(url, b) {
        let tail = url.skip(b.len() as int);
        assert(url =~= b + tail);
        assert((a + tail).len() >= 0);
    } else if begins_with(url, c) {
        let tail = url.skip(c.len() as int);
        assert(url =~= c + tail);
        assert((a + tail).len() >= 0);
    }
}

/// The value of an attribute is that of the first one with the name; there is none if no attribute
/// has the name.
pub proof fn law_attribute_value_is_the_first(attrs: Seq<AttributeView>, local: Seq<char>)
    ensures
        match attribute_value(attrs, local) {
            Some(value) => exists|i: int|
                {
                    &&& 0 <= i < attrs.len()
                    &&& (#[trigger] attrs[i]).name.local == local
                    &&& attrs[i].value == value
                    &&& forall|j: int| 0 <= j < i ==> (#[trigger] attrs[j]).name.local != local
                },
            None => forall|j: int| 0 <= j < attrs.len() ==> (#[trigger] attrs[j]).name.local
                != local,
        },
{
    lemma_attribute_index(attrs, local);
    let i = crate::dom::attribute_index(attrs, local);
    if i < attrs.len() {
        assert(attrs[i].name.local == local);
    }
}

/// Setting an attribute gives the first one with the name the value and leaves the names, the order
/// and the other values; where no attribute has the name, nothing changes.
pub proof fn law_one_attribute_is_set(
    attrs: Seq<AttributeView>,
    local: Seq<char>,
    value: Seq<char>,
)
    ensures
        ({
            let after = with_attribute_value(attrs, local, value);
            &&& after.len() == attrs.len()
            &&& forall|j: int|
                0 <= j < attrs.len() ==> (#[trigger] after[j]).name == attrs[j].name
            &&& forall|j: int|
                0 <= j < attrs.len() && attrs[j].name.local != local ==> #[trigger] after[j]
                    == attrs[j]
            &&& forall|j: int, k: int|
                0 <= k < j < attrs.len() && (#[trigger] attrs[k]).name.local == local
                    ==> #[trigger] after[j] == attrs[j]
            &&& attribute_value(attrs, local) is Some ==> attribute_value(after, local) == Some(
                value,
            )
            &&& attribute_value(attrs, local) is None ==> after == attrs
        }),
{
    lemma_attribute_index(attrs, local);
    crate::dom::law_set_attr_get_attr(attrs, local, value, local);
}

/// Cleaning takes out the first attribute with the name and leaves the others in their order; where
/// no attribute has the name, nothing changes.
pub proof fn law_one_attribute_is_cleaned(attrs: Seq<AttributeView>, local: Seq<char>)
    ensures
        attribute_value(attrs, local) is None ==> without_attribute(attrs, local) == attrs,
        attribute_value(attrs, local) is Some ==> exists|
            before: Seq<AttributeView>,
            a: AttributeView,
            after: Seq<AttributeView>,
        |
            {
                &&& attrs == #[trigger] (before.push(a) + after)
                &&& a.name.local == local
                &&& forall|j: int|
                    0 <= j < before.len() ==> (#[trigger] before[j]).name.local != local
                &&& without_attribute(attrs, local) == before + after
            },
{
    lemma_attribute_index(attrs, local);
    let i = crate::dom::attribute_index(attrs, local);
    if i < attrs.len() {
        let before = attrs.take(i);
        let after = attrs.skip(i + 1);
        assert(attrs =~= before.push(attrs[i]) + after);
        assert(attrs.remove(i) =~= before + after);
    }
}

/// An element has its attributes, and no other node has any.
pub proof fn law_attributes_of_a_node(d: DomView, h: Handle)
    ensures
        d.is_element(h) ==> node_attributes(d, h) == d.data(h)->Element_attrs,
        !d.is_element(h) ==> node_attributes(d, h).len() == 0,
{
}

/// Changing the attributes of an element changes these and nothing else; a node that is no element
/// stays as it is.
pub proof fn law_only_the_attributes_change(d: DomView, h: Handle, attrs: Seq<AttributeView>)
    requires
        d.valid(h),
    ensures
        ({
            let e = with_node_attributes(d, h, attrs);
            &&& e == DomView { nodes: e.nodes, ..d }
            &&& e.nodes.len() == d.nodes.len()
            &&& forall|x: Handle| #[trigger] d.valid(x) && x != h ==> e.node(x) == d.node(x)
            &&& e.children(h) == d.children(h)
            &&& e.parent(h) == d.parent(h)
            &&& e.dropped(h) == d.dropped(h)
            &&& !d.is_element(h) ==> e.data(h) == d.data(h)
            &&& d.is_element(h) ==> {
                &&& e.is_element(h)
                &&& node_attributes(e, h) == attrs
                &&& e.data(h)->Element_attrs == attrs
                &&& e.data(h)->Element_name == d.data(h)->Element_name
                &&& e.data(h)->template_contents == d.data(h)->template_contents
                &&& e.data(h)->mathml_annotation_xml_integration_point == d.data(
                    h,
                )->mathml_annotation_xml_integration_point
            }
        }),
{
}

/// A link that stays on the site and could be resolved is replaced by the address: the attribute has
/// it as its value then, every other attribute has the value that it had, and all other nodes stay. A
/// link that leaves the site, or could not be resolved, stays, and so does the document.
pub proof fn law_link_is_resolved(
    d: DomView,
    h: Handle,
    attr_name: Seq<char>,
    joined: Option<Seq<char>>,
    other: Seq<char>,
)
    requires
        d.valid(h),
    ensures
        ({
            let e = with_resolved_link(d, h, attr_name, joined);
            let link = attribute_value(node_attributes(d, h), attr_name);
            let resolved = link is Some && joined is Some && is_local(link->0);
            &&& resolved ==> attribute_value(node_attributes(e, h), attr_name) == joined
            &&& resolved && other != attr_name ==> attribute_value(node_attributes(e, h), other)
                == attribute_value(node_attributes(d, h), other)
            &&& resolved ==> e.is_element(h) && e.data(h)->Element_name == d.data(h)->Element_name
            &&& e.children(h) == d.children(h)
            &&& e.parent(h) == d.parent(h)
            &&& forall|x: Handle| #[trigger] d.valid(x) && x != h ==> e.node(x) == d.node(x)
            &&& e.nodes.len() == d.nodes.len()
            &&& e == DomView { nodes: e.nodes, ..d }
            &&& !resolved ==> e == d
        }),
{
    if let Some(address) = joined {
        let attrs = node_attributes(d, h);
        crate::dom::law_set_attr_get_attr(attrs, attr_name, address, other);
        law_only_the_attributes_change(d, h, with_attribute_value(attrs, attr_name, address));
    }
}

// ---- trees and copies ----

/// What hangs under a node is the node's data and, child by child, what hangs under its children.
pub proof fn law_tree_is_all_that_hangs_under_a_node(d: DomView, h: Handle)
    requires
        d.wf(),
        d.finite_depth(),
        d.valid(h),
    ensures
        d.tree(h).data == d.data(h),
        d.tree(h).children.len() == d.children(h).len(),
        forall|i: int|
            0 <= i < d.children(h).len() ==> #[trigger] d.tree(h).children[i] == d.tree(
                d.children(h)[i],
            ),
{
}

/// The copy of a node is what the node is, has the parent that the node has and as many children;
/// the nodes that were there stay as they were.
pub proof fn law_copy_of_a_node(d: DomView, e: DomView, h: Handle)
    requires
        d.wf(),
        d.finite_depth(),
        d.valid(h),
        e.extends(d),
        d.copied_at(e, h, d.nodes.len()),
    ensures
        ({
            let top = d.nodes.len() + tree_size(d.tree(h)) - 1;
            &&& top < e.nodes.len()
            &&& e.nodes[top].data == d.data(h)
            &&& e.nodes[top].parent == d.parent(h)
            &&& e.nodes[top].children.len() == d.children(h).len()
            &&& !e.nodes[top].dropped
            &&& forall|x: Handle| #[trigger] d.valid(x) ==> e.node(x) == d.node(x)
            &&& e.document == d.document && e.errors == d.errors && e.quirks_mode == d.quirks_mode
        }),
{
    reveal(DomView::copied_at);
}

/// Cloning an option gives the `selectedcontent` one new child for each child of the option, in their
/// order, under which the same hangs; no node that was there changes but the `selectedcontent`.
#[verifier::spinoff_prover]
pub proof fn law_option_is_copied(
    d: DomView,
    e: DomView,
    option: Handle,
    selectedcontent: Handle,
)
    requires
        d.wf(),
        d.finite_depth(),
        d.valid(option),
        d.valid(selectedcontent),
        e.wf(),
        e.finite_depth(),
        d.option_cloned(e, option, selectedcontent),
    ensures
        e.children(selectedcontent).len() == d.children(option).len(),
        forall|i: int|
            0 <= i < d.children(option).len() ==> {
                let copy = #[trigger] e.children(selectedcontent)[i];
                &&& e.valid(copy)
                &&& !d.valid(copy)
                &&& e.tree(copy) == d.tree(d.children(option)[i])
            },
        e.parent(selectedcontent) == d.parent(selectedcontent),
        e.data(selectedcontent) == d.data(selectedcontent),
        forall|x: Handle| #[trigger]
            d.valid(x) && x != selectedcontent ==> e.node(x) == d.node(x),
{
    assert forall|i: int| 0 <= i < d.children(option).len() implies {
        let copy = #[trigger] e.children(selectedcontent)[i];
        &&& e.valid(copy)
        &&& !d.valid(copy)
        &&& e.tree(copy) == d.tree(d.children(option)[i])
    } by {
        lemma_one_child_is_copied(d, e, option, selectedcontent, i);
    }
}

#[verifier::spinoff_prover]
proof fn lemma_one_child_is_copied(
    d: DomView,
    e: DomView,
    option: Handle,
    selectedcontent: Handle,
    i: int,
)
    requires
        d.wf(),
        d.finite_depth(),
        d.valid(option),
        d.valid(selectedcontent),
        e.wf(),
        e.finite_depth(),
        d.option_cloned(e, option, selectedcontent),
        0 <= i < d.children(option).len(),
    ensures
        e.valid(e.children(selectedcontent)[i]),
        !d.valid(e.children(selectedcontent)[i]),
        e.tree(e.children(selectedcontent)[i]) == d.tree(d.children(option)[i]),
{
    let lo = d.nodes.len();
    let hs = d.children(option);
    let trees = d.forest(hs);
    let at = lo + forest_size(trees.take(i));
    let size = tree_size(d.tree(hs[i]));
    assert(d.node_wf(d.node(option)));
    assert(d.valid(hs[i]));
    assert(d.copied_at(e, hs[i], at));
    assert(e.children(selectedcontent)[i] == d.copy_handles(hs, lo)[i]);
    assert(size >= 1);
    crate::selectedcontent::lemma_forest_size_step(trees, i);
    crate::selectedcontent::lemma_forest_size_take(trees, i + 1);
    assert(e.children(selectedcontent)[i] == Handle((at + size - 1) as usize));
    crate::selectedcontent::lemma_copy_tree(d, e, hs[i], at);
}

/// The way up goes from a node to its parent, as long as that has not been dropped.
pub proof fn law_way_up_goes_by_parents(d: DomView, h: Handle, n: nat)
    ensures
        d.ancestor(h, 0) == Some(h),
        d.ancestor(h, n + 1) == match d.ancestor(h, n) {
            Some(a) => match d.parent(a) {
                Some(p) => if d.node(p).dropped {
                    None
                } else {
                    Some(p)
                },
                None => None,
            },
            None => None,
        },
{
}

/// Whether `h` is an element whose local name is `local`.
pub open spec fn has_name(d: DomView, h: Handle, local: Seq<char>) -> bool {
    d.data(h) matches DataView::Element { name, .. } && name.local == local
}

/// The nearest ancestor select of an option is a select above it with no select, datalist, rule or
/// option in between, and at most one option group; whatever is above it like that is.
pub proof fn law_nearest_select(d: DomView, h: Handle, n: nat)
    ensures
        d.nearest_select_at(h, n) == {
            &&& n >= 1
            &&& d.ancestor(h, n) is Some
            &&& has_name(d, d.ancestor(h, n)->0, "select"@)
            &&& forall|j: nat|
                1 <= j < n ==> (#[trigger] d.ancestor(h, j) matches Some(a) ==> {
                    &&& !has_name(d, a, "select"@)
                    &&& !has_name(d, a, "datalist"@)
                    &&& !has_name(d, a, "hr"@)
                    &&& !has_name(d, a, "option"@)
                })
            &&& forall|i: nat, j: nat|
                1 <= i < j < n ==> !((#[trigger] d.ancestor(h, i) matches Some(a) && has_name(
                    d,
                    a,
                    "optgroup"@,
                )) && (#[trigger] d.ancestor(h, j) matches Some(b) && has_name(d, b, "optgroup"@)))
        },
{
    let clear = forall|j: nat|
        1 <= j < n ==> (#[trigger] d.ancestor(h, j) matches Some(a) ==> {
            &&& !has_name(d, a, "select"@)
            &&& !has_name(d, a, "datalist"@)
            &&& !has_name(d, a, "hr"@)
            &&& !has_name(d, a, "option"@)
        });
    let single = forall|i: nat, j: nat|
        1 <= i < j < n ==> !((#[trigger] d.ancestor(h, i) matches Some(a) && has_name(
            d,
            a,
            "optgroup"@,
        )) && (#[trigger] d.ancestor(h, j) matches Some(b) && has_name(d, b, "optgroup"@)));
    if d.nearest_select_at(h, n) {
        assert forall|j: nat| 1 <= j < n implies (#[trigger] d.ancestor(h, j) matches Some(a) ==> {
            &&& !has_name(d, a, "select"@)
            &&& !has_name(d, a, "datalist"@)
            &&& !has_name(d, a, "hr"@)
            &&& !has_name(d, a, "option"@)
        }) by {
            assert(!d.ancestor_shields(h, j));
        }
        assert forall|i: nat, j: nat| 1 <= i < j < n implies !((#[trigger] d.ancestor(
            h,
            i,
        ) matches Some(a) && has_name(d, a, "optgroup"@)) && (#[trigger] d.ancestor(
            h,
            j,
        ) matches Some(b) && has_name(d, b, "optgroup"@))) by {
            assert(!(d.ancestor_named(h, i, "optgroup"@) && d.ancestor_named(h, j, "optgroup"@)));
        }
    }
    if n >= 1 && d.ancestor(h, n) is Some && has_name(d, d.ancestor(h, n)->0, "select"@) && clear
        && single {
        assert forall|j: nat| 1 <= j < n implies !(#[trigger] d.ancestor_shields(h, j))
            && !d.ancestor_named(h, j, "select"@) by {
            assert(d.ancestor(h, j) matches Some(a) ==> !has_name(d, a, "select"@));
        }
        assert forall|i: nat, j: nat| 1 <= i < j < n implies !(#[trigger] d.ancestor_named(
            h,
            i,
            "optgroup"@,
        ) && #[trigger] d.ancestor_named(h, j, "optgroup"@)) by {
            if d.ancestor_named(h, i, "optgroup"@) && d.ancestor_named(h, j, "optgroup"@) {
                assert(d.ancestor(h, i) is Some && d.ancestor(h, j) is Some);
            }
        }
    }
}

/// An element has an enabled `selectedcontent` if it is named that itself, has a child and does not
/// allow several choices; it is the first child then.
pub proof fn law_enabled_selectedcontent(d: DomView, h: Handle)
    requires
        d.is_element(h),
    ensures
        d.enabled_selectedcontent(h) is Some == {
            &&& has_name(d, h, "selectedcontent"@)
            &&& d.children(h).len() > 0
            &&& forall|i: int|
                0 <= i < d.data(h)->Element_attrs.len() ==> (
                #[trigger] d.data(h)->Element_attrs[i]).name.local != "multiple"@
        },
        d.enabled_selectedcontent(h) is Some ==> d.enabled_selectedcontent(h)->0 == d.children(h)[0],
{
    let attrs = d.data(h)->Element_attrs;
    if has_attribute(attrs, "multiple"@) {
        let i = choose|i: int|
            0 <= i < attrs.len() && (#[trigger] attrs[i]).name.local == "multiple"@;
        assert(d.data(h)->Element_attrs[i].name.local == "multiple"@);
    }
}

// ---- dropping ----

/// A dropped node is taken apart with all that it held, however deep: it and they are left without
/// children and template contents, and with the parent that they had.
pub proof fn law_drop_takes_all_apart(
    d: DomView,
    h: Handle,
    held: Seq<Handle>,
    p: Handle,
    x: Handle,
)
    requires
        d.wf(),
        d.valid(h),
        d.valid(p),
        d.owns(p, x),
        p == h ==> d.children(h).contains(x),
        p != h ==> d.owned_from(d.let_go(h, held), p),
    ensures
        ({
            let e = d.drop_node(h, held);
            &&& d.valid(x)
            &&& e.dropped(h)
            &&& e.children(h).len() == 0
            &&& d.owned_from(d.let_go(h, held), x)
            &&& e.children(x).len() == 0
            &&& e.template(x) is None
            &&& e.parent(x) == d.parent(x)
        }),
{
    let from = d.let_go(h, held);
    assert(d.node_wf(d.node(p)));
    if p == h {
        let i = choose|i: int| 0 <= i < d.children(h).len() && d.children(h)[i] == x;
        assert(from[i] == x);
        let path = seq![x];
        assert(path.first() == x && path.last() == x);
        assert(d.owned_along(path));
    } else {
        crate::dropping::lemma_owned_next(d, from, p, x);
    }
    if d.children(p).contains(x) {
        let i = choose|i: int| 0 <= i < d.children(p).len() && d.children(p)[i] == x;
        assert(d.valid(d.children(p)[i]));
    }
    assert(Handle(x.0 as int as usize) == x);
    assert(Handle(h.0 as int as usize) == h);
}

/// Nothing is taken apart but what a dropped node held: a node outside of a set that holds what the
/// node held, and all that the nodes in it hold, stays as it is.
pub proof fn law_drop_leaves_the_rest(
    d: DomView,
    h: Handle,
    held: Seq<Handle>,
    inside: spec_fn(Handle) -> bool,
    x: Handle,
)
    requires
        d.wf(),
        d.valid(h),
        d.valid(x),
        x != h,
        !inside(x),
        forall|y: Handle| #[trigger] d.owns(h, y) ==> inside(y),
        forall|p: Handle, y: Handle|
            d.valid(p) && inside(p) && #[trigger] d.owns(p, y) ==> inside(y),
    ensures
        d.drop_node(h, held).node(x) == d.node(x),
        d.drop_node(h, held) == (DomView { nodes: d.drop_node(h, held).nodes, ..d }),
        d.drop_node(h, held).nodes.len() == d.nodes.len(),
{
    let from = d.let_go(h, held);
    assert(Handle(x.0 as int as usize) == x);
    if d.owned_from(from, x) {
        let path = choose|path: Seq<Handle>|
            {
                &&& path.len() > 0
                &&& from.contains(path.first())
                &&& path.last() == x
                &&& #[trigger] d.owned_along(path)
            };
        lemma_path_inside(d, h, held, inside, path, path.len() - 1);
    }
}

proof fn lemma_path_inside(
    d: DomView,
    h: Handle,
    held: Seq<Handle>,
    inside: spec_fn(Handle) -> bool,
    path: Seq<Handle>,
    n: int,
)
    requires
        0 <= n < path.len(),
        d.let_go(h, held).contains(path.first()),
        d.owned_along(path),
        forall|y: Handle| #[trigger] d.owns(h, y) ==> inside(y),
        forall|p: Handle, y: Handle|
            d.valid(p) && inside(p) && #[trigger] d.owns(p, y) ==> inside(y),
    ensures
        inside(path[n]),
    decreases n,
{
    let from = d.let_go(h, held);
    if n == 0 {
        let i = choose|i: int| 0 <= i < from.len() && from[i] == path.first();
        if i < d.children(h).len() {
            assert(d.children(h)[i] == path.first());
        }
        assert(d.owns(h, path.first()));
    } else {
        lemma_path_inside(d, h, held, inside, path, n - 1);
        assert(d.owns(path[n - 1], path[n - 1 + 1]));
    }
}

/// A node that is taken apart is dropped unless it was, or something outside holds it: a handle, the
/// document, or a node that is not taken apart.
pub proof fn law_what_is_held_is_not_dropped(d: DomView, h: Handle, held: Seq<Handle>, x: Handle)
    requires
        d.valid(x),
        x != h,
        d.owned_from(d.let_go(h, held), x),
    ensures
        d.drop_node(h, held).dropped(x) == (d.dropped(x) || {
            &&& !held.contains(x)
            &&& x != d.document
            &&& forall|p: Handle|
                d.valid(p) && #[trigger] d.owns(p, x) ==> p == h || d.owned_from(
                    d.let_go(h, held),
                    p,
                )
        }),
{
    assert(Handle(x.0 as int as usize) == x);
}

/// A node lets go of its children in any case, and of its template contents if nothing else holds
/// them.
pub proof fn law_what_is_let_go(d: DomView, h: Handle, held: Seq<Handle>, x: Handle)
    ensures
        d.let_go(h, held).contains(x) == {
            ||| d.children(h).contains(x)
            ||| d.template(h) == Some(x) && !held.contains(x) && x != d.document && forall|p: Handle|
                d.valid(p) && p != h ==> !(#[trigger] d.owns(p, x))
        },
{
    let s = d.children(h);
    let from = d.let_go(h, held);
    if s.contains(x) {
        let i = choose|i: int| 0 <= i < s.len() && s[i] == x;
        assert(from[i] == x);
    }
    if from.contains(x) && !s.contains(x) {
        let i = choose|i: int| 0 <= i < from.len() && from[i] == x;
        if i < s.len() {
            assert(s[i] == x);
        }
    }
    if d.template(h) == Some(x) && !d.held_besides(h, held, x) {
        assert(from[s.len() as int] == x);
    }
}

/// Handles are given up one by one: a node is dropped then if no handle, not the document and no node
/// holds it.
pub proof fn law_handles_are_given_up_in_turn(
    d: DomView,
    a: Seq<Handle>,
    b: Seq<Handle>,
    h: Handle,
    held: Seq<Handle>,
)
    ensures
        d.drop_unheld(Seq::empty(), held) == d,
        d.drop_unheld(seq![h], held) == if !held.contains(h) && h != d.document && forall|p: Handle|
            d.valid(p) ==> !(#[trigger] d.owns(p, h)) {
            d.drop_node(h, held)
        } else {
            d
        },
        d.drop_unheld(a + b, held) == d.drop_unheld(a, held).drop_unheld(b, held),
    decreases a.len(),
{
    reveal_with_fuel(DomView::drop_unheld, 2);
    assert(seq![h].drop_first() =~= Seq::empty());
    if a.len() == 0 {
        assert(a + b =~= b);
    } else {
        let first = a.first();
        let next = if d.unheld(first, held) {
            d.drop_node(first, held)
        } else {
            d
        };
        assert((a + b).first() == first);
        assert((a + b).drop_first() =~= a.drop_first() + b);
        law_handles_are_given_up_in_turn(next, a.drop_first(), b, h, held);
    }
}

// ---- feeding a parser ----

/// Short input is fed in one piece without a yield; long input in pieces of one size but for the
/// last, with a yield after each; and then it is done.
pub proof fn law_how_input_is_fed(f: Feed)
    requires
        f.wf(),
    ensures
        f.len < 131072 && !f.started ==> {
            &&& f.action() == (FeedAction::Process { start: 0, end: f.len, then_yield: false })
            &&& f.after().action() == FeedAction::Finish
        },
        f.len >= 131072 && f.offset < f.len ==> {
            &&& f.action() is Process
            &&& f.action()->start == f.offset
            &&& f.action()->end - f.offset == if f.len - f.offset < 32768 {
                f.len - f.offset
            } else {
                32768
            }
            &&& f.action()->Process_then_yield
            &&& f.after().offset == f.action()->end
            &&& f.after().len == f.len
        },
        f.len >= 131072 && f.offset == f.len ==> f.action() == FeedAction::Finish,
{
}

/// How many bytes a number of reads brought.
pub open spec fn bytes_read(reads: Seq<usize>) -> nat
    decreases reads.len(),
{
    if reads.len() == 0 {
        0
    } else {
        bytes_read(reads.drop_last()) + reads.last() as nat
    }
}

/// The progress after a number of reads.
pub open spec fn after_reads(progress: ReadProgress, reads: Seq<usize>) -> ReadProgress
    decreases reads.len(),
{
    if reads.len() == 0 {
        progress
    } else {
        after_reads(progress, reads.drop_last()).after(reads.last())
    }
}

/// A read is fed whole, and is followed by a yield exactly when what was read since the last yield
/// reaches the threshold; the count starts anew then. A read that brings nothing is the end.
pub proof fn law_yield_at_the_threshold(reads: Seq<usize>, n: usize)
    requires
        bytes_read(reads) < 131072,
        0 < n <= 32768,
    ensures
        ({
            let progress = after_reads(ReadProgress { since_yield: 0 }, reads);
            &&& progress.action(n) == (ReadAction::Process {
                len: n,
                then_yield: bytes_read(reads) + n >= 131072,
            })
            &&& progress.action(0) == ReadAction::Finish
            &&& bytes_read(reads) + n >= 131072 ==> progress.after(n) == (ReadProgress {
                since_yield: 0,
            })
        }),
{
    lemma_counted(reads);
}

proof fn lemma_counted(reads: Seq<usize>)
    requires
        bytes_read(reads) < 131072,
    ensures
        after_reads(ReadProgress { since_yield: 0 }, reads).since_yield == bytes_read(reads),
    decreases reads.len(),
{
    if reads.len() > 0 {
        lemma_counted(reads.drop_last());
    }
}

/// Calls are made in the order of the list, each once, as long as none fails.
pub proof fn law_calls_are_made_in_order<E>(count: nat, made: nat, e: E)
    requires
        count <= usize::MAX,
    ensures
        made < count ==> crate::calls::replay_step(count, made, Ok::<(), E>(()))
            == crate::calls::Replay::<E>::Call(made as usize),
        made >= count ==> crate::calls::replay_step(count, made, Ok::<(), E>(()))
            == crate::calls::Replay::<E>::Done(Ok(())),
        crate::calls::replay_step(count, made, Err::<(), E>(e)) == crate::calls::Replay::<E>::Done(
            Err(e),
        ),
{
}

} // verus!
