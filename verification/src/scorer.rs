//! Scores of nodes, and rules on the links of a page.

use crate::dom::{
    attribute_value, get_attr, node_attributes, set_attr, with_attribute_value, with_node_attributes,
};
use crate::guarantees::law_link_is_resolved;
use crate::interface::{optional_text, Handle};
use crate::model::DomView;
use crate::rcdom::RcDom;
use vstd::prelude::*;

verus! {

// ---- scores ----

/// A score: the bits of an IEEE 754 double. [`at_most`] orders scores as `<=` orders doubles.
pub type Score = u64;

/// The bits of positive zero.
pub const ZERO: Score = 0;

const SIGN: u64 = 0x8000_0000_0000_0000;

const INFINITY: u64 = 0x7ff0_0000_0000_0000;

/// The exponent and the fraction of a score, as one number.
pub open spec fn magnitude(score: Score) -> int {
    if score < 0x8000_0000_0000_0000 {
        score as int
    } else {
        score - 0x8000_0000_0000_0000
    }
}

/// Whether a score is not a number.
pub open spec fn is_nan(score: Score) -> bool {
    magnitude(score) > 0x7ff0_0000_0000_0000
}

/// Where a score that is a number stands among the others.
pub open spec fn rank(score: Score) -> int {
    if score < 0x8000_0000_0000_0000 {
        magnitude(score)
    } else {
        -magnitude(score)
    }
}

/// Whether both scores are numbers and the first is no greater than the second.
pub open spec fn at_most(a: Score, b: Score) -> bool {
    !is_nan(a) && !is_nan(b) && rank(a) <= rank(b)
}

/// Whether both scores are numbers and the first is no greater than the second.
pub fn score_at_most(a: Score, b: Score) -> (r: bool)
    ensures
        r == at_most(a, b),
{
    let a_magnitude: u64 = if a < SIGN {
        a
    } else {
        a - SIGN
    };
    let b_magnitude: u64 = if b < SIGN {
        b
    } else {
        b - SIGN
    };
    if a_magnitude > INFINITY || b_magnitude > INFINITY {
        false
    } else if a < SIGN {
        if b < SIGN {
            a_magnitude <= b_magnitude
        } else {
            a_magnitude == 0 && b_magnitude == 0
        }
    } else {
        b < SIGN || b_magnitude <= a_magnitude
    }
}

/// A node that may hold the content of a page.
#[derive(Debug)]
pub struct Candidate {
    /// The path of the node.
    pub id: String,
    pub node: Handle,
    pub score: Score,
}

/// The scores of candidates.
pub open spec fn scores(candidates: Seq<Candidate>) -> Seq<Score> {
    Seq::new(candidates.len(), |i: int| candidates[i].score)
}

/// Whether `top` is where the best of `scores` stands. A score is better than those that it is not
/// at most; the first of equal ones stays. The one to beat is zero, and anything beats what is not
/// a number, so only what comes after the last of these is compared.
pub open spec fn is_top(scores: Seq<Score>, top: Option<int>) -> bool {
    match top {
        None => forall|j: int| 0 <= j < scores.len() ==> at_most(#[trigger] scores[j], ZERO),
        Some(i) => wins(scores, i),
    }
}

/// Whether the `i`-th score beats those before it and is not beaten by those after it.
pub open spec fn wins(scores: Seq<Score>, i: int) -> bool {
    &&& 0 <= i < scores.len()
    &&& exists|lo: int| #[trigger] leads_from(scores, lo, i)
    &&& forall|j: int| i < j < scores.len() ==> at_most(#[trigger] scores[j], scores[i])
}

/// Whether the `i`-th score beats those before it from place `lo` on, and what was to beat there.
pub open spec fn leads_from(scores: Seq<Score>, lo: int, i: int) -> bool {
    &&& 0 <= lo <= i
    &&& if lo == 0 {
        !at_most(scores[i], ZERO)
    } else {
        is_nan(scores[lo - 1])
    }
    &&& forall|j: int| lo <= j < i ==> !at_most(scores[i], #[trigger] scores[j])
}

/// There is no more than one best score.
pub proof fn law_one_top(scores: Seq<Score>, a: Option<int>, b: Option<int>)
    requires
        is_top(scores, a),
        is_top(scores, b),
    ensures
        a == b,
{
    if let (Some(i), Some(j)) = (a, b) {
        lemma_top_not_later(scores, i, j);
        lemma_top_not_later(scores, j, i);
    }
    if let (Some(i), None) = (a, b) {
        lemma_top_is_not_none(scores, i);
    }
    if let (None, Some(j)) = (a, b) {
        lemma_top_is_not_none(scores, j);
    }
}

proof fn lemma_top_not_later(scores: Seq<Score>, i: int, j: int)
    requires
        is_top(scores, Some(i)),
        is_top(scores, Some(j)),
    ensures
        j <= i,
{
    if i < j {
        let lo = choose|lo: int| leads_from(scores, lo, j);
        assert(at_most(scores[j], scores[i]));
        if lo > i {
            if lo - 1 > i {
                assert(at_most(scores[lo - 1], scores[i]));
            }
        } else {
            assert(!at_most(scores[j], scores[i]));
        }
    }
}

proof fn lemma_top_is_not_none(scores: Seq<Score>, i: int)
    requires
        is_top(scores, Some(i)),
    ensures
        !is_top(scores, None),
{
    let lo = choose|lo: int| leads_from(scores, lo, i);
    if is_top(scores, None) {
        assert(at_most(scores[i], ZERO));
        if lo > 0 {
            assert(at_most(scores[lo - 1], ZERO));
        }
    }
}

/// Where every score is a number, the best one is the first of the greatest, if that is greater
/// than zero.
pub proof fn law_top_is_first_greatest(scores: Seq<Score>, top: Option<int>)
    requires
        is_top(scores, top),
        forall|j: int| 0 <= j < scores.len() ==> !is_nan(#[trigger] scores[j]),
    ensures
        match top {
            None => forall|j: int| 0 <= j < scores.len() ==> rank(#[trigger] scores[j]) <= 0,
            Some(i) => {
                &&& 0 <= i < scores.len()
                &&& rank(scores[i]) > 0
                &&& forall|j: int| 0 <= j < i ==> rank(#[trigger] scores[j]) < rank(scores[i])
                &&& forall|j: int|
                    i < j < scores.len() ==> rank(#[trigger] scores[j]) <= rank(scores[i])
            },
        },
{
    if let Some(i) = top {
        let lo = choose|lo: int| leads_from(scores, lo, i);
        assert(!is_nan(scores[i]));
        assert(lo == 0);
        assert forall|j: int| 0 <= j < i implies rank(#[trigger] scores[j]) < rank(scores[i]) by {
            assert(!at_most(scores[i], scores[j]));
        }
        assert forall|j: int|
            i < j < scores.len() implies rank(#[trigger] scores[j]) <= rank(scores[i]) by {
            assert(at_most(scores[j], scores[i]));
        }
    } else {
        assert forall|j: int| 0 <= j < scores.len() implies rank(#[trigger] scores[j]) <= 0 by {
            assert(at_most(scores[j], ZERO));
        }
    }
}

/// The best of the candidates, by its place in their order: the one whose score beats those before it and is not
/// beaten by those after it. None of them is the best if no score beats zero.
pub fn top_candidate(candidates: &Vec<Candidate>) -> (r: Option<usize>)
    ensures
        is_top(
            scores(candidates@),
            match r {
                Some(i) => Some(i as int),
                None => None,
            },
        ),
{
    let ghost all = scores(candidates@);
    let mut top: Option<usize> = None;
    let mut top_score: Score = ZERO;
    for i in 0..candidates.len()
        invariant
            all == scores(candidates@),
            top matches Some(t) ==> t < i && top_score == all[t as int],
            top is None ==> top_score == ZERO,
            is_top(
                all.take(i as int),
                match top {
                    Some(t) => Some(t as int),
                    None => None,
                },
            ),
    {
        let ghost now = all.take(i as int);
        let ghost next = all.take(i + 1);
        let score = candidates[i].score;
        assert(next =~= now.push(score));
        if score_at_most(score, top_score) {
            proof {
                if let Some(t) = top {
                    let lo = choose|lo: int| leads_from(now, lo, t as int);
                    assert(leads_from(next, lo, t as int));
                }
            }
        } else {
            proof {
                lemma_beaten(
                    now,
                    score,
                    match top {
                        Some(t) => Some(t as int),
                        None => None,
                    },
                );
            }
            top = Some(i);
            top_score = score;
        }
    }
    assert(all.take(all.len() as int) =~= all);
    top
}

/// A score that beats the best so far is the best then.
proof fn lemma_beaten(now: Seq<Score>, score: Score, top: Option<int>)
    requires
        is_top(now, top),
        !at_most(
            score,
            match top {
                Some(t) => now[t],
                None => ZERO,
            },
        ),
    ensures
        is_top(now.push(score), Some(now.len() as int)),
{
    let next = now.push(score);
    let n = now.len() as int;
    match top {
        None => {
            assert forall|j: int| 0 <= j < n implies !at_most(next[n], #[trigger] next[j]) by {
                assert(at_most(now[j], ZERO));
            }
            assert(leads_from(next, 0, n));
        },
        Some(t) => {
            assert forall|j: int| t < j < n implies !at_most(next[n], #[trigger] next[j]) by {
                assert(at_most(now[j], now[t]));
            }
            if is_nan(now[t]) {
                if t + 1 < n {
                    assert(at_most(now[t + 1], now[t]));
                }
                assert(next[t] == now[t]);
                assert(leads_from(next, t + 1, n));
            } else {
                let lo = choose|lo: int| leads_from(now, lo, t);
                assert forall|j: int| lo <= j < n implies !at_most(next[n], #[trigger] next[j]) by {
                    if j < t {
                        assert(!at_most(now[t], now[j]));
                    }
                }
                assert(leads_from(next, lo, n));
            }
        },
    }
    assert(wins(next, n));
}

// ---- links ----

/// Whether `text` begins with `prefix`.
pub open spec fn begins_with(text: Seq<char>, prefix: Seq<char>) -> bool {
    &&& prefix.len() <= text.len()
    &&& text.take(prefix.len() as int) == prefix
}

/// Whether a link stays on the site: it names neither a scheme of the web nor a host.
pub open spec fn is_local(url: Seq<char>) -> bool {
    &&& !begins_with(url, "//"@)
    &&& !begins_with(url, "http://"@)
    &&& !begins_with(url, "https://"@)
}

fn starts_with(text: &str, prefix: &str) -> (r: bool)
    ensures
        r == begins_with(text@, prefix@),
{
    let count = prefix.unicode_len();
    if text.unicode_len() < count {
        return false;
    }
    for i in 0..count
        invariant
            count == prefix@.len(),
            count <= text@.len(),
            forall|j: int| 0 <= j < i ==> text@[j] == prefix@[j],
    {
        if text.get_char(i) != prefix.get_char(i) {
            assert(text@.take(count as int)[i as int] != prefix@[i as int]);
            return false;
        }
    }
    assert(text@.take(count as int) =~= prefix@);
    true
}

/// Whether `url` stays on the site.
pub fn local_url(url: &str) -> (r: bool)
    ensures
        r == is_local(url@),
{
    !starts_with(url, "//") && !starts_with(url, "http://") && !starts_with(url, "https://")
}

/// The address that url's `Url::join` makes of a link on the page at `base`; none if `base` is no
/// address or the link cannot be resolved.
pub uninterp spec fn joined_url(base: Seq<char>, link: Seq<char>) -> Option<Seq<char>>;

/// Calls `url::Url::join` on `base`, read by `url::Url::parse`. Both are functions of the texts
/// that they are given.
#[verifier::external_body]
fn join_url(base: &str, link: &str) -> (r: Option<String>)
    ensures
        optional_text(r) == joined_url(base@, link@),
{
    let joined = url::Url::parse(base).ok()?.join(link).ok()?;
    Some(joined.into())
}

/// The document after the link in the attribute `attr_name` of `h` was resolved to `joined`: a link
/// that stays on the site is replaced if it could be resolved.
pub open spec fn with_resolved_link(
    d: DomView,
    h: Handle,
    attr_name: Seq<char>,
    joined: Option<Seq<char>>,
) -> DomView {
    match (attribute_value(node_attributes(d, h), attr_name), joined) {
        (Some(link), Some(address)) => if is_local(link) {
            with_node_attributes(
                d,
                h,
                with_attribute_value(node_attributes(d, h), attr_name, address),
            )
        } else {
            d
        },
        _ => d,
    }
}

/// Replaces the link in the attribute `attr_name` of a node, if it stays on the site, by `joined`,
/// what the link was resolved to. Says whether the node has that attribute.
pub fn resolve_link(
    dom: &mut RcDom,
    handle: Handle,
    attr_name: &str,
    joined: Option<String>,
) -> (r: bool)
    requires
        old(dom)@.wf(),
        old(dom)@.valid(handle),
    ensures
        r == attribute_value(node_attributes(old(dom)@, handle), attr_name@) is Some,
        final(dom)@ == with_resolved_link(old(dom)@, handle, attr_name@, optional_text(joined)),
        match (attribute_value(node_attributes(old(dom)@, handle), attr_name@), joined) {
            (Some(link), Some(address)) => {
                &&& is_local(link) ==> attribute_value(
                    node_attributes(final(dom)@, handle),
                    attr_name@,
                ) == Some(address@)
                &&& !is_local(link) ==> final(dom)@ == old(dom)@
            },
            _ => final(dom)@ == old(dom)@,
        },
        final(dom)@.wf(),
{
    proof {
        law_link_is_resolved(dom@, handle, attr_name@, optional_text(joined), attr_name@);
    }
    match get_attr(attr_name, dom, handle) {
        Some(link) => {
            if local_url(link.as_str()) {
                if let Some(address) = joined {
                    set_attr(attr_name, address.as_str(), dom, handle);
                }
            }
            true
        },
        None => false,
    }
}

fn fix_path(dom: &mut RcDom, handle: Handle, attr_name: &str, url: &str) -> (r: bool)
    requires
        old(dom)@.wf(),
        old(dom)@.valid(handle),
    ensures
        match attribute_value(node_attributes(old(dom)@, handle), attr_name@) {
            Some(link) => r && final(dom)@ == with_resolved_link(
                old(dom)@,
                handle,
                attr_name@,
                joined_url(url@, link),
            ),
            None => !r && final(dom)@ == old(dom)@,
        },
        match attribute_value(node_attributes(old(dom)@, handle), attr_name@) {
            Some(link) => match joined_url(url@, link) {
                Some(address) => {
                    &&& is_local(link) ==> attribute_value(
                        node_attributes(final(dom)@, handle),
                        attr_name@,
                    ) == Some(address)
                    &&& !is_local(link) ==> final(dom)@ == old(dom)@
                },
                None => final(dom)@ == old(dom)@,
            },
            None => final(dom)@ == old(dom)@,
        },
        final(dom)@.wf(),
{
    match get_attr(attr_name, dom, handle) {
        Some(link) => {
            let joined = join_url(url, link.as_str());
            resolve_link(dom, handle, attr_name, joined)
        },
        None => false,
    }
}

/// Makes the address of an image absolute: a `src` that stays on the site is resolved against the
/// address of the page. Says whether there is a `src`.
pub fn fix_img_path(dom: &mut RcDom, handle: Handle, url: &str) -> (r: bool)
    requires
        old(dom)@.wf(),
        old(dom)@.valid(handle),
    ensures
        match attribute_value(node_attributes(old(dom)@, handle), "src"@) {
            Some(link) => r && final(dom)@ == with_resolved_link(
                old(dom)@,
                handle,
                "src"@,
                joined_url(url@, link),
            ),
            None => !r && final(dom)@ == old(dom)@,
        },
        match attribute_value(node_attributes(old(dom)@, handle), "src"@) {
            Some(link) => match joined_url(url@, link) {
                Some(address) => {
                    &&& is_local(link) ==> attribute_value(
                        node_attributes(final(dom)@, handle),
                        "src"@,
                    ) == Some(address)
                    &&& !is_local(link) ==> final(dom)@ == old(dom)@
                },
                None => final(dom)@ == old(dom)@,
            },
            None => final(dom)@ == old(dom)@,
        },
        final(dom)@.wf(),
{
    fix_path(dom, handle, "src", url)
}

/// Makes the address of an anchor absolute: an `href` that stays on the site is resolved against
/// the address of the page. Says whether there is an `href`.
pub fn fix_anchor_path(dom: &mut RcDom, handle: Handle, url: &str) -> (r: bool)
    requires
        old(dom)@.wf(),
        old(dom)@.valid(handle),
    ensures
        match attribute_value(node_attributes(old(dom)@, handle), "href"@) {
            Some(link) => r && final(dom)@ == with_resolved_link(
                old(dom)@,
                handle,
                "href"@,
                joined_url(url@, link),
            ),
            None => !r && final(dom)@ == old(dom)@,
        },
        match attribute_value(node_attributes(old(dom)@, handle), "href"@) {
            Some(link) => match joined_url(url@, link) {
                Some(address) => {
                    &&& is_local(link) ==> attribute_value(
                        node_attributes(final(dom)@, handle),
                        "href"@,
                    ) == Some(address)
                    &&& !is_local(link) ==> final(dom)@ == old(dom)@
                },
                None => final(dom)@ == old(dom)@,
            },
            None => final(dom)@ == old(dom)@,
        },
        final(dom)@.wf(),
{
    fix_path(dom, handle, "href", url)
}

} // verus!
