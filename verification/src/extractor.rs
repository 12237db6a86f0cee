//! From the best node of a document to a reader page.

use crate::error::Error;
use crate::calls::{all_writable, SerializableHandle, TraversalScope};
use crate::guarantees::{law_content_is_all_children, law_picked_is_the_candidate};
use crate::html::{fragment, serialize};
use crate::interface::Handle;
use crate::model::DomView;
use crate::rcdom::RcDom;
use crate::scorer::{is_top, scores, top_candidate, Candidate};
use vstd::prelude::*;
use vstd::utf8::encode_utf8;

verus! {

/// What was extracted from a page.
#[derive(Debug)]
pub struct Product {
    /// The HTML content.
    pub content: String,
    /// The text content raw.
    pub text: String,
}

// ---- the reader page ----

/// The language attribute of a reader page.
pub open spec fn lang_html(lang: Seq<char>) -> Seq<char> {
    if lang.len() == 0 {
        ""@
    } else {
        " lang=\""@ + lang + "\""@
    }
}

/// The title element of a reader page.
pub open spec fn title_html(title: Seq<char>) -> Seq<char> {
    if title.len() == 0 {
        ""@
    } else {
        "<title>"@ + title + "</title>"@
    }
}

/// A reader page: a head that names the language, the base address and the title, and `content`
/// as the body.
pub open spec fn page_html(
    lang: Seq<char>,
    title: Seq<char>,
    url: Seq<char>,
    content: Seq<char>,
) -> Seq<char> {
    "<html class=\"paper\""@ + lang_html(lang)
        + "><head>\n<meta name=\"disabled-adaptations\" content=\"watch\">\n<meta http-equiv=\"Content-Type\" content=\"text/html; charset=utf-8\">\n<meta name=\"viewport\" content=\"initial-scale=1\">\n<base href=\""@
        + url + "\">\n"@ + title_html(title)
        + "\n<script>window.isReaderPage = true;</script>\n</head><body>\n"@ + content
        + "</body></html>"@
}

/// Puts a reader page together. The four texts stand in the page as they are.
pub fn compose_page(lang: &str, title: &str, url: &str, content: &str) -> (r: String)
    ensures
        r@ == page_html(lang@, title@, url@, content@),
{
    let mut page: String = "<html class=\"paper\"".to_owned();
    if lang.unicode_len() > 0 {
        page.append(" lang=\"");
        page.append(lang);
        page.append("\"");
    } else {
        page.append("");
    }
    assert(page@ =~= "<html class=\"paper\""@ + lang_html(lang@));
    page.append(
        "><head>\n<meta name=\"disabled-adaptations\" content=\"watch\">\n<meta http-equiv=\"Content-Type\" content=\"text/html; charset=utf-8\">\n<meta name=\"viewport\" content=\"initial-scale=1\">\n<base href=\"",
    );
    page.append(url);
    page.append("\">\n");
    let ghost before_title = page@;
    if title.unicode_len() > 0 {
        page.append("<title>");
        page.append(title);
        page.append("</title>");
    } else {
        page.append("");
    }
    assert(page@ =~= before_title + title_html(title@));
    page.append("\n<script>window.isReaderPage = true;</script>\n</head><body>\n");
    page.append(content);
    page.append("</body></html>");
    page
}

/// The text that auto_encoder's `auto_encode_bytes` makes of bytes.
pub uninterp spec fn auto_encoded(bytes: Seq<u8>) -> Seq<char>;

/// Calls `auto_encoder::auto_encode_bytes`, which decodes bytes in the encoding that they declare
/// or, if they declare none, in the one that they look like. The text is a function of the bytes;
/// no bytes give no text.
#[verifier::external_body]
fn auto_encode_bytes(bytes: &Vec<u8>) -> (r: String)
    ensures
        r@ == auto_encoded(bytes@),
        bytes@.len() == 0 ==> r@.len() == 0,
{
    auto_encoder::auto_encode_bytes(bytes.as_slice())
}

/// The bytes that the children of `node` are written as.
pub open spec fn content_bytes(d: DomView, node: Handle) -> Seq<u8> {
    encode_utf8(fragment(d, node, TraversalScope::ChildrenOnly, (None, false)))
}

/// Whether the HTML under `node` can be written: the document is well-formed, no node of it is its
/// own descendant, and no `Document` node is to be written.
pub fn can_extract(dom: &RcDom, node: Handle) -> (r: bool)
    ensures
        r == {
            &&& dom@.wf()
            &&& dom@.valid(node)
            &&& dom@.finite_depth()
            &&& all_writable(dom@, node, TraversalScope::ChildrenOnly)
        },
{
    dom.is_well_formed() && node.0 < dom.node_count() && dom.has_finite_depth()
        && SerializableHandle::from(node).is_writable(dom, TraversalScope::ChildrenOnly)
}

/// Turns the chosen node of a document into a reader page: the HTML under the node becomes the
/// body of the page, and `text` is handed on as it is.
pub fn process_dom(
    dom: &RcDom,
    node: Handle,
    text: String,
    title: &str,
    lang: &str,
    url: &str,
) -> (r: Result<Product, Error>)
    requires
        dom@.wf(),
        dom@.finite_depth(),
        dom@.valid(node),
        all_writable(dom@, node, TraversalScope::ChildrenOnly),
    ensures
        r matches Ok(product) && product.text@ == text@ && product.content@ == page_html(
            lang@,
            title@,
            url@,
            auto_encoded(content_bytes(dom@, node)),
        ),
        r matches Ok(product) && product.content@ == page_html(
            lang@,
            title@,
            url@,
            auto_encoded(
                encode_utf8(
                    Seq::new(
                        dom@.children(node).len(),
                        |i: int|
                            fragment(
                                dom@,
                                dom@.children(node)[i],
                                TraversalScope::IncludeNode,
                                (None, false),
                            ),
                    ).flatten(),
                ),
            ),
        ),
        content_bytes(dom@, node).len() == 0 ==> (r matches Ok(product) && product.content@
            == page_html(lang@, title@, url@, ""@)),
{
    let bytes = serialize(dom, &SerializableHandle::from(node), TraversalScope::ChildrenOnly);
    let content = auto_encode_bytes(&bytes);
    proof {
        reveal_strlit("");
        assert(content@.len() == 0 ==> content@ =~= ""@);
        law_content_is_all_children(dom@, node);
    }
    Ok(Product { content: compose_page(lang, title, url, content.as_str()), text })
}

// ---- the node that is extracted ----

/// The path and the node that are extracted if `top` is where the best candidate stands.
pub open spec fn picked(
    candidates: Seq<Candidate>,
    top: Option<int>,
    document: Handle,
) -> (Seq<char>, Handle) {
    match top {
        Some(i) => (candidates[i].id@, candidates[i].node),
        None => ("/"@, document),
    }
}

/// The path and the node to extract: those of the best candidate, and else the document itself. The
/// candidates come in the order of their paths, so that of equal ones the one with the smallest path
/// is taken.
pub fn pick_candidate(candidates: &Vec<Candidate>, document: Handle) -> (r: (String, Handle))
    ensures
        exists|top: Option<int>| #[trigger]
            is_top(scores(candidates@), top) && (r.0@, r.1) == picked(
                candidates@,
                top,
                document,
            ),
        ({
            ||| exists|i: int|
                {
                    &&& 0 <= i < candidates@.len()
                    &&& is_top(scores(candidates@), Some(i))
                    &&& r.0@ == (#[trigger] candidates@[i]).id@
                    &&& r.1 == candidates@[i].node
                }
            ||| is_top(scores(candidates@), None) && r.0@ == "/"@ && r.1 == document
        }),
{
    let top = top_candidate(candidates);
    let ghost place = match top {
        Some(i) => Some(i as int),
        None => None,
    };
    assert(is_top(scores(candidates@), place));
    let r = match top {
        Some(i) => (candidates[i].id.clone(), candidates[i].node),
        None => ("/".to_owned(), document),
    };
    proof {
        law_picked_is_the_candidate(candidates@, place, document);
        assert((r.0@, r.1) == picked(candidates@, place, document));
        if let Some(i) = top {
            assert(r.0@ == candidates@[i as int].id@);
        }
    }
    r
}

// ---- feeding a parser piece by piece ----

/// From this size on, input is fed to the parser in pieces, with a yield after each of them.
pub const ASYNC_BYTE_THRESHOLD: usize = 128 * 1024;

/// The size of such a piece, and of the buffer that is read into.
pub const STREAM_READ_CHUNK: usize = 32 * 1024;

/// What to do next with input that is all there.
#[derive(Debug, Clone, Copy, PartialEq, Eq, Structural)]
pub enum FeedAction {
    /// Feed the bytes from `start` up to `end`, and then yield if `then_yield`.
    Process { start: usize, end: usize, then_yield: bool },
    /// There is nothing left to feed.
    Finish,
}

/// How far input that is all there has been fed.
#[derive(Debug, Clone, Copy, PartialEq, Eq, Structural)]
pub struct Feed {
    /// The length of the input.
    pub len: usize,
    /// How many bytes have been fed.
    pub offset: usize,
    /// Whether a piece has been fed, be it an empty one.
    pub started: bool,
}

impl Feed {
    /// No more has been fed than there is.
    pub open spec fn wf(self) -> bool {
        self.offset <= self.len
    }

    /// What comes next. Input below the threshold is fed in one piece, even if it is empty; longer
    /// input in pieces of one size but for the last, with a yield after each of them.
    pub open spec fn action(self) -> FeedAction {
        if self.len < ASYNC_BYTE_THRESHOLD {
            if self.started {
                FeedAction::Finish
            } else {
                FeedAction::Process { start: 0, end: self.len, then_yield: false }
            }
        } else if self.offset == self.len {
            FeedAction::Finish
        } else {
            let end = if self.offset + STREAM_READ_CHUNK < self.len {
                (self.offset + STREAM_READ_CHUNK) as usize
            } else {
                self.len
            };
            FeedAction::Process { start: self.offset, end, then_yield: true }
        }
    }

    /// How far the input has been fed after that.
    pub open spec fn after(self) -> Feed {
        match self.action() {
            FeedAction::Process { end, .. } => Feed { len: self.len, offset: end, started: true },
            FeedAction::Finish => self,
        }
    }

    /// What is fed of `bytes` from here on until there is nothing left, piece by piece.
    pub open spec fn pieces(self, bytes: Seq<u8>) -> Seq<Seq<u8>>
        decreases
            self.len - self.offset,
            if self.started {
                0int
            } else {
                1int
            },
        when self.wf()
    {
        match self.action() {
            FeedAction::Process { start, end, .. } => seq![bytes.subrange(start as int, end as int)]
                + self.after().pieces(bytes),
            FeedAction::Finish => Seq::empty(),
        }
    }

    /// Nothing has been fed of input of length `len`.
    pub fn new(len: usize) -> (r: Feed)
        ensures
            r == (Feed { len, offset: 0, started: false }),
            r.wf(),
    {
        Feed { len, offset: 0, started: false }
    }

    /// Says what comes next, and counts it as done.
    pub fn advance(&mut self) -> (r: FeedAction)
        requires
            old(self).wf(),
        ensures
            r == old(self).action(),
            *final(self) == old(self).after(),
            final(self).wf(),
    {
        let (start, end, then_yield) = if self.len < ASYNC_BYTE_THRESHOLD {
            if self.started {
                return FeedAction::Finish;
            }
            (0, self.len, false)
        } else if self.offset == self.len {
            return FeedAction::Finish;
        } else if self.len - self.offset > STREAM_READ_CHUNK {
            (self.offset, self.offset + STREAM_READ_CHUNK, true)
        } else {
            (self.offset, self.len, true)
        };
        self.offset = end;
        self.started = true;
        FeedAction::Process { start, end, then_yield }
    }
}

/// Fed from the beginning, the parser gets the input: the pieces, one after the other, are the
/// bytes, each of them once and in their order.
pub proof fn law_feed_is_complete(bytes: Seq<u8>, len: usize)
    requires
        bytes.len() == len,
    ensures
        (Feed { len, offset: 0, started: false }).pieces(bytes).flatten() == bytes,
{
    let f = Feed { len, offset: 0, started: false };
    if len < ASYNC_BYTE_THRESHOLD {
        reveal_with_fuel(Feed::pieces, 2);
        assert(bytes.subrange(0, len as int) =~= bytes);
        assert(f.pieces(bytes) =~= seq![bytes]);
        f.pieces(bytes).lemma_flatten_one_element();
    } else {
        lemma_long_feed(f, bytes);
        assert(bytes.skip(0) =~= bytes);
    }
}

/// What is left of long input is fed in full.
proof fn lemma_long_feed(f: Feed, bytes: Seq<u8>)
    requires
        f.wf(),
        bytes.len() == f.len,
        f.len >= ASYNC_BYTE_THRESHOLD,
    ensures
        f.pieces(bytes).flatten() == bytes.skip(f.offset as int),
    decreases f.len - f.offset,
{
    if f.offset < f.len {
        let g = f.after();
        lemma_long_feed(g, bytes);
        let first = bytes.subrange(f.offset as int, g.offset as int);
        let rest = g.pieces(bytes);
        assert(f.pieces(bytes) == seq![first] + rest);
        assert((seq![first] + rest).drop_first() =~= rest);
        assert(first + bytes.skip(g.offset as int) =~= bytes.skip(f.offset as int));
    } else {
        assert(f.pieces(bytes) =~= Seq::empty());
        assert(bytes.skip(f.offset as int) =~= Seq::empty());
    }
}

/// What to do next with input that is being read.
#[derive(Debug, Clone, Copy, PartialEq, Eq, Structural)]
pub enum ReadAction {
    /// Feed the first `len` bytes of the buffer, and then yield if `then_yield`.
    Process { len: usize, then_yield: bool },
    /// The input has ended.
    Finish,
}

/// How much input was fed since the last yield.
#[derive(Debug, Clone, Copy, PartialEq, Eq, Structural)]
pub struct ReadProgress {
    pub since_yield: usize,
}

impl ReadProgress {
    /// Input that would reach the threshold has been followed by a yield.
    pub open spec fn wf(self) -> bool {
        self.since_yield < ASYNC_BYTE_THRESHOLD
    }

    /// What comes next when `n` bytes were read. No bytes end the input.
    pub open spec fn action(self, n: usize) -> ReadAction {
        if n == 0 {
            ReadAction::Finish
        } else {
            ReadAction::Process {
                len: n,
                then_yield: self.since_yield + n >= ASYNC_BYTE_THRESHOLD,
            }
        }
    }

    /// How much was fed since the last yield after that.
    pub open spec fn after(self, n: usize) -> ReadProgress {
        if self.since_yield + n >= ASYNC_BYTE_THRESHOLD {
            ReadProgress { since_yield: 0 }
        } else {
            ReadProgress { since_yield: (self.since_yield + n) as usize }
        }
    }

    /// Nothing has been read.
    pub fn new() -> (r: ReadProgress)
        ensures
            r.since_yield == 0,
            r.wf(),
    {
        ReadProgress { since_yield: 0 }
    }

    /// Says what comes next when `n` bytes were read, and counts it as done.
    pub fn on_read(&mut self, n: usize) -> (r: ReadAction)
        requires
            old(self).wf(),
            n <= STREAM_READ_CHUNK,
        ensures
            r == old(self).action(n),
            *final(self) == old(self).after(n),
            final(self).wf(),
    {
        if n == 0 {
            return ReadAction::Finish;
        }
        self.since_yield = self.since_yield + n;
        let then_yield = self.since_yield >= ASYNC_BYTE_THRESHOLD;
        if then_yield {
            self.since_yield = 0;
        }
        ReadAction::Process { len: n, then_yield }
    }
}

impl ReadProgress {
    /// What is fed, piece by piece, where `reads` is what is read.
    pub open spec fn fed(self, reads: Seq<Seq<u8>>) -> Seq<Seq<u8>>
        decreases reads.len(),
    {
        if reads.len() == 0 {
            Seq::empty()
        } else {
            let n = reads.first().len() as usize;
            match self.action(n) {
                ReadAction::Process { len, .. } => seq![reads.first().take(len as int)]
                    + self.after(n).fed(reads.drop_first()),
                ReadAction::Finish => Seq::empty(),
            }
        }
    }
}

/// Whether each of `reads` brought something, and no more than the buffer holds.
pub open spec fn proper_reads(reads: Seq<Seq<u8>>) -> bool {
    forall|i: int| 0 <= i < reads.len() ==> 0 < (#[trigger] reads[i]).len() <= STREAM_READ_CHUNK
}

/// The bytes fed are the bytes read: every read is fed whole and in its turn, until one brings
/// nothing; that one ends the input, whatever comes after it.
pub proof fn law_reads_are_fed(
    progress: ReadProgress,
    reads: Seq<Seq<u8>>,
    later: Seq<Seq<u8>>,
)
    requires
        progress.wf(),
        proper_reads(reads),
    ensures
        progress.fed(reads + (seq![Seq::<u8>::empty()] + later)) == reads,
        progress.fed(reads + (seq![Seq::<u8>::empty()] + later)).flatten() == reads.flatten(),
    decreases reads.len(),
{
    let end = seq![Seq::<u8>::empty()] + later;
    let all = reads + end;
    if reads.len() == 0 {
        assert(all =~= end);
        assert(end.first().len() == 0);
        assert(progress.fed(all) =~= reads);
    } else {
        let first = reads.first();
        let rest = reads.drop_first();
        assert(0 < reads[0].len() <= STREAM_READ_CHUNK);
        assert forall|i: int| 0 <= i < rest.len() implies 0 < (#[trigger] rest[i]).len()
            <= STREAM_READ_CHUNK by {
            assert(rest[i] == reads[i + 1]);
        }
        assert(all.first() == first);
        assert(all.drop_first() =~= rest + end);
        assert(first.take(first.len() as int) =~= first);
        law_reads_are_fed(progress.after(first.len() as usize), rest, later);
        assert(seq![first] + rest =~= reads);
    }
}

/// What to do next with input that is being read, where reading can fail.
#[derive(Debug)]
pub enum ReadStep<E> {
    /// Feed the first `len` bytes of the buffer, and then yield if `then_yield`.
    Process { len: usize, then_yield: bool },
    /// No more is read: the input has ended, or reading it has failed.
    Done(Result<(), E>),
}

/// How many bytes a read brought.
pub open spec fn read_size<E>(reply: Result<Seq<u8>, E>) -> Result<usize, E> {
    match reply {
        Ok(bytes) => Ok(bytes.len() as usize),
        Err(e) => Err(e),
    }
}

impl ReadProgress {
    /// What comes next after a read: an error ends it, and is what comes out.
    pub open spec fn step<E>(self, reply: Result<usize, E>) -> ReadStep<E> {
        match reply {
            Ok(n) => match self.action(n) {
                ReadAction::Process { len, then_yield } => ReadStep::Process { len, then_yield },
                ReadAction::Finish => ReadStep::Done(Ok(())),
            },
            Err(e) => ReadStep::Done(Err(e)),
        }
    }

    /// Says what comes next after a read, and counts it as done.
    pub fn on_reply<E>(&mut self, reply: Result<usize, E>) -> (r: ReadStep<E>)
        requires
            old(self).wf(),
            reply matches Ok(n) ==> n <= STREAM_READ_CHUNK,
        ensures
            r == old(self).step(reply),
            *final(self) == match reply {
                Ok(n) => old(self).after(n),
                Err(_) => *old(self),
            },
            final(self).wf(),
    {
        match reply {
            Ok(n) => match self.on_read(n) {
                ReadAction::Process { len, then_yield } => ReadStep::Process { len, then_yield },
                ReadAction::Finish => ReadStep::Done(Ok(())),
            },
            Err(e) => ReadStep::Done(Err(e)),
        }
    }

    /// What is fed, piece by piece, and what comes out, where `replies` is what the reads give. While
    /// there was no end and no error, nothing has come out.
    pub open spec fn read_all<E>(self, replies: Seq<Result<Seq<u8>, E>>) -> (
        Seq<Seq<u8>>,
        Option<Result<(), E>>,
    )
        decreases replies.len(),
    {
        if replies.len() == 0 {
            (Seq::empty(), None)
        } else {
            match self.step(read_size(replies.first())) {
                ReadStep::Process { len, .. } => {
                    let bytes = replies.first()->Ok_0;
                    let (fed, outcome) = self.after(bytes.len() as usize).read_all(
                        replies.drop_first(),
                    );
                    (seq![bytes.take(len as int)] + fed, outcome)
                },
                ReadStep::Done(outcome) => (Seq::empty(), Some(outcome)),
            }
        }
    }
}

/// The first read that fails, or brings nothing, ends the input: what was read before it is fed,
/// whole and in turn, nothing is fed after it, and the error, if it is one, is what comes out.
pub proof fn law_first_read_error_is_the_outcome<E>(
    progress: ReadProgress,
    reads: Seq<Seq<u8>>,
    last: Result<Seq<u8>, E>,
    later: Seq<Result<Seq<u8>, E>>,
)
    requires
        progress.wf(),
        proper_reads(reads),
        last matches Ok(bytes) ==> bytes.len() == 0,
    ensures
        progress.read_all(Seq::new(reads.len(), |i: int| Ok(reads[i])) + (seq![last] + later)) == (
            reads,
            Some(
                match last {
                    Ok(_) => Ok::<(), E>(()),
                    Err(e) => Err(e),
                },
            ),
        ),
    decreases reads.len(),
{
    let good = Seq::new(reads.len(), |i: int| Ok::<Seq<u8>, E>(reads[i]));
    let end = seq![last] + later;
    let all = good + end;
    if reads.len() == 0 {
        assert(all =~= end);
        assert(all.first() == last);
        assert(Seq::<Seq<u8>>::empty() =~= reads);
    } else {
        let first = reads.first();
        let rest = reads.drop_first();
        assert(0 < reads[0].len() <= STREAM_READ_CHUNK);
        assert forall|i: int| 0 <= i < rest.len() implies 0 < (#[trigger] rest[i]).len()
            <= STREAM_READ_CHUNK by {
            assert(rest[i] == reads[i + 1]);
        }
        assert(all.first() == Ok::<Seq<u8>, E>(first));
        assert(all.drop_first() =~= Seq::new(rest.len(), |i: int| Ok::<Seq<u8>, E>(rest[i])) + end);
        assert(first.take(first.len() as int) =~= first);
        law_first_read_error_is_the_outcome(
            progress.after(first.len() as usize),
            rest,
            last,
            later,
        );
        assert(seq![first] + rest =~= reads);
    }
}

/// A parser that takes input in pieces: what becomes of a state when a piece is fed to it.
pub type Process<S> = spec_fn(S, Seq<u8>) -> S;

/// Whether the cut of the input does not show: two pieces in turn do what they do as one, and an
/// empty piece does nothing.
pub open spec fn cut_does_not_show<S>(process: Process<S>) -> bool {
    &&& forall|s: S, a: Seq<u8>, b: Seq<u8>| #[trigger]
        process(process(s, a), b) == process(s, a + b)
    &&& forall|s: S| #[trigger] process(s, Seq::empty()) == s
}

/// Pieces do what their bytes do.
pub proof fn law_pieces_as_one<S>(process: Process<S>, state: S, pieces: Seq<Seq<u8>>)
    requires
        cut_does_not_show(process),
    ensures
        pieces.fold_left(state, process) == process(state, pieces.flatten()),
    decreases pieces.len(),
{
    if pieces.len() == 0 {
        assert(pieces.flatten() =~= Seq::empty());
    } else {
        let before = pieces.drop_last();
        law_pieces_as_one(process, state, before);
        before.lemma_flatten_push(pieces.last());
        assert(before.push(pieces.last()) =~= pieces);
        assert(process(process(state, before.flatten()), pieces.last()) == process(
            state,
            before.flatten() + pieces.last(),
        ));
    }
}

/// The ways to feed a parser agree: input that is all there, and the same input in reads of any
/// sizes, leave a parser for which the cut does not show as the whole input at once does.
pub proof fn law_ways_to_feed_agree<S>(
    process: Process<S>,
    state: S,
    bytes: Seq<u8>,
    len: usize,
    reads: Seq<Seq<u8>>,
)
    requires
        cut_does_not_show(process),
        bytes.len() == len,
        proper_reads(reads),
        reads.flatten() == bytes,
    ensures
        (Feed { len, offset: 0, started: false }).pieces(bytes).fold_left(state, process) == process(
            state,
            bytes,
        ),
        (ReadProgress { since_yield: 0 }).fed(reads.push(Seq::empty())).fold_left(state, process)
            == process(state, bytes),
{
    let feed = Feed { len, offset: 0, started: false };
    let progress = ReadProgress { since_yield: 0 };
    law_feed_is_complete(bytes, len);
    law_pieces_as_one(process, state, feed.pieces(bytes));
    law_reads_are_fed(progress, reads, Seq::empty());
    assert(reads + (seq![Seq::<u8>::empty()] + Seq::<Seq<u8>>::empty()) =~= reads.push(
        Seq::empty(),
    ));
    law_pieces_as_one(process, state, reads);
}

} // verus!
