# llm_readability

Extracts the readable part of a web page. The core is a Verus library whose behaviour is stated in
contracts and proved.

- `src/rcdom.rs`, `src/selectedcontent.rs`: the document tree that an HTML parser builds, an arena of
  nodes that name one another by handle.
- `src/model.rs`: the mathematical model of a document that the contracts speak of.
- `src/lemmas.rs`, `src/laws.rs`: what every step of tree construction keeps, and what undoes what.
- `src/dropping.rs`: what becomes of a document when the last handle of a node is given up.
- `src/calls.rs`: the calls that write a node to a serializer.
- `src/html.rs`: the HTML that a node is written as.
- `src/dom.rs`, `src/scorer.rs`: attributes, links, scores, and the choice of the best candidate.
- `src/extractor.rs`: the reader page, and how input is fed to the parser piece by piece.
- `src/shape.rs`: checks of the shape of a document, for callers that have to test a precondition.
- `src/error.rs`: what can go wrong.
- `app/`: reading, parsing and the asynchronous entry points, in ordinary Rust. The heuristics that
  find, rate and clean the nodes of a page are not part of this project: a caller supplies them as
  an implementation of the trait `Scorer`.

Calls into html5ever's serializer, auto_encoder and url stand behind functions marked
`external_body`; the comment above each of them says what is taken on trust.
