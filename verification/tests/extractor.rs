use llm_readability::extractor::{
    compose_page, pick_candidate, Feed, FeedAction, ReadAction, ReadProgress, ReadStep, ASYNC_BYTE_THRESHOLD,
    STREAM_READ_CHUNK,
};
use llm_readability::interface::Handle;
use llm_readability::scorer::{score_at_most, top_candidate, Candidate};

#[test]
fn a_page_has_head_and_body() {
    let expected = "<html class=\"paper\" lang=\"en\"><head>\n\
<meta name=\"disabled-adaptations\" content=\"watch\">\n\
<meta http-equiv=\"Content-Type\" content=\"text/html; charset=utf-8\">\n\
<meta name=\"viewport\" content=\"initial-scale=1\">\n\
<base href=\"https://example.com/\">\n\
<title>News</title>\n\
<script>window.isReaderPage = true;</script>\n\
</head><body>\n\
<p>x</p></body></html>";
    assert_eq!(compose_page("en", "News", "https://example.com/", "<p>x</p>"), expected);
}

#[test]
fn a_page_without_language_and_title() {
    let expected = "<html class=\"paper\"><head>\n\
<meta name=\"disabled-adaptations\" content=\"watch\">\n\
<meta http-equiv=\"Content-Type\" content=\"text/html; charset=utf-8\">\n\
<meta name=\"viewport\" content=\"initial-scale=1\">\n\
<base href=\"https://example.com/\">\n\
\n\
<script>window.isReaderPage = true;</script>\n\
</head><body>\n\
</body></html>";
    assert_eq!(compose_page("", "", "https://example.com/", ""), expected);
}

#[test]
fn scores_are_ordered_like_doubles() {
    let values = [
        0.0,
        -0.0,
        1.0,
        -1.0,
        0.5,
        -0.5,
        25.75,
        f64::MIN_POSITIVE,
        f64::MAX,
        f64::MIN,
        f64::INFINITY,
        f64::NEG_INFINITY,
        f64::NAN,
        -f64::NAN,
    ];
    for a in values {
        for b in values {
            assert_eq!(score_at_most(a.to_bits(), b.to_bits()), a <= b, "{} <= {}", a, b);
        }
    }
}

fn candidates(scores: &[f64]) -> Vec<Candidate> {
    scores
        .iter()
        .enumerate()
        .map(|(i, s)| Candidate { id: format!("/{}", i), node: Handle(i + 1), score: s.to_bits() })
        .collect()
}

#[test]
fn the_greatest_score_wins_and_the_first_of_equals() {
    assert_eq!(top_candidate(&candidates(&[1.0, 7.5, 3.0, 7.5])), Some(1));
    assert_eq!(
        pick_candidate(&candidates(&[1.0, 7.5, 3.0, 7.5]), Handle(0)),
        ("/1".to_string(), Handle(2))
    );
}

#[test]
fn the_document_is_picked_where_no_score_is_positive() {
    assert_eq!(top_candidate(&candidates(&[])), None);
    assert_eq!(top_candidate(&candidates(&[0.0, -3.0])), None);
    assert_eq!(pick_candidate(&candidates(&[0.0, -3.0]), Handle(0)), ("/".to_string(), Handle(0)));
}

#[test]
fn what_is_not_a_number_is_taken_and_beaten_at_once() {
    assert_eq!(top_candidate(&candidates(&[5.0, f64::NAN])), Some(1));
    assert_eq!(top_candidate(&candidates(&[5.0, f64::NAN, -2.0, -1.0, -1.0])), Some(3));
}

fn fed(len: usize) -> Vec<(usize, usize, bool)> {
    let mut feed = Feed::new(len);
    let mut pieces = Vec::new();
    loop {
        match feed.advance() {
            FeedAction::Process { start, end, then_yield } => pieces.push((start, end, then_yield)),
            FeedAction::Finish => return pieces,
        }
    }
}

#[test]
fn short_input_is_fed_at_once() {
    assert_eq!(fed(0), vec![(0, 0, false)]);
    assert_eq!(fed(10), vec![(0, 10, false)]);
    assert_eq!(fed(ASYNC_BYTE_THRESHOLD - 1), vec![(0, ASYNC_BYTE_THRESHOLD - 1, false)]);
}

#[test]
fn long_input_is_fed_in_pieces() {
    assert_eq!(
        fed(131072),
        vec![(0, 32768, true), (32768, 65536, true), (65536, 98304, true), (98304, 131072, true)]
    );
    assert_eq!(
        fed(131073),
        vec![
            (0, 32768, true),
            (32768, 65536, true),
            (65536, 98304, true),
            (98304, 131072, true),
            (131072, 131073, true)
        ]
    );
}

#[test]
fn the_pieces_are_the_input() {
    let bytes: Vec<u8> = (0..300_000).map(|i| (i % 251) as u8).collect();
    let mut joined: Vec<u8> = Vec::new();
    for (start, end, _) in fed(bytes.len()) {
        joined.extend_from_slice(&bytes[start..end]);
    }
    assert_eq!(joined, bytes);
}

#[test]
fn reading_yields_when_the_threshold_is_reached() {
    let mut progress = ReadProgress::new();
    let chunk = STREAM_READ_CHUNK;
    for _ in 0..2 {
        for then_yield in [false, false, false, true] {
            assert_eq!(progress.on_read(chunk), ReadAction::Process { len: chunk, then_yield });
        }
        assert_eq!(progress.since_yield, 0);
    }
    assert_eq!(progress.on_read(1), ReadAction::Process { len: 1, then_yield: false });
    assert_eq!(progress.since_yield, 1);
}

#[test]
fn no_bytes_end_the_input() {
    let mut progress = ReadProgress::new();
    assert_eq!(progress.on_read(5), ReadAction::Process { len: 5, then_yield: false });
    assert_eq!(progress.on_read(0), ReadAction::Finish);
    assert_eq!(progress.since_yield, 5);
}

#[test]
fn every_read_is_fed_whole_and_in_turn() {
    let bytes: Vec<u8> = (0..200_000).map(|i| (i % 253) as u8).collect();
    let sizes = [1, 32768, 777, 20000, 32768, 5, 32768];
    let mut progress = ReadProgress::new();
    let mut fed: Vec<u8> = Vec::new();
    let mut offset = 0;
    for turn in 0.. {
        let n = std::cmp::min(sizes[turn % sizes.len()], bytes.len() - offset);
        match progress.on_read(n) {
            ReadAction::Process { len, .. } => {
                assert_eq!(len, n);
                fed.extend_from_slice(&bytes[offset..offset + len]);
                offset += n;
            }
            ReadAction::Finish => break,
        }
    }
    assert_eq!(fed, bytes);
}

#[test]
fn the_first_read_error_is_the_outcome() {
    let replies: [Result<usize, &str>; 5] = [Ok(32768), Ok(10), Err("lost"), Ok(7), Ok(0)];
    let mut progress = ReadProgress::new();
    let mut fed = Vec::new();
    let mut outcome = None;
    for reply in replies {
        match progress.on_reply(reply) {
            ReadStep::Process { len, .. } => fed.push(len),
            ReadStep::Done(r) => {
                outcome = Some(r);
                break;
            }
        }
    }
    assert_eq!(fed, vec![32768, 10]);
    assert_eq!(outcome, Some(Err("lost")));
    assert_eq!(progress.since_yield, 32778);
}

#[test]
fn the_end_of_the_input_is_no_error() {
    let mut progress = ReadProgress::new();
    let reply: Result<usize, String> = Ok(0);
    assert!(matches!(progress.on_reply(reply), ReadStep::Done(Ok(()))));
}
