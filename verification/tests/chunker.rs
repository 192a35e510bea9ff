use webmetro::chunk::{Chunk, ClusterHead, WebmChunker, WebmStream};
use webmetro::error::WebmetroError;
use webmetro::stream_parser::{Async, EbmlCursor, EbmlEventSource};
use webmetro::webm::{encode_webm_element, SimpleBlock, WebmElement};

fn encoded(elems: &[WebmElement]) -> Vec<u8> {
    let mut out = Vec::new();
    for e in elems {
        encode_webm_element(e, &mut out);
    }
    out
}

fn chunker_over(elems: &[WebmElement]) -> WebmChunker<EbmlCursor> {
    EbmlCursor::new(encoded(elems)).chunk_webm()
}

fn poll_all(chunker: &mut WebmChunker<EbmlCursor>) -> (Vec<Chunk>, Option<WebmetroError>) {
    let mut out = Vec::new();
    loop {
        match chunker.poll() {
            Ok(Async::Ready(Some(chunk))) => out.push(chunk),
            Ok(Async::Ready(None)) => return (out, None),
            Ok(Async::NotReady) => panic!("cursor sources are always ready"),
            Err(e) => return (out, Some(e)),
        }
    }
}

#[test]
fn enough_space_for_header() {
    ClusterHead::new(u64::MAX);
}

#[test]
fn cluster_head_bytes_stay_small() {
    let head = ClusterHead::new(u64::MAX);
    assert!(head.as_ref().len() <= 16);
    let head = ClusterHead::new(0);
    assert!(head.as_ref().len() <= 16);
}

#[test]
fn empty_input_ends_immediately() {
    // S1: no input, no chunks
    let mut chunker = chunker_over(&[]);
    assert_eq!(chunker.poll(), Ok(Async::Ready(None)));
    assert_eq!(chunker.poll(), Ok(Async::Ready(None)));
}

#[test]
fn headers_then_eof_emits_nothing() {
    // S2: without a cluster marker no Headers chunk is ever emitted
    let mut chunker = chunker_over(&[
        WebmElement::EbmlHead,
        WebmElement::Segment,
        WebmElement::Tracks(vec![1, 2, 3]),
    ]);
    let (chunks, err) = poll_all(&mut chunker);
    assert!(chunks.is_empty());
    assert!(err.is_none());
}

#[test]
fn one_cluster() {
    // S3
    let mut chunker = chunker_over(&[
        WebmElement::EbmlHead,
        WebmElement::Segment,
        WebmElement::Tracks(vec![1, 2, 3]),
        WebmElement::Cluster,
        WebmElement::Timecode(1000),
        WebmElement::SimpleBlock(SimpleBlock { flags: 0x80, timecode: 0, data: vec![7] }),
        WebmElement::SimpleBlock(SimpleBlock { flags: 0, timecode: 33, data: vec![8] }),
    ]);
    let (chunks, err) = poll_all(&mut chunker);
    assert!(err.is_none());
    assert_eq!(chunks.len(), 3);
    match &chunks[0] {
        Chunk::Headers { bytes } => {
            let expected = encoded(&[
                WebmElement::EbmlHead,
                WebmElement::Segment,
                WebmElement::Tracks(vec![1, 2, 3]),
            ]);
            assert_eq!(bytes, &expected);
        },
        other => panic!("expected headers, got {:?}", other),
    }
    match &chunks[1] {
        Chunk::ClusterHead(head) => {
            assert!(head.keyframe);
            assert_eq!(head.start, 1000);
            assert_eq!(head.end, 1033);
        },
        other => panic!("expected cluster head, got {:?}", other),
    }
    match &chunks[2] {
        Chunk::ClusterBody { bytes } => {
            let expected = encoded(&[
                WebmElement::SimpleBlock(SimpleBlock { flags: 0x80, timecode: 0, data: vec![7] }),
                WebmElement::SimpleBlock(SimpleBlock { flags: 0, timecode: 33, data: vec![8] }),
            ]);
            assert_eq!(bytes, &expected);
        },
        other => panic!("expected cluster body, got {:?}", other),
    }
}

#[test]
fn two_clusters() {
    // S4
    let mut chunker = chunker_over(&[
        WebmElement::EbmlHead,
        WebmElement::Segment,
        WebmElement::Tracks(vec![1, 2, 3]),
        WebmElement::Cluster,
        WebmElement::Timecode(1000),
        WebmElement::SimpleBlock(SimpleBlock { flags: 0x80, timecode: 0, data: vec![7] }),
        WebmElement::SimpleBlock(SimpleBlock { flags: 0, timecode: 33, data: vec![8] }),
        WebmElement::Cluster,
        WebmElement::Timecode(2000),
        WebmElement::SimpleBlock(SimpleBlock { flags: 0, timecode: 0, data: vec![9] }),
    ]);
    let (chunks, err) = poll_all(&mut chunker);
    assert!(err.is_none());
    assert_eq!(chunks.len(), 5);
    match &chunks[3] {
        Chunk::ClusterHead(head) => {
            assert!(!head.keyframe);
            assert_eq!(head.start, 2000);
            assert_eq!(head.end, 2000);
        },
        other => panic!("expected cluster head, got {:?}", other),
    }
    assert!(matches!(&chunks[4], Chunk::ClusterBody { .. }));
}

#[test]
fn mid_stream_restart() {
    // S5: a new EbmlHead mid-cluster flushes the pending cluster first and
    // begins the next header prefix with the restart element already buffered
    let mut chunker = chunker_over(&[
        WebmElement::EbmlHead,
        WebmElement::Segment,
        WebmElement::Cluster,
        WebmElement::Timecode(500),
        WebmElement::SimpleBlock(SimpleBlock { flags: 0x80, timecode: 0, data: vec![7] }),
        WebmElement::EbmlHead,
        WebmElement::Segment,
        WebmElement::Cluster,
        WebmElement::Timecode(0),
    ]);
    let (chunks, err) = poll_all(&mut chunker);
    assert!(err.is_none());
    assert_eq!(chunks.len(), 6);
    match &chunks[1] {
        Chunk::ClusterHead(head) => {
            assert_eq!(head.start, 500);
            assert_eq!(head.end, 500);
        },
        other => panic!("expected cluster head, got {:?}", other),
    }
    assert!(matches!(&chunks[2], Chunk::ClusterBody { .. }));
    match &chunks[3] {
        Chunk::Headers { bytes } => {
            let expected = encoded(&[WebmElement::EbmlHead, WebmElement::Segment]);
            assert_eq!(bytes, &expected);
        },
        other => panic!("expected new headers after restart, got {:?}", other),
    }
    assert!(matches!(&chunks[4], Chunk::ClusterHead(_)));
    assert!(matches!(&chunks[5], Chunk::ClusterBody { .. }));
}

#[test]
fn source_limit_breach_errors_then_ends() {
    // S6: a 2000-byte element against a 1024-byte soft limit
    let bytes = encoded(&[WebmElement::Tracks(vec![0x55; 2000])]);
    let cursor = EbmlCursor::new(bytes).with_soft_limit(1024);
    let mut chunker = cursor.chunk_webm();
    assert_eq!(chunker.poll(), Err(WebmetroError::ResourcesExceeded));
    assert_eq!(chunker.poll(), Ok(Async::Ready(None)));
}

#[test]
fn chunker_limit_breach_errors_then_ends() {
    // the chunker's own limit: checked before each write, so the write after
    // the buffer reaches the limit fails and the stream ends
    let bytes = encoded(&[
        WebmElement::Tracks(vec![0x55; 20]),
        WebmElement::Tracks(vec![0x66; 3]),
    ]);
    let mut chunker = EbmlCursor::new(bytes).chunk_webm().with_soft_limit(10);
    assert_eq!(chunker.poll(), Err(WebmetroError::ResourcesExceeded));
    assert_eq!(chunker.poll(), Ok(Async::Ready(None)));
}

#[test]
fn output_bytes_round_trip_to_stripped_input() {
    // feeding the chunker's output bytes back through the event source gives
    // the input events minus the stripped ones
    let input = vec![
        WebmElement::EbmlHead,
        WebmElement::Info,
        WebmElement::Segment,
        WebmElement::Void,
        WebmElement::Tracks(vec![1, 2, 3]),
        WebmElement::Cluster,
        WebmElement::Timecode(1000),
        WebmElement::SimpleBlock(SimpleBlock { flags: 0x80, timecode: 0, data: vec![7] }),
        WebmElement::Cluster,
        WebmElement::Timecode(2000),
        WebmElement::SimpleBlock(SimpleBlock { flags: 0, timecode: 5, data: vec![9] }),
    ];
    let mut chunker = chunker_over(&input);
    let (chunks, err) = poll_all(&mut chunker);
    assert!(err.is_none());
    let mut replay = Vec::new();
    for c in &chunks {
        replay.extend_from_slice(c.as_ref());
    }
    let mut cursor = EbmlCursor::new(replay);
    let mut events = Vec::new();
    loop {
        match cursor.poll_event() {
            Ok(Async::Ready(Some(e))) => events.push(e),
            Ok(Async::Ready(None)) => break,
            other => panic!("unexpected outcome {:?}", other),
        }
    }
    let expected: Vec<WebmElement> = input
        .into_iter()
        .filter(|e| {
            !matches!(e, WebmElement::Info | WebmElement::Void | WebmElement::Unknown(_))
        })
        .collect();
    assert_eq!(events, expected);
}
