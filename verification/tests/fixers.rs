use webmetro::chunk::{Chunk, ClusterHead};
use webmetro::fixers::{ChunkTimecodeFixer, StartingPointFinder};

fn head(keyframe: bool, start: u64, block_delta: i16) -> ClusterHead {
    let mut h = ClusterHead::new(start);
    h.keyframe = keyframe;
    h.observe_simpleblock_timecode(block_delta);
    h
}

#[test]
fn fixer_passes_rising_timecodes_through() {
    let mut fixer = ChunkTimecodeFixer::new();
    match fixer.process(Chunk::ClusterHead(head(false, 1000, 33))) {
        Chunk::ClusterHead(h) => {
            assert_eq!(h.start, 1000);
            assert_eq!(h.end, 1033);
        },
        other => panic!("expected cluster head, got {:?}", other),
    }
    match fixer.process(Chunk::ClusterHead(head(false, 2000, 0))) {
        Chunk::ClusterHead(h) => {
            assert_eq!(h.start, 2000);
            assert_eq!(h.end, 2000);
        },
        other => panic!("expected cluster head, got {:?}", other),
    }
}

#[test]
fn fixer_rebases_backward_jumps() {
    let mut fixer = ChunkTimecodeFixer::new();
    fixer.process(Chunk::ClusterHead(head(false, 1000, 33)));
    // the input restarts near zero; the fixer re-bases just past 1033
    match fixer.process(Chunk::ClusterHead(head(false, 500, 0))) {
        Chunk::ClusterHead(h) => {
            assert_eq!(h.start, 1066);
            assert_eq!(h.end, 1066);
        },
        other => panic!("expected cluster head, got {:?}", other),
    }
    // a start still below the last observed end re-bases once more
    match fixer.process(Chunk::ClusterHead(head(false, 600, 0))) {
        Chunk::ClusterHead(h) => {
            assert_eq!(h.start, 1099);
        },
        other => panic!("expected cluster head, got {:?}", other),
    }
}

#[test]
fn fixer_emits_non_decreasing_starts() {
    let mut fixer = ChunkTimecodeFixer::new();
    let inputs = [(900u64, 10i16), (100, 0), (50, 5), (4000, 33), (0, 0)];
    let mut last_start = 0u64;
    for (start, delta) in inputs {
        match fixer.process(Chunk::ClusterHead(head(false, start, delta))) {
            Chunk::ClusterHead(h) => {
                assert!(h.start >= last_start);
                assert!(h.end >= h.start);
                last_start = h.start;
            },
            other => panic!("expected cluster head, got {:?}", other),
        }
    }
}

#[test]
fn fixer_leaves_other_chunks_alone() {
    let mut fixer = ChunkTimecodeFixer::new();
    let headers = Chunk::Headers { bytes: vec![1, 2, 3] };
    assert_eq!(fixer.process(headers.clone()), headers);
    let body = Chunk::ClusterBody { bytes: vec![4, 5] };
    assert_eq!(fixer.process(body.clone()), body);
}

#[test]
fn finder_holds_chunks_until_keyframe() {
    let mut finder = StartingPointFinder::new();
    assert!(finder.process(Chunk::Headers { bytes: vec![1] }).is_empty());
    assert!(finder.process(Chunk::ClusterHead(head(false, 10, 0))).is_empty());
    assert!(finder.process(Chunk::ClusterBody { bytes: vec![9] }).is_empty());
    let out = finder.process(Chunk::ClusterHead(head(true, 20, 0)));
    assert_eq!(out.len(), 2);
    match &out[0] {
        Chunk::Headers { bytes } => assert_eq!(bytes, &vec![1]),
        other => panic!("expected the retained headers first, got {:?}", other),
    }
    match &out[1] {
        Chunk::ClusterHead(h) => assert!(h.keyframe),
        other => panic!("expected the keyframe cluster head, got {:?}", other),
    }
    // once unlocked, everything flows through unchanged
    let body = Chunk::ClusterBody { bytes: vec![7, 7] };
    assert_eq!(finder.process(body.clone()), vec![body]);
    let heads = Chunk::Headers { bytes: vec![2] };
    assert_eq!(finder.process(heads.clone()), vec![heads]);
}

#[test]
fn finder_keeps_most_recent_headers() {
    let mut finder = StartingPointFinder::new();
    assert!(finder.process(Chunk::Headers { bytes: vec![1] }).is_empty());
    assert!(finder.process(Chunk::Headers { bytes: vec![2] }).is_empty());
    let out = finder.process(Chunk::ClusterHead(head(true, 0, 0)));
    assert_eq!(out.len(), 2);
    match &out[0] {
        Chunk::Headers { bytes } => assert_eq!(bytes, &vec![2]),
        other => panic!("expected the latest headers, got {:?}", other),
    }
}

#[test]
fn finder_without_headers_emits_keyframe_alone() {
    let mut finder = StartingPointFinder::new();
    let out = finder.process(Chunk::ClusterHead(head(true, 0, 0)));
    assert_eq!(out.len(), 1);
    assert!(matches!(&out[0], Chunk::ClusterHead(_)));
}
