//! Chunk-stream repairs applied between the chunker and a listener: the
//! timecode fixer keeps cluster timecodes monotone across concatenated or
//! restarted inputs, and the starting-point filter holds chunks back until a
//! listener can join at a decodable keyframe boundary.

use vstd::prelude::*;
use crate::chunk::{
    Chunk, ChunkModel, ClusterHeadModel, cluster_head_wf, head_with_timecode, sat_add_u64,
};

verus! {

/// The offset the fixer applies from this cluster on: unchanged while input
/// timecodes keep rising, re-based just past the last observed end when the
/// input's timeline jumps backwards.
pub open spec fn fix_offset(start: u64, offset: u64, last: u64, dur: u64) -> u64 {
    if start < last {
        (sat_add_u64(last, dur as int) - start) as u64
    } else {
        offset
    }
}

/// The head the fixer emits for an incoming head `h`.
pub open spec fn fixer_emit(h: ClusterHeadModel, offset: u64, last: u64, dur: u64) -> ClusterHeadModel {
    head_with_timecode(h, sat_add_u64(h.start, fix_offset(h.start, offset, last, dur) as int))
}

/// Statefully rewrites each cluster head's timecodes so the outgoing
/// sequence of cluster starts never decreases; other chunks pass through
/// unchanged.
pub struct ChunkTimecodeFixer {
    current_offset: u64,
    last_observed_timecode: u64,
    assumed_duration: u64,
}

impl ChunkTimecodeFixer {
    /// The offset currently applied to incoming timecodes.
    pub closed spec fn offset_spec(&self) -> u64 {
        self.current_offset
    }

    /// The end timecode of the last cluster head that passed through.
    pub closed spec fn last_spec(&self) -> u64 {
        self.last_observed_timecode
    }

    /// The gap assumed between two clusters when the input restarts.
    pub closed spec fn dur_spec(&self) -> u64 {
        self.assumed_duration
    }

    pub fn new() -> (r: ChunkTimecodeFixer)
        ensures
            r.offset_spec() == 0,
            r.last_spec() == 0,
            r.dur_spec() == 33,
    {
        ChunkTimecodeFixer { current_offset: 0, last_observed_timecode: 0, assumed_duration: 33 }
    }

    /// Pass one chunk through, rewriting a cluster head's timecodes.
    pub fn process(&mut self, chunk: Chunk) -> (r: Chunk)
        requires
            match chunk@ {
                ChunkModel::ClusterHead(h) => h.end >= h.start,
                _ => true,
            },
        ensures
            final(self).dur_spec() == old(self).dur_spec(),
            match chunk@ {
                ChunkModel::ClusterHead(h) => {
                    let off2 = fix_offset(
                        h.start,
                        old(self).offset_spec(),
                        old(self).last_spec(),
                        old(self).dur_spec(),
                    );
                    let fixed = fixer_emit(
                        h,
                        old(self).offset_spec(),
                        old(self).last_spec(),
                        old(self).dur_spec(),
                    );
                    r@ == ChunkModel::ClusterHead(fixed) && cluster_head_wf(fixed)
                        && final(self).offset_spec() == off2 && final(self).last_spec()
                        == fixed.end && fixed.start >= old(self).last_spec()
                },
                _ => r@ == chunk@ && final(self).offset_spec() == old(self).offset_spec()
                    && final(self).last_spec() == old(self).last_spec(),
            },
    {
        match chunk {
            Chunk::ClusterHead(mut cluster_head) => {
                let start = cluster_head.start;
                if start < self.last_observed_timecode {
                    let next_timecode = if self.assumed_duration > u64::MAX
                        - self.last_observed_timecode {
                        u64::MAX
                    } else {
                        self.last_observed_timecode + self.assumed_duration
                    };
                    self.current_offset = next_timecode - start;
                }
                let new_start = if self.current_offset > u64::MAX - start {
                    u64::MAX
                } else {
                    start + self.current_offset
                };
                cluster_head.update_timecode(new_start);
                self.last_observed_timecode = cluster_head.end;
                Chunk::ClusterHead(cluster_head)
            },
            other => other,
        }
    }
}

/// What a whole sequence of cluster heads becomes under the fixer.
pub open spec fn fix_all(hs: Seq<ClusterHeadModel>, offset: u64, last: u64, dur: u64) -> Seq<
    ClusterHeadModel,
>
    decreases hs.len(),
{
    if hs.len() == 0 {
        Seq::empty()
    } else {
        let e = fixer_emit(hs[0], offset, last, dur);
        seq![e] + fix_all(
            hs.drop_first(),
            fix_offset(hs[0].start, offset, last, dur),
            e.end,
            dur,
        )
    }
}

/// The timecode fixer emits a non-decreasing sequence of cluster starts:
/// for any incoming sequence of well-formed heads, every emitted start lies
/// at or after the one before it (and at or after the fixer's last observed
/// end when it began).
pub proof fn lemma_fix_all_monotone(hs: Seq<ClusterHeadModel>, offset: u64, last: u64, dur: u64)
    requires
        forall|i: int| 0 <= i < hs.len() ==> (#[trigger] hs[i]).end >= hs[i].start,
    ensures
        fix_all(hs, offset, last, dur).len() == hs.len(),
        forall|i: int|
            0 <= i < hs.len() ==> (#[trigger] fix_all(hs, offset, last, dur)[i]).start >= last,
        forall|i: int|
            0 <= i && i + 1 < hs.len() ==> (#[trigger] fix_all(hs, offset, last, dur)[i]).start
                <= fix_all(hs, offset, last, dur)[i + 1].start,
    decreases hs.len(),
{
    if hs.len() > 0 {
        let e = fixer_emit(hs[0], offset, last, dur);
        let off2 = fix_offset(hs[0].start, offset, last, dur);
        let rest = fix_all(hs.drop_first(), off2, e.end, dur);
        assert(e.start >= last);
        assert(e.end >= e.start);
        lemma_fix_all_monotone(hs.drop_first(), off2, e.end, dur);
        let out = fix_all(hs, offset, last, dur);
        assert(out == seq![fixer_emit(hs[0], offset, last, dur)] + fix_all(
            hs.drop_first(),
            fix_offset(hs[0].start, offset, last, dur),
            fixer_emit(hs[0], offset, last, dur).end,
            dur,
        ));
        assert(out == seq![e] + rest);
        assert forall|i: int| 0 <= i < hs.len() implies (#[trigger] out[i]).start >= last by {
            if i == 0 {
            } else {
                assert(rest[i - 1].start >= e.end);
            }
        }
        assert forall|i: int| 0 <= i && i + 1 < hs.len() implies (#[trigger] out[i]).start <= out[
            i + 1].start by {
            if i == 0 {
                assert(rest[0].start >= e.end);
            } else {
                assert((seq![e] + rest)[i] == rest[i - 1]);
                assert((seq![e] + rest)[i + 1] == rest[i]);
                assert((i - 1) + 1 < rest.len());
                assert(rest[i - 1].start <= rest[(i - 1) + 1].start);
            }
        }
    }
}

/// Drops every chunk until the first cluster head carrying a keyframe; from
/// that point on everything flows through, preceded by the most recent
/// header prefix so a listener's decoder is initialized first.
pub struct StartingPointFinder {
    seen_keyframe: bool,
    buffered_header: Option<Vec<u8>>,
}

impl StartingPointFinder {
    /// Whether a keyframe cluster head has been seen.
    pub closed spec fn unlocked(&self) -> bool {
        self.seen_keyframe
    }

    /// The most recent header prefix, retained while locked.
    pub closed spec fn buffered(&self) -> Option<Seq<u8>> {
        match self.buffered_header {
            Option::Some(b) => Option::Some(b@),
            Option::None => Option::None,
        }
    }

    pub fn new() -> (r: StartingPointFinder)
        ensures
            !r.unlocked(),
            r.buffered() == Option::<Seq<u8>>::None,
    {
        StartingPointFinder { seen_keyframe: false, buffered_header: Option::None }
    }

    /// Pass one chunk through the filter; what comes out is owed to the
    /// listener in order.
    pub fn process(&mut self, chunk: Chunk) -> (out: Vec<Chunk>)
        ensures
            ({
                let outs = out@.map_values(|c: Chunk| c@);
                if old(self).unlocked() {
                    outs == seq![chunk@] && final(self).unlocked() && final(self).buffered()
                        == old(self).buffered()
                } else {
                    match chunk@ {
                        ChunkModel::Headers { bytes } => outs == Seq::<ChunkModel>::empty()
                            && !final(self).unlocked() && final(self).buffered()
                            == Option::Some(bytes),
                        ChunkModel::ClusterHead(h) => if h.keyframe {
                            final(self).unlocked() && final(self).buffered()
                                == Option::<Seq<u8>>::None && outs == match old(self).buffered() {
                                Option::Some(b) => seq![
                                    ChunkModel::Headers { bytes: b },
                                    chunk@,
                                ],
                                Option::None => seq![chunk@],
                            }
                        } else {
                            outs == Seq::<ChunkModel>::empty() && !final(self).unlocked()
                                && final(self).buffered() == old(self).buffered()
                        },
                        ChunkModel::ClusterBody { .. } => outs == Seq::<ChunkModel>::empty()
                            && !final(self).unlocked() && final(self).buffered() == old(
                            self,
                        ).buffered(),
                    }
                }
            }),
    {
        if self.seen_keyframe {
            let mut out: Vec<Chunk> = Vec::new();
            out.push(chunk);
            assert(out@.map_values(|c: Chunk| c@) =~= seq![chunk@]);
            return out;
        }
        match chunk {
            Chunk::Headers { bytes } => {
                self.buffered_header = Option::Some(bytes);
                let out: Vec<Chunk> = Vec::new();
                assert(out@.map_values(|c: Chunk| c@) =~= Seq::<ChunkModel>::empty());
                out
            },
            Chunk::ClusterHead(cluster_head) => {
                if cluster_head.keyframe {
                    self.seen_keyframe = true;
                    let mut out: Vec<Chunk> = Vec::new();
                    let mut buffered: Option<Vec<u8>> = Option::None;
                    core::mem::swap(&mut buffered, &mut self.buffered_header);
                    match buffered {
                        Option::Some(b) => {
                            out.push(Chunk::Headers { bytes: b });
                        },
                        Option::None => {},
                    }
                    out.push(Chunk::ClusterHead(cluster_head));
                    proof {
                        match old(self).buffered() {
                            Option::Some(b) => {
                                assert(out@.map_values(|c: Chunk| c@) =~= seq![
                                    ChunkModel::Headers { bytes: b },
                                    ChunkModel::ClusterHead(cluster_head@),
                                ]);
                            },
                            Option::None => {
                                assert(out@.map_values(|c: Chunk| c@) =~= seq![
                                    ChunkModel::ClusterHead(cluster_head@),
                                ]);
                            },
                        }
                    }
                    out
                } else {
                    let out: Vec<Chunk> = Vec::new();
                    assert(out@.map_values(|c: Chunk| c@) =~= Seq::<ChunkModel>::empty());
                    out
                }
            },
            Chunk::ClusterBody { .. } => {
                let out: Vec<Chunk> = Vec::new();
                assert(out@.map_values(|c: Chunk| c@) =~= Seq::<ChunkModel>::empty());
                out
            },
        }
    }
}

/// Whether a chunk is a cluster head that carries a keyframe: the boundary
/// at which a listener may join.
pub open spec fn is_keyframe_head(c: ChunkModel) -> bool {
    match c {
        ChunkModel::ClusterHead(h) => h.keyframe,
        _ => false,
    }
}

/// The index of the first keyframe cluster head in a chunk stream.
pub open spec fn first_keyframe(chunks: Seq<ChunkModel>) -> Option<int>
    decreases chunks.len(),
{
    if chunks.len() == 0 {
        Option::None
    } else if is_keyframe_head(chunks[0]) {
        Option::Some(0)
    } else {
        match first_keyframe(chunks.drop_first()) {
            Option::Some(k) => Option::Some(k + 1),
            Option::None => Option::None,
        }
    }
}

/// A first-keyframe index always points at a keyframe cluster head inside
/// the stream.
pub proof fn lemma_first_keyframe_in_range(chunks: Seq<ChunkModel>)
    ensures
        match first_keyframe(chunks) {
            Option::Some(k) => 0 <= k < chunks.len() && is_keyframe_head(chunks[k]),
            Option::None => true,
        },
    decreases chunks.len(),
{
    if chunks.len() > 0 && !is_keyframe_head(chunks[0]) {
        lemma_first_keyframe_in_range(chunks.drop_first());
    }
}

/// The header prefix most recently seen among the first `upto` chunks,
/// starting from `buffered`.
pub open spec fn latest_headers(chunks: Seq<ChunkModel>, upto: int, buffered: Option<Seq<u8>>) -> Option<Seq<u8>>
    decreases upto,
{
    if upto <= 0 || chunks.len() == 0 {
        buffered
    } else {
        latest_headers(
            chunks.drop_first(),
            upto - 1,
            match chunks[0] {
                ChunkModel::Headers { bytes } => Option::Some(bytes),
                _ => buffered,
            },
        )
    }
}

/// What the starting-point filter emits over a whole chunk stream: the
/// repeated application of `process`, at the model level.
pub open spec fn finder_outputs(chunks: Seq<ChunkModel>, unlocked: bool, buffered: Option<Seq<u8>>) -> Seq<ChunkModel>
    decreases chunks.len(),
{
    if chunks.len() == 0 {
        Seq::empty()
    } else {
        let c = chunks[0];
        let rest = chunks.drop_first();
        if unlocked {
            seq![c] + finder_outputs(rest, true, buffered)
        } else {
            match c {
                ChunkModel::Headers { bytes } => finder_outputs(rest, false, Option::Some(bytes)),
                ChunkModel::ClusterHead(h) => if h.keyframe {
                    (match buffered {
                        Option::Some(b) => seq![ChunkModel::Headers { bytes: b }, c],
                        Option::None => seq![c],
                    }) + finder_outputs(rest, true, Option::None)
                } else {
                    finder_outputs(rest, false, buffered)
                },
                ChunkModel::ClusterBody { .. } => finder_outputs(rest, false, buffered),
            }
        }
    }
}

/// Once unlocked, the filter passes everything through unchanged.
pub proof fn lemma_finder_unlocked_passes_all(chunks: Seq<ChunkModel>, buffered: Option<Seq<u8>>)
    ensures
        finder_outputs(chunks, true, buffered) == chunks,
    decreases chunks.len(),
{
    if chunks.len() > 0 {
        lemma_finder_unlocked_passes_all(chunks.drop_first(), buffered);
        assert(finder_outputs(chunks, true, buffered) =~= chunks);
    }
}

/// The starting-point filter emits nothing until the first cluster head
/// carrying a keyframe; from that chunk on it emits every chunk, preceded by
/// the most recent header prefix seen up to that point, so a listener's
/// decoder is initialized before media begins.
pub proof fn lemma_finder_starts_at_keyframe(chunks: Seq<ChunkModel>, buffered: Option<Seq<u8>>)
    ensures
        ({
            let out = finder_outputs(chunks, false, buffered);
            match first_keyframe(chunks) {
                Option::None => out == Seq::<ChunkModel>::empty(),
                Option::Some(k) => out == (match latest_headers(chunks, k, buffered) {
                    Option::Some(b) => seq![ChunkModel::Headers { bytes: b }],
                    Option::None => Seq::<ChunkModel>::empty(),
                }) + chunks.skip(k),
            }
        }),
    decreases chunks.len(),
{
    if chunks.len() > 0 {
        let c = chunks[0];
        let rest = chunks.drop_first();
        if is_keyframe_head(c) {
            lemma_finder_unlocked_passes_all(rest, Option::None);
            assert(chunks.skip(0) =~= seq![c] + rest);
            match buffered {
                Option::Some(b) => {
                    assert(finder_outputs(chunks, false, buffered) =~= seq![
                        ChunkModel::Headers { bytes: b },
                    ] + chunks.skip(0));
                },
                Option::None => {
                    assert(finder_outputs(chunks, false, buffered) =~= Seq::<
                        ChunkModel,
                    >::empty() + chunks.skip(0));
                },
            }
        } else {
            let buf2 = match c {
                ChunkModel::Headers { bytes } => Option::Some(bytes),
                _ => buffered,
            };
            lemma_finder_starts_at_keyframe(rest, buf2);
            lemma_first_keyframe_in_range(rest);
            match first_keyframe(rest) {
                Option::None => {},
                Option::Some(k) => {
                    assert(first_keyframe(chunks) == Option::Some(k + 1));
                    assert(latest_headers(chunks, k + 1, buffered) == latest_headers(
                        rest,
                        k,
                        buf2,
                    ));
                    assert(chunks.skip(k + 1) =~= rest.skip(k));
                },
            }
        }
    }
}


} // verus!
