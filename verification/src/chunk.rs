//! The chunker: a state machine turning a stream of WebM elements into
//! `Headers`, `ClusterHead` and `ClusterBody` chunks.
//!
//! Its whole behaviour is captured by the specification function [`drive`]:
//! one exec pull of [`WebmChunker::poll`] returns exactly what `drive` says
//! of the chunker's state and the source's pending outcomes.

use vstd::prelude::*;
use crate::error::WebmetroError;
use crate::webm::{
    WebmElement, WebmElementModel, elem_wf, encode_elem, encode_webm_element, cluster_open_bytes,
    timecode_bytes,
};
use crate::webm::elem_stripped;
use crate::stream_parser::{
    Async, EbmlEventSource, SourcePoll, encode_all, spec_events, lemma_encode_parse_round_trip,
};

verus! {

/// A mutable summary of the cluster being built: its keyframe flag, its
/// absolute start and end timecodes in milliseconds, and a small scratch
/// buffer holding the encoded cluster-open marker and timecode element.
#[derive(Clone, Debug, PartialEq)]
pub struct ClusterHead {
    pub keyframe: bool,
    pub start: u64,
    pub end: u64,
    // space for a cluster-open marker and a timecode element
    pub bytes: Vec<u8>,
}

/// The mathematical image of a `ClusterHead`.
pub struct ClusterHeadModel {
    pub keyframe: bool,
    pub start: u64,
    pub end: u64,
    pub bytes: Seq<u8>,
}

impl View for ClusterHead {
    type V = ClusterHeadModel;

    open spec fn view(&self) -> ClusterHeadModel {
        ClusterHeadModel {
            keyframe: self.keyframe,
            start: self.start,
            end: self.end,
            bytes: self.bytes@,
        }
    }
}

/// A well-formed cluster head never ends before it starts, and its scratch
/// bytes always reflect its current start timecode.
pub open spec fn cluster_head_wf(h: ClusterHeadModel) -> bool {
    h.end >= h.start && h.bytes == cluster_open_bytes() + timecode_bytes(h.start)
}

/// `a + d` capped at the largest timecode.
pub open spec fn sat_add_u64(a: u64, d: int) -> u64 {
    if a + d > u64::MAX {
        u64::MAX
    } else {
        (a + d) as u64
    }
}

/// A fresh cluster head at timecode `t`: no keyframe yet, zero duration.
pub open spec fn fresh_head(t: u64) -> ClusterHeadModel {
    ClusterHeadModel {
        keyframe: false,
        start: t,
        end: t,
        bytes: cluster_open_bytes() + timecode_bytes(t),
    }
}

/// Moving a head to timecode `t` keeps its duration and re-encodes its
/// scratch bytes.
pub open spec fn head_with_timecode(h: ClusterHeadModel, t: u64) -> ClusterHeadModel {
    let delta = if h.end >= h.start {
        h.end - h.start
    } else {
        0
    };
    ClusterHeadModel {
        keyframe: h.keyframe,
        start: t,
        end: sat_add_u64(t, delta),
        bytes: cluster_open_bytes() + timecode_bytes(t),
    }
}

/// A block whose flags carry the keyframe bit marks the whole cluster.
pub open spec fn head_mark_keyframe(h: ClusterHeadModel, flags: u8) -> ClusterHeadModel {
    if flags >= 0x80 {
        ClusterHeadModel { keyframe: true, ..h }
    } else {
        h
    }
}

/// A block timecode extends the cluster's end only when it lies strictly
/// after the start; zero and negative deltas are ignored.
pub open spec fn head_observe(h: ClusterHeadModel, tc: i16) -> ClusterHeadModel {
    if tc > 0 {
        ClusterHeadModel { end: sat_add_u64(h.start, tc as int), ..h }
    } else {
        h
    }
}

impl ClusterHead {
    pub fn new(timecode: u64) -> (r: ClusterHead)
        ensures
            r@ == fresh_head(timecode),
            cluster_head_wf(r@),
    {
        let mut cluster_head = ClusterHead { keyframe: false, start: 0, end: 0, bytes: Vec::new() };
        cluster_head.update_timecode(timecode);
        cluster_head
    }

    pub fn update_timecode(&mut self, timecode: u64)
        requires
            old(self)@.end >= old(self)@.start,
        ensures
            final(self)@ == head_with_timecode(old(self)@, timecode),
            cluster_head_wf(final(self)@),
    {
        let delta = self.end - self.start;
        self.start = timecode;
        self.end = if delta > u64::MAX - timecode {
            u64::MAX
        } else {
            timecode + delta
        };
        // the scratch is rebuilt so these two images always agree with `start`
        let mut scratch: Vec<u8> = Vec::new();
        encode_webm_element(&WebmElement::Cluster, &mut scratch);
        encode_webm_element(&WebmElement::Timecode(timecode), &mut scratch);
        self.bytes = scratch;
        assert(self@.bytes =~= cluster_open_bytes() + timecode_bytes(timecode));
    }

    pub fn observe_simpleblock_timecode(&mut self, timecode: i16)
        requires
            old(self)@.end >= old(self)@.start,
        ensures
            final(self)@ == head_observe(old(self)@, timecode),
            cluster_head_wf(final(self)@) == cluster_head_wf(old(self)@),
    {
        if timecode > 0 {
            let tc = timecode as u64;
            self.end = if tc > u64::MAX - self.start {
                u64::MAX
            } else {
                self.start + tc
            };
        }
    }

    /// The encoded cluster-open marker and timecode element for this head.
    pub fn as_ref(&self) -> (r: &[u8])
        ensures
            r@ == self@.bytes,
    {
        self.bytes.as_slice()
    }
}

/// One tagged chunk of output: the header prefix, a cluster's opening
/// summary, or a cluster's body bytes.
#[derive(Clone, Debug, PartialEq)]
pub enum Chunk {
    Headers { bytes: Vec<u8> },
    ClusterHead(ClusterHead),
    ClusterBody { bytes: Vec<u8> },
}

/// The mathematical image of a `Chunk`.
pub enum ChunkModel {
    Headers { bytes: Seq<u8> },
    ClusterHead(ClusterHeadModel),
    ClusterBody { bytes: Seq<u8> },
}

impl View for Chunk {
    type V = ChunkModel;

    open spec fn view(&self) -> ChunkModel {
        match self {
            Chunk::Headers { bytes } => ChunkModel::Headers { bytes: bytes@ },
            Chunk::ClusterHead(h) => ChunkModel::ClusterHead(h@),
            Chunk::ClusterBody { bytes } => ChunkModel::ClusterBody { bytes: bytes@ },
        }
    }
}

/// The contiguous byte image every chunk exposes.
pub open spec fn chunk_bytes(c: ChunkModel) -> Seq<u8> {
    match c {
        ChunkModel::Headers { bytes } => bytes,
        ChunkModel::ClusterHead(h) => h.bytes,
        ChunkModel::ClusterBody { bytes } => bytes,
    }
}

impl Chunk {
    /// The chunk's byte view.
    pub fn as_ref(&self) -> (r: &[u8])
        ensures
            r@ == chunk_bytes(self@),
    {
        match self {
            Chunk::Headers { bytes } => bytes.as_slice(),
            Chunk::ClusterHead(cluster_head) => cluster_head.as_ref(),
            Chunk::ClusterBody { bytes } => bytes.as_slice(),
        }
    }
}

enum ChunkerState {
    BuildingHeader(Vec<u8>),
    // cluster head summary and body buffer
    BuildingCluster(ClusterHead, Vec<u8>),
    EmittingClusterBody(Vec<u8>),
    EmittingClusterBodyBeforeNewHeader { body: Vec<u8>, new_header: Vec<u8> },
    EmittingFinalClusterBody(Vec<u8>),
    End,
}

/// The mathematical image of the chunker's state.
pub enum ChunkerStateModel {
    BuildingHeader(Seq<u8>),
    BuildingCluster(ClusterHeadModel, Seq<u8>),
    EmittingClusterBody(Seq<u8>),
    EmittingClusterBodyBeforeNewHeader { body: Seq<u8>, new_header: Seq<u8> },
    EmittingFinalClusterBody(Seq<u8>),
    End,
}

impl View for ChunkerState {
    type V = ChunkerStateModel;

    closed spec fn view(&self) -> ChunkerStateModel {
        match self {
            ChunkerState::BuildingHeader(b) => ChunkerStateModel::BuildingHeader(b@),
            ChunkerState::BuildingCluster(h, b) => ChunkerStateModel::BuildingCluster(h@, b@),
            ChunkerState::EmittingClusterBody(b) => ChunkerStateModel::EmittingClusterBody(b@),
            ChunkerState::EmittingClusterBodyBeforeNewHeader { body, new_header } =>
                ChunkerStateModel::EmittingClusterBodyBeforeNewHeader {
                body: body@,
                new_header: new_header@,
            },
            ChunkerState::EmittingFinalClusterBody(b) =>
                ChunkerStateModel::EmittingFinalClusterBody(b@),
            ChunkerState::End => ChunkerStateModel::End,
        }
    }
}

/// The one well-formedness the chunker maintains: the head under
/// construction never ends before it starts and its scratch matches its
/// start.
pub open spec fn state_wf(st: ChunkerStateModel) -> bool {
    match st {
        ChunkerStateModel::BuildingCluster(h, _) => cluster_head_wf(h),
        _ => true,
    }
}

/// True when a soft limit is set and the buffer has already reached it; the
/// next encode must then fail instead of growing it further.
pub open spec fn soft_limit_reached(limit: Option<usize>, len: nat) -> bool {
    match limit {
        Option::Some(l) => l <= len,
        Option::None => false,
    }
}

/// The model of what one exec pull of the chunker returned.
pub enum ChunkerOut {
    NotReady,
    End,
    Chunk(ChunkModel),
    Failed(WebmetroError),
}

/// One pull of the chunker, at the model level: the state it leaves behind,
/// the source outcomes it has not consumed, and what it returned.
pub struct ChunkerStep {
    pub state: ChunkerStateModel,
    pub pending: Seq<SourcePoll>,
    pub out: ChunkerOut,
}

/// The model of an exec pull result.
pub open spec fn chunk_result_view(r: Result<Async<Option<Chunk>>, WebmetroError>) -> ChunkerOut {
    match r {
        Result::Ok(Async::NotReady) => ChunkerOut::NotReady,
        Result::Ok(Async::Ready(Option::None)) => ChunkerOut::End,
        Result::Ok(Async::Ready(Option::Some(c))) => ChunkerOut::Chunk(c@),
        Result::Err(e) => ChunkerOut::Failed(e),
    }
}

/// What one pull of the chunker does, given its state, the source's pending
/// outcomes and the soft limit. This is the transition table of the state
/// machine, written as one recursive function: stripped elements recurse
/// without output, everything else returns.
pub open spec fn drive(st: ChunkerStateModel, pending: Seq<SourcePoll>, limit: Option<usize>) -> ChunkerStep
    decreases pending.len(),
{
    match st {
        ChunkerStateModel::BuildingHeader(buffer) => {
            if pending.len() == 0 {
                ChunkerStep { state: st, pending, out: ChunkerOut::End }
            } else {
                let rest = pending.drop_first();
                match pending[0] {
                    SourcePoll::NotReady => ChunkerStep {
                        state: st,
                        pending: rest,
                        out: ChunkerOut::NotReady,
                    },
                    SourcePoll::SourceErr(er) => ChunkerStep {
                        state: st,
                        pending: rest,
                        out: ChunkerOut::Failed(er),
                    },
                    SourcePoll::Event(e) => match e {
                        WebmElementModel::Cluster => ChunkerStep {
                            state: ChunkerStateModel::BuildingCluster(fresh_head(0), Seq::empty()),
                            pending: rest,
                            out: ChunkerOut::Chunk(ChunkModel::Headers { bytes: buffer }),
                        },
                        WebmElementModel::Info => drive(st, rest, limit),
                        WebmElementModel::Void => drive(st, rest, limit),
                        WebmElementModel::Unknown(_) => drive(st, rest, limit),
                        _ => if soft_limit_reached(limit, buffer.len()) {
                            ChunkerStep {
                                state: ChunkerStateModel::End,
                                pending: rest,
                                out: ChunkerOut::Failed(WebmetroError::ResourcesExceeded),
                            }
                        } else {
                            drive(
                                ChunkerStateModel::BuildingHeader(buffer + encode_elem(e)),
                                rest,
                                limit,
                            )
                        },
                    },
                }
            }
        },
        ChunkerStateModel::BuildingCluster(head, body) => {
            if pending.len() == 0 {
                // flush the final cluster on end of stream
                ChunkerStep {
                    state: ChunkerStateModel::EmittingFinalClusterBody(body),
                    pending,
                    out: ChunkerOut::Chunk(ChunkModel::ClusterHead(head)),
                }
            } else {
                let rest = pending.drop_first();
                match pending[0] {
                    SourcePoll::NotReady => ChunkerStep {
                        state: st,
                        pending: rest,
                        out: ChunkerOut::NotReady,
                    },
                    SourcePoll::SourceErr(er) => ChunkerStep {
                        state: st,
                        pending: rest,
                        out: ChunkerOut::Failed(er),
                    },
                    SourcePoll::Event(e) => match e {
                        WebmElementModel::EbmlHead => if soft_limit_reached(limit, 0) {
                            ChunkerStep {
                                state: ChunkerStateModel::End,
                                pending: rest,
                                out: ChunkerOut::Failed(WebmetroError::ResourcesExceeded),
                            }
                        } else {
                            ChunkerStep {
                                state: ChunkerStateModel::EmittingClusterBodyBeforeNewHeader {
                                    body,
                                    new_header: encode_elem(e),
                                },
                                pending: rest,
                                out: ChunkerOut::Chunk(ChunkModel::ClusterHead(head)),
                            }
                        },
                        WebmElementModel::Segment => if soft_limit_reached(limit, 0) {
                            ChunkerStep {
                                state: ChunkerStateModel::End,
                                pending: rest,
                                out: ChunkerOut::Failed(WebmetroError::ResourcesExceeded),
                            }
                        } else {
                            ChunkerStep {
                                state: ChunkerStateModel::EmittingClusterBodyBeforeNewHeader {
                                    body,
                                    new_header: encode_elem(e),
                                },
                                pending: rest,
                                out: ChunkerOut::Chunk(ChunkModel::ClusterHead(head)),
                            }
                        },
                        WebmElementModel::Cluster => ChunkerStep {
                            state: ChunkerStateModel::EmittingClusterBody(body),
                            pending: rest,
                            out: ChunkerOut::Chunk(ChunkModel::ClusterHead(head)),
                        },
                        WebmElementModel::Timecode(t) => drive(
                            ChunkerStateModel::BuildingCluster(head_with_timecode(head, t), body),
                            rest,
                            limit,
                        ),
                        WebmElementModel::SimpleBlock(b) => {
                            let marked = head_observe(head_mark_keyframe(head, b.flags), b.timecode);
                            if soft_limit_reached(limit, body.len()) {
                                ChunkerStep {
                                    state: ChunkerStateModel::End,
                                    pending: rest,
                                    out: ChunkerOut::Failed(WebmetroError::ResourcesExceeded),
                                }
                            } else {
                                drive(
                                    ChunkerStateModel::BuildingCluster(
                                        marked,
                                        body + encode_elem(e),
                                    ),
                                    rest,
                                    limit,
                                )
                            }
                        },
                        WebmElementModel::Info => drive(st, rest, limit),
                        WebmElementModel::Void => drive(st, rest, limit),
                        WebmElementModel::Unknown(_) => drive(st, rest, limit),
                        _ => if soft_limit_reached(limit, body.len()) {
                            ChunkerStep {
                                state: ChunkerStateModel::End,
                                pending: rest,
                                out: ChunkerOut::Failed(WebmetroError::ResourcesExceeded),
                            }
                        } else {
                            drive(
                                ChunkerStateModel::BuildingCluster(head, body + encode_elem(e)),
                                rest,
                                limit,
                            )
                        },
                    },
                }
            }
        },
        ChunkerStateModel::EmittingClusterBody(body) => ChunkerStep {
            state: ChunkerStateModel::BuildingCluster(fresh_head(0), Seq::empty()),
            pending,
            out: ChunkerOut::Chunk(ChunkModel::ClusterBody { bytes: body }),
        },
        ChunkerStateModel::EmittingClusterBodyBeforeNewHeader { body, new_header } => ChunkerStep {
            state: ChunkerStateModel::BuildingHeader(new_header),
            pending,
            out: ChunkerOut::Chunk(ChunkModel::ClusterBody { bytes: body }),
        },
        ChunkerStateModel::EmittingFinalClusterBody(body) => ChunkerStep {
            state: ChunkerStateModel::End,
            pending,
            out: ChunkerOut::Chunk(ChunkModel::ClusterBody { bytes: body }),
        },
        ChunkerStateModel::End => ChunkerStep { state: st, pending, out: ChunkerOut::End },
    }
}

/// The chunker over an event source.
pub struct WebmChunker<S> {
    source: S,
    buffer_size_limit: Option<usize>,
    state: ChunkerState,
}

impl<S: EbmlEventSource> WebmChunker<S> {
    /// The model of the current state.
    pub closed spec fn state_model(&self) -> ChunkerStateModel {
        self.state@
    }

    /// The configured soft buffer limit.
    pub closed spec fn limit_spec(&self) -> Option<usize> {
        self.buffer_size_limit
    }

    /// What the source still has in store.
    pub closed spec fn source_pending(&self) -> Seq<SourcePoll> {
        self.source.pending()
    }

    pub open spec fn wf(&self) -> bool {
        state_wf(self.state_model())
    }

    /// Add a "soft" buffer size limit: when a chunk buffer has already
    /// reached this size, the stream errors instead of growing it. A single
    /// write may still push a buffer past the limit, so input element sizes
    /// must be reasonable.
    pub fn with_soft_limit(self, limit: usize) -> (r: Self)
        ensures
            r.state_model() == self.state_model(),
            r.source_pending() == self.source_pending(),
            r.limit_spec() == Option::Some(limit),
            r.wf() == self.wf(),
    {
        WebmChunker { buffer_size_limit: Option::Some(limit), ..self }
    }

    /// Pull the next chunk. The result, the state left behind and the source
    /// outcomes consumed are exactly what [`drive`] says of the pre-state.
    pub fn poll(&mut self) -> (r: Result<Async<Option<Chunk>>, WebmetroError>)
        requires
            old(self).wf(),
        ensures
            ({
                let d = drive(
                    old(self).state_model(),
                    old(self).source_pending(),
                    old(self).limit_spec(),
                );
                final(self).state_model() == d.state && final(self).source_pending() == d.pending
                    && chunk_result_view(r) == d.out && final(self).limit_spec() == old(
                    self,
                ).limit_spec() && final(self).wf()
            }),
    {
        let ghost orig_step = drive(self.state_model(), self.source_pending(), self.limit_spec());
        loop
            invariant
                self.wf(),
                self.limit_spec() == old(self).limit_spec(),
                drive(self.state_model(), self.source_pending(), self.limit_spec()) == orig_step,
                orig_step == drive(
                    old(self).state_model(),
                    old(self).source_pending(),
                    old(self).limit_spec(),
                ),
            decreases self.source_pending().len(),
        {
            let mut st = ChunkerState::End;
            core::mem::swap(&mut st, &mut self.state);
            let ghost p = self.source.pending();
            match st {
                ChunkerState::BuildingHeader(mut buffer) => {
                    match self.source.poll_event() {
                        Result::Err(passthru) => {
                            self.state = ChunkerState::BuildingHeader(buffer);
                            return Result::Err(passthru);
                        },
                        Result::Ok(Async::NotReady) => {
                            self.state = ChunkerState::BuildingHeader(buffer);
                            return Result::Ok(Async::NotReady);
                        },
                        Result::Ok(Async::Ready(Option::None)) => {
                            self.state = ChunkerState::BuildingHeader(buffer);
                            return Result::Ok(Async::Ready(Option::None));
                        },
                        Result::Ok(Async::Ready(Option::Some(WebmElement::Cluster))) => {
                            let header_chunk = Chunk::Headers { bytes: buffer };
                            self.state = ChunkerState::BuildingCluster(
                                ClusterHead::new(0),
                                Vec::new(),
                            );
                            return Result::Ok(Async::Ready(Option::Some(header_chunk)));
                        },
                        Result::Ok(Async::Ready(Option::Some(WebmElement::Info))) => {
                            self.state = ChunkerState::BuildingHeader(buffer);
                        },
                        Result::Ok(Async::Ready(Option::Some(WebmElement::Void))) => {
                            self.state = ChunkerState::BuildingHeader(buffer);
                        },
                        Result::Ok(Async::Ready(Option::Some(WebmElement::Unknown(_)))) => {
                            self.state = ChunkerState::BuildingHeader(buffer);
                        },
                        Result::Ok(Async::Ready(Option::Some(element))) => {
                            match encode(element, &mut buffer, self.buffer_size_limit) {
                                Result::Ok(_) => {
                                    self.state = ChunkerState::BuildingHeader(buffer);
                                },
                                Result::Err(err) => {
                                    self.state = ChunkerState::End;
                                    return Result::Err(err);
                                },
                            }
                        },
                    }
                },
                ChunkerState::BuildingCluster(mut cluster_head, mut buffer) => {
                    match self.source.poll_event() {
                        Result::Err(passthru) => {
                            self.state = ChunkerState::BuildingCluster(cluster_head, buffer);
                            return Result::Err(passthru);
                        },
                        Result::Ok(Async::NotReady) => {
                            self.state = ChunkerState::BuildingCluster(cluster_head, buffer);
                            return Result::Ok(Async::NotReady);
                        },
                        Result::Ok(Async::Ready(Option::None)) => {
                            // flush the final cluster on end of stream
                            self.state = ChunkerState::EmittingFinalClusterBody(buffer);
                            return Result::Ok(
                                Async::Ready(Option::Some(Chunk::ClusterHead(cluster_head))),
                            );
                        },
                        Result::Ok(Async::Ready(Option::Some(WebmElement::EbmlHead))) => {
                            let mut new_header: Vec<u8> = Vec::new();
                            match encode(
                                WebmElement::EbmlHead,
                                &mut new_header,
                                self.buffer_size_limit,
                            ) {
                                Result::Ok(_) => {
                                    self.state =
                                        ChunkerState::EmittingClusterBodyBeforeNewHeader {
                                        body: buffer,
                                        new_header,
                                    };
                                    return Result::Ok(
                                        Async::Ready(
                                            Option::Some(Chunk::ClusterHead(cluster_head)),
                                        ),
                                    );
                                },
                                Result::Err(err) => {
                                    self.state = ChunkerState::End;
                                    return Result::Err(err);
                                },
                            }
                        },
                        Result::Ok(Async::Ready(Option::Some(WebmElement::Segment))) => {
                            let mut new_header: Vec<u8> = Vec::new();
                            match encode(
                                WebmElement::Segment,
                                &mut new_header,
                                self.buffer_size_limit,
                            ) {
                                Result::Ok(_) => {
                                    self.state =
                                        ChunkerState::EmittingClusterBodyBeforeNewHeader {
                                        body: buffer,
                                        new_header,
                                    };
                                    return Result::Ok(
                                        Async::Ready(
                                            Option::Some(Chunk::ClusterHead(cluster_head)),
                                        ),
                                    );
                                },
                                Result::Err(err) => {
                                    self.state = ChunkerState::End;
                                    return Result::Err(err);
                                },
                            }
                        },
                        Result::Ok(Async::Ready(Option::Some(WebmElement::Cluster))) => {
                            self.state = ChunkerState::EmittingClusterBody(buffer);
                            return Result::Ok(
                                Async::Ready(Option::Some(Chunk::ClusterHead(cluster_head))),
                            );
                        },
                        Result::Ok(Async::Ready(Option::Some(WebmElement::Timecode(timecode)))) => {
                            cluster_head.update_timecode(timecode);
                            self.state = ChunkerState::BuildingCluster(cluster_head, buffer);
                        },
                        Result::Ok(Async::Ready(Option::Some(WebmElement::SimpleBlock(block)))) => {
                            let flags = block.flags;
                            if (flags & 0b10000000) != 0 {
                                proof {
                                    assert(flags >= 0x80) by (bit_vector)
                                        requires
                                            (flags & 0b10000000) != 0,
                                    ;
                                }
                                cluster_head.keyframe = true;
                            } else {
                                proof {
                                    assert(flags < 0x80) by (bit_vector)
                                        requires
                                            (flags & 0b10000000) == 0,
                                    ;
                                }
                            }
                            cluster_head.observe_simpleblock_timecode(block.timecode);
                            match encode(
                                WebmElement::SimpleBlock(block),
                                &mut buffer,
                                self.buffer_size_limit,
                            ) {
                                Result::Ok(_) => {
                                    self.state = ChunkerState::BuildingCluster(
                                        cluster_head,
                                        buffer,
                                    );
                                },
                                Result::Err(err) => {
                                    self.state = ChunkerState::End;
                                    return Result::Err(err);
                                },
                            }
                        },
                        Result::Ok(Async::Ready(Option::Some(WebmElement::Info))) => {
                            self.state = ChunkerState::BuildingCluster(cluster_head, buffer);
                        },
                        Result::Ok(Async::Ready(Option::Some(WebmElement::Void))) => {
                            self.state = ChunkerState::BuildingCluster(cluster_head, buffer);
                        },
                        Result::Ok(Async::Ready(Option::Some(WebmElement::Unknown(_)))) => {
                            self.state = ChunkerState::BuildingCluster(cluster_head, buffer);
                        },
                        Result::Ok(Async::Ready(Option::Some(element))) => {
                            match encode(element, &mut buffer, self.buffer_size_limit) {
                                Result::Ok(_) => {
                                    self.state = ChunkerState::BuildingCluster(
                                        cluster_head,
                                        buffer,
                                    );
                                },
                                Result::Err(err) => {
                                    self.state = ChunkerState::End;
                                    return Result::Err(err);
                                },
                            }
                        },
                    }
                },
                ChunkerState::EmittingClusterBody(body) => {
                    self.state = ChunkerState::BuildingCluster(ClusterHead::new(0), Vec::new());
                    return Result::Ok(
                        Async::Ready(Option::Some(Chunk::ClusterBody { bytes: body })),
                    );
                },
                ChunkerState::EmittingClusterBodyBeforeNewHeader { body, new_header } => {
                    self.state = ChunkerState::BuildingHeader(new_header);
                    return Result::Ok(
                        Async::Ready(Option::Some(Chunk::ClusterBody { bytes: body })),
                    );
                },
                ChunkerState::EmittingFinalClusterBody(body) => {
                    self.state = ChunkerState::End;
                    return Result::Ok(
                        Async::Ready(Option::Some(Chunk::ClusterBody { bytes: body })),
                    );
                },
                ChunkerState::End => {
                    return Result::Ok(Async::Ready(Option::None));
                },
            }
        }
    }
}

/// Check the soft limit, then append the element's image to the buffer: the
/// limit is tested before the write, so a single write may exceed it.
fn encode(element: WebmElement, buffer: &mut Vec<u8>, limit: Option<usize>) -> (r: Result<
    (),
    WebmetroError,
>)
    requires
        elem_wf(element@),
        !(element@ is Unknown),
    ensures
        match r {
            Result::Ok(_) => !soft_limit_reached(limit, old(buffer)@.len()) && final(buffer)@
                == old(buffer)@ + encode_elem(element@),
            Result::Err(e) => soft_limit_reached(limit, old(buffer)@.len()) && e
                == WebmetroError::ResourcesExceeded && final(buffer)@ == old(buffer)@,
        },
{
    match limit {
        Option::Some(l) => {
            if l <= buffer.len() {
                return Result::Err(WebmetroError::ResourcesExceeded);
            }
        },
        Option::None => {},
    }
    encode_webm_element(&element, buffer);
    Result::Ok(())
}

/// Anything that produces EBML events can be chunked.
pub trait WebmStream: EbmlEventSource {
    fn chunk_webm(self) -> (r: WebmChunker<Self>)
        ensures
            r.state_model() == ChunkerStateModel::BuildingHeader(Seq::empty()),
            r.source_pending() == self.pending(),
            r.limit_spec() == Option::<usize>::None,
            r.wf(),
    ;
}

impl<T: EbmlEventSource> WebmStream for T {
    fn chunk_webm(self) -> (r: WebmChunker<T>) {
        let r = WebmChunker {
            source: self,
            buffer_size_limit: Option::None,
            state: ChunkerState::BuildingHeader(Vec::new()),
        };
        proof {
            assert(r.state_model() =~= ChunkerStateModel::BuildingHeader(Seq::empty()));
        }
        r
    }
}

/// States that emit a chunk without consuming input strictly descend this
/// rank, so a full run of the chunker terminates.
pub open spec fn state_rank(st: ChunkerStateModel) -> int {
    match st {
        ChunkerStateModel::BuildingHeader(_) => 0,
        ChunkerStateModel::BuildingCluster(_, _) => 2,
        ChunkerStateModel::EmittingClusterBody(_) => 3,
        ChunkerStateModel::EmittingClusterBodyBeforeNewHeader { .. } => 1,
        ChunkerStateModel::EmittingFinalClusterBody(_) => 1,
        ChunkerStateModel::End => 0,
    }
}

/// One pull either ends the stream, or consumes input, or descends the rank.
pub proof fn lemma_drive_progress(st: ChunkerStateModel, pending: Seq<SourcePoll>, limit: Option<usize>)
    ensures
        ({
            let d = drive(st, pending, limit);
            d.pending.len() <= pending.len() && match d.out {
                ChunkerOut::End => true,
                ChunkerOut::Failed(_) => true,
                _ => d.pending.len() < pending.len() || (d.pending.len() == pending.len()
                    && state_rank(d.state) < state_rank(st)),
            }
        }),
    decreases pending.len(),
{
    if pending.len() > 0 {
        let rest = pending.drop_first();
        match st {
            ChunkerStateModel::BuildingHeader(buffer) => {
                match pending[0] {
                    SourcePoll::Event(e) => match e {
                        WebmElementModel::Cluster => {},
                        WebmElementModel::Info => lemma_drive_progress(st, rest, limit),
                        WebmElementModel::Void => lemma_drive_progress(st, rest, limit),
                        WebmElementModel::Unknown(_) => lemma_drive_progress(st, rest, limit),
                        _ => if !soft_limit_reached(limit, buffer.len()) {
                            lemma_drive_progress(
                                ChunkerStateModel::BuildingHeader(buffer + encode_elem(e)),
                                rest,
                                limit,
                            );
                        },
                    },
                    _ => {},
                }
            },
            ChunkerStateModel::BuildingCluster(head, body) => {
                match pending[0] {
                    SourcePoll::Event(e) => match e {
                        WebmElementModel::Timecode(t) => lemma_drive_progress(
                            ChunkerStateModel::BuildingCluster(head_with_timecode(head, t), body),
                            rest,
                            limit,
                        ),
                        WebmElementModel::SimpleBlock(b) => if !soft_limit_reached(
                            limit,
                            body.len(),
                        ) {
                            lemma_drive_progress(
                                ChunkerStateModel::BuildingCluster(
                                    head_observe(head_mark_keyframe(head, b.flags), b.timecode),
                                    body + encode_elem(e),
                                ),
                                rest,
                                limit,
                            );
                        },
                        WebmElementModel::Info => lemma_drive_progress(st, rest, limit),
                        WebmElementModel::Void => lemma_drive_progress(st, rest, limit),
                        WebmElementModel::Unknown(_) => lemma_drive_progress(st, rest, limit),
                        WebmElementModel::Tracks(_) => if !soft_limit_reached(limit, body.len()) {
                            lemma_drive_progress(
                                ChunkerStateModel::BuildingCluster(head, body + encode_elem(e)),
                                rest,
                                limit,
                            );
                        },
                        _ => {},
                    },
                    _ => {},
                }
            },
            _ => {},
        }
    }
}

/// One pull keeps the state well-formed, and any cluster head it emits is
/// well-formed: it never ends before it starts, and its scratch bytes are
/// the cluster-open marker and the timecode element for its start.
pub proof fn lemma_drive_wf(st: ChunkerStateModel, pending: Seq<SourcePoll>, limit: Option<usize>)
    requires
        state_wf(st),
    ensures
        ({
            let d = drive(st, pending, limit);
            state_wf(d.state) && match d.out {
                ChunkerOut::Chunk(ChunkModel::ClusterHead(h)) => cluster_head_wf(h),
                _ => true,
            }
        }),
    decreases pending.len(),
{
    if pending.len() > 0 {
        let rest = pending.drop_first();
        match st {
            ChunkerStateModel::BuildingHeader(buffer) => {
                match pending[0] {
                    SourcePoll::Event(e) => match e {
                        WebmElementModel::Cluster => {},
                        WebmElementModel::Info => lemma_drive_wf(st, rest, limit),
                        WebmElementModel::Void => lemma_drive_wf(st, rest, limit),
                        WebmElementModel::Unknown(_) => lemma_drive_wf(st, rest, limit),
                        _ => if !soft_limit_reached(limit, buffer.len()) {
                            lemma_drive_wf(
                                ChunkerStateModel::BuildingHeader(buffer + encode_elem(e)),
                                rest,
                                limit,
                            );
                        },
                    },
                    _ => {},
                }
            },
            ChunkerStateModel::BuildingCluster(head, body) => {
                match pending[0] {
                    SourcePoll::Event(e) => match e {
                        WebmElementModel::Timecode(t) => lemma_drive_wf(
                            ChunkerStateModel::BuildingCluster(head_with_timecode(head, t), body),
                            rest,
                            limit,
                        ),
                        WebmElementModel::SimpleBlock(b) => if !soft_limit_reached(
                            limit,
                            body.len(),
                        ) {
                            lemma_drive_wf(
                                ChunkerStateModel::BuildingCluster(
                                    head_observe(head_mark_keyframe(head, b.flags), b.timecode),
                                    body + encode_elem(e),
                                ),
                                rest,
                                limit,
                            );
                        },
                        WebmElementModel::Info => lemma_drive_wf(st, rest, limit),
                        WebmElementModel::Void => lemma_drive_wf(st, rest, limit),
                        WebmElementModel::Unknown(_) => lemma_drive_wf(st, rest, limit),
                        WebmElementModel::Tracks(_) => if !soft_limit_reached(limit, body.len()) {
                            lemma_drive_wf(
                                ChunkerStateModel::BuildingCluster(head, body + encode_elem(e)),
                                rest,
                                limit,
                            );
                        },
                        _ => {},
                    },
                    _ => {},
                }
            },
            _ => {},
        }
    }
}

/// Pull the chunker until it reports end of stream or an error, collecting
/// every chunk it emits along the way.
pub open spec fn run_chunker(st: ChunkerStateModel, pending: Seq<SourcePoll>, limit: Option<usize>) -> Seq<ChunkModel>
    decreases pending.len(), state_rank(st),
        via run_chunker_decreases
{
    let d = drive(st, pending, limit);
    match d.out {
        ChunkerOut::End => Seq::empty(),
        ChunkerOut::Failed(_) => Seq::empty(),
        ChunkerOut::NotReady => run_chunker(d.state, d.pending, limit),
        ChunkerOut::Chunk(c) => seq![c] + run_chunker(d.state, d.pending, limit),
    }
}

#[via_fn]
proof fn run_chunker_decreases(st: ChunkerStateModel, pending: Seq<SourcePoll>, limit: Option<usize>) {
    lemma_drive_progress(st, pending, limit);
}

/// Every cluster head in a full run of the chunker is well-formed: it
/// satisfies `end >= start`, from any well-formed starting state.
pub proof fn lemma_run_chunker_heads_wf(st: ChunkerStateModel, pending: Seq<SourcePoll>, limit: Option<usize>)
    requires
        state_wf(st),
    ensures
        forall|i: int|
            0 <= i < run_chunker(st, pending, limit).len() ==> match #[trigger] run_chunker(
                st,
                pending,
                limit,
            )[i] {
                ChunkModel::ClusterHead(h) => cluster_head_wf(h),
                _ => true,
            },
    decreases pending.len(), state_rank(st),
{
    lemma_drive_progress(st, pending, limit);
    lemma_drive_wf(st, pending, limit);
    let d = drive(st, pending, limit);
    let run = run_chunker(st, pending, limit);
    match d.out {
        ChunkerOut::End => {},
        ChunkerOut::Failed(_) => {},
        ChunkerOut::NotReady => {
            lemma_run_chunker_heads_wf(d.state, d.pending, limit);
        },
        ChunkerOut::Chunk(c) => {
            lemma_run_chunker_heads_wf(d.state, d.pending, limit);
            let rest = run_chunker(d.state, d.pending, limit);
            assert(run == seq![c] + rest);
            assert forall|i: int| 0 <= i < run.len() implies match #[trigger] run[i] {
                ChunkModel::ClusterHead(h) => cluster_head_wf(h),
                _ => true,
            } by {
                if i > 0 {
                    assert((seq![c] + rest)[i] == rest[i - 1]);
                } else {
                    assert((seq![c] + rest)[0] == c);
                }
            }
        },
    }
}

/// Where a chunk stream stands in the alternation `Headers`,
/// (`ClusterHead`, `ClusterBody`)*.
#[derive(PartialEq, Eq, Structural)]
pub enum ShapePos {
    /// No header prefix opens the current session yet.
    NeedHeaders,
    /// A header prefix was emitted; cluster pairs may follow.
    BetweenClusters,
    /// A cluster head was emitted; its body is owed next.
    PendingBody,
}

/// How one chunk moves the alternation forward; `None` marks a malformed
/// stream.
pub open spec fn shape_step(pos: ShapePos, c: ChunkModel) -> Option<ShapePos> {
    match c {
        ChunkModel::Headers { .. } => if pos == ShapePos::NeedHeaders || pos
            == ShapePos::BetweenClusters {
            Option::Some(ShapePos::BetweenClusters)
        } else {
            Option::None
        },
        ChunkModel::ClusterHead(_) => if pos == ShapePos::BetweenClusters {
            Option::Some(ShapePos::PendingBody)
        } else {
            Option::None
        },
        ChunkModel::ClusterBody { .. } => if pos == ShapePos::PendingBody {
            Option::Some(ShapePos::BetweenClusters)
        } else {
            Option::None
        },
    }
}

/// Scan a chunk sequence through the alternation; `None` marks a malformed
/// stream.
pub open spec fn scan_shape(chunks: Seq<ChunkModel>, pos: ShapePos) -> Option<ShapePos>
    decreases chunks.len(),
{
    if chunks.len() == 0 {
        Option::Some(pos)
    } else {
        match shape_step(pos, chunks[0]) {
            Option::None => Option::None,
            Option::Some(p2) => scan_shape(chunks.drop_first(), p2),
        }
    }
}

/// A chunk stream is well-shaped when it begins with a header prefix and
/// every cluster head is immediately followed by its body.
pub open spec fn shape_ok(chunks: Seq<ChunkModel>) -> bool {
    scan_shape(chunks, ShapePos::NeedHeaders) is Some
}

/// Which alternation positions each chunker state can stand at.
pub open spec fn pos_ok(st: ChunkerStateModel, pos: ShapePos) -> bool {
    match st {
        ChunkerStateModel::BuildingHeader(_) => pos == ShapePos::NeedHeaders || pos
            == ShapePos::BetweenClusters,
        ChunkerStateModel::BuildingCluster(_, _) => pos == ShapePos::BetweenClusters,
        ChunkerStateModel::EmittingClusterBody(_) => pos == ShapePos::PendingBody,
        ChunkerStateModel::EmittingClusterBodyBeforeNewHeader { .. } => pos
            == ShapePos::PendingBody,
        ChunkerStateModel::EmittingFinalClusterBody(_) => pos == ShapePos::PendingBody,
        ChunkerStateModel::End => true,
    }
}

/// One pull emits only chunks the alternation admits, and leaves the state
/// at the matching position.
pub proof fn lemma_drive_shape(st: ChunkerStateModel, pending: Seq<SourcePoll>, limit: Option<usize>, pos: ShapePos)
    requires
        pos_ok(st, pos),
    ensures
        ({
            let d = drive(st, pending, limit);
            match d.out {
                ChunkerOut::Chunk(c) => match shape_step(pos, c) {
                    Option::Some(p2) => pos_ok(d.state, p2),
                    Option::None => false,
                },
                ChunkerOut::NotReady => pos_ok(d.state, pos),
                _ => true,
            }
        }),
    decreases pending.len(),
{
    if pending.len() > 0 {
        let rest = pending.drop_first();
        match st {
            ChunkerStateModel::BuildingHeader(buffer) => {
                match pending[0] {
                    SourcePoll::Event(e) => match e {
                        WebmElementModel::Cluster => {},
                        WebmElementModel::Info => lemma_drive_shape(st, rest, limit, pos),
                        WebmElementModel::Void => lemma_drive_shape(st, rest, limit, pos),
                        WebmElementModel::Unknown(_) => lemma_drive_shape(st, rest, limit, pos),
                        _ => if !soft_limit_reached(limit, buffer.len()) {
                            lemma_drive_shape(
                                ChunkerStateModel::BuildingHeader(buffer + encode_elem(e)),
                                rest,
                                limit,
                                pos,
                            );
                        },
                    },
                    _ => {},
                }
            },
            ChunkerStateModel::BuildingCluster(head, body) => {
                match pending[0] {
                    SourcePoll::Event(e) => match e {
                        WebmElementModel::Timecode(t) => lemma_drive_shape(
                            ChunkerStateModel::BuildingCluster(head_with_timecode(head, t), body),
                            rest,
                            limit,
                            pos,
                        ),
                        WebmElementModel::SimpleBlock(b) => if !soft_limit_reached(
                            limit,
                            body.len(),
                        ) {
                            lemma_drive_shape(
                                ChunkerStateModel::BuildingCluster(
                                    head_observe(head_mark_keyframe(head, b.flags), b.timecode),
                                    body + encode_elem(e),
                                ),
                                rest,
                                limit,
                                pos,
                            );
                        },
                        WebmElementModel::Info => lemma_drive_shape(st, rest, limit, pos),
                        WebmElementModel::Void => lemma_drive_shape(st, rest, limit, pos),
                        WebmElementModel::Unknown(_) => lemma_drive_shape(st, rest, limit, pos),
                        WebmElementModel::Tracks(_) => if !soft_limit_reached(limit, body.len()) {
                            lemma_drive_shape(
                                ChunkerStateModel::BuildingCluster(head, body + encode_elem(e)),
                                rest,
                                limit,
                                pos,
                            );
                        },
                        _ => {},
                    },
                    _ => {},
                }
            },
            _ => {},
        }
    }
}

/// A full run from any consistent position stays within the alternation.
pub proof fn lemma_run_chunker_shape(st: ChunkerStateModel, pending: Seq<SourcePoll>, limit: Option<usize>, pos: ShapePos)
    requires
        pos_ok(st, pos),
    ensures
        scan_shape(run_chunker(st, pending, limit), pos) is Some,
    decreases pending.len(), state_rank(st),
{
    lemma_drive_progress(st, pending, limit);
    lemma_drive_shape(st, pending, limit, pos);
    let d = drive(st, pending, limit);
    let run = run_chunker(st, pending, limit);
    match d.out {
        ChunkerOut::End => {},
        ChunkerOut::Failed(_) => {},
        ChunkerOut::NotReady => {
            lemma_run_chunker_shape(d.state, d.pending, limit, pos);
        },
        ChunkerOut::Chunk(c) => {
            let p2 = match shape_step(pos, c) {
                Option::Some(p2) => p2,
                Option::None => pos,
            };
            lemma_run_chunker_shape(d.state, d.pending, limit, p2);
            let rest = run_chunker(d.state, d.pending, limit);
            assert(run == seq![c] + rest);
            assert(run[0] == c);
            assert(run.drop_first() =~= rest);
        },
    }
}

/// The chunk sequence a fresh chunker emits over any input is exactly one
/// `Headers` followed by (`ClusterHead`, `ClusterBody`) pairs, restarting
/// with a new `Headers` only after a completed pair; a `ClusterBody` never
/// appears without its `ClusterHead` immediately before it.
pub proof fn lemma_chunker_output_shape(pending: Seq<SourcePoll>, limit: Option<usize>)
    ensures
        shape_ok(run_chunker(ChunkerStateModel::BuildingHeader(Seq::empty()), pending, limit)),
{
    lemma_run_chunker_shape(
        ChunkerStateModel::BuildingHeader(Seq::empty()),
        pending,
        limit,
        ShapePos::NeedHeaders,
    );
}

/// What being well-shaped says of each position: the stream opens with
/// `Headers`, every `ClusterBody` directly follows a `ClusterHead`, and
/// every `ClusterHead` follows a `Headers` or a completed pair.
pub proof fn lemma_scan_shape_facts(chunks: Seq<ChunkModel>, pos: ShapePos)
    requires
        scan_shape(chunks, pos) is Some,
    ensures
        pos == ShapePos::NeedHeaders && chunks.len() > 0 ==> chunks[0] is Headers,
        forall|i: int|
            0 < i < chunks.len() && (#[trigger] chunks[i]) is ClusterBody ==> chunks[i
                - 1] is ClusterHead,
        forall|i: int|
            0 < i < chunks.len() && (#[trigger] chunks[i]) is ClusterHead ==> (chunks[i
                - 1] is Headers || chunks[i - 1] is ClusterBody),
    decreases chunks.len(),
{
    if chunks.len() > 0 {
        let p2 = match shape_step(pos, chunks[0]) {
            Option::Some(p2) => p2,
            Option::None => pos,
        };
        let rest = chunks.drop_first();
        lemma_scan_shape_facts(rest, p2);
        assert forall|i: int|
            0 < i < chunks.len() && (#[trigger] chunks[i]) is ClusterBody implies chunks[i
            - 1] is ClusterHead by {
            assert(chunks[i] == rest[i - 1]);
            if i > 1 {
                assert(chunks[i - 1] == rest[i - 2]);
            } else {
                // rest[0] is a body, so the scan position after chunks[0]
                // owes a body: chunks[0] must be a cluster head
                assert(p2 == ShapePos::PendingBody);
            }
        }
        assert forall|i: int|
            0 < i < chunks.len() && (#[trigger] chunks[i]) is ClusterHead implies (chunks[i
            - 1] is Headers || chunks[i - 1] is ClusterBody) by {
            assert(chunks[i] == rest[i - 1]);
            if i > 1 {
                assert(chunks[i - 1] == rest[i - 2]);
            } else {
                assert(p2 == ShapePos::BetweenClusters);
            }
        }
    }
}

/// After a restart element arrives mid-cluster, the pending cluster's head
/// and body are both emitted before the new header prefix is even begun:
/// the first pull returns the `ClusterHead`, the next returns the
/// `ClusterBody`, and only then does the chunker resume building headers,
/// with the restart element already buffered.
pub proof fn lemma_restart_flushes_cluster(
    head: ClusterHeadModel,
    body: Seq<u8>,
    e: WebmElementModel,
    rest: Seq<SourcePoll>,
    limit: Option<usize>,
)
    requires
        e is EbmlHead || e is Segment,
        !soft_limit_reached(limit, 0),
    ensures
        ({
            let d1 = drive(
                ChunkerStateModel::BuildingCluster(head, body),
                seq![SourcePoll::Event(e)] + rest,
                limit,
            );
            let d2 = drive(d1.state, d1.pending, limit);
            d1.out == ChunkerOut::Chunk(ChunkModel::ClusterHead(head)) && d2.out
                == ChunkerOut::Chunk(ChunkModel::ClusterBody { bytes: body }) && d2.state
                == ChunkerStateModel::BuildingHeader(encode_elem(e)) && d2.pending == rest
        }),
{
    let pending = seq![SourcePoll::Event(e)] + rest;
    assert(pending[0] == SourcePoll::Event(e));
    assert(pending.drop_first() =~= rest);
}

/// End of input during a cluster causes exactly one final
/// `ClusterHead` + `ClusterBody` pair to be emitted, and then end of
/// stream: the whole remaining run is that one pair.
pub proof fn lemma_end_of_input_flushes_cluster(head: ClusterHeadModel, body: Seq<u8>, limit: Option<usize>)
    ensures
        run_chunker(ChunkerStateModel::BuildingCluster(head, body), Seq::empty(), limit) == seq![
            ChunkModel::ClusterHead(head),
            ChunkModel::ClusterBody { bytes: body },
        ],
        ({
            let d1 = drive(ChunkerStateModel::BuildingCluster(head, body), Seq::empty(), limit);
            let d2 = drive(d1.state, d1.pending, limit);
            let d3 = drive(d2.state, d2.pending, limit);
            d1.out == ChunkerOut::Chunk(ChunkModel::ClusterHead(head)) && d2.out
                == ChunkerOut::Chunk(ChunkModel::ClusterBody { bytes: body }) && d3.out
                == ChunkerOut::End && d3.state == ChunkerStateModel::End
        }),
{
    let st = ChunkerStateModel::BuildingCluster(head, body);
    let d1 = drive(st, Seq::empty(), limit);
    let d2 = drive(d1.state, d1.pending, limit);
    assert(run_chunker(d2.state, d2.pending, limit) == Seq::<ChunkModel>::empty());
    assert(run_chunker(d1.state, d1.pending, limit) == seq![
        ChunkModel::ClusterBody { bytes: body },
    ] + Seq::<ChunkModel>::empty());
    assert(run_chunker(st, Seq::empty(), limit) =~= seq![
        ChunkModel::ClusterHead(head),
        ChunkModel::ClusterBody { bytes: body },
    ]);
}

/// The bytes one source outcome contributes to a buffer the chunker is
/// filling: the element's image when it is an event the chunker keeps,
/// nothing otherwise.
pub open spec fn strip_encode(outcomes: Seq<SourcePoll>) -> Seq<u8>
    decreases outcomes.len(),
{
    if outcomes.len() == 0 {
        Seq::empty()
    } else {
        (match outcomes[0] {
            SourcePoll::Event(e) => if elem_stripped(e) {
                Seq::empty()
            } else {
                encode_elem(e)
            },
            _ => Seq::empty(),
        }) + strip_encode(outcomes.drop_first())
    }
}

/// The elements among a run of source outcomes that the chunker keeps.
pub open spec fn kept_events(outcomes: Seq<SourcePoll>) -> Seq<WebmElementModel>
    decreases outcomes.len(),
{
    if outcomes.len() == 0 {
        Seq::empty()
    } else {
        (match outcomes[0] {
            SourcePoll::Event(e) => if elem_stripped(e) {
                Seq::empty()
            } else {
                seq![e]
            },
            SourcePoll::NotReady => Seq::empty(),
            SourcePoll::SourceErr(_) => Seq::empty(),
        }) + kept_events(outcomes.drop_first())
    }
}

/// What a filling buffer accumulates is exactly the images of the kept
/// elements, in order.
pub proof fn lemma_strip_encode_is_encode_all(outcomes: Seq<SourcePoll>)
    ensures
        strip_encode(outcomes) == encode_all(kept_events(outcomes)),
    decreases outcomes.len(),
{
    if outcomes.len() > 0 {
        let rest = outcomes.drop_first();
        lemma_strip_encode_is_encode_all(rest);
        match outcomes[0] {
            SourcePoll::Event(e) => {
                if elem_stripped(e) {
                    assert(kept_events(outcomes) =~= kept_events(rest));
                    assert(strip_encode(outcomes) =~= strip_encode(rest));
                } else {
                    let ke = kept_events(outcomes);
                    assert(ke =~= seq![e] + kept_events(rest));
                    assert(ke.len() > 0 && ke[0] == e);
                    assert(ke.drop_first() =~= kept_events(rest));
                    assert(encode_all(ke) == encode_elem(e) + encode_all(ke.drop_first()));
                    assert(strip_encode(outcomes) =~= encode_all(ke));
                }
            },
            _ => {
                assert(kept_events(outcomes) =~= kept_events(rest));
                assert(strip_encode(outcomes) =~= strip_encode(rest));
            },
        }
    }
}

/// A `Headers` chunk carries its starting buffer followed by the images of
/// exactly the kept events up to, and not including, the cluster marker
/// that triggered its emission.
pub proof fn lemma_header_bytes(buffer: Seq<u8>, pending: Seq<SourcePoll>, limit: Option<usize>)
    ensures
        ({
            let d = drive(ChunkerStateModel::BuildingHeader(buffer), pending, limit);
            match d.out {
                ChunkerOut::Chunk(ChunkModel::Headers { bytes }) => {
                    let n = pending.len() - d.pending.len();
                    1 <= n <= pending.len() && pending[n - 1] == SourcePoll::Event(
                        WebmElementModel::Cluster,
                    ) && bytes == buffer + strip_encode(pending.take(n - 1)) && d.pending
                        == pending.skip(n)
                },
                _ => true,
            }
        }),
    decreases pending.len(),
{
    if pending.len() > 0 {
        let rest = pending.drop_first();
        let d = drive(ChunkerStateModel::BuildingHeader(buffer), pending, limit);
        match pending[0] {
            SourcePoll::Event(e) => {
                if e is Cluster {
                    assert(pending.take(0) =~= Seq::<SourcePoll>::empty());
                    assert(buffer + strip_encode(pending.take(0)) =~= buffer);
                    assert(d.pending =~= pending.skip(1));
                } else if elem_stripped(e) {
                    lemma_header_bytes(buffer, rest, limit);
                    let d2 = drive(ChunkerStateModel::BuildingHeader(buffer), rest, limit);
                    assert(d == d2);
                    match d.out {
                        ChunkerOut::Chunk(ChunkModel::Headers { bytes }) => {
                            let n2 = rest.len() - d2.pending.len();
                            let n = pending.len() - d.pending.len();
                            assert(n == n2 + 1);
                            let t = pending.take(n - 1);
                            assert(t.len() == n2);
                            assert(t[0] == pending[0]);
                            assert(t.drop_first() =~= rest.take(n2 - 1));
                            assert(strip_encode(t) =~= strip_encode(rest.take(n2 - 1)));
                            assert(pending[n - 1] == rest[n2 - 1]);
                            assert(pending.skip(n) =~= rest.skip(n2));
                        },
                        _ => {},
                    }
                } else if !soft_limit_reached(limit, buffer.len()) {
                    lemma_header_bytes(buffer + encode_elem(e), rest, limit);
                    let d2 = drive(
                        ChunkerStateModel::BuildingHeader(buffer + encode_elem(e)),
                        rest,
                        limit,
                    );
                    assert(d == d2);
                    match d.out {
                        ChunkerOut::Chunk(ChunkModel::Headers { bytes }) => {
                            let n2 = rest.len() - d2.pending.len();
                            let n = pending.len() - d.pending.len();
                            assert(n == n2 + 1);
                            let t = pending.take(n - 1);
                            assert(t.len() == n2);
                            assert(t[0] == pending[0]);
                            assert(t.drop_first() =~= rest.take(n2 - 1));
                            assert(strip_encode(t) == encode_elem(e) + strip_encode(
                                rest.take(n2 - 1),
                            ));
                            assert(bytes == (buffer + encode_elem(e)) + strip_encode(
                                rest.take(n2 - 1),
                            ));
                            assert((buffer + encode_elem(e)) + strip_encode(rest.take(n2 - 1))
                                =~= buffer + strip_encode(t));
                            assert(pending[n - 1] == rest[n2 - 1]);
                            assert(pending.skip(n) =~= rest.skip(n2));
                        },
                        _ => {},
                    }
                }
            },
            _ => {},
        }
    }
}

/// All events a run of outcomes keeps are well-formed and recognized when
/// every event in the run is.
pub proof fn lemma_kept_events_wf(outcomes: Seq<SourcePoll>)
    requires
        forall|i: int|
            0 <= i < outcomes.len() ==> match #[trigger] outcomes[i] {
                SourcePoll::Event(e) => elem_wf(e),
                _ => true,
            },
    ensures
        forall|i: int|
            0 <= i < kept_events(outcomes).len() ==> elem_wf(#[trigger] kept_events(outcomes)[i])
                && !(kept_events(outcomes)[i] is Unknown),
    decreases outcomes.len(),
{
    if outcomes.len() > 0 {
        let rest = outcomes.drop_first();
        lemma_kept_events_wf(rest);
        let ke = kept_events(outcomes);
        let kr = kept_events(rest);
        assert forall|i: int|
            0 <= i < ke.len() implies elem_wf(#[trigger] ke[i]) && !(ke[i] is Unknown) by {
            match outcomes[0] {
                SourcePoll::Event(e) => {
                    if elem_stripped(e) {
                        assert(ke[i] == (Seq::<WebmElementModel>::empty() + kr)[i]);
                        assert(ke[i] == kr[i]);
                    } else {
                        if i == 0 {
                            assert(ke[0] == e);
                        } else {
                            assert(ke[i] == (seq![e] + kr)[i]);
                            assert(ke[i] == kr[i - 1]);
                        }
                    }
                },
                _ => {
                    assert(ke[i] == (Seq::<WebmElementModel>::empty() + kr)[i]);
                    assert(ke[i] == kr[i]);
                },
            }
        }
    }
}

/// Round trip for the header prefix: decoding the bytes of a `Headers`
/// chunk built from an empty buffer yields exactly the input elements up to
/// its cluster marker, minus the stripped ones.
pub proof fn lemma_headers_round_trip(pending: Seq<SourcePoll>, limit: Option<usize>)
    requires
        forall|i: int|
            0 <= i < pending.len() ==> match #[trigger] pending[i] {
                SourcePoll::Event(e) => elem_wf(e),
                _ => true,
            },
    ensures
        ({
            let d = drive(ChunkerStateModel::BuildingHeader(Seq::empty()), pending, limit);
            match d.out {
                ChunkerOut::Chunk(ChunkModel::Headers { bytes }) => {
                    let n = pending.len() - d.pending.len();
                    spec_events(bytes, Option::None) == kept_events(
                        pending.take(n - 1),
                    ).map_values(|e: WebmElementModel| SourcePoll::Event(e))
                },
                _ => true,
            }
        }),
{
    lemma_header_bytes(Seq::empty(), pending, limit);
    let d = drive(ChunkerStateModel::BuildingHeader(Seq::empty()), pending, limit);
    match d.out {
        ChunkerOut::Chunk(ChunkModel::Headers { bytes }) => {
            let n = pending.len() - d.pending.len();
            let t = pending.take(n - 1);
            assert(forall|i: int|
                0 <= i < t.len() ==> match #[trigger] t[i] {
                    SourcePoll::Event(e) => elem_wf(e),
                    _ => true,
                });
            lemma_kept_events_wf(t);
            lemma_strip_encode_is_encode_all(t);
            assert(bytes =~= encode_all(kept_events(t)));
            lemma_encode_parse_round_trip(kept_events(t));
        },
        _ => {},
    }
}


/// The bytes one source outcome contributes to a cluster body: the
/// element's image, unless the chunker strips it or absorbs it into the
/// cluster head, as it does every timecode.
pub open spec fn cluster_strip_encode(outcomes: Seq<SourcePoll>) -> Seq<u8>
    decreases outcomes.len(),
{
    if outcomes.len() == 0 {
        Seq::empty()
    } else {
        (match outcomes[0] {
            SourcePoll::Event(e) => if elem_stripped(e) || e is Timecode {
                Seq::empty()
            } else {
                encode_elem(e)
            },
            _ => Seq::empty(),
        }) + cluster_strip_encode(outcomes.drop_first())
    }
}

/// The body buffer an emitting state carries.
pub open spec fn emitting_body(st: ChunkerStateModel) -> Option<Seq<u8>> {
    match st {
        ChunkerStateModel::EmittingClusterBody(b) => Option::Some(b),
        ChunkerStateModel::EmittingClusterBodyBeforeNewHeader { body, .. } => Option::Some(body),
        ChunkerStateModel::EmittingFinalClusterBody(b) => Option::Some(b),
        _ => Option::None,
    }
}

/// Whether a pending outcome is one of the events that end the cluster
/// being built.
pub open spec fn is_cluster_end(o: SourcePoll) -> bool {
    match o {
        SourcePoll::Event(e) => e is Cluster || e is EbmlHead || e is Segment,
        _ => false,
    }
}

/// The cluster content among `n` consumed outcomes: all of them, except a
/// final cluster-ending marker, which opens the next cluster or header
/// instead.
pub open spec fn consumed_content(pending: Seq<SourcePoll>, n: int) -> Seq<SourcePoll> {
    if n >= 1 && is_cluster_end(pending[n - 1]) {
        pending.take(n - 1)
    } else {
        pending.take(n)
    }
}

/// When a cluster head is emitted, the body owed next carries the starting
/// buffer followed by the images of exactly the kept, non-timecode events
/// consumed while the cluster was building.
pub proof fn lemma_cluster_body_bytes(
    head: ClusterHeadModel,
    body: Seq<u8>,
    pending: Seq<SourcePoll>,
    limit: Option<usize>,
)
    ensures
        ({
            let d = drive(ChunkerStateModel::BuildingCluster(head, body), pending, limit);
            match d.out {
                ChunkerOut::Chunk(ChunkModel::ClusterHead(_)) => {
                    let n = pending.len() - d.pending.len();
                    0 <= n <= pending.len() && emitting_body(d.state) == Option::Some(
                        body + cluster_strip_encode(consumed_content(pending, n)),
                    ) && d.pending == pending.skip(n)
                },
                _ => true,
            }
        }),
    decreases pending.len(),
{
    if pending.len() == 0 {
        assert(consumed_content(pending, 0) =~= Seq::<SourcePoll>::empty());
        assert(body + cluster_strip_encode(consumed_content(pending, 0)) =~= body);
        assert(pending.skip(0) =~= pending);
    } else {
        let rest = pending.drop_first();
        let d = drive(ChunkerStateModel::BuildingCluster(head, body), pending, limit);
        match pending[0] {
            SourcePoll::Event(e) => {
                if e is Cluster || e is EbmlHead || e is Segment {
                    assert(consumed_content(pending, 1) =~= Seq::<SourcePoll>::empty());
                    assert(body + cluster_strip_encode(consumed_content(pending, 1)) =~= body);
                    assert(d.pending =~= pending.skip(1));
                } else if elem_stripped(e) || e is Timecode {
                    let h2 = match e {
                        WebmElementModel::Timecode(t) => head_with_timecode(head, t),
                        _ => head,
                    };
                    assert(drive(ChunkerStateModel::BuildingCluster(head, body), pending, limit)
                        == drive(ChunkerStateModel::BuildingCluster(h2, body), rest, limit));
                    lemma_cluster_body_bytes_step(head, body, body, pending, limit);
                } else if !soft_limit_reached(limit, body.len()) {
                    let h2 = match e {
                        WebmElementModel::SimpleBlock(b) => head_observe(
                            head_mark_keyframe(head, b.flags),
                            b.timecode,
                        ),
                        _ => head,
                    };
                    assert(drive(ChunkerStateModel::BuildingCluster(head, body), pending, limit)
                        == drive(
                        ChunkerStateModel::BuildingCluster(h2, body + encode_elem(e)),
                        rest,
                        limit,
                    ));
                    lemma_cluster_body_bytes_step(head, body, body + encode_elem(e), pending, limit);
                }
            },
            _ => {},
        }
    }
}

/// Step case of [`lemma_cluster_body_bytes`]: one consumed event either
/// leaves the body alone or lands its image at the end of it.
proof fn lemma_cluster_body_bytes_step(
    head: ClusterHeadModel,
    body: Seq<u8>,
    body2: Seq<u8>,
    pending: Seq<SourcePoll>,
    limit: Option<usize>,
)
    requires
        pending.len() > 0,
        !is_cluster_end(pending[0]),
        pending[0] is Event,
        ({
            let contribution = match pending[0] {
                SourcePoll::Event(e) => if elem_stripped(e) || e is Timecode {
                    Seq::<u8>::empty()
                } else {
                    encode_elem(e)
                },
                _ => Seq::<u8>::empty(),
            };
            body2 == body + contribution
        }),
        exists|h2: ClusterHeadModel|
            drive(ChunkerStateModel::BuildingCluster(head, body), pending, limit) == #[trigger] drive(
                ChunkerStateModel::BuildingCluster(h2, body2),
                pending.drop_first(),
                limit,
            ),
    ensures
        ({
            let d = drive(ChunkerStateModel::BuildingCluster(head, body), pending, limit);
            match d.out {
                ChunkerOut::Chunk(ChunkModel::ClusterHead(_)) => {
                    let n = pending.len() - d.pending.len();
                    0 <= n <= pending.len() && emitting_body(d.state) == Option::Some(
                        body + cluster_strip_encode(consumed_content(pending, n)),
                    ) && d.pending == pending.skip(n)
                },
                _ => true,
            }
        }),
    decreases pending.len(), 0int,
{
    let rest = pending.drop_first();
    let h2 = choose|h2: ClusterHeadModel|
        drive(ChunkerStateModel::BuildingCluster(head, body), pending, limit) == #[trigger] drive(
            ChunkerStateModel::BuildingCluster(h2, body2),
            rest,
            limit,
        );
    lemma_cluster_body_bytes(h2, body2, rest, limit);
    let d = drive(ChunkerStateModel::BuildingCluster(head, body), pending, limit);
    match d.out {
        ChunkerOut::Chunk(ChunkModel::ClusterHead(_)) => {
            let n2 = rest.len() - d.pending.len();
            let n = pending.len() - d.pending.len();
            assert(n == n2 + 1);
            let t = consumed_content(pending, n);
            let t2 = consumed_content(rest, n2);
            if n2 >= 1 {
                assert(pending[n - 1] == rest[n2 - 1]);
            }
            assert(t.len() == 1 + t2.len());
            assert(t[0] == pending[0]);
            assert(t.drop_first() =~= t2);
            let contribution = match pending[0] {
                SourcePoll::Event(e) => if elem_stripped(e) || e is Timecode {
                    Seq::<u8>::empty()
                } else {
                    encode_elem(e)
                },
                _ => Seq::<u8>::empty(),
            };
            assert(cluster_strip_encode(t) == contribution + cluster_strip_encode(
                t.drop_first(),
            ));
            assert((body + contribution) + cluster_strip_encode(t2) =~= body
                + cluster_strip_encode(t));
            assert(pending.skip(n) =~= rest.skip(n2));
        },
        _ => {},
    }
}

/// The elements among a run of source outcomes that end up in a cluster
/// body: the kept ones, less the timecodes the head absorbs.
pub open spec fn kept_cluster_events(outcomes: Seq<SourcePoll>) -> Seq<WebmElementModel>
    decreases outcomes.len(),
{
    if outcomes.len() == 0 {
        Seq::empty()
    } else {
        (match outcomes[0] {
            SourcePoll::Event(e) => if elem_stripped(e) || e is Timecode {
                Seq::empty()
            } else {
                seq![e]
            },
            SourcePoll::NotReady => Seq::empty(),
            SourcePoll::SourceErr(_) => Seq::empty(),
        }) + kept_cluster_events(outcomes.drop_first())
    }
}

/// A cluster body accumulates exactly the images of its kept elements, in
/// order.
pub proof fn lemma_cluster_strip_encode_is_encode_all(outcomes: Seq<SourcePoll>)
    ensures
        cluster_strip_encode(outcomes) == encode_all(kept_cluster_events(outcomes)),
    decreases outcomes.len(),
{
    if outcomes.len() > 0 {
        let rest = outcomes.drop_first();
        lemma_cluster_strip_encode_is_encode_all(rest);
        let ke = kept_cluster_events(outcomes);
        match outcomes[0] {
            SourcePoll::Event(e) => {
                if elem_stripped(e) || e is Timecode {
                    assert(ke =~= kept_cluster_events(rest));
                    assert(cluster_strip_encode(outcomes) =~= cluster_strip_encode(rest));
                } else {
                    assert(ke =~= seq![e] + kept_cluster_events(rest));
                    assert(ke.len() > 0 && ke[0] == e);
                    assert(ke.drop_first() =~= kept_cluster_events(rest));
                    assert(encode_all(ke) == encode_elem(e) + encode_all(ke.drop_first()));
                    assert(cluster_strip_encode(outcomes) =~= encode_all(ke));
                }
            },
            _ => {
                assert(ke =~= kept_cluster_events(rest));
                assert(cluster_strip_encode(outcomes) =~= cluster_strip_encode(rest));
            },
        }
    }
}

/// All elements a cluster body keeps are well-formed and recognized when
/// every event in the run is.
pub proof fn lemma_kept_cluster_events_wf(outcomes: Seq<SourcePoll>)
    requires
        forall|i: int|
            0 <= i < outcomes.len() ==> match #[trigger] outcomes[i] {
                SourcePoll::Event(e) => elem_wf(e),
                _ => true,
            },
    ensures
        forall|i: int|
            0 <= i < kept_cluster_events(outcomes).len() ==> elem_wf(
                #[trigger] kept_cluster_events(outcomes)[i],
            ) && !(kept_cluster_events(outcomes)[i] is Unknown),
    decreases outcomes.len(),
{
    if outcomes.len() > 0 {
        let rest = outcomes.drop_first();
        lemma_kept_cluster_events_wf(rest);
        let ke = kept_cluster_events(outcomes);
        let kr = kept_cluster_events(rest);
        assert forall|i: int|
            0 <= i < ke.len() implies elem_wf(#[trigger] ke[i]) && !(ke[i] is Unknown) by {
            match outcomes[0] {
                SourcePoll::Event(e) => {
                    if elem_stripped(e) || e is Timecode {
                        assert(ke[i] == (Seq::<WebmElementModel>::empty() + kr)[i]);
                        assert(ke[i] == kr[i]);
                    } else {
                        if i == 0 {
                            assert(ke[0] == e);
                        } else {
                            assert(ke[i] == (seq![e] + kr)[i]);
                            assert(ke[i] == kr[i - 1]);
                        }
                    }
                },
                _ => {
                    assert(ke[i] == (Seq::<WebmElementModel>::empty() + kr)[i]);
                    assert(ke[i] == kr[i]);
                },
            }
        }
    }
}

/// Round trip for a cluster body: decoding the body that a fresh cluster
/// accumulated yields exactly the cluster's input elements, minus the
/// stripped ones and the timecodes its head absorbed.
pub proof fn lemma_cluster_body_round_trip(
    head: ClusterHeadModel,
    pending: Seq<SourcePoll>,
    limit: Option<usize>,
)
    requires
        forall|i: int|
            0 <= i < pending.len() ==> match #[trigger] pending[i] {
                SourcePoll::Event(e) => elem_wf(e),
                _ => true,
            },
    ensures
        ({
            let d = drive(ChunkerStateModel::BuildingCluster(head, Seq::empty()), pending, limit);
            match d.out {
                ChunkerOut::Chunk(ChunkModel::ClusterHead(_)) => {
                    let n = pending.len() - d.pending.len();
                    let content = consumed_content(pending, n);
                    match emitting_body(d.state) {
                        Option::Some(bytes) => spec_events(bytes, Option::None)
                            == kept_cluster_events(content).map_values(
                            |e: WebmElementModel| SourcePoll::Event(e),
                        ),
                        Option::None => false,
                    }
                },
                _ => true,
            }
        }),
{
    lemma_cluster_body_bytes(head, Seq::empty(), pending, limit);
    let d = drive(ChunkerStateModel::BuildingCluster(head, Seq::empty()), pending, limit);
    match d.out {
        ChunkerOut::Chunk(ChunkModel::ClusterHead(_)) => {
            let n = pending.len() - d.pending.len();
            let content = consumed_content(pending, n);
            assert(forall|i: int|
                0 <= i < content.len() ==> match #[trigger] content[i] {
                    SourcePoll::Event(e) => elem_wf(e),
                    _ => true,
                });
            lemma_kept_cluster_events_wf(content);
            lemma_cluster_strip_encode_is_encode_all(content);
            match emitting_body(d.state) {
                Option::Some(bytes) => {
                    assert(bytes =~= encode_all(kept_cluster_events(content)));
                    lemma_encode_parse_round_trip(kept_cluster_events(content));
                },
                Option::None => {},
            }
        },
        _ => {},
    }
}


} // verus!
