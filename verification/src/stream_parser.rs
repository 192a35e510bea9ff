//! The event source: a pull interface yielding typed WebM elements, and a
//! concrete source that decodes them from a fully buffered byte stream.

use vstd::prelude::*;
use crate::error::WebmetroError;
use crate::webm::{
    WebmElement, WebmElementModel, elem_wf, spec_parse_elem, decode_element, encode_elem,
    lemma_parse_elem_ok, lemma_parse_encode,
};

verus! {

/// The readiness wrapper of the pull interface: a pull either completes with
/// a value or signals that the caller should come back later.
#[derive(Clone, Copy, Debug, PartialEq)]
pub enum Async<T> {
    Ready(T),
    NotReady,
}

/// Model of one pull outcome an event source has in store.
pub enum SourcePoll {
    NotReady,
    Event(WebmElementModel),
    SourceErr(WebmetroError),
}

/// The model of what one exec pull returned.
pub enum EventResultModel {
    NotReady,
    End,
    Event(WebmElementModel),
    Failed(WebmetroError),
}

/// The model of an exec pull result.
pub open spec fn event_result_view(r: Result<Async<Option<WebmElement>>, WebmetroError>) -> EventResultModel {
    match r {
        Result::Ok(Async::NotReady) => EventResultModel::NotReady,
        Result::Ok(Async::Ready(Option::None)) => EventResultModel::End,
        Result::Ok(Async::Ready(Option::Some(e))) => EventResultModel::Event(e@),
        Result::Err(er) => EventResultModel::Failed(er),
    }
}

/// What delivering the pending outcome `o` means for an exec result: the
/// matching result shape, and a well-formed element where one is handed out.
pub open spec fn outcome_matches(
    o: SourcePoll,
    r: Result<Async<Option<WebmElement>>, WebmetroError>,
) -> bool {
    match o {
        SourcePoll::NotReady => event_result_view(r) == EventResultModel::NotReady,
        SourcePoll::Event(e) => event_result_view(r) == EventResultModel::Event(e) && elem_wf(e),
        SourcePoll::SourceErr(er) => event_result_view(r) == EventResultModel::Failed(er),
    }
}

/// A pull-based producer of WebM elements. `pending` models the outcomes it
/// will deliver, in order; once they are spent every further pull reports a
/// clean end of stream.
pub trait EbmlEventSource: Sized {
    spec fn pending(&self) -> Seq<SourcePoll>;

    fn poll_event(&mut self) -> (r: Result<Async<Option<WebmElement>>, WebmetroError>)
        ensures
            if old(self).pending().len() == 0 {
                final(self).pending() == old(self).pending() && event_result_view(r)
                    == EventResultModel::End
            } else {
                final(self).pending() == old(self).pending().drop_first() && outcome_matches(
                    old(self).pending()[0],
                    r,
                )
            },
    ;
}

/// True when a soft limit is set and an element of `k` bytes would overrun
/// a buffer of that size.
pub open spec fn soft_limit_hit(limit: Option<usize>, k: int) -> bool {
    match limit {
        Option::None => false,
        Option::Some(l) => k > l,
    }
}

/// The pull outcomes a byte buffer yields: its elements in order, ending
/// cleanly, or with the parse error the bytes run into, or with
/// `ResourcesExceeded` at the first element larger than the soft limit.
pub open spec fn spec_events(s: Seq<u8>, limit: Option<usize>) -> Seq<SourcePoll>
    decreases s.len(),
{
    match spec_parse_elem(s) {
        Result::Err(e) => seq![SourcePoll::SourceErr(WebmetroError::EbmlError(e))],
        Result::Ok(Option::None) => Seq::empty(),
        Result::Ok(Option::Some((e, k))) => if soft_limit_hit(limit, k) {
            seq![SourcePoll::SourceErr(WebmetroError::ResourcesExceeded)]
        } else if 1 <= k <= s.len() {
            seq![SourcePoll::Event(e)] + spec_events(s.skip(k), limit)
        } else {
            Seq::empty()
        },
    }
}

/// An event source over a fully buffered byte stream. Network sources hand
/// their bytes to one of these once a request body has been read.
pub struct EbmlCursor {
    bytes: Vec<u8>,
    position: usize,
    buffer_size_limit: Option<usize>,
}

impl EbmlCursor {
    /// The bytes not yet consumed.
    pub closed spec fn remaining_bytes(&self) -> Seq<u8> {
        if self.position as int <= self.bytes@.len() {
            self.bytes@.skip(self.position as int)
        } else {
            Seq::empty()
        }
    }

    /// The configured soft element-size limit.
    pub closed spec fn limit_spec(&self) -> Option<usize> {
        self.buffer_size_limit
    }

    pub fn new(bytes: Vec<u8>) -> (r: EbmlCursor)
        ensures
            r.remaining_bytes() == bytes@,
            r.limit_spec() == Option::<usize>::None,
    {
        let r = EbmlCursor { bytes, position: 0, buffer_size_limit: Option::None };
        proof {
            assert(r.remaining_bytes() =~= r.bytes@);
        }
        r
    }

    /// Add a soft element-size limit: an element larger than `limit` errors
    /// the stream with `ResourcesExceeded` instead of being delivered.
    pub fn with_soft_limit(self, limit: usize) -> (r: EbmlCursor)
        ensures
            r.remaining_bytes() == self.remaining_bytes(),
            r.limit_spec() == Option::Some(limit),
    {
        EbmlCursor { buffer_size_limit: Option::Some(limit), ..self }
    }
}

impl EbmlEventSource for EbmlCursor {
    open spec fn pending(&self) -> Seq<SourcePoll> {
        spec_events(self.remaining_bytes(), self.limit_spec())
    }

    fn poll_event(&mut self) -> (r: Result<Async<Option<WebmElement>>, WebmetroError>) {
        let pos = if self.position > self.bytes.len() {
            self.bytes.len()
        } else {
            self.position
        };
        let ghost s = self.bytes@.skip(pos as int);
        assert(s == old(self).remaining_bytes());
        proof {
            lemma_parse_elem_ok(s);
        }
        match decode_element(&self.bytes, pos) {
            Result::Err(e) => {
                self.position = self.bytes.len();
                assert(self.remaining_bytes() =~= Seq::<u8>::empty());
                Result::Err(WebmetroError::EbmlError(e))
            },
            Result::Ok(Option::None) => {
                self.position = pos;
                assert(self.remaining_bytes() =~= s);
                Result::Ok(Async::Ready(Option::None))
            },
            Result::Ok(Option::Some((elem, new_pos))) => {
                let k = new_pos - pos;
                let over = match self.buffer_size_limit {
                    Option::Some(l) => k > l,
                    Option::None => false,
                };
                if over {
                    self.position = self.bytes.len();
                    assert(self.remaining_bytes() =~= Seq::<u8>::empty());
                    Result::Err(WebmetroError::ResourcesExceeded)
                } else {
                    self.position = new_pos;
                    assert(self.remaining_bytes() =~= s.skip(k as int));
                    assert(old(self).pending().drop_first() =~= self.pending());
                    Result::Ok(Async::Ready(Option::Some(elem)))
                }
            },
        }
    }
}

/// The byte image of a sequence of elements, in order.
pub open spec fn encode_all(es: Seq<WebmElementModel>) -> Seq<u8>
    decreases es.len(),
{
    if es.len() == 0 {
        Seq::empty()
    } else {
        encode_elem(es[0]) + encode_all(es.drop_first())
    }
}

/// Round trip: the byte image of any sequence of well-formed, recognized
/// elements parses back, without a limit, to exactly those elements in order.
pub proof fn lemma_encode_parse_round_trip(es: Seq<WebmElementModel>)
    requires
        forall|i: int|
            0 <= i < es.len() ==> elem_wf(#[trigger] es[i]) && !(es[i] is Unknown),
    ensures
        spec_events(encode_all(es), Option::None) == es.map_values(
            |e: WebmElementModel| SourcePoll::Event(e),
        ),
    decreases es.len(),
{
    let f = |e: WebmElementModel| SourcePoll::Event(e);
    if es.len() == 0 {
        assert(encode_all(es) == Seq::<u8>::empty());
        assert(es.map_values(f) =~= Seq::<SourcePoll>::empty());
    } else {
        let e = es[0];
        let rest = es.drop_first();
        let tail_bytes = encode_all(rest);
        lemma_parse_encode(e, tail_bytes);
        let whole = encode_all(es);
        let k = encode_elem(e).len() as int;
        lemma_parse_elem_ok(whole);
        assert(whole.skip(k) =~= tail_bytes);
        lemma_encode_parse_round_trip(rest);
        assert(spec_events(whole, Option::None) == seq![SourcePoll::Event(e)] + spec_events(
            tail_bytes,
            Option::None,
        ));
        assert(es.map_values(f) =~= seq![SourcePoll::Event(e)] + rest.map_values(f));
    }
}

} // verus!
