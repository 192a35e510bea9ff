//! The WebM element vocabulary and its byte codec.
//!
//! Elements are encoded as EBML: an id (marker bits kept), a size varint, and
//! a payload. `Segment` and `Cluster` open with the unknown-size marker, as a
//! live stream cannot know their extent in advance; every other element
//! carries its exact payload size.

use vstd::prelude::*;
use crate::ebml::{
    EbmlError, Varint, be_acc, varint_len, varint_marker, spec_varint, spec_parse_id,
    spec_uint_be, u64_be, size8, decode_varint, decode_id, decode_uint, push_u64_be, push_size8,
};

verus! {

pub const EBML_HEAD_ID: u64 = 0x1A45DFA3;
pub const SEGMENT_ID: u64 = 0x18538067;
pub const INFO_ID: u64 = 0x1549A966;
pub const TRACKS_ID: u64 = 0x1654AE6B;
pub const CLUSTER_ID: u64 = 0x1F43B675;
pub const TIMECODE_ID: u64 = 0xE7;
pub const SIMPLE_BLOCK_ID: u64 = 0xA3;
pub const VOID_ID: u64 = 0xEC;

/// One media frame, with its cluster-relative timecode. The high bit of
/// `flags` marks a keyframe.
#[derive(Clone, Debug, PartialEq)]
pub struct SimpleBlock {
    pub flags: u8,
    pub timecode: i16,
    pub data: Vec<u8>,
}

/// The mathematical image of a `SimpleBlock`.
pub struct SimpleBlockModel {
    pub flags: u8,
    pub timecode: i16,
    pub data: Seq<u8>,
}

impl View for SimpleBlock {
    type V = SimpleBlockModel;

    open spec fn view(&self) -> SimpleBlockModel {
        SimpleBlockModel { flags: self.flags, timecode: self.timecode, data: self.data@ }
    }
}

/// One decoded element of a WebM stream, as the chunker consumes them.
#[derive(Clone, Debug, PartialEq)]
pub enum WebmElement {
    EbmlHead,
    Void,
    Segment,
    Info,
    Cluster,
    Timecode(u64),
    Tracks(Vec<u8>),
    SimpleBlock(SimpleBlock),
    Unknown(u64),
}

/// The mathematical image of a `WebmElement`.
pub enum WebmElementModel {
    EbmlHead,
    Void,
    Segment,
    Info,
    Cluster,
    Timecode(u64),
    Tracks(Seq<u8>),
    SimpleBlock(SimpleBlockModel),
    Unknown(u64),
}

impl View for WebmElement {
    type V = WebmElementModel;

    open spec fn view(&self) -> WebmElementModel {
        match self {
            WebmElement::EbmlHead => WebmElementModel::EbmlHead,
            WebmElement::Void => WebmElementModel::Void,
            WebmElement::Segment => WebmElementModel::Segment,
            WebmElement::Info => WebmElementModel::Info,
            WebmElement::Cluster => WebmElementModel::Cluster,
            WebmElement::Timecode(t) => WebmElementModel::Timecode(*t),
            WebmElement::Tracks(d) => WebmElementModel::Tracks(d@),
            WebmElement::SimpleBlock(b) => WebmElementModel::SimpleBlock(b@),
            WebmElement::Unknown(id) => WebmElementModel::Unknown(*id),
        }
    }
}

/// An element whose payload fits a size varint; every element the event
/// source hands out satisfies this.
pub open spec fn elem_wf(e: WebmElementModel) -> bool {
    match e {
        WebmElementModel::Tracks(d) => d.len() < 0xFFFFFFFFFFFFFF,
        WebmElementModel::SimpleBlock(b) => b.data.len() + 4 < 0xFFFFFFFFFFFFFF,
        _ => true,
    }
}

/// The elements the chunker silently drops.
pub open spec fn elem_stripped(e: WebmElementModel) -> bool {
    e is Info || e is Void || e is Unknown
}

pub open spec fn ebml_head_bytes() -> Seq<u8> {
    seq![0x1Au8, 0x45u8, 0xDFu8, 0xA3u8, 0x80u8]
}

pub open spec fn segment_bytes() -> Seq<u8> {
    seq![0x18u8, 0x53u8, 0x80u8, 0x67u8, 0xFFu8]
}

pub open spec fn cluster_open_bytes() -> Seq<u8> {
    seq![0x1Fu8, 0x43u8, 0xB6u8, 0x75u8, 0xFFu8]
}

pub open spec fn info_bytes() -> Seq<u8> {
    seq![0x15u8, 0x49u8, 0xA9u8, 0x66u8, 0x80u8]
}

pub open spec fn void_bytes() -> Seq<u8> {
    seq![0xECu8, 0x80u8]
}

pub open spec fn timecode_bytes(t: u64) -> Seq<u8> {
    seq![0xE7u8, 0x88u8] + u64_be(t)
}

/// The signed sixteen-bit value carried by two big-endian bytes.
pub open spec fn i16_from_be(hi: u8, lo: u8) -> i16 {
    ((hi * 256 + lo) as u16) as i16
}

pub open spec fn simple_block_bytes(b: SimpleBlockModel) -> Seq<u8> {
    seq![0xA3u8] + size8((b.data.len() + 4) as u64) + seq![
        0x81u8,
        ((b.timecode as u16) >> 8) as u8,
        (b.timecode as u16) as u8,
        b.flags,
    ] + b.data
}

pub open spec fn tracks_bytes(d: Seq<u8>) -> Seq<u8> {
    seq![0x16u8, 0x54u8, 0xAEu8, 0x6Bu8] + size8(d.len() as u64) + d
}

/// The byte image of one element. `Unknown` has none: the chunker never
/// re-encodes an element it did not recognize.
pub open spec fn encode_elem(e: WebmElementModel) -> Seq<u8> {
    match e {
        WebmElementModel::EbmlHead => ebml_head_bytes(),
        WebmElementModel::Void => void_bytes(),
        WebmElementModel::Segment => segment_bytes(),
        WebmElementModel::Info => info_bytes(),
        WebmElementModel::Cluster => cluster_open_bytes(),
        WebmElementModel::Timecode(t) => timecode_bytes(t),
        WebmElementModel::Tracks(d) => tracks_bytes(d),
        WebmElementModel::SimpleBlock(b) => simple_block_bytes(b),
        WebmElementModel::Unknown(_) => Seq::empty(),
    }
}

/// Append the byte image of `element` to `out`.
pub fn encode_webm_element(element: &WebmElement, out: &mut Vec<u8>)
    requires
        elem_wf(element@),
        !(element@ is Unknown),
    ensures
        final(out)@ == old(out)@ + encode_elem(element@),
{
    match element {
        WebmElement::EbmlHead => {
            out.push(0x1A);
            out.push(0x45);
            out.push(0xDF);
            out.push(0xA3);
            out.push(0x80);
            assert(out@ =~= old(out)@ + ebml_head_bytes());
        },
        WebmElement::Void => {
            out.push(0xEC);
            out.push(0x80);
            assert(out@ =~= old(out)@ + void_bytes());
        },
        WebmElement::Segment => {
            out.push(0x18);
            out.push(0x53);
            out.push(0x80);
            out.push(0x67);
            out.push(0xFF);
            assert(out@ =~= old(out)@ + segment_bytes());
        },
        WebmElement::Info => {
            out.push(0x15);
            out.push(0x49);
            out.push(0xA9);
            out.push(0x66);
            out.push(0x80);
            assert(out@ =~= old(out)@ + info_bytes());
        },
        WebmElement::Cluster => {
            out.push(0x1F);
            out.push(0x43);
            out.push(0xB6);
            out.push(0x75);
            out.push(0xFF);
            assert(out@ =~= old(out)@ + cluster_open_bytes());
        },
        WebmElement::Timecode(t) => {
            out.push(0xE7);
            out.push(0x88);
            push_u64_be(out, *t);
            assert(out@ =~= old(out)@ + timecode_bytes(*t));
        },
        WebmElement::Tracks(d) => {
            out.push(0x16);
            out.push(0x54);
            out.push(0xAE);
            out.push(0x6B);
            push_size8(out, d.len() as u64);
            let ghost mid = out@;
            let mut i: usize = 0;
            while i < d.len()
                invariant
                    i <= d@.len(),
                    out@ == mid + d@.take(i as int),
                decreases d@.len() - i,
            {
                out.push(d[i]);
                i = i + 1;
                assert(out@ =~= mid + d@.take(i as int));
            }
            assert(d@.take(d@.len() as int) =~= d@);
            assert(out@ =~= old(out)@ + tracks_bytes(d@));
        },
        WebmElement::SimpleBlock(b) => {
            out.push(0xA3);
            push_size8(out, (b.data.len() as u64) + 4);
            out.push(0x81);
            let tc = b.timecode as u16;
            out.push((tc >> 8) as u8);
            out.push(tc as u8);
            out.push(b.flags);
            let ghost mid = out@;
            let mut i: usize = 0;
            while i < b.data.len()
                invariant
                    i <= b.data@.len(),
                    out@ == mid + b.data@.take(i as int),
                decreases b.data@.len() - i,
            {
                out.push(b.data[i]);
                i = i + 1;
                assert(out@ =~= mid + b.data@.take(i as int));
            }
            assert(b.data@.take(b.data@.len() as int) =~= b.data@);
            assert(out@ =~= old(out)@ + simple_block_bytes(b@));
        },
        WebmElement::Unknown(_) => {
        },
    }
}

/// What parsing one element from the front of `s` yields: the element and the
/// bytes it consumed, `None` at end of input, or the parse error.
pub open spec fn spec_parse_elem(s: Seq<u8>) -> Result<Option<(WebmElementModel, int)>, EbmlError> {
    if s.len() == 0 {
        Result::Ok(Option::None)
    } else {
        match spec_parse_id(s) {
            Option::None => Result::Err(EbmlError::UnknownElementId),
            Option::Some((id, idn)) => match spec_varint(s.skip(idn)) {
                Option::None => Result::Err(EbmlError::CorruptVarint),
                Option::Some((sz, szn)) => {
                    let hdr = idn + szn;
                    if id == SEGMENT_ID {
                        Result::Ok(Option::Some((WebmElementModel::Segment, hdr)))
                    } else if id == CLUSTER_ID {
                        Result::Ok(Option::Some((WebmElementModel::Cluster, hdr)))
                    } else {
                        match sz {
                            Varint::Unknown => Result::Err(EbmlError::CorruptPayload),
                            Varint::Value(len) => {
                                if s.len() - hdr < len {
                                    Result::Err(EbmlError::CorruptPayload)
                                } else {
                                    let body = s.subrange(hdr, hdr + len);
                                    if id == EBML_HEAD_ID {
                                        Result::Ok(Option::Some((WebmElementModel::EbmlHead, hdr + len)))
                                    } else if id == INFO_ID {
                                        Result::Ok(Option::Some((WebmElementModel::Info, hdr + len)))
                                    } else if id == VOID_ID {
                                        Result::Ok(Option::Some((WebmElementModel::Void, hdr + len)))
                                    } else if id == TIMECODE_ID {
                                        if len > 8 {
                                            Result::Err(EbmlError::CorruptPayload)
                                        } else {
                                            Result::Ok(Option::Some((
                                                WebmElementModel::Timecode(spec_uint_be(body) as u64),
                                                hdr + len,
                                            )))
                                        }
                                    } else if id == TRACKS_ID {
                                        Result::Ok(Option::Some((WebmElementModel::Tracks(body), hdr + len)))
                                    } else if id == SIMPLE_BLOCK_ID {
                                        if len < 4 || body[0] < 0x80 {
                                            Result::Err(EbmlError::CorruptPayload)
                                        } else {
                                            Result::Ok(Option::Some((
                                                WebmElementModel::SimpleBlock(SimpleBlockModel {
                                                    flags: body[3],
                                                    timecode: i16_from_be(body[1], body[2]),
                                                    data: body.skip(4),
                                                }),
                                                hdr + len,
                                            )))
                                        }
                                    } else {
                                        Result::Ok(Option::Some((WebmElementModel::Unknown(id), hdr + len)))
                                    }
                                }
                            },
                        }
                    }
                },
            },
        }
    }
}

/// Copy `bytes[from..to]` into a fresh vector.
fn copy_range(bytes: &Vec<u8>, from: usize, to: usize) -> (v: Vec<u8>)
    requires
        from <= to <= bytes@.len(),
    ensures
        v@ == bytes@.subrange(from as int, to as int),
{
    let mut v: Vec<u8> = Vec::new();
    let mut i: usize = from;
    while i < to
        invariant
            from <= i <= to <= bytes@.len(),
            v@ == bytes@.subrange(from as int, i as int),
        decreases to - i,
    {
        v.push(bytes[i]);
        i = i + 1;
        assert(v@ =~= bytes@.subrange(from as int, i as int));
    }
    v
}

/// Decode one element at `pos`, or report end of input or a parse error.
pub fn decode_element(bytes: &Vec<u8>, pos: usize) -> (r: Result<
    Option<(WebmElement, usize)>,
    EbmlError,
>)
    requires
        pos <= bytes@.len(),
    ensures
        ({
            let t = spec_parse_elem(bytes@.skip(pos as int));
            match r {
                Result::Ok(Option::Some(p)) => t == Result::Ok::<_, EbmlError>(
                    Option::Some((p.0@, p.1 - pos)),
                ) && pos < p.1 <= bytes@.len(),
                Result::Ok(Option::None) => t == Result::Ok::<Option<(WebmElementModel, int)>, EbmlError>(
                    Option::None,
                ),
                Result::Err(e) => t == Result::Err::<Option<(WebmElementModel, int)>, EbmlError>(e),
            }
        }),
{
    let ghost s = bytes@.skip(pos as int);
    if pos >= bytes.len() {
        return Result::Ok(Option::None);
    }
    let (id, id_end) = match decode_id(bytes, pos) {
        Result::Ok(p) => p,
        Result::Err(e) => {
            return Result::Err(e);
        },
    };
    let ghost idn = id_end - pos;
    assert(s.skip(idn) =~= bytes@.skip(id_end as int));
    let (sz, sz_end) = match decode_varint(bytes, id_end) {
        Result::Ok(p) => p,
        Result::Err(e) => {
            return Result::Err(e);
        },
    };
    let ghost szn = sz_end - id_end;
    let ghost hdr = idn + szn;
    if id == SEGMENT_ID {
        return Result::Ok(Option::Some((WebmElement::Segment, sz_end)));
    }
    if id == CLUSTER_ID {
        return Result::Ok(Option::Some((WebmElement::Cluster, sz_end)));
    }
    let len_u64: u64 = match sz {
        Varint::Unknown => {
            return Result::Err(EbmlError::CorruptPayload);
        },
        Varint::Value(l) => l,
    };
    if ((bytes.len() - sz_end) as u64) < len_u64 {
        return Result::Err(EbmlError::CorruptPayload);
    }
    let len: usize = len_u64 as usize;
    let end: usize = sz_end + len;
    let ghost body = s.subrange(hdr, hdr + len_u64 as int);
    assert(body =~= bytes@.subrange(sz_end as int, end as int));
    if id == EBML_HEAD_ID {
        Result::Ok(Option::Some((WebmElement::EbmlHead, end)))
    } else if id == INFO_ID {
        Result::Ok(Option::Some((WebmElement::Info, end)))
    } else if id == VOID_ID {
        Result::Ok(Option::Some((WebmElement::Void, end)))
    } else if id == TIMECODE_ID {
        if len > 8 {
            Result::Err(EbmlError::CorruptPayload)
        } else {
            let t = decode_uint(bytes, sz_end, len);
            Result::Ok(Option::Some((WebmElement::Timecode(t), end)))
        }
    } else if id == TRACKS_ID {
        let data = copy_range(bytes, sz_end, end);
        Result::Ok(Option::Some((WebmElement::Tracks(data), end)))
    } else if id == SIMPLE_BLOCK_ID {
        if len < 4 {
            return Result::Err(EbmlError::CorruptPayload);
        }
        let b0 = bytes[sz_end];
        assert(b0 == body[0]);
        if b0 < 0x80 {
            return Result::Err(EbmlError::CorruptPayload);
        }
        let hi = bytes[sz_end + 1];
        let lo = bytes[sz_end + 2];
        let flags = bytes[sz_end + 3];
        assert(hi == body[1] && lo == body[2] && flags == body[3]);
        let tcv: u16 = (hi as u16) * 256 + (lo as u16);
        let tc: i16 = tcv as i16;
        let data = copy_range(bytes, sz_end + 4, end);
        assert(data@ =~= body.skip(4));
        Result::Ok(Option::Some((
            WebmElement::SimpleBlock(SimpleBlock { flags, timecode: tc, data }),
            end,
        )))
    } else {
        Result::Ok(Option::Some((WebmElement::Unknown(id), end)))
    }
}

/// Every element the parser yields is well-formed and consumed at least one
/// byte and at most the whole input.
pub proof fn lemma_parse_elem_ok(s: Seq<u8>)
    ensures
        match spec_parse_elem(s) {
            Result::Ok(Option::Some((e, k))) => 1 <= k <= s.len() && elem_wf(e),
            _ => true,
        },
{
    crate::ebml::lemma_p256_values();
    if s.len() > 0 {
        match spec_parse_id(s) {
            Option::None => {},
            Option::Some((id, idn)) => {
                let s2 = s.skip(idn);
                match spec_varint(s2) {
                    Option::None => {},
                    Option::Some((sz, szn)) => {
                        if s2.len() > 0 && varint_len(s2[0]) > 0 {
                            crate::ebml::lemma_varint_value_bound(s2);
                        }
                    },
                }
            },
        }
    }
}

/// A canonical eight-byte size varint parses back to its value.
pub proof fn lemma_size8_varint(v: u64, rest: Seq<u8>)
    requires
        v < 0xFFFFFFFFFFFFFF,
    ensures
        spec_varint(size8(v) + rest) == Option::Some((Varint::Value(v), 8int)),
{
    let s = size8(v) + rest;
    assert(s[0] == 1u8);
    assert(varint_len(1u8) == 8);
    reveal_with_fuel(be_acc, 10);
    assert(s[1] == (v >> 48) as u8);
    assert(s[2] == (v >> 40) as u8);
    assert(s[3] == (v >> 32) as u8);
    assert(s[4] == (v >> 24) as u8);
    assert(s[5] == (v >> 16) as u8);
    assert(s[6] == (v >> 8) as u8);
    assert(s[7] == v as u8);
    assert(v < 0xFFFFFFFFFFFFFF ==> ((((((((v >> 48) as u8) * 256 + ((v >> 40) as u8)) * 256 + ((
        v >> 32) as u8)) * 256 + ((v >> 24) as u8)) * 256 + ((v >> 16) as u8)) * 256 + ((
        v >> 8) as u8)) * 256 + (v as u8)) == v) by (bit_vector);
    assert(be_acc(s, 1, 8, s[0] - varint_marker(8)) == v);
}

/// An eight-byte big-endian payload reads back as its value.
pub proof fn lemma_u64_be_value(t: u64)
    ensures
        spec_uint_be(u64_be(t)) == t,
{
    let s = u64_be(t);
    reveal_with_fuel(be_acc, 10);
    assert((((((((((t >> 56) as u8) * 256 + ((t >> 48) as u8)) * 256 + ((t >> 40) as u8)) * 256 + ((
        t >> 32) as u8)) * 256 + ((t >> 24) as u8)) * 256 + ((t >> 16) as u8)) * 256 + ((
        t >> 8) as u8)) * 256 + (t as u8)) == t) by (bit_vector);
}

/// Splitting a signed sixteen-bit timecode into two bytes and reading them
/// back is the identity.
pub proof fn lemma_i16_round_trip(tc: i16)
    ensures
        i16_from_be((((tc as u16) >> 8) as u8), ((tc as u16) as u8)) == tc,
{
    assert((((((tc as u16) >> 8) as u8) * 256 + ((tc as u16) as u8)) as u16) as i16 == tc)
        by (bit_vector);
}

/// Decoding starts over exactly where an element's image ends: parsing
/// `encode_elem(e) + rest` yields `e` and consumes precisely its image.
#[verifier::rlimit(100)]
pub proof fn lemma_parse_encode(e: WebmElementModel, rest: Seq<u8>)
    requires
        elem_wf(e),
        !(e is Unknown),
    ensures
        spec_parse_elem(encode_elem(e) + rest) == Result::Ok::<_, EbmlError>(
            Option::Some((e, encode_elem(e).len() as int)),
        ),
{
    let s = encode_elem(e) + rest;
    reveal_with_fuel(be_acc, 10);
    match e {
        WebmElementModel::EbmlHead => {
            assert(spec_parse_id(s) == Option::Some((EBML_HEAD_ID, 4int)));
            assert(s.skip(4)[0] == 0x80u8);
            assert(spec_varint(s.skip(4)) == Option::Some((Varint::Value(0), 1int)));
        },
        WebmElementModel::Void => {
            assert(spec_parse_id(s) == Option::Some((VOID_ID, 1int)));
            assert(s.skip(1)[0] == 0x80u8);
            assert(spec_varint(s.skip(1)) == Option::Some((Varint::Value(0), 1int)));
        },
        WebmElementModel::Segment => {
            assert(spec_parse_id(s) == Option::Some((SEGMENT_ID, 4int)));
            assert(s.skip(4)[0] == 0xFFu8);
            assert(spec_varint(s.skip(4)) == Option::Some((Varint::Unknown, 1int)));
        },
        WebmElementModel::Info => {
            assert(spec_parse_id(s) == Option::Some((INFO_ID, 4int)));
            assert(s.skip(4)[0] == 0x80u8);
            assert(spec_varint(s.skip(4)) == Option::Some((Varint::Value(0), 1int)));
        },
        WebmElementModel::Cluster => {
            assert(spec_parse_id(s) == Option::Some((CLUSTER_ID, 4int)));
            assert(s.skip(4)[0] == 0xFFu8);
            assert(spec_varint(s.skip(4)) == Option::Some((Varint::Unknown, 1int)));
        },
        WebmElementModel::Timecode(t) => {
            assert(spec_parse_id(s) == Option::Some((TIMECODE_ID, 1int)));
            assert(s.skip(1)[0] == 0x88u8);
            assert(spec_varint(s.skip(1)) == Option::Some((Varint::Value(8), 1int)));
            let body = s.subrange(2, 10);
            assert(body =~= u64_be(t));
            lemma_u64_be_value(t);
        },
        WebmElementModel::Tracks(d) => {
            assert(spec_parse_id(s) == Option::Some((TRACKS_ID, 4int)));
            assert(s.skip(4) =~= size8(d.len() as u64) + (d + rest));
            lemma_size8_varint(d.len() as u64, d + rest);
            let body = s.subrange(12, 12 + d.len() as int);
            assert(body =~= d);
        },
        WebmElementModel::SimpleBlock(b) => {
            let len4 = (b.data.len() + 4) as u64;
            assert(spec_parse_id(s) == Option::Some((SIMPLE_BLOCK_ID, 1int)));
            let tail = seq![
                0x81u8,
                ((b.timecode as u16) >> 8) as u8,
                (b.timecode as u16) as u8,
                b.flags,
            ] + b.data + rest;
            assert(s.skip(1) =~= size8(len4) + tail);
            lemma_size8_varint(len4, tail);
            let body = s.subrange(9, 9 + len4 as int);
            assert(body =~= seq![
                0x81u8,
                ((b.timecode as u16) >> 8) as u8,
                (b.timecode as u16) as u8,
                b.flags,
            ] + b.data);
            assert(body[0] == 0x81u8);
            assert(body[3] == b.flags);
            lemma_i16_round_trip(b.timecode);
            assert(body.skip(4) =~= b.data);
        },
        WebmElementModel::Unknown(_) => {},
    }
}

} // verus!
