//! EBML primitives: variable-length integers, element ids, and the parse
//! errors the event source can report.
//!
//! An EBML varint stores its own length in the leading zeros of its first
//! byte: a first byte of `1xxxxxxx` is a one-byte varint holding seven value
//! bits, `01xxxxxx` opens a two-byte varint holding fourteen, and so on down
//! to `00000001` opening an eight-byte varint holding fifty-six. The all-ones
//! value of each width is reserved; for a size field it means "unknown".

use vstd::prelude::*;

verus! {

/// Ways a byte stream can fail to parse as EBML.
#[derive(Clone, Copy, Debug, PartialEq, Eq, Structural)]
pub enum EbmlError {
    /// A length-descriptor byte was zero or the varint ran past the input.
    CorruptVarint,
    /// An element id did not start with a valid length marker.
    UnknownElementId,
    /// An element's payload was shorter than its declared size or malformed.
    CorruptPayload,
}

/// A parsed EBML variable-length integer: a concrete value, or the reserved
/// all-ones pattern, which marks an element size as unknown.
#[derive(Clone, Copy, Debug, PartialEq, Eq, Structural)]
pub enum Varint {
    Value(u64),
    Unknown,
}

/// 256 raised to `k`.
pub open spec fn p256(k: nat) -> nat
    decreases k,
{
    if k == 0 {
        1
    } else {
        256 * p256((k - 1) as nat)
    }
}

/// Big-endian accumulation of the bytes of `s` at positions `from..to`,
/// starting from `acc`.
pub open spec fn be_acc(s: Seq<u8>, from: int, to: int, acc: int) -> int
    decreases to - from,
{
    if from >= to {
        acc
    } else {
        be_acc(s, from + 1, to, acc * 256 + s[from])
    }
}

/// How many bytes a varint whose first byte is `b0` occupies; 0 if `b0`
/// carries no length marker at all.
pub open spec fn varint_len(b0: u8) -> int {
    if b0 >= 0x80 {
        1
    } else if b0 >= 0x40 {
        2
    } else if b0 >= 0x20 {
        3
    } else if b0 >= 0x10 {
        4
    } else if b0 >= 0x08 {
        5
    } else if b0 >= 0x04 {
        6
    } else if b0 >= 0x02 {
        7
    } else if b0 >= 0x01 {
        8
    } else {
        0
    }
}

/// The length-marker bit of the first byte of an `n`-byte varint.
pub open spec fn varint_marker(n: int) -> u8 {
    if n == 1 {
        0x80
    } else if n == 2 {
        0x40
    } else if n == 3 {
        0x20
    } else if n == 4 {
        0x10
    } else if n == 5 {
        0x08
    } else if n == 6 {
        0x04
    } else if n == 7 {
        0x02
    } else {
        0x01
    }
}

/// The reserved all-ones value of an `n`-byte varint.
pub open spec fn varint_ones(n: int) -> int {
    if n == 1 {
        0x7F
    } else if n == 2 {
        0x3FFF
    } else if n == 3 {
        0x1FFFFF
    } else if n == 4 {
        0xFFFFFFF
    } else if n == 5 {
        0x7FFFFFFFF
    } else if n == 6 {
        0x3FFFFFFFFFF
    } else if n == 7 {
        0x1FFFFFFFFFFFF
    } else {
        0xFFFFFFFFFFFFFF
    }
}

/// What parsing a varint from the front of `s` yields: the varint and the
/// number of bytes it occupied, or nothing if `s` starts with no well-formed
/// varint.
pub open spec fn spec_varint(s: Seq<u8>) -> Option<(Varint, int)> {
    if s.len() == 0 {
        Option::None
    } else {
        let n = varint_len(s[0]);
        if n == 0 || s.len() < n {
            Option::None
        } else {
            let v = be_acc(s, 1, n, s[0] - varint_marker(n));
            if v == varint_ones(n) {
                Option::Some((Varint::Unknown, n))
            } else {
                Option::Some((Varint::Value(v as u64), n))
            }
        }
    }
}

/// How many bytes an element id whose first byte is `b0` occupies; ids keep
/// their marker bits and span one to four bytes. 0 means invalid.
pub open spec fn id_len(b0: u8) -> int {
    if b0 >= 0x80 {
        1
    } else if b0 >= 0x40 {
        2
    } else if b0 >= 0x20 {
        3
    } else if b0 >= 0x10 {
        4
    } else {
        0
    }
}

/// What parsing an element id from the front of `s` yields: the id with its
/// marker bits kept, and the number of bytes it occupied.
pub open spec fn spec_parse_id(s: Seq<u8>) -> Option<(u64, int)> {
    if s.len() == 0 {
        Option::None
    } else {
        let n = id_len(s[0]);
        if n == 0 || s.len() < n {
            Option::None
        } else {
            Option::Some((be_acc(s, 0, n, 0) as u64, n))
        }
    }
}

/// The unsigned big-endian value of all of `s`; meaningful for `s` of at most
/// eight bytes.
pub open spec fn spec_uint_be(s: Seq<u8>) -> int {
    be_acc(s, 0, s.len() as int, 0)
}

/// The eight-byte big-endian image of `v`.
pub open spec fn u64_be(v: u64) -> Seq<u8> {
    seq![
        (v >> 56) as u8,
        (v >> 48) as u8,
        (v >> 40) as u8,
        (v >> 32) as u8,
        (v >> 24) as u8,
        (v >> 16) as u8,
        (v >> 8) as u8,
        v as u8,
    ]
}

/// The canonical eight-byte varint image of `v`; `v` must fit in fifty-six
/// bits.
pub open spec fn size8(v: u64) -> Seq<u8> {
    seq![
        1u8,
        (v >> 48) as u8,
        (v >> 40) as u8,
        (v >> 32) as u8,
        (v >> 24) as u8,
        (v >> 16) as u8,
        (v >> 8) as u8,
        v as u8,
    ]
}

pub proof fn lemma_p256_mono(a: nat, b: nat)
    requires
        a <= b,
    ensures
        p256(a) <= p256(b),
    decreases b,
{
    if a < b {
        lemma_p256_mono(a, (b - 1) as nat);
        assert(p256(b) == 256 * p256((b - 1) as nat));
    }
}

pub proof fn lemma_p256_values()
    ensures
        p256(0) == 1,
        p256(1) == 0x100,
        p256(2) == 0x10000,
        p256(3) == 0x1000000,
        p256(4) == 0x100000000,
        p256(5) == 0x10000000000,
        p256(6) == 0x1000000000000,
        p256(7) == 0x100000000000000,
        p256(8) == 0x10000000000000000,
{
    reveal_with_fuel(p256, 9);
}

/// Big-endian accumulation cannot escape its width: starting under `b`, after
/// `to - from` more bytes the value stays under `b * 256^(to - from)`.
pub proof fn lemma_be_acc_bound(s: Seq<u8>, from: int, to: int, acc: int, b: int)
    requires
        0 <= from <= to <= s.len(),
        0 <= acc < b,
    ensures
        0 <= be_acc(s, from, to, acc) < b * p256((to - from) as nat),
    decreases to - from,
{
    if from >= to {
        assert(p256(0) == 1);
        assert(b * 1 == b) by (nonlinear_arith);
    } else {
        let acc2 = acc * 256 + s[from];
        assert(acc2 < b * 256);
        lemma_be_acc_bound(s, from + 1, to, acc2, b * 256);
        let k = (to - from - 1) as nat;
        assert(p256((to - from) as nat) == 256 * p256(k));
        assert((b * 256) * p256(k) == b * (256 * p256(k))) by (nonlinear_arith);
    }
}

/// The value of an `n`-byte varint is nonnegative and at most the reserved
/// all-ones pattern of that width.
pub proof fn lemma_varint_value_bound(s: Seq<u8>)
    requires
        s.len() > 0,
        varint_len(s[0]) > 0,
        s.len() >= varint_len(s[0]),
    ensures
        0 <= be_acc(s, 1, varint_len(s[0]), s[0] - varint_marker(varint_len(s[0])))
            <= varint_ones(varint_len(s[0])),
{
    let n = varint_len(s[0]);
    let acc0 = s[0] - varint_marker(n);
    assert(0 <= acc0 < varint_marker(n) as int);
    lemma_be_acc_bound(s, 1, n, acc0, varint_marker(n) as int);
    lemma_p256_values();
    assert(varint_marker(n) as int * p256((n - 1) as nat) == varint_ones(n) + 1);
}

/// Decode one varint at `pos`.
pub fn decode_varint(bytes: &Vec<u8>, pos: usize) -> (r: Result<(Varint, usize), EbmlError>)
    requires
        pos <= bytes@.len(),
    ensures
        ({
            let t = spec_varint(bytes@.skip(pos as int));
            match r {
                Result::Ok(p) => t == Option::Some((p.0, p.1 - pos)) && pos < p.1 <= bytes@.len(),
                Result::Err(e) => t is None && e == EbmlError::CorruptVarint,
            }
        }),
{
    let ghost s = bytes@.skip(pos as int);
    if pos >= bytes.len() {
        return Result::Err(EbmlError::CorruptVarint);
    }
    let b0 = bytes[pos];
    assert(s[0] == bytes@[pos as int]);
    let n: usize = if b0 >= 0x80 {
        1
    } else if b0 >= 0x40 {
        2
    } else if b0 >= 0x20 {
        3
    } else if b0 >= 0x10 {
        4
    } else if b0 >= 0x08 {
        5
    } else if b0 >= 0x04 {
        6
    } else if b0 >= 0x02 {
        7
    } else if b0 >= 0x01 {
        8
    } else {
        return Result::Err(EbmlError::CorruptVarint);
    };
    assert(n as int == varint_len(s[0]));
    if bytes.len() - pos < n {
        return Result::Err(EbmlError::CorruptVarint);
    }
    let marker: u8 = if n == 1 {
        0x80
    } else if n == 2 {
        0x40
    } else if n == 3 {
        0x20
    } else if n == 4 {
        0x10
    } else if n == 5 {
        0x08
    } else if n == 6 {
        0x04
    } else if n == 7 {
        0x02
    } else {
        0x01
    };
    assert(marker == varint_marker(n as int));
    let mut acc: u64 = (b0 - marker) as u64;
    let mut i: usize = 1;
    proof {
        lemma_p256_values();
    }
    while i < n
        invariant
            1 <= i <= n <= 8,
            pos + n <= bytes@.len(),
            pos + n <= usize::MAX,
            s == bytes@.skip(pos as int),
            s.len() >= n,
            n as int == varint_len(s[0]),
            marker == varint_marker(n as int),
            be_acc(s, 1, n as int, s[0] - varint_marker(n as int)) == be_acc(
                s,
                i as int,
                n as int,
                acc as int,
            ),
            acc < p256(i as nat),
        decreases n - i,
    {
        proof {
            lemma_p256_mono(i as nat, 7);
            lemma_p256_values();
        }
        let b = bytes[pos + i];
        assert(s[i as int] == bytes@[pos + i]);
        assert(be_acc(s, i as int, n as int, acc as int) == be_acc(
            s,
            i + 1,
            n as int,
            acc as int * 256 + s[i as int],
        ));
        assert(256 * p256(i as nat) == p256((i + 1) as nat));
        acc = acc * 256 + (b as u64);
        i = i + 1;
    }
    proof {
        lemma_p256_values();
        lemma_p256_mono(n as nat, 8);
        assert(be_acc(s, n as int, n as int, acc as int) == acc as int);
    }
    let ones: u64 = if n == 1 {
        0x7F
    } else if n == 2 {
        0x3FFF
    } else if n == 3 {
        0x1FFFFF
    } else if n == 4 {
        0xFFFFFFF
    } else if n == 5 {
        0x7FFFFFFFF
    } else if n == 6 {
        0x3FFFFFFFFFF
    } else if n == 7 {
        0x1FFFFFFFFFFFF
    } else {
        0xFFFFFFFFFFFFFF
    };
    assert(ones as int == varint_ones(n as int));
    if acc == ones {
        Result::Ok((Varint::Unknown, pos + n))
    } else {
        Result::Ok((Varint::Value(acc), pos + n))
    }
}

/// Decode one element id at `pos`.
pub fn decode_id(bytes: &Vec<u8>, pos: usize) -> (r: Result<(u64, usize), EbmlError>)
    requires
        pos <= bytes@.len(),
    ensures
        ({
            let t = spec_parse_id(bytes@.skip(pos as int));
            match r {
                Result::Ok(p) => t == Option::Some((p.0, p.1 - pos)) && pos < p.1 <= bytes@.len(),
                Result::Err(e) => t is None && e == EbmlError::UnknownElementId,
            }
        }),
{
    let ghost s = bytes@.skip(pos as int);
    if pos >= bytes.len() {
        return Result::Err(EbmlError::UnknownElementId);
    }
    let b0 = bytes[pos];
    assert(s[0] == bytes@[pos as int]);
    let n: usize = if b0 >= 0x80 {
        1
    } else if b0 >= 0x40 {
        2
    } else if b0 >= 0x20 {
        3
    } else if b0 >= 0x10 {
        4
    } else {
        return Result::Err(EbmlError::UnknownElementId);
    };
    assert(n as int == id_len(s[0]));
    if bytes.len() - pos < n {
        return Result::Err(EbmlError::UnknownElementId);
    }
    let mut acc: u64 = 0;
    let mut i: usize = 0;
    proof {
        lemma_p256_values();
    }
    while i < n
        invariant
            0 <= i <= n <= 4,
            pos + n <= bytes@.len(),
            pos + n <= usize::MAX,
            s == bytes@.skip(pos as int),
            s.len() >= n,
            n as int == id_len(s[0]),
            be_acc(s, 0, n as int, 0) == be_acc(s, i as int, n as int, acc as int),
            acc < p256(i as nat),
        decreases n - i,
    {
        proof {
            lemma_p256_mono(i as nat, 3);
            lemma_p256_values();
        }
        let b = bytes[pos + i];
        assert(s[i as int] == bytes@[pos + i]);
        assert(be_acc(s, i as int, n as int, acc as int) == be_acc(
            s,
            i + 1,
            n as int,
            acc as int * 256 + s[i as int],
        ));
        assert(256 * p256(i as nat) == p256((i + 1) as nat));
        acc = acc * 256 + (b as u64);
        i = i + 1;
    }
    proof {
        lemma_p256_values();
        lemma_p256_mono(n as nat, 4);
        assert(be_acc(s, n as int, n as int, acc as int) == acc as int);
    }
    Result::Ok((acc, pos + n))
}

/// Read the unsigned big-endian value of `bytes[pos..pos + len]`; `len` is at
/// most eight.
pub fn decode_uint(bytes: &Vec<u8>, pos: usize, len: usize) -> (r: u64)
    requires
        pos + len <= bytes@.len(),
        len <= 8,
    ensures
        r as int == spec_uint_be(bytes@.subrange(pos as int, pos + len)),
{
    let ghost s = bytes@.subrange(pos as int, pos + len);
    let total = bytes.len();
    assert(pos + len <= total);
    let mut acc: u64 = 0;
    let mut i: usize = 0;
    proof {
        lemma_p256_values();
    }
    while i < len
        invariant
            0 <= i <= len <= 8,
            pos + len <= bytes@.len(),
            pos + len <= usize::MAX,
            s == bytes@.subrange(pos as int, pos + len),
            be_acc(s, 0, len as int, 0) == be_acc(s, i as int, len as int, acc as int),
            acc < p256(i as nat),
        decreases len - i,
    {
        proof {
            lemma_p256_mono(i as nat, 7);
            lemma_p256_values();
        }
        let b = bytes[pos + i];
        assert(s[i as int] == bytes@[pos + i]);
        assert(be_acc(s, i as int, len as int, acc as int) == be_acc(
            s,
            i + 1,
            len as int,
            acc as int * 256 + s[i as int],
        ));
        assert(256 * p256(i as nat) == p256((i + 1) as nat));
        acc = acc * 256 + (b as u64);
        i = i + 1;
    }
    proof {
        assert(be_acc(s, len as int, len as int, acc as int) == acc as int);
    }
    acc
}

/// Append the eight-byte big-endian image of `v`.
pub fn push_u64_be(out: &mut Vec<u8>, v: u64)
    ensures
        final(out)@ == old(out)@ + u64_be(v),
{
    out.push((v >> 56) as u8);
    out.push((v >> 48) as u8);
    out.push((v >> 40) as u8);
    out.push((v >> 32) as u8);
    out.push((v >> 24) as u8);
    out.push((v >> 16) as u8);
    out.push((v >> 8) as u8);
    out.push(v as u8);
    assert(out@ =~= old(out)@ + u64_be(v));
}

/// Append the canonical eight-byte varint image of `v`.
pub fn push_size8(out: &mut Vec<u8>, v: u64)
    requires
        v < 0x100000000000000,
    ensures
        final(out)@ == old(out)@ + size8(v),
{
    out.push(1u8);
    out.push((v >> 48) as u8);
    out.push((v >> 40) as u8);
    out.push((v >> 32) as u8);
    out.push((v >> 24) as u8);
    out.push((v >> 16) as u8);
    out.push((v >> 8) as u8);
    out.push(v as u8);
    assert(out@ =~= old(out)@ + size8(v));
}

} // verus!
