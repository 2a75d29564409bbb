//! The incremental decoder: one value per call, or a report that more
//! bytes are needed, without consuming bytes it cannot fully parse.
use vstd::prelude::*;
use bytes::BytesMut;

use crate::buffer::bm_advance;
use crate::buffer::bm_byte;
use crate::buffer::bm_bytes;
use crate::buffer::bm_copy_range;
use crate::buffer::bm_len;
use crate::num::dec_val;
use crate::num::is_digits;
use crate::num::parse_u64;
use crate::resp::CR;
use crate::resp::LF;
use crate::resp::MINUS;
use crate::resp::RespError;
use crate::resp::RespModel;
use crate::resp::RespValue;
use crate::resp::TAG_ARRAY;
use crate::resp::TAG_BULK;
use crate::resp::TAG_ERROR;
use crate::resp::TAG_INTEGER;
use crate::resp::TAG_SIMPLE;
use crate::resp::array_model;
use crate::resp::resp_model;

verus! {

broadcast use vstd::std_specs::vec::group_vec_axioms, vstd::seq::group_seq_axioms;

/// What one decoding step says about a byte string.
pub enum Parsed {
    /// A whole message stands at the front: its model and how many
    /// bytes it occupies.
    Value { v: RespModel, used: int },
    /// The bytes are a valid beginning but no whole message yet.
    Incomplete,
    /// The bytes cannot begin any message: a protocol violation.
    Malformed,
}

/// What decoding a run of consecutive messages says.
pub enum ParsedElems {
    Elems { vs: Seq<RespModel>, used: int },
    Incomplete,
    Malformed,
}

/// The position of the first line terminator at or after `start`.
pub open spec fn find_crlf(s: Seq<u8>, start: int) -> Option<int>
    decreases s.len() - start,
{
    if start < 0 || start + 1 >= s.len() {
        None
    } else if s[start] == CR && s[start + 1] == LF {
        Some(start)
    } else {
        find_crlf(s, start + 1)
    }
}

/// The length line `-1`, which marks an explicit null.
pub open spec fn null_marker() -> Seq<u8> {
    seq![MINUS, 49u8]
}

/// The meaning of a byte string to the decoder. Dispatch is on the
/// first byte; line fields end at the first terminator; a bulk string
/// or array commits only once every byte it needs is present.
pub open spec fn spec_decode(s: Seq<u8>) -> Parsed
    decreases s.len(), 0int, 0int,
{
    if s.len() == 0 {
        Parsed::Incomplete
    } else {
        let tag = s[0];
        if tag == TAG_SIMPLE || tag == TAG_ERROR || tag == TAG_INTEGER {
            match find_crlf(s, 1) {
                Option::None => Parsed::Incomplete,
                Option::Some(i) => {
                    let line = s.subrange(1, i);
                    if tag == TAG_SIMPLE {
                        Parsed::Value { v: RespModel::Simple(line), used: i + 2 }
                    } else if tag == TAG_ERROR {
                        Parsed::Value { v: RespModel::Error(line), used: i + 2 }
                    } else if is_digits(line) && dec_val(line) <= u64::MAX {
                        Parsed::Value {
                            v: RespModel::Integer(dec_val(line) as u64),
                            used: i + 2,
                        }
                    } else {
                        Parsed::Malformed
                    }
                },
            }
        } else if tag == TAG_BULK {
            match find_crlf(s, 1) {
                Option::None => Parsed::Incomplete,
                Option::Some(i) => {
                    let line = s.subrange(1, i);
                    if line == null_marker() {
                        Parsed::Value { v: RespModel::Null, used: i + 2 }
                    } else if is_digits(line) && dec_val(line) <= usize::MAX {
                        let n = dec_val(line) as int;
                        if s.len() < i + 2 + n + 2 {
                            Parsed::Incomplete
                        } else if s[i + 2 + n] == CR && s[i + 3 + n] == LF {
                            Parsed::Value {
                                v: RespModel::Bulk(s.subrange(i + 2, i + 2 + n)),
                                used: i + n + 4,
                            }
                        } else {
                            Parsed::Malformed
                        }
                    } else {
                        Parsed::Malformed
                    }
                },
            }
        } else if tag == TAG_ARRAY {
            match find_crlf(s, 1) {
                Option::None => Parsed::Incomplete,
                Option::Some(i) => {
                    let line = s.subrange(1, i);
                    if line == null_marker() {
                        Parsed::Value { v: RespModel::Null, used: i + 2 }
                    } else if is_digits(line) && dec_val(line) <= usize::MAX {
                        if 1 <= i && i + 1 < s.len() {
                            let n = dec_val(line) as int;
                            match spec_decode_elems(s.skip(i + 2), n) {
                                ParsedElems::Elems { vs, used } => Parsed::Value {
                                    v: RespModel::Array(vs),
                                    used: i + 2 + used,
                                },
                                ParsedElems::Incomplete => Parsed::Incomplete,
                                ParsedElems::Malformed => Parsed::Malformed,
                            }
                        } else {
                            Parsed::Malformed
                        }
                    } else {
                        Parsed::Malformed
                    }
                },
            }
        } else {
            Parsed::Malformed
        }
    }
}

/// The meaning of a byte string as `n` consecutive messages.
pub open spec fn spec_decode_elems(s: Seq<u8>, n: int) -> ParsedElems
    decreases s.len(), n, 1int,
{
    if n <= 0 {
        ParsedElems::Elems { vs: Seq::empty(), used: 0 }
    } else {
        match spec_decode(s) {
            Parsed::Value { v, used } => {
                if 1 <= used <= s.len() {
                    match spec_decode_elems(s.skip(used), n - 1) {
                        ParsedElems::Elems { vs, used: more } => ParsedElems::Elems {
                            vs: seq![v] + vs,
                            used: used + more,
                        },
                        ParsedElems::Incomplete => ParsedElems::Incomplete,
                        ParsedElems::Malformed => ParsedElems::Malformed,
                    }
                } else {
                    ParsedElems::Malformed
                }
            },
            Parsed::Incomplete => ParsedElems::Incomplete,
            Parsed::Malformed => ParsedElems::Malformed,
        }
    }
}

/// What a found terminator means: it is the first one.
pub proof fn lemma_find_crlf_some(s: Seq<u8>, start: int, i: int)
    requires
        0 <= start,
        find_crlf(s, start) == Some(i),
    ensures
        start <= i,
        i + 1 < s.len(),
        s[i] == CR,
        s[i + 1] == LF,
        forall|j: int| start <= j < i ==> !(#[trigger] s[j] == CR && s[j + 1] == LF),
    decreases s.len() - start,
{
    if start + 1 >= s.len() {
    } else if s[start] == CR && s[start + 1] == LF {
    } else {
        lemma_find_crlf_some(s, start + 1, i);
    }
}

/// A first terminator is what `find_crlf` reports.
pub proof fn lemma_find_crlf_at(s: Seq<u8>, start: int, i: int)
    requires
        0 <= start <= i,
        i + 1 < s.len(),
        s[i] == CR,
        s[i + 1] == LF,
        forall|j: int| start <= j < i ==> !(#[trigger] s[j] == CR && s[j + 1] == LF),
    ensures
        find_crlf(s, start) == Some(i),
    decreases i - start,
{
    if start < i {
        lemma_find_crlf_at(s, start + 1, i);
    }
}

/// No terminator found means none exists.
pub proof fn lemma_find_crlf_none(s: Seq<u8>, start: int)
    requires
        0 <= start,
        find_crlf(s, start) == Option::<int>::None,
    ensures
        forall|j: int| start <= j && j + 1 < s.len() ==> !(#[trigger] s[j] == CR && s[j + 1] == LF),
    decreases s.len() - start,
{
    if start + 1 < s.len() {
        lemma_find_crlf_none(s, start + 1);
    }
}

/// Dropping `a` then `b` bytes is dropping `a + b` bytes.
pub proof fn lemma_skip_skip(s: Seq<u8>, a: int, b: int)
    requires
        0 <= a,
        0 <= b,
        a + b <= s.len(),
    ensures
        s.skip(a).skip(b) == s.skip(a + b),
{
    assert(s.skip(a).skip(b) =~= s.skip(a + b));
}

/// A whole message occupies at least its tag and terminator and never
/// more than the buffer; its element runs are bounded the same way.
pub proof fn lemma_decode_used(s: Seq<u8>)
    ensures
        spec_decode(s) matches Parsed::Value { used, .. } ==> 3 <= used <= s.len(),
    decreases s.len(), 0int, 0int,
{
    if s.len() == 0 {
    } else if s[0] == TAG_SIMPLE || s[0] == TAG_ERROR || s[0] == TAG_INTEGER || s[0] == TAG_BULK
        || s[0] == TAG_ARRAY {
        match find_crlf(s, 1) {
            Option::None => {},
            Option::Some(i) => {
                lemma_find_crlf_some(s, 1, i);
                if s[0] == TAG_ARRAY {
                    let line = s.subrange(1, i);
                    if line != null_marker() && is_digits(line) && dec_val(line) <= usize::MAX {
                        lemma_decode_elems_used(s.skip(i + 2), dec_val(line) as int);
                    }
                }
            },
        }
    }
}

/// See `lemma_decode_used`.
pub proof fn lemma_decode_elems_used(s: Seq<u8>, n: int)
    ensures
        spec_decode_elems(s, n) matches ParsedElems::Elems { vs, used } ==> {
            &&& 0 <= used <= s.len()
            &&& vs.len() == (if n <= 0 { 0int } else { n })
        },
    decreases s.len(), n, 1int,
{
    if n <= 0 {
    } else {
        lemma_decode_used(s);
        match spec_decode(s) {
            Parsed::Value { v, used } => {
                if 1 <= used <= s.len() {
                    lemma_decode_elems_used(s.skip(used), n - 1);
                }
            },
            Parsed::Incomplete => {},
            Parsed::Malformed => {},
        }
    }
}

/// Scans for the first line terminator at or after `from`, touching
/// nothing.
fn scan_crlf(buf: &BytesMut, from: usize) -> (r: Option<usize>)
    requires
        1 <= from,
        from <= bm_bytes(*buf).len(),
    ensures
        match r {
            Some(i) => {
                &&& from <= i
                &&& i + 1 < bm_bytes(*buf).len()
                &&& bm_bytes(*buf)[i as int] == CR
                &&& bm_bytes(*buf)[i + 1] == LF
                &&& forall|j: int| from <= j < i ==> !(#[trigger] bm_bytes(*buf)[j] == CR
                    && bm_bytes(*buf)[j + 1] == LF)
            },
            None => forall|j: int| from <= j && j + 1 < bm_bytes(*buf).len()
                ==> !(#[trigger] bm_bytes(*buf)[j] == CR && bm_bytes(*buf)[j + 1] == LF),
        },
{
    let len = bm_len(buf);
    let mut i: usize = from;
    while 1 <= len && i < len - 1
        invariant
            from <= i,
            len == bm_bytes(*buf).len(),
            i <= len,
            forall|j: int| from <= j < i ==> !(#[trigger] bm_bytes(*buf)[j] == CR
                && bm_bytes(*buf)[j + 1] == LF),
        decreases len - i,
    {
        if bm_byte(buf, i) == CR && bm_byte(buf, i + 1) == LF {
            return Some(i);
        }
        i = i + 1;
    }
    None
}

/// Translates a terminator found at absolute position `iabs` into the
/// suffix that starts at `pos`.
proof fn lemma_scan_to_find(s: Seq<u8>, pos: int, iabs: int)
    requires
        0 <= pos,
        pos < iabs,
        iabs + 1 < s.len(),
        s[iabs] == CR,
        s[iabs + 1] == LF,
        forall|j: int| pos + 1 <= j < iabs ==> !(#[trigger] s[j] == CR && s[j + 1] == LF),
    ensures
        find_crlf(s.skip(pos), 1) == Some(iabs - pos),
{
    let t = s.skip(pos);
    assert forall|j: int| 1 <= j < iabs - pos implies !(#[trigger] t[j] == CR && t[j + 1] == LF) by {
        assert(t[j] == s[pos + j]);
        assert(t[j + 1] == s[pos + j + 1]);
    }
    assert(t[iabs - pos] == CR);
    assert(t[iabs - pos + 1] == LF);
    lemma_find_crlf_at(t, 1, iabs - pos);
}

/// Translates a scan that found no terminator into the suffix.
proof fn lemma_scan_to_none(s: Seq<u8>, pos: int)
    requires
        0 <= pos < s.len(),
        forall|j: int| pos + 1 <= j && j + 1 < s.len() ==> !(#[trigger] s[j] == CR && s[j + 1]
            == LF),
    ensures
        find_crlf(s.skip(pos), 1) == Option::<int>::None,
{
    let t = s.skip(pos);
    if find_crlf(t, 1) is Some {
        let i = find_crlf(t, 1)->0;
        lemma_find_crlf_some(t, 1, i);
        assert(t[i] == s[pos + i]);
        assert(t[i + 1] == s[pos + i + 1]);
        assert(s[pos + i] == CR && s[pos + i + 1] == LF);
        assert(false);
    }
}

/// Decodes the message starting at `pos`, reading only: on success,
/// the value and the position just past its last byte.
fn decode_at(buf: &BytesMut, pos: usize) -> (r: Result<(RespValue, usize), RespError>)
    requires
        pos <= bm_bytes(*buf).len(),
    ensures
        r matches Ok(p) ==> pos <= p.1 <= bm_bytes(*buf).len()
            && spec_decode(bm_bytes(*buf).skip(pos as int))
            == (Parsed::Value { v: resp_model(p.0), used: p.1 - pos }),
        r matches Err(e) ==> {
            &&& (e is Incomplete ==> spec_decode(bm_bytes(*buf).skip(pos as int)) is Incomplete)
            &&& (!(e is Incomplete) ==> e is Other
                && spec_decode(bm_bytes(*buf).skip(pos as int)) is Malformed)
        },
    decreases bm_bytes(*buf).len() - pos, 0int, 0int,
{
    let ghost s = bm_bytes(*buf);
    let ghost t = s.skip(pos as int);
    let len = bm_len(buf);
    if pos == len {
        return Err(RespError::Incomplete);
    }
    let tag = bm_byte(buf, pos);
    proof {
        assert(t.len() == len - pos);
        assert(t[0] == s[pos as int]);
    }
    if tag == TAG_SIMPLE || tag == TAG_ERROR || tag == TAG_INTEGER {
        match scan_crlf(buf, pos + 1) {
            None => {
                proof {
                    lemma_scan_to_none(s, pos as int);
                }
                Err(RespError::Incomplete)
            },
            Some(iabs) => {
                proof {
                    lemma_scan_to_find(s, pos as int, iabs as int);
                }
                let ghost irel = iabs - pos;
                let line = bm_copy_range(buf, pos + 1, iabs);
                proof {
                    assert(line@ =~= t.subrange(1, irel as int));
                }
                let end = iabs + 2;
                if tag == TAG_SIMPLE {
                    Ok((RespValue::Simple(line), end))
                } else if tag == TAG_ERROR {
                    Ok((RespValue::Error(line), end))
                } else {
                    match parse_u64(&line) {
                        Some(v) => Ok((RespValue::Integer(v), end)),
                        None => Err(RespError::Other),
                    }
                }
            },
        }
    } else if tag == TAG_BULK || tag == TAG_ARRAY {
        match scan_crlf(buf, pos + 1) {
            None => {
                proof {
                    lemma_scan_to_none(s, pos as int);
                }
                Err(RespError::Incomplete)
            },
            Some(iabs) => {
                proof {
                    lemma_scan_to_find(s, pos as int, iabs as int);
                }
                let ghost irel = iabs - pos;
                let line = bm_copy_range(buf, pos + 1, iabs);
                proof {
                    assert(line@ =~= t.subrange(1, irel as int));
                }
                if line.len() == 2 && line[0] == MINUS && line[1] == 49 {
                    proof {
                        assert(line@ =~= null_marker());
                    }
                    return Ok((RespValue::Null, iabs + 2));
                }
                proof {
                    assert(line@ != null_marker()) by {
                        if line@ == null_marker() {
                            assert(line@.len() == 2);
                            assert(line@[0] == MINUS && line@[1] == 49);
                        }
                    }
                }
                match parse_u64(&line) {
                    None => {
                        proof {
                            assert(usize::MAX <= u64::MAX);
                        }
                        Err(RespError::Other)
                    },
                    Some(nv) => {
                        if nv > usize::MAX as u64 {
                            return Err(RespError::Other);
                        }
                        let n = nv as usize;
                        if tag == TAG_BULK {
                            let rem = len - (iabs + 2);
                            if rem < n || rem - n < 2 {
                                return Err(RespError::Incomplete);
                            }
                            if bm_byte(buf, iabs + 2 + n) == CR && bm_byte(buf, iabs + 3 + n)
                                == LF {
                                let payload = bm_copy_range(buf, iabs + 2, iabs + 2 + n);
                                proof {
                                    assert(t[irel + 2 + n] == s[iabs + 2 + n]);
                                    assert(t[irel + 3 + n] == s[iabs + 3 + n]);
                                    assert(payload@ =~= t.subrange(
                                        irel + 2,
                                        irel + 2 + n,
                                    ));
                                }
                                Ok((RespValue::Bulk(payload), iabs + n + 4))
                            } else {
                                proof {
                                    assert(t[irel + 2 + n] == s[iabs + 2 + n]);
                                    assert(t[irel + 3 + n] == s[iabs + 3 + n]);
                                }
                                Err(RespError::Other)
                            }
                        } else {
                            match decode_elems_at(buf, iabs + 2, n) {
                                Ok((vs, end)) => {
                                    proof {
                                        lemma_skip_skip(s, pos as int, irel + 2);
                                        crate::resp::lemma_array_model(vs@);
                                    }
                                    Ok((RespValue::Array(vs), end))
                                },
                                Err(e) => {
                                    proof {
                                        lemma_skip_skip(s, pos as int, irel + 2);
                                    }
                                    Err(e)
                                },
                            }
                        }
                    },
                }
            },
        }
    } else {
        Err(RespError::Other)
    }
}

/// Decodes `n` consecutive messages starting at `pos`, reading only.
fn decode_elems_at(buf: &BytesMut, pos: usize, n: usize) -> (r: Result<
    (Vec<RespValue>, usize),
    RespError,
>)
    requires
        pos <= bm_bytes(*buf).len(),
    ensures
        r matches Ok(p) ==> pos <= p.1 <= bm_bytes(*buf).len()
            && spec_decode_elems(bm_bytes(*buf).skip(pos as int), n as int)
            == (ParsedElems::Elems { vs: array_model(p.0@), used: p.1 - pos }),
        r matches Err(e) ==> {
            &&& (e is Incomplete ==> spec_decode_elems(bm_bytes(*buf).skip(pos as int), n as int)
                is Incomplete)
            &&& (!(e is Incomplete) ==> e is Other
                && spec_decode_elems(bm_bytes(*buf).skip(pos as int), n as int) is Malformed)
        },
    decreases bm_bytes(*buf).len() - pos, n, 1int,
{
    let ghost s = bm_bytes(*buf);
    let ghost t = s.skip(pos as int);
    if n == 0 {
        let vs: Vec<RespValue> = Vec::new();
        proof {
            assert(array_model(vs@) =~= Seq::<RespModel>::empty());
        }
        return Ok((vs, pos));
    }
    match decode_at(buf, pos) {
        Ok((v, mid)) => {
            proof {
                lemma_decode_used(t);
            }
            match decode_elems_at(buf, mid, n - 1) {
                Ok((vs_tail, end)) => {
                    proof {
                        lemma_skip_skip(s, pos as int, mid - pos);
                    }
                    let ghost pre = vs_tail@;
                    let ghost head = v;
                    let mut vs = vs_tail;
                    vs.insert(0, v);
                    proof {
                        assert(array_model(vs@) =~= seq![resp_model(head)] + array_model(pre));
                    }
                    Ok((vs, end))
                },
                Err(e) => {
                    proof {
                        lemma_skip_skip(s, pos as int, mid - pos);
                    }
                    Err(e)
                },
            }
        },
        Err(e) => Err(e),
    }
}

impl RespValue {
    /// Decodes one whole message from the front of the buffer and
    /// consumes exactly its bytes; on any failure the buffer is left
    /// byte-for-byte unchanged. `Incomplete` asks the caller to read
    /// more bytes and retry; any other error is a protocol violation.
    pub fn try_from_bytes(bytes: &mut BytesMut) -> (r: Result<Self, RespError>)
        ensures
            r matches Ok(v) ==> (spec_decode(bm_bytes(*old(bytes))) matches Parsed::Value {
                v: m,
                used,
            } && m == resp_model(v) && bm_bytes(*final(bytes)) == bm_bytes(*old(bytes)).skip(
                used,
            )),
            r matches Err(e) ==> {
                &&& bm_bytes(*final(bytes)) == bm_bytes(*old(bytes))
                &&& (e is Incomplete <==> spec_decode(bm_bytes(*old(bytes))) is Incomplete)
                &&& (!(e is Incomplete) ==> e is Other && spec_decode(bm_bytes(*old(bytes)))
                    is Malformed)
            },
    {
        let ghost s = bm_bytes(*bytes);
        proof {
            assert(s.skip(0) =~= s);
        }
        match decode_at(bytes, 0) {
            Ok((v, end)) => {
                bm_advance(bytes, end);
                Ok(v)
            },
            Err(e) => Err(e),
        }
    }
}

} // verus!
