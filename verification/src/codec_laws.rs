//! The codec laws: encoding then decoding gives the value back, and a
//! buffer holding only part of an encoding decodes to "more data
//! needed" — never to a wrong value and never to a protocol error.
//! Together these make incremental decoding safe: chunks may arrive at
//! any byte boundary.
use vstd::prelude::*;

use crate::decode::Parsed;
use crate::decode::ParsedElems;
use crate::decode::find_crlf;
use crate::decode::lemma_decode_used;
use crate::decode::lemma_find_crlf_at;
use crate::decode::lemma_find_crlf_some;
use crate::decode::null_marker;
use crate::decode::spec_decode;
use crate::decode::spec_decode_elems;
use crate::num::dec_repr;
use crate::num::is_digit;
use crate::num::is_digits;
use crate::num::lemma_dec_repr;
use crate::resp::CR;
use crate::resp::LF;
use crate::resp::MINUS;
use crate::resp::RespModel;
use crate::resp::TAG_ARRAY;
use crate::resp::TAG_BULK;
use crate::resp::TAG_ERROR;
use crate::resp::TAG_INTEGER;
use crate::resp::TAG_SIMPLE;
use crate::resp::crlf;
use crate::resp::crlf_free;
use crate::resp::resp_wf;
use crate::resp::spec_encode;
use crate::resp::spec_encode_from;

verus! {

broadcast use vstd::seq::group_seq_axioms;

/// Digit strings contain no line terminator bytes at all.
proof fn lemma_digits_crlf_free(d: Seq<u8>)
    requires
        forall|i: int| 0 <= i < d.len() ==> is_digit(#[trigger] d[i]),
    ensures
        crlf_free(d),
        forall|i: int| 0 <= i < d.len() ==> #[trigger] d[i] != CR && d[i] != LF,
{
}

/// In `tag line \r\n tail` with a clean line, the first terminator
/// stands exactly at the end of the line.
proof fn lemma_leading_line(tagb: u8, line: Seq<u8>, tail: Seq<u8>)
    requires
        crlf_free(line),
    ensures
        ({
            let s = seq![tagb] + line + crlf() + tail;
            &&& s.len() == 3 + line.len() + tail.len()
            &&& s[0] == tagb
            &&& find_crlf(s, 1) == Some(1 + line.len() as int)
            &&& s.subrange(1, 1 + line.len() as int) == line
        }),
{
    let s = seq![tagb] + line + crlf() + tail;
    let i0 = 1 + line.len() as int;
    assert(s[i0] == CR);
    assert(s[i0 + 1] == LF);
    assert forall|j: int| 1 <= j < i0 implies !(#[trigger] s[j] == CR && s[j + 1] == LF) by {
        assert(s[j] == line[j - 1]);
        if j + 1 < i0 {
            assert(s[j + 1] == line[j]);
        } else {
            assert(s[j + 1] == CR);
        }
    }
    lemma_find_crlf_at(s, 1, i0);
    assert(s.subrange(1, i0) =~= line);
}

/// A canonical digit string is never the null marker `-1`.
proof fn lemma_repr_not_null_marker(n: nat)
    ensures
        dec_repr(n) != null_marker(),
{
    lemma_dec_repr(n);
    if dec_repr(n) == null_marker() {
        assert(is_digit(dec_repr(n)[0]));
        assert(dec_repr(n)[0] == MINUS);
    }
}

/// A message found at the front of a buffer is still found, unchanged,
/// after more bytes arrive; a protocol violation likewise stays one.
pub proof fn lemma_decode_extend(s: Seq<u8>, ext: Seq<u8>)
    ensures
        spec_decode(s) matches Parsed::Value { v, used } ==> spec_decode(s + ext)
            == (Parsed::Value { v, used }),
        spec_decode(s) is Malformed ==> spec_decode(s + ext) is Malformed,
    decreases s.len(), 0int, 0int,
{
    if s.len() == 0 {
        return;
    }
    let s2 = s + ext;
    assert(s2[0] == s[0]);
    let tag = s[0];
    if tag == TAG_SIMPLE || tag == TAG_ERROR || tag == TAG_INTEGER || tag == TAG_BULK
        || tag == TAG_ARRAY {
        match find_crlf(s, 1) {
            Option::None => {},
            Option::Some(i) => {
                lemma_find_crlf_some(s, 1, i);
                assert forall|j: int| 1 <= j < i implies !(#[trigger] s2[j] == CR && s2[j + 1]
                    == LF) by {
                    assert(s2[j] == s[j]);
                    assert(s2[j + 1] == s[j + 1]);
                }
                assert(s2[i] == s[i]);
                assert(s2[i + 1] == s[i + 1]);
                lemma_find_crlf_at(s2, 1, i);
                let line = s.subrange(1, i);
                assert(s2.subrange(1, i) =~= line);
                if tag == TAG_BULK {
                    if line != null_marker() && is_digits(line) && crate::num::dec_val(line) <= usize::MAX {
                        let n = crate::num::dec_val(line) as int;
                        if s.len() >= i + 2 + n + 2 {
                            assert(s2.len() >= i + 2 + n + 2);
                            assert(s2[i + 2 + n] == s[i + 2 + n]);
                            assert(s2[i + 3 + n] == s[i + 3 + n]);
                            if s[i + 2 + n] == CR && s[i + 3 + n] == LF {
                                assert(s2.subrange(i + 2, i + 2 + n) =~= s.subrange(
                                    i + 2,
                                    i + 2 + n,
                                ));
                            }
                        }
                    }
                } else if tag == TAG_ARRAY {
                    if line != null_marker() && is_digits(line) && crate::num::dec_val(line) <= usize::MAX
                        && 1 <= i && i + 1 < s.len() {
                        let n = crate::num::dec_val(line) as int;
                        assert(s2.skip(i + 2) =~= s.skip(i + 2) + ext);
                        lemma_decode_elems_extend(s.skip(i + 2), ext, n);
                    }
                }
            },
        }
    }
}

/// See `lemma_decode_extend`, for runs of consecutive messages.
pub proof fn lemma_decode_elems_extend(s: Seq<u8>, ext: Seq<u8>, n: int)
    ensures
        spec_decode_elems(s, n) matches ParsedElems::Elems { vs, used } ==> spec_decode_elems(
            s + ext,
            n,
        ) == (ParsedElems::Elems { vs, used }),
        spec_decode_elems(s, n) is Malformed ==> spec_decode_elems(s + ext, n) is Malformed,
    decreases s.len(), n, 1int,
{
    if n <= 0 {
        return;
    }
    lemma_decode_extend(s, ext);
    match spec_decode(s) {
        Parsed::Value { v, used } => {
            lemma_decode_used(s);
            assert((s + ext).skip(used) =~= s.skip(used) + ext);
            lemma_decode_elems_extend(s.skip(used), ext, n - 1);
        },
        Parsed::Incomplete => {},
        Parsed::Malformed => {},
    }
}

/// Decoding an encoded value, whatever bytes follow it, yields exactly
/// that value and consumes exactly its encoding.
pub proof fn lemma_decode_encode(m: RespModel, rest: Seq<u8>)
    requires
        resp_wf(m),
    ensures
        spec_decode(spec_encode(m) + rest) == (Parsed::Value {
            v: m,
            used: spec_encode(m).len() as int,
        }),
    decreases m, 0int, 0int,
{
    let e = spec_encode(m);
    let s = e + rest;
    match m {
        RespModel::Simple(str) => {
            assert(s =~= seq![TAG_SIMPLE] + str + crlf() + rest);
            lemma_leading_line(TAG_SIMPLE, str, rest);
        },
        RespModel::Error(str) => {
            assert(s =~= seq![TAG_ERROR] + str + crlf() + rest);
            lemma_leading_line(TAG_ERROR, str, rest);
        },
        RespModel::Integer(iv) => {
            let rep = dec_repr(iv as nat);
            lemma_dec_repr(iv as nat);
            lemma_digits_crlf_free(rep);
            assert(s =~= seq![TAG_INTEGER] + rep + crlf() + rest);
            lemma_leading_line(TAG_INTEGER, rep, rest);
        },
        RespModel::Bulk(b) => {
            let rep = dec_repr(b.len());
            lemma_dec_repr(b.len());
            lemma_digits_crlf_free(rep);
            let tail = b + crlf() + rest;
            assert(s =~= seq![TAG_BULK] + rep + crlf() + tail);
            lemma_leading_line(TAG_BULK, rep, tail);
            lemma_repr_not_null_marker(b.len());
            let i0 = 1 + rep.len() as int;
            let n = b.len() as int;
            assert(s.len() == i0 + 2 + n + 2 + rest.len());
            assert(s[i0 + 2 + n] == CR);
            assert(s[i0 + 3 + n] == LF);
            assert(s.subrange(i0 + 2, i0 + 2 + n) =~= b);
        },
        RespModel::Null => {
            assert(s[0] == TAG_BULK);
            assert(s[1] == MINUS);
            assert(s[2] == 49u8);
            assert(s[3] == CR);
            assert(s[4] == LF);
            assert forall|j: int| 1 <= j < 3 implies !(#[trigger] s[j] == CR && s[j + 1] == LF)
                by {}
            lemma_find_crlf_at(s, 1, 3);
            assert(s.subrange(1, 3) =~= null_marker());
        },
        RespModel::Array(items) => {
            let rep = dec_repr(items.len());
            lemma_dec_repr(items.len());
            lemma_digits_crlf_free(rep);
            let body = spec_encode_from(items, 0);
            let tail = body + rest;
            assert(s =~= seq![TAG_ARRAY] + rep + crlf() + tail);
            lemma_leading_line(TAG_ARRAY, rep, tail);
            lemma_repr_not_null_marker(items.len());
            let i0 = 1 + rep.len() as int;
            assert(s.skip(i0 + 2) =~= tail);
            assert(decreases_to!(m => m->Array_0));
            lemma_decode_encode_elems(items, 0, rest);
            assert(items.skip(0) =~= items);
        },
    }
}

/// See `lemma_decode_encode`: the elements from position `k` on,
/// encoded one after another, decode back to themselves.
pub proof fn lemma_decode_encode_elems(items: Seq<RespModel>, k: int, rest: Seq<u8>)
    requires
        0 <= k <= items.len(),
        forall|i: int| 0 <= i < items.len() ==> resp_wf(#[trigger] items[i]),
    ensures
        spec_decode_elems(spec_encode_from(items, k) + rest, items.len() - k)
            == (ParsedElems::Elems {
            vs: items.skip(k),
            used: spec_encode_from(items, k).len() as int,
        }),
    decreases items, items.len() - k, 1int,
{
    if k == items.len() {
        assert(spec_encode_from(items, k) + rest =~= rest);
        assert(items.skip(k) =~= Seq::<RespModel>::empty());
    } else {
        let e_head = spec_encode(items[k]);
        let e_tail = spec_encode_from(items, k + 1);
        let s = spec_encode_from(items, k) + rest;
        assert(s =~= e_head + (e_tail + rest));
        assert(decreases_to!(items => items[k]));
        lemma_decode_encode(items[k], e_tail + rest);
        lemma_decode_used(s);
        let used = e_head.len() as int;
        assert(s.skip(used) =~= e_tail + rest);
        lemma_decode_encode_elems(items, k + 1, rest);
        assert(seq![items[k]] + items.skip(k + 1) =~= items.skip(k));
    }
}

/// Round trip: decoding the encoding of any value the grammar can
/// produce yields that value back, consuming the whole encoding.
pub proof fn lemma_round_trip(m: RespModel)
    requires
        resp_wf(m),
    ensures
        spec_decode(spec_encode(m)) == (Parsed::Value {
            v: m,
            used: spec_encode(m).len() as int,
        }),
{
    lemma_decode_encode(m, Seq::empty());
    assert(spec_encode(m) + Seq::empty() =~= spec_encode(m));
}

/// Fragmentation invariance: a buffer holding any strict prefix of an
/// encoding asks for more data — it never misreads a partial message
/// and never reports a protocol violation. With `lemma_round_trip` and
/// the contract of `try_from_bytes`, feeding an encoding in chunks of
/// any size decodes to the same value as feeding it whole.
pub proof fn lemma_prefix_incomplete(m: RespModel, k: int)
    requires
        resp_wf(m),
        0 <= k < spec_encode(m).len(),
    ensures
        spec_decode(spec_encode(m).take(k)) is Incomplete,
{
    let e = spec_encode(m);
    let p = e.take(k);
    lemma_round_trip(m);
    match spec_decode(p) {
        Parsed::Value { v, used } => {
            lemma_decode_used(p);
            lemma_decode_extend(p, e.skip(k));
            assert(p + e.skip(k) =~= e);
            assert(false);
        },
        Parsed::Incomplete => {},
        Parsed::Malformed => {
            lemma_decode_extend(p, e.skip(k));
            assert(p + e.skip(k) =~= e);
            assert(false);
        },
    }
}

} // verus!
