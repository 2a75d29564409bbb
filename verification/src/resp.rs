//! The wire value model: the tagged values that travel over the
//! protocol, their mathematical model, and constructors.
use vstd::prelude::*;

use crate::num::dec_repr;

verus! {

broadcast use vstd::std_specs::vec::group_vec_axioms, vstd::seq::group_seq_axioms;

/// Carriage return, the first byte of the line terminator.
pub const CR: u8 = 13;

/// Line feed, the second byte of the line terminator.
pub const LF: u8 = 10;

/// The leading tag byte of a simple string, `+`.
pub const TAG_SIMPLE: u8 = 43;

/// The leading tag byte of an error, `-`.
pub const TAG_ERROR: u8 = 45;

/// The leading tag byte of an integer, `:`.
pub const TAG_INTEGER: u8 = 58;

/// The leading tag byte of a bulk string, `$`.
pub const TAG_BULK: u8 = 36;

/// The leading tag byte of an array, `*`.
pub const TAG_ARRAY: u8 = 42;

/// An ASCII minus sign, the mark of the null length `-1`.
pub const MINUS: u8 = 45;

/// A protocol value: exactly one wire form exists for every variant.
/// Text payloads are byte strings; the protocol is binary-safe.
#[derive(Debug)]
pub enum RespValue {
    Simple(Vec<u8>),
    Error(Vec<u8>),
    Integer(u64),
    Bulk(Vec<u8>),
    Null,
    Array(Vec<RespValue>),
}

/// Decoder and value-shape failures.
#[derive(Debug)]
pub enum RespError {
    /// The buffer holds a valid-so-far but incomplete message; read
    /// more bytes and retry. Not a protocol violation.
    Incomplete,
    /// A value had the wrong variant for the requested operation.
    WrongKind { expected: &'static str, got: &'static str },
    /// A protocol violation: the bytes cannot begin a valid message.
    Other,
}

impl RespError {
    /// A short description of the failure.
    pub fn message(&self) -> (r: &'static str)
        ensures
            self is Incomplete ==> r@ == "stream ended early"@,
            self is WrongKind ==> r@ == "wrong kind"@,
            self is Other ==> r@ == "something went wrong"@,
    {
        match *self {
            Self::Incomplete => "stream ended early",
            Self::WrongKind { .. } => "wrong kind",
            Self::Other => "something went wrong",
        }
    }
}

/// The mathematical model of a `RespValue`: the same tree over `Seq`.
pub enum RespModel {
    Simple(Seq<u8>),
    Error(Seq<u8>),
    Integer(u64),
    Bulk(Seq<u8>),
    Null,
    Array(Seq<RespModel>),
}

/// The model of a value: payload vectors become sequences, recursively.
pub open spec fn resp_model(v: RespValue) -> RespModel
    decreases v, 0int, 0int,
{
    match v {
        RespValue::Simple(s) => RespModel::Simple(s@),
        RespValue::Error(s) => RespModel::Error(s@),
        RespValue::Integer(i) => RespModel::Integer(i),
        RespValue::Bulk(s) => RespModel::Bulk(s@),
        RespValue::Null => RespModel::Null,
        RespValue::Array(items) => RespModel::Array(resp_models(items@, 0)),
    }
}

/// The models of the elements of `items` from position `k` on.
pub open spec fn resp_models(items: Seq<RespValue>, k: int) -> Seq<RespModel>
    decreases items, items.len() - k, 1int,
{
    if k < 0 || k >= items.len() {
        Seq::empty()
    } else {
        seq![resp_model(items[k])] + resp_models(items, k + 1)
    }
}

/// The models of a whole element vector, stated positionally.
pub open spec fn array_model(items: Seq<RespValue>) -> Seq<RespModel> {
    Seq::new(items.len(), |i: int| resp_model(items[i]))
}

/// `resp_models` from position `k` is the tail of `array_model`.
pub broadcast proof fn lemma_resp_models(items: Seq<RespValue>, k: int)
    requires
        0 <= k <= items.len(),
    ensures
        #[trigger] resp_models(items, k) == array_model(items).skip(k),
    decreases items.len() - k,
{
    if k < items.len() {
        lemma_resp_models(items, k + 1);
        assert(resp_models(items, k) =~= array_model(items).skip(k));
    } else {
        assert(resp_models(items, k) =~= array_model(items).skip(k));
    }
}

/// The model of an array value is the positional model of its elements.
pub broadcast proof fn lemma_array_model(items: Seq<RespValue>)
    ensures
        #[trigger] resp_models(items, 0) == array_model(items),
{
    lemma_resp_models(items, 0);
    assert(array_model(items).skip(0) =~= array_model(items));
}

/// No carriage return directly followed by a line feed: such a payload
/// survives the line-scanning decoder unchanged.
pub open spec fn crlf_free(s: Seq<u8>) -> bool {
    forall|i: int| 0 <= i && i + 1 < s.len() ==> !(#[trigger] s[i] == CR && s[i + 1] == LF)
}

/// A value the grammar can produce: line-oriented payloads hold no
/// embedded line terminator, and every declared length fits the
/// machine word the decoder reads it into.
pub open spec fn resp_wf(m: RespModel) -> bool
    decreases m,
{
    match m {
        RespModel::Simple(s) => crlf_free(s),
        RespModel::Error(s) => crlf_free(s),
        RespModel::Integer(_) => true,
        RespModel::Bulk(s) => s.len() <= usize::MAX,
        RespModel::Null => true,
        RespModel::Array(items) => items.len() <= usize::MAX && forall|i: int|
            0 <= i < items.len() ==> resp_wf(#[trigger] items[i]),
    }
}

impl RespValue {
    /// A simple string value.
    pub fn new_simple(value: Vec<u8>) -> (r: Self)
        ensures
            resp_model(r) == RespModel::Simple(value@),
    {
        Self::Simple(value)
    }

    /// An error value.
    pub fn new_error(value: Vec<u8>) -> (r: Self)
        ensures
            resp_model(r) == RespModel::Error(value@),
    {
        Self::Error(value)
    }

    /// An integer value.
    pub fn new_integer(value: u64) -> (r: Self)
        ensures
            resp_model(r) == RespModel::Integer(value),
    {
        Self::Integer(value)
    }

    /// A bulk string value.
    pub fn new_bulk(value: Vec<u8>) -> (r: Self)
        ensures
            resp_model(r) == RespModel::Bulk(value@),
    {
        Self::Bulk(value)
    }

    /// An empty array value.
    pub fn new_array() -> (r: Self)
        ensures
            resp_model(r) == RespModel::Array(Seq::<RespModel>::empty()),
    {
        let items: Vec<RespValue> = Vec::new();
        let r = Self::Array(items);
        proof {
            assert(resp_model(r) =~= RespModel::Array(Seq::<RespModel>::empty()));
        }
        r
    }

    /// An array value holding the given elements, in order.
    pub fn array_with(value: Vec<RespValue>) -> (r: Self)
        ensures
            resp_model(r) == RespModel::Array(array_model(value@)),
    {
        let ghost vs = value@;
        let r = Self::Array(value);
        proof {
            lemma_array_model(vs);
        }
        r
    }

    /// The human-readable name of the variant.
    pub fn kind(&self) -> (r: &'static str)
        ensures
            self is Simple ==> r@ == "simple string"@,
            self is Error ==> r@ == "error"@,
            self is Integer ==> r@ == "integer"@,
            self is Bulk ==> r@ == "bulk string"@,
            self is Null ==> r@ == "null"@,
            self is Array ==> r@ == "array"@,
    {
        match *self {
            Self::Simple(_) => "simple string",
            Self::Error(_) => "error",
            Self::Integer(_) => "integer",
            Self::Bulk(_) => "bulk string",
            Self::Null => "null",
            Self::Array(_) => "array",
        }
    }

    /// Appends a value to an array; any other variant is left
    /// unchanged and reported as the wrong kind.
    pub fn array_push(&mut self, val: RespValue) -> (r: Result<(), RespError>)
        ensures
            (*old(self)) is Array ==> {
                &&& r is Ok
                &&& (resp_model(*old(self)) matches RespModel::Array(pre)
                    && resp_model(*final(self)) == RespModel::Array(pre.push(resp_model(val))))
            },
            !((*old(self)) is Array) ==> {
                &&& *final(self) == *old(self)
                &&& (r matches Err(RespError::WrongKind { expected, got })
                    && expected@ == "array"@
                    && got@ == kind_name(*old(self)))
            },
    {
        if let Self::Array(v) = self {
            let ghost pre = v@;
            let ghost pushed = val;
            v.push(val);
            proof {
                lemma_array_model(pre);
                lemma_array_model(v@);
                assert(array_model(v@) =~= array_model(pre).push(resp_model(pushed)));
            }
            Ok(())
        } else {
            Err(RespError::WrongKind { expected: "array", got: self.kind() })
        }
    }
}

/// The line terminator.
pub open spec fn crlf() -> Seq<u8> {
    seq![CR, LF]
}

/// The exact wire form of a value: every variant has exactly one.
pub open spec fn spec_encode(m: RespModel) -> Seq<u8>
    decreases m, 0int, 0int,
{
    match m {
        RespModel::Simple(s) => seq![TAG_SIMPLE] + s + crlf(),
        RespModel::Error(s) => seq![TAG_ERROR] + s + crlf(),
        RespModel::Integer(i) => seq![TAG_INTEGER] + dec_repr(i as nat) + crlf(),
        RespModel::Bulk(s) => seq![TAG_BULK] + dec_repr(s.len()) + crlf() + s + crlf(),
        RespModel::Null => seq![TAG_BULK, MINUS, 49u8, CR, LF],
        RespModel::Array(items) => seq![TAG_ARRAY] + dec_repr(items.len()) + crlf()
            + spec_encode_from(items, 0),
    }
}

/// The concatenated wire forms of the elements from position `k` on.
pub open spec fn spec_encode_from(items: Seq<RespModel>, k: int) -> Seq<u8>
    decreases items, items.len() - k, 1int,
{
    if k < 0 || k >= items.len() {
        Seq::empty()
    } else {
        spec_encode(items[k]) + spec_encode_from(items, k + 1)
    }
}

/// Appends a copy of `s`.
fn push_all(out: &mut Vec<u8>, s: &Vec<u8>)
    ensures
        final(out)@ == old(out)@ + s@,
{
    let mut i: usize = 0;
    while i < s.len()
        invariant
            0 <= i <= s.len(),
            out@ == old(out)@ + s@.take(i as int),
        decreases s.len() - i,
    {
        out.push(s[i]);
        proof {
            assert(old(out)@ + s@.take(i + 1) =~= (old(out)@ + s@.take(i as int)).push(s@[i as int]));
        }
        i = i + 1;
    }
    proof {
        assert(s@.take(i as int) =~= s@);
    }
}

/// Appends the line terminator.
fn push_crlf(out: &mut Vec<u8>)
    ensures
        final(out)@ == old(out)@ + crlf(),
{
    out.push(CR);
    out.push(LF);
    proof {
        assert(out@ =~= old(out)@ + crlf());
    }
}

/// Appends the wire form of `v`.
fn encode_into(v: &RespValue, out: &mut Vec<u8>)
    ensures
        final(out)@ == old(out)@ + spec_encode(resp_model(*v)),
    decreases *v,
{
    match v {
        RespValue::Simple(s) => {
            out.push(TAG_SIMPLE);
            push_all(out, s);
            push_crlf(out);
            proof {
                assert(out@ =~= old(out)@ + spec_encode(resp_model(*v)));
            }
        },
        RespValue::Error(s) => {
            out.push(TAG_ERROR);
            push_all(out, s);
            push_crlf(out);
            proof {
                assert(out@ =~= old(out)@ + spec_encode(resp_model(*v)));
            }
        },
        RespValue::Integer(i) => {
            out.push(TAG_INTEGER);
            crate::num::push_dec(out, *i);
            push_crlf(out);
            proof {
                assert(out@ =~= old(out)@ + spec_encode(resp_model(*v)));
            }
        },
        RespValue::Bulk(s) => {
            out.push(TAG_BULK);
            crate::num::push_dec(out, s.len() as u64);
            push_crlf(out);
            push_all(out, s);
            push_crlf(out);
            proof {
                assert(s@.len() as u64 as nat == s@.len());
                assert(out@ =~= old(out)@ + spec_encode(resp_model(*v)));
            }
        },
        RespValue::Null => {
            out.push(TAG_BULK);
            out.push(MINUS);
            out.push(49);
            push_crlf(out);
            proof {
                assert(out@ =~= old(out)@ + spec_encode(resp_model(*v)));
            }
        },
        RespValue::Array(items) => {
            let ghost models = resp_models(items@, 0);
            proof {
                lemma_resp_models(items@, 0);
            }
            out.push(TAG_ARRAY);
            crate::num::push_dec(out, items.len() as u64);
            push_crlf(out);
            let ghost base = out@;
            let mut j: usize = 0;
            while j < items.len()
                invariant
                    *v == RespValue::Array(*items),
                    0 <= j <= items@.len(),
                    models == resp_models(items@, 0),
                    models.len() == items@.len(),
                    forall|i: int| 0 <= i < items@.len()
                        ==> #[trigger] models[i] == resp_model(items@[i]),
                    out@ + spec_encode_from(models, j as int) == base + spec_encode_from(models, 0),
                decreases items@.len() - j,
            {
                proof {
                    vstd::std_specs::vec::axiom_vec_index_decreases::<RespValue>(*items, j as int);
                    assert(decreases_to!(*v => (*v)->Array_0));
                    assert(decreases_to!(*v => items@[j as int]));
                }
                encode_into(&items[j], out);
                proof {
                    assert(spec_encode_from(models, j as int)
                        == spec_encode(models[j as int]) + spec_encode_from(models, j + 1));
                    assert(out@ + spec_encode_from(models, j + 1)
                        =~= base + spec_encode_from(models, 0));
                }
                j = j + 1;
            }
            proof {
                assert(spec_encode_from(models, models.len() as int) == Seq::<u8>::empty());
                assert(out@ =~= out@ + spec_encode_from(models, models.len() as int));
                assert(items@.len() as u64 as nat == models.len());
                assert(out@ =~= old(out)@ + spec_encode(resp_model(*v)));
            }
        },
    }
}

impl RespValue {
    /// The exact byte encoding of the value: total and deterministic.
    pub fn encode(&self) -> (r: Vec<u8>)
        ensures
            r@ == spec_encode(resp_model(*self)),
    {
        let mut out: Vec<u8> = Vec::new();
        encode_into(self, &mut out);
        proof {
            assert(Seq::<u8>::empty() + spec_encode(resp_model(*self))
                =~= spec_encode(resp_model(*self)));
        }
        out
    }

    /// The byte encoding, frozen into a shareable buffer.
    pub fn raw_bytes(&self) -> (r: bytes::Bytes)
        ensures
            crate::buffer::bytes_data(r) == spec_encode(resp_model(*self)),
    {
        crate::buffer::bytes_from_vec(self.encode())
    }
}

/// The variant name of a value's model, as `kind` reports it.
pub open spec fn kind_name(v: RespValue) -> Seq<char> {
    match v {
        RespValue::Simple(_) => "simple string"@,
        RespValue::Error(_) => "error"@,
        RespValue::Integer(_) => "integer"@,
        RespValue::Bulk(_) => "bulk string"@,
        RespValue::Null => "null"@,
        RespValue::Array(_) => "array"@,
    }
}

} // verus!
