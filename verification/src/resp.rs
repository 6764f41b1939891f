//! A second, simpler face of the wire protocol: data values are
//! [`Value`]s, and each byte parser reports the value it read together
//! with the position its caller should continue from.

use vstd::prelude::*;
use vstd::utf8::{
    decode_utf8, decode_utf8_encode_utf8, encode_utf8, encode_utf8_valid_utf8,
    is_leading_byte_width_1, partial_valid_utf8, partial_valid_utf8_extend_ascii_block,
    valid_utf8, valid_utf8_concat,
};

use crate::frame::{
    crlf, dec_digits, lemma_dec_digits, push_all, push_crlf, push_decimal, spec_dec_i64,
    spec_find_crlf, utf8_to_str,
};

verus! {

/// A data value of the protocol.
#[derive(Debug, PartialEq)]
pub enum Value {
    SimpleString(String),
    BulkString(String),
    Array(Vec<Value>),
    Null,
}

/// The mathematical value a `Value` denotes.
pub enum ValueData {
    SimpleString(Seq<char>),
    BulkString(Seq<char>),
    Array(Seq<ValueData>),
    Null,
}

/// The value one `Value` denotes.
pub open spec fn value_view(v: Value) -> ValueData
    decreases v,
{
    match v {
        Value::SimpleString(s) => ValueData::SimpleString(s@),
        Value::BulkString(s) => ValueData::BulkString(s@),
        Value::Array(items) => ValueData::Array(values_view(items@)),
        Value::Null => ValueData::Null,
    }
}

/// The values a sequence of `Value`s denotes.
pub open spec fn values_view(s: Seq<Value>) -> Seq<ValueData>
    decreases s,
{
    if s.len() == 0 {
        Seq::empty()
    } else {
        seq![value_view(s[0])] + values_view(s.drop_first())
    }
}

impl View for Value {
    type V = ValueData;

    open spec fn view(&self) -> ValueData {
        value_view(*self)
    }
}

/// Failure to parse a message: the bytes cannot form one.
#[derive(Debug)]
pub struct RespError {
    pub message: String,
}

/// The byte encoding of the two serializable values: a tagged line for
/// a simple string, a length-prefixed body for a bulk string.
pub open spec fn value_bytes(v: ValueData) -> Seq<u8>
    recommends
        v is SimpleString || v is BulkString,
{
    match v {
        ValueData::SimpleString(s) => seq![43u8] + encode_utf8(s) + crlf(),
        ValueData::BulkString(s) => seq![36u8] + dec_digits(encode_utf8(s).len()) + crlf()
            + encode_utf8(s) + crlf(),
        _ => Seq::empty(),
    }
}

/// A run of bytes below 128 is valid UTF-8.
pub proof fn lemma_ascii_valid(b: Seq<u8>)
    requires
        forall|i: int| #![trigger b[i]] 0 <= i < b.len() ==> b[i] <= 0x7f,
    ensures
        valid_utf8(b),
{
    assert(b.subrange(0, 0) =~= Seq::<u8>::empty());
    assert(partial_valid_utf8(b, 0));
    assert(forall|i: int| 0 <= i < b.len() ==> is_leading_byte_width_1(#[trigger] b[i]));
    partial_valid_utf8_extend_ascii_block(b, 0, b.len() as int);
    assert(b.subrange(0, b.len() as int) =~= b);
}

impl Value {
    /// Serializes a simple or bulk string to its wire text; the bulk
    /// length counts bytes. The other variants have no serialization
    /// here.
    pub fn serialize(self) -> (r: String)
        requires
            self@ is SimpleString || self@ is BulkString,
        ensures
            encode_utf8(r@) == value_bytes(self@),
    {
        let mut out: Vec<u8> = Vec::new();
        match &self {
            Value::SimpleString(s) => {
                out.push(43u8);
                push_all(&mut out, s.as_str().as_bytes());
                push_crlf(&mut out);
                proof {
                    assert(out@ =~= value_bytes(self@));
                    lemma_ascii_valid(seq![43u8]);
                    encode_utf8_valid_utf8(s@);
                    lemma_ascii_valid(crlf());
                    valid_utf8_concat(seq![43u8], encode_utf8(s@));
                    valid_utf8_concat(seq![43u8] + encode_utf8(s@), crlf());
                    assert((seq![43u8] + encode_utf8(s@)) + crlf() =~= value_bytes(self@));
                }
            },
            Value::BulkString(s) => {
                let sb = s.as_str().as_bytes();
                out.push(36u8);
                push_decimal(&mut out, sb.len() as u64);
                push_crlf(&mut out);
                push_all(&mut out, sb);
                push_crlf(&mut out);
                proof {
                    assert(out@ =~= value_bytes(self@));
                    let dd = dec_digits(encode_utf8(s@).len());
                    lemma_dec_digits(encode_utf8(s@).len());
                    lemma_ascii_valid(seq![36u8]);
                    lemma_ascii_valid(dd);
                    lemma_ascii_valid(crlf());
                    encode_utf8_valid_utf8(s@);
                    valid_utf8_concat(seq![36u8], dd);
                    valid_utf8_concat(seq![36u8] + dd, crlf());
                    valid_utf8_concat((seq![36u8] + dd) + crlf(), encode_utf8(s@));
                    valid_utf8_concat(((seq![36u8] + dd) + crlf()) + encode_utf8(s@), crlf());
                    assert((((seq![36u8] + dd) + crlf()) + encode_utf8(s@)) + crlf()
                        =~= value_bytes(self@));
                }
            },
            _ => {
                proof {
                    assert(false);
                }
            },
        }
        match utf8_to_str(out.as_slice()) {
            Some(text) => {
                let r = text.to_owned();
                proof {
                    decode_utf8_encode_utf8(out@);
                }
                r
            },
            None => {
                proof {
                    assert(false);
                }
                String::new()
            },
        }
    }
}

} // verus!

verus! {

/// Element-wise reading of `values_view`.
pub proof fn lemma_values_view_index(s: Seq<Value>)
    ensures
        values_view(s).len() == s.len(),
        forall|i: int| 0 <= i < s.len() ==> values_view(s)[i] == value_view(s[i]),
    decreases s.len(),
{
    if s.len() > 0 {
        lemma_values_view_index(s.drop_first());
    }
}

/// `values_view` of a sequence one value longer.
proof fn lemma_values_view_push(s: Seq<Value>, x: Value)
    ensures
        values_view(s.push(x)) == values_view(s).push(value_view(x)),
{
    lemma_values_view_index(s.push(x));
    lemma_values_view_index(s);
    assert(values_view(s.push(x)) =~= values_view(s).push(value_view(x)));
}

/// Reads a simple string after its tag: the text up to the first
/// terminator; the position counts from after the tag, the callers'
/// convention.
pub open spec fn spec_parse_simple(b: Seq<u8>) -> Option<(ValueData, int)> {
    if b.len() < 1 {
        None
    } else {
        match spec_find_crlf(b.drop_first(), 0) {
            Option::Some(j) => {
                let line = b.drop_first().subrange(0, j);
                if valid_utf8(line) {
                    Some((ValueData::SimpleString(decode_utf8(line)), j + 2))
                } else {
                    None
                }
            },
            Option::None => None,
        }
    }
}

/// Reads a bulk string after its tag: a decimal byte length, the
/// terminator, that many bytes, and a full closing terminator.
pub open spec fn spec_parse_bulk(b: Seq<u8>) -> Option<(ValueData, int)> {
    if b.len() < 1 {
        None
    } else {
        match spec_find_crlf(b.drop_first(), 0) {
            Option::Some(j) => {
                let line = b.drop_first().subrange(0, j);
                match spec_dec_i64(line) {
                    Option::Some(len) => {
                        if len < 0 {
                            None
                        } else {
                            let start = j + 3;
                            let end = start + len;
                            if end + 2 > b.len() {
                                None
                            } else {
                                let body = b.subrange(start, end);
                                if valid_utf8(body) {
                                    Some((ValueData::BulkString(decode_utf8(body)), end + 2))
                                } else {
                                    None
                                }
                            }
                        }
                    },
                    Option::None => None,
                }
            },
            Option::None => None,
        }
    }
}

/// Reads one value: the first byte selects simple string, bulk string
/// or array.
pub open spec fn spec_parse_msg(b: Seq<u8>) -> Option<(ValueData, int)>
    decreases b.len(), 1int, 0int,
{
    if b.len() == 0 {
        None
    } else if b[0] == 43 {
        spec_parse_simple(b)
    } else if b[0] == 36 {
        spec_parse_bulk(b)
    } else if b[0] == 42 {
        spec_parse_array(b)
    } else {
        None
    }
}

/// Reads an array after its tag: a decimal count, then that many
/// values, each read one byte past the running position — the callers'
/// convention again; the element count of a non-positive count is
/// empty.
pub open spec fn spec_parse_array(b: Seq<u8>) -> Option<(ValueData, int)>
    decreases b.len(), 0int, 1int,
{
    if b.len() < 1 {
        None
    } else {
        match spec_find_crlf(b.drop_first(), 0) {
            Option::Some(j) => {
                match spec_dec_i64(b.drop_first().subrange(0, j)) {
                    Option::Some(n) => match spec_parse_elems(b, j + 2, n as int) {
                        Option::Some((items, p)) => Some((ValueData::Array(items), p)),
                        Option::None => None,
                    },
                    Option::None => None,
                }
            },
            Option::None => None,
        }
    }
}

/// Reads `n` consecutive values, advancing the position by each one's
/// reported length.
pub open spec fn spec_parse_elems(b: Seq<u8>, pos: int, n: int) -> Option<(Seq<ValueData>, int)>
    decreases b.len(), 0int, 0int, n,
{
    if n <= 0 {
        Some((Seq::empty(), pos))
    } else {
        if 0 <= pos && pos + 1 <= b.len() {
            match spec_parse_msg(b.subrange(pos + 1, b.len() as int)) {
                Option::Some((item, len)) => match spec_parse_elems(b, pos + len, n - 1) {
                    Option::Some((rest, e)) => Some((seq![item] + rest, e)),
                    Option::None => None,
                },
                Option::None => None,
            }
        } else {
            None
        }
    }
}

} // verus!

verus! {

/// Reads up to the first `\r\n`: the bytes before it and the position
/// just past it.
pub fn read_until_crlf<'a>(buffer: &'a [u8]) -> (r: Option<(&'a [u8], usize)>)
    ensures
        match spec_find_crlf(buffer@, 0) {
            Option::Some(j) => r matches Some(pair) && pair.0@ == buffer@.subrange(0, j)
                && pair.1 as int == j + 2,
            Option::None => r is None,
        },
        r matches Some(pair) ==> 0 < pair.1 <= buffer@.len(),
{
    match crate::frame::get_line(buffer, 0) {
        Ok(pair) => Some(pair),
        Err(_) => None,
    }
}

/// Parses a signed decimal integer; a sign other than a single leading
/// minus, a non-digit, or a value out of range is an error.
pub fn parse_int(buffer: &[u8]) -> (r: Result<i64, RespError>)
    ensures
        match spec_dec_i64(buffer@) {
            Option::Some(v) => r matches Ok(x) && x == v,
            Option::None => r is Err,
        },
{
    match crate::frame::parse_i64(buffer) {
        Some(v) => Ok(v),
        None => Err(RespError { message: "not a valid number".to_owned() }),
    }
}

/// Parses a simple string: `+`, the text, `\r\n`.
pub fn parse_simple_string(buf: &[u8]) -> (r: Result<(Value, usize), RespError>)
    ensures
        match spec_parse_simple(buf@) {
            Option::Some((v, p)) => r matches Ok(pair) && pair.0@ == v && pair.1 as int == p,
            Option::None => r is Err,
        },
        r matches Ok(pair) ==> 0 < pair.1 <= buf@.len(),
{
    if buf.len() < 1 {
        return Err(RespError { message: "not a simple string".to_owned() });
    }
    let tail = vstd::slice::slice_subrange(buf, 1, buf.len());
    proof {
        assert(tail@ =~= buf@.drop_first());
    }
    match read_until_crlf(tail) {
        Some((line, next)) => match utf8_to_str(line) {
            Some(text) => Ok((Value::SimpleString(text.to_owned()), next)),
            None => Err(RespError { message: "not a simple string".to_owned() }),
        },
        None => Err(RespError { message: "not a simple string".to_owned() }),
    }
}

/// Parses a bulk string: `$`, the decimal byte length, `\r\n`, that
/// many bytes of UTF-8 text, and the full closing `\r\n`.
pub fn parse_bulk_string(buf: &[u8]) -> (r: Result<(Value, usize), RespError>)
    ensures
        match spec_parse_bulk(buf@) {
            Option::Some((v, p)) => r matches Ok(pair) && pair.0@ == v && pair.1 as int == p,
            Option::None => r is Err,
        },
        r matches Ok(pair) ==> 0 < pair.1 <= buf@.len(),
{
    if buf.len() < 1 {
        return Err(RespError { message: "not a bulk string".to_owned() });
    }
    let tail = vstd::slice::slice_subrange(buf, 1, buf.len());
    proof {
        assert(tail@ =~= buf@.drop_first());
    }
    let (line, next) = match read_until_crlf(tail) {
        Some(pair) => pair,
        None => {
            return Err(RespError { message: "not a bulk string".to_owned() });
        },
    };
    let len = match parse_int(line) {
        Ok(v) => v,
        Err(e) => {
            return Err(e);
        },
    };
    if len < 0 {
        return Err(RespError { message: "not a bulk string".to_owned() });
    }
    let start = next + 1;
    if (start as u128) + (len as u128) + 2 > buf.len() as u128 {
        return Err(RespError { message: "not a bulk string".to_owned() });
    }
    let end = start + (len as usize);
    let body = vstd::slice::slice_subrange(buf, start, end);
    match utf8_to_str(body) {
        Some(text) => Ok((Value::BulkString(text.to_owned()), end + 2)),
        None => Err(RespError { message: "not a bulk string".to_owned() }),
    }
}

/// Parses one value: the first byte selects the kind.
pub fn parse_msg(buf: &[u8]) -> (r: Result<(Value, usize), RespError>)
    ensures
        match spec_parse_msg(buf@) {
            Option::Some((v, p)) => r matches Ok(pair) && pair.0@ == v && pair.1 as int == p,
            Option::None => r is Err,
        },
        r matches Ok(pair) ==> 0 < pair.1 <= buf@.len(),
    decreases buf@.len(), 1int,
{
    if buf.len() == 0 {
        return Err(RespError { message: "not a known value type".to_owned() });
    }
    let tag = buf[0];
    if tag == 43 {
        parse_simple_string(buf)
    } else if tag == 36 {
        parse_bulk_string(buf)
    } else if tag == 42 {
        parse_array(buf)
    } else {
        Err(RespError { message: "not a known value type".to_owned() })
    }
}

/// Parses an array: `*`, the decimal element count, `\r\n`, then that
/// many values.
#[verifier::loop_isolation(false)]
pub fn parse_array(buf: &[u8]) -> (r: Result<(Value, usize), RespError>)
    ensures
        match spec_parse_array(buf@) {
            Option::Some((v, p)) => r matches Ok(pair) && pair.0@ == v && pair.1 as int == p,
            Option::None => r is Err,
        },
        r matches Ok(pair) ==> 0 < pair.1 <= buf@.len(),
    decreases buf@.len(), 0int,
{
    if buf.len() < 1 {
        return Err(RespError { message: "not an array".to_owned() });
    }
    let tail = vstd::slice::slice_subrange(buf, 1, buf.len());
    proof {
        assert(tail@ =~= buf@.drop_first());
    }
    let (line, next) = match read_until_crlf(tail) {
        Some(pair) => pair,
        None => {
            return Err(RespError { message: "not an array".to_owned() });
        },
    };
    let n = match parse_int(line) {
        Ok(v) => v,
        Err(e) => {
            return Err(e);
        },
    };
    let mut items: Vec<Value> = Vec::new();
    let mut buf_next: usize = next;
    let mut k: i64 = 0;
    while k < n
        invariant
            0 <= k,
            n > 0 ==> k <= n,
            0 < buf_next <= buf@.len(),
            match spec_parse_elems(buf@, buf_next as int, n - k) {
                Option::Some((rest, e)) => spec_parse_elems(buf@, next as int, n as int)
                    == Some::<(Seq<ValueData>, int)>((values_view(items@) + rest, e)),
                Option::None => spec_parse_elems(buf@, next as int, n as int) is None,
            },
        decreases n - k,
    {
        if buf_next >= buf.len() {
            return Err(RespError { message: "not an array".to_owned() });
        }
        let sub = vstd::slice::slice_subrange(buf, buf_next + 1, buf.len());
        match parse_msg(sub) {
            Ok((item, len)) => {
                proof {
                    lemma_values_view_push(items@, item);
                    let m = spec_parse_elems(buf@, buf_next + len, n - k - 1);
                    if let Option::Some((rest2, e2)) = m {
                        assert(values_view(items@).push(value_view(item)) + rest2 =~= values_view(
                            items@,
                        ) + (seq![value_view(item)] + rest2));
                    }
                }
                items.push(item);
                buf_next = buf_next + len;
            },
            Err(e) => {
                return Err(e);
            },
        }
        k = k + 1;
    }
    proof {
        assert(values_view(items@) + Seq::<ValueData>::empty() =~= values_view(items@));
    }
    Ok((Value::Array(items), buf_next))
}

} // verus!
