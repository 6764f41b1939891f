//! The wire frame of the protocol: a small tagged union together with the
//! line-oriented, length-prefixed grammar that carries it over a byte
//! stream. `frame_bytes` is the mathematical definition of the encoding;
//! `serialize`, `check` and `parse` are proved against it.

use vstd::prelude::*;
use vstd::utf8::*;

verus! {

/// Byte values the grammar is built from.
pub const TAG_SIMPLE: u8 = 43;

pub const TAG_ERROR: u8 = 45;

pub const TAG_INTEGER: u8 = 58;

pub const TAG_BULK: u8 = 36;

pub const TAG_ARRAY: u8 = 42;

pub const BYTE_CR: u8 = 13;

pub const BYTE_LF: u8 = 10;

/// The mathematical value of a frame: what a `Frame` denotes once the
/// executable containers are abstracted to sequences.
pub enum FrameData {
    Simple(Seq<char>),
    Error(Seq<char>),
    Integer(u64),
    Bulk(Seq<u8>),
    Null,
    Array(Seq<FrameData>),
}

/// A frame of the wire protocol.
#[derive(Debug, PartialEq)]
pub enum Frame {
    Simple(String),
    Error(String),
    Integer(u64),
    Bulk(Vec<u8>),
    Null,
    Array(Vec<Frame>),
}

/// The value a frame denotes.
pub open spec fn frame_view(f: Frame) -> FrameData
    decreases f,
{
    match f {
        Frame::Simple(s) => FrameData::Simple(s@),
        Frame::Error(s) => FrameData::Error(s@),
        Frame::Integer(i) => FrameData::Integer(i),
        Frame::Bulk(b) => FrameData::Bulk(b@),
        Frame::Null => FrameData::Null,
        Frame::Array(items) => FrameData::Array(frames_view(items@)),
    }
}

/// The values a sequence of frames denotes, element by element.
pub open spec fn frames_view(s: Seq<Frame>) -> Seq<FrameData>
    decreases s,
{
    if s.len() == 0 {
        Seq::empty()
    } else {
        seq![frame_view(s[0])] + frames_view(s.drop_first())
    }
}

/// Element-wise reading of `frames_view`.
pub proof fn lemma_frames_view_index(s: Seq<Frame>)
    ensures
        frames_view(s).len() == s.len(),
        forall|i: int| 0 <= i < s.len() ==> frames_view(s)[i] == frame_view(s[i]),
    decreases s.len(),
{
    if s.len() > 0 {
        lemma_frames_view_index(s.drop_first());
    }
}

impl View for Frame {
    type V = FrameData;

    open spec fn view(&self) -> FrameData {
        frame_view(*self)
    }
}

/// Decoding a frame can fail in two distinct ways: the bytes seen so far
/// are a proper prefix of a frame (`Incomplete`: read more and retry), or
/// they can never begin a frame (`Other`: the connection is broken).
#[derive(Debug)]
pub enum Error {
    /// Not enough data is available to decode a message.
    Incomplete,
    /// Invalid message encoding.
    Other(String),
}

/// The line terminator, as a byte sequence.
pub open spec fn crlf() -> Seq<u8> {
    seq![BYTE_CR, BYTE_LF]
}

/// Decimal digits of `n`, most significant first, without leading zeros
/// (a single `'0'` for zero).
pub open spec fn dec_digits(n: nat) -> Seq<u8>
    decreases n,
{
    if n < 10 {
        seq![(48 + n) as u8]
    } else {
        dec_digits(n / 10).push((48 + n % 10) as u8)
    }
}

/// The byte encoding of one frame.
pub open spec fn frame_bytes(f: FrameData) -> Seq<u8>
    decreases f,
{
    match f {
        FrameData::Simple(s) => seq![TAG_SIMPLE] + encode_utf8(s) + crlf(),
        FrameData::Error(s) => seq![TAG_ERROR] + encode_utf8(s) + crlf(),
        FrameData::Integer(i) => seq![TAG_INTEGER] + dec_digits(i as nat) + crlf(),
        FrameData::Bulk(b) => seq![TAG_BULK] + dec_digits(b.len()) + crlf() + b + crlf(),
        FrameData::Null => seq![TAG_BULK, TAG_ERROR, 49u8] + crlf(),
        FrameData::Array(items) => seq![TAG_ARRAY] + dec_digits(items.len()) + crlf()
            + frames_bytes(items),
    }
}

/// The byte encoding of a sequence of frames, concatenated in order.
pub open spec fn frames_bytes(items: Seq<FrameData>) -> Seq<u8>
    decreases items,
{
    if items.len() == 0 {
        Seq::empty()
    } else {
        frame_bytes(items[0]) + frames_bytes(items.drop_first())
    }
}

/// Outcome of reading one frame from a byte sequence at a position:
/// the bytes are a proper prefix of a frame, can never begin a frame,
/// or contain one whole frame ending at the returned position.
pub enum ScanOutcome {
    Incomplete,
    Malformed,
    Found(FrameData, int),
}

/// Outcome of reading a run of consecutive frames.
pub enum ElemsOutcome {
    Incomplete,
    Malformed,
    Found(Seq<FrameData>, int),
}

/// Outcome of reading one decimal line.
pub enum NumOutcome {
    Incomplete,
    Malformed,
    Found(u64, int),
}

/// Position of the first `\r\n` pair at or after `pos`, if any.
pub open spec fn spec_find_crlf(b: Seq<u8>, pos: int) -> Option<int>
    decreases b.len() - pos,
{
    if pos + 1 >= b.len() {
        None
    } else if b[pos] == BYTE_CR && b[pos + 1] == BYTE_LF {
        Some(pos)
    } else {
        spec_find_crlf(b, pos + 1)
    }
}

/// An ASCII decimal digit.
pub open spec fn is_digit(c: u8) -> bool {
    48 <= c <= 57
}

pub open spec fn all_digits(s: Seq<u8>) -> bool {
    forall|i: int| 0 <= i < s.len() ==> is_digit(#[trigger] s[i])
}

/// The number the digit string denotes, most significant digit first.
pub open spec fn digits_val(s: Seq<u8>) -> nat
    decreases s.len(),
{
    if s.len() == 0 {
        0
    } else {
        digits_val(s.drop_last()) * 10 + (if s.last() >= 48 {
            (s.last() - 48) as nat
        } else {
            0
        })
    }
}

/// A line is a number when it is a non-empty string of decimal digits
/// whose value fits in a `u64`; anything else is rejected.
pub open spec fn spec_dec_u64(line: Seq<u8>) -> Option<u64> {
    if line.len() > 0 && all_digits(line) && digits_val(line) <= u64::MAX {
        Some(digits_val(line) as u64)
    } else {
        None
    }
}

/// Reads one `\r\n`-terminated decimal line starting at `pos`.
pub open spec fn spec_scan_u64(b: Seq<u8>, pos: int) -> NumOutcome {
    match spec_find_crlf(b, pos) {
        Option::None => NumOutcome::Incomplete,
        Option::Some(i) => match spec_dec_u64(b.subrange(pos, i)) {
            Option::None => NumOutcome::Malformed,
            Option::Some(v) => NumOutcome::Found(v, i + 2),
        },
    }
}

/// Reads one frame starting at `pos`: the mathematical meaning of both
/// `Frame::check` and `Frame::parse`.
pub open spec fn spec_scan(b: Seq<u8>, pos: int) -> ScanOutcome
    decreases b.len() - pos, 0int, 0int,
{
    if pos < 0 || pos >= b.len() {
        ScanOutcome::Incomplete
    } else {
        let tag = b[pos];
        if tag == TAG_SIMPLE || tag == TAG_ERROR {
            match spec_find_crlf(b, pos + 1) {
                Option::None => ScanOutcome::Incomplete,
                Option::Some(i) => {
                    let line = b.subrange(pos + 1, i);
                    if valid_utf8(line) {
                        if tag == TAG_SIMPLE {
                            ScanOutcome::Found(FrameData::Simple(decode_utf8(line)), i + 2)
                        } else {
                            ScanOutcome::Found(FrameData::Error(decode_utf8(line)), i + 2)
                        }
                    } else {
                        ScanOutcome::Malformed
                    }
                },
            }
        } else if tag == TAG_INTEGER {
            match spec_scan_u64(b, pos + 1) {
                NumOutcome::Incomplete => ScanOutcome::Incomplete,
                NumOutcome::Malformed => ScanOutcome::Malformed,
                NumOutcome::Found(v, p) => ScanOutcome::Found(FrameData::Integer(v), p),
            }
        } else if tag == TAG_BULK {
            if pos + 1 >= b.len() {
                ScanOutcome::Incomplete
            } else if b[pos + 1] == TAG_ERROR {
                match spec_find_crlf(b, pos + 1) {
                    Option::None => ScanOutcome::Incomplete,
                    Option::Some(i) => {
                        if b.subrange(pos + 1, i) =~= seq![TAG_ERROR, 49u8] {
                            ScanOutcome::Found(FrameData::Null, i + 2)
                        } else {
                            ScanOutcome::Malformed
                        }
                    },
                }
            } else {
                match spec_scan_u64(b, pos + 1) {
                    NumOutcome::Incomplete => ScanOutcome::Incomplete,
                    NumOutcome::Malformed => ScanOutcome::Malformed,
                    NumOutcome::Found(len, p) => {
                        if !(pos < p <= b.len()) {
                            ScanOutcome::Malformed
                        } else if p + len + 2 <= b.len() {
                            ScanOutcome::Found(
                                FrameData::Bulk(b.subrange(p, p + len)),
                                p + len + 2,
                            )
                        } else {
                            ScanOutcome::Incomplete
                        }
                    },
                }
            }
        } else if tag == TAG_ARRAY {
            match spec_scan_u64(b, pos + 1) {
                NumOutcome::Incomplete => ScanOutcome::Incomplete,
                NumOutcome::Malformed => ScanOutcome::Malformed,
                NumOutcome::Found(n, p) => {
                    if !(pos < p <= b.len()) {
                        ScanOutcome::Malformed
                    } else {
                        match spec_scan_elems(b, p, n as nat) {
                            ElemsOutcome::Incomplete => ScanOutcome::Incomplete,
                            ElemsOutcome::Malformed => ScanOutcome::Malformed,
                            ElemsOutcome::Found(items, e) => ScanOutcome::Found(
                                FrameData::Array(items),
                                e,
                            ),
                        }
                    }
                },
            }
        } else {
            ScanOutcome::Malformed
        }
    }
}

/// Reads `n` consecutive frames starting at `pos`.
pub open spec fn spec_scan_elems(b: Seq<u8>, pos: int, n: nat) -> ElemsOutcome
    decreases b.len() - pos, 1int, n,
{
    if n == 0 {
        ElemsOutcome::Found(Seq::empty(), pos)
    } else {
        match spec_scan(b, pos) {
            ScanOutcome::Incomplete => ElemsOutcome::Incomplete,
            ScanOutcome::Malformed => ElemsOutcome::Malformed,
            ScanOutcome::Found(f, p) => {
                if !(pos < p <= b.len()) {
                    ElemsOutcome::Malformed
                } else {
                    match spec_scan_elems(b, p, (n - 1) as nat) {
                        ElemsOutcome::Incomplete => ElemsOutcome::Incomplete,
                        ElemsOutcome::Malformed => ElemsOutcome::Malformed,
                        ElemsOutcome::Found(rest, e) => ElemsOutcome::Found(seq![f] + rest, e),
                    }
                }
            },
        }
    }
}

/// Advances `pos` by `n` when that many bytes remain.
pub fn skip(buf: &[u8], pos: usize, n: usize) -> (r: Result<usize, Error>)
    ensures
        pos + n <= buf@.len() ==> (r matches Ok(p) && p == pos + n),
        pos + n > buf@.len() ==> (r matches Err(e) && e is Incomplete),
{
    if n <= buf.len() && pos <= buf.len() - n {
        Ok(pos + n)
    } else {
        Err(Error::Incomplete)
    }
}

/// Reads the byte at `pos` without advancing.
pub fn peek_u8(buf: &[u8], pos: usize) -> (r: Result<u8, Error>)
    ensures
        pos < buf@.len() ==> (r matches Ok(c) && c == buf@[pos as int]),
        pos >= buf@.len() ==> (r matches Err(e) && e is Incomplete),
{
    if pos < buf.len() {
        Ok(buf[pos])
    } else {
        Err(Error::Incomplete)
    }
}

/// Reads the byte at `pos` and advances past it.
pub fn get_u8(buf: &[u8], pos: usize) -> (r: Result<(u8, usize), Error>)
    ensures
        pos < buf@.len() ==> (r matches Ok(pair) && pair.0 == buf@[pos as int] && pair.1 == pos
            + 1),
        pos >= buf@.len() ==> (r matches Err(e) && e is Incomplete),
{
    if pos < buf.len() {
        Ok((buf[pos], pos + 1))
    } else {
        Err(Error::Incomplete)
    }
}

/// Reads one `\r\n`-terminated line starting at `pos`: the bytes before
/// the first terminator, and the position just past the terminator.
pub fn get_line<'a>(buf: &'a [u8], pos: usize) -> (r: Result<(&'a [u8], usize), Error>)
    ensures
        match spec_find_crlf(buf@, pos as int) {
            Option::Some(i) => r matches Ok(pair) && pair.0@ == buf@.subrange(pos as int, i)
                && pair.1 as int == i + 2,
            Option::None => r matches Err(e) && e is Incomplete,
        },
        r matches Ok(pair) ==> pos < pair.1 <= buf@.len(),
{
    if buf.len() < 2 {
        return Err(Error::Incomplete);
    }
    if pos > buf.len() - 2 {
        return Err(Error::Incomplete);
    }
    let last: usize = buf.len() - 2;
    let mut cur: usize = pos;
    loop
        invariant
            pos <= cur <= last + 1,
            last + 2 == buf@.len(),
            spec_find_crlf(buf@, pos as int) == spec_find_crlf(buf@, cur as int),
        decreases last + 1 - cur,
    {
        if cur > last {
            return Err(Error::Incomplete);
        }
        if buf[cur] == BYTE_CR && buf[cur + 1] == BYTE_LF {
            let line = vstd::slice::slice_subrange(buf, pos, cur);
            return Ok((line, cur + 2));
        }
        proof {
            assert(spec_find_crlf(buf@, cur as int) == spec_find_crlf(buf@, cur + 1));
        }
        cur = cur + 1;
    }
}

/// `digits_val` of a prefix one digit longer.
proof fn lemma_digits_val_step(s: Seq<u8>, j: int)
    requires
        0 <= j < s.len(),
    ensures
        digits_val(s.subrange(0, j + 1)) == digits_val(s.subrange(0, j)) * 10 + (if s[j] >= 48 {
            (s[j] - 48) as nat
        } else {
            0
        }),
{
    let t = s.subrange(0, j + 1);
    assert(t.drop_last() =~= s.subrange(0, j));
    assert(t.last() == s[j]);
}

/// A digit string's value never shrinks as the string grows.
proof fn lemma_digits_val_prefix(s: Seq<u8>, j: int)
    requires
        0 <= j <= s.len(),
    ensures
        digits_val(s.subrange(0, j)) <= digits_val(s),
    decreases s.len() - j,
{
    if j == s.len() {
        assert(s.subrange(0, j) =~= s);
    } else {
        lemma_digits_val_step(s, j);
        lemma_digits_val_prefix(s, j + 1);
    }
}

/// Reads one `\r\n`-terminated decimal line starting at `pos`: the value
/// and the position just past the terminator. A line that is empty, holds
/// a non-digit, or does not fit in a `u64` is malformed.
#[verifier::loop_isolation(false)]
pub fn get_decimal(buf: &[u8], pos: usize) -> (r: Result<(u64, usize), Error>)
    ensures
        match spec_scan_u64(buf@, pos as int) {
            NumOutcome::Found(v, p) => r matches Ok(pair) && pair.0 == v && pair.1 as int == p,
            NumOutcome::Incomplete => r matches Err(e) && e is Incomplete,
            NumOutcome::Malformed => r matches Err(e) && e is Other,
        },
        r matches Ok(pair) ==> pos < pair.1 <= buf@.len(),
{
    let (line, next) = match get_line(buf, pos) {
        Ok(pair) => pair,
        Err(e) => {
            return Err(e);
        },
    };
    if line.len() == 0 {
        return Err(Error::Other("protocol error; invalid number".to_owned()));
    }
    let mut val: u64 = 0;
    let m = line.len();
    for j in 0..m
        invariant
            m == line@.len(),
            all_digits(line@.subrange(0, j as int)),
            digits_val(line@.subrange(0, j as int)) <= u64::MAX,
            val == digits_val(line@.subrange(0, j as int)),
        decreases m - j,
    {
        let c = line[j];
        proof {
            lemma_digits_val_step(line@, j as int);
        }
        if c < 48 || c > 57 {
            proof {
                assert(!is_digit(line@[j as int]));
                assert(!all_digits(line@));
            }
            return Err(Error::Other("protocol error; invalid number".to_owned()));
        }
        let wide: u128 = (val as u128) * 10 + ((c - 48) as u128);
        if wide > u64::MAX as u128 {
            proof {
                assert(digits_val(line@.subrange(0, j + 1)) == digits_val(
                    line@.subrange(0, j as int),
                ) * 10 + (c - 48));
                lemma_digits_val_prefix(line@, j + 1);
                assert(digits_val(line@) > u64::MAX);
            }
            return Err(Error::Other("protocol error; invalid number".to_owned()));
        }
        val = wide as u64;
        proof {
            assert(all_digits(line@.subrange(0, j + 1)));
        }
    }
    proof {
        assert(line@.subrange(0, m as int) =~= line@);
    }
    Ok((val, next))
}

/// Decides vstd's `valid_utf8` for a byte slice.
#[verifier::loop_isolation(false)]
pub fn is_valid_utf8(s: &[u8]) -> (b: bool)
    ensures
        b == valid_utf8(s@),
{
    let n = s.len();
    proof {
        assert(s@.subrange(0, 0) =~= Seq::<u8>::empty());
    }
    let mut i: usize = 0;
    while i < n
        invariant
            i <= n,
            partial_valid_utf8(s@, i as int),
        decreases n - i,
    {
        let ghost suffix = s@.subrange(i as int, n as int);
        let b0 = s[i];
        proof {
            assert(suffix[0] == b0);
        }
        if b0 <= 0x7f {
            proof {
                assert((b0 & 0x7f) <= 0x7f) by (bit_vector);
                assert(valid_first_scalar(suffix));
                partial_valid_utf8_extend(s@, i as int);
            }
            i = i + 1;
        } else if b0 < 0xc0 {
            proof {
                assert(!valid_first_scalar(suffix));
                partial_valid_partial_invalid_utf8(s@, i as int);
            }
            return false;
        } else if b0 <= 0xdf {
            if i + 1 >= n {
                proof {
                    assert(suffix.len() < 2);
                    assert(!valid_first_scalar(suffix));
                    partial_valid_partial_invalid_utf8(s@, i as int);
                }
                return false;
            }
            let b1 = s[i + 1];
            proof {
                assert(suffix[1] == b1);
            }
            if b1 < 0x80 || b1 > 0xbf {
                proof {
                    assert(!valid_first_scalar(suffix));
                    partial_valid_partial_invalid_utf8(s@, i as int);
                }
                return false;
            }
            let cp: u32 = (((b0 & 0x1f) as u32) << 6u32) | ((b1 & 0x3f) as u32);
            proof {
                assert(cp == codepoint_width_2(b0, b1));
                assert(decode_first_codepoint(suffix) == codepoint_width_2(b0, b1));
            }
            if cp < 0x80 {
                proof {
                    assert(!valid_first_scalar(suffix));
                    partial_valid_partial_invalid_utf8(s@, i as int);
                }
                return false;
            }
            proof {
                assert((((b0 & 0x1f) as u32) << 6u32) | ((b1 & 0x3f) as u32) <= 0x7ff) by (bit_vector);
                assert(valid_first_scalar(suffix));
                partial_valid_utf8_extend(s@, i as int);
            }
            i = i + 2;
        } else if b0 <= 0xef {
            if n - i < 3 {
                proof {
                    assert(suffix.len() < 3);
                    assert(!valid_first_scalar(suffix));
                    partial_valid_partial_invalid_utf8(s@, i as int);
                }
                return false;
            }
            let b1 = s[i + 1];
            let b2 = s[i + 2];
            proof {
                assert(suffix[1] == b1);
                assert(suffix[2] == b2);
            }
            if b1 < 0x80 || b1 > 0xbf || b2 < 0x80 || b2 > 0xbf {
                proof {
                    assert(!valid_first_scalar(suffix));
                    partial_valid_partial_invalid_utf8(s@, i as int);
                }
                return false;
            }
            let cp: u32 = (((b0 & 0x0f) as u32) << 12u32) | (((b1 & 0x3f) as u32) << 6u32) | ((b2
                & 0x3f) as u32);
            proof {
                assert(cp == codepoint_width_3(b0, b1, b2));
                assert(decode_first_codepoint(suffix) == codepoint_width_3(b0, b1, b2));
            }
            if cp < 0x800 || (0xd800 <= cp && cp <= 0xdfff) {
                proof {
                    assert(!valid_first_scalar(suffix));
                    partial_valid_partial_invalid_utf8(s@, i as int);
                }
                return false;
            }
            proof {
                assert(valid_first_scalar(suffix));
                partial_valid_utf8_extend(s@, i as int);
            }
            i = i + 3;
        } else if b0 <= 0xf7 {
            if n - i < 4 {
                proof {
                    assert(suffix.len() < 4);
                    assert(!valid_first_scalar(suffix));
                    partial_valid_partial_invalid_utf8(s@, i as int);
                }
                return false;
            }
            let b1 = s[i + 1];
            let b2 = s[i + 2];
            let b3 = s[i + 3];
            proof {
                assert(suffix[1] == b1);
                assert(suffix[2] == b2);
                assert(suffix[3] == b3);
            }
            if b1 < 0x80 || b1 > 0xbf || b2 < 0x80 || b2 > 0xbf || b3 < 0x80 || b3 > 0xbf {
                proof {
                    assert(!valid_first_scalar(suffix));
                    partial_valid_partial_invalid_utf8(s@, i as int);
                }
                return false;
            }
            let cp: u32 = (((b0 & 0x07) as u32) << 18u32) | (((b1 & 0x3f) as u32) << 12u32) | (((b2
                & 0x3f) as u32) << 6u32) | ((b3 & 0x3f) as u32);
            proof {
                assert(cp == codepoint_width_4(b0, b1, b2, b3));
                assert(decode_first_codepoint(suffix) == codepoint_width_4(b0, b1, b2, b3));
            }
            if cp < 0x10000 || cp > 0x10ffff {
                proof {
                    assert(!valid_first_scalar(suffix));
                    partial_valid_partial_invalid_utf8(s@, i as int);
                }
                return false;
            }
            proof {
                assert(valid_first_scalar(suffix));
                partial_valid_utf8_extend(s@, i as int);
            }
            i = i + 4;
        } else {
            proof {
                assert(!valid_first_scalar(suffix));
                partial_valid_partial_invalid_utf8(s@, i as int);
            }
            return false;
        }
    }
    proof {
        assert(s@.subrange(0, n as int) =~= s@);
    }
    true
}

/// Relies on std::str::from_utf8: decoding a byte slice succeeds exactly
/// on valid UTF-8 and yields the decoded characters, as vstd's
/// `valid_utf8` and `decode_utf8` define them.
#[verifier::external_body]
pub(crate) fn utf8_to_str(v: &[u8]) -> (r: Option<&str>)
    ensures
        match r {
            Option::Some(s) => valid_utf8(v@) && s@ == decode_utf8(v@),
            Option::None => !valid_utf8(v@),
        },
{
    std::str::from_utf8(v).ok()
}

/// `frames_view` of a sequence one frame longer.
proof fn lemma_frames_view_push(s: Seq<Frame>, x: Frame)
    ensures
        frames_view(s.push(x)) == frames_view(s).push(frame_view(x)),
{
    lemma_frames_view_index(s.push(x));
    lemma_frames_view_index(s);
    assert(frames_view(s.push(x)) =~= frames_view(s).push(frame_view(x)));
}

impl Frame {
    /// Walks one frame's grammar from `pos` without materializing any
    /// value, deciding between a complete frame (and where it ends),
    /// truncated input, and malformed input, exactly as `spec_scan` says.
    #[verifier::loop_isolation(false)]
    pub fn check(buf: &[u8], pos: usize) -> (r: Result<usize, Error>)
        ensures
            match spec_scan(buf@, pos as int) {
                ScanOutcome::Found(f, p) => r matches Ok(e) && e as int == p,
                ScanOutcome::Incomplete => r matches Err(e) && e is Incomplete,
                ScanOutcome::Malformed => r matches Err(e) && e is Other,
            },
            r matches Ok(e) ==> pos < e <= buf@.len(),
        decreases buf@.len() - pos,
    {
        let (tag, p1) = match get_u8(buf, pos) {
            Ok(pair) => pair,
            Err(e) => {
                return Err(e);
            },
        };
        if tag == TAG_SIMPLE || tag == TAG_ERROR {
            match get_line(buf, p1) {
                Ok((line, p2)) => {
                    if is_valid_utf8(line) {
                        Ok(p2)
                    } else {
                        Err(Error::Other("protocol error; invalid string".to_owned()))
                    }
                },
                Err(e) => Err(e),
            }
        } else if tag == TAG_INTEGER {
            match get_decimal(buf, p1) {
                Ok((_v, p2)) => Ok(p2),
                Err(e) => Err(e),
            }
        } else if tag == TAG_BULK {
            if p1 >= buf.len() {
                return Err(Error::Incomplete);
            }
            if buf[p1] == TAG_ERROR {
                match get_line(buf, p1) {
                    Ok((line, p2)) => {
                        if line.len() == 2 && line[0] == TAG_ERROR && line[1] == 49 {
                            proof {
                                assert(line@ =~= seq![TAG_ERROR, 49u8]);
                            }
                            Ok(p2)
                        } else {
                            proof {
                                assert(!(line@ =~= seq![TAG_ERROR, 49u8]));
                            }
                            Err(Error::Other("protocol error; invalid frame format".to_owned()))
                        }
                    },
                    Err(e) => Err(e),
                }
            } else {
                match get_decimal(buf, p1) {
                    Ok((len64, p2)) => {
                        let rem = buf.len() - p2;
                        if (len64 as u128) + 2 <= rem as u128 {
                            let l = len64 as usize;
                            Ok(p2 + l + 2)
                        } else {
                            Err(Error::Incomplete)
                        }
                    },
                    Err(e) => Err(e),
                }
            }
        } else if tag == TAG_ARRAY {
            match get_decimal(buf, p1) {
                Ok((n, p2)) => {
                    let mut cur: usize = p2;
                    let mut k: u64 = 0;
                    while k < n
                        invariant
                            k <= n,
                            pos < cur <= buf@.len(),
                            match spec_scan_elems(buf@, cur as int, (n - k) as nat) {
                                ElemsOutcome::Found(items, e) => spec_scan_elems(
                                    buf@,
                                    p2 as int,
                                    n as nat,
                                ) matches ElemsOutcome::Found(items2, e2) && e2 == e,
                                ElemsOutcome::Incomplete => spec_scan_elems(
                                    buf@,
                                    p2 as int,
                                    n as nat,
                                ) is Incomplete,
                                ElemsOutcome::Malformed => spec_scan_elems(
                                    buf@,
                                    p2 as int,
                                    n as nat,
                                ) is Malformed,
                            },
                        decreases n - k,
                    {
                        match Frame::check(buf, cur) {
                            Ok(p) => {
                                cur = p;
                            },
                            Err(e) => {
                                return Err(e);
                            },
                        }
                        k = k + 1;
                    }
                    Ok(cur)
                },
                Err(e) => Err(e),
            }
        } else {
            Err(Error::Other("Not a known value type".to_owned()))
        }
    }

    /// Decodes one frame starting at `pos`, returning it together with
    /// the position just past it, exactly as `spec_scan` says; trailing
    /// bytes beyond that one frame are not touched.
    #[verifier::loop_isolation(false)]
    pub fn parse(buf: &[u8], pos: usize) -> (r: Result<(Frame, usize), Error>)
        ensures
            match spec_scan(buf@, pos as int) {
                ScanOutcome::Found(f, p) => r matches Ok(pair) && pair.0@ == f && pair.1 as int
                    == p,
                ScanOutcome::Incomplete => r matches Err(e) && e is Incomplete,
                ScanOutcome::Malformed => r matches Err(e) && e is Other,
            },
            r matches Ok(pair) ==> pos < pair.1 <= buf@.len(),
        decreases buf@.len() - pos,
    {
        let (tag, p1) = match get_u8(buf, pos) {
            Ok(pair) => pair,
            Err(e) => {
                return Err(e);
            },
        };
        if tag == TAG_SIMPLE || tag == TAG_ERROR {
            match get_line(buf, p1) {
                Ok((line, p2)) => match utf8_to_str(line) {
                    Some(s) => {
                        let text = s.to_owned();
                        if tag == TAG_SIMPLE {
                            Ok((Frame::Simple(text), p2))
                        } else {
                            Ok((Frame::Error(text), p2))
                        }
                    },
                    None => Err(Error::Other("protocol error; invalid string".to_owned())),
                },
                Err(e) => Err(e),
            }
        } else if tag == TAG_INTEGER {
            match get_decimal(buf, p1) {
                Ok((v, p2)) => Ok((Frame::Integer(v), p2)),
                Err(e) => Err(e),
            }
        } else if tag == TAG_BULK {
            if p1 >= buf.len() {
                return Err(Error::Incomplete);
            }
            if buf[p1] == TAG_ERROR {
                match get_line(buf, p1) {
                    Ok((line, p2)) => {
                        if line.len() == 2 && line[0] == TAG_ERROR && line[1] == 49 {
                            proof {
                                assert(line@ =~= seq![TAG_ERROR, 49u8]);
                            }
                            Ok((Frame::Null, p2))
                        } else {
                            proof {
                                assert(!(line@ =~= seq![TAG_ERROR, 49u8]));
                            }
                            Err(Error::Other("protocol error; invalid frame format".to_owned()))
                        }
                    },
                    Err(e) => Err(e),
                }
            } else {
                match get_decimal(buf, p1) {
                    Ok((len64, p2)) => {
                        let rem = buf.len() - p2;
                        if (len64 as u128) + 2 <= rem as u128 {
                            let l = len64 as usize;
                            let data = vstd::slice::slice_to_vec(
                                vstd::slice::slice_subrange(buf, p2, p2 + l),
                            );
                            Ok((Frame::Bulk(data), p2 + l + 2))
                        } else {
                            Err(Error::Incomplete)
                        }
                    },
                    Err(e) => Err(e),
                }
            }
        } else if tag == TAG_ARRAY {
            match get_decimal(buf, p1) {
                Ok((n, p2)) => {
                    let mut items: Vec<Frame> = Vec::new();
                    let mut cur: usize = p2;
                    let mut k: u64 = 0;
                    while k < n
                        invariant
                            k <= n,
                            pos < cur <= buf@.len(),
                            match spec_scan_elems(buf@, cur as int, (n - k) as nat) {
                                ElemsOutcome::Found(rest, e) => spec_scan_elems(
                                    buf@,
                                    p2 as int,
                                    n as nat,
                                ) == ElemsOutcome::Found(frames_view(items@) + rest, e),
                                ElemsOutcome::Incomplete => spec_scan_elems(
                                    buf@,
                                    p2 as int,
                                    n as nat,
                                ) is Incomplete,
                                ElemsOutcome::Malformed => spec_scan_elems(
                                    buf@,
                                    p2 as int,
                                    n as nat,
                                ) is Malformed,
                            },
                        decreases n - k,
                    {
                        match Frame::parse(buf, cur) {
                            Ok((fr, p)) => {
                                proof {
                                    lemma_frames_view_push(items@, fr);
                                    let m = spec_scan_elems(buf@, p as int, (n - k - 1) as nat);
                                    if let ElemsOutcome::Found(rest2, e2) = m {
                                        assert(frames_view(items@).push(frame_view(fr)) + rest2
                                            =~= frames_view(items@) + (seq![frame_view(fr)]
                                            + rest2));
                                    }
                                }
                                items.push(fr);
                                cur = p;
                            },
                            Err(e) => {
                                return Err(e);
                            },
                        }
                        k = k + 1;
                    }
                    proof {
                        assert(frames_view(items@) + Seq::<FrameData>::empty() =~= frames_view(
                            items@,
                        ));
                    }
                    Ok((Frame::Array(items), cur))
                },
                Err(e) => Err(e),
            }
        } else {
            Err(Error::Other("Not a known value type".to_owned()))
        }
    }
}

/// Appends every byte of `s` to `out`.
pub(crate) fn push_all(out: &mut Vec<u8>, s: &[u8])
    ensures
        final(out)@ == old(out)@ + s@,
{
    let ghost start = out@;
    for i in 0..s.len()
        invariant
            out@ == start + s@.subrange(0, i as int),
    {
        out.push(s[i]);
        proof {
            assert(out@ =~= start + s@.subrange(0, i + 1 as int));
        }
    }
    proof {
        assert(out@ =~= start + s@);
    }
}

/// Appends the decimal digits of `n` to `out`, most significant first.
pub(crate) fn push_decimal(out: &mut Vec<u8>, n: u64)
    ensures
        final(out)@ == old(out)@ + dec_digits(n as nat),
    decreases n,
{
    if n >= 10 {
        push_decimal(out, n / 10);
    }
    out.push(48 + (n % 10) as u8);
    proof {
        if n < 10 {
            assert(out@ =~= old(out)@ + dec_digits(n as nat));
        } else {
            assert(out@ =~= old(out)@ + dec_digits(n as nat));
        }
    }
}

/// Appends `\r\n` to `out`.
pub(crate) fn push_crlf(out: &mut Vec<u8>)
    ensures
        final(out)@ == old(out)@ + crlf(),
{
    out.push(BYTE_CR);
    out.push(BYTE_LF);
    proof {
        assert(out@ =~= old(out)@ + crlf());
    }
}

impl Frame {
    /// Serialize the frame to bytes, the exact encoding `frame_bytes`
    /// defines; every variant is supported, arrays recursively.
    #[verifier::loop_isolation(false)]
    pub fn serialize(&self) -> (out: Vec<u8>)
        ensures
            out@ == frame_bytes(self@),
        decreases *self,
    {
        let mut out: Vec<u8> = Vec::new();
        match self {
            Frame::Simple(s) => {
                out.push(TAG_SIMPLE);
                push_all(&mut out, s.as_str().as_bytes());
                push_crlf(&mut out);
                proof {
                    assert(out@ =~= frame_bytes(self@));
                }
            },
            Frame::Error(s) => {
                out.push(TAG_ERROR);
                push_all(&mut out, s.as_str().as_bytes());
                push_crlf(&mut out);
                proof {
                    assert(out@ =~= frame_bytes(self@));
                }
            },
            Frame::Integer(i) => {
                out.push(TAG_INTEGER);
                push_decimal(&mut out, *i);
                push_crlf(&mut out);
                proof {
                    assert(out@ =~= frame_bytes(self@));
                }
            },
            Frame::Bulk(b) => {
                out.push(TAG_BULK);
                push_decimal(&mut out, b.len() as u64);
                push_crlf(&mut out);
                push_all(&mut out, b.as_slice());
                push_crlf(&mut out);
                proof {
                    assert(out@ =~= frame_bytes(self@));
                }
            },
            Frame::Null => {
                out.push(TAG_BULK);
                out.push(TAG_ERROR);
                out.push(49);
                push_crlf(&mut out);
                proof {
                    assert(out@ =~= frame_bytes(self@));
                }
            },
            Frame::Array(items) => {
                out.push(TAG_ARRAY);
                push_decimal(&mut out, items.len() as u64);
                push_crlf(&mut out);
                let ghost elems = frames_view(items@);
                let ghost head = out@;
                proof {
                    lemma_frames_view_index(items@);
                }
                for k in 0..items.len()
                    invariant
                        out@ == head + frames_bytes(elems.subrange(0, k as int)),
                        elems == frames_view(items@),
                        elems.len() == items@.len(),
                        forall|i: int| 0 <= i < items@.len() ==> elems[i] == frame_view(
                            items@[i],
                        ),
                    decreases items.len() - k,
                {
                    proof {
                        vstd::std_specs::vec::axiom_vec_decreases_to_view(*items);
                        vstd::seq::axiom_seq_index_decreases(items@, k as int);
                        assert(decreases_to!(*self => *items));
                        assert(decreases_to!(*self => items@[k as int]));
                    }
                    let piece = items[k].serialize();
                    push_all(&mut out, piece.as_slice());
                    proof {
                        lemma_frames_bytes_snoc(elems, k as int);
                        assert(out@ =~= head + frames_bytes(elems.subrange(0, k + 1 as int)));
                    }
                }
                proof {
                    assert(elems.subrange(0, elems.len() as int) =~= elems);
                    assert(out@ =~= frame_bytes(self@));
                }
            },
        }
        out
    }
}

/// Encoding `i + 1` frames of a sequence appends the encoding of the
/// `i`-th frame to the encoding of the first `i`.
proof fn lemma_frames_bytes_snoc(items: Seq<FrameData>, i: int)
    requires
        0 <= i < items.len(),
    ensures
        frames_bytes(items.subrange(0, i + 1)) == frames_bytes(items.subrange(0, i))
            + frame_bytes(items[i]),
    decreases i,
{
    if i == 0 {
        assert(frames_bytes(Seq::<FrameData>::empty()) == Seq::<u8>::empty());
        assert(items.subrange(0, 1).drop_first() =~= Seq::<FrameData>::empty());
        assert(items.subrange(0, 1)[0] == items[0]);
        assert(frames_bytes(items.subrange(0, 1)) =~= frame_bytes(items[0]));
        assert(items.subrange(0, 0) =~= Seq::<FrameData>::empty());
        assert(frames_bytes(items.subrange(0, 0)) =~= Seq::<u8>::empty());
        assert(frames_bytes(items.subrange(0, 1)) =~= frames_bytes(items.subrange(0, 0))
            + frame_bytes(items[0]));
    } else {
        lemma_frames_bytes_snoc(items.drop_first(), i - 1);
        let a = items.subrange(0, i + 1);
        let b = items.subrange(0, i);
        assert(a.drop_first() =~= items.drop_first().subrange(0, i));
        assert(b.drop_first() =~= items.drop_first().subrange(0, i - 1));
        assert(items.drop_first()[i - 1] == items[i]);
        assert(frames_bytes(a) == frame_bytes(items[0]) + frames_bytes(
            items.drop_first().subrange(0, i),
        ));
        assert(frames_bytes(a) =~= frames_bytes(b) + frame_bytes(items[i]));
    }
}

} // verus!

verus! {

/// Decimal digits denote their number, digit by digit.
pub proof fn lemma_dec_digits(n: nat)
    ensures
        dec_digits(n).len() >= 1,
        all_digits(dec_digits(n)),
        digits_val(dec_digits(n)) == n,
    decreases n,
{
    if n < 10 {
        let d = dec_digits(n);
        assert(digits_val(Seq::<u8>::empty()) == 0);
        assert(d.drop_last() =~= Seq::<u8>::empty());
        assert(d.last() == (48 + n) as u8);
        assert(digits_val(d) == n);
    } else {
        lemma_dec_digits(n / 10);
        let d = dec_digits(n);
        assert(d.drop_last() =~= dec_digits(n / 10));
        assert(d.last() == (48 + n % 10) as u8);
        vstd::arithmetic::div_mod::lemma_fundamental_div_mod(n as int, 10);
        assert(0 <= n % 10 < 10);
        assert(d.last() == (48 + n % 10) as u8);
        assert((48 + n % 10) as u8 >= 48);
        assert(((48 + n % 10) as u8 - 48) as nat == n % 10);
        assert(digits_val(d) == digits_val(dec_digits(n / 10)) * 10 + n % 10);
        assert(n == 10 * (n / 10) + n % 10);
        assert(digits_val(d) == n);
        assert forall|j: int| 0 <= j < d.len() implies is_digit(d[j]) by {
            if j < d.len() - 1 {
                assert(d[j] == dec_digits(n / 10)[j]);
            }
        }
    }
}

/// `spec_find_crlf` returns the position of the terminator when no
/// earlier pair occurs.
proof fn lemma_find_crlf_exact(b: Seq<u8>, pos: int, i: int)
    requires
        0 <= pos <= i,
        i + 2 <= b.len(),
        b[i] == BYTE_CR,
        b[i + 1] == BYTE_LF,
        forall|j: int| #![trigger b[j]] pos <= j < i ==> !(b[j] == BYTE_CR && b[j + 1] == BYTE_LF),
    ensures
        spec_find_crlf(b, pos) == Some(i),
    decreases i - pos,
{
    if pos < i {
        lemma_find_crlf_exact(b, pos + 1, i);
    }
}

/// `spec_find_crlf` finds nothing when no pair occurs at all.
proof fn lemma_find_crlf_none(b: Seq<u8>, pos: int)
    requires
        forall|j: int| #![trigger b[j]] pos <= j && j + 1 < b.len() ==> !(b[j] == BYTE_CR && b[j + 1] == BYTE_LF),
    ensures
        spec_find_crlf(b, pos) is None,
    decreases b.len() - pos,
{
    if pos + 1 < b.len() {
        lemma_find_crlf_none(b, pos + 1);
    }
}

/// Where carriage returns and line feeds can sit inside one scalar's
/// UTF-8 encoding: only as the whole one-byte encoding of `'\r'` or
/// `'\n'` itself.
proof fn lemma_scalar_bytes(c: char)
    ensures
        encode_scalar(c as u32).len() >= 1,
        c == '\r' ==> encode_scalar(c as u32) =~= seq![BYTE_CR],
        forall|j: int|
            0 <= j < encode_scalar(c as u32).len() && #[trigger] encode_scalar(c as u32)[j]
                == BYTE_CR ==> c == '\r',
        encode_scalar(c as u32)[0] == BYTE_LF ==> c == '\n',
{
    char_is_scalar(c);
    char_u32_cast(c, c as u32);
    let v = c as u32;
    assert('\r' as u32 == 13);
    assert('\n' as u32 == 10);
    if has_width_1_encoding(v) {
        assert((v & 0x7f) == v) by (bit_vector)
            requires
                v <= 0x7f,
        ;
        if v == 13 {
            char_u32_cast('\r', 13);
            assert(c == '\r');
            assert(encode_scalar(v) =~= seq![BYTE_CR]);
        }
        if v == 10 {
            char_u32_cast('\n', 10);
        }
    } else if has_width_2_encoding(v) {
        assert((0xC0 | (((v >> 6) & 0x1F) as u8)) >= 0xC0) by (bit_vector);
        assert((0x80 | ((v & 0x3F) as u8)) >= 0x80) by (bit_vector);
    } else if has_width_3_encoding(v) {
        assert((0xE0 | (((v >> 12) & 0x0F) as u8)) >= 0xE0) by (bit_vector);
        assert((0x80 | (((v >> 6) & 0x3F) as u8)) >= 0x80) by (bit_vector);
        assert((0x80 | ((v & 0x3F) as u8)) >= 0x80) by (bit_vector);
    } else {
        assert((0xF0 | (((v >> 18) & 0x7) as u8)) >= 0xF0) by (bit_vector);
        assert((0x80 | (((v >> 12) & 0x3F) as u8)) >= 0x80) by (bit_vector);
        assert((0x80 | (((v >> 6) & 0x3F) as u8)) >= 0x80) by (bit_vector);
        assert((0x80 | ((v & 0x3F) as u8)) >= 0x80) by (bit_vector);
    }
}

/// Text that never puts `'\r'` directly before `'\n'`; its encoding can
/// be carried on one protocol line.
pub open spec fn text_wire_safe(s: Seq<char>) -> bool {
    forall|i: int| #![trigger s[i]] 0 <= i && i + 1 < s.len() ==> !(s[i] == '\r' && s[i + 1] == '\n')
}

/// The UTF-8 encoding of wire-safe text contains no `\r\n` pair.
proof fn lemma_encode_pair_free(s: Seq<char>)
    requires
        text_wire_safe(s),
    ensures
        forall|j: int| #![trigger encode_utf8(s)[j]]
            0 <= j && j + 1 < encode_utf8(s).len() ==> !(encode_utf8(s)[j] == BYTE_CR
                && encode_utf8(s)[j + 1] == BYTE_LF),
    decreases s.len(),
{
    if s.len() > 0 {
        let head = encode_scalar(s[0] as u32);
        let tail = encode_utf8(s.drop_first());
        let whole = encode_utf8(s);
        assert(whole == head + tail);
        lemma_scalar_bytes(s[0]);
        assert(text_wire_safe(s.drop_first())) by {
            assert(forall|i: int| #![trigger s.drop_first()[i]]
                0 <= i && i + 1 < s.drop_first().len() ==> s.drop_first()[i] == s[i + 1]
                    && s.drop_first()[i + 1] == s[i + 2]);
        }
        lemma_encode_pair_free(s.drop_first());
        assert forall|j: int| #![trigger whole[j]]
            0 <= j && j + 1 < whole.len() implies !(whole[j] == BYTE_CR && whole[j + 1]
            == BYTE_LF) by {
            if j + 1 < head.len() {
                // both bytes inside the first scalar: a pair would force the
                // scalar to be both '\r' and one byte long, a contradiction
                assert(whole[j] == head[j]);
                assert(whole[j + 1] == head[j + 1]);
                if whole[j] == BYTE_CR && whole[j + 1] == BYTE_LF {
                    assert(s[0] == '\r');
                    assert(head.len() == 1);
                }
            } else if j < head.len() {
                // the pair would straddle the boundary: s[0] == '\r' and the
                // next character '\n', which wire-safe text rules out
                assert(whole[j] == head[j]);
                assert(whole[j + 1] == tail[0]);
                if whole[j] == BYTE_CR && whole[j + 1] == BYTE_LF {
                    assert(j == head.len() - 1);
                    assert(s[0] == '\r');
                    assert(head =~= seq![BYTE_CR]);
                    assert(s.drop_first().len() > 0);
                    assert(tail[0] == encode_scalar(s.drop_first()[0] as u32)[0]) by {
                        assert(tail == encode_scalar(s.drop_first()[0] as u32) + encode_utf8(
                            s.drop_first().drop_first(),
                        ));
                        lemma_scalar_bytes(s.drop_first()[0]);
                    }
                    lemma_scalar_bytes(s.drop_first()[0]);
                    assert(s.drop_first()[0] == '\n');
                    assert(s[1] == '\n');
                    assert(false);
                }
            } else {
                assert(whole[j] == tail[j - head.len()]);
                assert(whole[j + 1] == tail[j - head.len() + 1]);
            }
        }
    }
}

/// Digits carry no `\r` byte, so a digit line holds no `\r\n` pair.
proof fn lemma_digits_pair_free(s: Seq<u8>)
    requires
        all_digits(s),
    ensures
        forall|j: int| #![trigger s[j]]
            0 <= j && j + 1 < s.len() ==> !(s[j] == BYTE_CR && s[j + 1] == BYTE_LF),
{
}

/// Every frame encoding starts with its tag byte.
proof fn lemma_frame_bytes_len(f: FrameData)
    ensures
        frame_bytes(f).len() >= 1,
{
    match f {
        FrameData::Simple(s) => {},
        FrameData::Error(s) => {},
        FrameData::Integer(i) => {},
        FrameData::Bulk(b) => {},
        FrameData::Null => {},
        FrameData::Array(items) => {},
    }
}

} // verus!

verus! {

/// A frame the wire grammar can carry faithfully: its texts never put
/// `'\r'` directly before `'\n'` (the line grammar cannot quote a
/// terminator), and its sizes fit the length headers.
pub open spec fn wire_ok(f: FrameData) -> bool
    decreases f,
{
    match f {
        FrameData::Simple(s) => text_wire_safe(s),
        FrameData::Error(s) => text_wire_safe(s),
        FrameData::Integer(i) => true,
        FrameData::Bulk(b) => b.len() <= u64::MAX,
        FrameData::Null => true,
        FrameData::Array(items) => items.len() <= u64::MAX && (forall|i: int|
            0 <= i < items.len() ==> wire_ok(#[trigger] items[i])),
    }
}

/// Shared argument for the line-delimited cases: when the bytes at
/// `pos` are `body` followed by `\r\n`, and `body` holds no `\r\n`
/// pair, the terminator found is the one after `body`.
proof fn lemma_line_at(b: Seq<u8>, pos: int, body: Seq<u8>)
    requires
        0 <= pos,
        pos + body.len() + 2 <= b.len(),
        forall|k: int| #![trigger body[k]] 0 <= k < body.len() ==> b[pos + k] == body[k],
        b[pos + body.len()] == BYTE_CR,
        b[pos + body.len() + 1] == BYTE_LF,
        forall|j: int| #![trigger body[j]]
            0 <= j && j + 1 < body.len() ==> !(body[j] == BYTE_CR && body[j + 1] == BYTE_LF),
    ensures
        spec_find_crlf(b, pos) == Some(pos + body.len()),
        b.subrange(pos, pos + body.len()) == body,
{
    let i = pos + body.len();
    assert forall|j: int| #![trigger b[j]] pos <= j < i implies !(b[j] == BYTE_CR && b[j + 1]
        == BYTE_LF) by {
        assert(b[j] == body[j - pos]);
        if j < i - 1 {
            assert(b[j + 1] == body[j + 1 - pos]);
        }
    }
    lemma_find_crlf_exact(b, pos, i);
    assert(b.subrange(pos, i) =~= body) by {
        assert forall|k: int| 0 <= k < body.len() implies b.subrange(pos, i)[k] == body[k] by {
            assert(b[pos + k] == body[k]);
        }
    }
}

/// The bytes one frame's encoding puts at each offset from `pos`.
spec fn enc_at(b: Seq<u8>, pos: int, f: FrameData) -> bool {
    &&& 0 <= pos
    &&& pos + frame_bytes(f).len() <= b.len()
    &&& b.subrange(pos, pos + frame_bytes(f).len()) == frame_bytes(f)
}

proof fn lemma_enc_at_bytes(b: Seq<u8>, pos: int, f: FrameData)
    requires
        enc_at(b, pos, f),
    ensures
        forall|k: int| #![trigger frame_bytes(f)[k]]
            0 <= k < frame_bytes(f).len() ==> b[pos + k] == frame_bytes(f)[k],
{
    assert forall|k: int| #![trigger frame_bytes(f)[k]]
        0 <= k < frame_bytes(f).len() implies b[pos + k] == frame_bytes(f)[k] by {
        assert(b.subrange(pos, pos + frame_bytes(f).len())[k] == b[pos + k]);
    }
}

proof fn lemma_scan_of_text(b: Seq<u8>, pos: int, f: FrameData)
    requires
        enc_at(b, pos, f),
        wire_ok(f),
        f is Simple || f is Error,
    ensures
        spec_scan(b, pos) == ScanOutcome::Found(f, pos + frame_bytes(f).len()),
{
    let enc = frame_bytes(f);
    let s = if f is Simple { f->Simple_0 } else { f->Error_0 };
    let eu = encode_utf8(s);
    let tag = if f is Simple { TAG_SIMPLE } else { TAG_ERROR };
    assert(enc == seq![tag] + eu + crlf());
    lemma_enc_at_bytes(b, pos, f);
    assert(b[pos] == enc[0] && enc[0] == tag);
    lemma_encode_pair_free(s);
    assert forall|k: int| #![trigger eu[k]] 0 <= k < eu.len() implies b[pos + 1 + k] == eu[k] by {
        assert(b[pos + 1 + k] == enc[1 + k]);
    }
    assert(b[pos + 1 + eu.len() as int] == enc[1 + eu.len() as int]);
    assert(b[pos + 2 + eu.len() as int] == enc[2 + eu.len() as int]);
    lemma_line_at(b, pos + 1, eu);
    encode_utf8_valid_utf8(s);
    encode_utf8_decode_utf8(s);
    let i = pos + 1 + eu.len();
    assert(spec_find_crlf(b, pos + 1) == Some(i));
    assert(b.subrange(pos + 1, i) == eu);
    assert(decode_utf8(b.subrange(pos + 1, i)) == s);
    assert(i + 2 == pos + enc.len());
}

proof fn lemma_scan_of_integer(b: Seq<u8>, pos: int, v: u64)
    requires
        enc_at(b, pos, FrameData::Integer(v)),
    ensures
        spec_scan(b, pos) == ScanOutcome::Found(
            FrameData::Integer(v),
            pos + frame_bytes(FrameData::Integer(v)).len(),
        ),
{
    let enc = frame_bytes(FrameData::Integer(v));
    let dd = dec_digits(v as nat);
    assert(enc == seq![TAG_INTEGER] + dd + crlf());
    lemma_enc_at_bytes(b, pos, FrameData::Integer(v));
    lemma_dec_digits(v as nat);
    assert(b[pos] == enc[0] && enc[0] == TAG_INTEGER);
    assert forall|k: int| #![trigger dd[k]] 0 <= k < dd.len() implies b[pos + 1 + k] == dd[k] by {
        assert(b[pos + 1 + k] == enc[1 + k]);
    }
    assert(b[pos + 1 + dd.len() as int] == enc[1 + dd.len() as int]);
    assert(b[pos + 2 + dd.len() as int] == enc[2 + dd.len() as int]);
    lemma_digits_pair_free(dd);
    lemma_line_at(b, pos + 1, dd);
    let i = pos + 1 + dd.len();
    assert(spec_dec_u64(b.subrange(pos + 1, i)) == Some(v));
    assert(i + 2 == pos + enc.len());
}

proof fn lemma_scan_of_bulk(b: Seq<u8>, pos: int, data: Seq<u8>)
    requires
        enc_at(b, pos, FrameData::Bulk(data)),
        data.len() <= u64::MAX,
    ensures
        spec_scan(b, pos) == ScanOutcome::Found(
            FrameData::Bulk(data),
            pos + frame_bytes(FrameData::Bulk(data)).len(),
        ),
{
    let enc = frame_bytes(FrameData::Bulk(data));
    let dd = dec_digits(data.len());
    assert(enc == seq![TAG_BULK] + dd + crlf() + data + crlf());
    lemma_enc_at_bytes(b, pos, FrameData::Bulk(data));
    lemma_dec_digits(data.len());
    assert(b[pos] == enc[0] && enc[0] == TAG_BULK);
    assert(b[pos + 1] == enc[1] && enc[1] == dd[0]);
    assert(is_digit(dd[0]));
    assert(b[pos + 1] != TAG_ERROR);
    assert forall|k: int| #![trigger dd[k]] 0 <= k < dd.len() implies b[pos + 1 + k] == dd[k] by {
        assert(b[pos + 1 + k] == enc[1 + k]);
    }
    assert(b[pos + 1 + dd.len() as int] == enc[1 + dd.len() as int]);
    assert(b[pos + 2 + dd.len() as int] == enc[2 + dd.len() as int]);
    lemma_digits_pair_free(dd);
    lemma_line_at(b, pos + 1, dd);
    let i = pos + 1 + dd.len();
    let p2 = i + 2;
    assert(spec_dec_u64(b.subrange(pos + 1, i)) == Some(data.len() as u64));
    assert(p2 + data.len() + 2 == pos + enc.len());
    assert(b.subrange(p2, p2 + data.len()) =~= data) by {
        assert forall|k: int| 0 <= k < data.len() implies b.subrange(p2, p2 + data.len())[k]
            == data[k] by {
            assert(b[p2 + k] == enc[p2 - pos + k]);
            assert(enc[p2 - pos + k] == data[k]);
        }
    }
}

proof fn lemma_scan_of_null(b: Seq<u8>, pos: int)
    requires
        enc_at(b, pos, FrameData::Null),
    ensures
        spec_scan(b, pos) == ScanOutcome::Found(FrameData::Null, pos + 5),
{
    let enc = frame_bytes(FrameData::Null);
    assert(enc == seq![TAG_BULK, TAG_ERROR, 49u8] + crlf());
    lemma_enc_at_bytes(b, pos, FrameData::Null);
    assert(b[pos] == enc[0] && enc[0] == TAG_BULK);
    assert(b[pos + 1] == enc[1] && enc[1] == TAG_ERROR);
    assert(b[pos + 2] == enc[2] && enc[2] == 49u8);
    assert(b[pos + 3] == enc[3] && enc[3] == BYTE_CR);
    assert(b[pos + 4] == enc[4] && enc[4] == BYTE_LF);
    lemma_line_at(b, pos + 1, seq![TAG_ERROR, 49u8]);
    assert(b.subrange(pos + 1, pos + 3) =~= seq![TAG_ERROR, 49u8]);
}

/// Reading bytes that hold one frame's encoding, wherever they sit and
/// whatever follows them, finds exactly that frame and stops exactly at
/// its end.
pub proof fn lemma_scan_of_encoding(b: Seq<u8>, pos: int, f: FrameData)
    requires
        wire_ok(f),
        0 <= pos,
        pos + frame_bytes(f).len() <= b.len(),
        b.subrange(pos, pos + frame_bytes(f).len()) == frame_bytes(f),
    ensures
        spec_scan(b, pos) == ScanOutcome::Found(f, pos + frame_bytes(f).len()),
    decreases f,
{
    match f {
        FrameData::Simple(s) => {
            lemma_scan_of_text(b, pos, f);
        },
        FrameData::Error(s) => {
            lemma_scan_of_text(b, pos, f);
        },
        FrameData::Integer(v) => {
            lemma_scan_of_integer(b, pos, v);
        },
        FrameData::Bulk(data) => {
            lemma_scan_of_bulk(b, pos, data);
        },
        FrameData::Null => {
            lemma_scan_of_null(b, pos);
        },
        FrameData::Array(items) => {
            let enc = frame_bytes(f);
            let dd = dec_digits(items.len());
            let i = pos + 1 + dd.len();
            let p2 = i + 2;
            let fb = frames_bytes(items);
            assert(enc == seq![TAG_ARRAY] + dd + crlf() + fb);
            lemma_enc_at_bytes(b, pos, f);
            lemma_dec_digits(items.len());
            assert(b[pos] == enc[0] && enc[0] == TAG_ARRAY);
            assert forall|k: int| #![trigger dd[k]] 0 <= k < dd.len() implies b[pos + 1 + k]
                == dd[k] by {
                assert(b[pos + 1 + k] == enc[1 + k]);
            }
            assert(b[pos + 1 + dd.len() as int] == enc[1 + dd.len() as int]);
            assert(b[pos + 2 + dd.len() as int] == enc[2 + dd.len() as int]);
            lemma_digits_pair_free(dd);
            lemma_line_at(b, pos + 1, dd);
            assert(spec_dec_u64(b.subrange(pos + 1, i)) == Some(items.len() as u64));
            assert(b.subrange(p2, p2 + fb.len()) =~= fb) by {
                assert forall|k: int| 0 <= k < fb.len() implies b.subrange(p2, p2 + fb.len())[k]
                    == fb[k] by {
                    assert(b[p2 + k] == enc[p2 - pos + k]);
                    assert(enc[p2 - pos + k] == fb[k]);
                }
            }
            lemma_scan_elems_of_encoding(b, p2, items);
            assert((items.len() as u64) as nat == items.len());
            assert(p2 + fb.len() == pos + enc.len());
        },
    }
}

/// Reading bytes that hold the concatenated encodings of a run of
/// frames finds exactly those frames.
pub proof fn lemma_scan_elems_of_encoding(b: Seq<u8>, pos: int, items: Seq<FrameData>)
    requires
        forall|i: int| 0 <= i < items.len() ==> wire_ok(#[trigger] items[i]),
        0 <= pos,
        pos + frames_bytes(items).len() <= b.len(),
        b.subrange(pos, pos + frames_bytes(items).len()) == frames_bytes(items),
    ensures
        spec_scan_elems(b, pos, items.len()) == ElemsOutcome::Found(
            items,
            pos + frames_bytes(items).len(),
        ),
    decreases items,
{
    let fb = frames_bytes(items);
    if items.len() == 0 {
        assert(spec_scan_elems(b, pos, 0) == ElemsOutcome::Found(Seq::<FrameData>::empty(), pos));
        assert(Seq::<FrameData>::empty() =~= items);
    } else {
        let fb0 = frame_bytes(items[0]);
        let rest = frames_bytes(items.drop_first());
        assert(fb == fb0 + rest);
        assert forall|k: int| 0 <= k < fb.len() implies b[pos + k] == fb[k] by {
            assert(b.subrange(pos, pos + fb.len())[k] == b[pos + k]);
        }
        assert(b.subrange(pos, pos + fb0.len()) =~= fb0) by {
            assert forall|k: int| 0 <= k < fb0.len() implies b.subrange(pos, pos + fb0.len())[k]
                == fb0[k] by {
                assert(b[pos + k] == fb[k]);
            }
        }
        lemma_scan_of_encoding(b, pos, items[0]);
        lemma_frame_bytes_len(items[0]);
        let p = pos + fb0.len();
        assert(b.subrange(p, p + rest.len()) =~= rest) by {
            assert forall|k: int| 0 <= k < rest.len() implies b.subrange(p, p + rest.len())[k]
                == rest[k] by {
                assert(b[p + k] == fb[fb0.len() + k]);
            }
        }
        lemma_scan_elems_of_encoding(b, p, items.drop_first());
        assert(seq![items[0]] + items.drop_first() =~= items);
        assert((items.len() - 1) as nat == items.drop_first().len());
    }
}

/// Round trip: parsing the serialized bytes of a wire-representable
/// frame yields that frame back, consuming exactly its whole encoding.
pub proof fn lemma_round_trip(f: FrameData)
    requires
        wire_ok(f),
    ensures
        spec_scan(frame_bytes(f), 0) == ScanOutcome::Found(f, frame_bytes(f).len() as int),
{
    let enc = frame_bytes(f);
    assert(enc.subrange(0, enc.len() as int) =~= enc);
    lemma_scan_of_encoding(enc, 0, f);
}

} // verus!

verus! {

/// Shared argument for truncated line-delimited cases: when the bytes
/// from `pos` to the end of the buffer are a prefix of `body` followed
/// by at most the `\r` of the terminator, no terminator is found.
proof fn lemma_line_cut(b: Seq<u8>, pos: int, body: Seq<u8>)
    requires
        0 <= pos <= b.len(),
        b.len() - pos <= body.len() + 1,
        forall|k: int| #![trigger body[k]]
            0 <= k < body.len() && pos + k < b.len() ==> b[pos + k] == body[k],
        pos + body.len() < b.len() ==> b[pos + body.len()] == BYTE_CR,
        forall|j: int| #![trigger body[j]]
            0 <= j && j + 1 < body.len() ==> !(body[j] == BYTE_CR && body[j + 1] == BYTE_LF),
    ensures
        spec_find_crlf(b, pos) is None,
{
    assert forall|j: int| #![trigger b[j]] pos <= j && j + 1 < b.len() implies !(b[j] == BYTE_CR
        && b[j + 1] == BYTE_LF) by {
        if j + 1 - pos < body.len() {
            assert(b[j] == body[j - pos]);
            assert(b[j + 1] == body[j + 1 - pos]);
        } else {
            assert(j + 1 - pos == body.len());
            assert(b[j + 1] == BYTE_CR);
        }
    }
    lemma_find_crlf_none(b, pos);
}

/// Reading a strict prefix of one frame's encoding, cut off by the end
/// of the buffer, reports truncation, never success or malformation.
pub proof fn lemma_scan_of_prefix(b: Seq<u8>, pos: int, f: FrameData)
    requires
        wire_ok(f),
        0 <= pos <= b.len(),
        b.len() - pos < frame_bytes(f).len(),
        b.subrange(pos, b.len() as int) == frame_bytes(f).subrange(0, b.len() - pos),
    ensures
        spec_scan(b, pos) is Incomplete,
    decreases f,
{
    let enc = frame_bytes(f);
    let avail = b.len() - pos;
    assert forall|k: int| #![trigger enc[k]] 0 <= k < avail implies b[pos + k] == enc[k] by {
        assert(b.subrange(pos, b.len() as int)[k] == b[pos + k]);
        assert(enc.subrange(0, avail)[k] == enc[k]);
    }
    if avail == 0 {
    } else {
        match f {
            FrameData::Simple(s) => {
                let eu = encode_utf8(s);
                assert(b[pos] == enc[0] && enc[0] == TAG_SIMPLE);
                lemma_encode_pair_free(s);
                assert forall|k: int| #![trigger eu[k]]
                    0 <= k < eu.len() && pos + 1 + k < b.len() implies b[pos + 1 + k]
                    == eu[k] by {
                    assert(b[pos + 1 + k] == enc[1 + k]);
                }
                if pos + 1 + eu.len() < b.len() {
                    assert(b[pos + 1 + eu.len() as int] == enc[1 + eu.len() as int]);
                }
                lemma_line_cut(b, pos + 1, eu);
            },
            FrameData::Error(s) => {
                let eu = encode_utf8(s);
                assert(b[pos] == enc[0] && enc[0] == TAG_ERROR);
                lemma_encode_pair_free(s);
                assert forall|k: int| #![trigger eu[k]]
                    0 <= k < eu.len() && pos + 1 + k < b.len() implies b[pos + 1 + k]
                    == eu[k] by {
                    assert(b[pos + 1 + k] == enc[1 + k]);
                }
                if pos + 1 + eu.len() < b.len() {
                    assert(b[pos + 1 + eu.len() as int] == enc[1 + eu.len() as int]);
                }
                lemma_line_cut(b, pos + 1, eu);
            },
            FrameData::Integer(v) => {
                let dd = dec_digits(v as nat);
                lemma_dec_digits(v as nat);
                assert(b[pos] == enc[0] && enc[0] == TAG_INTEGER);
                lemma_digits_pair_free(dd);
                assert forall|k: int| #![trigger dd[k]]
                    0 <= k < dd.len() && pos + 1 + k < b.len() implies b[pos + 1 + k]
                    == dd[k] by {
                    assert(b[pos + 1 + k] == enc[1 + k]);
                }
                if pos + 1 + dd.len() < b.len() {
                    assert(b[pos + 1 + dd.len() as int] == enc[1 + dd.len() as int]);
                }
                lemma_line_cut(b, pos + 1, dd);
            },
            FrameData::Null => {
                assert(b[pos] == enc[0] && enc[0] == TAG_BULK);
                if avail >= 2 {
                    assert(b[pos + 1] == enc[1] && enc[1] == TAG_ERROR);
                    let nl = seq![TAG_ERROR, 49u8];
                    assert forall|k: int| #![trigger nl[k]]
                        0 <= k < 2 && pos + 1 + k < b.len() implies b[pos + 1 + k] == nl[k] by {
                        assert(b[pos + 1 + k] == enc[1 + k]);
                    }
                    if pos + 3 < b.len() {
                        assert(b[pos + 3] == enc[3]);
                    }
                    lemma_line_cut(b, pos + 1, nl);
                }
            },
            FrameData::Bulk(data) => {
                let dd = dec_digits(data.len());
                lemma_dec_digits(data.len());
                assert(b[pos] == enc[0] && enc[0] == TAG_BULK);
                lemma_digits_pair_free(dd);
                if avail >= 2 {
                    assert(b[pos + 1] == enc[1] && enc[1] == dd[0]);
                    assert(is_digit(dd[0]));
                    assert(b[pos + 1] != TAG_ERROR);
                    if avail < dd.len() + 3 {
                        assert forall|k: int| #![trigger dd[k]]
                            0 <= k < dd.len() && pos + 1 + k < b.len() implies b[pos + 1 + k]
                            == dd[k] by {
                            assert(b[pos + 1 + k] == enc[1 + k]);
                        }
                        if pos + 1 + dd.len() < b.len() {
                            assert(b[pos + 1 + dd.len() as int] == enc[1 + dd.len() as int]);
                        }
                        lemma_line_cut(b, pos + 1, dd);
                    } else {
                        assert forall|k: int| #![trigger dd[k]] 0 <= k < dd.len() implies b[pos
                            + 1 + k] == dd[k] by {
                            assert(b[pos + 1 + k] == enc[1 + k]);
                        }
                        assert(b[pos + 1 + dd.len() as int] == enc[1 + dd.len() as int]);
                        assert(b[pos + 2 + dd.len() as int] == enc[2 + dd.len() as int]);
                        lemma_line_at(b, pos + 1, dd);
                        let i = pos + 1 + dd.len();
                        assert(spec_dec_u64(b.subrange(pos + 1, i)) == Some(data.len() as u64));
                        assert(i + 2 + data.len() + 2 == pos + enc.len());
                    }
                }
            },
            FrameData::Array(items) => {
                let dd = dec_digits(items.len());
                lemma_dec_digits(items.len());
                assert(b[pos] == enc[0] && enc[0] == TAG_ARRAY);
                lemma_digits_pair_free(dd);
                let fb = frames_bytes(items);
                if avail < dd.len() + 3 {
                    assert forall|k: int| #![trigger dd[k]]
                        0 <= k < dd.len() && pos + 1 + k < b.len() implies b[pos + 1 + k]
                        == dd[k] by {
                        assert(b[pos + 1 + k] == enc[1 + k]);
                    }
                    if pos + 1 + dd.len() < b.len() {
                        assert(b[pos + 1 + dd.len() as int] == enc[1 + dd.len() as int]);
                    }
                    lemma_line_cut(b, pos + 1, dd);
                } else {
                    assert forall|k: int| #![trigger dd[k]] 0 <= k < dd.len() implies b[pos + 1
                        + k] == dd[k] by {
                        assert(b[pos + 1 + k] == enc[1 + k]);
                    }
                    assert(b[pos + 1 + dd.len() as int] == enc[1 + dd.len() as int]);
                    assert(b[pos + 2 + dd.len() as int] == enc[2 + dd.len() as int]);
                    lemma_line_at(b, pos + 1, dd);
                    let i = pos + 1 + dd.len();
                    let p2 = i + 2;
                    assert(spec_dec_u64(b.subrange(pos + 1, i)) == Some(items.len() as u64));
                    assert(b.subrange(p2, b.len() as int) =~= fb.subrange(0, b.len() - p2)) by {
                        assert forall|k: int| 0 <= k < b.len() - p2 implies b.subrange(
                            p2,
                            b.len() as int,
                        )[k] == fb.subrange(0, b.len() - p2)[k] by {
                            assert(b[p2 + k] == enc[p2 - pos + k]);
                            assert(enc[p2 - pos + k] == fb[p2 - pos + k - (3 + dd.len())]);
                        }
                    }
                    lemma_scan_elems_of_prefix(b, p2, items);
                    assert((items.len() as u64) as nat == items.len());
                }
            },
        }
    }
}

/// Reading a strict prefix of a run of frame encodings, cut off by the
/// end of the buffer, reports truncation.
pub proof fn lemma_scan_elems_of_prefix(b: Seq<u8>, pos: int, items: Seq<FrameData>)
    requires
        forall|i: int| 0 <= i < items.len() ==> wire_ok(#[trigger] items[i]),
        0 <= pos <= b.len(),
        b.len() - pos < frames_bytes(items).len(),
        b.subrange(pos, b.len() as int) == frames_bytes(items).subrange(0, b.len() - pos),
    ensures
        spec_scan_elems(b, pos, items.len()) is Incomplete,
    decreases items,
{
    let fb = frames_bytes(items);
    let avail = b.len() - pos;
    assert(items.len() > 0);
    let fb0 = frame_bytes(items[0]);
    let rest = frames_bytes(items.drop_first());
    assert(fb == fb0 + rest);
    assert forall|k: int| #![trigger fb[k]] 0 <= k < avail implies b[pos + k] == fb[k] by {
        assert(b.subrange(pos, b.len() as int)[k] == b[pos + k]);
        assert(fb.subrange(0, avail)[k] == fb[k]);
    }
    if avail < fb0.len() {
        assert(b.subrange(pos, b.len() as int) =~= fb0.subrange(0, avail)) by {
            assert forall|k: int| 0 <= k < avail implies b.subrange(pos, b.len() as int)[k]
                == fb0.subrange(0, avail)[k] by {
                assert(b[pos + k] == fb[k]);
            }
        }
        lemma_scan_of_prefix(b, pos, items[0]);
    } else {
        assert(b.subrange(pos, pos + fb0.len()) =~= fb0) by {
            assert forall|k: int| 0 <= k < fb0.len() implies b.subrange(pos, pos + fb0.len())[k]
                == fb0[k] by {
                assert(b[pos + k] == fb[k]);
            }
        }
        lemma_scan_of_encoding(b, pos, items[0]);
        lemma_frame_bytes_len(items[0]);
        let p = pos + fb0.len();
        assert(b.subrange(p, b.len() as int) =~= rest.subrange(0, b.len() - p)) by {
            assert forall|k: int| 0 <= k < b.len() - p implies b.subrange(p, b.len() as int)[k]
                == rest.subrange(0, b.len() - p)[k] by {
                assert(b[p + k] == fb[fb0.len() + k]);
            }
        }
        lemma_scan_elems_of_prefix(b, p, items.drop_first());
        assert((items.len() - 1) as nat == items.drop_first().len());
    }
}

/// Feeding the encoding of a frame one byte at a time: every strict
/// prefix scans as incomplete, and the full encoding yields the frame.
pub proof fn lemma_prefix_incomplete(f: FrameData, k: int)
    requires
        wire_ok(f),
        0 <= k < frame_bytes(f).len(),
    ensures
        spec_scan(frame_bytes(f).subrange(0, k), 0) is Incomplete,
{
    let p = frame_bytes(f).subrange(0, k);
    assert(p.subrange(0, k) =~= p);
    assert(frame_bytes(f).subrange(0, k) =~= p.subrange(0, p.len() as int));
    lemma_scan_of_prefix(p, 0, f);
}

} // verus!

verus! {

/// Decodes bulk bytes as UTF-8 text, exactly when they are valid UTF-8.
pub fn bulk_to_string(b: &[u8]) -> (r: Option<String>)
    ensures
        valid_utf8(b@) ==> (r matches Some(s) && s@ == decode_utf8(b@)),
        !valid_utf8(b@) ==> r is None,
{
    match utf8_to_str(b) {
        Some(s) => Some(s.to_owned()),
        None => None,
    }
}

/// A signed 64-bit decimal: an optional minus sign, then digits, value
/// in range; anything else is rejected.
pub open spec fn spec_dec_i64(b: Seq<u8>) -> Option<i64> {
    if b.len() > 0 && b[0] == 45 {
        let mag = b.drop_first();
        if mag.len() > 0 && all_digits(mag) && digits_val(mag) <= 0x8000_0000_0000_0000 {
            Some((-(digits_val(mag) as int)) as i64)
        } else {
            None
        }
    } else {
        if b.len() > 0 && all_digits(b) && digits_val(b) <= i64::MAX as nat {
            Some(digits_val(b) as i64)
        } else {
            None
        }
    }
}

/// Parses a signed 64-bit decimal integer, `spec_dec_i64` exactly.
#[verifier::loop_isolation(false)]
pub fn parse_i64(b: &[u8]) -> (r: Option<i64>)
    ensures
        r == spec_dec_i64(b@),
{
    let n = b.len();
    if n == 0 {
        return None;
    }
    let neg = b[0] == 45;
    let start: usize = if neg {
        1
    } else {
        0
    };
    if n == start {
        return None;
    }
    let ghost mag = b@.subrange(start as int, n as int);
    proof {
        if neg {
            assert(mag =~= b@.drop_first());
        } else {
            assert(mag =~= b@);
        }
    }
    let limit: u128 = if neg {
        0x8000_0000_0000_0000
    } else {
        i64::MAX as u128
    };
    let mut val: u128 = 0;
    for j in start..n
        invariant
            all_digits(mag.subrange(0, j - start)),
            val == digits_val(mag.subrange(0, j - start)),
            val <= limit,
        decreases n - j,
    {
        let c = b[j];
        proof {
            assert(mag[j - start] == b@[j as int]);
            lemma_digits_val_step(mag, j - start);
        }
        if c < 48 || c > 57 {
            proof {
                assert(!is_digit(mag[j - start]));
                assert(!all_digits(mag));
            }
            return None;
        }
        let wide: u128 = val * 10 + ((c - 48) as u128);
        if wide > limit {
            proof {
                assert(digits_val(mag.subrange(0, j - start + 1)) == digits_val(
                    mag.subrange(0, j - start),
                ) * 10 + (c - 48));
                lemma_digits_val_prefix(mag, j - start + 1);
                assert(digits_val(mag) > limit);
            }
            return None;
        }
        val = wide;
        proof {
            assert(all_digits(mag.subrange(0, j - start + 1)));
        }
    }
    proof {
        assert(mag.subrange(0, n - start) =~= mag);
    }
    if neg {
        if val == 0x8000_0000_0000_0000 {
            proof {
                assert((-(0x8000_0000_0000_0000)) as i64 == i64::MIN);
            }
            Some(i64::MIN)
        } else {
            proof {
                assert(val < 0x8000_0000_0000_0000);
                assert((-(val as int)) as i64 == -(val as i64));
            }
            Some(-(val as i64))
        }
    } else {
        Some(val as i64)
    }
}

} // verus!
