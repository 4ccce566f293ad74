//! The frame codec: the wire grammar, a mathematical model of parsing and
//! encoding, and verified incremental `check` / `parse` / `encode` operations
//! over a cursor.
//!
//! Grammar, with `\r\n` as the line terminator:
//! - `+` line            -> Simple(line)
//! - `-` line            -> Error(line)
//! - `:` decimal line    -> Integer(value)
//! - `$-1\r\n`           -> Null
//! - `$` len, payload    -> Bulk(payload)
//! - `*` count, frames   -> Array(frames)
//! - any other byte      -> protocol error

use vstd::prelude::*;

verus! {

use vstd::utf8::{valid_utf8, decode_utf8, encode_utf8};

/// Carriage return, the first byte of a line terminator.
pub const CR: u8 = 13;

/// Line feed, the second byte of a line terminator.
pub const LF: u8 = 10;

/// One decoded protocol unit. `Bulk` payloads are owned copies, never views
/// into a connection buffer, so a frame outlives the buffer it came from.
#[derive(Debug, PartialEq)]
pub enum Frame {
    Simple(String),
    Error(String),
    Integer(u64),
    Bulk(Vec<u8>),
    Null,
    Array(Vec<Frame>),
}

/// The mathematical model of a frame: text as character sequences, payloads
/// as byte sequences, arrays as sequences of models.
#[verifier::ext_equal]
pub ghost enum FrameV {
    Simple(Seq<char>),
    Error(Seq<char>),
    Integer(u64),
    Bulk(Seq<u8>),
    Null,
    Array(Seq<FrameV>),
}

/// The reason a sequence of bytes can never begin a frame.
#[derive(Clone, Copy, Debug, PartialEq, Eq, Structural)]
pub enum ProtocolError {
    /// The first byte is none of `+ - : $ *`; the offending byte is kept.
    InvalidTypeByte(u8),
    /// A decimal line, a null sentinel, or line text is malformed.
    InvalidFormat,
}

/// The outcome of inspecting buffered bytes that do not yet form a frame.
#[derive(Clone, Copy, Debug, PartialEq, Eq, Structural)]
pub enum Error {
    /// Not enough bytes are buffered; more may still arrive.
    Incomplete,
    /// The bytes are malformed; no further input can repair them.
    Other(ProtocolError),
}

/// The model of one attempted parse: a frame plus the position just past its
/// bytes, or the reason none was produced.
#[verifier::ext_equal]
pub ghost enum SpecParse {
    Parsed(FrameV, int),
    Incomplete,
    Bad(ProtocolError),
}

/// The model of parsing a run of consecutive frames.
#[verifier::ext_equal]
pub ghost enum SpecParseSeq {
    Parsed(Seq<FrameV>, int),
    Incomplete,
    Bad(ProtocolError),
}

/// The model of each frame in a vector of frames.
pub open spec fn frames_view(s: Seq<Frame>) -> Seq<FrameV>
    decreases s,
{
    if s.len() == 0 {
        Seq::empty()
    } else {
        seq![frame_view(s[0])] + frames_view(s.subrange(1, s.len() as int))
    }
}

/// The model of a frame value.
pub open spec fn frame_view(f: Frame) -> FrameV
    decreases f,
{
    match f {
        Frame::Simple(t) => FrameV::Simple(t@),
        Frame::Error(t) => FrameV::Error(t@),
        Frame::Integer(n) => FrameV::Integer(n),
        Frame::Bulk(d) => FrameV::Bulk(d@),
        Frame::Null => FrameV::Null,
        Frame::Array(v) => FrameV::Array(frames_view(v@)),
    }
}

impl View for Frame {
    type V = FrameV;

    open spec fn view(&self) -> FrameV {
        frame_view(*self)
    }
}

/// The position of the first `\r\n` pair at or after `pos`, if one is
/// entirely inside the buffer.
pub open spec fn find_crlf(b: Seq<u8>, pos: int) -> Option<int>
    decreases b.len() - pos,
{
    if pos < 0 || pos + 2 > b.len() {
        None
    } else if b[pos] == CR && b[pos + 1] == LF {
        Some(pos)
    } else {
        find_crlf(b, pos + 1)
    }
}

/// An ASCII decimal digit.
pub open spec fn is_digit(c: u8) -> bool {
    48 <= c <= 57
}

/// Every byte of the sequence is an ASCII decimal digit.
pub open spec fn all_digits(s: Seq<u8>) -> bool {
    forall|j: int| 0 <= j < s.len() ==> is_digit(#[trigger] s[j])
}

/// The value of a sequence of ASCII decimal digits.
pub open spec fn dec_val(s: Seq<u8>) -> nat
    recommends
        all_digits(s),
    decreases s.len(),
{
    if s.len() == 0 {
        0
    } else {
        (dec_val(s.subrange(0, s.len() - 1)) * 10 + (s[s.len() - 1] - 48)) as nat
    }
}

/// The strict reading of a decimal line: it must be non-empty, all digits
/// (no sign, no trailing text), and fit in a `u64`.
pub open spec fn spec_decimal(s: Seq<u8>) -> Option<u64> {
    if s.len() == 0 || !all_digits(s) || dec_val(s) > u64::MAX {
        None
    } else {
        Some(dec_val(s) as u64)
    }
}

/// The model of parsing one frame from `b` starting at `pos`: what a frame
/// found there is, where it ends, and otherwise whether the bytes so far are
/// merely short or already malformed.
pub open spec fn spec_parse(b: Seq<u8>, pos: int) -> SpecParse
    decreases b.len() - pos, 0int, 0int,
{
    if pos < 0 || pos >= b.len() {
        SpecParse::Incomplete
    } else {
        let t = b[pos];
        let p = pos + 1;
        if t == 43 || t == 45 {
            // '+' simple string, '-' error string
            match find_crlf(b, p) {
                None => SpecParse::Incomplete,
                Some(i) => {
                    let line = b.subrange(p, i);
                    if valid_utf8(line) {
                        if t == 43 {
                            SpecParse::Parsed(FrameV::Simple(decode_utf8(line)), i + 2)
                        } else {
                            SpecParse::Parsed(FrameV::Error(decode_utf8(line)), i + 2)
                        }
                    } else {
                        SpecParse::Bad(ProtocolError::InvalidFormat)
                    }
                },
            }
        } else if t == 58 {
            // ':' integer
            match find_crlf(b, p) {
                None => SpecParse::Incomplete,
                Some(i) => match spec_decimal(b.subrange(p, i)) {
                    None => SpecParse::Bad(ProtocolError::InvalidFormat),
                    Some(n) => SpecParse::Parsed(FrameV::Integer(n), i + 2),
                },
            }
        } else if t == 36 {
            // '$' bulk string or the null sentinel
            if p < b.len() && b[p] == 45 {
                match find_crlf(b, p) {
                    None => SpecParse::Incomplete,
                    Some(i) => {
                        if b.subrange(p, i) == seq![45u8, 49u8] {
                            SpecParse::Parsed(FrameV::Null, i + 2)
                        } else {
                            SpecParse::Bad(ProtocolError::InvalidFormat)
                        }
                    },
                }
            } else {
                match find_crlf(b, p) {
                    None => SpecParse::Incomplete,
                    Some(i) => match spec_decimal(b.subrange(p, i)) {
                        None => SpecParse::Bad(ProtocolError::InvalidFormat),
                        Some(n) => {
                            let start = i + 2;
                            if start + n + 2 > b.len() {
                                SpecParse::Incomplete
                            } else {
                                SpecParse::Parsed(
                                    FrameV::Bulk(b.subrange(start, start + n)),
                                    start + n + 2,
                                )
                            }
                        },
                    },
                }
            }
        } else if t == 42 {
            // '*' array
            match find_crlf(b, p) {
                None => SpecParse::Incomplete,
                Some(i) => match spec_decimal(b.subrange(p, i)) {
                    None => SpecParse::Bad(ProtocolError::InvalidFormat),
                    Some(n) => {
                        let q = i + 2;
                        if !(pos < q <= b.len()) {
                            // never reached: a found terminator lies past
                            // `pos` and inside the buffer
                            SpecParse::Incomplete
                        } else {
                            match spec_parse_elems(b, q, n as int) {
                                SpecParseSeq::Parsed(fs, p2) => SpecParse::Parsed(
                                    FrameV::Array(fs),
                                    p2,
                                ),
                                SpecParseSeq::Incomplete => SpecParse::Incomplete,
                                SpecParseSeq::Bad(e) => SpecParse::Bad(e),
                            }
                        }
                    },
                },
            }
        } else {
            SpecParse::Bad(ProtocolError::InvalidTypeByte(t))
        }
    }
}

/// The model of parsing `count` consecutive frames from `b` starting at
/// `pos`. Any element still incomplete makes the whole run incomplete: a
/// partial array is never produced.
pub open spec fn spec_parse_elems(b: Seq<u8>, pos: int, count: int) -> SpecParseSeq
    decreases b.len() - pos, 1int, count,
{
    if count <= 0 {
        SpecParseSeq::Parsed(Seq::empty(), pos)
    } else {
        match spec_parse(b, pos) {
            SpecParse::Parsed(f, p2) => {
                if !(pos < p2 <= b.len()) {
                    // never reached: a parsed frame consumes at least one
                    // byte and ends inside the buffer
                    SpecParseSeq::Incomplete
                } else {
                    match spec_parse_elems(b, p2, count - 1) {
                        SpecParseSeq::Parsed(fs, p3) => SpecParseSeq::Parsed(
                            seq![f] + fs,
                            p3,
                        ),
                        SpecParseSeq::Incomplete => SpecParseSeq::Incomplete,
                        SpecParseSeq::Bad(e) => SpecParseSeq::Bad(e),
                    }
                }
            },
            SpecParse::Incomplete => SpecParseSeq::Incomplete,
            SpecParse::Bad(e) => SpecParseSeq::Bad(e),
        }
    }
}

/// The shortest decimal digit string for `n` (no leading zeros, most
/// significant digit first).
pub open spec fn dec_rep(n: nat) -> Seq<u8>
    decreases n,
{
    if n < 10 {
        seq![(48 + n) as u8]
    } else {
        dec_rep(n / 10).push((48 + n % 10) as u8)
    }
}

/// No `\r\n` pair occurs anywhere in the sequence, so a line scan of the
/// sequence followed by a terminator stops exactly at the terminator.
pub open spec fn no_crlf(s: Seq<u8>) -> bool {
    forall|j: int| 0 <= j < s.len() - 1 ==> !(#[trigger] s[j] == CR && s[j + 1] == LF)
}

/// A frame that the wire format can represent faithfully: line text carries
/// no terminator pair, and lengths fit the length prefix.
pub open spec fn wf_frame(f: FrameV) -> bool
    decreases f,
{
    match f {
        FrameV::Simple(t) => no_crlf(encode_utf8(t)),
        FrameV::Error(t) => no_crlf(encode_utf8(t)),
        FrameV::Integer(_) => true,
        FrameV::Bulk(d) => d.len() + 2 <= u64::MAX,
        FrameV::Null => true,
        FrameV::Array(fs) => fs.len() <= u64::MAX && (forall|i: int|
            0 <= i < fs.len() ==> wf_frame(#[trigger] fs[i])),
    }
}

/// The wire bytes of a frame: the inverse of the grammar, with lengths
/// re-derived from the contained data.
pub open spec fn spec_encode(f: FrameV) -> Seq<u8>
    decreases f,
{
    match f {
        FrameV::Simple(t) => seq![43u8] + encode_utf8(t) + seq![CR, LF],
        FrameV::Error(t) => seq![45u8] + encode_utf8(t) + seq![CR, LF],
        FrameV::Integer(n) => seq![58u8] + dec_rep(n as nat) + seq![CR, LF],
        FrameV::Bulk(d) => seq![36u8] + dec_rep(d.len()) + seq![CR, LF] + d + seq![CR, LF],
        FrameV::Null => seq![36u8, 45u8, 49u8, CR, LF],
        FrameV::Array(fs) => seq![42u8] + dec_rep(fs.len()) + seq![CR, LF] + spec_encode_seq(fs),
    }
}

/// The wire bytes of consecutive frames.
pub open spec fn spec_encode_seq(fs: Seq<FrameV>) -> Seq<u8>
    decreases fs,
{
    if fs.len() == 0 {
        Seq::empty()
    } else {
        spec_encode(fs[0]) + spec_encode_seq(fs.subrange(1, fs.len() as int))
    }
}

/// A read position over an immutable view of the buffered bytes. Scanning
/// never copies; only an accepted payload is copied out, by `parse`.
pub struct Cursor<'a> {
    data: &'a [u8],
    pos: usize,
}

impl<'a> Cursor<'a> {
    /// The backing bytes; the cursor never changes them.
    pub closed spec fn bytes(&self) -> Seq<u8> {
        self.data@
    }

    /// The current read position.
    pub closed spec fn posn(&self) -> int {
        self.pos as int
    }

    /// The position never runs past the end of the backing bytes.
    pub open spec fn wf(&self) -> bool {
        0 <= self.posn() <= self.bytes().len()
    }

    /// A cursor at the start of `data`.
    pub fn new(data: &'a [u8]) -> (c: Cursor<'a>)
        ensures
            c.wf(),
            c.bytes() == data@,
            c.posn() == 0,
    {
        Cursor { data, pos: 0 }
    }

    /// How many bytes have been consumed so far.
    pub fn consumed(&self) -> (n: usize)
        requires
            self.wf(),
        ensures
            n == self.posn(),
    {
        self.pos
    }
}

/// Read the byte at the cursor and advance past it.
pub fn get_u8<'a>(src: &mut Cursor<'a>) -> (r: Result<u8, Error>)
    requires
        old(src).wf(),
    ensures
        final(src).wf(),
        final(src).bytes() == old(src).bytes(),
        match r {
            Ok(c) => old(src).posn() < old(src).bytes().len() && c == old(src).bytes()[old(src).posn()] && final(src).posn() == old(src).posn() + 1,
            Err(e) => e == Error::Incomplete && old(src).posn() >= old(src).bytes().len() && final(src).posn() == old(src).posn(),
        },
{
    if src.pos < src.data.len() {
        let c = *vstd::slice::slice_index_get(src.data, src.pos);
        src.pos = src.pos + 1;
        Ok(c)
    } else {
        Err(Error::Incomplete)
    }
}

/// Read the byte at the cursor without advancing.
pub fn peek_u8<'a>(src: &mut Cursor<'a>) -> (r: Result<u8, Error>)
    requires
        old(src).wf(),
    ensures
        *final(src) == *old(src),
        match r {
            Ok(c) => old(src).posn() < old(src).bytes().len() && c == old(src).bytes()[old(src).posn()],
            Err(e) => e == Error::Incomplete && old(src).posn() >= old(src).bytes().len(),
        },
{
    if src.pos < src.data.len() {
        Ok(*vstd::slice::slice_index_get(src.data, src.pos))
    } else {
        Err(Error::Incomplete)
    }
}

/// Advance the cursor past `n` bytes, or report that fewer are buffered.
pub fn skip<'a>(src: &mut Cursor<'a>, n: usize) -> (r: Result<(), Error>)
    requires
        old(src).wf(),
    ensures
        final(src).wf(),
        final(src).bytes() == old(src).bytes(),
        match r {
            Ok(_) => old(src).posn() + n <= old(src).bytes().len() && final(src).posn() == old(src).posn() + n,
            Err(e) => e == Error::Incomplete && old(src).posn() + n > old(src).bytes().len()
                && final(src).posn() == old(src).posn(),
        },
{
    if n <= src.data.len() - src.pos {
        src.pos = src.pos + n;
        Ok(())
    } else {
        Err(Error::Incomplete)
    }
}

/// Scan forward for the first `\r\n`; on success return the line before it
/// and leave the cursor just past the terminator. Absence of a terminator is
/// `Incomplete`, never an error: more bytes may still arrive.
#[verifier::loop_isolation(false)]
pub fn get_line<'a>(src: &mut Cursor<'a>) -> (r: Result<&'a [u8], Error>)
    requires
        old(src).wf(),
    ensures
        final(src).wf(),
        final(src).bytes() == old(src).bytes(),
        match r {
            Ok(line) => match find_crlf(old(src).bytes(), old(src).posn()) {
                Some(i) => line@ == old(src).bytes().subrange(old(src).posn(), i) && final(src).posn() == i + 2,
                None => false,
            },
            Err(e) => e == Error::Incomplete && find_crlf(old(src).bytes(), old(src).posn())
                is None && final(src).posn() == old(src).posn(),
        },
{
    let ghost b = src.bytes();
    let start = src.pos;
    let len = src.data.len();
    let mut i = start;
    while i < len && i + 1 < len
        invariant
            src.wf(),
            src.bytes() == b,
            src.posn() == start as int,
            start <= i <= len,
            i <= b.len(),
            find_crlf(b, start as int) == find_crlf(b, i as int),
        decreases len - i,
    {
        let c1 = *vstd::slice::slice_index_get(src.data, i);
        let c2 = *vstd::slice::slice_index_get(src.data, i + 1);
        if c1 == CR && c2 == LF {
            src.pos = i + 2;
            return Ok(vstd::slice::slice_subrange(src.data, start, i));
        }
        i = i + 1;
    }
    Err(Error::Incomplete)
}

/// Relies on `atoi::atoi::<u64>`: on a non-empty line of ASCII digits it
/// returns the value the digits denote, or `None` when that value exceeds
/// `u64::MAX`.
#[verifier::external_body]
fn atoi_u64(line: &[u8]) -> (r: Option<u64>)
    requires
        line@.len() > 0,
        all_digits(line@),
    ensures
        r == (if dec_val(line@) > u64::MAX {
            Option::<u64>::None
        } else {
            Some(dec_val(line@) as u64)
        }),
{
    atoi::atoi::<u64>(line)
}

/// Relies on `str::from_utf8` of std: it accepts exactly the valid UTF-8
/// byte sequences.
#[verifier::external_body]
fn utf8_ok(line: &[u8]) -> (r: bool)
    ensures
        r == valid_utf8(line@),
{
    std::str::from_utf8(line).is_ok()
}

/// Relies on `String::from_utf8` of std: it succeeds exactly on valid UTF-8
/// input, and the string it returns holds the characters those bytes encode.
#[verifier::external_body]
fn string_from_utf8(v: Vec<u8>) -> (r: Option<String>)
    ensures
        match r {
            Some(s) => valid_utf8(v@) && s@ == decode_utf8(v@),
            None => !valid_utf8(v@),
        },
{
    String::from_utf8(v).ok()
}

/// Read a line and insist it is a strict decimal: non-empty, every byte a
/// digit, no sign, and the value within `u64`. Anything else on the line is
/// a protocol error, not an incomplete read.
#[verifier::loop_isolation(false)]
pub fn get_decimal<'a>(src: &mut Cursor<'a>) -> (r: Result<u64, Error>)
    requires
        old(src).wf(),
    ensures
        final(src).wf(),
        final(src).bytes() == old(src).bytes(),
        match find_crlf(old(src).bytes(), old(src).posn()) {
            Some(i) => {
                let line = old(src).bytes().subrange(old(src).posn(), i);
                match spec_decimal(line) {
                    Some(n) => r matches Ok(m) && m == n && final(src).posn() == i + 2,
                    None => r matches Err(e) && e == Error::Other(ProtocolError::InvalidFormat),
                }
            },
            None => r matches Err(e) && e == Error::Incomplete && final(src).posn() == old(src).posn(),
        },
{
    let line = match get_line(src) {
        Ok(l) => l,
        Err(e) => { return Err(e) },
    };
    if line.len() == 0 {
        return Err(Error::Other(ProtocolError::InvalidFormat));
    }
    let mut j: usize = 0;
    while j < line.len()
        invariant
            j <= line@.len(),
            forall|k: int| 0 <= k < j ==> is_digit(#[trigger] line@[k]),
        decreases line@.len() - j,
    {
        let c = *vstd::slice::slice_index_get(line, j);
        if !(48 <= c && c <= 57) {
            return Err(Error::Other(ProtocolError::InvalidFormat));
        }
        j = j + 1;
    }
    match atoi_u64(line) {
        Some(v) => Ok(v),
        None => Err(Error::Other(ProtocolError::InvalidFormat)),
    }
}

/// A found terminator lies at or after the scan start and fits inside the
/// buffer, with the terminator bytes at its position.
pub proof fn lemma_find_crlf_bounds(b: Seq<u8>, pos: int)
    requires
        0 <= pos,
    ensures
        match find_crlf(b, pos) {
            Some(i) => pos <= i && i + 2 <= b.len() && b[i] == CR && b[i + 1] == LF,
            None => true,
        },
    decreases b.len() - pos,
{
    if pos + 2 > b.len() {
    } else if b[pos] == CR && b[pos + 1] == LF {
    } else {
        lemma_find_crlf_bounds(b, pos + 1);
    }
}

/// Frames already parsed, put in front of the outcome of parsing the rest.
pub open spec fn prepend_elems(pre: Seq<FrameV>, r: SpecParseSeq) -> SpecParseSeq {
    match r {
        SpecParseSeq::Parsed(fs, p) => SpecParseSeq::Parsed(pre + fs, p),
        SpecParseSeq::Incomplete => SpecParseSeq::Incomplete,
        SpecParseSeq::Bad(e) => SpecParseSeq::Bad(e),
    }
}

/// Appending one frame to a vector appends its model to the vector's model.
pub proof fn lemma_frames_view_push(s: Seq<Frame>, f: Frame)
    ensures
        frames_view(s.push(f)) == frames_view(s) + seq![frame_view(f)],
    decreases s.len(),
{
    reveal_with_fuel(frames_view, 3);
    if s.len() == 0 {
        assert(s.push(f)[0] == f);
        assert(s.push(f).subrange(1, 1) =~= Seq::<Frame>::empty());
        assert(frames_view(s) + seq![frame_view(f)] =~= seq![frame_view(f)]);
        assert(seq![frame_view(f)] + Seq::<FrameV>::empty() =~= seq![frame_view(f)]);
        assert(frames_view(s.push(f)) =~= frames_view(s) + seq![frame_view(f)]);
    } else {
        assert(s.push(f)[0] == s[0]);
        assert(s.push(f).subrange(1, s.len() as int + 1) =~= s.subrange(1, s.len() as int).push(f));
        lemma_frames_view_push(s.subrange(1, s.len() as int), f);
        assert(seq![frame_view(s[0])] + (frames_view(s.subrange(1, s.len() as int))
            + seq![frame_view(f)]) =~= (seq![frame_view(s[0])] + frames_view(
            s.subrange(1, s.len() as int),
        )) + seq![frame_view(f)]);
        assert(frames_view(s.push(f)) =~= frames_view(s) + seq![frame_view(f)]);
    }
}

/// A vector of frames and its model have the same length.
pub proof fn lemma_frames_view_len(s: Seq<Frame>)
    ensures
        frames_view(s).len() == s.len(),
    decreases s.len(),
{
    if s.len() > 0 {
        lemma_frames_view_len(s.subrange(1, s.len() as int));
    }
}

impl Frame {
    /// Scan one complete frame starting at the cursor without building it,
    /// advancing past exactly its bytes, so a caller can learn whether a
    /// whole well-formed frame is buffered before paying for an allocating
    /// parse. Too few bytes is `Incomplete`; malformed bytes are an error.
    #[verifier::loop_isolation(false)]
    pub fn check<'a>(src: &mut Cursor<'a>) -> (r: Result<(), Error>)
        requires
            old(src).wf(),
        ensures
            final(src).wf(),
            final(src).bytes() == old(src).bytes(),
            r is Ok ==> final(src).posn() > old(src).posn(),
            match spec_parse(old(src).bytes(), old(src).posn()) {
                SpecParse::Parsed(f, p) => r is Ok && final(src).posn() == p,
                SpecParse::Incomplete => r matches Err(e) && e == Error::Incomplete,
                SpecParse::Bad(e) => r matches Err(e2) && e2 == Error::Other(e),
            },
        decreases old(src).bytes().len() - old(src).posn(),
    {
        let ghost b = src.bytes();
        let ghost pos0 = src.posn();
        let t = match get_u8(src) {
            Ok(c) => c,
            Err(e) => { return Err(e) },
        };
        proof {
            lemma_find_crlf_bounds(b, pos0 + 1);
        }
        if t == 43 || t == 45 {
            match get_line(src) {
                Ok(line) => {
                    if utf8_ok(line) {
                        Ok(())
                    } else {
                        Err(Error::Other(ProtocolError::InvalidFormat))
                    }
                },
                Err(e) => Err(e),
            }
        } else if t == 58 {
            match get_decimal(src) {
                Ok(_) => Ok(()),
                Err(e) => Err(e),
            }
        } else if t == 36 {
            let c = match peek_u8(src) {
                Ok(c) => c,
                Err(e) => { return Err(e) },
            };
            if c == 45 {
                match get_line(src) {
                    Ok(line) => {
                        if line.len() == 2 && *vstd::slice::slice_index_get(line, 0) == 45
                            && *vstd::slice::slice_index_get(line, 1) == 49 {
                            proof {
                                assert(line@ =~= seq![45u8, 49u8]);
                            }
                            Ok(())
                        } else {
                            proof {
                                if line@ == seq![45u8, 49u8] {
                                    assert(line@.len() == 2);
                                    assert(line@[0] == 45 && line@[1] == 49);
                                }
                            }
                            Err(Error::Other(ProtocolError::InvalidFormat))
                        }
                    },
                    Err(e) => Err(e),
                }
            } else {
                match get_decimal(src) {
                    Ok(n) => {
                        let rem = src.data.len() - src.pos;
                        if n > u64::MAX - 2 || (rem as u64) < n + 2 {
                            Err(Error::Incomplete)
                        } else {
                            src.pos = src.pos + (n as usize) + 2;
                            Ok(())
                        }
                    },
                    Err(e) => Err(e),
                }
            }
        } else if t == 42 {
            match get_decimal(src) {
                Ok(n) => {
                    proof {
                        lemma_find_crlf_bounds(b, pos0 + 1);
                    }
                    let ghost q = src.posn();
                    let ghost target = spec_parse_elems(b, q, n as int);
                    let ghost mut done: Seq<FrameV> = Seq::empty();
                    let mut k: u64 = 0;
                    proof {
                        assert(done + spec_parse_elems(b, q, n as int)->Parsed_0
                            =~= spec_parse_elems(b, q, n as int)->Parsed_0);
                    }
                    while k < n
                        invariant
                            src.wf(),
                            src.bytes() == b,
                            k <= n,
                            pos0 < q <= src.posn(),
                            prepend_elems(
                                done,
                                spec_parse_elems(b, src.posn(), n as int - k as int),
                            ) == target,
                        decreases n - k,
                    {
                        let ghost cur = src.posn();
                        match Frame::check(src) {
                            Ok(_) => {
                                proof {
                                    match spec_parse(b, cur) {
                                        SpecParse::Parsed(f, p2) => {
                                            match spec_parse_elems(b, p2, n as int - k as int - 1) {
                                                SpecParseSeq::Parsed(fs, p3) => {
                                                    assert(done + (seq![f] + fs) =~= (done
                                                        + seq![f]) + fs);
                                                },
                                                _ => {},
                                            }
                                            done = done + seq![f];
                                        },
                                        _ => {
                                            assert(false);
                                        },
                                    }
                                }
                                k = k + 1;
                            },
                            Err(e) => { return Err(e) },
                        }
                    }
                    proof {
                        assert(done + Seq::<FrameV>::empty() =~= done);
                    }
                    Ok(())
                },
                Err(e) => Err(e),
            }
        } else {
            Err(Error::Other(ProtocolError::InvalidTypeByte(t)))
        }
    }

    /// Decode one complete frame starting at the cursor, advancing past
    /// exactly its bytes. Payloads are copied out of the buffer, so the
    /// frame owns its data. A caller should `check` first: too few bytes is
    /// `Incomplete` and leaves nothing decoded.
    #[verifier::loop_isolation(false)]
    pub fn parse<'a>(src: &mut Cursor<'a>) -> (r: Result<Frame, Error>)
        requires
            old(src).wf(),
        ensures
            final(src).wf(),
            final(src).bytes() == old(src).bytes(),
            r is Ok ==> final(src).posn() > old(src).posn(),
            match spec_parse(old(src).bytes(), old(src).posn()) {
                SpecParse::Parsed(f, p) => (r matches Ok(fr) && fr@ == f) && final(src).posn()
                    == p,
                SpecParse::Incomplete => r matches Err(e) && e == Error::Incomplete,
                SpecParse::Bad(e) => r matches Err(e2) && e2 == Error::Other(e),
            },
        decreases old(src).bytes().len() - old(src).posn(),
    {
        let ghost b = src.bytes();
        let ghost pos0 = src.posn();
        let t = match get_u8(src) {
            Ok(c) => c,
            Err(e) => { return Err(e) },
        };
        proof {
            lemma_find_crlf_bounds(b, pos0 + 1);
        }
        if t == 43 || t == 45 {
            match get_line(src) {
                Ok(line) => {
                    let text = vstd::slice::slice_to_vec(line);
                    match string_from_utf8(text) {
                        Some(s) => {
                            if t == 43 {
                                Ok(Frame::Simple(s))
                            } else {
                                Ok(Frame::Error(s))
                            }
                        },
                        None => Err(Error::Other(ProtocolError::InvalidFormat)),
                    }
                },
                Err(e) => Err(e),
            }
        } else if t == 58 {
            match get_decimal(src) {
                Ok(n) => Ok(Frame::Integer(n)),
                Err(e) => Err(e),
            }
        } else if t == 36 {
            let c = match peek_u8(src) {
                Ok(c) => c,
                Err(e) => { return Err(e) },
            };
            if c == 45 {
                match get_line(src) {
                    Ok(line) => {
                        if line.len() == 2 && *vstd::slice::slice_index_get(line, 0) == 45
                            && *vstd::slice::slice_index_get(line, 1) == 49 {
                            proof {
                                assert(line@ =~= seq![45u8, 49u8]);
                            }
                            Ok(Frame::Null)
                        } else {
                            proof {
                                if line@ == seq![45u8, 49u8] {
                                    assert(line@.len() == 2);
                                    assert(line@[0] == 45 && line@[1] == 49);
                                }
                            }
                            Err(Error::Other(ProtocolError::InvalidFormat))
                        }
                    },
                    Err(e) => Err(e),
                }
            } else {
                match get_decimal(src) {
                    Ok(n) => {
                        let rem = src.data.len() - src.pos;
                        if n > u64::MAX - 2 || (rem as u64) < n + 2 {
                            Err(Error::Incomplete)
                        } else {
                            let start = src.pos;
                            let data = vstd::slice::slice_to_vec(
                                vstd::slice::slice_subrange(src.data, start, start + (n as usize)),
                            );
                            src.pos = start + (n as usize) + 2;
                            Ok(Frame::Bulk(data))
                        }
                    },
                    Err(e) => Err(e),
                }
            }
        } else if t == 42 {
            match get_decimal(src) {
                Ok(n) => {
                    proof {
                        lemma_find_crlf_bounds(b, pos0 + 1);
                    }
                    let ghost q = src.posn();
                    let ghost target = spec_parse_elems(b, q, n as int);
                    let ghost mut done: Seq<FrameV> = Seq::empty();
                    let mut out: Vec<Frame> = Vec::new();
                    let mut k: u64 = 0;
                    proof {
                        assert(done + spec_parse_elems(b, q, n as int)->Parsed_0
                            =~= spec_parse_elems(b, q, n as int)->Parsed_0);
                        assert(frames_view(out@) =~= done);
                    }
                    while k < n
                        invariant
                            src.wf(),
                            src.bytes() == b,
                            k <= n,
                            pos0 < q <= src.posn(),
                            frames_view(out@) == done,
                            prepend_elems(
                                done,
                                spec_parse_elems(b, src.posn(), n as int - k as int),
                            ) == target,
                        decreases n - k,
                    {
                        let ghost cur = src.posn();
                        match Frame::parse(src) {
                            Ok(fr) => {
                                proof {
                                    match spec_parse(b, cur) {
                                        SpecParse::Parsed(f, p2) => {
                                            match spec_parse_elems(b, p2, n as int - k as int - 1) {
                                                SpecParseSeq::Parsed(fs, p3) => {
                                                    assert(done + (seq![f] + fs) =~= (done
                                                        + seq![f]) + fs);
                                                },
                                                _ => {},
                                            }
                                            lemma_frames_view_push(out@, fr);
                                            done = done + seq![f];
                                        },
                                        _ => {
                                            assert(false);
                                        },
                                    }
                                }
                                out.push(fr);
                                k = k + 1;
                            },
                            Err(e) => { return Err(e) },
                        }
                    }
                    proof {
                        assert(done + Seq::<FrameV>::empty() =~= done);
                    }
                    Ok(Frame::Array(out))
                },
                Err(e) => Err(e),
            }
        } else {
            Err(Error::Other(ProtocolError::InvalidTypeByte(t)))
        }
    }
}

/// Append every byte of `bs` to `out`.
#[verifier::loop_isolation(false)]
fn push_slice(out: &mut Vec<u8>, bs: &[u8])
    ensures
        final(out)@ == old(out)@ + bs@,
{
    let mut i: usize = 0;
    while i < bs.len()
        invariant
            i <= bs@.len(),
            out@ == old(out)@ + bs@.subrange(0, i as int),
        decreases bs@.len() - i,
    {
        out.push(*vstd::slice::slice_index_get(bs, i));
        proof {
            assert(old(out)@ + bs@.subrange(0, i as int) + seq![bs@[i as int]] =~= old(out)@
                + bs@.subrange(0, i as int + 1));
        }
        i = i + 1;
    }
    proof {
        assert(bs@.subrange(0, bs@.len() as int) =~= bs@);
    }
}

/// Append the UTF-8 bytes of `t` to `out`.
fn push_text(out: &mut Vec<u8>, t: &String)
    ensures
        final(out)@ == old(out)@ + encode_utf8(t@),
{
    push_slice(out, t.as_str().as_bytes());
}

/// Append the shortest decimal digit string of `n` to `out`.
fn push_decimal(out: &mut Vec<u8>, n: u64)
    ensures
        final(out)@ == old(out)@ + dec_rep(n as nat),
    decreases n,
{
    if n < 10 {
        out.push(48 + (n as u8));
    } else {
        push_decimal(out, n / 10);
        out.push(48 + ((n % 10) as u8));
    }
}

/// The wire bytes of consecutive frames grow frame by frame.
pub proof fn lemma_encode_seq_push(fs: Seq<FrameV>, f: FrameV)
    ensures
        spec_encode_seq(fs.push(f)) == spec_encode_seq(fs) + spec_encode(f),
    decreases fs.len(),
{
    reveal_with_fuel(spec_encode_seq, 3);
    if fs.len() == 0 {
        assert(fs.push(f)[0] == f);
        assert(fs.push(f).subrange(1, 1) =~= Seq::<FrameV>::empty());
        assert(spec_encode(f) + Seq::<u8>::empty() =~= spec_encode(f));
        assert(spec_encode_seq(fs) + spec_encode(f) =~= spec_encode(f));
        assert(spec_encode_seq(fs.push(f)) =~= spec_encode_seq(fs) + spec_encode(f));
    } else {
        assert(fs.push(f)[0] == fs[0]);
        assert(fs.push(f).subrange(1, fs.len() as int + 1) =~= fs.subrange(
            1,
            fs.len() as int,
        ).push(f));
        lemma_encode_seq_push(fs.subrange(1, fs.len() as int), f);
        assert(spec_encode(fs[0]) + (spec_encode_seq(fs.subrange(1, fs.len() as int))
            + spec_encode(f)) =~= (spec_encode(fs[0]) + spec_encode_seq(
            fs.subrange(1, fs.len() as int),
        )) + spec_encode(f));
        assert(spec_encode_seq(fs.push(f)) =~= spec_encode_seq(fs) + spec_encode(f));
    }
}

/// Append the wire bytes of `f` to `out`.
#[verifier::loop_isolation(false)]
fn encode_into(f: &Frame, out: &mut Vec<u8>)
    ensures
        final(out)@ == old(out)@ + spec_encode(f@),
    decreases f,
{
    match f {
        Frame::Simple(t) => {
            out.push(43);
            push_text(out, t);
            out.push(CR);
            out.push(LF);
            proof {
                assert(out@ =~= old(out)@ + (seq![43u8] + encode_utf8(t@) + seq![CR, LF]));
            }
        },
        Frame::Error(t) => {
            out.push(45);
            push_text(out, t);
            out.push(CR);
            out.push(LF);
            proof {
                assert(out@ =~= old(out)@ + (seq![45u8] + encode_utf8(t@) + seq![CR, LF]));
            }
        },
        Frame::Integer(n) => {
            out.push(58);
            push_decimal(out, *n);
            out.push(CR);
            out.push(LF);
            proof {
                assert(out@ =~= old(out)@ + (seq![58u8] + dec_rep(*n as nat) + seq![CR, LF]));
            }
        },
        Frame::Bulk(d) => {
            out.push(36);
            push_decimal(out, d.len() as u64);
            out.push(CR);
            out.push(LF);
            push_slice(out, d.as_slice());
            out.push(CR);
            out.push(LF);
            proof {
                assert(out@ =~= old(out)@ + (seq![36u8] + dec_rep(d@.len()) + seq![CR, LF] + d@
                    + seq![CR, LF]));
            }
        },
        Frame::Null => {
            out.push(36);
            out.push(45);
            out.push(49);
            out.push(CR);
            out.push(LF);
            proof {
                assert(out@ =~= old(out)@ + seq![36u8, 45u8, 49u8, CR, LF]);
            }
        },
        Frame::Array(v) => {
            out.push(42);
            push_decimal(out, v.len() as u64);
            out.push(CR);
            out.push(LF);
            let ghost header = old(out)@ + seq![42u8] + dec_rep(v@.len()) + seq![CR] + seq![LF];
            let n = v.len();
            let mut i: usize = 0;
            proof {
                lemma_frames_view_len(v@);
                assert(v@.subrange(0, 0) =~= Seq::<Frame>::empty());
                assert(out@ =~= header);
                assert(header + spec_encode_seq(frames_view(v@.subrange(0, 0))) =~= header);
            }
            while i < n
                invariant
                    i <= n,
                    n == v@.len(),
                    out@ == header + spec_encode_seq(frames_view(v@.subrange(0, i as int))),
                decreases n - i,
            {
                let fi: &Frame = vstd::slice::slice_index_get(v.as_slice(), i);
                encode_into(fi, out);
                proof {
                    assert(v@.subrange(0, i as int).push(v@[i as int]) =~= v@.subrange(
                        0,
                        i as int + 1,
                    ));
                    lemma_frames_view_push(v@.subrange(0, i as int), v@[i as int]);
                    lemma_encode_seq_push(
                        frames_view(v@.subrange(0, i as int)),
                        frame_view(v@[i as int]),
                    );
                    assert(frames_view(v@.subrange(0, i as int)) + seq![frame_view(v@[i as int])]
                        =~= frames_view(v@.subrange(0, i as int)).push(
                        frame_view(v@[i as int]),
                    ));
                    assert(out@ =~= header + spec_encode_seq(
                        frames_view(v@.subrange(0, i as int + 1)),
                    ));
                }
                i = i + 1;
            }
            proof {
                assert(v@.subrange(0, v@.len() as int) =~= v@);
                assert(out@ =~= old(out)@ + (seq![42u8] + dec_rep(frames_view(v@).len())
                    + seq![CR, LF] + spec_encode_seq(frames_view(v@))));
            }
        },
    }
}

impl Frame {
    /// The wire bytes of this frame: the inverse of the grammar, with bulk
    /// and array lengths re-derived from the contained data.
    pub fn encode(&self) -> (out: Vec<u8>)
        ensures
            out@ == spec_encode(self@),
    {
        let mut out: Vec<u8> = Vec::new();
        encode_into(self, &mut out);
        proof {
            assert(Seq::<u8>::empty() + spec_encode(self@) =~= spec_encode(self@));
        }
        out
    }
}

} // verus!
