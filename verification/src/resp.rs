//! RESP2 frames: the model of the wire format, the completeness check, the
//! parser and the serializer.

use vstd::prelude::*;
use vstd::utf8::*;
use vstd::string::*;
use crate::decimal::{int_digits, nat_digits, spec_parse_i64, parse_i64, format_i64, format_u128};
use crate::text::{words, utf8_text, split_whitespace, owned};

verus! {

broadcast use vstd::utf8::encode_utf8_decode_utf8, vstd::utf8::encode_utf8_valid_utf8;

/// A RESP (REdis Serialization Protocol) frame.
#[derive(Debug, PartialEq)]
pub enum Frame {
    Simple(String),
    Error(String),
    Integer(i64),
    Bulk(Vec<u8>),
    Null,
    Array(Vec<Frame>),
}

/// Why a buffer does not yield a frame.
#[derive(Debug, PartialEq, Eq)]
pub enum RespError {
    /// The buffer does not yet contain a full frame.
    Incomplete,
    /// The protocol data is corrupted or invalid.
    Invalid(String),
}

/// The mathematical value of a frame.
pub enum SpecFrame {
    Simple(Seq<char>),
    Error(Seq<char>),
    Integer(i64),
    Bulk(Seq<u8>),
    Null,
    Array(Seq<SpecFrame>),
}

/// The mathematical value of a [`RespError`].
pub enum SpecError {
    Incomplete,
    Invalid(Seq<char>),
}

/// The outcome of reading from position `p`: a result and the position the
/// cursor is left at.
pub struct Scan<T> {
    pub res: Result<T, SpecError>,
    pub end: int,
}

/// The mathematical value of a frame.
pub open spec fn frame_view(f: Frame) -> SpecFrame
    decreases f,
{
    match f {
        Frame::Simple(s) => SpecFrame::Simple(s@),
        Frame::Error(s) => SpecFrame::Error(s@),
        Frame::Integer(v) => SpecFrame::Integer(v),
        Frame::Bulk(b) => SpecFrame::Bulk(b@),
        Frame::Null => SpecFrame::Null,
        Frame::Array(v) => SpecFrame::Array(frames_view(v@)),
    }
}

/// The values of a list of frames.
pub open spec fn frames_view(s: Seq<Frame>) -> Seq<SpecFrame>
    decreases s,
{
    if s.len() == 0 {
        seq![]
    } else {
        frames_view(s.drop_last()).push(frame_view(s.last()))
    }
}

impl View for Frame {
    type V = SpecFrame;

    open spec fn view(&self) -> SpecFrame {
        frame_view(*self)
    }
}

impl View for RespError {
    type V = SpecError;

    open spec fn view(&self) -> SpecError {
        match self {
            RespError::Incomplete => SpecError::Incomplete,
            RespError::Invalid(m) => SpecError::Invalid(m@),
        }
    }
}


/// A read position over a byte buffer.
pub struct Cursor<'a> {
    pub inner: &'a [u8],
    pub pos: usize,
}

impl<'a> Cursor<'a> {
    /// A cursor at the start of `inner`.
    pub fn new(inner: &'a [u8]) -> (c: Cursor<'a>)
        ensures
            c.inner@ == inner@,
            c.pos == 0,
    {
        Cursor { inner, pos: 0 }
    }

    /// The current position.
    pub fn position(&self) -> (p: usize)
        ensures
            p == self.pos,
    {
        self.pos
    }

    /// Moves to position `pos` (which may lie past the end).
    pub fn set_position(&mut self, pos: usize)
        ensures
            final(self).inner@ == old(self).inner@,
            final(self).pos == pos,
    {
        self.pos = pos;
    }
}

/// The carriage return and line feed that end every line.
pub open spec fn crlf() -> Seq<u8> {
    seq![13u8, 10u8]
}

/// The first position `i >= start` where `\r\n` begins.
pub open spec fn find_crlf(s: Seq<u8>, start: int) -> Option<int>
    decreases s.len() - start,
{
    if start < 0 || start + 1 >= s.len() {
        None
    } else if s[start] == 13 && s[start + 1] == 10 {
        Some(start)
    } else {
        find_crlf(s, start + 1)
    }
}

/// Where a `\r\n` is found, it starts at or after `start` and ends within the buffer.
pub proof fn lemma_find_crlf_bounds(s: Seq<u8>, start: int)
    ensures
        find_crlf(s, start) matches Some(i) ==> start <= i && i + 2 <= s.len() && s[i] == 13
            && s[i + 1] == 10,
    decreases s.len() - start,
{
    if !(start < 0 || start + 1 >= s.len()) && !(s[start] == 13 && s[start + 1] == 10) {
        lemma_find_crlf_bounds(s, start + 1);
    }
}

/// The bytes from `p` up to the next `\r\n`; the cursor moves past it.
pub open spec fn spec_get_line(s: Seq<u8>, p: int) -> Scan<Seq<u8>> {
    match find_crlf(s, p) {
        Some(i) => Scan { res: Ok(s.subrange(p, i)), end: i + 2 },
        None => Scan { res: Err(SpecError::Incomplete), end: p },
    }
}

/// A decimal integer line from `p`.
pub open spec fn spec_get_decimal(s: Seq<u8>, p: int) -> Scan<i64> {
    let l = spec_get_line(s, p);
    match l.res {
        Err(e) => Scan { res: Err(e), end: l.end },
        Ok(line) => if !valid_utf8(line) {
            Scan { res: Err(SpecError::Invalid("invalid UTF-8 decimal"@)), end: l.end }
        } else {
            match spec_parse_i64(line) {
                Some(v) => Scan { res: Ok(v), end: l.end },
                None => Scan { res: Err(SpecError::Invalid("failed to parse integer"@)), end: l.end },
            }
        },
    }
}

/// The error a bulk string gets when its payload is not followed by `\r\n`.
pub open spec fn bad_bulk_end() -> SpecError {
    SpecError::Invalid("expected CRLF after bulk string"@)
}

/// Reads until the next `\r\n` delimiter, returning the bytes before it and
/// moving the cursor past it.
pub fn get_line<'a>(src: &mut Cursor<'a>) -> (r: Result<&'a [u8], RespError>)
    ensures
        final(src).inner@ == old(src).inner@,
        final(src).pos == spec_get_line(old(src).inner@, old(src).pos as int).end,
        match spec_get_line(old(src).inner@, old(src).pos as int).res {
            Ok(line) => r matches Ok(l) && l@ == line,
            Err(e) => r matches Err(x) && x@ == e,
        },
{
    let start = src.pos;
    let slice: &'a [u8] = src.inner;
    let ghost s = slice@;
    let mut i: usize = start;
    while i < slice.len()
        invariant
            s == slice@,
            s == old(src).inner@,
            src.inner@ == s,
            src.pos == start,
            start == old(src).pos,
            start <= i,
            find_crlf(s, start as int) == find_crlf(s, i as int),
        decreases slice@.len() - i,
    {
        if slice[i] == 13 {
            if i + 1 >= slice.len() {
                return Err(RespError::Incomplete);
            }
            if slice[i + 1] == 10 {
                src.pos = i + 2;
                return Ok(vstd::slice::slice_subrange(slice, start, i));
            }
        }
        i = i + 1;
    }
    Err(RespError::Incomplete)
}

/// Parses an ASCII decimal integer ending with `\r\n`.
pub fn get_decimal(src: &mut Cursor) -> (r: Result<i64, RespError>)
    ensures
        final(src).inner@ == old(src).inner@,
        final(src).pos == spec_get_decimal(old(src).inner@, old(src).pos as int).end,
        match spec_get_decimal(old(src).inner@, old(src).pos as int).res {
            Ok(v) => r == Ok::<i64, RespError>(v),
            Err(e) => r matches Err(x) && x@ == e,
        },
{
    let line = get_line(src)?;
    match utf8_text(line) {
        None => Err(RespError::Invalid(owned("invalid UTF-8 decimal"))),
        Some(_) => match parse_i64(line) {
            Some(v) => Ok(v),
            None => Err(RespError::Invalid(owned("failed to parse integer"))),
        },
    }
}


/// The mathematical value of a unit result.
pub open spec fn unit_res(r: Result<(), RespError>) -> Result<(), SpecError> {
    match r {
        Ok(_) => Ok(()),
        Err(e) => Err(e@),
    }
}

/// Drops the payload of a scan, keeping its outcome and end position.
pub open spec fn forget<T>(x: Scan<T>) -> Scan<()> {
    Scan {
        res: match x.res {
            Ok(_) => Ok(()),
            Err(e) => Err(e),
        },
        end: x.end,
    }
}

/// Whether a complete frame starts at `p`, and where it ends: what
/// [`Frame::check`] decides.
pub open spec fn spec_check(s: Seq<u8>, p: int) -> Scan<()>
    decreases s.len() - p, 0int, 0int,
{
    if p < 0 || p >= s.len() {
        Scan { res: Err(SpecError::Incomplete), end: p }
    } else {
        let first = s[p];
        let q = p + 1;
        if first == 43 || first == 45 {
            forget(spec_get_line(s, q))
        } else if first == 58 {
            forget(spec_get_decimal(s, q))
        } else if first == 36 {
            if q >= s.len() {
                Scan { res: Err(SpecError::Incomplete), end: q }
            } else {
                let d = spec_get_decimal(s, q);
                match d.res {
                    Err(e) => Scan { res: Err(e), end: d.end },
                    Ok(len) => if len >= 0 {
                        let r = d.end;
                        if s.len() - r < len + 2 {
                            Scan { res: Err(SpecError::Incomplete), end: r }
                        } else if s[r + len] != 13 {
                            Scan { res: Err(bad_bulk_end()), end: r + len + 1 }
                        } else if s[r + len + 1] != 10 {
                            Scan { res: Err(bad_bulk_end()), end: r + len + 2 }
                        } else {
                            Scan { res: Ok(()), end: r + len + 2 }
                        }
                    } else {
                        Scan { res: Ok(()), end: d.end }
                    },
                }
            }
        } else if first == 42 {
            let d = spec_get_decimal(s, q);
            match d.res {
                Err(e) => Scan { res: Err(e), end: d.end },
                Ok(count) => if count > 0 {
                    proof {
                        lemma_find_crlf_bounds(s, q);
                    }
                    spec_check_items(s, d.end, count as int)
                } else {
                    Scan { res: Ok(()), end: d.end }
                },
            }
        } else {
            forget(spec_get_line(s, p))
        }
    }
}

/// Checks `n` complete frames one after another from `p`. Every frame that
/// checks moves forward (see [`lemma_check_advances`]), so the guard that
/// stops at a frame that does not is never taken.
pub open spec fn spec_check_items(s: Seq<u8>, p: int, n: int) -> Scan<()>
    decreases s.len() - p, 1int, n,
{
    if n <= 0 {
        Scan { res: Ok(()), end: p }
    } else {
        let f = spec_check(s, p);
        match f.res {
            Err(e) => Scan { res: Err(e), end: f.end },
            Ok(_) => if f.end <= p || f.end > s.len() {
                Scan { res: Err(SpecError::Incomplete), end: f.end }
            } else {
                spec_check_items(s, f.end, n - 1)
            },
        }
    }
}

/// The frames an inline command line stands for: one bulk string per word.
pub open spec fn inline_parts(cs: Seq<char>) -> Seq<SpecFrame> {
    words(cs).map_values(|w: Seq<char>| SpecFrame::Bulk(encode_utf8(w)))
}

/// A line of text read from `q` on and turned into a frame by `make`, or
/// the error `bad` when the line is not UTF-8.
pub open spec fn text_line(s: Seq<u8>, q: int, bad: Seq<char>, simple: bool) -> Scan<SpecFrame> {
    let l = spec_get_line(s, q);
    match l.res {
        Err(e) => Scan { res: Err(e), end: l.end },
        Ok(b) => if valid_utf8(b) {
            Scan {
                res: Ok(
                    if simple {
                        SpecFrame::Simple(decode_utf8(b))
                    } else {
                        SpecFrame::Error(decode_utf8(b))
                    },
                ),
                end: l.end,
            }
        } else {
            Scan { res: Err(SpecError::Invalid(bad)), end: l.end }
        },
    }
}

/// The frame that starts at `p`, and where the cursor is left: what
/// [`Frame::parse`] returns.
pub open spec fn spec_parse(s: Seq<u8>, p: int) -> Scan<SpecFrame>
    decreases s.len() - p, 0int, 0int,
{
    if p < 0 || p >= s.len() {
        Scan { res: Err(SpecError::Incomplete), end: p }
    } else {
        let first = s[p];
        let q = p + 1;
        if first == 43 {
            text_line(s, q, "invalid UTF-8 in simple string"@, true)
        } else if first == 45 {
            text_line(s, q, "invalid UTF-8 in error string"@, false)
        } else if first == 58 {
            let d = spec_get_decimal(s, q);
            match d.res {
                Err(e) => Scan { res: Err(e), end: d.end },
                Ok(v) => Scan { res: Ok(SpecFrame::Integer(v)), end: d.end },
            }
        } else if first == 36 {
            let d = spec_get_decimal(s, q);
            match d.res {
                Err(e) => Scan { res: Err(e), end: d.end },
                Ok(len) => if len < 0 {
                    Scan { res: Ok(SpecFrame::Null), end: d.end }
                } else {
                    let r = d.end;
                    if s.len() < r + len + 2 {
                        Scan { res: Err(SpecError::Incomplete), end: r }
                    } else if s[r + len] != 13 {
                        Scan { res: Err(bad_bulk_end()), end: r + len + 1 }
                    } else if s[r + len + 1] != 10 {
                        Scan { res: Err(bad_bulk_end()), end: r + len + 2 }
                    } else {
                        Scan { res: Ok(SpecFrame::Bulk(s.subrange(r, r + len))), end: r + len + 2 }
                    }
                },
            }
        } else if first == 42 {
            let d = spec_get_decimal(s, q);
            match d.res {
                Err(e) => Scan { res: Err(e), end: d.end },
                Ok(count) => if count < 0 {
                    Scan { res: Ok(SpecFrame::Null), end: d.end }
                } else {
                    proof {
                        lemma_find_crlf_bounds(s, q);
                    }
                    array_of(spec_parse_items(s, d.end, count as int, seq![]))
                },
            }
        } else {
            let l = spec_get_line(s, p);
            match l.res {
                Err(e) => Scan { res: Err(e), end: l.end },
                Ok(b) => if valid_utf8(b) {
                    Scan { res: Ok(SpecFrame::Array(inline_parts(decode_utf8(b)))), end: l.end }
                } else {
                    Scan {
                        res: Err(SpecError::Invalid("invalid UTF-8 in inline command"@)),
                        end: l.end,
                    }
                },
            }
        }
    }
}

/// Parses `n` frames one after another from `p`, after the frames `acc`
/// already read. As in [`spec_check_items`], the guard is never taken.
pub open spec fn spec_parse_items(s: Seq<u8>, p: int, n: int, acc: Seq<SpecFrame>) -> Scan<
    Seq<SpecFrame>,
>
    decreases s.len() - p, 1int, n,
{
    if n <= 0 {
        Scan { res: Ok(acc), end: p }
    } else {
        let f = spec_parse(s, p);
        match f.res {
            Err(e) => Scan { res: Err(e), end: f.end },
            Ok(fr) => if f.end <= p || f.end > s.len() {
                Scan { res: Err(SpecError::Incomplete), end: f.end }
            } else {
                spec_parse_items(s, f.end, n - 1, acc.push(fr))
            },
        }
    }
}

/// An array frame made of the frames that a scan of items read.
pub open spec fn array_of(items: Scan<Seq<SpecFrame>>) -> Scan<SpecFrame> {
    match items.res {
        Err(e) => Scan { res: Err(e), end: items.end },
        Ok(fs) => Scan { res: Ok(SpecFrame::Array(fs)), end: items.end },
    }
}

/// The mathematical value of a parse result.
pub open spec fn frame_res(r: Result<Frame, RespError>) -> Result<SpecFrame, SpecError> {
    match r {
        Ok(f) => Ok(f@),
        Err(e) => Err(e@),
    }
}

/// The values of a list grow with the list.
pub proof fn lemma_frames_view_push(s: Seq<Frame>, f: Frame)
    ensures
        frames_view(s.push(f)) == frames_view(s).push(f@),
{
    assert(s.push(f).drop_last() =~= s);
}

/// The RESP encoding of a frame.
pub open spec fn spec_serialize(f: SpecFrame) -> Seq<u8>
    decreases f,
{
    match f {
        SpecFrame::Simple(t) => seq![43u8] + encode_utf8(t) + crlf(),
        SpecFrame::Error(t) => seq![45u8] + encode_utf8(t) + crlf(),
        SpecFrame::Integer(v) => seq![58u8] + int_digits(v as int) + crlf(),
        SpecFrame::Bulk(b) => seq![36u8] + nat_digits(b.len()) + crlf() + b + crlf(),
        SpecFrame::Null => seq![36u8, 45u8, 49u8, 13u8, 10u8],
        SpecFrame::Array(fs) => seq![42u8] + nat_digits(fs.len()) + crlf() + serialize_all(fs),
    }
}

/// The encodings of `fs`, one after another.
pub open spec fn serialize_all(fs: Seq<SpecFrame>) -> Seq<u8>
    decreases fs,
{
    if fs.len() == 0 {
        seq![]
    } else {
        serialize_all(fs.drop_last()) + spec_serialize(fs.last())
    }
}

/// The values of a list are the values of its frames, position by position.
pub proof fn lemma_frames_view_index(s: Seq<Frame>)
    ensures
        frames_view(s).len() == s.len(),
        forall|i: int| 0 <= i < s.len() ==> #[trigger] frames_view(s)[i] == s[i]@,
    decreases s.len(),
{
    if s.len() > 0 {
        lemma_frames_view_index(s.drop_last());
        assert forall|i: int| 0 <= i < s.len() implies #[trigger] frames_view(s)[i] == s[i]@ by {
            if i < s.len() - 1 {
                assert(s.drop_last()[i] == s[i]);
            }
        }
    }
}

/// Appends the bytes of `b` to `dst`.
pub(crate) fn append_bytes(dst: &mut Vec<u8>, b: &[u8])
    ensures
        final(dst)@ == old(dst)@ + b@,
{
    let mut i: usize = 0;
    while i < b.len()
        invariant
            i <= b@.len(),
            dst@ == old(dst)@ + b@.subrange(0, i as int),
        decreases b@.len() - i,
    {
        dst.push(b[i]);
        i = i + 1;
        assert(dst@ =~= old(dst)@ + b@.subrange(0, i as int));
    }
    assert(b@.subrange(0, i as int) =~= b@);
}

/// Appends `\r\n` to `dst`.
fn append_crlf(dst: &mut Vec<u8>)
    ensures
        final(dst)@ == old(dst)@ + crlf(),
{
    dst.push(13);
    dst.push(10);
    assert(dst@ =~= old(dst)@ + crlf());
}

impl Clone for Frame {
    /// A deep copy of the frame.
    fn clone(&self) -> (r: Frame)
        ensures
            r@ == self@,
        decreases self,
    {
        match self {
            Frame::Simple(t) => Frame::Simple(t.clone()),
            Frame::Error(t) => Frame::Error(t.clone()),
            Frame::Integer(v) => Frame::Integer(*v),
            Frame::Bulk(data) => Frame::Bulk(vstd::slice::slice_to_vec(data.as_slice())),
            Frame::Null => Frame::Null,
            Frame::Array(frames) => {
                let mut out: Vec<Frame> = Vec::new();
                let mut i: usize = 0;
                while i < frames.len()
                    invariant
                        i <= frames@.len(),
                        *self == Frame::Array(*frames),
                        out@.len() == i,
                        forall|j: int| 0 <= j < i ==> #[trigger] out@[j]@ == frames@[j]@,
                    decreases frames@.len() - i,
                {
                    proof {
                        assert(decreases_to!(*self => self->Array_0));
                        assert(decreases_to!(self->Array_0 => self->Array_0@));
                        assert(decreases_to!(self->Array_0@ => self->Array_0@[i as int]));
                    }
                    let copy = frames[i].clone();
                    out.push(copy);
                    i = i + 1;
                }
                proof {
                    lemma_frames_view_index(out@);
                    lemma_frames_view_index(frames@);
                    assert(frames_view(out@) =~= frames_view(frames@));
                }
                Frame::Array(out)
            },
        }
    }
}

impl RespError {
    /// The text of the error.
    pub fn describe(&self) -> (r: String)
        ensures
            r@ == match self@ {
                SpecError::Incomplete => "incomplete RESP frame"@,
                SpecError::Invalid(m) => "invalid RESP frame: "@ + m,
            },
    {
        match self {
            RespError::Incomplete => owned("incomplete RESP frame"),
            RespError::Invalid(msg) => owned("invalid RESP frame: ").concat(msg.as_str()),
        }
    }
}

impl Frame {
    /// Checks if a complete frame can be parsed from `src`, moving the cursor
    /// past it when it can.
    pub fn check(src: &mut Cursor) -> (r: Result<(), RespError>)
        ensures
            final(src).inner@ == old(src).inner@,
            final(src).pos == spec_check(old(src).inner@, old(src).pos as int).end,
            unit_res(r) == spec_check(old(src).inner@, old(src).pos as int).res,
            r is Ok ==> old(src).pos < final(src).pos <= old(src).inner@.len(),
        decreases old(src).inner@.len() - old(src).pos,
    {
        let ghost s = src.inner@;
        let ghost p = src.pos as int;
        if src.pos >= src.inner.len() {
            return Err(RespError::Incomplete);
        }
        let first = src.inner[src.pos];
        src.pos = src.pos + 1;
        if first == 43 || first == 45 {
            get_line(src)?;
            proof { lemma_find_crlf_bounds(s, p + 1); }
            Ok(())
        } else if first == 58 {
            get_decimal(src)?;
            proof { lemma_find_crlf_bounds(s, p + 1); }
            Ok(())
        } else if first == 36 {
            if src.pos >= src.inner.len() {
                return Err(RespError::Incomplete);
            }
            let len = get_decimal(src)?;
            proof { lemma_find_crlf_bounds(s, p + 1); }
            if len >= 0 {
                let remaining: usize = src.inner.len() - src.pos;
                if (remaining as u128) < (len as u128) + 2 {
                    return Err(RespError::Incomplete);
                }
                src.pos = src.pos + len as usize;
                if src.inner[src.pos] != 13 {
                    src.pos = src.pos + 1;
                    return Err(RespError::Invalid(owned("expected CRLF after bulk string")));
                }
                src.pos = src.pos + 1;
                if src.inner[src.pos] != 10 {
                    src.pos = src.pos + 1;
                    return Err(RespError::Invalid(owned("expected CRLF after bulk string")));
                }
                src.pos = src.pos + 1;
            }
            Ok(())
        } else if first == 42 {
            let count = get_decimal(src)?;
            proof { lemma_find_crlf_bounds(s, p + 1); }
            if count > 0 {
                let mut i: i64 = 0;
                while i < count
                    invariant
                        src.inner@ == s,
                        old(src).inner@ == s,
                        old(src).pos == p,
                        0 <= i <= count,
                        p < src.pos <= s.len(),
                        spec_check(s, p) == spec_check_items(s, src.pos as int, count - i),
                    decreases count - i,
                {
                    Frame::check(src)?;
                    i = i + 1;
                }
            }
            Ok(())
        } else {
            src.pos = src.pos - 1;
            get_line(src)?;
            proof { lemma_find_crlf_bounds(s, p); }
            Ok(())
        }
    }

    /// Parses a frame from `src`, moving the cursor past it.
    pub fn parse(src: &mut Cursor) -> (r: Result<Frame, RespError>)
        ensures
            final(src).inner@ == old(src).inner@,
            final(src).pos == spec_parse(old(src).inner@, old(src).pos as int).end,
            frame_res(r) == spec_parse(old(src).inner@, old(src).pos as int).res,
            r is Ok ==> old(src).pos < final(src).pos <= old(src).inner@.len(),
        decreases old(src).inner@.len() - old(src).pos,
    {
        let ghost s = src.inner@;
        let ghost p = src.pos as int;
        if src.pos >= src.inner.len() {
            return Err(RespError::Incomplete);
        }
        let first = src.inner[src.pos];
        src.pos = src.pos + 1;
        if first == 43 || first == 45 {
            let line = get_line(src)?;
            proof { lemma_find_crlf_bounds(s, p + 1); }
            match utf8_text(line) {
                None => if first == 43 {
                    Err(RespError::Invalid(owned("invalid UTF-8 in simple string")))
                } else {
                    Err(RespError::Invalid(owned("invalid UTF-8 in error string")))
                },
                Some(t) => if first == 43 {
                    Ok(Frame::Simple(owned(t)))
                } else {
                    Ok(Frame::Error(owned(t)))
                },
            }
        } else if first == 58 {
            let v = get_decimal(src)?;
            proof { lemma_find_crlf_bounds(s, p + 1); }
            Ok(Frame::Integer(v))
        } else if first == 36 {
            let len = get_decimal(src)?;
            proof { lemma_find_crlf_bounds(s, p + 1); }
            if len < 0 {
                Ok(Frame::Null)
            } else {
                let pos = src.pos;
                let slice = src.inner;
                if (slice.len() as u128) < (pos as u128) + (len as u128) + 2 {
                    return Err(RespError::Incomplete);
                }
                let stop: usize = pos + len as usize;
                let data = vstd::slice::slice_to_vec(vstd::slice::slice_subrange(slice, pos, stop));
                src.pos = stop;
                if slice[stop] != 13 {
                    src.pos = stop + 1;
                    return Err(RespError::Invalid(owned("expected CRLF after bulk string")));
                }
                if slice[stop + 1] != 10 {
                    src.pos = stop + 2;
                    return Err(RespError::Invalid(owned("expected CRLF after bulk string")));
                }
                src.pos = stop + 2;
                Ok(Frame::Bulk(data))
            }
        } else if first == 42 {
            let count = get_decimal(src)?;
            proof { lemma_find_crlf_bounds(s, p + 1); }
            if count < 0 {
                Ok(Frame::Null)
            } else {
                let mut frames: Vec<Frame> = Vec::new();
                let mut i: i64 = 0;
                assert(frames_view(frames@) =~= Seq::<SpecFrame>::empty());
                while i < count
                    invariant
                        src.inner@ == s,
                        old(src).inner@ == s,
                        old(src).pos == p,
                        0 <= i <= count,
                        p < src.pos <= s.len(),
                        spec_parse(s, p) == array_of(
                            spec_parse_items(s, src.pos as int, count - i, frames_view(frames@)),
                        ),
                    decreases count - i,
                {
                    let f = Frame::parse(src)?;
                    proof { lemma_frames_view_push(frames@, f); }
                    frames.push(f);
                    i = i + 1;
                }
                Ok(Frame::Array(frames))
            }
        } else {
            src.pos = src.pos - 1;
            let line = get_line(src)?;
            proof { lemma_find_crlf_bounds(s, p); }
            match utf8_text(line) {
                None => Err(RespError::Invalid(owned("invalid UTF-8 in inline command"))),
                Some(t) => {
                    let parts = split_whitespace(t);
                    let mut out: Vec<Frame> = Vec::new();
                    let mut i: usize = 0;
                    while i < parts.len()
                        invariant
                            i <= parts@.len(),
                            parts@.len() == words(t@).len(),
                            forall|j: int| 0 <= j < parts@.len() ==> (#[trigger] parts@[j])@ == words(t@)[j],
                            frames_view(out@) == inline_parts(t@).take(i as int),
                        decreases parts@.len() - i,
                    {
                        let part: &str = parts[i];
                        let bytes = vstd::slice::slice_to_vec(part.as_bytes());
                        proof {
                            lemma_frames_view_push(out@, Frame::Bulk(bytes));
                            assert(inline_parts(t@).take(i + 1) =~= inline_parts(t@).take(i as int).push(SpecFrame::Bulk(encode_utf8(words(t@)[i as int]))));
                        }
                        out.push(Frame::Bulk(bytes));
                        i = i + 1;
                    }
                    assert(inline_parts(t@).take(i as int) =~= inline_parts(t@));
                    Ok(Frame::Array(out))
                },
            }
        }
    }

    /// Appends the RESP encoding of this frame to `dst`.
    pub fn serialize(&self, dst: &mut Vec<u8>)
        ensures
            final(dst)@ == old(dst)@ + spec_serialize(self@),
        decreases self,
    {
        let ghost start = dst@;
        match self {
            Frame::Simple(t) => {
                dst.push(43);
                append_bytes(dst, t.as_str().as_bytes());
                append_crlf(dst);
                assert(dst@ =~= start + spec_serialize(self@));
            },
            Frame::Error(t) => {
                dst.push(45);
                append_bytes(dst, t.as_str().as_bytes());
                append_crlf(dst);
                assert(dst@ =~= start + spec_serialize(self@));
            },
            Frame::Integer(v) => {
                dst.push(58);
                let digits = format_i64(*v);
                append_bytes(dst, digits.as_slice());
                append_crlf(dst);
                assert(dst@ =~= start + spec_serialize(self@));
            },
            Frame::Bulk(data) => {
                dst.push(36);
                let digits = format_u128(data.len() as u128);
                append_bytes(dst, digits.as_slice());
                append_crlf(dst);
                append_bytes(dst, data.as_slice());
                append_crlf(dst);
                assert(dst@ =~= start + spec_serialize(self@));
            },
            Frame::Null => {
                dst.push(36);
                dst.push(45);
                dst.push(49);
                append_crlf(dst);
                assert(dst@ =~= start + spec_serialize(self@));
            },
            Frame::Array(frames) => {
                dst.push(42);
                let digits = format_u128(frames.len() as u128);
                append_bytes(dst, digits.as_slice());
                append_crlf(dst);
                let ghost header = dst@;
                let ghost fs = frames_view(frames@);
                proof {
                    lemma_frames_view_index(frames@);
                    assert(fs.take(0) =~= Seq::<SpecFrame>::empty());
                }
                let mut i: usize = 0;
                while i < frames.len()
                    invariant
                        i <= frames@.len(),
                        *self == Frame::Array(*frames),
                        fs == frames_view(frames@),
                        fs.len() == frames@.len(),
                        forall|j: int| 0 <= j < frames@.len() ==> #[trigger] fs[j] == frames@[j]@,
                        dst@ == header + serialize_all(fs.take(i as int)),
                    decreases frames@.len() - i,
                {
                    let frame = &frames[i];
                    proof {
                        assert(decreases_to!(*self => self->Array_0));
                        assert(decreases_to!(self->Array_0 => self->Array_0@));
                        assert(decreases_to!(self->Array_0@ => self->Array_0@[i as int]));
                    }
                    frame.serialize(dst);
                    proof {
                        assert(fs.take(i + 1).drop_last() =~= fs.take(i as int));
                    }
                    i = i + 1;
                }
                assert(fs.take(i as int) =~= fs);
                assert(dst@ =~= start + spec_serialize(self@));
            },
        }
    }
}

} // verus!
