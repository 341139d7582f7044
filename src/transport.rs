//! Framing of protocol messages on a byte stream: a header block of
//! CRLF-terminated lines, closed by an empty line, that gives the payload's
//! byte length in a `Content-Length` line; then the payload.

use vstd::prelude::*;

verus! {

/// The ASCII bytes of "Content-Length: ".
pub open spec fn length_tag() -> Seq<u8> {
    seq![67u8, 111u8, 110u8, 116u8, 101u8, 110u8, 116u8, 45u8, 76u8, 101u8, 110u8, 103u8, 116u8, 104u8, 58u8, 32u8]
}

pub open spec fn crlf() -> Seq<u8> {
    seq![13u8, 10u8]
}

/// The decimal digits of `n`, most significant first.
pub open spec fn digits_of(n: nat) -> Seq<u8>
    decreases n,
{
    if n < 10 {
        seq![(48 + n) as u8]
    } else {
        digits_of(n / 10).push((48 + n % 10) as u8)
    }
}

pub open spec fn is_digit(b: u8) -> bool {
    48 <= b <= 57
}

/// The number that a run of decimal digits spells.
pub open spec fn decimal_value(s: Seq<u8>) -> nat
    decreases s.len(),
{
    if s.len() == 0 {
        0
    } else {
        decimal_value(s.drop_last()) * 10 + (s.last() - 48) as nat
    }
}

/// The frame of a payload: its length line, an empty line, the payload.
pub open spec fn framed(payload: Seq<u8>) -> Seq<u8> {
    length_tag() + digits_of(payload.len()) + crlf() + crlf() + payload
}

fn tag_bytes() -> (r: Vec<u8>)
    ensures
        r@ == length_tag(),
{
    let r = vec![67u8, 111u8, 110u8, 116u8, 101u8, 110u8, 116u8, 45u8, 76u8, 101u8, 110u8, 103u8, 116u8, 104u8, 58u8, 32u8];
    assert(r@ =~= length_tag());
    r
}

/// The decimal digits of `n`.
pub fn decimal(n: usize) -> (r: Vec<u8>)
    ensures
        r@ == digits_of(n as nat),
    decreases n,
{
    if n < 10 {
        let r = vec![(48 + n) as u8];
        assert(r@ =~= digits_of(n as nat));
        r
    } else {
        let mut r = decimal(n / 10);
        r.push((48 + n % 10) as u8);
        r
    }
}

/// Frames a payload for the stream.
pub fn frame(payload: &[u8]) -> (r: Vec<u8>)
    ensures
        r@ == framed(payload@),
{
    let mut r = tag_bytes();
    let mut d = decimal(payload.len());
    r.append(&mut d);
    r.push(13u8);
    r.push(10u8);
    r.push(13u8);
    r.push(10u8);
    let mut i: usize = 0;
    let ghost head = r@;
    while i < payload.len()
        invariant
            i <= payload@.len(),
            r@ == head + payload@.subrange(0, i as int),
        decreases payload@.len() - i,
    {
        r.push(payload[i]);
        assert(payload@.subrange(0, i + 1) =~= payload@.subrange(0, i as int).push(payload@[i as int]));
        i = i + 1;
    }
    assert(payload@.subrange(0, payload@.len() as int) =~= payload@);
    assert(r@ =~= framed(payload@));
    r
}

/// The value of a `Content-Length` line: the tag, then one or more digits and
/// nothing else.
pub open spec fn length_line(line: Seq<u8>) -> Option<nat> {
    let t = length_tag();
    if line.len() > t.len() && line.subrange(0, t.len() as int) == t
        && forall|k: int| t.len() <= k < line.len() ==> is_digit(#[trigger] line[k]) {
        Some(decimal_value(line.subrange(t.len() as int, line.len() as int)))
    } else {
        None
    }
}

/// Where the first line of `h` ends: at its first CRLF, or at the end of `h`.
pub open spec fn line_end(h: Seq<u8>) -> int
    decreases h.len(),
{
    if h.len() < 2 {
        h.len() as int
    } else if h[0] == 13 && h[1] == 10 {
        0
    } else {
        1 + line_end(h.drop_first())
    }
}

proof fn lemma_line_end(h: Seq<u8>)
    ensures
        0 <= line_end(h) <= h.len(),
        line_end(h) < h.len() ==> line_end(h) + 1 < h.len() && h[line_end(h)] == 13 && h[line_end(h) + 1] == 10,
        forall|k: int| 0 <= k < line_end(h) && k + 1 < h.len() ==> !(#[trigger] h[k] == 13 && h[k + 1] == 10),
    decreases h.len(),
{
    if h.len() >= 2 && !(h[0] == 13 && h[1] == 10) {
        lemma_line_end(h.drop_first());
        assert forall|k: int| 0 <= k < line_end(h) && k + 1 < h.len() implies !(#[trigger] h[k] == 13 && h[k + 1] == 10) by {
            if k > 0 {
                assert(h.drop_first()[k - 1] == h[k]);
                assert(h.drop_first()[k] == h[k + 1]);
            }
        }
    }
}

/// The value of the first `Content-Length` line among the CRLF-separated lines of `h`.
pub open spec fn first_length(h: Seq<u8>) -> Option<nat>
    decreases h.len(),
{
    let e = line_end(h);
    if length_line(h.subrange(0, e)) is Some {
        length_line(h.subrange(0, e))
    } else if e + 2 > h.len() || e < 0 {
        None
    } else {
        first_length(h.subrange(e + 2, h.len() as int))
    }
}

/// An empty line closes the header block at `i`: CR LF CR LF.
pub open spec fn blank_at(buf: Seq<u8>, i: int) -> bool {
    0 <= i && i + 4 <= buf.len() && buf[i] == 13 && buf[i + 1] == 10 && buf[i + 2] == 13 && buf[i + 3] == 10
}

/// The first `i` from `from` on at which the header block closes.
pub open spec fn header_end_from(buf: Seq<u8>, from: int) -> Option<int>
    decreases buf.len() - from,
{
    if from < 0 || from + 4 > buf.len() {
        None
    } else if blank_at(buf, from) {
        Some(from)
    } else {
        header_end_from(buf, from + 1)
    }
}

/// Where the header block ends: the index of the first CR LF CR LF.
pub open spec fn header_end(buf: Seq<u8>) -> Option<int> {
    header_end_from(buf, 0)
}

/// Where a frame's payload lies in a buffer.
#[derive(Debug, PartialEq, Eq, Structural, Clone, Copy)]
pub struct Frame {
    pub payload_start: usize,
    pub payload_len: usize,
}

/// Why a buffer holds no complete frame. Each is fatal to the stream.
#[derive(Debug, PartialEq, Eq, Structural, Clone, Copy)]
pub enum FrameError {
    /// No empty line closes the header block.
    UnterminatedHeader,
    /// No header line gives the payload's length (or the length does not fit in memory).
    MissingLength,
    /// The payload is shorter than its header says.
    Truncated,
}

/// What reading the header block at the start of `buf` yields: where the
/// payload starts and how long its header says it is.
pub open spec fn header_result(buf: Seq<u8>) -> Result<Frame, FrameError> {
    match header_end(buf) {
        None => Err(FrameError::UnterminatedHeader),
        Some(e) => match first_length(buf.subrange(0, e)) {
            None => Err(FrameError::MissingLength),
            Some(n) => if n > usize::MAX {
                Err(FrameError::MissingLength)
            } else {
                Ok(Frame { payload_start: (e + 4) as usize, payload_len: n as usize })
            },
        },
    }
}

/// What reading a frame from the start of `buf` yields: its header, and the
/// whole payload present.
pub open spec fn frame_result(buf: Seq<u8>) -> Result<Frame, FrameError> {
    match header_result(buf) {
        Ok(f) => if f.payload_start + f.payload_len > buf.len() {
            Err(FrameError::Truncated)
        } else {
            Ok(f)
        },
        Err(e) => Err(e),
    }
}

fn find_header_end(buf: &[u8]) -> (r: Option<usize>)
    ensures
        r matches Some(i) ==> header_end(buf@) == Some(i as int),
        r is None ==> header_end(buf@) is None,
{
    let n = buf.len();
    let mut i: usize = 0;
    while n >= 4 && i <= n - 4
        invariant
            n == buf@.len(),
            header_end(buf@) == header_end_from(buf@, i as int),
        decreases n - i,
    {
        if buf[i] == 13 && buf[i + 1] == 10 && buf[i + 2] == 13 && buf[i + 3] == 10 {
            return Some(i);
        }
        i = i + 1;
    }
    None
}

/// Reads the line `buf[from..to]` as a `Content-Length` line: `Ok(Some(v))`
/// for one of value `v`, `Ok(None)` for another line, `Err(())` for one whose
/// value does not fit in memory.
fn length_of_line(buf: &[u8], from: usize, to: usize) -> (r: Result<Option<usize>, ()>)
    requires
        from <= to <= buf@.len(),
    ensures
        r matches Ok(Some(v)) ==> length_line(buf@.subrange(from as int, to as int)) == Some(v as nat),
        r matches Ok(None) ==> length_line(buf@.subrange(from as int, to as int)) is None,
        r is Err ==> (length_line(buf@.subrange(from as int, to as int)) matches Some(v) && v > usize::MAX),
{
    let ghost line = buf@.subrange(from as int, to as int);
    let tag = tag_bytes();
    let t = tag.len();
    if to - from <= t {
        return Ok(None);
    }
    let mut k: usize = 0;
    while k < t
        invariant
            t == 16,
            tag@ == length_tag(),
            to - from > t,
            from <= to <= buf@.len(),
            line == buf@.subrange(from as int, to as int),
            k <= t,
            forall|m: int| 0 <= m < k ==> line[m] == tag@[m],
        decreases t - k,
    {
        if buf[from + k] != tag[k] {
            assert(line.subrange(0, t as int)[k as int] != length_tag()[k as int]);
            return Ok(None);
        }
        k = k + 1;
    }
    assert(line.subrange(0, t as int) =~= length_tag());
    let mut v: usize = 0;
    let mut big = false;
    let mut j: usize = from + t;
    let ghost digits_start = (from + t) as int;
    while j < to
        invariant
            t == 16,
            from + t <= j <= to <= buf@.len(),
            digits_start == from + t,
            line == buf@.subrange(from as int, to as int),
            line.subrange(0, t as int) == length_tag(),
            forall|m: int| t <= m < j - from ==> is_digit(#[trigger] line[m]),
            !big ==> v as nat == decimal_value(buf@.subrange(digits_start, j as int)),
            big ==> decimal_value(buf@.subrange(digits_start, j as int)) > usize::MAX,
        decreases to - j,
    {
        let b = buf[j];
        if b < 48 || b > 57 {
            assert(!is_digit(line[j - from]));
            return Ok(None);
        }
        let ghost ds = buf@.subrange(digits_start, j + 1);
        assert(ds.drop_last() =~= buf@.subrange(digits_start, j as int));
        assert(ds.last() == b);
        let d = (b - 48) as usize;
        assert(decimal_value(ds) == decimal_value(buf@.subrange(digits_start, j as int)) * 10 + d as nat);
        if big {
        } else if v > (usize::MAX - d) / 10 {
            assert(v as nat * 10 + d as nat > usize::MAX) by (nonlinear_arith)
                requires
                    v > (usize::MAX - d) / 10,
                    d <= 9,
            ;
            big = true;
        } else {
            assert(v * 10 + d <= usize::MAX) by (nonlinear_arith)
                requires
                    v <= (usize::MAX - d) / 10,
                    d <= 9,
            ;
            v = v * 10 + d;
        }
        j = j + 1;
    }
    assert(line.subrange(t as int, line.len() as int) =~= buf@.subrange(digits_start, to as int));
    if big {
        Err(())
    } else {
        Ok(Some(v))
    }
}

/// Where the line that starts at `from` ends, within `buf[..to]`.
fn find_line_end(buf: &[u8], from: usize, to: usize) -> (r: usize)
    requires
        from <= to <= buf@.len(),
    ensures
        from <= r <= to,
        r - from == line_end(buf@.subrange(from as int, to as int)),
{
    let mut k: usize = from;
    while k < to
        invariant
            from <= k <= to <= buf@.len(),
            line_end(buf@.subrange(from as int, to as int)) == (k - from) + line_end(buf@.subrange(k as int, to as int)),
        decreases to - k,
    {
        let ghost cur = buf@.subrange(k as int, to as int);
        if k + 1 < to && buf[k] == 13 && buf[k + 1] == 10 {
            assert(cur[0] == 13 && cur[1] == 10);
            return k;
        }
        if k + 1 >= to {
            assert(cur.len() < 2);
            assert(line_end(cur) == cur.len());
            return to;
        }
        assert(cur.drop_first() =~= buf@.subrange(k + 1, to as int));
        k = k + 1;
    }
    assert(buf@.subrange(k as int, to as int).len() == 0);
    k
}

/// Reads the frame at the start of a buffer: where its payload lies, or why
/// there is no complete frame.
pub fn read_frame(buf: &[u8]) -> (r: Result<Frame, FrameError>)
    ensures
        r == frame_result(buf@),
{
    match read_header(buf) {
        Ok(f) => {
            if f.payload_len > buf.len() - f.payload_start {
                Err(FrameError::Truncated)
            } else {
                Ok(f)
            }
        },
        Err(e) => Err(e),
    }
}

/// Reads the header block at the start of a buffer: where the payload starts
/// and how long it is, whether or not the buffer holds all of it yet.
pub fn read_header(buf: &[u8]) -> (r: Result<Frame, FrameError>)
    ensures
        r == header_result(buf@),
        r matches Ok(f) ==> f.payload_start <= buf@.len(),
{
    let e = match find_header_end(buf) {
        None => {
            return Err(FrameError::UnterminatedHeader);
        },
        Some(e) => e,
    };
    proof {
        lemma_header_end_bounds(buf@, 0);
    }
    let ghost h = buf@.subrange(0, e as int);
    let mut pos: usize = 0;
    assert(h.subrange(0, e as int) =~= h);
    let mut n: usize = 0;
    loop
        invariant
            e + 4 <= buf@.len(),
            h == buf@.subrange(0, e as int),
            pos <= e,
            first_length(h) == first_length(h.subrange(pos as int, e as int)),
            header_end(buf@) == Some(e as int),
        ensures
            first_length(h) == Some(n as nat),
            header_end(buf@) == Some(e as int),
            e + 4 <= buf@.len(),
            h == buf@.subrange(0, e as int),
        decreases e - pos,
    {
        let le = find_line_end(buf, pos, e);
        let ghost rest = h.subrange(pos as int, e as int);
        assert(buf@.subrange(pos as int, e as int) =~= rest);
        assert(rest.subrange(0, le - pos) =~= buf@.subrange(pos as int, le as int));
        assert(line_end(rest) == le - pos);
        match length_of_line(buf, pos, le) {
            Ok(Some(v)) => {
                assert(first_length(rest) == Some(v as nat));
                n = v;
                break;
            },
            Err(()) => {
                assert(first_length(rest) == length_line(rest.subrange(0, le - pos)));
                return Err(FrameError::MissingLength);
            },
            Ok(None) => {
                if le >= e || e - le < 2 {
                    assert(first_length(rest) is None);
                    return Err(FrameError::MissingLength);
                }
                assert(first_length(rest) == first_length(rest.subrange(le - pos + 2, rest.len() as int)));
                assert(rest.subrange(le - pos + 2, rest.len() as int) =~= h.subrange(le + 2, e as int));
                pos = le + 2;
            },
        }
    }
    let total = buf.len();
    assert(e + 4 <= total);
    Ok(Frame { payload_start: e + 4, payload_len: n })
}

proof fn lemma_header_end_bounds(buf: Seq<u8>, from: int)
    ensures
        header_end_from(buf, from) matches Some(e) ==> 0 <= e && e + 4 <= buf.len(),
    decreases buf.len() - from,
{
    if !(from < 0 || from + 4 > buf.len()) && !blank_at(buf, from) {
        lemma_header_end_bounds(buf, from + 1);
    }
}

/// A run of digits spells at least what any prefix of it spells.
proof fn lemma_decimal_grows(s: Seq<u8>, k: int)
    requires
        0 <= k <= s.len(),
        forall|m: int| 0 <= m < s.len() ==> is_digit(#[trigger] s[m]),
    ensures
        decimal_value(s) >= decimal_value(s.subrange(0, k)),
    decreases s.len() - k,
{
    if k < s.len() {
        lemma_decimal_grows(s, k + 1);
        let p = s.subrange(0, k + 1);
        assert(p.drop_last() =~= s.subrange(0, k));
        assert(decimal_value(p) == decimal_value(s.subrange(0, k)) * 10 + (p.last() - 48) as nat);
    } else {
        assert(s.subrange(0, k) =~= s);
    }
}

/// The three kinds of protocol message.
#[derive(Debug, PartialEq, Eq, Structural, Clone, Copy)]
pub enum MessageKind {
    Request,
    Response,
    Notification,
}

/// Tells a decoded payload's kind from which of `id` and `method` it carries:
/// a request has both, a response only an id, a notification only a method.
pub fn classify(has_id: bool, has_method: bool) -> (r: Option<MessageKind>)
    ensures
        r == if has_id && has_method {
            Some(MessageKind::Request)
        } else if has_id {
            Some(MessageKind::Response)
        } else if has_method {
            Some(MessageKind::Notification)
        } else {
            None::<MessageKind>
        },
{
    if has_id && has_method {
        Some(MessageKind::Request)
    } else if has_id {
        Some(MessageKind::Response)
    } else if has_method {
        Some(MessageKind::Notification)
    } else {
        None
    }
}

/// Whether a notification's method is the one that ends the stream.
pub fn is_exit(method: &str) -> (r: bool)
    ensures
        r == (method@ == "exit"@),
{
    crate::text::str_eq(method, "exit")
}

} // verus!
