//! Framing codec for the streaming protocol body: each frame is a decimal
//! ASCII length line terminated by a newline, followed by exactly that many
//! payload bytes.
use vstd::prelude::*;

verus! {

/// Byte value of the line feed that terminates a length line.
pub const LINE_FEED: u8 = 10;

/// Byte value of an optional carriage return just before the line feed.
pub const CARRIAGE_RETURN: u8 = 13;

/// A decoding failure of the framing layer, or of the structural decoder
/// that consumes its frames.
#[derive(Clone, Copy, Debug, PartialEq, Eq, Structural)]
pub enum CodecError {
    /// The length line is missing or is not a plain decimal number.
    Framing,
    /// The input ended before the declared number of payload bytes arrived.
    Truncated,
    /// A complete frame's payload is not a valid message of the expected
    /// type. The framing layer never reports this: it belongs to whatever
    /// decodes the payloads it hands out.
    BadPayload,
}

pub open spec fn is_digit(b: u8) -> bool {
    48 <= b <= 57
}

pub open spec fn digit_val(b: u8) -> nat {
    (b - 48) as nat
}

pub open spec fn all_digits(s: Seq<u8>) -> bool {
    forall|i: int| 0 <= i < s.len() ==> is_digit(#[trigger] s[i])
}

/// Value of a string of decimal digits, most significant first.
pub open spec fn dec_value(s: Seq<u8>) -> nat
    decreases s.len(),
{
    if s.len() == 0 {
        0
    } else {
        dec_value(s.drop_last()) * 10 + digit_val(s.last())
    }
}

/// Shortest decimal digit string denoting `n`, most significant first.
pub open spec fn dec_digits(n: nat) -> Seq<u8>
    decreases n,
{
    if n < 10 {
        seq![(48 + n) as u8]
    } else {
        dec_digits(n / 10).push((48 + n % 10) as u8)
    }
}

/// The bytes of one encoded frame: length line, line feed, then the payload.
pub open spec fn frame_of(payload: Seq<u8>) -> Seq<u8> {
    dec_digits(payload.len()).push(LINE_FEED) + payload
}

/// Index of the first line feed at or after `pos`, or -1 when there is none.
pub open spec fn find_newline(s: Seq<u8>, pos: int) -> int
    decreases s.len() - pos,
{
    if pos < 0 || pos >= s.len() {
        -1
    } else if s[pos] == LINE_FEED {
        pos
    } else {
        find_newline(s, pos + 1)
    }
}

/// The length line between `pos` and the line feed at `j`, with an optional
/// trailing carriage return removed.
pub open spec fn line_content(s: Seq<u8>, pos: int, j: int) -> Seq<u8> {
    let raw = s.subrange(pos, j);
    if raw.len() > 0 && raw.last() == CARRIAGE_RETURN {
        raw.drop_last()
    } else {
        raw
    }
}

/// Outcome of decoding one frame, at the specification level.
pub enum SpecDecoded {
    /// A complete frame with this payload.
    Frame(Seq<u8>),
    /// A framing or truncation failure.
    Fail(CodecError),
    /// The input holds no complete frame yet and has not ended.
    NeedMore,
    /// The input ended cleanly on a frame boundary.
    End,
}

/// Outcome of decoding one frame.
#[derive(Debug)]
pub enum Decoded {
    /// A complete frame with this payload.
    Frame(Vec<u8>),
    /// A framing or truncation failure.
    Fail(CodecError),
    /// The input holds no complete frame yet and has not ended.
    NeedMore,
    /// The input ended cleanly on a frame boundary.
    End,
}

impl View for Decoded {
    type V = SpecDecoded;

    open spec fn view(&self) -> SpecDecoded {
        match self {
            Decoded::Frame(v) => SpecDecoded::Frame(v@),
            Decoded::Fail(e) => SpecDecoded::Fail(*e),
            Decoded::NeedMore => SpecDecoded::NeedMore,
            Decoded::End => SpecDecoded::End,
        }
    }
}

/// What decoding one frame from `s` at `pos` yields, together with the
/// position just past the consumed bytes. `eof` says whether `s` is all the
/// input there will ever be.
pub open spec fn spec_decode(s: Seq<u8>, pos: int, eof: bool) -> (SpecDecoded, int)
    recommends
        0 <= pos <= s.len(),
{
    let j = find_newline(s, pos);
    if j < 0 {
        if !eof {
            (SpecDecoded::NeedMore, pos)
        } else if pos == s.len() {
            (SpecDecoded::End, pos)
        } else {
            (SpecDecoded::Fail(CodecError::Framing), s.len() as int)
        }
    } else {
        let line = line_content(s, pos, j);
        if line.len() == 0 || !all_digits(line) || dec_value(line) > u64::MAX {
            (SpecDecoded::Fail(CodecError::Framing), j + 1)
        } else {
            let n = dec_value(line) as int;
            if j + 1 + n <= s.len() {
                (SpecDecoded::Frame(s.subrange(j + 1, j + 1 + n)), j + 1 + n)
            } else if !eof {
                (SpecDecoded::NeedMore, pos)
            } else {
                (SpecDecoded::Fail(CodecError::Truncated), s.len() as int)
            }
        }
    }
}

proof fn lemma_find_newline_at(s: Seq<u8>, pos: int, k: int)
    requires
        0 <= pos <= k < s.len(),
        s[k] == LINE_FEED,
        forall|i: int| pos <= i < k ==> s[i] != LINE_FEED,
    ensures
        find_newline(s, pos) == k,
    decreases k - pos,
{
    if pos < k {
        lemma_find_newline_at(s, pos + 1, k);
    }
}

proof fn lemma_find_newline_range(s: Seq<u8>, pos: int)
    requires
        0 <= pos <= s.len(),
    ensures
        find_newline(s, pos) == -1 || (pos <= find_newline(s, pos) < s.len() && s[find_newline(
            s,
            pos,
        )] == LINE_FEED),
    decreases s.len() - pos,
{
    if pos < s.len() && s[pos] != LINE_FEED {
        lemma_find_newline_range(s, pos + 1);
    }
}

/// The decimal rendering of `n` is a non-empty digit string that reads back
/// as `n`.
pub proof fn lemma_dec_digits_value(n: nat)
    ensures
        dec_value(dec_digits(n)) == n,
        all_digits(dec_digits(n)),
        dec_digits(n).len() >= 1,
    decreases n,
{
    if n < 10 {
        let d = dec_digits(n);
        assert(d =~= seq![(48 + n) as u8]);
        assert(d.drop_last() =~= Seq::<u8>::empty());
        assert(dec_value(Seq::<u8>::empty()) == 0);
        assert(dec_value(d) == n);
    } else {
        lemma_dec_digits_value(n / 10);
        let d1 = dec_digits(n / 10);
        let b = (48 + n % 10) as u8;
        let d2 = d1.push(b);
        assert(d2.drop_last() =~= d1);
        assert(d2.last() == b);
        assert(dec_value(d2) == dec_value(d1) * 10 + (n % 10));
        assert(n / 10 * 10 + n % 10 == n);
        assert forall|i: int| 0 <= i < d2.len() implies is_digit(#[trigger] d2[i]) by {
            if i < d1.len() {
                assert(d2[i] == d1[i]);
            } else {
                assert(d2[i] == b);
            }
        }
    }
}

/// The value of a digit string never falls when the string is extended to the
/// right.
proof fn lemma_dec_value_prefix(s: Seq<u8>, m: int)
    requires
        0 <= m <= s.len(),
    ensures
        dec_value(s.take(m)) <= dec_value(s),
    decreases s.len(),
{
    if m < s.len() {
        lemma_dec_value_prefix(s.drop_last(), m);
        assert(s.drop_last().take(m) =~= s.take(m));
    } else {
        assert(s.take(m) =~= s);
    }
}

/// The shortest decimal rendering of `n`, as exec bytes.
fn dec_digits_exec(n: u64) -> (r: Vec<u8>)
    ensures
        r@ == dec_digits(n as nat),
{
    let mut digits: Vec<u8> = Vec::new();
    if n < 10 {
        digits.push(48 + n as u8);
        assert(digits@ =~= dec_digits(n as nat));
    } else {
        let mut m: u64 = n;
        while m > 0
            invariant
                m > 0 ==> dec_digits(n as nat) =~= dec_digits(m as nat) + digits@,
                m == 0 ==> digits@ =~= dec_digits(n as nat),
            decreases m,
        {
            let d: u8 = 48 + (m % 10) as u8;
            proof {
                if m >= 10 {
                    assert(dec_digits(m as nat) =~= dec_digits((m / 10) as nat).push(d));
                    assert(dec_digits((m / 10) as nat) + digits@.insert(0, d) =~= dec_digits(
                        m as nat,
                    ) + digits@);
                } else {
                    assert(dec_digits(m as nat) =~= seq![d]);
                    assert(digits@.insert(0, d) =~= dec_digits(m as nat) + digits@);
                }
            }
            digits.insert(0, d);
            m = m / 10;
        }
    }
    digits
}

/// Encode `payload` as one frame: its decimal byte length, a line feed, then
/// the payload itself.
pub fn encode_frame(payload: &Vec<u8>) -> (r: Vec<u8>)
    ensures
        r@ == frame_of(payload@),
{
    let mut out = dec_digits_exec(payload.len() as u64);
    out.push(LINE_FEED);
    let mut i: usize = 0;
    while i < payload.len()
        invariant
            i <= payload@.len(),
            out@ =~= dec_digits(payload@.len()).push(LINE_FEED) + payload@.take(i as int),
        decreases payload@.len() - i,
    {
        out.push(payload[i]);
        proof {
            assert(payload@.take(i + 1) =~= payload@.take(i as int).push(payload@[i as int]));
        }
        i = i + 1;
    }
    proof {
        assert(payload@.take(payload@.len() as int) =~= payload@);
    }
    out
}

/// Decode one frame from `input` starting at `pos`. Returns the outcome and
/// the position just past the consumed bytes; `NeedMore` consumes nothing.
/// `eof` says whether `input` is all the input there will ever be.
pub fn decode_one(input: &Vec<u8>, pos: usize, eof: bool) -> (r: (Decoded, usize))
    requires
        pos <= input@.len(),
    ensures
        (r.0@, r.1 as int) == spec_decode(input@, pos as int, eof),
        pos <= r.1 <= input@.len(),
{
    let len = input.len();
    let mut j: usize = pos;
    while j < len && input[j] != LINE_FEED
        invariant
            pos <= j <= len,
            len == input@.len(),
            find_newline(input@, pos as int) == find_newline(input@, j as int),
        decreases len - j,
    {
        j = j + 1;
    }
    if j == len {
        // no complete length line in the buffer
        if !eof {
            return (Decoded::NeedMore, pos);
        } else if pos == len {
            return (Decoded::End, pos);
        } else {
            return (Decoded::Fail(CodecError::Framing), len);
        }
    }
    let ghost line = line_content(input@, pos as int, j as int);
    let lend: usize = if j > pos && input[j - 1] == CARRIAGE_RETURN {
        j - 1
    } else {
        j
    };
    proof {
        if j > pos && input@[j as int - 1] == CARRIAGE_RETURN {
            assert(input@.subrange(pos as int, j as int).drop_last() =~= input@.subrange(
                pos as int,
                j as int - 1,
            ));
        }
        assert(line =~= input@.subrange(pos as int, lend as int));
    }
    if lend == pos {
        // empty length line
        return (Decoded::Fail(CodecError::Framing), j + 1);
    }
    let mut acc: u64 = 0;
    let mut k: usize = pos;
    while k < lend
        invariant
            pos < lend <= j < len,
            pos <= k <= lend,
            len == input@.len(),
            find_newline(input@, pos as int) == j,
            line == line_content(input@, pos as int, j as int),
            line =~= input@.subrange(pos as int, lend as int),
            all_digits(line.take(k - pos)),
            acc == dec_value(line.take(k - pos)),
        decreases lend - k,
    {
        let b = input[k];
        proof {
            assert(line[k - pos] == input@[k as int]);
        }
        if b < 48 || b > 57 {
            // a non-digit in the length line
            proof {
                assert(!is_digit(line[k - pos]));
                assert(!all_digits(line));
            }
            return (Decoded::Fail(CodecError::Framing), j + 1);
        }
        let shifted = match acc.checked_mul(10) {
            Some(v) => v,
            None => {
                // the declared length does not even fit in 64 bits
                proof {
                    assert(line.take(k - pos + 1).drop_last() =~= line.take(k - pos));
                    assert(line.take(k - pos + 1).last() == line[k - pos]);
                    assert(dec_value(line.take(k - pos + 1)) > u64::MAX);
                    lemma_dec_value_prefix(line, k - pos + 1);
                }
                return (Decoded::Fail(CodecError::Framing), j + 1);
            },
        };
        let acc2 = match shifted.checked_add((b - 48) as u64) {
            Some(v) => v,
            None => {
                proof {
                    assert(line.take(k - pos + 1).drop_last() =~= line.take(k - pos));
                    assert(line.take(k - pos + 1).last() == line[k - pos]);
                    assert(dec_value(line.take(k - pos + 1)) > u64::MAX);
                    lemma_dec_value_prefix(line, k - pos + 1);
                }
                return (Decoded::Fail(CodecError::Framing), j + 1);
            },
        };
        proof {
            assert(line.take(k - pos + 1).drop_last() =~= line.take(k - pos));
            assert(line.take(k - pos + 1).last() == line[k - pos]);
        }
        acc = acc2;
        k = k + 1;
    }
    proof {
        assert(line.take(lend - pos) =~= line);
    }
    // acc holds the declared payload length
    let avail: usize = len - (j + 1);
    if acc <= avail as u64 {
        let n = acc as usize;
        proof {
            assert(spec_decode(input@, pos as int, eof) == (
                SpecDecoded::Frame(input@.subrange(j + 1, j + 1 + n)),
                j + 1 + n as int,
            ));
        }
        let mut payload: Vec<u8> = Vec::new();
        let mut t: usize = 0;
        while t < n
            invariant
                t <= n,
                j + 1 + n <= len == input@.len(),
                payload@ =~= input@.subrange(j + 1, j + 1 + t),
                spec_decode(input@, pos as int, eof) == (
                    SpecDecoded::Frame(input@.subrange(j + 1, j + 1 + n)),
                    j + 1 + n as int,
                ),
            decreases n - t,
        {
            payload.push(input[j + 1 + t]);
            proof {
                assert(input@.subrange(j + 1, j + 1 + t + 1) =~= input@.subrange(
                    j + 1,
                    j + 1 + t,
                ).push(input@[j + 1 + t]));
            }
            t = t + 1;
        }
        (Decoded::Frame(payload), j + 1 + n)
    } else if !eof {
        (Decoded::NeedMore, pos)
    } else {
        (Decoded::Fail(CodecError::Truncated), len)
    }
}

/// Round trip: an encoded frame placed in front of any further input decodes
/// to exactly its payload, and consumes exactly the frame's bytes. This holds
/// for every payload whose length fits the length line, the empty payload
/// included, whether or not the input has ended.
pub proof fn lemma_frame_round_trip(payload: Seq<u8>, rest: Seq<u8>, eof: bool)
    requires
        payload.len() <= u64::MAX,
    ensures
        spec_decode(frame_of(payload) + rest, 0, eof) == (
            SpecDecoded::Frame(payload),
            frame_of(payload).len() as int,
        ),
{
    lemma_dec_digits_value(payload.len());
    let d = dec_digits(payload.len());
    let s = frame_of(payload) + rest;
    let j = d.len() as int;
    assert(s[j] == LINE_FEED);
    assert forall|i: int| 0 <= i < j implies s[i] != LINE_FEED by {
        assert(s[i] == d[i]);
        assert(is_digit(d[i]));
    }
    lemma_find_newline_at(s, 0, j);
    assert(s.subrange(0, j) =~= d);
    assert(is_digit(d[j - 1]));
    assert(line_content(s, 0, j) == d);
    assert(dec_value(d) == payload.len());
    assert(j + 1 + payload.len() <= s.len());
    assert(s.subrange(j + 1, j + 1 + payload.len()) =~= payload);
}

/// Truncated input: a frame cut off anywhere after its length line but before
/// the end of its declared payload decodes, once the input has ended, to a
/// truncation failure that consumes the rest of the input - never to a frame.
pub proof fn lemma_truncated_input(payload: Seq<u8>, cut: int)
    requires
        payload.len() <= u64::MAX,
        dec_digits(payload.len()).len() + 1 <= cut < frame_of(payload).len(),
    ensures
        spec_decode(frame_of(payload).take(cut), 0, true) == (
            SpecDecoded::Fail(CodecError::Truncated),
            cut,
        ),
{
    lemma_dec_digits_value(payload.len());
    let d = dec_digits(payload.len());
    let s = frame_of(payload).take(cut);
    let j = d.len() as int;
    assert(s[j] == LINE_FEED);
    assert forall|i: int| 0 <= i < j implies s[i] != LINE_FEED by {
        assert(s[i] == d[i]);
        assert(is_digit(d[i]));
    }
    lemma_find_newline_at(s, 0, j);
    assert(s.subrange(0, j) =~= d);
    assert(is_digit(d[j - 1]));
    assert(line_content(s, 0, j) == d);
    assert(dec_value(d) == payload.len());
    assert(j + 1 + payload.len() > s.len());
}

/// A present but malformed length line (empty, non-decimal, or with a value
/// too large for 64 bits) yields a framing failure that consumes exactly the
/// bytes up to and including the line's line feed, and nothing further.
pub proof fn lemma_malformed_line(s: Seq<u8>, pos: int, eof: bool)
    requires
        0 <= pos <= s.len(),
        find_newline(s, pos) >= 0,
        ({
            let line = line_content(s, pos, find_newline(s, pos));
            line.len() == 0 || !all_digits(line) || dec_value(line) > u64::MAX
        }),
    ensures
        spec_decode(s, pos, eof) == (
            SpecDecoded::Fail(CodecError::Framing),
            find_newline(s, pos) + 1,
        ),
{
}

/// Either nothing of the input is consumed (more input is awaited, or the
/// input ended cleanly), or a frame or failure is produced and at least one
/// byte is consumed; what is consumed never passes the end of the input.
pub proof fn lemma_spec_decode_bounds(s: Seq<u8>, pos: int, eof: bool)
    requires
        0 <= pos <= s.len(),
    ensures
        ({
            let step = spec_decode(s, pos, eof);
            &&& pos <= step.1 <= s.len()
            &&& (step.0 is Frame || step.0 is Fail) ==> pos < step.1
            &&& (step.0 is NeedMore || step.0 is End) ==> step.1 == pos
        }),
{
    lemma_find_newline_range(s, pos);
}

/// Every frame and every failure that decoding the whole of `s` from `pos`
/// onward yields, in input order. Decoding stops at a clean end of input and
/// after a truncation failure, which consumes the rest of the input.
pub open spec fn spec_decode_all(s: Seq<u8>, pos: int) -> Seq<SpecDecoded>
    recommends
        0 <= pos <= s.len(),
    decreases s.len() - pos,
{
    let step = spec_decode(s, pos, true);
    if pos < step.1 <= s.len() {
        seq![step.0] + spec_decode_all(s, step.1)
    } else {
        if step.0 is End || step.0 is NeedMore {
            seq![]
        } else {
            seq![step.0]
        }
    }
}

/// Decode every frame of a complete input buffer. Each malformed frame
/// appears as its failure in place, and decoding continues with the very next
/// line: one bad frame never ends the stream of the frames after it.
pub fn decode_all(input: &Vec<u8>) -> (r: Vec<Decoded>)
    ensures
        r@.map_values(|d: Decoded| d@) == spec_decode_all(input@, 0),
{
    let mut out: Vec<Decoded> = Vec::new();
    let mut pos: usize = 0;
    let mut done = false;
    while !done
        invariant
            pos <= input@.len(),
            spec_decode_all(input@, 0) =~= out@.map_values(|d: Decoded| d@) + (if done {
                Seq::<SpecDecoded>::empty()
            } else {
                spec_decode_all(input@, pos as int)
            }),
        decreases input@.len() - pos + (if done {
            0int
        } else {
            1int
        }),
    {
        let step = decode_one(input, pos, true);
        proof {
            lemma_spec_decode_bounds(input@, pos as int, true);
        }
        match step.0 {
            Decoded::End | Decoded::NeedMore => {
                done = true;
            },
            d => {
                proof {
                    assert((out@.push(d)).map_values(|x: Decoded| x@) =~= out@.map_values(
                        |x: Decoded| x@,
                    ).push(d@));
                }
                out.push(d);
                pos = step.1;
            },
        }
    }
    proof {
        assert(out@.map_values(|d: Decoded| d@) + Seq::<SpecDecoded>::empty() =~= out@.map_values(
            |d: Decoded| d@,
        ));
    }
    out
}

/// Incremental frame decoder for a streaming connection: raw chunks go in as
/// they arrive, frames and failures come out one at a time.
pub struct FrameDecoder {
    buf: Vec<u8>,
}

impl View for FrameDecoder {
    type V = Seq<u8>;

    /// The bytes received and not yet consumed.
    closed spec fn view(&self) -> Seq<u8> {
        self.buf@
    }
}

impl FrameDecoder {
    /// A decoder with nothing buffered.
    pub fn new() -> (r: FrameDecoder)
        ensures
            r@ == Seq::<u8>::empty(),
    {
        FrameDecoder { buf: Vec::new() }
    }

    /// Buffer one chunk of the connection's bytes, as it arrived.
    pub fn push_chunk(&mut self, chunk: &[u8])
        ensures
            final (self)@ == old(self)@ + chunk@,
    {
        let mut i: usize = 0;
        while i < chunk.len()
            invariant
                i <= chunk@.len(),
                self.buf@ =~= old(self).buf@ + chunk@.take(i as int),
            decreases chunk@.len() - i,
        {
            self.buf.push(chunk[i]);
            proof {
                assert(chunk@.take(i + 1) =~= chunk@.take(i as int).push(chunk@[i as int]));
            }
            i = i + 1;
        }
        proof {
            assert(chunk@.take(chunk@.len() as int) =~= chunk@);
        }
    }

    /// Decode one frame from the buffered bytes, dropping exactly the
    /// consumed bytes; `NeedMore` leaves the buffer as it was. `eof` says
    /// whether the connection has ended.
    pub fn next_item(&mut self, eof: bool) -> (r: Decoded)
        ensures
            ({
                let step = spec_decode(old(self)@, 0, eof);
                r@ == step.0 && final (self)@ == old(self)@.skip(step.1)
            }),
    {
        let step = decode_one(&self.buf, 0, eof);
        let next = step.1;
        let mut rest: Vec<u8> = Vec::new();
        let mut i: usize = next;
        while i < self.buf.len()
            invariant
                next <= i <= self.buf@.len(),
                self.buf@ == old(self).buf@,
                rest@ =~= self.buf@.subrange(next as int, i as int),
            decreases self.buf@.len() - i,
        {
            rest.push(self.buf[i]);
            proof {
                assert(self.buf@.subrange(next as int, i + 1) =~= self.buf@.subrange(
                    next as int,
                    i as int,
                ).push(self.buf@[i as int]));
            }
            i = i + 1;
        }
        proof {
            assert(self.buf@.subrange(next as int, self.buf@.len() as int) =~= self.buf@.skip(
                next as int,
            ));
        }
        self.buf = rest;
        step.0
    }
}

} // verus!
