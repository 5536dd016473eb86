//! Incremental framing of one HTTP request out of a raw byte stream.
//!
//! Chunks read from the connection are appended to a growing buffer. The
//! request is complete once the buffer holds the header terminator
//! `\r\n\r\n` and at least as many bytes after it as the declared
//! `Content-Length` (absent or unparsable declarations count as zero).
//! Framing also stops once the buffer exceeds a hard cap, as a defense
//! against unbounded or malformed requests, and when the peer closes the
//! connection early.

use vstd::prelude::*;

use crate::text::{
    find_from, lemma_find_from_is, lines_of, lower_bytes, lower_eq, split_lines, trim, trimmed,
    CR, LF,
};

verus! {

/// Hard cap on the accumulated request size: framing stops once the buffer
/// exceeds this many bytes.
pub const MAX_REQUEST_BYTES: usize = 16384;

/// Upper bound on the size of one chunk read from the connection.
pub const READ_CHUNK_BYTES: usize = 8192;

/// The lower-case bytes of `content-length:`.
pub open spec fn cl_name() -> Seq<u8> {
    seq![99u8, 111u8, 110u8, 116u8, 101u8, 110u8, 116u8, 45u8, 108u8, 101u8, 110u8, 103u8, 116u8, 104u8, 58u8]
}

/// Whether the four-byte header terminator `\r\n\r\n` stands at index `i`.
pub open spec fn terminator_at(s: Seq<u8>, i: int) -> bool {
    &&& 0 <= i
    &&& i + 4 <= s.len()
    &&& s[i] == CR
    &&& s[i + 1] == LF
    &&& s[i + 2] == CR
    &&& s[i + 3] == LF
}

/// Index of the first header terminator at or after `i`, or `s.len()` when
/// there is none.
pub open spec fn term_from(s: Seq<u8>, i: int) -> int
    decreases s.len() - i,
    when 0 <= i <= s.len()
{
    if i + 4 > s.len() {
        s.len() as int
    } else if terminator_at(s, i) {
        i
    } else {
        term_from(s, i + 1)
    }
}

/// Index of the first header terminator, or `s.len()` when there is none.
pub open spec fn term_pos(s: Seq<u8>) -> int {
    term_from(s, 0)
}

/// `term_from` is the unique index satisfying the first-occurrence
/// characterization.
pub proof fn lemma_term_from_is(s: Seq<u8>, i: int, r: int)
    requires
        0 <= i <= r <= s.len(),
        forall|j: int| i <= j < r ==> !terminator_at(s, j),
        if r + 4 <= s.len() {
            terminator_at(s, r)
        } else {
            r == s.len()
        },
    ensures
        term_from(s, i) == r,
    decreases r - i,
{
    if i + 4 > s.len() {
        assert(r == s.len());
    } else if i < r {
        lemma_term_from_is(s, i + 1, r);
    }
}

pub open spec fn is_digit(b: u8) -> bool {
    48 <= b && b <= 57
}

/// The integer a big-endian decimal digit string denotes.
pub open spec fn dec_value(s: Seq<u8>) -> int
    decreases s.len(),
{
    if s.len() == 0 {
        0
    } else {
        dec_value(s.drop_last()) * 10 + (s.last() - 48)
    }
}

pub open spec fn digits_only(s: Seq<u8>) -> bool {
    s.len() > 0 && forall|i: int| 0 <= i < s.len() ==> is_digit(s[i])
}

/// The value a `Content-Length` text denotes: an optional leading `+`, then
/// decimal digits, fitting the machine word; anything else counts as zero.
pub open spec fn parsed_len(s: Seq<u8>) -> int {
    let d = if s.len() > 0 && s[0] == 43 {
        s.drop_first()
    } else {
        s
    };
    if digits_only(d) && dec_value(d) <= usize::MAX as int {
        dec_value(d)
    } else {
        0
    }
}

/// Whether a header line opens with a case-insensitive `content-length:`.
pub open spec fn is_cl_line(l: Seq<u8>) -> bool {
    l.len() >= 15 && lower_bytes(l.take(15)) == cl_name()
}

/// The first `Content-Length` line of the given header lines, if any.
pub open spec fn first_cl_line(ls: Seq<Seq<u8>>) -> Option<Seq<u8>>
    decreases ls.len(),
{
    if ls.len() == 0 {
        Option::None
    } else if is_cl_line(ls[0]) {
        Option::Some(ls[0])
    } else {
        first_cl_line(ls.drop_first())
    }
}

pub proof fn lemma_first_cl_line_is(ls: Seq<Seq<u8>>, k: int)
    requires
        0 <= k <= ls.len(),
        forall|j: int| 0 <= j < k ==> !is_cl_line(ls[j]),
        k < ls.len() ==> is_cl_line(ls[k]),
    ensures
        first_cl_line(ls) == if k < ls.len() {
            Option::Some(ls[k])
        } else {
            Option::None::<Seq<u8>>
        },
    decreases ls.len(),
{
    if ls.len() > 0 && !is_cl_line(ls[0]) {
        lemma_first_cl_line_is(ls.drop_first(), k - 1);
    }
}

/// The raw value text of a `Content-Length` line: the bytes after the first
/// colon, up to the next colon or the end of the line.
pub open spec fn cl_value_of(l: Seq<u8>) -> Seq<u8> {
    l.subrange(15, find_from(l, 58, 15))
}

/// The body length a buffered request declares: the first `Content-Length`
/// header line preceding the terminator, its value trimmed and parsed; zero
/// when absent or unparsable.
pub open spec fn content_length_of(s: Seq<u8>) -> int {
    match first_cl_line(lines_of(s.take(term_pos(s)))) {
        Option::None => 0,
        Option::Some(l) => parsed_len(trimmed(cl_value_of(l))),
    }
}

/// Whether the buffer holds one complete request: the header terminator plus
/// at least the declared body length after it.
pub open spec fn request_complete(s: Seq<u8>) -> bool {
    term_pos(s) + 4 <= s.len() && s.len() - (term_pos(s) + 4) >= content_length_of(s)
}

/// Whether framing stops on this buffer: the request is complete, or the
/// buffer has passed the hard cap.
pub open spec fn framing_done(s: Seq<u8>) -> bool {
    request_complete(s) || s.len() > MAX_REQUEST_BYTES
}

/// Per-connection reader state: the bytes accumulated so far, and whether
/// the peer has closed the stream.
pub struct RequestFramer {
    buf: Vec<u8>,
    eof: bool,
}

impl RequestFramer {
    /// The bytes accumulated so far.
    pub closed spec fn bytes(self) -> Seq<u8> {
        self.buf@
    }

    pub closed spec fn saw_eof(self) -> bool {
        self.eof
    }

    /// Whether framing has finished: the peer closed, the request is
    /// complete, or the cap was passed.
    pub open spec fn done(self) -> bool {
        self.saw_eof() || framing_done(self.bytes())
    }

    /// The buffer can exceed the cap only by the final chunk.
    pub open spec fn wf(self) -> bool {
        self.bytes().len() <= MAX_REQUEST_BYTES + READ_CHUNK_BYTES
    }

    pub fn new() -> (f: RequestFramer)
        ensures
            f.bytes() == Seq::<u8>::empty(),
            !f.saw_eof(),
            f.wf(),
            !f.done(),
    {
        let f = RequestFramer { buf: Vec::new(), eof: false };
        proof {
            assert(term_from(f.buf@, 0) == 0);
            assert(!request_complete(f.buf@));
        }
        f
    }

    /// Appends one chunk read from the connection and reports whether
    /// framing is finished.
    pub fn push_chunk(&mut self, chunk: &[u8]) -> (done: bool)
        requires
            !old(self).done(),
            old(self).wf(),
            chunk@.len() <= READ_CHUNK_BYTES,
        ensures
            final(self).bytes() == old(self).bytes() + chunk@,
            final(self).saw_eof() == old(self).saw_eof(),
            final(self).wf(),
            done == final(self).done(),
    {
        self.buf.extend_from_slice(chunk);
        let complete = is_request_complete(&self.buf);
        complete || self.buf.len() > MAX_REQUEST_BYTES
    }

    /// Records that the peer closed the stream: whatever has accumulated is
    /// the whole request.
    pub fn note_eof(&mut self)
        ensures
            final(self).bytes() == old(self).bytes(),
            final(self).saw_eof(),
            final(self).done(),
            final(self).wf() == old(self).wf(),
    {
        self.eof = true;
    }

    pub fn is_done(&self) -> (r: bool)
        requires
            self.wf(),
        ensures
            r == self.done(),
    {
        if self.eof {
            true
        } else {
            let complete = is_request_complete(&self.buf);
            complete || self.buf.len() > MAX_REQUEST_BYTES
        }
    }

    /// Hands out the accumulated request bytes.
    pub fn into_bytes(self) -> (r: Vec<u8>)
        ensures
            r@ == self.bytes(),
    {
        self.buf
    }
}

/// Law: the cap bounds what the framer reads. While more input is awaited
/// the buffer holds at most `MAX_REQUEST_BYTES` bytes, so however long a
/// stream runs without ever producing the header terminator, a well-formed
/// framer's buffer never exceeds the cap by more than one read chunk.
pub proof fn lemma_cap_bounds_buffer(f: RequestFramer)
    requires
        f.wf(),
    ensures
        !f.done() ==> f.bytes().len() <= MAX_REQUEST_BYTES,
        f.bytes().len() <= MAX_REQUEST_BYTES + READ_CHUNK_BYTES,
{
}

/// Law: framing completes exactly when the buffer holds the header block
/// plus at least the declared body length; a shorter buffer with the same
/// headers is still awaited.
pub proof fn lemma_completion_boundary(s: Seq<u8>)
    requires
        term_pos(s) + 4 <= s.len(),
    ensures
        request_complete(s) <==> s.len() >= term_pos(s) + 4 + content_length_of(s),
{
}

fn find_terminator(buf: &Vec<u8>) -> (r: Option<usize>)
    requires
        buf@.len() + 4 <= usize::MAX,
    ensures
        match r {
            Option::Some(p) => p == term_pos(buf@) && p + 4 <= buf@.len(),
            Option::None => term_pos(buf@) == buf@.len(),
        },
{
    let n = buf.len();
    let mut i: usize = 0;
    while i + 4 <= n
        invariant
            i <= n == buf@.len(),
            n + 4 <= usize::MAX,
            forall|j: int| 0 <= j < i ==> !terminator_at(buf@, j),
        decreases n - i,
    {
        if buf[i] == CR && buf[i + 1] == LF && buf[i + 2] == CR && buf[i + 3] == LF {
            proof {
                lemma_term_from_is(buf@, 0, i as int);
            }
            return Option::Some(i);
        }
        proof {
            assert(!terminator_at(buf@, i as int));
        }
        i = i + 1;
    }
    proof {
        assert forall|j: int| 0 <= j < buf@.len() implies !terminator_at(buf@, j) by {
            if j < i {
            } else {
                assert(j + 4 > buf@.len());
            }
        }
        lemma_term_from_is(buf@, 0, buf@.len() as int);
    }
    Option::None
}

fn cl_name_vec() -> (v: Vec<u8>)
    ensures
        v@ == cl_name(),
{
    let mut v: Vec<u8> = Vec::new();
    v.push(99);
    v.push(111);
    v.push(110);
    v.push(116);
    v.push(101);
    v.push(110);
    v.push(116);
    v.push(45);
    v.push(108);
    v.push(101);
    v.push(110);
    v.push(103);
    v.push(116);
    v.push(104);
    v.push(58);
    proof {
        assert(v@ =~= cl_name());
    }
    v
}

fn is_cl_line_exec(l: &Vec<u8>) -> (r: bool)
    ensures
        r == is_cl_line(l@),
{
    if l.len() < 15 {
        return false;
    }
    let name = cl_name_vec();
    let head = vstd::slice::slice_subrange(l.as_slice(), 0, 15);
    let r = lower_eq(head, name.as_slice());
    proof {
        assert(head@ =~= l@.take(15));
        assert(lower_bytes(cl_name()) =~= cl_name());
    }
    r
}

proof fn lemma_dec_take_step(d: Seq<u8>, m: int)
    requires
        0 <= m < d.len(),
    ensures
        dec_value(d.take(m + 1)) == dec_value(d.take(m)) * 10 + (d[m] - 48),
{
    assert(d.take(m + 1).drop_last() =~= d.take(m));
    assert(d.take(m + 1).last() == d[m]);
}

proof fn lemma_dec_nonneg(d: Seq<u8>)
    requires
        forall|i: int| 0 <= i < d.len() ==> is_digit(d[i]),
    ensures
        dec_value(d) >= 0,
    decreases d.len(),
{
    if d.len() > 0 {
        lemma_dec_nonneg(d.drop_last());
    }
}

proof fn lemma_dec_prefix_le(d: Seq<u8>, k: int)
    requires
        digits_only(d),
        0 <= k <= d.len(),
    ensures
        dec_value(d.take(k)) <= dec_value(d),
    decreases d.len() - k,
{
    if k == d.len() {
        assert(d.take(k) =~= d);
    } else {
        lemma_dec_take_step(d, k);
        assert(forall|i: int| 0 <= i < d.take(k).len() ==> is_digit(d.take(k)[i]));
        lemma_dec_nonneg(d.take(k));
        lemma_dec_prefix_le(d, k + 1);
    }
}

fn parse_decimal(s: &[u8]) -> (n: usize)
    ensures
        n as int == parsed_len(s@),
{
    let len = s.len();
    let start: usize = if len > 0 && s[0] == 43 {
        1
    } else {
        0
    };
    let ghost d = if s@.len() > 0 && s@[0] == 43 {
        s@.drop_first()
    } else {
        s@
    };
    proof {
        assert(d =~= s@.subrange(start as int, len as int));
    }
    if start == len {
        proof {
            assert(!digits_only(d));
        }
        return 0;
    }
    let mut acc: usize = 0;
    let mut i: usize = start;
    proof {
        assert(d.take(0) =~= Seq::<u8>::empty());
    }
    while i < len
        invariant
            start <= i <= len == s@.len(),
            start <= 1,
            d == s@.subrange(start as int, len as int),
            d == (if s@.len() > 0 && s@[0] == 43 {
                s@.drop_first()
            } else {
                s@
            }),
            forall|j: int| start <= j < i ==> is_digit(s@[j]),
            acc as int == dec_value(d.take(i - start)),
        decreases len - i,
    {
        let b = s[i];
        let ghost m = i - start;
        proof {
            assert(d[m] == s@[i as int]);
        }
        if !(48 <= b && b <= 57) {
            proof {
                assert(!is_digit(d[m]));
                assert(!digits_only(d));
            }
            return 0;
        }
        let dd: usize = (b - 48) as usize;
        proof {
            lemma_dec_take_step(d, m);
            vstd::arithmetic::div_mod::lemma_fundamental_div_mod(usize::MAX as int, 10);
        }
        if acc > usize::MAX / 10 {
            proof {
                assert(dec_value(d.take(m + 1)) > usize::MAX as int);
                if digits_only(d) {
                    lemma_dec_prefix_le(d, m + 1);
                }
            }
            return 0;
        }
        let acc10 = acc * 10;
        if dd > usize::MAX - acc10 {
            proof {
                assert(dec_value(d.take(m + 1)) > usize::MAX as int);
                if digits_only(d) {
                    lemma_dec_prefix_le(d, m + 1);
                }
            }
            return 0;
        }
        acc = acc10 + dd;
        i = i + 1;
    }
    proof {
        assert(d.take((len - start) as int) =~= d);
        assert forall|j: int| 0 <= j < d.len() implies is_digit(d[j]) by {
            assert(d[j] == s@[j + start]);
        }
        assert(digits_only(d));
    }
    acc
}

fn content_length_at(buf: &Vec<u8>, p: usize) -> (n: usize)
    requires
        p == term_pos(buf@),
        p + 4 <= buf@.len(),
    ensures
        n as int == content_length_of(buf@),
{
    let lines = split_lines(buf.as_slice(), p);
    let ghost ls = lines_of(buf@.take(p as int));
    let n_lines = lines.len();
    let mut k: usize = 0;
    while k < n_lines
        invariant
            k <= n_lines == lines@.len(),
            lines.deep_view() == ls,
            p == term_pos(buf@),
            p + 4 <= buf@.len(),
            ls == lines_of(buf@.take(p as int)),
            forall|j: int| 0 <= j < k ==> !is_cl_line(ls[j]),
        decreases n_lines - k,
    {
        let line = &lines[k];
        proof {
            assert(line.deep_view() =~= line@);
            assert(ls[k as int] == line@);
        }
        if is_cl_line_exec(line) {
            let e = find_byte_line(line);
            let val = vstd::slice::slice_subrange(line.as_slice(), 15, e);
            let t = trim(val);
            let n = parse_decimal(t.as_slice());
            proof {
                lemma_first_cl_line_is(ls, k as int);
                assert(val@ == cl_value_of(line@));
            }
            return n;
        }
        k = k + 1;
    }
    proof {
        lemma_first_cl_line_is(ls, ls.len() as int);
    }
    0
}

/// The end of the value segment of a `Content-Length` line: the next colon
/// after the name, or the end of the line.
fn find_byte_line(line: &Vec<u8>) -> (e: usize)
    requires
        is_cl_line(line@),
    ensures
        e == find_from(line@, 58, 15),
        15 <= e <= line@.len(),
{
    let e = crate::text::find_byte(line.as_slice(), 58, 15, line.len());
    proof {
        assert(line@.take(line@.len() as int) =~= line@);
    }
    e
}

fn is_request_complete(buf: &Vec<u8>) -> (r: bool)
    requires
        buf@.len() + 4 <= usize::MAX,
    ensures
        r == request_complete(buf@),
{
    match find_terminator(buf) {
        Option::None => false,
        Option::Some(p) => {
            let cl = content_length_at(buf, p);
            buf.len() - (p + 4) >= cl
        },
    }
}

} // verus!
