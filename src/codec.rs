//! The local line protocol: `<method> <appname>\n`, one request per line.

use bytes::BytesMut;
use vstd::prelude::*;
use vstd::utf8::*;

verus! {

/// The byte that ends a request line.
pub const NEWLINE: u8 = 10;

/// The byte that separates the two fields of a request line.
pub const SPACE: u8 = 32;

/// A request read from one line: the method asked for and the application
/// that asks.
#[derive(Debug, Clone, PartialEq, Eq)]
pub struct VerifyRequest {
    pub method: String,
    pub appname: String,
}

/// The contents of a request, as text.
pub struct RequestView {
    pub method: Seq<char>,
    pub appname: Seq<char>,
}

impl View for VerifyRequest {
    type V = RequestView;

    open spec fn view(&self) -> RequestView {
        RequestView { method: self.method@, appname: self.appname@ }
    }
}

/// Why a line was refused. Either way the connection is given up.
#[derive(Debug, Clone, Copy, PartialEq, Eq, Structural)]
pub enum ProtocolError {
    /// The line is not UTF-8.
    InvalidUtf8,
    /// The line does not split into exactly two fields on a space.
    FieldCount,
}

/// `i` is the one and only space in `line`.
pub open spec fn single_space_at(line: Seq<u8>, i: int) -> bool {
    &&& 0 <= i < line.len()
    &&& line[i] == SPACE
    &&& forall|j: int| 0 <= j < line.len() && j != i ==> line[j] != SPACE
}

/// What one line (without its newline) reads as.
pub open spec fn parse_line_spec(line: Seq<u8>) -> Result<RequestView, ProtocolError> {
    if !valid_utf8(line) {
        Err(ProtocolError::InvalidUtf8)
    } else if exists|i: int| single_space_at(line, i) {
        let i = choose|i: int| single_space_at(line, i);
        Ok(
            RequestView {
                method: decode_utf8(line.subrange(0, i)),
                appname: decode_utf8(line.subrange(i + 1, line.len() as int)),
            },
        )
    } else {
        Err(ProtocolError::FieldCount)
    }
}

/// The view of a parse result.
pub open spec fn parsed_view(r: Result<VerifyRequest, ProtocolError>) -> Result<
    RequestView,
    ProtocolError,
> {
    match r {
        Ok(q) => Ok(q@),
        Err(e) => Err(e),
    }
}

/// Relies on `String::from_utf8`: the text that the bytes encode, or nothing
/// where they are not UTF-8.
#[verifier::external_body]
fn decode_text(bytes: Vec<u8>) -> (r: Option<String>)
    ensures
        r is Some <==> valid_utf8(bytes@),
        r matches Some(s) ==> s@ == decode_utf8(bytes@),
{
    String::from_utf8(bytes).ok()
}

/// The bytes of `line` from `lo` up to `hi`, as a vector.
fn copy_range(line: &[u8], lo: usize, hi: usize) -> (r: Vec<u8>)
    requires
        lo <= hi <= line@.len(),
    ensures
        r@ == line@.subrange(lo as int, hi as int),
{
    let mut r: Vec<u8> = Vec::new();
    let mut i: usize = lo;
    while i < hi
        invariant
            lo <= i <= hi <= line@.len(),
            r@ == line@.subrange(lo as int, i as int),
        decreases hi - i,
    {
        r.push(line[i]);
        i = i + 1;
    }
    r
}

/// A byte sequence made of one ASCII byte is UTF-8.
proof fn lemma_ascii_byte_valid(b: u8)
    requires
        b < 128,
    ensures
        valid_utf8(seq![b]),
{
    reveal_with_fuel(valid_utf8, 2);
    assert(pop_first_scalar(seq![b]) =~= Seq::<u8>::empty());
}

/// Cutting a UTF-8 line around an ASCII byte leaves two UTF-8 pieces.
proof fn lemma_split_around_ascii(line: Seq<u8>, i: int)
    requires
        valid_utf8(line),
        0 <= i < line.len(),
        line[i] < 128,
    ensures
        valid_utf8(line.subrange(0, i)),
        valid_utf8(line.subrange(i + 1, line.len() as int)),
{
    is_char_boundary_iff_not_is_continuation_byte(line, i);
    valid_utf8_split(line, i);
    let rest = line.subrange(i, line.len() as int);
    assert(rest[0] == line[i]);
    reveal_with_fuel(is_char_boundary, 2);
    assert(length_of_first_scalar(rest) == 1);
    assert(is_char_boundary(rest, 1));
    valid_utf8_split(rest, 1);
    assert(rest.subrange(1, rest.len() as int) =~= line.subrange(i + 1, line.len() as int));
}

/// Reads one request line, given without its newline.
pub fn parse_line(line: &[u8]) -> (r: Result<VerifyRequest, ProtocolError>)
    ensures
        parsed_view(r) == parse_line_spec(line@),
{
    let n = line.len();
    let whole = copy_range(line, 0, n);
    assert(line@.subrange(0, n as int) =~= line@);
    let text = decode_text(whole);
    if text.is_none() {
        return Err(ProtocolError::InvalidUtf8);
    }
    let mut count: usize = 0;
    let mut pos: usize = 0;
    let mut second: usize = 0;
    let mut i: usize = 0;
    while i < n
        invariant
            n == line@.len(),
            0 <= i <= n,
            count <= 2,
            count == 0 ==> forall|j: int| 0 <= j < i ==> line@[j] != SPACE,
            count >= 1 ==> pos < i && line@[pos as int] == SPACE,
            count == 1 ==> forall|j: int| 0 <= j < i && j != pos ==> line@[j] != SPACE,
            count == 2 ==> second < i && second != pos && line@[second as int] == SPACE,
        decreases n - i,
    {
        if line[i] == SPACE {
            if count == 0 {
                pos = i;
                count = 1;
            } else if count == 1 {
                second = i;
                count = 2;
            }
        }
        i = i + 1;
    }
    if count != 1 {
        assert(!exists|k: int| single_space_at(line@, k)) by {
            if count == 2 {
                assert(forall|k: int| single_space_at(line@, k) ==> k == pos && k == second);
            }
        }
        return Err(ProtocolError::FieldCount);
    }
    assert(single_space_at(line@, pos as int));
    proof {
        lemma_split_around_ascii(line@, pos as int);
    }
    let method = decode_text(copy_range(line, 0, pos));
    let appname = decode_text(copy_range(line, pos + 1, n));
    match (method, appname) {
        (Some(method), Some(appname)) => Ok(VerifyRequest { method, appname }),
        _ => Err(ProtocolError::InvalidUtf8),
    }
}

#[verifier::external_type_specification]
#[verifier::external_body]
pub struct ExBytesMut(BytesMut);

/// The bytes that a buffer holds.
pub uninterp spec fn buffered(b: BytesMut) -> Seq<u8>;

/// Relies on `BytesMut::new`: a buffer that holds nothing.
#[verifier::external_body]
fn buffer_new() -> (r: BytesMut)
    ensures
        buffered(r) == Seq::<u8>::empty(),
{
    BytesMut::new()
}

/// Relies on `BytesMut::extend_from_slice`: the bytes are appended at the end.
#[verifier::external_body]
fn buffer_extend(b: &mut BytesMut, bytes: &[u8])
    requires
        buffered(*old(b)).len() + bytes@.len() <= isize::MAX,
    ensures
        buffered(*final(b)) == buffered(*old(b)) + bytes@,
{
    b.extend_from_slice(bytes)
}

/// Relies on `BytesMut::split_to`: the first `at` bytes leave the buffer and
/// are returned.
#[verifier::external_body]
fn buffer_split_to(b: &mut BytesMut, at: usize) -> (r: BytesMut)
    requires
        at <= buffered(*old(b)).len(),
    ensures
        buffered(r) == buffered(*old(b)).subrange(0, at as int),
        buffered(*final(b)) == buffered(*old(b)).subrange(at as int, buffered(*old(b)).len() as int),
{
    b.split_to(at)
}

/// Relies on `BytesMut`'s `Deref` to `[u8]`: the bytes held, as a slice.
#[verifier::external_body]
fn buffer_bytes(b: &BytesMut) -> (r: &[u8])
    ensures
        r@ == buffered(*b),
{
    b
}

/// `p` is the position of the first newline in `s`.
pub open spec fn first_newline_at(s: Seq<u8>, p: int) -> bool {
    &&& 0 <= p < s.len()
    &&& s[p] == NEWLINE
    &&& forall|j: int| 0 <= j < p ==> s[j] != NEWLINE
}

/// `s` holds a complete line.
pub open spec fn has_line(s: Seq<u8>) -> bool {
    exists|p: int| first_newline_at(s, p)
}

/// The position of the first newline, where there is one.
pub open spec fn line_end(s: Seq<u8>) -> int {
    choose|p: int| first_newline_at(s, p)
}

/// What one poll of the framer yields.
#[derive(Debug, Clone, PartialEq, Eq)]
pub enum FramePoll {
    /// A complete request.
    Ready(VerifyRequest),
    /// No complete line yet: wait for more bytes.
    NotReady,
    /// The stream has ended and no complete line is left.
    Done,
}

/// The view of what one poll yields.
pub enum FramePollView {
    Ready(RequestView),
    NotReady,
    Done,
}

pub open spec fn poll_view(r: Result<FramePoll, ProtocolError>) -> Result<FramePollView, ProtocolError> {
    match r {
        Ok(FramePoll::Ready(q)) => Ok(FramePollView::Ready(q@)),
        Ok(FramePoll::NotReady) => Ok(FramePollView::NotReady),
        Ok(FramePoll::Done) => Ok(FramePollView::Done),
        Err(e) => Err(e),
    }
}

/// One poll on buffered bytes `s`: what is yielded and what stays buffered.
pub open spec fn poll_spec(s: Seq<u8>, closed: bool) -> (Result<FramePollView, ProtocolError>, Seq<u8>) {
    if has_line(s) {
        let p = line_end(s);
        let rest = s.subrange(p + 1, s.len() as int);
        match parse_line_spec(s.subrange(0, p)) {
            Ok(q) => (Ok(FramePollView::Ready(q)), rest),
            Err(e) => (Err(e), rest),
        }
    } else if closed {
        (Ok(FramePollView::Done), s)
    } else {
        (Ok(FramePollView::NotReady), s)
    }
}

/// Turns the bytes read from one connection into requests.
pub struct Frames {
    rd: BytesMut,
}

impl View for Frames {
    type V = Seq<u8>;

    closed spec fn view(&self) -> Seq<u8> {
        buffered(self.rd)
    }
}

impl Frames {
    /// A framer that has read nothing yet.
    pub fn new() -> (r: Frames)
        ensures
            r@ == Seq::<u8>::empty(),
    {
        Frames { rd: buffer_new() }
    }

    /// How many bytes wait in the buffer.
    pub fn len(&self) -> (r: usize)
        ensures
            r == self@.len(),
    {
        buffer_bytes(&self.rd).len()
    }

    /// Takes in bytes just read from the connection, in any chunk size.
    pub fn read_off(&mut self, bytes: &[u8])
        requires
            old(self)@.len() + bytes@.len() <= isize::MAX,
        ensures
            final(self)@ == old(self)@ + bytes@,
    {
        buffer_extend(&mut self.rd, bytes);
    }

    /// Yields the next complete request line, if any. `closed` says that
    /// the connection has no more bytes to give: a partial line left then
    /// is dropped, and the stream is done.
    pub fn poll(&mut self, closed: bool) -> (r: Result<FramePoll, ProtocolError>)
        ensures
            (poll_view(r), final(self)@) == poll_spec(old(self)@, closed),
    {
        let data = buffer_bytes(&self.rd);
        let n = data.len();
        let mut i: usize = 0;
        while i < n
            invariant
                n == data@.len(),
                data@ == self@,
                self@ == old(self)@,
                0 <= i <= n,
                forall|j: int| 0 <= j < i ==> data@[j] != NEWLINE,
            ensures
                0 <= i <= n,
                i < n ==> data@[i as int] == NEWLINE,
                forall|j: int| 0 <= j < i ==> data@[j] != NEWLINE,
            decreases n - i,
        {
            if data[i] == NEWLINE {
                break;
            }
            i = i + 1;
        }
        if i == n {
            assert(!has_line(old(self)@));
            if closed {
                return Ok(FramePoll::Done);
            } else {
                return Ok(FramePoll::NotReady);
            }
        }
        assert(first_newline_at(old(self)@, i as int));
        let line = buffer_split_to(&mut self.rd, i);
        let _newline = buffer_split_to(&mut self.rd, 1);
        assert(self@ =~= old(self)@.subrange(i + 1, old(self)@.len() as int));
        let r = parse_line(buffer_bytes(&line));
        match r {
            Ok(q) => Ok(FramePoll::Ready(q)),
            Err(e) => Err(e),
        }
    }
}

/// The bytes buffered after `read_off` was called with each chunk in turn.
pub open spec fn read_all(s: Seq<u8>, chunks: Seq<Seq<u8>>) -> Seq<u8>
    decreases chunks.len(),
{
    if chunks.len() == 0 {
        s
    } else {
        read_all(s + chunks[0], chunks.drop_first())
    }
}

/// What the framer holds depends on the bytes read, not on how they were
/// cut into chunks.
pub proof fn lemma_read_all_is_concat(s: Seq<u8>, chunks: Seq<Seq<u8>>)
    ensures
        read_all(s, chunks) == s + chunks.flatten(),
    decreases chunks.len(),
{
    if chunks.len() > 0 {
        lemma_read_all_is_concat(s + chunks[0], chunks.drop_first());
        assert(s + chunks[0] + chunks.drop_first().flatten() =~= s + chunks.flatten());
    }
}

/// A line with no newline in it, then a newline, then anything.
proof fn lemma_first_line(s: Seq<u8>, rest: Seq<u8>)
    requires
        forall|j: int| 0 <= j < s.len() ==> s[j] != NEWLINE,
    ensures
        has_line(s + seq![NEWLINE] + rest),
        line_end(s + seq![NEWLINE] + rest) == s.len(),
        (s + seq![NEWLINE] + rest).subrange(0, s.len() as int) == s,
        (s + seq![NEWLINE] + rest).subrange(s.len() as int + 1, (s + seq![NEWLINE] + rest).len() as int)
            == rest,
{
    let t = s + seq![NEWLINE] + rest;
    assert(first_newline_at(t, s.len() as int));
    let p = line_end(t);
    if p != s.len() {
        assert(first_newline_at(t, p));
    }
    assert(t.subrange(0, s.len() as int) =~= s);
    assert(t.subrange(s.len() as int + 1, t.len() as int) =~= rest);
}

/// Bytes with no newline yield nothing: the framer waits and keeps them.
/// Once a newline follows, exactly those bytes are read as one line, and
/// only what came after the newline stays.
pub proof fn lemma_waits_for_newline(s: Seq<u8>, rest: Seq<u8>, closed: bool)
    requires
        forall|j: int| 0 <= j < s.len() ==> s[j] != NEWLINE,
    ensures
        poll_spec(s, false) == (Ok::<FramePollView, ProtocolError>(FramePollView::NotReady), s),
        poll_spec(s + seq![NEWLINE] + rest, closed).1 == rest,
        poll_spec(s + seq![NEWLINE] + rest, closed).0 == match parse_line_spec(s) {
            Ok(q) => Ok(FramePollView::Ready(q)),
            Err(e) => Err(e),
        },
{
    assert(!has_line(s)) by {
        if has_line(s) {
            assert(first_newline_at(s, line_end(s)));
        }
    }
    lemma_first_line(s, rest);
}

/// A line that is not UTF-8 fails the connection and yields no request.
pub proof fn lemma_invalid_line_fails(s: Seq<u8>, rest: Seq<u8>, closed: bool)
    requires
        forall|j: int| 0 <= j < s.len() ==> s[j] != NEWLINE,
        !valid_utf8(s),
    ensures
        poll_spec(s + seq![NEWLINE] + rest, closed).0 == Err::<FramePollView, ProtocolError>(
            ProtocolError::InvalidUtf8,
        ),
{
    lemma_first_line(s, rest);
}

/// A well-formed line `<method> <appname>\n` is read as exactly that
/// request, once, however its bytes were cut into chunks: nothing is left
/// buffered after it.
pub proof fn lemma_valid_line_any_chunking(
    chunks: Seq<Seq<u8>>,
    method: Seq<u8>,
    appname: Seq<u8>,
    closed: bool,
)
    requires
        valid_utf8(method),
        valid_utf8(appname),
        forall|j: int| 0 <= j < method.len() ==> method[j] != SPACE && method[j] != NEWLINE,
        forall|j: int| 0 <= j < appname.len() ==> appname[j] != SPACE && appname[j] != NEWLINE,
        chunks.flatten() == method + seq![SPACE] + appname + seq![NEWLINE],
    ensures
        poll_spec(read_all(Seq::empty(), chunks), closed) == (
            Ok::<FramePollView, ProtocolError>(
                FramePollView::Ready(
                    RequestView { method: decode_utf8(method), appname: decode_utf8(appname) },
                ),
            ),
            Seq::<u8>::empty(),
        ),
        poll_spec(Seq::empty(), closed).0 != Ok::<FramePollView, ProtocolError>(
            FramePollView::Ready(
                RequestView { method: decode_utf8(method), appname: decode_utf8(appname) },
            ),
        ),
{
    lemma_read_all_is_concat(Seq::empty(), chunks);
    let line = method + seq![SPACE] + appname;
    let all = line + seq![NEWLINE];
    assert(read_all(Seq::empty(), chunks) =~= all + Seq::<u8>::empty());
    assert forall|j: int| 0 <= j < line.len() implies line[j] != NEWLINE by {
        if j < method.len() {
        } else if j > method.len() {
            assert(line[j] == appname[j - method.len() - 1]);
        }
    }
    lemma_first_line(line, Seq::empty());
    lemma_ascii_byte_valid(SPACE);
    valid_utf8_concat(method, seq![SPACE]);
    valid_utf8_concat(method + seq![SPACE], appname);
    let i = method.len() as int;
    assert(single_space_at(line, i)) by {
        assert forall|j: int| 0 <= j < line.len() && j != i implies line[j] != SPACE by {
            if j < i {
            } else {
                assert(line[j] == appname[j - i - 1]);
            }
        }
    }
    let k = choose|k: int| single_space_at(line, k);
    assert(k == i);
    assert(line.subrange(0, i) =~= method);
    assert(line.subrange(i + 1, line.len() as int) =~= appname);
    assert(!has_line(Seq::<u8>::empty()));
}

} // verus!
