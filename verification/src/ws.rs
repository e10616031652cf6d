//! The WebSocket protocol, as far as pushing the state to clients needs it.

use vstd::prelude::*;
use vstd::utf8::{decode_utf8, encode_utf8, valid_utf8};

use crate::base64::{base64, encoded};
use crate::sha1::{digest, sha1};
use crate::text::{
    append, chars_of, eq_ignore_ascii_case, part, same_ignoring_case, split, split_by, string_of,
    texts, trim, trimmed,
};

verus! {

/// A request may not grow longer than this before it ends.
pub const REQUEST_LIMIT: usize = 16384;

/// A frame from a client may not carry more than this.
pub const PAYLOAD_LIMIT: u64 = 65536;

/// Frame codes.
pub const OP_TEXT: u8 = 0x1;

pub const OP_CLOSE: u8 = 0x8;

pub const OP_PING: u8 = 0x9;

pub const OP_PONG: u8 = 0xA;

/// How far a request has come.
#[derive(Debug, Clone, Copy, PartialEq, Eq, Structural)]
pub enum Request {
    /// Its end has not been seen yet.
    More,
    /// It is too long.
    Drop,
    /// It is complete.
    Complete,
}

/// What the bytes of a frame read so far amount to.
#[derive(Debug)]
pub enum Received {
    /// As many bytes in all are needed to go on.
    Need(usize),
    /// The payload is too long.
    Refuse,
    /// A complete frame: its code and its payload.
    Frame(u8, Vec<u8>),
}

/// What is done about a frame.
#[derive(Debug)]
pub enum Reaction {
    /// The frame is sent back, and the connection ends.
    Close(Vec<u8>),
    /// The frame is sent back.
    Send(Vec<u8>),
    Ignore,
}

// ---------------------------------------------------------------------------
// Model
// ---------------------------------------------------------------------------

/// The bytes as a number, the first one highest.
pub open spec fn number(s: Seq<u8>) -> int
    decreases s.len(),
{
    if s.len() == 0 {
        0
    } else {
        number(s.drop_last()) * 256 + s.last()
    }
}

/// A number as `k` bytes, the highest first.
pub open spec fn number_bytes(n: int, k: int) -> Seq<u8>
    decreases k,
{
    if k <= 0 {
        Seq::empty()
    } else {
        number_bytes(n / 256, k - 1).push((n % 256) as u8)
    }
}

/// How many values `k` bytes have.
pub open spec fn values(k: int) -> int
    decreases k,
{
    if k <= 0 {
        1
    } else {
        values(k - 1) * 256
    }
}

/// The second byte of a frame and the length behind it, `mask` being the bit of
/// a masked frame.
pub open spec fn length_field(n: int, mask: u8) -> Seq<u8> {
    if n < 126 {
        seq![mask | (n as u8)]
    } else if n < 65536 {
        seq![mask | 126u8] + number_bytes(n, 2)
    } else {
        seq![mask | 127u8] + number_bytes(n, 8)
    }
}

/// The frame of a server: final and not masked.
pub open spec fn framed(opcode: u8, payload: Seq<u8>) -> Seq<u8> {
    seq![0x80u8 | opcode] + length_field(payload.len() as int, 0u8) + payload
}

/// The payload under a mask of four bytes.
pub open spec fn masked(payload: Seq<u8>, mask: Seq<u8>) -> Seq<u8> {
    Seq::new(payload.len(), |i: int| payload[i] ^ mask[i % 4])
}

/// The frame of a client: final and masked.
pub open spec fn client_framed(opcode: u8, payload: Seq<u8>, mask: Seq<u8>) -> Seq<u8> {
    seq![0x80u8 | opcode] + length_field(payload.len() as int, 0x80u8) + mask + masked(
        payload,
        mask,
    )
}

/// How many bytes of length follow the second byte.
pub open spec fn extra(b: u8) -> int {
    if b & 0x7F == 126 {
        2
    } else if b & 0x7F == 127 {
        8
    } else {
        0
    }
}

/// How many bytes of mask there are.
pub open spec fn mask_len(b: u8) -> int {
    if b & 0x80 != 0 {
        4
    } else {
        0
    }
}

/// The length a frame gives.
pub open spec fn payload_len(s: Seq<u8>) -> int {
    if extra(s[1]) == 0 {
        (s[1] & 0x7F) as int
    } else {
        number(s.subrange(2, 2 + extra(s[1])))
    }
}

/// What the bytes of a frame read so far amount to.
pub enum ReceivedView {
    Need(int),
    Refuse,
    Frame(u8, Seq<u8>),
}

impl View for Received {
    type V = ReceivedView;

    open spec fn view(&self) -> ReceivedView {
        match *self {
            Received::Need(n) => ReceivedView::Need(n as int),
            Received::Refuse => ReceivedView::Refuse,
            Received::Frame(op, p) => ReceivedView::Frame(op, p@),
        }
    }
}

/// What the bytes of a frame read so far amount to: its parts are asked for one
/// by one.
pub open spec fn received(s: Seq<u8>) -> ReceivedView {
    if s.len() < 2 {
        ReceivedView::Need(2)
    } else {
        let length_end = 2 + extra(s[1]);
        let start = length_end + mask_len(s[1]);
        if s.len() < length_end {
            ReceivedView::Need(length_end)
        } else {
            let n = payload_len(s);
            if n > PAYLOAD_LIMIT {
                ReceivedView::Refuse
            } else if s.len() < start {
                ReceivedView::Need(start)
            } else if s.len() < start + n {
                ReceivedView::Need(start + n)
            } else {
                let body = s.subrange(start, start + n);
                ReceivedView::Frame(
                    s[0] & 0x0F,
                    if mask_len(s[1]) == 0 {
                        body
                    } else {
                        masked(body, s.subrange(length_end, start))
                    },
                )
            }
        }
    }
}

/// What is done about a frame.
pub enum ReactionView {
    Close(Seq<u8>),
    Send(Seq<u8>),
    Ignore,
}

impl View for Reaction {
    type V = ReactionView;

    open spec fn view(&self) -> ReactionView {
        match *self {
            Reaction::Close(f) => ReactionView::Close(f@),
            Reaction::Send(f) => ReactionView::Send(f@),
            Reaction::Ignore => ReactionView::Ignore,
        }
    }
}

/// A close frame is sent back and ends the connection; a ping is answered with
/// its payload; anything else is ignored.
pub open spec fn reaction(opcode: u8, payload: Seq<u8>) -> ReactionView {
    if opcode == OP_CLOSE {
        ReactionView::Close(framed(OP_CLOSE, payload))
    } else if opcode == OP_PING {
        ReactionView::Send(framed(OP_PONG, payload))
    } else {
        ReactionView::Ignore
    }
}

/// The blank line that ends a request stands at `i`.
pub open spec fn ends_at(s: Seq<u8>, i: int) -> bool {
    &&& 0 <= i
    &&& i + 4 <= s.len()
    &&& s[i] == 13
    &&& s[i + 1] == 10
    &&& s[i + 2] == 13
    &&& s[i + 3] == 10
}

/// How far a request has come.
pub open spec fn progress(s: Seq<u8>) -> Request {
    if s.len() > REQUEST_LIMIT {
        Request::Drop
    } else if exists|i: int| #[trigger] ends_at(s, i) {
        Request::Complete
    } else {
        Request::More
    }
}

/// Where the first colon stands, or the end.
pub open spec fn colon(s: Seq<char>, i: int) -> int
    decreases s.len() - i,
{
    if 0 <= i < s.len() && s[i] != ':' {
        colon(s, i + 1)
    } else {
        i
    }
}

/// The value of a header line, where it is the line of this header.
pub open spec fn header_value(line: Seq<char>, name: Seq<char>) -> Option<Seq<char>> {
    let c = colon(line, 0);
    if c < line.len() && same_ignoring_case(line.take(c), name) {
        Some(trimmed(line.skip(c + 1)))
    } else {
        None
    }
}

/// The value of the first line of this header among the first `k` lines.
pub open spec fn found_value(lines: Seq<Seq<char>>, name: Seq<char>, k: int) -> Option<Seq<char>>
    decreases k,
{
    if k <= 0 {
        None
    } else if found_value(lines, name, k - 1) is Some {
        found_value(lines, name, k - 1)
    } else {
        header_value(lines[k - 1], name)
    }
}

/// The key a request gives: the value of its `Sec-WebSocket-Key` header. The
/// carriage return that ends a line goes with the spaces round the value.
pub open spec fn request_key(req: Seq<char>) -> Option<Seq<char>> {
    let lines = split_by(req, '\n');
    found_value(lines, "sec-websocket-key"@, lines.len() as int)
}

/// What a key is answered with.
pub open spec fn accepted(key: Seq<char>) -> Seq<char> {
    encoded(digest(encode_utf8(key + "258EAFA5-E914-47DA-95CA-C5AB0DC85B11"@)))
}

/// The answer to a request.
pub open spec fn answer(req: Seq<char>) -> (bool, Seq<char>) {
    match request_key(req) {
        Some(key) => (
            true,
            "HTTP/1.1 101 Switching Protocols\r\nUpgrade: websocket\r\nConnection: Upgrade\r\nSec-WebSocket-Accept: "@
                + accepted(key) + "\r\n\r\n"@,
        ),
        None => (false, "HTTP/1.1 400 Bad Request\r\n\r\n"@),
    }
}

/// The text of bytes, where what is no UTF-8 becomes replacement characters.
pub uninterp spec fn utf8_lossy(bytes: Seq<u8>) -> Seq<char>;

// ---------------------------------------------------------------------------
// Operations
// ---------------------------------------------------------------------------

/// Calls `String::from_utf8_lossy` of std. Bytes that are UTF-8 give the text
/// they encode; how other bytes are replaced is std's.
#[verifier::external_body]
pub(crate) fn text_of_bytes(bytes: &[u8]) -> (r: String)
    ensures
        r@ == utf8_lossy(bytes@),
        valid_utf8(bytes@) ==> r@ == decode_utf8(bytes@),
{
    String::from_utf8_lossy(bytes).into_owned()
}

/// Appends a number as `k` bytes, the highest first.
fn put_number(out: &mut Vec<u8>, n: u64, k: usize)
    ensures
        final(out)@ == old(out)@ + number_bytes(n as int, k as int),
    decreases k,
{
    if k > 0 {
        put_number(out, n / 256, k - 1);
        out.push((n % 256) as u8);
    }
    assert(out@ =~= old(out)@ + number_bytes(n as int, k as int));
}

/// Appends bytes.
fn put_bytes(out: &mut Vec<u8>, bytes: &[u8])
    ensures
        final(out)@ == old(out)@ + bytes@,
{
    let mut i: usize = 0;
    assert(out@ + bytes@.take(0) =~= out@);
    while i < bytes.len()
        invariant
            i <= bytes@.len(),
            out@ == old(out)@ + bytes@.take(i as int),
        decreases bytes@.len() - i,
    {
        out.push(bytes[i]);
        assert(bytes@.take(i + 1) =~= bytes@.take(i as int).push(bytes@[i as int]));
        assert(out@ =~= old(out)@ + bytes@.take(i + 1));
        i += 1;
    }
    assert(bytes@.take(i as int) =~= bytes@);
}

/// No mask bit changes nothing.
proof fn lemma_no_mask(x: u8)
    ensures
        0u8 | x == x,
{
    assert(0u8 | x == x) by (bit_vector);
}

/// The frame to send: final and not masked.
pub fn frame(opcode: u8, payload: &[u8]) -> (r: Vec<u8>)
    ensures
        r@ == framed(opcode, payload@),
{
    let mut out: Vec<u8> = Vec::new();
    out.push(0x80 | opcode);
    let n: usize = payload.len();
    if n < 126 {
        proof {
            lemma_no_mask(n as u8);
        }
        out.push(n as u8);
    } else if n < 65536 {
        proof {
            lemma_no_mask(126);
        }
        out.push(126);
        put_number(&mut out, n as u64, 2);
    } else {
        proof {
            lemma_no_mask(127);
        }
        out.push(127);
        put_number(&mut out, n as u64, 8);
    }
    assert(out@ =~= seq![0x80u8 | opcode] + length_field(n as int, 0u8));
    put_bytes(&mut out, payload);
    assert(out@ =~= framed(opcode, payload@));
    out
}

/// A number of `k` bytes is one of their values.
proof fn lemma_number_bounds(s: Seq<u8>)
    ensures
        0 <= number(s) < values(s.len() as int),
    decreases s.len(),
{
    if s.len() > 0 {
        lemma_number_bounds(s.drop_last());
    }
}

/// Eight bytes have as many values as a 64-bit word.
proof fn lemma_values()
    ensures
        values(2) == 0x1_0000,
        values(8) == 0x1_0000_0000_0000_0000,
{
    reveal_with_fuel(values, 9);
}

/// More bytes have no fewer values.
proof fn lemma_values_up(j: int, k: int)
    requires
        0 <= j <= k,
    ensures
        1 <= values(j) <= values(k),
    decreases k,
{
    if j < k {
        lemma_values_up(j, k - 1);
    } else if k > 0 {
        lemma_values_up(k - 1, k - 1);
    }
}

/// The `k` bytes from `from` on as a number, the first one highest.
fn read_number(s: &Vec<u8>, from: usize, k: usize) -> (r: u64)
    requires
        k <= 8,
        from + k <= s.len(),
    ensures
        r == number(s@.subrange(from as int, from + k)),
{
    let mut acc: u64 = 0;
    let mut i: usize = 0;
    while i < k
        invariant
            i <= k <= 8,
            from + k <= s.len(),
            acc == number(s@.subrange(from as int, from + i)),
        decreases k - i,
    {
        let b: u8 = s[from + i];
        let ghost next = s@.subrange(from as int, from + i + 1);
        proof {
            assert(next.drop_last() =~= s@.subrange(from as int, from + i));
            assert(next.last() == b);
            lemma_number_bounds(next);
            lemma_values_up(next.len() as int, 8);
            lemma_values();
        }
        acc = acc * 256 + b as u64;
        i += 1;
    }
    acc
}

/// The bytes under a mask of four bytes.
fn unmask(s: &Vec<u8>, from: usize, to: usize, at: usize) -> (r: Vec<u8>)
    requires
        at + 4 <= from <= to <= s.len(),
    ensures
        r@ == masked(s@.subrange(from as int, to as int), s@.subrange(at as int, at + 4)),
{
    let mut out: Vec<u8> = Vec::new();
    let ghost body = s@.subrange(from as int, to as int);
    let ghost mask = s@.subrange(at as int, at + 4);
    let mut i: usize = 0;
    while i < to - from
        invariant
            i <= to - from,
            at + 4 <= from <= to <= s.len(),
            body == s@.subrange(from as int, to as int),
            mask == s@.subrange(at as int, at + 4),
            out.len() == i,
            forall|k: int| 0 <= k < i ==> #[trigger] out@[k] == body[k] ^ mask[k % 4],
        decreases to - from - i,
    {
        let b: u8 = s[from + i];
        let m: u8 = s[at + i % 4];
        assert(b == body[i as int]);
        assert(m == mask[i as int % 4]);
        out.push(b ^ m);
        i += 1;
    }
    assert(out@ =~= masked(body, mask));
    out
}

/// The bytes from `from` up to `to`.
fn piece(s: &Vec<u8>, from: usize, to: usize) -> (r: Vec<u8>)
    requires
        from <= to <= s.len(),
    ensures
        r@ == s@.subrange(from as int, to as int),
{
    let mut out: Vec<u8> = Vec::new();
    let mut i: usize = from;
    while i < to
        invariant
            from <= i <= to <= s.len(),
            out@ == s@.subrange(from as int, i as int),
        decreases to - i,
    {
        out.push(s[i]);
        assert(s@.subrange(from as int, i + 1) =~= s@.subrange(from as int, i as int).push(
            s@[i as int],
        ));
        i += 1;
    }
    out
}

/// What the bytes of a client's frame read so far amount to.
pub fn receive(s: &Vec<u8>) -> (r: Received)
    ensures
        r@ == received(s@),
{
    if s.len() < 2 {
        return Received::Need(2);
    }
    let b: u8 = s[1];
    let low: u8 = b & 0x7F;
    let more: usize = if low == 126 {
        2
    } else if low == 127 {
        8
    } else {
        0
    };
    let length_end: usize = 2 + more;
    if s.len() < length_end {
        return Received::Need(length_end);
    }
    let n: u64 = if more == 0 {
        low as u64
    } else {
        read_number(s, 2, more)
    };
    if n > PAYLOAD_LIMIT {
        return Received::Refuse;
    }
    let is_masked: bool = b & 0x80 != 0;
    let start: usize = if is_masked {
        length_end + 4
    } else {
        length_end
    };
    if s.len() < start {
        return Received::Need(start);
    }
    let end: usize = start + n as usize;
    if s.len() < end {
        return Received::Need(end);
    }
    let opcode: u8 = s[0] & 0x0F;
    if is_masked {
        Received::Frame(opcode, unmask(s, start, end, length_end))
    } else {
        Received::Frame(opcode, piece(s, start, end))
    }
}

/// What is done about a frame.
pub fn react(opcode: u8, payload: &[u8]) -> (r: Reaction)
    ensures
        r@ == reaction(opcode, payload@),
{
    if opcode == OP_CLOSE {
        Reaction::Close(frame(OP_CLOSE, payload))
    } else if opcode == OP_PING {
        Reaction::Send(frame(OP_PONG, payload))
    } else {
        Reaction::Ignore
    }
}

/// How far a request has come.
pub fn request_progress(s: &Vec<u8>) -> (r: Request)
    ensures
        r == progress(s@),
{
    if s.len() > REQUEST_LIMIT {
        return Request::Drop;
    }
    let mut i: usize = 0;
    while i + 4 <= s.len()
        invariant
            i <= s.len() <= REQUEST_LIMIT,
            forall|k: int| 0 <= k < i ==> !#[trigger] ends_at(s@, k),
        decreases s.len() - i,
    {
        if s[i] == 13 && s[i + 1] == 10 && s[i + 2] == 13 && s[i + 3] == 10 {
            assert(ends_at(s@, i as int));
            return Request::Complete;
        }
        i += 1;
    }
    assert forall|k: int| !#[trigger] ends_at(s@, k) by {
        if ends_at(s@, k) {
            assert(k < i);
        }
    }
    Request::More
}

/// The first colon stands within the line or at its end.
proof fn lemma_colon(s: Seq<char>, i: int)
    requires
        0 <= i <= s.len(),
    ensures
        i <= colon(s, i) <= s.len(),
    decreases s.len() - i,
{
    if i < s.len() && s[i] != ':' {
        lemma_colon(s, i + 1);
    }
}

/// The value of a header line, where it is the line of this header.
fn header(line: &Vec<char>, name: &Vec<char>) -> (r: Option<Vec<char>>)
    ensures
        match r {
            Some(v) => header_value(line@, name@) == Some(v@),
            None => header_value(line@, name@) is None,
        },
{
    let mut c: usize = 0;
    while c < line.len() && line[c] != ':'
        invariant
            c <= line.len(),
            colon(line@, 0) == colon(line@, c as int),
        decreases line.len() - c,
    {
        c += 1;
    }
    if c == line.len() {
        return None;
    }
    let head = part(line, 0, c);
    assert(line@.subrange(0, c as int) =~= line@.take(c as int));
    if eq_ignore_ascii_case(&head, name) {
        let rest = part(line, c + 1, line.len());
        assert(rest@ =~= line@.skip(c + 1));
        Some(trim(&rest))
    } else {
        None
    }
}

/// The key a request gives.
pub fn key_of_request(req: &str) -> (r: Option<String>)
    ensures
        match r {
            Some(k) => request_key(req@) == Some(k@),
            None => request_key(req@) is None,
        },
{
    let chars = chars_of(req);
    let name = chars_of("sec-websocket-key");
    let lines = split(&chars, '\n');
    let ghost views = texts(lines@);
    let mut i: usize = 0;
    while i < lines.len()
        invariant
            i <= lines.len(),
            views == texts(lines@),
            views == split_by(req@, '\n'),
            name@ == "sec-websocket-key"@,
            found_value(views, name@, i as int) is None,
        decreases lines.len() - i,
    {
        assert(views[i as int] == lines@[i as int]@);
        if let Some(v) = header(&lines[i], &name) {
            proof {
                lemma_found_stays(views, name@, i + 1, views.len() as int);
            }
            return Some(string_of(&v));
        }
        i += 1;
    }
    None
}

/// A value found stays the first.
proof fn lemma_found_stays(lines: Seq<Seq<char>>, name: Seq<char>, j: int, k: int)
    requires
        j <= k,
        found_value(lines, name, j) is Some,
    ensures
        found_value(lines, name, k) == found_value(lines, name, j),
    decreases k - j,
{
    if j < k {
        lemma_found_stays(lines, name, j, k - 1);
    }
}

/// What a key is answered with.
pub fn handshake_accept(key: &str) -> (r: String)
    ensures
        r@ == accepted(key@),
{
    let mut text = String::new();
    append(&mut text, key);
    append(&mut text, "258EAFA5-E914-47DA-95CA-C5AB0DC85B11");
    assert(text@ =~= key@ + "258EAFA5-E914-47DA-95CA-C5AB0DC85B11"@);
    let d = sha1(text.as_str().as_bytes());
    base64(&d)
}

/// The answer to the text of a request, and whether the connection goes on.
pub fn answer_request(req: &str) -> (r: (bool, String))
    ensures
        (r.0, r.1@) == answer(req@),
{
    let mut out = String::new();
    match key_of_request(req) {
        Some(key) => {
            let accept = handshake_accept(key.as_str());
            append(
                &mut out,
                "HTTP/1.1 101 Switching Protocols\r\nUpgrade: websocket\r\nConnection: Upgrade\r\nSec-WebSocket-Accept: ",
            );
            append(&mut out, accept.as_str());
            append(&mut out, "\r\n\r\n");
            assert(out@ =~= answer(req@).1);
            (true, out)
        },
        None => {
            append(&mut out, "HTTP/1.1 400 Bad Request\r\n\r\n");
            assert(out@ =~= answer(req@).1);
            (false, out)
        },
    }
}

/// The answer to a complete request, and whether the connection goes on.
pub fn handshake(request: &Vec<u8>) -> (r: (bool, String))
    ensures
        (r.0, r.1@) == answer(utf8_lossy(request@)),
        valid_utf8(request@) ==> (r.0, r.1@) == answer(decode_utf8(request@)),
{
    let text = text_of_bytes(request.as_slice());
    answer_request(text.as_str())
}

// ---------------------------------------------------------------------------
// Laws
// ---------------------------------------------------------------------------

/// Bytes of a number give it back.
pub proof fn law_number_bytes(n: int, k: int)
    requires
        0 <= k,
        0 <= n < values(k),
    ensures
        number_bytes(n, k).len() == k,
        number(number_bytes(n, k)) == n,
    decreases k,
{
    if k > 0 {
        assert(n / 256 < values(k - 1));
        law_number_bytes(n / 256, k - 1);
        let s = number_bytes(n, k);
        assert(s.drop_last() =~= number_bytes(n / 256, k - 1));
    }
}

/// The same mask twice gives the payload back.
pub proof fn law_mask_twice(payload: Seq<u8>, mask: Seq<u8>)
    requires
        mask.len() == 4,
    ensures
        masked(masked(payload, mask), mask) == payload,
{
    assert forall|i: int| 0 <= i < payload.len() implies masked(masked(payload, mask), mask)[i]
        == payload[i] by {
        let a = payload[i];
        let b = mask[i % 4];
        assert((a ^ b) ^ b == a) by (bit_vector);
    }
    assert(masked(masked(payload, mask), mask) =~= payload);
}

/// The mask shows through a payload of zeros, its four bytes over and over.
pub proof fn law_mask_goes_round(payload: Seq<u8>, mask: Seq<u8>, i: int)
    requires
        mask.len() == 4,
        0 <= i < payload.len(),
        payload[i] == 0,
    ensures
        masked(payload, mask)[i] == mask[if i < 4 {
            i
        } else {
            i % 4
        }],
{
    let b = mask[i % 4];
    assert(0u8 ^ b == b) by (bit_vector);
}

/// The bits of the first two bytes.
proof fn lemma_frame_bits(opcode: u8, low: u8, mask: u8)
    requires
        opcode < 16,
        low < 128,
        mask == 0 || mask == 0x80,
    ensures
        (0x80u8 | opcode) & 0x0F == opcode,
        (mask | low) & 0x7F == low,
        (mask | low) & 0x80 == mask,
{
    assert((0x80u8 | opcode) & 0x0F == opcode) by (bit_vector)
        requires
            opcode < 16,
    ;
    assert((mask | low) & 0x7F == low && (mask | low) & 0x80 == mask) by (bit_vector)
        requires
            low < 128,
            mask == 0 || mask == 0x80,
    ;
}

/// The head of a frame as it is read back.
proof fn lemma_head(opcode: u8, n: int, mask: u8, rest: Seq<u8>, s: Seq<u8>)
    requires
        opcode < 16,
        0 <= n <= usize::MAX,
        mask == 0 || mask == 0x80,
        s == seq![0x80u8 | opcode] + length_field(n, mask) + rest,
    ensures
        s[0] & 0x0F == opcode,
        1 + length_field(n, mask).len() == 2 + extra(s[1]),
        mask_len(s[1]) == if mask == 0 {
            0int
        } else {
            4
        },
        payload_len(s) == n,
        s.len() == 2 + extra(s[1]) + rest.len(),
{
    lemma_values();
    let low: u8 = if n < 126 {
        n as u8
    } else if n < 65536 {
        126
    } else {
        127
    };
    lemma_frame_bits(opcode, low, mask);
    assert(s[1] == mask | low);
    if n >= 126 {
        let k: int = if n < 65536 {
            2
        } else {
            8
        };
        law_number_bytes(n, k);
        assert(s.subrange(2, 2 + k) =~= number_bytes(n, k));
    }
}

/// A frame sent is read back: its code and its payload, or refused where the
/// payload is over the limit.
pub proof fn law_frame_read_back(opcode: u8, payload: Seq<u8>)
    requires
        opcode < 16,
        payload.len() <= usize::MAX,
    ensures
        received(framed(opcode, payload)) == if payload.len() <= PAYLOAD_LIMIT {
            ReceivedView::Frame(opcode, payload)
        } else {
            ReceivedView::Refuse
        },
{
    let s = framed(opcode, payload);
    lemma_head(opcode, payload.len() as int, 0u8, payload, s);
    let start = 2 + extra(s[1]);
    assert(s.subrange(start, start + payload.len()) =~= payload);
}

/// A client's frame is read back under its mask.
pub proof fn law_client_frame_read(opcode: u8, payload: Seq<u8>, mask: Seq<u8>)
    requires
        opcode < 16,
        mask.len() == 4,
        payload.len() <= usize::MAX,
    ensures
        received(client_framed(opcode, payload, mask)) == if payload.len() <= PAYLOAD_LIMIT {
            ReceivedView::Frame(opcode, payload)
        } else {
            ReceivedView::Refuse
        },
{
    let s = client_framed(opcode, payload, mask);
    let body = masked(payload, mask);
    assert(s =~= seq![0x80u8 | opcode] + length_field(payload.len() as int, 0x80u8) + (mask + body));
    lemma_head(opcode, payload.len() as int, 0x80u8, mask + body, s);
    let end = 2 + extra(s[1]);
    assert(s.subrange(end, end + 4) =~= mask);
    assert(s.subrange(end + 4, end + 4 + payload.len()) =~= body);
    law_mask_twice(payload, mask);
}

/// A frame begun is read on and never past its end: of a proper beginning of a
/// frame that is not refused, more bytes are asked for, and at most the frame's.
pub proof fn law_reads_no_further(s: Seq<u8>, k: int)
    requires
        received(s) is Frame,
        s.len() == 2 + extra(s[1]) + mask_len(s[1]) + payload_len(s),
        0 <= k < s.len(),
    ensures
        received(s.take(k)) matches ReceivedView::Need(n) && k < n <= s.len(),
{
    let t = s.take(k);
    if s.len() >= 2 && k >= 2 + extra(s[1]) {
        assert(t[1] == s[1]);
        assert(t.subrange(2, 2 + extra(s[1])) =~= s.subrange(2, 2 + extra(s[1])));
    }
    if extra(s[1]) > 0 {
        lemma_number_bounds(s.subrange(2, 2 + extra(s[1])));
    }
}

} // verus!
