//! The buffers of a client connection: the bytes read, split into lines at
//! each CR LF, and the bytes to write, dropped as the connection takes
//! them; and the answer to the index request.

use vstd::prelude::*;
use vstd::string::{StringExecFns, StringSliceAdditionalSpecFns};
use vstd::utf8::{valid_utf8, decode_utf8};
use bytes::BytesMut;
use crate::Async;
use crate::buf::{bytes_of, bytes_new, bytes_len, bytes_extend, bytes_split_to, bytes_split_off, bytes_as_slice};

verus! {

/// A CR LF pair starts at index `i` of `s`.
pub open spec fn is_crlf_at(s: Seq<u8>, i: int) -> bool {
    0 <= i && i + 1 < s.len() && s[i] == 13u8 && s[i + 1] == 10u8
}

/// `s` holds a CR LF pair.
pub open spec fn has_crlf(s: Seq<u8>) -> bool {
    exists|i: int| is_crlf_at(s, i)
}

/// The first CR LF pair of `s` starts at `p`.
pub open spec fn first_crlf_at(s: Seq<u8>, p: int) -> bool {
    is_crlf_at(s, p) && forall|j: int| 0 <= j < p ==> !is_crlf_at(s, j)
}

/// The bytes of the CR LF pair.
pub open spec fn crlf() -> Seq<u8> {
    seq![13u8, 10u8]
}

/// The line that asks for the index.
pub open spec fn index_request_line() -> Seq<u8> {
    "GET / HTTP/1.1".spec_bytes()
}

/// The head of the answer to the index request.
pub open spec fn index_response_header() -> Seq<char> {
    "HTTP/1.1 200 OK\r\nContent-Length: {}\r\nContent-Type: application/json\r\n\r\n"@
}

/// The text that `String::from_utf8_lossy` makes of some bytes.
pub uninterp spec fn utf8_lossy(bytes: Seq<u8>) -> Seq<char>;

/// `String::from_utf8_lossy`: the text of the bytes, with each invalid
/// sequence replaced. The contract names the result and states only that
/// valid UTF-8 is decoded as it is; the text made of invalid bytes is left
/// unsaid.
#[verifier::external_body]
fn from_utf8_lossy(bytes: &[u8]) -> (s: String)
    ensures
        s@ == utf8_lossy(bytes@),
        valid_utf8(bytes@) ==> s@ == decode_utf8(bytes@),
{
    String::from_utf8_lossy(bytes).into_owned()
}

/// The index of the first CR LF pair in `s`, if there is one.
fn find_crlf(s: &[u8]) -> (r: Option<usize>)
    ensures
        match r {
            Some(p) => first_crlf_at(s@, p as int) && p + 2 <= s.len(),
            None => !has_crlf(s@),
        },
{
    let n = s.len();
    let mut i: usize = 0;
    while i + 1 < n
        invariant
            n == s@.len(),
            i == 0 || i < n,
            forall|j: int| 0 <= j < i ==> !is_crlf_at(s@, j),
        decreases n - i,
    {
        if s[i] == 13u8 && s[i + 1] == 10u8 {
            return Some(i);
        }
        i = i + 1;
    }
    proof {
        assert forall|j: int| !is_crlf_at(s@, j) by {
            if 0 <= j && j >= i {
                assert(j + 1 >= s@.len());
            }
        }
    }
    None
}

/// The read and write buffers of a client connection.
pub struct ReadWrite {
    /// The bytes read and not yet handed out as lines.
    pub rd: BytesMut,
    /// The bytes to write.
    pub wr: BytesMut,
}

impl ReadWrite {
    /// Empty buffers.
    pub fn new() -> (rw: ReadWrite)
        ensures
            bytes_of(rw.rd) == Seq::<u8>::empty(),
            bytes_of(rw.wr) == Seq::<u8>::empty(),
    {
        ReadWrite { rd: bytes_new(), wr: bytes_new() }
    }

    /// Adds `line` to the bytes to write.
    pub fn buffer(&mut self, line: &[u8])
        requires
            bytes_of(old(self).wr).len() + line@.len() <= isize::MAX,
        ensures
            bytes_of(final(self).wr) == bytes_of(old(self).wr) + line@,
            bytes_of(final(self).rd) == bytes_of(old(self).rd),
    {
        bytes_extend(&mut self.wr, line);
    }

    /// Whether bytes are left to write.
    pub fn has_pending_write(&self) -> (b: bool)
        ensures
            b == (bytes_of(self.wr).len() != 0),
    {
        bytes_len(&self.wr) != 0
    }

    /// Drops the first `n` bytes to write, which the connection has taken.
    /// A write that took nothing is refused.
    pub fn consume_written(&mut self, n: usize)
        requires
            0 < n <= bytes_of(old(self).wr).len(),
        ensures
            bytes_of(final(self).wr) == bytes_of(old(self).wr).skip(n as int),
            bytes_of(final(self).rd) == bytes_of(old(self).rd),
    {
        let _throw_away = bytes_split_to(&mut self.wr, n);
    }

    /// Hands out the next line read, without its CR LF: the bytes before the
    /// first CR LF pair, which leave the read buffer together with the pair.
    /// Where no pair has come, the answer is that no line will come when
    /// the connection is `closed`, and to wait otherwise.
    pub fn next_line(&mut self, closed: bool) -> (r: Async<Option<BytesMut>>)
        ensures
            bytes_of(final(self).wr) == bytes_of(old(self).wr),
            match r {
                Async::Ready(Some(line)) => {
                    &&& first_crlf_at(bytes_of(old(self).rd), bytes_of(line).len() as int)
                    &&& bytes_of(old(self).rd) == bytes_of(line) + crlf() + bytes_of(final(self).rd)
                    &&& !has_crlf(bytes_of(line))
                },
                Async::Ready(None) => {
                    &&& !has_crlf(bytes_of(old(self).rd))
                    &&& closed
                    &&& bytes_of(final(self).rd) == bytes_of(old(self).rd)
                },
                Async::NotReady => {
                    &&& !has_crlf(bytes_of(old(self).rd))
                    &&& !closed
                    &&& bytes_of(final(self).rd) == bytes_of(old(self).rd)
                },
            },
    {
        let pos = find_crlf(bytes_as_slice(&self.rd));
        match pos {
            Some(pos) => {
                let ghost before = bytes_of(self.rd);
                let mut line = bytes_split_to(&mut self.rd, pos + 2);
                let _crlf = bytes_split_off(&mut line, pos);
                proof {
                    assert(before =~= bytes_of(line) + crlf() + bytes_of(self.rd));
                    assert forall|j: int| !is_crlf_at(bytes_of(line), j) by {
                        if is_crlf_at(bytes_of(line), j) {
                            assert(is_crlf_at(before, j));
                        }
                    }
                }
                Async::Ready(Some(line))
            },
            None => {
                if closed {
                    Async::Ready(None)
                } else {
                    Async::NotReady
                }
            },
        }
    }
}

/// Whether the request line asks for the index: it starts with
/// `GET / HTTP/1.1`.
pub fn is_index_request(line: &BytesMut) -> (b: bool)
    ensures
        b == (index_request_line().len() <= bytes_of(*line).len()
            && bytes_of(*line).take(index_request_line().len() as int) == index_request_line()),
{
    let s = bytes_as_slice(line);
    let prefix = "GET / HTTP/1.1".as_bytes();
    if s.len() < prefix.len() {
        return false;
    }
    let mut i: usize = 0;
    while i < prefix.len()
        invariant
            prefix@ == index_request_line(),
            prefix@.len() <= s@.len(),
            s@ == bytes_of(*line),
            i <= prefix@.len(),
            forall|j: int| 0 <= j < i ==> s@[j] == prefix@[j],
        decreases prefix@.len() - i,
    {
        if s[i] != prefix[i] {
            proof {
                assert(s@.take(prefix@.len() as int)[i as int] != prefix@[i as int]);
            }
            return false;
        }
        i = i + 1;
    }
    proof {
        assert(s@.take(prefix@.len() as int) =~= prefix@);
    }
    true
}

/// The answer to the index request: the response head, then `body` read as
/// UTF-8 text (invalid sequences replaced).
pub fn index_response(body: &[u8]) -> (r: String)
    ensures
        r@ == index_response_header() + utf8_lossy(body@),
        valid_utf8(body@) ==> r@ == index_response_header() + decode_utf8(body@),
{
    let content = from_utf8_lossy(body);
    let header = String::from_str("HTTP/1.1 200 OK\r\nContent-Length: {}\r\nContent-Type: application/json\r\n\r\n");
    header.concat(content.as_str())
}

/// A buffered line is written out whole: once the writes have taken as many
/// bytes as were buffered, nothing is left to write, and what they took is
/// the buffered bytes.
pub proof fn law_buffer_then_flush(before: Seq<u8>, line: Seq<u8>)
    ensures
        (before + line).skip((before.len() + line.len()) as int) == Seq::<u8>::empty(),
        (before + line).take(before.len() as int) == before,
        (before + line).skip(before.len() as int) == line,
{
    assert((before + line).skip((before.len() + line.len()) as int) =~= Seq::<u8>::empty());
    assert((before + line).take(before.len() as int) =~= before);
    assert((before + line).skip(before.len() as int) =~= line);
}

/// Lines come out in the order they were read, and nothing read is lost:
/// two lines handed out one after the other, with their CR LF pairs and the
/// bytes still held, make up what was held before the first.
pub proof fn law_lines_in_order(held0: Seq<u8>, line1: Seq<u8>, held1: Seq<u8>, line2: Seq<u8>, held2: Seq<u8>)
    requires
        held0 == line1 + crlf() + held1,
        held1 == line2 + crlf() + held2,
    ensures
        held0 == line1 + crlf() + line2 + crlf() + held2,
{
    assert(held0 =~= line1 + crlf() + line2 + crlf() + held2);
}

/// What is left of the bytes `w` after writes that took `ns[0]`, then
/// `ns[1]`, ... bytes from the front.
pub open spec fn after_writes(w: Seq<u8>, ns: Seq<int>) -> Seq<u8>
    decreases ns.len(),
{
    if ns.len() == 0 {
        w
    } else {
        after_writes(w.skip(ns[0]), ns.drop_first())
    }
}

/// The bytes that writes taking `ns[0]`, then `ns[1]`, ... bytes from the
/// front of `w` took, in order.
pub open spec fn written(w: Seq<u8>, ns: Seq<int>) -> Seq<u8>
    decreases ns.len(),
{
    if ns.len() == 0 {
        Seq::empty()
    } else {
        w.take(ns[0]) + written(w.skip(ns[0]), ns.drop_first())
    }
}

/// Each write took no more than was left to write.
pub open spec fn writes_fit(w: Seq<u8>, ns: Seq<int>) -> bool
    decreases ns.len(),
{
    ns.len() == 0 || (0 <= ns[0] <= w.len() && writes_fit(w.skip(ns[0]), ns.drop_first()))
}

/// The total of the byte counts.
pub open spec fn total(ns: Seq<int>) -> int
    decreases ns.len(),
{
    if ns.len() == 0 {
        0
    } else {
        ns[0] + total(ns.drop_first())
    }
}

/// A flush, as the write loops of a connection (`ReadWrite`'s bytes to
/// write) and of a node (`ServerNode`'s bytes) run it, one
/// `consume_written` per completed write: the bytes written, in the order
/// they were buffered, followed by what is left make up what was to be
/// written; and nothing is left exactly when the writes took as many bytes
/// as there were. Where nothing was to be written, no write takes anything
/// and the bytes stay as they were.
pub proof fn law_flush_writes_in_order(w: Seq<u8>, ns: Seq<int>)
    requires
        writes_fit(w, ns),
    ensures
        written(w, ns) + after_writes(w, ns) == w,
        after_writes(w, ns).len() == w.len() - total(ns),
        (after_writes(w, ns).len() == 0) <==> (total(ns) == w.len()),
        w.len() == 0 ==> after_writes(w, ns) == w && written(w, ns).len() == 0,
    decreases ns.len(),
{
    if ns.len() > 0 {
        law_flush_writes_in_order(w.skip(ns[0]), ns.drop_first());
        assert(w.take(ns[0]) + w.skip(ns[0]) =~= w);
        assert(written(w, ns) + after_writes(w, ns) =~= w.take(ns[0]) + (written(w.skip(ns[0]), ns.drop_first()) + after_writes(w.skip(ns[0]), ns.drop_first())));
    }
}

} // verus!
