//! The line codec: a bidirectional transform between a raw byte stream and
//! discrete newline-delimited text messages.
//!
//! Decoding is stateful: bytes accumulate in a [`FrameBuffer`] and are
//! consumed from the front, one delimiter-terminated line at a time. A line
//! that is not valid UTF-8 is consumed and silently dropped, never reported
//! as an error. Encoding appends a message's bytes and exactly one delimiter.

use vstd::prelude::*;

verus! {

use vstd::string::StringSliceAdditionalSpecFns;
use vstd::utf8::{decode_utf8, encode_utf8, valid_utf8};

/// The byte that terminates every frame on the wire: an ASCII line feed.
pub const DELIMITER: u8 = 10;

/// True when `bytes` holds at least one delimiter, i.e. one complete line.
pub open spec fn has_delimiter(bytes: Seq<u8>) -> bool {
    exists|i: int| 0 <= i < bytes.len() && bytes[i] == DELIMITER
}

/// Index of the first delimiter byte in `bytes`
/// (meaningful only when `has_delimiter(bytes)`).
pub open spec fn first_delimiter(bytes: Seq<u8>) -> int
    decreases bytes.len(),
{
    if bytes.len() == 0 {
        0
    } else if bytes[0] == DELIMITER {
        0
    } else {
        1 + first_delimiter(bytes.drop_first())
    }
}

/// `first_delimiter` points at the first delimiter: it is in bounds, it is a
/// delimiter, and nothing before it is one.
pub proof fn lemma_first_delimiter(bytes: Seq<u8>)
    requires
        has_delimiter(bytes),
    ensures
        0 <= first_delimiter(bytes) < bytes.len(),
        bytes[first_delimiter(bytes)] == DELIMITER,
        forall|j: int| 0 <= j < first_delimiter(bytes) ==> bytes[j] != DELIMITER,
    decreases bytes.len(),
{
    if bytes[0] != DELIMITER {
        let i = choose|i: int| 0 <= i < bytes.len() && bytes[i] == DELIMITER;
        assert(bytes.drop_first()[i - 1] == bytes[i]);
        lemma_first_delimiter(bytes.drop_first());
        assert forall|j: int| 0 <= j < first_delimiter(bytes) implies bytes[j] != DELIMITER by {
            if j > 0 {
                assert(bytes.drop_first()[j - 1] == bytes[j]);
            }
        }
    }
}

/// A position that is a delimiter with none before it is `first_delimiter`.
pub proof fn lemma_first_delimiter_unique(bytes: Seq<u8>, p: int)
    requires
        0 <= p < bytes.len(),
        bytes[p] == DELIMITER,
        forall|j: int| 0 <= j < p ==> bytes[j] != DELIMITER,
    ensures
        has_delimiter(bytes),
        first_delimiter(bytes) == p,
{
    assert(has_delimiter(bytes));
    lemma_first_delimiter(bytes);
}

/// What one complete line (the bytes before its delimiter) yields: the
/// decoded text when the bytes are valid UTF-8, nothing when they are not.
pub open spec fn line_message(line: Seq<u8>) -> Option<Seq<char>> {
    if valid_utf8(line) {
        Some(decode_utf8(line))
    } else {
        None
    }
}

/// The ordered messages that a byte sequence yields when its complete lines
/// are drained front to back: one message per valid-UTF-8 line, malformed
/// lines silently skipped.
pub open spec fn messages_of(bytes: Seq<u8>) -> Seq<Seq<char>>
    decreases bytes.len(),
    via messages_of_decreases
{
    if !has_delimiter(bytes) {
        Seq::empty()
    } else {
        let p = first_delimiter(bytes);
        let rest = bytes.skip(p + 1);
        match line_message(bytes.take(p)) {
            Some(m) => seq![m] + messages_of(rest),
            None => messages_of(rest),
        }
    }
}

#[via_fn]
proof fn messages_of_decreases(bytes: Seq<u8>) {
    if has_delimiter(bytes) {
        lemma_first_delimiter(bytes);
    }
}

/// The partial trailing bytes left after every complete line of `bytes` has
/// been drained: the suffix after the last delimiter.
pub open spec fn leftover_of(bytes: Seq<u8>) -> Seq<u8>
    decreases bytes.len(),
    via leftover_of_decreases
{
    if !has_delimiter(bytes) {
        bytes
    } else {
        leftover_of(bytes.skip(first_delimiter(bytes) + 1))
    }
}

#[via_fn]
proof fn leftover_of_decreases(bytes: Seq<u8>) {
    if has_delimiter(bytes) {
        lemma_first_delimiter(bytes);
    }
}

/// An append-only byte accumulator for one connection's decode path. Bytes
/// are consumed from the front only when a complete delimiter-terminated
/// line exists; partial trailing bytes persist across reads.
pub struct FrameBuffer {
    bytes: Vec<u8>,
}

impl View for FrameBuffer {
    type V = Seq<u8>;

    closed spec fn view(&self) -> Seq<u8> {
        self.bytes@
    }
}

impl FrameBuffer {
    /// An empty buffer.
    pub fn new() -> (r: FrameBuffer)
        ensures
            r@ == Seq::<u8>::empty(),
    {
        FrameBuffer { bytes: Vec::new() }
    }

    /// Append freshly read bytes at the back; nothing else changes.
    pub fn push_chunk(&mut self, chunk: &[u8])
        ensures
            final(self)@ == old(self)@ + chunk@,
    {
        self.bytes.extend_from_slice(chunk);
        proof {
            assert(self.bytes@ =~= old(self).bytes@ + chunk@);
        }
    }

    /// How many bytes are buffered.
    pub fn len(&self) -> (n: usize)
        ensures
            n == self@.len(),
    {
        self.bytes.len()
    }

    /// Position of the first delimiter, if any complete line is buffered.
    pub fn find_delimiter(&self) -> (r: Option<usize>)
        ensures
            match r {
                Some(p) => has_delimiter(self@) && p == first_delimiter(self@),
                None => !has_delimiter(self@),
            },
    {
        let n = self.bytes.len();
        let mut i: usize = 0;
        while i < n
            invariant
                n == self@.len(),
                i <= n,
                forall|j: int| 0 <= j < i ==> self@[j] != DELIMITER,
            decreases n - i,
        {
            if self.bytes[i] == DELIMITER {
                proof {
                    lemma_first_delimiter_unique(self@, i as int);
                }
                return Some(i);
            }
            i += 1;
        }
        None
    }

    /// Remove the first `p + 1` bytes and hand back the first `p` of them:
    /// the line without its delimiter.
    fn split_line(&mut self, p: usize) -> (line: Vec<u8>)
        requires
            p < old(self)@.len(),
        ensures
            line@ == old(self)@.take(p as int),
            final(self)@ == old(self)@.skip(p as int + 1),
    {
        let n = self.bytes.len();
        assert(p < n);
        let mut rest = self.bytes.split_off(p + 1);
        self.bytes.truncate(p);
        core::mem::swap(&mut self.bytes, &mut rest);
        proof {
            assert(rest@ =~= old(self)@.take(p as int));
            assert(self.bytes@ =~= old(self)@.skip(p as int + 1));
        }
        rest
    }
}

/// Relies on `core::str::from_utf8`: it returns `Ok` exactly when the bytes
/// are a valid UTF-8 encoding, and the returned slice is backed by those
/// same bytes.
#[verifier::external_body]
fn utf8_to_str(bytes: &[u8]) -> (r: Option<&str>)
    ensures
        r is Some <==> valid_utf8(bytes@),
        r matches Some(s) ==> s.spec_bytes() == bytes@,
{
    core::str::from_utf8(bytes).ok()
}

/// Bidirectional transform between raw bytes and newline-delimited text.
pub struct LineCodec;

impl LineCodec {
    /// Remove the first complete line from `buf` and decode it.
    ///
    /// Returns the decoded message when the line is valid UTF-8. Returns
    /// `None` both when no delimiter is buffered yet (`buf` is untouched;
    /// more bytes are expected) and when the line is malformed (the line is
    /// still consumed and permanently discarded).
    pub fn decode(&mut self, buf: &mut FrameBuffer) -> (r: Option<String>)
        ensures
            !has_delimiter(old(buf)@) ==> r is None && final(buf)@ == old(buf)@,
            has_delimiter(old(buf)@) ==> {
                let line = old(buf)@.take(first_delimiter(old(buf)@));
                &&& final(buf)@ == old(buf)@.skip(first_delimiter(old(buf)@) + 1)
                &&& (match r {
                    Some(s) => line_message(line) == Some(s@),
                    None => line_message(line) is None,
                })
            },
    {
        match buf.find_delimiter() {
            None => None,
            Some(p) => {
                proof {
                    lemma_first_delimiter(buf@);
                }
                let line = buf.split_line(p);
                match utf8_to_str(line.as_slice()) {
                    Some(s) => {
                        proof {
                            vstd::utf8::encode_utf8_decode_utf8(s@);
                        }
                        Some(s.to_owned())
                    },
                    None => None,
                }
            },
        }
    }

    /// Drain every complete line currently buffered, decoding each in FIFO
    /// order over the buffer; malformed lines are consumed and dropped.
    /// Afterwards only the partial trailing bytes remain.
    pub fn decode_all(&mut self, buf: &mut FrameBuffer) -> (msgs: Vec<String>)
        ensures
            msgs.deep_view() == messages_of(old(buf)@),
            final(buf)@ == leftover_of(old(buf)@),
            !has_delimiter(final(buf)@),
    {
        let mut msgs: Vec<String> = Vec::new();
        proof {
            assert(msgs.deep_view() =~= Seq::<Seq<char>>::empty());
            assert(msgs.deep_view() + messages_of(buf@) =~= messages_of(buf@));
        }
        let mut done = false;
        while !done
            invariant
                msgs.deep_view() + messages_of(buf@) == messages_of(old(buf)@),
                leftover_of(buf@) == leftover_of(old(buf)@),
                done ==> !has_delimiter(buf@),
            decreases buf@.len() + (if done { 0int } else { 1int }),
        {
            let ghost pre = buf@;
            let ghost msgs_pre = msgs.deep_view();
            match buf.find_delimiter() {
                None => {
                    done = true;
                },
                Some(_) => {
                    proof {
                        lemma_first_delimiter(pre);
                    }
                    let r = self.decode(buf);
                    match r {
                        Some(s) => {
                            msgs.push(s);
                            proof {
                                let ghost p = first_delimiter(pre);
                                assert(msgs.deep_view() =~= msgs_pre.push(s@));
                                assert(messages_of(pre) == seq![s@] + messages_of(pre.skip(p + 1)));
                                assert(msgs.deep_view() + messages_of(buf@) =~= msgs_pre + messages_of(pre));
                            }
                        },
                        None => {},
                    }
                },
            }
        }
        proof {
            assert(msgs.deep_view() + messages_of(buf@) =~= msgs.deep_view());
        }
        msgs
    }

    /// Append `msg`'s raw bytes followed by exactly one delimiter to `buf`.
    pub fn encode(&mut self, msg: String, buf: &mut Vec<u8>)
        ensures
            final(buf)@ == old(buf)@ + encode_utf8(msg@) + seq![DELIMITER],
    {
        buf.extend_from_slice(msg.as_str().as_bytes());
        buf.push(DELIMITER);
        proof {
            assert(buf@ =~= old(buf)@ + encode_utf8(msg@) + seq![DELIMITER]);
        }
    }
}

/// The concatenation of a sequence of chunks.
pub open spec fn concat_of(chunks: Seq<Seq<u8>>) -> Seq<u8>
    decreases chunks.len(),
{
    if chunks.len() == 0 {
        Seq::empty()
    } else {
        concat_of(chunks.drop_last()) + chunks.last()
    }
}

/// The buffered leftover after feeding `chunks` one at a time to an empty
/// buffer, draining the complete lines after each chunk.
pub open spec fn fed_leftover(chunks: Seq<Seq<u8>>) -> Seq<u8>
    decreases chunks.len(),
{
    if chunks.len() == 0 {
        Seq::empty()
    } else {
        leftover_of(fed_leftover(chunks.drop_last()) + chunks.last())
    }
}

/// The ordered messages yielded by feeding `chunks` one at a time to an
/// empty buffer, draining the complete lines after each chunk.
pub open spec fn fed_messages(chunks: Seq<Seq<u8>>) -> Seq<Seq<char>>
    decreases chunks.len(),
{
    if chunks.len() == 0 {
        Seq::empty()
    } else {
        fed_messages(chunks.drop_last()) + messages_of(
            fed_leftover(chunks.drop_last()) + chunks.last(),
        )
    }
}

/// Partial input is idle: a byte sequence without a delimiter yields no
/// message, and all of it stays buffered as the leftover.
pub proof fn lemma_partial_input_idle(bytes: Seq<u8>)
    requires
        !has_delimiter(bytes),
    ensures
        messages_of(bytes) == Seq::<Seq<char>>::empty(),
        leftover_of(bytes) == bytes,
{
}

/// One step of chunk-boundary independence: draining `prefix` first and then
/// feeding `chunk` on top of the leftover yields the same messages and the
/// same leftover as receiving `prefix + chunk` in one piece.
pub proof fn lemma_feed_append(prefix: Seq<u8>, chunk: Seq<u8>)
    ensures
        messages_of(prefix + chunk) == messages_of(prefix) + messages_of(
            leftover_of(prefix) + chunk,
        ),
        leftover_of(prefix + chunk) == leftover_of(leftover_of(prefix) + chunk),
    decreases prefix.len(),
{
    if !has_delimiter(prefix) {
        assert(leftover_of(prefix) + chunk =~= prefix + chunk);
        assert(messages_of(prefix) + messages_of(prefix + chunk) =~= messages_of(prefix + chunk));
    } else {
        lemma_first_delimiter(prefix);
        let p = first_delimiter(prefix);
        let tail = prefix.skip(p + 1);
        assert((prefix + chunk)[p] == DELIMITER);
        assert(forall|j: int| 0 <= j < p ==> (prefix + chunk)[j] == prefix[j]);
        lemma_first_delimiter_unique(prefix + chunk, p);
        assert((prefix + chunk).take(p) =~= prefix.take(p));
        assert((prefix + chunk).skip(p + 1) =~= tail + chunk);
        lemma_feed_append(tail, chunk);
        match line_message(prefix.take(p)) {
            Some(m) => {
                assert(messages_of(prefix + chunk) == seq![m] + messages_of(tail + chunk));
                assert(messages_of(prefix) + messages_of(leftover_of(prefix) + chunk) =~= seq![m]
                    + (messages_of(tail) + messages_of(leftover_of(tail) + chunk)));
            },
            None => {},
        }
    }
}

/// Chunk-boundary independence: however a byte stream is split into chunks,
/// feeding them incrementally yields the same ordered messages and the same
/// leftover as decoding the whole concatenation in one shot.
pub proof fn lemma_chunk_boundary_independence(chunks: Seq<Seq<u8>>)
    ensures
        fed_messages(chunks) == messages_of(concat_of(chunks)),
        fed_leftover(chunks) == leftover_of(concat_of(chunks)),
    decreases chunks.len(),
{
    if chunks.len() == 0 {
        assert(!has_delimiter(Seq::<u8>::empty()));
    } else {
        let head = chunks.drop_last();
        lemma_chunk_boundary_independence(head);
        lemma_feed_append(concat_of(head), chunks.last());
    }
}

/// Round trip: encoding a message and draining the result yields exactly
/// that message and leaves nothing buffered, for any message whose bytes
/// hold no delimiter (the Message invariant).
pub proof fn lemma_encode_decode_round_trip(m: Seq<char>)
    requires
        !encode_utf8(m).contains(DELIMITER),
    ensures
        messages_of(encode_utf8(m) + seq![DELIMITER]) == seq![m],
        leftover_of(encode_utf8(m) + seq![DELIMITER]) == Seq::<u8>::empty(),
{
    let enc = encode_utf8(m);
    let b = enc + seq![DELIMITER];
    let p = enc.len() as int;
    assert(b[p] == DELIMITER);
    assert forall|j: int| 0 <= j < p implies b[j] != DELIMITER by {
        assert(b[j] == enc[j]);
        if enc[j] == DELIMITER {
            assert(enc.contains(DELIMITER));
        }
    }
    lemma_first_delimiter_unique(b, p);
    assert(b.take(p) =~= enc);
    assert(b.skip(p + 1) =~= Seq::<u8>::empty());
    vstd::utf8::encode_utf8_valid_utf8(m);
    vstd::utf8::encode_utf8_decode_utf8(m);
    assert(!has_delimiter(Seq::<u8>::empty()));
    assert(messages_of(Seq::<u8>::empty()) == Seq::<Seq<char>>::empty());
    assert(leftover_of(Seq::<u8>::empty()) == Seq::<u8>::empty());
    assert(messages_of(b) =~= seq![m]);
}

/// A malformed line between two delimiters is consumed and silently
/// dropped: the stream decodes exactly as if only the later bytes had
/// arrived, so later well-formed lines are not blocked.
pub proof fn lemma_malformed_line_dropped(line: Seq<u8>, rest: Seq<u8>)
    requires
        !valid_utf8(line),
        !line.contains(DELIMITER),
    ensures
        messages_of(line + seq![DELIMITER] + rest) == messages_of(rest),
        leftover_of(line + seq![DELIMITER] + rest) == leftover_of(rest),
{
    let b = line + seq![DELIMITER] + rest;
    let p = line.len() as int;
    assert(b[p] == DELIMITER);
    assert forall|j: int| 0 <= j < p implies b[j] != DELIMITER by {
        assert(b[j] == line[j]);
        if line[j] == DELIMITER {
            assert(line.contains(DELIMITER));
        }
    }
    lemma_first_delimiter_unique(b, p);
    assert(b.take(p) =~= line);
    assert(b.skip(p + 1) =~= rest);
}

} // verus!
