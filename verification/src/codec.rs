//! The streaming frame codec: an incremental decoder that extracts
//! newline-delimited UTF-8 lines from a byte buffer fed in arbitrary chunks,
//! and the symmetric encoder that serializes a line plus its delimiter.

use crate::buffer::buf_byte;
use crate::buffer::buf_len;
use crate::buffer::buf_put_slice;
use crate::buffer::buf_put_u8;
use crate::buffer::buf_reserve;
use crate::buffer::buf_split_to;
use crate::buffer::bytes_view;
use crate::frames::DELIMITER;
use crate::frames::drain_spec;
use crate::frames::first_newline;
use crate::frames::first_newline_from;
use crate::frames::lemma_first_newline_from;
use crate::frames::lemma_first_newline_from_unique;
use crate::frames::lemma_first_newline_resume;
use bytes::BytesMut;
use vstd::prelude::*;
use vstd::utf8::char_is_scalar;
use vstd::utf8::char_u32_cast;
use vstd::utf8::decode_utf8;
use vstd::utf8::encode_scalar;
use vstd::utf8::encode_utf8;
use vstd::utf8::encode_utf8_decode_utf8;
use vstd::utf8::encode_utf8_valid_utf8;
use vstd::utf8::valid_utf8;

verus! {

/// A decode fault: a delimiter was observed, but the frame's bytes are not
/// valid text. The connection that produced it is to be terminated; the
/// offending bytes are carried for reporting.
#[derive(Debug)]
pub struct DecodeFault {
    pub bytes: Vec<u8>,
}

/// Relies on `String::from_utf8`: it returns the decoded string exactly when
/// the bytes are a valid UTF-8 encoding, and hands the bytes back unchanged
/// otherwise.
#[verifier::external_body]
fn string_from_utf8(v: Vec<u8>) -> (r: Result<String, Vec<u8>>)
    ensures
        r is Ok <==> valid_utf8(v@),
        r matches Ok(line) ==> line@ == decode_utf8(v@),
        r matches Err(b) ==> b@ == v@,
{
    match String::from_utf8(v) {
        Ok(line) => Ok(line),
        Err(e) => Err(e.into_bytes()),
    }
}

/// The index of the first delimiter at or after `from`, or the buffer length
/// if the bytes from `from` on hold none. Each byte in between is examined
/// exactly once.
fn find_newline(buf: &BytesMut, from: usize) -> (r: usize)
    requires
        from <= bytes_view(*buf).len(),
    ensures
        r == first_newline_from(bytes_view(*buf), from as int),
{
    let n = buf_len(buf);
    let mut i: usize = from;
    while i < n
        invariant
            from <= i <= n,
            n == bytes_view(*buf).len(),
            first_newline_from(bytes_view(*buf), from as int) == first_newline_from(
                bytes_view(*buf),
                i as int,
            ),
        decreases n - i,
    {
        if buf_byte(buf, i) == DELIMITER {
            return i;
        }
        i = i + 1;
    }
    i
}

/// The first `n` bytes of the buffer, copied out in order.
fn copy_prefix(b: &BytesMut, n: usize) -> (r: Vec<u8>)
    requires
        n <= bytes_view(*b).len(),
    ensures
        r@ == bytes_view(*b).take(n as int),
{
    let mut v: Vec<u8> = Vec::new();
    let mut i: usize = 0;
    while i < n
        invariant
            i <= n,
            n <= bytes_view(*b).len(),
            v@ == bytes_view(*b).take(i as int),
        decreases n - i,
    {
        let x = buf_byte(b, i);
        v.push(x);
        proof {
            assert(v@ =~= bytes_view(*b).take(i + 1));
        }
        i = i + 1;
    }
    v
}

/// The incremental decoder state: the index of the next byte of the read
/// buffer to examine for a delimiter. Bytes before it were already passed
/// over without finding one, so no call ever scans a byte twice.
pub struct LinesCodec {
    next_index: usize,
}

impl LinesCodec {
    /// The scan cursor: the first index of the companion buffer not yet
    /// examined for a delimiter.
    pub closed spec fn spec_cursor(&self) -> int {
        self.next_index as int
    }

    /// The decoder is well formed with respect to the buffer contents `s` it
    /// scans: the cursor lies inside the buffer, and the bytes it has passed
    /// over hold no delimiter.
    pub open spec fn wf(&self, s: Seq<u8>) -> bool {
        &&& 0 <= self.spec_cursor() <= s.len()
        &&& forall|i: int| 0 <= i < self.spec_cursor() ==> s[i] != DELIMITER
    }

    /// A fresh decoder: nothing scanned yet.
    pub fn new() -> (r: LinesCodec)
        ensures
            r.spec_cursor() == 0,
    {
        LinesCodec { next_index: 0 }
    }

    /// The scan cursor, for callers outside the proof.
    pub fn scan_cursor(&self) -> (r: usize)
        ensures
            r == self.spec_cursor(),
    {
        self.next_index
    }

    /// One decode attempt. Only the bytes at or after the cursor are examined
    /// for a delimiter. If one stands at index `p`, the bytes before it are
    /// the frame: they are removed from the buffer together with the
    /// delimiter, the cursor resets, and the frame is returned as text, or as
    /// a fault if its bytes are not valid UTF-8. If no delimiter is found,
    /// the cursor advances to the buffer length and more data is needed.
    pub fn decode(&mut self, buf: &mut BytesMut) -> (r: Result<Option<String>, DecodeFault>)
        requires
            old(self).wf(bytes_view(*old(buf))),
        ensures
            final(self).wf(bytes_view(*final(buf))),
            ({
                let s = bytes_view(*old(buf));
                let p = first_newline(s);
                if p == s.len() {
                    &&& r matches Ok(found) && found is None
                    &&& bytes_view(*final(buf)) == s
                    &&& final(self).spec_cursor() == s.len()
                } else if valid_utf8(s.take(p)) {
                    &&& r matches Ok(found) && found matches Some(line) && line@ == decode_utf8(
                        s.take(p),
                    )
                    &&& bytes_view(*final(buf)) == s.skip(p + 1)
                    &&& final(self).spec_cursor() == 0
                } else {
                    &&& r matches Err(fault) && fault.bytes@ == s.take(p)
                    &&& bytes_view(*final(buf)) == s.skip(p + 1)
                    &&& final(self).spec_cursor() == 0
                }
            }),
    {
        let ghost s = bytes_view(*buf);
        proof {
            lemma_first_newline_resume(s, self.spec_cursor());
            lemma_first_newline_from(s, self.spec_cursor());
        }
        let n = buf_len(buf);
        let p = find_newline(buf, self.next_index);
        if p < n {
            let line_buf = buf_split_to(buf, p + 1);
            let payload = copy_prefix(&line_buf, p);
            proof {
                assert(payload@ =~= s.take(p as int));
            }
            self.next_index = 0;
            match string_from_utf8(payload) {
                Ok(line) => Ok(Some(line)),
                Err(bytes) => Err(DecodeFault { bytes }),
            }
        } else {
            self.next_index = n;
            Ok(None)
        }
    }

    /// Extracts every frame the buffer holds: decode attempts repeat until
    /// more data is needed or a fault ends the run. The lines delivered are
    /// the leading valid frames of the buffer, in order; nothing past a
    /// faulting frame is delivered.
    pub fn decode_all(&mut self, buf: &mut BytesMut) -> (r: (
        Vec<String>,
        Option<DecodeFault>,
    ))
        requires
            old(self).wf(bytes_view(*old(buf))),
        ensures
            final(self).wf(bytes_view(*final(buf))),
            ({
                let d = drain_spec(bytes_view(*old(buf)));
                &&& r.0@.len() == d.0.len()
                &&& forall|i: int|
                    0 <= i < d.0.len() ==> valid_utf8(#[trigger] d.0[i]) && r.0@[i]@ == decode_utf8(
                        d.0[i],
                    )
                &&& bytes_view(*final(buf)) == d.2
                &&& match r.1 {
                    None => {
                        &&& d.1 is None
                        &&& final(self).spec_cursor() == d.2.len()
                    },
                    Some(fault) => {
                        &&& d.1 matches Some(bad) && fault.bytes@ == bad
                        &&& final(self).spec_cursor() == 0
                    },
                }
            }),
    {
        let ghost s0 = bytes_view(*buf);
        let mut lines: Vec<String> = Vec::new();
        loop
            invariant
                self.wf(bytes_view(*buf)),
                s0 == bytes_view(*old(buf)),
                ({
                    let d0 = drain_spec(s0);
                    let d = drain_spec(bytes_view(*buf));
                    &&& lines@.len() + d.0.len() == d0.0.len()
                    &&& forall|i: int|
                        0 <= i < lines@.len() ==> valid_utf8(#[trigger] d0.0[i]) && lines@[i]@
                            == decode_utf8(d0.0[i])
                    &&& forall|j: int| 0 <= j < d.0.len() ==> #[trigger] d.0[j] == d0.0[
                        lines@.len() + j
                    ]
                    &&& d.1 == d0.1
                    &&& d.2 == d0.2
                }),
            decreases bytes_view(*buf).len(),
        {
            let ghost cur = bytes_view(*buf);
            proof {
                lemma_first_newline_from(cur, 0);
            }
            match self.decode(buf) {
                Ok(found) => {
                    match found {
                        Some(line) => {
                            proof {
                                let p = first_newline(cur);
                                let next = cur.skip(p + 1);
                                let d0 = drain_spec(s0);
                                let dc = drain_spec(cur);
                                let dn = drain_spec(next);
                                assert(0 <= p < cur.len());
                                assert(dc.0 =~= seq![cur.take(p)] + dn.0);
                                assert(dc.1 == dn.1);
                                assert(dc.2 == dn.2);
                                assert(dc.0[0] == cur.take(p));
                                assert(cur.take(p) == d0.0[lines@.len() as int]);
                                let ls = lines@.push(line);
                                assert forall|i: int|
                                    0 <= i < ls.len() implies valid_utf8(#[trigger] d0.0[i])
                                    && ls[i]@ == decode_utf8(d0.0[i]) by {
                                    if i == ls.len() - 1 {
                                        assert(ls[i] == line);
                                        assert(d0.0[i] == cur.take(p));
                                    }
                                };
                                assert forall|j: int|
                                    0 <= j < dn.0.len() implies #[trigger] dn.0[j] == d0.0[ls.len()
                                    + j] by {
                                    assert(dn.0[j] == dc.0[j + 1]);
                                };
                            }
                            lines.push(line);
                        },
                        None => {
                            proof {
                                let p = first_newline(cur);
                                assert(p == cur.len());
                                assert(drain_spec(cur).0.len() == 0);
                                assert(drain_spec(cur).1 is None);
                                assert(drain_spec(cur).2 == cur);
                            }
                            return (lines, None);
                        },
                    }
                },
                Err(fault) => {
                    proof {
                        let p = first_newline(cur);
                        assert(0 <= p < cur.len());
                        assert(drain_spec(cur).0.len() == 0);
                        assert(drain_spec(cur).1 == Some(cur.take(p)));
                        assert(drain_spec(cur).2 == cur.skip(p + 1));
                    }
                    return (lines, Some(fault));
                },
            }
        }
    }

    /// The per-read step of a connection: the chunk just received is appended
    /// to the buffer, then every complete frame now available is decoded.
    pub fn feed(&mut self, buf: &mut BytesMut, chunk: &[u8]) -> (r: (
        Vec<String>,
        Option<DecodeFault>,
    ))
        requires
            old(self).wf(bytes_view(*old(buf))),
        ensures
            final(self).wf(bytes_view(*final(buf))),
            ({
                let d = drain_spec(bytes_view(*old(buf)) + chunk@);
                &&& r.0@.len() == d.0.len()
                &&& forall|i: int|
                    0 <= i < d.0.len() ==> valid_utf8(#[trigger] d.0[i]) && r.0@[i]@ == decode_utf8(
                        d.0[i],
                    )
                &&& bytes_view(*final(buf)) == d.2
                &&& match r.1 {
                    None => {
                        &&& d.1 is None
                        &&& final(self).spec_cursor() == d.2.len()
                    },
                    Some(fault) => {
                        &&& d.1 matches Some(bad) && fault.bytes@ == bad
                        &&& final(self).spec_cursor() == 0
                    },
                }
            }),
    {
        buf_put_slice(buf, chunk);
        self.decode_all(buf)
    }

    /// Serializes a line for the wire: capacity for the line plus its
    /// delimiter is reserved, the line's UTF-8 bytes are appended verbatim,
    /// then the delimiter byte. No escaping is performed, so a line that
    /// itself holds the delimiter byte will not round-trip; keeping the
    /// delimiter out of line content is the caller's contract.
    pub fn encode(&mut self, item: String, buf: &mut BytesMut)
        ensures
            bytes_view(*final(buf)) == bytes_view(*old(buf)) + encode_utf8(item@) + seq![
                DELIMITER,
            ],
            *final(self) == *old(self),
    {
        let bytes = item.as_str().as_bytes();
        let n = bytes.len();
        if n < usize::MAX {
            buf_reserve(buf, n + 1);
        }
        buf_put_slice(buf, bytes);
        buf_put_u8(buf, DELIMITER);
        proof {
            assert(bytes_view(*buf) =~= bytes_view(*old(buf)) + encode_utf8(item@) + seq![
                DELIMITER,
            ]);
        }
    }
}

/// A character other than the line break never encodes to the delimiter
/// byte: a one-byte encoding is the scalar value itself, and every byte of a
/// longer encoding has its high bit set.
proof fn lemma_encode_scalar_no_delimiter(c: char)
    requires
        c != '\n',
    ensures
        forall|k: int|
            0 <= k < encode_scalar(c as u32).len() ==> #[trigger] encode_scalar(c as u32)[k]
                != DELIMITER,
{
    let u = c as u32;
    char_is_scalar(c);
    assert(u != 10) by {
        if u == 10 {
            char_u32_cast(c, u);
            char_u32_cast('\n', '\n' as u32);
        }
    }
    assert(u < 0x80 && u != 10 ==> ((u & 0x7F) as u8) != 10u8) by (bit_vector);
    assert(forall|y: u32| (0x80u8 | ((y & 0x3F) as u8)) != 10u8) by (bit_vector);
    assert(forall|y: u32| (0xC0u8 | ((y & 0x1F) as u8)) != 10u8) by (bit_vector);
    assert(forall|y: u32| (0xE0u8 | ((y & 0x0F) as u8)) != 10u8) by (bit_vector);
    assert(forall|y: u32| (0xF0u8 | ((y & 0x7) as u8)) != 10u8) by (bit_vector);
}

/// Encoding cannot invent a delimiter: a line without the line break
/// character encodes to bytes without the delimiter byte.
pub proof fn lemma_encode_no_delimiter(x: Seq<char>)
    requires
        forall|i: int| 0 <= i < x.len() ==> x[i] != '\n',
    ensures
        forall|k: int|
            0 <= k < encode_utf8(x).len() ==> #[trigger] encode_utf8(x)[k] != DELIMITER,
    decreases x.len(),
{
    if x.len() > 0 {
        let c = x[0];
        let head = encode_scalar(c as u32);
        let tail = encode_utf8(x.drop_first());
        lemma_encode_scalar_no_delimiter(c);
        lemma_encode_no_delimiter(x.drop_first());
        assert(encode_utf8(x) =~= head + tail);
        assert forall|k: int|
            0 <= k < encode_utf8(x).len() implies #[trigger] encode_utf8(x)[k] != DELIMITER by {
            if k < head.len() {
                assert(encode_utf8(x)[k] == head[k]);
            } else {
                assert(encode_utf8(x)[k] == tail[k - head.len()]);
            }
        };
    }
}

/// Round trip: a line holding no line break, once encoded and terminated by
/// its delimiter, drains back to exactly that one line, valid and decoded to
/// the original characters, with nothing left in the buffer.
pub proof fn lemma_round_trip(x: Seq<char>)
    requires
        forall|i: int| 0 <= i < x.len() ==> x[i] != '\n',
    ensures
        drain_spec(encode_utf8(x).push(DELIMITER)).0 == seq![encode_utf8(x)],
        drain_spec(encode_utf8(x).push(DELIMITER)).1 is None,
        drain_spec(encode_utf8(x).push(DELIMITER)).2 == Seq::<u8>::empty(),
        valid_utf8(encode_utf8(x)),
        decode_utf8(encode_utf8(x)) == x,
{
    let b = encode_utf8(x);
    let s = b.push(DELIMITER);
    lemma_encode_no_delimiter(x);
    encode_utf8_valid_utf8(x);
    encode_utf8_decode_utf8(x);
    lemma_first_newline_from_unique(s, 0, b.len() as int);
    assert(first_newline(s) == b.len());
    assert(s.take(b.len() as int) =~= b);
    assert(s.skip(b.len() as int + 1) =~= Seq::<u8>::empty());
    assert(drain_spec(Seq::<u8>::empty()).0 == Seq::<Seq<u8>>::empty());
    assert(drain_spec(Seq::<u8>::empty()).1 is None);
    assert(drain_spec(Seq::<u8>::empty()).2 == Seq::<u8>::empty());
    assert(valid_utf8(s.take(first_newline(s))));
    assert(drain_spec(s).0 =~= seq![b]);
    assert(drain_spec(s).2 =~= Seq::<u8>::empty());
}

} // verus!
