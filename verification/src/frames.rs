//! The mathematical model of the frame stream: where the first delimiter
//! stands in a byte sequence, which complete frames a sequence holds, and what
//! remains buffered after they are extracted.

use vstd::prelude::*;
use vstd::utf8::valid_utf8;

verus! {

/// The delimiter byte that terminates a frame: `\n`.
pub const DELIMITER: u8 = 10;

/// The index of the first delimiter at or after `from`, or `s.len()` if the
/// bytes from `from` on hold none.
pub open spec fn first_newline_from(s: Seq<u8>, from: int) -> int
    decreases s.len() - from when from <= s.len()
{
    if from < 0 {
        first_newline_from(s, 0)
    } else if from >= s.len() {
        s.len() as int
    } else if s[from] == DELIMITER {
        from
    } else {
        first_newline_from(s, from + 1)
    }
}

/// The index of the first delimiter in `s`, or `s.len()` if there is none.
pub open spec fn first_newline(s: Seq<u8>) -> int {
    first_newline_from(s, 0)
}

/// The first delimiter at or after `from` lies no earlier than `from`, no
/// later than the end, and the bytes passed over on the way to it are not
/// delimiters; the byte at the result is a delimiter unless none was found.
pub proof fn lemma_first_newline_from(s: Seq<u8>, from: int)
    requires
        0 <= from <= s.len(),
    ensures
        from <= first_newline_from(s, from) <= s.len(),
        forall|i: int| from <= i < first_newline_from(s, from) ==> s[i] != DELIMITER,
        first_newline_from(s, from) < s.len() ==> s[first_newline_from(s, from)] == DELIMITER,
    decreases s.len() - from,
{
    if from < s.len() && s[from] != DELIMITER {
        lemma_first_newline_from(s, from + 1);
    }
}

/// Any index that the characterization of `first_newline_from` fits is the
/// first delimiter index: the spec function is pinned by what it promises.
pub proof fn lemma_first_newline_from_unique(s: Seq<u8>, from: int, p: int)
    requires
        0 <= from <= p <= s.len(),
        forall|i: int| from <= i < p ==> s[i] != DELIMITER,
        p < s.len() ==> s[p] == DELIMITER,
    ensures
        first_newline_from(s, from) == p,
    decreases p - from,
{
    if from < p {
        lemma_first_newline_from_unique(s, from + 1, p);
    }
}

/// Scanning may resume after a delimiter-free prefix without changing the
/// outcome: this is what lets the decoder skip the bytes it has already
/// examined.
pub proof fn lemma_first_newline_resume(s: Seq<u8>, from: int)
    requires
        0 <= from <= s.len(),
        forall|i: int| 0 <= i < from ==> s[i] != DELIMITER,
    ensures
        first_newline_from(s, from) == first_newline(s),
{
    lemma_first_newline_from(s, from);
    lemma_first_newline_from_unique(s, 0, first_newline_from(s, from));
}

/// The complete frames in `s`, in order: the maximal delimiter-free runs that
/// a delimiter terminates. Bytes after the last delimiter belong to no frame.
pub open spec fn frames_of(s: Seq<u8>) -> Seq<Seq<u8>>
    decreases s.len(),
{
    let p = first_newline(s);
    if 0 <= p < s.len() {
        seq![s.take(p)] + frames_of(s.skip(p + 1))
    } else {
        Seq::empty()
    }
}

/// The bytes after the last delimiter of `s`: what stays buffered once every
/// complete frame is extracted.
pub open spec fn rest_of(s: Seq<u8>) -> Seq<u8>
    decreases s.len(),
{
    let p = first_newline(s);
    if 0 <= p < s.len() {
        rest_of(s.skip(p + 1))
    } else {
        s
    }
}

/// What draining a buffer yields, validation included: the leading frames
/// whose bytes are valid text, then either the first frame that is not, or
/// nothing. Components: the frames delivered, the faulting frame if any, and
/// the bytes left in the buffer afterwards.
pub open spec fn drain_spec(s: Seq<u8>) -> (Seq<Seq<u8>>, Option<Seq<u8>>, Seq<u8>)
    decreases s.len(),
{
    let p = first_newline(s);
    if !(0 <= p < s.len()) {
        (Seq::empty(), None, s)
    } else if valid_utf8(s.take(p)) {
        let r = drain_spec(s.skip(p + 1));
        (seq![s.take(p)] + r.0, r.1, r.2)
    } else {
        (Seq::empty(), Some(s.take(p)), s.skip(p + 1))
    }
}

/// When no frame faults, draining delivers exactly the complete frames and
/// buffers exactly the unterminated tail.
pub proof fn lemma_drain_no_fault(s: Seq<u8>)
    requires
        drain_spec(s).1 is None,
    ensures
        drain_spec(s).0 == frames_of(s),
        drain_spec(s).2 == rest_of(s),
    decreases s.len(),
{
    lemma_first_newline_from(s, 0);
    let p = first_newline(s);
    if 0 <= p < s.len() {
        lemma_drain_no_fault(s.skip(p + 1));
    }
}

/// A drain faults exactly when one of the complete frames is not valid text:
/// the fault is never spurious, and no invalid frame slips through.
pub proof fn lemma_drain_fault(s: Seq<u8>)
    ensures
        drain_spec(s).1 is Some <==> exists|j: int|
            0 <= j < frames_of(s).len() && !valid_utf8(#[trigger] frames_of(s)[j]),
    decreases s.len(),
{
    lemma_first_newline_from(s, 0);
    let p = first_newline(s);
    if 0 <= p < s.len() {
        let f = s.take(p);
        let next = s.skip(p + 1);
        lemma_drain_fault(next);
        assert(frames_of(s) =~= seq![f] + frames_of(next));
        if valid_utf8(f) {
            if drain_spec(next).1 is Some {
                let j = choose|j: int|
                    0 <= j < frames_of(next).len() && !valid_utf8(#[trigger] frames_of(next)[j]);
                assert(!valid_utf8(frames_of(s)[j + 1]));
            }
            if exists|j: int|
                0 <= j < frames_of(s).len() && !valid_utf8(#[trigger] frames_of(s)[j]) {
                let j = choose|j: int|
                    0 <= j < frames_of(s).len() && !valid_utf8(#[trigger] frames_of(s)[j]);
                assert(j != 0);
                assert(!valid_utf8(frames_of(next)[j - 1]));
            }
        } else {
            assert(!valid_utf8(frames_of(s)[0]));
        }
    } else {
        assert(frames_of(s) =~= Seq::<Seq<u8>>::empty());
    }
}

/// The leftover after every complete frame is extracted holds no delimiter:
/// it is a frame still waiting for one.
pub proof fn lemma_rest_of_no_newline(s: Seq<u8>)
    ensures
        first_newline(rest_of(s)) == rest_of(s).len(),
    decreases s.len(),
{
    lemma_first_newline_from(s, 0);
    let p = first_newline(s);
    if 0 <= p < s.len() {
        lemma_rest_of_no_newline(s.skip(p + 1));
    }
}

/// Appending bytes to a buffer composes: the frames of the whole are the
/// frames already complete, then the frames that the new bytes complete out
/// of the leftover; the leftover likewise.
pub proof fn lemma_frames_append(a: Seq<u8>, b: Seq<u8>)
    ensures
        frames_of(a + b) == frames_of(a) + frames_of(rest_of(a) + b),
        rest_of(a + b) == rest_of(rest_of(a) + b),
    decreases a.len(),
{
    lemma_first_newline_from(a, 0);
    let p = first_newline(a);
    if 0 <= p < a.len() {
        lemma_first_newline_from_unique(a + b, 0, p);
        assert((a + b).take(p) =~= a.take(p));
        assert((a + b).skip(p + 1) =~= a.skip(p + 1) + b);
        lemma_frames_append(a.skip(p + 1), b);
        assert(frames_of(a + b) =~= frames_of(a) + frames_of(rest_of(a) + b));
    } else {
        assert(a + b =~= rest_of(a) + b);
        assert(frames_of(a) + frames_of(rest_of(a) + b) =~= frames_of(rest_of(a) + b));
    }
}

/// The concatenation of a sequence of chunks, in order.
pub open spec fn concat_chunks(chunks: Seq<Seq<u8>>) -> Seq<u8>
    decreases chunks.len(),
{
    if chunks.len() == 0 {
        Seq::empty()
    } else {
        chunks[0] + concat_chunks(chunks.drop_first())
    }
}

/// The frames an incremental run delivers: starting from the buffered
/// leftover, each chunk is appended in turn and the complete frames are
/// extracted before the next chunk arrives.
pub open spec fn run_frames(leftover: Seq<u8>, chunks: Seq<Seq<u8>>) -> Seq<Seq<u8>>
    decreases chunks.len(),
{
    if chunks.len() == 0 {
        Seq::empty()
    } else {
        frames_of(leftover + chunks[0]) + run_frames(
            rest_of(leftover + chunks[0]),
            chunks.drop_first(),
        )
    }
}

/// The bytes such a run leaves buffered at the end.
pub open spec fn run_rest(leftover: Seq<u8>, chunks: Seq<Seq<u8>>) -> Seq<u8>
    decreases chunks.len(),
{
    if chunks.len() == 0 {
        leftover
    } else {
        run_rest(rest_of(leftover + chunks[0]), chunks.drop_first())
    }
}

proof fn lemma_run_general(leftover: Seq<u8>, chunks: Seq<Seq<u8>>)
    requires
        first_newline(leftover) == leftover.len(),
    ensures
        run_frames(leftover, chunks) == frames_of(leftover + concat_chunks(chunks)),
        run_rest(leftover, chunks) == rest_of(leftover + concat_chunks(chunks)),
    decreases chunks.len(),
{
    if chunks.len() == 0 {
        assert(leftover + concat_chunks(chunks) =~= leftover);
        assert(frames_of(leftover) =~= Seq::<Seq<u8>>::empty());
    } else {
        let b = leftover + chunks[0];
        let cs = chunks.drop_first();
        lemma_rest_of_no_newline(b);
        lemma_run_general(rest_of(b), cs);
        lemma_frames_append(b, concat_chunks(cs));
        assert(leftover + concat_chunks(chunks) =~= b + concat_chunks(cs));
    }
}

/// Chunk boundaries do not matter: however a byte stream is split, the
/// incremental run delivers exactly the frames of the whole stream, in order,
/// and buffers exactly its unterminated tail.
pub proof fn lemma_split_invariance(chunks: Seq<Seq<u8>>)
    ensures
        run_frames(Seq::empty(), chunks) == frames_of(concat_chunks(chunks)),
        run_rest(Seq::empty(), chunks) == rest_of(concat_chunks(chunks)),
{
    lemma_run_general(Seq::empty(), chunks);
    assert(Seq::<u8>::empty() + concat_chunks(chunks) =~= concat_chunks(chunks));
}

/// The bytes one buffer's drain examines, counted from the given cursor: each
/// decode attempt compares one byte per position from the cursor to the
/// delimiter it finds (inclusive), or to the end of the buffer when none
/// remains.
pub open spec fn drain_cost(s: Seq<u8>, cursor: int) -> int
    decreases s.len(),
{
    let p = first_newline(s);
    if 0 <= p < s.len() {
        (p + 1 - cursor) + drain_cost(s.skip(p + 1), 0)
    } else {
        s.len() - cursor
    }
}

/// Draining a buffer examines each byte past the cursor exactly once.
pub proof fn lemma_drain_cost(s: Seq<u8>, cursor: int)
    ensures
        drain_cost(s, cursor) == s.len() - cursor,
    decreases s.len(),
{
    lemma_first_newline_from(s, 0);
    let p = first_newline(s);
    if 0 <= p < s.len() {
        lemma_drain_cost(s.skip(p + 1), 0);
    }
}

/// The comparisons a whole run makes: a drain ends with the cursor at the
/// leftover's length, so the next chunk's drain starts there and pays only
/// for bytes it has not seen.
pub open spec fn run_cost(leftover: Seq<u8>, chunks: Seq<Seq<u8>>) -> int
    decreases chunks.len(),
{
    if chunks.len() == 0 {
        0
    } else {
        drain_cost(leftover + chunks[0], leftover.len() as int) + run_cost(
            rest_of(leftover + chunks[0]),
            chunks.drop_first(),
        )
    }
}

proof fn lemma_run_cost_general(leftover: Seq<u8>, chunks: Seq<Seq<u8>>)
    ensures
        run_cost(leftover, chunks) == concat_chunks(chunks).len(),
    decreases chunks.len(),
{
    if chunks.len() > 0 {
        let b = leftover + chunks[0];
        lemma_drain_cost(b, leftover.len() as int);
        lemma_run_cost_general(rest_of(b), chunks.drop_first());
    }
}

/// The cursor makes the incremental scan linear: however the stream is split,
/// the total number of byte comparisons across all decode calls equals the
/// total input length. No byte is examined twice.
pub proof fn lemma_scan_linear(chunks: Seq<Seq<u8>>)
    ensures
        run_cost(Seq::empty(), chunks) == concat_chunks(chunks).len(),
{
    lemma_run_cost_general(Seq::empty(), chunks);
}

} // verus!
