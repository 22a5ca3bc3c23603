//! The encrypted payload as a sequence of frames, and the writer and reader
//! that turn a plaintext byte stream into frames and back.
//!
//! Plaintext is cut into segments of `PLAIN_CHUNK` bytes; each is sealed at
//! its position in the stream and written behind a four-byte header. What is
//! left when the stream ends, possibly nothing, is sealed as the last
//! segment, and its header carries the terminal flag.

use crate::cipher::{
    open_segment, opened, seal_opens, seal_segment, sealed, wipe, KEY_LEN, PLAIN_CHUNK,
    STREAM_NONCE_LEN, TAG_LEN,
};
use crate::error::ArchiveError;
use crate::framing::{
    be32, decoded_header, header_word, lemma_header_round_trip, pack_chunk_header,
    unpack_chunk_header, MAX_FRAME_LEN,
};
use vstd::prelude::*;
use vstd::slice::slice_subrange;

verus! {

/// One frame: the header for `body`, then `body`.
pub open spec fn frame(last: bool, body: Seq<u8>) -> Seq<u8> {
    be32(header_word(last, body.len())) + body
}

/// How many full segments `data` holds.
pub open spec fn chunk_count(data: Seq<u8>) -> nat {
    data.len() / (PLAIN_CHUNK as nat)
}

/// The `i`-th full segment of `data`.
pub open spec fn chunk_at(data: Seq<u8>, i: nat) -> Seq<u8> {
    data.subrange(i * PLAIN_CHUNK, (i + 1) * PLAIN_CHUNK)
}

/// What follows the full segments of `data`: the last segment's plaintext.
pub open spec fn tail_of(data: Seq<u8>) -> Seq<u8> {
    data.skip(chunk_count(data) * PLAIN_CHUNK)
}

/// The frames of the first `upto` full segments of `data`.
pub open spec fn full_frames(key: Seq<u8>, nonce: Seq<u8>, data: Seq<u8>, upto: nat) -> Seq<u8>
    decreases upto,
{
    if upto == 0 {
        Seq::empty()
    } else {
        full_frames(key, nonce, data, (upto - 1) as nat) + frame(
            false,
            sealed(key, nonce, (upto - 1) as u32, false, chunk_at(data, (upto - 1) as nat)),
        )
    }
}

/// The terminal frame of the payload for `data`.
pub open spec fn last_frame(key: Seq<u8>, nonce: Seq<u8>, data: Seq<u8>) -> Seq<u8> {
    frame(true, sealed(key, nonce, chunk_count(data) as u32, true, tail_of(data)))
}

/// The whole encrypted payload for the plaintext `data`.
pub open spec fn payload_of(key: Seq<u8>, nonce: Seq<u8>, data: Seq<u8>) -> Seq<u8> {
    full_frames(key, nonce, data, chunk_count(data)) + last_frame(key, nonce, data)
}

/// Whether each of the first `upto` full segments of `data` opens again once
/// sealed.
pub open spec fn chunks_open(key: Seq<u8>, nonce: Seq<u8>, data: Seq<u8>, upto: nat) -> bool {
    forall|i: nat|
        i < upto ==> seal_opens(key, nonce, i as u32, false, #[trigger] chunk_at(data, i))
}

/// Whether every segment of the payload for `data` opens again once sealed.
pub open spec fn payload_opens(key: Seq<u8>, nonce: Seq<u8>, data: Seq<u8>) -> bool {
    &&& chunks_open(key, nonce, data, chunk_count(data))
    &&& seal_opens(key, nonce, chunk_count(data) as u32, true, tail_of(data))
}

/// What the next frame of `src` holds, read at `position`: its plaintext,
/// whether it is the terminal frame, and how many bytes it takes. `None`
/// where `src` ends before the frame does, the header is refused because it
/// announces no bytes, the position counter is used up, or the segment does
/// not authenticate.
pub open spec fn next_frame(key: Seq<u8>, nonce: Seq<u8>, position: nat, src: Seq<u8>) -> Option<
    (Seq<u8>, bool, nat),
> {
    if src.len() < 4 {
        None
    } else {
        match decoded_header(src.take(4)) {
            None => None,
            Some((last, n)) => if src.len() < 4 + n {
                None
            } else if !last && position >= u32::MAX {
                None
            } else {
                match opened(key, nonce, position as u32, last, src.subrange(4, 4 + n as int)) {
                    Some(p) => Some((p, last, 4 + n)),
                    None => None,
                }
            },
        }
    }
}

/// How many bytes a source lacks before its first frame stands whole in
/// it: what is missing of the header, or of the bytes that the header
/// announces. Nothing, where the header is refused.
pub open spec fn frame_shortfall(src: Seq<u8>) -> nat {
    if src.len() < 4 {
        (4 - src.len()) as nat
    } else {
        match decoded_header(src.take(4)) {
            None => 0,
            Some((_, n)) => if src.len() < 4 + n {
                (4 + n - src.len()) as nat
            } else {
                0
            },
        }
    }
}

/// `head`, then what `rest` holds, if it holds anything.
pub open spec fn prepend(head: Seq<u8>, rest: Option<Seq<u8>>) -> Option<Seq<u8>> {
    match rest {
        Some(r) => Some(head + r),
        None => None,
    }
}

/// The plaintext of the frames of `src` from `position` up to and including
/// the terminal frame; `None` where a frame fails or `src` ends before a
/// terminal frame. Bytes behind the terminal frame are not read.
pub open spec fn plain_of(key: Seq<u8>, nonce: Seq<u8>, position: nat, src: Seq<u8>) -> Option<
    Seq<u8>,
>
    decreases src.len(),
{
    match next_frame(key, nonce, position, src) {
        None => None,
        Some((p, last, size)) => if last {
            Some(p)
        } else if 0 < size <= src.len() {
            prepend(p, plain_of(key, nonce, position + 1, src.skip(size as int)))
        } else {
            None
        },
    }
}

/// Turns plaintext into frames, appended to a byte sink. What the sink
/// has gathered can be taken out while the stream goes on, so that a long
/// stream need not be held whole.
pub struct StreamEncryptWriter {
    inner: Vec<u8>,
    key: Vec<u8>,
    nonce: Vec<u8>,
    position: u32,
    buf: Vec<u8>,
    base: Ghost<Seq<u8>>,
    written: Ghost<Seq<u8>>,
    taken: Ghost<Seq<u8>>,
}

impl StreamEncryptWriter {
    /// All the bytes that have reached the sink: those handed out, then
    /// those it holds.
    pub closed spec fn sink(&self) -> Seq<u8> {
        self.taken@ + self.inner@
    }

    /// The bytes the sink holds now.
    pub closed spec fn held(&self) -> Seq<u8> {
        self.inner@
    }

    /// The bytes of the sink that were handed out.
    pub closed spec fn handed_out(&self) -> Seq<u8> {
        self.taken@
    }

    /// The bytes the sink held when the writer took it.
    pub closed spec fn base(&self) -> Seq<u8> {
        self.base@
    }

    /// All the plaintext written so far.
    pub closed spec fn accepted(&self) -> Seq<u8> {
        self.written@
    }

    pub closed spec fn key(&self) -> Seq<u8> {
        self.key@
    }

    pub closed spec fn nonce(&self) -> Seq<u8> {
        self.nonce@
    }

    /// The writer's invariant: the sink holds its first bytes and then the
    /// frames of every full segment written so far, each of which opens
    /// again; what is written beyond them waits in the buffer.
    pub closed spec fn wf(&self) -> bool {
        &&& self.key@.len() == KEY_LEN
        &&& self.nonce@.len() == STREAM_NONCE_LEN
        &&& self.position as nat == chunk_count(self.written@)
        &&& self.buf@ == tail_of(self.written@)
        &&& self.taken@ + self.inner@ == self.base@ + full_frames(
            self.key@,
            self.nonce@,
            self.written@,
            self.position as nat,
        )
        &&& chunks_open(self.key@, self.nonce@, self.written@, self.position as nat)
    }

    /// A writer that appends to `inner`, for a stream under `key` and `nonce`.
    pub fn new(inner: Vec<u8>, key: Vec<u8>, nonce: Vec<u8>) -> (w: Self)
        requires
            key@.len() == KEY_LEN,
            nonce@.len() == STREAM_NONCE_LEN,
        ensures
            w.wf(),
            w.sink() == inner@,
            w.held() == inner@,
            w.handed_out() == Seq::<u8>::empty(),
            w.base() == inner@,
            w.accepted() == Seq::<u8>::empty(),
            w.key() == key@,
            w.nonce() == nonce@,
    {
        let ghost base = inner@;
        let w = StreamEncryptWriter {
            inner,
            key,
            nonce,
            position: 0,
            buf: Vec::new(),
            base: Ghost(base),
            written: Ghost(Seq::empty()),
            taken: Ghost(Seq::empty()),
        };
        assert(w.buf@ =~= tail_of(w.written@));
        assert(w.taken@ + w.inner@ =~= w.base@ + full_frames(w.key@, w.nonce@, w.written@, 0));
        assert(w.taken@ + w.inner@ =~= w.inner@);
        w
    }

    /// Seals every full segment that the buffer holds and appends its frame
    /// to the sink. Fails with `SinkIo` where the stream would need more
    /// segments than its position counter can number.
    fn flush_chunks(&mut self, Ghost(all): Ghost<Seq<u8>>) -> (r: Result<(), ArchiveError>)
        requires
            old(self).key@.len() == KEY_LEN,
            old(self).nonce@.len() == STREAM_NONCE_LEN,
            old(self).position as nat * PLAIN_CHUNK + old(self).buf@.len() == all.len(),
            old(self).buf@ == all.skip(old(self).position as nat * PLAIN_CHUNK),
            old(self).taken@ + old(self).inner@ == old(self).base@ + full_frames(
                old(self).key@,
                old(self).nonce@,
                all,
                old(self).position as nat,
            ),
            chunks_open(old(self).key@, old(self).nonce@, all, old(self).position as nat),
        ensures
            final(self).key@ == old(self).key@,
            final(self).nonce@ == old(self).nonce@,
            final(self).base@ == old(self).base@,
            final(self).written@ == old(self).written@,
            final(self).taken@ == old(self).taken@,
            chunk_count(all) <= u32::MAX <==> r is Ok,
            r is Ok ==> {
                &&& final(self).position as nat == chunk_count(all)
                &&& final(self).buf@ == tail_of(all)
                &&& final(self).taken@ + final(self).inner@ == final(self).base@ + full_frames(
                    final(self).key@,
                    final(self).nonce@,
                    all,
                    final(self).position as nat,
                )
                &&& chunks_open(final(self).key@, final(self).nonce@, all, final(self).position as nat)
            },
            r matches Err(e) ==> e == ArchiveError::SinkIo,
    {
        let total = self.buf.len();
        let mut start: usize = 0;
        let ghost origin = self.position as nat;
        while total - start >= PLAIN_CHUNK
            invariant
                self.key@.len() == KEY_LEN,
                self.nonce@.len() == STREAM_NONCE_LEN,
                self.key@ == old(self).key@,
                self.nonce@ == old(self).nonce@,
                self.base@ == old(self).base@,
                self.written@ == old(self).written@,
                self.taken@ == old(self).taken@,
                self.buf@ == old(self).buf@,
                total == self.buf@.len(),
                start <= total,
                origin * PLAIN_CHUNK + total == all.len(),
                self.buf@ == all.skip(origin * PLAIN_CHUNK),
                self.position as nat * PLAIN_CHUNK == origin * PLAIN_CHUNK + start,
                self.taken@ + self.inner@ == self.base@ + full_frames(
                    self.key@,
                    self.nonce@,
                    all,
                    self.position as nat,
                ),
                chunks_open(self.key@, self.nonce@, all, self.position as nat),
            decreases total - start,
        {
            if self.position == u32::MAX {
                return Err(ArchiveError::SinkIo);
            }
            let chunk = slice_subrange(self.buf.as_slice(), start, start + PLAIN_CHUNK);
            assert(chunk@ =~= chunk_at(all, self.position as nat));
            match seal_segment(
                self.key.as_slice(),
                self.nonce.as_slice(),
                self.position,
                false,
                chunk,
            ) {
                None => {
                    return Err(ArchiveError::SinkIo);
                },
                Some(ct) => {
                    let header = pack_chunk_header(false, ct.len());
                    let ghost before = self.inner@;
                    self.inner.extend_from_slice(header.as_slice());
                    self.inner.extend_from_slice(ct.as_slice());
                    assert(self.inner@ =~= before + frame(false, ct@));
                    assert(self.taken@ + self.inner@ =~= (self.taken@ + before) + frame(
                        false,
                        ct@,
                    ));
                },
            }
            proof {
                let p = self.position as nat;
                assert forall|i: nat| i < p + 1 implies seal_opens(
                    self.key@,
                    self.nonce@,
                    i as u32,
                    false,
                    #[trigger] chunk_at(all, i),
                ) by {
                    if i < p {
                    }
                }
            }
            self.position = self.position + 1;
            start = start + PLAIN_CHUNK;
        }
        let rest = self.buf.split_off(start);
        self.buf = rest;
        assert(self.buf@ =~= tail_of(all));
        Ok(())
    }

    /// Takes `data` into the stream: all of it is accepted, and the frames
    /// of the segments that it completes reach the sink.
    pub fn write(&mut self, data: &[u8]) -> (r: Result<usize, ArchiveError>)
        requires
            old(self).wf(),
        ensures
            final(self).key() == old(self).key(),
            final(self).nonce() == old(self).nonce(),
            final(self).base() == old(self).base(),
            final(self).handed_out() == old(self).handed_out(),
            chunk_count(old(self).accepted() + data@) <= u32::MAX <==> r is Ok,
            match r {
                Ok(n) => {
                    &&& n == data@.len()
                    &&& final(self).wf()
                    &&& final(self).accepted() == old(self).accepted() + data@
                    &&& final(self).sink() == final(self).base() + full_frames(
                        final(self).key(),
                        final(self).nonce(),
                        final(self).accepted(),
                        chunk_count(final(self).accepted()),
                    )
                },
                Err(e) => e == ArchiveError::SinkIo,
            },
    {
        let ghost all = self.written@ + data@;
        let ghost origin = self.position as nat;
        self.buf.extend_from_slice(data);
        proof {
            assert(self.buf@ =~= all.skip(origin * PLAIN_CHUNK));
            lemma_frames_of_longer(self.key@, self.nonce@, self.written@, data@, origin);
        }
        let r = self.flush_chunks(Ghost(all));
        match r {
            Ok(()) => {
                self.written = Ghost(all);
                Ok(data.len())
            },
            Err(e) => Err(e),
        }
    }

    /// Hands out the bytes that the sink holds, and leaves it empty: they
    /// stay part of what has reached the sink.
    pub fn take_output(&mut self) -> (r: Vec<u8>)
        requires
            old(self).wf(),
        ensures
            final(self).wf(),
            r@ == old(self).held(),
            final(self).held() == Seq::<u8>::empty(),
            final(self).handed_out() == old(self).handed_out() + r@,
            final(self).sink() == old(self).sink(),
            final(self).accepted() == old(self).accepted(),
            final(self).base() == old(self).base(),
            final(self).key() == old(self).key(),
            final(self).nonce() == old(self).nonce(),
    {
        let out = self.inner.split_off(0);
        assert(out@ =~= old(self).inner@);
        assert(self.inner@ =~= Seq::<u8>::empty());
        self.taken = Ghost(self.taken@ + out@);
        assert(self.taken@ + self.inner@ =~= old(self).taken@ + old(self).inner@);
        out
    }

    /// Gives the stream up without ending it: key, nonce and the plaintext
    /// that waits in the buffer are wiped.
    pub fn close(self) {
        let mut me = self;
        wipe(&mut me.key);
        wipe(&mut me.nonce);
        wipe(&mut me.buf);
    }

    /// Ends the stream: what the buffer holds is sealed as the last segment
    /// and written as the terminal frame. Returns what the sink holds: with
    /// what was handed out before it, that is the sink's first bytes and
    /// the whole payload for what was written.
    pub fn finish(self) -> (r: Result<Vec<u8>, ArchiveError>)
        requires
            self.wf(),
        ensures
            r matches Ok(out) && self.handed_out() + out@ == self.base() + payload_of(
                self.key(),
                self.nonce(),
                self.accepted(),
            ) && out@ == self.held() + last_frame(self.key(), self.nonce(), self.accepted()),
            payload_opens(self.key(), self.nonce(), self.accepted()),
    {
        let mut me = self;
        match seal_segment(
            me.key.as_slice(),
            me.nonce.as_slice(),
            me.position,
            true,
            me.buf.as_slice(),
        ) {
            None => Err(ArchiveError::SinkIo),
            Some(ct) => {
                let header = pack_chunk_header(true, ct.len());
                let ghost before = me.inner@;
                me.inner.extend_from_slice(header.as_slice());
                me.inner.extend_from_slice(ct.as_slice());
                assert(me.inner@ =~= before + frame(true, ct@));
                assert(me.taken@ + me.inner@ =~= (me.taken@ + before) + frame(true, ct@));
                assert(me.taken@ + me.inner@ =~= me.base@ + payload_of(
                    me.key@,
                    me.nonce@,
                    me.written@,
                ));
                wipe(&mut me.key);
                wipe(&mut me.nonce);
                wipe(&mut me.buf);
                Ok(me.inner)
            },
        }
    }
}

/// The frames of the first segments of a plaintext do not change when more
/// plaintext follows.
pub proof fn lemma_frames_of_longer(
    key: Seq<u8>,
    nonce: Seq<u8>,
    data: Seq<u8>,
    more: Seq<u8>,
    upto: nat,
)
    requires
        upto * PLAIN_CHUNK <= data.len(),
    ensures
        full_frames(key, nonce, data + more, upto) == full_frames(key, nonce, data, upto),
        chunks_open(key, nonce, data, upto) ==> chunks_open(key, nonce, data + more, upto),
    decreases upto,
{
    if upto > 0 {
        lemma_frames_of_longer(key, nonce, data, more, (upto - 1) as nat);
        assert(chunk_at(data + more, (upto - 1) as nat) =~= chunk_at(data, (upto - 1) as nat));
    }
    if chunks_open(key, nonce, data, upto) {
        assert forall|i: nat| i < upto implies seal_opens(
            key,
            nonce,
            i as u32,
            false,
            #[trigger] chunk_at(data + more, i),
        ) by {
            assert(chunk_at(data + more, i) =~= chunk_at(data, i));
        }
    }
}

/// Turns frames back into plaintext. The source is held in memory, whole
/// from the start or fed frame by frame as the stream is read.
pub struct StreamDecryptReader {
    inner: Vec<u8>,
    cursor: usize,
    key: Vec<u8>,
    nonce: Vec<u8>,
    position: u32,
    done: bool,
    failed: bool,
    out_buf: Vec<u8>,
    out_pos: usize,
}

impl StreamDecryptReader {
    /// The bytes of the source that are not read yet.
    pub closed spec fn source_left(&self) -> Seq<u8> {
        self.inner@.skip(self.cursor as int)
    }

    /// The plaintext of the current frame that is not handed out yet.
    pub closed spec fn pending(&self) -> Seq<u8> {
        self.out_buf@.skip(self.out_pos as int)
    }

    /// The position in the stream of the next frame.
    pub closed spec fn position(&self) -> nat {
        self.position as nat
    }

    /// Whether the terminal frame has been read.
    pub closed spec fn done(&self) -> bool {
        self.done
    }

    /// Whether a frame has failed: the reader then fails for good.
    pub closed spec fn failed(&self) -> bool {
        self.failed
    }

    pub closed spec fn key(&self) -> Seq<u8> {
        self.key@
    }

    pub closed spec fn nonce(&self) -> Seq<u8> {
        self.nonce@
    }

    pub closed spec fn wf(&self) -> bool {
        &&& self.key@.len() == KEY_LEN
        &&& self.nonce@.len() == STREAM_NONCE_LEN
        &&& self.cursor <= self.inner@.len()
        &&& self.out_pos <= self.out_buf@.len()
    }

    /// A reader over `inner`, for a stream under `key` and `nonce`.
    pub fn new(inner: Vec<u8>, key: Vec<u8>, nonce: Vec<u8>) -> (r: Self)
        requires
            key@.len() == KEY_LEN,
            nonce@.len() == STREAM_NONCE_LEN,
        ensures
            r.wf(),
            r.source_left() == inner@,
            r.pending() == Seq::<u8>::empty(),
            r.position() == 0,
            !r.done(),
            !r.failed(),
            r.key() == key@,
            r.nonce() == nonce@,
    {
        let r = StreamDecryptReader {
            inner,
            cursor: 0,
            key,
            nonce,
            position: 0,
            done: false,
            failed: false,
            out_buf: Vec::new(),
            out_pos: 0,
        };
        assert(r.inner@.skip(0) =~= r.inner@);
        assert(r.out_buf@.skip(0) =~= Seq::<u8>::empty());
        r
    }

    /// Adds bytes to the end of the source. What was read of the source
    /// before is let go.
    pub fn feed(&mut self, bytes: &[u8])
        requires
            old(self).wf(),
        ensures
            final(self).wf(),
            final(self).source_left() == old(self).source_left() + bytes@,
            final(self).pending() == old(self).pending(),
            final(self).position() == old(self).position(),
            final(self).done() == old(self).done(),
            final(self).failed() == old(self).failed(),
            final(self).key() == old(self).key(),
            final(self).nonce() == old(self).nonce(),
    {
        if self.cursor > 0 {
            let rest = self.inner.split_off(self.cursor);
            self.inner = rest;
            self.cursor = 0;
        }
        assert(self.inner@.skip(0) =~= old(self).inner@.skip(old(self).cursor as int));
        self.inner.extend_from_slice(bytes);
        assert(self.inner@.skip(0) =~= old(self).source_left() + bytes@);
    }

    /// How many bytes the source must still be fed before the next read
    /// can open a frame: none while plaintext is pending, nor once the
    /// reader is at its end or has failed.
    pub fn shortfall(&self) -> (r: usize)
        requires
            self.wf(),
        ensures
            r == if self.pending().len() > 0 || self.done() || self.failed() {
                0
            } else {
                frame_shortfall(self.source_left())
            },
    {
        if self.out_pos < self.out_buf.len() || self.done || self.failed {
            return 0;
        }
        let left = self.inner.len() - self.cursor;
        if left < 4 {
            return 4 - left;
        }
        let header: [u8; 4] = [
            self.inner[self.cursor],
            self.inner[self.cursor + 1],
            self.inner[self.cursor + 2],
            self.inner[self.cursor + 3],
        ];
        assert(header@ =~= self.inner@.skip(self.cursor as int).take(4));
        match unpack_chunk_header(header) {
            None => 0,
            Some((_, n)) => if left - 4 < n {
                n - (left - 4)
            } else {
                0
            },
        }
    }

    /// Reads the next frame from the source and opens it. `Ok(false)` once
    /// the terminal frame has been read; `DecryptFailed` where the next
    /// frame fails in any way, the source ending before it among them, and
    /// ever after.
    pub fn refill(&mut self) -> (r: Result<bool, ArchiveError>)
        requires
            old(self).wf(),
        ensures
            final(self).wf(),
            final(self).key() == old(self).key(),
            final(self).nonce() == old(self).nonce(),
            old(self).failed() || old(self).done() ==> {
                &&& final(self).source_left() == old(self).source_left()
                &&& final(self).position() == old(self).position()
                &&& final(self).pending() == old(self).pending()
                &&& final(self).done() == old(self).done()
            },
            old(self).failed() ==> r == Err::<bool, ArchiveError>(ArchiveError::DecryptFailed)
                && final(self).failed(),
            !old(self).failed() && old(self).done() ==> r == Ok::<bool, ArchiveError>(false)
                && !final(self).failed(),
            !old(self).failed() && !old(self).done() ==> match next_frame(
                old(self).key(),
                old(self).nonce(),
                old(self).position(),
                old(self).source_left(),
            ) {
                None => r == Err::<bool, ArchiveError>(ArchiveError::DecryptFailed) && final(self).failed(),
                Some((p, last, size)) => {
                    &&& r == Ok::<bool, ArchiveError>(true)
                    &&& !final(self).failed()
                    &&& final(self).pending() == p
                    &&& final(self).done() == last
                    &&& size <= old(self).source_left().len()
                    &&& final(self).source_left() == old(self).source_left().skip(size as int)
                    &&& final(self).position() == old(self).position() + if last {
                        0nat
                    } else {
                        1nat
                    }
                },
            },
    {
        if self.failed {
            return Err(ArchiveError::DecryptFailed);
        }
        if self.done {
            return Ok(false);
        }
        let ghost src = self.inner@.skip(self.cursor as int);
        let left = self.inner.len() - self.cursor;
        if left < 4 {
            self.failed = true;
            return Err(ArchiveError::DecryptFailed);
        }
        let at = self.cursor;
        let header: [u8; 4] = [
            self.inner[at],
            self.inner[at + 1],
            self.inner[at + 2],
            self.inner[at + 3],
        ];
        assert(header@ =~= src.take(4));
        let (is_last, ct_len) = match unpack_chunk_header(header) {
            None => {
                self.failed = true;
                return Err(ArchiveError::DecryptFailed);
            },
            Some(h) => h,
        };
        if left - 4 < ct_len {
            self.failed = true;
            return Err(ArchiveError::DecryptFailed);
        }
        if !is_last && self.position == u32::MAX {
            self.failed = true;
            return Err(ArchiveError::DecryptFailed);
        }
        let body = slice_subrange(self.inner.as_slice(), at + 4, at + 4 + ct_len);
        assert(body@ =~= src.subrange(4, 4 + ct_len as int));
        match open_segment(
            self.key.as_slice(),
            self.nonce.as_slice(),
            self.position,
            is_last,
            body,
        ) {
            None => {
                self.failed = true;
                Err(ArchiveError::DecryptFailed)
            },
            Some(plain) => {
                if is_last {
                    self.done = true;
                } else {
                    self.position = self.position + 1;
                }
                self.cursor = at + 4 + ct_len;
                self.out_buf = plain;
                self.out_pos = 0;
                assert(self.inner@.skip(self.cursor as int) =~= src.skip(4 + ct_len as int));
                assert(self.out_buf@.skip(0) =~= self.out_buf@);
                Ok(true)
            },
        }
    }

    /// Hands out up to `max` bytes of plaintext, reading the next frame
    /// where the current one is used up. An empty result once the terminal
    /// frame is used up.
    pub fn read(&mut self, max: usize) -> (r: Result<Vec<u8>, ArchiveError>)
        requires
            old(self).wf(),
        ensures
            final(self).wf(),
            final(self).key() == old(self).key(),
            final(self).nonce() == old(self).nonce(),
            old(self).pending().len() > 0 ==> {
                &&& r matches Ok(v)
                &&& v@ == old(self).pending().take(
                    if max <= old(self).pending().len() {
                        max as int
                    } else {
                        old(self).pending().len() as int
                    },
                )
                &&& final(self).pending() == old(self).pending().skip(v@.len() as int)
                &&& final(self).source_left() == old(self).source_left()
                &&& final(self).position() == old(self).position()
                &&& final(self).done() == old(self).done()
                &&& final(self).failed() == old(self).failed()
            },
            old(self).pending().len() == 0 && old(self).failed() ==> r == Err::<
                Vec<u8>,
                ArchiveError,
            >(ArchiveError::DecryptFailed),
            old(self).pending().len() == 0 && (old(self).failed() || old(self).done()) ==> {
                &&& final(self).source_left() == old(self).source_left()
                &&& final(self).position() == old(self).position()
                &&& final(self).pending() == old(self).pending()
                &&& final(self).done() == old(self).done()
            },
            old(self).pending().len() == 0 && !old(self).failed() && old(self).done() ==> (r matches Ok(
                v,
            ) && v@.len() == 0 && final(self).done() && !final(self).failed()),
            old(self).pending().len() == 0 && !old(self).failed() && !old(self).done()
                ==> match next_frame(
                old(self).key(),
                old(self).nonce(),
                old(self).position(),
                old(self).source_left(),
            ) {
                None => r == Err::<Vec<u8>, ArchiveError>(ArchiveError::DecryptFailed) && final(self).failed(),
                Some((p, last, size)) => {
                    &&& r matches Ok(v)
                    &&& v@ == p.take(
                        if max <= p.len() {
                            max as int
                        } else {
                            p.len() as int
                        },
                    )
                    &&& final(self).pending() == p.skip(v@.len() as int)
                    &&& final(self).source_left() == old(self).source_left().skip(size as int)
                    &&& final(self).done() == last
                    &&& !final(self).failed()
                    &&& final(self).position() == old(self).position() + if last {
                        0nat
                    } else {
                        1nat
                    }
                },
            },
    {
        if self.out_pos >= self.out_buf.len() {
            match self.refill() {
                Err(e) => {
                    return Err(e);
                },
                Ok(more) => {
                    if !more {
                        return Ok(Vec::new());
                    }
                },
            }
        }
        let avail = self.out_buf.len() - self.out_pos;
        let n = if max <= avail {
            max
        } else {
            avail
        };
        let piece = slice_subrange(self.out_buf.as_slice(), self.out_pos, self.out_pos + n);
        let mut out: Vec<u8> = Vec::new();
        out.extend_from_slice(piece);
        assert(out@ =~= self.out_buf@.skip(self.out_pos as int).take(n as int));
        assert(self.out_buf@.skip(self.out_pos + n) =~= self.out_buf@.skip(
            self.out_pos as int,
        ).skip(n as int));
        self.out_pos = self.out_pos + n;
        Ok(out)
    }

    /// Gives the reader up: its key, its nonce and the plaintext it still
    /// holds are wiped.
    pub fn close(self) {
        let mut me = self;
        wipe(&mut me.key);
        wipe(&mut me.nonce);
        wipe(&mut me.out_buf);
    }

    /// Reads frames up to the terminal frame and returns all their
    /// plaintext, behind what was pending.
    pub fn read_to_end(&mut self) -> (r: Result<Vec<u8>, ArchiveError>)
        requires
            old(self).wf(),
        ensures
            final(self).wf(),
            final(self).key() == old(self).key(),
            final(self).nonce() == old(self).nonce(),
            old(self).failed() || old(self).done() ==> {
                &&& final(self).source_left() == old(self).source_left()
                &&& final(self).position() == old(self).position()
                &&& final(self).done() == old(self).done()
                &&& final(self).failed() == old(self).failed()
            },
            old(self).failed() ==> r == Err::<Vec<u8>, ArchiveError>(ArchiveError::DecryptFailed)
                && final(self).pending() == old(self).pending(),
            !old(self).failed() && old(self).done() ==> (r matches Ok(v) && v@ == old(self).pending()
                && final(self).pending().len() == 0),
            !old(self).failed() && !old(self).done() ==> match plain_of(
                old(self).key(),
                old(self).nonce(),
                old(self).position(),
                old(self).source_left(),
            ) {
                Some(p) => r matches Ok(v) && v@ == old(self).pending() + p && final(self).done()
                    && !final(self).failed() && final(self).pending().len() == 0,
                None => r == Err::<Vec<u8>, ArchiveError>(ArchiveError::DecryptFailed),
            },
    {
        if self.failed {
            return Err(ArchiveError::DecryptFailed);
        }
        let mut out: Vec<u8> = Vec::new();
        let first = slice_subrange(self.out_buf.as_slice(), self.out_pos, self.out_buf.len());
        out.extend_from_slice(first);
        self.out_pos = self.out_buf.len();
        let ghost key = self.key@;
        let ghost nonce = self.nonce@;
        let ghost goal = prepend(
            old(self).pending(),
            plain_of(key, nonce, old(self).position(), old(self).source_left()),
        );
        assert(out@ =~= old(self).pending());
        if self.done {
            return Ok(out);
        }
        while !self.done
            invariant
                self.wf(),
                !self.failed,
                !old(self).failed(),
                !old(self).done(),
                self.key@ == key,
                self.nonce@ == nonce,
                self.out_pos == self.out_buf@.len(),
                key == old(self).key(),
                nonce == old(self).nonce(),
                goal == prepend(
                    old(self).pending(),
                    plain_of(key, nonce, old(self).position(), old(self).source_left()),
                ),
                !self.done ==> goal == prepend(
                    out@,
                    plain_of(key, nonce, self.position as nat, self.inner@.skip(self.cursor as int)),
                ),
                self.done ==> goal == Some(out@),
            decreases self.inner@.skip(self.cursor as int).len(),
        {
            let ghost src = self.inner@.skip(self.cursor as int);
            let ghost before = out@;
            let ghost pos = self.position as nat;
            match self.refill() {
                Err(e) => {
                    return Err(e);
                },
                Ok(more) => {
                    let piece = slice_subrange(
                        self.out_buf.as_slice(),
                        self.out_pos,
                        self.out_buf.len(),
                    );
                    out.extend_from_slice(piece);
                    self.out_pos = self.out_buf.len();
                    proof {
                        match next_frame(key, nonce, pos, src) {
                            Some((p, last, size)) => {
                                assert(out@ =~= before + p);
                                if !last {
                                    let rest = plain_of(key, nonce, pos + 1, src.skip(size as int));
                                    assert(plain_of(key, nonce, pos, src) == prepend(p, rest));
                                    if rest is Some {
                                        assert(before + (p + rest->0) =~= (before + p) + rest->0);
                                    }
                                }
                            },
                            None => {},
                        }
                    }
                },
            }
        }
        assert(self.out_buf@.skip(self.out_pos as int).len() == 0);
        Ok(out)
    }
}

/// A frame that stands whole in a source is read the same whatever
/// follows it; so is a header that is refused.
pub proof fn lemma_next_frame_of_longer(
    key: Seq<u8>,
    nonce: Seq<u8>,
    position: nat,
    src: Seq<u8>,
    more: Seq<u8>,
)
    requires
        frame_shortfall(src) == 0,
    ensures
        next_frame(key, nonce, position, src + more) == next_frame(key, nonce, position, src),
{
    let all = src + more;
    assert(all.take(4) =~= src.take(4));
    match decoded_header(src.take(4)) {
        None => {},
        Some((last, n)) => {
            assert(all.subrange(4, 4 + n as int) =~= src.subrange(4, 4 + n as int));
        },
    }
}

/// A source that lacks bytes of its first frame holds no frame.
pub proof fn lemma_short_source_has_no_frame(
    key: Seq<u8>,
    nonce: Seq<u8>,
    position: nat,
    src: Seq<u8>,
)
    requires
        frame_shortfall(src) > 0,
    ensures
        next_frame(key, nonce, position, src) is None,
{
}

/// Encrypts `data` as one payload, appended to `sink`.
pub fn encrypt_payload(sink: Vec<u8>, key: Vec<u8>, nonce: Vec<u8>, data: &[u8]) -> (r: Result<
    Vec<u8>,
    ArchiveError,
>)
    requires
        key@.len() == KEY_LEN,
        nonce@.len() == STREAM_NONCE_LEN,
    ensures
        chunk_count(data@) <= u32::MAX <==> r is Ok,
        match r {
            Ok(out) => out@ == sink@ + payload_of(key@, nonce@, data@) && payload_opens(
                key@,
                nonce@,
                data@,
            ),
            Err(e) => e == ArchiveError::SinkIo,
        },
{
    let mut writer = StreamEncryptWriter::new(sink, key, nonce);
    assert(Seq::<u8>::empty() + data@ =~= data@);
    match writer.write(data) {
        Err(e) => Err(e),
        Ok(_) => {
            let r = writer.finish();
            proof {
                if r is Ok {
                    assert(Seq::<u8>::empty() + r->Ok_0@ =~= r->Ok_0@);
                }
            }
            r
        },
    }
}

/// Decrypts a payload: the plaintext of its frames up to the terminal frame.
pub fn decrypt_payload(payload: Vec<u8>, key: Vec<u8>, nonce: Vec<u8>) -> (r: Result<
    Vec<u8>,
    ArchiveError,
>)
    requires
        key@.len() == KEY_LEN,
        nonce@.len() == STREAM_NONCE_LEN,
    ensures
        match plain_of(key@, nonce@, 0, payload@) {
            Some(p) => r matches Ok(v) && v@ == p,
            None => r == Err::<Vec<u8>, ArchiveError>(ArchiveError::DecryptFailed),
        },
{
    let mut reader = StreamDecryptReader::new(payload, key, nonce);
    let r = reader.read_to_end();
    reader.close();
    proof {
        if r is Ok {
            assert(Seq::<u8>::empty() + r->Ok_0@ =~= r->Ok_0@);
            let p = plain_of(key@, nonce@, 0, payload@)->0;
            assert(Seq::<u8>::empty() + p =~= p);
        }
    }
    r
}

/// A frame that was sealed at `position` is read back from the head of a
/// source, whatever follows it.
pub proof fn lemma_frame_head(
    key: Seq<u8>,
    nonce: Seq<u8>,
    position: nat,
    last: bool,
    plain: Seq<u8>,
    rest: Seq<u8>,
)
    requires
        seal_opens(key, nonce, position as u32, last, plain),
        plain.len() <= PLAIN_CHUNK,
        position <= u32::MAX,
        !last ==> position < u32::MAX,
    ensures
        next_frame(
            key,
            nonce,
            position,
            frame(last, sealed(key, nonce, position as u32, last, plain)) + rest,
        ) == Some((plain, last, (4 + plain.len() + TAG_LEN) as nat)),
{
    let body = sealed(key, nonce, position as u32, last, plain);
    let src = frame(last, body) + rest;
    lemma_header_round_trip(last, body.len());
    assert(src.take(4) =~= be32(header_word(last, body.len())));
    assert(src.subrange(4, 4 + body.len() as int) =~= body);
}

/// A frame that is cut short is not read.
pub proof fn lemma_frame_cut(
    key: Seq<u8>,
    nonce: Seq<u8>,
    position: nat,
    last: bool,
    body: Seq<u8>,
    keep: int,
)
    requires
        1 <= body.len() <= MAX_FRAME_LEN,
        0 <= keep < 4 + body.len(),
    ensures
        next_frame(key, nonce, position, frame(last, body).take(keep)) is None,
{
    let src = frame(last, body).take(keep);
    if keep >= 4 {
        lemma_header_round_trip(last, body.len());
        assert(src.take(4) =~= be32(header_word(last, body.len())));
    }
}

/// The frames of the first segments of a plaintext decode to those segments,
/// and decoding goes on with what follows them.
pub proof fn lemma_frames_decode(
    key: Seq<u8>,
    nonce: Seq<u8>,
    data: Seq<u8>,
    upto: nat,
    rest: Seq<u8>,
)
    requires
        chunks_open(key, nonce, data, upto),
        upto <= u32::MAX,
        upto * PLAIN_CHUNK <= data.len(),
    ensures
        plain_of(key, nonce, 0, full_frames(key, nonce, data, upto) + rest) == prepend(
            data.take(upto * PLAIN_CHUNK),
            plain_of(key, nonce, upto, rest),
        ),
    decreases upto,
{
    if upto == 0 {
        assert(full_frames(key, nonce, data, 0) + rest =~= rest);
        assert(data.take(0) =~= Seq::<u8>::empty());
        let tail = plain_of(key, nonce, 0, rest);
        if tail is Some {
            assert(Seq::<u8>::empty() + tail->0 =~= tail->0);
        }
    } else {
        let u = (upto - 1) as nat;
        let chunk = chunk_at(data, u);
        let f = frame(false, sealed(key, nonce, u as u32, false, chunk));
        let before = full_frames(key, nonce, data, u);
        assert(full_frames(key, nonce, data, upto) + rest =~= before + (f + rest));
        lemma_frames_decode(key, nonce, data, u, f + rest);
        lemma_frame_head(key, nonce, u, false, chunk, rest);
        assert((f + rest).skip(f.len() as int) =~= rest);
        let tail = plain_of(key, nonce, upto, rest);
        assert(plain_of(key, nonce, u, f + rest) == prepend(chunk, tail));
        if tail is Some {
            assert(data.take(u * PLAIN_CHUNK) + (chunk + tail->0) =~= data.take(
                upto * PLAIN_CHUNK,
            ) + tail->0);
        }
    }
}

/// Frames of full segments that are cut short do not decode.
pub proof fn lemma_frames_cut(key: Seq<u8>, nonce: Seq<u8>, data: Seq<u8>, upto: nat, keep: int)
    requires
        chunks_open(key, nonce, data, upto),
        upto <= u32::MAX,
        upto * PLAIN_CHUNK <= data.len(),
        0 <= keep < full_frames(key, nonce, data, upto).len(),
    ensures
        plain_of(key, nonce, 0, full_frames(key, nonce, data, upto).take(keep)) is None,
    decreases upto,
{
    if upto > 0 {
        let u = (upto - 1) as nat;
        let body = sealed(key, nonce, u as u32, false, chunk_at(data, u));
        let f = frame(false, body);
        let before = full_frames(key, nonce, data, u);
        if keep < before.len() {
            assert(full_frames(key, nonce, data, upto).take(keep) =~= before.take(keep));
            lemma_frames_cut(key, nonce, data, u, keep);
        } else {
            let part = f.take(keep - before.len());
            assert(full_frames(key, nonce, data, upto).take(keep) =~= before + part);
            lemma_frames_decode(key, nonce, data, u, part);
            lemma_frame_cut(key, nonce, u, false, body, keep - before.len());
        }
    }
}

/// Whether a source begins with a whole frame that the cipher opens at
/// `position`.
pub open spec fn frame_opens(key: Seq<u8>, nonce: Seq<u8>, position: nat, src: Seq<u8>) -> bool {
    &&& src.len() >= 4
    &&& decoded_header(src.take(4)) matches Some((last, n))
    &&& src.len() >= 4 + n
    &&& opened(key, nonce, position as u32, last, src.subrange(4, 4 + n as int)) is Some
}

/// Behind the frames of the first segments of a plaintext, a stream is
/// read on only where what follows begins with a frame that the cipher
/// opens at that position. So bytes altered in a frame, in its header or
/// in its segment, are accepted only if the cipher opens the altered
/// segment: nothing else stands between them and `DecryptFailed`.
pub proof fn lemma_accepted_stream_opens_next_frame(
    key: Seq<u8>,
    nonce: Seq<u8>,
    data: Seq<u8>,
    upto: nat,
    rest: Seq<u8>,
)
    requires
        chunks_open(key, nonce, data, upto),
        upto <= u32::MAX,
        upto * PLAIN_CHUNK <= data.len(),
    ensures
        plain_of(key, nonce, 0, full_frames(key, nonce, data, upto) + rest) is Some
            ==> frame_opens(key, nonce, upto, rest),
{
    lemma_frames_decode(key, nonce, data, upto, rest);
}

/// A payload decodes to the plaintext it was made from.
pub proof fn lemma_payload_round_trip(key: Seq<u8>, nonce: Seq<u8>, data: Seq<u8>)
    requires
        payload_opens(key, nonce, data),
        chunk_count(data) <= u32::MAX,
    ensures
        plain_of(key, nonce, 0, payload_of(key, nonce, data)) == Some(data),
{
    let n = chunk_count(data);
    let f = last_frame(key, nonce, data);
    lemma_frames_decode(key, nonce, data, n, f);
    lemma_frame_head(key, nonce, n, true, tail_of(data), Seq::empty());
    assert(f + Seq::<u8>::empty() =~= f);
    assert(data.take(n * PLAIN_CHUNK) + tail_of(data) =~= data);
}

/// A payload that has lost bytes at its end does not decode: the terminal
/// frame is missing or incomplete.
pub proof fn lemma_truncated_payload_fails(key: Seq<u8>, nonce: Seq<u8>, data: Seq<u8>, keep: int)
    requires
        payload_opens(key, nonce, data),
        chunk_count(data) <= u32::MAX,
        0 <= keep < payload_of(key, nonce, data).len(),
    ensures
        plain_of(key, nonce, 0, payload_of(key, nonce, data).take(keep)) is None,
{
    let n = chunk_count(data);
    let before = full_frames(key, nonce, data, n);
    let body = sealed(key, nonce, n as u32, true, tail_of(data));
    let f = last_frame(key, nonce, data);
    if keep < before.len() {
        assert(payload_of(key, nonce, data).take(keep) =~= before.take(keep));
        lemma_frames_cut(key, nonce, data, n, keep);
    } else {
        let part = f.take(keep - before.len());
        assert(payload_of(key, nonce, data).take(keep) =~= before + part);
        lemma_frames_decode(key, nonce, data, n, part);
        lemma_frame_cut(key, nonce, n, true, body, keep - before.len());
    }
}

} // verus!
