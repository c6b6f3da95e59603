//! Re-framing of a byte stream into sub-streams of bounded size.
use vstd::prelude::*;
use vstd::slice::slice_subrange;
use vstd::slice::slice_to_vec;
use vstd::string::StringExecFns;

verus! {

/// An input frame of the splitter.
pub enum Data {
    Payload(Vec<u8>),
    EofWithChecksum(String),
}

/// A record emitted on the outer channel: a new sub-stream starting at an
/// offset, or the terminal record with the total size and the checksum.
pub enum ChunkStream<R> {
    Receiver(u64, R),
    EofWithCheckSum(u64, String),
}

pub struct StreamSplitterError(pub String);

impl StreamSplitterError {
    pub fn message(&self) -> (r: String)
        ensures
            r@ == self.0@,
    {
        self.0.clone()
    }
}

/// One step of the splitter over a payload: `len` bytes go into the current
/// sub-stream, and when `opens` is set a new sub-stream starting at that offset
/// is opened before them.
#[derive(Clone, Copy, Debug, PartialEq, Eq)]
pub struct Piece {
    pub opens: Option<u64>,
    pub len: usize,
}

/// The piece that a splitter in state `s` places next, of a payload that
/// still has `rem` bytes: a new sub-stream opens only when the current one is
/// full, and the piece fills the sub-stream as far as the payload allows.
pub open spec fn piece_of(s: Splitter, rem: int) -> Piece {
    let full = s.stream_size == s.stream_max_size;
    let base: int = if full {
        0
    } else {
        s.stream_size as int
    };
    let room: int = s.stream_max_size - base;
    Piece {
        opens: if full {
            Some(s.offset)
        } else {
            None
        },
        len: (if rem <= room {
            rem
        } else {
            room
        }) as usize,
    }
}

/// The state after placing `piece_of(s, rem)`.
pub open spec fn after_piece(s: Splitter, rem: int) -> Splitter {
    let base: int = if s.stream_size == s.stream_max_size {
        0
    } else {
        s.stream_size as int
    };
    let len = piece_of(s, rem).len;
    Splitter {
        stream_max_size: s.stream_max_size,
        offset: (s.offset + len) as u64,
        stream_size: (base + len) as u64,
    }
}

/// `ps` are the pieces that a splitter in state `s` places, one after the
/// other, for a payload of `rem` bytes.
pub open spec fn valid_run(s: Splitter, rem: int, ps: Seq<Piece>) -> bool
    decreases ps.len(),
{
    if ps.len() == 0 {
        true
    } else {
        rem > 0 && ps[0] == piece_of(s, rem) && valid_run(
            after_piece(s, rem),
            rem - ps[0].len,
            ps.drop_first(),
        )
    }
}

/// The state and the bytes left after placing the pieces `ps`.
pub open spec fn run_end(s: Splitter, rem: int, ps: Seq<Piece>) -> (Splitter, int)
    decreases ps.len(),
{
    if ps.len() == 0 {
        (s, rem)
    } else {
        run_end(after_piece(s, rem), rem - ps[0].len, ps.drop_first())
    }
}

proof fn lemma_after_piece(s: Splitter, rem: int)
    requires
        s.wf(),
        0 < rem <= usize::MAX,
        s.offset + rem <= u64::MAX,
    ensures
        after_piece(s, rem).wf(),
        0 < piece_of(s, rem).len <= rem,
        after_piece(s, rem).offset == s.offset + piece_of(s, rem).len,
        after_piece(s, rem).stream_size == (if piece_of(s, rem).opens is Some {
            0
        } else {
            s.stream_size as int
        }) + piece_of(s, rem).len,
        after_piece(s, rem).stream_max_size == s.stream_max_size,
{
}

proof fn lemma_run_push(s: Splitter, rem: int, ps: Seq<Piece>, p: Piece)
    requires
        rem <= usize::MAX,
        valid_run(s, rem, ps),
        run_end(s, rem, ps).1 > 0,
        p == piece_of(run_end(s, rem, ps).0, run_end(s, rem, ps).1),
    ensures
        valid_run(s, rem, ps.push(p)),
        run_end(s, rem, ps.push(p)) == (
            after_piece(run_end(s, rem, ps).0, run_end(s, rem, ps).1),
            run_end(s, rem, ps).1 - p.len,
        ),
    decreases ps.len(),
{
    if ps.len() > 0 {
        assert(ps.push(p)[0] == ps[0]);
        assert(ps.push(p).drop_first() =~= ps.drop_first().push(p));
        assert(valid_run(after_piece(s, rem), rem - ps[0].len, ps.drop_first()));
        assert(run_end(s, rem, ps) == run_end(after_piece(s, rem), rem - ps[0].len, ps.drop_first()));
        lemma_run_push(after_piece(s, rem), rem - ps[0].len, ps.drop_first(), p);

    } else {
        assert(ps.push(p)[0] == p);
        assert(ps.push(p).drop_first() =~= Seq::<Piece>::empty());
        assert(valid_run(after_piece(s, rem), rem - p.len, Seq::<Piece>::empty()));
        assert(run_end(after_piece(s, rem), rem - p.len, Seq::<Piece>::empty()) == (
            after_piece(s, rem),
            rem - p.len,
        ));
    }
}

/// Splitter state: the total number of bytes consumed and the number of bytes
/// placed into the sub-stream that is currently open.
pub struct Splitter {
    pub stream_max_size: u64,
    pub offset: u64,
    pub stream_size: u64,
}

impl Splitter {
    pub open spec fn wf(&self) -> bool {
        &&& 0 < self.stream_max_size
        &&& self.stream_size <= self.stream_max_size
        &&& self.stream_size <= self.offset
        &&& self.offset > 0 ==> self.stream_size > 0
    }

    /// A splitter that has just opened its first sub-stream, at offset 0.
    pub fn new(stream_max_size: u64) -> (s: Splitter)
        requires
            stream_max_size > 0,
        ensures
            s.wf(),
            s.stream_max_size == stream_max_size,
            s.offset == 0,
            s.stream_size == 0,
    {
        Splitter { stream_max_size, offset: 0, stream_size: 0 }
    }

    /// Places the next bytes of a payload that still has `remaining` bytes.
    /// A new sub-stream is opened only when the current one is full.
    pub fn next_piece(&mut self, remaining: usize) -> (p: Piece)
        requires
            old(self).wf(),
            remaining > 0,
            old(self).offset + remaining <= u64::MAX,
        ensures
            final(self).wf(),
            final(self).stream_max_size == old(self).stream_max_size,
            p.opens == (if old(self).stream_size == old(self).stream_max_size {
                Some(old(self).offset)
            } else {
                None::<u64>
            }),
            ({
                let base = if p.opens is Some { 0 } else { old(self).stream_size as int };
                let room = old(self).stream_max_size - base;
                &&& p.len == (if remaining <= room { remaining as int } else { room })
                &&& final(self).stream_size == base + p.len
            }),
            0 < p.len <= remaining,
            final(self).offset == old(self).offset + p.len,
            p == piece_of(*old(self), remaining as int),
            *final(self) == after_piece(*old(self), remaining as int),
    {
        let opens = if self.stream_size == self.stream_max_size {
            self.stream_size = 0;
            Some(self.offset)
        } else {
            None
        };
        let available = self.stream_max_size - self.stream_size;
        let len: usize = if (remaining as u64) <= available {
            remaining
        } else {
            available as usize
        };
        self.stream_size = self.stream_size + len as u64;
        self.offset = self.offset + len as u64;
        Piece { opens, len }
    }

    /// Places a whole payload of `len` bytes: the pieces, in order, that
    /// `next_piece` gives one after the other.
    pub fn payload_pieces(&mut self, len: usize) -> (r: Vec<Piece>)
        requires
            old(self).wf(),
            old(self).offset + len <= u64::MAX,
        ensures
            final(self).wf(),
            valid_run(*old(self), len as int, r@),
            run_end(*old(self), len as int, r@) == (*final(self), 0int),
            final(self).offset == old(self).offset + len,
            final(self).stream_max_size == old(self).stream_max_size,
    {
        let ghost start = *self;
        let mut r: Vec<Piece> = Vec::new();
        let mut pos: usize = 0;
        while pos < len
            invariant
                0 <= pos <= len,
                self.wf(),
                self.offset == start.offset + pos,
                start.offset + len <= u64::MAX,
                self.stream_max_size == start.stream_max_size,
                valid_run(start, len as int, r@),
                run_end(start, len as int, r@) == (*self, len - pos),
            decreases len - pos,
        {
            let ghost before = *self;
            let p = self.next_piece(len - pos);
            proof {
                lemma_run_push(start, len as int, r@, p);
            }
            r.push(p);
            pos = pos + p.len;
        }
        r
    }

    /// The record that opens a sub-stream at the current offset.
    pub fn stream_record<R>(&self, receiver: R) -> (r: ChunkStream<R>)
        ensures
            r == ChunkStream::Receiver(self.offset, receiver),
    {
        ChunkStream::Receiver(self.offset, receiver)
    }

    /// The terminal record: the total byte count and the checksum.
    pub fn eof_record<R>(&self, checksum: String) -> (r: ChunkStream<R>)
        ensures
            r == ChunkStream::<R>::EofWithCheckSum(self.offset, checksum),
    {
        ChunkStream::EofWithCheckSum(self.offset, checksum)
    }
}


/// A sub-stream: its starting offset and its chunks, in order.
pub struct SubStream {
    pub offset: u64,
    pub chunks: Vec<Vec<u8>>,
}

/// How the input of a splitter run ended.
pub enum SplitEnd {
    /// An end-of-stream frame: the total byte count and its checksum.
    Eof(u64, String),
    /// An error frame, forwarded into the last sub-stream.
    Failed(String),
    /// The input ran out without an end-of-stream frame.
    Unterminated,
}

pub struct SplitOutput {
    pub streams: Vec<SubStream>,
    pub end: SplitEnd,
}

/// The bytes of a sequence of chunks, in order.
pub open spec fn concat(chunks: Seq<Seq<u8>>) -> Seq<u8>
    decreases chunks.len(),
{
    if chunks.len() == 0 {
        Seq::empty()
    } else {
        concat(chunks.drop_last()) + chunks.last()
    }
}

pub open spec fn chunk_views(chunks: Seq<Vec<u8>>) -> Seq<Seq<u8>> {
    chunks.map_values(|c: Vec<u8>| c@)
}

/// The bytes carried by a sub-stream.
pub open spec fn content(s: SubStream) -> Seq<u8> {
    concat(chunk_views(s.chunks@))
}

/// The bytes carried by a sequence of sub-streams, in order.
pub open spec fn concat_all(streams: Seq<SubStream>) -> Seq<u8>
    decreases streams.len(),
{
    if streams.len() == 0 {
        Seq::empty()
    } else {
        concat_all(streams.drop_last()) + content(streams.last())
    }
}

pub open spec fn is_payload(d: Result<Data, String>) -> bool {
    d matches Ok(Data::Payload(_))
}

/// The number of payload frames before the first other frame.
pub open spec fn stop_index(frames: Seq<Result<Data, String>>) -> nat
    decreases frames.len(),
{
    if frames.len() == 0 {
        0
    } else if is_payload(frames[0]) {
        1 + stop_index(frames.drop_first())
    } else {
        0
    }
}

/// The bytes of all payload frames, in order.
pub open spec fn payload_bytes(frames: Seq<Result<Data, String>>) -> Seq<u8>
    decreases frames.len(),
{
    if frames.len() == 0 {
        Seq::empty()
    } else {
        payload_bytes(frames.drop_last()) + match frames.last() {
            Ok(Data::Payload(b)) => b@,
            _ => Seq::empty(),
        }
    }
}

/// The bytes that a splitter run consumes: the payloads before the first
/// frame that is not a payload.
pub open spec fn consumed(frames: Seq<Result<Data, String>>) -> Seq<u8> {
    payload_bytes(frames.take(stop_index(frames) as int))
}

/// Sub-streams that carry their bytes in order: every one but the last is
/// filled to `max`, the last holds at most `max` bytes and is empty only when it
/// is the only one, each starts at the number of bytes before it, and no chunk
/// is empty.
pub open spec fn well_framed(streams: Seq<SubStream>, max: nat) -> bool {
    &&& streams.len() >= 1
    &&& forall|k: int| 0 <= k < streams.len() - 1 ==> #[trigger] content(streams[k]).len() == max
    &&& content(streams.last()).len() <= max
    &&& streams.len() > 1 ==> content(streams.last()).len() > 0
    &&& forall|k: int|
        0 <= k < streams.len() ==> #[trigger] streams[k].offset == concat_all(streams.take(k)).len()
    &&& forall|k: int, j: int|
        0 <= k < streams.len() && 0 <= j < streams[k].chunks.len() ==> #[trigger] streams[k].chunks[j]@.len()
            > 0
}

proof fn lemma_concat_push(chunks: Seq<Vec<u8>>, c: Vec<u8>)
    ensures
        concat(chunk_views(chunks.push(c))) == concat(chunk_views(chunks)) + c@,
{
    assert(chunk_views(chunks.push(c)).drop_last() =~= chunk_views(chunks));
}

proof fn lemma_concat_all_push(streams: Seq<SubStream>, s: SubStream)
    ensures
        concat_all(streams.push(s)) == concat_all(streams) + content(s),
{
    assert(streams.push(s).drop_last() =~= streams);
}

proof fn lemma_offsets_push(done: Seq<SubStream>, s: SubStream)
    requires
        forall|k: int|
            0 <= k < done.len() ==> #[trigger] done[k].offset == concat_all(done.take(k)).len(),
        s.offset == concat_all(done).len(),
    ensures
        forall|k: int|
            0 <= k < done.len() + 1 ==> #[trigger] done.push(s)[k].offset == concat_all(
                done.push(s).take(k),
            ).len(),
        concat_all(done.push(s)) == concat_all(done) + content(s),
{
    lemma_concat_all_push(done, s);
    assert forall|k: int| 0 <= k < done.len() + 1 implies #[trigger] done.push(s)[k].offset
        == concat_all(done.push(s).take(k)).len() by {
        if k < done.len() {
            assert(done.push(s).take(k) =~= done.take(k));
        } else {
            assert(done.push(s).take(k) =~= done);
        }
    }
}

proof fn lemma_payload_bytes_take(frames: Seq<Result<Data, String>>, i: int)
    requires
        0 <= i < frames.len(),
    ensures
        payload_bytes(frames.take(i + 1)) == payload_bytes(frames.take(i)) + match frames[i] {
            Ok(Data::Payload(b)) => b@,
            _ => Seq::empty(),
        },
{
    assert(frames.take(i + 1).drop_last() =~= frames.take(i));
}

proof fn lemma_payload_bytes_mono(frames: Seq<Result<Data, String>>, i: int)
    requires
        0 <= i <= frames.len(),
    ensures
        payload_bytes(frames.take(i)).len() <= payload_bytes(frames).len(),
    decreases frames.len() - i,
{
    if i < frames.len() {
        lemma_payload_bytes_take(frames, i);
        lemma_payload_bytes_mono(frames, i + 1);
    } else {
        assert(frames.take(i) =~= frames);
    }
}

proof fn lemma_stop_index(frames: Seq<Result<Data, String>>, i: int)
    requires
        0 <= i <= frames.len(),
        forall|j: int| 0 <= j < i ==> is_payload(#[trigger] frames[j]),
        i == frames.len() || !is_payload(frames[i]),
    ensures
        stop_index(frames) == i,
    decreases i,
{
    if i > 0 {
        let rest = frames.drop_first();
        assert forall|j: int| 0 <= j < i - 1 implies is_payload(#[trigger] rest[j]) by {
            assert(rest[j] == frames[j + 1]);
        }
        lemma_stop_index(rest, i - 1);
    }
}

proof fn lemma_stop_le_len(frames: Seq<Result<Data, String>>)
    ensures
        stop_index(frames) <= frames.len(),
    decreases frames.len(),
{
    if frames.len() > 0 {
        lemma_stop_le_len(frames.drop_first());
    }
}

proof fn lemma_stop_at_least(frames: Seq<Result<Data, String>>, m: int)
    requires
        0 <= m <= frames.len(),
        forall|j: int| 0 <= j < m ==> is_payload(#[trigger] frames[j]),
    ensures
        stop_index(frames) >= m,
    decreases m,
{
    if m > 0 {
        let rest = frames.drop_first();
        assert forall|j: int| 0 <= j < m - 1 implies is_payload(#[trigger] rest[j]) by {
            assert(rest[j] == frames[j + 1]);
        }
        lemma_stop_at_least(rest, m - 1);
    }
}

proof fn lemma_well_framed_laws(streams: Seq<SubStream>, max: nat)
    requires
        well_framed(streams, max),
        max > 0,
    ensures
        forall|k: int| 0 <= k < streams.len() ==> #[trigger] content(streams[k]).len() <= max,
        forall|k: int|
            0 <= k < streams.len() - 1 ==> #[trigger] streams[k].offset < streams[k + 1].offset,
{
    assert forall|k: int| 0 <= k < streams.len() - 1 implies #[trigger] streams[k].offset
        < streams[k + 1].offset by {
        assert(streams.take(k + 1).drop_last() =~= streams.take(k));
        assert(streams.take(k + 1).last() == streams[k]);
        assert(content(streams[k]).len() == max);
    }
}

/// Splits the payload frames of `frames` into sub-streams of at most
/// `stream_max_size` bytes. The run stops at the first frame that is not a
/// payload: an end-of-stream frame gives the terminal record, an error frame is
/// forwarded and must be the last frame. Each payload is placed by
/// `Splitter::payload_pieces`, the step that a streaming run takes per frame.
/// The run fails where the bytes to split do not fit a `u64` offset.
pub fn split(frames: &Vec<Result<Data, String>>, stream_max_size: u64) -> (r: Result<
    SplitOutput,
    StreamSplitterError,
>)
    requires
        stream_max_size > 0,
    ensures
        ({
            let n = stop_index(frames@) as int;
            &&& r is Err <==> (consumed(frames@).len() > u64::MAX || (n + 1 < frames@.len()
                && frames@[n] is Err))
            &&& r matches Ok(out) ==> {
                &&& well_framed(out.streams@, stream_max_size as nat)
                &&& concat_all(out.streams@) == consumed(frames@)
                &&& forall|k: int|
                    0 <= k < out.streams@.len() ==> #[trigger] content(out.streams@[k]).len()
                        <= stream_max_size
                &&& forall|k: int|
                    0 <= k < out.streams@.len() - 1 ==> #[trigger] out.streams@[k].offset
                        < out.streams@[k + 1].offset
                &&& n == frames@.len() ==> out.end is Unterminated
                &&& n < frames@.len() ==> match frames@[n] {
                    Ok(Data::EofWithChecksum(c)) => out.end == SplitEnd::Eof(
                        consumed(frames@).len() as u64,
                        c,
                    ),
                    Err(e) => out.end == SplitEnd::Failed(e),
                    _ => false,
                }
            }
        }),
{
    let ghost fs = frames@;
    let ghost m = stream_max_size as nat;
    let mut splitter = Splitter::new(stream_max_size);
    let mut done: Vec<SubStream> = Vec::new();
    let mut cur_chunks: Vec<Vec<u8>> = Vec::new();
    let mut cur_offset: u64 = 0;
    let mut i: usize = 0;
    proof {
        assert(fs.take(0) =~= Seq::<Result<Data, String>>::empty());
        assert(chunk_views(cur_chunks@) =~= Seq::<Seq<u8>>::empty());
    }
    while i < frames.len()
        invariant
            fs == frames@,
            m == stream_max_size,
            0 <= i <= frames.len(),
            forall|j: int| 0 <= j < i ==> is_payload(#[trigger] fs[j]),
            splitter.wf(),
            splitter.stream_max_size == stream_max_size,
            splitter.offset == payload_bytes(fs.take(i as int)).len(),
            splitter.stream_size == concat(chunk_views(cur_chunks@)).len(),
            concat_all(done@) + concat(chunk_views(cur_chunks@)) == payload_bytes(fs.take(i as int)),
            cur_offset == concat_all(done@).len(),
            forall|k: int| 0 <= k < done@.len() ==> #[trigger] content(done@[k]).len() == m,
            forall|k: int|
                0 <= k < done@.len() ==> #[trigger] done@[k].offset == concat_all(done@.take(k)).len(),
            forall|k: int, j: int|
                0 <= k < done@.len() && 0 <= j < done@[k].chunks.len() ==> #[trigger] done@[k].chunks[j]@.len()
                    > 0,
            forall|j: int| 0 <= j < cur_chunks@.len() ==> #[trigger] cur_chunks@[j]@.len() > 0,
            done@.len() > 0 ==> concat(chunk_views(cur_chunks@)).len() > 0,
        decreases frames.len() - i,
    {
        match &frames[i] {
            Ok(Data::Payload(bytes)) => {
                let ghost before = payload_bytes(fs.take(i as int));
                proof {
                    lemma_payload_bytes_take(fs, i as int);
                }
                if bytes.len() as u64 > u64::MAX - splitter.offset {
                    proof {
                        assert(is_payload(fs[i as int]));
                        lemma_stop_at_least(fs, i as int + 1);
                        lemma_stop_le_len(fs);
                        let n = stop_index(fs) as int;
                        lemma_payload_bytes_mono(fs.take(n), i as int + 1);
                        assert(fs.take(n).take(i as int + 1) =~= fs.take(i as int + 1));
                    }
                    return Err(
                        StreamSplitterError(
                            String::from_str("The input stream is too large to be split"),
                        ),
                    );
                }
                let ghost mut st: Splitter = splitter;
                assert(bytes@.len() == bytes.len());
                let pieces = splitter.payload_pieces(bytes.len());
                let ghost last = splitter;
                let mut pos: usize = 0;
                let mut j: usize = 0;
                assert(pieces@.skip(0) =~= pieces@);
                while j < pieces.len()
                    invariant
                        fs == frames@,
                        m == stream_max_size,
                        0 <= i < fs.len(),
                        fs[i as int] == Ok::<Data, String>(Data::Payload(*bytes)),
                        0 <= pos <= bytes@.len(),
                        before.len() + bytes@.len() <= u64::MAX,
                        0 <= j <= pieces@.len(),
                        bytes@.len() <= usize::MAX,
                        st.wf(),
                        st.stream_max_size == stream_max_size,
                        st.offset == before.len() + pos,
                        st.stream_size == concat(chunk_views(cur_chunks@)).len(),
                        valid_run(st, bytes@.len() - pos, pieces@.skip(j as int)),
                        run_end(st, bytes@.len() - pos, pieces@.skip(j as int)) == (last, 0int),
                        concat_all(done@) + concat(chunk_views(cur_chunks@)) == before
                            + bytes@.take(pos as int),
                        cur_offset == concat_all(done@).len(),
                        forall|k: int| 0 <= k < done@.len() ==> #[trigger] content(done@[k]).len() == m,
                        forall|k: int|
                            0 <= k < done@.len() ==> #[trigger] done@[k].offset == concat_all(
                                done@.take(k),
                            ).len(),
                        forall|k: int, j: int|
                            0 <= k < done@.len() && 0 <= j < done@[k].chunks.len()
                                ==> #[trigger] done@[k].chunks[j]@.len() > 0,
                        forall|j: int| 0 <= j < cur_chunks@.len() ==> #[trigger] cur_chunks@[j]@.len() > 0,
                        done@.len() > 0 ==> concat(chunk_views(cur_chunks@)).len() > 0,
                    decreases pieces.len() - j,
                {
                    let piece = pieces[j];
                    proof {
                        let rem = bytes@.len() - pos;
                        assert(pieces@.skip(j as int).len() > 0);
                        assert(pieces@.skip(j as int)[0] == pieces@[j as int]);
                        assert(piece == piece_of(st, rem));
                        assert(pieces@.skip(j as int).drop_first() =~= pieces@.skip(j + 1));
                        lemma_after_piece(st, rem);
                        st = after_piece(st, rem);
                    }
                    if let Some(o) = piece.opens {
                        let full = SubStream { offset: cur_offset, chunks: cur_chunks };
                        proof {
                            lemma_offsets_push(done@, full);
                        }
                        done.push(full);
                        cur_chunks = Vec::new();
                        cur_offset = o;
                        proof {
                            assert(chunk_views(cur_chunks@) =~= Seq::<Seq<u8>>::empty());
                        }
                    }
                    let end = pos + piece.len;
                    let chunk = slice_to_vec(slice_subrange(bytes.as_slice(), pos, end));
                    proof {
                        let a = concat_all(done@);
                        let b = concat(chunk_views(cur_chunks@));
                        lemma_concat_push(cur_chunks@, chunk);
                        assert(chunk@ =~= bytes@.subrange(pos as int, end as int));
                        assert(bytes@.take(end as int) =~= bytes@.take(pos as int) + chunk@);
                        assert(a + (b + chunk@) =~= (a + b) + chunk@);
                        assert(before + bytes@.take(end as int) =~= (before + bytes@.take(pos as int))
                            + chunk@);
                    }
                    cur_chunks.push(chunk);
                    pos = end;
                    j = j + 1;
                }
                proof {
                    assert(pieces@.skip(j as int) =~= Seq::<Piece>::empty());
                    assert(bytes@.take(pos as int) =~= bytes@);
                }
                i = i + 1;
            },
            Ok(Data::EofWithChecksum(checksum)) => {
                proof {
                    lemma_stop_index(fs, i as int);
                }
                let last = SubStream { offset: cur_offset, chunks: cur_chunks };
                let ghost streams = done@.push(last);
                proof {
                    lemma_offsets_push(done@, last);
                    lemma_well_framed_laws(streams, m);
                }
                done.push(last);
                return Ok(
                    SplitOutput {
                        streams: done,
                        end: SplitEnd::Eof(splitter.offset, checksum.clone()),
                    },
                );
            },
            Err(e) => {
                proof {
                    lemma_stop_index(fs, i as int);
                }
                if i + 1 < frames.len() {
                    return Err(
                        StreamSplitterError(
                            String::from_str("Got data after an error frame of the input stream"),
                        ),
                    );
                }
                let last = SubStream { offset: cur_offset, chunks: cur_chunks };
                let ghost streams = done@.push(last);
                proof {
                    lemma_offsets_push(done@, last);
                    lemma_well_framed_laws(streams, m);
                }
                done.push(last);
                return Ok(SplitOutput { streams: done, end: SplitEnd::Failed(e.clone()) });
            },
        }
    }
    proof {
        lemma_stop_index(fs, i as int);
        assert(fs.take(i as int) =~= fs);
    }
    let last = SubStream { offset: cur_offset, chunks: cur_chunks };
    let ghost streams = done@.push(last);
    proof {
        lemma_offsets_push(done@, last);
        lemma_well_framed_laws(streams, m);
    }
    done.push(last);
    Ok(SplitOutput { streams: done, end: SplitEnd::Unterminated })
}

} // verus!
