//! A seekable, readable cursor over a [`BufList`].
//!
//! The cursor never mutates the buffer. At construction it takes a snapshot
//! of the chunk boundaries as a start-index: `start[i]` is the byte offset at
//! which chunk `i` begins, with one trailing sentinel entry holding the total
//! length. A position is resolved to the chunk containing it in O(1) when the
//! move stays local (the common, sequential case) and by binary search over
//! the start-index otherwise.

use vstd::prelude::*;

use crate::buf_list::{
    flatten_chunks, lemma_flatten_index, lemma_flatten_len, lemma_prefix_len_mono,
    lemma_prefix_len_step, lemma_skip_skip, prefix_len, BufList,
};
use crate::chunk::chunk_data;
use crate::errors::{InvalidSeekError, ReadExactError};

verus! {

/// Where a seek starts from: the beginning of the stream, its end, or the
/// current position.
#[derive(Clone, Copy, Debug, PartialEq, Eq, Structural)]
pub enum SeekFrom {
    /// An offset from the start of the stream.
    Start(u64),
    /// A signed offset from the end of the stream.
    End(i64),
    /// A signed offset from the current position.
    Current(i64),
}

/// A chunk-start offset extended with a greatest element, so that "is this
/// position before the next chunk start" is an ordinary ordered comparison
/// even when there is no next chunk.
#[derive(Clone, Copy, Debug, PartialEq, Eq, Structural)]
pub enum Offset {
    /// A finite offset.
    Value(u64),
    /// Past every finite offset.
    Eof,
}

impl Offset {
    /// The strict order with `Eof` greatest.
    pub open spec fn spec_lt(self, other: Offset) -> bool {
        match (self, other) {
            (Offset::Value(a), Offset::Value(b)) => a < b,
            (Offset::Value(_), Offset::Eof) => true,
            (Offset::Eof, _) => false,
        }
    }

    /// Compares two offsets, `Eof` ordering above every finite value.
    pub fn lt(self, other: Offset) -> (r: bool)
        ensures
            r == self.spec_lt(other),
    {
        match (self, other) {
            (Offset::Value(a), Offset::Value(b)) => a < b,
            (Offset::Value(_), Offset::Eof) => true,
            (Offset::Eof, _) => false,
        }
    }
}

impl From<Option<u64>> for Offset {
    /// A present offset is finite; an absent one is past the end.
    fn from(value: Option<u64>) -> (r: Self) {
        match value {
            Some(v) => Offset::Value(v),
            None => Offset::Eof,
        }
    }
}

impl vstd::std_specs::convert::FromSpecImpl<Option<u64>> for Offset {
    open spec fn obeys_from_spec() -> bool {
        true
    }

    open spec fn from_spec(value: Option<u64>) -> Offset {
        match value {
            Some(v) => Offset::Value(v),
            None => Offset::Eof,
        }
    }
}

/// A valid start-index: it begins at zero and is strictly increasing, so
/// every chunk is non-empty and the final sentinel entry is the total length.
pub open spec fn start_wf(sp: Seq<u64>) -> bool {
    &&& sp.len() >= 1
    &&& sp[0] == 0
    &&& forall|i: int, j: int| 0 <= i < j < sp.len() ==> sp[i] < sp[j]
}

/// The index of the chunk containing position `pos`: the unique `c` with
/// `sp[c] <= pos < sp[c + 1]`, or the final sentinel index when `pos` is at
/// or past the total length.
pub open spec fn chunk_of(sp: Seq<u64>, pos: u64) -> int
    decreases sp.len(),
{
    if sp.len() <= 1 {
        0
    } else if pos < sp[1] {
        0
    } else {
        1 + chunk_of(sp.drop_first(), pos)
    }
}

/// `chunk_of` lands in range and brackets `pos` between the chunk's start
/// and the next one.
pub proof fn lemma_chunk_of_in_range(sp: Seq<u64>, pos: u64)
    requires
        sp.len() >= 1,
        forall|i: int, j: int| 0 <= i < j < sp.len() ==> sp[i] < sp[j],
        sp[0] <= pos,
    ensures
        0 <= chunk_of(sp, pos) < sp.len(),
        sp[chunk_of(sp, pos)] <= pos,
        chunk_of(sp, pos) + 1 < sp.len() ==> pos < sp[chunk_of(sp, pos) + 1],
    decreases sp.len(),
{
    if sp.len() > 1 && pos >= sp[1] {
        let t = sp.drop_first();
        assert forall|i: int, j: int| 0 <= i < j < t.len() implies t[i] < t[j] by {
            assert(sp[i + 1] < sp[j + 1]);
        }
        lemma_chunk_of_in_range(t, pos);
    }
}

/// Any index bracketing `pos` is the one `chunk_of` resolves to: the chunk
/// containing a position is unique.
pub proof fn lemma_chunk_of_unique(sp: Seq<u64>, pos: u64, c: int)
    requires
        sp.len() >= 1,
        forall|i: int, j: int| 0 <= i < j < sp.len() ==> sp[i] < sp[j],
        sp[0] <= pos,
        0 <= c < sp.len(),
        sp[c] <= pos,
        c + 1 < sp.len() ==> pos < sp[c + 1],
    ensures
        c == chunk_of(sp, pos),
{
    lemma_chunk_of_in_range(sp, pos);
    let c0 = chunk_of(sp, pos);
    if c + 1 <= c0 {
        assert(sp[c + 1] <= sp[c0]) by {
            if c + 1 < c0 {
                assert(sp[c + 1] < sp[c0]);
            }
        }
        assert(false);
    }
    if c0 + 1 <= c {
        assert(sp[c0 + 1] <= sp[c]) by {
            if c0 + 1 < c {
                assert(sp[c0 + 1] < sp[c]);
            }
        }
        assert(false);
    }
}

/// The position a seek resolves to, over unbounded integers: its base (zero,
/// the total length, or the current position) plus the signed delta.
pub open spec fn seek_target(style: SeekFrom, total: u64, pos: u64) -> int {
    match style {
        SeekFrom::Start(n) => n as int,
        SeekFrom::End(d) => total + d,
        SeekFrom::Current(d) => pos + d,
    }
}

/// How many bytes a read returns: the destination's capacity, limited by the
/// bytes available before the total length; zero at or past the end.
pub open spec fn read_amount(total: int, pos: int, cap: int) -> int {
    if pos >= total {
        0
    } else if total - pos < cap {
        total - pos
    } else {
        cap
    }
}

/// The `n` bytes of `flat` starting at `pos`, or the empty sequence when
/// that window does not lie within `flat`.
pub open spec fn stream_bytes(flat: Seq<u8>, pos: int, n: int) -> Seq<u8> {
    if 0 <= pos && 0 <= n && pos + n <= flat.len() {
        flat.subrange(pos, pos + n)
    } else {
        Seq::empty()
    }
}

/// A zero-length window is empty wherever it starts.
pub proof fn lemma_stream_bytes_zero(flat: Seq<u8>, pos: int)
    ensures
        stream_bytes(flat, pos, 0) == Seq::<u8>::empty(),
{
    if 0 <= pos && pos <= flat.len() {
        assert(stream_bytes(flat, pos, 0) =~= Seq::<u8>::empty());
    }
}

/// Every observable outcome of a cursor operation — the seek target, the
/// count a read returns, the bytes it copies, and what a vectored read does —
/// is a function of the concatenated stream and the position alone: two
/// cursors over different chunkings of the same bytes observe the same
/// results.
pub proof fn lemma_chunking_independent(
    a: Seq<Seq<u8>>,
    b: Seq<Seq<u8>>,
    pos: u64,
    cap: int,
    style: SeekFrom,
    bufs: Seq<Seq<u8>>,
)
    requires
        flatten_chunks(a) == flatten_chunks(b),
    ensures
        read_amount(flatten_chunks(a).len() as int, pos as int, cap) == read_amount(
            flatten_chunks(b).len() as int,
            pos as int,
            cap,
        ),
        stream_bytes(flatten_chunks(a), pos as int, cap) == stream_bytes(
            flatten_chunks(b),
            pos as int,
            cap,
        ),
        seek_target(style, flatten_chunks(a).len() as u64, pos) == seek_target(
            style,
            flatten_chunks(b).len() as u64,
            pos,
        ),
        vectored_read(flatten_chunks(a), pos as int, bufs) == vectored_read(
            flatten_chunks(b),
            pos as int,
            bufs,
        ),
{
}

/// At or past the total length every read returns zero bytes, however far
/// past the end the position lies.
pub proof fn lemma_read_past_end(flat: Seq<u8>, pos: int, cap: int)
    requires
        pos >= flat.len(),
    ensures
        read_amount(flat.len() as int, pos, cap) == 0,
        stream_bytes(flat, pos, cap) == Seq::<u8>::empty(),
{
    if 0 <= pos && 0 <= cap && pos + cap <= flat.len() {
        assert(stream_bytes(flat, pos, cap) =~= Seq::<u8>::empty());
    }
}

/// The byte sequences a sequence of destination vectors holds.
pub open spec fn views_of(bufs: Seq<Vec<u8>>) -> Seq<Seq<u8>> {
    bufs.map(|i: int, b: Vec<u8>| b@)
}

/// What a vectored read does: each destination in turn is filled as an
/// ordinary read from the running position, and the operation stops early the
/// moment a destination is left only partially filled. Yields the
/// destinations afterwards and the total count read.
pub open spec fn vectored_read(flat: Seq<u8>, pos: int, bufs: Seq<Seq<u8>>) -> (Seq<Seq<u8>>, int)
    decreases bufs.len(),
{
    if bufs.len() == 0 {
        (bufs, 0)
    } else {
        let n0 = read_amount(flat.len() as int, pos, bufs[0].len() as int);
        let first = stream_bytes(flat, pos, n0) + bufs[0].skip(n0);
        if n0 < bufs[0].len() {
            (bufs.update(0, first), n0)
        } else {
            let rest = vectored_read(flat, pos + n0, bufs.drop_first());
            (seq![first] + rest.0, n0 + rest.1)
        }
    }
}

/// Binary search for `target` in the strictly increasing range `[lo, hi)` of
/// `v`: `Ok` is the index holding `target`, `Err` the insertion point.
fn binary_search_range(v: &Vec<u64>, lo: usize, hi: usize, target: u64) -> (r: Result<
    usize,
    usize,
>)
    requires
        lo <= hi <= v@.len(),
        forall|i: int, j: int| lo <= i < j < hi ==> v@[i] < v@[j],
    ensures
        match r {
            Ok(k) => lo <= k < hi && v@[k as int] == target,
            Err(k) => {
                &&& lo <= k <= hi
                &&& forall|j: int| lo <= j < k ==> v@[j] < target
                &&& forall|j: int| k <= j < hi ==> v@[j] > target
            },
        },
{
    let mut a = lo;
    let mut b = hi;
    while a < b
        invariant
            lo <= a <= b <= hi <= v@.len(),
            forall|i: int, j: int| lo <= i < j < hi ==> v@[i] < v@[j],
            forall|j: int| lo <= j < a ==> v@[j] < target,
            forall|j: int| b <= j < hi ==> v@[j] > target,
        decreases b - a,
    {
        let mid = a + (b - a) / 2;
        let x = v[mid];
        if x == target {
            return Ok(mid);
        } else if x < target {
            a = mid + 1;
        } else {
            b = mid;
        }
    }
    Err(a)
}

/// Copies `n` bytes of `c` starting at `chunk_pos` into `buf` starting at
/// `buf_pos`, leaving the rest of `buf` unchanged.
fn copy_chunk_into(c: &bytes::Bytes, chunk_pos: usize, buf: &mut Vec<u8>, buf_pos: usize, n: usize)
    requires
        chunk_pos + n <= chunk_data(*c).len(),
        chunk_pos + n <= usize::MAX,
        buf_pos + n <= old(buf)@.len(),
        buf_pos + n <= usize::MAX,
    ensures
        final(buf)@.len() == old(buf)@.len(),
        final(buf)@ == old(buf)@.subrange(0, buf_pos as int) + chunk_data(*c).subrange(
            chunk_pos as int,
            chunk_pos + n,
        ) + old(buf)@.skip(buf_pos + n),
{
    let mut j: usize = 0;
    proof {
        assert(buf@ =~= buf@.subrange(0, buf_pos as int) + chunk_data(*c).subrange(
            chunk_pos as int,
            chunk_pos as int,
        ) + buf@.skip(buf_pos as int));
    }
    while j < n
        invariant
            j <= n,
            chunk_pos + n <= chunk_data(*c).len(),
            chunk_pos + n <= usize::MAX,
            buf_pos + n <= old(buf)@.len(),
            buf_pos + n <= usize::MAX,
            buf@.len() == old(buf)@.len(),
            buf@ == old(buf)@.subrange(0, buf_pos as int) + chunk_data(*c).subrange(
                chunk_pos as int,
                chunk_pos + j,
            ) + old(buf)@.skip(buf_pos + j),
        decreases n - j,
    {
        let b = crate::chunk::chunk_byte(c, chunk_pos + j);
        buf.set(buf_pos + j, b);
        proof {
            assert(buf@ =~= old(buf)@.subrange(0, buf_pos as int) + chunk_data(*c).subrange(
                chunk_pos as int,
                chunk_pos + j + 1,
            ) + old(buf)@.skip(buf_pos + j + 1));
        }
        j = j + 1;
    }
}

/// The cursor's position engine: the start-index snapshot, the current byte
/// offset, and the index of the chunk containing it.
#[derive(Clone, Debug)]
pub struct CursorData {
    /// Chunk start offsets with a trailing total-length sentinel.
    start_pos: Vec<u64>,
    /// The chunk `pos` falls in; the sentinel index when `pos` is at or past
    /// the end.
    chunk: usize,
    /// The current byte offset; may lie past the total length.
    pos: u64,
}

impl CursorData {
    /// The start-index snapshot.
    pub closed spec fn starts(&self) -> Seq<u64> {
        self.start_pos@
    }

    /// The current byte offset.
    pub closed spec fn spec_pos(&self) -> u64 {
        self.pos
    }

    /// The index of the chunk the offset falls in.
    pub closed spec fn spec_chunk(&self) -> int {
        self.chunk as int
    }

    /// The total length of the stream: the sentinel entry.
    pub open spec fn total(&self) -> u64 {
        self.starts().last()
    }

    /// The start-index is valid and the chunk index brackets the offset.
    pub open spec fn wf(&self) -> bool {
        &&& start_wf(self.starts())
        &&& 0 <= self.spec_chunk() < self.starts().len()
        &&& self.starts()[self.spec_chunk()] <= self.spec_pos()
        &&& self.spec_chunk() + 1 < self.starts().len() ==> self.spec_pos() < self.starts()[self.spec_chunk() + 1]
    }

    /// The start-index is the snapshot of `chunks`: one entry per chunk
    /// holding the bytes before it, plus the total-length sentinel.
    pub open spec fn matches(&self, chunks: Seq<Seq<u8>>) -> bool {
        &&& self.starts().len() == chunks.len() + 1
        &&& forall|i: int|
            0 <= i <= chunks.len() ==> #[trigger] self.starts()[i] == prefix_len(chunks, i)
    }

    /// In a well-formed matching cursor the offset is past the end exactly
    /// when the chunk index is the sentinel.
    pub proof fn lemma_at_end(&self, chunks: Seq<Seq<u8>>)
        requires
            self.wf(),
            self.matches(chunks),
        ensures
            self.total() == flatten_chunks(chunks).len(),
            self.spec_chunk() == chunks.len() <==> self.spec_pos() >= self.total(),
            self.spec_chunk() < chunks.len() ==> self.starts()[self.spec_chunk() + 1]
                == self.starts()[self.spec_chunk()] + chunks[self.spec_chunk()].len(),
    {
        lemma_flatten_len(chunks);
        assert(self.starts().last() == self.starts()[chunks.len() as int]);
        if self.spec_chunk() < chunks.len() {
            lemma_prefix_len_step(chunks, self.spec_chunk());
            lemma_prefix_len_mono(chunks, self.spec_chunk() + 1, chunks.len() as int);
        }
    }

    /// Builds the start-index from the buffer's current chunk lengths in one
    /// pass; the cursor starts at offset zero in chunk zero.
    pub fn new(inner: &BufList) -> (r: CursorData)
        requires
            inner.wf(),
        ensures
            r.wf(),
            r.matches(inner.chunks_view()),
            r.spec_pos() == 0,
            r.spec_chunk() == 0,
    {
        let ghost view = inner.chunks_view();
        let n = inner.num_chunks();
        let mut start_pos: Vec<u64> = Vec::new();
        let mut next: u64 = 0;
        let mut i: usize = 0;
        proof {
            inner.lemma_wf();
            lemma_flatten_len(view);
        }
        while i < n
            invariant
                inner.wf(),
                view == inner.chunks_view(),
                n == view.len(),
                i <= n,
                start_pos@.len() == i,
                next == prefix_len(view, i as int),
                forall|k: int| 0 <= k < i ==> #[trigger] start_pos@[k] == prefix_len(view, k),
            decreases n - i,
        {
            start_pos.push(next);
            let c = inner.get_chunk(i).unwrap();
            let clen = crate::chunk::chunk_len(c);
            proof {
                lemma_prefix_len_step(view, i as int);
                lemma_prefix_len_mono(view, i + 1, n as int);
                lemma_flatten_len(view);
                inner.lemma_wf();
            }
            next = next + (clen as u64);
            i = i + 1;
        }
        start_pos.push(next);
        let r = CursorData { start_pos, chunk: 0, pos: 0 };
        proof {
            inner.lemma_wf();
            assert(r.starts().len() == n + 1);
            assert forall|k: int| 0 <= k <= n implies #[trigger] r.starts()[k] == prefix_len(
                view,
                k,
            ) by {
                if k < n {
                    assert(start_pos@[k] == prefix_len(view, k));
                }
            }
            assert forall|a: int, b: int| 0 <= a < b < r.starts().len() implies r.starts()[a]
                < r.starts()[b] by {
                assert(r.starts()[a] == prefix_len(view, a));
                assert(r.starts()[b] == prefix_len(view, b));
                lemma_prefix_len_mono(view, a, b);
            }
            assert(prefix_len(view, 0) == 0);
        }
        r
    }

    /// The current byte offset.
    pub fn position(&self) -> (r: u64)
        ensures
            r == self.spec_pos(),
    {
        self.pos
    }

    /// The total length of the stream the snapshot was taken over.
    pub fn num_bytes(&self) -> (r: u64)
        requires
            self.wf(),
        ensures
            r == self.total(),
    {
        self.start_pos[self.start_pos.len() - 1]
    }

    /// Moves the offset to `new_pos` and resolves the chunk index: a no-op
    /// for an unchanged offset, O(1) when the target stays in the current
    /// chunk, and a binary search over the start-index suffix or prefix for
    /// a forward or backward jump.
    pub fn set_pos(&mut self, new_pos: u64)
        requires
            old(self).wf(),
        ensures
            final(self).wf(),
            final(self).starts() == old(self).starts(),
            final(self).spec_pos() == new_pos,
            final(self).spec_chunk() == chunk_of(old(self).starts(), new_pos),
            new_pos == old(self).spec_pos() ==> final(self).spec_chunk() == old(
                self,
            ).spec_chunk(),
    {
        let ghost sp = self.starts();
        let sp_len = self.start_pos.len();
        if new_pos > self.pos {
            let next_opt: Option<u64> = if self.chunk + 1 < sp_len {
                Some(self.start_pos[self.chunk + 1])
            } else {
                None
            };
            let next_start = Offset::from(next_opt);
            if Offset::Value(new_pos).lt(next_start) {
                // Still within the current chunk, or already past the end
                // with no next chunk: the chunk index is unchanged.
                proof {
                    lemma_chunk_of_unique(sp, new_pos, self.spec_chunk());
                }
            } else {
                // The target is at or past the next chunk start, so the
                // current chunk cannot be the sentinel.
                match binary_search_range(&self.start_pos, self.chunk + 1, sp_len, new_pos) {
                    Ok(k) => {
                        proof {
                            lemma_chunk_of_unique(sp, new_pos, k as int);
                        }
                        self.chunk = k;
                    },
                    Err(k) => {
                        proof {
                            assert(sp[self.spec_chunk() + 1] < new_pos);
                            lemma_chunk_of_unique(sp, new_pos, k - 1);
                        }
                        self.chunk = k - 1;
                    },
                }
            }
        } else if new_pos == self.pos {
            proof {
                lemma_chunk_of_unique(sp, new_pos, self.spec_chunk());
            }
        } else {
            if self.start_pos[self.chunk] <= new_pos {
                // Still within the current chunk.
                proof {
                    lemma_chunk_of_unique(sp, new_pos, self.spec_chunk());
                }
            } else {
                match binary_search_range(&self.start_pos, 0, self.chunk, new_pos) {
                    Ok(k) => {
                        proof {
                            lemma_chunk_of_unique(sp, new_pos, k as int);
                        }
                        self.chunk = k;
                    },
                    Err(k) => {
                        proof {
                            assert(sp[0] == 0);
                            assert(k >= 1) by {
                                if k == 0 {
                                    assert(sp[0] > new_pos);
                                }
                            }
                            lemma_chunk_of_unique(sp, new_pos, k - 1);
                        }
                        self.chunk = k - 1;
                    },
                }
            }
        }
        self.pos = new_pos;
    }

    /// Resolves a seek base and signed delta. Fails exactly when the target
    /// would be negative or would not fit in the offset type; a target past
    /// the total length is legal.
    pub fn seek_impl(&mut self, style: SeekFrom) -> (r: Result<u64, InvalidSeekError>)
        requires
            old(self).wf(),
        ensures
            final(self).wf(),
            final(self).starts() == old(self).starts(),
            match r {
                Ok(n) => {
                    &&& n as int == seek_target(style, old(self).total(), old(self).spec_pos())
                    &&& final(self).spec_pos() == n
                    &&& final(self).spec_chunk() == chunk_of(old(self).starts(), n)
                },
                Err(e) => {
                    &&& !(0 <= seek_target(style, old(self).total(), old(self).spec_pos())
                        <= u64::MAX)
                    &&& e == InvalidSeekError
                    &&& final(self).spec_pos() == old(self).spec_pos()
                    &&& final(self).spec_chunk() == old(self).spec_chunk()
                },
            },
            style == SeekFrom::Current(0i64) ==> {
                &&& r == Ok::<u64, InvalidSeekError>(old(self).spec_pos())
                &&& final(self).spec_pos() == old(self).spec_pos()
                &&& final(self).spec_chunk() == old(self).spec_chunk()
            },
    {
        let (base, offset) = match style {
            SeekFrom::Start(n) => {
                self.set_pos(n);
                return Ok(n);
            },
            SeekFrom::End(n) => (self.num_bytes(), n),
            SeekFrom::Current(n) => (self.pos, n),
        };
        if offset >= 0 {
            let mag = offset as u64;
            if mag <= u64::MAX - base {
                let n = base + mag;
                self.set_pos(n);
                Ok(n)
            } else {
                Err(InvalidSeekError)
            }
        } else {
            let mag = (-(offset as i128)) as u64;
            proof {
                assert(mag == -(offset as int));
            }
            if base >= mag {
                let n = base - mag;
                self.set_pos(n);
                Ok(n)
            } else {
                Err(InvalidSeekError)
            }
        }
    }

    /// The chunk the offset currently falls in, with the offset within it,
    /// or nothing when the offset is at or past the end of the stream.
    pub fn get_chunk_and_pos<'a>(&self, list: &'a BufList) -> (r: Option<(&'a bytes::Bytes, usize)>)
        requires
            self.wf(),
            self.matches(list.chunks_view()),
            list.wf(),
        ensures
            match r {
                Some((c, p)) => {
                    &&& self.spec_pos() < self.total()
                    &&& 0 <= self.spec_chunk() < list.chunks_view().len()
                    &&& chunk_data(*c) == list.chunks_view()[self.spec_chunk()]
                    &&& p == self.spec_pos() - self.starts()[self.spec_chunk()]
                    &&& p < chunk_data(*c).len()
                },
                None => {
                    &&& self.spec_pos() >= self.total()
                    &&& self.spec_chunk() == list.chunks_view().len()
                },
            },
    {
        let ghost view = list.chunks_view();
        proof {
            self.lemma_at_end(view);
            list.lemma_wf();
        }
        match list.get_chunk(self.chunk) {
            Some(c) => {
                proof {
                    lemma_prefix_len_mono(view, self.spec_chunk() + 1, view.len() as int);
                    lemma_flatten_len(view);
                }
                let p = (self.pos - self.start_pos[self.chunk]) as usize;
                Some((c, p))
            },
            None => None,
        }
    }

    /// Copies bytes forward from the current offset into `dest`, crossing as
    /// many chunk boundaries as needed, limited by the destination's length
    /// and by the bytes available before the total length. Advances the
    /// offset by the count copied and returns it; returns 0 exactly when at
    /// or past the end.
    pub fn read_impl(&mut self, list: &BufList, dest: &mut Vec<u8>) -> (n: usize)
        requires
            old(self).wf(),
            old(self).matches(list.chunks_view()),
            list.wf(),
        ensures
            final(self).wf(),
            final(self).matches(list.chunks_view()),
            final(self).starts() == old(self).starts(),
            n as int == read_amount(
                old(self).total() as int,
                old(self).spec_pos() as int,
                old(dest)@.len() as int,
            ),
            final(self).spec_pos() == old(self).spec_pos() + n,
            final(self).spec_chunk() == chunk_of(
                old(self).starts(),
                (old(self).spec_pos() + n) as u64,
            ),
            final(dest)@.len() == old(dest)@.len(),
            final(dest)@ == stream_bytes(
                flatten_chunks(list.chunks_view()),
                old(self).spec_pos() as int,
                n as int,
            ) + old(dest)@.skip(n as int),
    {
        let ghost orig = *old(self);
        let ghost view = list.chunks_view();
        let ghost flat = flatten_chunks(view);
        let ghost obuf = old(dest)@;
        let buf_len = dest.len();
        let mut buf_pos: usize = 0;
        proof {
            lemma_stream_bytes_zero(flat, orig.spec_pos() as int);
            assert(dest@ =~= stream_bytes(flat, orig.spec_pos() as int, 0) + obuf.skip(0));
        }
        while buf_pos < buf_len
            invariant
                self.wf(),
                self.matches(view),
                list.wf(),
                view == list.chunks_view(),
                flat == flatten_chunks(view),
                self.starts() == orig.starts(),
                self.total() == orig.total(),
                buf_pos <= buf_len,
                dest@.len() == buf_len,
                obuf.len() == buf_len,
                self.spec_pos() as int == orig.spec_pos() + buf_pos,
                buf_pos as int <= read_amount(
                    orig.total() as int,
                    orig.spec_pos() as int,
                    buf_len as int,
                ),
                dest@ == stream_bytes(flat, orig.spec_pos() as int, buf_pos as int) + obuf.skip(
                    buf_pos as int,
                ),
            ensures
                buf_pos as int == read_amount(
                    orig.total() as int,
                    orig.spec_pos() as int,
                    buf_len as int,
                ),
                self.wf(),
                self.matches(view),
                self.starts() == orig.starts(),
                self.spec_pos() as int == orig.spec_pos() + buf_pos,
                dest@.len() == buf_len,
                dest@ == stream_bytes(flat, orig.spec_pos() as int, buf_pos as int) + obuf.skip(
                    buf_pos as int,
                ),
            decreases buf_len - buf_pos,
        {
            let ghost pre = *self;
            let (c, chunk_pos) = match self.get_chunk_and_pos(list) {
                Some(v) => v,
                None => {
                    proof {
                        self.lemma_at_end(view);
                    }
                    break ;
                },
            };
            let clen = crate::chunk::chunk_len(c);
            let avail = clen - chunk_pos;
            let want = buf_len - buf_pos;
            let n_to_copy = if avail < want {
                avail
            } else {
                want
            };
            proof {
                self.lemma_at_end(view);
                assert(self.starts()[self.spec_chunk()] == prefix_len(view, self.spec_chunk()));
                assert(self.starts()[self.spec_chunk() + 1] == prefix_len(
                    view,
                    self.spec_chunk() + 1,
                ));
                lemma_prefix_len_mono(view, self.spec_chunk() + 1, view.len() as int);
                lemma_flatten_len(view);
                assert(self.spec_pos() + avail == self.starts()[self.spec_chunk() + 1]);
                assert(self.spec_pos() + avail <= orig.total());
                assert(flat.len() == orig.total());
                let sp0 = self.spec_pos() as int;
                let cp = chunk_pos as int;
                assert forall|k: int| 0 <= k < n_to_copy implies #[trigger] chunk_data(*c).subrange(
                    cp,
                    cp + n_to_copy,
                )[k] == flat.subrange(sp0, sp0 + n_to_copy)[k] by {
                    lemma_flatten_index(view, self.spec_chunk(), cp + k);
                    assert(chunk_data(*c).subrange(cp, cp + n_to_copy)[k] == chunk_data(*c)[cp
                        + k]);
                    assert(flat.subrange(sp0, sp0 + n_to_copy)[k] == flat[sp0 + k]);
                }
                assert(chunk_data(*c).subrange(cp, cp + n_to_copy) =~= flat.subrange(
                    sp0,
                    sp0 + n_to_copy,
                ));
            }
            let ghost mid = dest@;
            copy_chunk_into(c, chunk_pos, dest, buf_pos, n_to_copy);
            proof {
                let p = orig.spec_pos() as int;
                assert(p + buf_pos + n_to_copy <= flat.len());
                assert(stream_bytes(flat, p, buf_pos as int) == flat.subrange(p, p + buf_pos));
                assert(stream_bytes(flat, p, buf_pos + n_to_copy) == flat.subrange(
                    p,
                    p + buf_pos + n_to_copy,
                ));
                lemma_skip_skip(obuf, buf_pos as int, n_to_copy as int);
                assert(mid.subrange(0, buf_pos as int) =~= flat.subrange(p, p + buf_pos));
                assert(mid.skip(buf_pos + n_to_copy) =~= obuf.skip(buf_pos + n_to_copy));
                assert(dest@ =~= flat.subrange(p, p + buf_pos + n_to_copy) + obuf.skip(
                    buf_pos + n_to_copy,
                ));
            }
            buf_pos = buf_pos + n_to_copy;
            proof {
                vstd::std_specs::vec::axiom_spec_len(&self.start_pos);
            }
            self.pos = self.pos + (n_to_copy as u64);
            if n_to_copy == avail {
                self.chunk = self.chunk + 1;
            }
            proof {
                assert(self.wf()) by {
                    assert(pre.starts()[pre.spec_chunk() + 1] == pre.starts()[pre.spec_chunk()]
                        + view[pre.spec_chunk()].len());
                }
            }
        }
        proof {
            lemma_chunk_of_unique(orig.starts(), self.pos, self.spec_chunk());
        }
        buf_pos
    }

    /// Reads into each destination in order, accumulating the bytes copied,
    /// and stops early the moment a destination is only partially filled.
    pub fn read_vectored_impl(&mut self, list: &BufList, bufs: &mut Vec<Vec<u8>>) -> (nread: usize)
        requires
            old(self).wf(),
            old(self).matches(list.chunks_view()),
            list.wf(),
        ensures
            final(self).wf(),
            final(self).matches(list.chunks_view()),
            final(self).starts() == old(self).starts(),
            ({
                let out = vectored_read(
                    flatten_chunks(list.chunks_view()),
                    old(self).spec_pos() as int,
                    views_of(old(bufs)@),
                );
                &&& views_of(final(bufs)@) == out.0
                &&& nread as int == out.1
                &&& final(self).spec_pos() == old(self).spec_pos() + nread
                &&& final(self).spec_chunk() == chunk_of(
                    old(self).starts(),
                    (old(self).spec_pos() + nread) as u64,
                )
            }),
    {
        let ghost orig = *old(self);
        let ghost view = list.chunks_view();
        let ghost flat = flatten_chunks(view);
        let ghost ovs = views_of(old(bufs)@);
        let bufs_len = bufs.len();
        let mut nread: usize = 0;
        let mut i: usize = 0;
        proof {
            list.lemma_wf();
            lemma_flatten_len(view);
            self.lemma_at_end(view);
            assert(ovs.skip(0) =~= ovs);
            assert(views_of(bufs@).take(0) + vectored_read(flat, orig.spec_pos() as int, ovs).0
                =~= vectored_read(flat, orig.spec_pos() as int, ovs).0);
        }
        while i < bufs_len
            invariant_except_break
                vectored_read(flat, orig.spec_pos() as int, ovs) == {
                    let tail = vectored_read(flat, self.spec_pos() as int, ovs.skip(i as int));
                    (views_of(bufs@).take(i as int) + tail.0, nread + tail.1)
                },
            invariant
                self.wf(),
                self.matches(view),
                list.wf(),
                view == list.chunks_view(),
                flat == flatten_chunks(view),
                flat.len() <= usize::MAX,
                self.starts() == orig.starts(),
                self.total() == orig.total(),
                orig.total() == flat.len(),
                i <= bufs_len,
                bufs@.len() == bufs_len,
                ovs.len() == bufs_len,
                self.spec_pos() as int == orig.spec_pos() + nread,
                orig.spec_pos() > orig.total() ==> self.spec_pos() == orig.spec_pos(),
                orig.spec_pos() <= orig.total() ==> self.spec_pos() <= orig.total(),
                views_of(bufs@).skip(i as int) == ovs.skip(i as int),
            ensures
                self.wf(),
                self.matches(view),
                self.starts() == orig.starts(),
                self.spec_pos() as int == orig.spec_pos() + nread,
                vectored_read(flat, orig.spec_pos() as int, ovs) == (
                    views_of(bufs@),
                    nread as int,
                ),
            decreases bufs_len - i,
        {
            let ghost pre_pos = self.spec_pos() as int;
            let ghost pre_views = views_of(bufs@);
            let ghost tail = ovs.skip(i as int);
            proof {
                assert(tail[0] == ovs[i as int]);
                assert(pre_views.skip(i as int)[0] == pre_views[i as int]);
            }
            let b = &mut bufs[i];
            let blen = b.len();
            let n = self.read_impl(list, b);
            nread = nread + n;
            i = i + 1;
            proof {
                assert(tail.drop_first() =~= ovs.skip(i as int));
                assert(views_of(bufs@) =~= pre_views.update(i - 1, bufs@[i - 1]@));
                assert(bufs@[i - 1]@ == stream_bytes(flat, pre_pos, n as int) + tail[0].skip(
                    n as int,
                ));
            }
            if n < blen {
                proof {
                    assert(vectored_read(flat, pre_pos, tail) == (
                        tail.update(0, bufs@[i - 1]@),
                        n as int,
                    ));
                    assert(pre_views.take(i - 1) + tail.update(0, bufs@[i - 1]@) =~= views_of(
                        bufs@,
                    ));
                }
                break ;
            }
            proof {
                let rest = vectored_read(flat, pre_pos + n, tail.drop_first());
                assert(vectored_read(flat, pre_pos, tail).0 == seq![bufs@[i - 1]@] + rest.0);
                assert(vectored_read(flat, pre_pos, tail).1 == n + rest.1);
                assert(views_of(bufs@).take(i as int) =~= pre_views.take(i - 1) + seq![bufs@[i
                    - 1]@]);
                assert((pre_views.take(i - 1) + seq![bufs@[i - 1]@]) + rest.0 =~= pre_views.take(
                    i - 1,
                ) + (seq![bufs@[i - 1]@] + rest.0));
                assert(views_of(bufs@).skip(i as int) =~= ovs.skip(i as int));
            }
        }
        proof {
            lemma_chunk_of_unique(orig.starts(), self.pos, self.spec_chunk());
        }
        nread
    }

    /// Fails when fewer bytes remain before the end than `dest` asks for,
    /// reporting both counts and changing nothing; otherwise reads and fills
    /// `dest` completely.
    pub fn read_exact_impl(&mut self, list: &BufList, dest: &mut Vec<u8>) -> (r: Result<
        (),
        ReadExactError,
    >)
        requires
            old(self).wf(),
            old(self).matches(list.chunks_view()),
            list.wf(),
        ensures
            final(self).wf(),
            final(self).matches(list.chunks_view()),
            final(self).starts() == old(self).starts(),
            final(dest)@.len() == old(dest)@.len(),
            match r {
                Ok(()) => {
                    &&& read_amount(
                        old(self).total() as int,
                        old(self).spec_pos() as int,
                        old(dest)@.len() as int,
                    ) == old(dest)@.len()
                    &&& final(self).spec_pos() == old(self).spec_pos() + old(dest)@.len()
                    &&& final(self).spec_chunk() == chunk_of(
                        old(self).starts(),
                        (old(self).spec_pos() + old(dest)@.len()) as u64,
                    )
                    &&& final(dest)@ == stream_bytes(
                        flatten_chunks(list.chunks_view()),
                        old(self).spec_pos() as int,
                        old(dest)@.len() as int,
                    )
                },
                Err(e) => {
                    &&& read_amount(
                        old(self).total() as int,
                        old(self).spec_pos() as int,
                        old(dest)@.len() as int,
                    ) < old(dest)@.len()
                    &&& e == (ReadExactError {
                        remaining: if old(self).spec_pos() >= old(self).total() {
                            0
                        } else {
                            (old(self).total() - old(self).spec_pos()) as u64
                        },
                        buf_len: old(dest)@.len() as usize,
                    })
                    &&& final(self).spec_pos() == old(self).spec_pos()
                    &&& final(self).spec_chunk() == old(self).spec_chunk()
                    &&& final(dest)@ == old(dest)@
                },
            },
    {
        let total = self.num_bytes();
        let remaining = if self.pos >= total {
            0
        } else {
            total - self.pos
        };
        let buf_len = dest.len();
        if remaining < buf_len as u64 {
            return Err(ReadExactError { remaining, buf_len });
        }
        let ghost flat = flatten_chunks(list.chunks_view());
        self.read_impl(list, dest);
        proof {
            assert(dest@ =~= stream_bytes(flat, old(self).spec_pos() as int, buf_len as int));
        }
        Ok(())
    }

    /// A zero-copy view of the rest of the current chunk starting at the
    /// current offset; empty exactly when the offset is at or past the end.
    pub fn fill_buf_impl<'a>(&self, list: &'a BufList) -> (r: &'a [u8])
        requires
            self.wf(),
            self.matches(list.chunks_view()),
            list.wf(),
        ensures
            r@.len() == 0 <==> self.spec_pos() >= self.total(),
            self.spec_pos() < self.total() ==> r@ == stream_bytes(
                flatten_chunks(list.chunks_view()),
                self.spec_pos() as int,
                self.starts()[self.spec_chunk() + 1] - self.spec_pos(),
            ),
    {
        let ghost view = list.chunks_view();
        let ghost flat = flatten_chunks(view);
        match self.get_chunk_and_pos(list) {
            Some((c, p)) => {
                let r = crate::chunk::chunk_suffix(c, p);
                proof {
                    self.lemma_at_end(view);
                    let sp0 = self.spec_pos() as int;
                    let nrest = self.starts()[self.spec_chunk() + 1] - sp0;
                    assert(self.starts()[self.spec_chunk()] == prefix_len(
                        view,
                        self.spec_chunk(),
                    ));
                    assert(self.starts()[self.spec_chunk() + 1] == prefix_len(
                        view,
                        self.spec_chunk() + 1,
                    ));
                    lemma_prefix_len_mono(view, self.spec_chunk() + 1, view.len() as int);
                    lemma_flatten_len(view);
                    assert forall|k: int| 0 <= k < nrest implies #[trigger] r@[k] == flat.subrange(
                        sp0,
                        sp0 + nrest,
                    )[k] by {
                        lemma_flatten_index(view, self.spec_chunk(), p + k);
                    }
                    assert(r@ =~= flat.subrange(sp0, sp0 + nrest));
                }
                r
            },
            None => &[],
        }
    }

    /// Advances the offset by `amt` without copying: a non-negative relative
    /// seek. The offset type must be able to hold the target.
    pub fn consume_impl(&mut self, amt: usize)
        requires
            old(self).wf(),
            old(self).spec_pos() + amt <= u64::MAX,
        ensures
            final(self).wf(),
            final(self).starts() == old(self).starts(),
            final(self).spec_pos() == old(self).spec_pos() + amt,
            final(self).spec_chunk() == chunk_of(
                old(self).starts(),
                (old(self).spec_pos() + amt) as u64,
            ),
    {
        self.set_pos(self.pos + (amt as u64));
    }
}

/// A non-destructive random-access reader over a [`BufList`].
///
/// The cursor owns the buffer and snapshots its chunk boundaries once, at
/// construction; the buffer is not mutated by any cursor operation. Reads
/// and seeks behave exactly like a standard in-memory cursor over the
/// contiguous concatenation [`Cursor::stream`] of the chunks.
#[derive(Clone, Debug)]
pub struct Cursor {
    inner: BufList,
    data: CursorData,
}

impl Cursor {
    /// The byte sequences of the wrapped buffer's chunks.
    pub closed spec fn chunks(&self) -> Seq<Seq<u8>> {
        self.inner.chunks_view()
    }

    /// The logical byte stream: the concatenation of all chunks.
    pub open spec fn stream(&self) -> Seq<u8> {
        flatten_chunks(self.chunks())
    }

    /// The current byte offset.
    pub closed spec fn spec_position(&self) -> u64 {
        self.data.spec_pos()
    }

    /// The index of the chunk the offset falls in; the sentinel index
    /// `chunks().len()` when the offset is at or past the end.
    pub closed spec fn chunk_index(&self) -> int {
        self.data.spec_chunk()
    }

    /// The start-index snapshot: `starts()[i]` is the offset at which chunk
    /// `i` begins, and the last entry is the total length.
    pub closed spec fn starts(&self) -> Seq<u64> {
        self.data.starts()
    }

    /// The wrapped buffer and the snapshot agree and both are well-formed.
    pub closed spec fn wf(&self) -> bool {
        &&& self.inner.wf()
        &&& self.data.wf()
        &&& self.data.matches(self.inner.chunks_view())
    }

    /// What the start-index snapshot of a well-formed cursor holds: one
    /// entry per chunk with the byte count before it, a total-length
    /// sentinel, and the current offset bracketed by the current chunk.
    pub proof fn lemma_wf(&self)
        requires
            self.wf(),
        ensures
            self.starts().len() == self.chunks().len() + 1,
            forall|i: int|
                0 <= i <= self.chunks().len() ==> #[trigger] self.starts()[i] == prefix_len(
                    self.chunks(),
                    i,
                ),
            self.starts().last() == self.stream().len(),
            0 <= self.chunk_index() <= self.chunks().len(),
            self.starts()[self.chunk_index()] <= self.spec_position(),
            self.chunk_index() == self.chunks().len() <==> self.spec_position()
                >= self.stream().len(),
            self.stream().len() <= usize::MAX,
    {
        self.data.lemma_at_end(self.chunks());
        self.inner.lemma_wf();
    }

    /// Creates a cursor wrapping `inner`, building the start-index from the
    /// buffer's current chunk lengths in one pass; the initial offset is 0,
    /// in chunk 0.
    pub fn new(inner: BufList) -> (r: Cursor)
        requires
            inner.wf(),
        ensures
            r.wf(),
            r.chunks() == inner.chunks_view(),
            r.spec_position() == 0,
            r.chunk_index() == 0,
    {
        let data = CursorData::new(&inner);
        Cursor { inner, data }
    }

    /// Consumes the cursor, returning the wrapped buffer.
    pub fn into_inner(self) -> (r: BufList)
        ensures
            r.chunks_view() == self.chunks(),
            self.wf() ==> r.wf(),
    {
        self.inner
    }

    /// A reference to the wrapped buffer.
    pub fn get_ref(&self) -> (r: &BufList)
        ensures
            r.chunks_view() == self.chunks(),
            self.wf() ==> r.wf(),
    {
        &self.inner
    }

    /// The current position.
    pub fn position(&self) -> (r: u64)
        ensures
            r == self.spec_position(),
    {
        self.data.position()
    }

    /// Moves the cursor to the byte offset `pos`; offsets past the end are
    /// legal. The chunk index is re-resolved, in O(1) for a local move and
    /// O(log chunks) for a jump.
    pub fn set_position(&mut self, pos: u64)
        requires
            old(self).wf(),
        ensures
            final(self).wf(),
            final(self).chunks() == old(self).chunks(),
            final(self).starts() == old(self).starts(),
            final(self).spec_position() == pos,
            final(self).chunk_index() == chunk_of(old(self).starts(), pos),
            pos == old(self).spec_position() ==> final(self).chunk_index() == old(
                self,
            ).chunk_index(),
    {
        self.data.set_pos(pos);
    }

    /// Seeks from the start, the end, or the current position. Returns the
    /// new offset, or fails, changing nothing, exactly when the target would
    /// be negative or would not fit in the offset type; targets past the end
    /// of the data are legal. A zero-delta relative seek changes nothing.
    pub fn seek(&mut self, style: SeekFrom) -> (r: Result<u64, InvalidSeekError>)
        requires
            old(self).wf(),
        ensures
            final(self).wf(),
            final(self).chunks() == old(self).chunks(),
            final(self).starts() == old(self).starts(),
            match r {
                Ok(n) => {
                    &&& n as int == seek_target(
                        style,
                        old(self).stream().len() as u64,
                        old(self).spec_position(),
                    )
                    &&& final(self).spec_position() == n
                    &&& final(self).chunk_index() == chunk_of(old(self).starts(), n)
                },
                Err(e) => {
                    &&& !(0 <= seek_target(
                        style,
                        old(self).stream().len() as u64,
                        old(self).spec_position(),
                    ) <= u64::MAX)
                    &&& e == InvalidSeekError
                    &&& final(self).spec_position() == old(self).spec_position()
                    &&& final(self).chunk_index() == old(self).chunk_index()
                },
            },
            style == SeekFrom::Current(0i64) ==> {
                &&& r == Ok::<u64, InvalidSeekError>(old(self).spec_position())
                &&& final(self).spec_position() == old(self).spec_position()
                &&& final(self).chunk_index() == old(self).chunk_index()
            },
    {
        proof {
            self.data.lemma_at_end(self.chunks());
            self.inner.lemma_wf();
        }
        self.data.seek_impl(style)
    }

    /// Copies forward from the current position into `dest`, crossing chunk
    /// boundaries as needed, limited by the destination's length and the
    /// bytes available before the end. Advances the position by the count
    /// copied and returns it; returns 0 exactly when at or past the end.
    pub fn read(&mut self, dest: &mut Vec<u8>) -> (n: usize)
        requires
            old(self).wf(),
        ensures
            final(self).wf(),
            final(self).chunks() == old(self).chunks(),
            final(self).starts() == old(self).starts(),
            n as int == read_amount(
                old(self).stream().len() as int,
                old(self).spec_position() as int,
                old(dest)@.len() as int,
            ),
            final(self).spec_position() == old(self).spec_position() + n,
            final(self).chunk_index() == chunk_of(
                old(self).starts(),
                (old(self).spec_position() + n) as u64,
            ),
            final(dest)@.len() == old(dest)@.len(),
            final(dest)@ == stream_bytes(
                old(self).stream(),
                old(self).spec_position() as int,
                n as int,
            ) + old(dest)@.skip(n as int),
    {
        proof {
            self.data.lemma_at_end(self.chunks());
        }
        let n = self.data.read_impl(&self.inner, dest);
        n
    }

    /// Reads into each destination in order, accumulating the bytes copied,
    /// and stops early the moment a destination is only partially filled.
    pub fn read_vectored(&mut self, bufs: &mut Vec<Vec<u8>>) -> (nread: usize)
        requires
            old(self).wf(),
        ensures
            final(self).wf(),
            final(self).chunks() == old(self).chunks(),
            final(self).starts() == old(self).starts(),
            ({
                let out = vectored_read(
                    old(self).stream(),
                    old(self).spec_position() as int,
                    views_of(old(bufs)@),
                );
                &&& views_of(final(bufs)@) == out.0
                &&& nread as int == out.1
                &&& final(self).spec_position() == old(self).spec_position() + nread
                &&& final(self).chunk_index() == chunk_of(
                    old(self).starts(),
                    (old(self).spec_position() + nread) as u64,
                )
            }),
    {
        self.data.read_vectored_impl(&self.inner, bufs)
    }

    /// Fails with the remaining and requested counts, changing nothing, when
    /// fewer bytes remain before the end than `dest` asks for; otherwise
    /// fills `dest` completely, as `read` would.
    pub fn read_exact(&mut self, dest: &mut Vec<u8>) -> (r: Result<(), ReadExactError>)
        requires
            old(self).wf(),
        ensures
            final(self).wf(),
            final(self).chunks() == old(self).chunks(),
            final(self).starts() == old(self).starts(),
            final(dest)@.len() == old(dest)@.len(),
            match r {
                Ok(()) => {
                    &&& read_amount(
                        old(self).stream().len() as int,
                        old(self).spec_position() as int,
                        old(dest)@.len() as int,
                    ) == old(dest)@.len()
                    &&& final(self).spec_position() == old(self).spec_position() + old(
                        dest,
                    )@.len()
                    &&& final(self).chunk_index() == chunk_of(
                        old(self).starts(),
                        (old(self).spec_position() + old(dest)@.len()) as u64,
                    )
                    &&& final(dest)@ == stream_bytes(
                        old(self).stream(),
                        old(self).spec_position() as int,
                        old(dest)@.len() as int,
                    )
                },
                Err(e) => {
                    &&& read_amount(
                        old(self).stream().len() as int,
                        old(self).spec_position() as int,
                        old(dest)@.len() as int,
                    ) < old(dest)@.len()
                    &&& e == (ReadExactError {
                        remaining: if old(self).spec_position() >= old(self).stream().len() {
                            0
                        } else {
                            (old(self).stream().len() - old(self).spec_position()) as u64
                        },
                        buf_len: old(dest)@.len() as usize,
                    })
                    &&& final(self).spec_position() == old(self).spec_position()
                    &&& final(self).chunk_index() == old(self).chunk_index()
                    &&& final(dest)@ == old(dest)@
                },
            },
    {
        proof {
            self.data.lemma_at_end(self.chunks());
        }
        self.data.read_exact_impl(&self.inner, dest)
    }

    /// A zero-copy view of the rest of the current chunk starting at the
    /// current position; empty exactly when the position is at or past the
    /// end.
    pub fn fill_buf(&self) -> (r: &[u8])
        requires
            self.wf(),
        ensures
            r@.len() == 0 <==> self.spec_position() >= self.stream().len(),
            self.spec_position() < self.stream().len() ==> r@ == stream_bytes(
                self.stream(),
                self.spec_position() as int,
                self.starts()[self.chunk_index() + 1] - self.spec_position(),
            ),
    {
        proof {
            self.data.lemma_at_end(self.chunks());
        }
        self.data.fill_buf_impl(&self.inner)
    }

    /// Advances the position by `amt` without copying: a non-negative
    /// relative seek. The offset type must be able to hold the target.
    pub fn consume(&mut self, amt: usize)
        requires
            old(self).wf(),
            old(self).spec_position() + amt <= u64::MAX,
        ensures
            final(self).wf(),
            final(self).chunks() == old(self).chunks(),
            final(self).starts() == old(self).starts(),
            final(self).spec_position() == old(self).spec_position() + amt,
            final(self).chunk_index() == chunk_of(
                old(self).starts(),
                (old(self).spec_position() + amt) as u64,
            ),
    {
        self.data.consume_impl(amt);
    }
}

} // verus!
