//! The segmented buffer: an ordered queue of non-empty byte chunks that
//! together represent one logical byte stream.
//!
//! Chunks are appended at the back and consumed from the front. The spec-level
//! model of a buffer is the sequence of its chunks' byte sequences; the
//! logical stream is their concatenation, [`flatten_chunks`].

use vstd::prelude::*;

use crate::chunk::{
    chunk_advance, chunk_byte, chunk_clone, chunk_data, chunk_from_vec, chunk_len, chunk_split_to,
    chunk_suffix,
};
use std::collections::VecDeque;

verus! {

/// The concatenation of a sequence of byte chunks, front first.
pub open spec fn flatten_chunks(s: Seq<Seq<u8>>) -> Seq<u8>
    decreases s.len(),
{
    if s.len() == 0 {
        Seq::empty()
    } else {
        s[0] + flatten_chunks(s.drop_first())
    }
}

/// The number of bytes in the first `i` chunks of `s`.
pub open spec fn prefix_len(s: Seq<Seq<u8>>, i: int) -> int
    decreases i,
{
    if i <= 0 {
        0
    } else {
        s[0].len() + prefix_len(s.drop_first(), i - 1)
    }
}

/// No chunk of `s` is empty.
pub open spec fn chunks_nonempty(s: Seq<Seq<u8>>) -> bool {
    forall|i: int| 0 <= i < s.len() ==> #[trigger] s[i].len() > 0
}

/// The chunk sequence left after consuming `n` bytes from the front:
/// whole chunks are dropped, a partially consumed front chunk is truncated.
pub open spec fn advance_chunks(s: Seq<Seq<u8>>, n: int) -> Seq<Seq<u8>>
    decreases s.len(),
{
    if s.len() == 0 || n <= 0 {
        s
    } else if n < s[0].len() {
        s.update(0, s[0].skip(n))
    } else {
        advance_chunks(s.drop_first(), n - s[0].len())
    }
}

/// Skipping `a` bytes and then `b` more skips `a + b` bytes.
pub proof fn lemma_skip_skip(s: Seq<u8>, a: int, b: int)
    requires
        0 <= a,
        0 <= b,
        a + b <= s.len(),
    ensures
        s.skip(a).skip(b) == s.skip(a + b),
{
    assert forall|i: int| 0 <= i < s.skip(a).skip(b).len() implies s.skip(a).skip(b)[i] == s.skip(
        a + b,
    )[i] by {
        assert(s.skip(a).skip(b)[i] == s.skip(a)[b + i]);
        assert(s.skip(a)[b + i] == s[a + b + i]);
    }
    assert(s.skip(a).skip(b) =~= s.skip(a + b));
}

/// One more chunk adds that chunk's length to the prefix.
pub proof fn lemma_prefix_len_step(s: Seq<Seq<u8>>, i: int)
    requires
        0 <= i < s.len(),
    ensures
        prefix_len(s, i + 1) == prefix_len(s, i) + s[i].len(),
    decreases i,
{
    if i > 0 {
        lemma_prefix_len_step(s.drop_first(), i - 1);
    } else {
        assert(prefix_len(s.drop_first(), 0) == 0);
    }
}

/// The concatenation's length is the sum of the chunk lengths.
pub proof fn lemma_flatten_len(s: Seq<Seq<u8>>)
    ensures
        flatten_chunks(s).len() == prefix_len(s, s.len() as int),
    decreases s.len(),
{
    if s.len() > 0 {
        lemma_flatten_len(s.drop_first());
    }
}

/// Chunk prefixes grow with the chunk count, strictly so while no chunk is
/// empty.
pub proof fn lemma_prefix_len_mono(s: Seq<Seq<u8>>, i: int, j: int)
    requires
        0 <= i <= j <= s.len(),
    ensures
        prefix_len(s, i) <= prefix_len(s, j),
        chunks_nonempty(s) && i < j ==> prefix_len(s, i) < prefix_len(s, j),
    decreases j,
{
    if i > 0 {
        assert(chunks_nonempty(s) ==> chunks_nonempty(s.drop_first())) by {
            if chunks_nonempty(s) {
                assert forall|k: int| 0 <= k < s.drop_first().len() implies #[trigger] s.drop_first()[k].len() > 0 by {
                    assert(s[k + 1].len() > 0);
                }
            }
        }
        lemma_prefix_len_mono(s.drop_first(), i - 1, j - 1);
    } else if j > 0 {
        assert(chunks_nonempty(s) ==> s[0].len() > 0);
        lemma_prefix_len_mono(s.drop_first(), 0, j - 1);
    }
}

/// The byte at offset `prefix_len(s, i) + j` of the concatenation is byte
/// `j` of chunk `i`.
pub proof fn lemma_flatten_index(s: Seq<Seq<u8>>, i: int, j: int)
    requires
        0 <= i < s.len(),
        0 <= j < s[i].len(),
    ensures
        0 <= prefix_len(s, i) + j < flatten_chunks(s).len(),
        flatten_chunks(s)[prefix_len(s, i) + j] == s[i][j],
    decreases i,
{
    lemma_flatten_len(s);
    lemma_prefix_len_mono(s, i, s.len() as int);
    assert(prefix_len(s, i) >= 0) by {
        lemma_prefix_len_mono(s, 0, i);
    }
    if i == 0 {
        assert(flatten_chunks(s)[j] == s[0][j]);
    } else {
        lemma_flatten_index(s.drop_first(), i - 1, j);
    }
}

/// Appending a chunk appends its bytes to the concatenation.
pub proof fn lemma_flatten_push(s: Seq<Seq<u8>>, x: Seq<u8>)
    ensures
        flatten_chunks(s.push(x)) == flatten_chunks(s) + x,
    decreases s.len(),
{
    if s.len() == 0 {
        assert(s.push(x).drop_first() =~= Seq::<Seq<u8>>::empty());
        assert(s.push(x)[0] == x);
        assert(flatten_chunks(s.push(x)) == x + flatten_chunks(Seq::<Seq<u8>>::empty()));
        assert(flatten_chunks(s.push(x)) =~= flatten_chunks(s) + x);
    } else {
        assert(s.push(x).drop_first() =~= s.drop_first().push(x));
        lemma_flatten_push(s.drop_first(), x);
        assert(flatten_chunks(s.push(x)) =~= flatten_chunks(s) + x);
    }
}

/// Consuming `n` bytes from the chunk queue drops exactly the first `n`
/// bytes of the concatenation and keeps every remaining chunk non-empty.
pub proof fn lemma_advance_chunks(s: Seq<Seq<u8>>, n: int)
    requires
        0 <= n <= flatten_chunks(s).len(),
        chunks_nonempty(s),
    ensures
        flatten_chunks(advance_chunks(s, n)) == flatten_chunks(s).skip(n),
        chunks_nonempty(advance_chunks(s, n)),
    decreases s.len(),
{
    if s.len() == 0 || n <= 0 {
        assert(flatten_chunks(s).skip(0) =~= flatten_chunks(s));
    } else if n < s[0].len() {
        let t = s.update(0, s[0].skip(n));
        assert(t.drop_first() =~= s.drop_first());
        assert(flatten_chunks(t) =~= flatten_chunks(s).skip(n));
        assert forall|k: int| 0 <= k < t.len() implies #[trigger] t[k].len() > 0 by {
            assert(s[k].len() > 0);
        }
    } else {
        assert(chunks_nonempty(s.drop_first())) by {
            assert forall|k: int| 0 <= k < s.drop_first().len() implies #[trigger] s.drop_first()[k].len() > 0 by {
                assert(s[k + 1].len() > 0);
            }
        }
        lemma_advance_chunks(s.drop_first(), n - s[0].len());
        assert(flatten_chunks(s.drop_first()).skip(n - s[0].len()) =~= flatten_chunks(s).skip(n));
    }
}

/// Appended bytes drain back out unchanged: after a buffer holding `flat0`
/// has `x` appended, consuming `flat0.len()` bytes and then copying out
/// `x.len()` bytes yields exactly `x`. On an empty buffer the copy follows
/// the append immediately.
pub proof fn lemma_append_then_copy_round_trip(flat0: Seq<u8>, x: Seq<u8>)
    ensures
        (flat0 + x).skip(flat0.len() as int) == x,
        flat0.len() == 0 ==> (flat0 + x).take(x.len() as int) == x,
{
    assert((flat0 + x).skip(flat0.len() as int) =~= x);
    if flat0.len() == 0 {
        assert((flat0 + x).take(x.len() as int) =~= x);
    }
}

/// An ordered queue of non-empty shared byte chunks, FIFO at the front,
/// representing the logical byte stream [`BufList::flat`].
#[derive(Clone, Debug)]
pub struct BufList {
    chunks: VecDeque<bytes::Bytes>,
    remaining: usize,
}

impl BufList {
    /// The sequence of byte sequences the stored chunks hold, front first.
    pub closed spec fn chunks_view(&self) -> Seq<Seq<u8>> {
        self.chunks@.map(|i: int, b: bytes::Bytes| chunk_data(b))
    }

    /// The logical byte stream: the concatenation of all chunks.
    pub open spec fn flat(&self) -> Seq<u8> {
        flatten_chunks(self.chunks_view())
    }

    /// Every stored chunk is non-empty, and the cached byte total equals the
    /// length of the concatenation.
    pub closed spec fn wf(&self) -> bool {
        &&& chunks_nonempty(self.chunks_view())
        &&& self.remaining as int == flatten_chunks(self.chunks_view()).len()
    }

    /// A well-formed buffer holds no empty chunk, and its stream fits in a
    /// `usize`.
    pub proof fn lemma_wf(&self)
        requires
            self.wf(),
        ensures
            chunks_nonempty(self.chunks_view()),
            self.flat().len() <= usize::MAX,
    {
    }

    /// Creates an empty buffer.
    pub fn new() -> (r: BufList)
        ensures
            r.wf(),
            r.chunks_view() == Seq::<Seq<u8>>::empty(),
    {
        let r = BufList { chunks: VecDeque::new(), remaining: 0 };
        proof {
            assert(r.chunks_view() =~= Seq::<Seq<u8>>::empty());
        }
        r
    }

    /// The number of stored chunks.
    pub fn num_chunks(&self) -> (r: usize)
        ensures
            r == self.chunks_view().len(),
    {
        self.chunks.len()
    }

    /// The total number of bytes across all chunks.
    pub fn num_bytes(&self) -> (r: usize)
        requires
            self.wf(),
        ensures
            r == self.flat().len(),
    {
        self.remaining
    }

    /// The number of bytes not yet consumed; the same as [`BufList::num_bytes`].
    pub fn remaining(&self) -> (r: usize)
        requires
            self.wf(),
        ensures
            r == self.flat().len(),
    {
        self.remaining
    }

    /// A view of the first chunk's bytes, empty when the buffer is empty.
    pub fn front_view(&self) -> (r: &[u8])
        ensures
            r@ == if self.chunks_view().len() > 0 {
                self.chunks_view()[0]
            } else {
                Seq::<u8>::empty()
            },
    {
        if self.chunks.len() > 0 {
            chunk_suffix(&self.chunks[0], 0)
        } else {
            proof {
                assert(self.chunks_view().len() == 0);
            }
            &[]
        }
    }

    /// Appends `data` as one shared chunk at the back, unless it is empty,
    /// and returns a second handle to it either way.
    pub fn push_chunk(&mut self, data: bytes::Bytes) -> (r: bytes::Bytes)
        requires
            old(self).wf(),
            old(self).flat().len() + chunk_data(data).len() <= usize::MAX,
        ensures
            final(self).wf(),
            chunk_data(r) == chunk_data(data),
            final(self).chunks_view() == if chunk_data(data).len() == 0 {
                old(self).chunks_view()
            } else {
                old(self).chunks_view().push(chunk_data(data))
            },
            final(self).flat() == old(self).flat() + chunk_data(data),
    {
        let len = chunk_len(&data);
        let r = chunk_clone(&data);
        if len > 0 {
            proof {
                lemma_flatten_push(self.chunks_view(), chunk_data(data));
            }
            self.chunks.push_back(data);
            self.remaining = self.remaining + len;
            proof {
                assert(self.chunks_view() =~= old(self).chunks_view().push(chunk_data(data)));
            }
        } else {
            proof {
                assert(old(self).flat() + chunk_data(data) =~= old(self).flat());
            }
        }
        r
    }

    /// Consumes exactly `cnt` bytes from the front, popping whole chunks and
    /// truncating a partially consumed one. Callers must check
    /// [`BufList::remaining`] first: consuming more than is stored is a
    /// contract violation, not a recoverable error.
    pub fn advance(&mut self, cnt: usize)
        requires
            old(self).wf(),
            cnt as int <= old(self).flat().len(),
        ensures
            final(self).wf(),
            final(self).chunks_view() == advance_chunks(old(self).chunks_view(), cnt as int),
            final(self).flat() == old(self).flat().skip(cnt as int),
    {
        let ghost orig = *old(self);
        let mut rem: usize = cnt;
        proof {
            assert(orig.flat().skip(0) =~= orig.flat());
        }
        while rem > 0
            invariant
                self.wf(),
                rem <= cnt,
                cnt as int <= orig.flat().len(),
                rem as int <= self.flat().len(),
                advance_chunks(orig.chunks_view(), cnt as int) == advance_chunks(
                    self.chunks_view(),
                    rem as int,
                ),
                self.flat() == orig.flat().skip(cnt - rem),
            decreases rem,
        {
            let ghost view = self.chunks_view();
            proof {
                assert(view.len() > 0);
                assert(view[0].len() > 0);
            }
            let mut front = self.chunks.pop_front().unwrap();
            proof {
                assert(chunk_data(front) == view[0]);
                assert(self.chunks_view() =~= view.drop_first());
            }
            let front_len = chunk_len(&front);
            if rem >= front_len {
                proof {
                    lemma_advance_chunks(view, front_len as int);
                    assert(advance_chunks(view, front_len as int) == advance_chunks(
                        view.drop_first(),
                        0,
                    ));
                    assert(advance_chunks(view, front_len as int) == view.drop_first());
                    assert(flatten_chunks(view) == orig.flat().skip(cnt - rem));
                    lemma_skip_skip(orig.flat(), cnt - rem, front_len as int);
                }
                self.remaining = self.remaining - front_len;
                rem = rem - front_len;
            } else {
                chunk_advance(&mut front, rem);
                proof {
                    lemma_advance_chunks(view, rem as int);
                    assert(advance_chunks(view, rem as int) =~= seq![view[0].skip(rem as int)]
                        + view.drop_first());
                }
                self.chunks.push_front(front);
                proof {
                    assert(self.chunks_view() =~= advance_chunks(view, rem as int));
                    assert(flatten_chunks(view) == orig.flat().skip(cnt - rem));
                    lemma_skip_skip(orig.flat(), cnt - rem, rem as int);
                }
                self.remaining = self.remaining - rem;
                rem = 0;
            }
        }
        proof {
            assert(advance_chunks(self.chunks_view(), 0) == self.chunks_view());
            assert(self.flat() == orig.flat().skip(cnt as int));
        }
    }

    /// Returns the first `len` bytes as one chunk, consuming them. When the
    /// request fits inside the front chunk the result is a shared sub-range
    /// of it (no copy); otherwise the bytes are copied across chunk
    /// boundaries into a fresh chunk. Callers must check
    /// [`BufList::remaining`] first: taking more than is stored is a contract
    /// violation, not a recoverable error.
    pub fn copy_to_bytes(&mut self, len: usize) -> (r: bytes::Bytes)
        requires
            old(self).wf(),
            len as int <= old(self).flat().len(),
        ensures
            final(self).wf(),
            chunk_data(r) == old(self).flat().take(len as int),
            final(self).chunks_view() == advance_chunks(old(self).chunks_view(), len as int),
            final(self).flat() == old(self).flat().skip(len as int),
    {
        let ghost view = self.chunks_view();
        if len == 0 {
            proof {
                assert(old(self).flat().take(0) =~= Seq::<u8>::empty());
                assert(old(self).flat().skip(0) =~= old(self).flat());
            }
            return crate::chunk::chunk_new();
        }
        proof {
            assert(view.len() > 0);
            assert(view[0].len() > 0);
        }
        let front_len = chunk_len(&self.chunks[0]);
        if len <= front_len {
            let mut front = self.chunks.pop_front().unwrap();
            proof {
                assert(chunk_data(front) == view[0]);
                assert(self.chunks_view() =~= view.drop_first());
                lemma_advance_chunks(view, len as int);
            }
            self.remaining = self.remaining - len;
            if len == front_len {
                proof {
                    assert(advance_chunks(view, len as int) == advance_chunks(
                        view.drop_first(),
                        0,
                    ));
                    assert(old(self).flat().take(len as int) =~= view[0]);
                }
                front
            } else {
                let r = chunk_split_to(&mut front, len);
                self.chunks.push_front(front);
                proof {
                    assert(advance_chunks(view, len as int) == view.update(
                        0,
                        view[0].skip(len as int),
                    ));
                    assert(self.chunks_view() =~= advance_chunks(view, len as int));
                    assert(old(self).flat().take(len as int) =~= view[0].take(len as int));
                }
                r
            }
        } else {
            let mut out: Vec<u8> = Vec::new();
            let mut i: usize = 0;
            let mut copied: usize = 0;
            let nc = self.chunks.len();
            proof {
                assert(self.flat().take(0) =~= Seq::<u8>::empty());
                lemma_flatten_len(view);
            }
            while copied < len
                invariant
                    self.wf(),
                    view == self.chunks_view(),
                    nc == view.len(),
                    len as int <= self.flat().len(),
                    copied <= len,
                    out@ == self.flat().take(copied as int),
                    copied == len || (i <= view.len() && copied as int == prefix_len(
                        view,
                        i as int,
                    )),
                decreases len - copied,
            {
                proof {
                    lemma_flatten_len(view);
                    if i >= view.len() {
                        lemma_prefix_len_mono(view, i as int, view.len() as int);
                        assert(false);
                    }
                    lemma_prefix_len_mono(view, 0, i as int);
                }
                let c = &self.chunks[i];
                let clen = chunk_len(c);
                let n = if clen < len - copied {
                    clen
                } else {
                    len - copied
                };
                let mut j: usize = 0;
                while j < n
                    invariant
                        self.wf(),
                        view == self.chunks_view(),
                        i < view.len(),
                        chunk_data(*c) == view[i as int],
                        copied as int == prefix_len(view, i as int),
                        j <= n <= chunk_data(*c).len(),
                        copied + n <= len,
                        len as int <= self.flat().len(),
                        out@ == self.flat().take(copied + j),
                    decreases n - j,
                {
                    let b = chunk_byte(c, j);
                    proof {
                        lemma_flatten_index(view, i as int, j as int);
                        assert(self.flat().take(copied + j + 1) =~= self.flat().take(
                            copied + j,
                        ).push(self.flat()[copied + j]));
                    }
                    out.push(b);
                    j = j + 1;
                }
                proof {
                    lemma_prefix_len_step(view, i as int);
                }
                copied = copied + n;
                i = i + 1;
            }
            self.advance(len);
            chunk_from_vec(out)
        }
    }

    /// A scatter view: byte views of the leading chunks, one per
    /// caller-provided slot, filled chunk by chunk until all `slots` slots
    /// are used or all chunks are handed out.
    pub fn chunks_vectored(&self, slots: usize) -> (r: Vec<&[u8]>)
        ensures
            r@.len() == if slots < self.chunks_view().len() {
                slots as int
            } else {
                self.chunks_view().len() as int
            },
            forall|i: int| 0 <= i < r@.len() ==> #[trigger] r@[i]@ == self.chunks_view()[i],
    {
        let ghost view = self.chunks_view();
        let n = self.num_chunks();
        let m = if slots < n {
            slots
        } else {
            n
        };
        let mut r: Vec<&[u8]> = Vec::new();
        let mut i: usize = 0;
        while i < m
            invariant
                m <= view.len(),
                view == self.chunks_view(),
                i <= m,
                r@.len() == i,
                forall|k: int| 0 <= k < i ==> #[trigger] r@[k]@ == view[k],
            decreases m - i,
        {
            let s = chunk_suffix(&self.chunks[i], 0);
            proof {
                assert(chunk_data(self.chunks@[i as int]).skip(0) =~= view[i as int]);
            }
            r.push(s);
            i = i + 1;
        }
        r
    }

    /// The chunk at index `i`, if there is one.
    pub fn get_chunk(&self, i: usize) -> (r: Option<&bytes::Bytes>)
        ensures
            match r {
                Some(c) => i < self.chunks_view().len() && chunk_data(*c) == self.chunks_view()[i as int],
                None => i >= self.chunks_view().len(),
            },
    {
        if i < self.chunks.len() {
            Some(&self.chunks[i])
        } else {
            None
        }
    }
}

impl Default for BufList {
    /// The empty buffer.
    fn default() -> (r: BufList)
        ensures
            r.wf(),
            r.chunks_view() == Seq::<Seq<u8>>::empty(),
    {
        BufList::new()
    }
}

} // verus!
