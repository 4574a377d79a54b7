//! Cutting a buffer into size-bounded chunks that prefer to end just before a
//! separator, so that records are kept whole where the size cap allows it.

use vstd::prelude::*;
use vstd::std_specs::cmp::PartialEqSpec;

verus! {

/// Executable `==` on `T` decides mathematical equality.
pub open spec fn eq_is_identity<T: PartialEq>() -> bool {
    &&& T::obeys_eq_spec()
    &&& forall|a: T, b: T| #[trigger] a.eq_spec(&b) <==> a == b
}

/// Index of the last occurrence of `sep` in `w`, or `-1` where there is none.
pub open spec fn last_index_of<T>(w: Seq<T>, sep: T) -> int
    decreases w.len(),
{
    if w.len() == 0 {
        -1
    } else if w.last() == sep {
        w.len() - 1
    } else {
        last_index_of(w.drop_last(), sep)
    }
}

/// Length of the window that the next chunk is cut from.
pub open spec fn window_len<T>(v: Seq<T>, chunk_size: nat) -> nat {
    if v.len() <= chunk_size {
        v.len()
    } else {
        chunk_size
    }
}

/// Length of the first chunk of `v`: up to the last separator of the window
/// where that separator is not the window's first element, else the whole
/// window.
pub open spec fn first_chunk_len<T>(v: Seq<T>, sep: T, chunk_size: nat) -> nat {
    let w = window_len(v, chunk_size);
    let o = last_index_of(v.take(w as int), sep);
    if o > 0 {
        o as nat
    } else {
        w
    }
}

/// All chunks of `v`, in order.
pub open spec fn chunks<T>(v: Seq<T>, sep: T, chunk_size: nat) -> Seq<Seq<T>>
    decreases v.len(),
{
    if v.len() == 0 || chunk_size == 0 {
        Seq::empty()
    } else {
        let n = first_chunk_len(v, sep, chunk_size);
        proof {
            lemma_first_chunk_len(v, sep, chunk_size);
        }
        seq![v.take(n as int)] + chunks(v.skip(n as int), sep, chunk_size)
    }
}

/// The number of chunks that cutting at every `chunk_size` elements would
/// give: `len / chunk_size`, rounded up.
pub open spec fn chunk_count_hint(len: nat, chunk_size: nat) -> nat {
    if len % chunk_size > 0 {
        len / chunk_size + 1
    } else {
        len / chunk_size
    }
}

/// What `last_index_of` finds: a separator with none behind it, or nothing
/// in a window that holds no separator.
pub proof fn lemma_last_index_of<T>(w: Seq<T>, sep: T)
    ensures
        -1 <= last_index_of(w, sep) < w.len(),
        last_index_of(w, sep) >= 0 ==> w[last_index_of(w, sep)] == sep,
        forall|j: int| last_index_of(w, sep) < j < w.len() ==> w[j] != sep,
    decreases w.len(),
{
    if w.len() > 0 && w.last() != sep {
        let front = w.drop_last();
        lemma_last_index_of(front, sep);
        assert forall|j: int| last_index_of(w, sep) < j < w.len() implies w[j] != sep by {
            if j < front.len() {
                assert(front[j] == w[j]);
            }
        }
        if last_index_of(w, sep) >= 0 {
            assert(front[last_index_of(w, sep)] == w[last_index_of(w, sep)]);
        }
    }
}

/// The first chunk of a non-empty buffer is non-empty and within the cap.
pub proof fn lemma_first_chunk_len<T>(v: Seq<T>, sep: T, chunk_size: nat)
    requires
        v.len() > 0,
        chunk_size > 0,
    ensures
        0 < first_chunk_len(v, sep, chunk_size) <= window_len(v, chunk_size),
        window_len(v, chunk_size) <= chunk_size,
        window_len(v, chunk_size) <= v.len(),
{
    lemma_last_index_of(v.take(window_len(v, chunk_size) as int), sep);
}

/// Concatenating the chunks gives the buffer back: nothing is added, dropped
/// or reordered.
pub proof fn lemma_chunks_concat<T>(v: Seq<T>, sep: T, chunk_size: nat)
    requires
        chunk_size > 0,
    ensures
        chunks(v, sep, chunk_size).flatten() == v,
    decreases v.len(),
{
    if v.len() == 0 {
        assert(chunks(v, sep, chunk_size).flatten() =~= v);
    } else {
        lemma_first_chunk_len(v, sep, chunk_size);
        let n = first_chunk_len(v, sep, chunk_size) as int;
        let rest = chunks(v.skip(n), sep, chunk_size);
        let all = chunks(v, sep, chunk_size);
        lemma_chunks_concat(v.skip(n), sep, chunk_size);
        assert(all.first() == v.take(n));
        assert(all.drop_first() =~= rest);
        assert(all.flatten() =~= v.take(n) + v.skip(n));
        assert(v.take(n) + v.skip(n) =~= v);
    }
}

/// No chunk is empty and none is longer than the cap.
pub proof fn lemma_chunks_bounded<T>(v: Seq<T>, sep: T, chunk_size: nat)
    requires
        chunk_size > 0,
    ensures
        forall|i: int|
            0 <= i < chunks(v, sep, chunk_size).len() ==> 0 < (#[trigger] chunks(
                v,
                sep,
                chunk_size,
            )[i]).len() <= chunk_size,
    decreases v.len(),
{
    if v.len() > 0 {
        lemma_first_chunk_len(v, sep, chunk_size);
        let n = first_chunk_len(v, sep, chunk_size) as int;
        lemma_chunks_bounded(v.skip(n), sep, chunk_size);
        let rest = chunks(v.skip(n), sep, chunk_size);
        let all = chunks(v, sep, chunk_size);
        assert forall|i: int| 0 <= i < all.len() implies 0 < (#[trigger] all[i]).len()
            <= chunk_size by {
            if i > 0 {
                assert(all[i] == rest[i - 1]);
            }
        }
    }
}

/// `count * chunk_size` covers `len` exactly from the hint on: the hint is
/// `len / chunk_size`, rounded up.
pub proof fn lemma_chunk_count_hint(len: nat, chunk_size: nat, count: nat)
    requires
        chunk_size > 0,
    ensures
        count * chunk_size >= len <==> count >= chunk_count_hint(len, chunk_size),
{
    let q = len / chunk_size;
    let r = len % chunk_size;
    vstd::arithmetic::div_mod::lemma_fundamental_div_mod(len as int, chunk_size as int);
    assert(count * chunk_size >= len <==> count >= chunk_count_hint(len, chunk_size))
        by (nonlinear_arith)
        requires
            chunk_size > 0,
            len == chunk_size * q + r,
            0 <= r < chunk_size,
            chunk_count_hint(len, chunk_size) == if r > 0 {
                q + 1
            } else {
                q
            },
    ;
}

/// There are at least as many chunks as the hint says, and at most as many
/// as the buffer has elements.
pub proof fn lemma_chunk_count<T>(v: Seq<T>, sep: T, chunk_size: nat)
    requires
        chunk_size > 0,
    ensures
        chunk_count_hint(v.len(), chunk_size) <= chunks(v, sep, chunk_size).len() <= v.len(),
    decreases v.len(),
{
    if v.len() == 0 {
        lemma_chunk_count_hint(0, chunk_size, 0);
    } else {
        lemma_first_chunk_len(v, sep, chunk_size);
        let n = first_chunk_len(v, sep, chunk_size);
        let rest = v.skip(n as int);
        lemma_chunk_count(rest, sep, chunk_size);
        let k = chunks(rest, sep, chunk_size).len();
        lemma_chunk_count_hint(rest.len(), chunk_size, k);
        assert((k + 1) * chunk_size >= v.len()) by (nonlinear_arith)
            requires
                k * chunk_size >= v.len() - n,
                n <= chunk_size,
        ;
        lemma_chunk_count_hint(v.len(), chunk_size, k + 1);
    }
}

/// A chunk ends before a separator or at the end of its window: where the
/// window of a buffer holds a separator behind its first element, the first
/// chunk stops right before the last such separator, and the separator opens
/// what remains.
pub proof fn lemma_first_chunk_boundary<T>(v: Seq<T>, sep: T, chunk_size: nat)
    requires
        v.len() > 0,
        chunk_size > 0,
    ensures
        ({
            let w = window_len(v, chunk_size) as int;
            let n = first_chunk_len(v, sep, chunk_size) as int;
            &&& (exists|o: int| 0 < o < w && v[o] == sep) ==> n < w && v[n] == sep
            &&& forall|j: int| n < j < w ==> v[j] != sep
            &&& !(exists|o: int| 0 < o < w && v[o] == sep) ==> n == w
        }),
{
    let w = window_len(v, chunk_size) as int;
    let win = v.take(w);
    lemma_last_index_of(win, sep);
    let o = last_index_of(win, sep);
    let n = first_chunk_len(v, sep, chunk_size) as int;
    assert forall|j: int| 0 <= j < w implies win[j] == v[j] by {}
    if o > 0 {
        assert(win[o] == v[o]);
    }
    assert forall|j: int| n < j < w implies v[j] != sep by {
        assert(win[j] == v[j]);
    }
    if exists|p: int| 0 < p < w && v[p] == sep {
        let p = choose|p: int| 0 < p < w && v[p] == sep;
        assert(win[p] == sep);
    }
}

/// A lazy cutter of a buffer into chunks of at most `chunk_size` elements.
#[derive(Debug)]
pub struct ChunkedSplit<'a, T: 'a> {
    v: &'a [T],
    sep: T,
    chunk_size: usize,
}

impl<'a, T> ChunkedSplit<'a, T> {
    /// What has not been handed out yet.
    pub closed spec fn remaining(&self) -> Seq<T> {
        self.v@
    }

    /// The element that marks the end of a record.
    pub closed spec fn separator(&self) -> T {
        self.sep
    }

    /// The largest length a chunk may have.
    pub closed spec fn chunk_size(&self) -> nat {
        self.chunk_size as nat
    }

    /// The cap is positive.
    pub closed spec fn wf(&self) -> bool {
        self.chunk_size > 0
    }

    /// The chunks that are still to come.
    pub open spec fn pending(&self) -> Seq<Seq<T>> {
        chunks(self.remaining(), self.separator(), self.chunk_size())
    }

    /// Number of elements not handed out yet.
    pub fn len(&self) -> (n: usize)
        ensures
            n == self.remaining().len(),
    {
        self.v.len()
    }

    /// The next chunk, or `None` once the buffer is used up.
    pub fn next(&mut self) -> (r: Option<&'a [T]>) where T: PartialEq
        requires
            old(self).wf(),
            eq_is_identity::<T>(),
        ensures
            final(self).wf(),
            final(self).separator() == old(self).separator(),
            final(self).chunk_size() == old(self).chunk_size(),
            match r {
                None => old(self).remaining().len() == 0 && final(self).remaining() == old(
                    self,
                ).remaining(),
                Some(chunk) => {
                    let n = first_chunk_len(
                        old(self).remaining(),
                        old(self).separator(),
                        old(self).chunk_size(),
                    ) as int;
                    &&& old(self).remaining().len() > 0
                    &&& chunk@ == old(self).remaining().take(n)
                    &&& final(self).remaining() == old(self).remaining().skip(n)
                    &&& old(self).pending() == seq![chunk@] + final(self).pending()
                },
            },
    {
        if self.v.len() == 0 {
            None
        } else {
            let chunksz: usize = if self.v.len() <= self.chunk_size {
                self.v.len()
            } else {
                self.chunk_size
            };
            let (window, _) = self.v.split_at(chunksz);
            let last_pos: usize = match rposition(window, &self.sep) {
                Some(s) => {
                    if s == 0 {
                        chunksz
                    } else {
                        s
                    }
                },
                None => chunksz,
            };
            proof {
                lemma_first_chunk_len(self.v@, self.sep, self.chunk_size as nat);
            }
            let (fst, rem) = self.v.split_at(last_pos);
            self.v = rem;
            Some(fst)
        }
    }

    /// The number of chunks that cutting at every `chunk_size` elements would
    /// give, twice: as the least and as the expected number of chunks to
    /// come. Cutting at separators can give more chunks than that.
    pub fn size_hint(&self) -> (r: (usize, Option<usize>))
        requires
            self.wf(),
        ensures
            r.0 == chunk_count_hint(self.remaining().len(), self.chunk_size()),
            r.1 == Some(r.0),
    {
        if self.v.len() == 0 {
            (0, Some(0))
        } else {
            let n: usize = self.v.len() / self.chunk_size;
            let rem: usize = self.v.len() % self.chunk_size;
            if rem > 0 {
                assert(n < self.v.len()) by (nonlinear_arith)
                    requires
                        n == self.v.len() / self.chunk_size,
                        self.v.len() % self.chunk_size > 0,
                        self.chunk_size > 0,
                ;
                (n + 1, Some(n + 1))
            } else {
                (n, Some(n))
            }
        }
    }

    /// All chunks that are still to come, in order.
    pub fn collect(self) -> (r: Vec<&'a [T]>) where T: PartialEq
        requires
            self.wf(),
            eq_is_identity::<T>(),
        ensures
            r@.map_values(|c: &[T]| c@) == self.pending(),
    {
        let mut it = self;
        let mut out: Vec<&'a [T]> = Vec::new();
        loop
            invariant
                it.wf(),
                eq_is_identity::<T>(),
                out@.map_values(|c: &[T]| c@) + it.pending() == self.pending(),
            ensures
                out@.map_values(|c: &[T]| c@) == self.pending(),
            decreases it.remaining().len(),
        {
            let ghost before = out@.map_values(|c: &[T]| c@);
            let ghost unread = it.remaining();
            match it.next() {
                Some(chunk) => {
                    out.push(chunk);
                    proof {
                        lemma_first_chunk_len(unread, it.separator(), it.chunk_size());
                        assert(out@.map_values(|c: &[T]| c@) =~= before + seq![chunk@]);
                        assert((before + seq![chunk@]) + it.pending() =~= before + (seq![chunk@]
                            + it.pending()));
                    }
                },
                None => {
                    assert(out@.map_values(|c: &[T]| c@) + it.pending() =~= out@.map_values(
                        |c: &[T]| c@,
                    ));
                    break ;
                },
            }
        }
        out
    }
}

/// Position of the last element of `w` that equals `sep`.
pub fn rposition<T: PartialEq>(w: &[T], sep: &T) -> (r: Option<usize>)
    requires
        eq_is_identity::<T>(),
    ensures
        match r {
            Some(i) => i == last_index_of(w@, *sep),
            None => last_index_of(w@, *sep) == -1,
        },
{
    let mut i: usize = w.len();
    assert(w@.take(i as int) =~= w@);
    while i > 0
        invariant
            i <= w.len(),
            eq_is_identity::<T>(),
            last_index_of(w@, *sep) == last_index_of(w@.take(i as int), *sep),
        decreases i,
    {
        i = i - 1;
        assert(w@.take(i + 1).last() == w@[i as int]);
        assert(w@.take(i + 1).drop_last() =~= w@.take(i as int));
        if w[i] == *sep {
            return Some(i);
        }
    }
    assert(w@.take(0).len() == 0);
    None
}

/// Buffers that can be cut into chunks.
pub trait ChunkedSplitTrait<T> {
    /// The buffer's elements.
    spec fn elements(&self) -> Seq<T>;

    /// A cutter over the whole buffer.
    fn chucked_split(&self, sep: T, chunk_size: usize) -> (r: ChunkedSplit<'_, T>)
        requires
            chunk_size != 0,
        ensures
            r.wf(),
            r.remaining() == self.elements(),
            r.separator() == sep,
            r.chunk_size() == chunk_size,
    ;
}

impl<T> ChunkedSplitTrait<T> for Vec<T> {
    open spec fn elements(&self) -> Seq<T> {
        self@
    }

    fn chucked_split(&self, sep: T, chunk_size: usize) -> (r: ChunkedSplit<'_, T>) {
        ChunkedSplit { v: self.as_slice(), sep, chunk_size }
    }
}

} // verus!
