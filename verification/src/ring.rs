use vstd::prelude::*;

verus! {

/// The last `n` elements of `s`.
pub open spec fn last_n<T>(s: Seq<T>, n: nat) -> Seq<T>
    recommends
        n <= s.len(),
{
    s.subrange(s.len() - n, s.len() as int)
}

/// A simple ring buffer implementation, specifically meant for batch mutations with a fixed size.
///
/// Its view is the logical window of `N` slots, oldest first: the last `N` values of the
/// initial value repeated `N` times followed by everything pushed since.
pub struct Ring<T, const N: usize> {
    buf: [T; N],
    head: usize,
    size: usize,
}

impl<T, const N: usize> Ring<T, N> {
    #[verifier::type_invariant]
    spec fn inv(self) -> bool {
        &&& self.size <= N
        &&& (N == 0 ==> self.head == 0)
        &&& (N > 0 ==> self.head < N)
    }

    /// Physical slot of logical position `i`, for `0 <= i < N`.
    spec fn slot(self, i: int) -> int {
        if self.head + i < N {
            self.head + i
        } else {
            self.head + i - N
        }
    }

    /// Physical slot in which the oldest element of the window lives.
    pub closed spec fn start(self) -> nat {
        self.head as nat
    }

    /// Number of values pushed so far, capped at `N`.
    pub closed spec fn filled(self) -> nat {
        self.size as nat
    }

    /// The `N` slots in logical order, oldest first.
    pub closed spec fn window(self) -> Seq<T> {
        Seq::new(N as nat, |i: int| self.buf@[self.slot(i)])
    }

    /// How far slot `p` lies after slot `start`, going round the ring.
    spec fn offset_of(start: int, p: int) -> int {
        if p >= start {
            p - start
        } else {
            p + N - start
        }
    }
}

impl<T, const N: usize> View for Ring<T, N> {
    type V = Seq<T>;

    closed spec fn view(&self) -> Seq<T> {
        self.window()
    }
}

impl<T: Copy, const N: usize> Ring<T, N> {
    pub fn new(initial_value: T) -> (r: Self)
        ensures
            r@ == Seq::new(N as nat, |i: int| initial_value),
            r@.len() == N,
            r.filled() == 0,
            r.start() == 0,
    {
        let r = Ring { buf: [initial_value;N], head: 0, size: 0 };
        assert(r.window() =~= Seq::new(N as nat, |i: int| initial_value));
        r
    }

    /// Push a slice of samples efficiently. Pushing nothing leaves the ring as it is.
    pub fn extend_from_slice(&mut self, data: &[T])
        ensures
            final(self)@ == last_n(old(self)@ + data@, N as nat),
            final(self)@.len() == N,
            final(self).filled() <= N,
            N > 0 ==> final(self).start() < N,
            data@.len() == 0 ==> final(self)@ == old(self)@ && final(self).filled() == old(
                self,
            ).filled() && final(self).start() == old(self).start(),
            final(self).filled() == filled_after(old(self).filled(), data@.len(), N as nat),
            final(self).start() == if data@.len() >= N {
                0
            } else if old(self).start() + data@.len() < N {
                old(self).start() + data@.len()
            } else {
                (old(self).start() + data@.len() - N) as nat
            },
    {
        proof {
            use_type_invariant(&*self);
        }
        let len = data.len();
        let ghost old_buf = self.buf@;
        let ghost old_w = old(self)@;

        if len == 0 {
            assert(last_n(old_w + data@, N as nat) =~= old_w);
            return ;
        }
        if len >= N {
            let off = len - N;
            let mut k: usize = 0;
            while k < N
                invariant
                    off + N == len,
                    len == data@.len(),
                    k <= N,
                    self.head == old(self).head,
                    self.size == old(self).size,
                    self.size <= N,
                    N == 0 ==> self.head == 0,
                    N > 0 ==> self.head < N,
                    forall|p: int| 0 <= p < k ==> self.buf@[p] == data@[off + p],
                decreases N - k,
            {
                self.buf[k] = data[off + k];
                k = k + 1;
            }
            self.head = 0;
            self.size = N;
            assert(self.window() =~= last_n(old_w + data@, N as nat));
            return ;
        }
        let start = self.head;
        let end = if len < N - start {
            start + len
        } else {
            len - (N - start)
        };
        let mut j: usize = 0;
        while j < len
            invariant
                len == data@.len(),
                len < N,
                start < N,
                start == self.head,
                self.size == old(self).size,
                self.size <= N,
                j <= len,
                self.buf@.len() == N,
                old_buf.len() == N,
                forall|p: int|
                    #![trigger self.buf@[p]]
                    0 <= p < N ==> {
                        let q = Self::offset_of(start as int, p);
                        if q < j {
                            self.buf@[p] == data@[q]
                        } else {
                            self.buf@[p] == old_buf[p]
                        }
                    },
            decreases len - j,
        {
            let pos = if j < N - start {
                start + j
            } else {
                j - (N - start)
            };
            self.buf[pos] = data[j];
            j = j + 1;
        }
        self.head = end;
        self.size = if len >= N - self.size {
            N
        } else {
            self.size + len
        };
        proof {
            let s = old_w + data@;
            let w = last_n(s, N as nat);
            assert forall|i: int| 0 <= i < N implies self.window()[i] == w[i] by {
                let p = self.slot(i);
                let q = Self::offset_of(start as int, p);
                if len + i < N {
                    assert(q == len + i);
                    assert(old_w[len + i] == old_buf[p]);
                } else {
                    assert(q == len + i - N);
                }
            }
            assert(self.window() =~= w);
        }
    }

    /// Returns the full logical window as two contiguous slices.
    pub fn as_slices(&self) -> (r: (&[T], &[T]))
        ensures
            r.0@ + r.1@ == self@,
            r.0@.len() + r.1@.len() == N,
            r.0@.len() == N - self.start(),
            self.filled() <= N,
            N > 0 ==> self.start() < N,
    {
        proof {
            use_type_invariant(self);
        }
        let (a, b) = self.buf.as_slice().split_at(self.head);
        assert(b@ + a@ =~= self@);
        (b, a)
    }

    /// Checks if the buffer is full.
    pub fn is_full(&self) -> (b: bool)
        ensures
            b == (self.filled() == N),
            self.filled() <= N,
    {
        proof {
            use_type_invariant(self);
        }
        self.size == N
    }
}

impl<T, const N: usize> Ring<T, N> {
    /// The element at logical position `index`, oldest first.
    pub fn index(&self, index: usize) -> (r: &T)
        requires
            index < N,
        ensures
            *r == self@[index as int],
    {
        proof {
            use_type_invariant(self);
        }
        let idx = if index < N - self.head {
            self.head + index
        } else {
            index - (N - self.head)
        };
        &self.buf[idx]
    }
}


/// How many values a ring of `n` slots counts as filled after `pushed` more values.
pub open spec fn filled_after(filled: nat, pushed: nat, n: nat) -> nat {
    if filled + pushed < n {
        filled + pushed
    } else {
        n
    }
}

/// A full ring stays full whatever is pushed.
pub proof fn lemma_full_stays_full(pushed: nat, n: nat)
    ensures
        filled_after(n, pushed, n) == n,
{
}

/// The window of a ring always has `N` slots.
pub proof fn lemma_window_len<T, const N: usize>(r: Ring<T, N>)
    ensures
        r@.len() == N,
{
}

/// All the values of the pushes `ds`, in order.
pub open spec fn concat_all<T>(ds: Seq<Seq<T>>) -> Seq<T>
    decreases ds.len(),
{
    if ds.len() == 0 {
        Seq::empty()
    } else {
        concat_all(ds.drop_last()) + ds.last()
    }
}

/// The window left by pushing each of `ds` in turn onto the window `w` of `n` slots.
pub open spec fn window_after_pushes<T>(w: Seq<T>, ds: Seq<Seq<T>>, n: nat) -> Seq<T>
    decreases ds.len(),
{
    if ds.len() == 0 {
        w
    } else {
        last_n(window_after_pushes(w, ds.drop_last(), n) + ds.last(), n)
    }
}

/// The fill count left by pushing each of `ds` in turn onto a ring filled `f` of `n` slots.
pub open spec fn filled_after_pushes<T>(f: nat, ds: Seq<Seq<T>>, n: nat) -> nat
    decreases ds.len(),
{
    if ds.len() == 0 {
        f
    } else {
        filled_after(filled_after_pushes(f, ds.drop_last(), n), ds.last().len(), n)
    }
}

/// Any number of pushes leave the last `n` values of the window followed by everything
/// pushed, and fill the ring by the total pushed, up to `n`: pushes in batches act as one push
/// of everything at once.
pub proof fn lemma_pushes<T>(w: Seq<T>, ds: Seq<Seq<T>>, n: nat, f: nat)
    requires
        w.len() == n,
        f <= n,
    ensures
        window_after_pushes(w, ds, n) == last_n(w + concat_all(ds), n),
        filled_after_pushes(f, ds, n) == filled_after(f, concat_all(ds).len(), n),
        (filled_after_pushes(0, ds, n) == n) == (concat_all(ds).len() >= n),
    decreases ds.len(),
{
    if ds.len() == 0 {
        assert(w + concat_all(ds) =~= w);
    } else {
        let front = ds.drop_last();
        lemma_pushes(w, front, n, f);
        lemma_pushes(w, front, n, 0);
        lemma_extend_twice(w, concat_all(front), ds.last(), n);
        assert(filled_after(filled_after(f, concat_all(front).len(), n), ds.last().len(), n)
            == filled_after(f, concat_all(front).len() + ds.last().len(), n));
    }
}

/// Pushing `a` and then `b` leaves the same window as pushing `a` followed by `b` at once.
pub proof fn lemma_extend_twice<T>(w: Seq<T>, a: Seq<T>, b: Seq<T>, n: nat)
    requires
        w.len() == n,
    ensures
        last_n(last_n(w + a, n) + b, n) == last_n(w + (a + b), n),
        forall|f: nat|
            f <= n ==> filled_after(filled_after(f, a.len(), n), b.len(), n) == filled_after(
                f,
                a.len() + b.len(),
                n,
            ),
{
    let lhs = last_n(last_n(w + a, n) + b, n);
    let rhs = last_n(w + (a + b), n);
    assert forall|i: int| 0 <= i < n implies lhs[i] == rhs[i] by {
        if i + b.len() < n {
            assert(lhs[i] == (w + a)[a.len() + b.len() + i]);
        }
    }
    assert(lhs =~= rhs);
}

} // verus!
