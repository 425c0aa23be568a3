//! Fixed-capacity overwrite buffers for short-horizon telemetry history,
//! with their aggregate statistics.

use vstd::prelude::*;
use vstd::arithmetic::div_mod::{lemma_div_is_ordered, lemma_div_multiples_vanish};

verus! {

/// The largest element of a byte sequence (0 when empty).
pub open spec fn seq_max(s: Seq<u8>) -> int
    decreases s.len(),
{
    if s.len() == 0 {
        0
    } else {
        let m = seq_max(s.drop_last());
        if s.last() as int > m {
            s.last() as int
        } else {
            m
        }
    }
}

/// The sum of a sequence of samples.
pub open spec fn seq_sum(s: Seq<u32>) -> int
    decreases s.len(),
{
    if s.len() == 0 {
        0
    } else {
        seq_sum(s.drop_last()) + s.last()
    }
}

/// `seq_max` is the sequence's largest element: an upper bound that is
/// attained.
pub proof fn lemma_seq_max_bounds(s: Seq<u8>)
    requires
        s.len() > 0,
    ensures
        forall|i: int| 0 <= i < s.len() ==> ((#[trigger] s[i]) as int) <= seq_max(s),
        exists|i: int| 0 <= i < s.len() && (s[i] as int) == seq_max(s),
    decreases s.len(),
{
    if s.len() == 1 {
        assert(s[0] as int == seq_max(s));
    } else {
        lemma_seq_max_bounds(s.drop_last());
        assert(forall|i: int| 0 <= i < s.len() - 1 ==> #[trigger] s.drop_last()[i] == s[i]);
        let m = seq_max(s.drop_last());
        assert forall|i: int| 0 <= i < s.len() implies ((#[trigger] s[i]) as int) <= seq_max(s) by {
            if i < s.len() - 1 {
                assert(s.drop_last()[i] == s[i]);
                assert((s[i] as int) <= m);
            }
        }
        if s.last() as int > m {
            assert(s[s.len() - 1] as int == seq_max(s));
        } else {
            let w = choose|i: int| 0 <= i < s.drop_last().len()
                && (s.drop_last()[i] as int) == m;
            assert(s[w] as int == seq_max(s));
        }
    }
}

/// A window of the last `len` samples, overwritten round-robin: a backing
/// store of fixed length and a write cursor.
pub struct CircleBuf<T> {
    n: usize,
    buf: Vec<T>,
}

impl<T> View for CircleBuf<T> {
    type V = Seq<T>;

    closed spec fn view(&self) -> Seq<T> {
        self.buf@
    }
}

impl<T> CircleBuf<T> {
    /// Where the next push lands, before reduction modulo the capacity.
    pub closed spec fn cursor(&self) -> int {
        self.n as int
    }

    /// Wraps a backing store; its length is the window's capacity, and its
    /// initial contents stand in for samples not yet taken.
    pub fn new(buf: Vec<T>) -> (r: CircleBuf<T>)
        ensures
            r@ == buf@,
            r.cursor() == 0,
    {
        CircleBuf { n: 0, buf }
    }

    /// The fixed capacity.
    pub fn len(&self) -> (r: usize)
        ensures
            r == self@.len(),
    {
        self.buf.len()
    }

    /// Overwrites the oldest slot with `e` and advances the cursor; the
    /// capacity never changes.
    pub fn push(&mut self, e: T)
        requires
            old(self)@.len() > 0,
        ensures
            final(self)@ == old(self)@.update(old(self).cursor() % (old(self)@.len() as int), e),
            final(self).cursor() == old(self).cursor() % (old(self)@.len() as int) + 1,
    {
        let len = self.buf.len();
        self.n = self.n % len;
        let i = self.n;
        self.buf.set(i, e);
        self.n = self.n + 1;
    }
}

impl CircleBuf<u8> {
    /// The largest sample in the window.
    pub fn max(&self) -> (r: u8)
        requires
            self@.len() > 0,
        ensures
            r as int == seq_max(self@),
    {
        let ghost s = self@;
        let n = self.buf.len();
        let mut m: u8 = 0;
        let mut i: usize = 0;
        while i < n
            invariant
                n == s.len(),
                0 <= i <= n,
                s == self@,
                m as int == seq_max(s.take(i as int)),
            decreases n - i,
        {
            let x = self.buf[i];
            proof {
                assert(s.take(i as int + 1).drop_last() =~= s.take(i as int));
                assert(s.take(i as int + 1).last() == s[i as int]);
            }
            if x > m {
                m = x;
            }
            i += 1;
        }
        proof {
            assert(s.take(n as int) =~= s);
        }
        m
    }
}

impl CircleBuf<u32> {
    /// The truncating arithmetic mean of the window, counting every slot.
    pub fn mean(&self) -> (r: u32)
        requires
            0 < self@.len() <= 0xFFFF_FFFF,
        ensures
            r as int == seq_sum(self@) / (self@.len() as int),
    {
        let ghost s = self@;
        let n = self.buf.len();
        let mut acc: u64 = 0;
        let mut i: usize = 0;
        while i < n
            invariant
                n == s.len(),
                0 < n <= 0xFFFF_FFFF,
                0 <= i <= n,
                s == self@,
                acc as int == seq_sum(s.take(i as int)),
                acc as int <= i * 0xFFFF_FFFFu64,
            decreases n - i,
        {
            let x = self.buf[i];
            proof {
                assert(s.take(i as int + 1).drop_last() =~= s.take(i as int));
                assert(s.take(i as int + 1).last() == s[i as int]);
            }
            acc = acc + (x as u64);
            i += 1;
        }
        proof {
            assert(s.take(n as int) =~= s);
            lemma_div_is_ordered(acc as int, n * 0xFFFF_FFFFu64, n as int);
            lemma_div_multiples_vanish(0xFFFF_FFFF, n as int);
        }
        let q: u64 = acc / (n as u64);
        q as u32
    }
}

/// A vector of `n` copies of `x`, the seed state of a window.
pub fn filled<T: Copy>(x: T, n: usize) -> (r: Vec<T>)
    ensures
        r@ == Seq::new(n as nat, |i: int| x),
{
    let mut v: Vec<T> = Vec::new();
    let mut i: usize = 0;
    while i < n
        invariant
            i == v@.len() <= n,
            forall|k: int| 0 <= k < i ==> v@[k] == x,
        decreases n - i,
    {
        v.push(x);
        i += 1;
    }
    proof {
        assert(v@ =~= Seq::new(n as nat, |i: int| x));
    }
    v
}

} // verus!
