//! Buffers that samples run through: rings that remember the last samples, and
//! frames that fill up.

use vstd::prelude::*;

verus! {

// ─── Rings ───────────────────────────────────────────────────────────────────

/// A ring of the last samples. It is the delay line of a crossfeed, and what a
/// scope draws from.
pub struct Ring<T> {
    buf: Vec<T>,
    pos: usize,
}

/// Position `i` counted on from `pos` in a ring of `n`.
pub open spec fn ring_index(pos: int, i: int, n: int) -> int {
    if pos + i < n {
        pos + i
    } else {
        pos + i - n
    }
}

impl<T: Copy> Ring<T> {
    /// A ring holds at least one sample, and its write position is inside it.
    pub closed spec fn wf(&self) -> bool {
        self.buf.len() > 0 && self.pos < self.buf.len()
    }

    /// The samples that the ring remembers, oldest first.
    pub closed spec fn history(&self) -> Seq<T> {
        Seq::new(
            self.buf@.len(),
            |i: int| self.buf@[ring_index(self.pos as int, i, self.buf@.len() as int)],
        )
    }

    /// A ring of `len` samples, all of them `fill`.
    pub fn new(len: usize, fill: T) -> (r: Ring<T>)
        requires
            len > 0,
        ensures
            r.wf(),
            r.history() == Seq::new(len as nat, |i: int| fill),
    {
        let mut buf: Vec<T> = Vec::new();
        let mut i: usize = 0;
        while i < len
            invariant
                i <= len,
                buf.len() == i,
                forall|k: int| 0 <= k < i ==> #[trigger] buf@[k] == fill,
            decreases len - i,
        {
            buf.push(fill);
            i += 1;
        }
        let r = Ring { buf, pos: 0 };
        assert(r.history() == Seq::new(len as nat, |i: int| fill));
        r
    }

    /// How many samples the ring remembers.
    pub fn len(&self) -> (r: usize)
        requires
            self.wf(),
        ensures
            r == self.history().len(),
            r > 0,
    {
        self.buf.len()
    }

    /// Replaces every sample by `fill`.
    pub fn clear(&mut self, fill: T)
        requires
            old(self).wf(),
        ensures
            final(self).wf(),
            final(self).history() == Seq::new(old(self).history().len(), |i: int| fill),
    {
        let n: usize = self.buf.len();
        let r = Ring::new(n, fill);
        self.buf = r.buf;
        self.pos = r.pos;
    }

    /// Takes one more sample; the oldest is forgotten.
    pub fn push(&mut self, x: T)
        requires
            old(self).wf(),
        ensures
            final(self).wf(),
            final(self).history() == old(self).history().drop_first().push(x),
    {
        let n: usize = self.buf.len();
        self.buf.set(self.pos, x);
        self.pos = if self.pos + 1 == n {
            0
        } else {
            self.pos + 1
        };
        assert(self.history() == old(self).history().drop_first().push(x));
    }

    /// The sample that was taken `age` steps before the last one.
    pub fn recent(&self, age: usize) -> (r: T)
        requires
            self.wf(),
            age < self.history().len(),
        ensures
            r == self.history()[self.history().len() - 1 - age],
    {
        let n: usize = self.buf.len();
        let back: usize = age + 1;
        let i: usize = if self.pos >= back {
            self.pos - back
        } else {
            n - (back - self.pos)
        };
        self.buf[i]
    }

    /// Takes one more sample and gives the one that was taken `delay` steps
    /// before it. A delay past the end of the ring is the longest that it has.
    pub fn delay(&mut self, x: T, delay: usize) -> (r: T)
        requires
            old(self).wf(),
        ensures
            final(self).wf(),
            final(self).history() == old(self).history().drop_first().push(x),
            ({
                let n = old(self).history().len();
                let d = if delay < n {
                    delay as int
                } else {
                    n - 1
                };
                r == if d == 0 {
                    x
                } else {
                    old(self).history()[n - d]
                }
            }),
    {
        self.push(x);
        let n: usize = self.buf.len();
        let d: usize = if delay < n {
            delay
        } else {
            n - 1
        };
        self.recent(d)
    }

    /// Takes the samples of a block in order.
    pub fn push_block(&mut self, block: &Vec<T>)
        requires
            old(self).wf(),
        ensures
            final(self).wf(),
            final(self).history().len() == old(self).history().len(),
            final(self).history() == pushed(old(self).history(), block@, block.len() as int),
    {
        let mut i: usize = 0;
        while i < block.len()
            invariant
                i <= block.len(),
                self.wf(),
                self.history().len() == old(self).history().len(),
                self.history() == pushed(old(self).history(), block@, i as int),
            decreases block.len() - i,
        {
            self.push(block[i]);
            i += 1;
        }
    }

    /// The last `count` samples, oldest first.
    pub fn latest(&self, count: usize) -> (r: Vec<T>)
        requires
            self.wf(),
            count <= self.history().len(),
        ensures
            r@ == self.history().skip(self.history().len() - count),
    {
        let mut r: Vec<T> = Vec::new();
        let mut i: usize = 0;
        let ghost h = self.history();
        while i < count
            invariant
                i <= count,
                self.wf(),
                h == self.history(),
                count <= h.len(),
                r@ == h.subrange(h.len() - count, h.len() - count + i),
            decreases count - i,
        {
            r.push(self.recent(count - 1 - i));
            i += 1;
            assert(h.subrange(h.len() - count, h.len() - count + i) == h.subrange(
                h.len() - count,
                h.len() - count + i - 1,
            ).push(h[h.len() - count + i - 1]));
        }
        assert(r@ == h.skip(h.len() - count));
        r
    }
}

/// What a ring remembers after the first `n` samples of a block.
pub open spec fn pushed<T>(history: Seq<T>, block: Seq<T>, n: int) -> Seq<T>
    decreases n,
{
    if n <= 0 {
        history
    } else {
        pushed(history, block, n - 1).drop_first().push(block[n - 1])
    }
}

/// After a block a ring remembers the end of what it remembered, followed by
/// the block.
pub proof fn law_ring_remembers_the_last<T>(history: Seq<T>, block: Seq<T>, n: int)
    requires
        0 <= n <= block.len(),
        history.len() > 0,
    ensures
        pushed(history, block, n) == (history + block.take(n)).skip(n),
    decreases n,
{
    if n > 0 {
        law_ring_remembers_the_last(history, block, n - 1);
        let all = history + block.take(n - 1);
        assert(block.take(n) == block.take(n - 1).push(block[n - 1]));
        assert(history + block.take(n) == all.push(block[n - 1]));
        assert(all.skip(n - 1).drop_first().push(block[n - 1]) == all.push(block[n - 1]).skip(n));
    } else {
        assert(block.take(0) == Seq::<T>::empty());
        assert((history + block.take(0)).skip(0) == history);
    }
}

// ─── Frames ──────────────────────────────────────────────────────────────────

/// Samples that are collected into frames of a fixed length.
pub struct FrameBuffer<T> {
    buf: Vec<T>,
    pos: usize,
}

impl<T: Copy> FrameBuffer<T> {
    /// A frame has at least one sample, and is never left full.
    pub closed spec fn wf(&self) -> bool {
        self.pos < self.buf.len()
    }

    /// The samples of the frame; those from the write position on are old.
    pub closed spec fn samples(&self) -> Seq<T> {
        self.buf@
    }

    /// Where the next sample goes.
    pub closed spec fn position(&self) -> int {
        self.pos as int
    }

    /// An empty frame.
    pub fn new(len: usize, fill: T) -> (r: FrameBuffer<T>)
        requires
            len > 0,
        ensures
            r.wf(),
            r.position() == 0,
            r.samples() == Seq::new(len as nat, |i: int| fill),
    {
        let mut buf: Vec<T> = Vec::new();
        let mut i: usize = 0;
        while i < len
            invariant
                i <= len,
                buf.len() == i,
                forall|k: int| 0 <= k < i ==> #[trigger] buf@[k] == fill,
            decreases len - i,
        {
            buf.push(fill);
            i += 1;
        }
        assert(buf@ == Seq::new(len as nat, |i: int| fill));
        FrameBuffer { buf, pos: 0 }
    }

    /// Forgets the samples.
    pub fn clear(&mut self, fill: T)
        requires
            old(self).wf(),
        ensures
            final(self).wf(),
            final(self).position() == 0,
            final(self).samples() == Seq::new(old(self).samples().len(), |i: int| fill),
    {
        let n: usize = self.buf.len();
        let r = FrameBuffer::new(n, fill);
        self.buf = r.buf;
        self.pos = 0;
    }

    /// Overwrites the samples, and leaves the write position where it is.
    pub fn fill(&mut self, x: T)
        requires
            old(self).wf(),
        ensures
            final(self).wf(),
            final(self).position() == old(self).position(),
            final(self).samples() == Seq::new(old(self).samples().len(), |i: int| x),
    {
        let n: usize = self.buf.len();
        let r = FrameBuffer::new(n, x);
        self.buf = r.buf;
    }

    /// Takes one more sample, and says whether it filled the frame. The next
    /// frame then starts anew.
    pub fn push(&mut self, x: T) -> (full: bool)
        requires
            old(self).wf(),
        ensures
            final(self).wf(),
            final(self).samples() == old(self).samples().update(old(self).position(), x),
            full == (old(self).position() + 1 == old(self).samples().len()),
            final(self).position() == if full {
                0
            } else {
                old(self).position() + 1
            },
    {
        self.buf.set(self.pos, x);
        self.pos = self.pos + 1;
        if self.pos >= self.buf.len() {
            self.pos = 0;
            true
        } else {
            false
        }
    }

    /// Takes one more sample, and says whether it filled the frame. The second
    /// half of a full frame is then copied to its first half, and the next
    /// samples go to its second half, so that frames overlap by half.
    pub fn push_overlapping(&mut self, x: T) -> (full: bool)
        requires
            old(self).wf(),
            old(self).samples().len() >= 2,
        ensures
            final(self).wf(),
            full == (old(self).position() + 1 == old(self).samples().len()),
            ({
                let filled = old(self).samples().update(old(self).position(), x);
                let half = old(self).samples().len() as int / 2;
                &&& final(self).samples() == if full {
                    filled.subrange(half, 2 * half) + filled.skip(half)
                } else {
                    filled
                }
                &&& final(self).position() == if full {
                    half
                } else {
                    old(self).position() + 1
                }
            }),
    {
        self.buf.set(self.pos, x);
        self.pos = self.pos + 1;
        if self.pos < self.buf.len() {
            return false;
        }
        let n: usize = self.buf.len();
        let half: usize = n / 2;
        let ghost filled = self.buf@;
        let mut j: usize = 0;
        while j < half
            invariant
                j <= half,
                half == n / 2,
                self.buf.len() == n,
                filled.len() == n,
                forall|k: int| 0 <= k < j ==> #[trigger] self.buf@[k] == filled[k + half],
                forall|k: int| j <= k < n ==> #[trigger] self.buf@[k] == filled[k],
            decreases half - j,
        {
            let x = self.buf[j + half];
            self.buf.set(j, x);
            j += 1;
        }
        self.pos = half;
        assert(self.buf@ == filled.subrange(half as int, 2 * half) + filled.skip(half as int));
        true
    }

    /// The samples of the frame.
    pub fn frame(&self) -> (r: &Vec<T>)
        ensures
            r@ == self.samples(),
    {
        &self.buf
    }
}

/// The samples of a frame and its write position after `n` samples of a block.
pub open spec fn framed<T>(samples: Seq<T>, pos: int, block: Seq<T>, n: int) -> (Seq<T>, int)
    decreases n,
{
    if n <= 0 {
        (samples, pos)
    } else {
        let (s, p) = framed(samples, pos, block, n - 1);
        (
            s.update(p, block[n - 1]),
            if p + 1 == s.len() {
                0
            } else {
                p + 1
            },
        )
    }
}

/// A frame that starts empty is full exactly when as many samples as it has
/// have been taken, and then it holds them in order.
pub proof fn law_full_frame_holds_the_block<T>(samples: Seq<T>, block: Seq<T>, n: int)
    requires
        0 <= n <= block.len(),
        block.len() == samples.len(),
        samples.len() > 0,
    ensures
        framed(samples, 0, block, n).0.len() == samples.len(),
        framed(samples, 0, block, n).0 == block.take(n) + samples.skip(n),
        framed(samples, 0, block, n).1 == if n == samples.len() {
            0
        } else {
            n
        },
    decreases n,
{
    if n > 0 {
        law_full_frame_holds_the_block(samples, block, n - 1);
        let (s, p) = framed(samples, 0, block, n - 1);
        assert(s.update(n - 1, block[n - 1]) == block.take(n) + samples.skip(n));
    } else {
        assert(block.take(0) + samples.skip(0) == samples);
    }
}

// ─── Windows ─────────────────────────────────────────────────────────────────

/// Appends a value to a history and forgets the oldest one past `cap`.
pub fn push_history<T: Copy>(history: &mut Vec<T>, cap: usize, x: T)
    ensures
        final(history)@ == if old(history).len() + 1 > cap {
            old(history)@.push(x).drop_first()
        } else {
            old(history)@.push(x)
        },
{
    history.push(x);
    if history.len() > cap {
        history.remove(0);
        assert(history@ == old(history)@.push(x).drop_first());
    }
}

} // verus!
