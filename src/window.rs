//! A fixed-capacity circular buffer holding the last `N` samples.
use vstd::prelude::*;

verus! {

/// The last `N` samples of a stream, oldest first in its view.
#[derive(Clone, Debug)]
pub struct Window<T> {
    buf: Vec<T>,
    index: usize,
}

impl<T: Copy> View for Window<T> {
    type V = Seq<T>;

    /// Samples from the oldest to the newest.
    closed spec fn view(&self) -> Seq<T> {
        self.buf@.subrange(self.index as int, self.buf@.len() as int) + self.buf@.subrange(
            0,
            self.index as int,
        )
    }
}

impl<T: Copy> Window<T> {
    /// At least one slot, and the cursor on one of them.
    pub closed spec fn wf(&self) -> bool {
        &&& self.buf@.len() > 0
        &&& self.index < self.buf@.len()
    }

    /// The fixed capacity.
    pub closed spec fn capacity(&self) -> nat {
        self.buf@.len()
    }

    /// The view holds one sample per slot.
    pub proof fn lemma_view_len(&self)
        requires
            self.wf(),
        ensures
            self@.len() == self.capacity(),
    {
    }

    /// A window of `size` slots, each holding `value`.
    pub fn new(size: usize, value: T) -> (r: Self)
        requires
            size > 0,
        ensures
            r.wf(),
            r.capacity() == size,
            r@ == Seq::new(size as nat, |i: int| value),
    {
        let mut buf: Vec<T> = Vec::new();
        let mut i: usize = 0;
        while i < size
            invariant
                i <= size,
                buf@ == Seq::new(i as nat, |j: int| value),
            decreases size - i,
        {
            buf.push(value);
            i += 1;
            assert(buf@ =~= Seq::new(i as nat, |j: int| value));
        }
        let r = Window { buf, index: 0 };
        assert(r@ =~= Seq::new(size as nat, |i: int| value));
        r
    }

    /// The fixed capacity.
    pub fn len(&self) -> (r: usize)
        requires
            self.wf(),
        ensures
            r == self.capacity(),
            r == self@.len(),
    {
        self.buf.len()
    }

    /// Replaces the oldest sample with `value` and returns the one that left.
    pub fn push(&mut self, value: T) -> (r: T)
        requires
            old(self).wf(),
        ensures
            final(self).wf(),
            final(self).capacity() == old(self).capacity(),
            r == old(self)@[0],
            final(self)@ == old(self)@.drop_first().push(value),
    {
        let ghost v0 = self@;
        let n = self.buf.len();
        let i = self.index;
        let past = self.buf[i];
        self.buf.set(i, value);
        let next = i + 1;
        if next == n {
            self.index = 0;
        } else {
            self.index = next;
        }
        assert(self@ =~= v0.drop_first().push(value));
        past
    }
}

} // verus!
