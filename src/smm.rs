//! The running median: a sorted mirror of the window, updated in place.
use vstd::prelude::*;
use crate::value::{Error, Ratio};
use crate::window::Window;

verus! {

/// `s` is non-decreasing.
pub open spec fn sorted(s: Seq<i64>) -> bool {
    forall|i: int, j: int| 0 <= i <= j < s.len() ==> s[i] <= s[j]
}

/// The ordering that sorting uses.
pub open spec fn leq(a: i64, b: i64) -> bool {
    a <= b
}

/// `s` in non-decreasing order.
pub open spec fn sorted_copy(s: Seq<i64>) -> Seq<i64> {
    s.sort_by(|a: i64, b: i64| leq(a, b))
}

/// Twice the median of a non-empty `s`: the two middle values of its sorted
/// copy added (the same value twice when the length is odd).
pub open spec fn twice_median(s: Seq<i64>) -> int {
    let t = sorted_copy(s);
    t[s.len() as int / 2] + t[(s.len() as int - 1) / 2]
}

proof fn lemma_leq_total()
    ensures
        vstd::relations::total_ordering(|a: i64, b: i64| leq(a, b)),
{
}

/// A sorted sequence with the multiset of `s` is the sorted copy of `s`.
proof fn lemma_sorted_is_sorted_copy(t: Seq<i64>, s: Seq<i64>)
    requires
        sorted(t),
        t.to_multiset() == s.to_multiset(),
    ensures
        t == sorted_copy(s),
{
    let f = |a: i64, b: i64| leq(a, b);
    lemma_leq_total();
    s.lemma_sort_by_ensures(f);
    assert(vstd::relations::sorted_by(t, f));
    vstd::seq_lib::lemma_sorted_unique(t, sorted_copy(s), f);
}

/// The first sample of `w` is held by every `s` with the same contents.
proof fn lemma_first_is_held(w: Seq<i64>, s: Seq<i64>)
    requires
        w.len() > 0,
        s.to_multiset() == w.to_multiset(),
    ensures
        s.contains(w[0]),
{
    vstd::seq_lib::to_multiset_contains(w, w[0]);
    vstd::seq_lib::to_multiset_contains(s, w[0]);
    assert(w.contains(w[0]));
}

/// Where `k` splits the sorted `s` around `v`, the adjusted position splits
/// `s` with the slot `oi` removed around `v` in the same way.
proof fn lemma_insert_point_after_removal(s: Seq<i64>, oi: int, k: int, v: i64)
    requires
        0 <= oi < s.len(),
        0 <= k <= s.len(),
        forall|i: int| 0 <= i < k ==> s[i] <= v,
        forall|i: int| k <= i < s.len() ==> s[i] >= v,
    ensures
        ({
            let t = s.remove(oi);
            let j = if oi < k { k - 1 } else { k };
            &&& 0 <= j <= t.len()
            &&& forall|i: int| 0 <= i < j ==> t[i] <= v
            &&& forall|i: int| j <= i < t.len() ==> t[i] >= v
        }),
{
    let t = s.remove(oi);
    let j = if oi < k { k - 1 } else { k };
    assert forall|i: int| 0 <= i < j implies t[i] <= v by {
        if i >= oi {
            assert(t[i] == s[i + 1]);
        }
    }
    assert forall|i: int| j <= i < t.len() implies t[i] >= v by {
        if i >= oi {
            assert(t[i] == s[i + 1]);
        }
    }
}

/// Inserting `v` into the sorted `t` at a position between the values not
/// above it and those not below it keeps `t` sorted.
proof fn lemma_insert_keeps_order(t: Seq<i64>, k: int, v: i64)
    requires
        sorted(t),
        0 <= k <= t.len(),
        forall|i: int| 0 <= i < k ==> t[i] <= v,
        forall|i: int| k <= i < t.len() ==> t[i] >= v,
    ensures
        sorted(t.insert(k, v)),
{
    let u = t.insert(k, v);
    assert forall|i: int, j: int| 0 <= i <= j < u.len() implies u[i] <= u[j] by {
        if j < k {
            assert(u[i] == t[i] && u[j] == t[j]);
        } else if i > k {
            assert(u[i] == t[i - 1] && u[j] == t[j - 1]);
        } else if i < k {
            assert(u[i] == t[i]);
        }
    }
}

/// Removing the evicted sample from the mirror and inserting the new one
/// matches the window's own change.
proof fn lemma_move_keeps_contents(s0: Seq<i64>, w0: Seq<i64>, oi: int, k: int, v: i64)
    requires
        s0.to_multiset() == w0.to_multiset(),
        0 <= oi < s0.len(),
        w0.len() > 0,
        s0[oi] == w0[0],
        0 <= k < s0.len(),
    ensures
        s0.remove(oi).insert(k, v).to_multiset() == w0.drop_first().push(v).to_multiset(),
{
    let t = s0.remove(oi);
    vstd::seq_lib::to_multiset_remove(s0, oi);
    vstd::seq_lib::to_multiset_insert(t, k, v);
    assert(w0.drop_first() =~= w0.remove(0));
    vstd::seq_lib::to_multiset_remove(w0, 0);
    vstd::seq_lib::to_multiset_build(w0.drop_first(), v);
}

/// A window that holds one value `v` throughout keeps it when `v` comes in
/// again, and its median is `v`.
pub proof fn lemma_constant_median(n: nat, v: i64)
    requires
        n >= 1,
    ensures
        Seq::new(n, |i: int| v).drop_first().push(v) == Seq::new(n, |i: int| v),
        twice_median(Seq::new(n, |i: int| v)) == 2 * v,
{
    let s = Seq::new(n, |i: int| v);
    assert(s.drop_first().push(v) =~= s);
    lemma_sorted_is_sorted_copy(s, s);
}

/// The median of a window of one sample is that sample.
pub proof fn lemma_single_median(s: Seq<i64>)
    requires
        s.len() == 1,
    ensures
        twice_median(s) == 2 * s[0],
{
    lemma_sorted_is_sorted_copy(s, s);
}

/// The position of `value` in the sorted `slice`, by binary search.
pub fn find_index(value: i64, slice: &[i64], padding: usize) -> (r: usize)
    requires
        sorted(slice@),
        slice@.contains(value),
        padding + slice@.len() <= usize::MAX,
    ensures
        padding <= r < padding + slice@.len(),
        slice@[r - padding] == value,
{
    let mut lo: usize = 0;
    let mut len: usize = slice.len();
    loop
        invariant
            sorted(slice@),
            padding + slice@.len() <= usize::MAX,
            len >= 1,
            lo + len <= slice@.len(),
            exists|k: int| lo <= k < lo + len && slice@[k] == value,
        decreases len,
    {
        if len == 1 {
            let ghost k = choose|k: int| lo <= k < lo + len && slice@[k] == value;
            assert(k == lo);
            return padding + lo;
        }
        let half = len / 2;
        let mid = lo + half;
        if value == slice[mid] {
            return padding + mid;
        } else if value > slice[mid] {
            let ghost k = choose|k: int| lo <= k < lo + len && slice@[k] == value;
            assert(k > mid);
            lo = mid + 1;
            len = len - half - 1;
            assert(lo <= k < lo + len);
        } else {
            let ghost k = choose|k: int| lo <= k < lo + len && slice@[k] == value;
            assert(k < mid);
            len = half;
        }
    }
}

/// A position at which `value` can be inserted into the sorted `slice` with
/// the order kept, by binary search.
pub fn find_insert_index(value: i64, slice: &[i64], padding: usize) -> (r: usize)
    requires
        sorted(slice@),
        padding + slice@.len() <= usize::MAX,
    ensures
        padding <= r <= padding + slice@.len(),
        forall|i: int| 0 <= i < r - padding ==> slice@[i] <= value,
        forall|i: int| r - padding <= i < slice@.len() ==> slice@[i] >= value,
{
    let mut lo: usize = 0;
    let mut len: usize = slice.len();
    while len > 0
        invariant
            sorted(slice@),
            padding + slice@.len() <= usize::MAX,
            lo + len <= slice@.len(),
            forall|i: int| 0 <= i < lo ==> slice@[i] < value,
            forall|i: int| lo + len <= i < slice@.len() ==> slice@[i] > value,
        decreases len,
    {
        let half = len / 2;
        let mid = lo + half;
        if value == slice[mid] {
            return padding + mid;
        } else if value > slice[mid] {
            lo = mid + 1;
            len = len - half - 1;
        } else {
            len = half;
        }
    }
    padding + lo
}

/// Removes the element at `from` and inserts `value` at `to`, moving the
/// elements between the two positions by one slot.
fn replace_slot(v: &mut Vec<i64>, from: usize, to: usize, value: i64)
    requires
        from < old(v)@.len(),
        to < old(v)@.len(),
    ensures
        final(v)@ == old(v)@.remove(from as int).insert(to as int, value),
{
    let ghost s0 = v@;
    if to > from {
        let mut k: usize = from;
        while k < to
            invariant
                from <= k <= to,
                to < s0.len(),
                v@.len() == s0.len(),
                forall|i: int| 0 <= i < from ==> v@[i] == s0[i],
                forall|i: int| from <= i < k ==> v@[i] == s0[i + 1],
                forall|i: int| k <= i < s0.len() ==> v@[i] == s0[i],
            decreases to - k,
        {
            let x = v[k + 1];
            v.set(k, x);
            k += 1;
        }
    } else if to < from {
        let mut k: usize = from;
        while k > to
            invariant
                to <= k <= from,
                from < s0.len(),
                v@.len() == s0.len(),
                forall|i: int| 0 <= i <= k ==> v@[i] == s0[i],
                forall|i: int| k < i <= from ==> v@[i] == s0[i - 1],
                forall|i: int| from < i < s0.len() ==> v@[i] == s0[i],
            decreases k - to,
        {
            let x = v[k - 1];
            v.set(k, x);
            k -= 1;
        }
    }
    v.set(to, value);
    assert(v@ =~= s0.remove(from as int).insert(to as int, value));
}

/// Simple moving median over the last `length` samples.
#[derive(Clone, Debug)]
pub struct SMM {
    half: u16,
    half_m1: u16,
    window: Window<i64>,
    slice: Vec<i64>,
}

impl SMM {
    /// The samples in the window, oldest first.
    pub closed spec fn samples(&self) -> Seq<i64> {
        self.window@
    }

    /// The window's samples in non-decreasing order, as the tracker keeps them.
    pub closed spec fn sorted_samples(&self) -> Seq<i64> {
        self.slice@
    }

    /// The window length.
    pub closed spec fn length(&self) -> nat {
        self.window.capacity()
    }

    /// The mirror is sorted and holds the window's samples, and the middle
    /// positions are those of the window's length.
    pub closed spec fn wf(&self) -> bool {
        &&& self.window.wf()
        &&& self.window.capacity() <= u16::MAX
        &&& self.slice@.len() == self.window.capacity()
        &&& self.half == self.window.capacity() / 2
        &&& self.half_m1 == (self.window.capacity() - 1) / 2
        &&& sorted(self.slice@)
        &&& self.slice@.to_multiset() == self.window@.to_multiset()
    }

    /// The tracker's invariant as its users see it: the window has `length`
    /// samples and the sorted mirror is a non-decreasing rearrangement of them.
    pub proof fn lemma_sorted_mirror(&self)
        requires
            self.wf(),
        ensures
            self.samples().len() == self.length(),
            1 <= self.length() <= u16::MAX,
            sorted(self.sorted_samples()),
            self.sorted_samples().to_multiset() == self.samples().to_multiset(),
            self.sorted_samples() == sorted_copy(self.samples()),
    {
        self.window.lemma_view_len();
        lemma_sorted_is_sorted_copy(self.slice@, self.window@);
    }

    /// A tracker whose window holds `length` copies of `value`; fails when
    /// `length` is 0.
    pub fn new(length: u16, value: i64) -> (r: Result<SMM, Error>)
        ensures
            length == 0 ==> r == Err::<SMM, Error>(Error::InvalidParameters),
            length > 0 ==> (r matches Ok(m) && {
                &&& m.wf()
                &&& m.length() == length
                &&& m.samples() == Seq::new(length as nat, |i: int| value)
            }),
    {
        if length == 0 {
            return Err(Error::InvalidParameters);
        }
        let half = length / 2;
        let half_m1: u16 = if length % 2 == 0 { half - 1 } else { half };
        let window = Window::new(length as usize, value);
        let mut slice: Vec<i64> = Vec::new();
        let mut i: usize = 0;
        while i < length as usize
            invariant
                i <= length,
                slice@ == Seq::new(i as nat, |j: int| value),
            decreases length - i,
        {
            slice.push(value);
            i += 1;
            assert(slice@ =~= Seq::new(i as nat, |j: int| value));
        }
        Ok(SMM { half, half_m1, window, slice })
    }

    /// Takes the next sample and returns the median of the window after it.
    pub fn next(&mut self, value: i64) -> (r: Ratio)
        requires
            old(self).wf(),
        ensures
            final(self).wf(),
            final(self).length() == old(self).length(),
            final(self).samples() == old(self).samples().drop_first().push(value),
            r.den == 2,
            r.num == twice_median(final(self).samples()),
    {
        let ghost s0 = self.slice@;
        let ghost w0 = self.window@;
        proof {
            self.window.lemma_view_len();
        }
        let old_value = self.window.push(value);
        proof {
            lemma_first_is_held(w0, s0);
        }
        let old_index = find_index(old_value, self.slice.as_slice(), 0);
        let raw_index = find_insert_index(value, self.slice.as_slice(), 0);
        let index = if old_index < raw_index { raw_index - 1 } else { raw_index };
        let ghost t = s0.remove(old_index as int);
        proof {
            lemma_insert_point_after_removal(s0, old_index as int, raw_index as int, value);
        }
        replace_slot(&mut self.slice, old_index, index, value);
        proof {
            lemma_insert_keeps_order(t, index as int, value);
            lemma_move_keeps_contents(s0, w0, old_index as int, index as int, value);
            lemma_sorted_is_sorted_copy(self.slice@, self.window@);
        }
        let a = self.slice[self.half as usize];
        let b = self.slice[self.half_m1 as usize];
        Ratio { num: a as i128 + b as i128, den: 2 }
    }
}

} // verus!

verus! {

impl crate::method::Method for SMM {
    open spec fn inv(&self) -> bool {
        self.wf()
    }

    open spec fn window_samples(&self) -> Seq<i64> {
        self.samples()
    }

    open spec fn min_length() -> nat {
        1
    }

    open spec fn statistic(&self, r: Ratio) -> bool {
        r.den == 2 && r.num == twice_median(self.samples())
    }

    fn create(length: u16, value: i64) -> (r: Result<SMM, Error>) {
        SMM::new(length, value)
    }

    fn consume(&mut self, value: i64) -> (r: Ratio) {
        self.next(value)
    }
}

} // verus!
