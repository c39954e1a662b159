//! The lifecycle that every tracker shares: build it from a window length
//! and a first sample, then feed it one sample at a time.
use vstd::prelude::*;
use crate::value::{Error, Ratio};

verus! {

pub trait Method: Sized {
    /// The tracker's internal invariant.
    spec fn inv(&self) -> bool;

    /// The samples in the window, oldest first.
    spec fn window_samples(&self) -> Seq<i64>;

    /// The smallest window length the method accepts.
    spec fn min_length() -> nat;

    /// `r` is the method's statistic of the current window.
    spec fn statistic(&self, r: Ratio) -> bool;

    /// A tracker whose window holds `length` copies of `value`.
    fn create(length: u16, value: i64) -> (r: Result<Self, Error>)
        ensures
            length >= Self::min_length() <==> r is Ok,
            r matches Ok(m) ==> {
                &&& m.inv()
                &&& m.window_samples() == Seq::new(length as nat, |i: int| value)
            },
            r matches Err(e) ==> e == Error::InvalidParameters,
    ;

    /// Takes the next sample and returns the tracker's current statistic.
    fn consume(&mut self, value: i64) -> (r: Ratio)
        requires
            old(self).inv(),
        ensures
            final(self).inv(),
            final(self).window_samples() == old(self).window_samples().drop_first().push(value),
            final(self).statistic(r),
    ;
}

} // verus!
