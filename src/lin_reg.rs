//! The running least-squares line over the window.
//!
//! Window positions are ranked by age: rank 0 is the newest sample and rank
//! `N - 1` the oldest.
use vstd::prelude::*;
use crate::value::{Error, Ratio};
use crate::window::Window;

verus! {

/// The largest magnitude of an `i64`.
pub open spec fn sample_bound() -> int {
    0x8000_0000_0000_0000
}

/// The sum of the samples in `s`.
pub open spec fn sum_y(s: Seq<i64>) -> int
    decreases s.len(),
{
    if s.len() == 0 {
        0
    } else {
        s[0] + sum_y(s.drop_first())
    }
}

/// The sum of each sample of `s` times its rank; the first (oldest) sample
/// has rank `s.len() - 1`.
pub open spec fn sum_xy(s: Seq<i64>) -> int
    decreases s.len(),
{
    if s.len() == 0 {
        0
    } else {
        (s.len() - 1) * s[0] + sum_xy(s.drop_first())
    }
}

/// The sum of the ranks `0 .. n`.
pub open spec fn sum_x(n: nat) -> int
    decreases n,
{
    if n == 0 {
        0
    } else {
        (n - 1) + sum_x((n - 1) as nat)
    }
}

/// The sum of the squared ranks `0 .. n`.
pub open spec fn sum_x2(n: nat) -> int
    decreases n,
{
    if n == 0 {
        0
    } else {
        (n - 1) * (n - 1) + sum_x2((n - 1) as nat)
    }
}

/// The determinant of the normal equations of a fit over `n` ranks.
pub open spec fn fit_divider(n: nat) -> int {
    n * sum_x2(n) - sum_x(n) * sum_x(n)
}

/// The least-squares intercept at rank 0 (the newest sample), times
/// `fit_divider`.
pub open spec fn intercept_num(s: Seq<i64>) -> int {
    sum_x2(s.len()) * sum_y(s) - sum_x(s.len()) * sum_xy(s)
}

/// The least-squares slope per step forward in time (towards the newest
/// sample), times `fit_divider`.
pub open spec fn slope_num(s: Seq<i64>) -> int {
    sum_x(s.len()) * sum_y(s) - s.len() * sum_xy(s)
}

proof fn lemma_closed_forms(n: nat)
    ensures
        2 * sum_x(n) == n * (n - 1),
        6 * sum_x2(n) == n * (n - 1) * (2 * n - 1),
    decreases n,
{
    if n > 0 {
        lemma_closed_forms((n - 1) as nat);
        let m = n - 1;
        assert(2 * sum_x(n) == n * (n - 1)) by (nonlinear_arith)
            requires
                2 * sum_x((n - 1) as nat) == m * (m - 1),
                sum_x(n) == m + sum_x((n - 1) as nat),
                m == n - 1,
        ;
        assert(6 * sum_x2(n) == n * (n - 1) * (2 * n - 1)) by (nonlinear_arith)
            requires
                6 * sum_x2((n - 1) as nat) == m * (m - 1) * (2 * m - 1),
                sum_x2(n) == m * m + sum_x2((n - 1) as nat),
                m == n - 1,
        ;
    } else {
        assert(n * (n - 1) == 0 && n * (n - 1) * (2 * n - 1) == 0) by (nonlinear_arith)
            requires
                n == 0,
        ;
    }
}

proof fn lemma_divider(n: nat)
    requires
        n >= 2,
    ensures
        12 * fit_divider(n) == n * n * (n - 1) * (n + 1),
        fit_divider(n) > 0,
{
    lemma_closed_forms(n);
    let sx = sum_x(n);
    let sx2 = sum_x2(n);
    assert(12 * (n * sx2 - sx * sx) == n * n * (n - 1) * (n + 1)) by (nonlinear_arith)
        requires
            2 * sx == n * (n - 1),
            6 * sx2 == n * (n - 1) * (2 * n - 1),
    ;
    assert(n * n * (n - 1) * (n + 1) > 0) by (nonlinear_arith)
        requires
            n >= 2,
    ;
}

proof fn lemma_sum_bounds(s: Seq<i64>)
    ensures
        -(s.len() * sample_bound()) <= sum_y(s) <= s.len() * sample_bound(),
        -(sum_x(s.len()) * sample_bound()) <= sum_xy(s) <= sum_x(s.len()) * sample_bound(),
    decreases s.len(),
{
    if s.len() > 0 {
        let t = s.drop_first();
        lemma_sum_bounds(t);
        let k = s.len() - 1;
        let y = s[0] as int;
        assert(-(k * sample_bound()) <= k * y <= k * sample_bound()) by (nonlinear_arith)
            requires
                k >= 0,
                -sample_bound() <= y <= sample_bound(),
        ;
        assert(s.len() * sample_bound() == k * sample_bound() + sample_bound()) by (
        nonlinear_arith)
            requires
                k == s.len() - 1,
        ;
        assert(sum_x(s.len()) * sample_bound() == k * sample_bound() + sum_x(t.len())
            * sample_bound()) by (nonlinear_arith)
            requires
                sum_x(s.len()) == k + sum_x(t.len()),
        ;
    }
}

proof fn lemma_push_sums(t: Seq<i64>, v: i64)
    ensures
        sum_y(t.push(v)) == sum_y(t) + v,
        sum_xy(t.push(v)) == sum_xy(t) + sum_y(t),
    decreases t.len(),
{
    let u = t.push(v);
    if t.len() == 0 {
        assert(u.drop_first() =~= t);
    } else {
        assert(u.drop_first() =~= t.drop_first().push(v));
        lemma_push_sums(t.drop_first(), v);
        let k = t.len() as int;
        let y = t[0] as int;
        assert(k * y == (k - 1) * y + y) by (nonlinear_arith);
    }
}

proof fn lemma_const_sums(n: nat, v: i64)
    ensures
        sum_y(Seq::new(n, |i: int| v)) == n * v,
        sum_xy(Seq::new(n, |i: int| v)) == v * sum_x(n),
    decreases n,
{
    if n > 0 {
        let s = Seq::new(n, |i: int| v);
        assert(s.drop_first() =~= Seq::new((n - 1) as nat, |i: int| v));
        lemma_const_sums((n - 1) as nat, v);
        let y = v as int;
        assert(n * y == (n - 1) * y + y) by (nonlinear_arith);
        assert(y * sum_x(n) == (n - 1) * y + y * sum_x((n - 1) as nat)) by (nonlinear_arith)
            requires
                sum_x(n) == (n - 1) + sum_x((n - 1) as nat),
        ;
    } else {
        assert(n * v == 0 && v * sum_x(n) == 0) by (nonlinear_arith)
            requires
                n == 0,
                sum_x(n) == 0,
        ;
    }
}

/// Both numerators and the terms they are made of fit in an `i128`.
proof fn lemma_results_fit(s: Seq<i64>)
    requires
        2 <= s.len() <= u16::MAX,
    ensures
        -0x8000_0000_0000_0000_0000_0000_0000_0000 < sum_x2(s.len()) * sum_y(s),
        sum_x2(s.len()) * sum_y(s) < 0x4000_0000_0000_0000_0000_0000_0000_0000,
        -0x4000_0000_0000_0000_0000_0000_0000_0000 < sum_x(s.len()) * sum_xy(s),
        sum_x(s.len()) * sum_xy(s) < 0x4000_0000_0000_0000_0000_0000_0000_0000,
        -0x8000_0000_0000_0000_0000_0000_0000_0000 < intercept_num(s),
        intercept_num(s) < 0x8000_0000_0000_0000_0000_0000_0000_0000,
        -0x8000_0000_0000_0000_0000_0000_0000 < sum_x(s.len()) * sum_y(s),
        sum_x(s.len()) * sum_y(s) < 0x8000_0000_0000_0000_0000_0000_0000,
        -0x8000_0000_0000_0000_0000_0000_0000 < s.len() * sum_xy(s),
        s.len() * sum_xy(s) < 0x8000_0000_0000_0000_0000_0000_0000,
        -0x1_0000_0000_0000_0000_0000_0000_0000 < sum_y(s) < 0x1_0000_0000_0000_0000_0000_0000_0000,
        -0x1_0000_0000_0000_0000_0000_0000_0000 < sum_xy(s) < 0x1_0000_0000_0000_0000_0000_0000_0000,
{
    let n = s.len() as int;
    lemma_closed_forms(s.len());
    lemma_sum_bounds(s);
    let sx = sum_x(s.len());
    let sx2 = sum_x2(s.len());
    let sy = sum_y(s);
    let sxy = sum_xy(s);
    let m = sample_bound();
    assert(0 <= 2 * sx <= n * n) by (nonlinear_arith)
        requires
            2 * sx == n * (n - 1),
            n >= 2,
    ;
    assert(0 <= 3 * sx2 <= n * n * n) by (nonlinear_arith)
        requires
            6 * sx2 == n * (n - 1) * (2 * n - 1),
            n >= 2,
    ;
    assert(n * n <= 0x1_0000_0000) by (nonlinear_arith)
        requires
            0 <= n <= 0xffff,
    ;
    assert(n * n * n <= 0x1_0000_0000_0000) by (nonlinear_arith)
        requires
            0 <= n <= 0xffff,
    ;
    assert(n * n * n * n <= 0x1_0000_0000_0000_0000) by (nonlinear_arith)
        requires
            0 <= n <= 0xffff,
    ;
    assert(n * m <= 0xffff * m) by (nonlinear_arith)
        requires
            n <= 0xffff,
            m >= 0,
    ;
    assert(sx * m <= 0x8000_0000 * m) by (nonlinear_arith)
        requires
            2 * sx <= n * n,
            n * n <= 0x1_0000_0000,
            m >= 0,
    ;
    let n4m = n * n * n * n * m;
    let n3m = n * n * n * m;
    assert(n4m <= 0x1_0000_0000_0000_0000 * m) by (nonlinear_arith)
        requires
            n * n * n * n <= 0x1_0000_0000_0000_0000,
            n4m == n * n * n * n * m,
            m >= 0,
    ;
    assert(n3m <= 0x1_0000_0000_0000 * m) by (nonlinear_arith)
        requires
            n * n * n <= 0x1_0000_0000_0000,
            n3m == n * n * n * m,
            m >= 0,
    ;
    assert(-n4m <= 3 * (sx2 * sy) <= n4m) by (nonlinear_arith)
        requires
            0 <= 3 * sx2 <= n * n * n,
            -(n * m) <= sy <= n * m,
            n4m == n * n * n * n * m,
            n >= 0,
            m >= 0,
    ;
    assert(-n4m <= 4 * (sx * sxy) <= n4m) by (nonlinear_arith)
        requires
            0 <= 2 * sx <= n * n,
            -(sx * m) <= sxy <= sx * m,
            n4m == n * n * n * n * m,
            m >= 0,
    ;
    assert(-n3m <= 2 * (sx * sy) <= n3m) by (nonlinear_arith)
        requires
            0 <= 2 * sx <= n * n,
            -(n * m) <= sy <= n * m,
            n3m == n * n * n * m,
            m >= 0,
    ;
    assert(-n3m <= 2 * (n * sxy) <= n3m) by (nonlinear_arith)
        requires
            0 <= 2 * sx <= n * n,
            -(sx * m) <= sxy <= sx * m,
            n3m == n * n * n * m,
            n >= 0,
            m >= 0,
    ;
}

/// The reported intercept and slope solve the least-squares normal equations
/// of the window: with `b = intercept_num / D` and the slope over ranks
/// `a = -slope_num / D`, `N b + Sx a == Sy` and `Sx b + Sx2 a == Sxy`.
pub proof fn lemma_least_squares(s: Seq<i64>)
    requires
        s.len() >= 2,
    ensures
        fit_divider(s.len()) > 0,
        s.len() * intercept_num(s) - sum_x(s.len()) * slope_num(s) == sum_y(s) * fit_divider(
            s.len(),
        ),
        sum_x(s.len()) * intercept_num(s) - sum_x2(s.len()) * slope_num(s) == sum_xy(s)
            * fit_divider(s.len()),
{
    lemma_divider(s.len());
    let n = s.len() as int;
    let sx = sum_x(s.len());
    let sx2 = sum_x2(s.len());
    let sy = sum_y(s);
    let sxy = sum_xy(s);
    assert(n * (sx2 * sy - sx * sxy) - sx * (sx * sy - n * sxy) == sy * (n * sx2 - sx * sx))
        by (nonlinear_arith);
    assert(sx * (sx2 * sy - sx * sxy) - sx2 * (sx * sy - n * sxy) == sxy * (n * sx2 - sx * sx))
        by (nonlinear_arith);
}

/// A window that holds one value `v` throughout keeps it when `v` comes in
/// again, and its least-squares value at the newest sample is `v`.
pub proof fn lemma_constant_fit(n: nat, v: i64)
    requires
        n >= 2,
    ensures
        Seq::new(n, |i: int| v).drop_first().push(v) == Seq::new(n, |i: int| v),
        intercept_num(Seq::new(n, |i: int| v)) == v * fit_divider(n),
{
    let s = Seq::new(n, |i: int| v);
    assert(s.drop_first().push(v) =~= s);
    lemma_const_sums(n, v);
    let sx = sum_x(n);
    let sx2 = sum_x2(n);
    let y = v as int;
    assert(sx2 * (n * y) - sx * (y * sx) == y * (n * sx2 - sx * sx)) by (nonlinear_arith);
}

/// Linear regression moving average over the last `length` samples: the
/// value at the newest sample of the least-squares line through the window.
#[derive(Clone, Debug)]
pub struct LinReg {
    s_xy: i128,
    s_y: i128,
    s_x: i128,
    s_x2: i128,
    length: i128,
    divider: i128,
    window: Window<i64>,
}

impl LinReg {
    /// The samples in the window, oldest first.
    pub closed spec fn samples(&self) -> Seq<i64> {
        self.window@
    }

    /// The window length.
    pub closed spec fn length(&self) -> nat {
        self.window.capacity()
    }

    /// A valid tracker's window holds `length` samples, and `length` is
    /// between 2 and `u16::MAX`.
    pub proof fn lemma_window_len(&self)
        requires
            self.wf(),
        ensures
            self.samples().len() == self.length(),
            2 <= self.length() <= u16::MAX,
    {
        self.window.lemma_view_len();
    }

    /// The running sums are those of the window's samples, and the
    /// constants those of its length.
    pub closed spec fn wf(&self) -> bool {
        &&& self.window.wf()
        &&& 2 <= self.window.capacity() <= u16::MAX
        &&& self.length == self.window.capacity()
        &&& self.s_x == sum_x(self.window.capacity())
        &&& self.s_x2 == sum_x2(self.window.capacity())
        &&& self.divider == fit_divider(self.window.capacity())
        &&& self.s_y == sum_y(self.window@)
        &&& self.s_xy == sum_xy(self.window@)
    }

    /// A tracker whose window holds `length` copies of `value`; fails when
    /// `length` is below 2.
    pub fn new(length: u16, value: i64) -> (r: Result<LinReg, Error>)
        ensures
            length < 2 ==> r == Err::<LinReg, Error>(Error::InvalidParameters),
            length >= 2 ==> (r matches Ok(m) && {
                &&& m.wf()
                &&& m.length() == length
                &&& m.samples() == Seq::new(length as nat, |i: int| value)
            }),
    {
        if length < 2 {
            return Err(Error::InvalidParameters);
        }
        let n = length as i128;
        proof {
            lemma_closed_forms(length as nat);
            lemma_divider(length as nat);
            lemma_const_sums(length as nat, value);
            assert(n * (n - 1) <= 0x1_0000_0000) by (nonlinear_arith)
                requires
                    2 <= n <= 0xffff,
            ;
            assert(n * (n - 1) * (2 * n - 1) <= 0x2_0000_0000_0000) by (nonlinear_arith)
                requires
                    2 <= n <= 0xffff,
                    n * (n - 1) <= 0x1_0000_0000,
            ;
        }
        let s_x = n * (n - 1) / 2;
        proof {
            assert(s_x * (2 * n - 1) <= 0x1_0000_0000_0000) by (nonlinear_arith)
                requires
                    0 <= 2 * s_x <= 0x1_0000_0000,
                    2 <= n <= 0xffff,
            ;
        }
        let s_x2 = s_x * (2 * n - 1) / 3;
        proof {
            assert(s_x == sum_x(length as nat));
            assert(s_x * (2 * n - 1) == 3 * sum_x2(length as nat)) by (nonlinear_arith)
                requires
                    2 * s_x == n * (n - 1),
                    6 * sum_x2(length as nat) == n * (n - 1) * (2 * n - 1),
            ;
            assert(n * s_x2 <= 0x1_0000_0000_0000_0000) by (nonlinear_arith)
                requires
                    2 <= n <= 0xffff,
                    0 <= 6 * s_x2 <= n * (n - 1) * (2 * n - 1),
            ;
            assert(s_x * s_x <= 0x1_0000_0000_0000_0000) by (nonlinear_arith)
                requires
                    0 <= 2 * s_x <= 0x1_0000_0000,
            ;
            assert(-(0x8000_0000_0000_0000 * s_x) <= value * s_x <= 0x8000_0000_0000_0000 * s_x)
                by (nonlinear_arith)
                requires
                    s_x >= 0,
                    -0x8000_0000_0000_0000 <= value < 0x8000_0000_0000_0000,
            ;
            assert(-(0x8000_0000_0000_0000 * n) <= value * n <= 0x8000_0000_0000_0000 * n)
                by (nonlinear_arith)
                requires
                    n >= 0,
                    -0x8000_0000_0000_0000 <= value < 0x8000_0000_0000_0000,
            ;
        }
        let divider = n * s_x2 - s_x * s_x;
        let s_y = value as i128 * n;
        let s_xy = value as i128 * s_x;
        let window = Window::new(length as usize, value);
        let r = LinReg { s_xy, s_y, s_x, s_x2, length: n, divider, window };
        proof {
            assert(value * n == n * value) by (nonlinear_arith);
            assert(s_y == sum_y(r.window@));
        }
        Ok(r)
    }

    /// The slope of the current least-squares line per step forward in time.
    pub fn tan(&self) -> (r: Ratio)
        requires
            self.wf(),
        ensures
            r.num == slope_num(self.samples()),
            r.den == fit_divider(self.length()),
            r.den > 0,
    {
        proof {
            self.window.lemma_view_len();
            lemma_results_fit(self.window@);
            lemma_divider(self.window.capacity());
        }
        Ratio { num: self.s_x * self.s_y - self.length * self.s_xy, den: self.divider }
    }

    /// The value of the current least-squares line at the newest sample.
    pub fn b(&self) -> (r: Ratio)
        requires
            self.wf(),
        ensures
            r.num == intercept_num(self.samples()),
            r.den == fit_divider(self.length()),
            r.den > 0,
    {
        proof {
            self.window.lemma_view_len();
            lemma_results_fit(self.window@);
            lemma_divider(self.window.capacity());
        }
        Ratio { num: self.s_x2 * self.s_y - self.s_x * self.s_xy, den: self.divider }
    }

    /// Takes the next sample and returns the value at the newest sample of the
    /// least-squares line through the window after it.
    pub fn next(&mut self, value: i64) -> (r: Ratio)
        requires
            old(self).wf(),
        ensures
            final(self).wf(),
            final(self).length() == old(self).length(),
            final(self).samples() == old(self).samples().drop_first().push(value),
            final(self).samples().len() == final(self).length(),
            r.num == intercept_num(final(self).samples()),
            r.den == fit_divider(final(self).length()),
            r.den > 0,
    {
        let ghost w0 = self.window@;
        proof {
            self.window.lemma_view_len();
            lemma_sum_bounds(w0);
            lemma_results_fit(w0);
            lemma_push_sums(w0.drop_first(), value);
            assert(w0.drop_first().len() == w0.len() - 1);
            let t = w0.drop_first();
            lemma_sum_bounds(t);
            lemma_results_fit(t.push(value));
            let y = w0[0] as int;
            let n = w0.len() as int;
            assert(n * y == (n - 1) * y + y) by (nonlinear_arith);
            assert(-(0x8000_0000_0000_0000 * n) <= n * y <= 0x8000_0000_0000_0000 * n)
                by (nonlinear_arith)
                requires
                    n >= 0,
                    -0x8000_0000_0000_0000 <= y < 0x8000_0000_0000_0000,
            ;
        }
        let past = self.window.push(value);
        self.s_xy = self.s_xy + self.s_y - self.length * past as i128;
        self.s_y = self.s_y - past as i128 + value as i128;
        self.b()
    }
}

} // verus!

verus! {

impl crate::method::Method for LinReg {
    open spec fn inv(&self) -> bool {
        self.wf()
    }

    open spec fn window_samples(&self) -> Seq<i64> {
        self.samples()
    }

    open spec fn min_length() -> nat {
        2
    }

    open spec fn statistic(&self, r: Ratio) -> bool {
        r.num == intercept_num(self.samples()) && r.den == fit_divider(self.length())
    }

    fn create(length: u16, value: i64) -> (r: Result<LinReg, Error>) {
        LinReg::new(length, value)
    }

    fn consume(&mut self, value: i64) -> (r: Ratio) {
        self.next(value)
    }
}

} // verus!
