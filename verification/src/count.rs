//! A count that is kept in a machine word and stays exact in the model.
use vstd::prelude::*;

verus! {

/// A natural number, of which the machine holds the low word.
pub struct Count {
    n: usize,
    wraps: Ghost<nat>,
}

impl View for Count {
    type V = nat;

    /// The number.
    closed spec fn view(&self) -> nat {
        (self.n + self.wraps@ * (usize::MAX + 1)) as nat
    }
}

impl Count {
    /// Zero.
    pub fn zero() -> (r: Self)
        ensures
            r@ == 0,
    {
        let r = Count { n: 0, wraps: Ghost(0) };
        assert(0 * (usize::MAX + 1) == 0);
        r
    }

    /// The number, as long as it fits in a `usize`.
    pub fn get(&self) -> (r: usize)
        ensures
            self@ <= usize::MAX ==> r == self@,
            r != 0 ==> self@ != 0,
    {
        proof {
            let w = self.wraps@;
            if w > 0 {
                assert(w * (usize::MAX + 1) >= usize::MAX + 1) by (nonlinear_arith)
                    requires
                        w >= 1,
                        usize::MAX >= 0,
                ;
            } else {
                assert(0 * (usize::MAX + 1) == 0);
            }
        }
        self.n
    }

    /// One more.
    pub fn up(&mut self)
        ensures
            final(self)@ == old(self)@ + 1,
    {
        proof {
            let w = self.wraps@;
            assert((w + 1) * (usize::MAX + 1) == w * (usize::MAX + 1) + (usize::MAX + 1))
                by (nonlinear_arith);
            assert(w * (usize::MAX + 1) >= 0) by (nonlinear_arith)
                requires
                    w >= 0,
                    usize::MAX >= 0,
            ;
        }
        if self.n == usize::MAX {
            self.wraps = Ghost(self.wraps@ + 1);
        }
        self.n = self.n.wrapping_add(1);
    }

    /// One less.
    pub fn down(&mut self)
        requires
            old(self)@ > 0,
        ensures
            final(self)@ == old(self)@ - 1,
    {
        proof {
            let w = self.wraps@;
            assert(w * (usize::MAX + 1) >= 0) by (nonlinear_arith)
                requires
                    w >= 0,
                    usize::MAX >= 0,
            ;
            if self.n == 0 {
                assert(w > 0) by (nonlinear_arith)
                    requires
                        w * (usize::MAX + 1) > 0,
                ;
                assert((w - 1) * (usize::MAX + 1) == w * (usize::MAX + 1) - (usize::MAX + 1))
                    by (nonlinear_arith);
                assert((w - 1) * (usize::MAX + 1) >= 0) by (nonlinear_arith)
                    requires
                        w >= 1,
                        usize::MAX >= 0,
                ;
            }
        }
        if self.n == 0 {
            self.wraps = Ghost((self.wraps@ - 1) as nat);
        }
        self.n = self.n.wrapping_sub(1);
    }
}

/// A copy is the same number.
impl Clone for Count {
    fn clone(&self) -> (r: Self)
        ensures
            r == *self,
    {
        Count { n: self.n, wraps: Ghost(self.wraps@) }
    }
}

} // verus!
