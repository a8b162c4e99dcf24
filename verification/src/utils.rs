//! A counter that wraps around a fixed modulus, used to cycle focus
//! through a fixed number of widgets.

use vstd::prelude::*;

verus! {

/// A `u32` counter that steps forward and backward modulo `SIZE`.
#[derive(Debug, Clone, Copy, PartialEq, Eq)]
pub struct Wrapping<const SIZE: u32>(pub u32);

impl<const SIZE: u32> View for Wrapping<SIZE> {
    type V = int;

    open spec fn view(&self) -> int {
        self.0 as int
    }
}

impl<const SIZE: u32> Wrapping<SIZE> {
    pub fn new(num: u32) -> (r: Self)
        ensures
            r@ == num,
    {
        Wrapping(num)
    }

    pub fn get(self) -> (r: u32)
        ensures
            r == self@,
    {
        self.0
    }

    /// Steps forward, wrapping back to `0` once `SIZE` is reached.
    pub fn next(&mut self)
        requires
            SIZE > 0,
            old(self)@ < u32::MAX,
        ensures
            final(self)@ == (old(self)@ + 1) % (SIZE as int),
    {
        self.0 = (self.get() + 1) % SIZE;
    }

    /// Steps backward, wrapping from `0` to `SIZE - 1`.
    pub fn prev(&mut self)
        requires
            SIZE > 0,
        ensures
            final(self)@ == if old(self)@ == 0 {
                SIZE - 1
            } else {
                old(self)@ - 1
            },
    {
        if self.get() == 0 {
            self.0 = SIZE - 1;
        } else {
            self.0 = self.0 - 1;
        }
    }
}

impl<const SIZE: u32> Default for Wrapping<SIZE> {
    fn default() -> (r: Self)
        ensures
            r@ == 0,
    {
        Wrapping::new(0)
    }
}

} // verus!
