//! A rectangle with its area and its text form.
use vstd::prelude::*;

verus! {

#[derive(Debug)]
pub struct Rectangle {
    pub width: usize,
    pub height: usize,
}

/// The decimal digits of `n`, most significant first, without leading zeros.
pub open spec fn decimal(n: nat) -> Seq<char>
    decreases n,
{
    if n < 10 {
        seq![(n + '0' as nat) as char]
    } else {
        decimal(n / 10).push(((n % 10) + '0' as nat) as char)
    }
}

/// Relies on `Display` for `usize`, through `format!`: each number in plain
/// decimal, the two joined by a comma.
#[verifier::external_body]
fn pair_text(a: usize, b: usize) -> (r: String)
    ensures
        r@ == decimal(a as nat) + seq![','] + decimal(b as nat),
{
    format!("{},{}", a, b)
}

impl Rectangle {
    pub fn new(w: usize, h: usize) -> (r: Rectangle)
        ensures
            r.width == w,
            r.height == h,
    {
        Rectangle { width: w, height: h }
    }

    pub fn area(&self) -> (r: usize)
        requires
            self.width * self.height <= usize::MAX,
        ensures
            r == self.width * self.height,
    {
        self.width * self.height
    }

    /// The width and the height in decimal, separated by a comma.
    pub fn to_string(&self) -> (r: String)
        ensures
            r@ == decimal(self.width as nat) + seq![','] + decimal(self.height as nat),
    {
        pair_text(self.width, self.height)
    }
}

} // verus!
