use vstd::prelude::*;
use vstd::string::StringSliceAdditionalSpecFns;

verus! {

/// An element the rope can hold. Each element reports a nonnegative integer
/// width, a user-defined measure (display columns, bytes, logical size) that
/// may be zero and is assumed stable while the element sits in a rope.
pub trait Measurable: Sized + Copy {
    /// The element's width as the specifications see it.
    spec fn spec_width(&self) -> usize;

    /// Returns the element's width.
    fn width(&self) -> (w: usize)
        ensures
            w == self.spec_width(),
    ;
}

/// A sample element type with a fixed width for each shape of value, handy
/// for exercising the rope: two zero-width variants force the start/end
/// boundary distinction, and `Dolor` gives any width one asks for.
#[derive(Clone, Copy, Debug, PartialEq, Eq)]
pub enum Lipsum {
    Lorem,
    Ipsum,
    Dolor(usize),
    Sit,
    Amet,
    Consectur(&'static str),
    Adipiscing(bool),
}

impl Measurable for Lipsum {
    open spec fn spec_width(&self) -> usize {
        match *self {
            Lipsum::Lorem => 1,
            Lipsum::Ipsum => 2,
            Lipsum::Dolor(n) => n,
            Lipsum::Sit => 0,
            Lipsum::Amet => 0,
            Lipsum::Consectur(s) => s.spec_bytes().len() as usize,
            Lipsum::Adipiscing(b) => if b { 1 } else { 0 },
        }
    }

    fn width(&self) -> (w: usize) {
        match *self {
            Lipsum::Lorem => 1,
            Lipsum::Ipsum => 2,
            Lipsum::Dolor(n) => n,
            Lipsum::Sit => 0,
            Lipsum::Amet => 0,
            Lipsum::Consectur(s) => s.len(),
            Lipsum::Adipiscing(b) => if b { 1 } else { 0 },
        }
    }
}

} // verus!
