//! Small illustrations of memory and ownership: a plain record, a string
//! whose heap allocation outlives ordinary borrows, and the size-of
//! operator.

use vstd::prelude::*;

verus! {

/// A plain record used to illustrate ownership and destruction.
#[derive(Debug)]
pub struct Person {
    pub name: String,
    pub age: u8,
}

/// A dynamically allocated string meant to live for the whole program. The
/// allocation is boxed so that its address is stable; handing out a
/// reference of unbounded lifetime would need unchecked aliasing, so this
/// type offers the borrow tied to `&self` only.
pub struct PermanentString {
    contents: Box<String>,
}

impl View for PermanentString {
    type V = Seq<char>;

    closed spec fn view(&self) -> Seq<char> {
        self.contents@
    }
}

impl PermanentString {
    /// Allocates a permanent copy of `s`.
    pub fn new(s: &str) -> (r: Self)
        ensures
            r@ == s@,
    {
        let contents = Box::new(s.to_string());
        Self { contents }
    }

    /// A borrow of the contents, valid while the owner is borrowed.
    pub fn get_temporary_reference(&self) -> (r: &str)
        ensures
            r@ == self@,
    {
        self.contents.as_str()
    }
}

/// The size-of operator: the size of a compound type is known at compile
/// time and fits a machine word.
pub fn sizeof_operator() {
    let _size: usize = core::mem::size_of::<(i32, i8)>();
}

} // verus!
