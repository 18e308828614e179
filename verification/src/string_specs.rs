//! Contracts for the methods of `std::string::String` that this crate calls
//! and that `vstd` leaves without one. They are believed, not proved.

use vstd::prelude::*;

verus! {

/// `String::push`: the string afterwards is the string before with `ch`
/// appended as its last character. Nothing is claimed about how the buffer
/// grows.
pub assume_specification[ String::push ](s: &mut String, ch: char)
    ensures
        final(s)@ == old(s)@.push(ch),
;

/// `String::with_capacity`: the result holds no characters, whatever the
/// capacity asked for. The underlying vector refuses a capacity beyond
/// `isize::MAX` bytes, so such a request is left out.
pub assume_specification[ String::with_capacity ](capacity: usize) -> (s: String)
    requires
        capacity <= isize::MAX,
    ensures
        s@ == Seq::<char>::empty(),
;

} // verus!
