//! What the library takes on trust about `String`.

use vstd::prelude::*;

verus! {

/// `String::push`, of the standard library: the string afterwards holds the
/// characters that it held before, followed by `ch`. This is stated, not
/// proved. As vstd does for `Vec::push`, it leaves out a string that
/// outgrows the memory of the machine.
pub assume_specification[ String::push ](s: &mut String, ch: char)
    ensures
        final(s)@ == old(s)@.push(ch),
;

} // verus!
