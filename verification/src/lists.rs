//! Copies of lists.

use vstd::prelude::*;

verus! {

/// A copy of a list of values.
pub fn copy_list<T: Copy>(values: &Vec<T>) -> (out: Vec<T>)
    ensures
        out@ == values@,
{
    let mut out: Vec<T> = Vec::new();
    let mut i: usize = 0;
    while i < values.len()
        invariant
            i <= values@.len(),
            out@ == values@.subrange(0, i as int),
        decreases values@.len() - i,
    {
        out.push(values[i]);
        assert(out@ =~= values@.subrange(0, i + 1));
        i += 1;
    }
    assert(out@ =~= values@);
    out
}

} // verus!
