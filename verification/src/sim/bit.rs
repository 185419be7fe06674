use vstd::prelude::*;

verus! {

/// A single wire value.
pub type Bit = bool;

/// The character that shows a bit: a green square when set, a black one when clear.
pub fn fmt_bit(bit: &Bit) -> (c: char)
    ensures
        c == (if *bit { '🟩' } else { '⬛' }),
{
    match bit {
        true => '🟩',
        false => '⬛',
    }
}

} // verus!
