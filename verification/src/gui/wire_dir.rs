use vstd::prelude::*;

verus! {

/// Direction of a wire segment on the board.
#[derive(Debug, Clone, Copy, PartialEq, Eq, Structural)]
pub enum WireDir {
    Horizontal,
    Vertical,
}

impl WireDir {
    /// The other direction.
    pub open spec fn spec_opposite(self) -> WireDir {
        match self {
            WireDir::Horizontal => WireDir::Vertical,
            WireDir::Vertical => WireDir::Horizontal,
        }
    }

    pub fn opposite(self) -> (d: Self)
        ensures
            d == self.spec_opposite(),
    {
        match self {
            Self::Horizontal => Self::Vertical,
            Self::Vertical => Self::Horizontal,
        }
    }

    /// Direction of the next segment of a wire that already has `len`
    /// points: vertical after an even count, horizontal after an odd one.
    pub fn get_dir(len: usize) -> (d: Self)
        ensures
            d == (if len % 2 == 0 { WireDir::Vertical } else { WireDir::Horizontal }),
    {
        match len % 2 {
            0 => Self::Vertical,
            _ => Self::Horizontal,
        }
    }
}

/// Taking the opposite twice gives the direction back, and consecutive
/// segments of a wire alternate.
pub proof fn lemma_wire_dir_alternates(d: WireDir, len: usize)
    requires
        len < usize::MAX,
    ensures
        d.spec_opposite().spec_opposite() == d,
        d.spec_opposite() != d,
        (if len % 2 == 0 { WireDir::Vertical } else { WireDir::Horizontal }) == (if (len + 1) % 2 == 0 {
            WireDir::Vertical
        } else {
            WireDir::Horizontal
        }).spec_opposite(),
{
}

} // verus!
