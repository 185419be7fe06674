use vstd::prelude::*;
use vstd::std_specs::ops::BitAndSpecImpl;
use vstd::std_specs::ops::BitOrSpecImpl;
use vstd::std_specs::ops::BitXorSpecImpl;
use vstd::std_specs::ops::NotSpecImpl;

verus! {

/// A logic level.
#[derive(Debug, Clone, Copy, PartialEq, Eq, Structural)]
pub enum Bit {
    High,
    Low,
}

impl Bit {
    /// The level as a boolean: `High` is `true`.
    pub open spec fn as_bool(self) -> bool {
        self == Bit::High
    }

    pub fn from_bool(b: bool) -> (r: Self)
        ensures
            r.as_bool() == b,
    {
        if b {
            Bit::High
        } else {
            Bit::Low
        }
    }

    pub fn to_bool(&self) -> (b: bool)
        ensures
            b == self.as_bool(),
    {
        match self {
            Bit::High => true,
            Bit::Low => false,
        }
    }

    /// The text of one level: a green square for `High`, a black one for `Low`.
    pub open spec fn text(self) -> Seq<char> {
        if self.as_bool() { "🟩"@ } else { "⬛"@ }
    }

    pub fn to_string(&self) -> (s: String)
        ensures
            s@ == self.text(),
    {
        match self {
            Bit::High => String::from_str("🟩"),
            Bit::Low => String::from_str("⬛"),
        }
    }

    pub fn show_vec(bits: &Vec<Bit>) -> (s: String)
        ensures
            s@ == bits_seq_text(bits@),
    {
        let mut s = String::new();
        let mut k: usize = 0;
        while k < bits.len()
            invariant
                k <= bits.len(),
                s@ == bits_seq_text(bits@.take(k as int)),
            decreases bits.len() - k,
        {
            let t = bits[k].to_string();
            s.append(t.as_str());
            assert(bits@.take(k as int + 1).drop_last() == bits@.take(k as int));
            k = k + 1;
        }
        assert(bits@.take(bits.len() as int) == bits@);
        s
    }
}

/// Text of a sequence of levels, one after the other.
pub open spec fn bits_seq_text(bits: Seq<Bit>) -> Seq<char>
    decreases bits.len(),
{
    if bits.len() == 0 {
        Seq::empty()
    } else {
        bits_seq_text(bits.drop_last()) + bits.last().text()
    }
}

impl Default for Bit {
    fn default() -> (b: Bit)
        ensures
            b == Bit::Low,
    {
        Bit::Low
    }
}

impl core::ops::BitAnd for Bit {
    type Output = Bit;

    fn bitand(self, rhs: Bit) -> (r: Bit)
        ensures
            r.as_bool() == (self.as_bool() && rhs.as_bool()),
    {
        match (self, rhs) {
            (Bit::High, Bit::High) => Bit::High,
            (Bit::Low, _) | (_, Bit::Low) => Bit::Low,
        }
    }
}

impl BitAndSpecImpl for Bit {
    open spec fn obeys_bitand_spec() -> bool {
        true
    }

    open spec fn bitand_req(self, rhs: Bit) -> bool {
        true
    }

    open spec fn bitand_spec(self, rhs: Bit) -> Bit {
        if self.as_bool() && rhs.as_bool() { Bit::High } else { Bit::Low }
    }
}

impl core::ops::BitOr for Bit {
    type Output = Bit;

    fn bitor(self, rhs: Bit) -> (r: Bit)
        ensures
            r.as_bool() == (self.as_bool() || rhs.as_bool()),
    {
        match (self, rhs) {
            (Bit::Low, Bit::Low) => Bit::Low,
            (Bit::High, _) | (_, Bit::High) => Bit::High,
        }
    }
}

impl BitOrSpecImpl for Bit {
    open spec fn obeys_bitor_spec() -> bool {
        true
    }

    open spec fn bitor_req(self, rhs: Bit) -> bool {
        true
    }

    open spec fn bitor_spec(self, rhs: Bit) -> Bit {
        if self.as_bool() || rhs.as_bool() { Bit::High } else { Bit::Low }
    }
}

impl core::ops::BitXor for Bit {
    type Output = Bit;

    fn bitxor(self, rhs: Bit) -> (r: Bit)
        ensures
            r.as_bool() == (self.as_bool() != rhs.as_bool()),
    {
        match (self, rhs) {
            (Bit::High, Bit::Low) | (Bit::Low, Bit::High) => Bit::High,
            (Bit::High, Bit::High) | (Bit::Low, Bit::Low) => Bit::Low,
        }
    }
}

impl BitXorSpecImpl for Bit {
    open spec fn obeys_bitxor_spec() -> bool {
        true
    }

    open spec fn bitxor_req(self, rhs: Bit) -> bool {
        true
    }

    open spec fn bitxor_spec(self, rhs: Bit) -> Bit {
        if self.as_bool() != rhs.as_bool() { Bit::High } else { Bit::Low }
    }
}

impl core::ops::Not for Bit {
    type Output = Bit;

    fn not(self) -> (r: Bit)
        ensures
            r.as_bool() == !self.as_bool(),
    {
        match self {
            Bit::High => Bit::Low,
            Bit::Low => Bit::High,
        }
    }
}

impl NotSpecImpl for Bit {
    open spec fn obeys_not_spec() -> bool {
        true
    }

    open spec fn not_req(self) -> bool {
        true
    }

    open spec fn not_spec(self) -> Bit {
        if self.as_bool() { Bit::Low } else { Bit::High }
    }
}

/// A level goes to a boolean and back unchanged, and a boolean goes to a level
/// and back unchanged.
pub proof fn lemma_bool_round_trip(b: Bit, v: bool)
    ensures
        (if b.as_bool() { Bit::High } else { Bit::Low }) == b,
        (if v { Bit::High } else { Bit::Low }).as_bool() == v,
{
}

} // verus!
