use vstd::prelude::*;

use crate::component::{Conn, PortAddr};
use crate::sim::primitives::primitive::ExtraInfo;

verus! {

/// Inner structure of a composed circuit component: its sub-components, the
/// connections between their ports, the sub-component ports each input of
/// the component feeds (as pairs of input index and port), and the
/// sub-component port each output reads.
#[derive(Debug)]
pub struct SubCircuit {
    pub components: Vec<Circuit>,
    pub connections: Vec<Conn>,
    pub in_addrs: Vec<(usize, PortAddr)>,
    pub out_addrs: Vec<PortAddr>,
}

/// A circuit component: an id, an optional name, the numbers of its inputs
/// and outputs, its inner structure when it is composed, and what the
/// simulator needs to know of it.
#[derive(Debug)]
pub struct Circuit {
    pub id: usize,
    pub name: Option<String>,
    pub inputs: usize,
    pub outputs: usize,
    pub sub: Option<SubCircuit>,
    pub extra: ExtraInfo,
}

/// Greatest nesting depth of the circuits of `s`.
pub open spec fn circuits_depth(s: Seq<Circuit>) -> nat
    decreases s,
{
    if s.len() == 0 {
        0
    } else {
        let a = circuits_depth(s.drop_last());
        let b = s.last().depth();
        if a >= b {
            a
        } else {
            b
        }
    }
}

/// Number of primitive components in the circuits of `s`.
pub open spec fn circuits_leaves(s: Seq<Circuit>) -> nat
    decreases s,
{
    if s.len() == 0 {
        0
    } else {
        circuits_leaves(s.drop_last()) + s.last().leaves()
    }
}

impl Circuit {
    /// Nesting depth: zero for a primitive.
    pub open spec fn depth(self) -> nat
        decreases self,
    {
        match self.sub {
            Some(sub) => 1 + circuits_depth(sub.components@),
            None => 0,
        }
    }

    /// Number of primitive components inside, the circuit itself when it is
    /// primitive.
    pub open spec fn leaves(self) -> nat
        decreases self,
    {
        match self.sub {
            Some(sub) => circuits_leaves(sub.components@),
            None => 1,
        }
    }

    /// The name, or the empty text when there is none.
    pub open spec fn name_or_empty(self) -> Seq<char> {
        match self.name {
            Some(n) => n@,
            None => Seq::empty(),
        }
    }
}

pub proof fn lemma_circuits_depth_bound(s: Seq<Circuit>, k: int)
    requires
        0 <= k < s.len(),
    ensures
        s[k].depth() <= circuits_depth(s),
    decreases s.len(),
{
    if k < s.len() - 1 {
        lemma_circuits_depth_bound(s.drop_last(), k);
        assert(s.drop_last()[k] == s[k]);
    }
}

} // verus!
