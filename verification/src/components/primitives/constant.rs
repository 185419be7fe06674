use vstd::prelude::*;

use crate::components::component::{CompEvent, Component};

verus! {

/// A component with no inputs whose single output holds a constant value.
#[derive(Debug)]
pub struct Const {
    pub ins: Vec<bool>,
    pub outs: Vec<bool>,
}

impl Const {
    /// A constant emitting `value`.
    pub fn new(value: bool) -> (c: Self)
        ensures
            c.ins@ == Seq::<bool>::empty(),
            c.outs@ == seq![value],
    {
        let mut outs: Vec<bool> = Vec::new();
        outs.push(value);
        Const { ins: Vec::new(), outs }
    }

    /// A constant emitting `true`.
    pub fn one() -> (c: Self)
        ensures
            c.ins@ == Seq::<bool>::empty(),
            c.outs@ == seq![true],
    {
        Const::new(true)
    }

    /// A constant emitting `false`.
    pub fn zero() -> (c: Self)
        ensures
            c.ins@ == Seq::<bool>::empty(),
            c.outs@ == seq![false],
    {
        Const::new(false)
    }
}

impl Component for Const {
    open spec fn ins_view(&self) -> Seq<bool> {
        self.ins@
    }

    open spec fn outs_view(&self) -> Seq<bool> {
        self.outs@
    }

    open spec fn well_formed(&self) -> bool {
        self.outs@.len() > 0
    }

    /// `ConstOne` for a constant emitting `true`, `ConstZero` otherwise.
    fn name(&self) -> (s: String)
        ensures
            s@ == (if self.outs@[0] { "ConstOne"@ } else { "ConstZero"@ }),
    {
        if self.outs[0] {
            String::from_str("ConstOne")
        } else {
            String::from_str("ConstZero")
        }
    }

    fn ins(&mut self) -> (r: &mut Vec<bool>) {
        &mut self.ins
    }

    fn outs(&mut self) -> (r: &mut Vec<bool>) {
        &mut self.outs
    }

    /// A constant keeps its value whatever happens.
    fn on_event(&mut self, event: &CompEvent)
        ensures
            final(self).ins@ == old(self).ins@,
            final(self).outs@ == old(self).outs@,
    {
    }
}

} // verus!
