use vstd::prelude::*;

use crate::component::falses;
use crate::components::component::{odd_true_in, odd_true, CompEvent, Component};

verus! {

/// An XOR gate.
#[derive(Debug)]
pub struct XorGate {
    pub ins: Vec<bool>,
    pub outs: Vec<bool>,
}

impl XorGate {
    /// An XOR gate with `in_count` inputs; every pin starts low.
    pub fn new(in_count: usize) -> (g: XorGate)
        ensures
            g.ins@ == Seq::new(in_count as nat, |_k: int| false),
            g.outs@ == seq![false],
    {
        XorGate { ins: falses(in_count), outs: falses(1) }
    }

    /// The value of the output after an update.
    pub open spec fn gate_value(&self) -> bool {
        odd_true(self.ins@)
    }
}

impl Component for XorGate {
    open spec fn ins_view(&self) -> Seq<bool> {
        self.ins@
    }

    open spec fn outs_view(&self) -> Seq<bool> {
        self.outs@
    }

    open spec fn well_formed(&self) -> bool {
        self.outs@.len() > 0
    }

    fn name(&self) -> (s: String)
        ensures
            s@ == "XorGate"@,
    {
        String::from_str("XorGate")
    }

    fn ins(&mut self) -> (r: &mut Vec<bool>) {
        &mut self.ins
    }

    fn outs(&mut self) -> (r: &mut Vec<bool>) {
        &mut self.outs
    }

    /// On `UpdateValues` the output takes `gate_value()`; other events
    /// change nothing.
    fn on_event(&mut self, event: &CompEvent)
        ensures
            final(self).ins@ == old(self).ins@,
            final(self).outs@ == (match *event {
                CompEvent::UpdateValues => old(self).outs@.update(0, old(self).gate_value()),
                CompEvent::Update(_) => old(self).outs@,
            }),
    {
        match event {
            CompEvent::UpdateValues => {
                let v = odd_true_in(&self.ins);
                self.outs.set(0, v);
            },
            CompEvent::Update(_) => {},
        }
    }
}

/// On `UpdateValues` an XOR gate's output is set exactly when an odd number
/// of its inputs are set.
pub proof fn lemma_xor_gate_parity(g: XorGate)
    ensures
        g.gate_value() == (g.ins@.filter(|b: bool| b).len() % 2 == 1),
{
    lemma_odd_count(g.ins@);
}

proof fn lemma_odd_count(s: Seq<bool>)
    ensures
        odd_true(s) == (s.filter(|b: bool| b).len() % 2 == 1),
    decreases s.len(),
{
    reveal(Seq::filter);
    if s.len() > 0 {
        lemma_odd_count(s.drop_last());
    }
}

} // verus!
