use vstd::prelude::*;

use crate::component::falses;
use crate::components::component::{any_true_in, any_true, CompEvent, Component};

verus! {

/// A NOR gate.
#[derive(Debug)]
pub struct NorGate {
    pub ins: Vec<bool>,
    pub outs: Vec<bool>,
}

impl NorGate {
    /// A NOR gate with `in_count` inputs; every pin starts low.
    pub fn new(in_count: usize) -> (g: NorGate)
        ensures
            g.ins@ == Seq::new(in_count as nat, |_k: int| false),
            g.outs@ == seq![false],
    {
        NorGate { ins: falses(in_count), outs: falses(1) }
    }

    /// The value of the output after an update.
    pub open spec fn gate_value(&self) -> bool {
        !any_true(self.ins@)
    }
}

impl Component for NorGate {
    open spec fn ins_view(&self) -> Seq<bool> {
        self.ins@
    }

    open spec fn outs_view(&self) -> Seq<bool> {
        self.outs@
    }

    open spec fn well_formed(&self) -> bool {
        self.outs@.len() > 0
    }

    fn name(&self) -> (s: String)
        ensures
            s@ == "NorGate"@,
    {
        String::from_str("NorGate")
    }

    fn ins(&mut self) -> (r: &mut Vec<bool>) {
        &mut self.ins
    }

    fn outs(&mut self) -> (r: &mut Vec<bool>) {
        &mut self.outs
    }

    /// On `UpdateValues` the output takes `gate_value()`; other events
    /// change nothing.
    fn on_event(&mut self, event: &CompEvent)
        ensures
            final(self).ins@ == old(self).ins@,
            final(self).outs@ == (match *event {
                CompEvent::UpdateValues => old(self).outs@.update(0, old(self).gate_value()),
                CompEvent::Update(_) => old(self).outs@,
            }),
    {
        match event {
            CompEvent::UpdateValues => {
                let v = !any_true_in(&self.ins);
                self.outs.set(0, v);
            },
            CompEvent::Update(_) => {},
        }
    }
}

/// On `UpdateValues` a NOR gate's output is set exactly when none of its
/// inputs is set, however many inputs it has.
pub proof fn lemma_nor_gate_no_input(g: NorGate)
    ensures
        g.gate_value() <==> forall|k: int| 0 <= k < g.ins@.len() ==> !(#[trigger] g.ins@[k]),
        forall|k: int| 0 <= k < g.ins@.len() && #[trigger] g.ins@[k] ==> !g.gate_value(),
{
}

} // verus!
