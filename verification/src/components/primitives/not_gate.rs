use vstd::prelude::*;

use crate::component::falses;
use crate::components::component::{CompEvent, Component};

verus! {

/// A NOT gate.
#[derive(Debug)]
pub struct NotGate {
    pub ins: Vec<bool>,
    pub outs: Vec<bool>,
}

impl NotGate {
    /// A NOT gate; its input and its output start low.
    pub fn new() -> (g: NotGate)
        ensures
            g.ins@ == seq![false],
            g.outs@ == seq![false],
    {
        NotGate { ins: falses(1), outs: falses(1) }
    }
}

impl Default for NotGate {
    fn default() -> (g: NotGate)
        ensures
            g.ins@ == seq![false],
            g.outs@ == seq![false],
    {
        NotGate::new()
    }
}

impl Component for NotGate {
    open spec fn ins_view(&self) -> Seq<bool> {
        self.ins@
    }

    open spec fn outs_view(&self) -> Seq<bool> {
        self.outs@
    }

    open spec fn well_formed(&self) -> bool {
        self.ins@.len() > 0 && self.outs@.len() > 0
    }

    fn name(&self) -> (s: String)
        ensures
            s@ == "NotGate"@,
    {
        String::from_str("NotGate")
    }

    fn ins(&mut self) -> (r: &mut Vec<bool>) {
        &mut self.ins
    }

    fn outs(&mut self) -> (r: &mut Vec<bool>) {
        &mut self.outs
    }

    /// On `UpdateValues` the output takes the negation of the input; other
    /// events change nothing.
    fn on_event(&mut self, event: &CompEvent)
        ensures
            final(self).ins@ == old(self).ins@,
            final(self).outs@ == (match *event {
                CompEvent::UpdateValues => old(self).outs@.update(0, !old(self).ins@[0]),
                CompEvent::Update(_) => old(self).outs@,
            }),
    {
        match event {
            CompEvent::UpdateValues => {
                let v = !self.ins[0];
                self.outs.set(0, v);
            },
            CompEvent::Update(_) => {},
        }
    }
}

} // verus!
