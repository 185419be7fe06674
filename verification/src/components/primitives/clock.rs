use vstd::prelude::*;

use crate::components::component::{CompEvent, Component};

verus! {

/// A clock: its single output alternates between low and high, staying
/// `interval` nanoseconds at each level. The frequency it was made for is
/// kept as the bits of its IEEE 754 double representation.
#[derive(Debug)]
pub struct Clock {
    pub ins: Vec<bool>,
    pub outs: Vec<bool>,
    pub frec_bits: u64,
    pub interval: u128,
}

impl Clock {
    /// A clock whose output stays `interval` nanoseconds at each level; the
    /// output starts low.
    pub fn from_interval(frec_bits: u64, interval: u128) -> (c: Self)
        ensures
            c.ins@ == Seq::<bool>::empty(),
            c.outs@ == seq![false],
            c.frec_bits == frec_bits,
            c.interval == interval,
    {
        let mut outs: Vec<bool> = Vec::new();
        outs.push(false);
        Clock { ins: Vec::new(), outs, frec_bits, interval }
    }

    /// Whether the output is high at time `t`: in the second half of each
    /// cycle of two intervals.
    pub open spec fn level_at(&self, t: u128) -> bool {
        (t / self.interval) % 2 == 1
    }
}

impl Component for Clock {
    open spec fn ins_view(&self) -> Seq<bool> {
        self.ins@
    }

    open spec fn outs_view(&self) -> Seq<bool> {
        self.outs@
    }

    open spec fn well_formed(&self) -> bool {
        self.outs@.len() > 0 && self.interval > 0
    }

    fn name(&self) -> (s: String)
        ensures
            s@ == "Clock"@,
    {
        String::from_str("Clock")
    }

    fn ins(&mut self) -> (r: &mut Vec<bool>) {
        &mut self.ins
    }

    fn outs(&mut self) -> (r: &mut Vec<bool>) {
        &mut self.outs
    }

    /// At time `t` the output takes the clock's level at `t`; other events
    /// change nothing.
    fn on_event(&mut self, event: &CompEvent)
        ensures
            final(self).ins@ == old(self).ins@,
            final(self).outs@ == (match *event {
                CompEvent::Update(t) => old(self).outs@.update(0, old(self).level_at(t)),
                CompEvent::UpdateValues => old(self).outs@,
            }),
    {
        match event {
            CompEvent::Update(t) => {
                let v = (*t / self.interval) % 2 == 1;
                self.outs.set(0, v);
            },
            CompEvent::UpdateValues => {},
        }
    }
}

} // verus!
