use vstd::prelude::*;

verus! {

/// What a component is asked to do.
#[derive(Debug, Clone, Copy, PartialEq, Eq, Structural)]
pub enum CompEvent {
    /// Recompute the outputs from the inputs.
    UpdateValues,
    /// Time has passed; the value is the time in nanoseconds.
    Update(u128),
}

/// Basic trait that describes a component: a name, input pins and output
/// pins, each holding a boolean.
pub trait Component {
    /// Values of the input pins.
    spec fn ins_view(&self) -> Seq<bool>;

    /// Values of the output pins.
    spec fn outs_view(&self) -> Seq<bool>;

    /// The component can handle events: every pin its update reads or
    /// writes exists.
    spec fn well_formed(&self) -> bool;

    /// Name of the component.
    fn name(&self) -> String
        requires
            self.well_formed(),
    ;

    /// The input values, to read or change.
    fn ins(&mut self) -> (r: &mut Vec<bool>)
        ensures
            r@ == old(self).ins_view(),
            final(self).ins_view() == final(r)@,
            final(self).outs_view() == old(self).outs_view(),
    ;

    /// The output values, to read or change.
    fn outs(&mut self) -> (r: &mut Vec<bool>)
        ensures
            r@ == old(self).outs_view(),
            final(self).outs_view() == final(r)@,
            final(self).ins_view() == old(self).ins_view(),
    ;

    /// Sets input pin `idx` to `val`.
    fn set_in(&mut self, idx: usize, val: bool)
        requires
            idx < old(self).ins_view().len(),
        ensures
            final(self).ins_view() == old(self).ins_view().update(idx as int, val),
            final(self).outs_view() == old(self).outs_view(),
    {
        let r = self.ins();
        r.set(idx, val);
    }

    /// Sets output pin `idx` to `val`.
    fn set_out(&mut self, idx: usize, val: bool)
        requires
            idx < old(self).outs_view().len(),
        ensures
            final(self).outs_view() == old(self).outs_view().update(idx as int, val),
            final(self).ins_view() == old(self).ins_view(),
    {
        let r = self.outs();
        r.set(idx, val);
    }

    /// Handles `event`. The inputs and the number of outputs stay as they
    /// were.
    fn on_event(&mut self, event: &CompEvent)
        requires
            old(self).well_formed(),
        ensures
            final(self).well_formed(),
            final(self).ins_view() == old(self).ins_view(),
            final(self).outs_view().len() == old(self).outs_view().len(),
    ;
}

/// Every value of `s` is `true`.
pub open spec fn all_true(s: Seq<bool>) -> bool {
    forall|k: int| 0 <= k < s.len() ==> s[k]
}

/// Some value of `s` is `true`.
pub open spec fn any_true(s: Seq<bool>) -> bool {
    exists|k: int| 0 <= k < s.len() && s[k]
}

/// An odd number of the values of `s` are `true`.
pub open spec fn odd_true(s: Seq<bool>) -> bool
    decreases s.len(),
{
    if s.len() == 0 {
        false
    } else {
        odd_true(s.drop_last()) != s.last()
    }
}

pub fn all_true_in(v: &Vec<bool>) -> (b: bool)
    ensures
        b == all_true(v@),
{
    let mut k: usize = 0;
    while k < v.len()
        invariant
            k <= v.len(),
            forall|j: int| 0 <= j < k ==> v@[j],
        decreases v.len() - k,
    {
        if !v[k] {
            return false;
        }
        k = k + 1;
    }
    true
}

pub fn any_true_in(v: &Vec<bool>) -> (b: bool)
    ensures
        b == any_true(v@),
{
    let mut k: usize = 0;
    while k < v.len()
        invariant
            k <= v.len(),
            forall|j: int| 0 <= j < k ==> !v@[j],
        decreases v.len() - k,
    {
        if v[k] {
            return true;
        }
        k = k + 1;
    }
    false
}

pub fn odd_true_in(v: &Vec<bool>) -> (b: bool)
    ensures
        b == odd_true(v@),
{
    let mut acc = false;
    let mut k: usize = 0;
    while k < v.len()
        invariant
            k <= v.len(),
            acc == odd_true(v@.take(k as int)),
        decreases v.len() - k,
    {
        assert(v@.take(k as int + 1).drop_last() == v@.take(k as int));
        acc = acc != v[k];
        k = k + 1;
    }
    assert(v@.take(v.len() as int) == v@);
    acc
}

} // verus!
