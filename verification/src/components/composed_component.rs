use vstd::prelude::*;

use crate::component::falses;
use crate::components::component::{CompEvent, Component};
use crate::components::primitives::and_gate::AndGate;
use crate::components::primitives::clock::Clock;
use crate::components::primitives::constant::Const;
use crate::components::primitives::nand_gate::NandGate;
use crate::components::primitives::nor_gate::NorGate;
use crate::components::primitives::not_gate::NotGate;
use crate::components::primitives::or_gate::OrGate;
use crate::components::primitives::xor_gate::XorGate;

verus! {

/// Address of a pin: index of the component, then index of the pin.
pub type PinAddr = (usize, usize);

fn idx_of(pin_addr: PinAddr) -> (i: usize)
    ensures
        i == pin_addr.0,
{
    pin_addr.0
}

fn addr_of(pin_addr: PinAddr) -> (a: usize)
    ensures
        a == pin_addr.1,
{
    pin_addr.1
}

/// A connection from an output pin (`from`) to an input pin (`to`).
#[derive(Debug, Clone, Copy, PartialEq, Eq)]
pub struct Conn {
    pub from: PinAddr,
    pub to: PinAddr,
}

impl Conn {
    pub fn new(from: PinAddr, to: PinAddr) -> (c: Conn)
        ensures
            c == (Conn { from, to }),
    {
        Conn { from, to }
    }
}

/// Building a composed component failed.
#[derive(Debug, Clone, Copy, PartialEq, Eq, Structural)]
pub struct ComponentBuildError;

impl Default for ComponentBuildError {
    fn default() -> (e: Self)
        ensures
            e == ComponentBuildError,
    {
        ComponentBuildError
    }
}

/// Any component: a primitive or a composed one.
#[derive(Debug)]
pub enum AnyComponent {
    NotGate(NotGate),
    AndGate(AndGate),
    OrGate(OrGate),
    NandGate(NandGate),
    NorGate(NorGate),
    XorGate(XorGate),
    Clock(Clock),
    Const(Const),
    Composed(ComposedComponent),
}

/// A component made of other components wired together. Each input of the
/// component feeds the sub-component pin in `in_addrs` at the same index;
/// each output reads the sub-component pin in `out_addrs` at the same index.
#[derive(Debug)]
pub struct ComposedComponent {
    pub name: String,
    pub ins: Vec<bool>,
    pub outs: Vec<bool>,
    pub components: Vec<AnyComponent>,
    pub dep_map: Vec<Vec<usize>>,
    pub connections: Vec<Conn>,
    pub in_addrs: Vec<PinAddr>,
    pub out_addrs: Vec<PinAddr>,
}

/// Greatest nesting depth of the components of `s`.
pub open spec fn seq_depth(s: Seq<AnyComponent>) -> nat
    decreases s,
{
    if s.len() == 0 {
        0
    } else {
        let a = seq_depth(s.drop_last());
        let b = s.last().depth();
        if a >= b {
            a
        } else {
            b
        }
    }
}

impl AnyComponent {
    /// Nesting depth: zero for a primitive.
    pub open spec fn depth(self) -> nat
        decreases self,
    {
        match self {
            AnyComponent::Composed(c) => 1 + seq_depth(c.components@),
            _ => 0,
        }
    }
}


impl AnyComponent {
    /// Values of the input pins.
    pub open spec fn ins_of(self) -> Seq<bool> {
        match self {
            AnyComponent::NotGate(g) => g.ins@,
            AnyComponent::AndGate(g) => g.ins@,
            AnyComponent::OrGate(g) => g.ins@,
            AnyComponent::NandGate(g) => g.ins@,
            AnyComponent::NorGate(g) => g.ins@,
            AnyComponent::XorGate(g) => g.ins@,
            AnyComponent::Clock(g) => g.ins@,
            AnyComponent::Const(g) => g.ins@,
            AnyComponent::Composed(g) => g.ins@,
        }
    }

    /// Values of the output pins.
    pub open spec fn outs_of(self) -> Seq<bool> {
        match self {
            AnyComponent::NotGate(g) => g.outs@,
            AnyComponent::AndGate(g) => g.outs@,
            AnyComponent::OrGate(g) => g.outs@,
            AnyComponent::NandGate(g) => g.outs@,
            AnyComponent::NorGate(g) => g.outs@,
            AnyComponent::XorGate(g) => g.outs@,
            AnyComponent::Clock(g) => g.outs@,
            AnyComponent::Const(g) => g.outs@,
            AnyComponent::Composed(g) => g.outs@,
        }
    }

    /// The component, and every component nested in it, can handle events.
    pub open spec fn wf(self) -> bool
        decreases self,
    {
        match self {
            AnyComponent::NotGate(g) => g.well_formed(),
            AnyComponent::AndGate(g) => g.well_formed(),
            AnyComponent::OrGate(g) => g.well_formed(),
            AnyComponent::NandGate(g) => g.well_formed(),
            AnyComponent::NorGate(g) => g.well_formed(),
            AnyComponent::XorGate(g) => g.well_formed(),
            AnyComponent::Clock(g) => g.well_formed(),
            AnyComponent::Const(g) => g.well_formed(),
            AnyComponent::Composed(c) => c.pins_ok() && forall|k: int|
                0 <= k < c.components@.len() ==> (#[trigger] c.components@[k]).wf(),
        }
    }
}

impl ComposedComponent {
    /// Nesting depth of the component: one more than that of its deepest
    /// sub-component.
    pub open spec fn depth_c(&self) -> nat {
        1 + seq_depth(self.components@)
    }

    /// Every address names an existing pin: inputs and outputs of the
    /// component are bound to pins of sub-components, connections join an
    /// output to an input, and the dependency map has a row, of
    /// sub-component indices, per sub-component.
    pub open spec fn pins_ok(&self) -> bool {
        let n = self.components@.len();
        let comps = self.components@;
        &&& self.ins@.len() == self.in_addrs@.len()
        &&& self.outs@.len() == self.out_addrs@.len()
        &&& self.dep_map@.len() == n
        &&& forall|k: int, j: int|
            0 <= k < n && 0 <= j < self.dep_map@[k]@.len() ==> #[trigger] self.dep_map@[k]@[j] < n
        &&& forall|i: int|
            0 <= i < self.in_addrs@.len() ==> {
                let a = #[trigger] self.in_addrs@[i];
                a.0 < n && a.1 < comps[a.0 as int].ins_of().len()
            }
        &&& forall|i: int|
            0 <= i < self.out_addrs@.len() ==> {
                let a = #[trigger] self.out_addrs@[i];
                a.0 < n && a.1 < comps[a.0 as int].outs_of().len()
            }
        &&& forall|i: int|
            0 <= i < self.connections@.len() ==> {
                let c = #[trigger] self.connections@[i];
                &&& c.from.0 < n && c.from.1 < comps[c.from.0 as int].outs_of().len()
                &&& c.to.0 < n && c.to.1 < comps[c.to.0 as int].ins_of().len()
            }
    }

    /// The component and all its sub-components can handle events.
    pub open spec fn wf_c(&self) -> bool {
        self.pins_ok() && forall|k: int| 0 <= k < self.components@.len() ==> (#[trigger] self.components@[k]).wf()
    }
}

pub proof fn lemma_seq_depth_bound(s: Seq<AnyComponent>, k: int)
    requires
        0 <= k < s.len(),
    ensures
        s[k].depth() <= seq_depth(s),
    decreases s.len(),
{
    if k < s.len() - 1 {
        lemma_seq_depth_bound(s.drop_last(), k);
        assert(s.drop_last()[k] == s[k]);
    }
}

proof fn lemma_seq_depth_same(s: Seq<AnyComponent>, t: Seq<AnyComponent>)
    requires
        s.len() == t.len(),
        forall|k: int| 0 <= k < s.len() ==> (#[trigger] s[k]).depth() == t[k].depth(),
    ensures
        seq_depth(s) == seq_depth(t),
    decreases s.len(),
{
    if s.len() > 0 {
        let (a, b) = (s.drop_last(), t.drop_last());
        assert forall|k: int| 0 <= k < a.len() implies (#[trigger] a[k]).depth() == b[k].depth() by {
            assert(a[k] == s[k] && b[k] == t[k]);
        }
        lemma_seq_depth_same(a, b);
        assert(s.last().depth() == t.last().depth());
    }
}

/// Number of unvisited (zero) marks in `s`.
pub open spec fn unvisited(s: Seq<u8>) -> nat
    decreases s.len(),
{
    if s.len() == 0 {
        0
    } else {
        unvisited(s.drop_last()) + if s.last() == 0 { 1nat } else { 0nat }
    }
}

proof fn lemma_unvisited_update(s: Seq<u8>, k: int, v: u8)
    requires
        0 <= k < s.len(),
    ensures
        unvisited(s.update(k, v)) + (if s[k] == 0 { 1nat } else { 0nat }) == unvisited(s) + (if v == 0 { 1nat } else { 0nat }),
    decreases s.len(),
{
    let t = s.update(k, v);
    if k < s.len() - 1 {
        lemma_unvisited_update(s.drop_last(), k, v);
        assert(t.drop_last() =~= s.drop_last().update(k, v));
    } else {
        assert(t.drop_last() =~= s.drop_last());
    }
}

proof fn lemma_unvisited_bound(s: Seq<u8>)
    ensures
        unvisited(s) <= s.len(),
    decreases s.len(),
{
    if s.len() > 0 {
        lemma_unvisited_bound(s.drop_last());
    }
}

/// `b` differs from `a` at most in the values of pins: the wiring is the
/// same, and every component, `a` itself included, keeps its number of pins
/// and its nesting depth.
pub open spec fn same_frame(a: &ComposedComponent, b: &ComposedComponent) -> bool {
    &&& b.name@ == a.name@
    &&& b.ins@.len() == a.ins@.len()
    &&& b.outs@.len() == a.outs@.len()
    &&& b.dep_map@ == a.dep_map@
    &&& b.connections@ == a.connections@
    &&& b.in_addrs@ == a.in_addrs@
    &&& b.out_addrs@ == a.out_addrs@
    &&& b.components@.len() == a.components@.len()
    &&& forall|k: int|
        0 <= k < a.components@.len() ==> {
            &&& (#[trigger] b.components@[k]).ins_of().len() == a.components@[k].ins_of().len()
            &&& b.components@[k].outs_of().len() == a.components@[k].outs_of().len()
            &&& b.components@[k].depth() == a.components@[k].depth()
        }
}

proof fn lemma_same_frame_keeps(a: &ComposedComponent, b: &ComposedComponent)
    requires
        a.pins_ok(),
        same_frame(a, b),
    ensures
        b.pins_ok(),
        b.depth_c() == a.depth_c(),
{
    let n = a.components@.len();
    assert forall|i: int| 0 <= i < b.in_addrs@.len() implies {
        let x = #[trigger] b.in_addrs@[i];
        x.0 < n && x.1 < b.components@[x.0 as int].ins_of().len()
    } by {
        let x = a.in_addrs@[i];
        assert(b.components@[x.0 as int].ins_of().len() == a.components@[x.0 as int].ins_of().len());
    }
    assert forall|i: int| 0 <= i < b.out_addrs@.len() implies {
        let x = #[trigger] b.out_addrs@[i];
        x.0 < n && x.1 < b.components@[x.0 as int].outs_of().len()
    } by {
        let x = a.out_addrs@[i];
        assert(b.components@[x.0 as int].outs_of().len() == a.components@[x.0 as int].outs_of().len());
    }
    assert forall|i: int| 0 <= i < b.connections@.len() implies {
        let c = #[trigger] b.connections@[i];
        &&& c.from.0 < n && c.from.1 < b.components@[c.from.0 as int].outs_of().len()
        &&& c.to.0 < n && c.to.1 < b.components@[c.to.0 as int].ins_of().len()
    } by {
        let c = a.connections@[i];
        assert(b.components@[c.from.0 as int].outs_of().len() == a.components@[c.from.0 as int].outs_of().len());
        assert(b.components@[c.to.0 as int].ins_of().len() == a.components@[c.to.0 as int].ins_of().len());
    }
    assert forall|k: int| 0 <= k < b.components@.len() implies (#[trigger] b.components@[k]).depth()
        == a.components@[k].depth() by {}
    lemma_seq_depth_same(b.components@, a.components@);
}

/// `b` is `a` with, at most, other values at its input pins.
pub open spec fn same_except_ins(a: AnyComponent, b: AnyComponent) -> bool {
    match (a, b) {
        (AnyComponent::NotGate(x), AnyComponent::NotGate(y)) => y.outs@ == x.outs@ && y.ins@.len() == x.ins@.len(),
        (AnyComponent::AndGate(x), AnyComponent::AndGate(y)) => y.outs@ == x.outs@ && y.ins@.len() == x.ins@.len(),
        (AnyComponent::OrGate(x), AnyComponent::OrGate(y)) => y.outs@ == x.outs@ && y.ins@.len() == x.ins@.len(),
        (AnyComponent::NandGate(x), AnyComponent::NandGate(y)) => y.outs@ == x.outs@ && y.ins@.len() == x.ins@.len(),
        (AnyComponent::NorGate(x), AnyComponent::NorGate(y)) => y.outs@ == x.outs@ && y.ins@.len() == x.ins@.len(),
        (AnyComponent::XorGate(x), AnyComponent::XorGate(y)) => y.outs@ == x.outs@ && y.ins@.len() == x.ins@.len(),
        (AnyComponent::Clock(x), AnyComponent::Clock(y)) => y.outs@ == x.outs@ && y.ins@.len() == x.ins@.len()
            && y.frec_bits == x.frec_bits && y.interval == x.interval,
        (AnyComponent::Const(x), AnyComponent::Const(y)) => y.outs@ == x.outs@ && y.ins@.len() == x.ins@.len(),
        (AnyComponent::Composed(x), AnyComponent::Composed(y)) => {
            &&& y.name@ == x.name@
            &&& y.ins@.len() == x.ins@.len()
            &&& y.outs@ == x.outs@
            &&& y.components@ == x.components@
            &&& y.dep_map@ == x.dep_map@
            &&& y.connections@ == x.connections@
            &&& y.in_addrs@ == x.in_addrs@
            &&& y.out_addrs@ == x.out_addrs@
        },
        _ => false,
    }
}

proof fn lemma_same_except_ins(a: AnyComponent, b: AnyComponent, c: AnyComponent)
    ensures
        same_except_ins(a, a),
        same_except_ins(a, b) && same_except_ins(b, c) ==> same_except_ins(a, c),
        same_except_ins(a, b) ==> b.outs_of() == a.outs_of() && b.ins_of().len() == a.ins_of().len() && b.depth()
            == a.depth() && (a.wf() ==> b.wf()),
{
}

/// The input values of a sub-component, `ins`, after the values of `pend`
/// addressed to it, sub-component `x`, arrive in order.
pub open spec fn apply_pending(ins: Seq<bool>, pend: Seq<(PinAddr, bool)>, x: usize) -> Seq<bool>
    decreases pend.len(),
{
    if pend.len() == 0 {
        ins
    } else {
        let (a, v) = pend[0];
        apply_pending(
            if a.0 == x && a.1 < ins.len() {
                ins.update(a.1 as int, v)
            } else {
                ins
            },
            pend.drop_first(),
            x,
        )
    }
}

/// The values a sub-component `idx` with outputs `outs` sends along the
/// connections of `conns` that leave it, in their order.
pub open spec fn sent(conns: Seq<Conn>, idx: usize, outs: Seq<bool>) -> Seq<(PinAddr, bool)>
    decreases conns.len(),
{
    if conns.len() == 0 {
        Seq::empty()
    } else {
        let r = sent(conns.drop_last(), idx, outs);
        let c = conns.last();
        if c.from.0 == idx {
            r.push((c.to, outs[c.from.1 as int]))
        } else {
            r
        }
    }
}

/// One update of a sub-component during `check_values`: its index, and the
/// sub-component just before and just after.
pub struct SubUpdate {
    pub idx: usize,
    pub before: AnyComponent,
    pub after: AnyComponent,
}

/// The input values of sub-component `x`, from `init`, once the first `j`
/// updates of `log` have sent their values along `conns`.
pub open spec fn pin_vals(init: Seq<bool>, conns: Seq<Conn>, log: Seq<SubUpdate>, j: nat, x: usize) -> Seq<bool>
    decreases j,
{
    if j == 0 {
        init
    } else {
        apply_pending(
            pin_vals(init, conns, log, (j - 1) as nat, x),
            sent(conns, log[j - 1].idx, log[j - 1].after.outs_of()),
            x,
        )
    }
}

/// Sub-component `k` as the first `j` updates of `log` leave it: as its
/// last update among them left it, or `init[k]` when none of them updates it.
pub open spec fn base(init: Seq<AnyComponent>, log: Seq<SubUpdate>, j: nat, k: usize) -> AnyComponent
    decreases j,
{
    if j == 0 {
        init[k as int]
    } else if log[j - 1].idx == k {
        log[j - 1].after
    } else {
        base(init, log, (j - 1) as nat, k)
    }
}

/// There is a chain from `d` to `x` in which each sub-component depends,
/// along the dependency map `dm`, on the next: `d` depends, through the
/// chain, on `x`.
pub open spec fn reaches(dm: Seq<Vec<usize>>, d: usize, x: usize) -> bool {
    exists|path: Seq<usize>|
        {
            &&& path.len() >= 1
            &&& path[0] == d
            &&& path.last() == x
            &&& forall|i: int| 0 <= i < path.len() - 1 ==> (#[trigger] dm[path[i] as int])@.contains(path[i + 1])
        }
}

/// The values given to the sub-components' input pins from the component's
/// inputs: input `i` to the pin `in_addrs[i]`, in order.
pub open spec fn in_writes(c: ComposedComponent) -> Seq<(PinAddr, bool)> {
    Seq::new(c.in_addrs@.len(), |i: int| (c.in_addrs@[i], c.ins@[i]))
}

/// Some update of `log` is of sub-component `k`.
pub open spec fn updated_in(log: Seq<SubUpdate>, k: usize) -> bool {
    exists|j: int| 0 <= j < log.len() && #[trigger] log[j].idx == k
}

/// The update `e`, at `j` of `log`, made by `check_values` on `c0` from the
/// sub-components `init`, is the `UpdateValues` of a sub-component whose
/// input pins hold the values the earlier updates sent along the connections
/// (the last one to each pin), and is made once every sub-component it
/// depends on has been updated before it, unless that one itself depends,
/// through a chain, on the updated one (a cycle).
pub open spec fn event_ok(c0: ComposedComponent, init: Seq<AnyComponent>, log: Seq<SubUpdate>, j: int, e: SubUpdate) -> bool
    decreases c0.depth_c(), 0nat,
{
    &&& e.idx < c0.components@.len()
    &&& e.before.wf()
    &&& e.before.depth() < c0.depth_c()
    &&& handled(e.before, e.after, CompEvent::UpdateValues)
    &&& same_except_ins(base(init, log, j as nat, e.idx), e.before)
    &&& e.before.ins_of() == pin_vals(init[e.idx as int].ins_of(), c0.connections@, log, j as nat, e.idx)
    &&& forall|d: usize|
        #[trigger] c0.dep_map@[e.idx as int]@.contains(d) ==> (exists|j2: int| 0 <= j2 < j && log[j2].idx == d)
            || reaches(c0.dep_map@, d, e.idx)
}

/// Every update of `log` is as `event_ok` says.
pub open spec fn log_ok(c0: ComposedComponent, init: Seq<AnyComponent>, log: Seq<SubUpdate>) -> bool
    decreases c0.depth_c(), 1nat,
{
    forall|j: int| 0 <= j < log.len() ==> event_ok(c0, init, log, j, #[trigger] log[j])
}

/// `init` is the sub-components of `c0` with the component's inputs given to
/// the pins bound to them.
pub open spec fn inputs_given(c0: ComposedComponent, init: Seq<AnyComponent>) -> bool {
    &&& init.len() == c0.components@.len()
    &&& forall|k: int|
        0 <= k < init.len() ==> same_except_ins(c0.components@[k], #[trigger] init[k]) && init[k].ins_of()
            == apply_pending(c0.components@[k].ins_of(), in_writes(c0), k as usize)
}

/// `c1` is `c0` after `check_values` gave the component's inputs to the
/// sub-components, giving `init`, and then made the updates of `log`
/// (`event_ok`): every sub-component is updated at least once, there are at
/// most twice as many updates as sub-components, and each sub-component of
/// `c1` is as its last update left it.
pub open spec fn values_checked(c0: ComposedComponent, c1: ComposedComponent, init: Seq<AnyComponent>, log: Seq<
    SubUpdate,
>) -> bool
    decreases c0.depth_c(), 2nat,
{
    let n = c0.components@.len();
    &&& inputs_given(c0, init)
    &&& log_ok(c0, init, log)
    &&& forall|k: usize| k < n ==> #[trigger] updated_in(log, k)
    &&& log.len() <= 2 * n
    &&& forall|k: int| 0 <= k < n ==> #[trigger] c1.components@[k] == base(init, log, log.len(), k as usize)
}

/// No sub-component depends, through a chain of dependencies, on itself:
/// no sub-component `x` depends on leads back, through a chain, to `x`.
pub open spec fn acyclic(dm: Seq<Vec<usize>>) -> bool {
    forall|x: usize, d: usize| #[trigger] dm[x as int]@.contains(d) && x < dm.len() ==> !reaches(dm, d, x)
}

/// With a dependency map free of cycles, `check_values` updates each
/// sub-component only after every sub-component it depends on has been
/// updated, so each update reads the values its sources sent.
pub proof fn lemma_acyclic_updates_in_order(
    c0: ComposedComponent,
    c1: ComposedComponent,
    init: Seq<AnyComponent>,
    log: Seq<SubUpdate>,
)
    requires
        values_checked(c0, c1, init, log),
        acyclic(c0.dep_map@),
        c0.dep_map@.len() == c0.components@.len(),
    ensures
        forall|j: int, d: usize|
            0 <= j < log.len() && #[trigger] c0.dep_map@[log[j].idx as int]@.contains(d) ==> exists|j2: int|
                0 <= j2 < j && #[trigger] log[j2].idx == d,
{
    assert forall|j: int, d: usize|
        0 <= j < log.len() && #[trigger] c0.dep_map@[log[j].idx as int]@.contains(d) implies exists|j2: int|
            0 <= j2 < j && #[trigger] log[j2].idx == d by {
        assert(event_ok(c0, init, log, j, log[j]));
        assert(!reaches(c0.dep_map@, d, log[j].idx));
    }
}

proof fn lemma_apply_concat(ins: Seq<bool>, p: Seq<(PinAddr, bool)>, q: Seq<(PinAddr, bool)>, x: usize)
    ensures
        apply_pending(ins, p + q, x) == apply_pending(apply_pending(ins, p, x), q, x),
        apply_pending(ins, p, x).len() == ins.len(),
    decreases p.len(),
{
    if p.len() > 0 {
        let (a, v) = p[0];
        let ins2 = if a.0 == x && a.1 < ins.len() {
            ins.update(a.1 as int, v)
        } else {
            ins
        };
        assert((p + q).drop_first() =~= p.drop_first() + q);
        assert((p + q)[0] == p[0]);
        lemma_apply_concat(ins2, p.drop_first(), q, x);
    } else {
        assert(p + q =~= q);
    }
}

/// Values none of which is addressed to `x` leave its inputs as they are.
proof fn lemma_apply_none(ins: Seq<bool>, p: Seq<(PinAddr, bool)>, x: usize)
    requires
        forall|i: int| 0 <= i < p.len() ==> (#[trigger] p[i]).0.0 != x,
    ensures
        apply_pending(ins, p, x) == ins,
    decreases p.len(),
{
    if p.len() > 0 {
        assert forall|i: int| 0 <= i < p.drop_first().len() implies (#[trigger] p.drop_first()[i]).0.0 != x by {
            assert(p.drop_first()[i] == p[i + 1]);
        }
        assert(p[0].0.0 != x);
        lemma_apply_none(ins, p.drop_first(), x);
    }
}

/// Taking out, and delivering first, the value at `j` addressed to `x`,
/// when none before it is addressed to `x`, changes nothing in the end.
proof fn lemma_apply_take(ins: Seq<bool>, p: Seq<(PinAddr, bool)>, j: int, x: usize)
    requires
        0 <= j < p.len(),
        p[j].0.0 == x,
        p[j].0.1 < ins.len(),
        forall|i: int| 0 <= i < j ==> (#[trigger] p[i]).0.0 != x,
    ensures
        apply_pending(ins, p, x) == apply_pending(ins.update(p[j].0.1 as int, p[j].1), p.remove(j), x),
    decreases j,
{
    if j == 0 {
        assert(p.remove(0) =~= p.drop_first());
    } else {
        assert(p[0].0.0 != x);
        let q = p.drop_first();
        assert forall|i: int| 0 <= i < j - 1 implies (#[trigger] q[i]).0.0 != x by {
            assert(q[i] == p[i + 1]);
        }
        assert(q[j - 1] == p[j]);
        lemma_apply_take(ins, q, j - 1, x);
        assert(p.remove(j).drop_first() =~= q.remove(j - 1));
        assert(p.remove(j)[0] == p[0]);
    }
}

/// Dropping a value addressed elsewhere does not change what reaches `x`.
proof fn lemma_apply_drop_other(ins: Seq<bool>, p: Seq<(PinAddr, bool)>, j: int, x: usize)
    requires
        0 <= j < p.len(),
        p[j].0.0 != x,
    ensures
        apply_pending(ins, p, x) == apply_pending(ins, p.remove(j), x),
    decreases j,
{
    if j == 0 {
        assert(p.remove(0) =~= p.drop_first());
    } else {
        let (a, v) = p[0];
        let ins2 = if a.0 == x && a.1 < ins.len() {
            ins.update(a.1 as int, v)
        } else {
            ins
        };
        let q = p.drop_first();
        assert(q[j - 1] == p[j]);
        lemma_apply_drop_other(ins2, q, j - 1, x);
        assert(p.remove(j).drop_first() =~= q.remove(j - 1));
        assert(p.remove(j)[0] == p[0]);
    }
}

/// The first `j` entries of a log decide what the log says up to `j`.
proof fn lemma_log_prefix(init: Seq<AnyComponent>, initv: Seq<bool>, conns: Seq<Conn>, log: Seq<SubUpdate>, e: SubUpdate, j: nat, k: usize)
    requires
        j <= log.len(),
    ensures
        base(init, log.push(e), j, k) == base(init, log, j, k),
        pin_vals(initv, conns, log.push(e), j, k) == pin_vals(initv, conns, log, j, k),
    decreases j,
{
    if j > 0 {
        assert(log.push(e)[j - 1] == log[j - 1]);
        lemma_log_prefix(init, initv, conns, log, e, (j - 1) as nat, k);
    }
}

impl AnyComponent {
    /// Sets input pin `idx` to `val`.
    pub fn set_in(&mut self, idx: usize, val: bool)
        requires
            old(self).wf(),
            idx < old(self).ins_of().len(),
        ensures
            final(self).wf(),
            final(self).ins_of() == old(self).ins_of().update(idx as int, val),
            final(self).outs_of() == old(self).outs_of(),
            final(self).depth() == old(self).depth(),
            same_except_ins(*old(self), *final(self)),
    {
        match self {
            AnyComponent::NotGate(g) => g.ins.set(idx, val),
            AnyComponent::AndGate(g) => g.ins.set(idx, val),
            AnyComponent::OrGate(g) => g.ins.set(idx, val),
            AnyComponent::NandGate(g) => g.ins.set(idx, val),
            AnyComponent::NorGate(g) => g.ins.set(idx, val),
            AnyComponent::XorGate(g) => g.ins.set(idx, val),
            AnyComponent::Clock(g) => g.ins.set(idx, val),
            AnyComponent::Const(g) => g.ins.set(idx, val),
            AnyComponent::Composed(g) => g.ins.set(idx, val),
        }
    }

    /// Value of output pin `idx`.
    pub fn outs_at(&self, idx: usize) -> (b: bool)
        requires
            idx < self.outs_of().len(),
        ensures
            b == self.outs_of()[idx as int],
    {
        match self {
            AnyComponent::NotGate(g) => g.outs[idx],
            AnyComponent::AndGate(g) => g.outs[idx],
            AnyComponent::OrGate(g) => g.outs[idx],
            AnyComponent::NandGate(g) => g.outs[idx],
            AnyComponent::NorGate(g) => g.outs[idx],
            AnyComponent::XorGate(g) => g.outs[idx],
            AnyComponent::Clock(g) => g.outs[idx],
            AnyComponent::Const(g) => g.outs[idx],
            AnyComponent::Composed(g) => g.outs[idx],
        }
    }

    /// Handles `event`: the inputs, the number of outputs and the nesting
    /// depth stay as they were, and the outputs change as `handled` says.
    pub fn handle(&mut self, event: &CompEvent)
        requires
            old(self).wf(),
        ensures
            final(self).wf(),
            handled(*old(self), *final(self), *event),
            final(self).ins_of() == old(self).ins_of(),
            final(self).outs_of().len() == old(self).outs_of().len(),
            final(self).depth() == old(self).depth(),
        decreases old(self).depth(), 2nat,
    {
        let ghost c0 = *self;
        match self {
            AnyComponent::NotGate(g) => g.on_event(event),
            AnyComponent::AndGate(g) => g.on_event(event),
            AnyComponent::OrGate(g) => g.on_event(event),
            AnyComponent::NandGate(g) => g.on_event(event),
            AnyComponent::NorGate(g) => g.on_event(event),
            AnyComponent::XorGate(g) => g.on_event(event),
            AnyComponent::Clock(g) => g.on_event(event),
            AnyComponent::Const(g) => g.on_event(event),
            AnyComponent::Composed(c) => {
                let ghost c0 = *c;
                c.handle_event(event);
                proof {
                    lemma_same_frame_keeps(&c0, c);
                    if *event == CompEvent::UpdateValues {
                        let (init, log) = choose|init: Seq<AnyComponent>, log: Seq<SubUpdate>|
                            values_checked(c0, *c, init, log);
                        assert(values_checked(c0, *c, init, log));
                        assert(init.len() == c0.components@.len() && log.len() <= 2 * init.len());
                    } else {
                        assert forall|k: int|
                            0 <= k < c0.components@.len() && (#[trigger] c0.components@[k]).depth() < c0.depth_c()
                                implies handled(c0.components@[k], c.components@[k], *event) by {}
                    }
                    assert(handled(AnyComponent::Composed(c0), AnyComponent::Composed(*c), *event));
                }
            },
        }
        proof {
            assert(handled(c0, *self, *event));
        }
    }
}

/// The outputs of `c1` are those of `c0` after `e`, for a gate, a clock or
/// a constant. A composed component keeps its frame and inputs; after
/// `UpdateValues` its sub-components have been brought up to date as
/// `values_checked` says and each output read from the pin bound to it;
/// after `Update` every sub-component (each of them shallower than the
/// component) has handled the event in turn, at every depth, and the
/// outputs are as they were.
pub open spec fn handled(c0: AnyComponent, c1: AnyComponent, e: CompEvent) -> bool
    decreases c0.depth(), 3nat,
{
    match (c0, c1) {
        (AnyComponent::NotGate(a), AnyComponent::NotGate(b)) => b.outs@ == match e {
            CompEvent::UpdateValues => a.outs@.update(0, !a.ins@[0]),
            CompEvent::Update(_) => a.outs@,
        },
        (AnyComponent::AndGate(a), AnyComponent::AndGate(b)) => b.outs@ == match e {
            CompEvent::UpdateValues => a.outs@.update(0, a.gate_value()),
            CompEvent::Update(_) => a.outs@,
        },
        (AnyComponent::OrGate(a), AnyComponent::OrGate(b)) => b.outs@ == match e {
            CompEvent::UpdateValues => a.outs@.update(0, a.gate_value()),
            CompEvent::Update(_) => a.outs@,
        },
        (AnyComponent::NandGate(a), AnyComponent::NandGate(b)) => b.outs@ == match e {
            CompEvent::UpdateValues => a.outs@.update(0, a.gate_value()),
            CompEvent::Update(_) => a.outs@,
        },
        (AnyComponent::NorGate(a), AnyComponent::NorGate(b)) => b.outs@ == match e {
            CompEvent::UpdateValues => a.outs@.update(0, a.gate_value()),
            CompEvent::Update(_) => a.outs@,
        },
        (AnyComponent::XorGate(a), AnyComponent::XorGate(b)) => b.outs@ == match e {
            CompEvent::UpdateValues => a.outs@.update(0, a.gate_value()),
            CompEvent::Update(_) => a.outs@,
        },
        (AnyComponent::Clock(a), AnyComponent::Clock(b)) => b.outs@ == match e {
            CompEvent::Update(t) => a.outs@.update(0, a.level_at(t)),
            CompEvent::UpdateValues => a.outs@,
        },
        (AnyComponent::Const(a), AnyComponent::Const(b)) => b.outs@ == a.outs@,
        (AnyComponent::Composed(a), AnyComponent::Composed(b)) => {
            &&& same_frame(&a, &b)
            &&& b.ins@ == a.ins@
            &&& match e {
                CompEvent::UpdateValues => {
                    &&& forall|i: int|
                        0 <= i < b.outs@.len() ==> #[trigger] b.outs@[i]
                            == b.components@[b.out_addrs@[i].0 as int].outs_of()[b.out_addrs@[i].1 as int]
                    &&& exists|init: Seq<AnyComponent>, log: Seq<SubUpdate>|
                        #![trigger init.len(), log.len()]
                        init.len() == a.components@.len() && log.len() <= 2 * init.len() && values_checked(a, b, init, log)
                },
                CompEvent::Update(_) => {
                    &&& b.outs@ == a.outs@
                    &&& forall|k: int|
                        0 <= k < a.components@.len() && (#[trigger] a.components@[k]).depth() < a.depth_c()
                            ==> handled(a.components@[k], b.components@[k], e)
                },
            }
        },
        _ => false,
    }
}

impl ComposedComponent {
    /// On `UpdateValues` the sub-components are brought up to date (see
    /// `check_values`); other events go to every sub-component.
    fn handle_event(&mut self, event: &CompEvent)
        requires
            old(self).wf_c(),
        ensures
            final(self).wf_c(),
            same_frame(old(self), final(self)),
            final(self).ins@ == old(self).ins@,
            *event == CompEvent::UpdateValues ==> forall|i: int|
                0 <= i < final(self).outs@.len() ==> #[trigger] final(self).outs@[i]
                    == final(self).components@[final(self).out_addrs@[i].0 as int].outs_of()[final(self).out_addrs@[i].1 as int],
            *event == CompEvent::UpdateValues ==> exists|init: Seq<AnyComponent>, log: Seq<SubUpdate>|
                values_checked(*old(self), *final(self), init, log),
            *event is Update ==> final(self).outs@ == old(self).outs@ && forall|k: int|
                0 <= k < old(self).components@.len() ==> handled(
                    #[trigger] old(self).components@[k],
                    final(self).components@[k],
                    *event,
                ),
        decreases old(self).depth_c(), 1nat,
    {
        match event {
            CompEvent::UpdateValues => {
                let log = self.check_values();
                proof {
                    assert(values_checked(*old(self), *self, log@.0, log@.1));
                }
            },
            CompEvent::Update(_) => {
                let mut k: usize = 0;
                while k < self.components.len()
                    invariant
                        k <= self.components.len(),
                        old(self).wf_c(),
                        same_frame(old(self), self),
                        self.ins@ == old(self).ins@,
                        self.outs@ == old(self).outs@,
                        forall|j: int| 0 <= j < self.components@.len() ==> (#[trigger] self.components@[j]).wf(),
                        forall|j: int| 0 <= j < k ==> handled(#[trigger] old(self).components@[j], self.components@[j], *event),
                        forall|j: int| k <= j < self.components@.len() ==> #[trigger] self.components@[j] == old(self).components@[j],
                    decreases self.components.len() - k,
                {
                    proof {
                        lemma_seq_depth_bound(old(self).components@, k as int);
                    }
                    let ghost before = self.components@;
                    self.components[k].handle(event);
                    proof {
                        assert(self.components@ =~= before.update(k as int, self.components@[k as int]));
                    }
                    k = k + 1;
                }
                proof {
                    lemma_same_frame_keeps(old(self), self);
                }
            },
        }
    }

    /// Gives the component's inputs to the sub-component pins bound to them,
    /// then updates the sub-components walking the dependency map depth
    /// first: a sub-component is updated once none of the sub-components it
    /// depends on waits for its first visit, the values it sends along its
    /// connections reaching their targets when those are next visited.
    /// Finally the outputs are read from the pins bound to them. See
    /// `values_checked`.
    #[verifier::rlimit(50)]
    fn check_values(&mut self) -> (log: Ghost<(Seq<AnyComponent>, Seq<SubUpdate>)>)
        requires
            old(self).wf_c(),
        ensures
            final(self).wf_c(),
            same_frame(old(self), final(self)),
            final(self).ins@ == old(self).ins@,
            forall|i: int|
                0 <= i < final(self).outs@.len() ==> #[trigger] final(self).outs@[i]
                    == final(self).components@[final(self).out_addrs@[i].0 as int].outs_of()[final(self).out_addrs@[i].1 as int],
            values_checked(*old(self), *final(self), log@.0, log@.1),
        decreases old(self).depth_c(), 0nat,
    {
        let n = self.components.len();
        let ghost c0 = *self;
        let ghost conns = self.connections@;
        // Set the inputs.
        let mut i: usize = 0;
        proof {
            assert forall|k: int| 0 <= k < n implies apply_pending(
                c0.components@[k].ins_of(),
                in_writes(c0).take(0),
                k as usize,
            ) == self.components@[k].ins_of() by {}
        }
        while i < self.in_addrs.len()
            invariant
                i <= self.in_addrs.len(),
                old(self).wf_c(),
                c0 == *old(self),
                same_frame(old(self), self),
                self.ins@ == old(self).ins@,
                self.in_addrs@ == c0.in_addrs@,
                n == self.components@.len(),
                forall|j: int| 0 <= j < self.components@.len() ==> (#[trigger] self.components@[j]).wf(),
                forall|k: int|
                    0 <= k < n ==> same_except_ins(c0.components@[k], #[trigger] self.components@[k])
                        && self.components@[k].ins_of() == apply_pending(
                        c0.components@[k].ins_of(),
                        in_writes(c0).take(i as int),
                        k as usize,
                    ),
            decreases self.in_addrs.len() - i,
        {
            proof {
                lemma_same_frame_keeps(old(self), self);
            }
            let pin = self.in_addrs[i];
            let v = self.ins[i];
            let ghost before = self.components@;
            self.components[idx_of(pin)].set_in(addr_of(pin), v);
            proof {
                let w = in_writes(c0);
                assert(w[i as int] == (pin, v));
                assert(w.take(i as int + 1) =~= w.take(i as int) + seq![(pin, v)]);
                assert forall|k: int| 0 <= k < n implies same_except_ins(c0.components@[k], #[trigger] self.components@[k])
                    && self.components@[k].ins_of() == apply_pending(
                    c0.components@[k].ins_of(),
                    in_writes(c0).take(i as int + 1),
                    k as usize,
                ) by {
                    lemma_apply_concat(c0.components@[k].ins_of(), w.take(i as int), seq![(pin, v)], k as usize);
                    let s1 = seq![(pin, v)];
                    assert(s1.drop_first() =~= Seq::<(PinAddr, bool)>::empty());
                    assert(s1[0] == (pin, v));
                    let mid = apply_pending(c0.components@[k].ins_of(), w.take(i as int), k as usize);
                    assert(mid == before[k].ins_of());
                    assert(apply_pending(Seq::<bool>::empty(), Seq::<(PinAddr, bool)>::empty(), k as usize) == Seq::<bool>::empty());
                    if k == pin.0 as int {
                        assert(apply_pending(mid, s1, k as usize) == apply_pending(mid.update(pin.1 as int, v), s1.drop_first(), k as usize));
                        lemma_same_except_ins(c0.components@[k], before[k], self.components@[k]);
                    } else {
                        assert(apply_pending(mid, s1, k as usize) == apply_pending(mid, s1.drop_first(), k as usize));
                        assert(self.components@[k] == before[k]);
                        lemma_same_except_ins(c0.components@[k], before[k], self.components@[k]);
                    }
                }
            }
            i = i + 1;
        }
        proof {
            lemma_same_frame_keeps(old(self), self);
            assert(in_writes(c0).take(self.in_addrs@.len() as int) =~= in_writes(c0));
        }
        let ghost init = self.components@;
        proof {
            assert(inputs_given(c0, init));
        }
        let ghost mut log: Seq<SubUpdate> = Seq::empty();
        let mut i: usize = 0;
        let mut visits: Vec<u8> = Vec::new();
        while visits.len() < n
            invariant
                visits.len() <= n,
                forall|j: int| 0 <= j < visits.len() ==> visits@[j] == 0,
            decreases n - visits.len(),
        {
            visits.push(0);
        }
        let mut new_inputs: Vec<(PinAddr, bool)> = Vec::new();
        let mut stack: Vec<usize> = Vec::new();
        proof {
            assert forall|k: int| 0 <= k < n implies apply_pending((#[trigger] self.components@[k]).ins_of(), new_inputs@, k as usize)
                == pin_vals(init[k].ins_of(), conns, log, log.len(), k as usize) by {}
            assert forall|k: int| 0 <= k < n implies (if stack@.contains(k as usize) {
                same_except_ins(base(init, log, log.len(), k as usize), #[trigger] self.components@[k])
            } else {
                self.components@[k] == base(init, log, log.len(), k as usize)
            }) by {}
            assert(unvisited(visits@) <= n) by {
                lemma_unvisited_bound(visits@);
            }
        }
        while !stack.is_empty() || i < n
            invariant
                n == self.components@.len(),
                old(self).wf_c(),
                c0 == *old(self),
                conns == c0.connections@,
                same_frame(old(self), self),
                self.pins_ok(),
                self.ins@ == old(self).ins@,
                forall|j: int| 0 <= j < self.components@.len() ==> (#[trigger] self.components@[j]).wf(),
                visits@.len() == n,
                i <= n,
                forall|j: int| 0 <= j < stack@.len() ==> #[trigger] stack@[j] < n,
                forall|j: int|
                    0 <= j < new_inputs@.len() ==> {
                        let p = (#[trigger] new_inputs@[j]).0;
                        p.0 < n && p.1 < self.components@[p.0 as int].ins_of().len()
                    },
                inputs_given(c0, init),
                log_ok(c0, init, log),
                forall|k: int|
                    0 <= k < n ==> apply_pending((#[trigger] self.components@[k]).ins_of(), new_inputs@, k as usize)
                        == pin_vals(init[k].ins_of(), conns, log, log.len(), k as usize),
                forall|k: int|
                    0 <= k < n ==> if stack@.contains(k as usize) {
                        same_except_ins(base(init, log, log.len(), k as usize), #[trigger] self.components@[k])
                    } else {
                        self.components@[k] == base(init, log, log.len(), k as usize)
                    },
                forall|k: int| 0 <= k < n && #[trigger] visits@[k] == 2 ==> updated_in(log, k as usize),
                forall|k: int| 0 <= k < n && #[trigger] visits@[k] == 1 ==> stack@.contains(k as usize),
                forall|k: int| 0 <= k < n ==> #[trigger] visits@[k] <= 2,
                forall|a: int|
                    0 <= a < stack@.len() - 1 ==> (#[trigger] c0.dep_map@[stack@[a] as int])@.contains(stack@[a + 1]),
                forall|k: usize| k < i ==> updated_in(log, k) || stack@.contains(k),
                log.len() + stack@.len() <= (n - unvisited(visits@)) + i,
                unvisited(visits@) <= n,
            decreases 2 * ((n - i) + unvisited(visits@)) + stack@.len(),
        {
            let ghost m0: int = 2 * ((n - i) + unvisited(visits@)) + stack@.len();
            if stack.is_empty() {
                let ghost stack0 = stack@;
                stack.push(i);
                proof {
                    assert(stack@ =~= seq![i]);
                    assert(stack@[0] == i);
                    assert forall|k: int| 0 <= k < n implies (if stack@.contains(k as usize) {
                        same_except_ins(base(init, log, log.len(), k as usize), #[trigger] self.components@[k])
                    } else {
                        self.components@[k] == base(init, log, log.len(), k as usize)
                    }) by {
                        assert(!stack0.contains(k as usize));
                        lemma_same_except_ins(self.components@[k], self.components@[k], self.components@[k]);
                    }
                    assert forall|k: usize| k < i + 1 implies updated_in(log, k) || stack@.contains(k) by {
                        if k == i {
                            assert(stack@[0] == k);
                        }
                    }
                    assert forall|k: int| 0 <= k < n && #[trigger] visits@[k] == 1 implies stack@.contains(k as usize) by {
                        assert(stack0.contains(k as usize));
                    }
                }
                i += 1;
                while i < n && visits[i] == 2
                    invariant
                        i <= n,
                        visits@.len() == n,
                        2 * ((n - i) + unvisited(visits@)) + stack@.len() < m0,
                        forall|k: usize| k < i ==> updated_in(log, k) || stack@.contains(k),
                        forall|k: int| 0 <= k < n && #[trigger] visits@[k] == 2 ==> updated_in(log, k as usize),
                        log.len() + stack@.len() <= (n - unvisited(visits@)) + i,
                    decreases n - i,
                {
                    proof {
                        assert(visits@[i as int] == 2);
                    }
                    i += 1;
                }
            }
            let ghost m1: int = 2 * ((n - i) + unvisited(visits@)) + stack@.len();
            assert(m1 <= m0);
            let idx = stack[stack.len() - 1];
            proof {
                assert(stack@.contains(idx));
            }
            // Deliver the values waiting for this component.
            let mut j: usize = 0;
            while j < new_inputs.len()
                invariant
                    j <= new_inputs@.len(),
                    idx < n,
                    stack@.contains(idx),
                    n == self.components@.len(),
                    old(self).wf_c(),
                    same_frame(old(self), self),
                    self.pins_ok(),
                    self.ins@ == old(self).ins@,
                    forall|k: int| 0 <= k < self.components@.len() ==> (#[trigger] self.components@[k]).wf(),
                    forall|k: int|
                        0 <= k < new_inputs@.len() ==> {
                            let p = (#[trigger] new_inputs@[k]).0;
                            p.0 < n && p.1 < self.components@[p.0 as int].ins_of().len()
                        },
                    forall|k: int| 0 <= k < j ==> (#[trigger] new_inputs@[k]).0.0 != idx,
                    forall|k: int|
                        0 <= k < n ==> apply_pending((#[trigger] self.components@[k]).ins_of(), new_inputs@, k as usize)
                            == pin_vals(init[k].ins_of(), conns, log, log.len(), k as usize),
                    forall|k: int|
                        0 <= k < n ==> if stack@.contains(k as usize) {
                            same_except_ins(base(init, log, log.len(), k as usize), #[trigger] self.components@[k])
                        } else {
                            self.components@[k] == base(init, log, log.len(), k as usize)
                        },
                decreases new_inputs@.len() - j,
            {
                let (pin, val) = new_inputs[j];
                if idx_of(pin) == idx {
                    let ghost before = self.components@;
                    let ghost pend = new_inputs@;
                    proof {
                        assert(new_inputs@[j as int].0 == pin);
                    }
                    self.components[idx].set_in(addr_of(pin), val);
                    let _ = new_inputs.remove(j);
                    proof {
                        lemma_same_frame_keeps(old(self), self);
                        assert forall|k: int| 0 <= k < n implies apply_pending(
                            (#[trigger] self.components@[k]).ins_of(),
                            new_inputs@,
                            k as usize,
                        ) == pin_vals(init[k].ins_of(), conns, log, log.len(), k as usize) by {
                            if k == idx {
                                lemma_apply_take(before[k].ins_of(), pend, j as int, idx);
                            } else {
                                lemma_apply_drop_other(before[k].ins_of(), pend, j as int, k as usize);
                            }
                        }
                        assert forall|k: int| 0 <= k < n implies if stack@.contains(k as usize) {
                            same_except_ins(base(init, log, log.len(), k as usize), #[trigger] self.components@[k])
                        } else {
                            self.components@[k] == base(init, log, log.len(), k as usize)
                        } by {
                            if k == idx {
                                lemma_same_except_ins(base(init, log, log.len(), k as usize), before[k], self.components@[k]);
                            }
                        }
                        assert forall|k: int| 0 <= k < new_inputs@.len() implies {
                            let p = (#[trigger] new_inputs@[k]).0;
                            p.0 < n && p.1 < self.components@[p.0 as int].ins_of().len()
                        } by {
                            if k < j {
                                assert(new_inputs@[k] == pend[k]);
                            } else {
                                assert(new_inputs@[k] == pend[k + 1]);
                            }
                        }
                        assert forall|k: int| 0 <= k < j implies (#[trigger] new_inputs@[k]).0.0 != idx by {
                            assert(new_inputs@[k] == pend[k]);
                        }
                    }
                    continue;
                }
                j += 1;
            }
            proof {
                lemma_apply_none(self.components@[idx as int].ins_of(), new_inputs@, idx);
            }
            // The first dependency still waiting for its first visit goes on
            // the stack; with none, the component is ready.
            let mut waiting: Option<usize> = None;
            let mut d: usize = 0;
            while d < self.dep_map[idx].len()
                invariant
                    d <= self.dep_map@[idx as int]@.len(),
                    idx < n,
                    n == self.components@.len(),
                    self.pins_ok(),
                    visits@.len() == n,
                    waiting is None ==> forall|q: int| 0 <= q < d ==> visits@[#[trigger] self.dep_map@[idx as int]@[q] as int] != 0,
                    waiting matches Some(w) ==> (w < n && visits@[w as int] == 0 && self.dep_map@[idx as int]@.contains(w)),
                decreases self.dep_map@[idx as int]@.len() - d,
            {
                let dep = self.dep_map[idx][d];
                if waiting.is_none() && visits[dep] == 0 {
                    waiting = Some(dep);
                    proof {
                        assert(self.dep_map@[idx as int]@[d as int] == dep);
                    }
                }
                d += 1;
            }
            match waiting {
                Some(dep) => {
                    proof {
                        lemma_unvisited_update(visits@, dep as int, 1);
                    }
                    let ghost stack0 = stack@;
                    let ghost vb = visits@;
                    stack.push(dep);
                    visits.set(dep, 1);
                    proof {
                        assert(stack@.drop_last() =~= stack0);
                        assert(stack@[stack@.len() - 1] == dep);
                        assert(stack0[stack0.len() - 1] == idx);
                        assert forall|k: usize| stack0.contains(k) implies #[trigger] stack@.contains(k) by {
                            let w = choose|w: int| 0 <= w < stack0.len() && stack0[w] == k;
                            assert(stack@[w] == k);
                        }
                        assert(stack@.contains(dep));
                        assert forall|a: int|
                            0 <= a < stack@.len() - 1 implies (#[trigger] c0.dep_map@[stack@[a] as int])@.contains(stack@[a + 1]) by {
                            if a == stack@.len() - 2 {
                                assert(stack@[a] == idx);
                            } else {
                                assert(stack@[a] == stack0[a] && stack@[a + 1] == stack0[a + 1]);
                            }
                        }
                        assert forall|k: int| 0 <= k < n implies (if stack@.contains(k as usize) {
                            same_except_ins(base(init, log, log.len(), k as usize), #[trigger] self.components@[k])
                        } else {
                            self.components@[k] == base(init, log, log.len(), k as usize)
                        }) by {
                            lemma_same_except_ins(self.components@[k], self.components@[k], self.components@[k]);
                            if stack@.contains(k as usize) && k != dep {
                                let w = choose|w: int| 0 <= w < stack@.len() && stack@[w] == k as usize;
                                assert(stack0[w] == k);
                            }
                        }
                        assert forall|k: int| 0 <= k < n && #[trigger] visits@[k] == 1 implies stack@.contains(k as usize) by {
                            if k != dep {
                                assert(vb[k] == 1);
                            }
                        }
                        assert forall|k: int| 0 <= k < n && #[trigger] visits@[k] == 2 implies updated_in(log, k as usize) by {
                            assert(vb[k] == 2);
                        }
                        assert forall|k: usize| k < i implies updated_in(log, k) || stack@.contains(k) by {}
                        lemma_unvisited_bound(visits@);
                    }
                },
                None => {
                    proof {
                        lemma_seq_depth_bound(old(self).components@, idx as int);
                    }
                    let ghost before = self.components@[idx as int];
                    let ghost comps0 = self.components@;
                    let ghost pend0 = new_inputs@;
                    let ghost vb = visits@;
                    self.components[idx].handle(&CompEvent::UpdateValues);
                    let ghost after = self.components@[idx as int];
                    let ghost e = SubUpdate { idx, before, after };
                    proof {
                        lemma_same_frame_keeps(old(self), self);
                        lemma_unvisited_update(visits@, idx as int, 2);
                    }
                    visits.set(idx, 2);
                    let mut c: usize = 0;
                    while c < self.connections.len()
                        invariant
                            c <= self.connections@.len(),
                            idx < n,
                            n == self.components@.len(),
                            self.pins_ok(),
                            self.connections@ == conns,
                            self.components@[idx as int] == after,
                            new_inputs@ == pend0 + sent(conns.take(c as int), idx, after.outs_of()),
                            forall|k: int|
                                0 <= k < new_inputs@.len() ==> {
                                    let p = (#[trigger] new_inputs@[k]).0;
                                    p.0 < n && p.1 < self.components@[p.0 as int].ins_of().len()
                                },
                        decreases self.connections@.len() - c,
                    {
                        let conn = self.connections[c];
                        proof {
                            assert(self.connections@[c as int] == conn);
                            assert(conns.take(c as int + 1).drop_last() =~= conns.take(c as int));
                            assert(conns.take(c as int + 1).last() == conn);
                        }
                        if idx_of(conn.from) == idx {
                            let val = self.components[idx].outs_at(addr_of(conn.from));
                            new_inputs.push((conn.to, val));
                        }
                        proof {
                            assert(new_inputs@ =~= pend0 + sent(conns.take(c as int + 1), idx, after.outs_of()));
                        }
                        c += 1;
                    }
                    let ghost stack0 = stack@;
                    let _ = stack.pop();
                    proof {
                        let lg = log;
                        let len = lg.len();
                        let lg2 = lg.push(e);
                        assert(lg2[len as int] == e);
                        assert(conns.take(conns.len() as int) =~= conns);
                        assert(self.components@ =~= comps0.update(idx as int, after));
                        assert(stack0[stack0.len() - 1] == idx);
                        assert(stack@ =~= stack0.drop_last());
                        assert forall|k: usize| #[trigger] stack0.contains(k) && k != idx implies stack@.contains(k) by {
                            let w = choose|w: int| 0 <= w < stack0.len() && stack0[w] == k;
                            assert(w != stack0.len() - 1);
                            assert(stack@[w] == k);
                        }
                        assert forall|k: usize| #[trigger] stack@.contains(k) implies stack0.contains(k) by {
                            let w = choose|w: int| 0 <= w < stack@.len() && stack@[w] == k;
                            assert(stack0[w] == k);
                        }
                        // The log, with the new update, is still as it should be.
                        assert forall|j2: int| 0 <= j2 < lg2.len() implies event_ok(c0, init, lg2, j2, #[trigger] lg2[j2]) by {
                            if j2 < len {
                                assert(event_ok(c0, init, lg, j2, lg[j2]));
                                assert(lg2[j2] == lg[j2]);
                                lemma_log_prefix(init, init[lg[j2].idx as int].ins_of(), conns, lg, e, j2 as nat, lg[j2].idx);
                                assert forall|d2: usize| #[trigger] c0.dep_map@[lg[j2].idx as int]@.contains(d2)
                                    implies (exists|j3: int| 0 <= j3 < j2 && lg2[j3].idx == d2) || reaches(c0.dep_map@, d2, lg[j2].idx) by {
                                    if !reaches(c0.dep_map@, d2, lg[j2].idx) {
                                        let j3 = choose|j3: int| 0 <= j3 < j2 && lg[j3].idx == d2;
                                        assert(lg2[j3] == lg[j3]);
                                    }
                                }
                            } else {
                                lemma_log_prefix(init, init[idx as int].ins_of(), conns, lg, e, len, idx);
                                assert forall|d2: usize| #[trigger] c0.dep_map@[idx as int]@.contains(d2)
                                    implies (exists|j3: int| 0 <= j3 < j2 && lg2[j3].idx == d2) || reaches(c0.dep_map@, d2, idx) by {
                                    let q = choose|q: int| 0 <= q < c0.dep_map@[idx as int]@.len() && c0.dep_map@[idx as int]@[q] == d2;
                                    assert(vb[d2 as int] != 0);
                                    assert(vb[d2 as int] <= 2);
                                    if vb[d2 as int] == 2 {
                                        let j3 = choose|j3: int| 0 <= j3 < len && #[trigger] lg[j3].idx == d2;
                                        assert(lg2[j3] == lg[j3]);
                                    } else {
                                        assert(vb[d2 as int] == 1);
                                        assert(stack0.contains(d2));
                                        let a = choose|a: int| 0 <= a < stack0.len() && stack0[a] == d2;
                                        let path = stack0.subrange(a, stack0.len() as int);
                                        assert(path[0] == d2);
                                        assert(path.last() == idx);
                                        assert forall|t: int| 0 <= t < path.len() - 1 implies (#[trigger] c0.dep_map@[path[t] as int])@.contains(
                                            path[t + 1],
                                        ) by {
                                            assert(path[t] == stack0[a + t] && path[t + 1] == stack0[a + t + 1]);
                                        }
                                        assert(reaches(c0.dep_map@, d2, idx));
                                    }
                                }
                            }
                        }
                        // The values on their way reach the pins the log says.
                        assert forall|k: int| 0 <= k < n implies apply_pending(
                            (#[trigger] self.components@[k]).ins_of(),
                            new_inputs@,
                            k as usize,
                        ) == pin_vals(init[k].ins_of(), conns, lg2, lg2.len(), k as usize) by {
                            lemma_apply_concat(comps0[k].ins_of(), pend0, sent(conns, idx, after.outs_of()), k as usize);
                            assert(self.components@[k].ins_of() == comps0[k].ins_of());
                            lemma_log_prefix(init, init[k].ins_of(), conns, lg, e, len, k as usize);
                        }
                        assert forall|k: int| 0 <= k < n implies (if stack@.contains(k as usize) {
                            same_except_ins(base(init, lg2, lg2.len(), k as usize), #[trigger] self.components@[k])
                        } else {
                            self.components@[k] == base(init, lg2, lg2.len(), k as usize)
                        }) by {
                            lemma_log_prefix(init, init[k].ins_of(), conns, lg, e, len, k as usize);
                            if k == idx {
                                lemma_same_except_ins(after, after, after);
                            } else {
                                assert(base(init, lg2, lg2.len(), k as usize) == base(init, lg, len, k as usize));
                                if !stack@.contains(k as usize) {
                                    assert(!stack0.contains(k as usize));
                                }
                            }
                        }
                        assert forall|k: int| 0 <= k < n && #[trigger] visits@[k] == 2 implies updated_in(lg2, k as usize) by {
                            if k == idx {
                                assert(lg2[len as int].idx == idx);
                            } else {
                                assert(vb[k] == 2);
                                let j3 = choose|j3: int| 0 <= j3 < len && #[trigger] lg[j3].idx == k as usize;
                                assert(lg2[j3] == lg[j3]);
                            }
                        }
                        assert forall|k: int| 0 <= k < n && #[trigger] visits@[k] == 1 implies stack@.contains(k as usize) by {
                            assert(vb[k] == 1);
                            assert(stack0.contains(k as usize));
                        }
                        assert forall|a: int|
                            0 <= a < stack@.len() - 1 implies (#[trigger] c0.dep_map@[stack@[a] as int])@.contains(stack@[a + 1]) by {
                            assert(stack@[a] == stack0[a] && stack@[a + 1] == stack0[a + 1]);
                        }
                        assert forall|k: usize| k < i implies updated_in(lg2, k) || stack@.contains(k) by {
                            if updated_in(lg, k) {
                                let j3 = choose|j3: int| 0 <= j3 < len && #[trigger] lg[j3].idx == k;
                                assert(lg2[j3] == lg[j3]);
                            } else if k == idx {
                                assert(lg2[len as int].idx == idx);
                            }
                        }
                        lemma_unvisited_bound(visits@);
                        log = lg2;
                    }
                },
            }
        }
        proof {
            assert forall|k: usize| k < n implies #[trigger] updated_in(log, k) by {
                assert(!stack@.contains(k));
            }
            assert forall|k: int| 0 <= k < n implies #[trigger] self.components@[k] == base(init, log, log.len(), k as usize) by {
                assert(!stack@.contains(k as usize));
            }
        }
        let ghost comps_end = self.components@;
        // Set the outputs.
        let mut i: usize = 0;
        while i < self.out_addrs.len()
            invariant
                i <= self.out_addrs@.len(),
                old(self).wf_c(),
                same_frame(old(self), self),
                self.pins_ok(),
                self.ins@ == old(self).ins@,
                self.components@ == comps_end,
                forall|j: int| 0 <= j < self.components@.len() ==> (#[trigger] self.components@[j]).wf(),
                forall|j: int|
                    0 <= j < i ==> #[trigger] self.outs@[j] == self.components@[self.out_addrs@[j].0 as int].outs_of()[self.out_addrs@[j].1 as int],
            decreases self.out_addrs@.len() - i,
        {
            let pin = self.out_addrs[i];
            let v = self.components[idx_of(pin)].outs_at(addr_of(pin));
            self.outs.set(i, v);
            i = i + 1;
        }
        Ghost((init, log))
    }
}

impl Component for ComposedComponent {
    open spec fn ins_view(&self) -> Seq<bool> {
        self.ins@
    }

    open spec fn outs_view(&self) -> Seq<bool> {
        self.outs@
    }

    open spec fn well_formed(&self) -> bool {
        self.wf_c()
    }

    fn name(&self) -> (s: String)
        ensures
            s@ == self.name@,
    {
        self.name.clone()
    }

    fn ins(&mut self) -> (r: &mut Vec<bool>) {
        &mut self.ins
    }

    fn outs(&mut self) -> (r: &mut Vec<bool>) {
        &mut self.outs
    }

    /// On `UpdateValues` the sub-components are brought up to date, in the
    /// order and with the values `values_checked` gives, and the outputs read
    /// from the pins bound to them (see `check_values`); other events go to
    /// every sub-component.
    fn on_event(&mut self, event: &CompEvent)
        ensures
            same_frame(old(self), final(self)),
            *event == CompEvent::UpdateValues ==> forall|i: int|
                0 <= i < final(self).outs@.len() ==> #[trigger] final(self).outs@[i]
                    == final(self).components@[final(self).out_addrs@[i].0 as int].outs_of()[final(self).out_addrs@[i].1 as int],
            *event == CompEvent::UpdateValues ==> exists|init: Seq<AnyComponent>, log: Seq<SubUpdate>|
                values_checked(*old(self), *final(self), init, log),
            *event is Update ==> final(self).outs@ == old(self).outs@ && forall|k: int|
                0 <= k < old(self).components@.len() ==> handled(
                    #[trigger] old(self).components@[k],
                    final(self).components@[k],
                    *event,
                ),
    {
        match event {
            CompEvent::UpdateValues => {
                let log = self.check_values();
                proof {
                    assert(values_checked(*old(self), *self, log@.0, log@.1));
                }
            },
            CompEvent::Update(_) => self.handle_event(event),
        }
    }
}

/// Sources of the connections in `conns` that end at component `k`, in the
/// order of the connections.
pub open spec fn deps_of(conns: Seq<Conn>, k: int) -> Seq<usize>
    decreases conns.len(),
{
    if conns.len() == 0 {
        Seq::empty()
    } else {
        let rest = deps_of(conns.drop_last(), k);
        if conns.last().to.0 == k {
            rest.push(conns.last().from.0)
        } else {
            rest
        }
    }
}

fn dep_map_of(count: usize, conns: &Vec<Conn>) -> (m: Vec<Vec<usize>>)
    requires
        forall|i: int| 0 <= i < conns.len() ==> #[trigger] conns[i].to.0 < count,
    ensures
        m.len() == count,
        forall|k: int| 0 <= k < count ==> #[trigger] m[k]@ == deps_of(conns@, k),
{
    let mut map: Vec<Vec<usize>> = Vec::new();
    while map.len() < count
        invariant
            map.len() <= count,
            forall|j: int| 0 <= j < map.len() ==> #[trigger] map[j]@ == Seq::<usize>::empty(),
        decreases count - map.len(),
    {
        map.push(Vec::new());
    }
    let mut c: usize = 0;
    while c < conns.len()
        invariant
            c <= conns.len(),
            map.len() == count,
            forall|i: int| 0 <= i < conns.len() ==> #[trigger] conns[i].to.0 < count,
            forall|j: int| 0 <= j < count ==> #[trigger] map[j]@ == deps_of(conns@.take(c as int), j),
        decreases conns.len() - c,
    {
        assert(conns@.take(c as int + 1).drop_last() == conns@.take(c as int));
        let conn = conns[c];
        let to = idx_of(conn.to);
        let mut row = map[to].clone();
        row.push(idx_of(conn.from));
        map.set(to, row);
        c = c + 1;
    }
    assert(conns@.take(conns.len() as int) == conns@);
    map
}

impl ComposedComponent {
    fn build(
        name: &str,
        components: Vec<AnyComponent>,
        connections: Vec<Conn>,
        in_addrs: Vec<PinAddr>,
        out_addrs: Vec<PinAddr>,
    ) -> (r: Result<Self, ComponentBuildError>)
        requires
            forall|i: int| 0 <= i < connections.len() ==> #[trigger] connections[i].to.0 < components.len(),
        ensures
            r matches Ok(c) && c.name@ == name@ && c.ins@ == Seq::new(in_addrs.len() as nat, |_k: int| false)
                && c.outs@ == Seq::new(out_addrs.len() as nat, |_k: int| false) && c.components@ == components@
                && c.connections@ == connections@ && c.in_addrs@ == in_addrs@ && c.out_addrs@ == out_addrs@
                && c.dep_map@.len() == components.len() && forall|k: int|
                0 <= k < components.len() ==> #[trigger] c.dep_map@[k]@ == deps_of(connections@, k),
    {
        let dep_map = dep_map_of(components.len(), &connections);
        let ins = falses(in_addrs.len());
        let outs = falses(out_addrs.len());
        Ok(ComposedComponent {
            name: String::from_str(name),
            ins,
            outs,
            components,
            dep_map,
            connections,
            in_addrs,
            out_addrs,
        })
    }
}

/// Builder of a `ComposedComponent`.
pub struct ComposedComponentBuilder {
    name: String,
    components: Vec<AnyComponent>,
    connections: Vec<Conn>,
    in_addrs: Vec<PinAddr>,
    out_addrs: Vec<PinAddr>,
}

impl Default for ComposedComponentBuilder {
    fn default() -> (b: Self)
        ensures
            b.spec_name() == Seq::<char>::empty(),
            b.spec_components() == Seq::<AnyComponent>::empty(),
            b.spec_connections() == Seq::<Conn>::empty(),
            b.spec_inputs() == Seq::<PinAddr>::empty(),
            b.spec_outputs() == Seq::<PinAddr>::empty(),
    {
        ComposedComponentBuilder {
            name: String::new(),
            components: Vec::new(),
            connections: Vec::new(),
            in_addrs: Vec::new(),
            out_addrs: Vec::new(),
        }
    }
}

impl ComposedComponentBuilder {
    pub closed spec fn spec_name(&self) -> Seq<char> {
        self.name@
    }

    pub closed spec fn spec_components(&self) -> Seq<AnyComponent> {
        self.components@
    }

    pub closed spec fn spec_connections(&self) -> Seq<Conn> {
        self.connections@
    }

    pub closed spec fn spec_inputs(&self) -> Seq<PinAddr> {
        self.in_addrs@
    }

    pub closed spec fn spec_outputs(&self) -> Seq<PinAddr> {
        self.out_addrs@
    }

    /// A builder of a component named `name`, with nothing else yet.
    pub fn new(name: &str) -> (b: Self)
        ensures
            b.spec_name() == name@,
            b.spec_components() == Seq::<AnyComponent>::empty(),
            b.spec_connections() == Seq::<Conn>::empty(),
            b.spec_inputs() == Seq::<PinAddr>::empty(),
            b.spec_outputs() == Seq::<PinAddr>::empty(),
    {
        ComposedComponentBuilder {
            name: String::from_str(name),
            components: Vec::new(),
            connections: Vec::new(),
            in_addrs: Vec::new(),
            out_addrs: Vec::new(),
        }
    }

    /// Names the component `name`.
    pub fn name(self, name: &str) -> (b: ComposedComponentBuilder)
        ensures
            b.spec_name() == name@,
            b.spec_components() == self.spec_components(),
            b.spec_connections() == self.spec_connections(),
            b.spec_inputs() == self.spec_inputs(),
            b.spec_outputs() == self.spec_outputs(),
    {
        let mut b = self;
        b.name = String::from_str(name);
        b
    }

    /// Sets the sub-components.
    pub fn components(self, components: Vec<AnyComponent>) -> (b: ComposedComponentBuilder)
        ensures
            b.spec_name() == self.spec_name(),
            b.spec_components() == components@,
            b.spec_connections() == self.spec_connections(),
            b.spec_inputs() == self.spec_inputs(),
            b.spec_outputs() == self.spec_outputs(),
    {
        let mut b = self;
        b.components = components;
        b
    }

    /// Sets the connections between sub-component pins.
    pub fn connections(self, connections: Vec<Conn>) -> (b: ComposedComponentBuilder)
        ensures
            b.spec_name() == self.spec_name(),
            b.spec_components() == self.spec_components(),
            b.spec_connections() == connections@,
            b.spec_inputs() == self.spec_inputs(),
            b.spec_outputs() == self.spec_outputs(),
    {
        let mut b = self;
        b.connections = connections;
        b
    }

    /// Sets the sub-component pins the inputs are bound to.
    pub fn inputs(self, inputs: Vec<PinAddr>) -> (b: ComposedComponentBuilder)
        ensures
            b.spec_name() == self.spec_name(),
            b.spec_components() == self.spec_components(),
            b.spec_connections() == self.spec_connections(),
            b.spec_inputs() == inputs@,
            b.spec_outputs() == self.spec_outputs(),
    {
        let mut b = self;
        b.in_addrs = inputs;
        b
    }

    /// Sets the sub-component pins the outputs are read from.
    pub fn outputs(self, outputs: Vec<PinAddr>) -> (b: ComposedComponentBuilder)
        ensures
            b.spec_name() == self.spec_name(),
            b.spec_components() == self.spec_components(),
            b.spec_connections() == self.spec_connections(),
            b.spec_inputs() == self.spec_inputs(),
            b.spec_outputs() == outputs@,
    {
        let mut b = self;
        b.out_addrs = outputs;
        b
    }

    /// Builds the component. Every connection must end at one of the
    /// sub-components.
    pub fn build(self) -> (r: Result<ComposedComponent, ComponentBuildError>)
        requires
            forall|i: int|
                0 <= i < self.spec_connections().len() ==> #[trigger] self.spec_connections()[i].to.0
                    < self.spec_components().len(),
        ensures
            r matches Ok(c) && c.name@ == self.spec_name() && c.ins@ == Seq::new(
                self.spec_inputs().len(),
                |_k: int| false,
            ) && c.outs@ == Seq::new(self.spec_outputs().len(), |_k: int| false) && c.components@
                == self.spec_components() && c.connections@ == self.spec_connections() && c.in_addrs@
                == self.spec_inputs() && c.out_addrs@ == self.spec_outputs() && c.dep_map@.len()
                == self.spec_components().len() && forall|k: int|
                0 <= k < self.spec_components().len() ==> #[trigger] c.dep_map@[k]@ == deps_of(
                    self.spec_connections(),
                    k,
                ),
    {
        proof {
            assert forall|i: int| 0 <= i < self.connections.len() implies #[trigger] self.connections[i].to.0
                < self.components.len() by {
                assert(self.spec_connections()[i] == self.connections[i]);
            }
        }
        ComposedComponent::build(
            self.name.as_str(),
            self.components,
            self.connections,
            self.in_addrs,
            self.out_addrs,
        )
    }
}

impl AnyComponent {
    fn in_len(&self) -> (n: usize)
        ensures
            n == self.ins_of().len(),
    {
        match self {
            AnyComponent::NotGate(g) => g.ins.len(),
            AnyComponent::AndGate(g) => g.ins.len(),
            AnyComponent::OrGate(g) => g.ins.len(),
            AnyComponent::NandGate(g) => g.ins.len(),
            AnyComponent::NorGate(g) => g.ins.len(),
            AnyComponent::XorGate(g) => g.ins.len(),
            AnyComponent::Clock(g) => g.ins.len(),
            AnyComponent::Const(g) => g.ins.len(),
            AnyComponent::Composed(g) => g.ins.len(),
        }
    }

    fn out_len(&self) -> (n: usize)
        ensures
            n == self.outs_of().len(),
    {
        match self {
            AnyComponent::NotGate(g) => g.outs.len(),
            AnyComponent::AndGate(g) => g.outs.len(),
            AnyComponent::OrGate(g) => g.outs.len(),
            AnyComponent::NandGate(g) => g.outs.len(),
            AnyComponent::NorGate(g) => g.outs.len(),
            AnyComponent::XorGate(g) => g.outs.len(),
            AnyComponent::Clock(g) => g.outs.len(),
            AnyComponent::Const(g) => g.outs.len(),
            AnyComponent::Composed(g) => g.outs.len(),
        }
    }

    /// Whether the component, and every component nested in it, can handle
    /// events: see `wf`.
    pub fn check_wf(&self) -> (b: bool)
        ensures
            b == self.wf(),
        decreases self.depth(), 1nat,
    {
        match self {
            AnyComponent::NotGate(g) => g.ins.len() > 0 && g.outs.len() > 0,
            AnyComponent::AndGate(g) => g.outs.len() > 0,
            AnyComponent::OrGate(g) => g.outs.len() > 0,
            AnyComponent::NandGate(g) => g.outs.len() > 0,
            AnyComponent::NorGate(g) => g.outs.len() > 0,
            AnyComponent::XorGate(g) => g.outs.len() > 0,
            AnyComponent::Clock(g) => g.outs.len() > 0 && g.interval > 0,
            AnyComponent::Const(g) => g.outs.len() > 0,
            AnyComponent::Composed(c) => c.check_wf_c(),
        }
    }
}

impl ComposedComponent {
    /// Whether the component and all its sub-components can handle events:
    /// see `wf_c`.
    #[verifier::loop_isolation(false)]
    pub fn check_wf_c(&self) -> (b: bool)
        ensures
            b == self.wf_c(),
        decreases self.depth_c(), 0nat,
    {
        let comps = &self.components;
        let n = comps.len();
        let mut k: usize = 0;
        while k < n
            invariant
                k <= n,
                forall|j: int| 0 <= j < k ==> (#[trigger] comps@[j]).wf(),
            decreases n - k,
        {
            proof {
                lemma_seq_depth_bound(comps@, k as int);
            }
            if !comps[k].check_wf() {
                return false;
            }
            k = k + 1;
        }
        if self.ins.len() != self.in_addrs.len() || self.outs.len() != self.out_addrs.len() || self.dep_map.len()
            != n {
            return false;
        }
        let mut k: usize = 0;
        while k < n
            invariant
                k <= n,
                forall|r: int, j: int| 0 <= r < k && 0 <= j < self.dep_map@[r]@.len() ==> #[trigger] self.dep_map@[r]@[j] < n,
            decreases n - k,
        {
            let row = &self.dep_map[k];
            let mut j: usize = 0;
            while j < row.len()
                invariant
                    k < n,
                    j <= row@.len(),
                    row@ == self.dep_map@[k as int]@,
                    forall|r: int, q: int|
                        (0 <= r < k && 0 <= q < self.dep_map@[r]@.len()) || (r == k && 0 <= q < j) ==> #[trigger] self.dep_map@[r]@[q] < n,
                decreases row@.len() - j,
            {
                if row[j] >= n {
                    return false;
                }
                j = j + 1;
            }
            k = k + 1;
        }
        let mut i: usize = 0;
        while i < self.in_addrs.len()
            invariant
                i <= self.in_addrs@.len(),
                forall|t: int| 0 <= t < i ==> {
                    let a = #[trigger] self.in_addrs@[t];
                    a.0 < n && a.1 < comps@[a.0 as int].ins_of().len()
                },
            decreases self.in_addrs@.len() - i,
        {
            let a = self.in_addrs[i];
            if a.0 >= n || a.1 >= comps[a.0].in_len() {
                return false;
            }
            i = i + 1;
        }
        let mut i: usize = 0;
        while i < self.out_addrs.len()
            invariant
                i <= self.out_addrs@.len(),
                forall|t: int| 0 <= t < i ==> {
                    let a = #[trigger] self.out_addrs@[t];
                    a.0 < n && a.1 < comps@[a.0 as int].outs_of().len()
                },
            decreases self.out_addrs@.len() - i,
        {
            let a = self.out_addrs[i];
            if a.0 >= n || a.1 >= comps[a.0].out_len() {
                return false;
            }
            i = i + 1;
        }
        let mut i: usize = 0;
        while i < self.connections.len()
            invariant
                i <= self.connections@.len(),
                forall|t: int| 0 <= t < i ==> {
                    let c = #[trigger] self.connections@[t];
                    &&& c.from.0 < n && c.from.1 < comps@[c.from.0 as int].outs_of().len()
                    &&& c.to.0 < n && c.to.1 < comps@[c.to.0 as int].ins_of().len()
                },
            decreases self.connections@.len() - i,
        {
            let c = self.connections[i];
            if c.from.0 >= n || c.from.1 >= comps[c.from.0].out_len() || c.to.0 >= n || c.to.1
                >= comps[c.to.0].in_len() {
                return false;
            }
            i = i + 1;
        }
        true
    }
}

} // verus!
