use rand::seq::SliceRandom;
use vstd::prelude::*;

use crate::component::{Conn, PortAddr};
use super::flatten::FlattenComponent;
use super::primitives::data::Data;
use super::primitives::primitive::{Primitive, update_ok_of, updated_outputs_of};

verus! {

/// Values at the ports of one component.
pub struct Ports {
    pub inputs: Seq<Data>,
    pub outputs: Seq<Data>,
}

impl FlattenComponent {
    /// Port values of all components.
    pub open spec fn ports(&self) -> Seq<Ports> {
        Seq::new(
            self.components.len() as nat,
            |i: int| Ports { inputs: self.components[i].inputs@, outputs: self.components[i].outputs@ },
        )
    }

    /// Kinds of all components.
    pub open spec fn kinds(&self) -> Seq<Primitive> {
        Seq::new(self.components.len() as nat, |i: int| self.components[i].prim_type)
    }

    /// Connections leaving each component.
    pub open spec fn conns(&self) -> Seq<Seq<Conn>> {
        Seq::new(self.connections.len() as nat, |i: int| self.connections[i]@)
    }

    /// The circuit can be simulated: see `shape_ok`.
    pub open spec fn sim_ok(&self) -> bool {
        self.connections.len() == self.components.len() && shape_ok(
            self.ports(),
            self.kinds(),
            self.conns(),
        )
    }
}

/// Whether a component of kind `prim` with inputs `i` and outputs `o` can be
/// updated.
pub fn update_ok_check(prim: &Primitive, i: &Vec<Data>, o: &Vec<Data>) -> (b: bool)
    ensures
        b == update_ok_of(*prim, i@, o@),
{
    match prim {
        Primitive::AndGate | Primitive::OrGate | Primitive::NandGate | Primitive::NorGate => o.len() > 0,
        Primitive::NotGate => o.len() > 0 && i.len() > 0 && (i[0].size as u32) < usize::BITS,
        Primitive::XorGate => o.len() > 0 && i.len() > 0,
        Primitive::Input { .. } | Primitive::Output { .. } => o.len() > 0 && i.len() > 0 && o[0].size
            == i[0].size,
        Primitive::Splitter { bits } => i.len() > 0 && o.len() >= *bits as usize && *bits <= i[0].size
            && (*bits as u32) <= usize::BITS,
        Primitive::Joiner { .. } => o.len() > 0 && i.len() <= usize::BITS as usize && (o[0].size as u32)
            < usize::BITS,
        Primitive::Clock { period } => o.len() > 0 && *period > 0 && *period <= u128::MAX / 2,
        Primitive::Const { .. } | Primitive::Switch => true,
    }
}

/// Connection `c`, listed under component `i`, leaves `i`, joins existing
/// ports, and carries into a NOT gate what it can invert and into a splitter
/// at least the bits it reads.
pub open spec fn conn_joins(ps: Seq<Ports>, kinds: Seq<Primitive>, i: int, c: Conn) -> bool {
    &&& c.from.0 == i
    &&& output_in(ps, c.from)
    &&& input_in(ps, c.to)
    &&& kinds[c.to.0 as int] is NotGate ==> ps[i].outputs[c.from.1 as int].width_ok()
    &&& kinds[c.to.0 as int] matches Primitive::Splitter { bits } ==> bits <= ps[i].outputs[c.from.1 as int].size
}

/// `bound` marks every component whose update depends on the widths of its
/// inputs, and every NOT gate with a connection into a splitter or a marked
/// component.
pub open spec fn bound_closed(kinds: Seq<Primitive>, conns: Seq<Seq<Conn>>, bound: Seq<bool>) -> bool {
    &&& bound.len() == kinds.len()
    &&& forall|i: int| 0 <= i < kinds.len() && width_sensitive(#[trigger] kinds[i]) ==> bound[i]
    &&& forall|i: int, k: int|
        0 <= i < conns.len() && 0 <= k < conns[i].len() && (#[trigger] conns[i][k]).to.0 < kinds.len()
            && needs_fixed_source(kinds, bound, conns[i][k].to.0 as int) && kinds[i] is NotGate ==> bound[i]
}

impl FlattenComponent {
    /// Whether the circuit can be simulated: see `sim_ok`. The components
    /// whose input widths must stay fixed are found as the fewest that
    /// `widths_fixed` allows, and the widths checked against them.
    #[verifier::rlimit(40)]
    pub fn check_sim_ok(&self) -> (b: bool)
        ensures
            b == self.sim_ok(),
    {
        let n = self.components.len();
        if self.connections.len() != n {
            return false;
        }
        let ghost ps = self.ports();
        let ghost ks = self.kinds();
        let ghost cs = self.conns();
        let mut i: usize = 0;
        while i < n
            invariant
                n == self.components.len(),
                n == self.connections.len(),
                i <= n,
                ps == self.ports(),
                ks == self.kinds(),
                cs == self.conns(),
                forall|j: int|
                    0 <= j < i ==> update_ok_of(#[trigger] ks[j], ps[j].inputs, ps[j].outputs) && (ks[j] is NotGate
                        ==> ps[j].outputs[0].width_ok()),
            decreases n - i,
        {
            let c = &self.components[i];
            proof {
                assert(ks[i as int] == c.prim_type);
                assert(ps[i as int].inputs == c.inputs@ && ps[i as int].outputs == c.outputs@);
            }
            let mut ok = update_ok_check(&c.prim_type, &c.inputs, &c.outputs);
            if ok {
                if let Primitive::NotGate = c.prim_type {
                    ok = (c.outputs[0].size as u32) < usize::BITS;
                }
            }
            if !ok {
                proof {
                    if self.sim_ok() {
                        let b = choose|b: Seq<bool>| widths_fixed(ps, ks, cs, b);
                        assert(port_ok(ps, ks, b, i as int));
                    }
                }
                return false;
            }
            i = i + 1;
        }
        let mut i: usize = 0;
        while i < n
            invariant
                n == self.components.len(),
                n == self.connections.len(),
                i <= n,
                ps == self.ports(),
                ks == self.kinds(),
                cs == self.conns(),
                forall|j: int| 0 <= j < n ==> update_ok_of(#[trigger] ks[j], ps[j].inputs, ps[j].outputs) && (ks[j]
                    is NotGate ==> ps[j].outputs[0].width_ok()),
                forall|j: int, k: int| 0 <= j < i && 0 <= k < cs[j].len() ==> conn_joins(ps, ks, j, #[trigger] cs[j][k]),
            decreases n - i,
        {
            let conns = &self.connections[i];
            let mut k: usize = 0;
            while k < conns.len()
                invariant
                    n == self.components.len(),
                    n == self.connections.len(),
                    i < n,
                    k <= conns@.len(),
                    conns@ == cs[i as int],
                    ps == self.ports(),
                    ks == self.kinds(),
                    cs == self.conns(),
                    forall|j: int, q: int|
                        (0 <= j < i && 0 <= q < cs[j].len()) || (j == i && 0 <= q < k) ==> conn_joins(
                            ps,
                            ks,
                            j,
                            #[trigger] cs[j][q],
                        ),
                decreases conns@.len() - k,
            {
                let c = conns[k];
                proof {
                    assert(cs[i as int][k as int] == c);
                }
                let mut ok = c.from.0 == i && c.from.1 < self.components[i].outputs.len() && c.to.0 < n && c.to.1
                    < self.components[c.to.0].inputs.len();
                if ok {
                    proof {
                        assert(ks[c.to.0 as int] == self.components[c.to.0 as int].prim_type);
                    }
                    match self.components[c.to.0].prim_type {
                        Primitive::NotGate => {
                            ok = (self.components[i].outputs[c.from.1].size as u32) < usize::BITS;
                        },
                        Primitive::Splitter { bits } => {
                            ok = bits <= self.components[i].outputs[c.from.1].size;
                        },
                        _ => {},
                    }
                }
                if !ok {
                    proof {
                        if self.sim_ok() {
                            let b = choose|b: Seq<bool>| widths_fixed(ps, ks, cs, b);
                            assert(conn_ok(ps, ks, b, i as int, cs[i as int][k as int]));
                        }
                    }
                    return false;
                }
                k = k + 1;
            }
            i = i + 1;
        }
        // The components whose input widths must stay fixed: those whose
        // update depends on them, then every NOT gate feeding a marked one.
        let mut bound: Vec<bool> = Vec::new();
        let mut i: usize = 0;
        while i < n
            invariant
                n == self.components.len(),
                i <= n,
                ks == self.kinds(),
                bound@.len() == i,
                forall|j: int| 0 <= j < i ==> bound@[j] == width_sensitive(#[trigger] ks[j]),
            decreases n - i,
        {
            let sensitive = match self.components[i].prim_type {
                Primitive::Input { .. } | Primitive::Output { .. } => true,
                _ => false,
            };
            proof {
                assert(ks[i as int] == self.components[i as int].prim_type);
            }
            bound.push(sensitive);
            i = i + 1;
        }
        proof {
            assert forall|b: Seq<bool>| #[trigger] widths_fixed(ps, ks, cs, b) implies forall|j: int|
                0 <= j < n && bound@[j] ==> b[j] by {
                assert forall|j: int| 0 <= j < n && bound@[j] implies b[j] by {
                    assert(width_sensitive(ks[j]));
                }
            }
        }
        loop
            invariant
                n == self.components.len(),
                n == self.connections.len(),
                ps == self.ports(),
                ks == self.kinds(),
                cs == self.conns(),
                bound@.len() == n,
                forall|j: int| 0 <= j < n && width_sensitive(#[trigger] ks[j]) ==> bound@[j],
                forall|b: Seq<bool>|
                    #[trigger] widths_fixed(ps, ks, cs, b) ==> forall|j: int| 0 <= j < n && bound@[j] ==> b[j],
            ensures
                bound_closed(ks, cs, bound@),
                forall|b: Seq<bool>|
                    #[trigger] widths_fixed(ps, ks, cs, b) ==> forall|j: int| 0 <= j < n && bound@[j] ==> b[j],
            decreases count_unmarked(bound@),
        {
            let ghost start = bound@;
            let mut changed = false;
            let mut i: usize = 0;
            while i < n
                invariant
                    n == self.components.len(),
                    n == self.connections.len(),
                    i <= n,
                    ps == self.ports(),
                    ks == self.kinds(),
                    cs == self.conns(),
                    bound@.len() == n,
                    forall|j: int| 0 <= j < n && width_sensitive(#[trigger] ks[j]) ==> bound@[j],
                    forall|b: Seq<bool>|
                        #[trigger] widths_fixed(ps, ks, cs, b) ==> forall|j: int| 0 <= j < n && bound@[j] ==> b[j],
                    changed ==> count_unmarked(bound@) < count_unmarked(start),
                    !changed ==> bound@ == start,
                    !changed ==> forall|j: int, q: int|
                        0 <= j < i && 0 <= q < cs[j].len() && (#[trigger] cs[j][q]).to.0 < n && needs_fixed_source(
                            ks,
                            bound@,
                            cs[j][q].to.0 as int,
                        ) && ks[j] is NotGate ==> bound@[j],
                decreases n - i,
            {
                let conns = &self.connections[i];
                let mut k: usize = 0;
                while k < conns.len()
                    invariant
                        n == self.components.len(),
                        n == self.connections.len(),
                        i < n,
                        k <= conns@.len(),
                        conns@ == cs[i as int],
                        ps == self.ports(),
                        ks == self.kinds(),
                        cs == self.conns(),
                        bound@.len() == n,
                        forall|j: int| 0 <= j < n && width_sensitive(#[trigger] ks[j]) ==> bound@[j],
                        forall|b: Seq<bool>|
                            #[trigger] widths_fixed(ps, ks, cs, b) ==> forall|j: int| 0 <= j < n && bound@[j] ==> b[j],
                        changed ==> count_unmarked(bound@) < count_unmarked(start),
                        !changed ==> bound@ == start,
                        !changed ==> forall|j: int, q: int|
                            ((0 <= j < i && 0 <= q < cs[j].len()) || (j == i && 0 <= q < k)) && (#[trigger] cs[j][q]).to.0
                                < n && needs_fixed_source(ks, bound@, cs[j][q].to.0 as int) && ks[j] is NotGate ==> bound@[j],
                    decreases conns@.len() - k,
                {
                    let c = conns[k];
                    proof {
                        assert(cs[i as int][k as int] == c);
                        assert(ks[i as int] == self.components[i as int].prim_type);
                    }
                    let fixed_target = c.to.0 < n && (bound[c.to.0] || match self.components[c.to.0].prim_type {
                        Primitive::Splitter { .. } => true,
                        _ => false,
                    });
                    proof {
                        if c.to.0 < n {
                            assert(ks[c.to.0 as int] == self.components[c.to.0 as int].prim_type);
                        }
                    }
                    if fixed_target && !bound[i] {
                        if let Primitive::NotGate = self.components[i].prim_type {
                            let ghost before = bound@;
                            proof {
                                lemma_count_unmarked_set(before, i as int);
                                assert forall|b: Seq<bool>| #[trigger] widths_fixed(ps, ks, cs, b) implies b[i as int] by {
                                    assert(conn_ok(ps, ks, b, i as int, cs[i as int][k as int]));
                                }
                            }
                            bound.set(i, true);
                            changed = true;
                        }
                    }
                    k = k + 1;
                }
                i = i + 1;
            }
            if !changed {
                proof {
                    assert forall|j: int, q: int|
                        0 <= j < cs.len() && 0 <= q < cs[j].len() && (#[trigger] cs[j][q]).to.0 < ks.len() && needs_fixed_source(
                            ks,
                            bound@,
                            cs[j][q].to.0 as int,
                        ) && ks[j] is NotGate implies bound@[j] by {}
                }
                break;
            }
        }
        // The widths the marked components need.
        let mut i: usize = 0;
        while i < n
            invariant
                n == self.components.len(),
                n == self.connections.len(),
                i <= n,
                ps == self.ports(),
                ks == self.kinds(),
                cs == self.conns(),
                bound@.len() == n,
                forall|b: Seq<bool>|
                    #[trigger] widths_fixed(ps, ks, cs, b) ==> forall|j: int| 0 <= j < n && bound@[j] ==> b[j],
                forall|j: int, k: int| 0 <= j < n && 0 <= k < cs[j].len() ==> conn_joins(ps, ks, j, #[trigger] cs[j][k]),
                forall|j: int, k: int|
                    0 <= j < i && 0 <= k < cs[j].len() && bound@[(#[trigger] cs[j][k]).to.0 as int] ==> ps[j].outputs[cs[j][k].from.1 as int].size
                        == ps[cs[j][k].to.0 as int].inputs[cs[j][k].to.1 as int].size,
                forall|j: int| 0 <= j < i && ks[j] is NotGate && bound@[j] ==> #[trigger] ps[j].inputs[0].size == ps[j].outputs[0].size,
                forall|j: int| 0 <= j < n ==> update_ok_of(#[trigger] ks[j], ps[j].inputs, ps[j].outputs),
            decreases n - i,
        {
            proof {
                assert(ks[i as int] == self.components[i as int].prim_type);
                assert(ps[i as int].inputs == self.components[i as int].inputs@);
                assert(ps[i as int].outputs == self.components[i as int].outputs@);
                assert(update_ok_of(ks[i as int], ps[i as int].inputs, ps[i as int].outputs));
            }
            if bound[i] {
                if let Primitive::NotGate = self.components[i].prim_type {
                    if self.components[i].inputs[0].size != self.components[i].outputs[0].size {
                        proof {
                            if self.sim_ok() {
                                let b = choose|b: Seq<bool>| widths_fixed(ps, ks, cs, b);
                                assert(b[i as int]);
                                assert(port_ok(ps, ks, b, i as int));
                            }
                        }
                        return false;
                    }
                }
            }
            let conns = &self.connections[i];
            let mut k: usize = 0;
            while k < conns.len()
                invariant
                    n == self.components.len(),
                    n == self.connections.len(),
                    i < n,
                    k <= conns@.len(),
                    conns@ == cs[i as int],
                    ps == self.ports(),
                    ks == self.kinds(),
                    cs == self.conns(),
                    bound@.len() == n,
                    forall|b: Seq<bool>|
                        #[trigger] widths_fixed(ps, ks, cs, b) ==> forall|j: int| 0 <= j < n && bound@[j] ==> b[j],
                    forall|j: int, q: int| 0 <= j < n && 0 <= q < cs[j].len() ==> conn_joins(ps, ks, j, #[trigger] cs[j][q]),
                    forall|j: int, q: int|
                        ((0 <= j < i && 0 <= q < cs[j].len()) || (j == i && 0 <= q < k)) && bound@[(#[trigger] cs[j][q]).to.0 as int]
                            ==> ps[j].outputs[cs[j][q].from.1 as int].size == ps[cs[j][q].to.0 as int].inputs[cs[j][q].to.1 as int].size,
                decreases conns@.len() - k,
            {
                let c = conns[k];
                proof {
                    assert(cs[i as int][k as int] == c);
                    assert(conn_joins(ps, ks, i as int, c));
                }
                if bound[c.to.0] && self.components[i].outputs[c.from.1].size != self.components[c.to.0].inputs[c.to.1].size {
                    proof {
                        if self.sim_ok() {
                            let b = choose|b: Seq<bool>| widths_fixed(ps, ks, cs, b);
                            assert(b[c.to.0 as int]);
                            assert(conn_ok(ps, ks, b, i as int, cs[i as int][k as int]));
                        }
                    }
                    return false;
                }
                k = k + 1;
            }
            i = i + 1;
        }
        proof {
            assert(bound_closed(ks, cs, bound@));
            assert forall|j: int, k: int| 0 <= j < cs.len() && 0 <= k < cs[j].len() implies conn_ok(
                ps,
                ks,
                bound@,
                j,
                #[trigger] cs[j][k],
            ) by {
                assert(conn_joins(ps, ks, j, cs[j][k]));
            }
            assert forall|j: int| 0 <= j < ps.len() implies #[trigger] port_ok(ps, ks, bound@, j) by {
                assert(update_ok_of(ks[j], ps[j].inputs, ps[j].outputs));
            }
            assert(widths_fixed(ps, ks, cs, bound@));
        }
        true
    }
}

/// Port `a` names an input of one of the components.
pub open spec fn input_in(ps: Seq<Ports>, a: PortAddr) -> bool {
    a.0 < ps.len() && a.1 < ps[a.0 as int].inputs.len()
}

/// Port `a` names an output of one of the components.
pub open spec fn output_in(ps: Seq<Ports>, a: PortAddr) -> bool {
    a.0 < ps.len() && a.1 < ps[a.0 as int].outputs.len()
}

/// Whether an update of a component of kind `k` needs its inputs to keep
/// their width: an input or output copies a value of its own width. A
/// splitter needs its input at least as wide as the bits it reads; the other
/// gates and the joiner read only whether each input is zero, and a NOT gate
/// takes the width of its input.
pub open spec fn width_sensitive(k: Primitive) -> bool {
    k is Input || k is Output
}

/// Whether what enters component `t` must come, when it comes from a NOT
/// gate, from one whose width stays fixed.
pub open spec fn needs_fixed_source(kinds: Seq<Primitive>, bound: Seq<bool>, t: int) -> bool {
    bound[t] || kinds[t] is Splitter
}

/// Connection `c`, listed under component `i`, leaves `i` and joins existing
/// ports; what it carries into a NOT gate is narrow enough to invert, and
/// into a splitter at least as wide as the bits it reads; where it enters a
/// component of `bound` (one whose input widths stay as they are) it carries
/// the width of that input; and where it enters a splitter or a component of
/// `bound` from a NOT gate, that gate is one of `bound` too.
pub open spec fn conn_ok(ps: Seq<Ports>, kinds: Seq<Primitive>, bound: Seq<bool>, i: int, c: Conn) -> bool {
    &&& c.from.0 == i
    &&& output_in(ps, c.from)
    &&& input_in(ps, c.to)
    &&& kinds[c.to.0 as int] is NotGate ==> ps[i].outputs[c.from.1 as int].width_ok()
    &&& kinds[c.to.0 as int] matches Primitive::Splitter { bits } ==> bits <= ps[i].outputs[c.from.1 as int].size
    &&& bound[c.to.0 as int] ==> ps[i].outputs[c.from.1 as int].size == ps[c.to.0 as int].inputs[c.to.1 as int].size
    &&& needs_fixed_source(kinds, bound, c.to.0 as int) && kinds[i] is NotGate ==> bound[i]
}

/// Component `i` can be updated. A NOT gate has an output whose width an
/// inversion can handle, and a marked NOT gate has an output of the width of
/// its input.
pub open spec fn port_ok(ps: Seq<Ports>, kinds: Seq<Primitive>, bound: Seq<bool>, i: int) -> bool {
    &&& update_ok_of(kinds[i], ps[i].inputs, ps[i].outputs)
    &&& kinds[i] is NotGate ==> ps[i].outputs[0].width_ok()
    &&& kinds[i] is NotGate && bound[i] ==> ps[i].inputs[0].size == ps[i].outputs[0].size
}

/// `bound` marks every component whose update depends on the widths of its
/// inputs, and every connection and every component is as `conn_ok` and
/// `port_ok` say: the widths that matter never change during a simulation.
pub open spec fn widths_fixed(ps: Seq<Ports>, kinds: Seq<Primitive>, conns: Seq<Seq<Conn>>, bound: Seq<bool>) -> bool {
    &&& kinds.len() == ps.len()
    &&& conns.len() == ps.len()
    &&& bound.len() == ps.len()
    &&& forall|i: int| 0 <= i < ps.len() && width_sensitive(#[trigger] kinds[i]) ==> bound[i]
    &&& forall|i: int, k: int|
        0 <= i < conns.len() && 0 <= k < conns[i].len() ==> conn_ok(ps, kinds, bound, i, #[trigger] conns[i][k])
    &&& forall|i: int| 0 <= i < ps.len() ==> #[trigger] port_ok(ps, kinds, bound, i)
}

/// Every connection leaves the component it is listed under and joins
/// existing ports, every component can be updated, and some choice of the
/// components whose input widths stay fixed (`widths_fixed`) lets every
/// update in a simulation find the widths it needs.
pub open spec fn shape_ok(ps: Seq<Ports>, kinds: Seq<Primitive>, conns: Seq<Seq<Conn>>) -> bool {
    exists|bound: Seq<bool>| widths_fixed(ps, kinds, conns, bound)
}

/// `ps` with input `to` set to `v`.
pub open spec fn write_input(ps: Seq<Ports>, to: PortAddr, v: Data) -> Seq<Ports> {
    ps.update(
        to.0 as int,
        Ports { inputs: ps[to.0 as int].inputs.update(to.1 as int, v), outputs: ps[to.0 as int].outputs },
    )
}

/// Sends the outputs of component `idx` along its connections `conns`,
/// taken in the order `order`: an input that already holds the value is left
/// alone; otherwise it takes the value and its component joins `next`
/// unless it is there already.
pub open spec fn propagate_spec(
    ps: Seq<Ports>,
    idx: int,
    conns: Seq<Conn>,
    order: Seq<usize>,
    next: Seq<usize>,
) -> (Seq<Ports>, Seq<usize>)
    decreases order.len(),
{
    if order.len() == 0 {
        (ps, next)
    } else {
        let (ps1, next1) = propagate_spec(ps, idx, conns, order.drop_last(), next);
        let c = conns[order.last() as int];
        let val = ps1[idx].outputs[c.from.1 as int];
        if val == ps1[c.to.0 as int].inputs[c.to.1 as int] {
            (ps1, next1)
        } else {
            (
                write_input(ps1, c.to, val),
                if next1.contains(c.to.0) {
                    next1
                } else {
                    next1.push(c.to.0)
                },
            )
        }
    }
}

/// `s` without any occurrence of `x`.
pub open spec fn remove_all(s: Seq<usize>, x: usize) -> Seq<usize>
    decreases s.len(),
{
    if s.len() == 0 {
        s
    } else if s.last() == x {
        remove_all(s.drop_last(), x)
    } else {
        remove_all(s.drop_last(), x).push(s.last())
    }
}

/// One component's turn in a pass: it is updated at `time`, leaves the list
/// of components to update unless it is a clock, and sends its outputs
/// along its connections in the order `order`.
pub open spec fn component_step_spec(
    ps: Seq<Ports>,
    kinds: Seq<Primitive>,
    conns: Seq<Seq<Conn>>,
    to_upd: Seq<usize>,
    idx: int,
    time: u128,
    order: Seq<usize>,
    next: Seq<usize>,
) -> (Seq<Ports>, Seq<usize>, Seq<usize>) {
    let ps1 = ps.update(
        idx,
        Ports {
            inputs: ps[idx].inputs,
            outputs: updated_outputs_of(kinds[idx], ps[idx].inputs, ps[idx].outputs, time),
        },
    );
    let to_upd1 = if kinds[idx] is Clock {
        to_upd
    } else {
        remove_all(to_upd, idx as usize)
    };
    let (ps2, next2) = propagate_spec(ps1, idx, conns[idx], order, next);
    (ps2, to_upd1, next2)
}

/// A pass over `upd_list`, component after component, the `k`-th taking its
/// connections in the order `orders[k]`.
pub open spec fn pass_spec(
    ps: Seq<Ports>,
    kinds: Seq<Primitive>,
    conns: Seq<Seq<Conn>>,
    to_upd: Seq<usize>,
    upd_list: Seq<usize>,
    time: u128,
    orders: Seq<Seq<usize>>,
    next: Seq<usize>,
) -> (Seq<Ports>, Seq<usize>, Seq<usize>)
    decreases upd_list.len(),
{
    if upd_list.len() == 0 {
        (ps, to_upd, next)
    } else {
        let (ps1, to_upd1, next1) = pass_spec(
            ps,
            kinds,
            conns,
            to_upd,
            upd_list.drop_last(),
            time,
            orders.drop_last(),
            next,
        );
        component_step_spec(
            ps1,
            kinds,
            conns,
            to_upd1,
            upd_list.last() as int,
            time,
            orders.last(),
            next1,
        )
    }
}

/// `order` lists each of the indices below `n` exactly once.
pub open spec fn is_order(order: Seq<usize>, n: nat) -> bool {
    order.to_multiset() == Seq::new(n, |i: int| i as usize).to_multiset()
}

/// Puts the elements of `v` in a random order.
#[verifier::external_body]
fn shuffle(v: &mut Vec<usize>)
    ensures
        final(v)@.to_multiset() == old(v)@.to_multiset(),
{
    v.shuffle(&mut rand::thread_rng());
}


proof fn lemma_order_in_range(order: Seq<usize>, n: nat, k: int)
    requires
        is_order(order, n),
        n <= usize::MAX,
        0 <= k < order.len(),
    ensures
        order[k] < n,
{
    broadcast use vstd::seq_lib::group_to_multiset_ensures;

    let all = Seq::new(n, |i: int| i as usize);
    assert(order.contains(order[k]));
    assert(order.to_multiset().count(order[k]) > 0);
    assert(all.contains(order[k]));
    let j = choose|j: int| 0 <= j < all.len() && all[j] == order[k];
    assert(all[j] == j as usize);
}

/// The indices below `n`, in a random order.
fn random_order(n: usize) -> (v: Vec<usize>)
    ensures
        is_order(v@, n as nat),
{
    let mut v: Vec<usize> = Vec::new();
    let mut k: usize = 0;
    while k < n
        invariant
            k <= n,
            v@ == Seq::new(k as nat, |i: int| i as usize),
        decreases n - k,
    {
        v.push(k);
        k = k + 1;
        assert(v@ =~= Seq::new(k as nat, |i: int| i as usize));
    }
    shuffle(&mut v);
    v
}

fn vec_contains(v: &Vec<usize>, x: usize) -> (b: bool)
    ensures
        b == v@.contains(x),
{
    let mut k: usize = 0;
    while k < v.len()
        invariant
            k <= v.len(),
            forall|j: int| 0 <= j < k ==> v@[j] != x,
        decreases v.len() - k,
    {
        if v[k] == x {
            return true;
        }
        k = k + 1;
    }
    false
}

fn without(v: &Vec<usize>, x: usize) -> (r: Vec<usize>)
    ensures
        r@ == remove_all(v@, x),
{
    let mut r: Vec<usize> = Vec::new();
    let mut k: usize = 0;
    while k < v.len()
        invariant
            k <= v.len(),
            r@ == remove_all(v@.take(k as int), x),
        decreases v.len() - k,
    {
        assert(v@.take(k as int + 1).drop_last() == v@.take(k as int));
        if v[k] != x {
            r.push(v[k]);
        }
        k = k + 1;
    }
    assert(v@.take(v.len() as int) == v@);
    r
}

proof fn lemma_update_sizes(kind: Primitive, i: Seq<Data>, o: Seq<Data>, time: u128)
    requires
        update_ok_of(kind, i, o),
    ensures
        updated_outputs_of(kind, i, o, time).len() == o.len(),
        !(kind is NotGate) ==> forall|k: int|
            0 <= k < o.len() ==> (#[trigger] updated_outputs_of(kind, i, o, time)[k]).size == o[k].size,
        kind is NotGate ==> updated_outputs_of(kind, i, o, time)[0].size == i[0].size,
{
}

/// An update of component `idx` keeps the widths as `widths_fixed` says.
proof fn lemma_update_keeps_widths(
    ps: Seq<Ports>,
    kinds: Seq<Primitive>,
    conns: Seq<Seq<Conn>>,
    bound: Seq<bool>,
    idx: int,
    time: u128,
)
    requires
        widths_fixed(ps, kinds, conns, bound),
        0 <= idx < ps.len(),
    ensures
        widths_fixed(
            ps.update(
                idx,
                Ports {
                    inputs: ps[idx].inputs,
                    outputs: updated_outputs_of(kinds[idx], ps[idx].inputs, ps[idx].outputs, time),
                },
            ),
            kinds,
            conns,
            bound,
        ),
{
    let o2 = updated_outputs_of(kinds[idx], ps[idx].inputs, ps[idx].outputs, time);
    let ps2 = ps.update(idx, Ports { inputs: ps[idx].inputs, outputs: o2 });
    assert(port_ok(ps, kinds, bound, idx));
    lemma_update_sizes(kinds[idx], ps[idx].inputs, ps[idx].outputs, time);
    assert forall|i: int, k: int| 0 <= i < conns.len() && 0 <= k < conns[i].len() implies conn_ok(
        ps2,
        kinds,
        bound,
        i,
        #[trigger] conns[i][k],
    ) by {
        let c = conns[i][k];
        assert(conn_ok(ps, kinds, bound, i, c));
        if i == idx && kinds[idx] is NotGate {
            if bound[c.to.0 as int] {
                assert(bound[idx]);
            }
        } else if i == idx {
            assert(o2[c.from.1 as int].size == ps[idx].outputs[c.from.1 as int].size);
        }
    }
    assert forall|i: int| 0 <= i < ps2.len() implies #[trigger] port_ok(ps2, kinds, bound, i) by {
        assert(port_ok(ps, kinds, bound, i));
        if i == idx && !(kinds[idx] is NotGate) && o2.len() > 0 {
            assert(o2[0].size == ps[idx].outputs[0].size);
        }
    }
}

/// Sending an output of component `i` along its `k`-th connection keeps the
/// widths as `widths_fixed` says.
proof fn lemma_write_keeps_widths(
    ps: Seq<Ports>,
    kinds: Seq<Primitive>,
    conns: Seq<Seq<Conn>>,
    bound: Seq<bool>,
    i: int,
    k: int,
)
    requires
        widths_fixed(ps, kinds, conns, bound),
        0 <= i < conns.len(),
        0 <= k < conns[i].len(),
    ensures
        widths_fixed(
            write_input(ps, conns[i][k].to, ps[i].outputs[conns[i][k].from.1 as int]),
            kinds,
            conns,
            bound,
        ),
{
    let c = conns[i][k];
    let val = ps[i].outputs[c.from.1 as int];
    let ps2 = write_input(ps, c.to, val);
    assert(conn_ok(ps, kinds, bound, i, c));
    let t = c.to.0 as int;
    assert forall|j: int, q: int| 0 <= j < conns.len() && 0 <= q < conns[j].len() implies conn_ok(
        ps2,
        kinds,
        bound,
        j,
        #[trigger] conns[j][q],
    ) by {
        let d = conns[j][q];
        assert(conn_ok(ps, kinds, bound, j, d));
        if bound[d.to.0 as int] && d.to.0 as int == t && d.to.1 == c.to.1 {
            assert(bound[t]);
        }
    }
    assert forall|j: int| 0 <= j < ps2.len() implies #[trigger] port_ok(ps2, kinds, bound, j) by {
        assert(port_ok(ps, kinds, bound, j));
        if j == t {
            if width_sensitive(kinds[t]) {
                assert(bound[t]);
            }
        }
    }
}

/// Counts the unmarked entries of `s`.
pub open spec fn count_unmarked(s: Seq<bool>) -> nat
    decreases s.len(),
{
    if s.len() == 0 {
        0
    } else {
        count_unmarked(s.drop_last()) + if s.last() { 0nat } else { 1nat }
    }
}

proof fn lemma_count_unmarked_set(s: Seq<bool>, k: int)
    requires
        0 <= k < s.len(),
        !s[k],
    ensures
        count_unmarked(s.update(k, true)) + 1 == count_unmarked(s),
    decreases s.len(),
{
    let t = s.update(k, true);
    if k < s.len() - 1 {
        lemma_count_unmarked_set(s.drop_last(), k);
        assert(t.drop_last() =~= s.drop_last().update(k, true));
    } else {
        assert(t.drop_last() =~= s.drop_last());
    }
}

/// State of a simulation: the flattened circuit, the components that must be
/// updated in every pass, and whether the simulation runs or must end.
pub struct SimState {
    pub comp: FlattenComponent,
    pub to_upd: Vec<usize>,
    pub running: bool,
    pub end: bool,
}

/// Components that need an update in every pass from the start: constants
/// and clocks.
pub open spec fn always_updated(kinds: Seq<Primitive>) -> Seq<usize>
    decreases kinds.len(),
{
    if kinds.len() == 0 {
        Seq::empty()
    } else {
        let rest = always_updated(kinds.drop_last());
        if kinds.last() is Const || kinds.last() is Clock {
            rest.push((kinds.len() - 1) as usize)
        } else {
            rest
        }
    }
}

impl SimState {
    /// A stopped simulation of `comp` whose first passes update the constants
    /// and the clocks.
    pub fn new(comp: FlattenComponent) -> (s: Self)
        ensures
            s.comp == comp,
            s.to_upd@ == always_updated(comp.kinds()),
            !s.running,
            !s.end,
    {
        let mut to_upd: Vec<usize> = Vec::new();
        let mut i: usize = 0;
        while i < comp.components.len()
            invariant
                i <= comp.components.len(),
                to_upd@ == always_updated(comp.kinds().take(i as int)),
            decreases comp.components.len() - i,
        {
            assert(comp.kinds().take(i as int + 1).drop_last() == comp.kinds().take(i as int));
            match comp.components[i].prim_type {
                Primitive::Const { .. } | Primitive::Clock { .. } => {
                    to_upd.push(i);
                },
                _ => {},
            }
            i = i + 1;
        }
        assert(comp.kinds().take(comp.components.len() as int) == comp.kinds());
        SimState { comp, to_upd, running: false, end: false }
    }

    /// Sends the outputs of component `idx` along its connections in the
    /// order `order`.
    pub fn propagate(&mut self, idx: usize, order: &Vec<usize>, next: &mut Vec<usize>)
        requires
            old(self).comp.sim_ok(),
            idx < old(self).comp.components.len(),
            is_order(order@, old(self).comp.connections[idx as int].len() as nat),
        ensures
            final(self).comp.sim_ok(),
            final(self).comp.kinds() == old(self).comp.kinds(),
            final(self).comp.conns() == old(self).comp.conns(),
            final(self).comp.connections@ == old(self).comp.connections@,
            final(self).comp.id_to_idx@ == old(self).comp.id_to_idx@,
            final(self).to_upd@ == old(self).to_upd@,
            final(self).running == old(self).running,
            final(self).end == old(self).end,
            (final(self).comp.ports(), final(next)@) == propagate_spec(
                old(self).comp.ports(),
                idx as int,
                old(self).comp.conns()[idx as int],
                order@,
                old(next)@,
            ),
    {
        let ghost ps0 = self.comp.ports();
        let ghost kinds0 = self.comp.kinds();
        let ghost conns0 = self.comp.conns();
        let ghost next0 = next@;
        let ghost bnd = choose|b: Seq<bool>| widths_fixed(ps0, kinds0, conns0, b);
        let mut j: usize = 0;
        while j < order.len()
            invariant
                j <= order.len(),
                idx < self.comp.components.len(),
                is_order(order@, self.comp.connections[idx as int].len() as nat),
                self.comp.connections.len() == self.comp.components.len(),
                self.comp.kinds() == kinds0,
                self.comp.conns() == conns0,
                self.comp.connections@ == old(self).comp.connections@,
                self.comp.id_to_idx@ == old(self).comp.id_to_idx@,
                self.to_upd@ == old(self).to_upd@,
                self.running == old(self).running,
                self.end == old(self).end,
                ps0 == old(self).comp.ports(),
                conns0 == old(self).comp.conns(),
                next0 == old(next)@,
                widths_fixed(self.comp.ports(), kinds0, conns0, bnd),
                (self.comp.ports(), next@) == propagate_spec(
                    ps0,
                    idx as int,
                    conns0[idx as int],
                    order@.take(j as int),
                    next0,
                ),
            decreases order.len() - j,
        {
            proof {
                lemma_order_in_range(order@, self.comp.connections[idx as int].len() as nat, j as int);
                assert(order@.take(j as int + 1).drop_last() == order@.take(j as int));
            }
            let k = order[j];
            let c = self.comp.connections[idx][k];
            proof {
                assert(conns0[idx as int][k as int] == c);
            }
            let val = self.comp.components[idx].outputs[c.from.1];
            let cur = self.comp.components[c.to.0].inputs[c.to.1];
            let ghost before = self.comp.ports();
            if val != cur {
                self.comp.components[c.to.0].set_input(c.to.1, val);
                proof {
                    assert(self.comp.ports() =~= write_input(before, c.to, val));
                    assert(before[idx as int].outputs[c.from.1 as int] == val);
                    lemma_write_keeps_widths(before, kinds0, conns0, bnd, idx as int, k as int);
                    assert(self.comp.kinds() =~= kinds0);
                    assert(self.comp.conns() =~= conns0);
                }
                if !vec_contains(next, c.to.0) {
                    next.push(c.to.0);
                }
            }
            j = j + 1;
        }
        proof {
            assert(order@.take(order.len() as int) == order@);
            assert(widths_fixed(self.comp.ports(), kinds0, conns0, bnd));
        }
    }
}


impl SimState {
    /// One component's turn in a pass: updates component `idx` at `time`,
    /// takes it off the list of components to update unless it is a clock,
    /// and sends its outputs along its connections in a random order, which
    /// is returned.
    fn component_step(&mut self, idx: usize, time: u128, next: &mut Vec<usize>) -> (order: Ghost<Seq<usize>>)
        requires
            old(self).comp.sim_ok(),
            idx < old(self).comp.components.len(),
        ensures
            final(self).comp.sim_ok(),
            final(self).comp.kinds() == old(self).comp.kinds(),
            final(self).comp.conns() == old(self).comp.conns(),
            final(self).comp.connections@ == old(self).comp.connections@,
            final(self).comp.id_to_idx@ == old(self).comp.id_to_idx@,
            final(self).running == old(self).running,
            final(self).end == old(self).end,
            is_order(order@, old(self).comp.conns()[idx as int].len()),
            (final(self).comp.ports(), final(self).to_upd@, final(next)@) == component_step_spec(
                old(self).comp.ports(),
                old(self).comp.kinds(),
                old(self).comp.conns(),
                old(self).to_upd@,
                idx as int,
                time,
                order@,
                old(next)@,
            ),
    {
        let ghost ps0 = self.comp.ports();
        let ghost kinds0 = self.comp.kinds();
        let ghost conns0 = self.comp.conns();
        proof {
            let c = self.comp.components[idx as int];
            assert(kinds0[idx as int] == c.prim_type);
            assert(ps0[idx as int].inputs == c.inputs@);
            assert(ps0[idx as int].outputs == c.outputs@);
        }
        let ghost bnd = choose|b: Seq<bool>| widths_fixed(ps0, kinds0, conns0, b);
        proof {
            assert(port_ok(ps0, kinds0, bnd, idx as int));
        }
        self.comp.components[idx].update(time);
        let ghost ps1 = self.comp.ports();
        proof {
            assert(ps1 =~= ps0.update(
                idx as int,
                Ports {
                    inputs: ps0[idx as int].inputs,
                    outputs: updated_outputs_of(kinds0[idx as int], ps0[idx as int].inputs, ps0[idx as int].outputs, time),
                },
            ));
            lemma_update_keeps_widths(ps0, kinds0, conns0, bnd, idx as int, time);
            assert(self.comp.kinds() =~= kinds0);
            assert(self.comp.conns() =~= conns0);
            assert(widths_fixed(ps1, kinds0, conns0, bnd));
        }
        match self.comp.components[idx].prim_type {
            Primitive::Clock { .. } => {},
            _ => {
                self.to_upd = without(&self.to_upd, idx);
            },
        }
        let order = random_order(self.comp.connections[idx].len());
        self.propagate(idx, &order, next);
        Ghost(order@)
    }

    /// One pass of the simulation at `time`: the components of `upd_list` are
    /// updated in turn, each sending its outputs along its connections in a
    /// random order. Returns the components to update in the next pass: those
    /// still marked for update before the pass, followed by each component one
    /// of whose inputs changed, in the order in which they changed.
    pub fn run_pass(&mut self, upd_list: &Vec<usize>, time: u128) -> (next: Vec<usize>)
        requires
            old(self).comp.sim_ok(),
            forall|k: int| 0 <= k < upd_list.len() ==> upd_list[k] < old(self).comp.components.len(),
        ensures
            final(self).comp.sim_ok(),
            final(self).comp.kinds() == old(self).comp.kinds(),
            final(self).comp.conns() == old(self).comp.conns(),
            final(self).comp.id_to_idx@ == old(self).comp.id_to_idx@,
            final(self).running == old(self).running,
            final(self).end == old(self).end,
            exists|orders: Seq<Seq<usize>>|
                {
                    &&& orders.len() == upd_list.len()
                    &&& forall|k: int|
                        0 <= k < upd_list.len() ==> is_order(
                            #[trigger] orders[k],
                            old(self).comp.conns()[upd_list[k] as int].len(),
                        )
                    &&& (final(self).comp.ports(), final(self).to_upd@, next@) == pass_spec(
                        old(self).comp.ports(),
                        old(self).comp.kinds(),
                        old(self).comp.conns(),
                        old(self).to_upd@,
                        upd_list@,
                        time,
                        orders,
                        old(self).to_upd@,
                    )
                },
    {
        let ghost ps0 = self.comp.ports();
        let ghost kinds0 = self.comp.kinds();
        let ghost conns0 = self.comp.conns();
        let ghost to_upd0 = self.to_upd@;
        let mut next = self.to_upd.clone();
        let ghost mut orders: Seq<Seq<usize>> = Seq::empty();
        proof {
            assert(upd_list@.take(0) =~= Seq::<usize>::empty());
        }
        let mut k: usize = 0;
        while k < upd_list.len()
            invariant
                k <= upd_list.len(),
                forall|j: int| 0 <= j < upd_list.len() ==> upd_list[j] < old(self).comp.components.len(),
                self.comp.sim_ok(),
                self.comp.kinds() == kinds0,
                self.comp.conns() == conns0,
                self.comp.components.len() == old(self).comp.components.len(),
                self.comp.id_to_idx@ == old(self).comp.id_to_idx@,
                self.running == old(self).running,
                self.end == old(self).end,
                ps0 == old(self).comp.ports(),
                kinds0 == old(self).comp.kinds(),
                conns0 == old(self).comp.conns(),
                to_upd0 == old(self).to_upd@,
                orders.len() == k,
                forall|j: int| 0 <= j < k ==> is_order(#[trigger] orders[j], conns0[upd_list[j] as int].len()),
                (self.comp.ports(), self.to_upd@, next@) == pass_spec(
                    ps0,
                    kinds0,
                    conns0,
                    to_upd0,
                    upd_list@.take(k as int),
                    time,
                    orders,
                    to_upd0,
                ),
            decreases upd_list.len() - k,
        {
            let idx = upd_list[k];
            let ghost before = self.comp.ports();
            let order = self.component_step(idx, time, &mut next);
            proof {
                let orders1 = orders.push(order@);
                assert(upd_list@.take(k as int + 1).drop_last() =~= upd_list@.take(k as int));
                assert(upd_list@.take(k as int + 1).last() == idx);
                assert(orders1.drop_last() =~= orders);
                orders = orders1;
            }
            k = k + 1;
        }
        proof {
            assert(upd_list@.take(upd_list.len() as int) =~= upd_list@);
        }
        next
    }
}

/// What the simulation loop does next.
#[derive(Debug, Clone, Copy, PartialEq, Eq, Structural)]
pub enum SimAction {
    /// Leave the loop.
    Stop,
    /// Wait a while, then ask again.
    Pause,
    /// Run a pass.
    Pass,
}

/// The loop goes on while components are left to update (`pending` of them
/// after the last pass) or it is to keep running; then it stops when asked to
/// end, waits while paused, and otherwise runs a pass.
pub open spec fn action_spec(end: bool, running: bool, keep_running: bool, pending: nat) -> SimAction {
    if !(pending > 0 || keep_running) {
        SimAction::Stop
    } else if end {
        SimAction::Stop
    } else if !running {
        SimAction::Pause
    } else {
        SimAction::Pass
    }
}

impl SimState {
    /// The next action of the simulation loop: see `action_spec`.
    pub fn next_action(&self, keep_running: bool, pending: usize) -> (a: SimAction)
        ensures
            a == action_spec(self.end, self.running, keep_running, pending as nat),
    {
        if !(pending > 0 || keep_running) {
            SimAction::Stop
        } else if self.end {
            SimAction::Stop
        } else if !self.running {
            SimAction::Pause
        } else {
            SimAction::Pass
        }
    }
}

proof fn lemma_propagate_schedules(ps: Seq<Ports>, idx: int, conns: Seq<Conn>, order: Seq<usize>, next: Seq<usize>)
    requires
        forall|k: int| 0 <= k < conns.len() ==> (#[trigger] conns[k]).to.0 < ps.len(),
        forall|m: int| 0 <= m < order.len() ==> (#[trigger] order[m]) < conns.len(),
    ensures
        propagate_spec(ps, idx, conns, order, next).0.len() == ps.len(),
        forall|x: usize| next.contains(x) ==> #[trigger] propagate_spec(ps, idx, conns, order, next).1.contains(x),
        forall|j: int|
            0 <= j < ps.len() && (#[trigger] propagate_spec(ps, idx, conns, order, next).0[j]).inputs
                != ps[j].inputs ==> propagate_spec(ps, idx, conns, order, next).1.contains(j as usize),
    decreases order.len(),
{
    if order.len() > 0 {
        let rest = order.drop_last();
        lemma_propagate_schedules(ps, idx, conns, rest, next);
        let (ps1, next1) = propagate_spec(ps, idx, conns, rest, next);
        let c = conns[order.last() as int];
        assert(c.to.0 < ps.len());
        let (ps2, next2) = propagate_spec(ps, idx, conns, order, next);
        let val = ps1[idx].outputs[c.from.1 as int];
        if val != ps1[c.to.0 as int].inputs[c.to.1 as int] {
            if !next1.contains(c.to.0) {
                assert(next2[next1.len() as int] == c.to.0);
            }
            assert(next2.contains(c.to.0));
            assert forall|x: usize| next1.contains(x) implies next2.contains(x) by {
                if !next1.contains(c.to.0) {
                    let w = choose|w: int| 0 <= w < next1.len() && next1[w] == x;
                    assert(next2[w] == x);
                }
            }
            assert forall|j: int| 0 <= j < ps.len() && (#[trigger] ps2[j]).inputs != ps[j].inputs implies next2.contains(
                j as usize,
            ) by {
                if j != c.to.0 as int {
                    assert(ps2[j] == ps1[j]);
                }
            }
        }
    }
}

proof fn lemma_pass_schedules(
    ps: Seq<Ports>,
    kinds: Seq<Primitive>,
    conns: Seq<Seq<Conn>>,
    to_upd: Seq<usize>,
    upd_list: Seq<usize>,
    time: u128,
    orders: Seq<Seq<usize>>,
    next: Seq<usize>,
)
    requires
        forall|i: int, k: int| 0 <= i < conns.len() && 0 <= k < conns[i].len() ==> (#[trigger] conns[i][k]).to.0 < ps.len(),
        forall|k: int| 0 <= k < upd_list.len() ==> (#[trigger] upd_list[k]) < ps.len() && upd_list[k] < conns.len(),
        orders.len() == upd_list.len(),
        forall|k: int, m: int|
            0 <= k < orders.len() && 0 <= m < orders[k].len() ==> (#[trigger] orders[k][m]) < conns[upd_list[k] as int].len(),
    ensures
        pass_spec(ps, kinds, conns, to_upd, upd_list, time, orders, next).0.len() == ps.len(),
        forall|x: usize| next.contains(x) ==> #[trigger] pass_spec(ps, kinds, conns, to_upd, upd_list, time, orders, next).2.contains(x),
        forall|j: int|
            0 <= j < ps.len() && (#[trigger] pass_spec(ps, kinds, conns, to_upd, upd_list, time, orders, next).0[j]).inputs
                != ps[j].inputs ==> pass_spec(ps, kinds, conns, to_upd, upd_list, time, orders, next).2.contains(j as usize),
    decreases upd_list.len(),
{
    if upd_list.len() > 0 {
        let rest = upd_list.drop_last();
        let orders_rest = orders.drop_last();
        assert forall|k: int, m: int|
            0 <= k < orders_rest.len() && 0 <= m < orders_rest[k].len() implies (#[trigger] orders_rest[k][m]) < conns[rest[k] as int].len() by {
            assert(orders_rest[k] == orders[k]);
            assert(orders[k][m] < conns[upd_list[k] as int].len());
        }
        lemma_pass_schedules(ps, kinds, conns, to_upd, rest, time, orders_rest, next);
        let (ps1, to_upd1, next1) = pass_spec(ps, kinds, conns, to_upd, rest, time, orders_rest, next);
        let idx = upd_list.last() as int;
        assert(idx == upd_list[upd_list.len() - 1]);
        let ps2 = ps1.update(
            idx,
            Ports {
                inputs: ps1[idx].inputs,
                outputs: updated_outputs_of(kinds[idx], ps1[idx].inputs, ps1[idx].outputs, time),
            },
        );
        let order = orders.last();
        assert forall|k: int| 0 <= k < conns[idx].len() implies (#[trigger] conns[idx][k]).to.0 < ps2.len() by {
            assert(conns[idx][k].to.0 < ps.len());
        }
        assert forall|m: int| 0 <= m < order.len() implies (#[trigger] order[m]) < conns[idx].len() by {
            assert(orders[orders.len() - 1][m] < conns[upd_list[upd_list.len() - 1] as int].len());
        }
        lemma_propagate_schedules(ps2, idx, conns[idx], order, next1);
        let (ps3, next3) = propagate_spec(ps2, idx, conns[idx], order, next1);
        assert forall|j: int| 0 <= j < ps.len() && (#[trigger] ps3[j]).inputs != ps[j].inputs implies next3.contains(
            j as usize,
        ) by {
            assert(ps2[j].inputs == ps1[j].inputs);
            if ps3[j].inputs == ps2[j].inputs {
                assert(ps1[j].inputs != ps[j].inputs);
                assert(next1.contains(j as usize));
            }
        }
    }
}

/// A pass keeps every component that was scheduled before it, and schedules
/// for the next pass each component one of whose inputs it changed.
pub proof fn lemma_pass_schedules_changed_inputs(
    ps: Seq<Ports>,
    kinds: Seq<Primitive>,
    conns: Seq<Seq<Conn>>,
    to_upd: Seq<usize>,
    upd_list: Seq<usize>,
    time: u128,
    orders: Seq<Seq<usize>>,
)
    requires
        shape_ok(ps, kinds, conns),
        forall|i: int| 0 <= i < conns.len() ==> (#[trigger] conns[i]).len() <= usize::MAX,
        forall|k: int| 0 <= k < upd_list.len() ==> (#[trigger] upd_list[k]) < ps.len(),
        orders.len() == upd_list.len(),
        forall|k: int| 0 <= k < upd_list.len() ==> is_order(#[trigger] orders[k], conns[upd_list[k] as int].len()),
    ensures
        ({
            let (ps2, _, next2) = pass_spec(ps, kinds, conns, to_upd, upd_list, time, orders, to_upd);
            &&& ps2.len() == ps.len()
            &&& forall|x: usize| to_upd.contains(x) ==> #[trigger] next2.contains(x)
            &&& forall|j: int| 0 <= j < ps.len() && (#[trigger] ps2[j]).inputs != ps[j].inputs ==> next2.contains(j as usize)
        }),
{
    let bnd = choose|b: Seq<bool>| widths_fixed(ps, kinds, conns, b);
    assert forall|i: int, k: int| 0 <= i < conns.len() && 0 <= k < conns[i].len() implies (#[trigger] conns[i][k]).to.0 < ps.len() by {
        let c = conns[i][k];
        assert(conn_ok(ps, kinds, bnd, i, c));
    }
    assert forall|k: int, m: int|
        0 <= k < orders.len() && 0 <= m < orders[k].len() implies (#[trigger] orders[k][m]) < conns[upd_list[k] as int].len() by {
        assert(is_order(orders[k], conns[upd_list[k] as int].len()));
        assert(conns[upd_list[k] as int].len() <= usize::MAX);
        lemma_order_in_range(orders[k], conns[upd_list[k] as int].len(), m);
    }
    lemma_pass_schedules(ps, kinds, conns, to_upd, upd_list, time, orders, to_upd);
}
} // verus!
