use vstd::prelude::*;

use crate::circuit::{Circuit, SubCircuit};
use crate::component::{Conn, PortAddr};
use crate::sim::primitives::data::Data;
use crate::sim::primitives::primitive::{ExtraInfo, Primitive};
use crate::sim::reindex::{clone_circuit, same_circuit};

verus! {

/// A point on the board; its coordinates are kept as the bits of the `f32`
/// values that place it.
#[derive(Debug, Clone, Copy, PartialEq, Eq, Structural)]
pub struct Pos {
    pub x_bits: u32,
    pub y_bits: u32,
}

/// The points a connection is drawn through.
#[derive(Debug, Clone)]
pub struct ConnectionInfo {
    pub points: Vec<Pos>,
}

/// A circuit being drawn: its sub-components with their places and the
/// values shown at their ports, its connections with the points they are
/// drawn through, and the pins bound to its inputs and outputs.
pub struct ComponentBoard {
    pub name: String,
    pub inputs: usize,
    pub outputs: usize,
    pub comp_pos: Vec<Pos>,
    pub comp_conns: Vec<ConnectionInfo>,
    pub components: Vec<Circuit>,
    pub connections: Vec<Conn>,
    pub in_addrs: Vec<(usize, PortAddr)>,
    pub out_addrs: Vec<PortAddr>,
    pub data_vals: Vec<(Vec<Data>, Vec<Data>)>,
}

impl Default for ComponentBoard {
    fn default() -> (b: Self)
        ensures
            b.name@ == Seq::<char>::empty(),
            b.inputs == 0,
            b.outputs == 0,
            b.comp_pos@ == Seq::<Pos>::empty(),
            b.comp_conns@ == Seq::<ConnectionInfo>::empty(),
            b.components@ == Seq::<Circuit>::empty(),
            b.connections@ == Seq::<Conn>::empty(),
            b.in_addrs@ == Seq::<(usize, PortAddr)>::empty(),
            b.out_addrs@ == Seq::<PortAddr>::empty(),
            b.data_vals@ == Seq::<(Vec<Data>, Vec<Data>)>::empty(),
    {
        ComponentBoard {
            name: String::new(),
            inputs: 0,
            outputs: 0,
            comp_pos: Vec::new(),
            comp_conns: Vec::new(),
            components: Vec::new(),
            connections: Vec::new(),
            in_addrs: Vec::new(),
            out_addrs: Vec::new(),
            data_vals: Vec::new(),
        }
    }
}

/// The value shown at an input of `c` before anything is simulated.
pub open spec fn input_default(c: Circuit) -> Option<Data> {
    match c.extra.primitive {
        Some(p) => p.spec_input_default(),
        None => Some(Data { value: 0, size: 1 }),
    }
}

/// The value shown at an output of `c` before anything is simulated.
pub open spec fn output_default(c: Circuit) -> Option<Data> {
    match c.extra.primitive {
        Some(p) => p.spec_output_default(),
        None => Some(Data { value: 0, size: 1 }),
    }
}

/// Every port of `c` has a value to show before anything is simulated.
pub open spec fn has_defaults(c: Circuit) -> bool {
    &&& (c.inputs > 0 ==> input_default(c) is Some)
    &&& (c.outputs > 0 ==> output_default(c) is Some)
}

/// The position of a connection is to be walked past: the walk over `v`
/// from position `i` up to `end` drops each element that `gone` picks, the
/// element after a dropped one moving into its place and being passed over.
/// What is left, with the number of elements dropped; `None` when the walk
/// reaches a position past the end of what is left.
pub open spec fn sweep<A>(v: Seq<A>, gone: spec_fn(A) -> bool, i: nat, end: nat) -> Option<(Seq<A>, nat)>
    decreases end - i,
{
    if i >= end {
        Some((v, 0))
    } else if i >= v.len() {
        None
    } else if gone(v[i as int]) {
        match sweep(v.remove(i as int), gone, i + 1, end) {
            Some((w, n)) => Some((w, n + 1)),
            None => None,
        }
    } else {
        sweep(v, gone, i + 1, end)
    }
}

/// An input binding to the sub-component `idx`.
pub open spec fn in_to(idx: usize) -> spec_fn((usize, PortAddr)) -> bool {
    |a: (usize, PortAddr)| a.1.0 == idx
}

/// An output binding to the sub-component `idx`.
pub open spec fn out_to(idx: usize) -> spec_fn(PortAddr) -> bool {
    |p: PortAddr| p.0 == idx
}

/// The connection `c` leaves or enters the sub-component `idx`.
pub open spec fn touches(c: Conn, idx: usize) -> bool {
    c.from.0 == idx || c.to.0 == idx
}

/// `c` with its sub-component indices above `idx` moved down by one.
pub open spec fn shifted(c: Conn, idx: usize) -> Conn {
    Conn {
        from: (if c.from.0 > idx { (c.from.0 - 1) as usize } else { c.from.0 }, c.from.1),
        to: (if c.to.0 > idx { (c.to.0 - 1) as usize } else { c.to.0 }, c.to.1),
    }
}

/// The connections of `s` that do not touch `idx`, shifted past it.
pub open spec fn kept_conns(s: Seq<Conn>, idx: usize) -> Seq<Conn>
    decreases s.len(),
{
    if s.len() == 0 {
        Seq::empty()
    } else {
        let r = kept_conns(s.drop_last(), idx);
        if touches(s.last(), idx) {
            r
        } else {
            r.push(shifted(s.last(), idx))
        }
    }
}

/// The drawing points `infos` of the connections of `s` that do not touch
/// `idx`.
pub open spec fn kept_infos(s: Seq<Conn>, infos: Seq<ConnectionInfo>, idx: usize) -> Seq<ConnectionInfo>
    decreases s.len(),
{
    if s.len() == 0 {
        Seq::empty()
    } else {
        let r = kept_infos(s.drop_last(), infos, idx);
        if touches(s.last(), idx) {
            r
        } else {
            r.push(infos[s.len() - 1])
        }
    }
}

/// `c` is the circuit drawn on `b`, with id 0: the board's name, ports,
/// bindings and connections, and copies of its sub-components.
pub open spec fn drawn(c: Circuit, b: ComponentBoard) -> bool {
    &&& c.id == 0
    &&& c.name matches Some(n) && n@ == b.name@
    &&& c.inputs == b.inputs
    &&& c.outputs == b.outputs
    &&& c.extra == (ExtraInfo { id: 0, primitive: None })
    &&& c.sub matches Some(s)
    &&& s.components@.len() == b.components@.len()
    &&& forall|k: int| 0 <= k < s.components@.len() ==> same_circuit(#[trigger] s.components@[k], b.components@[k])
    &&& s.connections@ == b.connections@
    &&& s.in_addrs@ == b.in_addrs@
    &&& s.out_addrs@ == b.out_addrs@
}

/// `c` is a primitive part of kind `p` with id `id`, named `name`.
pub open spec fn part_circuit(c: Circuit, id: usize, name: Seq<char>, ins: nat, outs: nat, p: Primitive) -> bool {
    &&& c.id == id
    &&& c.name matches Some(n) && n@ == name
    &&& c.inputs == ins
    &&& c.outputs == outs
    &&& c.extra == (ExtraInfo { id, primitive: Some(p) })
    &&& c.sub is None
}

/// `b1` is `b0` with the part `part_circuit(.., id, name, ins, outs, p)`
/// placed at `pos`, showing the default values at its ports.
pub open spec fn placed(
    b0: ComponentBoard,
    b1: ComponentBoard,
    pos: Pos,
    id: usize,
    name: Seq<char>,
    ins: nat,
    outs: nat,
    p: Primitive,
) -> bool {
    &&& b1.components@.len() == b0.components@.len() + 1
    &&& b1.components@.drop_last() == b0.components@
    &&& part_circuit(b1.components@.last(), id, name, ins, outs, p)
    &&& b1.comp_pos@ == b0.comp_pos@.push(pos)
    &&& b1.data_vals@.len() == b0.data_vals@.len() + 1
    &&& b1.data_vals@.drop_last() == b0.data_vals@
    &&& b1.data_vals@.last().0@ == Seq::new(ins, |_k: int| p.spec_input_default().unwrap())
    &&& b1.data_vals@.last().1@ == Seq::new(outs, |_k: int| p.spec_output_default().unwrap())
    &&& b1.name == b0.name
    &&& b1.inputs == b0.inputs
    &&& b1.outputs == b0.outputs
    &&& b1.comp_conns@ == b0.comp_conns@
    &&& b1.connections@ == b0.connections@
    &&& b1.in_addrs@ == b0.in_addrs@
    &&& b1.out_addrs@ == b0.out_addrs@
    &&& b0.wf() ==> b1.wf()
}

impl ComponentBoard {
    /// Each sub-component has a place and shown values, and each connection
    /// its drawing points.
    pub open spec fn wf(&self) -> bool {
        &&& self.comp_pos@.len() == self.components@.len()
        &&& self.data_vals@.len() == self.components@.len()
        &&& self.comp_conns@.len() == self.connections@.len()
    }

    /// The circuit drawn on the board, with id 0.
    pub fn build_component(&mut self) -> (c: Circuit)
        ensures
            *final(self) == *old(self),
            drawn(c, *old(self)),
    {
        let mut components: Vec<Circuit> = Vec::new();
        let mut k: usize = 0;
        while k < self.components.len()
            invariant
                k <= self.components@.len(),
                components@.len() == k,
                forall|j: int| 0 <= j < k ==> same_circuit(#[trigger] components@[j], self.components@[j]),
            decreases self.components@.len() - k,
        {
            components.push(clone_circuit(&self.components[k]));
            k = k + 1;
        }
        let mut connections: Vec<Conn> = Vec::new();
        let mut k: usize = 0;
        while k < self.connections.len()
            invariant
                k <= self.connections@.len(),
                connections@ == self.connections@.take(k as int),
            decreases self.connections@.len() - k,
        {
            connections.push(self.connections[k]);
            k = k + 1;
            assert(connections@ =~= self.connections@.take(k as int));
        }
        let mut in_addrs: Vec<(usize, PortAddr)> = Vec::new();
        let mut k: usize = 0;
        while k < self.in_addrs.len()
            invariant
                k <= self.in_addrs@.len(),
                in_addrs@ == self.in_addrs@.take(k as int),
            decreases self.in_addrs@.len() - k,
        {
            in_addrs.push(self.in_addrs[k]);
            k = k + 1;
            assert(in_addrs@ =~= self.in_addrs@.take(k as int));
        }
        let mut out_addrs: Vec<PortAddr> = Vec::new();
        let mut k: usize = 0;
        while k < self.out_addrs.len()
            invariant
                k <= self.out_addrs@.len(),
                out_addrs@ == self.out_addrs@.take(k as int),
            decreases self.out_addrs@.len() - k,
        {
            out_addrs.push(self.out_addrs[k]);
            k = k + 1;
            assert(out_addrs@ =~= self.out_addrs@.take(k as int));
        }
        proof {
            assert(self.connections@.take(self.connections@.len() as int) =~= self.connections@);
            assert(self.in_addrs@.take(self.in_addrs@.len() as int) =~= self.in_addrs@);
            assert(self.out_addrs@.take(self.out_addrs@.len() as int) =~= self.out_addrs@);
        }
        Circuit {
            id: 0,
            name: Some(self.name.clone()),
            inputs: self.inputs,
            outputs: self.outputs,
            sub: Some(SubCircuit { components, connections, in_addrs, out_addrs }),
            extra: ExtraInfo::new(0),
        }
    }

    /// The values shown at the ports of `comp` before anything is simulated.
    fn get_default_data_vals(comp: &Circuit) -> (r: (Vec<Data>, Vec<Data>))
        requires
            has_defaults(*comp),
        ensures
            r.0@ == Seq::new(comp.inputs as nat, |_k: int| input_default(*comp).unwrap()),
            r.1@ == Seq::new(comp.outputs as nat, |_k: int| output_default(*comp).unwrap()),
    {
        let mut ins: Vec<Data> = Vec::new();
        let mut k: usize = 0;
        while k < comp.inputs
            invariant
                has_defaults(*comp),
                k <= comp.inputs,
                ins@ == Seq::new(k as nat, |_k: int| input_default(*comp).unwrap()),
            decreases comp.inputs - k,
        {
            let d = match comp.extra.primitive {
                Some(p) => p.input_default_data().unwrap(),
                None => Data::low(),
            };
            ins.push(d);
            k = k + 1;
            assert(ins@ =~= Seq::new(k as nat, |_k: int| input_default(*comp).unwrap()));
        }
        let mut outs: Vec<Data> = Vec::new();
        let mut k: usize = 0;
        while k < comp.outputs
            invariant
                has_defaults(*comp),
                k <= comp.outputs,
                outs@ == Seq::new(k as nat, |_k: int| output_default(*comp).unwrap()),
            decreases comp.outputs - k,
        {
            let d = match comp.extra.primitive {
                Some(p) => p.output_default_data().unwrap(),
                None => Data::low(),
            };
            outs.push(d);
            k = k + 1;
            assert(outs@ =~= Seq::new(k as nat, |_k: int| output_default(*comp).unwrap()));
        }
        (ins, outs)
    }

    /// Places `subc` at `pos`, showing the default values at its ports.
    pub fn add_subc(&mut self, subc: Circuit, pos: Pos)
        requires
            has_defaults(subc),
        ensures
            final(self).components@ == old(self).components@.push(subc),
            final(self).comp_pos@ == old(self).comp_pos@.push(pos),
            final(self).data_vals@.len() == old(self).data_vals@.len() + 1,
            final(self).data_vals@.drop_last() == old(self).data_vals@,
            final(self).data_vals@.last().0@ == Seq::new(subc.inputs as nat, |_k: int| input_default(subc).unwrap()),
            final(self).data_vals@.last().1@ == Seq::new(subc.outputs as nat, |_k: int| output_default(subc).unwrap()),
            final(self).name == old(self).name,
            final(self).inputs == old(self).inputs,
            final(self).outputs == old(self).outputs,
            final(self).comp_conns@ == old(self).comp_conns@,
            final(self).connections@ == old(self).connections@,
            final(self).in_addrs@ == old(self).in_addrs@,
            final(self).out_addrs@ == old(self).out_addrs@,
            old(self).wf() ==> final(self).wf(),
    {
        let vals = Self::get_default_data_vals(&subc);
        self.components.push(subc);
        self.comp_pos.push(pos);
        self.data_vals.push(vals);
        assert(self.data_vals@.drop_last() =~= old(self).data_vals@);
    }

    /// Removes the sub-component `idx` with its place and shown values; the
    /// input and output bindings to it are dropped as `sweep` walks them,
    /// each counted off the inputs or outputs; the connections touching it
    /// are dropped with their drawing points, and the others shifted past it.
    #[verifier::loop_isolation(false)]
    pub fn remove_subc(&mut self, idx: usize)
        requires
            old(self).wf(),
            idx < old(self).components@.len(),
            sweep(old(self).in_addrs@, in_to(idx), 0, old(self).in_addrs@.len()) matches Some((_, n)) && n
                <= old(self).inputs,
            sweep(old(self).out_addrs@, out_to(idx), 0, old(self).out_addrs@.len()) matches Some((_, n)) && n
                <= old(self).outputs,
        ensures
            final(self).wf(),
            final(self).name == old(self).name,
            final(self).components@ == old(self).components@.remove(idx as int),
            final(self).comp_pos@ == old(self).comp_pos@.remove(idx as int),
            final(self).data_vals@ == old(self).data_vals@.remove(idx as int),
            sweep(old(self).in_addrs@, in_to(idx), 0, old(self).in_addrs@.len()) == Some(
                (final(self).in_addrs@, (old(self).inputs - final(self).inputs) as nat),
            ),
            final(self).inputs <= old(self).inputs,
            sweep(old(self).out_addrs@, out_to(idx), 0, old(self).out_addrs@.len()) == Some(
                (final(self).out_addrs@, (old(self).outputs - final(self).outputs) as nat),
            ),
            final(self).outputs <= old(self).outputs,
            final(self).connections@ == kept_conns(old(self).connections@, idx),
            final(self).comp_conns@ == kept_infos(old(self).connections@, old(self).comp_conns@, idx),
    {
        self.components.remove(idx);
        self.comp_pos.remove(idx);
        self.data_vals.remove(idx);

        let ghost ins0 = self.in_addrs@;
        let ghost inputs0 = self.inputs as nat;
        let len = self.in_addrs.len();
        let ghost total = sweep(ins0, in_to(idx), 0, len as nat).unwrap().1;
        let mut i: usize = 0;
        let ghost mut dropped: nat = 0;
        while i < len
            invariant
                i <= len,
                sweep(ins0, in_to(idx), 0, len as nat) == match sweep(self.in_addrs@, in_to(idx), i as nat, len as nat) {
                    Some((w, n)) => Some((w, n + dropped)),
                    None => None,
                },
                sweep(ins0, in_to(idx), 0, len as nat) is Some,
                total == sweep(ins0, in_to(idx), 0, len as nat).unwrap().1,
                total <= inputs0,
                dropped <= total,
                self.inputs as nat == inputs0 - dropped,
                self.name == old(self).name,
                self.components@ == old(self).components@.remove(idx as int),
                self.comp_pos@ == old(self).comp_pos@.remove(idx as int),
                self.data_vals@ == old(self).data_vals@.remove(idx as int),
                self.out_addrs@ == old(self).out_addrs@,
                self.outputs == old(self).outputs,
                self.connections@ == old(self).connections@,
                self.comp_conns@ == old(self).comp_conns@,
            decreases len - i,
        {
            let ghost before = self.in_addrs@;
            if self.in_addrs[i].1.0 == idx {
                proof {
                    lemma_sweep_count(before.remove(i as int), in_to(idx), i as nat + 1, len as nat);
                }
                self.in_addrs.remove(i);
                self.inputs = self.inputs - 1;
                proof {
                    dropped = dropped + 1;
                }
            }
            i = i + 1;
        }

        let ghost ins1 = self.in_addrs@;
        let ghost inputs1 = self.inputs;
        let ghost outs0 = self.out_addrs@;
        let ghost outputs0 = self.outputs as nat;
        let len = self.out_addrs.len();
        let ghost total_out = sweep(outs0, out_to(idx), 0, len as nat).unwrap().1;
        let mut i: usize = 0;
        let ghost mut dropped_out: nat = 0;
        while i < len
            invariant
                i <= len,
                sweep(outs0, out_to(idx), 0, len as nat) == match sweep(self.out_addrs@, out_to(idx), i as nat, len as nat) {
                    Some((w, n)) => Some((w, n + dropped_out)),
                    None => None,
                },
                sweep(outs0, out_to(idx), 0, len as nat) is Some,
                total_out == sweep(outs0, out_to(idx), 0, len as nat).unwrap().1,
                total_out <= outputs0,
                dropped_out <= total_out,
                self.outputs as nat == outputs0 - dropped_out,
                self.name == old(self).name,
                self.components@ == old(self).components@.remove(idx as int),
                self.comp_pos@ == old(self).comp_pos@.remove(idx as int),
                self.data_vals@ == old(self).data_vals@.remove(idx as int),
                self.in_addrs@ == ins1,
                self.inputs == inputs1,
                self.connections@ == old(self).connections@,
                self.comp_conns@ == old(self).comp_conns@,
            decreases len - i,
        {
            let ghost before = self.out_addrs@;
            if self.out_addrs[i].0 == idx {
                proof {
                    lemma_sweep_count(before.remove(i as int), out_to(idx), i as nat + 1, len as nat);
                }
                self.out_addrs.remove(i);
                self.outputs = self.outputs - 1;
                proof {
                    dropped_out = dropped_out + 1;
                }
            }
            i = i + 1;
        }

        let ghost outs1 = self.out_addrs@;
        let ghost outputs1 = self.outputs;
        let ghost conns0 = self.connections@;
        let ghost infos0 = self.comp_conns@;
        let ghost mut j: int = 0;
        let mut i: usize = 0;
        proof {
            assert(conns0.take(0) =~= Seq::<Conn>::empty());
            assert(conns0.skip(0) =~= conns0);
            assert(infos0.skip(0) =~= infos0);
        }
        while i < self.connections.len()
            invariant
                infos0.len() == conns0.len(),
                0 <= j <= conns0.len(),
                i as int == kept_conns(conns0.take(j), idx).len(),
                self.connections@ == kept_conns(conns0.take(j), idx) + conns0.skip(j),
                self.comp_conns@ == kept_infos(conns0.take(j), infos0, idx) + infos0.skip(j),
                kept_infos(conns0.take(j), infos0, idx).len() == i,
                self.name == old(self).name,
                self.components@ == old(self).components@.remove(idx as int),
                self.comp_pos@ == old(self).comp_pos@.remove(idx as int),
                self.data_vals@ == old(self).data_vals@.remove(idx as int),
                self.in_addrs@ == ins1,
                self.inputs == inputs1,
                self.out_addrs@ == outs1,
                self.outputs == outputs1,
            decreases conns0.len() - j,
        {
            let conn = self.connections[i];
            proof {
                assert(conn == conns0[j]);
                assert(conns0.take(j + 1).drop_last() =~= conns0.take(j));
                assert(conns0.take(j + 1).last() == conns0[j]);
                lemma_kept_infos_prefix(conns0, infos0, idx, j + 1);
            }
            if conn.from.0 == idx || conn.to.0 == idx {
                self.connections.remove(i);
                self.comp_conns.remove(i);
                proof {
                    j = j + 1;
                    assert(self.connections@ =~= kept_conns(conns0.take(j), idx) + conns0.skip(j));
                    assert(self.comp_conns@ =~= kept_infos(conns0.take(j), infos0, idx) + infos0.skip(j));
                }
            } else {
                let mut c = conn;
                if conn.from.0 > idx {
                    c.from.0 = conn.from.0 - 1;
                }
                if conn.to.0 > idx {
                    c.to.0 = conn.to.0 - 1;
                }
                self.connections.set(i, c);
                proof {
                    j = j + 1;
                    assert(c == shifted(conns0[j - 1], idx));
                    assert(self.connections@ =~= kept_conns(conns0.take(j), idx) + conns0.skip(j));
                    assert(self.comp_conns@ =~= kept_infos(conns0.take(j), infos0, idx) + infos0.skip(j));
                }
                i = i + 1;
            }
        }
        proof {
            if j < conns0.len() {
                assert(self.connections@.len() > i);
            }
            assert(conns0.take(j) =~= conns0);
            assert(self.connections@ =~= kept_conns(conns0, idx));
            assert(self.comp_conns@ =~= kept_infos(conns0, infos0, idx));
            lemma_kept_lens(conns0, infos0, idx);
        }
    }

    /// Places the primitive part described by the arguments at `pos`.
    fn add_part(&mut self, id: usize, name: &str, ins: usize, outs: usize, p: Primitive, pos: Pos)
        requires
            ins > 0 ==> p.spec_input_default() is Some,
            outs > 0 ==> p.spec_output_default() is Some,
        ensures
            placed(*old(self), *final(self), pos, id, name@, ins as nat, outs as nat, p),
    {
        let part = Circuit {
            id,
            name: Some(String::from_str(name)),
            inputs: ins,
            outputs: outs,
            extra: ExtraInfo::from_primitive(id, p),
            sub: None,
        };
        self.add_subc(part, pos);
        assert(self.data_vals@.last().0@ =~= Seq::new(ins as nat, |_k: int| p.spec_input_default().unwrap()));
        assert(self.data_vals@.last().1@ =~= Seq::new(outs as nat, |_k: int| p.spec_output_default().unwrap()));
        assert(part_circuit(self.components@.last(), id, name@, ins as nat, outs as nat, p));
        assert(self.components@.drop_last() =~= old(self).components@);
    }

    pub fn add_and_gate(&mut self, id: usize, in_count: usize, pos: Pos)
        ensures
            placed(*old(self), *final(self), pos, id, "AND"@, in_count as nat, 1, Primitive::AndGate),
    {
        self.add_part(id, "AND", in_count, 1, Primitive::AndGate, pos);
    }

    pub fn add_nand_gate(&mut self, id: usize, in_count: usize, pos: Pos)
        ensures
            placed(*old(self), *final(self), pos, id, "NAND"@, in_count as nat, 1, Primitive::NandGate),
    {
        self.add_part(id, "NAND", in_count, 1, Primitive::NandGate, pos);
    }

    pub fn add_or_gate(&mut self, id: usize, in_count: usize, pos: Pos)
        ensures
            placed(*old(self), *final(self), pos, id, "OR"@, in_count as nat, 1, Primitive::OrGate),
    {
        self.add_part(id, "OR", in_count, 1, Primitive::OrGate, pos);
    }

    pub fn add_nor_gate(&mut self, id: usize, in_count: usize, pos: Pos)
        ensures
            placed(*old(self), *final(self), pos, id, "NOR"@, in_count as nat, 1, Primitive::NorGate),
    {
        self.add_part(id, "NOR", in_count, 1, Primitive::NorGate, pos);
    }

    pub fn add_xor_gate(&mut self, id: usize, in_count: usize, pos: Pos)
        ensures
            placed(*old(self), *final(self), pos, id, "XOR"@, in_count as nat, 1, Primitive::XorGate),
    {
        self.add_part(id, "XOR", in_count, 1, Primitive::XorGate, pos);
    }

    pub fn add_not_gate(&mut self, id: usize, pos: Pos)
        ensures
            placed(*old(self), *final(self), pos, id, "NOT"@, 1, 1, Primitive::NotGate),
    {
        self.add_part(id, "NOT", 1, 1, Primitive::NotGate, pos);
    }

    pub fn add_const_high_gate(&mut self, id: usize, pos: Pos)
        ensures
            placed(*old(self), *final(self), pos, id, "HIGH"@, 0, 1, Primitive::Const { value: Data { value: 1, size: 1 } }),
    {
        self.add_part(id, "HIGH", 0, 1, Primitive::Const { value: Data::high() }, pos);
    }

    pub fn add_const_low_gate(&mut self, id: usize, pos: Pos)
        ensures
            placed(*old(self), *final(self), pos, id, "LOW"@, 0, 1, Primitive::Const { value: Data { value: 0, size: 1 } }),
    {
        self.add_part(id, "LOW", 0, 1, Primitive::Const { value: Data::low() }, pos);
    }

    /// Places a clock of period one second.
    pub fn add_clock_gate(&mut self, id: usize, pos: Pos)
        ensures
            placed(*old(self), *final(self), pos, id, "CLK"@, 0, 1, Primitive::Clock { period: 1000000000 }),
    {
        self.add_part(id, "CLK", 0, 1, Primitive::Clock { period: 1000000000 }, pos);
    }

    pub fn add_splitter(&mut self, id: usize, bits: u8, pos: Pos)
        ensures
            placed(*old(self), *final(self), pos, id, "SPLIT"@, 1, bits as nat, Primitive::Splitter { bits }),
    {
        self.add_part(id, "SPLIT", 1, bits as usize, Primitive::Splitter { bits }, pos);
    }

    pub fn add_joiner(&mut self, id: usize, bits: u8, pos: Pos)
        ensures
            placed(*old(self), *final(self), pos, id, "JOIN"@, bits as nat, 1, Primitive::Joiner { bits }),
    {
        self.add_part(id, "JOIN", bits as usize, 1, Primitive::Joiner { bits }, pos);
    }

    /// Adds the connection from output `from_port` of `from` to input
    /// `to_port` of `to`, drawn through `points`.
    pub fn add_conn(&mut self, from: usize, to: usize, from_port: usize, to_port: usize, points: Vec<Pos>)
        ensures
            final(self).connections@ == old(self).connections@.push(
                Conn { from: (from, from_port), to: (to, to_port) },
            ),
            final(self).comp_conns@.len() == old(self).comp_conns@.len() + 1,
            final(self).comp_conns@.drop_last() == old(self).comp_conns@,
            final(self).comp_conns@.last().points@ == points@,
            final(self).components@ == old(self).components@,
            final(self).comp_pos@ == old(self).comp_pos@,
            final(self).data_vals@ == old(self).data_vals@,
            old(self).wf() ==> final(self).wf(),
    {
        self.connections.push(Conn { from: (from, from_port), to: (to, to_port) });
        self.comp_conns.push(ConnectionInfo { points });
        assert(self.comp_conns@.drop_last() =~= old(self).comp_conns@);
    }

    /// Removes the connection `idx` with its drawing points.
    pub fn remove_conn(&mut self, idx: usize)
        requires
            idx < old(self).connections@.len(),
            idx < old(self).comp_conns@.len(),
        ensures
            final(self).connections@ == old(self).connections@.remove(idx as int),
            final(self).comp_conns@ == old(self).comp_conns@.remove(idx as int),
            final(self).components@ == old(self).components@,
            final(self).comp_pos@ == old(self).comp_pos@,
            final(self).data_vals@ == old(self).data_vals@,
            old(self).wf() ==> final(self).wf(),
    {
        self.connections.remove(idx);
        self.comp_conns.remove(idx);
    }
}

/// Each step of `sweep` either drops an element, counted, or passes one.
proof fn lemma_sweep_count<A>(v: Seq<A>, gone: spec_fn(A) -> bool, i: nat, end: nat)
    ensures
        sweep(v, gone, i, end) matches Some((w, n)) ==> w.len() + n == v.len(),
    decreases end - i,
{
    if i < end && i < v.len() {
        if gone(v[i as int]) {
            lemma_sweep_count(v.remove(i as int), gone, i + 1, end);
        } else {
            lemma_sweep_count(v, gone, i + 1, end);
        }
    }
}

proof fn lemma_kept_infos_prefix(s: Seq<Conn>, infos: Seq<ConnectionInfo>, idx: usize, k: int)
    requires
        0 < k <= s.len(),
    ensures
        kept_infos(s.take(k), infos, idx) == if touches(s[k - 1], idx) {
            kept_infos(s.take(k - 1), infos, idx)
        } else {
            kept_infos(s.take(k - 1), infos, idx).push(infos[k - 1])
        },
{
    assert(s.take(k).drop_last() =~= s.take(k - 1));
    assert(s.take(k).last() == s[k - 1]);
}

proof fn lemma_kept_lens(s: Seq<Conn>, infos: Seq<ConnectionInfo>, idx: usize)
    ensures
        kept_conns(s, idx).len() == kept_infos(s, infos, idx).len(),
    decreases s.len(),
{
    if s.len() > 0 {
        lemma_kept_lens(s.drop_last(), infos, idx);
    }
}

/// Removing a sub-component keeps every connection within the board: when
/// all connections of `s` join sub-components below `n` and `idx < n`, all
/// connections kept by `remove_subc` join sub-components below `n - 1`.
pub proof fn lemma_kept_conns_in_range(s: Seq<Conn>, idx: usize, n: nat)
    requires
        idx < n,
        forall|i: int| 0 <= i < s.len() ==> (#[trigger] s[i]).from.0 < n && s[i].to.0 < n,
    ensures
        forall|i: int|
            0 <= i < kept_conns(s, idx).len() ==> (#[trigger] kept_conns(s, idx)[i]).from.0 < n - 1
                && kept_conns(s, idx)[i].to.0 < n - 1,
    decreases s.len(),
{
    if s.len() > 0 {
        let p = s.drop_last();
        assert forall|i: int| 0 <= i < p.len() implies (#[trigger] p[i]).from.0 < n && p[i].to.0 < n by {
            assert(p[i] == s[i]);
        }
        lemma_kept_conns_in_range(p, idx, n);
        let r = kept_conns(p, idx);
        if !touches(s.last(), idx) {
            let c = shifted(s.last(), idx);
            assert(s.last() == s[s.len() - 1]);
            assert forall|i: int| 0 <= i < r.push(c).len() implies (#[trigger] r.push(c)[i]).from.0 < n - 1
                && r.push(c)[i].to.0 < n - 1 by {
                if i < r.len() {
                    assert(r.push(c)[i] == r[i]);
                }
            }
        }
    }
}

/// Removing the connection just added gives back the board's connections
/// and drawing points: `remove_conn` of the last index undoes `add_conn`.
pub proof fn lemma_remove_undoes_add<A>(s: Seq<A>, a: A)
    ensures
        s.push(a).remove(s.len() as int) == s,
{
    assert(s.push(a).remove(s.len() as int) =~= s);
}

} // verus!
