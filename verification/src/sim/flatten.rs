use std::collections::HashMap;

use vstd::prelude::*;

use crate::component::PortAddr;
use crate::component::Conn;
use super::errors::{ComponentRequestError, DataRequestError};
use super::primitives::data::Data;
use super::primitives::primitive::{Primitive, PrimitiveComponent};
use super::primitives::data::bits_text;
use crate::circuit::{Circuit, circuits_depth, circuits_leaves, lemma_circuits_depth_bound};
use crate::component::falses;
use super::errors::FlattenComponentError;
use super::reindex::{
    cfg_shape,
    clone_circuit,
    config_ok,
    fix_inputs_data_addrs,
    fixed,
    fix_safe,
    lemma_config_shape,
    lemma_same_fix,
    reindex_connections,
    flat_from,
    flat_tos,
    flat_conns,
    flat_ins,
    flat_outs,
    kid_starts,
    lemma_kid_starts,
    matching_ins,
    reindex_ok,
    reindex_safe,
};

verus! {

broadcast use vstd::std_specs::hash::group_hash_axioms;

/// How a (possibly composed) component maps onto the flattened circuit:
/// its name, its id, for a composed one the configurations of its
/// sub-components by id, and the flat addresses of its inputs and outputs.
#[derive(Debug)]
pub enum NestedConfig {
    Single(String, usize, Vec<PortAddr>, Vec<PortAddr>),
    Compose(String, usize, HashMap<usize, NestedConfig>, Vec<PortAddr>, Vec<PortAddr>),
}

impl NestedConfig {
    /// Flat addresses of the inputs.
    pub open spec fn spec_ins(&self) -> Seq<PortAddr> {
        match self {
            NestedConfig::Single(_, _, ins, _) => ins@,
            NestedConfig::Compose(_, _, _, ins, _) => ins@,
        }
    }

    /// Flat addresses of the outputs.
    pub open spec fn spec_outs(&self) -> Seq<PortAddr> {
        match self {
            NestedConfig::Single(_, _, _, outs) => outs@,
            NestedConfig::Compose(_, _, _, _, outs) => outs@,
        }
    }

    pub fn get_input_addr(&self, idx: usize) -> (a: PortAddr)
        requires
            idx < self.spec_ins().len(),
        ensures
            a == self.spec_ins()[idx as int],
    {
        match self {
            NestedConfig::Single(_, _, ins, _) => ins[idx],
            NestedConfig::Compose(_, _, _, ins, _) => ins[idx],
        }
    }

    pub fn get_output_addr(&self, idx: usize) -> (a: PortAddr)
        requires
            idx < self.spec_outs().len(),
        ensures
            a == self.spec_outs()[idx as int],
    {
        match self {
            NestedConfig::Single(_, _, _, outs) => outs[idx],
            NestedConfig::Compose(_, _, _, _, outs) => outs[idx],
        }
    }
}

/// Outcome of following a path of ids through nested configurations.
pub enum PathWalk {
    /// The path leads to this configuration.
    Found(NestedConfig),
    /// No sub-component has this id.
    Missing(usize),
    /// The path goes on below a primitive.
    Stuck,
}

/// Follows `path` from `c`, one sub-component id at a time.
pub open spec fn walk(c: NestedConfig, path: Seq<usize>) -> PathWalk
    decreases path.len(),
{
    if path.len() == 0 {
        PathWalk::Found(c)
    } else {
        match c {
            NestedConfig::Compose(_, _, subs, _, _) => if subs@.contains_key(path[0]) {
                walk(subs@[path[0]], path.drop_first())
            } else {
                PathWalk::Missing(path[0])
            },
            NestedConfig::Single(..) => PathWalk::Stuck,
        }
    }
}

proof fn lemma_walk_step(c: NestedConfig, path: Seq<usize>, id: usize)
    requires
        walk(c, path) is Found,
    ensures
        walk(c, path.push(id)) == (match walk(c, path)->Found_0 {
            NestedConfig::Compose(_, _, subs, _, _) => if subs@.contains_key(id) {
                PathWalk::Found(subs@[id])
            } else {
                PathWalk::Missing(id)
            },
            NestedConfig::Single(..) => PathWalk::Stuck,
        }),
    decreases path.len(),
{
    assert(path.push(id)[0] == if path.len() > 0 { path[0] } else { id });
    if path.len() == 0 {
        assert(path.push(id).drop_first() =~= Seq::<usize>::empty());
        match c {
            NestedConfig::Compose(_, _, subs, _, _) => {
                if subs@.contains_key(id) {
                    assert(walk(subs@[id], Seq::<usize>::empty()) == PathWalk::Found(subs@[id]));
                }
            },
            NestedConfig::Single(..) => {},
        }
    } else {
        assert(path.push(id).drop_first() == path.drop_first().push(id));
        match c {
            NestedConfig::Compose(_, _, subs, _, _) => {
                lemma_walk_step(subs@[path[0]], path.drop_first(), id);
            },
            NestedConfig::Single(..) => {},
        }
    }
}

proof fn lemma_walk_missing(c: NestedConfig, path: Seq<usize>, id: usize)
    requires
        walk(c, path) is Missing,
    ensures
        walk(c, path.push(id)) == walk(c, path),
    decreases path.len(),
{
    if path.len() > 0 {
        assert(path.push(id).drop_first() == path.drop_first().push(id));
        match c {
            NestedConfig::Compose(_, _, subs, _, _) => {
                if subs@.contains_key(path[0]) {
                    lemma_walk_missing(subs@[path[0]], path.drop_first(), id);
                }
            },
            NestedConfig::Single(..) => {},
        }
    }
}

/// A circuit reduced to primitive components and the connections between
/// their ports.
#[derive(Debug)]
pub struct FlattenComponent {
    pub components: Vec<PrimitiveComponent>,
    /// For each component, the connections that leave it.
    pub connections: Vec<Vec<Conn>>,
    /// For each component, the components it takes inputs from.
    pub deps: Vec<Vec<usize>>,
    /// For each component, the components that take inputs from it.
    pub inv_deps: Vec<Vec<usize>>,
    pub nested_config: NestedConfig,
    /// Position of each component id among the components.
    pub id_to_idx: HashMap<usize, usize>,
}

impl FlattenComponent {
    /// Position of each component id among the components.
    pub open spec fn id_index(&self) -> Map<usize, usize> {
        self.id_to_idx@
    }

    /// The id table points every id at a component with that id.
    pub open spec fn ids_ok(&self) -> bool {
        forall|id: usize|
            #[trigger] self.id_index().contains_key(id) ==> self.id_index()[id] < self.components.len()
                && self.components[self.id_index()[id] as int].id == id
    }

    pub fn comp_by_id(&self, id: usize) -> (c: &PrimitiveComponent)
        requires
            self.ids_ok(),
            self.id_index().contains_key(id),
        ensures
            *c == self.components[self.id_index()[id] as int],
    {
        let idx = *self.id_to_idx.get(&id).unwrap();
        &self.components[idx]
    }

    pub fn get_input_status_at(&self, id: usize, idx: usize) -> (r: Result<Data, DataRequestError>)
        requires
            self.ids_ok(),
        ensures
            !self.id_index().contains_key(id) ==> r == Err::<Data, DataRequestError>(
                DataRequestError::InvalidComponentId(ComponentRequestError::InvalidComponentId(id)),
            ),
            self.id_index().contains_key(id) ==> {
                let c = self.components[self.id_index()[id] as int];
                r == if idx < c.inputs.len() {
                    Ok::<Data, DataRequestError>(c.inputs[idx as int])
                } else {
                    Err(DataRequestError::InvalidInputPortIndex(idx))
                }
            },
    {
        match self.id_to_idx.get(&id) {
            None => Err(DataRequestError::InvalidComponentId(ComponentRequestError::InvalidComponentId(id))),
            Some(c_idx) => {
                let c = &self.components[*c_idx];
                if idx < c.inputs.len() {
                    Ok(c.inputs[idx])
                } else {
                    Err(DataRequestError::InvalidInputPortIndex(idx))
                }
            },
        }
    }

    pub fn get_output_status_at(&self, id: usize, idx: usize) -> (r: Result<Data, DataRequestError>)
        requires
            self.ids_ok(),
        ensures
            !self.id_index().contains_key(id) ==> r == Err::<Data, DataRequestError>(
                DataRequestError::InvalidComponentId(ComponentRequestError::InvalidComponentId(id)),
            ),
            self.id_index().contains_key(id) ==> {
                let c = self.components[self.id_index()[id] as int];
                r == if idx < c.outputs.len() {
                    Ok::<Data, DataRequestError>(c.outputs[idx as int])
                } else {
                    Err(DataRequestError::InvalidOutputPortIndex(idx))
                }
            },
    {
        match self.id_to_idx.get(&id) {
            None => Err(DataRequestError::InvalidComponentId(ComponentRequestError::InvalidComponentId(id))),
            Some(c_idx) => {
                let c = &self.components[*c_idx];
                if idx < c.outputs.len() {
                    Ok(c.outputs[idx])
                } else {
                    Err(DataRequestError::InvalidOutputPortIndex(idx))
                }
            },
        }
    }

    pub fn get_status_by_id(&self, id: usize) -> (r: (&Vec<Data>, &Vec<Data>))
        requires
            self.ids_ok(),
            self.id_index().contains_key(id),
        ensures
            r.0@ == self.components[self.id_index()[id] as int].inputs@,
            r.1@ == self.components[self.id_index()[id] as int].outputs@,
    {
        let idx = *self.id_to_idx.get(&id).unwrap();
        (&self.components[idx].inputs, &self.components[idx].outputs)
    }
}


impl FlattenComponent {
    /// The flat addresses of `c` name existing ports.
    pub open spec fn addrs_ok(&self, c: NestedConfig) -> bool {
        &&& forall|k: int|
            0 <= k < c.spec_ins().len() ==> {
                let a = #[trigger] c.spec_ins()[k];
                a.0 < self.components.len() && a.1 < self.components[a.0 as int].inputs.len()
            }
        &&& forall|k: int|
            0 <= k < c.spec_outs().len() ==> {
                let a = #[trigger] c.spec_outs()[k];
                a.0 < self.components.len() && a.1 < self.components[a.0 as int].outputs.len()
            }
    }

    /// Values at the flat input addresses `ins`.
    pub open spec fn input_values(&self, ins: Seq<PortAddr>) -> Seq<Data> {
        Seq::new(ins.len(), |k: int| self.components[ins[k].0 as int].inputs[ins[k].1 as int])
    }

    /// Values at the flat output addresses `outs`.
    pub open spec fn output_values(&self, outs: Seq<PortAddr>) -> Seq<Data> {
        Seq::new(outs.len(), |k: int| self.components[outs[k].0 as int].outputs[outs[k].1 as int])
    }

    /// The full path that `get_status` follows.
    pub open spec fn status_path(comp_path: Seq<usize>, at: Option<usize>) -> Seq<usize> {
        match at {
            Some(a) => comp_path.push(a),
            None => comp_path,
        }
    }

    /// Input and output values of the component reached by `comp_path`
    /// (then `at`, when given) from the top configuration.
    pub fn get_status(&self, comp_path: &[usize], at: Option<usize>) -> (r: Result<
        (Vec<Data>, Vec<Data>),
        DataRequestError,
    >)
        requires
            !(walk(self.nested_config, Self::status_path(comp_path@, at)) is Stuck),
            walk(self.nested_config, Self::status_path(comp_path@, at)) matches PathWalk::Found(c)
                ==> self.addrs_ok(c),
        ensures
            match walk(self.nested_config, Self::status_path(comp_path@, at)) {
                PathWalk::Found(c) => r matches Ok((ins, outs)) && ins@ == self.input_values(
                    c.spec_ins(),
                ) && outs@ == self.output_values(c.spec_outs()),
                PathWalk::Missing(id) => r == Err::<(Vec<Data>, Vec<Data>), DataRequestError>(
                    DataRequestError::InvalidComponentId(
                        ComponentRequestError::InvalidComponentId(id),
                    ),
                ),
                PathWalk::Stuck => false,
            },
    {
        let ghost full = Self::status_path(comp_path@, at);
        let mut comp = &self.nested_config;
        let mut i: usize = 0;
        while i < comp_path.len()
            invariant
                i <= comp_path.len(),
                full == Self::status_path(comp_path@, at),
                !(walk(self.nested_config, full) is Stuck),
                walk(self.nested_config, full) matches PathWalk::Found(c) ==> self.addrs_ok(c),
                walk(self.nested_config, comp_path@.take(i as int)) == PathWalk::Found(*comp),
            decreases comp_path.len() - i,
        {
            let id = comp_path[i];
            proof {
                lemma_walk_step(self.nested_config, comp_path@.take(i as int), id);
                assert(comp_path@.take(i as int).push(id) == comp_path@.take(i as int + 1));
                assert(comp_path@.take(i as int + 1) == full.take(i as int + 1));
                lemma_walk_prefix(self.nested_config, comp_path@.take(i as int + 1), full);
            }
            match comp {
                NestedConfig::Compose(_, _, subs, _, _) => {
                    match subs.get(&id) {
                        Some(sub) => {
                            comp = sub;
                        },
                        None => {
                            return Err(
                                DataRequestError::InvalidComponentId(
                                    ComponentRequestError::InvalidComponentId(id),
                                ),
                            );
                        },
                    }
                },
                NestedConfig::Single(..) => {
                    proof {
                        assert(false);
                    }
                },
            }
            i = i + 1;
        }
        proof {
            assert(comp_path@.take(comp_path.len() as int) == comp_path@);
        }
        if let Some(a) = at {
            proof {
                lemma_walk_step(self.nested_config, comp_path@, a);
            }
            match comp {
                NestedConfig::Compose(_, _, subs, _, _) => {
                    match subs.get(&a) {
                        Some(sub) => {
                            comp = sub;
                        },
                        None => {
                            return Err(
                                DataRequestError::InvalidComponentId(
                                    ComponentRequestError::InvalidComponentId(a),
                                ),
                            );
                        },
                    }
                },
                NestedConfig::Single(..) => {
                    proof {
                        assert(false);
                    }
                },
            }
        }
        let (ins, outs) = match comp {
            NestedConfig::Compose(_, _, _, ins, outs) => (ins, outs),
            NestedConfig::Single(_, _, ins, outs) => (ins, outs),
        };
        let mut in_bits: Vec<Data> = Vec::new();
        let mut k: usize = 0;
        while k < ins.len()
            invariant
                k <= ins.len(),
                ins@ == comp.spec_ins(),
                self.addrs_ok(*comp),
                in_bits@ == self.input_values(ins@).take(k as int),
            decreases ins.len() - k,
        {
            let addr = ins[k];
            in_bits.push(self.components[addr.0].inputs[addr.1]);
            k = k + 1;
            assert(in_bits@ =~= self.input_values(ins@).take(k as int));
        }
        let mut out_bits: Vec<Data> = Vec::new();
        let mut k: usize = 0;
        while k < outs.len()
            invariant
                k <= outs.len(),
                outs@ == comp.spec_outs(),
                self.addrs_ok(*comp),
                out_bits@ == self.output_values(outs@).take(k as int),
            decreases outs.len() - k,
        {
            let addr = outs[k];
            out_bits.push(self.components[addr.0].outputs[addr.1]);
            k = k + 1;
            assert(out_bits@ =~= self.output_values(outs@).take(k as int));
        }
        assert(in_bits@ =~= self.input_values(ins@));
        assert(out_bits@ =~= self.output_values(outs@));
        Ok((in_bits, out_bits))
    }
}

/// Once a walk misses an id or gets stuck, going further along the path
/// changes nothing; so a prefix whose walk is not `Found` decides the walk of
/// the whole path.
proof fn lemma_walk_prefix(c: NestedConfig, prefix: Seq<usize>, path: Seq<usize>)
    requires
        prefix.len() <= path.len(),
        prefix == path.take(prefix.len() as int),
    ensures
        !(walk(c, prefix) is Found) ==> walk(c, path) == walk(c, prefix),
    decreases prefix.len(),
{
    if prefix.len() > 0 {
        match c {
            NestedConfig::Compose(_, _, subs, _, _) => {
                if subs@.contains_key(path[0]) {
                    assert(prefix.drop_first() == path.drop_first().take(prefix.len() - 1));
                    lemma_walk_prefix(subs@[path[0]], prefix.drop_first(), path.drop_first());
                }
            },
            NestedConfig::Single(..) => {},
        }
    }
}


/// A one-bit low value.
pub open spec fn low_bit() -> Data {
    Data { value: 0, size: 1 }
}

/// `pc` is the fresh primitive component of kind `prim`, with id `id`, that
/// flattening makes of a primitive circuit with `in_count` inputs.
pub open spec fn fresh_prim(pc: PrimitiveComponent, id: usize, prim: Primitive, in_count: usize) -> bool {
    match prim {
        Primitive::AndGate => pc.spec_fresh(id, "And"@, prim, Seq::new(in_count as nat, |_k: int| low_bit()), seq![low_bit()]),
        Primitive::OrGate => pc.spec_fresh(id, "Or"@, prim, Seq::new(in_count as nat, |_k: int| low_bit()), seq![low_bit()]),
        Primitive::NotGate => pc.spec_fresh(id, "Not"@, prim, seq![low_bit()], seq![low_bit()]),
        Primitive::NandGate => pc.spec_fresh(id, "Nand"@, prim, Seq::new(in_count as nat, |_k: int| low_bit()), seq![low_bit()]),
        Primitive::NorGate => pc.spec_fresh(id, "Nor"@, prim, Seq::new(in_count as nat, |_k: int| low_bit()), seq![low_bit()]),
        Primitive::XorGate => pc.spec_fresh(id, "Xor"@, prim, Seq::new(in_count as nat, |_k: int| low_bit()), seq![low_bit()]),
        Primitive::Switch => pc.spec_fresh(id, "Switch"@, prim, Seq::empty(), seq![low_bit()]),
        Primitive::Input { bits } => pc.spec_fresh(
            id,
            "Input"@,
            prim,
            seq![Data { value: 0, size: bits }],
            seq![Data { value: 0, size: bits }],
        ),
        Primitive::Output { bits } => pc.spec_fresh(
            id,
            "Output"@,
            prim,
            seq![Data { value: 0, size: bits }],
            seq![Data { value: 0, size: bits }],
        ),
        Primitive::Splitter { bits } => pc.spec_fresh(
            id,
            "Splitter"@,
            prim,
            seq![Data { value: 0, size: bits }],
            Seq::new(bits as nat, |_k: int| low_bit()),
        ),
        Primitive::Joiner { bits } => pc.spec_fresh(
            id,
            "Joiner"@,
            prim,
            Seq::new(bits as nat, |_k: int| low_bit()),
            seq![Data { value: 0, size: bits }],
        ),
        Primitive::Clock { period } => pc.spec_fresh(id, "Clock"@, prim, Seq::empty(), seq![low_bit()]),
        Primitive::Const { value } => pc.spec_fresh(
            id,
            "Const("@ + bits_text(value.value, value.size as nat) + ")"@,
            prim,
            Seq::empty(),
            seq![value],
        ),
    }
}

/// `pc` is what flattening makes of the primitive circuit `c`.
pub open spec fn fresh_leaf(pc: PrimitiveComponent, c: Circuit) -> bool {
    c.extra.primitive matches Some(p) && fresh_prim(pc, c.extra.id, p, c.inputs)
}

/// The primitive circuits inside `c`, in depth-first order.
pub open spec fn leaves_of(c: Circuit) -> Seq<Circuit>
    decreases c.depth(), 1nat, 0nat,
{
    match c.sub {
        None => seq![c],
        Some(sub) => kids_leaves(sub.components@),
    }
}

/// The primitive circuits inside the circuits of `s`, in depth-first order.
pub open spec fn kids_leaves(s: Seq<Circuit>) -> Seq<Circuit>
    decreases circuits_depth(s), 2nat, s.len(),
{
    if s.len() == 0 {
        Seq::empty()
    } else {
        proof {
            lemma_circuits_depth_bound(s, s.len() - 1);
        }
        kids_leaves(s.drop_last()) + leaves_of(s.last())
    }
}

/// The connections inside `c`: those of `c` itself, then those inside each
/// of its sub-components in order.
pub open spec fn conns_of(c: Circuit) -> Seq<Conn>
    decreases c.depth(), 1nat, 0nat,
{
    match c.sub {
        None => Seq::empty(),
        Some(sub) => sub.connections@ + kids_conns(sub.components@),
    }
}

/// The connections inside the circuits of `s`, in order.
pub open spec fn kids_conns(s: Seq<Circuit>) -> Seq<Conn>
    decreases circuits_depth(s), 2nat, s.len(),
{
    if s.len() == 0 {
        Seq::empty()
    } else {
        proof {
            lemma_circuits_depth_bound(s, s.len() - 1);
        }
        kids_conns(s.drop_last()) + conns_of(s.last())
    }
}

/// Every primitive circuit inside `c` has its kind, and every constant a
/// value of at most `usize::BITS` bits.
pub open spec fn flat_safe(c: Circuit) -> bool
    decreases c.depth(),
{
    match c.sub {
        None => c.extra.primitive matches Some(p) && (p matches Primitive::Const { value } ==> value.size
            <= usize::BITS),
        Some(sub) => {
            proof {
                assert forall|k: int| 0 <= k < sub.components@.len() implies #[trigger] sub.components@[k].depth()
                    < c.depth() by {
                    lemma_circuits_depth_bound(sub.components@, k);
                }
            }
            forall|k: int| 0 <= k < sub.components@.len() ==> flat_safe(#[trigger] sub.components@[k])
        },
    }
}

fn copy_conns(v: &Vec<Conn>) -> (r: Vec<Conn>)
    ensures
        r@ == v@,
{
    let mut r: Vec<Conn> = Vec::new();
    let mut i: usize = 0;
    while i < v.len()
        invariant
            i <= v.len(),
            r@ == v@.take(i as int),
        decreases v.len() - i,
    {
        r.push(v[i]);
        i = i + 1;
        assert(r@ =~= v@.take(i as int));
    }
    assert(v@.take(v.len() as int) =~= v@);
    r
}

/// The primitive components inside `comp`, in depth-first order, and the
/// connections inside it: those of `comp` itself, then those inside each of
/// its sub-components in order.
pub fn flat_comp(comp: &Circuit) -> (r: (Vec<PrimitiveComponent>, Vec<Conn>))
    requires
        flat_safe(*comp),
    ensures
        r.0@.len() == leaves_of(*comp).len(),
        forall|k: int| 0 <= k < r.0@.len() ==> fresh_leaf(#[trigger] r.0@[k], leaves_of(*comp)[k]),
        r.1@ == conns_of(*comp),
    decreases comp.depth(),
{
    if let Some(sub) = &comp.sub {
        let mut comps: Vec<PrimitiveComponent> = Vec::new();
        let mut conns = copy_conns(&sub.connections);
        let ghost kids = sub.components@;
        let mut k: usize = 0;
        assert(kids.take(0) =~= Seq::<Circuit>::empty());
        while k < sub.components.len()
            invariant
                k <= kids.len(),
                kids == sub.components@,
                comp.sub == Some(*sub),
                flat_safe(*comp),
                comps@.len() == kids_leaves(kids.take(k as int)).len(),
                forall|j: int| 0 <= j < comps@.len() ==> fresh_leaf(#[trigger] comps@[j], kids_leaves(kids.take(k as int))[j]),
                conns@ == sub.connections@ + kids_conns(kids.take(k as int)),
            decreases kids.len() - k,
        {
            proof {
                lemma_circuits_depth_bound(kids, k as int);
                assert(kids.take(k as int + 1).drop_last() =~= kids.take(k as int));
                assert(kids.take(k as int + 1).last() == kids[k as int]);
                lemma_circuits_depth_bound(kids.take(k as int + 1), k as int);
            }
            let (mut flatten, mut conn) = flat_comp(&sub.components[k]);
            let ghost before = comps@;
            comps.append(&mut flatten);
            conns.append(&mut conn);
            proof {
                let a = kids_leaves(kids.take(k as int));
                let b = leaves_of(kids[k as int]);
                assert(kids_leaves(kids.take(k as int + 1)) == a + b);
                assert forall|j: int| 0 <= j < comps@.len() implies fresh_leaf(
                    #[trigger] comps@[j],
                    kids_leaves(kids.take(k as int + 1))[j],
                ) by {
                    if j < a.len() {
                        assert(comps@[j] == before[j]);
                    }
                }
                assert(kids_conns(kids.take(k as int + 1)) == kids_conns(kids.take(k as int)) + conns_of(
                    kids[k as int],
                ));
            }
            k = k + 1;
        }
        proof {
            assert(kids.take(kids.len() as int) =~= kids);
        }
        return (comps, conns);
    }
    let id = comp.extra.id;
    let in_count = comp.inputs;
    let new_comp = match comp.extra.primitive {
        Some(Primitive::AndGate) => PrimitiveComponent::and_gate(id, in_count),
        Some(Primitive::OrGate) => PrimitiveComponent::or_gate(id, in_count),
        Some(Primitive::NotGate) => PrimitiveComponent::not_gate(id),
        Some(Primitive::NandGate) => PrimitiveComponent::nand_gate(id, in_count),
        Some(Primitive::NorGate) => PrimitiveComponent::nor_gate(id, in_count),
        Some(Primitive::XorGate) => PrimitiveComponent::xor_gate(id, in_count),
        Some(Primitive::Switch) => PrimitiveComponent::switch(id),
        Some(Primitive::Input { bits }) => PrimitiveComponent::input(id, bits),
        Some(Primitive::Output { bits }) => PrimitiveComponent::output(id, bits),
        Some(Primitive::Splitter { bits }) => PrimitiveComponent::splitter(id, bits),
        Some(Primitive::Joiner { bits }) => PrimitiveComponent::joiner(id, bits),
        Some(Primitive::Clock { period }) => PrimitiveComponent::clock(id, period),
        Some(Primitive::Const { value }) => PrimitiveComponent::const_gate(id, value),
        None => {
            proof {
                assert(false);
            }
            PrimitiveComponent::switch(id)
        },
    };
    let mut comps: Vec<PrimitiveComponent> = Vec::new();
    comps.push(new_comp);
    (comps, Vec::new())
}

pub proof fn lemma_leaves_len(c: Circuit)
    ensures
        leaves_of(c).len() == c.leaves(),
    decreases c.depth(), 1nat, 0nat,
{
    if let Some(sub) = c.sub {
        lemma_kids_leaves_len(sub.components@);
    }
}

pub proof fn lemma_kids_leaves_len(s: Seq<Circuit>)
    ensures
        kids_leaves(s).len() == circuits_leaves(s),
    decreases circuits_depth(s), 2nat, s.len(),
{
    if s.len() > 0 {
        lemma_circuits_depth_bound(s, s.len() - 1);
        lemma_kids_leaves_len(s.drop_last());
        lemma_leaves_len(s.last());
    }
}

/// Reindexing keeps the primitives: their number, their kinds and, for the
/// flattener, everything it reads of them.
pub proof fn lemma_reindex_keeps(old: Circuit, new: Circuit, start: int)
    requires
        reindex_ok(old, new, start),
    ensures
        new.leaves() == old.leaves(),
        flat_safe(old) ==> flat_safe(new),
        new.depth() == old.depth(),
    decreases old.depth(),
{
    match (old.sub, new.sub) {
        (Some(os), Some(ns)) => {
            let olds = os.components@;
            let kids = ns.components@;
            let starts = kid_starts(olds, start);
            assert forall|k: int| 0 <= k < olds.len() implies (#[trigger] kids[k]).leaves() == olds[k].leaves()
                && (flat_safe(olds[k]) ==> flat_safe(kids[k])) && kids[k].depth() == olds[k].depth() by {
                lemma_circuits_depth_bound(olds, k);
                lemma_reindex_keeps(olds[k], kids[k], starts[k]);
            }
            lemma_same_leaves(olds, kids);
            if flat_safe(old) {
                assert forall|k: int| 0 <= k < kids.len() implies flat_safe(#[trigger] kids[k]) by {
                    assert(flat_safe(olds[k]));
                }
            }
        },
        _ => {},
    }
}

proof fn lemma_same_leaves(a: Seq<Circuit>, b: Seq<Circuit>)
    requires
        a.len() == b.len(),
        forall|k: int| 0 <= k < a.len() ==> (#[trigger] b[k]).leaves() == a[k].leaves() && b[k].depth() == a[k].depth(),
    ensures
        circuits_leaves(a) == circuits_leaves(b),
        circuits_depth(a) == circuits_depth(b),
    decreases a.len(),
{
    if a.len() > 0 {
        assert forall|k: int| 0 <= k < a.drop_last().len() implies (#[trigger] b.drop_last()[k]).leaves() == a.drop_last()[k].leaves()
            && b.drop_last()[k].depth() == a.drop_last()[k].depth() by {
            assert(a.drop_last()[k] == a[k] && b.drop_last()[k] == b[k]);
        }
        lemma_same_leaves(a.drop_last(), b.drop_last());
        assert(b.last().leaves() == a.last().leaves());
    }
}

/// Every flat address held inside the reindexed circuit `c` lies in
/// `[lo, hi)`.
pub open spec fn addrs_in(c: Circuit, lo: int, hi: int) -> bool
    decreases c.depth(),
{
    match c.sub {
        None => true,
        Some(sub) => {
            proof {
                assert forall|k: int| 0 <= k < sub.components@.len() implies #[trigger] sub.components@[k].depth()
                    < c.depth() by {
                    lemma_circuits_depth_bound(sub.components@, k);
                }
            }
            &&& forall|i: int|
                0 <= i < sub.connections@.len() ==> lo <= (#[trigger] sub.connections@[i]).from.0 < hi && lo
                    <= sub.connections@[i].to.0 < hi
            &&& forall|i: int| 0 <= i < sub.in_addrs@.len() ==> lo <= (#[trigger] sub.in_addrs@[i]).1.0 < hi
            &&& forall|i: int| 0 <= i < sub.out_addrs@.len() ==> lo <= (#[trigger] sub.out_addrs@[i]).0 < hi
            &&& forall|k: int| 0 <= k < sub.components@.len() ==> addrs_in(#[trigger] sub.components@[k], lo, hi)
        },
    }
}

proof fn lemma_addrs_widen(c: Circuit, lo: int, hi: int, lo2: int, hi2: int)
    requires
        addrs_in(c, lo, hi),
        lo2 <= lo,
        hi <= hi2,
    ensures
        addrs_in(c, lo2, hi2),
    decreases c.depth(),
{
    if let Some(sub) = c.sub {
        assert forall|k: int| 0 <= k < sub.components@.len() implies addrs_in(#[trigger] sub.components@[k], lo2, hi2) by {
            lemma_circuits_depth_bound(sub.components@, k);
            lemma_addrs_widen(sub.components@[k], lo, hi, lo2, hi2);
        }
    }
}

proof fn lemma_matching_ins_in(ins: Seq<(usize, PortAddr)>, port: usize, lo: int, hi: int)
    requires
        forall|i: int| 0 <= i < ins.len() ==> lo <= (#[trigger] ins[i]).1.0 < hi,
    ensures
        forall|j: int| 0 <= j < matching_ins(ins, port).len() ==> lo <= (#[trigger] matching_ins(ins, port)[j]).0 < hi,
    decreases ins.len(),
{
    if ins.len() > 0 {
        assert forall|i: int| 0 <= i < ins.drop_last().len() implies lo <= (#[trigger] ins.drop_last()[i]).1.0 < hi by {
            assert(ins.drop_last()[i] == ins[i]);
        }
        lemma_matching_ins_in(ins.drop_last(), port, lo, hi);
        let rest = matching_ins(ins.drop_last(), port);
        assert forall|j: int| 0 <= j < matching_ins(ins, port).len() implies lo <= (#[trigger] matching_ins(ins, port)[j]).0 < hi by {
            if j < rest.len() {
                assert(matching_ins(ins, port)[j] == rest[j]);
            }
        }
    }
}

/// Reindexing from `start` puts every flat address inside the circuit in
/// `[start, start + number of primitives)`.
pub proof fn lemma_reindex_addrs_in(old: Circuit, new: Circuit, start: int)
    requires
        reindex_ok(old, new, start),
        reindex_safe(old),
        0 <= start,
        start + old.leaves() <= usize::MAX,
    ensures
        addrs_in(new, start, start + old.leaves()),
    decreases old.depth(),
{
    match (old.sub, new.sub) {
        (Some(os), Some(ns)) => {
            let olds = os.components@;
            let kids = ns.components@;
            let starts = kid_starts(olds, start);
            let hi = start + old.leaves();
            lemma_kid_starts(olds, start);
            assert(old.leaves() == circuits_leaves(olds));
            assert forall|k: int| 0 <= k < olds.len() implies addrs_in(#[trigger] kids[k], starts[k], starts[k + 1]) by {
                lemma_circuits_depth_bound(olds, k);
                assert(starts[k + 1] == starts[k] + olds[k].leaves());
                assert(starts[k + 1] <= hi);
                lemma_reindex_addrs_in(olds[k], kids[k], starts[k]);
            }
            assert forall|k: int| 0 <= k < olds.len() implies addrs_in(#[trigger] kids[k], start, hi) by {
                lemma_addrs_widen(kids[k], starts[k], starts[k + 1], start, hi);
            }
            // Flat addresses of the ports of each sub-component lie in its range.
            assert forall|k: usize, p: usize|
                k < olds.len() && (kids[k as int].sub matches Some(ks) ==> p < ks.out_addrs@.len()) implies starts[k as int]
                <= #[trigger] flat_from(kids, starts, (k, p)).0 < starts[k + 1] by {
                let ki = k as int;
                lemma_circuits_depth_bound(olds, ki);
                super::reindex::lemma_reindex_shape(olds[ki], kids[ki], starts[ki]);
                assert(addrs_in(kids[ki], starts[ki], starts[ki + 1]));
                if let Some(ks) = kids[ki].sub {
                    assert(0 <= (p as int) < ks.out_addrs@.len());
                    assert(starts[ki] <= ks.out_addrs@[p as int].0 < starts[ki + 1]);
                } else {
                    assert(olds[ki].leaves() == 1);
                }
            }
            assert forall|k: usize, p: usize, j: int|
                k < olds.len() && 0 <= j < flat_tos(kids, starts, (k, p)).len() implies starts[k as int]
                <= (#[trigger] flat_tos(kids, starts, (k, p))[j]).0 < starts[k + 1] by {
                let ki = k as int;
                lemma_circuits_depth_bound(olds, ki);
                super::reindex::lemma_reindex_shape(olds[ki], kids[ki], starts[ki]);
                assert(addrs_in(kids[ki], starts[ki], starts[ki + 1]));
                if let Some(ks) = kids[ki].sub {
                    lemma_matching_ins_in(ks.in_addrs@, p, starts[ki], starts[ki + 1]);
                } else {
                    assert(olds[ki].leaves() == 1);
                }
            }
            assert forall|i: int| 0 <= i < os.connections@.len() implies {
                let cn = #[trigger] os.connections@[i];
                &&& cn.from.0 < olds.len() && cn.to.0 < olds.len()
                &&& (kids[cn.from.0 as int].sub matches Some(ks) ==> cn.from.1 < ks.out_addrs@.len())
            } by {
                let cn = os.connections@[i];
                super::reindex::lemma_reindex_shape(olds[cn.from.0 as int], kids[cn.from.0 as int], starts[cn.from.0 as int]);
            }
            lemma_flat_conns_in(kids, starts, os.connections@, start, hi);
            lemma_flat_ins_in(kids, starts, os.in_addrs@, start, hi);
            assert forall|i: int| 0 <= i < ns.out_addrs@.len() implies start <= (#[trigger] ns.out_addrs@[i]).0 < hi by {
                let p = os.out_addrs@[i];
                assert(ns.out_addrs@[i] == flat_from(kids, starts, p));
                super::reindex::lemma_reindex_shape(olds[p.0 as int], kids[p.0 as int], starts[p.0 as int]);
                assert(starts[p.0 as int] <= flat_from(kids, starts, (p.0, p.1)).0 < starts[p.0 + 1]);
            }
        },
        _ => {},
    }
}

pub open spec fn lo_hi_out(outs: Seq<PortAddr>, p: int, lo: int, hi: int) -> bool {
    0 <= p < outs.len() ==> lo <= outs[p].0 < hi
}

proof fn lemma_flat_conns_in(kids: Seq<Circuit>, starts: Seq<int>, conns: Seq<Conn>, lo: int, hi: int)
    requires
        starts.len() == kids.len() + 1,
        forall|i: int|
            0 <= i < conns.len() ==> {
                let cn = #[trigger] conns[i];
                &&& cn.from.0 < kids.len() && cn.to.0 < kids.len()
                &&& (kids[cn.from.0 as int].sub matches Some(ks) ==> cn.from.1 < ks.out_addrs@.len())
            },
        forall|k: usize, p: usize|
            k < kids.len() && (kids[k as int].sub matches Some(ks) ==> p < ks.out_addrs@.len()) ==> starts[k as int]
                <= #[trigger] flat_from(kids, starts, (k, p)).0 < starts[k + 1],
        forall|k: usize, p: usize, j: int|
            k < kids.len() && 0 <= j < flat_tos(kids, starts, (k, p)).len() ==> starts[k as int]
                <= (#[trigger] flat_tos(kids, starts, (k, p))[j]).0 < starts[k + 1],
        forall|k: int| 0 <= k <= kids.len() ==> lo <= #[trigger] starts[k] <= hi,
    ensures
        forall|i: int|
            0 <= i < flat_conns(kids, starts, conns).len() ==> lo <= (#[trigger] flat_conns(kids, starts, conns)[i]).from.0
                < hi && lo <= flat_conns(kids, starts, conns)[i].to.0 < hi,
    decreases conns.len(),
{
    if conns.len() > 0 {
        let rest = conns.drop_last();
        assert forall|i: int| 0 <= i < rest.len() implies {
            let cn = #[trigger] rest[i];
            &&& cn.from.0 < kids.len() && cn.to.0 < kids.len()
            &&& (kids[cn.from.0 as int].sub matches Some(ks) ==> cn.from.1 < ks.out_addrs@.len())
        } by {
            assert(rest[i] == conns[i]);
        }
        lemma_flat_conns_in(kids, starts, rest, lo, hi);
        let a = flat_conns(kids, starts, rest);
        let c = conns.last();
        assert(conns[conns.len() - 1] == c);
        let from = flat_from(kids, starts, c.from);
        let tos = flat_tos(kids, starts, c.to);
        let t = tos.map_values(|x: PortAddr| Conn { from: from, to: x });
        assert(starts[c.from.0 as int] <= flat_from(kids, starts, (c.from.0, c.from.1)).0 < starts[c.from.0 + 1]);
        assert forall|i: int| 0 <= i < flat_conns(kids, starts, conns).len() implies lo <= (#[trigger] flat_conns(
            kids,
            starts,
            conns,
        )[i]).from.0 < hi && lo <= flat_conns(kids, starts, conns)[i].to.0 < hi by {
            if i >= a.len() {
                let j = i - a.len();
                assert(flat_conns(kids, starts, conns)[i] == t[j]);
                assert(starts[c.to.0 as int] <= flat_tos(kids, starts, (c.to.0, c.to.1))[j].0 < starts[c.to.0 + 1]);
            } else {
                assert(flat_conns(kids, starts, conns)[i] == a[i]);
            }
        }
    }
}

proof fn lemma_flat_ins_in(kids: Seq<Circuit>, starts: Seq<int>, ins: Seq<(usize, PortAddr)>, lo: int, hi: int)
    requires
        starts.len() == kids.len() + 1,
        forall|i: int| 0 <= i < ins.len() ==> (#[trigger] ins[i]).1.0 < kids.len(),
        forall|k: usize, p: usize, j: int|
            k < kids.len() && 0 <= j < flat_tos(kids, starts, (k, p)).len() ==> starts[k as int]
                <= (#[trigger] flat_tos(kids, starts, (k, p))[j]).0 < starts[k + 1],
        forall|k: int| 0 <= k <= kids.len() ==> lo <= #[trigger] starts[k] <= hi,
    ensures
        forall|i: int|
            0 <= i < flat_ins(kids, starts, ins).len() ==> lo <= (#[trigger] flat_ins(kids, starts, ins)[i]).1.0 < hi,
    decreases ins.len(),
{
    if ins.len() > 0 {
        let rest = ins.drop_last();
        assert forall|i: int| 0 <= i < rest.len() implies (#[trigger] rest[i]).1.0 < kids.len() by {
            assert(rest[i] == ins[i]);
        }
        lemma_flat_ins_in(kids, starts, rest, lo, hi);
        let a = flat_ins(kids, starts, rest);
        let b = ins.last();
        assert(ins[ins.len() - 1] == b);
        let tos = flat_tos(kids, starts, b.1);
        let t = tos.map_values(|x: PortAddr| (b.0, x));
        assert forall|i: int| 0 <= i < flat_ins(kids, starts, ins).len() implies lo <= (#[trigger] flat_ins(
            kids,
            starts,
            ins,
        )[i]).1.0 < hi by {
            if i >= a.len() {
                let j = i - a.len();
                assert(flat_ins(kids, starts, ins)[i] == t[j]);
                assert(starts[b.1.0 as int] <= flat_tos(kids, starts, (b.1.0, b.1.1))[j].0 < starts[b.1.0 + 1]);
            } else {
                assert(flat_ins(kids, starts, ins)[i] == a[i]);
            }
        }
    }
}

pub proof fn lemma_conns_of_in(c: Circuit, lo: int, hi: int)
    requires
        addrs_in(c, lo, hi),
    ensures
        forall|i: int|
            0 <= i < conns_of(c).len() ==> lo <= (#[trigger] conns_of(c)[i]).from.0 < hi && lo <= conns_of(c)[i].to.0 < hi,
    decreases c.depth(), 1nat, 0nat,
{
    if let Some(sub) = c.sub {
        assert forall|k: int| 0 <= k < sub.components@.len() implies addrs_in(#[trigger] sub.components@[k], lo, hi) by {}
        lemma_kids_conns_in(sub.components@, lo, hi);
        let a = sub.connections@;
        let b = kids_conns(sub.components@);
        assert forall|i: int| 0 <= i < conns_of(c).len() implies lo <= (#[trigger] conns_of(c)[i]).from.0 < hi && lo
            <= conns_of(c)[i].to.0 < hi by {
            if i < a.len() {
                assert(conns_of(c)[i] == a[i]);
            } else {
                assert(conns_of(c)[i] == b[i - a.len()]);
            }
        }
    }
}

pub proof fn lemma_kids_conns_in(s: Seq<Circuit>, lo: int, hi: int)
    requires
        forall|k: int| 0 <= k < s.len() ==> addrs_in(#[trigger] s[k], lo, hi),
    ensures
        forall|i: int|
            0 <= i < kids_conns(s).len() ==> lo <= (#[trigger] kids_conns(s)[i]).from.0 < hi && lo <= kids_conns(s)[i].to.0
                < hi,
    decreases circuits_depth(s), 2nat, s.len(),
{
    if s.len() > 0 {
        lemma_circuits_depth_bound(s, s.len() - 1);
        assert forall|k: int| 0 <= k < s.drop_last().len() implies addrs_in(#[trigger] s.drop_last()[k], lo, hi) by {
            assert(s.drop_last()[k] == s[k]);
        }
        lemma_kids_conns_in(s.drop_last(), lo, hi);
        assert(addrs_in(s.last(), lo, hi));
        lemma_conns_of_in(s.last(), lo, hi);
        let a = kids_conns(s.drop_last());
        let b = conns_of(s.last());
        assert forall|i: int| 0 <= i < kids_conns(s).len() implies lo <= (#[trigger] kids_conns(s)[i]).from.0 < hi && lo
            <= kids_conns(s)[i].to.0 < hi by {
            if i < a.len() {
                assert(kids_conns(s)[i] == a[i]);
            } else {
                assert(kids_conns(s)[i] == b[i - a.len()]);
            }
        }
    }
}

/// The connections of `cs` that leave component `i`, in order.
pub open spec fn conns_from(cs: Seq<Conn>, i: int) -> Seq<Conn>
    decreases cs.len(),
{
    if cs.len() == 0 {
        Seq::empty()
    } else {
        let rest = conns_from(cs.drop_last(), i);
        if cs.last().from.0 == i {
            rest.push(cs.last())
        } else {
            rest
        }
    }
}

/// Some connection of `cs` goes from component `f` to component `t`.
pub open spec fn has_link(cs: Seq<Conn>, f: int, t: int) -> bool {
    exists|k: int| 0 <= k < cs.len() && cs[k].from.0 == f && cs[k].to.0 == t
}

/// The components below `m` that component `t` takes inputs from, in
/// increasing order.
pub open spec fn sources_below(cs: Seq<Conn>, t: int, m: nat) -> Seq<usize>
    decreases m,
{
    if m == 0 {
        Seq::empty()
    } else {
        let rest = sources_below(cs, t, (m - 1) as nat);
        if has_link(cs, m - 1, t) {
            rest.push((m - 1) as usize)
        } else {
            rest
        }
    }
}

/// The components below `m` that take inputs from component `f`, in
/// increasing order.
pub open spec fn targets_below(cs: Seq<Conn>, f: int, m: nat) -> Seq<usize>
    decreases m,
{
    if m == 0 {
        Seq::empty()
    } else {
        let rest = targets_below(cs, f, (m - 1) as nat);
        if has_link(cs, f, m - 1) {
            rest.push((m - 1) as usize)
        } else {
            rest
        }
    }
}

/// Position of the last component of `comps` with id `id`, -1 if none.
pub open spec fn last_prim_with_id(comps: Seq<PrimitiveComponent>, id: usize) -> int
    decreases comps.len(),
{
    if comps.len() == 0 {
        -1
    } else if comps.last().id == id {
        comps.len() - 1
    } else {
        last_prim_with_id(comps.drop_last(), id)
    }
}

proof fn lemma_last_prim_with_id(comps: Seq<PrimitiveComponent>, id: usize)
    ensures
        -1 <= last_prim_with_id(comps, id) < comps.len(),
        last_prim_with_id(comps, id) >= 0 ==> comps[last_prim_with_id(comps, id)].id == id,
    decreases comps.len(),
{
    if comps.len() > 0 && comps.last().id != id {
        lemma_last_prim_with_id(comps.drop_last(), id);
        if last_prim_with_id(comps, id) >= 0 {
            assert(comps.drop_last()[last_prim_with_id(comps, id)] == comps[last_prim_with_id(comps, id)]);
        }
    }
}

/// `f` is the flattening of the reindexed circuit `rc`: its primitives, the
/// connections leaving each, the components each takes inputs from and
/// gives outputs to, and the position of each id.
pub open spec fn flattened(f: FlattenComponent, rc: Circuit) -> bool {
    let n = leaves_of(rc).len();
    let cs = conns_of(rc);
    &&& f.components@.len() == n
    &&& forall|k: int| 0 <= k < n ==> fresh_leaf(#[trigger] f.components@[k], leaves_of(rc)[k])
    &&& f.connections@.len() == n
    &&& forall|i: int| 0 <= i < n ==> (#[trigger] f.connections@[i])@ == conns_from(cs, i)
    &&& f.deps@.len() == n
    &&& forall|i: int| 0 <= i < n ==> (#[trigger] f.deps@[i])@ == sources_below(cs, i, n)
    &&& f.inv_deps@.len() == n
    &&& forall|i: int| 0 <= i < n ==> (#[trigger] f.inv_deps@[i])@ == targets_below(cs, i, n)
    &&& forall|id: usize| f.id_to_idx@.contains_key(id) <==> last_prim_with_id(f.components@, id) >= 0
    &&& forall|id: usize| #[trigger] f.id_to_idx@.contains_key(id) ==> f.id_to_idx@[id] == last_prim_with_id(f.components@, id)
}

fn false_matrix(n: usize) -> (m: Vec<Vec<bool>>)
    ensures
        m@.len() == n,
        forall|i: int| 0 <= i < n ==> (#[trigger] m@[i])@ == Seq::new(n as nat, |_k: int| false),
{
    let mut m: Vec<Vec<bool>> = Vec::new();
    while m.len() < n
        invariant
            m@.len() <= n,
            forall|i: int| 0 <= i < m@.len() ==> (#[trigger] m@[i])@ == Seq::new(n as nat, |_k: int| false),
        decreases n - m.len(),
    {
        m.push(falses(n));
    }
    m
}

fn set_cell(m: &mut Vec<Vec<bool>>, r: usize, c: usize)
    requires
        r < old(m)@.len(),
        c < old(m)@[r as int]@.len(),
    ensures
        final(m)@.len() == old(m)@.len(),
        forall|i: int| 0 <= i < old(m)@.len() && i != r ==> (#[trigger] final(m)@[i])@ == old(m)@[i]@,
        final(m)@[r as int]@ == old(m)@[r as int]@.update(c as int, true),
{
    let mut row = m[r].clone();
    row.set(c, true);
    m.set(r, row);
}

/// Indices of the set cells of `row`, in increasing order; `pick(k)` is whether
/// cell `k` is set.
fn set_indices(row: &Vec<bool>, Ghost(pick): Ghost<spec_fn(int) -> bool>, Ghost(which): Ghost<
    spec_fn(nat) -> Seq<usize>,
>) -> (v: Vec<usize>)
    requires
        forall|k: int| 0 <= k < row@.len() ==> row@[k] == pick(k),
        which(0) == Seq::<usize>::empty(),
        forall|m: nat|
            0 < m <= row@.len() ==> #[trigger] which(m) == if pick(m - 1) {
                which((m - 1) as nat).push((m - 1) as usize)
            } else {
                which((m - 1) as nat)
            },
    ensures
        v@ == which(row@.len()),
{
    let mut v: Vec<usize> = Vec::new();
    let mut k: usize = 0;
    while k < row.len()
        invariant
            k <= row@.len(),
            forall|j: int| 0 <= j < row@.len() ==> row@[j] == pick(j),
            forall|m: nat|
                0 < m <= row@.len() ==> #[trigger] which(m) == if pick(m - 1) {
                    which((m - 1) as nat).push((m - 1) as usize)
                } else {
                    which((m - 1) as nat)
                },
            v@ == which(k as nat),
        decreases row@.len() - k,
    {
        assert(which((k + 1) as nat) == if pick(k as int) {
            which(k as nat).push(k)
        } else {
            which(k as nat)
        });
        if row[k] {
            v.push(k);
        }
        k = k + 1;
    }
    v
}

impl FlattenComponent {
    /// Flattens `comp`: numbers its primitives in depth-first order, rewrites
    /// its connections between them, points the inputs of nested components at
    /// the ports that feed them, and records for each primitive the
    /// connections leaving it, the components it takes inputs from and gives
    /// outputs to, and the position of each id.
    pub fn new(comp: Circuit) -> (r: Result<Self, FlattenComponentError>)
        requires
            reindex_safe(comp),
            fix_safe(comp),
            flat_safe(comp),
            comp.leaves() <= usize::MAX,
        ensures
            r matches Ok(f) && cfg_shape(comp, f.nested_config) && f.ids_ok() && exists|rc: Circuit|
                reindex_ok(comp, rc, 0) && #[trigger] flattened(f, rc),
            r matches Ok(f) && exists|rc: Circuit, cfg0: NestedConfig|
                #[trigger] config_ok(comp, rc, 0, cfg0) && reindex_ok(comp, rc, 0) && fixed(comp, cfg0, f.nested_config),
    {
        let unindexed = clone_circuit(&comp);
        let mut comp = comp;
        let ghost old_comp = comp;
        let (_, mut nested_config) = match reindex_connections(&mut comp, 0) {
            Ok(x) => x,
            Err(e) => {
                return Err(e);
            },
        };
        proof {
            lemma_config_shape(old_comp, comp, 0, nested_config);
            lemma_same_fix(unindexed, old_comp, nested_config);
            lemma_reindex_keeps(old_comp, comp, 0);
            lemma_reindex_addrs_in(old_comp, comp, 0);
            lemma_conns_of_in(comp, 0, old_comp.leaves() as int);
            lemma_leaves_len(comp);
        }
        let ghost cfg0 = nested_config;
        let ghost rc = comp;
        fix_inputs_data_addrs(&unindexed, &mut nested_config);
        proof {
            super::reindex::lemma_same_symmetric(unindexed, old_comp);
            lemma_same_fix(old_comp, unindexed, nested_config);
            super::reindex::lemma_same_fixed(old_comp, unindexed, cfg0, nested_config);
            assert(config_ok(old_comp, rc, 0, cfg0));
        }
        let (components, conns) = flat_comp(&comp);
        let n = components.len();
        let ghost cs = conns@;
        let mut deps_mat = false_matrix(n);
        let mut inv_deps_mat = false_matrix(n);
        let mut connections: Vec<Vec<Conn>> = Vec::new();
        while connections.len() < n
            invariant
                connections@.len() <= n,
                forall|i: int| 0 <= i < connections@.len() ==> (#[trigger] connections@[i])@ == Seq::<Conn>::empty(),
            decreases n - connections.len(),
        {
            connections.push(Vec::new());
        }
        let mut c: usize = 0;
        while c < conns.len()
            invariant
                c <= cs.len(),
                cs == conns@,
                forall|i: int| 0 <= i < cs.len() ==> (#[trigger] cs[i]).from.0 < n && cs[i].to.0 < n,
                deps_mat@.len() == n,
                inv_deps_mat@.len() == n,
                connections@.len() == n,
                forall|t: int| 0 <= t < n ==> (#[trigger] deps_mat@[t])@.len() == n,
                forall|f: int| 0 <= f < n ==> (#[trigger] inv_deps_mat@[f])@.len() == n,
                forall|t: int, f: int|
                    0 <= t < n && 0 <= f < n ==> (#[trigger] deps_mat@[t]@[f]) == has_link(cs.take(c as int), f, t),
                forall|f: int, t: int|
                    0 <= f < n && 0 <= t < n ==> (#[trigger] inv_deps_mat@[f]@[t]) == has_link(cs.take(c as int), f, t),
                forall|i: int| 0 <= i < n ==> (#[trigger] connections@[i])@ == conns_from(cs.take(c as int), i),
            decreases cs.len() - c,
        {
            let conn = conns[c];
            let (from, to) = (conn.from.0, conn.to.0);
            proof {
                assert(cs[c as int] == conn);
                assert(cs.take(c as int + 1).drop_last() =~= cs.take(c as int));
                assert(cs.take(c as int + 1).last() == conn);
                assert forall|f: int, t: int| has_link(cs.take(c as int + 1), f, t) == (has_link(cs.take(c as int), f, t)
                    || (f == from && t == to)) by {
                    if has_link(cs.take(c as int + 1), f, t) {
                        let tk = cs.take(c as int + 1);
                        let k = choose|k: int| 0 <= k < tk.len() && (#[trigger] tk[k]).from.0 == f && tk[k].to.0 == t;
                        if k < c {
                            assert(cs.take(c as int)[k] == cs.take(c as int + 1)[k]);
                        }
                    }
                    if has_link(cs.take(c as int), f, t) {
                        let tk = cs.take(c as int);
                        let k = choose|k: int| 0 <= k < tk.len() && (#[trigger] tk[k]).from.0 == f && tk[k].to.0 == t;
                        assert(cs.take(c as int + 1)[k] == cs.take(c as int)[k]);
                    }
                    if f == from && t == to {
                        assert(cs.take(c as int + 1)[c as int] == conn);
                    }
                }
            }
            set_cell(&mut deps_mat, to, from);
            set_cell(&mut inv_deps_mat, from, to);
            let mut row = Vec::new();
            std::mem::swap(&mut row, &mut connections[from]);
            row.push(conn);
            std::mem::swap(&mut row, &mut connections[from]);
            c = c + 1;
        }
        proof {
            assert(cs.take(cs.len() as int) =~= cs);
        }
        let mut deps: Vec<Vec<usize>> = Vec::new();
        let mut inv_deps: Vec<Vec<usize>> = Vec::new();
        let mut i: usize = 0;
        while i < n
            invariant
                i <= n,
                deps_mat@.len() == n,
                inv_deps_mat@.len() == n,
                forall|t: int| 0 <= t < n ==> (#[trigger] deps_mat@[t])@.len() == n,
                forall|f: int| 0 <= f < n ==> (#[trigger] inv_deps_mat@[f])@.len() == n,
                forall|t: int, f: int| 0 <= t < n && 0 <= f < n ==> (#[trigger] deps_mat@[t]@[f]) == has_link(cs, f, t),
                forall|f: int, t: int| 0 <= f < n && 0 <= t < n ==> (#[trigger] inv_deps_mat@[f]@[t]) == has_link(cs, f, t),
                deps@.len() == i,
                inv_deps@.len() == i,
                forall|j: int| 0 <= j < i ==> (#[trigger] deps@[j])@ == sources_below(cs, j, n as nat),
                forall|j: int| 0 <= j < i ==> (#[trigger] inv_deps@[j])@ == targets_below(cs, j, n as nat),
            decreases n - i,
        {
            let ghost ti = i as int;
            let d = set_indices(
                &deps_mat[i],
                Ghost(|k: int| has_link(cs, k, ti)),
                Ghost(|m: nat| sources_below(cs, ti, m)),
            );
            let e = set_indices(
                &inv_deps_mat[i],
                Ghost(|k: int| has_link(cs, ti, k)),
                Ghost(|m: nat| targets_below(cs, ti, m)),
            );
            deps.push(d);
            inv_deps.push(e);
            i = i + 1;
        }
        let mut id_to_idx: HashMap<usize, usize> = HashMap::new();
        let mut i: usize = 0;
        assert(components@.take(0) =~= Seq::<PrimitiveComponent>::empty());
        while i < n
            invariant
                i <= n,
                n == components@.len(),
                forall|id: usize| id_to_idx@.contains_key(id) <==> last_prim_with_id(components@.take(i as int), id) >= 0,
                forall|id: usize|
                    #[trigger] id_to_idx@.contains_key(id) ==> id_to_idx@[id] == last_prim_with_id(
                        components@.take(i as int),
                        id,
                    ),
            decreases n - i,
        {
            proof {
                assert(components@.take(i as int + 1).drop_last() =~= components@.take(i as int));
                assert(components@.take(i as int + 1).last() == components@[i as int]);
            }
            id_to_idx.insert(components[i].id, i);
            i = i + 1;
        }
        proof {
            assert(components@.take(n as int) =~= components@);
        }
        let f = FlattenComponent { components, connections, deps, inv_deps, nested_config, id_to_idx };
        proof {
            assert forall|id: usize| #[trigger] f.id_index().contains_key(id) implies f.id_index()[id] < f.components.len()
                && f.components[f.id_index()[id] as int].id == id by {
                lemma_last_prim_with_id(f.components@, id);
            }
            assert(flattened(f, comp));
        }
        Ok(f)
    }
}
} // verus!
