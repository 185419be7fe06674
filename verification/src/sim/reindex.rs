use std::collections::HashMap;

use vstd::prelude::*;

use crate::circuit::{Circuit, SubCircuit, circuits_depth, circuits_leaves, lemma_circuits_depth_bound};
use crate::component::{Conn, PortAddr};
use super::errors::FlattenComponentError;
use super::flatten::NestedConfig;
use super::primitives::primitive::Primitive;

verus! {

broadcast use vstd::std_specs::hash::group_hash_axioms;

/// Flat index of the first primitive of each of `kids`, the first starting
/// at `start`; one more entry follows, the index after the last primitive.
pub open spec fn kid_starts(kids: Seq<Circuit>, start: int) -> Seq<int>
    decreases kids.len(),
{
    if kids.len() == 0 {
        seq![start]
    } else {
        let p = kid_starts(kids.drop_last(), start);
        p.push(p.last() + kids.last().leaves())
    }
}

/// Flat address of output port `p` of one of the (reindexed) sub-components
/// `kids`: the flat address it is bound to for a composed one, the port of
/// the primitive itself otherwise.
pub open spec fn flat_from(kids: Seq<Circuit>, starts: Seq<int>, p: PortAddr) -> PortAddr {
    match kids[p.0 as int].sub {
        Some(ks) => ks.out_addrs@[p.1 as int],
        None => (starts[p.0 as int] as usize, p.1),
    }
}

/// Ports of `ins` bound to input `port`, in order.
pub open spec fn matching_ins(ins: Seq<(usize, PortAddr)>, port: usize) -> Seq<PortAddr>
    decreases ins.len(),
{
    if ins.len() == 0 {
        Seq::empty()
    } else {
        let rest = matching_ins(ins.drop_last(), port);
        if ins.last().0 == port {
            rest.push(ins.last().1)
        } else {
            rest
        }
    }
}

/// Flat addresses input port `p` of one of the (reindexed) sub-components
/// `kids` feeds: all the flat ports bound to it for a composed one, the port
/// of the primitive itself otherwise.
pub open spec fn flat_tos(kids: Seq<Circuit>, starts: Seq<int>, p: PortAddr) -> Seq<PortAddr> {
    match kids[p.0 as int].sub {
        Some(ks) => matching_ins(ks.in_addrs@, p.1),
        None => seq![(starts[p.0 as int] as usize, p.1)],
    }
}

/// The connections `conns` in flat addresses: one connection for each flat
/// port a connection's target stands for.
pub open spec fn flat_conns(kids: Seq<Circuit>, starts: Seq<int>, conns: Seq<Conn>) -> Seq<Conn>
    decreases conns.len(),
{
    if conns.len() == 0 {
        Seq::empty()
    } else {
        let c = conns.last();
        let from = flat_from(kids, starts, c.from);
        flat_conns(kids, starts, conns.drop_last()) + flat_tos(kids, starts, c.to).map_values(
            |t: PortAddr| Conn { from: from, to: t },
        )
    }
}

/// The input bindings `ins` in flat addresses.
pub open spec fn flat_ins(kids: Seq<Circuit>, starts: Seq<int>, ins: Seq<(usize, PortAddr)>) -> Seq<
    (usize, PortAddr),
>
    decreases ins.len(),
{
    if ins.len() == 0 {
        Seq::empty()
    } else {
        let b = ins.last();
        flat_ins(kids, starts, ins.drop_last()) + flat_tos(kids, starts, b.1).map_values(
            |t: PortAddr| (b.0, t),
        )
    }
}

/// The output bindings `outs` in flat addresses.
pub open spec fn flat_outs(kids: Seq<Circuit>, starts: Seq<int>, outs: Seq<PortAddr>) -> Seq<PortAddr> {
    outs.map_values(|p: PortAddr| flat_from(kids, starts, p))
}

/// Reindexing `c` cannot index out of range: every connection and binding
/// names an existing sub-component, and an existing output of a composed one;
/// input indices are below the largest `usize`.
pub open spec fn reindex_safe(c: Circuit) -> bool
    decreases c.depth(),
{
    match c.sub {
        None => true,
        Some(sub) => {
            let kids = sub.components@;
            let n = kids.len();
            proof {
                assert forall|k: int| 0 <= k < n implies #[trigger] kids[k].depth() < c.depth() by {
                    lemma_circuits_depth_bound(kids, k);
                }
            }
            &&& forall|k: int| 0 <= k < n ==> reindex_safe(#[trigger] kids[k])
            &&& forall|i: int|
                0 <= i < sub.connections@.len() ==> {
                    let cn = #[trigger] sub.connections@[i];
                    &&& cn.from.0 < n && cn.to.0 < n
                    &&& (kids[cn.from.0 as int].sub matches Some(ks) ==> cn.from.1 < ks.out_addrs@.len())
                }
            &&& forall|i: int|
                0 <= i < sub.in_addrs@.len() ==> {
                    let b = #[trigger] sub.in_addrs@[i];
                    b.1.0 < n && b.0 < usize::MAX
                }
            &&& forall|i: int|
                0 <= i < sub.out_addrs@.len() ==> {
                    let p = #[trigger] sub.out_addrs@[i];
                    &&& p.0 < n
                    &&& (kids[p.0 as int].sub matches Some(ks) ==> p.1 < ks.out_addrs@.len())
                }
        },
    }
}

/// `new` is `old` reindexed from flat index `start`: every primitive inside
/// gets the next flat index, in depth-first order, and all connections and
/// bindings of composed components inside are rewritten in flat addresses.
pub open spec fn reindex_ok(old: Circuit, new: Circuit, start: int) -> bool
    decreases old.depth(),
{
    &&& new.id == old.id
    &&& new.name == old.name
    &&& new.inputs == old.inputs
    &&& new.outputs == old.outputs
    &&& new.extra == old.extra
    &&& match (old.sub, new.sub) {
        (None, None) => true,
        (Some(os), Some(ns)) => {
            let olds = os.components@;
            let kids = ns.components@;
            let starts = kid_starts(olds, start);
            proof {
                assert forall|k: int| 0 <= k < olds.len() implies #[trigger] olds[k].depth() < old.depth() by {
                    lemma_circuits_depth_bound(olds, k);
                }
            }
            &&& kids.len() == olds.len()
            &&& forall|k: int| 0 <= k < olds.len() ==> reindex_ok(#[trigger] olds[k], kids[k], starts[k])
            &&& ns.connections@ == flat_conns(kids, starts, os.connections@)
            &&& ns.in_addrs@ == flat_ins(kids, starts, os.in_addrs@)
            &&& ns.out_addrs@ == flat_outs(kids, starts, os.out_addrs@)
        },
        _ => false,
    }
}

/// Largest input index of `ins`.
pub open spec fn max_in(ins: Seq<(usize, PortAddr)>) -> int
    decreases ins.len(),
{
    if ins.len() == 0 {
        -1
    } else {
        let m = max_in(ins.drop_last());
        if ins.last().0 > m {
            ins.last().0 as int
        } else {
            m
        }
    }
}

/// `base` with each binding of `ins`, in order, written at its input index.
pub open spec fn assign_ins(base: Seq<PortAddr>, ins: Seq<(usize, PortAddr)>) -> Seq<PortAddr>
    decreases ins.len(),
{
    if ins.len() == 0 {
        base
    } else {
        assign_ins(base, ins.drop_last()).update(ins.last().0 as int, ins.last().1)
    }
}

/// The flat port each input of a component feeds, by input index: the last
/// binding of that index, `(0, 0)` for an index with none; empty when there
/// are no bindings.
pub open spec fn nested_ins(ins: Seq<(usize, PortAddr)>) -> Seq<PortAddr> {
    assign_ins(Seq::new((max_in(ins) + 1) as nat, |_i: int| (0usize, 0usize)), ins)
}

/// Index of the last circuit of `s` with id `id`, -1 if none has it.
pub open spec fn last_with_id(s: Seq<Circuit>, id: usize) -> int
    decreases s.len(),
{
    if s.len() == 0 {
        -1
    } else if s.last().id == id {
        s.len() - 1
    } else {
        last_with_id(s.drop_last(), id)
    }
}

pub proof fn lemma_last_with_id(s: Seq<Circuit>, id: usize)
    ensures
        -1 <= last_with_id(s, id) < s.len(),
        last_with_id(s, id) >= 0 ==> s[last_with_id(s, id)].id == id,
        last_with_id(s, id) >= 0 <==> exists|k: int| 0 <= k < s.len() && s[k].id == id,
    decreases s.len(),
{
    if s.len() > 0 {
        lemma_last_with_id(s.drop_last(), id);
        if s.last().id != id {
            if exists|k: int| 0 <= k < s.len() && s[k].id == id {
                let k = choose|k: int| 0 <= k < s.len() && s[k].id == id;
                assert(s.drop_last()[k] == s[k]);
            }
            if last_with_id(s, id) >= 0 {
                assert(s.drop_last()[last_with_id(s, id)] == s[last_with_id(s, id)]);
            }
        }
    }
}

/// `cfg` is the nested configuration of `old` reindexed from `start` into
/// `new`.
pub open spec fn config_ok(old: Circuit, new: Circuit, start: int, cfg: NestedConfig) -> bool
    decreases old.depth(),
{
    match (old.sub, new.sub) {
        (None, _) => cfg matches NestedConfig::Single(name, id, ins, outs) && name@ == old.name_or_empty()
            && id == old.id && ins@ == Seq::new(old.inputs as nat, |i: int| (start as usize, i as usize))
            && outs@ == Seq::new(old.outputs as nat, |i: int| (start as usize, i as usize)),
        (Some(os), Some(ns)) => {
            let olds = os.components@;
            let kids = ns.components@;
            let starts = kid_starts(olds, start);
            proof {
                assert forall|k: int| 0 <= k < olds.len() implies #[trigger] olds[k].depth() < old.depth() by {
                    lemma_circuits_depth_bound(olds, k);
                }
            }
            &&& cfg matches NestedConfig::Compose(name, id, subs, nin, nout)
            &&& name@ == old.name_or_empty()
            &&& id == old.id
            &&& nout@ == ns.out_addrs@
            &&& nin@ == nested_ins(ns.in_addrs@)
            &&& forall|i: usize| subs@.contains_key(i) <==> last_with_id(olds, i) >= 0
            &&& forall|i: usize|
                #[trigger] subs@.contains_key(i) && 0 <= last_with_id(olds, i) < olds.len() ==> config_ok(
                    olds[last_with_id(olds, i)],
                    kids[last_with_id(olds, i)],
                    starts[last_with_id(olds, i)],
                    subs@[i],
                )
        },
        _ => false,
    }
}


pub proof fn lemma_kid_starts(s: Seq<Circuit>, start: int)
    ensures
        kid_starts(s, start).len() == s.len() + 1,
        kid_starts(s, start)[0] == start,
        kid_starts(s, start).last() == start + circuits_leaves(s),
        forall|j: int| 0 <= j < s.len() ==> #[trigger] kid_starts(s, start)[j + 1] == kid_starts(s, start)[j] + s[j].leaves(),
        forall|j: int| 0 <= j <= s.len() ==> start <= #[trigger] kid_starts(s, start)[j] <= start + circuits_leaves(s),
    decreases s.len(),
{
    if s.len() > 0 {
        lemma_kid_starts(s.drop_last(), start);
        let p = kid_starts(s.drop_last(), start);
        assert forall|j: int| 0 <= j < s.len() implies #[trigger] kid_starts(s, start)[j + 1] == kid_starts(s, start)[j]
            + s[j].leaves() by {
            if j < s.len() - 1 {
                assert(s.drop_last()[j] == s[j]);
            }
        }
    }
}

proof fn lemma_max_in(ins: Seq<(usize, PortAddr)>)
    ensures
        forall|i: int| 0 <= i < ins.len() ==> (#[trigger] ins[i]).0 <= max_in(ins),
        -1 <= max_in(ins),
        ins.len() == 0 <==> max_in(ins) == -1,
        max_in(ins) == -1 || exists|i: int| 0 <= i < ins.len() && ins[i].0 == max_in(ins),
    decreases ins.len(),
{
    if ins.len() > 0 {
        lemma_max_in(ins.drop_last());
        assert forall|i: int| 0 <= i < ins.len() implies (#[trigger] ins[i]).0 <= max_in(ins) by {
            if i < ins.len() - 1 {
                assert(ins.drop_last()[i] == ins[i]);
            }
        }
        if max_in(ins) != ins.last().0 {
            let i = choose|i: int| 0 <= i < ins.drop_last().len() && ins.drop_last()[i].0 == max_in(ins.drop_last());
            assert(ins[i] == ins.drop_last()[i]);
        }
    }
}

proof fn lemma_assign_ins_len(base: Seq<PortAddr>, ins: Seq<(usize, PortAddr)>)
    requires
        forall|i: int| 0 <= i < ins.len() ==> (#[trigger] ins[i]).0 < base.len(),
    ensures
        assign_ins(base, ins).len() == base.len(),
    decreases ins.len(),
{
    if ins.len() > 0 {
        assert forall|i: int| 0 <= i < ins.drop_last().len() implies (#[trigger] ins.drop_last()[i]).0 < base.len() by {
            assert(ins.drop_last()[i] == ins[i]);
        }
        lemma_assign_ins_len(base, ins.drop_last());
    }
}

proof fn lemma_flat_ins_bound(kids: Seq<Circuit>, starts: Seq<int>, ins: Seq<(usize, PortAddr)>)
    requires
        forall|i: int| 0 <= i < ins.len() ==> (#[trigger] ins[i]).0 < usize::MAX,
    ensures
        forall|i: int|
            0 <= i < flat_ins(kids, starts, ins).len() ==> (#[trigger] flat_ins(kids, starts, ins)[i]).0 < usize::MAX,
    decreases ins.len(),
{
    if ins.len() > 0 {
        let rest = ins.drop_last();
        assert forall|i: int| 0 <= i < rest.len() implies (#[trigger] rest[i]).0 < usize::MAX by {
            assert(rest[i] == ins[i]);
        }
        lemma_flat_ins_bound(kids, starts, rest);
        let a = flat_ins(kids, starts, rest);
        let b = ins.last();
        let t = flat_tos(kids, starts, b.1).map_values(|t: PortAddr| (b.0, t));
        assert forall|i: int| 0 <= i < flat_ins(kids, starts, ins).len() implies (#[trigger] flat_ins(
            kids,
            starts,
            ins,
        )[i]).0 < usize::MAX by {
            if i >= a.len() {
                assert(flat_ins(kids, starts, ins)[i] == t[i - a.len()]);
            } else {
                assert(flat_ins(kids, starts, ins)[i] == a[i]);
            }
        }
    }
}

/// `reindex_ok` keeps whether a component is composed, and the number of
/// outputs bound inside a composed one.
pub proof fn lemma_reindex_shape(old: Circuit, new: Circuit, start: int)
    requires
        reindex_ok(old, new, start),
    ensures
        old.sub is None <==> new.sub is None,
        old.sub matches Some(os) ==> new.sub matches Some(ns) && ns.out_addrs@.len() == os.out_addrs@.len()
            && ns.components@.len() == os.components@.len(),
        new.id == old.id,
{
}

fn name_or_default(name: &Option<String>) -> (s: String)
    ensures
        s@ == match name {
            Some(n) => n@,
            None => Seq::<char>::empty(),
        },
{
    match name {
        Some(n) => n.clone(),
        None => String::new(),
    }
}

pub fn copy_ports(v: &Vec<PortAddr>) -> (r: Vec<PortAddr>)
    ensures
        r@ == v@,
{
    let mut r: Vec<PortAddr> = Vec::new();
    let mut i: usize = 0;
    while i < v.len()
        invariant
            i <= v.len(),
            r@ == v@.take(i as int),
        decreases v.len() - i,
    {
        r.push(v[i]);
        i = i + 1;
        assert(r@ =~= v@.take(i as int));
    }
    assert(v@.take(v.len() as int) =~= v@);
    r
}

fn ports_at(idx: usize, count: usize) -> (v: Vec<PortAddr>)
    ensures
        v@ == Seq::new(count as nat, |i: int| (idx, i as usize)),
{
    let mut v: Vec<PortAddr> = Vec::new();
    let mut i: usize = 0;
    while i < count
        invariant
            i <= count,
            v@ == Seq::new(i as nat, |j: int| (idx, j as usize)),
        decreases count - i,
    {
        v.push((idx, i));
        i = i + 1;
        assert(v@ =~= Seq::new(i as nat, |j: int| (idx, j as usize)));
    }
    v
}

fn flat_from_of(kids: &Vec<Circuit>, idx_starts: &Vec<usize>, Ghost(starts): Ghost<Seq<int>>, p: PortAddr) -> (r: PortAddr)
    requires
        p.0 < kids.len(),
        idx_starts@.len() == starts.len(),
        p.0 < starts.len(),
        forall|j: int| 0 <= j < starts.len() ==> idx_starts@[j] as int == #[trigger] starts[j],
        kids@[p.0 as int].sub matches Some(ks) ==> p.1 < ks.out_addrs@.len(),
    ensures
        r == flat_from(kids@, starts, p),
{
    match &kids[p.0].sub {
        Some(ks) => ks.out_addrs[p.1],
        None => (idx_starts[p.0], p.1),
    }
}

fn flat_tos_of(kids: &Vec<Circuit>, idx_starts: &Vec<usize>, Ghost(starts): Ghost<Seq<int>>, p: PortAddr) -> (r: Vec<
    PortAddr,
>)
    requires
        p.0 < kids.len(),
        idx_starts@.len() == starts.len(),
        p.0 < starts.len(),
        forall|j: int| 0 <= j < starts.len() ==> idx_starts@[j] as int == #[trigger] starts[j],
    ensures
        r@ == flat_tos(kids@, starts, p),
{
    match &kids[p.0].sub {
        Some(ks) => {
            let mut v: Vec<PortAddr> = Vec::new();
            let mut j: usize = 0;
            while j < ks.in_addrs.len()
                invariant
                    j <= ks.in_addrs.len(),
                    v@ == matching_ins(ks.in_addrs@.take(j as int), p.1),
                decreases ks.in_addrs.len() - j,
            {
                assert(ks.in_addrs@.take(j as int + 1).drop_last() =~= ks.in_addrs@.take(j as int));
                let b = ks.in_addrs[j];
                if b.0 == p.1 {
                    v.push(b.1);
                }
                j = j + 1;
            }
            assert(ks.in_addrs@.take(ks.in_addrs.len() as int) =~= ks.in_addrs@);
            v
        },
        None => {
            let mut v: Vec<PortAddr> = Vec::new();
            v.push((idx_starts[p.0], p.1));
            assert(v@ =~= seq![(idx_starts@[p.0 as int], p.1)]);
            v
        },
    }
}

/// Gives every primitive inside `comp` a flat index, in depth-first order
/// from `start_idx`, and rewrites the connections and the input and output
/// bindings of every composed component inside in flat addresses. Returns the
/// index after the last primitive, and the nested configuration of `comp`:
/// for each component its name, its id, the configurations of its
/// sub-components by id, and the flat ports of its inputs and outputs.
pub fn reindex_connections(comp: &mut Circuit, start_idx: usize) -> (r: Result<
    (usize, NestedConfig),
    FlattenComponentError,
>)
    requires
        reindex_safe(*old(comp)),
        start_idx + old(comp).leaves() <= usize::MAX,
    ensures
        r matches Ok((next, cfg)) && next == start_idx + old(comp).leaves() && reindex_ok(
            *old(comp),
            *final(comp),
            start_idx as int,
        ) && config_ok(*old(comp), *final(comp), start_idx as int, cfg),
    decreases old(comp).depth(),
{
    let ghost old_c = *comp;
    let taken = comp.sub.take();
    let mut sub = match taken {
        None => {
            let ins = ports_at(start_idx, comp.inputs);
            let outs = ports_at(start_idx, comp.outputs);
            let name = name_or_default(&comp.name);
            return Ok((start_idx + 1, NestedConfig::Single(name, comp.id, ins, outs)));
        },
        Some(sub) => sub,
    };
    let ghost os: SubCircuit = sub;
    let ghost olds = os.components@;
    let ghost starts = kid_starts(olds, start_idx as int);
    proof {
        lemma_kid_starts(olds, start_idx as int);
        assert(olds.take(0) =~= Seq::<Circuit>::empty());
    }
    // Reindex the sub-components.
    let mut idx_starts: Vec<usize> = Vec::new();
    idx_starts.push(start_idx);
    let mut sub_configs: HashMap<usize, NestedConfig> = HashMap::new();
    let mut k: usize = 0;
    while k < sub.components.len()
        invariant
            k <= olds.len(),
            sub.components@.len() == olds.len(),
            sub.connections@ == os.connections@,
            sub.in_addrs@ == os.in_addrs@,
            sub.out_addrs@ == os.out_addrs@,
            old_c.sub == Some(os),
            old_c == *old(comp),
            olds == os.components@,
            old_c.depth() == 1 + circuits_depth(olds),
            old_c.leaves() == circuits_leaves(olds),
            reindex_safe(old_c),
            start_idx + old_c.leaves() <= usize::MAX,
            starts == kid_starts(olds, start_idx as int),
            starts.len() == olds.len() + 1,
            forall|j: int| 0 <= j <= olds.len() ==> start_idx <= #[trigger] starts[j] <= start_idx + old_c.leaves(),
            forall|j: int| 0 <= j < olds.len() ==> #[trigger] starts[j + 1] == starts[j] + olds[j].leaves(),
            idx_starts@.len() == k + 1,
            forall|j: int| 0 <= j <= k ==> idx_starts@[j] as int == #[trigger] starts[j],
            forall|j: int| 0 <= j < k ==> reindex_ok(#[trigger] olds[j], sub.components@[j], starts[j]),
            forall|j: int| k <= j < olds.len() ==> #[trigger] sub.components@[j] == olds[j],
            forall|i: usize| sub_configs@.contains_key(i) <==> last_with_id(olds.take(k as int), i) >= 0,
            forall|i: usize|
                #[trigger] sub_configs@.contains_key(i) ==> config_ok(
                    olds[last_with_id(olds.take(k as int), i)],
                    sub.components@[last_with_id(olds.take(k as int), i)],
                    starts[last_with_id(olds.take(k as int), i)],
                    sub_configs@[i],
                ),
        decreases olds.len() - k,
    {
        proof {
            lemma_circuits_depth_bound(olds, k as int);
            assert(reindex_safe(olds[k as int]));
            assert(sub.components@[k as int] == olds[k as int]);
            assert(starts[k as int + 1] == starts[k as int] + olds[k as int].leaves());
            assert(starts[k as int + 1] <= start_idx + old_c.leaves());
        }
        let here = idx_starts[k];
        let res = reindex_connections(&mut sub.components[k], here);
        let (new_start, config) = match res {
            Ok(x) => x,
            Err(e) => {
                return Err(e);
            },
        };
        idx_starts.push(new_start);
        let id = sub.components[k].id;
        proof {
            lemma_reindex_shape(olds[k as int], sub.components@[k as int], starts[k as int]);
            assert(olds.take(k as int + 1).drop_last() =~= olds.take(k as int));
            assert(olds.take(k as int + 1).last() == olds[k as int]);
            assert forall|i: usize| i != id implies last_with_id(olds.take(k as int + 1), i) == last_with_id(
                olds.take(k as int),
                i,
            ) by {}
            assert(last_with_id(olds.take(k as int + 1), id) == k);
            assert forall|i: usize| 0 <= last_with_id(olds.take(k as int), i) implies last_with_id(
                olds.take(k as int),
                i,
            ) < k by {
                lemma_last_with_id(olds.take(k as int), i);
            }
        }
        sub_configs.insert(id, config);
        k = k + 1;
    }
    proof {
        assert(olds.take(olds.len() as int) =~= olds);
    }
    let ghost kids = sub.components@;
    // Rewrite the connections in flat addresses.
    let mut new_conns: Vec<Conn> = Vec::new();
    let mut i: usize = 0;
    assert(os.connections@.take(0) =~= Seq::<Conn>::empty());
    while i < sub.connections.len()
        invariant
            i <= sub.connections@.len(),
            sub.connections@ == os.connections@,
            sub.components@ == kids,
            kids.len() == olds.len(),
            old_c.sub == Some(os),
            olds == os.components@,
            reindex_safe(old_c),
            idx_starts@.len() == starts.len(),
            starts.len() == olds.len() + 1,
            forall|j: int| 0 <= j < starts.len() ==> idx_starts@[j] as int == #[trigger] starts[j],
            forall|j: int| 0 <= j < olds.len() ==> reindex_ok(#[trigger] olds[j], kids[j], starts[j]),
            new_conns@ == flat_conns(kids, starts, os.connections@.take(i as int)),
        decreases sub.connections@.len() - i,
    {
        let conn = sub.connections[i];
        proof {
            assert(os.connections@[i as int] == conn);
            lemma_reindex_shape(olds[conn.from.0 as int], kids[conn.from.0 as int], starts[conn.from.0 as int]);
            assert(os.connections@.take(i as int + 1).drop_last() =~= os.connections@.take(i as int));
        }
        let from = flat_from_of(&sub.components, &idx_starts, Ghost(starts), conn.from);
        let to_ports = flat_tos_of(&sub.components, &idx_starts, Ghost(starts), conn.to);
        let ghost before = new_conns@;
        let mut j: usize = 0;
        while j < to_ports.len()
            invariant
                j <= to_ports@.len(),
                new_conns@ == before + to_ports@.take(j as int).map_values(|t: PortAddr| Conn { from: from, to: t }),
            decreases to_ports@.len() - j,
        {
            let t = to_ports[j];
            new_conns.push(Conn::new(from.0, from.1, t.0, t.1));
            j = j + 1;
            assert(new_conns@ =~= before + to_ports@.take(j as int).map_values(
                |t: PortAddr| Conn { from: from, to: t },
            ));
        }
        assert(to_ports@.take(to_ports@.len() as int) =~= to_ports@);
        i = i + 1;
    }
    assert(os.connections@.take(os.connections@.len() as int) =~= os.connections@);
    sub.connections = new_conns;
    // Rewrite the input bindings.
    let mut new_in_addrs: Vec<(usize, PortAddr)> = Vec::new();
    let mut i: usize = 0;
    assert(os.in_addrs@.take(0) =~= Seq::<(usize, PortAddr)>::empty());
    while i < sub.in_addrs.len()
        invariant
            i <= sub.in_addrs@.len(),
            sub.in_addrs@ == os.in_addrs@,
            sub.components@ == kids,
            kids.len() == olds.len(),
            old_c.sub == Some(os),
            olds == os.components@,
            reindex_safe(old_c),
            idx_starts@.len() == starts.len(),
            starts.len() == olds.len() + 1,
            forall|j: int| 0 <= j < starts.len() ==> idx_starts@[j] as int == #[trigger] starts[j],
            new_in_addrs@ == flat_ins(kids, starts, os.in_addrs@.take(i as int)),
        decreases sub.in_addrs@.len() - i,
    {
        let b = sub.in_addrs[i];
        proof {
            assert(os.in_addrs@[i as int] == b);
            assert(os.in_addrs@.take(i as int + 1).drop_last() =~= os.in_addrs@.take(i as int));
        }
        let to_ports = flat_tos_of(&sub.components, &idx_starts, Ghost(starts), b.1);
        let ghost before = new_in_addrs@;
        let mut j: usize = 0;
        while j < to_ports.len()
            invariant
                j <= to_ports@.len(),
                new_in_addrs@ == before + to_ports@.take(j as int).map_values(|t: PortAddr| (b.0, t)),
            decreases to_ports@.len() - j,
        {
            let t = to_ports[j];
            new_in_addrs.push((b.0, t));
            j = j + 1;
            assert(new_in_addrs@ =~= before + to_ports@.take(j as int).map_values(|t: PortAddr| (b.0, t)));
        }
        assert(to_ports@.take(to_ports@.len() as int) =~= to_ports@);
        i = i + 1;
    }
    assert(os.in_addrs@.take(os.in_addrs@.len() as int) =~= os.in_addrs@);
    sub.in_addrs = new_in_addrs;
    // The flat port each input feeds, by input index.
    let ghost nin = sub.in_addrs@;
    proof {
        assert forall|i: int| 0 <= i < os.in_addrs@.len() implies (#[trigger] os.in_addrs@[i]).0 < usize::MAX by {}
        lemma_flat_ins_bound(kids, starts, os.in_addrs@);
        lemma_max_in(nin);
    }
    let mut max: Option<usize> = None;
    let mut i: usize = 0;
    assert(nin.take(0) =~= Seq::<(usize, PortAddr)>::empty());
    while i < sub.in_addrs.len()
        invariant
            i <= nin.len(),
            sub.in_addrs@ == nin,
            max is None <==> max_in(nin.take(i as int)) < 0,
            max matches Some(m) ==> m as int == max_in(nin.take(i as int)),
        decreases nin.len() - i,
    {
        assert(nin.take(i as int + 1).drop_last() =~= nin.take(i as int));
        proof {
            lemma_max_in(nin.take(i as int));
        }
        let b = sub.in_addrs[i];
        match max {
            Some(m) => {
                if b.0 > m {
                    max = Some(b.0);
                }
            },
            None => {
                max = Some(b.0);
            },
        }
        i = i + 1;
    }
    assert(nin.take(nin.len() as int) =~= nin);
    let mut nested_in: Vec<PortAddr> = Vec::new();
    let ghost base = Seq::new((max_in(nin) + 1) as nat, |_i: int| (0usize, 0usize));
    match max {
        Some(m) => {
            proof {
                let w = choose|w: int| 0 <= w < nin.len() && nin[w].0 == max_in(nin);
                assert(nin[w].0 < usize::MAX);
            }
            while nested_in.len() < m + 1
                invariant
                    nested_in.len() <= m + 1,
                    m < usize::MAX,
                    nested_in@ == Seq::new(nested_in.len() as nat, |_i: int| (0usize, 0usize)),
                decreases m + 1 - nested_in.len(),
            {
                nested_in.push((0, 0));
                assert(nested_in@ =~= Seq::new(nested_in.len() as nat, |_i: int| (0usize, 0usize)));
            }
            assert(nested_in@ =~= base);
            let mut i: usize = 0;
            assert(nin.take(0) =~= Seq::<(usize, PortAddr)>::empty());
            while i < sub.in_addrs.len()
                invariant
                    i <= nin.len(),
                    sub.in_addrs@ == nin,
                    m as int == max_in(nin),
                    base.len() == m + 1,
                    forall|j: int| 0 <= j < nin.len() ==> (#[trigger] nin[j]).0 <= max_in(nin),
                    nested_in@ == assign_ins(base, nin.take(i as int)),
                    nested_in@.len() == m + 1,
                decreases nin.len() - i,
            {
                assert(nin.take(i as int + 1).drop_last() =~= nin.take(i as int));
                let b = sub.in_addrs[i];
                nested_in.set(b.0, b.1);
                i = i + 1;
            }
            assert(nin.take(nin.len() as int) =~= nin);
        },
        None => {
            assert(nested_in@ =~= base);
        },
    }
    // Rewrite the output bindings.
    let mut new_out_addrs: Vec<PortAddr> = Vec::new();
    let mut i: usize = 0;
    while i < sub.out_addrs.len()
        invariant
            i <= sub.out_addrs@.len(),
            sub.out_addrs@ == os.out_addrs@,
            sub.components@ == kids,
            kids.len() == olds.len(),
            old_c.sub == Some(os),
            olds == os.components@,
            reindex_safe(old_c),
            idx_starts@.len() == starts.len(),
            starts.len() == olds.len() + 1,
            forall|j: int| 0 <= j < starts.len() ==> idx_starts@[j] as int == #[trigger] starts[j],
            forall|j: int| 0 <= j < olds.len() ==> reindex_ok(#[trigger] olds[j], kids[j], starts[j]),
            new_out_addrs@ == os.out_addrs@.take(i as int).map_values(|p: PortAddr| flat_from(kids, starts, p)),
        decreases sub.out_addrs@.len() - i,
    {
        let p = sub.out_addrs[i];
        proof {
            assert(os.out_addrs@[i as int] == p);
            lemma_reindex_shape(olds[p.0 as int], kids[p.0 as int], starts[p.0 as int]);
        }
        new_out_addrs.push(flat_from_of(&sub.components, &idx_starts, Ghost(starts), p));
        i = i + 1;
        assert(new_out_addrs@ =~= os.out_addrs@.take(i as int).map_values(
            |p: PortAddr| flat_from(kids, starts, p),
        ));
    }
    assert(os.out_addrs@.take(os.out_addrs@.len() as int) =~= os.out_addrs@);
    sub.out_addrs = new_out_addrs;
    let nested_out = copy_ports(&sub.out_addrs);
    let next = idx_starts[idx_starts.len() - 1];
    let name = name_or_default(&comp.name);
    let config = NestedConfig::Compose(name, comp.id, sub_configs, nested_in, nested_out);
    comp.sub = Some(sub);
    proof {
        assert(next == start_idx + old_c.leaves());
        assert(comp.id == old_c.id && comp.name == old_c.name && comp.extra == old_c.extra);
        assert(reindex_ok(old_c, *comp, start_idx as int));
        lemma_max_in(nin);
        assert(nested_in@ == nested_ins(nin));
        assert(nested_out@ == sub.out_addrs@);
        assert(forall|i: usize| sub_configs@.contains_key(i) <==> last_with_id(olds, i) >= 0);
        assert(config_ok(old_c, *comp, start_idx as int, config));
    }
    Ok((next, config))
}

/// `cfg` has the shape of the nested configuration of `c`: a single one, with
/// as many input and output addresses as `c` has ports, for a primitive; for a
/// composed one, a configuration of that shape for each id of its
/// sub-components (the last one with that id), and an output address for
/// each output binding.
pub open spec fn cfg_shape(c: Circuit, cfg: NestedConfig) -> bool
    decreases c.depth(),
{
    match c.sub {
        None => cfg matches NestedConfig::Single(_, _, ins, outs) && ins@.len() == c.inputs && outs@.len()
            == c.outputs,
        Some(sub) => {
            let kids = sub.components@;
            proof {
                assert forall|k: int| 0 <= k < kids.len() implies #[trigger] kids[k].depth() < c.depth() by {
                    lemma_circuits_depth_bound(kids, k);
                }
            }
            &&& cfg matches NestedConfig::Compose(_, _, subs, _, nout)
            &&& nout@.len() == sub.out_addrs@.len()
            &&& forall|i: usize| subs@.contains_key(i) <==> last_with_id(kids, i) >= 0
            &&& forall|i: usize|
                #[trigger] subs@.contains_key(i) && 0 <= last_with_id(kids, i) < kids.len() ==> cfg_shape(
                    kids[last_with_id(kids, i)],
                    subs@[i],
                )
        },
    }
}

/// The nested configuration `config_ok` describes has the shape of `old`.
pub proof fn lemma_config_shape(old: Circuit, new: Circuit, start: int, cfg: NestedConfig)
    requires
        reindex_ok(old, new, start),
        config_ok(old, new, start, cfg),
    ensures
        cfg_shape(old, cfg),
    decreases old.depth(),
{
    match (old.sub, new.sub) {
        (Some(os), Some(ns)) => {
            let olds = os.components@;
            let kids = ns.components@;
            let starts = kid_starts(olds, start);
            if let NestedConfig::Compose(_, _, subs, _, _) = cfg {
                assert forall|i: usize|
                    #[trigger] subs@.contains_key(i) && 0 <= last_with_id(olds, i) < olds.len() implies cfg_shape(
                    olds[last_with_id(olds, i)],
                    subs@[i],
                ) by {
                    let j = last_with_id(olds, i);
                    lemma_circuits_depth_bound(olds, j);
                    lemma_config_shape(olds[j], kids[j], starts[j], subs@[i]);
                }
            }
        },
        _ => {},
    }
}

/// Number of outputs of `c` as seen from outside.
pub open spec fn out_count(c: Circuit) -> nat {
    match c.sub {
        Some(sub) => sub.out_addrs@.len(),
        None => c.outputs as nat,
    }
}

/// Indices of the input primitives among `kids`, in order.
pub open spec fn input_kids(kids: Seq<Circuit>) -> Seq<int>
    decreases kids.len(),
{
    if kids.len() == 0 {
        Seq::empty()
    } else {
        let rest = input_kids(kids.drop_last());
        if kids.last().extra.primitive matches Some(Primitive::Input { .. }) {
            rest.push(kids.len() - 1)
        } else {
            rest
        }
    }
}

/// Setting the data addresses of the inputs of `c` finds everything it
/// looks for: the sub-components of each composed component inside have
/// distinct ids, every connection leaves an existing output, and a
/// connection into a composed sub-component ends at one of its input
/// primitives, which has an output.
pub open spec fn fix_safe(c: Circuit) -> bool
    decreases c.depth(),
{
    match c.sub {
        None => true,
        Some(sub) => {
            let kids = sub.components@;
            let n = kids.len();
            proof {
                assert forall|k: int| 0 <= k < n implies #[trigger] kids[k].depth() < c.depth() by {
                    lemma_circuits_depth_bound(kids, k);
                }
            }
            &&& forall|j: int, k: int| 0 <= j < k < n ==> #[trigger] kids[j].id != #[trigger] kids[k].id
            &&& forall|k: int| 0 <= k < n ==> fix_safe(#[trigger] kids[k])
            &&& fix_conns_ok(sub.connections@, kids)
        },
    }
}

/// Every connection of `conns` leaves an existing output of one of `kids`
/// and, when it enters a composed one, ends at one of its input primitives,
/// which has an output.
pub open spec fn fix_conns_ok(conns: Seq<Conn>, kids: Seq<Circuit>) -> bool {
    forall|i: int|
        0 <= i < conns.len() ==> {
            let cn = #[trigger] conns[i];
            &&& cn.from.0 < kids.len() && cn.to.0 < kids.len()
            &&& cn.from.1 < out_count(kids[cn.from.0 as int])
            &&& (kids[cn.to.0 as int].sub matches Some(ts) ==> {
                let ik = input_kids(ts.components@);
                &&& cn.to.1 < ik.len()
                &&& 0 <= ik[cn.to.1 as int] < ts.components@.len()
                &&& ts.components@[ik[cn.to.1 as int]].sub is None
                &&& ts.components@[ik[cn.to.1 as int]].outputs > 0
            })
        }
}

proof fn lemma_input_kids(kids: Seq<Circuit>)
    ensures
        forall|j: int| 0 <= j < input_kids(kids).len() ==> 0 <= #[trigger] input_kids(kids)[j] < kids.len(),
    decreases kids.len(),
{
    if kids.len() > 0 {
        lemma_input_kids(kids.drop_last());
        let rest = input_kids(kids.drop_last());
        assert forall|j: int| 0 <= j < input_kids(kids).len() implies 0 <= #[trigger] input_kids(kids)[j] < kids.len() by {
            if j < rest.len() {
                assert(input_kids(kids)[j] == rest[j]);
            }
        }
    }
}

proof fn lemma_last_with_distinct(kids: Seq<Circuit>, k: int)
    requires
        0 <= k < kids.len(),
        forall|a: int, b: int| 0 <= a < b < kids.len() ==> #[trigger] kids[a].id != #[trigger] kids[b].id,
    ensures
        last_with_id(kids, kids[k].id) == k,
    decreases kids.len(),
{
    if k < kids.len() - 1 {
        assert(kids.drop_last()[k] == kids[k]);
        assert forall|a: int, b: int| 0 <= a < b < kids.drop_last().len() implies #[trigger] kids.drop_last()[a].id
            != #[trigger] kids.drop_last()[b].id by {
            assert(kids.drop_last()[a] == kids[a] && kids.drop_last()[b] == kids[b]);
        }
        lemma_last_with_distinct(kids.drop_last(), k);
    }
}

proof fn lemma_input_kids_prefix(s: Seq<Circuit>, k: int)
    requires
        0 <= k <= s.len(),
    ensures
        input_kids(s.take(k)) == input_kids(s).take(input_kids(s.take(k)).len() as int),
        input_kids(s.take(k)).len() <= input_kids(s).len(),
    decreases s.len() - k,
{
    if k == s.len() {
        assert(s.take(k) =~= s);
        assert(input_kids(s).take(input_kids(s).len() as int) =~= input_kids(s));
    } else {
        lemma_input_kids_prefix(s, k + 1);
        assert(s.take(k + 1).drop_last() =~= s.take(k));
        let a = input_kids(s.take(k));
        let b = input_kids(s.take(k + 1));
        let ik = input_kids(s);
        assert(b == ik.take(b.len() as int));
        assert(a =~= b.take(a.len() as int));
        assert(a =~= ik.take(a.len() as int));
    }
}

/// Index of the `p`-th input primitive among `kids`.
pub fn nth_input_kid(kids: &Vec<Circuit>, p: usize) -> (r: usize)
    requires
        p < input_kids(kids@).len(),
    ensures
        r as int == input_kids(kids@)[p as int],
        r < kids@.len(),
{
    let ghost ik = input_kids(kids@);
    let mut seen: usize = 0;
    let mut k: usize = 0;
    assert(kids@.take(0) =~= Seq::<Circuit>::empty());
    while k < kids.len()
        invariant
            k <= kids.len(),
            ik == input_kids(kids@),
            p < ik.len(),
            seen as int == input_kids(kids@.take(k as int)).len(),
            seen <= p,
        decreases kids.len() - k,
    {
        proof {
            assert(kids@.take(k as int + 1).drop_last() =~= kids@.take(k as int));
            lemma_input_kids_prefix(kids@, k as int + 1);
        }
        match kids[k].extra.primitive {
            Some(Primitive::Input { .. }) => {
                if seen == p {
                    proof {
                        let b = input_kids(kids@.take(k as int + 1));
                        assert(b.last() == k as int);
                        assert(b[p as int] == ik[p as int]);
                    }
                    return k;
                }
                seen = seen + 1;
            },
            _ => {},
        }
        k = k + 1;
    }
    proof {
        assert(kids@.take(kids.len() as int) =~= kids@);
    }
    0
}

/// The sub-component configurations `subs` have the shapes of the
/// configurations of `kids`.
pub open spec fn subs_shape(kids: Seq<Circuit>, subs: Map<usize, NestedConfig>) -> bool {
    &&& forall|i: usize| subs.contains_key(i) <==> last_with_id(kids, i) >= 0
    &&& forall|i: usize|
        #[trigger] subs.contains_key(i) && 0 <= last_with_id(kids, i) < kids.len() ==> cfg_shape(
            kids[last_with_id(kids, i)],
            subs[i],
        )
}

/// The sub-component a connection enters among `kids`, when it is composed,
/// with the id of the input primitive inside it that the connection reaches.
pub open spec fn conn_target(c: Conn, kids: Seq<Circuit>) -> Option<(usize, usize)> {
    if c.to.0 < kids.len() {
        match kids[c.to.0 as int].sub {
            Some(ts) => {
                let ik = input_kids(ts.components@);
                if c.to.1 < ik.len() && 0 <= ik[c.to.1 as int] < ts.components@.len() {
                    Some((kids[c.to.0 as int].id, ts.components@[ik[c.to.1 as int]].id))
                } else {
                    None
                }
            },
            None => None,
        }
    } else {
        None
    }
}

/// The flat output address that feeds the connection `c`, read from the
/// configurations `subs` of `kids`.
pub open spec fn conn_source(c: Conn, kids: Seq<Circuit>, subs: Map<usize, NestedConfig>) -> PortAddr {
    subs[kids[c.from.0 as int].id].spec_outs()[c.from.1 as int]
}

/// The source of the last connection of `conns` that reaches the input
/// primitive `q` of the sub-component `t`.
pub open spec fn last_feed(
    conns: Seq<Conn>,
    kids: Seq<Circuit>,
    subs: Map<usize, NestedConfig>,
    t: usize,
    q: usize,
) -> Option<PortAddr>
    decreases conns.len(),
{
    if conns.len() == 0 {
        None
    } else if conn_target(conns.last(), kids) == Some((t, q)) {
        Some(conn_source(conns.last(), kids, subs))
    } else {
        last_feed(conns.drop_last(), kids, subs, t, q)
    }
}

/// `c1` is the configuration `c0` of a primitive with its first output
/// address set to `a`.
pub open spec fn single_fed(c0: NestedConfig, c1: NestedConfig, a: PortAddr) -> bool {
    &&& c0 matches NestedConfig::Single(n0, i0, ins0, o0)
    &&& c1 matches NestedConfig::Single(n1, i1, ins1, o1)
    &&& n1 == n0
    &&& i1 == i0
    &&& ins1 == ins0
    &&& o0@.len() > 0
    &&& o1@ == o0@.update(0, a)
}

/// `m1` is `m0`, the configurations inside the sub-component `t`, with each
/// input primitive that a connection of `conns` reaches fed by the last such
/// connection.
pub open spec fn inner_fed(
    m0: Map<usize, NestedConfig>,
    m1: Map<usize, NestedConfig>,
    conns: Seq<Conn>,
    kids: Seq<Circuit>,
    subs: Map<usize, NestedConfig>,
    t: usize,
) -> bool {
    &&& m1.dom() == m0.dom()
    &&& forall|q: usize| #[trigger] m1.contains_key(q) ==> match last_feed(conns, kids, subs, t, q) {
        Some(a) => if m0[q] is Single {
            single_fed(m0[q], m1[q], a)
        } else {
            m1[q] == m0[q]
        },
        None => m1[q] == m0[q],
    }
}

/// `subs1` is `subs0`, the configurations of `kids`, with the inputs that
/// `conns` reach inside composed sub-components fed.
pub open spec fn subs_fed(
    subs0: Map<usize, NestedConfig>,
    subs1: Map<usize, NestedConfig>,
    conns: Seq<Conn>,
    kids: Seq<Circuit>,
) -> bool {
    &&& subs1.dom() == subs0.dom()
    &&& forall|t: usize| #[trigger] subs1.contains_key(t) ==> match subs0[t] {
        NestedConfig::Compose(a0, b0, m0, c0, d0) => {
            &&& subs1[t] matches NestedConfig::Compose(a1, b1, m1, c1, d1)
            &&& a1 == a0 && b1 == b0 && c1 == c0 && d1 == d0
            &&& inner_fed(m0@, m1@, conns, kids, subs0, t)
        },
        NestedConfig::Single(..) => subs1[t] == subs0[t],
    }
}

/// `cfg1` is `cfg0`, the configuration of `c`, with every input primitive
/// inside a composed component fed by the flat output address of the last
/// connection that reaches it, at every depth.
pub open spec fn fixed(c: Circuit, cfg0: NestedConfig, cfg1: NestedConfig) -> bool
    decreases c.depth(),
{
    match c.sub {
        None => cfg1 == cfg0,
        Some(sub) => {
            let kids = sub.components@;
            proof {
                assert forall|k: int| 0 <= k < kids.len() implies #[trigger] kids[k].depth() < c.depth() by {
                    lemma_circuits_depth_bound(kids, k);
                }
            }
            match cfg0 {
                NestedConfig::Single(..) => cfg1 == cfg0,
                NestedConfig::Compose(a0, b0, subs0, c0, d0) => {
                    &&& cfg1 matches NestedConfig::Compose(a1, b1, subs1, c1, d1)
                    &&& a1 == a0 && b1 == b0 && c1 == c0 && d1 == d0
                    &&& exists|mid: Map<usize, NestedConfig>|
                        {
                            &&& #[trigger] subs_fed(subs0@, mid, sub.connections@, kids)
                            &&& subs1@.dom() == mid.dom()
                            &&& forall|k: int| 0 <= k < kids.len() ==> fixed(#[trigger] kids[k], mid[kids[k].id], subs1@[kids[k].id])
                            &&& forall|t: usize| #[trigger] subs1@.contains_key(t) && last_with_id(kids, t) < 0 ==> subs1@[t] == mid[t]
                        }
                },
            }
        },
    }
}

proof fn lemma_last_feed_step(conns: Seq<Conn>, i: int, kids: Seq<Circuit>, subs: Map<usize, NestedConfig>)
    requires
        0 <= i < conns.len(),
    ensures
        forall|t: usize, q: usize| #[trigger] last_feed(conns.take(i + 1), kids, subs, t, q) == if conn_target(conns[i], kids)
            == Some((t, q)) {
            Some(conn_source(conns[i], kids, subs))
        } else {
            last_feed(conns.take(i), kids, subs, t, q)
        },
{
    assert(conns.take(i + 1).drop_last() =~= conns.take(i));
    assert(conns.take(i + 1).last() == conns[i]);
}

/// A connection that reaches no input primitive of a composed sub-component
/// changes nothing that has been fed.
proof fn lemma_fed_skip(
    subs0: Map<usize, NestedConfig>,
    cur: Map<usize, NestedConfig>,
    conns: Seq<Conn>,
    i: int,
    kids: Seq<Circuit>,
)
    requires
        0 <= i < conns.len(),
        subs_fed(subs0, cur, conns.take(i), kids),
        conn_target(conns[i], kids) is None,
    ensures
        subs_fed(subs0, cur, conns.take(i + 1), kids),
{
    lemma_last_feed_step(conns, i, kids, subs0);
    assert forall|t: usize| #[trigger] cur.contains_key(t) implies match subs0[t] {
        NestedConfig::Compose(a0, b0, m0, c0, d0) => {
            &&& cur[t] matches NestedConfig::Compose(a1, b1, m1, c1, d1)
            &&& a1 == a0 && b1 == b0 && c1 == c0 && d1 == d0
            &&& inner_fed(m0@, m1@, conns.take(i + 1), kids, subs0, t)
        },
        NestedConfig::Single(..) => cur[t] == subs0[t],
    } by {
        if let NestedConfig::Compose(a0, b0, m0, c0, d0) = subs0[t] {
            if let NestedConfig::Compose(a1, b1, m1, c1, d1) = cur[t] {
                assert forall|q: usize| #[trigger] m1@.contains_key(q) implies match last_feed(conns.take(i + 1), kids, subs0, t, q) {
                    Some(a) => if m0@[q] is Single {
                        single_fed(m0@[q], m1@[q], a)
                    } else {
                        m1@[q] == m0@[q]
                    },
                    None => m1@[q] == m0@[q],
                } by {
                    assert(last_feed(conns.take(i + 1), kids, subs0, t, q) == last_feed(conns.take(i), kids, subs0, t, q));
                }
            }
        }
    }
}

/// Feeding the input primitive `q` of the sub-component `t` from `a`, for
/// the connection at `i`, keeps `cur` fed by the connections up to it.
proof fn lemma_fed_step(
    subs0: Map<usize, NestedConfig>,
    cur: Map<usize, NestedConfig>,
    next: Map<usize, NestedConfig>,
    conns: Seq<Conn>,
    i: int,
    kids: Seq<Circuit>,
    t: usize,
    q: usize,
)
    requires
        0 <= i < conns.len(),
        subs_fed(subs0, cur, conns.take(i), kids),
        conn_target(conns[i], kids) == Some((t, q)),
        cur.contains_key(t),
        next.dom() == cur.dom(),
        forall|u: usize| u != t && #[trigger] next.contains_key(u) ==> next[u] == cur[u],
        match cur[t] {
            NestedConfig::Compose(a0, b0, m, c0, d0) => {
                &&& next[t] matches NestedConfig::Compose(a1, b1, m1, c1, d1)
                &&& a1 == a0 && b1 == b0 && c1 == c0 && d1 == d0
                &&& m1@.dom() == m@.dom()
                &&& forall|r: usize| r != q && #[trigger] m1@.contains_key(r) ==> m1@[r] == m@[r]
                &&& m1@.contains_key(q) ==> if m@[q] is Single {
                    single_fed(m@[q], m1@[q], conn_source(conns[i], kids, subs0))
                } else {
                    m1@[q] == m@[q]
                }
            },
            NestedConfig::Single(..) => next[t] == cur[t],
        },
    ensures
        subs_fed(subs0, next, conns.take(i + 1), kids),
{
    lemma_last_feed_step(conns, i, kids, subs0);
    let a = conn_source(conns[i], kids, subs0);
    assert forall|u: usize| #[trigger] next.contains_key(u) implies match subs0[u] {
        NestedConfig::Compose(a0, b0, m0, c0, d0) => {
            &&& next[u] matches NestedConfig::Compose(a1, b1, m1, c1, d1)
            &&& a1 == a0 && b1 == b0 && c1 == c0 && d1 == d0
            &&& inner_fed(m0@, m1@, conns.take(i + 1), kids, subs0, u)
        },
        NestedConfig::Single(..) => next[u] == subs0[u],
    } by {
        assert(cur.contains_key(u));
        if let NestedConfig::Compose(a0, b0, m0, c0, d0) = subs0[u] {
            let m = cur[u]->Compose_2;
            let m1 = next[u]->Compose_2;
            assert forall|r: usize| #[trigger] m1@.contains_key(r) implies match last_feed(conns.take(i + 1), kids, subs0, u, r) {
                Some(x) => if m0@[r] is Single {
                    single_fed(m0@[r], m1@[r], x)
                } else {
                    m1@[r] == m0@[r]
                },
                None => m1@[r] == m0@[r],
            } by {
                assert(m@.contains_key(r));
                if u == t && r == q {
                    assert(last_feed(conns.take(i + 1), kids, subs0, u, r) == Some(a));
                    assert(inner_fed(m0@, m@, conns.take(i), kids, subs0, u));
                    if m0@[r] is Single {
                        assert(m@[r] is Single);
                        let o0 = m0@[r]->Single_3;
                        let o1 = m1@[r]->Single_3;
                        assert(o1@ =~= o0@.update(0, a));
                    }
                } else {
                    assert(last_feed(conns.take(i + 1), kids, subs0, u, r) == last_feed(conns.take(i), kids, subs0, u, r));
                }
            }
        }
    }
}

/// Points the output of each input primitive inside the composed
/// sub-components of `comp` at the flat port that feeds it, so that reading
/// an input of a nested component reads the value it receives: for each
/// connection into a composed sub-component, the configuration of the input
/// primitive the connection reaches gets, as its output address, the flat
/// output address of the connection's source. Then does the same inside every
/// sub-component.
pub fn fix_inputs_data_addrs(comp: &Circuit, config: &mut NestedConfig)
    requires
        fix_safe(*comp),
        cfg_shape(*comp, *old(config)),
    ensures
        cfg_shape(*comp, *final(config)),
        fixed(*comp, *old(config), *final(config)),
    decreases comp.depth(),
{
    let sub = match &comp.sub {
        Some(s) => s,
        None => {
            return;
        },
    };
    let ghost kids = sub.components@;
    let ghost n = kids.len();
    proof {
        assert forall|k: int| 0 <= k < n implies #[trigger] kids[k].depth() < comp.depth() by {
            lemma_circuits_depth_bound(kids, k);
        }
        assert(fix_safe(*comp));
    }
    assert(fix_conns_ok(sub.connections@, kids));
    assert(forall|k: int| 0 <= k < n ==> fix_safe(#[trigger] kids[k]));
    assert(forall|a: int, b: int| 0 <= a < b < n ==> #[trigger] kids[a].id != #[trigger] kids[b].id);
    match config {
        NestedConfig::Compose(_, _, subs, _, _) => {
            let ghost subs0 = subs@;
            let sub_comps = &sub.components;
            let mut i: usize = 0;
            proof {
                assert forall|t: usize| #[trigger] subs@.contains_key(t) implies match subs0[t] {
                    NestedConfig::Compose(a0, b0, m0, c0, d0) => {
                        &&& subs@[t] matches NestedConfig::Compose(a1, b1, m1, c1, d1)
                        &&& a1 == a0 && b1 == b0 && c1 == c0 && d1 == d0
                        &&& inner_fed(m0@, m1@, sub.connections@.take(0), kids, subs0, t)
                    },
                    NestedConfig::Single(..) => subs@[t] == subs0[t],
                } by {
                    if let NestedConfig::Compose(a0, b0, m0, c0, d0) = subs0[t] {
                        assert forall|q: usize| #[trigger] m0@.contains_key(q) implies last_feed(
                            sub.connections@.take(0),
                            kids,
                            subs0,
                            t,
                            q,
                        ) is None by {}
                    }
                }
            }
            while i < sub.connections.len()
                invariant
                    i <= sub.connections@.len(),
                    comp.sub == Some(*sub),
                    sub_comps@ == kids,
                    n == kids.len(),
                    fix_safe(*comp),
                    subs_shape(kids, subs@),
                    subs_fed(subs0, subs@, sub.connections@.take(i as int), kids),
                    fix_conns_ok(sub.connections@, kids),
                    forall|k: int| 0 <= k < n ==> fix_safe(#[trigger] kids[k]),
                    forall|a: int, b: int| 0 <= a < b < n ==> #[trigger] kids[a].id != #[trigger] kids[b].id,
                decreases sub.connections@.len() - i,
            {
                let conn = sub.connections[i];
                proof {
                    assert(sub.connections@[i as int] == conn);
                    lemma_last_with_distinct(kids, conn.from.0 as int);
                    lemma_last_with_distinct(kids, conn.to.0 as int);
                }
                let from_id = sub_comps[conn.from.0].id;
                let to_id = sub_comps[conn.to.0].id;
                let new_addr = match subs.get(&from_id) {
                    Some(c) => c.get_output_addr(conn.from.1),
                    None => {
                        return;
                    },
                };
                proof {
                    assert(subs@.contains_key(from_id));
                    assert(new_addr == conn_source(conn, kids, subs0));
                }
                if let Some(ts) = &sub_comps[conn.to.0].sub {
                    let ghost subs_before = subs@;
                    let mut tc = match subs.remove(&to_id) {
                        Some(c) => c,
                        None => {
                            return;
                        },
                    };
                    let ghost tc0 = tc;
                    let ghost gk = ts.components@;
                    let p = nth_input_kid(&ts.components, conn.to.1);
                    let input_id = ts.components[p].id;
                    proof {
                        lemma_input_kids(gk);
                        assert(fix_safe(kids[conn.to.0 as int]));
                        lemma_last_with_distinct(gk, p as int);
                        assert(tc0 == subs_before[to_id]);
                        assert(cfg_shape(kids[conn.to.0 as int], tc0));
                    }
                    match &mut tc {
                        NestedConfig::Compose(_, _, ss, _, _) => {
                            let ghost ss0 = ss@;
                            proof {
                                assert(ss@.contains_key(input_id));
                                assert(cfg_shape(gk[p as int], ss@[input_id]));
                                assert(subs_shape(gk, ss0));
                            }
                            match ss.remove(&input_id) {
                                Some(NestedConfig::Single(name, id, ins, mut outs)) => {
                                    outs.set(0, new_addr);
                                    ss.insert(input_id, NestedConfig::Single(name, id, ins, outs));
                                },
                                Some(other) => {
                                    ss.insert(input_id, other);
                                },
                                None => {},
                            }
                            proof {
                                assert(cfg_shape(gk[p as int], ss@[input_id]));
                                assert forall|i: usize| ss@.contains_key(i) <==> last_with_id(gk, i) >= 0 by {
                                    assert(ss@.contains_key(i) <==> ss0.contains_key(i));
                                }
                                assert forall|i: usize|
                                    #[trigger] ss@.contains_key(i) && 0 <= last_with_id(gk, i) < gk.len() implies cfg_shape(
                                    gk[last_with_id(gk, i)],
                                    ss@[i],
                                ) by {
                                    if i != input_id {
                                        assert(ss@[i] == ss0[i]);
                                    }
                                }
                                assert(subs_shape(gk, ss@));
                            }
                        },
                        NestedConfig::Single(..) => {},
                    }
                    proof {
                        assert(cfg_shape(kids[conn.to.0 as int], tc));
                        assert(conn_target(conn, kids) == Some((to_id, input_id)));
                    }
                    subs.insert(to_id, tc);
                    proof {
                        assert(subs@.dom() =~= subs_before.dom());
                        lemma_fed_step(subs0, subs_before, subs@, sub.connections@, i as int, kids, to_id, input_id);
                    }
                } else {
                    proof {
                        assert(conn_target(conn, kids) is None);
                        lemma_fed_skip(subs0, subs@, sub.connections@, i as int, kids);
                    }
                }
                i = i + 1;
            }
            let ghost mid = subs@;
            proof {
                assert(sub.connections@.take(sub.connections@.len() as int) =~= sub.connections@);
            }
            let mut k: usize = 0;
            while k < sub_comps.len()
                invariant
                    k <= n,
                    subs_fed(subs0, mid, sub.connections@, kids),
                    subs@.dom() == mid.dom(),
                    forall|j: int| 0 <= j < k ==> fixed(#[trigger] kids[j], mid[kids[j].id], subs@[kids[j].id]),
                    forall|t: usize|
                        #[trigger] subs@.contains_key(t) && (last_with_id(kids, t) < 0 || last_with_id(kids, t) >= k)
                            ==> subs@[t] == mid[t],
                    comp.sub == Some(*sub),
                    sub_comps@ == kids,
                    n == kids.len(),
                    fix_safe(*comp),
                    subs_shape(kids, subs@),
                    forall|k: int| 0 <= k < n ==> fix_safe(#[trigger] kids[k]),
                    forall|j: int| 0 <= j < n ==> #[trigger] kids[j].depth() < comp.depth(),
                    forall|a: int, b: int| 0 <= a < b < n ==> #[trigger] kids[a].id != #[trigger] kids[b].id,
                decreases n - k,
            {
                let id = sub_comps[k].id;
                proof {
                    lemma_last_with_distinct(kids, k as int);
                }
                let ghost before = subs@;
                let mut c = match subs.remove(&id) {
                    Some(c) => c,
                    None => {
                        return;
                    },
                };
                let ghost c0 = c;
                fix_inputs_data_addrs(&sub_comps[k], &mut c);
                subs.insert(id, c);
                proof {
                    assert(subs@.dom() =~= before.dom());
                    assert forall|j: int| 0 <= j < k + 1 implies fixed(#[trigger] kids[j], mid[kids[j].id], subs@[kids[j].id]) by {
                        if j < k {
                            assert(kids[j].id != kids[k as int].id);
                        }
                    }
                    assert forall|t: usize|
                        #[trigger] subs@.contains_key(t) && (last_with_id(kids, t) < 0 || last_with_id(kids, t) >= k + 1)
                            implies subs@[t] == mid[t] by {
                        assert(t != id);
                    }
                }
                k = k + 1;
            }
            proof {
                assert(subs_fed(subs0, mid, sub.connections@, kids));
            }
        },
        NestedConfig::Single(..) => {},
    }
}

/// `a` and `b` are the same circuit, value for value.
pub open spec fn same_circuit(a: Circuit, b: Circuit) -> bool
    decreases a.depth(),
{
    &&& a.id == b.id
    &&& a.name == b.name
    &&& a.inputs == b.inputs
    &&& a.outputs == b.outputs
    &&& a.extra == b.extra
    &&& match (a.sub, b.sub) {
        (None, None) => true,
        (Some(x), Some(y)) => {
            proof {
                assert forall|k: int| 0 <= k < x.components@.len() implies #[trigger] x.components@[k].depth()
                    < a.depth() by {
                    lemma_circuits_depth_bound(x.components@, k);
                }
            }
            &&& x.connections@ == y.connections@
            &&& x.in_addrs@ == y.in_addrs@
            &&& x.out_addrs@ == y.out_addrs@
            &&& x.components@.len() == y.components@.len()
            &&& forall|k: int| 0 <= k < x.components@.len() ==> same_circuit(#[trigger] x.components@[k], y.components@[k])
        },
        _ => false,
    }
}

fn copy_in_addrs(v: &Vec<(usize, PortAddr)>) -> (r: Vec<(usize, PortAddr)>)
    ensures
        r@ == v@,
{
    let mut r: Vec<(usize, PortAddr)> = Vec::new();
    let mut i: usize = 0;
    while i < v.len()
        invariant
            i <= v.len(),
            r@ == v@.take(i as int),
        decreases v.len() - i,
    {
        r.push(v[i]);
        i = i + 1;
        assert(r@ =~= v@.take(i as int));
    }
    assert(v@.take(v.len() as int) =~= v@);
    r
}

fn copy_conn_list(v: &Vec<Conn>) -> (r: Vec<Conn>)
    ensures
        r@ == v@,
{
    let mut r: Vec<Conn> = Vec::new();
    let mut i: usize = 0;
    while i < v.len()
        invariant
            i <= v.len(),
            r@ == v@.take(i as int),
        decreases v.len() - i,
    {
        r.push(v[i]);
        i = i + 1;
        assert(r@ =~= v@.take(i as int));
    }
    assert(v@.take(v.len() as int) =~= v@);
    r
}

/// A copy of `c`.
pub fn clone_circuit(c: &Circuit) -> (r: Circuit)
    ensures
        same_circuit(r, *c),
    decreases c.depth(),
{
    let name = match &c.name {
        Some(n) => Some(n.clone()),
        None => None,
    };
    let sub = match &c.sub {
        Some(x) => {
            let mut components: Vec<Circuit> = Vec::new();
            let mut k: usize = 0;
            while k < x.components.len()
                invariant
                    k <= x.components@.len(),
                    c.sub == Some(*x),
                    components@.len() == k,
                    forall|j: int| 0 <= j < k ==> same_circuit(#[trigger] components@[j], x.components@[j]),
                decreases x.components@.len() - k,
            {
                proof {
                    lemma_circuits_depth_bound(x.components@, k as int);
                }
                components.push(clone_circuit(&x.components[k]));
                k = k + 1;
            }
            Some(
                SubCircuit {
                    components,
                    connections: copy_conn_list(&x.connections),
                    in_addrs: copy_in_addrs(&x.in_addrs),
                    out_addrs: copy_ports(&x.out_addrs),
                },
            )
        },
        None => None,
    };
    let r = Circuit { id: c.id, name, inputs: c.inputs, outputs: c.outputs, sub, extra: c.extra };
    r
}

proof fn lemma_same_kids(a: Seq<Circuit>, b: Seq<Circuit>)
    requires
        a.len() == b.len(),
        forall|k: int| 0 <= k < a.len() ==> same_circuit(#[trigger] a[k], b[k]),
    ensures
        input_kids(a) == input_kids(b),
        forall|i: usize| last_with_id(a, i) == last_with_id(b, i),
        forall|k: int| 0 <= k < a.len() ==> out_count(#[trigger] a[k]) == out_count(b[k]),
    decreases a.len(),
{
    if a.len() > 0 {
        assert forall|k: int| 0 <= k < a.drop_last().len() implies same_circuit(#[trigger] a.drop_last()[k], b.drop_last()[k]) by {
            assert(a.drop_last()[k] == a[k] && b.drop_last()[k] == b[k]);
        }
        lemma_same_kids(a.drop_last(), b.drop_last());
        assert(same_circuit(a.last(), b.last()));
        assert(a.last().id == b.last().id);
        assert forall|i: usize| last_with_id(a, i) == last_with_id(b, i) by {
            assert(last_with_id(a.drop_last(), i) == last_with_id(b.drop_last(), i));
            assert(a.len() == b.len());
        }
        assert forall|k: int| 0 <= k < a.len() implies out_count(#[trigger] a[k]) == out_count(b[k]) by {
            assert(same_circuit(a[k], b[k]));
        }
    }
}

proof fn lemma_last_feed_same(conns: Seq<Conn>, ka: Seq<Circuit>, kb: Seq<Circuit>, subs: Map<usize, NestedConfig>)
    requires
        forall|i: int|
            0 <= i < conns.len() ==> conn_target(#[trigger] conns[i], ka) == conn_target(conns[i], kb) && conn_source(
                conns[i],
                ka,
                subs,
            ) == conn_source(conns[i], kb, subs),
    ensures
        forall|t: usize, q: usize| #[trigger] last_feed(conns, ka, subs, t, q) == last_feed(conns, kb, subs, t, q),
    decreases conns.len(),
{
    if conns.len() > 0 {
        let p = conns.drop_last();
        assert forall|i: int| 0 <= i < p.len() implies conn_target(#[trigger] p[i], ka) == conn_target(p[i], kb)
            && conn_source(p[i], ka, subs) == conn_source(p[i], kb, subs) by {
            assert(p[i] == conns[i]);
        }
        lemma_last_feed_same(p, ka, kb, subs);
        let l = conns[conns.len() - 1];
        assert(conns.last() == l);
        assert(conn_target(l, ka) == conn_target(l, kb) && conn_source(l, ka, subs) == conn_source(l, kb, subs));
        assert forall|t: usize, q: usize| #[trigger] last_feed(conns, ka, subs, t, q) == last_feed(conns, kb, subs, t, q) by {
            assert(last_feed(p, ka, subs, t, q) == last_feed(p, kb, subs, t, q));
        }
    }
}

/// Fixing up a configuration means the same for two copies of a circuit.
pub proof fn lemma_same_fixed(a: Circuit, b: Circuit, c0: NestedConfig, c1: NestedConfig)
    requires
        same_circuit(a, b),
        fix_safe(b),
        fixed(b, c0, c1),
    ensures
        fixed(a, c0, c1),
    decreases a.depth(),
{
    if let (Some(x), Some(y)) = (a.sub, b.sub) {
        let ka = x.components@;
        let kb = y.components@;
        let conns = x.connections@;
        lemma_same_kids(ka, kb);
        assert forall|k: int| 0 <= k < ka.len() implies #[trigger] ka[k].depth() < a.depth() by {
            lemma_circuits_depth_bound(ka, k);
        }
        assert forall|k: int| 0 <= k < kb.len() implies #[trigger] kb[k].depth() < b.depth() by {
            lemma_circuits_depth_bound(kb, k);
        }
        if let NestedConfig::Compose(a0, b0, subs0, e0, d0) = c0 {
            let subs1 = c1->Compose_2;
            let mid = choose|mid: Map<usize, NestedConfig>|
                {
                    &&& #[trigger] subs_fed(subs0@, mid, y.connections@, kb)
                    &&& subs1@.dom() == mid.dom()
                    &&& forall|k: int| 0 <= k < kb.len() ==> fixed(#[trigger] kb[k], mid[kb[k].id], subs1@[kb[k].id])
                    &&& forall|t: usize| #[trigger] subs1@.contains_key(t) && last_with_id(kb, t) < 0 ==> subs1@[t] == mid[t]
                };
            assert(fix_conns_ok(conns, kb));
            assert forall|i: int| 0 <= i < conns.len() implies conn_target(#[trigger] conns[i], ka) == conn_target(conns[i], kb)
                && conn_source(conns[i], ka, subs0@) == conn_source(conns[i], kb, subs0@) by {
                let c = conns[i];
                assert(same_circuit(ka[c.from.0 as int], kb[c.from.0 as int]));
                assert(same_circuit(ka[c.to.0 as int], kb[c.to.0 as int]));
                if let Some(ts) = ka[c.to.0 as int].sub {
                    let us = kb[c.to.0 as int].sub->0;
                    lemma_same_kids(ts.components@, us.components@);
                    let ik = input_kids(ts.components@);
                    if c.to.1 < ik.len() && 0 <= ik[c.to.1 as int] < ts.components@.len() {
                        assert(same_circuit(ts.components@[ik[c.to.1 as int]], us.components@[ik[c.to.1 as int]]));
                    }
                }
            }
            lemma_last_feed_same(conns, ka, kb, subs0@);
            assert(subs_fed(subs0@, mid, conns, ka)) by {
                assert forall|t: usize| #[trigger] mid.contains_key(t) implies match subs0@[t] {
                    NestedConfig::Compose(a2, b2, m0, c2, d2) => {
                        &&& mid[t] matches NestedConfig::Compose(a1, b1, m1, c1, d1)
                        &&& a1 == a2 && b1 == b2 && c1 == c2 && d1 == d2
                        &&& inner_fed(m0@, m1@, conns, ka, subs0@, t)
                    },
                    NestedConfig::Single(..) => mid[t] == subs0@[t],
                } by {
                    if let NestedConfig::Compose(a2, b2, m0, c2, d2) = subs0@[t] {
                        let m1 = mid[t]->Compose_2;
                        assert forall|q: usize| #[trigger] m1@.contains_key(q) implies match last_feed(conns, ka, subs0@, t, q) {
                            Some(z) => if m0@[q] is Single {
                                single_fed(m0@[q], m1@[q], z)
                            } else {
                                m1@[q] == m0@[q]
                            },
                            None => m1@[q] == m0@[q],
                        } by {
                            assert(last_feed(conns, ka, subs0@, t, q) == last_feed(conns, kb, subs0@, t, q));
                        }
                    }
                }
            }
            assert forall|k: int| 0 <= k < ka.len() implies fixed(#[trigger] ka[k], mid[ka[k].id], subs1@[ka[k].id]) by {
                assert(same_circuit(ka[k], kb[k]));
                assert(fix_safe(kb[k]));
                lemma_same_fixed(ka[k], kb[k], mid[kb[k].id], subs1@[kb[k].id]);
            }
        }
    }
}

/// Two copies of a circuit can both be fixed up, and take configurations of
/// the same shapes.
pub proof fn lemma_same_fix(a: Circuit, b: Circuit, cfg: NestedConfig)
    requires
        same_circuit(a, b),
    ensures
        fix_safe(b) ==> fix_safe(a),
        cfg_shape(b, cfg) ==> cfg_shape(a, cfg),
    decreases a.depth(),
{
    match (a.sub, b.sub) {
        (Some(x), Some(y)) => {
            let ka = x.components@;
            let kb = y.components@;
            lemma_same_kids(ka, kb);
            assert forall|k: int| 0 <= k < ka.len() implies #[trigger] ka[k].depth() < a.depth() by {
                lemma_circuits_depth_bound(ka, k);
            }
            if fix_safe(b) {
                assert forall|k: int| 0 <= k < ka.len() implies fix_safe(#[trigger] ka[k]) by {
                    lemma_same_fix(ka[k], kb[k], cfg);
                }
                assert forall|j: int, k: int| 0 <= j < k < ka.len() implies #[trigger] ka[j].id != #[trigger] ka[k].id by {
                    assert(same_circuit(ka[j], kb[j]) && same_circuit(ka[k], kb[k]));
                }
                assert forall|i: int| 0 <= i < x.connections@.len() implies {
                    let cn = #[trigger] x.connections@[i];
                    &&& cn.from.0 < ka.len() && cn.to.0 < ka.len()
                    &&& cn.from.1 < out_count(ka[cn.from.0 as int])
                    &&& (ka[cn.to.0 as int].sub matches Some(ts) ==> {
                        let ik = input_kids(ts.components@);
                        &&& cn.to.1 < ik.len()
                        &&& 0 <= ik[cn.to.1 as int] < ts.components@.len()
                        &&& ts.components@[ik[cn.to.1 as int]].sub is None
                        &&& ts.components@[ik[cn.to.1 as int]].outputs > 0
                    })
                } by {
                    let cn = x.connections@[i];
                    assert(y.connections@[i] == cn);
                    let t = cn.to.0 as int;
                    assert(same_circuit(ka[t], kb[t]));
                    if let Some(ts) = ka[t].sub {
                        let us = kb[t].sub->0;
                        lemma_same_kids(ts.components@, us.components@);
                        let ik = input_kids(ts.components@);
                        if cn.to.1 < ik.len() {
                            assert(same_circuit(ts.components@[ik[cn.to.1 as int]], us.components@[ik[cn.to.1 as int]]));
                        }
                    }
                }
            }
            if cfg_shape(b, cfg) {
                if let NestedConfig::Compose(_, _, subs, _, _) = cfg {
                    assert forall|i: usize|
                        #[trigger] subs@.contains_key(i) && 0 <= last_with_id(ka, i) < ka.len() implies cfg_shape(
                        ka[last_with_id(ka, i)],
                        subs@[i],
                    ) by {
                        let j = last_with_id(ka, i);
                        lemma_same_fix(ka[j], kb[j], subs@[i]);
                    }
                }
            }
        },
        _ => {},
    }
}

/// Being the same circuit goes both ways.
pub proof fn lemma_same_symmetric(a: Circuit, b: Circuit)
    requires
        same_circuit(a, b),
    ensures
        same_circuit(b, a),
    decreases a.depth(),
{
    if let (Some(x), Some(y)) = (a.sub, b.sub) {
        assert forall|k: int| 0 <= k < y.components@.len() implies same_circuit(#[trigger] y.components@[k], x.components@[k]) by {
            lemma_circuits_depth_bound(x.components@, k);
            lemma_same_symmetric(x.components@[k], y.components@[k]);
        }
    }
}
} // verus!
