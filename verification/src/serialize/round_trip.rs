use vstd::prelude::*;

use crate::components::composed_component::{
    lemma_seq_depth_bound,
    seq_depth,
    AnyComponent,
    ComposedComponent,
    Conn,
    PinAddr,
};
use crate::components::primitives::primitive::{Primitive, lemma_primitive_names_distinct};
use super::json::{
    comp_built,
    comp_error,
    comp_safe,
    composed_built,
    composed_error,
    composed_json,
    composed_safe,
    conn_json,
    conns_parse,
    conns_safe,
    end_pin,
    items_error,
    items_safe,
    json_of,
    lows,
    pin_at,
    pin_json,
    pins_parse,
    primitive_named,
    rest_parse,
    JsonValue,
};

verus! {

/// The description of `a` reads back: every constant inside `a` (`a`
/// itself included) has its output, and every composed component inside it
/// has a name that is not the name of a primitive, so that it reads back as
/// a composed component, and parts that read back (`parts_read_back`).
pub open spec fn reads_back(a: AnyComponent) -> bool
    decreases a.depth(), 1nat,
{
    match a {
        AnyComponent::Const(g) => g.outs@.len() > 0,
        AnyComponent::Composed(c) => primitive_named(c.name@) is None && parts_read_back(c),
        _ => true,
    }
}

/// Every connection of `c` ends at one of its sub-components, and the
/// description of each sub-component reads back.
pub open spec fn parts_read_back(c: ComposedComponent) -> bool
    decreases 1 + seq_depth(c.components@), 0nat,
{
    proof {
        assert forall|k: int| 0 <= k < c.components@.len() implies (#[trigger] c.components@[k]).depth() < 1
            + seq_depth(c.components@) by {
            lemma_seq_depth_bound(c.components@, k);
        }
    }
    &&& forall|i: int| 0 <= i < c.connections@.len() ==> #[trigger] c.connections@[i].to.0 < c.components@.len()
    &&& forall|k: int| 0 <= k < c.components@.len() ==> reads_back(#[trigger] c.components@[k])
}

/// `b` is what reading back the description of `a` gives: a component of the
/// same kind, with as many inputs for a gate, the same frequency for a clock,
/// the same value for a constant, and the same structure, all pins low, for a
/// composed one.
pub open spec fn same_kind(a: AnyComponent, b: AnyComponent) -> bool
    decreases a.depth(), 1nat,
{
    match a {
        AnyComponent::NotGate(_) => b is NotGate,
        AnyComponent::AndGate(g) => b matches AnyComponent::AndGate(h) && h.ins@.len() == g.ins@.len(),
        AnyComponent::OrGate(g) => b matches AnyComponent::OrGate(h) && h.ins@.len() == g.ins@.len(),
        AnyComponent::NandGate(g) => b matches AnyComponent::NandGate(h) && h.ins@.len() == g.ins@.len(),
        AnyComponent::NorGate(g) => b matches AnyComponent::NorGate(h) && h.ins@.len() == g.ins@.len(),
        AnyComponent::XorGate(g) => b matches AnyComponent::XorGate(h) && h.ins@.len() == g.ins@.len(),
        AnyComponent::Clock(g) => b matches AnyComponent::Clock(h) && h.frec_bits == g.frec_bits,
        AnyComponent::Const(g) => b matches AnyComponent::Const(h) && h.outs@ == seq![g.outs@[0]],
        AnyComponent::Composed(c) => b matches AnyComponent::Composed(d) && same_structure(c, d),
    }
}

/// `d` has the name, the wiring and the pins of `c`, all low, and
/// sub-components of the same kinds.
pub open spec fn same_structure(c: ComposedComponent, d: ComposedComponent) -> bool
    decreases 1 + seq_depth(c.components@), 0nat,
{
    proof {
        assert forall|k: int| 0 <= k < c.components@.len() implies (#[trigger] c.components@[k]).depth() < 1
            + seq_depth(c.components@) by {
            lemma_seq_depth_bound(c.components@, k);
        }
    }
    &&& d.name@ == c.name@
    &&& d.connections@ == c.connections@
    &&& d.in_addrs@ == c.in_addrs@
    &&& d.out_addrs@ == c.out_addrs@
    &&& d.ins@ == lows(c.in_addrs@.len())
    &&& d.outs@ == lows(c.out_addrs@.len())
    &&& d.components@.len() == c.components@.len()
    &&& forall|k: int| 0 <= k < c.components@.len() ==> same_kind(#[trigger] c.components@[k], d.components@[k])
}

proof fn lemma_primitive_named(p: Primitive)
    ensures
        primitive_named(p.text()) == Some(p),
{
    let q = choose|q: Primitive| q.text() == p.text();
    lemma_primitive_names_distinct(p, q);
}

proof fn lemma_pin_back(p: PinAddr, v: JsonValue)
    requires
        pin_json(p, v),
    ensures
        pin_at(v) == Some(p),
        end_pin(v.items()->0) == Some(p),
{
    assert((p.0 as u64) as usize == p.0);
    assert((p.1 as u64) as usize == p.1);
    let s = v.items()->0;
    assert(s[0] == v.at(0) && s[1] == v.at(1));
}

proof fn lemma_conns_back(cs: Seq<JsonValue>, conns: Seq<Conn>)
    requires
        cs.len() == conns.len(),
        forall|i: int| 0 <= i < cs.len() ==> conn_json(conns[i], #[trigger] cs[i]),
    ensures
        conns_parse(cs) == Some(conns),
        conns_safe(cs),
    decreases cs.len(),
{
    if cs.len() > 0 {
        let (a, b) = (cs.drop_last(), conns.drop_last());
        assert forall|i: int| 0 <= i < a.len() implies conn_json(b[i], #[trigger] a[i]) by {
            assert(a[i] == cs[i] && b[i] == conns[i]);
        }
        lemma_conns_back(a, b);
        let c = cs.last();
        assert(conn_json(conns.last(), c)) by {
            assert(cs[cs.len() - 1] == c);
        }
        lemma_pin_back(conns.last().from, c.key("from"@));
        lemma_pin_back(conns.last().to, c.key("to"@));
        assert(conns == b.push(conns.last()));
    }
}

proof fn lemma_pins_back(ps: Seq<JsonValue>, pins: Seq<PinAddr>)
    requires
        ps.len() == pins.len(),
        forall|i: int| 0 <= i < ps.len() ==> pin_json(pins[i], #[trigger] ps[i]),
    ensures
        pins_parse(ps) == Some(pins),
    decreases ps.len(),
{
    if ps.len() > 0 {
        let (a, b) = (ps.drop_last(), pins.drop_last());
        assert forall|i: int| 0 <= i < a.len() implies pin_json(b[i], #[trigger] a[i]) by {
            assert(a[i] == ps[i] && b[i] == pins[i]);
        }
        lemma_pins_back(a, b);
        assert(pin_json(pins.last(), ps.last())) by {
            assert(ps[ps.len() - 1] == ps.last());
        }
        lemma_pin_back(pins.last(), ps.last());
        assert(pins == b.push(pins.last()));
    }
}

proof fn lemma_items_back(items: Seq<JsonValue>)
    requires
        forall|k: int| 0 <= k < items.len() ==> comp_error(#[trigger] items[k]) is None && comp_safe(items[k]),
    ensures
        items_error(items) is None,
        items_safe(items),
    decreases items.len(),
{
    if items.len() > 0 {
        let a = items.drop_last();
        assert forall|k: int| 0 <= k < a.len() implies comp_error(#[trigger] a[k]) is None && comp_safe(a[k]) by {
            assert(a[k] == items[k]);
        }
        lemma_items_back(a);
        assert(items[items.len() - 1] == items.last());
    }
}

proof fn lemma_len_casts(n: nat)
    requires
        n <= usize::MAX,
    ensures
        ((n as u64) as usize) as nat == n,
{
    assert(usize::MAX <= u64::MAX);
}

/// Reading back the description of a component that reads back succeeds and
/// gives a component of the same kind.
pub proof fn lemma_comp_round_trip<F: Fn(u64) -> u128>(a: AnyComponent, v: JsonValue, f: F)
    requires
        json_of(a, v),
        reads_back(a),
    ensures
        comp_error(v) is None,
        comp_safe(v),
        forall|b: AnyComponent| #[trigger] comp_built(b, v, f) ==> same_kind(a, b),
    decreases a.depth(), 1nat,
{
    reveal_strlit("ConstOne");
    reveal_strlit("ConstZero");
    match a {
        AnyComponent::NotGate(g) => {
            lemma_primitive_named(Primitive::NotGate);
            assert forall|b: AnyComponent| #[trigger] comp_built(b, v, f) implies same_kind(a, b) by {}
        },
        AnyComponent::AndGate(g) => {
            lemma_primitive_named(Primitive::AndGate);
            lemma_len_casts(g.ins.len() as nat);
            assert forall|b: AnyComponent| #[trigger] comp_built(b, v, f) implies same_kind(a, b) by {}
        },
        AnyComponent::OrGate(g) => {
            lemma_primitive_named(Primitive::OrGate);
            lemma_len_casts(g.ins.len() as nat);
            assert forall|b: AnyComponent| #[trigger] comp_built(b, v, f) implies same_kind(a, b) by {}
        },
        AnyComponent::NandGate(g) => {
            lemma_primitive_named(Primitive::NandGate);
            lemma_len_casts(g.ins.len() as nat);
            assert forall|b: AnyComponent| #[trigger] comp_built(b, v, f) implies same_kind(a, b) by {}
        },
        AnyComponent::NorGate(g) => {
            lemma_primitive_named(Primitive::NorGate);
            lemma_len_casts(g.ins.len() as nat);
            assert forall|b: AnyComponent| #[trigger] comp_built(b, v, f) implies same_kind(a, b) by {}
        },
        AnyComponent::XorGate(g) => {
            lemma_primitive_named(Primitive::XorGate);
            lemma_len_casts(g.ins.len() as nat);
            assert forall|b: AnyComponent| #[trigger] comp_built(b, v, f) implies same_kind(a, b) by {}
        },
        AnyComponent::Clock(g) => {
            lemma_primitive_named(Primitive::Clock);
            assert forall|b: AnyComponent| #[trigger] comp_built(b, v, f) implies same_kind(a, b) by {}
        },
        AnyComponent::Const(g) => {
            lemma_primitive_named(Primitive::ConstOne);
            lemma_primitive_named(Primitive::ConstZero);
            assert forall|b: AnyComponent| #[trigger] comp_built(b, v, f) implies same_kind(a, b) by {}
        },
        AnyComponent::Composed(c) => {
            lemma_composed_round_trip(c, v, f);
            assert forall|b: AnyComponent| #[trigger] comp_built(b, v, f) implies same_kind(a, b) by {
                assert(primitive_named(c.name@) is None);
                assert(v.key("name"@).str_of() == Some(c.name@));
                assert(b is Composed);
                let d = b->Composed_0;
                assert(composed_built(d, v, f));
                assert(same_structure(c, d));
            }
        },
    }
}

/// Reading back the description of a composed component whose parts read
/// back succeeds and gives a component with its name, its wiring, its pins
/// (all low) and sub-components of the same kinds.
pub proof fn lemma_composed_round_trip<F: Fn(u64) -> u128>(c: ComposedComponent, v: JsonValue, f: F)
    requires
        composed_json(c, v),
        parts_read_back(c),
    ensures
        composed_error(v) is None,
        composed_safe(v),
        forall|d: ComposedComponent| #[trigger] composed_built(d, v, f) ==> same_structure(c, d),
    decreases 1 + seq_depth(c.components@), 0nat,
{
    let items = v.key("components"@).items()->0;
    let cs = v.key("connections"@).items()->0;
    let ins = v.key("in_addrs"@).items()->0;
    let outs = v.key("out_addrs"@).items()->0;
    assert forall|k: int| 0 <= k < items.len() implies comp_error(#[trigger] items[k]) is None && comp_safe(items[k])
        && forall|b: AnyComponent| #[trigger] comp_built(b, items[k], f) ==> same_kind(c.components@[k], b) by {
        lemma_seq_depth_bound(c.components@, k);
        lemma_comp_round_trip(c.components@[k], items[k], f);
    }
    lemma_items_back(items);
    lemma_conns_back(cs, c.connections@);
    lemma_pins_back(ins, c.in_addrs@);
    lemma_pins_back(outs, c.out_addrs@);
    assert(rest_parse(v) == Some((c.connections@, c.in_addrs@, c.out_addrs@)));
    assert forall|i: int| 0 <= i < c.connections@.len() implies #[trigger] c.connections@[i].to.0 < items.len() by {}
    assert forall|d: ComposedComponent| #[trigger] composed_built(d, v, f) implies same_structure(c, d) by {
        assert forall|k: int| 0 <= k < c.components@.len() implies same_kind(#[trigger] c.components@[k], d.components@[k]) by {
            assert(comp_built(d.components@[k], items[k], f));
        }
    }
}

/// What a save gives back on loading: the JSON description of a composed
/// component whose connections end at its sub-components, whose constants
/// have their output and whose nested composed components are not named
/// like primitives (at every depth), reads back without error into a
/// component with its name, its wiring, its pins (all low) and
/// sub-components of the same kinds.
pub proof fn lemma_json_round_trip<F: Fn(u64) -> u128>(c: ComposedComponent, v: JsonValue, f: F, d: ComposedComponent)
    requires
        composed_json(c, v),
        parts_read_back(c),
        composed_built(d, v, f),
    ensures
        composed_error(v) is None,
        composed_safe(v),
        same_structure(c, d),
{
    lemma_composed_round_trip(c, v, f);
}

} // verus!
