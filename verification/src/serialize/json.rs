use vstd::prelude::*;

use crate::component::falses;
use crate::components::composed_component::{
    lemma_seq_depth_bound,
    seq_depth,
    AnyComponent,
    ComposedComponent,
    ComposedComponentBuilder,
    Conn,
    PinAddr,
    deps_of,
};
use crate::components::primitives::and_gate::AndGate;
use crate::components::primitives::clock::Clock;
use crate::components::primitives::constant::Const;
use crate::components::primitives::nand_gate::NandGate;
use crate::components::primitives::nor_gate::NorGate;
use crate::components::primitives::not_gate::NotGate;
use crate::components::primitives::or_gate::OrGate;
use crate::components::primitives::primitive::{Primitive, lemma_primitive_names_distinct};
use crate::components::primitives::xor_gate::XorGate;

verus! {

/// A JSON number: its value as an unsigned integer when it is one, and the
/// bits of its IEEE 754 double value when they are known.
#[derive(Debug, Clone, Copy, PartialEq, Eq, Structural)]
pub struct JsonNumber {
    pub as_u64: Option<u64>,
    pub f64_bits: Option<u64>,
}

/// A JSON value. The members of an object are kept in order, and a key
/// occurs at most once in a well-formed object.
#[derive(Debug)]
pub enum JsonValue {
    Null,
    Bool(bool),
    Number(JsonNumber),
    String(String),
    Array(Vec<JsonValue>),
    Object(Vec<(String, JsonValue)>),
}

/// Nesting depth of the values of `s`.
pub open spec fn items_depth(s: Seq<JsonValue>) -> nat
    decreases s,
{
    if s.len() == 0 {
        0
    } else {
        let a = items_depth(s.drop_last());
        let b = s.last().depth();
        if a >= b {
            a
        } else {
            b
        }
    }
}

/// Nesting depth of the member values of `s`.
pub open spec fn members_depth(s: Seq<(String, JsonValue)>) -> nat
    decreases s,
{
    if s.len() == 0 {
        0
    } else {
        let a = members_depth(s.drop_last());
        let b = s.last().1.depth();
        if a >= b {
            a
        } else {
            b
        }
    }
}

/// The value of the first member of `s` with key `key`; `Null` if none has it.
pub open spec fn lookup(s: Seq<(String, JsonValue)>, key: Seq<char>) -> JsonValue
    decreases s.len(),
{
    if s.len() == 0 {
        JsonValue::Null
    } else if s[0].0@ == key {
        s[0].1
    } else {
        lookup(s.drop_first(), key)
    }
}

impl JsonValue {
    /// Nesting depth: zero for a value that is neither an array nor an object.
    pub open spec fn depth(self) -> nat
        decreases self,
    {
        match self {
            JsonValue::Array(a) => 1 + items_depth(a@),
            JsonValue::Object(o) => 1 + members_depth(o@),
            _ => 0,
        }
    }

    /// `self[key]`: the member `key` of an object, `Null` otherwise.
    pub open spec fn key(self, key: Seq<char>) -> JsonValue {
        match self {
            JsonValue::Object(o) => lookup(o@, key),
            _ => JsonValue::Null,
        }
    }

    /// `self[i]`: item `i` of an array, `Null` otherwise.
    pub open spec fn at(self, i: int) -> JsonValue {
        match self {
            JsonValue::Array(a) => if 0 <= i < a@.len() {
                a@[i]
            } else {
                JsonValue::Null
            },
            _ => JsonValue::Null,
        }
    }

    /// The text of a string.
    pub open spec fn str_of(self) -> Option<Seq<char>> {
        match self {
            JsonValue::String(s) => Some(s@),
            _ => None,
        }
    }

    /// The items of an array.
    pub open spec fn items(self) -> Option<Seq<JsonValue>> {
        match self {
            JsonValue::Array(a) => Some(a@),
            _ => None,
        }
    }

    /// The value of a number that is an unsigned integer.
    pub open spec fn u64_of(self) -> Option<u64> {
        match self {
            JsonValue::Number(n) => n.as_u64,
            _ => None,
        }
    }

    /// The double-precision bits of a number.
    pub open spec fn f64_bits_of(self) -> Option<u64> {
        match self {
            JsonValue::Number(n) => n.f64_bits,
            _ => None,
        }
    }

    pub fn get_key(&self, key: &str) -> (r: &JsonValue)
        ensures
            *r == self.key(key@),
    {
        match self {
            JsonValue::Object(o) => {
                let mut k: usize = 0;
                assert(o@.skip(0) =~= o@);
                while k < o.len()
                    invariant
                        k <= o@.len(),
                        self.key(key@) == lookup(o@, key@),
                        lookup(o@, key@) == lookup(o@.skip(k as int), key@),
                    decreases o@.len() - k,
                {
                    assert(o@.skip(k as int).drop_first() =~= o@.skip(k as int + 1));
                    if str_eq(o[k].0.as_str(), key) {
                        assert(o@.skip(k as int)[0] == o@[k as int]);
                        return &o[k].1;
                    }
                    k = k + 1;
                }
                &JsonValue::Null
            },
            _ => &JsonValue::Null,
        }
    }

    pub fn get_at(&self, i: usize) -> (r: &JsonValue)
        ensures
            *r == self.at(i as int),
    {
        match self {
            JsonValue::Array(a) => {
                if i < a.len() {
                    &a[i]
                } else {
                    &JsonValue::Null
                }
            },
            _ => &JsonValue::Null,
        }
    }

    pub fn as_str(&self) -> (r: Option<&str>)
        ensures
            r matches Some(s) ==> self.str_of() == Some(s@),
            r is None ==> self.str_of() is None,
    {
        match self {
            JsonValue::String(s) => Some(s.as_str()),
            _ => None,
        }
    }

    pub fn as_array(&self) -> (r: Option<&Vec<JsonValue>>)
        ensures
            r matches Some(a) ==> self.items() == Some(a@),
            r is None ==> self.items() is None,
    {
        match self {
            JsonValue::Array(a) => Some(a),
            _ => None,
        }
    }

    pub fn as_u64(&self) -> (r: Option<u64>)
        ensures
            r == self.u64_of(),
    {
        match self {
            JsonValue::Number(n) => n.as_u64,
            _ => None,
        }
    }

    pub fn as_f64_bits(&self) -> (r: Option<u64>)
        ensures
            r == self.f64_bits_of(),
    {
        match self {
            JsonValue::Number(n) => n.f64_bits,
            _ => None,
        }
    }
}

/// `a` and `b` hold the same text.
pub fn str_eq(a: &str, b: &str) -> (r: bool)
    ensures
        r == (a@ == b@),
{
    let x = String::from_str(a);
    let y = String::from_str(b);
    x == y
}


pub proof fn lemma_items_depth_bound(s: Seq<JsonValue>, k: int)
    requires
        0 <= k < s.len(),
    ensures
        s[k].depth() <= items_depth(s),
    decreases s.len(),
{
    if k < s.len() - 1 {
        lemma_items_depth_bound(s.drop_last(), k);
        assert(s.drop_last()[k] == s[k]);
    }
}

pub proof fn lemma_members_depth_bound(s: Seq<(String, JsonValue)>, k: int)
    requires
        0 <= k < s.len(),
    ensures
        s[k].1.depth() <= members_depth(s),
    decreases s.len(),
{
    if k < s.len() - 1 {
        lemma_members_depth_bound(s.drop_last(), k);
        assert(s.drop_last()[k] == s[k]);
    }
}

pub proof fn lemma_lookup_is_member(s: Seq<(String, JsonValue)>, key: Seq<char>)
    ensures
        lookup(s, key) is Null || exists|k: int| 0 <= k < s.len() && lookup(s, key) == s[k].1,
    decreases s.len(),
{
    if s.len() > 0 && s[0].0@ != key {
        lemma_lookup_is_member(s.drop_first(), key);
        if !(lookup(s, key) is Null) {
            let k = choose|k: int| 0 <= k < s.drop_first().len() && lookup(s.drop_first(), key) == s.drop_first()[k].1;
            assert(s[k + 1] == s.drop_first()[k]);
        }
    }
}

/// A member of an object, or an item of an array, is less deeply nested than
/// the object or the array.
pub proof fn lemma_inner_depth(v: JsonValue, key: Seq<char>, i: int)
    ensures
        v is Object ==> v.key(key).depth() < v.depth(),
        v is Array ==> v.at(i).depth() < v.depth(),
{
    match v {
        JsonValue::Object(o) => {
            lemma_lookup_is_member(o@, key);
            if !(lookup(o@, key) is Null) {
                let k = choose|k: int| 0 <= k < o@.len() && lookup(o@, key) == o@[k].1;
                lemma_members_depth_bound(o@, k);
            }
        },
        JsonValue::Array(a) => {
            if 0 <= i < a@.len() {
                lemma_items_depth_bound(a@, i);
            }
        },
        _ => {},
    }
}

/// Reading a component from JSON failed.
#[derive(Debug)]
pub enum JsonDeserializationError {
    InvalidNotGate,
    InvalidAndGate,
    InvalidOrGate,
    InvalidNandGate,
    InvalidNorGate,
    InvalidXorGate,
    InvalidClock,
    InvalidConst,
    InvalidComposedComponent,
    InvalidPath(String),
    InvalidJsonFile(String),
}

/// The primitive named `name`, if there is one.
pub open spec fn primitive_named(name: Seq<char>) -> Option<Primitive> {
    if exists|p: Primitive| p.text() == name {
        Some(choose|p: Primitive| p.text() == name)
    } else {
        None
    }
}

/// The pin `[component, port]` held by the first two items of `items`.
pub open spec fn end_pin(items: Seq<JsonValue>) -> Option<PinAddr> {
    match (items[0].u64_of(), items[1].u64_of()) {
        (Some(a), Some(b)) => Some((a as usize, b as usize)),
        _ => None,
    }
}

/// The pin `[component, port]` held by `v[0]` and `v[1]`.
pub open spec fn pin_at(v: JsonValue) -> Option<PinAddr> {
    match (v.at(0).u64_of(), v.at(1).u64_of()) {
        (Some(a), Some(b)) => Some((a as usize, b as usize)),
        _ => None,
    }
}

/// The connection `{"from": [..], "to": [..]}` held by `c`.
pub open spec fn conn_parse(c: JsonValue) -> Option<Conn> {
    match c.key("from"@).items() {
        Some(f) if f.len() >= 2 => match end_pin(f) {
            Some(fp) => match c.key("to"@).items() {
                Some(t) if t.len() >= 2 => match end_pin(t) {
                    Some(tp) => Some(Conn { from: fp, to: tp }),
                    None => None,
                },
                _ => None,
            },
            None => None,
        },
        _ => None,
    }
}

/// Reading `c` as a connection does not index past the end of its `from` or
/// `to` array.
pub open spec fn conn_safe(c: JsonValue) -> bool {
    match c.key("from"@).items() {
        Some(f) => f.len() >= 2 && (end_pin(f) is Some ==> match c.key("to"@).items() {
            Some(t) => t.len() >= 2,
            None => true,
        }),
        None => true,
    }
}

/// The connections held by `cs`, read in order; `None` at the first that is
/// not one.
pub open spec fn conns_parse(cs: Seq<JsonValue>) -> Option<Seq<Conn>>
    decreases cs.len(),
{
    if cs.len() == 0 {
        Some(Seq::empty())
    } else {
        match conns_parse(cs.drop_last()) {
            Some(prev) => match conn_parse(cs.last()) {
                Some(c) => Some(prev.push(c)),
                None => None,
            },
            None => None,
        }
    }
}

/// Reading the connections of `cs` in order, up to the first that is not
/// one, stays within their arrays.
pub open spec fn conns_safe(cs: Seq<JsonValue>) -> bool
    decreases cs.len(),
{
    if cs.len() == 0 {
        true
    } else {
        conns_safe(cs.drop_last()) && (conns_parse(cs.drop_last()) is Some ==> conn_safe(cs.last()))
    }
}

/// The pins held by `ps`, read in order; `None` at the first that is not one.
pub open spec fn pins_parse(ps: Seq<JsonValue>) -> Option<Seq<PinAddr>>
    decreases ps.len(),
{
    if ps.len() == 0 {
        Some(Seq::empty())
    } else {
        match pins_parse(ps.drop_last()) {
            Some(prev) => match pin_at(ps.last()) {
                Some(p) => Some(prev.push(p)),
                None => None,
            },
            None => None,
        }
    }
}

/// The error reading the primitive `p` from `c` gives, if any.
pub open spec fn primitive_error(p: Primitive, c: JsonValue) -> Option<JsonDeserializationError> {
    match p {
        Primitive::AndGate => if c.key("in_count"@).u64_of() is None {
            Some(JsonDeserializationError::InvalidAndGate)
        } else {
            None
        },
        Primitive::OrGate => if c.key("in_count"@).u64_of() is None {
            Some(JsonDeserializationError::InvalidOrGate)
        } else {
            None
        },
        Primitive::NandGate => if c.key("in_count"@).u64_of() is None {
            Some(JsonDeserializationError::InvalidNandGate)
        } else {
            None
        },
        Primitive::NorGate => if c.key("in_count"@).u64_of() is None {
            Some(JsonDeserializationError::InvalidNorGate)
        } else {
            None
        },
        Primitive::XorGate => if c.key("in_count"@).u64_of() is None {
            Some(JsonDeserializationError::InvalidXorGate)
        } else {
            None
        },
        Primitive::Clock => if c.key("frec"@).f64_bits_of() is None {
            Some(JsonDeserializationError::InvalidClock)
        } else {
            None
        },
        _ => None,
    }
}

/// The error reading the sub-component `c` gives, if any.
pub open spec fn comp_error(c: JsonValue) -> Option<JsonDeserializationError>
    decreases c.depth(), 1nat, 0nat,
{
    match c.key("name"@).str_of() {
        None => Some(JsonDeserializationError::InvalidComposedComponent),
        Some(name) => match primitive_named(name) {
            Some(p) => primitive_error(p, c),
            None => composed_error(c),
        },
    }
}

/// The first error reading the sub-components `items` in order gives, if any.
pub open spec fn items_error(items: Seq<JsonValue>) -> Option<JsonDeserializationError>
    decreases items_depth(items), 2nat, items.len(),
{
    if items.len() == 0 {
        None
    } else {
        proof {
            lemma_items_depth_bound(items, items.len() - 1);
            lemma_items_depth_drop_last(items);
        }
        match items_error(items.drop_last()) {
            Some(e) => Some(e),
            None => comp_error(items.last()),
        }
    }
}

/// The error reading a composed component from `v` gives, if any.
pub open spec fn composed_error(v: JsonValue) -> Option<JsonDeserializationError>
    decreases v.depth(), 0nat, 0nat,
{
    if v.key("name"@).str_of() is None {
        Some(JsonDeserializationError::InvalidComposedComponent)
    } else {
        match v.key("components"@).items() {
            None => Some(JsonDeserializationError::InvalidComposedComponent),
            Some(items) => {
                proof {
                    lemma_inner_depth(v, "components"@, 0);
                }
                match items_error(items) {
                    Some(e) => Some(e),
                    None => if rest_parse(v) is None {
                        Some(JsonDeserializationError::InvalidComposedComponent)
                    } else {
                        None
                    },
                }
            },
        }
    }
}

/// Connections, input pins and output pins of the composed component held by
/// `v`, when all three can be read.
pub open spec fn rest_parse(v: JsonValue) -> Option<(Seq<Conn>, Seq<PinAddr>, Seq<PinAddr>)> {
    match v.key("connections"@).items() {
        Some(cs) => match conns_parse(cs) {
            Some(conns) => match v.key("in_addrs"@).items() {
                Some(ins) => match pins_parse(ins) {
                    Some(in_pins) => match v.key("out_addrs"@).items() {
                        Some(outs) => match pins_parse(outs) {
                            Some(out_pins) => Some((conns, in_pins, out_pins)),
                            None => None,
                        },
                        None => None,
                    },
                    None => None,
                },
                None => None,
            },
            None => None,
        },
        None => None,
    }
}

/// Reading the sub-component `c` cannot fail by indexing out of range.
pub open spec fn comp_safe(c: JsonValue) -> bool
    decreases c.depth(), 1nat, 0nat,
{
    match c.key("name"@).str_of() {
        None => true,
        Some(name) => match primitive_named(name) {
            Some(p) => true,
            None => composed_safe(c),
        },
    }
}

/// Reading the sub-components `items` in order, up to the first that fails,
/// cannot fail by indexing out of range.
pub open spec fn items_safe(items: Seq<JsonValue>) -> bool
    decreases items_depth(items), 2nat, items.len(),
{
    if items.len() == 0 {
        true
    } else {
        proof {
            lemma_items_depth_bound(items, items.len() - 1);
            lemma_items_depth_drop_last(items);
        }
        items_safe(items.drop_last()) && (items_error(items.drop_last()) is None ==> comp_safe(items.last()))
    }
}

/// Reading a composed component from `v` cannot fail by indexing out of
/// range: the arrays of each connection's ends are long enough, and every
/// connection ends at one of the sub-components.
pub open spec fn composed_safe(v: JsonValue) -> bool
    decreases v.depth(), 0nat, 0nat,
{
    if v.key("name"@).str_of() is None {
        true
    } else {
        match v.key("components"@).items() {
            None => true,
            Some(items) => {
                proof {
                    lemma_inner_depth(v, "components"@, 0);
                }
                &&& items_safe(items)
                &&& items_error(items) is None ==> match v.key("connections"@).items() {
                    Some(cs) => conns_safe(cs) && match rest_parse(v) {
                        Some((conns, _, _)) => forall|i: int|
                            0 <= i < conns.len() ==> #[trigger] conns[i].to.0 < items.len(),
                        None => true,
                    },
                    None => true,
                }
            },
        }
    }
}

pub proof fn lemma_items_depth_drop_last(s: Seq<JsonValue>)
    requires
        s.len() > 0,
    ensures
        items_depth(s.drop_last()) <= items_depth(s),
{
}

/// `n` low pins.
pub open spec fn lows(n: nat) -> Seq<bool> {
    Seq::new(n, |_k: int| false)
}

/// `c` is the sub-component read from `v`, the interval of each clock being
/// one that `to_interval` may give for the clock's frequency bits.
pub open spec fn comp_built<F: Fn(u64) -> u128>(c: AnyComponent, v: JsonValue, to_interval: F) -> bool
    decreases v.depth(), 1nat,
{
    let n = v.key("in_count"@).u64_of();
    match v.key("name"@).str_of() {
        None => false,
        Some(name) => match primitive_named(name) {
            Some(Primitive::NotGate) => c matches AnyComponent::NotGate(g) && g.ins@ == seq![false]
                && g.outs@ == seq![false],
            Some(Primitive::AndGate) => c matches AnyComponent::AndGate(g) && n is Some && g.ins@ == lows(
                (n->0 as usize) as nat,
            ) && g.outs@ == seq![false],
            Some(Primitive::OrGate) => c matches AnyComponent::OrGate(g) && n is Some && g.ins@ == lows(
                (n->0 as usize) as nat,
            ) && g.outs@ == seq![false],
            Some(Primitive::NandGate) => c matches AnyComponent::NandGate(g) && n is Some && g.ins@
                == lows((n->0 as usize) as nat) && g.outs@ == seq![false],
            Some(Primitive::NorGate) => c matches AnyComponent::NorGate(g) && n is Some && g.ins@ == lows(
                (n->0 as usize) as nat,
            ) && g.outs@ == seq![false],
            Some(Primitive::XorGate) => c matches AnyComponent::XorGate(g) && n is Some && g.ins@ == lows(
                (n->0 as usize) as nat,
            ) && g.outs@ == seq![false],
            Some(Primitive::Clock) => c matches AnyComponent::Clock(g) && v.key("frec"@).f64_bits_of()
                == Some(g.frec_bits) && g.ins@ == Seq::<bool>::empty() && g.outs@ == seq![false]
                && call_ensures(to_interval, (g.frec_bits,), g.interval),
            Some(Primitive::ConstOne) => c matches AnyComponent::Const(g) && g.ins@ == Seq::<bool>::empty()
                && g.outs@ == seq![true],
            Some(Primitive::ConstZero) => c matches AnyComponent::Const(g) && g.ins@ == Seq::<bool>::empty()
                && g.outs@ == seq![false],
            None => c matches AnyComponent::Composed(cc) && composed_built(cc, v, to_interval),
        },
    }
}

/// `c` is the composed component read from `v`: its name, its
/// sub-components, read in order, its connections and pins, all its pins low,
/// and the dependency map of its connections.
pub open spec fn composed_built<F: Fn(u64) -> u128>(c: ComposedComponent, v: JsonValue, to_interval: F) -> bool
    decreases v.depth(), 0nat,
{
    match (v.key("name"@).str_of(), v.key("components"@).items(), rest_parse(v)) {
        (Some(name), Some(items), Some((conns, in_pins, out_pins))) => {
            proof {
                lemma_inner_depth(v, "components"@, 0);
                assert forall|k: int| 0 <= k < items.len() implies #[trigger] items[k].depth() < v.depth() by {
                    lemma_items_depth_bound(items, k);
                }
            }
            &&& c.name@ == name
            &&& c.components@.len() == items.len()
            &&& forall|k: int| 0 <= k < items.len() ==> comp_built(#[trigger] c.components@[k], items[k], to_interval)
            &&& c.connections@ == conns
            &&& c.in_addrs@ == in_pins
            &&& c.out_addrs@ == out_pins
            &&& c.ins@ == lows(in_pins.len())
            &&& c.outs@ == lows(out_pins.len())
            &&& c.dep_map@.len() == items.len()
            &&& forall|k: int| 0 <= k < items.len() ==> #[trigger] c.dep_map@[k]@ == deps_of(conns, k)
        },
        _ => false,
    }
}

/// Reads components from JSON values.
pub struct JsonDeserializer;

impl JsonDeserializer {
    /// A NOT gate; nothing is read.
    pub fn parse_not_gate(obj: &JsonValue) -> (r: Result<NotGate, JsonDeserializationError>)
        ensures
            r matches Ok(g) && g.ins@ == seq![false] && g.outs@ == seq![false],
    {
        Ok(NotGate::new())
    }

    /// {"in_count": n}: a gate with `n` inputs.
    pub fn parse_and_gate(obj: &JsonValue) -> (r: Result<AndGate, JsonDeserializationError>)
        ensures
            match obj.key("in_count"@).u64_of() {
                Some(n) => r matches Ok(g) && g.ins@ == lows((n as usize) as nat) && g.outs@ == seq![false],
                None => r matches Err(e) && e is InvalidAndGate,
            },
    {
        match obj.get_key("in_count").as_u64() {
            Some(n) => Ok(AndGate::new(n as usize)),
            None => Err(JsonDeserializationError::InvalidAndGate),
        }
    }

    /// {"in_count": n}: a gate with `n` inputs.
    pub fn parse_or_gate(obj: &JsonValue) -> (r: Result<OrGate, JsonDeserializationError>)
        ensures
            match obj.key("in_count"@).u64_of() {
                Some(n) => r matches Ok(g) && g.ins@ == lows((n as usize) as nat) && g.outs@ == seq![false],
                None => r matches Err(e) && e is InvalidOrGate,
            },
    {
        match obj.get_key("in_count").as_u64() {
            Some(n) => Ok(OrGate::new(n as usize)),
            None => Err(JsonDeserializationError::InvalidOrGate),
        }
    }

    /// {"in_count": n}: a gate with `n` inputs.
    pub fn parse_nand_gate(obj: &JsonValue) -> (r: Result<NandGate, JsonDeserializationError>)
        ensures
            match obj.key("in_count"@).u64_of() {
                Some(n) => r matches Ok(g) && g.ins@ == lows((n as usize) as nat) && g.outs@ == seq![false],
                None => r matches Err(e) && e is InvalidNandGate,
            },
    {
        match obj.get_key("in_count").as_u64() {
            Some(n) => Ok(NandGate::new(n as usize)),
            None => Err(JsonDeserializationError::InvalidNandGate),
        }
    }

    /// {"in_count": n}: a gate with `n` inputs.
    pub fn parse_nor_gate(obj: &JsonValue) -> (r: Result<NorGate, JsonDeserializationError>)
        ensures
            match obj.key("in_count"@).u64_of() {
                Some(n) => r matches Ok(g) && g.ins@ == lows((n as usize) as nat) && g.outs@ == seq![false],
                None => r matches Err(e) && e is InvalidNorGate,
            },
    {
        match obj.get_key("in_count").as_u64() {
            Some(n) => Ok(NorGate::new(n as usize)),
            None => Err(JsonDeserializationError::InvalidNorGate),
        }
    }

    /// {"in_count": n}: a gate with `n` inputs.
    pub fn parse_xor_gate(obj: &JsonValue) -> (r: Result<XorGate, JsonDeserializationError>)
        ensures
            match obj.key("in_count"@).u64_of() {
                Some(n) => r matches Ok(g) && g.ins@ == lows((n as usize) as nat) && g.outs@ == seq![false],
                None => r matches Err(e) && e is InvalidXorGate,
            },
    {
        match obj.get_key("in_count").as_u64() {
            Some(n) => Ok(XorGate::new(n as usize)),
            None => Err(JsonDeserializationError::InvalidXorGate),
        }
    }

    /// {"frec": f}: a clock for the frequency `f`, whose interval
    /// `to_interval` computes from the bits of `f`.
    pub fn parse_clock<F: Fn(u64) -> u128 + Copy>(obj: &JsonValue, to_interval: F) -> (r: Result<
        Clock,
        JsonDeserializationError,
    >)
        requires
            forall|b: u64| call_requires(to_interval, (b,)),
        ensures
            match obj.key("frec"@).f64_bits_of() {
                Some(b) => r matches Ok(g) && g.frec_bits == b && g.ins@ == Seq::<bool>::empty() && g.outs@
                    == seq![false] && call_ensures(to_interval, (b,), g.interval),
                None => r matches Err(e) && e is InvalidClock,
            },
    {
        match obj.get_key("frec").as_f64_bits() {
            Some(b) => {
                let interval = to_interval(b);
                Ok(Clock::from_interval(b, interval))
            },
            None => Err(JsonDeserializationError::InvalidClock),
        }
    }

    /// {"name": "ConstOne"} or {"name": "ConstZero"}: a constant.
    pub fn parse_const(obj: &JsonValue) -> (r: Result<Const, JsonDeserializationError>)
        ensures
            match obj.key("name"@).str_of() {
                Some(name) => if name == "ConstOne"@ {
                    r matches Ok(g) && g.ins@ == Seq::<bool>::empty() && g.outs@ == seq![true]
                } else if name == "ConstZero"@ {
                    r matches Ok(g) && g.ins@ == Seq::<bool>::empty() && g.outs@ == seq![false]
                } else {
                    r matches Err(e) && e is InvalidConst
                },
                None => r matches Err(e) && e is InvalidConst,
            },
    {
        match obj.get_key("name").as_str() {
            Some(name) => {
                if str_eq(name, "ConstOne") {
                    Ok(Const::one())
                } else if str_eq(name, "ConstZero") {
                    Ok(Const::zero())
                } else {
                    Err(JsonDeserializationError::InvalidConst)
                }
            },
            None => Err(JsonDeserializationError::InvalidConst),
        }
    }

    /// Reads the sub-component `obj`: a primitive when its name is one, a
    /// composed component otherwise.
    fn parse_sub<F: Fn(u64) -> u128 + Copy>(obj: &JsonValue, to_interval: F) -> (r: Result<
        AnyComponent,
        JsonDeserializationError,
    >)
        requires
            comp_safe(*obj),
            forall|b: u64| call_requires(to_interval, (b,)),
        ensures
            match comp_error(*obj) {
                Some(e) => r matches Err(x) && x == e,
                None => r matches Ok(c) && comp_built(c, *obj, to_interval),
            },
        decreases obj.depth(), 1nat,
    {
        let name = match obj.get_key("name").as_str() {
            Some(name) => name,
            None => {
                return Err(JsonDeserializationError::InvalidComposedComponent);
            },
        };
        match Primitive::from_name(name) {
            Ok(prim) => {
                proof {
                    assert(prim.text() == name@);
                    assert(exists|p: Primitive| p.text() == name@);
                    let q = choose|q: Primitive| q.text() == name@;
                    lemma_primitive_names_distinct(prim, q);
                    assert(primitive_named(name@) == Some(prim));
                    assert(obj.key("name"@).str_of() == Some(name@));
                    reveal_strlit("ConstOne");
                    reveal_strlit("ConstZero");
                }
                match prim {
                    Primitive::NotGate => Ok(AnyComponent::NotGate(NotGate::new())),
                    Primitive::AndGate => match JsonDeserializer::parse_and_gate(obj) {
                        Ok(g) => Ok(AnyComponent::AndGate(g)),
                        Err(e) => Err(e),
                    },
                    Primitive::OrGate => match JsonDeserializer::parse_or_gate(obj) {
                        Ok(g) => Ok(AnyComponent::OrGate(g)),
                        Err(e) => Err(e),
                    },
                    Primitive::NandGate => match JsonDeserializer::parse_nand_gate(obj) {
                        Ok(g) => Ok(AnyComponent::NandGate(g)),
                        Err(e) => Err(e),
                    },
                    Primitive::NorGate => match JsonDeserializer::parse_nor_gate(obj) {
                        Ok(g) => Ok(AnyComponent::NorGate(g)),
                        Err(e) => Err(e),
                    },
                    Primitive::XorGate => match JsonDeserializer::parse_xor_gate(obj) {
                        Ok(g) => Ok(AnyComponent::XorGate(g)),
                        Err(e) => Err(e),
                    },
                    Primitive::Clock => match JsonDeserializer::parse_clock(obj, to_interval) {
                        Ok(g) => Ok(AnyComponent::Clock(g)),
                        Err(e) => Err(e),
                    },
                    Primitive::ConstOne | Primitive::ConstZero => match JsonDeserializer::parse_const(obj) {
                        Ok(g) => Ok(AnyComponent::Const(g)),
                        Err(e) => Err(e),
                    },
                }
            },
            Err(_) => {
                proof {
                    assert(primitive_named(name@) is None);
                }
                match JsonDeserializer::parse_composed(obj, to_interval) {
                    Ok(c) => Ok(AnyComponent::Composed(c)),
                    Err(e) => Err(e),
                }
            },
        }
    }
}

proof fn lemma_conns_prefix(s: Seq<JsonValue>, j: int)
    requires
        0 <= j <= s.len(),
    ensures
        conns_safe(s) ==> conns_safe(s.take(j)),
        conns_parse(s.take(j)) is None ==> conns_parse(s) is None,
    decreases s.len() - j,
{
    if j < s.len() {
        lemma_conns_prefix(s, j + 1);
        assert(s.take(j + 1).drop_last() =~= s.take(j));
    } else {
        assert(s.take(j) =~= s);
    }
}

proof fn lemma_pins_prefix(s: Seq<JsonValue>, j: int)
    requires
        0 <= j <= s.len(),
    ensures
        pins_parse(s.take(j)) is None ==> pins_parse(s) is None,
    decreases s.len() - j,
{
    if j < s.len() {
        lemma_pins_prefix(s, j + 1);
        assert(s.take(j + 1).drop_last() =~= s.take(j));
    } else {
        assert(s.take(j) =~= s);
    }
}

proof fn lemma_items_prefix(s: Seq<JsonValue>, j: int)
    requires
        0 <= j <= s.len(),
    ensures
        items_safe(s) ==> items_safe(s.take(j)),
        items_error(s.take(j)) is Some ==> items_error(s) == items_error(s.take(j)),
    decreases s.len() - j,
{
    if j < s.len() {
        lemma_items_prefix(s, j + 1);
        assert(s.take(j + 1).drop_last() =~= s.take(j));
    } else {
        assert(s.take(j) =~= s);
    }
}

fn parse_end(items: &Vec<JsonValue>) -> (r: Option<PinAddr>)
    requires
        items.len() >= 2,
    ensures
        r == end_pin(items@),
{
    match (items[0].as_u64(), items[1].as_u64()) {
        (Some(a), Some(b)) => Some((a as usize, b as usize)),
        _ => None,
    }
}

fn parse_conn(c: &JsonValue) -> (r: Option<Conn>)
    requires
        conn_safe(*c),
    ensures
        r == conn_parse(*c),
{
    let from = match c.get_key("from").as_array() {
        Some(f) => f,
        None => {
            return None;
        },
    };
    let from_pin = match parse_end(from) {
        Some(p) => p,
        None => {
            return None;
        },
    };
    let to = match c.get_key("to").as_array() {
        Some(t) => t,
        None => {
            return None;
        },
    };
    let to_pin = match parse_end(to) {
        Some(p) => p,
        None => {
            return None;
        },
    };
    Some(Conn::new(from_pin, to_pin))
}

fn parse_pin(v: &JsonValue) -> (r: Option<PinAddr>)
    ensures
        r == pin_at(*v),
{
    match (v.get_at(0).as_u64(), v.get_at(1).as_u64()) {
        (Some(a), Some(b)) => Some((a as usize, b as usize)),
        _ => None,
    }
}

fn parse_pins(ps: &Vec<JsonValue>) -> (r: Option<Vec<PinAddr>>)
    ensures
        match pins_parse(ps@) {
            Some(p) => r matches Some(v) && v@ == p,
            None => r is None,
        },
{
    let mut pins: Vec<PinAddr> = Vec::new();
    let mut k: usize = 0;
    assert(ps@.take(0) =~= Seq::<JsonValue>::empty());
    while k < ps.len()
        invariant
            k <= ps.len(),
            pins_parse(ps@.take(k as int)) == Some(pins@),
        decreases ps.len() - k,
    {
        assert(ps@.take(k as int + 1).drop_last() =~= ps@.take(k as int));
        match parse_pin(&ps[k]) {
            Some(p) => pins.push(p),
            None => {
                proof {
                    lemma_pins_prefix(ps@, k as int + 1);
                }
                return None;
            },
        }
        k = k + 1;
    }
    assert(ps@.take(ps.len() as int) =~= ps@);
    Some(pins)
}

impl JsonDeserializer {
    /// Reads a composed component: its name, then its sub-components, then
    /// its connections, input pins and output pins, in that order; the
    /// first that cannot be read gives the error.
    pub fn parse_composed<F: Fn(u64) -> u128 + Copy>(obj: &JsonValue, to_interval: F) -> (r: Result<
        ComposedComponent,
        JsonDeserializationError,
    >)
        requires
            composed_safe(*obj),
            forall|b: u64| call_requires(to_interval, (b,)),
        ensures
            match composed_error(*obj) {
                Some(e) => r matches Err(x) && x == e,
                None => r matches Ok(c) && composed_built(c, *obj, to_interval),
            },
        decreases obj.depth(), 0nat,
    {
        let name = match obj.get_key("name").as_str() {
            Some(name) => name,
            None => {
                return Err(JsonDeserializationError::InvalidComposedComponent);
            },
        };
        let mut builder = ComposedComponentBuilder::new(name);
        let items = match obj.get_key("components").as_array() {
            Some(a) => a,
            None => {
                return Err(JsonDeserializationError::InvalidComposedComponent);
            },
        };
        proof {
            lemma_inner_depth(*obj, "components"@, 0);
        }
        let mut components: Vec<AnyComponent> = Vec::new();
        let mut k: usize = 0;
        assert(items@.take(0) =~= Seq::<JsonValue>::empty());
        while k < items.len()
            invariant
                k <= items.len(),
                items_depth(items@) < obj.depth(),
                items_safe(items@),
                obj.key("components"@).items() == Some(items@),
                obj.key("name"@).str_of() == Some(name@),
                forall|b: u64| call_requires(to_interval, (b,)),
                items_error(items@.take(k as int)) is None,
                components@.len() == k,
                forall|j: int| 0 <= j < k ==> comp_built(#[trigger] components@[j], items@[j], to_interval),
            decreases items.len() - k,
        {
            proof {
                assert(items@.take(k as int + 1).drop_last() =~= items@.take(k as int));
                assert(items@.take(k as int + 1).last() == items@[k as int]);
                lemma_items_prefix(items@, k as int + 1);
                lemma_items_depth_bound(items@, k as int);
            }
            match JsonDeserializer::parse_sub(&items[k], to_interval) {
                Ok(c) => components.push(c),
                Err(e) => {
                    return Err(e);
                },
            }
            k = k + 1;
        }
        proof {
            assert(items@.take(items.len() as int) =~= items@);
        }
        builder = builder.components(components);
        let cs = match obj.get_key("connections").as_array() {
            Some(a) => a,
            None => {
                return Err(JsonDeserializationError::InvalidComposedComponent);
            },
        };
        let mut connections: Vec<Conn> = Vec::new();
        let mut k: usize = 0;
        assert(cs@.take(0) =~= Seq::<JsonValue>::empty());
        while k < cs.len()
            invariant
                k <= cs.len(),
                conns_safe(cs@),
                conns_parse(cs@.take(k as int)) == Some(connections@),
                obj.key("name"@).str_of() == Some(name@),
                obj.key("components"@).items() == Some(items@),
                obj.key("connections"@).items() == Some(cs@),
                items_error(items@) is None,
            decreases cs.len() - k,
        {
            proof {
                assert(cs@.take(k as int + 1).drop_last() =~= cs@.take(k as int));
                lemma_conns_prefix(cs@, k as int + 1);
            }
            match parse_conn(&cs[k]) {
                Some(c) => connections.push(c),
                None => {
                    return Err(JsonDeserializationError::InvalidComposedComponent);
                },
            }
            k = k + 1;
        }
        proof {
            assert(cs@.take(cs.len() as int) =~= cs@);
        }
        let ghost conns = connections@;
        builder = builder.connections(connections);
        let in_addrs = match obj.get_key("in_addrs").as_array() {
            Some(a) => match parse_pins(a) {
                Some(p) => p,
                None => {
                    return Err(JsonDeserializationError::InvalidComposedComponent);
                },
            },
            None => {
                return Err(JsonDeserializationError::InvalidComposedComponent);
            },
        };
        builder = builder.inputs(in_addrs);
        let out_addrs = match obj.get_key("out_addrs").as_array() {
            Some(a) => match parse_pins(a) {
                Some(p) => p,
                None => {
                    return Err(JsonDeserializationError::InvalidComposedComponent);
                },
            },
            None => {
                return Err(JsonDeserializationError::InvalidComposedComponent);
            },
        };
        let ghost ins = in_addrs@;
        let ghost outs = out_addrs@;
        builder = builder.outputs(out_addrs);
        proof {
            assert(rest_parse(*obj) == Some((conns, ins, outs)));
            assert(obj.key("connections"@).items() is Some);
            assert(obj.key("name"@).str_of() is Some);
            assert(obj.key("components"@).items() == Some(items@));
            assert(items_error(items@) is None);
            assert(composed_safe(*obj));
            assert(conns_safe(cs@));
            assert(match rest_parse(*obj) {
                Some((cn, _, _)) => forall|i: int| 0 <= i < cn.len() ==> #[trigger] cn[i].to.0 < items@.len(),
                None => true,
            });
            assert(forall|i: int| 0 <= i < conns.len() ==> #[trigger] conns[i].to.0 < items@.len());
            assert forall|i: int| 0 <= i < builder.spec_connections().len() implies #[trigger] builder.spec_connections()[i].to.0
                < builder.spec_components().len() by {
                assert(builder.spec_connections()[i] == conns[i]);
            }
        }
        match builder.build() {
            Ok(comp) => Ok(comp),
            Err(_) => Err(JsonDeserializationError::InvalidComposedComponent),
        }
    }
}

impl JsonValue {
    /// The keys of an object, in order.
    pub open spec fn keys(self) -> Seq<Seq<char>> {
        match self {
            JsonValue::Object(o) => o@.map_values(|m: (String, JsonValue)| m.0@),
            _ => Seq::empty(),
        }
    }
}

/// The JSON number for the unsigned integer `n`.
pub open spec fn uint(n: u64) -> JsonNumber {
    JsonNumber { as_u64: Some(n), f64_bits: None }
}

/// `v` is the JSON object `{"name": name, "in_count": n}`.
pub open spec fn gate_json(v: JsonValue, name: Seq<char>, n: nat) -> bool {
    &&& v.keys() == seq!["name"@, "in_count"@]
    &&& v.key("name"@).str_of() == Some(name)
    &&& v.key("in_count"@) == JsonValue::Number(uint(n as u64))
}

/// `v` is the JSON array `[p.0, p.1]`.
pub open spec fn pin_json(p: PinAddr, v: JsonValue) -> bool {
    &&& v.items() matches Some(s) && s.len() == 2
    &&& v.at(0) == JsonValue::Number(uint(p.0 as u64))
    &&& v.at(1) == JsonValue::Number(uint(p.1 as u64))
}

/// `v` is the JSON object `{"from": [..], "to": [..]}` of connection `c`.
pub open spec fn conn_json(c: Conn, v: JsonValue) -> bool {
    &&& v.keys() == seq!["from"@, "to"@]
    &&& pin_json(c.from, v.key("from"@))
    &&& pin_json(c.to, v.key("to"@))
}

/// Every constant inside `a` (`a` itself included) has the output its
/// description names.
pub open spec fn describable(a: AnyComponent) -> bool
    decreases a.depth(),
{
    match a {
        AnyComponent::Const(g) => g.outs@.len() > 0,
        AnyComponent::Composed(c) => {
            proof {
                assert forall|k: int| 0 <= k < c.components@.len() implies (#[trigger] c.components@[k]).depth()
                    < a.depth() by {
                    lemma_seq_depth_bound(c.components@, k);
                }
            }
            forall|k: int| 0 <= k < c.components@.len() ==> describable(#[trigger] c.components@[k])
        },
        _ => true,
    }
}

/// `v` is the JSON description of the component `c`.
pub open spec fn json_of(c: AnyComponent, v: JsonValue) -> bool
    decreases c.depth(), 1nat,
{
    match c {
        AnyComponent::NotGate(g) => gate_json(v, "NotGate"@, g.ins@.len()),
        AnyComponent::AndGate(g) => gate_json(v, "AndGate"@, g.ins@.len()),
        AnyComponent::OrGate(g) => gate_json(v, "OrGate"@, g.ins@.len()),
        AnyComponent::NandGate(g) => gate_json(v, "NandGate"@, g.ins@.len()),
        AnyComponent::NorGate(g) => gate_json(v, "NorGate"@, g.ins@.len()),
        AnyComponent::XorGate(g) => gate_json(v, "XorGate"@, g.ins@.len()),
        AnyComponent::Clock(g) => {
            &&& v.keys() == seq!["name"@, "frec"@]
            &&& v.key("name"@).str_of() == Some("Clock"@)
            &&& v.key("frec"@) == JsonValue::Number(JsonNumber { as_u64: None, f64_bits: Some(g.frec_bits) })
        },
        AnyComponent::Const(g) => {
            &&& v.keys() == seq!["name"@]
            &&& v.key("name"@).str_of() == Some(if g.outs@[0] { "ConstOne"@ } else { "ConstZero"@ })
        },
        AnyComponent::Composed(cc) => composed_json(cc, v),
    }
}

/// `v` is the JSON description of the composed component `c`: its name, its
/// connections, its input and output pins, and its sub-components.
pub open spec fn composed_json(c: ComposedComponent, v: JsonValue) -> bool
    decreases 1 + seq_depth(c.components@), 0nat,
{
    proof {
        assert forall|k: int| 0 <= k < c.components@.len() implies (#[trigger] c.components@[k]).depth() < 1
            + seq_depth(c.components@) by {
            lemma_seq_depth_bound(c.components@, k);
        }
    }
    &&& v.keys() == seq!["name"@, "connections"@, "in_addrs"@, "out_addrs"@, "components"@]
    &&& v.key("name"@).str_of() == Some(c.name@)
    &&& v.key("connections"@).items() matches Some(cs) && cs.len() == c.connections@.len() && forall|i: int|
        0 <= i < cs.len() ==> conn_json(c.connections@[i], #[trigger] cs[i])
    &&& v.key("in_addrs"@).items() matches Some(ps) && ps.len() == c.in_addrs@.len() && forall|i: int|
        0 <= i < ps.len() ==> pin_json(c.in_addrs@[i], #[trigger] ps[i])
    &&& v.key("out_addrs"@).items() matches Some(ps) && ps.len() == c.out_addrs@.len() && forall|i: int|
        0 <= i < ps.len() ==> pin_json(c.out_addrs@[i], #[trigger] ps[i])
    &&& v.key("components"@).items() matches Some(items) && items.len() == c.components@.len() && forall|k: int|
        0 <= k < items.len() ==> json_of(c.components@[k], #[trigger] items[k])
}

proof fn lemma_lookup_at(s: Seq<(String, JsonValue)>, key: Seq<char>, i: int)
    requires
        0 <= i < s.len(),
        s[i].0@ == key,
        forall|j: int| 0 <= j < i ==> (#[trigger] s[j]).0@ != key,
    ensures
        lookup(s, key) == s[i].1,
    decreases i,
{
    if i > 0 {
        assert forall|j: int| 0 <= j < i - 1 implies (#[trigger] s.drop_first()[j]).0@ != key by {
            assert(s.drop_first()[j] == s[j + 1]);
        }
        lemma_lookup_at(s.drop_first(), key, i - 1);
    }
}

/// Distinct keys of the objects written here.
proof fn lemma_keys_distinct()
    ensures
        "name"@ != "in_count"@,
        "name"@ != "frec"@,
        "from"@ != "to"@,
        "name"@ != "connections"@,
        "name"@ != "in_addrs"@,
        "name"@ != "out_addrs"@,
        "name"@ != "components"@,
        "connections"@ != "in_addrs"@,
        "connections"@ != "out_addrs"@,
        "connections"@ != "components"@,
        "in_addrs"@ != "out_addrs"@,
        "in_addrs"@ != "components"@,
        "out_addrs"@ != "components"@,
{
    reveal_strlit("name");
    reveal_strlit("in_count");
    reveal_strlit("frec");
    reveal_strlit("from");
    reveal_strlit("to");
    reveal_strlit("connections");
    reveal_strlit("in_addrs");
    reveal_strlit("out_addrs");
    reveal_strlit("components");
    assert("name"@.len() != "in_count"@.len());
    assert("name"@[0] != "frec"@[0]);
    assert("from"@.len() != "to"@.len());
    assert("name"@.len() != "connections"@.len());
    assert("name"@.len() != "in_addrs"@.len());
    assert("name"@.len() != "out_addrs"@.len());
    assert("name"@.len() != "components"@.len());
    assert("connections"@.len() != "in_addrs"@.len());
    assert("connections"@.len() != "out_addrs"@.len());
    assert("connections"@[2] != "components"@[2]);
    assert("in_addrs"@[0] != "out_addrs"@[0]);
    assert("in_addrs"@.len() != "components"@.len());
    assert("out_addrs"@.len() != "components"@.len());
}

/// Whether reading `c` as a connection stays within its arrays.
fn conn_safe_check(c: &JsonValue) -> (b: bool)
    ensures
        b == conn_safe(*c),
{
    match c.get_key("from").as_array() {
        None => true,
        Some(f) => {
            if f.len() < 2 {
                false
            } else {
                match parse_end(f) {
                    None => true,
                    Some(_) => match c.get_key("to").as_array() {
                        Some(t) => t.len() >= 2,
                        None => true,
                    },
                }
            }
        },
    }
}

impl JsonDeserializer {
    /// Whether the sub-component `obj` reads without error, and whether
    /// reading it stays in range: `comp_error` is none, and `comp_safe`.
    fn scan_sub(obj: &JsonValue) -> (r: (bool, bool))
        ensures
            r.0 == (comp_error(*obj) is None),
            r.1 == comp_safe(*obj),
        decreases obj.depth(), 1nat,
    {
        let name = match obj.get_key("name").as_str() {
            Some(name) => name,
            None => {
                return (false, true);
            },
        };
        match Primitive::from_name(name) {
            Ok(prim) => {
                proof {
                    assert(exists|p: Primitive| p.text() == name@);
                    let q = choose|q: Primitive| q.text() == name@;
                    lemma_primitive_names_distinct(prim, q);
                    assert(primitive_named(name@) == Some(prim));
                }
                let ok = match prim {
                    Primitive::AndGate | Primitive::OrGate | Primitive::NandGate | Primitive::NorGate
                    | Primitive::XorGate => obj.get_key("in_count").as_u64().is_some(),
                    Primitive::Clock => obj.get_key("frec").as_f64_bits().is_some(),
                    _ => true,
                };
                (ok, true)
            },
            Err(_) => {
                proof {
                    assert(primitive_named(name@) is None);
                }
                JsonDeserializer::scan_composed(obj)
            },
        }
    }

    /// Whether `obj` reads as a composed component without error, and
    /// whether reading it stays in range: `composed_error` is none, and
    /// `composed_safe`.
    fn scan_composed(obj: &JsonValue) -> (r: (bool, bool))
        ensures
            r.0 == (composed_error(*obj) is None),
            r.1 == composed_safe(*obj),
        decreases obj.depth(), 0nat,
    {
        if obj.get_key("name").as_str().is_none() {
            return (false, true);
        }
        let items = match obj.get_key("components").as_array() {
            Some(a) => a,
            None => {
                return (false, true);
            },
        };
        proof {
            lemma_inner_depth(*obj, "components"@, 0);
        }
        let mut ok = true;
        let mut safe = true;
        let mut k: usize = 0;
        assert(items@.take(0) =~= Seq::<JsonValue>::empty());
        while k < items.len()
            invariant
                k <= items.len(),
                items_depth(items@) < obj.depth(),
                ok == (items_error(items@.take(k as int)) is None),
                safe == items_safe(items@.take(k as int)),
            decreases items.len() - k,
        {
            proof {
                assert(items@.take(k as int + 1).drop_last() =~= items@.take(k as int));
                assert(items@.take(k as int + 1).last() == items@[k as int]);
                lemma_items_depth_bound(items@, k as int);
            }
            if ok {
                let (o, sf) = JsonDeserializer::scan_sub(&items[k]);
                ok = o;
                safe = safe && sf;
            }
            k = k + 1;
        }
        proof {
            assert(items@.take(items.len() as int) =~= items@);
        }
        if !ok {
            return (false, safe);
        }
        let cs = match obj.get_key("connections").as_array() {
            Some(a) => a,
            None => {
                return (false, safe);
            },
        };
        let mut cs_safe = true;
        let mut parsed = true;
        let mut inside = true;
        let ghost mut conns: Seq<Conn> = Seq::empty();
        let mut k: usize = 0;
        assert(cs@.take(0) =~= Seq::<JsonValue>::empty());
        while k < cs.len()
            invariant
                k <= cs.len(),
                cs_safe == conns_safe(cs@.take(k as int)),
                parsed == (conns_parse(cs@.take(k as int)) is Some),
                parsed ==> conns_parse(cs@.take(k as int)) == Some(conns),
                parsed ==> (inside == forall|i: int| 0 <= i < conns.len() ==> #[trigger] conns[i].to.0 < items@.len()),
            decreases cs.len() - k,
        {
            proof {
                assert(cs@.take(k as int + 1).drop_last() =~= cs@.take(k as int));
                assert(cs@.take(k as int + 1).last() == cs@[k as int]);
            }
            if parsed {
                let one_safe = conn_safe_check(&cs[k]);
                cs_safe = cs_safe && one_safe;
                if one_safe {
                    match parse_conn(&cs[k]) {
                        Some(c) => {
                            let ghost before = conns;
                            if c.to.0 >= items.len() {
                                inside = false;
                            }
                            proof {
                                conns = conns.push(c);
                                assert forall|i: int| 0 <= i < before.len() implies #[trigger] conns[i] == before[i] by {}
                                assert(conns[before.len() as int] == c);
                                if c.to.0 >= items.len() {
                                    assert(!(conns[before.len() as int].to.0 < items@.len()));
                                } else if inside {
                                    assert forall|i: int| 0 <= i < conns.len() implies #[trigger] conns[i].to.0 < items@.len() by {
                                        if i < before.len() {
                                            assert(conns[i] == before[i]);
                                        }
                                    }
                                } else {
                                    let w = choose|i: int| 0 <= i < before.len() && !(#[trigger] before[i].to.0 < items@.len());
                                    assert(conns[w] == before[w]);
                                }
                            }
                        },
                        None => {
                            parsed = false;
                        },
                    }
                } else {
                    parsed = false;
                }
            } else {
                proof {
                    lemma_conns_parse_none_grows(cs@, k as int);
                }
            }
            k = k + 1;
        }
        proof {
            assert(cs@.take(cs.len() as int) =~= cs@);
        }
        if !parsed {
            return (false, safe && cs_safe);
        }
        let ins_ok = match obj.get_key("in_addrs").as_array() {
            Some(a) => parse_pins(a).is_some(),
            None => false,
        };
        let outs_ok = match obj.get_key("out_addrs").as_array() {
            Some(a) => parse_pins(a).is_some(),
            None => false,
        };
        if !(ins_ok && outs_ok) {
            proof {
                assert(rest_parse(*obj) is None);
            }
            return (false, safe && cs_safe);
        }
        proof {
            assert(rest_parse(*obj) is Some);
            let rp = rest_parse(*obj)->0;
            assert(rp.0 == conns);
        }
        (true, safe && cs_safe && inside)
    }

    /// Whether reading `obj` with `parse_composed` stays within the arrays it
    /// reads and every connection it reads ends at one of the sub-components
    /// read with it, at every depth: exactly `composed_safe`.
    pub fn is_safe(obj: &JsonValue) -> (b: bool)
        ensures
            b == composed_safe(*obj),
    {
        JsonDeserializer::scan_composed(obj).1
    }
}

proof fn lemma_conns_parse_none_grows(s: Seq<JsonValue>, k: int)
    requires
        0 <= k < s.len(),
        conns_parse(s.take(k)) is None,
    ensures
        conns_parse(s.take(k + 1)) is None,
        conns_safe(s.take(k + 1)) == conns_safe(s.take(k)),
{
    assert(s.take(k + 1).drop_last() =~= s.take(k));
}

fn uint_value(n: usize) -> (v: JsonValue)
    ensures
        v == JsonValue::Number(uint(n as u64)),
{
    JsonValue::Number(JsonNumber { as_u64: Some(n as u64), f64_bits: None })
}

fn pin_value(p: PinAddr) -> (v: JsonValue)
    ensures
        pin_json(p, v),
{
    let mut a: Vec<JsonValue> = Vec::new();
    a.push(uint_value(p.0));
    a.push(uint_value(p.1));
    JsonValue::Array(a)
}

fn pins_value(ps: &Vec<PinAddr>) -> (v: JsonValue)
    ensures
        v.items() matches Some(s) && s.len() == ps@.len() && forall|i: int|
            0 <= i < s.len() ==> pin_json(ps@[i], #[trigger] s[i]),
{
    let mut a: Vec<JsonValue> = Vec::new();
    let mut k: usize = 0;
    while k < ps.len()
        invariant
            k <= ps.len(),
            a@.len() == k,
            forall|i: int| 0 <= i < k ==> pin_json(ps@[i], #[trigger] a@[i]),
        decreases ps.len() - k,
    {
        a.push(pin_value(ps[k]));
        k = k + 1;
    }
    JsonValue::Array(a)
}

fn gate_value(name: &str, n: usize) -> (v: JsonValue)
    ensures
        gate_json(v, name@, n as nat),
{
    let mut o: Vec<(String, JsonValue)> = Vec::new();
    o.push((String::from_str("name"), JsonValue::String(String::from_str(name))));
    o.push((String::from_str("in_count"), uint_value(n)));
    let v = JsonValue::Object(o);
    proof {
        reveal_strlit("name");
        reveal_strlit("in_count");
        assert(v.keys() =~= seq!["name"@, "in_count"@]);
        lemma_keys_distinct();
        lemma_lookup_at(o@, "name"@, 0);
        lemma_lookup_at(o@, "in_count"@, 1);
    }
    v
}

/// Turns components into JSON values.
pub struct JsonSerializer;

impl JsonSerializer {
    /// {"name": "NotGate", "in_count": number of inputs}.
    pub fn visit_not_gate(comp: &NotGate) -> (v: JsonValue)
        ensures
            gate_json(v, "NotGate"@, comp.ins@.len()),
    {
        gate_value("NotGate", comp.ins.len())
    }

    /// {"name": "AndGate", "in_count": number of inputs}.
    pub fn visit_and_gate(comp: &AndGate) -> (v: JsonValue)
        ensures
            gate_json(v, "AndGate"@, comp.ins@.len()),
    {
        gate_value("AndGate", comp.ins.len())
    }

    /// {"name": "OrGate", "in_count": number of inputs}.
    pub fn visit_or_gate(comp: &OrGate) -> (v: JsonValue)
        ensures
            gate_json(v, "OrGate"@, comp.ins@.len()),
    {
        gate_value("OrGate", comp.ins.len())
    }

    /// {"name": "NandGate", "in_count": number of inputs}.
    pub fn visit_nand_gate(comp: &NandGate) -> (v: JsonValue)
        ensures
            gate_json(v, "NandGate"@, comp.ins@.len()),
    {
        gate_value("NandGate", comp.ins.len())
    }

    /// {"name": "NorGate", "in_count": number of inputs}.
    pub fn visit_nor_gate(comp: &NorGate) -> (v: JsonValue)
        ensures
            gate_json(v, "NorGate"@, comp.ins@.len()),
    {
        gate_value("NorGate", comp.ins.len())
    }

    /// {"name": "XorGate", "in_count": number of inputs}.
    pub fn visit_xor_gate(comp: &XorGate) -> (v: JsonValue)
        ensures
            gate_json(v, "XorGate"@, comp.ins@.len()),
    {
        gate_value("XorGate", comp.ins.len())
    }

    /// {"name": "Clock", "frec": the clock's frequency}.
    pub fn visit_clock(comp: &Clock) -> (v: JsonValue)
        ensures
            json_of(AnyComponent::Clock(*comp), v),
    {
        let mut o: Vec<(String, JsonValue)> = Vec::new();
        o.push((String::from_str("name"), JsonValue::String(String::from_str("Clock"))));
        o.push(
            (
                String::from_str("frec"),
                JsonValue::Number(JsonNumber { as_u64: None, f64_bits: Some(comp.frec_bits) }),
            ),
        );
        let v = JsonValue::Object(o);
        proof {
            reveal_strlit("name");
            reveal_strlit("frec");
            assert(v.keys() =~= seq!["name"@, "frec"@]);
            lemma_keys_distinct();
            lemma_lookup_at(o@, "name"@, 0);
            lemma_lookup_at(o@, "frec"@, 1);
        }
        v
    }

    /// {"name": "ConstOne"} or {"name": "ConstZero"}, after the value of the
    /// constant.
    pub fn visit_const(comp: &Const) -> (v: JsonValue)
        requires
            comp.outs@.len() > 0,
        ensures
            json_of(AnyComponent::Const(*comp), v),
    {
        let name = if comp.outs[0] {
            String::from_str("ConstOne")
        } else {
            String::from_str("ConstZero")
        };
        let mut o: Vec<(String, JsonValue)> = Vec::new();
        o.push((String::from_str("name"), JsonValue::String(name)));
        let v = JsonValue::Object(o);
        proof {
            assert(v.keys() =~= seq!["name"@]);
        }
        v
    }

    /// The JSON description of any component.
    pub fn visit(comp: &AnyComponent) -> (v: JsonValue)
        requires
            describable(*comp),
        ensures
            json_of(*comp, v),
        decreases comp.depth(), 1nat,
    {
        match comp {
            AnyComponent::NotGate(g) => JsonSerializer::visit_not_gate(g),
            AnyComponent::AndGate(g) => JsonSerializer::visit_and_gate(g),
            AnyComponent::OrGate(g) => JsonSerializer::visit_or_gate(g),
            AnyComponent::NandGate(g) => JsonSerializer::visit_nand_gate(g),
            AnyComponent::NorGate(g) => JsonSerializer::visit_nor_gate(g),
            AnyComponent::XorGate(g) => JsonSerializer::visit_xor_gate(g),
            AnyComponent::Clock(g) => JsonSerializer::visit_clock(g),
            AnyComponent::Const(g) => JsonSerializer::visit_const(g),
            AnyComponent::Composed(c) => JsonSerializer::visit_composed(c),
        }
    }

    /// {"name": .., "connections": [..], "in_addrs": [..], "out_addrs": [..],
    /// "components": [..]}.
    pub fn visit_composed(comp: &ComposedComponent) -> (v: JsonValue)
        requires
            forall|k: int| 0 <= k < comp.components@.len() ==> describable(#[trigger] comp.components@[k]),
        ensures
            composed_json(*comp, v),
        decreases 1 + seq_depth(comp.components@), 0nat,
    {
        let mut comps: Vec<JsonValue> = Vec::new();
        let mut k: usize = 0;
        while k < comp.components.len()
            invariant
                k <= comp.components.len(),
                forall|j: int| 0 <= j < comp.components@.len() ==> describable(#[trigger] comp.components@[j]),
                comps@.len() == k,
                forall|j: int| 0 <= j < k ==> json_of(comp.components@[j], #[trigger] comps@[j]),
            decreases comp.components.len() - k,
        {
            proof {
                lemma_seq_depth_bound(comp.components@, k as int);
            }
            comps.push(JsonSerializer::visit(&comp.components[k]));
            k = k + 1;
        }
        let mut conns: Vec<JsonValue> = Vec::new();
        let mut k: usize = 0;
        while k < comp.connections.len()
            invariant
                k <= comp.connections.len(),
                conns@.len() == k,
                forall|j: int| 0 <= j < k ==> conn_json(comp.connections@[j], #[trigger] conns@[j]),
            decreases comp.connections.len() - k,
        {
            let c = comp.connections[k];
            let mut o: Vec<(String, JsonValue)> = Vec::new();
            o.push((String::from_str("from"), pin_value(c.from)));
            o.push((String::from_str("to"), pin_value(c.to)));
            let cv = JsonValue::Object(o);
            proof {
                reveal_strlit("from");
                reveal_strlit("to");
                assert(cv.keys() =~= seq!["from"@, "to"@]);
                lemma_keys_distinct();
                lemma_lookup_at(o@, "from"@, 0);
                lemma_lookup_at(o@, "to"@, 1);
            }
            conns.push(cv);
            k = k + 1;
        }
        let mut o: Vec<(String, JsonValue)> = Vec::new();
        o.push((String::from_str("name"), JsonValue::String(comp.name.clone())));
        o.push((String::from_str("connections"), JsonValue::Array(conns)));
        o.push((String::from_str("in_addrs"), pins_value(&comp.in_addrs)));
        o.push((String::from_str("out_addrs"), pins_value(&comp.out_addrs)));
        o.push((String::from_str("components"), JsonValue::Array(comps)));
        let v = JsonValue::Object(o);
        proof {
            reveal_strlit("name");
            reveal_strlit("connections");
            reveal_strlit("in_addrs");
            reveal_strlit("out_addrs");
            reveal_strlit("components");
            assert(v.keys() =~= seq!["name"@, "connections"@, "in_addrs"@, "out_addrs"@, "components"@]);
            lemma_keys_distinct();
            lemma_lookup_at(o@, "name"@, 0);
            lemma_lookup_at(o@, "connections"@, 1);
            lemma_lookup_at(o@, "in_addrs"@, 2);
            lemma_lookup_at(o@, "out_addrs"@, 3);
            lemma_lookup_at(o@, "components"@, 4);
        }
        v
    }
}

impl JsonSerializer {
    /// Whether `comp` can be described: see `describable`.
    pub fn can_describe(comp: &AnyComponent) -> (b: bool)
        ensures
            b == describable(*comp),
        decreases comp.depth(),
    {
        match comp {
            AnyComponent::Const(g) => g.outs.len() > 0,
            AnyComponent::Composed(c) => JsonSerializer::can_describe_parts(c),
            _ => true,
        }
    }

    /// Whether every sub-component of `comp` can be described.
    pub fn can_describe_parts(comp: &ComposedComponent) -> (b: bool)
        ensures
            b == forall|k: int| 0 <= k < comp.components@.len() ==> describable(#[trigger] comp.components@[k]),
        decreases 1 + seq_depth(comp.components@), 0nat,
    {
        let mut k: usize = 0;
        while k < comp.components.len()
            invariant
                k <= comp.components.len(),
                forall|j: int| 0 <= j < k ==> describable(#[trigger] comp.components@[j]),
            decreases comp.components.len() - k,
        {
            proof {
                lemma_seq_depth_bound(comp.components@, k as int);
            }
            if !JsonSerializer::can_describe(&comp.components[k]) {
                return false;
            }
            k = k + 1;
        }
        true
    }
}

/// The ends of the connection `c` can be read without indexing past them,
/// and, when it reads as a connection, it ends at one of `n` sub-components.
pub open spec fn conn_bounded(c: JsonValue, n: nat) -> bool {
    &&& (c.key("from"@).items() matches Some(f) ==> f.len() >= 2)
    &&& (c.key("to"@).items() matches Some(t) ==> t.len() >= 2)
    &&& (conn_parse(c) matches Some(cn) ==> cn.to.0 < n)
}

/// Every component description held by `v`, at any depth, has connections
/// whose ends can be read and that end at one of its sub-components.
pub open spec fn json_bounded(v: JsonValue) -> bool
    decreases v.depth(),
{
    match v.key("components"@).items() {
        None => true,
        Some(items) => {
            proof {
                lemma_inner_depth(v, "components"@, 0);
                assert forall|k: int| 0 <= k < items.len() implies #[trigger] items[k].depth() < v.depth() by {
                    lemma_items_depth_bound(items, k);
                }
            }
            &&& forall|k: int| 0 <= k < items.len() ==> json_bounded(#[trigger] items[k])
            &&& match v.key("connections"@).items() {
                None => true,
                Some(cs) => forall|i: int| 0 <= i < cs.len() ==> conn_bounded(#[trigger] cs[i], items.len()),
            }
        },
    }
}

proof fn lemma_items_safe_all(items: Seq<JsonValue>)
    requires
        forall|k: int| 0 <= k < items.len() ==> comp_safe(#[trigger] items[k]),
    ensures
        items_safe(items),
    decreases items.len(),
{
    if items.len() > 0 {
        let p = items.drop_last();
        assert forall|k: int| 0 <= k < p.len() implies comp_safe(#[trigger] p[k]) by {
            assert(p[k] == items[k]);
        }
        lemma_items_safe_all(p);
        assert(comp_safe(items[items.len() - 1]));
    }
}

proof fn lemma_conns_safe_all(cs: Seq<JsonValue>)
    requires
        forall|i: int| 0 <= i < cs.len() ==> conn_safe(#[trigger] cs[i]),
    ensures
        conns_safe(cs),
    decreases cs.len(),
{
    if cs.len() > 0 {
        let p = cs.drop_last();
        assert forall|i: int| 0 <= i < p.len() implies conn_safe(#[trigger] p[i]) by {
            assert(p[i] == cs[i]);
        }
        lemma_conns_safe_all(p);
        assert(conn_safe(cs[cs.len() - 1]));
    }
}

proof fn lemma_conns_parse_at(cs: Seq<JsonValue>, i: int)
    requires
        conns_parse(cs) is Some,
        0 <= i < cs.len(),
    ensures
        conns_parse(cs).unwrap().len() == cs.len(),
        conn_parse(cs[i]) == Some(conns_parse(cs).unwrap()[i]),
    decreases cs.len(),
{
    let p = cs.drop_last();
    if i < cs.len() - 1 {
        lemma_conns_parse_at(p, i);
        assert(p[i] == cs[i]);
    } else if p.len() > 0 {
        lemma_conns_parse_at(p, 0);
    }
}

/// A value whose every component description is bounded can be read as a
/// component without indexing out of range.
pub proof fn lemma_bounded_safe(v: JsonValue)
    requires
        json_bounded(v),
    ensures
        composed_safe(v),
        comp_safe(v),
    decreases v.depth(),
{
    if let Some(items) = v.key("components"@).items() {
        lemma_inner_depth(v, "components"@, 0);
        assert forall|k: int| 0 <= k < items.len() implies comp_safe(#[trigger] items[k]) by {
            lemma_items_depth_bound(items, k);
            lemma_bounded_safe(items[k]);
        }
        lemma_items_safe_all(items);
        if let Some(cs) = v.key("connections"@).items() {
            assert forall|i: int| 0 <= i < cs.len() implies conn_safe(#[trigger] cs[i]) by {
                assert(conn_bounded(cs[i], items.len()));
            }
            lemma_conns_safe_all(cs);
            if let Some(conns) = conns_parse(cs) {
                assert forall|i: int| 0 <= i < conns.len() implies #[trigger] conns[i].to.0 < items.len() by {
                    lemma_conns_parse_at(cs, 0);
                    lemma_conns_parse_at(cs, i);
                    assert(conn_bounded(cs[i], items.len()));
                }
            }
        }
    }
}

impl JsonDeserializer {
    /// Whether every component description held by `obj` has connections
    /// whose ends can be read and that end at one of its sub-components; when
    /// so, `parse_composed` can read it (`lemma_bounded_safe`).
    #[verifier::loop_isolation(false)]
    pub fn is_bounded(obj: &JsonValue) -> (b: bool)
        ensures
            b == json_bounded(*obj),
        decreases obj.depth(),
    {
        let items = match obj.get_key("components").as_array() {
            None => {
                return true;
            },
            Some(a) => a,
        };
        let n = items.len();
        proof {
            lemma_inner_depth(*obj, "components"@, 0);
        }
        let mut k: usize = 0;
        while k < n
            invariant
                k <= n,
                forall|j: int| 0 <= j < k ==> json_bounded(#[trigger] items@[j]),
            decreases n - k,
        {
            proof {
                lemma_items_depth_bound(items@, k as int);
            }
            if !JsonDeserializer::is_bounded(&items[k]) {
                proof {
                    let its = obj.key("components"@).items().unwrap();
                    assert(its == items@);
                    assert(!json_bounded(its[k as int]));
                }
                return false;
            }
            k = k + 1;
        }
        let cs = match obj.get_key("connections").as_array() {
            None => {
                return true;
            },
            Some(a) => a,
        };
        let mut i: usize = 0;
        while i < cs.len()
            invariant
                i <= cs@.len(),
                forall|j: int| 0 <= j < i ==> conn_bounded(#[trigger] cs@[j], n as nat),
            decreases cs@.len() - i,
        {
            let c = &cs[i];
            if let Some(f) = c.get_key("from").as_array() {
                if f.len() < 2 {
                    proof {
                        let ccs = obj.key("connections"@).items().unwrap();
                        let its = obj.key("components"@).items().unwrap();
                        assert(ccs == cs@ && its == items@);
                        assert(!conn_bounded(ccs[i as int], its.len()));
                    }
                    return false;
                }
            }
            if let Some(t) = c.get_key("to").as_array() {
                if t.len() < 2 {
                    proof {
                        let ccs = obj.key("connections"@).items().unwrap();
                        let its = obj.key("components"@).items().unwrap();
                        assert(ccs == cs@ && its == items@);
                        assert(!conn_bounded(ccs[i as int], its.len()));
                    }
                    return false;
                }
            }
            if let Some(cn) = parse_conn(c) {
                if cn.to.0 >= n {
                    proof {
                        let ccs = obj.key("connections"@).items().unwrap();
                        let its = obj.key("components"@).items().unwrap();
                        assert(ccs == cs@ && its == items@);
                        assert(!conn_bounded(ccs[i as int], its.len()));
                    }
                    return false;
                }
            }
            i = i + 1;
        }
        true
    }
}

} // verus!
