use vstd::hash_map::{HashMapWithView, StringHashMap};
use vstd::prelude::*;

use crate::circuit::{Circuit, SubCircuit};
use crate::component::{Conn, PortAddr};
use crate::lang::ast::{
    distinct_indices, lemma_sub_order, positions_by_name, positions_of, sorted_port_indices,
    sub_name, sub_order, Comp, CompDecl, ConnDecl, PinAddr, Primitive, SubDecl, SubKind,
};
use crate::lang::primitive_builders::{
    and_gate, clock, high_const, input, joiner, low_const, nand_gate, nor_gate, not_gate, or_gate,
    output, prim_circuit, splitter, xor_gate,
};
use crate::sim::primitives::data::Data;
use crate::sim::primitives::primitive::{ExtraInfo, Primitive as SimPrimitive};

verus! {

broadcast use vstd::string::group_string_axioms;

/// Line (from 1) and column (from 0) reached after reading `chars`.
pub open spec fn line_col(chars: Seq<char>) -> (int, int)
    decreases chars.len(),
{
    if chars.len() == 0 {
        (1, 0)
    } else {
        let (line, col) = line_col(chars.drop_last());
        if chars.last() == '\n' {
            (line + 1, 0)
        } else {
            (line, col + 1)
        }
    }
}

proof fn lemma_line_col_bounds(chars: Seq<char>)
    ensures
        1 <= line_col(chars).0 <= chars.len() + 1,
        0 <= line_col(chars).1 <= chars.len(),
    decreases chars.len(),
{
    if chars.len() > 0 {
        lemma_line_col_bounds(chars.drop_last());
    }
}

/// Line and column of the character at index `loc` of `text`; past the end,
/// the line and column after the last character.
pub fn get_loc(loc: usize, text: &str) -> (r: (usize, usize))
    requires
        text@.len() < usize::MAX,
    ensures
        r.0 == line_col(text@.take(if loc < text@.len() { loc as int } else { text@.len() as int })).0,
        r.1 == line_col(text@.take(if loc < text@.len() { loc as int } else { text@.len() as int })).1,
{
    let mut line: usize = 1;
    let mut col: usize = 0;
    let mut i: usize = 0;
    let ghost chars = text@;
    for c in it: text.chars()
        invariant
            chars == text@,
            chars.len() < usize::MAX,
            it.seq() == chars,
            i <= loc,
            i <= it.index(),
            i < loc ==> i == it.index(),
            (line as int, col as int) == line_col(chars.take(i as int)),
    {
        if i < loc {
            proof {
                lemma_line_col_bounds(chars.take(i as int));
                assert(chars.take(i as int + 1).drop_last() == chars.take(i as int));
                assert(chars.take(i as int + 1).last() == c);
            }
            if c == '\n' {
                line = line + 1;
                col = 0;
            } else {
                col = col + 1;
            }
            i = i + 1;
        }
    }
    proof {
        if loc >= chars.len() {
            assert(chars.take(chars.len() as int) == chars);
        }
    }
    (line, col)
}

/// Why a circuit could not be built from its declarations.
#[derive(Debug, Clone, PartialEq, Eq)]
pub enum BuildError {
    NoMainComponentError,
    ComponentDeclNotFoundError(String),
    ComponentRefNotFoundError(String),
    InputPinNotFoundError(String),
    OutputPinNotFoundError(String),
    ImportError(String),
    ModuleSintaxError(String, String),
}

/// A build error with its texts as sequences of characters.
pub enum BuildErrorView {
    NoMainComponent,
    ComponentDeclNotFound(Seq<char>),
    ComponentRefNotFound(Seq<char>),
    InputPinNotFound(Seq<char>),
    OutputPinNotFound(Seq<char>),
    Import(Seq<char>),
    ModuleSintax(Seq<char>, Seq<char>),
}

impl View for BuildError {
    type V = BuildErrorView;

    open spec fn view(&self) -> BuildErrorView {
        match self {
            BuildError::NoMainComponentError => BuildErrorView::NoMainComponent,
            BuildError::ComponentDeclNotFoundError(n) => BuildErrorView::ComponentDeclNotFound(n@),
            BuildError::ComponentRefNotFoundError(n) => BuildErrorView::ComponentRefNotFound(n@),
            BuildError::InputPinNotFoundError(n) => BuildErrorView::InputPinNotFound(n@),
            BuildError::OutputPinNotFoundError(n) => BuildErrorView::OutputPinNotFound(n@),
            BuildError::ImportError(n) => BuildErrorView::Import(n@),
            BuildError::ModuleSintaxError(m, e) => BuildErrorView::ModuleSintax(m@, e@),
        }
    }
}

/// `k` is the position of the first sub-component of `s` named `name`.
pub open spec fn is_first_named(s: Seq<SubDecl>, name: Seq<char>, k: int) -> bool {
    &&& 0 <= k < s.len()
    &&& s[k].0.0@ == name
    &&& forall|j: int| 0 <= j < k ==> (#[trigger] s[j]).0.0@ != name
}

/// The name under which the declaration of a sub-component is looked up: a
/// composite's declaration name, or the text of a primitive.
pub open spec fn decl_key(c: Comp) -> Seq<char> {
    match c {
        Comp::Primitive(p) => p.spec_text(),
        Comp::Composite(n) => n@,
    }
}

/// The declaration of the first sub-component of `d` named `name`.
pub open spec fn comp_decl_of(d: CompDecl, name: Seq<char>, map: Map<Seq<char>, CompDecl>) -> Result<
    CompDecl,
    BuildErrorView,
> {
    let s = d.subc@;
    if exists|k: int| is_first_named(s, name, k) {
        let key = decl_key(s[choose|k: int| is_first_named(s, name, k)].1);
        if map.contains_key(key) {
            Ok(map[key])
        } else {
            Err(BuildErrorView::ComponentDeclNotFound(key))
        }
    } else {
        Err(BuildErrorView::ComponentRefNotFound(name))
    }
}

/// The position of the pin `pin` of the sub-component `comp_name` of `d`:
/// among its outputs for the source of a connection (`is_src`), among its
/// inputs for the destination.
pub open spec fn pin_idx_of(
    d: CompDecl,
    map: Map<Seq<char>, CompDecl>,
    comp_name: Seq<char>,
    pin: Seq<char>,
    is_src: bool,
) -> Result<usize, BuildErrorView> {
    match comp_decl_of(d, comp_name, map) {
        Err(_) => Err(BuildErrorView::ComponentRefNotFound(comp_name)),
        Ok(decl) => if is_src {
            if decl.out_idx_by_name@.contains_key(pin) {
                Ok(decl.out_idx_by_name@[pin])
            } else {
                Err(BuildErrorView::InputPinNotFound(pin))
            }
        } else {
            if decl.in_idx_by_name@.contains_key(pin) {
                Ok(decl.in_idx_by_name@[pin])
            } else {
                Err(BuildErrorView::OutputPinNotFound(pin))
            }
        },
    }
}

/// The pin index that `p` stands for.
pub open spec fn pin_of(d: CompDecl, map: Map<Seq<char>, CompDecl>, p: PinAddr, is_src: bool) -> Result<
    usize,
    BuildErrorView,
> {
    match p {
        PinAddr::ByName(c, n) => pin_idx_of(d, map, c@, n@, is_src),
        PinAddr::ByIdx(_, i) => Ok(i),
    }
}

/// The connection that `c` declares, sub-components numbered by `subc_map`.
pub open spec fn conn_of(
    d: CompDecl,
    subc_map: Map<Seq<char>, usize>,
    map: Map<Seq<char>, CompDecl>,
    c: ConnDecl,
) -> Result<Conn, BuildErrorView> {
    let s = c.src.spec_name();
    let t = c.dest.spec_name();
    if !subc_map.contains_key(s) {
        Err(BuildErrorView::ComponentRefNotFound(s))
    } else if !subc_map.contains_key(t) {
        Err(BuildErrorView::ComponentRefNotFound(t))
    } else {
        match pin_of(d, map, c.src, true) {
            Err(e) => Err(e),
            Ok(sp) => match pin_of(d, map, c.dest, false) {
                Err(e) => Err(e),
                Ok(dp) => Ok(Conn { from: (subc_map[s], sp), to: (subc_map[t], dp) }),
            },
        }
    }
}

/// The connections that `cs` declares, in order, or the error of the first
/// one that fails.
pub open spec fn conns_of(
    d: CompDecl,
    subc_map: Map<Seq<char>, usize>,
    map: Map<Seq<char>, CompDecl>,
    cs: Seq<ConnDecl>,
) -> Result<Seq<Conn>, BuildErrorView>
    decreases cs.len(),
{
    if cs.len() == 0 {
        Ok(Seq::empty())
    } else {
        match conns_of(d, subc_map, map, cs.drop_last()) {
            Err(e) => Err(e),
            Ok(v) => match conn_of(d, subc_map, map, cs.last()) {
                Err(e) => Err(e),
                Ok(c) => Ok(v.push(c)),
            },
        }
    }
}

/// What a build leaves: the last id taken, the names given to the ids taken,
/// in order, the error met if any, and whether the declarations nest deeper
/// than the build was allowed to look.
pub struct BuildTrace {
    pub last: int,
    pub names: Seq<(int, Seq<char>)>,
    pub error: Option<BuildErrorView>,
    pub deep: bool,
}

/// The sub-component of `s` with index `x`.
pub open spec fn sub_comp(s: Seq<SubDecl>, x: usize) -> Comp {
    s[choose|k: int| 0 <= k < s.len() && (#[trigger] s[k]).0.1 == x].1
}

/// The trace of building the declaration `d` under the name `name`, ids
/// taken after `id0`, declarations nested at most `fuel` deep.
pub open spec fn trace(d: CompDecl, name: Seq<char>, map: Map<Seq<char>, CompDecl>, id0: int, fuel: nat) -> BuildTrace
    decreases fuel, 1int, 0int,
{
    let order = sub_order(d.subc@);
    let t = subs_trace(d, order, map, id0, fuel);
    if t.deep || t.error is Some {
        t
    } else {
        match conns_of(d, positions_by_name(d.subc@, order), map, d.design@) {
            Err(e) => BuildTrace { last: t.last, names: t.names, error: Some(e), deep: false },
            Ok(_) => BuildTrace {
                last: t.last + 1,
                names: t.names.push((t.last + 1, name)),
                error: None,
                deep: false,
            },
        }
    }
}

/// The trace of building the sub-components of `d` with the indices in
/// `order`, in that order.
pub open spec fn subs_trace(
    d: CompDecl,
    order: Seq<usize>,
    map: Map<Seq<char>, CompDecl>,
    id0: int,
    fuel: nat,
) -> BuildTrace
    decreases fuel, 0int, order.len(),
{
    if order.len() == 0 {
        BuildTrace { last: id0, names: Seq::empty(), error: None, deep: false }
    } else {
        let t = subs_trace(d, order.drop_last(), map, id0, fuel);
        let x = order.last();
        if t.deep || t.error is Some {
            t
        } else {
            match sub_comp(d.subc@, x) {
                Comp::Primitive(_) => BuildTrace {
                    last: t.last + 1,
                    names: t.names.push((t.last + 1, sub_name(d.subc@, x))),
                    error: None,
                    deep: false,
                },
                Comp::Composite(n) => if !map.contains_key(n@) {
                    BuildTrace {
                        last: t.last,
                        names: t.names,
                        error: Some(BuildErrorView::ComponentDeclNotFound(n@)),
                        deep: false,
                    }
                } else if fuel == 0 {
                    BuildTrace { last: t.last, names: t.names, error: None, deep: true }
                } else {
                    let u = trace(map[n@], sub_name(d.subc@, x), map, t.last, (fuel - 1) as nat);
                    BuildTrace { last: u.last, names: t.names + u.names, error: u.error, deep: u.deep }
                },
            }
        }
    }
}

/// `c` is the circuit of the primitive `p`, with id `id`.
pub open spec fn lang_prim_built(c: Circuit, id: usize, p: Primitive) -> bool {
    match p {
        Primitive::And(n) => prim_circuit(c, id, SimPrimitive::AndGate, n as nat, 1),
        Primitive::Or(n) => prim_circuit(c, id, SimPrimitive::OrGate, n as nat, 1),
        Primitive::Not => prim_circuit(c, id, SimPrimitive::NotGate, 1, 1),
        Primitive::Xor(n) => prim_circuit(c, id, SimPrimitive::XorGate, n as nat, 1),
        Primitive::Nand(n) => prim_circuit(c, id, SimPrimitive::NandGate, n as nat, 1),
        Primitive::Nor(n) => prim_circuit(c, id, SimPrimitive::NorGate, n as nat, 1),
        Primitive::Clock(period) => prim_circuit(c, id, SimPrimitive::Clock { period }, 0, 1),
        Primitive::HighConst => prim_circuit(
            c,
            id,
            SimPrimitive::Const { value: Data { value: 1, size: 1 } },
            0,
            1,
        ),
        Primitive::LowConst => prim_circuit(
            c,
            id,
            SimPrimitive::Const { value: Data { value: 0, size: 1 } },
            0,
            1,
        ),
        Primitive::Input(b) => prim_circuit(c, id, SimPrimitive::Input { bits: b as u8 }, 1, 1),
        Primitive::Output(b) => prim_circuit(c, id, SimPrimitive::Output { bits: b as u8 }, 1, 1),
        Primitive::Splitter(b) => prim_circuit(c, id, SimPrimitive::Splitter { bits: b as u8 }, 1, b as nat),
        Primitive::Joiner(b) => prim_circuit(c, id, SimPrimitive::Joiner { bits: b as u8 }, b as nat, 1),
    }
}

/// `c` is the circuit built from `d` under the name `name`, ids taken after
/// `id0`: its sub-circuits built in increasing index order, its connections
/// those of the design, its inputs and outputs those of `d`.
pub open spec fn built(c: Circuit, d: CompDecl, name: Seq<char>, map: Map<Seq<char>, CompDecl>, id0: int, fuel: nat) -> bool
    decreases fuel, 1int, 0int,
{
    let order = sub_order(d.subc@);
    let t = trace(d, name, map, id0, fuel);
    &&& c.id == t.last
    &&& c.name matches Some(n) && n@ == name
    &&& c.inputs == d.ins.len()
    &&& c.outputs == d.outs.len()
    &&& c.extra == ExtraInfo { id: c.id, primitive: None }
    &&& c.sub matches Some(sc) && {
        &&& sc.components.len() == order.len()
        &&& forall|k: int| 0 <= k < order.len() ==> sub_built(#[trigger] sc.components@[k], d, order, k, map, id0, fuel)
        &&& conns_of(d, positions_by_name(d.subc@, order), map, d.design@) == Ok::<Seq<Conn>, BuildErrorView>(sc.connections@)
        &&& sc.in_addrs@ == Seq::new(d.ins.len() as nat, |i: int| (i as usize, (d.ins@[i], 0usize)))
        &&& sc.out_addrs@ == Seq::new(d.outs.len() as nat, |i: int| (d.outs@[i], 0usize))
    }
}

/// `c` is the circuit built for the sub-component at position `k` of `order`.
pub open spec fn sub_built(
    c: Circuit,
    d: CompDecl,
    order: Seq<usize>,
    k: int,
    map: Map<Seq<char>, CompDecl>,
    id0: int,
    fuel: nat,
) -> bool
    decreases fuel, 0int, 0int,
{
    let t = subs_trace(d, order.take(k), map, id0, fuel);
    let x = order[k];
    match sub_comp(d.subc@, x) {
        Comp::Primitive(p) => lang_prim_built(c, (t.last + 1) as usize, p),
        Comp::Composite(n) => fuel > 0 && built(c, map[n@], sub_name(d.subc@, x), map, t.last, (fuel - 1) as nat),
    }
}

/// `m` after giving, in order, each id of `names` its name.
pub open spec fn with_names(m: Map<usize, Seq<char>>, names: Seq<(int, Seq<char>)>) -> Map<usize, Seq<char>>
    decreases names.len(),
{
    if names.len() == 0 {
        m
    } else {
        with_names(m, names.drop_last()).insert(names.last().0 as usize, names.last().1)
    }
}

/// The names of an id map as sequences of characters.
pub open spec fn named(m: Map<usize, String>) -> Map<usize, Seq<char>> {
    m.map_values(|s: String| s@)
}

/// Every declaration of `map` numbers its sub-components apart.
pub open spec fn decls_ok(map: Map<Seq<char>, CompDecl>) -> bool {
    forall|k: Seq<char>| #[trigger] map.contains_key(k) ==> distinct_indices(map[k].subc@)
}

/// Building `d` under `name` from id `id0` ends within `fuel` levels of
/// nesting, with ids that fit in `usize`.
pub open spec fn build_fits(d: CompDecl, name: Seq<char>, map: Map<Seq<char>, CompDecl>, id0: int, fuel: nat) -> bool {
    let t = trace(d, name, map, id0, fuel);
    !t.deep && t.last <= usize::MAX
}

proof fn lemma_with_names_concat(m: Map<usize, Seq<char>>, a: Seq<(int, Seq<char>)>, b: Seq<(int, Seq<char>)>)
    ensures
        with_names(m, a + b) == with_names(with_names(m, a), b),
    decreases b.len(),
{
    if b.len() == 0 {
        assert(a + b =~= a);
    } else {
        assert((a + b).drop_last() =~= a + b.drop_last());
        assert((a + b).last() == b.last());
        lemma_with_names_concat(m, a, b.drop_last());
    }
}

proof fn lemma_trace_grows(d: CompDecl, name: Seq<char>, map: Map<Seq<char>, CompDecl>, id0: int, fuel: nat)
    ensures
        trace(d, name, map, id0, fuel).last >= id0,
    decreases fuel, 1int, 0int,
{
    lemma_subs_trace_grows(d, sub_order(d.subc@), map, id0, fuel);
}

proof fn lemma_subs_trace_grows(d: CompDecl, order: Seq<usize>, map: Map<Seq<char>, CompDecl>, id0: int, fuel: nat)
    ensures
        subs_trace(d, order, map, id0, fuel).last >= id0,
    decreases fuel, 0int, order.len(),
{
    if order.len() > 0 {
        lemma_subs_trace_grows(d, order.drop_last(), map, id0, fuel);
        let t = subs_trace(d, order.drop_last(), map, id0, fuel);
        let x = order.last();
        if !(t.deep || t.error is Some) {
            if let Comp::Composite(n) = sub_comp(d.subc@, x) {
                if map.contains_key(n@) && fuel > 0 {
                    lemma_trace_grows(map[n@], sub_name(d.subc@, x), map, t.last, (fuel - 1) as nat);
                }
            }
        }
    }
}

/// A build takes the ids after `id0` one by one, up to the last it reports,
/// and names each of them once, in increasing order.
pub proof fn lemma_trace_ids(d: CompDecl, name: Seq<char>, map: Map<Seq<char>, CompDecl>, id0: int, fuel: nat)
    ensures
        ({
            let t = trace(d, name, map, id0, fuel);
            &&& t.names.len() == t.last - id0
            &&& forall|i: int| 0 <= i < t.names.len() ==> (#[trigger] t.names[i]).0 == id0 + 1 + i
        }),
    decreases fuel, 1int, 0int,
{
    lemma_subs_trace_ids(d, sub_order(d.subc@), map, id0, fuel);
}

/// The same of building the sub-components with the indices in `order`.
pub proof fn lemma_subs_trace_ids(d: CompDecl, order: Seq<usize>, map: Map<Seq<char>, CompDecl>, id0: int, fuel: nat)
    ensures
        ({
            let t = subs_trace(d, order, map, id0, fuel);
            &&& t.names.len() == t.last - id0
            &&& forall|i: int| 0 <= i < t.names.len() ==> (#[trigger] t.names[i]).0 == id0 + 1 + i
        }),
    decreases fuel, 0int, order.len(),
{
    if order.len() > 0 {
        lemma_subs_trace_ids(d, order.drop_last(), map, id0, fuel);
        let t = subs_trace(d, order.drop_last(), map, id0, fuel);
        let x = order.last();
        if !(t.deep || t.error is Some) {
            if let Comp::Composite(n) = sub_comp(d.subc@, x) {
                if map.contains_key(n@) && fuel > 0 {
                    let u = trace(map[n@], sub_name(d.subc@, x), map, t.last, (fuel - 1) as nat);
                    lemma_trace_ids(map[n@], sub_name(d.subc@, x), map, t.last, (fuel - 1) as nat);
                    assert forall|i: int| 0 <= i < t.names.len() + u.names.len() implies (#[trigger] (
                    t.names + u.names)[i]).0 == id0 + 1 + i by {
                        if i >= t.names.len() {
                            assert((t.names + u.names)[i] == u.names[i - t.names.len()]);
                        }
                    }
                }
            }
        }
    }
}

/// A prefix of the sub-components leaves no more ids taken than all of them,
/// and a prefix that failed or went too deep is the whole trace.
proof fn lemma_subs_prefix(d: CompDecl, order: Seq<usize>, k: int, map: Map<Seq<char>, CompDecl>, id0: int, fuel: nat)
    requires
        0 <= k <= order.len(),
    ensures
        subs_trace(d, order.take(k), map, id0, fuel).last <= subs_trace(d, order, map, id0, fuel).last,
        ({
            let p = subs_trace(d, order.take(k), map, id0, fuel);
            p.deep || p.error is Some ==> subs_trace(d, order, map, id0, fuel) == p
        }),
    decreases order.len() - k,
{
    if k == order.len() {
        assert(order.take(k) =~= order);
    } else {
        let o2 = order.drop_last();
        assert(o2.take(k) =~= order.take(k));
        lemma_subs_prefix(d, o2, k, map, id0, fuel);
        let t = subs_trace(d, o2, map, id0, fuel);
        let x = order.last();
        if !(t.deep || t.error is Some) {
            if let Comp::Composite(n) = sub_comp(d.subc@, x) {
                if map.contains_key(n@) && fuel > 0 {
                    lemma_trace_grows(map[n@], sub_name(d.subc@, x), map, t.last, (fuel - 1) as nat);
                }
            }
        }
    }
}

/// The declaration of the first sub-component of `comp` named `name`.
fn get_comp_decl<'a>(comp: &'a CompDecl, name: &str, comp_map: &'a StringHashMap<CompDecl>) -> (r: Result<
    &'a CompDecl,
    BuildError,
>)
    ensures
        match r {
            Ok(d) => comp_decl_of(*comp, name@, comp_map@) == Ok::<CompDecl, BuildErrorView>(*d),
            Err(e) => comp_decl_of(*comp, name@, comp_map@) == Err::<CompDecl, BuildErrorView>(e@),
        },
{
    let target = String::from_str(name);
    let mut k: usize = 0;
    while k < comp.subc.len()
        invariant
            k <= comp.subc@.len(),
            target@ == name@,
            forall|j: int| 0 <= j < k ==> (#[trigger] comp.subc@[j]).0.0@ != name@,
        decreases comp.subc@.len() - k,
    {
        if comp.subc[k].0.0 == target {
            proof {
                assert(is_first_named(comp.subc@, name@, k as int));
                assert forall|j: int| is_first_named(comp.subc@, name@, j) implies j == k by {
                    if j < k {
                        assert(comp.subc@[j].0.0@ != name@);
                    } else if j > k {
                        assert(comp.subc@[k as int].0.0@ != name@);
                    }
                }
            }
            let key = match &comp.subc[k].1 {
                Comp::Primitive(p) => p.to_string(),
                Comp::Composite(n) => n.clone(),
            };
            return match comp_map.get(key.as_str()) {
                Some(d) => Ok(d),
                None => Err(BuildError::ComponentDeclNotFoundError(key)),
            };
        }
        k = k + 1;
    }
    Err(BuildError::ComponentRefNotFoundError(String::from_str(name)))
}

/// The position of the pin `pin` of the sub-component `comp_name`: among its
/// outputs for a source, among its inputs for a destination.
fn get_pin_idx(
    comp: &CompDecl,
    comp_map: &StringHashMap<CompDecl>,
    comp_name: &str,
    pin: &str,
    is_src: bool,
) -> (r: Result<usize, BuildError>)
    ensures
        match r {
            Ok(i) => pin_idx_of(*comp, comp_map@, comp_name@, pin@, is_src) == Ok::<usize, BuildErrorView>(i),
            Err(e) => pin_idx_of(*comp, comp_map@, comp_name@, pin@, is_src) == Err::<usize, BuildErrorView>(e@),
        },
{
    match get_comp_decl(comp, comp_name, comp_map) {
        Err(_) => Err(BuildError::ComponentRefNotFoundError(String::from_str(comp_name))),
        Ok(decl) => if is_src {
            match decl.out_idx_by_name.get(pin) {
                Some(i) => Ok(*i),
                None => Err(BuildError::InputPinNotFoundError(String::from_str(pin))),
            }
        } else {
            match decl.in_idx_by_name.get(pin) {
                Some(i) => Ok(*i),
                None => Err(BuildError::OutputPinNotFoundError(String::from_str(pin))),
            }
        },
    }
}

fn get_pin(comp: &CompDecl, comp_map: &StringHashMap<CompDecl>, p: &PinAddr, is_src: bool) -> (r: Result<
    usize,
    BuildError,
>)
    ensures
        match r {
            Ok(i) => pin_of(*comp, comp_map@, *p, is_src) == Ok::<usize, BuildErrorView>(i),
            Err(e) => pin_of(*comp, comp_map@, *p, is_src) == Err::<usize, BuildErrorView>(e@),
        },
{
    match p {
        PinAddr::ByName(c, n) => get_pin_idx(comp, comp_map, c.as_str(), n.as_str(), is_src),
        PinAddr::ByIdx(_, i) => Ok(*i),
    }
}

fn get_subc_idx(subc_map: &StringHashMap<usize>, name: &str) -> (r: Result<usize, BuildError>)
    ensures
        match r {
            Ok(i) => subc_map@.contains_key(name@) && i == subc_map@[name@],
            Err(e) => !subc_map@.contains_key(name@) && e@ == BuildErrorView::ComponentRefNotFound(name@),
        },
{
    match subc_map.get(name) {
        Some(i) => Ok(*i),
        None => Err(BuildError::ComponentRefNotFoundError(String::from_str(name))),
    }
}

/// The connections of the design of `comp`, sub-components numbered by
/// `subc_map` and pins found by name in the declarations of `comp_map`; or
/// the error of the first connection that names what is not there.
pub fn get_connections(
    comp: &CompDecl,
    subc_map: &StringHashMap<usize>,
    comp_map: &StringHashMap<CompDecl>,
) -> (r: Result<Vec<Conn>, BuildError>)
    ensures
        match r {
            Ok(v) => conns_of(*comp, subc_map@, comp_map@, comp.design@) == Ok::<Seq<Conn>, BuildErrorView>(v@),
            Err(e) => conns_of(*comp, subc_map@, comp_map@, comp.design@) == Err::<Seq<Conn>, BuildErrorView>(e@),
        },
{
    let mut conns: Vec<Conn> = Vec::new();
    let mut i: usize = 0;
    while i < comp.design.len()
        invariant
            i <= comp.design@.len(),
            conns_of(*comp, subc_map@, comp_map@, comp.design@.take(i as int)) == Ok::<Seq<Conn>, BuildErrorView>(conns@),
        decreases comp.design@.len() - i,
    {
        let ghost cs = comp.design@.take(i as int + 1);
        proof {
            assert(cs.drop_last() =~= comp.design@.take(i as int));
            assert(cs.last() == comp.design@[i as int]);
        }
        let conn = &comp.design[i];
        let src_comp_idx = match get_subc_idx(subc_map, conn.src.name()) {
            Ok(x) => x,
            Err(e) => {
                proof { lemma_conns_fail(*comp, subc_map@, comp_map@, comp.design@, i as int + 1, e@); }
                return Err(e);
            },
        };
        let dest_comp_idx = match get_subc_idx(subc_map, conn.dest.name()) {
            Ok(x) => x,
            Err(e) => {
                proof { lemma_conns_fail(*comp, subc_map@, comp_map@, comp.design@, i as int + 1, e@); }
                return Err(e);
            },
        };
        let src_pin_idx = match get_pin(comp, comp_map, &conn.src, true) {
            Ok(x) => x,
            Err(e) => {
                proof { lemma_conns_fail(*comp, subc_map@, comp_map@, comp.design@, i as int + 1, e@); }
                return Err(e);
            },
        };
        let dest_pin_idx = match get_pin(comp, comp_map, &conn.dest, false) {
            Ok(x) => x,
            Err(e) => {
                proof { lemma_conns_fail(*comp, subc_map@, comp_map@, comp.design@, i as int + 1, e@); }
                return Err(e);
            },
        };
        conns.push(Conn::new(src_comp_idx, src_pin_idx, dest_comp_idx, dest_pin_idx));
        i = i + 1;
    }
    proof {
        assert(comp.design@.take(comp.design@.len() as int) =~= comp.design@);
    }
    Ok(conns)
}

/// A connection that fails fails the whole design.
proof fn lemma_conns_fail(
    d: CompDecl,
    subc_map: Map<Seq<char>, usize>,
    map: Map<Seq<char>, CompDecl>,
    cs: Seq<ConnDecl>,
    k: int,
    e: BuildErrorView,
)
    requires
        0 <= k <= cs.len(),
        conns_of(d, subc_map, map, cs.take(k)) == Err::<Seq<Conn>, BuildErrorView>(e),
    ensures
        conns_of(d, subc_map, map, cs) == Err::<Seq<Conn>, BuildErrorView>(e),
    decreases cs.len() - k,
{
    if k == cs.len() {
        assert(cs.take(k) =~= cs);
    } else {
        assert(cs.drop_last().take(k) =~= cs.take(k));
        lemma_conns_fail(d, subc_map, map, cs.drop_last(), k, e);
    }
}

/// The circuit of the primitive `p`, with id `id`.
fn build_primitive(p: &Primitive, id: usize) -> (c: Circuit)
    ensures
        lang_prim_built(c, id, *p),
{
    match p {
        Primitive::And(n) => and_gate(id, *n),
        Primitive::Or(n) => or_gate(id, *n),
        Primitive::Not => not_gate(id),
        Primitive::Nand(n) => nand_gate(id, *n),
        Primitive::Nor(n) => nor_gate(id, *n),
        Primitive::HighConst => high_const(id),
        Primitive::LowConst => low_const(id),
        Primitive::Clock(period) => clock(id, *period),
        Primitive::Xor(n) => xor_gate(id, *n),
        Primitive::Input(b) => input(id, *b),
        Primitive::Output(b) => output(id, *b),
        Primitive::Splitter(b) => splitter(id, *b),
        Primitive::Joiner(b) => joiner(id, *b),
    }
}

/// Position in `subc` of the sub-component with index `x`.
fn position_of_index(subc: &Vec<SubDecl>, x: usize) -> (j: usize)
    requires
        distinct_indices(subc@),
        exists|k: int| 0 <= k < subc@.len() && (#[trigger] subc@[k]).0.1 == x,
    ensures
        j < subc@.len(),
        subc@[j as int].0.1 == x,
        sub_name(subc@, x) == subc@[j as int].0.0@,
        sub_comp(subc@, x) == subc@[j as int].1,
{
    let mut k: usize = 0;
    while k < subc.len()
        invariant
            k <= subc@.len(),
            distinct_indices(subc@),
            exists|k: int| 0 <= k < subc@.len() && (#[trigger] subc@[k]).0.1 == x,
            forall|j: int| 0 <= j < k ==> (#[trigger] subc@[j]).0.1 != x,
        decreases subc@.len() - k,
    {
        if subc[k].0.1 == x {
            proof {
                let c = choose|c: int| 0 <= c < subc@.len() && (#[trigger] subc@[c]).0.1 == x;
                if c < k {
                    assert(subc@[c].0.1 != x);
                } else if c > k {
                    assert(subc@[k as int].0.1 != subc@[c].0.1);
                }
            }
            return k;
        }
        k = k + 1;
    }
    proof {
        let c = choose|c: int| 0 <= c < subc@.len() && (#[trigger] subc@[c]).0.1 == x;
        assert(subc@[c].0.1 != x);
    }
    0
}

/// Builds the circuit of the declaration `comp` under the name `name`: its
/// sub-components in increasing index order, each primitive given the next
/// id and each composite built from its declaration in `comp_map`, then its
/// connections; the circuit itself takes the id after them all. Each id
/// taken is named in `id_map`.
fn comp_decl_to_comp(
    comp: &CompDecl,
    name: &str,
    comp_map: &StringHashMap<CompDecl>,
    last_id: &mut usize,
    id_map: &mut HashMapWithView<usize, String>,
    Ghost(fuel): Ghost<nat>,
) -> (r: Result<Circuit, BuildError>)
    requires
        distinct_indices(comp.subc@),
        decls_ok(comp_map@),
        build_fits(*comp, name@, comp_map@, *old(last_id) as int, fuel),
    ensures
        ({
            let t = trace(*comp, name@, comp_map@, *old(last_id) as int, fuel);
            &&& *final(last_id) == t.last
            &&& named(final(id_map)@) == with_names(named(old(id_map)@), t.names)
            &&& match r {
                Ok(c) => t.error is None && built(c, *comp, name@, comp_map@, *old(last_id) as int, fuel),
                Err(e) => t.error == Some(e@),
            }
        }),
    decreases fuel,
{
    let ghost id0 = *last_id as int;
    let ghost map = comp_map@;
    let ghost names0 = named(id_map@);
    let order = sorted_port_indices(&comp.subc, SubKind::Any);
    proof {
        lemma_sub_order(comp.subc@, order@);
    }
    let subc_map = positions_of(&comp.subc, &order, SubKind::Any);
    let ghost full = subs_trace(*comp, order@, map, id0, fuel);
    proof {
        lemma_trace_grows(*comp, name@, map, id0, fuel);
        assert(full.last <= trace(*comp, name@, map, id0, fuel).last);
        assert(order@.take(0) =~= Seq::<usize>::empty());
    }
    let mut subs: Vec<Circuit> = Vec::new();
    let mut k: usize = 0;
    while k < order.len()
        invariant
            k <= order@.len(),
            order@ == sub_order(comp.subc@),
            map == comp_map@,
            id0 == *old(last_id) as int,
            names0 == named(old(id_map)@),
            distinct_indices(comp.subc@),
            decls_ok(map),
            forall|x: usize| order@.contains(x) <==> crate::lang::ast::has_port_at(comp.subc@, x, SubKind::Any),
            full == subs_trace(*comp, order@, map, id0, fuel),
            !full.deep,
            full.last <= usize::MAX,
            ({
                let t = subs_trace(*comp, order@.take(k as int), map, id0, fuel);
                &&& !t.deep
                &&& t.error is None
                &&& *last_id == t.last
                &&& named(id_map@) == with_names(names0, t.names)
            }),
            subs@.len() == k,
            forall|j: int| 0 <= j < k ==> sub_built(#[trigger] subs@[j], *comp, order@, j, map, id0, fuel),
        decreases order@.len() - k,
    {
        let ghost t = subs_trace(*comp, order@.take(k as int), map, id0, fuel);
        let ghost o1 = order@.take(k as int + 1);
        proof {
            assert(o1.drop_last() =~= order@.take(k as int));
            assert(o1.last() == order@[k as int]);
            lemma_subs_prefix(*comp, order@, k as int + 1, map, id0, fuel);
            assert(order@.contains(order@[k as int]));
        }
        let x = order[k];
        let j = position_of_index(&comp.subc, x);
        match &comp.subc[j].1 {
            Comp::Primitive(p) => {
                *last_id = *last_id + 1;
                let c = build_primitive(p, *last_id);
                let ghost prev = id_map@;
                id_map.insert(*last_id, comp.subc[j].0.0.clone());
                proof {
                    assert(named(id_map@) =~= named(prev).insert(*last_id, comp.subc@[j as int].0.0@));
                    let e = (t.last + 1, sub_name(comp.subc@, x));
                    assert(t.names.push(e).drop_last() =~= t.names);
                }
                subs.push(c);
            },
            Comp::Composite(n) => {
                match comp_map.get(n.as_str()) {
                    None => {
                        proof {
                            assert(subs_trace(*comp, o1, map, id0, fuel).error == Some(
                                BuildErrorView::ComponentDeclNotFound(n@),
                            ));
                            assert(full == subs_trace(*comp, o1, map, id0, fuel));
                        }
                        return Err(BuildError::ComponentDeclNotFoundError(n.clone()));
                    },
                    Some(decl) => {
                        let ghost before = named(id_map@);
                        let c = comp_decl_to_comp(decl, comp.subc[j].0.0.as_str(), comp_map, last_id, id_map, Ghost((fuel - 1) as nat));
                        proof {
                            lemma_with_names_concat(names0, t.names, trace(*decl, sub_name(comp.subc@, x), map, t.last, (fuel - 1) as nat).names);
                        }
                        match c {
                            Err(e) => {
                                return Err(e);
                            },
                            Ok(c) => {
                                subs.push(c);
                            },
                        }
                    },
                }
            },
        }
        proof {
            let t1 = subs_trace(*comp, o1, map, id0, fuel);
            assert(*last_id == t1.last);
            assert(named(id_map@) == with_names(names0, t1.names));
            assert(!t1.deep && t1.error is None);
            assert forall|i: int| 0 <= i < k + 1 implies sub_built(#[trigger] subs@[i], *comp, order@, i, map, id0, fuel) by {
                if i == k {
                    assert(order@.take(i) =~= order@.take(k as int));
                }
            }
        }
        k = k + 1;
    }
    proof {
        assert(order@.take(order@.len() as int) =~= order@);
    }
    let conns = match get_connections(comp, &subc_map, comp_map) {
        Ok(v) => v,
        Err(e) => {
            return Err(e);
        },
    };
    let mut in_addrs: Vec<(usize, PortAddr)> = Vec::new();
    let mut i: usize = 0;
    while i < comp.ins.len()
        invariant
            i <= comp.ins@.len(),
            in_addrs@ == Seq::new(i as nat, |q: int| (q as usize, (comp.ins@[q], 0usize))),
        decreases comp.ins@.len() - i,
    {
        in_addrs.push((i, (comp.ins[i], 0)));
        i = i + 1;
    }
    let mut out_addrs: Vec<PortAddr> = Vec::new();
    let mut i: usize = 0;
    while i < comp.outs.len()
        invariant
            i <= comp.outs@.len(),
            out_addrs@ == Seq::new(i as nat, |q: int| (comp.outs@[q], 0usize)),
        decreases comp.outs@.len() - i,
    {
        out_addrs.push((comp.outs[i], 0));
        i = i + 1;
    }
    *last_id = *last_id + 1;
    let ghost prev = id_map@;
    id_map.insert(*last_id, String::from_str(name));
    let id = *last_id;
    proof {
        assert(named(id_map@) =~= named(prev).insert(*last_id, name@));
        let e = (full.last + 1, name@);
        assert(full.names.push(e).drop_last() =~= full.names);
    }
    Ok(Circuit {
        id,
        name: Some(String::from_str(name)),
        inputs: comp.ins.len(),
        outputs: comp.outs.len(),
        sub: Some(SubCircuit { components: subs, connections: conns, in_addrs, out_addrs }),
        extra: ExtraInfo::new(id),
    })
}

/// The declarations of `comps` by name; of two with one name, the later.
pub open spec fn decls_by_name(comps: Seq<CompDecl>) -> Map<Seq<char>, CompDecl>
    decreases comps.len(),
{
    if comps.len() == 0 {
        Map::empty()
    } else {
        decls_by_name(comps.drop_last()).insert(comps.last().name@, comps.last())
    }
}

/// The map from name to declaration of the components of a source file and
/// of those it imports, `comps` in the order they were read.
pub fn comp_map_of(comps: Vec<CompDecl>) -> (m: StringHashMap<CompDecl>)
    ensures
        m@ == decls_by_name(comps@),
{
    let ghost all = comps@;
    let mut comps = comps;
    let count = comps.len();
    assert(all.len() == count);
    let mut m: StringHashMap<CompDecl> = StringHashMap::new();
    let mut i: usize = 0;
    proof {
        assert(all.take(0) =~= Seq::<CompDecl>::empty());
        assert(all.skip(0) =~= all);
    }
    while comps.len() > 0
        invariant
            i + comps@.len() == all.len(),
            all.len() <= usize::MAX,
            comps@ == all.skip(i as int),
            m@ == decls_by_name(all.take(i as int)),
        decreases comps@.len(),
    {
        let c = comps.remove(0);
        proof {
            assert(all.take(i as int + 1).drop_last() =~= all.take(i as int));
            assert(c == all[i as int]);
            assert(comps@ =~= all.skip(i as int + 1));
        }
        let n = c.name.clone();
        m.insert(n, c);
        i = i + 1;
    }
    proof {
        assert(all.take(i as int) =~= all);
    }
    m
}

/// Builds the circuit of the declaration `Main` of `comp_map` under the name
/// `main`, ids taken from 1, with the name each id was given; with no such
/// declaration, `NoMainComponentError`.
pub fn build_main(comp_map: &StringHashMap<CompDecl>) -> (r: Result<(Circuit, HashMapWithView<usize, String>), BuildError>)
    requires
        decls_ok(comp_map@),
        comp_map@.contains_key("Main"@) ==> exists|fuel: nat| build_fits(comp_map@["Main"@], "main"@, comp_map@, 0, fuel),
    ensures
        !comp_map@.contains_key("Main"@) ==> (r matches Err(e) && e@ == BuildErrorView::NoMainComponent),
        comp_map@.contains_key("Main"@) ==> {
            let fuel = choose|fuel: nat| build_fits(comp_map@["Main"@], "main"@, comp_map@, 0, fuel);
            let t = trace(comp_map@["Main"@], "main"@, comp_map@, 0, fuel);
            match r {
                Ok((c, m)) => t.error is None && built(c, comp_map@["Main"@], "main"@, comp_map@, 0, fuel)
                    && named(m@) == with_names(Map::empty(), t.names),
                Err(e) => t.error == Some(e@),
            }
        },
{
    broadcast use vstd::std_specs::hash::group_hash_axioms;

    let main = match comp_map.get("Main") {
        Some(d) => d,
        None => {
            return Err(BuildError::NoMainComponentError);
        },
    };
    let ghost fuel = choose|fuel: nat| build_fits(comp_map@["Main"@], "main"@, comp_map@, 0, fuel);
    let mut last_id: usize = 0;
    let mut id_map: HashMapWithView<usize, String> = HashMapWithView::new();
    proof {
        assert(named(id_map@) =~= Map::<usize, Seq<char>>::empty());
    }
    match comp_decl_to_comp(main, "main", comp_map, &mut last_id, &mut id_map, Ghost(fuel)) {
        Ok(c) => Ok((c, id_map)),
        Err(e) => Err(e),
    }
}

} // verus!
