use vstd::prelude::*;

verus! {

/// Address of a port: index of the component, then index of the port.
pub type PortAddr = (usize, usize);

/// Component index of a port address.
pub fn idx_of(port_addr: PortAddr) -> (i: usize)
    ensures
        i == port_addr.0,
{
    port_addr.0
}

/// Port index of a port address.
pub fn addr_of(port_addr: PortAddr) -> (a: usize)
    ensures
        a == port_addr.1,
{
    port_addr.1
}

/// Connection from an output port to an input port.
#[derive(Debug, Clone, Copy, PartialEq, Eq)]
pub struct Conn {
    pub from: PortAddr,
    pub to: PortAddr,
}

impl Conn {
    pub fn new(from_idx: usize, from_port: usize, to_idx: usize, to_port: usize) -> (c: Conn)
        ensures
            c == (Conn { from: (from_idx, from_port), to: (to_idx, to_port) }),
    {
        Conn { from: (from_idx, from_port), to: (to_idx, to_port) }
    }
}

impl Default for Conn {
    fn default() -> (c: Conn)
        ensures
            c == (Conn { from: (0, 0), to: (0, 0) }),
    {
        Conn { from: (0, 0), to: (0, 0) }
    }
}

/// Inner structure of a composed component.
#[derive(Debug)]
pub struct SubComponent {
    pub components: Vec<Component>,
    pub connections: Vec<Conn>,
    pub in_addrs: Vec<PortAddr>,
    pub out_addrs: Vec<PortAddr>,
    /// For each sub-component, the sub-components it takes inputs from.
    pub dep_map: Vec<Vec<usize>>,
}

/// A component: its ports, and, when it is composed, its inner structure.
#[derive(Debug)]
pub struct Component {
    pub name: String,
    pub inputs: Vec<bool>,
    pub outputs: Vec<bool>,
    pub sub: Option<SubComponent>,
    pub info: Vec<u8>,
}

impl Default for SubComponent {
    fn default() -> (s: SubComponent)
        ensures
            s.components@ == Seq::<Component>::empty(),
            s.connections@ == Seq::<Conn>::empty(),
            s.in_addrs@ == Seq::<PortAddr>::empty(),
            s.out_addrs@ == Seq::<PortAddr>::empty(),
            s.dep_map@ == Seq::<Vec<usize>>::empty(),
    {
        SubComponent {
            components: Vec::new(),
            connections: Vec::new(),
            in_addrs: Vec::new(),
            out_addrs: Vec::new(),
            dep_map: Vec::new(),
        }
    }
}

impl Default for Component {
    fn default() -> (c: Component)
        ensures
            c.name@ == Seq::<char>::empty(),
            c.inputs@ == Seq::<bool>::empty(),
            c.outputs@ == Seq::<bool>::empty(),
            c.sub is None,
            c.info@ == Seq::<u8>::empty(),
    {
        Component { name: String::new(), inputs: Vec::new(), outputs: Vec::new(), sub: None, info: Vec::new() }
    }
}

/// Builder of a `Component`.
pub struct ComponentBuilder {
    name: String,
    inputs: Vec<bool>,
    outputs: Vec<bool>,
    sub_comps: Option<Vec<Component>>,
    connections: Option<Vec<Conn>>,
    in_addrs: Option<Vec<PortAddr>>,
    out_addrs: Option<Vec<PortAddr>>,
    info: Vec<u8>,
}

/// Sources of the connections in `conns` that end at component `k`, in the
/// order of the connections.
pub open spec fn deps_of(conns: Seq<Conn>, k: int) -> Seq<usize>
    decreases conns.len(),
{
    if conns.len() == 0 {
        Seq::empty()
    } else {
        let rest = deps_of(conns.drop_last(), k);
        if conns.last().to.0 == k {
            rest.push(conns.last().from.0)
        } else {
            rest
        }
    }
}

/// `false` repeated `n` times.
pub fn falses(n: usize) -> (v: Vec<bool>)
    ensures
        v@ == Seq::new(n as nat, |_k: int| false),
{
    let mut v: Vec<bool> = Vec::new();
    let mut k: usize = 0;
    while k < n
        invariant
            k <= n,
            v@ == Seq::new(k as nat, |_j: int| false),
        decreases n - k,
    {
        v.push(false);
        k = k + 1;
        assert(v@ =~= Seq::new(k as nat, |_j: int| false));
    }
    v
}

/// Dependency map of `count` components wired by `conns`.
pub fn build_dep_map(count: usize, conns: &Vec<Conn>) -> (m: Vec<Vec<usize>>)
    requires
        forall|i: int| 0 <= i < conns.len() ==> #[trigger] conns[i].to.0 < count,
    ensures
        m.len() == count,
        forall|k: int| 0 <= k < count ==> #[trigger] m[k]@ == deps_of(conns@, k),
{
    let mut map: Vec<Vec<usize>> = Vec::new();
    let mut k: usize = 0;
    while k < count
        invariant
            k <= count,
            map.len() == k,
            forall|j: int| 0 <= j < k ==> #[trigger] map[j]@ == Seq::<usize>::empty(),
        decreases count - k,
    {
        map.push(Vec::new());
        k = k + 1;
    }
    let mut c: usize = 0;
    while c < conns.len()
        invariant
            c <= conns.len(),
            map.len() == count,
            forall|i: int| 0 <= i < conns.len() ==> #[trigger] conns[i].to.0 < count,
            forall|j: int| 0 <= j < count ==> #[trigger] map[j]@ == deps_of(conns@.take(c as int), j),
        decreases conns.len() - c,
    {
        assert(conns@.take(c as int + 1).drop_last() == conns@.take(c as int));
        let conn = conns[c];
        let to = idx_of(conn.to);
        let mut row = map[to].clone();
        row.push(idx_of(conn.from));
        map.set(to, row);
        c = c + 1;
    }
    assert(conns@.take(conns.len() as int) == conns@);
    map
}

impl ComponentBuilder {
    pub closed spec fn spec_name(&self) -> Seq<char> {
        self.name@
    }

    pub closed spec fn spec_inputs(&self) -> Seq<bool> {
        self.inputs@
    }

    pub closed spec fn spec_outputs(&self) -> Seq<bool> {
        self.outputs@
    }

    pub closed spec fn spec_sub_comps(&self) -> Option<Seq<Component>> {
        match self.sub_comps {
            Some(v) => Some(v@),
            None => None,
        }
    }

    pub closed spec fn spec_connections(&self) -> Option<Seq<Conn>> {
        match self.connections {
            Some(v) => Some(v@),
            None => None,
        }
    }

    pub closed spec fn spec_in_addrs(&self) -> Option<Seq<PortAddr>> {
        match self.in_addrs {
            Some(v) => Some(v@),
            None => None,
        }
    }

    pub closed spec fn spec_out_addrs(&self) -> Option<Seq<PortAddr>> {
        match self.out_addrs {
            Some(v) => Some(v@),
            None => None,
        }
    }

    pub closed spec fn spec_info(&self) -> Seq<u8> {
        self.info@
    }

    /// The connections the builder holds, none when it holds none.
    pub open spec fn conns_or_empty(&self) -> Seq<Conn> {
        match self.spec_connections() {
            Some(v) => v,
            None => Seq::empty(),
        }
    }

    pub fn new(name: &str) -> (b: Self)
        ensures
            b.spec_name() == name@,
            b.spec_inputs() == Seq::<bool>::empty(),
            b.spec_outputs() == Seq::<bool>::empty(),
            b.spec_sub_comps() is None,
            b.spec_connections() is None,
            b.spec_in_addrs() is None,
            b.spec_out_addrs() is None,
            b.spec_info() == Seq::<u8>::empty(),
    {
        ComponentBuilder {
            name: String::from_str(name),
            inputs: Vec::new(),
            outputs: Vec::new(),
            sub_comps: None,
            connections: None,
            in_addrs: None,
            out_addrs: None,
            info: Vec::new(),
        }
    }

    pub fn in_count(self, n: usize) -> (b: Self)
        ensures
            b.spec_inputs() == Seq::new(n as nat, |_k: int| false),
            b.spec_name() == self.spec_name(),
            b.spec_outputs() == self.spec_outputs(),
            b.spec_sub_comps() == self.spec_sub_comps(),
            b.spec_connections() == self.spec_connections(),
            b.spec_in_addrs() == self.spec_in_addrs(),
            b.spec_out_addrs() == self.spec_out_addrs(),
            b.spec_info() == self.spec_info(),
    {
        let mut b = self;
        b.inputs = falses(n);
        b
    }

    pub fn out_count(self, n: usize) -> (b: Self)
        ensures
            b.spec_outputs() == Seq::new(n as nat, |_k: int| false),
            b.spec_name() == self.spec_name(),
            b.spec_inputs() == self.spec_inputs(),
            b.spec_sub_comps() == self.spec_sub_comps(),
            b.spec_connections() == self.spec_connections(),
            b.spec_in_addrs() == self.spec_in_addrs(),
            b.spec_out_addrs() == self.spec_out_addrs(),
            b.spec_info() == self.spec_info(),
    {
        let mut b = self;
        b.outputs = falses(n);
        b
    }

    pub fn port_count(self, in_count: usize, out_count: usize) -> (b: Self)
        ensures
            b.spec_inputs() == Seq::new(in_count as nat, |_k: int| false),
            b.spec_outputs() == Seq::new(out_count as nat, |_k: int| false),
            b.spec_name() == self.spec_name(),
            b.spec_sub_comps() == self.spec_sub_comps(),
            b.spec_connections() == self.spec_connections(),
            b.spec_in_addrs() == self.spec_in_addrs(),
            b.spec_out_addrs() == self.spec_out_addrs(),
            b.spec_info() == self.spec_info(),
    {
        let mut b = self;
        b.inputs = falses(in_count);
        b.outputs = falses(out_count);
        b
    }

    pub fn sub_comps(self, sub_comps: Vec<Component>) -> (b: Self)
        ensures
            b.spec_sub_comps() == Some(sub_comps@),
            b.spec_name() == self.spec_name(),
            b.spec_inputs() == self.spec_inputs(),
            b.spec_outputs() == self.spec_outputs(),
            b.spec_connections() == self.spec_connections(),
            b.spec_in_addrs() == self.spec_in_addrs(),
            b.spec_out_addrs() == self.spec_out_addrs(),
            b.spec_info() == self.spec_info(),
    {
        let mut b = self;
        b.sub_comps = Some(sub_comps);
        b
    }

    pub fn connections(self, connections: Vec<Conn>) -> (b: Self)
        ensures
            b.spec_connections() == Some(connections@),
            b.spec_name() == self.spec_name(),
            b.spec_inputs() == self.spec_inputs(),
            b.spec_outputs() == self.spec_outputs(),
            b.spec_sub_comps() == self.spec_sub_comps(),
            b.spec_in_addrs() == self.spec_in_addrs(),
            b.spec_out_addrs() == self.spec_out_addrs(),
            b.spec_info() == self.spec_info(),
    {
        let mut b = self;
        b.connections = Some(connections);
        b
    }

    pub fn in_addrs(self, in_addrs: Vec<PortAddr>) -> (b: Self)
        ensures
            b.spec_in_addrs() == Some(in_addrs@),
            b.spec_name() == self.spec_name(),
            b.spec_inputs() == self.spec_inputs(),
            b.spec_outputs() == self.spec_outputs(),
            b.spec_sub_comps() == self.spec_sub_comps(),
            b.spec_connections() == self.spec_connections(),
            b.spec_out_addrs() == self.spec_out_addrs(),
            b.spec_info() == self.spec_info(),
    {
        let mut b = self;
        b.in_addrs = Some(in_addrs);
        b
    }

    pub fn out_addrs(self, out_addrs: Vec<PortAddr>) -> (b: Self)
        ensures
            b.spec_out_addrs() == Some(out_addrs@),
            b.spec_name() == self.spec_name(),
            b.spec_inputs() == self.spec_inputs(),
            b.spec_outputs() == self.spec_outputs(),
            b.spec_sub_comps() == self.spec_sub_comps(),
            b.spec_connections() == self.spec_connections(),
            b.spec_in_addrs() == self.spec_in_addrs(),
            b.spec_info() == self.spec_info(),
    {
        let mut b = self;
        b.out_addrs = Some(out_addrs);
        b
    }

    pub fn info(self, info: Vec<u8>) -> (b: Self)
        ensures
            b.spec_info() == info@,
            b.spec_name() == self.spec_name(),
            b.spec_inputs() == self.spec_inputs(),
            b.spec_outputs() == self.spec_outputs(),
            b.spec_sub_comps() == self.spec_sub_comps(),
            b.spec_connections() == self.spec_connections(),
            b.spec_in_addrs() == self.spec_in_addrs(),
            b.spec_out_addrs() == self.spec_out_addrs(),
    {
        let mut b = self;
        b.info = info;
        b
    }

    /// Every connection ends at one of the sub-components, when there are
    /// sub-components.
    pub open spec fn build_ok(&self) -> bool {
        self.spec_sub_comps() matches Some(subs) ==> forall|i: int|
            0 <= i < self.conns_or_empty().len() ==> #[trigger] self.conns_or_empty()[i].to.0
                < subs.len()
    }

    /// Builds the component. With sub-components it is composed: its
    /// connections, input and output addresses are the ones given (none when
    /// none were given), and its dependency map lists, for each
    /// sub-component, the sources of the connections that end at it.
    /// Without sub-components it is primitive.
    pub fn build(self) -> (c: Component)
        requires
            self.build_ok(),
        ensures
            c.name@ == self.spec_name(),
            c.inputs@ == self.spec_inputs(),
            c.outputs@ == self.spec_outputs(),
            c.info@ == self.spec_info(),
            c.sub is Some <==> self.spec_sub_comps() is Some,
            c.sub matches Some(sub) ==> {
                &&& Some(sub.components@) == self.spec_sub_comps()
                &&& sub.connections@ == self.conns_or_empty()
                &&& sub.in_addrs@ == (match self.spec_in_addrs() {
                    Some(a) => a,
                    None => Seq::empty(),
                })
                &&& sub.out_addrs@ == (match self.spec_out_addrs() {
                    Some(a) => a,
                    None => Seq::empty(),
                })
                &&& sub.dep_map.len() == sub.components.len()
                &&& forall|k: int|
                    0 <= k < sub.components.len() ==> #[trigger] sub.dep_map[k]@ == deps_of(
                        sub.connections@,
                        k,
                    )
            },
    {
        let ghost conns = self.conns_or_empty();
        let ComponentBuilder {
            name,
            inputs,
            outputs,
            sub_comps,
            connections,
            in_addrs,
            out_addrs,
            info,
        } = self;
        let sub = match sub_comps {
            Some(components) => {
                let connections = match connections {
                    Some(c) => c,
                    None => Vec::new(),
                };
                assert(connections@ == conns);
                assert forall|i: int| 0 <= i < connections.len() implies #[trigger] connections[i].to.0 < components.len() by {
                    assert(conns[i] == connections[i]);
                }
                let dep_map = build_dep_map(components.len(), &connections);
                let in_addrs = match in_addrs {
                    Some(a) => a,
                    None => Vec::new(),
                };
                let out_addrs = match out_addrs {
                    Some(a) => a,
                    None => Vec::new(),
                };
                Some(SubComponent { components, connections, in_addrs, out_addrs, dep_map })
            },
            None => None,
        };
        Component { name, inputs, outputs, sub, info }
    }
}

/// The dependency map lists, for each component, exactly the sources of the
/// connections that end at it: `j` is among the dependencies of `k` if and
/// only if some connection goes from component `j` to component `k`.
pub proof fn lemma_deps_of_sources(conns: Seq<Conn>, k: int, j: usize)
    ensures
        deps_of(conns, k).contains(j) <==> exists|i: int|
            0 <= i < conns.len() && #[trigger] conns[i].to.0 == k && conns[i].from.0 == j,
    decreases conns.len(),
{
    if conns.len() > 0 {
        let prefix = conns.drop_last();
        lemma_deps_of_sources(prefix, k, j);
        if exists|i: int| 0 <= i < conns.len() && #[trigger] conns[i].to.0 == k && conns[i].from.0 == j {
            let i = choose|i: int| 0 <= i < conns.len() && #[trigger] conns[i].to.0 == k && conns[i].from.0 == j;
            let rest = deps_of(prefix, k);
            if i < conns.len() - 1 {
                assert(prefix[i] == conns[i]);
                assert(rest.contains(j));
                let t = choose|t: int| 0 <= t < rest.len() && rest[t] == j;
                assert(deps_of(conns, k)[t] == j);
            } else {
                assert(deps_of(conns, k)[rest.len() as int] == j);
            }
        }
        if deps_of(conns, k).contains(j) {
            let rest = deps_of(prefix, k);
            let d = deps_of(conns, k);
            let t = choose|t: int| 0 <= t < d.len() && d[t] == j;
            let last = conns.len() - 1;
            if conns.last().to.0 == k && t == rest.len() {
                assert(conns[last].to.0 == k && conns[last].from.0 == j);
            } else {
                assert(rest[t] == j);
                assert(rest.contains(j));
                let i = choose|i: int| 0 <= i < prefix.len() && #[trigger] prefix[i].to.0 == k && prefix[i].from.0 == j;
                assert(prefix[i] == conns[i]);
                assert(conns[i].to.0 == k && conns[i].from.0 == j);
            }
        }
    }
}

} // verus!
