use vstd::hash_map::StringHashMap;
use vstd::prelude::*;

use crate::text::{dec_string, dec_text};

verus! {

/// A pin of a sub-component, named by the sub-component and then either the
/// pin's name or its index.
#[derive(Debug, Clone)]
pub enum PinAddr {
    ByName(String, String),
    ByIdx(String, usize),
}

impl PinAddr {
    /// Name of the sub-component the pin belongs to.
    pub open spec fn spec_name(&self) -> Seq<char> {
        match self {
            PinAddr::ByName(n, _) => n@,
            PinAddr::ByIdx(n, _) => n@,
        }
    }

    pub fn name(&self) -> (n: &str)
        ensures
            n@ == self.spec_name(),
    {
        match self {
            PinAddr::ByName(n, _) => n.as_str(),
            PinAddr::ByIdx(n, _) => n.as_str(),
        }
    }
}

/// A connection between two pins in a component declaration.
#[derive(Debug)]
pub struct ConnDecl {
    pub src: PinAddr,
    pub dest: PinAddr,
}


/// The primitives the language knows, with their sizes. A clock keeps its
/// period in nanoseconds.
#[derive(Debug, Clone, Copy, PartialEq, Eq, Structural)]
pub enum Primitive {
    And(usize),
    Or(usize),
    Not,
    Xor(usize),
    Nand(usize),
    Nor(usize),
    Clock(u128),
    HighConst,
    LowConst,
    Input(usize),
    Output(usize),
    Splitter(usize),
    Joiner(usize),
}

impl Primitive {
    /// The primitive written as Rust writes it for debugging, such as `Not`
    /// or `And(2)`; a clock shows its period.
    pub open spec fn spec_text(self) -> Seq<char> {
        match self {
            Primitive::And(n) => "And("@ + dec_text(n as nat) + ")"@,
            Primitive::Or(n) => "Or("@ + dec_text(n as nat) + ")"@,
            Primitive::Not => "Not"@,
            Primitive::Xor(n) => "Xor("@ + dec_text(n as nat) + ")"@,
            Primitive::Nand(n) => "Nand("@ + dec_text(n as nat) + ")"@,
            Primitive::Nor(n) => "Nor("@ + dec_text(n as nat) + ")"@,
            Primitive::Clock(p) => "Clock("@ + dec_text(p as nat) + ")"@,
            Primitive::HighConst => "HighConst"@,
            Primitive::LowConst => "LowConst"@,
            Primitive::Input(n) => "Input("@ + dec_text(n as nat) + ")"@,
            Primitive::Output(n) => "Output("@ + dec_text(n as nat) + ")"@,
            Primitive::Splitter(n) => "Splitter("@ + dec_text(n as nat) + ")"@,
            Primitive::Joiner(n) => "Joiner("@ + dec_text(n as nat) + ")"@,
        }
    }

    pub fn to_string(&self) -> (s: String)
        ensures
            s@ == self.spec_text(),
    {
        match self {
            Primitive::And(n) => sized("And(", *n),
            Primitive::Or(n) => sized("Or(", *n),
            Primitive::Not => String::from_str("Not"),
            Primitive::Xor(n) => sized("Xor(", *n),
            Primitive::Nand(n) => sized("Nand(", *n),
            Primitive::Nor(n) => sized("Nor(", *n),
            Primitive::Clock(p) => {
                let mut s = String::from_str("Clock(");
                let d = dec_string(*p);
                s.append(d.as_str());
                s.append(")");
                s
            },
            Primitive::HighConst => String::from_str("HighConst"),
            Primitive::LowConst => String::from_str("LowConst"),
            Primitive::Input(n) => sized("Input(", *n),
            Primitive::Output(n) => sized("Output(", *n),
            Primitive::Splitter(n) => sized("Splitter(", *n),
            Primitive::Joiner(n) => sized("Joiner(", *n),
        }
    }
}

fn sized(prefix: &str, n: usize) -> (s: String)
    ensures
        s@ == prefix@ + dec_text(n as nat) + ")"@,
{
    let mut s = String::from_str(prefix);
    let d = dec_string(n as u128);
    s.append(d.as_str());
    s.append(")");
    s
}

/// A sub-component in a declaration: a primitive, or a reference to another
/// declaration by name.
#[derive(Debug)]
pub enum Comp {
    Primitive(Primitive),
    Composite(String),
}

impl Comp {
    /// The primitive a declaration names `name`, with `ins_count` as its
    /// size and `clock_period` as a clock's frequency; none for a name that
    /// is not a primitive's.
    pub open spec fn named_primitive(name: Seq<char>, ins_count: usize, clock_period: u128) -> Option<Primitive> {
        if name == "And"@ {
            Some(Primitive::And(ins_count))
        } else if name == "Or"@ {
            Some(Primitive::Or(ins_count))
        } else if name == "Not"@ {
            Some(Primitive::Not)
        } else if name == "Xor"@ {
            Some(Primitive::Xor(ins_count))
        } else if name == "Nand"@ {
            Some(Primitive::Nand(ins_count))
        } else if name == "Nor"@ {
            Some(Primitive::Nor(ins_count))
        } else if name == "Clock"@ {
            Some(Primitive::Clock(clock_period))
        } else if name == "High"@ {
            Some(Primitive::HighConst)
        } else if name == "Low"@ {
            Some(Primitive::LowConst)
        } else if name == "In"@ {
            Some(Primitive::Input(ins_count))
        } else if name == "Out"@ {
            Some(Primitive::Output(ins_count))
        } else if name == "Splitter"@ {
            Some(Primitive::Splitter(ins_count))
        } else if name == "Joiner"@ {
            Some(Primitive::Joiner(ins_count))
        } else {
            None
        }
    }

    pub fn from_name(name: &str, ins_count: usize, clock_period: u128) -> (c: Self)
        ensures
            match Comp::named_primitive(name@, ins_count, clock_period) {
                Some(p) => c == Comp::Primitive(p),
                None => c matches Comp::Composite(n) && n@ == name@,
            },
    {
        let n = String::from_str(name);
        if n == String::from_str("And") {
            Comp::Primitive(Primitive::And(ins_count))
        } else if n == String::from_str("Or") {
            Comp::Primitive(Primitive::Or(ins_count))
        } else if n == String::from_str("Not") {
            Comp::Primitive(Primitive::Not)
        } else if n == String::from_str("Xor") {
            Comp::Primitive(Primitive::Xor(ins_count))
        } else if n == String::from_str("Nand") {
            Comp::Primitive(Primitive::Nand(ins_count))
        } else if n == String::from_str("Nor") {
            Comp::Primitive(Primitive::Nor(ins_count))
        } else if n == String::from_str("Clock") {
            Comp::Primitive(Primitive::Clock(clock_period))
        } else if n == String::from_str("High") {
            Comp::Primitive(Primitive::HighConst)
        } else if n == String::from_str("Low") {
            Comp::Primitive(Primitive::LowConst)
        } else if n == String::from_str("In") {
            Comp::Primitive(Primitive::Input(ins_count))
        } else if n == String::from_str("Out") {
            Comp::Primitive(Primitive::Output(ins_count))
        } else if n == String::from_str("Splitter") {
            Comp::Primitive(Primitive::Splitter(ins_count))
        } else if n == String::from_str("Joiner") {
            Comp::Primitive(Primitive::Joiner(ins_count))
        } else {
            Comp::Composite(n)
        }
    }

    /// The sub-component is of kind `kind`.
    pub open spec fn spec_is_kind(&self, kind: SubKind) -> bool {
        match kind {
            SubKind::Input => self.spec_is_input(),
            SubKind::Output => self.spec_is_output(),
            SubKind::Any => true,
        }
    }

    pub fn is_kind(&self, kind: SubKind) -> (b: bool)
        ensures
            b == self.spec_is_kind(kind),
    {
        match kind {
            SubKind::Input => self.is_input(),
            SubKind::Output => self.is_output(),
            SubKind::Any => true,
        }
    }

    /// The sub-component is an input primitive.
    pub open spec fn spec_is_input(&self) -> bool {
        self matches Comp::Primitive(Primitive::Input(_))
    }

    /// The sub-component is an output primitive.
    pub open spec fn spec_is_output(&self) -> bool {
        self matches Comp::Primitive(Primitive::Output(_))
    }

    pub fn is_input(&self) -> (b: bool)
        ensures
            b == self.spec_is_input(),
    {
        match self {
            Comp::Primitive(Primitive::Input(_)) => true,
            _ => false,
        }
    }

    pub fn is_output(&self) -> (b: bool)
        ensures
            b == self.spec_is_output(),
    {
        match self {
            Comp::Primitive(Primitive::Output(_)) => true,
            _ => false,
        }
    }
}

/// Which sub-components of a declaration a search takes: its inputs, its
/// outputs, or all of them.
#[derive(Debug, Clone, Copy, PartialEq, Eq, Structural)]
pub enum SubKind {
    Input,
    Output,
    Any,
}

/// A declared sub-component: its name and index, and what it is.
pub type SubDecl = ((String, usize), Comp);

/// A component declaration: its name, its sub-components, the connections
/// of its design, the indices of its input and output sub-components in
/// increasing order, and the position of each input and output by name.
pub struct CompDecl {
    pub name: String,
    pub subc: Vec<SubDecl>,
    pub design: Vec<ConnDecl>,
    pub ins: Vec<usize>,
    pub outs: Vec<usize>,
    pub in_idx_by_name: StringHashMap<usize>,
    pub out_idx_by_name: StringHashMap<usize>,
}

/// No two sub-components of `s` share an index.
pub open spec fn distinct_indices(s: Seq<SubDecl>) -> bool {
    forall|i: int, j: int| 0 <= i < j < s.len() ==> (#[trigger] s[i]).0.1 != (#[trigger] s[j]).0.1
}

/// Some sub-component of `s` with index `x` is of kind `kind`.
pub open spec fn has_port_at(s: Seq<SubDecl>, x: usize, kind: SubKind) -> bool {
    exists|k: int|
        0 <= k < s.len() && (#[trigger] s[k]).0.1 == x && s[k].1.spec_is_kind(kind)
}

/// The indices in `idxs`, from the first, each mapping the name of its
/// sub-component to its position.
pub open spec fn positions_by_name(s: Seq<SubDecl>, idxs: Seq<usize>) -> Map<Seq<char>, usize>
    decreases idxs.len(),
{
    if idxs.len() == 0 {
        Map::empty()
    } else {
        positions_by_name(s, idxs.drop_last()).insert(sub_name(s, idxs.last()), (idxs.len() - 1) as usize)
    }
}

/// Name of the sub-component of `s` with index `x`, when there is one.
pub open spec fn sub_name(s: Seq<SubDecl>, x: usize) -> Seq<char> {
    s[choose|k: int| 0 <= k < s.len() && (#[trigger] s[k]).0.1 == x].0.0@
}

/// `v` lists, in increasing order, the indices of the sub-components of `s`
/// of kind `kind`.
pub open spec fn sorted_ports(s: Seq<SubDecl>, v: Seq<usize>, kind: SubKind) -> bool {
    &&& forall|i: int, j: int| 0 <= i < j < v.len() ==> (#[trigger] v[i]) < (#[trigger] v[j])
    &&& forall|x: usize| v.contains(x) <==> has_port_at(s, x, kind)
}

/// Indices, in increasing order, of the sub-components of `subc` of kind
/// `kind`.
pub fn sorted_port_indices(subc: &Vec<SubDecl>, kind: SubKind) -> (v: Vec<usize>)
    requires
        distinct_indices(subc@),
    ensures
        sorted_ports(subc@, v@, kind),
{
    let mut v: Vec<usize> = Vec::new();
    let mut found = true;
    while found
        invariant
            distinct_indices(subc@),
            forall|i: int, j: int| 0 <= i < j < v@.len() ==> (#[trigger] v@[i]) < (#[trigger] v@[j]),
            forall|x: usize| v@.contains(x) ==> has_port_at(subc@, x, kind),
            forall|x: usize|
                has_port_at(subc@, x, kind) && (v@.len() > 0 && x <= v@.last()) ==> #[trigger] v@.contains(x),
            !found ==> forall|x: usize| has_port_at(subc@, x, kind) ==> #[trigger] v@.contains(x),
            v@.len() <= subc@.len(),
        decreases subc@.len() - v@.len() + (if found { 1int } else { 0int }),
    {
        // The smallest port index above the last one taken.
        let mut best: Option<usize> = None;
        let mut k: usize = 0;
        while k < subc.len()
            invariant
                k <= subc@.len(),
                best matches Some(b) ==> has_port_at(subc@, b, kind) && (v@.len() == 0 || b > v@.last()),
                forall|j: int|
                    #![trigger subc@[j]]
                    0 <= j < k && subc@[j].1.spec_is_kind(kind) && (v@.len() == 0 || subc@[j].0.1 > v@.last())
                        ==> (best.is_some() && best.unwrap() <= subc@[j].0.1),
            decreases subc@.len() - k,
        {
            let ghost best0 = best;
            let is_port = subc[k].1.is_kind(kind);
            let x = subc[k].0.1;
            let above = v.len() == 0 || x > v[v.len() - 1];
            if is_port && above {
                match best {
                    Some(b) => {
                        if x < b {
                            best = Some(x);
                        }
                    },
                    None => {
                        best = Some(x);
                    },
                }
            }
            proof {
                if is_port && above {
                    assert(has_port_at(subc@, x, kind)) by {
                        assert(subc@[k as int].0.1 == x);
                    }
                }
                assert forall|j: int|
                    #![trigger subc@[j]]
                    0 <= j < k + 1 && subc@[j].1.spec_is_kind(kind) && (v@.len() == 0 || subc@[j].0.1 > v@.last())
                        implies best.is_some() && best.unwrap() <= subc@[j].0.1 by {
                    if j == k {
                        assert(subc@[j].0.1 == x);
                        assert(is_port && above);
                    } else {
                        assert(best0.is_some() && best0.unwrap() <= subc@[j].0.1);
                    }
                }
            }
            k = k + 1;
        }
        match best {
            Some(b) => {
                proof {
                    let ghost old_v = v@;
                    assert forall|x: usize| has_port_at(subc@, x, kind) && x <= b implies #[trigger] old_v.push(b).contains(x) by {
                        if x == b {
                            assert(old_v.push(b)[old_v.len() as int] == b);
                        } else {
                            let j = choose|j: int| 0 <= j < subc@.len() && (#[trigger] subc@[j]).0.1 == x && subc@[j].1.spec_is_kind(kind);
                            if old_v.len() == 0 || x > old_v.last() {
                                assert(b <= subc@[j].0.1);
                            } else {
                                assert(old_v.contains(x));
                                let w = choose|w: int| 0 <= w < old_v.len() && old_v[w] == x;
                                assert(old_v.push(b)[w] == x);
                            }
                        }
                    }
                    assert forall|x: usize| #[trigger] old_v.push(b).contains(x) implies has_port_at(subc@, x, kind) by {
                        let w = choose|w: int| 0 <= w < old_v.push(b).len() && old_v.push(b)[w] == x;
                        if w < old_v.len() {
                            assert(old_v.contains(x));
                        }
                    }
                    lemma_sorted_count(subc@, old_v, b, kind);
                }
                v.push(b);
            },
            None => {
                found = false;
                proof {
                    assert forall|x: usize| has_port_at(subc@, x, kind) implies #[trigger] v@.contains(x) by {
                        let j = choose|j: int| 0 <= j < subc@.len() && (#[trigger] subc@[j]).0.1 == x && subc@[j].1.spec_is_kind(kind);
                        if v@.len() > 0 && x > v@.last() {
                            assert(false);
                        }
                    }
                }
            },
        }
    }
    v
}

proof fn lemma_sorted_count(s: Seq<SubDecl>, v: Seq<usize>, b: usize, kind: SubKind)
    requires
        distinct_indices(s),
        forall|i: int, j: int| 0 <= i < j < v.len() ==> (#[trigger] v[i]) < (#[trigger] v[j]),
        forall|x: usize| v.contains(x) ==> has_port_at(s, x, kind),
        has_port_at(s, b, kind),
        v.len() == 0 || b > v.last(),
    ensures
        v.len() + 1 <= s.len(),
{
    // The indices of v.push(b) are distinct indices of sub-components of s.
    let w = v.push(b);
    let idx = s.map_values(|e: SubDecl| e.0.1);
    assert forall|i: int, j: int| 0 <= i < j < w.len() implies (#[trigger] w[i]) < (#[trigger] w[j]) by {
        if j == w.len() - 1 && v.len() > 0 {
            assert(v[i] <= v.last());
        }
    }
    assert(w.no_duplicates()) by {
        assert forall|i: int, j: int| 0 <= i < w.len() && 0 <= j < w.len() && i != j implies w[i] != w[j] by {
            if i < j {
                assert(w[i] < w[j]);
            } else {
                assert(w[j] < w[i]);
            }
        }
    }
    w.unique_seq_to_set();
    assert forall|x: usize| w.to_set().contains(x) implies idx.to_set().contains(x) by {
        let i = choose|i: int| 0 <= i < w.len() && w[i] == x;
        if i < v.len() {
            assert(v.contains(x));
        }
        assert(has_port_at(s, x, kind));
        let k = choose|k: int| 0 <= k < s.len() && (#[trigger] s[k]).0.1 == x && s[k].1.spec_is_kind(kind);
        assert(idx[k] == x);
    }
    broadcast use vstd::seq_lib::seq_to_set_is_finite;
    vstd::set_lib::lemma_len_subset(w.to_set(), idx.to_set());
    idx.lemma_cardinality_of_set();
}

/// Two strictly increasing sequences with the same elements are equal.
proof fn lemma_sorted_unique(a: Seq<usize>, b: Seq<usize>)
    requires
        forall|i: int, j: int| 0 <= i < j < a.len() ==> (#[trigger] a[i]) < (#[trigger] a[j]),
        forall|i: int, j: int| 0 <= i < j < b.len() ==> (#[trigger] b[i]) < (#[trigger] b[j]),
        forall|x: usize| a.contains(x) <==> b.contains(x),
    ensures
        a == b,
    decreases a.len(),
{
    if a.len() == 0 {
        if b.len() > 0 {
            assert(b.contains(b[0]));
        }
    } else if b.len() == 0 {
        assert(a.contains(a[0]));
    } else {
        assert(a.contains(a.last()));
        assert(b.contains(b.last()));
        let ia = choose|i: int| 0 <= i < a.len() && a[i] == b.last();
        let ib = choose|i: int| 0 <= i < b.len() && b[i] == a.last();
        if ia < a.len() - 1 {
            assert(a[ia] < a[a.len() - 1]);
        }
        if ib < b.len() - 1 {
            assert(b[ib] < b[b.len() - 1]);
        }
        assert(a.last() == b.last());
        let a2 = a.drop_last();
        let b2 = b.drop_last();
        assert forall|x: usize| a2.contains(x) <==> b2.contains(x) by {
            if a2.contains(x) {
                let i = choose|i: int| 0 <= i < a2.len() && a2[i] == x;
                assert(a[i] < a[a.len() - 1]);
                assert(b.contains(x));
                let j = choose|j: int| 0 <= j < b.len() && b[j] == x;
                assert(j != b.len() - 1);
                assert(b2[j] == x);
            }
            if b2.contains(x) {
                let i = choose|i: int| 0 <= i < b2.len() && b2[i] == x;
                assert(b[i] < b[b.len() - 1]);
                assert(a.contains(x));
                let j = choose|j: int| 0 <= j < a.len() && a[j] == x;
                assert(j != a.len() - 1);
                assert(a2[j] == x);
            }
        }
        lemma_sorted_unique(a2, b2);
        assert(a =~= a2.push(a.last()));
        assert(b =~= b2.push(b.last()));
    }
}

/// The indices of the sub-components of `s`, in increasing order.
pub open spec fn sub_order(s: Seq<SubDecl>) -> Seq<usize> {
    choose|v: Seq<usize>| sorted_ports(s, v, SubKind::Any)
}

/// `v` is the increasing order of the indices of the sub-components of `s`.
pub proof fn lemma_sub_order(s: Seq<SubDecl>, v: Seq<usize>)
    requires
        sorted_ports(s, v, SubKind::Any),
    ensures
        sub_order(s) == v,
{
    let w = sub_order(s);
    assert(sorted_ports(s, w, SubKind::Any));
    lemma_sorted_unique(w, v);
}

impl CompDecl {
    /// A declaration named `name` with sub-components `subc` (no two with the
    /// same index) and design `design`. Its inputs and outputs are the input
    /// and output sub-components, in increasing index order; the position of
    /// each among them is recorded under its name (the latest one for a name
    /// given twice).
    pub fn new(name: String, subc: Vec<SubDecl>, design: Vec<ConnDecl>) -> (d: Self)
        requires
            distinct_indices(subc@),
        ensures
            d.name@ == name@,
            d.subc@ == subc@,
            d.design@ == design@,
            sorted_ports(subc@, d.ins@, SubKind::Input),
            sorted_ports(subc@, d.outs@, SubKind::Output),
            d.in_idx_by_name@ == positions_by_name(subc@, d.ins@),
            d.out_idx_by_name@ == positions_by_name(subc@, d.outs@),
    {
        let ins = sorted_port_indices(&subc, SubKind::Input);
        let outs = sorted_port_indices(&subc, SubKind::Output);
        let in_idx_by_name = positions_of(&subc, &ins, SubKind::Input);
        let out_idx_by_name = positions_of(&subc, &outs, SubKind::Output);
        CompDecl { name, subc, design, ins, outs, in_idx_by_name, out_idx_by_name }
    }
}

/// Name of the sub-component of `subc` with index `x`, one that `idxs`
/// lists.
fn name_with_index(subc: &Vec<SubDecl>, x: usize, Ghost(kind): Ghost<SubKind>) -> (n: String)
    requires
        has_port_at(subc@, x, kind),
        distinct_indices(subc@),
    ensures
        n@ == sub_name(subc@, x),
{
    let mut k: usize = 0;
    while k < subc.len()
        invariant
            k <= subc@.len(),
            distinct_indices(subc@),
            has_port_at(subc@, x, kind),
            forall|j: int| 0 <= j < k ==> (#[trigger] subc@[j]).0.1 != x,
        decreases subc@.len() - k,
    {
        if subc[k].0.1 == x {
            proof {
                let c = choose|c: int| 0 <= c < subc@.len() && (#[trigger] subc@[c]).0.1 == x;
                if c != k {
                    if c < k {
                        assert(subc@[c].0.1 != subc@[k as int].0.1);
                    } else {
                        assert(subc@[k as int].0.1 != subc@[c].0.1);
                    }
                }
            }
            return subc[k].0.0.clone();
        }
        k = k + 1;
    }
    proof {
        let j = choose|j: int| 0 <= j < subc@.len() && (#[trigger] subc@[j]).0.1 == x && subc@[j].1.spec_is_kind(kind);
        assert(subc@[j].0.1 != x);
    }
    String::new()
}

pub fn positions_of(subc: &Vec<SubDecl>, idxs: &Vec<usize>, kind: SubKind) -> (m: StringHashMap<usize>)
    requires
        distinct_indices(subc@),
        sorted_ports(subc@, idxs@, kind),
    ensures
        m@ == positions_by_name(subc@, idxs@),
{
    let mut m: StringHashMap<usize> = StringHashMap::new();
    let mut i: usize = 0;
    assert(idxs@.take(0) =~= Seq::<usize>::empty());
    while i < idxs.len()
        invariant
            i <= idxs@.len(),
            distinct_indices(subc@),
            sorted_ports(subc@, idxs@, kind),
            m@ == positions_by_name(subc@, idxs@.take(i as int)),
        decreases idxs@.len() - i,
    {
        assert(idxs@.take(i as int + 1).drop_last() =~= idxs@.take(i as int));
        assert(idxs@.contains(idxs@[i as int]));
        let n = name_with_index(subc, idxs[i], Ghost(kind));
        m.insert(n, i);
        i = i + 1;
    }
    assert(idxs@.take(idxs@.len() as int) =~= idxs@);
    m
}

/// A source file: the files it imports and the components it declares.
pub struct Circuit {
    pub imports: Option<Vec<String>>,
    pub comps: Vec<CompDecl>,
}
} // verus!
