use vstd::prelude::*;

verus! {

/// The kinds of primitive components.
#[derive(Debug, Clone, Copy, PartialEq, Eq, Structural)]
pub enum Primitive {
    NotGate,
    AndGate,
    OrGate,
    NandGate,
    NorGate,
    XorGate,
    Clock,
    ConstOne,
    ConstZero,
}

/// No primitive has the name that was asked for.
#[derive(Debug, Clone, Copy, PartialEq, Eq, Structural)]
pub struct PrimitiveNotFound;

/// Every primitive, in the order of the enum.
pub open spec fn all_primitives() -> Seq<Primitive> {
    seq![
        Primitive::NotGate,
        Primitive::AndGate,
        Primitive::OrGate,
        Primitive::NandGate,
        Primitive::NorGate,
        Primitive::XorGate,
        Primitive::Clock,
        Primitive::ConstOne,
        Primitive::ConstZero,
    ]
}

/// Every primitive, in the order of the enum.
pub fn primitives() -> (v: Vec<Primitive>)
    ensures
        v@ == all_primitives(),
{
    let v: Vec<Primitive> = vec![
        Primitive::NotGate,
        Primitive::AndGate,
        Primitive::OrGate,
        Primitive::NandGate,
        Primitive::NorGate,
        Primitive::XorGate,
        Primitive::Clock,
        Primitive::ConstOne,
        Primitive::ConstZero,
    ];
    assert(v@ =~= all_primitives());
    v
}

impl Primitive {
    /// The name of a primitive: the name of its variant.
    pub open spec fn text(self) -> Seq<char> {
        match self {
            Primitive::NotGate => "NotGate"@,
            Primitive::AndGate => "AndGate"@,
            Primitive::OrGate => "OrGate"@,
            Primitive::NandGate => "NandGate"@,
            Primitive::NorGate => "NorGate"@,
            Primitive::XorGate => "XorGate"@,
            Primitive::Clock => "Clock"@,
            Primitive::ConstOne => "ConstOne"@,
            Primitive::ConstZero => "ConstZero"@,
        }
    }

    pub fn to_string(&self) -> (s: String)
        ensures
            s@ == self.text(),
    {
        match self {
            Primitive::NotGate => String::from_str("NotGate"),
            Primitive::AndGate => String::from_str("AndGate"),
            Primitive::OrGate => String::from_str("OrGate"),
            Primitive::NandGate => String::from_str("NandGate"),
            Primitive::NorGate => String::from_str("NorGate"),
            Primitive::XorGate => String::from_str("XorGate"),
            Primitive::Clock => String::from_str("Clock"),
            Primitive::ConstOne => String::from_str("ConstOne"),
            Primitive::ConstZero => String::from_str("ConstZero"),
        }
    }

    /// The primitive whose name is `name`; `PrimitiveNotFound` when no
    /// primitive has that name.
    pub fn from_name(name: &str) -> (r: Result<Primitive, PrimitiveNotFound>)
        ensures
            match r {
                Ok(p) => p.text() == name@,
                Err(_) => forall|q: Primitive| #[trigger] q.text() != name@,
            },
    {
        let prims = primitives();
        let wanted = String::from_str(name);
        let mut k: usize = 0;
        while k < prims.len()
            invariant
                k <= prims.len(),
                prims@ == all_primitives(),
                wanted@ == name@,
                forall|j: int| 0 <= j < k ==> (#[trigger] prims@[j]).text() != name@,
            decreases prims.len() - k,
        {
            let p = prims[k];
            if wanted == p.to_string() {
                return Ok(p);
            }
            k = k + 1;
        }
        proof {
            assert forall|q: Primitive| #[trigger] q.text() != name@ by {
                lemma_index_of_primitive(q);
            }
        }
        Err(PrimitiveNotFound)
    }
}

/// Two primitives with the same name are the same primitive.
pub proof fn lemma_primitive_names_distinct(p: Primitive, q: Primitive)
    ensures
        p.text() == q.text() ==> p == q,
{
    reveal_strlit("NotGate");
    reveal_strlit("AndGate");
    reveal_strlit("OrGate");
    reveal_strlit("NandGate");
    reveal_strlit("NorGate");
    reveal_strlit("XorGate");
    reveal_strlit("Clock");
    reveal_strlit("ConstOne");
    reveal_strlit("ConstZero");
    if p.text() == q.text() && p != q {
        let (a, b) = (p.text(), q.text());
        assert(a.len() != b.len() || a[0] != b[0] || a[2] != b[2]);
    }
}

proof fn lemma_index_of_primitive(p: Primitive)
    ensures
        0 <= all_primitives().index_of(p) < 9,
        all_primitives()[all_primitives().index_of(p)] == p,
{
    let s = all_primitives();
    let i: int = match p {
        Primitive::NotGate => 0,
        Primitive::AndGate => 1,
        Primitive::OrGate => 2,
        Primitive::NandGate => 3,
        Primitive::NorGate => 4,
        Primitive::XorGate => 5,
        Primitive::Clock => 6,
        Primitive::ConstOne => 7,
        Primitive::ConstZero => 8,
    };
    assert(s[i] == p);
    assert(s.contains(p));
}

} // verus!
