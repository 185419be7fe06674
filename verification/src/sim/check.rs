use vstd::prelude::*;

use crate::circuit::{Circuit, circuits_leaves, lemma_circuits_depth_bound};
use super::flatten::flat_safe;
use super::primitives::primitive::Primitive;
use super::reindex::{fix_safe, input_kids, nth_input_kid, out_count, reindex_safe};

verus! {

/// Number of input primitives among `kids`.
pub fn input_kid_count(kids: &Vec<Circuit>) -> (r: usize)
    ensures
        r as int == input_kids(kids@).len(),
{
    let mut n: usize = 0;
    let mut k: usize = 0;
    assert(kids@.take(0) =~= Seq::<Circuit>::empty());
    while k < kids.len()
        invariant
            k <= kids.len(),
            n as int == input_kids(kids@.take(k as int)).len(),
            n <= k,
        decreases kids.len() - k,
    {
        proof {
            assert(kids@.take(k as int + 1).drop_last() =~= kids@.take(k as int));
            assert(kids@.take(k as int + 1).last() == kids@[k as int]);
        }
        match kids[k].extra.primitive {
            Some(Primitive::Input { .. }) => {
                n = n + 1;
            },
            _ => {},
        }
        k = k + 1;
    }
    proof {
        assert(kids@.take(kids.len() as int) =~= kids@);
    }
    n
}

fn out_count_of(c: &Circuit) -> (r: usize)
    ensures
        r as nat == out_count(*c),
{
    match &c.sub {
        Some(s) => s.out_addrs.len(),
        None => c.outputs,
    }
}

/// Whether `c` can be flattened: every address inside it points at what is
/// there, sub-components are told apart by their ids, and each primitive
/// knows its kind (see `reindex_safe`, `fix_safe` and `flat_safe`).
#[verifier::loop_isolation(false)]
pub fn flat_ready(c: &Circuit) -> (b: bool)
    ensures
        b == (reindex_safe(*c) && fix_safe(*c) && flat_safe(*c)),
    decreases c.depth(),
{
    match &c.sub {
        None => match c.extra.primitive {
            Some(Primitive::Const { value }) => (value.size as u32) <= usize::BITS,
            Some(_) => true,
            None => false,
        },
        Some(sub) => {
            let kids = &sub.components;
            let n = kids.len();
            let mut k: usize = 0;
            while k < n
                invariant
                    c.sub == Some(*sub),
                    n == kids@.len(),
                    k <= n,
                    forall|j: int|
                        0 <= j < k ==> reindex_safe(#[trigger] kids@[j]) && fix_safe(kids@[j]) && flat_safe(
                            kids@[j],
                        ),
                decreases n - k,
            {
                proof {
                    lemma_circuits_depth_bound(kids@, k as int);
                }
                if !flat_ready(&kids[k]) {
                    return false;
                }
                k = k + 1;
            }
            let mut j: usize = 0;
            while j < n
                invariant
                    n == kids@.len(),
                    j <= n,
                    forall|a: int, b: int| 0 <= a < j && a < b < n ==> #[trigger] kids@[a].id != #[trigger] kids@[b].id,
                decreases n - j,
            {
                let mut q: usize = j + 1;
                while q < n
                    invariant
                        n == kids@.len(),
                        j < n,
                        j < q <= n,
                        forall|a: int, b: int| 0 <= a < j && a < b < n ==> #[trigger] kids@[a].id != #[trigger] kids@[b].id,
                        forall|b: int| j < b < q ==> kids@[j as int].id != #[trigger] kids@[b].id,
                    decreases n - q,
                {
                    if kids[j].id == kids[q].id {
                        return false;
                    }
                    q = q + 1;
                }
                j = j + 1;
            }
            let conns = &sub.connections;
            let mut i: usize = 0;
            while i < conns.len()
                invariant
                    n == kids@.len(),
                    i <= conns@.len(),
                    forall|t: int|
                        0 <= t < i ==> {
                            let cn = #[trigger] conns@[t];
                            &&& cn.from.0 < n && cn.to.0 < n
                            &&& cn.from.1 < out_count(kids@[cn.from.0 as int])
                            &&& (kids@[cn.to.0 as int].sub matches Some(ts) ==> {
                                let ik = input_kids(ts.components@);
                                &&& cn.to.1 < ik.len()
                                &&& 0 <= ik[cn.to.1 as int] < ts.components@.len()
                                &&& ts.components@[ik[cn.to.1 as int]].sub is None
                                &&& ts.components@[ik[cn.to.1 as int]].outputs > 0
                            })
                        },
                decreases conns@.len() - i,
            {
                let cn = conns[i];
                if cn.from.0 >= n || cn.to.0 >= n {
                    return false;
                }
                if cn.from.1 >= out_count_of(&kids[cn.from.0]) {
                    return false;
                }
                match &kids[cn.to.0].sub {
                    Some(ts) => {
                        let m = input_kid_count(&ts.components);
                        if cn.to.1 >= m {
                            return false;
                        }
                        let q = nth_input_kid(&ts.components, cn.to.1);
                        if ts.components[q].sub.is_some() || ts.components[q].outputs == 0 {
                            return false;
                        }
                    },
                    None => {},
                }
                i = i + 1;
            }
            let ins = &sub.in_addrs;
            let mut i: usize = 0;
            while i < ins.len()
                invariant
                    n == kids@.len(),
                    i <= ins@.len(),
                    forall|t: int| 0 <= t < i ==> {
                        let b = #[trigger] ins@[t];
                        b.1.0 < n && b.0 < usize::MAX
                    },
                decreases ins@.len() - i,
            {
                let b = ins[i];
                if b.1.0 >= n || b.0 == usize::MAX {
                    return false;
                }
                i = i + 1;
            }
            let outs = &sub.out_addrs;
            let mut i: usize = 0;
            while i < outs.len()
                invariant
                    n == kids@.len(),
                    i <= outs@.len(),
                    forall|t: int| 0 <= t < i ==> {
                        let p = #[trigger] outs@[t];
                        &&& p.0 < n
                        &&& (kids@[p.0 as int].sub matches Some(ks) ==> p.1 < ks.out_addrs@.len())
                    },
                decreases outs@.len() - i,
            {
                let p = outs[i];
                if p.0 >= n {
                    return false;
                }
                match &kids[p.0].sub {
                    Some(ks) => {
                        if p.1 >= ks.out_addrs.len() {
                            return false;
                        }
                    },
                    None => {},
                }
                i = i + 1;
            }
            true
        },
    }
}

/// The number of primitives inside `c`, when it fits in `usize`.
#[verifier::loop_isolation(false)]
pub fn leaf_count(c: &Circuit) -> (r: Option<usize>)
    ensures
        match r {
            Some(n) => n as nat == c.leaves(),
            None => c.leaves() > usize::MAX,
        },
    decreases c.depth(),
{
    match &c.sub {
        None => Some(1),
        Some(sub) => {
            let kids = &sub.components;
            let mut total: usize = 0;
            let mut k: usize = 0;
            assert(kids@.take(0) =~= Seq::<Circuit>::empty());
            while k < kids.len()
                invariant
                    c.sub == Some(*sub),
                    k <= kids@.len(),
                    total as nat == circuits_leaves(kids@.take(k as int)),
                decreases kids@.len() - k,
            {
                proof {
                    lemma_circuits_depth_bound(kids@, k as int);
                    assert(kids@.take(k as int + 1).drop_last() =~= kids@.take(k as int));
                    assert(kids@.take(k as int + 1).last() == kids@[k as int]);
                    lemma_leaves_prefix(kids@, k as int + 1);
                }
                match leaf_count(&kids[k]) {
                    Some(m) => match total.checked_add(m) {
                        Some(t) => {
                            total = t;
                        },
                        None => {
                            return None;
                        },
                    },
                    None => {
                        return None;
                    },
                }
                k = k + 1;
            }
            proof {
                assert(kids@.take(kids@.len() as int) =~= kids@);
            }
            Some(total)
        },
    }
}

/// A prefix of `s` holds no more primitives than `s`.
proof fn lemma_leaves_prefix(s: Seq<Circuit>, k: int)
    requires
        0 <= k <= s.len(),
    ensures
        circuits_leaves(s.take(k)) <= circuits_leaves(s),
    decreases s.len() - k,
{
    if k < s.len() {
        assert(s.drop_last().take(k) =~= s.take(k));
        lemma_leaves_prefix(s.drop_last(), k);
    } else {
        assert(s.take(k) =~= s);
    }
}

} // verus!
