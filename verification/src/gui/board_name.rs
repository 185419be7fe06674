use vstd::prelude::*;
use vstd::set_lib::{lemma_int_range, lemma_len_subset, set_int_range};

use crate::text::{dec_string, dec_text, digit_text};

verus! {

/// Name of the untitled board number `k`: `untitled_<k>.lgxb`.
pub open spec fn untitled(k: nat) -> Seq<char> {
    "untitled_"@ + dec_text(k) + ".lgxb"@
}

/// Some name of `names` is `t`.
pub open spec fn names_contain(names: Seq<String>, t: Seq<char>) -> bool {
    exists|i: int| 0 <= i < names.len() && (#[trigger] names[i])@ == t
}

proof fn lemma_digit_text(a: nat, b: nat)
    requires
        a < 10,
        b < 10,
    ensures
        digit_text(a).len() == 1,
        digit_text(a) == digit_text(b) ==> a == b,
{
    reveal_strlit("0");
    reveal_strlit("1");
    reveal_strlit("2");
    reveal_strlit("3");
    reveal_strlit("4");
    reveal_strlit("5");
    reveal_strlit("6");
    reveal_strlit("7");
    reveal_strlit("8");
    reveal_strlit("9");
    if digit_text(a) == digit_text(b) {
        assert(digit_text(a)[0] == digit_text(b)[0]);
    }
}

proof fn lemma_dec_text_len(n: nat)
    ensures
        dec_text(n).len() >= 1,
        n >= 10 ==> dec_text(n).len() >= 2,
    decreases n,
{
    if n < 10 {
        lemma_digit_text(n, n);
    } else {
        lemma_dec_text_len(n / 10);
        lemma_digit_text(n % 10, n % 10);
    }
}

/// Different numbers are written differently.
proof fn lemma_dec_text_injective(a: nat, b: nat)
    requires
        dec_text(a) == dec_text(b),
    ensures
        a == b,
    decreases a,
{
    lemma_dec_text_len(a);
    lemma_dec_text_len(b);
    if a < 10 && b < 10 {
        lemma_digit_text(a, b);
    } else if a >= 10 && b >= 10 {
        let (x, y) = (dec_text(a / 10), dec_text(b / 10));
        let (d, e) = (digit_text(a % 10), digit_text(b % 10));
        lemma_digit_text(a % 10, b % 10);
        lemma_digit_text(b % 10, b % 10);
        assert((x + d).drop_last() =~= x);
        assert((y + e).drop_last() =~= y);
        assert(d =~= e) by {
            assert((x + d).last() == d[0]);
            assert((y + e).last() == e[0]);
        }
        lemma_dec_text_injective(a / 10, b / 10);
    } else {
        lemma_digit_text(a % 10, a % 10);
        lemma_digit_text(b % 10, b % 10);
    }
}

proof fn lemma_untitled_injective(a: nat, b: nat)
    requires
        untitled(a) == untitled(b),
    ensures
        a == b,
{
    reveal_strlit("untitled_");
    reveal_strlit(".lgxb");
    let p = "untitled_"@;
    let s = ".lgxb"@;
    let (x, y) = (dec_text(a), dec_text(b));
    assert((p + x + s).subrange(9, 9 + x.len() as int) =~= x);
    assert((p + y + s).subrange(9, 9 + y.len() as int) =~= y);
    assert(p.len() == 9 && s.len() == 5);
    assert(untitled(a).len() == 9 + x.len() + 5);
    assert(untitled(b).len() == 9 + y.len() + 5);
    assert(x.len() == y.len());
    lemma_dec_text_injective(a, b);
}

/// A list of `n` names holds the names of at most `n` untitled boards.
proof fn lemma_few_untitled(names: Seq<String>, ks: Set<int>)
    requires
        ks.finite(),
        forall|k: int| #[trigger] ks.contains(k) ==> k >= 0 && names_contain(names, untitled(k as nat)),
    ensures
        ks.len() <= names.len(),
    decreases names.len(),
{
    if names.len() == 0 {
        if ks.len() > 0 {
            let k = ks.choose();
            assert(ks.contains(k));
        }
    } else {
        let rest = names.drop_last();
        let last = names.last()@;
        let others = ks.filter(|k: int| untitled(k as nat) != last);
        assert forall|k: int| #[trigger] others.contains(k) implies k >= 0 && names_contain(rest, untitled(k as nat)) by {
            let i = choose|i: int| 0 <= i < names.len() && (#[trigger] names[i])@ == untitled(k as nat);
            assert(i != names.len() - 1);
            assert(rest[i] == names[i]);
        }
        lemma_len_subset(others, ks);
        lemma_few_untitled(rest, others);
        if exists|k: int| ks.contains(k) && untitled(k as nat) == last {
            let k0 = choose|k: int| ks.contains(k) && untitled(k as nat) == last;
            assert(others =~= ks.remove(k0)) by {
                assert forall|k: int| ks.contains(k) && untitled(k as nat) == last implies k == k0 by {
                    lemma_untitled_injective(k as nat, k0 as nat);
                }
            }
        } else {
            assert(others =~= ks);
        }
    }
}

/// The name of board `untitled_<k>.lgxb`.
fn untitled_string(k: usize) -> (s: String)
    ensures
        s@ == untitled(k as nat),
{
    let mut s = String::from_str("untitled_");
    let d = dec_string(k as u128);
    s.append(d.as_str());
    s.append(".lgxb");
    s
}

/// Whether some name of `names` is `name`.
fn contains_name(names: &Vec<String>, name: &String) -> (b: bool)
    ensures
        b == names_contain(names@, name@),
{
    let mut i: usize = 0;
    while i < names.len()
        invariant
            i <= names.len(),
            forall|j: int| 0 <= j < i ==> (#[trigger] names@[j])@ != name@,
        decreases names.len() - i,
    {
        if names[i] == *name {
            return true;
        }
        i = i + 1;
    }
    false
}

/// A name for a new board that none of the names `taken` has:
/// `untitled_<k>.lgxb`, for the least `k` whose name is not taken.
pub fn default_board_name(taken: &Vec<String>) -> (n: String)
    ensures
        exists|k: nat|
            {
                &&& n@ == untitled(k)
                &&& !names_contain(taken@, untitled(k))
                &&& forall|j: nat| j < k ==> names_contain(taken@, #[trigger] untitled(j))
            },
{
    let mut k: usize = 0;
    loop
        invariant
            k <= taken.len(),
            forall|j: nat| j < k ==> names_contain(taken@, #[trigger] untitled(j)),
        decreases taken.len() - k,
    {
        let name = untitled_string(k);
        if !contains_name(taken, &name) {
            proof {
                assert(name@ == untitled(k as nat));
            }
            return name;
        }
        if k == taken.len() {
            proof {
                let ks = set_int_range(0, k as int + 1);
                lemma_int_range(0, k as int + 1);
                assert forall|j: int| #[trigger] ks.contains(j) implies j >= 0 && names_contain(taken@, untitled(j as nat)) by {
                    if j < k {
                        assert(names_contain(taken@, untitled(j as nat)));
                    }
                }
                lemma_few_untitled(taken@, ks);
            }
        }
        k = k + 1;
    }
}

} // verus!
