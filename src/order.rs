//! The total order over contracts: start date, end date, TCV, customer id.
use vstd::prelude::*;
use std::cmp::Ordering;
use crate::contract::Contract;

verus! {

broadcast use vstd::seq_lib::group_to_multiset_ensures;

/// Three-way comparison of two integers.
pub open spec fn int_order(x: int, y: int) -> Ordering {
    if x < y {
        Ordering::Less
    } else if x > y {
        Ordering::Greater
    } else {
        Ordering::Equal
    }
}

/// Lexicographic three-way comparison of two texts, character by character.
pub open spec fn text_order(a: Seq<char>, b: Seq<char>) -> Ordering
    decreases a.len(),
{
    if a.len() == 0 {
        if b.len() == 0 { Ordering::Equal } else { Ordering::Less }
    } else if b.len() == 0 {
        Ordering::Greater
    } else if a[0] != b[0] {
        int_order(a[0] as int, b[0] as int)
    } else {
        text_order(a.drop_first(), b.drop_first())
    }
}

/// The contract order: start date, then end date, then TCV, then customer id.
pub open spec fn contract_order(a: Contract, b: Contract) -> Ordering {
    let s = int_order(a.start_date.day as int, b.start_date.day as int);
    let e = int_order(a.end_date.day as int, b.end_date.day as int);
    let t = int_order(a.tcv as int, b.tcv as int);
    if s != Ordering::Equal {
        s
    } else if e != Ordering::Equal {
        e
    } else if t != Ordering::Equal {
        t
    } else {
        text_order(a.customer_id@, b.customer_id@)
    }
}

/// `a` comes at or before `b` in the contract order.
pub open spec fn contract_le(a: Contract, b: Contract) -> bool {
    contract_order(a, b) != Ordering::Greater
}

/// The contracts stand in the contract order.
pub open spec fn is_sorted(s: Seq<Contract>) -> bool {
    forall|i: int, j: int| 0 <= i < j < s.len() ==> contract_le(#[trigger] s[i], #[trigger] s[j])
}

/// `after` is `before` in the contract order, unchanged where it already was.
pub open spec fn sorts_to(before: Seq<Contract>, after: Seq<Contract>) -> bool {
    &&& is_sorted(after)
    &&& after.to_multiset() == before.to_multiset()
    &&& is_sorted(before) ==> after == before
}

proof fn lemma_text_flip(a: Seq<char>, b: Seq<char>)
    ensures
        text_order(a, b) == Ordering::Less <==> text_order(b, a) == Ordering::Greater,
        text_order(a, b) == Ordering::Equal <==> a == b,
    decreases a.len(),
{
    if a.len() > 0 && b.len() > 0 && a[0] == b[0] {
        lemma_text_flip(a.drop_first(), b.drop_first());
        if a.drop_first() == b.drop_first() {
            assert(a == seq![a[0]] + a.drop_first());
            assert(b == seq![b[0]] + b.drop_first());
        }
        if a == b {
            assert(a.drop_first() == b.drop_first());
        }
    } else if a.len() == 0 && b.len() == 0 {
        assert(a =~= b);
    }
}

proof fn lemma_text_trans(a: Seq<char>, b: Seq<char>, c: Seq<char>)
    requires
        text_order(a, b) != Ordering::Greater,
        text_order(b, c) != Ordering::Greater,
    ensures
        text_order(a, c) != Ordering::Greater,
        text_order(a, b) == Ordering::Less || text_order(b, c) == Ordering::Less
            ==> text_order(a, c) == Ordering::Less,
    decreases a.len(),
{
    if a.len() > 0 && b.len() > 0 && c.len() > 0 && a[0] == b[0] && b[0] == c[0] {
        lemma_text_trans(a.drop_first(), b.drop_first(), c.drop_first());
    }
}

/// The contract order is antisymmetric: `a` before `b` exactly when `b` after
/// `a`, and two contracts are equal in it exactly when all four keys agree.
pub proof fn lemma_order_antisymmetric(a: Contract, b: Contract)
    ensures
        contract_order(a, b) == Ordering::Less <==> contract_order(b, a) == Ordering::Greater,
        contract_order(a, b) == Ordering::Equal <==> {
            &&& a.start_date == b.start_date
            &&& a.end_date == b.end_date
            &&& a.tcv == b.tcv
            &&& a.customer_id@ == b.customer_id@
        },
        contract_le(a, b) || contract_le(b, a),
{
    lemma_text_flip(a.customer_id@, b.customer_id@);
    lemma_text_flip(b.customer_id@, a.customer_id@);
}

/// The contract order is transitive, and strict where either step is strict.
pub proof fn lemma_order_transitive(a: Contract, b: Contract, c: Contract)
    requires
        contract_le(a, b),
        contract_le(b, c),
    ensures
        contract_le(a, c),
        contract_order(a, b) == Ordering::Less || contract_order(b, c) == Ordering::Less
            ==> contract_order(a, c) == Ordering::Less,
{
    if a.start_date == b.start_date && b.start_date == c.start_date && a.end_date == b.end_date
        && b.end_date == c.end_date && a.tcv == b.tcv && b.tcv == c.tcv {
        lemma_text_trans(a.customer_id@, b.customer_id@, c.customer_id@);
    }
}

/// Sorting is idempotent: sorting the result of a sort leaves it unchanged.
pub proof fn lemma_resort_unchanged(input: Seq<Contract>, once: Seq<Contract>, twice: Seq<Contract>)
    requires
        sorts_to(input, once),
        sorts_to(once, twice),
    ensures
        twice == once,
{
}

fn compare_i64(x: i64, y: i64) -> (r: Ordering)
    ensures
        r == int_order(x as int, y as int),
{
    if x < y {
        Ordering::Less
    } else if x > y {
        Ordering::Greater
    } else {
        Ordering::Equal
    }
}

/// Lexicographic comparison of two texts.
pub fn compare_text(a: &str, b: &str) -> (r: Ordering)
    ensures
        r == text_order(a@, b@),
{
    let la = a.unicode_len();
    let lb = b.unicode_len();
    let mut i: usize = 0;
    assert(a@.skip(0) == a@);
    assert(b@.skip(0) == b@);
    while i < la && i < lb
        invariant
            la == a@.len(),
            lb == b@.len(),
            i <= la,
            i <= lb,
            text_order(a@, b@) == text_order(a@.skip(i as int), b@.skip(i as int)),
        decreases la - i,
    {
        let ca = a.get_char(i);
        let cb = b.get_char(i);
        if ca != cb {
            if (ca as u32) < (cb as u32) {
                return Ordering::Less;
            } else {
                return Ordering::Greater;
            }
        }
        assert(a@.skip(i as int).drop_first() == a@.skip(i as int + 1));
        assert(b@.skip(i as int).drop_first() == b@.skip(i as int + 1));
        i = i + 1;
    }
    if i < la {
        Ordering::Greater
    } else if i < lb {
        Ordering::Less
    } else {
        Ordering::Equal
    }
}

impl Contract {
    /// Compares two contracts in the contract order.
    pub fn compare(&self, other: &Contract) -> (r: Ordering)
        ensures
            r == contract_order(*self, *other),
    {
        let s = compare_i64(self.start_date.day as i64, other.start_date.day as i64);
        if !matches!(s, Ordering::Equal) {
            return s;
        }
        let e = compare_i64(self.end_date.day as i64, other.end_date.day as i64);
        if !matches!(e, Ordering::Equal) {
            return e;
        }
        let t = compare_i64(self.tcv, other.tcv);
        if !matches!(t, Ordering::Equal) {
            return t;
        }
        compare_text(self.customer_id.as_str(), other.customer_id.as_str())
    }
}

impl PartialEq for Contract {
    /// Two contracts are equal when the contract order finds them equal.
    fn eq(&self, other: &Contract) -> (r: bool) {
        matches!(self.compare(other), Ordering::Equal)
    }
}

impl vstd::std_specs::cmp::PartialEqSpecImpl for Contract {
    open spec fn obeys_eq_spec() -> bool {
        true
    }

    open spec fn eq_spec(&self, other: &Contract) -> bool {
        contract_order(*self, *other) == Ordering::Equal
    }
}

/// Sorts contracts into the contract order by stable insertion.
pub fn sort_contracts(input: Vec<Contract>) -> (r: Vec<Contract>)
    ensures
        sorts_to(input@, r@),
{
    let ghost orig = input@;
    let n = input.len();
    let mut rest = input;
    let mut out: Vec<Contract> = Vec::new();
    let mut i: usize = 0;
    while i < n
        invariant
            n == orig.len(),
            i <= n,
            rest@ == orig.skip(i as int),
            is_sorted(out@),
            out@.to_multiset() == orig.take(i as int).to_multiset(),
            is_sorted(orig) ==> out@ == orig.take(i as int),
        decreases n - i,
    {
        let c = rest.remove(0);
        assert(c == orig[i as int]);
        assert(rest@ == orig.skip(i as int + 1));
        let mut pos = out.len();
        while pos > 0 && matches!(out[pos - 1].compare(&c), Ordering::Greater)
            invariant
                pos <= out@.len(),
                forall|k: int| pos <= k < out@.len() ==> contract_order(#[trigger] out@[k], c) == Ordering::Greater,
            decreases pos,
        {
            pos = pos - 1;
        }
        proof {
            let s = out@;
            if pos > 0 {
                lemma_order_antisymmetric(s[pos - 1], c);
            }
            assert forall|a: int, b: int| 0 <= a < b < s.len() + 1 implies
                contract_le(#[trigger] s.insert(pos as int, c)[a], #[trigger] s.insert(pos as int, c)[b]) by {
                let t = s.insert(pos as int, c);
                if a < pos && b == pos {
                    if a < pos - 1 {
                        lemma_order_transitive(s[a], s[pos - 1], c);
                    }
                } else if a == pos && b > pos {
                    lemma_order_antisymmetric(s[b - 1], c);
                } else if a < pos && b > pos {
                    assert(contract_le(s[a], s[b - 1]));
                }
            }
            assert(orig.take(i as int + 1) == orig.take(i as int).push(c));
            if is_sorted(orig) {
                if pos < s.len() {
                    assert(contract_le(orig[pos as int], orig[i as int]));
                    assert(s[pos as int] == orig[pos as int]);
                    assert(false);
                }
                assert(s.insert(pos as int, c) == s.push(c));
            }
        }
        out.insert(pos, c);
        i = i + 1;
    }
    assert(orig.take(n as int) == orig);
    out
}

} // verus!
