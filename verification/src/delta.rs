//! Deltas: commutative numeric updates over an unsigned value with a
//! saturation ceiling. A delta can be applied to any base value and composes
//! with other deltas; when every application stays within bounds, the
//! materialized result does not depend on the order of application.

use vstd::prelude::*;

verus! {

/// Direction and amount of a delta.
#[derive(Clone, Copy, PartialEq, Eq, Structural, Debug)]
pub enum DeltaUpdate {
    /// Add this amount.
    Plus(u128),
    /// Subtract this amount.
    Minus(u128),
}

/// A commutative numeric update with a saturation ceiling: adding past
/// `limit`, or subtracting below zero, is a failed application.
#[derive(Clone, Copy, PartialEq, Eq, Structural, Debug)]
pub struct DeltaOp {
    pub update: DeltaUpdate,
    /// Ceiling that the updated value may not exceed.
    pub limit: u128,
}

impl DeltaOp {
    /// Signed amount of this delta.
    pub open spec fn signed(self) -> int {
        match self.update {
            DeltaUpdate::Plus(a) => a as int,
            DeltaUpdate::Minus(a) => -(a as int),
        }
    }

    /// Applying this delta to `base`: `None` when the result would exceed the
    /// ceiling or fall below zero.
    pub open spec fn apply_spec(self, base: int) -> Option<int> {
        match self.update {
            DeltaUpdate::Plus(a) => {
                if base + a <= self.limit {
                    Some(base + a)
                } else {
                    None
                }
            },
            DeltaUpdate::Minus(a) => {
                if a <= base {
                    Some(base - a)
                } else {
                    None
                }
            },
        }
    }

    /// Apply this delta to a base value, checking the bounds.
    pub fn apply(self, base: u128) -> (r: Option<u128>)
        ensures
            self.apply_spec(base as int) matches Some(v) ==> r == Some(v as u128) && 0 <= v
                <= u128::MAX,
            self.apply_spec(base as int) is None ==> r is None,
    {
        match self.update {
            DeltaUpdate::Plus(a) => {
                if a <= self.limit && base <= self.limit - a {
                    Some(base + a)
                } else {
                    None
                }
            },
            DeltaUpdate::Minus(a) => {
                if a <= base {
                    Some(base - a)
                } else {
                    None
                }
            },
        }
    }
}

/// Result of applying `deltas`, first to last, to `base`; `None` as soon as
/// one application leaves its bounds.
pub open spec fn apply_all(base: int, deltas: Seq<DeltaOp>) -> Option<int>
    decreases deltas.len(),
{
    if deltas.len() == 0 {
        Some(base)
    } else {
        match deltas.first().apply_spec(base) {
            Some(v) => apply_all(v, deltas.drop_first()),
            None => None,
        }
    }
}

/// Exact signed sum of the amounts of `deltas`.
pub open spec fn net(deltas: Seq<DeltaOp>) -> int
    decreases deltas.len(),
{
    if deltas.len() == 0 {
        0
    } else {
        deltas.first().signed() + net(deltas.drop_first())
    }
}

/// Running signed sum of `deltas` starting from `cur`; `None` as soon as the
/// running sum leaves the range a `u128` magnitude can carry.
pub open spec fn net_acc(cur: int, deltas: Seq<DeltaOp>) -> Option<int>
    decreases deltas.len(),
{
    if deltas.len() == 0 {
        Some(cur)
    } else {
        let n = cur + deltas.first().signed();
        if -(u128::MAX as int) <= n <= u128::MAX as int {
            net_acc(n, deltas.drop_first())
        } else {
            None
        }
    }
}

/// A successful application is exact arithmetic: the result is the base plus
/// the signed sum of the deltas.
pub proof fn lemma_apply_all_net(base: int, deltas: Seq<DeltaOp>)
    requires
        apply_all(base, deltas) is Some,
    ensures
        apply_all(base, deltas) == Some(base + net(deltas)),
    decreases deltas.len(),
{
    if deltas.len() > 0 {
        let v = deltas.first().apply_spec(base)->Some_0;
        lemma_apply_all_net(v, deltas.drop_first());
    }
}

/// The signed sum distributes over removing one element.
proof fn lemma_net_remove(deltas: Seq<DeltaOp>, i: int)
    requires
        0 <= i < deltas.len(),
    ensures
        net(deltas) == deltas[i].signed() + net(deltas.remove(i)),
    decreases deltas.len(),
{
    if i == 0 {
        assert(deltas.remove(0) =~= deltas.drop_first());
    } else {
        lemma_net_remove(deltas.drop_first(), i - 1);
        assert(deltas.remove(i).drop_first() =~= deltas.drop_first().remove(i - 1));
        assert(deltas.remove(i).first() == deltas.first());
    }
}

/// The signed sum depends only on which deltas occur, not on their order.
pub proof fn lemma_net_permutation(s1: Seq<DeltaOp>, s2: Seq<DeltaOp>)
    requires
        s1.to_multiset() == s2.to_multiset(),
    ensures
        net(s1) == net(s2),
    decreases s1.len(),
{
    broadcast use vstd::seq_lib::group_to_multiset_ensures;

    if s1.len() == 0 {
        assert(s2.to_multiset().len() == 0);
    } else {
        let x = s1.first();
        assert(s1.to_multiset().count(x) > 0);
        assert(s2.to_multiset().count(x) > 0);
        assert(s2.contains(x));
        let i = choose|i: int| 0 <= i < s2.len() && s2[i] == x;
        lemma_net_remove(s2, i);
        assert(s1.remove(0).to_multiset() =~= s1.to_multiset().remove(x));
        assert(s2.remove(i).to_multiset() =~= s2.to_multiset().remove(x));
        assert(s1.remove(0) =~= s1.drop_first());
        lemma_net_permutation(s1.drop_first(), s2.remove(i));
    }
}

/// Delta commutativity: a set of deltas applied to a base yields the same
/// materialized value in any order of application, provided every
/// application stays within bounds.
pub proof fn lemma_delta_commutativity(base: int, s1: Seq<DeltaOp>, s2: Seq<DeltaOp>)
    requires
        s1.to_multiset() == s2.to_multiset(),
        apply_all(base, s1) is Some,
        apply_all(base, s2) is Some,
    ensures
        apply_all(base, s1) == apply_all(base, s2),
{
    lemma_apply_all_net(base, s1);
    lemma_apply_all_net(base, s2);
    lemma_net_permutation(s1, s2);
}

} // verus!
