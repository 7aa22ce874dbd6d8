//! Analyzed transactions: what the partitioner knows about each transaction
//! in a block — its sender and upper bounds on the storage locations it
//! reads and writes — and the conflict relation between two transactions.

use vstd::prelude::*;

verus! {

/// One analyzed transaction. Storage locations are carried as identifiers;
/// the hint sets are upper bounds on what the transaction touches.
#[derive(Clone, PartialEq, Eq, Hash, Debug)]
pub struct AnalyzedTransaction {
    sender: Option<u64>,
    read_hints: Vec<u64>,
    write_hints: Vec<u64>,
}

impl AnalyzedTransaction {
    /// The sender's account, where the transaction has one.
    pub closed spec fn spec_sender(self) -> Option<u64> {
        self.sender
    }

    /// Locations the transaction may read.
    pub closed spec fn reads(self) -> Seq<u64> {
        self.read_hints@
    }

    /// Locations the transaction may write.
    pub closed spec fn writes(self) -> Seq<u64> {
        self.write_hints@
    }

    pub fn new(sender: Option<u64>, read_hints: Vec<u64>, write_hints: Vec<u64>) -> (r:
        AnalyzedTransaction)
        ensures
            r.spec_sender() == sender,
            r.reads() == read_hints@,
            r.writes() == write_hints@,
    {
        AnalyzedTransaction { sender, read_hints, write_hints }
    }

    pub fn get_sender(&self) -> (r: Option<u64>)
        ensures
            r == self.spec_sender(),
    {
        self.sender
    }

    pub fn read_hints(&self) -> (r: &Vec<u64>)
        ensures
            r@ == self.reads(),
    {
        &self.read_hints
    }

    pub fn write_hints(&self) -> (r: &Vec<u64>)
        ensures
            r@ == self.writes(),
    {
        &self.write_hints
    }

    /// Whether this transaction's writes touch anything `other` reads or
    /// writes, or the other way round.
    pub fn conflicts_with(&self, other: &AnalyzedTransaction) -> (r: bool)
        ensures
            r == conflict(*self, *other),
    {
        let a = writes_into_exec(self, other);
        let b = writes_into_exec(other, self);
        a || b
    }
}

/// A write of `a` lands on a location `b` reads or writes.
pub open spec fn writes_into(a: AnalyzedTransaction, b: AnalyzedTransaction) -> bool {
    exists|loc: u64|
        #![auto]
        a.writes().contains(loc) && (b.reads().contains(loc) || b.writes().contains(loc))
}

/// Two transactions conflict when either one's writes touch the other's
/// reads or writes.
pub open spec fn conflict(a: AnalyzedTransaction, b: AnalyzedTransaction) -> bool {
    writes_into(a, b) || writes_into(b, a)
}

/// The conflict relation is symmetric.
pub proof fn lemma_conflict_symmetric(a: AnalyzedTransaction, b: AnalyzedTransaction)
    ensures
        conflict(a, b) == conflict(b, a),
{
}

/// Whether `x` occurs in `v`.
fn location_listed(v: &Vec<u64>, x: u64) -> (r: bool)
    ensures
        r == v@.contains(x),
{
    let mut i: usize = 0;
    while i < v.len()
        invariant
            i <= v@.len(),
            forall|k: int| 0 <= k < i ==> v@[k] != x,
        decreases v@.len() - i,
    {
        if v[i] == x {
            return true;
        }
        i += 1;
    }
    false
}

fn writes_into_exec(a: &AnalyzedTransaction, b: &AnalyzedTransaction) -> (r: bool)
    ensures
        r == writes_into(*a, *b),
{
    let writes = &a.write_hints;
    let mut i: usize = 0;
    while i < writes.len()
        invariant
            i <= writes@.len(),
            writes@ == a.writes(),
            forall|k: int|
                0 <= k < i ==> !(b.reads().contains(#[trigger] writes@[k]) || b.writes().contains(
                    writes@[k],
                )),
        decreases writes@.len() - i,
    {
        let loc = writes[i];
        if location_listed(&b.read_hints, loc) || location_listed(&b.write_hints, loc) {
            proof {
                assert(a.writes()[i as int] == loc);
                assert(a.writes().contains(loc));
            }
            return true;
        }
        i += 1;
    }
    proof {
        assert forall|loc: u64|
            a.writes().contains(loc) implies !(b.reads().contains(loc) || b.writes().contains(
            loc,
        )) by {
            let k = choose|k: int| 0 <= k < a.writes().len() && a.writes()[k] == loc;
            assert(writes@[k] == loc);
        }
    }
    false
}

} // verus!
