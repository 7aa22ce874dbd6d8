//! Dependency-aware uniform partitioner: assign each transaction of a block
//! to a shard by positional chunking, and accept it only when its conflicts
//! stay within its own shard.
//!
//! The decision runs in three passes. A reverse scan keeps a transaction
//! unless a conflicting neighbour in another shard still constrains it —
//! scanning backwards prefers the earlier, more valuable transactions. A
//! forward scan then quarantines senders: once one transaction of a sender
//! is discarded, every later transaction of that sender is discarded too,
//! preserving nonce order. Finally the transactions are bucketed per shard,
//! accepted and rejected apart, in their original order.

use crate::dependency_graph::DependencyGraph;
use crate::transaction::{conflict, AnalyzedTransaction};
use std::collections::HashMap;
use vstd::prelude::*;

verus! {

broadcast use vstd::std_specs::hash::group_hash_axioms;

/// How many positions each shard takes: the shard count divides the block
/// length rounded upward.
pub open spec fn chunk_size(n: int, num_shards: int) -> int {
    if n % num_shards == 0 {
        n / num_shards
    } else {
        n / num_shards + 1
    }
}

/// The shard of position `i` under chunking width `chunk`.
pub open spec fn shard_of(chunk: int, i: int) -> int {
    i / chunk
}

/// The shard a block position belongs to.
pub fn get_shard_for_index(txns_per_shard: usize, index: usize) -> (r: usize)
    requires
        txns_per_shard >= 1,
    ensures
        r == shard_of(txns_per_shard as int, index as int),
{
    index / txns_per_shard
}

/// Status of position `i` after the reverse scan: discarded exactly when a
/// conflicting neighbour in another shard still constrains it. Every earlier
/// neighbour constrains (its own status is not yet decided when `i` is
/// scanned); a later neighbour constrains unless it was itself discarded
/// first, in which case it no longer occupies its shard.
pub open spec fn discarded_in_reverse_pass(
    txns: Seq<AnalyzedTransaction>,
    chunk: int,
    i: int,
) -> bool
    decreases txns.len() - i,
{
    ||| exists|j: int|
        0 <= j < i && #[trigger] conflict(txns[i], txns[j]) && shard_of(chunk, j) != shard_of(
            chunk,
            i,
        )
    ||| exists|j: int|
        i < j < txns.len() && #[trigger] conflict(txns[i], txns[j]) && shard_of(chunk, j)
            != shard_of(chunk, i) && !discarded_in_reverse_pass(txns, chunk, j)
}

/// Final status of position `i`, after the forward sender pass: discarded
/// when the reverse scan discarded it, or when any earlier transaction of
/// the same sender ended up discarded. Transactions without a sender are
/// exempt from the quarantine.
pub open spec fn discarded_final(txns: Seq<AnalyzedTransaction>, chunk: int, i: int) -> bool
    decreases i, 1int,
{
    discarded_in_reverse_pass(txns, chunk, i) || sender_poisoned(txns, chunk, i)
}

/// An earlier transaction of the same sender ended up discarded.
pub open spec fn sender_poisoned(txns: Seq<AnalyzedTransaction>, chunk: int, i: int) -> bool
    decreases i, 0int,
{
    exists|j: int|
        0 <= j < i && discarded_final(txns, chunk, j) && #[trigger] txns[j].spec_sender()
            == txns[i].spec_sender() && txns[i].spec_sender() is Some
}

/// The transactions of positions below `n` that land in shard `s` with the
/// given final status, in block order.
pub open spec fn bucket_upto(
    txns: Seq<AnalyzedTransaction>,
    chunk: int,
    s: int,
    want_discarded: bool,
    n: int,
) -> Seq<AnalyzedTransaction>
    decreases n,
{
    if n <= 0 {
        Seq::empty()
    } else {
        let prev = bucket_upto(txns, chunk, s, want_discarded, n - 1);
        if shard_of(chunk, n - 1) == s && discarded_final(txns, chunk, n - 1) == want_discarded {
            prev.push(txns[n - 1])
        } else {
            prev
        }
    }
}

/// The transactions of shard `s` with the given final status, in block order.
pub open spec fn bucket(
    txns: Seq<AnalyzedTransaction>,
    chunk: int,
    s: int,
    want_discarded: bool,
) -> Seq<AnalyzedTransaction> {
    bucket_upto(txns, chunk, s, want_discarded, txns.len() as int)
}

/// What the partitioner returns: shard-indexed multimaps of the accepted and
/// the rejected transactions. A shard holds exactly its bucket, and shards
/// with an empty bucket are omitted.
pub open spec fn partition_post(
    txns: Seq<AnalyzedTransaction>,
    num_shards: int,
    accepted: Map<usize, Vec<AnalyzedTransaction>>,
    rejected: Map<usize, Vec<AnalyzedTransaction>>,
) -> bool {
    let chunk = chunk_size(txns.len() as int, num_shards);
    &&& forall|s: usize|
        #[trigger] accepted.contains_key(s) <==> bucket(txns, chunk, s as int, false).len() > 0
    &&& forall|s: usize|
        #[trigger] accepted.contains_key(s) ==> accepted[s]@ == bucket(txns, chunk, s as int, false)
    &&& forall|s: usize|
        #[trigger] rejected.contains_key(s) <==> bucket(txns, chunk, s as int, true).len() > 0
    &&& forall|s: usize|
        #[trigger] rejected.contains_key(s) ==> rejected[s]@ == bucket(txns, chunk, s as int, true)
}

/// The running state of the bucketing pass: a list of `(shard, bucket)`
/// pairs with strictly increasing shard keys, holding for every shard with a
/// non-empty bucket over the first `upto` positions exactly that bucket.
spec fn bucket_list_ok(
    list: Seq<(usize, Vec<AnalyzedTransaction>)>,
    txns: Seq<AnalyzedTransaction>,
    chunk: int,
    want_discarded: bool,
    upto: int,
) -> bool {
    &&& forall|p: int, p2: int|
        0 <= p < p2 < list.len() ==> (#[trigger] list[p]).0 < (#[trigger] list[p2]).0
    &&& forall|p: int|
        0 <= p < list.len() ==> (#[trigger] list[p]).1@ == bucket_upto(
            txns,
            chunk,
            list[p].0 as int,
            want_discarded,
            upto,
        ) && list[p].1@.len() > 0
    &&& forall|s: usize|
        #[trigger] bucket_upto(txns, chunk, s as int, want_discarded, upto).len() > 0
            <==> exists|p: int| 0 <= p < list.len() && (#[trigger] list[p]).0 == s
}

/// Append `txn` to the bucket of shard `s`, which is the last of the list or
/// a fresh one past it.
fn push_bucket(list: &mut Vec<(usize, Vec<AnalyzedTransaction>)>, s: usize, txn: AnalyzedTransaction)
    requires
        old(list)@.len() > 0 ==> old(list)@.last().0 <= s,
    ensures
        (old(list)@.len() > 0 && old(list)@.last().0 == s) ==> {
            &&& final(list)@.len() == old(list)@.len()
            &&& forall|p: int| 0 <= p < old(list)@.len() - 1 ==> final(list)@[p] == old(list)@[p]
            &&& final(list)@.last().0 == s
            &&& final(list)@.last().1@ == old(list)@.last().1@.push(txn)
        },
        !(old(list)@.len() > 0 && old(list)@.last().0 == s) ==> {
            &&& final(list)@.len() == old(list)@.len() + 1
            &&& forall|p: int| 0 <= p < old(list)@.len() ==> final(list)@[p] == old(list)@[p]
            &&& final(list)@.last().0 == s
            &&& final(list)@.last().1@ == seq![txn]
        },
{
    let n = list.len();
    if n > 0 && list[n - 1].0 == s {
        list[n - 1].1.push(txn);
        return ;
    }
    let mut v: Vec<AnalyzedTransaction> = Vec::new();
    v.push(txn);
    list.push((s, v));
    proof {
        assert(v@ =~= seq![txn]);
    }
}

/// Turn a bucket list with distinct keys into a shard-indexed map.
fn bucket_list_to_map(list: Vec<(usize, Vec<AnalyzedTransaction>)>) -> (m: HashMap<
    usize,
    Vec<AnalyzedTransaction>,
>)
    requires
        crate::assoc::distinct_keys(list@),
    ensures
        forall|s: usize|
            #[trigger] m@.contains_key(s) <==> exists|p: int|
                0 <= p < list@.len() && (#[trigger] list@[p]).0 == s,
        forall|p: int|
            0 <= p < list@.len() ==> m@.contains_key((#[trigger] list@[p]).0) && m@[list@[p].0]
                == list@[p].1,
{
    let ghost all = list@;
    let mut rest = list;
    let mut m: HashMap<usize, Vec<AnalyzedTransaction>> = HashMap::new();
    let ghost mut done: int = 0;
    proof {
        assert(rest@ =~= all.subrange(0, all.len() as int));
        assert(all.subrange(0, 0) =~= Seq::<(usize, Vec<AnalyzedTransaction>)>::empty());
        assert(m@ =~= crate::assoc::assoc_map(all.subrange(0, 0)));
    }
    while rest.len() > 0
        invariant
            0 <= done <= all.len(),
            rest@ == all.subrange(done, all.len() as int),
            m@ == crate::assoc::assoc_map(all.subrange(0, done)),
        decreases rest@.len(),
    {
        let pair = rest.remove(0);
        proof {
            assert(pair == all[done]);
            assert(rest@ =~= all.subrange(done + 1, all.len() as int));
        }
        m.insert(pair.0, pair.1);
        proof {
            assert(all.subrange(0, done + 1).drop_last() =~= all.subrange(0, done));
            assert(all.subrange(0, done + 1).last() == all[done]);
            assert(m@ =~= crate::assoc::assoc_map(all.subrange(0, done + 1)));
            done = done + 1;
        }
    }
    proof {
        assert(all.subrange(0, all.len() as int) =~= all);
        assert(m@ == crate::assoc::assoc_map(all));
        assert forall|s: usize| #[trigger] m@.contains_key(s) <==> exists|p: int|
            0 <= p < all.len() && (#[trigger] all[p]).0 == s by {
            crate::assoc::lemma_assoc_contains(all, s);
        }
        assert forall|p: int| 0 <= p < all.len() implies m@.contains_key((#[trigger] all[p]).0)
            && m@[all[p].0] == all[p].1 by {
            crate::assoc::lemma_assoc_get(all, p);
        }
    }
    m
}

/// Whether `x` occurs in `v`.
fn sender_listed(v: &Vec<u64>, x: u64) -> (r: bool)
    ensures
        r == v@.contains(x),
{
    let mut i: usize = 0;
    while i < v.len()
        invariant
            i <= v@.len(),
            forall|k: int| 0 <= k < i ==> v@[k] != x,
        decreases v@.len() - i,
    {
        if v[i] == x {
            return true;
        }
        i += 1;
    }
    false
}

proof fn lemma_push_contains<T>(s: Seq<T>, x: T, y: T)
    ensures
        s.push(x).contains(y) <==> (s.contains(y) || y == x),
{
    if s.contains(y) {
        let k = choose|k: int| 0 <= k < s.len() && s[k] == y;
        assert(s.push(x)[k] == y);
    }
    assert(s.push(x)[s.len() as int] == x);
    if s.push(x).contains(y) && y != x {
        let k = choose|k: int| 0 <= k < s.push(x).len() && s.push(x)[k] == y;
        assert(k < s.len());
        assert(s[k] == y);
    }
}

/// The dependency-aware uniform partitioner.
pub struct DependencyAwareUniformPartitioner {}

impl DependencyAwareUniformPartitioner {
    /// Partition a block across `num_shards` shards by positional chunking,
    /// accepting a transaction only when every conflict it still faces lies
    /// within its own shard, and quarantining the senders of discarded
    /// transactions. Returns the accepted and the rejected transactions,
    /// bucketed per shard in block order; shards with nothing are omitted.
    #[verifier::loop_isolation(false)]
    #[verifier::rlimit(50)]
    pub fn partition(
        &self,
        transactions: Vec<AnalyzedTransaction>,
        num_shards: usize,
    ) -> (r: (
        HashMap<usize, Vec<AnalyzedTransaction>>,
        HashMap<usize, Vec<AnalyzedTransaction>>,
    ))
        requires
            num_shards >= 1,
        ensures
            partition_post(transactions@, num_shards as int, r.0@, r.1@),
    {
        let ghost txns = transactions@;
        let total = transactions.len();
        if total == 0 {
            let accepted: HashMap<usize, Vec<AnalyzedTransaction>> = HashMap::new();
            let rejected: HashMap<usize, Vec<AnalyzedTransaction>> = HashMap::new();
            return (accepted, rejected);
        }
        let chunk = (total - 1) / num_shards + 1;
        proof {
            assert(chunk == chunk_size(total as int, num_shards as int)) by (nonlinear_arith)
                requires
                    total >= 1,
                    num_shards >= 1,
                    chunk == (total - 1) as int / num_shards as int + 1,
            ;
            assert(chunk >= 1);
        }
        let graph = DependencyGraph::create_dependency_graph(&transactions);
        let ghost ci = chunk as int;

        // Reverse scan: decide each position against its conflicting
        // neighbours, later positions first.
        let mut discarded: Vec<bool> = vec![false; total];
        let mut i: usize = total;
        while i > 0
            invariant
                i <= total,
                discarded@.len() == total,
                forall|k: int|
                    i <= k < total ==> discarded@[k] == discarded_in_reverse_pass(txns, ci, k),
            decreases i,
        {
            i -= 1;
            let row = graph.get_dependent_nodes(i);
            let mut d = false;
            let mut q: usize = 0;
            while q < row.len()
                invariant
                    q <= row@.len(),
                    row@ == graph.adjacency()[i as int],
                    d == exists|t: int|
                        #![auto]
                        0 <= t < q && shard_of(ci, row@[t] as int) != shard_of(ci, i as int) && (
                        row@[t] < i || !discarded_in_reverse_pass(txns, ci, row@[t] as int)),
                decreases row@.len() - q,
            {
                let j = row[q];
                proof {
                    assert(row@.contains(row@[q as int]));
                    assert(j < total && j != i && conflict(txns[i as int], txns[j as int]));
                }
                let j_discarded = if j > i {
                    discarded[j]
                } else {
                    false
                };
                if !j_discarded && j / chunk != i / chunk {
                    d = true;
                }
                q += 1;
            }
            proof {
                assert forall|k: int| i <= k < total implies discarded@.update(i as int, d)[k]
                    == discarded_in_reverse_pass(txns, ci, k) by {
                    if k == i {
                        if d {
                            let t = choose|t: int|
                                #![auto]
                                0 <= t < row@.len() && shard_of(ci, row@[t] as int) != shard_of(
                                    ci,
                                    i as int,
                                ) && (row@[t] < i || !discarded_in_reverse_pass(
                                    txns,
                                    ci,
                                    row@[t] as int,
                                ));
                            let j = row@[t];
                            assert(row@.contains(j));
                            assert(j < total && j != i && conflict(txns[i as int], txns[j as int]));
                            assert(discarded_in_reverse_pass(txns, ci, i as int));
                        } else {
                            if discarded_in_reverse_pass(txns, ci, i as int) {
                                if exists|j: int|
                                    0 <= j < i && #[trigger] conflict(txns[i as int], txns[j])
                                        && shard_of(ci, j) != shard_of(ci, i as int) {
                                    let j = choose|j: int|
                                        0 <= j < i && #[trigger] conflict(txns[i as int], txns[j])
                                            && shard_of(ci, j) != shard_of(ci, i as int);
                                    assert(graph.adjacency()[i as int].contains(j as usize));
                                    let t = choose|t: int|
                                        0 <= t < row@.len() && row@[t] == j as usize;
                                    assert(shard_of(ci, row@[t] as int) != shard_of(ci, i as int)
                                        && row@[t] < i);
                                    assert(false);
                                } else {
                                    let j = choose|j: int|
                                        i < j < txns.len() && #[trigger] conflict(
                                            txns[i as int],
                                            txns[j],
                                        ) && shard_of(ci, j) != shard_of(ci, i as int)
                                            && !discarded_in_reverse_pass(txns, ci, j);
                                    assert(graph.adjacency()[i as int].contains(j as usize));
                                    let t = choose|t: int|
                                        0 <= t < row@.len() && row@[t] == j as usize;
                                    assert(shard_of(ci, row@[t] as int) != shard_of(ci, i as int)
                                        && !discarded_in_reverse_pass(txns, ci, row@[t] as int));
                                    assert(false);
                                }
                            }
                        }
                    }
                }
            }
            discarded[i] = d;
        }

        // Forward scan: quarantine the senders of discarded transactions.
        let mut poisoned_senders: Vec<u64> = Vec::new();
        let mut i: usize = 0;
        while i < total
            invariant
                i <= total,
                discarded@.len() == total,
                forall|k: int| 0 <= k < i ==> discarded@[k] == discarded_final(txns, ci, k),
                forall|k: int|
                    i <= k < total ==> discarded@[k] == discarded_in_reverse_pass(txns, ci, k),
                forall|x: u64|
                    #[trigger] poisoned_senders@.contains(x) <==> exists|j: int|
                        0 <= j < i && #[trigger] discarded_final(txns, ci, j) && txns[j].spec_sender()
                            == Some(x),
            decreases total - i,
        {
            let s_opt = transactions[i].get_sender();
            let mut in_set = false;
            if let Some(s) = s_opt {
                in_set = sender_listed(&poisoned_senders, s);
            }
            let was_discarded = discarded[i];
            let now_discarded = in_set || was_discarded;
            proof {
                if in_set {
                    let s = s_opt->Some_0;
                    let j = choose|j: int|
                        0 <= j < i && #[trigger] discarded_final(txns, ci, j) && txns[j].spec_sender()
                            == Some(s);
                    assert(sender_poisoned(txns, ci, i as int)) by {
                        assert(0 <= j < i && discarded_final(txns, ci, j) && txns[j].spec_sender()
                            == txns[i as int].spec_sender() && txns[i as int].spec_sender()
                            is Some);
                    }
                }
                if !in_set && !was_discarded {
                    if sender_poisoned(txns, ci, i as int) {
                        let j = choose|j: int|
                            0 <= j < i as int && discarded_final(txns, ci, j)
                                && #[trigger] txns[j].spec_sender() == txns[i as int].spec_sender()
                                && txns[i as int].spec_sender() is Some;
                        assert(poisoned_senders@.contains(txns[i as int].spec_sender()->Some_0));
                        assert(false);
                    }
                }
                assert(now_discarded == discarded_final(txns, ci, i as int));
            }
            discarded[i] = now_discarded;
            if now_discarded {
                if let Some(s) = s_opt {
                    let ghost pre = poisoned_senders@;
                    poisoned_senders.push(s);
                    proof {
                        assert forall|x: u64| #[trigger] poisoned_senders@.contains(x) <==> exists|
                            j: int,
                        |
                            0 <= j < i + 1 && #[trigger] discarded_final(txns, ci, j)
                                && txns[j].spec_sender() == Some(x) by {
                            lemma_push_contains(pre, s, x);
                            if poisoned_senders@.contains(x) {
                                if x == s {
                                    assert(discarded_final(txns, ci, i as int)
                                        && txns[i as int].spec_sender() == Some(x));
                                }
                            }
                            if exists|j: int|
                                0 <= j < i + 1 && #[trigger] discarded_final(txns, ci, j)
                                    && txns[j].spec_sender() == Some(x) {
                                let j = choose|j: int|
                                    0 <= j < i + 1 && #[trigger] discarded_final(txns, ci, j)
                                        && txns[j].spec_sender() == Some(x);
                                if j < i {
                                    assert(pre.contains(x));
                                } else {
                                    assert(x == s);
                                }
                            }
                        }
                    }
                }
            }
            proof {
                assert forall|x: u64| #[trigger] poisoned_senders@.contains(x) implies exists|
                    j: int,
                |
                    0 <= j < i + 1 && #[trigger] discarded_final(txns, ci, j)
                        && txns[j].spec_sender() == Some(x) by {
                    if exists|j: int|
                        0 <= j < i && #[trigger] discarded_final(txns, ci, j)
                            && txns[j].spec_sender() == Some(x) {
                        let j = choose|j: int|
                            0 <= j < i && #[trigger] discarded_final(txns, ci, j)
                                && txns[j].spec_sender() == Some(x);
                        assert(0 <= j < i + 1 && discarded_final(txns, ci, j));
                    }
                }
                assert forall|x: u64|
                    (exists|j: int|
                        0 <= j < i + 1 && #[trigger] discarded_final(txns, ci, j)
                            && txns[j].spec_sender() == Some(x)) implies #[trigger] poisoned_senders@.contains(
                    x,
                ) by {
                    let j = choose|j: int|
                        0 <= j < i + 1 && #[trigger] discarded_final(txns, ci, j)
                            && txns[j].spec_sender() == Some(x);
                }
            }
            i += 1;
        }

        // Bucket per shard, accepted and rejected apart, in block order.
        let mut acc_list: Vec<(usize, Vec<AnalyzedTransaction>)> = Vec::new();
        let mut rej_list: Vec<(usize, Vec<AnalyzedTransaction>)> = Vec::new();
        let mut rest = transactions;
        let mut i: usize = 0;
        while i < total
            invariant
                i <= total,
                discarded@.len() == total,
                rest@ == txns.subrange(i as int, total as int),
                forall|k: int| 0 <= k < total ==> discarded@[k] == discarded_final(txns, ci, k),
                bucket_list_ok(acc_list@, txns, ci, false, i as int),
                bucket_list_ok(rej_list@, txns, ci, true, i as int),
                acc_list@.len() > 0 ==> acc_list@.last().0 as int <= shard_of(ci, i as int),
                rej_list@.len() > 0 ==> rej_list@.last().0 as int <= shard_of(ci, i as int),
            decreases total - i,
        {
            let txn = rest.remove(0);
            proof {
                assert(txn == txns[i as int]);
                assert(rest@ =~= txns.subrange(i as int + 1, total as int));
            }
            let s = i / chunk;
            let disc = discarded[i];
            proof {
                lemma_bucket_step(acc_list@, txns, ci, false, i as int, s);
                lemma_bucket_step(rej_list@, txns, ci, true, i as int, s);
                vstd::arithmetic::div_mod::lemma_div_is_ordered(i as int, i as int + 1, ci);
            }
            if disc {
                let ghost pre = rej_list@;
                push_bucket(&mut rej_list, s, txn);
                proof {
                    lemma_bucket_push_ok(pre, rej_list@, txns, ci, true, i as int, s, txn);
                    lemma_bucket_skip_ok(acc_list@, txns, ci, false, i as int);
                }
            } else {
                let ghost pre = acc_list@;
                push_bucket(&mut acc_list, s, txn);
                proof {
                    lemma_bucket_push_ok(pre, acc_list@, txns, ci, false, i as int, s, txn);
                    lemma_bucket_skip_ok(rej_list@, txns, ci, true, i as int);
                }
            }
            i += 1;
        }
        proof {
            assert forall|p: int, p2: int| 0 <= p < p2 < acc_list@.len() implies (
            #[trigger] acc_list@[p]).0 != (#[trigger] acc_list@[p2]).0 by {
                assert(acc_list@[p].0 < acc_list@[p2].0);
            }
            assert forall|p: int, p2: int| 0 <= p < p2 < rej_list@.len() implies (
            #[trigger] rej_list@[p]).0 != (#[trigger] rej_list@[p2]).0 by {
                assert(rej_list@[p].0 < rej_list@[p2].0);
            }
        }
        let ghost acc_pairs = acc_list@;
        let ghost rej_pairs = rej_list@;
        let accepted = bucket_list_to_map(acc_list);
        let rejected = bucket_list_to_map(rej_list);
        proof {
            assert forall|s: usize| #[trigger] accepted@.contains_key(s) implies accepted@[s]@
                == bucket(txns, ci, s as int, false) by {
                let p = choose|p: int| 0 <= p < acc_pairs.len() && (#[trigger] acc_pairs[p]).0 == s;
                assert(accepted@[s] == acc_pairs[p].1);
            }
            assert forall|s: usize| #[trigger] rejected@.contains_key(s) implies rejected@[s]@
                == bucket(txns, ci, s as int, true) by {
                let p = choose|p: int| 0 <= p < rej_pairs.len() && (#[trigger] rej_pairs[p]).0 == s;
                assert(rejected@[s] == rej_pairs[p].1);
            }
        }
        (accepted, rejected)
    }
}

/// Every shard key a bucket list carries is at most the shard of the next
/// position to process.
proof fn lemma_bucket_step(
    list: Seq<(usize, Vec<AnalyzedTransaction>)>,
    txns: Seq<AnalyzedTransaction>,
    chunk: int,
    want_discarded: bool,
    i: int,
    s: usize,
)
    requires
        chunk >= 1,
        0 <= i < txns.len(),
        s as int == shard_of(chunk, i),
        bucket_list_ok(list, txns, chunk, want_discarded, i),
        list.len() > 0 ==> list.last().0 as int <= shard_of(chunk, i),
    ensures
        list.len() > 0 ==> list.last().0 <= s,
        (list.len() == 0 || list.last().0 != s) ==> bucket_upto(txns, chunk, s as int, want_discarded, i).len()
            == 0,
{
    if list.len() > 0 && list.last().0 != s {
        if bucket_upto(txns, chunk, s as int, want_discarded, i).len() > 0 {
            let p = choose|p: int| 0 <= p < list.len() && (#[trigger] list[p]).0 == s;
            if p < list.len() - 1 {
                assert(list[p].0 < list[list.len() - 1].0);
            }
            assert(false);
        }
    }
    if list.len() == 0 {
        if bucket_upto(txns, chunk, s as int, want_discarded, i).len() > 0 {
            let p = choose|p: int| 0 <= p < list.len() && (#[trigger] list[p]).0 == s;
            assert(false);
        }
    }
}

/// Pushing position `i`'s transaction onto its shard's bucket keeps the
/// bucket list describing the buckets one position further.
proof fn lemma_bucket_push_ok(
    pre: Seq<(usize, Vec<AnalyzedTransaction>)>,
    post: Seq<(usize, Vec<AnalyzedTransaction>)>,
    txns: Seq<AnalyzedTransaction>,
    chunk: int,
    want_discarded: bool,
    i: int,
    s: usize,
    txn: AnalyzedTransaction,
)
    requires
        chunk >= 1,
        0 <= i < txns.len(),
        s as int == shard_of(chunk, i),
        txn == txns[i],
        discarded_final(txns, chunk, i) == want_discarded,
        bucket_list_ok(pre, txns, chunk, want_discarded, i),
        pre.len() > 0 ==> pre.last().0 <= s,
        (pre.len() > 0 && pre.last().0 == s) ==> {
            &&& post.len() == pre.len()
            &&& forall|p: int| 0 <= p < pre.len() - 1 ==> post[p] == pre[p]
            &&& post.last().0 == s
            &&& post.last().1@ == pre.last().1@.push(txn)
        },
        !(pre.len() > 0 && pre.last().0 == s) ==> {
            &&& post.len() == pre.len() + 1
            &&& forall|p: int| 0 <= p < pre.len() ==> post[p] == pre[p]
            &&& post.last().0 == s
            &&& post.last().1@ == seq![txn]
        },
    ensures
        bucket_list_ok(post, txns, chunk, want_discarded, i + 1),
        post.len() > 0,
        post.last().0 == s,
{
    lemma_bucket_step(pre, txns, chunk, want_discarded, i, s);
    let grew = !(pre.len() > 0 && pre.last().0 == s);
    assert forall|s2: usize| #[trigger] bucket_upto(txns, chunk, s2 as int, want_discarded, i + 1).len()
        > 0 implies exists|p: int| 0 <= p < post.len() && (#[trigger] post[p]).0 == s2 by {
        if s2 == s {
            assert(post[post.len() - 1].0 == s2);
        } else {
            assert(bucket_upto(txns, chunk, s2 as int, want_discarded, i + 1) == bucket_upto(
                txns,
                chunk,
                s2 as int,
                want_discarded,
                i,
            ));
            let p = choose|p: int| 0 <= p < pre.len() && (#[trigger] pre[p]).0 == s2;
            if grew {
                assert(post[p] == pre[p]);
            } else {
                if p < pre.len() - 1 {
                    assert(post[p] == pre[p]);
                } else {
                    assert(pre.last().0 == s);
                    assert(false);
                }
            }
        }
    }
    assert forall|s2: usize|
        (exists|p: int| 0 <= p < post.len() && (#[trigger] post[p]).0 == s2) implies #[trigger] bucket_upto(
        txns,
        chunk,
        s2 as int,
        want_discarded,
        i + 1,
    ).len() > 0 by {
        let p = choose|p: int| 0 <= p < post.len() && (#[trigger] post[p]).0 == s2;
        if p == post.len() - 1 {
            assert(s2 == s);
            assert(bucket_upto(txns, chunk, s as int, want_discarded, i + 1).len() > 0);
        } else {
            if grew {
                assert(pre[p].0 == s2);
                assert(bucket_upto(txns, chunk, s2 as int, want_discarded, i).len() > 0);
                if s2 == s {
                } else {
                    assert(bucket_upto(txns, chunk, s2 as int, want_discarded, i + 1)
                        == bucket_upto(txns, chunk, s2 as int, want_discarded, i));
                }
            } else {
                assert(pre[p] == post[p]);
                assert(bucket_upto(txns, chunk, s2 as int, want_discarded, i).len() > 0);
                assert(pre[p].0 < pre.last().0);
                assert(s2 != s);
                assert(bucket_upto(txns, chunk, s2 as int, want_discarded, i + 1) == bucket_upto(
                    txns,
                    chunk,
                    s2 as int,
                    want_discarded,
                    i,
                ));
            }
        }
    }
    assert forall|p: int| 0 <= p < post.len() implies (#[trigger] post[p]).1@ == bucket_upto(
        txns,
        chunk,
        post[p].0 as int,
        want_discarded,
        i + 1,
    ) && post[p].1@.len() > 0 by {
        if p == post.len() - 1 {
            if grew {
                assert(bucket_upto(txns, chunk, s as int, want_discarded, i).len() == 0);
                assert(bucket_upto(txns, chunk, s as int, want_discarded, i + 1)
                    =~= bucket_upto(txns, chunk, s as int, want_discarded, i).push(txn));
                assert(post[p].1@ =~= bucket_upto(txns, chunk, s as int, want_discarded, i + 1));
            } else {
                assert(post[p].1@ == pre.last().1@.push(txn));
                assert(pre.last().1@ == bucket_upto(txns, chunk, s as int, want_discarded, i));
                assert(bucket_upto(txns, chunk, s as int, want_discarded, i + 1) == bucket_upto(
                    txns,
                    chunk,
                    s as int,
                    want_discarded,
                    i,
                ).push(txn));
            }
        } else {
            assert(post[p] == pre[p]);
            assert(pre[p].0 != s || !grew);
            if pre[p].0 == s {
                assert(!grew);
                assert(p < pre.len() - 1);
                assert(pre[p].0 < pre.last().0);
                assert(false);
            }
            assert(bucket_upto(txns, chunk, pre[p].0 as int, want_discarded, i + 1) == bucket_upto(
                txns,
                chunk,
                pre[p].0 as int,
                want_discarded,
                i,
            ));
        }
    }
    assert forall|p: int, p2: int| 0 <= p < p2 < post.len() implies (#[trigger] post[p]).0 < (
    #[trigger] post[p2]).0 by {
        if p2 == post.len() - 1 {
            if grew {
                assert(post[p] == pre[p]);
                if pre.len() > 0 {
                    if p < pre.len() - 1 {
                        assert(pre[p].0 < pre.last().0);
                    }
                    assert(pre.last().0 != s);
                    assert(pre[p].0 <= pre.last().0);
                }
            } else {
                assert(post[p] == pre[p]);
                assert(pre[p].0 < pre.last().0);
            }
        } else {
            assert(post[p] == pre[p] && post[p2] == pre[p2]);
        }
    }
}

/// A bucket list is unaffected by a position whose status it does not want.
proof fn lemma_bucket_skip_ok(
    list: Seq<(usize, Vec<AnalyzedTransaction>)>,
    txns: Seq<AnalyzedTransaction>,
    chunk: int,
    want_discarded: bool,
    i: int,
)
    requires
        0 <= i < txns.len(),
        discarded_final(txns, chunk, i) != want_discarded,
        bucket_list_ok(list, txns, chunk, want_discarded, i),
    ensures
        bucket_list_ok(list, txns, chunk, want_discarded, i + 1),
{
    assert forall|s2: usize| #[trigger] bucket_upto(txns, chunk, s2 as int, want_discarded, i + 1)
        == bucket_upto(txns, chunk, s2 as int, want_discarded, i) by {}
    assert forall|s2: usize| #[trigger] bucket_upto(txns, chunk, s2 as int, want_discarded, i + 1).len()
        > 0 implies exists|p: int| 0 <= p < list.len() && (#[trigger] list[p]).0 == s2 by {
        assert(bucket_upto(txns, chunk, s2 as int, want_discarded, i).len() > 0);
    }
    assert forall|s2: usize|
        (exists|p: int| 0 <= p < list.len() && (#[trigger] list[p]).0 == s2) implies #[trigger] bucket_upto(
        txns,
        chunk,
        s2 as int,
        want_discarded,
        i + 1,
    ).len() > 0 by {
        assert(bucket_upto(txns, chunk, s2 as int, want_discarded, i).len() > 0);
    }
}

/// Partitioner safety: two transactions that both survive into different
/// shards never conflict — no location written by either is read or written
/// by the other. The later one would have seen the earlier, undiscarded
/// neighbour in a foreign shard during the reverse scan and yielded.
pub proof fn lemma_partitioner_safety(
    txns: Seq<AnalyzedTransaction>,
    chunk: int,
    i: int,
    j: int,
)
    requires
        0 <= i < j < txns.len(),
        !discarded_final(txns, chunk, i),
        !discarded_final(txns, chunk, j),
        shard_of(chunk, i) != shard_of(chunk, j),
    ensures
        !conflict(txns[i], txns[j]),
{
    if conflict(txns[i], txns[j]) {
        crate::transaction::lemma_conflict_symmetric(txns[i], txns[j]);
        assert(conflict(txns[j], txns[i]) && shard_of(chunk, i) != shard_of(chunk, j));
        assert(discarded_in_reverse_pass(txns, chunk, j));
        assert(discarded_final(txns, chunk, j));
    }
}

/// Positional shards: every transaction a bucket emits sits at a block
/// position whose shard is exactly the bucket's, with the bucket's status.
pub proof fn lemma_positional_shards(
    txns: Seq<AnalyzedTransaction>,
    chunk: int,
    s: int,
    want_discarded: bool,
    k: int,
)
    requires
        0 <= k < bucket(txns, chunk, s, want_discarded).len(),
    ensures
        exists|i: int|
            0 <= i < txns.len() && #[trigger] shard_of(chunk, i) == s && discarded_final(
                txns,
                chunk,
                i,
            ) == want_discarded && txns[i] == bucket(txns, chunk, s, want_discarded)[k],
{
    lemma_bucket_upto_members(txns, chunk, s, want_discarded, txns.len() as int, k);
}

proof fn lemma_bucket_upto_members(
    txns: Seq<AnalyzedTransaction>,
    chunk: int,
    s: int,
    want_discarded: bool,
    n: int,
    k: int,
)
    requires
        n <= txns.len(),
        0 <= k < bucket_upto(txns, chunk, s, want_discarded, n).len(),
    ensures
        exists|i: int|
            0 <= i < n && #[trigger] shard_of(chunk, i) == s && discarded_final(txns, chunk, i)
                == want_discarded && txns[i] == bucket_upto(txns, chunk, s, want_discarded, n)[k],
    decreases n,
{
    let b = bucket_upto(txns, chunk, s, want_discarded, n);
    let prev = bucket_upto(txns, chunk, s, want_discarded, n - 1);
    if n > 0 {
        if shard_of(chunk, n - 1) == s && discarded_final(txns, chunk, n - 1) == want_discarded {
            if k < prev.len() {
                lemma_bucket_upto_members(txns, chunk, s, want_discarded, n - 1, k);
                let i = choose|i: int|
                    0 <= i < n - 1 && #[trigger] shard_of(chunk, i) == s && discarded_final(
                        txns,
                        chunk,
                        i,
                    ) == want_discarded && txns[i] == prev[k];
                assert(b[k] == prev[k]);
            } else {
                assert(b[k] == txns[n - 1]);
                assert(shard_of(chunk, n - 1) == s);
            }
        } else {
            lemma_bucket_upto_members(txns, chunk, s, want_discarded, n - 1, k);
        }
    }
}

/// Sender quarantine: once a transaction of a sender is discarded, every
/// later transaction of the same sender is discarded too.
pub proof fn lemma_sender_quarantine(txns: Seq<AnalyzedTransaction>, chunk: int, i: int, j: int)
    requires
        0 <= i < j < txns.len(),
        discarded_final(txns, chunk, i),
        txns[i].spec_sender() is Some,
        txns[j].spec_sender() == txns[i].spec_sender(),
    ensures
        discarded_final(txns, chunk, j),
{
    assert(sender_poisoned(txns, chunk, j)) by {
        assert(0 <= i < j && discarded_final(txns, chunk, i) && txns[i].spec_sender()
            == txns[j].spec_sender() && txns[j].spec_sender() is Some);
    }
}

/// Idempotence: the partitioner's outcome is a function of the block and the
/// shard count alone. Any two outputs that satisfy the partitioner's
/// contract for the same input are identical, shard by shard.
pub proof fn lemma_partition_deterministic(
    txns: Seq<AnalyzedTransaction>,
    num_shards: int,
    a1: Map<usize, Vec<AnalyzedTransaction>>,
    r1: Map<usize, Vec<AnalyzedTransaction>>,
    a2: Map<usize, Vec<AnalyzedTransaction>>,
    r2: Map<usize, Vec<AnalyzedTransaction>>,
)
    requires
        partition_post(txns, num_shards, a1, r1),
        partition_post(txns, num_shards, a2, r2),
    ensures
        a1.dom() == a2.dom(),
        r1.dom() == r2.dom(),
        forall|s: usize| #[trigger] a1.contains_key(s) ==> a1[s]@ == a2[s]@,
        forall|s: usize| #[trigger] r1.contains_key(s) ==> r1[s]@ == r2[s]@,
{
    assert forall|s: usize| #[trigger] a1.dom().contains(s) implies a2.dom().contains(s) by {
        assert(a1.contains_key(s));
        assert(a2.contains_key(s));
    }
    assert forall|s: usize| #[trigger] a2.dom().contains(s) implies a1.dom().contains(s) by {
        assert(a2.contains_key(s));
        assert(a1.contains_key(s));
    }
    assert(a1.dom() =~= a2.dom());
    assert forall|s: usize| #[trigger] r1.dom().contains(s) implies r2.dom().contains(s) by {
        assert(r1.contains_key(s));
        assert(r2.contains_key(s));
    }
    assert forall|s: usize| #[trigger] r2.dom().contains(s) implies r1.dom().contains(s) by {
        assert(r2.contains_key(s));
        assert(r1.contains_key(s));
    }
    assert(r1.dom() =~= r2.dom());
}

} // verus!
