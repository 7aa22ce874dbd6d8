//! Data half of the multi-version store: versioned writes and deltas for
//! non-module keys, with point reads from the perspective of a reading
//! transaction index.
//!
//! The read algorithm scans the entries of a key below the reader's index in
//! descending order, accumulating a suffix of deltas until it reaches a base
//! value, a deletion, an estimate, or the floor. `data_read` states that
//! algorithm as a function of the key's entry map alone; `fetch_data` is
//! proved to return exactly its value.

use crate::assoc::{
    assoc_map, distinct_keys, lemma_assoc_contains, lemma_assoc_get, lemma_assoc_insert_at,
    lemma_assoc_push, lemma_assoc_remove, lemma_assoc_update, lemma_sorted_distinct, sorted_keys,
};
use crate::delta::{apply_all, net_acc, DeltaOp, DeltaUpdate};
use crate::types::{
    AccessPath, DeltaSum, Flag, Incarnation, MVDataError, MVDataOutput, TxnIndex, Version, WriteOp,
};
use vstd::prelude::*;

verus! {

/// Content of one versioned entry of the data half.
#[derive(Clone, Copy, PartialEq, Eq, Structural, Debug)]
pub enum EntryContent {
    /// A concrete base value.
    Value(u128),
    /// The slot was deleted by this transaction.
    Deletion,
    /// A commutative update against whatever precedes it.
    Delta(DeltaOp),
}

/// One versioned entry: the writer's incarnation, what it wrote, and whether
/// the write is live or a leftover estimate of an aborted incarnation.
#[derive(Clone, Copy, PartialEq, Eq, Structural, Debug)]
pub struct EntryCell {
    pub incarnation: Incarnation,
    pub content: EntryContent,
    pub flag: Flag,
}

/// The entry a versioned write stores.
pub open spec fn cell_of_write(version: Version, op: WriteOp) -> EntryCell {
    EntryCell {
        incarnation: version.1,
        content: match op {
            WriteOp::Value(v) => EntryContent::Value(v),
            WriteOp::Deletion => EntryContent::Deletion,
        },
        flag: Flag::Done,
    }
}

/// The entry a delta publication stores. Deltas carry no incarnation of
/// their own; they are recorded at incarnation zero.
pub open spec fn cell_of_delta(delta: DeltaOp) -> EntryCell {
    EntryCell { incarnation: 0, content: EntryContent::Delta(delta), flag: Flag::Done }
}

/// Sign-magnitude form of an integer sum.
pub open spec fn delta_sum_of(n: int) -> DeltaSum {
    DeltaSum {
        negative: n < 0,
        magnitude: (if n < 0 {
            -n
        } else {
            n
        }) as u128,
    }
}

/// Outcome of a scan that ran out of entries with only deltas in hand: with
/// none at all the slot is simply absent; otherwise the deltas' exact sum is
/// handed back, unless it cannot be carried in sign-magnitude form.
pub open spec fn data_read_base(deltas: Seq<DeltaOp>) -> Result<MVDataOutput, MVDataError> {
    if deltas.len() == 0 {
        Err(MVDataError::NotFound)
    } else {
        match net_acc(0, deltas) {
            Some(n) => Ok(MVDataOutput::Resolved(delta_sum_of(n))),
            None => Err(MVDataError::Unresolved),
        }
    }
}

/// Outcome of a scan that reached a base value: the accumulated deltas are
/// applied to it in ascending order, each checked against its bounds.
pub open spec fn data_read_value(t: TxnIndex, inc: Incarnation, v: u128, deltas: Seq<DeltaOp>) -> Result<
    MVDataOutput,
    MVDataError,
> {
    match apply_all(v as int, deltas) {
        Some(r) => Ok(MVDataOutput::Versioned((t, inc), r as u128)),
        None => Err(MVDataError::DeltaApplicationFailure),
    }
}

/// The descending scan, from just below position `i`, with the deltas
/// accumulated so far (in ascending order of their indices).
pub open spec fn data_read_from(
    entries: Map<TxnIndex, EntryCell>,
    i: int,
    deltas: Seq<DeltaOp>,
) -> Result<MVDataOutput, MVDataError>
    decreases i,
{
    if i <= 0 {
        data_read_base(deltas)
    } else {
        let t = (i - 1) as TxnIndex;
        if entries.contains_key(t) {
            let e = entries[t];
            if e.flag is Estimate {
                Err(MVDataError::Dependency(t))
            } else {
                match e.content {
                    EntryContent::Value(v) => data_read_value(t, e.incarnation, v, deltas),
                    EntryContent::Deletion => if deltas.len() == 0 {
                        Err(MVDataError::NotFound)
                    } else {
                        Err(MVDataError::DeltaApplicationFailure)
                    },
                    EntryContent::Delta(d) => data_read_from(entries, i - 1, seq![d] + deltas),
                }
            }
        } else {
            data_read_from(entries, i - 1, deltas)
        }
    }
}

/// What a read of a key's entries from the perspective of `txn_idx` returns.
pub open spec fn data_read(entries: Map<TxnIndex, EntryCell>, txn_idx: TxnIndex) -> Result<
    MVDataOutput,
    MVDataError,
> {
    data_read_from(entries, txn_idx as int, Seq::empty())
}

/// The scan steps over a stretch of absent indices unchanged.
pub proof fn lemma_data_read_skip(
    entries: Map<TxnIndex, EntryCell>,
    hi: int,
    lo: int,
    deltas: Seq<DeltaOp>,
)
    requires
        0 <= lo <= hi <= u32::MAX as int + 1,
        forall|t: TxnIndex| lo <= t < hi ==> !(#[trigger] entries.contains_key(t)),
    ensures
        data_read_from(entries, hi, deltas) == data_read_from(entries, lo, deltas),
    decreases hi - lo,
{
    if lo < hi {
        assert(!entries.contains_key((hi - 1) as TxnIndex));
        lemma_data_read_skip(entries, hi - 1, lo, deltas);
    }
}

proof fn lemma_data_read_agree_from(
    m1: Map<TxnIndex, EntryCell>,
    m2: Map<TxnIndex, EntryCell>,
    txn_idx: TxnIndex,
    i: int,
    deltas: Seq<DeltaOp>,
)
    requires
        i <= txn_idx,
        forall|t: TxnIndex|
            #![trigger m1.contains_key(t)]
            #![trigger m2.contains_key(t)]
            t < txn_idx ==> (m1.contains_key(t) <==> m2.contains_key(t)),
        forall|t: TxnIndex| t < txn_idx && #[trigger] m1.contains_key(t) ==> m1[t] == m2[t],
    ensures
        data_read_from(m1, i, deltas) == data_read_from(m2, i, deltas),
    decreases i,
{
    if i > 0 {
        let t = (i - 1) as TxnIndex;
        if m1.contains_key(t) {
            match m1[t].content {
                EntryContent::Delta(d) => {
                    lemma_data_read_agree_from(m1, m2, txn_idx, i - 1, seq![d] + deltas);
                },
                _ => {},
            }
        } else {
            lemma_data_read_agree_from(m1, m2, txn_idx, i - 1, deltas);
        }
    }
}

/// Invisibility of the future: a read from the perspective of `txn_idx`
/// depends only on the entries strictly below `txn_idx`. Two entry maps that
/// agree there yield the same read, whatever either holds at or above it.
pub proof fn lemma_invisibility_of_future(
    m1: Map<TxnIndex, EntryCell>,
    m2: Map<TxnIndex, EntryCell>,
    txn_idx: TxnIndex,
)
    requires
        forall|t: TxnIndex|
            #![trigger m1.contains_key(t)]
            #![trigger m2.contains_key(t)]
            t < txn_idx ==> (m1.contains_key(t) <==> m2.contains_key(t)),
        forall|t: TxnIndex| t < txn_idx && #[trigger] m1.contains_key(t) ==> m1[t] == m2[t],
    ensures
        data_read(m1, txn_idx) == data_read(m2, txn_idx),
{
    lemma_data_read_agree_from(m1, m2, txn_idx, txn_idx as int, Seq::empty());
}

/// Estimate propagation: when the latest entry visible below `txn_idx` is an
/// estimate, the read suspends on exactly that writer's index.
pub proof fn lemma_estimate_propagation(m: Map<TxnIndex, EntryCell>, txn_idx: TxnIndex, j: TxnIndex)
    requires
        m.contains_key(j),
        j < txn_idx,
        m[j].flag is Estimate,
        forall|t: TxnIndex| #[trigger] m.contains_key(t) && t < txn_idx ==> t <= j,
    ensures
        data_read(m, txn_idx) == Err::<MVDataOutput, MVDataError>(MVDataError::Dependency(j)),
{
    assert forall|t: TxnIndex| j + 1 <= t < txn_idx implies !(#[trigger] m.contains_key(t)) by {
        if m.contains_key(t) {
            assert(t <= j);
        }
    }
    lemma_data_read_skip(m, txn_idx as int, j + 1, Seq::empty());
}

proof fn lemma_versioned_from(
    m: Map<TxnIndex, EntryCell>,
    i: int,
    deltas: Seq<DeltaOp>,
    j: TxnIndex,
    inc: Incarnation,
    v: u128,
)
    requires
        0 <= i <= u32::MAX as int + 1,
        data_read_from(m, i, deltas) == Ok::<MVDataOutput, MVDataError>(
            MVDataOutput::Versioned((j, inc), v),
        ),
    ensures
        m.contains_key(j),
        j < i,
        m[j].flag is Done,
        m[j].incarnation == inc,
        m[j].content is Value,
        forall|t: TxnIndex|
            #[trigger] m.contains_key(t) && j < t < i ==> m[t].content is Delta && m[t].flag
                is Done,
    decreases i,
{
    if i > 0 {
        let t = (i - 1) as TxnIndex;
        if m.contains_key(t) {
            match m[t].content {
                EntryContent::Delta(d) => {
                    lemma_versioned_from(m, i - 1, seq![d] + deltas, j, inc, v);
                    assert forall|u: TxnIndex|
                        #[trigger] m.contains_key(u) && j < u < i implies m[u].content is Delta
                        && m[u].flag is Done by {
                        if u < i - 1 {
                        } else {
                            assert(u == t);
                        }
                    }
                },
                _ => {},
            }
        } else {
            lemma_versioned_from(m, i - 1, deltas, j, inc, v);
            assert forall|u: TxnIndex|
                #[trigger] m.contains_key(u) && j < u < i implies m[u].content is Delta && m[u].flag
                is Done by {
                assert(u != t);
            }
        }
    }
}

/// Read-your-predecessors: a versioned read result comes from the latest
/// base write visible below the reader. The version returned names an entry
/// of the map below `txn_idx` that holds a live value, and everything between
/// that entry and the reader is a live delta — so the value is derived from
/// the maximal visible write and from nothing at or above the reader.
pub proof fn lemma_read_your_predecessors(
    m: Map<TxnIndex, EntryCell>,
    txn_idx: TxnIndex,
    j: TxnIndex,
    inc: Incarnation,
    v: u128,
)
    requires
        data_read(m, txn_idx) == Ok::<MVDataOutput, MVDataError>(
            MVDataOutput::Versioned((j, inc), v),
        ),
    ensures
        m.contains_key(j),
        j < txn_idx,
        m[j].flag is Done,
        m[j].incarnation == inc,
        m[j].content is Value,
        forall|t: TxnIndex|
            #[trigger] m.contains_key(t) && j < t < txn_idx ==> m[t].content is Delta && m[t].flag
                is Done,
{
    lemma_versioned_from(m, txn_idx as int, Seq::empty(), j, inc, v);
}

/// Apply deltas that were collected in descending scan order to a base
/// value, in ascending order, each application checked against its bounds.
fn materialize(deltas: &Vec<DeltaOp>, base: u128) -> (r: Option<u128>)
    ensures
        match apply_all(base as int, deltas@.reverse()) {
            Some(v) => r == Some(v as u128) && 0 <= v <= u128::MAX,
            None => r is None,
        },
{
    let mut val: u128 = base;
    let mut pp: usize = deltas.len();
    proof {
        assert(deltas@.subrange(0, pp as int) =~= deltas@);
    }
    while pp > 0
        invariant
            pp <= deltas@.len(),
            apply_all(base as int, deltas@.reverse()) == apply_all(
                val as int,
                deltas@.subrange(0, pp as int).reverse(),
            ),
        decreases pp,
    {
        pp -= 1;
        let d = deltas[pp];
        proof {
            assert(deltas@.subrange(0, pp as int + 1).reverse() =~= seq![d] + deltas@.subrange(
                0,
                pp as int,
            ).reverse());
            assert((seq![d] + deltas@.subrange(0, pp as int).reverse()).first() == d);
            assert((seq![d] + deltas@.subrange(0, pp as int).reverse()).drop_first()
                =~= deltas@.subrange(0, pp as int).reverse());
        }
        match d.apply(val) {
            Some(nv) => {
                val = nv;
            },
            None => {
                return None;
            },
        }
    }
    proof {
        assert(deltas@.subrange(0, 0).reverse() =~= Seq::<DeltaOp>::empty());
    }
    Some(val)
}

/// Exact signed sum of deltas that were collected in descending scan order,
/// taken in ascending order; `None` when the running sum leaves the range a
/// sign-magnitude `u128` can carry.
fn sum_deltas(deltas: &Vec<DeltaOp>) -> (r: Option<DeltaSum>)
    ensures
        match net_acc(0, deltas@.reverse()) {
            Some(n) => r == Some(delta_sum_of(n)),
            None => r is None,
        },
{
    let mut negative = false;
    let mut magnitude: u128 = 0;
    let mut pp: usize = deltas.len();
    proof {
        assert(deltas@.subrange(0, pp as int) =~= deltas@);
    }
    while pp > 0
        invariant
            pp <= deltas@.len(),
            negative ==> magnitude > 0,
            net_acc(0, deltas@.reverse()) == net_acc(
                if negative {
                    -(magnitude as int)
                } else {
                    magnitude as int
                },
                deltas@.subrange(0, pp as int).reverse(),
            ),
        decreases pp,
    {
        pp -= 1;
        let d = deltas[pp];
        proof {
            assert(deltas@.subrange(0, pp as int + 1).reverse() =~= seq![d] + deltas@.subrange(
                0,
                pp as int,
            ).reverse());
            assert((seq![d] + deltas@.subrange(0, pp as int).reverse()).first() == d);
            assert((seq![d] + deltas@.subrange(0, pp as int).reverse()).drop_first()
                =~= deltas@.subrange(0, pp as int).reverse());
        }
        match d.update {
            DeltaUpdate::Plus(a) => {
                if negative {
                    if a >= magnitude {
                        negative = false;
                        magnitude = a - magnitude;
                    } else {
                        magnitude = magnitude - a;
                    }
                } else {
                    if magnitude <= u128::MAX - a {
                        magnitude = magnitude + a;
                    } else {
                        return None;
                    }
                }
            },
            DeltaUpdate::Minus(a) => {
                if negative {
                    if magnitude <= u128::MAX - a {
                        magnitude = magnitude + a;
                    } else {
                        return None;
                    }
                } else {
                    if a > magnitude {
                        negative = true;
                        magnitude = a - magnitude;
                    } else {
                        magnitude = magnitude - a;
                    }
                }
            },
        }
    }
    proof {
        assert(deltas@.subrange(0, 0).reverse() =~= Seq::<DeltaOp>::empty());
    }
    Some(DeltaSum { negative, magnitude })
}

/// The data half of the store: per key, an ordered list of versioned
/// entries, held as an association list with distinct keys.
pub struct VersionedData {
    slots: Vec<(AccessPath, Vec<(TxnIndex, EntryCell)>)>,
}

impl VersionedData {
    /// Abstract state: each written key's entries, keyed by transaction index.
    pub closed spec fn entries(self) -> Map<AccessPath, Map<TxnIndex, EntryCell>> {
        assoc_map(self.slots@).map_values(|es: Vec<(TxnIndex, EntryCell)>| assoc_map(es@))
    }

    /// Entries of one key; empty where the key was never written.
    pub open spec fn entries_of(self, key: AccessPath) -> Map<TxnIndex, EntryCell> {
        if self.entries().contains_key(key) {
            self.entries()[key]
        } else {
            Map::empty()
        }
    }

    /// Outer keys are distinct; each inner list is sorted by transaction
    /// index, so a read can scan it in descending version order.
    pub closed spec fn wf(self) -> bool {
        &&& distinct_keys(self.slots@)
        &&& forall|i: int|
            0 <= i < self.slots@.len() ==> sorted_keys((#[trigger] self.slots@[i]).1@)
    }

    /// An empty data half.
    pub fn new() -> (r: VersionedData)
        ensures
            r.wf(),
            r.entries() == Map::<AccessPath, Map<TxnIndex, EntryCell>>::empty(),
    {
        let r = VersionedData { slots: Vec::new() };
        proof {
            assert(r.entries() =~= Map::<AccessPath, Map<TxnIndex, EntryCell>>::empty());
        }
        r
    }

    /// Position of `key`'s slot, if the key was ever written.
    fn find_slot(&self, key: &AccessPath) -> (r: Option<usize>)
        ensures
            match r {
                Some(p) => p < self.slots@.len() && self.slots@[p as int].0 == *key,
                None => forall|q: int|
                    0 <= q < self.slots@.len() ==> (#[trigger] self.slots@[q]).0 != *key,
            },
    {
        let mut p: usize = 0;
        while p < self.slots.len()
            invariant
                p <= self.slots@.len(),
                forall|q: int| 0 <= q < p ==> (#[trigger] self.slots@[q]).0 != *key,
            decreases self.slots@.len() - p,
        {
            if self.slots[p].0 == *key {
                return Some(p);
            }
            p += 1;
        }
        None
    }

    /// Insert or replace the entry of `key` at index `t`.
    fn upsert(&mut self, key: &AccessPath, t: TxnIndex, cell: EntryCell)
        requires
            old(self).wf(),
        ensures
            final(self).wf(),
            final(self).entries() == old(self).entries().insert(
                *key,
                old(self).entries_of(*key).insert(t, cell),
            ),
    {
        let ghost pre = self.slots@;
        match self.find_slot(key) {
            None => {
                let mut es: Vec<(TxnIndex, EntryCell)> = Vec::new();
                es.push((t, cell));
                self.slots.push((*key, es));
                proof {
                    lemma_assoc_push(pre, *key, es);
                    lemma_assoc_contains(pre, *key);
                    assert(es@.len() == 1 && es@.last() == (t, cell));
                    assert(es@.drop_last() =~= Seq::<(TxnIndex, EntryCell)>::empty());
                    assert(assoc_map(Seq::<(TxnIndex, EntryCell)>::empty())
                        == Map::<TxnIndex, EntryCell>::empty());
                    assert(assoc_map(es@) =~= Map::<TxnIndex, EntryCell>::empty().insert(t, cell));
                    assert(old(self).entries_of(*key) =~= Map::<TxnIndex, EntryCell>::empty());
                    assert(final(self).entries() =~= old(self).entries().insert(
                        *key,
                        old(self).entries_of(*key).insert(t, cell),
                    ));
                    assert forall|i: int| 0 <= i < self.slots@.len() implies sorted_keys(
                        (#[trigger] self.slots@[i]).1@,
                    ) by {
                        if i < pre.len() {
                            assert(self.slots@[i] == pre[i]);
                        }
                    }
                }
            },
            Some(p) => {
                let mut pair = self.slots.remove(p);
                let ghost es0 = pair.1@;
                proof {
                    lemma_assoc_get(pre, p as int);
                    lemma_assoc_remove(pre, p as int);
                    assert(sorted_keys(es0));
                    lemma_sorted_distinct(es0);
                }
                let q = Self::find_pos(&pair.1, t);
                if q < pair.1.len() && pair.1[q].0 == t {
                    pair.1[q] = (t, cell);
                    proof {
                        assert(es0[q as int].0 == t);
                        lemma_assoc_update(es0, q as int, cell);
                        assert(sorted_keys(pair.1@));
                    }
                } else {
                    proof {
                        assert forall|i: int| 0 <= i < es0.len() implies (#[trigger] es0[i]).0
                            != t by {
                            if i >= q {
                                assert(es0[q as int].0 >= t);
                                assert(es0[q as int].0 != t);
                            }
                        }
                        lemma_assoc_insert_at(es0, q as int, t, cell);
                    }
                    pair.1.insert(q, (t, cell));
                    proof {
                        let es1 = pair.1@;
                        assert forall|i: int, j: int| 0 <= i < j < es1.len() implies (
                        #[trigger] es1[i]).0 < (#[trigger] es1[j]).0 by {
                            if i < q {
                                assert(es1[i] == es0[i]);
                            } else if i > q {
                                assert(es1[i] == es0[i - 1]);
                            }
                            if j < q {
                                assert(es1[j] == es0[j]);
                            } else if j > q {
                                assert(es1[j] == es0[j - 1]);
                                assert(es0[j - 1].0 >= es0[q as int].0 > t || (j - 1 == q
                                    && es0[q as int].0 > t));
                            }
                        }
                    }
                }
                let ghost mid = self.slots@;
                let ghost es1 = pair.1;
                self.slots.push(pair);
                proof {
                    assert forall|i: int| 0 <= i < mid.len() implies (#[trigger] mid[i]).0
                        != *key by {
                        if i < p {
                            assert(mid[i] == pre[i]);
                        } else {
                            assert(mid[i] == pre[i + 1]);
                        }
                    }
                    lemma_assoc_push(mid, *key, es1);
                    assert(assoc_map(self.slots@) =~= assoc_map(pre).insert(*key, es1));
                    assert(old(self).entries().contains_key(*key));
                    assert(old(self).entries_of(*key) == assoc_map(es0));
                    assert(assoc_map(es1@) =~= old(self).entries_of(*key).insert(t, cell));
                    assert(final(self).entries() =~= old(self).entries().insert(
                        *key,
                        old(self).entries_of(*key).insert(t, cell),
                    ));
                    assert forall|i: int| 0 <= i < self.slots@.len() implies sorted_keys(
                        (#[trigger] self.slots@[i]).1@,
                    ) by {
                        if i < mid.len() {
                            if i < p {
                                assert(mid[i] == pre[i]);
                            } else {
                                assert(mid[i] == pre[i + 1]);
                            }
                            assert(self.slots@[i] == mid[i]);
                        }
                    }
                }
            },
        }
    }

    /// First position whose index is at least `t`; the list's length when
    /// every index is below `t`.
    fn find_pos(es: &Vec<(TxnIndex, EntryCell)>, t: TxnIndex) -> (q: usize)
        ensures
            q <= es@.len(),
            forall|i: int| 0 <= i < q ==> (#[trigger] es@[i]).0 < t,
            q < es@.len() ==> es@[q as int].0 >= t,
    {
        let mut q: usize = 0;
        while q < es.len() && es[q].0 < t
            invariant
                q <= es@.len(),
                forall|i: int| 0 <= i < q ==> (#[trigger] es@[i]).0 < t,
            decreases es@.len() - q,
        {
            q += 1;
        }
        q
    }

    /// Insert or replace the entry of `key` at the write's transaction index
    /// with the written value; the latest incarnation wins.
    pub fn write(&mut self, key: &AccessPath, version: Version, op: WriteOp)
        requires
            old(self).wf(),
        ensures
            final(self).wf(),
            final(self).entries() == old(self).entries().insert(
                *key,
                old(self).entries_of(*key).insert(version.0, cell_of_write(version, op)),
            ),
    {
        let cell = EntryCell {
            incarnation: version.1,
            content: match op {
                WriteOp::Value(v) => EntryContent::Value(v),
                WriteOp::Deletion => EntryContent::Deletion,
            },
            flag: Flag::Done,
        };
        self.upsert(key, version.0, cell);
    }

    /// Record a delta of `txn_idx` at `key`.
    pub fn add_delta(&mut self, key: &AccessPath, txn_idx: TxnIndex, delta: DeltaOp)
        requires
            old(self).wf(),
        ensures
            final(self).wf(),
            final(self).entries() == old(self).entries().insert(
                *key,
                old(self).entries_of(*key).insert(txn_idx, cell_of_delta(delta)),
            ),
    {
        let cell = EntryCell {
            incarnation: 0,
            content: EntryContent::Delta(delta),
            flag: Flag::Done,
        };
        self.upsert(key, txn_idx, cell);
    }

    /// Position of the existing entry of `key` at index `t`.
    fn find_entry(&self, key: &AccessPath, t: TxnIndex) -> (r: (usize, usize))
        requires
            self.wf(),
            self.entries_of(*key).contains_key(t),
        ensures
            r.0 < self.slots@.len(),
            self.slots@[r.0 as int].0 == *key,
            r.1 < self.slots@[r.0 as int].1@.len(),
            self.slots@[r.0 as int].1@[r.1 as int].0 == t,
            self.slots@[r.0 as int].1@[r.1 as int].1 == self.entries_of(*key)[t],
    {
        proof {
            lemma_assoc_contains(self.slots@, *key);
        }
        let p = self.find_slot(key).unwrap();
        let ghost es = self.slots@[p as int].1@;
        proof {
            lemma_assoc_get(self.slots@, p as int);
            lemma_assoc_contains(es, t);
            lemma_sorted_distinct(es);
        }
        let q = Self::find_pos(&self.slots[p].1, t);
        proof {
            let i = choose|i: int| 0 <= i < es.len() && (#[trigger] es[i]).0 == t;
            assert(i >= q);
            assert(i == q) by {
                if i > q {
                    assert(es[q as int].0 < es[i].0);
                }
            }
            lemma_assoc_get(es, q as int);
        }
        (p, q)
    }

    /// Read `key` from the perspective of `txn_idx`: scan the entries below
    /// `txn_idx` in descending order, accumulate the trailing deltas, and
    /// resolve them against the first non-delta entry reached. Returns
    /// exactly what `data_read` says for this key's entries.
    #[verifier::loop_isolation(false)]
    pub fn fetch_data(&self, key: &AccessPath, txn_idx: TxnIndex) -> (r: Result<
        MVDataOutput,
        MVDataError,
    >)
        requires
            self.wf(),
        ensures
            r == data_read(self.entries_of(*key), txn_idx),
    {
        let ghost m = self.entries_of(*key);
        let popt = self.find_slot(key);
        if popt.is_none() {
            proof {
                lemma_assoc_contains(self.slots@, *key);
                assert(!self.entries().contains_key(*key));
                assert(m =~= Map::<TxnIndex, EntryCell>::empty());
                lemma_data_read_skip(m, txn_idx as int, 0, Seq::empty());
            }
            return Err(MVDataError::NotFound);
        }
        let p = popt.unwrap();
        proof {
            lemma_assoc_get(self.slots@, p as int);
            lemma_sorted_distinct(self.slots@[p as int].1@);
        }
        let es = &self.slots[p].1;
        proof {
            assert(m == assoc_map(es@));
        }
        let mut j: usize = es.len();
        while j > 0 && es[j - 1].0 >= txn_idx
            invariant
                j <= es@.len(),
                forall|i: int| j <= i < es@.len() ==> (#[trigger] es@[i]).0 >= txn_idx,
            decreases j,
        {
            j -= 1;
        }
        proof {
            assert forall|u: TxnIndex|
                (if j == 0 {
                    0
                } else {
                    es@[j - 1].0 + 1
                }) <= u < txn_idx implies !(#[trigger] m.contains_key(u)) by {
                lemma_assoc_contains(es@, u);
                if m.contains_key(u) {
                    let i = choose|i: int| 0 <= i < es@.len() && (#[trigger] es@[i]).0 == u;
                    if i >= j {
                        assert(es@[i].0 >= txn_idx);
                    } else {
                        assert(i <= j - 1);
                        if i < j - 1 {
                            assert(es@[i].0 < es@[j - 1].0);
                        }
                    }
                }
            }
            if j == 0 {
                lemma_data_read_skip(m, txn_idx as int, 0, Seq::empty());
            } else {
                lemma_data_read_skip(m, txn_idx as int, es@[j - 1].0 + 1, Seq::empty());
            }
            assert(Seq::<DeltaOp>::empty().reverse() =~= Seq::<DeltaOp>::empty());
        }
        let mut deltas: Vec<DeltaOp> = Vec::new();
        while j > 0
            invariant
                j <= es@.len(),
                forall|i: int| 0 <= i < j ==> (#[trigger] es@[i]).0 < txn_idx,
                j > 0 ==> data_read(m, txn_idx) == data_read_from(
                    m,
                    es@[j - 1].0 + 1,
                    deltas@.reverse(),
                ),
                j == 0 ==> data_read(m, txn_idx) == data_read_from(m, 0, deltas@.reverse()),
            decreases j,
        {
            j -= 1;
            let (t, cell) = es[j];
            let ghost acc = deltas@.reverse();
            proof {
                lemma_assoc_get(es@, j as int);
                assert(m.contains_key(t) && m[t] == cell);
                assert(data_read(m, txn_idx) == data_read_from(m, t as int + 1, acc));
            }
            if let Flag::Estimate = cell.flag {
                return Err(MVDataError::Dependency(t));
            }
            match cell.content {
                EntryContent::Value(v) => {
                    match materialize(&deltas, v) {
                        Some(val) => {
                            return Ok(MVDataOutput::Versioned((t, cell.incarnation), val));
                        },
                        None => {
                            return Err(MVDataError::DeltaApplicationFailure);
                        },
                    }
                },
                EntryContent::Deletion => {
                    if deltas.len() == 0 {
                        return Err(MVDataError::NotFound);
                    } else {
                        return Err(MVDataError::DeltaApplicationFailure);
                    }
                },
                EntryContent::Delta(d) => {
                    deltas.push(d);
                    proof {
                        assert(deltas@.reverse() =~= seq![d] + acc);
                        assert(data_read_from(m, t as int + 1, acc) == data_read_from(
                            m,
                            t as int,
                            deltas@.reverse(),
                        ));
                        assert forall|u: TxnIndex|
                            (if j == 0 {
                                0
                            } else {
                                es@[j - 1].0 + 1
                            }) <= u < t implies !(#[trigger] m.contains_key(u)) by {
                            lemma_assoc_contains(es@, u);
                            if m.contains_key(u) {
                                let i = choose|i: int|
                                    0 <= i < es@.len() && (#[trigger] es@[i]).0 == u;
                                if i > j {
                                    assert(es@[j as int].0 < es@[i].0);
                                } else if i == j {
                                } else {
                                    assert(i <= j - 1);
                                    if i < j - 1 {
                                        assert(es@[i].0 < es@[j - 1].0);
                                    }
                                }
                            }
                        }
                        if j == 0 {
                            lemma_data_read_skip(m, t as int, 0, deltas@.reverse());
                        } else {
                            lemma_data_read_skip(m, t as int, es@[j - 1].0 + 1, deltas@.reverse());
                        }
                    }
                },
            }
        }
        if deltas.len() == 0 {
            proof {
                assert(deltas@.reverse() =~= Seq::<DeltaOp>::empty());
            }
            return Err(MVDataError::NotFound);
        }
        match sum_deltas(&deltas) {
            Some(sum) => Ok(MVDataOutput::Resolved(sum)),
            None => Err(MVDataError::Unresolved),
        }
    }

    /// Flip the entry of `key` at `txn_idx` to an estimate. The entry must
    /// exist; a missing entry is a scheduler bug the store cannot absorb.
    pub fn mark_estimate(&mut self, key: &AccessPath, txn_idx: TxnIndex)
        requires
            old(self).wf(),
            old(self).entries_of(*key).contains_key(txn_idx),
        ensures
            final(self).wf(),
            final(self).entries() == old(self).entries().insert(
                *key,
                old(self).entries_of(*key).insert(
                    txn_idx,
                    EntryCell {
                        incarnation: old(self).entries_of(*key)[txn_idx].incarnation,
                        content: old(self).entries_of(*key)[txn_idx].content,
                        flag: Flag::Estimate,
                    },
                ),
            ),
    {
        let (p, q) = self.find_entry(key, txn_idx);
        let ghost pre = self.slots@;
        let mut pair = self.slots.remove(p);
        let ghost es0 = pair.1@;
        let c0 = pair.1[q].1;
        let cell = EntryCell { incarnation: c0.incarnation, content: c0.content, flag: Flag::Estimate };
        pair.1[q] = (txn_idx, cell);
        proof {
            lemma_assoc_get(pre, p as int);
            lemma_assoc_remove(pre, p as int);
            lemma_sorted_distinct(es0);
            lemma_assoc_update(es0, q as int, cell);
            assert(sorted_keys(pair.1@));
        }
        let ghost mid = self.slots@;
        let ghost es1 = pair.1;
        self.slots.push(pair);
        proof {
            assert forall|i: int| 0 <= i < mid.len() implies (#[trigger] mid[i]).0 != *key by {
                if i < p {
                    assert(mid[i] == pre[i]);
                } else {
                    assert(mid[i] == pre[i + 1]);
                }
            }
            lemma_assoc_push(mid, *key, es1);
            assert(assoc_map(self.slots@) =~= assoc_map(pre).insert(*key, es1));
            assert(final(self).entries() =~= old(self).entries().insert(
                *key,
                old(self).entries_of(*key).insert(txn_idx, cell),
            ));
            assert forall|i: int| 0 <= i < self.slots@.len() implies sorted_keys(
                (#[trigger] self.slots@[i]).1@,
            ) by {
                if i < mid.len() {
                    if i < p {
                        assert(mid[i] == pre[i]);
                    } else {
                        assert(mid[i] == pre[i + 1]);
                    }
                    assert(self.slots@[i] == mid[i]);
                }
            }
        }
    }

    /// Remove the entry of `key` at `txn_idx`. The entry must exist; a
    /// missing entry is a scheduler bug the store cannot absorb.
    pub fn delete(&mut self, key: &AccessPath, txn_idx: TxnIndex)
        requires
            old(self).wf(),
            old(self).entries_of(*key).contains_key(txn_idx),
        ensures
            final(self).wf(),
            final(self).entries() == old(self).entries().insert(
                *key,
                old(self).entries_of(*key).remove(txn_idx),
            ),
    {
        let (p, q) = self.find_entry(key, txn_idx);
        let ghost pre = self.slots@;
        let mut pair = self.slots.remove(p);
        let ghost es0 = pair.1@;
        pair.1.remove(q);
        proof {
            lemma_assoc_get(pre, p as int);
            lemma_assoc_remove(pre, p as int);
            lemma_sorted_distinct(es0);
            lemma_assoc_remove(es0, q as int);
            let es1 = pair.1@;
            assert forall|i: int, j: int| 0 <= i < j < es1.len() implies (#[trigger] es1[i]).0 < (
            #[trigger] es1[j]).0 by {
                if i < q {
                    assert(es1[i] == es0[i]);
                } else {
                    assert(es1[i] == es0[i + 1]);
                }
                if j < q {
                    assert(es1[j] == es0[j]);
                } else {
                    assert(es1[j] == es0[j + 1]);
                }
            }
        }
        let ghost mid = self.slots@;
        let ghost es1 = pair.1;
        self.slots.push(pair);
        proof {
            assert forall|i: int| 0 <= i < mid.len() implies (#[trigger] mid[i]).0 != *key by {
                if i < p {
                    assert(mid[i] == pre[i]);
                } else {
                    assert(mid[i] == pre[i + 1]);
                }
            }
            lemma_assoc_push(mid, *key, es1);
            assert(assoc_map(self.slots@) =~= assoc_map(pre).insert(*key, es1));
            assert(final(self).entries() =~= old(self).entries().insert(
                *key,
                old(self).entries_of(*key).remove(txn_idx),
            ));
            assert forall|i: int| 0 <= i < self.slots@.len() implies sorted_keys(
                (#[trigger] self.slots@[i]).1@,
            ) by {
                if i < mid.len() {
                    if i < p {
                        assert(mid[i] == pre[i]);
                    } else {
                        assert(mid[i] == pre[i + 1]);
                    }
                    assert(self.slots@[i] == mid[i]);
                }
            }
        }
    }
}

} // verus!
