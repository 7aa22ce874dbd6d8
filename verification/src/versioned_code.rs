//! Code half of the multi-version store: module publishes and a cache of
//! compiled executables keyed by descriptor.
//!
//! A publish during the block is content-addressed: its descriptor carries
//! the published bytes themselves, which plays the role of a perfect content
//! hash, so the same descriptor always names the same bytes. An executable
//! compiled from the storage baseline is cached under `StorageVersion`. The
//! cache is block-local by default but can be handed back at teardown and
//! threaded into the next block's store.

use crate::assoc::{
    assoc_map, distinct_keys, lemma_assoc_contains, lemma_assoc_get, lemma_assoc_insert_at,
    lemma_assoc_push, lemma_assoc_remove, lemma_assoc_update, lemma_sorted_distinct, sorted_keys,
};
use crate::types::{
    AccessPath, Executable, ExecutableDescriptor, Flag, MVCodeError, MVCodeOutput, TxnIndex,
    WriteOp,
};
use vstd::prelude::*;

verus! {

/// Content of one versioned code entry.
#[derive(Clone, Copy, PartialEq, Eq, Structural, Debug)]
pub enum CodeContent {
    /// Module bytes published by this transaction.
    Module(u128),
    /// The module was deleted by this transaction.
    Deletion,
}

/// One versioned code entry.
#[derive(Clone, Copy, PartialEq, Eq, Structural, Debug)]
pub struct CodeCell {
    pub content: CodeContent,
    pub flag: Flag,
}

/// The entry a module publish stores.
pub open spec fn code_cell_of_write(op: WriteOp) -> CodeCell {
    CodeCell {
        content: match op {
            WriteOp::Value(v) => CodeContent::Module(v),
            WriteOp::Deletion => CodeContent::Deletion,
        },
        flag: Flag::Done,
    }
}

/// Descriptor of a publish: the published bytes, content-addressed.
pub open spec fn descriptor_of(bytes: u128) -> ExecutableDescriptor {
    ExecutableDescriptor::PublishedModuleHash(bytes)
}

/// The descending scan of a code read from just below position `i`: the
/// latest visible publish decides, with no deltas to accumulate. When no
/// publish is visible, an executable compiled from the storage baseline may
/// still answer the read.
pub open spec fn code_read_from(
    entries: Map<TxnIndex, CodeCell>,
    cache: Map<ExecutableDescriptor, Executable>,
    i: int,
) -> Result<MVCodeOutput, MVCodeError>
    decreases i,
{
    if i <= 0 {
        if cache.contains_key(ExecutableDescriptor::StorageVersion) {
            Ok(
                MVCodeOutput::Executable(
                    cache[ExecutableDescriptor::StorageVersion],
                    ExecutableDescriptor::StorageVersion,
                ),
            )
        } else {
            Err(MVCodeError::NotFound)
        }
    } else {
        let t = (i - 1) as TxnIndex;
        if entries.contains_key(t) {
            let e = entries[t];
            if e.flag is Estimate {
                Err(MVCodeError::Dependency(t))
            } else {
                match e.content {
                    CodeContent::Module(b) => if cache.contains_key(descriptor_of(b)) {
                        Ok(MVCodeOutput::Executable(cache[descriptor_of(b)], descriptor_of(b)))
                    } else {
                        Ok(MVCodeOutput::Module(b, descriptor_of(b)))
                    },
                    CodeContent::Deletion => Err(MVCodeError::NotFound),
                }
            }
        } else {
            code_read_from(entries, cache, i - 1)
        }
    }
}

/// What a code read of a key from the perspective of `txn_idx` returns.
pub open spec fn code_read(
    entries: Map<TxnIndex, CodeCell>,
    cache: Map<ExecutableDescriptor, Executable>,
    txn_idx: TxnIndex,
) -> Result<MVCodeOutput, MVCodeError> {
    code_read_from(entries, cache, txn_idx as int)
}

/// The scan steps over a stretch of absent indices unchanged.
pub proof fn lemma_code_read_skip(
    entries: Map<TxnIndex, CodeCell>,
    cache: Map<ExecutableDescriptor, Executable>,
    hi: int,
    lo: int,
)
    requires
        0 <= lo <= hi <= u32::MAX as int + 1,
        forall|t: TxnIndex| lo <= t < hi ==> !(#[trigger] entries.contains_key(t)),
    ensures
        code_read_from(entries, cache, hi) == code_read_from(entries, cache, lo),
    decreases hi - lo,
{
    if lo < hi {
        assert(!entries.contains_key((hi - 1) as TxnIndex));
        lemma_code_read_skip(entries, cache, hi - 1, lo);
    }
}

/// The code half: per key an ordered list of publishes, and per key a cache
/// of compiled executables keyed by descriptor.
pub struct VersionedCode {
    slots: Vec<(AccessPath, Vec<(TxnIndex, CodeCell)>)>,
    cache: Vec<(AccessPath, Vec<(ExecutableDescriptor, Executable)>)>,
}

impl VersionedCode {
    /// Abstract state of the publishes.
    pub closed spec fn entries(self) -> Map<AccessPath, Map<TxnIndex, CodeCell>> {
        assoc_map(self.slots@).map_values(|es: Vec<(TxnIndex, CodeCell)>| assoc_map(es@))
    }

    /// Publishes of one key; empty where nothing was published.
    pub open spec fn entries_of(self, key: AccessPath) -> Map<TxnIndex, CodeCell> {
        if self.entries().contains_key(key) {
            self.entries()[key]
        } else {
            Map::empty()
        }
    }

    /// Abstract state of the executable cache.
    pub closed spec fn cache_map(self) -> Map<AccessPath, Map<ExecutableDescriptor, Executable>> {
        assoc_map(self.cache@).map_values(
            |xs: Vec<(ExecutableDescriptor, Executable)>| assoc_map(xs@),
        )
    }

    /// Cached executables of one key; empty where none was stored.
    pub open spec fn cache_of(self, key: AccessPath) -> Map<ExecutableDescriptor, Executable> {
        if self.cache_map().contains_key(key) {
            self.cache_map()[key]
        } else {
            Map::empty()
        }
    }

    /// Outer keys distinct in both lists; publish lists sorted by index;
    /// cache lists with distinct descriptors.
    pub closed spec fn wf(self) -> bool {
        &&& distinct_keys(self.slots@)
        &&& forall|i: int|
            0 <= i < self.slots@.len() ==> sorted_keys((#[trigger] self.slots@[i]).1@)
        &&& distinct_keys(self.cache@)
        &&& forall|i: int|
            0 <= i < self.cache@.len() ==> distinct_keys((#[trigger] self.cache@[i]).1@)
    }

    /// An empty code half.
    pub fn new() -> (r: VersionedCode)
        ensures
            r.wf(),
            r.entries() == Map::<AccessPath, Map<TxnIndex, CodeCell>>::empty(),
            r.cache_map() == Map::<AccessPath, Map<ExecutableDescriptor, Executable>>::empty(),
    {
        let r = VersionedCode { slots: Vec::new(), cache: Vec::new() };
        proof {
            assert(r.entries() =~= Map::<AccessPath, Map<TxnIndex, CodeCell>>::empty());
            assert(r.cache_map() =~= Map::<
                AccessPath,
                Map<ExecutableDescriptor, Executable>,
            >::empty());
        }
        r
    }

    /// Position of `key`'s publish slot, if any.
    fn find_slot(&self, key: &AccessPath) -> (r: Option<usize>)
        ensures
            match r {
                Some(p) => p < self.slots@.len() && self.slots@[p as int].0 == *key,
                None => forall|q: int|
                    0 <= q < self.slots@.len() ==> (#[trigger] self.slots@[q]).0 != *key,
            },
    {
        let mut p: usize = 0;
        while p < self.slots.len()
            invariant
                p <= self.slots@.len(),
                forall|q: int| 0 <= q < p ==> (#[trigger] self.slots@[q]).0 != *key,
            decreases self.slots@.len() - p,
        {
            if self.slots[p].0 == *key {
                return Some(p);
            }
            p += 1;
        }
        None
    }

    /// First position whose index is at least `t`.
    fn find_pos(es: &Vec<(TxnIndex, CodeCell)>, t: TxnIndex) -> (q: usize)
        ensures
            q <= es@.len(),
            forall|i: int| 0 <= i < q ==> (#[trigger] es@[i]).0 < t,
            q < es@.len() ==> es@[q as int].0 >= t,
    {
        let mut q: usize = 0;
        while q < es.len() && es[q].0 < t
            invariant
                q <= es@.len(),
                forall|i: int| 0 <= i < q ==> (#[trigger] es@[i]).0 < t,
            decreases es@.len() - q,
        {
            q += 1;
        }
        q
    }

    /// Insert or replace the publish entry of `key` at index `t`.
    fn upsert(&mut self, key: &AccessPath, t: TxnIndex, cell: CodeCell)
        requires
            old(self).wf(),
        ensures
            final(self).wf(),
            final(self).entries() == old(self).entries().insert(
                *key,
                old(self).entries_of(*key).insert(t, cell),
            ),
            final(self).cache_map() == old(self).cache_map(),
    {
        let ghost pre = self.slots@;
        match self.find_slot(key) {
            None => {
                let mut es: Vec<(TxnIndex, CodeCell)> = Vec::new();
                es.push((t, cell));
                self.slots.push((*key, es));
                proof {
                    lemma_assoc_push(pre, *key, es);
                    lemma_assoc_contains(pre, *key);
                    assert(es@.drop_last() =~= Seq::<(TxnIndex, CodeCell)>::empty());
                    assert(assoc_map(Seq::<(TxnIndex, CodeCell)>::empty()) == Map::<
                        TxnIndex,
                        CodeCell,
                    >::empty());
                    assert(assoc_map(es@) =~= Map::<TxnIndex, CodeCell>::empty().insert(t, cell));
                    assert(old(self).entries_of(*key) =~= Map::<TxnIndex, CodeCell>::empty());
                    assert(final(self).entries() =~= old(self).entries().insert(
                        *key,
                        old(self).entries_of(*key).insert(t, cell),
                    ));
                    assert forall|i: int| 0 <= i < self.slots@.len() implies sorted_keys(
                        (#[trigger] self.slots@[i]).1@,
                    ) by {
                        if i < pre.len() {
                            assert(self.slots@[i] == pre[i]);
                        }
                    }
                }
            },
            Some(p) => {
                let mut pair = self.slots.remove(p);
                let ghost es0 = pair.1@;
                proof {
                    lemma_assoc_get(pre, p as int);
                    lemma_assoc_remove(pre, p as int);
                    assert(sorted_keys(es0));
                    lemma_sorted_distinct(es0);
                }
                let q = Self::find_pos(&pair.1, t);
                if q < pair.1.len() && pair.1[q].0 == t {
                    pair.1[q] = (t, cell);
                    proof {
                        assert(es0[q as int].0 == t);
                        lemma_assoc_update(es0, q as int, cell);
                        assert(sorted_keys(pair.1@));
                    }
                } else {
                    proof {
                        assert forall|i: int| 0 <= i < es0.len() implies (#[trigger] es0[i]).0
                            != t by {
                            if i >= q {
                                assert(es0[q as int].0 >= t);
                                assert(es0[q as int].0 != t);
                            }
                        }
                        lemma_assoc_insert_at(es0, q as int, t, cell);
                    }
                    pair.1.insert(q, (t, cell));
                    proof {
                        let es1 = pair.1@;
                        assert forall|i: int, j: int| 0 <= i < j < es1.len() implies (
                        #[trigger] es1[i]).0 < (#[trigger] es1[j]).0 by {
                            if i < q {
                                assert(es1[i] == es0[i]);
                            } else if i > q {
                                assert(es1[i] == es0[i - 1]);
                            }
                            if j < q {
                                assert(es1[j] == es0[j]);
                            } else if j > q {
                                assert(es1[j] == es0[j - 1]);
                                assert(es0[j - 1].0 >= es0[q as int].0 > t || (j - 1 == q
                                    && es0[q as int].0 > t));
                            }
                        }
                    }
                }
                let ghost mid = self.slots@;
                let ghost es1 = pair.1;
                self.slots.push(pair);
                proof {
                    assert forall|i: int| 0 <= i < mid.len() implies (#[trigger] mid[i]).0
                        != *key by {
                        if i < p {
                            assert(mid[i] == pre[i]);
                        } else {
                            assert(mid[i] == pre[i + 1]);
                        }
                    }
                    lemma_assoc_push(mid, *key, es1);
                    assert(assoc_map(self.slots@) =~= assoc_map(pre).insert(*key, es1));
                    assert(old(self).entries_of(*key) == assoc_map(es0));
                    assert(assoc_map(es1@) =~= old(self).entries_of(*key).insert(t, cell));
                    assert(final(self).entries() =~= old(self).entries().insert(
                        *key,
                        old(self).entries_of(*key).insert(t, cell),
                    ));
                    assert forall|i: int| 0 <= i < self.slots@.len() implies sorted_keys(
                        (#[trigger] self.slots@[i]).1@,
                    ) by {
                        if i < mid.len() {
                            if i < p {
                                assert(mid[i] == pre[i]);
                            } else {
                                assert(mid[i] == pre[i + 1]);
                            }
                            assert(self.slots@[i] == mid[i]);
                        }
                    }
                }
            },
        }
    }

    /// A module publish: insert or replace the entry of `key` at `txn_idx`.
    pub fn write(&mut self, key: &AccessPath, txn_idx: TxnIndex, op: WriteOp)
        requires
            old(self).wf(),
        ensures
            final(self).wf(),
            final(self).entries() == old(self).entries().insert(
                *key,
                old(self).entries_of(*key).insert(txn_idx, code_cell_of_write(op)),
            ),
            final(self).cache_map() == old(self).cache_map(),
    {
        let cell = CodeCell {
            content: match op {
                WriteOp::Value(v) => CodeContent::Module(v),
                WriteOp::Deletion => CodeContent::Deletion,
            },
            flag: Flag::Done,
        };
        self.upsert(key, txn_idx, cell);
    }

    /// Position of the existing publish entry of `key` at index `t`.
    fn find_entry(&self, key: &AccessPath, t: TxnIndex) -> (r: (usize, usize))
        requires
            self.wf(),
            self.entries_of(*key).contains_key(t),
        ensures
            r.0 < self.slots@.len(),
            self.slots@[r.0 as int].0 == *key,
            r.1 < self.slots@[r.0 as int].1@.len(),
            self.slots@[r.0 as int].1@[r.1 as int].0 == t,
            self.slots@[r.0 as int].1@[r.1 as int].1 == self.entries_of(*key)[t],
    {
        proof {
            lemma_assoc_contains(self.slots@, *key);
        }
        let p = self.find_slot(key).unwrap();
        let ghost es = self.slots@[p as int].1@;
        proof {
            lemma_assoc_get(self.slots@, p as int);
            lemma_assoc_contains(es, t);
            lemma_sorted_distinct(es);
        }
        let q = Self::find_pos(&self.slots[p].1, t);
        proof {
            let i = choose|i: int| 0 <= i < es.len() && (#[trigger] es[i]).0 == t;
            assert(i >= q);
            assert(i == q) by {
                if i > q {
                    assert(es[q as int].0 < es[i].0);
                }
            }
            lemma_assoc_get(es, q as int);
        }
        (p, q)
    }

    /// Flip the publish entry of `key` at `txn_idx` to an estimate. The
    /// entry must exist.
    pub fn mark_estimate(&mut self, key: &AccessPath, txn_idx: TxnIndex)
        requires
            old(self).wf(),
            old(self).entries_of(*key).contains_key(txn_idx),
        ensures
            final(self).wf(),
            final(self).entries() == old(self).entries().insert(
                *key,
                old(self).entries_of(*key).insert(
                    txn_idx,
                    CodeCell {
                        content: old(self).entries_of(*key)[txn_idx].content,
                        flag: Flag::Estimate,
                    },
                ),
            ),
            final(self).cache_map() == old(self).cache_map(),
    {
        let (p, q) = self.find_entry(key, txn_idx);
        let c0 = self.slots[p].1[q].1;
        let cell = CodeCell { content: c0.content, flag: Flag::Estimate };
        self.upsert(key, txn_idx, cell);
    }

    /// Remove the publish entry of `key` at `txn_idx`. The entry must exist.
    pub fn delete(&mut self, key: &AccessPath, txn_idx: TxnIndex)
        requires
            old(self).wf(),
            old(self).entries_of(*key).contains_key(txn_idx),
        ensures
            final(self).wf(),
            final(self).entries() == old(self).entries().insert(
                *key,
                old(self).entries_of(*key).remove(txn_idx),
            ),
            final(self).cache_map() == old(self).cache_map(),
    {
        let (p, q) = self.find_entry(key, txn_idx);
        let ghost pre = self.slots@;
        let mut pair = self.slots.remove(p);
        let ghost es0 = pair.1@;
        pair.1.remove(q);
        proof {
            lemma_assoc_get(pre, p as int);
            lemma_assoc_remove(pre, p as int);
            lemma_sorted_distinct(es0);
            lemma_assoc_remove(es0, q as int);
            let es1 = pair.1@;
            assert forall|i: int, j: int| 0 <= i < j < es1.len() implies (#[trigger] es1[i]).0 < (
            #[trigger] es1[j]).0 by {
                if i < q {
                    assert(es1[i] == es0[i]);
                } else {
                    assert(es1[i] == es0[i + 1]);
                }
                if j < q {
                    assert(es1[j] == es0[j]);
                } else {
                    assert(es1[j] == es0[j + 1]);
                }
            }
        }
        let ghost mid = self.slots@;
        let ghost es1 = pair.1;
        self.slots.push(pair);
        proof {
            assert forall|i: int| 0 <= i < mid.len() implies (#[trigger] mid[i]).0 != *key by {
                if i < p {
                    assert(mid[i] == pre[i]);
                } else {
                    assert(mid[i] == pre[i + 1]);
                }
            }
            lemma_assoc_push(mid, *key, es1);
            assert(assoc_map(self.slots@) =~= assoc_map(pre).insert(*key, es1));
            assert(final(self).entries() =~= old(self).entries().insert(
                *key,
                old(self).entries_of(*key).remove(txn_idx),
            ));
            assert forall|i: int| 0 <= i < self.slots@.len() implies sorted_keys(
                (#[trigger] self.slots@[i]).1@,
            ) by {
                if i < mid.len() {
                    if i < p {
                        assert(mid[i] == pre[i]);
                    } else {
                        assert(mid[i] == pre[i + 1]);
                    }
                    assert(self.slots@[i] == mid[i]);
                }
            }
        }
    }

    /// Install a compiled executable for `key` under `descriptor`, replacing
    /// any executable already cached under it.
    pub fn store_executable(
        &mut self,
        key: &AccessPath,
        descriptor: ExecutableDescriptor,
        executable: Executable,
    )
        requires
            old(self).wf(),
        ensures
            final(self).wf(),
            final(self).entries() == old(self).entries(),
            final(self).cache_map() == old(self).cache_map().insert(
                *key,
                old(self).cache_of(*key).insert(descriptor, executable),
            ),
    {
        let ghost pre = self.cache@;
        let mut p: usize = 0;
        let n = self.cache.len();
        while p < n && !(self.cache[p].0 == *key)
            invariant
                n == self.cache@.len(),
                p <= n,
                forall|q: int| 0 <= q < p ==> (#[trigger] self.cache@[q]).0 != *key,
                self.cache@ == pre,
            decreases n - p,
        {
            p += 1;
        }
        if p == n {
            let mut xs: Vec<(ExecutableDescriptor, Executable)> = Vec::new();
            xs.push((descriptor, executable));
            self.cache.push((*key, xs));
            proof {
                lemma_assoc_push(pre, *key, xs);
                lemma_assoc_contains(pre, *key);
                assert(xs@.drop_last() =~= Seq::<(ExecutableDescriptor, Executable)>::empty());
                assert(assoc_map(Seq::<(ExecutableDescriptor, Executable)>::empty()) == Map::<
                    ExecutableDescriptor,
                    Executable,
                >::empty());
                assert(assoc_map(xs@) =~= Map::<ExecutableDescriptor, Executable>::empty().insert(
                    descriptor,
                    executable,
                ));
                assert(old(self).cache_of(*key) =~= Map::<
                    ExecutableDescriptor,
                    Executable,
                >::empty());
                assert(final(self).cache_map() =~= old(self).cache_map().insert(
                    *key,
                    old(self).cache_of(*key).insert(descriptor, executable),
                ));
                assert forall|i: int| 0 <= i < self.cache@.len() implies distinct_keys(
                    (#[trigger] self.cache@[i]).1@,
                ) by {
                    if i < pre.len() {
                        assert(self.cache@[i] == pre[i]);
                    }
                }
            }
        } else {
            let mut pair = self.cache.remove(p);
            let ghost xs0 = pair.1@;
            proof {
                lemma_assoc_get(pre, p as int);
                lemma_assoc_remove(pre, p as int);
                assert(distinct_keys(xs0));
            }
            let mut q: usize = 0;
            let k = pair.1.len();
            while q < k && !(pair.1[q].0 == descriptor)
                invariant
                    k == pair.1@.len(),
                    q <= k,
                    forall|i: int| 0 <= i < q ==> (#[trigger] pair.1@[i]).0 != descriptor,
                    pair.1@ == xs0,
                decreases k - q,
            {
                q += 1;
            }
            if q == k {
                pair.1.push((descriptor, executable));
                proof {
                    lemma_assoc_push(xs0, descriptor, executable);
                }
            } else {
                proof {
                    assert(xs0[q as int].0 == descriptor);
                }
                pair.1[q] = (descriptor, executable);
                proof {
                    lemma_assoc_update(xs0, q as int, executable);
                }
            }
            let ghost mid = self.cache@;
            let ghost xs1 = pair.1;
            self.cache.push(pair);
            proof {
                assert forall|i: int| 0 <= i < mid.len() implies (#[trigger] mid[i]).0 != *key by {
                    if i < p {
                        assert(mid[i] == pre[i]);
                    } else {
                        assert(mid[i] == pre[i + 1]);
                    }
                }
                lemma_assoc_push(mid, *key, xs1);
                assert(assoc_map(self.cache@) =~= assoc_map(pre).insert(*key, xs1));
                assert(old(self).cache_of(*key) == assoc_map(xs0));
                assert(assoc_map(xs1@) =~= old(self).cache_of(*key).insert(
                    descriptor,
                    executable,
                ));
                assert(final(self).cache_map() =~= old(self).cache_map().insert(
                    *key,
                    old(self).cache_of(*key).insert(descriptor, executable),
                ));
                assert forall|i: int| 0 <= i < self.cache@.len() implies distinct_keys(
                    (#[trigger] self.cache@[i]).1@,
                ) by {
                    if i < mid.len() {
                        if i < p {
                            assert(mid[i] == pre[i]);
                        } else {
                            assert(mid[i] == pre[i + 1]);
                        }
                        assert(self.cache@[i] == mid[i]);
                    }
                }
            }
        }
    }

    /// Look up a cached executable of `key` under `descriptor`.
    fn cached(&self, key: &AccessPath, descriptor: &ExecutableDescriptor) -> (r: Option<Executable>)
        requires
            self.wf(),
        ensures
            match r {
                Some(x) => self.cache_of(*key).contains_key(*descriptor) && x == self.cache_of(
                    *key,
                )[*descriptor],
                None => !self.cache_of(*key).contains_key(*descriptor),
            },
    {
        let n = self.cache.len();
        let mut p: usize = 0;
        while p < n && !(self.cache[p].0 == *key)
            invariant
                n == self.cache@.len(),
                p <= n,
                forall|q: int| 0 <= q < p ==> (#[trigger] self.cache@[q]).0 != *key,
            decreases n - p,
        {
            p += 1;
        }
        if p == n {
            proof {
                lemma_assoc_contains(self.cache@, *key);
            }
            return None;
        }
        proof {
            lemma_assoc_get(self.cache@, p as int);
        }
        let xs = &self.cache[p].1;
        let k = xs.len();
        let mut q: usize = 0;
        while q < k && !(xs[q].0 == *descriptor)
            invariant
                k == xs@.len(),
                q <= k,
                forall|i: int| 0 <= i < q ==> (#[trigger] xs@[i]).0 != *descriptor,
            decreases k - q,
        {
            q += 1;
        }
        if q == k {
            proof {
                lemma_assoc_contains(xs@, *descriptor);
            }
            None
        } else {
            proof {
                lemma_assoc_get(xs@, q as int);
            }
            Some(xs[q].1)
        }
    }

    /// Read the code at `key` from the perspective of `txn_idx`: the latest
    /// visible publish decides; a cached executable for its descriptor is
    /// preferred over handing the module back for compilation. Returns
    /// exactly what `code_read` says for this key's entries and cache.
    #[verifier::loop_isolation(false)]
    pub fn fetch_code(&self, key: &AccessPath, txn_idx: TxnIndex) -> (r: Result<
        MVCodeOutput,
        MVCodeError,
    >)
        requires
            self.wf(),
        ensures
            r == code_read(self.entries_of(*key), self.cache_of(*key), txn_idx),
    {
        let ghost m = self.entries_of(*key);
        let ghost c = self.cache_of(*key);
        let popt = self.find_slot(key);
        let mut j: usize = 0;
        let mut have_entry = false;
        let mut latest: (TxnIndex, CodeCell) = (
            0,
            CodeCell { content: CodeContent::Deletion, flag: Flag::Done },
        );
        if popt.is_none() {
            proof {
                lemma_assoc_contains(self.slots@, *key);
                assert(!self.entries().contains_key(*key));
                assert(m =~= Map::<TxnIndex, CodeCell>::empty());
                lemma_code_read_skip(m, c, txn_idx as int, 0);
            }
        } else {
            let p = popt.unwrap();
            proof {
                lemma_assoc_get(self.slots@, p as int);
                lemma_sorted_distinct(self.slots@[p as int].1@);
                assert(m == assoc_map(self.slots@[p as int].1@));
            }
            let es = &self.slots[p].1;
            j = es.len();
            while j > 0 && es[j - 1].0 >= txn_idx
                invariant
                    j <= es@.len(),
                    forall|i: int| j <= i < es@.len() ==> (#[trigger] es@[i]).0 >= txn_idx,
                decreases j,
            {
                j -= 1;
            }
            proof {
                assert forall|u: TxnIndex|
                    (if j == 0 {
                        0
                    } else {
                        es@[j - 1].0 + 1
                    }) <= u < txn_idx implies !(#[trigger] m.contains_key(u)) by {
                    lemma_assoc_contains(es@, u);
                    if m.contains_key(u) {
                        let i = choose|i: int| 0 <= i < es@.len() && (#[trigger] es@[i]).0 == u;
                        if i >= j {
                            assert(es@[i].0 >= txn_idx);
                        } else {
                            assert(i <= j - 1);
                            if i < j - 1 {
                                assert(es@[i].0 < es@[j - 1].0);
                            }
                        }
                    }
                }
                if j == 0 {
                    lemma_code_read_skip(m, c, txn_idx as int, 0);
                } else {
                    lemma_code_read_skip(m, c, txn_idx as int, es@[j - 1].0 + 1);
                    lemma_assoc_get(es@, j - 1);
                }
            }
            if j > 0 {
                have_entry = true;
                latest = es[j - 1];
            }
        }
        if !have_entry {
            return match self.cached(key, &ExecutableDescriptor::StorageVersion) {
                Some(x) => Ok(MVCodeOutput::Executable(x, ExecutableDescriptor::StorageVersion)),
                None => Err(MVCodeError::NotFound),
            };
        }
        let (t, cell) = latest;
        if let Flag::Estimate = cell.flag {
            return Err(MVCodeError::Dependency(t));
        }
        match cell.content {
            CodeContent::Module(b) => {
                let desc = ExecutableDescriptor::PublishedModuleHash(b);
                match self.cached(key, &desc) {
                    Some(x) => Ok(MVCodeOutput::Executable(x, desc)),
                    None => Ok(MVCodeOutput::Module(b, desc)),
                }
            },
            CodeContent::Deletion => Err(MVCodeError::NotFound),
        }
    }
}

impl Default for VersionedCode {
    /// An empty code half.
    fn default() -> (r: VersionedCode)
        ensures
            r.wf(),
            r.entries() == Map::<AccessPath, Map<TxnIndex, CodeCell>>::empty(),
            r.cache_map() == Map::<AccessPath, Map<ExecutableDescriptor, Executable>>::empty(),
    {
        VersionedCode::new()
    }
}

} // verus!
