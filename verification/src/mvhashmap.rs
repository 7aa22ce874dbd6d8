//! The multi-version store: a thin dispatcher over the data half and the
//! code half. Each request is routed by inspecting whether its access path
//! names published module code. `take` surrenders both halves so the code
//! half — and its compiled executables — can be threaded into the store of
//! the next block.
//!
//! Sharing model: workers synchronize per key, each operation running as one
//! atomic step under its key's stripe lock, and no ordering is promised
//! across keys. The store is therefore stated as a sequential structure:
//! each method's contract gives the effect of one such atomic step, which is
//! the per-key linearized behaviour the locking guarantees.

use crate::delta::DeltaOp;
use crate::types::{
    AccessPath, Executable, ExecutableDescriptor, MVCodeError, MVCodeOutput, MVDataError,
    MVDataOutput, TxnIndex, Version, WriteOp,
};
use crate::versioned_code::{code_cell_of_write, code_read, VersionedCode};
use crate::versioned_data::{cell_of_delta, cell_of_write, data_read, VersionedData};
use vstd::prelude::*;

verus! {

/// Multi-version store used by worker threads to read and write during
/// parallel execution, partitioned into a data half for ordinary state and a
/// code half for published modules.
pub struct MVHashMap {
    data: VersionedData,
    code: VersionedCode,
}

impl MVHashMap {
    /// The data half.
    pub closed spec fn data_half(self) -> VersionedData {
        self.data
    }

    /// The code half.
    pub closed spec fn code_half(self) -> VersionedCode {
        self.code
    }

    /// Both halves are well formed.
    pub open spec fn wf(self) -> bool {
        self.data_half().wf() && self.code_half().wf()
    }

    /// A fresh store. An earlier block's code half may be passed in so its
    /// compiled executables are reused; with `None` the code half starts
    /// empty.
    pub fn new(code_cache: Option<VersionedCode>) -> (r: MVHashMap)
        requires
            code_cache matches Some(c) ==> c.wf(),
        ensures
            r.wf(),
            r.data_half().entries() == Map::<
                AccessPath,
                Map<TxnIndex, crate::versioned_data::EntryCell>,
            >::empty(),
            match code_cache {
                Some(c) => r.code_half() == c,
                None => r.code_half().entries() == Map::<
                    AccessPath,
                    Map<TxnIndex, crate::versioned_code::CodeCell>,
                >::empty() && r.code_half().cache_map() == Map::<
                    AccessPath,
                    Map<ExecutableDescriptor, Executable>,
                >::empty(),
            },
    {
        let code = match code_cache {
            Some(c) => c,
            None => VersionedCode::new(),
        };
        MVHashMap { data: VersionedData::new(), code }
    }

    /// Surrender both halves to the caller; the code half may be recycled
    /// into the next block's store.
    pub fn take(self) -> (r: (VersionedData, VersionedCode))
        ensures
            r.0 == self.data_half(),
            r.1 == self.code_half(),
    {
        (self.data, self.code)
    }

    /// Mark the entry of `key` at `txn_idx` as an estimated write of a
    /// future incarnation. The entry must exist in the half the key routes
    /// to; a missing entry is a fatal contract violation.
    pub fn mark_estimate(&mut self, key: &AccessPath, txn_idx: TxnIndex)
        requires
            old(self).wf(),
            key.module ==> old(self).code_half().entries_of(*key).contains_key(txn_idx),
            !key.module ==> old(self).data_half().entries_of(*key).contains_key(txn_idx),
        ensures
            final(self).wf(),
            key.module ==> {
                &&& final(self).data_half() == old(self).data_half()
                &&& final(self).code_half().cache_map() == old(self).code_half().cache_map()
                &&& final(self).code_half().entries() == old(self).code_half().entries().insert(
                    *key,
                    old(self).code_half().entries_of(*key).insert(
                        txn_idx,
                        crate::versioned_code::CodeCell {
                            content: old(self).code_half().entries_of(*key)[txn_idx].content,
                            flag: crate::types::Flag::Estimate,
                        },
                    ),
                )
            },
            !key.module ==> {
                &&& final(self).code_half() == old(self).code_half()
                &&& final(self).data_half().entries() == old(self).data_half().entries().insert(
                    *key,
                    old(self).data_half().entries_of(*key).insert(
                        txn_idx,
                        crate::versioned_data::EntryCell {
                            incarnation: old(self).data_half().entries_of(
                                *key,
                            )[txn_idx].incarnation,
                            content: old(self).data_half().entries_of(*key)[txn_idx].content,
                            flag: crate::types::Flag::Estimate,
                        },
                    ),
                )
            },
    {
        if key.is_module_path() {
            self.code.mark_estimate(key, txn_idx);
        } else {
            self.data.mark_estimate(key, txn_idx);
        }
    }

    /// Delete the entry of `key` at `txn_idx` from the half the key routes
    /// to. The entry must exist; a missing entry is a fatal contract
    /// violation.
    pub fn delete(&mut self, key: &AccessPath, txn_idx: TxnIndex)
        requires
            old(self).wf(),
            key.module ==> old(self).code_half().entries_of(*key).contains_key(txn_idx),
            !key.module ==> old(self).data_half().entries_of(*key).contains_key(txn_idx),
        ensures
            final(self).wf(),
            key.module ==> {
                &&& final(self).data_half() == old(self).data_half()
                &&& final(self).code_half().cache_map() == old(self).code_half().cache_map()
                &&& final(self).code_half().entries() == old(self).code_half().entries().insert(
                    *key,
                    old(self).code_half().entries_of(*key).remove(txn_idx),
                )
            },
            !key.module ==> {
                &&& final(self).code_half() == old(self).code_half()
                &&& final(self).data_half().entries() == old(self).data_half().entries().insert(
                    *key,
                    old(self).data_half().entries_of(*key).remove(txn_idx),
                )
            },
    {
        if key.is_module_path() {
            self.code.delete(key, txn_idx);
        } else {
            self.data.delete(key, txn_idx);
        }
    }

    /// Add a versioned write at `key`, in the code or the data half
    /// according to the key. The latest incarnation at a transaction index
    /// wins; the code half keys its entries by transaction index alone.
    pub fn write(&mut self, key: &AccessPath, version: Version, value: WriteOp)
        requires
            old(self).wf(),
        ensures
            final(self).wf(),
            key.module ==> {
                &&& final(self).data_half() == old(self).data_half()
                &&& final(self).code_half().cache_map() == old(self).code_half().cache_map()
                &&& final(self).code_half().entries() == old(self).code_half().entries().insert(
                    *key,
                    old(self).code_half().entries_of(*key).insert(
                        version.0,
                        code_cell_of_write(value),
                    ),
                )
            },
            !key.module ==> {
                &&& final(self).code_half() == old(self).code_half()
                &&& final(self).data_half().entries() == old(self).data_half().entries().insert(
                    *key,
                    old(self).data_half().entries_of(*key).insert(
                        version.0,
                        cell_of_write(version, value),
                    ),
                )
            },
    {
        if key.is_module_path() {
            self.code.write(key, version.0, value);
        } else {
            self.data.write(key, version, value);
        }
    }

    /// Add a delta at `key`. Deltas live in the data half only: publishing a
    /// delta on a module path is a contract violation, so the key must not
    /// route to code.
    pub fn add_delta(&mut self, key: &AccessPath, txn_idx: TxnIndex, delta: DeltaOp)
        requires
            old(self).wf(),
            !key.module,
        ensures
            final(self).wf(),
            final(self).code_half() == old(self).code_half(),
            final(self).data_half().entries() == old(self).data_half().entries().insert(
                *key,
                old(self).data_half().entries_of(*key).insert(txn_idx, cell_of_delta(delta)),
            ),
    {
        self.data.add_delta(key, txn_idx, delta);
    }

    /// Read data at `key` from the perspective of transaction `txn_idx`.
    pub fn fetch_data(&self, key: &AccessPath, txn_idx: TxnIndex) -> (r: Result<
        MVDataOutput,
        MVDataError,
    >)
        requires
            self.wf(),
        ensures
            r == data_read(self.data_half().entries_of(*key), txn_idx),
    {
        self.data.fetch_data(key, txn_idx)
    }

    /// Install a compiled executable for `key` under `descriptor`. The same
    /// descriptor always names the same module, so a replacement under an
    /// existing descriptor carries equivalent code.
    pub fn store_executable(
        &mut self,
        key: &AccessPath,
        descriptor: ExecutableDescriptor,
        executable: Executable,
    )
        requires
            old(self).wf(),
        ensures
            final(self).wf(),
            final(self).data_half() == old(self).data_half(),
            final(self).code_half().entries() == old(self).code_half().entries(),
            final(self).code_half().cache_map() == old(self).code_half().cache_map().insert(
                *key,
                old(self).code_half().cache_of(*key).insert(descriptor, executable),
            ),
    {
        self.code.store_executable(key, descriptor, executable);
    }

    /// Read code at `key` from the perspective of transaction `txn_idx`.
    pub fn fetch_code(&self, key: &AccessPath, txn_idx: TxnIndex) -> (r: Result<
        MVCodeOutput,
        MVCodeError,
    >)
        requires
            self.wf(),
        ensures
            r == code_read(
                self.code_half().entries_of(*key),
                self.code_half().cache_of(*key),
                txn_idx,
            ),
    {
        self.code.fetch_code(key, txn_idx)
    }
}

impl Default for MVHashMap {
    /// A fresh store with an empty code half.
    fn default() -> (r: MVHashMap)
        ensures
            r.wf(),
            r.data_half().entries() == Map::<
                AccessPath,
                Map<TxnIndex, crate::versioned_data::EntryCell>,
            >::empty(),
            r.code_half().entries() == Map::<
                AccessPath,
                Map<TxnIndex, crate::versioned_code::CodeCell>,
            >::empty(),
            r.code_half().cache_map() == Map::<
                AccessPath,
                Map<ExecutableDescriptor, Executable>,
            >::empty(),
    {
        MVHashMap::new(None)
    }
}

} // verus!
