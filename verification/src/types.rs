//! Shared vocabulary of the multi-version store: identifiers, access paths,
//! write operations, and the outputs and errors of versioned reads.

use vstd::prelude::*;

verus! {

/// Position of a transaction within the block (0-based).
pub type TxnIndex = u32;

/// Re-execution attempt number of a transaction index.
pub type Incarnation = u32;

/// A `(TxnIndex, Incarnation)` pair, totally ordered lexicographically.
pub type Version = (TxnIndex, Incarnation);

/// An access path naming one state slot. The `module` flag routes a request
/// to the code half of the store; every other path belongs to the data half.
#[derive(Clone, Copy, PartialEq, Eq, Structural, Debug, Hash)]
pub struct AccessPath {
    /// Globally unique identifier of the state slot.
    pub id: u64,
    /// True when the path names published module code.
    pub module: bool,
}

impl AccessPath {
    /// Whether this path belongs to the code half of the store.
    pub fn is_module_path(&self) -> (r: bool)
        ensures
            r == self.module,
    {
        self.module
    }
}

/// A versioned write: either a concrete value or a deletion of the slot.
/// Deltas are published separately through `add_delta`.
#[derive(Clone, Copy, PartialEq, Eq, Structural, Debug)]
pub enum WriteOp {
    /// The slot now holds this value.
    Value(u128),
    /// The slot no longer exists.
    Deletion,
}

/// State of an entry: `Done` for a live write, `Estimate` for a write of an
/// aborted incarnation whose successor has not re-run yet. Readers treat an
/// `Estimate` as a suspend point.
#[derive(Clone, Copy, PartialEq, Eq, Structural, Debug)]
pub enum Flag {
    Done,
    Estimate,
}

/// Exact signed sum of a run of deltas, in sign-magnitude form.
#[derive(Clone, Copy, PartialEq, Eq, Structural, Debug)]
pub struct DeltaSum {
    /// True when the sum is strictly below zero.
    pub negative: bool,
    /// Absolute value of the sum.
    pub magnitude: u128,
}

impl DeltaSum {
    /// The integer this sum stands for.
    pub open spec fn as_int(self) -> int {
        if self.negative {
            -(self.magnitude as int)
        } else {
            self.magnitude as int
        }
    }

    /// Sign-magnitude form is canonical: zero is never marked negative.
    pub open spec fn canonical(self) -> bool {
        self.negative ==> self.magnitude > 0
    }
}

/// Successful outcome of a data read.
#[derive(Clone, Copy, PartialEq, Eq, Debug)]
pub enum MVDataOutput {
    /// A base value was found: the version of the base write and the value
    /// with every delta above it already applied.
    Versioned(Version, u128),
    /// Only deltas were visible: their exact sum, to be applied against the
    /// storage baseline by the caller.
    Resolved(DeltaSum),
}

/// Failure of a data read. Only `Dependency` is transient.
#[derive(Clone, Copy, PartialEq, Eq, Structural, Debug)]
pub enum MVDataError {
    /// No write below the reader's index is visible: read the storage baseline.
    NotFound,
    /// The latest visible entry is an estimate: park until this transaction
    /// index has re-run, then retry.
    Dependency(TxnIndex),
    /// A delta could not be applied: it overflowed its ceiling, underflowed
    /// zero, or sat above a deletion.
    DeltaApplicationFailure,
    /// Only deltas were visible and their running sum left the representable
    /// range, so no single sum can be handed back.
    Unresolved,
}

/// An opaque compiled artifact cached by the code half. The artifact itself
/// lives outside the store; this carries its identity.
#[derive(Clone, Copy, PartialEq, Eq, Structural, Debug)]
pub struct Executable {
    pub artifact: u64,
}

/// Names the module bytes an executable was compiled for: either the storage
/// baseline or a module published during the block, addressed by its content.
#[derive(Clone, Copy, PartialEq, Eq, Structural, Debug)]
pub enum ExecutableDescriptor {
    /// Compiled from the module as it stands in storage below the block.
    StorageVersion,
    /// Compiled from a module published during the block, content-addressed.
    PublishedModuleHash(u128),
}

/// Successful outcome of a code read.
#[derive(Clone, Copy, PartialEq, Eq, Structural, Debug)]
pub enum MVCodeOutput {
    /// The latest visible module bytes; no executable is cached for them, so
    /// the caller may compile and then call `store_executable`.
    Module(u128, ExecutableDescriptor),
    /// A cached executable compiled for the latest visible module.
    Executable(Executable, ExecutableDescriptor),
}

/// Failure of a code read. Only `Dependency` is transient.
#[derive(Clone, Copy, PartialEq, Eq, Structural, Debug)]
pub enum MVCodeError {
    /// No module is visible here: read the storage baseline.
    NotFound,
    /// The latest visible entry is an estimate: park and retry.
    Dependency(TxnIndex),
}

} // verus!
