use block_executor::delta::{DeltaOp, DeltaUpdate};
use block_executor::mvhashmap::MVHashMap;
use block_executor::types::{
    AccessPath, DeltaSum, Executable, ExecutableDescriptor, MVCodeError, MVCodeOutput, MVDataError,
    MVDataOutput, WriteOp,
};

fn data_path(id: u64) -> AccessPath {
    AccessPath { id, module: false }
}

fn code_path(id: u64) -> AccessPath {
    AccessPath { id, module: true }
}

fn plus(amount: u128) -> DeltaOp {
    DeltaOp { update: DeltaUpdate::Plus(amount), limit: u128::MAX }
}

fn minus(amount: u128) -> DeltaOp {
    DeltaOp { update: DeltaUpdate::Minus(amount), limit: u128::MAX }
}

#[test]
// A reader suspends on an estimate and sees the re-executed write afterwards.
fn test_read_suspends_on_estimate() {
    let mut mvs = MVHashMap::new(None);
    let k = data_path(1);
    mvs.write(&k, (5, 0), WriteOp::Value(42));
    mvs.mark_estimate(&k, 5);
    assert_eq!(mvs.fetch_data(&k, 9), Err(MVDataError::Dependency(5)));
    mvs.write(&k, (5, 1), WriteOp::Value(99));
    assert_eq!(mvs.fetch_data(&k, 9), Ok(MVDataOutput::Versioned((5, 1), 99)));
}

#[test]
// A chain of deltas materializes against the latest base value below the reader.
fn test_delta_chain_materializes() {
    let mut mvs = MVHashMap::new(None);
    let k = data_path(2);
    mvs.write(&k, (2, 0), WriteOp::Value(10));
    mvs.add_delta(&k, 4, plus(5));
    mvs.add_delta(&k, 6, plus(7));
    assert_eq!(mvs.fetch_data(&k, 9), Ok(MVDataOutput::Versioned((2, 0), 22)));
    assert_eq!(mvs.fetch_data(&k, 5), Ok(MVDataOutput::Versioned((2, 0), 15)));
}

#[test]
// Nothing below the reader: not found; a write at the reader's own index is
// invisible to it.
fn test_not_found_and_future_invisible() {
    let mut mvs = MVHashMap::new(None);
    let k = data_path(3);
    assert_eq!(mvs.fetch_data(&k, 4), Err(MVDataError::NotFound));
    mvs.write(&k, (5, 0), WriteOp::Value(7));
    assert_eq!(mvs.fetch_data(&k, 5), Err(MVDataError::NotFound));
    assert_eq!(mvs.fetch_data(&k, 4), Err(MVDataError::NotFound));
    assert_eq!(mvs.fetch_data(&k, 6), Ok(MVDataOutput::Versioned((5, 0), 7)));
}

#[test]
// A deletion hides earlier values; a delta above a deletion cannot be applied.
fn test_deletion_and_delta_over_deletion() {
    let mut mvs = MVHashMap::new(None);
    let k = data_path(4);
    mvs.write(&k, (1, 0), WriteOp::Value(30));
    mvs.write(&k, (3, 0), WriteOp::Deletion);
    assert_eq!(mvs.fetch_data(&k, 3), Ok(MVDataOutput::Versioned((1, 0), 30)));
    assert_eq!(mvs.fetch_data(&k, 5), Err(MVDataError::NotFound));
    mvs.add_delta(&k, 4, plus(2));
    assert_eq!(mvs.fetch_data(&k, 6), Err(MVDataError::DeltaApplicationFailure));
}

#[test]
// A delta that pushes the value past its ceiling fails the read.
fn test_delta_overflow_fails() {
    let mut mvs = MVHashMap::new(None);
    let k = data_path(5);
    mvs.write(&k, (1, 0), WriteOp::Value(10));
    mvs.add_delta(&k, 2, DeltaOp { update: DeltaUpdate::Plus(5), limit: 12 });
    assert_eq!(mvs.fetch_data(&k, 3), Err(MVDataError::DeltaApplicationFailure));
    let k2 = data_path(6);
    mvs.write(&k2, (1, 0), WriteOp::Value(3));
    mvs.add_delta(&k2, 2, minus(5));
    assert_eq!(mvs.fetch_data(&k2, 3), Err(MVDataError::DeltaApplicationFailure));
}

#[test]
// Only deltas below the reader: their exact signed sum is handed back.
fn test_deltas_resolve_without_base() {
    let mut mvs = MVHashMap::new(None);
    let k = data_path(7);
    mvs.add_delta(&k, 2, plus(5));
    mvs.add_delta(&k, 4, minus(2));
    assert_eq!(
        mvs.fetch_data(&k, 9),
        Ok(MVDataOutput::Resolved(DeltaSum { negative: false, magnitude: 3 }))
    );
    let k2 = data_path(8);
    mvs.add_delta(&k2, 2, minus(5));
    assert_eq!(
        mvs.fetch_data(&k2, 9),
        Ok(MVDataOutput::Resolved(DeltaSum { negative: true, magnitude: 5 }))
    );
}

#[test]
// A run of deltas whose running sum cannot be carried is unresolvable.
fn test_delta_sum_unresolvable() {
    let mut mvs = MVHashMap::new(None);
    let k = data_path(9);
    mvs.add_delta(&k, 2, plus(u128::MAX));
    mvs.add_delta(&k, 4, plus(u128::MAX));
    assert_eq!(mvs.fetch_data(&k, 9), Err(MVDataError::Unresolved));
}

#[test]
// Deleting an entry uncovers what stood below it.
fn test_delete_uncovers_previous() {
    let mut mvs = MVHashMap::new(None);
    let k = data_path(10);
    mvs.write(&k, (1, 0), WriteOp::Value(5));
    mvs.write(&k, (3, 0), WriteOp::Value(6));
    assert_eq!(mvs.fetch_data(&k, 9), Ok(MVDataOutput::Versioned((3, 0), 6)));
    mvs.delete(&k, 3);
    assert_eq!(mvs.fetch_data(&k, 9), Ok(MVDataOutput::Versioned((1, 0), 5)));
}

#[test]
// A re-write at the same index replaces the entry: the latest incarnation wins.
fn test_rewrite_same_index_replaces() {
    let mut mvs = MVHashMap::new(None);
    let k = data_path(11);
    mvs.write(&k, (4, 0), WriteOp::Value(1));
    mvs.write(&k, (4, 1), WriteOp::Value(2));
    mvs.write(&k, (4, 2), WriteOp::Value(3));
    assert_eq!(mvs.fetch_data(&k, 5), Ok(MVDataOutput::Versioned((4, 2), 3)));
}

#[test]
// Module publishes route to the code half; the data half stays untouched.
fn test_code_publish_and_compile() {
    let mut mvs = MVHashMap::new(None);
    let k = code_path(20);
    assert_eq!(mvs.fetch_code(&k, 5), Err(MVCodeError::NotFound));
    mvs.write(&k, (3, 0), WriteOp::Value(77));
    let desc = ExecutableDescriptor::PublishedModuleHash(77);
    assert_eq!(mvs.fetch_code(&k, 5), Ok(MVCodeOutput::Module(77, desc)));
    assert_eq!(mvs.fetch_code(&k, 3), Err(MVCodeError::NotFound));
    mvs.store_executable(&k, desc, Executable { artifact: 9 });
    assert_eq!(
        mvs.fetch_code(&k, 5),
        Ok(MVCodeOutput::Executable(Executable { artifact: 9 }, desc))
    );
    // The same path on the data side is a different slot.
    assert_eq!(mvs.fetch_data(&AccessPath { id: 20, module: false }, 9), Err(MVDataError::NotFound));
}

#[test]
// An executable compiled from the storage baseline answers readers below any publish.
fn test_code_storage_version_cache() {
    let mut mvs = MVHashMap::new(None);
    let k = code_path(21);
    mvs.store_executable(&k, ExecutableDescriptor::StorageVersion, Executable { artifact: 4 });
    assert_eq!(
        mvs.fetch_code(&k, 5),
        Ok(MVCodeOutput::Executable(Executable { artifact: 4 }, ExecutableDescriptor::StorageVersion))
    );
}

#[test]
// An estimated publish suspends readers; deleting it unsuspends them.
fn test_code_estimate_and_delete() {
    let mut mvs = MVHashMap::new(None);
    let k = code_path(22);
    mvs.write(&k, (2, 0), WriteOp::Value(50));
    mvs.mark_estimate(&k, 2);
    assert_eq!(mvs.fetch_code(&k, 5), Err(MVCodeError::Dependency(2)));
    mvs.delete(&k, 2);
    assert_eq!(mvs.fetch_code(&k, 5), Err(MVCodeError::NotFound));
}

#[test]
// The code half survives a handoff into the next block's store.
fn test_code_cache_handoff() {
    let mut mvs = MVHashMap::new(None);
    let k = code_path(23);
    let desc = ExecutableDescriptor::StorageVersion;
    mvs.store_executable(&k, desc, Executable { artifact: 8 });
    let (_data, code) = mvs.take();
    let mvs2 = MVHashMap::new(Some(code));
    assert_eq!(
        mvs2.fetch_code(&k, 1),
        Ok(MVCodeOutput::Executable(Executable { artifact: 8 }, desc))
    );
}

#[test]
// The default store starts empty on both halves.
fn test_default_store_empty() {
    let mvs = MVHashMap::default();
    assert_eq!(mvs.fetch_data(&data_path(30), 9), Err(MVDataError::NotFound));
    assert_eq!(mvs.fetch_code(&code_path(30), 9), Err(MVCodeError::NotFound));
}

#[test]
// Deltas applied within bounds commute: both application orders materialize
// to the same value.
fn test_delta_application_commutes() {
    let a = plus(5);
    let b = minus(2);
    let from_ab = b.apply(a.apply(10).unwrap()).unwrap();
    let from_ba = a.apply(b.apply(10).unwrap()).unwrap();
    assert_eq!(from_ab, 13);
    assert_eq!(from_ba, 13);
    let c = DeltaOp { update: DeltaUpdate::Plus(3), limit: 20 };
    let d = minus(7);
    let from_cd = d.apply(c.apply(12).unwrap()).unwrap();
    let from_dc = c.apply(d.apply(12).unwrap()).unwrap();
    assert_eq!(from_cd, 8);
    assert_eq!(from_dc, 8);
}

#[test]
// A delta application that leaves its bounds reports failure rather than wrapping.
fn test_delta_apply_bounds() {
    assert_eq!(DeltaOp { update: DeltaUpdate::Plus(5), limit: 12 }.apply(10), None);
    assert_eq!(DeltaOp { update: DeltaUpdate::Plus(5), limit: 15 }.apply(10), Some(15));
    assert_eq!(minus(11).apply(10), None);
    assert_eq!(minus(10).apply(10), Some(0));
}
