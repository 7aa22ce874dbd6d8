use block_executor::partitioner::{get_shard_for_index, DependencyAwareUniformPartitioner};
use block_executor::transaction::AnalyzedTransaction;
use rand::rngs::OsRng;
use rand::Rng;
use std::collections::HashMap;
use std::sync::atomic::{AtomicU64, Ordering};

#[derive(PartialEq, Eq, Debug, Copy, Clone)]
enum TxnPartitioningStatus {
    Accepted,
    Discarded,
}

static NEXT_ACCOUNT: AtomicU64 = AtomicU64::new(1);

fn generate_test_account() -> u64 {
    NEXT_ACCOUNT.fetch_add(1, Ordering::SeqCst)
}

/// A peer-to-peer transfer touches the sender's and the receiver's stores,
/// reading and writing both.
fn create_signed_p2p_transaction(sender: u64, receivers: Vec<u64>) -> Vec<AnalyzedTransaction> {
    let mut transactions = Vec::new();
    for receiver in receivers {
        transactions.push(AnalyzedTransaction::new(
            Some(sender),
            vec![sender, receiver],
            vec![sender, receiver],
        ));
    }
    transactions
}

fn create_non_conflicting_p2p_transaction() -> AnalyzedTransaction {
    let sender = generate_test_account();
    let receiver = generate_test_account();
    create_signed_p2p_transaction(sender, vec![receiver]).remove(0)
}

fn verify_txn_statuses(
    txn_statuses: &HashMap<usize, TxnPartitioningStatus>,
    expected_txn_statuses: &HashMap<usize, TxnPartitioningStatus>,
) {
    assert_eq!(txn_statuses.len(), expected_txn_statuses.len());
    for (index, status) in txn_statuses {
        assert_eq!(status, expected_txn_statuses.get(index).unwrap());
    }
}

fn verify_txn_shards(
    orig_txns: &Vec<AnalyzedTransaction>,
    accepted_txns: &HashMap<usize, Vec<AnalyzedTransaction>>,
    rejected_txns: &HashMap<usize, Vec<AnalyzedTransaction>>,
    num_shards: usize,
) {
    let mut txn_shard_map = HashMap::new();
    for (shard_index, txns) in accepted_txns {
        for txn in txns {
            txn_shard_map.insert(txn, *shard_index);
        }
    }
    for (shard_index, txns) in rejected_txns {
        for txn in txns {
            txn_shard_map.insert(txn, *shard_index);
        }
    }
    let txns_per_shard = (orig_txns.len() + num_shards - 1) / num_shards;
    assert_eq!(txn_shard_map.len(), orig_txns.len());
    for (index, txn) in orig_txns.iter().enumerate() {
        assert_eq!(
            get_shard_for_index(txns_per_shard, index),
            *txn_shard_map.get(txn).unwrap()
        );
    }
}

fn populate_txn_statuses(
    orig_txns: &[AnalyzedTransaction],
    txns_map: &HashMap<usize, Vec<AnalyzedTransaction>>,
    txn_statuses: &mut HashMap<usize, TxnPartitioningStatus>,
    status: TxnPartitioningStatus,
) {
    for txns in txns_map.values() {
        for txn in txns {
            let index = orig_txns.iter().position(|x| x == txn).unwrap();
            txn_statuses.insert(index, status);
        }
    }
}

fn verify_txn_statuses_and_shards(
    orig_txns: &Vec<AnalyzedTransaction>,
    accepted_txns: &HashMap<usize, Vec<AnalyzedTransaction>>,
    rejected_txns: &HashMap<usize, Vec<AnalyzedTransaction>>,
    expected_txn_statuses: &HashMap<usize, TxnPartitioningStatus>,
    num_shards: usize,
) {
    let mut txn_statuses = HashMap::new();

    populate_txn_statuses(
        orig_txns,
        accepted_txns,
        &mut txn_statuses,
        TxnPartitioningStatus::Accepted,
    );

    populate_txn_statuses(
        orig_txns,
        rejected_txns,
        &mut txn_statuses,
        TxnPartitioningStatus::Discarded,
    );

    verify_txn_statuses(&txn_statuses, expected_txn_statuses);
    verify_txn_shards(orig_txns, accepted_txns, rejected_txns, num_shards);
}

#[test]
// Test that the partitioner works correctly for a single sender and multiple receivers.
// In this case the expectation is that only the first shard will contain transactions and all
// other shards will be empty.
fn test_single_sender_txns() {
    let sender = generate_test_account();
    let mut receivers = Vec::new();
    let num_txns = 10;
    for _ in 0..num_txns {
        receivers.push(generate_test_account());
    }
    let transactions = create_signed_p2p_transaction(sender, receivers);
    let partitioner = DependencyAwareUniformPartitioner {};
    let (accepted_txns, rejected_txns) = partitioner.partition(transactions.clone(), 4);
    // Create a map of transaction index to its expected status, first 3 transactions are expected
    // to be accepted and the rest are expected to be rejected.
    let mut expected_txn_statuses = HashMap::new();
    for index in 0..num_txns {
        if index < 3 {
            expected_txn_statuses.insert(index, TxnPartitioningStatus::Accepted);
        } else {
            expected_txn_statuses.insert(index, TxnPartitioningStatus::Discarded);
        }
    }
    verify_txn_statuses_and_shards(
        &transactions,
        &accepted_txns,
        &rejected_txns,
        &expected_txn_statuses,
        4,
    );
}

#[test]
// Test that the partitioner works correctly for no conflict transactions. In this case, the
// expectation is that all transactions will be accepted and the rejected transactions map will be empty.
fn test_non_conflicting_txns() {
    let num_txns = 10;
    let mut transactions = Vec::new();
    for _ in 0..num_txns {
        transactions.push(create_non_conflicting_p2p_transaction())
    }

    let partitioner = DependencyAwareUniformPartitioner {};
    let (accepted_txns, rejected_txns) = partitioner.partition(transactions.clone(), 4);
    // Create a map of transaction index to its expected status, all transactions are expected to be accepted.
    let mut expected_txn_statuses = HashMap::new();
    for index in 0..transactions.len() {
        expected_txn_statuses.insert(index, TxnPartitioningStatus::Accepted);
    }
    verify_txn_statuses_and_shards(
        &transactions,
        &accepted_txns,
        &rejected_txns,
        &expected_txn_statuses,
        4,
    );
}

#[test]
// Test that the partitioner works for same sender transactions across shards and in this case,
// the first transaction from the sender is expected to be accepted and the rest are expected to be rejected.
// Following is the expected behavior: S1 [*, A1, A2] S2[*, A3, A4] S3[*, A5]
// All transactions from sender A except A1, A2 are rejected.
fn test_conflicting_sender_ordering() {
    let num_shards = 3;
    let conflicting_sender = generate_test_account();
    let mut conflicting_transactions = Vec::new();
    for _ in 0..5 {
        conflicting_transactions.push(
            create_signed_p2p_transaction(conflicting_sender, vec![generate_test_account()])
                .remove(0),
        );
    }
    let mut non_conflicting_transactions = Vec::new();
    for _ in 0..5 {
        non_conflicting_transactions.push(create_non_conflicting_p2p_transaction());
    }

    let mut transactions = Vec::new();
    let mut conflicting_txn_index = 0;
    let mut non_conflicting_txn_index = 0;
    transactions.push(non_conflicting_transactions[non_conflicting_txn_index].clone());
    non_conflicting_txn_index += 1;
    transactions.push(conflicting_transactions[conflicting_txn_index].clone());
    conflicting_txn_index += 1;
    transactions.push(conflicting_transactions[conflicting_txn_index].clone());
    conflicting_txn_index += 1;
    transactions.push(non_conflicting_transactions[non_conflicting_txn_index].clone());
    non_conflicting_txn_index += 1;
    transactions.push(conflicting_transactions[conflicting_txn_index].clone());
    conflicting_txn_index += 1;
    transactions.push(conflicting_transactions[conflicting_txn_index].clone());
    conflicting_txn_index += 1;
    transactions.push(non_conflicting_transactions[non_conflicting_txn_index].clone());
    transactions.push(conflicting_transactions[conflicting_txn_index].clone());

    let partitioner = DependencyAwareUniformPartitioner {};
    let (accepted_txns, rejected_txns) = partitioner.partition(transactions.clone(), num_shards);
    // Create a map of transaction index to its expected status.
    let mut expected_txn_statuses = HashMap::new();
    expected_txn_statuses.insert(0, TxnPartitioningStatus::Accepted);
    expected_txn_statuses.insert(1, TxnPartitioningStatus::Accepted);
    expected_txn_statuses.insert(2, TxnPartitioningStatus::Accepted);
    expected_txn_statuses.insert(3, TxnPartitioningStatus::Accepted);
    expected_txn_statuses.insert(4, TxnPartitioningStatus::Discarded);
    expected_txn_statuses.insert(5, TxnPartitioningStatus::Discarded);
    expected_txn_statuses.insert(6, TxnPartitioningStatus::Accepted);
    expected_txn_statuses.insert(7, TxnPartitioningStatus::Discarded);
    verify_txn_statuses_and_shards(
        &transactions,
        &accepted_txns,
        &rejected_txns,
        &expected_txn_statuses,
        num_shards,
    );
}

#[test]
// Generates a bunch of random transactions and ensures that after the partitioning, there is
// no conflict across shards.
fn test_no_conflict_across_shards() {
    let mut rng = OsRng;
    let max_accounts = 500;
    let max_txns = 2000;
    let max_num_shards = 64;
    let num_accounts = rng.gen_range(1, max_accounts);
    let mut accounts = Vec::new();
    for _ in 0..num_accounts {
        accounts.push(generate_test_account());
    }
    let num_txns = rng.gen_range(1, max_txns);
    let mut transactions = Vec::new();
    let num_shards = rng.gen_range(1, max_num_shards);

    for _ in 0..num_txns {
        // randomly select a sender and receiver from accounts
        let sender_index = rng.gen_range(0, num_accounts);
        let receiver_index = rng.gen_range(0, num_accounts);
        let sender = accounts[sender_index];
        let receiver = accounts[receiver_index];
        transactions.push(create_signed_p2p_transaction(sender, vec![receiver]).remove(0));
    }
    let partitioner = DependencyAwareUniformPartitioner {};
    let (accepted_txns, _) = partitioner.partition(transactions.clone(), num_shards);
    // Build a map of storage location to corresponding shards and ensure that no storage location
    // is present in more than one shard.
    let mut storage_location_to_shard_map = HashMap::new();
    for shard_id in accepted_txns.keys() {
        let shard = accepted_txns.get(shard_id).unwrap();
        for txn in shard {
            let storage_locations = txn.read_hints().iter().chain(txn.write_hints().iter());
            for storage_location in storage_locations {
                if storage_location_to_shard_map.contains_key(storage_location) {
                    assert_eq!(
                        storage_location_to_shard_map.get(storage_location).unwrap(),
                        &shard_id
                    );
                } else {
                    storage_location_to_shard_map.insert(storage_location, shard_id);
                }
            }
        }
    }
}

#[test]
// Running the partitioner twice on the same input yields identical outputs.
fn test_partition_idempotent() {
    let sender = generate_test_account();
    let mut transactions = Vec::new();
    for _ in 0..7 {
        transactions.push(
            create_signed_p2p_transaction(sender, vec![generate_test_account()]).remove(0),
        );
        transactions.push(create_non_conflicting_p2p_transaction());
    }
    let partitioner = DependencyAwareUniformPartitioner {};
    let (accepted_a, rejected_a) = partitioner.partition(transactions.clone(), 5);
    let (accepted_b, rejected_b) = partitioner.partition(transactions, 5);
    assert_eq!(accepted_a, accepted_b);
    assert_eq!(rejected_a, rejected_b);
}

#[test]
// Test that the partitioner works correctly when there are no transactions.
// The expectation is that both the accepted and rejected transactions maps will be empty.
fn test_no_transactions() {
    let transactions = vec![];
    let partitioner = DependencyAwareUniformPartitioner {};
    let (accepted_txns, rejected_txns) = partitioner.partition(transactions, 4);
    assert_eq!(accepted_txns.len(), 0);
    assert_eq!(rejected_txns.len(), 0);
}

#[test]
// Test that the partitioner works correctly when the number of transactions is less than the
// number of shards. In this case, all transactions should be accepted, and the rejected
// transactions map should be empty.
fn test_less_transactions_than_shards() {
    let sender = generate_test_account();
    let receivers = vec![generate_test_account(), generate_test_account()];
    let transactions = create_signed_p2p_transaction(sender, receivers);
    let partitioner = DependencyAwareUniformPartitioner {};
    let (accepted_txns, rejected_txns) = partitioner.partition(transactions, 4);
    assert_eq!(accepted_txns.len(), 1);
    assert_eq!(accepted_txns.get(&0).unwrap().len(), 1);
    assert_eq!(rejected_txns.len(), 1);
}
