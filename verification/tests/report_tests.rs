use payments_engine::account::ClientAccount;
use payments_engine::report::{MergeError, merge_results};

fn row(client: u16, available: i128) -> ClientAccount {
    ClientAccount {
        client,
        available,
        held: 0,
        total: available,
        locked: false,
    }
}

#[test]
fn test_merge_empty() {
    let merged = merge_results(Vec::new()).unwrap();
    assert!(merged.is_empty());
}

#[test]
fn test_merge_sorts_by_client() {
    let mut first: Vec<ClientAccount> = Vec::new();
    first.push(row(5, 50));
    first.push(row(1, 10));
    let mut second: Vec<ClientAccount> = Vec::new();
    second.push(row(3, 30));

    let mut parts: Vec<Vec<ClientAccount>> = Vec::new();
    parts.push(first);
    parts.push(second);

    let merged = merge_results(parts).unwrap();
    assert_eq!(merged.len(), 3);
    assert_eq!(merged[0].client, 1);
    assert_eq!(merged[1].client, 3);
    assert_eq!(merged[2].client, 5);
    assert_eq!(merged[0].available, 10);
    assert_eq!(merged[2].available, 50);
}

#[test]
fn test_merge_rejects_duplicate_client() {
    let mut first: Vec<ClientAccount> = Vec::new();
    first.push(row(2, 20));
    let mut second: Vec<ClientAccount> = Vec::new();
    second.push(row(2, 25));

    let mut parts: Vec<Vec<ClientAccount>> = Vec::new();
    parts.push(first);
    parts.push(second);

    let result = merge_results(parts);
    assert_eq!(result.unwrap_err(), MergeError::DuplicateClient(2));
}

#[test]
fn test_merge_single_worker_passthrough() {
    let mut only: Vec<ClientAccount> = Vec::new();
    only.push(row(9, 90));
    let mut parts: Vec<Vec<ClientAccount>> = Vec::new();
    parts.push(only);

    let merged = merge_results(parts).unwrap();
    assert_eq!(merged.len(), 1);
    assert_eq!(merged[0].client, 9);
    assert_eq!(merged[0].available, 90);
}
