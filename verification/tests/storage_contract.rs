use rvb::contract::{resolve_contract_runtime, AcceptContractCompiler, Contract, ContractCompiler,
    ContractCompilerType, ContractContext, DataAction};
use rvb::storage::{MemoryStorage, StorageError};
use rvb::value::{DbValue, ValueMap};

#[test]
fn test_memory_storage_set_then_get() {
    let mut storage = MemoryStorage::new();
    storage.set("contracts", "id1", &vec![1, 2, 3]).unwrap();
    assert_eq!(storage.get("contracts", "id1").unwrap(), vec![1, 2, 3]);
}

#[test]
fn test_memory_storage_overwrites() {
    let mut storage = MemoryStorage::new();
    storage.set("t", "k", &vec![1]).unwrap();
    storage.set("t", "k", &vec![2]).unwrap();
    assert_eq!(storage.get("t", "k").unwrap(), vec![2]);
}

#[test]
fn test_memory_storage_missing_key() {
    let mut storage = MemoryStorage::new();
    storage.set("t", "other", &vec![1]).unwrap();
    match storage.get("t", "k") {
        Err(StorageError::KeyNotFound(k)) => assert_eq!(k, "k"),
        _ => panic!("expected KeyNotFound"),
    }
    // Same key in another table is another record.
    match storage.get("t2", "other") {
        Err(StorageError::KeyNotFound(k)) => assert_eq!(k, "other"),
        _ => panic!("expected KeyNotFound"),
    }
}

#[test]
fn test_accept_contract_echoes_action() {
    let compiler = resolve_contract_runtime(ContractCompilerType::Accept);
    let mut contract = compiler.create_contract(&[0, 1, 2]).unwrap();
    let action = DataAction::Insert {
        key: "k".to_string(),
        incoming_data: DbValue::Number(7),
        params: ValueMap::new(),
    };
    let ctx = ContractContext {
        action: DataAction::Insert {
            key: "k".to_string(),
            incoming_data: DbValue::Number(7),
            params: ValueMap::new(),
        },
        namespace: "ns".to_string(),
        contract_space: "space".to_string(),
        signed_by: vec![1, 2],
        contract_params: ValueMap::new(),
    };
    let actions = contract.execute(ctx).unwrap();
    assert_eq!(actions, vec![action]);
}

#[test]
fn test_accept_compiler_accepts_any_bytecode() {
    let compiler = AcceptContractCompiler;
    assert!(compiler.create_contract(&[]).is_ok());
    assert!(compiler.create_contract(&[0xFF; 32]).is_ok());
}
