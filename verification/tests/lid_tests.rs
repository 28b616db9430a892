use std::collections::HashSet;

use lid::configs::new_distributed;
use lid::SharedLid;

#[test]
fn test_uniqueness() {
    let mut lid = new_distributed();

    let mut ids = HashSet::new();
    let num_iterations = 10_000_000;

    for _ in 0..num_iterations {
        let id = lid.generate();
        assert!(!ids.contains(&id), "Duplicate ID found: {id}");
        ids.insert(id);
    }

    assert_eq!(
        ids.len(),
        num_iterations,
        "Number of unique IDs does not match the number of iterations"
    );
}

#[test]
fn lib_test_uniqueness() {
    let mut lid = new_distributed();

    let mut ids = HashSet::new();
    let num_iterations = 10_000_000;

    for _ in 0..num_iterations {
        let id = lid.generate_checked().unwrap();
        assert!(!ids.contains(&id), "Duplicate ID found: {id}");
        ids.insert(id);
    }

    assert_eq!(
        ids.len(),
        num_iterations,
        "Number of unique IDs does not match the number of iterations"
    );
}

#[test]
fn test_easy() {
    let shared = SharedLid::new(new_distributed());

    let _ = shared.generate_shared();
}

#[test]
fn lib_test_easy() {
    let inst = spin::Mutex::new(new_distributed());

    let _ = inst.lock().generate_checked().unwrap();
}
