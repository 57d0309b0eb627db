use std::collections::BTreeSet;
use std::sync::{Arc, Mutex};

use mare_website::utils::ulid::DbUlidGen;

#[test]
fn callers_that_share_one_generator_receive_pairwise_distinct_identifiers() {
    let generator = Arc::new(Mutex::new(DbUlidGen::new()));
    let handles: Vec<Arc<Mutex<DbUlidGen>>> = (0..8).map(|_| Arc::clone(&generator)).collect();
    let mut received: Vec<Vec<u128>> = vec![Vec::new(); 8];
    let mut turn: usize = 3;
    let mut total = 0;
    while total < 1_600 {
        turn = (turn * 5 + 7) % 8;
        let issued = handles[turn].lock().unwrap().generate();
        if let Some(id) = issued {
            received[turn].push(id.get());
            total += 1;
        }
    }
    let mut all = BTreeSet::new();
    for mine in received {
        for pair in mine.windows(2) {
            assert!(pair[0] < pair[1]);
        }
        for id in mine {
            assert!(all.insert(id));
        }
    }
    assert_eq!(all.len(), 1_600);
}
