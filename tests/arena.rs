use pgy_runtime::arena::ArenaVex;

#[test]
fn earlier_handles_survive_later_pushes() {
    let mut a = ArenaVex::with_capacity(2);
    let first = a.push(10u64);
    let second = a.push(20u64);
    let mut later = Vec::new();
    for k in 0..100u64 {
        later.push(a.push(k));
    }
    assert_eq!(*a.get(first), 10);
    assert_eq!(*a.get(second), 20);
    for (k, h) in later.iter().enumerate() {
        assert_eq!(*a.get(*h), k as u64);
    }
    assert_eq!(a.len(), 102);
}

#[test]
fn walk_is_newest_chunk_first() {
    // chunks of 8 then 16: the ninth and tenth elements come first
    let mut a = ArenaVex::new();
    for k in 0..10u32 {
        a.push(k);
    }
    assert_eq!(a.values(), vec![8, 9, 0, 1, 2, 3, 4, 5, 6, 7]);
    let order: Vec<u32> = a.iter().into_iter().map(|h| *a.get(h)).collect();
    assert_eq!(order, vec![8, 9, 0, 1, 2, 3, 4, 5, 6, 7]);
}

#[test]
fn walk_with_three_chunks() {
    let mut a = ArenaVex::with_capacity(1);
    for k in 0..5u32 {
        a.push(k);
    }
    // capacities 1, 2, 4
    assert_eq!(a.values(), vec![3, 4, 1, 2, 0]);
}

#[test]
fn one_chunk_keeps_insertion_order() {
    let mut a = ArenaVex::new();
    for k in 0..8u32 {
        a.push(k);
    }
    assert_eq!(a.values(), vec![0, 1, 2, 3, 4, 5, 6, 7]);
}

#[test]
fn empty_arena_walks_nothing() {
    let a: ArenaVex<u8> = ArenaVex::new();
    assert_eq!(a.values(), Vec::<u8>::new());
    assert_eq!(a.iter().len(), 0);
    assert_eq!(a.len(), 0);
}

#[test]
fn zero_capacity_arena_is_empty() {
    let a: ArenaVex<u8> = ArenaVex::with_capacity(0);
    assert_eq!(a.len(), 0);
    assert_eq!(a.values(), Vec::<u8>::new());
}
