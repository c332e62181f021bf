use pooledmm::TNonFreePooledMemManager;

type Pool4 = TNonFreePooledMemManager<u64, 4>;

fn acquire_n(pool: &mut Pool4, n: usize) -> Vec<usize> {
    let mut out = Vec::new();
    for _ in 0..n {
        assert!(pool.can_acquire());
        out.push(pool.new_item());
    }
    out
}

#[test]
fn new_arena_is_empty() {
    let pool = Pool4::new();
    assert!(pool.block_capacities().is_empty());
    assert_eq!(pool.vended_count(), 0);
    assert_eq!(pool.reserved_count(), 0);
    assert_eq!(pool.current_capacity(), 4);
}

#[test]
fn first_block_is_twice_the_initial_size() {
    let mut pool = Pool4::new();
    pool.new_item();
    assert_eq!(pool.block_capacities(), &vec![8]);
    assert_eq!(pool.reserved_count(), 8);
    assert_eq!(pool.current_capacity(), 8);
}

#[test]
fn block_capacities_double() {
    let mut pool = Pool4::new();
    acquire_n(&mut pool, 8 + 16 + 32 + 1);
    assert_eq!(pool.block_capacities(), &vec![8, 16, 32, 64]);
    for (k, cap) in pool.block_capacities().iter().enumerate() {
        assert_eq!(*cap, 4 * (1usize << (k + 1)));
    }
}

#[test]
fn block_count_is_smallest_sufficient() {
    for n in 0..200usize {
        let mut pool = Pool4::new();
        acquire_n(&mut pool, n);
        let mut b = 0usize;
        let mut reserved = 0usize;
        while reserved < n {
            b += 1;
            reserved += 4 * (1usize << b);
        }
        assert_eq!(pool.block_capacities().len(), b, "n = {}", n);
        assert_eq!(pool.reserved_count(), reserved, "n = {}", n);
    }
}

#[test]
fn acquired_slots_read_zero() {
    let mut pool = Pool4::new();
    for k in 0..40u64 {
        let a = pool.new_item();
        assert_eq!(*pool.get(a), 0);
        pool.set(a, k + 100);
        assert_eq!(*pool.get(a), k + 100);
    }
    pool.clear();
    for _ in 0..40 {
        let a = pool.new_item();
        assert_eq!(*pool.get(a), 0);
    }
}

#[test]
fn addresses_are_distinct_within_a_generation() {
    let mut pool = Pool4::new();
    let addrs = acquire_n(&mut pool, 100);
    for i in 0..addrs.len() {
        assert_eq!(addrs[i], i);
        for j in 0..i {
            assert_ne!(addrs[i], addrs[j]);
        }
    }
}

#[test]
fn clear_on_pristine_arena_changes_nothing() {
    let mut pool = Pool4::new();
    pool.clear();
    assert!(pool.block_capacities().is_empty());
    assert_eq!(pool.vended_count(), 0);
    assert_eq!(pool.reserved_count(), 0);
    assert_eq!(pool.current_capacity(), 4);
}

#[test]
fn clear_twice_is_idempotent() {
    let mut pool = Pool4::new();
    acquire_n(&mut pool, 30);
    pool.clear();
    pool.clear();
    assert!(pool.block_capacities().is_empty());
    assert_eq!(pool.vended_count(), 0);
    assert_eq!(pool.current_capacity(), 4);
}

#[test]
fn clear_then_acquire_repeats_progression() {
    let mut fresh = Pool4::new();
    let mut reused = Pool4::new();
    acquire_n(&mut reused, 57);
    reused.clear();
    for _ in 0..100 {
        assert_eq!(fresh.new_item(), reused.new_item());
        assert_eq!(fresh.block_capacities(), reused.block_capacities());
        assert_eq!(fresh.reserved_count(), reused.reserved_count());
    }
}

#[test]
fn enumeration_of_a_full_first_block() {
    let mut pool = Pool4::new();
    let addrs = acquire_n(&mut pool, 8);
    let visited = pool.for_each_allocated(|a, _v: &u64| a);
    assert_eq!(visited, addrs);
    assert_eq!(visited, (0..8).collect::<Vec<usize>>());
}

#[test]
fn enumeration_walks_the_whole_last_block() {
    let mut pool = Pool4::new();
    let addrs = acquire_n(&mut pool, 9);
    for a in &addrs {
        pool.set(*a, 7);
    }
    let visited = pool.for_each_allocated(|a, _v: &u64| a);
    assert_eq!(visited, (0..24).collect::<Vec<usize>>());
    let values = pool.for_each_allocated(|_a, v: &u64| *v);
    assert_eq!(values.len(), 8 + 16);
    assert!(values[..9].iter().all(|v| *v == 7));
    assert_eq!(values[9..].len(), 15);
    assert!(values[9..].iter().all(|v| *v == 0));
}

#[test]
fn enumeration_of_an_empty_arena() {
    let pool = Pool4::new();
    let visited = pool.for_each_allocated(|a, _v: &u64| a);
    assert!(visited.is_empty());
}

#[test]
fn scenario_two_blocks_then_clear() {
    let mut pool = Pool4::new();
    acquire_n(&mut pool, 8);
    assert_eq!(pool.block_capacities(), &vec![8]);
    acquire_n(&mut pool, 1);
    assert_eq!(pool.block_capacities(), &vec![8, 16]);
    pool.clear();
    assert!(pool.block_capacities().is_empty());
    pool.new_item();
    assert_eq!(pool.block_capacities(), &vec![8]);
}

#[test]
fn initial_size_of_one() {
    let mut pool: TNonFreePooledMemManager<u8, 1> = TNonFreePooledMemManager::new();
    for _ in 0..2 + 4 + 1 {
        pool.new_item();
    }
    assert_eq!(pool.block_capacities(), &vec![2, 4, 8]);
}

#[test]
fn growth_check_refuses_oversized_blocks() {
    let mut pool = Pool4::new();
    assert!(pool.can_acquire());
    assert!(pool.can_hand_out_count(1000));
    assert!(!pool.can_hand_out_count(usize::MAX / 2));
    pool.new_item();
    assert!(pool.can_acquire());
}
