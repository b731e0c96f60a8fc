use libtfce::voxel_priority::VoxelPriority;
use libtfce::voxel_queue::VoxelQueue;
use std::cmp::Ordering;

#[test]
fn priorities_order_by_value_then_index() {
    let a = VoxelPriority { value: 5, index: 2 };
    let b = VoxelPriority { value: 5, index: 3 };
    let c = VoxelPriority { value: 6, index: 0 };
    assert_eq!(a.partial_cmp(&b), Some(Ordering::Less));
    assert_eq!(b.partial_cmp(&a), Some(Ordering::Greater));
    assert_eq!(b.partial_cmp(&c), Some(Ordering::Less));
    assert_eq!(c.partial_cmp(&a), Some(Ordering::Greater));
    assert_eq!(a.partial_cmp(&a), Some(Ordering::Equal));
    assert_eq!(a.cmp(&b), Ordering::Less);
    assert!(a < b && b < c && a == a && a != b);
    assert!(a.ranks_below(&b));
    assert!(!b.ranks_below(&a));
    assert!(!a.ranks_below(&a));
}

#[test]
fn queue_pops_the_highest_first() {
    let mut queue = VoxelQueue::new();
    assert!(queue.is_empty());
    assert_eq!(queue.pop(), None);
    let items = [(3u64, 1usize), (9, 4), (3, 0), (7, 2), (9, 3), (1, 5), (9, 4)];
    for (value, index) in items.iter() {
        queue.push(VoxelPriority { value: *value, index: *index });
    }
    assert_eq!(queue.len(), 7);
    assert!(!queue.is_empty());
    let mut popped = Vec::new();
    while let Some(top) = queue.pop() {
        popped.push((top.value, top.index));
    }
    assert_eq!(popped, vec![(9, 4), (9, 4), (9, 3), (7, 2), (3, 1), (3, 0), (1, 5)]);
    assert_eq!(queue.len(), 0);
}

#[test]
fn queue_absorbs_another_queue() {
    let mut a = VoxelQueue::new();
    let mut b = VoxelQueue::new();
    for n in 0..50u64 {
        a.push(VoxelPriority { value: (n * 37) % 101, index: n as usize });
        b.push(VoxelPriority { value: (n * 53) % 103, index: 100 + n as usize });
    }
    a.absorb(b);
    assert_eq!(a.len(), 100);
    let mut last: Option<VoxelPriority> = None;
    let mut count = 0;
    while let Some(top) = a.pop() {
        if let Some(before) = last {
            assert!(top <= before);
        }
        last = Some(top);
        count += 1;
    }
    assert_eq!(count, 100);
}
