use tileink::memory::CpuMemory;

#[test]
fn allocations_are_aligned_zeroed_and_disjoint() {
    let mut memory = CpuMemory::new();
    let a = memory.allocate(10, 4);
    assert_eq!(a.offset, 0);
    assert_eq!(a.size, 10);
    memory.write_at(0, &[7; 10]);
    let b = memory.allocate(3, 512);
    assert_eq!(b.offset, 512);
    assert!(a.offset + a.size <= b.offset);
    assert_eq!(memory.read_range(b.offset, 3), vec![0, 0, 0]);
    assert_eq!(memory.read_range(0, 10), vec![7; 10]);
    assert_eq!(memory.read_range(10, 4), vec![0; 4]);
}

#[test]
fn capacity_doubles_and_advances_the_generation() {
    let mut memory = CpuMemory::new();
    assert_eq!(memory.capacity(), 0);
    memory.ensure_capacity(100);
    assert_eq!(memory.capacity(), 100);
    assert_eq!(memory.generation(), 1);
    memory.ensure_capacity(50);
    assert_eq!(memory.capacity(), 100);
    assert_eq!(memory.generation(), 1);
    memory.ensure_capacity(150);
    assert_eq!(memory.capacity(), 200);
    assert_eq!(memory.generation(), 2);
    memory.ensure_capacity(1000);
    assert_eq!(memory.capacity(), 1000);
    assert_eq!(memory.buffer().len(), 1000);
}

#[test]
fn clear_zeroes_the_arena_and_writes_land_in_place() {
    let mut memory = CpuMemory::new();
    memory.ensure_capacity(8);
    memory.write_at(2, &[1, 2, 3]);
    memory.write_at(5, &[]);
    assert_eq!(memory.buffer(), &[0, 0, 1, 2, 3, 0, 0, 0]);
    memory.clear();
    assert_eq!(memory.buffer(), &[0; 8]);
    assert_eq!(CpuMemory::align_up(257, 256), 512);
    assert_eq!(CpuMemory::align_up(512, 256), 512);
}
