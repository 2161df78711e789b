use dash_vm::gc::chunk::CHUNK_SIZE;
use dash_vm::gc::{AllocId, Allocator};

fn alloc_i16(a: &mut Allocator, v: i16, meta: &[u8]) -> AllocId<()> {
    a.allocate(&v.to_le_bytes(), 2, meta, 1)
}

fn alloc_i32(a: &mut Allocator, v: i32, meta: &[u8]) -> AllocId<()> {
    a.allocate(&v.to_le_bytes(), 4, meta, 1)
}

fn alloc_i64(a: &mut Allocator, v: i64, meta: &[u8]) -> AllocId<()> {
    a.allocate(&v.to_le_bytes(), 8, meta, 1)
}

#[test]
fn reclaim() {
    let mut allocator = Allocator::new();

    let array: Vec<u8> = [42i32; 8].iter().flat_map(|x| x.to_le_bytes()).collect();
    allocator.allocate::<()>(&array, 4, &[], 1);
    alloc_i16(&mut allocator, 42, &[]);
    alloc_i64(&mut allocator, 42, &[]);
    allocator.allocate::<()>(&100i128.to_le_bytes(), 16, &[], 1);
    alloc_i16(&mut allocator, 42, &[]);
    alloc_i64(&mut allocator, 42, &[]);
    alloc_i16(&mut allocator, 42, &[]);

    allocator.sweep();
    assert_eq!(allocator.rss(), 0);
    let a = alloc_i16(&mut allocator, 46, &[]);

    let b = allocator.allocate::<()>(&[42u8], 1, &[], 1);
    let c = allocator.allocate::<()>(&[42u8], 1, &[], 1);
    let d = allocator.allocate::<()>(&42u64.to_le_bytes(), 8, &[], 1);
    let e = alloc_i32(&mut allocator, 42, &[]);

    assert_eq!(allocator.data(&a, 2), 46i16.to_le_bytes().to_vec());
    assert_eq!(allocator.data(&b, 1), vec![42]);
    assert_eq!(allocator.data(&c, 1), vec![42]);
    assert_eq!(allocator.data(&d, 8), 42u64.to_le_bytes().to_vec());
    assert_eq!(allocator.data(&e, 4), 42i32.to_le_bytes().to_vec());
    // Everything went into reclaimed space.
    assert_eq!(allocator.chunk_count(), 1);
}

#[test]
fn mod_alloc_simple() {
    let mut allocator = Allocator::new();

    for i in 0..5 {
        let a = 42i16.wrapping_mul(i);
        let b = 328254356i64.wrapping_mul(i as i64);
        let c = i32::MAX;

        let alloc1 = alloc_i16(&mut allocator, a, b"asdsada");
        let alloc2 = alloc_i64(&mut allocator, b, b"bbbbb");
        let alloc3 = alloc_i32(&mut allocator, c, b"cc");
        allocator.allocate::<()>(&[1, 0, 0, 0, 2, 0, 0, 0], 4, b"asdasd", 1);

        assert_eq!(allocator.data(&alloc1, 2), a.to_le_bytes().to_vec());
        assert_eq!(allocator.metadata(&alloc1, 7), b"asdsada".to_vec());
        assert_eq!(allocator.data(&alloc2, 8), b.to_le_bytes().to_vec());
        assert_eq!(allocator.metadata(&alloc2, 5), b"bbbbb".to_vec());
        assert_eq!(allocator.data(&alloc3, 4), c.to_le_bytes().to_vec());
        assert_eq!(allocator.metadata(&alloc3, 2), b"cc".to_vec());
    }

    allocator.sweep();

    for _ in 0..5 {
        let a = alloc_i64(&mut allocator, i64::MAX, &[]);
        let b = allocator.allocate::<()>(&[i8::MAX as u8], 1, &[], 1);
        let c = alloc_i32(&mut allocator, i32::MAX, &[]);
        assert_eq!(allocator.data(&a, 8), i64::MAX.to_le_bytes().to_vec());
        assert_eq!(allocator.data(&b, 1), vec![i8::MAX as u8]);
        assert_eq!(allocator.data(&c, 4), i32::MAX.to_le_bytes().to_vec());
        allocator.sweep();
    }
}

#[test]
fn marked_allocations_survive_a_sweep() {
    let mut allocator = Allocator::new();
    let kept = alloc_i64(&mut allocator, 7, b"meta");
    let dropped = alloc_i64(&mut allocator, 8, b"gone");
    let size_before = allocator.rss();
    assert!(size_before > 16);

    assert!(!allocator.mark(&kept));
    assert!(allocator.mark(&kept));
    allocator.sweep();
    // Only the marked allocation is left, and the sweep cleared its mark.
    assert!(allocator.rss() < size_before);
    assert_eq!(allocator.data(&kept, 8), 7i64.to_le_bytes().to_vec());
    assert_eq!(allocator.metadata(&kept, 4), b"meta".to_vec());
    assert!(!allocator.mark(&kept));

    // The reclaimed space is reused for an allocation of the same shape.
    let again = alloc_i64(&mut allocator, 9, b"next");
    assert_eq!(allocator.data(&again, 8), 9i64.to_le_bytes().to_vec());
    assert_eq!(allocator.data(&kept, 8), 7i64.to_le_bytes().to_vec());
    let _ = dropped;
}

#[test]
fn a_full_chunk_leads_to_a_new_one() {
    let mut allocator = Allocator::new();
    let big = vec![5u8; 1000];
    let mut ids = Vec::new();
    for _ in 0..8 {
        ids.push(allocator.allocate::<()>(&big, 8, &[], 1));
    }
    assert!(allocator.chunk_count() >= 2);
    for id in &ids {
        assert_eq!(allocator.data(id, 1000), big);
    }
    assert!(allocator.rss() >= 8000);
    assert!(allocator.rss() <= 2 * CHUNK_SIZE + 8 * 16);
}

#[test]
fn metadata_and_value_are_aligned() {
    let mut allocator = Allocator::new();
    alloc_i16(&mut allocator, 1, &[]);
    let id = allocator.allocate::<()>(&[9u8; 16], 16, &[1, 2, 3], 8);
    let (data, meta) = allocator.resolve_raw(&id, 16, 3);
    assert_eq!(data, vec![9u8; 16]);
    assert_eq!(meta, vec![1, 2, 3]);
}

#[test]
fn alloc_ids_are_copied_and_compared_by_their_packed_id() {
    let mut a = Allocator::new();
    let x = alloc_i16(&mut a, 1, &[]);
    let y = alloc_i16(&mut a, 2, &[]);
    let x2 = x;
    assert!(x == x2);
    assert!(x != y);
    assert_eq!(a.data(&x, 2), 1i16.to_le_bytes().to_vec());
    assert_eq!(a.data(&x2, 2), 1i16.to_le_bytes().to_vec());
    let mut set = std::collections::HashSet::new();
    set.insert(x);
    set.insert(x2);
    set.insert(y);
    assert_eq!(set.len(), 2);
}

#[test]
fn gc2_alloc_ids_are_copied_and_compared_by_their_raw_id() {
    let a: dash_vm::gc::gc2::AllocId<()> = dash_vm::gc::gc2::AllocId::from_raw(5);
    let b = a;
    assert!(a == b);
    assert_eq!(a.raw(), 5);
    assert_eq!(b.raw(), 5);
    assert!(a != dash_vm::gc::gc2::AllocId::from_raw(6));
}

#[test]
fn the_most_recently_freed_slot_is_reused_first() {
    let mut a = Allocator::new();
    let x = a.allocate::<()>(&[1], 1, &[], 1);
    let y = a.allocate::<()>(&[2], 1, &[], 1);
    // Fresh allocations go to the fill position of the last chunk: the data of the first lies
    // after its two header bytes and its metadata terminator, that of the second 4 bytes on.
    assert_eq!(x.raw(), 3);
    assert_eq!(y.raw(), 7);
    assert_eq!(a.rss(), 8);
    a.sweep();
    assert_eq!(a.rss(), 0);
    let z = a.allocate::<()>(&[9], 1, &[], 1);
    assert!(z == y);
    assert!(z != x);
    assert_eq!(a.rss(), 4);
    assert_eq!(a.data(&z, 1), vec![9]);
    assert_eq!(a.chunk_count(), 1);
    assert_eq!(z.raw(), 7);
}
