use dash_vm::external::Externals;
use dash_vm::gc::persistent::{is_referenced, ExternalRefs, Persistent};
use dash_vm::gc::Allocator;

#[test]
fn persistent_refcounts() {
    let mut allocator = Allocator::new();
    let object = allocator.allocate::<()>(&[1, 2, 3, 4], 4, &[], 1);
    let mut refs = ExternalRefs::default();

    assert!(refs.is_empty());
    let p1 = Persistent::new(&mut refs, object);
    assert_eq!(p1.refcount(&refs), 1);
    assert_eq!(refs.len(), 1);
    let p2 = Persistent::new(&mut refs, p1.id());
    assert_eq!(p1.refcount(&refs), 2);
    assert_eq!(refs.len(), 1);
    p2.drop(&mut refs);
    assert_eq!(p1.refcount(&refs), 1);
    assert_eq!(refs.len(), 1);
    refs.prune();
    assert_eq!(p1.refcount(&refs), 1);
    assert_eq!(refs.len(), 1);
}

#[test]
fn persistent_clone_and_drop() {
    let mut allocator = Allocator::new();
    let object = allocator.allocate::<()>(&[7], 1, &[], 1);
    let mut refs = ExternalRefs::default();
    let p = Persistent::new(&mut refs, object);
    let q = p.clone(&mut refs);
    assert_eq!(q.refcount(&refs), 2);
    assert_eq!(p.inc_refcount(&mut refs), 3);
    assert_eq!(p.dec_refcount(&mut refs), 2);
    q.drop(&mut refs);
    assert_eq!(p.refcount(&refs), 1);
    p.drop(&mut refs);
    // The entry stays, with a zero count, until the table is pruned.
    assert_eq!(refs.len(), 1);
    refs.prune();
    assert!(refs.is_empty());
}

#[test]
fn prune_keeps_referenced_entries() {
    let mut allocator = Allocator::new();
    let a = allocator.allocate::<()>(&[1], 1, &[], 1);
    let b = allocator.allocate::<()>(&[2], 1, &[], 1);
    let mut refs = ExternalRefs::default();
    let pa = Persistent::new(&mut refs, a);
    let pb = Persistent::new(&mut refs, b);
    assert_eq!(refs.len(), 2);
    pb.drop(&mut refs);
    refs.prune();
    assert_eq!(refs.len(), 1);
    assert_eq!(pa.refcount(&refs), 1);
    assert!(is_referenced(1));
    assert!(!is_referenced(0));
}

#[test]
fn externals_add_and_remove() {
    let mut externals: Externals<u32> = Externals::new();
    externals.add_single(1, 10);
    externals.add_single(2, 20);
    externals.add_single(1, 11);
    externals.extend_from_scope(1, vec![12, 13]);
    externals.extend_from_scope(3, vec![30]);
    assert_eq!(externals.remove(1), Some(vec![10, 11, 12, 13]));
    assert_eq!(externals.remove(1), None);
    assert_eq!(externals.remove(2), Some(vec![20]));
    assert_eq!(externals.remove(3), Some(vec![30]));
    assert_eq!(externals.remove(4), None);
}
