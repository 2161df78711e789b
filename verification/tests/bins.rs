use dash_vm::frame::Exports;
use dash_vm::gc::gc2__::{n_bin_kind, n_bin_kind_bits, Allocator, Bin, BinKind, ObjectId, BIN32, BIN64, BIN8, BINVAR};

#[test]
fn object_id_fields() {
    let id = ObjectId { id: 3, generation_and_bin: 0b1100_0000_0000_0101 };
    assert_eq!(id.generation_and_bin(), (5, 3));
    assert_eq!(id.generation(), 5);
    assert_eq!(id.bin(), 3);
}

#[test]
fn bin_kinds() {
    assert_eq!(n_bin_kind::<8>(), BinKind::B8);
    assert_eq!(n_bin_kind::<32>(), BinKind::B32);
    assert_eq!(n_bin_kind::<64>(), BinKind::B64);
    assert_eq!(n_bin_kind_bits::<8>(), BIN8);
    assert_eq!(n_bin_kind_bits::<32>(), BIN32);
    assert_eq!(n_bin_kind_bits::<64>(), BIN64);
}

#[test]
fn bin_reuses_freed_slots() {
    let mut bin: Bin<8, &str> = Bin::new();
    let a = bin.allocate(42u64.to_le_bytes(), "a");
    let b = bin.allocate(123213u64.to_le_bytes(), "b");
    assert_eq!(a.id, 0);
    assert_eq!(b.id, 1);
    assert_eq!(a.generation_and_bin, BIN8);
    let (v, m) = bin.res(a);
    assert_eq!(u64::from_le_bytes(*v), 42);
    assert_eq!(*m, "a");
    bin.dealloc(a);
    let c = bin.allocate(49u64.to_le_bytes(), "c");
    assert_eq!(c.id, 0);
    let (v, m) = bin.res(c);
    assert_eq!(u64::from_le_bytes(*v), 49);
    assert_eq!(*m, "c");
    let (v, _) = bin.res(b);
    assert_eq!(u64::from_le_bytes(*v), 123213);
}

#[test]
fn exports_default() {
    let e: Exports<u32> = Exports::default();
    assert!(e.default.is_none());
    assert!(e.named.is_empty());
}

fn u64_at(bytes: &[u8], i: usize) -> u64 {
    u64::from_le_bytes(bytes[i * 8..i * 8 + 8].try_into().unwrap())
}

#[test]
fn size8() {
    let mut gc: Allocator<()> = Allocator::new();
    let a = gc.allocate(&42u64.to_le_bytes(), ());
    let mut pair = 6u32.to_le_bytes().to_vec();
    pair.extend_from_slice(&123213u32.to_le_bytes());
    let b = gc.allocate(&pair, ());
    assert_eq!(u64_at(gc.res(a).0, 0), 42);
    let (v, _) = gc.res(b);
    assert_eq!(u32::from_le_bytes(v[0..4].try_into().unwrap()), 6);
    assert_eq!(u32::from_le_bytes(v[4..8].try_into().unwrap()), 123213);
    let big: Vec<u8> = [49u64; 256].iter().flat_map(|x| x.to_le_bytes()).collect();
    let c = gc.allocate(&big, ());
    assert_eq!(u64_at(gc.res(c).0, 255), 49);
    gc.dealloc(c);
}

#[test]
fn objects_go_to_the_bin_of_their_size() {
    let mut gc: Allocator<&str> = Allocator::new();
    let a = gc.allocate(&[1u8; 8], "a");
    let b = gc.allocate(&[2u8; 32], "b");
    let c = gc.allocate(&[3u8; 64], "c");
    let d = gc.allocate(&[4u8; 100], "d");
    assert_eq!((a.id, a.generation_and_bin), (0, BIN8));
    assert_eq!((b.id, b.generation_and_bin), (0, BIN32));
    assert_eq!((c.id, c.generation_and_bin), (0, BIN64));
    assert_eq!((d.id, d.generation_and_bin), (0, BINVAR));
    assert_eq!(d.bin(), 3);
    assert_eq!(gc.res(b), (&[2u8; 32][..], &"b"));
    assert_eq!(gc.res(d), (&[4u8; 100][..], &"d"));
    // A second 8-byte value takes a new slot; a freed slot is taken again.
    let e = gc.allocate(&[5u8; 8], "e");
    assert_eq!(e.id, 1);
    gc.dealloc(a);
    let f = gc.allocate(&[6u8; 8], "f");
    assert_eq!(f.id, 0);
    assert_eq!(gc.res(f), (&[6u8; 8][..], &"f"));
    assert_eq!(gc.res(e), (&[5u8; 8][..], &"e"));
}
