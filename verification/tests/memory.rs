use dash_vm::gc::buf::AlignedBuf;
use dash_vm::gc::gc2::AllocId;
use dash_vm::gc::handle::HandleFlags;

#[test]
fn aligned_buf_grows_and_keeps_its_length() {
    let mut buf = AlignedBuf::new();
    assert_eq!(buf.len(), 0);
    buf.push(7);
    assert_eq!(buf.len(), 1);
    buf.push_n(0, 5);
    assert_eq!(buf.len(), 6);
    buf.reserve(100);
    assert_eq!(buf.len(), 6);
    buf.push_n(1, 0);
    assert_eq!(buf.len(), 6);
}

#[test]
fn alloc_id_round_trip() {
    let id: AllocId<()> = AllocId::from_raw(12345);
    assert_eq!(id.raw(), 12345);
    let id: AllocId<u8> = AllocId::from_raw(u32::MAX);
    assert_eq!(id.raw(), u32::MAX);
}

#[test]
fn handle_flags_mark_and_detach() {
    let mut flags = HandleFlags::new();
    assert!(!flags.is_marked());
    assert!(!flags.is_vm_detached());
    flags.mark();
    assert!(flags.is_marked());
    assert!(!flags.is_vm_detached());
    flags.detach_vm();
    assert!(flags.is_marked());
    assert!(flags.is_vm_detached());
}

#[test]
fn handle_flags_unmark_clears_the_mark() {
    let mut flags = HandleFlags::new();
    flags.mark();
    flags.unmark();
    assert!(!flags.is_marked());
    assert!(!flags.is_vm_detached());
    // An unmarked node stays unmarked, and the detached flag is kept.
    flags.detach_vm();
    flags.unmark();
    assert!(!flags.is_marked());
    assert!(flags.is_vm_detached());
    flags.mark();
    flags.unmark();
    assert!(!flags.is_marked());
    assert!(flags.is_vm_detached());
}

#[test]
fn gc2_handle_flags() {
    let mut flags = dash_vm::gc2::handle::HandleFlags::new();
    flags.mark();
    assert!(flags.is_marked());
    flags.detach_vm();
    assert!(flags.is_vm_detached());
    flags.unmark();
    assert!(!flags.is_marked());
    assert!(flags.is_vm_detached());
}
