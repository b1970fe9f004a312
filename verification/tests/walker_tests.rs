use adt::ADT;
use adt::AdtError;
use adt::MAX_SIZE;

fn push_u32(v: &mut Vec<u8>, x: u32) {
    v.extend_from_slice(&x.to_le_bytes());
}

fn push_prop(v: &mut Vec<u8>, name: &str, value: &[u8]) {
    let mut nb = [0u8; 32];
    nb[..name.len()].copy_from_slice(name.as_bytes());
    v.extend_from_slice(&nb);
    push_u32(v, value.len() as u32);
    v.extend_from_slice(value);
    while v.len() % 4 != 0 {
        v.push(0);
    }
}

/// root (2 props, 2 children)
///   uart0: name, reg = [0x20a0000, 0, 0x1000]
///   dart:  name, compatible = "acme,dart\0acme,widget\0"
///     sub0: name
fn sample_blob() -> Vec<u8> {
    let mut b = Vec::new();
    push_u32(&mut b, 2);
    push_u32(&mut b, 2);
    push_prop(&mut b, "name", b"device-tree\0");
    push_prop(&mut b, "compatible", b"acme,soc\0");
    // child 0: uart0 at offset 104
    push_u32(&mut b, 2);
    push_u32(&mut b, 0);
    push_prop(&mut b, "name", b"uart0\0");
    let mut reg = Vec::new();
    push_u32(&mut reg, 0x20a_0000);
    push_u32(&mut reg, 0);
    push_u32(&mut reg, 0x1000);
    push_prop(&mut b, "reg", &reg);
    // child 1: dart at offset 204
    push_u32(&mut b, 2);
    push_u32(&mut b, 1);
    push_prop(&mut b, "name", b"dart\0");
    push_prop(&mut b, "compatible", b"acme,dart\0acme,widget\0");
    // grandchild: sub0 at offset 316
    push_u32(&mut b, 1);
    push_u32(&mut b, 0);
    push_prop(&mut b, "name", b"sub0\0");
    b
}

fn sample() -> ADT {
    ADT::new(sample_blob()).unwrap()
}

#[test]
fn new_rejects_oversized_blob() {
    assert!(matches!(ADT::new(vec![0u8; MAX_SIZE + 1]), Err(AdtError::BadLength)));
    let t = ADT::new(vec![0u8; 64]).unwrap();
    assert_eq!(t.blob_len(), 64);
}

#[test]
fn check_offset_accepts_aligned_nonnegative() {
    assert!(ADT::check_offset(0).is_ok());
    assert!(ADT::check_offset(4).is_ok());
    assert!(ADT::check_offset(2048).is_ok());
    assert!(matches!(ADT::check_offset(-4), Err(AdtError::BadOffset)));
    assert!(matches!(ADT::check_offset(-1), Err(AdtError::BadOffset)));
    assert!(matches!(ADT::check_offset(2), Err(AdtError::BadOffset)));
    assert!(matches!(ADT::check_offset(5), Err(AdtError::BadOffset)));
}

#[test]
fn node_at_reads_header() {
    let t = sample();
    let h = t.node_at(0).unwrap();
    assert_eq!(h.property_count, 2);
    assert_eq!(h.child_count, 2);
    assert_eq!(t.get_property_count(0).unwrap(), 2);
    assert_eq!(t.get_child_count(0).unwrap(), 2);
}

#[test]
fn node_at_rejects_bad_counts() {
    // property_count == 0 is corruption
    let mut b = Vec::new();
    push_u32(&mut b, 0);
    push_u32(&mut b, 0);
    let t = ADT::new(b).unwrap();
    assert!(matches!(t.node_at(0), Err(AdtError::BadOffset)));
    // property_count > 2048 is corruption
    let mut b = Vec::new();
    push_u32(&mut b, 2049);
    push_u32(&mut b, 0);
    let t = ADT::new(b).unwrap();
    assert!(matches!(t.node_at(0), Err(AdtError::BadOffset)));
    // child_count > 2048 is corruption
    let mut b = Vec::new();
    push_u32(&mut b, 1);
    push_u32(&mut b, 2049);
    let t = ADT::new(b).unwrap();
    assert!(matches!(t.node_at(0), Err(AdtError::BadOffset)));
    // a header that does not fit
    let t = ADT::new(vec![1, 0, 0, 0]).unwrap();
    assert!(matches!(t.node_at(0), Err(AdtError::BadOffset)));
    // unaligned and negative offsets
    let t = sample();
    assert!(matches!(t.node_at(2), Err(AdtError::BadOffset)));
    assert!(matches!(t.node_at(-8), Err(AdtError::BadOffset)));
}

#[test]
fn check_property_rejects_reserved_size_bits() {
    // a property whose size field has a reserved bit set, for each
    // reserved bit position 20..=31
    for bit in 20..32 {
        let mut b = Vec::new();
        push_u32(&mut b, 1);
        push_u32(&mut b, 0);
        let mut nb = [0u8; 32];
        nb[..4].copy_from_slice(b"name");
        b.extend_from_slice(&nb);
        push_u32(&mut b, 1u32 << bit);
        b.extend_from_slice(&[0u8; 64]);
        let t = ADT::new(b).unwrap();
        assert!(matches!(t.check_property(8), Err(AdtError::BadLength)));
        assert!(matches!(t.property_at(8), Err(AdtError::BadLength)));
    }
}

#[test]
fn check_property_rejects_overrun() {
    // declared value runs past the end of the blob
    let mut b = Vec::new();
    push_u32(&mut b, 1);
    push_u32(&mut b, 0);
    let mut nb = [0u8; 32];
    nb[..4].copy_from_slice(b"name");
    b.extend_from_slice(&nb);
    push_u32(&mut b, 1000);
    b.extend_from_slice(&[0u8; 8]);
    let t = ADT::new(b).unwrap();
    assert!(matches!(t.check_property(8), Err(AdtError::BadOffset)));
}

#[test]
fn property_at_returns_name_and_value() {
    let t = sample();
    let p = t.property_at(8).unwrap();
    assert_eq!(&p.name[..4], b"name");
    assert_eq!(p.name[4], 0);
    assert_eq!(p.size, 12);
    assert_eq!(p.value, b"device-tree\0");
    assert_eq!(t.value_at(8).unwrap(), b"device-tree\0");
}

#[test]
fn property_iteration_reaches_first_child() {
    let t = sample();
    let h = t.node_at(0).unwrap();
    let mut off = ADT::first_property_offset(0);
    assert_eq!(off, 8);
    for _ in 0..h.property_count {
        off = t.next_property_offset(off).unwrap();
    }
    assert_eq!(off, t.first_child_offset(0).unwrap());
    assert_eq!(off, 104);
}

#[test]
fn next_property_offset_is_header_value_padding() {
    let t = sample();
    // name "device-tree\0" has 12 value bytes, already aligned
    assert_eq!(t.next_property_offset(8).unwrap(), 8 + 36 + 12);
    // compatible "acme,soc\0" has 9 value bytes, padded to 12
    assert_eq!(t.next_property_offset(56).unwrap(), 56 + 36 + 12);
}

#[test]
fn sibling_iteration_exhausts_children() {
    let t = sample();
    let h = t.node_at(0).unwrap();
    assert_eq!(h.child_count, 2);
    let first = t.first_child_offset(0).unwrap();
    assert_eq!(first, 104);
    let second = t.next_sibling_offset(first).unwrap();
    assert_eq!(second, 204);
    // the offset just past the last child is the end of the blob
    let end = t.next_sibling_offset(second).unwrap();
    assert_eq!(end as usize, t.blob_len());
}

#[test]
fn get_property_by_name_finds_and_misses() {
    let t = sample();
    let p = t.get_property_by_name(0, "compatible").unwrap();
    assert_eq!(p.value, b"acme,soc\0");
    let p = t.get_property_by_name(104, "reg").unwrap();
    assert_eq!(p.size, 12);
    assert!(matches!(t.get_property_by_name(0, "missing"), Err(AdtError::NotFound)));
    assert!(matches!(t.get_property_by_name(0, "nam"), Err(AdtError::NotFound)));
    assert!(matches!(t.get_property_by_name(0, "names"), Err(AdtError::NotFound)));
    assert!(matches!(t.get_property_by_name(12, "name"), Err(AdtError::BadOffset)));
}

#[test]
fn get_subnode_by_name_resolves_children() {
    let t = sample();
    assert_eq!(t.get_subnode_by_name(0, "uart0").unwrap(), 104);
    assert_eq!(t.get_subnode_by_name(0, "dart").unwrap(), 204);
    assert_eq!(t.get_subnode_by_name(204, "sub0").unwrap(), 316);
    assert!(matches!(t.get_subnode_by_name(0, "sub0"), Err(AdtError::NotFound)));
    assert!(matches!(t.get_subnode_by_name(104, "x"), Err(AdtError::NotFound)));
}

#[test]
fn child_scan_is_count_bounded() {
    // the single child declares 2000 children of its own with no bytes
    // behind them, so computing its sibling would fail; a lookup that
    // exhausts the child count must still answer NotFound, not an error
    let mut b = Vec::new();
    push_u32(&mut b, 1);
    push_u32(&mut b, 1);
    push_prop(&mut b, "name", b"root\0");
    push_u32(&mut b, 1);
    push_u32(&mut b, 2000);
    push_prop(&mut b, "name", b"only\0");
    let t = ADT::new(b).unwrap();
    let child = t.first_child_offset(0).unwrap();
    assert!(t.next_sibling_offset(child).is_err());
    assert!(matches!(t.get_subnode_by_name(0, "other"), Err(AdtError::NotFound)));
    assert_eq!(t.get_subnode_by_name(0, "only").unwrap(), child);
}

#[test]
fn path_offset_resolves_and_rejects() {
    let t = sample();
    assert_eq!(t.path_offset("").unwrap(), 0);
    assert_eq!(t.path_offset("/uart0").unwrap(), 104);
    assert_eq!(t.path_offset("uart0").unwrap(), 104);
    assert_eq!(t.path_offset("/dart/sub0").unwrap(), 316);
    assert!(matches!(t.path_offset("/missing"), Err(AdtError::NotFound)));
    assert!(matches!(t.path_offset("/uart0/sub0"), Err(AdtError::NotFound)));
    assert!(matches!(t.path_offset("//uart0"), Err(AdtError::BadPath)));
    assert!(matches!(t.path_offset("/dart/"), Err(AdtError::BadPath)));
    assert!(matches!(t.path_offset("/"), Err(AdtError::BadPath)));
}

#[test]
fn path_equals_nested_subnode_lookup() {
    let t = sample();
    let a = t.get_subnode_by_name(0, "dart").unwrap();
    let b = t.get_subnode_by_name(a, "sub0").unwrap();
    assert_eq!(t.path_offset("/dart/sub0").unwrap(), b);
}

#[test]
fn set_property_round_trips() {
    let mut t = sample();
    // overwrite all 9 bytes of root's compatible value
    t.set_property(0, "compatible", b"acme,xyz\0").unwrap();
    let p = t.get_property_by_name(0, "compatible").unwrap();
    assert_eq!(p.value, b"acme,xyz\0");
    // a shorter value only overwrites its own prefix
    t.set_property(0, "compatible", b"foo!").unwrap();
    let p = t.get_property_by_name(0, "compatible").unwrap();
    assert_eq!(p.size, 9);
    assert_eq!(&p.value[..4], b"foo!");
    assert_eq!(&p.value[4..], b",xyz\0");
}

#[test]
fn set_property_rejects_growth_and_missing() {
    let mut t = sample();
    assert!(matches!(
        t.set_property(0, "compatible", b"a-longer-value"),
        Err(AdtError::BadLength)
    ));
    assert!(matches!(t.set_property(0, "missing", b"x"), Err(AdtError::NotFound)));
    // failed mutations leave the blob unchanged
    let p = t.get_property_by_name(0, "compatible").unwrap();
    assert_eq!(p.value, b"acme,soc\0");
}

#[test]
fn garbage_blob_yields_errors_not_panics() {
    // every public call on an adversarial blob returns a typed error or
    // a value; nothing panics and nothing reads out of bounds
    let mut b = Vec::new();
    for i in 0..4096u32 {
        b.push((i * 37 % 251) as u8);
    }
    let mut t = ADT::new(b).unwrap();
    for off in [-8, -1, 0, 1, 2, 3, 4, 40, 4092, 4096, 5000, i32::MAX - 8] {
        let _ = t.node_at(off);
        let _ = t.get_property_count(off);
        let _ = t.get_child_count(off);
        let _ = t.property_at(off);
        let _ = t.value_at(off);
        let _ = t.next_property_offset(off);
        let _ = t.first_child_offset(off);
        let _ = t.next_sibling_offset(off);
        let _ = t.get_property_by_name(off, "name");
        let _ = t.get_subnode_by_name(off, "name");
        let _ = t.is_compatible(off, "acme,widget");
    }
    let _ = t.path_offset("/a/b/c");
    let _ = t.get_reg("/a", "reg", 0);
    let _ = t.set_property(0, "name", b"zz");
}
