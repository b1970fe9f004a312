use adt::typed::cells_u32;
use adt::typed::cells_u64;
use adt::typed::entries_contain;
use adt::typed::string_value;
use adt::ADT;
use adt::AdtError;

fn push_u32(v: &mut Vec<u8>, x: u32) {
    v.extend_from_slice(&x.to_le_bytes());
}

fn push_prop(v: &mut Vec<u8>, name: &str, value: &[u8]) {
    let mut nb = [0u8; 32];
    nb[..name.len()].copy_from_slice(name.as_bytes());
    v.extend_from_slice(&nb);
    push_u32(v, value.len() as u32);
    v.extend_from_slice(value);
    while v.len() % 4 != 0 {
        v.push(0);
    }
}

/// root: compatible = "acme,soc\0", one child uart0 with a register
/// property of `cells` little-endian 32-bit cells, and optionally
/// explicit cell counts on the root.
fn reg_blob(cells: &[u32], cell_counts: Option<(u32, u32)>) -> Vec<u8> {
    let mut b = Vec::new();
    let extra = if cell_counts.is_some() { 2 } else { 0 };
    push_u32(&mut b, 2 + extra);
    push_u32(&mut b, 1);
    push_prop(&mut b, "name", b"device-tree\0");
    push_prop(&mut b, "compatible", b"acme,soc\0");
    if let Some((ac, sc)) = cell_counts {
        push_prop(&mut b, "#address-cells", &ac.to_le_bytes());
        push_prop(&mut b, "#size-cells", &sc.to_le_bytes());
    }
    // child: uart0
    push_u32(&mut b, 2);
    push_u32(&mut b, 0);
    push_prop(&mut b, "name", b"uart0\0");
    let mut reg = Vec::new();
    for c in cells {
        push_u32(&mut reg, *c);
    }
    push_prop(&mut b, "reg", &reg);
    b
}

#[test]
fn get_reg_decodes_with_default_cell_counts() {
    // defaults: 2 address cells, 1 size cell, so one tuple is 3 cells
    let t = ADT::new(reg_blob(&[0x20a_0000, 0, 0x1000], None)).unwrap();
    assert_eq!(t.get_reg("/uart0", "reg", 0).unwrap(), (0x20a_0000, 0x1000));
}

#[test]
fn get_reg_combines_high_address_cell() {
    let t = ADT::new(reg_blob(&[0x20a_0000, 0x2, 0x1000], None)).unwrap();
    assert_eq!(t.get_reg("/uart0", "reg", 0).unwrap(), (0x2_020a_0000, 0x1000));
}

#[test]
fn get_reg_two_cell_tuple_fails_under_defaults() {
    // two 32-bit cells cannot hold a default 2+1-cell tuple
    let t = ADT::new(reg_blob(&[0x20a_0000, 0x1000], None)).unwrap();
    assert!(matches!(t.get_reg("/uart0", "reg", 0), Err(AdtError::BadNCells)));
}

#[test]
fn get_reg_honors_declared_cell_counts() {
    // with 1 address cell and 1 size cell declared on the parent, the
    // same two cells decode as one tuple
    let t = ADT::new(reg_blob(&[0x20a_0000, 0x1000], Some((1, 1)))).unwrap();
    assert_eq!(t.get_reg("/uart0", "reg", 0).unwrap(), (0x20a_0000, 0x1000));
}

#[test]
fn get_reg_indexes_tuples() {
    let t = ADT::new(reg_blob(&[0x100, 0x10, 0x200, 0x20], Some((1, 1)))).unwrap();
    assert_eq!(t.get_reg("/uart0", "reg", 0).unwrap(), (0x100, 0x10));
    assert_eq!(t.get_reg("/uart0", "reg", 1).unwrap(), (0x200, 0x20));
    assert!(matches!(t.get_reg("/uart0", "reg", 2), Err(AdtError::BadNCells)));
}

#[test]
fn get_reg_rejects_unsupported_cell_counts() {
    let t = ADT::new(reg_blob(&[1, 2, 3, 4], Some((3, 1)))).unwrap();
    assert!(matches!(t.get_reg("/uart0", "reg", 0), Err(AdtError::BadNCells)));
    let t = ADT::new(reg_blob(&[1, 2, 3, 4], Some((1, 0)))).unwrap();
    assert!(matches!(t.get_reg("/uart0", "reg", 0), Err(AdtError::BadNCells)));
}

#[test]
fn get_reg_missing_property_or_path() {
    let t = ADT::new(reg_blob(&[1, 2, 3], None)).unwrap();
    assert!(matches!(t.get_reg("/uart0", "ranges", 0), Err(AdtError::NotFound)));
    assert!(matches!(t.get_reg("/nope", "reg", 0), Err(AdtError::NotFound)));
    assert!(matches!(t.get_reg("//uart0", "reg", 0), Err(AdtError::BadPath)));
}

#[test]
fn is_compatible_matches_full_entries_only() {
    let mut b = Vec::new();
    push_u32(&mut b, 2);
    push_u32(&mut b, 0);
    push_prop(&mut b, "name", b"widget\0");
    push_prop(&mut b, "compatible", b"acme,widget2\0acme,widget\0");
    let t = ADT::new(b).unwrap();
    assert_eq!(t.is_compatible(0, "acme,widget").unwrap(), true);
    assert_eq!(t.is_compatible(0, "acme,widget2").unwrap(), true);
    // neither a prefix nor a fragment of a longer entry matches
    assert_eq!(t.is_compatible(0, "acme,widg").unwrap(), false);
    assert_eq!(t.is_compatible(0, "widget").unwrap(), false);
    assert_eq!(t.is_compatible(0, "acme,soc").unwrap(), false);
}

#[test]
fn is_compatible_longer_entry_does_not_match_query() {
    let mut b = Vec::new();
    push_u32(&mut b, 2);
    push_u32(&mut b, 0);
    push_prop(&mut b, "name", b"widget\0");
    push_prop(&mut b, "compatible", b"acme,widget2\0");
    let t = ADT::new(b).unwrap();
    assert_eq!(t.is_compatible(0, "acme,widget").unwrap(), false);
}

#[test]
fn is_compatible_requires_terminated_entries() {
    // an unterminated trailing fragment is not an entry
    let mut b = Vec::new();
    push_u32(&mut b, 2);
    push_u32(&mut b, 0);
    push_prop(&mut b, "name", b"widget\0");
    push_prop(&mut b, "compatible", b"acme,widget!");
    let t = ADT::new(b).unwrap();
    assert_eq!(t.is_compatible(0, "acme,widget!").unwrap(), false);
}

#[test]
fn is_compatible_missing_property() {
    let mut b = Vec::new();
    push_u32(&mut b, 1);
    push_u32(&mut b, 0);
    push_prop(&mut b, "name", b"bare\0");
    let t = ADT::new(b).unwrap();
    assert!(matches!(t.is_compatible(0, "acme,soc"), Err(AdtError::NotFound)));
}

#[test]
fn entries_contain_scans_nul_separated_lists() {
    assert!(entries_contain(b"a\0bb\0", b"a"));
    assert!(entries_contain(b"a\0bb\0", b"bb"));
    assert!(!entries_contain(b"a\0bb\0", b"b"));
    assert!(!entries_contain(b"a\0bb", b"bb"));
    assert!(!entries_contain(b"", b"a"));
    assert!(entries_contain(b"\0", b""));
}

#[test]
fn string_value_requires_terminator() {
    assert_eq!(string_value(b"uart0\0").unwrap(), b"uart0");
    assert_eq!(string_value(b"a\0b\0").unwrap(), b"a");
    assert!(matches!(string_value(b"uart0"), Err(AdtError::BadValue)));
    assert!(matches!(string_value(b""), Err(AdtError::BadValue)));
}

#[test]
fn cells_u32_decodes_little_endian() {
    assert_eq!(cells_u32(&[0x78, 0x56, 0x34, 0x12]).unwrap(), vec![0x1234_5678]);
    assert_eq!(
        cells_u32(&[1, 0, 0, 0, 2, 0, 0, 0]).unwrap(),
        vec![1, 2]
    );
    assert_eq!(cells_u32(&[]).unwrap(), Vec::<u32>::new());
    assert!(matches!(cells_u32(&[1, 2, 3]), Err(AdtError::BadValue)));
}

#[test]
fn cells_u64_decodes_little_endian() {
    assert_eq!(
        cells_u64(&[0x88, 0x77, 0x66, 0x55, 0x44, 0x33, 0x22, 0x11]).unwrap(),
        vec![0x1122_3344_5566_7788]
    );
    assert!(matches!(cells_u64(&[1, 2, 3, 4]), Err(AdtError::BadValue)));
}

#[test]
fn get_reg_at_root_uses_defaults() {
    // the root itself has no parent; the defaults apply to its own
    // register property
    let mut b = Vec::new();
    push_u32(&mut b, 2);
    push_u32(&mut b, 0);
    push_prop(&mut b, "name", b"device-tree\0");
    let mut reg = Vec::new();
    push_u32(&mut reg, 0xabcd);
    push_u32(&mut reg, 0);
    push_u32(&mut reg, 0x40);
    push_prop(&mut b, "reg", &reg);
    let t = ADT::new(b).unwrap();
    assert_eq!(t.get_reg("", "reg", 0).unwrap(), (0xabcd, 0x40));
}
