//! Mathematical model of the blob layout: validity predicates for offsets,
//! node headers and properties, and the walks that derive every boundary
//! from the in-blob counts and length fields.
//!
//! A node header is two little-endian `u32` fields, `property_count` and
//! `child_count`. A property is a 32-byte NUL-padded name, a little-endian
//! `u32` size field whose low 20 bits give the value length (the upper
//! bits are reserved and must be zero), and the value bytes padded to the
//! next 4-byte boundary. A node's properties follow its header, its
//! children follow the properties, each child subtree laid out in full
//! before the next sibling.

use vstd::prelude::*;
use vstd::string::StringSliceAdditionalSpecFns;

verus! {

/// Trusted upper bound on the size of a blob, supplied by the boot
/// environment and never derived from the blob itself.
pub const MAX_SIZE: usize = 0x0100_0000;

/// Error kinds surfaced by every traversal and accessor.
#[derive(Clone, Copy, Debug, PartialEq, Eq, Structural)]
pub enum AdtError {
    /// A name or path lookup was exhausted without a match.
    NotFound,
    /// An offset is unaligned or negative, or a referenced structure lies
    /// outside the blob bounds.
    BadOffset,
    /// A path string is malformed, e.g. holds an empty segment.
    BadPath,
    /// Register decode arithmetic exceeds the property bounds, or the
    /// cell-count combination is unsupported.
    BadNCells,
    /// A value fails a type-specific decode, e.g. a string read without a
    /// NUL terminator.
    BadValue,
    /// Reserved size bits are set, or a mutation value is too large.
    BadLength,
}

/// The little-endian 32-bit integer stored at byte offset `i`.
pub open spec fn u32_le(s: Seq<u8>, i: int) -> int {
    (s[i] as int) + 0x100 * (s[i + 1] as int) + 0x1_0000 * (s[i + 2] as int) + 0x100_0000 * (s[i
        + 3] as int)
}

/// The little-endian 64-bit integer stored at byte offset `i`.
pub open spec fn u64_le(s: Seq<u8>, i: int) -> int {
    u32_le(s, i) + 0x1_0000_0000 * u32_le(s, i + 4)
}

/// A usable offset: non-negative and 4-byte aligned.
pub open spec fn offset_ok(o: int) -> bool {
    0 <= o && o % 4 == 0
}

/// The `property_count` field of the node header at `o`.
pub open spec fn prop_count(s: Seq<u8>, o: int) -> int {
    u32_le(s, o)
}

/// The `child_count` field of the node header at `o`.
pub open spec fn child_count(s: Seq<u8>, o: int) -> int {
    u32_le(s, o + 4)
}

/// A sane node header: it fits in the blob, carries at least one property
/// (every real node has at least a `name` property; zero is corruption)
/// and at most 2048, and at most 2048 children.
pub open spec fn node_ok(s: Seq<u8>, o: int) -> bool {
    &&& 0 <= o
    &&& o + 8 <= s.len()
    &&& 1 <= prop_count(s, o) <= 2048
    &&& child_count(s, o) <= 2048
}

/// The raw `size` field of the property at `o`.
pub open spec fn prop_size_field(s: Seq<u8>, o: int) -> int {
    u32_le(s, o + 32)
}

/// The value length declared by the property at `o`: the low 20 bits of
/// the size field.
pub open spec fn prop_len(s: Seq<u8>, o: int) -> int {
    prop_size_field(s, o) % 0x10_0000
}

/// A sane property at `o`: the 36-byte header fits, the reserved size
/// bits (20 and up) are clear, and the value fits in the blob.
pub open spec fn prop_ok(s: Seq<u8>, o: int) -> bool {
    &&& 0 <= o
    &&& o + 36 <= s.len()
    &&& prop_size_field(s, o) < 0x10_0000
    &&& o + 36 + prop_size_field(s, o) <= s.len()
}

/// `n` rounded up to the next multiple of 4.
pub open spec fn align4(n: int) -> int {
    ((n + 3) / 4) * 4
}

/// The offset just past the property at `o`: header, value, padding.
pub open spec fn next_prop_off(s: Seq<u8>, o: int) -> int {
    o + 36 + align4(prop_len(s, o))
}

/// The 32-byte name field of the property at `o`.
pub open spec fn prop_name_field(s: Seq<u8>, o: int) -> Seq<u8> {
    s.subrange(o, o + 32)
}

/// The value bytes of the property at `o`.
pub open spec fn prop_value(s: Seq<u8>, o: int) -> Seq<u8> {
    s.subrange(o + 36, o + 36 + prop_len(s, o))
}

/// The first index `>= i` holding byte `b`, or `s.len()` if there is none
/// (or `i` is out of range).
pub open spec fn find_byte_from(s: Seq<u8>, b: u8, i: int) -> int
    decreases s.len() - i,
{
    if i < 0 || i >= s.len() {
        s.len() as int
    } else if s[i] == b {
        i
    } else {
        find_byte_from(s, b, i + 1)
    }
}

/// The bytes of `field` up to (excluding) the first NUL, or all of them
/// if no NUL occurs.
pub open spec fn cstr_of(field: Seq<u8>) -> Seq<u8> {
    field.take(find_byte_from(field, 0, 0))
}

/// Whether the NUL-terminated name field of the property at `o` reads
/// exactly `q`.
pub open spec fn name_matches(s: Seq<u8>, o: int, q: Seq<u8>) -> bool {
    cstr_of(prop_name_field(s, o)) == q
}

/// The error the property check reports at `o`, if any: `BadOffset` for a
/// header or value out of bounds, `BadLength` for reserved size bits set.
pub open spec fn prop_check(s: Seq<u8>, o: int) -> Option<AdtError> {
    if !(0 <= o && o + 36 <= s.len()) {
        Some(AdtError::BadOffset)
    } else if prop_size_field(s, o) >= 0x10_0000 {
        Some(AdtError::BadLength)
    } else if o + 36 + prop_size_field(s, o) > s.len() {
        Some(AdtError::BadOffset)
    } else {
        None
    }
}

/// The property check together with the offset check that every
/// dereference performs first.
pub open spec fn prop_step_check(s: Seq<u8>, o: int) -> Option<AdtError> {
    if !offset_ok(o) {
        Some(AdtError::BadOffset)
    } else {
        prop_check(s, o)
    }
}

/// The error the node check reports at `o`, if any. Every structural
/// violation of a node is a `BadOffset`.
pub open spec fn node_check(s: Seq<u8>, o: int) -> Option<AdtError> {
    if !offset_ok(o) || !node_ok(s, o) {
        Some(AdtError::BadOffset)
    } else {
        None
    }
}

/// Walks `n` consecutive properties starting at `o` and returns the
/// offset just past the last one, or the first validation error.
pub open spec fn walk_props(s: Seq<u8>, o: int, n: nat) -> Result<int, AdtError>
    decreases n,
{
    if n == 0 {
        Ok(o)
    } else {
        match prop_step_check(s, o) {
            Some(e) => Err(e),
            None => walk_props(s, next_prop_off(s, o), (n - 1) as nat),
        }
    }
}

/// Walks `n` consecutive sibling subtrees starting at the node offset
/// `o` and returns the offset just past the last one. `fuel` bounds the
/// nesting depth of the recursion; `tree_fuel` always suffices, since a
/// child sits at least 44 bytes after its parent.
pub open spec fn walk_children(s: Seq<u8>, o: int, n: nat, fuel: nat) -> Result<int, AdtError>
    decreases fuel, n,
{
    if n == 0 {
        Ok(o)
    } else if fuel == 0 {
        Err(AdtError::BadOffset)
    } else {
        match node_check(s, o) {
            Some(e) => Err(e),
            None => match walk_props(s, o + 8, prop_count(s, o) as nat) {
                Err(e) => Err(e),
                Ok(c0) => match walk_children(s, c0, child_count(s, o) as nat, (fuel - 1) as nat) {
                    Err(e) => Err(e),
                    Ok(e0) => walk_children(s, e0, (n - 1) as nat, fuel),
                },
            },
        }
    }
}

/// Fuel that covers any tree the blob can hold.
pub open spec fn tree_fuel(s: Seq<u8>) -> nat {
    s.len() + 1
}

/// The offset just past the subtree of the node at `o`, which is where
/// its next sibling would start.
pub open spec fn sibling(s: Seq<u8>, o: int) -> Result<int, AdtError> {
    walk_children(s, o, 1, tree_fuel(s))
}

/// The offset just past `n` consecutive sibling subtrees starting at `o`.
pub open spec fn skip_children(s: Seq<u8>, o: int, n: nat) -> Result<int, AdtError> {
    walk_children(s, o, n, tree_fuel(s))
}

/// Scans `n` properties from `o` for one whose name reads `q`:
/// `Ok(Some(p))` is the offset of the first match, `Ok(None)` means the
/// count was exhausted, `Err` a validation failure before any match.
pub open spec fn find_prop(s: Seq<u8>, o: int, n: nat, q: Seq<u8>) -> Result<
    Option<int>,
    AdtError,
>
    decreases n,
{
    if n == 0 {
        Ok(None)
    } else {
        match prop_step_check(s, o) {
            Some(e) => Err(e),
            None => if name_matches(s, o, q) {
                Ok(Some(o))
            } else {
                find_prop(s, next_prop_off(s, o), (n - 1) as nat, q)
            },
        }
    }
}

/// Looks the property named `q` up on the node at `node`: the node check,
/// then a scan bounded by its declared property count.
pub open spec fn node_find_prop(s: Seq<u8>, node: int, q: Seq<u8>) -> Result<
    Option<int>,
    AdtError,
> {
    match node_check(s, node) {
        Some(e) => Err(e),
        None => find_prop(s, node + 8, prop_count(s, node) as nat, q),
    }
}

/// The byte query for the implicit `name` property of a node.
pub open spec fn name_prop_query() -> Seq<u8> {
    "name".spec_bytes()
}

/// Whether the node at `node` carries a `name` property whose
/// NUL-terminated value reads `q`.
pub open spec fn node_named(s: Seq<u8>, node: int, q: Seq<u8>) -> bool {
    match node_find_prop(s, node, name_prop_query()) {
        Ok(Some(po)) => cstr_of(prop_value(s, po)) == q,
        _ => false,
    }
}

/// Scans `n` sibling nodes starting at `c` for one named `q`. The scan is
/// count-bounded: the subtree of the last candidate is never walked, so a
/// corrupt region after the last child cannot fail a lookup that
/// exhausts the count.
pub open spec fn find_child_from(s: Seq<u8>, c: int, n: nat, q: Seq<u8>) -> Result<
    Option<int>,
    AdtError,
>
    decreases n,
{
    if n == 0 {
        Ok(None)
    } else {
        match node_find_prop(s, c, name_prop_query()) {
            Err(e) => Err(e),
            Ok(po_opt) => if po_opt matches Some(po) && cstr_of(prop_value(s, po)) == q {
                Ok(Some(c))
            } else if n == 1 {
                Ok(None)
            } else {
                match sibling(s, c) {
                    Err(e) => Err(e),
                    Ok(nx) => find_child_from(s, nx, (n - 1) as nat, q),
                }
            },
        }
    }
}

/// Resolves the child named `q` under the node at `parent`.
pub open spec fn subnode(s: Seq<u8>, parent: int, q: Seq<u8>) -> Result<Option<int>, AdtError> {
    match node_check(s, parent) {
        Some(e) => Err(e),
        None => match walk_props(s, parent + 8, prop_count(s, parent) as nat) {
            Err(e) => Err(e),
            Ok(c0) => find_child_from(s, c0, child_count(s, parent) as nat, q),
        },
    }
}

/// Splits `p` on `/` (byte 47) into segments, from index `i` on.
pub open spec fn split_from(p: Seq<u8>, i: int) -> Seq<Seq<u8>>
    decreases p.len() - i,
{
    if i < 0 || i > p.len() {
        seq![]
    } else {
        let k = find_byte_from(p, 47u8, i);
        if i <= k && k < p.len() {
            seq![p.subrange(i, k)] + split_from(p, k + 1)
        } else {
            seq![p.subrange(i, p.len() as int)]
        }
    }
}

/// The segments of a path: split on `/`, with a single leading empty
/// segment (an absolute path) dropped.
pub open spec fn path_segments(p: Seq<u8>) -> Seq<Seq<u8>> {
    let raw = split_from(p, 0);
    if raw.len() > 0 && raw[0].len() == 0 {
        raw.subrange(1, raw.len() as int)
    } else {
        raw
    }
}

/// A well-formed segment list holds no empty segment.
pub open spec fn segments_wf(segs: Seq<Seq<u8>>) -> bool {
    forall|i: int| 0 <= i < segs.len() ==> #[trigger] segs[i].len() > 0
}

/// Resolves the segments from index `i` on, starting at node `cur`.
pub open spec fn resolve_from(s: Seq<u8>, segs: Seq<Seq<u8>>, i: int, cur: int) -> Result<
    int,
    AdtError,
>
    decreases segs.len() - i,
{
    if i < 0 || i >= segs.len() {
        Ok(cur)
    } else {
        match subnode(s, cur, segs[i]) {
            Err(e) => Err(e),
            Ok(None) => Err(AdtError::NotFound),
            Ok(Some(c)) => resolve_from(s, segs, i + 1, c),
        }
    }
}

/// The node offset a path resolves to: segments are resolved in turn from
/// the root at offset 0; an empty segment list resolves to the root.
pub open spec fn path_lookup(s: Seq<u8>, p: Seq<u8>) -> Result<int, AdtError> {
    let segs = path_segments(p);
    if !segments_wf(segs) {
        Err(AdtError::BadPath)
    } else {
        resolve_from(s, segs, 0, 0)
    }
}

/// Whether `q` occurs in `v` as one full NUL-terminated entry of a
/// NUL-separated list, scanning from index `i`. An unterminated trailing
/// fragment is not an entry.
pub open spec fn has_entry_from(v: Seq<u8>, q: Seq<u8>, i: int) -> bool
    decreases v.len() - i,
{
    if i < 0 || i >= v.len() {
        false
    } else {
        let k = find_byte_from(v, 0, i);
        if i <= k && k < v.len() {
            v.subrange(i, k) == q || has_entry_from(v, q, k + 1)
        } else {
            false
        }
    }
}

/// Whether `q` is one of the NUL-terminated entries of `v`.
pub open spec fn has_entry(v: Seq<u8>, q: Seq<u8>) -> bool {
    has_entry_from(v, q, 0)
}

/// `n` consecutive little-endian 32-bit cells starting at byte offset
/// `off`, combined least-significant cell first. Only 1 or 2 cells are
/// meaningful; anything else reads as 0.
pub open spec fn cells_le(s: Seq<u8>, off: int, n: int) -> int {
    if n == 1 {
        u32_le(s, off)
    } else if n == 2 {
        u64_le(s, off)
    } else {
        0
    }
}

/// The byte query for the `compatible` property of a node.
pub open spec fn compatible_query() -> Seq<u8> {
    "compatible".spec_bytes()
}

/// The byte query for the `#address-cells` property of a node.
pub open spec fn addr_cells_query() -> Seq<u8> {
    "#address-cells".spec_bytes()
}

/// The byte query for the `#size-cells` property of a node.
pub open spec fn size_cells_query() -> Seq<u8> {
    "#size-cells".spec_bytes()
}

/// Number of address cells assumed when a parent declares none.
pub open spec fn default_addr_cells() -> int {
    2
}

/// Number of size cells assumed when a parent declares none.
pub open spec fn default_size_cells() -> int {
    1
}

/// The cell count a parent node declares under the property named `q`:
/// the default when the property is absent, its 32-bit value when it is
/// a 4-byte cell, `BadNCells` when it has any other size.
pub open spec fn cells_setting(s: Seq<u8>, parent: int, q: Seq<u8>, default: int) -> Result<
    int,
    AdtError,
> {
    match node_find_prop(s, parent, q) {
        Err(e) => Err(e),
        Ok(None) => Ok(default),
        Ok(Some(po)) => if prop_len(s, po) == 4 {
            Ok(u32_le(s, po + 36))
        } else {
            Err(AdtError::BadNCells)
        },
    }
}

/// Decodes the `index`-th address/size tuple of the register property
/// named `pname` on the node at `node`, with `ac` address cells and `sc`
/// size cells per tuple. Only 1 or 2 cells per field are supported; the
/// tuple must lie inside the property value.
pub open spec fn reg_decode(
    s: Seq<u8>,
    node: int,
    ac: int,
    sc: int,
    pname: Seq<u8>,
    index: int,
) -> Result<(int, int), AdtError> {
    if !(1 <= ac <= 2 && 1 <= sc <= 2) {
        Err(AdtError::BadNCells)
    } else {
        match lift_found(node_find_prop(s, node, pname)) {
            Err(e) => Err(e),
            Ok(po) => {
                let step = (ac + sc) * 4;
                if index < 0 || index * step + step > prop_len(s, po) {
                    Err(AdtError::BadNCells)
                } else {
                    Ok(
                        (
                            cells_le(s, po + 36 + index * step, ac),
                            cells_le(s, po + 36 + index * step + ac * 4, sc),
                        ),
                    )
                }
            },
        }
    }
}

/// The full register lookup: resolve the path, read the cell counts
/// from the parent of the resolved node (the defaults at the root, which
/// has no parent), and decode the `index`-th tuple.
pub open spec fn reg_lookup(s: Seq<u8>, p: Seq<u8>, pname: Seq<u8>, index: int) -> Result<
    (int, int),
    AdtError,
> {
    let segs = path_segments(p);
    if !segments_wf(segs) {
        Err(AdtError::BadPath)
    } else if segs.len() == 0 {
        reg_decode(s, 0, default_addr_cells(), default_size_cells(), pname, index)
    } else {
        match resolve_from(s, segs.take(segs.len() - 1), 0, 0) {
            Err(e) => Err(e),
            Ok(parent) => match lift_found(subnode(s, parent, segs[segs.len() - 1])) {
                Err(e) => Err(e),
                Ok(node) => match cells_setting(s, parent, addr_cells_query(), default_addr_cells()) {
                    Err(e) => Err(e),
                    Ok(ac) => match cells_setting(
                        s,
                        parent,
                        size_cells_query(),
                        default_size_cells(),
                    ) {
                        Err(e) => Err(e),
                        Ok(sc) => reg_decode(s, node, ac, sc, pname, index),
                    },
                },
            },
        }
    }
}

/// Maps a `Result` over an optional offset to the caller-facing form:
/// a missing item becomes `NotFound`.
pub open spec fn lift_found(w: Result<Option<int>, AdtError>) -> Result<int, AdtError> {
    match w {
        Ok(Some(c)) => Ok(c),
        Ok(None) => Err(AdtError::NotFound),
        Err(e) => Err(e),
    }
}

/// Whether the executable result `r` agrees with the model result `w`.
pub open spec fn res_agrees(r: Result<i32, AdtError>, w: Result<int, AdtError>) -> bool {
    match r {
        Ok(v) => w == Ok::<int, AdtError>(v as int),
        Err(e) => w == Err::<int, AdtError>(e),
    }
}

} // verus!
