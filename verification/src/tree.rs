//! The blob handle and the verified walker: validators, offset
//! navigation, node and property accessors, name and path resolution,
//! and in-place property mutation.

use vstd::prelude::*;
use vstd::slice::slice_subrange;
use vstd::slice::slice_to_vec;
use vstd::string::StringSliceAdditionalSpecFns;

use crate::lemmas::lemma_children_at_full_fuel;
use crate::lemmas::lemma_find_byte_from;
use crate::lemmas::lemma_skip_children_step;
use crate::lemmas::lemma_walk_children_bounds;
use crate::lemmas::lemma_walk_props_bounds;
use crate::model::child_count;
use crate::model::cstr_of;
use crate::model::find_byte_from;
use crate::model::find_child_from;
use crate::model::find_prop;
use crate::model::lift_found;
use crate::model::name_prop_query;
use crate::model::next_prop_off;
use crate::model::node_check;
use crate::model::node_find_prop;
use crate::model::node_ok;
use crate::model::offset_ok;
use crate::model::path_lookup;
use crate::model::path_segments;
use crate::model::prop_check;
use crate::model::prop_count;
use crate::model::prop_len;
use crate::model::prop_name_field;
use crate::model::prop_step_check;
use crate::model::prop_value;
use crate::model::res_agrees;
use crate::model::resolve_from;
use crate::model::segments_wf;
use crate::model::sibling;
use crate::model::skip_children;
use crate::model::split_from;
use crate::model::subnode;
use crate::model::tree_fuel;
use crate::model::u32_le;
use crate::model::walk_props;
use crate::model::AdtError;
use crate::model::MAX_SIZE;

verus! {

/// A read view of a node header: its two count fields, copied out of the
/// blob after validation.
#[derive(Clone, Copy, Debug, PartialEq, Eq, Structural)]
pub struct ADTNodeHeader {
    pub property_count: u32,
    pub child_count: u32,
}

/// A read view of a property: the 32-byte NUL-padded name field, the
/// decoded value length, and the value bytes, copied out of the blob
/// after validation.
#[derive(Debug, PartialEq, Eq)]
pub struct ADTProperty {
    pub name: Vec<u8>,
    pub size: u32,
    pub value: Vec<u8>,
}

/// One record of a DART segment-ranges property: physical base, device
/// virtual base, remap base, size and one reserved word.
#[derive(Clone, Copy, Debug, PartialEq, Eq, Structural)]
pub struct ADTSegmentRanges {
    pub phys: u64,
    pub iova: u64,
    pub remap: u64,
    pub size: u32,
    pub unk: u32,
}

/// The little-endian 32-bit integer at byte offset `i` of `v`.
pub(crate) fn u32_at(v: &[u8], i: usize) -> (r: u32)
    requires
        i + 4 <= v@.len(),
    ensures
        r as int == u32_le(v@, i as int),
{
    (v[i] as u32) + (v[i + 1] as u32) * 0x100 + (v[i + 2] as u32) * 0x1_0000 + (v[i + 3] as u32)
        * 0x100_0000
}

/// A copy of `v[a..b]`.
pub(crate) fn copy_slice(v: &[u8], a: usize, b: usize) -> (r: Vec<u8>)
    requires
        a <= b <= v@.len(),
    ensures
        r@ == v@.subrange(a as int, b as int),
{
    slice_to_vec(slice_subrange(v, a, b))
}

/// The first index at or after `from` holding byte `b`, or the length.
pub(crate) fn find_byte(v: &[u8], b: u8, from: usize) -> (r: usize)
    requires
        from <= v@.len(),
    ensures
        r as int == find_byte_from(v@, b, from as int),
{
    let mut k = from;
    while k < v.len() && v[k] != b
        invariant
            from <= k <= v@.len(),
            forall|j: int| from <= j < k ==> v@[j] != b,
        decreases v@.len() - k,
    {
        k = k + 1;
    }
    proof {
        lemma_find_byte_from(v@, b, from as int);
    }
    k
}

/// Whether `v[a..b]` equals `q`.
pub(crate) fn range_matches(v: &[u8], a: usize, b: usize, q: &[u8]) -> (r: bool)
    requires
        a <= b <= v@.len(),
    ensures
        r == (v@.subrange(a as int, b as int) == q@),
{
    if b - a != q.len() {
        return false;
    }
    let mut j: usize = 0;
    while j < q.len()
        invariant
            a + q.len() == b <= v@.len(),
            j <= q.len(),
            forall|jj: int| 0 <= jj < j ==> v@[a + jj] == q@[jj],
        decreases q@.len() - j,
    {
        if v[a + j] != q[j] {
            assert(v@.subrange(a as int, b as int)[j as int] != q@[j as int]);
            return false;
        }
        j = j + 1;
    }
    proof {
        assert(v@.subrange(a as int, b as int) =~= q@);
    }
    true
}

/// Whether the bytes of `v` up to the first NUL equal `q`.
pub(crate) fn cstr_matches(v: &[u8], q: &[u8]) -> (r: bool)
    ensures
        r == (cstr_of(v@) == q@),
{
    let k = find_byte(v, 0, 0);
    proof {
        lemma_find_byte_from(v@, 0, 0);
        assert(cstr_of(v@) =~= v@.subrange(0, find_byte_from(v@, 0, 0)));
    }
    range_matches(v, 0, k, q)
}

/// The device tree: an exclusively owned blob of at most `MAX_SIZE`
/// bytes. All offsets handed to the methods are byte offsets from the
/// start of the blob; the root node sits at offset 0.
pub struct ADT {
    data: Vec<u8>,
}

impl View for ADT {
    type V = Seq<u8>;

    closed spec fn view(&self) -> Seq<u8> {
        self.data@
    }
}

impl ADT {
    /// The blob fits under the trusted bound; every method requires it
    /// and `new` establishes it.
    pub open spec fn wf(&self) -> bool {
        self@.len() <= MAX_SIZE
    }

    /// Wraps a blob. The caller supplies the byte region and thereby the
    /// trusted size bound; a larger region is refused.
    pub fn new(data: Vec<u8>) -> (r: Result<ADT, AdtError>)
        ensures
            r is Ok <==> data@.len() <= MAX_SIZE,
            r matches Ok(t) ==> t@ == data@ && t.wf(),
            r is Err ==> r->Err_0 == AdtError::BadLength,
    {
        if data.len() <= MAX_SIZE {
            Ok(ADT { data })
        } else {
            Err(AdtError::BadLength)
        }
    }

    /// The raw bytes of the blob, for the crate's own decoders.
    pub(crate) fn bytes(&self) -> (r: &[u8])
        ensures
            r@ == self@,
    {
        self.data.as_slice()
    }

    /// The blob length in bytes.
    pub fn blob_len(&self) -> (r: usize)
        ensures
            r == self@.len(),
    {
        self.data.len()
    }

    /// Accepts exactly the offsets that can address a structure: the
    /// non-negative multiples of 4.
    pub fn check_offset(offset: i32) -> (r: Result<(), AdtError>)
        ensures
            r is Ok <==> offset_ok(offset as int),
            r is Err ==> r->Err_0 == AdtError::BadOffset,
    {
        if offset < 0 {
            Err(AdtError::BadOffset)
        } else if offset % 4 != 0 {
            Err(AdtError::BadOffset)
        } else {
            Ok(())
        }
    }

    /// Accepts exactly the offsets whose 8-byte node header fits in the
    /// blob and carries sane counts: 1 to 2048 properties, at most 2048
    /// children.
    pub fn check_node(&self, offset: i32) -> (r: Result<(), AdtError>)
        ensures
            r is Ok <==> node_ok(self@, offset as int),
            r is Err ==> r->Err_0 == AdtError::BadOffset,
    {
        if offset < 0 {
            return Err(AdtError::BadOffset);
        }
        let o = offset as usize;
        if o + 8 > self.data.len() {
            return Err(AdtError::BadOffset);
        }
        let pc = u32_at(self.data.as_slice(), o);
        let cc = u32_at(self.data.as_slice(), o + 4);
        if pc == 0 || pc > 2048 || cc > 2048 {
            return Err(AdtError::BadOffset);
        }
        Ok(())
    }

    /// Accepts exactly the offsets whose property header fits in the
    /// blob, whose reserved size bits are clear, and whose declared
    /// value fits in the blob.
    pub fn check_property(&self, offset: i32) -> (r: Result<(), AdtError>)
        ensures
            r is Ok <==> prop_check(self@, offset as int) is None,
            r is Err ==> prop_check(self@, offset as int) == Some(r->Err_0),
    {
        if offset < 0 {
            return Err(AdtError::BadOffset);
        }
        let o = offset as usize;
        if o + 36 > self.data.len() {
            return Err(AdtError::BadOffset);
        }
        let sz = u32_at(self.data.as_slice(), o + 32);
        if sz >= 0x10_0000 {
            return Err(AdtError::BadLength);
        }
        if (sz as usize) > self.data.len() - (o + 36) {
            return Err(AdtError::BadOffset);
        }
        Ok(())
    }

    /// Validates the offset and the node there, and returns a copy of
    /// its header.
    pub fn node_at(&self, offset: i32) -> (r: Result<ADTNodeHeader, AdtError>)
        ensures
            match node_check(self@, offset as int) {
                Some(e) => r == Err::<ADTNodeHeader, AdtError>(e),
                None => r matches Ok(h) && h.property_count as int == prop_count(
                    self@,
                    offset as int,
                ) && h.child_count as int == child_count(self@, offset as int),
            },
    {
        match Self::check_offset(offset) {
            Err(e) => {
                return Err(e);
            },
            Ok(()) => {},
        }
        match self.check_node(offset) {
            Err(e) => {
                return Err(e);
            },
            Ok(()) => {},
        }
        let o = offset as usize;
        Ok(
            ADTNodeHeader {
                property_count: u32_at(self.data.as_slice(), o),
                child_count: u32_at(self.data.as_slice(), o + 4),
            },
        )
    }

    /// The `property_count` field of the validated node at `offset`.
    pub fn get_property_count(&self, offset: i32) -> (r: Result<u32, AdtError>)
        ensures
            match node_check(self@, offset as int) {
                Some(e) => r == Err::<u32, AdtError>(e),
                None => r matches Ok(c) && c as int == prop_count(self@, offset as int),
            },
    {
        match self.node_at(offset) {
            Err(e) => Err(e),
            Ok(h) => Ok(h.property_count),
        }
    }

    /// The `child_count` field of the validated node at `offset`.
    pub fn get_child_count(&self, offset: i32) -> (r: Result<u32, AdtError>)
        ensures
            match node_check(self@, offset as int) {
                Some(e) => r == Err::<u32, AdtError>(e),
                None => r matches Ok(c) && c as int == child_count(self@, offset as int),
            },
    {
        match self.node_at(offset) {
            Err(e) => Err(e),
            Ok(h) => Ok(h.child_count),
        }
    }

    /// Validates the offset and the property there, and returns a copy
    /// of its name field, decoded value length, and value bytes.
    pub fn property_at(&self, offset: i32) -> (r: Result<ADTProperty, AdtError>)
        requires
            self.wf(),
        ensures
            match prop_step_check(self@, offset as int) {
                Some(e) => r == Err::<ADTProperty, AdtError>(e),
                None => r matches Ok(p) && p.name@ == prop_name_field(self@, offset as int)
                    && p.size as int == prop_len(self@, offset as int) && p.value@ == prop_value(
                    self@,
                    offset as int,
                ),
            },
    {
        match Self::check_offset(offset) {
            Err(e) => {
                return Err(e);
            },
            Ok(()) => {},
        }
        match self.check_property(offset) {
            Err(e) => {
                return Err(e);
            },
            Ok(()) => {},
        }
        let o = offset as usize;
        let sz = u32_at(self.data.as_slice(), o + 32);
        Ok(
            ADTProperty {
                name: copy_slice(self.data.as_slice(), o, o + 32),
                size: sz,
                value: copy_slice(self.data.as_slice(), o + 36, o + 36 + sz as usize),
            },
        )
    }

    /// The raw value bytes of the validated property at `offset`; the
    /// length is exactly the decoded size field.
    pub fn value_at(&self, offset: i32) -> (r: Result<Vec<u8>, AdtError>)
        requires
            self.wf(),
        ensures
            match prop_step_check(self@, offset as int) {
                Some(e) => r == Err::<Vec<u8>, AdtError>(e),
                None => r matches Ok(v) && v@ == prop_value(self@, offset as int),
            },
    {
        match self.property_at(offset) {
            Err(e) => Err(e),
            Ok(p) => Ok(p.value),
        }
    }

    /// Where the first property of the node at `offset` starts: just
    /// past the 8-byte header. Pure arithmetic; the caller must validate
    /// the result before dereferencing it.
    pub fn first_property_offset(offset: i32) -> (r: i32)
        requires
            offset + 8 <= i32::MAX,
        ensures
            r as int == offset + 8,
    {
        offset + 8
    }

    /// Where the property after the validated one at `offset` starts:
    /// past its header, value, and alignment padding.
    pub fn next_property_offset(&self, offset: i32) -> (r: Result<i32, AdtError>)
        requires
            self.wf(),
        ensures
            res_agrees(
                r,
                match prop_step_check(self@, offset as int) {
                    Some(e) => Err(e),
                    None => Ok(next_prop_off(self@, offset as int)),
                },
            ),
    {
        match Self::check_offset(offset) {
            Err(e) => {
                return Err(e);
            },
            Ok(()) => {},
        }
        match self.check_property(offset) {
            Err(e) => {
                return Err(e);
            },
            Ok(()) => {},
        }
        let o = offset as usize;
        let sz = u32_at(self.data.as_slice(), o + 32) as usize;
        let next = o + 36 + (sz + 3) / 4 * 4;
        Ok(next as i32)
    }

    /// Where the first child of the node at `offset` starts: just past
    /// its declared number of properties, each validated on the way.
    pub fn first_child_offset(&self, offset: i32) -> (r: Result<i32, AdtError>)
        requires
            self.wf(),
        ensures
            res_agrees(
                r,
                match node_check(self@, offset as int) {
                    Some(e) => Err(e),
                    None => walk_props(self@, offset as int + 8, prop_count(self@, offset as int) as nat),
                },
            ),
    {
        let hdr = match self.node_at(offset) {
            Err(e) => {
                return Err(e);
            },
            Ok(h) => h,
        };
        let pc = hdr.property_count;
        let mut cur: i32 = offset + 8;
        let mut i: u32 = 0;
        while i < pc
            invariant
                self.wf(),
                i <= pc,
                node_check(self@, offset as int) is None,
                pc as int == prop_count(self@, offset as int),
                walk_props(self@, offset as int + 8, pc as nat) == walk_props(
                    self@,
                    cur as int,
                    (pc - i) as nat,
                ),
            decreases pc - i,
        {
            cur = match self.next_property_offset(cur) {
                Err(e) => {
                    return Err(e);
                },
                Ok(v) => v,
            };
            i = i + 1;
        }
        Ok(cur)
    }

    /// Where the next sibling of the node at `offset` would start: past
    /// its properties and all of its children's subtrees, every step
    /// validated. The work is proportional to the size of the subtree
    /// skipped.
    pub fn next_sibling_offset(&self, offset: i32) -> (r: Result<i32, AdtError>)
        requires
            self.wf(),
        ensures
            res_agrees(r, sibling(self@, offset as int)),
        decreases self@.len() + 4 - offset,
    {
        let hdr = match self.node_at(offset) {
            Err(e) => {
                return Err(e);
            },
            Ok(h) => h,
        };
        let cc = hdr.child_count;
        let c0 = match self.first_child_offset(offset) {
            Err(e) => {
                return Err(e);
            },
            Ok(v) => v,
        };
        proof {
            lemma_walk_props_bounds(
                self@,
                offset as int + 8,
                prop_count(self@, offset as int) as nat,
            );
            lemma_children_at_full_fuel(self@, c0 as int, cc as nat);
            let wc = skip_children(self@, c0 as int, cc as nat);
            if wc is Ok {
                assert(crate::model::walk_children(self@, wc->Ok_0, 0, tree_fuel(self@))
                    == Ok::<int, AdtError>(wc->Ok_0));
            }
        }
        let mut cur: i32 = c0;
        let mut i: u32 = 0;
        while i < cc
            invariant
                self.wf(),
                i <= cc,
                offset < cur,
                cur as int <= self@.len() + 3,
                sibling(self@, offset as int) == skip_children(
                    self@,
                    cur as int,
                    (cc - i) as nat,
                ),
            decreases cc - i,
        {
            proof {
                lemma_skip_children_step(self@, cur as int, (cc - i) as nat);
            }
            let nx = match self.next_sibling_offset(cur) {
                Err(e) => {
                    return Err(e);
                },
                Ok(v) => v,
            };
            proof {
                lemma_walk_children_bounds(self@, cur as int, 1, tree_fuel(self@));
            }
            cur = nx;
            i = i + 1;
        }
        Ok(cur)
    }

    /// Scans the declared properties of the node at `nodeoffset` for one
    /// whose name field reads `q`, and returns its offset.
    pub(crate) fn prop_offset_by_name(&self, nodeoffset: i32, q: &[u8]) -> (r: Result<i32, AdtError>)
        requires
            self.wf(),
        ensures
            res_agrees(r, lift_found(node_find_prop(self@, nodeoffset as int, q@))),
            r matches Ok(po) ==> prop_step_check(self@, po as int) is None,
    {
        let hdr = match self.node_at(nodeoffset) {
            Err(e) => {
                return Err(e);
            },
            Ok(h) => h,
        };
        let pc = hdr.property_count;
        let mut cur: i32 = nodeoffset + 8;
        let mut i: u32 = 0;
        while i < pc
            invariant
                self.wf(),
                i <= pc,
                node_check(self@, nodeoffset as int) is None,
                pc as int == prop_count(self@, nodeoffset as int),
                find_prop(self@, nodeoffset as int + 8, pc as nat, q@) == find_prop(
                    self@,
                    cur as int,
                    (pc - i) as nat,
                    q@,
                ),
            decreases pc - i,
        {
            match Self::check_offset(cur) {
                Err(e) => {
                    return Err(e);
                },
                Ok(()) => {},
            }
            match self.check_property(cur) {
                Err(e) => {
                    return Err(e);
                },
                Ok(()) => {},
            }
            let o = cur as usize;
            let field = slice_subrange(self.data.as_slice(), o, o + 32);
            if cstr_matches(field, q) {
                return Ok(cur);
            }
            let sz = u32_at(self.data.as_slice(), o + 32) as usize;
            let next = o + 36 + (sz + 3) / 4 * 4;
            cur = next as i32;
            i = i + 1;
        }
        Err(AdtError::NotFound)
    }

    /// Looks the property named `name` up on the node at `nodeoffset`:
    /// a linear scan of the declared property count, comparing the
    /// NUL-terminated name fields. The scan never runs past the count,
    /// even if further bytes would parse as properties.
    pub fn get_property_by_name(&self, nodeoffset: i32, name: &str) -> (r: Result<
        ADTProperty,
        AdtError,
    >)
        requires
            self.wf(),
        ensures
            ({
                let w = lift_found(node_find_prop(self@, nodeoffset as int, name.spec_bytes()));
                &&& (r is Ok <==> w is Ok)
                &&& (r matches Ok(p) ==> w matches Ok(po) && p.name@ == prop_name_field(self@, po)
                    && p.size as int == prop_len(self@, po) && p.value@ == prop_value(self@, po))
                &&& (r matches Err(e) ==> w == Err::<int, AdtError>(e))
            }),
    {
        let po = match self.prop_offset_by_name(nodeoffset, name.as_bytes()) {
            Err(e) => {
                return Err(e);
            },
            Ok(v) => v,
        };
        let o = po as usize;
        let sz = u32_at(self.data.as_slice(), o + 32);
        Ok(
            ADTProperty {
                name: copy_slice(self.data.as_slice(), o, o + 32),
                size: sz,
                value: copy_slice(self.data.as_slice(), o + 36, o + 36 + sz as usize),
            },
        )
    }

    /// Scans the declared children of the node at `parent_offset` for
    /// one whose `name` property value reads `q`.
    pub(crate) fn subnode_lookup(&self, parent_offset: i32, q: &[u8]) -> (r: Result<i32, AdtError>)
        requires
            self.wf(),
        ensures
            res_agrees(r, lift_found(subnode(self@, parent_offset as int, q@))),
    {
        let hdr = match self.node_at(parent_offset) {
            Err(e) => {
                return Err(e);
            },
            Ok(h) => h,
        };
        let cc = hdr.child_count;
        let c0 = match self.first_child_offset(parent_offset) {
            Err(e) => {
                return Err(e);
            },
            Ok(v) => v,
        };
        if cc == 0 {
            return Err(AdtError::NotFound);
        }
        proof {
            lemma_walk_props_bounds(
                self@,
                parent_offset as int + 8,
                prop_count(self@, parent_offset as int) as nat,
            );
        }
        let mut cur: i32 = c0;
        let mut i: u32 = 0;
        while i < cc
            invariant
                self.wf(),
                i <= cc,
                i < cc ==> 0 <= cur as int <= self@.len() + 3,
                subnode(self@, parent_offset as int, q@) == (if i < cc {
                    find_child_from(self@, cur as int, (cc - i) as nat, q@)
                } else {
                    Ok::<Option<int>, AdtError>(None)
                }),
            decreases cc - i,
        {
            proof {
                if node_check(self@, cur as int) is None {
                    crate::lemmas::lemma_find_prop_err(
                        self@,
                        cur as int + 8,
                        prop_count(self@, cur as int) as nat,
                        name_prop_query(),
                    );
                }
            }
            let mut matched = false;
            match self.prop_offset_by_name(cur, "name".as_bytes()) {
                Err(e) => {
                    if !(e == AdtError::NotFound) {
                        return Err(e);
                    }
                },
                Ok(po) => {
                    let o = po as usize;
                    let sz = u32_at(self.data.as_slice(), o + 32) as usize;
                    let val = slice_subrange(self.data.as_slice(), o + 36, o + 36 + sz);
                    if cstr_matches(val, q) {
                        matched = true;
                    }
                },
            }
            if matched {
                return Ok(cur);
            }
            i = i + 1;
            if i < cc {
                proof {
                    lemma_walk_children_bounds(self@, cur as int, 1, tree_fuel(self@));
                }
                cur = match self.next_sibling_offset(cur) {
                    Err(e) => {
                        return Err(e);
                    },
                    Ok(v) => v,
                };
            }
        }
        Err(AdtError::NotFound)
    }

    /// Resolves the child named `name` under the node at
    /// `parent_offset`, scanning exactly its declared child count.
    pub fn get_subnode_by_name(&self, parent_offset: i32, name: &str) -> (r: Result<i32, AdtError>)
        requires
            self.wf(),
        ensures
            res_agrees(
                r,
                lift_found(subnode(self@, parent_offset as int, name.spec_bytes())),
            ),
    {
        self.subnode_lookup(parent_offset, name.as_bytes())
    }

    /// Resolves a `/`-separated path from the root at offset 0. A single
    /// leading `/` is accepted; any other empty segment is a `BadPath`;
    /// a path with no segments resolves to the root.
    pub fn path_offset(&self, path: &str) -> (r: Result<i32, AdtError>)
        requires
            self.wf(),
        ensures
            res_agrees(r, path_lookup(self@, path.spec_bytes())),
    {
        let p = path.as_bytes();
        let parts = split_indices(p);
        let s0: usize = if parts.len() > 0 && parts[0].1 == parts[0].0 {
            1
        } else {
            0
        };
        let ghost segs = path_segments(p@);
        proof {
            assert(split_from(p@, 0).len() > 0);
            assert(segs =~= split_from(p@, 0).subrange(s0 as int, split_from(p@, 0).len() as int));
        }
        // refuse any empty segment
        let mut j = s0;
        while j < parts.len()
            invariant
                p@ == path.spec_bytes(),
                segs == path_segments(p@),
                s0 <= j <= parts@.len(),
                parts@.len() == split_from(p@, 0).len(),
                forall|t: int| 0 <= t < parts@.len() ==> 0 <= #[trigger] parts@[t].0 <= parts@[t].1
                    <= p@.len() && p@.subrange(parts@[t].0 as int, parts@[t].1 as int)
                    == split_from(p@, 0)[t],
                segs == split_from(p@, 0).subrange(s0 as int, split_from(p@, 0).len() as int),
                forall|t: int| s0 <= t < j ==> #[trigger] split_from(p@, 0)[t].len() > 0,
            decreases parts@.len() - j,
        {
            if parts[j].1 == parts[j].0 {
                proof {
                    assert(segs[j - s0].len() == 0);
                    assert(!segments_wf(segs));
                }
                return Err(AdtError::BadPath);
            }
            j = j + 1;
        }
        assert(segments_wf(segs)) by {
            assert forall|t: int| 0 <= t < segs.len() implies #[trigger] segs[t].len() > 0 by {
                assert(segs[t] == split_from(p@, 0)[t + s0]);
            }
        }
        // resolve the segments from the root
        let mut cur: i32 = 0;
        let mut j = s0;
        while j < parts.len()
            invariant
                self.wf(),
                p@ == path.spec_bytes(),
                segs == path_segments(p@),
                s0 <= j <= parts@.len(),
                parts@.len() == split_from(p@, 0).len(),
                forall|t: int| 0 <= t < parts@.len() ==> 0 <= #[trigger] parts@[t].0 <= parts@[t].1
                    <= p@.len() && p@.subrange(parts@[t].0 as int, parts@[t].1 as int)
                    == split_from(p@, 0)[t],
                segs == split_from(p@, 0).subrange(s0 as int, split_from(p@, 0).len() as int),
                segments_wf(segs),
                resolve_from(self@, segs, 0, 0) == resolve_from(self@, segs, j - s0, cur as int),
            decreases parts@.len() - j,
        {
            let a = parts[j].0;
            let b = parts[j].1;
            let seg = slice_subrange(p, a, b);
            assert(seg@ == segs[j - s0]);
            cur = match self.subnode_lookup(cur, seg) {
                Err(e) => {
                    return Err(e);
                },
                Ok(v) => v,
            };
            j = j + 1;
        }
        Ok(cur)
    }

    /// Replaces the value of the property named `name` on the node at
    /// `nodeoffset`, in place. The new value must not be larger than the
    /// existing decoded size; the size field and any bytes of the old
    /// value past the new length are left as they were. On any error the
    /// blob is unchanged.
    pub fn set_property(&mut self, nodeoffset: i32, name: &str, new_value: &[u8]) -> (r: Result<
        (),
        AdtError,
    >)
        requires
            old(self).wf(),
        ensures
            final(self).wf(),
            final(self)@.len() == old(self)@.len(),
            ({
                let w = lift_found(node_find_prop(old(self)@, nodeoffset as int, name.spec_bytes()));
                match w {
                    Err(e) => r == Err::<(), AdtError>(e) && final(self)@ == old(self)@,
                    Ok(po) => if new_value@.len() <= prop_len(old(self)@, po) {
                        r is Ok && forall|j: int| 0 <= j < old(self)@.len() ==> final(self)@[j]
                            == (if po + 36 <= j < po + 36 + new_value@.len() {
                            new_value@[j - (po + 36)]
                        } else {
                            old(self)@[j]
                        })
                    } else {
                        r == Err::<(), AdtError>(AdtError::BadLength) && final(self)@ == old(
                            self,
                        )@
                    },
                }
            }),
    {
        let po = match self.prop_offset_by_name(nodeoffset, name.as_bytes()) {
            Err(e) => {
                return Err(e);
            },
            Ok(v) => v,
        };
        let o = po as usize;
        let sz = u32_at(self.data.as_slice(), o + 32) as usize;
        if new_value.len() > sz {
            return Err(AdtError::BadLength);
        }
        let mut j: usize = 0;
        while j < new_value.len()
            invariant
                self.wf(),
                j <= new_value@.len(),
                o + 36 + new_value@.len() <= self@.len(),
                self@.len() == old(self)@.len(),
                forall|t: int| 0 <= t < j ==> self@[o + 36 + t] == new_value@[t],
                forall|t: int| 0 <= t < self@.len() && !(o + 36 <= t < o + 36 + j) ==> self@[t]
                    == old(self)@[t],
            decreases new_value@.len() - j,
        {
            self.data[o + 36 + j] = new_value[j];
            j = j + 1;
        }
        Ok(())
    }
}

/// Splits `p` on `/` (byte 47) and returns the start and end index of
/// each segment, matching the model's split.
pub(crate) fn split_indices(p: &[u8]) -> (r: Vec<(usize, usize)>)
    ensures
        r@.len() == split_from(p@, 0).len(),
        forall|t: int| 0 <= t < r@.len() ==> 0 <= #[trigger] r@[t].0 <= r@[t].1 <= p@.len()
            && p@.subrange(r@[t].0 as int, r@[t].1 as int) == split_from(p@, 0)[t],
{
    let ghost whole = split_from(p@, 0);
    let mut parts: Vec<(usize, usize)> = Vec::new();
    let mut start: usize = 0;
    let mut cont = true;
    while cont
        invariant
            start <= p@.len(),
            whole == split_from(p@, 0),
            forall|t: int| 0 <= t < parts@.len() ==> 0 <= #[trigger] parts@[t].0 <= parts@[t].1
                <= p@.len() && p@.subrange(parts@[t].0 as int, parts@[t].1 as int) == whole[t],
            whole.len() == parts@.len() + (if cont {
                split_from(p@, start as int).len()
            } else {
                0
            }),
            cont ==> whole.skip(parts@.len() as int) =~= split_from(p@, start as int),
        decreases (if cont {
            p@.len() + 2 - start
        } else {
            0
        }),
    {
        let ghost oldlen = parts@.len() as int;
        let ghost rest = split_from(p@, start as int);
        let k = find_byte(p, 47, start);
        proof {
            lemma_find_byte_from(p@, 47, start as int);
        }
        let seg_end = if k < p.len() {
            k
        } else {
            p.len()
        };
        proof {
            assert(rest[0] == p@.subrange(start as int, seg_end as int));
            assert(whole[oldlen] == whole.skip(oldlen)[0]);
        }
        parts.push((start, seg_end));
        if k < p.len() {
            start = k + 1;
            proof {
                let tail = split_from(p@, k + 1);
                assert(rest == seq![p@.subrange(parts@[oldlen].0 as int, k as int)] + tail);
                assert(whole.skip(oldlen + 1) =~= tail) by {
                    assert forall|t: int| 0 <= t < whole.len() - (oldlen + 1) implies whole.skip(
                        oldlen + 1,
                    )[t] == tail[t] by {
                        assert(whole.skip(oldlen + 1)[t] == whole[t + oldlen + 1]);
                        assert(whole[t + oldlen + 1] == whole.skip(oldlen)[t + 1]);
                        assert(whole.skip(oldlen)[t + 1] == rest[t + 1]);
                        assert(rest[t + 1] == tail[t]);
                    }
                }
            }
        } else {
            cont = false;
            proof {
                assert(rest.len() == 1);
            }
        }
    }
    parts
}

} // verus!
