//! Typed readers over validated property values: NUL-terminated
//! strings, 32- and 64-bit cell arrays, the `compatible` string-list
//! matcher, and the address/size register decoder with inherited cell
//! counts.

use vstd::prelude::*;
use vstd::slice::slice_subrange;
use vstd::string::StringSliceAdditionalSpecFns;

use crate::lemmas::lemma_find_byte_from;
use crate::lemmas::lemma_find_prop_err;
use crate::model::cells_setting;
use crate::model::compatible_query;
use crate::model::cstr_of;
use crate::model::find_byte_from;
use crate::model::has_entry;
use crate::model::has_entry_from;
use crate::model::lift_found;
use crate::model::node_check;
use crate::model::node_find_prop;
use crate::model::path_segments;
use crate::model::prop_count;
use crate::model::prop_value;
use crate::model::reg_decode;
use crate::model::reg_lookup;
use crate::model::resolve_from;
use crate::model::segments_wf;
use crate::model::split_from;
use crate::model::u32_le;
use crate::model::u64_le;
use crate::model::AdtError;
use crate::tree::copy_slice;
use crate::tree::find_byte;
use crate::tree::range_matches;
use crate::tree::split_indices;
use crate::tree::u32_at;
use crate::tree::ADT;

verus! {

/// Decodes a property value as a NUL-terminated string: the value must
/// end with a NUL byte, and the bytes up to the first NUL are returned.
pub fn string_value(v: &[u8]) -> (r: Result<Vec<u8>, AdtError>)
    ensures
        r is Ok <==> (v@.len() > 0 && v@[v@.len() - 1] == 0),
        r matches Ok(sv) ==> sv@ == cstr_of(v@),
        r is Err ==> r->Err_0 == AdtError::BadValue,
{
    if v.len() == 0 {
        return Err(AdtError::BadValue);
    }
    if v[v.len() - 1] != 0 {
        return Err(AdtError::BadValue);
    }
    let k = find_byte(v, 0, 0);
    proof {
        lemma_find_byte_from(v@, 0, 0);
        assert(cstr_of(v@) =~= v@.subrange(0, find_byte_from(v@, 0, 0)));
    }
    Ok(copy_slice(v, 0, k))
}

/// Decodes a property value as an array of little-endian 32-bit cells;
/// the length must be a multiple of 4.
pub fn cells_u32(v: &[u8]) -> (r: Result<Vec<u32>, AdtError>)
    ensures
        r is Ok <==> v@.len() % 4 == 0,
        r matches Ok(c) ==> c@.len() == v@.len() / 4 && forall|t: int|
            0 <= t < c@.len() ==> #[trigger] c@[t] as int == u32_le(v@, 4 * t),
        r is Err ==> r->Err_0 == AdtError::BadValue,
{
    if v.len() % 4 != 0 {
        return Err(AdtError::BadValue);
    }
    let n = v.len() / 4;
    proof {
        vstd::arithmetic::div_mod::lemma_fundamental_div_mod(v@.len() as int, 4);
    }
    let mut out: Vec<u32> = Vec::new();
    let mut t: usize = 0;
    while t < n
        invariant
            v@.len() <= usize::MAX,
            v@.len() % 4 == 0,
            n == v@.len() / 4,
            t <= n,
            out@.len() == t,
            forall|u: int| 0 <= u < t ==> #[trigger] out@[u] as int == u32_le(v@, 4 * u),
        decreases n - t,
    {
        proof {
            vstd::arithmetic::div_mod::lemma_fundamental_div_mod(v@.len() as int, 4);
        }
        out.push(u32_at(v, 4 * t));
        t = t + 1;
    }
    Ok(out)
}

/// Decodes a property value as an array of little-endian 64-bit cells;
/// the length must be a multiple of 8.
pub fn cells_u64(v: &[u8]) -> (r: Result<Vec<u64>, AdtError>)
    ensures
        r is Ok <==> v@.len() % 8 == 0,
        r matches Ok(c) ==> c@.len() == v@.len() / 8 && forall|t: int|
            0 <= t < c@.len() ==> #[trigger] c@[t] as int == u64_le(v@, 8 * t),
        r is Err ==> r->Err_0 == AdtError::BadValue,
{
    if v.len() % 8 != 0 {
        return Err(AdtError::BadValue);
    }
    let n = v.len() / 8;
    let mut out: Vec<u64> = Vec::new();
    let mut t: usize = 0;
    while t < n
        invariant
            v@.len() <= usize::MAX,
            v@.len() % 8 == 0,
            n == v@.len() / 8,
            t <= n,
            out@.len() == t,
            forall|u: int| 0 <= u < t ==> #[trigger] out@[u] as int == u64_le(v@, 8 * u),
        decreases n - t,
    {
        proof {
            vstd::arithmetic::div_mod::lemma_fundamental_div_mod(v@.len() as int, 8);
        }
        let lo = u32_at(v, 8 * t);
        let hi = u32_at(v, 8 * t + 4);
        out.push(lo as u64 + (hi as u64) * 0x1_0000_0000);
        t = t + 1;
    }
    Ok(out)
}

/// Whether `q` occurs in `v` as one full NUL-terminated entry of a
/// NUL-separated string list. An unterminated trailing fragment never
/// matches.
pub fn entries_contain(v: &[u8], q: &[u8]) -> (r: bool)
    ensures
        r == has_entry(v@, q@),
{
    let mut i: usize = 0;
    while i < v.len()
        invariant
            i <= v@.len(),
            has_entry(v@, q@) == has_entry_from(v@, q@, i as int),
        decreases v@.len() - i,
    {
        let k = find_byte(v, 0, i);
        proof {
            lemma_find_byte_from(v@, 0, i as int);
        }
        if k >= v.len() {
            return false;
        }
        if range_matches(v, i, k, q) {
            return true;
        }
        i = k + 1;
    }
    false
}

impl ADT {
    /// Whether the node at `offset` declares itself compatible with
    /// `compat`: true exactly when its `compatible` property holds
    /// `compat` as one full NUL-terminated entry.
    pub fn is_compatible(&self, offset: i32, compat: &str) -> (r: Result<bool, AdtError>)
        requires
            self.wf(),
        ensures
            ({
                let w = lift_found(node_find_prop(self@, offset as int, compatible_query()));
                match w {
                    Err(e) => r == Err::<bool, AdtError>(e),
                    Ok(po) => r matches Ok(b) && b == has_entry(
                        prop_value(self@, po),
                        compat.spec_bytes(),
                    ),
                }
            }),
    {
        let po = match self.prop_offset_by_name(offset, "compatible".as_bytes()) {
            Err(e) => {
                return Err(e);
            },
            Ok(v) => v,
        };
        let o = po as usize;
        let sz = u32_at(self.bytes(), o + 32) as usize;
        let val = slice_subrange(self.bytes(), o + 36, o + 36 + sz);
        Ok(entries_contain(val, compat.as_bytes()))
    }

    /// The cell count the node at `parent` declares under `q`, or
    /// `default` when the property is absent.
    fn cells_setting_at(&self, parent: i32, q: &[u8], default: u32) -> (r: Result<u32, AdtError>)
        requires
            self.wf(),
        ensures
            ({
                let w = cells_setting(self@, parent as int, q@, default as int);
                match w {
                    Err(e) => r == Err::<u32, AdtError>(e),
                    Ok(c) => r matches Ok(v) && v as int == c,
                }
            }),
    {
        proof {
            if node_check(self@, parent as int) is None {
                lemma_find_prop_err(
                    self@,
                    parent as int + 8,
                    prop_count(self@, parent as int) as nat,
                    q@,
                );
            }
        }
        match self.prop_offset_by_name(parent, q) {
            Err(e) => {
                if e == AdtError::NotFound {
                    Ok(default)
                } else {
                    Err(e)
                }
            },
            Ok(po) => {
                let o = po as usize;
                let sz = u32_at(self.bytes(), o + 32);
                if sz != 4 {
                    Err(AdtError::BadNCells)
                } else {
                    Ok(u32_at(self.bytes(), o + 36))
                }
            },
        }
    }

    /// Decodes the `index`-th address/size tuple of the property named
    /// `pname` on the node at `node`, given the cell counts.
    fn reg_decode_at(&self, node: i32, ac: u32, sc: u32, pname: &[u8], index: usize) -> (r: Result<
        (u64, u64),
        AdtError,
    >)
        requires
            self.wf(),
        ensures
            ({
                let w = reg_decode(self@, node as int, ac as int, sc as int, pname@, index as int);
                match w {
                    Err(e) => r == Err::<(u64, u64), AdtError>(e),
                    Ok(t) => r matches Ok(v) && v.0 as int == t.0 && v.1 as int == t.1,
                }
            }),
    {
        if ac < 1 || ac > 2 || sc < 1 || sc > 2 {
            return Err(AdtError::BadNCells);
        }
        let po = match self.prop_offset_by_name(node, pname) {
            Err(e) => {
                return Err(e);
            },
            Ok(v) => v,
        };
        let o = po as usize;
        let plen = u32_at(self.bytes(), o + 32) as usize;
        let step = ((ac + sc) * 4) as usize;
        if index >= 0x10_0000 {
            proof {
                assert(index * step >= index * 8) by (nonlinear_arith)
                    requires
                        step >= 8,
                        index >= 0x10_0000,
                ;
            }
            return Err(AdtError::BadNCells);
        }
        proof {
            assert(index * step <= 0x10_0000 * 16) by (nonlinear_arith)
                requires
                    0 <= index < 0x10_0000,
                    0 <= step <= 16,
            ;
        }
        let toff = index * step;
        if toff + step > plen {
            return Err(AdtError::BadNCells);
        }
        let base = o + 36 + toff;
        let addr = if ac == 1 {
            u32_at(self.bytes(), base) as u64
        } else {
            u32_at(self.bytes(), base) as u64 + (u32_at(self.bytes(), base + 4) as u64)
                * 0x1_0000_0000
        };
        let sbase = base + (ac as usize) * 4;
        let size = if sc == 1 {
            u32_at(self.bytes(), sbase) as u64
        } else {
            u32_at(self.bytes(), sbase) as u64 + (u32_at(self.bytes(), sbase + 4) as u64)
                * 0x1_0000_0000
        };
        Ok((addr, size))
    }

    /// Resolves `path`, determines the address and size cell counts from
    /// `#address-cells` / `#size-cells` on the parent of the resolved
    /// node (2 and 1 by default, and always at the root, which has no
    /// parent), and decodes the `index`-th address/size tuple of the
    /// register property named `prop_name`.
    pub fn get_reg(&self, path: &str, prop_name: &str, index: usize) -> (r: Result<
        (u64, u64),
        AdtError,
    >)
        requires
            self.wf(),
        ensures
            ({
                let w = reg_lookup(
                    self@,
                    path.spec_bytes(),
                    prop_name.spec_bytes(),
                    index as int,
                );
                match w {
                    Err(e) => r == Err::<(u64, u64), AdtError>(e),
                    Ok(t) => r matches Ok(v) && v.0 as int == t.0 && v.1 as int == t.1,
                }
            }),
    {
        let p = path.as_bytes();
        let parts = split_indices(p);
        let s0: usize = if parts.len() > 0 && parts[0].1 == parts[0].0 {
            1
        } else {
            0
        };
        let ghost segs = path_segments(p@);
        proof {
            assert(split_from(p@, 0).len() > 0);
            assert(segs =~= split_from(p@, 0).subrange(s0 as int, split_from(p@, 0).len() as int));
        }
        // refuse any empty segment
        let mut j = s0;
        while j < parts.len()
            invariant
                p@ == path.spec_bytes(),
                segs == path_segments(p@),
                s0 <= j <= parts@.len(),
                parts@.len() == split_from(p@, 0).len(),
                forall|t: int| 0 <= t < parts@.len() ==> 0 <= #[trigger] parts@[t].0 <= parts@[t].1
                    <= p@.len() && p@.subrange(parts@[t].0 as int, parts@[t].1 as int)
                    == split_from(p@, 0)[t],
                segs == split_from(p@, 0).subrange(s0 as int, split_from(p@, 0).len() as int),
                forall|t: int| s0 <= t < j ==> #[trigger] split_from(p@, 0)[t].len() > 0,
            decreases parts@.len() - j,
        {
            if parts[j].1 == parts[j].0 {
                proof {
                    assert(segs[j - s0].len() == 0);
                    assert(!segments_wf(segs));
                }
                return Err(AdtError::BadPath);
            }
            j = j + 1;
        }
        assert(segments_wf(segs)) by {
            assert forall|t: int| 0 <= t < segs.len() implies #[trigger] segs[t].len() > 0 by {
                assert(segs[t] == split_from(p@, 0)[t + s0]);
            }
        }
        if parts.len() == s0 {
            // no segments: the root itself, which has no parent
            return self.reg_decode_at(0, 2, 1, prop_name.as_bytes(), index);
        }
        // resolve every segment but the last to find the parent
        let ghost par_segs = segs.take(segs.len() - 1);
        let last = parts.len() - 1;
        let mut cur: i32 = 0;
        let mut j = s0;
        while j < last
            invariant
                self.wf(),
                p@ == path.spec_bytes(),
                segs == path_segments(p@),
                s0 <= j <= last,
                last == parts@.len() - 1,
                s0 < parts@.len(),
                parts@.len() == split_from(p@, 0).len(),
                forall|t: int| 0 <= t < parts@.len() ==> 0 <= #[trigger] parts@[t].0 <= parts@[t].1
                    <= p@.len() && p@.subrange(parts@[t].0 as int, parts@[t].1 as int)
                    == split_from(p@, 0)[t],
                segs == split_from(p@, 0).subrange(s0 as int, split_from(p@, 0).len() as int),
                segments_wf(segs),
                par_segs == segs.take(segs.len() - 1),
                resolve_from(self@, par_segs, 0, 0) == resolve_from(
                    self@,
                    par_segs,
                    j - s0,
                    cur as int,
                ),
            decreases last - j,
        {
            let a = parts[j].0;
            let b = parts[j].1;
            let seg = slice_subrange(p, a, b);
            assert(seg@ == par_segs[j - s0]);
            cur = match self.subnode_lookup(cur, seg) {
                Err(e) => {
                    return Err(e);
                },
                Ok(v) => v,
            };
            j = j + 1;
        }
        let parent = cur;
        // the last segment names the node itself
        let a = parts[last].0;
        let b = parts[last].1;
        let seg = slice_subrange(p, a, b);
        assert(seg@ == segs[segs.len() - 1]);
        let node = match self.subnode_lookup(parent, seg) {
            Err(e) => {
                return Err(e);
            },
            Ok(v) => v,
        };
        let ac = match self.cells_setting_at(parent, "#address-cells".as_bytes(), 2) {
            Err(e) => {
                return Err(e);
            },
            Ok(v) => v,
        };
        let sc = match self.cells_setting_at(parent, "#size-cells".as_bytes(), 1) {
            Err(e) => {
                return Err(e);
            },
            Ok(v) => v,
        };
        self.reg_decode_at(node, ac, sc, prop_name.as_bytes(), index)
    }
}

} // verus!
