//! Proofs about the model: bounds on the walks, irrelevance of the fuel
//! bound once it covers the blob, and the characterization of the byte
//! search that name and path handling build on.

use vstd::prelude::*;

use crate::model::child_count;
use crate::model::find_byte_from;
use crate::model::next_prop_off;
use crate::model::node_check;
use crate::model::prop_count;
use crate::model::prop_len;
use crate::model::prop_step_check;
use crate::model::sibling;
use crate::model::skip_children;
use crate::model::tree_fuel;
use crate::model::walk_children;
use crate::model::walk_props;

verus! {

/// Rounding a non-negative length up to the next multiple of 4 moves it
/// by at most 3 and keeps it aligned.
pub proof fn lemma_align4_bounds(n: int)
    requires
        0 <= n,
    ensures
        n <= crate::model::align4(n) <= n + 3,
        crate::model::align4(n) % 4 == 0,
{
}

/// A property walk only moves forward: each of the `n` steps advances by
/// at least 36 bytes, and a non-empty successful walk ends at most 3
/// padding bytes past the blob.
pub proof fn lemma_walk_props_bounds(s: Seq<u8>, o: int, n: nat)
    ensures
        walk_props(s, o, n) matches Ok(v) ==> v >= o + 36 * n,
        n >= 1 && walk_props(s, o, n) is Ok ==> walk_props(s, o, n)->Ok_0 <= s.len() + 3,
    decreases n,
{
    if n >= 1 && prop_step_check(s, o) is None {
        lemma_align4_bounds(prop_len(s, o));
        lemma_walk_props_bounds(s, next_prop_off(s, o), (n - 1) as nat);
    }
}

/// A sibling walk only moves forward: a successful walk over at least one
/// subtree advances by at least 44 bytes (header plus one property) and
/// ends at most 3 padding bytes past the blob.
pub proof fn lemma_walk_children_bounds(s: Seq<u8>, o: int, n: nat, fuel: nat)
    ensures
        walk_children(s, o, n, fuel) matches Ok(v) ==> v >= o,
        n >= 1 && walk_children(s, o, n, fuel) is Ok ==> walk_children(s, o, n, fuel)->Ok_0 >= o
            + 44 && walk_children(s, o, n, fuel)->Ok_0 <= s.len() + 3,
    decreases fuel, n,
{
    if n >= 1 && fuel >= 1 && node_check(s, o) is None {
        let pc = prop_count(s, o) as nat;
        let cc = child_count(s, o) as nat;
        lemma_walk_props_bounds(s, o + 8, pc);
        let w = walk_props(s, o + 8, pc);
        if w is Ok {
            let c0 = w->Ok_0;
            lemma_walk_children_bounds(s, c0, cc, (fuel - 1) as nat);
            let wc = walk_children(s, c0, cc, (fuel - 1) as nat);
            if wc is Ok {
                lemma_walk_children_bounds(s, wc->Ok_0, (n - 1) as nat, fuel);
            }
        }
    }
}

/// Once the fuel covers the bytes that remain past `o`, its exact value
/// does not matter: any two sufficient fuels give the same walk.
pub proof fn lemma_walk_children_fuel(s: Seq<u8>, o: int, n: nat, f1: nat, f2: nat)
    requires
        f1 >= 1,
        f2 >= 1,
        0 <= o ==> f1 >= s.len() + 1 - o && f2 >= s.len() + 1 - o,
    ensures
        walk_children(s, o, n, f1) == walk_children(s, o, n, f2),
    decreases f1 + f2, n,
{
    if n >= 1 && node_check(s, o) is None {
        let pc = prop_count(s, o) as nat;
        let cc = child_count(s, o) as nat;
        lemma_walk_props_bounds(s, o + 8, pc);
        let w = walk_props(s, o + 8, pc);
        if w is Ok {
            let c0 = w->Ok_0;
            assert(c0 >= o + 44);
            lemma_walk_children_fuel(s, c0, cc, (f1 - 1) as nat, (f2 - 1) as nat);
            lemma_walk_children_bounds(s, c0, cc, (f1 - 1) as nat);
            let wc = walk_children(s, c0, cc, (f1 - 1) as nat);
            if wc is Ok {
                lemma_walk_children_fuel(s, wc->Ok_0, (n - 1) as nat, f1, f2);
            }
        }
    }
}

/// A walk over the children of a valid node, taken at full fuel, equals
/// the walk the model performs one level down with one unit less.
pub proof fn lemma_children_at_full_fuel(s: Seq<u8>, c0: int, cc: nat)
    requires
        1 <= c0,
    ensures
        walk_children(s, c0, cc, (tree_fuel(s) - 1) as nat) == skip_children(s, c0, cc),
{
    if s.len() == 0 {
        assert(node_check(s, c0) is Some);
    } else {
        lemma_walk_children_fuel(s, c0, cc, (tree_fuel(s) - 1) as nat, tree_fuel(s));
    }
}

/// Skipping `n >= 1` sibling subtrees is one sibling step followed by
/// skipping the remaining `n - 1`.
pub proof fn lemma_skip_children_step(s: Seq<u8>, o: int, n: nat)
    requires
        n >= 1,
    ensures
        skip_children(s, o, n) == (match sibling(s, o) {
            Err(e) => Err::<int, crate::model::AdtError>(e),
            Ok(e0) => skip_children(s, e0, (n - 1) as nat),
        }),
{
    let f = tree_fuel(s);
    if node_check(s, o) is None {
        let pc = prop_count(s, o) as nat;
        let cc = child_count(s, o) as nat;
        let w = walk_props(s, o + 8, pc);
        if w is Ok {
            let wc = walk_children(s, w->Ok_0, cc, (f - 1) as nat);
            if wc is Ok {
                assert(walk_children(s, wc->Ok_0, 0, f) == Ok::<int, crate::model::AdtError>(
                    wc->Ok_0,
                ));
            }
        }
    }
}

/// What the byte search returns: the first hit at or after `i`, or the
/// length when no byte matches.
pub proof fn lemma_find_byte_from(s: Seq<u8>, b: u8, i: int)
    requires
        0 <= i <= s.len(),
    ensures
        i <= find_byte_from(s, b, i) <= s.len(),
        find_byte_from(s, b, i) < s.len() ==> s[find_byte_from(s, b, i)] == b,
        forall|j: int| i <= j < find_byte_from(s, b, i) ==> s[j] != b,
    decreases s.len() - i,
{
    if i < s.len() && s[i] != b {
        lemma_find_byte_from(s, b, i + 1);
    }
}

/// A failed property search reports a structural error, never
/// `NotFound`: exhausting the count is the `Ok(None)` outcome.
pub proof fn lemma_find_prop_err(s: Seq<u8>, o: int, n: nat, q: Seq<u8>)
    ensures
        crate::model::find_prop(s, o, n, q) matches Err(e) ==> (e
            == crate::model::AdtError::BadOffset || e == crate::model::AdtError::BadLength),
    decreases n,
{
    if n >= 1 && prop_step_check(s, o) is None && !crate::model::name_matches(s, o, q) {
        lemma_find_prop_err(s, next_prop_off(s, o), (n - 1) as nat, q);
    }
}

/// A found property lies at or after the start of the scan, is valid,
/// and carries the name searched for.
pub proof fn lemma_find_prop_found(s: Seq<u8>, o: int, n: nat, q: Seq<u8>)
    ensures
        crate::model::find_prop(s, o, n, q) matches Ok(Some(po)) ==> o <= po
            && prop_step_check(s, po) is None && crate::model::name_matches(s, po, q),
    decreases n,
{
    if n >= 1 && prop_step_check(s, o) is None && !crate::model::name_matches(s, o, q) {
        lemma_align4_bounds(prop_len(s, o));
        lemma_find_prop_found(s, next_prop_off(s, o), (n - 1) as nat, q);
    }
}

/// The scan that finds a property reads only bytes below the end of its
/// header: bytes at or past `po + 36` (its value among them) can change
/// without changing what is found.
pub proof fn lemma_find_prop_frame(s1: Seq<u8>, s2: Seq<u8>, o: int, n: nat, q: Seq<u8>, po: int)
    requires
        s1.len() == s2.len(),
        crate::model::find_prop(s1, o, n, q) == Ok::<Option<int>, crate::model::AdtError>(
            Some(po),
        ),
        forall|j: int| 0 <= j < po + 36 ==> s1[j] == s2[j],
    ensures
        crate::model::find_prop(s2, o, n, q) == Ok::<Option<int>, crate::model::AdtError>(
            Some(po),
        ),
    decreases n,
{
    lemma_find_prop_found(s1, o, n, q);
    assert(n >= 1);
    assert(o <= po);
    assert(crate::model::u32_le(s1, o + 32) == crate::model::u32_le(s2, o + 32));
    assert(crate::model::prop_name_field(s1, o) =~= crate::model::prop_name_field(s2, o));
    if !crate::model::name_matches(s1, o, q) {
        lemma_align4_bounds(prop_len(s1, o));
        lemma_find_prop_found(s1, next_prop_off(s1, o), (n - 1) as nat, q);
        lemma_find_prop_frame(s1, s2, next_prop_off(s1, o), (n - 1) as nat, q, po);
    }
}

/// A property walk splits: walking `m + n` properties is walking `m`,
/// then walking `n` from where that ended.
pub proof fn lemma_walk_props_split(s: Seq<u8>, o: int, m: nat, n: nat)
    ensures
        walk_props(s, o, m + n) == (match walk_props(s, o, m) {
            Err(e) => Err::<int, crate::model::AdtError>(e),
            Ok(v) => walk_props(s, v, n),
        }),
    decreases m,
{
    if m >= 1 && prop_step_check(s, o) is None {
        lemma_walk_props_split(s, next_prop_off(s, o), (m - 1) as nat, n);
    }
}

} // verus!
