//! The general properties the library promises, stated and proved over
//! the model that the public contracts use.

use vstd::prelude::*;

use crate::lemmas::lemma_find_byte_from;
use crate::lemmas::lemma_find_prop_found;
use crate::lemmas::lemma_find_prop_frame;
use crate::lemmas::lemma_skip_children_step;
use crate::lemmas::lemma_walk_props_split;
use crate::model::find_byte_from;
use crate::model::find_child_from;
use crate::model::has_entry;
use crate::model::has_entry_from;
use crate::model::lift_found;
use crate::model::name_prop_query;
use crate::model::node_check;
use crate::model::node_find_prop;
use crate::model::path_lookup;
use crate::model::path_segments;
use crate::model::prop_count;
use crate::model::prop_len;
use crate::model::prop_value;
use crate::model::resolve_from;
use crate::model::segments_wf;
use crate::model::sibling;
use crate::model::skip_children;
use crate::model::subnode;
use crate::model::u32_le;
use crate::model::walk_props;
use crate::model::AdtError;

verus! {

/// Walking a node's properties composes: after any `k` single
/// `next_property_offset` steps from `first_property_offset`, the
/// remaining `property_count - k` steps land exactly where
/// `first_child_offset` lands. With `k = property_count` the walk is
/// exhausted and the offsets coincide.
pub proof fn lemma_properties_end_at_first_child(s: Seq<u8>, o: int, k: nat)
    requires
        node_check(s, o) is None,
        k <= prop_count(s, o),
    ensures
        walk_props(s, o + 8, prop_count(s, o) as nat) == (match walk_props(s, o + 8, k) {
            Err(e) => Err::<int, AdtError>(e),
            Ok(v) => walk_props(s, v, (prop_count(s, o) - k) as nat),
        }),
{
    lemma_walk_props_split(s, o + 8, k, (prop_count(s, o) - k) as nat);
}

/// Skipping sibling subtrees composes: skipping `m + n` children is one
/// `next_sibling_offset` walk of `m`, then one of `n` from where it
/// ended. Iterating single sibling steps `child_count` times therefore
/// exhausts exactly the children of a node.
pub proof fn lemma_skip_children_split(s: Seq<u8>, o: int, m: nat, n: nat)
    ensures
        skip_children(s, o, m + n) == (match skip_children(s, o, m) {
            Err(e) => Err::<int, AdtError>(e),
            Ok(v) => skip_children(s, v, n),
        }),
    decreases m,
{
    if m == 0 {
        assert(skip_children(s, o, 0) == Ok::<int, AdtError>(o));
    } else {
        lemma_skip_children_step(s, o, m + n);
        lemma_skip_children_step(s, o, m);
        let w = sibling(s, o);
        if w is Ok {
            lemma_skip_children_split(s, w->Ok_0, (m - 1) as nat, n);
        }
    }
}

/// The child scan is count-bounded, not sentinel-bounded: when the last
/// candidate child does not match, the scan ends without ever walking
/// that child's subtree, so bytes after it cannot fail the lookup.
pub proof fn lemma_last_child_not_walked(s: Seq<u8>, c: int, q: Seq<u8>)
    requires
        !(node_find_prop(s, c, name_prop_query()) matches Ok(Some(po)) && crate::model::cstr_of(
            prop_value(s, po),
        ) == q),
        node_find_prop(s, c, name_prop_query()) is Ok,
    ensures
        find_child_from(s, c, 1, q) == Ok::<Option<int>, AdtError>(None),
{
}

/// Round trip through the mutator: overwriting the first `v.len()`
/// bytes of a found property's value leaves every byte below the value
/// untouched, so the same name search finds the same property, whose
/// value now starts with exactly the bytes written.
pub proof fn lemma_set_then_get(
    s1: Seq<u8>,
    s2: Seq<u8>,
    node: int,
    q: Seq<u8>,
    v: Seq<u8>,
    po: int,
)
    requires
        node_find_prop(s1, node, q) == Ok::<Option<int>, AdtError>(Some(po)),
        v.len() <= prop_len(s1, po),
        s2.len() == s1.len(),
        forall|j: int| 0 <= j < s1.len() && !(po + 36 <= j < po + 36 + v.len()) ==> s2[j] == s1[j],
        forall|j: int| 0 <= j < v.len() ==> s2[po + 36 + j] == v[j],
    ensures
        node_find_prop(s2, node, q) == Ok::<Option<int>, AdtError>(Some(po)),
        prop_len(s2, po) == prop_len(s1, po),
        prop_value(s2, po).subrange(0, v.len() as int) == v,
{
    let pc = prop_count(s1, node) as nat;
    lemma_find_prop_found(s1, node + 8, pc, q);
    assert(po + 36 <= s1.len());
    assert(u32_le(s1, node) == u32_le(s2, node));
    assert(u32_le(s1, node + 4) == u32_le(s2, node + 4));
    assert(node_check(s2, node) is None);
    lemma_find_prop_frame(s1, s2, node + 8, pc, q, po);
    assert(u32_le(s1, po + 32) == u32_le(s2, po + 32));
    assert(prop_value(s2, po).subrange(0, v.len() as int) =~= v);
}

/// Path resolution is nested child lookup: a path whose segments are
/// `[a, b]` resolves to the node named `b` under the node named `a`
/// under the root.
pub proof fn lemma_path_is_nested_lookup(s: Seq<u8>, p: Seq<u8>, a: Seq<u8>, b: Seq<u8>)
    requires
        path_segments(p) == seq![a, b],
        a.len() > 0,
        b.len() > 0,
    ensures
        path_lookup(s, p) == (match lift_found(subnode(s, 0, a)) {
            Err(e) => Err::<int, AdtError>(e),
            Ok(c) => lift_found(subnode(s, c, b)),
        }),
{
    let segs = path_segments(p);
    assert(segs[0] == a && segs[1] == b);
    assert(segments_wf(segs)) by {
        assert forall|i: int| 0 <= i < segs.len() implies #[trigger] segs[i].len() > 0 by {
            if i == 0 {
                assert(segs[i] == a);
            } else {
                assert(segs[i] == b);
            }
        }
    }
    let w0 = subnode(s, 0, a);
    match w0 {
        Err(_) => {},
        Ok(None) => {},
        Ok(Some(c)) => {
            assert(resolve_from(s, segs, 0, 0) == resolve_from(s, segs, 1, c));
            let w1 = subnode(s, c, b);
            match w1 {
                Err(_) => {},
                Ok(None) => {},
                Ok(Some(d)) => {
                    assert(resolve_from(s, segs, 1, c) == resolve_from(s, segs, 2, d));
                    assert(resolve_from(s, segs, 2, d) == Ok::<int, AdtError>(d));
                },
            }
        },
    }
}

/// Every value the accessors hand out is backed by bytes provably
/// inside the blob: a property that passes validation declares a value
/// that ends at or before the blob's last byte.
pub proof fn lemma_returned_bytes_in_bounds(s: Seq<u8>, o: int)
    requires
        crate::model::prop_step_check(s, o) is None,
    ensures
        0 <= o + 36 <= o + 36 + prop_len(s, o) <= s.len(),
{
}

/// Whether `q` stands at `t` in `v` as one full NUL-terminated entry of
/// a NUL-separated list whose scan starts at `i`: preceded by the start
/// of the scan or a NUL, followed directly by a NUL.
pub open spec fn is_full_entry(v: Seq<u8>, q: Seq<u8>, i: int, t: int) -> bool {
    &&& i <= t
    &&& t + q.len() < v.len()
    &&& v.subrange(t, t + q.len()) == q
    &&& v[t + q.len()] == 0
    &&& (t == i || v[t - 1] == 0)
}

/// What the entry scan from `i` accepts, exactly: some position at or
/// after `i` where `q` stands as one full NUL-terminated entry. `q`
/// itself must be NUL-free, as every real matching identifier is.
pub proof fn lemma_has_entry_from_exact(v: Seq<u8>, q: Seq<u8>, i: int)
    requires
        0 <= i,
        forall|j: int| 0 <= j < q.len() ==> q[j] != 0,
    ensures
        has_entry_from(v, q, i) <==> exists|t: int| #[trigger] is_full_entry(v, q, i, t),
    decreases v.len() - i,
{
    if i >= v.len() {
        assert(!has_entry_from(v, q, i));
        if exists|t: int| #[trigger] is_full_entry(v, q, i, t) {
            let t = choose|t: int| #[trigger] is_full_entry(v, q, i, t);
            assert(t + q.len() < v.len() && i <= t);
            assert(false);
        }
    } else {
        let k = find_byte_from(v, 0, i);
        lemma_find_byte_from(v, 0, i);
        if k < v.len() {
            if v.subrange(i, k) == q {
                assert(is_full_entry(v, q, i, i)) by {
                    assert(q.len() == k - i);
                    assert(v.subrange(i, i + q.len()) == q);
                    assert(v[i + q.len()] == 0);
                }
                assert(has_entry_from(v, q, i));
            } else {
                lemma_has_entry_from_exact(v, q, k + 1);
                if has_entry_from(v, q, k + 1) {
                    let t = choose|t: int| #[trigger] is_full_entry(v, q, k + 1, t);
                    assert(t == k + 1 ==> v[t - 1] == 0);
                    assert(is_full_entry(v, q, i, t));
                }
                if exists|t: int| #[trigger] is_full_entry(v, q, i, t) {
                    let t = choose|t: int| #[trigger] is_full_entry(v, q, i, t);
                    if t == i {
                        // the entry at `i` would end at the first NUL,
                        // which would make the compared entry equal `q`
                        assert forall|j: int| i <= j < i + q.len() implies v[j] != 0 by {
                            assert(v[j] == v.subrange(t, t + q.len())[j - i]);
                        }
                        assert(k >= i + q.len());
                        assert(k <= i + q.len());
                        assert(v.subrange(i, k) =~= q);
                        assert(false);
                    } else {
                        assert(v[t - 1] == 0);
                        assert(k <= t - 1);
                        assert(is_full_entry(v, q, k + 1, t));
                        assert(has_entry_from(v, q, k + 1));
                    }
                }
            }
        } else {
            // no NUL at or after `i`: an unterminated tail is no entry
            assert(!has_entry_from(v, q, i));
            if exists|t: int| #[trigger] is_full_entry(v, q, i, t) {
                let t = choose|t: int| #[trigger] is_full_entry(v, q, i, t);
                assert(v[t + q.len()] == 0);
                assert(i <= t + q.len() < v.len());
                assert(false);
            }
        }
    }
}

/// The compatible matcher accepts `q` exactly when it stands somewhere
/// in the value as one full NUL-terminated entry: never as a proper
/// prefix or substring of a longer entry, and never as an unterminated
/// trailing fragment.
pub proof fn lemma_compatible_is_exact(v: Seq<u8>, q: Seq<u8>)
    requires
        forall|j: int| 0 <= j < q.len() ==> q[j] != 0,
    ensures
        has_entry(v, q) <==> exists|t: int| is_full_entry(v, q, 0, t),
{
    lemma_has_entry_from_exact(v, q, 0);
}

} // verus!
