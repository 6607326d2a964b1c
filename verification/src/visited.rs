//! The termination measure of searches whose visited map records, per
//! board hash, the best depth at which that board was reached.
//!
//! Such a search may push a state again when a shorter path to it turns
//! up, so the frontier alone does not shrink. What does shrink is this
//! measure: an unseen hash is worth 256, a seen one its recorded depth,
//! and every insertion either claims a new hash or lowers a recorded
//! depth.

use vstd::prelude::*;

verus! {

/// The summed recorded depths over a finite set of hashes.
pub open spec fn depth_total(s: Set<u64>, m: Map<u64, u8>) -> int
    decreases s.len(),
    when s.finite()
{
    if s.is_empty() {
        0
    } else {
        let k = s.choose();
        m[k] + depth_total(s.remove(k), m)
    }
}

/// Splitting off any one element of the set splits the sum.
pub proof fn lemma_depth_total_elem(s: Set<u64>, m: Map<u64, u8>, k: u64)
    requires
        s.finite(),
        s.contains(k),
    ensures
        depth_total(s, m) == m[k] + depth_total(s.remove(k), m),
    decreases s.len(),
{
    assert(!s.is_empty());
    let c = s.choose();
    assert(s.contains(c));
    if c != k {
        let s1 = s.remove(c);
        let s2 = s.remove(k);
        lemma_depth_total_elem(s1, m, k);
        lemma_depth_total_elem(s2, m, c);
        assert(s1.remove(k) =~= s2.remove(c));
    }
}

/// The sum reads the map only on the set.
pub proof fn lemma_depth_total_agree(s: Set<u64>, m1: Map<u64, u8>, m2: Map<u64, u8>)
    requires
        s.finite(),
        forall|k: u64| s.contains(k) ==> m1[k] == m2[k],
    ensures
        depth_total(s, m1) == depth_total(s, m2),
    decreases s.len(),
{
    if !s.is_empty() {
        let c = s.choose();
        assert(s.contains(c));
        lemma_depth_total_agree(s.remove(c), m1, m2);
    }
}

/// The sum of depths lies between 0 and 256 per element.
pub proof fn lemma_depth_total_bounds(s: Set<u64>, m: Map<u64, u8>)
    requires
        s.finite(),
    ensures
        0 <= depth_total(s, m) <= 256 * s.len(),
    decreases s.len(),
{
    if !s.is_empty() {
        let c = s.choose();
        assert(s.contains(c));
        lemma_depth_total_bounds(s.remove(c), m);
        assert(m[c] <= 255);
    }
}

/// One more than the largest length a hash table can report.
pub open spec fn cap() -> int {
    usize::MAX as int + 1
}

/// The measure of a visited map: 256 for every hash never seen, plus
/// each seen hash's recorded depth.
pub open spec fn visited_measure(m: Map<u64, u8>) -> int {
    (cap() - m.dom().len()) * 256 + depth_total(m.dom(), m)
}

/// The measure never goes negative while the map fits in memory.
pub proof fn lemma_visited_measure_nonneg(m: Map<u64, u8>)
    requires
        m.dom().finite(),
        m.dom().len() <= usize::MAX,
    ensures
        visited_measure(m) >= 0,
{
    lemma_depth_total_bounds(m.dom(), m);
}

/// Recording a hash for the first time, or recording a strictly smaller
/// depth for a seen one, shrinks the measure.
pub proof fn lemma_visited_measure_insert(m: Map<u64, u8>, k: u64, v: u8)
    requires
        m.dom().finite(),
        m.dom().len() <= usize::MAX,
        !m.dom().contains(k) || v < m[k],
    ensures
        visited_measure(m.insert(k, v)) <= visited_measure(m) - 1,
{
    let m2 = m.insert(k, v);
    assert(m2.dom() =~= m.dom().insert(k));
    assert(m2[k] == v);
    if !m.dom().contains(k) {
        assert(m2.dom().len() == m.dom().len() + 1);
        lemma_depth_total_elem(m2.dom(), m2, k);
        assert(m2.dom().remove(k) =~= m.dom());
        lemma_depth_total_agree(m.dom(), m2, m);
    } else {
        assert(m2.dom() =~= m.dom());
        lemma_depth_total_elem(m.dom(), m, k);
        lemma_depth_total_elem(m2.dom(), m2, k);
        lemma_depth_total_agree(m.dom().remove(k), m2, m);
        assert(depth_total(m2.dom(), m2) == v + depth_total(m.dom().remove(k), m));
    }
}

} // verus!
