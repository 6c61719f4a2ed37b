//! Laws of the sketch algebra and of the sampling rules, over the sets of
//! hashes that the operations' contracts speak of.

use vstd::prelude::*;

use crate::sketch::{
    algebra_outcome, is_difference, is_intersection, retained, smallest, strictly_sorted,
    ScaleMode, Sketch, SketchError, below, lemma_below_index, lemma_first_outside, lemma_smallest_insert,
};

verus! {

/// Two strictly sorted sequences with the same members are the same sequence.
pub proof fn lemma_sorted_set_determines_seq(s: Seq<u64>, t: Seq<u64>)
    requires
        strictly_sorted(s),
        strictly_sorted(t),
        s.to_set() == t.to_set(),
    ensures
        s == t,
{
    if s.len() > 0 {
        lemma_below_index(s, s.len() - 1);
    }
    if t.len() > 0 {
        lemma_below_index(t, t.len() - 1);
    }
    assert forall|j: int| 0 <= j < s.len() implies j < t.len() && s[j] == t[j] by {
        assert(s.to_set().contains(s[j]));
        let k = choose|k: int| 0 <= k < t.len() && t[k] == s[j];
        lemma_below_index(s, j);
        lemma_below_index(t, k);
    }
    assert forall|j: int| 0 <= j < t.len() implies #[trigger] t[j] == t[j] && j < s.len() by {
        assert(t.to_set().contains(t[j]));
        let k = choose|k: int| 0 <= k < s.len() && s[k] == t[j];
        lemma_below_index(s, k);
        lemma_below_index(t, j);
    }
    assert(s =~= t);
}

/// A sketch intersected with itself is that sketch.
pub proof fn lemma_intersection_idempotent(a: Sketch, r: Sketch)
    requires
        a.wf(),
        is_intersection(r, a, a),
    ensures
        r.ksize == a.ksize,
        r.mode == a.mode,
        r.mins@ == a.mins@,
{
    assert(a.hashes().intersect(a.hashes()) =~= a.hashes());
    lemma_sorted_set_determines_seq(r.mins@, a.mins@);
}

/// Intersection does not depend on the order of its operands.
pub proof fn lemma_intersection_commutative(a: Sketch, b: Sketch, ab: Sketch, ba: Sketch)
    requires
        a.wf(),
        b.wf(),
        is_intersection(ab, a, b),
        is_intersection(ba, b, a),
    ensures
        ab.ksize == ba.ksize,
        ab.mode == ba.mode,
        ab.mins@ == ba.mins@,
{
    assert(a.hashes().intersect(b.hashes()) =~= b.hashes().intersect(a.hashes()));
    lemma_sorted_set_determines_seq(ab.mins@, ba.mins@);
}

/// Intersection does not depend on how a chain of operands is grouped.
pub proof fn lemma_intersection_associative(
    a: Sketch,
    b: Sketch,
    c: Sketch,
    ab: Sketch,
    ab_c: Sketch,
    bc: Sketch,
    a_bc: Sketch,
)
    requires
        is_intersection(ab, a, b),
        is_intersection(ab_c, ab, c),
        is_intersection(bc, b, c),
        is_intersection(a_bc, a, bc),
    ensures
        ab_c.ksize == a_bc.ksize,
        ab_c.mode == a_bc.mode,
        ab_c.mins@ == a_bc.mins@,
{
    assert(ab_c.hashes() =~= a_bc.hashes());
    lemma_sorted_set_determines_seq(ab_c.mins@, a_bc.mins@);
}

/// A sketch minus itself holds nothing and keeps its parameters.
pub proof fn lemma_subtract_self_empty(a: Sketch, r: Sketch)
    requires
        is_difference(r, a, a),
    ensures
        r.ksize == a.ksize,
        r.mode == a.mode,
        r.mins@.len() == 0,
{
    if r.mins@.len() > 0 {
        assert(r.hashes().contains(r.mins@[0]));
    }
}

/// An intersection holds only hashes that both operands hold.
pub proof fn lemma_intersection_within_operands(a: Sketch, b: Sketch, r: Sketch)
    requires
        is_intersection(r, a, b),
    ensures
        r.hashes().subset_of(a.hashes()),
        r.hashes().subset_of(b.hashes()),
{
}

/// An operation on sketches that differ in n-gram size or mode always fails
/// with `IncompatibleSketch`.
pub proof fn lemma_incompatible_fails(
    res: Result<Sketch, SketchError>,
    a: Sketch,
    b: Sketch,
    ok: spec_fn(Sketch) -> bool,
)
    requires
        algebra_outcome(res, a, b, ok),
        a.ksize != b.ksize || a.mode != b.mode,
    ensures
        res == Err::<Sketch, SketchError>(SketchError::IncompatibleSketch),
{
}

/// A scaled sketch that was empty and was then offered `offered` holds a hash
/// exactly when the hash is at most the threshold and was offered at least once.
pub proof fn lemma_scaled_retention(empty: Sketch, filled: Sketch, offered: Set<u64>, h: u64)
    requires
        empty.mins@.len() == 0,
        empty.mode is Scaled,
        filled.hashes() == retained(empty.mode, empty.hashes().union(offered)),
    ensures
        filled.hashes().contains(h) <==> (h <= empty.mode->max_hash && offered.contains(h)),
{
    assert(empty.hashes().union(offered) =~= offered);
}

/// A fixed-count sketch started empty holds the `num` smallest distinct hashes
/// offered to it, one at a time.
pub proof fn lemma_fixed_count_retention(num: usize, offered: Seq<u64>)
    ensures
        fixed_count_fold(num as nat, offered) == smallest(offered.to_set(), num as nat),
    decreases offered.len(),
{
    if offered.len() == 0 {
        assert(offered.to_set() =~= Set::<u64>::empty());
        assert(smallest(offered.to_set(), num as nat) =~= Set::<u64>::empty());
    } else {
        let rest = offered.drop_last();
        let h = offered.last();
        lemma_fixed_count_retention(num, rest);
        vstd::seq_lib::seq_to_set_is_finite(rest);
        lemma_smallest_insert(rest.to_set(), num as nat, h);
        assert(rest.push(h) =~= offered);
        assert(offered.to_set() =~= rest.to_set().insert(h)) by {
            assert forall|x: u64| offered.to_set().contains(x) <==> rest.to_set().insert(h).contains(x) by {
                if offered.contains(x) && x != h {
                    let k = choose|k: int| 0 <= k < offered.len() && offered[k] == x;
                    assert(rest[k] == x);
                }
                if rest.contains(x) {
                    let k = choose|k: int| 0 <= k < rest.len() && rest[k] == x;
                    assert(offered[k] == x);
                }
                if x == h {
                    assert(offered[offered.len() - 1] == x);
                }
            }
        }
    }
}

/// What a fixed-count sketch of size `n` holds after being offered `offered`
/// in order, each step keeping the `n` smallest of what it held and the new hash.
pub open spec fn fixed_count_fold(n: nat, offered: Seq<u64>) -> Set<u64>
    decreases offered.len(),
{
    if offered.len() == 0 {
        Set::empty()
    } else {
        smallest(fixed_count_fold(n, offered.drop_last()).insert(offered.last()), n)
    }
}

/// A sorted sequence that holds the `n` smallest members of a finite set `d`
/// holds `n` of them, or all of `d` where `d` has fewer: never a value twice.
pub proof fn lemma_smallest_count(m: Seq<u64>, d: Set<u64>, n: nat)
    requires
        strictly_sorted(m),
        d.finite(),
        m.to_set() == smallest(d, n),
    ensures
        m.len() == if n < d.len() { n } else { d.len() },
{
    assert(m.no_duplicates()) by {
        assert forall|a: int, b: int| 0 <= a < m.len() && 0 <= b < m.len() && a != b implies m[a] != m[b] by {
            if a < b {
                assert(m[a] < m[b]);
            } else {
                assert(m[b] < m[a]);
            }
        }
    }
    m.unique_seq_to_set();
    assert(smallest(d, n).subset_of(d));
    vstd::set_lib::lemma_len_subset(smallest(d, n), d);
    if m.len() > n {
        // The member at position n has n members of m below it, all in d.
        let x = m[n as int];
        lemma_below_index(m, n as int);
        assert(m.to_set().contains(x));
        assert(below(m.to_set(), x).subset_of(below(d, x)));
        d.lemma_len_filter(|y: u64| y < x);
        vstd::set_lib::lemma_len_subset(below(m.to_set(), x), below(d, x));
        assert(false);
    }
    if m.len() < n && m.len() < d.len() {
        // Some member of d is left out; the first one left out has all
        // smaller members of d kept, and at least n of them.
        assert(!(d =~= smallest(d, n)));
        let y = choose|y: u64| d.contains(y) && !smallest(d, n).contains(y);
        let z = lemma_first_outside(d, n, y);
        d.lemma_len_filter(|w: u64| w < z);
        vstd::set_lib::lemma_len_subset(below(d, z), smallest(d, n));
        assert(false);
    }
    if m.len() < n && m.len() >= d.len() {
        assert(m.len() == d.len());
    }
}

/// A fixed-count sketch that was empty and was then offered the finite set of
/// hashes `offered` holds `num` of them, or every one where fewer were offered.
pub proof fn lemma_fixed_count_size(empty: Sketch, filled: Sketch, offered: Set<u64>)
    requires
        empty.mins@.len() == 0,
        empty.mode is FixedCount,
        offered.finite(),
        filled.wf(),
        filled.hashes() == retained(empty.mode, empty.hashes().union(offered)),
    ensures
        filled.mins@.len() == if (empty.mode->num as nat) < offered.len() {
            empty.mode->num as nat
        } else {
            offered.len()
        },
{
    assert(empty.hashes().union(offered) =~= offered);
    lemma_smallest_count(filled.mins@, offered, empty.mode->num as nat);
}

} // verus!
