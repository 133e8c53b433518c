//! Algebraic laws of the permutation operations, proved once and for all.

use vstd::prelude::*;

use crate::perm::Group;
use crate::perm::all_distinct;
use crate::perm::compose_map;
use crate::perm::cycle_map;
use crate::perm::cycles_fold;
use crate::perm::elem_of;
use crate::perm::eval;
use crate::perm::is_decomposition;
use crate::perm::is_orbit;
use crate::perm::lemma_compose_eval;
use crate::perm::lemma_cycle_map_orbit;
use crate::perm::lemma_pairs_to_map_dom;
use crate::perm::lemma_pairs_to_map_value;
use crate::perm::pairs_to_map;
use crate::perm::spec_equals;
use crate::perm::valid_map;

verus! {

/// The identity permutation moves nothing: looking any element up in a
/// permutation with an empty mapping returns the element unchanged.
pub proof fn lemma_identity_get(g: Group, x: i64)
    requires
        g@ == Map::<i64, i64>::empty(),
    ensures
        g.spec_get(x) == x,
{
}

/// Extensional equality over the explicit domains extends to every element
/// whatsoever: two equal permutations compute the same image everywhere.
pub proof fn lemma_equals_pointwise(a: Map<i64, i64>, b: Map<i64, i64>, x: i64)
    requires
        spec_equals(a, b),
    ensures
        eval(a, x) == eval(b, x),
{
}

/// Equality of permutations is reflexive.
pub proof fn lemma_equals_reflexive(g: Group)
    ensures
        spec_equals(g@, g@),
{
}

/// A mapping whose every explicit entry is a fixed point is equal, as a
/// permutation, to the identity: redundant fixed-point entries do not
/// matter.
pub proof fn lemma_fixed_points_are_identity(m: Map<i64, i64>)
    requires
        forall|k: i64| m.dom().contains(k) ==> #[trigger] m[k] == k,
    ensures
        spec_equals(m, Map::<i64, i64>::empty()),
{
}

/// Building from pairs does not depend on the order of the pairs, as long
/// as no two pairs share a source: the pair list and its reversal denote
/// the same mapping.
pub proof fn lemma_from_pairs_order_independent(s: Seq<(i64, i64)>)
    requires
        forall|i: int, j: int|
            0 <= i < j < s.len() ==> (#[trigger] s[i]).0 != (#[trigger] s[j]).0,
    ensures
        pairs_to_map(s) == pairs_to_map(s.reverse()),
{
    let r = s.reverse();
    lemma_pairs_to_map_dom(s);
    lemma_pairs_to_map_dom(r);
    assert forall|k: i64| #[trigger]
        pairs_to_map(s).dom().contains(k) implies pairs_to_map(r).dom().contains(k)
        && pairs_to_map(r)[k] == pairs_to_map(s)[k] by {
        let i = choose|i: int| 0 <= i < s.len() && (#[trigger] s[i]).0 == k;
        let v = s[i].1;
        assert forall|j: int| 0 <= j < s.len() && (#[trigger] s[j]).0 == k implies s[j].1 == v by {
            if j < i {
                assert(s[j].0 != s[i].0);
            } else if j > i {
                assert(s[i].0 != s[j].0);
            }
        }
        lemma_pairs_to_map_value(s, k, v);
        assert(r[s.len() - 1 - i] == s[i]);
        assert(pairs_to_map(r).dom().contains(k));
        assert forall|j: int| 0 <= j < r.len() && (#[trigger] r[j]).0 == k implies r[j].1 == v by {
            assert(r[j] == s[s.len() - 1 - j]);
        }
        lemma_pairs_to_map_value(r, k, v);
    }
    assert forall|k: i64| #[trigger]
        pairs_to_map(r).dom().contains(k) implies pairs_to_map(s).dom().contains(k) by {
        let i = choose|i: int| 0 <= i < r.len() && (#[trigger] r[i]).0 == k;
        assert(s[s.len() - 1 - i] == r[i]);
    }
    assert(pairs_to_map(s) =~= pairs_to_map(r));
}

/// For two mappings that are permutations of disjoint explicit domains,
/// composition in either order computes the same total function.
proof fn lemma_disjoint_closed_commute(a: Map<i64, i64>, b: Map<i64, i64>, x: i64)
    requires
        forall|k: i64| !(#[trigger] a.dom().contains(k) && #[trigger] b.dom().contains(k)),
        forall|k: i64| a.dom().contains(k) ==> a.dom().contains(#[trigger] a[k]),
        forall|k: i64| b.dom().contains(k) ==> b.dom().contains(#[trigger] b[k]),
    ensures
        eval(a, eval(b, x)) == eval(b, eval(a, x)),
{
    if a.dom().contains(x) {
        assert(!b.dom().contains(x));
        assert(a.dom().contains(a[x]));
        assert(!b.dom().contains(a[x]));
    } else if b.dom().contains(x) {
        assert(b.dom().contains(b[x]));
        assert(!a.dom().contains(b[x]));
    }
}

/// Cycle lists with two disjoint, duplicate-free cycles build the same
/// permutation in either order: disjoint cycles commute.
pub proof fn lemma_from_cycles_disjoint_commutes(c1: Seq<i64>, c2: Seq<i64>)
    requires
        c1.len() > 0,
        c2.len() > 0,
        c1.no_duplicates(),
        c2.no_duplicates(),
        forall|i: int, j: int|
            0 <= i < c1.len() && 0 <= j < c2.len() ==> #[trigger] c1[i] != #[trigger] c2[j],
    ensures
        spec_equals(cycles_fold(seq![c1, c2], 2), cycles_fold(seq![c2, c1], 2)),
{
    let cm1 = cycle_map(c1);
    let cm2 = cycle_map(c2);
    lemma_cycle_map_orbit(c1);
    lemma_cycle_map_orbit(c2);
    assert forall|k: i64| !(#[trigger] cm1.dom().contains(k) && #[trigger] cm2.dom().contains(
        k,
    )) by {
        if cm1.dom().contains(k) && cm2.dom().contains(k) {
            assert(c1.contains(k));
            assert(c2.contains(k));
            let i = choose|i: int| 0 <= i < c1.len() && c1[i] == k;
            let j = choose|j: int| 0 <= j < c2.len() && c2[j] == k;
            assert(c1[i] != c2[j]);
        }
    }
    let a = cycles_fold(seq![c1, c2], 2);
    let b = cycles_fold(seq![c2, c1], 2);
    assert(seq![c1, c2][0] == c1 && seq![c1, c2][1] == c2);
    assert(seq![c2, c1][0] == c2 && seq![c2, c1][1] == c1);
    assert(cycles_fold(seq![c1, c2], 0) == Map::<i64, i64>::empty());
    assert(cycles_fold(seq![c2, c1], 0) == Map::<i64, i64>::empty());
    assert(cycles_fold(seq![c1, c2], 1) == compose_map(Map::<i64, i64>::empty(), cm1));
    assert(cycles_fold(seq![c2, c1], 1) == compose_map(Map::<i64, i64>::empty(), cm2));
    assert(a == compose_map(compose_map(Map::<i64, i64>::empty(), cm1), cm2));
    assert(b == compose_map(compose_map(Map::<i64, i64>::empty(), cm2), cm1));
    assert forall|k: i64|
        #![trigger eval(a, k)]
        #![trigger eval(b, k)]
        a.dom().contains(k) || b.dom().contains(k) implies eval(a, k) == eval(b, k) by {
        lemma_compose_eval(compose_map(Map::<i64, i64>::empty(), cm1), cm2, k);
        lemma_compose_eval(Map::<i64, i64>::empty(), cm1, eval(cm2, k));
        lemma_compose_eval(compose_map(Map::<i64, i64>::empty(), cm2), cm1, k);
        lemma_compose_eval(Map::<i64, i64>::empty(), cm2, eval(cm1, k));
        lemma_disjoint_closed_commute(cm1, cm2, k);
    }
}

/// The total function of a genuine permutation is injective on all of its
/// universe, not only on the explicit domain.
pub proof fn lemma_eval_injective(m: Map<i64, i64>, x: i64, y: i64)
    requires
        valid_map(m),
        eval(m, x) == eval(m, y),
    ensures
        x == y,
{
    if m.dom().contains(x) && !m.dom().contains(y) {
        assert(m.dom().contains(m[x]));
    }
    if !m.dom().contains(x) && m.dom().contains(y) {
        assert(m.dom().contains(m[y]));
    }
}

/// The identity permutation is a genuine permutation of its (empty)
/// explicit domain.
pub proof fn lemma_identity_valid()
    ensures
        valid_map(Map::<i64, i64>::empty()),
{
}

/// Composing two genuine permutations gives a genuine permutation again,
/// so its disjoint-cycle decomposition is always defined.
pub proof fn lemma_compose_valid(a: Map<i64, i64>, b: Map<i64, i64>)
    requires
        valid_map(a),
        valid_map(b),
    ensures
        valid_map(compose_map(a, b)),
{
    let c = compose_map(a, b);
    assert(c.dom().subset_of(a.dom().union(b.dom())));
    vstd::set_lib::lemma_len_subset(c.dom(), a.dom().union(b.dom()));
    assert forall|k: i64| c.dom().contains(k) implies c.dom().contains(#[trigger] c[k]) by {
        let v = eval(a, eval(b, k));
        assert(c[k] == v);
        if a.dom().contains(eval(b, k)) {
            assert(a.dom().contains(a[eval(b, k)]));
        } else {
            assert(v == eval(b, k));
            assert(b.dom().contains(k) ==> b.dom().contains(b[k]));
        }
        assert(a.dom().contains(v) || b.dom().contains(v));
        if eval(a, eval(b, v)) == v {
            lemma_eval_injective(a, eval(b, k), eval(b, v));
            lemma_eval_injective(b, k, v);
            assert(false);
        }
    }
    assert forall|k1: i64, k2: i64|
        c.dom().contains(k1) && c.dom().contains(k2) && #[trigger] c[k1] == #[trigger] c[k2] implies k1
        == k2 by {
        lemma_eval_injective(a, eval(b, k1), eval(b, k2));
        lemma_eval_injective(b, k1, k2);
    }
}

/// Composition of permutations is associative.
pub proof fn lemma_compose_associative(a: Map<i64, i64>, b: Map<i64, i64>, c: Map<i64, i64>)
    ensures
        spec_equals(
            compose_map(compose_map(a, b), c),
            compose_map(a, compose_map(b, c)),
        ),
{
    let l = compose_map(compose_map(a, b), c);
    let r = compose_map(a, compose_map(b, c));
    assert forall|k: i64|
        #![trigger eval(l, k)]
        #![trigger eval(r, k)]
        l.dom().contains(k) || r.dom().contains(k) implies eval(l, k) == eval(r, k) by {
        lemma_compose_eval(compose_map(a, b), c, k);
        lemma_compose_eval(a, b, eval(c, k));
        lemma_compose_eval(a, compose_map(b, c), k);
        lemma_compose_eval(b, c, k);
    }
}

/// `x` occurs in one of the first `n` cycles of the list.
pub open spec fn elem_of_prefix(cs: Seq<Seq<i64>>, n: int, x: i64) -> bool {
    exists|j: int, i: int|
        0 <= j < n && j < cs.len() && 0 <= i < cs[j].len() && #[trigger] cs[j][i] == x
}

/// Rebuilding from the first `n` orbits of a decomposition of `m` gives a
/// mapping that agrees with `m` on the elements of those orbits and fixes
/// everything else.
proof fn lemma_rebuild_prefix(m: Map<i64, i64>, cs: Seq<Seq<i64>>, n: int)
    requires
        0 <= n <= cs.len(),
        forall|j: int| 0 <= j < cs.len() ==> is_orbit(m, #[trigger] cs[j]),
        all_distinct(cs),
    ensures
        forall|x: i64| #[trigger]
            eval(cycles_fold(cs, n), x) == if elem_of_prefix(cs, n, x) {
                m[x]
            } else {
                x
            },
    decreases n,
{
    if n > 0 {
        lemma_rebuild_prefix(m, cs, n - 1);
        let c = cs[n - 1];
        let cm = cycle_map(c);
        let f = cycles_fold(cs, n - 1);
        lemma_cycle_map_orbit(c);
        assert forall|x: i64| #[trigger]
            eval(cycles_fold(cs, n), x) == if elem_of_prefix(cs, n, x) {
                m[x]
            } else {
                x
            } by {
            lemma_compose_eval(f, cm, x);
            if c.contains(x) {
                let i = choose|i: int| 0 <= i < c.len() && c[i] == x;
                assert(cm.dom().contains(x));
                let si: int = if i == c.len() - 1 {
                    0
                } else {
                    i + 1
                };
                assert(cm[c[i]] == c[si]);
                assert(m[c[i]] == c[si]);
                let v = c[si];
                assert(eval(cm, x) == v);
                assert(!elem_of_prefix(cs, n - 1, v)) by {
                    if elem_of_prefix(cs, n - 1, v) {
                        let (j, l) = choose|j: int, l: int|
                            0 <= j < n - 1 && j < cs.len() && 0 <= l < cs[j].len()
                                && #[trigger] cs[j][l] == v;
                        assert(cs[j][l] != cs[n - 1][si]);
                    }
                }
                assert(eval(f, v) == v);
                assert(elem_of_prefix(cs, n, x)) by {
                    assert(cs[n - 1][i] == x);
                }
            } else {
                assert(!cm.dom().contains(x));
                assert(eval(cm, x) == x);
                if elem_of_prefix(cs, n, x) {
                    let (j, l) = choose|j: int, l: int|
                        0 <= j < n && j < cs.len() && 0 <= l < cs[j].len() && #[trigger] cs[j][l]
                            == x;
                    if j == n - 1 {
                        assert(c.contains(x));
                    }
                    assert(elem_of_prefix(cs, n - 1, x));
                }
            }
        }
    }
}

/// Round trip: rebuilding a permutation from any disjoint-cycle
/// decomposition of it, in any order of the orbits and any rotation of
/// each, gives back an equal permutation.
pub proof fn lemma_decomposition_rebuild(m: Map<i64, i64>, cs: Seq<Seq<i64>>)
    requires
        is_decomposition(m, cs),
    ensures
        spec_equals(cycles_fold(cs, cs.len() as int), m),
{
    let n = cs.len() as int;
    lemma_rebuild_prefix(m, cs, n);
    let f = cycles_fold(cs, n);
    assert forall|k: i64|
        #![trigger eval(f, k)]
        #![trigger eval(m, k)]
        f.dom().contains(k) || m.dom().contains(k) implies eval(f, k) == eval(m, k) by {
        assert(eval(f, k) == if elem_of_prefix(cs, n, k) {
            m[k]
        } else {
            k
        });
        if elem_of_prefix(cs, n, k) {
            let (j, i) = choose|j: int, i: int|
                0 <= j < n && j < cs.len() && 0 <= i < cs[j].len() && #[trigger] cs[j][i] == k;
            assert(is_orbit(m, cs[j]));
            assert(m.dom().contains(cs[j][i]));
        } else {
            if m.dom().contains(k) {
                assert(elem_of(cs, k));
                let (j, i) = choose|j: int, i: int|
                    0 <= j < cs.len() && 0 <= i < cs[j].len() && #[trigger] cs[j][i] == k;
                assert(elem_of_prefix(cs, n, k));
            }
        }
    }
}

} // verus!
