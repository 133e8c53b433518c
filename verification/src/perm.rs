//! The permutation type and its operations.

use vstd::prelude::*;

verus! {

/// A finite permutation of the integers, stored sparsely: only entries for
/// elements that are explicitly mapped are kept, and every other element is
/// an implicit fixed point. Entries are kept in insertion order; a later
/// entry for the same source overrides an earlier one (last write wins),
/// which is exactly what the view [`pairs_to_map`] says.
#[derive(Debug)]
pub struct Group {
    entries: Vec<(i64, i64)>,
}

/// The mapping that a sequence of `(source, image)` pairs denotes, with a
/// later pair for the same source overriding an earlier one.
pub open spec fn pairs_to_map(s: Seq<(i64, i64)>) -> Map<i64, i64>
    decreases s.len(),
{
    if s.len() == 0 {
        Map::empty()
    } else {
        pairs_to_map(s.drop_last()).insert(s.last().0, s.last().1)
    }
}

/// The total function a sparse mapping denotes: the stored image where one
/// exists, the element itself everywhere else.
pub open spec fn eval(m: Map<i64, i64>, x: i64) -> i64 {
    if m.dom().contains(x) {
        m[x]
    } else {
        x
    }
}

/// Two sparse mappings denote the same permutation: they agree, as total
/// functions, on every element that either lists explicitly (and hence, as
/// [`lemma_equals_pointwise`](crate::laws::lemma_equals_pointwise) shows, on
/// every element whatsoever).
pub open spec fn spec_equals(a: Map<i64, i64>, b: Map<i64, i64>) -> bool {
    forall|k: i64|
        #![trigger eval(a, k)]
        #![trigger eval(b, k)]
        a.dom().contains(k) || b.dom().contains(k) ==> eval(a, k) == eval(b, k)
}

/// Why a constructor rejected its input.
#[derive(Clone, Copy, Debug, PartialEq, Eq, Structural)]
pub enum PermError {
    /// An empty sequence was given where a non-empty cycle was needed.
    EmptyCycle,
}

/// The mapping a cycle's first `n` forward edges denote: `c[i]` maps to
/// `c[i + 1]` for `i` below `n`, later edges overriding earlier ones.
pub open spec fn cycle_edges(c: Seq<i64>, n: int) -> Map<i64, i64>
    decreases n,
{
    if n <= 0 {
        Map::empty()
    } else {
        cycle_edges(c, n - 1).insert(c[n - 1], c[n])
    }
}

/// The mapping a non-empty cycle denotes: each element maps to the next,
/// and the last maps back to the first.
pub open spec fn cycle_map(c: Seq<i64>) -> Map<i64, i64>
    recommends
        c.len() > 0,
{
    cycle_edges(c, c.len() - 1).insert(c[c.len() - 1], c[0])
}

/// The mapping the first `n` cycles of a cycle list denote: starting from
/// the identity, the cycles are composed one after the other, each new
/// cycle applied before the permutation built so far. For disjoint cycles
/// this is simply their union; for overlapping ones it is sequential
/// application.
pub open spec fn cycles_fold(cs: Seq<Seq<i64>>, n: int) -> Map<i64, i64>
    decreases n,
{
    if n <= 0 {
        Map::empty()
    } else {
        compose_map(cycles_fold(cs, n - 1), cycle_map(cs[n - 1]))
    }
}

/// `c` lists one complete orbit of the mapping `m`: every listed element is
/// in `m`'s explicit domain, each maps to the next listed element, and the
/// last maps back to the first.
pub open spec fn is_orbit(m: Map<i64, i64>, c: Seq<i64>) -> bool {
    &&& c.len() > 0
    &&& forall|i: int| 0 <= i < c.len() ==> m.dom().contains(#[trigger] c[i])
    &&& forall|i: int| 0 <= i < c.len() - 1 ==> m[#[trigger] c[i]] == c[i + 1]
    &&& m[c[c.len() - 1]] == c[0]
}

/// `x` occurs somewhere in the list of cycles.
pub open spec fn elem_of(cs: Seq<Seq<i64>>, x: i64) -> bool {
    exists|j: int, i: int| 0 <= j < cs.len() && 0 <= i < cs[j].len() && #[trigger] cs[j][i] == x
}

/// No element occurs twice anywhere in the list of cycles, neither within
/// one cycle nor across two.
pub open spec fn all_distinct(cs: Seq<Seq<i64>>) -> bool {
    &&& forall|j: int| 0 <= j < cs.len() ==> (#[trigger] cs[j]).no_duplicates()
    &&& forall|j1: int, i1: int, j2: int, i2: int|
        #![trigger cs[j1][i1], cs[j2][i2]]
        0 <= j1 < cs.len() && 0 <= j2 < cs.len() && j1 != j2 && 0 <= i1 < cs[j1].len() && 0 <= i2
            < cs[j2].len() ==> cs[j1][i1] != cs[j2][i2]
}

/// `cs` is the disjoint-cycle decomposition of `m`: each listed cycle is a
/// complete orbit of `m`, no element occurs twice, and every element of
/// `m`'s explicit domain occurs.
pub open spec fn is_decomposition(m: Map<i64, i64>, cs: Seq<Seq<i64>>) -> bool {
    &&& forall|j: int| 0 <= j < cs.len() ==> is_orbit(m, #[trigger] cs[j])
    &&& all_distinct(cs)
    &&& forall|k: i64| #[trigger] m.dom().contains(k) ==> elem_of(cs, k)
}

/// Walking an injective mapping from the head of a duplicate-free chain
/// cannot revisit the chain except at its head: the next element after the
/// chain's last is either the head or fresh.
proof fn lemma_chain_next_fresh(m: Map<i64, i64>, c: Seq<i64>, curr: i64)
    requires
        forall|k1: i64, k2: i64|
            m.dom().contains(k1) && m.dom().contains(k2) && #[trigger] m[k1] == #[trigger] m[k2]
                ==> k1 == k2,
        c.len() > 0,
        c.no_duplicates(),
        forall|i: int| 0 <= i < c.len() ==> m.dom().contains(#[trigger] c[i]),
        forall|i: int| 0 <= i < c.len() - 1 ==> m[#[trigger] c[i]] == c[i + 1],
        m[c[c.len() - 1]] == curr,
        curr != c[0],
    ensures
        !c.contains(curr),
{
    if c.contains(curr) {
        let i = choose|i: int| 0 <= i < c.len() && c[i] == curr;
        assert(i > 0);
        assert(m[c[i - 1]] == c[i]);
        assert(m[c[c.len() - 1]] == curr);
        assert(c[i - 1] == c[c.len() - 1]);
        assert(i - 1 == c.len() - 1);
        assert(false);
    }
}

/// Pushing a fresh element onto a duplicate-free sequence keeps it
/// duplicate-free.
proof fn lemma_push_no_dup(s: Seq<i64>, x: i64)
    requires
        s.no_duplicates(),
        !s.contains(x),
    ensures
        s.push(x).no_duplicates(),
{
    assert forall|i: int, j: int|
        0 <= i < s.push(x).len() && 0 <= j < s.push(x).len() && i != j implies s.push(x)[i]
        != s.push(x)[j] by {
        if i < s.len() && j < s.len() {
        } else if j == s.len() {
            if s[i] == x {
                assert(s.contains(x));
            }
        } else {
            if s[j] == x {
                assert(s.contains(x));
            }
        }
    }
}

/// Appending one freshly walked orbit to a partial decomposition keeps
/// every decomposition invariant: elements stay within the domain, the
/// visited elements are exactly the listed ones, every visited element has
/// a visited predecessor, all listed cycles are orbits, and no element is
/// listed twice.
#[verifier::rlimit(100)]
proof fn lemma_extend_decomposition(
    m: Map<i64, i64>,
    found0: Seq<Seq<i64>>,
    visited0: Seq<i64>,
    cyc: Seq<i64>,
    visited1: Seq<i64>,
)
    requires
        forall|x: i64| #[trigger] visited0.contains(x) ==> m.dom().contains(x),
        forall|x: i64| #[trigger] visited0.contains(x) <==> elem_of(found0, x),
        forall|x: i64| #[trigger]
            visited0.contains(x) ==> exists|y: i64|
                visited0.contains(y) && m.dom().contains(y) && m[y] == x,
        forall|j: int| 0 <= j < found0.len() ==> is_orbit(m, #[trigger] found0[j]),
        all_distinct(found0),
        cyc.no_duplicates(),
        is_orbit(m, cyc),
        forall|i: int| 0 <= i < cyc.len() ==> !visited0.contains(#[trigger] cyc[i]),
        visited1 == visited0 + cyc,
    ensures
        forall|x: i64| #[trigger] visited1.contains(x) ==> m.dom().contains(x),
        forall|x: i64| #[trigger] visited1.contains(x) <==> elem_of(found0.push(cyc), x),
        forall|x: i64| #[trigger]
            visited1.contains(x) ==> exists|y: i64|
                visited1.contains(y) && m.dom().contains(y) && m[y] == x,
        forall|j: int| 0 <= j < found0.push(cyc).len() ==> is_orbit(m, #[trigger] found0.push(cyc)[j]),
        all_distinct(found0.push(cyc)),
{
    broadcast use vstd::seq_lib::lemma_seq_concat_contains_all_elements;

    let dv = found0.push(cyc);
    assert forall|x: i64| #[trigger] visited1.contains(x) implies m.dom().contains(x) by {
        if cyc.contains(x) {
            let i = choose|i: int| 0 <= i < cyc.len() && cyc[i] == x;
            assert(m.dom().contains(cyc[i]));
        }
    }
    assert forall|x: i64| #[trigger] visited1.contains(x) implies elem_of(dv, x) by {
        if cyc.contains(x) {
            let i = choose|i: int| 0 <= i < cyc.len() && cyc[i] == x;
            assert(dv[found0.len() as int][i] == x);
        } else {
            assert(visited0.contains(x));
            assert(elem_of(found0, x));
            let (j, i) = choose|j: int, i: int|
                0 <= j < found0.len() && 0 <= i < found0[j].len() && #[trigger] found0[j][i] == x;
            assert(dv[j][i] == x);
        }
    }
    assert forall|x: i64| elem_of(dv, x) implies #[trigger] visited1.contains(x) by {
        let (j, i) = choose|j: int, i: int|
            0 <= j < dv.len() && 0 <= i < dv[j].len() && #[trigger] dv[j][i] == x;
        if j < found0.len() {
            assert(found0[j][i] == x);
            assert(elem_of(found0, x));
            assert(visited0.contains(x));
        } else {
            assert(cyc[i] == x);
            assert(cyc.contains(x));
        }
    }
    assert forall|x: i64| #[trigger] visited1.contains(x) implies exists|y: i64|
        visited1.contains(y) && m.dom().contains(y) && m[y] == x by {
        if cyc.contains(x) {
            let i = choose|i: int| 0 <= i < cyc.len() && cyc[i] == x;
            if i > 0 {
                let y = cyc[i - 1];
                assert(m[y] == cyc[i]);
                assert(cyc.contains(y));
                assert(visited1.contains(y) && m.dom().contains(y) && m[y] == x);
            } else {
                let y = cyc[cyc.len() - 1];
                assert(m[y] == cyc[0]);
                assert(cyc.contains(y));
                assert(visited1.contains(y) && m.dom().contains(y) && m[y] == x);
            }
        } else {
            assert(visited0.contains(x));
            let y = choose|y: i64| visited0.contains(y) && m.dom().contains(y) && m[y] == x;
            assert(visited1.contains(y) && m.dom().contains(y) && m[y] == x);
        }
    }
    assert forall|j: int| 0 <= j < dv.len() implies is_orbit(m, #[trigger] dv[j]) by {
        if j < found0.len() {
            assert(dv[j] == found0[j]);
        } else {
            assert(dv[j] == cyc);
        }
    }
    assert forall|j: int| 0 <= j < dv.len() implies (#[trigger] dv[j]).no_duplicates() by {
        if j < found0.len() {
            assert(dv[j] == found0[j]);
        } else {
            assert(dv[j] == cyc);
        }
    }
    assert forall|j1: int, i1: int, j2: int, i2: int|
        #![trigger dv[j1][i1], dv[j2][i2]]
        0 <= j1 < dv.len() && 0 <= j2 < dv.len() && j1 != j2 && 0 <= i1 < dv[j1].len() && 0 <= i2
            < dv[j2].len() implies dv[j1][i1] != dv[j2][i2] by {
        if j1 < found0.len() && j2 < found0.len() {
        } else if j1 == found0.len() {
            assert(dv[j1][i1] == cyc[i1]);
            assert(!visited0.contains(cyc[i1]));
            assert(found0[j2][i2] == dv[j2][i2]);
            assert(elem_of(found0, found0[j2][i2]));
            assert(visited0.contains(found0[j2][i2]));
        } else {
            assert(dv[j2][i2] == cyc[i2]);
            assert(!visited0.contains(cyc[i2]));
            assert(found0[j1][i1] == dv[j1][i1]);
            assert(elem_of(found0, found0[j1][i1]));
            assert(visited0.contains(found0[j1][i1]));
        }
    }
}

/// The mapping is a genuine permutation of its explicit domain: the domain
/// is finite, every explicit image lies in the domain again, and no two
/// domain elements share an image.
pub open spec fn valid_map(m: Map<i64, i64>) -> bool {
    &&& m.dom().finite()
    &&& forall|k: i64| m.dom().contains(k) ==> m.dom().contains(#[trigger] m[k])
    &&& forall|k1: i64, k2: i64|
        m.dom().contains(k1) && m.dom().contains(k2) && #[trigger] m[k1] == #[trigger] m[k2]
            ==> k1 == k2
}

/// The edge mapping of a duplicate-free cycle prefix: its domain is the
/// first `n` elements, each sent to its successor.
proof fn lemma_cycle_edges_props(c: Seq<i64>, n: int)
    requires
        0 <= n < c.len(),
        c.no_duplicates(),
    ensures
        cycle_edges(c, n).dom().finite(),
        forall|k: i64| #[trigger]
            cycle_edges(c, n).dom().contains(k) <==> exists|i: int| 0 <= i < n && #[trigger] c[i] == k,
        forall|i: int| 0 <= i < n ==> cycle_edges(c, n)[#[trigger] c[i]] == c[i + 1],
    decreases n,
{
    if n > 0 {
        lemma_cycle_edges_props(c, n - 1);
        assert forall|k: i64| #[trigger]
            cycle_edges(c, n).dom().contains(k) implies exists|i: int|
            0 <= i < n && #[trigger] c[i] == k by {
            if k == c[n - 1] {
                assert(c[n - 1] == k);
            } else {
                let i = choose|i: int| 0 <= i < n - 1 && #[trigger] c[i] == k;
                assert(c[i] == k);
            }
        }
        assert forall|i: int| 0 <= i < n implies cycle_edges(c, n)[#[trigger] c[i]] == c[i + 1] by {
            if i < n - 1 {
                assert(c[i] != c[n - 1]);
            }
        }
    }
}

/// A duplicate-free, non-empty cycle denotes a genuine permutation whose
/// explicit domain is exactly the cycle's elements, each sent to the next
/// element around the cycle.
pub proof fn lemma_cycle_map_orbit(c: Seq<i64>)
    requires
        c.len() > 0,
        c.no_duplicates(),
    ensures
        is_orbit(cycle_map(c), c),
        forall|k: i64| #[trigger] cycle_map(c).dom().contains(k) <==> c.contains(k),
        valid_map(cycle_map(c)),
{
    let m = cycle_map(c);
    let n = c.len() - 1;
    lemma_cycle_edges_props(c, n);
    assert forall|k: i64| #[trigger] m.dom().contains(k) implies c.contains(k) by {
        if k == c[n] {
            assert(c[n] == k);
        } else {
            let i = choose|i: int| 0 <= i < n && #[trigger] c[i] == k;
            assert(c[i] == k);
        }
    }
    assert forall|k: i64| c.contains(k) implies #[trigger] m.dom().contains(k) by {
        let i = choose|i: int| 0 <= i < c.len() && #[trigger] c[i] == k;
        if i < n {
            assert(cycle_edges(c, n).dom().contains(k));
        }
    }
    assert forall|i: int| 0 <= i < c.len() - 1 implies m[#[trigger] c[i]] == c[i + 1] by {
        assert(c[i] != c[n]);
        assert(cycle_edges(c, n)[c[i]] == c[i + 1]);
    }
    assert forall|i: int| 0 <= i < c.len() implies m.dom().contains(#[trigger] c[i]) by {
        assert(c.contains(c[i]));
    }
    assert forall|k: i64| m.dom().contains(k) implies m.dom().contains(#[trigger] m[k]) by {
        let i = choose|i: int| 0 <= i < c.len() && #[trigger] c[i] == k;
        if i < n {
            assert(m[k] == c[i + 1]);
            assert(c.contains(c[i + 1]));
        } else {
            assert(m[k] == c[0]);
            assert(c.contains(c[0]));
        }
    }
    assert forall|k1: i64, k2: i64|
        m.dom().contains(k1) && m.dom().contains(k2) && #[trigger] m[k1] == #[trigger] m[k2] implies k1
        == k2 by {
        let i = choose|i: int| 0 <= i < c.len() && #[trigger] c[i] == k1;
        let j = choose|j: int| 0 <= j < c.len() && #[trigger] c[j] == k2;
        let si: int = if i == n { 0 } else { i + 1 };
        let sj: int = if j == n { 0 } else { j + 1 };
        assert(m[k1] == c[si]);
        assert(m[k2] == c[sj]);
        assert(si == sj);
        assert(i == j);
    }
}

/// The composition "apply `b`, then `a`" as a sparse mapping: every element
/// of either explicit domain whose composed image differs from itself is
/// listed with that image, and nothing else is listed. Elements outside both
/// domains are fixed by both, so the result denotes exactly the composed
/// total function (see [`lemma_compose_eval`]).
pub open spec fn compose_map(a: Map<i64, i64>, b: Map<i64, i64>) -> Map<i64, i64> {
    Map::new(
        |k: i64| (a.dom().contains(k) || b.dom().contains(k)) && eval(a, eval(b, k)) != k,
        |k: i64| eval(a, eval(b, k)),
    )
}

/// The sparse composition denotes exactly the composition of the denoted
/// total functions, at every element.
pub proof fn lemma_compose_eval(a: Map<i64, i64>, b: Map<i64, i64>, x: i64)
    ensures
        eval(compose_map(a, b), x) == eval(a, eval(b, x)),
{
    if !compose_map(a, b).dom().contains(x) {
        if !(a.dom().contains(x) || b.dom().contains(x)) {
            assert(eval(b, x) == x);
            assert(eval(a, x) == x);
        }
    }
}

/// The domain of the denoted mapping is exactly the set of listed sources,
/// and it is finite.
pub proof fn lemma_pairs_to_map_dom(s: Seq<(i64, i64)>)
    ensures
        pairs_to_map(s).dom().finite(),
        forall|k: i64| #[trigger]
            pairs_to_map(s).dom().contains(k) <==> exists|i: int|
                0 <= i < s.len() && (#[trigger] s[i]).0 == k,
    decreases s.len(),
{
    if s.len() == 0 {
    } else {
        lemma_pairs_to_map_dom(s.drop_last());
        assert forall|k: i64| #[trigger]
            pairs_to_map(s).dom().contains(k) implies exists|i: int|
            0 <= i < s.len() && (#[trigger] s[i]).0 == k by {
            if s.last().0 == k {
                assert(s[s.len() - 1].0 == k);
            } else {
                let i = choose|i: int| 0 <= i < s.drop_last().len() && (#[trigger] s.drop_last()[i]).0 == k;
                assert(s[i].0 == k);
            }
        }
        assert forall|k: i64|
            (exists|i: int| 0 <= i < s.len() && (#[trigger] s[i]).0 == k) implies #[trigger]
            pairs_to_map(s).dom().contains(k) by {
            let i = choose|i: int| 0 <= i < s.len() && (#[trigger] s[i]).0 == k;
            if i < s.len() - 1 {
                assert(s.drop_last()[i].0 == k);
            }
        }
    }
}

/// If every listed pair for source `k` carries the same image `v`, then the
/// denoted mapping sends `k` to `v`.
pub proof fn lemma_pairs_to_map_value(s: Seq<(i64, i64)>, k: i64, v: i64)
    requires
        forall|i: int| 0 <= i < s.len() && (#[trigger] s[i]).0 == k ==> s[i].1 == v,
        pairs_to_map(s).dom().contains(k),
    ensures
        pairs_to_map(s)[k] == v,
    decreases s.len(),
{
    lemma_pairs_to_map_dom(s);
    if s.last().0 == k {
        assert(s[s.len() - 1].0 == k);
    } else {
        lemma_pairs_to_map_dom(s.drop_last());
        let i = choose|i: int| 0 <= i < s.len() && (#[trigger] s[i]).0 == k;
        assert(s.drop_last()[i].0 == k);
        assert forall|i: int|
            0 <= i < s.drop_last().len() && (#[trigger] s.drop_last()[i]).0 == k implies s.drop_last()[i].1
            == v by {
            assert(s[i].0 == k);
        }
        lemma_pairs_to_map_value(s.drop_last(), k, v);
    }
}

/// Linear membership scan.
fn contains_elem(v: &Vec<i64>, x: i64) -> (r: bool)
    ensures
        r == v@.contains(x),
{
    let mut i: usize = 0;
    while i < v.len()
        invariant
            i <= v@.len(),
            forall|j: int| 0 <= j < i ==> v@[j] != x,
        decreases v@.len() - i,
    {
        if v[i] == x {
            proof {
                assert(v@[i as int] == x);
            }
            return true;
        }
        i = i + 1;
    }
    false
}

impl View for Group {
    type V = Map<i64, i64>;

    closed spec fn view(&self) -> Map<i64, i64> {
        pairs_to_map(self.entries@)
    }
}

impl Group {
    /// The total function this permutation denotes, at `x`.
    pub open spec fn spec_get(self, x: i64) -> i64 {
        eval(self@, x)
    }

    /// The identity permutation: no explicit entries, every element a fixed
    /// point.
    pub fn id() -> (r: Group)
        ensures
            r@ == Map::<i64, i64>::empty(),
    {
        Group { entries: Vec::new() }
    }

    /// The image of `x`: the stored image if `x` has an explicit entry,
    /// otherwise `x` itself.
    pub fn get(&self, x: i64) -> (r: i64)
        ensures
            r == self.spec_get(x),
    {
        let mut r = x;
        let mut i: usize = 0;
        while i < self.entries.len()
            invariant
                i <= self.entries@.len(),
                r == eval(pairs_to_map(self.entries@.take(i as int)), x),
            decreases self.entries@.len() - i,
        {
            proof {
                assert(self.entries@.take(i + 1).drop_last() =~= self.entries@.take(i as int));
                assert(self.entries@.take(i + 1).last() == self.entries@[i as int]);
            }
            if self.entries[i].0 == x {
                r = self.entries[i].1;
            }
            i = i + 1;
        }
        proof {
            assert(self.entries@.take(self.entries@.len() as int) =~= self.entries@);
        }
        r
    }

    /// Function composition: the permutation that applies `rhs` first and
    /// then `self`, so that for every element `k` the result's image of `k`
    /// is `self`'s image of `rhs`'s image of `k`. Only elements actually
    /// moved by the composition are listed in the result.
    pub fn compose(&self, rhs: &Group) -> (r: Group)
        ensures
            r@ == compose_map(self@, rhs@),
    {
        let mut entries: Vec<(i64, i64)> = Vec::new();
        let mut i: usize = 0;
        while i < self.entries.len()
            invariant
                i <= self.entries@.len(),
                forall|l: int|
                    0 <= l < entries@.len() ==> {
                        let p = #[trigger] entries@[l];
                        &&& self@.dom().contains(p.0) || rhs@.dom().contains(p.0)
                        &&& eval(self@, eval(rhs@, p.0)) != p.0
                        &&& p.1 == eval(self@, eval(rhs@, p.0))
                    },
                forall|j: int|
                    0 <= j < i ==> {
                        let k = (#[trigger] self.entries@[j]).0;
                        eval(self@, eval(rhs@, k)) != k ==> exists|l: int|
                            0 <= l < entries@.len() && (#[trigger] entries@[l]).0 == k
                    },
            decreases self.entries@.len() - i,
        {
            let k = self.entries[i].0;
            let v = self.get(rhs.get(k));
            if v != k {
                proof {
                    lemma_pairs_to_map_dom(self.entries@);
                    assert(self.entries@[i as int].0 == k);
                    assert(self@.dom().contains(k));
                }
                let ghost pre = entries@;
                entries.push((k, v));
                proof {
                    assert(entries@[pre.len() as int].0 == k);
                    assert forall|j: int|
                        0 <= j < i + 1 && eval(
                            self@,
                            eval(rhs@, (#[trigger] self.entries@[j]).0),
                        ) != self.entries@[j].0 implies exists|l: int|
                        0 <= l < entries@.len() && (#[trigger] entries@[l]).0
                            == self.entries@[j].0 by {
                        let kk = self.entries@[j].0;
                        if j < i {
                            let l = choose|l: int| 0 <= l < pre.len() && (#[trigger] pre[l]).0 == kk;
                            assert(entries@[l].0 == kk);
                        } else {
                            assert(entries@[pre.len() as int].0 == kk);
                        }
                    }
                }
            }
            i = i + 1;
        }
        let mut i: usize = 0;
        while i < rhs.entries.len()
            invariant
                i <= rhs.entries@.len(),
                forall|l: int|
                    0 <= l < entries@.len() ==> {
                        let p = #[trigger] entries@[l];
                        &&& self@.dom().contains(p.0) || rhs@.dom().contains(p.0)
                        &&& eval(self@, eval(rhs@, p.0)) != p.0
                        &&& p.1 == eval(self@, eval(rhs@, p.0))
                    },
                forall|j: int|
                    0 <= j < self.entries@.len() ==> {
                        let k = (#[trigger] self.entries@[j]).0;
                        eval(self@, eval(rhs@, k)) != k ==> exists|l: int|
                            0 <= l < entries@.len() && (#[trigger] entries@[l]).0 == k
                    },
                forall|j: int|
                    0 <= j < i ==> {
                        let k = (#[trigger] rhs.entries@[j]).0;
                        eval(self@, eval(rhs@, k)) != k ==> exists|l: int|
                            0 <= l < entries@.len() && (#[trigger] entries@[l]).0 == k
                    },
            decreases rhs.entries@.len() - i,
        {
            let k = rhs.entries[i].0;
            let v = self.get(rhs.get(k));
            if v != k {
                proof {
                    lemma_pairs_to_map_dom(rhs.entries@);
                    assert(rhs.entries@[i as int].0 == k);
                    assert(rhs@.dom().contains(k));
                }
                let ghost pre = entries@;
                entries.push((k, v));
                proof {
                    assert(entries@[pre.len() as int].0 == k);
                    assert forall|j: int|
                        0 <= j < self.entries@.len() && eval(
                            self@,
                            eval(rhs@, (#[trigger] self.entries@[j]).0),
                        ) != self.entries@[j].0 implies exists|l: int|
                        0 <= l < entries@.len() && (#[trigger] entries@[l]).0
                            == self.entries@[j].0 by {
                        let kk = self.entries@[j].0;
                        let l = choose|l: int| 0 <= l < pre.len() && (#[trigger] pre[l]).0 == kk;
                        assert(entries@[l].0 == kk);
                    }
                    assert forall|j: int|
                        0 <= j < i + 1 && eval(
                            self@,
                            eval(rhs@, (#[trigger] rhs.entries@[j]).0),
                        ) != rhs.entries@[j].0 implies exists|l: int|
                        0 <= l < entries@.len() && (#[trigger] entries@[l]).0
                            == rhs.entries@[j].0 by {
                        let kk = rhs.entries@[j].0;
                        if j < i {
                            let l = choose|l: int| 0 <= l < pre.len() && (#[trigger] pre[l]).0 == kk;
                            assert(entries@[l].0 == kk);
                        } else {
                            assert(entries@[pre.len() as int].0 == kk);
                        }
                    }
                }
            }
            i = i + 1;
        }
        proof {
            let pm = pairs_to_map(entries@);
            let cm = compose_map(self@, rhs@);
            lemma_pairs_to_map_dom(entries@);
            lemma_pairs_to_map_dom(self.entries@);
            lemma_pairs_to_map_dom(rhs.entries@);
            assert forall|k: i64| #[trigger]
                pm.dom().contains(k) implies cm.dom().contains(k) && pm[k] == cm[k] by {
                let l = choose|l: int| 0 <= l < entries@.len() && (#[trigger] entries@[l]).0 == k;
                let v = eval(self@, eval(rhs@, k));
                assert(entries@[l].1 == v);
                lemma_pairs_to_map_value(entries@, k, v);
            }
            assert forall|k: i64| #[trigger] cm.dom().contains(k) implies pm.dom().contains(k) by {
                if self@.dom().contains(k) {
                    let j = choose|j: int|
                        0 <= j < self.entries@.len() && (#[trigger] self.entries@[j]).0 == k;
                    assert(eval(self@, eval(rhs@, k)) != k);
                } else {
                    let j = choose|j: int|
                        0 <= j < rhs.entries@.len() && (#[trigger] rhs.entries@[j]).0 == k;
                    assert(eval(self@, eval(rhs@, k)) != k);
                }
            }
            assert(pm =~= cm);
        }
        Group { entries }
    }

    /// Builds the permutation a non-empty cycle denotes: each element maps
    /// to the next one listed, and the last maps back to the first. An empty
    /// sequence is rejected rather than read out of bounds.
    pub fn from_cycle(c: &Vec<i64>) -> (r: Result<Group, PermError>)
        ensures
            c@.len() == 0 ==> (r matches Err(e) && e == PermError::EmptyCycle),
            c@.len() > 0 ==> (r matches Ok(g) && g@ == cycle_map(c@)),
    {
        if c.len() == 0 {
            return Err(PermError::EmptyCycle);
        }
        let mut entries: Vec<(i64, i64)> = Vec::new();
        let mut i: usize = 0;
        while i < c.len() - 1
            invariant
                c@.len() > 0,
                i <= c@.len() - 1,
                pairs_to_map(entries@) == cycle_edges(c@, i as int),
            decreases c@.len() - 1 - i,
        {
            let ghost pre = entries@;
            entries.push((c[i], c[i + 1]));
            proof {
                assert(entries@.drop_last() =~= pre);
            }
            i = i + 1;
        }
        let ghost pre = entries@;
        entries.push((c[c.len() - 1], c[0]));
        proof {
            assert(entries@.drop_last() =~= pre);
        }
        Ok(Group { entries })
    }

    /// Builds a permutation from a list of cycles by composing them in the
    /// given order on top of the identity. Disjoint cycles (the intended
    /// use) yield their union; overlapping cycles apply sequentially, later
    /// cycles acting on the result of earlier ones. Any empty inner
    /// sequence is rejected.
    pub fn from_cycles(cs: &Vec<Vec<i64>>) -> (r: Result<Group, PermError>)
        ensures
            (exists|j: int| 0 <= j < cs@.len() && (#[trigger] cs@[j])@.len() == 0) ==> (r matches
                Err(e) && e == PermError::EmptyCycle),
            (forall|j: int| 0 <= j < cs@.len() ==> (#[trigger] cs@[j])@.len() > 0) ==> (r matches
                Ok(g) && g@ == cycles_fold(cs.deep_view(), cs@.len() as int)),
    {
        proof {
            assert forall|j: int| 0 <= j < cs@.len() implies cs.deep_view()[j] == (#[trigger] cs@[j])@ by {}
        }
        let mut acc = Group::id();
        let mut i: usize = 0;
        while i < cs.len()
            invariant
                i <= cs@.len(),
                forall|j: int| 0 <= j < i ==> (#[trigger] cs@[j])@.len() > 0,
                acc@ == cycles_fold(cs.deep_view(), i as int),
                forall|j: int| 0 <= j < cs@.len() ==> (#[trigger] cs.deep_view()[j]) == cs@[j]@,
            decreases cs@.len() - i,
        {
            let step = match Group::from_cycle(&cs[i]) {
                Ok(g) => g,
                Err(e) => {
                    return Err(e);
                },
            };
            acc = acc.compose(&step);
            proof {
                assert(step@ == cycle_map(cs.deep_view()[i as int]));
            }
            i = i + 1;
        }
        Ok(acc)
    }

    /// Extensional equality: true exactly when this permutation and `other`
    /// agree, as total functions, on every explicitly listed element of
    /// either. Storage layout, insertion order and redundant fixed-point
    /// entries do not matter.
    pub fn equals(&self, other: &Group) -> (r: bool)
        ensures
            r == spec_equals(self@, other@),
    {
        let mut i: usize = 0;
        while i < self.entries.len()
            invariant
                i <= self.entries@.len(),
                forall|j: int|
                    0 <= j < i ==> eval(self@, (#[trigger] self.entries@[j]).0) == eval(
                        other@,
                        self.entries@[j].0,
                    ),
            decreases self.entries@.len() - i,
        {
            let k = self.entries[i].0;
            if self.get(k) != other.get(k) {
                proof {
                    lemma_pairs_to_map_dom(self.entries@);
                    assert(self.entries@[i as int].0 == k);
                    assert(self@.dom().contains(k));
                }
                return false;
            }
            i = i + 1;
        }
        let mut i: usize = 0;
        while i < other.entries.len()
            invariant
                i <= other.entries@.len(),
                forall|j: int|
                    0 <= j < self.entries@.len() ==> eval(self@, (#[trigger] self.entries@[j]).0)
                        == eval(other@, self.entries@[j].0),
                forall|j: int|
                    0 <= j < i ==> eval(self@, (#[trigger] other.entries@[j]).0) == eval(
                        other@,
                        other.entries@[j].0,
                    ),
            decreases other.entries@.len() - i,
        {
            let k = other.entries[i].0;
            if self.get(k) != other.get(k) {
                proof {
                    lemma_pairs_to_map_dom(other.entries@);
                    assert(other.entries@[i as int].0 == k);
                    assert(other@.dom().contains(k));
                }
                return false;
            }
            i = i + 1;
        }
        proof {
            lemma_pairs_to_map_dom(self.entries@);
            lemma_pairs_to_map_dom(other.entries@);
            assert forall|k: i64|
                #![trigger eval(pairs_to_map(self.entries@), k)]
                #![trigger eval(pairs_to_map(other.entries@), k)]
                self@.dom().contains(k) || other@.dom().contains(k) implies eval(self@, k) == eval(
                other@,
                k,
            ) by {
                if self@.dom().contains(k) {
                    let j = choose|j: int|
                        0 <= j < self.entries@.len() && (#[trigger] self.entries@[j]).0 == k;
                    assert(eval(self@, self.entries@[j].0) == eval(other@, self.entries@[j].0));
                } else {
                    let j = choose|j: int|
                        0 <= j < other.entries@.len() && (#[trigger] other.entries@[j]).0 == k;
                    assert(eval(self@, other.entries@[j].0) == eval(other@, other.entries@[j].0));
                }
            }
        }
        true
    }

    /// The disjoint-cycle decomposition of this permutation: the explicit
    /// domain is partitioned into orbits, each walked from the first of its
    /// elements to be found. An explicit self-mapped entry yields a
    /// singleton cycle; implicit fixed points never appear. The caller must
    /// supply a mapping that really is a permutation of its explicit domain
    /// (as every composition of constructed cycles is); on anything else
    /// the orbit walk could not return to its start.
    #[verifier::loop_isolation(false)]
    #[verifier::rlimit(100)]
    pub fn cycles(&self) -> (r: Vec<Vec<i64>>)
        requires
            valid_map(self@),
        ensures
            is_decomposition(self@, r.deep_view()),
    {
        let ghost m = self@;
        proof {
            lemma_pairs_to_map_dom(self.entries@);
        }
        let mut visited: Vec<i64> = Vec::new();
        let mut found: Vec<Vec<i64>> = Vec::new();
        let mut idx: usize = 0;
        while idx < self.entries.len()
            invariant
                idx <= self.entries@.len(),
                forall|j: int| 0 <= j < idx ==> visited@.contains((#[trigger] self.entries@[j]).0),
                forall|x: i64| #[trigger] visited@.contains(x) ==> m.dom().contains(x),
                forall|x: i64| #[trigger] visited@.contains(x) <==> elem_of(found.deep_view(), x),
                forall|x: i64| #[trigger]
                    visited@.contains(x) ==> exists|y: i64|
                        visited@.contains(y) && m.dom().contains(y) && m[y] == x,
                forall|j: int|
                    0 <= j < found.deep_view().len() ==> is_orbit(
                        m,
                        #[trigger] found.deep_view()[j],
                    ),
                all_distinct(found.deep_view()),
            decreases self.entries@.len() - idx,
        {
            let key = self.entries[idx].0;
            proof {
                assert(self.entries@[idx as int].0 == key);
                assert(m.dom().contains(key));
            }
            if !contains_elem(&visited, key) {
                let ghost visited0 = visited@;
                let ghost found0 = found.deep_view();
                let mut cycle: Vec<i64> = Vec::new();
                proof {
                    lemma_push_no_dup(cycle@, key);
                    assert forall|x: i64|
                        cycle@.push(key).to_set().contains(x) implies m.dom().contains(x) by {}
                    cycle@.push(key).unique_seq_to_set();
                    vstd::set_lib::lemma_len_subset(cycle@.push(key).to_set(), m.dom());
                }
                cycle.push(key);
                visited.push(key);
                proof {
                    assert(visited@ =~= visited0 + cycle@);
                }
                let mut curr = self.get(key);
                proof {
                    assert(curr == m[key]);
                    if visited0.contains(curr) {
                        let y = choose|y: i64|
                            visited0.contains(y) && m.dom().contains(y) && m[y] == curr;
                        assert(y == key);
                        assert(false);
                    }
                }
                while curr != key
                    invariant
                        m.dom().contains(curr),
                        !visited0.contains(curr),
                        visited@ == visited0 + cycle@,
                        cycle@.no_duplicates(),
                        cycle@.len() <= m.dom().len(),
                        cycle@.len() > 0,
                        cycle@[0] == key,
                        m[cycle@.last()] == curr,
                        forall|i: int|
                            0 <= i < cycle@.len() ==> m.dom().contains(#[trigger] cycle@[i]),
                        forall|i: int|
                            0 <= i < cycle@.len() ==> !visited0.contains(#[trigger] cycle@[i]),
                        forall|i: int|
                            0 <= i < cycle@.len() - 1 ==> m[#[trigger] cycle@[i]] == cycle@[i + 1],
                        curr != key ==> !cycle@.contains(curr),
                    decreases m.dom().len() - cycle@.len(),
                {
                    let ghost precycle = cycle@;
                    let ghost prevcurr = curr;
                    proof {
                        assert(!precycle.contains(curr));
                        lemma_push_no_dup(precycle, curr);
                        assert forall|x: i64|
                            precycle.push(curr).to_set().contains(x) implies m.dom().contains(
                            x,
                        ) by {
                            let i = choose|i: int|
                                0 <= i < precycle.push(curr).len() && precycle.push(curr)[i] == x;
                            if i < precycle.len() {
                                assert(precycle[i] == x);
                            }
                        }
                        precycle.push(curr).unique_seq_to_set();
                        vstd::set_lib::lemma_len_subset(precycle.push(curr).to_set(), m.dom());
                    }
                    cycle.push(curr);
                    visited.push(curr);
                    proof {
                        assert(visited@ =~= visited0 + cycle@);
                    }
                    curr = self.get(curr);
                    proof {
                        assert(curr == m[prevcurr]);
                        if visited0.contains(curr) {
                            let y = choose|y: i64|
                                visited0.contains(y) && m.dom().contains(y) && m[y] == curr;
                            assert(y == prevcurr);
                            assert(false);
                        }
                        if curr != key {
                            lemma_chain_next_fresh(m, cycle@, curr);
                        }
                    }
                }
                proof {
                    assert(is_orbit(m, cycle@));
                }
                let ghost cyc = cycle@;
                found.push(cycle);
                proof {
                    broadcast use vstd::seq_lib::lemma_seq_concat_contains_all_elements;

                    assert(found.deep_view()[found0.len() as int] =~= cyc);
                    assert(found.deep_view() =~~= found0.push(cyc));
                    lemma_extend_decomposition(m, found0, visited0, cyc, visited@);
                    assert forall|j: int| 0 <= j < idx + 1 implies visited@.contains(
                        (#[trigger] self.entries@[j]).0,
                    ) by {
                        if j < idx {
                            assert(visited0.contains(self.entries@[j].0));
                        } else {
                            assert(cyc.contains(key)) by {
                                assert(cyc[0] == key);
                            }
                        }
                    }
                }
            }
            idx = idx + 1;
        }
        proof {
            assert forall|k: i64| #[trigger] m.dom().contains(k) implies elem_of(
                found.deep_view(),
                k,
            ) by {
                let j = choose|j: int|
                    0 <= j < self.entries@.len() && (#[trigger] self.entries@[j]).0 == k;
                assert(visited@.contains(self.entries@[j].0));
            }
        }
        found
    }

    /// Builds a permutation directly from `(source, image)` pairs, with no
    /// bijectivity check; a duplicate source silently overrides the earlier
    /// entry.
    pub fn from_pairs(pairs: &Vec<(i64, i64)>) -> (r: Group)
        ensures
            r@ == pairs_to_map(pairs@),
    {
        let mut entries: Vec<(i64, i64)> = Vec::new();
        let mut i: usize = 0;
        while i < pairs.len()
            invariant
                i <= pairs@.len(),
                entries@ == pairs@.take(i as int),
            decreases pairs@.len() - i,
        {
            entries.push(pairs[i]);
            proof {
                assert(pairs@.take(i + 1) =~= pairs@.take(i as int).push(pairs@[i as int]));
            }
            i = i + 1;
        }
        proof {
            assert(pairs@.take(pairs@.len() as int) =~= pairs@);
        }
        Group { entries }
    }
}

impl PartialEq for Group {
    fn eq(&self, other: &Group) -> (r: bool) {
        self.equals(other)
    }
}

impl vstd::std_specs::cmp::PartialEqSpecImpl for Group {
    open spec fn obeys_eq_spec() -> bool {
        true
    }

    open spec fn eq_spec(&self, other: &Group) -> bool {
        spec_equals(self@, other@)
    }
}

} // verus!
