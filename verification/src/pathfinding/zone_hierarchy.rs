//! Super zones: groups of zones joined through the zone adjacency graph,
//! found by union-find, so that whether two zones are connected is one
//! comparison of labels.

use crate::pathfinding::zone_map::{ZoneAdjacency, ZoneId, ZONE_INVALID};
use vstd::arithmetic::power2::{lemma2_to64, lemma_pow2_strictly_increases, lemma_pow2_unfold, pow2};
use vstd::prelude::*;

verus! {

/// A walk through the zone graph: each zone lists the next as a neighbor.
pub open spec fn is_zone_chain(adj: ZoneAdjacency, c: Seq<ZoneId>) -> bool {
    &&& c.len() >= 1
    &&& forall|i: int| 0 <= i < c.len() - 1 ==> adj.spec_neighbors(c[i]).contains(#[trigger] c[i + 1])
}

/// Neighbor lists of zones `1..=count` name zones up to `count` only.
pub open spec fn neighbors_within(adj: ZoneAdjacency, count: int) -> bool {
    forall|z: ZoneId, k: int|
        1 <= z <= count && 0 <= k < adj.spec_neighbors(z).len() ==> #[trigger] adj.spec_neighbors(z)[k] <= count
}

/// Component label per zone (index 0 unused); zones with equal labels are
/// connected.
#[derive(Debug)]
pub struct SuperZoneMap {
    labels: Vec<ZoneId>,
}

// ---------------------------------------------------------------------------
// Union-find forest
// ---------------------------------------------------------------------------

/// The forest is well formed: parents are in range and, away from the roots,
/// ranks strictly increase toward the root.
pub open spec fn uf_wf(parent: Seq<usize>, rank: Seq<u8>) -> bool {
    &&& parent.len() == rank.len()
    &&& forall|x: int| 0 <= x < parent.len() ==> #[trigger] parent[x] < parent.len()
    &&& forall|x: int| #![trigger parent[x]] 0 <= x < parent.len() && parent[x] != x ==> rank[x] < rank[parent[x] as int]
}

/// The root of the tree holding `x`.
pub open spec fn uf_root(parent: Seq<usize>, rank: Seq<u8>, x: int) -> int
    decreases 256 - rank[x],
    when uf_wf(parent, rank) && 0 <= x < parent.len()
{
    if parent[x] == x {
        x
    } else {
        uf_root(parent, rank, parent[x] as int)
    }
}

/// The members of the tree rooted at `r`.
pub open spec fn uf_class(parent: Seq<usize>, rank: Seq<u8>, r: int) -> Set<int> {
    Set::new(|y: int| 0 <= y < parent.len() && uf_root(parent, rank, y) == r)
}

/// The forest is well formed, small enough for 16-bit zone ids, and every
/// root of rank `k` has at least `2^k` members (so ranks stay tiny).
pub open spec fn uf_inv(parent: Seq<usize>, rank: Seq<u8>) -> bool {
    &&& uf_wf(parent, rank)
    &&& parent.len() <= 65536
    &&& forall|r: int|
        0 <= r < parent.len() && parent[r] == r ==> pow2(rank[r] as nat) <= (#[trigger] uf_class(parent, rank, r)).len()
}

/// Whether `y` and `z` lie in one tree.
pub open spec fn uf_same(parent: Seq<usize>, rank: Seq<u8>, y: int, z: int) -> bool {
    uf_root(parent, rank, y) == uf_root(parent, rank, z)
}

proof fn lemma_root(parent: Seq<usize>, rank: Seq<u8>, x: int)
    requires
        uf_wf(parent, rank),
        0 <= x < parent.len(),
    ensures
        0 <= uf_root(parent, rank, x) < parent.len(),
        parent[uf_root(parent, rank, x)] == uf_root(parent, rank, x),
        rank[x] <= rank[uf_root(parent, rank, x)],
        parent[x] == x ==> uf_root(parent, rank, x) == x,
        parent[x] != x ==> uf_root(parent, rank, x) == uf_root(parent, rank, parent[x] as int),
    decreases 256 - rank[x],
{
    if parent[x] != x {
        lemma_root(parent, rank, parent[x] as int);
    }
}

proof fn lemma_class_finite(parent: Seq<usize>, rank: Seq<u8>, r: int)
    ensures
        uf_class(parent, rank, r).finite(),
        uf_class(parent, rank, r).len() <= parent.len(),
{
    vstd::set_lib::lemma_int_range(0, parent.len() as int);
    vstd::set_lib::lemma_len_subset(uf_class(parent, rank, r), vstd::set_lib::set_int_range(0, parent.len() as int));
}

/// Every rank is at most 16.
proof fn lemma_rank_small(parent: Seq<usize>, rank: Seq<u8>, x: int)
    requires
        uf_inv(parent, rank),
        0 <= x < parent.len(),
    ensures
        rank[x] <= 16,
{
    lemma_root(parent, rank, x);
    let r = uf_root(parent, rank, x);
    lemma_class_finite(parent, rank, r);
    assert(pow2(rank[r] as nat) <= uf_class(parent, rank, r).len());
    lemma2_to64();
    if rank[r] > 16 {
        lemma_pow2_strictly_increases(16, rank[r] as nat);
    }
}

/// Pointing `x` at its grandparent keeps the forest well formed.
proof fn lemma_halve_wf(p: Seq<usize>, rank: Seq<u8>, x: int)
    requires
        uf_wf(p, rank),
        0 <= x < p.len(),
        p[x] != x,
    ensures
        uf_wf(p.update(x, p[p[x] as int]), rank),
{
    let px = p[x] as int;
    let p2 = p.update(x, p[px]);
    assert(rank[x] < rank[px]);
    assert(p[px] == px || rank[px] < rank[p[px] as int]);
    assert forall|y: int| #![trigger p2[y]] 0 <= y < p2.len() && p2[y] != y implies rank[y] < rank[p2[y] as int] by {
        if y != x {
            assert(p2[y] == p[y]);
        }
    }
    assert forall|y: int| 0 <= y < p2.len() implies #[trigger] p2[y] < p2.len() by {
        if y != x {
            assert(p2[y] == p[y]);
        }
    }
}

/// Pointing `x` at its grandparent changes no root.
proof fn lemma_halve_root(p: Seq<usize>, rank: Seq<u8>, x: int, y: int)
    requires
        uf_wf(p, rank),
        0 <= x < p.len(),
        p[x] != x,
        0 <= y < p.len(),
    ensures
        uf_root(p.update(x, p[p[x] as int]), rank, y) == uf_root(p, rank, y),
    decreases 256 - rank[y],
{
    let px = p[x] as int;
    let p2 = p.update(x, p[px]);
    lemma_halve_wf(p, rank, x);
    lemma_root(p, rank, y);
    lemma_root(p2, rank, y);
    if y == x {
        let ppx = p[px] as int;
        lemma_root(p, rank, px);
        assert(rank[x] < rank[ppx]);
        lemma_halve_root(p, rank, x, ppx);
    } else if p[y] != y {
        assert(p2[y] == p[y]);
        lemma_halve_root(p, rank, x, p[y] as int);
    }
}

/// Hanging root `c` under root `r` (with `r`'s rank possibly raised) keeps
/// the forest well formed and moves exactly `c`'s tree under `r`.
proof fn lemma_link(p: Seq<usize>, rank: Seq<u8>, rank2: Seq<u8>, c: int, r: int, y: int)
    requires
        uf_wf(p, rank),
        0 <= c < p.len(),
        0 <= r < p.len(),
        c != r,
        p[c] == c,
        p[r] == r,
        rank2.len() == rank.len(),
        forall|i: int| 0 <= i < rank.len() && i != r ==> rank2[i] == rank[i],
        rank2[r] >= rank[r],
        rank2[c] < rank2[r],
        0 <= y < p.len(),
    ensures
        uf_wf(p.update(c, r as usize), rank2),
        uf_root(p.update(c, r as usize), rank2, y) == if uf_root(p, rank, y) == c {
            r
        } else {
            uf_root(p, rank, y)
        },
    decreases 256 - rank[y],
{
    let p2 = p.update(c, r as usize);
    assert forall|i: int| #![trigger p2[i]] 0 <= i < p2.len() && p2[i] != i implies rank2[i] < rank2[p2[i] as int] by {
        if i != c {
            assert(p2[i] == p[i]);
            assert(rank[i] < rank[p[i] as int]);
            assert(i != r);
        }
    }
    assert forall|i: int| 0 <= i < p2.len() implies #[trigger] p2[i] < p2.len() by {
        if i != c {
            assert(p2[i] == p[i]);
        }
    }
    assert(uf_wf(p2, rank2));
    lemma_root(p, rank, y);
    lemma_root(p2, rank2, y);
    if y == c {
        lemma_root(p2, rank2, r);
        assert(p2[r] == r);
    } else if p[y] != y {
        assert(p2[y] == p[y]);
        lemma_link(p, rank, rank2, c, r, p[y] as int);
    }
}

/// Follow parents from `x` to its root, pointing each visited node at its
/// grandparent on the way.
fn find(parent: &mut Vec<usize>, rank: &Vec<u8>, x: usize) -> (r: usize)
    requires
        uf_inv(old(parent)@, rank@),
        x < old(parent)@.len(),
    ensures
        final(parent)@.len() == old(parent)@.len(),
        uf_inv(final(parent)@, rank@),
        r == uf_root(old(parent)@, rank@, x as int),
        forall|y: int| 0 <= y < old(parent)@.len() ==> #[trigger] uf_root(final(parent)@, rank@, y) == uf_root(old(parent)@, rank@, y),
        forall|y: int| 0 <= y < old(parent)@.len() ==> (final(parent)@[y] == y <==> old(parent)@[y] == y),
{
    let ghost orig = parent@;
    let ghost x0 = x as int;
    let mut x = x;
    proof {
        lemma_root(orig, rank@, x as int);
    }
    while parent[x] != x
        invariant
            uf_root(orig, rank@, x as int) == uf_root(orig, rank@, x0),
            0 <= x0 < orig.len(),
            parent@.len() == orig.len(),
            rank@.len() == orig.len(),
            x < orig.len(),
            uf_wf(parent@, rank@),
            uf_inv(orig, rank@),
            uf_root(parent@, rank@, x as int) == uf_root(orig, rank@, x as int),
            forall|y: int| 0 <= y < orig.len() ==> #[trigger] uf_root(parent@, rank@, y) == uf_root(orig, rank@, y),
            forall|y: int| 0 <= y < orig.len() ==> (parent@[y] == y <==> orig[y] == y),
        decreases 256 - rank@[x as int],
    {
        let ghost before = parent@;
        let px = parent[x];
        let ppx = parent[px];
        proof {
            lemma_halve_wf(before, rank@, x as int);
            assert forall|y: int| 0 <= y < orig.len() implies #[trigger] uf_root(before.update(x as int, before[px as int]), rank@, y)
                == uf_root(orig, rank@, y) by {
                lemma_halve_root(before, rank@, x as int, y);
            }
            lemma_root(before, rank@, px as int);
            lemma_root(before, rank@, x as int);
        }
        parent.set(x, ppx);
        proof {
            assert(parent@ == before.update(x as int, before[px as int]));
            assert(rank@[x as int] < rank@[ppx as int]);
            lemma_root(before, rank@, ppx as int);
            assert(uf_root(before, rank@, ppx as int) == uf_root(before, rank@, x as int));
            assert(uf_root(before, rank@, ppx as int) == uf_root(orig, rank@, ppx as int));
            assert(uf_root(before, rank@, x as int) == uf_root(orig, rank@, x as int));
        }
        x = ppx;
    }
    proof {
        lemma_root(parent@, rank@, x as int);
        assert forall|r: int| 0 <= r < parent@.len() && parent@[r] == r implies pow2(rank@[r] as nat) <= (#[trigger] uf_class(
            parent@,
            rank@,
            r,
        )).len() by {
            assert(uf_class(parent@, rank@, r) =~= uf_class(orig, rank@, r));
        }
    }
    x
}

/// Join the trees of `a` and `b`, hanging the root of smaller rank under the
/// other (on equal ranks, `b`'s root under `a`'s, whose rank grows).
fn union(parent: &mut Vec<usize>, rank: &mut Vec<u8>, a: usize, b: usize)
    requires
        uf_inv(old(parent)@, old(rank)@),
        a < old(parent)@.len(),
        b < old(parent)@.len(),
    ensures
        final(parent)@.len() == old(parent)@.len(),
        uf_inv(final(parent)@, final(rank)@),
        forall|y: int, z: int|
            0 <= y < old(parent)@.len() && 0 <= z < old(parent)@.len() ==> (#[trigger] uf_same(final(parent)@, final(rank)@, y, z) <==> (
            uf_same(old(parent)@, old(rank)@, y, z) || (uf_same(old(parent)@, old(rank)@, y, a as int) && uf_same(
                old(parent)@,
                old(rank)@,
                z,
                b as int,
            )) || (uf_same(old(parent)@, old(rank)@, y, b as int) && uf_same(old(parent)@, old(rank)@, z, a as int)))),
{
    let ghost p0 = parent@;
    let ghost k0 = rank@;
    let ra = find(parent, rank, a);
    let rb = find(parent, rank, b);
    let ghost p1 = parent@;
    proof {
        lemma_root(p0, k0, a as int);
        lemma_root(p0, k0, b as int);
        assert forall|y: int, z: int| 0 <= y < p0.len() && 0 <= z < p0.len() implies (uf_same(p1, k0, y, z) <==> uf_same(
            p0,
            k0,
            y,
            z,
        )) by {
            assert(uf_root(p1, k0, y) == uf_root(p0, k0, y));
            assert(uf_root(p1, k0, z) == uf_root(p0, k0, z));
        }
    }
    if ra == rb {
        proof {
            assert forall|y: int, z: int|
                0 <= y < p0.len() && 0 <= z < p0.len() implies (#[trigger] uf_same(parent@, rank@, y, z) <==> (uf_same(p0, k0, y, z)
                || (uf_same(p0, k0, y, a as int) && uf_same(p0, k0, z, b as int)) || (uf_same(p0, k0, y, b as int) && uf_same(
                p0,
                k0,
                z,
                a as int,
            )))) by {
                assert(uf_root(p1, k0, y) == uf_root(p0, k0, y));
                assert(uf_root(p1, k0, z) == uf_root(p0, k0, z));
            }
        }
        return;
    }
    proof {
        assert(p1[ra as int] == ra);
        assert(p1[rb as int] == rb);
        lemma_rank_small(p1, k0, ra as int);
        lemma_rank_small(p1, k0, rb as int);
    }
    let ka = rank[ra];
    let kb = rank[rb];
    let ghost child: int;
    let ghost root: int;
    if ka < kb {
        parent.set(ra, rb);
        proof {
            child = ra as int;
            root = rb as int;
        }
    } else if ka > kb {
        parent.set(rb, ra);
        proof {
            child = rb as int;
            root = ra as int;
        }
    } else {
        parent.set(rb, ra);
        rank.set(ra, ka + 1);
        proof {
            child = rb as int;
            root = ra as int;
        }
    }
    proof {
        let p2 = parent@;
        let k2 = rank@;
        assert(p2 == p1.update(child, root as usize));
        assert forall|y: int| 0 <= y < p0.len() implies #[trigger] uf_root(p2, k2, y) == if uf_root(p1, k0, y) == child {
            root
        } else {
            uf_root(p1, k0, y)
        } by {
            lemma_link(p1, k0, k2, child, root, y);
        }
        lemma_link(p1, k0, k2, child, root, 0);
        // class sizes
        lemma_class_finite(p1, k0, child);
        lemma_class_finite(p1, k0, root);
        assert(uf_class(p2, k2, root) =~= uf_class(p1, k0, root) + uf_class(p1, k0, child));
        assert(uf_class(p1, k0, root).disjoint(uf_class(p1, k0, child)));
        vstd::set_lib::lemma_set_disjoint_lens(uf_class(p1, k0, root), uf_class(p1, k0, child));
        assert(pow2(k0[root] as nat) <= uf_class(p1, k0, root).len());
        assert(pow2(k0[child] as nat) <= uf_class(p1, k0, child).len());
        if k2[root] != k0[root] {
            lemma_pow2_unfold(k2[root] as nat);
        }
        assert forall|q: int| 0 <= q < p2.len() && p2[q] == q implies pow2(k2[q] as nat) <= (#[trigger] uf_class(
            p2,
            k2,
            q,
        )).len() by {
            if q != root {
                assert(q != child);
                assert(uf_class(p2, k2, q) =~= uf_class(p1, k0, q));
                assert(k2[q] == k0[q]);
            }
        }
        assert forall|y: int, z: int|
            0 <= y < p0.len() && 0 <= z < p0.len() implies (#[trigger] uf_same(p2, k2, y, z) <==> (uf_same(p0, k0, y, z) || (
            uf_same(p0, k0, y, a as int) && uf_same(p0, k0, z, b as int)) || (uf_same(p0, k0, y, b as int) && uf_same(
            p0,
            k0,
            z,
            a as int,
        )))) by {
            assert(uf_root(p1, k0, y) == uf_root(p0, k0, y));
            assert(uf_root(p1, k0, z) == uf_root(p0, k0, z));
            lemma_root(p1, k0, y);
            lemma_root(p1, k0, z);
        }
    }
}

/// Whether zone `v` stands among the first entries of zone `u`'s list: all
/// of it for `u < zb`, its first `kb` entries for `u == zb`.
pub open spec fn seen_dir(adj: ZoneAdjacency, zb: int, kb: int, u: int, v: int) -> bool {
    &&& 1 <= u <= zb
    &&& u <= 65535
    &&& exists|t: int|
        0 <= t < adj.spec_neighbors(u as ZoneId).len() && (u < zb || t < kb) && #[trigger] adj.spec_neighbors(
            u as ZoneId,
        )[t] as int == v
}

/// Whether an adjacency entry seen so far joins `u` and `v`, either way.
pub open spec fn edge_seen(adj: ZoneAdjacency, zb: int, kb: int, u: int, v: int) -> bool {
    seen_dir(adj, zb, kb, u, v) || seen_dir(adj, zb, kb, v, u)
}

/// A walk whose steps are adjacency entries seen so far.
pub open spec fn seen_chain(adj: ZoneAdjacency, zb: int, kb: int, c: Seq<int>) -> bool {
    &&& c.len() >= 1
    &&& forall|i: int| #![trigger c[i]] 0 <= i < c.len() - 1 ==> edge_seen(adj, zb, kb, c[i], c[i + 1])
}

/// Whether a walk over adjacency entries seen so far leads from `y` to `w`.
pub open spec fn seen_linked(adj: ZoneAdjacency, zb: int, kb: int, y: int, w: int) -> bool {
    exists|c: Seq<int>| #[trigger] seen_chain(adj, zb, kb, c) && c[0] == y && c[c.len() - 1] == w
}

/// Whether zones `y` and `w` are joined by a walk through the adjacency lists
/// of zones `1..=count`, each step going either way along a listed entry.
pub open spec fn zone_linked(adj: ZoneAdjacency, count: int, y: int, w: int) -> bool {
    seen_linked(adj, count + 1, 0, y, w)
}

proof fn lemma_seen_mono(adj: ZoneAdjacency, zb: int, kb: int, zb2: int, kb2: int, c: Seq<int>)
    requires
        seen_chain(adj, zb, kb, c),
        zb < zb2 || (zb == zb2 && kb <= kb2),
    ensures
        seen_chain(adj, zb2, kb2, c),
{
    assert forall|i: int| #![trigger c[i]] 0 <= i < c.len() - 1 implies edge_seen(adj, zb2, kb2, c[i], c[i + 1]) by {
        assert(edge_seen(adj, zb, kb, c[i], c[i + 1]));
        if seen_dir(adj, zb, kb, c[i], c[i + 1]) {
            let t = choose|t: int|
                0 <= t < adj.spec_neighbors(c[i] as ZoneId).len() && (c[i] < zb || t < kb) && #[trigger] adj.spec_neighbors(
                    c[i] as ZoneId,
                )[t] as int == c[i + 1];
            assert(seen_dir(adj, zb2, kb2, c[i], c[i + 1]));
        } else {
            let t = choose|t: int|
                0 <= t < adj.spec_neighbors(c[i + 1] as ZoneId).len() && (c[i + 1] < zb || t < kb)
                    && #[trigger] adj.spec_neighbors(c[i + 1] as ZoneId)[t] as int == c[i];
            assert(seen_dir(adj, zb2, kb2, c[i + 1], c[i]));
        }
    }
}

proof fn lemma_linked_mono(adj: ZoneAdjacency, zb: int, kb: int, zb2: int, kb2: int, y: int, w: int)
    requires
        seen_linked(adj, zb, kb, y, w),
        zb < zb2 || (zb == zb2 && kb <= kb2),
    ensures
        seen_linked(adj, zb2, kb2, y, w),
{
    let c = choose|c: Seq<int>| #[trigger] seen_chain(adj, zb, kb, c) && c[0] == y && c[c.len() - 1] == w;
    lemma_seen_mono(adj, zb, kb, zb2, kb2, c);
}

proof fn lemma_linked_join(adj: ZoneAdjacency, zb: int, kb: int, y: int, a: int, b: int, w: int)
    requires
        seen_linked(adj, zb, kb, y, a),
        seen_linked(adj, zb, kb, b, w),
        edge_seen(adj, zb, kb, a, b),
    ensures
        seen_linked(adj, zb, kb, y, w),
{
    let c1 = choose|c: Seq<int>| #[trigger] seen_chain(adj, zb, kb, c) && c[0] == y && c[c.len() - 1] == a;
    let c2 = choose|c: Seq<int>| #[trigger] seen_chain(adj, zb, kb, c) && c[0] == b && c[c.len() - 1] == w;
    let c = c1 + c2;
    assert forall|i: int| #![trigger c[i]] 0 <= i < c.len() - 1 implies edge_seen(adj, zb, kb, c[i], c[i + 1]) by {
        if i < c1.len() - 1 {
            assert(c[i] == c1[i] && c[i + 1] == c1[i + 1]);
        } else if i == c1.len() - 1 {
            assert(c[i] == a && c[i + 1] == b);
        } else {
            let j = i - c1.len();
            assert(c[i] == c2[j] && c[i + 1] == c2[j + 1]);
        }
    }
    assert(seen_chain(adj, zb, kb, c));
}

/// Zones joined by a walk of seen entries lie in one tree, given that the
/// two ends of every seen entry do.
proof fn lemma_linked_same(
    adj: ZoneAdjacency,
    count: int,
    parent: Seq<usize>,
    rank: Seq<u8>,
    c: Seq<int>,
)
    requires
        uf_wf(parent, rank),
        parent.len() == count + 1,
        seen_chain(adj, count + 1, 0, c),
        0 <= c[0] <= count,
        neighbors_within(adj, count),
        forall|y: ZoneId, k: int|
            1 <= y <= count && 0 <= k < adj.spec_neighbors(y).len() ==> uf_same(
                parent,
                rank,
                y as int,
                #[trigger] adj.spec_neighbors(y)[k] as int,
            ),
    ensures
        uf_same(parent, rank, c[0], c[c.len() - 1]),
        0 <= c[c.len() - 1] <= count,
    decreases c.len(),
{
    if c.len() > 1 {
        let d = c.drop_last();
        assert forall|i: int| #![trigger d[i]] 0 <= i < d.len() - 1 implies edge_seen(adj, count + 1, 0, d[i], d[i + 1]) by {
            assert(d[i] == c[i] && d[i + 1] == c[i + 1]);
        }
        lemma_linked_same(adj, count, parent, rank, d);
        let u = c[c.len() - 2];
        let v = c[c.len() - 1];
        assert(edge_seen(adj, count + 1, 0, c[c.len() - 2], c[(c.len() - 2) + 1]));
        if seen_dir(adj, count + 1, 0, u, v) {
            let t = choose|t: int|
                0 <= t < adj.spec_neighbors(u as ZoneId).len() && (u < count + 1 || t < 0) && #[trigger] adj.spec_neighbors(
                    u as ZoneId,
                )[t] as int == v;
            assert(uf_same(parent, rank, u, adj.spec_neighbors(u as ZoneId)[t] as int));
            assert(adj.spec_neighbors(u as ZoneId)[t] <= count);
        } else {
            let t = choose|t: int|
                0 <= t < adj.spec_neighbors(v as ZoneId).len() && (v < count + 1 || t < 0) && #[trigger] adj.spec_neighbors(
                    v as ZoneId,
                )[t] as int == u;
            assert(uf_same(parent, rank, v, adj.spec_neighbors(v as ZoneId)[t] as int));
        }
    }
}

impl SuperZoneMap {
    /// Component labels, indexed by zone.
    pub closed spec fn spec_labels(self) -> Seq<ZoneId> {
        self.labels@
    }

    /// Whether two zones carry the same label.
    pub open spec fn spec_connected(self, a: ZoneId, b: ZoneId) -> bool {
        &&& a != ZONE_INVALID
        &&& b != ZONE_INVALID
        &&& a < self.spec_labels().len()
        &&& b < self.spec_labels().len()
        &&& self.spec_labels()[a as int] == self.spec_labels()[b as int]
    }

    /// Label the zones `0..=zone_count` by union-find over the adjacency
    /// lists of zones `1..=zone_count` (union by rank, path halving); each
    /// label is the root zone of its component. Two zones carry the same
    /// label exactly when a walk through the lists joins them, so every zone
    /// and each of its neighbors carry the same label.
    pub fn from_adjacency(adj: &ZoneAdjacency, zone_count: u16) -> (r: Self)
        requires
            neighbors_within(*adj, zone_count as int),
        ensures
            r.spec_labels().len() == zone_count as int + 1,
            forall|a: int, b: int|
                0 <= a <= zone_count && 0 <= b <= zone_count ==> (r.spec_labels()[a] == r.spec_labels()[b] <==> #[trigger] zone_linked(
                    *adj,
                    zone_count as int,
                    a,
                    b,
                )),
            forall|z: ZoneId, k: int|
                1 <= z <= zone_count && 0 <= k < adj.spec_neighbors(z).len() && adj.spec_neighbors(z)[k] != ZONE_INVALID
                    ==> #[trigger] r.spec_connected(z, adj.spec_neighbors(z)[k]),
    {
        let n = zone_count as usize + 1;
        let mut parent: Vec<usize> = Vec::new();
        let mut rank: Vec<u8> = Vec::new();
        let mut i: usize = 0;
        while i < n
            invariant
                i <= n,
                n == zone_count as int + 1,
                parent@.len() == i,
                rank@.len() == i,
                forall|j: int| 0 <= j < i ==> #[trigger] parent@[j] == j,
                forall|j: int| 0 <= j < i ==> #[trigger] rank@[j] == 0,
            decreases n - i,
        {
            parent.push(i);
            rank.push(0);
            i = i + 1;
        }
        proof {
            assert forall|y: int| 0 <= y < n implies #[trigger] uf_root(parent@, rank@, y) == y by {
                lemma_root(parent@, rank@, y);
            }
            assert forall|r: int| 0 <= r < n && parent@[r] == r implies pow2(rank@[r] as nat) <= (#[trigger] uf_class(
                parent@,
                rank@,
                r,
            )).len() by {
                lemma_class_finite(parent@, rank@, r);
                assert(uf_class(parent@, rank@, r).contains(r));
                vstd::set_lib::lemma_set_empty_equivalency_len(uf_class(parent@, rank@, r));
                lemma2_to64();
            }
            assert forall|y: int, w: int|
                0 <= y < n && 0 <= w < n && #[trigger] uf_same(parent@, rank@, y, w) implies seen_linked(*adj, 1, 0, y, w) by {
                assert(seen_chain(*adj, 1, 0, seq![y]));
            }
        }
        let mut z: u32 = 1;
        while z <= zone_count as u32
            invariant
                1 <= z <= zone_count as int + 1,
                parent@.len() == n,
                n == zone_count as int + 1,
                uf_inv(parent@, rank@),
                neighbors_within(*adj, zone_count as int),
                forall|y: ZoneId, k: int|
                    1 <= y < z && 0 <= k < adj.spec_neighbors(y).len() ==> uf_same(
                        parent@,
                        rank@,
                        y as int,
                        #[trigger] adj.spec_neighbors(y)[k] as int,
                    ),
                forall|y: int, w: int|
                    0 <= y < n && 0 <= w < n && #[trigger] uf_same(parent@, rank@, y, w) ==> seen_linked(*adj, z as int, 0, y, w),
            decreases zone_count as int + 1 - z,
        {
            let zz = z as u16;
            let list = adj.neighbors_of(zz);
            let mut k: usize = 0;
            while k < list.len()
                invariant
                    1 <= z <= zone_count,
                    zz == z,
                    k <= list@.len(),
                    list@ == adj.spec_neighbors(zz),
                    parent@.len() == n,
                    n == zone_count as int + 1,
                    uf_inv(parent@, rank@),
                    neighbors_within(*adj, zone_count as int),
                    forall|y: ZoneId, t: int|
                        ((1 <= y < z && 0 <= t < adj.spec_neighbors(y).len()) || (y == z && 0 <= t < k)) ==> uf_same(
                            parent@,
                            rank@,
                            y as int,
                            #[trigger] adj.spec_neighbors(y)[t] as int,
                        ),
                    forall|y: int, w: int|
                        0 <= y < n && 0 <= w < n && #[trigger] uf_same(parent@, rank@, y, w) ==> seen_linked(
                            *adj,
                            z as int,
                            k as int,
                            y,
                            w,
                        ),
                decreases list@.len() - k,
            {
                let nb = list[k];
                proof {
                    assert(adj.spec_neighbors(zz)[k as int] <= zone_count);
                }
                let ghost pb = parent@;
                let ghost kb = rank@;
                union(&mut parent, &mut rank, z as usize, nb as usize);
                proof {
                    assert forall|y: ZoneId, t: int|
                        ((1 <= y < z && 0 <= t < adj.spec_neighbors(y).len()) || (y == z && 0 <= t < k + 1)) implies uf_same(
                            parent@,
                            rank@,
                            y as int,
                            #[trigger] adj.spec_neighbors(y)[t] as int,
                        ) by {
                        assert(adj.spec_neighbors(y)[t] <= zone_count);
                        if !(y == z && t == k) {
                            assert(uf_same(pb, kb, y as int, adj.spec_neighbors(y)[t] as int));
                        } else {
                            lemma_root(pb, kb, y as int);
                        }
                        assert(uf_same(parent@, rank@, y as int, adj.spec_neighbors(y)[t] as int));
                    }
                    let zi = z as int;
                    let ni = nb as int;
                    assert(zi as ZoneId == zz);
                    assert(adj.spec_neighbors(zi as ZoneId)[k as int] as int == ni);
                    assert(seen_dir(*adj, zi, k + 1, zi, ni));
                    assert(edge_seen(*adj, zi, k + 1, zi, ni));
                    assert(edge_seen(*adj, zi, k + 1, ni, zi));
                    assert forall|y: int, w: int|
                        0 <= y < n && 0 <= w < n && #[trigger] uf_same(parent@, rank@, y, w) implies seen_linked(
                            *adj,
                            zi,
                            k + 1,
                            y,
                            w,
                        ) by {
                        if uf_same(pb, kb, y, w) {
                            lemma_linked_mono(*adj, zi, k as int, zi, k + 1, y, w);
                        } else if uf_same(pb, kb, y, zi) && uf_same(pb, kb, w, ni) {
                            assert(uf_same(pb, kb, ni, w));
                            lemma_linked_mono(*adj, zi, k as int, zi, k + 1, y, zi);
                            lemma_linked_mono(*adj, zi, k as int, zi, k + 1, ni, w);
                            lemma_linked_join(*adj, zi, k + 1, y, zi, ni, w);
                        } else {
                            assert(uf_same(pb, kb, y, ni) && uf_same(pb, kb, w, zi));
                            assert(uf_same(pb, kb, zi, w));
                            lemma_linked_mono(*adj, zi, k as int, zi, k + 1, y, ni);
                            lemma_linked_mono(*adj, zi, k as int, zi, k + 1, zi, w);
                            lemma_linked_join(*adj, zi, k + 1, y, ni, zi, w);
                        }
                    }
                }
                k = k + 1;
            }
            proof {
                assert forall|y: int, w: int|
                    0 <= y < n && 0 <= w < n && #[trigger] uf_same(parent@, rank@, y, w) implies seen_linked(
                        *adj,
                        z + 1,
                        0,
                        y,
                        w,
                    ) by {
                    lemma_linked_mono(*adj, z as int, k as int, z + 1, 0, y, w);
                }
            }
            z = z + 1;
        }
        let ghost pf = parent@;
        let mut labels: Vec<ZoneId> = Vec::new();
        let mut j: usize = 0;
        while j < n
            invariant
                j <= n,
                n == zone_count as int + 1,
                parent@.len() == n,
                pf.len() == n,
                uf_inv(parent@, rank@),
                forall|y: int| 0 <= y < n ==> #[trigger] uf_root(parent@, rank@, y) == uf_root(pf, rank@, y),
                labels@.len() == j,
                forall|y: int| 0 <= y < j ==> #[trigger] labels@[y] == uf_root(pf, rank@, y),
            decreases n - j,
        {
            let ghost pj = parent@;
            proof {
                lemma_root(pj, rank@, j as int);
            }
            let root = find(&mut parent, &rank, j);
            labels.push(root as ZoneId);
            proof {
                assert forall|y: int| 0 <= y < n implies #[trigger] uf_root(parent@, rank@, y) == uf_root(pf, rank@, y) by {
                    assert(uf_root(parent@, rank@, y) == uf_root(pj, rank@, y));
                }
            }
            j = j + 1;
        }
        proof {
            assert forall|z: ZoneId, k: int|
                1 <= z <= zone_count && 0 <= k < adj.spec_neighbors(z).len() && adj.spec_neighbors(z)[k] != ZONE_INVALID
                    implies #[trigger] (SuperZoneMap { labels }).spec_connected(z, adj.spec_neighbors(z)[k]) by {
                assert(adj.spec_neighbors(z)[k] <= zone_count);
                assert(uf_same(pf, rank@, z as int, adj.spec_neighbors(z)[k] as int));
            }
            assert forall|a: int, b: int| 0 <= a <= zone_count && 0 <= b <= zone_count implies (labels@[a] == labels@[b]
                <==> #[trigger] zone_linked(*adj, zone_count as int, a, b)) by {
                if labels@[a] == labels@[b] {
                    assert(uf_same(pf, rank@, a, b));
                }
                if zone_linked(*adj, zone_count as int, a, b) {
                    let c = choose|c: Seq<int>|
                        #[trigger] seen_chain(*adj, zone_count as int + 1, 0, c) && c[0] == a && c[c.len() - 1] == b;
                    lemma_linked_same(*adj, zone_count as int, pf, rank@, c);
                }
            }
        }
        SuperZoneMap { labels }
    }

    /// Whether two valid zones lie in the same group.
    pub fn are_connected(&self, a: ZoneId, b: ZoneId) -> (r: bool)
        ensures
            r == self.spec_connected(a, b),
    {
        if a == ZONE_INVALID || b == ZONE_INVALID {
            return false;
        }
        let ai = a as usize;
        let bi = b as usize;
        if ai >= self.labels.len() || bi >= self.labels.len() {
            return false;
        }
        self.labels[ai] == self.labels[bi]
    }
}

/// Zones joined by a walk through the graph share a label.
pub proof fn lemma_chain_connected(sz: SuperZoneMap, adj: ZoneAdjacency, count: int, c: Seq<ZoneId>)
    requires
        sz.spec_labels().len() == count + 1,
        forall|z: ZoneId, k: int|
            1 <= z <= count && 0 <= k < adj.spec_neighbors(z).len() && adj.spec_neighbors(z)[k] != ZONE_INVALID
                ==> #[trigger] sz.spec_connected(z, adj.spec_neighbors(z)[k]),
        is_zone_chain(adj, c),
        forall|i: int| 0 <= i < c.len() ==> 1 <= #[trigger] c[i] <= count,
    ensures
        sz.spec_connected(c[0], c[c.len() - 1]),
    decreases c.len(),
{
    if c.len() > 1 {
        let d = c.drop_last();
        assert forall|i: int| 0 <= i < d.len() - 1 implies adj.spec_neighbors(d[i]).contains(#[trigger] d[i + 1]) by {
            assert(d[i + 1] == c[i + 1]);
        }
        lemma_chain_connected(sz, adj, count, d);
        let p = c[c.len() - 2];
        let q = c[c.len() - 1];
        assert(adj.spec_neighbors(c[c.len() - 2]).contains(c[(c.len() - 2) + 1]));
        assert(adj.spec_neighbors(p).contains(q));
        let k = choose|k: int| 0 <= k < adj.spec_neighbors(p).len() && adj.spec_neighbors(p)[k] == q;
        assert(sz.spec_connected(p, adj.spec_neighbors(p)[k]));
    }
}

} // verus!
