//! Open set of the path search: a binary min-heap of search nodes, ordered
//! by estimated total cost, then larger cost so far, then row, then column.
//! Pushes and pops move elements exactly as the standard library's binary
//! heap does, so equal keys leave in the same order.

use vstd::prelude::*;

verus! {

/// A search node.
#[derive(Debug, Clone, Copy, PartialEq, Eq, Structural)]
pub struct AStarNode {
    /// Estimated total cost: cost so far plus heuristic.
    pub f_cost: i64,
    /// Cost from the start to this node.
    pub g_cost: i64,
    pub x: u16,
    pub y: u16,
    /// Path height carried by this node.
    pub height: u8,
    /// Layer chosen when the node was pushed.
    pub on_bridge: bool,
}

/// Whether `a` orders no later than `b`: smaller `f`, then larger `g`, then
/// smaller `y`, then smaller `x`.
pub open spec fn node_le(a: AStarNode, b: AStarNode) -> bool {
    if a.f_cost != b.f_cost {
        a.f_cost < b.f_cost
    } else if a.g_cost != b.g_cost {
        a.g_cost > b.g_cost
    } else if a.y != b.y {
        a.y < b.y
    } else {
        a.x <= b.x
    }
}

/// Compare two nodes by the open-set order.
pub fn node_le_exec(a: &AStarNode, b: &AStarNode) -> (r: bool)
    ensures
        r == node_le(*a, *b),
{
    if a.f_cost != b.f_cost {
        a.f_cost < b.f_cost
    } else if a.g_cost != b.g_cost {
        a.g_cost > b.g_cost
    } else if a.y != b.y {
        a.y < b.y
    } else {
        a.x <= b.x
    }
}

/// Every element of `new` is an element of `old`.
pub open spec fn drawn_from(new: Seq<AStarNode>, old: Seq<AStarNode>) -> bool {
    forall|k: int| 0 <= k < new.len() ==> old.contains(#[trigger] new[k])
}

fn swap_nodes(v: &mut Vec<AStarNode>, i: usize, j: usize)
    requires
        i < old(v)@.len(),
        j < old(v)@.len(),
    ensures
        final(v)@ == old(v)@.update(i as int, old(v)@[j as int]).update(j as int, old(v)@[i as int]),
{
    let a = v[i];
    let b = v[j];
    v.set(i, b);
    v.set(j, a);
}

proof fn lemma_swap_drawn(v: Seq<AStarNode>, i: int, j: int, orig: Seq<AStarNode>)
    requires
        0 <= i < v.len(),
        0 <= j < v.len(),
        drawn_from(v, orig),
    ensures
        drawn_from(v.update(i, v[j]).update(j, v[i]), orig),
{
    let w = v.update(i, v[j]).update(j, v[i]);
    assert forall|k: int| 0 <= k < w.len() implies orig.contains(#[trigger] w[k]) by {
        if k == j {
            assert(w[k] == v[i]);
        } else if k == i {
            assert(w[k] == v[j]);
        } else {
            assert(w[k] == v[k]);
        }
    }
}

/// `s` with the elements at `i` and `j` exchanged.
pub open spec fn swapped(s: Seq<AStarNode>, i: int, j: int) -> Seq<AStarNode> {
    s.update(i, s[j]).update(j, s[i])
}

/// Moving the element at `hole` up: while it orders before its parent it
/// trades places with the parent. Gives the sequence and the element's
/// final position.
pub open spec fn sifted_up(s: Seq<AStarNode>, hole: int) -> (Seq<AStarNode>, int)
    decreases hole,
{
    if hole <= 0 || hole >= s.len() {
        (s, hole)
    } else {
        let parent = (hole - 1) / 2;
        if node_le(s[parent], s[hole]) {
            (s, hole)
        } else {
            sifted_up(swapped(s, hole, parent), parent)
        }
    }
}

/// Moving the hole at `hole` down to the bottom of a heap of `end`
/// elements: it trades places with the child that orders first (the right
/// one on ties), or with the only child. Gives the sequence and the hole's
/// final position.
pub open spec fn sunk_to_bottom(s: Seq<AStarNode>, hole: int, end: int) -> (Seq<AStarNode>, int)
    decreases end - hole,
{
    let child = 2 * hole + 1;
    if hole < 0 || end > s.len() {
        (s, hole)
    } else if child + 1 < end {
        let c = if node_le(s[child + 1], s[child]) {
            child + 1
        } else {
            child
        };
        sunk_to_bottom(swapped(s, hole, c), c, end)
    } else if child == end - 1 {
        (swapped(s, hole, child), child)
    } else {
        (s, hole)
    }
}

/// The standard library's "sift down to bottom" from the root: the root
/// element sinks to the bottom, then moves up to its place.
pub open spec fn resifted_from_root(s: Seq<AStarNode>) -> Seq<AStarNode> {
    let d = sunk_to_bottom(s, 0, s.len() as int);
    sifted_up(d.0, d.1).0
}

/// `s` with `item` pushed: appended, then moved up to its place.
pub open spec fn pushed(s: Seq<AStarNode>, item: AStarNode) -> Seq<AStarNode> {
    sifted_up(s.push(item), s.len() as int).0
}

/// `s` with its least element popped: the last element takes the root's
/// place and is resifted.
pub open spec fn popped(s: Seq<AStarNode>) -> Seq<AStarNode> {
    if s.len() <= 1 {
        Seq::empty()
    } else {
        resifted_from_root(s.drop_last().update(0, s.last()))
    }
}

proof fn lemma_sifted_up_len(s: Seq<AStarNode>, hole: int)
    ensures
        sifted_up(s, hole).0.len() == s.len(),
        0 <= hole < s.len() ==> 0 <= sifted_up(s, hole).1 <= hole,
    decreases hole,
{
    if hole > 0 && hole < s.len() {
        let parent = (hole - 1) / 2;
        if !node_le(s[parent], s[hole]) {
            lemma_sifted_up_len(swapped(s, hole, parent), parent);
        }
    }
}

fn sift_up(v: &mut Vec<AStarNode>, pos: usize) -> (r: usize)
    requires
        pos < old(v)@.len(),
    ensures
        (final(v)@, r as int) == sifted_up(old(v)@, pos as int),
        final(v)@.len() == old(v)@.len(),
        drawn_from(final(v)@, old(v)@),
        r < final(v)@.len(),
{
    let ghost orig = v@;
    let mut hole = pos;
    proof {
        assert forall|k: int| 0 <= k < v@.len() implies orig.contains(#[trigger] v@[k]) by {
            assert(v@[k] == orig[k]);
        }
    }
    while hole > 0
        invariant
            hole < v@.len(),
            v@.len() == orig.len(),
            drawn_from(v@, orig),
            sifted_up(orig, pos as int) == sifted_up(v@, hole as int),
        ensures
            hole < v@.len(),
            v@.len() == orig.len(),
            drawn_from(v@, orig),
            sifted_up(orig, pos as int) == sifted_up(v@, hole as int),
            hole == 0 || node_le(v@[(hole - 1) / 2], v@[hole as int]),
        decreases hole,
    {
        let parent = (hole - 1) / 2;
        if node_le_exec(&v[parent], &v[hole]) {
            break;
        }
        proof {
            lemma_swap_drawn(v@, hole as int, parent as int, orig);
        }
        swap_nodes(v, hole, parent);
        hole = parent;
    }
    hole
}

fn sift_down_to_bottom(v: &mut Vec<AStarNode>)
    requires
        old(v)@.len() > 0,
    ensures
        final(v)@ == resifted_from_root(old(v)@),
        final(v)@.len() == old(v)@.len(),
        drawn_from(final(v)@, old(v)@),
{
    let ghost orig = v@;
    let end = v.len();
    let mut hole: usize = 0;
    let mut child: usize = 1;
    proof {
        assert forall|k: int| 0 <= k < v@.len() implies orig.contains(#[trigger] v@[k]) by {
            assert(v@[k] == orig[k]);
        }
    }
    while end >= 2 && child <= end - 2
        invariant
            end == v@.len(),
            v@.len() == orig.len(),
            hole < end,
            child == 2 * hole + 1 || (child == end && hole >= end / 2),
            drawn_from(v@, orig),
            sunk_to_bottom(orig, 0, end as int) == sunk_to_bottom(v@, hole as int, end as int),
        decreases end - hole,
    {
        if node_le_exec(&v[child + 1], &v[child]) {
            child = child + 1;
        }
        proof {
            lemma_swap_drawn(v@, hole as int, child as int, orig);
        }
        swap_nodes(v, hole, child);
        hole = child;
        if hole >= end / 2 {
            child = end;
        } else {
            child = 2 * hole + 1;
        }
    }
    if child < end && child == end - 1 {
        proof {
            lemma_swap_drawn(v@, hole as int, child as int, orig);
        }
        swap_nodes(v, hole, child);
        hole = child;
    }
    assert(sunk_to_bottom(orig, 0, end as int) == (v@, hole as int));
    let ghost mid = v@;
    let _ = sift_up(v, hole);
    proof {
        assert forall|k: int| 0 <= k < v@.len() implies orig.contains(#[trigger] v@[k]) by {
            let t1 = choose|t1: int| 0 <= t1 < mid.len() && mid[t1] == v@[k];
            assert(orig.contains(mid[t1]));
        }
    }
}

/// Push a node onto the open set.
pub fn heap_push(v: &mut Vec<AStarNode>, item: AStarNode)
    ensures
        final(v)@ == pushed(old(v)@, item),
        final(v)@.len() == old(v)@.len() + 1,
        forall|k: int| 0 <= k < final(v)@.len() ==> #[trigger] final(v)@[k] == item || old(v)@.contains(final(v)@[k]),
{
    let ghost orig = v@;
    v.push(item);
    let ghost mid = v@;
    let n = v.len();
    let _ = sift_up(v, n - 1);
    proof {
        assert forall|k: int| 0 <= k < v@.len() implies #[trigger] v@[k] == item || orig.contains(v@[k]) by {
            let t1 = choose|t1: int| 0 <= t1 < mid.len() && mid[t1] == v@[k];
            if t1 < orig.len() {
                assert(mid[t1] == orig[t1]);
            }
        }
    }
}

/// Pop the least node of the open set; `None` when empty.
pub fn heap_pop(v: &mut Vec<AStarNode>) -> (r: Option<AStarNode>)
    ensures
        old(v)@.len() == 0 <==> r is None,
        old(v)@.len() > 0 ==> final(v)@.len() == old(v)@.len() - 1,
        old(v)@.len() == 0 ==> final(v)@.len() == 0,
        r matches Some(n) ==> old(v)@.contains(n),
        r matches Some(n) ==> n == old(v)@[0],
        final(v)@ == popped(old(v)@),
        drawn_from(final(v)@, old(v)@),
{
    let ghost orig = v@;
    match v.pop() {
        None => {
            proof {
                assert(drawn_from(v@, orig));
            }
            None
        },
        Some(last) => {
            let ghost after_pop = v@;
            proof {
                assert(last == orig[orig.len() - 1]);
                assert forall|k: int| 0 <= k < v@.len() implies orig.contains(#[trigger] v@[k]) by {
                    assert(v@[k] == orig[k]);
                }
            }
            if v.len() == 0 {
                assert(v@ =~= Seq::<AStarNode>::empty());
                return Some(last);
            }
            let top = v[0];
            v.set(0, last);
            proof {
                assert forall|k: int| 0 <= k < v@.len() implies orig.contains(#[trigger] v@[k]) by {
                    if k == 0 {
                        assert(v@[k] == orig[orig.len() - 1]);
                    } else {
                        assert(v@[k] == orig[k]);
                    }
                }
            }
            let ghost mid = v@;
            assert(mid =~= orig.drop_last().update(0, orig.last()));
            sift_down_to_bottom(v);
            proof {
                assert(top == orig[0]);
                assert forall|k: int| 0 <= k < v@.len() implies orig.contains(#[trigger] v@[k]) by {
                    let t1 = choose|t1: int| 0 <= t1 < mid.len() && v@[k] == mid[t1];
                    assert(mid[t1] == mid[t1]);
                }
            }
            Some(top)
        },
    }
}

/// Exchanging two elements keeps the multiset of elements.
proof fn lemma_swapped_multiset(s: Seq<AStarNode>, i: int, j: int)
    requires
        0 <= i < s.len(),
        0 <= j < s.len(),
    ensures
        swapped(s, i, j).to_multiset() == s.to_multiset(),
{
    broadcast use vstd::seq_lib::to_multiset_update, vstd::multiset::group_multiset_axioms,
        vstd::seq_lib::to_multiset_contains;

    assert(s.contains(s[i]) && s.contains(s[j]));
    let s1 = s.update(i, s[j]);
    assert(s1.to_multiset() == s.to_multiset().insert(s[j]).remove(s[i]));
    assert(s1[j] == if i == j { s[j] } else { s[j] });
    assert(swapped(s, i, j).to_multiset() == s1.to_multiset().insert(s[i]).remove(s1[j]));
    assert(swapped(s, i, j).to_multiset() =~= s.to_multiset());
}

/// Sifting up keeps the multiset of elements.
proof fn lemma_sifted_up_multiset(s: Seq<AStarNode>, hole: int)
    ensures
        sifted_up(s, hole).0.to_multiset() == s.to_multiset(),
    decreases hole,
{
    if hole > 0 && hole < s.len() {
        let parent = (hole - 1) / 2;
        if !node_le(s[parent], s[hole]) {
            lemma_swapped_multiset(s, hole, parent);
            lemma_sifted_up_multiset(swapped(s, hole, parent), parent);
        }
    }
}

/// Sinking to the bottom keeps the multiset of elements.
proof fn lemma_sunk_multiset(s: Seq<AStarNode>, hole: int, end: int)
    ensures
        sunk_to_bottom(s, hole, end).0.to_multiset() == s.to_multiset(),
    decreases end - hole,
{
    let child = 2 * hole + 1;
    if hole < 0 || end > s.len() {
    } else if child + 1 < end {
        let c = if node_le(s[child + 1], s[child]) {
            child + 1
        } else {
            child
        };
        lemma_swapped_multiset(s, hole, c);
        lemma_sunk_multiset(swapped(s, hole, c), c, end);
    } else if child == end - 1 {
        lemma_swapped_multiset(s, hole, child);
    }
}

/// Pushing adds the item to the multiset of elements.
pub proof fn lemma_pushed_multiset(s: Seq<AStarNode>, item: AStarNode)
    ensures
        pushed(s, item).to_multiset() == s.to_multiset().insert(item),
{
    broadcast use vstd::seq_lib::to_multiset_build;

    lemma_sifted_up_multiset(s.push(item), s.len() as int);
}

/// Popping removes the first element from the multiset of elements.
pub proof fn lemma_popped_multiset(s: Seq<AStarNode>)
    requires
        s.len() > 0,
    ensures
        popped(s).to_multiset() == s.to_multiset().remove(s[0]),
{
    broadcast use vstd::seq_lib::to_multiset_update, vstd::seq_lib::to_multiset_remove,
        vstd::multiset::group_multiset_axioms, vstd::seq_lib::to_multiset_len, vstd::seq_lib::to_multiset_contains;

    assert(s.contains(s[0]) && s.contains(s.last()));

    if s.len() == 1 {
        assert(s.remove(0) =~= Seq::<AStarNode>::empty());
        assert(s.remove(0).to_multiset() == s.to_multiset().remove(s[0]));
        assert(popped(s).to_multiset() =~= Seq::<AStarNode>::empty().to_multiset());
    } else {
        let d = s.drop_last();
        assert(d =~= s.remove(s.len() - 1));
        assert(d.to_multiset() == s.to_multiset().remove(s.last()));
        let u = d.update(0, s.last());
        assert(u.to_multiset() == d.to_multiset().insert(s.last()).remove(d[0]));
        assert(u.to_multiset() =~= s.to_multiset().remove(s[0]));
        let t = sunk_to_bottom(u, 0, u.len() as int);
        lemma_sunk_multiset(u, 0, u.len() as int);
        lemma_sifted_up_multiset(t.0, t.1);
    }
}

} // verus!
