use vstd::prelude::*;
use crate::key::lemma_shr_div;
use crate::voxels::morton::{
    lemma_compact_bound, lemma_decode_encode, lemma_encode_decode, lemma_interleave_bound, lemma_pow2_mono, lemma_pow8_mono, lemma_pow2_triple, lemma_pow_positive, morton_of, position_of,
    pow2, pow8, Morton, MortonCode, AXIS_BITS,
};

verus! {

/// A node of a pointer octree: up to eight children, each an index into the
/// tree's arena, and a material tag.
#[derive(Clone, Copy, PartialEq, Debug)]
pub struct Voxel {
    children: [Option<usize>; 8],
    material: u32,
}

impl Voxel {
    /// The child indices, one per octant.
    pub closed spec fn kids(&self) -> Seq<Option<usize>> {
        self.children@
    }

    /// The material tag.
    pub closed spec fn tag(&self) -> u32 {
        self.material
    }

    /// A node with no children and the empty material 0.
    pub fn empty() -> (r: Self)
        ensures
            r.kids() == Seq::new(8, |i: int| None::<usize>),
            r.tag() == 0,
    {
        let r = Self { children: [None; 8], material: 0 };
        assert(r.kids() =~= Seq::new(8, |i: int| None::<usize>));
        r
    }

    /// Whether the node has no children.
    pub fn is_empty(&self) -> (r: bool)
        ensures
            r == forall|i: int| 0 <= i < 8 ==> #[trigger] self.kids()[i] is None,
    {
        let mut i: usize = 0;
        while i < 8
            invariant
                i <= 8,
                self.kids().len() == 8,
                forall|j: int| 0 <= j < i ==> #[trigger] self.kids()[j] is None,
            decreases 8 - i,
        {
            if self.children[i].is_some() {
                return false;
            }
            i = i + 1;
        }
        true
    }

    /// The child index in octant `i`.
    pub fn child(&self, i: usize) -> (r: Option<usize>)
        requires
            i < 8,
        ensures
            r == self.kids()[i as int],
    {
        self.children[i]
    }

    /// The material tag.
    pub fn material(&self) -> (r: u32)
        ensures
            r == self.tag(),
    {
        self.material
    }
}

/// Nodes with the same children and material are the same node value.
pub proof fn lemma_voxel_eq(a: Voxel, b: Voxel)
    requires
        a.kids() == b.kids(),
        a.tag() == b.tag(),
    ensures
        a == b,
{
    broadcast use vstd::array::axiom_array_ext_equal;
    assert(a.children =~= b.children);
}

/// The octant that a code picks at a level: its three bits at that level.
pub open spec fn slot(code: u64, level: u64) -> int {
    ((code >> (3 * level) as u64) & 7) as int
}

/// The node that the first `steps` levels of a descent from the root reach,
/// the levels taken from `depth - 1` down; `None` where a child is missing.
pub open spec fn walk(vs: Seq<Voxel>, code: u64, depth: u64, steps: nat) -> Option<usize>
    decreases steps,
{
    if steps == 0 {
        Some(0usize)
    } else {
        match walk(vs, code, depth, (steps - 1) as nat) {
            Some(c) => vs[c as int].kids()[slot(code, (depth - steps) as u64)],
            None => None,
        }
    }
}

/// Whether `b` keeps every child link of `a`: `b` only adds nodes and fills
/// in missing links.
pub open spec fn keeps_links(a: Seq<Voxel>, b: Seq<Voxel>) -> bool {
    &&& a.len() <= b.len()
    &&& forall|i: int, s: int|
        0 <= i < a.len() && 0 <= s < 8 && (#[trigger] a[i].kids()[s]) is Some ==> b[i].kids()[s]
            == a[i].kids()[s]
}

/// Whether every child link of `vs` points into `vs`, and every node has
/// eight octants.
pub open spec fn links_in_range(vs: Seq<Voxel>) -> bool {
    &&& vs.len() >= 1
    &&& forall|i: int| 0 <= i < vs.len() ==> (#[trigger] vs[i]).kids().len() == 8
    &&& forall|i: int, s: int|
        0 <= i < vs.len() && 0 <= s < 8 && (#[trigger] vs[i].kids()[s]) is Some ==> vs[i].kids()[s]->Some_0
            < vs.len()
}

/// A descent that reaches a node keeps reaching it when links are only
/// added.
pub proof fn lemma_walk_kept(a: Seq<Voxel>, b: Seq<Voxel>, code: u64, depth: u64, steps: nat)
    requires
        keeps_links(a, b),
        links_in_range(a),
        walk(a, code, depth, steps) is Some,
        steps <= depth,
        depth <= 21,
    ensures
        walk(b, code, depth, steps) == walk(a, code, depth, steps),
        walk(a, code, depth, steps)->Some_0 < a.len(),
    decreases steps,
{
    if steps > 0 {
        lemma_walk_kept(a, b, code, depth, (steps - 1) as nat);
        let c = walk(a, code, depth, (steps - 1) as nat)->Some_0;
        let s = slot(code, (depth - steps) as u64);
        assert(0 <= s < 8) by {
            let l = (3 * (depth - steps)) as u64;
            assert((code >> l) & 7 < 8) by (bit_vector);
        }
        assert(a[c as int].kids()[s] is Some);
    }
}

/// Whether some node links to node `c`.
pub open spec fn has_parent(vs: Seq<Voxel>, c: int) -> bool {
    exists|p: int, s: int| 0 <= p < vs.len() && 0 <= s < 8 && vs[p].kids()[s] == Some(c as usize)
}

/// Whether a node has a child.
pub open spec fn has_child(v: Voxel) -> bool {
    exists|s: int| 0 <= s < 8 && v.kids()[s] is Some
}

/// The shape of a tree of `d` levels with node levels `lv`: the root at
/// level 0, every other node below it, each child one level below its
/// parent, no children at level `d`, the empty material on every node
/// between the root and level `d`, and at most one link to each node.
pub open spec fn layered(vs: Seq<Voxel>, lv: Seq<nat>, d: nat) -> bool {
    &&& lv.len() == vs.len()
    &&& lv[0] == 0
    &&& forall|i: int| 0 < i < vs.len() ==> #[trigger] lv[i] >= 1
    &&& forall|i: int| 0 <= i < vs.len() ==> #[trigger] lv[i] <= d
    &&& forall|i: int, s: int|
        0 <= i < vs.len() && 0 <= s < 8 && (#[trigger] vs[i].kids()[s]) is Some ==> lv[vs[i].kids()[s]->Some_0 as int]
            == lv[i] + 1
    &&& forall|i: int| 0 < i < vs.len() && lv[i] < d ==> (#[trigger] vs[i]).tag() == 0
    &&& forall|p1: int, s1: int, p2: int, s2: int|
        0 <= p1 < vs.len() && 0 <= s1 < 8 && 0 <= p2 < vs.len() && 0 <= s2 < 8 && (
        #[trigger] vs[p1].kids()[s1]) is Some && #[trigger] vs[p2].kids()[s2] == vs[p1].kids()[s1]
            ==> p1 == p2 && s1 == s2
}

/// Whether every linked node above level `d`, but the root and node `e`,
/// has a child.
pub open spec fn filled_except(vs: Seq<Voxel>, lv: Seq<nat>, d: nat, e: int) -> bool {
    forall|i: int|
        0 < i < vs.len() && i != e && lv[i] < d && has_parent(vs, i) ==> has_child(#[trigger] vs[i])
}

/// The shape that insertions and removals keep.
pub open spec fn shaped(vs: Seq<Voxel>, lv: Seq<nat>, d: nat) -> bool {
    &&& links_in_range(vs)
    &&& layered(vs, lv, d)
    &&& filled_except(vs, lv, d, 0)
}

/// Hanging a new empty node under node `cur` at octant `s`.
proof fn lemma_grow(
    vs: Seq<Voxel>,
    lv: Seq<nat>,
    d: nat,
    cur: int,
    s: int,
    n: usize,
    vs2: Seq<Voxel>,
    lv2: Seq<nat>,
)
    requires
        links_in_range(vs),
        layered(vs, lv, d),
        filled_except(vs, lv, d, cur),
        0 <= cur < vs.len(),
        0 <= s < 8,
        lv[cur] < d,
        vs[cur].kids()[s] is None,
        n == vs.len(),
        vs2.len() == vs.len() + 1,
        forall|i: int| 0 <= i < vs.len() && i != cur ==> vs2[i] == vs[i],
        vs2[cur].kids() == vs[cur].kids().update(s, Some(n)),
        vs2[cur].tag() == vs[cur].tag(),
        vs2[vs.len() as int].kids() == Seq::new(8, |i: int| None::<usize>),
        vs2[vs.len() as int].tag() == 0,
        lv2 == lv.push(lv[cur] + 1),
    ensures
        links_in_range(vs2),
        layered(vs2, lv2, d),
        filled_except(vs2, lv2, d, vs.len() as int),
        keeps_links(vs, vs2),
{
    assert forall|i: int| 0 <= i < vs2.len() implies (#[trigger] vs2[i]).kids().len() == 8 by {
        if i < n && i != cur {
            assert(vs2[i] == vs[i]);
        }
    }
    assert forall|i: int, t: int| 0 <= i < vs2.len() && 0 <= t < 8 && (#[trigger] vs2[i].kids()[t]) is Some
        implies vs2[i].kids()[t]->Some_0 < vs2.len() && lv2[vs2[i].kids()[t]->Some_0 as int] == lv2[i] + 1 by {
        assert(lv2[n as int] == lv[cur] + 1);
        if i < n {
            assert(lv2[i] == lv[i]);
        }
        if i < n && i != cur {
            assert(vs2[i] == vs[i]);
            assert(lv2[vs[i].kids()[t]->Some_0 as int] == lv[vs[i].kids()[t]->Some_0 as int]);
        } else if i == cur && t != s {
            assert(vs2[i].kids()[t] == vs[i].kids()[t]);
            assert(lv2[vs[i].kids()[t]->Some_0 as int] == lv[vs[i].kids()[t]->Some_0 as int]);
        } else if i == cur {
            assert(vs2[i].kids()[t] == Some(n));
        } else {
            assert(i == n);
            assert(vs2[i].kids()[t] is None);
        }
    }
    assert forall|i: int| 0 < i < vs2.len() && lv2[i] < d implies (#[trigger] vs2[i]).tag() == 0 by {
        if i < n && i != cur {
            assert(vs2[i] == vs[i]);
        }
    }
    assert forall|i: int| 0 < i < vs2.len() implies #[trigger] lv2[i] >= 1 by {
        if i < n {
            assert(lv2[i] == lv[i]);
        }
    }
    assert forall|i: int| 0 <= i < vs2.len() implies #[trigger] lv2[i] <= d by {
        if i < n {
            assert(lv2[i] == lv[i]);
        }
    }
    assert forall|i: int, t: int| 0 <= i < vs2.len() && 0 <= t < 8 && lv2[i] == d implies #[trigger] vs2[i].kids()[t] is None by {
        if i < n && i != cur {
            assert(vs2[i] == vs[i]);
            assert(lv2[i] == lv[i]);
        }
    }
    assert forall|p1: int, s1: int, p2: int, s2: int|
        0 <= p1 < vs2.len() && 0 <= s1 < 8 && 0 <= p2 < vs2.len() && 0 <= s2 < 8 && (
        #[trigger] vs2[p1].kids()[s1]) is Some && #[trigger] vs2[p2].kids()[s2] == vs2[p1].kids()[s1]
        implies p1 == p2 && s1 == s2 by {
        let new1 = p1 == cur && s1 == s;
        let new2 = p2 == cur && s2 == s;
        assert(p1 != n) by {
            if p1 == n {
                assert(vs2[p1].kids()[s1] is None);
            }
        }
        assert(p2 != n) by {
            if p2 == n {
                assert(vs2[p2].kids()[s2] is None);
            }
        }
        if !new1 {
            assert(vs2[p1].kids()[s1] == vs[p1].kids()[s1]) by {
                if p1 != cur {
                    assert(vs2[p1] == vs[p1]);
                }
            }
            assert(vs[p1].kids()[s1]->Some_0 < n);
        }
        if !new2 {
            assert(vs2[p2].kids()[s2] == vs[p2].kids()[s2]) by {
                if p2 != cur {
                    assert(vs2[p2] == vs[p2]);
                }
            }
            assert(vs[p2].kids()[s2]->Some_0 < n);
        }
        if new1 && !new2 {
            assert(vs2[p1].kids()[s1] == Some(n));
        }
        if new2 && !new1 {
            assert(vs2[p2].kids()[s2] == Some(n));
        }
        if !new1 && !new2 {
            assert(vs[p1].kids()[s1] is Some && vs[p2].kids()[s2] == vs[p1].kids()[s1]);
        }
    }
    assert forall|i: int|
        0 < i < vs2.len() && i != n && lv2[i] < d && has_parent(vs2, i) implies has_child(#[trigger] vs2[i]) by {
        if i == cur {
            assert(vs2[i].kids()[s] is Some);
        } else {
            assert(vs2[i] == vs[i]);
            let (p, t) = choose|p: int, t: int| 0 <= p < vs2.len() && 0 <= t < 8 && vs2[p].kids()[t] == Some(i as usize);
            if p == cur && t == s {
                assert(false);
            } else if p == n {
                assert(false);
            } else if p == cur {
                assert(vs[p].kids()[t] == Some(i as usize));
            } else {
                assert(vs2[p] == vs[p]);
            }
            assert(has_parent(vs, i));
            let w = choose|w: int| 0 <= w < 8 && vs[i].kids()[w] is Some;
            assert(vs2[i].kids()[w] is Some);
        }
    }
    assert forall|i: int, t: int| 0 <= i < vs.len() && 0 <= t < 8 && (#[trigger] vs[i].kids()[t]) is Some implies vs2[i].kids()[t]
        == vs[i].kids()[t] by {
        if i != cur {
            assert(vs2[i] == vs[i]);
        }
    }
}

/// Unlinking a childless node `c` from octant `s` of its parent `p`: the
/// parent becomes the one node that may lack a child.
proof fn lemma_unlink(vs: Seq<Voxel>, lv: Seq<nat>, d: nat, p: int, s: int, c: int, vs2: Seq<Voxel>)
    requires
        links_in_range(vs),
        layered(vs, lv, d),
        filled_except(vs, lv, d, c),
        0 <= p < vs.len(),
        0 <= s < 8,
        vs[p].kids()[s] == Some(c as usize),
        !has_child(vs[c]),
        vs2.len() == vs.len(),
        forall|i: int| 0 <= i < vs.len() && i != p ==> vs2[i] == vs[i],
        vs2[p].kids() == vs[p].kids().update(s, None),
        vs2[p].tag() == vs[p].tag(),
    ensures
        links_in_range(vs2),
        layered(vs2, lv, d),
        filled_except(vs2, lv, d, p),
        keeps_links(vs2, vs),
        !has_parent(vs2, c),
{
    assert forall|i: int| 0 <= i < vs2.len() implies (#[trigger] vs2[i]).kids().len() == 8 by {
        if i != p {
            assert(vs2[i] == vs[i]);
        }
    }
    assert forall|i: int, t: int| 0 <= i < vs2.len() && 0 <= t < 8 && (#[trigger] vs2[i].kids()[t]) is Some
        implies vs2[i].kids()[t] == vs[i].kids()[t] by {
        if i != p {
            assert(vs2[i] == vs[i]);
        }
    }
    assert forall|i: int| 0 < i < vs2.len() && lv[i] < d implies (#[trigger] vs2[i]).tag() == 0 by {
        if i != p {
            assert(vs2[i] == vs[i]);
        }
    }
    assert forall|i: int, t: int| 0 <= i < vs2.len() && 0 <= t < 8 && lv[i] == d implies #[trigger] vs2[i].kids()[t] is None by {
        if i != p {
            assert(vs2[i] == vs[i]);
        }
    }
    assert forall|p1: int, s1: int, p2: int, s2: int|
        0 <= p1 < vs2.len() && 0 <= s1 < 8 && 0 <= p2 < vs2.len() && 0 <= s2 < 8 && (
        #[trigger] vs2[p1].kids()[s1]) is Some && #[trigger] vs2[p2].kids()[s2] == vs2[p1].kids()[s1]
        implies p1 == p2 && s1 == s2 by {
        assert(vs2[p1].kids()[s1] == vs[p1].kids()[s1]);
        assert(vs2[p2].kids()[s2] == vs[p2].kids()[s2]);
        assert(vs[p1].kids()[s1] is Some && vs[p2].kids()[s2] == vs[p1].kids()[s1]);
    }
    assert(!has_parent(vs2, c)) by {
        if has_parent(vs2, c) {
            let (q, t) = choose|q: int, t: int| 0 <= q < vs2.len() && 0 <= t < 8 && vs2[q].kids()[t] == Some(c as usize);
            assert(vs2[q].kids()[t] == vs[q].kids()[t]);
            assert(vs[p].kids()[s] is Some && vs[q].kids()[t] == vs[p].kids()[s]);
        }
    }
    assert forall|i: int|
        0 < i < vs2.len() && i != p && lv[i] < d && has_parent(vs2, i) implies has_child(#[trigger] vs2[i]) by {
        assert(vs2[i] == vs[i]);
        let (q, t) = choose|q: int, t: int| 0 <= q < vs2.len() && 0 <= t < 8 && vs2[q].kids()[t] == Some(i as usize);
        assert(vs2[q].kids()[t] == vs[q].kids()[t]);
        assert(has_parent(vs, i));
        assert(i != c);
    }
}

/// Setting the material of a node at the last level, or of the root, keeps
/// the shape.
proof fn lemma_retag(vs: Seq<Voxel>, lv: Seq<nat>, d: nat, j: int, e: int, vs2: Seq<Voxel>)
    requires
        links_in_range(vs),
        layered(vs, lv, d),
        filled_except(vs, lv, d, e),
        0 <= j < vs.len(),
        j == 0 || lv[j] == d,
        vs2.len() == vs.len(),
        forall|i: int| 0 <= i < vs.len() && i != j ==> vs2[i] == vs[i],
        vs2[j].kids() == vs[j].kids(),
    ensures
        links_in_range(vs2),
        layered(vs2, lv, d),
        filled_except(vs2, lv, d, e),
        keeps_links(vs2, vs),
        keeps_links(vs, vs2),
        forall|i: int| 0 <= i < vs.len() ==> (#[trigger] vs2[i]).kids() == vs[i].kids(),
{
    assert forall|i: int| 0 <= i < vs.len() implies (#[trigger] vs2[i]).kids() == vs[i].kids() by {
        if i != j {
            assert(vs2[i] == vs[i]);
        }
    }
    assert forall|i: int| 0 < i < vs2.len() && lv[i] < d implies (#[trigger] vs2[i]).tag() == 0 by {
        if i != j {
            assert(vs2[i] == vs[i]);
        }
    }
    assert forall|i: int|
        0 < i < vs2.len() && i != e && lv[i] < d && has_parent(vs2, i) implies has_child(#[trigger] vs2[i]) by {
        let (q, t) = choose|q: int, t: int| 0 <= q < vs2.len() && 0 <= t < 8 && vs2[q].kids()[t] == Some(i as usize);
        assert(vs2[q].kids() == vs[q].kids());
        assert(has_parent(vs, i));
        let w = choose|w: int| 0 <= w < 8 && vs[i].kids()[w] is Some;
        assert(vs2[i].kids()[w] is Some);
    }
    assert forall|p1: int, s1: int, p2: int, s2: int|
        0 <= p1 < vs2.len() && 0 <= s1 < 8 && 0 <= p2 < vs2.len() && 0 <= s2 < 8 && (
        #[trigger] vs2[p1].kids()[s1]) is Some && #[trigger] vs2[p2].kids()[s2] == vs2[p1].kids()[s1]
        implies p1 == p2 && s1 == s2 by {
        assert(vs2[p1].kids() == vs[p1].kids());
        assert(vs2[p2].kids() == vs[p2].kids());
        assert(vs[p1].kids()[s1] is Some && vs[p2].kids()[s2] == vs[p1].kids()[s1]);
    }
}

/// The node allowed to lack a child can move once the old one is settled.
proof fn lemma_move_exception(vs: Seq<Voxel>, lv: Seq<nat>, d: nat, e: int, e2: int)
    requires
        filled_except(vs, lv, d, e),
        e <= 0 || e >= vs.len() || lv[e] >= d || has_child(vs[e]),
    ensures
        filled_except(vs, lv, d, e2),
{
}

/// Whether `stack` records the path from the root to `cur`: entry `t` is a
/// node of level `t` and the octant through which the path leaves it.
pub open spec fn chain(vs: Seq<Voxel>, lv: Seq<nat>, stack: Seq<(usize, usize)>, cur: usize) -> bool {
    &&& lv[cur as int] == stack.len()
    &&& cur < vs.len()
    &&& forall|t: int|
        #![trigger stack[t]]
        0 <= t < stack.len() ==> {
            &&& stack[t].0 < vs.len()
            &&& stack[t].1 < 8
            &&& lv[stack[t].0 as int] == t
            &&& vs[stack[t].0 as int].kids()[stack[t].1 as int] == Some(
                if t + 1 < stack.len() {
                    stack[t + 1].0
                } else {
                    cur
                },
            )
        }
}

/// The node that a descent of `k` levels along the octal digits of `p`
/// reaches, the most significant digit first.
pub open spec fn walk_digits(vs: Seq<Voxel>, p: nat, k: nat) -> Option<usize>
    decreases k,
{
    if k == 0 {
        Some(0usize)
    } else {
        match walk_digits(vs, p / 8, (k - 1) as nat) {
            Some(c) => vs[c as int].kids()[(p % 8) as int],
            None => None,
        }
    }
}

proof fn lemma_slot_digit(code: u64, l: u64)
    requires
        l <= 21,
    ensures
        slot(code, l) == (code as nat / pow8(l as nat)) % 8,
{
    let sh = (3 * l) as u64;
    lemma_shr_div(code, sh);
    lemma_pow2_triple(l as nat);
    let q = code >> sh;
    assert(q & 7 == q % 8) by (bit_vector);
}

/// A descent along a code's levels is a descent along the digits of its
/// leading part.
proof fn lemma_walk_digits(vs: Seq<Voxel>, code: u64, d: u64, k: nat)
    requires
        k <= d <= 21,
    ensures
        walk(vs, code, d, k) == walk_digits(vs, code as nat / pow8((d - k) as nat), k),
    decreases k,
{
    if k > 0 {
        lemma_walk_digits(vs, code, d, (k - 1) as nat);
        let l = (d - k) as nat;
        lemma_pow_positive(l + 1);
        lemma_slot_digit(code, l as u64);
        lemma_pow_positive(l);
        vstd::arithmetic::div_mod::lemma_div_denominator(code as int, pow8(l) as int, 8);
        assert(pow8(l + 1) == pow8(l) * 8);
        assert((d - (k - 1)) as nat == l + 1);
        let p = code as nat / pow8(l);
        assert(p / 8 == code as nat / pow8(l + 1));
        assert(walk(vs, code, d, (k - 1) as nat) == walk_digits(vs, p / 8, (k - 1) as nat));
        assert(slot(code, (d - k) as u64) == (p % 8) as int);
        assert(walk_digits(vs, p, k) == match walk_digits(vs, p / 8, (k - 1) as nat) {
            Some(c) => vs[c as int].kids()[(p % 8) as int],
            None => None,
        });
        assert(walk(vs, code, d, k) == match walk(vs, code, d, (k - 1) as nat) {
            Some(c) => vs[c as int].kids()[slot(code, (d - k) as u64)],
            None => None,
        });
        assert(walk(vs, code, d, k) == walk_digits(vs, p, k));
    } else {
        lemma_pow_positive(d as nat);
    }
}

/// From a node reached along the digits of `p`, children lead all the way
/// down to the last level when the root has a child.
proof fn lemma_descend(vs: Seq<Voxel>, lv: Seq<nat>, d: nat, p: nat, k: nat, node: usize) -> (p2: nat)
    requires
        shaped(vs, lv, d),
        k <= d,
        walk_digits(vs, p, k) == Some(node),
        p < pow8(k),
        node < vs.len(),
        lv[node as int] == k,
        has_child(vs[0]),
    ensures
        p2 < pow8(d),
        walk_digits(vs, p2, d) is Some,
    decreases d - k,
{
    if k == d {
        p
    } else {
        if k > 0 {
            let c = walk_digits(vs, p / 8, (k - 1) as nat)->Some_0;
            assert(vs[c as int].kids()[(p % 8) as int] == Some(node));
            lemma_walk_digits_in_range(vs, lv, d, p / 8, (k - 1) as nat);
            assert(has_parent(vs, node as int));
            assert(node != 0);
            assert(has_child(vs[node as int]));
        }
        let w = choose|w: int| 0 <= w < 8 && vs[node as int].kids()[w] is Some;
        let c = vs[node as int].kids()[w]->Some_0;
        let p1 = p * 8 + w as nat;
        assert(p1 / 8 == p && p1 % 8 == w);
        assert(walk_digits(vs, p1, k + 1) == Some(c));
        assert(pow8(k + 1) == 8 * pow8(k));
        lemma_descend(vs, lv, d, p1, k + 1, c)
    }
}

/// A digit descent only reaches nodes of the arena.
proof fn lemma_walk_digits_in_range(vs: Seq<Voxel>, lv: Seq<nat>, d: nat, p: nat, k: nat)
    requires
        links_in_range(vs),
        layered(vs, lv, d),
        walk_digits(vs, p, k) is Some,
    ensures
        walk_digits(vs, p, k)->Some_0 < vs.len(),
    decreases k,
{
    if k > 0 {
        lemma_walk_digits_in_range(vs, lv, d, p / 8, (k - 1) as nat);
        let c = walk_digits(vs, p / 8, (k - 1) as nat)->Some_0;
        assert(vs[c as int].kids()[(p % 8) as int] is Some);
    }
}

/// `1 << t` is `2^t`.
proof fn lemma_shl_one(t: u32)
    requires
        t < 32,
    ensures
        (1u32 << t) as nat == pow2(t as nat),
    decreases t,
{
    if t == 0 {
        assert(1u32 << 0u32 == 1) by (bit_vector);
    } else {
        let u = (t - 1) as u32;
        lemma_shl_one(u);
        assert(u < 31 && t == u + 1 ==> 1u32 << t == (1u32 << u) * 2) by (bit_vector);
    }
}

/// Two digit descents that reach the same node took the same digits.
proof fn lemma_walk_digits_injective(vs: Seq<Voxel>, lv: Seq<nat>, d: nat, p1: nat, p2: nat, k: nat)
    requires
        links_in_range(vs),
        layered(vs, lv, d),
        walk_digits(vs, p1, k) is Some,
        walk_digits(vs, p1, k) == walk_digits(vs, p2, k),
        p1 < pow8(k),
        p2 < pow8(k),
    ensures
        p1 == p2,
    decreases k,
{
    if k > 0 {
        let c1 = walk_digits(vs, p1 / 8, (k - 1) as nat)->Some_0;
        let c2 = walk_digits(vs, p2 / 8, (k - 1) as nat)->Some_0;
        lemma_walk_digits_in_range(vs, lv, d, p1 / 8, (k - 1) as nat);
        lemma_walk_digits_in_range(vs, lv, d, p2 / 8, (k - 1) as nat);
        let s1 = (p1 % 8) as int;
        let s2 = (p2 % 8) as int;
        assert(vs[c1 as int].kids()[s1] is Some && vs[c2 as int].kids()[s2] == vs[c1 as int].kids()[s1]);
        assert(pow8(k) == 8 * pow8((k - 1) as nat));
        lemma_walk_digits_injective(vs, lv, d, p1 / 8, p2 / 8, (k - 1) as nat);
    }
}

/// A descent of `k` levels reaches a node of level `k`.
proof fn lemma_walk_level(vs: Seq<Voxel>, lv: Seq<nat>, d: nat, code: u64, depth: u64, k: nat)
    requires
        links_in_range(vs),
        layered(vs, lv, d),
        walk(vs, code, depth, k) is Some,
        k <= depth <= 21,
    ensures
        walk(vs, code, depth, k)->Some_0 < vs.len(),
        lv[walk(vs, code, depth, k)->Some_0 as int] == k,
    decreases k,
{
    if k > 0 {
        lemma_walk_level(vs, lv, d, code, depth, (k - 1) as nat);
        let c = walk(vs, code, depth, (k - 1) as nat)->Some_0;
        lemma_slot_range(code, (depth - k) as u64);
        assert(vs[c as int].kids()[slot(code, (depth - k) as u64)] is Some);
    }
}

/// The code of a cell of a cube of side `2^d` has `d` octal digits.
proof fn lemma_cells_below_side(x: u32, y: u32, z: u32, d: nat)
    requires
        x < pow2(d),
        y < pow2(d),
        z < pow2(d),
        d <= 21,
    ensures
        morton_of(x as nat, y as nat, z as nat) < pow8(d),
        morton_of(x as nat, y as nat, z as nat) as u64 as nat == morton_of(x as nat, y as nat, z as nat),
        x < pow2(AXIS_BITS as nat) && y < pow2(AXIS_BITS as nat) && z < pow2(AXIS_BITS as nat),
{
    lemma_interleave_bound(x as nat, y as nat, z as nat, AXIS_BITS as nat, d);
    lemma_pow8_mono(d, AXIS_BITS as nat);
    lemma_pow2_mono(d, AXIS_BITS as nat);
    reveal_with_fuel(pow8, 22);
}

/// Whether `b` grew from `a` only by nodes at index `n0` and above: links
/// between nodes below `n0` are those of `a`, and new nodes link only to
/// new nodes.
pub open spec fn grown_from(a: Seq<Voxel>, b: Seq<Voxel>, n0: int) -> bool {
    &&& n0 == a.len() <= b.len()
    &&& forall|i: int, s: int|
        0 <= i < n0 && 0 <= s < 8 && (#[trigger] b[i].kids()[s]) is Some && b[i].kids()[s]->Some_0 < n0
            ==> a[i].kids()[s] == b[i].kids()[s]
    &&& forall|i: int, s: int|
        n0 <= i < b.len() && 0 <= s < 8 && (#[trigger] b[i].kids()[s]) is Some ==> b[i].kids()[s]->Some_0 >= n0
}

/// A descent of the grown tree that ends on an old node is a descent of
/// the old tree.
proof fn lemma_old_walk(a: Seq<Voxel>, b: Seq<Voxel>, n0: int, code: u64, depth: u64, k: nat)
    requires
        grown_from(a, b, n0),
        links_in_range(b),
        walk(b, code, depth, k) is Some,
        walk(b, code, depth, k)->Some_0 < n0,
        k <= depth <= 21,
    ensures
        walk(a, code, depth, k) == walk(b, code, depth, k),
    decreases k,
{
    if k > 0 {
        let q = walk(b, code, depth, (k - 1) as nat)->Some_0;
        lemma_walk_kept(b, b, code, depth, (k - 1) as nat);
        lemma_slot_range(code, (depth - k) as u64);
        let s = slot(code, (depth - k) as u64);
        assert(b[q as int].kids()[s] is Some);
        if q >= n0 {
            assert(b[q as int].kids()[s]->Some_0 >= n0);
        }
        lemma_old_walk(a, b, n0, code, depth, (k - 1) as nat);
    }
}

proof fn lemma_pow2_injective(a: nat, b: nat)
    requires
        pow2(a) == pow2(b),
    ensures
        a == b,
{
    if a < b {
        lemma_pow2_mono(a + 1, b);
        lemma_pow_positive(a);
        assert(pow2(a + 1) == 2 * pow2(a));
    } else if b < a {
        lemma_pow2_mono(b + 1, a);
        lemma_pow_positive(b);
        assert(pow2(b + 1) == 2 * pow2(b));
    }
}

/// A full descent that does not end on `cur` never takes the link from
/// `p` at octant `s` to the childless node `cur`, so dropping that link
/// leaves the descent as it was.
proof fn lemma_walk_avoids(
    vs: Seq<Voxel>,
    vs2: Seq<Voxel>,
    code: u64,
    depth: u64,
    k: nat,
    p: int,
    s: int,
    cur: usize,
)
    requires
        links_in_range(vs),
        vs2.len() == vs.len(),
        0 <= p < vs.len(),
        0 <= s < 8,
        forall|i: int| 0 <= i < vs.len() && i != p ==> vs2[i] == vs[i],
        vs2[p].kids() == vs[p].kids().update(s, None),
        vs[p].kids()[s] == Some(cur),
        !has_child(vs[cur as int]),
        walk(vs, code, depth, depth as nat) is Some,
        walk(vs, code, depth, depth as nat) != Some(cur),
        k <= depth <= 21,
    ensures
        walk(vs2, code, depth, k) == walk(vs, code, depth, k),
    decreases k,
{
    if k > 0 {
        lemma_walk_avoids(vs, vs2, code, depth, (k - 1) as nat, p, s, cur);
        if walk(vs, code, depth, (k - 1) as nat) is None {
            lemma_walk_stopped(vs, code, depth, (k - 1) as nat, depth as nat);
        }
        lemma_walk_kept(vs, vs, code, depth, (k - 1) as nat);
        let q = walk(vs, code, depth, (k - 1) as nat)->Some_0;
        lemma_slot_range(code, (depth - k) as u64);
        let sl = slot(code, (depth - k) as u64);
        if q == p && sl == s {
            assert(walk(vs, code, depth, k) == Some(cur));
            if k < depth {
                lemma_slot_range(code, (depth - k - 1) as u64);
                let sl2 = slot(code, (depth - (k + 1)) as u64);
                assert(vs[cur as int].kids()[sl2] is None);
                assert(walk(vs, code, depth, k + 1) is None);
                lemma_walk_stopped(vs, code, depth, k + 1, depth as nat);
            }
        } else if q == p {
            assert(vs2[q as int].kids()[sl] == vs[q as int].kids()[sl]);
        } else {
            assert(vs2[q as int] == vs[q as int]);
        }
    }
}

/// A descent that stops at a missing child stays stopped.
pub proof fn lemma_walk_stopped(vs: Seq<Voxel>, code: u64, depth: u64, steps: nat, more: nat)
    requires
        walk(vs, code, depth, steps) is None,
        steps <= more,
    ensures
        walk(vs, code, depth, more) is None,
    decreases more,
{
    if more > steps {
        lemma_walk_stopped(vs, code, depth, steps, (more - 1) as nat);
    }
}

proof fn lemma_slot_range(code: u64, level: u64)
    requires
        level <= 21,
    ensures
        0 <= slot(code, level) < 8,
        slot(code, level) == ((code >> (level * 3)) & 7) as int,
{
    let l = (3 * level) as u64;
    assert((code >> l) & 7 < 8) by (bit_vector);
    assert(l == level * 3);
}

/// A pointer octree over a cube of `size` cells a side: an arena of nodes,
/// the root at index 0, children linked by index.
pub struct SparseVoxelOctree {
    voxels: Vec<Voxel>,
    pub size: u32,
    levels: Ghost<Seq<nat>>,
}

impl SparseVoxelOctree {
    /// The arena, root first.
    pub closed spec fn nodes(&self) -> Seq<Voxel> {
        self.voxels@
    }

    /// The side of the cube, in cells.
    pub closed spec fn side(&self) -> u32 {
        self.size
    }

    /// The number of levels between the root and a cell.
    pub closed spec fn depth(&self) -> u64 {
        self.size.trailing_zeros() as u64
    }

    pub closed spec fn wf(&self) -> bool {
        &&& shaped(self.voxels@, self.levels@, self.depth() as nat)
        &&& self.depth() <= 21
        &&& self.size as nat == pow2(self.depth() as nat)
    }

    /// The node for a cell, if the descent reaches one.
    pub open spec fn lookup(&self, x: u32, y: u32, z: u32) -> Option<Voxel> {
        match walk(self.nodes(), morton_of(x as nat, y as nat, z as nat) as u64, self.depth(), self.depth() as nat) {
            Some(i) => Some(self.nodes()[i as int]),
            None => None,
        }
    }

    /// Whether the descent to a cell gets through its first `k` levels.
    pub open spec fn reaches(&self, x: u32, y: u32, z: u32, k: nat) -> bool {
        walk(self.nodes(), morton_of(x as nat, y as nat, z as nat) as u64, self.depth(), k) is Some
    }

    /// The arena index of the node that holds a cell, if it is reached.
    pub open spec fn cell_node(&self, x: u32, y: u32, z: u32) -> Option<usize> {
        walk(self.nodes(), morton_of(x as nat, y as nat, z as nat) as u64, self.depth(), self.depth() as nat)
    }

    /// The arena index of the node at level `k` on the path to a cell.
    pub open spec fn path_node(&self, x: u32, y: u32, z: u32, k: nat) -> int {
        walk(self.nodes(), morton_of(x as nat, y as nat, z as nat) as u64, self.depth(), k)->Some_0 as int
    }

    /// The octant through which the path to a cell leaves level `k`.
    pub open spec fn path_slot(&self, x: u32, y: u32, z: u32, k: nat) -> int {
        slot(morton_of(x as nat, y as nat, z as nat) as u64, (self.depth() - k - 1) as u64)
    }

    /// Whether octant `s` of node `i` is a link of the path to a cell that
    /// leaves a level from `cut - 1` down.
    pub open spec fn path_link_from(&self, x: u32, y: u32, z: u32, cut: nat, i: int, s: int) -> bool {
        exists|k: nat|
            cut - 1 <= k < self.depth() && i == #[trigger] self.path_node(x, y, z, k) && s == self.path_slot(
                x,
                y,
                z,
                k,
            )
    }

    /// Whether `after` has the links of this arena, but for the path links
    /// to a cell that leave a level from `cut - 1` down, which are dropped.
    pub open spec fn pruned_links(&self, after: Seq<Voxel>, x: u32, y: u32, z: u32, cut: nat) -> bool {
        forall|i: int, s: int|
            0 <= i < after.len() && 0 <= s < 8 ==> #[trigger] after[i].kids()[s] == if self.path_link_from(
                x,
                y,
                z,
                cut,
                i,
                s,
            ) {
                None
            } else {
                self.nodes()[i].kids()[s]
            }
    }

    /// Whether the path nodes of levels `cut..=depth` have, in `after`, no
    /// children and the empty material.
    pub open spec fn pruned_clean(&self, after: Seq<Voxel>, x: u32, y: u32, z: u32, cut: nat) -> bool {
        forall|k: nat|
            cut <= k <= self.depth() ==> !has_child(after[#[trigger] self.path_node(x, y, z, k)]) && after[self.path_node(
                x,
                y,
                z,
                k,
            )].tag() == 0
    }

    /// Whether `after` is this arena with the cell removed and its path
    /// pruned from level `cut` down: the leaf gets the empty material, the
    /// path links into levels `cut..=depth` are dropped and nothing else
    /// changes; each node cut off has no children and the empty material,
    /// and the node left at level `cut - 1` is the root or has a child or a
    /// material.
    pub open spec fn pruned_to(&self, after: Seq<Voxel>, x: u32, y: u32, z: u32, cut: nat) -> bool {
        &&& after.len() == self.nodes().len()
        &&& self.pruned_links(after, x, y, z, cut)
        &&& forall|i: int|
            0 <= i < after.len() ==> #[trigger] after[i].tag() == if i == self.path_node(x, y, z, self.depth() as nat) {
                0
            } else {
                self.nodes()[i].tag()
            }
        &&& self.pruned_clean(after, x, y, z, cut)
        &&& cut == 1 || has_child(after[self.path_node(x, y, z, (cut - 1) as nat)]) || after[self.path_node(
            x,
            y,
            z,
            (cut - 1) as nat,
        )].tag() != 0
    }

    /// Cutting the path link that leaves level `l - 1` keeps the account of
    /// what is pruned.
    proof fn lemma_prune_step(&self, x: u32, y: u32, z: u32, vs: Seq<Voxel>, vs2: Seq<Voxel>, l: nat)
        requires
            self.wf(),
            1 <= l <= self.depth(),
            self.lookup(x, y, z) is Some,
            vs.len() == self.nodes().len(),
            vs2.len() == vs.len(),
            forall|i: int| 0 <= i < vs.len() && i != self.path_node(x, y, z, (l - 1) as nat) ==> vs2[i] == vs[i],
            vs2[self.path_node(x, y, z, (l - 1) as nat)].kids() == vs[self.path_node(x, y, z, (l - 1) as nat)].kids().update(
                self.path_slot(x, y, z, (l - 1) as nat),
                None,
            ),
            !has_child(vs[self.path_node(x, y, z, l)]),
            vs[self.path_node(x, y, z, l)].tag() == 0,
            self.pruned_links(vs, x, y, z, l + 1),
            self.pruned_clean(vs, x, y, z, l + 1),
        ensures
            self.pruned_links(vs2, x, y, z, l),
            self.pruned_clean(vs2, x, y, z, l),
    {
        let code = morton_of(x as nat, y as nat, z as nat) as u64;
        let d = self.depth();
        let vs0 = self.nodes();
        let lv = self.levels@;
        let p = self.path_node(x, y, z, (l - 1) as nat);
        let s = self.path_slot(x, y, z, (l - 1) as nat);
        assert forall|k: nat| k <= d implies #[trigger] walk(vs0, code, d, k) is Some && lv[self.path_node(x, y, z, k)]
            == k by {
            if walk(vs0, code, d, k) is None {
                lemma_walk_stopped(vs0, code, d, k, d as nat);
            }
            lemma_walk_level(vs0, lv, d as nat, code, d, k);
        }
        assert(walk(vs0, code, d, (l - 1) as nat) is Some);
        assert(lv[p] == l - 1);
        lemma_slot_range(code, (d - l) as u64);
        assert(0 <= s < 8);
        assert forall|i: int, t: int| 0 <= i < vs2.len() && 0 <= t < 8 implies #[trigger] vs2[i].kids()[t] == if self.path_link_from(
            x,
            y,
            z,
            l,
            i,
            t,
        ) {
            None
        } else {
            vs0[i].kids()[t]
        } by {
            if i == p && t == s {
                assert(self.path_node(x, y, z, (l - 1) as nat) == p);
                assert(self.path_link_from(x, y, z, l, i, t));
            } else {
                assert(vs2[i].kids()[t] == vs[i].kids()[t]);
                if self.path_link_from(x, y, z, l, i, t) {
                    let k = choose|k: nat|
                        l - 1 <= k < d && i == #[trigger] self.path_node(x, y, z, k) && t == self.path_slot(x, y, z, k);
                    assert(k != l - 1);
                    assert(self.path_link_from(x, y, z, l + 1, i, t));
                } else {
                    if self.path_link_from(x, y, z, l + 1, i, t) {
                        let k = choose|k: nat|
                            l <= k < d && i == #[trigger] self.path_node(x, y, z, k) && t == self.path_slot(x, y, z, k);
                        assert(self.path_link_from(x, y, z, l, i, t));
                    }
                }
            }
        }
        assert forall|k: nat| l <= k <= d implies !has_child(vs2[#[trigger] self.path_node(x, y, z, k)]) && vs2[self.path_node(
            x,
            y,
            z,
            k,
        )].tag() == 0 by {
            lemma_walk_level(vs0, lv, d as nat, code, d, k);
            assert(lv[self.path_node(x, y, z, k)] == k);
            assert(self.path_node(x, y, z, k) != p);
            assert(vs2[self.path_node(x, y, z, k)] == vs[self.path_node(x, y, z, k)]);
        }
    }

    /// A tree of one root node, with no children, tagged `u32::MAX`.
    pub fn empty(size: u32) -> (r: Self)
        requires
            1 <= size <= 0x20_0000,
            size & (size - 1) as u32 == 0,
        ensures
            r.wf(),
            r.side() == size,
            r.nodes().len() == 1,
            r.nodes()[0].kids() == Seq::new(8, |i: int| None::<usize>),
            r.nodes()[0].tag() == u32::MAX,
            size >= 2 ==> forall|x: u32, y: u32, z: u32| #[trigger] r.lookup(x, y, z) is None,
            size >= 2 ==> forall|x: u32, y: u32, z: u32| !(#[trigger] r.reaches(x, y, z, 1)),
    {
        let r = Self {
            voxels: vec![Voxel { children: [None; 8], material: u32::MAX }],
            size,
            levels: Ghost(Seq::<nat>::empty().push(0)),
        };
        proof {
            let t = size.trailing_zeros();
            broadcast use vstd::std_specs::bits::axiom_u32_trailing_zeros;
            assert((size >> t) & 1u32 == 1u32);
            assert(1 <= size <= 0x20_0000 && t < 32 && (size >> t) & 1u32 == 1u32 ==> t <= 21)
                by (bit_vector);
            assert(size & (size - 1) as u32 == 0 && t < 32 && (size >> t) & 1u32 == 1u32 ==> size == 1u32
                << t) by (bit_vector);
            lemma_shl_one(t);
            assert(r.voxels@[0].kids() =~= Seq::new(8, |i: int| None::<usize>));
            let vs = r.voxels@;
            assert forall|i: int, s: int| 0 <= i < vs.len() && 0 <= s < 8 implies #[trigger] vs[i].kids()[s] is None by {
                assert(i == 0);
            }
            if size >= 2 {
                assert(t >= 1) by {
                    if t == 0 {
                        assert(pow2(0) == 1);
                    }
                }
                assert forall|x: u32, y: u32, z: u32| !(#[trigger] r.reaches(x, y, z, 1)) by {
                    let code = morton_of(x as nat, y as nat, z as nat) as u64;
                    lemma_slot_range(code, (t - 1) as u64);
                    let sl = slot(code, (t as u64 - 1) as u64);
                    assert(vs[0].kids()[sl] is None);
                    assert(walk(vs, code, t as u64, 0) == Some(0usize));
                }
                assert forall|x: u32, y: u32, z: u32| #[trigger] r.lookup(x, y, z) is None by {
                    let code = morton_of(x as nat, y as nat, z as nat) as u64;
                    lemma_slot_range(code, (t - 1) as u64);
                    let sl = slot(code, (t as u64 - 1) as u64);
                    assert(vs[0].kids()[sl] is None);
                    assert(walk(vs, code, t as u64, 0) == Some(0usize));
                    assert(walk(vs, code, t as u64, 1) is None);
                    lemma_walk_stopped(vs, code, t as u64, 1, t as nat);
                }
            }
        }
        r
    }

    /// The side is `2^depth()`, with at most 21 levels; only that depth has
    /// that side.
    pub proof fn lemma_dims(&self)
        requires
            self.wf(),
        ensures
            self.side() as nat == pow2(self.depth() as nat),
            self.depth() <= 21,
            self.side() >= 2 ==> self.depth() >= 1,
            forall|k: nat| pow2(k) == self.side() ==> k == self.depth(),
    {
        if self.depth() == 0 {
            assert(pow2(0) == 1);
        }
        assert forall|k: nat| pow2(k) == self.side() implies k == self.depth() by {
            lemma_pow2_injective(k, self.depth() as nat);
        }
    }

    /// The side of the cube, in cells: the value of the public `size`
    /// field, tied to the side that the contracts speak of.
    pub fn side_len(&self) -> (r: u32)
        ensures
            r == self.side(),
    {
        self.size
    }

    /// The number of nodes in the arena. Removal never shrinks it.
    pub fn node_count(&self) -> (r: usize)
        ensures
            r == self.nodes().len(),
    {
        self.voxels.len()
    }

    /// The node at an arena index.
    pub fn node(&self, i: usize) -> (r: Voxel)
        requires
            self.wf(),
            i < self.nodes().len(),
        ensures
            r == self.nodes()[i as int],
            r.kids().len() == 8,
    {
        self.voxels[i]
    }

    /// The well-formed tree has a root and eight octants per node.
    pub proof fn lemma_nodes(&self)
        requires
            self.wf(),
        ensures
            self.nodes().len() >= 1,
            forall|i: int| 0 <= i < self.nodes().len() ==> (#[trigger] self.nodes()[i]).kids().len() == 8,
            forall|i: int, s: int|
                0 <= i < self.nodes().len() && 0 <= s < 8 && (#[trigger] self.nodes()[i].kids()[s]) is Some
                    ==> self.nodes()[i].kids()[s]->Some_0 < self.nodes().len(),
    {
    }

    /// The root node.
    pub fn root(&self) -> (r: Voxel)
        requires
            self.wf(),
        ensures
            r == self.nodes()[0],
    {
        self.voxels[0]
    }

    /// The node for a cell: descends from the root along the cell's Morton
    /// digits, coarsest first, and stops at the first missing child.
    pub fn get(&self, x: u32, y: u32, z: u32) -> (r: Option<Voxel>)
        requires
            self.wf(),
        ensures
            r == self.lookup(x, y, z),
    {
        let code: MortonCode = MortonCode::encode(x, y, z);
        let depth: u64 = self.size.trailing_zeros() as u64;
        let ghost vs = self.voxels@;
        let mut voxel_index: usize = 0;
        let mut level: u64 = depth;
        while level > 0
            invariant
                self.wf(),
                vs == self.voxels@,
                code as nat == morton_of(x as nat, y as nat, z as nat),
                depth == self.depth(),
                level <= depth,
                walk(vs, code, depth, (depth - level) as nat) == Some(voxel_index),
                voxel_index < vs.len(),
            decreases level,
        {
            level = level - 1;
            proof {
                lemma_slot_range(code, level);
            }
            let child_index = ((code >> (level * 3)) & 0b111) as usize;
            match self.voxels[voxel_index].children[child_index] {
                Some(next) => {
                    voxel_index = next;
                },
                None => {
                    proof {
                        lemma_walk_stopped(vs, code, depth, (depth - level) as nat, depth as nat);
                    }
                    return None;
                },
            }
        }
        Some(self.voxels[voxel_index])
    }

    /// Sets the material of a cell, creating the missing nodes on its path.
    pub fn insert(&mut self, x: u32, y: u32, z: u32, material: u32)
        requires
            old(self).wf(),
            x < old(self).side(),
            y < old(self).side(),
            z < old(self).side(),
        ensures
            final(self).wf(),
            final(self).side() == old(self).side(),
            final(self).lookup(x, y, z) is Some,
            final(self).lookup(x, y, z)->Some_0.tag() == material,
            keeps_links(old(self).nodes(), final(self).nodes()),
            grown_from(old(self).nodes(), final(self).nodes(), old(self).nodes().len() as int),
            forall|a: u32, b: u32, c: u32|
                a < old(self).side() && b < old(self).side() && c < old(self).side() && (a, b, c) != (x, y, z)
                    ==> #[trigger] final(self).lookup(a, b, c) == old(self).lookup(a, b, c),
            forall|k: nat|
                k <= old(self).depth() && #[trigger] old(self).reaches(x, y, z, k) ==> final(self).nodes().len()
                    <= old(self).nodes().len() + old(self).depth() - k,
            forall|k: nat|
                k <= old(self).depth() && !(#[trigger] old(self).reaches(x, y, z, k)) ==> final(self).nodes().len()
                    >= old(self).nodes().len() + old(self).depth() - k + 1,
            forall|i: int|
                0 <= i < old(self).nodes().len() && final(self).cell_node(x, y, z) != Some(i as usize) ==> (
                #[trigger] final(self).nodes()[i]).tag() == old(self).nodes()[i].tag(),
            forall|i: int|
                old(self).nodes().len() <= i < final(self).nodes().len() && final(self).cell_node(x, y, z) != Some(
                    i as usize,
                ) ==> (#[trigger] final(self).nodes()[i]).tag() == 0,
            old(self).lookup(x, y, z) is Some && old(self).lookup(x, y, z)->Some_0.tag() == material
                ==> final(self).nodes() == old(self).nodes(),
    {
        let code: MortonCode = MortonCode::encode(x, y, z);
        let depth: u64 = self.size.trailing_zeros() as u64;
        let ghost d = depth as nat;
        let ghost vs0 = self.voxels@;
        assert(self.levels@.subrange(0, vs0.len() as int) =~= self.levels@);
        let mut voxel_index: usize = 0;
        let mut level: u64 = depth;
        let ghost mut created: nat = 0;
        while level > 0
            invariant
                links_in_range(self.voxels@),
                layered(self.voxels@, self.levels@, d),
                filled_except(self.voxels@, self.levels@, d, voxel_index as int),
                self.voxels@.len() == vs0.len() + created,
                created <= depth - level,
                created == 0 ==> self.voxels@ == vs0,
                created > 0 ==> walk(vs0, code, depth, (depth - level - created) as nat) is Some && walk(
                    vs0,
                    code,
                    depth,
                    (depth - level - created + 1) as nat,
                ) is None && voxel_index >= vs0.len() && forall|s: int|
                    0 <= s < 8 ==> #[trigger] self.voxels@[voxel_index as int].kids()[s] is None,
                forall|i: int| vs0.len() <= i < self.voxels@.len() ==> (#[trigger] self.voxels@[i]).tag() == 0,
                self.size == old(self).size,
                keeps_links(vs0, self.voxels@),
                code as nat == morton_of(x as nat, y as nat, z as nat),
                depth == self.depth(),
                d == depth as nat,
                depth <= 21,
                level <= depth,
                walk(self.voxels@, code, depth, (depth - level) as nat) == Some(voxel_index),
                voxel_index < self.voxels@.len(),
                self.levels@[voxel_index as int] == depth - level,
                vs0.len() <= self.voxels@.len(),
                forall|i: int| 0 <= i < vs0.len() ==> (#[trigger] self.voxels@[i]).tag() == vs0[i].tag(),
                self.levels@.subrange(0, vs0.len() as int) == old(self).levels@,
                grown_from(vs0, self.voxels@, vs0.len() as int),
                forall|i: int|
                    vs0.len() <= i < self.voxels@.len() ==> walk(self.voxels@, code, depth, #[trigger] self.levels@[i])
                        == Some(i as usize),
            decreases level,
        {
            level = level - 1;
            proof {
                lemma_slot_range(code, level);
            }
            let child_index = ((code >> (level * 3)) & 0b111) as usize;
            let ghost vs = self.voxels@;
            let ghost lv = self.levels@;
            let ghost steps = (depth - level) as nat;
            let cur = self.voxels[voxel_index];
            match cur.children[child_index] {
                Some(next) => {
                    proof {
                        assert(vs[voxel_index as int].kids()[child_index as int] is Some);
                        lemma_move_exception(vs, lv, d, voxel_index as int, next as int);
                    }
                    voxel_index = next;
                },
                None => {
                    let new_index = self.voxels.len();
                    let mut v = cur;
                    v.children[child_index] = Some(new_index);
                    self.voxels.set(voxel_index, v);
                    self.voxels.push(Voxel::empty());
                    self.levels = Ghost(lv.push(lv[voxel_index as int] + 1));
                    proof {
                        let vs2 = self.voxels@;
                        assert(v.kids() == cur.kids().update(child_index as int, Some(new_index)));
                        lemma_grow(vs, lv, d, voxel_index as int, child_index as int, new_index, vs2, self.levels@);
                        assert forall|i: int| 0 <= i < vs0.len() implies (#[trigger] vs2[i]).tag() == vs0[i].tag() by {
                            if i != voxel_index {
                                assert(vs2[i] == vs[i]);
                            }
                        }
                        assert(self.levels@.subrange(0, vs0.len() as int) =~= lv.subrange(0, vs0.len() as int));
                        assert(keeps_links(vs0, vs2)) by {
                            assert forall|i: int, s: int|
                                0 <= i < vs0.len() && 0 <= s < 8 && (#[trigger] vs0[i].kids()[s]) is Some implies vs2[i].kids()[s]
                                    == vs0[i].kids()[s] by {
                                assert(vs[i].kids()[s] == vs0[i].kids()[s]);
                            }
                        }
                        lemma_walk_kept(vs, vs2, code, depth, (steps - 1) as nat);
                        assert(slot(code, (depth - steps) as u64) == child_index);
                        assert(walk(vs2, code, depth, steps) == Some(new_index));
                        let lv2 = self.levels@;
                        assert(grown_from(vs0, vs2, vs0.len() as int)) by {
                            assert forall|i: int, t: int|
                                0 <= i < vs0.len() && 0 <= t < 8 && (#[trigger] vs2[i].kids()[t]) is Some && vs2[i].kids()[t]->Some_0
                                    < vs0.len() implies vs0[i].kids()[t] == vs2[i].kids()[t] by {
                                if !(i == voxel_index && t == child_index) {
                                    assert(vs2[i].kids()[t] == vs[i].kids()[t]) by {
                                        if i != voxel_index {
                                            assert(vs2[i] == vs[i]);
                                        }
                                    }
                                }
                            }
                            assert forall|i: int, t: int|
                                vs0.len() <= i < vs2.len() && 0 <= t < 8 && (#[trigger] vs2[i].kids()[t]) is Some implies vs2[i].kids()[t]->Some_0
                                    >= vs0.len() by {
                                if i < vs.len() && !(i == voxel_index && t == child_index) {
                                    assert(vs2[i].kids()[t] == vs[i].kids()[t]) by {
                                        if i != voxel_index {
                                            assert(vs2[i] == vs[i]);
                                        }
                                    }
                                }
                            }
                        }
                        if created == 0 {
                            assert(walk(vs0, code, depth, steps) is None);
                        }
                        assert forall|i: int| vs0.len() <= i < vs2.len() implies (#[trigger] vs2[i]).tag() == 0 by {
                            if i < vs.len() && i != voxel_index {
                                assert(vs2[i] == vs[i]);
                            }
                        }
                        assert forall|s: int| 0 <= s < 8 implies #[trigger] vs2[new_index as int].kids()[s] is None by {
                        }
                        assert forall|i: int| vs0.len() <= i < vs2.len() implies walk(vs2, code, depth, #[trigger] lv2[i])
                            == Some(i as usize) by {
                            if i < vs.len() {
                                assert(lv2[i] == lv[i]);
                                assert(lv[i] <= d);
                                lemma_walk_kept(vs, vs2, code, depth, lv[i]);
                            } else {
                                assert(lv2[i] == steps);
                            }
                        }
                    }
                    voxel_index = new_index;
                    proof {
                        created = created + 1;
                    }
                },
            }
        }
        let ghost vs = self.voxels@;
        let mut leaf = self.voxels[voxel_index];
        leaf.material = material;
        self.voxels.set(voxel_index, leaf);
        proof {
            let vs2 = self.voxels@;
            let lv = self.levels@;
            lemma_retag(vs, lv, d, voxel_index as int, voxel_index as int, vs2);
            lemma_move_exception(vs2, lv, d, voxel_index as int, 0);
            assert(keeps_links(vs0, vs2)) by {
                assert forall|i: int, s: int|
                    0 <= i < vs0.len() && 0 <= s < 8 && (#[trigger] vs0[i].kids()[s]) is Some implies vs2[i].kids()[s]
                        == vs0[i].kids()[s] by {
                    assert(vs[i].kids()[s] == vs0[i].kids()[s]);
                }
            }
            lemma_walk_kept(vs, vs2, code, depth, depth as nat);
            let lv0 = old(self).levels@;
            assert forall|a: u32, b: u32, c: u32|
                a < old(self).side() && b < old(self).side() && c < old(self).side() && (a, b, c) != (x, y, z)
                    && (#[trigger] old(self).lookup(a, b, c)) is Some implies self.lookup(a, b, c) is Some
                    && self.lookup(a, b, c)->Some_0.tag() == old(self).lookup(a, b, c)->Some_0.tag() by {
                let code2 = morton_of(a as nat, b as nat, c as nat) as u64;
                let i = walk(vs0, code2, depth, d)->Some_0;
                lemma_walk_level(vs0, lv0, d, code2, depth, d);
                lemma_walk_kept(vs0, vs2, code2, depth, d);
                if i == voxel_index {
                    lemma_walk_digits(vs2, code, depth, d);
                    lemma_walk_digits(vs2, code2, depth, d);
                    assert(pow8(0) == 1);
                    assert(code as nat / pow8(0) == code as nat);
                    assert(code2 as nat / pow8(0) == code2 as nat);
                    lemma_cells_below_side(x, y, z, d);
                    lemma_cells_below_side(a, b, c, d);
                    lemma_walk_digits_injective(vs2, lv, d, code as nat, code2 as nat, d);
                    lemma_decode_encode(x as nat, y as nat, z as nat);
                    lemma_decode_encode(a as nat, b as nat, c as nat);
                    assert(false);
                }
            }
            assert(grown_from(vs0, vs2, vs0.len() as int)) by {
                assert forall|i: int, t: int|
                    0 <= i < vs0.len() && 0 <= t < 8 && (#[trigger] vs2[i].kids()[t]) is Some && vs2[i].kids()[t]->Some_0
                        < vs0.len() implies vs0[i].kids()[t] == vs2[i].kids()[t] by {
                    assert(vs2[i].kids() == vs[i].kids());
                }
                assert forall|i: int, t: int|
                    vs0.len() <= i < vs2.len() && 0 <= t < 8 && (#[trigger] vs2[i].kids()[t]) is Some implies vs2[i].kids()[t]->Some_0
                        >= vs0.len() by {
                    assert(vs2[i].kids() == vs[i].kids());
                }
            }
            assert forall|a: u32, b: u32, c: u32|
                a < old(self).side() && b < old(self).side() && c < old(self).side() && (a, b, c) != (x, y, z)
                    && (#[trigger] old(self).lookup(a, b, c)) is None implies self.lookup(a, b, c) is None by {
                let code2 = morton_of(a as nat, b as nat, c as nat) as u64;
                if walk(vs2, code2, depth, d) is Some {
                    let j = walk(vs2, code2, depth, d)->Some_0;
                    lemma_walk_level(vs2, lv, d, code2, depth, d);
                    if j < vs0.len() {
                        lemma_old_walk(vs0, vs2, vs0.len() as int, code2, depth, d);
                    } else {
                        assert(walk(vs, code, depth, lv[j as int]) == Some(j));
                        lemma_walk_kept(vs, vs2, code, depth, d);
                        lemma_walk_digits(vs2, code, depth, d);
                        lemma_walk_digits(vs2, code2, depth, d);
                        assert(pow8(0) == 1);
                        assert(code as nat / pow8(0) == code as nat);
                        assert(code2 as nat / pow8(0) == code2 as nat);
                        lemma_cells_below_side(x, y, z, d);
                        lemma_cells_below_side(a, b, c, d);
                        lemma_walk_digits_injective(vs2, lv, d, code as nat, code2 as nat, d);
                        lemma_decode_encode(x as nat, y as nat, z as nat);
                        lemma_decode_encode(a as nat, b as nat, c as nat);
                        assert(false);
                    }
                }
            }
            let r = (d - created) as nat;
            assert forall|k: nat| k <= d && walk(vs0, code, depth, k) is Some implies vs2.len() <= vs0.len() + d - k by {
                if created > 0 && k > r {
                    lemma_walk_stopped(vs0, code, depth, r + 1, k);
                }
            }
            assert forall|k: nat| k <= d && walk(vs0, code, depth, k) is None implies vs2.len() >= vs0.len() + d - k
                + 1 by {
                if created == 0 {
                    lemma_walk_stopped(vs0, code, depth, k, d);
                } else if k <= r {
                    lemma_walk_stopped(vs0, code, depth, k, r);
                }
            }
            assert forall|i: int| 0 <= i < vs2.len() && i != voxel_index implies (#[trigger] vs2[i]) == vs[i] by {
            }
            let lv0 = old(self).levels@;
            assert forall|a: u32, b: u32, c: u32|
                a < old(self).side() && b < old(self).side() && c < old(self).side() && (a, b, c) != (x, y, z)
                    implies #[trigger] self.lookup(a, b, c) == old(self).lookup(a, b, c) by {
                if old(self).lookup(a, b, c) is Some {
                    let code2 = morton_of(a as nat, b as nat, c as nat) as u64;
                    let i = walk(vs0, code2, depth, d)->Some_0;
                    lemma_walk_level(vs0, lv0, d, code2, depth, d);
                    lemma_walk_kept(vs0, vs2, code2, depth, d);
                    assert(self.lookup(a, b, c) is Some);
                    assert(self.levels@[i as int] == lv0[i as int]) by {
                        assert(self.levels@.subrange(0, vs0.len() as int)[i as int] == lv0[i as int]);
                    }
                    assert(vs2[i as int].kids() =~= vs0[i as int].kids()) by {
                        assert forall|t: int| 0 <= t < 8 implies vs2[i as int].kids()[t] == vs0[i as int].kids()[t] by {
                            assert(vs0[i as int].kids()[t] is None);
                            assert(vs2[i as int].kids()[t] is None);
                        }
                    }
                    lemma_voxel_eq(vs2[i as int], vs0[i as int]);
                }
            }
            if old(self).lookup(x, y, z) is Some && old(self).lookup(x, y, z)->Some_0.tag() == material {
                if created > 0 {
                    lemma_walk_stopped(vs0, code, depth, r + 1, d);
                }
                assert(vs == vs0);
                lemma_voxel_eq(leaf, vs0[voxel_index as int]);
                assert(vs2 =~= vs0);
            }
        }
    }

    /// Empties a cell: sets its material to 0, then unlinks it and each
    /// ancestor in turn, from the cell up, for as long as the node has no
    /// children and the empty material. The arena keeps its length. Below a
    /// root with children the cell is then gone; a tree of one cell keeps
    /// its root, with the empty material.
    pub fn remove(&mut self, x: u32, y: u32, z: u32)
        requires
            old(self).wf(),
            x < old(self).side(),
            y < old(self).side(),
            z < old(self).side(),
        ensures
            final(self).wf(),
            final(self).side() == old(self).side(),
            final(self).nodes().len() == old(self).nodes().len(),
            final(self).lookup(x, y, z) is None || final(self).lookup(x, y, z)->Some_0.tag() == 0,
            old(self).side() >= 2 ==> final(self).lookup(x, y, z) is None,
            keeps_links(final(self).nodes(), old(self).nodes()),
            old(self).lookup(x, y, z) is None ==> final(self).nodes() == old(self).nodes(),
            old(self).side() >= 2 && old(self).lookup(x, y, z) is Some ==> exists|cut: nat|
                1 <= cut <= old(self).depth() && old(self).pruned_to(final(self).nodes(), x, y, z, cut),
            forall|a: u32, b: u32, c: u32|
                a < old(self).side() && b < old(self).side() && c < old(self).side() && (a, b, c) != (x, y, z)
                    ==> #[trigger] final(self).lookup(a, b, c) == old(self).lookup(a, b, c),
    {
        let code: MortonCode = MortonCode::encode(x, y, z);
        let depth: u64 = self.size.trailing_zeros() as u64;
        let ghost d = depth as nat;
        let ghost vs0 = self.voxels@;
        let ghost lv = self.levels@;
        let mut voxel_index: usize = 0;
        let mut level: u64 = depth;
        let mut parent_stack: Vec<(usize, usize)> = Vec::new();
        while level > 0
            invariant
                self.wf(),
                vs0 == self.voxels@,
                lv == self.levels@,
                d == depth as nat,
                code as nat == morton_of(x as nat, y as nat, z as nat),
                depth == self.depth(),
                level <= depth,
                walk(vs0, code, depth, (depth - level) as nat) == Some(voxel_index),
                parent_stack@.len() == depth - level,
                chain(vs0, lv, parent_stack@, voxel_index),
                vs0 == old(self).nodes(),
                depth == old(self).depth(),
                forall|t: int|
                    0 <= t < parent_stack@.len() ==> (#[trigger] parent_stack@[t]).0 as int == old(self).path_node(
                        x,
                        y,
                        z,
                        t as nat,
                    ) && parent_stack@[t].1 as int == old(self).path_slot(x, y, z, t as nat),
            decreases level,
        {
            level = level - 1;
            proof {
                lemma_slot_range(code, level);
            }
            let child_index = ((code >> (level * 3)) & 0b111) as usize;
            match self.voxels[voxel_index].children[child_index] {
                Some(next) => {
                    let ghost st = parent_stack@;
                    parent_stack.push((voxel_index, child_index));
                    proof {
                        assert(vs0[voxel_index as int].kids()[child_index as int] is Some);
                        assert forall|t: int|
                            0 <= t < parent_stack@.len() implies (#[trigger] parent_stack@[t]).0 as int == old(self).path_node(
                                x,
                                y,
                                z,
                                t as nat,
                            ) && parent_stack@[t].1 as int == old(self).path_slot(x, y, z, t as nat) by {
                            if t < st.len() {
                                assert(parent_stack@[t] == st[t]);
                            } else {
                                assert(slot(code, level) == child_index);
                            }
                        }
                        let st2 = parent_stack@;
                        assert forall|t: int| #![trigger st2[t]] 0 <= t < st2.len() implies {
                            &&& st2[t].0 < vs0.len()
                            &&& st2[t].1 < 8
                            &&& lv[st2[t].0 as int] == t
                            &&& vs0[st2[t].0 as int].kids()[st2[t].1 as int] == Some(
                                if t + 1 < st2.len() {
                                    st2[t + 1].0
                                } else {
                                    next
                                },
                            )
                        } by {
                            if t < st.len() {
                                assert(st2[t] == st[t]);
                                if t + 1 < st.len() {
                                    assert(st2[t + 1] == st[t + 1]);
                                }
                            }
                        }
                    }
                    voxel_index = next;
                },
                None => {
                    proof {
                        lemma_walk_stopped(vs0, code, depth, (depth - level) as nat, depth as nat);
                    }
                    return;
                },
            }
        }
        let ghost leaf = voxel_index;
        let mut node = self.voxels[voxel_index];
        node.material = 0;
        self.voxels.set(voxel_index, node);
        let ghost vs1 = self.voxels@;
        proof {
            lemma_retag(vs0, lv, d, voxel_index as int, 0, vs1);
            lemma_move_exception(vs1, lv, d, 0, voxel_index as int);
            lemma_walk_kept(vs0, vs1, code, depth, depth as nat);
            lemma_cells_below_side(x, y, z, d);
            assert forall|code2: u64|
                code2 < pow8(d) && code2 != code && #[trigger] walk(vs0, code2, depth, d) is Some implies walk(
                    vs1,
                    code2,
                    depth,
                    d,
                ) == walk(vs0, code2, depth, d) by {
                lemma_walk_kept(vs0, vs1, code2, depth, d);
            }
        }
        let mut done = false;
        while !done && parent_stack.len() > 0
            invariant
                links_in_range(self.voxels@),
                layered(self.voxels@, lv, d),
                filled_except(self.voxels@, lv, d, voxel_index as int),
                lv == self.levels@,
                d == depth as nat,
                depth == self.depth(),
                depth <= 21,
                self.size == old(self).size,
                self.voxels@.len() == vs0.len(),
                vs1.len() == vs0.len(),
                keeps_links(self.voxels@, vs1),
                forall|i: int| 0 <= i < vs1.len() ==> (#[trigger] self.voxels@[i]).tag() == vs1[i].tag(),
                forall|i: int| 0 <= i < vs1.len() ==> (#[trigger] vs1[i]).kids() == vs0[i].kids(),
                chain(self.voxels@, lv, parent_stack@, voxel_index),
                parent_stack@.len() == d ==> voxel_index == leaf && !done,
                parent_stack@.len() < d ==> !has_parent(self.voxels@, leaf as int),
                leaf < vs0.len(),
                vs1[leaf as int].tag() == 0,
                lv[leaf as int] == d,
                done ==> (has_child(self.voxels@[voxel_index as int]) || self.voxels@[voxel_index as int].tag() != 0),
                parent_stack@.len() == d ==> self.voxels@ == vs1,
                walk(vs1, code, depth, d) == Some(leaf),
                code as nat == morton_of(x as nat, y as nat, z as nat),
                code < pow8(d),
                forall|code2: u64|
                    code2 < pow8(d) && code2 != code && #[trigger] walk(vs0, code2, depth, d) is Some ==> walk(
                        self.voxels@,
                        code2,
                        depth,
                        d,
                    ) == walk(vs0, code2, depth, d),
                vs0 == old(self).nodes(),
                depth == old(self).depth(),
                parent_stack@.len() <= d,
                old(self).wf(),
                walk(vs0, code, depth, d) == Some(leaf),
                forall|t: int|
                    0 <= t < parent_stack@.len() ==> (#[trigger] parent_stack@[t]).0 as int == old(self).path_node(
                        x,
                        y,
                        z,
                        t as nat,
                    ) && parent_stack@[t].1 as int == old(self).path_slot(x, y, z, t as nat),
                voxel_index as int == old(self).path_node(x, y, z, parent_stack@.len() as nat),
                old(self).pruned_links(self.voxels@, x, y, z, (parent_stack@.len() + 1) as nat),
                old(self).pruned_clean(self.voxels@, x, y, z, (parent_stack@.len() + 1) as nat),
            decreases parent_stack@.len() + if done { 0int } else { 1int },
        {
            let ghost st = parent_stack@;
            let (parent_idx, child_idx) = parent_stack.pop().unwrap();
            let node = self.voxels[voxel_index];
            let childless = node.is_empty();
            if childless && node.material == 0 {
                let ghost vs = self.voxels@;
                let mut parent = self.voxels[parent_idx];
                parent.children[child_idx] = None;
                self.voxels.set(parent_idx, parent);
                proof {
                    let vs2 = self.voxels@;
                    let t = st.len() - 1;
                    assert(st[t] == (parent_idx, child_idx));
                    assert(vs[parent_idx as int].kids()[child_idx as int] == Some(voxel_index));
                    assert(parent.kids() == vs[parent_idx as int].kids().update(child_idx as int, None));
                    assert(!has_child(vs[voxel_index as int]));
                    lemma_unlink(vs, lv, d, parent_idx as int, child_idx as int, voxel_index as int, vs2);
                    assert(old(self).lookup(x, y, z) is Some);
                    assert(parent_idx as int == old(self).path_node(x, y, z, (st.len() - 1) as nat));
                    assert(child_idx as int == old(self).path_slot(x, y, z, (st.len() - 1) as nat));
                    old(self).lemma_prune_step(x, y, z, vs, vs2, st.len() as nat);
                    assert forall|code2: u64|
                        code2 < pow8(d) && code2 != code && #[trigger] walk(vs0, code2, depth, d) is Some implies walk(
                            vs2,
                            code2,
                            depth,
                            d,
                        ) == walk(vs0, code2, depth, d) by {
                        let j = walk(vs, code2, depth, d)->Some_0;
                        lemma_walk_level(vs, lv, d, code2, depth, d);
                        if j == voxel_index {
                            assert(st.len() == d);
                            assert(vs == vs1);
                            lemma_walk_digits(vs, code, depth, d);
                            lemma_walk_digits(vs, code2, depth, d);
                            assert(pow8(0) == 1);
                            assert(code as nat / pow8(0) == code as nat);
                            assert(code2 as nat / pow8(0) == code2 as nat);
                            lemma_walk_digits_injective(vs, lv, d, code as nat, code2 as nat, d);
                        }
                        lemma_walk_avoids(vs, vs2, code2, depth, d, parent_idx as int, child_idx as int, voxel_index);
                    }
                    assert(keeps_links(vs2, vs1)) by {
                        assert forall|i: int, s: int|
                            0 <= i < vs2.len() && 0 <= s < 8 && (#[trigger] vs2[i].kids()[s]) is Some implies vs1[i].kids()[s]
                                == vs2[i].kids()[s] by {
                            assert(vs[i].kids()[s] == vs2[i].kids()[s]);
                        }
                    }
                    assert forall|i: int| 0 <= i < vs1.len() implies (#[trigger] vs2[i]).tag() == vs1[i].tag() by {
                        assert(vs2[i].tag() == vs[i].tag());
                    }
                    let st2 = parent_stack@;
                    assert forall|u: int| #![trigger st2[u]] 0 <= u < st2.len() implies {
                        &&& st2[u].0 < vs2.len()
                        &&& st2[u].1 < 8
                        &&& lv[st2[u].0 as int] == u
                        &&& vs2[st2[u].0 as int].kids()[st2[u].1 as int] == Some(
                            if u + 1 < st2.len() {
                                st2[u + 1].0
                            } else {
                                parent_idx
                            },
                        )
                    } by {
                        assert(st2[u] == st[u]);
                        assert(st2[u].0 != parent_idx);
                        assert(vs2[st2[u].0 as int] == vs[st2[u].0 as int]);
                        if u + 1 < st2.len() {
                            assert(st2[u + 1] == st[u + 1]);
                        }
                    }
                    if st.len() < d {
                        assert(!has_parent(vs, leaf as int));
                        if has_parent(vs2, leaf as int) {
                            let (q, w) = choose|q: int, w: int| 0 <= q < vs2.len() && 0 <= w < 8 && vs2[q].kids()[w] == Some(leaf);
                            assert(vs[q].kids()[w] == vs2[q].kids()[w]);
                        }
                    }
                }
                voxel_index = parent_idx;
            } else {
                proof {
                    assert(st.len() < d);
                    if !childless {
                        let w = choose|w: int| 0 <= w < 8 && !(node.kids()[w] is None);
                        assert(node.kids()[w] is Some);
                    }
                }
                parent_stack.push((parent_idx, child_idx));
                proof {
                    assert(parent_stack@ =~= st);
                }
                done = true;
            }
        }
        proof {
            let vs2 = self.voxels@;
            if !done {
                assert(parent_stack@.len() == 0);
                assert(lv[voxel_index as int] == 0);
                assert(voxel_index == 0);
            } else if !has_child(vs2[voxel_index as int]) {
                assert(vs2[voxel_index as int].tag() != 0);
            }
            lemma_move_exception(vs2, lv, d, voxel_index as int, 0);
            let w = walk(vs2, code, depth, depth as nat);
            if w is Some {
                lemma_walk_kept(vs2, vs1, code, depth, depth as nat);
                if d > 0 {
                    assert(parent_stack@.len() < d);
                    lemma_walk_kept(vs2, vs1, code, depth, (d - 1) as nat);
                    let q = walk(vs2, code, depth, (d - 1) as nat)->Some_0;
                    lemma_slot_range(code, 0);
                    assert(vs2[q as int].kids()[slot(code, 0)] == Some(leaf));
                    assert(has_parent(vs2, leaf as int));
                }
            }
            assert(keeps_links(vs2, vs0)) by {
                assert forall|i: int, s: int|
                    0 <= i < vs2.len() && 0 <= s < 8 && (#[trigger] vs2[i].kids()[s]) is Some implies vs0[i].kids()[s]
                        == vs2[i].kids()[s] by {
                    assert(vs1[i].kids() == vs0[i].kids());
                }
            }
            assert forall|a: u32, b: u32, c: u32|
                a < old(self).side() && b < old(self).side() && c < old(self).side() && (a, b, c) != (x, y, z)
                    implies #[trigger] self.lookup(a, b, c) == old(self).lookup(a, b, c) by {
                let code2 = morton_of(a as nat, b as nat, c as nat) as u64;
                lemma_cells_below_side(a, b, c, d);
                lemma_cells_below_side(x, y, z, d);
                lemma_decode_encode(x as nat, y as nat, z as nat);
                lemma_decode_encode(a as nat, b as nat, c as nat);
                assert(code2 != code);
                if walk(vs0, code2, depth, d) is Some {
                    let i = walk(vs0, code2, depth, d)->Some_0;
                    lemma_walk_level(vs0, lv, d, code2, depth, d);
                    if i == leaf {
                        lemma_walk_digits(vs0, code, depth, d);
                        lemma_walk_digits(vs0, code2, depth, d);
                        assert(pow8(0) == 1);
                        assert(code as nat / pow8(0) == code as nat);
                        assert(code2 as nat / pow8(0) == code2 as nat);
                        lemma_walk_digits_injective(vs0, lv, d, code as nat, code2 as nat, d);
                    }
                    assert(vs1[i as int] == vs0[i as int]);
                    assert(vs2[i as int].kids() =~= vs0[i as int].kids()) by {
                        assert forall|t: int| 0 <= t < 8 implies vs2[i as int].kids()[t] == vs0[i as int].kids()[t] by {
                            assert(vs0[i as int].kids()[t] is None);
                            assert(vs2[i as int].kids()[t] is None);
                        }
                    }
                    lemma_voxel_eq(vs2[i as int], vs0[i as int]);
                } else if walk(vs2, code2, depth, d) is Some {
                    lemma_walk_kept(vs2, vs0, code2, depth, d);
                }
            }
            if d >= 1 {
                let cut = (parent_stack@.len() + 1) as nat;
                assert(parent_stack@.len() < d);
                assert forall|i: int| 0 <= i < vs2.len() implies #[trigger] vs2[i].tag() == if i == old(self).path_node(
                    x,
                    y,
                    z,
                    d,
                ) {
                    0
                } else {
                    vs0[i].tag()
                } by {
                    assert(vs2[i].tag() == vs1[i].tag());
                }
                assert(old(self).pruned_to(vs2, x, y, z, cut));
            }
        }
    }
}

/// A tree in which no cell of its cube is reachable has a root without
/// children: removing every cell of the cube prunes the whole tree, while the
/// arena keeps its nodes.
pub proof fn lemma_cleared_tree_has_bare_root(t: &SparseVoxelOctree)
    requires
        t.wf(),
        forall|x: u32, y: u32, z: u32|
            x < t.side() && y < t.side() && z < t.side() ==> #[trigger] t.lookup(x, y, z) is None,
    ensures
        forall|s: int| 0 <= s < 8 ==> t.nodes()[0].kids()[s] is None,
{
    let vs = t.voxels@;
    let lv = t.levels@;
    let d = t.depth() as nat;
    if exists|s: int| 0 <= s < 8 && vs[0].kids()[s] is Some {
        assert(has_child(vs[0]));
        lemma_pow_positive(0);
        let p2 = lemma_descend(vs, lv, d, 0, 0, 0);
        lemma_pow8_mono(d, AXIS_BITS as nat);
        lemma_encode_decode(p2);
        let c = position_of(p2);
        lemma_compact_bound(p2, AXIS_BITS as nat, d);
        lemma_compact_bound(p2 / 2, AXIS_BITS as nat, d);
        lemma_compact_bound(p2 / 4, AXIS_BITS as nat, d);
        let x = c.0 as u32;
        let y = c.1 as u32;
        let z = c.2 as u32;
        assert(morton_of(x as nat, y as nat, z as nat) == p2);
        reveal_with_fuel(pow8, 22);
        assert(p2 < 0x8000_0000_0000_0000);
        lemma_walk_digits(vs, p2 as u64, t.depth(), d);
        lemma_pow_positive(0);
        assert(p2 as u64 as nat / pow8(0) == p2);
        assert(t.lookup(x, y, z) is Some);
    }
}

/// A cell that a tree no longer reaches stays unreached after changes that
/// only remove links, such as later removals.
pub proof fn lemma_cell_stays_gone(a: &SparseVoxelOctree, b: &SparseVoxelOctree, x: u32, y: u32, z: u32)
    requires
        a.wf(),
        b.wf(),
        b.side() == a.side(),
        keeps_links(b.nodes(), a.nodes()),
        a.lookup(x, y, z) is None,
    ensures
        b.lookup(x, y, z) is None,
{
    let code = morton_of(x as nat, y as nat, z as nat) as u64;
    let d = b.depth();
    if walk(b.nodes(), code, d, d as nat) is Some {
        lemma_walk_kept(b.nodes(), a.nodes(), code, d, d as nat);
    }
}

} // verus!
