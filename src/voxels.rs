pub mod brick;
pub mod morton;

use vstd::prelude::*;
use crate::voxel::{grown_from, keeps_links, SparseVoxelOctree as Tree};

pub use crate::voxel::Voxel;

verus! {

/// An octree placed in space: a pointer octree whose root cube has its lowest
/// corner at `origin`, with the pieces of a front-to-back ray traversal.
pub struct SparseVoxelOctree {
    tree: Tree,
    pub size: u32,
    origin: (u32, u32, u32),
}

/// A node of the tree with its box: lowest corner, side, and the distance
/// along the ray at which the ray enters the box, as an order-preserving key
/// (a larger key is farther).
#[derive(Clone, Copy, Debug, PartialEq, Eq, Structural)]
pub struct Frame {
    pub node: usize,
    pub min_x: u64,
    pub min_y: u64,
    pub min_z: u64,
    pub size: u32,
    pub entry: u32,
}

/// The box of child octant `c` of a frame's node, for child node `i`. Bit 0
/// of the octant is the x half, bit 1 the y half, bit 2 the z half.
pub open spec fn child_frame(f: Frame, c: int, i: usize) -> Frame {
    let half = (f.size / 2) as u64;
    Frame {
        node: i,
        min_x: if c % 2 == 1 { (f.min_x + half) as u64 } else { f.min_x },
        min_y: if c / 2 % 2 == 1 { (f.min_y + half) as u64 } else { f.min_y },
        min_z: if c / 4 == 1 { (f.min_z + half) as u64 } else { f.min_z },
        size: (f.size / 2) as u32,
        entry: f.entry,
    }
}

/// The frames of the present children among the first `n` octants, in
/// octant order.
pub open spec fn child_frames(kids: Seq<Option<usize>>, f: Frame, n: nat) -> Seq<Frame>
    decreases n,
{
    if n == 0 {
        Seq::empty()
    } else {
        let rest = child_frames(kids, f, (n - 1) as nat);
        match kids[n - 1] {
            Some(i) => rest.push(child_frame(f, n - 1, i)),
            None => rest,
        }
    }
}

/// Whether a run of frames has non-increasing entry keys, so that popping
/// from its end visits the nearest first.
pub open spec fn nearest_last(s: Seq<Frame>) -> bool {
    forall|i: int, j: int| 0 <= i < j < s.len() ==> s[i].entry >= s[j].entry
}

/// Of two frames pushed by `push_hits`, the one the ray enters first sits
/// higher on the stack, so it is visited before the other.
pub proof fn lemma_nearer_first(pushed: Seq<Frame>, near: int, far: int)
    requires
        nearest_last(pushed),
        0 <= near < pushed.len(),
        0 <= far < pushed.len(),
        pushed[near].entry < pushed[far].entry,
    ensures
        near > far,
{
    if near < far {
        assert(pushed[near].entry >= pushed[far].entry);
    }
}

/// What one step of a traversal found.
pub enum TraversalStep {
    /// The popped node has no children: the ray's first hit.
    Hit(Frame),
    /// The popped node's children, in octant order, with the parent's entry
    /// key; the caller measures them and hands back those the ray enters.
    Expand(Vec<Frame>),
    /// Nothing is left to visit.
    Exhausted,
}

/// The frames still to visit; the last is visited next.
pub struct RayStack {
    frames: Vec<Frame>,
}

impl RayStack {
    pub closed spec fn frames(&self) -> Seq<Frame> {
        self.frames@
    }

    /// A stack holding one frame.
    pub fn start(root: Frame) -> (r: Self)
        ensures
            r.frames() == seq![root],
    {
        let r = RayStack { frames: vec![root] };
        assert(r.frames() =~= seq![root]);
        r
    }

    /// Pushes the frames that the ray enters so that the nearest is popped
    /// first: they land on top in non-increasing order of entry key.
    pub fn push_hits(&mut self, hits: Vec<Frame>)
        ensures
            final(self).frames().len() == old(self).frames().len() + hits@.len(),
            final(self).frames().subrange(0, old(self).frames().len() as int) == old(self).frames(),
            final(self).frames().subrange(old(self).frames().len() as int, final(self).frames().len() as int).to_multiset()
                == hits@.to_multiset(),
            nearest_last(final(self).frames().subrange(old(self).frames().len() as int, final(self).frames().len() as int)),
    {
        let mut sorted: Vec<Frame> = Vec::new();
        let mut i: usize = 0;
        proof {
            broadcast use vstd::seq_lib::to_multiset_len;
            assert(hits@.subrange(0, 0) =~= Seq::<Frame>::empty());
            assert(sorted@ =~= Seq::<Frame>::empty());
        }
        while i < hits.len()
            invariant
                i <= hits@.len(),
                sorted@.len() == i,
                sorted@.to_multiset() == hits@.subrange(0, i as int).to_multiset(),
                nearest_last(sorted@),
            decreases hits@.len() - i,
        {
            let h = hits[i];
            let mut pos: usize = 0;
            while pos < sorted.len() && sorted[pos].entry >= h.entry
                invariant
                    pos <= sorted@.len(),
                    forall|t: int| 0 <= t < pos ==> (#[trigger] sorted@[t]).entry >= h.entry,
                decreases sorted@.len() - pos,
            {
                pos = pos + 1;
            }
            let ghost before = sorted@;
            sorted.insert(pos, h);
            proof {
                broadcast use vstd::seq_lib::to_multiset_insert, vstd::seq_lib::to_multiset_build;
                assert(hits@.subrange(0, i + 1) =~= hits@.subrange(0, i as int).push(h));
                assert forall|a: int, b: int| 0 <= a < b < sorted@.len() implies sorted@[a].entry
                    >= sorted@[b].entry by {
                    if b < pos {
                    } else if b == pos {
                        assert(sorted@[a] == before[a]);
                    } else if a < pos {
                        assert(sorted@[b] == before[b - 1]);
                        assert(sorted@[a] == before[a]);
                        if pos < before.len() {
                            assert(before[pos as int].entry < h.entry);
                            if b - 1 > pos {
                                assert(before[pos as int].entry >= before[b - 1].entry);
                            }
                        }
                    } else if a == pos {
                        assert(sorted@[b] == before[b - 1]);
                        assert(before[pos as int].entry < h.entry);
                        if b - 1 > pos {
                            assert(before[pos as int].entry >= before[b - 1].entry);
                        }
                    } else {
                        assert(sorted@[a] == before[a - 1]);
                        assert(sorted@[b] == before[b - 1]);
                    }
                }
            }
            i = i + 1;
        }
        assert(hits@.subrange(0, hits@.len() as int) =~= hits@);
        let ghost base = self.frames@;
        let mut j: usize = 0;
        while j < sorted.len()
            invariant
                j <= sorted@.len(),
                self.frames@ == base + sorted@.subrange(0, j as int),
            decreases sorted@.len() - j,
        {
            self.frames.push(sorted[j]);
            assert(self.frames@ =~= base + sorted@.subrange(0, j + 1));
            j = j + 1;
        }
        assert(sorted@.subrange(0, sorted@.len() as int) =~= sorted@);
        assert(self.frames@.subrange(0, base.len() as int) =~= base);
        assert(self.frames@.subrange(base.len() as int, self.frames@.len() as int) =~= sorted@);
    }

    /// Pops the next frame and says what it holds: a hit where its node has
    /// no children, else the frames of its children.
    pub fn next(&mut self, octree: &SparseVoxelOctree) -> (r: TraversalStep)
        requires
            octree.wf(),
            forall|t: int| 0 <= t < old(self).frames().len() ==> #[trigger] octree.holds(old(self).frames()[t]),
        ensures
            forall|t: int| 0 <= t < final(self).frames().len() ==> #[trigger] octree.holds(final(self).frames()[t]),
            old(self).frames().len() == 0 ==> r is Exhausted && final(self).frames() == old(self).frames(),
            old(self).frames().len() > 0 ==> {
                let f = old(self).frames().last();
                let kids = octree.tree().nodes()[f.node as int].kids();
                &&& final(self).frames() == old(self).frames().drop_last()
                &&& (forall|s: int| 0 <= s < 8 ==> #[trigger] kids[s] is None) ==> r == TraversalStep::Hit(f)
                &&& !(forall|s: int| 0 <= s < 8 ==> #[trigger] kids[s] is None) ==> (r matches TraversalStep::Expand(c)
                    && c@ == child_frames(kids, f, 8))
            },
    {
        match self.frames.pop() {
            None => TraversalStep::Exhausted,
            Some(f) => {
                proof {
                    assert(octree.holds(old(self).frames()[old(self).frames().len() - 1]));
                    assert forall|t: int| 0 <= t < self.frames@.len() implies #[trigger] octree.holds(self.frames@[t]) by {
                        assert(self.frames@[t] == old(self).frames()[t]);
                    }
                }
                let node = octree.tree.node(f.node);
                if node.is_empty() {
                    TraversalStep::Hit(f)
                } else {
                    TraversalStep::Expand(octree.children_of(&f))
                }
            },
        }
    }
}

impl SparseVoxelOctree {
    /// The pointer octree inside.
    pub closed spec fn tree(&self) -> Tree {
        self.tree
    }

    /// The side of the root cube, in cells.
    pub closed spec fn side(&self) -> u32 {
        self.size
    }

    /// The lowest corner of the root cube.
    pub closed spec fn corner(&self) -> (u32, u32, u32) {
        self.origin
    }

    pub closed spec fn wf(&self) -> bool {
        &&& self.tree.wf()
        &&& self.tree.side() == self.size
        &&& self.size <= 0x20_0000
    }

    /// Whether a frame names a node of the tree and a box that stays far
    /// from the top of the coordinate range.
    pub open spec fn holds(&self, f: Frame) -> bool {
        &&& f.node < self.tree().nodes().len()
        &&& f.min_x + f.size <= 0x2_0000_0000
        &&& f.min_y + f.size <= 0x2_0000_0000
        &&& f.min_z + f.size <= 0x2_0000_0000
    }

    /// A tree over the cube of side `size` with its lowest corner at the
    /// given origin: one root node, tagged `u32::MAX`.
    pub fn empty(size: u32, origin_x: u32, origin_y: u32, origin_z: u32) -> (r: Self)
        requires
            1 <= size <= 0x20_0000,
            size & (size - 1) as u32 == 0,
        ensures
            r.wf(),
            r.side() == size,
            r.corner() == (origin_x, origin_y, origin_z),
            r.tree().nodes().len() == 1,
            r.tree().nodes()[0].tag() == u32::MAX,
            r.tree().nodes()[0].kids() == Seq::new(8, |i: int| None::<usize>),
            r.tree().side() == size,
            size >= 2 ==> forall|x: u32, y: u32, z: u32| #[trigger] r.tree().lookup(x, y, z) is None,
    {
        SparseVoxelOctree { tree: Tree::empty(size), size, origin: (origin_x, origin_y, origin_z) }
    }

    /// Sets the material of a cell, given relative to the origin, creating
    /// the missing nodes on its path.
    pub fn insert(&mut self, x: u32, y: u32, z: u32, material: u32)
        requires
            old(self).wf(),
            x < old(self).side(),
            y < old(self).side(),
            z < old(self).side(),
        ensures
            final(self).wf(),
            final(self).side() == old(self).side(),
            final(self).corner() == old(self).corner(),
            final(self).tree().lookup(x, y, z) is Some,
            final(self).tree().lookup(x, y, z)->Some_0.tag() == material,
            keeps_links(old(self).tree().nodes(), final(self).tree().nodes()),
            grown_from(old(self).tree().nodes(), final(self).tree().nodes(), old(self).tree().nodes().len() as int),
            forall|a: u32, b: u32, c: u32|
                a < old(self).side() && b < old(self).side() && c < old(self).side() && (a, b, c) != (x, y, z)
                    ==> #[trigger] final(self).tree().lookup(a, b, c) == old(self).tree().lookup(a, b, c),
            forall|k: nat|
                k <= old(self).tree().depth() && #[trigger] old(self).tree().reaches(x, y, z, k)
                    ==> final(self).tree().nodes().len() <= old(self).tree().nodes().len() + old(self).tree().depth() - k,
            forall|k: nat|
                k <= old(self).tree().depth() && !(#[trigger] old(self).tree().reaches(x, y, z, k))
                    ==> final(self).tree().nodes().len() >= old(self).tree().nodes().len() + old(self).tree().depth() - k
                    + 1,
            forall|i: int|
                0 <= i < old(self).tree().nodes().len() && final(self).tree().cell_node(x, y, z) != Some(i as usize) ==> (
                #[trigger] final(self).tree().nodes()[i]).tag() == old(self).tree().nodes()[i].tag(),
            forall|i: int|
                old(self).tree().nodes().len() <= i < final(self).tree().nodes().len() && final(self).tree().cell_node(
                    x,
                    y,
                    z,
                ) != Some(i as usize) ==> (#[trigger] final(self).tree().nodes()[i]).tag() == 0,
            old(self).tree().lookup(x, y, z) is Some && old(self).tree().lookup(x, y, z)->Some_0.tag() == material
                ==> final(self).tree().nodes() == old(self).tree().nodes(),
    {
        self.tree.insert(x, y, z, material);
    }

    /// Empties a cell and prunes the nodes left with no children and the
    /// empty material; the arena keeps its length.
    pub fn remove(&mut self, x: u32, y: u32, z: u32)
        requires
            old(self).wf(),
            x < old(self).side(),
            y < old(self).side(),
            z < old(self).side(),
        ensures
            final(self).wf(),
            final(self).side() == old(self).side(),
            final(self).corner() == old(self).corner(),
            final(self).tree().nodes().len() == old(self).tree().nodes().len(),
            final(self).tree().lookup(x, y, z) is None || final(self).tree().lookup(x, y, z)->Some_0.tag() == 0,
            old(self).side() >= 2 ==> final(self).tree().lookup(x, y, z) is None,
            keeps_links(final(self).tree().nodes(), old(self).tree().nodes()),
            old(self).tree().lookup(x, y, z) is None ==> final(self).tree().nodes() == old(self).tree().nodes(),
            old(self).side() >= 2 && old(self).tree().lookup(x, y, z) is Some ==> exists|cut: nat|
                1 <= cut <= old(self).tree().depth() && old(self).tree().pruned_to(final(self).tree().nodes(), x, y, z, cut),
            forall|a: u32, b: u32, c: u32|
                a < old(self).side() && b < old(self).side() && c < old(self).side() && (a, b, c) != (x, y, z)
                    ==> #[trigger] final(self).tree().lookup(a, b, c) == old(self).tree().lookup(a, b, c),
    {
        self.tree.remove(x, y, z);
    }

    /// The tree inside is well formed and has the same side.
    pub proof fn lemma_tree(&self)
        requires
            self.wf(),
        ensures
            self.tree().wf(),
            self.tree().side() == self.side(),
    {
    }

    /// The node for a cell, given relative to the origin.
    pub fn get(&self, x: u32, y: u32, z: u32) -> (r: Option<Voxel>)
        requires
            self.wf(),
        ensures
            r == self.tree().lookup(x, y, z),
    {
        self.tree.get(x, y, z)
    }

    /// The side of the cube, in cells: the value of the public `size`
    /// field, tied to the side that the contracts speak of.
    pub fn side_len(&self) -> (r: u32)
        ensures
            r == self.side(),
    {
        self.size
    }

    /// The number of nodes in the arena.
    pub fn node_count(&self) -> (r: usize)
        ensures
            r == self.tree().nodes().len(),
    {
        self.tree.node_count()
    }

    /// The node at an arena index.
    pub fn node(&self, i: usize) -> (r: Voxel)
        requires
            self.wf(),
            i < self.tree().nodes().len(),
        ensures
            r == self.tree().nodes()[i as int],
    {
        self.tree.node(i)
    }

    /// The root node.
    pub fn root(&self) -> (r: Voxel)
        requires
            self.wf(),
        ensures
            r == self.tree().nodes()[0],
    {
        self.tree.root()
    }

    /// The frame of the root cube, with the given entry key.
    pub fn root_frame(&self, entry: u32) -> (r: Frame)
        requires
            self.wf(),
        ensures
            r == (Frame {
                node: 0,
                min_x: self.corner().0 as u64,
                min_y: self.corner().1 as u64,
                min_z: self.corner().2 as u64,
                size: self.side(),
                entry,
            }),
            self.holds(r),
    {
        proof {
            self.tree.lemma_nodes();
        }
        Frame {
            node: 0,
            min_x: self.origin.0 as u64,
            min_y: self.origin.1 as u64,
            min_z: self.origin.2 as u64,
            size: self.size,
            entry,
        }
    }

    /// The frames of the present children of a frame's node, in octant
    /// order, each with the parent's entry key.
    pub fn children_of(&self, f: &Frame) -> (r: Vec<Frame>)
        requires
            self.wf(),
            self.holds(*f),
        ensures
            r@ == child_frames(self.tree().nodes()[f.node as int].kids(), *f, 8),
            forall|t: int| 0 <= t < r@.len() ==> #[trigger] self.holds(r@[t]),
    {
        proof {
            self.tree.lemma_nodes();
        }
        let node = self.tree.node(f.node);
        let half: u64 = (f.size / 2) as u64;
        let mut r: Vec<Frame> = Vec::new();
        let mut c: usize = 0;
        while c < 8
            invariant
                self.wf(),
                self.holds(*f),
                node == self.tree().nodes()[f.node as int],
                node.kids().len() == 8,
                half == (f.size / 2) as u64,
                c <= 8,
                r@ == child_frames(node.kids(), *f, c as nat),
                forall|t: int| 0 <= t < r@.len() ==> #[trigger] self.holds(r@[t]),
            decreases 8 - c,
        {
            match node.child(c) {
                Some(i) => {
                    proof {
                        self.tree.lemma_nodes();
                        assert(self.tree().nodes()[f.node as int].kids()[c as int] is Some);
                        assert(i < self.tree().nodes().len());
                    }
                    let child = Frame {
                        node: i,
                        min_x: if c % 2 == 1 { f.min_x + half } else { f.min_x },
                        min_y: if c / 2 % 2 == 1 { f.min_y + half } else { f.min_y },
                        min_z: if c / 4 == 1 { f.min_z + half } else { f.min_z },
                        size: f.size / 2,
                        entry: f.entry,
                    };
                    r.push(child);
                },
                None => {},
            }
            c = c + 1;
        }
        r
    }
}

} // verus!
