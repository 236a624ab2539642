use vstd::prelude::*;
use crate::key::{
    lemma_region_by_position, lemma_shr_div, lemma_unpack, unpack, unpack_spec, ancestor_key, cell_key, key_of, lemma_ancestor_valid, lemma_cell_key, region_shift, lemma_cell_key_injective, lemma_same_region_grows,
    same_region, valid_key,
};
use crate::payload::Comparable;
use crate::voxels::morton::{lemma_pow_positive, position_of, pow2, pow8};

verus! {

/// A cell position, one 16-bit coordinate per axis.
pub type Position = (u16, u16, u16);

/// The key of the full-resolution cell at a position.
pub open spec fn cell_of(c: Position) -> u64 {
    cell_key(c.0, c.1, c.2)
}

/// A change that waits in the queue until the next drain.
pub enum Mutation<V> {
    Insert(Position, V),
    Remove(Position),
}

/// The key that removing the cell `k` deletes: `k` itself when it is
/// stored, else the smallest stored region of level `level` or more that
/// holds it.
pub open spec fn removal_target<V>(m: Map<u64, V>, k: u64, level: nat) -> Option<u64>
    decreases 16 - level,
{
    if level >= 16 {
        None
    } else if m.contains_key(ancestor_key(k, level as u64)) {
        Some(ancestor_key(k, level as u64))
    } else {
        removal_target(m, k, level + 1)
    }
}

/// The contents after removing the cell at `c`. A cell inside a compressed
/// region takes the whole region with it.
pub open spec fn remove_cell<V>(m: Map<u64, V>, c: Position) -> Map<u64, V> {
    match removal_target(m, cell_of(c), 0) {
        Some(k) => m.remove(k),
        None => m,
    }
}

/// The contents after one queued change.
pub open spec fn apply_one<V>(m: Map<u64, V>, op: Mutation<V>) -> Map<u64, V> {
    match op {
        Mutation::Insert(c, v) => m.insert(cell_of(c), v),
        Mutation::Remove(c) => remove_cell(m, c),
    }
}

/// The contents after a run of queued changes, first to last.
pub open spec fn apply_all<V>(m: Map<u64, V>, ops: Seq<Mutation<V>>) -> Map<u64, V>
    decreases ops.len(),
{
    if ops.len() == 0 {
        m
    } else {
        apply_one(apply_all(m, ops.drop_last()), ops.last())
    }
}

/// The stored entries that lie in the region of the given depth around `c`.
pub open spec fn region_of<V>(m: Map<u64, V>, c: Position, depth: nat) -> Map<u64, V> {
    m.restrict(Set::new(|k: u64| same_region(k, cell_of(c), depth)))
}

/// What a map holds under a key.
pub open spec fn lookup<V>(m: Map<u64, V>, k: u64) -> Option<V> {
    if m.contains_key(k) {
        Some(m[k])
    } else {
        None
    }
}

/// The `i`-th axis neighbour of `c` (-x, +x, -y, +y, -z, +z), if it lies
/// inside the coordinate range.
pub open spec fn neighbour(c: Position, i: int) -> Option<Position> {
    if i == 0 {
        if c.0 > 0 { Some(((c.0 - 1) as u16, c.1, c.2)) } else { None }
    } else if i == 1 {
        if c.0 < 0xffff { Some(((c.0 + 1) as u16, c.1, c.2)) } else { None }
    } else if i == 2 {
        if c.1 > 0 { Some((c.0, (c.1 - 1) as u16, c.2)) } else { None }
    } else if i == 3 {
        if c.1 < 0xffff { Some((c.0, (c.1 + 1) as u16, c.2)) } else { None }
    } else if i == 4 {
        if c.2 > 0 { Some((c.0, c.1, (c.2 - 1) as u16)) } else { None }
    } else {
        if c.2 < 0xffff { Some((c.0, c.1, (c.2 + 1) as u16)) } else { None }
    }
}

/// The stored keys whose prefix above bit `s` is `p`.
pub open spec fn block<V>(m: Map<u64, V>, p: u64, s: u64) -> Set<u64> {
    m.dom().filter(|k: u64| k >> s == p)
}

/// Whether the region of compression level `level` with prefix `p` is
/// fully populated (one entry for each of its `8^level` cells) with one
/// payload throughout.
pub open spec fn collapsible<V>(m: Map<u64, V>, p: u64, level: u64) -> bool {
    let b = block(m, p, region_shift(level));
    &&& b.len() == pow8(level as nat)
    &&& forall|k1: u64, k2: u64| b.contains(k1) && b.contains(k2) ==> m[k1] == m[k2]
}

/// The contents after one compaction pass at `level`: each collapsible
/// region becomes a single entry under its region key, with the payload
/// its cells shared; every other entry stays.
pub open spec fn compact_level<V>(m: Map<u64, V>, level: u64) -> Map<u64, V> {
    let s = region_shift(level);
    Map::new(
        |k: u64|
            (m.contains_key(k) && !collapsible(m, k >> s, level)) || (collapsible(m, k >> s, level)
                && k == ancestor_key(k, level)),
        |k: u64|
            if collapsible(m, k >> s, level) {
                m[choose|k2: u64| block(m, k >> s, s).contains(k2)]
            } else {
                m[k]
            },
    )
}

/// The contents after compaction passes at levels `1..=level`, in order.
pub open spec fn compact_upto<V>(m: Map<u64, V>, level: u64) -> Map<u64, V>
    decreases level,
{
    if level == 0 {
        m
    } else {
        compact_level(compact_upto(m, (level - 1) as u64), level)
    }
}

/// Facts on shifting keys right that the range scans rest on.
pub proof fn lemma_shift_order(a: u64, b: u64, s: u64)
    requires
        s < 64,
    ensures
        a <= b ==> a >> s <= b >> s,
        a >> s == b >> s ==> a >= (b >> s) << s,
        a >= (b >> s) << s ==> a >> s >= b >> s,
{
    assert(s < 64 ==> (a <= b ==> a >> s <= b >> s)) by (bit_vector);
    assert(s < 64 ==> (a >> s == b >> s ==> a >= (b >> s) << s)) by (bit_vector);
    assert(s < 64 ==> (a >= (b >> s) << s ==> a >> s >= b >> s)) by (bit_vector);
}

/// Whether the position of key `k` (the lowest corner of its region) lies
/// within Chebyshev distance `r` of `c`.
pub open spec fn within(k: u64, c: Position, r: u16) -> bool {
    let u = unpack_spec(k);
    &&& u.0 - c.0 <= r && c.0 - u.0 <= r
    &&& u.1 - c.1 <= r && c.1 - u.1 <= r
    &&& u.2 - c.2 <= r && c.2 - u.2 <= r
}

/// The stored entries whose positions lie within distance `r` of `c`.
pub open spec fn radius_of<V>(m: Map<u64, V>, c: Position, r: u16) -> Map<u64, V> {
    m.restrict(Set::new(|k: u64| within(k, c, r)))
}

/// Whether the position of key `k` lies within distance `r` of `c`.
fn is_within(k: u64, c: Position, r: u16) -> (b: bool)
    ensures
        b == within(k, c, r),
{
    let (ux, uy, uz, _) = unpack(k);
    let dx = if ux >= c.0 { ux - c.0 } else { c.0 - ux };
    let dy = if uy >= c.1 { uy - c.1 } else { c.1 - uy };
    let dz = if uz >= c.2 { uz - c.2 } else { c.2 - uz };
    dx <= r && dy <= r && dz <= r
}

/// The entries of a key-ordered listing of `m` whose positions lie within
/// distance `radius` of `coords`, in key order.
fn filter_within<V: Copy>(region: &Vec<(u64, V)>, coords: Position, radius: u16, reg: Ghost<Map<u64, V>>) -> (r: Vec<(u64, V)>)
    requires
        lists(region@, reg@),
    ensures
        lists(r@, radius_of(reg@, coords, radius)),
{
    let mut r: Vec<(u64, V)> = Vec::new();
    let mut i: usize = 0;
    while i < region.len()
        invariant
            lists(region@, reg@),
            i <= region@.len(),
            forall|u: int| #![trigger r@[u]] 0 <= u < r@.len() ==> exists|t: int| 0 <= t < i && r@[u] == region@[t],
            forall|u: int| #![trigger r@[u]] 0 <= u < r@.len() ==> within(r@[u].0, coords, radius),
            sorted_keys(r@),
            forall|t: int| #![trigger region@[t]] 0 <= t < i && within(region@[t].0, coords, radius)
                ==> exists|u: int| 0 <= u < r@.len() && r@[u] == region@[t],
        decreases region@.len() - i,
    {
        let (k, v) = region[i];
        let ghost r0 = r@;
        if is_within(k, coords, radius) {
            r.push((k, v));
            proof {
                assert forall|a: int, b: int| 0 <= a < b < r@.len() implies r@[a].0 < r@[b].0 by {
                    if b == r@.len() - 1 {
                        assert(r@[a] == r0[a]);
                        let t = choose|t: int| 0 <= t < i && r0[a] == region@[t];
                        assert(region@[t].0 < region@[i as int].0);
                    } else {
                        assert(r@[a] == r0[a]);
                        assert(r@[b] == r0[b]);
                    }
                }
                assert forall|u: int| #![trigger r@[u]] 0 <= u < r@.len() implies exists|t: int|
                    0 <= t < i + 1 && r@[u] == region@[t] by {
                    if u < r0.len() {
                        assert(r@[u] == r0[u]);
                        let t = choose|t: int| 0 <= t < i && r0[u] == region@[t];
                    } else {
                        assert(r@[u] == region@[i as int]);
                    }
                }
                assert forall|u: int| #![trigger r@[u]] 0 <= u < r@.len() implies within(r@[u].0, coords, radius) by {
                    if u < r0.len() {
                        assert(r@[u] == r0[u]);
                    }
                }
                assert forall|t: int| #![trigger region@[t]] 0 <= t < i + 1 && within(region@[t].0, coords, radius)
                    implies exists|u: int| 0 <= u < r@.len() && r@[u] == region@[t] by {
                    if t < i {
                        let u = choose|u: int| 0 <= u < r0.len() && r0[u] == region@[t];
                        assert(r@[u] == r0[u]);
                    } else {
                        assert(r@[r0.len() as int] == region@[t]);
                    }
                }
            }
        }
        i = i + 1;
    }
    proof {
        let target = radius_of(reg@, coords, radius);
        assert forall|u: int| #![trigger r@[u]] 0 <= u < r@.len() implies target.contains_key(r@[u].0)
            && target[r@[u].0] == r@[u].1 by {
            let t = choose|t: int| 0 <= t < i && r@[u] == region@[t];
            lemma_lists_at(region@, reg@, t);
        }
        assert forall|k: u64| #[trigger] target.contains_key(k) implies exists|u: int| 0 <= u < r@.len() && r@[u].0 == k by {
            let t = choose|t: int| 0 <= t < region@.len() && region@[t].0 == k;
            let u = choose|u: int| 0 <= u < r@.len() && r@[u] == region@[t];
        }
    }
    r
}

/// Whether a sequence of entries is in strictly increasing key order.
pub open spec fn sorted_keys<V>(s: Seq<(u64, V)>) -> bool {
    forall|i: int, j: int| 0 <= i < j < s.len() ==> s[i].0 < s[j].0
}

/// Whether a sequence of entries, in strictly increasing key order, lists
/// exactly the entries of `m`.
pub open spec fn lists<V>(s: Seq<(u64, V)>, m: Map<u64, V>) -> bool {
    &&& sorted_keys(s)
    &&& forall|i: int| #![trigger s[i]] 0 <= i < s.len() ==> m.contains_key(s[i].0) && m[s[i].0] == s[i].1
    &&& forall|k: u64| #[trigger] m.contains_key(k) ==> exists|i: int| 0 <= i < s.len() && s[i].0 == k
}

proof fn lemma_lists_at<V>(s: Seq<(u64, V)>, m: Map<u64, V>, j: int)
    requires
        lists(s, m),
        0 <= j < s.len(),
    ensures
        m.contains_key(s[j].0),
        m[s[j].0] == s[j].1,
{
}

/// Whether every key of `m` is one that a store can hold.
pub open spec fn valid_contents<V>(m: Map<u64, V>) -> bool {
    forall|k: u64| #[trigger] m.contains_key(k) ==> valid_key(k)
}

/// A Morton-keyed sparse voxel store: an ordered map from packed key to
/// payload, and a queue of changes that the next drain applies.
pub struct SparseVoxelStore<V> {
    entries: Vec<(u64, V)>,
    pending: Vec<Mutation<V>>,
    contents: Ghost<Map<u64, V>>,
}

impl<V: Copy> View for SparseVoxelStore<V> {
    type V = Map<u64, V>;

    closed spec fn view(&self) -> Map<u64, V> {
        self.contents@
    }
}

impl<V: Copy> SparseVoxelStore<V> {
    pub closed spec fn wf(&self) -> bool {
        &&& lists(self.entries@, self.contents@)
        &&& valid_contents(self.contents@)
    }

    /// The changes waiting for the next drain, oldest first.
    pub closed spec fn pending(&self) -> Seq<Mutation<V>> {
        self.pending@
    }

    pub proof fn lemma_valid(&self)
        requires
            self.wf(),
        ensures
            valid_contents(self@),
            self@.dom().finite(),
    {
        self.lemma_dom();
    }

    proof fn lemma_dom(&self)
        requires
            self.wf(),
        ensures
            self@.dom() == self.entries@.map_values(|e: (u64, V)| e.0).to_set(),
            self@.dom().finite(),
            self@.dom().len() == self.entries@.len(),
    {
        let ks = self.entries@.map_values(|e: (u64, V)| e.0);
        assert forall|k: u64| self@.dom().contains(k) <==> ks.to_set().contains(k) by {
            if self@.dom().contains(k) {
                let i = choose|i: int| 0 <= i < self.entries@.len() && self.entries@[i].0 == k;
                assert(ks[i] == k);
            }
            if ks.to_set().contains(k) {
                let i = choose|i: int| 0 <= i < ks.len() && ks[i] == k;
                assert(self@.contains_key(self.entries@[i].0));
            }
        }
        assert(self@.dom() =~= ks.to_set());
        assert(ks.no_duplicates()) by {
            assert forall|i: int, j: int| 0 <= i < ks.len() && 0 <= j < ks.len() && i != j implies ks[i] != ks[j] by {
                if i < j {
                    assert(self.entries@[i].0 < self.entries@[j].0);
                } else {
                    assert(self.entries@[j].0 < self.entries@[i].0);
                }
            }
        }
        ks.unique_seq_to_set();
    }

    /// An empty store with an empty queue.
    pub fn new() -> (r: Self)
        ensures
            r.wf(),
            r@ == Map::<u64, V>::empty(),
            r.pending() == Seq::<Mutation<V>>::empty(),
    {
        SparseVoxelStore { entries: Vec::new(), pending: Vec::new(), contents: Ghost(Map::empty()) }
    }

    /// The number of stored entries.
    pub fn len(&self) -> (r: usize)
        requires
            self.wf(),
        ensures
            r == self@.dom().len(),
    {
        proof {
            self.lemma_dom();
        }
        self.entries.len()
    }

    /// The first index whose key is not below `k`.
    fn lower_bound(&self, k: u64) -> (r: usize)
        requires
            self.wf(),
        ensures
            r <= self.entries@.len(),
            forall|i: int| 0 <= i < r ==> self.entries@[i].0 < k,
            forall|i: int| r <= i < self.entries@.len() ==> self.entries@[i].0 >= k,
    {
        let mut lo: usize = 0;
        let mut hi: usize = self.entries.len();
        while lo < hi
            invariant
                self.wf(),
                lo <= hi <= self.entries@.len(),
                forall|i: int| 0 <= i < lo ==> self.entries@[i].0 < k,
                forall|i: int| hi <= i < self.entries@.len() ==> self.entries@[i].0 >= k,
            decreases hi - lo,
        {
            let mid = lo + (hi - lo) / 2;
            if self.entries[mid].0 < k {
                lo = mid + 1;
            } else {
                hi = mid;
            }
        }
        lo
    }

    /// The index of the entry with key `k`, if there is one.
    fn find(&self, k: u64) -> (r: Option<usize>)
        requires
            self.wf(),
        ensures
            match r {
                Some(i) => i < self.entries@.len() && self.entries@[i as int].0 == k,
                None => !self@.contains_key(k),
            },
    {
        let i = self.lower_bound(k);
        if i < self.entries.len() && self.entries[i].0 == k {
            Some(i)
        } else {
            proof {
                if self@.contains_key(k) {
                    let j = choose|j: int| 0 <= j < self.entries@.len() && self.entries@[j].0 == k;
                    if j > i {
                        assert(self.entries@[i as int].0 < self.entries@[j].0);
                    }
                }
            }
            None
        }
    }

    /// Stores `v` under `k`, replacing what was there.
    pub(crate) fn put(&mut self, k: u64, v: V)
        requires
            old(self).wf(),
            valid_key(k),
        ensures
            final(self).wf(),
            final(self)@ == old(self)@.insert(k, v),
            final(self).pending() == old(self).pending(),
    {
        let i = self.lower_bound(k);
        let ghost e0 = self.entries@;
        let ghost m0 = self.contents@;
        assert(lists(e0, m0) && valid_contents(m0));
        if i < self.entries.len() && self.entries[i].0 == k {
            self.entries.set(i, (k, v));
            self.contents = Ghost(m0.insert(k, v));
            proof {
                let e = self.entries@;
                assert forall|j: int| 0 <= j < e.len() implies #[trigger] self.contents@.contains_key(e[j].0)
                    && self.contents@[e[j].0] == e[j].1 by {
                    if j != i {
                        assert(e[j] == e0[j]);
                        lemma_lists_at(e0, m0, j);
                        if j < i {
                            assert(e0[j].0 < e0[i as int].0);
                        } else {
                            assert(e0[i as int].0 < e0[j].0);
                        }
                    }
                }
                assert forall|key: u64| #[trigger] self.contents@.contains_key(key) implies exists|j: int|
                    0 <= j < e.len() && e[j].0 == key by {
                    if key != k {
                        let j = choose|j: int| 0 <= j < e0.len() && e0[j].0 == key;
                        assert(e[j].0 == key);
                    } else {
                        assert(e[i as int].0 == key);
                    }
                }
            }
        } else {
            self.entries.insert(i, (k, v));
            self.contents = Ghost(m0.insert(k, v));
            proof {
                let e = self.entries@;
                assert(e == e0.insert(i as int, (k, v)));
                assert forall|a: int, b: int| 0 <= a < b < e.len() implies e[a].0 < e[b].0 by {
                    if b < i {
                    } else if b == i {
                    } else if a < i {
                        assert(e[b] == e0[b - 1]);
                    } else if a == i {
                        assert(e[b] == e0[b - 1]);
                        assert(e0[b - 1].0 >= k);
                        if b - 1 > i {
                            assert(e0[i as int].0 < e0[b - 1].0);
                        }
                    } else {
                        assert(e[a] == e0[a - 1]);
                        assert(e[b] == e0[b - 1]);
                    }
                }
                assert forall|j: int| 0 <= j < e.len() implies #[trigger] self.contents@.contains_key(e[j].0)
                    && self.contents@[e[j].0] == e[j].1 by {
                    if j < i {
                        assert(e[j] == e0[j]);
                        lemma_lists_at(e0, m0, j);
                    } else if j > i {
                        assert(e[j] == e0[j - 1]);
                        if j - 1 > i {
                            assert(e0[i as int].0 < e0[j - 1].0);
                        }
                        assert(e0[j - 1].0 != k);
                        lemma_lists_at(e0, m0, j - 1);
                    }
                }
                assert forall|key: u64| #[trigger] self.contents@.contains_key(key) implies exists|j: int|
                    0 <= j < e.len() && e[j].0 == key by {
                    if key != k {
                        assert(m0.contains_key(key));
                        let j = choose|j: int| 0 <= j < e0.len() && e0[j].0 == key;
                        if j < i {
                            assert(e[j].0 == key);
                        } else {
                            assert(e[j + 1].0 == key);
                        }
                    } else {
                        assert(e[i as int].0 == key);
                    }
                }
                assert forall|key: u64| #[trigger] self.contents@.contains_key(key) implies valid_key(key) by {
                    if key != k {
                        assert(m0.contains_key(key));
                    }
                }
            }
        }
    }

    /// Deletes the entry at index `i`.
    fn erase_at(&mut self, i: usize)
        requires
            old(self).wf(),
            i < old(self).entries@.len(),
        ensures
            final(self).wf(),
            final(self)@ == old(self)@.remove(old(self).entries@[i as int].0),
            final(self).pending() == old(self).pending(),
    {
        let ghost e0 = self.entries@;
        let ghost m0 = self.contents@;
        let ghost k = e0[i as int].0;
        self.entries.remove(i);
        self.contents = Ghost(m0.remove(k));
        proof {
            let e = self.entries@;
            assert(e == e0.remove(i as int));
            assert forall|a: int, b: int| 0 <= a < b < e.len() implies e[a].0 < e[b].0 by {
                if a >= i {
                    assert(e[a] == e0[a + 1]);
                }
                if b >= i {
                    assert(e[b] == e0[b + 1]);
                }
            }
            assert forall|j: int| 0 <= j < e.len() implies #[trigger] self.contents@.contains_key(e[j].0)
                && self.contents@[e[j].0] == e[j].1 by {
                if j < i {
                    assert(e[j] == e0[j]);
                    assert(e0[j].0 < k);
                } else {
                    assert(e[j] == e0[j + 1]);
                    assert(k < e0[j + 1].0);
                }
            }
            assert forall|key: u64| #[trigger] self.contents@.contains_key(key) implies exists|j: int|
                0 <= j < e.len() && e[j].0 == key by {
                assert(m0.contains_key(key));
                let j = choose|j: int| 0 <= j < e0.len() && e0[j].0 == key;
                if j < i {
                    assert(e[j].0 == key);
                } else {
                    assert(j != i);
                    assert(e[j - 1].0 == key);
                }
            }
            assert forall|key: u64| #[trigger] self.contents@.contains_key(key) implies valid_key(key) by {
                assert(m0.contains_key(key));
            }
        }
    }

    /// Queues the insertion of `value` at a cell; the next drain applies it.
    pub fn insert(&mut self, value: V, coords: Position)
        requires
            old(self).wf(),
        ensures
            final(self).wf(),
            final(self)@ == old(self)@,
            final(self).pending() == old(self).pending().push(Mutation::Insert(coords, value)),
    {
        self.pending.push(Mutation::Insert(coords, value));
    }

    /// Queues the removal of a cell; the next drain applies it.
    pub fn remove(&mut self, coords: Position)
        requires
            old(self).wf(),
        ensures
            final(self).wf(),
            final(self)@ == old(self)@,
            final(self).pending() == old(self).pending().push(Mutation::Remove(coords)),
    {
        self.pending.push(Mutation::Remove(coords));
    }

    /// The index of the entry that removing the cell at `coords` deletes:
    /// the cell's own entry, else the smallest compressed region around it.
    fn removal_index(&self, coords: Position) -> (r: Option<usize>)
        requires
            self.wf(),
        ensures
            match r {
                Some(i) => i < self.entries@.len() && removal_target(self@, cell_of(coords), 0)
                    == Some(self.entries@[i as int].0),
                None => removal_target(self@, cell_of(coords), 0) == None::<u64>,
            },
    {
        let k = key_of(coords.0, coords.1, coords.2);
        let mut level: u64 = 0;
        while level < 16
            invariant
                self.wf(),
                k == cell_of(coords),
                level <= 16,
                removal_target(self@, k, 0) == removal_target(self@, k, level as nat),
            decreases 16 - level,
        {
            let s: u64 = 16 + 3 * level;
            let a: u64 = ((k >> s) << s) | level;
            assert(a == ancestor_key(k, level));
            match self.find(a) {
                Some(i) => {
                    proof {
                        lemma_lists_at(self.entries@, self@, i as int);
                    }
                    return Some(i);
                },
                None => {},
            }
            level = level + 1;
        }
        None
    }

    /// Applies one change to the stored entries.
    fn apply(&mut self, op: &Mutation<V>)
        requires
            old(self).wf(),
        ensures
            final(self).wf(),
            final(self)@ == apply_one(old(self)@, *op),
            final(self).pending() == old(self).pending(),
    {
        match op {
            Mutation::Insert(c, v) => {
                let k = key_of(c.0, c.1, c.2);
                self.put(k, *v);
            },
            Mutation::Remove(c) => {
                match self.removal_index(*c) {
                    Some(i) => self.erase_at(i),
                    None => {},
                }
            },
        }
    }

    /// Drains the queue, oldest change first, into the stored entries.
    pub fn apply_mutations(&mut self)
        requires
            old(self).wf(),
        ensures
            final(self).wf(),
            final(self)@ == apply_all(old(self)@, old(self).pending()),
            final(self).pending() == Seq::<Mutation<V>>::empty(),
    {
        let ghost m0 = self@;
        let ghost ops0 = self.pending@;
        let mut ops: Vec<Mutation<V>> = Vec::new();
        std::mem::swap(&mut ops, &mut self.pending);
        let n = ops.len();
        let mut i: usize = 0;
        while i < n
            invariant
                self.wf(),
                self.pending@ == Seq::<Mutation<V>>::empty(),
                ops@ == ops0,
                n == ops0.len(),
                i <= n,
                self@ == apply_all(m0, ops0.take(i as int)),
            decreases n - i,
        {
            self.apply(&ops[i]);
            assert(ops0.take(i + 1).drop_last() =~= ops0.take(i as int));
            i = i + 1;
        }
        assert(ops0.take(n as int) =~= ops0);
    }

    /// The payload stored at a full-resolution cell. A value that compaction
    /// folded into a coarser entry is not found here; a prefix query finds it.
    pub fn get(&self, coords: Position) -> (r: Option<V>)
        requires
            self.wf(),
        ensures
            r == (if self@.contains_key(cell_of(coords)) {
                Some(self@[cell_of(coords)])
            } else {
                None
            }),
    {
        let k = key_of(coords.0, coords.1, coords.2);
        match self.find(k) {
            Some(i) => Some(self.entries[i].1),
            None => None,
        }
    }

    /// The payloads at the six axis neighbours of a cell (-x, +x, -y, +y,
    /// -z, +z), each looked up as `get` does; a neighbour outside the
    /// coordinate range is absent.
    pub fn get_neighbours_cross(&self, coords: Position) -> (r: Vec<Option<V>>)
        requires
            self.wf(),
        ensures
            r@.len() == 6,
            forall|i: int|
                0 <= i < 6 ==> #[trigger] r@[i] == match neighbour(coords, i) {
                    Some(n) => lookup(self@, cell_of(n)),
                    None => None,
                },
    {
        let (x, y, z) = coords;
        let mut r: Vec<Option<V>> = Vec::new();
        r.push(if x > 0 { self.get((x - 1, y, z)) } else { None });
        r.push(if x < 0xffff { self.get((x + 1, y, z)) } else { None });
        r.push(if y > 0 { self.get((x, y - 1, z)) } else { None });
        r.push(if y < 0xffff { self.get((x, y + 1, z)) } else { None });
        r.push(if z > 0 { self.get((x, y, z - 1)) } else { None });
        r.push(if z < 0xffff { self.get((x, y, z + 1)) } else { None });
        r
    }

    /// Every stored entry, leaf or compressed, in the region of the given
    /// depth that holds `coords` (depth 0 is the cell itself, depth 16 and
    /// more the whole space), in key order.
    pub fn get_neighbours_prefix(&self, coords: Position, depth: u32) -> (r: Vec<(u64, V)>)
        requires
            self.wf(),
        ensures
            lists(r@, region_of(self@, coords, depth as nat)),
    {
        let k = key_of(coords.0, coords.1, coords.2);
        let all = depth >= 16;
        let s: u64 = if all { 0 } else { 16 + 3 * depth as u64 };
        let p: u64 = k >> s;
        let lo: u64 = if all { 0 } else { p << s };
        let start = self.lower_bound(lo);
        let ghost e = self.entries@;
        let ghost reg = region_of(self@, coords, depth as nat);
        assert forall|key: u64| same_region(key, k, depth as nat) <==> (all || key >> s == p) by {
        }
        let mut r: Vec<(u64, V)> = Vec::new();
        let mut i = start;
        while i < self.entries.len() && (all || self.entries[i].0 >> s == p)
            invariant
                self.wf(),
                e == self.entries@,
                s < 64,
                start <= i <= e.len(),
                r@ == e.subrange(start as int, i as int),
                forall|j: int| start <= j < i ==> (all || #[trigger] e[j].0 >> s == p),
            decreases e.len() - i,
        {
            r.push(self.entries[i]);
            assert(r@ =~= e.subrange(start as int, i + 1));
            i = i + 1;
        }
        proof {
            let m = self@;
            assert forall|a: int, b: int| 0 <= a < b < r@.len() implies r@[a].0 < r@[b].0 by {
                assert(r@[a] == e[start + a]);
                assert(r@[b] == e[start + b]);
            }
            assert forall|j: int| #![trigger r@[j]] 0 <= j < r@.len() implies reg.contains_key(r@[j].0)
                && reg[r@[j].0] == r@[j].1 by {
                assert(r@[j] == e[start + j]);
                lemma_lists_at(e, m, start + j);
            }
            assert forall|key: u64| #[trigger] reg.contains_key(key) implies exists|j: int|
                0 <= j < r@.len() && r@[j].0 == key by {
                let t = choose|t: int| 0 <= t < e.len() && e[t].0 == key;
                if !all {
                    lemma_shift_order(key, k, s);
                    assert(key >= lo);
                }
                assert(t >= start);
                if t >= i {
                    assert(!all);
                    assert(i < e.len());
                    lemma_shift_order(e[i as int].0, k, s);
                    lemma_shift_order(e[i as int].0, key, s);
                    if t > i {
                        assert(e[i as int].0 < e[t].0);
                    }
                    assert(e[i as int].0 >> s > p);
                    assert(false);
                }
                assert(r@[t - start] == e[t]);
            }
        }
        r
    }

    /// Every stored entry whose position lies within Chebyshev distance
    /// `radius` of `coords`, in key order. One prefix query fetches the
    /// region around `coords` whose blocks are at least `radius` wide,
    /// widened until one block holds the whole box, and the result is
    /// filtered by distance.
    pub fn get_neighbours_area(&self, coords: Position, radius: u16) -> (r: Vec<(u64, V)>)
        requires
            self.wf(),
        ensures
            lists(r@, radius_of(self@, coords, radius)),
    {
        let (x, y, z) = coords;
        let rad: u64 = radius as u64;
        let mut depth: u64 = 0;
        while depth < 16 && (1u64 << depth) < rad
            invariant
                depth <= 16,
            decreases 16 - depth,
        {
            depth = depth + 1;
        }
        let lo_x: u64 = if x as u64 >= rad { x as u64 - rad } else { 0 };
        let hi_x: u64 = if x as u64 + rad <= 0xffff { x as u64 + rad } else { 0xffff };
        let lo_y: u64 = if y as u64 >= rad { y as u64 - rad } else { 0 };
        let hi_y: u64 = if y as u64 + rad <= 0xffff { y as u64 + rad } else { 0xffff };
        let lo_z: u64 = if z as u64 >= rad { z as u64 - rad } else { 0 };
        let hi_z: u64 = if z as u64 + rad <= 0xffff { z as u64 + rad } else { 0xffff };
        while depth < 16 && !(lo_x >> depth == hi_x >> depth && lo_y >> depth == hi_y >> depth && lo_z
            >> depth == hi_z >> depth)
            invariant
                depth <= 16,
            decreases 16 - depth,
        {
            depth = depth + 1;
        }
        let region = self.get_neighbours_prefix(coords, depth as u32);
        let ghost reg = region_of(self@, coords, depth as nat);
        let ghost target = radius_of(self@, coords, radius);
        proof {
            assert forall|k: u64| #[trigger] target.contains_key(k) implies reg.contains_key(k) by {
                if depth < 16 {
                    let d = depth as nat;
                    let u = position_of((k >> 16u64) as nat);
                    lemma_unpack(k);
                    lemma_pow_positive(d);
                    lemma_shr_div(lo_x, depth);
                    lemma_shr_div(hi_x, depth);
                    lemma_shr_div(lo_y, depth);
                    lemma_shr_div(hi_y, depth);
                    lemma_shr_div(lo_z, depth);
                    lemma_shr_div(hi_z, depth);
                    let p = pow2(d) as int;
                    vstd::arithmetic::div_mod::lemma_div_is_ordered(lo_x as int, u.0 as int, p);
                    vstd::arithmetic::div_mod::lemma_div_is_ordered(u.0 as int, hi_x as int, p);
                    vstd::arithmetic::div_mod::lemma_div_is_ordered(lo_x as int, x as int, p);
                    vstd::arithmetic::div_mod::lemma_div_is_ordered(x as int, hi_x as int, p);
                    vstd::arithmetic::div_mod::lemma_div_is_ordered(lo_y as int, u.1 as int, p);
                    vstd::arithmetic::div_mod::lemma_div_is_ordered(u.1 as int, hi_y as int, p);
                    vstd::arithmetic::div_mod::lemma_div_is_ordered(lo_y as int, y as int, p);
                    vstd::arithmetic::div_mod::lemma_div_is_ordered(y as int, hi_y as int, p);
                    vstd::arithmetic::div_mod::lemma_div_is_ordered(lo_z as int, u.2 as int, p);
                    vstd::arithmetic::div_mod::lemma_div_is_ordered(u.2 as int, hi_z as int, p);
                    vstd::arithmetic::div_mod::lemma_div_is_ordered(lo_z as int, z as int, p);
                    vstd::arithmetic::div_mod::lemma_div_is_ordered(z as int, hi_z as int, p);
                    lemma_region_by_position(k, coords, depth);
                }
            }
        }
        let r = filter_within(&region, coords, radius, Ghost(reg));
        assert(radius_of(reg, coords, radius) =~= target);
        r
    }

    /// Every stored entry, in key order.
    pub fn to_entries(&self) -> (r: Vec<(u64, V)>)
        requires
            self.wf(),
        ensures
            lists(r@, self@),
    {
        let mut r: Vec<(u64, V)> = Vec::new();
        let mut i: usize = 0;
        while i < self.entries.len()
            invariant
                self.wf(),
                i <= self.entries@.len(),
                r@ == self.entries@.subrange(0, i as int),
            decreases self.entries@.len() - i,
        {
            r.push(self.entries[i]);
            assert(r@ =~= self.entries@.subrange(0, i + 1));
            i = i + 1;
        }
        assert(r@ =~= self.entries@);
        r
    }

    /// Every key after a pass shares its prefix with a stored key.
    proof fn lemma_compact_key_origin(&self, level: u64, k: u64) -> (t: int)
        requires
            self.wf(),
            1 <= level <= 15,
            compact_level(self@, level).contains_key(k),
        ensures
            0 <= t < self.entries@.len(),
            self.entries@[t].0 >> region_shift(level) == k >> region_shift(level),
    {
        let m = self@;
        let s = region_shift(level);
        if m.contains_key(k) {
            choose|t: int| 0 <= t < self.entries@.len() && self.entries@[t].0 == k
        } else {
            let b = block(m, k >> s, s);
            assert(collapsible(m, k >> s, level));
            crate::voxels::morton::lemma_pow_positive(level as nat);
            if b =~= Set::<u64>::empty() {
                assert(b.len() == 0);
            }
            let k2 = choose|k2: u64| b.contains(k2);
            choose|t: int| 0 <= t < self.entries@.len() && self.entries@[t].0 == k2
        }
    }

    /// One run of a pass keeps the loop's account of what has been written.
    proof fn lemma_pass_step(
        &self,
        out0: Seq<(u64, V)>,
        out: Seq<(u64, V)>,
        i: int,
        j: int,
        s: u64,
        p: u64,
        level: u64,
    )
        requires
            self.wf(),
            1 <= level <= 15,
            s == region_shift(level),
            0 <= i < j <= self.entries@.len(),
            forall|t: int| i <= t < j ==> #[trigger] self.entries@[t].0 >> s == p,
            i == 0 || self.entries@[i - 1].0 >> s != p,
            j == self.entries@.len() || self.entries@[j].0 >> s != p,
            out0.len() <= out.len(),
            forall|t: int| 0 <= t < out0.len() ==> out[t] == out0[t],
            forall|t: int| #![trigger out0[t]] 0 <= t < out0.len() ==> out0[t].0 >> s < p,
            forall|t: int| #![trigger out[t]] out0.len() <= t < out.len() ==> out[t].0 >> s == p
                && compact_level(self@, level).contains_key(out[t].0)
                && compact_level(self@, level)[out[t].0] == out[t].1,
            forall|t: int| #![trigger out0[t]] 0 <= t < out0.len() ==> compact_level(self@, level).contains_key(out0[t].0)
                && compact_level(self@, level)[out0[t].0] == out0[t].1,
            forall|k: u64| #[trigger] compact_level(self@, level).contains_key(k) && k >> s < p
                ==> exists|t: int| 0 <= t < out0.len() && out0[t].0 == k,
            forall|k: u64| #[trigger] compact_level(self@, level).contains_key(k) && k >> s == p
                ==> exists|t: int| out0.len() <= t < out.len() && out[t].0 == k,
        ensures
            j == self.entries@.len() || self.entries@[j - 1].0 >> s != self.entries@[j].0 >> s,
            forall|t: int| #![trigger out[t]] 0 <= t < out.len() ==> compact_level(self@, level).contains_key(out[t].0)
                && compact_level(self@, level)[out[t].0] == out[t].1
                && (j < self.entries@.len() ==> out[t].0 >> s < self.entries@[j].0 >> s),
            forall|k: u64| #[trigger] compact_level(self@, level).contains_key(k)
                && (j < self.entries@.len() ==> k >> s < self.entries@[j].0 >> s)
                ==> exists|t: int| 0 <= t < out.len() && out[t].0 == k,
    {
        let e = self.entries@;
        let cm = compact_level(self@, level);
        if j < e.len() {
            lemma_shift_order(e[j - 1].0, e[j].0, s);
        }
        assert forall|t: int| #![trigger out[t]] 0 <= t < out.len() implies cm.contains_key(out[t].0)
            && cm[out[t].0] == out[t].1 && (j < e.len() ==> out[t].0 >> s < e[j].0 >> s) by {
            if t < out0.len() {
                assert(out[t] == out0[t]);
            }
        }
        assert forall|k: u64| #[trigger] cm.contains_key(k) && (j < e.len() ==> k >> s < e[j].0 >> s)
            implies exists|t: int| 0 <= t < out.len() && out[t].0 == k by {
            if k >> s < p {
                let t = choose|t: int| 0 <= t < out0.len() && out0[t].0 == k;
                assert(out[t] == out0[t]);
            } else if k >> s == p {
            } else {
                let t = self.lemma_compact_key_origin(level, k);
                if t < i {
                    lemma_shift_order(e[t].0, e[i - 1].0, s);
                    lemma_shift_order(e[i - 1].0, e[i].0, s);
                    if t < i - 1 {
                        assert(e[t].0 < e[i - 1].0);
                    }
                    assert(false);
                } else if t < j {
                    assert(false);
                } else {
                    lemma_shift_order(e[j].0, e[t].0, s);
                    if t > j {
                        assert(e[j].0 < e[t].0);
                    }
                    assert(false);
                }
            }
        }
    }

    proof fn lemma_run_is_block(&self, i: int, j: int, s: u64, p: u64)
        requires
            self.wf(),
            0 <= i < j <= self.entries@.len(),
            s < 64,
            forall|t: int| i <= t < j ==> #[trigger] self.entries@[t].0 >> s == p,
            i == 0 || self.entries@[i - 1].0 >> s != p,
            j == self.entries@.len() || self.entries@[j].0 >> s != p,
        ensures
            block(self@, p, s) == self.entries@.subrange(i, j).map_values(|x: (u64, V)| x.0).to_set(),
            block(self@, p, s).len() == j - i,
    {
        let e = self.entries@;
        let ks = e.subrange(i, j).map_values(|x: (u64, V)| x.0);
        assert forall|k: u64| block(self@, p, s).contains(k) <==> ks.to_set().contains(k) by {
            if block(self@, p, s).contains(k) {
                let t = choose|t: int| 0 <= t < e.len() && e[t].0 == k;
                if t < i {
                    lemma_shift_order(e[t].0, e[i - 1].0, s);
                    lemma_shift_order(e[i - 1].0, e[i].0, s);
                    if t < i - 1 {
                        assert(e[t].0 < e[i - 1].0);
                    }
                    assert(false);
                }
                if t >= j {
                    lemma_shift_order(e[j].0, e[t].0, s);
                    lemma_shift_order(e[j - 1].0, e[j].0, s);
                    if t > j {
                        assert(e[j].0 < e[t].0);
                    }
                    assert(false);
                }
                assert(ks[t - i] == k);
            }
            if ks.to_set().contains(k) {
                let t = choose|t: int| 0 <= t < ks.len() && ks[t] == k;
                assert(e[i + t].0 == k);
                lemma_lists_at(e, self@, i + t);
            }
        }
        assert(block(self@, p, s) =~= ks.to_set());
        assert(ks.no_duplicates()) by {
            assert forall|a: int, b: int| 0 <= a < ks.len() && 0 <= b < ks.len() && a != b implies ks[a] != ks[b] by {
                if a < b {
                    assert(e[i + a].0 < e[i + b].0);
                } else {
                    assert(e[i + b].0 < e[i + a].0);
                }
            }
        }
        ks.unique_seq_to_set();
    }
}

impl<V: Comparable> SparseVoxelStore<V> {
    /// The end of the run of entries from `i` on that share the prefix of
    /// entry `i` above bit `s`, and whether they all hold its payload.
    fn run_end(&self, i: usize, s: u64) -> (r: (usize, bool))
        requires
            self.wf(),
            i < self.entries@.len(),
            s < 64,
        ensures
            i < r.0 <= self.entries@.len(),
            forall|t: int| i <= t < r.0 ==> #[trigger] self.entries@[t].0 >> s == self.entries@[i as int].0 >> s,
            r.0 == self.entries@.len() || self.entries@[r.0 as int].0 >> s != self.entries@[i as int].0 >> s,
            r.1 == forall|t: int| i <= t < r.0 ==> #[trigger] self.entries@[t].1 == self.entries@[i as int].1,
    {
        let p = self.entries[i].0 >> s;
        let mut j = i;
        let mut uniform = true;
        while j < self.entries.len() && self.entries[j].0 >> s == p
            invariant
                self.wf(),
                i < self.entries@.len(),
                i <= j <= self.entries@.len(),
                s < 64,
                p == self.entries@[i as int].0 >> s,
                forall|t: int| i <= t < j ==> #[trigger] self.entries@[t].0 >> s == p,
                uniform == forall|t: int| i <= t < j ==> #[trigger] self.entries@[t].1 == self.entries@[i as int].1,
            decreases self.entries@.len() - j,
        {
            if !self.entries[j].1.same(&self.entries[i].1) {
                uniform = false;
            }
            j = j + 1;
        }
        (j, uniform)
    }

    /// Collapses homogeneous regions, level by level from 1 to `max_depth`:
    /// at each level every region of `8^level` cells that is fully
    /// populated with one payload becomes one entry tagged with the level.
    /// The queue is drained first and after each level.
    pub fn compress(&mut self, max_depth: u8)
        requires
            old(self).wf(),
            max_depth <= 15,
        ensures
            final(self).wf(),
            final(self)@ == compact_upto(apply_all(old(self)@, old(self).pending()), max_depth as u64),
            final(self).pending() == Seq::<Mutation<V>>::empty(),
    {
        self.apply_mutations();
        let ghost m0 = self@;
        let mut level: u8 = 1;
        while level <= max_depth
            invariant
                self.wf(),
                1 <= level <= max_depth + 1,
                max_depth <= 15,
                self.pending() == Seq::<Mutation<V>>::empty(),
                self@ == compact_upto(m0, (level - 1) as u64),
            decreases max_depth + 1 - level,
        {
            self.compact_pass(level as u64);
            self.apply_mutations();
            level = level + 1;
        }
    }


    /// One compaction pass at `level`.
    fn compact_pass(&mut self, level: u64)
        requires
            old(self).wf(),
            1 <= level <= 15,
        ensures
            final(self).wf(),
            final(self)@ == compact_level(old(self)@, level),
            final(self).pending() == old(self).pending(),
    {
        let s: u64 = 16 + 3 * level;
        let ghost e = self.entries@;
        let ghost m = self@;
        let ghost cm = compact_level(m, level);
        let size: u64 = pow8_exec(level);
        let n = self.entries.len();
        let mut out: Vec<(u64, V)> = Vec::new();
        let mut i: usize = 0;
        proof {
            assert forall|k: u64| #[trigger] cm.contains_key(k) && (0 < n ==> k >> s < e[0].0 >> s)
                implies exists|t: int| 0 <= t < out@.len() && out@[t].0 == k by {
                let t = self.lemma_compact_key_origin(level, k);
                if t > 0 {
                    lemma_shift_order(e[0].0, e[t].0, s);
                }
            }
        }
        while i < n
            invariant
                self.wf(),
                e == self.entries@,
                m == self@,
                cm == compact_level(m, level),
                n == e.len(),
                s == region_shift(level),
                1 <= level <= 15,
                size == pow8(level as nat),
                i <= n,
                i == 0 || i == n || e[i - 1].0 >> s != e[i as int].0 >> s,
                sorted_keys(out@),
                forall|t: int| #![trigger out@[t]] 0 <= t < out@.len() ==> cm.contains_key(out@[t].0)
                    && cm[out@[t].0] == out@[t].1 && (i < n ==> out@[t].0 >> s < e[i as int].0 >> s),
                forall|k: u64| #[trigger] cm.contains_key(k) && (i < n ==> k >> s < e[i as int].0 >> s)
                    ==> exists|t: int| 0 <= t < out@.len() && out@[t].0 == k,
                valid_contents(m),
            decreases n - i,
        {
            let (j, uniform) = self.run_end(i, s);
            let p = self.entries[i].0 >> s;
            let ghost out0 = out@;
            let ghost b = block(m, p, s);
            proof {
                self.lemma_run_is_block(i as int, j as int, s, p);
                lemma_lists_at(e, m, i as int);
                assert(b.contains(e[i as int].0));
                if collapsible(m, p, level) {
                    assert forall|t: int| i <= t < j implies #[trigger] e[t].1 == e[i as int].1 by {
                        lemma_lists_at(e, m, t);
                        assert(b.contains(e[t].0));
                    }
                }
                if (j - i) as u64 == size && uniform {
                    assert forall|k1: u64, k2: u64| b.contains(k1) && b.contains(k2) implies m[k1] == m[k2] by {
                        let ks = e.subrange(i as int, j as int).map_values(|x: (u64, V)| x.0);
                        let t1 = choose|t: int| 0 <= t < ks.len() && ks[t] == k1;
                        let t2 = choose|t: int| 0 <= t < ks.len() && ks[t] == k2;
                        lemma_lists_at(e, m, i + t1);
                        lemma_lists_at(e, m, i + t2);
                        assert(e[i + t1].1 == e[i as int].1);
                        assert(e[i + t2].1 == e[i as int].1);
                    }
                }
                assert(collapsible(m, p, level) == ((j - i) as u64 == size && uniform));
            }
            if (j - i) as u64 == size && uniform {
                let ck: u64 = (p << s) | level;
                proof {
                    lemma_ancestor_valid(e[i as int].0, level);
                    assert(ck == ancestor_key(e[i as int].0, level));
                    assert(ck >> s == p);
                    assert(cm.contains_key(ck));
                    let k2 = choose|k2: u64| block(m, ck >> s, s).contains(k2);
                    assert(b.contains(k2));
                    assert(cm[ck] == m[k2]);
                    assert(m[k2] == m[e[i as int].0]);
                }
                out.push((ck, self.entries[i].1));
                proof {
                    assert forall|a: int, c: int| 0 <= a < c < out@.len() implies out@[a].0 < out@[c].0 by {
                        if c == out@.len() - 1 {
                            assert(out@[a] == out0[a]);
                            lemma_shift_order(ck, out0[a].0, s);
                        } else {
                            assert(out@[a] == out0[a]);
                            assert(out@[c] == out0[c]);
                        }
                    }
                    assert forall|k: u64| #[trigger] cm.contains_key(k) && k >> s == p implies exists|t: int|
                        out0.len() <= t < out@.len() && out@[t].0 == k by {
                        assert(k == ancestor_key(k, level));
                        assert(out@[out0.len() as int].0 == k);
                    }
                    self.lemma_pass_step(out0, out@, i as int, j as int, s, p, level);
                }
            } else {
                let mut t = i;
                while t < j
                    invariant
                        i <= t <= j,
                        j <= e.len(),
                        e == self.entries@,
                        out@ == out0 + e.subrange(i as int, t as int),
                    decreases j - t,
                {
                    out.push(self.entries[t]);
                    assert(out@ =~= out0 + e.subrange(i as int, t + 1));
                    t = t + 1;
                }
                proof {
                    let run = e.subrange(i as int, j as int);
                    assert(out@ == out0 + run);
                    assert forall|t: int| #![trigger run[t]] 0 <= t < run.len() implies cm.contains_key(run[t].0)
                        && cm[run[t].0] == run[t].1 by {
                        assert(run[t] == e[i + t]);
                        lemma_lists_at(e, m, i + t);
                        assert(e[i + t].0 >> s == p);
                    }
                    assert forall|a: int, c: int| 0 <= a < c < out@.len() implies out@[a].0 < out@[c].0 by {
                        if a < out0.len() && c >= out0.len() {
                            assert(out@[c] == e[i + (c - out0.len())]);
                            assert(out@[a] == out0[a]);
                            lemma_shift_order(e[i + (c - out0.len())].0, out0[a].0, s);
                        } else if a >= out0.len() {
                            assert(out@[c] == e[i + (c - out0.len())]);
                            assert(out@[a] == e[i + (a - out0.len())]);
                        } else {
                            assert(out@[a] == out0[a]);
                            assert(out@[c] == out0[c]);
                        }
                    }
                    assert forall|k: u64| #[trigger] cm.contains_key(k) && k >> s == p implies exists|t: int|
                        out0.len() <= t < out@.len() && out@[t].0 == k by {
                        assert(m.contains_key(k));
                        assert(b.contains(k));
                        let ks = e.subrange(i as int, j as int).map_values(|x: (u64, V)| x.0);
                        assert(ks.to_set().contains(k));
                        let t = choose|t: int| 0 <= t < ks.len() && ks[t] == k;
                        assert(out@[out0.len() + t] == run[t]);
                    }
                    self.lemma_pass_step(out0, out@, i as int, j as int, s, p, level);
                }
            }
            i = j;
        }
        proof {
            assert forall|k: u64| #[trigger] cm.contains_key(k) implies valid_key(k) by {
                if m.contains_key(k) {
                } else {
                    lemma_ancestor_valid(k, level);
                }
            }
        }
        self.entries = out;
        self.contents = Ghost(cm);
    }

}

/// `8^n`.
fn pow8_exec(n: u64) -> (r: u64)
    requires
        n <= 15,
    ensures
        r == pow8(n as nat),
{
    let mut r: u64 = 1;
    let mut i: u64 = 0;
    proof {
        reveal_with_fuel(pow8, 16);
        crate::voxels::morton::lemma_pow8_mono(0, 15);
    }
    while i < n
        invariant
            i <= n <= 15,
            r == pow8(i as nat),
            pow8(i as nat) <= pow8(15),
            pow8(15) == 0x2000_0000_0000,
        decreases n - i,
    {
        proof {
            reveal_with_fuel(pow8, 16);
            crate::voxels::morton::lemma_pow8_mono((i + 1) as nat, 15);
        }
        r = r * 8;
        i = i + 1;
    }
    r
}

/// After a drain, a cell holds the value that the last queued insertion put
/// there, and a store that was empty holds nothing at any other cell.
pub proof fn lemma_insert_then_get<V>(v: V, c: Position, other: Position)
    requires
        other != c,
    ensures
        lookup(apply_all(Map::<u64, V>::empty(), seq![Mutation::Insert(c, v)]), cell_of(c)) == Some(v),
        lookup(apply_all(Map::<u64, V>::empty(), seq![Mutation::Insert(c, v)]), cell_of(other))
            == None::<V>,
{
    let ops = seq![Mutation::Insert(c, v)];
    assert(ops.drop_last() =~= Seq::<Mutation<V>>::empty());
    lemma_cell_key_injective(other, c);
    let m1 = Map::<u64, V>::empty().insert(cell_of(c), v);
    assert(ops.len() == 1 && ops.last() == Mutation::Insert(c, v));
    assert(apply_all(Map::<u64, V>::empty(), ops.drop_last()) == Map::<u64, V>::empty());
    assert(apply_all(Map::<u64, V>::empty(), ops) == m1);
    assert(!m1.contains_key(cell_of(other)));
}

/// Whatever the store held and whatever was queued before, queueing an
/// insertion and then a removal of one cell leaves that cell empty after the
/// drain.
pub proof fn lemma_insert_remove_get<V>(m: Map<u64, V>, ops: Seq<Mutation<V>>, v: V, c: Position)
    ensures
        lookup(
            apply_all(m, ops.push(Mutation::Insert(c, v)).push(Mutation::Remove(c))),
            cell_of(c),
        ) == None::<V>,
{
    let with_insert = ops.push(Mutation::Insert(c, v));
    let all = with_insert.push(Mutation::Remove(c));
    assert(all.drop_last() == with_insert);
    assert(with_insert.drop_last() == ops);
    let m1 = apply_all(m, with_insert);
    lemma_cell_key(c.0, c.1, c.2);
    assert(m1.contains_key(cell_of(c)));
    assert(removal_target(m1, cell_of(c), 0) == Some(cell_of(c)));
}

/// A prefix query of a greater depth returns every entry that one of a
/// smaller depth returns, with the same payload.
pub proof fn lemma_prefix_monotone<V>(m: Map<u64, V>, c: Position, d1: nat, d2: nat)
    requires
        d1 <= d2,
    ensures
        region_of(m, c, d1).submap_of(region_of(m, c, d2)),
{
    assert forall|k: u64| #[trigger] region_of(m, c, d1).contains_key(k) implies region_of(
        m,
        c,
        d2,
    ).contains_key(k) && region_of(m, c, d2)[k] == region_of(m, c, d1)[k] by {
        lemma_same_region_grows(k, cell_of(c), d1, d2);
    }
}
/// A compaction pass loses no payload: each stored entry's value stays
/// either under its own key or under the key of its collapsed region, which
/// lies in the same region.
pub proof fn lemma_compaction_keeps_values<V>(m: Map<u64, V>, level: u64, k: u64)
    requires
        1 <= level <= 15,
        m.contains_key(k),
    ensures
        ({
            let cm = compact_level(m, level);
            let a = ancestor_key(k, level);
            ||| cm.contains_key(k) && cm[k] == m[k]
            ||| cm.contains_key(a) && cm[a] == m[k] && a >> region_shift(level) == k >> region_shift(level)
        }),
{
    let s = region_shift(level);
    let cm = compact_level(m, level);
    let a = ancestor_key(k, level);
    lemma_ancestor_valid(k, level);
    if collapsible(m, k >> s, level) {
        assert(a >> s == k >> s);
        assert(ancestor_key(a, level) == a) by {
            assert(level <= 15 && s == 16 + 3 * level ==> ((((k >> s) << s) | level) >> s) << s == (k >> s) << s)
                by (bit_vector);
        }
        assert(cm.contains_key(a));
        let k2 = choose|k2: u64| block(m, a >> s, s).contains(k2);
        assert(block(m, k >> s, s).contains(k));
        assert(cm[a] == m[k2]);
    }
}

} // verus!
