//! The file-tree model: a generational arena of directory nodes. The arena
//! lives only on the main thread; worker threads exchange plain data, so the
//! tree needs no locks. Generational ids make stale references (drag
//! targets, selection, in-flight scan results) mechanically safe: `get`
//! returns None after a node is closed, even if the slot is reused.
//!
//! Positions and sizes are floating point and stay with the caller: a node
//! carries them as an opaque `G`, each of its rows as an opaque `R`.

use vstd::prelude::*;

verus! {

/// Handle to a node: a slot index and the generation the slot had when the
/// node was inserted.
#[derive(Clone, Copy, PartialEq, Eq, Structural, Hash, Debug)]
pub struct NodeId {
    index: u32,
    gen: u32,
}

impl NodeId {
    /// The id carries the last generation a slot can reach before its
    /// counter wraps.
    pub closed spec fn is_last_generation(self) -> bool {
        self.gen == u32::MAX
    }

    /// The id the same slot carries after its node is removed (the
    /// generation counter steps on, wrapping after the last).
    pub closed spec fn next_generation(self) -> NodeId {
        NodeId { index: self.index, gen: if self.gen == u32::MAX { 0 } else { (self.gen + 1) as u32 } }
    }

    /// Both ids name the same slot of the arena.
    pub closed spec fn same_slot(self, other: NodeId) -> bool {
        self.index == other.index
    }
}

/// The slot of `id` has had its generation counter wrap: an id of that slot
/// with the last generation was retired.
pub open spec fn slot_wrapped(retired: Set<NodeId>, id: NodeId) -> bool {
    exists|x: NodeId| #[trigger] retired.contains(x) && x.same_slot(id) && x.is_last_generation()
}

struct Slot<N> {
    gen: u32,
    node: Option<N>,
}

spec fn count_occupied<N>(s: Seq<Slot<N>>) -> nat
    decreases s.len(),
{
    if s.len() == 0 {
        0
    } else {
        count_occupied(s.drop_last()) + if s.last().node is Some {
            1nat
        } else {
            0nat
        }
    }
}

proof fn lemma_count_update<N>(s: Seq<Slot<N>>, i: int, x: Slot<N>)
    requires
        0 <= i < s.len(),
    ensures
        count_occupied(s.update(i, x)) + (if s[i].node is Some {
            1nat
        } else {
            0nat
        }) == count_occupied(s) + (if x.node is Some {
            1nat
        } else {
            0nat
        }),
    decreases s.len(),
{
    let t = s.update(i, x);
    if i == s.len() - 1 {
        assert(t.drop_last() =~= s.drop_last());
    } else {
        assert(t.drop_last() =~= s.drop_last().update(i, x));
        lemma_count_update(s.drop_last(), i, x);
    }
}

proof fn lemma_count_push<N>(s: Seq<Slot<N>>, x: Slot<N>)
    ensures
        count_occupied(s.push(x)) == count_occupied(s) + (if x.node is Some {
            1nat
        } else {
            0nat
        }),
{
    assert(s.push(x).drop_last() =~= s);
}

pub struct NodeArena<N> {
    slots: Vec<Slot<N>>,
    free: Vec<u32>,
    /// Every id that was handed out and later removed.
    retired: Ghost<Set<NodeId>>,
    /// Set once some slot's generation counter has wrapped around.
    exhausted: Ghost<bool>,
}

impl<N> NodeArena<N> {
    spec fn holds(&self, id: NodeId) -> bool {
        &&& (id.index as int) < self.slots@.len()
        &&& self.slots@[id.index as int].gen == id.gen
        &&& self.slots@[id.index as int].node is Some
    }

    /// The live nodes, by id.
    pub closed spec fn live(&self) -> Map<NodeId, N> {
        Map::new(
            |id: NodeId| self.holds(id),
            |id: NodeId| self.slots@[id.index as int].node.unwrap(),
        )
    }

    /// The ids of the nodes removed so far.
    pub closed spec fn retired(&self) -> Set<NodeId> {
        self.retired@
    }

    /// Some slot has been reused so often that its generation counter
    /// wrapped; only from then on can a retired id alias a live one.
    pub closed spec fn exhausted(&self) -> bool {
        self.exhausted@
    }

    /// How many slots hold a node.
    pub closed spec fn occupied(&self) -> nat {
        count_occupied(self.slots@)
    }

    /// The id the next `insert` hands out: the most recently freed slot,
    /// under its current generation, or else a new slot at the end.
    pub closed spec fn next_id(&self) -> NodeId {
        if self.free@.len() > 0 {
            let i = self.free@.last();
            NodeId { index: i, gen: self.slots@[i as int].gen }
        } else {
            NodeId { index: self.slots@.len() as u32, gen: 0 }
        }
    }

    /// Room for one more slot index (or a free slot to reuse).
    pub closed spec fn has_room(&self) -> bool {
        self.free@.len() > 0 || self.slots@.len() < u32::MAX
    }

    /// The free list names distinct empty slots, and (until a generation
    /// wraps) every retired id is older than its slot's current generation.
    pub closed spec fn wf(&self) -> bool {
        &&& self.slots@.len() <= u32::MAX + 1
        &&& forall|k: int|
            0 <= k < self.free@.len() ==> {
                &&& (#[trigger] self.free@[k] as int) < self.slots@.len()
                &&& self.slots@[self.free@[k] as int].node is None
            }
        &&& forall|k: int, l: int|
            0 <= k < l < self.free@.len() ==> #[trigger] self.free@[k] != #[trigger] self.free@[l]
        &&& !self.exhausted@ ==> forall|id: NodeId| #[trigger]
            self.retired@.contains(id) ==> (id.index as int) < self.slots@.len()
                && id.gen < self.slots@[id.index as int].gen
        &&& forall|id: NodeId| #[trigger]
            self.retired@.contains(id) ==> (id.index as int) < self.slots@.len()
        &&& forall|id: NodeId| #[trigger]
            self.retired@.contains(id) && !slot_wrapped(self.retired@, id) ==> id.gen
                < self.slots@[id.index as int].gen
    }

    pub fn new() -> (r: NodeArena<N>)
        ensures
            r.wf(),
            r.live() == Map::<NodeId, N>::empty(),
            r.retired() == Set::<NodeId>::empty(),
            !r.exhausted(),
            r.has_room(),
    {
        let r = NodeArena {
            slots: Vec::new(),
            free: Vec::new(),
            retired: Ghost(Set::empty()),
            exhausted: Ghost(false),
        };
        assert(r.live() =~= Map::<NodeId, N>::empty());
        r
    }

    /// Whether `insert` has an index to give out.
    pub fn can_insert(&self) -> (r: bool)
        ensures
            r == self.has_room(),
    {
        self.free.len() > 0 || self.slots.len() < u32::MAX as usize
    }

    /// Add a node and return its fresh id.
    pub fn insert(&mut self, node: N) -> (id: NodeId)
        requires
            old(self).wf(),
            old(self).has_room(),
        ensures
            final(self).wf(),
            !old(self).live().contains_key(id),
            final(self).live() == old(self).live().insert(id, node),
            final(self).retired() == old(self).retired(),
            final(self).exhausted() == old(self).exhausted(),
            !old(self).exhausted() ==> !old(self).retired().contains(id),
            !slot_wrapped(old(self).retired(), id) ==> !old(self).retired().contains(id),
            id == old(self).next_id(),
            final(self).occupied() == old(self).occupied() + 1,
    {
        let ghost old_live = self.live();
        if let Some(index) = self.free.pop() {
            let ghost k = self.free@.len() as int;
            let gen = self.slots[index as usize].gen;
            proof {
                assert(old(self).free@[k] == index);
                lemma_count_update(self.slots@, index as int, Slot { gen, node: Some(node) });
            }
            self.slots.set(index as usize, Slot { gen, node: Some(node) });
            let id = NodeId { index, gen };
            proof {
                assert(old(self).free@[k] == index);
                assert forall|a: int| 0 <= a < self.free@.len() implies (#[trigger] self.free@[a]
                    as int) < self.slots@.len() && self.slots@[self.free@[a] as int].node is None by {
                    assert(self.free@[a] == old(self).free@[a]);
                    assert(old(self).free@[a] != old(self).free@[k]);
                }
                assert forall|a: int, b: int|
                    0 <= a < b < self.free@.len() implies #[trigger] self.free@[a]
                    != #[trigger] self.free@[b] by {
                    assert(old(self).free@[a] != old(self).free@[b]);
                }
                assert(self.live() =~= old_live.insert(id, node));
            }
            id
        } else {
            proof {
                lemma_count_push(self.slots@, Slot { gen: 0, node: Some(node) });
            }
            self.slots.push(Slot { gen: 0, node: Some(node) });
            let index = (self.slots.len() - 1) as u32;
            let id = NodeId { index, gen: 0 };
            proof {
                assert(self.live() =~= old_live.insert(id, node));
                assert forall|rid: NodeId| #[trigger]
                    self.retired@.contains(rid) && !self.exhausted@ implies (rid.index as int)
                    < self.slots@.len() && rid.gen < self.slots@[rid.index as int].gen by {
                    assert(self.slots@[rid.index as int] == old(self).slots@[rid.index as int]);
                }
            }
            id
        }
    }

    pub fn get(&self, id: NodeId) -> (r: Option<&N>)
        requires
            self.wf(),
        ensures
            r == (if self.live().contains_key(id) {
                Some(&self.live()[id])
            } else {
                None
            }),
    {
        if id.index as usize >= self.slots.len() {
            return None;
        }
        let slot = &self.slots[id.index as usize];
        if slot.gen != id.gen {
            return None;
        }
        slot.node.as_ref()
    }

    pub fn get_mut(&mut self, id: NodeId) -> (r: Option<&mut N>)
        requires
            old(self).wf(),
        ensures
            final(self).wf(),
            final(self).retired() == old(self).retired(),
            final(self).exhausted() == old(self).exhausted(),
            final(self).occupied() == old(self).occupied(),
            final(self).has_room() == old(self).has_room(),
            final(self).next_id() == old(self).next_id(),
            old(self).live().contains_key(id) ==> {
                &&& r is Some
                &&& *r.unwrap() == old(self).live()[id]
                &&& final(self).live() == old(self).live().insert(id, *final(r.unwrap()))
            },
            !old(self).live().contains_key(id) ==> {
                &&& r is None
                &&& final(self).live() == old(self).live()
            },
    {
        if id.index as usize >= self.slots.len() {
            return None;
        }
        let slot = &mut self.slots[id.index as usize];
        proof {
            lemma_count_update(old(self).slots@, id.index as int, *final(slot));
        }
        if slot.gen != id.gen {
            return None;
        }
        slot.node.as_mut()
    }

    /// Remove a live node; its id is retired and its slot's generation bumps,
    /// so the id (and any copy of it) no longer resolves.
    pub fn remove(&mut self, id: NodeId) -> (r: Option<N>)
        requires
            old(self).wf(),
        ensures
            final(self).wf(),
            old(self).live().contains_key(id) ==> {
                &&& r == Some(old(self).live()[id])
                &&& final(self).live() == old(self).live().remove(id)
                &&& final(self).retired() == old(self).retired().insert(id)
                &&& final(self).exhausted() == (old(self).exhausted() || id.is_last_generation())
                &&& final(self).occupied() + 1 == old(self).occupied()
                &&& final(self).next_id() == id.next_generation()
                &&& final(self).has_room()
            },
            !old(self).live().contains_key(id) ==> {
                &&& r is None
                &&& final(self).live() == old(self).live()
                &&& final(self).retired() == old(self).retired()
                &&& final(self).exhausted() == old(self).exhausted()
                &&& final(self).occupied() == old(self).occupied()
                &&& final(self).has_room() == old(self).has_room()
                &&& final(self).next_id() == old(self).next_id()
            },
    {
        let ghost old_live = self.live();
        if id.index as usize >= self.slots.len() {
            return None;
        }
        let i = id.index as usize;
        let gen = self.slots[i].gen;
        if gen != id.gen {
            return None;
        }
        let ghost before = self.slots@;
        let node = self.slots[i].node.take();
        proof {
            lemma_count_update(before, i as int, self.slots@[i as int]);
            assert(self.slots@ == before.update(i as int, self.slots@[i as int]));
        }
        if node.is_some() {
            proof {
                lemma_count_update(self.slots@, i as int, Slot { gen: gen.wrapping_add(1), node: None });
            }
            self.slots[i].gen = gen.wrapping_add(1);
            self.free.push(id.index);
            proof {
                let ghost r0 = self.retired@;
                self.retired@ = self.retired@.insert(id);
                if gen == u32::MAX {
                    self.exhausted@ = true;
                }
                assert forall|rid: NodeId| #[trigger]
                    self.retired@.contains(rid) && !slot_wrapped(self.retired@, rid) implies rid.gen
                    < self.slots@[rid.index as int].gen by {
                    if rid.index == id.index {
                        assert(self.retired@.contains(id) && id.same_slot(rid));
                        assert(gen != u32::MAX);
                        if rid != id {
                            assert(r0.contains(rid));
                            if slot_wrapped(r0, rid) {
                                let x = choose|x: NodeId| #[trigger] r0.contains(x) && x.same_slot(rid) && x.is_last_generation();
                                assert(self.retired@.contains(x));
                            }
                        }
                    } else {
                        assert(r0.contains(rid));
                        if slot_wrapped(r0, rid) {
                            let x = choose|x: NodeId| #[trigger] r0.contains(x) && x.same_slot(rid) && x.is_last_generation();
                            assert(self.retired@.contains(x));
                        }
                    }
                }
            }
        }
        proof {
            if node.is_some() {
                assert(self.live() =~= old_live.remove(id));
            } else {
                assert(self.live() =~= old_live);
            }
        }
        node
    }
}


/// A removed id never resolves again: until the generation counter of its
/// own slot has wrapped, a retired id names no live node (so `get` on a
/// stale id answers None even after its slot is reused).
pub proof fn law_retired_ids_stay_dead<N>(arena: &NodeArena<N>, id: NodeId)
    requires
        arena.wf(),
        !slot_wrapped(arena.retired(), id),
        arena.retired().contains(id),
    ensures
        !arena.live().contains_key(id),
{
}

/// What `insert` stores is what `get` then returns for the new id.
pub proof fn law_get_after_insert<N>(before: &NodeArena<N>, after: &NodeArena<N>, id: NodeId, node: N)
    requires
        after.live() == before.live().insert(id, node),
    ensures
        after.live().contains_key(id),
        after.live()[id] == node,
        forall|other: NodeId| other != id ==> after.live().contains_key(other) == before.live().contains_key(other),
        forall|other: NodeId|
            other != id && #[trigger] before.live().contains_key(other) ==> after.live()[other] == before.live()[other],
{
}


impl<N> NodeArena<N> {
    /// The ids of every live node (in slot order, each once).
    pub fn iter(&self) -> (r: Vec<NodeId>)
        requires
            self.wf(),
        ensures
            r@.no_duplicates(),
            forall|id: NodeId| r@.contains(id) <==> self.live().contains_key(id),
    {
        let mut r: Vec<NodeId> = Vec::new();
        let mut i: usize = 0;
        while i < self.slots.len()
            invariant
                self.wf(),
                i <= self.slots@.len(),
                forall|a: int, b: int| 0 <= a < b < r@.len() ==> #[trigger] r@[a].index < #[trigger] r@[b].index,
                forall|a: int| 0 <= a < r@.len() ==> (#[trigger] r@[a].index as int) < i,
                forall|id: NodeId| r@.contains(id) <==> (self.live().contains_key(id) && (id.index as int) < i),
            decreases self.slots@.len() - i,
        {
            if self.slots[i].node.is_some() {
                let id = NodeId { index: i as u32, gen: self.slots[i].gen };
                let ghost before = r@;
                r.push(id);
                proof {
                    assert forall|x: NodeId| r@.contains(x) <==> (self.live().contains_key(x) && (x.index as int) < i + 1) by {
                        if r@.contains(x) {
                            let k = choose|k: int| 0 <= k < r@.len() && r@[k] == x;
                            if k < before.len() {
                                assert(before.contains(x));
                            }
                        }
                        if self.live().contains_key(x) && (x.index as int) < i + 1 {
                            if (x.index as int) < i {
                                assert(before.contains(x));
                                let k = choose|k: int| 0 <= k < before.len() && before[k] == x;
                                assert(r@[k] == x);
                            } else {
                                assert(r@[before.len() as int] == x);
                            }
                        }
                    }
                }
            } else {
                proof {
                    assert forall|x: NodeId| r@.contains(x) <==> (self.live().contains_key(x) && (x.index as int) < i + 1) by {
                        if self.live().contains_key(x) && (x.index as int) == i {
                            assert(self.slots@[i as int].node is Some);
                        }
                    }
                }
            }
            i = i + 1;
        }
        proof {
            assert forall|a: int, b: int| 0 <= a < r@.len() && 0 <= b < r@.len() && a != b implies r@[a] != r@[b] by {
                if a < b {
                    assert(r@[a].index < r@[b].index);
                } else {
                    assert(r@[b].index < r@[a].index);
                }
            }
        }
        r
    }
}


/// State for an image-preview node.
#[derive(Clone, Copy, PartialEq, Eq, Structural, Debug)]
pub struct PreviewData {
    /// Opaque texture id, indexing the descriptor table owned by the caller.
    pub tex: u32,
    /// Intrinsic image size in pixels (for aspect-locked resize).
    pub img_w: u32,
    pub img_h: u32,
    /// Unpinned previews are transient (auto-opened on select, closed when the
    /// selection moves); pinning keeps the node open like a directory node.
    pub pinned: bool,
}

/// One row of a directory node.
pub struct Item<R> {
    /// Raw file-name bytes.
    pub name: Vec<u8>,
    /// Lossy display form, cached for measuring/drawing. Never turn this
    /// back into a path — use `name`.
    pub display: String,
    pub is_dir: bool,
    /// Row placement relative to the node (the caller's geometry).
    pub rect: R,
    pub child: Option<NodeId>,
    /// A directory scan is in flight for this item (spinner + click dedup).
    pub scanning: bool,
    /// An image-preview decode is in flight for this item (spinner + dedup).
    pub preview_loading: bool,
}

/// A directory (or image-preview) box on the canvas.
pub struct Node<G, R> {
    /// Raw path bytes.
    pub path: Vec<u8>,
    pub items: Vec<Item<R>>,
    /// Owning node and the index of the item we hang off of.
    pub parent: Option<(NodeId, usize)>,
    /// Placement, content size, scroll and glide target (the caller's geometry).
    pub geom: G,
    /// Some for image-preview nodes: they draw a texture instead of rows.
    pub preview: Option<PreviewData>,
}

/// Plain data produced by a directory scan (safe to send from workers).
pub struct ItemData {
    pub name: Vec<u8>,
    pub is_dir: bool,
}

/// The child link of each row.
pub open spec fn child_links<R>(items: Seq<Item<R>>) -> Seq<Option<NodeId>> {
    items.map_values(|it: Item<R>| it.child)
}

/// The tree structure of the live nodes: each node's row child links.
pub open spec fn links<G, R>(m: Map<NodeId, Node<G, R>>) -> Map<NodeId, Seq<Option<NodeId>>> {
    m.map_values(|n: Node<G, R>| child_links(n.items@))
}

/// `to` is reached from the live node `from` by following at most `depth`
/// child links through live nodes.
pub open spec fn reaches(
    g: Map<NodeId, Seq<Option<NodeId>>>,
    from: NodeId,
    to: NodeId,
    depth: nat,
) -> bool
    decreases depth,
{
    g.contains_key(from) && (from == to || (depth > 0 && exists|i: int|
        #![trigger g[from][i]]
        0 <= i < g[from].len() && g[from][i] is Some && reaches(
            g,
            g[from][i].unwrap(),
            to,
            (depth - 1) as nat,
        )))
}

/// The live nodes reachable from `root`: `root` and all its descendants.
pub open spec fn subtree(g: Map<NodeId, Seq<Option<NodeId>>>, root: NodeId) -> Set<NodeId> {
    Set::new(|x: NodeId| exists|d: nat| reaches(g, root, x, d))
}

/// The union of the subtrees hanging off the first `n` links.
pub open spec fn subtrees_of(
    g: Map<NodeId, Seq<Option<NodeId>>>,
    cs: Seq<Option<NodeId>>,
    n: int,
) -> Set<NodeId>
    decreases n,
{
    if n <= 0 {
        Set::empty()
    } else {
        subtrees_of(g, cs, n - 1).union(
            match cs[n - 1] {
                Some(c) => subtree(g, c),
                None => Set::empty(),
            },
        )
    }
}

/// Anything reachable from a member of `u` is in `u`.
pub open spec fn closed_under(g: Map<NodeId, Seq<Option<NodeId>>>, u: Set<NodeId>) -> bool {
    forall|x: NodeId, y: NodeId, d: nat| u.contains(x) && #[trigger] reaches(g, x, y, d) ==> u.contains(y)
}

pub proof fn lemma_reaches_trans(
    g: Map<NodeId, Seq<Option<NodeId>>>,
    a: NodeId,
    b: NodeId,
    c: NodeId,
    d1: nat,
    d2: nat,
)
    requires
        reaches(g, a, b, d1),
        reaches(g, b, c, d2),
    ensures
        reaches(g, a, c, d1 + d2),
    decreases d1,
{
    if a == b {
        lemma_reaches_more_depth(g, b, c, d2, d1 + d2);
    } else {
        let i = choose|i: int|
            #![trigger g[a][i]]
            0 <= i < g[a].len() && g[a][i] is Some && reaches(g, g[a][i].unwrap(), b, (d1 - 1) as nat);
        lemma_reaches_trans(g, g[a][i].unwrap(), b, c, (d1 - 1) as nat, d2);
        assert(((d1 - 1) as nat + d2) == (d1 + d2 - 1) as nat);
    }
}

pub proof fn lemma_reaches_more_depth(
    g: Map<NodeId, Seq<Option<NodeId>>>,
    a: NodeId,
    b: NodeId,
    d: nat,
    e: nat,
)
    requires
        reaches(g, a, b, d),
        d <= e,
    ensures
        reaches(g, a, b, e),
    decreases d,
{
    if a != b {
        let i = choose|i: int|
            #![trigger g[a][i]]
            0 <= i < g[a].len() && g[a][i] is Some && reaches(g, g[a][i].unwrap(), b, (d - 1) as nat);
        lemma_reaches_more_depth(g, g[a][i].unwrap(), b, (d - 1) as nat, (e - 1) as nat);
    }
}

/// A subtree is closed under reachability.
pub proof fn lemma_subtree_closed(g: Map<NodeId, Seq<Option<NodeId>>>, root: NodeId)
    ensures
        closed_under(g, subtree(g, root)),
{
    assert forall|x: NodeId, y: NodeId, d: nat|
        subtree(g, root).contains(x) && #[trigger] reaches(g, x, y, d) implies subtree(g, root).contains(y) by {
        let d1 = choose|d1: nat| reaches(g, root, x, d1);
        lemma_reaches_trans(g, root, x, y, d1, d);
    }
}

pub proof fn lemma_subtrees_of_closed(
    g: Map<NodeId, Seq<Option<NodeId>>>,
    cs: Seq<Option<NodeId>>,
    n: int,
)
    ensures
        closed_under(g, subtrees_of(g, cs, n)),
    decreases n,
{
    if n > 0 {
        lemma_subtrees_of_closed(g, cs, n - 1);
        if let Some(c) = cs[n - 1] {
            lemma_subtree_closed(g, c);
        }
    }
}

/// Paths in a part of the graph are paths in the whole.
pub proof fn lemma_reaches_in_whole(
    g: Map<NodeId, Seq<Option<NodeId>>>,
    h: Map<NodeId, Seq<Option<NodeId>>>,
    a: NodeId,
    b: NodeId,
    d: nat,
)
    requires
        h.submap_of(g),
        reaches(h, a, b, d),
    ensures
        reaches(g, a, b, d),
    decreases d,
{
    if a != b {
        let i = choose|i: int|
            #![trigger h[a][i]]
            0 <= i < h[a].len() && h[a][i] is Some && reaches(h, h[a][i].unwrap(), b, (d - 1) as nat);
        lemma_reaches_in_whole(g, h, h[a][i].unwrap(), b, (d - 1) as nat);
        assert(h.dom().contains(a));
        assert(g.dom().contains(a));
        assert(g[a] == h[a]);
        assert(g[a][i] is Some);
    }
}

/// Taking a reachability-closed set out of the graph takes it out of every
/// subtree and changes nothing else.
pub proof fn lemma_subtree_minus_closed(
    g: Map<NodeId, Seq<Option<NodeId>>>,
    u: Set<NodeId>,
    c: NodeId,
)
    requires
        closed_under(g, u),
    ensures
        subtree(g.remove_keys(u), c) == subtree(g, c).difference(u),
{
    let h = g.remove_keys(u);
    assert(h.submap_of(g));
    assert forall|y: NodeId| subtree(h, c).contains(y) implies subtree(g, c).difference(u).contains(y) by {
        let d = choose|d: nat| reaches(h, c, y, d);
        lemma_reaches_in_whole(g, h, c, y, d);
        lemma_reaches_end_in(h, c, y, d);
    }
    assert forall|y: NodeId| subtree(g, c).difference(u).contains(y) implies subtree(h, c).contains(y) by {
        let d = choose|d: nat| reaches(g, c, y, d);
        lemma_reaches_avoiding(g, u, c, y, d);
    }
    assert(subtree(h, c) =~= subtree(g, c).difference(u));
}

pub proof fn lemma_reaches_end_in(g: Map<NodeId, Seq<Option<NodeId>>>, a: NodeId, b: NodeId, d: nat)
    requires
        reaches(g, a, b, d),
    ensures
        g.contains_key(b),
    decreases d,
{
    if a != b {
        let i = choose|i: int|
            #![trigger g[a][i]]
            0 <= i < g[a].len() && g[a][i] is Some && reaches(g, g[a][i].unwrap(), b, (d - 1) as nat);
        lemma_reaches_end_in(g, g[a][i].unwrap(), b, (d - 1) as nat);
    }
}

pub proof fn lemma_reaches_avoiding(
    g: Map<NodeId, Seq<Option<NodeId>>>,
    u: Set<NodeId>,
    a: NodeId,
    b: NodeId,
    d: nat,
)
    requires
        closed_under(g, u),
        reaches(g, a, b, d),
        !u.contains(b),
    ensures
        reaches(g.remove_keys(u), a, b, d),
    decreases d,
{
    let h = g.remove_keys(u);
    if u.contains(a) {
        assert(u.contains(b));
    }
    if a != b {
        let i = choose|i: int|
            #![trigger g[a][i]]
            0 <= i < g[a].len() && g[a][i] is Some && reaches(g, g[a][i].unwrap(), b, (d - 1) as nat);
        lemma_reaches_avoiding(g, u, g[a][i].unwrap(), b, (d - 1) as nat);
        assert(h[a] == g[a]);
        assert(h[a][i] is Some);
    }
}

/// Paths out of `r` either stay clear of `r` or pass through one of its
/// children first.
pub proof fn lemma_reaches_split_at_root(
    g: Map<NodeId, Seq<Option<NodeId>>>,
    r: NodeId,
    x: NodeId,
    y: NodeId,
    d: nat,
)
    requires
        g.contains_key(r),
        reaches(g, x, y, d),
        y != r,
    ensures
        (x != r && reaches(g.remove(r), x, y, d)) || subtrees_of(g.remove(r), g[r], g[r].len() as int).contains(y),
    decreases d,
{
    let h = g.remove(r);
    if x == y {
        assert(reaches(h, x, y, d));
    } else {
        let i = choose|i: int|
            #![trigger g[x][i]]
            0 <= i < g[x].len() && g[x][i] is Some && reaches(g, g[x][i].unwrap(), y, (d - 1) as nat);
        let c = g[x][i].unwrap();
        lemma_reaches_split_at_root(g, r, c, y, (d - 1) as nat);
        if subtrees_of(h, g[r], g[r].len() as int).contains(y) {
        } else {
            assert(c != r && reaches(h, c, y, (d - 1) as nat));
            if x == r {
                lemma_subtrees_of_contains(h, g[r], g[r].len() as int, i, y, (d - 1) as nat);
            } else {
                assert(h[x] == g[x]);
                assert(h[x][i] is Some);
                assert(reaches(h, x, y, d));
            }
        }
    }
}

pub proof fn lemma_subtrees_of_contains(
    g: Map<NodeId, Seq<Option<NodeId>>>,
    cs: Seq<Option<NodeId>>,
    n: int,
    i: int,
    y: NodeId,
    d: nat,
)
    requires
        0 <= i < n <= cs.len(),
        cs[i] is Some,
        reaches(g, cs[i].unwrap(), y, d),
    ensures
        subtrees_of(g, cs, n).contains(y),
    decreases n,
{
    if i < n - 1 {
        lemma_subtrees_of_contains(g, cs, n - 1, i, y, d);
    } else {
        assert(subtree(g, cs[i].unwrap()).contains(y));
    }
}

pub proof fn lemma_subtrees_of_members(
    g: Map<NodeId, Seq<Option<NodeId>>>,
    cs: Seq<Option<NodeId>>,
    n: int,
    y: NodeId,
)
    requires
        subtrees_of(g, cs, n).contains(y),
        n <= cs.len(),
    ensures
        exists|i: int, d: nat| 0 <= i < n && cs[i] is Some && #[trigger] reaches(g, cs[i].unwrap(), y, d),
    decreases n,
{
    if n > 0 {
        if subtrees_of(g, cs, n - 1).contains(y) {
            lemma_subtrees_of_members(g, cs, n - 1, y);
        } else {
            let c = cs[n - 1].unwrap();
            let d = choose|d: nat| reaches(g, c, y, d);
            assert(reaches(g, cs[n - 1].unwrap(), y, d));
        }
    }
}

/// A subtree is its root plus the subtrees of the root's children, taken in
/// the graph without the root.
pub proof fn lemma_subtree_unfold(g: Map<NodeId, Seq<Option<NodeId>>>, r: NodeId)
    requires
        g.contains_key(r),
    ensures
        subtree(g, r) == subtrees_of(g.remove(r), g[r], g[r].len() as int).insert(r),
{
    let h = g.remove(r);
    let kids = subtrees_of(h, g[r], g[r].len() as int);
    assert forall|y: NodeId| subtree(g, r).contains(y) implies kids.insert(r).contains(y) by {
        if y != r {
            let d = choose|d: nat| reaches(g, r, y, d);
            lemma_reaches_split_at_root(g, r, r, y, d);
        }
    }
    assert forall|y: NodeId| kids.insert(r).contains(y) implies subtree(g, r).contains(y) by {
        if y == r {
            assert(reaches(g, r, r, 0));
        } else {
            lemma_subtrees_of_members(h, g[r], g[r].len() as int, y);
            let (i, d) = choose|i: int, d: nat| 0 <= i < g[r].len() && g[r][i] is Some && #[trigger] reaches(h, g[r][i].unwrap(), y, d);
            assert(h.submap_of(g));
            lemma_reaches_in_whole(g, h, g[r][i].unwrap(), y, d);
            assert(reaches(g, r, y, d + 1));
        }
    }
    assert(subtree(g, r) =~= kids.insert(r));
}

pub proof fn lemma_subtree_of_missing(g: Map<NodeId, Seq<Option<NodeId>>>, r: NodeId)
    requires
        !g.contains_key(r),
    ensures
        subtree(g, r) == Set::<NodeId>::empty(),
{
    assert(subtree(g, r) =~= Set::<NodeId>::empty());
}


/// The node's parent link, when it names a live parent and one of its rows.
pub open spec fn parent_link<G, R>(m: Map<NodeId, Node<G, R>>, id: NodeId) -> Option<(NodeId, usize)> {
    if m.contains_key(id) {
        match m[id].parent {
            Some((p, k)) => if m.contains_key(p) && k < m[p].items@.len() {
                Some((p, k))
            } else {
                None
            },
            None => None,
        }
    } else {
        None
    }
}

/// The tree structure once the parent row of `id` no longer points at a child.
pub open spec fn unlinked<G, R>(m: Map<NodeId, Node<G, R>>, id: NodeId) -> Map<NodeId, Seq<Option<NodeId>>> {
    match parent_link(m, id) {
        Some((p, k)) => links(m).insert(p, links(m)[p].update(k as int, None)),
        None => links(m),
    }
}

/// The nodes `close_recursive(id)` takes away: `id` and everything below it
/// once it is unhooked from its parent row.
pub open spec fn closed_by<G, R>(m: Map<NodeId, Node<G, R>>, id: NodeId) -> Set<NodeId> {
    subtree(unlinked(m, id), id)
}

pub proof fn lemma_links_remove_keys<G, R>(m: Map<NodeId, Node<G, R>>, u: Set<NodeId>)
    ensures
        links(m.remove_keys(u)) == links(m).remove_keys(u),
{
    assert(links(m.remove_keys(u)) =~= links(m).remove_keys(u));
}

pub proof fn lemma_subtrees_of_step(
    g: Map<NodeId, Seq<Option<NodeId>>>,
    cs: Seq<Option<NodeId>>,
    j: int,
)
    requires
        0 <= j < cs.len(),
    ensures
        subtrees_of(g, cs, j + 1) == subtrees_of(g, cs, j).union(
            match cs[j] {
                Some(c) => subtree(g, c),
                None => Set::empty(),
            },
        ),
{
}

impl<G, R> Node<G, R> {
    /// Row `k` no longer has an open child.
    fn clear_child(&mut self, k: usize)
        requires
            k < old(self).items@.len(),
        ensures
            final(self).items@ == old(self).items@.update(k as int, Item { child: None, ..old(self).items@[k as int] }),
            final(self).path == old(self).path,
            final(self).parent == old(self).parent,
            final(self).geom == old(self).geom,
            final(self).preview == old(self).preview,
    {
        self.items[k].child = None;
    }

    /// Row `k` now shows (or no longer shows) a directory scan in flight.
    fn set_scanning(&mut self, k: usize, v: bool)
        requires
            k < old(self).items@.len(),
        ensures
            row_set(*old(self), *final(self), k as int, Item { scanning: v, ..old(self).items@[k as int] }),
    {
        self.items[k].scanning = v;
    }

    /// Row `k` now shows (or no longer shows) a preview decode in flight.
    fn set_loading(&mut self, k: usize, v: bool)
        requires
            k < old(self).items@.len(),
        ensures
            row_set(*old(self), *final(self), k as int, Item { preview_loading: v, ..old(self).items@[k as int] }),
    {
        self.items[k].preview_loading = v;
    }

    /// Row `k` now links to `child`.
    fn set_child(&mut self, k: usize, child: Option<NodeId>)
        requires
            k < old(self).items@.len(),
        ensures
            row_set(*old(self), *final(self), k as int, Item { child, ..old(self).items@[k as int] }),
    {
        self.items[k].child = child;
    }
}

impl<G, R> NodeArena<Node<G, R>> {
    /// Remove `id` and, depth first, every node its rows lead to.
    fn close_subtree(&mut self, id: NodeId)
        requires
            old(self).wf(),
        ensures
            final(self).wf(),
            final(self).live() == old(self).live().remove_keys(subtree(links(old(self).live()), id)),
            final(self).retired() == old(self).retired().union(subtree(links(old(self).live()), id)),
            final(self).occupied() <= old(self).occupied(),
            final(self).exhausted() ==> old(self).exhausted() || exists|x: NodeId|
                subtree(links(old(self).live()), id).contains(x) && x.is_last_generation(),
        decreases old(self).occupied(),
    {
        let ghost g = links(self.live());
        let ghost m0 = self.live();
        let node = match self.remove(id) {
            Some(n) => n,
            None => {
                proof {
                    lemma_subtree_of_missing(g, id);
                    assert(m0.remove_keys(Set::<NodeId>::empty()) =~= m0);
                    assert(old(self).retired().union(Set::<NodeId>::empty()) =~= old(self).retired());
                }
                return;
            },
        };
        let ghost m1 = self.live();
        let ghost g1 = g.remove(id);
        let ghost cs = child_links(node.items@);
        proof {
            assert(m1 == m0.remove(id));
            assert(links(m1) =~= g1);
            assert(g[id] == cs);
            assert(m1 =~= m1.remove_keys(Set::<NodeId>::empty()));
            assert(subtrees_of(g1, cs, 0) == Set::<NodeId>::empty());
            assert(self.retired() =~= old(self).retired().insert(id).union(subtrees_of(g1, cs, 0)));
        }
        let mut j: usize = 0;
        while j < node.items.len()
            invariant
                self.wf(),
                j <= node.items@.len(),
                cs == child_links(node.items@),
                g1 == links(m1),
                self.live() == m1.remove_keys(subtrees_of(g1, cs, j as int)),
                self.retired() == old(self).retired().insert(id).union(subtrees_of(g1, cs, j as int)),
                self.occupied() < old(self).occupied(),
                self.exhausted() ==> old(self).exhausted() || id.is_last_generation() || exists|x: NodeId|
                    subtrees_of(g1, cs, j as int).contains(x) && x.is_last_generation(),
            decreases node.items@.len() - j,
        {
            let ghost u = subtrees_of(g1, cs, j as int);
            proof {
                lemma_subtrees_of_step(g1, cs, j as int);
                assert(cs[j as int] == node.items@[j as int].child);
            }
            if let Some(child) = node.items[j].child {
                proof {
                    lemma_subtrees_of_closed(g1, cs, j as int);
                    lemma_links_remove_keys(m1, u);
                    lemma_subtree_minus_closed(g1, u, child);
                }
                self.close_subtree(child);
                proof {
                    let st = subtree(g1, child);
                    assert(subtree(links(m1.remove_keys(u)), child) == st.difference(u));
                    assert(m1.remove_keys(u).remove_keys(st.difference(u)) =~= m1.remove_keys(u.union(st)));
                    assert(old(self).retired().insert(id).union(u).union(st.difference(u)) =~= old(
                        self,
                    ).retired().insert(id).union(u.union(st)));
                }
            } else {
                proof {
                    assert(u.union(Set::<NodeId>::empty()) =~= u);
                }
            }
            j = j + 1;
        }
        proof {
            lemma_subtree_unfold(g, id);
            let all = subtrees_of(g1, cs, node.items@.len() as int);
            assert(subtree(g, id) == all.insert(id));
            assert(m1.remove_keys(all) =~= m0.remove_keys(all.insert(id)));
            assert(old(self).retired().insert(id).union(all) =~= old(self).retired().union(all.insert(id)));
            if self.exhausted() && !old(self).exhausted() {
                if id.is_last_generation() {
                    assert(subtree(g, id).contains(id));
                } else {
                    let x = choose|x: NodeId| all.contains(x) && x.is_last_generation();
                    assert(subtree(g, id).contains(x));
                }
            }
        }
    }

    /// Close a node and its whole subtree, unlinking it from its parent item.
    pub fn close_recursive(&mut self, id: NodeId)
        requires
            old(self).wf(),
        ensures
            final(self).wf(),
            final(self).live().dom() == old(self).live().dom().difference(closed_by(old(self).live(), id)),
            forall|x: NodeId|
                #![trigger final(self).live().contains_key(x)]
                final(self).live().contains_key(x) && !(parent_link(old(self).live(), id) matches Some(
                    (p, _),
                ) && p == x) ==> final(self).live()[x] == old(self).live()[x],
            parent_link(old(self).live(), id) matches Some((p, k)) ==> (final(self).live().contains_key(p) ==> {
                let before = old(self).live()[p];
                let after = final(self).live()[p];
                &&& after.items@ == before.items@.update(k as int, Item { child: None, ..before.items@[k as int] })
                &&& after.path == before.path
                &&& after.parent == before.parent
                &&& after.geom == before.geom
                &&& after.preview == before.preview
            }),
            final(self).retired() == old(self).retired().union(closed_by(old(self).live(), id)),
            final(self).exhausted() ==> old(self).exhausted() || exists|x: NodeId|
                closed_by(old(self).live(), id).contains(x) && x.is_last_generation(),
    {
        let ghost m = self.live();
        let link = match self.get(id) {
            Some(node) => node.parent,
            None => {
                proof {
                    lemma_subtree_of_missing(unlinked(m, id), id);
                    assert(m.dom().difference(Set::<NodeId>::empty()) =~= m.dom());
                    assert(self.retired().union(Set::<NodeId>::empty()) =~= self.retired());
                }
                return;
            },
        };
        if let Some((pid, pidx)) = link {
            if let Some(parent) = self.get_mut(pid) {
                if pidx < parent.items.len() {
                    parent.clear_child(pidx);
                }
            }
        }
        let ghost m2 = self.live();
        proof {
            match parent_link(m, id) {
                Some((p, k)) => {
                    assert(m2.dom() == m.dom());
                    assert(links(m2)[p] =~= links(m)[p].update(k as int, None));
                    assert(links(m2) =~= unlinked(m, id));
                },
                None => {
                    assert(m2 =~= m);
                },
            }
        }
        self.close_subtree(id);
    }
}


/// Every link of `g1` is a link of `g2`: `g1` has a subset of the nodes,
/// each with as many rows, and each open child in `g1` is open in `g2` too.
pub open spec fn sub_links(
    g1: Map<NodeId, Seq<Option<NodeId>>>,
    g2: Map<NodeId, Seq<Option<NodeId>>>,
) -> bool {
    forall|x: NodeId|
        #[trigger] g1.contains_key(x) ==> {
            &&& g2.contains_key(x)
            &&& g1[x].len() == g2[x].len()
            &&& forall|i: int| 0 <= i < g1[x].len() && (#[trigger] g1[x][i]) is Some ==> g2[x][i] == g1[x][i]
        }
}

pub proof fn lemma_reaches_sub(
    g1: Map<NodeId, Seq<Option<NodeId>>>,
    g2: Map<NodeId, Seq<Option<NodeId>>>,
    a: NodeId,
    b: NodeId,
    d: nat,
)
    requires
        sub_links(g1, g2),
        reaches(g1, a, b, d),
    ensures
        reaches(g2, a, b, d),
    decreases d,
{
    assert(g1.contains_key(a));
    if a != b {
        let i = choose|i: int|
            #![trigger g1[a][i]]
            0 <= i < g1[a].len() && g1[a][i] is Some && reaches(g1, g1[a][i].unwrap(), b, (d - 1) as nat);
        lemma_reaches_sub(g1, g2, g1[a][i].unwrap(), b, (d - 1) as nat);
        assert(g2[a][i] == g1[a][i]);
    }
}

pub proof fn lemma_sub_links_trans(
    g1: Map<NodeId, Seq<Option<NodeId>>>,
    g2: Map<NodeId, Seq<Option<NodeId>>>,
    g3: Map<NodeId, Seq<Option<NodeId>>>,
)
    requires
        sub_links(g1, g2),
        sub_links(g2, g3),
    ensures
        sub_links(g1, g3),
{
    assert forall|x: NodeId| #[trigger] g1.contains_key(x) implies {
        &&& g3.contains_key(x)
        &&& g1[x].len() == g3[x].len()
        &&& forall|i: int| 0 <= i < g1[x].len() && (#[trigger] g1[x][i]) is Some ==> g3[x][i] == g1[x][i]
    } by {
        assert(g2.contains_key(x));
        assert forall|i: int| 0 <= i < g1[x].len() && (#[trigger] g1[x][i]) is Some implies g3[x][i] == g1[x][i] by {
            assert(g2[x][i] == g1[x][i]);
        }
    }
}

/// Every live node whose parent row exists is linked from that row.
pub open spec fn parents_agree<G, R>(m: Map<NodeId, Node<G, R>>) -> bool {
    forall|u: NodeId|
        #[trigger] m.contains_key(u) ==> match parent_link(m, u) {
            Some((p, k)) => links(m)[p][k as int] == Some(u),
            None => true,
        }
}

/// `g` keeps every link of `g0` that leads from one of its nodes to another.
pub open spec fn keeps_live_links(
    g: Map<NodeId, Seq<Option<NodeId>>>,
    g0: Map<NodeId, Seq<Option<NodeId>>>,
) -> bool {
    forall|u: NodeId, j: int|
        #![trigger g[u][j], g0[u][j]]
        g.contains_key(u) && 0 <= j < g0[u].len() && g0[u][j] is Some && g.contains_key(g0[u][j].unwrap())
            ==> g[u][j] == g0[u][j]
}

/// Nothing that `g0` reaches from a node missing in `g` is in `g`.
pub open spec fn drops_below(
    g: Map<NodeId, Seq<Option<NodeId>>>,
    g0: Map<NodeId, Seq<Option<NodeId>>>,
) -> bool {
    forall|y: NodeId, x: NodeId, d: nat|
        g0.contains_key(y) && !g.contains_key(y) && #[trigger] reaches(g0, y, x, d) ==> !g.contains_key(x)
}

/// Between two nodes both still in `g`, what `g0` reaches `g` reaches too,
/// when `g` lost only links into nodes it dropped, along with everything
/// below them.
pub proof fn lemma_reaches_kept(
    g: Map<NodeId, Seq<Option<NodeId>>>,
    g0: Map<NodeId, Seq<Option<NodeId>>>,
    y: NodeId,
    x: NodeId,
    d: nat,
)
    requires
        sub_links(g, g0),
        keeps_live_links(g, g0),
        drops_below(g, g0),
        g.contains_key(y),
        g.contains_key(x),
        reaches(g0, y, x, d),
    ensures
        reaches(g, y, x, d),
    decreases d,
{
    if y != x {
        let i = choose|i: int|
            #![trigger g0[y][i]]
            0 <= i < g0[y].len() && g0[y][i] is Some && reaches(g0, g0[y][i].unwrap(), x, (d - 1) as nat);
        let c = g0[y][i].unwrap();
        if !g.contains_key(c) {
            assert(reaches(g0, c, x, (d - 1) as nat));
            assert(false);
        }
        assert(g[y][i] == g0[y][i]);
        lemma_reaches_kept(g, g0, c, x, (d - 1) as nat);
    }
}

/// Unhooking the link `p[k]`, which leads to `t`, loses nothing that `t`
/// itself still reaches: what `a` reached before, `a` or `t` reaches after.
pub proof fn lemma_reaches_unhooked(
    g: Map<NodeId, Seq<Option<NodeId>>>,
    p: NodeId,
    k: int,
    t: NodeId,
    a: NodeId,
    x: NodeId,
    d: nat,
)
    requires
        g.contains_key(p),
        0 <= k < g[p].len(),
        g[p][k] == Some(t),
        reaches(g, a, x, d),
    ensures
        reaches(g.insert(p, g[p].update(k, None)), a, x, d) || reaches(
            g.insert(p, g[p].update(k, None)),
            t,
            x,
            d,
        ),
    decreases d,
{
    let h = g.insert(p, g[p].update(k, None));
    if a != x {
        let i = choose|i: int|
            #![trigger g[a][i]]
            0 <= i < g[a].len() && g[a][i] is Some && reaches(g, g[a][i].unwrap(), x, (d - 1) as nat);
        let c = g[a][i].unwrap();
        lemma_reaches_unhooked(g, p, k, t, c, x, (d - 1) as nat);
        if reaches(h, t, x, (d - 1) as nat) {
            lemma_reaches_more_depth(h, t, x, (d - 1) as nat, d);
        } else if a == p && i == k {
            assert(c == t);
            lemma_reaches_more_depth(h, t, x, (d - 1) as nat, d);
        } else {
            assert(h[a][i] == g[a][i]);
        }
    }
}

/// With parents and rows in agreement, whatever `id` reaches is closed
/// along with it.
pub proof fn lemma_reached_is_closed<G, R>(m: Map<NodeId, Node<G, R>>, id: NodeId, x: NodeId, e: nat)
    requires
        parents_agree(m),
        m.contains_key(id),
        reaches(links(m), id, x, e),
    ensures
        closed_by(m, id).contains(x),
{
    match parent_link(m, id) {
        Some((p, k)) => {
            assert(links(m)[p] == child_links(m[p].items@));
            assert(links(m)[p][k as int] == Some(id));
            lemma_reaches_unhooked(links(m), p, k as int, id, id, x, e);
            assert(unlinked(m, id) == links(m).insert(p, links(m)[p].update(k as int, None)));
        },
        None => {},
    }
}

/// One `close_recursive(id)` step, taking `m` to `m2`, keeps what shows
/// that closing removes whole subtrees of the tree `m0` the steps started
/// from, and removes everything `id` reached there.
pub proof fn lemma_close_step<G, R>(
    m0: Map<NodeId, Node<G, R>>,
    m: Map<NodeId, Node<G, R>>,
    m2: Map<NodeId, Node<G, R>>,
    id: NodeId,
)
    requires
        m0.contains_key(id),
        parents_agree(m),
        sub_links(links(m), links(m0)),
        keeps_live_links(links(m), links(m0)),
        drops_below(links(m), links(m0)),
        m2.dom() == m.dom().difference(closed_by(m, id)),
        forall|x: NodeId|
            #![trigger m2.contains_key(x)]
            m2.contains_key(x) && !(parent_link(m, id) matches Some((p, _)) && p == x) ==> m2[x] == m[x],
        parent_link(m, id) matches Some((p, k)) ==> (m2.contains_key(p) ==> {
            let before = m[p];
            let after = m2[p];
            &&& after.items@ == before.items@.update(k as int, Item { child: None, ..before.items@[k as int] })
            &&& after.parent == before.parent
        }),
    ensures
        parents_agree(m2),
        keeps_live_links(links(m2), links(m0)),
        drops_below(links(m2), links(m0)),
        forall|x: NodeId, d: nat| #[trigger] reaches(links(m0), id, x, d) ==> !m2.contains_key(x),
{
    let g = links(m);
    let g2 = links(m2);
    let g0 = links(m0);
    let u = unlinked(m, id);
    if m.contains_key(id) {
        assert(reaches(u, id, id, 0));
        assert(closed_by(m, id).contains(id));
    }
    // rows of survivors are unchanged, but for the one unhooked link
    assert forall|w: NodeId, j: int|
        #![trigger g2[w][j]]
        m2.contains_key(w) && 0 <= j < g2[w].len() && !(parent_link(m, id) matches Some((p, k)) && p == w
            && k == j) implies g2[w][j] == g[w][j] && g2[w].len() == g[w].len() by {
        assert(g2[w][j] == m2[w].items@[j].child);
        assert(g[w][j] == m[w].items@[j].child);
    }
    assert forall|w: NodeId| #[trigger] m2.contains_key(w) implies g2[w].len() == g[w].len() && m2[w].parent
        == m[w].parent && m2[w].items@.len() == m[w].items@.len() by {
    }
    // parents and rows still agree
    assert forall|v: NodeId| #[trigger] m2.contains_key(v) implies match parent_link(m2, v) {
        Some((pv, kv)) => g2[pv][kv as int] == Some(v),
        None => true,
    } by {
        if let Some((pv, kv)) = parent_link(m2, v) {
            assert(m.contains_key(pv));
            assert(parent_link(m, v) == Some((pv, kv)));
            assert(g[pv][kv as int] == Some(v));
            if let Some((p, k)) = parent_link(m, id) {
                if p == pv && k == kv {
                    assert(g[p][k as int] == Some(id));
                    assert(false);
                }
            }
            assert(g2[pv][kv as int] == g[pv][kv as int]);
        }
    }
    // links between survivors are kept
    assert forall|w: NodeId, j: int|
        #![trigger g2[w][j], g0[w][j]]
        g2.contains_key(w) && 0 <= j < g0[w].len() && g0[w][j] is Some && g2.contains_key(g0[w][j].unwrap())
            implies g2[w][j] == g0[w][j] by {
        let c = g0[w][j].unwrap();
        assert(m2.contains_key(w));
        assert(g.contains_key(w));
        assert(g2[w].len() == g[w].len());
        assert(g[w].len() == g0[w].len());
        assert(g[w][j] == g0[w][j]);
        if let Some((p, k)) = parent_link(m, id) {
            if p == w && k == j {
                assert(g[p][k as int] == Some(id));
                assert(false);
            }
        }
        assert(g2[w][j] == g[w][j]);
    }
    // whatever `id` reaches goes with it
    assert forall|x: NodeId, d: nat| #[trigger] reaches(g0, id, x, d) implies !m2.contains_key(x) by {
        if m2.contains_key(x) {
            if m.contains_key(id) {
                lemma_reaches_kept(g, g0, id, x, d);
                lemma_reached_is_closed(m, id, x, d);
            }
        }
    }
    // and what a dropped node reached stays dropped
    assert(sub_links(u, g)) by {
        assert forall|x: NodeId| #[trigger] u.contains_key(x) implies {
            &&& g.contains_key(x)
            &&& u[x].len() == g[x].len()
            &&& forall|j: int| 0 <= j < u[x].len() && (#[trigger] u[x][j]) is Some ==> g[x][j] == u[x][j]
        } by {
        }
    }
    assert forall|y: NodeId, x: NodeId, d: nat|
        g0.contains_key(y) && !g2.contains_key(y) && #[trigger] reaches(g0, y, x, d) implies !g2.contains_key(
        x,
    ) by {
        if g2.contains_key(x) && g.contains_key(y) {
            assert(closed_by(m, id).contains(y));
            let d1 = choose|d1: nat| reaches(u, id, y, d1);
            lemma_reaches_sub(u, g, id, y, d1);
            lemma_reaches_kept(g, g0, y, x, d);
            lemma_reaches_trans(g, id, y, x, d1, d);
            lemma_reached_is_closed(m, id, x, d1 + d);
        }
    }
}

/// Every row that leads to a live node is that node's parent row.
pub open spec fn rows_agree<G, R>(m: Map<NodeId, Node<G, R>>) -> bool {
    forall|u: NodeId, j: int|
        #![trigger m[u].items@[j]]
        m.contains_key(u) && 0 <= j < m[u].items@.len() && m[u].items@[j].child is Some && m.contains_key(
            m[u].items@[j].child.unwrap(),
        ) ==> parent_row(m[m[u].items@[j].child.unwrap()], u, j)
}

/// The node's parent field names row `j` of `u`.
pub open spec fn parent_row<G, R>(n: Node<G, R>, u: NodeId, j: int) -> bool {
    n.parent is Some && n.parent.unwrap().0 == u && n.parent.unwrap().1 as int == j
}

/// `after` is `before` with, at most, some rows' child links cleared.
pub open spec fn same_but_cleared<G, R>(before: Node<G, R>, after: Node<G, R>) -> bool {
    &&& after.path == before.path
    &&& after.parent == before.parent
    &&& after.geom == before.geom
    &&& after.preview == before.preview
    &&& after.items@.len() == before.items@.len()
    &&& forall|j: int|
        0 <= j < before.items@.len() ==> #[trigger] after.items@[j] == before.items@[j] || after.items@[j] == (Item {
            child: None,
            ..before.items@[j]
        })
}

/// Every row of `m` that differs from `m0` led, in `m0`, to a node `m` no
/// longer holds.
pub open spec fn cleared_only_closed<G, R>(m0: Map<NodeId, Node<G, R>>, m: Map<NodeId, Node<G, R>>) -> bool {
    forall|x: NodeId, j: int|
        #![trigger m[x].items@[j]]
        m.contains_key(x) && 0 <= j < m[x].items@.len() && m[x].items@[j] != m0[x].items@[j] ==> m0[x].items@[j].child
            is Some && !m.contains_key(m0[x].items@[j].child.unwrap())
}

/// Every row of `m` that led, in `m0`, to a live node `m` no longer holds
/// now leads nowhere.
pub open spec fn closed_rows_cleared<G, R>(m0: Map<NodeId, Node<G, R>>, m: Map<NodeId, Node<G, R>>) -> bool {
    forall|x: NodeId, j: int|
        #![trigger m[x].items@[j]]
        m.contains_key(x) && 0 <= j < m[x].items@.len() && m0[x].items@[j].child is Some && m0.contains_key(
            m0[x].items@[j].child.unwrap(),
        ) && !m.contains_key(m0[x].items@[j].child.unwrap()) ==> m[x].items@[j].child is None
}

/// The last step of a walk: what `a` reaches in `d` steps, other than `a`
/// itself, hangs off a row of a node `a` reaches in `d - 1` steps.
pub proof fn lemma_reaches_last_step(g: Map<NodeId, Seq<Option<NodeId>>>, a: NodeId, b: NodeId, d: nat) -> (r: (
    NodeId,
    int,
))
    requires
        reaches(g, a, b, d),
        a != b,
    ensures
        d >= 1,
        reaches(g, a, r.0, (d - 1) as nat),
        g.contains_key(r.0),
        0 <= r.1 < g[r.0].len(),
        g[r.0][r.1] == Some(b),
    decreases d,
{
    let i = choose|i: int|
        #![trigger g[a][i]]
        0 <= i < g[a].len() && g[a][i] is Some && reaches(g, g[a][i].unwrap(), b, (d - 1) as nat);
    let c = g[a][i].unwrap();
    if c == b {
        assert(reaches(g, a, a, 0));
        lemma_reaches_more_depth(g, a, a, 0, (d - 1) as nat);
        (a, i)
    } else {
        let (q, k) = lemma_reaches_last_step(g, c, b, (d - 1) as nat);
        assert(reaches(g, a, q, (d - 1) as nat));
        (q, k)
    }
}

/// One `close_recursive(id)` step, taking `m` to `m2`, keeps the rows of
/// what survives as they were in `m0`, but for cleared links into closed
/// nodes; with the tree consistent, it clears every row that led to a node
/// it closes.
pub proof fn lemma_close_rows<G, R>(
    m0: Map<NodeId, Node<G, R>>,
    m: Map<NodeId, Node<G, R>>,
    m2: Map<NodeId, Node<G, R>>,
    id: NodeId,
)
    requires
        forall|x: NodeId| #[trigger] m.contains_key(x) ==> m0.contains_key(x) && same_but_cleared(m0[x], m[x]),
        parents_agree(m0) ==> parents_agree(m) && cleared_only_closed(m0, m),
        parents_agree(m0) && rows_agree(m0) ==> rows_agree(m) && closed_rows_cleared(m0, m),
        m2.dom() == m.dom().difference(closed_by(m, id)),
        forall|x: NodeId|
            #![trigger m2.contains_key(x)]
            m2.contains_key(x) && !(parent_link(m, id) matches Some((p, _)) && p == x) ==> m2[x] == m[x],
        parent_link(m, id) matches Some((p, k)) ==> (m2.contains_key(p) ==> {
            let before = m[p];
            let after = m2[p];
            &&& after.items@ == before.items@.update(k as int, Item { child: None, ..before.items@[k as int] })
            &&& after.path == before.path
            &&& after.parent == before.parent
            &&& after.geom == before.geom
            &&& after.preview == before.preview
        }),
    ensures
        forall|x: NodeId| #[trigger] m2.contains_key(x) ==> m0.contains_key(x) && same_but_cleared(m0[x], m2[x]),
        parents_agree(m0) ==> cleared_only_closed(m0, m2),
        parents_agree(m0) && rows_agree(m0) ==> rows_agree(m2) && closed_rows_cleared(m0, m2),
{
    if m.contains_key(id) {
        assert(reaches(unlinked(m, id), id, id, 0));
        assert(closed_by(m, id).contains(id));
    }
    // each survivor row is the same as in `m`, or the unhooked one
    assert forall|x: NodeId| #[trigger] m2.contains_key(x) implies m0.contains_key(x) && same_but_cleared(
        m0[x],
        m2[x],
    ) by {
        assert(m.contains_key(x));
        assert(same_but_cleared(m0[x], m[x]));
        if let Some((p, k)) = parent_link(m, id) {
            if p == x {
                assert forall|j: int| 0 <= j < m0[x].items@.len() implies #[trigger] m2[x].items@[j]
                    == m0[x].items@[j] || m2[x].items@[j] == (Item { child: None, ..m0[x].items@[j] }) by {
                    assert(m[x].items@[j] == m0[x].items@[j] || m[x].items@[j] == (Item {
                        child: None,
                        ..m0[x].items@[j]
                    }));
                }
            }
        }
    }
    if parents_agree(m0) {
        assert forall|x: NodeId, j: int|
            #![trigger m2[x].items@[j]]
            m2.contains_key(x) && 0 <= j < m2[x].items@.len() && m2[x].items@[j] != m0[x].items@[j] implies m0[x].items@[j].child
                is Some && !m2.contains_key(m0[x].items@[j].child.unwrap()) by {
            assert(m.contains_key(x));
            assert(same_but_cleared(m0[x], m[x]));
            if m2[x].items@[j] == m[x].items@[j] {
                assert(m[x].items@[j] != m0[x].items@[j]);
            } else {
                let (p, k) = parent_link(m, id).unwrap();
                assert(x == p);
                assert(j == k);
                assert(links(m)[p] == child_links(m[p].items@));
                assert(links(m)[p][k as int] == Some(id));
                assert(m[x].items@[j].child == Some(id));
                assert(m[x].items@[j] == m0[x].items@[j]);
            }
        }
    }
    if parents_agree(m0) && rows_agree(m0) {
        let u = unlinked(m, id);
        assert(sub_links(u, links(m))) by {
            assert forall|x: NodeId| #[trigger] u.contains_key(x) implies {
                &&& links(m).contains_key(x)
                &&& u[x].len() == links(m)[x].len()
                &&& forall|j: int| 0 <= j < u[x].len() && (#[trigger] u[x][j]) is Some ==> links(m)[x][j] == u[x][j]
            } by {
            }
        }
        // rows of survivors still lead back
        assert forall|x: NodeId, j: int|
            #![trigger m2[x].items@[j]]
            m2.contains_key(x) && 0 <= j < m2[x].items@.len() && m2[x].items@[j].child is Some && m2.contains_key(
                m2[x].items@[j].child.unwrap(),
            ) implies parent_row(m2[m2[x].items@[j].child.unwrap()], x, j) by {
            let c = m2[x].items@[j].child.unwrap();
            assert(m[x].items@[j] == m2[x].items@[j]) by {
                if let Some((p, k)) = parent_link(m, id) {
                    if p == x && k == j {
                        assert(m2[x].items@[j].child is None);
                    }
                }
            }
            assert(m.contains_key(x));
            assert(parent_row(m[m[x].items@[j].child.unwrap()], x, j));
        }
        // rows into closed nodes lead nowhere
        assert forall|x: NodeId, j: int|
            #![trigger m2[x].items@[j]]
            m2.contains_key(x) && 0 <= j < m2[x].items@.len() && m0[x].items@[j].child is Some && m0.contains_key(
                m0[x].items@[j].child.unwrap(),
            ) && !m2.contains_key(m0[x].items@[j].child.unwrap()) implies m2[x].items@[j].child is None by {
            let c = m0[x].items@[j].child.unwrap();
            assert(m.contains_key(x));
            assert(same_but_cleared(m0[x], m[x]));
            let cleared = match parent_link(m, id) {
                Some((p, k)) => p == x && k as int == j,
                None => false,
            };
            if !cleared {
                assert(m2[x].items@[j] == m[x].items@[j]);
                if m.contains_key(c) {
                    assert(m[x].items@[j] == m0[x].items@[j] || m[x].items@[j].child is None);
                    if m[x].items@[j] == m0[x].items@[j] {
                        assert(parent_row(m[c], x, j));
                        assert(closed_by(m, id).contains(c));
                        let d = choose|d: nat| reaches(u, id, c, d);
                        if c == id {
                            assert(parent_link(m, id) == m[id].parent);
                            assert(false);
                        } else {
                            let (q, i) = lemma_reaches_last_step(u, id, c, d);
                            assert(links(m)[q][i] == Some(c));
                            assert(links(m)[q] == child_links(m[q].items@));
                            assert(m[q].items@[i].child == Some(c));
                            assert(parent_row(m[c], q, i));
                            assert(q == x);
                            assert(reaches(u, id, q, (d - 1) as nat));
                            assert(subtree(u, id).contains(q));
                            assert(closed_by(m, id).contains(x));
                            assert(!m2.dom().contains(x));
                            assert(false);
                        }
                    }
                }
            }
        }
    }
}

/// A preview node that nothing pins: it closes when the selection moves on.
pub open spec fn is_transient<G, R>(n: Node<G, R>) -> bool {
    n.preview matches Some(p) && !p.pinned
}

impl<G, R> NodeArena<Node<G, R>> {
    /// The ids of every live, unpinned preview node except `keep`.
    pub fn transient_previews(&self, keep: Option<NodeId>) -> (r: Vec<NodeId>)
        requires
            self.wf(),
        ensures
            forall|id: NodeId| r@.contains(id) <==> {
                &&& self.live().contains_key(id)
                &&& is_transient(self.live()[id])
                &&& keep != Some(id)
            },
    {
        let all = self.iter();
        let mut r: Vec<NodeId> = Vec::new();
        let mut i: usize = 0;
        while i < all.len()
            invariant
                self.wf(),
                i <= all@.len(),
                forall|id: NodeId| all@.contains(id) <==> self.live().contains_key(id),
                forall|id: NodeId| r@.contains(id) <==> {
                    &&& all@.subrange(0, i as int).contains(id)
                    &&& is_transient(self.live()[id])
                    &&& keep != Some(id)
                },
            decreases all@.len() - i,
        {
            let id = all[i];
            let transient = match self.get(id) {
                Some(n) => match n.preview {
                    Some(p) => !p.pinned,
                    None => false,
                },
                None => false,
            };
            let other = match keep {
                Some(k) => !(k == id),
                None => true,
            };
            let ghost before = r@;
            if transient && other {
                r.push(id);
            }
            proof {
                assert(all@.contains(id)) by {
                    assert(all@[i as int] == id);
                }
                assert(transient == is_transient(self.live()[id]));
                assert(other == (keep != Some(id)));
                assert forall|x: NodeId|
                    all@.subrange(0, i + 1).contains(x) <==> (all@.subrange(0, i as int).contains(x) || x
                        == id) by {
                    if all@.subrange(0, i + 1).contains(x) {
                        let k = choose|k: int|
                            #![trigger all@.subrange(0, i + 1)[k]]
                            0 <= k < i + 1 && all@.subrange(0, i + 1)[k] == x;
                        if k < i {
                            assert(all@.subrange(0, i as int)[k] == x);
                        }
                    }
                    if all@.subrange(0, i as int).contains(x) {
                        let k = choose|k: int|
                            #![trigger all@.subrange(0, i as int)[k]]
                            0 <= k < i && all@.subrange(0, i as int)[k] == x;
                        assert(all@.subrange(0, i + 1)[k] == x);
                    }
                    if x == id {
                        assert(all@.subrange(0, i + 1)[i as int] == x);
                    }
                }
                assert forall|x: NodeId| r@.contains(x) <==> (before.contains(x) || (x == id && transient && other)) by {
                    if r@.contains(x) {
                        let k = choose|k: int| #![trigger r@[k]] 0 <= k < r@.len() && r@[k] == x;
                        if k < before.len() {
                            assert(before[k] == x);
                        }
                    }
                    if before.contains(x) {
                        let k = choose|k: int| #![trigger before[k]] 0 <= k < before.len() && before[k] == x;
                        assert(r@[k] == x);
                    }
                    if x == id && transient && other {
                        assert(r@[before.len() as int] == x);
                    }
                }
                assert forall|x: NodeId| r@.contains(x) <==> {
                    &&& all@.subrange(0, i + 1).contains(x)
                    &&& is_transient(self.live()[x])
                    &&& keep != Some(x)
                } by {
                    assert(r@.contains(x) <==> (before.contains(x) || (x == id && transient && other)));
                    assert(all@.subrange(0, i + 1).contains(x) <==> (all@.subrange(0, i as int).contains(x) || x == id));
                    assert(before.contains(x) <==> {
                        &&& all@.subrange(0, i as int).contains(x)
                        &&& is_transient(self.live()[x])
                        &&& keep != Some(x)
                    });
                }
            }
            i += 1;
        }
        proof {
            assert(all@.subrange(0, all@.len() as int) =~= all@);
        }
        r
    }

    /// Closes every unpinned preview node (with anything below it) except
    /// `keep`, as happens when the selection moves to another row. Nodes
    /// that stay are as they were, but for rows whose open child was closed:
    /// those no longer link to it, so the row can open a preview again. Only
    /// what lies below a closed preview goes with it; where every node's
    /// parent row links back to it, all of that goes, and where rows and
    /// parents agree both ways, every row that led to a closed node is
    /// cleared.
    pub fn close_transients(&mut self, keep: Option<NodeId>)
        requires
            old(self).wf(),
        ensures
            final(self).wf(),
            forall|x: NodeId|
                #[trigger] final(self).live().contains_key(x) ==> old(self).live().contains_key(x)
                    && final(self).live()[x].preview == old(self).live()[x].preview,
            forall|x: NodeId|
                #[trigger] final(self).live().contains_key(x) && is_transient(final(self).live()[x]) ==> keep
                    == Some(x),
            forall|x: NodeId|
                #[trigger] old(self).live().contains_key(x) && !final(self).live().contains_key(x) ==> exists|t: NodeId|
                    {
                        &&& old(self).live().contains_key(t)
                        &&& is_transient(old(self).live()[t])
                        &&& keep != Some(t)
                        &&& #[trigger] subtree(links(old(self).live()), t).contains(x)
                    },
            forall|x: NodeId|
                #[trigger] final(self).live().contains_key(x) ==> old(self).live().contains_key(x)
                    && same_but_cleared(old(self).live()[x], final(self).live()[x]),
            parents_agree(old(self).live()) ==> cleared_only_closed(old(self).live(), final(self).live()),
            parents_agree(old(self).live()) && rows_agree(old(self).live()) ==> rows_agree(final(self).live())
                && closed_rows_cleared(old(self).live(), final(self).live()),
            parents_agree(old(self).live()) ==> parents_agree(final(self).live()),
            parents_agree(old(self).live()) ==> forall|t: NodeId, x: NodeId|
                old(self).live().contains_key(t) && is_transient(old(self).live()[t]) && keep != Some(t)
                    && #[trigger] subtree(links(old(self).live()), t).contains(x) ==> !final(self).live().contains_key(
                    x,
                ),
    {
        let ghost m0 = self.live();
        let ghost agree = parents_agree(m0);
        let cands = self.transient_previews(keep);
        assert(cands@.subrange(0, cands@.len() as int) =~= cands@);
        assert forall|x: NodeId| #[trigger] m0.contains_key(x) implies same_but_cleared(m0[x], m0[x]) by {
        }
        let mut i: usize = 0;
        while i < cands.len()
            invariant
                self.wf(),
                m0 == old(self).live(),
                i <= cands@.len(),
                forall|id: NodeId| cands@.contains(id) <==> {
                    &&& m0.contains_key(id)
                    &&& is_transient(m0[id])
                    &&& keep != Some(id)
                },
                sub_links(links(self.live()), links(m0)),
                forall|x: NodeId|
                    #[trigger] self.live().contains_key(x) ==> m0.contains_key(x) && self.live()[x].preview
                        == m0[x].preview,
                forall|x: NodeId|
                    #[trigger] self.live().contains_key(x) && is_transient(self.live()[x]) && keep != Some(x)
                        ==> cands@.subrange(i as int, cands@.len() as int).contains(x),
                forall|x: NodeId|
                    #[trigger] m0.contains_key(x) && !self.live().contains_key(x) ==> exists|t: NodeId|
                        {
                            &&& m0.contains_key(t)
                            &&& is_transient(m0[t])
                            &&& keep != Some(t)
                            &&& #[trigger] subtree(links(m0), t).contains(x)
                        },
                agree == parents_agree(m0),
                agree ==> parents_agree(self.live()),
                forall|x: NodeId|
                    #[trigger] self.live().contains_key(x) ==> m0.contains_key(x) && same_but_cleared(
                        m0[x],
                        self.live()[x],
                    ),
                agree ==> cleared_only_closed(m0, self.live()),
                agree && rows_agree(m0) ==> rows_agree(self.live()) && closed_rows_cleared(m0, self.live()),
                agree ==> keeps_live_links(links(self.live()), links(m0)),
                agree ==> drops_below(links(self.live()), links(m0)),
                agree ==> forall|j: int, x: NodeId, d: nat|
                    0 <= j < i && #[trigger] reaches(links(m0), cands@[j], x, d) ==> !self.live().contains_key(x),
            decreases cands@.len() - i,
        {
            let id = cands[i];
            let ghost m = self.live();
            self.close_recursive(id);
            proof {
                let m2 = self.live();
                assert(cands@.contains(id)) by {
                    assert(cands@[i as int] == id);
                }
                lemma_close_rows(m0, m, m2, id);
                if agree {
                    lemma_close_step(m0, m, m2, id);
                    assert forall|j: int, x: NodeId, d: nat|
                        0 <= j < i + 1 && #[trigger] reaches(links(m0), cands@[j], x, d) implies !m2.contains_key(
                        x,
                    ) by {
                        if j == i {
                            assert(cands@[j] == id);
                        }
                    }
                }
                // what stays keeps its links, minus the one unhooked row
                assert(sub_links(links(m2), links(m))) by {
                    assert forall|x: NodeId| #[trigger] links(m2).contains_key(x) implies {
                        &&& links(m).contains_key(x)
                        &&& links(m2)[x].len() == links(m)[x].len()
                        &&& forall|j: int|
                            0 <= j < links(m2)[x].len() && (#[trigger] links(m2)[x][j]) is Some ==> links(m)[x][j]
                                == links(m2)[x][j]
                    } by {
                        assert(m2.contains_key(x));
                        if m2[x] != m[x] {
                            let (p, k) = parent_link(m, id).unwrap();
                            assert(x == p);
                            assert forall|j: int|
                                0 <= j < links(m2)[x].len() && (#[trigger] links(m2)[x][j]) is Some implies links(
                                m,
                            )[x][j] == links(m2)[x][j] by {
                                assert(links(m2)[x][j] == m2[x].items@[j].child);
                                assert(links(m)[x][j] == m[x].items@[j].child);
                            }
                        }
                    }
                }
                lemma_sub_links_trans(links(m2), links(m), links(m0));
                // the unhooked graph lies inside the one we started from
                assert(sub_links(unlinked(m, id), links(m))) by {
                    assert forall|x: NodeId| #[trigger] unlinked(m, id).contains_key(x) implies {
                        &&& links(m).contains_key(x)
                        &&& unlinked(m, id)[x].len() == links(m)[x].len()
                        &&& forall|j: int|
                            0 <= j < unlinked(m, id)[x].len() && (#[trigger] unlinked(m, id)[x][j]) is Some
                                ==> links(m)[x][j] == unlinked(m, id)[x][j]
                    } by {
                    }
                }
                lemma_sub_links_trans(unlinked(m, id), links(m), links(m0));
                assert forall|x: NodeId|
                    #[trigger] m0.contains_key(x) && !m2.contains_key(x) implies exists|t: NodeId|
                    {
                        &&& m0.contains_key(t)
                        &&& is_transient(m0[t])
                        &&& keep != Some(t)
                        &&& #[trigger] subtree(links(m0), t).contains(x)
                    } by {
                    if m.contains_key(x) {
                        assert(closed_by(m, id).contains(x));
                        let d = choose|d: nat| reaches(unlinked(m, id), id, x, d);
                        lemma_reaches_sub(unlinked(m, id), links(m0), id, x, d);
                        assert(subtree(links(m0), id).contains(x));
                    }
                }
                assert forall|x: NodeId|
                    #[trigger] m2.contains_key(x) && is_transient(m2[x]) && keep != Some(x) implies cands@.subrange(
                    i + 1,
                    cands@.len() as int,
                ).contains(x) by {
                    assert(m.contains_key(x));
                    assert(cands@.subrange(i as int, cands@.len() as int).contains(x));
                    let k = choose|k: int|
                        #![trigger cands@.subrange(i as int, cands@.len() as int)[k]]
                        0 <= k < cands@.len() - i && cands@.subrange(i as int, cands@.len() as int)[k] == x;
                    if k == 0 {
                        assert(x == id);
                        assert(reaches(unlinked(m, id), id, id, 0));
                        assert(closed_by(m, id).contains(id));
                        assert(false);
                    }
                    assert(cands@.subrange(i + 1, cands@.len() as int)[k - 1] == x);
                }
            }
            i += 1;
        }
        proof {
            if agree {
                assert forall|t: NodeId, x: NodeId|
                    m0.contains_key(t) && is_transient(m0[t]) && keep != Some(t) && #[trigger] subtree(
                        links(m0),
                        t,
                    ).contains(x) implies !self.live().contains_key(x) by {
                    assert(cands@.contains(t));
                    let j = choose|j: int| 0 <= j < cands@.len() && cands@[j] == t;
                    let d = choose|d: nat| reaches(links(m0), t, x, d);
                    assert(reaches(links(m0), cands@[j], x, d));
                }
            }
            assert forall|x: NodeId|
                #[trigger] self.live().contains_key(x) && is_transient(self.live()[x]) implies keep == Some(x) by {
                if keep != Some(x) {
                    assert(cands@.subrange(i as int, cands@.len() as int).len() == 0);
                }
            }
        }
    }
}

/// `node` is live and has a row `item`.
pub open spec fn has_row<G, R>(m: Map<NodeId, Node<G, R>>, node: NodeId, item: usize) -> bool {
    m.contains_key(node) && item < m[node].items@.len()
}

/// `after` is `before` with row `k` replaced by `it`.
pub open spec fn row_set<G, R>(before: Node<G, R>, after: Node<G, R>, k: int, it: Item<R>) -> bool {
    &&& after.items@ == before.items@.update(k, it)
    &&& after.path == before.path
    &&& after.parent == before.parent
    &&& after.geom == before.geom
    &&& after.preview == before.preview
}

/// `m2` is `m1` with row `item` of `node` replaced by `it`.
pub open spec fn only_row_set<G, R>(
    m1: Map<NodeId, Node<G, R>>,
    m2: Map<NodeId, Node<G, R>>,
    node: NodeId,
    item: usize,
    it: Item<R>,
) -> bool {
    &&& m2.dom() == m1.dom()
    &&& forall|x: NodeId| #[trigger] m2.contains_key(x) && x != node ==> m2[x] == m1[x]
    &&& row_set(m1[node], m2[node], item as int, it)
}

impl<G, R> NodeArena<Node<G, R>> {
    /// A directory scan for row `item` of `node` has come back: it is
    /// applied only if that row still exists and is still waiting for it
    /// (a closed node, or a row whose wait was dropped, ignores the
    /// result). Where it applies, the row stops waiting.
    pub fn finish_scan(&mut self, node: NodeId, item: usize) -> (r: bool)
        requires
            old(self).wf(),
        ensures
            final(self).wf(),
            final(self).retired() == old(self).retired(),
            final(self).exhausted() == old(self).exhausted(),
            final(self).has_room() == old(self).has_room(),
            final(self).next_id() == old(self).next_id(),
            r == (has_row(old(self).live(), node, item) && old(self).live()[node].items@[item as int].scanning),
            r ==> only_row_set(
                old(self).live(),
                final(self).live(),
                node,
                item,
                Item { scanning: false, ..old(self).live()[node].items@[item as int] },
            ),
            !r ==> final(self).live() == old(self).live(),
    {
        let ok = match self.get(node) {
            Some(n) => item < n.items.len() && n.items[item].scanning,
            None => false,
        };
        if !ok {
            return false;
        }
        let ghost m = self.live();
        if let Some(n) = self.get_mut(node) {
            n.set_scanning(item, false);
        }
        proof {
            assert(self.live().dom() =~= m.dom());
        }
        true
    }

    /// A directory scan for row `item` of `node` has been started: where
    /// the row exists, it shows a scan in flight (the spinner, and no second
    /// scan for it).
    pub fn begin_scan(&mut self, node: NodeId, item: usize)
        requires
            old(self).wf(),
        ensures
            final(self).wf(),
            final(self).retired() == old(self).retired(),
            final(self).exhausted() == old(self).exhausted(),
            final(self).has_room() == old(self).has_room(),
            final(self).next_id() == old(self).next_id(),
            has_row(old(self).live(), node, item) ==> only_row_set(
                old(self).live(),
                final(self).live(),
                node,
                item,
                Item { scanning: true, ..old(self).live()[node].items@[item as int] },
            ),
            !has_row(old(self).live(), node, item) ==> final(self).live() == old(self).live(),
    {
        let ok = match self.get(node) {
            Some(n) => item < n.items.len(),
            None => false,
        };
        if !ok {
            return;
        }
        let ghost m = self.live();
        if let Some(n) = self.get_mut(node) {
            n.set_scanning(item, true);
        }
        proof {
            assert(self.live().dom() =~= m.dom());
        }
    }

    /// A preview decode for row `item` of `node` has been started: where
    /// the row exists, it shows a decode in flight.
    pub fn begin_preview(&mut self, node: NodeId, item: usize)
        requires
            old(self).wf(),
        ensures
            final(self).wf(),
            final(self).retired() == old(self).retired(),
            final(self).exhausted() == old(self).exhausted(),
            final(self).has_room() == old(self).has_room(),
            final(self).next_id() == old(self).next_id(),
            has_row(old(self).live(), node, item) ==> only_row_set(
                old(self).live(),
                final(self).live(),
                node,
                item,
                Item { preview_loading: true, ..old(self).live()[node].items@[item as int] },
            ),
            !has_row(old(self).live(), node, item) ==> final(self).live() == old(self).live(),
    {
        let ok = match self.get(node) {
            Some(n) => item < n.items.len(),
            None => false,
        };
        if !ok {
            return;
        }
        let ghost m = self.live();
        if let Some(n) = self.get_mut(node) {
            n.set_loading(item, true);
        }
        proof {
            assert(self.live().dom() =~= m.dom());
        }
    }

    /// A preview decode for row `item` of `node` has come back: where the
    /// row still exists, it stops showing its loading state.
    pub fn finish_preview(&mut self, node: NodeId, item: usize)
        requires
            old(self).wf(),
        ensures
            final(self).wf(),
            final(self).retired() == old(self).retired(),
            final(self).exhausted() == old(self).exhausted(),
            final(self).has_room() == old(self).has_room(),
            final(self).next_id() == old(self).next_id(),
            has_row(old(self).live(), node, item) ==> only_row_set(
                old(self).live(),
                final(self).live(),
                node,
                item,
                Item { preview_loading: false, ..old(self).live()[node].items@[item as int] },
            ),
            !has_row(old(self).live(), node, item) ==> final(self).live() == old(self).live(),
    {
        let ok = match self.get(node) {
            Some(n) => item < n.items.len(),
            None => false,
        };
        if !ok {
            return;
        }
        let ghost m = self.live();
        if let Some(n) = self.get_mut(node) {
            n.set_loading(item, false);
        }
        proof {
            assert(self.live().dom() =~= m.dom());
        }
    }

    /// Hangs `child` off row `item` of `node`: the child is inserted with
    /// that row as its parent and the row links to it. `None`, with nothing
    /// changed, where the row no longer exists or the arena is full.
    pub fn attach_child(&mut self, node: NodeId, item: usize, child: Node<G, R>) -> (r: Option<NodeId>)
        requires
            old(self).wf(),
        ensures
            final(self).wf(),
            final(self).retired() == old(self).retired(),
            final(self).exhausted() == old(self).exhausted(),
            r is Some <==> has_row(old(self).live(), node, item) && old(self).has_room(),
            r is None ==> final(self).live() == old(self).live(),
            r matches Some(id) ==> {
                &&& !old(self).live().contains_key(id)
                &&& !old(self).exhausted() ==> !old(self).retired().contains(id)
                &&& final(self).live().dom() == old(self).live().dom().insert(id)
                &&& final(self).live()[id] == (Node { parent: Some((node, item)), ..child })
                &&& forall|x: NodeId|
                    #[trigger] old(self).live().contains_key(x) && x != node ==> final(self).live()[x]
                        == old(self).live()[x]
                &&& row_set(
                    old(self).live()[node],
                    final(self).live()[node],
                    item as int,
                    Item { child: Some(id), ..old(self).live()[node].items@[item as int] },
                )
            },
    {
        let ok = match self.get(node) {
            Some(n) => item < n.items.len(),
            None => false,
        };
        if !ok || !self.can_insert() {
            return None;
        }
        let ghost m = self.live();
        let mut child = child;
        child.parent = Some((node, item));
        let id = self.insert(child);
        if let Some(n) = self.get_mut(node) {
            n.set_child(item, Some(id));
        }
        proof {
            assert(self.live().dom() =~= m.dom().insert(id));
        }
        Some(id)
    }

    /// A decoded preview for row `item` of `node` is still wanted: that row
    /// is the current selection and has no open child yet.
    pub fn preview_wanted(&self, selection: Option<(NodeId, usize)>, node: NodeId, item: usize) -> (r: bool)
        requires
            self.wf(),
        ensures
            r == (selection == Some((node, item)) && has_row(self.live(), node, item)
                && self.live()[node].items@[item as int].child is None),
    {
        let selected = match selection {
            Some((n, i)) => n == node && i == item,
            None => false,
        };
        if !selected {
            return false;
        }
        match self.get(node) {
            Some(n) => item < n.items.len() && n.items[item].child.is_none(),
            None => false,
        }
    }
}

/// Closing a node closes its whole subtree: where every node's parent row
/// links back to it, nothing the node reaches through open rows survives
/// `close_recursive`.
pub proof fn law_close_takes_subtree<G, R>(
    before: &NodeArena<Node<G, R>>,
    after: &NodeArena<Node<G, R>>,
    id: NodeId,
    x: NodeId,
)
    requires
        before.wf(),
        parents_agree(before.live()),
        before.live().contains_key(id),
        after.live().dom() == before.live().dom().difference(closed_by(before.live(), id)),
        subtree(links(before.live()), id).contains(x),
    ensures
        !after.live().contains_key(x),
{
    let d = choose|d: nat| reaches(links(before.live()), id, x, d);
    lemma_reached_is_closed(before.live(), id, x, d);
}

/// Closing keeps every parent row linking back to its child: what
/// `close_recursive` leaves behind is as consistent as what it started from.
pub proof fn law_close_keeps_agreement<G, R>(
    before: &NodeArena<Node<G, R>>,
    after: &NodeArena<Node<G, R>>,
    id: NodeId,
)
    requires
        before.wf(),
        parents_agree(before.live()),
        after.live().dom() == before.live().dom().difference(closed_by(before.live(), id)),
        forall|x: NodeId|
            #![trigger after.live().contains_key(x)]
            after.live().contains_key(x) && !(parent_link(before.live(), id) matches Some((p, _)) && p == x)
                ==> after.live()[x] == before.live()[x],
        parent_link(before.live(), id) matches Some((p, k)) ==> (after.live().contains_key(p) ==> {
            let b = before.live()[p];
            let a = after.live()[p];
            &&& a.items@ == b.items@.update(k as int, Item { child: None, ..b.items@[k as int] })
            &&& a.parent == b.parent
        }),
    ensures
        parents_agree(after.live()),
{
    let m = before.live();
    let g = links(m);
    if m.contains_key(id) {
        assert(sub_links(g, g));
        assert(keeps_live_links(g, g));
        assert(drops_below(g, g));
        lemma_close_step(m, m, after.live(), id);
    } else {
        assert(!unlinked(m, id).contains_key(id));
        assert(closed_by(m, id) =~= Set::<NodeId>::empty());
        assert(after.live() =~= m);
    }
}

/// A result that comes back for a node after it was closed is dropped:
/// closing retires the node's id, a retired id never names a live node
/// again (until its slot's generation wraps), so the result finds no row.
pub proof fn law_closed_node_drops_results<G, R>(
    before: &NodeArena<Node<G, R>>,
    after: &NodeArena<Node<G, R>>,
    node: NodeId,
    item: usize,
)
    requires
        before.wf(),
        after.wf(),
        before.live().contains_key(node),
        after.retired() == before.retired().union(closed_by(before.live(), node)),
        !slot_wrapped(after.retired(), node),
    ensures
        !has_row(after.live(), node, item),
{
    assert(reaches(unlinked(before.live(), node), node, node, 0));
    assert(closed_by(before.live(), node).contains(node));
    law_retired_ids_stay_dead(after, node);
}

/// Byte strings in lexicographic order (how `[u8]` compares): the first
/// differing byte decides, and a proper prefix comes first.
pub open spec fn bytes_before(a: Seq<u8>, b: Seq<u8>) -> bool
    decreases a.len(),
{
    if a.len() == 0 {
        b.len() > 0
    } else if b.len() == 0 {
        false
    } else if a[0] != b[0] {
        a[0] < b[0]
    } else {
        bytes_before(a.drop_first(), b.drop_first())
    }
}

pub proof fn lemma_bytes_before_irreflexive(a: Seq<u8>)
    ensures
        !bytes_before(a, a),
    decreases a.len(),
{
    if a.len() > 0 {
        lemma_bytes_before_irreflexive(a.drop_first());
    }
}

pub proof fn lemma_bytes_before_transitive(a: Seq<u8>, b: Seq<u8>, c: Seq<u8>)
    requires
        bytes_before(a, b),
        bytes_before(b, c),
    ensures
        bytes_before(a, c),
    decreases a.len(),
{
    if a.len() > 0 && b.len() > 0 && c.len() > 0 && a[0] == b[0] && b[0] == c[0] {
        lemma_bytes_before_transitive(a.drop_first(), b.drop_first(), c.drop_first());
    }
}

/// Scan results in name order: no entry's name sorts before an earlier one's.
pub open spec fn sorted_by_name(s: Seq<ItemData>) -> bool {
    forall|i: int, j: int| 0 <= i < j < s.len() ==> !bytes_before(#[trigger] s[j].name@, #[trigger] s[i].name@)
}

fn name_before(a: &[u8], b: &[u8]) -> (r: bool)
    ensures
        r == bytes_before(a@, b@),
{
    let mut k: usize = 0;
    proof {
        assert(a@.skip(0) =~= a@);
        assert(b@.skip(0) =~= b@);
    }
    while k < a.len() && k < b.len()
        invariant
            k <= a@.len(),
            k <= b@.len(),
            a@.take(k as int) == b@.take(k as int),
            bytes_before(a@, b@) == bytes_before(a@.skip(k as int), b@.skip(k as int)),
        decreases a@.len() - k,
    {
        if a[k] != b[k] {
            proof {
                assert(a@.skip(k as int)[0] == a@[k as int]);
                assert(b@.skip(k as int)[0] == b@[k as int]);
            }
            return a[k] < b[k];
        }
        proof {
            assert(a@.skip(k as int).drop_first() =~= a@.skip(k + 1));
            assert(b@.skip(k as int).drop_first() =~= b@.skip(k + 1));
            assert(a@.take(k + 1) =~= a@.take(k as int).push(a@[k as int]));
            assert(b@.take(k + 1) =~= b@.take(k as int).push(b@[k as int]));
        }
        k = k + 1;
    }
    proof {
        assert(a@.skip(k as int).len() == a@.len() - k);
        assert(b@.skip(k as int).len() == b@.len() - k);
    }
    k < b.len()
}

/// Scan results sorted by raw name bytes (the order `read_dir` gives is
/// arbitrary); the entries themselves are unchanged.
pub fn sort_by_name(items: Vec<ItemData>) -> (r: Vec<ItemData>)
    ensures
        sorted_by_name(r@),
        r@.to_multiset() == items@.to_multiset(),
{
    let ghost src = items@;
    let mut out: Vec<ItemData> = Vec::new();
    proof {
        assert(src.take(0) =~= Seq::<ItemData>::empty());
    }
    for d in it: items
        invariant
            it.seq() == src,
            sorted_by_name(out@),
            out@.to_multiset() == src.take(it.index() as int).to_multiset(),
    {
        let mut j: usize = 0;
        while j < out.len() && !name_before(d.name.as_slice(), out[j].name.as_slice())
            invariant
                j <= out@.len(),
                forall|k: int| 0 <= k < j ==> !bytes_before(d.name@, #[trigger] out@[k].name@),
            decreases out@.len() - j,
        {
            j = j + 1;
        }
        let ghost before = out@;
        let ghost x = d;
        proof {
            assert(src.take(it.index() + 1) =~= src.take(it.index() as int).push(x));
            vstd::seq_lib::to_multiset_build(src.take(it.index() as int), x);
        }
        out.insert(j, d);
        proof {
            let s = out@;
            assert(s =~= before.insert(j as int, x));
            vstd::seq_lib::to_multiset_insert(before, j as int, x);
            assert(s.to_multiset() == before.to_multiset().insert(x));
            assert(src.take(it.index() + 1).to_multiset() == src.take(it.index() as int).to_multiset().insert(x));
            assert forall|a: int, b: int| 0 <= a < b < s.len() implies !bytes_before(
                #[trigger] s[b].name@,
                #[trigger] s[a].name@,
            ) by {
                if b < j {
                    assert(s[a] == before[a] && s[b] == before[b]);
                } else if b == j {
                    assert(s[a] == before[a]);
                } else if a == j {
                    assert(s[b] == before[b - 1]);
                    assert(bytes_before(x.name@, before[j as int].name@));
                    if b - 1 > j {
                        assert(!bytes_before(before[b - 1].name@, before[j as int].name@));
                    }
                    if bytes_before(before[b - 1].name@, x.name@) {
                        lemma_bytes_before_transitive(before[b - 1].name@, x.name@, before[j as int].name@);
                        if b - 1 == j {
                            lemma_bytes_before_irreflexive(before[j as int].name@);
                        }
                    }
                } else if a < j {
                    assert(s[a] == before[a] && s[b] == before[b - 1]);
                } else {
                    assert(s[a] == before[a - 1] && s[b] == before[b - 1]);
                }
            }
        }
    }
    proof {
        assert(src.take(src.len() as int) =~= src);
    }
    out
}

/// What `String::from_utf8_lossy` makes of a byte string.
pub uninterp spec fn lossy_utf8(bytes: Seq<u8>) -> Seq<char>;

/// `String::from_utf8_lossy(bytes).into_owned()`: the text the bytes
/// encode, with U+FFFD for each invalid sequence. Stated: the result is
/// named by the bytes, and valid UTF-8 reads back unchanged.
#[verifier::external_body]
fn display_name(bytes: &[u8]) -> (r: String)
    ensures
        r@ == lossy_utf8(bytes@),
        vstd::utf8::valid_utf8(bytes@) ==> r@ == vstd::utf8::decode_utf8(bytes@),
{
    String::from_utf8_lossy(bytes).into_owned()
}

/// Build a directory node from scan results: one row per entry, in order,
/// each with its lossy display name, no child and nothing in flight. `geom`
/// and `row` are the caller's initial (not yet laid out) placements.
pub fn node_from_items<G, R: Copy>(path: Vec<u8>, data: Vec<ItemData>, geom: G, row: R) -> (n: Node<G, R>)
    ensures
        n.path == path,
        n.parent is None,
        n.geom == geom,
        n.preview is None,
        n.items@.len() == data@.len(),
        forall|k: int|
            0 <= k < data@.len() ==> {
                let it = #[trigger] n.items@[k];
                &&& it.name == data@[k].name
                &&& it.display@ == lossy_utf8(data@[k].name@)
                &&& it.is_dir == data@[k].is_dir
                &&& it.rect == row
                &&& it.child is None
                &&& !it.scanning
                &&& !it.preview_loading
            },
{
    let ghost src = data@;
    let mut items: Vec<Item<R>> = Vec::new();
    for d in it: data
        invariant
            it.seq() == src,
            items@.len() == it.index(),
            forall|k: int|
                0 <= k < items@.len() ==> {
                    let x = #[trigger] items@[k];
                    &&& x.name == src[k].name
                    &&& x.display@ == lossy_utf8(src[k].name@)
                    &&& x.is_dir == src[k].is_dir
                    &&& x.rect == row
                    &&& x.child is None
                    &&& !x.scanning
                    &&& !x.preview_loading
                },
    {
        let display = display_name(d.name.as_slice());
        items.push(
            Item {
                name: d.name,
                display,
                is_dir: d.is_dir,
                rect: row,
                child: None,
                scanning: false,
                preview_loading: false,
            },
        );
    }
    Node { path, items, parent: None, geom, preview: None }
}

/// Build an image-preview node (no rows) hanging off row `parent.1` of node
/// `parent.0`, drawing texture `tex` and resizing aspect-locked from the
/// intrinsic `img_w`×`img_h`. `geom` is the caller's placement of the box.
pub fn preview_node<G, R>(
    path: Vec<u8>,
    parent: (NodeId, usize),
    tex: u32,
    img_w: u32,
    img_h: u32,
    geom: G,
    pinned: bool,
) -> (n: Node<G, R>)
    ensures
        n.path == path,
        n.items@.len() == 0,
        n.parent == Some(parent),
        n.geom == geom,
        n.preview == Some(PreviewData { tex, img_w, img_h, pinned }),
{
    Node {
        path,
        items: Vec::new(),
        parent: Some(parent),
        geom,
        preview: Some(PreviewData { tex, img_w, img_h, pinned }),
    }
}

} // verus!
