//! Bookkeeping for image-preview textures. Preview nodes refer to a texture
//! by an opaque slot id; a slot whose id no node refers to any more is
//! retired, and its texture is released only once every frame that could
//! still sample it has finished. Creating and destroying the GPU objects
//! themselves is the caller's work: this table hands them back.

use vstd::prelude::*;

verus! {

/// Frames the GPU may still be working on after they were recorded.
pub const FRAMES_IN_FLIGHT: u64 = 2;

/// A texture retired at frame `at` may be released at `frame`: more than
/// `FRAMES_IN_FLIGHT` frames have been recorded since.
pub open spec fn expired(at: u64, frame: u64) -> bool {
    frame > at && frame - at > FRAMES_IN_FLIGHT
}

/// The entries of `r` that have expired by `frame`, in order.
pub open spec fn expired_entries<T>(r: Seq<(u64, T)>, frame: u64) -> Seq<T>
    decreases r.len(),
{
    if r.len() == 0 {
        Seq::empty()
    } else if expired(r.last().0, frame) {
        expired_entries(r.drop_last(), frame).push(r.last().1)
    } else {
        expired_entries(r.drop_last(), frame)
    }
}

/// The entries of `r` that have not expired by `frame`, in order.
pub open spec fn pending_entries<T>(r: Seq<(u64, T)>, frame: u64) -> Seq<(u64, T)>
    decreases r.len(),
{
    if r.len() == 0 {
        Seq::empty()
    } else if expired(r.last().0, frame) {
        pending_entries(r.drop_last(), frame)
    } else {
        pending_entries(r.drop_last(), frame).push(r.last())
    }
}

/// The slots `retire_unused` takes from `slots` (occupied, id not in
/// `live`), in id order, each with its id.
pub open spec fn unused<T>(slots: Seq<Option<T>>, live: Seq<u32>) -> Seq<(u32, T)>
    decreases slots.len(),
{
    if slots.len() == 0 {
        Seq::empty()
    } else {
        let i = slots.len() - 1;
        let rest = unused(slots.drop_last(), live);
        match slots.last() {
            Some(t) => if live.contains(i as u32) {
                rest
            } else {
                rest.push((i as u32, t))
            },
            None => rest,
        }
    }
}

/// Textures by slot id, the ids free for reuse, and the textures retired
/// but possibly still in use, with the frame they were retired at.
pub struct PreviewTextures<T> {
    slots: Vec<Option<T>>,
    free: Vec<u32>,
    retired: Vec<(u64, T)>,
}

impl<T> PreviewTextures<T> {
    pub closed spec fn slots(&self) -> Seq<Option<T>> {
        self.slots@
    }

    pub closed spec fn free(&self) -> Seq<u32> {
        self.free@
    }

    pub closed spec fn retired(&self) -> Seq<(u64, T)> {
        self.retired@
    }

    /// Ids fit a `u32`; free ids are distinct, empty slots.
    pub open spec fn wf(&self) -> bool {
        &&& self.slots().len() <= u32::MAX + 1
        &&& forall|k: int|
            0 <= k < self.free().len() ==> {
                &&& (#[trigger] self.free()[k] as int) < self.slots().len()
                &&& self.slots()[self.free()[k] as int] is None
            }
        &&& self.free().no_duplicates()
    }

    pub fn new() -> (r: PreviewTextures<T>)
        ensures
            r.wf(),
            r.slots() == Seq::<Option<T>>::empty(),
            r.free() == Seq::<u32>::empty(),
            r.retired() == Seq::<(u64, T)>::empty(),
    {
        PreviewTextures { slots: Vec::new(), free: Vec::new(), retired: Vec::new() }
    }

    /// Register a texture and return its id, reusing the most recently
    /// freed slot when there is one.
    pub fn insert(&mut self, tex: T) -> (id: u32)
        requires
            old(self).wf(),
            old(self).free().len() > 0 || old(self).slots().len() < u32::MAX,
        ensures
            final(self).wf(),
            final(self).retired() == old(self).retired(),
            old(self).free().len() > 0 ==> {
                &&& id == old(self).free().last()
                &&& final(self).free() == old(self).free().drop_last()
                &&& final(self).slots() == old(self).slots().update(id as int, Some(tex))
            },
            old(self).free().len() == 0 ==> {
                &&& id == old(self).slots().len()
                &&& final(self).free() == old(self).free()
                &&& final(self).slots() == old(self).slots().push(Some(tex))
            },
    {
        if let Some(id) = self.free.pop() {
            proof {
                let k = old(self).free@.len() - 1;
                assert(old(self).free@[k] == id);
                assert forall|a: int, b: int| 0 <= a < b < self.free@.len() implies self.free@[a] != self.free@[b] by {
                    assert(old(self).free@[a] != old(self).free@[b]);
                }
                assert forall|a: int| 0 <= a < self.free@.len() implies self.free@[a] != id by {
                    assert(old(self).free@[a] != old(self).free@[k]);
                }
            }
            self.slots.set(id as usize, Some(tex));
            id
        } else {
            self.slots.push(Some(tex));
            (self.slots.len() - 1) as u32
        }
    }

    /// The texture in slot `id`, if the slot is occupied.
    pub fn get(&self, id: u32) -> (r: Option<&T>)
        ensures
            r == (if (id as int) < self.slots().len() {
                match self.slots()[id as int] {
                    Some(t) => Some(&t),
                    None => None,
                }
            } else {
                None
            }),
    {
        if (id as usize) < self.slots.len() {
            match &self.slots[id as usize] {
                Some(t) => Some(t),
                None => None,
            }
        } else {
            None
        }
    }

    /// How many slot ids have been handed out.
    pub fn len(&self) -> (n: usize)
        ensures
            n == self.slots().len(),
    {
        self.slots.len()
    }

    /// Retire every occupied slot whose id is not in `live`: its texture
    /// joins the retired list stamped with `frame`, and its id is freed.
    pub fn retire_unused(&mut self, live: &[u32], frame: u64)
        requires
            old(self).wf(),
        ensures
            final(self).wf(),
            final(self).slots().len() == old(self).slots().len(),
            forall|i: int|
                0 <= i < old(self).slots().len() ==> #[trigger] final(self).slots()[i] == (if old(self).slots()[i] is Some
                    && !live@.contains(i as u32) {
                    None
                } else {
                    old(self).slots()[i]
                }),
            final(self).free() == old(self).free() + unused(old(self).slots(), live@).map_values(|e: (u32, T)| e.0),
            final(self).retired() == old(self).retired() + unused(old(self).slots(), live@).map_values(
                |e: (u32, T)| (frame, e.1),
            ),
    {
        let ghost s0 = self.slots@;
        let ghost f0 = self.free@;
        let ghost r0 = self.retired@;
        let n = self.slots.len();
        let mut i: usize = 0;
        proof {
            assert(s0.take(0) =~= Seq::<Option<T>>::empty());
            assert(f0 + Seq::<(u32, T)>::empty().map_values(|e: (u32, T)| e.0) =~= f0);
            assert(r0 + Seq::<(u32, T)>::empty().map_values(|e: (u32, T)| (frame, e.1)) =~= r0);
        }
        while i < n
            invariant
                n == s0.len(),
                n <= u32::MAX + 1,
                i <= n,
                self.slots@.len() == n,
                forall|k: int| i <= k < n ==> self.slots@[k] == s0[k],
                forall|k: int|
                    0 <= k < i ==> #[trigger] self.slots@[k] == (if s0[k] is Some && !live@.contains(k as u32) {
                        None
                    } else {
                        s0[k]
                    }),
                self.free@ == f0 + unused(s0.take(i as int), live@).map_values(|e: (u32, T)| e.0),
                self.retired@ == r0 + unused(s0.take(i as int), live@).map_values(|e: (u32, T)| (frame, e.1)),
                forall|k: int| 0 <= k < f0.len() ==> (#[trigger] f0[k] as int) < n && s0[f0[k] as int] is None,
                f0.no_duplicates(),
                forall|k: int| 0 <= k < unused(s0.take(i as int), live@).len() ==> (#[trigger] unused(s0.take(i as int), live@)[k].0 as int) < i,
                unused(s0.take(i as int), live@).map_values(|e: (u32, T)| e.0).no_duplicates(),
            decreases n - i,
        {
            let ghost u = unused(s0.take(i as int), live@);
            proof {
                assert(s0.take(i + 1).drop_last() =~= s0.take(i as int));
                assert(s0.take(i + 1).last() == s0[i as int]);
            }
            let mut in_live = false;
            let mut k: usize = 0;
            while k < live.len()
                invariant
                    k <= live@.len(),
                    in_live == (exists|q: int| 0 <= q < k && live@[q] == i as u32),
                decreases live@.len() - k,
            {
                if live[k] == i as u32 {
                    in_live = true;
                }
                k = k + 1;
            }
            assert(in_live == live@.contains(i as u32));
            if self.slots[i].is_some() && !in_live {
                let t = self.slots[i].take();
                // (take leaves None behind)
                match t {
                    Some(t) => {
                        let ghost e = (i as u32, t);
                        self.retired.push((frame, t));
                        self.free.push(i as u32);
                        proof {
                            assert(unused(s0.take(i + 1), live@) == u.push(e));
                            assert(u.push(e).map_values(|e: (u32, T)| e.0) =~= u.map_values(|e: (u32, T)| e.0).push(i as u32));
                            assert(u.push(e).map_values(|e: (u32, T)| (frame, e.1)) =~= u.map_values(
                                |e: (u32, T)| (frame, e.1),
                            ).push((frame, t)));
                        }
                    },
                    None => {},
                }
            } else {
                proof {
                    assert(unused(s0.take(i + 1), live@) == u);
                }
            }
            proof {
                let u1 = unused(s0.take(i + 1), live@);
                assert forall|q: int| 0 <= q < u1.len() implies (#[trigger] u1[q].0 as int) < i + 1 by {
                    if q < u.len() {
                        assert(u1[q] == u[q]);
                    }
                }
                assert(u1.map_values(|e: (u32, T)| e.0).no_duplicates()) by {
                    let m = u1.map_values(|e: (u32, T)| e.0);
                    assert forall|a: int, b: int| 0 <= a < b < m.len() implies m[a] != m[b] by {
                        if b == u.len() && u1.len() > u.len() {
                            assert(u1[a] == u[a]);
                            assert((u[a].0 as int) < i);
                        } else {
                            assert(u1[a] == u[a] && u1[b] == u[b]);
                            assert(u.map_values(|e: (u32, T)| e.0)[a] != u.map_values(|e: (u32, T)| e.0)[b]);
                        }
                    }
                }
            }
            i = i + 1;
        }
        proof {
            assert(s0.take(n as int) =~= s0);
            let u = unused(s0, live@);
            let m = u.map_values(|e: (u32, T)| e.0);
            let fs = self.free@;
            assert forall|k: int| 0 <= k < fs.len() implies (#[trigger] fs[k] as int) < self.slots@.len() && self.slots@[fs[k] as int] is None by {
                if k < f0.len() {
                    assert(fs[k] == f0[k]);
                    let j = f0[k] as int;
                    if s0[j] is Some {
                    }
                } else {
                    let q = k - f0.len();
                    assert(fs[k] == m[q]);
                    assert(m[q] == u[q].0);
                    lemma_unused_member(s0, live@, q);
                }
            }
            assert forall|a: int, b: int| 0 <= a < b < fs.len() implies fs[a] != fs[b] by {
                if b < f0.len() {
                    assert(fs[a] == f0[a] && fs[b] == f0[b]);
                } else if a >= f0.len() {
                    assert(fs[a] == m[a - f0.len()] && fs[b] == m[b - f0.len()]);
                } else {
                    let q = b - f0.len();
                    assert(fs[b] == m[q] && m[q] == u[q].0);
                    lemma_unused_member(s0, live@, q);
                    assert(fs[a] == f0[a]);
                }
            }
        }
    }

    /// Hand back every retired texture that has expired by `frame` (the
    /// caller destroys them); the rest stay retired, in order.
    pub fn take_expired(&mut self, frame: u64) -> (gone: Vec<T>)
        requires
            old(self).wf(),
        ensures
            final(self).wf(),
            final(self).slots() == old(self).slots(),
            final(self).free() == old(self).free(),
            gone@ == expired_entries(old(self).retired(), frame),
            final(self).retired() == pending_entries(old(self).retired(), frame),
    {
        let ghost r0 = self.retired@;
        let mut kept: Vec<(u64, T)> = Vec::new();
        let mut gone: Vec<T> = Vec::new();
        let mut all = Vec::new();
        std::mem::swap(&mut all, &mut self.retired);
        proof {
            assert(r0.take(0) =~= Seq::<(u64, T)>::empty());
        }
        for e in it: all
            invariant
                it.seq() == r0,
                gone@ == expired_entries(r0.take(it.index() as int), frame),
                kept@ == pending_entries(r0.take(it.index() as int), frame),
        {
            proof {
                assert(r0.take(it.index() + 1).drop_last() =~= r0.take(it.index() as int));
            }
            let (at, t) = e;
            if frame > at && frame - at > FRAMES_IN_FLIGHT {
                gone.push(t);
            } else {
                kept.push((at, t));
            }
        }
        proof {
            assert(r0.take(r0.len() as int) =~= r0);
        }
        self.retired = kept;
        gone
    }

    /// Hand back every texture still held, occupied slots first (in id
    /// order), then the retired ones; the table ends up empty.
    pub fn take_all(&mut self) -> (all: Vec<T>)
        ensures
            final(self).wf(),
            final(self).slots() == Seq::<Option<T>>::empty(),
            final(self).free() == Seq::<u32>::empty(),
            final(self).retired() == Seq::<(u64, T)>::empty(),
            all@ == occupied(old(self).slots()) + old(self).retired().map_values(|e: (u64, T)| e.1),
    {
        let ghost s0 = self.slots@;
        let ghost r0 = self.retired@;
        let mut slots = Vec::new();
        std::mem::swap(&mut slots, &mut self.slots);
        let mut retired = Vec::new();
        std::mem::swap(&mut retired, &mut self.retired);
        self.free = Vec::new();
        let mut all: Vec<T> = Vec::new();
        proof {
            assert(s0.take(0) =~= Seq::<Option<T>>::empty());
        }
        for s in it: slots
            invariant
                it.seq() == s0,
                all@ == occupied(s0.take(it.index() as int)),
        {
            proof {
                assert(s0.take(it.index() + 1).drop_last() =~= s0.take(it.index() as int));
            }
            if let Some(t) = s {
                all.push(t);
            }
        }
        proof {
            assert(s0.take(s0.len() as int) =~= s0);
            assert(r0.take(0).map_values(|e: (u64, T)| e.1) =~= Seq::<T>::empty());
            assert(all@ + Seq::<T>::empty() =~= all@);
        }
        let ghost head = all@;
        for e in it: retired
            invariant
                it.seq() == r0,
                all@ == head + r0.take(it.index() as int).map_values(|e: (u64, T)| e.1),
        {
            proof {
                assert(r0.take(it.index() + 1).map_values(|e: (u64, T)| e.1) =~= r0.take(it.index() as int).map_values(
                    |e: (u64, T)| e.1,
                ).push(e.1));
            }
            let (_, t) = e;
            all.push(t);
        }
        proof {
            assert(r0.take(r0.len() as int) =~= r0);
        }
        all
    }
}

/// The textures in occupied slots, in id order.
pub open spec fn occupied<T>(slots: Seq<Option<T>>) -> Seq<T>
    decreases slots.len(),
{
    if slots.len() == 0 {
        Seq::empty()
    } else {
        match slots.last() {
            Some(t) => occupied(slots.drop_last()).push(t),
            None => occupied(slots.drop_last()),
        }
    }
}

/// An entry `unused` reports names an occupied slot whose id is not live.
proof fn lemma_unused_member<T>(slots: Seq<Option<T>>, live: Seq<u32>, q: int)
    requires
        0 <= q < unused(slots, live).len(),
        slots.len() <= u32::MAX + 1,
    ensures
        (unused(slots, live)[q].0 as int) < slots.len(),
        slots[unused(slots, live)[q].0 as int] == Some(unused(slots, live)[q].1),
        !live.contains(unused(slots, live)[q].0),
    decreases slots.len(),
{
    let i = slots.len() - 1;
    let rest = unused(slots.drop_last(), live);
    if q < rest.len() {
        lemma_unused_member(slots.drop_last(), live, q);
        match slots.last() {
            Some(t) => {
                if !live.contains(i as u32) {
                    assert(unused(slots, live)[q] == rest[q]);
                }
            },
            None => {},
        }
    }
}

/// A retired texture is released only after every frame that could still
/// sample it: the `k`-th texture `take_expired` hands back at `frame` is
/// the texture of a retired entry `j` stamped more than `FRAMES_IN_FLIGHT`
/// frames earlier.
pub proof fn law_released_were_expired<T>(r: Seq<(u64, T)>, frame: u64, k: int) -> (j: int)
    requires
        0 <= k < expired_entries(r, frame).len(),
    ensures
        0 <= j < r.len(),
        r[j].1 == expired_entries(r, frame)[k],
        expired(r[j].0, frame),
    decreases r.len(),
{
    let p = r.drop_last();
    if k < expired_entries(p, frame).len() {
        let j = law_released_were_expired(p, frame, k);
        assert(r[j] == p[j]);
        j
    } else {
        (r.len() - 1) as int
    }
}

/// Whatever `take_expired` keeps at `frame` may still be in use.
pub proof fn law_kept_not_expired<T>(r: Seq<(u64, T)>, frame: u64, k: int)
    requires
        0 <= k < pending_entries(r, frame).len(),
    ensures
        !expired(pending_entries(r, frame)[k].0, frame),
    decreases r.len(),
{
    let p = r.drop_last();
    if k < pending_entries(p, frame).len() {
        law_kept_not_expired(p, frame, k);
    }
}

} // verus!
