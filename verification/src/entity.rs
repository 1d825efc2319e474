use vstd::prelude::*;

verus! {

/// A handle to an entity: a slot id together with the generation of that slot at the time the
/// handle was created.
#[derive(Debug, PartialEq, Eq, Structural, Clone, Copy, Hash)]
pub struct Entity {
    id: u32,
    gen: u32,
}

impl Entity {
    /// The slot id of this handle.
    pub closed spec fn slot(self) -> u32 {
        self.id
    }

    /// The generation recorded in this handle.
    pub closed spec fn generation(self) -> u32 {
        self.gen
    }

    /// Handles with the same slot and generation are equal.
    pub proof fn lemma_eq(a: Entity, b: Entity)
        requires
            a.slot() == b.slot(),
            a.generation() == b.generation(),
        ensures
            a == b,
    {
    }

    /// The generation recorded in this handle.
    pub fn get_generation_unchecked(self) -> (gen: u32)
        ensures
            gen == self.generation(),
    {
        self.gen
    }

    /// Retrieves the id of `self` without checking if `self` is still alive. Most callers should
    /// use `Entities::id` instead.
    pub fn get_id_unchecked(self) -> (id: u32)
        ensures
            id == self.slot(),
    {
        self.id
    }
}


/// Hands out entity handles. Every slot id has a generation that grows by one each time the
/// entity in that slot is despawned, so a handle to a despawned entity never becomes valid again.
///
/// There can be at most `u32::MAX + 1` slots and every slot can be reused until its generation
/// reaches `u32::MAX`.
#[derive(Debug)]
pub struct Entities {
    generations: Vec<u32>,
    unused_ids: Vec<u32>,
}

impl Entities {
    /// The generation of every slot, indexed by slot id.
    pub closed spec fn gens(self) -> Seq<u32> {
        self.generations@
    }

    /// The currently unused slot ids, in the order in which they were freed.
    pub closed spec fn free(self) -> Seq<u32> {
        self.unused_ids@
    }

    /// `id` names a slot of this `Entities`.
    pub open spec fn valid_id(self, id: u32) -> bool {
        id < self.gens().len()
    }

    /// The slot `id` currently holds a living entity.
    pub open spec fn alive(self, id: u32) -> bool {
        self.valid_id(id) && !self.free().contains(id)
    }

    /// What `entity_exists` answers: the handle's generation is the current one of its slot.
    pub open spec fn spec_exists(self, e: Entity) -> bool {
        self.valid_id(e.slot()) && self.gens()[e.slot() as int] == e.generation()
    }

    /// `e` is a handle that could have been handed out by this `Entities`: its slot exists and,
    /// if its generation is the current one, the slot is not free.
    pub open spec fn owns(self, e: Entity) -> bool {
        &&& self.valid_id(e.slot())
        &&& self.spec_exists(e) ==> self.alive(e.slot())
    }

    /// `e` is a handle this `Entities` may have handed out: its slot exists, its generation is not
    /// ahead of its slot's, and if it is the current one the slot is in use. Every handle that
    /// `spawn` returns stays issued whatever is spawned or despawned later.
    pub open spec fn issued(self, e: Entity) -> bool {
        &&& self.valid_id(e.slot())
        &&& e.generation() <= self.gens()[e.slot() as int]
        &&& self.spec_exists(e) ==> self.alive(e.slot())
    }

    /// Generations never go back and slots are never taken away.
    pub open spec fn generations_grew(self, new: Entities) -> bool {
        &&& self.gens().len() <= new.gens().len()
        &&& forall|i: int| 0 <= i < self.gens().len() ==> self.gens()[i] <= #[trigger] new.gens()[i]
    }

    /// Internal consistency: free ids name existing slots and none is listed twice.
    pub open spec fn wf(self) -> bool {
        &&& self.gens().len() <= u32::MAX as nat + 1
        &&& forall|i: int| 0 <= i < self.free().len() ==> #[trigger] self.free()[i] < self.gens().len()
        &&& forall|i: int, j: int|
            0 <= i < j < self.free().len() ==> self.free()[i] != self.free()[j]
    }

    /// `new` is this `Entities` after a `spawn` that returned `e`.
    pub open spec fn spawn_post(self, new: Entities, e: Entity) -> bool {
        &&& new.wf()
        &&& !self.alive(e.slot())
        &&& new.alive(e.slot())
        &&& new.spec_exists(e)
        &&& new.issued(e)
        &&& self.generations_grew(new)
        &&& forall|x: Entity| self.issued(x) ==> #[trigger] new.issued(x)
        &&& self.free().len() > 0 ==> {
            &&& e.slot() == self.free().last()
            &&& e.generation() == self.gens()[e.slot() as int]
            &&& new.gens() == self.gens()
            &&& new.free() == self.free().drop_last()
        }
        &&& self.free().len() == 0 ==> {
            &&& e.slot() == self.gens().len()
            &&& e.generation() == 0
            &&& new.gens() == self.gens().push(0)
            &&& new.free() == self.free()
        }
    }

    /// `spawn` can hand out a handle: either a slot is free, or a new slot id still fits in `u32`.
    pub open spec fn can_spawn(self) -> bool {
        self.free().len() > 0 || self.gens().len() <= u32::MAX
    }

    /// Creates an empty set of entities.
    pub fn new() -> (s: Self)
        ensures
            s.wf(),
            s.gens() == Seq::<u32>::empty(),
            s.free() == Seq::<u32>::empty(),
    {
        Entities { generations: Vec::new(), unused_ids: Vec::new() }
    }

    /// Creates a new entity, reusing the most recently freed slot if there is one.
    /// # Time complexity
    /// *O*(1) (amortized).
    pub fn spawn(&mut self) -> (e: Entity)
        requires
            old(self).wf(),
            old(self).can_spawn(),
        ensures
            old(self).spawn_post(*final(self), e),
    {
        if let Some(id) = self.unused_ids.pop() {
            let gen = self.generations[id as usize];
            proof {
                let f = old(self).free();
                assert(f[f.len() - 1] == id);
                assert forall|x: u32| f.drop_last().contains(x) implies x != id by {
                    let k = choose|k: int| 0 <= k < f.drop_last().len() && f.drop_last()[k] == x;
                    assert(f[k] == x);
                }
            }
            Entity { id, gen }
        } else {
            Entity { id: self.create_new_id(), gen: 0 }
        }
    }

    fn create_new_id(&mut self) -> (id: u32)
        requires
            old(self).wf(),
            old(self).free().len() == 0,
            old(self).gens().len() <= u32::MAX,
        ensures
            final(self).wf(),
            id == old(self).gens().len(),
            final(self).gens() == old(self).gens().push(0),
            final(self).free() == old(self).free(),
    {
        let id = self.generations.len() as u32;
        self.generations.push(0);
        id
    }

    /// Returns `true` if `entity` was despawned and `false` if `entity` had been despawned
    /// previously.
    pub fn despawn(&mut self, entity: Entity) -> (despawned: bool)
        requires
            old(self).wf(),
            old(self).owns(entity),
            old(self).spec_exists(entity) ==> entity.generation() < u32::MAX,
        ensures
            final(self).wf(),
            despawned == old(self).spec_exists(entity),
            old(self).generations_grew(*final(self)),
            forall|x: Entity| old(self).issued(x) ==> #[trigger] final(self).issued(x),
            despawned ==> {
                &&& final(self).gens() == old(self).gens().update(
                    entity.slot() as int,
                    (entity.generation() + 1) as u32,
                )
                &&& final(self).free() == old(self).free().push(entity.slot())
            },
            !despawned ==> final(self).gens() == old(self).gens() && final(self).free()
                == old(self).free(),
    {
        match self.id(entity) {
            Some(id) => {
                self.despawn_unchecked(id);
                true
            },
            None => false,
        }
    }

    /// Despawns the entity in slot `id` without looking at any handle's generation.
    pub fn despawn_unchecked(&mut self, id: u32)
        requires
            old(self).wf(),
            old(self).alive(id),
            old(self).gens()[id as int] < u32::MAX,
        ensures
            final(self).wf(),
            final(self).gens() == old(self).gens().update(
                id as int,
                (old(self).gens()[id as int] + 1) as u32,
            ),
            final(self).free() == old(self).free().push(id),
            old(self).generations_grew(*final(self)),
            forall|x: Entity| old(self).issued(x) ==> #[trigger] final(self).issued(x),
    {
        let gen = self.generations[id as usize];
        self.generations.set(id as usize, gen + 1);
        self.unused_ids.push(id);
        proof {
            let f = old(self).free();
            assert forall|i: int, j: int|
                0 <= i < j < self.free().len() implies self.free()[i] != self.free()[j] by {
                if j == f.len() {
                    assert(self.free()[i] == f[i]);
                    assert(f.contains(f[i]));
                }
            }
        }
    }

    /// The number of slots, used or free.
    pub fn slot_count(&self) -> (n: usize)
        ensures
            n == self.gens().len(),
    {
        self.generations.len()
    }

    /// The number of free slots.
    pub fn free_count(&self) -> (n: usize)
        ensures
            n == self.free().len(),
    {
        self.unused_ids.len()
    }

    /// Indicates whether `entity` still is alive.
    /// # Time complexity
    /// *O*(1)
    pub fn entity_exists(&self, entity: Entity) -> (b: bool)
        requires
            self.valid_id(entity.slot()),
        ensures
            b == self.spec_exists(entity),
    {
        self.generations[entity.id as usize] == entity.gen
    }

    /// The current generation of slot `id`.
    pub fn slot_generation(&self, id: u32) -> (g: u32)
        requires
            self.valid_id(id),
        ensures
            g == self.gens()[id as int],
    {
        self.generations[id as usize]
    }

    /// Whether slot `id` is free.
    /// # Time complexity
    /// *O*(number of free slots)
    pub fn is_free(&self, id: u32) -> (b: bool)
        ensures
            b == self.free().contains(id),
    {
        let n = self.unused_ids.len();
        let mut k: usize = 0;
        while k < n
            invariant
                n == self.free().len(),
                k <= n,
                forall|j: int| 0 <= j < k ==> self.free()[j] != id,
            decreases n - k,
        {
            if self.unused_ids[k] == id {
                return true;
            }
            k = k + 1;
        }
        false
    }

    /// Whether `entity` is a handle that could have been handed out by this `Entities` (see
    /// `owns`): its slot exists and, if its generation is the current one, the slot is in use.
    pub fn owns_handle(&self, entity: Entity) -> (b: bool)
        ensures
            b == self.owns(entity),
    {
        if entity.id as usize >= self.generations.len() {
            return false;
        }
        if self.entity_exists(entity) {
            !self.is_free(entity.id)
        } else {
            true
        }
    }

    /// Returns the slot id of `entity` if `entity` is still alive.
    pub fn id(&self, entity: Entity) -> (r: Option<u32>)
        requires
            self.valid_id(entity.slot()),
        ensures
            r == (if self.spec_exists(entity) { Some(entity.slot()) } else { None::<u32> }),
    {
        if self.entity_exists(entity) {
            Some(entity.id)
        } else {
            None
        }
    }
}

impl Entities {
    /// Marks, for every slot, whether it is currently free.
    fn free_marks(&self) -> (marks: Vec<bool>)
        requires
            self.wf(),
        ensures
            marks@.len() == self.gens().len(),
            forall|i: int| 0 <= i < marks@.len() ==> (#[trigger] marks@[i] <==> self.free().contains(i as u32)),
    {
        let n = self.generations.len();
        let mut marks: Vec<bool> = Vec::new();
        let mut i: usize = 0;
        while i < n
            invariant
                n == self.gens().len(),
                i <= n,
                marks@.len() == i,
                forall|j: int| 0 <= j < i ==> !#[trigger] marks@[j],
            decreases n - i,
        {
            marks.push(false);
            i = i + 1;
        }
        let m = self.unused_ids.len();
        let mut k: usize = 0;
        while k < m
            invariant
                self.wf(),
                n == self.gens().len(),
                m == self.free().len(),
                k <= m,
                marks@.len() == n,
                forall|j: int|
                    0 <= j < n ==> (#[trigger] marks@[j] <==> exists|x: int|
                        0 <= x < k && self.free()[x] == j),
            decreases m - k,
        {
            let id = self.unused_ids[k];
            assert(self.free()[k as int] < self.gens().len());
            marks.set(id as usize, true);
            proof {
                assert forall|j: int| 0 <= j < n implies (#[trigger] marks@[j] <==> exists|x: int|
                    0 <= x < k + 1 && self.free()[x] == j) by {
                    if j == id as int {
                        assert(self.free()[k as int] == j);
                    } else if marks@[j] {
                        let x = choose|x: int| 0 <= x < k && self.free()[x] == j;
                        assert(0 <= x < k + 1 && self.free()[x] == j);
                    }
                }
            }
            k = k + 1;
        }
        proof {
            assert forall|i: int| 0 <= i < marks@.len() implies (#[trigger] marks@[i]
                <==> self.free().contains(i as u32)) by {
                if self.free().contains(i as u32) {
                    let x = choose|x: int| 0 <= x < self.free().len() && self.free()[x] == i as u32;
                    assert(self.free()[x] == i);
                }
                if marks@[i] {
                    let x = choose|x: int| 0 <= x < m && self.free()[x] == i;
                    assert(self.free()[x] == i as u32);
                }
            }
        }
        marks
    }

    /// All currently alive entities, in order of increasing slot id.
    ///
    /// # Time complexity
    /// *O*(*n* + *u*) where *n* is the number of slots and *u* the amount of currently unused
    /// entity ids.
    pub fn iter(&self) -> (r: Vec<Entity>)
        requires
            self.wf(),
        ensures
            forall|i: int|
                0 <= i < r@.len() ==> self.alive(#[trigger] r@[i].slot()) && self.spec_exists(r@[i]),
            forall|i: int, j: int| 0 <= i < j < r@.len() ==> r@[i].slot() < r@[j].slot(),
            forall|id: u32| self.alive(id) ==> exists|i: int| 0 <= i < r@.len() && #[trigger] r@[i].slot() == id,
    {
        let marks = self.free_marks();
        let n = self.generations.len();
        let mut r: Vec<Entity> = Vec::new();
        let mut i: usize = 0;
        while i < n
            invariant
                self.wf(),
                n == self.gens().len(),
                i <= n,
                marks@.len() == n,
                forall|j: int| 0 <= j < n ==> (#[trigger] marks@[j] <==> self.free().contains(j as u32)),
                forall|k: int|
                    0 <= k < r@.len() ==> self.alive(#[trigger] r@[k].slot()) && self.spec_exists(r@[k]) && r@[k].slot() < i,
                forall|k: int, l: int| 0 <= k < l < r@.len() ==> r@[k].slot() < r@[l].slot(),
                forall|id: u32| id < i && self.alive(id) ==> exists|k: int| 0 <= k < r@.len() && #[trigger] r@[k].slot() == id,
            decreases n - i,
        {
            let ghost old_r = r@;
            if !marks[i] {
                let e = Entity { id: i as u32, gen: self.generations[i] };
                r.push(e);
            }
            proof {
                assert forall|id: u32| id < i + 1 && self.alive(id) implies exists|k: int|
                    0 <= k < r@.len() && #[trigger] r@[k].slot() == id by {
                    if id < i {
                        let k = choose|k: int| 0 <= k < old_r.len() && #[trigger] old_r[k].slot() == id;
                        assert(r@[k] == old_r[k]);
                    } else {
                        assert(r@[r@.len() - 1].slot() == id);
                    }
                }
            }
            i = i + 1;
        }
        r
    }
}

/// The index pair `(x, y)` occurs in `idx`.
spec fn listed(idx: Seq<(int, int)>, x: int, y: int) -> bool {
    exists|k: int| 0 <= k < idx.len() && #[trigger] idx[k] == (x, y)
}

impl Entities {
    /// All pairs of distinct currently alive entities, the one with the smaller slot id first.
    /// If `(A, B)` is in the result then `(B, A)` is not. Pairs are ordered lexicographically by
    /// slot ids.
    pub fn iter_combinations(&self) -> (r: Vec<(Entity, Entity)>)
        requires
            self.wf(),
        ensures
            forall|k: int|
                0 <= k < r@.len() ==> {
                    &&& self.alive((#[trigger] r@[k]).0.slot())
                    &&& self.spec_exists(r@[k].0)
                    &&& self.alive(r@[k].1.slot())
                    &&& self.spec_exists(r@[k].1)
                    &&& r@[k].0.slot() < r@[k].1.slot()
                },
            forall|k: int, l: int|
                0 <= k < l < r@.len() ==> (#[trigger] r@[k]).0.slot() < (#[trigger] r@[l]).0.slot()
                    || (r@[k].0.slot() == r@[l].0.slot() && r@[k].1.slot() < r@[l].1.slot()),
            forall|x: u32, y: u32|
                self.alive(x) && self.alive(y) && x < y ==> exists|k: int|
                    0 <= k < r@.len() && (#[trigger] r@[k]).0.slot() == x && r@[k].1.slot() == y,
    {
        let v = self.iter();
        let n = v.len();
        let mut r: Vec<(Entity, Entity)> = Vec::new();
        let ghost mut idx: Seq<(int, int)> = Seq::empty();
        let mut a: usize = 0;
        while a < n
            invariant
                n == v@.len(),
                a <= n,
                forall|i: int, j: int| 0 <= i < j < v@.len() ==> v@[i].slot() < v@[j].slot(),
                idx.len() == r@.len(),
                forall|k: int|
                    0 <= k < idx.len() ==> {
                        &&& 0 <= (#[trigger] idx[k]).0 < idx[k].1 < n
                        &&& idx[k].0 < a
                        &&& r@[k] == (v@[idx[k].0], v@[idx[k].1])
                    },
                forall|k: int, l: int|
                    0 <= k < l < idx.len() ==> (#[trigger] idx[k]).0 < (#[trigger] idx[l]).0 || (
                    idx[k].0 == idx[l].0 && idx[k].1 < idx[l].1),
                forall|x: int, y: int|
                    0 <= x < y < n && x < a ==> #[trigger] listed(idx, x, y),
            decreases n - a,
        {
            let mut b: usize = a + 1;
            while b < n
                invariant
                    n == v@.len(),
                    a < n,
                    a < b <= n,
                    idx.len() == r@.len(),
                    forall|k: int|
                        0 <= k < idx.len() ==> {
                            &&& 0 <= (#[trigger] idx[k]).0 < idx[k].1 < n
                            &&& (idx[k].0 < a || (idx[k].0 == a && idx[k].1 < b))
                            &&& r@[k] == (v@[idx[k].0], v@[idx[k].1])
                        },
                    forall|k: int, l: int|
                        0 <= k < l < idx.len() ==> (#[trigger] idx[k]).0 < (#[trigger] idx[l]).0 || (
                        idx[k].0 == idx[l].0 && idx[k].1 < idx[l].1),
                    forall|x: int, y: int|
                        0 <= x < y < n && (x < a || (x == a && y < b)) ==> #[trigger] listed(idx, x, y),
                decreases n - b,
            {
                let ghost old_idx = idx;
                r.push((v[a], v[b]));
                proof {
                    idx = idx.push((a as int, b as int));
                    assert forall|x: int, y: int|
                        0 <= x < y < n && (x < a || (x == a && y < b + 1)) implies #[trigger] listed(idx, x, y) by {
                        if x == a && y == b {
                            assert(idx[idx.len() - 1] == (x, y));
                        } else {
                            assert(listed(old_idx, x, y));
                            let k = choose|k: int| 0 <= k < old_idx.len() && #[trigger] old_idx[k] == (x, y);
                            assert(idx[k] == old_idx[k]);
                        }
                    }
                }
                b = b + 1;
            }
            a = a + 1;
        }
        proof {
            assert forall|x: u32, y: u32|
                self.alive(x) && self.alive(y) && x < y implies exists|k: int|
                    0 <= k < r@.len() && (#[trigger] r@[k]).0.slot() == x && r@[k].1.slot() == y by {
                let i = choose|i: int| 0 <= i < v@.len() && #[trigger] v@[i].slot() == x;
                let j = choose|j: int| 0 <= j < v@.len() && #[trigger] v@[j].slot() == y;
                if j <= i {
                    if j < i {
                        assert(v@[j].slot() < v@[i].slot());
                    }
                    assert(false);
                }
                assert(listed(idx, i, j));
                let k = choose|k: int| 0 <= k < idx.len() && #[trigger] idx[k] == (i, j);
                assert(r@[k] == (v@[i], v@[j]));
            }
            assert forall|k: int, l: int|
                0 <= k < l < r@.len() implies (#[trigger] r@[k]).0.slot() < (#[trigger] r@[l]).0.slot()
                    || (r@[k].0.slot() == r@[l].0.slot() && r@[k].1.slot() < r@[l].1.slot()) by {
                assert(idx[k].0 < idx[l].0 || (idx[k].0 == idx[l].0 && idx[k].1 < idx[l].1));
                if idx[k].0 < idx[l].0 {
                    assert(v@[idx[k].0].slot() < v@[idx[l].0].slot());
                } else if idx[k].1 < idx[l].1 {
                    assert(v@[idx[k].1].slot() < v@[idx[l].1].slot());
                }
            }
            assert forall|k: int| 0 <= k < r@.len() implies {
                &&& self.alive((#[trigger] r@[k]).0.slot())
                &&& self.spec_exists(r@[k].0)
                &&& self.alive(r@[k].1.slot())
                &&& self.spec_exists(r@[k].1)
                &&& r@[k].0.slot() < r@[k].1.slot()
            } by {
                assert(v@[idx[k].0].slot() < v@[idx[k].1].slot());
                assert(self.alive(v@[idx[k].0].slot()));
                assert(self.alive(v@[idx[k].1].slot()));
            }
        }
        r
    }
}

impl Default for Entities {
    fn default() -> (s: Self)
        ensures
            s.wf(),
            s.gens() == Seq::<u32>::empty(),
            s.free() == Seq::<u32>::empty(),
    {
        Entities::new()
    }
}

} // verus!
