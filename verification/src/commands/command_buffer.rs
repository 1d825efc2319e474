use vstd::prelude::*;
use crate::commands::command::{command_ok, command_step, Command};
use crate::entity::Entity;
use crate::world::{all_unborrowed, World};

verus! {

/// Commands waiting to be carried out, in the order in which they were issued.
#[derive(Debug)]
pub struct CommandBuffer<V> {
    commands: Vec<Command<V>>,
}

impl<V> CommandBuffer<V> {
    /// The commands waiting in the buffer, oldest first.
    pub closed spec fn spec_commands(&self) -> Seq<Command<V>> {
        self.commands@
    }

    pub fn new() -> (b: Self)
        ensures
            b.spec_commands() == Seq::<Command<V>>::empty(),
    {
        CommandBuffer { commands: Vec::new() }
    }

    /// Add a command to the buffer.
    pub fn add(&mut self, command: Command<V>)
        ensures
            final(self).spec_commands() == old(self).spec_commands().push(command),
    {
        self.commands.push(command);
    }
}

/// Allows commands to be issued while the world is in use, by deferring them until the buffer is
/// applied. Entities are spawned at once.
pub struct Commands<'b, 'w, V> {
    pub buffer: &'b mut CommandBuffer<V>,
    pub world: &'w mut World<V>,
}

impl<'b, 'w, V> Commands<'b, 'w, V> {
    /// The commands issued to the buffer so far.
    pub open spec fn pending(&self) -> Seq<Command<V>> {
        self.buffer.spec_commands()
    }

    /// Creates a wrapper for issuing commands to `buffer`. They are carried out when the buffer
    /// is applied.
    pub fn new(buffer: &'b mut CommandBuffer<V>, world: &'w mut World<V>) -> (c: Self)
        ensures
            *c.buffer == *old(buffer),
            *c.world == *old(world),
            *final(c.buffer) == *final(buffer),
            *final(c.world) == *final(world),
    {
        Self { buffer, world }
    }

    /// Creates a new entity at once. See `Entities::spawn`.
    pub fn spawn(&mut self) -> (e: Entity)
        requires
            old(self).world.wf(),
            old(self).world.can_spawn(),
        ensures
            final(self).world.wf(),
            old(self).world.spec_entities().spawn_post(final(self).world.spec_entities(), e),
            final(self).world.registry() == old(self).world.registry(),
            final(self).world.holder() == old(self).world.holder(),
            *final(self).buffer == *old(self).buffer,
            *final(final(self).buffer) == *final(old(self).buffer),
            *final(final(self).world) == *final(old(self).world),
    {
        self.world.spawn()
    }

    /// Despawns an entity, removing its components (if any), once the buffer is applied.
    pub fn despawn(&mut self, entity: Entity)
        ensures
            final(self).pending() == old(self).pending().push(Command::Despawn(entity)),
            *final(self).world == *old(self).world,
            *final(final(self).buffer) == *final(old(self).buffer),
            *final(final(self).world) == *final(old(self).world),
    {
        self.buffer.add(Command::Despawn(entity));
    }

    /// Adds a component to an entity once the buffer is applied. If no kind of component is
    /// registered for `type_key` by then, one is registered under `name`. If `entity` exists and
    /// already has a component of this kind, the old component is dropped and replaced.
    pub fn add(&mut self, entity: Entity, type_key: u64, name: String, component: V)
        ensures
            final(self).pending() == old(self).pending().push(
                Command::AddComponent { entity, type_key, name, component },
            ),
            *final(self).world == *old(self).world,
            *final(final(self).buffer) == *final(old(self).buffer),
            *final(final(self).world) == *final(old(self).world),
    {
        self.buffer.add(Command::AddComponent { entity, type_key, name, component });
    }
}

/// `worlds` are the states of a world while the commands `cmds` are carried out in order: it
/// starts with `start` and each state follows from the one before by the next command.
pub open spec fn command_trace<V>(start: World<V>, cmds: Seq<Command<V>>, worlds: Seq<World<V>>) -> bool {
    &&& worlds.len() == cmds.len() + 1
    &&& worlds[0] == start
    &&& forall|i: int| 0 <= i < cmds.len() ==> command_step(#[trigger] worlds[i], cmds[i], worlds[i + 1])
}

/// `end` is `start` after carrying out the commands `cmds` in order.
pub open spec fn commands_applied<V>(start: World<V>, cmds: Seq<Command<V>>, end: World<V>) -> bool {
    exists|worlds: Seq<World<V>>| #[trigger] command_trace(start, cmds, worlds) && worlds.last() == end
}

/// Carrying out one more command extends a run of commands.
pub proof fn lemma_applied_push<V>(w: World<V>, cmds: Seq<Command<V>>, mid: World<V>, c: Command<V>, w2: World<V>)
    requires
        commands_applied(w, cmds, mid),
        command_step(mid, c, w2),
    ensures
        commands_applied(w, cmds.push(c), w2),
{
    let ws = choose|worlds: Seq<World<V>>| #[trigger] command_trace(w, cmds, worlds) && worlds.last() == mid;
    let ws2 = ws.push(w2);
    let cs2 = cmds.push(c);
    assert forall|i: int| 0 <= i < cs2.len() implies command_step(#[trigger] ws2[i], cs2[i], ws2[i + 1]) by {
        if i < cmds.len() {
            assert(ws2[i] == ws[i] && ws2[i + 1] == ws[i + 1] && cs2[i] == cmds[i]);
            assert(command_step(ws[i], cmds[i], ws[i + 1]));
        } else {
            assert(ws2[i] == mid);
        }
    }
    assert(command_trace(w, cs2, ws2));
}

/// Carrying out no commands changes nothing.
pub proof fn lemma_applied_nothing<V>(w: World<V>, w2: World<V>)
    requires
        commands_applied(w, Seq::<Command<V>>::empty(), w2),
    ensures
        w2 == w,
{
    let ws = choose|worlds: Seq<World<V>>| #[trigger] command_trace(w, Seq::<Command<V>>::empty(), worlds) && worlds.last() == w2;
    assert(ws.len() == 1);
}

/// The number of kinds of components that carrying out `cmds` registers when the type keys in
/// `keys` are already registered.
pub open spec fn new_key_count<V>(keys: Set<u64>, cmds: Seq<Command<V>>) -> nat
    decreases cmds.len(),
{
    if cmds.len() == 0 {
        0
    } else {
        match cmds[0] {
            Command::AddComponent { type_key, .. } => if keys.contains(type_key) {
                new_key_count(keys, cmds.drop_first())
            } else {
                1 + new_key_count(keys.insert(type_key), cmds.drop_first())
            },
            _ => new_key_count(keys, cmds.drop_first()),
        }
    }
}

/// Whether `key` occurs in `keys`.
fn contains_key(keys: &Vec<u64>, key: u64) -> (b: bool)
    ensures
        b == keys@.contains(key),
{
    let mut i: usize = 0;
    while i < keys.len()
        invariant
            i <= keys.len(),
            forall|j: int| 0 <= j < i ==> keys@[j] != key,
        decreases keys.len() - i,
    {
        if keys[i] == key {
            return true;
        }
        i = i + 1;
    }
    false
}

/// `c` despawns a handle to slot `s` that exists in `w`.
pub open spec fn despawns_live<V>(w: World<V>, c: Command<V>, s: u32) -> bool {
    match c {
        Command::Despawn(x) => x.slot() == s && w.spec_entities().spec_exists(x),
        _ => false,
    }
}

/// One of the first `k` commands of `cmds` despawns a handle to slot `s` that exists in `w`.
pub open spec fn despawned_before<V>(w: World<V>, cmds: Seq<Command<V>>, k: int, s: u32) -> bool {
    exists|j: int| 0 <= j < k && #[trigger] despawns_live(w, cmds[j], s)
}

/// Every command of `cmds` can be carried out in order, starting from `w`, without a panic and
/// without listing a slot as free twice: the entities they name have slots in `w`, a handle whose
/// generation is the current one names a slot in use and is not at the generation limit, no
/// handle to a slot comes after the despawn of that slot's living entity with the generation the
/// slot then gets, and the kinds of components they register fit in the registry.
pub open spec fn commands_ok<V>(w: World<V>, cmds: Seq<Command<V>>) -> bool {
    &&& forall|i: int| 0 <= i < cmds.len() ==> #[trigger] command_ok_in(w, cmds, i)
    &&& w.registry().spec_len() + new_key_count(w.registry().keys().dom(), cmds) <= u16::MAX as nat + 1
}

/// What `commands_ok` asks of the entity named by the `i`-th command of `cmds`.
pub open spec fn command_ok_in<V>(w: World<V>, cmds: Seq<Command<V>>, i: int) -> bool {
    match cmds[i] {
        Command::Despawn(e) => {
            &&& w.spec_entities().owns(e)
            &&& w.spec_entities().spec_exists(e) ==> e.generation() < u32::MAX
            &&& despawned_before(w, cmds, i, e.slot()) ==> e.generation() != w.spec_entities().gens()[e.slot() as int] + 1
        },
        Command::AddComponent { entity, .. } => w.spec_entities().valid_id(entity.slot()),
    }
}

/// Slot `s` of `cur` is as in `start`, or its living entity was despawned by one of the first `k`
/// commands of `cmds`.
pub open spec fn slot_kept<V>(start: World<V>, cur: World<V>, cmds: Seq<Command<V>>, k: int, s: u32) -> bool {
    let g0 = start.spec_entities().gens()[s as int];
    let g = cur.spec_entities().gens()[s as int];
    ||| g == g0 && (cur.spec_entities().free().contains(s) <==> start.spec_entities().free().contains(s))
    ||| g == g0 + 1 && start.spec_entities().alive(s) && cur.spec_entities().free().contains(s)
        && despawned_before(start, cmds, k, s)
}

/// Every slot of `cur` is kept in the sense of `slot_kept`.
pub open spec fn slots_kept<V>(start: World<V>, cur: World<V>, cmds: Seq<Command<V>>, k: int) -> bool {
    &&& cur.spec_entities().gens().len() == start.spec_entities().gens().len()
    &&& forall|s: u32| s < start.spec_entities().gens().len() ==> #[trigger] slot_kept(start, cur, cmds, k, s)
}

proof fn lemma_command_ok_at<V>(start: World<V>, cmds: Seq<Command<V>>, k: int, cur: World<V>)
    requires
        commands_ok(start, cmds),
        0 <= k < cmds.len(),
        slots_kept(start, cur, cmds, k),
        cur.registry().spec_len() + new_key_count(cur.registry().keys().dom(), cmds.skip(k)) <= u16::MAX as nat + 1,
    ensures
        command_ok(cur, cmds[k]),
{
    assert(command_ok_in(start, cmds, k));
    match cmds[k] {
        Command::Despawn(e) => {
            assert(slot_kept(start, cur, cmds, k, e.slot()));
            assert(start.spec_entities().owns(e));
        },
        Command::AddComponent { entity, type_key, .. } => {
            assert(start.spec_entities().valid_id(entity.slot()));
            assert(cmds.skip(k)[0] == cmds[k]);
            if !cur.registry().keys().contains_key(type_key) {
                assert(!cur.registry().keys().dom().contains(type_key));
            }
        },
    }
}

proof fn lemma_step_keeps_slots<V>(start: World<V>, cmds: Seq<Command<V>>, k: int, pre: World<V>, post: World<V>)
    requires
        commands_ok(start, cmds),
        0 <= k < cmds.len(),
        slots_kept(start, pre, cmds, k),
        command_step(pre, cmds[k], post),
    ensures
        slots_kept(start, post, cmds, k + 1),
{
    assert(command_ok_in(start, cmds, k));
    assert forall|s: u32| s < start.spec_entities().gens().len() implies #[trigger] slot_kept(start, post, cmds, k + 1, s) by {
        assert(slot_kept(start, pre, cmds, k, s));
        if despawned_before(start, cmds, k, s) {
            let j = choose|j: int| 0 <= j < k && #[trigger] despawns_live(start, cmds[j], s);
            assert(despawns_live(start, cmds[j], s));
        }
        match cmds[k] {
            Command::Despawn(e) => {
                if pre.spec_entities().spec_exists(e) && e != pre.holder() {
                    if s == e.slot() {
                        assert(start.spec_entities().owns(e));
                        assert(despawns_live(start, cmds[k], s));
                        assert(post.spec_entities().free().last() == s);
                    } else {
                        let f = pre.spec_entities().free();
                        let f2 = post.spec_entities().free();
                        assert(f2 == f.push(e.slot()));
                        if f2.contains(s) {
                            let i = choose|i: int| 0 <= i < f2.len() && f2[i] == s;
                            assert(i < f.len() && f[i] == s);
                        }
                        if f.contains(s) {
                            let i = choose|i: int| 0 <= i < f.len() && f[i] == s;
                            assert(f2[i] == s);
                        }
                    }
                }
            },
            Command::AddComponent { .. } => {},
        }
    }
}

impl<V> CommandBuffer<V> {
    /// Whether one of the first `i` commands despawns a handle to slot `slot` that exists in
    /// `world`.
    fn despawns_before(&self, world: &World<V>, i: usize, slot: u32) -> (b: bool)
        requires
            world.wf(),
            i <= self.spec_commands().len(),
        ensures
            b == despawned_before(*world, self.spec_commands(), i as int, slot),
    {
        let mut j: usize = 0;
        while j < i
            invariant
                world.wf(),
                i <= self.spec_commands().len(),
                j <= i,
                forall|jj: int| 0 <= jj < j ==> !#[trigger] despawns_live(*world, self.spec_commands()[jj], slot),
            decreases i - j,
        {
            match &self.commands[j] {
                Command::Despawn(x) => {
                    if x.get_id_unchecked() == slot && (slot as usize) < world.entities().slot_count()
                        && world.entities().entity_exists(*x) {
                        assert(despawns_live(*world, self.spec_commands()[j as int], slot));
                        return true;
                    }
                },
                Command::AddComponent { .. } => {},
            }
            j = j + 1;
        }
        false
    }

    /// Whether the `i`-th command names an entity in the way `commands_ok` asks.
    fn command_ok_at(&self, world: &World<V>, i: usize) -> (b: bool)
        requires
            world.wf(),
            i < self.spec_commands().len(),
        ensures
            b == command_ok_in(*world, self.spec_commands(), i as int),
    {
        match &self.commands[i] {
            Command::Despawn(e) => {
                let entities = world.entities();
                if !entities.owns_handle(*e) {
                    return false;
                }
                let slot = e.get_id_unchecked();
                let gen = e.get_generation_unchecked();
                if entities.entity_exists(*e) && gen == u32::MAX {
                    return false;
                }
                let current = entities.slot_generation(slot);
                if current < u32::MAX && gen == current + 1 {
                    !self.despawns_before(world, i, slot)
                } else {
                    true
                }
            },
            Command::AddComponent { entity, .. } => entity.get_id_unchecked() < world.entities().slot_count() as u32
                || world.entities().slot_count() > u32::MAX as usize,
        }
    }

    /// Whether `apply` may carry out the commands on `world`: see `commands_ok`.
    pub fn can_apply(&self, world: &World<V>) -> (b: bool)
        requires
            world.wf(),
        ensures
            b == commands_ok(*world, self.spec_commands()),
    {
        let ghost cmds = self.spec_commands();
        let ghost keys0 = world.registry().keys().dom();
        let n = self.commands.len();
        let mut new_keys: Vec<u64> = Vec::new();
        let ghost mut seen: Set<u64> = keys0;
        let mut k: usize = 0;
        proof {
            assert(cmds.skip(0) =~= cmds);
        }
        while k < n
            invariant
                world.wf(),
                cmds == self.spec_commands(),
                keys0 == world.registry().keys().dom(),
                n == cmds.len(),
                k <= n,
                forall|j: int| 0 <= j < k ==> #[trigger] command_ok_in(*world, cmds, j),
                forall|key: u64| #[trigger] seen.contains(key) <==> (keys0.contains(key) || new_keys@.contains(key)),
                new_key_count(keys0, cmds) == new_keys.len() + new_key_count(seen, cmds.skip(k as int)),
                new_keys.len() <= k,
            decreases n - k,
        {
            if !self.command_ok_at(world, k) {
                return false;
            }
            proof {
                assert(cmds.skip(k as int)[0] == cmds[k as int]);
                assert(cmds.skip(k as int).drop_first() =~= cmds.skip(k + 1));
            }
            match &self.commands[k] {
                Command::AddComponent { type_key, .. } => {
                    let key = *type_key;
                    let registered = world.component_id(key).is_some();
                    if !registered && !contains_key(&new_keys, key) {
                        let ghost before = new_keys@;
                        new_keys.push(key);
                        proof {
                            assert(!seen.contains(key));
                            seen = seen.insert(key);
                            assert forall|x: u64| #[trigger] seen.contains(x) <==> (keys0.contains(x) || new_keys@.contains(x)) by {
                                if new_keys@.contains(x) {
                                    let i = choose|i: int| 0 <= i < new_keys@.len() && new_keys@[i] == x;
                                    if i < before.len() {
                                        assert(before[i] == x);
                                    }
                                }
                                if before.contains(x) {
                                    let i = choose|i: int| 0 <= i < before.len() && before[i] == x;
                                    assert(new_keys@[i] == x);
                                }
                                if x == key {
                                    assert(new_keys@[new_keys@.len() - 1] == key);
                                }
                            }
                        }
                    } else {
                        proof {
                            assert(seen.contains(key));
                        }
                    }
                },
                Command::Despawn(_) => {},
            }
            k = k + 1;
        }
        proof {
            assert(cmds.skip(n as int) =~= Seq::<Command<V>>::empty());
        }
        let count = new_keys.len();
        let len = world.component_registry().len();
        count <= 65536 && len <= 65536 - count
    }

}

impl<V> CommandBuffer<V> {
    /// Carries out all commands on `world`, oldest first, and clears the buffer.
    pub fn apply(&mut self, world: &mut World<V>)
        requires
            old(world).wf(),
            all_unborrowed(old(world).registry()),
            commands_ok(*old(world), old(self).spec_commands()),
        ensures
            final(self).spec_commands() == Seq::<Command<V>>::empty(),
            commands_applied(*old(world), old(self).spec_commands(), *final(world)),
            final(world).wf(),
            all_unborrowed(final(world).registry()),
    {
        let ghost cmds0 = self.commands@;
        let mut cmds: Vec<Command<V>> = Vec::new();
        std::mem::swap(&mut cmds, &mut self.commands);
        let n = cmds.len();
        let mut k: usize = 0;
        proof {
            assert(cmds0.take(0) =~= Seq::<Command<V>>::empty());
            assert(cmds0.skip(0) =~= cmds0);
            assert(command_trace(*world, cmds0.take(0), seq![*world]));
            assert(slots_kept(*world, *world, cmds0, 0));
        }
        while k < n
            invariant
                n == cmds0.len(),
                k <= n,
                cmds@ == cmds0.skip(k as int),
                self.commands@ == Seq::<Command<V>>::empty(),
                world.wf(),
                all_unborrowed(world.registry()),
                commands_applied(*old(world), cmds0.take(k as int), *world),
                commands_ok(*old(world), cmds0),
                old(world).spec_entities().generations_grew(world.spec_entities()),
                forall|x: Entity| old(world).spec_entities().issued(x) ==> #[trigger] world.spec_entities().issued(x),
                slots_kept(*old(world), *world, cmds0, k as int),
                world.registry().spec_len() + new_key_count(world.registry().keys().dom(), cmds0.skip(k as int))
                    <= u16::MAX as nat + 1,
            decreases n - k,
        {
            let c = cmds.remove(0);
            let ghost pre = *world;
            let ghost gc = c;
            proof {
                assert(c == cmds0[k as int]);
                assert(cmds0.skip(k as int).drop_first() =~= cmds0.skip(k + 1));
                lemma_command_ok_at(*old(world), cmds0, k as int, pre);
            }
            c.execute(world);
            proof {
                let t = cmds0.take(k + 1);
                assert(t.drop_last() =~= cmds0.take(k as int));
                assert(t.last() == gc);
                lemma_applied_push(*old(world), cmds0.take(k as int), pre, gc, *world);
                lemma_step_keeps_slots(*old(world), cmds0, k as int, pre, *world);
                assert(cmds0.take(k as int).push(gc) =~= t);
                match gc {
                    Command::Despawn(e) => {},
                    Command::AddComponent { entity, type_key, .. } => {
                        pre.registry().lemma_keys_valid();
                        if !pre.registry().keys().contains_key(type_key) {
                            assert(world.registry().keys().dom() =~= pre.registry().keys().dom().insert(type_key));
                        }
                    },
                }
            }
            k = k + 1;
        }
        proof {
            assert(cmds0.take(n as int) =~= cmds0);
        }
    }
}

} // verus!
