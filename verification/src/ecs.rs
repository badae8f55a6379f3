//! Generational-index entity store with per-component typed columns
//! and multi-component queries.
//!
//! An [`Entity`] is a pair `(id, generation)`. A handle is live iff
//! its id is in bounds of the allocator's generation table and its
//! generation equals the table entry. Deallocating bumps the table
//! entry, which invalidates every prior handle for that id, and
//! returns the id to a LIFO free pool for reuse.
use vstd::prelude::*;

use crate::error::Error;

verus! {

/// A generational handle identifying a logical object in the store.
#[derive(Debug, Clone, Copy, PartialEq, Eq, Hash, Structural)]
pub struct Entity {
    id: u64,
    generation: u64,
}

impl Entity {
    /// The id, as seen by specifications.
    pub closed spec fn spec_id(&self) -> u64 {
        self.id
    }

    /// The generation, as seen by specifications.
    pub closed spec fn spec_generation(&self) -> u64 {
        self.generation
    }

    pub fn new(id: u64, generation: u64) -> (e: Entity)
        ensures
            e.spec_id() == id,
            e.spec_generation() == generation,
    {
        Entity { id, generation }
    }

    /// Returns the id of the entity.
    #[verifier::when_used_as_spec(spec_id)]
    pub fn id(&self) -> (r: u64)
        ensures
            r == self.spec_id(),
    {
        self.id
    }

    /// Returns the generation of the entity.
    #[verifier::when_used_as_spec(spec_generation)]
    pub fn generation(&self) -> (r: u64)
        ensures
            r == self.spec_generation(),
    {
        self.generation
    }
}

impl Default for Entity {
    fn default() -> (e: Entity)
        ensures
            e.spec_id() == 0,
            e.spec_generation() == 0,
    {
        Entity { id: 0, generation: 0 }
    }
}

/// Owns the generation table (indexed by id) and the LIFO pool of
/// freed ids.
pub struct EntityAllocator {
    next_id: u64,
    generations: Vec<u64>,
    free_ids: Vec<u64>,
}

impl EntityAllocator {
    /// The generation table: entry `i` is the current generation of id `i`.
    pub closed spec fn gens(&self) -> Seq<u64> {
        self.generations@
    }

    /// The LIFO pool of freed ids; the last element is reused first.
    pub closed spec fn free(&self) -> Seq<u64> {
        self.free_ids@
    }

    /// Internal consistency: the fresh-id counter equals the table
    /// length and every pooled id is in bounds of the table.
    pub closed spec fn wf(&self) -> bool {
        &&& self.next_id == self.generations@.len()
        &&& forall|i: int|
            0 <= i < self.free_ids@.len() ==> (self.free_ids@[i] as int) < self.generations@.len()
    }

    /// A handle is live iff its id is in bounds and its generation is
    /// the current one.
    pub open spec fn live(&self, e: Entity) -> bool {
        &&& (e.spec_id() as int) < self.gens().len()
        &&& self.gens()[e.spec_id() as int] == e.spec_generation()
    }

    pub fn new() -> (a: EntityAllocator)
        ensures
            a.wf(),
            a.gens() == Seq::<u64>::empty(),
            a.free() == Seq::<u64>::empty(),
    {
        EntityAllocator { next_id: 0, generations: Vec::new(), free_ids: Vec::new() }
    }

    /// Allocates a new entity and returns a builder that can attach
    /// components to it.
    pub fn allocate(&mut self) -> (b: EntityBuilder)
        requires
            old(self).wf(),
            old(self).gens().len() < u64::MAX,
        ensures
            final(self).wf(),
            b.pending() == Seq::<Component>::empty(),
            allocate_post(*old(self), *final(self), b.entity()),
    {
        let entity = self.allocate_entity();
        EntityBuilder { entity, pending: Vec::new() }
    }

    /// Allocates an entity without any components: reuses the most
    /// recently freed id at its current generation, or appends a
    /// fresh id at generation 0.
    pub fn allocate_entity(&mut self) -> (e: Entity)
        requires
            old(self).wf(),
            old(self).gens().len() < u64::MAX,
        ensures
            final(self).wf(),
            allocate_post(*old(self), *final(self), e),
    {
        if let Some(id) = self.free_ids.pop() {
            let n = self.generations.len();
            proof {
                let pre = *old(self);
                assert(pre.free_ids@[pre.free_ids@.len() - 1] == id);
                assert((id as int) < n as int);
            }
            let generation = self.generations[id as usize];
            Entity::new(id, generation)
        } else {
            let id = self.next_id;
            self.next_id = id + 1;
            self.generations.push(0);
            Entity::new(id, 0)
        }
    }

    /// Deallocates an entity, making the id available for reuse.
    ///
    /// Fails with `EntityNotFound` iff the id is out of bounds of the
    /// generation table, and with `InvalidGeneration` iff the handle
    /// is stale; on success the generation is bumped by one and the
    /// id joins the free pool.
    pub fn deallocate(&mut self, entity: &Entity) -> (r: Result<(), Error>)
        requires
            old(self).wf(),
            entity.spec_generation() < u64::MAX,
        ensures
            final(self).wf(),
            deallocate_post(*old(self), *final(self), *entity, r),
    {
        let id = entity.id();

        if id >= self.generations.len() as u64 {
            return Err(Error::EntityNotFound(id));
        }

        if self.generations[id as usize] != entity.generation() {
            return Err(Error::InvalidGeneration(id));
        }

        let bumped = self.generations[id as usize] + 1;
        self.generations[id as usize] = bumped;
        self.free_ids.push(id);

        Ok(())
    }

    pub fn total_entities(&self) -> (n: usize)
        ensures
            n == self.gens().len(),
    {
        self.generations.len()
    }

    /// The current generation of an id, if the id has ever been
    /// allocated.
    pub fn generation_of(&self, id: u64) -> (r: Option<u64>)
        ensures
            match r {
                Some(g) => (id as int) < self.gens().len() && g == self.gens()[id as int],
                None => (id as int) >= self.gens().len(),
            },
    {
        if id < self.generations.len() as u64 {
            Some(self.generations[id as usize])
        } else {
            None
        }
    }
}

/// What allocation does: either the most recently freed id is reused
/// at its current generation, or a fresh id is appended at
/// generation 0. Either way the returned handle is live afterwards.
pub open spec fn allocate_post(pre: EntityAllocator, post: EntityAllocator, e: Entity) -> bool {
    &&& if pre.free().len() > 0 {
        &&& e.spec_id() == pre.free().last()
        &&& e.spec_generation() == pre.gens()[e.spec_id() as int]
        &&& post.gens() == pre.gens()
        &&& post.free() == pre.free().drop_last()
    } else {
        &&& e.spec_id() == pre.gens().len()
        &&& e.spec_generation() == 0
        &&& post.gens() == pre.gens().push(0u64)
        &&& post.free() == pre.free()
    }
    &&& post.live(e)
}

/// What deallocation does: `EntityNotFound` iff the id is out of
/// bounds, `InvalidGeneration` iff the generation is stale (both
/// leave the allocator unchanged); on success the id's generation is
/// bumped by exactly one and the id is pushed onto the free pool.
pub open spec fn deallocate_post(
    pre: EntityAllocator,
    post: EntityAllocator,
    e: Entity,
    r: Result<(), Error>,
) -> bool {
    let id = e.spec_id();
    if id as int >= pre.gens().len() {
        &&& r == Err::<(), Error>(Error::EntityNotFound(id))
        &&& post.gens() == pre.gens()
        &&& post.free() == pre.free()
    } else if pre.gens()[id as int] != e.spec_generation() {
        &&& r == Err::<(), Error>(Error::InvalidGeneration(id))
        &&& post.gens() == pre.gens()
        &&& post.free() == pre.free()
    } else {
        &&& r == Ok::<(), Error>(())
        &&& post.gens() == pre.gens().update(id as int, (e.spec_generation() + 1) as u64)
        &&& post.free() == pre.free().push(id)
    }
}

/// Law: deallocation fails with `EntityNotFound` iff the id was
/// never allocated, with `InvalidGeneration` iff the handle is stale
/// (the id was deallocated since the handle was minted), and
/// succeeds iff the handle is live.
pub proof fn lemma_deallocate_outcome(
    pre: EntityAllocator,
    post: EntityAllocator,
    e: Entity,
    r: Result<(), Error>,
)
    requires
        deallocate_post(pre, post, e, r),
    ensures
        (r == Err::<(), Error>(Error::EntityNotFound(e.spec_id()))) <==> (e.spec_id() as int
            >= pre.gens().len()),
        (r == Err::<(), Error>(Error::InvalidGeneration(e.spec_id()))) <==> ((e.spec_id() as int)
            < pre.gens().len() && pre.gens()[e.spec_id() as int] != e.spec_generation()),
        (r == Ok::<(), Error>(())) <==> pre.live(e),
{
}

/// Law: deallocation never lowers any generation, and strictly
/// raises the generation of the freed id.
pub proof fn lemma_generation_monotonicity(
    pre: EntityAllocator,
    post: EntityAllocator,
    e: Entity,
)
    requires
        e.spec_generation() < u64::MAX,
        deallocate_post(pre, post, e, Ok(())),
    ensures
        post.gens().len() == pre.gens().len(),
        forall|j: int| 0 <= j < pre.gens().len() ==> post.gens()[j] >= pre.gens()[j],
        post.gens()[e.spec_id() as int] > pre.gens()[e.spec_id() as int],
{
    assert((e.spec_id() as int) < pre.gens().len());
}

/// Law: a successfully deallocated handle is dead, and stays dead
/// until a fresh allocation reuses its id: reuse returns the same id
/// with the generation bumped by exactly one.
pub proof fn lemma_entity_reuse(
    pre: EntityAllocator,
    mid: EntityAllocator,
    post: EntityAllocator,
    e1: Entity,
    e2: Entity,
)
    requires
        e1.spec_generation() < u64::MAX,
        deallocate_post(pre, mid, e1, Ok(())),
        allocate_post(mid, post, e2),
    ensures
        !mid.live(e1),
        e2.spec_id() == e1.spec_id(),
        e2.spec_generation() == e1.spec_generation() + 1,
        !post.live(e1),
{
}

/// Accumulates components for a freshly allocated entity; `build`
/// writes them into a component store and yields the handle.
pub struct EntityBuilder {
    entity: Entity,
    pending: Vec<Component>,
}

impl EntityBuilder {
    /// The entity the builder was created for.
    pub closed spec fn entity(&self) -> Entity {
        self.entity
    }

    /// The components queued so far, in insertion order.
    pub closed spec fn pending(&self) -> Seq<Component> {
        self.pending@
    }

    /// Queues one more component; a later component of the same kind
    /// overwrites an earlier one when the builder is built.
    pub fn with(self, component: Component) -> (r: Self)
        ensures
            r.entity() == self.entity(),
            r.pending() == self.pending().push(component),
    {
        let mut b = self;
        b.pending.push(component);
        b
    }

    /// Writes the queued components into `storage` (later queue
    /// entries of a kind overwrite earlier ones) and returns the
    /// entity handle.
    pub fn build(self, storage: &mut ComponentStorage) -> (e: Entity)
        requires
            self.entity().spec_id() < usize::MAX as u64,
        ensures
            e == self.entity(),
            forall|k: ComponentKind, i: int|
                #[trigger] final(storage).comp_at(k, i) == if i == self.entity().spec_id() as int
                    && pending_at(self.pending(), k) is Some {
                    pending_at(self.pending(), k)
                } else {
                    old(storage).comp_at(k, i)
                },
    {
        let EntityBuilder { entity, pending } = self;
        let ghost all = pending@;
        let mut rest = pending;
        while rest.len() > 0
            invariant
                rest@.len() <= all.len(),
                rest@ == all.skip(all.len() - rest@.len()),
                entity.spec_id() < usize::MAX as u64,
                forall|k: ComponentKind, i: int|
                    #[trigger] storage.comp_at(k, i) == if i == entity.spec_id() as int
                        && pending_at(all.take(all.len() - rest@.len()), k) is Some {
                        pending_at(all.take(all.len() - rest@.len()), k)
                    } else {
                        old(storage).comp_at(k, i)
                    },
            decreases rest@.len(),
        {
            let ghost j = all.len() - rest@.len();
            let c = rest.remove(0);
            proof {
                assert(c == all[j]);
                assert(rest@ =~= all.skip(j + 1));
            }
            storage.insert(&entity, c);
            proof {
                let tj = all.take(j + 1);
                assert(tj.drop_last() =~= all.take(j));
                assert(tj.last() == all[j]);
            }
        }
        proof {
            assert(all.take(all.len() as int) =~= all);
        }
        entity
    }
}

/// The last queued component of kind `k`, if any: the one that wins
/// when a builder is built.
pub open spec fn pending_at(pending: Seq<Component>, k: ComponentKind) -> Option<Component>
    decreases pending.len(),
{
    if pending.len() == 0 {
        None
    } else if kind_of(pending.last()) == k {
        Some(pending.last())
    } else {
        pending_at(pending.drop_last(), k)
    }
}

/// Marks a connected, named player.
#[derive(Debug, Clone)]
pub struct Player {
    pub username: String,
}

/// Keep-alive bookkeeping: `data` is the integer carried by the next
/// keep-alive packet, `last_sent` the timestamp (milliseconds) of
/// the last send.
#[derive(Debug, Clone, Copy, PartialEq, Eq, Structural)]
pub struct KeepAlive {
    pub data: u64,
    pub last_sent: u64,
}

/// A shared handle to the entity's connection, identified by the
/// process-unique connection id.
#[derive(Debug, Clone, Copy, PartialEq, Eq, Structural)]
pub struct ConnectionWrapper {
    pub conn_id: u64,
}

/// Block position of an entity.
#[derive(Debug, Clone, Copy, PartialEq, Eq, Structural)]
pub struct Position {
    pub x: i32,
    pub y: i32,
    pub z: i32,
}

/// Facing of an entity, in hundredths of a degree.
#[derive(Debug, Clone, Copy, PartialEq, Eq, Structural)]
pub struct Rotation {
    pub yaw: i32,
    pub pitch: i32,
}

/// A component value of any of the supported kinds.
#[derive(Debug, Clone)]
pub enum Component {
    Player(Player),
    KeepAlive(KeepAlive),
    ConnectionWrapper(ConnectionWrapper),
    Position(Position),
    Rotation(Rotation),
}

/// The kind (column) a component value belongs to.
#[derive(Debug, Clone, Copy, PartialEq, Eq, Structural)]
pub enum ComponentKind {
    Player,
    KeepAlive,
    ConnectionWrapper,
    Position,
    Rotation,
}

/// The column a component value is stored in.
pub open spec fn kind_of(c: Component) -> ComponentKind {
    match c {
        Component::Player(_) => ComponentKind::Player,
        Component::KeepAlive(_) => ComponentKind::KeepAlive,
        Component::ConnectionWrapper(_) => ComponentKind::ConnectionWrapper,
        Component::Position(_) => ComponentKind::Position,
        Component::Rotation(_) => ComponentKind::Rotation,
    }
}

/// One sparse column per component kind, indexed by entity id.
pub struct ComponentStorage {
    players: Vec<Option<Player>>,
    keep_alives: Vec<Option<KeepAlive>>,
    connections: Vec<Option<ConnectionWrapper>>,
    positions: Vec<Option<Position>>,
    rotations: Vec<Option<Rotation>>,
}

/// Reads a sparse column: absent beyond the column's length.
pub open spec fn col_at<T>(col: Seq<Option<T>>, id: int) -> Option<T> {
    if 0 <= id < col.len() {
        col[id]
    } else {
        None
    }
}

impl ComponentStorage {
    /// The component of kind `k` stored for id `id`, if any.
    pub closed spec fn comp_at(&self, k: ComponentKind, id: int) -> Option<Component> {
        match k {
            ComponentKind::Player => match col_at(self.players@, id) {
                Some(v) => Some(Component::Player(v)),
                None => None,
            },
            ComponentKind::KeepAlive => match col_at(self.keep_alives@, id) {
                Some(v) => Some(Component::KeepAlive(v)),
                None => None,
            },
            ComponentKind::ConnectionWrapper => match col_at(self.connections@, id) {
                Some(v) => Some(Component::ConnectionWrapper(v)),
                None => None,
            },
            ComponentKind::Position => match col_at(self.positions@, id) {
                Some(v) => Some(Component::Position(v)),
                None => None,
            },
            ComponentKind::Rotation => match col_at(self.rotations@, id) {
                Some(v) => Some(Component::Rotation(v)),
                None => None,
            },
        }
    }

    /// Whether id `id` has a component of kind `k`.
    pub open spec fn has(&self, k: ComponentKind, id: int) -> bool {
        self.comp_at(k, id) is Some
    }

    /// Whether id `id` has a component of every kind in `kinds`.
    pub open spec fn matches(&self, kinds: Seq<ComponentKind>, id: u64) -> bool {
        forall|j: int| 0 <= j < kinds.len() ==> self.has(#[trigger] kinds[j], id as int)
    }

    /// An upper bound on ids that can have any component.
    pub closed spec fn cap(&self) -> int {
        max5(
            self.players@.len() as int,
            self.keep_alives@.len() as int,
            self.connections@.len() as int,
            self.positions@.len() as int,
            self.rotations@.len() as int,
        )
    }

    pub fn new() -> (s: ComponentStorage)
        ensures
            forall|k: ComponentKind, i: int| #[trigger] s.comp_at(k, i) is None,
    {
        ComponentStorage {
            players: Vec::new(),
            keep_alives: Vec::new(),
            connections: Vec::new(),
            positions: Vec::new(),
            rotations: Vec::new(),
        }
    }

    /// Stores `component` for `entity`'s id, overwriting a previous
    /// component of the same kind; every other slot is untouched.
    pub fn insert(&mut self, entity: &Entity, component: Component)
        requires
            entity.spec_id() < usize::MAX as u64,
        ensures
            forall|k: ComponentKind, i: int|
                #[trigger] final(self).comp_at(k, i) == if k == kind_of(component) && i
                    == entity.spec_id() as int {
                    Some(component)
                } else {
                    old(self).comp_at(k, i)
                },
    {
        let id = entity.id();
        match component {
            Component::Player(v) => col_put(&mut self.players, id, v),
            Component::KeepAlive(v) => col_put(&mut self.keep_alives, id, v),
            Component::ConnectionWrapper(v) => col_put(&mut self.connections, id, v),
            Component::Position(v) => col_put(&mut self.positions, id, v),
            Component::Rotation(v) => col_put(&mut self.rotations, id, v),
        }
    }

    /// Clears every column's slot for `entity`'s id; every other
    /// slot is untouched.
    pub fn remove_all(&mut self, entity: &Entity)
        ensures
            forall|k: ComponentKind, i: int|
                #[trigger] final(self).comp_at(k, i) == if i == entity.spec_id() as int {
                    None::<Component>
                } else {
                    old(self).comp_at(k, i)
                },
    {
        let id = entity.id();
        col_clear(&mut self.players, id);
        col_clear(&mut self.keep_alives, id);
        col_clear(&mut self.connections, id);
        col_clear(&mut self.positions, id);
        col_clear(&mut self.rotations, id);
    }

    /// Ids that have a component of every kind in `kinds`, in
    /// increasing order. For a non-empty filter the list is exactly
    /// the matching ids; iteration never reports an id absent from
    /// any named column.
    pub fn query(&self, kinds: &[ComponentKind]) -> (ids: Vec<u64>)
        ensures
            forall|a: int, b: int| 0 <= a < b < ids@.len() ==> ids@[a] < ids@[b],
            forall|j: int| 0 <= j < ids@.len() ==> self.matches(kinds@, #[trigger] ids@[j]),
            forall|j: int| 0 <= j < ids@.len() ==> #[trigger] ids@[j] < usize::MAX as u64,
            kinds@.len() > 0 ==> forall|id: u64|
                self.matches(kinds@, id) ==> ids@.contains(id),
    {
        let mut ids: Vec<u64> = Vec::new();
        if kinds.len() == 0 {
            return ids;
        }
        let cap = self.capacity();
        let mut id: usize = 0;
        while id < cap
            invariant
                kinds@.len() > 0,
                cap == self.cap(),
                id <= cap,
                forall|a: int, b: int| 0 <= a < b < ids@.len() ==> ids@[a] < ids@[b],
                forall|j: int| 0 <= j < ids@.len() ==> (ids@[j] as int) < id,
                forall|j: int| 0 <= j < ids@.len() ==> self.matches(kinds@, #[trigger] ids@[j]),
                forall|u: u64| (u as int) < id && self.matches(kinds@, u) ==> ids@.contains(u),
            decreases cap - id,
        {
            let mut ok = true;
            let mut j: usize = 0;
            while j < kinds.len()
                invariant
                    j <= kinds@.len(),
                    id < usize::MAX as int,
                    ok <==> forall|t: int| 0 <= t < j ==> self.has(#[trigger] kinds@[t], id as int),
                decreases kinds@.len() - j,
            {
                if !self.has_component(kinds[j], id as u64) {
                    ok = false;
                }
                j = j + 1;
            }
            if ok {
                let ghost pre = ids@;
                ids.push(id as u64);
                proof {
                    assert(forall|u: u64|
                        pre.contains(u) ==> #[trigger] ids@.contains(u)) by {
                        assert(forall|u: u64|
                            pre.contains(u) ==> exists|j: int|
                                0 <= j < pre.len() && pre[j] == u && ids@[j] == u);
                    }
                    assert(ids@.last() == id as u64);
                    assert(ids@.contains(id as u64));
                }
            }
            id = id + 1;
        }
        proof {
            assert(forall|u: u64| self.matches(kinds@, u) ==> (u as int) < self.cap()) by {
                assert(forall|u: u64|
                    self.matches(kinds@, u) ==> self.has(kinds@[0], u as int));
            }
        }
        ids
    }

    /// Whether `id` currently has a component of kind `k`.
    pub fn has_component(&self, k: ComponentKind, id: u64) -> (r: bool)
        ensures
            r == self.has(k, id as int),
    {
        match k {
            ComponentKind::Player => col_has(&self.players, id),
            ComponentKind::KeepAlive => col_has(&self.keep_alives, id),
            ComponentKind::ConnectionWrapper => col_has(&self.connections, id),
            ComponentKind::Position => col_has(&self.positions, id),
            ComponentKind::Rotation => col_has(&self.rotations, id),
        }
    }

    /// The keep-alive component of `id`, if any.
    pub fn keep_alive_at(&self, id: u64) -> (r: Option<KeepAlive>)
        ensures
            match r {
                Some(v) => self.comp_at(ComponentKind::KeepAlive, id as int) == Some(
                    Component::KeepAlive(v),
                ),
                None => self.comp_at(ComponentKind::KeepAlive, id as int) is None,
            },
    {
        if id < self.keep_alives.len() as u64 {
            self.keep_alives[id as usize]
        } else {
            None
        }
    }

    /// The connection handle of `id`, if any.
    pub fn connection_at(&self, id: u64) -> (r: Option<ConnectionWrapper>)
        ensures
            match r {
                Some(v) => self.comp_at(ComponentKind::ConnectionWrapper, id as int) == Some(
                    Component::ConnectionWrapper(v),
                ),
                None => self.comp_at(ComponentKind::ConnectionWrapper, id as int) is None,
            },
    {
        if id < self.connections.len() as u64 {
            self.connections[id as usize]
        } else {
            None
        }
    }

    fn capacity(&self) -> (c: usize)
        ensures
            c == self.cap(),
    {
        let mut c = self.players.len();
        if self.keep_alives.len() > c {
            c = self.keep_alives.len();
        }
        if self.connections.len() > c {
            c = self.connections.len();
        }
        if self.positions.len() > c {
            c = self.positions.len();
        }
        if self.rotations.len() > c {
            c = self.rotations.len();
        }
        c
    }
}

/// The largest of five column lengths.
pub open spec fn max5(a: int, b: int, c: int, d: int, e: int) -> int {
    let x = if a > b { a } else { b };
    let y = if x > c { x } else { c };
    let z = if y > d { y } else { d };
    if z > e { z } else { e }
}

/// Grows `col` as needed and stores `Some(v)` at index `id`.
fn col_put<T>(col: &mut Vec<Option<T>>, id: u64, v: T)
    requires
        id < usize::MAX as u64,
    ensures
        forall|i: int| #[trigger] col_at(final(col)@, i) == if i == id as int {
            Some(v)
        } else {
            col_at(old(col)@, i)
        },
{
    let idx = id as usize;
    let ghost pre = col@;
    if col.len() <= idx {
        while col.len() <= idx
            invariant
                idx < usize::MAX,
                pre.len() <= idx + 1,
                pre.len() <= col@.len() <= idx + 1,
                forall|i: int| 0 <= i < pre.len() ==> col@[i] == pre[i],
                forall|i: int| pre.len() <= i < col@.len() ==> col@[i] is None,
            decreases idx + 1 - col.len(),
        {
            col.push(None);
        }
    }
    col[idx] = Some(v);
    proof {
        assert(forall|i: int|
            0 <= i < pre.len() && i != id as int ==> final(col)@[i] == pre[i]);
    }
}

/// Clears index `id` of `col` if it is within the column.
fn col_clear<T>(col: &mut Vec<Option<T>>, id: u64)
    ensures
        forall|i: int| #[trigger] col_at(final(col)@, i) == if i == id as int {
            None::<T>
        } else {
            col_at(old(col)@, i)
        },
{
    if id < col.len() as u64 {
        let idx = id as usize;
        col[idx] = None;
    }
}

/// Whether index `id` of `col` holds a value.
fn col_has<T>(col: &Vec<Option<T>>, id: u64) -> (r: bool)
    ensures
        r == (col_at(col@, id as int) is Some),
{
    if id < col.len() as u64 {
        col[id as usize].is_some()
    } else {
        false
    }
}

/// The process-wide entity/component store.
pub struct World {
    entity_allocator: EntityAllocator,
    component_storage: ComponentStorage,
}

impl World {
    /// The entity allocator, as seen by specifications.
    pub closed spec fn allocator(&self) -> EntityAllocator {
        self.entity_allocator
    }

    /// The component columns, as seen by specifications.
    pub closed spec fn storage(&self) -> ComponentStorage {
        self.component_storage
    }

    pub open spec fn wf(&self) -> bool {
        self.allocator().wf()
    }

    pub fn new() -> (w: World)
        ensures
            w.wf(),
            w.allocator().gens() == Seq::<u64>::empty(),
            w.allocator().free() == Seq::<u64>::empty(),
            forall|k: ComponentKind, i: int| #[trigger] w.storage().comp_at(k, i) is None,
    {
        World { entity_allocator: EntityAllocator::new(), component_storage: ComponentStorage::new() }
    }

    /// Allocates an entity and returns a builder for attaching its
    /// components; the columns are untouched until the builder is
    /// built.
    pub fn create_entity(&mut self) -> (b: EntityBuilder)
        requires
            old(self).wf(),
            old(self).allocator().gens().len() < u64::MAX,
        ensures
            final(self).wf(),
            b.pending() == Seq::<Component>::empty(),
            allocate_post(old(self).allocator(), final(self).allocator(), b.entity()),
            final(self).storage() == old(self).storage(),
    {
        self.entity_allocator.allocate()
    }

    /// Validates and deallocates the handle — `EntityNotFound` iff
    /// the id is out of bounds, `InvalidGeneration` iff the handle is
    /// stale — and on success clears the entity's slot in every
    /// column. On failure the store is untouched.
    pub fn delete_entity(&mut self, entity: &Entity) -> (r: Result<(), Error>)
        requires
            old(self).wf(),
            entity.spec_generation() < u64::MAX,
        ensures
            final(self).wf(),
            deallocate_post(old(self).allocator(), final(self).allocator(), *entity, r),
            r is Ok ==> forall|k: ComponentKind, i: int|
                #[trigger] final(self).storage().comp_at(k, i) == if i
                    == entity.spec_id() as int {
                    None::<Component>
                } else {
                    old(self).storage().comp_at(k, i)
                },
            r is Err ==> final(self).storage() == old(self).storage(),
    {
        let result = self.entity_allocator.deallocate(entity);
        if result.is_ok() {
            self.component_storage.remove_all(entity);
        }
        result
    }

    /// Shared multi-component query: the ids present in every column
    /// named by `kinds`, in increasing order.
    pub fn query(&self, kinds: &[ComponentKind]) -> (ids: Vec<u64>)
        ensures
            forall|a: int, b: int| 0 <= a < b < ids@.len() ==> ids@[a] < ids@[b],
            forall|j: int| 0 <= j < ids@.len() ==> self.storage().matches(kinds@, #[trigger] ids@[j]),
            forall|j: int| 0 <= j < ids@.len() ==> #[trigger] ids@[j] < usize::MAX as u64,
            kinds@.len() > 0 ==> forall|id: u64|
                self.storage().matches(kinds@, id) ==> ids@.contains(id),
    {
        self.component_storage.query(kinds)
    }

    /// Exclusive multi-component query: same ids as `query`; the
    /// caller holds the store exclusively while it mutates the
    /// reported entities.
    pub fn query_mut(&mut self, kinds: &[ComponentKind]) -> (ids: Vec<u64>)
        ensures
            *final(self) == *old(self),
            forall|a: int, b: int| 0 <= a < b < ids@.len() ==> ids@[a] < ids@[b],
            forall|j: int|
                0 <= j < ids@.len() ==> old(self).storage().matches(kinds@, #[trigger] ids@[j]),
            forall|j: int| 0 <= j < ids@.len() ==> #[trigger] ids@[j] < usize::MAX as u64,
            kinds@.len() > 0 ==> forall|id: u64|
                old(self).storage().matches(kinds@, id) ==> ids@.contains(id),
    {
        self.component_storage.query(kinds)
    }

    /// The live handle for an id: the id paired with its current
    /// generation, or `None` if the id was never allocated.
    pub fn entity_handle(&self, id: u64) -> (r: Option<Entity>)
        ensures
            match r {
                Some(e) => (id as int) < self.allocator().gens().len() && e.spec_id() == id
                    && e.spec_generation() == self.allocator().gens()[id as int],
                None => (id as int) >= self.allocator().gens().len(),
            },
    {
        match self.entity_allocator.generation_of(id) {
            Some(g) => Some(Entity::new(id, g)),
            None => None,
        }
    }

    pub fn get_component_storage(&self) -> (s: &ComponentStorage)
        ensures
            *s == self.storage(),
    {
        &self.component_storage
    }

    pub fn get_component_storage_mut(&mut self) -> (s: &mut ComponentStorage)
        ensures
            *s == old(self).storage(),
            final(self).storage() == *final(s),
            final(self).allocator() == old(self).allocator(),
    {
        &mut self.component_storage
    }
}

} // verus!
