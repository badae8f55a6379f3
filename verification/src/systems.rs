//! Periodic server systems over the entity store. A system collects
//! what it needs under a query, releases the store, and hands back
//! the I/O it wants performed as a list of actions; the runtime
//! around the library performs them.
//!
//! The keep-alive system stamps and counts keep-alive packets for
//! every connected player, and reaps entities whose connection has
//! been silent past the timeout.
use vstd::prelude::*;

use crate::ecs::Component;
use crate::ecs::ComponentKind;
use crate::ecs::ComponentStorage;
use crate::ecs::Entity;
use crate::ecs::KeepAlive;
use crate::ecs::World;

verus! {

/// Keep-alives are sent to a player this long after its last stamp.
pub const KEEP_ALIVE_INTERVAL_MS: u64 = 15000;

/// A connection silent past this deadline is reaped.
pub const KEEP_ALIVE_TIMEOUT_MS: u64 = 30000;

/// An effect a system asks the runtime to perform once the entity
/// store has been released.
#[derive(Debug, Clone, Copy, PartialEq, Eq, Structural)]
pub enum Action {
    /// Write a keep-alive packet carrying `data` on the connection.
    SendKeepAlive { conn_id: u64, data: u64 },
    /// Close the connection; its entity has been deleted.
    DropConnection { conn_id: u64 },
}

/// A long-running periodic task over the entity store: each tick it
/// reads and writes the store and reports the I/O to perform.
pub trait System {
    fn name(&self) -> &'static str;

    fn tick(&self, world: &mut World, now_ms: u64) -> (acts: Vec<Action>)
        requires
            old(world).wf(),
        ensures
            final(world).wf(),
    ;

    fn kill(&self);
}

/// The component set the keep-alive sender visits.
pub open spec fn sender_kinds() -> Seq<ComponentKind> {
    seq![ComponentKind::Player, ComponentKind::KeepAlive, ComponentKind::ConnectionWrapper]
}

/// The component set the keep-alive reaper visits.
pub open spec fn reaper_kinds() -> Seq<ComponentKind> {
    seq![ComponentKind::KeepAlive, ComponentKind::ConnectionWrapper]
}

/// The keep-alive component of `id` (meaningful where one is stored).
pub open spec fn ka_at(s: ComponentStorage, id: u64) -> KeepAlive {
    match s.comp_at(ComponentKind::KeepAlive, id as int) {
        Some(Component::KeepAlive(k)) => k,
        _ => KeepAlive { data: 0, last_sent: 0 },
    }
}

/// The connection id of `id` (meaningful where one is stored).
pub open spec fn conn_at(s: ComponentStorage, id: u64) -> u64 {
    match s.comp_at(ComponentKind::ConnectionWrapper, id as int) {
        Some(Component::ConnectionWrapper(c)) => c.conn_id,
        _ => 0,
    }
}

/// A keep-alive is due: the entity is a connected player whose last
/// stamp is at least the send interval old (and whose counter can
/// still grow).
pub open spec fn sender_due(s: ComponentStorage, now: u64, id: u64) -> bool {
    &&& s.matches(sender_kinds(), id)
    &&& ka_at(s, id).data < u64::MAX
    &&& now >= ka_at(s, id).last_sent + KEEP_ALIVE_INTERVAL_MS
}

/// The connection has been silent past the deadline.
pub open spec fn expired(s: ComponentStorage, now: u64, id: u64) -> bool {
    &&& s.matches(reaper_kinds(), id)
    &&& now > ka_at(s, id).last_sent + KEEP_ALIVE_TIMEOUT_MS
}

/// The keep-alive action owed to a due entity: its counter already
/// incremented.
pub open spec fn send_action(s: ComponentStorage, id: u64) -> Action {
    Action::SendKeepAlive { conn_id: conn_at(s, id), data: (ka_at(s, id).data + 1) as u64 }
}

/// Sends keep-alives and reaps silent connections.
pub struct KeepAliveSystem;

impl KeepAliveSystem {
    /// One pass of the keep-alive sender: under the exclusive query,
    /// every connected player whose stamp is at least the interval
    /// old gets its counter incremented by one and its stamp set to
    /// `now_ms`; the actions report one keep-alive send per such
    /// player, carrying the incremented counter.
    pub fn sender(world: &mut World, now_ms: u64) -> (acts: Vec<Action>)
        ensures
            sender_post(*old(world), *final(world), now_ms, acts@),
    {
        let ghost s0 = old(world).storage();
        let mut kinds: Vec<ComponentKind> = Vec::new();
        kinds.push(ComponentKind::Player);
        kinds.push(ComponentKind::KeepAlive);
        kinds.push(ComponentKind::ConnectionWrapper);
        proof {
            assert(kinds@ =~= sender_kinds());
        }
        let ids = world.query_mut(kinds.as_slice());
        let mut acts: Vec<Action> = Vec::new();
        let mut idx: usize = 0;
        while idx < ids.len()
            invariant
                idx <= ids@.len(),
                world.allocator() == old(world).allocator(),
                s0 == old(world).storage(),
                forall|a: int, b: int| 0 <= a < b < ids@.len() ==> ids@[a] < ids@[b],
                forall|j: int| 0 <= j < ids@.len() ==> s0.matches(sender_kinds(), #[trigger] ids@[j]),
                forall|j: int| 0 <= j < ids@.len() ==> #[trigger] ids@[j] < usize::MAX as u64,
                forall|id: u64| s0.matches(sender_kinds(), id) ==> ids@.contains(id),
                forall|k: ComponentKind, i: int|
                    #[trigger] world.storage().comp_at(k, i) == if k == ComponentKind::KeepAlive
                        && exists|t: int|
                        0 <= t < idx && #[trigger] ids@[t] == i && sender_due(s0, now_ms, ids@[t]) {
                        Some(
                            Component::KeepAlive(
                                KeepAlive {
                                    data: (ka_at(s0, i as u64).data + 1) as u64,
                                    last_sent: now_ms,
                                },
                            ),
                        )
                    } else {
                        s0.comp_at(k, i)
                    },
                forall|t: int|
                    0 <= t < idx && sender_due(s0, now_ms, #[trigger] ids@[t]) ==> acts@.contains(
                        send_action(s0, ids@[t]),
                    ),
                forall|n: int|
                    0 <= n < acts@.len() ==> exists|id: u64|
                        sender_due(s0, now_ms, id) && #[trigger] acts@[n] == send_action(s0, id),
            decreases ids@.len() - idx,
        {
            let id = ids[idx];
            proof {
                assert(s0.matches(sender_kinds(), id));
                assert(s0.has(sender_kinds()[1], id as int));
                assert(s0.has(sender_kinds()[2], id as int));
                assert(forall|t: int| 0 <= t < idx ==> #[trigger] ids@[t] != id);
            }
            let ka = match world.get_component_storage().keep_alive_at(id) {
                Some(k) => k,
                None => {
                    proof {
                        assert(false);
                    }
                    KeepAlive { data: 0, last_sent: 0 }
                },
            };
            let conn = match world.get_component_storage().connection_at(id) {
                Some(c) => c,
                None => {
                    proof {
                        assert(false);
                    }
                    crate::ecs::ConnectionWrapper { conn_id: 0 }
                },
            };
            proof {
                assert(ka == ka_at(s0, id));
                assert(conn.conn_id == conn_at(s0, id));
            }
            if ka.data < u64::MAX && now_ms >= ka.last_sent && now_ms - ka.last_sent
                >= KEEP_ALIVE_INTERVAL_MS {
                let entity = Entity::new(id, 0);
                let stamped = KeepAlive { data: ka.data + 1, last_sent: now_ms };
                let storage = world.get_component_storage_mut();
                storage.insert(&entity, Component::KeepAlive(stamped));
                let ghost pre_acts = acts@;
                acts.push(Action::SendKeepAlive { conn_id: conn.conn_id, data: ka.data + 1 });
                proof {
                    assert(sender_due(s0, now_ms, id));
                    assert(acts@.last() == send_action(s0, id));
                    assert(acts@.contains(send_action(s0, id)));
                    assert forall|t: int|
                        0 <= t < idx && sender_due(s0, now_ms, #[trigger] ids@[t]) implies
                        acts@.contains(send_action(s0, ids@[t])) by {
                        let n = choose|n: int|
                            0 <= n < pre_acts.len() && pre_acts[n] == send_action(s0, ids@[t]);
                        assert(acts@[n] == send_action(s0, ids@[t]));
                    }
                }
            } else {
                proof {
                    assert(!sender_due(s0, now_ms, id));
                }
            }
            idx = idx + 1;
        }
        proof {
            assert forall|k: ComponentKind, i: int|
                #[trigger] world.storage().comp_at(k, i) == if k == ComponentKind::KeepAlive && 0
                    <= i <= u64::MAX && sender_due(s0, now_ms, i as u64) {
                    Some(
                        Component::KeepAlive(
                            KeepAlive {
                                data: (ka_at(s0, i as u64).data + 1) as u64,
                                last_sent: now_ms,
                            },
                        ),
                    )
                } else {
                    s0.comp_at(k, i)
                } by {
                if 0 <= i <= u64::MAX && sender_due(s0, now_ms, i as u64) {
                    assert(ids@.contains(i as u64));
                    let t = choose|t: int| 0 <= t < ids@.len() && ids@[t] == i as u64;
                    assert(ids@[t] == i);
                }
            }
            assert forall|id: u64| sender_due(s0, now_ms, id) implies acts@.contains(
                send_action(s0, id),
            ) by {
                assert(ids@.contains(id));
                let t = choose|t: int| 0 <= t < ids@.len() && ids@[t] == id;
                assert(sender_due(s0, now_ms, ids@[t]));
            }
        }
        acts
    }

    /// One pass of the keep-alive reaper: every entity with a
    /// keep-alive and a connection whose stamp is older than the
    /// timeout is deleted from the store, and one drop action per
    /// such entity reports its connection.
    pub fn receiver(world: &mut World, now_ms: u64) -> (acts: Vec<Action>)
        requires
            old(world).wf(),
        ensures
            final(world).wf(),
            receiver_post(*old(world), *final(world), now_ms, acts@),
    {
        let ghost s0 = old(world).storage();
        let ghost g0 = old(world).allocator().gens();
        let ghost f0 = old(world).allocator().free();
        let mut kinds: Vec<ComponentKind> = Vec::new();
        kinds.push(ComponentKind::KeepAlive);
        kinds.push(ComponentKind::ConnectionWrapper);
        proof {
            assert(kinds@ =~= reaper_kinds());
        }
        let ids = world.query(kinds.as_slice());
        let mut acts: Vec<Action> = Vec::new();
        let mut idx: usize = 0;
        while idx < ids.len()
            invariant
                idx <= ids@.len(),
                world.wf(),
                s0 == old(world).storage(),
                g0 == old(world).allocator().gens(),
                f0 == old(world).allocator().free(),
                forall|a: int, b: int| 0 <= a < b < ids@.len() ==> ids@[a] < ids@[b],
                forall|j: int| 0 <= j < ids@.len() ==> s0.matches(reaper_kinds(), #[trigger] ids@[j]),
                forall|id: u64| s0.matches(reaper_kinds(), id) ==> ids@.contains(id),
                world.allocator().gens().len() == g0.len(),
                forall|i: int|
                    0 <= i < g0.len() ==> #[trigger] world.allocator().gens()[i] == if exists|t: int|
                        0 <= t < idx && #[trigger] ids@[t] == i && reaped(s0, g0, now_ms, ids@[t]) {
                        (g0[i] + 1) as u64
                    } else {
                        g0[i]
                    },
                world.allocator().free().len() >= f0.len(),
                world.allocator().free().take(f0.len() as int) == f0,
                forall|id: u64|
                    #[trigger] world.allocator().free().skip(f0.len() as int).contains(id) <==> exists|t: int|
                        0 <= t < idx && #[trigger] ids@[t] == id && reaped(s0, g0, now_ms, ids@[t]),
                forall|k: ComponentKind, i: int|
                    #[trigger] world.storage().comp_at(k, i) == if exists|t: int|
                        0 <= t < idx && #[trigger] ids@[t] == i && reaped(s0, g0, now_ms, ids@[t]) {
                        None::<Component>
                    } else {
                        s0.comp_at(k, i)
                    },
                forall|t: int|
                    0 <= t < idx && expired(s0, now_ms, #[trigger] ids@[t]) ==> acts@.contains(
                        drop_action(s0, ids@[t]),
                    ),
                forall|n: int|
                    0 <= n < acts@.len() ==> exists|id: u64|
                        expired(s0, now_ms, id) && #[trigger] acts@[n] == drop_action(s0, id),
            decreases ids@.len() - idx,
        {
            let id = ids[idx];
            proof {
                assert(s0.matches(reaper_kinds(), id));
                assert(s0.has(reaper_kinds()[0], id as int));
                assert(s0.has(reaper_kinds()[1], id as int));
                assert(forall|t: int| 0 <= t < idx ==> #[trigger] ids@[t] != id);
            }
            let ka = match world.get_component_storage().keep_alive_at(id) {
                Some(k) => k,
                None => {
                    proof {
                        assert(false);
                    }
                    KeepAlive { data: 0, last_sent: 0 }
                },
            };
            let conn = match world.get_component_storage().connection_at(id) {
                Some(c) => c,
                None => {
                    proof {
                        assert(false);
                    }
                    crate::ecs::ConnectionWrapper { conn_id: 0 }
                },
            };
            proof {
                assert(ka == ka_at(s0, id));
                assert(conn.conn_id == conn_at(s0, id));
            }
            if now_ms > ka.last_sent && now_ms - ka.last_sent > KEEP_ALIVE_TIMEOUT_MS {
                proof {
                    assert(expired(s0, now_ms, id));
                }
                let handle = world.entity_handle(id);
                let deletable = match handle {
                    Some(e) => e.generation() < u64::MAX,
                    None => false,
                };
                if deletable {
                    let e = match handle {
                        Some(e) => e,
                        None => Entity::new(id, 0),
                    };
                    let ghost pre_free = world.allocator().free();
                    let result = world.delete_entity(&e);
                    proof {
                        assert(result is Ok);
                        {
                            assert(reaped(s0, g0, now_ms, id));
                            assert(world.allocator().free() =~= pre_free.push(id));
                            assert(world.allocator().free().take(f0.len() as int)
                                =~= pre_free.take(f0.len() as int));
                            assert(world.allocator().free().skip(f0.len() as int)
                                =~= pre_free.skip(f0.len() as int).push(id));
                            assert forall|id2: u64|
                                #[trigger] world.allocator().free().skip(
                                    f0.len() as int,
                                ).contains(id2) <==> (exists|t: int|
                                    0 <= t <= idx && #[trigger] ids@[t] == id2 && reaped(
                                        s0,
                                        g0,
                                        now_ms,
                                        ids@[t],
                                    )) by {
                                let tail = pre_free.skip(f0.len() as int);
                                if id2 == id {
                                    assert(tail.push(id)[tail.len() as int] == id);
                                    assert(ids@[idx as int] == id2);
                                } else {
                                    if tail.push(id).contains(id2) {
                                        let n = choose|n: int|
                                            0 <= n < tail.push(id).len() && tail.push(id)[n]
                                                == id2;
                                        assert(tail[n] == id2);
                                    }
                                    if tail.contains(id2) {
                                        let n = choose|n: int|
                                            0 <= n < tail.len() && tail[n] == id2;
                                        assert(tail.push(id)[n] == id2);
                                    }
                                }
                            }
                        }
                    }
                } else {
                    proof {
                        assert(!reaped(s0, g0, now_ms, id));
                    }
                }
                let ghost pre_acts = acts@;
                acts.push(Action::DropConnection { conn_id: conn.conn_id });
                proof {
                    assert(acts@.last() == drop_action(s0, id));
                    assert(acts@.contains(drop_action(s0, id)));
                    assert forall|t: int|
                        0 <= t < idx && expired(s0, now_ms, #[trigger] ids@[t]) implies
                        acts@.contains(drop_action(s0, ids@[t])) by {
                        let n = choose|n: int|
                            0 <= n < pre_acts.len() && pre_acts[n] == drop_action(s0, ids@[t]);
                        assert(acts@[n] == drop_action(s0, ids@[t]));
                    }
                }
            } else {
                proof {
                    assert(!expired(s0, now_ms, id));
                }
            }
            idx = idx + 1;
        }
        proof {
            assert forall|i: int|
                0 <= i < g0.len() implies #[trigger] world.allocator().gens()[i] == if 0 <= i
                    <= u64::MAX && reaped(s0, g0, now_ms, i as u64) {
                    (g0[i] + 1) as u64
                } else {
                    g0[i]
                } by {
                if 0 <= i <= u64::MAX && reaped(s0, g0, now_ms, i as u64) {
                    assert(ids@.contains(i as u64));
                    let t = choose|t: int| 0 <= t < ids@.len() && ids@[t] == i as u64;
                    assert(ids@[t] == i);
                }
            }
            assert forall|id: u64|
                #[trigger] world.allocator().free().skip(f0.len() as int).contains(id) <==> reaped(
                    s0,
                    g0,
                    now_ms,
                    id,
                ) by {
                if reaped(s0, g0, now_ms, id) {
                    assert(ids@.contains(id));
                    let t = choose|t: int| 0 <= t < ids@.len() && ids@[t] == id;
                    assert(ids@[t] == id);
                }
            }
            assert forall|k: ComponentKind, i: int|
                #[trigger] world.storage().comp_at(k, i) == if 0 <= i <= u64::MAX && reaped(
                    s0,
                    g0,
                    now_ms,
                    i as u64,
                ) {
                    None::<Component>
                } else {
                    s0.comp_at(k, i)
                } by {
                if 0 <= i <= u64::MAX && reaped(s0, g0, now_ms, i as u64) {
                    assert(ids@.contains(i as u64));
                    let t = choose|t: int| 0 <= t < ids@.len() && ids@[t] == i as u64;
                    assert(ids@[t] == i);
                }
            }
            assert forall|id: u64| expired(s0, now_ms, id) implies acts@.contains(
                drop_action(s0, id),
            ) by {
                assert(ids@.contains(id));
                let t = choose|t: int| 0 <= t < ids@.len() && ids@[t] == id;
                assert(expired(s0, now_ms, ids@[t]));
            }
        }
        acts
    }
}

/// The drop action owed to an expired entity.
pub open spec fn drop_action(s: ComponentStorage, id: u64) -> Action {
    Action::DropConnection { conn_id: conn_at(s, id) }
}

/// The id is reaped: expired, in bounds, and its generation counter
/// can still grow.
pub open spec fn reaped(s: ComponentStorage, gens: Seq<u64>, now: u64, id: u64) -> bool {
    &&& expired(s, now, id)
    &&& (id as int) < gens.len()
    &&& gens[id as int] < u64::MAX
}

/// What one sender pass does: every due player's keep-alive counter
/// is incremented by one and its stamp set to `now`, everything else
/// is untouched, and the actions report one keep-alive send per due
/// player, carrying the incremented counter.
pub open spec fn sender_post(pre: World, post: World, now: u64, acts: Seq<Action>) -> bool {
    let s0 = pre.storage();
    &&& post.allocator() == pre.allocator()
    &&& forall|k: ComponentKind, i: int|
        #[trigger] post.storage().comp_at(k, i) == if k == ComponentKind::KeepAlive && 0 <= i
            <= u64::MAX && sender_due(s0, now, i as u64) {
            Some(
                Component::KeepAlive(
                    KeepAlive { data: (ka_at(s0, i as u64).data + 1) as u64, last_sent: now },
                ),
            )
        } else {
            s0.comp_at(k, i)
        }
    &&& forall|id: u64| sender_due(s0, now, id) ==> acts.contains(send_action(s0, id))
    &&& forall|n: int|
        0 <= n < acts.len() ==> exists|id: u64|
            sender_due(s0, now, id) && #[trigger] acts[n] == send_action(s0, id)
}

/// What one reaper pass does: every reaped id (expired, allocated,
/// and with a generation that can still grow) has its entity
/// deleted — generation bumped, id freed, every column cleared —
/// everything else is untouched, and the actions report one
/// connection drop per expired entity.
pub open spec fn receiver_post(pre: World, post: World, now: u64, acts: Seq<Action>) -> bool {
    let s0 = pre.storage();
    let g0 = pre.allocator().gens();
    let f0 = pre.allocator().free();
    &&& post.allocator().gens().len() == g0.len()
    &&& forall|i: int|
        0 <= i < g0.len() ==> #[trigger] post.allocator().gens()[i] == if 0 <= i <= u64::MAX
            && reaped(s0, g0, now, i as u64) {
            (g0[i] + 1) as u64
        } else {
            g0[i]
        }
    &&& post.allocator().free().len() >= f0.len()
    &&& post.allocator().free().take(f0.len() as int) == f0
    &&& forall|id: u64|
        #[trigger] post.allocator().free().skip(f0.len() as int).contains(id) <==> reaped(
            s0,
            g0,
            now,
            id,
        )
    &&& forall|k: ComponentKind, i: int|
        #[trigger] post.storage().comp_at(k, i) == if 0 <= i <= u64::MAX && reaped(
            s0,
            g0,
            now,
            i as u64,
        ) {
            None::<Component>
        } else {
            s0.comp_at(k, i)
        }
    &&& forall|id: u64| expired(s0, now, id) ==> acts.contains(drop_action(s0, id))
    &&& forall|n: int|
        0 <= n < acts.len() ==> exists|id: u64|
            expired(s0, now, id) && #[trigger] acts[n] == drop_action(s0, id)
}

impl System for KeepAliveSystem {
    fn name(&self) -> &'static str {
        "KeepAliveSystem"
    }

    fn tick(&self, world: &mut World, now_ms: u64) -> (acts: Vec<Action>)
        ensures
            exists|mid: World, a: Seq<Action>, b: Seq<Action>|
                {
                    &&& #[trigger] sender_post(*old(world), mid, now_ms, a)
                    &&& #[trigger] receiver_post(mid, *final(world), now_ms, b)
                    &&& acts@ == a + b
                },
    {
        let mut acts = KeepAliveSystem::sender(world, now_ms);
        let ghost mid = *world;
        let ghost a = acts@;
        let mut more = KeepAliveSystem::receiver(world, now_ms);
        let ghost b = more@;
        acts.append(&mut more);
        proof {
            assert(acts@ =~= a + b);
            assert(sender_post(*old(world), mid, now_ms, a));
            assert(receiver_post(mid, *world, now_ms, b));
        }
        acts
    }

    fn kill(&self) {
    }
}

/// Law: for a player due a keep-alive, one sender pass strictly
/// increases the carried counter, and (the clock being monotone) the
/// stamp never decreases.
pub proof fn lemma_keep_alive_monotonic(
    pre: ComponentStorage,
    post: ComponentStorage,
    now: u64,
    id: u64,
)
    requires
        sender_due(pre, now, id),
        post.comp_at(ComponentKind::KeepAlive, id as int) == Some(
            Component::KeepAlive(
                KeepAlive { data: (ka_at(pre, id).data + 1) as u64, last_sent: now },
            ),
        ),
    ensures
        ka_at(post, id).data > ka_at(pre, id).data,
        ka_at(post, id).last_sent >= ka_at(pre, id).last_sent,
{
}

/// Law: an entity whose connection has been silent past the timeout
/// is dead after one reaper pass: its handle is stale and no column
/// still holds a component for its id.
pub proof fn lemma_reaping(pre: World, post: World, now: u64, acts: Seq<Action>, e: Entity)
    requires
        receiver_post(pre, post, now, acts),
        expired(pre.storage(), now, e.spec_id()),
        pre.allocator().live(e),
        e.spec_generation() < u64::MAX,
    ensures
        !post.allocator().live(e),
        forall|k: ComponentKind| #[trigger] post.storage().comp_at(k, e.spec_id() as int) is None,
        acts.contains(drop_action(pre.storage(), e.spec_id())),
{
    assert(reaped(pre.storage(), pre.allocator().gens(), now, e.spec_id()));
    assert(post.allocator().gens()[e.spec_id() as int] == (e.spec_generation() + 1) as u64);
}

} // verus!
