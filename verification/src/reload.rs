//! The reloadable hook state machine.
//!
//! A reloadable record carries an explicit state. The poller drives
//! `Loading` to `Hooked` once the instance is ready (running the richer
//! callback once per entity), and services the caller-requested `MustReload`
//! and `MustDelete` states: both tear the instance's entities down
//! recursively; a reload then re-requests a load from the instance's
//! registered source and cycles back to `Loading` with a fresh handle, while
//! a delete also despawns the carrier itself.

use vstd::prelude::*;

use crate::hook::{HookAction, apply_pending};
use crate::registry::{
    InstanceModel, Registry, RegistryModel, spec_instance_entities, spec_instance_source,
    spec_is_ready,
};
use crate::world::{Entity, EntityModel, Store, entity_of, has_id, spec_despawn};

verus! {

/// Controls loading and reloading of a hooked scene.
#[derive(Clone, Copy, PartialEq, Eq, Structural, Debug)]
pub enum State {
    /// The scene's entities are not yet in the store.
    Loading,
    /// The scene's entities are in the store and carry what the hook added.
    Hooked,
    /// Caller request: tear the scene down and load it again from its source.
    MustReload,
    /// Caller request: tear the scene down and despawn the carrier too.
    MustDelete,
}

/// Caller-supplied logic for reloadable hooks: beyond the entity it is
/// visiting, the callback reads the whole store and knows the carrier, so a
/// hook can draw on cross-entity context.
pub trait ReloadCallback: Sized {
    /// The actions the callback asks for, given the entity, the store as it
    /// stood before the pass, and the carrier.
    spec fn actions_spec(&self, e: EntityModel, world: Seq<EntityModel>, carrier: u64) -> Seq<
        HookAction,
    >;

    /// Inspect one entity of the scene and hand back the actions to apply.
    fn on_entity(&self, e: &Entity, world: &Store, carrier: u64) -> (r: Vec<HookAction>)
        ensures
            r@ == self.actions_spec(e@, world@, carrier),
    ;
}

/// A reload-aware callback that asks for nothing on any entity.
pub struct HookFn;

impl ReloadCallback for HookFn {
    open spec fn actions_spec(&self, e: EntityModel, world: Seq<EntityModel>, carrier: u64) -> Seq<
        HookAction,
    > {
        Seq::empty()
    }

    fn on_entity(&self, e: &Entity, world: &Store, carrier: u64) -> (r: Vec<HookAction>) {
        let r: Vec<HookAction> = Vec::new();
        proof {
            assert(r@ =~= self.actions_spec(e@, world@, carrier));
        }
        r
    }
}

impl Default for HookFn {
    /// The do-nothing hook.
    fn default() -> (r: HookFn)
        ensures
            r == HookFn,
    {
        HookFn
    }
}

impl ReloadCallback for crate::hook::InsertOnName {
    open spec fn actions_spec(&self, e: EntityModel, world: Seq<EntityModel>, carrier: u64) -> Seq<
        HookAction,
    > {
        crate::hook::rules_actions(self.rules@, e)
    }

    fn on_entity(&self, e: &Entity, world: &Store, carrier: u64) -> (r: Vec<HookAction>) {
        crate::hook::HookCallback::on_entity(self, e)
    }
}

/// The reloadable hook record: its state and the callback.
pub struct Hook<H> {
    /// The reload state of the scene.
    pub state: State,
    /// The callback run on each entity when the scene is spawned or
    /// respawned.
    pub hook: H,
}

impl<H: ReloadCallback> Hook<H> {
    /// A record for a scene that is still loading.
    pub fn new(hook: H) -> (r: Hook<H>)
        ensures
            r.state == State::Loading,
            r.hook == hook,
    {
        Hook { state: State::Loading, hook }
    }

    /// Move the record to a new state; any external system may request a
    /// reload or a delete this way. The callback is untouched.
    pub fn set_state(&mut self, s: State)
        ensures
            *final(self) == spec_set_state(*old(self), s),
            final(self).state == s,
            final(self).hook == old(self).hook,
    {
        self.state = s;
    }
}

/// The record as it stands after a caller request.
pub open spec fn spec_set_state<H>(hk: Hook<H>, st: State) -> Hook<H> {
    Hook { state: st, ..hk }
}

/// Reload idempotence: requesting the same state twice in a row, before the
/// poller ever services it, leaves the record exactly as requesting it once
/// — so N `MustReload` requests cause one teardown-and-reattach cycle, on
/// the next poll that sees the record still in `MustReload`.
pub proof fn lemma_set_state_idempotent<H>(hk: Hook<H>, st: State)
    ensures
        spec_set_state(spec_set_state(hk, st), st) == spec_set_state(hk, st),
{
}

/// One carrier the reload poller drives: the carrier entity, the instance it
/// currently owns, and the record.
pub struct ReloadEntry<H> {
    /// The entity carrying the record.
    pub carrier: u64,
    /// The instance handle currently associated with the carrier.
    pub instance: u64,
    /// The attached record.
    pub hook: Hook<H>,
}

/// What one poll decides to do with one record.
#[derive(Clone, Copy, PartialEq, Eq, Structural, Debug)]
pub enum PollAction {
    /// No progress this frame: retry next poll.
    Wait,
    /// The instance is ready: run the hook over all its entities.
    Dispatch,
    /// Tear the instance down and re-request a load from its source.
    Reload,
    /// Tear the instance down and despawn the carrier too.
    Delete,
}

/// The state machine's transition table: what one poll does to a record,
/// given its state, whether its instance is ready, and whether a source is
/// registered for it. A reload without a registered source cannot proceed
/// and leaves the record waiting in `MustReload`.
pub fn poll_action(state: State, ready: bool, has_source: bool) -> (r: (PollAction, State))
    ensures
        state == State::Loading && !ready ==> r == (PollAction::Wait, State::Loading),
        state == State::Loading && ready ==> r == (PollAction::Dispatch, State::Hooked),
        state == State::Hooked ==> r == (PollAction::Wait, State::Hooked),
        state == State::MustReload && has_source ==> r == (PollAction::Reload, State::Loading),
        state == State::MustReload && !has_source ==> r == (PollAction::Wait, State::MustReload),
        state == State::MustDelete ==> r == (PollAction::Delete, State::MustDelete),
{
    match state {
        State::Loading => {
            if ready {
                (PollAction::Dispatch, State::Hooked)
            } else {
                (PollAction::Wait, State::Loading)
            }
        },
        State::Hooked => (PollAction::Wait, State::Hooked),
        State::MustReload => {
            if has_source {
                (PollAction::Reload, State::Loading)
            } else {
                (PollAction::Wait, State::MustReload)
            }
        },
        State::MustDelete => (PollAction::Delete, State::MustDelete),
    }
}

/// What one reload pass will apply (the reload twin of the dispatcher's
/// pending list): the callback additionally reads the pre-pass store and the
/// carrier.
pub open spec fn pending_of_reload<H: ReloadCallback>(
    s0: Seq<EntityModel>,
    ents: Seq<u64>,
    h: H,
    carrier: u64,
) -> Seq<(u64, Seq<HookAction>)>
    decreases ents.len(),
{
    if ents.len() == 0 {
        Seq::empty()
    } else {
        let p = pending_of_reload(s0, ents.drop_last(), h, carrier);
        let id = ents.last();
        if has_id(s0, id) {
            p.push((id, h.actions_spec(entity_of(s0, id), s0, carrier)))
        } else {
            p
        }
    }
}

/// One full reload-aware hook pass over a ready instance. The record's
/// "done" marker is its state, so the store itself is only touched by the
/// callback's actions.
pub open spec fn spec_dispatch_reload<H: ReloadCallback>(
    s: Seq<EntityModel>,
    ents: Seq<u64>,
    h: H,
    carrier: u64,
) -> Seq<EntityModel> {
    apply_pending(s, pending_of_reload(s, ents, h, carrier))
}

/// The store after recursively despawning each listed entity in turn.
/// Despawning an id some earlier despawn already removed is a no-op.
pub open spec fn spec_teardown(s: Seq<EntityModel>, ids: Seq<u64>) -> Seq<EntityModel>
    decreases ids.len(),
{
    if ids.len() == 0 {
        s
    } else {
        spec_teardown(spec_despawn(s, ids[0]), ids.drop_first())
    }
}

/// The entities a teardown can still reach: the instance's list once the
/// load is ready, nothing before (an instance that never materialized has
/// nothing in the store to tear down).
pub open spec fn spec_teardown_targets(reg: RegistryModel, h: u64) -> Seq<u64> {
    if spec_is_ready(reg, h) {
        spec_instance_entities(reg, h)
    } else {
        Seq::empty()
    }
}

/// One poll of one reloadable record: the transition table of `poll_action`,
/// acted out on the store and the registry. A record whose carrier is gone
/// is inert.
pub open spec fn reload_step<H: ReloadCallback>(
    e: ReloadEntry<H>,
    reg: RegistryModel,
    s: Seq<EntityModel>,
) -> (ReloadEntry<H>, RegistryModel, Seq<EntityModel>) {
    if !has_id(s, e.carrier) {
        (e, reg, s)
    } else {
        match e.hook.state {
            State::Loading => {
                if spec_is_ready(reg, e.instance) {
                    (
                        ReloadEntry { hook: Hook { state: State::Hooked, hook: e.hook.hook }, ..e },
                        reg,
                        spec_dispatch_reload(
                            s,
                            spec_instance_entities(reg, e.instance),
                            e.hook.hook,
                            e.carrier,
                        ),
                    )
                } else {
                    (e, reg, s)
                }
            },
            State::Hooked => (e, reg, s),
            State::MustReload => {
                match spec_instance_source(reg, e.instance) {
                    Some(src) => {
                        let s2 = spec_teardown(s, spec_teardown_targets(reg, e.instance));
                        let h2 = reg.next;
                        let reg2 = RegistryModel {
                            instances: reg.instances.push(
                                InstanceModel {
                                    handle: h2,
                                    source: Some(src),
                                    ready: false,
                                    entities: Seq::empty(),
                                },
                            ),
                            next: (reg.next + 1) as u64,
                        };
                        (
                            ReloadEntry {
                                instance: h2,
                                hook: Hook { state: State::Loading, hook: e.hook.hook },
                                ..e
                            },
                            reg2,
                            s2,
                        )
                    },
                    None => (e, reg, s),
                }
            },
            State::MustDelete => {
                let s2 = spec_teardown(s, spec_teardown_targets(reg, e.instance));
                (e, reg, spec_despawn(s2, e.carrier))
            },
        }
    }
}

/// One poll over all reloadable records, in order: the records as they stand
/// afterwards, the registry, and the store.
pub open spec fn spec_run_reload<H: ReloadCallback>(
    entries: Seq<ReloadEntry<H>>,
    reg: RegistryModel,
    s: Seq<EntityModel>,
) -> (Seq<ReloadEntry<H>>, RegistryModel, Seq<EntityModel>)
    decreases entries.len(),
{
    if entries.len() == 0 {
        (entries, reg, s)
    } else {
        let step = reload_step(entries[0], reg, s);
        let rest = spec_run_reload(entries.drop_first(), step.1, step.2);
        (seq![step.0] + rest.0, rest.1, rest.2)
    }
}

/// A poll pass keeps one record per record: the records afterwards are as
/// many as before.
pub proof fn lemma_run_reload_len<H: ReloadCallback>(
    entries: Seq<ReloadEntry<H>>,
    reg: RegistryModel,
    s: Seq<EntityModel>,
)
    ensures
        spec_run_reload(entries, reg, s).0.len() == entries.len(),
    decreases entries.len(),
{
    if entries.len() > 0 {
        let step = reload_step(entries[0], reg, s);
        lemma_run_reload_len(entries.drop_first(), step.1, step.2);
    }
}

/// Run one full reload-aware hook pass over a ready instance: visit every
/// listed entity that is still live (collecting all actions against the
/// pre-pass store), then apply the actions.
fn dispatch_instance_reload<H: ReloadCallback>(
    store: &mut Store,
    ents: &Vec<u64>,
    h: &H,
    carrier: u64,
)
    ensures
        final(store)@ == spec_dispatch_reload(old(store)@, ents@, *h, carrier),
{
    let ghost s0 = store@;
    let n = ents.len();
    let mut pending: Vec<(u64, Vec<HookAction>)> = Vec::new();
    let mut i: usize = 0;
    while i < n
        invariant
            n == ents@.len(),
            0 <= i <= n,
            store@ == s0,
            crate::hook::pend_view(pending@) == pending_of_reload(
                s0,
                ents@.take(i as int),
                *h,
                carrier,
            ),
        decreases n - i,
    {
        let id = ents[i];
        let ghost pend0 = pending@;
        match store.get_entity(id) {
            Some(e) => {
                let acts = h.on_entity(e, store, carrier);
                pending.push((id, acts));
                proof {
                    crate::hook::lemma_pend_view_push(pend0, (id, acts));
                }
            },
            None => {},
        }
        proof {
            assert(ents@.take(i as int + 1).drop_last() =~= ents@.take(i as int));
            assert(ents@.take(i as int + 1).last() == ents@[i as int]);
        }
        i += 1;
    }
    proof {
        assert(ents@.take(n as int) =~= ents@);
    }
    let ghost target = apply_pending(s0, pending_of_reload(s0, ents@, *h, carrier));
    proof {
        assert(crate::hook::pend_view(pending@).skip(0) =~= crate::hook::pend_view(pending@));
    }
    let m = pending.len();
    let mut j: usize = 0;
    while j < m
        invariant
            m == pending@.len(),
            0 <= j <= m,
            crate::hook::pend_view(pending@) == pending_of_reload(s0, ents@, *h, carrier),
            apply_pending(store@, crate::hook::pend_view(pending@).skip(j as int)) == target,
        decreases m - j,
    {
        proof {
            assert(crate::hook::pend_view(pending@)[j as int] == (
                pending@[j as int].0,
                pending@[j as int].1@,
            ));
            assert(crate::hook::pend_view(pending@).skip(j as int)[0] == crate::hook::pend_view(
                pending@,
            )[j as int]);
            assert(crate::hook::pend_view(pending@).skip(j as int).drop_first()
                =~= crate::hook::pend_view(pending@).skip(j as int + 1));
        }
        let id = pending[j].0;
        crate::hook::apply_entity_actions(store, id, &pending[j].1);
        j += 1;
    }
    proof {
        assert(crate::hook::pend_view(pending@).skip(m as int) =~= Seq::<
            (u64, Seq<HookAction>),
        >::empty());
    }
}

/// Recursively despawn each listed entity in turn.
fn teardown(store: &mut Store, ids: &Vec<u64>)
    ensures
        final(store)@ == spec_teardown(old(store)@, ids@),
{
    let ghost s0 = store@;
    proof {
        assert(ids@.skip(0) =~= ids@);
    }
    let n = ids.len();
    let mut j: usize = 0;
    while j < n
        invariant
            n == ids@.len(),
            0 <= j <= n,
            spec_teardown(store@, ids@.skip(j as int)) == spec_teardown(s0, ids@),
        decreases n - j,
    {
        proof {
            assert(ids@.skip(j as int)[0] == ids@[j as int]);
            assert(ids@.skip(j as int).drop_first() =~= ids@.skip(j as int + 1));
        }
        store.despawn_recursive(ids[j]);
        j += 1;
    }
    proof {
        assert(ids@.skip(n as int) =~= Seq::<u64>::empty());
    }
}

/// One poll over every reloadable record, in order: drive each record one
/// step of the transition table — dispatch a freshly ready scene, service a
/// reload (tear down, re-request from the registered source, back to
/// `Loading` with the fresh handle) or a delete (tear down, despawn the
/// carrier too), and wait otherwise. A reload whose instance has no
/// registered source stays in `MustReload` and is retried next poll.
pub fn run_reloadable_hooks<H: ReloadCallback>(
    entries: &mut Vec<ReloadEntry<H>>,
    registry: &mut Registry,
    store: &mut Store,
)
    requires
        old(registry)@.next + old(entries)@.len() <= u64::MAX,
    ensures
        (final(entries)@, final(registry)@, final(store)@) == spec_run_reload(
            old(entries)@,
            old(registry)@,
            old(store)@,
        ),
{
    let ghost e0 = entries@;
    let ghost r0 = registry@;
    let ghost s0 = store@;
    let ghost full = spec_run_reload(e0, r0, s0);
    proof {
        lemma_run_reload_len(e0, r0, s0);
        assert(e0.skip(0) =~= e0);
        assert(e0.take(0) =~= full.0.take(0));
    }
    let n = entries.len();
    let mut i: usize = 0;
    while i < n
        invariant
            n == e0.len(),
            n == entries@.len(),
            n == full.0.len(),
            0 <= i <= n,
            r0.next + n <= u64::MAX,
            registry@.next <= r0.next + i,
            entries@.skip(i as int) == e0.skip(i as int),
            entries@.take(i as int) == full.0.take(i as int),
            spec_run_reload(entries@.skip(i as int), registry@, store@) == (
                full.0.skip(i as int),
                full.1,
                full.2,
            ),
        decreases n - i,
    {
        let ghost entA = entries@;
        let ghost regA = registry@;
        let ghost sA = store@;
        let ghost stepres = reload_step(entA[i as int], regA, sA);
        proof {
            assert(entA.skip(i as int)[0] == entA[i as int]);
            assert(entA.skip(i as int).drop_first() =~= entA.skip(i as int + 1));
        }
        let carrier = entries[i].carrier;
        let instance = entries[i].instance;
        let carrier_live = store.has_entity(carrier);
        if carrier_live {
            let state = entries[i].hook.state;
            let ready = registry.is_ready(instance);
            let src_opt = registry.source_of(instance);
            let has_source = src_opt.is_some();
            let (act, next_state) = poll_action(state, ready, has_source);
            match act {
                PollAction::Wait => {},
                PollAction::Dispatch => {
                    match registry.entities_of(instance) {
                        Some(ents_vec) => {
                            dispatch_instance_reload(
                                store,
                                &ents_vec,
                                &entries[i].hook.hook,
                                carrier,
                            );
                        },
                        None => {
                            proof {
                                assert(false);
                            }
                        },
                    }
                    let mut e = entries.remove(i);
                    e.hook.state = next_state;
                    entries.insert(i, e);
                },
                PollAction::Reload => {
                    match registry.entities_of(instance) {
                        Some(ents_vec) => {
                            teardown(store, &ents_vec);
                        },
                        None => {
                            proof {
                                assert(spec_teardown_targets(regA, instance) =~= Seq::<
                                    u64,
                                >::empty());
                            }
                        },
                    }
                    match src_opt {
                        Some(src) => {
                            proof {
                                assert(regA.next < u64::MAX);
                            }
                            let h2 = registry.request_load(Some(src));
                            let mut e = entries.remove(i);
                            e.instance = h2;
                            e.hook.state = next_state;
                            entries.insert(i, e);
                        },
                        None => {
                            proof {
                                assert(false);
                            }
                        },
                    }
                },
                PollAction::Delete => {
                    match registry.entities_of(instance) {
                        Some(ents_vec) => {
                            teardown(store, &ents_vec);
                        },
                        None => {
                            proof {
                                assert(spec_teardown_targets(regA, instance) =~= Seq::<
                                    u64,
                                >::empty());
                            }
                        },
                    }
                    store.despawn_recursive(carrier);
                },
            }
        }
        proof {
            assert(entries@ =~= entA.update(i as int, stepres.0));
            assert(registry@ =~= stepres.1);
            assert(store@ == stepres.2);
            assert(entries@.skip(i as int + 1) =~= e0.skip(i as int + 1));
            let rest = spec_run_reload(entA.skip(i as int).drop_first(), stepres.1, stepres.2);
            assert(full.0.skip(i as int) == seq![stepres.0] + rest.0);
            assert((seq![stepres.0] + rest.0)[0] == stepres.0);
            assert(full.0.skip(i as int)[0] == full.0[i as int]);
            assert(full.0[i as int] == stepres.0);
            assert(entries@.take(i as int + 1) =~= full.0.take(i as int + 1));
            assert(rest.0.len() == full.0.skip(i as int + 1).len());
            assert forall|k: int| 0 <= k < rest.0.len() implies rest.0[k] == full.0.skip(
                i as int + 1,
            )[k] by {
                assert((seq![stepres.0] + rest.0)[k + 1] == rest.0[k]);
                assert(full.0.skip(i as int)[k + 1] == full.0[i + 1 + k]);
                assert(full.0.skip(i as int + 1)[k] == full.0[i + 1 + k]);
            }
            assert(rest.0 =~= full.0.skip(i as int + 1));
            assert(entries@.skip(i as int + 1) =~= entA.skip(i as int).drop_first());
            assert(spec_run_reload(entries@.skip(i as int + 1), registry@, store@) == rest);
            assert(spec_run_reload(entries@.skip(i as int + 1), registry@, store@) == (
                full.0.skip(i as int + 1),
                full.1,
                full.2,
            ));
        }
        i += 1;
    }
    proof {
        assert(entries@.skip(n as int) =~= Seq::<ReloadEntry<H>>::empty());
        assert(entries@.take(n as int) =~= entries@);
        assert(full.0.take(n as int) =~= full.0);
    }
}

/// Every reload-pending pair points back at a listed, live entity, and
/// carries exactly the actions the callback asks for on that entity's
/// pre-pass view.
proof fn lemma_pending_reload_ids<H: ReloadCallback>(
    s0: Seq<EntityModel>,
    ents: Seq<u64>,
    h: H,
    carrier: u64,
)
    ensures
        forall|k: int|
            0 <= k < pending_of_reload(s0, ents, h, carrier).len() ==> {
                &&& ents.contains((#[trigger] pending_of_reload(s0, ents, h, carrier)[k]).0)
                &&& has_id(s0, pending_of_reload(s0, ents, h, carrier)[k].0)
                &&& pending_of_reload(s0, ents, h, carrier)[k].1 == h.actions_spec(
                    entity_of(s0, pending_of_reload(s0, ents, h, carrier)[k].0),
                    s0,
                    carrier,
                )
            },
    decreases ents.len(),
{
    if ents.len() > 0 {
        lemma_pending_reload_ids(s0, ents.drop_last(), h, carrier);
        let p = pending_of_reload(s0, ents.drop_last(), h, carrier);
        assert forall|k: int| 0 <= k < pending_of_reload(s0, ents, h, carrier).len() implies {
            &&& ents.contains((#[trigger] pending_of_reload(s0, ents, h, carrier)[k]).0)
            &&& has_id(s0, pending_of_reload(s0, ents, h, carrier)[k].0)
            &&& pending_of_reload(s0, ents, h, carrier)[k].1 == h.actions_spec(
                entity_of(s0, pending_of_reload(s0, ents, h, carrier)[k].0),
                s0,
                carrier,
            )
        } by {
            if k < p.len() {
                assert(pending_of_reload(s0, ents, h, carrier)[k] == p[k]);
                let w = choose|w: int| 0 <= w < ents.drop_last().len() && ents.drop_last()[w]
                    == p[k].0;
                assert(ents[w] == p[k].0);
            } else {
                assert(pending_of_reload(s0, ents, h, carrier)[k].0 == ents.last());
                assert(ents[ents.len() - 1] == ents.last());
            }
        }
    }
}

/// With a duplicate-free entity list, no entity is reload-pending twice.
proof fn lemma_pending_reload_no_dup<H: ReloadCallback>(
    s0: Seq<EntityModel>,
    ents: Seq<u64>,
    h: H,
    carrier: u64,
)
    requires
        crate::registry::no_dup(ents),
    ensures
        forall|i: int, j: int|
            0 <= i < j < pending_of_reload(s0, ents, h, carrier).len() ==> (
            #[trigger] pending_of_reload(s0, ents, h, carrier)[i]).0 != (
            #[trigger] pending_of_reload(s0, ents, h, carrier)[j]).0,
    decreases ents.len(),
{
    if ents.len() > 0 {
        assert forall|i: int, j: int|
            0 <= i < j < ents.drop_last().len() implies ents.drop_last()[i]
            != ents.drop_last()[j] by {
            assert(ents[i] == ents.drop_last()[i]);
            assert(ents[j] == ents.drop_last()[j]);
        }
        lemma_pending_reload_no_dup(s0, ents.drop_last(), h, carrier);
        lemma_pending_reload_ids(s0, ents.drop_last(), h, carrier);
        let p = pending_of_reload(s0, ents.drop_last(), h, carrier);
        assert forall|i: int, j: int|
            0 <= i < j < pending_of_reload(s0, ents, h, carrier).len() implies (
        #[trigger] pending_of_reload(s0, ents, h, carrier)[i]).0 != (
        #[trigger] pending_of_reload(s0, ents, h, carrier)[j]).0 by {
            if j >= p.len() {
                assert(pending_of_reload(s0, ents, h, carrier)[j].0 == ents.last());
                assert(pending_of_reload(s0, ents, h, carrier)[i] == p[i]);
                assert(ents.drop_last().contains(p[i].0));
                let w = choose|w: int| 0 <= w < ents.drop_last().len() && ents.drop_last()[w]
                    == p[i].0;
                assert(ents[w] == p[i].0);
                assert(ents[ents.len() - 1] == ents.last());
            } else {
                assert(pending_of_reload(s0, ents, h, carrier)[i] == p[i]);
                assert(pending_of_reload(s0, ents, h, carrier)[j] == p[j]);
            }
        }
    }
}

/// Every listed, live entity is reload-pending.
proof fn lemma_pending_reload_has<H: ReloadCallback>(
    s0: Seq<EntityModel>,
    ents: Seq<u64>,
    h: H,
    carrier: u64,
    id: u64,
)
    requires
        ents.contains(id),
        has_id(s0, id),
    ensures
        exists|w: int|
            0 <= w < pending_of_reload(s0, ents, h, carrier).len() && (
            #[trigger] pending_of_reload(s0, ents, h, carrier)[w]).0 == id,
    decreases ents.len(),
{
    let p = pending_of_reload(s0, ents.drop_last(), h, carrier);
    if ents.last() == id {
        assert(pending_of_reload(s0, ents, h, carrier)[p.len() as int].0 == id);
    } else {
        let w = choose|w: int| 0 <= w < ents.len() && ents[w] == id;
        assert(ents.drop_last()[w] == id);
        assert(ents.drop_last().contains(id));
        lemma_pending_reload_has(s0, ents.drop_last(), h, carrier, id);
        let u = choose|u: int| 0 <= u < p.len() && (#[trigger] p[u]).0 == id;
        assert(pending_of_reload(s0, ents, h, carrier)[u] == p[u]);
    }
}

/// The reload dispatch's exact footprint: over a duplicate-free entity list,
/// every listed entity that is live gets exactly the actions the callback
/// asks for on its pre-pass view, applied once — and no entity outside the
/// instance is touched at all.
pub proof fn lemma_dispatch_reload_effect<H: ReloadCallback>(
    s: Seq<EntityModel>,
    ents: Seq<u64>,
    h: H,
    carrier: u64,
)
    requires
        crate::registry::no_dup(ents),
    ensures
        forall|id: u64|
            #[trigger] has_id(s, id) ==> {
                &&& has_id(spec_dispatch_reload(s, ents, h, carrier), id)
                &&& (ents.contains(id) ==> entity_of(
                    spec_dispatch_reload(s, ents, h, carrier),
                    id,
                ).components == crate::hook::apply_actions(
                    entity_of(s, id).components,
                    h.actions_spec(entity_of(s, id), s, carrier),
                ))
                &&& (!ents.contains(id) ==> entity_of(spec_dispatch_reload(s, ents, h, carrier), id)
                    == entity_of(s, id))
            },
{
    let p = pending_of_reload(s, ents, h, carrier);
    let d = spec_dispatch_reload(s, ents, h, carrier);
    lemma_pending_reload_ids(s, ents, h, carrier);
    lemma_pending_reload_no_dup(s, ents, h, carrier);
    assert forall|id: u64| #[trigger] has_id(s, id) implies {
        &&& has_id(d, id)
        &&& (ents.contains(id) ==> entity_of(d, id).components == crate::hook::apply_actions(
            entity_of(s, id).components,
            h.actions_spec(entity_of(s, id), s, carrier),
        ))
        &&& (!ents.contains(id) ==> entity_of(d, id) == entity_of(s, id))
    } by {
        crate::hook::lemma_apply_pending_at(s, p, id);
        if ents.contains(id) {
            lemma_pending_reload_has(s, ents, h, carrier, id);
            let w = choose|w: int| 0 <= w < p.len() && (#[trigger] p[w]).0 == id;
            assert(p[w].1 == h.actions_spec(entity_of(s, id), s, carrier));
        } else {
            assert forall|k: int| 0 <= k < p.len() implies (#[trigger] p[k]).0 != id by {
                if p[k].0 == id {
                    assert(ents.contains(p[k].0));
                }
            }
        }
    }
}

/// After tearing a list of ids down, none of them is live any more, and no
/// id that was dead before has come alive.
pub proof fn lemma_teardown_ids(s: Seq<EntityModel>, ids: Seq<u64>, id: u64)
    ensures
        ids.contains(id) ==> !has_id(spec_teardown(s, ids), id),
        has_id(spec_teardown(s, ids), id) ==> has_id(s, id),
    decreases ids.len(),
{
    if ids.len() > 0 {
        let s1 = spec_despawn(s, ids[0]);
        crate::world::lemma_despawn_ids(s, ids[0], id);
        lemma_teardown_ids(s1, ids.drop_first(), id);
        if ids.contains(id) && id != ids[0] {
            let w = choose|w: int| 0 <= w < ids.len() && ids[w] == id;
            assert(ids.drop_first()[w - 1] == id);
            assert(ids.drop_first().contains(id));
        }
    }
}

/// A record whose hook has run rests: polling it in `Hooked` changes nothing.
pub proof fn lemma_hooked_at_rest<H: ReloadCallback>(
    e: ReloadEntry<H>,
    reg: RegistryModel,
    s: Seq<EntityModel>,
)
    requires
        e.hook.state == State::Hooked,
    ensures
        reload_step(e, reg, s) == (e, reg, s),
{
}

/// Teardown completeness: once a delete is serviced, neither any entity of
/// the record's instance nor the carrier itself is queryable any more.
pub proof fn lemma_delete_complete<H: ReloadCallback>(
    e: ReloadEntry<H>,
    reg: RegistryModel,
    s: Seq<EntityModel>,
)
    requires
        has_id(s, e.carrier),
        e.hook.state == State::MustDelete,
    ensures
        ({
            let step = reload_step(e, reg, s);
            &&& !has_id(step.2, e.carrier)
            &&& forall|id: u64|
                spec_teardown_targets(reg, e.instance).contains(id) ==> !has_id(step.2, id)
        }),
{
    let targets = spec_teardown_targets(reg, e.instance);
    let s2 = spec_teardown(s, targets);
    crate::world::lemma_despawn_ids(s2, e.carrier, e.carrier);
    assert forall|id: u64| targets.contains(id) implies !has_id(
        spec_despawn(s2, e.carrier),
        id,
    ) by {
        lemma_teardown_ids(s, targets, id);
        crate::world::lemma_despawn_ids(s2, e.carrier, id);
    }
}

/// A reload is serviced once: the poll that sees `MustReload` performs the
/// one teardown-and-reattach cycle and leaves the record in `Loading` with a
/// fresh, not-yet-ready instance — so the poll right after it changes
/// nothing (it waits for the fresh load), whether or not the reload could
/// proceed.
pub proof fn lemma_reload_serviced_once<H: ReloadCallback>(
    e: ReloadEntry<H>,
    reg: RegistryModel,
    s: Seq<EntityModel>,
)
    requires
        crate::registry::reg_wf(reg),
        e.hook.state == State::MustReload,
    ensures
        ({
            let step = reload_step(e, reg, s);
            reload_step(step.0, step.1, step.2) == step
        }),
{
    if has_id(s, e.carrier) {
        match spec_instance_source(reg, e.instance) {
            Some(src) => {
                lemma_reload_fresh(e, reg, s);
            },
            None => {},
        }
    }
}

/// No double-processing across a reload: servicing `MustReload` pairs the
/// record with a handle the registry has never issued before (in particular
/// not the one it had), registers the fresh instance as not yet ready with
/// the same source, and removes every entity of the old instantiation from
/// the store — the coming hook pass can only target the fresh instance.
pub proof fn lemma_reload_fresh<H: ReloadCallback>(
    e: ReloadEntry<H>,
    reg: RegistryModel,
    s: Seq<EntityModel>,
)
    requires
        crate::registry::reg_wf(reg),
        has_id(s, e.carrier),
        e.hook.state == State::MustReload,
        spec_instance_source(reg, e.instance) is Some,
    ensures
        ({
            let step = reload_step(e, reg, s);
            &&& step.0.carrier == e.carrier
            &&& step.0.hook.state == State::Loading
            &&& step.0.instance != e.instance
            &&& !crate::registry::spec_has_instance(reg, step.0.instance)
            &&& crate::registry::spec_has_instance(step.1, step.0.instance)
            &&& !spec_is_ready(step.1, step.0.instance)
            &&& spec_instance_entities(step.1, step.0.instance) == Seq::<u64>::empty()
            &&& spec_instance_source(step.1, step.0.instance) == spec_instance_source(
                reg,
                e.instance,
            )
            &&& forall|id: u64|
                spec_teardown_targets(reg, e.instance).contains(id) ==> !has_id(step.2, id)
        }),
{
    let h2 = reg.next;
    crate::registry::lemma_inst_idx(reg.instances, e.instance);
    crate::registry::lemma_inst_idx(reg.instances, h2);
    if crate::registry::spec_has_instance(reg, h2) {
        let fi = crate::registry::inst_idx(reg.instances, h2);
        assert(reg.instances[fi].handle < reg.next);
        assert(false);
    }
    let step = reload_step(e, reg, s);
    let im = InstanceModel {
        handle: h2,
        source: spec_instance_source(reg, e.instance),
        ready: false,
        entities: Seq::empty(),
    };
    assert(step.1.instances == reg.instances.push(im));
    assert forall|k: int| 0 <= k < reg.instances.len() implies reg.instances.push(
        im,
    )[k].handle != h2 by {
        assert(reg.instances.push(im)[k] == reg.instances[k]);
    }
    assert(reg.instances.push(im)[reg.instances.len() as int] == im);
    crate::registry::lemma_inst_idx_unique(
        reg.instances.push(im),
        h2,
        reg.instances.len() as int,
    );
    let targets = spec_teardown_targets(reg, e.instance);
    assert forall|id: u64| targets.contains(id) implies !has_id(step.2, id) by {
        lemma_teardown_ids(s, targets, id);
    }
}

} // verus!
