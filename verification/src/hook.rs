//! The hook registry and dispatcher.
//!
//! A hook record pairs a pending scene instance with a callback. Each poll,
//! the dispatcher looks at every carrier that is not yet done: once the
//! instance's entity set is enumerable, the callback runs once per entity —
//! reading the entity as it stood before the pass, handing back the component
//! insertions and removals to apply — and the carrier is tagged done, never
//! to be revisited.

use vstd::prelude::*;

use crate::registry::{Registry, RegistryModel, spec_is_ready, spec_instance_entities};
use crate::world::{
    Entity, EntityModel, Store, entity_of, has_id, spec_insert_component, spec_remove_component,
    spec_set_hooked,
};

verus! {

/// One mutation a hook asks for on the entity it is visiting.
#[derive(Clone, Copy, PartialEq, Eq, Structural, Debug)]
pub enum HookAction {
    /// Attach the component with this id.
    Insert(u64),
    /// Detach the component with this id.
    Remove(u64),
}

/// A component set after one action.
pub open spec fn apply_action(cs: Set<u64>, a: HookAction) -> Set<u64> {
    match a {
        HookAction::Insert(c) => cs.insert(c),
        HookAction::Remove(c) => cs.remove(c),
    }
}

/// A component set after a list of actions, applied in order.
pub open spec fn apply_actions(cs: Set<u64>, acts: Seq<HookAction>) -> Set<u64>
    decreases acts.len(),
{
    if acts.len() == 0 {
        cs
    } else {
        apply_actions(apply_action(cs, acts[0]), acts.drop_first())
    }
}

/// Caller-supplied logic, run once per entity of a freshly materialized
/// scene. The callback reads the entity and decides which components to add
/// or remove on it; it mutates nothing itself.
pub trait HookCallback: Sized {
    /// The actions the callback asks for on the given entity view.
    spec fn actions_spec(&self, e: EntityModel) -> Seq<HookAction>;

    /// Inspect one entity of the scene and hand back the actions to apply.
    fn on_entity(&self, e: &Entity) -> (r: Vec<HookAction>)
        ensures
            r@ == self.actions_spec(e@),
    ;
}

/// Marker for carriers whose hook has run. In the model store this tag is
/// the `hooked` flag on the carrier entity; the poll predicate excludes
/// tagged carriers, which makes "done" a terminal state.
pub struct SceneHooked;

/// The hook record a caller attaches next to a pending scene instance.
pub struct SceneHook<H> {
    /// The callback to run once per entity when the scene is ready.
    pub hook: H,
}

impl<H: HookCallback> SceneHook<H> {
    /// Wrap a callback, to run for each entity once the scene is loaded.
    pub fn new(hook: H) -> (r: SceneHook<H>)
        ensures
            r.hook == hook,
    {
        SceneHook { hook }
    }
}

/// One carrier the dispatcher polls: the carrier entity, the instance it
/// waits on, and the hook record.
pub struct HookEntry<H> {
    /// The entity carrying the record.
    pub carrier: u64,
    /// The instance handle the record waits on.
    pub instance: u64,
    /// The attached hook record.
    pub hook: SceneHook<H>,
}

/// One name-to-marker rule of an [`InsertOnName`] hook.
pub struct NameRule {
    /// The entity name the rule matches on.
    pub name: String,
    /// The component to insert on matching entities.
    pub component: u64,
}

/// Whether the rule matches the entity (an unnamed entity matches no rule).
pub open spec fn rule_matches(r: NameRule, e: EntityModel) -> bool {
    e.name == Some(r.name@)
}

/// The actions a rule list asks for on an entity: one insertion per rule
/// whose name the entity carries, in rule order.
pub open spec fn rules_actions(rules: Seq<NameRule>, e: EntityModel) -> Seq<HookAction>
    decreases rules.len(),
{
    if rules.len() == 0 {
        Seq::empty()
    } else {
        let p = rules_actions(rules.drop_last(), e);
        if rule_matches(rules.last(), e) {
            p.push(HookAction::Insert(rules.last().component))
        } else {
            p
        }
    }
}

/// The bread-and-butter hook: match entities by name and insert a marker
/// component on each match — the way callers attach physics bodies or
/// gameplay tags to nodes a scene file can only name.
pub struct InsertOnName {
    /// The name-to-marker rules, tried in order on every entity.
    pub rules: Vec<NameRule>,
}

impl HookCallback for InsertOnName {
    open spec fn actions_spec(&self, e: EntityModel) -> Seq<HookAction> {
        rules_actions(self.rules@, e)
    }

    fn on_entity(&self, e: &Entity) -> (r: Vec<HookAction>) {
        let mut out: Vec<HookAction> = Vec::new();
        proof {
            assert(self.rules@.take(0) =~= Seq::<NameRule>::empty());
            assert(out@ =~= rules_actions(self.rules@.take(0), e@));
        }
        let n = self.rules.len();
        let mut i: usize = 0;
        while i < n
            invariant
                n == self.rules@.len(),
                0 <= i <= n,
                out@ == rules_actions(self.rules@.take(i as int), e@),
            decreases n - i,
        {
            let hit = match &e.name {
                Some(nm) => nm.eq(&self.rules[i].name),
                None => false,
            };
            proof {
                assert(self.rules@.take(i as int + 1).drop_last() =~= self.rules@.take(i as int));
                assert(self.rules@.take(i as int + 1).last() == self.rules@[i as int]);
                assert(hit == rule_matches(self.rules@[i as int], e@));
            }
            if hit {
                out.push(HookAction::Insert(self.rules[i].component));
            }
            i += 1;
        }
        proof {
            assert(self.rules@.take(n as int) =~= self.rules@);
        }
        out
    }
}

/// The actions a rule list asks for when stripping: one removal per rule
/// whose name the entity carries, in rule order.
pub open spec fn rules_removals(rules: Seq<NameRule>, e: EntityModel) -> Seq<HookAction>
    decreases rules.len(),
{
    if rules.len() == 0 {
        Seq::empty()
    } else {
        let p = rules_removals(rules.drop_last(), e);
        if rule_matches(rules.last(), e) {
            p.push(HookAction::Remove(rules.last().component))
        } else {
            p
        }
    }
}

/// The inverse hook: match entities by name and take a component away from
/// each match — for scenes whose nodes arrive carrying data the caller wants
/// gone.
pub struct StripOnName {
    /// The name-to-component rules, tried in order on every entity.
    pub rules: Vec<NameRule>,
}

impl HookCallback for StripOnName {
    open spec fn actions_spec(&self, e: EntityModel) -> Seq<HookAction> {
        rules_removals(self.rules@, e)
    }

    fn on_entity(&self, e: &Entity) -> (r: Vec<HookAction>) {
        let mut out: Vec<HookAction> = Vec::new();
        proof {
            assert(self.rules@.take(0) =~= Seq::<NameRule>::empty());
            assert(out@ =~= rules_removals(self.rules@.take(0), e@));
        }
        let n = self.rules.len();
        let mut i: usize = 0;
        while i < n
            invariant
                n == self.rules@.len(),
                0 <= i <= n,
                out@ == rules_removals(self.rules@.take(i as int), e@),
            decreases n - i,
        {
            let hit = match &e.name {
                Some(nm) => nm.eq(&self.rules[i].name),
                None => false,
            };
            proof {
                assert(self.rules@.take(i as int + 1).drop_last() =~= self.rules@.take(i as int));
                assert(self.rules@.take(i as int + 1).last() == self.rules@[i as int]);
                assert(hit == rule_matches(self.rules@[i as int], e@));
            }
            if hit {
                out.push(HookAction::Remove(self.rules[i].component));
            }
            i += 1;
        }
        proof {
            assert(self.rules@.take(n as int) =~= self.rules@);
        }
        out
    }
}

/// The store after applying one action to one entity.
pub open spec fn step_action_store(s: Seq<EntityModel>, id: u64, a: HookAction) -> Seq<
    EntityModel,
> {
    match a {
        HookAction::Insert(c) => spec_insert_component(s, id, c),
        HookAction::Remove(c) => spec_remove_component(s, id, c),
    }
}

/// The store after applying a list of actions to one entity, in order.
pub open spec fn steps_store(s: Seq<EntityModel>, id: u64, acts: Seq<HookAction>) -> Seq<
    EntityModel,
>
    decreases acts.len(),
{
    if acts.len() == 0 {
        s
    } else {
        steps_store(step_action_store(s, id, acts[0]), id, acts.drop_first())
    }
}

/// What one pass will apply: for each listed entity that is live in the
/// pre-pass store, the id paired with the actions the callback asks for on
/// its pre-pass view. Entities no longer live are silently skipped.
pub open spec fn pending_of<H: HookCallback>(
    s0: Seq<EntityModel>,
    ents: Seq<u64>,
    h: H,
) -> Seq<(u64, Seq<HookAction>)>
    decreases ents.len(),
{
    if ents.len() == 0 {
        Seq::empty()
    } else {
        let p = pending_of(s0, ents.drop_last(), h);
        let id = ents.last();
        if has_id(s0, id) {
            p.push((id, h.actions_spec(entity_of(s0, id))))
        } else {
            p
        }
    }
}

/// The store after applying a pending list, one entry at a time.
pub open spec fn apply_pending(
    s: Seq<EntityModel>,
    pending: Seq<(u64, Seq<HookAction>)>,
) -> Seq<EntityModel>
    decreases pending.len(),
{
    if pending.len() == 0 {
        s
    } else {
        apply_pending(steps_store(s, pending[0].0, pending[0].1), pending.drop_first())
    }
}

/// One full dispatch over a ready instance: every listed entity still live is
/// visited once, with actions computed from the pre-pass store, then the
/// carrier is tagged done.
pub open spec fn spec_dispatch<H: HookCallback>(
    s: Seq<EntityModel>,
    ents: Seq<u64>,
    h: H,
    carrier: u64,
) -> Seq<EntityModel> {
    spec_set_hooked(apply_pending(s, pending_of(s, ents, h)), carrier)
}

/// One poll of one carrier: nothing happens while the carrier is gone, its
/// hook already ran, or the instance is not yet enumerable; otherwise the
/// whole instance is dispatched in this very poll.
pub open spec fn hook_step<H: HookCallback>(
    e: HookEntry<H>,
    reg: RegistryModel,
    s: Seq<EntityModel>,
) -> Seq<EntityModel> {
    if has_id(s, e.carrier) && !entity_of(s, e.carrier).hooked && spec_is_ready(reg, e.instance) {
        spec_dispatch(s, spec_instance_entities(reg, e.instance), e.hook.hook, e.carrier)
    } else {
        s
    }
}

/// One poll over all carriers, in order.
pub open spec fn spec_run_hooks<H: HookCallback>(
    entries: Seq<HookEntry<H>>,
    reg: RegistryModel,
    s: Seq<EntityModel>,
) -> Seq<EntityModel>
    decreases entries.len(),
{
    if entries.len() == 0 {
        s
    } else {
        spec_run_hooks(entries.drop_first(), reg, hook_step(entries[0], reg, s))
    }
}

/// View of a collected pending list.
pub(crate) open spec fn pend_view(p: Seq<(u64, Vec<HookAction>)>) -> Seq<(u64, Seq<HookAction>)> {
    p.map(|i: int, t: (u64, Vec<HookAction>)| (t.0, t.1@))
}

/// Mapping a pushed pending list equals pushing the mapped view.
pub(crate) proof fn lemma_pend_view_push(p: Seq<(u64, Vec<HookAction>)>, t: (u64, Vec<HookAction>))
    ensures
        pend_view(p.push(t)) == pend_view(p).push((t.0, t.1@)),
{
    assert forall|k: int| 0 <= k < p.len() + 1 implies #[trigger] pend_view(p.push(t))[k]
        == pend_view(p).push((t.0, t.1@))[k] by {
        if k < p.len() {
            assert(p.push(t)[k] == p[k]);
        } else {
            assert(p.push(t)[k] == t);
        }
    }
    assert(pend_view(p.push(t)) =~= pend_view(p).push((t.0, t.1@)));
}

/// Apply the actions one visit asked for on one entity.
pub(crate) fn apply_entity_actions(store: &mut Store, id: u64, acts: &Vec<HookAction>)
    ensures
        final(store)@ == steps_store(old(store)@, id, acts@),
{
    let ghost s0 = store@;
    proof {
        assert(acts@.skip(0) =~= acts@);
    }
    let n = acts.len();
    let mut t: usize = 0;
    while t < n
        invariant
            n == acts@.len(),
            0 <= t <= n,
            steps_store(store@, id, acts@.skip(t as int)) == steps_store(s0, id, acts@),
        decreases n - t,
    {
        proof {
            assert(acts@.skip(t as int)[0] == acts@[t as int]);
            assert(acts@.skip(t as int).drop_first() =~= acts@.skip(t as int + 1));
        }
        match acts[t] {
            HookAction::Insert(c) => {
                store.insert_component(id, c);
            },
            HookAction::Remove(c) => {
                store.remove_component(id, c);
            },
        }
        t += 1;
    }
    proof {
        assert(acts@.skip(n as int) =~= Seq::<HookAction>::empty());
    }
}

/// Run one full hook pass over a ready instance: visit every listed entity
/// that is still live (collecting all actions against the pre-pass store),
/// apply the actions, then tag the carrier done.
fn dispatch_instance<H: HookCallback>(store: &mut Store, ents: &Vec<u64>, h: &H, carrier: u64)
    ensures
        final(store)@ == spec_dispatch(old(store)@, ents@, *h, carrier),
{
    let ghost s0 = store@;
    let n = ents.len();
    let mut pending: Vec<(u64, Vec<HookAction>)> = Vec::new();
    let mut i: usize = 0;
    while i < n
        invariant
            n == ents@.len(),
            0 <= i <= n,
            store@ == s0,
            pend_view(pending@) == pending_of(s0, ents@.take(i as int), *h),
        decreases n - i,
    {
        let id = ents[i];
        let ghost pend0 = pending@;
        match store.get_entity(id) {
            Some(e) => {
                let acts = h.on_entity(e);
                pending.push((id, acts));
                proof {
                    lemma_pend_view_push(pend0, (id, acts));
                }
            },
            None => {},
        }
        proof {
            assert(ents@.take(i as int + 1).drop_last() =~= ents@.take(i as int));
            assert(ents@.take(i as int + 1).last() == ents@[i as int]);
        }
        i += 1;
    }
    proof {
        assert(ents@.take(n as int) =~= ents@);
    }
    let ghost target = apply_pending(s0, pending_of(s0, ents@, *h));
    proof {
        assert(pend_view(pending@).skip(0) =~= pend_view(pending@));
    }
    let m = pending.len();
    let mut j: usize = 0;
    while j < m
        invariant
            m == pending@.len(),
            0 <= j <= m,
            pend_view(pending@) == pending_of(s0, ents@, *h),
            apply_pending(store@, pend_view(pending@).skip(j as int)) == target,
        decreases m - j,
    {
        proof {
            assert(pend_view(pending@)[j as int] == (pending@[j as int].0, pending@[j as int].1@));
            assert(pend_view(pending@).skip(j as int)[0] == pend_view(pending@)[j as int]);
            assert(pend_view(pending@).skip(j as int).drop_first() =~= pend_view(
                pending@,
            ).skip(j as int + 1));
        }
        let id = pending[j].0;
        apply_entity_actions(store, id, &pending[j].1);
        j += 1;
    }
    proof {
        assert(pend_view(pending@).skip(m as int) =~= Seq::<(u64, Seq<HookAction>)>::empty());
    }
    store.set_hooked(carrier);
}

/// One poll over every hook record: for each carrier that is live, not yet
/// done, and whose instance is enumerable, run the hook over the whole
/// instance and tag the carrier done. Carriers whose instance is not ready
/// are left for a later poll; done carriers are never revisited.
pub fn run_hooks<H: HookCallback>(entries: &Vec<HookEntry<H>>, registry: &Registry, store: &mut Store)
    ensures
        final(store)@ == spec_run_hooks(entries@, registry@, old(store)@),
{
    let ghost s0 = store@;
    proof {
        assert(entries@.skip(0) =~= entries@);
    }
    let n = entries.len();
    let mut i: usize = 0;
    while i < n
        invariant
            n == entries@.len(),
            0 <= i <= n,
            spec_run_hooks(entries@.skip(i as int), registry@, store@) == spec_run_hooks(
                entries@,
                registry@,
                s0,
            ),
        decreases n - i,
    {
        proof {
            assert(entries@.skip(i as int)[0] == entries@[i as int]);
            assert(entries@.skip(i as int).drop_first() =~= entries@.skip(i as int + 1));
        }
        let carrier = entries[i].carrier;
        let instance = entries[i].instance;
        let pending_carrier = match store.get_entity(carrier) {
            Some(e) => !e.hooked,
            None => false,
        };
        if pending_carrier {
            match registry.entities_of(instance) {
                Some(ents) => {
                    dispatch_instance(store, &ents, &entries[i].hook.hook, carrier);
                },
                None => {},
            }
        }
        i += 1;
    }
    proof {
        assert(entries@.skip(n as int) =~= Seq::<HookEntry<H>>::empty());
    }
}

/// One action keeps the store's skeleton.
proof fn lemma_step_action_skeleton(s: Seq<EntityModel>, id: u64, a: HookAction)
    ensures
        crate::world::skeleton_kept(s, step_action_store(s, id, a)),
{
    match a {
        HookAction::Insert(c) => crate::world::lemma_insert_component_skeleton(s, id, c),
        HookAction::Remove(c) => crate::world::lemma_remove_component_skeleton(s, id, c),
    }
}

/// A visit's action list keeps the store's skeleton.
proof fn lemma_steps_store_skeleton(s: Seq<EntityModel>, id: u64, acts: Seq<HookAction>)
    ensures
        crate::world::skeleton_kept(s, steps_store(s, id, acts)),
    decreases acts.len(),
{
    if acts.len() == 0 {
        assert(crate::world::skeleton_kept(s, s));
    } else {
        let s1 = step_action_store(s, id, acts[0]);
        lemma_step_action_skeleton(s, id, acts[0]);
        lemma_steps_store_skeleton(s1, id, acts.drop_first());
        crate::world::lemma_skeleton_trans(s, s1, steps_store(s1, id, acts.drop_first()));
    }
}

/// Applying a whole pending list keeps the store's skeleton.
proof fn lemma_apply_pending_skeleton(s: Seq<EntityModel>, pending: Seq<(u64, Seq<HookAction>)>)
    ensures
        crate::world::skeleton_kept(s, apply_pending(s, pending)),
    decreases pending.len(),
{
    if pending.len() == 0 {
        assert(crate::world::skeleton_kept(s, s));
    } else {
        let s1 = steps_store(s, pending[0].0, pending[0].1);
        lemma_steps_store_skeleton(s, pending[0].0, pending[0].1);
        lemma_apply_pending_skeleton(s1, pending.drop_first());
        crate::world::lemma_skeleton_trans(s, s1, apply_pending(s1, pending.drop_first()));
    }
}

/// A dispatch keeps the store's skeleton: it only edits component sets and
/// switches hooked tags on — and it does tag the carrier, when it is live.
pub proof fn lemma_dispatch_skeleton<H: HookCallback>(
    s: Seq<EntityModel>,
    ents: Seq<u64>,
    h: H,
    carrier: u64,
)
    ensures
        crate::world::skeleton_kept(s, spec_dispatch(s, ents, h, carrier)),
        has_id(s, carrier) ==> has_id(spec_dispatch(s, ents, h, carrier), carrier) && entity_of(
            spec_dispatch(s, ents, h, carrier),
            carrier,
        ).hooked,
{
    let ap = apply_pending(s, pending_of(s, ents, h));
    lemma_apply_pending_skeleton(s, pending_of(s, ents, h));
    crate::world::lemma_set_hooked_skeleton(ap, carrier);
    crate::world::lemma_skeleton_trans(s, ap, spec_set_hooked(ap, carrier));
    if has_id(s, carrier) {
        crate::world::lemma_skeleton_ids(s, ap, carrier);
    }
}

/// One action on one entity edits exactly that entity's component set, as
/// `apply_action` says.
proof fn lemma_step_action_self(s: Seq<EntityModel>, id: u64, a: HookAction)
    requires
        has_id(s, id),
    ensures
        has_id(step_action_store(s, id, a), id),
        entity_of(step_action_store(s, id, a), id).components == apply_action(
            entity_of(s, id).components,
            a,
        ),
{
    crate::world::lemma_find_idx(s, id);
    lemma_step_action_skeleton(s, id, a);
    crate::world::lemma_skeleton_ids(s, step_action_store(s, id, a), id);
}

/// One action on one entity leaves every other entity alone.
proof fn lemma_step_action_other(s: Seq<EntityModel>, id: u64, a: HookAction, other: u64)
    requires
        other != id,
        has_id(s, other),
    ensures
        has_id(step_action_store(s, id, a), other),
        entity_of(step_action_store(s, id, a), other) == entity_of(s, other),
{
    crate::world::lemma_find_idx(s, id);
    crate::world::lemma_find_idx(s, other);
    lemma_step_action_skeleton(s, id, a);
    crate::world::lemma_skeleton_ids(s, step_action_store(s, id, a), other);
}

/// A visit's action list edits exactly the visited entity's component set,
/// folding `apply_action` over the list.
proof fn lemma_steps_store_self(s: Seq<EntityModel>, id: u64, acts: Seq<HookAction>)
    requires
        has_id(s, id),
    ensures
        has_id(steps_store(s, id, acts), id),
        entity_of(steps_store(s, id, acts), id).components == apply_actions(
            entity_of(s, id).components,
            acts,
        ),
    decreases acts.len(),
{
    if acts.len() > 0 {
        let s1 = step_action_store(s, id, acts[0]);
        lemma_step_action_self(s, id, acts[0]);
        lemma_steps_store_self(s1, id, acts.drop_first());
    }
}

/// A visit's action list leaves every other entity alone.
proof fn lemma_steps_store_other(s: Seq<EntityModel>, id: u64, acts: Seq<HookAction>, other: u64)
    requires
        other != id,
        has_id(s, other),
    ensures
        has_id(steps_store(s, id, acts), other),
        entity_of(steps_store(s, id, acts), other) == entity_of(s, other),
    decreases acts.len(),
{
    if acts.len() > 0 {
        let s1 = step_action_store(s, id, acts[0]);
        lemma_step_action_other(s, id, acts[0], other);
        lemma_steps_store_other(s1, id, acts.drop_first(), other);
    }
}

/// Every pending pair points back at a listed, live entity, and carries
/// exactly the actions the callback asks for on that entity's pre-pass view.
proof fn lemma_pending_ids<H: HookCallback>(s0: Seq<EntityModel>, ents: Seq<u64>, h: H)
    ensures
        forall|k: int|
            0 <= k < pending_of(s0, ents, h).len() ==> {
                &&& ents.contains((#[trigger] pending_of(s0, ents, h)[k]).0)
                &&& has_id(s0, pending_of(s0, ents, h)[k].0)
                &&& pending_of(s0, ents, h)[k].1 == h.actions_spec(
                    entity_of(s0, pending_of(s0, ents, h)[k].0),
                )
            },
    decreases ents.len(),
{
    if ents.len() > 0 {
        lemma_pending_ids(s0, ents.drop_last(), h);
        let p = pending_of(s0, ents.drop_last(), h);
        assert forall|k: int| 0 <= k < pending_of(s0, ents, h).len() implies {
            &&& ents.contains((#[trigger] pending_of(s0, ents, h)[k]).0)
            &&& has_id(s0, pending_of(s0, ents, h)[k].0)
            &&& pending_of(s0, ents, h)[k].1 == h.actions_spec(
                entity_of(s0, pending_of(s0, ents, h)[k].0),
            )
        } by {
            if k < p.len() {
                assert(pending_of(s0, ents, h)[k] == p[k]);
                let w = choose|w: int| 0 <= w < ents.drop_last().len() && ents.drop_last()[w]
                    == p[k].0;
                assert(ents[w] == p[k].0);
            } else {
                assert(pending_of(s0, ents, h)[k].0 == ents.last());
                assert(ents[ents.len() - 1] == ents.last());
            }
        }
    }
}

/// With a duplicate-free entity list, no entity is pending twice.
proof fn lemma_pending_no_dup<H: HookCallback>(s0: Seq<EntityModel>, ents: Seq<u64>, h: H)
    requires
        crate::registry::no_dup(ents),
    ensures
        forall|i: int, j: int|
            0 <= i < j < pending_of(s0, ents, h).len() ==> (#[trigger] pending_of(
                s0,
                ents,
                h,
            )[i]).0 != (#[trigger] pending_of(s0, ents, h)[j]).0,
    decreases ents.len(),
{
    if ents.len() > 0 {
        assert forall|i: int, j: int|
            0 <= i < j < ents.drop_last().len() implies ents.drop_last()[i]
            != ents.drop_last()[j] by {
            assert(ents[i] == ents.drop_last()[i]);
            assert(ents[j] == ents.drop_last()[j]);
        }
        lemma_pending_no_dup(s0, ents.drop_last(), h);
        lemma_pending_ids(s0, ents.drop_last(), h);
        let p = pending_of(s0, ents.drop_last(), h);
        assert forall|i: int, j: int|
            0 <= i < j < pending_of(s0, ents, h).len() implies (#[trigger] pending_of(
            s0,
            ents,
            h,
        )[i]).0 != (#[trigger] pending_of(s0, ents, h)[j]).0 by {
            if j >= p.len() {
                assert(pending_of(s0, ents, h)[j].0 == ents.last());
                assert(pending_of(s0, ents, h)[i] == p[i]);
                assert(ents.drop_last().contains(p[i].0));
                let w = choose|w: int| 0 <= w < ents.drop_last().len() && ents.drop_last()[w]
                    == p[i].0;
                assert(ents[w] == p[i].0);
                assert(ents[ents.len() - 1] == ents.last());
            } else {
                assert(pending_of(s0, ents, h)[i] == p[i]);
                assert(pending_of(s0, ents, h)[j] == p[j]);
            }
        }
    }
}

/// Every listed, live entity is pending.
proof fn lemma_pending_has<H: HookCallback>(s0: Seq<EntityModel>, ents: Seq<u64>, h: H, id: u64)
    requires
        ents.contains(id),
        has_id(s0, id),
    ensures
        exists|w: int|
            0 <= w < pending_of(s0, ents, h).len() && (#[trigger] pending_of(s0, ents, h)[w]).0
                == id,
    decreases ents.len(),
{
    let p = pending_of(s0, ents.drop_last(), h);
    if ents.last() == id {
        assert(pending_of(s0, ents, h)[p.len() as int].0 == id);
    } else {
        let w = choose|w: int| 0 <= w < ents.len() && ents[w] == id;
        assert(ents.drop_last()[w] == id);
        assert(ents.drop_last().contains(id));
        lemma_pending_has(s0, ents.drop_last(), h, id);
        let u = choose|u: int| 0 <= u < p.len() && (#[trigger] p[u]).0 == id;
        assert(pending_of(s0, ents, h)[u] == p[u]);
    }
}

/// Applying a duplicate-free pending list edits each pending entity's
/// component set once, with its own actions, and touches nothing else.
pub(crate) proof fn lemma_apply_pending_at(
    s: Seq<EntityModel>,
    pending: Seq<(u64, Seq<HookAction>)>,
    id: u64,
)
    requires
        has_id(s, id),
        forall|i: int, j: int|
            0 <= i < j < pending.len() ==> (#[trigger] pending[i]).0 != (#[trigger] pending[j]).0,
    ensures
        has_id(apply_pending(s, pending), id),
        (forall|k: int| 0 <= k < pending.len() ==> (#[trigger] pending[k]).0 != id)
            ==> entity_of(apply_pending(s, pending), id) == entity_of(s, id),
        forall|w: int|
            0 <= w < pending.len() && (#[trigger] pending[w]).0 == id ==> entity_of(
                apply_pending(s, pending),
                id,
            ).components == apply_actions(entity_of(s, id).components, pending[w].1),
    decreases pending.len(),
{
    if pending.len() > 0 {
        let s1 = steps_store(s, pending[0].0, pending[0].1);
        let rest = pending.drop_first();
        assert forall|i: int, j: int|
            0 <= i < j < rest.len() implies (#[trigger] rest[i]).0 != (#[trigger] rest[j]).0 by {
            assert(pending.drop_first()[i] == pending[i + 1]);
            assert(pending.drop_first()[j] == pending[j + 1]);
        }
        if pending[0].0 == id {
            lemma_steps_store_self(s, id, pending[0].1);
            lemma_apply_pending_at(s1, pending.drop_first(), id);
            assert forall|k: int| 0 <= k < pending.drop_first().len() implies (
            #[trigger] pending.drop_first()[k]).0 != id by {
                assert(pending.drop_first()[k] == pending[k + 1]);
            }
            assert forall|w: int|
                0 <= w < pending.len() && (#[trigger] pending[w]).0 == id implies entity_of(
                apply_pending(s, pending),
                id,
            ).components == apply_actions(entity_of(s, id).components, pending[w].1) by {
                if w > 0 {
                    assert(pending[w].0 != pending[0].0);
                }
            }
        } else {
            lemma_steps_store_other(s, pending[0].0, pending[0].1, id);
            lemma_apply_pending_at(s1, pending.drop_first(), id);
            assert forall|w: int|
                0 <= w < pending.len() && (#[trigger] pending[w]).0 == id implies entity_of(
                apply_pending(s, pending),
                id,
            ).components == apply_actions(entity_of(s, id).components, pending[w].1) by {
                assert(pending.drop_first()[w - 1] == pending[w]);
            }
            if forall|k: int| 0 <= k < pending.len() ==> (#[trigger] pending[k]).0 != id {
                assert forall|k: int| 0 <= k < pending.drop_first().len() implies (
                #[trigger] pending.drop_first()[k]).0 != id by {
                    assert(pending.drop_first()[k] == pending[k + 1]);
                }
            }
        }
    }
}

/// The dispatch's exact footprint: over a duplicate-free entity list, every
/// listed entity that is live gets exactly the actions the callback asks for
/// on its pre-pass view, applied once — and no entity outside the instance
/// is touched.
pub proof fn lemma_dispatch_effect<H: HookCallback>(
    s: Seq<EntityModel>,
    ents: Seq<u64>,
    h: H,
    carrier: u64,
)
    requires
        crate::registry::no_dup(ents),
    ensures
        forall|id: u64|
            #[trigger] has_id(s, id) ==> {
                &&& has_id(spec_dispatch(s, ents, h, carrier), id)
                &&& (ents.contains(id) ==> entity_of(spec_dispatch(s, ents, h, carrier), id).components
                    == apply_actions(entity_of(s, id).components, h.actions_spec(entity_of(s, id))))
                &&& (!ents.contains(id) ==> entity_of(spec_dispatch(s, ents, h, carrier), id).components
                    == entity_of(s, id).components)
            },
{
    let p = pending_of(s, ents, h);
    let ap = apply_pending(s, p);
    let d = spec_dispatch(s, ents, h, carrier);
    lemma_pending_ids(s, ents, h);
    lemma_pending_no_dup(s, ents, h);
    assert forall|id: u64| #[trigger] has_id(s, id) implies {
        &&& has_id(d, id)
        &&& (ents.contains(id) ==> entity_of(d, id).components == apply_actions(
            entity_of(s, id).components,
            h.actions_spec(entity_of(s, id)),
        ))
        &&& (!ents.contains(id) ==> entity_of(d, id).components == entity_of(s, id).components)
    } by {
        lemma_apply_pending_at(s, p, id);
        crate::world::lemma_set_hooked_components(ap, carrier, id);
        crate::world::lemma_set_hooked_skeleton(ap, carrier);
        crate::world::lemma_skeleton_ids(ap, d, id);
        if ents.contains(id) {
            lemma_pending_has(s, ents, h, id);
            let w = choose|w: int| 0 <= w < p.len() && (#[trigger] p[w]).0 == id;
            assert(p[w].1 == h.actions_spec(entity_of(s, id)));
        } else {
            assert forall|k: int| 0 <= k < p.len() implies (#[trigger] p[k]).0 != id by {
                if p[k].0 == id {
                    assert(ents.contains(p[k].0));
                }
            }
        }
    }
}

/// A processed carrier is never revisited: once its hooked tag stands, a
/// poll of its record leaves the store untouched — "done" is terminal.
pub proof fn lemma_done_terminal<H: HookCallback>(
    e: HookEntry<H>,
    reg: RegistryModel,
    s: Seq<EntityModel>,
)
    requires
        has_id(s, e.carrier),
        entity_of(s, e.carrier).hooked,
    ensures
        hook_step(e, reg, s) == s,
{
}

/// All-or-nothing visibility: one poll of one record either leaves the store
/// exactly as it was (carrier gone or done, or instance not enumerable), or
/// performs the full dispatch over every entity of the instance, atomically
/// within that poll.
pub proof fn lemma_all_or_nothing<H: HookCallback>(
    e: HookEntry<H>,
    reg: RegistryModel,
    s: Seq<EntityModel>,
)
    ensures
        hook_step(e, reg, s) == s || hook_step(e, reg, s) == spec_dispatch(
            s,
            spec_instance_entities(reg, e.instance),
            e.hook.hook,
            e.carrier,
        ),
{
}

/// A record that can make no further progress: its carrier is gone, its
/// carrier is already done, or its instance is not ready.
pub open spec fn entry_inert<H: HookCallback>(
    e: HookEntry<H>,
    reg: RegistryModel,
    s: Seq<EntityModel>,
) -> bool {
    ||| !has_id(s, e.carrier)
    ||| entity_of(s, e.carrier).hooked
    ||| !spec_is_ready(reg, e.instance)
}

/// Polling an inert record changes nothing.
pub proof fn lemma_inert_step_identity<H: HookCallback>(
    e: HookEntry<H>,
    reg: RegistryModel,
    s: Seq<EntityModel>,
)
    requires
        entry_inert(e, reg, s),
    ensures
        hook_step(e, reg, s) == s,
{
}

/// Inertness survives any store change that keeps the skeleton.
pub proof fn lemma_inert_under_skeleton<H: HookCallback>(
    e: HookEntry<H>,
    reg: RegistryModel,
    a: Seq<EntityModel>,
    b: Seq<EntityModel>,
)
    requires
        entry_inert(e, reg, a),
        crate::world::skeleton_kept(a, b),
    ensures
        entry_inert(e, reg, b),
{
    crate::world::lemma_skeleton_ids(a, b, e.carrier);
}

/// After its own poll, a record is inert: either nothing fired, and the
/// reason it did not still stands, or the dispatch ran and tagged the
/// carrier done.
pub proof fn lemma_step_makes_inert<H: HookCallback>(
    e: HookEntry<H>,
    reg: RegistryModel,
    s: Seq<EntityModel>,
)
    ensures
        entry_inert(e, reg, hook_step(e, reg, s)),
{
    if has_id(s, e.carrier) && !entity_of(s, e.carrier).hooked && spec_is_ready(reg, e.instance) {
        lemma_dispatch_skeleton(s, spec_instance_entities(reg, e.instance), e.hook.hook, e.carrier);
    }
}

/// A whole poll pass keeps the store's skeleton.
pub proof fn lemma_run_hooks_skeleton<H: HookCallback>(
    entries: Seq<HookEntry<H>>,
    reg: RegistryModel,
    s: Seq<EntityModel>,
)
    ensures
        crate::world::skeleton_kept(s, spec_run_hooks(entries, reg, s)),
    decreases entries.len(),
{
    if entries.len() == 0 {
        assert(crate::world::skeleton_kept(s, s));
    } else {
        let s1 = hook_step(entries[0], reg, s);
        if has_id(s, entries[0].carrier) && !entity_of(s, entries[0].carrier).hooked
            && spec_is_ready(reg, entries[0].instance) {
            lemma_dispatch_skeleton(
                s,
                spec_instance_entities(reg, entries[0].instance),
                entries[0].hook.hook,
                entries[0].carrier,
            );
        } else {
            assert(crate::world::skeleton_kept(s, s1));
        }
        lemma_run_hooks_skeleton(entries.drop_first(), reg, s1);
        crate::world::lemma_skeleton_trans(s, s1, spec_run_hooks(entries.drop_first(), reg, s1));
    }
}

/// After one full poll pass, every record is inert.
pub proof fn lemma_run_all_inert<H: HookCallback>(
    entries: Seq<HookEntry<H>>,
    reg: RegistryModel,
    s: Seq<EntityModel>,
)
    ensures
        forall|k: int|
            0 <= k < entries.len() ==> entry_inert(
                #[trigger] entries[k],
                reg,
                spec_run_hooks(entries, reg, s),
            ),
    decreases entries.len(),
{
    if entries.len() > 0 {
        let s1 = hook_step(entries[0], reg, s);
        let result = spec_run_hooks(entries.drop_first(), reg, s1);
        lemma_step_makes_inert(entries[0], reg, s);
        lemma_run_hooks_skeleton(entries.drop_first(), reg, s1);
        lemma_inert_under_skeleton(entries[0], reg, s1, result);
        lemma_run_all_inert(entries.drop_first(), reg, s1);
        assert forall|k: int| 0 <= k < entries.len() implies entry_inert(
            #[trigger] entries[k],
            reg,
            result,
        ) by {
            if k > 0 {
                assert(entries.drop_first()[k - 1] == entries[k]);
            }
        }
    }
}

/// A poll pass over nothing but inert records changes nothing.
pub proof fn lemma_run_inert_identity<H: HookCallback>(
    entries: Seq<HookEntry<H>>,
    reg: RegistryModel,
    s: Seq<EntityModel>,
)
    requires
        forall|k: int| 0 <= k < entries.len() ==> entry_inert(#[trigger] entries[k], reg, s),
    ensures
        spec_run_hooks(entries, reg, s) == s,
    decreases entries.len(),
{
    if entries.len() > 0 {
        lemma_inert_step_identity(entries[0], reg, s);
        assert forall|k: int| 0 <= k < entries.drop_first().len() implies entry_inert(
            #[trigger] entries.drop_first()[k],
            reg,
            s,
        ) by {
            assert(entries.drop_first()[k] == entries[k + 1]);
        }
        lemma_run_inert_identity(entries.drop_first(), reg, s);
    }
}

/// At-most-once dispatch: a second poll pass right after a first one changes
/// nothing — every record that could fire fired in the first pass and is
/// terminally done, so no carrier's hook ever runs twice.
pub proof fn lemma_run_hooks_idempotent<H: HookCallback>(
    entries: Seq<HookEntry<H>>,
    reg: RegistryModel,
    s: Seq<EntityModel>,
)
    ensures
        spec_run_hooks(entries, reg, spec_run_hooks(entries, reg, s)) == spec_run_hooks(
            entries,
            reg,
            s,
        ),
{
    lemma_run_all_inert(entries, reg, s);
    lemma_run_inert_identity(entries, reg, spec_run_hooks(entries, reg, s));
}

} // verus!
