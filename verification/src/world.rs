//! A model of the entity store the hook protocol runs against.
//!
//! Entities are plain records: an identifier, an optional display name, an
//! optional parent (scene graphs are trees), a set of component identifiers
//! and the "hooked" tag that marks a carrier whose hook pass has completed.

use vstd::prelude::*;

verus! {

/// Mathematical picture of one entity.
#[verifier::ext_equal]
pub struct EntityModel {
    pub id: u64,
    pub name: Option<Seq<char>>,
    pub parent: Option<u64>,
    pub components: Set<u64>,
    pub hooked: bool,
}

/// One live entity of the store.
pub struct Entity {
    /// Identifier, unique within a store.
    pub id: u64,
    /// Display name, as scene files usually carry one per node.
    pub name: Option<String>,
    /// Parent entity, if this entity sits below another in the scene tree.
    pub parent: Option<u64>,
    /// Identifiers of the components attached to this entity.
    pub components: Vec<u64>,
    /// Set once a hook pass over this entity's scene instance has completed.
    pub hooked: bool,
}

impl View for Entity {
    type V = EntityModel;

    open spec fn view(&self) -> EntityModel {
        EntityModel {
            id: self.id,
            name: match self.name {
                Some(n) => Some(n@),
                None => None,
            },
            parent: self.parent,
            components: self.components@.to_set(),
            hooked: self.hooked,
        }
    }
}

/// Index of the first entity with the given id, or -1 when there is none.
pub open spec fn find_idx(s: Seq<EntityModel>, id: u64) -> int
    decreases s.len(),
{
    if s.len() == 0 {
        -1
    } else if s[0].id == id {
        0
    } else {
        let r = find_idx(s.drop_first(), id);
        if r < 0 {
            -1
        } else {
            r + 1
        }
    }
}

/// Whether some entity of the store carries the given id.
pub open spec fn has_id(s: Seq<EntityModel>, id: u64) -> bool {
    find_idx(s, id) >= 0
}

/// `find_idx` points at the first occurrence of the id, and is negative
/// exactly when the id occurs nowhere.
pub proof fn lemma_find_idx(s: Seq<EntityModel>, id: u64)
    ensures
        find_idx(s, id) >= 0 ==> {
            &&& 0 <= find_idx(s, id) < s.len()
            &&& s[find_idx(s, id)].id == id
            &&& forall|k: int| 0 <= k < find_idx(s, id) ==> s[k].id != id
        },
        find_idx(s, id) < 0 ==> forall|k: int| 0 <= k < s.len() ==> s[k].id != id,
    decreases s.len(),
{
    if s.len() > 0 && s[0].id != id {
        lemma_find_idx(s.drop_first(), id);
        assert forall|k: int| 0 <= k < s.len() && find_idx(s, id) < 0 implies s[k].id != id by {
            if k > 0 {
                assert(s.drop_first()[k - 1] == s[k]);
            }
        }
        if find_idx(s, id) >= 0 {
            assert forall|k: int| 0 <= k < find_idx(s, id) implies s[k].id != id by {
                if k > 0 {
                    assert(s.drop_first()[k - 1] == s[k]);
                }
            }
        }
    }
}

/// The entity at the first index carrying `id` (meaningful only when
/// `has_id(s, id)` holds).
pub open spec fn entity_of(s: Seq<EntityModel>, id: u64) -> EntityModel {
    s[find_idx(s, id)]
}

/// Whether the entity `id` is live and carries component `c`.
pub open spec fn component_present(s: Seq<EntityModel>, id: u64, c: u64) -> bool {
    has_id(s, id) && entity_of(s, id).components.contains(c)
}

/// The store after adding component `c` to entity `id` (no change when the
/// entity is absent).
pub open spec fn spec_insert_component(s: Seq<EntityModel>, id: u64, c: u64) -> Seq<EntityModel> {
    let k = find_idx(s, id);
    if k < 0 {
        s
    } else {
        s.update(k, EntityModel { components: s[k].components.insert(c), ..s[k] })
    }
}

/// The store after removing component `c` from entity `id` (no change when
/// the entity is absent).
pub open spec fn spec_remove_component(s: Seq<EntityModel>, id: u64, c: u64) -> Seq<EntityModel> {
    let k = find_idx(s, id);
    if k < 0 {
        s
    } else {
        s.update(k, EntityModel { components: s[k].components.remove(c), ..s[k] })
    }
}

/// The store after tagging entity `id` as hooked (no change when absent).
pub open spec fn spec_set_hooked(s: Seq<EntityModel>, id: u64) -> Seq<EntityModel> {
    let k = find_idx(s, id);
    if k < 0 {
        s
    } else {
        s.update(k, EntityModel { hooked: true, ..s[k] })
    }
}

/// Whether the entity at index `i` belongs to the subtree rooted at the
/// entities carrying `root`: it carries `root` itself, or its parent chain
/// reaches one that does. Parents always sit at earlier indices (entities are
/// kept in spawn order and a parent must be spawned first), so the chain is
/// followed through strictly smaller indices, resolving a parent id to its
/// first occurrence.
pub open spec fn marked(s: Seq<EntityModel>, root: u64, i: int) -> bool
    decreases i,
{
    if i < 0 || i >= s.len() {
        false
    } else if s[i].id == root {
        true
    } else {
        match s[i].parent {
            Some(p) => {
                let j = find_idx(s.take(i), p);
                if 0 <= j < i {
                    marked(s, root, j)
                } else {
                    false
                }
            },
            None => false,
        }
    }
}

/// The store after recursively despawning everything in the subtree rooted
/// at `root`: exactly the unmarked entities survive, in order.
pub open spec fn spec_despawn(s: Seq<EntityModel>, root: u64) -> Seq<EntityModel>
    decreases s.len(),
{
    if s.len() == 0 {
        Seq::empty()
    } else {
        let prefix = spec_despawn(s.drop_last(), root);
        if marked(s, root, s.len() - 1) {
            prefix
        } else {
            prefix.push(s.last())
        }
    }
}

/// Membership in the subtree only looks at the prefix of the store up to the
/// index, so it is stable under dropping later entities.
pub proof fn lemma_marked_prefix(s: Seq<EntityModel>, root: u64, t: int, i: int)
    requires
        0 <= t <= s.len(),
        i < t,
    ensures
        marked(s.take(t), root, i) == marked(s, root, i),
    decreases i,
{
    if 0 <= i < t {
        assert(s.take(t)[i] == s[i]);
        match s[i].parent {
            Some(p) => {
                assert(s.take(t).take(i) =~= s.take(i));
                let j = find_idx(s.take(i), p);
                if 0 <= j < i {
                    lemma_marked_prefix(s, root, t, j);
                }
            },
            None => {},
        }
    }
}

/// An id is live exactly when some index carries it.
pub proof fn lemma_has_id_exists(s: Seq<EntityModel>, id: u64)
    ensures
        has_id(s, id) == exists|k: int| 0 <= k < s.len() && s[k].id == id,
{
    lemma_find_idx(s, id);
    if has_id(s, id) {
        assert(s[find_idx(s, id)].id == id);
    }
}

/// Every entity surviving a recursive despawn was in the store before, and
/// none of the survivors carries the despawned id.
pub proof fn lemma_despawn_elements(s: Seq<EntityModel>, root: u64)
    ensures
        forall|t: EntityModel| #[trigger]
            spec_despawn(s, root).contains(t) ==> s.contains(t) && t.id != root,
    decreases s.len(),
{
    if s.len() > 0 {
        lemma_despawn_elements(s.drop_last(), root);
        assert forall|t: EntityModel| #[trigger]
            spec_despawn(s, root).contains(t) implies s.contains(t) && t.id != root by {
            let d = spec_despawn(s, root);
            let prefix = spec_despawn(s.drop_last(), root);
            if marked(s, root, s.len() - 1) {
                assert(prefix.contains(t));
            } else {
                let w = choose|w: int| 0 <= w < d.len() && d[w] == t;
                if w < prefix.len() {
                    assert(prefix[w] == t);
                    assert(prefix.contains(t));
                } else {
                    assert(t == s.last());
                    assert(s[s.len() - 1].id != root) by {
                        if s[s.len() - 1].id == root {
                            assert(marked(s, root, s.len() - 1));
                        }
                    }
                    assert(s.contains(t)) by {
                        assert(s[s.len() - 1] == t);
                    }
                }
            }
            if s.drop_last().contains(t) {
                let u = choose|u: int| 0 <= u < s.drop_last().len() && s.drop_last()[u] == t;
                assert(s[u] == t);
                assert(s.contains(t));
            }
        }
    }
}

/// After a recursive despawn, the despawned id is no longer live, and no id
/// that was dead before has come alive.
pub proof fn lemma_despawn_ids(s: Seq<EntityModel>, root: u64, id: u64)
    ensures
        !has_id(spec_despawn(s, root), root),
        has_id(spec_despawn(s, root), id) ==> has_id(s, id),
{
    lemma_despawn_elements(s, root);
    lemma_has_id_exists(spec_despawn(s, root), root);
    lemma_has_id_exists(spec_despawn(s, root), id);
    lemma_has_id_exists(s, id);
    let d = spec_despawn(s, root);
    if has_id(d, root) {
        let k = choose|k: int| 0 <= k < d.len() && d[k].id == root;
        assert(d.contains(d[k]));
    }
    if has_id(d, id) {
        let k = choose|k: int| 0 <= k < d.len() && d[k].id == id;
        assert(d.contains(d[k]));
        assert(s.contains(d[k]));
        let u = choose|u: int| 0 <= u < s.len() && s[u] == d[k];
    }
}

/// `find_idx` is pinned down by its characteristic properties: the first
/// index carrying the id.
pub proof fn lemma_find_idx_unique(s: Seq<EntityModel>, id: u64, i: int)
    requires
        0 <= i < s.len(),
        s[i].id == id,
        forall|k: int| 0 <= k < i ==> s[k].id != id,
    ensures
        find_idx(s, id) == i,
{
    lemma_find_idx(s, id);
    let fi = find_idx(s, id);
    if fi < 0 {
        assert(s[i].id != id);
    } else {
        if fi < i {
            assert(s[fi].id != id);
        }
        if fi > i {
            assert(s[i].id != id);
        }
    }
}

/// Whether `b` is `a` with only component sets edited and hooked tags
/// possibly switched on: same entities, same ids, names and parents, in the
/// same order, with no hooked tag ever cleared.
pub open spec fn skeleton_kept(a: Seq<EntityModel>, b: Seq<EntityModel>) -> bool {
    &&& b.len() == a.len()
    &&& forall|k: int|
        0 <= k < a.len() ==> {
            &&& (#[trigger] b[k]).id == a[k].id
            &&& b[k].name == a[k].name
            &&& b[k].parent == a[k].parent
            &&& (a[k].hooked ==> b[k].hooked)
        }
}

/// Keeping the skeleton twice keeps it overall.
pub proof fn lemma_skeleton_trans(a: Seq<EntityModel>, b: Seq<EntityModel>, c: Seq<EntityModel>)
    requires
        skeleton_kept(a, b),
        skeleton_kept(b, c),
    ensures
        skeleton_kept(a, c),
{
}

/// A store with the skeleton kept resolves every id to the same index, so
/// liveness of any id is untouched, and a hooked entity stays hooked.
pub proof fn lemma_skeleton_ids(a: Seq<EntityModel>, b: Seq<EntityModel>, id: u64)
    requires
        skeleton_kept(a, b),
    ensures
        find_idx(b, id) == find_idx(a, id),
        has_id(b, id) == has_id(a, id),
        has_id(a, id) && entity_of(a, id).hooked ==> entity_of(b, id).hooked,
{
    lemma_find_idx(a, id);
    lemma_find_idx(b, id);
    let fa = find_idx(a, id);
    if fa >= 0 {
        assert(b[fa].id == id);
        assert forall|k: int| 0 <= k < fa implies b[k].id != id by {
            assert(a[k].id != id);
        }
        lemma_find_idx_unique(b, id, fa);
    } else {
        if find_idx(b, id) >= 0 {
            let fb = find_idx(b, id);
            assert(a[fb].id != id);
            assert(b[fb].id == a[fb].id);
            assert(false);
        }
    }
}

/// Adding a component keeps the skeleton.
pub proof fn lemma_insert_component_skeleton(s: Seq<EntityModel>, id: u64, c: u64)
    ensures
        skeleton_kept(s, spec_insert_component(s, id, c)),
{
    lemma_find_idx(s, id);
}

/// Removing a component keeps the skeleton.
pub proof fn lemma_remove_component_skeleton(s: Seq<EntityModel>, id: u64, c: u64)
    ensures
        skeleton_kept(s, spec_remove_component(s, id, c)),
{
    lemma_find_idx(s, id);
}

/// Tagging an entity hooked keeps the skeleton, and the tagged entity is
/// hooked afterwards.
pub proof fn lemma_set_hooked_skeleton(s: Seq<EntityModel>, id: u64)
    ensures
        skeleton_kept(s, spec_set_hooked(s, id)),
        has_id(s, id) ==> has_id(spec_set_hooked(s, id), id) && entity_of(
            spec_set_hooked(s, id),
            id,
        ).hooked,
{
    lemma_find_idx(s, id);
    if has_id(s, id) {
        lemma_skeleton_ids(s, spec_set_hooked(s, id), id);
    }
}

/// Tagging one entity hooked leaves every entity's component set alone.
pub proof fn lemma_set_hooked_components(s: Seq<EntityModel>, c: u64, id: u64)
    ensures
        has_id(s, id) ==> entity_of(spec_set_hooked(s, c), id).components == entity_of(
            s,
            id,
        ).components,
{
    lemma_find_idx(s, c);
    if has_id(s, id) {
        lemma_set_hooked_skeleton(s, c);
        lemma_skeleton_ids(s, spec_set_hooked(s, c), id);
        lemma_find_idx(s, id);
        let f = find_idx(s, id);
        if has_id(s, c) {
            let kc = find_idx(s, c);
            if f == kc {
                assert(spec_set_hooked(s, c)[f].components == s[f].components);
            } else {
                assert(spec_set_hooked(s, c)[f] == s[f]);
            }
        }
    }
}

/// Whether the entity carries component `c` and its hook pass has run.
pub open spec fn hooked_with(e: EntityModel, c: u64) -> bool {
    e.hooked && e.components.contains(c)
}

/// Whether some live entity carries component `c` and is tagged hooked.
pub open spec fn spec_scene_hooked(s: Seq<EntityModel>, c: u64) -> bool {
    exists|k: int| 0 <= k < s.len() && #[trigger] hooked_with(s[k], c)
}

/// View of a sequence of live entities.
spec fn ents_view(v: Seq<Entity>) -> Seq<EntityModel> {
    v.map(|i: int, e: Entity| e@)
}

/// Mapping a pushed entity sequence equals pushing the mapped view.
proof fn lemma_ents_view_push(v: Seq<Entity>, e: Entity)
    ensures
        ents_view(v.push(e)) == ents_view(v).push(e@),
{
    assert forall|t: int| 0 <= t < v.len() + 1 implies #[trigger] ents_view(v.push(e))[t]
        == ents_view(v).push(e@)[t] by {
        if t < v.len() {
            assert(v.push(e)[t] == v[t]);
        } else {
            assert(v.push(e)[t] == e);
        }
    }
    assert(ents_view(v.push(e)) =~= ents_view(v).push(e@));
}

/// Whether a component id sequence contains `x`.
pub(crate) fn vec_has(v: &Vec<u64>, x: u64) -> (r: bool)
    ensures
        r == v@.contains(x),
{
    let n = v.len();
    let mut i: usize = 0;
    while i < n
        invariant
            n == v@.len(),
            0 <= i <= n,
            forall|k: int| 0 <= k < i ==> v@[k] != x,
        decreases n - i,
    {
        if v[i] == x {
            return true;
        }
        i += 1;
    }
    false
}

/// The store: the set of live entities, in spawn order.
pub struct Store {
    entities: Vec<Entity>,
}

impl View for Store {
    type V = Seq<EntityModel>;

    closed spec fn view(&self) -> Seq<EntityModel> {
        ents_view(self.entities@)
    }
}

impl Store {
    /// An empty store.
    pub fn new() -> (s: Store)
        ensures
            s@ == Seq::<EntityModel>::empty(),
    {
        let s = Store { entities: Vec::new() };
        proof {
            assert(s@ =~= Seq::<EntityModel>::empty());
        }
        s
    }

    /// Number of live entities.
    pub fn len(&self) -> (n: usize)
        ensures
            n == self@.len(),
    {
        self.entities.len()
    }

    /// Whether an entity with the given id is live.
    pub fn has_entity(&self, id: u64) -> (r: bool)
        ensures
            r == has_id(self@, id),
    {
        proof {
            lemma_find_idx(self@, id);
        }
        let n = self.entities.len();
        let mut i: usize = 0;
        while i < n
            invariant
                n == self@.len(),
                0 <= i <= n,
                forall|k: int| 0 <= k < i ==> self@[k].id != id,
            decreases n - i,
        {
            if self.entities[i].id == id {
                proof {
                    assert(self@[i as int] == self.entities@[i as int]@);
                    assert(self@[i as int].id == id);
                    lemma_find_idx(self@, id);
                }
                return true;
            }
            proof {
                assert(self@[i as int] == self.entities@[i as int]@);
            }
            i += 1;
        }
        false
    }

    /// Index of the entity with the given id, when it is live.
    fn idx_of(&self, id: u64) -> (r: Option<usize>)
        ensures
            match r {
                Some(i) => {
                    &&& 0 <= find_idx(self@, id)
                    &&& i as int == find_idx(self@, id)
                    &&& i < self@.len()
                    &&& self@[i as int].id == id
                },
                None => !has_id(self@, id),
            },
    {
        let n = self.entities.len();
        let mut i: usize = 0;
        while i < n
            invariant
                n == self@.len(),
                n == self.entities@.len(),
                0 <= i <= n,
                forall|k: int| 0 <= k < i ==> self@[k].id != id,
            decreases n - i,
        {
            if self.entities[i].id == id {
                proof {
                    assert(self@[i as int] == self.entities@[i as int]@);
                    assert(self@[i as int].id == id);
                    lemma_find_idx(self@, id);
                    let fi = find_idx(self@, id);
                    assert(fi >= 0);
                    assert(fi as int == i as int);
                }
                return Some(i);
            }
            proof {
                assert(self@[i as int] == self.entities@[i as int]@);
            }
            i += 1;
        }
        proof {
            lemma_find_idx(self@, id);
        }
        None
    }

    /// Read access to a live entity, or `None` when the id is not live.
    pub fn get_entity(&self, id: u64) -> (r: Option<&Entity>)
        ensures
            match r {
                Some(e) => has_id(self@, id) && e@ == entity_of(self@, id),
                None => !has_id(self@, id),
            },
    {
        match self.idx_of(id) {
            Some(i) => {
                proof {
                    assert(self@.len() == self.entities@.len());
                    assert(self@[i as int] == self.entities@[i as int]@);
                }
                Some(&self.entities[i])
            },
            None => None,
        }
    }

    /// Add an entity. Refused (and the store left unchanged) when the id is
    /// already live or the named parent is not.
    pub fn spawn(&mut self, e: Entity) -> (ok: bool)
        ensures
            ok == (!has_id(old(self)@, e.id) && (match e.parent {
                Some(p) => has_id(old(self)@, p),
                None => true,
            })),
            ok ==> final(self)@ == old(self)@.push(e@),
            !ok ==> final(self)@ == old(self)@,
    {
        let id_free = !self.has_entity(e.id);
        let parent_ok = match &e.parent {
            Some(p) => self.has_entity(*p),
            None => true,
        };
        if id_free && parent_ok {
            let ghost s0 = self@;
            let ghost ev = e@;
            self.entities.push(e);
            proof {
                assert(self@ =~= s0.push(ev));
            }
            true
        } else {
            false
        }
    }

    /// Tag entity `id` as hooked; no change when the id is not live.
    pub fn set_hooked(&mut self, id: u64)
        ensures
            final(self)@ == spec_set_hooked(old(self)@, id),
    {
        match self.idx_of(id) {
            Some(i) => {
                proof {
                    assert(self@.len() == self.entities@.len());
                    assert(self@[i as int] == self.entities@[i as int]@);
                }
                let ghost s0 = self@;
                let mut e = self.entities.remove(i);
                e.hooked = true;
                let ghost ev = e@;
                self.entities.insert(i, e);
                proof {
                    assert(ev == EntityModel { hooked: true, ..s0[i as int] });
                    assert forall|k: int| 0 <= k < s0.len() implies #[trigger] self@[k]
                        == s0.update(i as int, ev)[k] by {
                        assert(self@[k] == self.entities@[k]@);
                    }
                    assert(self@ =~= spec_set_hooked(s0, id));
                }
            },
            None => {},
        }
    }

    /// Add component `c` to entity `id`; no change when the id is not live.
    /// Adding a component the entity already carries is a no-op.
    pub fn insert_component(&mut self, id: u64, c: u64) -> (ok: bool)
        ensures
            final(self)@ == spec_insert_component(old(self)@, id, c),
            ok == has_id(old(self)@, id),
    {
        match self.idx_of(id) {
            Some(i) => {
                proof {
                    assert(self@.len() == self.entities@.len());
                    assert(self@[i as int] == self.entities@[i as int]@);
                }
                let ghost s0 = self@;
                let mut e = self.entities.remove(i);
                let ghost c0 = e.components@;
                if !vec_has(&e.components, c) {
                    e.components.push(c);
                    proof {
                        c0.lemma_push_to_set_commute(c);
                        assert(e.components@.to_set() =~= c0.to_set().insert(c));
                    }
                } else {
                    proof {
                        assert(e.components@.to_set() =~= c0.to_set().insert(c));
                    }
                }
                let ghost ev = e@;
                self.entities.insert(i, e);
                proof {
                    assert(ev == EntityModel {
                        components: s0[i as int].components.insert(c),
                        ..s0[i as int]
                    });
                    assert forall|k: int| 0 <= k < s0.len() implies #[trigger] self@[k]
                        == s0.update(i as int, ev)[k] by {
                        assert(self@[k] == self.entities@[k]@);
                    }
                    assert(self@ =~= spec_insert_component(s0, id, c));
                }
                true
            },
            None => false,
        }
    }

    /// Remove component `c` from entity `id`; no change when the id is not
    /// live. Removing a component the entity does not carry is a no-op.
    pub fn remove_component(&mut self, id: u64, c: u64) -> (ok: bool)
        ensures
            final(self)@ == spec_remove_component(old(self)@, id, c),
            ok == has_id(old(self)@, id),
    {
        match self.idx_of(id) {
            Some(i) => {
                proof {
                    assert(self@.len() == self.entities@.len());
                    assert(self@[i as int] == self.entities@[i as int]@);
                }
                let ghost s0 = self@;
                let mut e = self.entities.remove(i);
                let ghost c0 = e.components@;
                let mut kept: Vec<u64> = Vec::new();
                let m = e.components.len();
                let mut j: usize = 0;
                while j < m
                    invariant
                        m == e.components@.len(),
                        0 <= j <= m,
                        e.components@ == c0,
                        forall|x: u64|
                            kept@.contains(x) == (c0.take(j as int).contains(x) && x != c),
                    decreases m - j,
                {
                    let x = e.components[j];
                    let ghost kept0 = kept@;
                    if x != c {
                        kept.push(x);
                    }
                    proof {
                        assert(c0.take(j + 1) =~= c0.take(j as int).push(c0[j as int]));
                        assert forall|y: u64| kept@.contains(y) == (#[trigger] c0.take(
                            j + 1,
                        ).contains(y) && y != c) by {
                            if x != c {
                                assert(kept@ == kept0.push(x));
                                if kept@.contains(y) {
                                    let w = choose|w: int| 0 <= w < kept@.len() && kept@[w] == y;
                                    if w < kept0.len() {
                                        assert(kept0.contains(y));
                                    } else {
                                        assert(y == x);
                                        assert(c0.take(j + 1).last() == x);
                                        assert(c0.take(j + 1).contains(y));
                                    }
                                }
                                if c0.take(j + 1).contains(y) && y != c {
                                    let w = choose|w: int|
                                        0 <= w < c0.take(j + 1).len() && #[trigger] c0.take(
                                            j + 1,
                                        )[w] == y;
                                    if w < j {
                                        assert(c0.take(j as int).contains(y));
                                        assert(kept0.contains(y));
                                        let u = choose|u: int|
                                            0 <= u < kept0.len() && kept0[u] == y;
                                        assert(kept@[u] == y);
                                        assert(kept@.contains(y));
                                    } else {
                                        assert(y == x);
                                        assert(kept@.last() == x);
                                        assert(kept@.contains(y));
                                    }
                                }
                            } else {
                                if c0.take(j + 1).contains(y) && y != c {
                                    let w = choose|w: int|
                                        0 <= w < c0.take(j + 1).len() && #[trigger] c0.take(
                                            j + 1,
                                        )[w] == y;
                                    assert(w < j);
                                    assert(c0.take(j as int).contains(y));
                                }
                                if kept@.contains(y) {
                                    assert(c0.take(j as int).contains(y));
                                    let w = choose|w: int|
                                        0 <= w < c0.take(j as int).len() && c0.take(j as int)[w]
                                        == y;
                                    assert(c0.take(j + 1)[w] == y);
                                    assert(c0.take(j + 1).contains(y));
                                }
                            }
                        }
                    }
                    j += 1;
                }
                e.components = kept;
                proof {
                    assert(c0.take(m as int) =~= c0);
                    assert(e.components@.to_set() =~= c0.to_set().remove(c));
                }
                let ghost ev = e@;
                self.entities.insert(i, e);
                proof {
                    assert(ev == EntityModel {
                        components: s0[i as int].components.remove(c),
                        ..s0[i as int]
                    });
                    assert forall|k: int| 0 <= k < s0.len() implies #[trigger] self@[k]
                        == s0.update(i as int, ev)[k] by {
                        assert(self@[k] == self.entities@[k]@);
                    }
                    assert(self@ =~= spec_remove_component(s0, id, c));
                }
                true
            },
            None => false,
        }
    }

    /// Despawn entity `root` together with everything below it in the scene
    /// tree. Despawning an id that is not live is a no-op, and an entity
    /// that is reachable twice (directly and through an ancestor) is removed
    /// once.
    pub fn despawn_recursive(&mut self, root: u64)
        ensures
            final(self)@ == spec_despawn(old(self)@, root),
    {
        let ghost s0 = self@;
        let ghost v0 = self.entities@;
        let n = self.entities.len();
        proof {
            assert(s0.len() == n);
        }
        let mut marks: Vec<bool> = Vec::new();
        let mut i: usize = 0;
        while i < n
            invariant
                self@ == s0,
                self.entities@ == v0,
                s0.len() == n,
                v0.len() == n,
                0 <= i <= n,
                marks@.len() == i,
                forall|k: int| 0 <= k < i ==> marks@[k] == marked(s0, root, k),
            decreases n - i,
        {
            proof {
                assert(self@[i as int] == self.entities@[i as int]@);
            }
            let eid = self.entities[i].id;
            let p_opt = self.entities[i].parent;
            let m: bool;
            if eid == root {
                m = true;
            } else {
                match p_opt {
                    Some(p) => {
                        let mut j: usize = 0;
                        while j < i && self.entities[j].id != p
                            invariant
                                self@ == s0,
                                self.entities@ == v0,
                                s0.len() == n,
                                v0.len() == n,
                                0 <= j <= i <= n,
                                forall|k: int| 0 <= k < j ==> s0[k].id != p,
                            decreases i - j,
                        {
                            proof {
                                assert(self@[j as int] == self.entities@[j as int]@);
                            }
                            j += 1;
                        }
                        proof {
                            lemma_find_idx(s0.take(i as int), p);
                            let fi = find_idx(s0.take(i as int), p);
                            if j < i {
                                assert(self@[j as int] == self.entities@[j as int]@);
                                assert(s0[j as int].id == p);
                                assert(s0.take(i as int)[j as int] == s0[j as int]);
                                assert(fi >= 0);
                                if fi < j {
                                    assert(s0.take(i as int)[fi].id == p);
                                    assert(s0[fi].id == p);
                                    assert(false);
                                }
                                if fi > j {
                                    assert(s0.take(i as int)[j as int].id != p);
                                    assert(false);
                                }
                                assert(fi == j as int);
                            } else {
                                if fi >= 0 {
                                    assert(s0.take(i as int)[fi] == s0[fi]);
                                    assert(s0[fi].id == p);
                                    assert(false);
                                }
                            }
                        }
                        if j < i {
                            m = marks[j];
                        } else {
                            m = false;
                        }
                    },
                    None => {
                        m = false;
                    },
                }
            }
            proof {
                assert(m == marked(s0, root, i as int));
            }
            marks.push(m);
            i += 1;
        }
        let mut kept: Vec<Entity> = Vec::new();
        let mut k: usize = 0;
        while k < n
            invariant
                s0.len() == n,
                v0.len() == n,
                marks@.len() == n,
                forall|t: int| 0 <= t < n ==> marks@[t] == marked(s0, root, t),
                0 <= k <= n,
                self.entities@ == v0.skip(k as int),
                self@ == ents_view(v0.skip(k as int)),
                ents_view(kept@) == spec_despawn(s0.take(k as int), root),
                forall|t: int| 0 <= t < n ==> #[trigger] v0[t]@ == s0[t],
            decreases n - k,
        {
            let e = self.entities.remove(0);
            proof {
                assert(e == v0.skip(k as int)[0]);
                assert(e == v0[k as int]);
                assert(v0.skip(k as int).remove(0) =~= v0.skip(k as int + 1));
            }
            let ghost kv = kept@;
            if !marks[k] {
                kept.push(e);
                proof {
                    lemma_ents_view_push(kv, v0[k as int]);
                }
            }
            proof {
                assert(s0.take(k as int + 1).drop_last() =~= s0.take(k as int));
                assert(s0.take(k as int + 1).last() == s0[k as int]);
                lemma_marked_prefix(s0, root, k as int + 1, k as int);
                assert(ents_view(kept@) == spec_despawn(s0.take(k as int + 1), root));
            }
            k += 1;
        }
        self.entities = kept;
        proof {
            assert(s0.take(n as int) =~= s0);
        }
    }

    /// Whether some live entity carries component `c` and is tagged hooked.
    pub fn any_hooked_with(&self, c: u64) -> (r: bool)
        ensures
            r == spec_scene_hooked(self@, c),
    {
        let n = self.entities.len();
        let mut i: usize = 0;
        while i < n
            invariant
                n == self@.len(),
                n == self.entities@.len(),
                0 <= i <= n,
                forall|k: int| 0 <= k < i ==> !hooked_with(self@[k], c),
            decreases n - i,
        {
            proof {
                assert(self@[i as int] == self.entities@[i as int]@);
            }
            if self.entities[i].hooked {
                if vec_has(&self.entities[i].components, c) {
                    proof {
                        assert(hooked_with(self@[i as int], c));
                    }
                    return true;
                }
            }
            i += 1;
        }
        false
    }

    /// Whether entity `id` is live and carries component `c`.
    pub fn has_component(&self, id: u64, c: u64) -> (r: bool)
        ensures
            r == component_present(self@, id, c),
    {
        match self.idx_of(id) {
            Some(i) => {
                proof {
                    assert(self@.len() == self.entities@.len());
                    assert(self@[i as int] == self.entities@[i as int]@);
                }
                vec_has(&self.entities[i].components, c)
            },
            None => false,
        }
    }
}

} // verus!
