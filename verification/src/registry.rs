//! A model of the asset-instance registry the hook protocol polls.
//!
//! A load request is answered with an opaque handle; the registry later marks
//! the load as ready and records which entities the load materialized. The
//! poller only ever asks "is this handle ready" and "which entities belong to
//! it", and a reload asks for the source the handle was requested from.

use vstd::prelude::*;

use crate::world::vec_has;

verus! {

/// Mathematical picture of one load instance.
#[verifier::ext_equal]
pub struct InstanceModel {
    pub handle: u64,
    pub source: Option<Seq<char>>,
    pub ready: bool,
    pub entities: Seq<u64>,
}

/// One load instance: its handle, the source it was requested from (when one
/// was registered), whether the load has fully materialized, and the
/// entities it materialized.
pub struct Instance {
    pub handle: u64,
    pub source: Option<String>,
    pub ready: bool,
    pub entities: Vec<u64>,
}

impl View for Instance {
    type V = InstanceModel;

    open spec fn view(&self) -> InstanceModel {
        InstanceModel {
            handle: self.handle,
            source: match self.source {
                Some(s) => Some(s@),
                None => None,
            },
            ready: self.ready,
            entities: self.entities@,
        }
    }
}

/// Mathematical picture of the registry.
#[verifier::ext_equal]
pub struct RegistryModel {
    pub instances: Seq<InstanceModel>,
    pub next: u64,
}

/// A sequence of entity ids without repetition.
pub open spec fn no_dup(s: Seq<u64>) -> bool {
    forall|i: int, j: int| 0 <= i < j < s.len() ==> s[i] != s[j]
}

/// Registry well-formedness: handles are unique, every issued handle is
/// below the next one to issue, and an instance lists each entity once.
pub open spec fn reg_wf(r: RegistryModel) -> bool {
    &&& forall|i: int, j: int|
        0 <= i < j < r.instances.len() ==> r.instances[i].handle != r.instances[j].handle
    &&& forall|i: int| 0 <= i < r.instances.len() ==> #[trigger] r.instances[i].handle < r.next
    &&& forall|i: int| 0 <= i < r.instances.len() ==> no_dup(#[trigger] r.instances[i].entities)
}

/// Index of the first instance with the given handle, or -1 when none.
pub open spec fn inst_idx(s: Seq<InstanceModel>, h: u64) -> int
    decreases s.len(),
{
    if s.len() == 0 {
        -1
    } else if s[0].handle == h {
        0
    } else {
        let r = inst_idx(s.drop_first(), h);
        if r < 0 {
            -1
        } else {
            r + 1
        }
    }
}

/// `inst_idx` points at the first occurrence of the handle, and is negative
/// exactly when the handle occurs nowhere.
pub proof fn lemma_inst_idx(s: Seq<InstanceModel>, h: u64)
    ensures
        inst_idx(s, h) >= 0 ==> {
            &&& 0 <= inst_idx(s, h) < s.len()
            &&& s[inst_idx(s, h)].handle == h
            &&& forall|k: int| 0 <= k < inst_idx(s, h) ==> s[k].handle != h
        },
        inst_idx(s, h) < 0 ==> forall|k: int| 0 <= k < s.len() ==> s[k].handle != h,
    decreases s.len(),
{
    if s.len() > 0 && s[0].handle != h {
        lemma_inst_idx(s.drop_first(), h);
        assert forall|k: int| 0 <= k < s.len() && inst_idx(s, h) < 0 implies s[k].handle != h by {
            if k > 0 {
                assert(s.drop_first()[k - 1] == s[k]);
            }
        }
        if inst_idx(s, h) >= 0 {
            assert forall|k: int| 0 <= k < inst_idx(s, h) implies s[k].handle != h by {
                if k > 0 {
                    assert(s.drop_first()[k - 1] == s[k]);
                }
            }
        }
    }
}

/// `inst_idx` is pinned down by its characteristic properties: the first
/// index carrying the handle.
pub proof fn lemma_inst_idx_unique(s: Seq<InstanceModel>, h: u64, i: int)
    requires
        0 <= i < s.len(),
        s[i].handle == h,
        forall|k: int| 0 <= k < i ==> s[k].handle != h,
    ensures
        inst_idx(s, h) == i,
{
    lemma_inst_idx(s, h);
    let fi = inst_idx(s, h);
    if fi < 0 {
        assert(s[i].handle != h);
    } else {
        if fi < i {
            assert(s[fi].handle != h);
        }
        if fi > i {
            assert(s[i].handle != h);
        }
    }
}

/// Under a well-formed registry, an instance lists each entity once — so a
/// dispatch over its list visits each entity at most once.
pub proof fn lemma_instance_entities_no_dup(r: RegistryModel, h: u64)
    requires
        reg_wf(r),
        spec_has_instance(r, h),
    ensures
        no_dup(spec_instance_entities(r, h)),
{
    lemma_inst_idx(r.instances, h);
}

/// Whether the registry has issued the handle.
pub open spec fn spec_has_instance(r: RegistryModel, h: u64) -> bool {
    inst_idx(r.instances, h) >= 0
}

/// The instance behind a handle (meaningful only when issued).
pub open spec fn spec_instance(r: RegistryModel, h: u64) -> InstanceModel {
    r.instances[inst_idx(r.instances, h)]
}

/// Whether the load behind the handle has fully materialized.
pub open spec fn spec_is_ready(r: RegistryModel, h: u64) -> bool {
    spec_has_instance(r, h) && spec_instance(r, h).ready
}

/// The entities the load behind the handle materialized.
pub open spec fn spec_instance_entities(r: RegistryModel, h: u64) -> Seq<u64> {
    spec_instance(r, h).entities
}

/// The source the handle was requested from, when one was registered.
pub open spec fn spec_instance_source(r: RegistryModel, h: u64) -> Option<Seq<char>> {
    if spec_has_instance(r, h) {
        spec_instance(r, h).source
    } else {
        None
    }
}

/// The entity list with later repetitions dropped (first occurrences kept).
pub open spec fn dedup_first(s: Seq<u64>) -> Seq<u64>
    decreases s.len(),
{
    if s.len() == 0 {
        Seq::empty()
    } else {
        let p = dedup_first(s.drop_last());
        if p.contains(s.last()) {
            p
        } else {
            p.push(s.last())
        }
    }
}

/// Deduplication keeps membership and yields a repetition-free list.
pub proof fn lemma_dedup_first(s: Seq<u64>)
    ensures
        no_dup(dedup_first(s)),
        forall|x: u64| dedup_first(s).contains(x) == s.contains(x),
    decreases s.len(),
{
    broadcast use vstd::seq_lib::lemma_seq_contains_after_push;

    if s.len() > 0 {
        lemma_dedup_first(s.drop_last());
        let p = dedup_first(s.drop_last());
        assert forall|x: u64| dedup_first(s).contains(x) == s.contains(x) by {
            assert(s.contains(x) == (s.drop_last().contains(x) || s.last() == x)) by {
                if s.contains(x) {
                    let w = choose|w: int| 0 <= w < s.len() && s[w] == x;
                    if w < s.len() - 1 {
                        assert(s.drop_last()[w] == x);
                        assert(s.drop_last().contains(x));
                    }
                }
                if s.drop_last().contains(x) {
                    let w = choose|w: int|
                        0 <= w < s.drop_last().len() && s.drop_last()[w] == x;
                    assert(s[w] == x);
                    assert(s.contains(x));
                }
                if s.last() == x {
                    assert(s[s.len() - 1] == x);
                    assert(s.contains(x));
                }
            }
        }
        if !p.contains(s.last()) {
            assert forall|i: int, j: int|
                0 <= i < j < dedup_first(s).len() implies dedup_first(s)[i] != dedup_first(
                s,
            )[j] by {
                if j < p.len() {
                } else {
                    assert(dedup_first(s)[j] == s.last());
                    assert(dedup_first(s)[i] == p[i]);
                    assert(p.contains(p[i]));
                }
            }
        }
    }
}

/// Drop repeated entity ids, keeping the first occurrence of each.
fn dedup_vec(v: Vec<u64>) -> (r: Vec<u64>)
    ensures
        r@ == dedup_first(v@),
{
    let n = v.len();
    let mut kept: Vec<u64> = Vec::new();
    let mut i: usize = 0;
    while i < n
        invariant
            n == v@.len(),
            0 <= i <= n,
            kept@ == dedup_first(v@.take(i as int)),
        decreases n - i,
    {
        let x = v[i];
        let already = vec_has(&kept, x);
        if !already {
            kept.push(x);
        }
        proof {
            assert(v@.take(i as int + 1).drop_last() =~= v@.take(i as int));
            assert(v@.take(i as int + 1).last() == v@[i as int]);
        }
        i += 1;
    }
    proof {
        assert(v@.take(n as int) =~= v@);
    }
    kept
}

/// The registry after a load completes: the instance turns ready with the
/// (deduplicated) entity list; a handle never issued, or one already ready,
/// leaves the registry unchanged.
pub open spec fn spec_complete(r: RegistryModel, h: u64, ents: Seq<u64>) -> RegistryModel {
    let k = inst_idx(r.instances, h);
    if k >= 0 && !r.instances[k].ready {
        RegistryModel {
            instances: r.instances.update(
                k,
                InstanceModel { ready: true, entities: dedup_first(ents), ..r.instances[k] },
            ),
            ..r
        }
    } else {
        r
    }
}

/// View of a sequence of instances.
spec fn insts_view(v: Seq<Instance>) -> Seq<InstanceModel> {
    v.map(|i: int, inst: Instance| inst@)
}

/// The asset-instance registry.
pub struct Registry {
    instances: Vec<Instance>,
    next: u64,
}

impl View for Registry {
    type V = RegistryModel;

    closed spec fn view(&self) -> RegistryModel {
        RegistryModel { instances: insts_view(self.instances@), next: self.next }
    }
}

impl Registry {
    /// An empty registry; no handle has been issued yet.
    pub fn new() -> (r: Registry)
        ensures
            r@.instances == Seq::<InstanceModel>::empty(),
            r@.next == 0,
            reg_wf(r@),
    {
        let r = Registry { instances: Vec::new(), next: 0 };
        proof {
            assert(r@.instances =~= Seq::<InstanceModel>::empty());
        }
        r
    }

    /// Index of the instance with the given handle, when issued.
    fn idx_of(&self, h: u64) -> (r: Option<usize>)
        ensures
            match r {
                Some(i) => {
                    &&& 0 <= inst_idx(self@.instances, h)
                    &&& i as int == inst_idx(self@.instances, h)
                    &&& i < self@.instances.len()
                    &&& self@.instances[i as int].handle == h
                },
                None => !spec_has_instance(self@, h),
            },
    {
        let n = self.instances.len();
        let mut i: usize = 0;
        while i < n
            invariant
                n == self@.instances.len(),
                n == self.instances@.len(),
                0 <= i <= n,
                forall|k: int| 0 <= k < i ==> self@.instances[k].handle != h,
            decreases n - i,
        {
            if self.instances[i].handle == h {
                proof {
                    assert(self@.instances[i as int] == self.instances@[i as int]@);
                    lemma_inst_idx(self@.instances, h);
                    let fi = inst_idx(self@.instances, h);
                    assert(fi >= 0);
                    assert(fi as int == i as int);
                }
                return Some(i);
            }
            proof {
                assert(self@.instances[i as int] == self.instances@[i as int]@);
            }
            i += 1;
        }
        proof {
            lemma_inst_idx(self@.instances, h);
        }
        None
    }

    /// Ask for a load of `source`: a fresh handle is issued, not yet ready.
    /// `None` stands for a load requested from a bare in-memory asset, one
    /// whose source was never registered — such a load cannot be re-requested
    /// later.
    pub fn request_load(&mut self, source: Option<String>) -> (h: u64)
        requires
            old(self)@.next < u64::MAX,
        ensures
            h == old(self)@.next,
            final(self)@.next == old(self)@.next + 1,
            final(self)@.instances == old(self)@.instances.push(
                InstanceModel {
                    handle: h,
                    source: match source {
                        Some(s) => Some(s@),
                        None => None,
                    },
                    ready: false,
                    entities: Seq::empty(),
                },
            ),
            reg_wf(old(self)@) ==> reg_wf(final(self)@),
    {
        let ghost r0 = self@;
        let h = self.next;
        let inst = Instance { handle: h, source, ready: false, entities: Vec::new() };
        let ghost iv = inst@;
        self.instances.push(inst);
        self.next = self.next + 1;
        proof {
            assert(self@.instances =~= r0.instances.push(iv));
            assert(iv.entities =~= Seq::<u64>::empty());
            if reg_wf(r0) {
                assert forall|i: int, j: int|
                    0 <= i < j < self@.instances.len() implies self@.instances[i].handle
                    != self@.instances[j].handle by {
                    if j < r0.instances.len() {
                    } else {
                        assert(self@.instances[j].handle == h);
                        assert(self@.instances[i] == r0.instances[i]);
                    }
                }
            }
        }
        h
    }

    /// Record a load as materialized: the instance behind the handle turns
    /// ready and lists the given entities (each once). Completing a handle
    /// never issued, or one already ready, changes nothing.
    pub fn complete_load(&mut self, h: u64, entities: Vec<u64>) -> (ok: bool)
        ensures
            final(self)@ == spec_complete(old(self)@, h, entities@),
            ok == (spec_has_instance(old(self)@, h) && !spec_instance(old(self)@, h).ready),
            reg_wf(old(self)@) ==> reg_wf(final(self)@),
    {
        let ghost r0 = self@;
        match self.idx_of(h) {
            Some(k) => {
                proof {
                    assert(self@.instances.len() == self.instances@.len());
                    assert(self@.instances[k as int] == self.instances@[k as int]@);
                }
                if self.instances[k].ready {
                    false
                } else {
                    let ghost ents0 = entities@;
                    let mut inst = self.instances.remove(k);
                    inst.ready = true;
                    inst.entities = dedup_vec(entities);
                    let ghost iv = inst@;
                    self.instances.insert(k, inst);
                    proof {
                        assert(iv == InstanceModel {
                            ready: true,
                            entities: dedup_first(ents0),
                            ..r0.instances[k as int]
                        });
                        assert forall|t: int| 0 <= t < r0.instances.len() implies #[trigger]
                            self@.instances[t] == r0.instances.update(k as int, iv)[t] by {
                            assert(self@.instances[t] == self.instances@[t]@);
                        }
                        assert(self@.instances =~= r0.instances.update(k as int, iv));
                        assert(self@ =~= spec_complete(r0, h, ents0));
                        if reg_wf(r0) {
                            lemma_dedup_first(ents0);
                            assert forall|i: int, j: int|
                                0 <= i < j < self@.instances.len() implies self@.instances[i].handle
                                != self@.instances[j].handle by {}
                        }
                    }
                    true
                }
            },
            None => false,
        }
    }

    /// Whether the load behind the handle has fully materialized.
    pub fn is_ready(&self, h: u64) -> (r: bool)
        ensures
            r == spec_is_ready(self@, h),
    {
        match self.idx_of(h) {
            Some(k) => {
                proof {
                    assert(self@.instances.len() == self.instances@.len());
                    assert(self@.instances[k as int] == self.instances@[k as int]@);
                }
                self.instances[k].ready
            },
            None => false,
        }
    }

    /// The entities belonging to the handle, or `None` while the load has
    /// not materialized (or the handle was never issued).
    pub fn entities_of(&self, h: u64) -> (r: Option<Vec<u64>>)
        ensures
            match r {
                Some(v) => spec_is_ready(self@, h) && v@ == spec_instance_entities(self@, h),
                None => !spec_is_ready(self@, h),
            },
    {
        match self.idx_of(h) {
            Some(k) => {
                proof {
                    assert(self@.instances.len() == self.instances@.len());
                    assert(self@.instances[k as int] == self.instances@[k as int]@);
                }
                if self.instances[k].ready {
                    let src = &self.instances[k].entities;
                    let m = src.len();
                    let mut out: Vec<u64> = Vec::new();
                    let mut j: usize = 0;
                    while j < m
                        invariant
                            m == src@.len(),
                            0 <= j <= m,
                            out@ == src@.take(j as int),
                        decreases m - j,
                    {
                        out.push(src[j]);
                        proof {
                            assert(out@ =~= src@.take(j as int + 1));
                        }
                        j += 1;
                    }
                    proof {
                        assert(src@.take(m as int) =~= src@);
                    }
                    Some(out)
                } else {
                    None
                }
            },
            None => None,
        }
    }

    /// The source the handle was requested from, when one was registered.
    pub fn source_of(&self, h: u64) -> (r: Option<String>)
        ensures
            match r {
                Some(s) => spec_instance_source(self@, h) == Some(s@),
                None => spec_instance_source(self@, h) is None,
            },
    {
        match self.idx_of(h) {
            Some(k) => {
                proof {
                    assert(self@.instances.len() == self.instances@.len());
                    assert(self@.instances[k as int] == self.instances@[k as int]@);
                }
                match &self.instances[k].source {
                    Some(s) => Some(s.clone()),
                    None => None,
                }
            },
            None => None,
        }
    }
}

} // verus!
