//! The world: the single mutable context a tick runs against.
//!
//! It owns the archetype storage, the type-indexed singleton resource store,
//! and one deferred-command queue per registered system.  Queues are applied
//! in system-registration order by [`World::execute_commands`], which makes
//! the commit phase deterministic.

use vstd::prelude::*;

use crate::commands::{dedup, dedup_bundle, lemma_dedup_bundle, pending_bundles, Command, Commands};
use crate::storage::{
    bundle_kinds, id_index, kinds_distinct, lemma_create_wf, lemma_id_index, Bundle, Row, Storage,
    StorageView,
};
use crate::{ComponentId, EntityId, ResourceId, SystemId};

verus! {

/// The ids under which resources are stored, in insertion order.
pub open spec fn res_ids<R>(rs: Seq<(ResourceId, R)>) -> Seq<ResourceId> {
    rs.map_values(|p: (ResourceId, R)| p.0)
}

/// The resource stored under `id`, when one is.
pub open spec fn res_lookup<R>(rs: Seq<(ResourceId, R)>, id: ResourceId) -> Option<R> {
    let i = id_index(res_ids(rs), id);
    if i < 0 {
        None
    } else {
        Some(rs[i].1)
    }
}

/// The bundles each queue will create, queue by queue in registration order.
pub open spec fn queues_bundles<C>(qs: Seq<Commands<C>>) -> Seq<Seq<Seq<(ComponentId, C)>>> {
    qs.map_values(|q: Commands<C>| pending_bundles(q.pending@))
}

/// The storage after applying one recorded bundle: the bundle is reduced to
/// one value per kind and creates an entity, unless the id space is spent.
pub open spec fn apply_bundle<C>(s: StorageView<C>, b: Seq<(ComponentId, C)>) -> StorageView<C> {
    if s.next_entity < u64::MAX {
        s.create(dedup_bundle(b))
    } else {
        s
    }
}

/// The storage after applying a queue's bundles in issue order.
pub open spec fn apply_bundles<C>(
    s: StorageView<C>,
    bs: Seq<Seq<(ComponentId, C)>>,
) -> StorageView<C>
    decreases bs.len(),
{
    if bs.len() == 0 {
        s
    } else {
        apply_bundles(apply_bundle(s, bs[0]), bs.drop_first())
    }
}

/// The storage after applying every queue, in registration order.
pub open spec fn apply_queues<C>(
    s: StorageView<C>,
    qs: Seq<Seq<Seq<(ComponentId, C)>>>,
) -> StorageView<C>
    decreases qs.len(),
{
    if qs.len() == 0 {
        s
    } else {
        apply_queues(apply_bundles(s, qs[0]), qs.drop_first())
    }
}

/// Applying one bundle preserves well-formedness of the storage.
pub proof fn lemma_apply_bundle_wf<C>(s: StorageView<C>, b: Seq<(ComponentId, C)>)
    requires
        s.wf(),
    ensures
        apply_bundle(s, b).wf(),
{
    if s.next_entity < u64::MAX {
        lemma_dedup_bundle(b);
        lemma_create_wf(s, dedup_bundle(b));
    }
}

/// Applying a queue preserves well-formedness of the storage.
pub proof fn lemma_apply_bundles_wf<C>(s: StorageView<C>, bs: Seq<Seq<(ComponentId, C)>>)
    requires
        s.wf(),
    ensures
        apply_bundles(s, bs).wf(),
    decreases bs.len(),
{
    if bs.len() > 0 {
        lemma_apply_bundle_wf(s, bs[0]);
        lemma_apply_bundles_wf(apply_bundle(s, bs[0]), bs.drop_first());
    }
}

/// Applying every queue preserves well-formedness of the storage.
pub proof fn lemma_apply_queues_wf<C>(s: StorageView<C>, qs: Seq<Seq<Seq<(ComponentId, C)>>>)
    requires
        s.wf(),
    ensures
        apply_queues(s, qs).wf(),
    decreases qs.len(),
{
    if qs.len() > 0 {
        lemma_apply_bundles_wf(s, qs[0]);
        lemma_apply_queues_wf(apply_bundles(s, qs[0]), qs.drop_first());
    }
}

/// The exclusive owner of all archetypes, resources and command queues.
pub struct World<C, R> {
    pub storage: Storage<C>,
    pub resources: Vec<(ResourceId, R)>,
    pub queues: Vec<Commands<C>>,
}

impl<C, R> World<C, R> {
    /// The world's storage is well formed and no resource id is stored twice.
    pub open spec fn wf(self) -> bool {
        &&& self.storage@.wf()
        &&& kinds_distinct(res_ids(self.resources@))
    }

    /// An empty world: no entities, no resources, no pending commands.
    pub fn new() -> (w: World<C, R>)
        ensures
            w.wf(),
            w.storage@.archetypes.len() == 0,
            w.storage@.next_entity == 0,
            w.resources@.len() == 0,
            w.queues@.len() == 0,
    {
        let w = World { storage: Storage::new(), resources: Vec::new(), queues: Vec::new() };
        proof {
            assert(res_ids(w.resources@) =~= Seq::<ResourceId>::empty());
        }
        w
    }

    /// Creates an entity from a bundle holding at most one value per kind and
    /// returns its fresh id.
    pub fn create_entity(&mut self, bundle: Bundle<C>) -> (e: EntityId) where C: Copy
        requires
            old(self).wf(),
            kinds_distinct(bundle_kinds(bundle@)),
            old(self).storage.next_entity < u64::MAX,
        ensures
            final(self).wf(),
            final(self).storage@ == old(self).storage@.create(bundle@),
            final(self).resources == old(self).resources,
            final(self).queues == old(self).queues,
            e == old(self).storage.next_entity,
    {
        self.storage.create_entity(bundle)
    }

    /// Registers the resource under `id` unless one is already stored there:
    /// the first registration wins and later ones are no-ops.
    pub fn add_resource(&mut self, id: ResourceId, value: R)
        requires
            old(self).wf(),
        ensures
            final(self).wf(),
            final(self).resources@ == res_add(old(self).resources@, id, value),
            res_lookup(old(self).resources@, id) is Some ==> final(self).resources
                == old(self).resources,
            res_lookup(old(self).resources@, id) is None ==> final(self).resources@ == old(
                self,
            ).resources@.push((id, value)),
            res_lookup(final(self).resources@, id) == match res_lookup(old(self).resources@, id) {
                Some(v) => Some(v),
                None => Some(value),
            },
            final(self).storage == old(self).storage,
            final(self).queues == old(self).queues,
    {
        proof {
            lemma_id_index(res_ids(self.resources@), id);
        }
        let present = find_resource(&self.resources, id);
        if present.is_none() {
            self.resources.push((id, value));
            proof {
                let rs = self.resources@;
                let ors = old(self).resources@;
                assert(res_ids(rs) =~= res_ids(ors).push(id));
                assert forall|i: int, j: int|
                    0 <= i < j < res_ids(rs).len() implies (#[trigger] res_ids(rs)[i]) != (
                #[trigger] res_ids(rs)[j]) by {
                    if j == res_ids(rs).len() - 1 {
                        assert(res_ids(ors)[i] == res_ids(rs)[i]);
                        if res_ids(ors)[i] == id {
                            assert(res_ids(ors).contains(id));
                        }
                    } else {
                        assert(res_ids(ors)[i] == res_ids(rs)[i]);
                        assert(res_ids(ors)[j] == res_ids(rs)[j]);
                    }
                }
                lemma_id_index_last(res_ids(ors), id);
            }
        }
    }

    /// Looks the resource stored under `id` up; absent resources yield
    /// nothing rather than failing.
    pub fn get_resource(&self, id: ResourceId) -> (r: Option<&R>)
        ensures
            r is Some <==> res_lookup(self.resources@, id) is Some,
            r matches Some(v) ==> res_lookup(self.resources@, id) == Some(*v),
    {
        proof {
            lemma_id_index(res_ids(self.resources@), id);
        }
        let found = find_resource(&self.resources, id);
        match found {
            Some(i) => Some(&self.resources[i].1),
            None => None,
        }
    }

    /// Hands out exclusive access to the resource stored under `id`; the new
    /// store differs from the old one exactly at that entry.
    pub fn get_resource_mut(&mut self, id: ResourceId) -> (r: Option<&mut R>)
        ensures
            r is Some <==> res_lookup(old(self).resources@, id) is Some,
            r is None ==> *final(self) == *old(self),
            r matches Some(v) ==> {
                &&& *v == res_lookup(old(self).resources@, id).unwrap()
                &&& final(self).resources@ == old(self).resources@.update(
                    id_index(res_ids(old(self).resources@), id),
                    (id, *final(v)),
                )
                &&& final(self).storage == old(self).storage
                &&& final(self).queues == old(self).queues
            },
    {
        proof {
            lemma_id_index(res_ids(self.resources@), id);
        }
        let found = find_resource(&self.resources, id);
        match found {
            Some(i) => {
                let entry = &mut self.resources[i];
                proof {
                    assert(old(self).resources@[i as int].0 == res_ids(old(self).resources@)[i as int]);
                }
                Some(&mut entry.1)
            },
            None => None,
        }
    }
}

/// The position of the resource stored under `id`, when one is.
fn find_resource<R>(rs: &Vec<(ResourceId, R)>, id: ResourceId) -> (r: Option<usize>)
    ensures
        r is Some <==> id_index(res_ids(rs@), id) >= 0,
        r matches Some(i) ==> i < rs@.len() && i as int == id_index(res_ids(rs@), id),
{
    proof {
        lemma_id_index(res_ids(rs@), id);
    }
    let n = rs.len();
    for i in 0..n
        invariant
            n == rs@.len(),
            forall|m: int| 0 <= m < i ==> (#[trigger] rs@[m]).0 != id,
    {
        if rs[i].0 == id {
            proof {
                assert(res_ids(rs@)[i as int] == id);
                assert forall|m: int| 0 <= m < i implies res_ids(rs@)[m] != id by {
                    assert(rs@[m].0 != id);
                }
                crate::storage::lemma_id_index_first(res_ids(rs@), id, i as int);
            }
            return Some(i);
        }
    }
    proof {
        if id_index(res_ids(rs@), id) >= 0 {
            assert(res_ids(rs@).contains(id));
            let w = choose|w: int| 0 <= w < res_ids(rs@).len() && res_ids(rs@)[w] == id;
            assert(rs@[w].0 == id);
        }
    }
    None
}

/// An id just appended to a list it was absent from is found at the end.
proof fn lemma_id_index_last(ids: Seq<ResourceId>, id: ResourceId)
    requires
        !ids.contains(id),
    ensures
        id_index(ids.push(id), id) == ids.len(),
{
    assert forall|m: int| 0 <= m < ids.len() implies ids.push(id)[m] != id by {
        if ids.push(id)[m] == id {
            assert(ids[m] == id);
            assert(ids.contains(id));
        }
    }
    assert(ids.push(id)[ids.len() as int] == id);
    crate::storage::lemma_id_index_first(ids.push(id), id, ids.len() as int);
}

impl<C, R> World<C, R> {
    /// Hands out the command queue of the system with the given id, creating
    /// empty queues up to that id on first use.
    pub fn get_commands_mut(&mut self, id: SystemId) -> (q: &mut Commands<C>)
        requires
            id < usize::MAX,
        ensures
            final(self).queues.len() == if id + 1 > old(self).queues.len() {
                id + 1
            } else {
                old(self).queues@.len() as int
            },
            id < old(self).queues.len() ==> *q == old(self).queues@[id as int],
            id >= old(self).queues.len() ==> q.pending@.len() == 0,
            final(self).queues@[id as int] == *final(q),
            forall|x: int|
                0 <= x < old(self).queues.len() && x != id ==> (
                #[trigger] final(self).queues@[x]) == old(self).queues@[x],
            forall|x: int|
                old(self).queues.len() <= x < final(self).queues.len() && x != id ==> (
                #[trigger] final(self).queues@[x]).pending@.len() == 0,
            final(self).storage == old(self).storage,
            final(self).resources == old(self).resources,
    {
        let want = (id as usize) + 1;
        while self.queues.len() < want
            invariant
                want == id + 1,
                self.queues@.len() <= want || self.queues@.len() == old(self).queues@.len(),
                forall|x: int|
                    0 <= x < self.queues@.len() && x < old(self).queues.len() ==> (
                    #[trigger] self.queues@[x]) == old(self).queues@[x],
                forall|x: int|
                    old(self).queues.len() <= x < self.queues@.len() ==> (
                    #[trigger] self.queues@[x]).pending@.len() == 0,
                old(self).queues@.len() <= self.queues@.len(),
                self.storage == old(self).storage,
                self.resources == old(self).resources,
            decreases want - self.queues@.len(),
        {
            let fresh: Commands<C> = Commands { pending: Vec::new() };
            self.queues.push(fresh);
        }
        &mut self.queues[id as usize]
    }

    /// The commit phase: drains every system's queue in registration order
    /// and applies each recorded creation to the storage in issue order.
    pub fn execute_commands(&mut self) where C: Copy
        requires
            old(self).wf(),
        ensures
            final(self).wf(),
            final(self).storage@ == apply_queues(
                old(self).storage@,
                queues_bundles(old(self).queues@),
            ),
            final(self).queues@.len() == old(self).queues@.len(),
            forall|x: int|
                0 <= x < final(self).queues@.len() ==> (
                #[trigger] final(self).queues@[x]).pending@.len() == 0,
            final(self).resources == old(self).resources,
    {
        let ghost target = apply_queues(old(self).storage@, queues_bundles(old(self).queues@));
        proof {
            lemma_apply_queues_wf(old(self).storage@, queues_bundles(old(self).queues@));
            assert(queues_bundles(self.queues@).subrange(0, self.queues@.len() as int)
                =~= queues_bundles(self.queues@));
        }
        let n = self.queues.len();
        for q in 0..n
            invariant
                n == self.queues@.len(),
                n == old(self).queues@.len(),
                self.storage@.wf(),
                kinds_distinct(res_ids(self.resources@)),
                apply_queues(
                    self.storage@,
                    queues_bundles(old(self).queues@).subrange(q as int, n as int),
                ) == target,
                forall|x: int|
                    0 <= x < q ==> (#[trigger] self.queues@[x]).pending@.len() == 0,
                forall|x: int|
                    q <= x < n ==> (#[trigger] self.queues@[x]) == old(self).queues@[x],
                self.resources == old(self).resources,
        {
            let ghost qtail = queues_bundles(old(self).queues@).subrange(q as int, n as int);
            proof {
                assert(qtail.drop_first() =~= queues_bundles(old(self).queues@).subrange(
                    q as int + 1,
                    n as int,
                ));
                assert(qtail[0] == queues_bundles(old(self).queues@)[q as int]);
                assert(queues_bundles(old(self).queues@)[q as int] == pending_bundles(
                    old(self).queues@[q as int].pending@,
                ));
            }
            let ghost mid = apply_bundles(
                self.storage@,
                pending_bundles(self.queues@[q as int].pending@),
            );
            while self.queues[q].pending.len() > 0
                invariant
                    q < n,
                    n == self.queues@.len(),
                    self.storage@.wf(),
                    kinds_distinct(res_ids(self.resources@)),
                    self.resources == old(self).resources,
                    apply_bundles(
                        self.storage@,
                        pending_bundles(self.queues@[q as int].pending@),
                    ) == mid,
                    forall|x: int|
                        0 <= x < q ==> (#[trigger] self.queues@[x]).pending@.len() == 0,
                    forall|x: int|
                        q < x < n ==> (#[trigger] self.queues@[x]) == old(self).queues@[x],
                decreases self.queues@[q as int].pending@.len(),
            {
                let ghost pend0 = self.queues@[q as int].pending@;
                let cmd = self.queues[q].pending.remove(0);
                proof {
                    assert(pending_bundles(pend0).drop_first() =~= pending_bundles(
                        pend0.drop_first(),
                    ));
                    assert(pending_bundles(pend0)[0] == cmd.bundle());
                }
                match cmd {
                    Command::CreateEntity(bundle) => {
                        proof {
                            lemma_dedup_bundle(bundle@);
                        }
                        if self.storage.next_entity < u64::MAX {
                            let d = dedup(&bundle);
                            self.storage.create_entity(d);
                        }
                    },
                }
            }
            proof {
                assert(pending_bundles(self.queues@[q as int].pending@) =~= Seq::<
                    Seq<(ComponentId, C)>,
                >::empty());
                assert(apply_queues(self.storage@, qtail.drop_first()) == target);
            }
        }
        proof {
            assert(queues_bundles(old(self).queues@).subrange(n as int, n as int) =~= Seq::<
                Seq<Seq<(ComponentId, C)>>,
            >::empty());
        }
    }
}

/// Applying one bundle only appends rows.
pub proof fn lemma_apply_bundle_extends<C>(s: StorageView<C>, b: Seq<(ComponentId, C)>)
    ensures
        crate::storage::extends_rows(s, apply_bundle(s, b)),
{
    if s.next_entity < u64::MAX {
        crate::storage::lemma_create_extends(s, dedup_bundle(b));
    }
}

/// Applying a queue only appends rows.
pub proof fn lemma_apply_bundles_extends<C>(s: StorageView<C>, bs: Seq<Seq<(ComponentId, C)>>)
    ensures
        crate::storage::extends_rows(s, apply_bundles(s, bs)),
    decreases bs.len(),
{
    if bs.len() > 0 {
        lemma_apply_bundle_extends(s, bs[0]);
        lemma_apply_bundles_extends(apply_bundle(s, bs[0]), bs.drop_first());
        crate::storage::lemma_extends_rows_trans(
            s,
            apply_bundle(s, bs[0]),
            apply_bundles(s, bs),
        );
    }
}

/// The commit phase only appends rows: every row present before it is kept
/// unchanged.
pub proof fn lemma_apply_queues_extends<C>(s: StorageView<C>, qs: Seq<Seq<Seq<(ComponentId, C)>>>)
    ensures
        crate::storage::extends_rows(s, apply_queues(s, qs)),
    decreases qs.len(),
{
    if qs.len() > 0 {
        lemma_apply_bundles_extends(s, qs[0]);
        lemma_apply_queues_extends(apply_bundles(s, qs[0]), qs.drop_first());
        crate::storage::lemma_extends_rows_trans(
            s,
            apply_bundles(s, qs[0]),
            apply_queues(s, qs),
        );
    }
}

/// The resource store after one registration: the value joins the store
/// unless its id is already present, in which case nothing changes.
pub open spec fn res_add<R>(rs: Seq<(ResourceId, R)>, id: ResourceId, value: R) -> Seq<
    (ResourceId, R),
> {
    if res_lookup(rs, id) is Some {
        rs
    } else {
        rs.push((id, value))
    }
}

/// A value registered under a fresh id is found there afterwards.
pub proof fn lemma_res_add_found<R>(rs: Seq<(ResourceId, R)>, id: ResourceId, value: R)
    ensures
        res_lookup(res_add(rs, id, value), id) == match res_lookup(rs, id) {
            Some(v) => Some(v),
            None => Some(value),
        },
{
    lemma_id_index(res_ids(rs), id);
    if res_lookup(rs, id) is None {
        assert(res_ids(rs.push((id, value))) =~= res_ids(rs).push(id));
        assert(!res_ids(rs).contains(id));
        lemma_id_index_last(res_ids(rs), id);
    }
}

/// Law: registering a resource is idempotent — a second registration under
/// an id, with whatever value, changes nothing, and the store keeps
/// returning the value of the first registration.
pub proof fn lemma_add_resource_idempotent<R>(
    rs: Seq<(ResourceId, R)>,
    id: ResourceId,
    v1: R,
    v2: R,
)
    ensures
        res_add(res_add(rs, id, v1), id, v2) == res_add(rs, id, v1),
        res_lookup(rs, id) is None ==> res_lookup(res_add(res_add(rs, id, v1), id, v2), id)
            == Some(v1),
{
    lemma_res_add_found(rs, id, v1);
    lemma_res_add_found(res_add(rs, id, v1), id, v2);
}

/// Folding a queue distributes over concatenation.
pub proof fn lemma_apply_bundles_concat<C>(
    s: StorageView<C>,
    xs: Seq<Seq<(ComponentId, C)>>,
    ys: Seq<Seq<(ComponentId, C)>>,
)
    ensures
        apply_bundles(s, xs + ys) == apply_bundles(apply_bundles(s, xs), ys),
    decreases xs.len(),
{
    if xs.len() == 0 {
        assert(xs + ys =~= ys);
    } else {
        assert((xs + ys).drop_first() =~= xs.drop_first() + ys);
        assert((xs + ys)[0] == xs[0]);
        lemma_apply_bundles_concat(apply_bundle(s, xs[0]), xs.drop_first(), ys);
    }
}

/// Applying the queues one by one equals applying all their bundles in one
/// flattened sequence: the commit phase is one deterministic list of
/// creations.
pub proof fn lemma_apply_queues_flatten<C>(s: StorageView<C>, qs: Seq<Seq<Seq<(ComponentId, C)>>>)
    ensures
        apply_queues(s, qs) == apply_bundles(s, qs.flatten()),
    decreases qs.len(),
{
    if qs.len() == 0 {
        assert(qs.flatten() =~= Seq::<Seq<(ComponentId, C)>>::empty());
    } else {
        lemma_apply_queues_flatten(apply_bundles(s, qs[0]), qs.drop_first());
        lemma_apply_bundles_concat(s, qs[0], qs.drop_first().flatten());
        assert(qs.flatten() == qs[0] + qs.drop_first().flatten());
    }
}

/// Law (command deferral, invisible now): every entity a scan yields before
/// the commit phase has an id below the counter, so no entity a pending
/// command will create — their ids start at the counter — is visible to any
/// query this tick.
pub proof fn lemma_pending_entity_invisible<C>(s: StorageView<C>, req: Seq<ComponentId>)
    requires
        s.wf(),
    ensures
        forall|i: int|
            0 <= i < crate::storage::sv_scan(s.archetypes, req).len() ==> (
            #[trigger] crate::storage::sv_scan(s.archetypes, req)[i]).entity < s.next_entity,
{
    crate::storage::lemma_scan_entities_bounded(s.archetypes, req, s.next_entity);
}

/// The entity created for the bundle at position `t` is stored after the
/// whole queue is applied, in an archetype covering every request within the
/// bundle's kinds, under the id drawn `t` creations after the counter.
pub proof fn lemma_apply_bundles_visible<C>(
    s: StorageView<C>,
    bs: Seq<Seq<(ComponentId, C)>>,
    t: int,
    req: Seq<ComponentId>,
)
    requires
        s.wf(),
        s.next_entity + bs.len() <= u64::MAX,
        0 <= t < bs.len(),
        crate::storage::arch_matches(bundle_kinds(bs[t]), req),
    ensures
        crate::storage::stored_matching(
            apply_bundles(s, bs).archetypes,
            (s.next_entity + t) as u64,
            req,
        ),
    decreases t,
{
    let s1 = apply_bundle(s, bs[0]);
    lemma_apply_bundle_wf(s, bs[0]);
    if t == 0 {
        lemma_dedup_bundle(bs[0]);
        assert forall|i: int| 0 <= i < req.len() implies bundle_kinds(
            dedup_bundle(bs[0]),
        ).contains(#[trigger] req[i]) by {
            assert(bundle_kinds(bs[0]).contains(req[i]));
        }
        crate::storage::lemma_create_visible(s, dedup_bundle(bs[0]), req);
        lemma_apply_bundles_extends(s1, bs.drop_first());
        crate::storage::lemma_stored_matching_extends(
            s1,
            apply_bundles(s1, bs.drop_first()),
            s.next_entity,
            req,
        );
    } else {
        assert(bs.drop_first()[t - 1] == bs[t]);
        lemma_apply_bundles_visible(s1, bs.drop_first(), t - 1, req);
    }
}

/// Law (command deferral, visible next tick): after the commit phase the
/// entity created for the `t`-th buffered bundle — counted over all queues in
/// registration order — is stored under id `next_entity + t` and appears in
/// every scan whose request its bundle's kinds cover; before the commit phase
/// no scan yields an id that high.
pub proof fn lemma_command_deferral<C>(
    s: StorageView<C>,
    qs: Seq<Seq<Seq<(ComponentId, C)>>>,
    t: int,
    req: Seq<ComponentId>,
)
    requires
        s.wf(),
        s.next_entity + qs.flatten().len() <= u64::MAX,
        0 <= t < qs.flatten().len(),
        crate::storage::arch_matches(bundle_kinds(qs.flatten()[t]), req),
    ensures
        forall|i: int|
            0 <= i < crate::storage::sv_scan(s.archetypes, req).len() ==> (
            #[trigger] crate::storage::sv_scan(s.archetypes, req)[i]).entity < s.next_entity,
        forall|i: int|
            0 <= i < crate::storage::sv_scan(s.archetypes, req).len() ==> (
            #[trigger] crate::storage::sv_scan(s.archetypes, req)[i]).entity != s.next_entity + t,
        exists|i: int|
            0 <= i < crate::storage::sv_scan(apply_queues(s, qs).archetypes, req).len() && (
            #[trigger] crate::storage::sv_scan(apply_queues(s, qs).archetypes, req)[i]).entity == (
            s.next_entity + t) as u64,
{
    lemma_pending_entity_invisible(s, req);
    lemma_apply_queues_flatten(s, qs);
    lemma_apply_bundles_visible(s, qs.flatten(), t, req);
    crate::storage::lemma_stored_matching_scan(
        apply_queues(s, qs).archetypes,
        (s.next_entity + t) as u64,
        req,
    );
}

impl<C, R> World<C, R> {
    /// Scans the storage for every entity whose archetype covers the
    /// requested kinds; rows come in archetype-discovery order, then creation
    /// order, and carry copies of the requested component values.
    pub fn get_entities(&self, req: &Vec<ComponentId>) -> (out: Vec<Row<C>>) where C: Copy
        requires
            self.wf(),
        ensures
            crate::storage::rows_view(out@) == crate::storage::sv_scan(
                self.storage@.archetypes,
                req@,
            ),
    {
        self.storage.get_entities(req)
    }
}

} // verus!
