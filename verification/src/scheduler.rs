//! The scheduler: one tick is an execution phase followed by a commit phase.
//!
//! The execution phase runs every registered system in registration order;
//! each system gets a fresh context built from the current world, and what it
//! wrote into the context's exclusively-declared positions is copied back
//! into the world before the next system starts.  The commit phase applies
//! every deferred command buffered during the execution phase.
//!
//! Registration validates a system's declaration once; a tick performs no
//! further aliasing checks, and its writes stay inside what was declared: the
//! tick contract states that a component kind no system declared exclusively,
//! and a resource no system declared read-write, come out of the tick
//! unchanged.

use vstd::prelude::*;

use crate::commands::Commands;
use crate::storage::{rows_view, same_shape, Row, StorageView};
use crate::systems::{
    accesses_compatible, commands_count, component_accesses, decl_valid,
    param_component_accesses, param_resource_accesses, query_kinds, resource_accesses, validate,
    writes_component, writes_resource, Access, Param, System, SystemContext, SystemDecl,
    ValidationError,
};
use crate::world::{lemma_apply_queues_extends, queues_bundles, res_ids, res_lookup, World};
use crate::{ComponentId, ResourceId, SystemId};

verus! {

/// A registered system: its validated declaration and its body.
pub struct RegisteredSystem<S> {
    pub decl: SystemDecl,
    pub system: S,
}

/// The ordered list of registered systems.
pub struct Scheduler<S> {
    pub systems: Vec<RegisteredSystem<S>>,
}

/// Builds a scheduler by registering systems one at a time.
pub struct SchedulerBuilder<S> {
    pub systems: Vec<RegisteredSystem<S>>,
}

/// Every registered declaration passed validation.
pub open spec fn systems_valid<S>(systems: Seq<RegisteredSystem<S>>) -> bool {
    forall|i: int| 0 <= i < systems.len() ==> decl_valid((#[trigger] systems[i]).decl.params@)
}

/// Whether some registered system declares exclusive access to kind `k`.
pub open spec fn any_writes_component<S>(systems: Seq<RegisteredSystem<S>>, k: ComponentId) -> bool {
    exists|i: int| 0 <= i < systems.len() && writes_component((#[trigger] systems[i]).decl.params@, k)
}

/// Whether some registered system declares exclusive access to resource `id`.
pub open spec fn any_writes_resource<S>(systems: Seq<RegisteredSystem<S>>, id: ResourceId) -> bool {
    exists|i: int| 0 <= i < systems.len() && writes_resource((#[trigger] systems[i]).decl.params@, id)
}

impl<S> Scheduler<S> {
    /// A scheduler with no systems.
    pub fn new() -> (s: Scheduler<S>)
        ensures
            s.systems@.len() == 0,
            systems_valid(s.systems@),
    {
        Scheduler { systems: Vec::new() }
    }

    /// Validates a declaration and registers the system under it; an invalid
    /// declaration is rejected before any tick can run it.
    pub fn add_system(&mut self, decl: SystemDecl, system: S) -> (r: Result<(), ValidationError>)
        ensures
            r is Ok <==> decl_valid(decl.params@),
            r is Ok ==> final(self).systems@ == old(self).systems@.push(
                RegisteredSystem { decl, system },
            ),
            r is Err ==> *final(self) == *old(self),
            systems_valid(old(self).systems@) ==> systems_valid(final(self).systems@),
            (!accesses_compatible(component_accesses(decl.params@))) <==> (exists|k: ComponentId|
                r == Err::<(), ValidationError>(ValidationError::ComponentConflict { kind: k })),
            (accesses_compatible(component_accesses(decl.params@)) && !accesses_compatible(
                resource_accesses(decl.params@),
            )) <==> (exists|id: ResourceId|
                r == Err::<(), ValidationError>(ValidationError::ResourceConflict {
                    resource: id,
                })),
            (accesses_compatible(component_accesses(decl.params@)) && accesses_compatible(
                resource_accesses(decl.params@),
            ) && commands_count(decl.params@) >= 2) <==> r == Err::<(), ValidationError>(
                ValidationError::DuplicateCommands,
            ),
    {
        let check = validate(&decl);
        match check {
            Ok(()) => {
                let ghost prior = self.systems@;
                self.systems.push(RegisteredSystem { decl, system });
                proof {
                    assert forall|i: int| 0 <= i < self.systems@.len() && systems_valid(
                        prior,
                    ) implies decl_valid((#[trigger] self.systems@[i]).decl.params@) by {
                        if i < prior.len() {
                            assert(self.systems@[i] == prior[i]);
                        }
                    }
                }
                Ok(())
            },
            Err(e) => Err(e),
        }
    }
}

impl<S> SchedulerBuilder<S> {
    /// A builder with no systems.
    pub fn new() -> (b: SchedulerBuilder<S>)
        ensures
            b.systems@.len() == 0,
            systems_valid(b.systems@),
    {
        SchedulerBuilder { systems: Vec::new() }
    }

    /// Validates a declaration and registers the system under it.
    pub fn add_system(&mut self, decl: SystemDecl, system: S) -> (r: Result<(), ValidationError>)
        ensures
            r is Ok <==> decl_valid(decl.params@),
            r is Ok ==> final(self).systems@ == old(self).systems@.push(
                RegisteredSystem { decl, system },
            ),
            r is Err ==> *final(self) == *old(self),
            systems_valid(old(self).systems@) ==> systems_valid(final(self).systems@),
    {
        let check = validate(&decl);
        match check {
            Ok(()) => {
                let ghost prior = self.systems@;
                self.systems.push(RegisteredSystem { decl, system });
                proof {
                    assert forall|i: int| 0 <= i < self.systems@.len() && systems_valid(
                        prior,
                    ) implies decl_valid((#[trigger] self.systems@[i]).decl.params@) by {
                        if i < prior.len() {
                            assert(self.systems@[i] == prior[i]);
                        }
                    }
                }
                Ok(())
            },
            Err(e) => Err(e),
        }
    }

    /// Finishes registration: the scheduler runs the systems in the order
    /// they were added.
    pub fn build(self) -> (s: Scheduler<S>)
        ensures
            s.systems == self.systems,
    {
        Scheduler { systems: self.systems }
    }
}

/// The row sets a context carries: one scan per declared query, in
/// declaration order.
pub open spec fn ctx_queries<C>(s: StorageView<C>, params: Seq<Param>) -> Seq<
    Seq<crate::storage::RowView<C>>,
>
    decreases params.len(),
{
    if params.len() == 0 {
        Seq::empty()
    } else {
        (match params[0] {
            Param::Query(accs) => seq![
                crate::storage::sv_scan(s.archetypes, query_kinds(accs@)),
            ],
            _ => Seq::empty(),
        }) + ctx_queries(s, params.drop_first())
    }
}

/// The resource copies a context carries: one entry per declared resource
/// parameter whose resource is present, in declaration order.
pub open spec fn ctx_resources<R>(
    rs: Seq<(ResourceId, R)>,
    params: Seq<Param>,
) -> Seq<(ResourceId, R)>
    decreases params.len(),
{
    if params.len() == 0 {
        Seq::empty()
    } else {
        (match params[0] {
            Param::Res(id) => match res_lookup(rs, id) {
                Some(v) => seq![(id, v)],
                None => Seq::empty(),
            },
            Param::ResMut(id) => match res_lookup(rs, id) {
                Some(v) => seq![(id, v)],
                None => Seq::empty(),
            },
            _ => Seq::empty(),
        }) + ctx_resources(rs, params.drop_first())
    }
}

/// The view of a context's query row sets.
pub open spec fn queries_view<C>(qs: Seq<Vec<Row<C>>>) -> Seq<Seq<crate::storage::RowView<C>>> {
    qs.map_values(|q: Vec<Row<C>>| rows_view(q@))
}

/// Builds the context one system's run is handed: a scan per declared query,
/// a copy of each declared resource that is present, and an empty commands
/// queue.  Nothing the system did not declare is exposed.
pub fn build_context<C: Copy, R: Copy>(world: &World<C, R>, decl: &SystemDecl) -> (ctx: SystemContext<
    C,
    R,
>)
    requires
        world.wf(),
    ensures
        queries_view(ctx.queries@) == ctx_queries(world.storage@, decl.params@),
        ctx.resources@ == ctx_resources(world.resources@, decl.params@),
        ctx.commands.pending@.len() == 0,
{
    let mut ctx: SystemContext<C, R> = SystemContext {
        queries: Vec::new(),
        resources: Vec::new(),
        commands: Commands::new(),
    };
    let n = decl.params.len();
    proof {
        assert(decl.params@.subrange(0, n as int) =~= decl.params@);
        assert(queries_view(ctx.queries@) =~= Seq::<Seq<crate::storage::RowView<C>>>::empty());
        assert(Seq::<Seq<crate::storage::RowView<C>>>::empty() + ctx_queries(
            world.storage@,
            decl.params@,
        ) =~= ctx_queries(world.storage@, decl.params@));
        assert(Seq::<(ResourceId, R)>::empty() + ctx_resources(world.resources@, decl.params@)
            =~= ctx_resources(world.resources@, decl.params@));
    }
    for p in 0..n
        invariant
            n == decl.params@.len(),
            world.wf(),
            queries_view(ctx.queries@) + ctx_queries(
                world.storage@,
                decl.params@.subrange(p as int, n as int),
            ) == ctx_queries(world.storage@, decl.params@),
            ctx.resources@ + ctx_resources(
                world.resources@,
                decl.params@.subrange(p as int, n as int),
            ) == ctx_resources(world.resources@, decl.params@),
            ctx.commands.pending@.len() == 0,
    {
        let ghost tail = decl.params@.subrange(p as int, n as int);
        proof {
            assert(tail.drop_first() =~= decl.params@.subrange(p as int + 1, n as int));
            assert(tail[0] == decl.params@[p as int]);
        }
        match &decl.params[p] {
            Param::Query(accs) => {
                let kinds = kinds_of_accesses(accs);
                let rows = world.storage.get_entities(&kinds);
                let ghost rowsv = rows_view(rows@);
                ctx.queries.push(rows);
                proof {
                    assert(queries_view(ctx.queries@) =~= queries_view(
                        ctx.queries@.drop_last(),
                    ).push(rowsv));
                }
            },
            Param::Res(id) => {
                let got = world.get_resource(*id);
                if let Some(v) = got {
                    ctx.resources.push((*id, *v));
                }
            },
            Param::ResMut(id) => {
                let got = world.get_resource(*id);
                if let Some(v) = got {
                    ctx.resources.push((*id, *v));
                }
            },
            Param::Commands => {},
        }
        proof {
            assert(queries_view(ctx.queries@) + ctx_queries(
                world.storage@,
                decl.params@.subrange(p as int + 1, n as int),
            ) =~= ctx_queries(world.storage@, decl.params@));
            assert(ctx.resources@ + ctx_resources(
                world.resources@,
                decl.params@.subrange(p as int + 1, n as int),
            ) =~= ctx_resources(world.resources@, decl.params@));
        }
    }
    proof {
        assert(decl.params@.subrange(n as int, n as int) =~= Seq::<Param>::empty());
        assert(queries_view(ctx.queries@) =~= ctx_queries(world.storage@, decl.params@));
        assert(ctx.resources@ =~= ctx_resources(world.resources@, decl.params@));
    }
    ctx
}

/// The kinds a query's access tuple asks for, in tuple order.
fn kinds_of_accesses(accs: &Vec<Access>) -> (ks: Vec<ComponentId>)
    ensures
        ks@ == query_kinds(accs@),
{
    let mut ks: Vec<ComponentId> = Vec::new();
    let n = accs.len();
    for i in 0..n
        invariant
            n == accs@.len(),
            ks@ == query_kinds(accs@.take(i as int)),
    {
        let k = match accs[i] {
            Access::Shared(k) => k,
            Access::Exclusive(k) => k,
        };
        ks.push(k);
        proof {
            assert(query_kinds(accs@.take(i as int + 1)) =~= query_kinds(
                accs@.take(i as int),
            ).push(accs@[i as int].kind()));
        }
    }
    proof {
        assert(accs@.take(n as int) =~= accs@);
    }
    ks
}

/// Component values changed only at kinds the declaration asks exclusive
/// access for.
pub open spec fn comps_frame<C>(o: StorageView<C>, n: StorageView<C>, params: Seq<Param>) -> bool {
    forall|a: int, r: int, j: int|
        0 <= a < o.archetypes.len() && 0 <= r < o.archetypes[a].rows.len() && 0 <= j
            < o.archetypes[a].rows[r].comps.len() && !writes_component(
            params,
            o.archetypes[a].kinds[j],
        ) ==> (#[trigger] n.archetypes[a].rows[r].comps[j]) == o.archetypes[a].rows[r].comps[j]
}

/// Resource entries changed only at ids the declaration asks read-write
/// access for; no entry appears, disappears or changes its id.
pub open spec fn res_frame<R>(
    o: Seq<(ResourceId, R)>,
    n: Seq<(ResourceId, R)>,
    params: Seq<Param>,
) -> bool {
    &&& n.len() == o.len()
    &&& forall|x: int|
        0 <= x < o.len() ==> (#[trigger] n[x]).0 == o[x].0 && (!writes_resource(params, o[x].0)
            ==> n[x] == o[x])
}

/// Whether the declaration names `ResMut` of the given resource id.
pub open spec fn has_res_mut(params: Seq<Param>, id: ResourceId) -> bool {
    exists|p: int| 0 <= p < params.len() && params[p] == Param::ResMut(id)
}

/// Whether the declaration names the deferred-commands handle.
fn declares_commands(params: &Vec<Param>) -> (r: bool)
    ensures
        r == (commands_count(params@) >= 1),
{
    let c = crate::systems::count_commands(params);
    c >= 1
}

/// Whether the declaration asks for read-write access to resource `id`.
fn declares_res_mut(params: &Vec<Param>, id: ResourceId) -> (r: bool)
    ensures
        r == has_res_mut(params@, id),
        r ==> writes_resource(params@, id),
{
    let n = params.len();
    let mut found = false;
    let ghost mut witness: int = 0;
    for p in 0..n
        invariant
            n == params@.len(),
            found ==> 0 <= witness < n && params@[witness] == Param::ResMut(id),
            !found ==> forall|m: int| 0 <= m < p ==> params@[m] != Param::ResMut(id),
    {
        if !found {
            match &params[p] {
                Param::ResMut(rid) => {
                    if *rid == id {
                        found = true;
                        proof {
                            witness = p as int;
                        }
                    }
                },
                _ => {},
            }
        }
    }
    proof {
        if found {
            assert(has_res_mut(params@, id));
            let off = crate::systems::lemma_resource_offset(params@, witness);
            assert(param_resource_accesses(params@[witness]) == seq![(id, true)]);
            assert(param_resource_accesses(params@[witness])[0] == (id, true));
            assert(resource_accesses(params@)[off + 0] == (id, true));
            assert(writes_resource(params@, id));
        }
    }
    found
}

/// One access position's write-back: an exclusive access whose value the
/// context holds is written to the row's entity; a shared access, or a
/// position the context's row is too short for, writes nothing.
pub open spec fn apply_access<C>(
    s: StorageView<C>,
    row: crate::storage::RowView<C>,
    acc: Access,
    j: int,
) -> StorageView<C> {
    if acc.is_exclusive() && 0 <= j < row.comps.len() {
        s.set(row.entity, acc.kind(), row.comps[j])
    } else {
        s
    }
}

/// One row's write-back: its access positions from `j` on, in tuple order.
pub open spec fn apply_row_from<C>(
    s: StorageView<C>,
    accs: Seq<Access>,
    row: crate::storage::RowView<C>,
    j: int,
) -> StorageView<C>
    decreases accs.len() - j,
{
    if j < 0 || j >= accs.len() {
        s
    } else {
        apply_row_from(apply_access(s, row, accs[j], j), accs, row, j + 1)
    }
}

/// One query's write-back: its rows from `ri` on, in row order.
pub open spec fn apply_rows_from<C>(
    s: StorageView<C>,
    accs: Seq<Access>,
    rows: Seq<crate::storage::RowView<C>>,
    ri: int,
) -> StorageView<C>
    decreases rows.len() - ri,
{
    if ri < 0 || ri >= rows.len() {
        s
    } else {
        apply_rows_from(apply_row_from(s, accs, rows[ri], 0), accs, rows, ri + 1)
    }
}

/// The whole declaration's component write-back: parameter `p` on, with `qi`
/// the position of the next row set in the context's query list; a query the
/// context has no row set for writes nothing.
pub open spec fn apply_queries_from<C>(
    s: StorageView<C>,
    params: Seq<Param>,
    queries: Seq<Seq<crate::storage::RowView<C>>>,
    p: int,
    qi: int,
) -> StorageView<C>
    decreases params.len() - p,
{
    if p < 0 || p >= params.len() {
        s
    } else {
        match params[p] {
            Param::Query(accs) => apply_queries_from(
                if 0 <= qi < queries.len() {
                    apply_rows_from(s, accs@, queries[qi], 0)
                } else {
                    s
                },
                params,
                queries,
                p + 1,
                qi + 1,
            ),
            _ => apply_queries_from(s, params, queries, p + 1, qi),
        }
    }
}

/// The declaration's resource write-back: the context's entries from `ei` on,
/// in order; an entry whose id the declaration does not name `ResMut`, or
/// whose resource is absent, writes nothing.
pub open spec fn apply_res_from<R>(
    rs: Seq<(ResourceId, R)>,
    entries: Seq<(ResourceId, R)>,
    params: Seq<Param>,
    ei: int,
) -> Seq<(ResourceId, R)>
    decreases entries.len() - ei,
{
    if ei < 0 || ei >= entries.len() {
        rs
    } else {
        let e = entries[ei];
        let written = if has_res_mut(params, e.0) && res_lookup(rs, e.0) is Some {
            rs.update(crate::storage::id_index(res_ids(rs), e.0), (e.0, e.1))
        } else {
            rs
        };
        apply_res_from(written, entries, params, ei + 1)
    }
}

/// Carries a finished run's context back into the world: values at the
/// declaration's exclusively-requested component positions and resources are
/// written to the store, and the buffered commands join the system's queue
/// when the declaration asked for the handle.  Everything else — every
/// undeclared kind, resource and queue — is left untouched, whatever the
/// context holds; entries of the context that no longer name a stored entity
/// or kind are skipped.
pub fn apply_context<C: Copy, R: Copy>(
    world: &mut World<C, R>,
    decl: &SystemDecl,
    ctx: SystemContext<C, R>,
    sys_id: SystemId,
)
    requires
        old(world).wf(),
        sys_id < usize::MAX,
    ensures
        final(world).wf(),
        same_shape(old(world).storage@, final(world).storage@),
        comps_frame(old(world).storage@, final(world).storage@, decl.params@),
        res_frame(old(world).resources@, final(world).resources@, decl.params@),
        final(world).storage@ == apply_queries_from(
            old(world).storage@,
            decl.params@,
            queries_view(ctx.queries@),
            0,
            0,
        ),
        final(world).resources@ == apply_res_from(
            old(world).resources@,
            ctx.resources@,
            decl.params@,
            0,
        ),
        commands_count(decl.params@) == 0 ==> final(world).queues == old(world).queues,
        commands_count(decl.params@) >= 1 ==> {
            &&& final(world).queues@.len() == if sys_id + 1 > old(world).queues@.len() {
                sys_id + 1
            } else {
                old(world).queues@.len() as int
            }
            &&& forall|x: int|
                0 <= x < old(world).queues@.len() && x != sys_id ==> (
                #[trigger] final(world).queues@[x]) == old(world).queues@[x]
            &&& forall|x: int|
                old(world).queues@.len() <= x < final(world).queues@.len() && x != sys_id ==> (
                #[trigger] final(world).queues@[x]).pending@.len() == 0
            &&& final(world).queues@[sys_id as int].pending@ == (if sys_id < old(
                world,
            ).queues@.len() {
                old(world).queues@[sys_id as int].pending@
            } else {
                Seq::<crate::commands::Command<C>>::empty()
            }) + ctx.commands.pending@
        },
{
    let ghost qv = queries_view(ctx.queries@);
    let ghost stgt = apply_queries_from(old(world).storage@, decl.params@, qv, 0, 0);
    let mut qi: usize = 0;
    let n = decl.params.len();
    for p in 0..n
        invariant
            n == decl.params@.len(),
            qi <= p,
            old(world).wf(),
            world.wf(),
            qv == queries_view(ctx.queries@),
            stgt == apply_queries_from(old(world).storage@, decl.params@, qv, 0, 0),
            apply_queries_from(world.storage@, decl.params@, qv, p as int, qi as int) == stgt,
            same_shape(old(world).storage@, world.storage@),
            comps_frame(old(world).storage@, world.storage@, decl.params@),
            world.resources == old(world).resources,
            world.queues == old(world).queues,
    {
        match &decl.params[p] {
            Param::Query(accs) => {
                if qi < ctx.queries.len() {
                    let rows = &ctx.queries[qi];
                    proof {
                        assert(qv[qi as int] == rows_view(rows@));
                    }
                    let nr = rows.len();
                    for ri in 0..nr
                        invariant
                            n == decl.params@.len(),
                            p < n,
                            qi < qv.len(),
                            decl.params@[p as int] == Param::Query(*accs),
                            nr == rows@.len(),
                            qv[qi as int] == rows_view(rows@),
                            old(world).wf(),
                            world.wf(),
                            apply_queries_from(
                                apply_rows_from(world.storage@, accs@, qv[qi as int], ri as int),
                                decl.params@,
                                qv,
                                p as int + 1,
                                qi as int + 1,
                            ) == stgt,
                            same_shape(old(world).storage@, world.storage@),
                            comps_frame(old(world).storage@, world.storage@, decl.params@),
                            world.resources == old(world).resources,
                            world.queues == old(world).queues,
                    {
                        let ghost row_v = qv[qi as int][ri as int];
                        proof {
                            assert(row_v == rows@[ri as int]@);
                        }
                        let na = accs.len();
                        for j in 0..na
                            invariant
                                n == decl.params@.len(),
                                p < n,
                                qi < qv.len(),
                                decl.params@[p as int] == Param::Query(*accs),
                                nr == rows@.len(),
                                ri < nr,
                                qv[qi as int] == rows_view(rows@),
                                row_v == rows@[ri as int]@,
                                na == accs@.len(),
                                old(world).wf(),
                                world.wf(),
                                apply_queries_from(
                                    apply_rows_from(
                                        apply_row_from(world.storage@, accs@, row_v, j as int),
                                        accs@,
                                        qv[qi as int],
                                        ri as int + 1,
                                    ),
                                    decl.params@,
                                    qv,
                                    p as int + 1,
                                    qi as int + 1,
                                ) == stgt,
                                same_shape(old(world).storage@, world.storage@),
                                comps_frame(old(world).storage@, world.storage@, decl.params@),
                                world.resources == old(world).resources,
                                world.queues == old(world).queues,
                        {
                            let ghost prestep = world.storage@;
                            if let Access::Exclusive(k) = accs[j] {
                                if j < rows[ri].comps.len() {
                                    let ghost pre = world.storage@;
                                    let v = rows[ri].comps[j];
                                    proof {
                                        assert(row_v.comps[j as int] == v);
                                        assert(row_v.entity == rows@[ri as int].entity);
                                    }
                                    proof {
                                        let off = crate::systems::lemma_component_offset(
                                            decl.params@,
                                            p as int,
                                        );
                                        assert(param_component_accesses(decl.params@[p as int])
                                            =~= accs@.map_values(
                                            |x: Access| crate::systems::access_pair(x),
                                        ));
                                        assert(param_component_accesses(
                                            decl.params@[p as int],
                                        )[j as int] == (k, true));
                                        assert(component_accesses(decl.params@)[off + j] == (
                                            k,
                                            true,
                                        ));
                                        assert(writes_component(decl.params@, k));
                                        crate::storage::lemma_set_frame(world.storage@, rows@[ri as int].entity, k, v);
                                    }
                                    world.storage.set_component(rows[ri].entity, k, v);
                                    proof {
                                        crate::storage::lemma_same_shape_trans(
                                            old(world).storage@,
                                            pre,
                                            world.storage@,
                                        );
                                        assert forall|a: int, r: int, jj: int|
                                            0 <= a < old(world).storage@.archetypes.len() && 0 <= r
                                                < old(world).storage@.archetypes[a].rows.len() && 0
                                                <= jj < old(
                                                world,
                                            ).storage@.archetypes[a].rows[r].comps.len()
                                                && !writes_component(
                                                decl.params@,
                                                old(world).storage@.archetypes[a].kinds[jj],
                                            ) implies (
                                        #[trigger] world.storage@.archetypes[a].rows[r].comps[jj])
                                            == old(
                                            world,
                                        ).storage@.archetypes[a].rows[r].comps[jj] by {
                                            assert(writes_component(decl.params@, k));
                                            assert(old(world).storage@.archetypes[a].wf());
                                            assert(pre.archetypes[a].kinds == old(
                                                world,
                                            ).storage@.archetypes[a].kinds);
                                            assert(pre.archetypes[a].rows[r].comps.len() == old(
                                                world,
                                            ).storage@.archetypes[a].rows[r].comps.len());
                                            assert(old(world).storage@.archetypes[a].kinds[jj]
                                                != k);
                                            assert(world.storage@.archetypes[a].rows[r].comps[jj]
                                                == pre.archetypes[a].rows[r].comps[jj]);
                                        }
                                    }
                                }
                            }
                            proof {
                                assert(world.storage@ == apply_access(
                                    prestep,
                                    row_v,
                                    accs@[j as int],
                                    j as int,
                                ));
                            }
                        }
                    }
                }
                qi = qi + 1;
            },
            _ => {},
        }
    }
    proof {
        assert(apply_queries_from(world.storage@, decl.params@, qv, n as int, qi as int)
            == world.storage@);
    }
    let ghost rtgt = apply_res_from(old(world).resources@, ctx.resources@, decl.params@, 0);
    let nres = ctx.resources.len();
    for res_i in 0..nres
        invariant
            nres == ctx.resources@.len(),
            world.wf(),
            world.storage@ == stgt,
            rtgt == apply_res_from(old(world).resources@, ctx.resources@, decl.params@, 0),
            apply_res_from(world.resources@, ctx.resources@, decl.params@, res_i as int) == rtgt,
            same_shape(old(world).storage@, world.storage@),
            comps_frame(old(world).storage@, world.storage@, decl.params@),
            res_frame(old(world).resources@, world.resources@, decl.params@),
            world.queues == old(world).queues,
    {
        let ghost preres = world.resources@;
        let (rid, rv) = ctx.resources[res_i];
        if declares_res_mut(&decl.params, rid) {
            let ghost prew = *world;
            let ghost pre = world.resources@;
            let slot = world.get_resource_mut(rid);
            match slot {
                Some(dst) => {
                    *dst = rv;
                    proof {
                        let ix = crate::storage::id_index(res_ids(pre), rid);
                        crate::storage::lemma_id_index(res_ids(pre), rid);
                        assert(pre[ix].0 == res_ids(pre)[ix]);
                        assert(world.storage == prew.storage);
                        assert(world.queues == prew.queues);
                        assert(world.resources@ == pre.update(ix, (rid, world.resources@[ix].1)));
                        assert(world.resources@[ix].1 == rv);
                        assert(world.resources@ == pre.update(ix, (rid, rv)));
                        assert(res_ids(world.resources@) =~= res_ids(pre));
                        assert forall|x: int|
                            0 <= x < old(world).resources@.len() implies (
                        #[trigger] world.resources@[x]).0 == old(world).resources@[x].0 && (
                        !writes_resource(decl.params@, old(world).resources@[x].0)
                            ==> world.resources@[x] == old(world).resources@[x]) by {
                            if x != ix {
                                assert(world.resources@[x] == pre[x]);
                            } else {
                                assert(pre[x].0 == rid);
                                assert(writes_resource(decl.params@, rid));
                            }
                        }
                    }
                },
                None => {},
            }
        }
        proof {
            let e = ctx.resources@[res_i as int];
            assert(e.0 == rid && e.1 == rv);
            if has_res_mut(decl.params@, rid) && res_lookup(preres, rid) is Some {
                assert(world.resources@ == preres.update(
                    crate::storage::id_index(res_ids(preres), rid),
                    (rid, rv),
                ));
            } else {
                assert(world.resources@ == preres);
            }
            assert(apply_res_from(world.resources@, ctx.resources@, decl.params@, res_i as int + 1)
                == rtgt);
        }
    }
    proof {
        assert(apply_res_from(world.resources@, ctx.resources@, decl.params@, nres as int)
            == world.resources@);
    }
    if declares_commands(&decl.params) {
        let mut cmds = ctx.commands;
        let q = world.get_commands_mut(sys_id);
        q.pending.append(&mut cmds.pending);
    }
}

/// A tick's effect on stored rows: the storage may only have grown, every
/// entity present before the tick is still present with the same kinds and
/// row shape, and a component value changed only where some registered
/// system declared exclusive access to its kind.
pub open spec fn tick_storage_frame<C, S>(
    o: StorageView<C>,
    n: StorageView<C>,
    systems: Seq<RegisteredSystem<S>>,
) -> bool {
    &&& o.next_entity <= n.next_entity
    &&& o.archetypes.len() <= n.archetypes.len()
    &&& forall|a: int|
        0 <= a < o.archetypes.len() ==> (#[trigger] n.archetypes[a]).kinds == o.archetypes[a].kinds
            && o.archetypes[a].rows.len() <= n.archetypes[a].rows.len()
    &&& forall|a: int, r: int|
        0 <= a < o.archetypes.len() && 0 <= r < o.archetypes[a].rows.len() ==> (
        #[trigger] n.archetypes[a].rows[r]).entity == o.archetypes[a].rows[r].entity
            && n.archetypes[a].rows[r].comps.len() == o.archetypes[a].rows[r].comps.len()
    &&& forall|a: int, r: int, j: int|
        0 <= a < o.archetypes.len() && 0 <= r < o.archetypes[a].rows.len() && 0 <= j
            < o.archetypes[a].rows[r].comps.len() && !any_writes_component(
            systems,
            o.archetypes[a].kinds[j],
        ) ==> (#[trigger] n.archetypes[a].rows[r].comps[j]) == o.archetypes[a].rows[r].comps[j]
}

/// A tick's effect on resources: no resource appears, disappears or changes
/// its id, and a value changed only where some registered system declared
/// read-write access to it.
pub open spec fn tick_resource_frame<R, S>(
    o: Seq<(ResourceId, R)>,
    n: Seq<(ResourceId, R)>,
    systems: Seq<RegisteredSystem<S>>,
) -> bool {
    &&& n.len() == o.len()
    &&& forall|x: int|
        0 <= x < o.len() ==> (#[trigger] n[x]).0 == o[x].0 && (!any_writes_resource(
            systems,
            o[x].0,
        ) ==> n[x] == o[x])
}

impl<S> Scheduler<S> {
    /// One tick.  The execution phase runs every system in registration
    /// order against a context built from the current world and copies its
    /// declared writes back; the commit phase then applies every buffered
    /// command and leaves all queues empty.
    ///
    /// The tick's writes stay inside what was declared at registration: a
    /// component kind no system requested exclusively, and a resource no
    /// system requested read-write, come out unchanged, and no entity that
    /// existed before the tick is lost or moved.
    pub fn run<C: Copy, R: Copy>(&mut self, world: &mut World<C, R>) where S: System<C, R>
        requires
            old(world).wf(),
        ensures
            final(world).wf(),
            forall|x: int|
                0 <= x < final(world).queues@.len() ==> (
                #[trigger] final(world).queues@[x]).pending@.len() == 0,
            tick_storage_frame(
                old(world).storage@,
                final(world).storage@,
                old(self).systems@,
            ),
            tick_resource_frame(
                old(world).resources@,
                final(world).resources@,
                old(self).systems@,
            ),
            final(self).systems@.len() == old(self).systems@.len(),
            forall|i: int|
                0 <= i < old(self).systems@.len() ==> (#[trigger] final(self).systems@[i]).decl
                    == old(self).systems@[i].decl,
    {
        let n = self.systems.len();
        for i in 0..n
            invariant
                n == self.systems@.len(),
                n == old(self).systems@.len(),
                old(world).wf(),
                world.wf(),
                same_shape(old(world).storage@, world.storage@),
                forall|x: int|
                    0 <= x < n ==> (#[trigger] self.systems@[x]).decl == old(self).systems@[x].decl,
                forall|a: int, r: int, j: int|
                    0 <= a < old(world).storage@.archetypes.len() && 0 <= r < old(
                        world,
                    ).storage@.archetypes[a].rows.len() && 0 <= j < old(
                        world,
                    ).storage@.archetypes[a].rows[r].comps.len() && !any_writes_component(
                        old(self).systems@,
                        old(world).storage@.archetypes[a].kinds[j],
                    ) ==> (#[trigger] world.storage@.archetypes[a].rows[r].comps[j]) == old(
                        world,
                    ).storage@.archetypes[a].rows[r].comps[j],
                tick_resource_frame(old(world).resources@, world.resources@, old(self).systems@),
        {
            let ctx0 = build_context(world, &self.systems[i].decl);
            let mut ctx = ctx0;
            let ghost worldmid = *world;
            self.systems[i].system.run(&mut ctx);
            apply_context(world, &self.systems[i].decl, ctx, i as u64);
            proof {
                crate::storage::lemma_same_shape_trans(
                    old(world).storage@,
                    worldmid.storage@,
                    world.storage@,
                );
                assert forall|a: int, r: int, j: int|
                    0 <= a < old(world).storage@.archetypes.len() && 0 <= r < old(
                        world,
                    ).storage@.archetypes[a].rows.len() && 0 <= j < old(
                        world,
                    ).storage@.archetypes[a].rows[r].comps.len() && !any_writes_component(
                        old(self).systems@,
                        old(world).storage@.archetypes[a].kinds[j],
                    ) implies (#[trigger] world.storage@.archetypes[a].rows[r].comps[j]) == old(
                    world,
                ).storage@.archetypes[a].rows[r].comps[j] by {
                    let k = old(world).storage@.archetypes[a].kinds[j];
                    assert(self.systems@[i as int].decl == old(self).systems@[i as int].decl);
                    if writes_component(self.systems@[i as int].decl.params@, k) {
                        assert(any_writes_component(old(self).systems@, k));
                    }
                    assert(worldmid.storage@.archetypes[a].kinds == old(
                        world,
                    ).storage@.archetypes[a].kinds);
                    assert(worldmid.storage@.archetypes[a].rows[r].comps[j] == old(
                        world,
                    ).storage@.archetypes[a].rows[r].comps[j]);
                }
                assert forall|x: int|
                    0 <= x < old(world).resources@.len() implies (
                #[trigger] world.resources@[x]).0 == old(world).resources@[x].0 && (
                !any_writes_resource(old(self).systems@, old(world).resources@[x].0)
                    ==> world.resources@[x] == old(world).resources@[x]) by {
                    let id = old(world).resources@[x].0;
                    assert(worldmid.resources@[x].0 == id);
                    if writes_resource(self.systems@[i as int].decl.params@, id) {
                        assert(any_writes_resource(old(self).systems@, id));
                    }
                }
            }
        }
        let ghost preworld = *world;
        world.execute_commands();
        proof {
            lemma_apply_queues_extends(preworld.storage@, queues_bundles(preworld.queues@));
        }
    }
}

/// Every resource access the declaration names finds its resource in the
/// store.
pub open spec fn decl_resources_present<R>(params: Seq<Param>, rs: Seq<(ResourceId, R)>) -> bool {
    forall|i: int|
        0 <= i < resource_accesses(params).len() ==> res_lookup(
            rs,
            (#[trigger] resource_accesses(params)[i]).0,
        ) is Some
}

impl<S> Scheduler<S> {
    /// Startup validation of declared dependencies: reports the first
    /// resource some registered system declares that the world does not hold.
    /// An embedding application calls this once, before the first tick, so a
    /// missing declared dependency fails fast instead of surfacing mid-run.
    pub fn check_resources<C, R>(&self, world: &World<C, R>) -> (r: Result<(), ResourceId>)
        ensures
            r is Ok <==> forall|i: int|
                0 <= i < self.systems@.len() ==> decl_resources_present(
                    (#[trigger] self.systems@[i]).decl.params@,
                    world.resources@,
                ),
            r matches Err(id) ==> res_lookup(world.resources@, id) is None && exists|
                i: int,
                j: int,
            |
                #![trigger resource_accesses(self.systems@[i].decl.params@)[j]]
                0 <= i < self.systems@.len() && 0 <= j < resource_accesses(
                    self.systems@[i].decl.params@,
                ).len() && resource_accesses(self.systems@[i].decl.params@)[j].0 == id,
    {
        let n = self.systems.len();
        for i in 0..n
            invariant
                n == self.systems@.len(),
                forall|x: int|
                    0 <= x < i ==> decl_resources_present(
                        (#[trigger] self.systems@[x]).decl.params@,
                        world.resources@,
                    ),
        {
            let accs = crate::systems::flatten_resource_accesses(&self.systems[i].decl.params);
            let m = accs.len();
            for j in 0..m
                invariant
                    n == self.systems@.len(),
                    i < n,
                    m == accs@.len(),
                    accs@ == resource_accesses(self.systems@[i as int].decl.params@),
                    forall|y: int|
                        0 <= y < j ==> res_lookup(
                            world.resources@,
                            (#[trigger] accs@[y]).0,
                        ) is Some,
            {
                let (id, _excl) = accs[j];
                if world.get_resource(id).is_none() {
                    return Err(id);
                }
            }
        }
        Ok(())
    }
}

} // verus!
