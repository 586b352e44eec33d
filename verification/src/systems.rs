//! System declarations and their registration-time validation.
//!
//! A system declares its data needs as a list of parameters: queries over
//! component kinds, shared or exclusive resource accesses, and at most one
//! deferred-commands handle.  Validation runs once, at registration, and
//! rejects every combination under which two of the declared accesses could
//! alias in a conflicting way; a validated system's accesses are then served
//! without any further per-tick checking.

use vstd::prelude::*;

use crate::{ComponentId, Id, ResourceId};

verus! {

/// One element of a query's access tuple: a component kind together with the
/// mutability the system asks for.
#[derive(Clone, Copy, Debug)]
pub enum Access {
    /// Shared read of the component kind.
    Shared(ComponentId),
    /// Exclusive (read-write) access to the component kind.
    Exclusive(ComponentId),
}

impl Access {
    /// The component kind this access refers to.
    pub open spec fn kind(self) -> ComponentId {
        match self {
            Access::Shared(k) => k,
            Access::Exclusive(k) => k,
        }
    }

    /// Whether the access is exclusive.
    pub open spec fn is_exclusive(self) -> bool {
        self is Exclusive
    }
}

/// One declared parameter of a system.
#[derive(Debug)]
pub enum Param {
    /// A query over entities carrying all the listed component kinds.
    Query(Vec<Access>),
    /// Shared read of the resource with the given id.
    Res(ResourceId),
    /// Exclusive (read-write) access to the resource with the given id.
    ResMut(ResourceId),
    /// The deferred-commands handle.
    Commands,
}

/// A system's full declaration: its parameters in order.
#[derive(Debug)]
pub struct SystemDecl {
    pub params: Vec<Param>,
}

/// A structured registration-time failure, identifying the offending access.
#[derive(Clone, Copy, Debug, PartialEq, Eq, Structural)]
pub enum ValidationError {
    /// Some component kind is requested twice across the system's queries and
    /// at least one of the two requests is exclusive.
    ComponentConflict { kind: ComponentId },
    /// Some resource id is requested twice and at least one of the two
    /// requests is exclusive.
    ResourceConflict { resource: ResourceId },
    /// The deferred-commands handle is declared more than once.
    DuplicateCommands,
}

/// The component accesses contributed by one parameter: each query element as
/// a pair of its kind and whether the request is exclusive.
pub open spec fn param_component_accesses(p: Param) -> Seq<(ComponentId, bool)> {
    match p {
        Param::Query(accs) => accs@.map_values(|a: Access| access_pair(a)),
        _ => Seq::empty(),
    }
}

/// All component accesses of a declaration, flattened over its queries in
/// parameter order.
pub open spec fn component_accesses(params: Seq<Param>) -> Seq<(ComponentId, bool)>
    decreases params.len(),
{
    if params.len() == 0 {
        Seq::empty()
    } else {
        param_component_accesses(params[0]) + component_accesses(params.drop_first())
    }
}

/// The resource accesses contributed by one parameter.
pub open spec fn param_resource_accesses(p: Param) -> Seq<(ResourceId, bool)> {
    match p {
        Param::Res(id) => seq![(id, false)],
        Param::ResMut(id) => seq![(id, true)],
        _ => Seq::empty(),
    }
}

/// All resource accesses of a declaration, in parameter order.
pub open spec fn resource_accesses(params: Seq<Param>) -> Seq<(ResourceId, bool)>
    decreases params.len(),
{
    if params.len() == 0 {
        Seq::empty()
    } else {
        param_resource_accesses(params[0]) + resource_accesses(params.drop_first())
    }
}

/// How many times the declaration asks for the deferred-commands handle.
pub open spec fn commands_count(params: Seq<Param>) -> nat
    decreases params.len(),
{
    if params.len() == 0 {
        0
    } else {
        (if params[0] is Commands {
            1nat
        } else {
            0nat
        }) + commands_count(params.drop_first())
    }
}

/// A list of (id, exclusive) accesses is alias-free when any id requested at
/// two different positions is requested shared at both: every repeat that
/// includes an exclusive request is a conflict.
pub open spec fn accesses_compatible(accs: Seq<(Id, bool)>) -> bool {
    forall|i: int, j: int|
        0 <= i < accs.len() && 0 <= j < accs.len() && i != j && (#[trigger] accs[i]).0 == (
        #[trigger] accs[j]).0 ==> !accs[i].1 && !accs[j].1
}

/// A declaration is accepted exactly when its component accesses are mutually
/// alias-free, its resource accesses are mutually alias-free, and it asks for
/// the deferred-commands handle at most once.
pub open spec fn decl_valid(params: Seq<Param>) -> bool {
    &&& accesses_compatible(component_accesses(params))
    &&& accesses_compatible(resource_accesses(params))
    &&& commands_count(params) <= 1
}

/// The pair an access contributes to the flattened access list.
pub open spec fn access_pair(a: Access) -> (ComponentId, bool) {
    (a.kind(), a.is_exclusive())
}

/// Flattens the component accesses of a declaration into one list.
fn flatten_component_accesses(params: &Vec<Param>) -> (out: Vec<(ComponentId, bool)>)
    ensures
        out@ == component_accesses(params@),
{
    let mut out: Vec<(ComponentId, bool)> = Vec::new();
    let n = params.len();
    proof {
        assert(params@.subrange(0, n as int) =~= params@);
        assert(Seq::<(ComponentId, bool)>::empty() + component_accesses(params@)
            =~= component_accesses(params@));
    }
    for p in 0..n
        invariant
            n == params@.len(),
            out@ + component_accesses(params@.subrange(p as int, n as int)) == component_accesses(
                params@,
            ),
    {
        let ghost tail = params@.subrange(p as int, n as int);
        proof {
            assert(tail.drop_first() =~= params@.subrange(p as int + 1, n as int));
            assert(tail[0] == params@[p as int]);
        }
        let ghost out0 = out@;
        match &params[p] {
            Param::Query(accs) => {
                let m = accs.len();
                for a in 0..m
                    invariant
                        n == params@.len(),
                        p < n,
                        m == accs@.len(),
                        params@[p as int] == Param::Query(*accs),
                        out@ == out0 + accs@.take(a as int).map_values(|x: Access| access_pair(x)),
                {
                    let k: ComponentId;
                    let e: bool;
                    match accs[a] {
                        Access::Shared(kk) => {
                            k = kk;
                            e = false;
                        },
                        Access::Exclusive(kk) => {
                            k = kk;
                            e = true;
                        },
                    }
                    out.push((k, e));
                    proof {
                        assert(accs@.take(a as int + 1).map_values(
                            |x: Access| access_pair(x),
                        ) =~= accs@.take(a as int).map_values(|x: Access| access_pair(x)).push(
                            access_pair(accs@[a as int]),
                        ));
                    }
                }
                proof {
                    assert(accs@.take(m as int) =~= accs@);
                    assert(param_component_accesses(params@[p as int]) =~= accs@.map_values(
                        |x: Access| access_pair(x),
                    ));
                }
            },
            _ => {
                proof {
                    assert(param_component_accesses(params@[p as int]) =~= Seq::<(
                        ComponentId,
                        bool,
                    )>::empty());
                }
            },
        }
        proof {
            assert(out@ + component_accesses(params@.subrange(p as int + 1, n as int))
                =~= component_accesses(params@));
        }
    }
    proof {
        assert(params@.subrange(n as int, n as int) =~= Seq::<Param>::empty());
        assert(out@ =~= component_accesses(params@));
    }
    out
}

/// Flattens the resource accesses of a declaration into one list.
pub fn flatten_resource_accesses(params: &Vec<Param>) -> (out: Vec<(ResourceId, bool)>)
    ensures
        out@ == resource_accesses(params@),
{
    let mut out: Vec<(ResourceId, bool)> = Vec::new();
    let n = params.len();
    proof {
        assert(params@.subrange(0, n as int) =~= params@);
        assert(Seq::<(ResourceId, bool)>::empty() + resource_accesses(params@)
            =~= resource_accesses(params@));
    }
    for p in 0..n
        invariant
            n == params@.len(),
            out@ + resource_accesses(params@.subrange(p as int, n as int)) == resource_accesses(
                params@,
            ),
    {
        let ghost tail = params@.subrange(p as int, n as int);
        proof {
            assert(tail.drop_first() =~= params@.subrange(p as int + 1, n as int));
            assert(tail[0] == params@[p as int]);
        }
        match &params[p] {
            Param::Res(id) => {
                out.push((*id, false));
            },
            Param::ResMut(id) => {
                out.push((*id, true));
            },
            _ => {},
        }
        proof {
            assert(out@ + resource_accesses(params@.subrange(p as int + 1, n as int))
                =~= resource_accesses(params@));
        }
    }
    proof {
        assert(params@.subrange(n as int, n as int) =~= Seq::<Param>::empty());
        assert(out@ =~= resource_accesses(params@));
    }
    out
}

/// Counts the declared deferred-commands handles.
pub fn count_commands(params: &Vec<Param>) -> (c: usize)
    ensures
        c as nat == commands_count(params@),
{
    let mut c: usize = 0;
    let n = params.len();
    proof {
        assert(params@.subrange(0, n as int) =~= params@);
    }
    for p in 0..n
        invariant
            n == params@.len(),
            c <= p,
            c as nat + commands_count(params@.subrange(p as int, n as int)) == commands_count(
                params@,
            ),
    {
        let ghost tail = params@.subrange(p as int, n as int);
        proof {
            assert(tail.drop_first() =~= params@.subrange(p as int + 1, n as int));
            assert(tail[0] == params@[p as int]);
        }
        match &params[p] {
            Param::Commands => {
                c = c + 1;
            },
            _ => {},
        }
    }
    proof {
        assert(params@.subrange(n as int, n as int) =~= Seq::<Param>::empty());
    }
    c
}

/// Two positions of an access list do not conflict: if they name the same id,
/// both requests are shared.
pub open spec fn no_conflict_at(s: Seq<(Id, bool)>, x: int, y: int) -> bool {
    s[x].0 == s[y].0 ==> !s[x].1 && !s[y].1
}

/// Searches an access list for a pair of positions naming the same id where
/// at least one of the two requests is exclusive; returns the conflicting id.
fn find_conflict(accs: &Vec<(Id, bool)>) -> (r: Option<Id>)
    ensures
        r is None <==> accesses_compatible(accs@),
        r matches Some(k) ==> exists|i: int, j: int|
            0 <= i < j < accs@.len() && (#[trigger] accs@[i]).0 == k && (#[trigger] accs@[j]).0
                == k && (accs@[i].1 || accs@[j].1),
{
    let n = accs.len();
    for i in 0..n
        invariant
            n == accs@.len(),
            forall|x: int, y: int| 0 <= x < i && x < y < n ==> no_conflict_at(accs@, x, y),
    {
        let (ki, ei) = accs[i];
        for j in (i + 1)..n
            invariant
                n == accs@.len(),
                i < n,
                (ki, ei) == accs@[i as int],
                forall|x: int, y: int| 0 <= x < i && x < y < n ==> no_conflict_at(accs@, x, y),
                forall|y: int| i < y < j ==> no_conflict_at(accs@, i as int, y),
        {
            let (kj, ej) = accs[j];
            if ki == kj && (ei || ej) {
                proof {
                    assert(accs@[i as int].0 == ki && accs@[j as int].0 == ki);
                    assert(!no_conflict_at(accs@, i as int, j as int));
                    assert(!accesses_compatible(accs@));
                }
                return Some(ki);
            }
        }
    }
    proof {
        assert forall|x: int, y: int|
            0 <= x < accs@.len() && 0 <= y < accs@.len() && x != y && (#[trigger] accs@[x]).0 == (
            #[trigger] accs@[y]).0 implies !accs@[x].1 && !accs@[y].1 by {
            if x < y {
                assert(no_conflict_at(accs@, x, y));
            } else {
                assert(no_conflict_at(accs@, y, x));
            }
        }
    }
    None
}

/// Validates a system declaration, once, at registration time.
///
/// Registration succeeds exactly when the declaration is alias-free; each
/// rejection names the class of conflict and the offending id.  Component
/// conflicts are reported first, then resource conflicts, then a duplicated
/// commands handle.
pub fn validate(decl: &SystemDecl) -> (r: Result<(), ValidationError>)
    ensures
        r is Ok <==> decl_valid(decl.params@),
        (!accesses_compatible(component_accesses(decl.params@))) <==> (exists|k: ComponentId|
            r == Err::<(), ValidationError>(ValidationError::ComponentConflict { kind: k })),
        forall|k: ComponentId|
            r == Err::<(), ValidationError>(ValidationError::ComponentConflict { kind: k })
                ==> exists|i: int, j: int|
                    0 <= i < j < component_accesses(decl.params@).len() && (
                    #[trigger] component_accesses(decl.params@)[i]).0 == k && (
                    #[trigger] component_accesses(decl.params@)[j]).0 == k && (component_accesses(
                        decl.params@,
                    )[i].1 || component_accesses(decl.params@)[j].1),
        (accesses_compatible(component_accesses(decl.params@)) && !accesses_compatible(
            resource_accesses(decl.params@),
        )) <==> (exists|id: ResourceId|
            r == Err::<(), ValidationError>(ValidationError::ResourceConflict { resource: id })),
        forall|id: ResourceId|
            r == Err::<(), ValidationError>(ValidationError::ResourceConflict { resource: id })
                ==> exists|i: int, j: int|
                    0 <= i < j < resource_accesses(decl.params@).len() && (
                    #[trigger] resource_accesses(decl.params@)[i]).0 == id && (
                    #[trigger] resource_accesses(decl.params@)[j]).0 == id && (resource_accesses(
                        decl.params@,
                    )[i].1 || resource_accesses(decl.params@)[j].1),
        (accesses_compatible(component_accesses(decl.params@)) && accesses_compatible(
            resource_accesses(decl.params@),
        ) && commands_count(decl.params@) >= 2) <==> r == Err::<(), ValidationError>(
            ValidationError::DuplicateCommands,
        ),
{
    let comp = flatten_component_accesses(&decl.params);
    if let Some(k) = find_conflict(&comp) {
        return Err(ValidationError::ComponentConflict { kind: k });
    }
    let res = flatten_resource_accesses(&decl.params);
    if let Some(id) = find_conflict(&res) {
        return Err(ValidationError::ResourceConflict { resource: id });
    }
    if count_commands(&decl.params) >= 2 {
        return Err(ValidationError::DuplicateCommands);
    }
    Ok(())
}

/// Locates one parameter's component accesses inside the flattened list:
/// returns the offset at which they start.
pub proof fn lemma_component_offset(params: Seq<Param>, q: int) -> (off: int)
    requires
        0 <= q < params.len(),
    ensures
        0 <= off,
        off + param_component_accesses(params[q]).len() <= component_accesses(params).len(),
        forall|i: int|
            0 <= i < param_component_accesses(params[q]).len() ==> component_accesses(params)[off
                + i] == param_component_accesses(params[q])[i],
    decreases q,
{
    if q == 0 {
        0
    } else {
        let o = lemma_component_offset(params.drop_first(), q - 1);
        assert(params.drop_first()[q - 1] == params[q]);
        param_component_accesses(params[0]).len() as int + o
    }
}

/// Locates the component accesses of two distinct parameters inside the
/// flattened list, at disjoint ranges: returns their two offsets.
pub proof fn lemma_component_offsets(params: Seq<Param>, q1: int, q2: int) -> (offs: (int, int))
    requires
        0 <= q1 < q2 < params.len(),
    ensures
        0 <= offs.0,
        offs.0 + param_component_accesses(params[q1]).len() <= offs.1,
        offs.1 + param_component_accesses(params[q2]).len() <= component_accesses(params).len(),
        forall|i: int|
            0 <= i < param_component_accesses(params[q1]).len() ==> component_accesses(
                params,
            )[offs.0 + i] == param_component_accesses(params[q1])[i],
        forall|i: int|
            0 <= i < param_component_accesses(params[q2]).len() ==> component_accesses(
                params,
            )[offs.1 + i] == param_component_accesses(params[q2])[i],
    decreases q1,
{
    if q1 == 0 {
        let o2 = lemma_component_offset(params.drop_first(), q2 - 1);
        assert(params.drop_first()[q2 - 1] == params[q2]);
        (0, param_component_accesses(params[0]).len() as int + o2)
    } else {
        let o = lemma_component_offsets(params.drop_first(), q1 - 1, q2 - 1);
        assert(params.drop_first()[q1 - 1] == params[q1]);
        assert(params.drop_first()[q2 - 1] == params[q2]);
        let base = param_component_accesses(params[0]).len() as int;
        (base + o.0, base + o.1)
    }
}

/// Locates one parameter's resource accesses inside the flattened list.
pub proof fn lemma_resource_offset(params: Seq<Param>, q: int) -> (off: int)
    requires
        0 <= q < params.len(),
    ensures
        0 <= off,
        off + param_resource_accesses(params[q]).len() <= resource_accesses(params).len(),
        forall|i: int|
            0 <= i < param_resource_accesses(params[q]).len() ==> resource_accesses(params)[off + i]
                == param_resource_accesses(params[q])[i],
    decreases q,
{
    if q == 0 {
        0
    } else {
        let o = lemma_resource_offset(params.drop_first(), q - 1);
        assert(params.drop_first()[q - 1] == params[q]);
        param_resource_accesses(params[0]).len() as int + o
    }
}

/// Locates the resource accesses of two distinct parameters at disjoint
/// positions of the flattened list.
pub proof fn lemma_resource_offsets(params: Seq<Param>, q1: int, q2: int) -> (offs: (int, int))
    requires
        0 <= q1 < q2 < params.len(),
    ensures
        0 <= offs.0,
        offs.0 + param_resource_accesses(params[q1]).len() <= offs.1,
        offs.1 + param_resource_accesses(params[q2]).len() <= resource_accesses(params).len(),
        forall|i: int|
            0 <= i < param_resource_accesses(params[q1]).len() ==> resource_accesses(params)[offs.0
                + i] == param_resource_accesses(params[q1])[i],
        forall|i: int|
            0 <= i < param_resource_accesses(params[q2]).len() ==> resource_accesses(params)[offs.1
                + i] == param_resource_accesses(params[q2])[i],
    decreases q1,
{
    if q1 == 0 {
        let o2 = lemma_resource_offset(params.drop_first(), q2 - 1);
        assert(params.drop_first()[q2 - 1] == params[q2]);
        (0, param_resource_accesses(params[0]).len() as int + o2)
    } else {
        let o = lemma_resource_offsets(params.drop_first(), q1 - 1, q2 - 1);
        assert(params.drop_first()[q1 - 1] == params[q1]);
        assert(params.drop_first()[q2 - 1] == params[q2]);
        let base = param_resource_accesses(params[0]).len() as int;
        (base + o.0, base + o.1)
    }
}

/// Law: a declaration whose query requests the same component kind at two
/// positions, at least one of them exclusively, is rejected — whatever else
/// the declaration contains.
pub proof fn lemma_query_alias_rejected(params: Seq<Param>, q: int, i: int, j: int)
    requires
        0 <= q < params.len(),
        params[q] is Query,
        0 <= i < params[q]->Query_0@.len(),
        0 <= j < params[q]->Query_0@.len(),
        i != j,
        params[q]->Query_0@[i].kind() == params[q]->Query_0@[j].kind(),
        params[q]->Query_0@[i].is_exclusive() || params[q]->Query_0@[j].is_exclusive(),
    ensures
        !decl_valid(params),
{
    let off = lemma_component_offset(params, q);
    let accs = component_accesses(params);
    let qaccs = params[q]->Query_0@;
    assert(param_component_accesses(params[q]) =~= qaccs.map_values(|a: Access| access_pair(a)));
    assert(param_component_accesses(params[q])[i] == access_pair(qaccs[i]));
    assert(param_component_accesses(params[q])[j] == access_pair(qaccs[j]));
    assert(accs[off + i] == access_pair(params[q]->Query_0@[i]));
    assert(accs[off + j] == access_pair(params[q]->Query_0@[j]));
    assert(!(!accs[off + i].1 && !accs[off + j].1));
    assert(!accesses_compatible(accs));
}

/// Law: two different queries of one declaration must be mutually alias-free:
/// if one requests a component kind that the other requests too, and at least
/// one of the two requests is exclusive, the declaration is rejected.
pub proof fn lemma_cross_query_alias_rejected(
    params: Seq<Param>,
    q1: int,
    q2: int,
    i: int,
    j: int,
)
    requires
        0 <= q1 < params.len(),
        0 <= q2 < params.len(),
        q1 != q2,
        params[q1] is Query,
        params[q2] is Query,
        0 <= i < params[q1]->Query_0@.len(),
        0 <= j < params[q2]->Query_0@.len(),
        params[q1]->Query_0@[i].kind() == params[q2]->Query_0@[j].kind(),
        params[q1]->Query_0@[i].is_exclusive() || params[q2]->Query_0@[j].is_exclusive(),
    ensures
        !decl_valid(params),
{
    let accs = component_accesses(params);
    let a1 = params[q1]->Query_0@;
    let a2 = params[q2]->Query_0@;
    assert(param_component_accesses(params[q1]) =~= a1.map_values(|a: Access| access_pair(a)));
    assert(param_component_accesses(params[q2]) =~= a2.map_values(|a: Access| access_pair(a)));
    assert(param_component_accesses(params[q1])[i] == access_pair(a1[i]));
    assert(param_component_accesses(params[q2])[j] == access_pair(a2[j]));
    if q1 < q2 {
        let offs = lemma_component_offsets(params, q1, q2);
        assert(accs[offs.0 + i] == access_pair(params[q1]->Query_0@[i]));
        assert(accs[offs.1 + j] == access_pair(params[q2]->Query_0@[j]));
        assert(!(!accs[offs.0 + i].1 && !accs[offs.1 + j].1));
    } else {
        let offs = lemma_component_offsets(params, q2, q1);
        assert(accs[offs.0 + j] == access_pair(params[q2]->Query_0@[j]));
        assert(accs[offs.1 + i] == access_pair(params[q1]->Query_0@[i]));
        assert(!(!accs[offs.1 + i].1 && !accs[offs.0 + j].1));
    }
    assert(!accesses_compatible(accs));
}

/// Law: a declaration requesting both shared and exclusive access to one
/// resource id — or exclusive access to it twice — is rejected.
pub proof fn lemma_resource_alias_rejected(params: Seq<Param>, p1: int, p2: int, id: ResourceId)
    requires
        0 <= p1 < params.len(),
        0 <= p2 < params.len(),
        p1 != p2,
        params[p1] == Param::Res(id) || params[p1] == Param::ResMut(id),
        params[p2] == Param::Res(id) || params[p2] == Param::ResMut(id),
        params[p1] is ResMut || params[p2] is ResMut,
    ensures
        !decl_valid(params),
{
    let accs = resource_accesses(params);
    let (lo, hi) = if p1 < p2 {
        (p1, p2)
    } else {
        (p2, p1)
    };
    let offs = lemma_resource_offsets(params, lo, hi);
    assert(accs[offs.0] == param_resource_accesses(params[lo])[0]);
    assert(accs[offs.1] == param_resource_accesses(params[hi])[0]);
    assert(accs[offs.0].0 == id && accs[offs.1].0 == id);
    assert(accs[offs.0].1 || accs[offs.1].1);
    assert(!accesses_compatible(accs));
}

/// Any parameter list holding a deferred-commands handle counts at least one.
proof fn lemma_commands_count_at_least_one(params: Seq<Param>, p: int)
    requires
        0 <= p < params.len(),
        params[p] is Commands,
    ensures
        commands_count(params) >= 1,
    decreases p,
{
    if p > 0 {
        assert(params.drop_first()[p - 1] == params[p]);
        lemma_commands_count_at_least_one(params.drop_first(), p - 1);
    }
}

/// Law: a declaration naming the deferred-commands handle at two different
/// positions is rejected.
pub proof fn lemma_duplicate_commands_rejected(params: Seq<Param>, p1: int, p2: int)
    requires
        0 <= p1 < params.len(),
        0 <= p2 < params.len(),
        p1 != p2,
        params[p1] is Commands,
        params[p2] is Commands,
    ensures
        !decl_valid(params),
{
    let (lo, hi) = if p1 < p2 {
        (p1, p2)
    } else {
        (p2, p1)
    };
    lemma_commands_count_two(params, lo, hi);
}

/// Two command handles at ordered positions give a count of at least two.
proof fn lemma_commands_count_two(params: Seq<Param>, p1: int, p2: int)
    requires
        0 <= p1 < p2 < params.len(),
        params[p1] is Commands,
        params[p2] is Commands,
    ensures
        commands_count(params) >= 2,
    decreases p1,
{
    if p1 == 0 {
        assert(params.drop_first()[p2 - 1] == params[p2]);
        lemma_commands_count_at_least_one(params.drop_first(), p2 - 1);
    } else {
        assert(params.drop_first()[p1 - 1] == params[p1]);
        assert(params.drop_first()[p2 - 1] == params[p2]);
        lemma_commands_count_two(params.drop_first(), p1 - 1, p2 - 1);
    }
}

/// The data a system's run is handed: one row set per declared query (in
/// declaration order), the declared resources present in the store, and a
/// commands queue for deferred structural changes.
///
/// Rows carry copies of the requested component values, in access-tuple
/// order; values written into positions the system declared exclusively are
/// copied back into the store when the run returns.  A context never carries
/// a component kind or resource the system did not declare.
pub struct SystemContext<C, R> {
    pub queries: Vec<Vec<crate::storage::Row<C>>>,
    pub resources: Vec<(ResourceId, R)>,
    pub commands: crate::commands::Commands<C>,
}

/// A unit of logic run once per tick against the context its declaration
/// asked for.  Implementations are ordinary code; the scheduler constrains
/// what of the context's content reaches the world afterwards.
pub trait System<C, R> {
    /// Runs the system against the context built for this tick.
    fn run(&mut self, ctx: &mut SystemContext<C, R>);
}

/// The kinds a query's access tuple asks for, in tuple order.
pub open spec fn query_kinds(accs: Seq<Access>) -> Seq<ComponentId> {
    accs.map_values(|a: Access| a.kind())
}

/// Whether the declaration asks for exclusive access to component kind `k`.
pub open spec fn writes_component(params: Seq<Param>, k: ComponentId) -> bool {
    exists|i: int|
        0 <= i < component_accesses(params).len() && (#[trigger] component_accesses(params)[i]) == (
            k,
            true,
        )
}

/// Whether the declaration asks for exclusive access to resource `id`.
pub open spec fn writes_resource(params: Seq<Param>, id: ResourceId) -> bool {
    exists|i: int|
        0 <= i < resource_accesses(params).len() && (#[trigger] resource_accesses(params)[i]) == (
            id,
            true,
        )
}

} // verus!
