//! Archetype storage: all live entities, grouped by the exact set of
//! component kinds they carry.
//!
//! An entity is a row of one archetype; the archetype fixes the kind list and
//! every row stores its component values parallel to that list.  Entities are
//! appended in creation order, and scans visit archetypes in discovery order
//! and rows in creation order, which makes the default iteration order
//! deterministic.

use vstd::prelude::*;

use crate::{ComponentId, EntityId};

verus! {

/// One stored entity: its id and its component values, parallel to the kind
/// list of the archetype that owns the row.
pub struct Row<C> {
    pub entity: EntityId,
    pub comps: Vec<C>,
}

/// The mathematical value of a `Row`.
#[verifier::ext_equal]
pub struct RowView<C> {
    pub entity: EntityId,
    pub comps: Seq<C>,
}

impl<C> View for Row<C> {
    type V = RowView<C>;

    open spec fn view(&self) -> RowView<C> {
        RowView { entity: self.entity, comps: self.comps@ }
    }
}

/// The storage partition for one exact component-kind set.
pub struct Archetype<C> {
    pub kinds: Vec<ComponentId>,
    pub rows: Vec<Row<C>>,
}

/// The mathematical value of an `Archetype`.
#[verifier::ext_equal]
pub struct ArchetypeView<C> {
    pub kinds: Seq<ComponentId>,
    pub rows: Seq<RowView<C>>,
}

impl<C> View for Archetype<C> {
    type V = ArchetypeView<C>;

    open spec fn view(&self) -> ArchetypeView<C> {
        ArchetypeView { kinds: self.kinds@, rows: rows_view(self.rows@) }
    }
}

/// All live entities, plus the counter from which fresh entity ids are drawn.
pub struct Storage<C> {
    pub archetypes: Vec<Archetype<C>>,
    pub next_entity: EntityId,
}

/// The mathematical value of a `Storage`.
#[verifier::ext_equal]
pub struct StorageView<C> {
    pub archetypes: Seq<ArchetypeView<C>>,
    pub next_entity: EntityId,
}

impl<C> View for Storage<C> {
    type V = StorageView<C>;

    open spec fn view(&self) -> StorageView<C> {
        StorageView {
            archetypes: self.archetypes@.map_values(|a: Archetype<C>| a@),
            next_entity: self.next_entity,
        }
    }
}

/// A bundle of component values: at most one value per component kind, as a
/// typed bundle can carry at most one component per type.
pub type Bundle<C> = Vec<(ComponentId, C)>;

/// The sequence of views of a sequence of rows.
pub open spec fn rows_view<C>(rows: Seq<Row<C>>) -> Seq<RowView<C>> {
    rows.map_values(|r: Row<C>| r@)
}

/// The kinds named by a bundle, in bundle order.
pub open spec fn bundle_kinds<C>(b: Seq<(ComponentId, C)>) -> Seq<ComponentId> {
    b.map_values(|p: (ComponentId, C)| p.0)
}

/// No component kind occurs twice.
pub open spec fn kinds_distinct(ks: Seq<ComponentId>) -> bool {
    forall|i: int, j: int| 0 <= i < j < ks.len() ==> (#[trigger] ks[i]) != (#[trigger] ks[j])
}

/// Two kind lists name the same set of kinds, in whatever order.
pub open spec fn same_kind_set(a: Seq<ComponentId>, b: Seq<ComponentId>) -> bool {
    (forall|i: int| 0 <= i < a.len() ==> b.contains(#[trigger] a[i])) && (forall|i: int|
        0 <= i < b.len() ==> a.contains(#[trigger] b[i]))
}

/// An archetype's kind set covers every requested kind (it may carry more).
pub open spec fn arch_matches(kinds: Seq<ComponentId>, req: Seq<ComponentId>) -> bool {
    forall|i: int| 0 <= i < req.len() ==> kinds.contains(#[trigger] req[i])
}

/// The first position of an id in a list of ids, or -1 when absent.
pub open spec fn id_index(ks: Seq<ComponentId>, k: ComponentId) -> int
    decreases ks.len(),
{
    if ks.len() == 0 {
        -1
    } else if ks[0] == k {
        0
    } else {
        let r = id_index(ks.drop_first(), k);
        if r < 0 {
            -1
        } else {
            1 + r
        }
    }
}

/// `id_index` finds exactly the first occurrence.
pub proof fn lemma_id_index(ks: Seq<ComponentId>, k: ComponentId)
    ensures
        -1 <= id_index(ks, k) < ks.len(),
        id_index(ks, k) >= 0 <==> ks.contains(k),
        id_index(ks, k) >= 0 ==> ks[id_index(ks, k)] == k,
        forall|m: int| 0 <= m < id_index(ks, k) ==> ks[m] != k,
    decreases ks.len(),
{
    if ks.len() > 0 && ks[0] != k {
        lemma_id_index(ks.drop_first(), k);
        assert forall|m: int| 0 <= m < id_index(ks, k) implies ks[m] != k by {
            if m > 0 {
                assert(ks.drop_first()[m - 1] == ks[m]);
            }
        }
        if ks.contains(k) {
            let w = choose|w: int| 0 <= w < ks.len() && ks[w] == k;
            assert(ks.drop_first()[w - 1] == k);
        }
        if id_index(ks.drop_first(), k) >= 0 {
            assert(ks[id_index(ks, k)] == ks.drop_first()[id_index(ks.drop_first(), k)]);
        }
    }
}

/// The value the bundle carries for kind `k` (the first one, when the bundle
/// is not well formed and repeats a kind).
pub open spec fn bundle_value<C>(b: Seq<(ComponentId, C)>, k: ComponentId) -> C
    decreases b.len(),
{
    if b.len() == 0 {
        arbitrary()
    } else if b[0].0 == k {
        b[0].1
    } else {
        bundle_value(b.drop_first(), k)
    }
}

/// `bundle_value` reads the entry at the first position naming the kind.
pub proof fn lemma_bundle_value<C>(b: Seq<(ComponentId, C)>, k: ComponentId, i: int)
    requires
        0 <= i < b.len(),
        b[i].0 == k,
        forall|m: int| 0 <= m < i ==> (#[trigger] b[m]).0 != k,
    ensures
        bundle_value(b, k) == b[i].1,
    decreases i,
{
    if i > 0 {
        assert forall|m: int| 0 <= m < i - 1 implies (#[trigger] b.drop_first()[m]).0 != k by {
            assert(b.drop_first()[m] == b[m + 1]);
        }
        assert(b.drop_first()[i - 1] == b[i]);
        lemma_bundle_value(b.drop_first(), k, i - 1);
    }
}

/// The component values of a fresh row, ordered to match an archetype's kind
/// list.
pub open spec fn row_of_bundle<C>(kinds: Seq<ComponentId>, b: Seq<(ComponentId, C)>) -> Seq<C> {
    Seq::new(kinds.len(), |j: int| bundle_value(b, kinds[j]))
}

/// The first archetype whose kind set equals `ks`, or -1 when none does.
pub open spec fn find_arch<C>(archs: Seq<ArchetypeView<C>>, ks: Seq<ComponentId>) -> int
    decreases archs.len(),
{
    if archs.len() == 0 {
        -1
    } else if same_kind_set(archs[0].kinds, ks) {
        0
    } else {
        let r = find_arch(archs.drop_first(), ks);
        if r < 0 {
            -1
        } else {
            1 + r
        }
    }
}

/// `find_arch` finds exactly the first archetype with the given kind set.
pub proof fn lemma_find_arch<C>(archs: Seq<ArchetypeView<C>>, ks: Seq<ComponentId>)
    ensures
        -1 <= find_arch(archs, ks) < archs.len(),
        find_arch(archs, ks) >= 0 <==> exists|a: int|
            0 <= a < archs.len() && same_kind_set((#[trigger] archs[a]).kinds, ks),
        find_arch(archs, ks) >= 0 ==> same_kind_set(archs[find_arch(archs, ks)].kinds, ks),
        forall|m: int|
            0 <= m < find_arch(archs, ks) ==> !same_kind_set((#[trigger] archs[m]).kinds, ks),
    decreases archs.len(),
{
    if archs.len() > 0 && !same_kind_set(archs[0].kinds, ks) {
        lemma_find_arch(archs.drop_first(), ks);
        assert forall|m: int| 0 <= m < find_arch(archs, ks) implies !same_kind_set(
            (#[trigger] archs[m]).kinds,
            ks,
        ) by {
            if m > 0 {
                assert(archs.drop_first()[m - 1] == archs[m]);
            }
        }
        if exists|a: int| 0 <= a < archs.len() && same_kind_set((#[trigger] archs[a]).kinds, ks) {
            let w = choose|w: int|
                0 <= w < archs.len() && same_kind_set((#[trigger] archs[w]).kinds, ks);
            assert(archs.drop_first()[w - 1] == archs[w]);
        }
        if find_arch(archs.drop_first(), ks) >= 0 {
            assert(archs[find_arch(archs, ks)] == archs.drop_first()[find_arch(
                archs.drop_first(),
                ks,
            )]);
        }
    }
}

impl<C> ArchetypeView<C> {
    /// The archetype's kind list holds no kind twice and every row stores one
    /// value per kind.
    pub open spec fn wf(self) -> bool {
        &&& kinds_distinct(self.kinds)
        &&& forall|r: int| 0 <= r < self.rows.len() ==> (#[trigger] self.rows[r]).comps.len()
            == self.kinds.len()
    }
}

impl<C> StorageView<C> {
    /// Every archetype is well formed, no two archetypes share one kind set,
    /// every stored entity id was drawn from the counter, and no id is stored
    /// twice.
    pub open spec fn wf(self) -> bool {
        &&& forall|a: int| 0 <= a < self.archetypes.len() ==> (#[trigger] self.archetypes[a]).wf()
        &&& forall|a1: int, a2: int|
            0 <= a1 < a2 < self.archetypes.len() ==> !same_kind_set(
                (#[trigger] self.archetypes[a1]).kinds,
                (#[trigger] self.archetypes[a2]).kinds,
            )
        &&& forall|a: int, r: int|
            0 <= a < self.archetypes.len() && 0 <= r < self.archetypes[a].rows.len() ==> (
            #[trigger] self.archetypes[a].rows[r]).entity < self.next_entity
        &&& forall|a1: int, r1: int, a2: int, r2: int|
            0 <= a1 < self.archetypes.len() && 0 <= r1 < self.archetypes[a1].rows.len() && 0 <= a2
                < self.archetypes.len() && 0 <= r2 < self.archetypes[a2].rows.len() && (a1 != a2
                || r1 != r2) ==> (#[trigger] self.archetypes[a1].rows[r1]).entity != (
            #[trigger] self.archetypes[a2].rows[r2]).entity
    }

    /// The storage after creating one entity from `b`: the row joins the
    /// archetype with the bundle's kind set, or a fresh archetype holding
    /// exactly the bundle's kinds is appended.
    pub open spec fn create(self, b: Seq<(ComponentId, C)>) -> StorageView<C> {
        let ks = bundle_kinds(b);
        let a = find_arch(self.archetypes, ks);
        if a >= 0 {
            let arch = self.archetypes[a];
            let row = RowView { entity: self.next_entity, comps: row_of_bundle(arch.kinds, b) };
            StorageView {
                archetypes: self.archetypes.update(
                    a,
                    ArchetypeView { kinds: arch.kinds, rows: arch.rows.push(row) },
                ),
                next_entity: (self.next_entity + 1) as u64,
            }
        } else {
            let row = RowView { entity: self.next_entity, comps: b.map_values(|p: (ComponentId, C)| p.1) };
            StorageView {
                archetypes: self.archetypes.push(ArchetypeView { kinds: ks, rows: seq![row] }),
                next_entity: (self.next_entity + 1) as u64,
            }
        }
    }
}

/// One archetype's contribution to a scan: its rows in creation order, each
/// projected to the requested kinds.
pub open spec fn scan_arch<C>(a: ArchetypeView<C>, req: Seq<ComponentId>) -> Seq<RowView<C>> {
    Seq::new(
        a.rows.len(),
        |r: int| RowView { entity: a.rows[r].entity, comps: project_row(a.kinds, a.rows[r].comps, req) },
    )
}

/// A row's component values at the requested kinds, in request order.
pub open spec fn project_row<C>(
    kinds: Seq<ComponentId>,
    comps: Seq<C>,
    req: Seq<ComponentId>,
) -> Seq<C> {
    Seq::new(req.len(), |i: int| comps[id_index(kinds, req[i])])
}

/// The full scan for a request: every archetype whose kind set covers the
/// request contributes its rows, in archetype-discovery order and then row
/// order.
pub open spec fn sv_scan<C>(archs: Seq<ArchetypeView<C>>, req: Seq<ComponentId>) -> Seq<
    RowView<C>,
>
    decreases archs.len(),
{
    if archs.len() == 0 {
        Seq::empty()
    } else {
        (if arch_matches(archs[0].kinds, req) {
            scan_arch(archs[0], req)
        } else {
            Seq::empty()
        }) + sv_scan(archs.drop_first(), req)
    }
}

/// Creating an entity preserves well-formedness of the storage.
pub proof fn lemma_create_wf<C>(s: StorageView<C>, b: Seq<(ComponentId, C)>)
    requires
        s.wf(),
        kinds_distinct(bundle_kinds(b)),
        s.next_entity < u64::MAX,
    ensures
        s.create(b).wf(),
{
    let ks = bundle_kinds(b);
    let a = find_arch(s.archetypes, ks);
    lemma_find_arch(s.archetypes, ks);
    let t = s.create(b);
    if a >= 0 {
        let arch = s.archetypes[a];
        assert(row_of_bundle(arch.kinds, b).len() == arch.kinds.len());
        assert(t.archetypes[a].wf());
        assert forall|x: int| 0 <= x < t.archetypes.len() implies (
        #[trigger] t.archetypes[x]).wf() by {
            if x != a {
                assert(t.archetypes[x] == s.archetypes[x]);
            }
        }
    } else {
        assert(b.map_values(|p: (ComponentId, C)| p.1).len() == ks.len());
        assert(t.archetypes[t.archetypes.len() - 1].wf());
        assert forall|a1: int, a2: int| 0 <= a1 < a2 < t.archetypes.len() implies !same_kind_set(
            (#[trigger] t.archetypes[a1]).kinds,
            (#[trigger] t.archetypes[a2]).kinds,
        ) by {
            if a2 == t.archetypes.len() - 1 {
                assert(!same_kind_set(s.archetypes[a1].kinds, ks));
                lemma_same_kind_set_sym(s.archetypes[a1].kinds, ks);
            }
        }
    }
}

/// Kind-set equality is symmetric.
pub proof fn lemma_same_kind_set_sym(a: Seq<ComponentId>, b: Seq<ComponentId>)
    ensures
        same_kind_set(a, b) == same_kind_set(b, a),
{
}

/// Whether a kind list contains `k`.
fn contains_kind(ks: &Vec<ComponentId>, k: ComponentId) -> (r: bool)
    ensures
        r == ks@.contains(k),
{
    let n = ks.len();
    for i in 0..n
        invariant
            n == ks@.len(),
            forall|m: int| 0 <= m < i ==> ks@[m] != k,
    {
        if ks[i] == k {
            return true;
        }
    }
    false
}

/// The first position of `k` in `ks`, when present.
fn find_kind(ks: &Vec<ComponentId>, k: ComponentId) -> (r: Option<usize>)
    ensures
        r is Some <==> ks@.contains(k),
        r matches Some(ix) ==> ix < ks@.len() && ix as int == id_index(ks@, k),
{
    proof {
        lemma_id_index(ks@, k);
    }
    let n = ks.len();
    for i in 0..n
        invariant
            n == ks@.len(),
            forall|m: int| 0 <= m < i ==> ks@[m] != k,
    {
        if ks[i] == k {
            proof {
                lemma_id_index_first(ks@, k, i as int);
            }
            return Some(i);
        }
    }
    None
}

/// When the positions before `i` miss the kind and `i` hits it, `i` is the
/// first position.
pub proof fn lemma_id_index_first(ks: Seq<ComponentId>, k: ComponentId, i: int)
    requires
        0 <= i < ks.len(),
        ks[i] == k,
        forall|m: int| 0 <= m < i ==> ks[m] != k,
    ensures
        id_index(ks, k) == i,
    decreases i,
{
    if i > 0 {
        assert forall|m: int| 0 <= m < i - 1 implies ks.drop_first()[m] != k by {
            assert(ks.drop_first()[m] == ks[m + 1]);
        }
        assert(ks.drop_first()[i - 1] == ks[i]);
        lemma_id_index_first(ks.drop_first(), k, i - 1);
    }
}

/// Whether two kind lists name the same set of kinds.
fn kind_sets_equal(a: &Vec<ComponentId>, b: &Vec<ComponentId>) -> (r: bool)
    ensures
        r == same_kind_set(a@, b@),
{
    let n = a.len();
    for i in 0..n
        invariant
            n == a@.len(),
            forall|m: int| 0 <= m < i ==> b@.contains(#[trigger] a@[m]),
    {
        if !contains_kind(b, a[i]) {
            return false;
        }
    }
    let m = b.len();
    for i in 0..m
        invariant
            m == b@.len(),
            forall|x: int| 0 <= x < a@.len() ==> b@.contains(#[trigger] a@[x]),
            forall|x: int| 0 <= x < i ==> a@.contains(#[trigger] b@[x]),
    {
        if !contains_kind(a, b[i]) {
            return false;
        }
    }
    true
}

/// The value a bundle carries for kind `k`, when it carries one.
fn bundle_get<C: Copy>(b: &Bundle<C>, k: ComponentId) -> (r: Option<C>)
    ensures
        r is Some <==> bundle_kinds(b@).contains(k),
        r matches Some(v) ==> v == bundle_value(b@, k),
{
    let n = b.len();
    for i in 0..n
        invariant
            n == b@.len(),
            forall|m: int| 0 <= m < i ==> (#[trigger] b@[m]).0 != k,
    {
        let (bk, bv) = b[i];
        if bk == k {
            proof {
                lemma_bundle_value(b@, k, i as int);
                assert(bundle_kinds(b@)[i as int] == k);
            }
            return Some(bv);
        }
    }
    proof {
        if bundle_kinds(b@).contains(k) {
            let w = choose|w: int| 0 <= w < bundle_kinds(b@).len() && bundle_kinds(b@)[w] == k;
            assert(b@[w].0 == k);
        }
    }
    None
}

/// The kind list of a bundle, in bundle order.
fn kinds_of_bundle<C>(b: &Bundle<C>) -> (ks: Vec<ComponentId>)
    ensures
        ks@ == bundle_kinds(b@),
{
    let mut ks: Vec<ComponentId> = Vec::new();
    let n = b.len();
    for i in 0..n
        invariant
            n == b@.len(),
            ks@ == bundle_kinds(b@.take(i as int)),
    {
        ks.push(b[i].0);
        proof {
            assert(bundle_kinds(b@.take(i as int + 1)) =~= bundle_kinds(b@.take(i as int)).push(
                b@[i as int].0,
            ));
        }
    }
    proof {
        assert(b@.take(n as int) =~= b@);
    }
    ks
}

impl<C> Storage<C> {
    /// An empty storage: no archetypes, ids start at zero.
    pub fn new() -> (s: Storage<C>)
        ensures
            s@.archetypes.len() == 0,
            s@.next_entity == 0,
            s@.wf(),
    {
        let s = Storage { archetypes: Vec::new(), next_entity: 0 };
        proof {
            assert(s@.archetypes =~= Seq::<ArchetypeView<C>>::empty());
        }
        s
    }

    /// The first archetype whose kind set equals `ks`, when one exists.
    fn find_archetype(&self, ks: &Vec<ComponentId>) -> (r: Option<usize>)
        ensures
            r is Some <==> find_arch(self@.archetypes, ks@) >= 0,
            r matches Some(a) ==> a < self.archetypes@.len() && a as int == find_arch(
                self@.archetypes,
                ks@,
            ),
    {
        proof {
            lemma_find_arch(self@.archetypes, ks@);
        }
        let n = self.archetypes.len();
        for a in 0..n
            invariant
                n == self.archetypes@.len(),
                n == self@.archetypes.len(),
                forall|m: int|
                    0 <= m < a ==> !same_kind_set((#[trigger] self@.archetypes[m]).kinds, ks@),
        {
            if kind_sets_equal(&self.archetypes[a].kinds, ks) {
                proof {
                    assert(self@.archetypes[a as int] == self.archetypes@[a as int]@);
                    lemma_find_arch_first(self@.archetypes, ks@, a as int);
                }
                return Some(a);
            }
            proof {
                assert(self@.archetypes[a as int] == self.archetypes@[a as int]@);
            }
        }
        None
    }

    /// Creates an entity from a bundle of component values and returns its
    /// fresh id.  The entity joins the archetype matching the bundle's kind
    /// set; the first bundle with a new kind set founds a new archetype.
    pub fn create_entity(&mut self, bundle: Bundle<C>) -> (e: EntityId) where C: Copy
        requires
            old(self)@.wf(),
            kinds_distinct(bundle_kinds(bundle@)),
            old(self).next_entity < u64::MAX,
        ensures
            final(self)@ == old(self)@.create(bundle@),
            final(self)@.wf(),
            e == old(self).next_entity,
    {
        proof {
            lemma_create_wf(old(self)@, bundle@);
        }
        let ks = kinds_of_bundle(&bundle);
        let e = self.next_entity;
        let found = self.find_archetype(&ks);
        match found {
            Some(a) => {
                proof {
                    lemma_find_arch(self@.archetypes, ks@);
                }
                let m = self.archetypes[a].kinds.len();
                let mut comps: Vec<C> = Vec::new();
                let ghost akinds = self.archetypes@[a as int].kinds@;
                for j in 0..m
                    invariant
                        a < self.archetypes@.len(),
                        m == akinds.len(),
                        akinds == self.archetypes@[a as int].kinds@,
                        same_kind_set(akinds, bundle_kinds(bundle@)),
                        comps@ == row_of_bundle(akinds, bundle@).take(j as int),
                        *self == *old(self),
                {
                    let v = bundle_get(&bundle, self.archetypes[a].kinds[j]);
                    proof {
                        assert(akinds[j as int] == self.archetypes@[a as int].kinds@[j as int]);
                    }
                    comps.push(v.unwrap());
                    proof {
                        assert(row_of_bundle(akinds, bundle@).take(j as int + 1) =~= row_of_bundle(
                            akinds,
                            bundle@,
                        ).take(j as int).push(bundle_value(bundle@, akinds[j as int])));
                    }
                }
                proof {
                    assert(comps@ =~= row_of_bundle(akinds, bundle@));
                }
                let row = Row { entity: e, comps };
                let ghost rowv = row@;
                self.archetypes[a].rows.push(row);
                self.next_entity = self.next_entity + 1;
                proof {
                    let tgt = old(self)@.create(bundle@);
                    assert forall|x: int|
                        0 <= x < self@.archetypes.len() implies self@.archetypes[x]
                        =~~= tgt.archetypes[x] by {
                        if x == a as int {
                            assert(self.archetypes@[x].rows@ =~= old(
                                self,
                            ).archetypes@[x].rows@.push(row));
                            assert(self.archetypes@[x]@.rows =~= old(self).archetypes@[x]@.rows.push(
                                rowv,
                            ));
                        } else {
                            assert(self.archetypes@[x] == old(self).archetypes@[x]);
                        }
                    }
                    assert(self@.archetypes =~~= tgt.archetypes);
                    assert(self@ =~~= tgt);
                }
            },
            None => {
                let mut comps: Vec<C> = Vec::new();
                let n = bundle.len();
                for i in 0..n
                    invariant
                        n == bundle@.len(),
                        comps@ == bundle@.take(i as int).map_values(|p: (ComponentId, C)| p.1),
                {
                    comps.push(bundle[i].1);
                    proof {
                        assert(bundle@.take(i as int + 1).map_values(|p: (ComponentId, C)| p.1)
                            =~= bundle@.take(i as int).map_values(|p: (ComponentId, C)| p.1).push(
                            bundle@[i as int].1,
                        ));
                    }
                }
                proof {
                    assert(bundle@.take(n as int) =~= bundle@);
                }
                let row = Row { entity: e, comps };
                let ghost rowv = row@;
                let mut rows: Vec<Row<C>> = Vec::new();
                rows.push(row);
                let ghost rowsv = rows@;
                self.archetypes.push(Archetype { kinds: ks, rows });
                self.next_entity = self.next_entity + 1;
                proof {
                    let tgt = old(self)@.create(bundle@);
                    assert forall|x: int|
                        0 <= x < self@.archetypes.len() implies self@.archetypes[x]
                        =~~= tgt.archetypes[x] by {
                        if x == self@.archetypes.len() - 1 {
                            assert(rowsv.map_values(|r: Row<C>| r@) =~= seq![rowv]);
                            assert(self.archetypes@[x] == Archetype { kinds: ks, rows: rows });
                        } else {
                            assert(self.archetypes@[x] == old(self).archetypes@[x]);
                        }
                    }
                    assert(self@.archetypes =~~= tgt.archetypes);
                    assert(self@ =~~= tgt);
                }
            },
        }
        e
    }
}

/// When the archetypes before `a` miss the kind set and `a` hits it, `a` is
/// the first hit.
proof fn lemma_find_arch_first<C>(archs: Seq<ArchetypeView<C>>, ks: Seq<ComponentId>, a: int)
    requires
        0 <= a < archs.len(),
        same_kind_set(archs[a].kinds, ks),
        forall|m: int| 0 <= m < a ==> !same_kind_set((#[trigger] archs[m]).kinds, ks),
    ensures
        find_arch(archs, ks) == a,
    decreases a,
{
    if a > 0 {
        assert forall|m: int| 0 <= m < a - 1 implies !same_kind_set(
            (#[trigger] archs.drop_first()[m]).kinds,
            ks,
        ) by {
            assert(archs.drop_first()[m] == archs[m + 1]);
        }
        assert(archs.drop_first()[a - 1] == archs[a]);
        lemma_find_arch_first(archs.drop_first(), ks, a - 1);
    }
}

/// Whether an archetype's kind list covers every requested kind.
fn matches_request(kinds: &Vec<ComponentId>, req: &Vec<ComponentId>) -> (r: bool)
    ensures
        r == arch_matches(kinds@, req@),
{
    let n = req.len();
    for i in 0..n
        invariant
            n == req@.len(),
            forall|m: int| 0 <= m < i ==> kinds@.contains(#[trigger] req@[m]),
    {
        if !contains_kind(kinds, req[i]) {
            return false;
        }
    }
    true
}

/// A row's component values at the requested kinds, in request order.
fn project_comps<C: Copy>(kinds: &Vec<ComponentId>, comps: &Vec<C>, req: &Vec<ComponentId>) -> (out:
    Vec<C>)
    requires
        arch_matches(kinds@, req@),
        comps@.len() == kinds@.len(),
    ensures
        out@ == project_row(kinds@, comps@, req@),
{
    let mut out: Vec<C> = Vec::new();
    let n = req.len();
    for i in 0..n
        invariant
            n == req@.len(),
            arch_matches(kinds@, req@),
            comps@.len() == kinds@.len(),
            out@ == project_row(kinds@, comps@, req@).take(i as int),
    {
        let ix = find_kind(kinds, req[i]).unwrap();
        proof {
            lemma_id_index(kinds@, req@[i as int]);
        }
        out.push(comps[ix]);
        proof {
            assert(project_row(kinds@, comps@, req@).take(i as int + 1) =~= project_row(
                kinds@,
                comps@,
                req@,
            ).take(i as int).push(comps@[id_index(kinds@, req@[i as int])]));
        }
    }
    proof {
        assert(project_row(kinds@, comps@, req@).take(n as int) =~= project_row(
            kinds@,
            comps@,
            req@,
        ));
    }
    out
}

impl<C> Storage<C> {
    /// Scans the store for every entity whose archetype covers the requested
    /// kinds; each returned row carries the entity's id and copies of its
    /// values at the requested kinds, in request order.  Archetypes are
    /// visited in discovery order and rows in creation order, so two scans of
    /// one store yield the same sequence.
    pub fn get_entities(&self, req: &Vec<ComponentId>) -> (out: Vec<Row<C>>) where C: Copy
        requires
            self@.wf(),
        ensures
            rows_view(out@) == sv_scan(self@.archetypes, req@),
    {
        let mut out: Vec<Row<C>> = Vec::new();
        let n = self.archetypes.len();
        proof {
            assert(self@.archetypes.subrange(0, n as int) =~= self@.archetypes);
            assert(rows_view(out@) =~= Seq::<RowView<C>>::empty());
            assert(Seq::<RowView<C>>::empty() + sv_scan(self@.archetypes, req@) =~= sv_scan(
                self@.archetypes,
                req@,
            ));
        }
        for a in 0..n
            invariant
                n == self.archetypes@.len(),
                self@.wf(),
                rows_view(out@) + sv_scan(self@.archetypes.subrange(a as int, n as int), req@)
                    == sv_scan(self@.archetypes, req@),
        {
            let ghost tail = self@.archetypes.subrange(a as int, n as int);
            proof {
                assert(tail.drop_first() =~= self@.archetypes.subrange(a as int + 1, n as int));
                assert(tail[0] == self@.archetypes[a as int]);
                assert(self@.archetypes[a as int] == self.archetypes@[a as int]@);
            }
            let arch = &self.archetypes[a];
            proof {
                assert(self@.archetypes[a as int].wf());
            }
            if matches_request(&arch.kinds, req) {
                let ghost av = arch@;
                let ghost out0 = rows_view(out@);
                let m = arch.rows.len();
                for r in 0..m
                    invariant
                        m == arch.rows@.len(),
                        m == av.rows.len(),
                        av == arch@,
                        av.wf(),
                        arch_matches(av.kinds, req@),
                        rows_view(out@) == out0 + scan_arch(av, req@).take(r as int),
                {
                    proof {
                        assert(av.rows[r as int] == arch.rows@[r as int]@);
                        assert(av.rows[r as int].comps.len() == av.kinds.len());
                    }
                    let comps = project_comps(&arch.kinds, &arch.rows[r].comps, req);
                    let row = Row { entity: arch.rows[r].entity, comps };
                    let ghost rowv = row@;
                    let ghost outprev = out@;
                    out.push(row);
                    proof {
                        assert(rows_view(out@) =~= rows_view(outprev).push(rowv));
                        assert(rows_view(outprev).push(rowv) =~= out0 + scan_arch(av, req@).take(
                            r as int,
                        ).push(rowv));
                        assert(scan_arch(av, req@)[r as int] =~~= rowv);
                        assert(scan_arch(av, req@).take(r as int + 1) =~= scan_arch(
                            av,
                            req@,
                        ).take(r as int).push(scan_arch(av, req@)[r as int]));
                    }
                }
                proof {
                    assert(scan_arch(av, req@).take(m as int) =~= scan_arch(av, req@));
                    assert(rows_view(out@) + sv_scan(
                        self@.archetypes.subrange(a as int + 1, n as int),
                        req@,
                    ) =~= sv_scan(self@.archetypes, req@));
                }
            } else {
                proof {
                    assert(Seq::<RowView<C>>::empty() + sv_scan(tail.drop_first(), req@)
                        =~= sv_scan(tail.drop_first(), req@));
                    assert(rows_view(out@) + sv_scan(
                        self@.archetypes.subrange(a as int + 1, n as int),
                        req@,
                    ) =~= sv_scan(self@.archetypes, req@));
                }
            }
        }
        proof {
            assert(self@.archetypes.subrange(n as int, n as int) =~= Seq::<ArchetypeView<C>>::empty());
            assert(rows_view(out@) =~= sv_scan(self@.archetypes, req@));
        }
        out
    }
}

/// The first row holding entity `e`, or -1 when absent.
pub open spec fn row_index<C>(rows: Seq<RowView<C>>, e: EntityId) -> int
    decreases rows.len(),
{
    if rows.len() == 0 {
        -1
    } else if rows[0].entity == e {
        0
    } else {
        let r = row_index(rows.drop_first(), e);
        if r < 0 {
            -1
        } else {
            1 + r
        }
    }
}

/// `row_index` finds exactly the first row with the entity.
pub proof fn lemma_row_index<C>(rows: Seq<RowView<C>>, e: EntityId)
    ensures
        -1 <= row_index(rows, e) < rows.len(),
        row_index(rows, e) >= 0 <==> exists|r: int|
            0 <= r < rows.len() && (#[trigger] rows[r]).entity == e,
        row_index(rows, e) >= 0 ==> rows[row_index(rows, e)].entity == e,
        forall|m: int| 0 <= m < row_index(rows, e) ==> (#[trigger] rows[m]).entity != e,
    decreases rows.len(),
{
    if rows.len() > 0 && rows[0].entity != e {
        lemma_row_index(rows.drop_first(), e);
        assert forall|m: int| 0 <= m < row_index(rows, e) implies (#[trigger] rows[m]).entity
            != e by {
            if m > 0 {
                assert(rows.drop_first()[m - 1] == rows[m]);
            }
        }
        if exists|r: int| 0 <= r < rows.len() && (#[trigger] rows[r]).entity == e {
            let w = choose|w: int| 0 <= w < rows.len() && (#[trigger] rows[w]).entity == e;
            assert(rows.drop_first()[w - 1] == rows[w]);
        }
        if row_index(rows.drop_first(), e) >= 0 {
            assert(rows[row_index(rows, e)] == rows.drop_first()[row_index(rows.drop_first(), e)]);
        }
    }
}

/// The first archetype holding a row with entity `e`, or -1 when absent.
pub open spec fn entity_arch<C>(archs: Seq<ArchetypeView<C>>, e: EntityId) -> int
    decreases archs.len(),
{
    if archs.len() == 0 {
        -1
    } else if row_index(archs[0].rows, e) >= 0 {
        0
    } else {
        let r = entity_arch(archs.drop_first(), e);
        if r < 0 {
            -1
        } else {
            1 + r
        }
    }
}

/// `entity_arch` finds exactly the first archetype holding the entity.
pub proof fn lemma_entity_arch<C>(archs: Seq<ArchetypeView<C>>, e: EntityId)
    ensures
        -1 <= entity_arch(archs, e) < archs.len(),
        entity_arch(archs, e) >= 0 <==> exists|a: int|
            0 <= a < archs.len() && row_index((#[trigger] archs[a]).rows, e) >= 0,
        entity_arch(archs, e) >= 0 ==> row_index(archs[entity_arch(archs, e)].rows, e) >= 0,
        forall|m: int|
            0 <= m < entity_arch(archs, e) ==> row_index((#[trigger] archs[m]).rows, e) < 0,
    decreases archs.len(),
{
    if archs.len() > 0 && row_index(archs[0].rows, e) < 0 {
        lemma_entity_arch(archs.drop_first(), e);
        assert forall|m: int| 0 <= m < entity_arch(archs, e) implies row_index(
            (#[trigger] archs[m]).rows,
            e,
        ) < 0 by {
            if m > 0 {
                assert(archs.drop_first()[m - 1] == archs[m]);
            }
        }
        if exists|a: int| 0 <= a < archs.len() && row_index((#[trigger] archs[a]).rows, e) >= 0 {
            let w = choose|w: int|
                0 <= w < archs.len() && row_index((#[trigger] archs[w]).rows, e) >= 0;
            assert(archs.drop_first()[w - 1] == archs[w]);
        }
        if entity_arch(archs.drop_first(), e) >= 0 {
            assert(archs[entity_arch(archs, e)] == archs.drop_first()[entity_arch(
                archs.drop_first(),
                e,
            )]);
        }
    }
}

impl<C> StorageView<C> {
    /// Whether entity `e` is stored and its archetype carries kind `k`.
    pub open spec fn has_slot(self, e: EntityId, k: ComponentId) -> bool {
        let a = entity_arch(self.archetypes, e);
        a >= 0 && id_index(self.archetypes[a].kinds, k) >= 0
    }

    /// The storage after writing `v` into entity `e`'s component of kind `k`;
    /// the storage is unchanged when the entity is absent or its archetype
    /// does not carry the kind.
    pub open spec fn set(self, e: EntityId, k: ComponentId, v: C) -> StorageView<C> {
        let a = entity_arch(self.archetypes, e);
        if a < 0 {
            self
        } else {
            let arch = self.archetypes[a];
            let r = row_index(arch.rows, e);
            let j = id_index(arch.kinds, k);
            if j < 0 {
                self
            } else {
                let row = arch.rows[r];
                StorageView {
                    archetypes: self.archetypes.update(
                        a,
                        ArchetypeView {
                            kinds: arch.kinds,
                            rows: arch.rows.update(
                                r,
                                RowView { entity: row.entity, comps: row.comps.update(j, v) },
                            ),
                        },
                    ),
                    next_entity: self.next_entity,
                }
            }
        }
    }
}

/// Writing one component value preserves well-formedness: the write changes
/// no kind list, no entity id, and no row length.
pub proof fn lemma_set_wf<C>(s: StorageView<C>, e: EntityId, k: ComponentId, v: C)
    requires
        s.wf(),
    ensures
        s.set(e, k, v).wf(),
{
    let a = entity_arch(s.archetypes, e);
    if a >= 0 {
        lemma_entity_arch(s.archetypes, e);
        let arch = s.archetypes[a];
        let r = row_index(arch.rows, e);
        lemma_row_index(arch.rows, e);
        let j = id_index(arch.kinds, k);
        lemma_id_index(arch.kinds, k);
        if j >= 0 {
            let t = s.set(e, k, v);
            assert(t.archetypes[a].wf());
            assert forall|x: int| 0 <= x < t.archetypes.len() implies (
            #[trigger] t.archetypes[x]).wf() by {
                if x != a {
                    assert(t.archetypes[x] == s.archetypes[x]);
                }
            }
        }
    }
}

impl<C> Storage<C> {
    /// Writes `v` into entity `e`'s component of kind `k` and reports whether
    /// such a slot exists; the store is left unchanged when it does not.
    pub fn set_component(&mut self, e: EntityId, k: ComponentId, v: C) -> (hit: bool)
        requires
            old(self)@.wf(),
        ensures
            final(self)@ == old(self)@.set(e, k, v),
            final(self)@.wf(),
            hit == old(self)@.has_slot(e, k),
    {
        proof {
            lemma_set_wf(old(self)@, e, k, v);
            lemma_entity_arch(old(self)@.archetypes, e);
        }
        let n = self.archetypes.len();
        for a in 0..n
            invariant
                *self == *old(self),
                old(self)@.wf(),
                n == self.archetypes@.len(),
                forall|m: int|
                    0 <= m < a ==> row_index((#[trigger] self@.archetypes[m]).rows, e) < 0,
        {
            proof {
                assert(self@.archetypes[a as int] == self.archetypes@[a as int]@);
            }
            let hit_row = find_row(&self.archetypes[a].rows, e);
            if let Some(r) = hit_row {
                proof {
                    lemma_entity_arch_first(self@.archetypes, e, a as int);
                }
                let found = find_kind(&self.archetypes[a].kinds, k);
                proof {
                    lemma_id_index(self@.archetypes[a as int].kinds, k);
                    lemma_row_index(self@.archetypes[a as int].rows, e);
                }
                match found {
                    Some(j) => {
                        proof {
                            assert(self@.archetypes[a as int].wf());
                            assert(self@.archetypes[a as int].rows[r as int]
                                == self.archetypes@[a as int].rows@[r as int]@);
                            assert(self.archetypes@[a as int].rows@[r as int].comps@.len()
                                == self.archetypes@[a as int].kinds@.len());
                        }
                        self.archetypes[a].rows[r].comps[j] = v;
                        proof {
                            let tgt = old(self)@.set(e, k, v);
                            assert forall|x: int|
                                0 <= x < self@.archetypes.len() implies self@.archetypes[x]
                                =~~= tgt.archetypes[x] by {
                                if x == a as int {
                                    assert forall|y: int|
                                        0 <= y < self@.archetypes[x].rows.len() implies self@.archetypes[x].rows[y]
                                        =~~= tgt.archetypes[x].rows[y] by {
                                        if y != r as int {
                                            assert(self.archetypes@[x].rows@[y] == old(
                                                self,
                                            ).archetypes@[x].rows@[y]);
                                        }
                                    }
                                    assert(self@.archetypes[x].rows =~~= tgt.archetypes[x].rows);
                                } else {
                                    assert(self.archetypes@[x] == old(self).archetypes@[x]);
                                }
                            }
                            assert(self@.archetypes =~~= tgt.archetypes);
                            assert(self@ =~~= tgt);
                        }
                        return true;
                    },
                    None => {
                        proof {
                            assert(old(self)@.set(e, k, v) =~~= old(self)@);
                        }
                        return false;
                    },
                }
            }
            proof {
                lemma_row_index(self@.archetypes[a as int].rows, e);
            }
        }
        proof {
            assert(entity_arch(self@.archetypes, e) < 0);
            assert(old(self)@.set(e, k, v) =~~= old(self)@);
        }
        false
    }
}

/// The first row holding entity `e`, when one exists.
fn find_row<C>(rows: &Vec<Row<C>>, e: EntityId) -> (r: Option<usize>)
    ensures
        r is Some <==> row_index(rows_view(rows@), e) >= 0,
        r matches Some(ix) ==> ix < rows@.len() && ix as int == row_index(rows_view(rows@), e),
{
    proof {
        lemma_row_index(rows_view(rows@), e);
    }
    let n = rows.len();
    for i in 0..n
        invariant
            n == rows@.len(),
            forall|m: int| 0 <= m < i ==> (#[trigger] rows_view(rows@)[m]).entity != e,
    {
        if rows[i].entity == e {
            proof {
                assert(rows_view(rows@)[i as int] == rows@[i as int]@);
                lemma_row_index_first(rows_view(rows@), e, i as int);
            }
            return Some(i);
        }
        proof {
            assert(rows_view(rows@)[i as int] == rows@[i as int]@);
        }
    }
    None
}

/// When the rows before `r` miss the entity and `r` hits it, `r` is the
/// first hit.
proof fn lemma_row_index_first<C>(rows: Seq<RowView<C>>, e: EntityId, r: int)
    requires
        0 <= r < rows.len(),
        rows[r].entity == e,
        forall|m: int| 0 <= m < r ==> (#[trigger] rows[m]).entity != e,
    ensures
        row_index(rows, e) == r,
    decreases r,
{
    if r > 0 {
        assert forall|m: int| 0 <= m < r - 1 implies (#[trigger] rows.drop_first()[m]).entity
            != e by {
            assert(rows.drop_first()[m] == rows[m + 1]);
        }
        assert(rows.drop_first()[r - 1] == rows[r]);
        lemma_row_index_first(rows.drop_first(), e, r - 1);
    }
}

/// When the archetypes before `a` miss the entity and `a` holds it, `a` is
/// the first hit.
proof fn lemma_entity_arch_first<C>(archs: Seq<ArchetypeView<C>>, e: EntityId, a: int)
    requires
        0 <= a < archs.len(),
        row_index(archs[a].rows, e) >= 0,
        forall|m: int| 0 <= m < a ==> row_index((#[trigger] archs[m]).rows, e) < 0,
    ensures
        entity_arch(archs, e) == a,
    decreases a,
{
    if a > 0 {
        assert forall|m: int| 0 <= m < a - 1 implies row_index(
            (#[trigger] archs.drop_first()[m]).rows,
            e,
        ) < 0 by {
            assert(archs.drop_first()[m] == archs[m + 1]);
        }
        assert(archs.drop_first()[a - 1] == archs[a]);
        lemma_entity_arch_first(archs.drop_first(), e, a - 1);
    }
}

/// Two storages with identical structure: the same archetypes, kind lists,
/// entities, and row lengths; only component values may differ.
pub open spec fn same_shape<C>(o: StorageView<C>, n: StorageView<C>) -> bool {
    &&& n.next_entity == o.next_entity
    &&& n.archetypes.len() == o.archetypes.len()
    &&& forall|a: int|
        0 <= a < o.archetypes.len() ==> (#[trigger] n.archetypes[a]).kinds == o.archetypes[a].kinds
            && n.archetypes[a].rows.len() == o.archetypes[a].rows.len()
    &&& forall|a: int, r: int|
        0 <= a < o.archetypes.len() && 0 <= r < o.archetypes[a].rows.len() ==> (
        #[trigger] n.archetypes[a].rows[r]).entity == o.archetypes[a].rows[r].entity
            && n.archetypes[a].rows[r].comps.len() == o.archetypes[a].rows[r].comps.len()
}

/// Structural identity is transitive.
pub proof fn lemma_same_shape_trans<C>(o: StorageView<C>, m: StorageView<C>, n: StorageView<C>)
    requires
        same_shape(o, m),
        same_shape(m, n),
    ensures
        same_shape(o, n),
{
}

/// Writing one component value keeps the structure and touches no position
/// whose kind differs from the written kind.
pub proof fn lemma_set_frame<C>(s: StorageView<C>, e: EntityId, k: ComponentId, v: C)
    requires
        s.wf(),
    ensures
        same_shape(s, s.set(e, k, v)),
        forall|a: int, r: int, j: int|
            0 <= a < s.archetypes.len() && 0 <= r < s.archetypes[a].rows.len() && 0 <= j
                < s.archetypes[a].rows[r].comps.len() && s.archetypes[a].kinds[j] != k ==> (
            #[trigger] s.set(e, k, v).archetypes[a].rows[r].comps[j])
                == s.archetypes[a].rows[r].comps[j],
{
    let t = s.set(e, k, v);
    let a0 = entity_arch(s.archetypes, e);
    if a0 >= 0 {
        lemma_entity_arch(s.archetypes, e);
        let arch = s.archetypes[a0];
        let r0 = row_index(arch.rows, e);
        lemma_row_index(arch.rows, e);
        let j0 = id_index(arch.kinds, k);
        lemma_id_index(arch.kinds, k);
        if j0 >= 0 {
            assert forall|a: int, r: int, j: int|
                0 <= a < s.archetypes.len() && 0 <= r < s.archetypes[a].rows.len() && 0 <= j
                    < s.archetypes[a].rows[r].comps.len() && s.archetypes[a].kinds[j]
                    != k implies (#[trigger] t.archetypes[a].rows[r].comps[j])
                == s.archetypes[a].rows[r].comps[j] by {
                if a == a0 && r == r0 && j == j0 {
                    assert(s.archetypes[a].kinds[j] == k);
                }
            }
        }
    }
}

/// The new storage holds everything the old one held, unchanged: old
/// archetypes keep their kind lists and their rows, and only new rows or new
/// archetypes are appended.
pub open spec fn extends_rows<C>(o: StorageView<C>, n: StorageView<C>) -> bool {
    &&& o.next_entity <= n.next_entity
    &&& o.archetypes.len() <= n.archetypes.len()
    &&& forall|a: int|
        0 <= a < o.archetypes.len() ==> (#[trigger] n.archetypes[a]).kinds == o.archetypes[a].kinds
            && o.archetypes[a].rows.len() <= n.archetypes[a].rows.len()
    &&& forall|a: int, r: int|
        0 <= a < o.archetypes.len() && 0 <= r < o.archetypes[a].rows.len() ==> (
        #[trigger] n.archetypes[a].rows[r]) == o.archetypes[a].rows[r]
}

/// Extension is transitive.
pub proof fn lemma_extends_rows_trans<C>(o: StorageView<C>, m: StorageView<C>, n: StorageView<C>)
    requires
        extends_rows(o, m),
        extends_rows(m, n),
    ensures
        extends_rows(o, n),
{
}

/// Creating an entity only appends: every old row is kept unchanged.
pub proof fn lemma_create_extends<C>(s: StorageView<C>, b: Seq<(ComponentId, C)>)
    requires
        s.next_entity < u64::MAX,
    ensures
        extends_rows(s, s.create(b)),
{
    lemma_find_arch(s.archetypes, bundle_kinds(b));
}

/// Entity `e` is stored in some archetype whose kind list covers `req`.
pub open spec fn stored_matching<C>(
    archs: Seq<ArchetypeView<C>>,
    e: EntityId,
    req: Seq<ComponentId>,
) -> bool {
    exists|a: int, r: int|
        #![trigger archs[a].rows[r]]
        0 <= a < archs.len() && 0 <= r < archs[a].rows.len() && archs[a].rows[r].entity == e
            && arch_matches(archs[a].kinds, req)
}

/// Every entity id a scan yields stays below the given bound when every
/// stored id does.
pub proof fn lemma_scan_entities_bounded<C>(
    archs: Seq<ArchetypeView<C>>,
    req: Seq<ComponentId>,
    bound: EntityId,
)
    requires
        forall|a: int, r: int|
            0 <= a < archs.len() && 0 <= r < archs[a].rows.len() ==> (
            #[trigger] archs[a].rows[r]).entity < bound,
    ensures
        forall|i: int|
            0 <= i < sv_scan(archs, req).len() ==> (#[trigger] sv_scan(archs, req)[i]).entity
                < bound,
    decreases archs.len(),
{
    if archs.len() > 0 {
        assert forall|a: int, r: int|
            0 <= a < archs.drop_first().len() && 0 <= r
                < archs.drop_first()[a].rows.len() implies (
        #[trigger] archs.drop_first()[a].rows[r]).entity < bound by {
            assert(archs.drop_first()[a] == archs[a + 1]);
            assert(archs[a + 1].rows[r].entity < bound);
        }
        lemma_scan_entities_bounded(archs.drop_first(), req, bound);
        let head = if arch_matches(archs[0].kinds, req) {
            scan_arch(archs[0], req)
        } else {
            Seq::<RowView<C>>::empty()
        };
        assert forall|i: int| 0 <= i < sv_scan(archs, req).len() implies (#[trigger] sv_scan(
            archs,
            req,
        )[i]).entity < bound by {
            if i < head.len() {
                assert(head[i].entity == archs[0].rows[i].entity);
            } else {
                assert(sv_scan(archs, req)[i] == sv_scan(archs.drop_first(), req)[i - head.len()]);
            }
        }
    }
}

/// A stored entity whose archetype covers the request appears in the scan.
pub proof fn lemma_stored_matching_scan<C>(
    archs: Seq<ArchetypeView<C>>,
    e: EntityId,
    req: Seq<ComponentId>,
)
    requires
        stored_matching(archs, e, req),
    ensures
        exists|i: int|
            0 <= i < sv_scan(archs, req).len() && (#[trigger] sv_scan(archs, req)[i]).entity == e,
    decreases archs.len(),
{
    let (a, r) = choose|a: int, r: int|
        #![trigger archs[a].rows[r]]
        0 <= a < archs.len() && 0 <= r < archs[a].rows.len() && archs[a].rows[r].entity == e
            && arch_matches(archs[a].kinds, req);
    let head = if arch_matches(archs[0].kinds, req) {
        scan_arch(archs[0], req)
    } else {
        Seq::<RowView<C>>::empty()
    };
    if a == 0 {
        assert(sv_scan(archs, req)[r] == head[r]);
        assert(head[r].entity == e);
    } else {
        assert(archs.drop_first()[a - 1] == archs[a]);
        assert(stored_matching(archs.drop_first(), e, req));
        lemma_stored_matching_scan(archs.drop_first(), e, req);
        let i = choose|i: int|
            0 <= i < sv_scan(archs.drop_first(), req).len() && (#[trigger] sv_scan(
                archs.drop_first(),
                req,
            )[i]).entity == e;
        assert(sv_scan(archs, req)[head.len() + i] == sv_scan(archs.drop_first(), req)[i]);
    }
}

/// Extension keeps every stored matching entity stored and matching.
pub proof fn lemma_stored_matching_extends<C>(
    o: StorageView<C>,
    n: StorageView<C>,
    e: EntityId,
    req: Seq<ComponentId>,
)
    requires
        extends_rows(o, n),
        stored_matching(o.archetypes, e, req),
    ensures
        stored_matching(n.archetypes, e, req),
{
    let (a, r) = choose|a: int, r: int|
        #![trigger o.archetypes[a].rows[r]]
        0 <= a < o.archetypes.len() && 0 <= r < o.archetypes[a].rows.len()
            && o.archetypes[a].rows[r].entity == e && arch_matches(o.archetypes[a].kinds, req);
    assert(n.archetypes[a].rows[r] == o.archetypes[a].rows[r]);
    assert(n.archetypes[a].kinds == o.archetypes[a].kinds);
}

/// The entity created from a bundle is stored, in an archetype covering every
/// request the bundle's kinds cover.
pub proof fn lemma_create_visible<C>(s: StorageView<C>, b: Seq<(ComponentId, C)>, req: Seq<
    ComponentId,
>)
    requires
        kinds_distinct(bundle_kinds(b)),
        s.next_entity < u64::MAX,
        arch_matches(bundle_kinds(b), req),
    ensures
        stored_matching(s.create(b).archetypes, s.next_entity, req),
{
    let ks = bundle_kinds(b);
    let a = find_arch(s.archetypes, ks);
    lemma_find_arch(s.archetypes, ks);
    let t = s.create(b);
    if a >= 0 {
        let arch = s.archetypes[a];
        assert(same_kind_set(arch.kinds, ks));
        assert forall|i: int| 0 <= i < req.len() implies arch.kinds.contains(
            #[trigger] req[i],
        ) by {
            assert(ks.contains(req[i]));
            let w = choose|w: int| 0 <= w < ks.len() && ks[w] == req[i];
            assert(arch.kinds.contains(ks[w]));
        }
        let r = arch.rows.len() as int;
        assert(t.archetypes[a].rows[r].entity == s.next_entity);
        assert(arch_matches(t.archetypes[a].kinds, req));
        assert(stored_matching(t.archetypes, s.next_entity, req));
    } else {
        let na = t.archetypes.len() - 1;
        assert(t.archetypes[na].rows[0].entity == s.next_entity);
        assert(t.archetypes[na].kinds == ks);
        assert(stored_matching(t.archetypes, s.next_entity, req));
    }
}

/// Law (deterministic query ordering): a scan is a function of the store and
/// the request alone, and scanning borrows the store immutably, so two
/// successive full scans with one query shape yield the same rows — and in
/// particular the same entities in the same relative order.
pub proof fn lemma_scan_deterministic<C>(
    s1: StorageView<C>,
    s2: StorageView<C>,
    req: Seq<ComponentId>,
    out1: Seq<RowView<C>>,
    out2: Seq<RowView<C>>,
)
    requires
        s1 == s2,
        out1 == sv_scan(s1.archetypes, req),
        out2 == sv_scan(s2.archetypes, req),
    ensures
        out1 == out2,
        out1.map_values(|r: RowView<C>| r.entity) == out2.map_values(|r: RowView<C>| r.entity),
{
}

} // verus!
