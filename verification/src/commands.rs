//! Deferred structural commands.
//!
//! A system must not mutate the archetype storage while queries over that
//! storage may still be running this tick, so structural changes are recorded
//! in a per-system queue and applied only in the tick's commit phase.

use vstd::prelude::*;

use crate::ComponentId;
use crate::storage::{bundle_kinds, kinds_distinct, Bundle};

verus! {

/// One recorded deferred mutation: creating an entity from a bundle.
pub enum Command<C> {
    CreateEntity(Bundle<C>),
}

impl<C> Command<C> {
    /// The bundle this command will create an entity from.
    pub open spec fn bundle(self) -> Seq<(ComponentId, C)> {
        match self {
            Command::CreateEntity(b) => b@,
        }
    }
}

/// One system's queue of deferred commands, in the order they were issued.
pub struct Commands<C> {
    pub pending: Vec<Command<C>>,
}

/// The bundles a queue will create entities from, in issue order.
pub open spec fn pending_bundles<C>(pending: Seq<Command<C>>) -> Seq<Seq<(ComponentId, C)>> {
    pending.map_values(|c: Command<C>| c.bundle())
}

impl<C> Commands<C> {
    /// An empty queue.
    pub fn new() -> (c: Commands<C>)
        ensures
            c.pending@.len() == 0,
    {
        Commands { pending: Vec::new() }
    }

    /// Records a pending entity creation; nothing is applied before the
    /// tick's commit phase.
    pub fn create_entity(&mut self, bundle: Bundle<C>)
        ensures
            final(self).pending@ == old(self).pending@.push(Command::CreateEntity(bundle)),
    {
        self.pending.push(Command::CreateEntity(bundle));
    }
}

/// A bundle reduced to its first value for each kind: the applied form of a
/// recorded bundle, under which every kind occurs once.
pub open spec fn dedup_bundle<C>(b: Seq<(ComponentId, C)>) -> Seq<(ComponentId, C)>
    decreases b.len(),
{
    if b.len() == 0 {
        b
    } else {
        let front = dedup_bundle(b.drop_last());
        if bundle_kinds(front).contains(b.last().0) {
            front
        } else {
            front.push(b.last())
        }
    }
}

/// Deduplication keeps every kind of the bundle, each exactly once.
pub proof fn lemma_dedup_bundle<C>(b: Seq<(ComponentId, C)>)
    ensures
        kinds_distinct(bundle_kinds(dedup_bundle(b))),
        forall|k: ComponentId| #[trigger]
            bundle_kinds(dedup_bundle(b)).contains(k) <==> bundle_kinds(b).contains(k),
    decreases b.len(),
{
    if b.len() > 0 {
        lemma_dedup_bundle(b.drop_last());
        let front = dedup_bundle(b.drop_last());
        let last = b.last();
        assert forall|k: ComponentId| #[trigger]
            bundle_kinds(b).contains(k) implies bundle_kinds(dedup_bundle(b)).contains(k) by {
            let w = choose|w: int| 0 <= w < b.len() && bundle_kinds(b)[w] == k;
            if w < b.len() - 1 {
                assert(bundle_kinds(b.drop_last())[w] == k);
                assert(bundle_kinds(b.drop_last()).contains(k));
                assert(bundle_kinds(front).contains(k));
                if !bundle_kinds(front).contains(last.0) {
                    let v = choose|v: int| 0 <= v < front.len() && bundle_kinds(front)[v] == k;
                    assert(bundle_kinds(front.push(last))[v] == k);
                }
            } else {
                if bundle_kinds(front).contains(last.0) {
                    assert(bundle_kinds(dedup_bundle(b)).contains(k));
                } else {
                    assert(bundle_kinds(front.push(last))[front.len() as int] == k);
                }
            }
        }
        assert forall|k: ComponentId| #[trigger]
            bundle_kinds(dedup_bundle(b)).contains(k) implies bundle_kinds(b).contains(k) by {
            let d = dedup_bundle(b);
            let w = choose|w: int| 0 <= w < d.len() && bundle_kinds(d)[w] == k;
            if bundle_kinds(front).contains(last.0) {
                assert(bundle_kinds(front).contains(k));
                assert(bundle_kinds(b.drop_last()).contains(k));
                let v = choose|v: int|
                    0 <= v < b.len() - 1 && bundle_kinds(b.drop_last())[v] == k;
                assert(bundle_kinds(b)[v] == k);
            } else {
                if w < front.len() {
                    assert(bundle_kinds(front)[w] == k);
                    assert(bundle_kinds(front).contains(k));
                    assert(bundle_kinds(b.drop_last()).contains(k));
                    let v = choose|v: int|
                        0 <= v < b.len() - 1 && bundle_kinds(b.drop_last())[v] == k;
                    assert(bundle_kinds(b)[v] == k);
                } else {
                    assert(d[w] == last);
                    assert(bundle_kinds(b)[b.len() - 1] == k);
                }
            }
        }
        if bundle_kinds(front).contains(last.0) {
        } else {
            let d = dedup_bundle(b);
            assert forall|i: int, j: int|
                0 <= i < j < bundle_kinds(d).len() implies (#[trigger] bundle_kinds(d)[i]) != (
            #[trigger] bundle_kinds(d)[j]) by {
                if j == d.len() - 1 {
                    assert(bundle_kinds(d)[i] == bundle_kinds(front)[i]);
                    assert(bundle_kinds(front).contains(bundle_kinds(front)[i]));
                } else {
                    assert(bundle_kinds(d)[i] == bundle_kinds(front)[i]);
                    assert(bundle_kinds(d)[j] == bundle_kinds(front)[j]);
                }
            }
        }
    }
}

/// Reduces a bundle to its first value for each kind.
pub fn dedup<C: Copy>(b: &Bundle<C>) -> (out: Bundle<C>)
    ensures
        out@ == dedup_bundle(b@),
{
    let mut out: Bundle<C> = Vec::new();
    let n = b.len();
    proof {
        assert(b@.take(0) =~= Seq::<(ComponentId, C)>::empty());
    }
    for i in 0..n
        invariant
            n == b@.len(),
            out@ == dedup_bundle(b@.take(i as int)),
    {
        let (k, v) = b[i];
        let dup = has_kind(&out, k);
        if !dup {
            out.push((k, v));
        }
        proof {
            assert(b@.take(i as int + 1).drop_last() =~= b@.take(i as int));
            assert(b@.take(i as int + 1).last() == b@[i as int]);
        }
    }
    proof {
        assert(b@.take(n as int) =~= b@);
    }
    out
}

/// Whether a bundle already carries a value for kind `k`.
fn has_kind<C>(b: &Bundle<C>, k: ComponentId) -> (r: bool)
    ensures
        r == bundle_kinds(b@).contains(k),
{
    let n = b.len();
    for i in 0..n
        invariant
            n == b@.len(),
            forall|m: int| 0 <= m < i ==> (#[trigger] b@[m]).0 != k,
    {
        if b[i].0 == k {
            proof {
                assert(bundle_kinds(b@)[i as int] == k);
            }
            return true;
        }
    }
    proof {
        if bundle_kinds(b@).contains(k) {
            let w = choose|w: int| 0 <= w < b@.len() && bundle_kinds(b@)[w] == k;
            assert(b@[w].0 == k);
        }
    }
    false
}

} // verus!
