//! Epoch-change tracking across forks.
//!
//! A [`ForkTree`] of [`Epoch`] payloads records at which blocks new epochs
//! were signalled.  [`EpochChanges`] answers the central query: which epoch
//! governs a child of a given block at a given slot.  Because the tree's
//! ancestor search is strict, the query is made through a synthetic head that
//! descends from the queried parent, so that the parent itself is an eligible
//! ancestor.  [`SharedEpochChanges`] serializes access to one instance.

use crate::fork_tree::{
    ancestry_consistent, rel, oracle_total, AncestryOracle, Error, ForkTree, Node, OracleError,
    PayloadPredicate,
};
use std::sync::Arc;
use vstd::prelude::*;
use vstd::rwlock::{RwLock, WriteHandle};

verus! {

/// The consensus parameters that take effect from a starting slot onward.
/// Only `start_slot` is inspected here; the rest is opaque payload.
#[derive(Clone, Copy, PartialEq, Eq, Structural, Debug)]
pub struct Epoch {
    /// Position of the epoch in the epoch sequence.
    pub epoch_index: u64,
    /// First slot at which this epoch's rules apply.
    pub start_slot: u64,
    /// Number of slots the epoch lasts.
    pub duration: u64,
}

/// The search predicate: an epoch already in effect at the queried slot.
pub struct StartSlotAtMost {
    /// The queried slot.
    pub slot: u64,
}

impl PayloadPredicate<Epoch> for StartSlotAtMost {
    open spec fn holds(&self, v: Epoch) -> bool {
        v.start_slot <= self.slot
    }

    fn check(&self, v: &Epoch) -> (r: bool) {
        v.start_slot <= self.slot
    }
}

/// A fake ancestry oracle backed by an explicit list of descent pairs, for
/// testing and offline use: `descents` holds every (ancestor, descendant)
/// hash pair, and `failures` the pairs on which the oracle errs.
pub struct MapOracle {
    /// All (ancestor hash, descendant hash) pairs that hold.
    pub descents: Vec<(u64, u64)>,
    /// Pairs on which the oracle fails to answer.
    pub failures: Vec<(u64, u64)>,
}

impl AncestryOracle for MapOracle {
    open spec fn dsc(&self, base: u64, head: u64) -> bool {
        self.descents@.contains((base, head))
    }

    open spec fn answers(&self, base: u64, head: u64) -> bool {
        !self.failures@.contains((base, head))
    }

    fn is_descendant_of(&self, base: u64, head: u64) -> (r: Result<bool, OracleError>) {
        let mut i: usize = 0;
        while i < self.failures.len()
            invariant
                i <= self.failures@.len(),
                forall|m: int| 0 <= m < i ==> #[trigger] self.failures@[m] != (base, head),
            decreases self.failures@.len() - i,
        {
            let p = self.failures[i];
            if p.0 == base && p.1 == head {
                return Err(OracleError { code: 0 });
            }
            i = i + 1;
        }
        proof {
            assert(!self.failures@.contains((base, head)));
        }
        let mut j: usize = 0;
        while j < self.descents.len()
            invariant
                !self.failures@.contains((base, head)),
                j <= self.descents@.len(),
                forall|m: int| 0 <= m < j ==> #[trigger] self.descents@[m] != (base, head),
            decreases self.descents@.len() - j,
        {
            let p = self.descents[j];
            if p.0 == base && p.1 == head {
                return Ok(true);
            }
            j = j + 1;
        }
        proof {
            assert(!self.descents@.contains((base, head)));
        }
        Ok(false)
    }
}

/// The hash of the synthetic query head for a parent: the parent's hash with
/// its top bit flipped, so that it differs from the parent's own hash.
pub open spec fn spec_synthetic_head_hash(parent_hash: u64) -> u64 {
    parent_hash ^ 0x8000_0000_0000_0000u64
}

/// Construct the synthetic head hash for a parent.  The caller must treat a
/// collision of this value with a real block hash as impossible, which is
/// sound exactly when block hashes come from a strong hash function.
#[verifier::when_used_as_spec(spec_synthetic_head_hash)]
pub fn synthetic_head_hash(parent_hash: u64) -> (r: u64)
    ensures
        r == spec_synthetic_head_hash(parent_hash),
        r != parent_hash,
{
    proof {
        assert(parent_hash ^ 0x8000_0000_0000_0000u64 != parent_hash) by (bit_vector);
    }
    parent_hash ^ 0x8000_0000_0000_0000
}

/// An oracle over the synthetic head of one parent: the synthetic head
/// descends from the parent and from everything the parent descends from;
/// all other queries go to the inner oracle.
pub struct InclusiveOracle<'a, O: AncestryOracle> {
    /// The caller's oracle.
    pub inner: &'a O,
    /// The parent block that the synthetic head descends from.
    pub parent_hash: u64,
    /// The synthetic head's hash.
    pub head_hash: u64,
}

impl<'a, O: AncestryOracle> AncestryOracle for InclusiveOracle<'a, O> {
    open spec fn dsc(&self, base: u64, head: u64) -> bool {
        if head == self.head_hash {
            base == self.parent_hash || self.inner.dsc(base, self.parent_hash)
        } else {
            self.inner.dsc(base, head)
        }
    }

    open spec fn answers(&self, base: u64, head: u64) -> bool {
        if head == self.head_hash {
            base == self.parent_hash || self.inner.answers(base, self.parent_hash)
        } else {
            self.inner.answers(base, head)
        }
    }

    fn is_descendant_of(&self, base: u64, head: u64) -> (r: Result<bool, OracleError>) {
        if head == self.head_hash {
            if base == self.parent_hash {
                Ok(true)
            } else {
                self.inner.is_descendant_of(base, self.parent_hash)
            }
        } else {
            self.inner.is_descendant_of(base, head)
        }
    }
}

/// `a` is the block `p` itself or a strict ancestor of it.
pub open spec fn governs(d: spec_fn(u64, u64) -> bool, a: u64, p: u64) -> bool {
    a == p || d(a, p)
}

/// The key `k` resolves the epoch for a child of `parent` at `slot`: its
/// epoch was signalled at `parent` or an ancestor of it, is in effect at
/// `slot`, and is the most recent such signal.
pub open spec fn is_epoch_for(
    m: Map<(u64, u64), Epoch>,
    d: spec_fn(u64, u64) -> bool,
    parent: u64,
    slot: u64,
    k: (u64, u64),
) -> bool {
    &&& m.contains_key(k)
    &&& governs(d, k.0, parent)
    &&& m[k].start_slot <= slot
    &&& forall|k2: (u64, u64)| #[trigger]
        m.contains_key(k2) && governs(d, k2.0, parent) && m[k2].start_slot <= slot ==> k2.1 <= k.1
            && (k2.1 == k.1 ==> k2 == k)
}

/// At most one key resolves the epoch for a given parent and slot.
pub proof fn lemma_epoch_for_unique(
    m: Map<(u64, u64), Epoch>,
    d: spec_fn(u64, u64) -> bool,
    parent: u64,
    slot: u64,
    k1: (u64, u64),
    k2: (u64, u64),
)
    requires
        is_epoch_for(m, d, parent, slot, k1),
        is_epoch_for(m, d, parent, slot, k2),
    ensures
        k1 == k2,
{
    assert(k1.1 <= k2.1 && k2.1 <= k1.1);
}

/// Along one fork, raising the queried slot never resolves to an epoch with
/// an earlier start: when recorded start slots grow strictly along descent,
/// the epoch resolved at the later slot starts no earlier, and strictly
/// later whenever it is a different epoch.
pub proof fn lemma_epoch_monotonic_in_slot(
    m: Map<(u64, u64), Epoch>,
    d: spec_fn(u64, u64) -> bool,
    parent: u64,
    s1: u64,
    s2: u64,
    k1: (u64, u64),
    k2: (u64, u64),
)
    requires
        ancestry_consistent(d),
        s1 <= s2,
        is_epoch_for(m, d, parent, s1, k1),
        is_epoch_for(m, d, parent, s2, k2),
        forall|a: (u64, u64), b: (u64, u64)|
            #[trigger] m.contains_key(a) && #[trigger] m.contains_key(b) && d(a.0, b.0) ==> a.1
                < b.1 && m[a].start_slot < m[b].start_slot,
        forall|a: (u64, u64), b: (u64, u64)|
            #[trigger] m.contains_key(a) && #[trigger] m.contains_key(b) && a.0 == b.0 ==> a == b,
    ensures
        m[k1].start_slot <= m[k2].start_slot,
        k1 != k2 ==> m[k1].start_slot < m[k2].start_slot,
{
    assert(m[k1].start_slot <= s2);
    assert(k1.1 <= k2.1 && (k1.1 == k2.1 ==> k1 == k2));
    if k1 != k2 {
        assert(k1.0 != k2.0);
        // both keys govern the parent, so their blocks are related; the
        // number order rules out the later one being the ancestor
        if k1.0 == parent && k2.0 == parent {
            assert(false);
        } else if k1.0 == parent {
            assert(d(k2.0, parent));
            assert(d(k2.0, k1.0));
            assert(false);
        } else if k2.0 == parent {
            assert(d(k1.0, parent));
            assert(d(k1.0, k2.0));
        } else {
            assert(d(k1.0, parent) && d(k2.0, parent));
            if d(k2.0, k1.0) {
                assert(false);
            }
            assert(d(k1.0, k2.0));
        }
    }
}

/// Pruning for a finalized block changes no resolution made at or below a
/// still-reachable descendant of it, provided the retained ancestor's epoch
/// has started by the queried slot: whatever key resolved a query before
/// pruning still resolves it afterwards.
pub proof fn lemma_prune_preserves_resolution(
    m: Map<(u64, u64), Epoch>,
    m2: Map<(u64, u64), Epoch>,
    d: spec_fn(u64, u64) -> bool,
    h: u64,
    n: u64,
    p: u64,
    s: u64,
    k: (u64, u64),
)
    requires
        ancestry_consistent(d),
        forall|x: (u64, u64)| #[trigger] m2.contains_key(x) ==> m.contains_key(x) && m2[x] == m[x],
        forall|x: (u64, u64)| #[trigger]
            m.contains_key(x) && (x == (h, n) || d(h, x.0)) ==> m2.contains_key(x),
        forall|x: (u64, u64), y: (u64, u64)|
            #[trigger] m2.contains_key(x) && d(x.0, h) && #[trigger] m.contains_key(y) && d(y.0, h)
                ==> y == x || d(y.0, x.0),
        (exists|x: (u64, u64)| #[trigger] m.contains_key(x) && d(x.0, h)) ==> exists|x: (u64, u64)|
            #[trigger] m2.contains_key(x) && d(x.0, h),
        governs(d, h, p),
        forall|x: (u64, u64), y: (u64, u64)|
            #[trigger] m.contains_key(x) && #[trigger] m.contains_key(y) && x.0 == y.0 ==> x == y,
        forall|x: (u64, u64), y: (u64, u64)|
            #[trigger] m.contains_key(x) && #[trigger] m.contains_key(y) && d(x.0, y.0) ==> x.1
                < y.1,
        forall|x: (u64, u64)| #[trigger] m.contains_key(x) ==> (x.0 == h ==> x == (h, n)),
        is_epoch_for(m, d, p, s, k),
        forall|x: (u64, u64)| #[trigger]
            m2.contains_key(x) && d(x.0, h) ==> m2[x].start_slot <= s,
    ensures
        is_epoch_for(m2, d, p, s, k),
{
    // the resolving key survives pruning
    assert(m2.contains_key(k)) by {
        if k.0 == h {
            assert(k == (h, n));
        } else if d(h, k.0) {
        } else {
            // k is a strict ancestor of h, hence the retained one
            assert(d(k.0, h)) by {
                if k.0 == p {
                    assert(governs(d, h, p));
                    if h == p {
                        assert(false);
                    } else {
                        assert(d(h, p));
                        // k.0 == p and d(h, p): p descends from h, but then
                        // k would descend from h, handled above
                        assert(false);
                    }
                } else {
                    assert(d(k.0, p));
                    if h == p {
                        assert(d(k.0, h));
                    } else {
                        assert(d(h, p));
                        // k.0 and h are both ancestors of p
                        assert(k.0 == h || d(k.0, h) || d(h, k.0));
                    }
                }
            }
            let a = choose|x: (u64, u64)| #[trigger] m2.contains_key(x) && d(x.0, h);
            if k != a {
                assert(d(k.0, a.0));
                // the retained ancestor also governs p and its epoch has
                // started, so it is a candidate that the resolution must
                // dominate, contradicting that it lies strictly deeper
                assert(governs(d, a.0, p)) by {
                    if h == p {
                        assert(d(a.0, p));
                    } else {
                        assert(d(h, p));
                        assert(d(a.0, p));
                    }
                }
                assert(m.contains_key(a) && m[a].start_slot <= s);
                assert(a.1 <= k.1);
                assert(k.1 < a.1);
            }
        }
    }
    // candidates after pruning are candidates before, so maximality holds
    assert forall|k2: (u64, u64)| #[trigger]
        m2.contains_key(k2) && governs(d, k2.0, p) && m2[k2].start_slot <= s implies k2.1 <= k.1
        && (k2.1 == k.1 ==> k2 == k) by {
        assert(m.contains_key(k2) && m[k2].start_slot <= s);
    }
}

/// Extending a consistent relation with a fresh synthetic head that descends
/// from one parent keeps it consistent, as long as the synthetic hash plays
/// no role in the base relation.
pub proof fn lemma_inclusive_consistent<O: AncestryOracle>(w: InclusiveOracle<'_, O>)
    requires
        ancestry_consistent(rel(w.inner)),
        w.head_hash != w.parent_hash,
        forall|x: u64| !(#[trigger] w.inner.dsc(w.head_hash, x)) && !w.inner.dsc(x, w.head_hash),
    ensures
        ancestry_consistent(rel(&w)),
{
    let d = rel(w.inner);
    let dw = rel(&w);
    let hh = w.head_hash;
    let ph = w.parent_hash;
    assert forall|a: u64, b: u64, c: u64| #[trigger] dw(a, b) && #[trigger] dw(b, c) implies dw(
        a,
        c,
    ) by {
        if c == hh {
            if b == hh {
                assert(!d(hh, ph));
            } else {
                if b == ph {
                    assert(dw(a, b) == d(a, ph));
                } else {
                    assert(d(a, b) && d(b, ph));
                    assert(d(a, ph));
                }
            }
        } else {
            if b == hh {
                assert(!d(hh, c));
            } else {
                if a == hh {
                    assert(!d(hh, b));
                } else {
                    assert(d(a, b) && d(b, c));
                    assert(d(a, c));
                }
            }
        }
    }
    assert forall|a: u64, b: u64| #[trigger] dw(a, b) implies !dw(b, a) by {
        if b == hh {
            if a != hh {
                assert(!d(hh, a));
                assert(!dw(b, a));
            } else {
                assert(!d(hh, ph));
            }
        } else {
            if a == hh {
                assert(!d(hh, b));
            } else {
                assert(d(a, b));
                assert(!d(b, a));
            }
        }
    }
    assert forall|a: u64, b: u64, c: u64| #[trigger] dw(a, c) && #[trigger] dw(b, c) implies a == b
        || dw(a, b) || dw(b, a) by {
        if c == hh {
            if a == hh {
                assert(!d(hh, ph));
            } else if b == hh {
                assert(!d(hh, ph));
            } else {
                if a == ph && b == ph {
                } else if a == ph {
                    assert(d(b, ph));
                    assert(dw(b, a));
                } else if b == ph {
                    assert(d(a, ph));
                    assert(dw(a, b));
                } else {
                    assert(d(a, ph) && d(b, ph));
                }
            }
        } else {
            if a == hh {
                assert(!d(hh, c));
            } else if b == hh {
                assert(!d(hh, c));
            } else {
                assert(d(a, c) && d(b, c));
            }
        }
    }
}

/// The recorded epoch transitions across all seen forks: the block at which
/// each epoch was signalled, and the epoch signalled there.
pub struct EpochChanges {
    /// The underlying fork-aware forest.
    pub inner: ForkTree<Epoch>,
}

impl EpochChanges {
    /// The recorded transitions, keyed by signalling block.
    pub open spec fn entries(self) -> Map<(u64, u64), Epoch> {
        self.inner.entries()
    }

    /// The structure's invariant with respect to a descends-from relation.
    pub open spec fn wf(self, d: spec_fn(u64, u64) -> bool) -> bool {
        self.inner.wf(d)
    }

    /// An empty epoch-change tracker.
    pub fn new() -> (t: Self)
        ensures
            t.entries() == Map::<(u64, u64), Epoch>::empty(),
            forall|d: spec_fn(u64, u64) -> bool| t.wf(d),
    {
        EpochChanges { inner: ForkTree::new() }
    }

    /// Record that `epoch` was signalled at the block (`hash`, `number`).
    pub fn import<O: AncestryOracle>(
        &mut self,
        hash: u64,
        number: u64,
        epoch: Epoch,
        oracle: &O,
    ) -> (r: Result<(), Error>)
        requires
            old(self).wf(rel(oracle)),
            ancestry_consistent(rel(oracle)),
            crate::fork_tree::entry_compatible(old(self).entries(), rel(oracle), hash, number),
        ensures
            r == Err::<(), Error>(Error::Duplicate) <==> old(self).entries().contains_key(
                (hash, number),
            ),
            r is Ok ==> forall|k: (u64, u64)|
                final(self).entries().contains_key(k) <==> (#[trigger] old(
                    self,
                ).entries().contains_key(k) || k == (hash, number)),
            r is Ok ==> final(self).entries().contains_key((hash, number)) && final(self).entries()[
                (hash, number)
            ] == epoch,
            r is Ok ==> forall|k: (u64, u64)| #[trigger]
                old(self).entries().contains_key(k) ==> final(self).entries()[k] == old(
                    self,
                ).entries()[k],
            r is Ok ==> final(self).wf(rel(oracle)),
            r is Err ==> final(self).entries() == old(self).entries() && final(self).wf(
                rel(oracle),
            ),
            r matches Err(Error::Oracle(e)) ==> !oracle_total(oracle),
            oracle_total(oracle) && !old(self).entries().contains_key((hash, number)) ==> r is Ok,
    {
        let r = self.inner.import(hash, number, epoch, oracle);
        proof {
            if r is Err {
                assert(self.entries() == old(self).entries());
            }
        }
        r
    }

    /// Prune transitions that finalizing the block (`hash`, `number`) makes
    /// unreachable, keeping the block's own subtree and its single most
    /// recent recorded ancestor.  Returns whether anything was pruned.
    pub fn prune_finalized<O: AncestryOracle>(
        &mut self,
        hash: u64,
        number: u64,
        oracle: &O,
    ) -> (r: Result<bool, OracleError>)
        requires
            old(self).wf(rel(oracle)),
            ancestry_consistent(rel(oracle)),
            crate::fork_tree::query_compatible(old(self).entries(), rel(oracle), hash, number),
            forall|k: (u64, u64)| #[trigger]
                old(self).entries().contains_key(k) ==> (k.0 == hash ==> k == (hash, number)),
        ensures
            r is Ok ==> forall|k: (u64, u64)| #[trigger]
                final(self).entries().contains_key(k) ==> old(self).entries().contains_key(k)
                    && final(self).entries()[k] == old(self).entries()[k],
            r is Ok ==> forall|k: (u64, u64)| #[trigger]
                final(self).entries().contains_key(k) ==> oracle.dsc(k.0, hash) || k.0 == hash
                    || oracle.dsc(hash, k.0),
            r is Ok ==> forall|k: (u64, u64), k2: (u64, u64)|
                #[trigger] final(self).entries().contains_key(k) && oracle.dsc(k.0, hash)
                    && #[trigger] old(self).entries().contains_key(k2) && oracle.dsc(k2.0, hash)
                    ==> k2 == k || oracle.dsc(k2.0, k.0),
            r is Ok ==> forall|k: (u64, u64)| #[trigger]
                old(self).entries().contains_key(k) && (k == (hash, number) || oracle.dsc(
                    hash,
                    k.0,
                )) ==> final(self).entries().contains_key(k),
            r is Ok && (exists|k: (u64, u64)| #[trigger]
                old(self).entries().contains_key(k) && oracle.dsc(k.0, hash)) ==> exists|
                k: (u64, u64),
            | #[trigger] final(self).entries().contains_key(k) && oracle.dsc(k.0, hash),
            r is Ok ==> final(self).wf(rel(oracle)),
            r matches Ok(b) && !b ==> final(self).entries() == old(self).entries(),
            r matches Ok(b) && b ==> exists|k: (u64, u64)| #[trigger]
                old(self).entries().contains_key(k) && !final(self).entries().contains_key(k),
            r is Err ==> final(self).entries() == old(self).entries() && final(self).wf(
                rel(oracle),
            ) && !oracle_total(oracle),
            oracle_total(oracle) ==> r is Ok,
    {
        let r = self.inner.finalize(hash, number, oracle);
        proof {
            if r is Err {
                assert(self.entries() == old(self).entries());
            }
            if r is Ok && (exists|k: (u64, u64)| #[trigger]
                old(self).entries().contains_key(k) && oracle.dsc(k.0, hash)) {
                let k0 = choose|k: (u64, u64)| #[trigger]
                    old(self).entries().contains_key(k) && oracle.dsc(k.0, hash);
                assert(old(self).inner.entries().contains_key(k0));
                let k1 = choose|k: (u64, u64)| #[trigger]
                    self.inner.entries().contains_key(k) && oracle.dsc(k.0, hash);
                assert(self.entries().contains_key(k1) && oracle.dsc(k1.0, hash));
            }
        }
        r
    }

    /// Resolve the epoch governing a child of the block (`parent_hash`,
    /// `parent_number`) produced at `slot_number`: the most recent epoch
    /// signalled at that block or one of its ancestors whose start slot has
    /// been reached.  `None` means no recorded transition applies and the
    /// caller's genesis epoch governs.
    #[verifier::rlimit(60)]
    pub fn epoch_for_child_of<O: AncestryOracle>(
        &self,
        parent_hash: u64,
        parent_number: u64,
        slot_number: u64,
        oracle: &O,
    ) -> (r: Result<Option<Epoch>, OracleError>)
        requires
            self.wf(rel(oracle)),
            ancestry_consistent(rel(oracle)),
            parent_number < u64::MAX,
            forall|k: (u64, u64)| #[trigger]
                self.entries().contains_key(k) ==> k.0 != spec_synthetic_head_hash(parent_hash),
            forall|k: (u64, u64)| #[trigger]
                self.entries().contains_key(k) ==> (rel(oracle)(k.0, parent_hash) ==> k.1
                    <= parent_number) && (k.0 == parent_hash ==> k.1 <= parent_number),
            forall|x: u64|
                !(#[trigger] oracle.dsc(spec_synthetic_head_hash(parent_hash), x)) && !oracle.dsc(
                    x,
                    spec_synthetic_head_hash(parent_hash),
                ),
        ensures
            r matches Ok(Some(e)) ==> exists|k: (u64, u64)|
                #[trigger] is_epoch_for(
                    self.entries(),
                    rel(oracle),
                    parent_hash,
                    slot_number,
                    k,
                ) && self.entries()[k] == e,
            r matches Ok(None) ==> forall|k: (u64, u64)| #[trigger]
                self.entries().contains_key(k) ==> !(governs(rel(oracle), k.0, parent_hash)
                    && self.entries()[k].start_slot <= slot_number),
            r is Err ==> !oracle_total(oracle),
            oracle_total(oracle) ==> r is Ok,
    {
        let ghost d = rel(oracle);
        let fake_head = synthetic_head_hash(parent_hash);
        let wrapped = InclusiveOracle { inner: oracle, parent_hash, head_hash: fake_head };
        let predicate = StartSlotAtMost { slot: slot_number };
        proof {
            assert forall|x: u64| !(#[trigger] wrapped.inner.dsc(wrapped.head_hash, x))
                && !wrapped.inner.dsc(x, wrapped.head_hash) by {
                assert(!oracle.dsc(spec_synthetic_head_hash(parent_hash), x));
                assert(!oracle.dsc(x, spec_synthetic_head_hash(parent_hash)));
            }
            lemma_inclusive_consistent(wrapped);
            let dw = rel(&wrapped);
            // the forest invariant holds for the extended relation too,
            // since no recorded hash collides with the synthetic head
            assert forall|k: (u64, u64)| #[trigger]
                crate::fork_tree::seq_entries(self.inner.roots@).contains_key(k) implies k.0
                != fake_head by {
                assert(self.entries().contains_key(k));
            }
            assert forall|m: int| 0 <= m < self.inner.roots@.len() implies crate::fork_tree::node_wf(
                #[trigger] self.inner.roots@[m],
                dw,
            ) by {
                let rt = self.inner.roots@[m];
                assert forall|k: (u64, u64)| #[trigger]
                    crate::fork_tree::node_entries(rt).contains_key(k) implies k.0
                    != fake_head by {
                    crate::fork_tree::lemma_seq_entries_get(self.inner.roots@, k, m);
                    assert(self.entries().contains_key(k));
                }
                lemma_node_wf_inclusive(rt, wrapped, fake_head);
            }
            assert(crate::fork_tree::heads_unrelated(self.inner.roots@, dw)) by {
                assert forall|x: int, y: int|
                    0 <= x < self.inner.roots@.len() && 0 <= y < self.inner.roots@.len() && x
                        != y implies !dw(
                    self.inner.roots@[x].hash,
                    self.inner.roots@[y].hash,
                ) by {
                    let hx = self.inner.roots@[x].hash;
                    let hy = self.inner.roots@[y].hash;
                    assert(crate::fork_tree::node_entries(self.inner.roots@[y]).contains_key(
                        (hy, self.inner.roots@[y].number),
                    ));
                    crate::fork_tree::lemma_seq_entries_get(
                        self.inner.roots@,
                        (hy, self.inner.roots@[y].number),
                        y,
                    );
                    assert(hy != fake_head);
                    assert(dw(hx, hy) == d(hx, hy));
                }
            }
            assert(self.inner.wf(dw));
            assert(crate::fork_tree::query_compatible(
                self.inner.entries(),
                dw,
                fake_head,
                (parent_number + 1) as u64,
            )) by {
                assert forall|k: (u64, u64)| #[trigger]
                    self.inner.entries().contains_key(k) implies (dw(k.0, fake_head) ==> k.1
                    < parent_number + 1) by {
                    assert(self.entries().contains_key(k));
                    let was_anc = d(k.0, parent_hash);
                    assert(dw(k.0, fake_head) == (k.0 == parent_hash || d(k.0, parent_hash)));
                }
            }
        }
        let r = self.inner.find_node_where(fake_head, parent_number + 1, &wrapped, &predicate);
        match r {
            Err(e) => Err(e),
            Ok(None) => {
                proof {
                    assert forall|k: (u64, u64)| #[trigger]
                        self.entries().contains_key(k) implies !(governs(d, k.0, parent_hash)
                        && self.entries()[k].start_slot <= slot_number) by {
                        assert(rel(&wrapped)(k.0, fake_head) == governs(d, k.0, parent_hash));
                    }
                }
                Ok(None)
            },
            Ok(Some(node)) => {
                proof {
                    let k = (node.hash, node.number);
                    assert(rel(&wrapped)(k.0, fake_head) == governs(d, k.0, parent_hash));
                    assert forall|k2: (u64, u64)| #[trigger]
                        self.entries().contains_key(k2) && governs(d, k2.0, parent_hash)
                        && self.entries()[k2].start_slot <= slot_number implies k2.1 <= k.1 && (
                    k2.1 == k.1 ==> k2 == k) by {
                        assert(rel(&wrapped)(k2.0, fake_head) == governs(d, k2.0, parent_hash));
                    }
                    assert(is_epoch_for(self.entries(), d, parent_hash, slot_number, k));
                }
                Ok(Some(node.data))
            },
        }
    }
}

/// A subtree well-formed for the base relation is well-formed for the
/// relation extended with a synthetic head foreign to the subtree.
pub proof fn lemma_node_wf_inclusive<O: AncestryOracle>(
    n: Node<Epoch>,
    w: InclusiveOracle<'_, O>,
    syn: u64,
)
    requires
        crate::fork_tree::node_wf(n, rel(w.inner)),
        syn == w.head_hash,
        forall|k: (u64, u64)| #[trigger]
            crate::fork_tree::node_entries(n).contains_key(k) ==> k.0 != syn,
    ensures
        crate::fork_tree::node_wf(n, rel(&w)),
    decreases n,
{
    let d = rel(w.inner);
    let dw = rel(&w);
    assert forall|k: (u64, u64)| #[trigger]
        crate::fork_tree::seq_entries(n.children@).contains_key(k) implies dw(n.hash, k.0)
        && n.number < k.1 by {
        assert(crate::fork_tree::node_entries(n).contains_key(k));
        assert(k.0 != syn);
        assert(dw(n.hash, k.0) == d(n.hash, k.0));
    }
    assert forall|x: int, y: int|
        0 <= x < n.children@.len() && 0 <= y < n.children@.len() && x != y implies !dw(
        n.children@[x].hash,
        n.children@[y].hash,
    ) by {
        let cy = n.children@[y];
        assert(crate::fork_tree::node_entries(cy).contains_key((cy.hash, cy.number)));
        crate::fork_tree::lemma_seq_entries_get(n.children@, (cy.hash, cy.number), y);
        assert(crate::fork_tree::node_entries(n).contains_key((cy.hash, cy.number)));
        assert(cy.hash != syn);
        assert(dw(n.children@[x].hash, cy.hash) == d(n.children@[x].hash, cy.hash));
    }
    assert forall|i: int| 0 <= i < n.children@.len() implies crate::fork_tree::node_wf(
        #[trigger] n.children@[i],
        rel(&w),
    ) by {
        let c = n.children@[i];
        assert forall|k: (u64, u64)| #[trigger]
            crate::fork_tree::node_entries(c).contains_key(k) implies k.0 != syn by {
            crate::fork_tree::lemma_seq_entries_get(n.children@, k, i);
            assert(crate::fork_tree::node_entries(n).contains_key(k));
        }
        lemma_node_wf_inclusive(c, w, syn);
    }
}

/// One epoch-change tracker shared by the import pipeline, the authoring
/// path and the verification path, all of which must see a fully updated
/// structure: every access, read or write, takes the exclusive lock.
#[derive(Clone)]
pub struct SharedEpochChanges {
    /// The shared, lock-protected instance.
    pub inner: Arc<RwLock<EpochChanges, spec_fn(EpochChanges) -> bool>>,
}

impl SharedEpochChanges {
    /// Any value may be stored back into the shared slot.
    pub open spec fn accepts(self, e: EpochChanges) -> bool {
        (*self.inner).inv(e)
    }

    /// A fresh shared tracker over an empty structure.
    pub fn new() -> (s: Self)
        ensures
            forall|e: EpochChanges| #[trigger] s.accepts(e),
    {
        SharedEpochChanges {
            inner: Arc::new(
                RwLock::new(EpochChanges::new(), Ghost(|e: EpochChanges| true)),
            ),
        }
    }

    /// Take the exclusive lock: the current value is handed out together
    /// with the handle that must be used to store the updated value back.
    pub fn lock(&self) -> (r: (
        EpochChanges,
        WriteHandle<'_, EpochChanges, spec_fn(EpochChanges) -> bool>,
    ))
        ensures
            r.1.rwlock() == *self.inner,
    {
        self.inner.acquire_write()
    }

    /// Release the exclusive lock, storing `value` as the new shared state.
    pub fn unlock(
        handle: WriteHandle<'_, EpochChanges, spec_fn(EpochChanges) -> bool>,
        value: EpochChanges,
    )
        requires
            handle.rwlock().inv(value),
    {
        handle.release_write(value);
    }
}

impl From<EpochChanges> for SharedEpochChanges {
    fn from(epoch_changes: EpochChanges) -> (s: SharedEpochChanges)
        ensures
            forall|e: EpochChanges| #[trigger] s.accepts(e),
    {
        SharedEpochChanges {
            inner: Arc::new(RwLock::new(epoch_changes, Ghost(|e: EpochChanges| true))),
        }
    }
}

impl vstd::std_specs::convert::FromSpecImpl<EpochChanges> for SharedEpochChanges {
    open spec fn obeys_from_spec() -> bool {
        false
    }

    open spec fn from_spec(v: EpochChanges) -> SharedEpochChanges {
        vstd::pervasive::arbitrary()
    }
}

} // verus!
