//! A forest of ancestry-ordered nodes, generic over the attached payload.
//!
//! Each node records the block (hash and number) at which some event was
//! signalled.  Ancestry between blocks is not known to the tree itself: every
//! operation takes an oracle answering "does `head` descend from `base`?".
//! The forest keeps disjoint trees whose parent/child edges mirror the
//! descends-from relation, maintains the invariant that siblings (and roots)
//! are pairwise ancestry-unrelated, and offers an ancestry-qualified search
//! for the most recent qualifying ancestor of a query point.

use vstd::prelude::*;

verus! {

/// Error token produced by an ancestry oracle.  The tree never constructs or
/// inspects one; it only hands it back to the caller unchanged.
#[derive(Clone, Copy, PartialEq, Eq, Structural, Debug)]
pub struct OracleError {
    /// A value chosen by the oracle's implementor to identify the failure.
    pub code: u64,
}

/// Failure of a forest operation.
#[derive(Clone, Copy, PartialEq, Eq, Structural, Debug)]
pub enum Error {
    /// An import targeted a (hash, number) pair already present.
    Duplicate,
    /// The ancestry oracle could not answer a required query; its error is
    /// propagated unchanged.
    Oracle(OracleError),
}

/// A caller-supplied capability answering whether one block descends from
/// another, backed by whatever header store the caller keeps.
///
/// `dsc` is the ground-truth strict descends-from relation the oracle answers
/// for, and `answers` says on which pairs it can answer at all; the
/// executable method must agree with both.
pub trait AncestryOracle {
    /// Ground truth: does `head` strictly descend from `base`?
    spec fn dsc(&self, base: u64, head: u64) -> bool;

    /// Can the oracle answer for this pair (e.g. are both headers known)?
    spec fn answers(&self, base: u64, head: u64) -> bool;

    /// Answer whether `head` strictly descends from `base`, or fail.
    fn is_descendant_of(&self, base: u64, head: u64) -> (r: Result<bool, OracleError>)
        ensures
            r is Ok <==> self.answers(base, head),
            r is Ok ==> r->Ok_0 == self.dsc(base, head),
    ;
}

/// The strict descends-from relation of an oracle, as a value.
pub open spec fn rel<O: AncestryOracle>(o: &O) -> spec_fn(u64, u64) -> bool {
    |a: u64, b: u64| o.dsc(a, b)
}

/// An oracle answers every query.
pub open spec fn oracle_total<O: AncestryOracle>(o: &O) -> bool {
    forall|a: u64, b: u64| #[trigger] o.answers(a, b)
}

/// A strict descends-from relation is consistent when it is transitive and
/// asymmetric and the ancestors of any block form a chain.
pub open spec fn ancestry_consistent(d: spec_fn(u64, u64) -> bool) -> bool {
    &&& forall|a: u64, b: u64, c: u64| #[trigger] d(a, b) && #[trigger] d(b, c) ==> d(a, c)
    &&& forall|a: u64, b: u64| #[trigger] d(a, b) ==> !d(b, a)
    &&& forall|a: u64, b: u64, c: u64|
        #[trigger] d(a, c) && #[trigger] d(b, c) ==> a == b || d(a, b) || d(b, a)
}

/// A predicate over payloads, applied during ancestor search.
pub trait PayloadPredicate<V> {
    /// What the predicate accepts.
    spec fn holds(&self, v: V) -> bool;

    /// Decide the predicate on one payload.
    fn check(&self, v: &V) -> (r: bool)
        ensures
            r == self.holds(*v),
    ;
}

/// A node of the forest: the block at which a payload was signalled, and the
/// signals later recorded on chains descending from it.
#[verifier::ext_equal]
pub struct Node<V> {
    /// Hash of the signalling block.
    pub hash: u64,
    /// Number (height) of the signalling block.
    pub number: u64,
    /// The payload attached at this block.
    pub data: V,
    /// Signals on descending chains, pairwise ancestry-unrelated.
    pub children: Vec<Node<V>>,
}

/// All (hash, number) keys of a subtree, each mapped to its payload.
pub open spec fn node_entries<V>(n: Node<V>) -> Map<(u64, u64), V>
    decreases n,
{
    seq_entries(n.children@).insert((n.hash, n.number), n.data)
}

/// All (hash, number) keys of a sequence of subtrees, mapped to payloads.
pub open spec fn seq_entries<V>(s: Seq<Node<V>>) -> Map<(u64, u64), V>
    decreases s,
{
    if s.len() == 0 {
        Map::empty()
    } else {
        node_entries(s[0]).union_prefer_right(seq_entries(s.drop_first()))
    }
}

/// Distinct subtrees of the group share no block hash.
pub open spec fn separated<V>(s: Seq<Node<V>>) -> bool {
    forall|i: int, j: int, k1: (u64, u64), k2: (u64, u64)|
        0 <= i < s.len() && 0 <= j < s.len() && i != j && #[trigger] node_entries(
            s[i],
        ).contains_key(k1) && #[trigger] node_entries(s[j]).contains_key(k2) ==> k1.0 != k2.0
}

/// No subtree head of the group descends from another.
pub open spec fn heads_unrelated<V>(s: Seq<Node<V>>, d: spec_fn(u64, u64) -> bool) -> bool {
    forall|i: int, j: int|
        0 <= i < s.len() && 0 <= j < s.len() && i != j ==> !(#[trigger] d(s[i].hash, s[j].hash))
}

/// The shape invariant of one subtree: everything below a node descends from
/// it and carries a larger number, and its children are pairwise separated
/// and unrelated.
pub open spec fn node_wf<V>(n: Node<V>, d: spec_fn(u64, u64) -> bool) -> bool
    decreases n,
{
    &&& forall|k: (u64, u64)| #[trigger]
        seq_entries(n.children@).contains_key(k) ==> d(n.hash, k.0) && n.number < k.1
    &&& separated(n.children@)
    &&& heads_unrelated(n.children@, d)
    &&& forall|i: int| 0 <= i < n.children@.len() ==> node_wf(#[trigger] n.children@[i], d)
}

/// The invariant of a whole forest.
pub open spec fn forest_wf<V>(s: Seq<Node<V>>, d: spec_fn(u64, u64) -> bool) -> bool {
    &&& separated(s)
    &&& heads_unrelated(s, d)
    &&& forall|i: int| 0 <= i < s.len() ==> node_wf(#[trigger] s[i], d)
}

/// A key is in some subtree of the sequence exactly when it is in the union.
pub proof fn lemma_seq_entries_key<V>(s: Seq<Node<V>>, k: (u64, u64))
    ensures
        seq_entries(s).contains_key(k) <==> exists|i: int|
            0 <= i < s.len() && #[trigger] node_entries(s[i]).contains_key(k),
    decreases s,
{
    if s.len() > 0 {
        lemma_seq_entries_key(s.drop_first(), k);
        if seq_entries(s).contains_key(k) && !node_entries(s[0]).contains_key(k) {
            let i = choose|i: int|
                0 <= i < s.drop_first().len() && #[trigger] node_entries(
                    s.drop_first()[i],
                ).contains_key(k);
            assert(s.drop_first()[i] == s[i + 1]);
            assert(node_entries(s[i + 1]).contains_key(k));
        }
        if exists|i: int| 0 <= i < s.len() && #[trigger] node_entries(s[i]).contains_key(k) {
            let i = choose|i: int|
                0 <= i < s.len() && #[trigger] node_entries(s[i]).contains_key(k);
            if i > 0 {
                assert(s.drop_first()[i - 1] == s[i]);
            }
        }
    }
}

/// In a separated group, the union's value at a key present in subtree `i`
/// is that subtree's value.
pub proof fn lemma_seq_entries_get<V>(s: Seq<Node<V>>, k: (u64, u64), i: int)
    requires
        separated(s),
        0 <= i < s.len(),
        node_entries(s[i]).contains_key(k),
    ensures
        seq_entries(s).contains_key(k),
        seq_entries(s)[k] == node_entries(s[i])[k],
    decreases s,
{
    lemma_seq_entries_key(s, k);
    if i == 0 {
        lemma_seq_entries_key(s.drop_first(), k);
        assert(!seq_entries(s.drop_first()).contains_key(k)) by {
            if seq_entries(s.drop_first()).contains_key(k) {
                let j = choose|j: int|
                    0 <= j < s.drop_first().len() && #[trigger] node_entries(
                        s.drop_first()[j],
                    ).contains_key(k);
                assert(s.drop_first()[j] == s[j + 1]);
            }
        }
    } else {
        assert(separated(s.drop_first())) by {
            assert forall|x: int, y: int, k1: (u64, u64), k2: (u64, u64)|
                0 <= x < s.drop_first().len() && 0 <= y < s.drop_first().len() && x != y
                    && #[trigger] node_entries(s.drop_first()[x]).contains_key(k1)
                    && #[trigger] node_entries(s.drop_first()[y]).contains_key(
                    k2,
                ) implies k1.0 != k2.0 by {
                assert(s.drop_first()[x] == s[x + 1]);
                assert(s.drop_first()[y] == s[y + 1]);
            }
        }
        assert(s.drop_first()[i - 1] == s[i]);
        lemma_seq_entries_get(s.drop_first(), k, i - 1);
    }
}

/// The recorded numbers are consistent with the ancestry of a query point:
/// whatever is an ancestor of the query carries a smaller number.
pub open spec fn query_compatible<V>(
    m: Map<(u64, u64), V>,
    d: spec_fn(u64, u64) -> bool,
    h: u64,
    num: u64,
) -> bool {
    forall|k: (u64, u64)| #[trigger] m.contains_key(k) ==> (d(k.0, h) ==> k.1 < num)
}

/// A new entry respects the ancestry recorded so far: numbers grow along
/// descent, and a hash determines its block.
pub open spec fn entry_compatible<V>(
    m: Map<(u64, u64), V>,
    d: spec_fn(u64, u64) -> bool,
    h: u64,
    num: u64,
) -> bool {
    forall|k: (u64, u64)| #[trigger]
        m.contains_key(k) ==> (d(k.0, h) ==> k.1 < num) && (d(h, k.0) ==> num < k.1) && (k.0 == h
            ==> k == (h, num))
}

/// In a separated, unrelated, well-formed group, every ancestor of `h`
/// recorded anywhere in the group lies in the one subtree whose head is an
/// ancestor of `h`.
pub proof fn lemma_group_step<V>(
    s: Seq<Node<V>>,
    j: int,
    d: spec_fn(u64, u64) -> bool,
    h: u64,
)
    requires
        separated(s),
        heads_unrelated(s, d),
        forall|i: int| 0 <= i < s.len() ==> node_wf(#[trigger] s[i], d),
        ancestry_consistent(d),
        0 <= j < s.len(),
        d(s[j].hash, h),
    ensures
        forall|k: (u64, u64)| #[trigger]
            seq_entries(s).contains_key(k) && d(k.0, h) ==> node_entries(s[j]).contains_key(k),
{
    assert forall|k: (u64, u64)| #[trigger]
        seq_entries(s).contains_key(k) && d(k.0, h) implies node_entries(s[j]).contains_key(
        k,
    ) by {
        lemma_seq_entries_key(s, k);
        let m = choose|m: int| 0 <= m < s.len() && #[trigger] node_entries(s[m]).contains_key(k);
        if m != j {
            assert(node_entries(s[m]).contains_key((s[m].hash, s[m].number)));
            assert(node_entries(s[j]).contains_key((s[j].hash, s[j].number)));
            if k == (s[m].hash, s[m].number) {
                // two distinct group heads would both be ancestors of h
                assert(false);
            } else {
                // k lies strictly below s[m], so s[m] is an ancestor of k
                assert(seq_entries(s[m].children@).contains_key(k));
                assert(d(s[m].hash, k.0));
                // k.0 and s[j].hash are both ancestors of h, so they are
                // equal or related; every case contradicts separation or
                // unrelatedness of the group heads
                assert(false);
            }
        }
    }
}

/// If no head of the group is an ancestor of `h`, nothing in the group is.
pub proof fn lemma_group_stop<V>(s: Seq<Node<V>>, d: spec_fn(u64, u64) -> bool, h: u64)
    requires
        forall|i: int| 0 <= i < s.len() ==> node_wf(#[trigger] s[i], d),
        ancestry_consistent(d),
        forall|i: int| 0 <= i < s.len() ==> !d(#[trigger] s[i].hash, h),
    ensures
        forall|k: (u64, u64)| #[trigger] seq_entries(s).contains_key(k) ==> !d(k.0, h),
{
    assert forall|k: (u64, u64)| #[trigger] seq_entries(s).contains_key(k) implies !d(k.0, h) by {
        lemma_seq_entries_key(s, k);
        let m = choose|m: int| 0 <= m < s.len() && #[trigger] node_entries(s[m]).contains_key(k);
        if k != (s[m].hash, s[m].number) {
            assert(seq_entries(s[m].children@).contains_key(k));
        }
    }
}

/// A chain of child indices, starting at the group `s`, stays in bounds.
pub open spec fn path_valid<V>(s: Seq<Node<V>>, path: Seq<usize>) -> bool
    decreases path.len(),
{
    path.len() == 0 || (path[0] < s.len() && path_valid(
        s[path[0] as int].children@,
        path.drop_first(),
    ))
}

/// The nodes visited by a chain of child indices, outermost first.
pub open spec fn path_nodes<V>(s: Seq<Node<V>>, path: Seq<usize>) -> Seq<Node<V>>
    decreases path.len(),
{
    if path.len() == 0 || path[0] >= s.len() {
        Seq::empty()
    } else {
        seq![s[path[0] as int]] + path_nodes(s[path[0] as int].children@, path.drop_first())
    }
}

/// Extending a valid path by one in-bounds child visits that child next.
pub proof fn lemma_path_push<V>(s: Seq<Node<V>>, path: Seq<usize>, j: usize)
    requires
        path_valid(s, path),
        path.len() > 0 ==> (j as int) < path_nodes(s, path).last().children@.len(),
        path.len() == 0 ==> (j as int) < s.len(),
    ensures
        path_valid(s, path.push(j)),
        path.len() > 0 ==> path_nodes(s, path.push(j)) == path_nodes(s, path).push(
            path_nodes(s, path).last().children@[j as int],
        ),
        path.len() == 0 ==> path_nodes(s, path.push(j)) == seq![s[j as int]],
    decreases path.len(),
{
    if path.len() == 0 {
        assert(path.push(j)[0] == j);
        assert(path.push(j).drop_first() =~= Seq::<usize>::empty());
        assert(path_valid(s[j as int].children@, Seq::<usize>::empty()));
        assert(path_nodes(s[j as int].children@, Seq::<usize>::empty()) =~= Seq::<
            Node<V>,
        >::empty());
        assert(path_nodes(s, path.push(j)) =~= seq![s[j as int]]);
    } else {
        let i0 = path[0];
        let rest = path.drop_first();
        assert(path.push(j)[0] == i0);
        assert(path.push(j).drop_first() =~= rest.push(j));
        let sub = s[i0 as int].children@;
        if rest.len() == 0 {
            assert(path_nodes(sub, rest) =~= Seq::<Node<V>>::empty());
            assert(path_nodes(s, path) =~= seq![s[i0 as int]]);
            lemma_path_push(sub, rest, j);
            assert(path_nodes(s, path.push(j)) =~= seq![s[i0 as int]] + seq![sub[j as int]]);
            assert(path_nodes(s, path.push(j)) =~= path_nodes(s, path).push(sub[j as int]));
        } else {
            lemma_path_push(sub, rest, j);
            assert(path_nodes(sub, rest).len() > 0);
            assert(path_nodes(s, path).last() == path_nodes(sub, rest).last());
            assert(path_nodes(s, path.push(j)) =~= seq![s[i0 as int]] + path_nodes(
                sub,
                rest.push(j),
            ));
            assert(path_nodes(s, path.push(j)) =~= path_nodes(s, path).push(
                path_nodes(s, path).last().children@[j as int],
            ));
        }
    }
}

/// Separation is inherited by the tail of a group.
pub proof fn lemma_separated_drop<V>(s: Seq<Node<V>>)
    requires
        separated(s),
        s.len() > 0,
    ensures
        separated(s.drop_first()),
{
    assert forall|x: int, y: int, k1: (u64, u64), k2: (u64, u64)|
        0 <= x < s.drop_first().len() && 0 <= y < s.drop_first().len() && x != y
            && #[trigger] node_entries(s.drop_first()[x]).contains_key(k1) && #[trigger] node_entries(
            s.drop_first()[y],
        ).contains_key(k2) implies k1.0 != k2.0 by {
        assert(s.drop_first()[x] == s[x + 1]);
        assert(s.drop_first()[y] == s[y + 1]);
    }
}

/// Appending a subtree to a group unions its entries, the appended subtree
/// winning on (impossible under separation) overlaps.
pub proof fn lemma_seq_entries_push<V>(s: Seq<Node<V>>, n: Node<V>)
    ensures
        forall|k: (u64, u64)|
            seq_entries(s.push(n)).contains_key(k) <==> (#[trigger] seq_entries(s).contains_key(k)
                || node_entries(n).contains_key(k)),
        forall|k: (u64, u64)| #[trigger]
            node_entries(n).contains_key(k) ==> seq_entries(s.push(n))[k] == node_entries(n)[k],
        forall|k: (u64, u64)| #[trigger]
            seq_entries(s).contains_key(k) && !node_entries(n).contains_key(k) ==> seq_entries(
                s.push(n),
            )[k] == seq_entries(s)[k],
    decreases s,
{
    if s.len() == 0 {
        assert(s.push(n)[0] == n);
        assert(s.push(n).drop_first() =~= Seq::<Node<V>>::empty());
        assert(seq_entries(Seq::<Node<V>>::empty()) =~= Map::<(u64, u64), V>::empty());
        assert(seq_entries(s.push(n)) =~= node_entries(n));
        assert(seq_entries(s) =~= Map::<(u64, u64), V>::empty());
    } else {
        lemma_seq_entries_push(s.drop_first(), n);
        assert(s.push(n)[0] == s[0]);
        assert(s.push(n).drop_first() =~= s.drop_first().push(n));
        assert(seq_entries(s.push(n)) == node_entries(s[0]).union_prefer_right(
            seq_entries(s.drop_first().push(n)),
        ));
        assert(seq_entries(s) == node_entries(s[0]).union_prefer_right(
            seq_entries(s.drop_first()),
        ));
        assert forall|k: (u64, u64)| #[trigger]
            node_entries(n).contains_key(k) implies seq_entries(s.push(n))[k] == node_entries(
            n,
        )[k] by {
            let in_rest = seq_entries(s.drop_first()).contains_key(k);
            assert(seq_entries(s.drop_first().push(n)).contains_key(k));
            assert(seq_entries(s.drop_first().push(n))[k] == node_entries(n)[k]);
        }
        assert forall|k: (u64, u64)| #[trigger]
            seq_entries(s).contains_key(k) && !node_entries(n).contains_key(k) implies seq_entries(
            s.push(n),
        )[k] == seq_entries(s)[k] by {
            if seq_entries(s.drop_first()).contains_key(k) {
                assert(seq_entries(s.drop_first().push(n)).contains_key(k));
                assert(seq_entries(s.drop_first().push(n))[k] == seq_entries(s.drop_first())[k]);
            } else {
                assert(!seq_entries(s.drop_first().push(n)).contains_key(k));
            }
        }
    }
}

/// Replacing one subtree of a group by a version with one fresh key added
/// adds exactly that key to the group's entries.
pub proof fn lemma_seq_entries_update<V>(s: Seq<Node<V>>, i: int, n2: Node<V>, k0: (u64, u64))
    requires
        separated(s),
        0 <= i < s.len(),
        !seq_entries(s).contains_key(k0),
        forall|k: (u64, u64)|
            #![trigger node_entries(n2).contains_key(k)]
            node_entries(n2).contains_key(k) <==> (node_entries(s[i]).contains_key(k) || k == k0),
        forall|k: (u64, u64)| #[trigger]
            node_entries(s[i]).contains_key(k) && k != k0 ==> node_entries(n2)[k] == node_entries(
                s[i],
            )[k],
    ensures
        forall|k: (u64, u64)|
            seq_entries(s.update(i, n2)).contains_key(k) <==> (#[trigger] seq_entries(
                s,
            ).contains_key(k) || k == k0),
        node_entries(n2).contains_key(k0) ==> seq_entries(s.update(i, n2))[k0] == node_entries(
            n2,
        )[k0],
        forall|k: (u64, u64)| #[trigger]
            seq_entries(s).contains_key(k) && k != k0 ==> seq_entries(s.update(i, n2))[k]
                == seq_entries(s)[k],
    decreases s,
{
    let s2 = s.update(i, n2);
    if i == 0 {
        assert(s2[0] == n2);
        assert(s2.drop_first() =~= s.drop_first());
        assert forall|k: (u64, u64)| #[trigger]
            node_entries(s[0]).contains_key(k) implies !seq_entries(s.drop_first()).contains_key(
            k,
        ) by {
            if seq_entries(s.drop_first()).contains_key(k) {
                lemma_seq_entries_key(s.drop_first(), k);
                let j = choose|j: int|
                    0 <= j < s.drop_first().len() && #[trigger] node_entries(
                        s.drop_first()[j],
                    ).contains_key(k);
                assert(s.drop_first()[j] == s[j + 1]);
            }
        }
        assert(!seq_entries(s.drop_first()).contains_key(k0)) by {
            if seq_entries(s.drop_first()).contains_key(k0) {
                lemma_seq_entries_key(s.drop_first(), k0);
                let j = choose|j: int|
                    0 <= j < s.drop_first().len() && #[trigger] node_entries(
                        s.drop_first()[j],
                    ).contains_key(k0);
                assert(s.drop_first()[j] == s[j + 1]);
                lemma_seq_entries_get(s, k0, j + 1);
            }
        }
        assert forall|k: (u64, u64)|
            seq_entries(s2).contains_key(k) <==> (#[trigger] seq_entries(s).contains_key(k) || k
                == k0) by {
            let in_head = node_entries(s[0]).contains_key(k);
            let in_head2 = node_entries(n2).contains_key(k);
            let in_rest = seq_entries(s.drop_first()).contains_key(k);
        }
        assert forall|k: (u64, u64)| #[trigger]
            seq_entries(s).contains_key(k) && k != k0 implies seq_entries(s2)[k] == seq_entries(
            s,
        )[k] by {
            if seq_entries(s.drop_first()).contains_key(k) {
                assert(seq_entries(s2)[k] == seq_entries(s.drop_first())[k]);
            } else {
                assert(node_entries(s[0]).contains_key(k));
                assert(node_entries(n2).contains_key(k));
                assert(seq_entries(s2)[k] == node_entries(n2)[k]);
                assert(seq_entries(s)[k] == node_entries(s[0])[k]);
            }
        }
    } else {
        lemma_separated_drop(s);
        assert(s2[0] == s[0]);
        assert(s2.drop_first() =~= s.drop_first().update(i - 1, n2));
        assert(s.drop_first()[i - 1] == s[i]);
        assert(!seq_entries(s.drop_first()).contains_key(k0)) by {
            if seq_entries(s.drop_first()).contains_key(k0) {
                lemma_seq_entries_key(s.drop_first(), k0);
                let j = choose|j: int|
                    0 <= j < s.drop_first().len() && #[trigger] node_entries(
                        s.drop_first()[j],
                    ).contains_key(k0);
                assert(s.drop_first()[j] == s[j + 1]);
                lemma_seq_entries_get(s, k0, j + 1);
            }
        }
        lemma_seq_entries_update(s.drop_first(), i - 1, n2, k0);
        assert forall|k: (u64, u64)| #[trigger]
            node_entries(s[0]).contains_key(k) && k != k0 implies !seq_entries(
            s.drop_first().update(i - 1, n2),
        ).contains_key(k) by {
            if seq_entries(s.drop_first()).contains_key(k) {
                lemma_seq_entries_key(s.drop_first(), k);
                let j = choose|j: int|
                    0 <= j < s.drop_first().len() && #[trigger] node_entries(
                        s.drop_first()[j],
                    ).contains_key(k);
                assert(s.drop_first()[j] == s[j + 1]);
            }
        }
        let rest2 = s.drop_first().update(i - 1, n2);
        assert forall|k: (u64, u64)|
            seq_entries(s2).contains_key(k) <==> (#[trigger] seq_entries(s).contains_key(k) || k
                == k0) by {
            assert(seq_entries(rest2).contains_key(k) <==> (seq_entries(
                s.drop_first(),
            ).contains_key(k) || k == k0));
        }
        assert forall|k: (u64, u64)| #[trigger]
            seq_entries(s).contains_key(k) && k != k0 implies seq_entries(s2)[k] == seq_entries(
            s,
        )[k] by {
            if seq_entries(s.drop_first()).contains_key(k) {
                assert(seq_entries(rest2).contains_key(k));
                assert(seq_entries(rest2)[k] == seq_entries(s.drop_first())[k]);
                assert(seq_entries(s2)[k] == seq_entries(rest2)[k]);
            } else {
                assert(node_entries(s[0]).contains_key(k));
                assert(!seq_entries(rest2).contains_key(k));
                assert(seq_entries(s2)[k] == node_entries(s[0])[k]);
                assert(seq_entries(s)[k] == node_entries(s[0])[k]);
            }
        }
        if node_entries(n2).contains_key(k0) {
            assert(seq_entries(rest2).contains_key(k0));
            assert(seq_entries(rest2)[k0] == node_entries(n2)[k0]);
            assert(seq_entries(s2)[k0] == seq_entries(rest2)[k0]);
        }
    }
}

/// Replacing one subtree of a group by a version with identical entries
/// leaves the group's entries unchanged.
pub proof fn lemma_seq_entries_update_same<V>(s: Seq<Node<V>>, i: int, n2: Node<V>)
    requires
        0 <= i < s.len(),
        node_entries(n2) == node_entries(s[i]),
    ensures
        seq_entries(s.update(i, n2)) == seq_entries(s),
    decreases s,
{
    let s2 = s.update(i, n2);
    if i == 0 {
        assert(s2[0] == n2);
        assert(s2.drop_first() =~= s.drop_first());
        assert(seq_entries(s2) =~= seq_entries(s));
    } else {
        assert(s2[0] == s[0]);
        assert(s2.drop_first() =~= s.drop_first().update(i - 1, n2));
        assert(s.drop_first()[i - 1] == s[i]);
        lemma_seq_entries_update_same(s.drop_first(), i - 1, n2);
        assert(seq_entries(s2) =~= seq_entries(s));
    }
}

/// In a separated, unrelated, well-formed group, every recorded block that
/// equals `h`'s block or descends from it lies in the one subtree whose head
/// is an ancestor of `h`.
pub proof fn lemma_group_step_desc<V>(
    s: Seq<Node<V>>,
    j: int,
    d: spec_fn(u64, u64) -> bool,
    h: u64,
    num: u64,
)
    requires
        separated(s),
        heads_unrelated(s, d),
        forall|i: int| 0 <= i < s.len() ==> node_wf(#[trigger] s[i], d),
        ancestry_consistent(d),
        0 <= j < s.len(),
        d(s[j].hash, h),
    ensures
        forall|k: (u64, u64)| #[trigger]
            seq_entries(s).contains_key(k) && (d(h, k.0) || k.0 == h) ==> node_entries(
                s[j],
            ).contains_key(k),
{
    assert forall|k: (u64, u64)| #[trigger]
        seq_entries(s).contains_key(k) && (d(h, k.0) || k.0 == h) implies node_entries(
        s[j],
    ).contains_key(k) by {
        lemma_seq_entries_key(s, k);
        let m = choose|m: int| 0 <= m < s.len() && #[trigger] node_entries(s[m]).contains_key(k);
        if m != j {
            assert(node_entries(s[m]).contains_key((s[m].hash, s[m].number)));
            assert(node_entries(s[j]).contains_key((s[j].hash, s[j].number)));
            if k == (s[m].hash, s[m].number) {
                // a group head equal to or descending from h would descend
                // from the head that is an ancestor of h
                assert(false);
            } else {
                assert(seq_entries(s[m].children@).contains_key(k));
                assert(d(s[m].hash, k.0));
                assert(false);
            }
        }
    }
}

/// A fact that propagates from each node of a chain to the next holds
/// everywhere once it holds at the start.
pub proof fn lemma_chain_down<V>(nodes: Seq<Node<V>>, k: (u64, u64), st: int)
    requires
        0 <= st < nodes.len(),
        node_entries(nodes[0]).contains_key(k),
        forall|m: int|
            0 <= m < nodes.len() - 1 && node_entries(#[trigger] nodes[m]).contains_key(k)
                ==> node_entries(nodes[m + 1]).contains_key(k),
    ensures
        node_entries(nodes[st]).contains_key(k),
    decreases st,
{
    if st > 0 {
        lemma_chain_down(nodes, k, st - 1);
    }
}

/// A fact that propagates from each node of a chain to its parent holds at
/// the start once it holds anywhere.
pub proof fn lemma_chain_up<V>(nodes: Seq<Node<V>>, k: (u64, u64), st: int)
    requires
        0 <= st < nodes.len(),
        node_entries(nodes[st]).contains_key(k),
        forall|m: int|
            0 <= m < nodes.len() - 1 && node_entries(#[trigger] nodes[m + 1]).contains_key(k)
                ==> node_entries(nodes[m]).contains_key(k),
    ensures
        node_entries(nodes[0]).contains_key(k),
    decreases st,
{
    if st > 0 {
        assert(node_entries(nodes[(st - 1) + 1]).contains_key(k));
        lemma_chain_up(nodes, k, st - 1);
    }
}

/// A valid walk visits as many nodes as it has indices.
pub proof fn lemma_path_nodes_len<V>(s: Seq<Node<V>>, path: Seq<usize>)
    requires
        path_valid(s, path),
    ensures
        path_nodes(s, path).len() == path.len(),
    decreases path.len(),
{
    if path.len() > 0 {
        lemma_path_nodes_len(s[path[0] as int].children@, path.drop_first());
    }
}

/// Consecutive nodes of a walk are parent and child, at the recorded index.
pub proof fn lemma_path_step<V>(s: Seq<Node<V>>, path: Seq<usize>, i: int)
    requires
        path_valid(s, path),
        0 <= i,
        i + 1 < path.len(),
    ensures
        (path[i + 1] as int) < path_nodes(s, path)[i].children@.len(),
        path_nodes(s, path)[i + 1] == path_nodes(s, path)[i].children@[path[i + 1] as int],
    decreases i,
{
    let sub = s[path[0] as int].children@;
    let rest = path.drop_first();
    assert(path_valid(sub, rest));
    lemma_path_nodes_len(s, path);
    lemma_path_nodes_len(sub, rest);
    assert(path_nodes(s, path) == seq![s[path[0] as int]] + path_nodes(sub, rest));
    if i == 0 {
        assert(rest[0] == path[1]);
        assert(rest.len() > 0);
        assert((rest[0] as int) < sub.len());
        assert(path_nodes(sub, rest) == seq![sub[rest[0] as int]] + path_nodes(
            sub[rest[0] as int].children@,
            rest.drop_first(),
        ));
        assert(path_nodes(s, path)[0] == s[path[0] as int]);
        assert(path_nodes(s, path)[1] == path_nodes(sub, rest)[0]);
    } else {
        lemma_path_step(sub, rest, i - 1);
        assert(path_nodes(s, path)[i] == path_nodes(sub, rest)[i - 1]);
        assert(path_nodes(s, path)[i + 1] == path_nodes(sub, rest)[i]);
        assert(rest[i] == path[i + 1]);
    }
}

/// What a completed walk toward the query point (`hash`, `number`) says: the
/// visited nodes are exactly the recorded ancestors of the query point,
/// outermost first, each one an ancestor of the next, and the walk stopped
/// because no further child qualified.
pub open spec fn located<V, O: AncestryOracle>(
    t: ForkTree<V>,
    hash: u64,
    number: u64,
    oracle: &O,
    path: Seq<usize>,
) -> bool {
    &&& path_valid(t.roots@, path)
    &&& path_nodes(t.roots@, path).len() == path.len()
    &&& forall|i: int|
        0 <= i < path.len() ==> {
            let nd = #[trigger] path_nodes(t.roots@, path)[i];
            &&& oracle.dsc(nd.hash, hash)
            &&& nd.number < number
            &&& t.entries().contains_key((nd.hash, nd.number))
            &&& t.entries()[(nd.hash, nd.number)] == nd.data
            &&& node_wf(nd, rel(oracle))
        }
    &&& forall|i: int, j: int|
        0 <= i < j < path.len() ==> oracle.dsc(
            #[trigger] path_nodes(t.roots@, path)[i].hash,
            #[trigger] path_nodes(t.roots@, path)[j].hash,
        ) && path_nodes(t.roots@, path)[i].number < path_nodes(t.roots@, path)[j].number
    &&& forall|k: (u64, u64)| #[trigger]
        t.entries().contains_key(k) && oracle.dsc(k.0, hash) ==> exists|i: int|
            0 <= i < path.len() && ((#[trigger] path_nodes(t.roots@, path)[i]).hash,
            path_nodes(t.roots@, path)[i].number) == k
    &&& (path.len() > 0 ==> forall|j: int|
        0 <= j < path_nodes(t.roots@, path).last().children@.len() ==> !oracle.dsc(
            #[trigger] path_nodes(t.roots@, path).last().children@[j].hash,
            hash,
        ))
    &&& (path.len() == 0 ==> forall|m: int|
        0 <= m < t.roots@.len() ==> !oracle.dsc(#[trigger] t.roots@[m].hash, hash))
    &&& (path.len() > 0 ==> forall|k: (u64, u64)| #[trigger]
        node_entries(path_nodes(t.roots@, path).last()).contains_key(k) ==> t.entries().contains_key(
            k,
        ) && t.entries()[k] == node_entries(path_nodes(t.roots@, path).last())[k])
}

/// Everything recorded in a subtree respects the ancestry of a new block:
/// numbers grow along descent, and the new block's hash is fresh.
pub open spec fn subtree_compatible<V>(
    m: Map<(u64, u64), V>,
    d: spec_fn(u64, u64) -> bool,
    h: u64,
    num: u64,
) -> bool {
    forall|k: (u64, u64)| #[trigger]
        m.contains_key(k) ==> (d(k.0, h) ==> k.1 < num) && (d(h, k.0) ==> num < k.1) && k.0 != h
}

/// The (hash, number) keys of the heads of a group of subtrees.
pub open spec fn group_keys<V>(s: Seq<Node<V>>) -> Seq<(u64, u64)> {
    Seq::new(s.len(), |i: int| (s[i].hash, s[i].number))
}

/// The forest: a set of disjoint trees over block ancestry.
#[verifier::ext_equal]
pub struct ForkTree<V> {
    /// The root subtrees, pairwise ancestry-unrelated.
    pub roots: Vec<Node<V>>,
}

impl<V> ForkTree<V> {
    /// The payloads of the whole forest, keyed by (hash, number).
    pub open spec fn entries(self) -> Map<(u64, u64), V> {
        seq_entries(self.roots@)
    }

    /// The forest invariant with respect to a descends-from relation.
    pub open spec fn wf(self, d: spec_fn(u64, u64) -> bool) -> bool {
        forest_wf(self.roots@, d)
    }

    /// An empty forest.
    pub fn new() -> (t: Self)
        ensures
            t.entries() == Map::<(u64, u64), V>::empty(),
            t.roots@.len() == 0,
            forall|d: spec_fn(u64, u64) -> bool| t.wf(d),
    {
        ForkTree { roots: Vec::new() }
    }

    /// Whether the subtree records the exact (hash, number) pair.
    fn node_contains(n: &Node<V>, hash: u64, number: u64) -> (r: bool)
        ensures
            r == node_entries(*n).contains_key((hash, number)),
        decreases *n,
    {
        if n.hash == hash && n.number == number {
            return true;
        }
        let mut i: usize = 0;
        while i < n.children.len()
            invariant
                i <= n.children@.len(),
                n.hash != hash || n.number != number,
                forall|m: int|
                    0 <= m < i ==> !(#[trigger] node_entries(n.children@[m])).contains_key(
                        (hash, number),
                    ),
            decreases n.children@.len() - i,
        {
            proof {
                assert(decreases_to!(*n => n.children));
                assert(decreases_to!(n.children => n.children@[i as int]));
            }
            if Self::node_contains(&n.children[i], hash, number) {
                proof {
                    lemma_seq_entries_key(n.children@, (hash, number));
                }
                return true;
            }
            i = i + 1;
        }
        proof {
            lemma_seq_entries_key(n.children@, (hash, number));
        }
        false
    }

    /// Whether the forest records the exact (hash, number) pair.
    pub fn contains(&self, hash: u64, number: u64) -> (r: bool)
        ensures
            r == self.entries().contains_key((hash, number)),
    {
        let mut i: usize = 0;
        while i < self.roots.len()
            invariant
                i <= self.roots@.len(),
                forall|m: int|
                    0 <= m < i ==> !(#[trigger] node_entries(self.roots@[m])).contains_key(
                        (hash, number),
                    ),
            decreases self.roots@.len() - i,
        {
            if Self::node_contains(&self.roots[i], hash, number) {
                proof {
                    lemma_seq_entries_key(self.roots@, (hash, number));
                }
                return true;
            }
            i = i + 1;
        }
        proof {
            lemma_seq_entries_key(self.roots@, (hash, number));
        }
        false
    }

    /// Ask the oracle, for each member of a group, whether it descends from
    /// the new block, pre-filtering by number.
    fn flag_group<O: AncestryOracle>(
        group: &Vec<Node<V>>,
        hash: u64,
        number: u64,
        oracle: &O,
    ) -> (r: Result<Vec<bool>, OracleError>)
        ensures
            r matches Ok(f) ==> f@.len() == group@.len() && forall|m: int|
                0 <= m < group@.len() ==> f@[m] == ((#[trigger] group@[m]).number > number
                    && oracle.dsc(hash, group@[m].hash)),
            r is Err ==> !oracle_total(oracle),
    {
        let mut f: Vec<bool> = Vec::new();
        let mut i: usize = 0;
        while i < group.len()
            invariant
                i <= group@.len(),
                f@.len() == i,
                forall|m: int|
                    0 <= m < i ==> f@[m] == ((#[trigger] group@[m]).number > number && oracle.dsc(
                        hash,
                        group@[m].hash,
                    )),
            decreases group@.len() - i,
        {
            let flag = if group[i].number > number {
                match oracle.is_descendant_of(hash, group[i].hash) {
                    Err(e) => {
                        return Err(e);
                    },
                    Ok(b) => b,
                }
            } else {
                false
            };
            f.push(flag);
            i = i + 1;
        }
        Ok(f)
    }

    /// Insert a new node into a group of sibling subtrees: members that
    /// descend from it (per `flags`) are re-parented beneath it, and the new
    /// node joins the group.  No member of the group is an ancestor of the
    /// new block.
    #[verifier::rlimit(60)]
    fn insert_group(
        group: &mut Vec<Node<V>>,
        hash: u64,
        number: u64,
        data: V,
        flags: &Vec<bool>,
        Ghost(d): Ghost<spec_fn(u64, u64) -> bool>,
    )
        requires
            ancestry_consistent(d),
            flags@.len() == old(group)@.len(),
            forall|m: int|
                0 <= m < old(group)@.len() ==> flags@[m] == ((#[trigger] old(
                    group,
                )@[m]).number > number && d(hash, old(group)@[m].hash)),
            forall|m: int| 0 <= m < old(group)@.len() ==> !d((#[trigger] old(group)@[m]).hash, hash),
            separated(old(group)@),
            heads_unrelated(old(group)@, d),
            forall|i: int| 0 <= i < old(group)@.len() ==> node_wf(#[trigger] old(group)@[i], d),
            forall|k: (u64, u64)| #[trigger]
                seq_entries(old(group)@).contains_key(k) ==> (d(k.0, hash) ==> k.1 < number) && (d(
                    hash,
                    k.0,
                ) ==> number < k.1) && k.0 != hash,
        ensures
            forall|k: (u64, u64)|
                seq_entries(final(group)@).contains_key(k) <==> (#[trigger] seq_entries(
                    old(group)@,
                ).contains_key(k) || k == (hash, number)),
            seq_entries(final(group)@).contains_key((hash, number)) && seq_entries(final(group)@)[
                (hash, number)
            ] == data,
            forall|k: (u64, u64)| #[trigger]
                seq_entries(old(group)@).contains_key(k) ==> seq_entries(final(group)@)[k]
                    == seq_entries(old(group)@)[k],
            separated(final(group)@),
            heads_unrelated(final(group)@, d),
            forall|i: int| 0 <= i < final(group)@.len() ==> node_wf(#[trigger] final(group)@[i], d),
            final(group)@.len() >= 1,
            (final(group)@.last().hash, final(group)@.last().number) == (hash, number),
    {
        let ghost g0 = group@;
        let mut rest: Vec<Node<V>> = Vec::new();
        core::mem::swap(group, &mut rest);
        let total: usize = rest.len();
        let mut kept: Vec<Node<V>> = Vec::new();
        let mut moved: Vec<Node<V>> = Vec::new();
        let mut i: usize = 0;
        while rest.len() > 0
            invariant
                ancestry_consistent(d),
                g0.len() == total,
                i + rest@.len() == g0.len(),
                rest@ == g0.subrange(i as int, g0.len() as int),
                flags@.len() == g0.len(),
                forall|m: int|
                    0 <= m < g0.len() ==> flags@[m] == ((#[trigger] g0[m]).number > number && d(
                        hash,
                        g0[m].hash,
                    )),
                forall|m: int| 0 <= m < g0.len() ==> !d((#[trigger] g0[m]).hash, hash),
                separated(g0),
                heads_unrelated(g0, d),
                forall|m: int| 0 <= m < g0.len() ==> node_wf(#[trigger] g0[m], d),
                forall|k: (u64, u64)| #[trigger]
                    seq_entries(g0).contains_key(k) ==> (d(k.0, hash) ==> k.1 < number) && (d(
                        hash,
                        k.0,
                    ) ==> number < k.1) && k.0 != hash,
                separated(kept@),
                separated(moved@),
                heads_unrelated(kept@, d),
                heads_unrelated(moved@, d),
                forall|a: int| 0 <= a < kept@.len() ==> node_wf(#[trigger] kept@[a], d),
                forall|a: int| 0 <= a < moved@.len() ==> node_wf(#[trigger] moved@[a], d),
                forall|j: int, k1: (u64, u64), k2: (u64, u64)|
                    i <= j < g0.len() && #[trigger] seq_entries(kept@).contains_key(k1)
                        && #[trigger] node_entries(g0[j]).contains_key(k2) ==> k1.0 != k2.0,
                forall|j: int, k1: (u64, u64), k2: (u64, u64)|
                    i <= j < g0.len() && #[trigger] seq_entries(moved@).contains_key(k1)
                        && #[trigger] node_entries(g0[j]).contains_key(k2) ==> k1.0 != k2.0,
                forall|k1: (u64, u64), k2: (u64, u64)|
                    #[trigger] seq_entries(kept@).contains_key(k1) && #[trigger] seq_entries(
                        moved@,
                    ).contains_key(k2) ==> k1.0 != k2.0,
                forall|a: int, j: int|
                    0 <= a < kept@.len() && i <= j < g0.len() ==> !d(
                        (#[trigger] kept@[a]).hash,
                        (#[trigger] g0[j]).hash,
                    ) && !d(g0[j].hash, kept@[a].hash),
                forall|a: int, j: int|
                    0 <= a < moved@.len() && i <= j < g0.len() ==> !d(
                        (#[trigger] moved@[a]).hash,
                        (#[trigger] g0[j]).hash,
                    ) && !d(g0[j].hash, moved@[a].hash),
                forall|a: int|
                    0 <= a < kept@.len() ==> !d((#[trigger] kept@[a]).hash, hash) && !d(
                        hash,
                        kept@[a].hash,
                    ) && kept@[a].hash != hash,
                forall|a: int|
                    0 <= a < moved@.len() ==> d(hash, (#[trigger] moved@[a]).hash) && number
                        < moved@[a].number,
                forall|j: int, k: (u64, u64)|
                    0 <= j < i && #[trigger] node_entries(g0[j]).contains_key(k) ==> (
                    #[trigger] seq_entries(kept@).contains_key(k) || seq_entries(
                        moved@,
                    ).contains_key(k)),
                forall|k: (u64, u64)| #[trigger]
                    seq_entries(kept@).contains_key(k) ==> seq_entries(g0).contains_key(k)
                        && seq_entries(kept@)[k] == seq_entries(g0)[k] && !seq_entries(
                        moved@,
                    ).contains_key(k),
                forall|k: (u64, u64)| #[trigger]
                    seq_entries(moved@).contains_key(k) ==> seq_entries(g0).contains_key(k)
                        && seq_entries(moved@)[k] == seq_entries(g0)[k],
            decreases rest@.len(),
        {
            let nd = rest.remove(0);
            let ghost old_kept = kept@;
            let ghost old_moved = moved@;
            proof {
                assert(nd == g0[i as int]);
                assert(rest@ =~= g0.subrange(i as int + 1, g0.len() as int));
                assert forall|k: (u64, u64)| #[trigger]
                    node_entries(nd).contains_key(k) implies seq_entries(g0).contains_key(k)
                    && seq_entries(g0)[k] == node_entries(nd)[k] by {
                    lemma_seq_entries_get(g0, k, i as int);
                }
                // keys of the current member are new to both sides
                assert forall|k: (u64, u64)| #[trigger]
                    node_entries(nd).contains_key(k) implies !seq_entries(old_kept).contains_key(k)
                    && !seq_entries(old_moved).contains_key(k) by {
                    assert(node_entries(g0[i as int]).contains_key(k));
                }
                let ndk = (nd.hash, nd.number);
                assert(node_entries(nd).contains_key(ndk));
                lemma_seq_entries_get(g0, ndk, i as int);
            }
            if flags[i] {
                moved.push(nd);
                proof {
                    lemma_seq_entries_push(old_moved, nd);
                    assert forall|a: int, b: int|
                        #![trigger moved@[a], moved@[b]]
                        0 <= a < moved@.len() && 0 <= b < moved@.len() && a != b implies (forall|
                        k1: (u64, u64),
                        k2: (u64, u64),
                    |
                        #[trigger] node_entries(moved@[a]).contains_key(k1)
                            && #[trigger] node_entries(moved@[b]).contains_key(k2) ==> k1.0
                            != k2.0) by {
                        assert forall|k1: (u64, u64), k2: (u64, u64)|
                            #[trigger] node_entries(moved@[a]).contains_key(k1)
                                && #[trigger] node_entries(moved@[b]).contains_key(
                            k2,
                        ) implies k1.0 != k2.0 by {
                            if b == moved@.len() - 1 {
                                lemma_seq_entries_get(old_moved, k1, a);
                            } else if a == moved@.len() - 1 {
                                lemma_seq_entries_get(old_moved, k2, b);
                            }
                        }
                    }
                    assert forall|a: int, b: int|
                        0 <= a < moved@.len() && 0 <= b < moved@.len() && a != b implies !d(
                        moved@[a].hash,
                        moved@[b].hash,
                    ) by {
                        if b == moved@.len() - 1 {
                            assert(!d(old_moved[a].hash, g0[i as int].hash));
                        } else if a == moved@.len() - 1 {
                            assert(!d(g0[i as int].hash, old_moved[b].hash));
                        }
                    }
                    assert forall|k: (u64, u64)| #[trigger]
                        seq_entries(moved@).contains_key(k) implies seq_entries(g0).contains_key(k)
                        && seq_entries(moved@)[k] == seq_entries(g0)[k] by {
                        if node_entries(nd).contains_key(k) {
                            assert(seq_entries(moved@)[k] == node_entries(nd)[k]);
                        } else {
                            assert(seq_entries(old_moved).contains_key(k));
                            assert(seq_entries(moved@)[k] == seq_entries(old_moved)[k]);
                        }
                    }
                    assert forall|k: (u64, u64)| #[trigger]
                        seq_entries(kept@).contains_key(k) implies !seq_entries(
                        moved@,
                    ).contains_key(k) by {
                        if node_entries(nd).contains_key(k) {
                            assert(false);
                        }
                    }
                    assert forall|j: int, k1: (u64, u64), k2: (u64, u64)|
                        i + 1 <= j < g0.len() && #[trigger] seq_entries(moved@).contains_key(k1)
                            && #[trigger] node_entries(g0[j]).contains_key(k2) implies k1.0
                        != k2.0 by {
                        if node_entries(nd).contains_key(k1) {
                            assert(node_entries(g0[i as int]).contains_key(k1));
                        } else {
                            assert(seq_entries(old_moved).contains_key(k1));
                        }
                    }
                    assert forall|a: int, j: int|
                        0 <= a < moved@.len() && i + 1 <= j < g0.len() implies !d(
                        (#[trigger] moved@[a]).hash,
                        (#[trigger] g0[j]).hash,
                    ) && !d(g0[j].hash, moved@[a].hash) by {
                        if a == moved@.len() - 1 {
                            assert(moved@[a] == g0[i as int]);
                        }
                    }
                    assert forall|k1: (u64, u64), k2: (u64, u64)|
                        #[trigger] seq_entries(kept@).contains_key(k1) && #[trigger] seq_entries(
                            moved@,
                        ).contains_key(k2) implies k1.0 != k2.0 by {
                        if node_entries(nd).contains_key(k2) {
                            assert(node_entries(g0[i as int]).contains_key(k2));
                        } else {
                            assert(seq_entries(old_moved).contains_key(k2));
                        }
                    }
                    assert forall|j: int, k: (u64, u64)|
                        0 <= j < i + 1 && #[trigger] node_entries(g0[j]).contains_key(
                            k,
                        ) implies (#[trigger] seq_entries(kept@).contains_key(k) || seq_entries(
                        moved@,
                    ).contains_key(k)) by {
                        if j == i {
                            assert(node_entries(nd).contains_key(k));
                            assert(seq_entries(moved@).contains_key(k));
                        } else {
                            assert(seq_entries(old_kept).contains_key(k) || seq_entries(
                                old_moved,
                            ).contains_key(k));
                            if seq_entries(old_moved).contains_key(k) {
                                assert(seq_entries(moved@).contains_key(k));
                            }
                        }
                    }
                }
            } else {
                kept.push(nd);
                proof {
                    lemma_seq_entries_push(old_kept, nd);
                    assert(!d(hash, nd.hash)) by {
                        if d(hash, nd.hash) {
                            assert(seq_entries(g0).contains_key((nd.hash, nd.number)));
                            assert(number < nd.number);
                            assert(flags@[i as int]);
                        }
                    }
                    assert forall|a: int, b: int|
                        #![trigger kept@[a], kept@[b]]
                        0 <= a < kept@.len() && 0 <= b < kept@.len() && a != b implies (forall|
                        k1: (u64, u64),
                        k2: (u64, u64),
                    |
                        #[trigger] node_entries(kept@[a]).contains_key(k1)
                            && #[trigger] node_entries(kept@[b]).contains_key(k2) ==> k1.0
                            != k2.0) by {
                        assert forall|k1: (u64, u64), k2: (u64, u64)|
                            #[trigger] node_entries(kept@[a]).contains_key(k1)
                                && #[trigger] node_entries(kept@[b]).contains_key(
                            k2,
                        ) implies k1.0 != k2.0 by {
                            if b == kept@.len() - 1 {
                                lemma_seq_entries_get(old_kept, k1, a);
                            } else if a == kept@.len() - 1 {
                                lemma_seq_entries_get(old_kept, k2, b);
                            }
                        }
                    }
                    assert forall|a: int, b: int|
                        0 <= a < kept@.len() && 0 <= b < kept@.len() && a != b implies !d(
                        kept@[a].hash,
                        kept@[b].hash,
                    ) by {
                        if b == kept@.len() - 1 {
                            assert(!d(old_kept[a].hash, g0[i as int].hash));
                        } else if a == kept@.len() - 1 {
                            assert(!d(g0[i as int].hash, old_kept[b].hash));
                        }
                    }
                    assert forall|k: (u64, u64)| #[trigger]
                        seq_entries(kept@).contains_key(k) implies seq_entries(g0).contains_key(k)
                        && seq_entries(kept@)[k] == seq_entries(g0)[k] && !seq_entries(
                        moved@,
                    ).contains_key(k) by {
                        if node_entries(nd).contains_key(k) {
                            assert(seq_entries(kept@)[k] == node_entries(nd)[k]);
                        } else {
                            assert(seq_entries(old_kept).contains_key(k));
                            assert(seq_entries(kept@)[k] == seq_entries(old_kept)[k]);
                        }
                    }
                    assert forall|j: int, k1: (u64, u64), k2: (u64, u64)|
                        i + 1 <= j < g0.len() && #[trigger] seq_entries(kept@).contains_key(k1)
                            && #[trigger] node_entries(g0[j]).contains_key(k2) implies k1.0
                        != k2.0 by {
                        if node_entries(nd).contains_key(k1) {
                            assert(node_entries(g0[i as int]).contains_key(k1));
                        } else {
                            assert(seq_entries(old_kept).contains_key(k1));
                        }
                    }
                    assert forall|k1: (u64, u64), k2: (u64, u64)|
                        #[trigger] seq_entries(kept@).contains_key(k1) && #[trigger] seq_entries(
                            moved@,
                        ).contains_key(k2) implies k1.0 != k2.0 by {
                        if node_entries(nd).contains_key(k1) {
                            assert(node_entries(g0[i as int]).contains_key(k1));
                        } else {
                            assert(seq_entries(old_kept).contains_key(k1));
                        }
                    }
                    assert forall|a: int, j: int|
                        0 <= a < kept@.len() && i + 1 <= j < g0.len() implies !d(
                        (#[trigger] kept@[a]).hash,
                        (#[trigger] g0[j]).hash,
                    ) && !d(g0[j].hash, kept@[a].hash) by {
                        if a == kept@.len() - 1 {
                            assert(kept@[a] == g0[i as int]);
                        }
                    }
                    assert forall|j: int, k: (u64, u64)|
                        0 <= j < i + 1 && #[trigger] node_entries(g0[j]).contains_key(
                            k,
                        ) implies (#[trigger] seq_entries(kept@).contains_key(k) || seq_entries(
                        moved@,
                    ).contains_key(k)) by {
                        if j == i {
                            assert(node_entries(nd).contains_key(k));
                            assert(seq_entries(kept@).contains_key(k));
                        } else {
                            assert(seq_entries(old_kept).contains_key(k) || seq_entries(
                                old_moved,
                            ).contains_key(k));
                            if seq_entries(old_kept).contains_key(k) {
                                assert(seq_entries(kept@).contains_key(k));
                            }
                        }
                    }
                }
            }
            i = i + 1;
        }
        proof {
            assert(i == g0.len());
            assert forall|k: (u64, u64)| #[trigger]
                seq_entries(g0).contains_key(k) implies (seq_entries(kept@).contains_key(k)
                || seq_entries(moved@).contains_key(k)) by {
                lemma_seq_entries_key(g0, k);
            }
        }
        let node = Node { hash, number, data, children: moved };
        proof {
            // the new node is well-formed: everything re-parented beneath it
            // descends from it with larger numbers
            assert forall|k: (u64, u64)| #[trigger]
                seq_entries(node.children@).contains_key(k) implies d(hash, k.0) && number
                < k.1 by {
                lemma_seq_entries_key(node.children@, k);
                let a = choose|a: int|
                    0 <= a < node.children@.len() && #[trigger] node_entries(
                        node.children@[a],
                    ).contains_key(k);
                let m = node.children@[a];
                assert(d(hash, m.hash) && number < m.number);
                if k != (m.hash, m.number) {
                    assert(seq_entries(m.children@).contains_key(k));
                    assert(d(m.hash, k.0) && m.number < k.1);
                }
            }
            assert(node_wf(node, d));
            assert(node_entries(node).contains_key((hash, number)));
            assert(node_entries(node)[(hash, number)] == data);
        }
        let ghost kept0 = kept@;
        kept.push(node);
        proof {
            lemma_seq_entries_push(kept0, node);
            assert(kept@.last() == node);
            // hash separation of the final group: the new node's own hash is
            // fresh and its children's keys come from the moved side
            assert forall|a: int, b: int|
                #![trigger kept@[a], kept@[b]]
                0 <= a < kept@.len() && 0 <= b < kept@.len() && a != b implies (forall|
                k1: (u64, u64),
                k2: (u64, u64),
            |
                #[trigger] node_entries(kept@[a]).contains_key(k1) && #[trigger] node_entries(
                    kept@[b],
                ).contains_key(k2) ==> k1.0 != k2.0) by {
                assert forall|k1: (u64, u64), k2: (u64, u64)|
                    #[trigger] node_entries(kept@[a]).contains_key(k1) && #[trigger] node_entries(
                        kept@[b],
                    ).contains_key(k2) implies k1.0 != k2.0 by {
                    if b == kept@.len() - 1 {
                        lemma_seq_entries_get(kept0, k1, a);
                        if k2 != (hash, number) {
                            assert(seq_entries(moved@).contains_key(k2));
                        }
                    } else if a == kept@.len() - 1 {
                        lemma_seq_entries_get(kept0, k2, b);
                        if k1 != (hash, number) {
                            assert(seq_entries(moved@).contains_key(k1));
                        }
                    }
                }
            }
            assert forall|a: int, b: int|
                0 <= a < kept@.len() && 0 <= b < kept@.len() && a != b implies !d(
                kept@[a].hash,
                kept@[b].hash,
            ) by {
                if b == kept@.len() - 1 {
                    assert(!d(kept0[a].hash, hash));
                } else if a == kept@.len() - 1 {
                    assert(!d(hash, kept0[b].hash));
                }
            }
            // the resulting entries are the old ones plus the new key
            assert forall|k: (u64, u64)|
                seq_entries(kept@).contains_key(k) <==> (#[trigger] seq_entries(
                    g0,
                ).contains_key(k) || k == (hash, number)) by {
                let in_old_kept = seq_entries(kept0).contains_key(k);
                let in_moved = seq_entries(moved@).contains_key(k);
                let in_node = node_entries(node).contains_key(k);
                if seq_entries(kept@).contains_key(k) {
                    if in_old_kept || in_moved {
                        assert(seq_entries(g0).contains_key(k));
                    } else {
                        assert(in_node);
                        assert(k == (hash, number));
                    }
                }
                if seq_entries(g0).contains_key(k) {
                    assert(in_old_kept || in_moved);
                    assert(in_moved ==> in_node);
                }
            }
            assert(seq_entries(kept@).contains_key((hash, number)) && seq_entries(kept@)[
                (hash, number)
            ] == data) by {
                assert(kept@ == kept0.push(node));
                assert(node_entries(node).contains_key((hash, number)));
                let in_kept0 = seq_entries(kept0).contains_key((hash, number));
                assert(seq_entries(kept0.push(node)).contains_key((hash, number)));
                assert(seq_entries(kept0.push(node))[(hash, number)] == node_entries(node)[
                    (hash, number)
                ]);
                assert(node_entries(node)[(hash, number)] == data);
            }
            assert forall|k: (u64, u64)| #[trigger]
                seq_entries(g0).contains_key(k) implies seq_entries(kept@)[k] == seq_entries(
                g0,
            )[k] by {
                assert(k.0 != hash);
                if seq_entries(kept0).contains_key(k) {
                    assert(!seq_entries(moved@).contains_key(k));
                    assert(!node_entries(node).contains_key(k)) by {
                        if node_entries(node).contains_key(k) {
                            assert(seq_entries(moved@).contains_key(k));
                        }
                    }
                    assert(seq_entries(kept@)[k] == seq_entries(kept0)[k]);
                } else {
                    assert(seq_entries(moved@).contains_key(k));
                    assert(node_entries(node).contains_key(k));
                    assert(node_entries(node)[k] == seq_entries(moved@)[k]);
                    assert(seq_entries(kept@)[k] == node_entries(node)[k]);
                }
            }
        }
        core::mem::swap(group, &mut kept);
    }

    /// Find the first member of a group that is an ancestor of the query
    /// point, pre-filtering by number.
    fn scan_group<O: AncestryOracle>(
        group: &Vec<Node<V>>,
        hash: u64,
        number: u64,
        oracle: &O,
    ) -> (r: Result<Option<usize>, OracleError>)
        ensures
            r matches Ok(Some(j)) ==> (j as int) < group@.len() && oracle.dsc(
                group@[j as int].hash,
                hash,
            ) && group@[j as int].number < number,
            r matches Ok(None) ==> forall|m: int|
                0 <= m < group@.len() ==> !(group@[m].number < number && oracle.dsc(
                    #[trigger] group@[m].hash,
                    hash,
                )),
            r is Err ==> !oracle_total(oracle),
    {
        let mut i: usize = 0;
        while i < group.len()
            invariant
                i <= group@.len(),
                forall|m: int|
                    0 <= m < i ==> !(group@[m].number < number && oracle.dsc(
                        #[trigger] group@[m].hash,
                        hash,
                    )),
            decreases group@.len() - i,
        {
            if group[i].number < number {
                match oracle.is_descendant_of(group[i].hash, hash) {
                    Err(e) => {
                        return Err(e);
                    },
                    Ok(true) => {
                        return Ok(Some(i));
                    },
                    Ok(false) => {},
                }
            }
            i = i + 1;
        }
        Ok(None)
    }

    /// Walk from the roots toward the query point (`hash`, `number`),
    /// descending at each level into the one child that is an ancestor of it,
    /// and return the chain of child indices visited.  The visited nodes are
    /// exactly the recorded ancestors of the query point, outermost first.
    #[verifier::rlimit(100)]
    #[verifier::spinoff_prover]
    fn locate<O: AncestryOracle>(&self, hash: u64, number: u64, oracle: &O) -> (r: Result<
        Vec<usize>,
        OracleError,
    >)
        requires
            self.wf(rel(oracle)),
            ancestry_consistent(rel(oracle)),
            query_compatible(self.entries(), rel(oracle), hash, number),
        ensures
            r matches Ok(path) ==> located(*self, hash, number, oracle, path@),
            r is Err ==> !oracle_total(oracle),
    {
        let ghost d = rel(oracle);
        let mut path: Vec<usize> = Vec::new();
        let i0 = match Self::scan_group(&self.roots, hash, number, oracle) {
            Err(e) => {
                return Err(e);
            },
            Ok(None) => {
                proof {
                    assert forall|m: int| 0 <= m < self.roots@.len() implies !oracle.dsc(
                        #[trigger] self.roots@[m].hash,
                        hash,
                    ) by {
                        let rk = (self.roots@[m].hash, self.roots@[m].number);
                        assert(node_entries(self.roots@[m]).contains_key(rk));
                        lemma_seq_entries_get(self.roots@, rk, m);
                    }
                    lemma_group_stop(self.roots@, d, hash);
                    assert forall|k: (u64, u64)| #[trigger]
                        self.entries().contains_key(k) implies !oracle.dsc(k.0, hash) by {
                        assert(seq_entries(self.roots@).contains_key(k));
                        assert(!d(k.0, hash));
                    }
                    assert(located(*self, hash, number, oracle, path@));
                }
                return Ok(path);
            },
            Ok(Some(i0)) => i0,
        };
        proof {
            lemma_path_push(self.roots@, path@, i0);
            lemma_group_step(self.roots@, i0 as int, d, hash);
            assert forall|k: (u64, u64)| #[trigger]
                node_entries(self.roots@[i0 as int]).contains_key(k) implies self.entries()
                .contains_key(k) && self.entries()[k] == node_entries(self.roots@[i0 as int])[k] by {
                lemma_seq_entries_get(self.roots@, k, i0 as int);
            }
        }
        path.push(i0);
        let mut cur: &Node<V> = &self.roots[i0];
        proof {
            let r0 = self.roots@[i0 as int];
            let nodes0 = path_nodes(self.roots@, path@);
            assert(nodes0 =~= seq![r0]);
            assert(nodes0[0] == r0);
            assert(node_entries(r0).contains_key((r0.hash, r0.number)));
            assert(node_entries(r0)[(r0.hash, r0.number)] == r0.data);
            assert forall|k: (u64, u64)| #[trigger]
                self.entries().contains_key(k) && d(k.0, hash) implies (exists|i: int|
                0 <= i < path@.len() && ((#[trigger] nodes0[i]).hash, nodes0[i].number) == k) || (
            node_entries(r0).contains_key(k) && k != (r0.hash, r0.number)) by {
                assert(node_entries(r0).contains_key(k));
                if k == (r0.hash, r0.number) {
                    assert(0 <= 0 < path@.len() && ((nodes0[0]).hash, nodes0[0].number) == k);
                }
            }
        }
        loop
            invariant
                ancestry_consistent(d),
                d == rel(oracle),
                query_compatible(self.entries(), d, hash, number),
                path@.len() >= 1,
                path_valid(self.roots@, path@),
                path_nodes(self.roots@, path@).len() == path@.len(),
                path_nodes(self.roots@, path@).last() == *cur,
                node_wf(*cur, d),
                cur.number < number,
                d(cur.hash, hash),
                forall|i: int|
                    0 <= i < path@.len() ==> {
                        let nd = #[trigger] path_nodes(self.roots@, path@)[i];
                        &&& d(nd.hash, hash)
                        &&& nd.number < number
                        &&& self.entries().contains_key((nd.hash, nd.number))
                        &&& self.entries()[(nd.hash, nd.number)] == nd.data
                        &&& node_wf(nd, d)
                    },
                forall|i: int, j: int|
                    0 <= i < j < path@.len() ==> d(
                        #[trigger] path_nodes(self.roots@, path@)[i].hash,
                        #[trigger] path_nodes(self.roots@, path@)[j].hash,
                    ) && path_nodes(self.roots@, path@)[i].number < path_nodes(
                        self.roots@,
                        path@,
                    )[j].number,
                forall|k: (u64, u64)| #[trigger]
                    node_entries(*cur).contains_key(k) ==> self.entries().contains_key(k)
                        && self.entries()[k] == node_entries(*cur)[k],
                forall|k: (u64, u64)| #[trigger]
                    self.entries().contains_key(k) && d(k.0, hash) ==> (exists|i: int|
                        0 <= i < path@.len() && ((#[trigger] path_nodes(
                            self.roots@,
                            path@,
                        )[i]).hash, path_nodes(self.roots@, path@)[i].number) == k) || (
                    node_entries(*cur).contains_key(k) && k != (cur.hash, cur.number)),
            decreases number - cur.number,
        {
            let j = match Self::scan_group(&cur.children, hash, number, oracle) {
                Err(e) => {
                    return Err(e);
                },
                Ok(None) => {
                    proof {
                        assert forall|m: int| 0 <= m < cur.children@.len() implies !d(
                            #[trigger] cur.children@[m].hash,
                            hash,
                        ) by {
                            let ck = (cur.children@[m].hash, cur.children@[m].number);
                            assert(node_entries(cur.children@[m]).contains_key(ck));
                            lemma_seq_entries_get(cur.children@, ck, m);
                            assert(node_entries(*cur).contains_key(ck));
                        }
                        lemma_group_stop(cur.children@, d, hash);
                        let nodes = path_nodes(self.roots@, path@);
                        assert forall|k: (u64, u64)| #[trigger]
                            self.entries().contains_key(k) && oracle.dsc(k.0, hash) implies exists|
                            i: int,
                        |
                            0 <= i < path@.len() && ((#[trigger] nodes[i]).hash, nodes[i].number)
                                == k by {
                            assert(d(k.0, hash));
                            if !(exists|i: int|
                                0 <= i < path@.len() && ((#[trigger] nodes[i]).hash,
                                nodes[i].number) == k) {
                                assert(node_entries(*cur).contains_key(k) && k != (cur.hash,
                                cur.number));
                                assert(seq_entries(cur.children@).contains_key(k));
                                assert(!d(k.0, hash));
                            }
                        }
                        assert(located(*self, hash, number, oracle, path@));
                    }
                    return Ok(path);
                },
                Ok(Some(j)) => j,
            };
            let child: &Node<V> = &cur.children[j];
            proof {
                let cs = cur.children@;
                let ck = (child.hash, child.number);
                assert(node_entries(*child).contains_key(ck));
                lemma_seq_entries_get(cs, ck, j as int);
                assert(node_entries(*cur).contains_key(ck));
                assert(d(cur.hash, child.hash) && cur.number < child.number);
                lemma_group_step(cs, j as int, d, hash);
                // everything in the child's subtree is also in the forest
                assert forall|k: (u64, u64)| #[trigger]
                    node_entries(*child).contains_key(k) implies self.entries().contains_key(k)
                    && self.entries()[k] == node_entries(*child)[k] by {
                    lemma_seq_entries_get(cs, k, j as int);
                    assert(seq_entries(cs).contains_key(k));
                    assert(!d(cur.hash, cur.hash));
                    assert(k != (cur.hash, cur.number));
                    assert(node_entries(*cur).contains_key(k));
                }
                lemma_path_push(self.roots@, path@, j);
                let nodes_old = path_nodes(self.roots@, path@);
                let p2 = path@.push(j);
                let nodes_new = path_nodes(self.roots@, p2);
                assert(nodes_new == nodes_old.push(*child));
                assert(nodes_new.last() == *child);
                assert forall|k: (u64, u64)| #[trigger]
                    self.entries().contains_key(k) && d(k.0, hash) implies (exists|i: int|
                    0 <= i < p2.len() && ((#[trigger] nodes_new[i]).hash, nodes_new[i].number)
                        == k) || (node_entries(*child).contains_key(k) && k != (child.hash,
                child.number)) by {
                    if exists|i: int|
                        0 <= i < path@.len() && ((#[trigger] nodes_old[i]).hash,
                        nodes_old[i].number) == k {
                        let i = choose|i: int|
                            0 <= i < path@.len() && ((#[trigger] nodes_old[i]).hash,
                            nodes_old[i].number) == k;
                        assert(nodes_new[i] == nodes_old[i]);
                        assert(0 <= i < p2.len() && ((nodes_new[i]).hash, nodes_new[i].number)
                            == k);
                    } else {
                        // by the completeness invariant, k sits strictly
                        // below the walk node, hence within the child by the
                        // step lemma
                        assert(node_entries(*cur).contains_key(k) && k != (cur.hash, cur.number));
                        assert(seq_entries(cur.children@).contains_key(k));
                        assert(node_entries(*child).contains_key(k));
                        if k == (child.hash, child.number) {
                            let last_i = p2.len() - 1;
                            assert(nodes_new[last_i] == *child);
                            assert(0 <= last_i < p2.len() && ((nodes_new[last_i]).hash,
                            nodes_new[last_i].number) == k);
                        }
                    }
                }
            }
            path.push(j);
            cur = child;
        }
    }

    /// Import the new block into the subtree rooted at an ancestor of it:
    /// descend into the one child that is also an ancestor, or attach the
    /// new node here, re-parenting children that descend from it.
    #[verifier::rlimit(60)]
    fn import_into<O: AncestryOracle>(
        n: &mut Node<V>,
        hash: u64,
        number: u64,
        data: V,
        oracle: &O,
    ) -> (r: Result<(), OracleError>)
        requires
            node_wf(*old(n), rel(oracle)),
            ancestry_consistent(rel(oracle)),
            oracle.dsc(old(n).hash, hash),
            old(n).number < number,
            subtree_compatible(node_entries(*old(n)), rel(oracle), hash, number),
        ensures
            r is Ok ==> forall|k: (u64, u64)|
                node_entries(*final(n)).contains_key(k) <==> (#[trigger] node_entries(
                    *old(n),
                ).contains_key(k) || k == (hash, number)),
            r is Ok ==> node_entries(*final(n)).contains_key((hash, number)) && node_entries(
                *final(n),
            )[(hash, number)] == data,
            r is Ok ==> forall|k: (u64, u64)| #[trigger]
                node_entries(*old(n)).contains_key(k) ==> node_entries(*final(n))[k]
                    == node_entries(*old(n))[k],
            r is Ok ==> node_wf(*final(n), rel(oracle)),
            final(n).hash == old(n).hash && final(n).number == old(n).number && final(n).data
                == old(n).data,
            r is Err ==> node_entries(*final(n)) == node_entries(*old(n)) && node_wf(
                *final(n),
                rel(oracle),
            ) && !oracle_total(oracle),
            oracle_total(oracle) ==> r is Ok,
        decreases *old(n),
    {
        let ghost d = rel(oracle);
        let j_opt = match Self::scan_group(&n.children, hash, number, oracle) {
            Err(e) => {
                return Err(e);
            },
            Ok(x) => x,
        };
        match j_opt {
            Some(j) => {
                let ghost old_children = n.children@;
                let ghost child0 = n.children@[j as int];
                proof {
                    assert(decreases_to!(*n => n.children));
                    assert(decreases_to!(n.children => n.children@[j as int]));
                    let ck = (child0.hash, child0.number);
                    assert(node_entries(child0).contains_key(ck));
                    lemma_seq_entries_get(old_children, ck, j as int);
                    assert(node_entries(*n).contains_key(ck));
                    assert forall|k: (u64, u64)| #[trigger]
                        node_entries(child0).contains_key(k) implies node_entries(*n).contains_key(
                        k,
                    ) && node_entries(*n)[k] == node_entries(child0)[k] by {
                        lemma_seq_entries_get(old_children, k, j as int);
                        assert(!d(child0.hash, child0.hash));
                        assert(k != (n.hash, n.number));
                    }
                }
                let res = Self::import_into(&mut n.children[j], hash, number, data, oracle);
                match res {
                    Err(e) => {
                        proof {
                            let child1 = n.children@[j as int];
                            lemma_seq_entries_update_same(old_children, j as int, child1);
                            assert(n.children@ == old_children.update(j as int, child1));
                            assert(node_entries(*n) =~= node_entries(*old(n)));
                            assert(separated(n.children@)) by {
                                assert forall|x: int, y: int, k1: (u64, u64), k2: (u64, u64)|
                                    0 <= x < n.children@.len() && 0 <= y < n.children@.len() && x
                                        != y && #[trigger] node_entries(
                                        n.children@[x],
                                    ).contains_key(k1) && #[trigger] node_entries(
                                        n.children@[y],
                                    ).contains_key(k2) implies k1.0 != k2.0 by {
                                    assert(node_entries(old_children[x]).contains_key(k1));
                                    assert(node_entries(old_children[y]).contains_key(k2));
                                }
                            }
                            assert(heads_unrelated(n.children@, d)) by {
                                assert forall|x: int, y: int|
                                    0 <= x < n.children@.len() && 0 <= y < n.children@.len() && x
                                        != y implies !d(
                                    n.children@[x].hash,
                                    n.children@[y].hash,
                                ) by {
                                    assert(n.children@[x].hash == old_children[x].hash);
                                    assert(n.children@[y].hash == old_children[y].hash);
                                }
                            }
                            assert forall|i2: int| 0 <= i2 < n.children@.len() implies node_wf(
                                #[trigger] n.children@[i2],
                                d,
                            ) by {
                                if i2 != j {
                                    assert(n.children@[i2] == old_children[i2]);
                                }
                            }
                            assert(node_wf(*n, d));
                        }
                        Err(e)
                    },
                    Ok(()) => {
                        proof {
                            let child1 = n.children@[j as int];
                            let k0 = (hash, number);
                            assert(!seq_entries(old_children).contains_key(k0)) by {
                                if seq_entries(old_children).contains_key(k0) {
                                    assert(node_entries(*old(n)).contains_key(k0));
                                }
                            }
                            lemma_seq_entries_update(old_children, j as int, child1, k0);
                            assert(n.children@ == old_children.update(j as int, child1));
                            // the node's entries gain exactly the new key
                            assert forall|k: (u64, u64)|
                                node_entries(*n).contains_key(k) <==> (#[trigger] node_entries(
                                    *old(n),
                                ).contains_key(k) || k == k0) by {
                                let a = seq_entries(old_children).contains_key(k);
                                let b = seq_entries(n.children@).contains_key(k);
                            }
                            assert(node_entries(*n).contains_key(k0) && node_entries(*n)[k0]
                                == data) by {
                                assert(seq_entries(n.children@).contains_key(k0));
                                assert(seq_entries(n.children@)[k0] == node_entries(child1)[k0]);
                                assert(k0 != (n.hash, n.number));
                            }
                            assert forall|k: (u64, u64)| #[trigger]
                                node_entries(*old(n)).contains_key(k) implies node_entries(*n)[k]
                                == node_entries(*old(n))[k] by {
                                if k != (n.hash, n.number) {
                                    assert(seq_entries(old_children).contains_key(k));
                                    assert(k != k0);
                                    assert(seq_entries(n.children@)[k] == seq_entries(
                                        old_children,
                                    )[k]);
                                }
                            }
                            // well-formedness is preserved
                            assert(separated(n.children@)) by {
                                assert forall|x: int, y: int, k1: (u64, u64), k2: (u64, u64)|
                                    0 <= x < n.children@.len() && 0 <= y < n.children@.len() && x
                                        != y && #[trigger] node_entries(
                                        n.children@[x],
                                    ).contains_key(k1) && #[trigger] node_entries(
                                        n.children@[y],
                                    ).contains_key(k2) implies k1.0 != k2.0 by {
                                    if x == j {
                                        if k1 != k0 {
                                            assert(node_entries(old_children[x]).contains_key(k1));
                                        } else {
                                            lemma_seq_entries_get(old_children, k2, y);
                                            assert(node_entries(*old(n)).contains_key(k2));
                                        }
                                    } else if y == j {
                                        if k2 != k0 {
                                            assert(node_entries(old_children[y]).contains_key(k2));
                                        } else {
                                            lemma_seq_entries_get(old_children, k1, x);
                                            assert(node_entries(*old(n)).contains_key(k1));
                                        }
                                    }
                                }
                            }
                            assert(heads_unrelated(n.children@, d)) by {
                                assert forall|x: int, y: int|
                                    0 <= x < n.children@.len() && 0 <= y < n.children@.len() && x
                                        != y implies !d(
                                    n.children@[x].hash,
                                    n.children@[y].hash,
                                ) by {
                                    assert(n.children@[x].hash == old_children[x].hash);
                                    assert(n.children@[y].hash == old_children[y].hash);
                                }
                            }
                            assert forall|k: (u64, u64)| #[trigger]
                                seq_entries(n.children@).contains_key(k) implies d(n.hash, k.0)
                                && n.number < k.1 by {
                                if k == k0 {
                                    assert(d(n.hash, hash) && n.number < number);
                                } else {
                                    assert(seq_entries(old_children).contains_key(k));
                                    assert(node_entries(*old(n)).contains_key(k));
                                }
                            }
                            assert forall|i2: int| 0 <= i2 < n.children@.len() implies node_wf(
                                #[trigger] n.children@[i2],
                                d,
                            ) by {
                                if i2 != j {
                                    assert(n.children@[i2] == old_children[i2]);
                                }
                            }
                            assert(node_wf(*n, d));
                        }
                        Ok(())
                    },
                }
            },
            None => {
                let flags = match Self::flag_group(&n.children, hash, number, oracle) {
                    Err(e) => {
                        return Err(e);
                    },
                    Ok(f) => f,
                };
                let ghost old_children = n.children@;
                proof {
                    assert forall|m: int| 0 <= m < old_children.len() implies !d(
                        (#[trigger] old_children[m]).hash,
                        hash,
                    ) by {
                        let ck = (old_children[m].hash, old_children[m].number);
                        assert(node_entries(old_children[m]).contains_key(ck));
                        lemma_seq_entries_get(old_children, ck, m);
                        assert(node_entries(*old(n)).contains_key(ck));
                    }
                    assert forall|k: (u64, u64)| #[trigger]
                        seq_entries(old_children).contains_key(k) implies (d(k.0, hash) ==> k.1
                        < number) && (d(hash, k.0) ==> number < k.1) && k.0 != hash by {
                        assert(node_entries(*old(n)).contains_key(k));
                    }
                }
                Self::insert_group(&mut n.children, hash, number, data, &flags, Ghost(d));
                proof {
                    let k0 = (hash, number);
                    assert forall|k: (u64, u64)|
                        node_entries(*n).contains_key(k) <==> (#[trigger] node_entries(
                            *old(n),
                        ).contains_key(k) || k == k0) by {
                        let a = seq_entries(old_children).contains_key(k);
                        let b = seq_entries(n.children@).contains_key(k);
                    }
                    assert(node_entries(*n).contains_key(k0) && node_entries(*n)[k0] == data) by {
                        assert(seq_entries(n.children@).contains_key(k0));
                        assert(k0 != (n.hash, n.number));
                    }
                    assert forall|k: (u64, u64)| #[trigger]
                        node_entries(*old(n)).contains_key(k) implies node_entries(*n)[k]
                        == node_entries(*old(n))[k] by {
                        if k != (n.hash, n.number) {
                            assert(seq_entries(old_children).contains_key(k));
                            assert(seq_entries(n.children@)[k] == seq_entries(old_children)[k]);
                        }
                    }
                    assert forall|k: (u64, u64)| #[trigger]
                        seq_entries(n.children@).contains_key(k) implies d(n.hash, k.0) && n.number
                        < k.1 by {
                        if k == k0 {
                            assert(d(n.hash, hash) && n.number < number);
                        } else {
                            assert(seq_entries(old_children).contains_key(k));
                            assert(node_entries(*old(n)).contains_key(k));
                        }
                    }
                    assert(separated(n.children@));
                    assert(heads_unrelated(n.children@, d));
                    assert(forall|i: int|
                        0 <= i < n.children@.len() ==> node_wf(#[trigger] n.children@[i], d));
                    assert(node_wf(*n, d));
                }
                Ok(())
            },
        }
    }

    /// Find the deepest recorded ancestor of the query point (`hash`,
    /// `number`) whose payload satisfies the predicate.  Ancestry is strict:
    /// a node equal to the query point is not a candidate.
    #[verifier::rlimit(60)]
    pub fn find_node_where<'a, O: AncestryOracle, P: PayloadPredicate<V>>(
        &'a self,
        hash: u64,
        number: u64,
        oracle: &O,
        predicate: &P,
    ) -> (r: Result<Option<&'a Node<V>>, OracleError>)
        requires
            self.wf(rel(oracle)),
            ancestry_consistent(rel(oracle)),
            query_compatible(self.entries(), rel(oracle), hash, number),
        ensures
            r matches Ok(Some(nd)) ==> {
                &&& self.entries().contains_key((nd.hash, nd.number))
                &&& self.entries()[(nd.hash, nd.number)] == nd.data
                &&& oracle.dsc(nd.hash, hash)
                &&& nd.number < number
                &&& predicate.holds(nd.data)
                &&& forall|k: (u64, u64)| #[trigger]
                    self.entries().contains_key(k) && oracle.dsc(k.0, hash) && predicate.holds(
                        self.entries()[k],
                    ) ==> k.1 <= nd.number && (k.1 == nd.number ==> k == (nd.hash, nd.number))
            },
            r matches Ok(None) ==> forall|k: (u64, u64)| #[trigger]
                self.entries().contains_key(k) ==> !(oracle.dsc(k.0, hash) && predicate.holds(
                    self.entries()[k],
                )),
            r is Err ==> !oracle_total(oracle),
            oracle_total(oracle) ==> r is Ok,
    {
        let ghost d = rel(oracle);
        let path = match self.locate(hash, number, oracle) {
            Err(e) => {
                return Err(e);
            },
            Ok(p) => p,
        };
        let ghost nodes = path_nodes(self.roots@, path@);
        if path.len() == 0 {
            return Ok(None);
        }
        let i0 = path[0];
        proof {
            assert(nodes[0] == self.roots@[i0 as int]);
            assert((i0 as int) < self.roots@.len());
        }
        let mut cur: &Node<V> = &self.roots[i0];
        let mut idx: usize = 0;
        let mut best: Option<&'a Node<V>> = None;
        let ghost mut best_i: int = 0;
        loop
            invariant
                located(*self, hash, number, oracle, path@),
                nodes == path_nodes(self.roots@, path@),
                path@.len() > 0,
                nodes.len() == path@.len(),
                0 <= idx < path@.len(),
                *cur == nodes[idx as int],
                best matches Some(nd) ==> 0 <= best_i < idx && *nd == nodes[best_i]
                    && predicate.holds(nd.data),
                forall|m: int|
                    0 <= m < idx && predicate.holds((#[trigger] nodes[m]).data) ==> (best matches
                    Some(nd2) && m <= best_i),
            decreases path@.len() - idx,
        {
            if predicate.check(&cur.data) {
                best = Some(cur);
                proof {
                    best_i = idx as int;
                }
            }
            if idx < path.len() - 1 {
                proof {
                    lemma_path_step(self.roots@, path@, idx as int);
                }
                let j = path[idx + 1];
                proof {
                    assert((j as int) < cur.children@.len());
                }
                cur = &cur.children[j];
                idx = idx + 1;
            } else {
                proof {
                    assert(idx == path@.len() - 1);
                    if best is Some {
                        let nd = best->0;
                        assert forall|k: (u64, u64)| #[trigger]
                            self.entries().contains_key(k) && oracle.dsc(k.0, hash)
                            && predicate.holds(self.entries()[k]) implies k.1 <= nd.number && (k.1
                            == nd.number ==> k == (nd.hash, nd.number)) by {
                            let m = choose|m: int|
                                0 <= m < path@.len() && ((#[trigger] nodes[m]).hash,
                                nodes[m].number) == k;
                            assert(predicate.holds(nodes[m].data));
                            assert(m <= best_i);
                        }
                    } else {
                        assert forall|k: (u64, u64)| #[trigger]
                            self.entries().contains_key(k) implies !(oracle.dsc(k.0, hash)
                            && predicate.holds(self.entries()[k])) by {
                            if oracle.dsc(k.0, hash) && predicate.holds(self.entries()[k]) {
                                let m = choose|m: int|
                                    0 <= m < path@.len() && ((#[trigger] nodes[m]).hash,
                                    nodes[m].number) == k;
                                assert(predicate.holds(nodes[m].data));
                            }
                        }
                    }
                }
                return Ok(best);
            }
        }
    }

    /// Keep only the members of a group flagged as the finalized block's own
    /// node or as descending from it, dropping the rest.  Returns whether
    /// anything was dropped.
    #[verifier::rlimit(60)]
    fn retain_group(
        group: &mut Vec<Node<V>>,
        hash: u64,
        number: u64,
        flags: &Vec<bool>,
        Ghost(d): Ghost<spec_fn(u64, u64) -> bool>,
    ) -> (r: bool)
        requires
            ancestry_consistent(d),
            flags@.len() == old(group)@.len(),
            forall|m: int|
                0 <= m < old(group)@.len() ==> flags@[m] == (((#[trigger] old(
                    group,
                )@[m]).hash, old(group)@[m].number) == (hash, number) || d(
                    hash,
                    old(group)@[m].hash,
                )),
            forall|m: int| 0 <= m < old(group)@.len() ==> !d((#[trigger] old(group)@[m]).hash, hash),
            separated(old(group)@),
            heads_unrelated(old(group)@, d),
            forall|i: int| 0 <= i < old(group)@.len() ==> node_wf(#[trigger] old(group)@[i], d),
            forall|k: (u64, u64)| #[trigger]
                seq_entries(old(group)@).contains_key(k) ==> (k.0 == hash ==> k == (hash, number)),
        ensures
            forall|k: (u64, u64)|
                seq_entries(final(group)@).contains_key(k) <==> (#[trigger] seq_entries(
                    old(group)@,
                ).contains_key(k) && (k == (hash, number) || d(hash, k.0))),
            forall|k: (u64, u64)| #[trigger]
                seq_entries(final(group)@).contains_key(k) ==> seq_entries(final(group)@)[k]
                    == seq_entries(old(group)@)[k],
            separated(final(group)@),
            heads_unrelated(final(group)@, d),
            forall|i: int| 0 <= i < final(group)@.len() ==> node_wf(#[trigger] final(group)@[i], d),
            r == exists|m: int| 0 <= m < old(group)@.len() && !flags@[m],
            !r ==> final(group)@ == old(group)@,
    {
        let ghost g0 = group@;
        let mut rest: Vec<Node<V>> = Vec::new();
        core::mem::swap(group, &mut rest);
        let total: usize = rest.len();
        let mut kept: Vec<Node<V>> = Vec::new();
        let mut dropped = false;
        let mut i: usize = 0;
        while rest.len() > 0
            invariant
                ancestry_consistent(d),
                g0.len() == total,
                i + rest@.len() == g0.len(),
                rest@ == g0.subrange(i as int, g0.len() as int),
                flags@.len() == g0.len(),
                forall|m: int|
                    0 <= m < g0.len() ==> flags@[m] == (((#[trigger] g0[m]).hash,
                    g0[m].number) == (hash, number) || d(hash, g0[m].hash)),
                forall|m: int| 0 <= m < g0.len() ==> !d((#[trigger] g0[m]).hash, hash),
                separated(g0),
                heads_unrelated(g0, d),
                forall|m: int| 0 <= m < g0.len() ==> node_wf(#[trigger] g0[m], d),
                separated(kept@),
                heads_unrelated(kept@, d),
                forall|a: int| 0 <= a < kept@.len() ==> node_wf(#[trigger] kept@[a], d),
                forall|j: int, k1: (u64, u64), k2: (u64, u64)|
                    i <= j < g0.len() && #[trigger] seq_entries(kept@).contains_key(k1)
                        && #[trigger] node_entries(g0[j]).contains_key(k2) ==> k1.0 != k2.0,
                forall|a: int, j: int|
                    0 <= a < kept@.len() && i <= j < g0.len() ==> !d(
                        (#[trigger] kept@[a]).hash,
                        (#[trigger] g0[j]).hash,
                    ) && !d(g0[j].hash, kept@[a].hash),
                forall|k: (u64, u64)|
                    #![trigger seq_entries(kept@).contains_key(k)]
                    seq_entries(kept@).contains_key(k) <==> exists|j: int|
                        0 <= j < i && flags@[j] && #[trigger] node_entries(g0[j]).contains_key(k),
                forall|k: (u64, u64)| #[trigger]
                    seq_entries(kept@).contains_key(k) ==> seq_entries(g0).contains_key(k)
                        && seq_entries(kept@)[k] == seq_entries(g0)[k],
                dropped == exists|m: int| 0 <= m < i && !flags@[m],
                !dropped ==> kept@ == g0.subrange(0, i as int),
            decreases rest@.len(),
        {
            let nd = rest.remove(0);
            let ghost old_kept = kept@;
            proof {
                assert(nd == g0[i as int]);
                assert(rest@ =~= g0.subrange(i as int + 1, g0.len() as int));
                assert forall|k: (u64, u64)| #[trigger]
                    node_entries(nd).contains_key(k) implies seq_entries(g0).contains_key(k)
                    && seq_entries(g0)[k] == node_entries(nd)[k] by {
                    lemma_seq_entries_get(g0, k, i as int);
                }
                assert forall|k: (u64, u64)| #[trigger]
                    node_entries(nd).contains_key(k) implies !seq_entries(old_kept).contains_key(
                    k,
                ) by {
                    assert(node_entries(g0[i as int]).contains_key(k));
                }
            }
            if flags[i] {
                kept.push(nd);
                proof {
                    if !dropped {
                        assert(kept@ =~= g0.subrange(0, i as int + 1));
                    }
                }
                proof {
                    lemma_seq_entries_push(old_kept, nd);
                    assert forall|a: int, b: int|
                        #![trigger kept@[a], kept@[b]]
                        0 <= a < kept@.len() && 0 <= b < kept@.len() && a != b implies (forall|
                        k1: (u64, u64),
                        k2: (u64, u64),
                    |
                        #[trigger] node_entries(kept@[a]).contains_key(k1)
                            && #[trigger] node_entries(kept@[b]).contains_key(k2) ==> k1.0
                            != k2.0) by {
                        assert forall|k1: (u64, u64), k2: (u64, u64)|
                            #[trigger] node_entries(kept@[a]).contains_key(k1)
                                && #[trigger] node_entries(kept@[b]).contains_key(
                            k2,
                        ) implies k1.0 != k2.0 by {
                            if b == kept@.len() - 1 {
                                lemma_seq_entries_get(old_kept, k1, a);
                            } else if a == kept@.len() - 1 {
                                lemma_seq_entries_get(old_kept, k2, b);
                            }
                        }
                    }
                    assert forall|a: int, b: int|
                        0 <= a < kept@.len() && 0 <= b < kept@.len() && a != b implies !d(
                        kept@[a].hash,
                        kept@[b].hash,
                    ) by {
                        if b == kept@.len() - 1 {
                            assert(!d(old_kept[a].hash, g0[i as int].hash));
                        } else if a == kept@.len() - 1 {
                            assert(!d(g0[i as int].hash, old_kept[b].hash));
                        }
                    }
                    assert forall|j: int, k1: (u64, u64), k2: (u64, u64)|
                        i + 1 <= j < g0.len() && #[trigger] seq_entries(kept@).contains_key(k1)
                            && #[trigger] node_entries(g0[j]).contains_key(k2) implies k1.0
                        != k2.0 by {
                        if node_entries(nd).contains_key(k1) {
                            assert(node_entries(g0[i as int]).contains_key(k1));
                        } else {
                            assert(seq_entries(old_kept).contains_key(k1));
                        }
                    }
                    assert forall|a: int, j: int|
                        0 <= a < kept@.len() && i + 1 <= j < g0.len() implies !d(
                        (#[trigger] kept@[a]).hash,
                        (#[trigger] g0[j]).hash,
                    ) && !d(g0[j].hash, kept@[a].hash) by {
                        if a == kept@.len() - 1 {
                            assert(kept@[a] == g0[i as int]);
                        }
                    }
                    assert forall|k: (u64, u64)|
                        #![trigger seq_entries(kept@).contains_key(k)]
                        seq_entries(kept@).contains_key(k) <==> exists|j: int|
                            0 <= j < i + 1 && flags@[j] && #[trigger] node_entries(
                                g0[j],
                            ).contains_key(k) by {
                        if seq_entries(kept@).contains_key(k) {
                            if node_entries(nd).contains_key(k) {
                                assert(flags@[i as int] && node_entries(g0[i as int]).contains_key(
                                    k,
                                ));
                            } else {
                                assert(seq_entries(old_kept).contains_key(k));
                                let j = choose|j: int|
                                    0 <= j < i && flags@[j] && #[trigger] node_entries(
                                        g0[j],
                                    ).contains_key(k);
                                assert(0 <= j < i + 1 && flags@[j] && node_entries(
                                    g0[j],
                                ).contains_key(k));
                            }
                        }
                        if exists|j: int|
                            0 <= j < i + 1 && flags@[j] && #[trigger] node_entries(
                                g0[j],
                            ).contains_key(k) {
                            let j = choose|j: int|
                                0 <= j < i + 1 && flags@[j] && #[trigger] node_entries(
                                    g0[j],
                                ).contains_key(k);
                            if j < i {
                                assert(seq_entries(old_kept).contains_key(k));
                            } else {
                                assert(node_entries(nd).contains_key(k));
                            }
                        }
                    }
                    assert forall|k: (u64, u64)| #[trigger]
                        seq_entries(kept@).contains_key(k) implies seq_entries(g0).contains_key(k)
                        && seq_entries(kept@)[k] == seq_entries(g0)[k] by {
                        if node_entries(nd).contains_key(k) {
                            assert(seq_entries(kept@)[k] == node_entries(nd)[k]);
                        } else {
                            assert(seq_entries(old_kept).contains_key(k));
                            assert(seq_entries(kept@)[k] == seq_entries(old_kept)[k]);
                        }
                    }
                }
            } else {
                dropped = true;
            }
            i = i + 1;
        }
        proof {
            assert(i == g0.len());
            // a key survives exactly when it is the finalized block's own or
            // descends from it
            assert forall|k: (u64, u64)|
                seq_entries(kept@).contains_key(k) <==> (#[trigger] seq_entries(g0).contains_key(k)
                    && (k == (hash, number) || d(hash, k.0))) by {
                if seq_entries(kept@).contains_key(k) {
                    let j = choose|j: int|
                        0 <= j < g0.len() && flags@[j] && #[trigger] node_entries(
                            g0[j],
                        ).contains_key(k);
                    lemma_seq_entries_get(g0, k, j);
                    let head = g0[j];
                    if k != (head.hash, head.number) {
                        assert(seq_entries(head.children@).contains_key(k));
                        assert(d(head.hash, k.0));
                    }
                }
                if seq_entries(g0).contains_key(k) && (k == (hash, number) || d(hash, k.0)) {
                    lemma_seq_entries_key(g0, k);
                    let m = choose|m: int|
                        0 <= m < g0.len() && #[trigger] node_entries(g0[m]).contains_key(k);
                    let head = g0[m];
                    assert(node_entries(head).contains_key((head.hash, head.number)));
                    lemma_seq_entries_get(g0, (head.hash, head.number), m);
                    if k == (head.hash, head.number) {
                        assert(flags@[m]);
                    } else {
                        assert(seq_entries(head.children@).contains_key(k));
                        assert(d(head.hash, k.0));
                        // the subtree head is the block itself, a descendant
                        // of it, or an ancestor of it; the last is excluded
                        if head.hash == hash {
                            assert((head.hash, head.number) == (hash, number));
                            assert(flags@[m]);
                        } else if k.0 == hash {
                            assert(k == (hash, number));
                            assert(d(head.hash, hash));
                            assert(false);
                        } else {
                            assert(d(hash, k.0) && d(head.hash, k.0));
                            if d(head.hash, hash) {
                                assert(false);
                            }
                            assert(flags@[m]);
                        }
                    }
                }
            }
        }
        proof {
            if !dropped {
                assert(kept@ =~= g0);
            }
        }
        core::mem::swap(group, &mut kept);
        dropped
    }

    /// Prune the forest for a newly finalized block (`hash`, `number`):
    /// discard every node that neither is that block, nor descends from it,
    /// nor is its most recent recorded ancestor.  That single ancestor, when
    /// one exists, is retained as the root, with the surviving nodes beneath
    /// it.  Returns whether any node was discarded.
    #[verifier::rlimit(100)]
    pub fn finalize<O: AncestryOracle>(
        &mut self,
        hash: u64,
        number: u64,
        oracle: &O,
    ) -> (r: Result<bool, OracleError>)
        requires
            old(self).wf(rel(oracle)),
            ancestry_consistent(rel(oracle)),
            query_compatible(old(self).entries(), rel(oracle), hash, number),
            forall|k: (u64, u64)| #[trigger]
                old(self).entries().contains_key(k) ==> (k.0 == hash ==> k == (hash, number)),
        ensures
            r is Ok ==> forall|k: (u64, u64)| #[trigger]
                final(self).entries().contains_key(k) ==> old(self).entries().contains_key(k)
                    && final(self).entries()[k] == old(self).entries()[k],
            r is Ok ==> forall|k: (u64, u64)| #[trigger]
                final(self).entries().contains_key(k) ==> oracle.dsc(k.0, hash) || k.0 == hash
                    || oracle.dsc(hash, k.0),
            r is Ok ==> forall|k: (u64, u64), k2: (u64, u64)|
                #[trigger] final(self).entries().contains_key(k) && oracle.dsc(k.0, hash)
                    && #[trigger] old(self).entries().contains_key(k2) && oracle.dsc(k2.0, hash)
                    ==> k2 == k || oracle.dsc(k2.0, k.0),
            r is Ok ==> forall|k: (u64, u64)| #[trigger]
                old(self).entries().contains_key(k) && (k == (hash, number) || oracle.dsc(
                    hash,
                    k.0,
                )) ==> final(self).entries().contains_key(k),
            r is Ok && (exists|k: (u64, u64)| #[trigger]
                old(self).entries().contains_key(k) && oracle.dsc(k.0, hash)) ==> exists|
                k: (u64, u64),
            | #[trigger] final(self).entries().contains_key(k) && oracle.dsc(k.0, hash),
            r is Ok ==> final(self).wf(rel(oracle)),
            r matches Ok(b) && !b ==> final(self).entries() == old(self).entries() && group_keys(
                final(self).roots@,
            ) == group_keys(old(self).roots@),
            r matches Ok(b) && b ==> exists|k: (u64, u64)| #[trigger]
                old(self).entries().contains_key(k) && !final(self).entries().contains_key(k),
            r is Err ==> final(self).roots@ == old(self).roots@ && !oracle_total(oracle),
            oracle_total(oracle) ==> r is Ok,
    {
        let ghost d = rel(oracle);
        let path = match self.locate(hash, number, oracle) {
            Err(e) => {
                return Err(e);
            },
            Ok(p) => p,
        };
        let ghost nodes = path_nodes(self.roots@, path@);
        if path.len() == 0 {
            // no recorded ancestor: keep exactly the roots that are the
            // finalized block or descend from it
            let mut flags: Vec<bool> = Vec::new();
            let mut m: usize = 0;
            while m < self.roots.len()
                invariant
                    self.roots@ == old(self).roots@,
                    m <= self.roots@.len(),
                    flags@.len() == m,
                    d == rel(oracle),
                    forall|x: int|
                        0 <= x < m ==> flags@[x] == (((#[trigger] self.roots@[x]).hash,
                        self.roots@[x].number) == (hash, number) || d(hash, self.roots@[x].hash)),
                decreases self.roots@.len() - m,
            {
                let rt = &self.roots[m];
                let flag = if rt.hash == hash && rt.number == number {
                    true
                } else {
                    match oracle.is_descendant_of(hash, rt.hash) {
                        Err(e) => {
                            return Err(e);
                        },
                        Ok(b) => b,
                    }
                };
                flags.push(flag);
                m = m + 1;
            }
            let ghost old_roots = self.roots@;
            proof {
                assert forall|k: (u64, u64)| #[trigger]
                    seq_entries(old_roots).contains_key(k) implies (k.0 == hash ==> k == (
                hash,
                number,
                )) by {}
            }
            let dropped = Self::retain_group(&mut self.roots, hash, number, &flags, Ghost(d));
            proof {
                if !dropped {
                    assert(self.roots@ == old_roots);
                }
                if dropped {
                    let mm = choose|mm: int| 0 <= mm < old_roots.len() && !flags@[mm];
                    let hk = (old_roots[mm].hash, old_roots[mm].number);
                    assert(node_entries(old_roots[mm]).contains_key(hk));
                    lemma_seq_entries_get(old_roots, hk, mm);
                    assert(!self.entries().contains_key(hk)) by {
                        if self.entries().contains_key(hk) {
                            assert(hk == (hash, number) || d(hash, hk.0));
                        }
                    }
                    assert(old(self).entries().contains_key(hk) && !self.entries().contains_key(
                        hk,
                    ));
                }
                assert forall|k: (u64, u64)| #[trigger]
                    self.entries().contains_key(k) implies (seq_entries(old_roots).contains_key(k)
                    && (k == (hash, number) || d(hash, k.0)) && (d(k.0, hash) || k.0 == hash || d(
                    hash,
                    k.0,
                )) && !d(k.0, hash)) by {
                    assert(seq_entries(old_roots).contains_key(k) && (k == (hash, number) || d(
                        hash,
                        k.0,
                    )));
                }
                assert(!(exists|k: (u64, u64)| #[trigger]
                    old(self).entries().contains_key(k) && oracle.dsc(k.0, hash))) by {
                    if exists|k: (u64, u64)| #[trigger]
                        old(self).entries().contains_key(k) && oracle.dsc(k.0, hash) {
                        let k = choose|k: (u64, u64)| #[trigger]
                            old(self).entries().contains_key(k) && oracle.dsc(k.0, hash);
                        assert(exists|i: int|
                            0 <= i < path@.len() && ((#[trigger] path_nodes(
                                self.roots@,
                                path@,
                            )[i]).hash, path_nodes(self.roots@, path@)[i].number) == k);
                    }
                }
                assert(self.wf(d));
            }
            return Ok(dropped);
        }
        // walk to the deepest recorded ancestor, collecting which of its
        // children survive
        let ghost anc = nodes.last();
        let mut cur: &Node<V> = &self.roots[path[0]];
        let mut idx: usize = 0;
        proof {
            assert(nodes[0] == self.roots@[path@[0] as int]);
        }
        while idx < path.len() - 1
            invariant
                self.roots@ == old(self).roots@,
                located(*self, hash, number, oracle, path@),
                d == rel(oracle),
                nodes == path_nodes(self.roots@, path@),
                path@.len() > 0,
                nodes.len() == path@.len(),
                0 <= idx < path@.len(),
                *cur == nodes[idx as int],
            decreases path@.len() - idx,
        {
            proof {
                lemma_path_step(self.roots@, path@, idx as int);
            }
            let j = path[idx + 1];
            cur = &cur.children[j];
            idx = idx + 1;
        }
        proof {
            assert(*cur == anc);
        }
        let mut flags: Vec<bool> = Vec::new();
        let mut m: usize = 0;
        while m < cur.children.len()
            invariant
                self.roots@ == old(self).roots@,
                m <= cur.children@.len(),
                flags@.len() == m,
                d == rel(oracle),
                *cur == anc,
                forall|x: int|
                    0 <= x < m ==> flags@[x] == (((#[trigger] cur.children@[x]).hash,
                    cur.children@[x].number) == (hash, number) || d(hash, cur.children@[x].hash)),
            decreases cur.children@.len() - m,
        {
            let c = &cur.children[m];
            let flag = if c.hash == hash && c.number == number {
                true
            } else {
                match oracle.is_descendant_of(hash, c.hash) {
                    Err(e) => {
                        return Err(e);
                    },
                    Ok(b) => b,
                }
            };
            flags.push(flag);
            m = m + 1;
        }
        // detach the ancestor from the forest, dropping everything above and
        // beside it
        let ghost old_tree = *self;
        let ghost old_roots = self.roots@;
        let ghost old_entries = self.entries();
        let mut work: Vec<Node<V>> = Vec::new();
        core::mem::swap(&mut self.roots, &mut work);
        let i0 = path[0];
        let mut owned: Node<V> = work.swap_remove(i0);
        let mut step: usize = 1;
        proof {
            assert(owned == nodes[0]);
        }
        while step < path.len()
            invariant
                located(old_tree, hash, number, oracle, path@),
                old_roots == old_tree.roots@,
                d == rel(oracle),
                nodes == path_nodes(old_roots, path@),
                nodes.len() == path@.len(),
                1 <= step <= path@.len(),
                owned == nodes[step - 1],
            decreases path@.len() - step,
        {
            proof {
                lemma_path_step(old_roots, path@, step - 1);
            }
            let j = path[step];
            let next: Node<V> = owned.children.swap_remove(j);
            owned = next;
            step = step + 1;
        }
        proof {
            assert(owned == anc);
            assert(node_wf(anc, d));
            assert forall|x: int| 0 <= x < owned.children@.len() implies !d(
                (#[trigger] owned.children@[x]).hash,
                hash,
            ) by {}
            assert forall|k: (u64, u64)| #[trigger]
                seq_entries(owned.children@).contains_key(k) implies (k.0 == hash ==> k == (
            hash,
            number,
            )) by {
                assert(node_entries(anc).contains_key(k));
                assert(old_entries.contains_key(k));
            }
        }
        let ghost anc_children = owned.children@;
        let dropped_children = Self::retain_group(
            &mut owned.children,
            hash,
            number,
            &flags,
            Ghost(d),
        );
        let ghost kc = owned.children@;
        proof {
            assert forall|k: (u64, u64)| #[trigger]
                seq_entries(kc).contains_key(k) implies seq_entries(anc_children).contains_key(k)
                && (k == (hash, number) || d(hash, k.0)) && seq_entries(kc)[k] == seq_entries(
                anc_children,
            )[k] by {
                assert(seq_entries(anc_children).contains_key(k) && (k == (hash, number) || d(
                    hash,
                    k.0,
                )));
            }
            assert forall|k: (u64, u64)| #[trigger]
                seq_entries(anc_children).contains_key(k) && (k == (hash, number) || d(
                    hash,
                    k.0,
                )) implies seq_entries(kc).contains_key(k) by {}
        }
        let pruned = dropped_children || work.len() > 0 || path.len() > 1;
        let mut new_roots: Vec<Node<V>> = Vec::new();
        new_roots.push(owned);
        core::mem::swap(&mut self.roots, &mut new_roots);
        proof {
            let a2 = self.roots@[0];
            assert(a2.children@ == kc);
            assert(self.roots@ =~= seq![a2]);
            assert(seq_entries(self.roots@) =~= node_entries(a2)) by {
                assert(self.roots@.drop_first() =~= Seq::<Node<V>>::empty());
                assert(seq_entries(Seq::<Node<V>>::empty()) =~= Map::<(u64, u64), V>::empty());
            }
            let ak = (anc.hash, anc.number);
            assert(a2.hash == anc.hash && a2.number == anc.number && a2.data == anc.data);
            // the surviving entries are the ancestor itself plus the
            // retained descendants
            assert forall|k: (u64, u64)| #[trigger]
                self.entries().contains_key(k) implies old_entries.contains_key(k)
                && self.entries()[k] == old_entries[k] && (d(k.0, hash) || k.0 == hash || d(
                hash,
                k.0,
            )) by {
                if k == ak {
                    assert(old_entries.contains_key(ak) && old_entries[ak] == anc.data);
                    assert(node_entries(a2)[ak] == a2.data);
                    assert(d(anc.hash, hash));
                } else {
                    assert(seq_entries(kc).contains_key(k));
                    assert(seq_entries(anc_children).contains_key(k));
                    assert(k == (hash, number) || d(hash, k.0));
                    assert(node_entries(anc).contains_key(k));
                    assert(old_entries.contains_key(k) && old_entries[k] == node_entries(anc)[k]);
                    assert(seq_entries(kc)[k] == seq_entries(anc_children)[k]);
                    assert(node_entries(anc)[k] == seq_entries(anc_children)[k]);
                }
            }
            // every surviving ancestor of the finalized block is the deepest
            assert forall|k: (u64, u64), k2: (u64, u64)|
                #[trigger] self.entries().contains_key(k) && d(k.0, hash) && #[trigger] old_entries.contains_key(
                    k2,
                ) && d(k2.0, hash) implies k2 == k || d(k2.0, k.0) by {
                assert(k == ak) by {
                    if k != ak {
                        assert(seq_entries(kc).contains_key(k));
                        assert(k == (hash, number) || d(hash, k.0));
                        assert(!d(k.0, hash));
                    }
                }
                let mi = choose|mi: int|
                    0 <= mi < path@.len() && ((#[trigger] nodes[mi]).hash, nodes[mi].number) == k2;
                if mi < path@.len() - 1 {
                    assert(d(nodes[mi].hash, nodes[path@.len() - 1].hash));
                }
            }
            // every recorded block that was the finalized block or descended
            // from it survives
            assert forall|k: (u64, u64)| #[trigger]
                old_entries.contains_key(k) && (k == (hash, number) || d(hash, k.0)) implies self.entries().contains_key(
                k,
            ) by {
                lemma_seq_entries_key(old_roots, k);
                let rm = choose|rm: int|
                    0 <= rm < old_roots.len() && #[trigger] node_entries(
                        old_roots[rm],
                    ).contains_key(k);
                lemma_group_step_desc(old_roots, path@[0] as int, d, hash, number);
                assert(node_entries(nodes[0]).contains_key(k));
                // push the key down the walk into the ancestor's subtree
                assert forall|st: int|
                    0 <= st < path@.len() - 1 && node_entries(#[trigger] nodes[st]).contains_key(
                        k,
                    ) implies node_entries(nodes[st + 1]).contains_key(k) by {
                    lemma_path_step(old_roots, path@, st);
                    assert(k != (nodes[st].hash, nodes[st].number)) by {
                        assert(d(nodes[st].hash, hash));
                    }
                    assert(seq_entries(nodes[st].children@).contains_key(k));
                    lemma_group_step_desc(
                        nodes[st].children@,
                        path@[st + 1] as int,
                        d,
                        hash,
                        number,
                    );
                }
                lemma_chain_down(nodes, k, path@.len() - 1);
                assert(node_entries(anc).contains_key(k));
                assert(k != ak) by {
                    assert(d(anc.hash, hash));
                }
                assert(seq_entries(anc_children).contains_key(k));
                assert(seq_entries(kc).contains_key(k));
            }
            assert(node_wf(a2, d)) by {
                assert forall|k: (u64, u64)| #[trigger]
                    seq_entries(a2.children@).contains_key(k) implies d(a2.hash, k.0) && a2.number
                    < k.1 by {
                    assert(seq_entries(anc_children).contains_key(k));
                    assert(node_entries(anc).contains_key(k));
                }
            }
            assert(self.wf(d)) by {
                assert(separated(self.roots@)) by {
                    assert forall|x: int, y: int, k1: (u64, u64), k2: (u64, u64)|
                        0 <= x < self.roots@.len() && 0 <= y < self.roots@.len() && x != y
                            && #[trigger] node_entries(self.roots@[x]).contains_key(k1)
                            && #[trigger] node_entries(self.roots@[y]).contains_key(
                            k2,
                        ) implies k1.0 != k2.0 by {}
                }
                assert(heads_unrelated(self.roots@, d));
            }
            assert(self.entries().contains_key(ak) && d(anc.hash, hash));
            // everything that survives lies within the detached ancestor's
            // old subtree
            assert forall|k: (u64, u64)| #[trigger]
                self.entries().contains_key(k) implies node_entries(anc).contains_key(k) by {
                if k != ak {
                    assert(seq_entries(kc).contains_key(k));
                    assert(seq_entries(anc_children).contains_key(k));
                }
            }
            if pruned {
                if dropped_children {
                    let mm = choose|mm: int| 0 <= mm < anc_children.len() && !flags@[mm];
                    let ck = (anc_children[mm].hash, anc_children[mm].number);
                    assert(node_entries(anc_children[mm]).contains_key(ck));
                    lemma_seq_entries_get(anc_children, ck, mm);
                    assert(node_entries(anc).contains_key(ck));
                    assert(old_entries.contains_key(ck));
                    assert(!self.entries().contains_key(ck)) by {
                        assert(d(anc.hash, ck.0));
                        assert(ck != ak);
                        if self.entries().contains_key(ck) {
                            assert(seq_entries(kc).contains_key(ck));
                            assert(ck == (hash, number) || d(hash, ck.0));
                        }
                    }
                } else {
                    // a whole other root, or an outgrown ancestor, was
                    // dropped; either way some old key is outside the
                    // ancestor's subtree or is a strict ancestor above it
                    assert forall|st: int|
                        0 <= st < path@.len() - 1 && node_entries(
                            #[trigger] nodes[st + 1],
                        ).contains_key(ak) implies node_entries(nodes[st]).contains_key(ak) by {
                        lemma_path_step(old_roots, path@, st);
                        lemma_seq_entries_get(nodes[st].children@, ak, path@[st + 1] as int);
                    }
                    assert(node_entries(anc).contains_key(ak));
                    lemma_chain_up(nodes, ak, path@.len() - 1);
                    assert(node_entries(nodes[0]).contains_key(ak));
                    if work.len() > 0 {
                        let j: int = if i0 == 0 {
                            1
                        } else {
                            0
                        };
                        let rk = (old_roots[j].hash, old_roots[j].number);
                        assert(node_entries(old_roots[j]).contains_key(rk));
                        lemma_seq_entries_get(old_roots, rk, j);
                        assert(!self.entries().contains_key(rk)) by {
                            if self.entries().contains_key(rk) {
                                // it would sit inside the kept subtree,
                                // which is hash-disjoint from its sibling
                                // root's subtree
                                assert forall|st: int|
                                    0 <= st < path@.len() - 1 && node_entries(
                                        #[trigger] nodes[st + 1],
                                    ).contains_key(rk) implies node_entries(
                                    nodes[st],
                                ).contains_key(rk) by {
                                    lemma_path_step(old_roots, path@, st);
                                    lemma_seq_entries_get(
                                        nodes[st].children@,
                                        rk,
                                        path@[st + 1] as int,
                                    );
                                }
                                if rk == ak {
                                    assert(node_entries(old_roots[i0 as int]).contains_key(ak));
                                    assert(false);
                                } else {
                                    assert(seq_entries(kc).contains_key(rk));
                                    assert(seq_entries(anc_children).contains_key(rk));
                                    assert(node_entries(anc).contains_key(rk));
                                    lemma_chain_up(nodes, rk, path@.len() - 1);
                                    assert(node_entries(old_roots[i0 as int]).contains_key(rk));
                                    assert(false);
                                }
                            }
                        }
                        assert(old_entries.contains_key(rk) && !self.entries().contains_key(rk));
                    } else {
                        assert(path@.len() > 1);
                        let k0 = (nodes[0].hash, nodes[0].number);
                        assert(old_entries.contains_key(k0));
                        assert(d(k0.0, hash));
                        assert(!self.entries().contains_key(k0)) by {
                            if self.entries().contains_key(k0) {
                                if k0 == ak {
                                    assert(d(nodes[0].hash, nodes[path@.len() - 1].hash));
                                    assert(false);
                                } else {
                                    assert(seq_entries(kc).contains_key(k0));
                                    assert(k0 == (hash, number) || d(hash, k0.0));
                                    assert(false);
                                }
                            }
                        }
                        assert(old_entries.contains_key(k0) && !self.entries().contains_key(k0));
                    }
                }
            }
            if !pruned {
                assert(old_roots.len() == 1 && path@[0] as int == 0 && path@.len() == 1);
                assert(nodes[0] == old_roots[0]);
                assert(anc == old_roots[0]);
                assert(kc == anc_children);
                assert(seq_entries(kc) =~= seq_entries(anc_children));
                assert(node_entries(a2) =~= node_entries(anc));
                assert(self.entries() =~= old_entries) by {
                    assert(old_roots =~= seq![anc]);
                    assert(old_roots.drop_first() =~= Seq::<Node<V>>::empty());
                    assert(seq_entries(Seq::<Node<V>>::empty()) =~= Map::<(u64, u64), V>::empty());
                    assert(seq_entries(old_roots) =~= node_entries(anc));
                }
                assert(group_keys(self.roots@) =~= group_keys(old_roots));
            }
        }
        Ok(pruned)
    }

    /// Insert a new node for the block (`hash`, `number`) carrying `data`.
    /// The node becomes a child of the deepest recorded ancestor of the
    /// block, or a new root if no recorded block is an ancestor; recorded
    /// nodes that descend from the new block are re-parented beneath it.
    ///
    /// Fails with `Error::Duplicate` exactly when the pair is already
    /// recorded, and with `Error::Oracle` when the ancestry oracle failed;
    /// in both cases the forest is unchanged.
    #[verifier::rlimit(60)]
    pub fn import<O: AncestryOracle>(
        &mut self,
        hash: u64,
        number: u64,
        data: V,
        oracle: &O,
    ) -> (r: Result<(), Error>)
        requires
            old(self).wf(rel(oracle)),
            ancestry_consistent(rel(oracle)),
            entry_compatible(old(self).entries(), rel(oracle), hash, number),
        ensures
            r == Err::<(), Error>(Error::Duplicate) <==> old(self).entries().contains_key(
                (hash, number),
            ),
            r is Ok ==> forall|k: (u64, u64)|
                final(self).entries().contains_key(k) <==> (#[trigger] old(self).entries().contains_key(k) || k == (hash, number)),
            r is Ok ==> final(self).entries().contains_key((hash, number)) && final(self).entries()[
                (hash, number)
            ] == data,
            r is Ok ==> forall|k: (u64, u64)| #[trigger]
                old(self).entries().contains_key(k) ==> final(self).entries()[k] == old(self).entries()[k],
            r is Ok ==> final(self).wf(rel(oracle)),
            r is Err ==> final(self).entries() == old(self).entries() && final(self).wf(
                rel(oracle),
            ) && group_keys(final(self).roots@) == group_keys(old(self).roots@),
            r matches Err(Error::Oracle(e)) ==> !oracle_total(oracle),
            oracle_total(oracle) && !old(self).entries().contains_key((hash, number)) ==> r is Ok,
            r is Ok && (exists|k: (u64, u64)| #[trigger]
                old(self).entries().contains_key(k) && oracle.dsc(k.0, hash)) ==> group_keys(
                final(self).roots@,
            ) == group_keys(old(self).roots@),
            r is Ok && !(exists|k: (u64, u64)| #[trigger]
                old(self).entries().contains_key(k) && oracle.dsc(k.0, hash)) ==> final(self).roots@.len() > 0 && (final(self).roots@.last().hash,
            final(self).roots@.last().number) == (hash, number),
    {
        let ghost d = rel(oracle);
        if self.contains(hash, number) {
            return Err(Error::Duplicate);
        }
        proof {
            assert forall|k: (u64, u64)| #[trigger]
                self.entries().contains_key(k) implies (d(k.0, hash) ==> k.1 < number) && (d(
                hash,
                k.0,
            ) ==> number < k.1) && k.0 != hash by {
                if k.0 == hash {
                    assert(k == (hash, number));
                }
            }
        }
        let j_opt = match Self::scan_group(&self.roots, hash, number, oracle) {
            Err(e) => {
                return Err(Error::Oracle(e));
            },
            Ok(x) => x,
        };
        match j_opt {
            Some(i) => {
                let ghost old_roots = self.roots@;
                let ghost root0 = self.roots@[i as int];
                proof {
                    let rk = (root0.hash, root0.number);
                    assert(node_entries(root0).contains_key(rk));
                    lemma_seq_entries_get(old_roots, rk, i as int);
                    assert forall|k: (u64, u64)| #[trigger]
                        node_entries(root0).contains_key(k) implies self.entries().contains_key(k)
                        && self.entries()[k] == node_entries(root0)[k] by {
                        lemma_seq_entries_get(old_roots, k, i as int);
                    }
                }
                let res = Self::import_into(&mut self.roots[i], hash, number, data, oracle);
                match res {
                    Err(e) => {
                        proof {
                            let root1 = self.roots@[i as int];
                            lemma_seq_entries_update_same(old_roots, i as int, root1);
                            assert(self.roots@ == old_roots.update(i as int, root1));
                            assert(self.entries() =~= old(self).entries());
                            assert(separated(self.roots@)) by {
                                assert forall|x: int, y: int, k1: (u64, u64), k2: (u64, u64)|
                                    0 <= x < self.roots@.len() && 0 <= y < self.roots@.len() && x
                                        != y && #[trigger] node_entries(
                                        self.roots@[x],
                                    ).contains_key(k1) && #[trigger] node_entries(
                                        self.roots@[y],
                                    ).contains_key(k2) implies k1.0 != k2.0 by {
                                    assert(node_entries(old_roots[x]).contains_key(k1));
                                    assert(node_entries(old_roots[y]).contains_key(k2));
                                }
                            }
                            assert(heads_unrelated(self.roots@, d)) by {
                                assert forall|x: int, y: int|
                                    0 <= x < self.roots@.len() && 0 <= y < self.roots@.len() && x
                                        != y implies !d(
                                    self.roots@[x].hash,
                                    self.roots@[y].hash,
                                ) by {
                                    assert(self.roots@[x].hash == old_roots[x].hash);
                                    assert(self.roots@[y].hash == old_roots[y].hash);
                                }
                            }
                            assert forall|i2: int| 0 <= i2 < self.roots@.len() implies node_wf(
                                #[trigger] self.roots@[i2],
                                d,
                            ) by {
                                if i2 != i {
                                    assert(self.roots@[i2] == old_roots[i2]);
                                }
                            }
                            assert(group_keys(self.roots@) =~= group_keys(old_roots));
                        }
                        Err(Error::Oracle(e))
                    },
                    Ok(()) => {
                        proof {
                            let root1 = self.roots@[i as int];
                            let k0 = (hash, number);
                            assert(!seq_entries(old_roots).contains_key(k0));
                            lemma_seq_entries_update(old_roots, i as int, root1, k0);
                            assert(self.roots@ == old_roots.update(i as int, root1));
                            assert(separated(self.roots@)) by {
                                assert forall|x: int, y: int, k1: (u64, u64), k2: (u64, u64)|
                                    0 <= x < self.roots@.len() && 0 <= y < self.roots@.len() && x
                                        != y && #[trigger] node_entries(
                                        self.roots@[x],
                                    ).contains_key(k1) && #[trigger] node_entries(
                                        self.roots@[y],
                                    ).contains_key(k2) implies k1.0 != k2.0 by {
                                    if x == i {
                                        if k1 != k0 {
                                            assert(node_entries(old_roots[x]).contains_key(k1));
                                        } else {
                                            lemma_seq_entries_get(old_roots, k2, y);
                                        }
                                    } else if y == i {
                                        if k2 != k0 {
                                            assert(node_entries(old_roots[y]).contains_key(k2));
                                        } else {
                                            lemma_seq_entries_get(old_roots, k1, x);
                                        }
                                    }
                                }
                            }
                            assert(heads_unrelated(self.roots@, d)) by {
                                assert forall|x: int, y: int|
                                    0 <= x < self.roots@.len() && 0 <= y < self.roots@.len() && x
                                        != y implies !d(
                                    self.roots@[x].hash,
                                    self.roots@[y].hash,
                                ) by {
                                    assert(self.roots@[x].hash == old_roots[x].hash);
                                    assert(self.roots@[y].hash == old_roots[y].hash);
                                }
                            }
                            assert forall|i2: int| 0 <= i2 < self.roots@.len() implies node_wf(
                                #[trigger] self.roots@[i2],
                                d,
                            ) by {
                                if i2 != i {
                                    assert(self.roots@[i2] == old_roots[i2]);
                                }
                            }
                            assert(group_keys(self.roots@) =~= group_keys(old_roots));
                            assert(self.entries().contains_key((root0.hash, root0.number))
                                && oracle.dsc(root0.hash, hash)) by {
                                let rk = (root0.hash, root0.number);
                                assert(node_entries(root1).contains_key(rk));
                                lemma_seq_entries_get(self.roots@, rk, i as int);
                            }
                        }
                        Ok(())
                    },
                }
            },
            None => {
                let flags = match Self::flag_group(&self.roots, hash, number, oracle) {
                    Err(e) => {
                        return Err(Error::Oracle(e));
                    },
                    Ok(f) => f,
                };
                let ghost old_roots = self.roots@;
                proof {
                    assert forall|m: int| 0 <= m < old_roots.len() implies !d(
                        (#[trigger] old_roots[m]).hash,
                        hash,
                    ) by {
                        let ck = (old_roots[m].hash, old_roots[m].number);
                        assert(node_entries(old_roots[m]).contains_key(ck));
                        lemma_seq_entries_get(old_roots, ck, m);
                    }
                    lemma_group_stop(old_roots, d, hash);
                }
                Self::insert_group(&mut self.roots, hash, number, data, &flags, Ghost(d));
                Ok(())
            },
        }
    }
}

} // verus!
