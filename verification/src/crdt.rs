//! Conflict-free replicated types, for merging state across replicas.

use vstd::prelude::*;
use vstd::pervasive::cloned;
use vstd::std_specs::cmp::PartialEqSpec;

use crate::error::Error;
use crate::temporal::Timestamp;

verus! {

/// What every conflict-free replicated type offers: a merge that folds
/// another replica's state in, and an equality check for tests.
pub trait CRDT: Sized {
    /// How a merged state may relate to the two inputs.
    spec fn merge_rel(pre: Self, other: Self, post: Self) -> bool;

    /// What the equality check decides.
    spec fn eq_rel(a: Self, b: Self, r: bool) -> bool;

    /// Fold another replica's state into this one.
    fn merge(&mut self, other: &Self)
        ensures
            Self::merge_rel(*old(self), *other, *final(self)),
    ;

    /// Whether the two states agree.
    fn equals(&self, other: &Self) -> (r: bool)
        ensures
            Self::eq_rel(*self, *other, r),
    ;
}

/// Resolve a conflict between two replicas of one value: merge the remote
/// state into the local one.
pub fn resolve_conflict<T: CRDT>(local: &mut T, remote: &T) -> (r: Result<(), Error>)
    ensures
        T::merge_rel(*old(local), *remote, *final(local)),
        r is Ok,
{
    local.merge(remote);
    Ok(())
}

/// A last-writer-wins register: the value with the latest timestamp
/// survives; on a tie the incoming value wins.
pub struct LWWRegister<T> {
    value: T,
    timestamp: Timestamp,
}

impl<T: Clone> LWWRegister<T> {
    /// The value the register holds.
    pub closed spec fn spec_value(&self) -> T {
        self.value
    }

    /// The timestamp of the last write.
    pub closed spec fn spec_timestamp(&self) -> Timestamp {
        self.timestamp
    }

    /// A register holding one value written at one time.
    pub fn new(value: T, timestamp: Timestamp) -> (r: Self)
        ensures
            r.spec_value() == value,
            r.spec_timestamp() == timestamp,
    {
        LWWRegister { value, timestamp }
    }

    /// The value the register holds.
    pub fn value(&self) -> (r: &T)
        ensures
            r == &self.spec_value(),
    {
        &self.value
    }

    /// The timestamp of the last write.
    pub fn timestamp(&self) -> (r: Timestamp)
        ensures
            r == self.spec_timestamp(),
    {
        self.timestamp
    }

    /// Write a value: it lands only if its timestamp is not older than
    /// the last write's.
    pub fn set(&mut self, value: T, timestamp: Timestamp)
        ensures
            timestamp.nanos >= old(self).spec_timestamp().nanos ==> final(self).spec_value()
                == value && final(self).spec_timestamp() == timestamp,
            timestamp.nanos < old(self).spec_timestamp().nanos ==> *final(self) == *old(self),
    {
        if timestamp.nanos >= self.timestamp.nanos {
            self.value = value;
            self.timestamp = timestamp;
        }
    }
}

impl<T: Clone + PartialEq> CRDT for LWWRegister<T> {
    /// The later write survives; what a clone of the winning value holds
    /// is the clone's business.
    open spec fn merge_rel(pre: Self, other: Self, post: Self) -> bool {
        if other.spec_timestamp().nanos >= pre.spec_timestamp().nanos {
            post.spec_timestamp() == other.spec_timestamp() && cloned(
                other.spec_value(),
                post.spec_value(),
            )
        } else {
            post == pre
        }
    }

    /// Two registers agree exactly when their values and timestamps do,
    /// as far as the value type's own equality can be trusted.
    open spec fn eq_rel(a: Self, b: Self, r: bool) -> bool {
        T::obeys_eq_spec() ==> (r <==> (a.spec_value().eq_spec(&b.spec_value())
            && a.spec_timestamp() == b.spec_timestamp()))
    }

    fn merge(&mut self, other: &Self) {
        if other.timestamp.nanos >= self.timestamp.nanos {
            self.value = other.value.clone();
            self.timestamp = other.timestamp;
        }
    }

    fn equals(&self, other: &Self) -> (r: bool) {
        self.value.eq(&other.value) && self.timestamp.nanos == other.timestamp.nanos
    }
}

/// A grow-only set: elements only ever join.
pub struct GSet<T> {
    elements: Vec<T>,
}

impl<T: PartialEq> GSet<T> {
    /// The elements, in insertion order, no two equal.
    pub closed spec fn view_elements(&self) -> Seq<T> {
        self.elements@
    }

    /// Whether the set holds an element equal to `x`, by the type's own
    /// equality.
    pub open spec fn spec_contains(&self, x: T) -> bool {
        exists|k: int| 0 <= k < self.view_elements().len() && (#[trigger] self.view_elements()[
        k]).eq_spec(&x)
    }

    /// An empty set.
    pub fn new() -> (r: Self)
        ensures
            r.view_elements() == Seq::<T>::empty(),
    {
        GSet { elements: Vec::new() }
    }

    /// Add an element; one already present, by the type's own equality,
    /// is not added again.
    pub fn add(&mut self, element: T)
        ensures
            T::obeys_eq_spec() ==> {
                &&& (old(self).spec_contains(element) ==> *final(self) == *old(self))
                &&& (!old(self).spec_contains(element) ==> final(self).view_elements() == old(self).view_elements().push(element))
            },
    {
        if !self.contains(&element) {
            self.elements.push(element);
        }
    }

    /// Whether the set holds an element equal to the given one.
    pub fn contains(&self, element: &T) -> (r: bool)
        ensures
            T::obeys_eq_spec() ==> r == self.spec_contains(*element),
    {
        let mut k: usize = 0;
        while k < self.elements.len()
            invariant
                k <= self.elements@.len(),
                T::obeys_eq_spec() ==> forall|m: int| 0 <= m < k ==> !(
                #[trigger] self.elements@[m]).eq_spec(element),
            decreases self.elements@.len() - k,
        {
            if self.elements[k].eq(element) {
                proof {
                    if T::obeys_eq_spec() {
                        assert(self.view_elements()[k as int].eq_spec(&*element));
                    }
                }
                return true;
            }
            k += 1;
        }
        false
    }

    /// The elements, in insertion order.
    pub fn elements(&self) -> (r: &Vec<T>)
        ensures
            r@ == self.view_elements(),
    {
        &self.elements
    }
}

impl<T: PartialEq> Default for GSet<T> {
    /// The same empty set `new` builds.
    fn default() -> (r: Self)
        ensures
            r.view_elements() == Seq::<T>::empty(),
    {
        GSet::new()
    }
}

/// Whether a set has taken an element in: it holds something equal to a
/// clone of the element, or that clone itself.
pub open spec fn absorbed<T: PartialEq + Clone>(post: GSet<T>, v: T) -> bool {
    exists|x: T|
        #[trigger] cloned(v, x) && (post.spec_contains(x) || post.view_elements().contains(x))
}

/// Growing a set at its end never lets a taken-in element go.
proof fn lemma_absorbed_grows<T: PartialEq + Clone>(pre: GSet<T>, post: GSet<T>, v: T)
    requires
        absorbed(pre, v),
        post.view_elements().len() >= pre.view_elements().len(),
        forall|k: int| 0 <= k < pre.view_elements().len() ==> post.view_elements()[k] == (
        #[trigger] pre.view_elements()[k]),
    ensures
        absorbed(post, v),
{
    let x = choose|x: T|
        #[trigger] cloned(v, x) && (pre.spec_contains(x) || pre.view_elements().contains(x));
    if pre.spec_contains(x) {
        let m = choose|m: int|
            0 <= m < pre.view_elements().len() && (#[trigger] pre.view_elements()[m]).eq_spec(&x);
        assert(post.view_elements()[m].eq_spec(&x));
        assert(post.spec_contains(x));
    } else {
        let m = choose|m: int|
            0 <= m < pre.view_elements().len() && (#[trigger] pre.view_elements()[m]) == x;
        assert(post.view_elements()[m] == x);
        assert(post.view_elements().contains(x));
    }
    assert(cloned(v, x) && (post.spec_contains(x) || post.view_elements().contains(x)));
}

impl<T: PartialEq + Clone> CRDT for GSet<T> {
    /// Merging folds the other set's elements in, in order: the old
    /// elements stay put, and afterwards the set holds, for every element
    /// of `other`, either something equal to a clone of it or that clone
    /// itself.
    open spec fn merge_rel(pre: Self, other: Self, post: Self) -> bool {
        T::obeys_eq_spec() ==> {
            &&& post.view_elements().len() >= pre.view_elements().len()
            &&& forall|k: int| 0 <= k < pre.view_elements().len() ==> post.view_elements()[k] == (
            #[trigger] pre.view_elements()[k])
            &&& forall|k: int| 0 <= k < other.view_elements().len() ==> absorbed(
                post,
                #[trigger] other.view_elements()[k],
            )
        }
    }

    /// Two sets agree exactly when each holds every element of the other,
    /// as far as the element type's own equality can be trusted.
    open spec fn eq_rel(a: Self, b: Self, r: bool) -> bool {
        T::obeys_eq_spec() ==> (r <==> ((forall|k: int|
            0 <= k < a.view_elements().len() ==> b.spec_contains(#[trigger] a.view_elements()[k]))
            && (forall|k: int|
            0 <= k < b.view_elements().len() ==> a.spec_contains(
                #[trigger] b.view_elements()[k],
            ))))
    }

    #[verifier::rlimit(100)]
    #[verifier::spinoff_prover]
    fn merge(&mut self, other: &Self) {
        let mut j: usize = 0;
        while j < other.elements.len()
            invariant
                j <= other.elements@.len(),
                T::obeys_eq_spec() ==> self.elements@.len() >= old(self).elements@.len(),
                T::obeys_eq_spec() ==> forall|k: int|
                    0 <= k < old(self).elements@.len() ==> self.elements@[k] == (#[trigger] old(
                    self,
                ).elements@[k]),
                T::obeys_eq_spec() ==> forall|k: int| 0 <= k < j ==> absorbed(
                    *self,
                    #[trigger] other.view_elements()[k],
                ),
            decreases other.elements@.len() - j,
        {
            let ghost before = *self;
            let e = other.elements[j].clone();
            let ghost ec = e;
            self.add(e);
            proof {
                if T::obeys_eq_spec() {
                    assert(cloned(other.view_elements()[j as int], ec));
                    if before.spec_contains(ec) {
                        assert(self.spec_contains(ec));
                    } else {
                        assert(self.view_elements()[self.view_elements().len() - 1] == ec);
                        assert(self.view_elements().contains(ec));
                    }
                    assert(absorbed(*self, other.view_elements()[j as int]));
                    assert forall|k: int| 0 <= k < j + 1 implies absorbed(
                        *self,
                        #[trigger] other.view_elements()[k],
                    ) by {
                        if k < j {
                            lemma_absorbed_grows(before, *self, other.view_elements()[k]);
                        }
                    }
                }
            }
            j += 1;
        }
    }

    fn equals(&self, other: &Self) -> (r: bool) {
        let mut k: usize = 0;
        while k < self.elements.len()
            invariant
                k <= self.elements@.len(),
                T::obeys_eq_spec() ==> forall|m: int| 0 <= m < k ==> other.spec_contains(
                    #[trigger] self.view_elements()[m],
                ),
            decreases self.elements@.len() - k,
        {
            if !other.contains(&self.elements[k]) {
                proof {
                    if T::obeys_eq_spec() {
                        assert(!other.spec_contains(self.view_elements()[k as int]));
                    }
                }
                return false;
            }
            k += 1;
        }
        let mut m: usize = 0;
        while m < other.elements.len()
            invariant
                m <= other.elements@.len(),
                T::obeys_eq_spec() ==> forall|w: int|
                    0 <= w < self.view_elements().len() ==> other.spec_contains(
                        #[trigger] self.view_elements()[w],
                    ),
                T::obeys_eq_spec() ==> forall|w: int| 0 <= w < m ==> self.spec_contains(
                    #[trigger] other.view_elements()[w],
                ),
            decreases other.elements@.len() - m,
        {
            if !self.contains(&other.elements[m]) {
                proof {
                    if T::obeys_eq_spec() {
                        assert(!self.spec_contains(other.view_elements()[m as int]));
                    }
                }
                return false;
            }
            m += 1;
        }
        true
    }
}

/// The sum of a counter's per-node counts.
pub open spec fn counts_sum(s: Seq<u64>) -> int
    decreases s.len(),
{
    if s.len() == 0 {
        0
    } else {
        counts_sum(s.drop_last()) + s.last()
    }
}

/// A grow-only counter: one slot per node, each only ever raised.
#[derive(Debug, Clone)]
pub struct GCounter {
    counts: Vec<u64>,
    node_id: usize,
}

impl GCounter {
    /// The per-node counts.
    pub closed spec fn view_counts(&self) -> Seq<u64> {
        self.counts@
    }

    /// The slot this replica raises.
    pub closed spec fn spec_node_id(&self) -> usize {
        self.node_id
    }

    /// The counter is in working order: its slot exists.
    pub closed spec fn wf(&self) -> bool {
        self.node_id < self.counts@.len()
    }

    /// A counter for `node_id` among `num_nodes` replicas, all zero.
    pub fn new(node_id: usize, num_nodes: usize) -> (r: Self)
        requires
            node_id < num_nodes,
        ensures
            r.wf(),
            r.view_counts().len() == num_nodes,
            forall|k: int| 0 <= k < num_nodes ==> r.view_counts()[k] == 0,
            r.spec_node_id() == node_id,
    {
        let mut counts: Vec<u64> = Vec::new();
        let mut k: usize = 0;
        while k < num_nodes
            invariant
                k <= num_nodes,
                counts@.len() == k,
                forall|m: int| 0 <= m < k ==> counts@[m] == 0,
            decreases num_nodes - k,
        {
            counts.push(0);
            k += 1;
        }
        GCounter { counts, node_id }
    }

    /// Raise this replica's slot.
    pub fn increment(&mut self, by: u64)
        requires
            old(self).wf(),
            old(self).view_counts()[old(self).spec_node_id() as int] + by <= u64::MAX,
        ensures
            final(self).wf(),
            final(self).view_counts() == old(self).view_counts().update(
                old(self).spec_node_id() as int,
                (old(self).view_counts()[old(self).spec_node_id() as int] + by) as u64,
            ),
            final(self).spec_node_id() == old(self).spec_node_id(),
    {
        let cur = self.counts[self.node_id];
        let node = self.node_id;
        self.counts[node] = cur + by;
    }

    /// The counter's value: the sum over every slot, stopping at the top
    /// of the range.
    pub fn value(&self) -> (r: u64)
        ensures
            r as int == if counts_sum(self.view_counts()) <= u64::MAX as int {
                counts_sum(self.view_counts())
            } else {
                u64::MAX as int
            },
    {
        let mut acc: u64 = 0;
        let mut k: usize = 0;
        while k < self.counts.len()
            invariant
                k <= self.counts@.len(),
                acc as int == if counts_sum(self.counts@.subrange(0, k as int)) <= u64::MAX as int {
                    counts_sum(self.counts@.subrange(0, k as int))
                } else {
                    u64::MAX as int
                },
            decreases self.counts@.len() - k,
        {
            proof {
                assert(self.counts@.subrange(0, k + 1 as int).drop_last() =~= self.counts@.subrange(
                    0,
                    k as int,
                ));
                assert(self.counts@.subrange(0, k + 1 as int).last() == self.counts@[k as int]);
            }
            acc = acc.saturating_add(self.counts[k]);
            k += 1;
        }
        proof {
            assert(self.counts@.subrange(0, self.counts@.len() as int) =~= self.counts@);
        }
        acc
    }
}

impl CRDT for GCounter {
    /// Merging takes the slot-wise maximum over the shared slots.
    open spec fn merge_rel(pre: Self, other: Self, post: Self) -> bool {
        &&& post.view_counts().len() == pre.view_counts().len()
        &&& post.spec_node_id() == pre.spec_node_id()
        &&& forall|k: int| 0 <= k < pre.view_counts().len() ==> post.view_counts()[k] == (if k
            < other.view_counts().len() && (#[trigger] other.view_counts()[k]) > pre.view_counts()[
        k] {
            other.view_counts()[k]
        } else {
            pre.view_counts()[k]
        })
    }

    /// The check holds the count vectors to equality.
    open spec fn eq_rel(a: Self, b: Self, r: bool) -> bool {
        r <==> a.view_counts() == b.view_counts()
    }

    #[verifier::rlimit(100)]
    #[verifier::spinoff_prover]
    fn merge(&mut self, other: &Self) {
        let mut k: usize = 0;
        while k < self.counts.len()
            invariant
                self.counts@.len() == old(self).counts@.len(),
                self.node_id == old(self).node_id,
                k <= self.counts@.len(),
                forall|m: int| k <= m < self.counts@.len() ==> self.counts@[m] == (#[trigger] old(self).counts@[m]),
                forall|m: int| 0 <= m < k ==> self.counts@[m] == (if m < other.counts@.len() && (
                #[trigger] other.counts@[m]) > old(self).counts@[m] {
                    other.counts@[m]
                } else {
                    old(self).counts@[m]
                }),
            decreases self.counts@.len() - k,
        {
            if k < other.counts.len() {
                let ours = self.counts[k];
                let theirs = other.counts[k];
                if theirs > ours {
                    self.counts[k] = theirs;
                }
            }
            k += 1;
        }
        proof {
            assert(Self::merge_rel(*old(self), *other, *self));
        }
    }

    fn equals(&self, other: &Self) -> (r: bool) {
        if self.counts.len() != other.counts.len() {
            return false;
        }
        let mut k: usize = 0;
        while k < self.counts.len()
            invariant
                self.counts@.len() == other.counts@.len(),
                k <= self.counts@.len(),
                forall|m: int| 0 <= m < k ==> self.counts@[m] == other.counts@[m],
            decreases self.counts@.len() - k,
        {
            if self.counts[k] != other.counts[k] {
                return false;
            }
            k += 1;
        }
        proof {
            assert(self.counts@ =~= other.counts@);
        }
        true
    }
}

} // verus!
