use vstd::prelude::*;

verus! {

/// Storage for a set representative: a rank bounding the height of the tree
/// rooted here, and the set's aggregate value. The value is absent only in
/// the middle of a merge; every representative visible outside an operation
/// holds one.
pub(crate) struct Repr<T> {
    pub rank: usize,
    pub data: Option<T>,
}

/// One slot of the forest: either the representative of its set, or a link to
/// another slot that lies at least as close to the representative.
pub(crate) enum Node<T> {
    Repr(Repr<T>),
    Alias(usize),
}

impl<T> Repr<T> {
    /// Absorb another representative's value into this one: bump the rank on
    /// a tie, then fold the two values into one with `merge`, keeping this
    /// representative's value as the first argument.
    pub(crate) fn update<F: FnOnce(T, T) -> T>(&mut self, mut other: Repr<T>, merge: F)
        requires
            old(self).data is Some,
            other.data is Some,
            old(self).rank == other.rank ==> old(self).rank < usize::MAX,
            call_requires(merge, (old(self).data->0, other.data->0)),
        ensures
            final(self).data is Some,
            final(self).rank == (if old(self).rank == other.rank {
                old(self).rank + 1
            } else {
                old(self).rank as int
            }),
            call_ensures(merge, (old(self).data->0, other.data->0), final(self).data->0),
    {
        if self.rank == other.rank {
            self.rank += 1;
        }
        let self_data = self.data.take().unwrap();
        let other_data = other.data.take().unwrap();
        let new_data = merge(self_data, other_data);
        self.data = Some(new_data);
    }
}

impl<T> Node<T> {
    /// The representative stored in this node; meaningful only when the node
    /// is a `Repr`.
    pub(crate) open spec fn as_repr(self) -> Repr<T> {
        match self {
            Node::Repr(repr) => repr,
            Node::Alias(_) => arbitrary(),
        }
    }

    /// A representative that currently holds its set's value.
    pub(crate) open spec fn has_value(self) -> bool {
        self is Repr && self.as_repr().data is Some
    }

    /// The rank of a representative node.
    pub(crate) open spec fn spec_rank(self) -> nat {
        self.as_repr().rank as nat
    }

    /// The aggregate value held by a representative node.
    pub(crate) open spec fn spec_value(self) -> T {
        match self.as_repr().data {
            Some(v) => v,
            None => arbitrary(),
        }
    }

    /// A fresh representative of rank 0 holding `data`.
    pub(crate) fn new_repr(data: T) -> (n: Node<T>)
        ensures
            n.has_value(),
            n.spec_rank() == 0,
            n.spec_value() == data,
    {
        Node::Repr(Repr { rank: 0, data: Some(data) })
    }

    /// The rank of this node, which must be a representative.
    pub(crate) fn rank(&self) -> (r: usize)
        requires
            *self is Repr,
        ensures
            r == self.spec_rank(),
    {
        match self {
            Node::Repr(repr) => repr.rank,
            Node::Alias(_) => unreached(),
        }
    }

    /// Take this node apart; it must be a representative.
    pub(crate) fn to_repr(self) -> (r: Repr<T>)
        requires
            self is Repr,
        ensures
            r == self.as_repr(),
    {
        match self {
            Node::Repr(repr) => repr,
            Node::Alias(_) => unreached(),
        }
    }

    /// Borrow the representative stored here mutably; the node must be a
    /// representative, and stays one.
    pub(crate) fn repr(&mut self) -> (r: &mut Repr<T>)
        requires
            *old(self) is Repr,
        ensures
            *r == old(self).as_repr(),
            *final(self) == (Node::<T>::Repr(*final(r))),
    {
        match self {
            Node::Repr(repr) => repr,
            Node::Alias(_) => unreached(),
        }
    }

    /// Merge the representative `absorb` into this one: the rank grows by one
    /// exactly on a tie, and the new value is `merge` applied to this node's
    /// value followed by the absorbed one.
    pub(crate) fn update<F: FnOnce(T, T) -> T>(&mut self, absorb: Node<T>, merge: F)
        requires
            old(self).has_value(),
            absorb.has_value(),
            old(self).spec_rank() == absorb.spec_rank() ==> old(self).spec_rank() < usize::MAX,
            call_requires(merge, (old(self).spec_value(), absorb.spec_value())),
        ensures
            final(self).has_value(),
            final(self).spec_rank() == (if old(self).spec_rank() == absorb.spec_rank() {
                old(self).spec_rank() as int + 1
            } else {
                old(self).spec_rank() as int
            }),
            call_ensures(merge, (old(self).spec_value(), absorb.spec_value()), final(self).spec_value()),
    {
        let self_repr = self.repr();
        let other_repr = absorb.to_repr();
        self_repr.update(other_repr, merge);
    }
}

/// The bookkeeping weight of a slot: a representative of rank `r` weighs
/// `r + 1`, a link weighs nothing. The total weight of the forest never
/// exceeds the number of slots, which bounds every rank strictly below the
/// slot count.
pub(crate) open spec fn weight<T>(n: Node<T>) -> nat {
    if n is Repr {
        (n.as_repr().rank + 1) as nat
    } else {
        0
    }
}

/// The summed weight of all slots.
pub(crate) open spec fn total_weight<T>(s: Seq<Node<T>>) -> nat
    decreases s.len(),
{
    if s.len() == 0 {
        0
    } else {
        total_weight(s.drop_last()) + weight(s.last())
    }
}

/// Each slot's weight is at most the total.
pub(crate) proof fn lemma_weight_le_total<T>(s: Seq<Node<T>>, i: int)
    requires
        0 <= i < s.len(),
    ensures
        weight(s[i]) <= total_weight(s),
    decreases s.len(),
{
    if i == s.len() - 1 {
        assert(s.last() == s[i]);
    } else {
        lemma_weight_le_total(s.drop_last(), i);
        assert(s.drop_last()[i] == s[i]);
    }
}

/// Replacing one slot changes the total weight by the difference of the two
/// slot weights.
pub(crate) proof fn lemma_total_weight_update<T>(s: Seq<Node<T>>, i: int, n: Node<T>)
    requires
        0 <= i < s.len(),
    ensures
        total_weight(s.update(i, n)) + weight(s[i]) == total_weight(s) + weight(n),
    decreases s.len(),
{
    let t = s.update(i, n);
    if i == s.len() - 1 {
        assert(t.drop_last() =~= s.drop_last());
        assert(t.last() == n);
    } else {
        lemma_total_weight_update(s.drop_last(), i, n);
        assert(t.drop_last() =~= s.drop_last().update(i, n));
        assert(t.last() == s.last());
    }
}

/// Appending a slot adds its weight to the total.
pub(crate) proof fn lemma_total_weight_push<T>(s: Seq<Node<T>>, n: Node<T>)
    ensures
        total_weight(s.push(n)) == total_weight(s) + weight(n),
{
    assert(s.push(n).drop_last() =~= s);
    assert(s.push(n).last() == n);
}

} // verus!
