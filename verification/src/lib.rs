//! A disjoint-set (union-find) forest that carries an aggregate value with
//! every set. Each element is created alone in its own set with an initial
//! value; merging two sets folds their two values into one with a
//! caller-supplied combining function, called exactly once per effective
//! merge. Lookups compress paths by halving, and merges are guided by rank,
//! so long operation sequences stay near constant time per step.

use vstd::prelude::*;

mod node;

use crate::node::Node;
use crate::node::lemma_total_weight_push;
use crate::node::lemma_total_weight_update;
use crate::node::lemma_weight_le_total;
use crate::node::total_weight;
use crate::node::weight;

verus! {

/// An opaque handle to one element of a [`UF`] forest. Handles are stable:
/// the element they name is never destroyed or renumbered, though the set it
/// belongs to grows through merges. A handle may only be used with the
/// instance that created it.
#[derive(Clone, Copy, Debug, PartialEq, Eq, Structural)]
pub struct Point(usize);

impl View for Point {
    type V = int;

    /// A handle is abstractly the index of the element it names.
    closed spec fn view(&self) -> int {
        self.0 as int
    }
}

impl Point {
    /// Handles are equal exactly when they name the same element: the view
    /// identifies a handle completely.
    pub proof fn lemma_eq_iff_view_eq(p: Point, q: Point)
        ensures
            (p == q) <==> (p@ == q@),
    {
    }
}

/// A union-find forest over elements carrying values of type `T`.
///
/// Abstractly, the structure maps every created element to the
/// representative of its set ([`UF::repr_of`]), and every set to one
/// aggregate value ([`UF::value_of`]) and one rank ([`UF::rank_of`]).
pub struct UF<T = ()> {
    vec: Vec<Node<T>>,
    /// For each element, the index of its set's current representative.
    roots: Ghost<Seq<int>>,
    /// A strictly decreasing measure along every link chain, bounding the
    /// number of hops from each element to its representative.
    dists: Ghost<Seq<nat>>,
}

impl<T> UF<T> {
    /// How many elements have been created.
    pub closed spec fn len(self) -> nat {
        self.vec@.len()
    }

    /// The index of the representative of the set `i` belongs to.
    pub closed spec fn repr_of(self, i: int) -> int {
        self.roots@[i]
    }

    /// The aggregate value of the set `i` belongs to.
    pub closed spec fn value_of(self, i: int) -> T {
        self.vec@[self.repr_of(i)].spec_value()
    }

    /// The rank of the set `i` belongs to.
    pub closed spec fn rank_of(self, i: int) -> nat {
        self.vec@[self.repr_of(i)].spec_rank()
    }

    /// An upper bound on the number of links between element `i` and its
    /// set's representative: the bound is 0 for a fresh element, strictly
    /// decreases along every link, and lookups never raise it.
    pub closed spec fn depth_of(self, i: int) -> nat {
        self.dists@[i]
    }

    /// Whether `p` is a handle of this instance.
    pub open spec fn contains(self, p: Point) -> bool {
        0 <= p@ < self.len()
    }

    /// One slot is consistent with the ghost bookkeeping: its representative
    /// is a settled root, links stay within the set and strictly descend the
    /// measure, and every representative holds a value.
    spec fn node_ok(self, i: int) -> bool {
        &&& 0 <= self.roots@[i] < self.len()
        &&& self.vec@[self.roots@[i]] is Repr
        &&& self.roots@[self.roots@[i]] == self.roots@[i]
        &&& (self.vec@[i] is Repr ==> self.roots@[i] == i && self.vec@[i].has_value())
        &&& (self.vec@[i] matches Node::Alias(to) ==> {
            &&& (to as int) < self.len()
            &&& self.roots@[to as int] == self.roots@[i]
            &&& self.dists@[to as int] < self.dists@[i]
        })
    }

    /// The structure's invariant: the slots form a forest of link chains,
    /// each ending at a representative that holds the set's value, and the
    /// total bookkeeping weight never exceeds the number of slots.
    pub closed spec fn wf(self) -> bool {
        &&& self.roots@.len() == self.len()
        &&& self.dists@.len() == self.len()
        &&& total_weight(self.vec@) <= self.len()
        &&& forall|i: int| 0 <= i < self.len() ==> #[trigger] self.node_ok(i)
    }

    /// Two states describe the same sets: the same elements, partitioned the
    /// same way, with the same aggregate values and ranks. Path compression
    /// changes a state only up to this relation.
    pub open spec fn same_sets(self, other: Self) -> bool {
        &&& self.len() == other.len()
        &&& forall|i: int| 0 <= i < self.len() ==> #[trigger] self.repr_of(i) == other.repr_of(i)
        &&& forall|i: int| 0 <= i < self.len() ==> #[trigger] self.value_of(i) == other.value_of(i)
        &&& forall|i: int| 0 <= i < self.len() ==> #[trigger] self.rank_of(i) == other.rank_of(i)
    }

    /// The pair of values a union of the sets of `a` and `b` hands to the
    /// combining function: the surviving set's value first, the absorbed
    /// set's value second. The higher-ranked set survives; ties keep `a`'s.
    pub open spec fn merge_inputs(self, a: int, b: int) -> (T, T) {
        if self.rank_of(a) < self.rank_of(b) {
            (self.value_of(b), self.value_of(a))
        } else {
            (self.value_of(a), self.value_of(b))
        }
    }

    /// The representative that survives a union of the sets of `a` and `b`:
    /// the one of higher rank, with ties (including the already-joined case)
    /// broken in favor of `a`'s.
    pub open spec fn surviving_root(self, a: int, b: int) -> int {
        if self.rank_of(a) < self.rank_of(b) {
            self.repr_of(b)
        } else {
            self.repr_of(a)
        }
    }

    /// The rank of the merged set after a union of the distinct sets of `a`
    /// and `b`: the larger of the two ranks, plus one exactly on a tie.
    pub open spec fn merged_rank(self, a: int, b: int) -> nat {
        if self.rank_of(a) == self.rank_of(b) {
            (self.rank_of(a) + 1) as nat
        } else if self.rank_of(a) < self.rank_of(b) {
            self.rank_of(b)
        } else {
            self.rank_of(a)
        }
    }

    /// `same_sets` is transitive.
    proof fn lemma_same_sets_trans(x: Self, y: Self, z: Self)
        requires
            x.same_sets(y),
            y.same_sets(z),
        ensures
            x.same_sets(z),
    {
    }

    /// Every member of a set reads the set's one aggregate value and rank:
    /// two handles with the same representative agree on both.
    pub proof fn lemma_set_agrees(self, i: int, j: int)
        requires
            self.wf(),
            0 <= i < self.len(),
            0 <= j < self.len(),
            self.repr_of(i) == self.repr_of(j),
        ensures
            self.value_of(i) == self.value_of(j),
            self.rank_of(i) == self.rank_of(j),
    {
    }

    /// Every element's representative is itself an element of the structure:
    /// in particular, no existing element can answer to an index that has
    /// not been handed out yet, so a fresh element's set is exactly the
    /// singleton of its handle.
    pub proof fn lemma_repr_in_range(self, i: int)
        requires
            self.wf(),
            0 <= i < self.len(),
        ensures
            0 <= self.repr_of(i) < self.len(),
    {
        assert(self.node_ok(i));
    }

    /// A representative is its own representative: resolving a handle twice
    /// gives the same result as resolving it once.
    pub proof fn lemma_repr_idempotent(self, i: int)
        requires
            self.wf(),
            0 <= i < self.len(),
        ensures
            self.repr_of(self.repr_of(i)) == self.repr_of(i),
    {
        assert(self.node_ok(i));
    }

    /// An empty forest with no elements.
    pub fn new() -> (uf: UF<T>)
        ensures
            uf.wf(),
            uf.len() == 0,
    {
        UF { vec: Vec::new(), roots: Ghost(Seq::empty()), dists: Ghost(Seq::empty()) }
    }

    /// Create a new element in a singleton set of rank 0 holding `data`,
    /// and return its handle. Existing sets are untouched.
    pub fn make_point(&mut self, data: T) -> (p: Point)
        requires
            old(self).wf(),
        ensures
            final(self).wf(),
            final(self).len() == old(self).len() + 1,
            final(self).contains(p),
            p@ == old(self).len(),
            final(self).repr_of(p@) == p@,
            final(self).value_of(p@) == data,
            final(self).rank_of(p@) == 0,
            final(self).depth_of(p@) == 0,
            forall|i: int| 0 <= i < old(self).len() ==> #[trigger] final(self).depth_of(i)
                == old(self).depth_of(i),
            forall|i: int| 0 <= i < old(self).len() ==> #[trigger] final(self).repr_of(i)
                == old(self).repr_of(i),
            forall|i: int| 0 <= i < old(self).len() ==> #[trigger] final(self).value_of(i)
                == old(self).value_of(i),
            forall|i: int| 0 <= i < old(self).len() ==> #[trigger] final(self).rank_of(i)
                == old(self).rank_of(i),
    {
        let ghost pre = *self;
        let index = self.vec.len();
        let n = Node::new_repr(data);
        let ghost gn = n;
        self.vec.push(n);
        self.roots = Ghost(self.roots@.push(index as int));
        self.dists = Ghost(self.dists@.push(0));
        proof {
            lemma_total_weight_push(pre.vec@, gn);
            assert forall|i: int| 0 <= i < self.len() implies #[trigger] self.node_ok(i) by {
                if i < pre.len() {
                    assert(pre.node_ok(i));
                }
            }
            assert forall|i: int| 0 <= i < pre.len() implies #[trigger] self.value_of(i)
                == pre.value_of(i) by {
                assert(pre.node_ok(i));
                assert(self.vec@[pre.roots@[i]] == pre.vec@[pre.roots@[i]]);
            }
            assert forall|i: int| 0 <= i < pre.len() implies #[trigger] self.rank_of(i)
                == pre.rank_of(i) by {
                assert(pre.node_ok(i));
                assert(self.vec@[pre.roots@[i]] == pre.vec@[pre.roots@[i]]);
            }
        }
        Point(index)
    }

    /// Borrow the slot at `index`.
    fn node(&self, index: usize) -> (n: &Node<T>)
        requires
            index < self.len(),
        ensures
            *n == self.vec@[index as int],
    {
        &self.vec[index]
    }

    /// Borrow the slot at `index` mutably; the ghost bookkeeping is left
    /// untouched.
    fn node_mut(&mut self, index: usize) -> (n: &mut Node<T>)
        requires
            index < old(self).len(),
        ensures
            *n == old(self).vec@[index as int],
            final(self).vec@ == old(self).vec@.update(index as int, *final(n)),
            final(self).roots@ == old(self).roots@,
            final(self).dists@ == old(self).dists@,
    {
        &mut self.vec[index]
    }

    /// The immediate link target of the slot at `index`: the slot it aliases,
    /// or `index` itself if it is a representative. The result stays within
    /// the same set and never climbs the measure.
    fn parent(&self, index: usize) -> (p: usize)
        requires
            self.wf(),
            index < self.len(),
        ensures
            p < self.len(),
            self.roots@[p as int] == self.roots@[index as int],
            self.dists@[p as int] <= self.dists@[index as int],
            self.vec@[index as int] is Alias ==> self.dists@[p as int]
                < self.dists@[index as int],
            self.vec@[index as int] matches Node::Alias(t) ==> p == t,
            self.vec@[index as int] is Repr ==> p == index,
    {
        proof {
            assert(self.node_ok(index as int));
        }
        match self.node(index) {
            Node::Alias(parent) => *parent,
            Node::Repr(_) => index,
        }
    }

    /// Resolve a handle to its set's current representative, compressing the
    /// chain it walks by path halving: every traversed slot is redirected one
    /// step closer to the representative. The partition, values and ranks are
    /// unchanged.
    pub fn find(&mut self, point: Point) -> (r: Point)
        requires
            old(self).wf(),
            old(self).contains(point),
        ensures
            final(self).wf(),
            final(self).same_sets(*old(self)),
            final(self).contains(r),
            r@ == old(self).repr_of(point@),
            final(self).repr_of(r@) == r@,
            forall|i: int| 0 <= i < old(self).len() ==> #[trigger] final(self).depth_of(i)
                <= old(self).depth_of(i),
    {
        let ghost init = *self;
        let mut cur = point;
        loop
            invariant
                init == *old(self),
                init.wf(),
                self.wf(),
                self.len() == init.len(),
                self.roots@ == init.roots@,
                self.dists@ == init.dists@,
                forall|i: int| 0 <= i < init.len() && init.roots@[i] == i
                    ==> #[trigger] self.vec@[i] == init.vec@[i],
                0 <= cur@ < self.len(),
                0 <= point@ < init.len(),
                init.roots@[cur@] == init.roots@[point@],
            decreases self.dists@[cur@],
        {
            proof {
                assert(self.node_ok(cur@));
            }
            match *self.node(cur.0) {
                Node::Alias(to) => {
                    let ghost mid = *self;
                    let p = self.parent(to);
                    *self.node_mut(cur.0) = Node::Alias(p);
                    proof {
                        lemma_total_weight_update(mid.vec@, cur@, Node::Alias(p));
                        assert forall|i: int| 0 <= i < self.len() implies #[trigger] self
                            .node_ok(i) by {
                            assert(mid.node_ok(i));
                            assert(mid.node_ok(cur@));
                        }
                    }
                    cur = Point(to);
                },
                Node::Repr(_) => {
                    proof {
                        assert forall|i: int| 0 <= i < init.len() implies #[trigger] self
                            .value_of(i) == init.value_of(i) by {
                            assert(init.node_ok(i));
                        }
                        assert forall|i: int| 0 <= i < init.len() implies #[trigger] self
                            .rank_of(i) == init.rank_of(i) by {
                            assert(init.node_ok(i));
                        }
                    }
                    return cur;
                },
            }
        }
    }

    /// Resolve `point` and read its set's current aggregate value in place.
    /// Only paths are compressed: the partition, values and ranks stay as
    /// they were.
    pub fn get(&mut self, point: Point) -> (v: &T)
        requires
            old(self).wf(),
            old(self).contains(point),
        ensures
            final(self).wf(),
            final(self).same_sets(*old(self)),
            *v == old(self).value_of(point@),
    {
        self.find_and_get(point).1
    }

    /// Resolve `point` to its set's representative and read the set's
    /// aggregate value, without repeating the lookup for either.
    pub fn find_and_get(&mut self, point: Point) -> (r: (Point, &T))
        requires
            old(self).wf(),
            old(self).contains(point),
        ensures
            final(self).wf(),
            final(self).same_sets(*old(self)),
            final(self).contains(r.0),
            r.0@ == old(self).repr_of(point@),
            final(self).repr_of(r.0@) == r.0@,
            *r.1 == old(self).value_of(point@),
    {
        let root = self.find(point);
        proof {
            assert(self.node_ok(root@));
            assert(self.repr_of(point@) == root@);
            assert(self.value_of(point@) == self.vec@[root@].spec_value());
        }
        match self.node(root.0) {
            Node::Repr(repr) => (root, repr.data.as_ref().unwrap()),
            Node::Alias(_) => unreached(),
        }
    }

    /// Merge the sets of `a` and `b`. If they are already one set, nothing
    /// changes and the combining function is not consulted. Otherwise the
    /// higher-ranked representative survives (ties keep `a`'s), `merge` is
    /// applied once to the surviving set's value followed by the absorbed
    /// set's value, its result becomes the merged set's value, and the rank
    /// grows by one exactly on a tie. Returns the surviving representative.
    pub fn union<F: FnOnce(T, T) -> T>(&mut self, a: Point, b: Point, merge: F) -> (r: Point)
        requires
            old(self).wf(),
            old(self).contains(a),
            old(self).contains(b),
            old(self).repr_of(a@) != old(self).repr_of(b@) ==> call_requires(
                merge,
                old(self).merge_inputs(a@, b@),
            ),
        ensures
            final(self).wf(),
            final(self).len() == old(self).len(),
            final(self).contains(r),
            r@ == old(self).surviving_root(a@, b@),
            final(self).repr_of(r@) == r@,
            final(self).repr_of(a@) == r@,
            final(self).repr_of(b@) == r@,
            forall|i: int| 0 <= i < old(self).len() ==> #[trigger] final(self).rank_of(i)
                >= old(self).rank_of(i),
            old(self).repr_of(a@) == old(self).repr_of(b@) ==> final(self).same_sets(
                *old(self),
            ),
            old(self).repr_of(a@) != old(self).repr_of(b@) ==> {
                &&& forall|i: int| 0 <= i < old(self).len() ==> #[trigger] final(self).repr_of(i)
                    == (if old(self).repr_of(i) == old(self).repr_of(a@) || old(self).repr_of(i)
                        == old(self).repr_of(b@) {
                        r@
                    } else {
                        old(self).repr_of(i)
                    })
                &&& call_ensures(merge, old(self).merge_inputs(a@, b@), final(self).value_of(a@))
                &&& final(self).rank_of(a@) == old(self).merged_rank(a@, b@)
                &&& forall|i: int|
                    0 <= i < old(self).len() && old(self).repr_of(i) != old(self).repr_of(a@)
                        && old(self).repr_of(i) != old(self).repr_of(b@)
                        ==> #[trigger] final(self).value_of(i) == old(self).value_of(i)
                            && #[trigger] final(self).rank_of(i) == old(self).rank_of(i)
            },
    {
        let ghost orig = *self;
        let ra = self.find(a);
        let ghost s1 = *self;
        let rb = self.find(b);
        proof {
            Self::lemma_same_sets_trans(*self, s1, orig);
        }
        if ra == rb {
            return ra;
        }
        let ghost pre = *self;
        proof {
            assert(pre.repr_of(a@) == ra@ && pre.repr_of(b@) == rb@);
            assert(pre.repr_of(ra@) == ra@ && pre.repr_of(rb@) == rb@);
            assert(pre.node_ok(ra@));
            assert(pre.node_ok(rb@));
            lemma_weight_le_total(pre.vec@, ra@);
            lemma_weight_le_total(pre.vec@, rb@);
            assert(pre.vec.len() == pre.vec@.len());
        }
        let rank_a = self.node(ra.0).rank();
        let rank_b = self.node(rb.0).rank();
        proof {
            assert(pre.rank_of(a@) == rank_a && pre.rank_of(b@) == rank_b);
            assert(pre.value_of(a@) == pre.vec@[ra@].spec_value());
            assert(pre.value_of(b@) == pre.vec@[rb@].spec_value());
        }
        if rank_a < rank_b {
            let ghost l: int = ra@;
            let ghost w: int = rb@;
            let mut node_a = Node::Alias(rb.0);
            core::mem::swap(&mut node_a, self.node_mut(ra.0));
            self.node_mut(rb.0).update(node_a, merge);
            self.roots = Ghost(
                Seq::new(
                    pre.roots@.len(),
                    |i: int| if pre.roots@[i] == l { w } else { pre.roots@[i] },
                ),
            );
            self.dists = Ghost(
                Seq::new(
                    pre.dists@.len(),
                    |i: int|
                        if pre.roots@[i] == l {
                            (pre.dists@[i] + pre.dists@[w] + 1) as nat
                        } else {
                            pre.dists@[i]
                        },
                ),
            );
            proof {
                self.lemma_union_restores(pre, l, w);
                assert(orig.rank_of(a@) == rank_a && orig.rank_of(b@) == rank_b);
                assert(orig.merge_inputs(a@, b@) == (pre.value_of(b@), pre.value_of(a@)));
                assert(call_ensures(merge, orig.merge_inputs(a@, b@), self.value_of(a@)));
                assert(self.rank_of(a@) == orig.merged_rank(a@, b@));
                assert forall|i: int| 0 <= i < orig.len() implies #[trigger] self.repr_of(i)
                    == (if orig.repr_of(i) == orig.repr_of(a@) || orig.repr_of(i)
                        == orig.repr_of(b@) {
                        w
                    } else {
                        orig.repr_of(i)
                    }) by {
                    assert(pre.repr_of(i) == orig.repr_of(i));
                }
                assert forall|i: int|
                    0 <= i < orig.len() && orig.repr_of(i) != orig.repr_of(a@) && orig.repr_of(i)
                        != orig.repr_of(b@) implies self.value_of(i) == orig.value_of(i)
                    && self.rank_of(i) == orig.rank_of(i) by {
                    assert(pre.repr_of(i) == orig.repr_of(i));
                    assert(self.value_of(i) == pre.value_of(i));
                    assert(self.rank_of(i) == pre.rank_of(i));
                }
                assert forall|i: int| 0 <= i < orig.len() implies #[trigger] self.rank_of(i)
                    >= orig.rank_of(i) by {
                    assert(self.rank_of(i) >= pre.rank_of(i));
                }
            }
            rb
        } else {
            let ghost l: int = rb@;
            let ghost w: int = ra@;
            let mut node_b = Node::Alias(ra.0);
            core::mem::swap(&mut node_b, self.node_mut(rb.0));
            self.node_mut(ra.0).update(node_b, merge);
            self.roots = Ghost(
                Seq::new(
                    pre.roots@.len(),
                    |i: int| if pre.roots@[i] == l { w } else { pre.roots@[i] },
                ),
            );
            self.dists = Ghost(
                Seq::new(
                    pre.dists@.len(),
                    |i: int|
                        if pre.roots@[i] == l {
                            (pre.dists@[i] + pre.dists@[w] + 1) as nat
                        } else {
                            pre.dists@[i]
                        },
                ),
            );
            proof {
                self.lemma_union_restores(pre, l, w);
                assert(orig.rank_of(a@) == rank_a && orig.rank_of(b@) == rank_b);
                assert(orig.merge_inputs(a@, b@) == (pre.value_of(a@), pre.value_of(b@)));
                assert(call_ensures(merge, orig.merge_inputs(a@, b@), self.value_of(a@)));
                assert(self.rank_of(a@) == orig.merged_rank(a@, b@));
                assert forall|i: int| 0 <= i < orig.len() implies #[trigger] self.repr_of(i)
                    == (if orig.repr_of(i) == orig.repr_of(a@) || orig.repr_of(i)
                        == orig.repr_of(b@) {
                        w
                    } else {
                        orig.repr_of(i)
                    }) by {
                    assert(pre.repr_of(i) == orig.repr_of(i));
                }
                assert forall|i: int|
                    0 <= i < orig.len() && orig.repr_of(i) != orig.repr_of(a@) && orig.repr_of(i)
                        != orig.repr_of(b@) implies self.value_of(i) == orig.value_of(i)
                    && self.rank_of(i) == orig.rank_of(i) by {
                    assert(pre.repr_of(i) == orig.repr_of(i));
                    assert(self.value_of(i) == pre.value_of(i));
                    assert(self.rank_of(i) == pre.rank_of(i));
                }
                assert forall|i: int| 0 <= i < orig.len() implies #[trigger] self.rank_of(i)
                    >= orig.rank_of(i) by {
                    assert(self.rank_of(i) >= pre.rank_of(i));
                }
            }
            ra
        }
    }

    /// After a merge has rewritten the losing root `l` into a link to the
    /// winning root `w` and refreshed `w`'s slot, the rewritten forest is
    /// well formed again, and each element's set is as before except that the
    /// losing set now answers to `w`.
    proof fn lemma_union_restores(self, pre: Self, l: int, w: int)
        requires
            pre.wf(),
            l != w,
            0 <= l < pre.len(),
            0 <= w < pre.len(),
            pre.repr_of(l) == l,
            pre.repr_of(w) == w,
            self.roots@ == Seq::new(
                pre.roots@.len(),
                |i: int| if pre.roots@[i] == l { w } else { pre.roots@[i] },
            ),
            self.dists@ == Seq::new(
                pre.dists@.len(),
                |i: int|
                    if pre.roots@[i] == l {
                        (pre.dists@[i] + pre.dists@[w] + 1) as nat
                    } else {
                        pre.dists@[i]
                    },
            ),
            self.vec@ == pre.vec@.update(l, Node::Alias(w as usize)).update(w, self.vec@[w]),
            w as usize as int == w,
            self.vec@[w].has_value(),
            self.vec@[w].spec_rank() >= pre.vec@[w].spec_rank(),
            self.vec@[w].spec_rank() <= pre.vec@[w].spec_rank() + 1,
            self.vec@[w].spec_rank() == pre.vec@[w].spec_rank() + 1 ==> pre.vec@[l].spec_rank()
                == pre.vec@[w].spec_rank(),
            pre.vec@[l].spec_rank() <= pre.vec@[w].spec_rank(),
        ensures
            self.wf(),
            self.len() == pre.len(),
            forall|i: int| 0 <= i < pre.len() ==> #[trigger] self.repr_of(i) == (if pre.repr_of(
                i,
            ) == l {
                w
            } else {
                pre.repr_of(i)
            }),
            forall|i: int| 0 <= i < pre.len() && pre.repr_of(i) != l && pre.repr_of(i) != w
                ==> #[trigger] self.value_of(i) == pre.value_of(i),
            forall|i: int| 0 <= i < pre.len() && pre.repr_of(i) != l && pre.repr_of(i) != w
                ==> #[trigger] self.rank_of(i) == pre.rank_of(i),
            forall|i: int| 0 <= i < pre.len() && (pre.repr_of(i) == l || pre.repr_of(i) == w)
                ==> #[trigger] self.value_of(i) == self.vec@[w].spec_value(),
            forall|i: int| 0 <= i < pre.len() && (pre.repr_of(i) == l || pre.repr_of(i) == w)
                ==> #[trigger] self.rank_of(i) == self.vec@[w].spec_rank(),
            forall|i: int| 0 <= i < pre.len() ==> #[trigger] self.rank_of(i) >= pre.rank_of(i),
    {
        assert(pre.node_ok(l));
        assert(pre.node_ok(w));
        let mid = pre.vec@.update(l, Node::Alias(w as usize));
        lemma_total_weight_update(pre.vec@, l, Node::Alias(w as usize));
        lemma_total_weight_update(mid, w, self.vec@[w]);
        assert(weight(pre.vec@[l]) == pre.vec@[l].spec_rank() + 1);
        assert(weight(self.vec@[w]) <= weight(pre.vec@[w]) + 1);
        assert(total_weight(self.vec@) <= pre.len());
        assert forall|i: int| 0 <= i < self.len() implies #[trigger] self.node_ok(i) by {
            assert(pre.node_ok(i));
            if pre.roots@[i] == l {
                if i != l {
                    assert(self.vec@[i] == pre.vec@[i]);
                }
            } else {
                if i != w {
                    assert(self.vec@[i] == pre.vec@[i]);
                }
            }
        }
        assert forall|i: int| 0 <= i < pre.len() && pre.repr_of(i) != l && pre.repr_of(i) != w
            implies #[trigger] self.value_of(i) == pre.value_of(i) by {
            assert(pre.node_ok(i));
            assert(self.vec@[pre.roots@[i]] == pre.vec@[pre.roots@[i]]);
        }
        assert forall|i: int| 0 <= i < pre.len() && pre.repr_of(i) != l && pre.repr_of(i) != w
            implies #[trigger] self.rank_of(i) == pre.rank_of(i) by {
            assert(pre.node_ok(i));
            assert(self.vec@[pre.roots@[i]] == pre.vec@[pre.roots@[i]]);
        }
        assert forall|i: int| 0 <= i < pre.len() && (pre.repr_of(i) == l || pre.repr_of(i) == w)
            implies #[trigger] self.value_of(i) == self.vec@[w].spec_value() by {
            assert(pre.node_ok(i));
        }
        assert forall|i: int| 0 <= i < pre.len() && (pre.repr_of(i) == l || pre.repr_of(i) == w)
            implies #[trigger] self.rank_of(i) == self.vec@[w].spec_rank() by {
            assert(pre.node_ok(i));
        }
        assert forall|i: int| 0 <= i < pre.len() implies #[trigger] self.rank_of(i)
            >= pre.rank_of(i) by {
            assert(pre.node_ok(i));
            if pre.repr_of(i) == l || pre.repr_of(i) == w {
                assert(self.rank_of(i) == self.vec@[w].spec_rank());
            } else {
                assert(self.vec@[pre.roots@[i]] == pre.vec@[pre.roots@[i]]);
            }
        }
    }
}

} // verus!
