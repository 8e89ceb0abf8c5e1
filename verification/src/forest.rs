//! The disjoint-set element and the arena that holds the elements.

use crate::model::attached;
use crate::model::lemma_compress;
use crate::model::lemma_extend;
use crate::model::lemma_link_roots;
use crate::model::lemma_root_of_props;
use crate::model::link_ok;
use crate::model::merged_root;
use crate::model::rank_bump;
use crate::model::root_of;
use crate::model::wf;
use vstd::prelude::*;

verus! {

/// One element of a disjoint-set forest.
///
/// `id` is the index of the node's own slot in the arena and never changes
/// after construction; `parent` is the index of the node's parent slot.  A
/// node is a root exactly when `parent == id`.  `rank` is an upper bound on
/// the height of the subtree below the node while it is a root; it is
/// meaningless (but kept) once the node is attached under another root.
/// `tag` is arbitrary caller data that the algorithms never interpret.
pub struct Repr<T> {
    pub tag: T,
    pub rank: usize,
    pub parent: usize,
    pub id: usize,
}

impl<T> Repr<T> {
    /// A fresh singleton node destined for slot `id`: rank `0`, its own parent.
    pub fn new(tag: T, id: usize) -> (r: Repr<T>)
        ensures
            r.tag == tag,
            r.rank == 0,
            r.parent == id,
            r.id == id,
    {
        Repr { tag, rank: 0, parent: id, id }
    }

    /// Whether this node is, at this instant, the representative of its class.
    pub fn is_root(&self) -> (b: bool)
        ensures
            b == (self.parent == self.id),
    {
        self.parent == self.id
    }
}

/// An arena of [`Repr`] nodes.  Slots are never removed or reordered, so the
/// index handed out by [`Forest::push`] stays valid for the forest's whole
/// life — the index plays the part a stable address would.
pub struct Forest<T> {
    nodes: Vec<Repr<T>>,
}

impl<T> View for Forest<T> {
    type V = Seq<Repr<T>>;

    closed spec fn view(&self) -> Seq<Repr<T>> {
        self.nodes@
    }
}

impl<T> Forest<T> {
    /// Whether the forest is in a well-formed state.  Every operation
    /// preserves this, and [`Forest::new`] establishes it.
    pub open spec fn wf(&self) -> bool {
        crate::model::wf(self@)
    }

    /// An empty forest.
    pub fn new() -> (f: Forest<T>)
        ensures
            f@ == Seq::<Repr<T>>::empty(),
            f.wf(),
    {
        let f = Forest { nodes: Vec::new() };
        proof {
            assert(attached(f@) =~= Set::<int>::empty());
        }
        f
    }

    /// Add a fresh node carrying `tag` to the forest and return its slot.
    /// The node starts as its own singleton class: its own parent, rank `0`,
    /// in a class apart from every node already present.
    pub fn push(&mut self, tag: T) -> (i: usize)
        requires
            old(self).wf(),
        ensures
            final(self).wf(),
            i == old(self)@.len(),
            final(self)@.len() == old(self)@.len() + 1,
            forall|j: int| 0 <= j < old(self)@.len() ==> final(self)@[j] == old(self)@[j],
            final(self)@[i as int].tag == tag,
            final(self)@[i as int].rank == 0,
            final(self)@[i as int].parent == i,
            final(self)@[i as int].id == i,
            forall|j: int|
                0 <= j < old(self)@.len() ==> root_of(final(self)@, j) == root_of(old(self)@, j),
            root_of(final(self)@, i as int) == i,
            forall|j: int| 0 <= j < old(self)@.len() ==> root_of(final(self)@, j) != i,
    {
        let i = self.nodes.len();
        let node = Repr::new(tag, i);
        self.nodes.push(node);
        proof {
            lemma_extend(old(self)@, self@);
            assert forall|j: int| 0 <= j < old(self)@.len() implies root_of(self@, j)
                != i as int by {
                lemma_root_of_props(old(self)@, j);
            }
        }
        i
    }

    /// The representative of the class of the node in slot `i`.
    ///
    /// Walks the parent chain up to the root, then rewrites every node on the
    /// walked path to point straight at the root (path compression), so the
    /// call mutates the forest even though it answers a question.  The
    /// partition itself — which nodes share a class — is untouched, as are
    /// all tags and ranks; and a chain that is already compressed is left
    /// exactly as it was, so an immediate second call changes nothing.
    pub fn find(&mut self, i: usize) -> (r: usize)
        requires
            old(self).wf(),
            i < old(self)@.len(),
        ensures
            final(self).wf(),
            final(self)@.len() == old(self)@.len(),
            r < old(self)@.len(),
            r as int == root_of(old(self)@, i as int),
            final(self)@[r as int].parent == r,
            final(self)@[i as int].parent == r,
            forall|j: int|
                0 <= j < old(self)@.len() ==> root_of(final(self)@, j) == root_of(old(self)@, j),
            forall|j: int| 0 <= j < old(self)@.len() ==> final(self)@[j].tag == old(self)@[j].tag,
            forall|j: int|
                0 <= j < old(self)@.len() ==> final(self)@[j].rank == old(self)@[j].rank,
            forall|j: int| 0 <= j < old(self)@.len() ==> final(self)@[j].id == old(self)@[j].id,
            attached(final(self)@) == attached(old(self)@),
            old(self)@[i as int].parent == root_of(old(self)@, i as int) ==> final(self)@
                == old(self)@,
    {
        let ghost s0 = self@;
        // walk up to the representative without touching anything
        let mut cur: usize = i;
        while self.nodes[cur].parent != cur
            invariant
                self@ == s0,
                wf(s0),
                i < s0.len(),
                cur < s0.len(),
                root_of(s0, cur as int) == root_of(s0, i as int),
            decreases s0.len() - s0[cur as int].rank,
        {
            proof {
                assert(link_ok(s0, cur as int));
            }
            cur = self.nodes[cur].parent;
        }
        let root = cur;
        // rewrite every node on the walked path to point at it
        let mut cur: usize = i;
        while self.nodes[cur].parent != cur
            invariant
                self.wf(),
                self@.len() == s0.len(),
                wf(s0),
                i < s0.len(),
                cur < s0.len(),
                root < s0.len(),
                root as int == root_of(s0, i as int),
                self@[root as int].parent == root,
                root_of(self@, cur as int) == root as int,
                forall|j: int| 0 <= j < s0.len() ==> root_of(self@, j) == root_of(s0, j),
                forall|j: int| 0 <= j < s0.len() ==> self@[j].tag == s0[j].tag,
                forall|j: int| 0 <= j < s0.len() ==> self@[j].rank == s0[j].rank,
                forall|j: int| 0 <= j < s0.len() ==> self@[j].id == s0[j].id,
                attached(self@) == attached(s0),
                self@[i as int].parent == root || cur == i,
                s0[i as int].parent == root_of(s0, i as int) ==> (self@ == s0 && (cur == i
                    || s0[cur as int].parent == cur)),
            decreases s0.len() - self@[cur as int].rank,
        {
            let ghost prev = self@;
            let p = self.nodes[cur].parent;
            self.nodes[cur].parent = root;
            proof {
                assert(link_ok(prev, cur as int));
                assert(self@ =~= prev.update(
                    cur as int,
                    (Repr {
                        tag: prev[cur as int].tag,
                        rank: prev[cur as int].rank,
                        parent: root,
                        id: prev[cur as int].id,
                    }),
                ));
                lemma_compress(prev, self@, cur as int);
                if s0[i as int].parent == root_of(s0, i as int) {
                    assert(self@ =~= s0);
                }
            }
            cur = p;
        }
        proof {
            assert(root_of(self@, cur as int) == cur as int);
        }
        root
    }

    /// Merge the class of `a` and the class of `b` into one class.
    ///
    /// Both representatives are located first (compressing the two paths on
    /// the way, as `find` does).  If they coincide the classes were already
    /// one and nothing further happens.  Otherwise the lower-ranked root is
    /// hung below the higher-ranked one; on a tie the first argument's root
    /// survives and its rank grows by one.  No other rank, and no tag or id,
    /// ever changes, and classes other than the two merged ones are left as
    /// they were.
    pub fn union(&mut self, a: usize, b: usize)
        requires
            old(self).wf(),
            a < old(self)@.len(),
            b < old(self)@.len(),
        ensures
            final(self).wf(),
            final(self)@.len() == old(self)@.len(),
            forall|j: int| 0 <= j < old(self)@.len() ==> final(self)@[j].tag == old(self)@[j].tag,
            forall|j: int| 0 <= j < old(self)@.len() ==> final(self)@[j].id == old(self)@[j].id,
            root_of(final(self)@, a as int) == root_of(final(self)@, b as int),
            root_of(final(self)@, a as int) == merged_root(old(self)@, a as int, b as int),
            forall|j: int|
                0 <= j < old(self)@.len() ==> root_of(final(self)@, j) == (if root_of(
                    old(self)@,
                    j,
                ) == root_of(old(self)@, a as int) || root_of(old(self)@, j) == root_of(
                    old(self)@,
                    b as int,
                ) {
                    merged_root(old(self)@, a as int, b as int)
                } else {
                    root_of(old(self)@, j)
                }),
            forall|j: int|
                0 <= j < old(self)@.len() && j != merged_root(old(self)@, a as int, b as int)
                    ==> final(self)@[j].rank == old(self)@[j].rank,
            final(self)@[merged_root(old(self)@, a as int, b as int)].rank == old(self)@[merged_root(
                old(self)@,
                a as int,
                b as int,
            )].rank + rank_bump(old(self)@, a as int, b as int),
    {
        let ghost s0 = self@;
        let lhs = self.find(a);
        let ghost s1 = self@;
        let rhs = self.find(b);
        let ghost s2 = self@;
        proof {
            lemma_root_of_props(s0, a as int);
            lemma_root_of_props(s0, b as int);
            // the first representative is still a root after the second walk
            assert(root_of(s1, lhs as int) == lhs as int);
            assert(root_of(s2, lhs as int) == lhs as int);
            lemma_root_of_props(s2, lhs as int);
            assert(s2[lhs as int].parent == lhs);
        }
        if lhs != rhs {
            let n = self.nodes.len();
            let lhs_rank = self.nodes[lhs].rank;
            let rhs_rank = self.nodes[rhs].rank;
            if lhs_rank < rhs_rank {
                self.nodes[lhs].parent = rhs;
                proof {
                    lemma_link_roots(s2, self@, lhs as int, rhs as int);
                }
            } else {
                self.nodes[rhs].parent = lhs;
                if lhs_rank == rhs_rank {
                    proof {
                        assert(lhs_rank < n);
                    }
                    self.nodes[lhs].rank = lhs_rank + 1;
                }
                proof {
                    lemma_link_roots(s2, self@, rhs as int, lhs as int);
                }
            }
        }
    }

    /// How many nodes the forest holds.
    pub fn len(&self) -> (n: usize)
        ensures
            n == self@.len(),
    {
        self.nodes.len()
    }

    /// A view of the node in slot `i`.
    pub fn node(&self, i: usize) -> (r: &Repr<T>)
        requires
            i < self@.len(),
        ensures
            *r == self@[i as int],
    {
        &self.nodes[i]
    }
}

} // verus!
