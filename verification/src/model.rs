//! The mathematical model of a disjoint-set forest.
//!
//! A forest state is a sequence of nodes; `wf` is its well-formedness
//! invariant.  Because ranks grow strictly along parent links, every parent
//! chain terminates, which makes the representative `root_of` a total
//! function on well-formed states.

use crate::forest::Repr;
use vstd::prelude::*;

verus! {

/// The node in slot `i` is locally sound: it knows its own slot, its parent
/// link stays inside the forest, and a link to a proper parent climbs to a
/// strictly larger rank.
pub open spec fn link_ok<T>(s: Seq<Repr<T>>, i: int) -> bool {
    &&& s[i].id == i
    &&& 0 <= s[i].parent < s.len()
    &&& (s[i].parent != i ==> s[i].rank < s[s[i].parent as int].rank)
}

/// The slots whose node is attached below some other node (the non-roots).
pub open spec fn attached<T>(s: Seq<Repr<T>>) -> Set<int> {
    Set::new(|j: int| 0 <= j < s.len() && s[j].parent != j)
}

/// Well-formedness of a forest state: every link is locally sound, and every
/// rank is bounded by the number of attached nodes (each rank increment goes
/// with one root becoming attached, for good), hence by the forest size.
pub open spec fn wf<T>(s: Seq<Repr<T>>) -> bool {
    &&& forall|i: int| 0 <= i < s.len() ==> #[trigger] link_ok(s, i)
    &&& forall|i: int| 0 <= i < s.len() ==> #[trigger] s[i].rank <= attached(s).len()
    &&& forall|i: int| 0 <= i < s.len() ==> #[trigger] s[i].rank < s.len()
}

/// The representative of the class of the node in slot `i`: the slot reached
/// by following parent links until a node is its own parent.
pub open spec fn root_of<T>(s: Seq<Repr<T>>, i: int) -> int
    decreases s.len() - s[i].rank,
        when 0 <= i < s.len() && wf(s)
{
    if s[i].parent == i {
        i
    } else {
        proof {
            assert(link_ok(s, i));
        }
        root_of(s, s[i].parent as int)
    }
}

/// How many parent links separate the node in slot `i` from its
/// representative.
pub open spec fn depth_of<T>(s: Seq<Repr<T>>, i: int) -> int
    decreases s.len() - s[i].rank,
        when 0 <= i < s.len() && wf(s)
{
    if s[i].parent == i {
        0
    } else {
        proof {
            assert(link_ok(s, i));
        }
        1 + depth_of(s, s[i].parent as int)
    }
}

/// The slot that heads the merged class after the classes of `a` and `b` are
/// united: the higher-ranked of the two representatives, the first argument's
/// representative when the ranks tie.
pub open spec fn merged_root<T>(s: Seq<Repr<T>>, a: int, b: int) -> int {
    let la = root_of(s, a);
    let lb = root_of(s, b);
    if la == lb {
        la
    } else if s[la].rank < s[lb].rank {
        lb
    } else {
        la
    }
}

/// Whether uniting the classes of `a` and `b` raises the surviving root's
/// rank: exactly when two distinct roots of equal rank meet.
pub open spec fn rank_bump<T>(s: Seq<Repr<T>>, a: int, b: int) -> int {
    let la = root_of(s, a);
    let lb = root_of(s, b);
    if la != lb && s[la].rank == s[lb].rank {
        1
    } else {
        0
    }
}

/// The representative of any slot is a root inside the forest, and ranks
/// never shrink on the way up to it — strictly growing from any attached
/// node.
pub proof fn lemma_root_of_props<T>(s: Seq<Repr<T>>, i: int)
    requires
        wf(s),
        0 <= i < s.len(),
    ensures
        0 <= root_of(s, i) < s.len(),
        s[root_of(s, i)].parent == root_of(s, i),
        s[i].rank <= s[root_of(s, i)].rank,
        s[i].parent != i ==> s[i].rank < s[root_of(s, i)].rank,
    decreases s.len() - s[i].rank,
{
    assert(link_ok(s, i));
    if s[i].parent != i {
        lemma_root_of_props(s, s[i].parent as int);
    }
}

/// Appending a fresh singleton node leaves the forest well-formed and
/// disturbs no existing class: `s2` is `s` plus one node in the new slot
/// `s.len()` that is its own parent with rank `0`.
pub proof fn lemma_extend<T>(s: Seq<Repr<T>>, s2: Seq<Repr<T>>)
    requires
        wf(s),
        s2.len() == s.len() + 1,
        forall|j: int| 0 <= j < s.len() ==> s2[j] == s[j],
        s2[s.len() as int].parent == s.len(),
        s2[s.len() as int].rank == 0,
        s2[s.len() as int].id == s.len(),
    ensures
        wf(s2),
        forall|j: int| 0 <= j < s.len() ==> root_of(s2, j) == root_of(s, j),
        root_of(s2, s.len() as int) == s.len() as int,
{
    assert(attached(s2) =~= attached(s));
    assert forall|i: int| 0 <= i < s2.len() implies link_ok(s2, i) by {
        if i < s.len() {
            assert(link_ok(s, i));
            assert(s2[s[i].parent as int] == s[s[i].parent as int]);
        }
    }
    assert(wf(s2));
    assert forall|j: int| 0 <= j < s.len() implies root_of(s2, j) == root_of(s, j) by {
        lemma_extend_root(s, s2, j);
    }
}

/// Law: a node that is its own parent is the representative of its own
/// class.  A freshly constructed node is its own parent, so it starts out as
/// its own representative.
pub proof fn lemma_self_parent_is_representative<T>(s: Seq<Repr<T>>, i: int)
    requires
        wf(s),
        0 <= i < s.len(),
        s[i].parent == i,
    ensures
        root_of(s, i) == i,
{
}

/// Law (separateness): distinct roots head distinct classes.  Hence two
/// nodes whose classes were never merged — directly or through
/// intermediaries — keep different representatives.
pub proof fn lemma_distinct_roots<T>(s: Seq<Repr<T>>, i: int, j: int)
    requires
        wf(s),
        0 <= i < s.len(),
        0 <= j < s.len(),
        i != j,
        s[i].parent == i,
        s[j].parent == j,
    ensures
        root_of(s, i) != root_of(s, j),
{
}

/// Law: uniting two nodes that already share a class is a no-op — the
/// merged root is just their common representative and no rank grows.  In
/// particular, right after the classes of `a` and `b` are united, uniting
/// them again (in either order) changes no class and no rank.
pub proof fn lemma_redundant_union<T>(s: Seq<Repr<T>>, a: int, b: int)
    requires
        wf(s),
        0 <= a < s.len(),
        0 <= b < s.len(),
        root_of(s, a) == root_of(s, b),
    ensures
        merged_root(s, a, b) == root_of(s, a),
        merged_root(s, b, a) == root_of(s, a),
        rank_bump(s, a, b) == 0,
        rank_bump(s, b, a) == 0,
{
}

/// Law (no cycles): from any node, following parent links climbs through
/// strictly growing ranks to a node that is its own parent, in at most as
/// many steps as the root's rank exceeds the start's — always fewer steps
/// than the forest has nodes.
pub proof fn lemma_parent_chain_terminates<T>(s: Seq<Repr<T>>, i: int)
    requires
        wf(s),
        0 <= i < s.len(),
    ensures
        s[root_of(s, i)].parent == root_of(s, i),
        depth_of(s, i) + s[i].rank <= s[root_of(s, i)].rank,
        0 <= depth_of(s, i) < s.len(),
    decreases s.len() - s[i].rank,
{
    assert(link_ok(s, i));
    lemma_root_of_props(s, i);
    if s[i].parent != i {
        lemma_parent_chain_terminates(s, s[i].parent as int);
    }
}

/// Path compression is invisible to the partition: re-pointing one node
/// straight at its own representative (all other fields and all other nodes
/// unchanged) keeps the forest well-formed, keeps every node's
/// representative, and attaches or detaches nobody.
pub proof fn lemma_compress<T>(s: Seq<Repr<T>>, s2: Seq<Repr<T>>, i: int)
    requires
        wf(s),
        0 <= i < s.len(),
        s2.len() == s.len(),
        forall|j: int| 0 <= j < s.len() && j != i ==> s2[j] == s[j],
        s2[i].parent == root_of(s, i),
        s2[i].rank == s[i].rank,
        s2[i].id == s[i].id,
        s2[i].tag == s[i].tag,
    ensures
        wf(s2),
        forall|j: int| 0 <= j < s.len() ==> root_of(s2, j) == root_of(s, j),
        attached(s2) == attached(s),
{
    lemma_root_of_props(s, i);
    assert(attached(s2) =~= attached(s));
    assert forall|j: int| 0 <= j < s2.len() implies link_ok(s2, j) by {
        assert(link_ok(s, j));
        assert(link_ok(s, s[j].parent as int));
    }
    assert(wf(s2));
    assert forall|j: int| 0 <= j < s.len() implies root_of(s2, j) == root_of(s, j) by {
        lemma_compress_root(s, s2, i, j);
    }
}

proof fn lemma_compress_root<T>(s: Seq<Repr<T>>, s2: Seq<Repr<T>>, i: int, j: int)
    requires
        wf(s),
        wf(s2),
        0 <= i < s.len(),
        s2.len() == s.len(),
        forall|k: int| 0 <= k < s.len() && k != i ==> s2[k] == s[k],
        s2[i].parent == root_of(s, i),
        s2[i].rank == s[i].rank,
        0 <= j < s.len(),
    ensures
        root_of(s2, j) == root_of(s, j),
    decreases s.len() - s[j].rank,
{
    lemma_root_of_props(s, i);
    assert(link_ok(s, j));
    if j == i {
        if s[i].parent == i {
            // the node was a root: nothing moved
            assert(root_of(s2, j) == root_of(s, j));
        } else {
            // the node now hangs right below its old representative
            let r = root_of(s, i);
            assert(s2[r] == s[r]);
            assert(root_of(s2, r) == r);
            assert(root_of(s2, j) == r);
        }
    } else {
        if s[j].parent != j {
            lemma_compress_root(s, s2, i, s[j].parent as int);
        }
    }
}

/// The attached slots avoid every root, so with two distinct roots present
/// the attached count stays two below the forest size.
pub proof fn lemma_attached_avoids_roots<T>(s: Seq<Repr<T>>, r1: int, r2: int)
    requires
        0 <= r1 < s.len(),
        0 <= r2 < s.len(),
        r1 != r2,
        s[r1].parent == r1,
        s[r2].parent == r2,
    ensures
        attached(s).finite(),
        attached(s).len() <= s.len() - 2,
{
    vstd::set_lib::lemma_int_range(0, s.len() as int);
    let base = vstd::set_lib::set_int_range(0, s.len() as int);
    let trimmed = base.remove(r1).remove(r2);
    assert(base.remove(r1).len() == s.len() - 1);
    assert(trimmed.len() == s.len() - 2);
    assert(attached(s).subset_of(trimmed));
    vstd::set_lib::lemma_len_subset(attached(s), trimmed);
}

/// Union by rank: hanging the root `c` below the distinct root `p` — either
/// keeping `p`'s rank because it was strictly larger, or raising it by one
/// from a tie — keeps the forest well-formed, and moves exactly the nodes of
/// `c`'s class into `p`'s class.
pub proof fn lemma_link_roots<T>(s: Seq<Repr<T>>, s2: Seq<Repr<T>>, c: int, p: int)
    requires
        wf(s),
        0 <= c < s.len(),
        0 <= p < s.len(),
        c != p,
        s[c].parent == c,
        s[p].parent == p,
        s2.len() == s.len(),
        forall|j: int| 0 <= j < s.len() && j != c && j != p ==> s2[j] == s[j],
        s2[c].parent == p,
        s2[c].rank == s[c].rank,
        s2[c].id == s[c].id,
        s2[c].tag == s[c].tag,
        s2[p].parent == p,
        s2[p].id == s[p].id,
        s2[p].tag == s[p].tag,
        (s2[p].rank == s[p].rank && s[c].rank < s[p].rank) || (s2[p].rank == s[p].rank + 1
            && s[c].rank == s[p].rank),
    ensures
        wf(s2),
        forall|j: int|
            0 <= j < s.len() ==> root_of(s2, j) == (if root_of(s, j) == c {
                p
            } else {
                root_of(s, j)
            }),
        attached(s2) == attached(s).insert(c),
{
    lemma_attached_avoids_roots(s, c, p);
    assert(attached(s2) =~= attached(s).insert(c));
    assert(!attached(s).contains(c));
    assert(attached(s2).len() == attached(s).len() + 1);
    assert forall|j: int| 0 <= j < s2.len() implies link_ok(s2, j) by {
        assert(link_ok(s, j));
        assert(link_ok(s, s[j].parent as int));
    }
    assert(wf(s2));
    assert forall|j: int| 0 <= j < s.len() implies root_of(s2, j) == (if root_of(s, j) == c {
        p
    } else {
        root_of(s, j)
    }) by {
        lemma_link_roots_map(s, s2, c, p, j);
    }
}

proof fn lemma_link_roots_map<T>(s: Seq<Repr<T>>, s2: Seq<Repr<T>>, c: int, p: int, j: int)
    requires
        wf(s),
        wf(s2),
        0 <= c < s.len(),
        0 <= p < s.len(),
        c != p,
        s[c].parent == c,
        s[p].parent == p,
        s2.len() == s.len(),
        forall|k: int| 0 <= k < s.len() && k != c && k != p ==> s2[k] == s[k],
        s2[c].parent == p,
        s2[p].parent == p,
        0 <= j < s.len(),
    ensures
        root_of(s2, j) == (if root_of(s, j) == c {
            p
        } else {
            root_of(s, j)
        }),
    decreases s.len() - s[j].rank,
{
    assert(link_ok(s, j));
    if j == c {
        assert(root_of(s, c) == c);
        assert(root_of(s2, p) == p);
        assert(root_of(s2, c) == p);
    } else if s[j].parent == j {
        assert(root_of(s2, j) == j);
        assert(root_of(s, j) == j);
    } else {
        lemma_link_roots_map(s, s2, c, p, s[j].parent as int);
    }
}

proof fn lemma_extend_root<T>(s: Seq<Repr<T>>, s2: Seq<Repr<T>>, j: int)
    requires
        wf(s),
        wf(s2),
        s2.len() == s.len() + 1,
        forall|k: int| 0 <= k < s.len() ==> s2[k] == s[k],
        0 <= j < s.len(),
    ensures
        root_of(s2, j) == root_of(s, j),
    decreases s.len() - s[j].rank,
{
    assert(link_ok(s, j));
    if s[j].parent != j {
        lemma_extend_root(s, s2, s[j].parent as int);
    }
}

} // verus!
