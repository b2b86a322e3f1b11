//! A disjoint-set forest with union by rank and path compression. The
//! elements are named by contiguous indices; each node records its father's
//! name, and a root is its own father. In specifications the structure is
//! read through `root_of`, the canonical representative of an element.

use vstd::prelude::*;

verus! {

/// One element of the forest: its `name` (its index), its `rank`, and the
/// `name` of its father. A root is its own father.
pub struct TreeNode {
    pub rank: usize,
    pub name: usize,
    pub father: usize,
}

impl TreeNode {
    /// A fresh singleton element that is its own father.
    pub fn make_set(x: usize) -> (r: TreeNode)
        ensures
            r.rank == 0,
            r.name == x,
            r.father == x,
    {
        TreeNode { rank: 0, name: x, father: x }
    }

    /// The name of this element's father.
    pub fn father(&self) -> (r: usize)
        ensures
            r == self.father,
    {
        self.father
    }

    /// This element's own name.
    pub fn name(&self) -> (r: usize)
        ensures
            r == self.name,
    {
        self.name
    }
}

/// Fathers stay in range and ranks strictly increase towards a root, so
/// every father walk terminates.
pub open spec fn fathers_ok(nodes: Seq<TreeNode>) -> bool {
    &&& forall|i: int| 0 <= i < nodes.len() ==> (#[trigger] nodes[i]).father < nodes.len()
    &&& forall|i: int| 0 <= i < nodes.len() ==> (#[trigger] nodes[i]).rank <= nodes.len()
    &&& forall|i: int|
        0 <= i < nodes.len() && (#[trigger] nodes[i]).father != i ==> nodes[nodes[i].father
            as int].rank > nodes[i].rank
}

/// The names of the roots of `nodes`: one per set in the forest.
pub open spec fn roots_of(nodes: Seq<TreeNode>) -> Set<int> {
    Set::new(|i: int| 0 <= i < nodes.len() && nodes[i].father == i)
}

/// The root reached from `x` by following father links.
pub open spec fn seq_root_of(nodes: Seq<TreeNode>, x: int) -> int
    decreases nodes.len() - nodes[x].rank,
        when fathers_ok(nodes) && 0 <= x < nodes.len()
{
    let f = nodes[x].father as int;
    if f == x {
        x
    } else {
        seq_root_of(nodes, f)
    }
}

/// The representative of any element is a root in range whose rank is at
/// least the element's own.
proof fn lemma_root_of_props(nodes: Seq<TreeNode>, x: int)
    requires
        fathers_ok(nodes),
        0 <= x < nodes.len(),
    ensures
        0 <= seq_root_of(nodes, x) < nodes.len(),
        nodes[seq_root_of(nodes, x)].father == seq_root_of(nodes, x),
        nodes[seq_root_of(nodes, x)].rank >= nodes[x].rank,
    decreases nodes.len() - nodes[x].rank,
{
    let f = nodes[x].father as int;
    if f != x {
        lemma_root_of_props(nodes, f);
    }
}

/// Re-pointing one non-root element straight at its own representative
/// changes no element's representative.
proof fn lemma_compress(nodes: Seq<TreeNode>, nodes2: Seq<TreeNode>, x: int, y: int)
    requires
        fathers_ok(nodes),
        fathers_ok(nodes2),
        0 <= x < nodes.len(),
        nodes[x].father != x,
        nodes2 == nodes.update(x, TreeNode {
            rank: nodes[x].rank,
            name: nodes[x].name,
            father: seq_root_of(nodes, x) as usize,
        }),
        0 <= y < nodes.len(),
    ensures
        seq_root_of(nodes2, y) == seq_root_of(nodes, y),
    decreases nodes.len() - nodes[y].rank,
{
    lemma_root_of_props(nodes, x);
    let fy = nodes[y].father as int;
    if y == x {
        let r = seq_root_of(nodes, x);
        assert(nodes2[y].father == r);
        assert(nodes2[r] == nodes[r]);
        assert(seq_root_of(nodes2, y) == seq_root_of(nodes2, r));
    } else {
        assert(nodes2[y] == nodes[y]);
        if fy != y {
            lemma_compress(nodes, nodes2, x, fy);
        }
    }
}

/// A new singleton element leaves every existing representative unchanged.
proof fn lemma_push_keeps_roots(nodes: Seq<TreeNode>, nodes2: Seq<TreeNode>, y: int)
    requires
        fathers_ok(nodes),
        fathers_ok(nodes2),
        nodes2 == nodes.push(TreeNode {
            rank: 0,
            name: nodes.len() as usize,
            father: nodes.len() as usize,
        }),
        0 <= y < nodes.len(),
    ensures
        seq_root_of(nodes2, y) == seq_root_of(nodes, y),
    decreases nodes.len() - nodes[y].rank,
{
    let fy = nodes[y].father as int;
    if fy != y {
        lemma_push_keeps_roots(nodes, nodes2, fy);
    }
}

/// Changing only ranks, not fathers, changes no representative.
proof fn lemma_same_fathers_same_roots(nodes: Seq<TreeNode>, nodes2: Seq<TreeNode>, y: int)
    requires
        fathers_ok(nodes),
        fathers_ok(nodes2),
        nodes2.len() == nodes.len(),
        forall|i: int|
            0 <= i < nodes.len() ==> (#[trigger] nodes2[i]).father == nodes[i].father,
        0 <= y < nodes.len(),
    ensures
        seq_root_of(nodes2, y) == seq_root_of(nodes, y),
    decreases nodes.len() - nodes[y].rank,
{
    let fy = nodes[y].father as int;
    if fy != y {
        lemma_same_fathers_same_roots(nodes, nodes2, fy);
    }
}

/// After linking the root `lose` below the root `win`, `win` represents
/// both of their old sets and every other element keeps its representative.
proof fn lemma_link_root(nodes: Seq<TreeNode>, nodes2: Seq<TreeNode>, lose: int, win: int, y: int)
    requires
        fathers_ok(nodes),
        fathers_ok(nodes2),
        0 <= lose < nodes.len(),
        0 <= win < nodes.len(),
        lose != win,
        nodes[lose].father == lose,
        nodes[win].father == win,
        nodes2 == nodes.update(lose, TreeNode {
            rank: nodes[lose].rank,
            name: nodes[lose].name,
            father: win as usize,
        }),
        0 <= y < nodes.len(),
    ensures
        seq_root_of(nodes2, y) == (if seq_root_of(nodes, y) == lose {
            win
        } else {
            seq_root_of(nodes, y)
        }),
    decreases nodes.len() - nodes[y].rank,
{
    let fy = nodes[y].father as int;
    if y == lose {
        assert(nodes2[y].father == win);
        assert(nodes2[win] == nodes[win]);
        assert(seq_root_of(nodes2, win) == win);
        assert(seq_root_of(nodes, y) == y);
    } else {
        assert(nodes2[y] == nodes[y]);
        if fy != y {
            lemma_link_root(nodes, nodes2, lose, win, fy);
        }
    }
}

/// Two distinct roots witness at least two sets.
proof fn lemma_two_roots(nodes: Seq<TreeNode>, r1: int, r2: int)
    requires
        roots_of(nodes).finite(),
        roots_of(nodes).contains(r1),
        roots_of(nodes).contains(r2),
        r1 != r2,
    ensures
        roots_of(nodes).len() >= 2,
{
    let rs = roots_of(nodes);
    assert(rs.remove(r1).contains(r2));
    vstd::set_lib::lemma_set_empty_equivalency_len(rs.remove(r1));
}

/// A disjoint-set forest over the elements `0 .. nodes.len()`; `count` is
/// the number of sets it currently holds.
pub struct DSForest {
    pub count: usize,
    pub nodes: Vec<TreeNode>,
}

impl DSForest {
    /// Structural soundness: every element carries its own index as name,
    /// father walks terminate, no rank can reach the element count, and
    /// `count` is the number of roots, one per set.
    pub open spec fn wf(self) -> bool {
        &&& fathers_ok(self.nodes@)
        &&& forall|i: int| 0 <= i < self.nodes@.len() ==> (#[trigger] self.nodes@[i]).name == i
        &&& forall|i: int|
            0 <= i < self.nodes@.len() ==> (#[trigger] self.nodes@[i]).rank + self.count
                <= self.nodes@.len()
        &&& self.count <= self.nodes@.len()
        &&& self.count == roots_of(self.nodes@).len()
        &&& roots_of(self.nodes@).finite()
    }

    /// The canonical representative of the set `x` belongs to.
    pub open spec fn root_of(self, x: int) -> int {
        seq_root_of(self.nodes@, x)
    }

    /// A forest of `i` singleton sets named `0 .. i`.
    pub fn new(i: usize) -> (r: DSForest)
        requires
            i < usize::MAX,
        ensures
            r.wf(),
            r.nodes@.len() == i,
            r.count == i,
            forall|y: int| 0 <= y < i ==> #[trigger] r.root_of(y) == y,
    {
        let nodes: Vec<TreeNode> = Vec::new();
        let mut set = DSForest { count: 0, nodes };
        proof {
            assert(roots_of(set.nodes@) =~= Set::<int>::empty());
        }
        let mut idx: usize = 0;
        while idx < i
            invariant
                i < usize::MAX,
                set.wf(),
                set.nodes@.len() == idx,
                set.count == idx,
                idx <= i,
                forall|y: int| 0 <= y < idx ==> #[trigger] set.root_of(y) == y,
            decreases i - idx,
        {
            set.add(idx);
            idx = idx + 1;
        }
        set
    }

    /// The number of disjoint sets currently in the forest.
    pub fn forests(&self) -> (r: usize)
        ensures
            r == self.count,
            self.wf() ==> r == roots_of(self.nodes@).len(),
    {
        self.count
    }

    /// Adds the next element, `x`, as a fresh singleton set.
    pub fn add(&mut self, x: usize)
        requires
            old(self).wf(),
            x == old(self).nodes@.len(),
            x < usize::MAX,
        ensures
            final(self).wf(),
            final(self).nodes@.len() == old(self).nodes@.len() + 1,
            final(self).count == old(self).count + 1,
            forall|y: int|
                0 <= y < old(self).nodes@.len() ==> #[trigger] final(self).root_of(y) == old(
                    self,
                ).root_of(y),
            final(self).root_of(x as int) == x,
    {
        let ghost s = *old(self);
        self.nodes.push(TreeNode::make_set(x));
        self.count = self.count + 1;
        proof {
            assert(roots_of(self.nodes@) =~= roots_of(s.nodes@).insert(x as int));
            assert(!roots_of(s.nodes@).contains(x as int));
            assert(self.wf());
            assert forall|y: int| 0 <= y < s.nodes@.len() implies #[trigger] self.root_of(y)
                == s.root_of(y) by {
                lemma_push_keeps_roots(s.nodes@, self.nodes@, y);
            }
        }
    }

    /// The canonical representative of `x`. Every node on the walk from `x`
    /// up to its root is re-pointed straight at the root (path
    /// compression), which changes no set.
    pub fn find_set(&mut self, x: usize) -> (r: usize)
        requires
            old(self).wf(),
            x < old(self).nodes@.len(),
        ensures
            final(self).wf(),
            r == old(self).root_of(x as int),
            final(self).nodes@.len() == old(self).nodes@.len(),
            final(self).count == old(self).count,
            forall|y: int|
                0 <= y < old(self).nodes@.len() ==> (#[trigger] final(self).nodes@[y]).rank == old(
                    self,
                ).nodes@[y].rank && final(self).nodes@[y].name == old(self).nodes@[y].name,
            forall|y: int|
                0 <= y < old(self).nodes@.len() ==> #[trigger] final(self).root_of(y) == old(
                    self,
                ).root_of(y),
            forall|y: int|
                0 <= y < old(self).nodes@.len() ==> ((#[trigger] final(self).nodes@[y]).father
                    == old(self).nodes@[y].father || final(self).nodes@[y].father as int == old(
                    self,
                ).root_of(y)),
            final(self).nodes@[r as int].father == r,
        decreases old(self).nodes@.len() - old(self).nodes@[x as int].rank,
    {
        let ghost s = *old(self);
        let f = self.nodes[x].father;
        if f == x {
            proof {
                lemma_root_of_props(s.nodes@, x as int);
            }
            x
        } else {
            let root = self.find_set(f);
            let ghost mid = *self;
            let nref = &mut self.nodes[x];
            nref.father = root;
            proof {
                lemma_root_of_props(s.nodes@, f as int);
                assert(s.root_of(x as int) == s.root_of(f as int));
                assert(root as int == s.root_of(x as int));
                assert(s.nodes@[s.root_of(f as int)].rank > s.nodes@[x as int].rank);
                assert(root != x);
                assert(mid.nodes@[x as int].father != x);
                assert(mid.root_of(x as int) == s.root_of(x as int));
                assert(self.nodes@ == mid.nodes@.update(x as int, TreeNode {
                    rank: mid.nodes@[x as int].rank,
                    name: mid.nodes@[x as int].name,
                    father: seq_root_of(mid.nodes@, x as int) as usize,
                }));
                assert(fathers_ok(self.nodes@)) by {
                    assert(self.nodes@[root as int].rank == s.nodes@[root as int].rank);
                    assert(self.nodes@[x as int].rank == s.nodes@[x as int].rank);
                }
                assert(roots_of(self.nodes@) =~= roots_of(mid.nodes@));
                assert(self.wf());
                assert forall|y: int| 0 <= y < s.nodes@.len() implies #[trigger] self.root_of(y)
                    == s.root_of(y) by {
                    lemma_compress(mid.nodes@, self.nodes@, x as int, y);
                    assert(mid.root_of(y) == s.root_of(y));
                    assert(mid.root_of(y) == seq_root_of(mid.nodes@, y));
                }
            }
            root
        }
    }

    /// Whether `a` and `b` currently belong to the same set. Only path
    /// compression may change the forest, so every set stays as it was.
    pub fn is_linked(&mut self, a: usize, b: usize) -> (r: bool)
        requires
            old(self).wf(),
            a < old(self).nodes@.len(),
            b < old(self).nodes@.len(),
        ensures
            final(self).wf(),
            r == (old(self).root_of(a as int) == old(self).root_of(b as int)),
            final(self).nodes@.len() == old(self).nodes@.len(),
            final(self).count == old(self).count,
            forall|y: int|
                0 <= y < old(self).nodes@.len() ==> #[trigger] final(self).root_of(y) == old(
                    self,
                ).root_of(y),
    {
        let pa = self.find_set(a);
        let pb = self.find_set(b);
        pa == pb
    }

    /// Joins the sets of `a` and `b`. Two distinct sets become one — the
    /// root of lower rank is linked below the other, ties go to `b`'s root
    /// with its rank raised — and the set count drops by one; joining a set
    /// with itself changes nothing.
    pub fn union(&mut self, a: usize, b: usize)
        requires
            old(self).wf(),
            a < old(self).nodes@.len(),
            b < old(self).nodes@.len(),
        ensures
            final(self).wf(),
            final(self).nodes@.len() == old(self).nodes@.len(),
            ({
                let ra = old(self).root_of(a as int);
                let rb = old(self).root_of(b as int);
                if ra == rb {
                    &&& final(self).count == old(self).count
                    &&& forall|y: int|
                        0 <= y < old(self).nodes@.len() ==> #[trigger] final(self).root_of(y)
                            == old(self).root_of(y)
                } else {
                    let w: int = if old(self).nodes@[ra].rank > old(self).nodes@[rb].rank {
                        ra
                    } else {
                        rb
                    };
                    &&& final(self).count == old(self).count - 1
                    &&& forall|y: int|
                        0 <= y < old(self).nodes@.len() ==> #[trigger] final(self).root_of(y) == (
                        if old(self).root_of(y) == ra || old(self).root_of(y) == rb {
                            w
                        } else {
                            old(self).root_of(y)
                        })
                }
            }),
    {
        let ghost s = *old(self);
        let pa = self.find_set(a);
        let pb = self.find_set(b);
        let ghost mid = *self;
        proof {
            lemma_root_of_props(s.nodes@, a as int);
            lemma_root_of_props(s.nodes@, b as int);
        }
        if pa != pb {
            proof {
                lemma_two_roots(mid.nodes@, pa as int, pb as int);
            }
            let ra_rank = self.nodes[pa].rank;
            let rb_rank = self.nodes[pb].rank;
            if ra_rank > rb_rank {
                let nref = &mut self.nodes[pb];
                nref.father = pa;
                self.count = self.count - 1;
                proof {
                    self.lemma_union_link(s, mid, pb as int, pa as int);
                }
            } else {
                let total = self.nodes.len();
                proof {
                    assert(mid.count >= 2);
                    assert(mid.nodes@[pb as int].rank + mid.count <= mid.nodes@.len());
                    assert(rb_rank + 2 <= total);
                }
                if ra_rank == rb_rank {
                    let bref = &mut self.nodes[pb];
                    bref.rank = rb_rank + 1;
                }
                let ghost bumped = *self;
                proof {
                    assert(fathers_ok(bumped.nodes@));
                    assert(roots_of(bumped.nodes@) =~= roots_of(mid.nodes@));
                    assert forall|y: int|
                        0 <= y < bumped.nodes@.len() implies #[trigger] bumped.root_of(y)
                        == mid.root_of(y) by {
                        lemma_same_fathers_same_roots(mid.nodes@, bumped.nodes@, y);
                    }
                }
                let nref = &mut self.nodes[pa];
                nref.father = pb;
                self.count = self.count - 1;
                proof {
                    self.lemma_union_link(s, bumped, pa as int, pb as int);
                }
            }
        }
    }

    /// Re-establishes well-formedness and the representatives after one
    /// root has been linked below another and the count lowered.
    proof fn lemma_union_link(self, s: DSForest, pre: DSForest, lose: int, win: int)
        requires
            pre.count == roots_of(pre.nodes@).len(),
            roots_of(pre.nodes@).finite(),
            fathers_ok(pre.nodes@),
            forall|i: int| 0 <= i < pre.nodes@.len() ==> (#[trigger] pre.nodes@[i]).name == i,
            forall|i: int|
                0 <= i < pre.nodes@.len() ==> (#[trigger] pre.nodes@[i]).rank + pre.count - 1
                    <= pre.nodes@.len(),
            0 <= lose < pre.nodes@.len(),
            0 <= win < pre.nodes@.len(),
            lose != win,
            pre.nodes@[lose].father == lose,
            pre.nodes@[win].father == win,
            pre.nodes@[win].rank > pre.nodes@[lose].rank,
            pre.count >= 2,
            self.count == pre.count - 1,
            self.nodes@ == pre.nodes@.update(lose, TreeNode {
                rank: pre.nodes@[lose].rank,
                name: pre.nodes@[lose].name,
                father: win as usize,
            }),
            forall|y: int|
                0 <= y < pre.nodes@.len() ==> #[trigger] pre.root_of(y) == s.root_of(y),
            s.nodes@.len() == pre.nodes@.len(),
        ensures
            self.wf(),
            forall|y: int|
                0 <= y < s.nodes@.len() ==> #[trigger] self.root_of(y) == (if s.root_of(y) == lose {
                    win
                } else {
                    s.root_of(y)
                }),
    {
        assert(fathers_ok(self.nodes@));
        assert(roots_of(self.nodes@) =~= roots_of(pre.nodes@).remove(lose));
        assert(roots_of(pre.nodes@).contains(lose));
        assert(roots_of(self.nodes@).len() == roots_of(pre.nodes@).len() - 1);
        assert(self.wf());
        assert forall|y: int| 0 <= y < s.nodes@.len() implies #[trigger] self.root_of(y) == (
        if s.root_of(y) == lose {
            win
        } else {
            s.root_of(y)
        }) by {
            lemma_link_root(pre.nodes@, self.nodes@, lose, win, y);
            assert(pre.root_of(y) == s.root_of(y));
            assert(pre.root_of(y) == seq_root_of(pre.nodes@, y));
        }
    }
}

} // verus!
