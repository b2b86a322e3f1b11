//! The B-tree engine: nodes of up to `2t - 1` sorted items with `n + 1`
//! children when internal, modelled in specifications as a `Map<i32, i32>`
//! of the key/value pairs stored in the subtree.

use vstd::prelude::*;

verus! {

broadcast use vstd::map_lib::group_map_union;

/// A key/value pair stored in a node. Keys are unique across a whole tree.
#[derive(Clone, Copy, PartialEq, Eq, Structural, Debug)]
pub struct Item {
    pub key: i32,
    pub value: i32,
}

/// Caller-induced failures that the tree reports instead of panicking.
#[derive(Clone, Copy, PartialEq, Eq, Structural, Debug)]
pub enum TreeError {
    /// `insert` was asked to add a key that is already present.
    DuplicateKey,
}

/// One node of minimum degree `t`: sorted `items`, and for an internal node
/// one child on each side of every item. A leaf has no children.
pub struct Node {
    pub t: usize,
    pub isleaf: bool,
    pub items: Vec<Item>,
    pub childs: Vec<Node>,
}

/// All keys of `items` lie strictly between `lo` and `hi`.
pub open spec fn keys_in_window(items: Seq<Item>, lo: int, hi: int) -> bool {
    forall|i: int| 0 <= i < items.len() ==> lo < #[trigger] items[i].key < hi
}

/// The keys of `items` are strictly ascending.
pub open spec fn keys_strictly_sorted(items: Seq<Item>) -> bool {
    forall|i: int, j: int|
        0 <= i < j < items.len() ==> #[trigger] items[i].key < #[trigger] items[j].key
}

/// Some item of `items` carries the key `k`.
pub open spec fn has_key(items: Seq<Item>, k: i32) -> bool {
    exists|i: int| 0 <= i < items.len() && #[trigger] items[i].key == k
}

/// Lower bound of the open key window of child `i`, given the parent's
/// separating `items` and the parent's own lower bound `lo`.
pub open spec fn child_lo(items: Seq<Item>, lo: int, i: int) -> int {
    if i == 0 {
        lo
    } else {
        items[i - 1].key as int
    }
}

/// Upper bound of the open key window of child `i`, given the parent's
/// separating `items` and the parent's own upper bound `hi`.
pub open spec fn child_hi(items: Seq<Item>, hi: int, i: int) -> int {
    if i == items.len() {
        hi
    } else {
        items[i].key as int
    }
}

impl Node {
    /// Distance from this node down to any leaf; 0 for a leaf. Meaningful on
    /// well-formed nodes, where all leaves are at the same depth.
    pub open spec fn height(self) -> nat
        decreases self,
    {
        if self.childs@.len() == 0 {
            0
        } else {
            1 + self.childs@[0].height()
        }
    }

    /// The key/value pairs of the items of `items`, as a map.
    pub open spec fn items_map(items: Seq<Item>) -> Map<i32, i32>
        decreases items.len(),
    {
        if items.len() == 0 {
            Map::empty()
        } else {
            Self::items_map(items.drop_last()).insert(items.last().key, items.last().value)
        }
    }

    /// The key/value pairs stored in the whole subtree rooted at this node.
    pub open spec fn entries(self) -> Map<i32, i32>
        decreases self, self.childs@.len() as int + 1,
    {
        Self::items_map(self.items@).union_prefer_right(
            Self::children_entries(self.childs@, self.childs@.len() as int),
        )
    }

    /// The key/value pairs stored in the first `i` subtrees of `cs`.
    pub open spec fn children_entries(cs: Seq<Node>, i: int) -> Map<i32, i32>
        decreases cs, i,
    {
        if i <= 0 || cs.len() < i {
            Map::empty()
        } else {
            Self::children_entries(cs, i - 1).union_prefer_right(cs[i - 1].entries())
        }
    }

    /// Well-formedness of the subtree rooted at this node, inside the open
    /// key window `(lo, hi)`. It carries the three standing invariants of
    /// the tree: the items of every node are strictly ascending by key and
    /// separate the children's windows (sortedness); every node holds at
    /// most `2t - 1` items, every non-root node at least `t - 1`, and an
    /// internal node has one more child than items (the degree bounds); and
    /// all children of a node have one and the same height, so all leaves
    /// lie at the same depth (balance).
    pub open spec fn wf(self, t: int, lo: int, hi: int) -> bool
        decreases self, self.childs@.len() as int + 1,
    {
        &&& self.t == t
        &&& 2 <= t
        &&& t <= usize::MAX as int / 2
        &&& self.items@.len() <= 2 * t - 1
        &&& (self.isleaf <==> self.childs@.len() == 0)
        &&& keys_strictly_sorted(self.items@)
        &&& keys_in_window(self.items@, lo, hi)
        &&& (!self.isleaf ==> {
            &&& self.childs@.len() == self.items@.len() + 1
            &&& Self::children_wf(
                self.childs@,
                self.items@,
                t,
                lo,
                hi,
                (self.height() - 1) as nat,
                self.childs@.len() as int,
            )
        })
    }

    /// Well-formedness of the first `i` children of `cs` under the
    /// separating `items`: each child sits in its window, carries at least
    /// `t - 1` items, and has height `h`.
    pub open spec fn children_wf(
        cs: Seq<Node>,
        items: Seq<Item>,
        t: int,
        lo: int,
        hi: int,
        h: nat,
        i: int,
    ) -> bool
        decreases cs, i,
    {
        i <= 0 || cs.len() < i || {
            &&& Self::children_wf(cs, items, t, lo, hi, h, i - 1)
            &&& cs[i - 1].wf(t, child_lo(items, lo, i - 1), child_hi(items, hi, i - 1))
            &&& cs[i - 1].items@.len() >= t - 1
            &&& cs[i - 1].height() == h
        }
    }

    /// Total number of items stored in the subtree rooted at this node.
    pub open spec fn count(self) -> nat
        decreases self, self.childs@.len() as int + 1,
    {
        self.items@.len() + Self::children_count(self.childs@, self.childs@.len() as int)
    }

    /// Total number of items stored in the first `i` subtrees of `cs`.
    pub open spec fn children_count(cs: Seq<Node>, i: int) -> nat
        decreases cs, i,
    {
        if i <= 0 || cs.len() < i {
            0
        } else {
            Self::children_count(cs, i - 1) + cs[i - 1].count()
        }
    }

    /// A fresh empty leaf of minimum degree `t`.
    pub fn new(t: usize) -> (r: Node)
        ensures
            r.t == t,
            r.isleaf,
            r.items@ =~= Seq::<Item>::empty(),
            r.childs@ =~= Seq::<Node>::empty(),
            r.height() == 0,
            r.entries() =~= Map::<i32, i32>::empty(),
            r.count() == 0,
    {
        Node { t, isleaf: true, items: Vec::new(), childs: Vec::new() }
    }

    /// A fresh empty leaf of minimum degree `t`, boxed.
    pub fn allocate_node(t: usize) -> (r: Box<Node>)
        ensures
            r.t == t,
            r.isleaf,
            r.items@ =~= Seq::<Item>::empty(),
            r.childs@ =~= Seq::<Node>::empty(),
            r.entries() =~= Map::<i32, i32>::empty(),
    {
        Box::new(Node::new(t))
    }

    /// Number of items held in this node itself.
    pub fn get_n(&self) -> (r: usize)
        ensures
            r == self.items@.len(),
    {
        self.items.len()
    }

    /// The minimum degree this node was built for.
    pub fn get_t(&self) -> (r: usize)
        ensures
            r == self.t,
    {
        self.t
    }

    /// Number of items held in this node itself.
    pub fn key_len(&self) -> (r: usize)
        ensures
            r == self.items@.len(),
    {
        self.items.len()
    }

    /// Number of children of this node; 0 for a leaf.
    pub fn child_len(&self) -> (r: usize)
        ensures
            r == self.childs@.len(),
    {
        self.childs.len()
    }

    /// Whether this node is a leaf.
    pub fn isleaf(&self) -> (r: bool)
        ensures
            r == self.isleaf,
    {
        self.isleaf
    }

    /// Read-only access to child `idx`.
    pub fn get_nchild(&self, idx: usize) -> (r: &Node)
        requires
            idx < self.childs@.len(),
        ensures
            *r == self.childs@[idx as int],
    {
        &self.childs[idx]
    }

    /// Appends `item` and then the entire contents of `right` onto this
    /// node; used when two siblings and their separator merge into one node.
    pub fn join_right(&mut self, right: Node, item: Item)
        ensures
            final(self).t == old(self).t,
            final(self).isleaf == old(self).isleaf,
            final(self).items@ =~= old(self).items@.push(item) + right.items@,
            final(self).childs@ =~= old(self).childs@ + right.childs@,
    {
        let mut right = right;
        self.items.push(item);
        self.items.append(&mut right.items);
        self.childs.append(&mut right.childs);
    }
}

/// Every child up to `n` satisfies the clauses of `children_wf` individually.
proof fn lemma_children_wf_index(
    cs: Seq<Node>,
    items: Seq<Item>,
    t: int,
    lo: int,
    hi: int,
    h: nat,
    n: int,
    j: int,
)
    requires
        Node::children_wf(cs, items, t, lo, hi, h, n),
        0 <= j < n,
        n <= cs.len(),
    ensures
        cs[j].wf(t, child_lo(items, lo, j), child_hi(items, hi, j)),
        cs[j].items@.len() >= t - 1,
        cs[j].height() == h,
    decreases n,
{
    if j < n - 1 {
        lemma_children_wf_index(cs, items, t, lo, hi, h, n - 1, j);
    }
}

/// `children_wf` follows from its clauses holding child by child.
proof fn lemma_children_wf_intro(
    cs: Seq<Node>,
    items: Seq<Item>,
    t: int,
    lo: int,
    hi: int,
    h: nat,
    n: int,
)
    requires
        n <= cs.len(),
        forall|j: int|
            0 <= j < n ==> (#[trigger] cs[j]).wf(
                t,
                child_lo(items, lo, j),
                child_hi(items, hi, j),
            ),
        forall|j: int| 0 <= j < n ==> (#[trigger] cs[j]).items@.len() >= t - 1,
        forall|j: int| 0 <= j < n ==> (#[trigger] cs[j]).height() == h,
    ensures
        Node::children_wf(cs, items, t, lo, hi, h, n),
    decreases n,
{
    if n > 0 {
        lemma_children_wf_intro(cs, items, t, lo, hi, h, n - 1);
    }
}

/// On a sequence with strictly ascending keys, `items_map` holds exactly the
/// items' pairs, one per item.
proof fn lemma_items_map_char(items: Seq<Item>)
    requires
        keys_strictly_sorted(items),
    ensures
        forall|k: i32| #[trigger] Node::items_map(items).dom().contains(k) <==> has_key(items, k),
        forall|i: int|
            #![trigger items[i]]
            0 <= i < items.len() ==> Node::items_map(items)[items[i].key] == items[i].value,
        Node::items_map(items).dom().finite(),
        Node::items_map(items).dom().len() == items.len(),
    decreases items.len(),
{
    if items.len() > 0 {
        let prefix = items.drop_last();
        let last = items.last();
        lemma_items_map_char(prefix);
        assert(!has_key(prefix, last.key)) by {
            assert forall|i: int| 0 <= i < prefix.len() implies (#[trigger] prefix[i]).key
                != last.key by {
                assert(items[i].key < items[items.len() - 1].key);
            }
        }
        assert forall|k: i32| #[trigger] Node::items_map(items).dom().contains(k) implies has_key(
            items,
            k,
        ) by {
            if k == last.key {
                assert(items[items.len() - 1].key == k);
            } else {
                let i = choose|i: int| 0 <= i < prefix.len() && #[trigger] prefix[i].key == k;
                assert(items[i].key == k);
            }
        }
        assert forall|k: i32| has_key(items, k) implies #[trigger] Node::items_map(
            items,
        ).dom().contains(k) by {
            let i = choose|i: int| 0 <= i < items.len() && #[trigger] items[i].key == k;
            if i < items.len() - 1 {
                assert(prefix[i].key == k);
            }
        }
        assert forall|i: int| 0 <= i < items.len() implies Node::items_map(items)[(
        #[trigger] items[i]).key] == items[i].value by {
            if i < items.len() - 1 {
                assert(prefix[i] == items[i]);
                assert(items[i].key < last.key);
            }
        }
    }
}

/// All keys stored in a well-formed subtree lie strictly inside its window,
/// and there are finitely many of them.
proof fn lemma_entries_window(node: Node, t: int, lo: int, hi: int)
    requires
        node.wf(t, lo, hi),
    ensures
        forall|k: i32| #[trigger] node.entries().dom().contains(k) ==> lo < k < hi,
        node.entries().dom().finite(),
    decreases node.height(), 0int,
{
    lemma_items_map_char(node.items@);
    if !node.isleaf {
        lemma_children_entries_window(
            node.childs@,
            node.items@,
            t,
            lo,
            hi,
            (node.height() - 1) as nat,
            node.childs@.len() as int,
        );
    }
    assert forall|k: i32| #[trigger] node.entries().dom().contains(k) implies lo < k < hi by {
        if Node::items_map(node.items@).dom().contains(k) {
            let i = choose|i: int| 0 <= i < node.items@.len() && #[trigger] node.items@[i].key == k;
            assert(lo < node.items@[i].key < hi);
        }
    }
}

/// All keys stored in the first `n` children lie strictly inside the parent
/// window, and there are finitely many of them.
proof fn lemma_children_entries_window(
    cs: Seq<Node>,
    items: Seq<Item>,
    t: int,
    lo: int,
    hi: int,
    h: nat,
    n: int,
)
    requires
        Node::children_wf(cs, items, t, lo, hi, h, n),
        keys_in_window(items, lo, hi),
        0 <= n <= cs.len(),
        n <= items.len() + 1,
    ensures
        forall|k: i32| #[trigger] Node::children_entries(cs, n).dom().contains(k) ==> lo < k < hi,
        Node::children_entries(cs, n).dom().finite(),
    decreases h, n,
{
    if n > 0 {
        lemma_children_entries_window(cs, items, t, lo, hi, h, n - 1);
        lemma_entries_window(cs[n - 1], t, child_lo(items, lo, n - 1), child_hi(items, hi, n - 1));
        if n - 1 > 0 {
            assert(lo < items[n - 2].key < hi);
        }
        if n - 1 < items.len() {
            assert(lo < items[n - 1].key < hi);
        }
    }
}

/// The first `n` children of a well-formed family store pairwise disjoint key
/// sets, and `children_entries` is exactly their combined contents.
proof fn lemma_children_entries_char(
    cs: Seq<Node>,
    items: Seq<Item>,
    t: int,
    lo: int,
    hi: int,
    h: nat,
    n: int,
)
    requires
        Node::children_wf(cs, items, t, lo, hi, h, n),
        keys_in_window(items, lo, hi),
        keys_strictly_sorted(items),
        0 <= n <= cs.len(),
        n <= items.len() + 1,
    ensures
        forall|k: i32|
            #[trigger] Node::children_entries(cs, n).dom().contains(k) <==> exists|j: int|
                0 <= j < n && #[trigger] cs[j].entries().dom().contains(k),
        forall|j: int, k: i32|
            0 <= j < n && #[trigger] cs[j].entries().dom().contains(k) ==> Node::children_entries(
                cs,
                n,
            )[k] == cs[j].entries()[k],
    decreases n,
{
    if n > 0 {
        lemma_children_entries_char(cs, items, t, lo, hi, h, n - 1);
        lemma_entries_window(cs[n - 1], t, child_lo(items, lo, n - 1), child_hi(items, hi, n - 1));
        assert forall|k: i32| #[trigger] Node::children_entries(cs, n).dom().contains(k) implies exists|j: int|
            0 <= j < n && #[trigger] cs[j].entries().dom().contains(k) by {
            if Node::children_entries(cs, n - 1).dom().contains(k) {
                let j = choose|j: int| 0 <= j < n - 1 && #[trigger] cs[j].entries().dom().contains(
                    k,
                );
                assert(cs[j].entries().dom().contains(k));
            } else {
                assert(cs[n - 1].entries().dom().contains(k));
            }
        }
        assert forall|j: int, k: i32|
            0 <= j < n && #[trigger] cs[j].entries().dom().contains(k) implies Node::children_entries(
            cs,
            n,
        )[k] == cs[j].entries()[k] by {
            if j < n - 1 {
                lemma_children_wf_index(cs, items, t, lo, hi, h, n - 1, j);
                lemma_entries_window(cs[j], t, child_lo(items, lo, j), child_hi(items, hi, j));
                // `k` sits below the separator at `j`, hence below the window
                // of child `n - 1`, so the last union leaves it untouched.
                assert(k < items[j].key);
                if j < n - 2 {
                    assert(items[j].key < items[n - 2].key);
                }
                assert(!cs[n - 1].entries().dom().contains(k));
            }
        }
    }
}

/// Prefix sums of the children's item counts never exceed the full sum.
proof fn lemma_children_count_prefix(cs: Seq<Node>, n: int)
    requires
        0 <= n <= cs.len(),
    ensures
        forall|i: int| 0 <= i <= n ==> #[trigger] Node::children_count(cs, i)
            <= Node::children_count(cs, n),
    decreases n,
{
    if n > 0 {
        lemma_children_count_prefix(cs, n - 1);
    }
}

/// A separator key of a well-formed node never occurs in any child subtree,
/// and the node's contents decompose into its own items and its children's.
proof fn lemma_entries_char(node: Node, t: int, lo: int, hi: int)
    requires
        node.wf(t, lo, hi),
    ensures
        forall|k: i32|
            #[trigger] node.entries().dom().contains(k) <==> (has_key(node.items@, k) || exists|
                j: int,
            |
                0 <= j < node.childs@.len() && #[trigger] node.childs@[j].entries().dom().contains(
                    k,
                )),
        forall|i: int|
            #![trigger node.items@[i]]
            0 <= i < node.items@.len() ==> node.entries()[node.items@[i].key]
                == node.items@[i].value,
        forall|j: int, k: i32|
            0 <= j < node.childs@.len() && #[trigger] node.childs@[j].entries().dom().contains(k)
                ==> node.entries()[k] == node.childs@[j].entries()[k] && !has_key(node.items@, k),
{
    let cs = node.childs@;
    let items = node.items@;
    let n = cs.len() as int;
    let h = (node.height() - 1) as nat;
    lemma_items_map_char(items);
    if node.isleaf {
        assert(Node::children_entries(cs, 0) =~= Map::<i32, i32>::empty());
    } else {
        lemma_children_entries_char(cs, items, t, lo, hi, h, n);
        assert forall|j: int, k: i32|
            0 <= j < n && #[trigger] cs[j].entries().dom().contains(k) implies !has_key(items, k) by {
            lemma_children_wf_index(cs, items, t, lo, hi, h, n, j);
            lemma_entries_window(cs[j], t, child_lo(items, lo, j), child_hi(items, hi, j));
            if has_key(items, k) {
                let i = choose|i: int| 0 <= i < items.len() && #[trigger] items[i].key == k;
                if i >= j {
                    assert(j < items.len());
                    assert(items[j].key <= items[i].key);
                } else {
                    assert(items[i].key <= items[j - 1].key);
                }
            }
        }
        assert forall|k: i32| #[trigger] node.entries().dom().contains(k) implies (has_key(
            items,
            k,
        ) || exists|j: int|
            0 <= j < cs.len() && #[trigger] cs[j].entries().dom().contains(k)) by {
            if !Node::items_map(items).dom().contains(k) {
                assert(Node::children_entries(cs, n).dom().contains(k));
            }
        }
        assert forall|k: i32|
            (has_key(items, k) || exists|j: int|
                0 <= j < cs.len() && #[trigger] cs[j].entries().dom().contains(k)) implies
            #[trigger] node.entries().dom().contains(k) by {}
        assert forall|i: int| 0 <= i < items.len() implies node.entries()[(
        #[trigger] items[i]).key] == items[i].value by {
            let k = items[i].key;
            assert(has_key(items, k));
            assert(!Node::children_entries(cs, n).dom().contains(k)) by {
                if Node::children_entries(cs, n).dom().contains(k) {
                    let j = choose|j: int|
                        0 <= j < n && #[trigger] cs[j].entries().dom().contains(k);
                }
            }
        }
    }
}

/// The number of keys stored in a well-formed subtree equals `count`.
proof fn lemma_count_len(node: Node, t: int, lo: int, hi: int)
    requires
        node.wf(t, lo, hi),
    ensures
        node.entries().dom().finite(),
        node.entries().dom().len() == node.count(),
    decreases node.height(), 0int,
{
    let cs = node.childs@;
    let items = node.items@;
    let n = cs.len() as int;
    let h = (node.height() - 1) as nat;
    lemma_items_map_char(items);
    if node.isleaf {
        assert(Node::children_entries(cs, 0) =~= Map::<i32, i32>::empty());
        assert(node.entries().dom() =~= Node::items_map(items).dom());
    } else {
        lemma_children_count_len(cs, items, t, lo, hi, h, n);
        lemma_children_entries_char(cs, items, t, lo, hi, h, n);
        assert forall|k: i32| #[trigger] Node::children_entries(cs, n).dom().contains(k) implies
            !Node::items_map(items).dom().contains(k) by {
            let j = choose|j: int| 0 <= j < n && #[trigger] cs[j].entries().dom().contains(k);
            lemma_children_wf_index(cs, items, t, lo, hi, h, n, j);
            lemma_entries_window(cs[j], t, child_lo(items, lo, j), child_hi(items, hi, j));
            if has_key(items, k) {
                let i = choose|i: int| 0 <= i < items.len() && #[trigger] items[i].key == k;
                if i >= j {
                    assert(j < items.len());
                    assert(items[j].key <= items[i].key);
                } else {
                    assert(items[i].key <= items[j - 1].key);
                }
            }
        }
        assert(Node::items_map(items).dom().disjoint(Node::children_entries(cs, n).dom()));
    }
}

/// The number of keys stored in the first `n` children equals their summed
/// `count`s.
proof fn lemma_children_count_len(
    cs: Seq<Node>,
    items: Seq<Item>,
    t: int,
    lo: int,
    hi: int,
    h: nat,
    n: int,
)
    requires
        Node::children_wf(cs, items, t, lo, hi, h, n),
        keys_in_window(items, lo, hi),
        keys_strictly_sorted(items),
        0 <= n <= cs.len(),
        n <= items.len() + 1,
    ensures
        Node::children_entries(cs, n).dom().finite(),
        Node::children_entries(cs, n).dom().len() == Node::children_count(cs, n),
    decreases h, n,
{
    if n > 0 {
        lemma_children_count_len(cs, items, t, lo, hi, h, n - 1);
        lemma_children_entries_char(cs, items, t, lo, hi, h, n - 1);
        lemma_count_len(cs[n - 1], t, child_lo(items, lo, n - 1), child_hi(items, hi, n - 1));
        lemma_entries_window(cs[n - 1], t, child_lo(items, lo, n - 1), child_hi(items, hi, n - 1));
        assert forall|k: i32| #[trigger] Node::children_entries(cs, n - 1).dom().contains(k)
            implies !cs[n - 1].entries().dom().contains(k) by {
            let j = choose|j: int| 0 <= j < n - 1 && #[trigger] cs[j].entries().dom().contains(k);
            lemma_children_wf_index(cs, items, t, lo, hi, h, n - 1, j);
            lemma_entries_window(cs[j], t, child_lo(items, lo, j), child_hi(items, hi, j));
            assert(k < items[j].key);
            if j < n - 2 {
                assert(items[j].key < items[n - 2].key);
            }
        }
        assert(Node::children_entries(cs, n - 1).dom().disjoint(cs[n - 1].entries().dom()));
    }
}

/// Well-formedness in a window carries over to any enclosing window.
proof fn lemma_wf_widen(node: Node, t: int, lo: int, hi: int, lo2: int, hi2: int)
    requires
        node.wf(t, lo, hi),
        lo2 <= lo,
        hi <= hi2,
    ensures
        node.wf(t, lo2, hi2),
    decreases node.height(),
{
    let cs = node.childs@;
    let items = node.items@;
    let n = cs.len() as int;
    let h = (node.height() - 1) as nat;
    if !node.isleaf {
        assert forall|j: int|
            0 <= j < n implies (#[trigger] cs[j]).wf(
            t,
            child_lo(items, lo2, j),
            child_hi(items, hi2, j),
        ) && cs[j].items@.len() >= t - 1 && cs[j].height() == h by {
            lemma_children_wf_index(cs, items, t, lo, hi, h, n, j);
            lemma_wf_widen(
                cs[j],
                t,
                child_lo(items, lo, j),
                child_hi(items, hi, j),
                child_lo(items, lo2, j),
                child_hi(items, hi2, j),
            );
        }
        lemma_children_wf_intro(cs, items, t, lo2, hi2, h, n);
    }
}

/// Sorted position search over the items of one node: reports whether `key`
/// occurs and either its index or the index where it would be inserted.
fn seek(items: &Vec<Item>, key: i32) -> (r: (bool, usize))
    requires
        keys_strictly_sorted(items@),
    ensures
        r.1 <= items@.len(),
        r.0 ==> r.1 < items@.len() && items@[r.1 as int].key == key,
        !r.0 ==> forall|j: int| 0 <= j < r.1 ==> (#[trigger] items@[j]).key < key,
        !r.0 ==> forall|j: int| r.1 <= j < items@.len() ==> (#[trigger] items@[j]).key > key,
        r.0 == has_key(items@, key),
{
    let mut lo: usize = 0;
    let mut hi: usize = items.len();
    while lo < hi
        invariant
            lo <= hi <= items@.len(),
            keys_strictly_sorted(items@),
            forall|j: int| 0 <= j < lo ==> (#[trigger] items@[j]).key < key,
            forall|j: int| hi <= j < items@.len() ==> (#[trigger] items@[j]).key > key,
        decreases hi - lo,
    {
        let mid = lo + (hi - lo) / 2;
        let k = items[mid].key;
        if k == key {
            assert(has_key(items@, key));
            return (true, mid);
        } else if k < key {
            assert forall|j: int| 0 <= j < mid + 1 implies (#[trigger] items@[j]).key < key by {
                if j < mid {
                    assert(items@[j].key < items@[mid as int].key);
                }
            }
            lo = mid + 1;
        } else {
            assert forall|j: int| mid <= j < items@.len() implies (#[trigger] items@[j]).key
                > key by {
                if j > mid {
                    assert(items@[mid as int].key < items@[j].key);
                }
            }
            hi = mid;
        }
    }
    assert(!has_key(items@, key)) by {
        if has_key(items@, key) {
            let i = choose|i: int| 0 <= i < items@.len() && #[trigger] items@[i].key == key;
        }
    }
    (false, lo)
}

/// The B-tree itself: the owner of the root node. All public operations keep
/// the tree well-formed; in specifications the tree is viewed as the map of
/// its key/value pairs.
pub struct Btree {
    pub root: Node,
}

impl View for Btree {
    type V = Map<i32, i32>;

    open spec fn view(&self) -> Map<i32, i32> {
        self.root.entries()
    }
}

impl Btree {
    /// The minimum degree the tree was built with.
    pub open spec fn spec_t(self) -> int {
        self.root.t as int
    }

    /// Whole-tree well-formedness: the root is well-formed over the full key
    /// range. The root may be under-full, but an internal root keeps at
    /// least one item; the empty tree is an empty leaf root.
    pub open spec fn wf(self) -> bool {
        &&& self.root.wf(self.root.t as int, i32::MIN as int - 1, i32::MAX as int + 1)
        &&& (!self.root.isleaf ==> self.root.items@.len() >= 1)
    }

    /// A fresh empty tree of minimum degree `t`.
    pub fn new(t: usize) -> (r: Btree)
        requires
            2 <= t,
            t <= usize::MAX / 2,
        ensures
            r.wf(),
            r.spec_t() == t,
            r@ =~= Map::<i32, i32>::empty(),
    {
        let r = Btree { root: Node::new(t) };
        assert(r.wf());
        r
    }

    /// Total number of items stored in the tree: the size of the map the
    /// tree represents.
    pub fn size(&self) -> (r: usize)
        requires
            self.wf(),
            self.root.count() <= usize::MAX,
        ensures
            r == self.root.count(),
            r == self@.dom().len(),
    {
        proof {
            lemma_count_len(
                self.root,
                self.root.t as int,
                i32::MIN as int - 1,
                i32::MAX as int + 1,
            );
        }
        Btree::size_node(
            &self.root,
            Ghost(self.root.t as int),
            Ghost(i32::MIN as int - 1),
            Ghost(i32::MAX as int + 1),
        )
    }

    /// Total number of items stored in the subtree rooted at `node`.
    fn size_node(
        node: &Node,
        Ghost(t): Ghost<int>,
        Ghost(lo): Ghost<int>,
        Ghost(hi): Ghost<int>,
    ) -> (r: usize)
        requires
            node.wf(t, lo, hi),
            node.count() <= usize::MAX,
        ensures
            r == node.count(),
        decreases node.height(), 0int,
    {
        let ghost cs = node.childs@;
        let ghost items = node.items@;
        let ghost n = cs.len() as int;
        let ghost h = (node.height() - 1) as nat;
        let mut total = node.items.len();
        let mut i: usize = 0;
        proof {
            lemma_children_count_prefix(cs, n);
        }
        while i < node.childs.len()
            invariant
                node.wf(t, lo, hi),
                node.count() <= usize::MAX,
                i <= node.childs@.len(),
                total == node.items@.len() + Node::children_count(node.childs@, i as int),
            decreases node.childs@.len() - i,
        {
            proof {
                lemma_children_wf_index(
                    node.childs@,
                    node.items@,
                    t,
                    lo,
                    hi,
                    (node.height() - 1) as nat,
                    node.childs@.len() as int,
                    i as int,
                );
                lemma_children_count_prefix(node.childs@, node.childs@.len() as int);
                assert(Node::children_count(node.childs@, i as int + 1) == Node::children_count(
                    node.childs@,
                    i as int,
                ) + node.childs@[i as int].count());
                assert(node.count() == node.items@.len() + Node::children_count(
                    node.childs@,
                    node.childs@.len() as int,
                ));
            }
            let c = Btree::size_node(
                &node.childs[i],
                Ghost(t),
                Ghost(child_lo(node.items@, lo, i as int)),
                Ghost(child_hi(node.items@, hi, i as int)),
            );
            total = total + c;
            i = i + 1;
        }
        total
    }

    /// Read-only access to the root node.
    pub fn get_root(&self) -> (r: &Node)
        ensures
            *r == self.root,
    {
        &self.root
    }

    /// Read-only access to child `idx` of `node`.
    pub fn get_nchild(node: &Node, idx: usize) -> (r: &Node)
        requires
            idx < node.childs@.len(),
        ensures
            *r == node.childs@[idx as int],
    {
        &node.childs[idx]
    }

    /// Splits the full child at `idx`: its upper `t - 1` items (and upper
    /// `t` children) move into a freshly made right sibling, and its median
    /// item moves up into this node between the two halves. The contents of
    /// the subtree are unchanged; this is the only place a node is created.
    #[verifier::rlimit(100)]
    #[verifier::spinoff_prover]
    pub fn split_child(
        node: &mut Node,
        idx: usize,
        Ghost(t): Ghost<int>,
        Ghost(lo): Ghost<int>,
        Ghost(hi): Ghost<int>,
    )
        requires
            old(node).wf(t, lo, hi),
            !old(node).isleaf,
            idx < old(node).childs@.len(),
            old(node).childs@[idx as int].items@.len() == 2 * t - 1,
            old(node).items@.len() < 2 * t - 1,
        ensures
            final(node).wf(t, lo, hi),
            final(node).entries() == old(node).entries(),
            final(node).height() == old(node).height(),
            final(node).isleaf == old(node).isleaf,
            final(node).t == old(node).t,
            final(node).items@ == old(node).items@.insert(
                idx as int,
                old(node).childs@[idx as int].items@[t - 1],
            ),
            final(node).childs@.len() == old(node).childs@.len() + 1,
            final(node).childs@[idx as int].items@.len() == t - 1,
            final(node).childs@[idx as int + 1].items@.len() == t - 1,
    {
        let ghost on = *old(node);
        let ghost items = on.items@;
        let ghost cs = on.childs@;
        let ghost n = cs.len() as int;
        let ghost h = (on.height() - 1) as nat;
        let ghost yy = cs[idx as int];
        let ghost ylo = child_lo(items, lo, idx as int);
        let ghost yhi = child_hi(items, hi, idx as int);
        proof {
            lemma_children_wf_index(cs, items, t, lo, hi, h, n, idx as int);
        }
        let tt = node.t;
        let y = &mut node.childs[idx];
        let zitems = y.items.split_off(tt);
        let zchilds = if y.childs.len() == 0 {
            Vec::new()
        } else {
            y.childs.split_off(tt)
        };
        let med = y.items.pop().unwrap();
        let yisleaf = y.isleaf;
        let z = Node { t: tt, isleaf: yisleaf, items: zitems, childs: zchilds };
        proof {
            assert(y.items@ =~= yy.items@.subrange(0, t - 1));
        }
        node.items.insert(idx, med);
        node.childs.insert(idx + 1, z);
        proof {
            let nn = *node;
            let yp = nn.childs@[idx as int];
            let zz = nn.childs@[idx as int + 1];
            assert(nn.items@ == items.insert(idx as int, med));
            assert(nn.childs@ =~= cs.update(idx as int, yp).insert(idx as int + 1, zz));
            if yy.isleaf {
                assert(yp.childs@ =~= Seq::<Node>::empty());
                assert(zz.childs@ =~= Seq::<Node>::empty());
            }
            lemma_split_child_shape(on, nn, idx as int, t, lo, hi);
        }
    }

    /// Inserts `key`/`value` into the non-full subtree rooted at `node`,
    /// splitting any full child just before descending into it. A key that
    /// is already present is reported as a duplicate and the contents stay
    /// as they were.
    #[verifier::rlimit(60)]
    #[verifier::spinoff_prover]
    fn insert_nonfull(
        node: &mut Node,
        key: i32,
        value: i32,
        Ghost(t): Ghost<int>,
        Ghost(lo): Ghost<int>,
        Ghost(hi): Ghost<int>,
    ) -> (r: Result<(), TreeError>)
        requires
            old(node).wf(t, lo, hi),
            old(node).items@.len() < 2 * t - 1,
            lo < key < hi,
        ensures
            final(node).wf(t, lo, hi),
            final(node).height() == old(node).height(),
            final(node).t == old(node).t,
            final(node).isleaf == old(node).isleaf,
            final(node).items@.len() >= old(node).items@.len(),
            (r is Ok <==> !old(node).entries().dom().contains(key)),
            r is Ok ==> final(node).entries() == old(node).entries().insert(key, value),
            r is Err ==> final(node).entries() == old(node).entries(),
        decreases old(node).height(),
    {
        let ghost on = *old(node);
        proof {
            lemma_entries_char(on, t, lo, hi);
        }
        let (found, pos) = seek(&node.items, key);
        if found {
            proof {
                assert(on.entries().dom().contains(key));
            }
            Err(TreeError::DuplicateKey)
        } else if node.isleaf {
            node.items.insert(pos, Item { key, value });
            proof {
                lemma_leaf_insert(on, *node, pos as int, Item { key, value }, t, lo, hi);
                assert(!on.entries().dom().contains(key));
            }
            Ok(())
        } else {
            let tt = node.t;
            let mut pos = pos;
            let ghost pos0 = pos as int;
            let is_full = node.childs[pos].items.len() == 2 * tt - 1;
            if is_full {
                Btree::split_child(node, pos, Ghost(t), Ghost(lo), Ghost(hi));
                let med_key = node.items[pos].key;
                if key == med_key {
                    proof {
                        lemma_entries_char(*node, t, lo, hi);
                        assert(has_key(node.items@, key)) by {
                            assert(node.items@[pos as int].key == key);
                        }
                        assert(node.entries().dom().contains(key));
                    }
                    return Err(TreeError::DuplicateKey);
                }
                if key > med_key {
                    pos = pos + 1;
                }
            }
            let ghost mid = *node;
            let ghost items = mid.items@;
            let ghost cs = mid.childs@;
            let ghost n = cs.len() as int;
            let ghost h = (mid.height() - 1) as nat;
            let ghost clo = child_lo(items, lo, pos as int);
            let ghost chi = child_hi(items, hi, pos as int);
            proof {
                lemma_entries_char(mid, t, lo, hi);
                lemma_children_wf_index(cs, items, t, lo, hi, h, n, pos as int);
                assert(!has_key(items, key) && clo < key < chi) by {
                    if !is_full {
                        assert forall|i: int| 0 <= i < items.len() implies (
                        #[trigger] items[i]).key != key by {
                            if i < pos as int {
                                assert(items[i].key < key);
                            } else {
                                assert(items[i].key > key);
                            }
                        }
                    } else {
                        let oits = on.items@;
                        assert(items == oits.insert(pos0, on.childs@[pos0].items@[t - 1]));
                        assert forall|i: int| 0 <= i < items.len() implies (
                        #[trigger] items[i]).key != key by {
                            if i < pos0 {
                                assert(items[i] == oits[i]);
                                assert(oits[i].key < key);
                            } else if i > pos0 {
                                assert(items[i] == oits[i - 1]);
                                assert(oits[i - 1].key > key);
                            }
                        }
                        if pos as int == pos0 {
                            if pos0 > 0 {
                                assert(items[pos0 - 1] == oits[pos0 - 1]);
                                assert(oits[pos0 - 1].key < key);
                            }
                            assert(key < items[pos0].key);
                        } else {
                            assert(items[pos0].key < key);
                            if pos0 + 1 < items.len() {
                                assert(items[pos0 + 1] == oits[pos0]);
                                assert(oits[pos0].key > key);
                            }
                        }
                    }
                }
                assert forall|j: int|
                    0 <= j < n && #[trigger] cs[j].entries().dom().contains(key) implies j
                    == pos as int by {
                    lemma_children_wf_index(cs, items, t, lo, hi, h, n, j);
                    lemma_entries_window(cs[j], t, child_lo(items, lo, j), child_hi(items, hi, j));
                    if j < pos as int {
                        assert(items[j].key <= items[pos as int - 1].key);
                    } else if j > pos as int {
                        assert(items[pos as int].key <= items[j - 1].key);
                    }
                }
            }
            let child = &mut node.childs[pos];
            let r = Btree::insert_nonfull(child, key, value, Ghost(t), Ghost(clo), Ghost(chi));
            proof {
                let nn = *node;
                let oldc = cs[pos as int];
                let newc = nn.childs@[pos as int];
                lemma_update_child(mid, nn, pos as int, t, lo, hi);
                lemma_entries_window(oldc, t, clo, chi);
                lemma_entries_window(newc, t, clo, chi);
                assert(mid.entries() == on.entries());
                assert(on.entries().dom().contains(key) <==> oldc.entries().dom().contains(key));
                if r is Ok {
                    assert(newc.entries() == oldc.entries().insert(key, value));
                    assert forall|k: i32| #[trigger] nn.entries().dom().contains(k) implies
                        on.entries().insert(key, value).dom().contains(k) && nn.entries()[k]
                        == on.entries().insert(key, value)[k] by {
                        if newc.entries().dom().contains(k) {
                            if k != key {
                                assert(oldc.entries().dom().contains(k));
                                assert(mid.entries()[k] == oldc.entries()[k]);
                            }
                        }
                    }
                    assert forall|k: i32|
                        #[trigger] on.entries().insert(key, value).dom().contains(k) implies
                        nn.entries().dom().contains(k) by {
                        if k == key {
                            assert(newc.entries().dom().contains(k));
                        } else {
                            if oldc.entries().dom().contains(k) {
                                assert(newc.entries().dom().contains(k));
                            }
                        }
                    }
                    assert(nn.entries() =~= on.entries().insert(key, value));
                } else {
                    assert(newc.entries() == oldc.entries());
                    assert forall|k: i32| #[trigger] nn.entries().dom().contains(k) implies
                        on.entries().dom().contains(k) && nn.entries()[k] == on.entries()[k] by {
                        if newc.entries().dom().contains(k) {
                            assert(oldc.entries().dom().contains(k));
                            assert(mid.entries()[k] == oldc.entries()[k]);
                        }
                    }
                    assert forall|k: i32| #[trigger] on.entries().dom().contains(k) implies
                        nn.entries().dom().contains(k) by {
                        if oldc.entries().dom().contains(k) {
                            assert(newc.entries().dom().contains(k));
                        }
                    }
                    assert(nn.entries() =~= on.entries());
                }
            }
            r
        }
    }

    /// Looks `key` up in the subtree rooted at `node` without changing it:
    /// a hit hands back the node and item index holding the key, a miss
    /// means the key is nowhere in the subtree.
    pub fn search<'a>(node: &'a Node, key: i32) -> (r: Option<(&'a Node, usize)>)
        requires
            node.wf(node.t as int, i32::MIN as int - 1, i32::MAX as int + 1),
        ensures
            match r {
                Some(loc) => {
                    &&& loc.1 < loc.0.items@.len()
                    &&& loc.0.items@[loc.1 as int].key == key
                    &&& node.entries().dom().contains(key)
                    &&& node.entries()[key] == loc.0.items@[loc.1 as int].value
                },
                None => !node.entries().dom().contains(key),
            },
            r is Some <==> node.entries().dom().contains(key),
        decreases node.height(),
    {
        let ghost t = node.t as int;
        let ghost fl = i32::MIN as int - 1;
        let ghost fh = i32::MAX as int + 1;
        let ghost cs = node.childs@;
        let ghost items = node.items@;
        let ghost n = cs.len() as int;
        let ghost h = (node.height() - 1) as nat;
        proof {
            lemma_entries_char(*node, t, fl, fh);
        }
        let (found, pos) = seek(&node.items, key);
        if found {
            Some((node, pos))
        } else if node.isleaf {
            assert(!node.entries().dom().contains(key));
            None
        } else {
            proof {
                lemma_children_wf_index(cs, items, t, fl, fh, h, n, pos as int);
                lemma_wf_widen(
                    cs[pos as int],
                    t,
                    child_lo(items, fl, pos as int),
                    child_hi(items, fh, pos as int),
                    fl,
                    fh,
                );
                assert forall|j: int|
                    0 <= j < n && #[trigger] cs[j].entries().dom().contains(key) implies j
                    == pos as int by {
                    lemma_children_wf_index(cs, items, t, fl, fh, h, n, j);
                    lemma_entries_window(
                        cs[j],
                        t,
                        child_lo(items, fl, j),
                        child_hi(items, fh, j),
                    );
                    if j < pos as int {
                        assert(items[j].key < key);
                    } else if j > pos as int {
                        assert(items[j - 1].key > key);
                    }
                }
            }
            let child = &node.childs[pos];
            let r = Btree::search(child, key);
            proof {
                if node.entries().dom().contains(key) {
                    assert(cs[pos as int].entries().dom().contains(key));
                }
            }
            r
        }
    }

    /// Inserts a new key/value pair into the tree. If the root is full it is
    /// split first underneath a fresh root, growing the tree by one level.
    /// Inserting a key that is already present leaves the tree unchanged and
    /// reports a duplicate-key error.
    pub fn insert(&mut self, key: i32, value: i32) -> (r: Result<(), TreeError>)
        requires
            old(self).wf(),
        ensures
            final(self).wf(),
            final(self).spec_t() == old(self).spec_t(),
            (r is Ok <==> !old(self)@.dom().contains(key)),
            r is Ok ==> final(self)@ == old(self)@.insert(key, value),
            r is Err ==> final(self)@ == old(self)@,
    {
        let ghost fl = i32::MIN as int - 1;
        let ghost fh = i32::MAX as int + 1;
        let ghost os = *old(self);
        let t = self.root.t;
        let ghost ti = t as int;
        if self.root.items.len() == 2 * t - 1 {
            let mut shell = Node { t, isleaf: false, items: Vec::new(), childs: Vec::new() };
            core::mem::swap(&mut shell, &mut self.root);
            self.root.childs.push(shell);
            proof {
                let grown = self.root;
                assert(grown.childs@[0] == os.root);
                assert(grown.height() == os.root.height() + 1);
                lemma_children_wf_intro(
                    grown.childs@,
                    grown.items@,
                    ti,
                    fl,
                    fh,
                    os.root.height(),
                    1,
                );
                assert(grown.wf(ti, fl, fh));
                assert(Node::children_entries(grown.childs@, 0) == Map::<i32, i32>::empty());
                assert(Node::children_entries(grown.childs@, 1) =~= Map::<i32, i32>::empty()
                    .union_prefer_right(os.root.entries()));
                assert(grown.entries() =~= os.root.entries());
            }
            Btree::split_child(&mut self.root, 0, Ghost(ti), Ghost(fl), Ghost(fh));
        }
        let r = Btree::insert_nonfull(&mut self.root, key, value, Ghost(ti), Ghost(fl), Ghost(fh));
        proof {
            assert(final(self).wf()) by {
                if !final(self).root.isleaf {
                    if self.root.items@.len() == 0 {
                        assert(false);
                    }
                }
            }
        }
        r
    }

    /// Merges the two children on either side of the item at `idx` (clamped
    /// to the last item when `idx` points past it) together with that item
    /// into the left child, and returns the merged child's index. The
    /// contents of the subtree are unchanged.
    fn merge_child(
        node: &mut Node,
        idx: usize,
        Ghost(t): Ghost<int>,
        Ghost(lo): Ghost<int>,
        Ghost(hi): Ghost<int>,
    ) -> (r: usize)
        requires
            old(node).wf(t, lo, hi),
            !old(node).isleaf,
            old(node).items@.len() >= 1,
            idx as int <= old(node).items@.len(),
            ({
                let r0: int = if idx as int == old(node).items@.len() {
                    idx as int - 1
                } else {
                    idx as int
                };
                old(node).childs@[r0].items@.len() + old(node).childs@[r0 + 1].items@.len() + 1
                    <= 2 * t - 1
            }),
        ensures
            final(node).wf(t, lo, hi),
            final(node).entries() == old(node).entries(),
            final(node).height() == old(node).height(),
            final(node).t == old(node).t,
            final(node).isleaf == old(node).isleaf,
            r as int == if idx as int == old(node).items@.len() {
                idx as int - 1
            } else {
                idx as int
            },
            final(node).items@ == old(node).items@.remove(r as int),
            final(node).childs@.len() == old(node).childs@.len() - 1,
            final(node).childs@[r as int].items@.len() == old(node).childs@[r as int].items@.len()
                + 1 + old(node).childs@[r as int + 1].items@.len(),
            forall|k: i32|
                #[trigger] final(node).childs@[r as int].entries().dom().contains(k) <==> (
                old(node).childs@[r as int].entries().dom().contains(k)
                    || k == old(node).items@[r as int].key
                    || old(node).childs@[r as int + 1].entries().dom().contains(k)),
            forall|k: i32|
                #[trigger] final(node).childs@[r as int].entries().dom().contains(k)
                    ==> final(node).childs@[r as int].entries()[k] == old(node).entries()[k],
    {
        let ghost on = *old(node);
        let idx = if idx == node.items.len() {
            idx - 1
        } else {
            idx
        };
        let mid_item = node.items.remove(idx);
        let right = node.childs.remove(idx + 1);
        let left = &mut node.childs[idx];
        left.join_right(right, mid_item);
        proof {
            let nn = *node;
            let cs = on.childs@;
            let items = on.items@;
            lemma_children_wf_index(
                cs,
                items,
                t,
                lo,
                hi,
                (on.height() - 1) as nat,
                cs.len() as int,
                idx as int,
            );
            assert(nn.childs@ =~= cs.remove(idx as int + 1).update(
                idx as int,
                nn.childs@[idx as int],
            ));
            assert(nn.childs@[idx as int].items@ == cs[idx as int].items@.push(
                items[idx as int],
            ) + cs[idx as int + 1].items@);
            assert(nn.childs@[idx as int].childs@ == cs[idx as int].childs@ + cs[idx as int
                + 1].childs@);
            lemma_merge_child_shape(on, nn, idx as int, t, lo, hi);
        }
        idx
    }

    /// Removes `key` from the tree and hands back the removed item, or
    /// `None` when the key is absent. When the deletion leaves the root
    /// empty with a single child, that child becomes the new root and the
    /// tree shrinks by one level.
    pub fn delete(&mut self, key: i32) -> (r: Option<Item>)
        requires
            old(self).wf(),
        ensures
            final(self).wf(),
            final(self).spec_t() == old(self).spec_t(),
            match r {
                Some(it) => it.key == key && old(self)@.dom().contains(key) && it.value == old(
                    self,
                )@[key],
                None => !old(self)@.dom().contains(key),
            },
            final(self)@ == old(self)@.remove(key),
    {
        let ghost fl = i32::MIN as int - 1;
        let ghost fh = i32::MAX as int + 1;
        let ghost ti = old(self).spec_t();
        let item = Btree::delete_key(&mut self.root, key, Ghost(ti), Ghost(fl), Ghost(fh));
        if self.root.items.len() == 0 && self.root.childs.len() > 0 {
            let ghost shrunk = self.root;
            let child = self.root.childs.pop().unwrap();
            proof {
                lemma_children_wf_index(
                    shrunk.childs@,
                    shrunk.items@,
                    ti,
                    fl,
                    fh,
                    (shrunk.height() - 1) as nat,
                    1,
                    0,
                );
                assert(child == shrunk.childs@[0]);
                assert(Node::children_entries(shrunk.childs@, 0) == Map::<i32, i32>::empty());
                assert(shrunk.entries() =~= child.entries());
            }
            self.root = child;
        }
        item
    }

    /// Removes `key` from the subtree rooted at `node` and hands the removed
    /// item back, or reports that the key is absent. Every under-full child
    /// is repaired — by borrowing from a sibling or by merging — before the
    /// walk descends into it, so no fix-up pass is needed afterwards.
    #[verifier::rlimit(100)]
    #[verifier::spinoff_prover]
    fn delete_key(
        node: &mut Node,
        key: i32,
        Ghost(t): Ghost<int>,
        Ghost(lo): Ghost<int>,
        Ghost(hi): Ghost<int>,
    ) -> (r: Option<Item>)
        requires
            old(node).wf(t, lo, hi),
            old(node).isleaf || old(node).items@.len() >= 1,
            lo < key < hi,
        ensures
            final(node).wf(t, lo, hi),
            final(node).height() == old(node).height(),
            final(node).t == old(node).t,
            final(node).isleaf == old(node).isleaf,
            final(node).items@.len() >= old(node).items@.len() - 1,
            match r {
                Some(it) => it.key == key && old(node).entries().dom().contains(key) && it.value
                    == old(node).entries()[key],
                None => !old(node).entries().dom().contains(key),
            },
            final(node).entries() == old(node).entries().remove(key),
        decreases old(node).height(),
    {
        let ghost on = *old(node);
        let ghost cs = on.childs@;
        let ghost items = on.items@;
        let ghost n = cs.len() as int;
        let ghost h = (on.height() - 1) as nat;
        proof {
            lemma_entries_char(on, t, lo, hi);
        }
        let tt = node.t;
        let (found, pos) = seek(&node.items, key);
        if found {
            if node.isleaf {
                let it = node.items.remove(pos);
                proof {
                    lemma_leaf_remove(on, *node, pos as int, t, lo, hi);
                    assert(on.entries()[items[pos as int].key] == items[pos as int].value);
                    assert(on.entries().dom().contains(key));
                }
                Some(it)
            } else {
                let ghost sep = items[pos as int];
                let ghost clo = child_lo(items, lo, pos as int);
                let ghost crhi = child_hi(items, hi, pos as int + 1);
                if node.childs[pos].items.len() >= tt {
                    // the left neighbour can spare its greatest key: pull up
                    // the in-order predecessor
                    proof {
                        lemma_children_wf_index(cs, items, t, lo, hi, h, n, pos as int);
                        lemma_entries_window(cs[pos as int], t, clo, sep.key as int);
                    }
                    let pk = max_key(&node.childs[pos], Ghost(t), Ghost(clo), Ghost(sep.key as int));
                    let child = &mut node.childs[pos];
                    let res = Btree::delete_key(child, pk, Ghost(t), Ghost(clo), Ghost(sep.key as int));
                    let mut rep = res.unwrap();
                    core::mem::swap(&mut node.items[pos], &mut rep);
                    proof {
                        let pred = Item { key: pk, value: cs[pos as int].entries()[pk] };
                        lemma_replace_sep_left(on, *node, pos as int, pred, t, lo, hi);
                        assert(on.entries()[sep.key] == sep.value);
                        assert(on.entries().dom().contains(key));
                    }
                    Some(rep)
                } else if node.childs[pos + 1].items.len() >= tt {
                    // otherwise the right neighbour: pull up the in-order
                    // successor
                    proof {
                        lemma_children_wf_index(cs, items, t, lo, hi, h, n, pos as int + 1);
                        lemma_entries_window(cs[pos as int + 1], t, sep.key as int, crhi);
                    }
                    let sk = min_key(
                        &node.childs[pos + 1],
                        Ghost(t),
                        Ghost(sep.key as int),
                        Ghost(crhi),
                    );
                    let child = &mut node.childs[pos + 1];
                    let res = Btree::delete_key(child, sk, Ghost(t), Ghost(sep.key as int), Ghost(crhi));
                    let mut rep = res.unwrap();
                    core::mem::swap(&mut node.items[pos], &mut rep);
                    proof {
                        let succ = Item { key: sk, value: cs[pos as int + 1].entries()[sk] };
                        lemma_replace_sep_right(on, *node, pos as int, succ, t, lo, hi);
                        assert(on.entries()[sep.key] == sep.value);
                        assert(on.entries().dom().contains(key));
                    }
                    Some(rep)
                } else {
                    // both neighbours are minimal: merge them around the key
                    // and delete inside the merged child
                    proof {
                        lemma_children_wf_index(cs, items, t, lo, hi, h, n, pos as int);
                        lemma_children_wf_index(cs, items, t, lo, hi, h, n, pos as int + 1);
                    }
                    let mc = Btree::merge_child(node, pos, Ghost(t), Ghost(lo), Ghost(hi));
                    let ghost mid = *node;
                    proof {
                        assert(mc as int == pos as int);
                        lemma_children_wf_index(
                            mid.childs@,
                            mid.items@,
                            t,
                            lo,
                            hi,
                            (mid.height() - 1) as nat,
                            mid.childs@.len() as int,
                            mc as int,
                        );
                        assert(mid.childs@[mc as int].entries().dom().contains(key));
                        assert(child_lo(mid.items@, lo, mc as int) < key < child_hi(
                            mid.items@,
                            hi,
                            mc as int,
                        )) by {
                            if pos as int > 0 {
                                assert(mid.items@[pos as int - 1] == items[pos as int - 1]);
                                assert(items[pos as int - 1].key < items[pos as int].key);
                            }
                            if (pos as int) < mid.items@.len() {
                                assert(mid.items@[pos as int] == items[pos as int + 1]);
                                assert(items[pos as int].key < items[pos as int + 1].key);
                            }
                        }
                    }
                    let child = &mut node.childs[mc];
                    let res = Btree::delete_key(
                        child,
                        key,
                        Ghost(t),
                        Ghost(child_lo(mid.items@, lo, mc as int)),
                        Ghost(child_hi(mid.items@, hi, mc as int)),
                    );
                    proof {
                        let nn = *node;
                        let oldc = mid.childs@[mc as int];
                        let newc = nn.childs@[mc as int];
                        lemma_update_child(mid, nn, mc as int, t, lo, hi);
                        lemma_entries_char(mid, t, lo, hi);
                        assert(mid.entries()[key] == oldc.entries()[key]);
                        assert(on.entries().dom().contains(key) && on.entries()[key]
                            == oldc.entries()[key]) by {
                            assert(on.entries()[sep.key] == sep.value);
                        }
                        assert forall|k: i32| #[trigger] nn.entries().dom().contains(k) implies
                            mid.entries().remove(key).dom().contains(k) && nn.entries()[k]
                            == mid.entries().remove(key)[k] by {
                            if newc.entries().dom().contains(k) {
                                assert(oldc.entries().dom().contains(k));
                                assert(mid.entries()[k] == oldc.entries()[k]);
                            } else if oldc.entries().dom().contains(k) {
                                assert(false);
                            } else {
                                if k == key {
                                    assert(oldc.entries().dom().contains(k));
                                }
                            }
                        }
                        assert forall|k: i32|
                            #[trigger] mid.entries().remove(key).dom().contains(k) implies
                            nn.entries().dom().contains(k) by {
                            if oldc.entries().dom().contains(k) {
                                assert(newc.entries().dom().contains(k));
                            }
                        }
                        assert(nn.entries() =~= mid.entries().remove(key));
                        assert(nn.entries() =~= on.entries().remove(key));
                    }
                    res
                }
            }
        } else if node.isleaf {
            proof {
                assert(!on.entries().dom().contains(key));
                assert(on.entries().remove(key) =~= on.entries());
            }
            None
        } else {
            // the key, if present at all, sits in the child at `pos`; repair
            // that child first when it is too small to be descended into
            let mut idx = pos;
            proof {
                assert(child_lo(items, lo, pos as int) < key < child_hi(items, hi, pos as int));
                lemma_children_wf_index(cs, items, t, lo, hi, h, n, pos as int);
            }
            if node.childs[idx].items.len() < tt {
                let ok = Btree::extend_child(node, idx, Ghost(t), Ghost(lo), Ghost(hi));
                if !ok {
                    proof {
                        lemma_children_wf_index(cs, items, t, lo, hi, h, n, idx as int);
                        if (idx as int) < items.len() {
                            lemma_children_wf_index(cs, items, t, lo, hi, h, n, idx as int + 1);
                        }
                        if idx as int > 0 {
                            lemma_children_wf_index(cs, items, t, lo, hi, h, n, idx as int - 1);
                        }
                    }
                    let idx2 = Btree::merge_child(node, idx, Ghost(t), Ghost(lo), Ghost(hi));
                    idx = idx2;
                }
            }
            let ghost mid = *node;
            let ghost mh = (mid.height() - 1) as nat;
            proof {
                lemma_children_wf_index(
                    mid.childs@,
                    mid.items@,
                    t,
                    lo,
                    hi,
                    mh,
                    mid.childs@.len() as int,
                    idx as int,
                );
                assert(child_lo(mid.items@, lo, idx as int) < key < child_hi(
                    mid.items@,
                    hi,
                    idx as int,
                )) by {
                    if mid != on && mid.items@.len() == items.len() {
                        // a borrow only widened the child's window
                    } else if mid != on {
                        // a merge: the window spans the removed separator
                        if idx as int == pos as int {
                            if pos as int > 0 {
                                assert(mid.items@[pos as int - 1] == items[pos as int - 1]);
                            }
                            if (pos as int) < mid.items@.len() {
                                assert(mid.items@[pos as int] == items[pos as int + 1]);
                            }
                        } else {
                            assert(idx as int == pos as int - 1);
                            if idx as int > 0 {
                                assert(mid.items@[idx as int - 1] == items[idx as int - 1]);
                            }
                        }
                    }
                }
                assert(mid.childs@[idx as int].items@.len() >= t);
            }
            let child = &mut node.childs[idx];
            let res = Btree::delete_key(
                child,
                key,
                Ghost(t),
                Ghost(child_lo(mid.items@, lo, idx as int)),
                Ghost(child_hi(mid.items@, hi, idx as int)),
            );
            proof {
                let nn = *node;
                let oldc = mid.childs@[idx as int];
                let newc = nn.childs@[idx as int];
                lemma_update_child(mid, nn, idx as int, t, lo, hi);
                lemma_key_in_child(mid, t, lo, hi, idx as int, key);
                lemma_entries_char(mid, t, lo, hi);
                assert forall|k: i32| #[trigger] nn.entries().dom().contains(k) implies
                    mid.entries().remove(key).dom().contains(k) && nn.entries()[k]
                    == mid.entries().remove(key)[k] by {
                    if newc.entries().dom().contains(k) {
                        assert(oldc.entries().dom().contains(k));
                        assert(mid.entries()[k] == oldc.entries()[k]);
                    } else if oldc.entries().dom().contains(k) {
                        assert(false);
                    } else {
                        if k == key {
                            assert(!mid.entries().dom().contains(k));
                        }
                    }
                }
                assert forall|k: i32| #[trigger] mid.entries().remove(key).dom().contains(k)
                    implies nn.entries().dom().contains(k) by {
                    if oldc.entries().dom().contains(k) {
                        assert(newc.entries().dom().contains(k));
                    }
                }
                assert(nn.entries() =~= mid.entries().remove(key));
                assert(nn.entries() =~= on.entries().remove(key));
                assert(match res {
                    Some(it) => it.key == key && on.entries().dom().contains(key) && it.value
                        == on.entries()[key],
                    None => !on.entries().dom().contains(key),
                });
            }
            res
        }
    }

    /// Tries to refill the under-full child at `idx` by borrowing one item
    /// from an adjacent sibling with spare capacity, rotating it through the
    /// parent; the right sibling is preferred. Reports whether a borrow
    /// happened; on failure nothing changes.
    fn extend_child(
        node: &mut Node,
        idx: usize,
        Ghost(t): Ghost<int>,
        Ghost(lo): Ghost<int>,
        Ghost(hi): Ghost<int>,
    ) -> (r: bool)
        requires
            old(node).wf(t, lo, hi),
            !old(node).isleaf,
            idx as int <= old(node).items@.len(),
            old(node).childs@[idx as int].items@.len() < t,
        ensures
            final(node).wf(t, lo, hi),
            final(node).entries() == old(node).entries(),
            final(node).height() == old(node).height(),
            final(node).t == old(node).t,
            final(node).isleaf == old(node).isleaf,
            final(node).items@.len() == old(node).items@.len(),
            final(node).childs@.len() == old(node).childs@.len(),
            r == (((idx as int) < old(node).items@.len() && old(node).childs@[idx as int
                + 1].items@.len() >= t) || ((idx as int) > 0 && old(node).childs@[idx as int
                - 1].items@.len() >= t)),
            r ==> final(node).childs@[idx as int].items@.len() == old(node).childs@[
                idx as int
            ].items@.len() + 1,
            r ==> child_lo(final(node).items@, lo, idx as int) <= child_lo(
                old(node).items@,
                lo,
                idx as int,
            ) && child_hi(final(node).items@, hi, idx as int) >= child_hi(
                old(node).items@,
                hi,
                idx as int,
            ),
            !r ==> *final(node) == *old(node),
    {
        let ghost on = *old(node);
        let ghost cs = on.childs@;
        let ghost items = on.items@;
        let n = node.items.len();
        let tt = node.t;
        if idx < n && node.childs[idx + 1].items.len() >= tt {
            let rref = &mut node.childs[idx + 1];
            let mut moved = rref.items.remove(0);
            let moved_child = if rref.childs.len() > 0 {
                Some(rref.childs.remove(0))
            } else {
                None
            };
            core::mem::swap(&mut node.items[idx], &mut moved);
            let lref = &mut node.childs[idx];
            lref.items.push(moved);
            match moved_child {
                Some(mc) => lref.childs.push(mc),
                None => {},
            }
            proof {
                let nn = *node;
                let h = (on.height() - 1) as nat;
                lemma_children_wf_index(cs, items, t, lo, hi, h, cs.len() as int, idx as int);
                lemma_children_wf_index(cs, items, t, lo, hi, h, cs.len() as int, idx as int + 1);
                let rt = cs[idx as int + 1];
                assert(nn.items@ =~= items.update(idx as int, rt.items@[0]));
                assert(nn.childs@ =~= cs.update(idx as int, nn.childs@[idx as int]).update(
                    idx as int + 1,
                    nn.childs@[idx as int + 1],
                ));
                assert(nn.childs@[idx as int + 1].items@ =~= rt.items@.subrange(
                    1,
                    rt.items@.len() as int,
                ));
                if rt.childs@.len() > 0 {
                    assert(nn.childs@[idx as int + 1].childs@ =~= rt.childs@.subrange(
                        1,
                        rt.childs@.len() as int,
                    ));
                }
                lemma_borrow_right_shape(on, nn, idx as int, t, lo, hi);
            }
            true
        } else if idx > 0 && node.childs[idx - 1].items.len() >= tt {
            let lref = &mut node.childs[idx - 1];
            let mut moved = lref.items.pop().unwrap();
            let moved_child = lref.childs.pop();
            core::mem::swap(&mut node.items[idx - 1], &mut moved);
            let cref = &mut node.childs[idx];
            cref.items.insert(0, moved);
            match moved_child {
                Some(mc) => cref.childs.insert(0, mc),
                None => {},
            }
            proof {
                let nn = *node;
                let h = (on.height() - 1) as nat;
                lemma_children_wf_index(cs, items, t, lo, hi, h, cs.len() as int, idx as int - 1);
                lemma_children_wf_index(cs, items, t, lo, hi, h, cs.len() as int, idx as int);
                let lt = cs[idx as int - 1];
                let ln = lt.items@.len() as int;
                assert(nn.items@ =~= items.update(idx as int - 1, lt.items@[ln - 1]));
                assert(nn.childs@ =~= cs.update(idx as int - 1, nn.childs@[idx as int - 1]).update(
                    idx as int,
                    nn.childs@[idx as int],
                ));
                assert(nn.childs@[idx as int - 1].items@ =~= lt.items@.subrange(0, ln - 1));
                if lt.childs@.len() > 0 {
                    assert(nn.childs@[idx as int - 1].childs@ =~= lt.childs@.subrange(0, ln));
                }
                lemma_borrow_left_shape(on, nn, idx as int, t, lo, hi);
            }
            true
        } else {
            false
        }
    }

    /// The smallest key stored in the subtree rooted at `node`, or `None`
    /// when the subtree is empty.
    pub fn get_min_item(node: &Node) -> (r: Option<i32>)
        requires
            node.wf(node.t as int, i32::MIN as int - 1, i32::MAX as int + 1),
            node.isleaf || node.items@.len() >= 1,
        ensures
            match r {
                Some(k) => node.entries().dom().contains(k) && forall|k2: i32|
                    #[trigger] node.entries().dom().contains(k2) ==> k <= k2,
                None => node.entries().dom() =~= Set::<i32>::empty(),
            },
            r is None <==> node.items@.len() == 0,
        decreases node.height(),
    {
        let ghost t = node.t as int;
        let ghost fl = i32::MIN as int - 1;
        let ghost fh = i32::MAX as int + 1;
        let ghost cs = node.childs@;
        let ghost items = node.items@;
        let ghost n = cs.len() as int;
        let ghost h = (node.height() - 1) as nat;
        proof {
            lemma_entries_char(*node, t, fl, fh);
        }
        if node.items.len() == 0 {
            None
        } else if node.isleaf {
            assert forall|k2: i32| #[trigger] node.entries().dom().contains(k2) implies
                node.items@[0].key <= k2 by {
                let i = choose|i: int| 0 <= i < items.len() && #[trigger] items[i].key == k2;
                if i > 0 {
                    assert(items[0].key < items[i].key);
                }
            }
            Some(node.items[0].key)
        } else {
            proof {
                lemma_children_wf_index(cs, items, t, fl, fh, h, n, 0);
                lemma_wf_widen(cs[0], t, fl, child_hi(items, fh, 0), fl, fh);
            }
            let child = &node.childs[0];
            let r = Btree::get_min_item(child);
            proof {
                let mk = r->Some_0;
                lemma_entries_window(cs[0], t, child_lo(items, fl, 0), child_hi(items, fh, 0));
                assert forall|k2: i32| #[trigger] node.entries().dom().contains(k2) implies mk
                    <= k2 by {
                    assert(mk < items[0].key);
                    if has_key(items, k2) {
                        let i = choose|i: int|
                            0 <= i < items.len() && #[trigger] items[i].key == k2;
                        if i > 0 {
                            assert(items[0].key < items[i].key);
                        }
                    } else {
                        let j = choose|j: int|
                            0 <= j < n && #[trigger] cs[j].entries().dom().contains(k2);
                        if j > 0 {
                            lemma_children_wf_index(cs, items, t, fl, fh, h, n, j);
                            lemma_entries_window(
                                cs[j],
                                t,
                                child_lo(items, fl, j),
                                child_hi(items, fh, j),
                            );
                            assert(items[0].key <= items[j - 1].key);
                        }
                    }
                }
            }
            r
        }
    }
}

/// The least key stored in the subtree rooted at `node`.
fn min_key(node: &Node, Ghost(t): Ghost<int>, Ghost(lo): Ghost<int>, Ghost(hi): Ghost<int>) -> (r:
    i32)
    requires
        node.wf(t, lo, hi),
        node.items@.len() >= 1,
    ensures
        node.entries().dom().contains(r),
        forall|k2: i32| #[trigger] node.entries().dom().contains(k2) ==> k2 >= r,
    decreases node.height(),
{
    let ghost cs = node.childs@;
    let ghost items = node.items@;
    let ghost n = cs.len() as int;
    let ghost h = (node.height() - 1) as nat;
    proof {
        lemma_entries_char(*node, t, lo, hi);
    }
    if node.isleaf {
        let r = node.items[0].key;
        assert forall|k2: i32| #[trigger] node.entries().dom().contains(k2) implies k2 >= r by {
            let i = choose|i: int| 0 <= i < items.len() && #[trigger] items[i].key == k2;
            if i > 0 {
                assert(items[0].key < items[i].key);
            }
        }
        r
    } else {
        proof {
            lemma_children_wf_index(cs, items, t, lo, hi, h, n, 0);
        }
        let r = min_key(
            &node.childs[0],
            Ghost(t),
            Ghost(child_lo(items, lo, 0)),
            Ghost(child_hi(items, hi, 0)),
        );
        proof {
            lemma_entries_window(cs[0], t, child_lo(items, lo, 0), child_hi(items, hi, 0));
            assert forall|k2: i32| #[trigger] node.entries().dom().contains(k2) implies k2 >= r by {
                assert(r < items[0].key);
                if has_key(items, k2) {
                    let i = choose|i: int| 0 <= i < items.len() && #[trigger] items[i].key == k2;
                    if i > 0 {
                        assert(items[0].key < items[i].key);
                    }
                } else {
                    let j = choose|j: int|
                        0 <= j < n && #[trigger] cs[j].entries().dom().contains(k2);
                    if j > 0 {
                        lemma_children_wf_index(cs, items, t, lo, hi, h, n, j);
                        lemma_entries_window(
                            cs[j],
                            t,
                            child_lo(items, lo, j),
                            child_hi(items, hi, j),
                        );
                        assert(items[0].key <= items[j - 1].key);
                    }
                }
            }
        }
        r
    }
}

/// The greatest key stored in the subtree rooted at `node`.
fn max_key(node: &Node, Ghost(t): Ghost<int>, Ghost(lo): Ghost<int>, Ghost(hi): Ghost<int>) -> (r:
    i32)
    requires
        node.wf(t, lo, hi),
        node.items@.len() >= 1,
    ensures
        node.entries().dom().contains(r),
        forall|k2: i32| #[trigger] node.entries().dom().contains(k2) ==> k2 <= r,
    decreases node.height(),
{
    let ghost cs = node.childs@;
    let ghost items = node.items@;
    let ghost n = cs.len() as int;
    let ghost h = (node.height() - 1) as nat;
    proof {
        lemma_entries_char(*node, t, lo, hi);
    }
    if node.isleaf {
        let r = node.items[node.items.len() - 1].key;
        assert forall|k2: i32| #[trigger] node.entries().dom().contains(k2) implies k2 <= r by {
            let i = choose|i: int| 0 <= i < items.len() && #[trigger] items[i].key == k2;
            if i < items.len() - 1 {
                assert(items[i].key < items[items.len() - 1].key);
            }
        }
        r
    } else {
        proof {
            lemma_children_wf_index(cs, items, t, lo, hi, h, n, n - 1);
        }
        let last = node.childs.len() - 1;
        let r = max_key(
            &node.childs[last],
            Ghost(t),
            Ghost(child_lo(items, lo, n - 1)),
            Ghost(child_hi(items, hi, n - 1)),
        );
        proof {
            lemma_entries_window(cs[n - 1], t, child_lo(items, lo, n - 1), child_hi(items, hi, n - 1));
            assert forall|k2: i32| #[trigger] node.entries().dom().contains(k2) implies k2 <= r by {
                assert(r > items[n - 2].key);
                if has_key(items, k2) {
                    let i = choose|i: int| 0 <= i < items.len() && #[trigger] items[i].key == k2;
                    if i < n - 2 {
                        assert(items[i].key < items[n - 2].key);
                    }
                } else {
                    let j = choose|j: int|
                        0 <= j < n && #[trigger] cs[j].entries().dom().contains(k2);
                    if j < n - 1 {
                        lemma_children_wf_index(cs, items, t, lo, hi, h, n, j);
                        lemma_entries_window(
                            cs[j],
                            t,
                            child_lo(items, lo, j),
                            child_hi(items, hi, j),
                        );
                        assert(items[j].key <= items[n - 2].key);
                    }
                }
            }
        }
        r
    }
}

/// Replacing the child at `j` by a well-formed node of the same height and
/// window leaves the parent well-formed; the parent's contents change
/// exactly by swapping the old child's pairs for the new child's pairs.
#[verifier::spinoff_prover]
proof fn lemma_update_child(on: Node, nn: Node, j: int, t: int, lo: int, hi: int)
    requires
        on.wf(t, lo, hi),
        !on.isleaf,
        0 <= j < on.childs@.len(),
        nn.t == on.t,
        nn.isleaf == on.isleaf,
        nn.items@ == on.items@,
        nn.childs@ == on.childs@.update(j, nn.childs@[j]),
        nn.childs@[j].wf(t, child_lo(on.items@, lo, j), child_hi(on.items@, hi, j)),
        nn.childs@[j].items@.len() >= t - 1,
        nn.childs@[j].height() == on.childs@[j].height(),
    ensures
        nn.wf(t, lo, hi),
        nn.height() == on.height(),
        forall|k: i32|
            !on.childs@[j].entries().dom().contains(k) && !nn.childs@[j].entries().dom().contains(
                k,
            ) ==> (#[trigger] nn.entries().dom().contains(k) <==> on.entries().dom().contains(k))
                && (nn.entries().dom().contains(k) ==> nn.entries()[k] == on.entries()[k]),
        forall|k: i32|
            #[trigger] nn.childs@[j].entries().dom().contains(k) ==> nn.entries().dom().contains(k)
                && nn.entries()[k] == nn.childs@[j].entries()[k],
        forall|k: i32|
            on.childs@[j].entries().dom().contains(k) && !nn.childs@[j].entries().dom().contains(k)
                ==> !(#[trigger] nn.entries().dom().contains(k)),
{
    let items = on.items@;
    let cs = on.childs@;
    let n = cs.len() as int;
    let h = (on.height() - 1) as nat;
    let oldc = cs[j];
    let newc = nn.childs@[j];
    lemma_children_wf_index(cs, items, t, lo, hi, h, n, j);
    assert forall|j2: int|
        0 <= j2 < n implies (#[trigger] nn.childs@[j2]).wf(
        t,
        child_lo(items, lo, j2),
        child_hi(items, hi, j2),
    ) && nn.childs@[j2].items@.len() >= t - 1 && nn.childs@[j2].height() == h by {
        if j2 != j {
            lemma_children_wf_index(cs, items, t, lo, hi, h, n, j2);
            assert(nn.childs@[j2] == cs[j2]);
        }
    }
    lemma_children_wf_intro(nn.childs@, items, t, lo, hi, h, n);
    assert(nn.height() == on.height()) by {
        if j != 0 {
            assert(nn.childs@[0] == cs[0]);
        }
    }
    assert(nn.wf(t, lo, hi));
    lemma_entries_char(on, t, lo, hi);
    lemma_entries_char(nn, t, lo, hi);
    assert forall|k: i32|
        !oldc.entries().dom().contains(k) && !newc.entries().dom().contains(k) implies (
    #[trigger] nn.entries().dom().contains(k) <==> on.entries().dom().contains(k)) && (
    nn.entries().dom().contains(k) ==> nn.entries()[k] == on.entries()[k]) by {
        if nn.entries().dom().contains(k) {
            if has_key(items, k) {
                let i = choose|i: int| 0 <= i < items.len() && #[trigger] items[i].key == k;
                assert(nn.entries()[items[i].key] == items[i].value);
                assert(on.entries()[items[i].key] == items[i].value);
                assert(on.entries().dom().contains(k));
            } else {
                let j2 = choose|j2: int|
                    0 <= j2 < n && #[trigger] nn.childs@[j2].entries().dom().contains(k);
                assert(j2 != j);
                assert(nn.childs@[j2] == cs[j2]);
                assert(nn.entries()[k] == cs[j2].entries()[k]);
                assert(on.entries()[k] == cs[j2].entries()[k]);
            }
        }
        if on.entries().dom().contains(k) {
            if has_key(items, k) {
                assert(nn.entries().dom().contains(k));
            } else {
                let j2 = choose|j2: int|
                    0 <= j2 < n && #[trigger] cs[j2].entries().dom().contains(k);
                assert(j2 != j);
                assert(nn.childs@[j2] == cs[j2]);
                assert(nn.entries().dom().contains(k));
            }
        }
    }
    assert forall|k: i32|
        oldc.entries().dom().contains(k) && !newc.entries().dom().contains(k) implies !(
    #[trigger] nn.entries().dom().contains(k)) by {
        lemma_entries_window(oldc, t, child_lo(items, lo, j), child_hi(items, hi, j));
        if nn.entries().dom().contains(k) {
            if has_key(items, k) {
                let i = choose|i: int| 0 <= i < items.len() && #[trigger] items[i].key == k;
                if i >= j {
                    assert(j < items.len());
                    assert(items[j].key <= items[i].key);
                } else {
                    assert(items[i].key <= items[j - 1].key);
                }
            } else {
                let j2 = choose|j2: int|
                    0 <= j2 < n && #[trigger] nn.childs@[j2].entries().dom().contains(k);
                assert(j2 != j);
                assert(nn.childs@[j2] == cs[j2]);
                lemma_children_wf_index(cs, items, t, lo, hi, h, n, j2);
                lemma_entries_window(cs[j2], t, child_lo(items, lo, j2), child_hi(items, hi, j2));
                if j2 < j {
                    assert(items[j2].key <= items[j - 1].key);
                } else {
                    assert(items[j].key <= items[j2 - 1].key);
                }
            }
        }
    }
}

/// Inserting an item into a leaf at its sorted position keeps the leaf
/// well-formed and adds exactly that pair to its contents.
#[verifier::spinoff_prover]
proof fn lemma_leaf_insert(on: Node, nn: Node, pos: int, it: Item, t: int, lo: int, hi: int)
    requires
        on.wf(t, lo, hi),
        on.isleaf,
        0 <= pos <= on.items@.len(),
        forall|j: int| 0 <= j < pos ==> (#[trigger] on.items@[j]).key < it.key,
        forall|j: int| pos <= j < on.items@.len() ==> (#[trigger] on.items@[j]).key > it.key,
        lo < it.key < hi,
        on.items@.len() < 2 * t - 1,
        nn.t == on.t,
        nn.isleaf == on.isleaf,
        nn.childs@ == on.childs@,
        nn.items@ == on.items@.insert(pos, it),
    ensures
        nn.wf(t, lo, hi),
        nn.height() == on.height(),
        nn.entries() == on.entries().insert(it.key, it.value),
{
    let items = on.items@;
    let nits = nn.items@;
    assert forall|i: int, j: int|
        0 <= i < j < nits.len() implies #[trigger] nits[i].key < #[trigger] nits[j].key by {}
    assert(keys_in_window(nits, lo, hi)) by {
        assert forall|i: int| 0 <= i < nits.len() implies lo < (#[trigger] nits[i]).key < hi by {
            if i < pos {
                assert(nits[i] == items[i]);
            } else if i > pos {
                assert(nits[i] == items[i - 1]);
            }
        }
    }
    assert(nn.wf(t, lo, hi));
    lemma_items_map_char(items);
    lemma_items_map_char(nits);
    assert forall|k: i32| #[trigger] has_key(nits, k) implies has_key(items, k) || k == it.key by {
        let i = choose|i: int| 0 <= i < nits.len() && #[trigger] nits[i].key == k;
        if i < pos {
            assert(items[i].key == k);
        } else if i > pos {
            assert(items[i - 1].key == k);
        }
    }
    assert forall|k: i32| has_key(items, k) implies #[trigger] has_key(nits, k) by {
        let i = choose|i: int| 0 <= i < items.len() && #[trigger] items[i].key == k;
        if i < pos {
            assert(nits[i].key == k);
        } else {
            assert(nits[i + 1].key == k);
        }
    }
    assert(has_key(nits, it.key)) by {
        assert(nits[pos].key == it.key);
    }
    assert forall|k: i32| #[trigger] has_key(nits, k) implies Node::items_map(nits)[k]
        == on.entries().insert(it.key, it.value)[k] by {
        let i = choose|i: int| 0 <= i < nits.len() && #[trigger] nits[i].key == k;
        assert(Node::items_map(nits)[nits[i].key] == nits[i].value);
        if i < pos {
            assert(items[i] == nits[i]);
            assert(Node::items_map(items)[items[i].key] == items[i].value);
        } else if i > pos {
            assert(items[i - 1] == nits[i]);
            assert(Node::items_map(items)[items[i - 1].key] == items[i - 1].value);
        }
    }
    assert(nn.entries() =~= on.entries().insert(it.key, it.value));
}

/// Replacing the full child at `idx` by its two halves with the median item
/// promoted between them preserves well-formedness, height and contents.
#[verifier::rlimit(100)]
#[verifier::spinoff_prover]
proof fn lemma_split_child_shape(on: Node, nn: Node, idx: int, t: int, lo: int, hi: int)
    requires
        on.wf(t, lo, hi),
        !on.isleaf,
        0 <= idx < on.childs@.len(),
        on.childs@[idx].items@.len() == 2 * t - 1,
        on.items@.len() < 2 * t - 1,
        nn.t == on.t,
        nn.isleaf == on.isleaf,
        nn.items@ == on.items@.insert(idx, on.childs@[idx].items@[t - 1]),
        nn.childs@ == on.childs@.update(idx, nn.childs@[idx]).insert(
            idx + 1,
            nn.childs@[idx + 1],
        ),
        ({
            let yy = on.childs@[idx];
            let yp = nn.childs@[idx];
            let zz = nn.childs@[idx + 1];
            &&& yp.t == t
            &&& zz.t == t
            &&& yp.isleaf == yy.isleaf
            &&& zz.isleaf == yy.isleaf
            &&& yp.items@ == yy.items@.subrange(0, t - 1)
            &&& zz.items@ == yy.items@.subrange(t, 2 * t - 1)
            &&& (yy.isleaf ==> yp.childs@ == Seq::<Node>::empty() && zz.childs@ == Seq::<
                Node,
            >::empty())
            &&& (!yy.isleaf ==> yp.childs@ == yy.childs@.subrange(0, t) && zz.childs@
                == yy.childs@.subrange(t, 2 * t))
        }),
    ensures
        nn.wf(t, lo, hi),
        nn.entries() == on.entries(),
        nn.height() == on.height(),
        nn.childs@.len() == on.childs@.len() + 1,
        nn.childs@[idx].items@.len() == t - 1,
        nn.childs@[idx + 1].items@.len() == t - 1,
{
    let items = on.items@;
    let cs = on.childs@;
    let n = cs.len() as int;
    let h = (on.height() - 1) as nat;
    let yy = cs[idx];
    let yp = nn.childs@[idx];
    let zz = nn.childs@[idx + 1];
    let med = yy.items@[t - 1];
    let ylo = child_lo(items, lo, idx);
    let yhi = child_hi(items, hi, idx);
    lemma_children_wf_index(cs, items, t, lo, hi, h, n, idx);
            lemma_split_at(yy, yp, zz, t, ylo, yhi, t - 1);
    lemma_entries_char(on, t, lo, hi);
    lemma_entries_window(yy, t, ylo, yhi);

    // the new item sequence is sorted inside the window
    assert forall|i: int, j: int|
        0 <= i < j < nn.items@.len() implies #[trigger] nn.items@[i].key
        < #[trigger] nn.items@[j].key by {
        if i == idx {
            assert(yy.entries().dom().contains(med.key));
        } else if j == idx {
            assert(yy.entries().dom().contains(med.key));
        }
    }
    assert(keys_in_window(nn.items@, lo, hi)) by {
        assert(yy.entries().dom().contains(med.key));
        assert forall|i: int| 0 <= i < nn.items@.len() implies lo
            < (#[trigger] nn.items@[i]).key < hi by {
            if i < idx {
                assert(nn.items@[i] == items[i]);
            } else if i > idx {
                assert(nn.items@[i] == items[i - 1]);
            }
        }
    }

    // every child of the reshaped node is well-formed in its window
    assert forall|j: int|
        0 <= j < nn.childs@.len() implies (#[trigger] nn.childs@[j]).wf(
        t,
        child_lo(nn.items@, lo, j),
        child_hi(nn.items@, hi, j),
    ) && nn.childs@[j].items@.len() >= t - 1 && nn.childs@[j].height() == h by {
        if j < idx {
            lemma_children_wf_index(cs, items, t, lo, hi, h, n, j);
            assert(nn.childs@[j] == cs[j]);
            assert(child_lo(nn.items@, lo, j) == child_lo(items, lo, j));
            assert(child_hi(nn.items@, hi, j) == child_hi(items, hi, j));
        } else if j == idx {
            assert(child_lo(nn.items@, lo, j) == ylo);
            assert(child_hi(nn.items@, hi, j) == med.key as int);
        } else if j == idx + 1 {
            assert(child_lo(nn.items@, lo, j) == med.key as int);
            assert(child_hi(nn.items@, hi, j) == yhi);
        } else {
            lemma_children_wf_index(cs, items, t, lo, hi, h, n, j - 1);
            assert(nn.childs@[j] == cs[j - 1]);
            assert(child_lo(nn.items@, lo, j) == child_lo(items, lo, j - 1));
            assert(child_hi(nn.items@, hi, j) == child_hi(items, hi, j - 1));
        }
    }
    lemma_children_wf_intro(
        nn.childs@,
        nn.items@,
        t,
        lo,
        hi,
        h,
        nn.childs@.len() as int,
    );
    assert(nn.height() == on.height()) by {
        if idx == 0 {
            assert(nn.childs@[0] == yp);
        } else {
            assert(nn.childs@[0] == cs[0]);
            lemma_children_wf_index(cs, items, t, lo, hi, h, n, 0);
        }
    }
    assert(nn.wf(t, lo, hi));
    lemma_entries_char(nn, t, lo, hi);

    // contents unchanged, key by key
    assert forall|k: i32| #[trigger] nn.entries().dom().contains(k) implies
        on.entries().dom().contains(k) && nn.entries()[k] == on.entries()[k] by {
        if has_key(nn.items@, k) {
            let i = choose|i: int|
                0 <= i < nn.items@.len() && #[trigger] nn.items@[i].key == k;
            assert(nn.entries()[k] == nn.items@[i].value);
            if i == idx {
                assert(yy.entries().dom().contains(k));
                assert(on.entries()[k] == yy.entries()[k]);
            } else if i < idx {
                assert(items[i] == nn.items@[i]);
                assert(has_key(items, k));
                assert(on.entries()[items[i].key] == items[i].value);
            } else {
                assert(items[i - 1] == nn.items@[i]);
                assert(has_key(items, k));
                assert(on.entries()[items[i - 1].key] == items[i - 1].value);
            }
        } else {
            let j = choose|j: int|
                0 <= j < nn.childs@.len()
                    && #[trigger] nn.childs@[j].entries().dom().contains(k);
            assert(nn.entries()[k] == nn.childs@[j].entries()[k]);
            if j < idx {
                assert(nn.childs@[j] == cs[j]);
                assert(on.entries()[k] == cs[j].entries()[k]);
            } else if j == idx {
                assert(yy.entries().dom().contains(k));
                assert(yy.entries()[k] == yp.entries()[k]);
                assert(on.entries()[k] == yy.entries()[k]);
            } else if j == idx + 1 {
                assert(yy.entries().dom().contains(k));
                assert(yy.entries()[k] == zz.entries()[k]);
                assert(on.entries()[k] == yy.entries()[k]);
            } else {
                assert(nn.childs@[j] == cs[j - 1]);
                assert(on.entries()[k] == cs[j - 1].entries()[k]);
            }
        }
    }
    assert forall|k: i32| #[trigger] on.entries().dom().contains(k) implies
        nn.entries().dom().contains(k) by {
        if has_key(items, k) {
            let i = choose|i: int| 0 <= i < items.len() && #[trigger] items[i].key == k;
            if i < idx {
                assert(nn.items@[i].key == k);
            } else {
                assert(nn.items@[i + 1].key == k);
            }
            assert(has_key(nn.items@, k));
        } else {
            let j = choose|j: int|
                0 <= j < cs.len() && #[trigger] cs[j].entries().dom().contains(k);
            if j < idx {
                assert(nn.childs@[j].entries().dom().contains(k));
            } else if j == idx {
                if yp.entries().dom().contains(k) {
                    assert(nn.childs@[idx].entries().dom().contains(k));
                } else if zz.entries().dom().contains(k) {
                    assert(nn.childs@[idx + 1].entries().dom().contains(k));
                } else {
                    assert(k == med.key);
                    assert(nn.items@[idx].key == k);
                    assert(has_key(nn.items@, k));
                }
            } else {
                assert(nn.childs@[j + 1] == cs[j]);
                assert(nn.childs@[j + 1].entries().dom().contains(k));
            }
        }
    }
    assert(nn.entries() =~= on.entries());
}

/// Removing the separator at `r` and fusing the two children around it into
/// one child leaves the parent well-formed with the same contents.
#[verifier::rlimit(100)]
#[verifier::spinoff_prover]
proof fn lemma_merge_child_shape(on: Node, nn: Node, r: int, t: int, lo: int, hi: int)
    requires
        on.wf(t, lo, hi),
        !on.isleaf,
        0 <= r < on.items@.len(),
        on.childs@[r].items@.len() + on.childs@[r + 1].items@.len() + 1 <= 2 * t - 1,
        nn.t == on.t,
        nn.isleaf == on.isleaf,
        nn.items@ == on.items@.remove(r),
        nn.childs@ == on.childs@.remove(r + 1).update(r, nn.childs@[r]),
        ({
            let mg = nn.childs@[r];
            let lt = on.childs@[r];
            let rt = on.childs@[r + 1];
            &&& mg.t == on.t
            &&& mg.isleaf == lt.isleaf
            &&& mg.items@ == lt.items@.push(on.items@[r]) + rt.items@
            &&& mg.childs@ == lt.childs@ + rt.childs@
        }),
    ensures
        nn.wf(t, lo, hi),
        nn.entries() == on.entries(),
        nn.height() == on.height(),
        forall|k: i32|
            #[trigger] nn.childs@[r].entries().dom().contains(k) <==> (on.childs@[r].entries().dom().contains(k)
                || k == on.items@[r].key
                || on.childs@[r + 1].entries().dom().contains(k)),
        forall|k: i32|
            #[trigger] nn.childs@[r].entries().dom().contains(k) ==> nn.childs@[r].entries()[k]
                == on.entries()[k],
{
    let items = on.items@;
    let cs = on.childs@;
    let n = cs.len() as int;
    let h = (on.height() - 1) as nat;
    let sep = items[r];
    let lt = cs[r];
    let rt = cs[r + 1];
    let mg = nn.childs@[r];
    lemma_children_wf_index(cs, items, t, lo, hi, h, n, r);
    lemma_children_wf_index(cs, items, t, lo, hi, h, n, r + 1);
    let llo = child_lo(items, lo, r);
    let rhi = child_hi(items, hi, r + 1);
    lemma_join_node(lt, rt, sep, mg, t, llo, rhi);
    lemma_entries_char(on, t, lo, hi);

    assert forall|j: int|
        0 <= j < nn.childs@.len() implies (#[trigger] nn.childs@[j]).wf(
        t,
        child_lo(nn.items@, lo, j),
        child_hi(nn.items@, hi, j),
    ) && nn.childs@[j].items@.len() >= t - 1 && nn.childs@[j].height() == h by {
        if j < r {
            lemma_children_wf_index(cs, items, t, lo, hi, h, n, j);
            assert(nn.childs@[j] == cs[j]);
            assert(child_lo(nn.items@, lo, j) == child_lo(items, lo, j));
            assert(child_hi(nn.items@, hi, j) == child_hi(items, hi, j));
        } else if j == r {
            assert(child_lo(nn.items@, lo, j) == llo);
            assert(child_hi(nn.items@, hi, j) == rhi);
        } else {
            lemma_children_wf_index(cs, items, t, lo, hi, h, n, j + 1);
            assert(nn.childs@[j] == cs[j + 1]);
            assert(child_lo(nn.items@, lo, j) == child_lo(items, lo, j + 1));
            assert(child_hi(nn.items@, hi, j) == child_hi(items, hi, j + 1));
        }
    }
    lemma_children_wf_intro(nn.childs@, nn.items@, t, lo, hi, h, nn.childs@.len() as int);
    assert(nn.height() == on.height()) by {
        if r != 0 {
            assert(nn.childs@[0] == cs[0]);
            lemma_children_wf_index(cs, items, t, lo, hi, h, n, 0);
        }
    }
    assert(nn.wf(t, lo, hi));
    lemma_entries_char(nn, t, lo, hi);

    assert forall|k: i32| #[trigger] nn.entries().dom().contains(k) implies
        on.entries().dom().contains(k) && nn.entries()[k] == on.entries()[k] by {
        if has_key(nn.items@, k) {
            let i = choose|i: int| 0 <= i < nn.items@.len() && #[trigger] nn.items@[i].key == k;
            assert(nn.entries()[nn.items@[i].key] == nn.items@[i].value);
            if i < r {
                assert(nn.items@[i] == items[i]);
                assert(has_key(items, k));
                assert(on.entries()[items[i].key] == items[i].value);
            } else {
                assert(nn.items@[i] == items[i + 1]);
                assert(has_key(items, k));
                assert(on.entries()[items[i + 1].key] == items[i + 1].value);
            }
        } else {
            let j = choose|j: int|
                0 <= j < nn.childs@.len() && #[trigger] nn.childs@[j].entries().dom().contains(k);
            assert(nn.entries()[k] == nn.childs@[j].entries()[k]);
            if j < r {
                assert(nn.childs@[j] == cs[j]);
                assert(on.entries()[k] == cs[j].entries()[k]);
            } else if j == r {
                if lt.entries().dom().contains(k) {
                    assert(mg.entries()[k] == lt.entries()[k]);
                    assert(on.entries()[k] == cs[r].entries()[k]);
                } else if k == sep.key {
                    assert(mg.entries()[k] == sep.value);
                    assert(on.entries()[sep.key] == sep.value);
                } else {
                    assert(rt.entries().dom().contains(k));
                    assert(mg.entries()[k] == rt.entries()[k]);
                    assert(on.entries()[k] == cs[r + 1].entries()[k]);
                }
            } else {
                assert(nn.childs@[j] == cs[j + 1]);
                assert(on.entries()[k] == cs[j + 1].entries()[k]);
            }
        }
    }
    assert forall|k: i32| #[trigger] on.entries().dom().contains(k) implies
        nn.entries().dom().contains(k) by {
        if has_key(items, k) {
            let i = choose|i: int| 0 <= i < items.len() && #[trigger] items[i].key == k;
            if i < r {
                assert(nn.items@[i].key == k);
                assert(has_key(nn.items@, k));
            } else if i == r {
                assert(mg.entries().dom().contains(k));
                assert(nn.childs@[r].entries().dom().contains(k));
            } else {
                assert(nn.items@[i - 1].key == k);
                assert(has_key(nn.items@, k));
            }
        } else {
            let j = choose|j: int|
                0 <= j < cs.len() && #[trigger] cs[j].entries().dom().contains(k);
            if j < r {
                assert(nn.childs@[j].entries().dom().contains(k));
            } else if j == r || j == r + 1 {
                assert(mg.entries().dom().contains(k));
                assert(nn.childs@[r].entries().dom().contains(k));
            } else {
                assert(nn.childs@[j - 1] == cs[j]);
                assert(nn.childs@[j - 1].entries().dom().contains(k));
            }
        }
    }
    assert(nn.entries() =~= on.entries());
}

/// A well-formed subtree all of whose keys lie below `hi2` is well-formed
/// in the window capped at `hi2`.
proof fn lemma_wf_shrink_hi(nd: Node, t: int, lo: int, hi: int, hi2: int)
    requires
        nd.wf(t, lo, hi),
        hi2 <= hi,
        forall|k: i32| #[trigger] nd.entries().dom().contains(k) ==> k < hi2,
    ensures
        nd.wf(t, lo, hi2),
    decreases nd.height(),
{
    let items = nd.items@;
    let cs = nd.childs@;
    let n = cs.len() as int;
    let h = (nd.height() - 1) as nat;
    lemma_entries_char(nd, t, lo, hi);
    assert(keys_in_window(items, lo, hi2)) by {
        assert forall|i: int| 0 <= i < items.len() implies lo < (#[trigger] items[i]).key
            < hi2 by {
            assert(has_key(items, items[i].key));
            assert(nd.entries().dom().contains(items[i].key));
        }
    }
    if !nd.isleaf {
        assert forall|j: int|
            0 <= j < n implies (#[trigger] cs[j]).wf(
            t,
            child_lo(items, lo, j),
            child_hi(items, hi2, j),
        ) && cs[j].items@.len() >= t - 1 && cs[j].height() == h by {
            lemma_children_wf_index(cs, items, t, lo, hi, h, n, j);
            if j == n - 1 {
                lemma_entries_window(cs[j], t, child_lo(items, lo, j), child_hi(items, hi, j));
                assert forall|k: i32| #[trigger] cs[j].entries().dom().contains(k) implies k
                    < hi2 by {
                    assert(nd.entries().dom().contains(k));
                }
                lemma_wf_shrink_hi(cs[j], t, child_lo(items, lo, j), hi, hi2);
            } else {
                assert(child_hi(items, hi2, j) == child_hi(items, hi, j));
            }
        }
        lemma_children_wf_intro(cs, items, t, lo, hi2, h, n);
    }
    assert(nd.wf(t, lo, hi2));
}

/// A well-formed subtree all of whose keys lie above `lo2` is well-formed
/// in the window floored at `lo2`.
proof fn lemma_wf_shrink_lo(nd: Node, t: int, lo: int, hi: int, lo2: int)
    requires
        nd.wf(t, lo, hi),
        lo <= lo2,
        forall|k: i32| #[trigger] nd.entries().dom().contains(k) ==> k > lo2,
    ensures
        nd.wf(t, lo2, hi),
    decreases nd.height(),
{
    let items = nd.items@;
    let cs = nd.childs@;
    let n = cs.len() as int;
    let h = (nd.height() - 1) as nat;
    lemma_entries_char(nd, t, lo, hi);
    assert(keys_in_window(items, lo2, hi)) by {
        assert forall|i: int| 0 <= i < items.len() implies lo2 < (#[trigger] items[i]).key
            < hi by {
            assert(has_key(items, items[i].key));
            assert(nd.entries().dom().contains(items[i].key));
        }
    }
    if !nd.isleaf {
        assert forall|j: int|
            0 <= j < n implies (#[trigger] cs[j]).wf(
            t,
            child_lo(items, lo2, j),
            child_hi(items, hi, j),
        ) && cs[j].items@.len() >= t - 1 && cs[j].height() == h by {
            lemma_children_wf_index(cs, items, t, lo, hi, h, n, j);
            if j == 0 {
                lemma_entries_window(cs[j], t, child_lo(items, lo, j), child_hi(items, hi, j));
                assert forall|k: i32| #[trigger] cs[j].entries().dom().contains(k) implies k
                    > lo2 by {
                    assert(nd.entries().dom().contains(k));
                }
                lemma_wf_shrink_lo(cs[j], t, lo, child_hi(items, hi, j), lo2);
            } else {
                assert(child_lo(items, lo2, j) == child_lo(items, lo, j));
            }
        }
        lemma_children_wf_intro(cs, items, t, lo2, hi, h, n);
    }
    assert(nd.wf(t, lo2, hi));
}

/// A key lying strictly inside the window of child `j` occurs in the node's
/// contents exactly when it occurs in that child, with the same value.
proof fn lemma_key_in_child(nd: Node, t: int, lo: int, hi: int, j: int, key: i32)
    requires
        nd.wf(t, lo, hi),
        !nd.isleaf,
        0 <= j < nd.childs@.len(),
        child_lo(nd.items@, lo, j) < key < child_hi(nd.items@, hi, j),
    ensures
        !has_key(nd.items@, key),
        nd.entries().dom().contains(key) <==> nd.childs@[j].entries().dom().contains(key),
        nd.entries().dom().contains(key) ==> nd.entries()[key] == nd.childs@[j].entries()[key],
{
    let items = nd.items@;
    let cs = nd.childs@;
    let n = cs.len() as int;
    let h = (nd.height() - 1) as nat;
    lemma_entries_char(nd, t, lo, hi);
    assert(!has_key(items, key)) by {
        if has_key(items, key) {
            let i = choose|i: int| 0 <= i < items.len() && #[trigger] items[i].key == key;
            if i < j {
                assert(items[i].key <= items[j - 1].key);
            } else {
                assert(items[j].key <= items[i].key);
            }
        }
    }
    assert forall|j2: int|
        0 <= j2 < n && #[trigger] cs[j2].entries().dom().contains(key) implies j2 == j by {
        lemma_children_wf_index(cs, items, t, lo, hi, h, n, j2);
        lemma_entries_window(cs[j2], t, child_lo(items, lo, j2), child_hi(items, hi, j2));
        if j2 < j {
            assert(items[j2].key <= items[j - 1].key);
        } else if j2 > j {
            assert(items[j].key <= items[j2 - 1].key);
        }
    }
    if nd.entries().dom().contains(key) {
        let j2 = choose|j2: int| 0 <= j2 < n && #[trigger] cs[j2].entries().dom().contains(key);
    }
}

/// Removing the item at `pos` from a leaf keeps it well-formed and removes
/// exactly that item's pair from its contents.
proof fn lemma_leaf_remove(on: Node, nn: Node, pos: int, t: int, lo: int, hi: int)
    requires
        on.wf(t, lo, hi),
        on.isleaf,
        0 <= pos < on.items@.len(),
        nn.t == on.t,
        nn.isleaf == on.isleaf,
        nn.childs@ == on.childs@,
        nn.items@ == on.items@.remove(pos),
    ensures
        nn.wf(t, lo, hi),
        nn.height() == on.height(),
        nn.entries() == on.entries().remove(on.items@[pos].key),
{
    let items = on.items@;
    let nits = nn.items@;
    let key = items[pos].key;
    assert(keys_strictly_sorted(nits) && keys_in_window(nits, lo, hi)) by {
        assert forall|i: int| 0 <= i < nits.len() implies lo < (#[trigger] nits[i]).key < hi by {
            if i < pos {
                assert(nits[i] == items[i]);
            } else {
                assert(nits[i] == items[i + 1]);
            }
        }
    }
    assert(nn.wf(t, lo, hi));
    lemma_items_map_char(items);
    lemma_items_map_char(nits);
    assert forall|k: i32| #[trigger] has_key(nits, k) implies has_key(items, k) && k != key by {
        let i = choose|i: int| 0 <= i < nits.len() && #[trigger] nits[i].key == k;
        if i < pos {
            assert(items[i].key == k);
            assert(items[i].key < items[pos].key);
        } else {
            assert(items[i + 1].key == k);
            assert(items[pos].key < items[i + 1].key);
        }
    }
    assert forall|k: i32| has_key(items, k) && k != key implies #[trigger] has_key(nits, k) by {
        let i = choose|i: int| 0 <= i < items.len() && #[trigger] items[i].key == k;
        if i < pos {
            assert(nits[i].key == k);
        } else {
            assert(nits[i - 1].key == k);
        }
    }
    assert forall|k: i32| #[trigger] has_key(nits, k) implies Node::items_map(nits)[k]
        == on.entries().remove(key)[k] by {
        let i = choose|i: int| 0 <= i < nits.len() && #[trigger] nits[i].key == k;
        assert(Node::items_map(nits)[nits[i].key] == nits[i].value);
        if i < pos {
            assert(items[i] == nits[i]);
            assert(Node::items_map(items)[items[i].key] == items[i].value);
        } else {
            assert(items[i + 1] == nits[i]);
            assert(Node::items_map(items)[items[i + 1].key] == items[i + 1].value);
        }
    }
    assert(nn.entries() =~= on.entries().remove(key));
}

/// Replacing the separator at `pos` by its in-order predecessor — the
/// greatest item of the left child, already deleted from that child —
/// removes exactly the old separator's pair from the node's contents.
#[verifier::rlimit(100)]
#[verifier::spinoff_prover]
proof fn lemma_replace_sep_left(on: Node, nn: Node, pos: int, rep: Item, t: int, lo: int, hi: int)
    requires
        on.wf(t, lo, hi),
        !on.isleaf,
        0 <= pos < on.items@.len(),
        nn.t == on.t,
        nn.isleaf == on.isleaf,
        nn.items@ == on.items@.update(pos, rep),
        nn.childs@ == on.childs@.update(pos, nn.childs@[pos]),
        nn.childs@[pos].wf(t, child_lo(on.items@, lo, pos), on.items@[pos].key as int),
        nn.childs@[pos].items@.len() >= t - 1,
        nn.childs@[pos].height() == on.childs@[pos].height(),
        nn.childs@[pos].entries() == on.childs@[pos].entries().remove(rep.key),
        on.childs@[pos].entries().dom().contains(rep.key),
        on.childs@[pos].entries()[rep.key] == rep.value,
        forall|k: i32| #[trigger] on.childs@[pos].entries().dom().contains(k) ==> k <= rep.key,
    ensures
        nn.wf(t, lo, hi),
        nn.height() == on.height(),
        nn.entries() == on.entries().remove(on.items@[pos].key),
    decreases 0int,
{
    let items = on.items@;
    let cs = on.childs@;
    let n = cs.len() as int;
    let h = (on.height() - 1) as nat;
    let sep = items[pos];
    let ct = cs[pos];
    let cp = nn.childs@[pos];
    let clo = child_lo(items, lo, pos);
    lemma_children_wf_index(cs, items, t, lo, hi, h, n, pos);
    lemma_children_wf_index(cs, items, t, lo, hi, h, n, pos + 1);
    lemma_entries_window(ct, t, clo, sep.key as int);
    assert(clo < rep.key < sep.key);
    lemma_entries_window(cp, t, clo, sep.key as int);
    assert forall|k: i32| #[trigger] cp.entries().dom().contains(k) implies k < rep.key by {
        assert(ct.entries().dom().contains(k));
    }
    lemma_wf_shrink_hi(cp, t, clo, sep.key as int, rep.key as int);
    lemma_wf_widen(
        cs[pos + 1],
        t,
        sep.key as int,
        child_hi(items, hi, pos + 1),
        rep.key as int,
        child_hi(items, hi, pos + 1),
    );
    assert(keys_strictly_sorted(nn.items@) && keys_in_window(nn.items@, lo, hi)) by {
        assert forall|i: int, j: int|
            0 <= i < j < nn.items@.len() implies #[trigger] nn.items@[i].key
            < #[trigger] nn.items@[j].key by {}
    }
    assert forall|j: int|
        0 <= j < nn.childs@.len() implies (#[trigger] nn.childs@[j]).wf(
        t,
        child_lo(nn.items@, lo, j),
        child_hi(nn.items@, hi, j),
    ) && nn.childs@[j].items@.len() >= t - 1 && nn.childs@[j].height() == h by {
        if j == pos {
            assert(child_lo(nn.items@, lo, j) == clo);
            assert(child_hi(nn.items@, hi, j) == rep.key as int);
        } else if j == pos + 1 {
            assert(nn.childs@[j] == cs[j]);
            assert(child_lo(nn.items@, lo, j) == rep.key as int);
            assert(child_hi(nn.items@, hi, j) == child_hi(items, hi, j));
        } else {
            lemma_children_wf_index(cs, items, t, lo, hi, h, n, j);
            assert(nn.childs@[j] == cs[j]);
            assert(child_lo(nn.items@, lo, j) == child_lo(items, lo, j));
            assert(child_hi(nn.items@, hi, j) == child_hi(items, hi, j));
        }
    }
    lemma_children_wf_intro(nn.childs@, nn.items@, t, lo, hi, h, nn.childs@.len() as int);
    assert(nn.height() == on.height()) by {
        if pos != 0 {
            assert(nn.childs@[0] == cs[0]);
            lemma_children_wf_index(cs, items, t, lo, hi, h, n, 0);
        }
    }
    assert(nn.wf(t, lo, hi));
    lemma_entries_char(on, t, lo, hi);
    lemma_entries_char(nn, t, lo, hi);
    assert forall|k: i32| #[trigger] nn.entries().dom().contains(k) implies
        on.entries().dom().contains(k) && k != sep.key && nn.entries()[k] == on.entries()[k] by {
        if has_key(nn.items@, k) {
            let i = choose|i: int| 0 <= i < nn.items@.len() && #[trigger] nn.items@[i].key == k;
            assert(nn.entries()[nn.items@[i].key] == nn.items@[i].value);
            if i == pos {
                assert(ct.entries().dom().contains(k));
                assert(on.entries()[k] == ct.entries()[k]);
            } else {
                assert(nn.items@[i] == items[i]);
                assert(has_key(items, k));
                assert(on.entries()[items[i].key] == items[i].value);
                if i < pos {
                    assert(items[i].key < items[pos].key);
                } else {
                    assert(items[pos].key < items[i].key);
                }
            }
        } else {
            let j = choose|j: int|
                0 <= j < nn.childs@.len() && #[trigger] nn.childs@[j].entries().dom().contains(k);
            assert(nn.entries()[k] == nn.childs@[j].entries()[k]);
            if j == pos {
                assert(ct.entries().dom().contains(k));
                assert(on.entries()[k] == ct.entries()[k]);
                assert(k < rep.key);
            } else {
                assert(nn.childs@[j] == cs[j]);
                assert(on.entries()[k] == cs[j].entries()[k]);
            }
        }
    }
    assert forall|k: i32| #[trigger] on.entries().dom().contains(k) && k != sep.key implies
        nn.entries().dom().contains(k) by {
        if has_key(items, k) {
            let i = choose|i: int| 0 <= i < items.len() && #[trigger] items[i].key == k;
            assert(i != pos);
            assert(nn.items@[i].key == k);
            assert(has_key(nn.items@, k));
        } else {
            let j = choose|j: int|
                0 <= j < cs.len() && #[trigger] cs[j].entries().dom().contains(k);
            if j == pos {
                if k == rep.key {
                    assert(nn.items@[pos].key == k);
                    assert(has_key(nn.items@, k));
                } else {
                    assert(cp.entries().dom().contains(k));
                    assert(nn.childs@[pos].entries().dom().contains(k));
                }
            } else {
                assert(nn.childs@[j].entries().dom().contains(k));
            }
        }
    }
    assert(!nn.entries().dom().contains(sep.key));
    assert(nn.entries() =~= on.entries().remove(sep.key));
}

/// Replacing the separator at `pos` by its in-order successor — the least
/// item of the right child, already deleted from that child — removes
/// exactly the old separator's pair from the node's contents.
#[verifier::rlimit(100)]
#[verifier::spinoff_prover]
proof fn lemma_replace_sep_right(on: Node, nn: Node, pos: int, rep: Item, t: int, lo: int, hi: int)
    requires
        on.wf(t, lo, hi),
        !on.isleaf,
        0 <= pos < on.items@.len(),
        nn.t == on.t,
        nn.isleaf == on.isleaf,
        nn.items@ == on.items@.update(pos, rep),
        nn.childs@ == on.childs@.update(pos + 1, nn.childs@[pos + 1]),
        nn.childs@[pos + 1].wf(
            t,
            on.items@[pos].key as int,
            child_hi(on.items@, hi, pos + 1),
        ),
        nn.childs@[pos + 1].items@.len() >= t - 1,
        nn.childs@[pos + 1].height() == on.childs@[pos + 1].height(),
        nn.childs@[pos + 1].entries() == on.childs@[pos + 1].entries().remove(rep.key),
        on.childs@[pos + 1].entries().dom().contains(rep.key),
        on.childs@[pos + 1].entries()[rep.key] == rep.value,
        forall|k: i32| #[trigger] on.childs@[pos + 1].entries().dom().contains(k) ==> k >= rep.key,
    ensures
        nn.wf(t, lo, hi),
        nn.height() == on.height(),
        nn.entries() == on.entries().remove(on.items@[pos].key),
    decreases 0int,
{
    let items = on.items@;
    let cs = on.childs@;
    let n = cs.len() as int;
    let h = (on.height() - 1) as nat;
    let sep = items[pos];
    let ct = cs[pos + 1];
    let cp = nn.childs@[pos + 1];
    let chi = child_hi(items, hi, pos + 1);
    lemma_children_wf_index(cs, items, t, lo, hi, h, n, pos);
    lemma_children_wf_index(cs, items, t, lo, hi, h, n, pos + 1);
    lemma_entries_window(ct, t, sep.key as int, chi);
    assert(sep.key < rep.key < chi);
    lemma_entries_window(cp, t, sep.key as int, chi);
    assert forall|k: i32| #[trigger] cp.entries().dom().contains(k) implies k > rep.key by {
        assert(ct.entries().dom().contains(k));
    }
    lemma_wf_shrink_lo(cp, t, sep.key as int, chi, rep.key as int);
    lemma_wf_widen(
        cs[pos],
        t,
        child_lo(items, lo, pos),
        sep.key as int,
        child_lo(items, lo, pos),
        rep.key as int,
    );
    assert(keys_strictly_sorted(nn.items@) && keys_in_window(nn.items@, lo, hi)) by {
        assert forall|i: int, j: int|
            0 <= i < j < nn.items@.len() implies #[trigger] nn.items@[i].key
            < #[trigger] nn.items@[j].key by {}
    }
    assert forall|j: int|
        0 <= j < nn.childs@.len() implies (#[trigger] nn.childs@[j]).wf(
        t,
        child_lo(nn.items@, lo, j),
        child_hi(nn.items@, hi, j),
    ) && nn.childs@[j].items@.len() >= t - 1 && nn.childs@[j].height() == h by {
        if j == pos {
            assert(nn.childs@[j] == cs[j]);
            assert(child_lo(nn.items@, lo, j) == child_lo(items, lo, j));
            assert(child_hi(nn.items@, hi, j) == rep.key as int);
        } else if j == pos + 1 {
            assert(child_lo(nn.items@, lo, j) == rep.key as int);
            assert(child_hi(nn.items@, hi, j) == chi);
        } else {
            lemma_children_wf_index(cs, items, t, lo, hi, h, n, j);
            assert(nn.childs@[j] == cs[j]);
            assert(child_lo(nn.items@, lo, j) == child_lo(items, lo, j));
            assert(child_hi(nn.items@, hi, j) == child_hi(items, hi, j));
        }
    }
    lemma_children_wf_intro(nn.childs@, nn.items@, t, lo, hi, h, nn.childs@.len() as int);
    assert(nn.height() == on.height()) by {
        if pos + 1 != 0 {
            assert(nn.childs@[0] == cs[0]);
            lemma_children_wf_index(cs, items, t, lo, hi, h, n, 0);
        }
    }
    assert(nn.wf(t, lo, hi));
    lemma_entries_char(on, t, lo, hi);
    lemma_entries_char(nn, t, lo, hi);
    assert forall|k: i32| #[trigger] nn.entries().dom().contains(k) implies
        on.entries().dom().contains(k) && k != sep.key && nn.entries()[k] == on.entries()[k] by {
        if has_key(nn.items@, k) {
            let i = choose|i: int| 0 <= i < nn.items@.len() && #[trigger] nn.items@[i].key == k;
            assert(nn.entries()[nn.items@[i].key] == nn.items@[i].value);
            if i == pos {
                assert(ct.entries().dom().contains(k));
                assert(on.entries()[k] == ct.entries()[k]);
            } else {
                assert(nn.items@[i] == items[i]);
                assert(has_key(items, k));
                assert(on.entries()[items[i].key] == items[i].value);
                if i < pos {
                    assert(items[i].key < items[pos].key);
                } else {
                    assert(items[pos].key < items[i].key);
                }
            }
        } else {
            let j = choose|j: int|
                0 <= j < nn.childs@.len() && #[trigger] nn.childs@[j].entries().dom().contains(k);
            assert(nn.entries()[k] == nn.childs@[j].entries()[k]);
            if j == pos + 1 {
                assert(ct.entries().dom().contains(k));
                assert(on.entries()[k] == ct.entries()[k]);
                assert(k > rep.key);
            } else {
                assert(nn.childs@[j] == cs[j]);
                assert(on.entries()[k] == cs[j].entries()[k]);
            }
        }
    }
    assert forall|k: i32| #[trigger] on.entries().dom().contains(k) && k != sep.key implies
        nn.entries().dom().contains(k) by {
        if has_key(items, k) {
            let i = choose|i: int| 0 <= i < items.len() && #[trigger] items[i].key == k;
            assert(i != pos);
            assert(nn.items@[i].key == k);
            assert(has_key(nn.items@, k));
        } else {
            let j = choose|j: int|
                0 <= j < cs.len() && #[trigger] cs[j].entries().dom().contains(k);
            if j == pos + 1 {
                if k == rep.key {
                    assert(nn.items@[pos].key == k);
                    assert(has_key(nn.items@, k));
                } else {
                    assert(cp.entries().dom().contains(k));
                    assert(nn.childs@[pos + 1].entries().dom().contains(k));
                }
            } else {
                assert(nn.childs@[j].entries().dom().contains(k));
            }
        }
    }
    assert(!nn.entries().dom().contains(sep.key));
    assert(nn.entries() =~= on.entries().remove(sep.key));
}

/// Rotating one item out of the right sibling through the parent into the
/// child at `idx` (the separator moves down, the sibling's first item moves
/// up, and the sibling's first subtree changes sides) leaves the parent
/// well-formed with the same contents.
#[verifier::rlimit(100)]
#[verifier::spinoff_prover]
proof fn lemma_borrow_right_shape(on: Node, nn: Node, idx: int, t: int, lo: int, hi: int)
    requires
        on.wf(t, lo, hi),
        !on.isleaf,
        0 <= idx < on.items@.len(),
        on.childs@[idx].items@.len() + 1 <= 2 * t - 1,
        on.childs@[idx + 1].items@.len() >= t,
        nn.t == on.t,
        nn.isleaf == on.isleaf,
        nn.items@ == on.items@.update(idx, on.childs@[idx + 1].items@[0]),
        nn.childs@ == on.childs@.update(idx, nn.childs@[idx]).update(idx + 1, nn.childs@[idx + 1]),
        ({
            let lt = on.childs@[idx];
            let rt = on.childs@[idx + 1];
            let lp = nn.childs@[idx];
            let rp = nn.childs@[idx + 1];
            &&& lp.t == on.t
            &&& rp.t == on.t
            &&& lp.isleaf == lt.isleaf
            &&& rp.isleaf == rt.isleaf
            &&& lp.items@ == lt.items@.push(on.items@[idx])
            &&& rp.items@ == rt.items@.subrange(1, rt.items@.len() as int)
            &&& (lt.isleaf ==> lp.childs@ == lt.childs@)
            &&& (!lt.isleaf ==> lp.childs@ == lt.childs@.push(rt.childs@[0]))
            &&& (rt.isleaf ==> rp.childs@ == rt.childs@)
            &&& (!rt.isleaf ==> rp.childs@ == rt.childs@.subrange(1, rt.childs@.len() as int))
        }),
    ensures
        nn.wf(t, lo, hi),
        nn.entries() == on.entries(),
        nn.height() == on.height(),
        child_lo(nn.items@, lo, idx) == child_lo(on.items@, lo, idx),
        child_hi(nn.items@, hi, idx) > child_hi(on.items@, hi, idx),
{
    let items = on.items@;
    let cs = on.childs@;
    let n = cs.len() as int;
    let h = (on.height() - 1) as nat;
    let sep = items[idx];
    let lt = cs[idx];
    let rt = cs[idx + 1];
    let lp = nn.childs@[idx];
    let rp = nn.childs@[idx + 1];
    let rfirst = rt.items@[0];
    let llo = child_lo(items, lo, idx);
    let rhi = child_hi(items, hi, idx + 1);
    let ln = lt.items@.len() as int;
    let rn = rt.items@.len() as int;
    lemma_children_wf_index(cs, items, t, lo, hi, h, n, idx);
    lemma_children_wf_index(cs, items, t, lo, hi, h, n, idx + 1);
    lemma_entries_char(lt, t, llo, sep.key as int);
    lemma_entries_char(rt, t, sep.key as int, rhi);
    let hc = (lt.height() - 1) as nat;

    // the reshaped left child
    assert(keys_strictly_sorted(lp.items@)) by {
        assert forall|i: int, j: int|
            0 <= i < j < lp.items@.len() implies #[trigger] lp.items@[i].key
            < #[trigger] lp.items@[j].key by {
            if j < ln {
                assert(lp.items@[i] == lt.items@[i] && lp.items@[j] == lt.items@[j]);
            } else {
                if i < ln {
                    assert(lp.items@[i] == lt.items@[i]);
                }
            }
        }
    }
    assert(keys_in_window(lp.items@, llo, rfirst.key as int)) by {
        assert forall|i: int| 0 <= i < lp.items@.len() implies llo < (
        #[trigger] lp.items@[i]).key < rfirst.key by {
            if i < ln {
                assert(lp.items@[i] == lt.items@[i]);
            }
        }
    }
    if !lt.isleaf {
        assert forall|j: int|
            0 <= j < lp.childs@.len() implies (#[trigger] lp.childs@[j]).wf(
            t,
            child_lo(lp.items@, llo, j),
            child_hi(lp.items@, rfirst.key as int, j),
        ) && lp.childs@[j].items@.len() >= t - 1 && lp.childs@[j].height() == hc by {
            if j <= ln {
                lemma_children_wf_index(
                    lt.childs@,
                    lt.items@,
                    t,
                    llo,
                    sep.key as int,
                    hc,
                    ln + 1,
                    j,
                );
                assert(lp.childs@[j] == lt.childs@[j]);
                assert(child_lo(lp.items@, llo, j) == child_lo(lt.items@, llo, j));
                assert(child_hi(lp.items@, rfirst.key as int, j) == child_hi(
                    lt.items@,
                    sep.key as int,
                    j,
                ));
            } else {
                lemma_children_wf_index(
                    rt.childs@,
                    rt.items@,
                    t,
                    sep.key as int,
                    rhi,
                    hc,
                    rn + 1,
                    0,
                );
                assert(lp.childs@[j] == rt.childs@[0]);
                assert(child_lo(lp.items@, llo, j) == sep.key as int);
                assert(child_hi(lp.items@, rfirst.key as int, j) == rfirst.key as int);
            }
        }
        lemma_children_wf_intro(
            lp.childs@,
            lp.items@,
            t,
            llo,
            rfirst.key as int,
            hc,
            lp.childs@.len() as int,
        );
        assert(lp.childs@[0] == lt.childs@[0]);
    }
    assert(lp.wf(t, llo, rfirst.key as int));
    assert(lp.height() == lt.height());

    // the reshaped right sibling
    assert(keys_strictly_sorted(rp.items@) && keys_in_window(
        rp.items@,
        rfirst.key as int,
        rhi,
    )) by {
        assert forall|i: int| 0 <= i < rp.items@.len() implies rfirst.key < (
        #[trigger] rp.items@[i]).key < rhi by {
            assert(rp.items@[i] == rt.items@[i + 1]);
        }
    }
    if !rt.isleaf {
        assert forall|j: int|
            0 <= j < rp.childs@.len() implies (#[trigger] rp.childs@[j]).wf(
            t,
            child_lo(rp.items@, rfirst.key as int, j),
            child_hi(rp.items@, rhi, j),
        ) && rp.childs@[j].items@.len() >= t - 1 && rp.childs@[j].height() == hc by {
            lemma_children_wf_index(
                rt.childs@,
                rt.items@,
                t,
                sep.key as int,
                rhi,
                hc,
                rn + 1,
                j + 1,
            );
            assert(rp.childs@[j] == rt.childs@[j + 1]);
            assert(child_lo(rp.items@, rfirst.key as int, j) == child_lo(
                rt.items@,
                sep.key as int,
                j + 1,
            ));
            assert(child_hi(rp.items@, rhi, j) == child_hi(rt.items@, rhi, j + 1));
        }
        lemma_children_wf_intro(
            rp.childs@,
            rp.items@,
            t,
            rfirst.key as int,
            rhi,
            hc,
            rp.childs@.len() as int,
        );
        assert(rp.childs@[0] == rt.childs@[1]);
        lemma_children_wf_index(rt.childs@, rt.items@, t, sep.key as int, rhi, hc, rn + 1, 0);
        lemma_children_wf_index(rt.childs@, rt.items@, t, sep.key as int, rhi, hc, rn + 1, 1);
    }
    assert(rp.wf(t, rfirst.key as int, rhi));
    assert(rp.height() == rt.height());

    // the parent around them
    assert(keys_strictly_sorted(nn.items@) && keys_in_window(nn.items@, lo, hi)) by {
        assert(llo < rfirst.key < rhi);
        assert forall|i: int, j: int|
            0 <= i < j < nn.items@.len() implies #[trigger] nn.items@[i].key
            < #[trigger] nn.items@[j].key by {}
    }
    assert forall|j: int|
        0 <= j < nn.childs@.len() implies (#[trigger] nn.childs@[j]).wf(
        t,
        child_lo(nn.items@, lo, j),
        child_hi(nn.items@, hi, j),
    ) && nn.childs@[j].items@.len() >= t - 1 && nn.childs@[j].height() == h by {
        if j == idx {
            assert(child_lo(nn.items@, lo, j) == llo);
            assert(child_hi(nn.items@, hi, j) == rfirst.key as int);
        } else if j == idx + 1 {
            assert(child_lo(nn.items@, lo, j) == rfirst.key as int);
            assert(child_hi(nn.items@, hi, j) == rhi);
        } else {
            lemma_children_wf_index(cs, items, t, lo, hi, h, n, j);
            assert(nn.childs@[j] == cs[j]);
            assert(child_lo(nn.items@, lo, j) == child_lo(items, lo, j));
            assert(child_hi(nn.items@, hi, j) == child_hi(items, hi, j));
        }
    }
    lemma_children_wf_intro(nn.childs@, nn.items@, t, lo, hi, h, nn.childs@.len() as int);
    assert(nn.height() == on.height()) by {
        if idx != 0 {
            assert(nn.childs@[0] == cs[0]);
            lemma_children_wf_index(cs, items, t, lo, hi, h, n, 0);
        }
    }
    assert(nn.wf(t, lo, hi));

    // contents unchanged, key by key
    lemma_entries_char(on, t, lo, hi);
    lemma_entries_char(nn, t, lo, hi);
    lemma_entries_char(lp, t, llo, rfirst.key as int);
    lemma_entries_char(rp, t, rfirst.key as int, rhi);
    assert forall|k: i32| #[trigger] nn.entries().dom().contains(k) implies
        on.entries().dom().contains(k) && nn.entries()[k] == on.entries()[k] by {
        if has_key(nn.items@, k) {
            let i = choose|i: int| 0 <= i < nn.items@.len() && #[trigger] nn.items@[i].key == k;
            assert(nn.entries()[nn.items@[i].key] == nn.items@[i].value);
            if i == idx {
                assert(rt.items@[0].key == k);
                assert(has_key(rt.items@, k));
                assert(rt.entries().dom().contains(k));
                assert(rt.entries()[rt.items@[0].key] == rt.items@[0].value);
                assert(on.entries()[k] == rt.entries()[k]);
            } else {
                assert(nn.items@[i] == items[i]);
                assert(has_key(items, k));
                assert(on.entries()[items[i].key] == items[i].value);
            }
        } else {
            let j = choose|j: int|
                0 <= j < nn.childs@.len() && #[trigger] nn.childs@[j].entries().dom().contains(k);
            assert(nn.entries()[k] == nn.childs@[j].entries()[k]);
            if j == idx {
                if has_key(lp.items@, k) {
                    let i = choose|i: int|
                        0 <= i < lp.items@.len() && #[trigger] lp.items@[i].key == k;
                    assert(lp.entries()[lp.items@[i].key] == lp.items@[i].value);
                    if i < ln {
                        assert(lt.items@[i] == lp.items@[i]);
                        assert(has_key(lt.items@, k));
                        assert(lt.entries().dom().contains(k));
                        assert(lt.entries()[lt.items@[i].key] == lt.items@[i].value);
                        assert(on.entries()[k] == lt.entries()[k]);
                    } else {
                        assert(k == sep.key);
                        assert(has_key(items, k));
                        assert(on.entries()[items[idx].key] == items[idx].value);
                    }
                } else {
                    let jc = choose|jc: int|
                        0 <= jc < lp.childs@.len()
                            && #[trigger] lp.childs@[jc].entries().dom().contains(k);
                    assert(lp.entries()[k] == lp.childs@[jc].entries()[k]);
                    if jc <= ln {
                        assert(lp.childs@[jc] == lt.childs@[jc]);
                        assert(lt.entries().dom().contains(k));
                        assert(lt.entries()[k] == lt.childs@[jc].entries()[k]);
                        assert(on.entries()[k] == lt.entries()[k]);
                    } else {
                        assert(lp.childs@[jc] == rt.childs@[0]);
                        assert(rt.entries().dom().contains(k));
                        assert(rt.entries()[k] == rt.childs@[0].entries()[k]);
                        assert(on.entries()[k] == rt.entries()[k]);
                    }
                }
            } else if j == idx + 1 {
                if has_key(rp.items@, k) {
                    let i = choose|i: int|
                        0 <= i < rp.items@.len() && #[trigger] rp.items@[i].key == k;
                    assert(rp.entries()[rp.items@[i].key] == rp.items@[i].value);
                    assert(rt.items@[i + 1] == rp.items@[i]);
                    assert(has_key(rt.items@, k));
                    assert(rt.entries().dom().contains(k));
                    assert(rt.entries()[rt.items@[i + 1].key] == rt.items@[i + 1].value);
                    assert(on.entries()[k] == rt.entries()[k]);
                } else {
                    let jc = choose|jc: int|
                        0 <= jc < rp.childs@.len()
                            && #[trigger] rp.childs@[jc].entries().dom().contains(k);
                    assert(rp.entries()[k] == rp.childs@[jc].entries()[k]);
                    assert(rp.childs@[jc] == rt.childs@[jc + 1]);
                    assert(rt.entries().dom().contains(k));
                    assert(rt.entries()[k] == rt.childs@[jc + 1].entries()[k]);
                    assert(on.entries()[k] == rt.entries()[k]);
                }
            } else {
                assert(nn.childs@[j] == cs[j]);
                assert(on.entries()[k] == cs[j].entries()[k]);
            }
        }
    }
    assert forall|k: i32| #[trigger] on.entries().dom().contains(k) implies
        nn.entries().dom().contains(k) by {
        if has_key(items, k) {
            let i = choose|i: int| 0 <= i < items.len() && #[trigger] items[i].key == k;
            if i == idx {
                assert(lp.items@[ln].key == k);
                assert(has_key(lp.items@, k));
                assert(lp.entries().dom().contains(k));
                assert(nn.childs@[idx].entries().dom().contains(k));
            } else {
                assert(nn.items@[i].key == k);
                assert(has_key(nn.items@, k));
            }
        } else {
            let j = choose|j: int|
                0 <= j < cs.len() && #[trigger] cs[j].entries().dom().contains(k);
            if j == idx {
                if has_key(lt.items@, k) {
                    let i = choose|i: int|
                        0 <= i < lt.items@.len() && #[trigger] lt.items@[i].key == k;
                    assert(lp.items@[i].key == k);
                    assert(has_key(lp.items@, k));
                    assert(lp.entries().dom().contains(k));
                } else {
                    let jc = choose|jc: int|
                        0 <= jc < lt.childs@.len()
                            && #[trigger] lt.childs@[jc].entries().dom().contains(k);
                    assert(lp.childs@[jc].entries().dom().contains(k));
                    assert(lp.entries().dom().contains(k));
                }
                assert(nn.childs@[idx].entries().dom().contains(k));
            } else if j == idx + 1 {
                if has_key(rt.items@, k) {
                    let i = choose|i: int|
                        0 <= i < rt.items@.len() && #[trigger] rt.items@[i].key == k;
                    if i == 0 {
                        assert(nn.items@[idx].key == k);
                        assert(has_key(nn.items@, k));
                    } else {
                        assert(rp.items@[i - 1].key == k);
                        assert(has_key(rp.items@, k));
                        assert(rp.entries().dom().contains(k));
                        assert(nn.childs@[idx + 1].entries().dom().contains(k));
                    }
                } else {
                    let jc = choose|jc: int|
                        0 <= jc < rt.childs@.len()
                            && #[trigger] rt.childs@[jc].entries().dom().contains(k);
                    if jc == 0 {
                        assert(lp.childs@[ln + 1].entries().dom().contains(k));
                        assert(lp.entries().dom().contains(k));
                        assert(nn.childs@[idx].entries().dom().contains(k));
                    } else {
                        assert(rp.childs@[jc - 1].entries().dom().contains(k));
                        assert(rp.entries().dom().contains(k));
                        assert(nn.childs@[idx + 1].entries().dom().contains(k));
                    }
                }
            } else {
                assert(nn.childs@[j].entries().dom().contains(k));
            }
        }
    }
    assert(nn.entries() =~= on.entries());
}

/// Rotating one item out of the left sibling through the parent into the
/// child at `idx` (the separator moves down to the front of the child, the
/// sibling's last item moves up, and the sibling's last subtree changes
/// sides) leaves the parent well-formed with the same contents.
#[verifier::rlimit(100)]
#[verifier::spinoff_prover]
proof fn lemma_borrow_left_shape(on: Node, nn: Node, idx: int, t: int, lo: int, hi: int)
    requires
        on.wf(t, lo, hi),
        !on.isleaf,
        1 <= idx <= on.items@.len(),
        on.childs@[idx].items@.len() + 1 <= 2 * t - 1,
        on.childs@[idx - 1].items@.len() >= t,
        nn.t == on.t,
        nn.isleaf == on.isleaf,
        nn.items@ == on.items@.update(
            idx - 1,
            on.childs@[idx - 1].items@[on.childs@[idx - 1].items@.len() - 1],
        ),
        nn.childs@ == on.childs@.update(idx - 1, nn.childs@[idx - 1]).update(
            idx,
            nn.childs@[idx],
        ),
        ({
            let lt = on.childs@[idx - 1];
            let ct = on.childs@[idx];
            let lp = nn.childs@[idx - 1];
            let cp = nn.childs@[idx];
            let ln = lt.items@.len() as int;
            &&& lp.t == on.t
            &&& cp.t == on.t
            &&& lp.isleaf == lt.isleaf
            &&& cp.isleaf == ct.isleaf
            &&& lp.items@ == lt.items@.subrange(0, ln - 1)
            &&& cp.items@ == ct.items@.insert(0, on.items@[idx - 1])
            &&& (lt.isleaf ==> lp.childs@ == lt.childs@)
            &&& (!lt.isleaf ==> lp.childs@ == lt.childs@.subrange(0, ln))
            &&& (ct.isleaf ==> cp.childs@ == ct.childs@)
            &&& (!ct.isleaf ==> cp.childs@ == ct.childs@.insert(0, lt.childs@[ln]))
        }),
    ensures
        nn.wf(t, lo, hi),
        nn.entries() == on.entries(),
        nn.height() == on.height(),
        child_lo(nn.items@, lo, idx) < child_lo(on.items@, lo, idx),
        child_hi(nn.items@, hi, idx) == child_hi(on.items@, hi, idx),
{
    let items = on.items@;
    let cs = on.childs@;
    let n = cs.len() as int;
    let h = (on.height() - 1) as nat;
    let sep = items[idx - 1];
    let lt = cs[idx - 1];
    let ct = cs[idx];
    let lp = nn.childs@[idx - 1];
    let cp = nn.childs@[idx];
    let ln = lt.items@.len() as int;
    let llast = lt.items@[ln - 1];
    let llo = child_lo(items, lo, idx - 1);
    let chi = child_hi(items, hi, idx);
    lemma_children_wf_index(cs, items, t, lo, hi, h, n, idx - 1);
    lemma_children_wf_index(cs, items, t, lo, hi, h, n, idx);
    lemma_entries_char(lt, t, llo, sep.key as int);
    lemma_entries_char(ct, t, sep.key as int, chi);
    let hc = (lt.height() - 1) as nat;

    // the shrunk left sibling
    assert(keys_strictly_sorted(lp.items@) && keys_in_window(lp.items@, llo, llast.key as int)) by {
        assert forall|i: int| 0 <= i < lp.items@.len() implies llo < (
        #[trigger] lp.items@[i]).key < llast.key by {
            assert(lp.items@[i] == lt.items@[i]);
            assert(lt.items@[i].key < lt.items@[ln - 1].key);
        }
    }
    if !lt.isleaf {
        assert forall|j: int|
            0 <= j < lp.childs@.len() implies (#[trigger] lp.childs@[j]).wf(
            t,
            child_lo(lp.items@, llo, j),
            child_hi(lp.items@, llast.key as int, j),
        ) && lp.childs@[j].items@.len() >= t - 1 && lp.childs@[j].height() == hc by {
            lemma_children_wf_index(
                lt.childs@,
                lt.items@,
                t,
                llo,
                sep.key as int,
                hc,
                ln + 1,
                j,
            );
            assert(lp.childs@[j] == lt.childs@[j]);
            assert(child_lo(lp.items@, llo, j) == child_lo(lt.items@, llo, j));
            assert(child_hi(lp.items@, llast.key as int, j) == child_hi(
                lt.items@,
                sep.key as int,
                j,
            ));
        }
        lemma_children_wf_intro(
            lp.childs@,
            lp.items@,
            t,
            llo,
            llast.key as int,
            hc,
            lp.childs@.len() as int,
        );
        assert(lp.childs@[0] == lt.childs@[0]);
    }
    assert(lp.wf(t, llo, llast.key as int));
    assert(lp.height() == lt.height());

    // the grown child
    assert(keys_strictly_sorted(cp.items@) && keys_in_window(
        cp.items@,
        llast.key as int,
        chi,
    )) by {
        assert(llast.key < sep.key);
        assert forall|i: int| 0 <= i < cp.items@.len() implies llast.key < (
        #[trigger] cp.items@[i]).key < chi by {
            if i > 0 {
                assert(cp.items@[i] == ct.items@[i - 1]);
            }
        }
        assert forall|i: int, j: int|
            0 <= i < j < cp.items@.len() implies #[trigger] cp.items@[i].key
            < #[trigger] cp.items@[j].key by {
            assert(cp.items@[j] == ct.items@[j - 1]);
            if i > 0 {
                assert(cp.items@[i] == ct.items@[i - 1]);
            }
        }
    }
    if !ct.isleaf {
        assert forall|j: int|
            0 <= j < cp.childs@.len() implies (#[trigger] cp.childs@[j]).wf(
            t,
            child_lo(cp.items@, llast.key as int, j),
            child_hi(cp.items@, chi, j),
        ) && cp.childs@[j].items@.len() >= t - 1 && cp.childs@[j].height() == hc by {
            if j == 0 {
                lemma_children_wf_index(
                    lt.childs@,
                    lt.items@,
                    t,
                    llo,
                    sep.key as int,
                    hc,
                    ln + 1,
                    ln,
                );
                assert(cp.childs@[0] == lt.childs@[ln]);
                assert(child_lo(cp.items@, llast.key as int, 0) == llast.key as int);
                assert(child_hi(cp.items@, chi, 0) == sep.key as int);
                assert(child_lo(lt.items@, llo, ln) == llast.key as int);
                assert(child_hi(lt.items@, sep.key as int, ln) == sep.key as int);
            } else {
                lemma_children_wf_index(
                    ct.childs@,
                    ct.items@,
                    t,
                    sep.key as int,
                    chi,
                    hc,
                    ct.childs@.len() as int,
                    j - 1,
                );
                assert(cp.childs@[j] == ct.childs@[j - 1]);
                assert(child_lo(cp.items@, llast.key as int, j) == child_lo(
                    ct.items@,
                    sep.key as int,
                    j - 1,
                ));
                assert(child_hi(cp.items@, chi, j) == child_hi(ct.items@, chi, j - 1));
            }
        }
        lemma_children_wf_intro(
            cp.childs@,
            cp.items@,
            t,
            llast.key as int,
            chi,
            hc,
            cp.childs@.len() as int,
        );
        assert(cp.childs@[0] == lt.childs@[ln]);
        lemma_children_wf_index(lt.childs@, lt.items@, t, llo, sep.key as int, hc, ln + 1, ln);
        lemma_children_wf_index(
            ct.childs@,
            ct.items@,
            t,
            sep.key as int,
            chi,
            hc,
            ct.childs@.len() as int,
            0,
        );
    }
    assert(cp.wf(t, llast.key as int, chi));
    assert(cp.height() == ct.height());

    // the parent around them
    assert(keys_strictly_sorted(nn.items@) && keys_in_window(nn.items@, lo, hi)) by {
        assert(llo < llast.key < chi);
        assert forall|i: int, j: int|
            0 <= i < j < nn.items@.len() implies #[trigger] nn.items@[i].key
            < #[trigger] nn.items@[j].key by {}
    }
    assert forall|j: int|
        0 <= j < nn.childs@.len() implies (#[trigger] nn.childs@[j]).wf(
        t,
        child_lo(nn.items@, lo, j),
        child_hi(nn.items@, hi, j),
    ) && nn.childs@[j].items@.len() >= t - 1 && nn.childs@[j].height() == h by {
        if j == idx - 1 {
            assert(child_lo(nn.items@, lo, j) == llo);
            assert(child_hi(nn.items@, hi, j) == llast.key as int);
        } else if j == idx {
            assert(child_lo(nn.items@, lo, j) == llast.key as int);
            assert(child_hi(nn.items@, hi, j) == chi);
        } else {
            lemma_children_wf_index(cs, items, t, lo, hi, h, n, j);
            assert(nn.childs@[j] == cs[j]);
            assert(child_lo(nn.items@, lo, j) == child_lo(items, lo, j));
            assert(child_hi(nn.items@, hi, j) == child_hi(items, hi, j));
        }
    }
    lemma_children_wf_intro(nn.childs@, nn.items@, t, lo, hi, h, nn.childs@.len() as int);
    assert(nn.height() == on.height()) by {
        if idx - 1 != 0 {
            assert(nn.childs@[0] == cs[0]);
            lemma_children_wf_index(cs, items, t, lo, hi, h, n, 0);
        }
    }
    assert(nn.wf(t, lo, hi));

    // contents unchanged, key by key
    lemma_entries_char(on, t, lo, hi);
    lemma_entries_char(nn, t, lo, hi);
    lemma_entries_char(lp, t, llo, llast.key as int);
    lemma_entries_char(cp, t, llast.key as int, chi);
    assert forall|k: i32| #[trigger] nn.entries().dom().contains(k) implies
        on.entries().dom().contains(k) && nn.entries()[k] == on.entries()[k] by {
        if has_key(nn.items@, k) {
            let i = choose|i: int| 0 <= i < nn.items@.len() && #[trigger] nn.items@[i].key == k;
            assert(nn.entries()[nn.items@[i].key] == nn.items@[i].value);
            if i == idx - 1 {
                assert(lt.items@[ln - 1].key == k);
                assert(has_key(lt.items@, k));
                assert(lt.entries().dom().contains(k));
                assert(lt.entries()[lt.items@[ln - 1].key] == lt.items@[ln - 1].value);
                assert(on.entries()[k] == lt.entries()[k]);
            } else {
                assert(nn.items@[i] == items[i]);
                assert(has_key(items, k));
                assert(on.entries()[items[i].key] == items[i].value);
            }
        } else {
            let j = choose|j: int|
                0 <= j < nn.childs@.len() && #[trigger] nn.childs@[j].entries().dom().contains(k);
            assert(nn.entries()[k] == nn.childs@[j].entries()[k]);
            if j == idx - 1 {
                if has_key(lp.items@, k) {
                    let i = choose|i: int|
                        0 <= i < lp.items@.len() && #[trigger] lp.items@[i].key == k;
                    assert(lp.entries()[lp.items@[i].key] == lp.items@[i].value);
                    assert(lt.items@[i] == lp.items@[i]);
                    assert(has_key(lt.items@, k));
                    assert(lt.entries().dom().contains(k));
                    assert(lt.entries()[lt.items@[i].key] == lt.items@[i].value);
                    assert(on.entries()[k] == lt.entries()[k]);
                } else {
                    let jc = choose|jc: int|
                        0 <= jc < lp.childs@.len()
                            && #[trigger] lp.childs@[jc].entries().dom().contains(k);
                    assert(lp.entries()[k] == lp.childs@[jc].entries()[k]);
                    assert(lp.childs@[jc] == lt.childs@[jc]);
                    assert(lt.entries().dom().contains(k));
                    assert(lt.entries()[k] == lt.childs@[jc].entries()[k]);
                    assert(on.entries()[k] == lt.entries()[k]);
                }
            } else if j == idx {
                if has_key(cp.items@, k) {
                    let i = choose|i: int|
                        0 <= i < cp.items@.len() && #[trigger] cp.items@[i].key == k;
                    assert(cp.entries()[cp.items@[i].key] == cp.items@[i].value);
                    if i == 0 {
                        assert(k == sep.key);
                        assert(has_key(items, k));
                        assert(on.entries()[items[idx - 1].key] == items[idx - 1].value);
                    } else {
                        assert(ct.items@[i - 1] == cp.items@[i]);
                        assert(has_key(ct.items@, k));
                        assert(ct.entries().dom().contains(k));
                        assert(ct.entries()[ct.items@[i - 1].key] == ct.items@[i - 1].value);
                        assert(on.entries()[k] == ct.entries()[k]);
                    }
                } else {
                    let jc = choose|jc: int|
                        0 <= jc < cp.childs@.len()
                            && #[trigger] cp.childs@[jc].entries().dom().contains(k);
                    assert(cp.entries()[k] == cp.childs@[jc].entries()[k]);
                    if jc == 0 {
                        assert(cp.childs@[0] == lt.childs@[ln]);
                        assert(lt.entries().dom().contains(k));
                        assert(lt.entries()[k] == lt.childs@[ln].entries()[k]);
                        assert(on.entries()[k] == lt.entries()[k]);
                    } else {
                        assert(cp.childs@[jc] == ct.childs@[jc - 1]);
                        assert(ct.entries().dom().contains(k));
                        assert(ct.entries()[k] == ct.childs@[jc - 1].entries()[k]);
                        assert(on.entries()[k] == ct.entries()[k]);
                    }
                }
            } else {
                assert(nn.childs@[j] == cs[j]);
                assert(on.entries()[k] == cs[j].entries()[k]);
            }
        }
    }
    assert forall|k: i32| #[trigger] on.entries().dom().contains(k) implies
        nn.entries().dom().contains(k) by {
        if has_key(items, k) {
            let i = choose|i: int| 0 <= i < items.len() && #[trigger] items[i].key == k;
            if i == idx - 1 {
                assert(cp.items@[0].key == k);
                assert(has_key(cp.items@, k));
                assert(cp.entries().dom().contains(k));
                assert(nn.childs@[idx].entries().dom().contains(k));
            } else {
                assert(nn.items@[i].key == k);
                assert(has_key(nn.items@, k));
            }
        } else {
            let j = choose|j: int|
                0 <= j < cs.len() && #[trigger] cs[j].entries().dom().contains(k);
            if j == idx - 1 {
                if has_key(lt.items@, k) {
                    let i = choose|i: int|
                        0 <= i < lt.items@.len() && #[trigger] lt.items@[i].key == k;
                    if i == ln - 1 {
                        assert(nn.items@[idx - 1].key == k);
                        assert(has_key(nn.items@, k));
                    } else {
                        assert(lp.items@[i].key == k);
                        assert(has_key(lp.items@, k));
                        assert(lp.entries().dom().contains(k));
                        assert(nn.childs@[idx - 1].entries().dom().contains(k));
                    }
                } else {
                    let jc = choose|jc: int|
                        0 <= jc < lt.childs@.len()
                            && #[trigger] lt.childs@[jc].entries().dom().contains(k);
                    if jc == ln {
                        assert(cp.childs@[0].entries().dom().contains(k));
                        assert(cp.entries().dom().contains(k));
                        assert(nn.childs@[idx].entries().dom().contains(k));
                    } else {
                        assert(lp.childs@[jc].entries().dom().contains(k));
                        assert(lp.entries().dom().contains(k));
                        assert(nn.childs@[idx - 1].entries().dom().contains(k));
                    }
                }
            } else if j == idx {
                if has_key(ct.items@, k) {
                    let i = choose|i: int|
                        0 <= i < ct.items@.len() && #[trigger] ct.items@[i].key == k;
                    assert(cp.items@[i + 1].key == k);
                    assert(has_key(cp.items@, k));
                    assert(cp.entries().dom().contains(k));
                    assert(nn.childs@[idx].entries().dom().contains(k));
                } else {
                    let jc = choose|jc: int|
                        0 <= jc < ct.childs@.len()
                            && #[trigger] ct.childs@[jc].entries().dom().contains(k);
                    assert(cp.childs@[jc + 1].entries().dom().contains(k));
                    assert(cp.entries().dom().contains(k));
                    assert(nn.childs@[idx].entries().dom().contains(k));
                }
            } else {
                assert(nn.childs@[j].entries().dom().contains(k));
            }
        }
    }
    assert(nn.entries() =~= on.entries());
}

/// Joining two well-formed nodes around the item that separates them yields
/// one well-formed node that carries exactly their combined contents.
#[verifier::rlimit(60)]
#[verifier::spinoff_prover]
proof fn lemma_join_node(lt: Node, rt: Node, mid: Item, mg: Node, t: int, llo: int, rhi: int)
    requires
        lt.wf(t, llo, mid.key as int),
        rt.wf(t, mid.key as int, rhi),
        llo < mid.key < rhi,
        lt.items@.len() + rt.items@.len() + 1 <= 2 * t - 1,
        lt.isleaf == rt.isleaf,
        lt.height() == rt.height(),
        mg.t == t,
        mg.isleaf == lt.isleaf,
        mg.items@ == lt.items@.push(mid) + rt.items@,
        mg.childs@ == lt.childs@ + rt.childs@,
    ensures
        mg.wf(t, llo, rhi),
        mg.height() == lt.height(),
        forall|k: i32|
            #[trigger] mg.entries().dom().contains(k) <==> (lt.entries().dom().contains(k) || k
                == mid.key || rt.entries().dom().contains(k)),
        forall|k: i32|
            #[trigger] lt.entries().dom().contains(k) ==> mg.entries()[k] == lt.entries()[k],
        forall|k: i32|
            #[trigger] rt.entries().dom().contains(k) ==> mg.entries()[k] == rt.entries()[k],
        mg.entries()[mid.key] == mid.value,
{
    let lits = lt.items@;
    let rits = rt.items@;
    let mits = mg.items@;
    let ln = lits.len() as int;
    let rn = rits.len() as int;
    let h = (lt.height() - 1) as nat;
    lemma_entries_char(lt, t, llo, mid.key as int);
    lemma_entries_char(rt, t, mid.key as int, rhi);
    assert(keys_strictly_sorted(mits)) by {
        assert forall|i: int, j: int|
            0 <= i < j < mits.len() implies #[trigger] mits[i].key < #[trigger] mits[j].key by {
            if i < ln {
                assert(mits[i] == lits[i]);
            } else if i > ln {
                assert(mits[i] == rits[i - ln - 1]);
            }
            if j < ln {
                assert(mits[j] == lits[j]);
            } else if j > ln {
                assert(mits[j] == rits[j - ln - 1]);
            }
        }
    }
    assert(keys_in_window(mits, llo, rhi)) by {
        assert forall|i: int| 0 <= i < mits.len() implies llo < (#[trigger] mits[i]).key < rhi by {
            if i < ln {
                assert(mits[i] == lits[i]);
            } else if i > ln {
                assert(mits[i] == rits[i - ln - 1]);
            }
        }
    }
    if !lt.isleaf {
        assert forall|j: int|
            0 <= j < mg.childs@.len() implies (#[trigger] mg.childs@[j]).wf(
            t,
            child_lo(mits, llo, j),
            child_hi(mits, rhi, j),
        ) && mg.childs@[j].items@.len() >= t - 1 && mg.childs@[j].height() == h by {
            if j <= ln {
                lemma_children_wf_index(
                    lt.childs@,
                    lits,
                    t,
                    llo,
                    mid.key as int,
                    h,
                    ln + 1,
                    j,
                );
                assert(mg.childs@[j] == lt.childs@[j]);
                assert(child_lo(mits, llo, j) == child_lo(lits, llo, j));
                assert(child_hi(mits, rhi, j) == child_hi(lits, mid.key as int, j));
            } else {
                lemma_children_wf_index(
                    rt.childs@,
                    rits,
                    t,
                    mid.key as int,
                    rhi,
                    h,
                    rn + 1,
                    j - ln - 1,
                );
                assert(mg.childs@[j] == rt.childs@[j - ln - 1]);
                assert(child_lo(mits, llo, j) == child_lo(rits, mid.key as int, j - ln - 1));
                assert(child_hi(mits, rhi, j) == child_hi(rits, rhi, j - ln - 1));
            }
        }
        lemma_children_wf_intro(mg.childs@, mits, t, llo, rhi, h, mg.childs@.len() as int);
        assert(mg.childs@[0] == lt.childs@[0]);
    }
    assert(mg.wf(t, llo, rhi));
    lemma_entries_char(mg, t, llo, rhi);
    assert forall|k: i32| #[trigger] mg.entries().dom().contains(k) implies (
    lt.entries().dom().contains(k) || k == mid.key || rt.entries().dom().contains(k)) by {
        if has_key(mits, k) {
            let i = choose|i: int| 0 <= i < mits.len() && #[trigger] mits[i].key == k;
            if i < ln {
                assert(lits[i].key == k);
                assert(has_key(lits, k));
            } else if i > ln {
                assert(rits[i - ln - 1].key == k);
                assert(has_key(rits, k));
            }
        } else {
            let j = choose|j: int|
                0 <= j < mg.childs@.len() && #[trigger] mg.childs@[j].entries().dom().contains(k);
            if j <= ln {
                assert(lt.childs@[j].entries().dom().contains(k));
            } else {
                assert(rt.childs@[j - ln - 1].entries().dom().contains(k));
            }
        }
    }
    assert forall|k: i32|
        lt.entries().dom().contains(k) || k == mid.key || rt.entries().dom().contains(k) implies
        #[trigger] mg.entries().dom().contains(k) by {
        if lt.entries().dom().contains(k) {
            if has_key(lits, k) {
                let i = choose|i: int| 0 <= i < lits.len() && #[trigger] lits[i].key == k;
                assert(mits[i].key == k);
                assert(has_key(mits, k));
            } else {
                let j = choose|j: int|
                    0 <= j < lt.childs@.len()
                        && #[trigger] lt.childs@[j].entries().dom().contains(k);
                assert(mg.childs@[j].entries().dom().contains(k));
            }
        } else if k == mid.key {
            assert(mits[ln].key == k);
            assert(has_key(mits, k));
        } else if rt.entries().dom().contains(k) {
            if has_key(rits, k) {
                let i = choose|i: int| 0 <= i < rits.len() && #[trigger] rits[i].key == k;
                assert(mits[ln + 1 + i].key == k);
                assert(has_key(mits, k));
            } else {
                let j = choose|j: int|
                    0 <= j < rt.childs@.len()
                        && #[trigger] rt.childs@[j].entries().dom().contains(k);
                assert(mg.childs@[ln + 1 + j].entries().dom().contains(k));
            }
        }
    }
    assert forall|k: i32| #[trigger] lt.entries().dom().contains(k) implies mg.entries()[k]
        == lt.entries()[k] by {
        if has_key(lits, k) {
            let i = choose|i: int| 0 <= i < lits.len() && #[trigger] lits[i].key == k;
            assert(lt.entries()[lits[i].key] == lits[i].value);
            assert(mits[i] == lits[i]);
            assert(mg.entries()[mits[i].key] == mits[i].value);
        } else {
            let j = choose|j: int|
                0 <= j < lt.childs@.len() && #[trigger] lt.childs@[j].entries().dom().contains(k);
            assert(lt.entries()[k] == lt.childs@[j].entries()[k]);
            assert(mg.childs@[j].entries().dom().contains(k));
            assert(mg.entries()[k] == mg.childs@[j].entries()[k]);
        }
    }
    assert forall|k: i32| #[trigger] rt.entries().dom().contains(k) implies mg.entries()[k]
        == rt.entries()[k] by {
        if has_key(rits, k) {
            let i = choose|i: int| 0 <= i < rits.len() && #[trigger] rits[i].key == k;
            assert(rt.entries()[rits[i].key] == rits[i].value);
            assert(mits[ln + 1 + i] == rits[i]);
            assert(mg.entries()[mits[ln + 1 + i].key] == mits[ln + 1 + i].value);
        } else {
            let j = choose|j: int|
                0 <= j < rt.childs@.len() && #[trigger] rt.childs@[j].entries().dom().contains(k);
            assert(rt.entries()[k] == rt.childs@[j].entries()[k]);
            assert(mg.childs@[ln + 1 + j].entries().dom().contains(k));
            assert(mg.entries()[k] == mg.childs@[ln + 1 + j].entries()[k]);
        }
    }
    assert(mits[ln] == mid);
    assert(mg.entries()[mits[ln].key] == mits[ln].value);
}

/// Cutting a node at the item in position `m` yields two well-formed parts
/// that, together with that item, carry exactly the contents of the node.
#[verifier::rlimit(100)]
#[verifier::spinoff_prover]
proof fn lemma_split_at(yy: Node, yp: Node, zz: Node, t: int, ylo: int, yhi: int, m: int)
    requires
        yy.wf(t, ylo, yhi),
        0 <= m < yy.items@.len(),
        yp.t == t,
        zz.t == t,
        yp.isleaf == yy.isleaf,
        zz.isleaf == yy.isleaf,
        yp.items@ == yy.items@.subrange(0, m),
        zz.items@ == yy.items@.subrange(m + 1, yy.items@.len() as int),
        yy.isleaf ==> yp.childs@ == Seq::<Node>::empty() && zz.childs@ == Seq::<Node>::empty(),
        !yy.isleaf ==> yp.childs@ == yy.childs@.subrange(0, m + 1) && zz.childs@
            == yy.childs@.subrange(m + 1, yy.childs@.len() as int),
    ensures
        yp.wf(t, ylo, yy.items@[m].key as int),
        zz.wf(t, yy.items@[m].key as int, yhi),
        yp.height() == yy.height(),
        zz.height() == yy.height(),
        forall|k: i32|
            #[trigger] yy.entries().dom().contains(k) <==> (yp.entries().dom().contains(k) || k
                == yy.items@[m].key || zz.entries().dom().contains(k)),
        forall|k: i32|
            #[trigger] yp.entries().dom().contains(k) ==> yy.entries()[k] == yp.entries()[k] && k
                < yy.items@[m].key,
        forall|k: i32|
            #[trigger] zz.entries().dom().contains(k) ==> yy.entries()[k] == zz.entries()[k] && k
                > yy.items@[m].key,
        yy.entries()[yy.items@[m].key] == yy.items@[m].value,
{
    let ycs = yy.childs@;
    let yits = yy.items@;
    let med = yits[m];
    let hy = (yy.height() - 1) as nat;
    lemma_entries_char(yy, t, ylo, yhi);
    if !yy.isleaf {
        assert forall|j: int|
            0 <= j < m + 1 implies (#[trigger] yp.childs@[j]).wf(
            t,
            child_lo(yp.items@, ylo, j),
            child_hi(yp.items@, med.key as int, j),
        ) && yp.childs@[j].items@.len() >= t - 1 && yp.childs@[j].height() == hy by {
            lemma_children_wf_index(ycs, yits, t, ylo, yhi, hy, ycs.len() as int, j);
            assert(yp.childs@[j] == ycs[j]);
            assert(child_lo(yp.items@, ylo, j) == child_lo(yits, ylo, j));
            assert(child_hi(yp.items@, med.key as int, j) == child_hi(yits, yhi, j));
        }
        lemma_children_wf_intro(yp.childs@, yp.items@, t, ylo, med.key as int, hy, m + 1);
        assert(yp.childs@[0] == ycs[0]);
        assert forall|j: int|
            0 <= j < zz.childs@.len() implies (#[trigger] zz.childs@[j]).wf(
            t,
            child_lo(zz.items@, med.key as int, j),
            child_hi(zz.items@, yhi, j),
        ) && zz.childs@[j].items@.len() >= t - 1 && zz.childs@[j].height() == hy by {
            lemma_children_wf_index(ycs, yits, t, ylo, yhi, hy, ycs.len() as int, m + 1 + j);
            assert(zz.childs@[j] == ycs[m + 1 + j]);
            assert(child_lo(zz.items@, med.key as int, j) == child_lo(yits, ylo, m + 1 + j));
            assert(child_hi(zz.items@, yhi, j) == child_hi(yits, yhi, m + 1 + j));
        }
        lemma_children_wf_intro(zz.childs@, zz.items@, t, med.key as int, yhi, hy, zz.childs@.len() as int);
        assert(zz.childs@[0] == ycs[m + 1]);
        lemma_children_wf_index(ycs, yits, t, ylo, yhi, hy, ycs.len() as int, m + 1);
        assert(zz.height() == yy.height());
    }
    assert(yp.wf(t, ylo, med.key as int));
    assert(zz.wf(t, med.key as int, yhi));
    lemma_entries_char(yp, t, ylo, med.key as int);
    lemma_entries_char(zz, t, med.key as int, yhi);
    lemma_entries_window(yp, t, ylo, med.key as int);
    lemma_entries_window(zz, t, med.key as int, yhi);

    assert forall|k: i32| #[trigger] yy.entries().dom().contains(k) implies (
    yp.entries().dom().contains(k) || k == med.key || zz.entries().dom().contains(k)) by {
        if has_key(yits, k) {
            let i = choose|i: int| 0 <= i < yits.len() && #[trigger] yits[i].key == k;
            if i < m {
                assert(yp.items@[i].key == k);
                assert(has_key(yp.items@, k));
            } else if i >= m + 1 {
                assert(zz.items@[i - m - 1].key == k);
                assert(has_key(zz.items@, k));
            }
        } else {
            let j = choose|j: int| 0 <= j < ycs.len() && #[trigger] ycs[j].entries().dom().contains(
                k,
            );
            if j < m + 1 {
                assert(yp.childs@[j].entries().dom().contains(k));
            } else {
                assert(zz.childs@[j - m - 1].entries().dom().contains(k));
            }
        }
    }
    assert forall|k: i32|
        yp.entries().dom().contains(k) || k == med.key || zz.entries().dom().contains(k) implies
        #[trigger] yy.entries().dom().contains(k) by {
        if yp.entries().dom().contains(k) {
            if has_key(yp.items@, k) {
                let i = choose|i: int|
                    0 <= i < yp.items@.len() && #[trigger] yp.items@[i].key == k;
                assert(yits[i].key == k);
                assert(has_key(yits, k));
            } else {
                let j = choose|j: int|
                    0 <= j < yp.childs@.len() && #[trigger] yp.childs@[j].entries().dom().contains(
                        k,
                    );
                assert(ycs[j].entries().dom().contains(k));
            }
        } else if k == med.key {
            assert(yits[m].key == k);
            assert(has_key(yits, k));
        } else if zz.entries().dom().contains(k) {
            if has_key(zz.items@, k) {
                let i = choose|i: int|
                    0 <= i < zz.items@.len() && #[trigger] zz.items@[i].key == k;
                assert(yits[m + 1 + i].key == k);
                assert(has_key(yits, k));
            } else {
                let j = choose|j: int|
                    0 <= j < zz.childs@.len() && #[trigger] zz.childs@[j].entries().dom().contains(
                        k,
                    );
                assert(ycs[m + 1 + j].entries().dom().contains(k));
            }
        }
    }
    assert forall|k: i32| #[trigger] yp.entries().dom().contains(k) implies yy.entries()[k]
        == yp.entries()[k] && k < med.key by {
        if has_key(yp.items@, k) {
            let i = choose|i: int| 0 <= i < yp.items@.len() && #[trigger] yp.items@[i].key == k;
            assert(yp.entries()[k] == yp.items@[i].value);
            assert(yits[i] == yp.items@[i]);
            assert(yy.entries()[yits[i].key] == yits[i].value);
        } else {
            let j = choose|j: int|
                0 <= j < yp.childs@.len() && #[trigger] yp.childs@[j].entries().dom().contains(k);
            assert(yp.entries()[k] == yp.childs@[j].entries()[k]);
            assert(ycs[j].entries().dom().contains(k));
            assert(yy.entries()[k] == ycs[j].entries()[k]);
        }
    }
    assert forall|k: i32| #[trigger] zz.entries().dom().contains(k) implies yy.entries()[k]
        == zz.entries()[k] && k > med.key by {
        if has_key(zz.items@, k) {
            let i = choose|i: int| 0 <= i < zz.items@.len() && #[trigger] zz.items@[i].key == k;
            assert(zz.entries()[k] == zz.items@[i].value);
            assert(yits[m + 1 + i] == zz.items@[i]);
            assert(yy.entries()[yits[m + 1 + i].key] == yits[m + 1 + i].value);
        } else {
            let j = choose|j: int|
                0 <= j < zz.childs@.len() && #[trigger] zz.childs@[j].entries().dom().contains(k);
            assert(zz.entries()[k] == zz.childs@[j].entries()[k]);
            assert(ycs[m + 1 + j].entries().dom().contains(k));
            assert(yy.entries()[k] == ycs[m + 1 + j].entries()[k]);
        }
    }
    assert(yy.entries()[yits[m].key] == yits[m].value);
}

/// The map built by inserting the pairs of `s` in order, oldest first, as
/// a run of successful `insert` calls builds it.
pub open spec fn insert_all(m: Map<i32, i32>, s: Seq<(i32, i32)>) -> Map<i32, i32>
    decreases s.len(),
{
    if s.len() == 0 {
        m
    } else {
        insert_all(m, s.drop_last()).insert(s.last().0, s.last().1)
    }
}

/// The map left after deleting the keys of `s` in order, oldest first, as
/// a run of `delete` calls leaves it.
pub open spec fn remove_all(m: Map<i32, i32>, s: Seq<(i32, i32)>) -> Map<i32, i32>
    decreases s.len(),
{
    if s.len() == 0 {
        m
    } else {
        remove_all(m, s.drop_last()).remove(s.last().0)
    }
}

/// No two pairs of `s` share a key.
pub open spec fn distinct_keys(s: Seq<(i32, i32)>) -> bool {
    forall|i: int, j: int| 0 <= i < j < s.len() ==> (#[trigger] s[i]).0 != (#[trigger] s[j]).0
}

/// Inserting distinct-key pairs into the empty map stores exactly those
/// pairs.
proof fn lemma_insert_all_char(s: Seq<(i32, i32)>)
    requires
        distinct_keys(s),
    ensures
        forall|k: i32| #[trigger] insert_all(Map::empty(), s).dom().contains(k) <==> exists|i: int|
            0 <= i < s.len() && (#[trigger] s[i]).0 == k,
        forall|i: int|
            0 <= i < s.len() ==> insert_all(Map::empty(), s)[(#[trigger] s[i]).0] == s[i].1,
    decreases s.len(),
{
    if s.len() > 0 {
        let s0 = s.drop_last();
        lemma_insert_all_char(s0);
        assert forall|k: i32| #[trigger] insert_all(Map::empty(), s).dom().contains(k) implies
            exists|i: int| 0 <= i < s.len() && (#[trigger] s[i]).0 == k by {
            if k != s.last().0 {
                assert(insert_all(Map::empty(), s0).dom().contains(k));
                let i = choose|i: int| 0 <= i < s0.len() && (#[trigger] s0[i]).0 == k;
                assert(s[i].0 == k);
            } else {
                assert(s[s.len() - 1].0 == k);
            }
        }
        assert forall|k: i32|
            exists|i: int| 0 <= i < s.len() && (#[trigger] s[i]).0 == k implies
            #[trigger] insert_all(Map::empty(), s).dom().contains(k) by {
            let i = choose|i: int| 0 <= i < s.len() && (#[trigger] s[i]).0 == k;
            if i < s.len() - 1 {
                assert(s0[i].0 == k);
            }
        }
        assert forall|i: int| 0 <= i < s.len() implies insert_all(Map::empty(), s)[(
        #[trigger] s[i]).0] == s[i].1 by {
            if i < s.len() - 1 {
                assert(s0[i] == s[i]);
                assert(s[i].0 != s.last().0);
            }
        }
    }
}

/// Removing a key other than `k` commutes with inserting `k`.
proof fn lemma_remove_all_insert(m: Map<i32, i32>, s: Seq<(i32, i32)>, k: i32, v: i32)
    requires
        forall|i: int| 0 <= i < s.len() ==> (#[trigger] s[i]).0 != k,
    ensures
        remove_all(m.insert(k, v), s) =~= remove_all(m, s).insert(k, v),
    decreases s.len(),
{
    if s.len() > 0 {
        lemma_remove_all_insert(m, s.drop_last(), k, v);
    }
}

/// Round trip. Inserting any run of pairs with pairwise distinct keys into
/// the empty tree makes every one of those keys findable, bound to its
/// value — `search` must report a hit for each — and deleting exactly those
/// keys afterwards takes the contents back to the empty map, so `size`
/// then reports zero.
pub proof fn lemma_round_trip(s: Seq<(i32, i32)>)
    requires
        distinct_keys(s),
    ensures
        forall|i: int|
            0 <= i < s.len() ==> insert_all(Map::empty(), s).dom().contains((#[trigger] s[i]).0)
                && insert_all(Map::empty(), s)[s[i].0] == s[i].1,
        remove_all(insert_all(Map::empty(), s), s) =~= Map::<i32, i32>::empty(),
    decreases s.len(),
{
    lemma_insert_all_char(s);
    assert forall|i: int|
        0 <= i < s.len() implies insert_all(Map::empty(), s).dom().contains((
    #[trigger] s[i]).0) by {
        assert(s[i].0 == s[i].0 && 0 <= i < s.len());
    }
    if s.len() > 0 {
        let s0 = s.drop_last();
        let k = s.last().0;
        let v = s.last().1;
        lemma_round_trip(s0);
        lemma_remove_all_insert(insert_all(Map::empty(), s0), s0, k, v);
        assert(remove_all(insert_all(Map::empty(), s), s0) =~= remove_all(
            insert_all(Map::empty(), s0),
            s0,
        ).insert(k, v));
        assert(remove_all(insert_all(Map::empty(), s), s) =~= Map::<i32, i32>::empty());
    }
}

/// Order independence. Two runs of insertions that carry the same
/// distinct-key pairs, in whatever order, build the same map — the trees
/// built from them hold the same contents, though their shapes may differ.
pub proof fn lemma_insert_order_independent(s1: Seq<(i32, i32)>, s2: Seq<(i32, i32)>)
    requires
        distinct_keys(s1),
        distinct_keys(s2),
        s1.to_multiset() == s2.to_multiset(),
    ensures
        insert_all(Map::empty(), s1) =~= insert_all(Map::empty(), s2),
{
    broadcast use vstd::seq_lib::group_to_multiset_ensures;

    lemma_insert_all_char(s1);
    lemma_insert_all_char(s2);
    assert forall|i: int| 0 <= i < s1.len() implies s2.contains(#[trigger] s1[i]) by {
        assert(s1.to_multiset().contains(s1[i]));
    }
    assert forall|i: int| 0 <= i < s2.len() implies s1.contains(#[trigger] s2[i]) by {
        assert(s2.to_multiset().contains(s2[i]));
    }
    assert forall|k: i32|
        #[trigger] insert_all(Map::empty(), s1).dom().contains(k) implies insert_all(
        Map::empty(),
        s2,
    ).dom().contains(k) && insert_all(Map::empty(), s1)[k] == insert_all(Map::empty(), s2)[k] by {
        let i1 = choose|i: int| 0 <= i < s1.len() && (#[trigger] s1[i]).0 == k;
        let i2 = choose|i: int| 0 <= i < s2.len() && s2[i] == s1[i1];
        assert(s2[i2].0 == k);
    }
    assert forall|k: i32|
        #[trigger] insert_all(Map::empty(), s2).dom().contains(k) implies insert_all(
        Map::empty(),
        s1,
    ).dom().contains(k) by {
        let i2 = choose|i: int| 0 <= i < s2.len() && (#[trigger] s2[i]).0 == k;
        let i1 = choose|i: int| 0 <= i < s1.len() && s1[i] == s2[i2];
        assert(s1[i1].0 == k);
    }
}



} // verus!
