//! Tag trees (ISO/IEC 15444-1 B.10.2).
//!
//! A tag tree is a quad tree of minima over a grid of leaves, read lazily against
//! a rising threshold: packet headers use one for the layer that first includes a
//! code-block and one for the number of leading all-zero bit-planes. The tree
//! carries what has been read of every node between packets.

use super::bio::{lemma_bit_wf, BitReader, BitState};
use crate::math::lemma_index_bound;
use vstd::prelude::*;

verus! {

/// What has been read of one node: its value is `low` when `known`, and at least
/// `low` otherwise.
#[derive(Debug, Clone, Copy, PartialEq, Eq, Structural)]
pub struct Node {
    pub low: u32,
    pub known: bool,
}

/// A grid's extent `k` levels above the leaves.
pub open spec fn extent_at(n: nat, k: nat) -> nat
    decreases k,
{
    if k == 0 {
        n
    } else {
        (extent_at(n, (k - 1) as nat) + 1) / 2
    }
}

/// The ancestor of coordinate `x`, `k` levels above the leaves.
pub open spec fn ancestor(x: nat, k: nat) -> nat
    decreases k,
{
    if k == 0 {
        x
    } else {
        ancestor(x, (k - 1) as nat) / 2
    }
}

/// Levels of a tree, from its leaves to its root.
pub open spec fn depth(width: nat, height: nat) -> nat
    decreases width + height,
{
    if width == 0 || height == 0 {
        0
    } else if width == 1 && height == 1 {
        1
    } else {
        1 + depth((width + 1) / 2, (height + 1) / 2)
    }
}

/// The nodes of level `k` of a tree of which nothing has been read.
pub open spec fn fresh_level(width: nat, height: nat, k: nat) -> Seq<Node> {
    Seq::new(
        extent_at(width, k) * extent_at(height, k),
        |i: int| Node { low: 0, known: false },
    )
}

/// The tree's state: its leaf grid and the row-major nodes of every level, leaves
/// first, up to the single root.
pub struct TreeView {
    pub width: nat,
    pub height: nat,
    pub levels: Seq<Seq<Node>>,
}

impl TreeView {
    /// Every level holds its grid, and the last one holds the root alone. A tree
    /// without leaves has no levels.
    pub open spec fn wf(&self) -> bool {
        &&& forall|k: int|
            0 <= k < self.levels.len() ==> (#[trigger] self.levels[k]).len() == extent_at(
                self.width,
                k as nat,
            ) * extent_at(self.height, k as nat)
        &&& self.width > 0 && self.height > 0 ==> {
            &&& self.levels.len() > 0
            &&& extent_at(self.width, (self.levels.len() - 1) as nat) == 1
            &&& extent_at(self.height, (self.levels.len() - 1) as nat) == 1
        }
    }

    /// A tree of which nothing has been read.
    pub open spec fn fresh(width: nat, height: nat) -> TreeView {
        TreeView {
            width,
            height,
            levels: Seq::new(depth(width, height), |k: int| fresh_level(width, height, k as nat)),
        }
    }

    /// Row-major index, in level `k`, of the ancestor of leaf `(x, y)`.
    pub open spec fn node_index(&self, x: nat, y: nat, k: nat) -> int {
        (ancestor(y, k) * extent_at(self.width, k) + ancestor(x, k)) as int
    }

    /// Settle the ancestors of leaf `(x, y)` from level `k` down to the leaf
    /// against `threshold`, the values below level `k` being at least `low`.
    /// Returns the leaf, the tree and the reader after it.
    pub open spec fn descend(
        self,
        x: nat,
        y: nat,
        k: nat,
        low: u32,
        threshold: u32,
        bits: BitState,
    ) -> (Node, TreeView, BitState)
        decreases k,
    {
        let i = self.node_index(x, y, k);
        let (node, bits) = settle(self.levels[k as int][i], low, threshold, bits);
        let tree = TreeView {
            levels: self.levels.update(k as int, self.levels[k as int].update(i, node)),
            ..self
        };
        if k == 0 {
            (node, tree, bits)
        } else {
            tree.descend(x, y, (k - 1) as nat, node.low, threshold, bits)
        }
    }

    /// Read leaf `(x, y)` against `threshold`: its value if that is below the
    /// threshold.
    pub open spec fn read(
        self,
        x: nat,
        y: nat,
        threshold: u32,
        bits: BitState,
    ) -> (Option<u32>, TreeView, BitState) {
        let (leaf, tree, bits) = self.descend(
            x,
            y,
            (self.levels.len() - 1) as nat,
            0,
            threshold,
            bits,
        );
        (if leaf.known && leaf.low < threshold { Some(leaf.low) } else { None }, tree, bits)
    }
}

/// Read a node's value, which is at least `low`, as far as `threshold`: each 0
/// bit raises the bound by one, a 1 bit settles the value at the bound.
pub open spec fn settle(node: Node, low: u32, threshold: u32, bits: BitState) -> (Node, BitState) {
    if node.known {
        (node, bits)
    } else {
        raise(if low > node.low { low } else { node.low }, threshold, bits)
    }
}

/// Raise an unknown value's bound from `low`.
pub open spec fn raise(low: u32, threshold: u32, bits: BitState) -> (Node, BitState)
    decreases threshold - low,
{
    if low >= threshold {
        (Node { low, known: false }, bits)
    } else {
        let (bit, bits) = bits.bit();
        if bit == 1 {
            (Node { low, known: true }, bits)
        } else {
            raise((low + 1) as u32, threshold, bits)
        }
    }
}

/// An ancestor lies inside its level.
pub proof fn lemma_ancestor_in_level(x: nat, n: nat, k: nat)
    requires
        x < n,
    ensures
        ancestor(x, k) < extent_at(n, k),
    decreases k,
{
    if k > 0 {
        lemma_ancestor_in_level(x, n, (k - 1) as nat);
    }
}

/// A settled node stays as it is: reading it again against the same threshold takes
/// no bits and changes nothing.
pub proof fn lemma_settle_idempotent(
    node: Node,
    low: u32,
    threshold: u32,
    bits: BitState,
    more: BitState,
)
    ensures
        settle(settle(node, low, threshold, bits).0, low, threshold, more) == (
            settle(node, low, threshold, bits).0,
            more,
        ),
{
    if !node.known {
        let start = if low > node.low { low } else { node.low };
        lemma_raise_settles(start, threshold, bits);
    }
}

/// A raised bound settles below the threshold or reaches it.
proof fn lemma_raise_settles(low: u32, threshold: u32, bits: BitState)
    ensures
        ({
            let after = raise(low, threshold, bits).0;
            &&& low <= after.low
            &&& after.known ==> after.low < threshold
            &&& !after.known ==> after.low >= threshold
        }),
    decreases threshold - low,
{
    if low < threshold && bits.bit().0 != 1 {
        lemma_raise_settles((low + 1) as u32, threshold, bits.bit().1);
    }
}

/// Every ancestor of a leaf has its node.
pub proof fn lemma_node_in_level(tree: TreeView, x: nat, y: nat, k: nat)
    requires
        tree.wf(),
        x < tree.width,
        y < tree.height,
        k < tree.levels.len(),
    ensures
        0 <= tree.node_index(x, y, k) < tree.levels[k as int].len(),
{
    lemma_ancestor_in_level(x, tree.width, k);
    lemma_ancestor_in_level(y, tree.height, k);
    crate::math::lemma_index_bound(
        ancestor(x, k) as int,
        ancestor(y, k) as int,
        extent_at(tree.width, k) as int,
        extent_at(tree.height, k) as int,
    );
}

/// Settling the ancestors from level `k` down leaves the levels above alone and
/// keeps the tree's shape.
proof fn lemma_descend_frame(
    tree: TreeView,
    x: nat,
    y: nat,
    k: nat,
    low: u32,
    threshold: u32,
    bits: BitState,
)
    requires
        tree.wf(),
        x < tree.width,
        y < tree.height,
        k < tree.levels.len(),
    ensures
        ({
            let after = tree.descend(x, y, k, low, threshold, bits).1;
            &&& after.wf()
            &&& after.width == tree.width
            &&& after.height == tree.height
            &&& after.levels.len() == tree.levels.len()
            &&& forall|j: int| k < j < tree.levels.len() ==> after.levels[j] == tree.levels[j]
        }),
    decreases k,
{
    let i = tree.node_index(x, y, k);
    let (node, rest) = settle(tree.levels[k as int][i], low, threshold, bits);
    let next = TreeView {
        levels: tree.levels.update(k as int, tree.levels[k as int].update(i, node)),
        ..tree
    };
    lemma_node_in_level(tree, x, y, k);
    assert(next.wf());
    if k > 0 {
        lemma_descend_frame(next, x, y, (k - 1) as nat, node.low, threshold, rest);
    }
}

/// Settling the ancestors again takes no bits and changes nothing.
proof fn lemma_descend_again(
    tree: TreeView,
    x: nat,
    y: nat,
    k: nat,
    low: u32,
    threshold: u32,
    bits: BitState,
    more: BitState,
)
    requires
        tree.wf(),
        x < tree.width,
        y < tree.height,
        k < tree.levels.len(),
    ensures
        ({
            let (leaf, after, _) = tree.descend(x, y, k, low, threshold, bits);
            after.descend(x, y, k, low, threshold, more) == (leaf, after, more)
        }),
    decreases k,
{
    let i = tree.node_index(x, y, k);
    let (node, rest) = settle(tree.levels[k as int][i], low, threshold, bits);
    let next = TreeView {
        levels: tree.levels.update(k as int, tree.levels[k as int].update(i, node)),
        ..tree
    };
    lemma_node_in_level(tree, x, y, k);
    assert(next.wf());
    lemma_settle_idempotent(tree.levels[k as int][i], low, threshold, bits, more);
    let after = tree.descend(x, y, k, low, threshold, bits).1;
    if k > 0 {
        lemma_descend_frame(next, x, y, (k - 1) as nat, node.low, threshold, rest);
        lemma_descend_again(next, x, y, (k - 1) as nat, node.low, threshold, rest, more);
    }
    assert(after.levels[k as int] == next.levels[k as int]);
    assert(after.levels[k as int].update(i, node) =~= after.levels[k as int]);
    assert(after.levels.update(k as int, after.levels[k as int].update(i, node)) =~= after.levels);
}

/// Reading a leaf again against the same threshold gives the same answer, takes no
/// bits and changes nothing.
pub proof fn lemma_read_again(
    tree: TreeView,
    x: nat,
    y: nat,
    threshold: u32,
    bits: BitState,
    more: BitState,
)
    requires
        tree.wf(),
        x < tree.width,
        y < tree.height,
    ensures
        ({
            let (value, after, _) = tree.read(x, y, threshold, bits);
            after.read(x, y, threshold, more) == (value, after, more)
        }),
{
    let k = (tree.levels.len() - 1) as nat;
    lemma_descend_frame(tree, x, y, k, 0, threshold, bits);
    lemma_descend_again(tree, x, y, k, 0, threshold, bits, more);
}

/// A tag tree over a `width` by `height` grid of leaves.
#[derive(Debug)]
pub struct TagTree {
    pub width: u32,
    pub height: u32,
    /// The nodes of every level, leaves first.
    pub levels: Vec<Vec<Node>>,
}

impl View for TagTree {
    type V = TreeView;

    open spec fn view(&self) -> TreeView {
        TreeView {
            width: self.width as nat,
            height: self.height as nat,
            levels: Seq::new(self.levels@.len(), |k: int| self.levels@[k]@),
        }
    }
}

impl TagTree {
    /// A tree of which nothing has been read.
    pub fn new(width: u32, height: u32) -> (tree: Self)
        requires
            width as int * height as int <= u32::MAX,
        ensures
            tree@ == TreeView::fresh(width as nat, height as nat),
            tree@.wf(),
    {
        let mut levels: Vec<Vec<Node>> = Vec::new();
        let ghost want = TreeView::fresh(width as nat, height as nat);
        if width == 0 || height == 0 {
            let tree = TagTree { width, height, levels };
            assert(tree@.levels =~= want.levels);
            return tree;
        }
        let mut w: u32 = width;
        let mut h: u32 = height;
        let mut done: bool = false;
        while !done
            invariant
                width > 0,
                height > 0,
                w > 0,
                h > 0,
                w <= width,
                h <= height,
                width as int * height as int <= u32::MAX,
                levels@.len() + (if done { 0 } else { depth(w as nat, h as nat) }) == depth(
                    width as nat,
                    height as nat,
                ),
                !done ==> w == extent_at(width as nat, levels@.len()),
                !done ==> h == extent_at(height as nat, levels@.len()),
                done ==> levels@.len() > 0 && extent_at(
                    width as nat,
                    (levels@.len() - 1) as nat,
                ) == 1 && extent_at(height as nat, (levels@.len() - 1) as nat) == 1,
                forall|k: int|
                    0 <= k < levels@.len() ==> (#[trigger] levels@[k])@ == fresh_level(
                        width as nat,
                        height as nat,
                        k as nat,
                    ),
            decreases (if done { 0int } else { w + h }),
        {
            assert(w as int * h as int <= width as int * height as int) by (nonlinear_arith)
                requires
                    0 <= w <= width,
                    0 <= h <= height,
            ;
            let count: usize = (w * h) as usize;
            let level: Vec<Node> = vec![Node { low: 0, known: false }; count];
            assert(level@ =~= fresh_level(width as nat, height as nat, levels@.len()));
            levels.push(level);
            if w == 1 && h == 1 {
                done = true;
            } else {
                w = w / 2 + w % 2;
                h = h / 2 + h % 2;
            }
        }
        let tree = TagTree { width, height, levels };
        assert(tree@.levels =~= want.levels);
        tree
    }

    /// Read leaf `(x, y)` against `threshold`, consuming bits of the packet
    /// header. Returns the value if it is now known to be below the threshold,
    /// and `None` if it has to be read again at a higher one.
    pub fn read(&mut self, x: u32, y: u32, threshold: u32, reader: &mut BitReader<'_>) -> (value:
        Option<u32>)
        requires
            old(self)@.wf(),
            x < old(self)@.width,
            y < old(self)@.height,
            old(reader)@.wf(),
        ensures
            (value, final(self)@, final(reader)@) == old(self)@.read(
                x as nat,
                y as nat,
                threshold,
                old(reader)@,
            ),
            final(self)@.wf(),
            final(self)@.width == old(self)@.width,
            final(self)@.height == old(self)@.height,
            final(reader)@.wf(),
            final(reader)@.data == old(reader)@.data,
            value.is_some() ==> value.unwrap() < threshold,
    {
        let ghost start = self@;
        let ghost goal = self@.descend(
            x as nat,
            y as nat,
            (self@.levels.len() - 1) as nat,
            0,
            threshold,
            reader@,
        );
        let path: Vec<usize> = self.path(x, y);
        let mut low: u32 = 0;
        let mut k: usize = self.levels.len();
        let mut leaf: Node = Node { low: 0, known: false };
        let ghost data = reader@.data;
        while k > 0
            invariant
                k <= self@.levels.len(),
                self@.levels.len() == path@.len(),
                self@.levels.len() > 0,
                self@.wf(),
                self@.width == start.width,
                self@.height == start.height,
                x < self@.width,
                y < self@.height,
                reader@.wf(),
                reader@.data == data,
                forall|j: int|
                    0 <= j < path@.len() ==> #[trigger] path@[j] == start.node_index(
                        x as nat,
                        y as nat,
                        j as nat,
                    ),
                k > 0 ==> self@.descend(
                    x as nat,
                    y as nat,
                    (k - 1) as nat,
                    low,
                    threshold,
                    reader@,
                ) == goal,
                k == 0 ==> goal == (leaf, self@, reader@),
            decreases k,
        {
            let ghost before = self@;
            let ghost before_bits = reader@;
            k = k - 1;
            let i: usize = path[k];
            proof {
                lemma_ancestor_in_level(x as nat, self@.width, k as nat);
                lemma_ancestor_in_level(y as nat, self@.height, k as nat);
                lemma_index_bound(
                    ancestor(x as nat, k as nat) as int,
                    ancestor(y as nat, k as nat) as int,
                    extent_at(self@.width, k as nat) as int,
                    extent_at(self@.height, k as nat) as int,
                );
                assert(self@.levels[k as int].len() == extent_at(self@.width, k as nat)
                    * extent_at(self@.height, k as nat));
                assert(self@.levels[k as int] == self.levels@[k as int]@);
            }
            let node: Node = settle_node(self.levels[k][i], low, threshold, reader);
            self.levels[k].set(i, node);
            assert(self@.levels =~= before.levels.update(
                k as int,
                before.levels[k as int].update(i as int, node),
            ));
            leaf = node;
            low = node.low;
        }
        if leaf.known && leaf.low < threshold {
            Some(leaf.low)
        } else {
            None
        }
    }

    /// The index, in every level, of the ancestor of leaf `(x, y)`.
    fn path(&self, x: u32, y: u32) -> (path: Vec<usize>)
        requires
            self@.wf(),
            x < self@.width,
            y < self@.height,
        ensures
            path@.len() == self@.levels.len(),
            forall|k: int|
                0 <= k < path@.len() ==> #[trigger] path@[k] == self@.node_index(
                    x as nat,
                    y as nat,
                    k as nat,
                ),
    {
        let mut path: Vec<usize> = Vec::new();
        let mut ax: usize = x as usize;
        let mut ay: usize = y as usize;
        let mut w: usize = self.width as usize;
        while path.len() < self.levels.len()
            invariant
                self@.wf(),
                x < self@.width,
                y < self@.height,
                path@.len() <= self@.levels.len(),
                self@.levels.len() == self.levels@.len(),
                ax == ancestor(x as nat, path@.len()),
                ay == ancestor(y as nat, path@.len()),
                w == extent_at(self@.width, path@.len()),
                forall|k: int|
                    0 <= k < path@.len() ==> #[trigger] path@[k] == self@.node_index(
                        x as nat,
                        y as nat,
                        k as nat,
                    ),
            decreases self.levels@.len() - path@.len(),
        {
            let ghost k = path@.len();
            let size: usize = self.levels[path.len()].len();
            proof {
                lemma_ancestor_in_level(x as nat, self@.width, k);
                lemma_ancestor_in_level(y as nat, self@.height, k);
                lemma_index_bound(
                    ax as int,
                    ay as int,
                    w as int,
                    extent_at(self@.height, k) as int,
                );
                assert(self@.levels[k as int].len() == extent_at(self@.width, k) * extent_at(
                    self@.height,
                    k,
                ));
                assert(self@.levels[k as int] == self.levels@[k as int]@);
                assert(ay * w + ax < size);
            }
            path.push(ay * w + ax);
            ax = ax / 2;
            ay = ay / 2;
            w = w / 2 + w % 2;
        }
        path
    }
}

/// Read one node's value as far as `threshold`.
fn settle_node(node: Node, low: u32, threshold: u32, reader: &mut BitReader<'_>) -> (after: Node)
    requires
        old(reader)@.wf(),
    ensures
        (after, final(reader)@) == settle(node, low, threshold, old(reader)@),
        final(reader)@.wf(),
        final(reader)@.data == old(reader)@.data,
{
    if node.known {
        return node;
    }
    let mut bound: u32 = if low > node.low { low } else { node.low };
    let ghost goal = raise(bound, threshold, reader@);
    while bound < threshold
        invariant
            reader@.wf(),
            reader@.data == old(reader)@.data,
            raise(bound, threshold, reader@) == goal,
            goal == settle(node, low, threshold, old(reader)@),
        decreases threshold - bound,
    {
        proof {
            lemma_bit_wf(reader@);
        }
        if reader.read_bit() == 1 {
            return Node { low: bound, known: true };
        }
        bound = bound + 1;
    }
    Node { low: bound, known: false }
}

} // verus!
