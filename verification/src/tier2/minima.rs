//! What a tag tree is for: a grid of numbers whose writer spells out only what the
//! numbers read before leave open is read back as it was. Every node stands for the
//! least number below it, so no node starts below its parent.

use super::bio::BitState;
use super::codewords::lemma_bits_join;
use super::tagtree::{
    ancestor, extent_at, lemma_ancestor_in_level, lemma_node_in_level, raise, settle, Node,
    TreeView,
};
use crate::math::{lemma_index_injective, min_int};
use vstd::prelude::*;

verus! {

/// The least of the numbers below node `(a, b)` of level `k` of a grid.
pub open spec fn least(
    numbers: spec_fn(nat, nat) -> nat,
    width: nat,
    height: nat,
    k: nat,
    a: nat,
    b: nat,
) -> nat
    decreases k,
{
    if k == 0 {
        numbers(a, b)
    } else {
        let below = (k - 1) as nat;
        let right = 2 * a + 1 < extent_at(width, below);
        let down = 2 * b + 1 < extent_at(height, below);
        let first = least(numbers, width, height, below, 2 * a, 2 * b);
        let second = if right {
            least(numbers, width, height, below, 2 * a + 1, 2 * b)
        } else {
            first
        };
        let third = if down {
            least(numbers, width, height, below, 2 * a, 2 * b + 1)
        } else {
            first
        };
        let fourth = if right && down {
            least(numbers, width, height, below, 2 * a + 1, 2 * b + 1)
        } else {
            first
        };
        let upper = if first < second { first } else { second };
        let lower = if third < fourth { third } else { fourth };
        if upper < lower {
            upper
        } else {
            lower
        }
    }
}

/// The number that the ancestor of leaf `(x, y)` stands for, `k` levels up.
pub open spec fn stands_for(
    tree: TreeView,
    numbers: spec_fn(nat, nat) -> nat,
    x: nat,
    y: nat,
    k: nat,
) -> nat {
    least(numbers, tree.width, tree.height, k, ancestor(x, k), ancestor(y, k))
}

/// What has been read of a node is true of its number.
pub open spec fn true_of(node: Node, number: nat) -> bool {
    if node.known {
        node.low == number
    } else {
        node.low <= number
    }
}

/// What has been read of a tree is true of the numbers.
pub open spec fn tells(tree: TreeView, numbers: spec_fn(nat, nat) -> nat) -> bool {
    forall|x: nat, y: nat, k: nat|
        x < tree.width && y < tree.height && k < tree.levels.len() ==> true_of(
            tree.levels[k as int][#[trigger] tree.node_index(x, y, k)],
            stands_for(tree, numbers, x, y, k),
        )
}

/// The next bits of a reader are these.
pub open spec fn carries(s: BitState, bits: Seq<u8>) -> bool {
    forall|i: int| 0 <= i < bits.len() ==> s.bits(i as nat).1.bit().0 == #[trigger] bits[i]
}

/// A number spelled out from a bound up to a threshold: a 0 for each step that it lies
/// above the bound, and a 1 where it lies below the threshold.
pub open spec fn spelled(bound: u32, number: nat, threshold: u32) -> Seq<u8> {
    if bound >= threshold {
        Seq::empty()
    } else {
        Seq::new(
            (min_int(number as int, threshold as int) - bound) as nat,
            |i: int| 0u8,
        ) + if number < threshold {
            seq![1u8]
        } else {
            Seq::empty()
        }
    }
}

/// What a writer spells out of leaf `(x, y)` from level `k` down: of each ancestor that
/// is not known yet, its number from the bound that it has, or that its parent has.
pub open spec fn spelled_down(
    tree: TreeView,
    numbers: spec_fn(nat, nat) -> nat,
    x: nat,
    y: nat,
    k: nat,
    low: u32,
    threshold: u32,
) -> Seq<u8>
    decreases k,
{
    let node = tree.levels[k as int][tree.node_index(x, y, k)];
    let number = stands_for(tree, numbers, x, y, k);
    let bound = if low > node.low { low } else { node.low };
    let own = if node.known { Seq::empty() } else { spelled(bound, number, threshold) };
    let low = if node.known {
        node.low
    } else if number < threshold {
        number as u32
    } else if bound > threshold {
        bound
    } else {
        threshold
    };
    if k == 0 {
        own
    } else {
        own + spelled_down(tree, numbers, x, y, (k - 1) as nat, low, threshold)
    }
}

/// A node's number is no less than its parent's.
proof fn lemma_numbers_grow_down(
    tree: TreeView,
    numbers: spec_fn(nat, nat) -> nat,
    x: nat,
    y: nat,
    k: nat,
)
    requires
        x < tree.width,
        y < tree.height,
    ensures
        stands_for(tree, numbers, x, y, k + 1) <= stands_for(tree, numbers, x, y, k),
{
    lemma_ancestor_in_level(x, tree.width, k);
    lemma_ancestor_in_level(y, tree.height, k);
    let (a, b) = (ancestor(x, k + 1), ancestor(y, k + 1));
    assert(ancestor(x, k) == 2 * a || ancestor(x, k) == 2 * a + 1);
    assert(ancestor(y, k) == 2 * b || ancestor(y, k) == 2 * b + 1);
    assert((k + 1 - 1) as nat == k);
}

/// No leaf's number is less than what its ancestors stand for.
pub proof fn lemma_ancestors_bound(
    tree: TreeView,
    numbers: spec_fn(nat, nat) -> nat,
    x: nat,
    y: nat,
    k: nat,
)
    requires
        x < tree.width,
        y < tree.height,
    ensures
        stands_for(tree, numbers, x, y, k) <= numbers(x, y),
    decreases k,
{
    if k > 0 {
        lemma_ancestors_bound(tree, numbers, x, y, (k - 1) as nat);
        lemma_numbers_grow_down(tree, numbers, x, y, (k - 1) as nat);
    }
}

/// Bits in two parts.
pub proof fn lemma_carries_parts(s: BitState, first: Seq<u8>, second: Seq<u8>)
    requires
        carries(s, first + second),
    ensures
        carries(s, first),
        carries(s.bits(first.len()).1, second),
        s.bits((first + second).len()).1 == s.bits(first.len()).1.bits(second.len()).1,
{
    let all = first + second;
    assert forall|i: int| 0 <= i < first.len() implies s.bits(i as nat).1.bit().0
        == #[trigger] first[i] by {
        assert(all[i] == first[i]);
    }
    assert forall|i: int| 0 <= i < second.len() implies s.bits(first.len()).1.bits(
        i as nat,
    ).1.bit().0 == #[trigger] second[i] by {
        assert(all[first.len() + i] == second[i]);
        lemma_bits_join(s, first.len(), i as nat);
    }
    lemma_bits_join(s, first.len(), second.len());
}

/// A number that was spelled out is read.
proof fn lemma_spelled_read(bound: u32, number: nat, threshold: u32, bits: BitState)
    requires
        bound <= number,
        carries(bits, spelled(bound, number, threshold)),
    ensures
        raise(bound, threshold, bits) == (
            Node {
                low: if number < threshold {
                    number as u32
                } else if bound > threshold {
                    bound
                } else {
                    threshold
                },
                known: number < threshold,
            },
            bits.bits(spelled(bound, number, threshold).len()).1,
        ),
    decreases threshold - bound,
{
    let code = spelled(bound, number, threshold);
    reveal_with_fuel(BitState::bits, 2);
    if bound < threshold {
        assert(bits.bits(0).1.bit().0 == code[0]);
        if number > bound {
            let next = (bound + 1) as u32;
            let rest = spelled(next, number, threshold);
            assert(code =~= seq![0u8] + rest);
            lemma_carries_parts(bits, seq![0u8], rest);
            lemma_spelled_read(next, number, threshold, bits.bit().1);
        } else {
            assert(code =~= seq![1u8]);
        }
    }
}

/// What is spelled out depends on the levels below alone.
proof fn lemma_spelled_alike(
    a: TreeView,
    b: TreeView,
    numbers: spec_fn(nat, nat) -> nat,
    x: nat,
    y: nat,
    k: nat,
    low: u32,
    threshold: u32,
)
    requires
        a.width == b.width,
        a.height == b.height,
        forall|j: int| 0 <= j <= k ==> (#[trigger] a.levels[j]) == b.levels[j],
    ensures
        spelled_down(a, numbers, x, y, k, low, threshold) == spelled_down(
            b,
            numbers,
            x,
            y,
            k,
            low,
            threshold,
        ),
    decreases k,
{
    assert(a.levels[k as int] == b.levels[k as int]);
    if k > 0 {
        let node = a.levels[k as int][a.node_index(x, y, k)];
        let number = stands_for(a, numbers, x, y, k);
        let bound = if low > node.low { low } else { node.low };
        let low = if node.known {
            node.low
        } else if number < threshold {
            number as u32
        } else if bound > threshold {
            bound
        } else {
            threshold
        };
        lemma_spelled_alike(a, b, numbers, x, y, (k - 1) as nat, low, threshold);
    }
}

/// A tree with one of its nodes read further.
pub open spec fn with_node(tree: TreeView, x: nat, y: nat, k: nat, node: Node) -> TreeView {
    TreeView {
        levels: tree.levels.update(
            k as int,
            tree.levels[k as int].update(tree.node_index(x, y, k), node),
        ),
        ..tree
    }
}

/// A tree stays true of the numbers when a node is read that is.
proof fn lemma_still_tells(
    tree: TreeView,
    numbers: spec_fn(nat, nat) -> nat,
    x: nat,
    y: nat,
    k: nat,
    node: Node,
)
    requires
        tree.wf(),
        tells(tree, numbers),
        x < tree.width,
        y < tree.height,
        k < tree.levels.len(),
        true_of(node, stands_for(tree, numbers, x, y, k)),
    ensures
        with_node(tree, x, y, k, node).wf(),
        tells(with_node(tree, x, y, k, node), numbers),
{
    let next = with_node(tree, x, y, k, node);
    lemma_node_in_level(tree, x, y, k);
    assert forall|u: nat, v: nat, j: nat|
        u < next.width && v < next.height && j < next.levels.len() implies true_of(
        next.levels[j as int][#[trigger] next.node_index(u, v, j)],
        stands_for(next, numbers, u, v, j),
    ) by {
        let at = tree.node_index(u, v, j);
        assert(next.node_index(u, v, j) == at);
        lemma_node_in_level(tree, u, v, j);
        if j == k && at == tree.node_index(x, y, k) {
            lemma_ancestor_in_level(x, tree.width, k);
            lemma_ancestor_in_level(u, tree.width, k);
            lemma_index_injective(
                ancestor(u, k) as int,
                ancestor(v, k) as int,
                ancestor(x, k) as int,
                ancestor(y, k) as int,
                extent_at(tree.width, k) as int,
            );
        }
    }
}

/// What is read from level `k` down.
proof fn lemma_read_down(
    tree: TreeView,
    numbers: spec_fn(nat, nat) -> nat,
    x: nat,
    y: nat,
    k: nat,
    low: u32,
    threshold: u32,
    bits: BitState,
)
    requires
        tree.wf(),
        tells(tree, numbers),
        x < tree.width,
        y < tree.height,
        k < tree.levels.len(),
        low <= stands_for(tree, numbers, x, y, k),
        carries(bits, spelled_down(tree, numbers, x, y, k, low, threshold)),
    ensures
        ({
            let (leaf, after, rest) = tree.descend(x, y, k, low, threshold, bits);
            &&& true_of(leaf, numbers(x, y))
            &&& numbers(x, y) < threshold ==> leaf.known
            &&& after.wf()
            &&& after.width == tree.width
            &&& after.height == tree.height
            &&& tells(after, numbers)
            &&& rest == bits.bits(
                spelled_down(tree, numbers, x, y, k, low, threshold).len(),
            ).1
        }),
    decreases k,
{
    let i = tree.node_index(x, y, k);
    let old = tree.levels[k as int][i];
    let number = stands_for(tree, numbers, x, y, k);
    assert(true_of(old, number));
    let bound = if low > old.low { low } else { old.low };
    let own = if old.known { Seq::<u8>::empty() } else { spelled(bound, number, threshold) };
    let (node, rest) = settle(old, low, threshold, bits);
    let all = spelled_down(tree, numbers, x, y, k, low, threshold);
    let more = if k == 0 {
        Seq::<u8>::empty()
    } else {
        spelled_down(tree, numbers, x, y, (k - 1) as nat, node.low, threshold)
    };
    if old.known {
        assert(own + more =~= more);
        if k == 0 {
            assert(all == own);
        } else {
            assert(all == own + more);
        }
        assert(bits.bits(0).1 == bits);
    } else {
        assert(carries(bits, own)) by {
            if k > 0 {
                let low = if number < threshold {
                    number as u32
                } else if bound > threshold {
                    bound
                } else {
                    threshold
                };
                lemma_carries_parts(
                    bits,
                    own,
                    spelled_down(tree, numbers, x, y, (k - 1) as nat, low, threshold),
                );
            }
        }
        lemma_spelled_read(bound, number, threshold, bits);
    }
    lemma_still_tells(tree, numbers, x, y, k, node);
    let next = with_node(tree, x, y, k, node);
    if k > 0 {
        let below = (k - 1) as nat;
        assert(all == own + more);
        lemma_carries_parts(bits, own, more);
        assert(rest == bits.bits(own.len()).1);
        lemma_numbers_grow_down(tree, numbers, x, y, below);
        assert((below + 1) as nat == k);
        lemma_spelled_alike(tree, next, numbers, x, y, below, node.low, threshold);
        lemma_read_down(next, numbers, x, y, below, node.low, threshold, rest);
    }
}

/// A leaf whose number was spelled out is read back, as far as the threshold: the
/// number itself where it lies below, and that it does not where it does not. The
/// reader takes exactly the bits that were spelled out, and what has been read of the
/// tree stays true of the numbers.
pub proof fn lemma_numbers_read_back(
    tree: TreeView,
    numbers: spec_fn(nat, nat) -> nat,
    x: nat,
    y: nat,
    threshold: u32,
    bits: BitState,
)
    requires
        tree.wf(),
        tells(tree, numbers),
        x < tree.width,
        y < tree.height,
        carries(
            bits,
            spelled_down(tree, numbers, x, y, (tree.levels.len() - 1) as nat, 0, threshold),
        ),
    ensures
        ({
            let (number, after, rest) = tree.read(x, y, threshold, bits);
            &&& number == if numbers(x, y) < threshold {
                Some(numbers(x, y) as u32)
            } else {
                None
            }
            &&& after.wf()
            &&& tells(after, numbers)
            &&& rest == bits.bits(
                spelled_down(
                    tree,
                    numbers,
                    x,
                    y,
                    (tree.levels.len() - 1) as nat,
                    0,
                    threshold,
                ).len(),
            ).1
        }),
{
    lemma_read_down(
        tree,
        numbers,
        x,
        y,
        (tree.levels.len() - 1) as nat,
        0,
        threshold,
        bits,
    );
}

/// A tree of which nothing has been read is true of any numbers.
pub proof fn lemma_fresh_tree_tells(width: nat, height: nat, numbers: spec_fn(nat, nat) -> nat)
    requires
        TreeView::fresh(width, height).wf(),
    ensures
        tells(TreeView::fresh(width, height), numbers),
{
    let tree = TreeView::fresh(width, height);
    assert forall|x: nat, y: nat, k: nat|
        x < tree.width && y < tree.height && k < tree.levels.len() implies true_of(
        tree.levels[k as int][#[trigger] tree.node_index(x, y, k)],
        stands_for(tree, numbers, x, y, k),
    ) by {
        lemma_node_in_level(tree, x, y, k);
    }
}

} // verus!
