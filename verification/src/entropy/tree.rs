//! The code tree from which Huffman code lengths are read off.
use crate::entropy::huffman;
use crate::entropy::huffman::MAX_SYMBOLS;
use vstd::prelude::*;

verus! {

/// A code tree: a symbol, or two subtrees one bit apart.
pub enum Tree {
    Leaf { freq: u64, symbol: u8 },
    Node { freq: u64, left: Box<Tree>, right: Box<Tree> },
}

/// How often the symbols of a tree occur.
pub open spec fn tree_freq(t: Tree) -> u64 {
    match t {
        Tree::Leaf { freq, .. } => freq,
        Tree::Node { freq, .. } => freq,
    }
}

/// The tie-break between trees of one frequency: inner nodes first, then leaves by symbol.
pub open spec fn tree_key(t: Tree) -> int {
    match t {
        Tree::Leaf { symbol, .. } => symbol as int,
        Tree::Node { .. } => -1,
    }
}

/// `a` is merged before `b`.
pub open spec fn precedes(a: Tree, b: Tree) -> bool {
    tree_freq(a) < tree_freq(b) || (tree_freq(a) == tree_freq(b) && tree_key(a) < tree_key(b))
}

/// One pass over the trees from `i` on that keeps the first and the second to be merged.
pub open spec fn scan(nodes: Seq<Tree>, i: int, first: int, second: int) -> (int, int)
    decreases nodes.len() - i,
{
    if i >= nodes.len() {
        (first, second)
    } else if precedes(nodes[i], nodes[first]) {
        scan(nodes, i + 1, i, first)
    } else if precedes(nodes[i], nodes[second]) {
        scan(nodes, i + 1, first, i)
    } else {
        scan(nodes, i + 1, first, second)
    }
}

/// The two trees that are merged next. The pass starts with the trees 0 and 1, the one with
/// the lower frequency first.
pub open spec fn select(nodes: Seq<Tree>) -> (int, int) {
    if tree_freq(nodes[0]) > tree_freq(nodes[1]) {
        scan(nodes, 2, 1, 0)
    } else {
        scan(nodes, 2, 0, 1)
    }
}

pub proof fn lemma_scan_range(nodes: Seq<Tree>, i: int, first: int, second: int)
    requires
        0 <= first < i,
        0 <= second < i,
        first != second,
        i <= nodes.len(),
    ensures
        0 <= scan(nodes, i, first, second).0 < nodes.len(),
        0 <= scan(nodes, i, first, second).1 < nodes.len(),
        scan(nodes, i, first, second).0 != scan(nodes, i, first, second).1,
    decreases nodes.len() - i,
{
    if i < nodes.len() {
        if precedes(nodes[i], nodes[first]) {
            lemma_scan_range(nodes, i + 1, i, first);
        } else if precedes(nodes[i], nodes[second]) {
            lemma_scan_range(nodes, i + 1, first, i);
        } else {
            lemma_scan_range(nodes, i + 1, first, second);
        }
    }
}

pub proof fn lemma_select_range(nodes: Seq<Tree>)
    requires
        nodes.len() >= 2,
    ensures
        0 <= select(nodes).0 < nodes.len(),
        0 <= select(nodes).1 < nodes.len(),
        select(nodes).0 != select(nodes).1,
{
    lemma_scan_range(nodes, 2, 1, 0);
    lemma_scan_range(nodes, 2, 0, 1);
}

/// The tree over two others.
pub open spec fn join(left: Tree, right: Tree) -> Tree {
    Tree::Node {
        freq: (tree_freq(left) + tree_freq(right)) as u64,
        left: Box::new(left),
        right: Box::new(right),
    }
}

/// One merge: the two selected trees leave, and the tree over them comes last. The one that
/// stood first becomes the left subtree.
pub open spec fn merge(nodes: Seq<Tree>) -> Seq<Tree> {
    let (a, b) = select(nodes);
    let lo = if a < b {
        a
    } else {
        b
    };
    let hi = if a < b {
        b
    } else {
        a
    };
    nodes.remove(hi).remove(lo).push(join(nodes[lo], nodes[hi]))
}

pub proof fn lemma_merge_len(nodes: Seq<Tree>)
    requires
        nodes.len() >= 2,
    ensures
        merge(nodes).len() == nodes.len() - 1,
{
    lemma_select_range(nodes);
}

/// The tree that repeated merging ends with.
pub open spec fn build(nodes: Seq<Tree>) -> Tree
    decreases nodes.len(),
{
    if nodes.len() <= 1 {
        nodes[0]
    } else {
        proof {
            lemma_merge_len(nodes);
        }
        build(merge(nodes))
    }
}

/// One leaf for each symbol below `n` that occurs.
pub open spec fn leaves(freqs: Seq<u64>, n: int) -> Seq<Tree>
    decreases n,
{
    if n <= 0 {
        Seq::empty()
    } else if freqs[n - 1] > 0 {
        leaves(freqs, n - 1).push(Tree::Leaf { freq: freqs[n - 1], symbol: (n - 1) as u8 })
    } else {
        leaves(freqs, n - 1)
    }
}

/// Enter the depth of every leaf of `t`, which itself stands at depth `d`.
pub open spec fn assign(t: Tree, d: int, lens: Seq<u8>) -> Seq<u8>
    decreases t,
{
    match t {
        Tree::Leaf { symbol, .. } => lens.update(symbol as int, d as u8),
        Tree::Node { left, right, .. } => assign(*right, d + 1, assign(*left, d + 1, lens)),
    }
}

/// The Huffman code lengths for given symbol frequencies; a lone symbol has length one.
pub open spec fn huffman_lengths(freqs: Seq<u64>) -> Seq<u8> {
    let nodes = leaves(freqs, 256);
    if nodes.len() == 0 {
        huffman::no_lengths()
    } else if nodes.len() == 1 {
        huffman::no_lengths().update(nodes[0]->Leaf_symbol as int, 1)
    } else {
        assign(build(nodes), 0, huffman::no_lengths())
    }
}

/// The frequencies below `n` together.
pub open spec fn freq_sum(freqs: Seq<u64>, n: int) -> nat
    decreases n,
{
    if n <= 0 {
        0
    } else {
        freq_sum(freqs, n - 1) + freqs[n - 1] as nat
    }
}

/// The sum of a measure over trees.
pub open spec fn forest_sum(nodes: Seq<Tree>, f: spec_fn(Tree) -> nat) -> nat
    decreases nodes.len(),
{
    if nodes.len() == 0 {
        0
    } else {
        forest_sum(nodes.drop_last(), f) + f(nodes.last())
    }
}

/// Number of leaves with symbol `s`.
pub open spec fn leaf_count(t: Tree, s: int) -> nat
    decreases t,
{
    match t {
        Tree::Leaf { symbol, .. } => if symbol == s {
            1
        } else {
            0
        },
        Tree::Node { left, right, .. } => leaf_count(*left, s) + leaf_count(*right, s),
    }
}

/// Number of leaves.
pub open spec fn size(t: Tree) -> nat
    decreases t,
{
    match t {
        Tree::Leaf { .. } => 1,
        Tree::Node { left, right, .. } => size(*left) + size(*right),
    }
}

/// The depth of the deepest leaf.
pub open spec fn height(t: Tree) -> nat
    decreases t,
{
    match t {
        Tree::Leaf { .. } => 0,
        Tree::Node { left, right, .. } => 1 + if height(*left) > height(*right) {
            height(*left)
        } else {
            height(*right)
        },
    }
}

/// Number of nodes, leaves included, at depth `k`.
pub open spec fn level(t: Tree, k: int) -> nat
    decreases t,
{
    match t {
        Tree::Leaf { .. } => if k == 0 {
            1
        } else {
            0
        },
        Tree::Node { left, right, .. } => if k == 0 {
            1
        } else {
            level(*left, k - 1) + level(*right, k - 1)
        },
    }
}

/// Number of leaves at depth `k`.
pub open spec fn level_leaves(t: Tree, k: int) -> nat
    decreases t,
{
    match t {
        Tree::Leaf { .. } => if k == 0 {
            1
        } else {
            0
        },
        Tree::Node { left, right, .. } => if k == 0 {
            0
        } else {
            level_leaves(*left, k - 1) + level_leaves(*right, k - 1)
        },
    }
}

pub proof fn lemma_sum_remove(nodes: Seq<Tree>, i: int, f: spec_fn(Tree) -> nat)
    requires
        0 <= i < nodes.len(),
    ensures
        forest_sum(nodes, f) == forest_sum(nodes.remove(i), f) + f(nodes[i]),
    decreases nodes.len(),
{
    if i == nodes.len() - 1 {
        assert(nodes.remove(i) =~= nodes.drop_last());
    } else {
        lemma_sum_remove(nodes.drop_last(), i, f);
        assert(nodes.remove(i).drop_last() =~= nodes.drop_last().remove(i));
        assert(nodes.remove(i).last() == nodes.last());
    }
}

/// A measure that adds up over `join` is kept by a merge.
pub proof fn lemma_sum_merge(nodes: Seq<Tree>, f: spec_fn(Tree) -> nat)
    requires
        nodes.len() >= 2,
        forall|l: Tree, r: Tree| #[trigger] f(join(l, r)) == f(l) + f(r),
    ensures
        forest_sum(merge(nodes), f) == forest_sum(nodes, f),
{
    lemma_select_range(nodes);
    let (a, b) = select(nodes);
    let lo = if a < b {
        a
    } else {
        b
    };
    let hi = if a < b {
        b
    } else {
        a
    };
    lemma_sum_remove(nodes, hi, f);
    lemma_sum_remove(nodes.remove(hi), lo, f);
    assert(nodes.remove(hi)[lo] == nodes[lo]);
    assert(merge(nodes).drop_last() =~= nodes.remove(hi).remove(lo));
    assert(merge(nodes).last() == join(nodes[lo], nodes[hi]));
}

proof fn lemma_sum_build(nodes: Seq<Tree>, f: spec_fn(Tree) -> nat)
    requires
        nodes.len() >= 1,
        forall|l: Tree, r: Tree| #[trigger] f(join(l, r)) == f(l) + f(r),
    ensures
        f(build(nodes)) == forest_sum(nodes, f),
    decreases nodes.len(),
{
    if nodes.len() >= 2 {
        lemma_merge_len(nodes);
        lemma_sum_merge(nodes, f);
        lemma_sum_build(merge(nodes), f);
    } else {
        assert(nodes.drop_last() =~= Seq::empty());
        assert(forest_sum(nodes.drop_last(), f) == 0);
    }
}

proof fn lemma_leaves(freqs: Seq<u64>, n: int)
    requires
        0 <= n <= 256,
    ensures
        leaves(freqs, n).len() <= n,
        forall|i: int| 0 <= i < leaves(freqs, n).len() ==> #[trigger] leaves(freqs, n)[i] is Leaf,
    decreases n,
{
    if n > 0 {
        lemma_leaves(freqs, n - 1);
    }
}

proof fn lemma_leaves_count(freqs: Seq<u64>, n: int, s: int)
    requires
        0 <= n <= 256,
    ensures
        forest_sum(leaves(freqs, n), |t: Tree| leaf_count(t, s)) == (if 0 <= s < n && freqs[s]
            > 0 {
            1nat
        } else {
            0nat
        }),
    decreases n,
{
    let f = |t: Tree| leaf_count(t, s);
    if n > 0 {
        lemma_leaves_count(freqs, n - 1, s);
        if freqs[n - 1] > 0 {
            assert(leaves(freqs, n).drop_last() =~= leaves(freqs, n - 1));
            assert(f(leaves(freqs, n).last()) == leaf_count(leaves(freqs, n).last(), s));
        }
    }
}

proof fn lemma_leaves_size(freqs: Seq<u64>, n: int)
    requires
        0 <= n <= 256,
    ensures
        forest_sum(leaves(freqs, n), |t: Tree| size(t)) == leaves(freqs, n).len(),
    decreases n,
{
    let f = |t: Tree| size(t);
    if n > 0 {
        lemma_leaves_size(freqs, n - 1);
        if freqs[n - 1] > 0 {
            assert(leaves(freqs, n).drop_last() =~= leaves(freqs, n - 1));
            assert(f(leaves(freqs, n).last()) == 1);
        }
    }
}

proof fn lemma_height_size(t: Tree)
    ensures
        height(t) + 1 <= size(t),
    decreases t,
{
    match t {
        Tree::Leaf { .. } => {},
        Tree::Node { left, right, .. } => {
            lemma_height_size(*left);
            lemma_height_size(*right);
        },
    }
}

/// The tree over the occurring symbols has each of them once, and its height fits a byte.
pub proof fn lemma_build_leaves(freqs: Seq<u64>)
    requires
        leaves(freqs, 256).len() >= 1,
    ensures
        size(build(leaves(freqs, 256))) == leaves(freqs, 256).len(),
        height(build(leaves(freqs, 256))) <= 255,
        forall|s: int| #[trigger]
            leaf_count(build(leaves(freqs, 256)), s) == (if 0 <= s < 256 && freqs[s] > 0 {
                1nat
            } else {
                0nat
            }),
{
    let nodes = leaves(freqs, 256);
    let t = build(nodes);
    lemma_leaves(freqs, 256);
    let g = |t: Tree| size(t);
    assert forall|l: Tree, r: Tree| #[trigger] g(join(l, r)) == g(l) + g(r) by {
        assert(g(join(l, r)) == size(join(l, r)));
    }
    lemma_sum_build(nodes, g);
    lemma_leaves_size(freqs, 256);
    assert(g(t) == size(t));
    lemma_height_size(t);
    assert forall|s: int| #[trigger] leaf_count(t, s) == (if 0 <= s < 256 && freqs[s] > 0 {
        1nat
    } else {
        0nat
    }) by {
        let f = |t: Tree| leaf_count(t, s);
        assert forall|l: Tree, r: Tree| #[trigger] f(join(l, r)) == f(l) + f(r) by {
            assert(f(join(l, r)) == leaf_count(join(l, r), s));
        }
        lemma_sum_build(nodes, f);
        lemma_leaves_count(freqs, 256, s);
        assert(f(t) == leaf_count(t, s));
    }
}

proof fn lemma_count_update(lens: Seq<u8>, s: int, v: u8, l: int, n: int)
    requires
        0 <= s < lens.len(),
        0 <= n <= lens.len(),
    ensures
        huffman::count_len(lens.update(s, v), l, n) == huffman::count_len(lens, l, n) + (if s < n
            && v == l {
            1int
        } else {
            0int
        }) - (if s < n && lens[s] == l {
            1int
        } else {
            0int
        }),
    decreases n,
{
    if n > 0 {
        lemma_count_update(lens, s, v, l, n - 1);
    }
}

/// What `assign` does to an array in which the leaves of `t` have no length yet.
proof fn lemma_assign(t: Tree, d: int, lens: Seq<u8>)
    requires
        lens.len() == 256,
        0 <= d,
        d + height(t) <= 255,
        forall|s: int| #[trigger] leaf_count(t, s) <= 1,
        forall|s: int| 0 <= s < 256 && #[trigger] leaf_count(t, s) == 1 ==> lens[s] == 0,
    ensures
        assign(t, d, lens).len() == 256,
        forall|s: int|
            #![trigger assign(t, d, lens)[s]]
            0 <= s < 256 ==> (if leaf_count(t, s) == 1 {
                d <= assign(t, d, lens)[s] <= d + height(t) && (t is Node ==> assign(t, d, lens)[s]
                    > d)
            } else {
                assign(t, d, lens)[s] == lens[s]
            }),
        forall|k: int|
            1 <= k ==> #[trigger] huffman::count_len(assign(t, d, lens), k, 256)
                == huffman::count_len(lens, k, 256) + level_leaves(t, k - d),
    decreases t,
{
    match t {
        Tree::Leaf { symbol, .. } => {
            assert(leaf_count(t, symbol as int) == 1);
            assert forall|k: int| 1 <= k implies #[trigger] huffman::count_len(
                assign(t, d, lens),
                k,
                256,
            ) == huffman::count_len(lens, k, 256) + level_leaves(t, k - d) by {
                lemma_count_update(lens, symbol as int, d as u8, k, 256);
            }
        },
        Tree::Node { left, right, .. } => {
            assert forall|s: int| #[trigger] leaf_count(*left, s) <= 1 by {
                assert(leaf_count(t, s) <= 1);
            }
            assert forall|s: int| #[trigger] leaf_count(*right, s) <= 1 by {
                assert(leaf_count(t, s) <= 1);
            }
            assert forall|s: int| 0 <= s < 256 && #[trigger] leaf_count(*left, s) == 1 implies lens[s]
                == 0 by {
                assert(leaf_count(t, s) == 1);
            }
            lemma_assign(*left, d + 1, lens);
            let mid = assign(*left, d + 1, lens);
            assert forall|s: int| 0 <= s < 256 && #[trigger] leaf_count(*right, s) == 1 implies mid[s]
                == 0 by {
                assert(leaf_count(t, s) <= 1);
            }
            lemma_assign(*right, d + 1, mid);
            let out = assign(t, d, lens);
            assert forall|s: int|
                #![trigger out[s]]
                0 <= s < 256 implies (if leaf_count(t, s) == 1 {
                d < out[s] <= d + height(t)
            } else {
                out[s] == lens[s]
            }) by {
                assert(leaf_count(t, s) <= 1);
                let m = mid[s];
            }
            assert forall|k: int| 1 <= k implies #[trigger] huffman::count_len(out, k, 256)
                == huffman::count_len(lens, k, 256) + level_leaves(t, k - d) by {
                assert(huffman::count_len(mid, k, 256) == huffman::count_len(lens, k, 256)
                    + level_leaves(*left, k - (d + 1)));
                lemma_level_leaves_neg(*left, k - (d + 1));
                lemma_level_leaves_neg(*right, k - (d + 1));
                assert(k - d - 1 == k - (d + 1));
            }
        },
    }
}

proof fn lemma_level_leaves_neg(t: Tree, k: int)
    ensures
        k < 0 ==> level_leaves(t, k) == 0,
    decreases t,
{
    if k < 0 {
        match t {
            Tree::Leaf { .. } => {},
            Tree::Node { left, right, .. } => {
                lemma_level_leaves_neg(*left, k - 1);
                lemma_level_leaves_neg(*right, k - 1);
            },
        }
    }
}

/// Below a node of depth `k` stand two nodes or none: those of depth `k + 1` come in pairs.
proof fn lemma_level(t: Tree, k: int)
    requires
        0 <= k,
    ensures
        level(t, k + 1) % 2 == 0,
        level(t, k) == level_leaves(t, k) + level(t, k + 1) / 2,
        k > height(t) ==> level(t, k) == 0,
    decreases t,
{
    match t {
        Tree::Leaf { .. } => {},
        Tree::Node { left, right, .. } => {
            if k == 0 {
                lemma_level_root(*left);
                lemma_level_root(*right);
            } else {
                lemma_level(*left, k - 1);
                lemma_level(*right, k - 1);
            }
        },
    }
}

proof fn lemma_level_root(t: Tree)
    ensures
        level(t, 0) == 1,
{
}

/// The code space is used up exactly: the codes of each length, with the prefixes of the
/// longer ones, come in pairs, and there is one root.
pub open spec fn complete(lens: Seq<u8>, max_len: int) -> bool {
    &&& first_code_root(lens, max_len) == 1
    &&& forall|k: int|
        1 <= k <= max_len ==> #[trigger] nodes_at(lens, max_len, k) % 2 == 0
}

/// Number of codes of length `k` and of `k`-bit prefixes of longer codes.
pub open spec fn nodes_at(lens: Seq<u8>, max_len: int, k: int) -> nat {
    huffman::first_code(lens, max_len, k) + huffman::count_len(lens, k, 256)
}

/// Number of zero-bit prefixes.
pub open spec fn first_code_root(lens: Seq<u8>, max_len: int) -> nat {
    huffman::first_code(lens, max_len, 0)
}

proof fn lemma_nodes_at(t: Tree, lens: Seq<u8>, max_len: int, k: int)
    requires
        height(t) <= max_len,
        0 <= k <= max_len,
        forall|j: int|
            1 <= j ==> #[trigger] huffman::count_len(lens, j, 256) == level_leaves(t, j),
    ensures
        2 * huffman::first_code(lens, max_len, k) == level(t, k + 1),
        k >= 1 ==> nodes_at(lens, max_len, k) == level(t, k),
    decreases max_len - k,
{
    lemma_level(t, k);
    if k < max_len {
        lemma_nodes_at(t, lens, max_len, k + 1);
        lemma_level(t, k + 1);
    } else {
        lemma_level(t, k + 1);
    }
}

/// The Huffman code lengths of two or more symbols: exactly the occurring symbols have one,
/// and the code is complete.
pub proof fn lemma_huffman_lengths(freqs: Seq<u64>, max_len: int)
    requires
        leaves(freqs, 256).len() >= 2,
        forall|s: int| 0 <= s < 256 ==> huffman_lengths(freqs)[s] <= max_len,
    ensures
        huffman_lengths(freqs).len() == 256,
        forall|s: int| 0 <= s < 256 ==> (#[trigger] huffman_lengths(freqs)[s] > 0 <==> freqs[s] > 0),
        complete(huffman_lengths(freqs), max_len),
{
    let t = build(leaves(freqs, 256));
    let zero = huffman::no_lengths();
    lemma_build_leaves(freqs);
    lemma_assign(t, 0, zero);
    let lens = huffman_lengths(freqs);
    assert(t is Node) by {
        if t is Leaf {
            assert(size(t) == 1);
        }
    }
    assert forall|s: int| 0 <= s < 256 implies (#[trigger] lens[s] > 0 <==> freqs[s] > 0) by {
        let c = leaf_count(t, s);
    }
    assert forall|j: int| 1 <= j implies #[trigger] huffman::count_len(lens, j, 256)
        == level_leaves(t, j) by {
        lemma_count_zero(j, 256);
    }
    lemma_height_reached(t, 0, zero);
    assert(height(t) <= max_len);
    lemma_nodes_at(t, lens, max_len, 0);
    lemma_level(t, 0);
    assert(level(t, 1) == 2) by {
        match t {
            Tree::Leaf { .. } => {},
            Tree::Node { left, right, .. } => {
                lemma_level_root(*left);
                lemma_level_root(*right);
                assert(level(t, 1) == level(*left, 0) + level(*right, 0));
            },
        }
    }
    assert forall|k: int| 1 <= k <= max_len implies #[trigger] nodes_at(lens, max_len, k) % 2
        == 0 by {
        lemma_nodes_at(t, lens, max_len, k);
        lemma_level(t, k - 1);
    }
}

/// No code is longer than the tree is high.
pub proof fn lemma_lengths_height(freqs: Seq<u64>)
    requires
        leaves(freqs, 256).len() >= 2,
    ensures
        forall|s: int|
            0 <= s < 256 ==> #[trigger] huffman_lengths(freqs)[s] <= height(
                build(leaves(freqs, 256)),
            ),
{
    let t = build(leaves(freqs, 256));
    lemma_build_leaves(freqs);
    lemma_assign(t, 0, huffman::no_lengths());
}

proof fn lemma_count_zero(l: int, n: int)
    requires
        1 <= l,
        n <= 256,
    ensures
        huffman::count_len(huffman::no_lengths(), l, n) == 0,
    decreases n,
{
    if n > 0 {
        lemma_count_zero(l, n - 1);
    }
}

/// Some symbol is entered at the full height.
proof fn lemma_height_reached(t: Tree, d: int, lens: Seq<u8>)
    requires
        lens.len() == 256,
        0 <= d,
        d + height(t) <= 255,
        forall|s: int| #[trigger] leaf_count(t, s) <= 1,
        forall|s: int| 0 <= s < 256 && #[trigger] leaf_count(t, s) == 1 ==> lens[s] == 0,
    ensures
        exists|s: int|
            0 <= s < 256 && leaf_count(t, s) == 1 && #[trigger] assign(t, d, lens)[s] == d + height(
                t,
            ),
    decreases t,
{
    match t {
        Tree::Leaf { symbol, .. } => {
            assert(leaf_count(t, symbol as int) == 1);
            assert(assign(t, d, lens)[symbol as int] == d);
        },
        Tree::Node { left, right, .. } => {
            assert forall|s: int| #[trigger] leaf_count(*left, s) <= 1 by {
                assert(leaf_count(t, s) <= 1);
            }
            assert forall|s: int| #[trigger] leaf_count(*right, s) <= 1 by {
                assert(leaf_count(t, s) <= 1);
            }
            assert forall|s: int| 0 <= s < 256 && #[trigger] leaf_count(*left, s) == 1 implies lens[s]
                == 0 by {
                assert(leaf_count(t, s) == 1);
            }
            lemma_assign(*left, d + 1, lens);
            let mid = assign(*left, d + 1, lens);
            assert forall|s: int| 0 <= s < 256 && #[trigger] leaf_count(*right, s) == 1 implies mid[s]
                == 0 by {
                assert(leaf_count(t, s) <= 1);
            }
            lemma_assign(*right, d + 1, mid);
            let out = assign(t, d, lens);
            if height(*left) > height(*right) {
                lemma_height_reached(*left, d + 1, lens);
                let s = choose|s: int|
                    0 <= s < 256 && leaf_count(*left, s) == 1 && #[trigger] mid[s] == d + 1
                        + height(*left);
                assert(leaf_count(t, s) <= 1);
                assert(out[s] == mid[s]);
            } else {
                lemma_height_reached(*right, d + 1, mid);
                let s = choose|s: int|
                    0 <= s < 256 && leaf_count(*right, s) == 1 && #[trigger] out[s] == d + 1
                        + height(*right);
                assert(leaf_count(t, s) <= 1);
            }
        },
    }
}

impl Tree {
    fn freq(&self) -> (f: u64)
        ensures
            f == tree_freq(*self),
    {
        match self {
            Tree::Leaf { freq, .. } => *freq,
            Tree::Node { freq, .. } => *freq,
        }
    }

    fn key(&self) -> (k: i32)
        ensures
            k == tree_key(*self),
    {
        match self {
            Tree::Leaf { symbol, .. } => *symbol as i32,
            Tree::Node { .. } => -1,
        }
    }

    fn merges_before(&self, other: &Tree) -> (r: bool)
        ensures
            r == precedes(*self, *other),
    {
        self.freq() < other.freq() || (self.freq() == other.freq() && self.key() < other.key())
    }

    /// Enter the depth of every leaf.
    pub fn walk(&self, depth: u8, lengths: &mut [u8; MAX_SYMBOLS])
        requires
            depth + height(*self) <= 255,
        ensures
            final(lengths)@ == assign(*self, depth as int, old(lengths)@),
        decreases self,
    {
        match self {
            Tree::Leaf { symbol, .. } => {
                lengths[*symbol as usize] = depth;
            },
            Tree::Node { left, right, .. } => {
                left.walk(depth + 1, lengths);
                right.walk(depth + 1, lengths);
            },
        }
    }
}

/// One leaf for each symbol that occurs.
pub fn make_leaves(freqs: &[u64; MAX_SYMBOLS]) -> (nodes: Vec<Tree>)
    ensures
        nodes@ == leaves(freqs@, 256),
{
    let mut nodes: Vec<Tree> = Vec::new();
    let mut s: usize = 0;
    assert(nodes@ =~= leaves(freqs@, 0));
    while s < MAX_SYMBOLS
        invariant
            s <= 256,
            nodes@ == leaves(freqs@, s as int),
        decreases 256 - s,
    {
        if freqs[s] > 0 {
            nodes.push(Tree::Leaf { freq: freqs[s], symbol: s as u8 });
        }
        s = s + 1;
    }
    nodes
}

/// The indices of the two trees that are merged next.
fn pick(nodes: &Vec<Tree>) -> (r: (usize, usize))
    requires
        nodes@.len() >= 2,
    ensures
        (r.0 as int, r.1 as int) == select(nodes@),
        r.0 < nodes@.len(),
        r.1 < nodes@.len(),
        r.0 != r.1,
{
    proof {
        lemma_select_range(nodes@);
    }
    let mut first: usize = 0;
    let mut second: usize = 1;
    if nodes[0].freq() > nodes[1].freq() {
        first = 1;
        second = 0;
    }
    let mut i: usize = 2;
    while i < nodes.len()
        invariant
            2 <= i <= nodes@.len(),
            first < i,
            second < i,
            select(nodes@) == scan(nodes@, i as int, first as int, second as int),
        decreases nodes@.len() - i,
    {
        if nodes[i].merges_before(&nodes[first]) {
            second = first;
            first = i;
        } else if nodes[i].merges_before(&nodes[second]) {
            second = i;
        }
        i = i + 1;
    }
    (first, second)
}

proof fn lemma_sum_part(nodes: Seq<Tree>, a: int, b: int)
    requires
        0 <= a < b < nodes.len(),
    ensures
        tree_freq(nodes[a]) + tree_freq(nodes[b]) <= forest_sum(
            nodes,
            |t: Tree| tree_freq(t) as nat,
        ),
{
    let f = |t: Tree| tree_freq(t) as nat;
    lemma_sum_remove(nodes, b, f);
    lemma_sum_remove(nodes.remove(b), a, f);
    assert(nodes.remove(b)[a] == nodes[a]);
    assert(f(nodes[a]) == tree_freq(nodes[a]));
    assert(f(nodes[b]) == tree_freq(nodes[b]));
}

/// Merge until one tree is left.
pub fn build_tree(start: Vec<Tree>) -> (t: Tree)
    requires
        start@.len() >= 1,
        forest_sum(start@, |t: Tree| tree_freq(t) as nat) <= u64::MAX,
    ensures
        t == build(start@),
{
    let ghost f = |t: Tree| tree_freq(t) as nat;
    let mut nodes: Vec<Tree> = start;
    while nodes.len() > 1
        invariant
            nodes@.len() >= 1,
            f == (|t: Tree| tree_freq(t) as nat),
            forest_sum(nodes@, f) <= u64::MAX,
            build(nodes@) == build(start@),
        decreases nodes@.len(),
    {
        let ghost before = nodes@;
        let (a, b) = pick(&nodes);
        let lo: usize = if a < b {
            a
        } else {
            b
        };
        let hi: usize = if a < b {
            b
        } else {
            a
        };
        proof {
            lemma_sum_part(before, lo as int, hi as int);
            lemma_sum_remove(before, hi as int, f);
            lemma_sum_remove(before.remove(hi as int), lo as int, f);
        }
        let right = nodes.remove(hi);
        let left = nodes.remove(lo);
        let freq: u64 = left.freq() + right.freq();
        let ghost rest = nodes@;
        nodes.push(Tree::Node { freq, left: Box::new(left), right: Box::new(right) });
        proof {
            assert(nodes@ =~= merge(before));
            assert(nodes@.drop_last() =~= rest);
            assert(nodes@.last() == join(before[lo as int], before[hi as int]));
            assert(f(nodes@.last()) == f(before[lo as int]) + f(before[hi as int]));
        }
    }
    nodes.remove(0)
}

pub proof fn lemma_leaves_freq(freqs: Seq<u64>, n: int)
    requires
        0 <= n <= 256,
    ensures
        forest_sum(leaves(freqs, n), |t: Tree| tree_freq(t) as nat) == freq_sum(freqs, n),
    decreases n,
{
    let f = |t: Tree| tree_freq(t) as nat;
    if n > 0 {
        lemma_leaves_freq(freqs, n - 1);
        if freqs[n - 1] > 0 {
            assert(leaves(freqs, n).drop_last() =~= leaves(freqs, n - 1));
            assert(f(leaves(freqs, n).last()) == freqs[n - 1]);
        }
    }
}

/// There is a leaf exactly if some symbol occurs.
pub proof fn lemma_leaves_present(freqs: Seq<u64>, n: int)
    requires
        0 <= n <= 256,
    ensures
        leaves(freqs, n).len() == 0 <==> (forall|s: int| 0 <= s < n ==> freqs[s] == 0),
        leaves(freqs, n).len() > 0 ==> exists|s: int| 0 <= s < n && #[trigger] freqs[s] > 0,
        forall|i: int| 0 <= i < leaves(freqs, n).len() ==> #[trigger] leaves(freqs, n)[i] is Leaf,
    decreases n,
{
    if n > 0 {
        lemma_leaves_present(freqs, n - 1);
        lemma_leaves(freqs, n);
        if freqs[n - 1] == 0 && leaves(freqs, n).len() > 0 {
            let s = choose|s: int| 0 <= s < n - 1 && #[trigger] freqs[s] > 0;
            assert(0 <= s < n && freqs[s] > 0);
        }
    }
}

/// A lone leaf is that of the lone symbol that occurs.
pub proof fn lemma_leaves_single(freqs: Seq<u64>, n: int)
    requires
        0 <= n <= 256,
        leaves(freqs, n).len() == 1,
    ensures
        leaves(freqs, n)[0] is Leaf,
        leaves(freqs, n)[0]->Leaf_symbol < n,
        forall|s: int|
            0 <= s < n ==> (#[trigger] freqs[s] > 0 <==> s == leaves(freqs, n)[0]->Leaf_symbol),
    decreases n,
{
    if n > 0 {
        if freqs[n - 1] == 0 {
            lemma_leaves_single(freqs, n - 1);
        } else {
            lemma_leaves_present(freqs, n - 1);
        }
    }
}

} // verus!
