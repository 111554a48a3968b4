//! How long Huffman codes can be: a tree of height h needs at least Fibonacci(h + 2) symbols.
use crate::entropy::huffman;
use crate::entropy::rle;
use crate::entropy::roundtrip;
use crate::entropy::tree;
use crate::entropy::tree::Tree;
use vstd::prelude::*;

verus! {

/// The Fibonacci numbers: 0, 1, 1, 2, 3, 5, ...
pub open spec fn fibonacci(n: int) -> nat
    decreases n,
{
    if n <= 0 {
        0
    } else if n == 1 {
        1
    } else {
        fibonacci(n - 1) + fibonacci(n - 2)
    }
}

/// A number of symbols below which no code is longer than 31 bits: Fibonacci(34).
pub const SHORT_CODES: u64 = 5_702_887;

proof fn lemma_fibonacci_34()
    ensures
        fibonacci(34) == SHORT_CODES,
{
    assert(fibonacci(0) == 0 && fibonacci(1) == 1);
    assert(fibonacci(2) == 1);
    assert(fibonacci(3) == 2);
    assert(fibonacci(4) == 3);
    assert(fibonacci(5) == 5);
    assert(fibonacci(6) == 8);
    assert(fibonacci(7) == 13);
    assert(fibonacci(8) == 21);
    assert(fibonacci(9) == 34);
    assert(fibonacci(10) == 55);
    assert(fibonacci(11) == 89);
    assert(fibonacci(12) == 144);
    assert(fibonacci(13) == 233);
    assert(fibonacci(14) == 377);
    assert(fibonacci(15) == 610);
    assert(fibonacci(16) == 987);
    assert(fibonacci(17) == 1597);
    assert(fibonacci(18) == 2584);
    assert(fibonacci(19) == 4181);
    assert(fibonacci(20) == 6765);
    assert(fibonacci(21) == 10946);
    assert(fibonacci(22) == 17711);
    assert(fibonacci(23) == 28657);
    assert(fibonacci(24) == 46368);
    assert(fibonacci(25) == 75025);
    assert(fibonacci(26) == 121393);
    assert(fibonacci(27) == 196418);
    assert(fibonacci(28) == 317811);
    assert(fibonacci(29) == 514229);
    assert(fibonacci(30) == 832040);
    assert(fibonacci(31) == 1346269);
    assert(fibonacci(32) == 2178309);
    assert(fibonacci(33) == 3524578);
}

proof fn lemma_fibonacci_grows(i: int, k: int)
    requires
        0 <= i <= k,
    ensures
        fibonacci(i) <= fibonacci(k),
    decreases k,
{
    if i < k {
        lemma_fibonacci_grows(i, k - 1);
    }
}

/// How often the leaves of a tree occur together.
spec fn weight(t: Tree) -> nat
    decreases t,
{
    match t {
        Tree::Leaf { freq, .. } => freq as nat,
        Tree::Node { left, right, .. } => weight(*left) + weight(*right),
    }
}

/// The frequency of the heavier subtree.
spec fn heavier(t: Tree) -> nat {
    match t {
        Tree::Leaf { .. } => 0,
        Tree::Node { left, right, .. } => if tree::tree_freq(*left) > tree::tree_freq(*right) {
            tree::tree_freq(*left) as nat
        } else {
            tree::tree_freq(*right) as nat
        },
    }
}

/// A tree as heavy as its height asks for.
spec fn heavy_enough(t: Tree) -> bool {
    let h = tree::height(t) as int;
    &&& tree::tree_freq(t) == weight(t)
    &&& weight(t) >= fibonacci(h + 2)
    &&& t is Node ==> heavier(t) >= fibonacci(h + 1)
}

/// Trees on their way to a Huffman tree: none is lighter than a subtree of another.
spec fn growing(nodes: Seq<Tree>) -> bool {
    &&& forall|i: int| 0 <= i < nodes.len() ==> heavy_enough(#[trigger] nodes[i])
    &&& forall|i: int, j: int|
        0 <= i < nodes.len() && 0 <= j < nodes.len() && i != j ==> tree::tree_freq(
            #[trigger] nodes[i],
        ) >= heavier(#[trigger] nodes[j])
}

/// The pass keeps the two lightest trees.
proof fn lemma_scan_lightest(nodes: Seq<Tree>, i: int, first: int, second: int, k: int)
    requires
        0 <= first < i,
        0 <= second < i,
        first != second,
        i <= nodes.len(),
        tree::tree_freq(nodes[first]) <= tree::tree_freq(nodes[second]),
        forall|j: int|
            0 <= j < i && j != first && j != second ==> tree::tree_freq(#[trigger] nodes[j])
                >= tree::tree_freq(nodes[second]),
        0 <= k < nodes.len(),
        k != tree::scan(nodes, i, first, second).0,
        k != tree::scan(nodes, i, first, second).1,
    ensures
        ({
            let (a, b) = tree::scan(nodes, i, first, second);
            &&& tree::tree_freq(nodes[a]) <= tree::tree_freq(nodes[b])
            &&& tree::tree_freq(nodes[b]) <= tree::tree_freq(nodes[k])
        }),
    decreases nodes.len() - i,
{
    if i < nodes.len() {
        if tree::precedes(nodes[i], nodes[first]) {
            lemma_scan_lightest(nodes, i + 1, i, first, k);
        } else if tree::precedes(nodes[i], nodes[second]) {
            lemma_scan_lightest(nodes, i + 1, first, i, k);
        } else {
            lemma_scan_lightest(nodes, i + 1, first, second, k);
        }
    }
}

/// No tree that stays is lighter than one that is merged.
proof fn lemma_select_lightest(nodes: Seq<Tree>, k: int)
    requires
        nodes.len() >= 2,
        0 <= k < nodes.len(),
        k != tree::select(nodes).0,
        k != tree::select(nodes).1,
    ensures
        tree::tree_freq(nodes[tree::select(nodes).0]) <= tree::tree_freq(nodes[k]),
        tree::tree_freq(nodes[tree::select(nodes).1]) <= tree::tree_freq(nodes[k]),
{
    if tree::tree_freq(nodes[0]) > tree::tree_freq(nodes[1]) {
        lemma_scan_lightest(nodes, 2, 1, 0, k);
    } else {
        lemma_scan_lightest(nodes, 2, 0, 1, k);
    }
}

/// A tree over two others, neither of them lighter than a subtree of the other.
proof fn lemma_join(left: Tree, right: Tree)
    requires
        heavy_enough(left),
        heavy_enough(right),
        tree::tree_freq(left) >= heavier(right),
        tree::tree_freq(right) >= heavier(left),
        weight(left) + weight(right) <= u64::MAX,
    ensures
        heavy_enough(tree::join(left, right)),
        heavier(tree::join(left, right)) == (if tree::tree_freq(left) > tree::tree_freq(right) {
            tree::tree_freq(left)
        } else {
            tree::tree_freq(right)
        }),
{
    let t = tree::join(left, right);
    let hl = tree::height(left) as int;
    let hr = tree::height(right) as int;
    let h = tree::height(t) as int;
    assert(fibonacci(h + 2) == fibonacci(h + 1) + fibonacci(h));
    if hl >= hr {
        assert(h == hl + 1);
        if left is Leaf {
            assert(fibonacci(1) == 1);
            lemma_fibonacci_grows(1, hr + 2);
        }
    } else {
        assert(h == hr + 1);
        assert(right is Node);
    }
}

/// Where a tree stood before the trees at `lo` and `hi` left.
spec fn place(lo: int, hi: int, i: int) -> int {
    if i < lo {
        i
    } else if i + 1 < hi {
        i + 1
    } else {
        i + 2
    }
}

/// The lower and the higher place of the trees that are merged next.
spec fn merged(nodes: Seq<Tree>) -> (int, int) {
    let (a, b) = tree::select(nodes);
    if a < b {
        (a, b)
    } else {
        (b, a)
    }
}

/// The trees after a merge: those that stay, and the tree over the other two.
proof fn lemma_merge_at(nodes: Seq<Tree>)
    requires
        nodes.len() >= 2,
    ensures
        ({
            let (lo, hi) = merged(nodes);
            let m = tree::merge(nodes);
            &&& 0 <= lo < hi < nodes.len()
            &&& m.len() == nodes.len() - 1
            &&& m[m.len() - 1] == tree::join(nodes[lo], nodes[hi])
            &&& forall|i: int| 0 <= i < m.len() - 1 ==> #[trigger] m[i] == nodes[place(lo, hi, i)]
        }),
{
    tree::lemma_select_range(nodes);
    let (lo, hi) = merged(nodes);
    let m = tree::merge(nodes);
    assert forall|i: int| 0 <= i < m.len() - 1 implies #[trigger] m[i] == nodes[place(
        lo,
        hi,
        i,
    )] by {
        assert(m[i] == nodes.remove(hi).remove(lo)[i]);
    }
}

/// The two lightest trees of a growing forest can be joined.
proof fn lemma_merged_join(nodes: Seq<Tree>)
    requires
        nodes.len() >= 2,
        growing(nodes),
        tree::forest_sum(nodes, |t: Tree| weight(t)) <= u64::MAX,
    ensures
        ({
            let (lo, hi) = merged(nodes);
            let t = tree::join(nodes[lo], nodes[hi]);
            &&& heavy_enough(t)
            &&& tree::tree_freq(t) >= tree::tree_freq(nodes[lo])
            &&& heavier(t) == (if tree::tree_freq(nodes[lo]) > tree::tree_freq(nodes[hi]) {
                tree::tree_freq(nodes[lo])
            } else {
                tree::tree_freq(nodes[hi])
            })
        }),
{
    let f = |t: Tree| weight(t);
    tree::lemma_select_range(nodes);
    let (lo, hi) = merged(nodes);
    tree::lemma_sum_remove(nodes, hi, f);
    tree::lemma_sum_remove(nodes.remove(hi), lo, f);
    assert(nodes.remove(hi)[lo] == nodes[lo]);
    assert(weight(nodes[lo]) + weight(nodes[hi]) <= u64::MAX) by {
        assert(f(nodes[lo]) == weight(nodes[lo]) && f(nodes[hi]) == weight(nodes[hi]));
    }
    assert(heavy_enough(nodes[lo]) && heavy_enough(nodes[hi]));
    lemma_join(nodes[lo], nodes[hi]);
}

proof fn lemma_merge_growing(nodes: Seq<Tree>)
    requires
        nodes.len() >= 2,
        growing(nodes),
        tree::forest_sum(nodes, |t: Tree| weight(t)) <= u64::MAX,
    ensures
        growing(tree::merge(nodes)),
{
    lemma_merge_at(nodes);
    lemma_merged_join(nodes);
    let (lo, hi) = merged(nodes);
    let m = tree::merge(nodes);
    let last = m.len() - 1;
    assert forall|i: int| 0 <= i < m.len() implies heavy_enough(#[trigger] m[i]) by {
        if i < last {
            assert(heavy_enough(nodes[place(lo, hi, i)]));
        }
    }
    assert forall|i: int, j: int|
        0 <= i < m.len() && 0 <= j < m.len() && i != j implies tree::tree_freq(#[trigger] m[i])
        >= heavier(#[trigger] m[j]) by {
        if i < last && j < last {
            let a = nodes[place(lo, hi, i)];
            let b = nodes[place(lo, hi, j)];
            assert(tree::tree_freq(a) >= heavier(b));
        } else if i < last {
            lemma_select_lightest(nodes, place(lo, hi, i));
        } else {
            assert(tree::tree_freq(nodes[lo]) >= heavier(nodes[place(lo, hi, j)]));
        }
    }
}

proof fn lemma_build_heavy(nodes: Seq<Tree>)
    requires
        nodes.len() >= 1,
        growing(nodes),
        tree::forest_sum(nodes, |t: Tree| weight(t)) <= u64::MAX,
    ensures
        heavy_enough(tree::build(nodes)),
        weight(tree::build(nodes)) == tree::forest_sum(nodes, |t: Tree| weight(t)),
    decreases nodes.len(),
{
    let f = |t: Tree| weight(t);
    if nodes.len() >= 2 {
        assert forall|l: Tree, r: Tree| #[trigger] f(tree::join(l, r)) == f(l) + f(r) by {
            assert(f(tree::join(l, r)) == weight(tree::join(l, r)));
        }
        tree::lemma_merge_len(nodes);
        tree::lemma_sum_merge(nodes, f);
        lemma_merge_growing(nodes);
        lemma_build_heavy(tree::merge(nodes));
    } else {
        assert(nodes.drop_last() =~= Seq::empty());
        assert(tree::forest_sum(nodes.drop_last(), f) == 0);
        assert(f(nodes.last()) == weight(nodes[0]));
    }
}

proof fn lemma_leaves_growing(freqs: Seq<u64>, n: int)
    requires
        0 <= n <= 256,
    ensures
        growing(tree::leaves(freqs, n)),
        forall|i: int|
            0 <= i < tree::leaves(freqs, n).len() ==> #[trigger] tree::leaves(freqs, n)[i] is Leaf,
        tree::forest_sum(tree::leaves(freqs, n), |t: Tree| weight(t)) == tree::freq_sum(freqs, n),
    decreases n,
{
    let f = |t: Tree| weight(t);
    assert(fibonacci(2) == 1) by {
        assert(fibonacci(1) == 1 && fibonacci(0) == 0);
    }
    if n > 0 {
        lemma_leaves_growing(freqs, n - 1);
        let before = tree::leaves(freqs, n - 1);
        if freqs[n - 1] > 0 {
            let all = tree::leaves(freqs, n);
            assert(all.drop_last() =~= before);
            assert(f(all.last()) == freqs[n - 1]);
            assert(heavy_enough(all.last()));
            assert forall|i: int| 0 <= i < all.len() implies heavy_enough(#[trigger] all[i]) by {
                if i < before.len() {
                    assert(all[i] == before[i]);
                }
            }
            assert forall|i: int| 0 <= i < all.len() implies #[trigger] all[i] is Leaf by {
                if i < before.len() {
                    assert(all[i] == before[i]);
                }
            }
        }
    }
}

/// A Huffman tree of height h is made of at least Fibonacci(h + 2) symbols.
pub proof fn law_tree_height(freqs: Seq<u64>)
    requires
        tree::leaves(freqs, 256).len() >= 1,
        tree::freq_sum(freqs, 256) <= u64::MAX,
    ensures
        fibonacci(tree::height(tree::build(tree::leaves(freqs, 256))) as int + 2)
            <= tree::freq_sum(freqs, 256),
{
    lemma_leaves_growing(freqs, 256);
    lemma_build_heavy(tree::leaves(freqs, 256));
}

/// The codes for fewer than `SHORT_CODES` symbols fit a table header.
pub proof fn law_short_codes(freqs: Seq<u64>)
    requires
        tree::freq_sum(freqs, 256) < SHORT_CODES,
        tree::leaves(freqs, 256).len() >= 2,
    ensures
        forall|s: int| 0 <= s < 256 ==> #[trigger] tree::huffman_lengths(freqs)[s] <= 31,
{
    law_tree_height(freqs);
    lemma_fibonacci_34();
    let h = tree::height(tree::build(tree::leaves(freqs, 256))) as int;
    if h >= 32 {
        lemma_fibonacci_grows(34, h + 2);
    }
    tree::lemma_lengths_height(freqs);
}

/// The table of a context with fewer than `SHORT_CODES` symbols fits its header.
pub proof fn lemma_context_fits(seq: Seq<(usize, u8)>, ctx: usize)
    requires
        rle::context_bytes(seq, ctx).len() < SHORT_CODES,
    ensures
        rle::context_table(seq, ctx).max_len <= 31,
{
    let bytes = rle::context_bytes(seq, ctx);
    let freqs = rle::symbol_freqs(bytes);
    roundtrip::lemma_context_table(seq, ctx);
    rle::lemma_symbol_freqs_sum(bytes);
    if tree::leaves(freqs, 256).len() >= 2 {
        law_short_codes(freqs);
    }
}

/// Whether a node of a frequency stands on a level of a tree.
spec fn at_level(t: Tree, k: int, v: int) -> bool
    decreases t,
{
    if k == 0 {
        tree::tree_freq(t) == v
    } else {
        match t {
            Tree::Leaf { .. } => false,
            Tree::Node { left, right, .. } => k > 0 && (at_level(*left, k - 1, v) || at_level(
                *right,
                k - 1,
                v,
            )),
        }
    }
}

/// No node on a level of a tree is lighter than one on a level of another.
#[verifier::opaque]
spec fn over(a: Tree, k: int, b: Tree, m: int) -> bool {
    forall|p: int, q: int| #[trigger] at_level(a, k, p) && #[trigger] at_level(b, m, q) ==> p >= q
}

/// Every node of a tree has the frequency of what stands below it.
spec fn adds_up(t: Tree) -> bool
    decreases t,
{
    match t {
        Tree::Leaf { .. } => true,
        Tree::Node { freq, left, right } => {
            &&& freq == tree::tree_freq(*left) + tree::tree_freq(*right)
            &&& adds_up(*left)
            &&& adds_up(*right)
        },
    }
}

/// A forest in which no level of a tree is over the level above it in any tree, and in which the
/// levels of a tree are not under those of a lighter tree.
spec fn ranked(nodes: Seq<Tree>) -> bool {
    &&& forall|i: int| 0 <= i < nodes.len() ==> adds_up(#[trigger] nodes[i])
    &&& forall|i: int, j: int, k: int|
        0 <= i < nodes.len() && 0 <= j < nodes.len() && k >= 0 ==> #[trigger] over(
            nodes[i],
            k,
            nodes[j],
            k + 1,
        )
    &&& forall|i: int, j: int, k: int|
        0 <= i < nodes.len() && 0 <= j < nodes.len() && i != j && k >= 0 && tree::tree_freq(
            nodes[i],
        ) >= tree::tree_freq(nodes[j]) ==> #[trigger] over(nodes[i], k, nodes[j], k)
}

/// The other node of a pair, and the node above it.
proof fn lemma_pair(t: Tree, k: int, e: int) -> (pair: (int, int))
    requires
        adds_up(t),
        k >= 0,
        at_level(t, k + 1, e),
    ensures
        at_level(t, k + 1, pair.0),
        at_level(t, k, pair.1),
        e + pair.0 == pair.1,
        pair.0 >= 0,
    decreases t,
{
    match t {
        Tree::Leaf { .. } => (0, 0),
        Tree::Node { left, right, .. } => {
            if k == 0 {
                let l = tree::tree_freq(*left) as int;
                let r = tree::tree_freq(*right) as int;
                assert(at_level(*left, 0, l) && at_level(*right, 0, r));
                assert(at_level(*left, 0, e) == (e == l) && at_level(*right, 0, e) == (e == r));
                if e == l {
                    (r, l + r)
                } else {
                    (l, l + r)
                }
            } else if at_level(*left, k, e) {
                lemma_pair(*left, k - 1, e)
            } else {
                lemma_pair(*right, k - 1, e)
            }
        },
    }
}

/// The levels of a tree over two others.
proof fn lemma_joined_levels(x: Tree, y: Tree, k: int, v: int)
    requires
        k >= 0,
    ensures
        at_level(tree::join(x, y), k + 1, v) == (at_level(x, k, v) || at_level(y, k, v)),
        at_level(tree::join(x, y), 0, v) == (v == tree::tree_freq(tree::join(x, y))),
{
}

/// A tree that is no lighter than another has no lighter levels, where those of the other are
/// not lighter than its own.
proof fn lemma_dominates(i: Tree, z: Tree, k: int)
    requires
        adds_up(i),
        adds_up(z),
        tree::tree_freq(i) >= tree::tree_freq(z),
        forall|m: int| m >= 1 ==> #[trigger] over(z, m, i, m),
        k >= 0,
    ensures
        over(i, k, z, k),
    decreases k,
{
    if k > 0 {
        lemma_dominates(i, z, k - 1);
        assert(over(z, k, i, k));
    }
    reveal(over);
    if k > 0 {
        assert forall|p: int, q: int| #[trigger]
            at_level(i, k, p) && #[trigger] at_level(z, k, q) implies p >= q by {
            let (f, up) = lemma_pair(i, k - 1, p);
            let (d, top) = lemma_pair(z, k - 1, q);
            assert(up >= top);
            assert(q >= p && q >= f && d >= p && d >= f);
        }
    }
}

/// What holds of a tree over the two lightest trees, against another tree.
proof fn lemma_joined_ranks(x: Tree, y: Tree, i: Tree, k: int)
    requires
        adds_up(tree::join(x, y)),
        adds_up(i),
        forall|m: int| m >= 0 ==> #[trigger] over(i, m, x, m),
        forall|m: int| m >= 0 ==> #[trigger] over(i, m, y, m),
        forall|m: int| m >= 0 ==> #[trigger] over(x, m, i, m + 1),
        forall|m: int| m >= 0 ==> #[trigger] over(y, m, i, m + 1),
        k >= 0,
    ensures
        over(i, k, tree::join(x, y), k + 1),
        over(tree::join(x, y), k, i, k + 1),
        k >= 1 ==> over(tree::join(x, y), k, i, k),
{
    let z = tree::join(x, y);
    assert(over(i, k, x, k) && over(i, k, y, k));
    assert(over(x, 0, i, 0int + 1));
    if k >= 1 {
        assert(over(x, k - 1, i, k - 1 + 1) && over(y, k - 1, i, k - 1 + 1));
    }
    reveal(over);
    assert forall|p: int, q: int| #[trigger] at_level(i, k, p) && #[trigger] at_level(
        z,
        k + 1,
        q,
    ) implies p >= q by {
        lemma_joined_levels(x, y, k, q);
    }
    assert forall|p: int, q: int| #[trigger] at_level(z, k, p) && #[trigger] at_level(
        i,
        k + 1,
        q,
    ) implies p >= q by {
        let (f, up) = lemma_pair(i, k, q);
        if k == 0 {
            assert(at_level(x, 0, tree::tree_freq(x) as int));
        } else {
            lemma_joined_levels(x, y, k - 1, p);
        }
    }
    if k >= 1 {
        assert forall|p: int, q: int| #[trigger] at_level(z, k, p) && #[trigger] at_level(
            i,
            k,
            q,
        ) implies p >= q by {
            lemma_joined_levels(x, y, k - 1, p);
        }
    }
}

/// What holds of a tree over two others by itself.
proof fn lemma_joined_rank(x: Tree, y: Tree, k: int)
    requires
        adds_up(tree::join(x, y)),
        forall|m: int| m >= 0 ==> #[trigger] over(x, m, x, m + 1),
        forall|m: int| m >= 0 ==> #[trigger] over(x, m, y, m + 1),
        forall|m: int| m >= 0 ==> #[trigger] over(y, m, x, m + 1),
        forall|m: int| m >= 0 ==> #[trigger] over(y, m, y, m + 1),
        k >= 0,
    ensures
        over(tree::join(x, y), k, tree::join(x, y), k + 1),
{
    let z = tree::join(x, y);
    if k >= 1 {
        assert(over(x, k - 1, x, k - 1 + 1) && over(x, k - 1, y, k - 1 + 1));
        assert(over(y, k - 1, x, k - 1 + 1) && over(y, k - 1, y, k - 1 + 1));
    }
    reveal(over);
    assert forall|p: int, q: int| #[trigger] at_level(z, k, p) && #[trigger] at_level(
        z,
        k + 1,
        q,
    ) implies p >= q by {
        lemma_joined_levels(x, y, k, q);
        if k >= 1 {
            lemma_joined_levels(x, y, k - 1, p);
        }
    }
}

/// A merge keeps a forest ranked.
proof fn lemma_merge_ranked(nodes: Seq<Tree>)
    requires
        nodes.len() >= 2,
        growing(nodes),
        ranked(nodes),
        tree::forest_sum(nodes, |t: Tree| weight(t)) <= u64::MAX,
    ensures
        ranked(tree::merge(nodes)),
{
    lemma_merge_at(nodes);
    lemma_merged_join(nodes);
    let (lo, hi) = merged(nodes);
    let m = tree::merge(nodes);
    let last = m.len() - 1;
    let x = nodes[lo];
    let y = nodes[hi];
    let z = tree::join(x, y);
    assert(heavy_enough(x) && heavy_enough(y) && heavy_enough(z));
    assert(adds_up(x) && adds_up(y));
    assert(adds_up(z));
    assert forall|k: int| k >= 0 implies #[trigger] over(z, k, z, k + 1) by {
        lemma_joined_rank(x, y, k);
    }
    assert forall|i: int, k: int| 0 <= i < last && k >= 0 implies {
        &&& #[trigger] over(m[i], k, z, k + 1)
        &&& over(z, k, m[i], k + 1)
        &&& k >= 1 ==> over(z, k, m[i], k)
    } by {
        let c = place(lo, hi, i);
        lemma_select_lightest(nodes, c);
        assert(m[i] == nodes[c]);
        lemma_joined_ranks(x, y, nodes[c], k);
    }
    assert forall|i: int| 0 <= i < m.len() implies adds_up(#[trigger] m[i]) by {
        if i < last {
            assert(m[i] == nodes[place(lo, hi, i)]);
        }
    }
    assert forall|i: int, j: int, k: int|
        0 <= i < m.len() && 0 <= j < m.len() && k >= 0 implies #[trigger] over(
        m[i],
        k,
        m[j],
        k + 1,
    ) by {
        if i < last && j < last {
            assert(m[i] == nodes[place(lo, hi, i)] && m[j] == nodes[place(lo, hi, j)]);
            assert(over(nodes[place(lo, hi, i)], k, nodes[place(lo, hi, j)], k + 1));
        } else if i < last {
            assert(over(m[i], k, z, k + 1));
        } else if j < last {
            assert(over(m[j], k, z, k + 1));
        }
    }
    assert forall|i: int, j: int, k: int|
        0 <= i < m.len() && 0 <= j < m.len() && i != j && k >= 0 && tree::tree_freq(m[i])
            >= tree::tree_freq(m[j]) implies #[trigger] over(m[i], k, m[j], k) by {
        if i < last && j < last {
            assert(m[i] == nodes[place(lo, hi, i)] && m[j] == nodes[place(lo, hi, j)]);
            assert(over(nodes[place(lo, hi, i)], k, nodes[place(lo, hi, j)], k));
        } else if i < last {
            assert forall|q: int| q >= 1 implies #[trigger] over(z, q, m[i], q) by {
                assert(over(m[i], q, z, q + 1));
            }
            lemma_dominates(m[i], z, k);
        } else {
            if k == 0 {
                reveal(over);
            } else {
                assert(over(m[j], k, z, k + 1));
            }
        }
    }
}

proof fn lemma_build_ranked(nodes: Seq<Tree>)
    requires
        nodes.len() >= 1,
        growing(nodes),
        ranked(nodes),
        tree::forest_sum(nodes, |t: Tree| weight(t)) <= u64::MAX,
    ensures
        ranked(seq![tree::build(nodes)]),
    decreases nodes.len(),
{
    let f = |t: Tree| weight(t);
    if nodes.len() >= 2 {
        assert forall|l: Tree, r: Tree| #[trigger] f(tree::join(l, r)) == f(l) + f(r) by {
            assert(f(tree::join(l, r)) == weight(tree::join(l, r)));
        }
        tree::lemma_merge_len(nodes);
        tree::lemma_sum_merge(nodes, f);
        lemma_merge_growing(nodes);
        lemma_merge_ranked(nodes);
        lemma_build_ranked(tree::merge(nodes));
    } else {
        assert(nodes =~= seq![tree::build(nodes)]);
    }
}

/// Levels further apart.
proof fn lemma_levels_apart(t: Tree, k: int, m: int)
    requires
        ranked(seq![t]),
        0 <= k < m,
    ensures
        over(t, k, t, m),
    decreases m,
{
    let nodes = seq![t];
    assert(nodes[0] == t);
    assert(over(nodes[0], k, nodes[0], k + 1));
    if k < m - 1 {
        lemma_levels_apart(t, k, m - 1);
        reveal(over);
        assert forall|p: int, q: int| #[trigger] at_level(t, k, p) && #[trigger] at_level(
            t,
            m,
            q,
        ) implies p >= q by {
            let (f, up) = lemma_pair(t, m - 1, q);
        }
    }
}

/// Every leaf of a tree has the frequency of its symbol.
spec fn from(t: Tree, freqs: Seq<u64>) -> bool
    decreases t,
{
    match t {
        Tree::Leaf { freq, symbol } => freq == freqs[symbol as int],
        Tree::Node { left, right, .. } => from(*left, freqs) && from(*right, freqs),
    }
}

proof fn lemma_build_from(nodes: Seq<Tree>, freqs: Seq<u64>)
    requires
        nodes.len() >= 1,
        forall|i: int| 0 <= i < nodes.len() ==> from(#[trigger] nodes[i], freqs),
    ensures
        from(tree::build(nodes), freqs),
    decreases nodes.len(),
{
    if nodes.len() >= 2 {
        lemma_merge_at(nodes);
        let (lo, hi) = merged(nodes);
        let m = tree::merge(nodes);
        assert forall|i: int| 0 <= i < m.len() implies from(#[trigger] m[i], freqs) by {
            if i < m.len() - 1 {
                assert(from(nodes[place(lo, hi, i)], freqs));
            } else {
                assert(from(nodes[lo], freqs) && from(nodes[hi], freqs));
            }
        }
        tree::lemma_merge_len(nodes);
        lemma_build_from(m, freqs);
    }
}

proof fn lemma_leaves_from(freqs: Seq<u64>, n: int)
    requires
        0 <= n <= 256,
    ensures
        forall|i: int|
            0 <= i < tree::leaves(freqs, n).len() ==> from(
                #[trigger] tree::leaves(freqs, n)[i],
                freqs,
            ),
    decreases n,
{
    if n > 0 {
        lemma_leaves_from(freqs, n - 1);
        let before = tree::leaves(freqs, n - 1);
        let all = tree::leaves(freqs, n);
        assert forall|i: int| 0 <= i < all.len() implies from(#[trigger] all[i], freqs) by {
            if i < before.len() {
                assert(all[i] == before[i]);
            }
        }
    }
}

/// A symbol that is not in a tree keeps its length.
proof fn lemma_absent(t: Tree, d: int, lens: Seq<u8>, s: int)
    requires
        tree::leaf_count(t, s) == 0,
        0 <= s < 256,
        lens.len() == 256,
    ensures
        tree::assign(t, d, lens)[s] == lens[s],
        tree::assign(t, d, lens).len() == 256,
    decreases t,
{
    match t {
        Tree::Leaf { .. } => {},
        Tree::Node { left, right, .. } => {
            lemma_absent(*left, d + 1, lens, s);
            lemma_absent(*right, d + 1, tree::assign(*left, d + 1, lens), s);
        },
    }
}

proof fn lemma_assigned_len(t: Tree, d: int, lens: Seq<u8>)
    requires
        lens.len() == 256,
    ensures
        tree::assign(t, d, lens).len() == lens.len(),
    decreases t,
{
    match t {
        Tree::Leaf { .. } => {},
        Tree::Node { left, right, .. } => {
            lemma_assigned_len(*left, d + 1, lens);
            lemma_assigned_len(*right, d + 1, tree::assign(*left, d + 1, lens));
        },
    }
}

/// The length of a symbol is the level of its leaf.
proof fn lemma_length_level(t: Tree, d: int, lens: Seq<u8>, s: int, freqs: Seq<u64>) -> (k: int)
    requires
        tree::leaf_count(t, s) >= 1,
        0 <= s < 256,
        lens.len() == 256,
        from(t, freqs),
        0 <= d,
        d + tree::height(t) <= 255,
    ensures
        k >= 0,
        tree::assign(t, d, lens)[s] == d + k,
        at_level(t, k, freqs[s] as int),
    decreases t,
{
    match t {
        Tree::Leaf { .. } => 0,
        Tree::Node { left, right, .. } => {
            let mid = tree::assign(*left, d + 1, lens);
            lemma_assigned_len(*left, d + 1, lens);
            if tree::leaf_count(*right, s) >= 1 {
                1 + lemma_length_level(*right, d + 1, mid, s, freqs)
            } else {
                lemma_absent(*right, d + 1, mid, s);
                1 + lemma_length_level(*left, d + 1, lens, s, freqs)
            }
        },
    }
}

/// A symbol that is more frequent than another never has the longer code.
pub proof fn law_frequent_codes_short(freqs: Seq<u64>, a: int, b: int)
    requires
        tree::freq_sum(freqs, 256) <= u64::MAX,
        0 <= a < 256,
        0 <= b < 256,
        freqs[a] > freqs[b],
        freqs[b] > 0,
        tree::leaves(freqs, 256).len() >= 2,
    ensures
        tree::huffman_lengths(freqs)[a] <= tree::huffman_lengths(freqs)[b],
{
    let nodes = tree::leaves(freqs, 256);
    let t = tree::build(nodes);
    lemma_leaves_growing(freqs, 256);
    assert(ranked(nodes)) by {
        reveal(over);
        assert forall|i: int| 0 <= i < nodes.len() implies adds_up(#[trigger] nodes[i]) by {
            assert(nodes[i] is Leaf);
        }
        assert forall|i: int, j: int, k: int|
            0 <= i < nodes.len() && 0 <= j < nodes.len() && k >= 0 implies #[trigger] over(
            nodes[i],
            k,
            nodes[j],
            k + 1,
        ) by {
            assert(nodes[j] is Leaf);
        }
        assert forall|i: int, j: int, k: int|
            0 <= i < nodes.len() && 0 <= j < nodes.len() && i != j && k >= 0 && tree::tree_freq(
                nodes[i],
            ) >= tree::tree_freq(nodes[j]) implies #[trigger] over(nodes[i], k, nodes[j], k) by {
            assert(nodes[j] is Leaf && nodes[i] is Leaf);
        }
    }
    lemma_build_ranked(nodes);
    lemma_leaves_from(freqs, 256);
    lemma_build_from(nodes, freqs);
    tree::lemma_build_leaves(freqs);
    assert(tree::leaf_count(t, a) == 1 && tree::leaf_count(t, b) == 1);
    let none = huffman::no_lengths();
    let ka = lemma_length_level(t, 0, none, a, freqs);
    let kb = lemma_length_level(t, 0, none, b, freqs);
    if kb < ka {
        lemma_levels_apart(t, kb, ka);
        reveal(over);
        assert(freqs[b] >= freqs[a]);
    }
}

} // verus!
