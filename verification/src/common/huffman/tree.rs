//! The lengths of the codes, from the frequencies of the symbols.
use vstd::multiset::Multiset;
use vstd::prelude::*;
use vstd::seq_lib::group_to_multiset_ensures;

use crate::float::{lemma_two_mono, two};
use crate::table::{sort_numbers, table_get, table_keys};

verus! {

/// A tree of symbols.
pub enum Tree {
    Leaf(u32),
    Node(Box<Tree>, Box<Tree>),
}

/// A tree with its frequency, and its number, which tells trees of equal
/// frequency apart.
pub struct Item {
    pub freq: u64,
    pub id: u64,
    pub tree: Tree,
}

/// Whether a tree is taken before another.
pub open spec fn before(a: Item, b: Item) -> bool {
    a.freq < b.freq || (a.freq == b.freq && a.id < b.id)
}

/// The place of a tree among the first `n` of a sorted forest.
pub open spec fn spot(forest: Seq<Item>, x: Item, n: int) -> int
    decreases n,
{
    if n <= 0 {
        0
    } else if before(x, forest[n - 1]) {
        spot(forest, x, n - 1)
    } else {
        n
    }
}

/// A sorted forest with one more tree.
pub open spec fn placed(forest: Seq<Item>, x: Item) -> Seq<Item> {
    forest.insert(spot(forest, x, forest.len() as int), x)
}

/// Whether symbols ascend.
pub open spec fn ascends(s: Seq<u32>) -> bool {
    forall|i: int, j: int| 0 <= i < j < s.len() ==> s[i] < s[j]
}

/// The symbols of a table of frequencies in ascending order.
pub open spec fn symbols_of(freqs: Map<u32, u64>) -> Seq<u32> {
    choose|s: Seq<u32>| ascends(s) && #[trigger] s.to_set() == freqs.dom()
}

/// The leaves of the first `n` symbols, sorted. A symbol that does not occur
/// has no leaf.
pub open spec fn planted(freqs: Map<u32, u64>, syms: Seq<u32>, n: int) -> Seq<Item>
    decreases n,
{
    if n <= 0 {
        Seq::empty()
    } else {
        let prev = planted(freqs, syms, n - 1);
        if freqs[syms[n - 1]] == 0 {
            prev
        } else {
            placed(
                prev,
                Item {
                    freq: freqs[syms[n - 1]],
                    id: prev.len() as u64,
                    tree: Tree::Leaf(syms[n - 1]),
                },
            )
        }
    }
}

/// The tree of two trees.
pub open spec fn joined(x: Item, y: Item, id: nat) -> Item {
    Item {
        freq: (x.freq + y.freq) as u64,
        id: id as u64,
        tree: Tree::Node(Box::new(x.tree), Box::new(y.tree)),
    }
}

/// A place is among the trees.
pub proof fn lemma_spot_range(forest: Seq<Item>, x: Item, n: int)
    requires
        0 <= n,
    ensures
        0 <= spot(forest, x, n) <= n,
    decreases n,
{
    if n > 0 {
        lemma_spot_range(forest, x, n - 1);
    }
}

/// The tree that grows from a forest: the first two trees are joined until
/// one is left.
pub open spec fn grown(forest: Seq<Item>, next: nat) -> Tree
    decreases forest.len(),
{
    if forest.len() <= 1 {
        forest[0].tree
    } else {
        proof {
            lemma_spot_range(
                forest.subrange(2, forest.len() as int),
                joined(forest[0], forest[1], next),
                forest.len() - 2,
            );
        }
        grown(
            placed(
                forest.subrange(2, forest.len() as int),
                joined(forest[0], forest[1], next),
            ),
            next + 1,
        )
    }
}

/// The symbols of a tree with their depths, from left to right.
pub open spec fn depths(t: Tree, d: nat) -> Seq<(u32, u8)>
    decreases t,
{
    match t {
        Tree::Leaf(s) => seq![(s, d as u8)],
        Tree::Node(a, b) => depths(*a, d + 1) + depths(*b, d + 1),
    }
}

/// The lengths of the codes. A symbol that is alone has length one.
pub open spec fn lengths_of(freqs: Map<u32, u64>) -> Seq<(u32, u8)> {
    let syms = symbols_of(freqs);
    let forest = planted(freqs, syms, syms.len() as int);
    if forest.len() == 0 {
        Seq::empty()
    } else if forest.len() == 1 {
        depths(forest[0].tree, 1)
    } else {
        depths(grown(forest, forest.len()), 0)
    }
}

/// The sum of the frequencies of the first `n` symbols.
pub open spec fn total(freqs: Map<u32, u64>, syms: Seq<u32>, n: int) -> nat
    decreases n,
{
    if n <= 0 {
        0
    } else {
        total(freqs, syms, n - 1) + freqs[syms[n - 1]] as nat
    }
}

/// The sum of all frequencies.
pub open spec fn total_freq(freqs: Map<u32, u64>) -> nat {
    let syms = symbols_of(freqs);
    total(freqs, syms, syms.len() as int)
}

// Sorted forests.

/// Whether a forest is sorted by frequency.
pub open spec fn sorted(forest: Seq<Item>) -> bool {
    forall|i: int, j: int|
        0 <= i <= j < forest.len() ==> (#[trigger] forest[i]).freq <= (#[trigger] forest[j]).freq
}

/// The sum of the frequencies of a forest.
pub open spec fn weight(forest: Seq<Item>) -> nat
    decreases forest.len(),
{
    if forest.len() == 0 {
        0
    } else {
        weight(forest.drop_last()) + forest.last().freq as nat
    }
}

proof fn lemma_spot(forest: Seq<Item>, x: Item, n: int)
    requires
        sorted(forest),
        0 <= n <= forest.len(),
        forall|i: int| n <= i < forest.len() ==> x.freq <= (#[trigger] forest[i]).freq,
    ensures
        0 <= spot(forest, x, n) <= n,
        sorted(forest.insert(spot(forest, x, n), x)),
    decreases n,
{
    if n > 0 && before(x, forest[n - 1]) {
        lemma_spot(forest, x, n - 1);
    } else {
        let s = forest.insert(n, x);
        assert(n > 0 ==> forest[n - 1].freq <= x.freq);
        assert forall|i: int, j: int| 0 <= i <= j < s.len() implies (#[trigger] s[i]).freq <= (
        #[trigger] s[j]).freq by {
            if i < n {
                assert(s[i] == forest[i]);
            }
            if j > n {
                assert(s[j] == forest[j - 1]);
            } else if j < n {
                assert(s[j] == forest[j]);
            }
            if i > n {
                assert(s[i] == forest[i - 1]);
            }
            if i < n && j == n {
                assert(forest[i].freq <= forest[n - 1].freq);
            }
        }
    }
}

pub proof fn lemma_placed(forest: Seq<Item>, x: Item)
    requires
        sorted(forest),
    ensures
        sorted(placed(forest, x)),
        0 <= spot(forest, x, forest.len() as int) <= forest.len(),
{
    lemma_spot(forest, x, forest.len() as int);
}

pub proof fn lemma_weight_insert(forest: Seq<Item>, i: int, x: Item)
    requires
        0 <= i <= forest.len(),
    ensures
        weight(forest.insert(i, x)) == weight(forest) + x.freq,
    decreases forest.len(),
{
    let s = forest.insert(i, x);
    if i == forest.len() {
        assert(s.drop_last() =~= forest);
    } else {
        assert(s.drop_last() =~= forest.drop_last().insert(i, x));
        assert(s.last() == forest.last());
        lemma_weight_insert(forest.drop_last(), i, x);
    }
}

pub proof fn lemma_weight_front(forest: Seq<Item>)
    requires
        forest.len() >= 2,
    ensures
        weight(forest) == weight(forest.subrange(2, forest.len() as int)) + forest[0].freq
            + forest[1].freq,
{
    let rest = forest.subrange(2, forest.len() as int);
    lemma_weight_insert(rest, 0, forest[1]);
    lemma_weight_insert(rest.insert(0, forest[1]), 0, forest[0]);
    assert(rest.insert(0, forest[1]).insert(0, forest[0]) =~= forest);
}

proof fn lemma_weight_bounds(forest: Seq<Item>, i: int)
    requires
        0 <= i < forest.len(),
    ensures
        forest[i].freq <= weight(forest),
    decreases forest.len(),
{
    if i < forest.len() - 1 {
        lemma_weight_bounds(forest.drop_last(), i);
    }
}

// The height of a tree is bounded by its frequency.

/// The Fibonacci numbers 1, 2, 3, 5, ...
pub open spec fn fib(n: nat) -> nat
    decreases n,
{
    if n == 0 {
        1
    } else if n == 1 {
        2
    } else {
        fib((n - 1) as nat) + fib((n - 2) as nat)
    }
}

/// The height of a tree.
pub open spec fn height(t: Tree) -> nat
    decreases t,
{
    match t {
        Tree::Leaf(_) => 0,
        Tree::Node(a, b) => if height(*a) >= height(*b) {
            height(*a) + 1
        } else {
            height(*b) + 1
        },
    }
}

/// Whether a tree is no higher than its frequency allows, where `kid` is the
/// frequency of its heavier child.
spec fn bounded(x: Item, kid: nat) -> bool {
    &&& x.freq >= fib(height(x.tree))
    &&& height(x.tree) > 0 ==> kid >= fib((height(x.tree) - 1) as nat)
}

/// Whether every tree is bounded, and no tree is lighter than a child of
/// another.
spec fn balanced(forest: Seq<Item>, kids: Seq<nat>) -> bool {
    &&& kids.len() == forest.len()
    &&& forall|i: int| 0 <= i < forest.len() ==> bounded(#[trigger] forest[i], kids[i])
    &&& forall|i: int, j: int|
        0 <= i < forest.len() && 0 <= j < forest.len() ==> (#[trigger] forest[i]).freq
            >= #[trigger] kids[j]
}

proof fn lemma_balanced_placed(forest: Seq<Item>, kids: Seq<nat>, x: Item, kid: nat) -> (r: Seq<
    nat,
>)
    requires
        sorted(forest),
        balanced(forest, kids),
        bounded(x, kid),
        x.freq >= kid,
        forall|i: int| 0 <= i < forest.len() ==> (#[trigger] forest[i]).freq >= kid,
        forall|i: int| 0 <= i < kids.len() ==> x.freq >= #[trigger] kids[i],
    ensures
        balanced(placed(forest, x), r),
{
    lemma_placed(forest, x);
    let p = spot(forest, x, forest.len() as int);
    let r = kids.insert(p, kid);
    let s = placed(forest, x);
    assert forall|i: int| 0 <= i < s.len() implies bounded(#[trigger] s[i], r[i]) by {
        if i < p {
            assert(s[i] == forest[i]);
        } else if i > p {
            assert(s[i] == forest[i - 1]);
        }
    }
    assert forall|i: int, j: int| 0 <= i < s.len() && 0 <= j < s.len() implies (
    #[trigger] s[i]).freq >= #[trigger] r[j] by {
        let k = if j < p {
            j
        } else {
            j - 1
        };
        if i < p {
            assert(s[i] == forest[i]);
            if j != p {
                assert(forest[i].freq >= kids[k]);
            }
        } else if i > p {
            assert(s[i] == forest[i - 1]);
            if j != p {
                assert(forest[i - 1].freq >= kids[k]);
            }
        } else if j != p {
            assert(x.freq >= kids[k]);
        }
    }
    r
}

proof fn lemma_fib_mono(a: nat, b: nat)
    requires
        a <= b,
    ensures
        1 <= fib(a) <= fib(b),
    decreases b,
{
    if b >= 2 {
        if a < b {
            lemma_fib_mono(a, (b - 1) as nat);
            lemma_fib_mono((b - 2) as nat, (b - 2) as nat);
        } else {
            lemma_fib_mono((b - 1) as nat, (b - 1) as nat);
        }
    }
}

proof fn lemma_balanced_step(forest: Seq<Item>, kids: Seq<nat>, next: nat) -> (r: Seq<nat>)
    requires
        forest.len() >= 2,
        sorted(forest),
        balanced(forest, kids),
        forest[0].freq + forest[1].freq <= u64::MAX,
    ensures
        balanced(
            placed(
                forest.subrange(2, forest.len() as int),
                joined(forest[0], forest[1], next),
            ),
            r,
        ),
{
    let (a, b) = (forest[0], forest[1]);
    let n = joined(a, b, next);
    let rest = forest.subrange(2, forest.len() as int);
    let kept = kids.subrange(2, kids.len() as int);
    let kid = b.freq as nat;
    assert(a.freq <= b.freq);
    let (ha, hb) = (height(a.tree), height(b.tree));
    assert(bounded(a, kids[0]) && bounded(b, kids[1]));
    assert(a.freq >= kids[1] && b.freq >= kids[0]);
    let h = height(n.tree);
    assert(h == 1 + if ha >= hb {
        ha
    } else {
        hb
    });
    if ha >= hb {
        if ha == 0 {
            assert(fib(1) == 2 && fib(0) == 1);
        } else {
            assert(fib(h) == fib((h - 1) as nat) + fib((h - 2) as nat));
        }
    } else {
        assert(fib(h) == fib((h - 1) as nat) + fib((h - 2) as nat));
    }
    assert forall|i: int| 0 <= i < rest.len() implies bounded(#[trigger] rest[i], kept[i]) by {
        assert(rest[i] == forest[i + 2]);
    }
    assert forall|i: int, j: int| 0 <= i < rest.len() && 0 <= j < rest.len() implies (
    #[trigger] rest[i]).freq >= #[trigger] kept[j] by {
        assert(rest[i] == forest[i + 2] && kept[j] == kids[j + 2]);
    }
    assert forall|i: int| 0 <= i < rest.len() implies (#[trigger] rest[i]).freq >= kid by {
        assert(rest[i] == forest[i + 2]);
    }
    assert forall|i: int| 0 <= i < kept.len() implies n.freq >= #[trigger] kept[i] by {
        assert(forest[0].freq >= kids[i + 2]);
    }
    assert(sorted(rest)) by {
        assert forall|i: int, j: int| 0 <= i <= j < rest.len() implies (#[trigger] rest[i]).freq
            <= (#[trigger] rest[j]).freq by {
            assert(rest[i] == forest[i + 2] && rest[j] == forest[j + 2]);
        }
    }
    lemma_balanced_placed(rest, kept, n, kid)
}

pub proof fn lemma_sorted_rest(forest: Seq<Item>)
    requires
        sorted(forest),
        forest.len() >= 2,
    ensures
        sorted(forest.subrange(2, forest.len() as int)),
{
    let rest = forest.subrange(2, forest.len() as int);
    assert forall|i: int, j: int| 0 <= i <= j < rest.len() implies (#[trigger] rest[i]).freq <= (
    #[trigger] rest[j]).freq by {
        assert(rest[i] == forest[i + 2] && rest[j] == forest[j + 2]);
    }
}

proof fn lemma_grown_height(forest: Seq<Item>, kids: Seq<nat>, next: nat)
    requires
        forest.len() >= 1,
        sorted(forest),
        balanced(forest, kids),
        weight(forest) <= u64::MAX,
    ensures
        weight(forest) >= fib(height(grown(forest, next))),
    decreases forest.len(),
{
    if forest.len() == 1 {
        assert(bounded(forest[0], kids[0]));
        lemma_weight_bounds(forest, 0);
    } else {
        lemma_weight_front(forest);
        lemma_sorted_rest(forest);
        let rest = forest.subrange(2, forest.len() as int);
        let n = joined(forest[0], forest[1], next);
        let k = lemma_balanced_step(forest, kids, next);
        lemma_placed(rest, n);
        lemma_weight_insert(rest, spot(rest, n, rest.len() as int), n);
        lemma_grown_height(placed(rest, n), k, next + 1);
    }
}

proof fn lemma_planted(freqs: Map<u32, u64>, syms: Seq<u32>, n: int)
    requires
        0 <= n <= syms.len(),
    ensures
        sorted(planted(freqs, syms, n)),
        weight(planted(freqs, syms, n)) == total(freqs, syms, n),
        balanced(planted(freqs, syms, n), Seq::new(planted(freqs, syms, n).len(), |i: int| 0nat)),
        planted(freqs, syms, n).len() <= n,
    decreases n,
{
    if n > 0 {
        lemma_planted(freqs, syms, n - 1);
        let prev = planted(freqs, syms, n - 1);
        let f = freqs[syms[n - 1]];
        if f != 0 {
            let x = Item { freq: f, id: prev.len() as u64, tree: Tree::Leaf(syms[n - 1]) };
            lemma_placed(prev, x);
            let p = spot(prev, x, prev.len() as int);
            lemma_weight_insert(prev, p, x);
            let s = planted(freqs, syms, n);
            assert forall|i: int| 0 <= i < s.len() implies bounded(#[trigger] s[i], 0) by {
                if i < p {
                    assert(s[i] == prev[i]);
                    assert(bounded(prev[i], 0));
                } else if i > p {
                    assert(s[i] == prev[i - 1]);
                    assert(bounded(prev[i - 1], 0));
                }
            }
        }
    }
}

proof fn lemma_fib_doubles(k: nat)
    ensures
        fib(2 * k) >= two(k),
    decreases k,
{
    if k > 0 {
        lemma_fib_doubles((k - 1) as nat);
        let n = 2 * k;
        lemma_fib_mono((n - 2) as nat, (n - 1) as nat);
        assert(fib(n) == fib((n - 1) as nat) + fib((n - 2) as nat));
        assert((2 * (k - 1)) as nat == (n - 2) as nat);
    }
}

/// The lengths of codes are bounded by the frequencies: with frequencies that
/// sum up to less than `fib(h + 1)`, no code is longer than `h`, unless it is
/// the code of a symbol that is alone.
pub proof fn law_lengths_bounded(freqs: Map<u32, u64>, h: nat, k: int)
    requires
        total_freq(freqs) < fib(h + 1),
        total_freq(freqs) <= u64::MAX,
        1 <= h,
        0 <= k < lengths_of(freqs).len(),
    ensures
        lengths_of(freqs)[k].1 <= h,
{
    let syms = symbols_of(freqs);
    let n = syms.len() as int;
    let forest = planted(freqs, syms, n);
    lemma_planted(freqs, syms, n);
    if forest.len() == 1 {
        lemma_leaf(freqs, syms, n, 0);
    } else {
        let t = grown(forest, forest.len());
        lemma_grown_height(forest, Seq::new(forest.len(), |i: int| 0nat), forest.len());
        lemma_height_small(forest);
        if height(t) > h {
            lemma_fib_mono(h + 1, height(t));
        }
        lemma_depth_bounded(t, 0, k);
    }
}

proof fn lemma_leaf(freqs: Map<u32, u64>, syms: Seq<u32>, n: int, i: int)
    requires
        0 <= n <= syms.len(),
        0 <= i < planted(freqs, syms, n).len(),
    ensures
        planted(freqs, syms, n)[i].tree is Leaf,
    decreases n,
{
    let prev = planted(freqs, syms, n - 1);
    let f = freqs[syms[n - 1]];
    if f == 0 {
        lemma_leaf(freqs, syms, n - 1, i);
    } else {
        let x = Item { freq: f, id: prev.len() as u64, tree: Tree::Leaf(syms[n - 1]) };
        lemma_planted(freqs, syms, n - 1);
        lemma_placed(prev, x);
        let p = spot(prev, x, prev.len() as int);
        if i < p {
            lemma_leaf(freqs, syms, n - 1, i);
        } else if i > p {
            lemma_leaf(freqs, syms, n - 1, i - 1);
        }
    }
}

proof fn lemma_height_small(forest: Seq<Item>)
    requires
        weight(forest) <= u64::MAX,
        weight(forest) >= fib(height(grown(forest, forest.len()))),
    ensures
        height(grown(forest, forest.len())) < 128,
{
    let h = height(grown(forest, forest.len()));
    if h >= 128 {
        lemma_fib_doubles(64);
        lemma_fib_mono(128, h);
        assert(two(64) == 0x1_0000_0000_0000_0000) by {
            crate::float::lemma_two_values();
        }
    }
}

/// The tree that grows from the symbols is not high, and its leaves are sorted
/// before.
pub proof fn lemma_planted_height(freqs: Map<u32, u64>)
    requires
        total_freq(freqs) <= u64::MAX,
    ensures
        ({
            let syms = symbols_of(freqs);
            let forest = planted(freqs, syms, syms.len() as int);
            &&& sorted(forest)
            &&& weight(forest) == total_freq(freqs)
            &&& forest.len() >= 1 ==> height(grown(forest, forest.len())) < 128
        }),
{
    let syms = symbols_of(freqs);
    let n = syms.len() as int;
    let forest = planted(freqs, syms, n);
    lemma_planted(freqs, syms, n);
    if forest.len() >= 1 {
        lemma_grown_height(forest, Seq::new(forest.len(), |i: int| 0nat), forest.len());
        lemma_height_small(forest);
    }
}

/// A planted tree is a leaf with the frequency of its symbol.
pub proof fn lemma_planted_leaf(freqs: Map<u32, u64>, syms: Seq<u32>, n: int, i: int)
    requires
        0 <= n <= syms.len(),
        0 <= i < planted(freqs, syms, n).len(),
    ensures
        planted(freqs, syms, n)[i].tree matches Tree::Leaf(s) && planted(freqs, syms, n)[i].freq
            == freqs[s],
    decreases n,
{
    let prev = planted(freqs, syms, n - 1);
    let f = freqs[syms[n - 1]];
    if f == 0 {
        lemma_planted_leaf(freqs, syms, n - 1, i);
    } else {
        let x = Item { freq: f, id: prev.len() as u64, tree: Tree::Leaf(syms[n - 1]) };
        lemma_planted(freqs, syms, n - 1);
        lemma_placed(prev, x);
        let p = spot(prev, x, prev.len() as int);
        if i < p {
            lemma_planted_leaf(freqs, syms, n - 1, i);
        } else if i > p {
            lemma_planted_leaf(freqs, syms, n - 1, i - 1);
        }
    }
}

proof fn lemma_depth_bounded(t: Tree, d: nat, k: int)
    requires
        d + height(t) <= 255,
        0 <= k < depths(t, d).len(),
    ensures
        d <= depths(t, d)[k].1 <= d + height(t),
    decreases t,
{
    match t {
        Tree::Leaf(_) => {},
        Tree::Node(a, b) => {
            let n = depths(*a, d + 1).len();
            if k < n {
                lemma_depth_bounded(*a, d + 1, k);
            } else {
                lemma_depth_bounded(*b, d + 1, k - n);
            }
        },
    }
}

// The symbols of a forest.

/// How often each symbol stands in a tree.
spec fn leaves(t: Tree) -> Multiset<u32>
    decreases t,
{
    match t {
        Tree::Leaf(s) => Multiset::singleton(s),
        Tree::Node(a, b) => leaves(*a).add(leaves(*b)),
    }
}

/// How often each symbol stands in a forest.
spec fn crowns(forest: Seq<Item>) -> Multiset<u32>
    decreases forest.len(),
{
    if forest.len() == 0 {
        Multiset::empty()
    } else {
        crowns(forest.drop_last()).add(leaves(forest.last().tree))
    }
}

proof fn lemma_crowns_insert(forest: Seq<Item>, i: int, x: Item)
    requires
        0 <= i <= forest.len(),
    ensures
        crowns(forest.insert(i, x)) =~= crowns(forest).add(leaves(x.tree)),
    decreases forest.len(),
{
    let s = forest.insert(i, x);
    if i == forest.len() {
        assert(s.drop_last() =~= forest);
    } else {
        assert(s.drop_last() =~= forest.drop_last().insert(i, x));
        assert(s.last() == forest.last());
        lemma_crowns_insert(forest.drop_last(), i, x);
    }
}

proof fn lemma_grown_leaves(forest: Seq<Item>, next: nat)
    requires
        forest.len() >= 1,
        sorted(forest),
    ensures
        leaves(grown(forest, next)) =~= crowns(forest),
    decreases forest.len(),
{
    if forest.len() == 1 {
        assert(forest.drop_last().len() == 0);
        assert(crowns(forest.drop_last()) =~= Multiset::<u32>::empty());
    } else {
        let rest = forest.subrange(2, forest.len() as int);
        let n = joined(forest[0], forest[1], next);
        lemma_sorted_rest(forest);
        lemma_placed(rest, n);
        lemma_crowns_insert(rest, spot(rest, n, rest.len() as int), n);
        lemma_crowns_insert(rest, 0, forest[1]);
        lemma_crowns_insert(rest.insert(0, forest[1]), 0, forest[0]);
        assert(rest.insert(0, forest[1]).insert(0, forest[0]) =~= forest);
        lemma_grown_leaves(placed(rest, n), next + 1);
    }
}

/// The symbols of a list of lengths.
pub open spec fn listed(lengths: Seq<(u32, u8)>) -> Seq<u32> {
    Seq::new(lengths.len(), |i: int| lengths[i].0)
}

proof fn lemma_depths_leaves(t: Tree, d: nat)
    ensures
        listed(depths(t, d)).to_multiset() =~= leaves(t),
    decreases t,
{
    broadcast use group_to_multiset_ensures;

    match t {
        Tree::Leaf(s) => {
            assert(listed(depths(t, d)) =~= Seq::<u32>::empty().push(s));
            assert(Seq::<u32>::empty().to_multiset() =~= Multiset::<u32>::empty());
        },
        Tree::Node(a, b) => {
            lemma_depths_leaves(*a, d + 1);
            lemma_depths_leaves(*b, d + 1);
            let (x, y) = (listed(depths(*a, d + 1)), listed(depths(*b, d + 1)));
            assert(listed(depths(t, d)) =~= x + y);
            vstd::seq_lib::lemma_multiset_commutative(x, y);
        },
    }
}

proof fn lemma_planted_leaves(freqs: Map<u32, u64>, syms: Seq<u32>, n: int)
    requires
        ascends(syms),
        0 <= n <= syms.len(),
    ensures
        forall|s: u32| #[trigger]
            crowns(planted(freqs, syms, n)).count(s) == if syms.subrange(0, n).contains(s)
                && freqs[s] > 0 {
                1nat
            } else {
                0nat
            },
    decreases n,
{
    let all = planted(freqs, syms, n);
    if n > 0 {
        lemma_planted_leaves(freqs, syms, n - 1);
        let front = syms.subrange(0, n - 1);
        let x = syms[n - 1];
        let prev = planted(freqs, syms, n - 1);
        assert(syms.subrange(0, n) =~= front.push(x));
        assert(!front.contains(x));
        if freqs[x] > 0 {
            let item = Item { freq: freqs[x], id: prev.len() as u64, tree: Tree::Leaf(x) };
            lemma_planted(freqs, syms, n - 1);
            lemma_placed(prev, item);
            lemma_crowns_insert(prev, spot(prev, item, prev.len() as int), item);
        }
        assert forall|s: u32| #[trigger]
            crowns(all).count(s) == if syms.subrange(0, n).contains(s) && freqs[s] > 0 {
                1nat
            } else {
                0nat
            } by {
            if front.contains(s) {
                let i = front.index_of(s);
                assert(syms.subrange(0, n)[i] == s);
            }
            if s == x {
                assert(syms.subrange(0, n)[n - 1] == s);
            } else if syms.subrange(0, n).contains(s) {
                let i = syms.subrange(0, n).index_of(s);
                assert(front[i] == s);
            }
        }
    }
}

/// The symbols of a table in ascending order are unique.
pub proof fn lemma_ascending_unique(a: Seq<u32>, b: Seq<u32>)
    requires
        ascends(a),
        ascends(b),
        a.to_set() == b.to_set(),
    ensures
        a == b,
    decreases a.len(),
{
    if a.len() == 0 {
        if b.len() > 0 {
            assert(b.to_set().contains(b[0]));
            assert(a.contains(b[0]));
        }
        assert(a =~= b);
    } else {
        assert(a.to_set().contains(a.last()));
        assert(b.contains(a.last()));
        assert(b.to_set().contains(b.last()));
        assert(a.contains(b.last()));
        let i = b.index_of(a.last());
        let j = a.index_of(b.last());
        assert(a.last() == b.last());
        let (x, y) = (a.drop_last(), b.drop_last());
        assert forall|s: u32| x.to_set().contains(s) <==> y.to_set().contains(s) by {
            if x.contains(s) {
                let k = x.index_of(s);
                assert(a[k] == s);
                assert(a.to_set().contains(s));
                assert(b.contains(s));
                let m = b.index_of(s);
                assert(y[m] == s);
            }
            if y.contains(s) {
                let k = y.index_of(s);
                assert(b[k] == s);
                assert(b.to_set().contains(s));
                assert(a.contains(s));
                let m = a.index_of(s);
                assert(x[m] == s);
            }
        }
        assert(x.to_set() =~= y.to_set());
        lemma_ascending_unique(x, y);
        assert(a =~= x.push(a.last()));
        assert(b =~= y.push(b.last()));
    }
}

/// The codes are given to the symbols that occur, to each once.
pub proof fn law_lengths_symbols(freqs: Map<u32, u64>)
    requires
        exists|s: Seq<u32>| ascends(s) && #[trigger] s.to_set() == freqs.dom(),
    ensures
        listed(lengths_of(freqs)).no_duplicates(),
        forall|s: u32|
            listed(lengths_of(freqs)).contains(s) <==> freqs.contains_key(s) && freqs[s] > 0,
{
    broadcast use group_to_multiset_ensures;

    let syms = symbols_of(freqs);
    let n = syms.len() as int;
    let forest = planted(freqs, syms, n);
    let all = listed(lengths_of(freqs));
    lemma_planted(freqs, syms, n);
    lemma_planted_leaves(freqs, syms, n);
    assert(syms.subrange(0, n) =~= syms);
    if forest.len() == 0 {
        assert(crowns(forest) =~= Multiset::<u32>::empty());
        assert(all =~= Seq::<u32>::empty());
        assert(all.to_multiset() =~= Multiset::<u32>::empty());
    } else if forest.len() == 1 {
        lemma_depths_leaves(forest[0].tree, 1);
        assert(forest.drop_last() =~= Seq::<Item>::empty());
        assert(crowns(forest.drop_last()) =~= Multiset::<u32>::empty());
        assert(crowns(forest) =~= leaves(forest[0].tree));
    } else {
        lemma_grown_leaves(forest, forest.len());
        lemma_depths_leaves(grown(forest, forest.len()), 0);
    }
    assert(all.to_multiset() =~= crowns(forest));
    assert forall|s: u32| all.to_multiset().contains(s) implies all.to_multiset().count(s) == 1 by {
        assert(crowns(forest).count(s) <= 1);
    }
    all.lemma_multiset_has_no_duplicates_conv();
    assert forall|s: u32| all.contains(s) <==> freqs.contains_key(s) && freqs[s] > 0 by {
        assert(crowns(forest).count(s) == if syms.contains(s) && freqs[s] > 0 {
            1nat
        } else {
            0nat
        });
        assert(syms.to_set().contains(s) <==> syms.contains(s));
    }
}

// Lengths of codes as shares of a whole.

/// The share of a code of a length: two to the power of what it is shorter
/// than `top`.
pub open spec fn share_in(top: nat, len: int) -> nat {
    two((top - len) as nat)
}

/// The sum of the shares of the first `n` lengths.
pub open spec fn shares_in(top: nat, lengths: Seq<(u32, u8)>, n: int) -> nat
    decreases n,
{
    if n <= 0 {
        0
    } else {
        shares_in(top, lengths, n - 1) + share_in(top, lengths[n - 1].1 as int)
    }
}

/// The share of a code of at most 32 bits.
pub open spec fn share(len: int) -> nat {
    share_in(32, len)
}

/// The sum of the shares of the first `n` lengths of at most 32 bits.
pub open spec fn shares(lengths: Seq<(u32, u8)>, n: int) -> nat {
    shares_in(32, lengths, n)
}

proof fn lemma_shares_add(top: nat, a: Seq<(u32, u8)>, b: Seq<(u32, u8)>, n: int)
    requires
        0 <= n <= b.len(),
    ensures
        shares_in(top, a + b, a.len() + n) == shares_in(top, a, a.len() as int) + shares_in(top, b, n),
    decreases n,
{
    if n > 0 {
        lemma_shares_add(top, a, b, n - 1);
        assert((a + b)[a.len() + n - 1] == b[n - 1]);
    } else {
        lemma_shares_front(top, a, b, a.len() as int);
    }
}

proof fn lemma_shares_front(top: nat, a: Seq<(u32, u8)>, b: Seq<(u32, u8)>, n: int)
    requires
        0 <= n <= a.len(),
    ensures
        shares_in(top, a + b, n) == shares_in(top, a, n),
    decreases n,
{
    if n > 0 {
        lemma_shares_front(top, a, b, n - 1);
    }
}

proof fn lemma_tree_shares(top: nat, t: Tree, d: nat)
    requires
        d + height(t) <= top,
        d + height(t) <= 255,
    ensures
        shares_in(top, depths(t, d), depths(t, d).len() as int) == share_in(top, d as int),
    decreases t,
{
    match t {
        Tree::Leaf(s) => {
            let l = depths(t, d);
            assert(shares_in(top, l, 0) == 0);
            assert(shares_in(top, l, 1) == share_in(top, l[0].1 as int));
        },
        Tree::Node(a, b) => {
            lemma_tree_shares(top, *a, d + 1);
            lemma_tree_shares(top, *b, d + 1);
            let (x, y) = (depths(*a, d + 1), depths(*b, d + 1));
            lemma_shares_add(top, x, y, y.len() as int);
            assert(two((top - d) as nat) == 2 * two((top - (d + 1)) as nat));
        },
    }
}

proof fn lemma_high_leaf(t: Tree, d: nat) -> (k: int)
    requires
        d + height(t) <= 255,
    ensures
        0 <= k < depths(t, d).len(),
        depths(t, d)[k].1 == d + height(t),
    decreases t,
{
    match t {
        Tree::Leaf(_) => 0,
        Tree::Node(a, b) => {
            if height(*a) >= height(*b) {
                let k = lemma_high_leaf(*a, d + 1);
                assert(depths(t, d)[k] == depths(*a, d + 1)[k]);
                k
            } else {
                let k = lemma_high_leaf(*b, d + 1);
                let n = depths(*a, d + 1).len();
                assert(depths(t, d)[n + k] == depths(*b, d + 1)[k]);
                n + k
            }
        },
    }
}

/// The codes fill the whole and no more (half of it where a symbol is alone):
/// the lengths are those of a prefix code. Every code has a length of one at
/// least. The whole is two to the power of `top`, which no length exceeds.
pub proof fn law_lengths_fill(freqs: Map<u32, u64>, top: nat)
    requires
        total_freq(freqs) <= u64::MAX,
        forall|k: int| 0 <= k < lengths_of(freqs).len() ==> (#[trigger] lengths_of(freqs)[k]).1
            <= top,
    ensures
        shares_in(top, lengths_of(freqs), lengths_of(freqs).len() as int) <= two(top),
        lengths_of(freqs).len() > 1 ==> shares_in(
            top,
            lengths_of(freqs),
            lengths_of(freqs).len() as int,
        ) == two(top),
        forall|k: int| 0 <= k < lengths_of(freqs).len() ==> (#[trigger] lengths_of(freqs)[k]).1
            >= 1,
{
    let syms = symbols_of(freqs);
    let n = syms.len() as int;
    let forest = planted(freqs, syms, n);
    let all = lengths_of(freqs);
    lemma_planted(freqs, syms, n);
    lemma_two_mono(0, top);
    if forest.len() == 1 {
        lemma_leaf(freqs, syms, n, 0);
        assert(all.len() == 1);
        assert(shares_in(top, all, 0) == 0);
        assert(shares_in(top, all, 1) == share_in(top, 1));
        assert(all[0].1 == 1);
        lemma_two_mono((top - 1) as nat, top);
    } else if forest.len() > 1 {
        let t = grown(forest, forest.len());
        lemma_grown_height(forest, Seq::new(forest.len(), |i: int| 0nat), forest.len());
        lemma_height_small(forest);
        let k = lemma_high_leaf(t, 0);
        assert(all[k].1 == height(t));
        lemma_tree_shares(top, t, 0);
        lemma_grown_node(forest, forest.len());
        assert forall|k: int| 0 <= k < all.len() implies (#[trigger] all[k]).1 >= 1 by {
            if let Tree::Node(a, b) = t {
                let m = depths(*a, 1).len();
                if k < m {
                    lemma_depth_bounded(*a, 1, k);
                } else {
                    lemma_depth_bounded(*b, 1, k - m);
                }
            }
        }
    }
}

proof fn lemma_grown_node(forest: Seq<Item>, next: nat)
    requires
        forest.len() >= 2,
        sorted(forest),
    ensures
        grown(forest, next) is Node,
    decreases forest.len(),
{
    let rest = forest.subrange(2, forest.len() as int);
    let n = joined(forest[0], forest[1], next);
    lemma_sorted_rest(forest);
    lemma_placed(rest, n);
    if forest.len() == 2 {
        assert(placed(rest, n) =~= seq![n]);
    } else {
        lemma_grown_node(placed(rest, n), next + 1);
    }
}

// Computing the lengths.

fn goes_before(a: &Item, b: &Item) -> (r: bool)
    ensures
        r == before(*a, *b),
{
    a.freq < b.freq || (a.freq == b.freq && a.id < b.id)
}

fn place(forest: &mut Vec<Item>, x: Item)
    requires
        sorted(old(forest)@),
    ensures
        final(forest)@ == placed(old(forest)@, x),
        final(forest).len() == old(forest).len() + 1,
        sorted(final(forest)@),
{
    let ghost f = forest@;
    proof {
        lemma_placed(f, x);
    }
    let mut n: usize = forest.len();
    while n > 0 && goes_before(&x, &forest[n - 1])
        invariant
            f == forest@,
            n <= forest.len(),
            spot(f, x, f.len() as int) == spot(f, x, n as int),
        decreases n,
    {
        n -= 1;
    }
    forest.insert(n, x);
}

/// The symbols of a table of frequencies in ascending order.
fn sorted_symbols(freqs: &fxhash::FxHashMap<u32, u64>) -> (r: Vec<u32>)
    ensures
        ascends(r@),
        r@.to_set() == freqs@.dom(),
        r@ == symbols_of(freqs@),
        r.len() <= 0x1_0000_0000,
{
    broadcast use group_to_multiset_ensures;

    let keys = table_keys(freqs);
    let mut wide: Vec<u64> = Vec::new();
    let mut i: usize = 0;
    while i < keys.len()
        invariant
            i <= keys.len(),
            wide.len() == i,
            forall|k: int| 0 <= k < i ==> #[trigger] wide[k] == keys[k],
        decreases keys.len() - i,
    {
        wide.push(keys[i] as u64);
        i += 1;
    }
    let ghost all = wide@;
    assert(all.no_duplicates());
    sort_numbers(&mut wide);
    let ghost s = wide@;
    proof {
        all.lemma_multiset_has_no_duplicates();
        s.lemma_multiset_has_no_duplicates_conv();
        assert forall|k: int| 0 <= k < s.len() implies #[trigger] s[k] <= u32::MAX by {
            assert(s.contains(s[k]));
            assert(s.to_multiset().count(s[k]) > 0);
            assert(all.contains(s[k]));
        }
    }
    let mut out: Vec<u32> = Vec::new();
    let mut j: usize = 0;
    while j < wide.len()
        invariant
            s == wide@,
            s.no_duplicates(),
            forall|i: int, k: int| 0 <= i <= k < s.len() ==> s[i] <= s[k],
            forall|k: int| 0 <= k < s.len() ==> #[trigger] s[k] <= u32::MAX,
            j <= wide.len(),
            out.len() == j,
            forall|k: int| 0 <= k < j ==> #[trigger] out[k] == s[k],
        decreases wide.len() - j,
    {
        out.push(wide[j] as u32);
        j += 1;
    }
    proof {
        let r = out@;
        assert(ascends(r));
        assert forall|x: u32| r.to_set().contains(x) <==> freqs@.dom().contains(x) by {
            if r.contains(x) {
                let k = r.index_of(x);
                assert(s[k] == x as u64);
                assert(s.to_multiset().count(x as u64) > 0);
                assert(all.contains(x as u64));
                let m = all.index_of(x as u64);
                assert(keys@[m] == x);
                assert(keys@.to_set().contains(x));
            }
            if freqs@.dom().contains(x) {
                assert(keys@.to_set().contains(x));
                let m = keys@.index_of(x);
                assert(all[m] == x as u64);
                assert(all.to_multiset().count(x as u64) > 0);
                assert(s.contains(x as u64));
                let k = s.index_of(x as u64);
                assert(r[k] == x);
            }
        }
        assert(r.to_set() =~= freqs@.dom());
        lemma_ascending_unique(r, symbols_of(freqs@));
        lemma_few_symbols(r, r.len() as int);
    }
    out
}

/// Ascending symbols are not below their places.
proof fn lemma_few_symbols(s: Seq<u32>, n: int)
    requires
        ascends(s),
        0 <= n <= s.len(),
    ensures
        n > 0 ==> s[n - 1] >= n - 1,
    decreases n,
{
    if n > 1 {
        lemma_few_symbols(s, n - 1);
        assert(s[n - 2] < s[n - 1]);
    }
}

/// Adds the symbols of a tree with their depths.
fn walk(t: &Tree, depth: u8, lengths: &mut Vec<(u32, u8)>)
    requires
        depth + height(*t) <= 255,
    ensures
        final(lengths)@ == old(lengths)@ + depths(*t, depth as nat),
    decreases t,
{
    let ghost before = lengths@;
    match t {
        Tree::Leaf(s) => {
            lengths.push((*s, depth));
            assert(lengths@ =~= before + depths(*t, depth as nat));
        },
        Tree::Node(a, b) => {
            walk(a, depth + 1, lengths);
            walk(b, depth + 1, lengths);
            assert(lengths@ =~= before + depths(*t, depth as nat));
        },
    }
}

/// The lengths of the codes of the symbols that occur. Symbols of low
/// frequency get long codes.
pub fn build_lengths(freqs: &fxhash::FxHashMap<u32, u64>) -> (r: Vec<(u32, u8)>)
    requires
        total_freq(freqs@) <= u64::MAX,
    ensures
        r@ == lengths_of(freqs@),
{
    broadcast use vstd::std_specs::hash::group_hash_axioms;

    let syms = sorted_symbols(freqs);
    let ghost m = freqs@;
    let ghost sv = syms@;
    let mut forest: Vec<Item> = Vec::new();
    let mut i: usize = 0;
    let mut next: u64 = 0;
    while i < syms.len()
        invariant
            m == freqs@,
            sv == syms@,
            sv.to_set() == m.dom(),
            syms.len() <= 0x1_0000_0000,
            i <= syms.len(),
            next <= i,
            next == forest.len(),
            forest@ == planted(m, sv, i as int),
            sorted(forest@),
        decreases syms.len() - i,
    {
        broadcast use vstd::std_specs::hash::group_hash_axioms;

        let s: u32 = syms[i];
        assert(sv.to_set().contains(s));
        let f: u64 = match table_get(freqs, &s) {
            Some(f) => *f,
            None => 0,
        };
        if f != 0 {
            place(&mut forest, Item { freq: f, id: next, tree: Tree::Leaf(s) });
            next += 1;
        }
        i += 1;
    }
    let mut lengths: Vec<(u32, u8)> = Vec::new();
    if forest.len() == 0 {
        return lengths;
    }
    let ghost planted_forest = forest@;
    proof {
        lemma_planted(m, sv, sv.len() as int);
    }
    let alone = forest.len() == 1;
    let start: u64 = next;
    let ghost mut kids: Seq<nat> = Seq::new(forest@.len(), |i: int| 0nat);
    while forest.len() > 1
        invariant
            forest.len() >= 1,
            sorted(forest@),
            weight(forest@) <= u64::MAX,
            balanced(forest@, kids),
            start <= 0x1_0000_0000,
            next + forest.len() <= 2 * start,
            grown(forest@, next as nat) == grown(planted_forest, start as nat),
        decreases forest.len(),
    {
        let ghost f = forest@;
        proof {
            lemma_weight_front(f);
            lemma_sorted_rest(f);
            lemma_placed(f.subrange(2, f.len() as int), joined(f[0], f[1], next as nat));
            lemma_weight_insert(
                f.subrange(2, f.len() as int),
                spot(
                    f.subrange(2, f.len() as int),
                    joined(f[0], f[1], next as nat),
                    f.len() - 2,
                ),
                joined(f[0], f[1], next as nat),
            );
            kids = lemma_balanced_step(f, kids, next as nat);
        }
        let a = forest.remove(0);
        let b = forest.remove(0);
        assert(forest@ =~= f.subrange(2, f.len() as int));
        let x = Item {
            freq: a.freq + b.freq,
            id: next,
            tree: Tree::Node(Box::new(a.tree), Box::new(b.tree)),
        };
        assert(x == joined(f[0], f[1], next as nat));
        place(&mut forest, x);
        next += 1;
    }
    proof {
        lemma_grown_height(planted_forest, Seq::new(planted_forest.len(), |i: int| 0nat), start as nat);
        lemma_height_small(planted_forest);
        if alone {
            lemma_leaf(m, sv, sv.len() as int, 0);
        }
    }
    let root = forest.remove(0);
    walk(
        &root.tree,
        if alone {
            1
        } else {
            0
        },
        &mut lengths,
    );
    assert(lengths@ =~= lengths_of(m));
    lengths
}

} // verus!
