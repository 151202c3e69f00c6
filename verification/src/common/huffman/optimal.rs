//! No code is cheaper than that of the lengths that frequencies give.
use vstd::prelude::*;

use crate::common::huffman::tree::{
    ascends, depths, grown, height, joined, law_lengths_symbols, lemma_placed,
    lemma_planted_height, lemma_planted_leaf, lemma_sorted_rest, lemma_spot_range,
    lemma_weight_front, lemma_weight_insert, lengths_of, listed, placed, planted, sorted, spot,
    symbols_of, total_freq, weight, Item, Tree,
};
use crate::float::{lemma_two_add, lemma_two_mono, two};

verus! {

/// The sum of numbers.
pub open spec fn sum(s: Seq<nat>) -> nat
    decreases s.len(),
{
    if s.len() == 0 {
        0
    } else {
        sum(s.drop_last()) + s.last()
    }
}

proof fn lemma_sum_update(s: Seq<nat>, i: int, v: nat)
    requires
        0 <= i < s.len(),
    ensures
        sum(s.update(i, v)) + s[i] == sum(s) + v,
    decreases s.len(),
{
    let t = s.update(i, v);
    if i == s.len() - 1 {
        assert(t.drop_last() =~= s.drop_last());
    } else {
        assert(t.drop_last() =~= s.drop_last().update(i, v));
        lemma_sum_update(s.drop_last(), i, v);
    }
}

proof fn lemma_sum_insert(s: Seq<nat>, i: int, v: nat)
    requires
        0 <= i <= s.len(),
    ensures
        sum(s.insert(i, v)) == sum(s) + v,
    decreases s.len(),
{
    let t = s.insert(i, v);
    if i == s.len() {
        assert(t.drop_last() =~= s);
    } else {
        assert(t.drop_last() =~= s.drop_last().insert(i, v));
        assert(t.last() == s.last());
        lemma_sum_insert(s.drop_last(), i, v);
    }
}

/// The shares of lengths of a whole of two to the power of `top`.
pub open spec fn parts(lens: Seq<nat>, top: nat) -> Seq<nat> {
    Seq::new(lens.len(), |i: int| two((top - lens[i]) as nat))
}

/// What each tree of a forest costs with a length.
spec fn costs(forest: Seq<Item>, lens: Seq<nat>) -> Seq<nat> {
    Seq::new(forest.len(), |i: int| forest[i].freq as nat * lens[i])
}

/// What the joining of the trees of a forest costs: the frequencies of all
/// trees that are joined.
spec fn bill(forest: Seq<Item>, next: nat) -> nat
    decreases forest.len(),
{
    if forest.len() <= 1 {
        0
    } else {
        proof {
            lemma_spot_range(
                forest.subrange(2, forest.len() as int),
                joined(forest[0], forest[1], next),
                forest.len() - 2,
            );
        }
        forest[0].freq as nat + forest[1].freq as nat + bill(
            placed(
                forest.subrange(2, forest.len() as int),
                joined(forest[0], forest[1], next),
            ),
            next + 1,
        )
    }
}

/// Whether lengths fit the trees of a forest and fill no more than the whole.
spec fn lengths_fit(forest: Seq<Item>, lens: Seq<nat>, top: nat) -> bool {
    &&& lens.len() == forest.len()
    &&& forall|i: int| 0 <= i < lens.len() ==> #[trigger] lens[i] <= top
    &&& sum(parts(lens, top)) <= two(top)
}

/// The place of a greatest length.
proof fn lemma_longest(lens: Seq<nat>) -> (a: int)
    requires
        lens.len() > 0,
    ensures
        0 <= a < lens.len(),
        forall|i: int| 0 <= i < lens.len() ==> #[trigger] lens[i] <= lens[a],
    decreases lens.len(),
{
    if lens.len() == 1 {
        0
    } else {
        let b = lemma_longest(lens.drop_last());
        let n = lens.len() - 1;
        assert(lens.drop_last()[b] == lens[b]);
        if lens[n] > lens[b] {
            assert forall|i: int| 0 <= i < lens.len() implies #[trigger] lens[i] <= lens[n] by {
                if i < n {
                    assert(lens.drop_last()[i] == lens[i]);
                }
            }
            n
        } else {
            assert forall|i: int| 0 <= i < lens.len() implies #[trigger] lens[i] <= lens[b] by {
                if i < n {
                    assert(lens.drop_last()[i] == lens[i]);
                }
            }
            b
        }
    }
}

/// Lengths exchanged between a lighter and a heavier tree, so that the lighter
/// gets the longer: they cost no more and fill as much.
proof fn lemma_exchange(forest: Seq<Item>, lens: Seq<nat>, top: nat, i: int, j: int)
    requires
        lengths_fit(forest, lens, top),
        0 <= i < lens.len(),
        0 <= j < lens.len(),
        forest[i].freq <= forest[j].freq,
        lens[i] <= lens[j],
    ensures
        ({
            let more = lens.update(i, lens[j]).update(j, lens[i]);
            &&& lengths_fit(forest, more, top)
            &&& sum(costs(forest, more)) <= sum(costs(forest, lens))
            &&& sum(more) == sum(lens)
        }),
{
    let one = lens.update(i, lens[j]);
    let more = one.update(j, lens[i]);
    if i == j {
        assert(more =~= lens);
    } else {
        lemma_sum_update(lens, i, lens[j]);
        lemma_sum_update(one, j, lens[i]);
        let (p, q, r) = (parts(lens, top), parts(one, top), parts(more, top));
        assert(q =~= p.update(i, p[j]));
        assert(r =~= q.update(j, p[i]));
        lemma_sum_update(p, i, p[j]);
        lemma_sum_update(q, j, p[i]);
        let (f, g) = (forest[i].freq as nat, forest[j].freq as nat);
        let (x, y) = (lens[i], lens[j]);
        let (c, d, e) = (costs(forest, lens), costs(forest, one), costs(forest, more));
        assert(d =~= c.update(i, f * y));
        assert(e =~= d.update(j, g * x));
        lemma_sum_update(c, i, f * y);
        lemma_sum_update(d, j, g * x);
        assert(f * y + g * x <= f * x + g * y) by (nonlinear_arith)
            requires
                f <= g,
                x <= y,
        ;
        assert(d[j] == g * y);
    }
}

/// A sum of multiples is a multiple.
proof fn lemma_multiples(s: Seq<nat>, u: nat, k: Seq<nat>)
    requires
        s.len() == k.len(),
        forall|i: int| 0 <= i < s.len() ==> #[trigger] s[i] == u * k[i],
    ensures
        sum(s) == u * sum(k),
    decreases s.len(),
{
    if s.len() == 0 {
        assert(u * 0 == 0) by (nonlinear_arith);
    } else {
        let (t, j) = (s.drop_last(), k.drop_last());
        assert forall|i: int| 0 <= i < t.len() implies #[trigger] t[i] == u * j[i] by {
            assert(s[i] == t[i]);
        }
        lemma_multiples(t, u, j);
        let (x, y) = (sum(j), k.last());
        assert(s[s.len() - 1] == u * y);
        assert(u * x + u * y == u * (x + y)) by (nonlinear_arith);
    }
}

/// A length that is longer than all others can be one less.
proof fn lemma_shorten(forest: Seq<Item>, lens: Seq<nat>, top: nat, a: int)
    requires
        lengths_fit(forest, lens, top),
        0 <= a < lens.len(),
        lens[a] > 0,
        forall|i: int| 0 <= i < lens.len() && i != a ==> #[trigger] lens[i] < lens[a],
    ensures
        ({
            let less = lens.update(a, (lens[a] - 1) as nat);
            &&& lengths_fit(forest, less, top)
            &&& sum(costs(forest, less)) <= sum(costs(forest, lens))
            &&& sum(less) < sum(lens)
        }),
{
    let l = lens[a];
    let less = lens.update(a, (l - 1) as nat);
    let u = two((top - l) as nat);
    let (p, q) = (parts(lens, top), parts(less, top));
    assert(two((top - l + 1) as nat) == 2 * u);
    assert(q =~= p.update(a, 2 * u));
    lemma_sum_update(p, a, 2 * u);
    lemma_sum_update(lens, a, (l - 1) as nat);
    let k = Seq::new(
        lens.len(),
        |i: int|
            if i == a {
                1
            } else {
                two((l - 1 - lens[i]) as nat)
            },
    );
    assert forall|i: int| 0 <= i < q.len() implies #[trigger] q[i] == (2 * u) * k[i] by {
        if i != a {
            assert(lens[i] < l);
            let e = (l - 1 - lens[i]) as nat;
            lemma_two_add((top - l + 1) as nat, e);
            assert((top - l + 1) as nat + e == (top - lens[i]) as nat);
        }
    }
    lemma_multiples(q, 2 * u, k);
    let m = sum(k);
    lemma_two_add((top - l + 1) as nat, (l - 1) as nat);
    let w = two((l - 1) as nat);
    assert((top - l + 1) as nat + (l - 1) as nat == top);
    assert(two(top) == (2 * u) * w);
    lemma_two_mono(0, (top - l) as nat);
    assert(sum(q) == sum(p) + u);
    assert((2 * u) * m <= (2 * u) * w) by (nonlinear_arith)
        requires
            (2 * u) * m <= (2 * u) * w + u,
            u > 0,
    ;
    let f = forest[a].freq as nat;
    let (c, d) = (costs(forest, lens), costs(forest, less));
    assert(d =~= c.update(a, f * (l - 1) as nat));
    lemma_sum_update(c, a, f * (l - 1) as nat);
    assert(f * (l - 1) as nat <= f * l) by (nonlinear_arith)
        requires
            l > 0,
    ;
}

/// Two trees of the greatest length joined.
proof fn lemma_join(forest: Seq<Item>, lens: Seq<nat>, top: nat, next: nat) -> (r: Seq<nat>)
    requires
        lengths_fit(forest, lens, top),
        sorted(forest),
        forest.len() >= 2,
        forest[0].freq + forest[1].freq <= u64::MAX,
        lens[0] == lens[1],
        lens[0] > 0,
    ensures
        ({
            let rest = forest.subrange(2, forest.len() as int);
            let all = placed(rest, joined(forest[0], forest[1], next));
            &&& lengths_fit(all, r, top)
            &&& sum(costs(forest, lens)) == sum(costs(all, r)) + forest[0].freq + forest[1].freq
        }),
{
    let n = forest.len() as int;
    let rest = forest.subrange(2, n);
    let kept = lens.subrange(2, n);
    let x = joined(forest[0], forest[1], next);
    let at = spot(rest, x, rest.len() as int);
    lemma_sorted_rest(forest);
    lemma_placed(rest, x);
    let all = placed(rest, x);
    let l = lens[0];
    let r = kept.insert(at, (l - 1) as nat);
    let u = two((top - l) as nat);
    assert(two((top - l + 1) as nat) == 2 * u);
    let (p, q, s) = (parts(kept, top), parts(r, top), parts(lens, top));
    assert(q =~= p.insert(at, 2 * u));
    lemma_sum_insert(p, at, 2 * u);
    assert(s =~= p.insert(0, u).insert(0, u));
    lemma_sum_insert(p, 0, u);
    lemma_sum_insert(p.insert(0, u), 0, u);
    let (f, g) = (forest[0].freq as nat, forest[1].freq as nat);
    let (c, d, e) = (costs(rest, kept), costs(all, r), costs(forest, lens));
    assert(d =~= c.insert(at, (f + g) * (l - 1) as nat));
    lemma_sum_insert(c, at, (f + g) * (l - 1) as nat);
    assert(e =~= c.insert(0, g * l).insert(0, f * l));
    lemma_sum_insert(c, 0, g * l);
    lemma_sum_insert(c.insert(0, g * l), 0, f * l);
    assert(f * l + g * l == (f + g) * (l - 1) as nat + f + g) by (nonlinear_arith)
        requires
            l > 0,
    ;
    assert forall|i: int| 0 <= i < r.len() implies #[trigger] r[i] <= top by {
        if i < at {
            assert(r[i] == lens[i + 2]);
        } else if i > at {
            assert(r[i] == lens[i + 1]);
        }
    }
    r
}

/// Lengths that fill no more than the whole cost at least what the joining of
/// the trees does.
proof fn lemma_cheapest(forest: Seq<Item>, lens: Seq<nat>, top: nat, next: nat)
    requires
        lengths_fit(forest, lens, top),
        sorted(forest),
        forest.len() >= 1,
        weight(forest) <= u64::MAX,
    ensures
        sum(costs(forest, lens)) >= bill(forest, next),
    decreases forest.len(), sum(lens), 2int,
{
    if forest.len() > 1 {
        let a = lemma_longest(lens);
        let l = lens[a];
        if l == 0 {
            lemma_no_room(lens, top);
        } else if exists|b: int| 0 <= b < lens.len() && b != a && #[trigger] lens[b] == l {
            let b = choose|b: int| 0 <= b < lens.len() && b != a && #[trigger] lens[b] == l;
            lemma_cheapest_two(forest, lens, top, next, a, b);
        } else {
            lemma_shorten(forest, lens, top, a);
            lemma_cheapest(forest, lens.update(a, (l - 1) as nat), top, next);
        }
    }
}

/// Lengths of zero leave room for one only.
proof fn lemma_no_room(lens: Seq<nat>, top: nat)
    requires
        lens.len() > 1,
        forall|i: int| 0 <= i < lens.len() ==> #[trigger] lens[i] == 0,
    ensures
        sum(parts(lens, top)) > two(top),
{
    let p = parts(lens, top);
    let q = p.drop_last();
    lemma_two_mono(0, top);
    assert(p.last() == two((top - lens[lens.len() - 1]) as nat));
    assert(q.last() == two((top - lens[lens.len() - 2]) as nat));
    assert(sum(p) == sum(q) + p.last());
    assert(sum(q) == sum(q.drop_last()) + q.last());
}

proof fn lemma_cheapest_two(
    forest: Seq<Item>,
    lens: Seq<nat>,
    top: nat,
    next: nat,
    a: int,
    b: int,
)
    requires
        lengths_fit(forest, lens, top),
        sorted(forest),
        forest.len() >= 2,
        weight(forest) <= u64::MAX,
        0 <= a < lens.len(),
        0 <= b < lens.len(),
        a != b,
        lens[a] > 0,
        lens[a] == lens[b],
        forall|i: int| 0 <= i < lens.len() ==> #[trigger] lens[i] <= lens[a],
    ensures
        sum(costs(forest, lens)) >= bill(forest, next),
    decreases forest.len(), sum(lens), 1int,
{
    let l = lens[a];
    // the greatest length at the first place
    let one = if b == 0 {
        lens
    } else {
        lemma_exchange(forest, lens, top, 0, a);
        lens.update(0, lens[a]).update(a, lens[0])
    };
    let c = if b == 0 {
        a
    } else {
        b
    };
    assert(one[0] == l && one[c] == l && 1 <= c);
    assert forall|i: int| 0 <= i < one.len() implies #[trigger] one[i] <= l by {
        if b != 0 && i == a {
            assert(lens[0] <= l);
        } else {
            assert(lens[i] <= l);
        }
    }
    // and at the second
    assert(one[1] <= l);
    lemma_exchange(forest, one, top, 1, c);
    let both = one.update(1, one[c]).update(c, one[1]);
    assert(both[0] == l && both[1] == l);
    lemma_weight_front(forest);
    let r = lemma_join(forest, both, top, next);
    let rest = forest.subrange(2, forest.len() as int);
    let x = joined(forest[0], forest[1], next);
    lemma_sorted_rest(forest);
    lemma_placed(rest, x);
    lemma_weight_insert(rest, spot(rest, x, rest.len() as int), x);
    lemma_cheapest(placed(rest, x), r, top, next + 1);
}

// The cost of a tree.

/// The sum of a number over the leaves of a tree.
spec fn tree_sum(t: Tree, g: spec_fn(u32) -> nat) -> nat
    decreases t,
{
    match t {
        Tree::Leaf(s) => g(s),
        Tree::Node(a, b) => tree_sum(*a, g) + tree_sum(*b, g),
    }
}

/// The sum of a number times the depth over the leaves of a tree.
spec fn tree_cost(t: Tree, g: spec_fn(u32) -> nat, d: nat) -> nat
    decreases t,
{
    match t {
        Tree::Leaf(s) => g(s) * d,
        Tree::Node(a, b) => tree_cost(*a, g, d + 1) + tree_cost(*b, g, d + 1),
    }
}

proof fn lemma_deeper(t: Tree, g: spec_fn(u32) -> nat, d: nat)
    ensures
        tree_cost(t, g, d + 1) == tree_cost(t, g, d) + tree_sum(t, g),
    decreases t,
{
    match t {
        Tree::Leaf(s) => {
            let x = g(s);
            assert(x * (d + 1) == x * d + x) by (nonlinear_arith);
        },
        Tree::Node(a, b) => {
            lemma_deeper(*a, g, d + 1);
            lemma_deeper(*b, g, d + 1);
        },
    }
}

/// The sums over the trees of a forest.
spec fn forest_sums(forest: Seq<Item>, g: spec_fn(u32) -> nat) -> Seq<nat> {
    Seq::new(forest.len(), |i: int| tree_sum(forest[i].tree, g))
}

/// The costs of the trees of a forest.
spec fn forest_costs(forest: Seq<Item>, g: spec_fn(u32) -> nat) -> Seq<nat> {
    Seq::new(forest.len(), |i: int| tree_cost(forest[i].tree, g, 0))
}

/// Whether the frequencies of trees are those of their leaves.
spec fn weighed(forest: Seq<Item>, g: spec_fn(u32) -> nat) -> bool {
    forall|i: int| 0 <= i < forest.len() ==> (#[trigger] forest[i]).freq == tree_sum(
        forest[i].tree,
        g,
    )
}

/// The tree that grows from a forest has its leaves.
proof fn lemma_grown_sum(forest: Seq<Item>, g: spec_fn(u32) -> nat, next: nat)
    requires
        forest.len() >= 1,
        sorted(forest),
    ensures
        tree_sum(grown(forest, next), g) == sum(forest_sums(forest, g)),
    decreases forest.len(),
{
    let all = forest_sums(forest, g);
    if forest.len() == 1 {
        assert(all.drop_last() =~= Seq::empty());
        assert(sum(all.drop_last()) == 0);
    } else {
        let rest = forest.subrange(2, forest.len() as int);
        let x = joined(forest[0], forest[1], next);
        let at = spot(rest, x, rest.len() as int);
        lemma_sorted_rest(forest);
        lemma_placed(rest, x);
        let p = forest_sums(rest, g);
        let (a, b) = (tree_sum(forest[0].tree, g), tree_sum(forest[1].tree, g));
        assert(forest_sums(placed(rest, x), g) =~= p.insert(at, a + b));
        lemma_sum_insert(p, at, a + b);
        assert(all =~= p.insert(0, b).insert(0, a));
        lemma_sum_insert(p, 0, b);
        lemma_sum_insert(p.insert(0, b), 0, a);
        lemma_grown_sum(placed(rest, x), g, next + 1);
    }
}

/// The tree that grows from a forest costs what its trees and their joining
/// do.
proof fn lemma_grown_cost(forest: Seq<Item>, g: spec_fn(u32) -> nat, next: nat)
    requires
        forest.len() >= 1,
        sorted(forest),
        weighed(forest, g),
        weight(forest) <= u64::MAX,
    ensures
        tree_cost(grown(forest, next), g, 0) == sum(forest_costs(forest, g)) + bill(forest, next),
    decreases forest.len(),
{
    let all = forest_costs(forest, g);
    if forest.len() == 1 {
        assert(all.drop_last() =~= Seq::empty());
        assert(sum(all.drop_last()) == 0);
    } else {
        let rest = forest.subrange(2, forest.len() as int);
        let x = joined(forest[0], forest[1], next);
        let at = spot(rest, x, rest.len() as int);
        lemma_sorted_rest(forest);
        lemma_placed(rest, x);
        lemma_weight_front(forest);
        lemma_weight_insert(rest, at, x);
        let (s, t) = (forest[0].tree, forest[1].tree);
        lemma_deeper(s, g, 0);
        lemma_deeper(t, g, 0);
        let p = forest_costs(rest, g);
        let (a, b) = (tree_cost(s, g, 0), tree_cost(t, g, 0));
        let c = a + b + forest[0].freq as nat + forest[1].freq as nat;
        assert(forest[0].freq == tree_sum(s, g) && forest[1].freq == tree_sum(t, g));
        assert(tree_cost(x.tree, g, 0) == tree_cost(s, g, 1) + tree_cost(t, g, 1));
        assert(tree_cost(x.tree, g, 0) == c);
        let q = placed(rest, x);
        assert(forest_costs(q, g) =~= p.insert(at, c));
        lemma_sum_insert(p, at, c);
        assert(all =~= p.insert(0, b).insert(0, a));
        lemma_sum_insert(p, 0, b);
        lemma_sum_insert(p.insert(0, b), 0, a);
        assert(weighed(q, g)) by {
            assert forall|i: int| 0 <= i < q.len() implies (#[trigger] q[i]).freq == tree_sum(
                q[i].tree,
                g,
            ) by {
                if i < at {
                    assert(q[i] == forest[i + 2]);
                } else if i > at {
                    assert(q[i] == forest[i + 1]);
                }
            }
        }
        lemma_grown_cost(q, g, next + 1);
    }
}

proof fn lemma_sum_add(a: Seq<nat>, b: Seq<nat>)
    ensures
        sum(a + b) == sum(a) + sum(b),
    decreases b.len(),
{
    if b.len() > 0 {
        lemma_sum_add(a, b.drop_last());
        assert((a + b).drop_last() =~= a + b.drop_last());
    } else {
        assert(a + b =~= a);
    }
}

/// What the codes of lengths cost, by the number of each symbol: the number of
/// bits of a text in which each symbol stands as often.
pub open spec fn code_cost(g: spec_fn(u32) -> nat, lengths: Seq<(u32, u8)>) -> nat {
    sum(Seq::new(lengths.len(), |i: int| g(lengths[i].0) * lengths[i].1 as nat))
}

/// The sum of a number over symbols.
pub open spec fn over(g: spec_fn(u32) -> nat, syms: Seq<u32>) -> nat {
    sum(Seq::new(syms.len(), |i: int| g(syms[i])))
}

proof fn lemma_depths_cost(t: Tree, g: spec_fn(u32) -> nat, d: nat)
    requires
        d + height(t) <= 255,
    ensures
        code_cost(g, depths(t, d)) == tree_cost(t, g, d),
    decreases t,
{
    let all = depths(t, d);
    let c = Seq::new(all.len(), |i: int| g(all[i].0) * all[i].1 as nat);
    match t {
        Tree::Leaf(s) => {
            assert(c.drop_last() =~= Seq::empty());
            assert(sum(c.drop_last()) == 0);
            assert(c.last() == g(s) * d);
        },
        Tree::Node(a, b) => {
            lemma_depths_cost(*a, g, d + 1);
            lemma_depths_cost(*b, g, d + 1);
            let (x, y) = (depths(*a, d + 1), depths(*b, d + 1));
            let p = Seq::new(x.len(), |i: int| g(x[i].0) * x[i].1 as nat);
            let q = Seq::new(y.len(), |i: int| g(y[i].0) * y[i].1 as nat);
            assert(c =~= p + q);
            lemma_sum_add(p, q);
        },
    }
}

proof fn lemma_depths_sum(t: Tree, g: spec_fn(u32) -> nat, d: nat)
    ensures
        over(g, listed(depths(t, d))) == tree_sum(t, g),
    decreases t,
{
    let all = listed(depths(t, d));
    let c = Seq::new(all.len(), |i: int| g(all[i]));
    match t {
        Tree::Leaf(s) => {
            assert(c.drop_last() =~= Seq::empty());
            assert(sum(c.drop_last()) == 0);
            assert(c.last() == g(s));
        },
        Tree::Node(a, b) => {
            lemma_depths_sum(*a, g, d + 1);
            lemma_depths_sum(*b, g, d + 1);
            let (x, y) = (listed(depths(*a, d + 1)), listed(depths(*b, d + 1)));
            let p = Seq::new(x.len(), |i: int| g(x[i]));
            let q = Seq::new(y.len(), |i: int| g(y[i]));
            assert(c =~= p + q);
            lemma_sum_add(p, q);
        },
    }
}

/// No lengths are cheaper: other lengths of one at least, which fill no more
/// than the whole on the symbols that occur, give a text with these frequencies
/// as many bits at least.
pub proof fn law_lengths_cheapest(freqs: Map<u32, u64>, l: spec_fn(u32) -> nat, top: nat)
    requires
        total_freq(freqs) <= u64::MAX,
        forall|s: u32| 1 <= #[trigger] l(s) <= top,
        over(|s: u32| two((top - l(s)) as nat), listed(lengths_of(freqs))) <= two(top),
    ensures
        code_cost(|s: u32| freqs[s] as nat, lengths_of(freqs)) <= over(
            |s: u32| freqs[s] as nat * l(s),
            listed(lengths_of(freqs)),
        ),
{
    let syms = symbols_of(freqs);
    let forest = planted(freqs, syms, syms.len() as int);
    let g = |s: u32| freqs[s] as nat;
    let h = |s: u32| two((top - l(s)) as nat);
    let k = |s: u32| freqs[s] as nat * l(s);
    let lengths = lengths_of(freqs);
    let out = listed(lengths);
    lemma_planted_height(freqs);
    assert forall|i: int| 0 <= i < forest.len() implies (#[trigger] forest[i]).tree is Leaf
        && forest[i].freq == freqs[forest[i].tree->Leaf_0] by {
        lemma_planted_leaf(freqs, syms, syms.len() as int, i);
    }
    if forest.len() == 0 {
        assert(out =~= Seq::empty());
        assert(Seq::new(lengths.len(), |i: int| g(lengths[i].0) * lengths[i].1 as nat)
            =~= Seq::empty());
    } else if forest.len() == 1 {
        let s = forest[0].tree->Leaf_0;
        assert(lengths =~= seq![(s, 1u8)]);
        let c = Seq::new(lengths.len(), |i: int| g(lengths[i].0) * lengths[i].1 as nat);
        let e = Seq::new(out.len(), |i: int| k(out[i]));
        assert(out[0] == s);
        assert(c.drop_last() =~= Seq::empty() && e.drop_last() =~= Seq::empty());
        assert(sum(c.drop_last()) == 0 && sum(e.drop_last()) == 0);
        let (x, y) = (g(s), l(s));
        assert(c.last() == x * 1 && e.last() == x * y);
        assert(x * 1 <= x * y) by (nonlinear_arith)
            requires
                y >= 1,
        ;
    } else {
        let t = grown(forest, forest.len());
        let lens = Seq::new(forest.len(), |i: int| l(forest[i].tree->Leaf_0));
        lemma_depths_cost(t, g, 0);
        lemma_depths_sum(t, h, 0);
        lemma_depths_sum(t, k, 0);
        assert(weighed(forest, g));
        lemma_grown_cost(forest, g, forest.len());
        lemma_grown_sum(forest, h, forest.len());
        lemma_grown_sum(forest, k, forest.len());
        lemma_zero(forest_costs(forest, g));
        assert(forest_sums(forest, h) =~= parts(lens, top));
        assert(forest_sums(forest, k) =~= costs(forest, lens));
        lemma_cheapest(forest, lens, top, forest.len());
    }
}

proof fn lemma_zero(s: Seq<nat>)
    requires
        forall|i: int| 0 <= i < s.len() ==> #[trigger] s[i] == 0,
    ensures
        sum(s) == 0,
    decreases s.len(),
{
    if s.len() > 0 {
        let t = s.drop_last();
        assert forall|i: int| 0 <= i < t.len() implies #[trigger] t[i] == 0 by {
            assert(s[i] == 0);
        }
        lemma_zero(t);
        assert(s[s.len() - 1] == 0);
    }
}

// Prefix codes.

/// Whether a code starts with another.
pub open spec fn starts_with(a: Seq<bool>, b: Seq<bool>) -> bool {
    b.len() <= a.len() && a.subrange(0, b.len() as int) == b
}

/// Whether no code starts with another.
pub open spec fn prefix_free(codes: Seq<Seq<bool>>) -> bool {
    forall|i: int, j: int|
        0 <= i < codes.len() && 0 <= j < codes.len() && i != j ==> !starts_with(
            #[trigger] codes[i],
            #[trigger] codes[j],
        )
}

/// The lengths of codes.
spec fn lens_of(codes: Seq<Seq<bool>>) -> Seq<nat> {
    Seq::new(codes.len(), |i: int| codes[i].len())
}

/// The places among the first `n` of the codes that start with a bit.
spec fn branch_at(codes: Seq<Seq<bool>>, bit: bool, n: int) -> Seq<int>
    decreases n,
{
    if n <= 0 {
        Seq::empty()
    } else if codes[n - 1][0] == bit {
        branch_at(codes, bit, n - 1).push(n - 1)
    } else {
        branch_at(codes, bit, n - 1)
    }
}

/// The rest behind the first bit of the codes that start with a bit.
spec fn branch(codes: Seq<Seq<bool>>, bit: bool, n: int) -> Seq<Seq<bool>> {
    let at = branch_at(codes, bit, n);
    Seq::new(at.len(), |k: int| codes[at[k]].subrange(1, codes[at[k]].len() as int))
}

proof fn lemma_branch_at(codes: Seq<Seq<bool>>, bit: bool, n: int)
    requires
        0 <= n <= codes.len(),
    ensures
        forall|k: int|
            0 <= k < branch_at(codes, bit, n).len() ==> 0 <= #[trigger] branch_at(codes, bit, n)[k]
                < n && codes[branch_at(codes, bit, n)[k]][0] == bit,
        forall|j: int, k: int|
            0 <= j < k < branch_at(codes, bit, n).len() ==> branch_at(codes, bit, n)[j] < branch_at(
                codes,
                bit,
                n,
            )[k],
    decreases n,
{
    if n > 0 {
        lemma_branch_at(codes, bit, n - 1);
        let (a, b) = (branch_at(codes, bit, n - 1), branch_at(codes, bit, n));
        assert forall|k: int| 0 <= k < b.len() implies 0 <= #[trigger] b[k] < n && codes[b[k]][0]
            == bit by {
            if k < a.len() {
                assert(b[k] == a[k]);
            }
        }
        assert forall|j: int, k: int| 0 <= j < k < b.len() implies b[j] < b[k] by {
            assert(b[j] == a[j]);
            if k < a.len() {
                assert(b[k] == a[k]);
            }
        }
    }
}

/// The shares of codes are those of the two branches.
proof fn lemma_branch_parts(codes: Seq<Seq<bool>>, top: nat, n: int)
    requires
        0 <= n <= codes.len(),
        top > 0,
        forall|i: int| 0 <= i < codes.len() ==> 1 <= (#[trigger] codes[i]).len() <= top,
    ensures
        sum(parts(lens_of(codes.subrange(0, n)), top)) == sum(
            parts(lens_of(branch(codes, false, n)), (top - 1) as nat),
        ) + sum(parts(lens_of(branch(codes, true, n)), (top - 1) as nat)),
    decreases n,
{
    let all = parts(lens_of(codes.subrange(0, n)), top);
    let low = (top - 1) as nat;
    let (f, t) = (
        parts(lens_of(branch(codes, false, n)), low),
        parts(lens_of(branch(codes, true, n)), low),
    );
    if n == 0 {
        assert(all =~= Seq::empty() && f =~= Seq::empty() && t =~= Seq::empty());
    } else {
        lemma_branch_parts(codes, top, n - 1);
        let before = parts(lens_of(codes.subrange(0, n - 1)), top);
        let (g, u) = (
            parts(lens_of(branch(codes, false, n - 1)), low),
            parts(lens_of(branch(codes, true, n - 1)), low),
        );
        assert(all.drop_last() =~= before);
        let c = codes[n - 1];
        assert(all.last() == two((top - c.len()) as nat));
        assert((low - (c.len() - 1)) as nat == (top - c.len()) as nat);
        let v = if c[0] {
            t
        } else {
            f
        };
        assert(c.subrange(1, c.len() as int).len() == c.len() - 1);
        assert(v.last() == two((top - c.len()) as nat));
        if c[0] {
            assert(t.drop_last() =~= u);
            assert(f =~= g);
        } else {
            assert(f.drop_last() =~= g);
            assert(t =~= u);
        }
    }
}

proof fn lemma_branch_free(codes: Seq<Seq<bool>>, bit: bool, top: nat)
    requires
        prefix_free(codes),
        top > 0,
        forall|i: int| 0 <= i < codes.len() ==> 1 <= (#[trigger] codes[i]).len() <= top,
    ensures
        prefix_free(branch(codes, bit, codes.len() as int)),
        forall|i: int|
            0 <= i < branch(codes, bit, codes.len() as int).len() ==> (#[trigger] branch(
                codes,
                bit,
                codes.len() as int,
            )[i]).len() <= top - 1,
{
    let n = codes.len() as int;
    let at = branch_at(codes, bit, n);
    let b = branch(codes, bit, n);
    lemma_branch_at(codes, bit, n);
    assert forall|i: int, j: int| 0 <= i < b.len() && 0 <= j < b.len() && i != j implies !starts_with(
        #[trigger] b[i],
        #[trigger] b[j],
    ) by {
        let (x, y) = (codes[at[i]], codes[at[j]]);
        assert(at[i] != at[j]);
        assert(!starts_with(x, y));
        if starts_with(b[i], b[j]) {
            assert forall|k: int| 0 <= k < y.len() implies x[k] == y[k] by {
                if k > 0 {
                    assert(b[i].subrange(0, b[j].len() as int)[k - 1] == b[j][k - 1]);
                }
            }
            assert(x.subrange(0, y.len() as int) =~= y);
        }
    }
    assert forall|i: int| 0 <= i < b.len() implies (#[trigger] b[i]).len() <= top - 1 by {
        assert(codes[at[i]].len() <= top);
    }
}

/// The codes of a prefix code fill no more than the whole.
pub proof fn law_prefix_code_fills(codes: Seq<Seq<bool>>, top: nat)
    requires
        prefix_free(codes),
        forall|i: int| 0 <= i < codes.len() ==> (#[trigger] codes[i]).len() <= top,
    ensures
        sum(parts(Seq::new(codes.len(), |i: int| codes[i].len()), top)) <= two(top),
    decreases top,
{
    let p = parts(lens_of(codes), top);
    assert(lens_of(codes) =~= Seq::new(codes.len(), |i: int| codes[i].len()));
    if exists|i: int| 0 <= i < codes.len() && (#[trigger] codes[i]).len() == 0 {
        let i = choose|i: int| 0 <= i < codes.len() && (#[trigger] codes[i]).len() == 0;
        if codes.len() > 1 {
            let j: int = if i == 0 {
                1
            } else {
                0
            };
            assert(codes[j].subrange(0, 0) =~= codes[i]);
            assert(starts_with(codes[j], codes[i]));
        }
        assert(p.drop_last() =~= Seq::empty());
        assert(sum(p.drop_last()) == 0);
    } else if codes.len() > 0 {
        assert forall|i: int| 0 <= i < codes.len() implies 1 <= (#[trigger] codes[i]).len()
            <= top by {}
        assert(codes[0].len() <= top);
        let n = codes.len() as int;
        let low = (top - 1) as nat;
        lemma_branch_free(codes, false, top);
        lemma_branch_free(codes, true, top);
        lemma_branch_parts(codes, top, n);
        assert(codes.subrange(0, n) =~= codes);
        law_prefix_code_fills(branch(codes, false, n), low);
        law_prefix_code_fills(branch(codes, true, n), low);
        let (f, t) = (branch(codes, false, n), branch(codes, true, n));
        assert(lens_of(f) =~= Seq::new(f.len(), |i: int| f[i].len()));
        assert(lens_of(t) =~= Seq::new(t.len(), |i: int| t[i].len()));
        assert(two(top) == 2 * two(low));
    } else {
        assert(p =~= Seq::empty());
        lemma_two_mono(0, top);
    }
}

/// No prefix code makes a text shorter: whatever codes of a bit at least the
/// symbols have, of which no symbol's starts with that of another, a text with
/// these frequencies has as many bits at least as with the lengths given here.
pub proof fn law_no_prefix_code_cheaper(
    freqs: Map<u32, u64>,
    code: spec_fn(u32) -> Seq<bool>,
    top: nat,
)
    requires
        exists|s: Seq<u32>| ascends(s) && #[trigger] s.to_set() == freqs.dom(),
        total_freq(freqs) <= u64::MAX,
        forall|s: u32| 1 <= (#[trigger] code(s)).len() <= top,
        forall|s: u32, t: u32|
            freqs.contains_key(s) && freqs.contains_key(t) && freqs[s] > 0 && freqs[t] > 0 && s != t
                ==> !starts_with(#[trigger] code(s), #[trigger] code(t)),
    ensures
        code_cost(|s: u32| freqs[s] as nat, lengths_of(freqs)) <= over(
            |s: u32| freqs[s] as nat * code(s).len(),
            listed(lengths_of(freqs)),
        ),
{
    let out = listed(lengths_of(freqs));
    let l = |s: u32| code(s).len();
    law_lengths_symbols(freqs);
    assert forall|s: u32| #[trigger] out.contains(s) implies freqs.contains_key(s) && freqs[s] > 0 by {
        assert(listed(lengths_of(freqs)).contains(s));
    }
    let codes = Seq::new(out.len(), |i: int| code(out[i]));
    assert forall|i: int, j: int|
        0 <= i < codes.len() && 0 <= j < codes.len() && i != j implies !starts_with(
        #[trigger] codes[i],
        #[trigger] codes[j],
    ) by {
        let (s, t) = (out[i], out[j]);
        assert(out.contains(s) && out.contains(t));
        assert(freqs.contains_key(s) && freqs[s] > 0);
        assert(freqs.contains_key(t) && freqs[t] > 0);
        assert(s != t);
        assert(!starts_with(code(s), code(t)));
    }
    law_prefix_code_fills(codes, top);
    let h = |s: u32| two((top - l(s)) as nat);
    assert(parts(Seq::new(codes.len(), |i: int| codes[i].len()), top) =~= Seq::new(
        out.len(),
        |i: int| h(out[i]),
    ));
    law_lengths_cheapest(freqs, l, top);
    let (a, b) = (|s: u32| freqs[s] as nat * l(s), |s: u32| freqs[s] as nat * code(s).len());
    assert(Seq::new(out.len(), |i: int| a(out[i])) =~= Seq::new(out.len(), |i: int| b(out[i])));
}

} // verus!
