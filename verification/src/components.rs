//! Connected components of a graph on the nodes `0 .. n`, and the score they give.

use crate::dual::symmetric;
use vstd::prelude::*;
use vstd::set_lib::{lemma_int_range, lemma_len_subset, set_int_range};

verus! {

/// The `i`-th step of the walk `p` follows a link.
pub open spec fn hop(links: Set<(int, int)>, p: Seq<int>, i: int) -> bool {
    links.contains((p[i], p[i + 1]))
}

/// `p` is a walk from `a` to `b` along links.
pub open spec fn walk(links: Set<(int, int)>, p: Seq<int>, a: int, b: int) -> bool {
    &&& p.len() > 0
    &&& p[0] == a
    &&& p[p.len() - 1] == b
    &&& forall|i: int| 0 <= i < p.len() - 1 ==> #[trigger] hop(links, p, i)
}

/// `b` can be reached from `a` along links.
pub open spec fn connected(links: Set<(int, int)>, a: int, b: int) -> bool {
    exists|p: Seq<int>| #[trigger] walk(links, p, a, b)
}

/// The nodes among `0 .. n` that can be reached from `a`.
pub open spec fn component(links: Set<(int, int)>, n: int, a: int) -> Set<int> {
    Set::new(|b: int| 0 <= b < n && connected(links, a, b))
}

/// `a` is the first node of its component.
pub open spec fn is_first(links: Set<(int, int)>, a: int) -> bool {
    forall|b: int| 0 <= b < a ==> !connected(links, b, a)
}

/// `a` is the first node of a component of more than four nodes.
pub open spec fn scores(links: Set<(int, int)>, n: int, a: int) -> bool {
    is_first(links, a) && component(links, n, a).len() > 4
}

/// The first nodes, below `k`, of the components that score.
pub open spec fn scoring_nodes(links: Set<(int, int)>, n: int, k: int) -> Set<int> {
    Set::new(|a: int| 0 <= a < k && scores(links, n, a))
}

/// The score of a graph on the nodes `0 .. n`: the number of its connected components that
/// have more than four nodes.
pub open spec fn region_score(links: Set<(int, int)>, n: int) -> nat {
    scoring_nodes(links, n, n).len()
}

/// No link leads out of the set.
pub open spec fn closed(links: Set<(int, int)>, s: Set<int>) -> bool {
    forall|a: int, b: int| s.contains(a) && #[trigger] links.contains((a, b)) ==> s.contains(b)
}

pub proof fn lemma_connected_self(links: Set<(int, int)>, a: int)
    ensures
        connected(links, a, a),
{
    assert(walk(links, seq![a], a, a));
}

/// A walk can be taken one link further.
pub proof fn lemma_connected_step(links: Set<(int, int)>, a: int, b: int, c: int)
    requires
        connected(links, a, b),
        links.contains((b, c)),
    ensures
        connected(links, a, c),
{
    let p = choose|p: Seq<int>| #[trigger] walk(links, p, a, b);
    let q = p.push(c);
    assert forall|i: int| 0 <= i < q.len() - 1 implies #[trigger] hop(links, q, i) by {
        if i < p.len() - 1 {
            assert(hop(links, p, i));
        }
    }
    assert(walk(links, q, a, c));
}

/// Where links go both ways, so do walks.
pub proof fn lemma_connected_back(links: Set<(int, int)>, a: int, b: int)
    requires
        symmetric(links),
        connected(links, a, b),
    ensures
        connected(links, b, a),
{
    let p = choose|p: Seq<int>| #[trigger] walk(links, p, a, b);
    let q = Seq::new(p.len(), |i: int| p[p.len() - 1 - i]);
    assert forall|i: int| 0 <= i < q.len() - 1 implies #[trigger] hop(links, q, i) by {
        assert(hop(links, p, p.len() - 2 - i));
    }
    assert(walk(links, q, b, a));
}

proof fn lemma_closed_walk(links: Set<(int, int)>, s: Set<int>, p: Seq<int>, k: int)
    requires
        closed(links, s),
        p.len() > 0,
        forall|i: int| 0 <= i < p.len() - 1 ==> #[trigger] hop(links, p, i),
        s.contains(p[0]),
        0 <= k < p.len(),
    ensures
        s.contains(p[k]),
    decreases k,
{
    if k > 0 {
        lemma_closed_walk(links, s, p, k - 1);
        assert(hop(links, p, k - 1));
    }
}

/// A set that no link leads out of holds all that can be reached from its members.
pub proof fn lemma_closed_holds(links: Set<(int, int)>, s: Set<int>, a: int, b: int)
    requires
        closed(links, s),
        s.contains(a),
        connected(links, a, b),
    ensures
        s.contains(b),
{
    let p = choose|p: Seq<int>| #[trigger] walk(links, p, a, b);
    lemma_closed_walk(links, s, p, p.len() - 1);
}

/// A set of nodes among `0 .. n` is finite and has at most `n` members.
pub proof fn lemma_nodes_finite(s: Set<int>, n: int)
    requires
        0 <= n,
        forall|a: int| s.contains(a) ==> 0 <= a < n,
    ensures
        s.finite(),
        s.len() <= n,
{
    lemma_int_range(0, n);
    lemma_len_subset(s, set_int_range(0, n));
}

/// The first nodes of the components among `0 .. n`.
pub open spec fn first_nodes(links: Set<(int, int)>, n: int) -> Set<int> {
    Set::new(|a: int| 0 <= a < n && is_first(links, a))
}

/// The number of connected components of a graph on the nodes `0 .. n`, whatever their
/// size.
pub open spec fn region_count(links: Set<(int, int)>, n: int) -> nat {
    first_nodes(links, n).len()
}

/// Two walks that meet make one.
pub proof fn lemma_connected_join(links: Set<(int, int)>, a: int, b: int, c: int)
    requires
        connected(links, a, b),
        connected(links, b, c),
    ensures
        connected(links, a, c),
{
    let p = choose|p: Seq<int>| #[trigger] walk(links, p, a, b);
    let q = choose|q: Seq<int>| #[trigger] walk(links, q, b, c);
    let r = p.drop_last() + q;
    let k = p.len() - 1;
    assert forall|i: int| 0 <= i < r.len() - 1 implies #[trigger] hop(links, r, i) by {
        if i < k - 1 {
            assert(hop(links, p, i));
        } else if i == k - 1 {
            assert(hop(links, p, i));
            assert(r[i + 1] == q[0]);
        } else {
            assert(hop(links, q, i - k));
        }
    }
    assert(r[0] == a) by {
        if k == 0 {
            assert(r[0] == q[0]);
        }
    }
    assert(walk(links, r, a, c));
}

/// What is connected with fewer links is connected with more.
pub proof fn lemma_connected_within(
    fewer: Set<(int, int)>,
    more: Set<(int, int)>,
    a: int,
    b: int,
)
    requires
        fewer.subset_of(more),
        connected(fewer, a, b),
    ensures
        connected(more, a, b),
{
    let p = choose|p: Seq<int>| #[trigger] walk(fewer, p, a, b);
    assert forall|i: int| 0 <= i < p.len() - 1 implies #[trigger] hop(more, p, i) by {
        assert(hop(fewer, p, i));
    }
    assert(walk(more, p, a, b));
}

/// The first node of the component of `a`.
pub open spec fn first_of(links: Set<(int, int)>, a: int) -> int {
    choose|r: int| 0 <= r <= a && connected(links, r, a) && is_first(links, r)
}

/// Every node has a first node in its component.
pub proof fn lemma_first_of(links: Set<(int, int)>, a: int)
    requires
        symmetric(links),
        0 <= a,
    ensures
        0 <= first_of(links, a) <= a,
        connected(links, first_of(links, a), a),
        is_first(links, first_of(links, a)),
    decreases a,
{
    if is_first(links, a) {
        lemma_connected_self(links, a);
        assert(0 <= a <= a && connected(links, a, a) && is_first(links, a));
    } else {
        let b = choose|b: int| 0 <= b < a && connected(links, b, a);
        lemma_first_of(links, b);
        let r = first_of(links, b);
        lemma_connected_join(links, r, b, a);
        assert(0 <= r <= a && connected(links, r, a) && is_first(links, r));
    }
}

/// Taking links out of a graph never joins two of its components and never makes them
/// fewer: what is connected afterwards was connected before, and there are at least as
/// many components as before.
pub proof fn lemma_regions_never_join(fewer: Set<(int, int)>, more: Set<(int, int)>, n: int)
    requires
        fewer.subset_of(more),
        symmetric(fewer),
        symmetric(more),
        0 <= n,
    ensures
        forall|a: int, b: int| #[trigger] connected(fewer, a, b) ==> connected(more, a, b),
        region_count(more, n) <= region_count(fewer, n),
{
    assert forall|a: int, b: int| #[trigger] connected(fewer, a, b) implies connected(
        more,
        a,
        b,
    ) by {
        lemma_connected_within(fewer, more, a, b);
    }
    let before = first_nodes(more, n);
    let after = first_nodes(fewer, n);
    let f = |a: int| first_of(fewer, a);
    let image = before.map(f);
    lemma_nodes_finite(before, n);
    lemma_nodes_finite(after, n);
    assert(vstd::relations::injective_on(f, before)) by {
        assert forall|a: int, b: int|
            before.contains(a) && before.contains(b) && #[trigger] f(a) == #[trigger] f(
                b,
            ) implies a == b by {
            lemma_first_of(fewer, a);
            lemma_first_of(fewer, b);
            let r = f(a);
            lemma_connected_back(fewer, r, a);
            lemma_connected_join(fewer, a, r, b);
            lemma_connected_within(fewer, more, a, b);
            lemma_connected_back(more, a, b);
        }
    }
    vstd::set_lib::lemma_map_size(before, image, f);
    assert forall|r: int| image.contains(r) implies after.contains(r) by {
        let a = choose|a: int| before.contains(a) && f(a) == r;
        lemma_first_of(fewer, a);
    }
    lemma_len_subset(image, after);
}

/// No link of `cuts` touches what can be reached from `a`.
pub open spec fn clear_of(links: Set<(int, int)>, cuts: Set<(int, int)>, a: int) -> bool {
    forall|u: int, v: int| #[trigger] cuts.contains((u, v)) ==> !connected(links, a, u)
}

proof fn lemma_walk_survives(
    links: Set<(int, int)>,
    cuts: Set<(int, int)>,
    a: int,
    p: Seq<int>,
    k: int,
)
    requires
        clear_of(links, cuts, a),
        p.len() > 0,
        p[0] == a,
        forall|i: int| 0 <= i < p.len() - 1 ==> #[trigger] hop(links, p, i),
        0 <= k < p.len(),
    ensures
        connected(links.difference(cuts), a, p[k]),
        connected(links, a, p[k]),
    decreases k,
{
    if k == 0 {
        lemma_connected_self(links.difference(cuts), a);
        lemma_connected_self(links, a);
    } else {
        lemma_walk_survives(links, cuts, a, p, k - 1);
        assert(hop(links, p, k - 1));
        lemma_connected_step(links, a, p[k - 1], p[k]);
        lemma_connected_step(links.difference(cuts), a, p[k - 1], p[k]);
    }
}

/// A region that the cut links do not touch stays as it is: the same nodes can be reached
/// from `a` after the cut as before, and `a` scores after the cut exactly if it did before.
pub proof fn lemma_untouched_region(
    links: Set<(int, int)>,
    cuts: Set<(int, int)>,
    n: int,
    a: int,
)
    requires
        symmetric(links),
        symmetric(cuts),
        clear_of(links, cuts, a),
    ensures
        component(links.difference(cuts), n, a) == component(links, n, a),
        is_first(links.difference(cuts), a) <==> is_first(links, a),
        scores(links.difference(cuts), n, a) <==> scores(links, n, a),
{
    let left = links.difference(cuts);
    assert forall|b: int| connected(links, a, b) implies connected(left, a, b) by {
        let p = choose|p: Seq<int>| #[trigger] walk(links, p, a, b);
        lemma_walk_survives(links, cuts, a, p, p.len() - 1);
    }
    assert forall|b: int| connected(left, a, b) implies connected(links, a, b) by {
        lemma_connected_within(left, links, a, b);
    }
    assert(component(left, n, a) =~= component(links, n, a));
    assert(symmetric(left)) by {
        assert forall|x: int, y: int| #[trigger] left.contains((x, y)) implies left.contains(
            (y, x),
        ) by {
            assert(links.contains((y, x)));
            assert(!cuts.contains((y, x)));
        }
    }
    assert forall|b: int| connected(left, b, a) <==> connected(links, b, a) by {
        if connected(left, b, a) {
            lemma_connected_within(left, links, b, a);
        }
        if connected(links, b, a) {
            lemma_connected_back(links, b, a);
            lemma_connected_back(left, a, b);
        }
    }
}

/// Nodes that are connected have the same component.
pub proof fn lemma_same_component(links: Set<(int, int)>, n: int, a: int, b: int)
    requires
        symmetric(links),
        connected(links, a, b),
    ensures
        component(links, n, a) == component(links, n, b),
{
    lemma_connected_back(links, a, b);
    assert forall|x: int| connected(links, a, x) <==> connected(links, b, x) by {
        if connected(links, a, x) {
            lemma_connected_join(links, b, a, x);
        }
        if connected(links, b, x) {
            lemma_connected_join(links, a, b, x);
        }
    }
    assert(component(links, n, a) =~= component(links, n, b));
}

/// Where every cut link lies in the region of `q`, and `q` is left in a region of more
/// than four nodes, the cut does not lower the score: the regions that the cut does not
/// touch stay as they are, and the one that it touches keeps a piece that scores.
pub proof fn lemma_cut_keeps_score(
    links: Set<(int, int)>,
    cuts: Set<(int, int)>,
    n: int,
    q: int,
)
    requires
        symmetric(links),
        symmetric(cuts),
        0 <= q < n,
        forall|u: int, v: int| #[trigger] cuts.contains((u, v)) ==> connected(links, q, u),
        component(links.difference(cuts), n, q).len() > 4,
    ensures
        region_score(links, n) <= region_score(links.difference(cuts), n),
{
    let left = links.difference(cuts);
    assert(symmetric(left)) by {
        assert forall|x: int, y: int| #[trigger] left.contains((x, y)) implies left.contains(
            (y, x),
        ) by {
            assert(links.contains((y, x)));
            assert(!cuts.contains((y, x)));
        }
    }
    let before = scoring_nodes(links, n, n);
    let after = scoring_nodes(left, n, n);
    lemma_first_of(left, q);
    let anchor = first_of(left, q);
    lemma_same_component(left, n, anchor, q);
    let f = |a: int|
        if connected(links, a, q) {
            anchor
        } else {
            a
        };
    let image = before.map(f);
    lemma_nodes_finite(before, n);
    lemma_nodes_finite(after, n);
    assert forall|a: int| before.contains(a) implies after.contains(#[trigger] f(a)) by {
        if !connected(links, a, q) {
            assert(clear_of(links, cuts, a)) by {
                assert forall|u: int, v: int| #[trigger] cuts.contains((u, v)) implies !connected(
                    links,
                    a,
                    u,
                ) by {
                    if connected(links, a, u) {
                        lemma_connected_back(links, q, u);
                        lemma_connected_join(links, a, u, q);
                    }
                }
            }
            lemma_untouched_region(links, cuts, n, a);
        }
    }
    assert(vstd::relations::injective_on(f, before)) by {
        assert forall|a: int, b: int|
            before.contains(a) && before.contains(b) && #[trigger] f(a) == #[trigger] f(
                b,
            ) implies a == b by {
            lemma_connected_within(left, links, anchor, q);
            if connected(links, a, q) && connected(links, b, q) {
                lemma_connected_back(links, b, q);
                lemma_connected_join(links, a, q, b);
                lemma_connected_back(links, a, b);
            } else if connected(links, a, q) {
                lemma_connected_self(links, b);
            } else if connected(links, b, q) {
                lemma_connected_self(links, a);
            }
        }
    }
    vstd::set_lib::lemma_map_size(before, image, f);
    assert forall|r: int| image.contains(r) implies after.contains(r) by {
        let a = choose|a: int| before.contains(a) && f(a) == r;
        assert(after.contains(f(a)));
    }
    lemma_len_subset(image, after);
}

/// A component has one first node: two first nodes that are connected are the same.
pub proof fn lemma_one_first(links: Set<(int, int)>, a: int, b: int)
    requires
        symmetric(links),
        is_first(links, a),
        is_first(links, b),
        0 <= a,
        0 <= b,
        connected(links, a, b),
    ensures
        a == b,
{
    lemma_connected_back(links, a, b);
}

/// Where every cut link lies in the region of `q` or in the region of `p`, the cut lowers
/// the score by two at most, and by one at most where `q` is left in a region of more
/// than four nodes: no region but those two is touched.
pub proof fn lemma_cut_costs_two(
    links: Set<(int, int)>,
    cuts: Set<(int, int)>,
    n: int,
    q: int,
    p: int,
)
    requires
        symmetric(links),
        symmetric(cuts),
        0 <= q < n,
        0 <= p < n,
        forall|u: int, v: int| #[trigger]
            cuts.contains((u, v)) ==> connected(links, q, u) || connected(links, p, u),
    ensures
        region_score(links, n) <= region_score(links.difference(cuts), n) + 2,
        component(links.difference(cuts), n, q).len() > 4 ==> region_score(links, n)
            <= region_score(links.difference(cuts), n) + 1,
{
    let left = links.difference(cuts);
    assert(symmetric(left)) by {
        assert forall|x: int, y: int| #[trigger] left.contains((x, y)) implies left.contains(
            (y, x),
        ) by {
            assert(links.contains((y, x)));
            assert(!cuts.contains((y, x)));
        }
    }
    let before = scoring_nodes(links, n, n);
    let after = scoring_nodes(left, n, n);
    lemma_nodes_finite(before, n);
    lemma_nodes_finite(after, n);
    lemma_first_of(links, q);
    lemma_first_of(links, p);
    let fq = first_of(links, q);
    let fp = first_of(links, p);
    let touched = before.intersect(set![fq, fp]);
    let spared = before.difference(set![fq, fp]);
    assert forall|a: int| spared.contains(a) implies after.contains(a) by {
        assert(clear_of(links, cuts, a)) by {
            assert forall|u: int, v: int| #[trigger] cuts.contains((u, v)) implies !connected(
                links,
                a,
                u,
            ) by {
                if connected(links, a, u) {
                    lemma_connected_back(links, a, u);
                    if connected(links, q, u) {
                        lemma_connected_join(links, q, u, a);
                        lemma_connected_join(links, fq, q, a);
                        lemma_one_first(links, fq, a);
                    } else {
                        lemma_connected_join(links, p, u, a);
                        lemma_connected_join(links, fp, p, a);
                        lemma_one_first(links, fp, a);
                    }
                }
            }
        }
        lemma_untouched_region(links, cuts, n, a);
    }
    // the touched first nodes are two at most
    lemma_two(fq, fp);
    lemma_len_subset(touched, set![fq, fp]);
    lemma_len_subset(spared, before);
    vstd::set_lib::lemma_set_disjoint_lens(spared, touched);
    assert(spared.disjoint(touched));
    assert(spared + touched =~= before);
    lemma_len_subset(spared, after);
    if component(left, n, q).len() > 4 {
        lemma_first_of(left, q);
        let anchor = first_of(left, q);
        lemma_same_component(left, n, anchor, q);
        assert(after.contains(anchor));
        assert(!spared.contains(anchor)) by {
            if spared.contains(anchor) {
                lemma_connected_within(left, links, anchor, q);
                lemma_connected_back(links, anchor, q);
                lemma_connected_join(links, fq, q, anchor);
                lemma_one_first(links, fq, anchor);
            }
        }
        lemma_nodes_finite(spared, n);
        lemma_len_subset(spared.insert(anchor), after);
    }
}

/// A set of two has two members at most.
proof fn lemma_two(a: int, b: int)
    ensures
        set![a, b].finite(),
        set![a, b].len() <= 2,
{
    broadcast use vstd::set::group_set_axioms;

    let s1 = Set::<int>::empty().insert(a);
    assert(s1.len() == 1);
    assert(set![a, b] =~= s1.insert(b));
}

} // verus!
