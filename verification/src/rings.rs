//! The ring assembler: stitches an unordered bag of way fragments into
//! closed polygon rings by repeated endpoint matching, reversing a
//! fragment when its far end is the one that fits.
//!
//! The verified contract pins down what a successful assembly means: every
//! returned ring is closed, and the undirected edges of the output are
//! exactly the undirected edges of the input fragments, with multiplicity.
//! Success itself is characterized exactly: assembly closes everything if
//! and only if every node id occurs an even number of times among the
//! fragment endpoints (given at least one fragment, each of two or more
//! ids) — which is what rules out dangling fragments, and what any set of
//! closed cycles satisfies whatever order and orientation its fragments
//! are stored in.

use vstd::multiset::Multiset;
use vstd::prelude::*;

verus! {

broadcast use {
    vstd::multiset::group_multiset_axioms,
    vstd::multiset::group_multiset_properties,
};

/// The node-id sequences of a list of fragments.
pub open spec fn views_of(frags: Seq<Vec<i64>>) -> Seq<Seq<i64>> {
    frags.map_values(|v: Vec<i64>| v@)
}

/// An undirected edge: the pair of its endpoints, smaller id first.
pub open spec fn norm_edge(a: i64, b: i64) -> (i64, i64) {
    if a <= b {
        (a, b)
    } else {
        (b, a)
    }
}

/// The undirected edges a node sequence traces, with multiplicity.
pub open spec fn edges_of(s: Seq<i64>) -> Multiset<(i64, i64)>
    decreases s.len(),
{
    if s.len() < 2 {
        Multiset::empty()
    } else {
        edges_of(s.drop_last()).insert(norm_edge(s[s.len() - 2], s[s.len() - 1]))
    }
}

/// Two values as a multiset.
pub open spec fn pair_ms(a: i64, b: i64) -> Multiset<i64> {
    Multiset::empty().insert(a).insert(b)
}

/// Both endpoints of one fragment.
pub open spec fn frag_endpoints(s: Seq<i64>) -> Multiset<i64> {
    pair_ms(s.first(), s.last())
}

/// All undirected edges traced by a list of fragments.
pub open spec fn edges_of_all(frags: Seq<Seq<i64>>) -> Multiset<(i64, i64)>
    decreases frags.len(),
{
    if frags.len() == 0 {
        Multiset::empty()
    } else {
        edges_of_all(frags.drop_last()).add(edges_of(frags.last()))
    }
}

/// All fragment endpoints, counted with multiplicity.
pub open spec fn endpoints_of_all(frags: Seq<Seq<i64>>) -> Multiset<i64>
    decreases frags.len(),
{
    if frags.len() == 0 {
        Multiset::empty()
    } else {
        endpoints_of_all(frags.drop_last()).add(frag_endpoints(frags.last()))
    }
}

/// A closed ring: at least one edge, and it ends where it starts.
pub open spec fn is_closed_ring(s: Seq<i64>) -> bool {
    s.len() >= 2 && s.first() == s.last()
}

/// Every fragment has at least two node ids.
pub open spec fn frags_min_len(frags: Seq<Seq<i64>>) -> bool {
    forall|i: int| 0 <= i < frags.len() ==> #[trigger] frags[i].len() >= 2
}

/// Every node id occurs an even number of times among fragment endpoints.
pub open spec fn even_endpoint_counts(frags: Seq<Seq<i64>>) -> bool {
    forall|x: i64| #[trigger] endpoints_of_all(frags).count(x) % 2 == 0
}

/// How many times `x` occurs in a two-element multiset.
proof fn lemma_pair_count(a: i64, b: i64, x: i64)
    ensures
        pair_ms(a, b).count(x) == (if x == a {
            1nat
        } else {
            0nat
        }) + (if x == b {
            1nat
        } else {
            0nat
        }),
{
}

/// Replacing one fragment exchanges exactly its edges.
proof fn lemma_edges_of_all_update(frags: Seq<Seq<i64>>, i: int, x: Seq<i64>)
    requires
        0 <= i < frags.len(),
    ensures
        edges_of_all(frags.update(i, x)).add(edges_of(frags[i])) =~= edges_of_all(frags).add(
            edges_of(x),
        ),
    decreases frags.len(),
{
    let u = frags.update(i, x);
    if i == frags.len() - 1 {
        assert(u.drop_last() =~= frags.drop_last());
        assert(u.last() == x);
    } else {
        assert(u.last() == frags.last());
        assert(u.drop_last() =~= frags.drop_last().update(i, x));
        assert(frags.drop_last()[i] == frags[i]);
        lemma_edges_of_all_update(frags.drop_last(), i, x);
        assert forall|e: (i64, i64)|
            edges_of_all(u).add(edges_of(frags[i])).count(e) == edges_of_all(frags).add(
                edges_of(x),
            ).count(e) by {
            assert(edges_of_all(u) == edges_of_all(frags.drop_last().update(i, x)).add(
                edges_of(frags.last()),
            ));
            assert(edges_of_all(frags.drop_last().update(i, x)).add(
                edges_of(frags.drop_last()[i]),
            ).count(e) == edges_of_all(frags.drop_last()).add(edges_of(x)).count(e));
        }
    }
}

/// Swap-removing one fragment takes away exactly its edges.
proof fn lemma_edges_of_all_swap_remove(frags: Seq<Seq<i64>>, i: int)
    requires
        0 <= i < frags.len(),
    ensures
        edges_of_all(frags.update(i, frags.last()).drop_last()).add(edges_of(frags[i]))
            =~= edges_of_all(frags),
{
    let u = frags.update(i, frags.last());
    let removed = u.drop_last();
    if i == frags.len() - 1 {
        assert(u =~= frags);
        assert(removed =~= frags.drop_last());
    } else {
        lemma_edges_of_all_update(frags, i, frags.last());
        assert(u.last() == frags.last());
        assert(edges_of_all(u) == edges_of_all(removed).add(edges_of(frags.last())));
        assert forall|e: (i64, i64)|
            edges_of_all(removed).add(edges_of(frags[i])).count(e) == edges_of_all(frags).count(
                e,
            ) by {
            assert(edges_of_all(u).add(edges_of(frags[i])).count(e) == edges_of_all(frags).add(
                edges_of(frags.last()),
            ).count(e));
        }
    }
}

/// Replacing one fragment exchanges exactly its endpoints.
proof fn lemma_endpoints_of_all_update(frags: Seq<Seq<i64>>, i: int, x: Seq<i64>)
    requires
        0 <= i < frags.len(),
    ensures
        endpoints_of_all(frags.update(i, x)).add(frag_endpoints(frags[i])) =~= endpoints_of_all(
            frags,
        ).add(frag_endpoints(x)),
    decreases frags.len(),
{
    let u = frags.update(i, x);
    if i == frags.len() - 1 {
        assert(u.drop_last() =~= frags.drop_last());
        assert(u.last() == x);
    } else {
        assert(u.last() == frags.last());
        assert(u.drop_last() =~= frags.drop_last().update(i, x));
        assert(frags.drop_last()[i] == frags[i]);
        lemma_endpoints_of_all_update(frags.drop_last(), i, x);
        assert forall|n: i64|
            endpoints_of_all(u).add(frag_endpoints(frags[i])).count(n) == endpoints_of_all(
                frags,
            ).add(frag_endpoints(x)).count(n) by {
            assert(endpoints_of_all(u) == endpoints_of_all(frags.drop_last().update(i, x)).add(
                frag_endpoints(frags.last()),
            ));
            assert(endpoints_of_all(frags.drop_last().update(i, x)).add(
                frag_endpoints(frags.drop_last()[i]),
            ).count(n) == endpoints_of_all(frags.drop_last()).add(frag_endpoints(x)).count(n));
        }
    }
}

/// Swap-removing one fragment takes away exactly its endpoints.
proof fn lemma_endpoints_of_all_swap_remove(frags: Seq<Seq<i64>>, i: int)
    requires
        0 <= i < frags.len(),
    ensures
        endpoints_of_all(frags.update(i, frags.last()).drop_last()).add(frag_endpoints(frags[i]))
            =~= endpoints_of_all(frags),
{
    let u = frags.update(i, frags.last());
    let removed = u.drop_last();
    if i == frags.len() - 1 {
        assert(u =~= frags);
        assert(removed =~= frags.drop_last());
    } else {
        lemma_endpoints_of_all_update(frags, i, frags.last());
        assert(u.last() == frags.last());
        assert(endpoints_of_all(u) == endpoints_of_all(removed).add(frag_endpoints(frags.last())));
        assert forall|x: i64|
            endpoints_of_all(removed).add(frag_endpoints(frags[i])).count(x) == endpoints_of_all(
                frags,
            ).count(x) by {
            assert(endpoints_of_all(u).add(frag_endpoints(frags[i])).count(x) == endpoints_of_all(
                frags,
            ).add(frag_endpoints(frags.last())).count(x));
        }
    }
}

/// A sequence's edges split off at the front as well.
proof fn lemma_edges_drop_first(s: Seq<i64>)
    requires
        s.len() >= 2,
    ensures
        edges_of(s) =~= edges_of(s.drop_first()).insert(norm_edge(s[0], s[1])),
    decreases s.len(),
{
    if s.len() == 2 {
        assert(s.drop_first().len() == 1);
        assert(edges_of(s.drop_last()).len() == 0);
    } else {
        lemma_edges_drop_first(s.drop_last());
        assert(s.drop_last().drop_first() =~= s.drop_first().drop_last());
        assert(s.drop_last()[0] == s[0] && s.drop_last()[1] == s[1]);
        assert(s.drop_first()[s.len() - 3] == s[s.len() - 2]);
        assert(s.drop_first()[s.len() - 2] == s[s.len() - 1]);
    }
}

/// Reversing a fragment leaves its undirected edges unchanged.
pub proof fn lemma_edges_reverse(s: Seq<i64>)
    ensures
        edges_of(s.reverse()) =~= edges_of(s),
    decreases s.len(),
{
    if s.len() < 2 {
        assert(s.reverse().len() == s.len());
    } else {
        lemma_edges_reverse(s.drop_first());
        assert(s.reverse().drop_last() =~= s.drop_first().reverse());
        assert(s.reverse().last() == s[0]);
        assert(s.reverse()[s.len() - 2] == s[1]);
        assert(edges_of(s.reverse()) == edges_of(s.drop_first().reverse()).insert(
            norm_edge(s[1], s[0]),
        ));
        assert(norm_edge(s[1], s[0]) == norm_edge(s[0], s[1]));
        lemma_edges_drop_first(s);
    }
}

/// Splicing a fragment onto a chain at a shared endpoint joins their
/// edge multisets.
pub proof fn lemma_edges_concat(a: Seq<i64>, b: Seq<i64>)
    requires
        a.len() >= 1,
        b.len() >= 1,
        a.last() == b.first(),
    ensures
        edges_of(a + b.drop_first()) =~= edges_of(a).add(edges_of(b)),
    decreases b.len(),
{
    let c = a + b.drop_first();
    if b.len() == 1 {
        assert(c =~= a);
    } else {
        lemma_edges_concat(a, b.drop_last());
        assert(b.drop_last().first() == b.first());
        assert(c.drop_last() =~= a + b.drop_last().drop_first());
        assert(c.last() == b.last());
        if b.len() == 2 {
            assert(c[c.len() - 2] == a.last());
            assert(a.last() == b[b.len() - 2]);
        } else {
            assert(c[c.len() - 2] == b.drop_first()[b.len() - 3]);
            assert(b.drop_first()[b.len() - 3] == b[b.len() - 2]);
        }
        assert(edges_of(c) == edges_of(a + b.drop_last().drop_first()).insert(
            norm_edge(b[b.len() - 2], b[b.len() - 1]),
        ));
    }
}

/// Law: a dangling fragment — one whose trailing endpoint differs from its
/// own head and matches no other fragment's endpoint — gives that node an
/// odd endpoint count, so a successful assembly is impossible.
pub proof fn lemma_dangling_fragment(frags: Seq<Seq<i64>>, i: int)
    requires
        0 <= i < frags.len(),
        frags[i].len() >= 1,
        frags[i].first() != frags[i].last(),
        forall|j: int|
            0 <= j < frags.len() && j != i ==> #[trigger] frags[j].first() != frags[i].last()
                && frags[j].last() != frags[i].last(),
    ensures
        endpoints_of_all(frags).count(frags[i].last()) % 2 == 1,
        !even_endpoint_counts(frags),
{
    let e = frags[i].last();
    assert forall|j: int| 0 <= j < frags.len() && j != i implies #[trigger] frags[j].first() != e
        && frags[j].last() != e by {
        assert(frags[j].first() != frags[i].last() && frags[j].last() != frags[i].last());
    }
    lemma_dangling_count(frags, i, e);
}

/// The endpoint count of a node that only fragment `i`'s tail touches.
proof fn lemma_dangling_count(frags: Seq<Seq<i64>>, i: int, e: i64)
    requires
        0 <= i < frags.len(),
        frags[i].last() == e,
        frags[i].first() != e,
        forall|j: int|
            0 <= j < frags.len() && j != i ==> #[trigger] frags[j].first() != e && frags[j].last()
                != e,
    ensures
        endpoints_of_all(frags).count(e) == 1,
    decreases frags.len(),
{
    let last = frags.last();
    lemma_pair_count(last.first(), last.last(), e);
    if i == frags.len() - 1 {
        lemma_untouched_count(frags.drop_last(), e);
    } else {
        assert(frags.drop_last()[i] == frags[i]);
        assert forall|j: int|
            0 <= j < frags.drop_last().len() && j != i implies #[trigger] frags.drop_last(
        )[j].first() != e && frags.drop_last()[j].last() != e by {
            assert(frags.drop_last()[j] == frags[j]);
        }
        lemma_dangling_count(frags.drop_last(), i, e);
    }
}

/// A node no fragment endpoint touches is counted zero times.
proof fn lemma_untouched_count(frags: Seq<Seq<i64>>, e: i64)
    requires
        forall|j: int|
            0 <= j < frags.len() ==> #[trigger] frags[j].first() != e && frags[j].last() != e,
    ensures
        endpoints_of_all(frags).count(e) == 0,
    decreases frags.len(),
{
    if frags.len() > 0 {
        let last = frags.last();
        lemma_pair_count(last.first(), last.last(), e);
        assert forall|j: int|
            0 <= j < frags.drop_last().len() implies #[trigger] frags.drop_last()[j].first() != e
            && frags.drop_last()[j].last() != e by {
            assert(frags.drop_last()[j] == frags[j]);
        }
        lemma_untouched_count(frags.drop_last(), e);
    }
}

/// Each consecutive pair of a sequence is among its edges.
proof fn lemma_ring_edge_at(s: Seq<i64>, i: int)
    requires
        1 <= i < s.len(),
    ensures
        edges_of(s).count(norm_edge(s[i - 1], s[i])) >= 1,
    decreases s.len(),
{
    if i < s.len() - 1 {
        lemma_ring_edge_at(s.drop_last(), i);
        assert(s.drop_last()[i - 1] == s[i - 1] && s.drop_last()[i] == s[i]);
    }
}

/// An edge of a sequence joins some consecutive pair of it.
proof fn lemma_edge_has_position(s: Seq<i64>, e: (i64, i64))
    requires
        edges_of(s).count(e) > 0,
    ensures
        exists|i: int| 1 <= i < s.len() && #[trigger] norm_edge(s[i - 1], s[i]) == e,
    decreases s.len(),
{
    if norm_edge(s[s.len() - 2], s[s.len() - 1]) == e {
        let w = s.len() - 1;
        assert(1 <= w < s.len() && norm_edge(s[w - 1], s[w]) == e);
    } else {
        lemma_edge_has_position(s.drop_last(), e);
        let i = choose|i: int|
            1 <= i < s.drop_last().len() && #[trigger] norm_edge(
                s.drop_last()[i - 1],
                s.drop_last()[i],
            ) == e;
        assert(norm_edge(s[i - 1], s[i]) == e);
    }
}

/// One ring's edges count into the whole output's edges.
proof fn lemma_ring_edges_le(rings: Seq<Seq<i64>>, k: int, e: (i64, i64))
    requires
        0 <= k < rings.len(),
    ensures
        edges_of(rings[k]).count(e) <= edges_of_all(rings).count(e),
    decreases rings.len(),
{
    if k < rings.len() - 1 {
        lemma_ring_edges_le(rings.drop_last(), k, e);
        assert(rings.drop_last()[k] == rings[k]);
    }
}

/// An edge of the whole output sits in some ring.
proof fn lemma_edge_in_some_ring(rings: Seq<Seq<i64>>, e: (i64, i64))
    requires
        edges_of_all(rings).count(e) > 0,
    ensures
        exists|k: int| 0 <= k < rings.len() && edges_of(#[trigger] rings[k]).count(e) > 0,
    decreases rings.len(),
{
    if edges_of(rings.last()).count(e) > 0 {
        assert(0 <= rings.len() - 1 < rings.len() && edges_of(rings[rings.len() - 1]).count(e)
            > 0);
    } else {
        lemma_edge_in_some_ring(rings.drop_last(), e);
        let k = choose|k: int|
            0 <= k < rings.drop_last().len() && edges_of(
                #[trigger] rings.drop_last()[k],
            ).count(e) > 0;
        assert(edges_of(rings[k]).count(e) > 0);
    }
}

/// Along a walk whose every edge stays on one side of a node split, the
/// side never changes.
proof fn lemma_walk_side(ring: Seq<i64>, total: Multiset<(i64, i64)>, a: Set<i64>, i: int)
    requires
        0 <= i < ring.len(),
        forall|e: (i64, i64)| #[trigger]
            total.count(e) > 0 ==> ((a.contains(e.0) && a.contains(e.1)) || (!a.contains(e.0)
                && !a.contains(e.1))),
        forall|e: (i64, i64)| #[trigger] edges_of(ring).count(e) <= total.count(e),
    ensures
        a.contains(ring[i]) == a.contains(ring[0]),
    decreases i,
{
    if i > 0 {
        lemma_walk_side(ring, total, a, i - 1);
        lemma_ring_edge_at(ring, i);
        let e = norm_edge(ring[i - 1], ring[i]);
        assert(edges_of(ring).count(e) <= total.count(e));
        assert(total.count(e) > 0);
    }
}

/// Law: when the fragments split into two node-disjoint groups, each
/// tracing at least one edge, no single closed ring can cover both: any
/// assembly preserving the edges needs at least two rings. Together with
/// the assembler's contract, a relation made of two disjoint closed
/// cycles always yields at least two rings.
pub proof fn lemma_disjoint_parts_need_two_rings(
    rings: Seq<Seq<i64>>,
    frags: Seq<Seq<i64>>,
    a: Set<i64>,
    ea: (i64, i64),
    eb: (i64, i64),
)
    requires
        edges_of_all(rings) == edges_of_all(frags),
        forall|e: (i64, i64)| #[trigger]
            edges_of_all(frags).count(e) > 0 ==> ((a.contains(e.0) && a.contains(e.1)) || (
            !a.contains(e.0) && !a.contains(e.1))),
        edges_of_all(frags).count(ea) > 0,
        a.contains(ea.0),
        edges_of_all(frags).count(eb) > 0,
        !a.contains(eb.0),
    ensures
        rings.len() >= 2,
{
    let total = edges_of_all(frags);
    lemma_edge_in_some_ring(rings, ea);
    lemma_edge_in_some_ring(rings, eb);
    let ka = choose|k: int| 0 <= k < rings.len() && edges_of(#[trigger] rings[k]).count(ea) > 0;
    let kb = choose|k: int| 0 <= k < rings.len() && edges_of(#[trigger] rings[k]).count(eb) > 0;
    lemma_edge_has_position(rings[ka], ea);
    let ia = choose|i: int|
        1 <= i < rings[ka].len() && #[trigger] norm_edge(rings[ka][i - 1], rings[ka][i]) == ea;
    assert(a.contains(rings[ka][ia - 1]) || a.contains(rings[ka][ia]));
    assert forall|e: (i64, i64)| #[trigger]
        edges_of(rings[ka]).count(e) <= total.count(e) by {
        lemma_ring_edges_le(rings, ka, e);
    }
    if a.contains(rings[ka][ia - 1]) {
        lemma_walk_side(rings[ka], total, a, ia - 1);
    } else {
        lemma_walk_side(rings[ka], total, a, ia);
    }
    assert(a.contains(rings[ka][0]));
    lemma_edge_has_position(rings[kb], eb);
    let ib = choose|i: int|
        1 <= i < rings[kb].len() && #[trigger] norm_edge(rings[kb][i - 1], rings[kb][i]) == eb;
    assert(!a.contains(rings[kb][ib - 1]) && !a.contains(rings[kb][ib]));
    assert forall|e: (i64, i64)| #[trigger]
        edges_of(rings[kb]).count(e) <= total.count(e) by {
        lemma_ring_edges_le(rings, kb, e);
    }
    lemma_walk_side(rings[kb], total, a, ib);
    assert(!a.contains(rings[kb][0]));
    assert(ka != kb);
}

/// Removing one fragment takes away exactly its endpoints.
proof fn lemma_endpoints_of_all_remove(frags: Seq<Seq<i64>>, i: int)
    requires
        0 <= i < frags.len(),
    ensures
        endpoints_of_all(frags.remove(i)).add(frag_endpoints(frags[i])) =~= endpoints_of_all(
            frags,
        ),
    decreases frags.len(),
{
    let rem = frags.remove(i);
    if i == frags.len() - 1 {
        assert(rem =~= frags.drop_last());
    } else {
        assert(rem.last() == frags.last());
        assert(rem.drop_last() =~= frags.drop_last().remove(i));
        assert(frags.drop_last()[i] == frags[i]);
        lemma_endpoints_of_all_remove(frags.drop_last(), i);
        assert forall|x: i64|
            endpoints_of_all(rem).add(frag_endpoints(frags[i])).count(x) == endpoints_of_all(
                frags,
            ).count(x) by {
            assert(endpoints_of_all(rem) == endpoints_of_all(frags.drop_last().remove(i)).add(
                frag_endpoints(frags.last()),
            ));
            assert(endpoints_of_all(frags.drop_last().remove(i)).add(
                frag_endpoints(frags.drop_last()[i]),
            ).count(x) == endpoints_of_all(frags.drop_last()).count(x));
        }
    }
}

/// Law: endpoint counts depend only on which fragments there are, never on
/// the order they are stored in — so whether assembly can close the rings
/// is blind to fragment order.
pub proof fn lemma_endpoints_permutation(a: Seq<Seq<i64>>, b: Seq<Seq<i64>>)
    requires
        a.to_multiset() == b.to_multiset(),
    ensures
        endpoints_of_all(a) == endpoints_of_all(b),
    decreases a.len(),
{
    broadcast use vstd::seq_lib::group_to_multiset_ensures;

    if a.len() == 0 {
        assert(b.to_multiset().len() == 0);
        assert(b.len() == 0);
        assert(endpoints_of_all(a) =~= endpoints_of_all(b));
    } else {
        let x = a.last();
        assert(a.contains(x));
        assert(b.to_multiset().count(x) > 0);
        assert(b.contains(x));
        let i = choose|i: int| 0 <= i < b.len() && b[i] == x;
        assert(a.drop_last() =~= a.remove(a.len() - 1));
        assert(a.remove(a.len() - 1).to_multiset() =~= a.to_multiset().remove(x));
        assert(b.remove(i).to_multiset() =~= b.to_multiset().remove(x));
        lemma_endpoints_permutation(a.drop_last(), b.remove(i));
        lemma_endpoints_of_all_remove(b, i);
        assert(endpoints_of_all(a) =~= endpoints_of_all(b));
    }
}

/// Law: reversing a fragment in place leaves the endpoint counts alone —
/// fragment orientation never affects whether rings can close.
pub proof fn lemma_endpoints_reverse_one(frags: Seq<Seq<i64>>, i: int)
    requires
        0 <= i < frags.len(),
    ensures
        endpoints_of_all(frags.update(i, frags[i].reverse())) == endpoints_of_all(frags),
{
    let rev = frags[i].reverse();
    lemma_endpoints_of_all_update(frags, i, rev);
    assert forall|x: i64|
        frag_endpoints(rev).count(x) == frag_endpoints(frags[i]).count(x) by {
        if frags[i].len() == 0 {
            assert(rev =~= frags[i]);
        } else {
            assert(rev.first() == frags[i].last());
            assert(rev.last() == frags[i].first());
            lemma_pair_count(rev.first(), rev.last(), x);
            lemma_pair_count(frags[i].first(), frags[i].last(), x);
        }
    }
    assert forall|x: i64|
        endpoints_of_all(frags.update(i, rev)).count(x) == endpoints_of_all(frags).count(x) by {
        assert(endpoints_of_all(frags.update(i, rev)).add(frag_endpoints(frags[i])).count(x)
            == endpoints_of_all(frags).add(frag_endpoints(rev)).count(x));
    }
    assert(endpoints_of_all(frags.update(i, rev)) =~= endpoints_of_all(frags));
}

/// An open chain's endpoint counts reduce to its two loose ends: interior
/// junctions pair up.
proof fn lemma_chain_parity(frags: Seq<Seq<i64>>)
    requires
        frags.len() >= 1,
        forall|i: int|
            0 <= i < frags.len() - 1 ==> (#[trigger] frags[i]).last() == frags[i + 1].first(),
    ensures
        forall|x: i64| #[trigger]
            endpoints_of_all(frags).count(x) % 2 == pair_ms(
                frags.first().first(),
                frags.last().last(),
            ).count(x) % 2,
    decreases frags.len(),
{
    if frags.len() == 1 {
        assert forall|x: i64| #[trigger]
            endpoints_of_all(frags).count(x) % 2 == pair_ms(
                frags.first().first(),
                frags.last().last(),
            ).count(x) % 2 by {
            assert(frags.drop_last().len() == 0);
            assert(endpoints_of_all(frags).count(x) == endpoints_of_all(frags.drop_last()).count(
                x,
            ) + frag_endpoints(frags.last()).count(x));
            assert(endpoints_of_all(frags.drop_last()).count(x) == 0);
        }
    } else {
        let head = frags.drop_last();
        assert forall|i: int|
            0 <= i < head.len() - 1 implies (#[trigger] head[i]).last() == head[i + 1].first() by {
            assert(head[i] == frags[i] && head[i + 1] == frags[i + 1]);
        }
        lemma_chain_parity(head);
        let junction = head.last().last();
        assert(junction == frags.last().first());
        assert forall|x: i64| #[trigger]
            endpoints_of_all(frags).count(x) % 2 == pair_ms(
                frags.first().first(),
                frags.last().last(),
            ).count(x) % 2 by {
            assert(endpoints_of_all(frags).count(x) == endpoints_of_all(head).count(x)
                + frag_endpoints(frags.last()).count(x));
            assert(head.first() == frags.first());
            lemma_pair_count(head.first().first(), junction, x);
            lemma_pair_count(junction, frags.last().last(), x);
            lemma_pair_count(frags.first().first(), frags.last().last(), x);
            assert(endpoints_of_all(head).count(x) % 2 == pair_ms(
                head.first().first(),
                junction,
            ).count(x) % 2);
        }
    }
}

/// Law: fragments laid out as one closed chain — each fragment's trailing
/// id matching the next one's leading id, the last closing back onto the
/// first — have even endpoint counts everywhere. Together with the
/// assembler's contract this makes assembly succeed on every relation
/// whose outer fragments trace closed cycles, whatever order they are
/// stored in, since the endpoint counts do not depend on that order.
pub proof fn lemma_cycle_even_counts(frags: Seq<Seq<i64>>)
    requires
        frags.len() >= 1,
        forall|i: int|
            0 <= i < frags.len() - 1 ==> (#[trigger] frags[i]).last() == frags[i + 1].first(),
        frags.last().last() == frags.first().first(),
    ensures
        even_endpoint_counts(frags),
{
    lemma_chain_parity(frags);
    assert forall|x: i64| #[trigger] endpoints_of_all(frags).count(x) % 2 == 0 by {
        lemma_pair_count(frags.first().first(), frags.last().last(), x);
    }
}

/// The index of the first remaining fragment one of whose endpoints is
/// `target`, scanning in storage order.
fn find_match(ways: &Vec<Vec<i64>>, target: i64) -> (r: Option<usize>)
    requires
        frags_min_len(views_of(ways@)),
    ensures
        match r {
            Some(j) => (j as int) < ways@.len() && (ways@[j as int]@.first() == target
                || ways@[j as int]@.last() == target),
            None => forall|i: int|
                0 <= i < ways@.len() ==> #[trigger] ways@[i]@.first() != target
                    && ways@[i]@.last() != target,
        },
{
    let n = ways.len();
    let mut j: usize = 0;
    while j < n
        invariant
            0 <= j <= n,
            n == ways@.len(),
            frags_min_len(views_of(ways@)),
            forall|k: int|
                0 <= k < j ==> #[trigger] ways@[k]@.first() != target && ways@[k]@.last()
                    != target,
        decreases n - j,
    {
        let w = &ways[j];
        proof {
            assert(views_of(ways@)[j as int] == w@);
        }
        let wlen = w.len();
        if w[0] == target || w[wlen - 1] == target {
            return Some(j);
        }
        proof {
            assert forall|k: int|
                0 <= k < j + 1 implies #[trigger] ways@[k]@.first() != target && ways@[k]@.last()
                != target by {
                if k == j {
                    assert(ways@[k]@ == w@);
                }
            }
        }
        j += 1;
    }
    None
}

/// Stitches the given way fragments into closed rings: pop a fragment to
/// start a ring, then repeatedly splice on the first remaining fragment
/// whose endpoint matches the ring's trailing id (reversed when its far
/// end is the matching one), until the ring closes; repeat until no
/// fragment remains.
///
/// `None` when there are no fragments, when a fragment is shorter than two
/// ids, or when some ring cannot be closed. On success every ring is
/// closed and the output's undirected edge multiset is exactly the
/// input's, so the rings reproduce the fragments' cycles up to rotation
/// and orientation. Ties between fragments matching the same endpoint go
/// to the first in the remaining-fragment order.
///
/// Success is characterized exactly: assembly closes everything if and
/// only if there is at least one fragment, every fragment has at least
/// two ids, and every node id occurs an even number of times among the
/// fragment endpoints — an open ring's trailing id always has an odd
/// remaining count, so a match for it always exists.
#[verifier::rlimit(60)]
pub fn assemble_rings(fragments: Vec<Vec<i64>>) -> (r: Option<Vec<Vec<i64>>>)
    ensures
        fragments@.len() == 0 ==> r is None,
        (exists|i: int| 0 <= i < fragments@.len() && #[trigger] fragments@[i]@.len() < 2) ==> r
            is None,
        r is None ==> (fragments@.len() == 0 || (exists|i: int|
            0 <= i < fragments@.len() && #[trigger] fragments@[i]@.len() < 2)
            || !even_endpoint_counts(views_of(fragments@))),
        r is Some ==> {
            &&& r->0@.len() >= 1
            &&& forall|k: int| 0 <= k < r->0@.len() ==> is_closed_ring(#[trigger] r->0@[k]@)
            &&& edges_of_all(views_of(r->0@)) == edges_of_all(views_of(fragments@))
            &&& even_endpoint_counts(views_of(fragments@))
        },
{
    let ghost total_e = edges_of_all(views_of(fragments@));
    let ghost total_p = endpoints_of_all(views_of(fragments@));
    let mut ways = fragments;
    let n = ways.len();
    if n == 0 {
        return None;
    }
    let mut i: usize = 0;
    while i < n
        invariant
            0 <= i <= n,
            n == ways@.len(),
            ways@ == fragments@,
            forall|k: int| 0 <= k < i ==> #[trigger] ways@[k]@.len() >= 2,
        decreases n - i,
    {
        if ways[i].len() < 2 {
            return None;
        }
        i += 1;
    }
    let mut rings: Vec<Vec<i64>> = Vec::new();
    proof {
        assert(frags_min_len(views_of(ways@)));
        assert(views_of(rings@).len() == 0);
        assert(edges_of_all(views_of(rings@)).add(edges_of_all(views_of(ways@))) =~= total_e);
    }
    while ways.len() > 0
        invariant
            frags_min_len(views_of(ways@)),
            forall|k: int| 0 <= k < rings@.len() ==> is_closed_ring(#[trigger] rings@[k]@),
            edges_of_all(views_of(rings@)).add(edges_of_all(views_of(ways@))) == total_e,
            forall|x: i64| #[trigger]
                endpoints_of_all(views_of(ways@)).count(x) % 2 == total_p.count(x) % 2,
            rings@.len() + ways@.len() >= 1,
            total_e == edges_of_all(views_of(fragments@)),
            total_p == endpoints_of_all(views_of(fragments@)),
        decreases ways@.len(),
    {
        let ghost ways_entry = views_of(ways@);
        let mut ring = ways.pop().unwrap();
        proof {
            assert(views_of(ways@) =~= ways_entry.drop_last());
            assert(ways_entry.last() == ring@);
            assert(edges_of_all(ways_entry) == edges_of_all(views_of(ways@)).add(edges_of(ring@)));
            assert(endpoints_of_all(ways_entry) == endpoints_of_all(views_of(ways@)).add(
                frag_endpoints(ring@),
            ));
            assert(ways_entry[ways_entry.len() - 1].len() >= 2);
            assert(edges_of_all(views_of(rings@)).add(edges_of_all(views_of(ways@))).add(
                edges_of(ring@),
            ) =~= total_e);
            assert forall|x: i64|
                (endpoints_of_all(views_of(ways@)).add(
                    pair_ms(ring@.first(), ring@.last()),
                )).count(x) % 2 == total_p.count(x) % 2 by {
                assert(endpoints_of_all(ways_entry).count(x) % 2 == total_p.count(x) % 2);
            }
        }
        loop
            invariant
                ring@.len() >= 2,
                frags_min_len(views_of(ways@)),
                edges_of_all(views_of(rings@)).add(edges_of_all(views_of(ways@))).add(
                    edges_of(ring@),
                ) == total_e,
                forall|x: i64|
                    (endpoints_of_all(views_of(ways@)).add(
                        pair_ms(ring@.first(), ring@.last()),
                    )).count(x) % 2 == total_p.count(x) % 2,
                ways@.len() < ways_entry.len(),
                total_e == edges_of_all(views_of(fragments@)),
                total_p == endpoints_of_all(views_of(fragments@)),
            ensures
                ring@.len() >= 2,
                ring@.first() == ring@.last(),
                frags_min_len(views_of(ways@)),
                edges_of_all(views_of(rings@)).add(edges_of_all(views_of(ways@))).add(
                    edges_of(ring@),
                ) == total_e,
                forall|x: i64| #[trigger]
                    endpoints_of_all(views_of(ways@)).count(x) % 2 == total_p.count(x) % 2,
                ways@.len() < ways_entry.len(),
            decreases ways@.len(),
        {
            let rlen = ring.len();
            if ring[0] == ring[rlen - 1] {
                proof {
                    assert forall|x: i64| #[trigger]
                        endpoints_of_all(views_of(ways@)).count(x) % 2 == total_p.count(x)
                        % 2 by {
                        lemma_pair_count(ring@.first(), ring@.last(), x);
                        assert((endpoints_of_all(views_of(ways@)).add(
                            pair_ms(ring@.first(), ring@.last()),
                        )).count(x) % 2 == total_p.count(x) % 2);
                    }
                }
                break;
            }
            let target = ring[rlen - 1];
            let j = match find_match(&ways, target) {
                Some(j) => j,
                None => {
                    proof {
                        assert(ring@.first() != ring@.last());
                        assert(ring@.last() == target);
                        assert forall|k: int|
                            0 <= k < views_of(ways@).len() implies #[trigger] views_of(
                            ways@,
                        )[k].first() != target && views_of(ways@)[k].last() != target by {
                            assert(views_of(ways@)[k] == ways@[k]@);
                        }
                        lemma_untouched_count(views_of(ways@), target);
                        lemma_pair_count(ring@.first(), ring@.last(), target);
                        assert((endpoints_of_all(views_of(ways@)).add(
                            pair_ms(ring@.first(), ring@.last()),
                        )).count(target) == 1);
                        assert(total_p.count(target) % 2 == 1);
                        assert(!even_endpoint_counts(views_of(fragments@)));
                    }
                    return None;
                },
            };
            let ghost ways_before = views_of(ways@);
            let ghost ring_before = ring@;
            let ghost rf = ring@.first();
            let w = ways.swap_remove(j);
            proof {
                assert(views_of(ways@) =~= ways_before.update(j as int, ways_before.last(
                )).drop_last());
                assert(ways_before[j as int] == w@);
                lemma_edges_of_all_swap_remove(ways_before, j as int);
                lemma_endpoints_of_all_swap_remove(ways_before, j as int);
                assert(w@.len() >= 2);
                assert(frags_min_len(views_of(ways@)));
            }
            let wlen = w.len();
            if w[0] == target {
                let mut k: usize = 1;
                while k < wlen
                    invariant
                        1 <= k <= wlen,
                        wlen == w@.len(),
                        ring@ == ring_before + w@.subrange(1, k as int),
                    decreases wlen - k,
                {
                    let x = w[k];
                    ring.push(x);
                    k += 1;
                    proof {
                        assert(ring@ =~= ring_before + w@.subrange(1, k as int));
                    }
                }
                proof {
                    assert(w@.subrange(1, wlen as int) =~= w@.drop_first());
                    assert(ring@ == ring_before + w@.drop_first());
                    assert(ring_before.last() == w@.first());
                    lemma_edges_concat(ring_before, w@);
                    assert(ring@.first() == rf);
                    assert(ring@.last() == w@.last());
                    assert(edges_of_all(views_of(rings@)).add(edges_of_all(views_of(ways@))).add(
                        edges_of(ring@),
                    ) =~= total_e);
                    assert forall|x: i64|
                        (endpoints_of_all(views_of(ways@)).add(
                            pair_ms(ring@.first(), ring@.last()),
                        )).count(x) % 2 == total_p.count(x) % 2 by {
                        lemma_pair_count(rf, target, x);
                        lemma_pair_count(rf, w@.last(), x);
                        lemma_pair_count(w@.first(), w@.last(), x);
                        assert((endpoints_of_all(ways_before).add(pair_ms(rf, target))).count(x)
                            % 2 == total_p.count(x) % 2);
                        assert(endpoints_of_all(ways_before).count(x) == endpoints_of_all(
                            views_of(ways@),
                        ).count(x) + frag_endpoints(w@).count(x));
                    }
                }
            } else {
                let mut k: usize = 1;
                proof {
                    assert(w@.last() == target);
                    assert(w@.reverse().subrange(1, 1) =~= Seq::<i64>::empty());
                    assert(ring@ =~= ring_before + w@.reverse().subrange(1, 1));
                }
                while k < wlen
                    invariant
                        1 <= k <= wlen,
                        wlen == w@.len(),
                        ring@ == ring_before + w@.reverse().subrange(1, k as int),
                    decreases wlen - k,
                {
                    let x = w[wlen - 1 - k];
                    ring.push(x);
                    k += 1;
                    proof {
                        assert(w@.reverse()[k - 1] == w@[wlen - 1 - (k - 1)]);
                        assert(ring@ =~= ring_before + w@.reverse().subrange(1, k as int));
                    }
                }
                proof {
                    let rw = w@.reverse();
                    assert(rw.subrange(1, wlen as int) =~= rw.drop_first());
                    assert(ring@ == ring_before + rw.drop_first());
                    assert(rw.first() == w@.last());
                    assert(ring_before.last() == rw.first());
                    lemma_edges_reverse(w@);
                    lemma_edges_concat(ring_before, rw);
                    assert(ring@.first() == rf);
                    assert(ring@.last() == rw.last());
                    assert(rw.last() == w@.first());
                    assert(edges_of_all(views_of(rings@)).add(edges_of_all(views_of(ways@))).add(
                        edges_of(ring@),
                    ) =~= total_e);
                    assert forall|x: i64|
                        (endpoints_of_all(views_of(ways@)).add(
                            pair_ms(ring@.first(), ring@.last()),
                        )).count(x) % 2 == total_p.count(x) % 2 by {
                        lemma_pair_count(rf, target, x);
                        lemma_pair_count(rf, w@.first(), x);
                        lemma_pair_count(w@.first(), w@.last(), x);
                        assert((endpoints_of_all(ways_before).add(pair_ms(rf, target))).count(x)
                            % 2 == total_p.count(x) % 2);
                        assert(endpoints_of_all(ways_before).count(x) == endpoints_of_all(
                            views_of(ways@),
                        ).count(x) + frag_endpoints(w@).count(x));
                    }
                }
            }
        }
        let ghost rings_before = views_of(rings@);
        rings.push(ring);
        proof {
            assert(views_of(rings@).drop_last() =~= rings_before);
            assert(views_of(rings@).last() == ring@);
            assert(edges_of_all(views_of(rings@)) == edges_of_all(rings_before).add(
                edges_of(ring@),
            ));
            assert forall|k: int| 0 <= k < rings@.len() implies is_closed_ring(
                #[trigger] rings@[k]@,
            ) by {
                if k < rings@.len() - 1 {
                    assert(rings@[k] == rings@.drop_last()[k]);
                }
            }
            assert(edges_of_all(views_of(rings@)).add(edges_of_all(views_of(ways@)))
                =~= total_e);
        }
    }
    proof {
        assert(views_of(ways@).len() == 0);
        assert(edges_of_all(views_of(ways@)) == Multiset::<(i64, i64)>::empty());
        assert(edges_of_all(views_of(rings@)) =~= total_e);
        assert forall|x: i64| #[trigger]
            endpoints_of_all(views_of(fragments@)).count(x) % 2 == 0 by {
            assert(endpoints_of_all(views_of(ways@)).count(x) % 2 == total_p.count(x) % 2);
        }
    }
    Some(rings)
}

} // verus!
