//! Walking the graph: who calls whom, and how far away.

use std::collections::{HashMap, HashSet};

use vstd::prelude::*;
use vstd::string::*;

use crate::graph::{balanced, edge_lists, edges_of, lemma_mirrored, mirrors, CodeGraph, Edge, SymbolId};

verus! {

broadcast use vstd::std_specs::hash::group_hash_axioms;

/// Whether an edge leads from `u` to `v`.
pub open spec fn linked(adj: Map<SymbolId, Seq<Edge>>, u: SymbolId, v: SymbolId) -> bool {
    exists|i: int| 0 <= i < edges_of(adj, u).len() && (#[trigger] edges_of(adj, u)[i]).to == v
}

/// What is reached from the symbols of `b` in one step.
pub open spec fn next_of(adj: Map<SymbolId, Seq<Edge>>, b: Set<SymbolId>) -> Set<SymbolId> {
    Set::new(|v: SymbolId| exists|u: SymbolId| b.contains(u) && #[trigger] linked(adj, u, v))
}

/// What is reached from `start` in at most `d` steps.
pub open spec fn ball(adj: Map<SymbolId, Seq<Edge>>, start: SymbolId, d: nat) -> Set<SymbolId>
    decreases d,
{
    if d == 0 {
        set![start]
    } else {
        let b = ball(adj, start, (d - 1) as nat);
        b.union(next_of(adj, b))
    }
}

/// Whether the shortest way from `start` to `v` has `d` steps.
pub open spec fn at_distance(
    adj: Map<SymbolId, Seq<Edge>>,
    start: SymbolId,
    v: SymbolId,
    d: nat,
) -> bool {
    ball(adj, start, d).contains(v) && (d > 0 ==> !ball(adj, start, (d - 1) as nat).contains(v))
}

/// Whether `list` names everything at a distance of 1 to `max_depth` from
/// `start`, each once, with its distance, nearest first.
pub open spec fn traces(
    list: Seq<(SymbolId, usize)>,
    adj: Map<SymbolId, Seq<Edge>>,
    start: SymbolId,
    max_depth: nat,
) -> bool {
    &&& forall|i: int|
        0 <= i < list.len() ==> 1 <= (#[trigger] list[i]).1 <= max_depth && at_distance(
            adj,
            start,
            list[i].0,
            list[i].1 as nat,
        )
    &&& forall|v: SymbolId, k: usize|
        1 <= k <= max_depth && #[trigger] at_distance(adj, start, v, k as nat) ==> list.contains((v, k))
    &&& forall|i: int, j: int|
        0 <= i < j < list.len() ==> (#[trigger] list[i]).1 <= (#[trigger] list[j]).1 && list[i].0
            != list[j].0
}

/// The symbols that are called from one, edge by edge.
pub open spec fn targets(adj: Map<SymbolId, Seq<Edge>>, u: SymbolId) -> Seq<SymbolId> {
    edges_of(adj, u).map_values(|e: Edge| e.to)
}

/// The symbols that are called from a list of them, one after the other.
pub open spec fn targets_of_all(adj: Map<SymbolId, Seq<Edge>>, from: Seq<SymbolId>) -> Seq<SymbolId>
    decreases from.len(),
{
    if from.len() == 0 {
        Seq::empty()
    } else {
        targets_of_all(adj, from.drop_last()) + targets(adj, from.last())
    }
}

/// What is in a list and not in a set, each once, where it comes first.
pub open spec fn fresh(list: Seq<SymbolId>, seen: Set<SymbolId>) -> Seq<SymbolId>
    decreases list.len(),
{
    if list.len() == 0 {
        Seq::empty()
    } else {
        let before = fresh(list.drop_last(), seen);
        if seen.contains(list.last()) || before.contains(list.last()) {
            before
        } else {
            before.push(list.last())
        }
    }
}

/// What is at distance `d` from `start`, in the order in which a walk comes by: by
/// the first symbol of the level before that leads there, then by its edges.
pub open spec fn level(adj: Map<SymbolId, Seq<Edge>>, start: SymbolId, d: nat) -> Seq<SymbolId>
    decreases d,
{
    if d == 0 {
        seq![start]
    } else {
        fresh(
            targets_of_all(adj, level(adj, start, (d - 1) as nat)),
            ball(adj, start, (d - 1) as nat),
        )
    }
}

/// The levels of a walk from the first to `d`, each symbol with its distance.
pub open spec fn walked(adj: Map<SymbolId, Seq<Edge>>, start: SymbolId, d: nat) -> Seq<(SymbolId, usize)>
    decreases d,
{
    if d == 0 {
        Seq::empty()
    } else {
        walked(adj, start, (d - 1) as nat) + leveled(level(adj, start, d), d as usize)
    }
}

proof fn lemma_level_stays_empty(adj: Map<SymbolId, Seq<Edge>>, start: SymbolId, d: nat, k: nat)
    requires
        level(adj, start, d).len() == 0,
        d <= k,
    ensures
        level(adj, start, k).len() == 0,
    decreases k,
{
    if d < k {
        lemma_level_stays_empty(adj, start, d, (k - 1) as nat);
        assert(targets_of_all(adj, level(adj, start, (k - 1) as nat)) =~= Seq::empty());
    }
}

proof fn lemma_walk_ends(adj: Map<SymbolId, Seq<Edge>>, start: SymbolId, d: nat, k: nat)
    requires
        level(adj, start, d).len() == 0,
        d <= k,
    ensures
        walked(adj, start, k) == walked(adj, start, d),
    decreases k,
{
    if d < k {
        lemma_walk_ends(adj, start, d, (k - 1) as nat);
        lemma_level_stays_empty(adj, start, d, k);
        assert(walked(adj, start, k) =~= walked(adj, start, (k - 1) as nat));
    }
}

/// The first symbol of a list that leads to `v`.
pub open spec fn first_leading(adj: Map<SymbolId, Seq<Edge>>, list: Seq<SymbolId>, v: SymbolId) -> SymbolId
    decreases list.len(),
{
    if list.len() == 0 {
        v
    } else if linked(adj, list[0], v) {
        list[0]
    } else {
        first_leading(adj, list.drop_first(), v)
    }
}

proof fn lemma_first_leading(adj: Map<SymbolId, Seq<Edge>>, list: Seq<SymbolId>, v: SymbolId, m: int)
    requires
        0 <= m < list.len(),
        linked(adj, list[m], v),
        forall|j: int| 0 <= j < m ==> !linked(adj, #[trigger] list[j], v),
    ensures
        first_leading(adj, list, v) == list[m],
    decreases list.len(),
{
    if m > 0 {
        assert(!linked(adj, list[0], v));
        let t = list.drop_first();
        assert forall|j: int| 0 <= j < m - 1 implies !linked(adj, #[trigger] t[j], v) by {
            assert(t[j] == list[j + 1]);
        }
        lemma_first_leading(adj, t, v, m - 1);
    }
}

/// The way from `start` to a symbol `k` steps away on which each symbol is the first
/// of its level that leads to the next.
pub open spec fn first_way(adj: Map<SymbolId, Seq<Edge>>, start: SymbolId, v: SymbolId, k: nat) -> Seq<SymbolId>
    decreases k,
{
    if k == 0 {
        seq![v]
    } else {
        first_way(
            adj,
            start,
            first_leading(adj, level(adj, start, (k - 1) as nat), v),
            (k - 1) as nat,
        ).push(v)
    }
}

/// A walk goes level by level.
proof fn lemma_walk_levels(adj: Map<SymbolId, Seq<Edge>>, start: SymbolId, d: nat, k: nat)
    requires
        1 <= k <= d <= usize::MAX,
    ensures
        ({
            let all = walked(adj, start, d);
            let from = walked(adj, start, (k - 1) as nat).len();
            &&& from + level(adj, start, k).len() <= all.len()
            &&& forall|i: int|
                0 <= i < level(adj, start, k).len() ==> all[from + i] == (#[trigger] level(adj, start, k)[i], k as usize)
            &&& forall|i: int| 0 <= i < from ==> (#[trigger] all[i]).1 < k
            &&& forall|i: int| from + level(adj, start, k).len() <= i < all.len() ==> (#[trigger] all[i]).1 > k
        }),
    decreases d,
{
    let all = walked(adj, start, d);
    let before = walked(adj, start, (d - 1) as nat);
    let last = leveled(level(adj, start, d), d as usize);
    if k < d {
        lemma_walk_levels(adj, start, (d - 1) as nat, k);
        let from = walked(adj, start, (k - 1) as nat).len();
        assert forall|i: int| 0 <= i < level(adj, start, k).len() implies all[from + i] == (#[trigger] level(
            adj,
            start,
            k,
        )[i], k as usize) by {
            assert(all[from + i] == before[from + i]);
        }
        assert forall|i: int| 0 <= i < from implies (#[trigger] all[i]).1 < k by {
            assert(all[i] == before[i]);
        }
        assert forall|i: int| from + level(adj, start, k).len() <= i < all.len() implies (#[trigger] all[i]).1 > k by {
            if i < before.len() {
                assert(all[i] == before[i]);
            }
        }
    } else {
        if d > 1 {
            lemma_walk_levels(adj, start, (d - 1) as nat, (d - 1) as nat);
        }
        assert forall|i: int| 0 <= i < before.len() implies (#[trigger] all[i]).1 < k by {
            assert(all[i] == before[i]);
            lemma_walk_below(adj, start, (d - 1) as nat, i);
        }
        assert forall|i: int| 0 <= i < level(adj, start, k).len() implies all[before.len() + i] == (#[trigger] level(
            adj,
            start,
            k,
        )[i], k as usize) by {
            assert(all[before.len() + i] == last[i]);
        }
    }
}

proof fn lemma_walk_below(adj: Map<SymbolId, Seq<Edge>>, start: SymbolId, d: nat, i: int)
    requires
        0 <= i < walked(adj, start, d).len(),
        d <= usize::MAX,
    ensures
        walked(adj, start, d)[i].1 <= d,
    decreases d,
{
    if d > 0 && i < walked(adj, start, (d - 1) as nat).len() {
        lemma_walk_below(adj, start, (d - 1) as nat, i);
    }
}

proof fn lemma_ball_grows(adj: Map<SymbolId, Seq<Edge>>, start: SymbolId, d: nat, e: nat)
    requires
        d <= e,
    ensures
        ball(adj, start, d).subset_of(ball(adj, start, e)),
    decreases e,
{
    if d < e {
        lemma_ball_grows(adj, start, d, (e - 1) as nat);
    }
}

proof fn lemma_ball_step(
    adj: Map<SymbolId, Seq<Edge>>,
    start: SymbolId,
    d: nat,
    u: SymbolId,
    v: SymbolId,
)
    requires
        ball(adj, start, d).contains(u),
        linked(adj, u, v),
    ensures
        ball(adj, start, d + 1).contains(v),
{
    assert(next_of(adj, ball(adj, start, d)).contains(v));
}

/// Where nothing is at distance `d`, nothing is further away.
proof fn lemma_ball_stalls(adj: Map<SymbolId, Seq<Edge>>, start: SymbolId, d: nat, k: nat)
    requires
        d > 0,
        forall|v: SymbolId| !#[trigger] at_distance(adj, start, v, d),
        k >= d,
    ensures
        ball(adj, start, k) == ball(adj, start, (d - 1) as nat),
    decreases k,
{
    let b = ball(adj, start, (d - 1) as nat);
    if k == d {
        assert forall|v: SymbolId| ball(adj, start, d).contains(v) implies b.contains(v) by {
            assert(!at_distance(adj, start, v, d));
        }
        assert(ball(adj, start, d) =~= b);
    } else {
        lemma_ball_stalls(adj, start, d, (k - 1) as nat);
        lemma_ball_stalls(adj, start, d, d);
    }
}

proof fn lemma_one_distance(
    adj: Map<SymbolId, Seq<Edge>>,
    start: SymbolId,
    v: SymbolId,
    d: nat,
    e: nat,
)
    requires
        at_distance(adj, start, v, d),
        at_distance(adj, start, v, e),
    ensures
        d == e,
{
    if d < e {
        lemma_ball_grows(adj, start, d, (e - 1) as nat);
    }
    if e < d {
        lemma_ball_grows(adj, start, e, (d - 1) as nat);
    }
}

/// Whether `v` is a target of the first `k` edges of a list.
pub open spec fn targeted(list: Seq<Edge>, k: int, v: SymbolId) -> bool {
    exists|i: int| 0 <= i < k && i < list.len() && (#[trigger] list[i]).to == v
}

/// Whether an edge leads from one of the first `k` symbols of a list to `v`.
pub open spec fn reached(
    adj: Map<SymbolId, Seq<Edge>>,
    from: Seq<SymbolId>,
    k: int,
    v: SymbolId,
) -> bool {
    exists|i: int| 0 <= i < k && i < from.len() && linked(adj, #[trigger] from[i], v)
}

/// The next level of a walk: what the frontier reaches and was not seen.
fn next_level(
    adj: &HashMap<SymbolId, Vec<Edge>>,
    frontier: &Vec<SymbolId>,
    visited: &mut HashSet<SymbolId>,
) -> (next: Vec<SymbolId>)
    ensures
        next@.no_duplicates(),
        forall|v: SymbolId|
            #[trigger] final(visited)@.contains(v) <==> old(visited)@.contains(v) || reached(
                edge_lists(adj@),
                frontier@,
                frontier@.len() as int,
                v,
            ),
        forall|v: SymbolId|
            #[trigger] next@.contains(v) <==> final(visited)@.contains(v) && !old(visited)@.contains(v),
        next@ == fresh(targets_of_all(edge_lists(adj@), frontier@), old(visited)@),
{
    let ghost lists = edge_lists(adj@);
    let ghost before = visited@;
    let mut next: Vec<SymbolId> = Vec::new();
    let mut fi: usize = 0;
    assert(frontier@.take(0) =~= Seq::<SymbolId>::empty());
    while fi < frontier.len()
        invariant
            fi <= frontier.len(),
            lists == edge_lists(adj@),
            next@.no_duplicates(),
            next@ == fresh(targets_of_all(lists, frontier@.take(fi as int)), before),
            forall|v: SymbolId|
                #[trigger] visited@.contains(v) <==> before.contains(v) || reached(
                    lists,
                    frontier@,
                    fi as int,
                    v,
                ),
            forall|v: SymbolId|
                #[trigger] next@.contains(v) <==> visited@.contains(v) && !before.contains(v),
        decreases frontier.len() - fi,
    {
        let u = frontier[fi];
        let ghost seen = visited@;
        let ghost list = edges_of(lists, u);
        let ghost far = targets_of_all(lists, frontier@.take(fi as int));
        let ghost near = targets(lists, u);
        assert(frontier@.take(fi + 1).drop_last() =~= frontier@.take(fi as int));
        assert(near.len() == list.len());
        assert(far + near.take(0) =~= far);
        if let Some(edges) = adj.get(&u) {
            assert(lists[u] == edges@);
            assert(list == edges@);
            let mut ei: usize = 0;
            while ei < edges.len()
                invariant
                    ei <= edges.len(),
                    list == edges@,
                    near == list.map_values(|e: Edge| e.to),
                    next@.no_duplicates(),
                    next@ == fresh(far + near.take(ei as int), before),
                    forall|v: SymbolId|
                        #[trigger] visited@.contains(v) <==> seen.contains(v) || targeted(
                            list,
                            ei as int,
                            v,
                        ),
                    forall|v: SymbolId|
                        #[trigger] next@.contains(v) <==> visited@.contains(v) && !before.contains(v),
                    forall|v: SymbolId| before.contains(v) ==> #[trigger] seen.contains(v),
                decreases edges.len() - ei,
            {
                let v = edges[ei].to;
                let ghost mid = visited@;
                let ghost was = next@;
                assert(list[ei as int].to == v);
                assert((far + near.take(ei + 1)).drop_last() =~= far + near.take(ei as int));
                assert((far + near.take(ei + 1)).last() == v);
                if visited.insert(v) {
                    next.push(v);
                    assert(!was.contains(v));
                    assert forall|w: SymbolId| #[trigger] next@.contains(w) <==> was.contains(w) || w == v by {
                        if was.contains(w) {
                            let i = choose|i: int| 0 <= i < was.len() && was[i] == w;
                            assert(next@[i] == w);
                        }
                        assert(next@[was.len() as int] == v);
                        if next@.contains(w) && w != v {
                            let i = choose|i: int| 0 <= i < next@.len() && next@[i] == w;
                            assert(was[i] == w);
                        }
                    }
                    assert(mid.contains(v) == false);
                }
                assert forall|w: SymbolId| #[trigger] visited@.contains(w) <==> seen.contains(w) || targeted(
                    list,
                    ei + 1,
                    w,
                ) by {
                    assert(visited@.contains(w) <==> mid.contains(w) || w == v);
                    if targeted(list, ei as int, w) {
                        let i = choose|i: int| 0 <= i < ei && i < list.len() && (#[trigger] list[i]).to == w;
                        assert(list[i].to == w);
                    }
                    if targeted(list, ei + 1, w) {
                        let i = choose|i: int| 0 <= i < ei + 1 && i < list.len() && (#[trigger] list[i]).to == w;
                        if i < ei {
                            assert(targeted(list, ei as int, w));
                        }
                    }
                }
                ei = ei + 1;
            }
        }
        assert(near.take(near.len() as int) =~= near);
        assert forall|v: SymbolId| targeted(list, list.len() as int, v) == linked(lists, u, v) by {}
        assert forall|v: SymbolId| #[trigger] visited@.contains(v) <==> before.contains(v) || reached(
            lists,
            frontier@,
            fi + 1,
            v,
        ) by {
            assert(visited@.contains(v) <==> seen.contains(v) || linked(lists, u, v));
            if reached(lists, frontier@, fi as int, v) {
                let i = choose|i: int| 0 <= i < fi && i < frontier@.len() && linked(lists, #[trigger] frontier@[i], v);
                assert(linked(lists, frontier@[i], v));
            }
            if linked(lists, u, v) {
                assert(linked(lists, frontier@[fi as int], v));
            }
            if reached(lists, frontier@, fi + 1, v) {
                let i = choose|i: int| 0 <= i < fi + 1 && i < frontier@.len() && linked(lists, #[trigger] frontier@[i], v);
                if i < fi {
                    assert(reached(lists, frontier@, fi as int, v));
                }
            }
        }
        fi = fi + 1;
    }
    assert(frontier@.take(fi as int) =~= frontier@);
    next
}

/// The pairs of the symbols of a level with their depth.
pub open spec fn leveled(level: Seq<SymbolId>, d: usize) -> Seq<(SymbolId, usize)> {
    Seq::new(level.len(), |i: int| (level[i], d))
}

/// Walks from `start`, level by level, down to `max_depth`.
fn trace(adj: &HashMap<SymbolId, Vec<Edge>>, start: SymbolId, max_depth: usize) -> (r: Vec<
    (SymbolId, usize),
>)
    ensures
        traces(r@, edge_lists(adj@), start, max_depth as nat),
        r@ == walked(edge_lists(adj@), start, max_depth as nat),
{
    let ghost lists = edge_lists(adj@);
    let mut visited: HashSet<SymbolId> = HashSet::new();
    visited.insert(start);
    let mut frontier: Vec<SymbolId> = Vec::new();
    frontier.push(start);
    let mut result: Vec<(SymbolId, usize)> = Vec::new();
    let mut d: usize = 0;
    assert(visited@ =~= ball(lists, start, 0));
    assert(frontier@ =~= level(lists, start, 0));
    assert forall|v: SymbolId| #[trigger] frontier@.contains(v) <==> at_distance(lists, start, v, 0) by {
        assert(frontier@[0] == start);
    }
    while d < max_depth && frontier.len() > 0
        invariant
            d <= max_depth,
            lists == edge_lists(adj@),
            visited@ == ball(lists, start, d as nat),
            forall|v: SymbolId| #[trigger] frontier@.contains(v) <==> at_distance(lists, start, v, d as nat),
            traces(result@, lists, start, d as nat),
            frontier@ == level(lists, start, d as nat),
            result@ == walked(lists, start, d as nat),
        decreases max_depth - d,
    {
        let ghost b = visited@;
        let next = next_level(adj, &frontier, &mut visited);
        let ghost c = ball(lists, start, (d + 1) as nat);
        assert(visited@ =~= c) by {
            assert forall|v: SymbolId| visited@.contains(v) == c.contains(v) by {
                if reached(lists, frontier@, frontier@.len() as int, v) {
                    let i = choose|i: int|
                        0 <= i < frontier@.len() && linked(lists, #[trigger] frontier@[i], v);
                    assert(frontier@.contains(frontier@[i]));
                    lemma_ball_step(lists, start, d as nat, frontier@[i], v);
                }
                if c.contains(v) && !b.contains(v) {
                    let u = choose|u: SymbolId| b.contains(u) && #[trigger] linked(lists, u, v);
                    if d > 0 && ball(lists, start, (d - 1) as nat).contains(u) {
                        lemma_ball_step(lists, start, (d - 1) as nat, u, v);
                        assert(false);
                    }
                    assert(at_distance(lists, start, u, d as nat));
                    assert(frontier@.contains(u));
                    let i = choose|i: int| 0 <= i < frontier@.len() && frontier@[i] == u;
                    assert(linked(lists, frontier@[i], v));
                    assert(reached(lists, frontier@, frontier@.len() as int, v));
                }
            }
        }
        assert forall|v: SymbolId| #[trigger] next@.contains(v) <==> at_distance(
            lists,
            start,
            v,
            (d + 1) as nat,
        ) by {}
        d = d + 1;
        let ghost base = result@;
        let mut i: usize = 0;
        assert(base + leveled(next@, d).take(0) =~= base);
        while i < next.len()
            invariant
                i <= next.len(),
                result@ == base + leveled(next@, d).take(i as int),
            decreases next.len() - i,
        {
            result.push((next[i], d));
            i = i + 1;
            assert(leveled(next@, d).take(i as int) =~= leveled(next@, d).take(i - 1).push(
                (next@[i - 1], d),
            ));
            assert(result@ =~= base + leveled(next@, d).take(i as int));
        }
        assert(result@ =~= base + leveled(next@, d));
        proof {
            lemma_traces_step(base, next@, lists, start, d);
        }
        frontier = next;
    }
    proof {
        if d < max_depth {
            lemma_walk_ends(lists, start, d as nat, max_depth as nat);
            assert forall|v: SymbolId| !#[trigger] at_distance(lists, start, v, d as nat) by {
                assert(!frontier@.contains(v));
            }
            if d == 0 {
                assert(at_distance(lists, start, start, 0));
            }
            assert forall|v: SymbolId, k: usize|
                1 <= k <= max_depth && #[trigger] at_distance(lists, start, v, k as nat) implies result@.contains(
                (v, k),
            ) by {
                if k > d {
                    lemma_ball_stalls(lists, start, d as nat, k as nat);
                    lemma_ball_stalls(lists, start, d as nat, (k - 1) as nat);
                }
            }
        }
    }
    result
}

proof fn lemma_traces_step(
    base: Seq<(SymbolId, usize)>,
    next: Seq<SymbolId>,
    adj: Map<SymbolId, Seq<Edge>>,
    start: SymbolId,
    d: usize,
)
    requires
        d > 0,
        traces(base, adj, start, (d - 1) as nat),
        next.no_duplicates(),
        forall|v: SymbolId| #[trigger] next.contains(v) <==> at_distance(adj, start, v, d as nat),
    ensures
        traces(base + leveled(next, d), adj, start, d as nat),
{
    let all = base + leveled(next, d);
    assert forall|i: int| 0 <= i < all.len() implies 1 <= (#[trigger] all[i]).1 <= d && at_distance(
        adj,
        start,
        all[i].0,
        all[i].1 as nat,
    ) by {
        if i >= base.len() {
            assert(next.contains(next[i - base.len()]));
        } else {
            assert(all[i] == base[i]);
        }
    }
    assert forall|v: SymbolId, k: usize|
        1 <= k <= d && #[trigger] at_distance(adj, start, v, k as nat) implies all.contains((v, k)) by {
        if k == d {
            assert(next.contains(v));
            let i = choose|i: int| 0 <= i < next.len() && next[i] == v;
            assert(all[base.len() + i] == (v, k));
        } else {
            assert(base.contains((v, k)));
            let i = choose|i: int| 0 <= i < base.len() && base[i] == (v, k);
            assert(all[i] == (v, k));
        }
    }
    assert forall|i: int, j: int| 0 <= i < j < all.len() implies (#[trigger] all[i]).1 <= (#[trigger] all[j]).1
        && all[i].0 != all[j].0 by {
        if j < base.len() {
            assert(all[i] == base[i] && all[j] == base[j]);
        } else if i < base.len() {
            assert(all[i] == base[i]);
            assert(next.contains(next[j - base.len()]));
            if all[i].0 == all[j].0 {
                lemma_one_distance(adj, start, all[i].0, all[i].1 as nat, d as nat);
            }
        } else {
            assert(next[i - base.len()] != next[j - base.len()]);
        }
    }
}

/// Whether `p` is a shortest way from `from` to `to`.
pub open spec fn is_shortest_path(
    p: Seq<SymbolId>,
    adj: Map<SymbolId, Seq<Edge>>,
    from: SymbolId,
    to: SymbolId,
) -> bool {
    &&& p.len() > 0
    &&& p[0] == from
    &&& p.last() == to
    &&& forall|i: int| 0 <= i < p.len() - 1 ==> linked(adj, #[trigger] p[i], p[i + 1])
    &&& at_distance(adj, from, to, (p.len() - 1) as nat)
}

/// The most steps that a path is followed.
pub const MAX_HOPS: usize = 10;

fn has_edge_to(edges: &Vec<Edge>, v: SymbolId) -> (r: bool)
    ensures
        r == targeted(edges@, edges@.len() as int, v),
{
    let mut i: usize = 0;
    while i < edges.len()
        invariant
            i <= edges.len(),
            forall|k: int| 0 <= k < i ==> (#[trigger] edges@[k]).to != v,
        decreases edges.len() - i,
    {
        if edges[i].to == v {
            assert(edges@[i as int].to == v);
            return true;
        }
        i = i + 1;
    }
    false
}

/// The symbol before `v`, which is `k` steps away from `from`: the first of its level
/// that leads to `v`.
fn step_back(
    adj: &HashMap<SymbolId, Vec<Edge>>,
    seen: &Vec<(SymbolId, usize)>,
    from: SymbolId,
    v: SymbolId,
    k: usize,
) -> (u: SymbolId)
    requires
        1 <= k <= MAX_HOPS,
        traces(seen@, edge_lists(adj@), from, MAX_HOPS as nat),
        seen@ == walked(edge_lists(adj@), from, MAX_HOPS as nat),
        at_distance(edge_lists(adj@), from, v, k as nat),
    ensures
        at_distance(edge_lists(adj@), from, u, (k - 1) as nat),
        linked(edge_lists(adj@), u, v),
        u == first_leading(edge_lists(adj@), level(edge_lists(adj@), from, (k - 1) as nat), v),
{
    let ghost lists = edge_lists(adj@);
    let ghost b = ball(lists, from, (k - 1) as nat);
    assert(next_of(lists, b).contains(v));
    let ghost w = choose|u: SymbolId| b.contains(u) && #[trigger] linked(lists, u, v);
    proof {
        if k >= 2 && ball(lists, from, (k - 2) as nat).contains(w) {
            lemma_ball_step(lists, from, (k - 2) as nat, w, v);
            assert(false);
        }
        assert(at_distance(lists, from, w, (k - 1) as nat));
    }
    if k == 1 {
        assert(w == from);
        proof {
            lemma_first_leading(lists, level(lists, from, 0), v, 0);
        }
        return from;
    }
    let mut i: usize = 0;
    assert(seen@.contains((w, (k - 1) as usize)));
    while i < seen.len()
        invariant
            i <= seen.len(),
            lists == edge_lists(adj@),
            2 <= k <= MAX_HOPS,
            traces(seen@, lists, from, MAX_HOPS as nat),
            seen@ == walked(lists, from, MAX_HOPS as nat),
            linked(lists, w, v),
            seen@.contains((w, (k - 1) as usize)),
            forall|j: int|
                0 <= j < i ==> !((#[trigger] seen@[j]).1 == k - 1 && linked(lists, seen@[j].0, v)),
        decreases seen.len() - i,
    {
        let u = seen[i].0;
        if seen[i].1 == k - 1 {
            assert(seen@[i as int].1 == k - 1);
            if let Some(edges) = adj.get(&u) {
                assert(lists[u] == edges@);
                if has_edge_to(edges, v) {
                    proof {
                        let row = level(lists, from, (k - 1) as nat);
                        let start = walked(lists, from, (k - 2) as nat).len();
                        lemma_walk_levels(lists, from, MAX_HOPS as nat, (k - 1) as nat);
                        assert(start <= i < start + row.len());
                        assert(seen@[start + (i - start)] == (row[i - start], (k - 1) as usize));
                        assert forall|j: int| 0 <= j < i - start implies !linked(lists, #[trigger] row[j], v) by {
                            assert(seen@[start + j] == (row[j], (k - 1) as usize));
                        }
                        lemma_first_leading(lists, row, v, i - start);
                    }
                    return u;
                }
            }
        }
        i = i + 1;
    }
    proof {
        let j = choose|j: int| 0 <= j < seen@.len() && seen@[j] == (w, (k - 1) as usize);
        assert(seen@[j].1 == k - 1 && linked(lists, seen@[j].0, v));
        assert(false);
    }
    from
}

impl CodeGraph {
    /// Everything that calls a symbol, directly or through others, up to
    /// `max_depth` calls away.
    pub fn trace_callers(&self, id: SymbolId, max_depth: usize) -> (r: Vec<(SymbolId, usize)>)
        ensures
            traces(r@, self@.into, id, max_depth as nat),
            r@ == walked(self@.into, id, max_depth as nat),
    {
        trace(&self.edges_in, id, max_depth)
    }

    /// Everything that a symbol calls, directly or through others, up to
    /// `max_depth` calls away.
    pub fn trace_callees(&self, id: SymbolId, max_depth: usize) -> (r: Vec<(SymbolId, usize)>)
        ensures
            traces(r@, self@.out, id, max_depth as nat),
            r@ == walked(self@.out, id, max_depth as nat),
    {
        trace(&self.edges_out, id, max_depth)
    }

    /// A shortest way from `from` to `to` along calls, if it has no more than
    /// ten steps.
    pub fn shortest_path(&self, from: SymbolId, to: SymbolId) -> (r: Option<Vec<SymbolId>>)
        ensures
            match r {
                Some(p) => is_shortest_path(p@, self@.out, from, to) && p@.len() - 1 <= 10 && p@ == first_way(
                    self@.out,
                    from,
                    to,
                    (p@.len() - 1) as nat,
                ),
                None => !ball(self@.out, from, 10).contains(to),
            },
    {
        let ghost adj = self@.out;
        if from == to {
            let mut p: Vec<SymbolId> = Vec::new();
            p.push(from);
            return Some(p);
        }
        let seen = self.trace_callees(from, MAX_HOPS);
        let mut found: Option<usize> = None;
        let mut i: usize = 0;
        while i < seen.len() && found.is_none()
            invariant
                i <= seen.len(),
                traces(seen@, adj, from, MAX_HOPS as nat),
                match found {
                    Some(k) => seen@.contains((to, k)),
                    None => forall|j: int| 0 <= j < i ==> (#[trigger] seen@[j]).0 != to,
                },
            decreases seen.len() - i,
        {
            if seen[i].0 == to {
                assert(seen@[i as int] == (to, seen@[i as int].1));
                found = Some(seen[i].1);
            }
            i = i + 1;
        }
        match found {
            None => {
                proof {
                    if ball(adj, from, MAX_HOPS as nat).contains(to) {
                        lemma_some_distance(adj, from, to, MAX_HOPS as nat);
                        let k = choose|k: nat| k <= MAX_HOPS && #[trigger] at_distance(adj, from, to, k);
                        assert(k != 0);
                        assert(at_distance(adj, from, to, (k as usize) as nat));
                        assert(seen@.contains((to, k as usize)));
                        let j = choose|j: int| 0 <= j < seen@.len() && seen@[j] == (to, k as usize);
                        assert(seen@[j].0 == to);
                    }
                }
                None
            },
            Some(steps) => {
                let ghost at = choose|j: int| 0 <= j < seen@.len() && seen@[j] == (to, steps);
                assert(seen@[at] == (to, steps));
                let mut back: Vec<SymbolId> = Vec::new();
                back.push(to);
                let mut cur = to;
                let mut k: usize = steps;
                assert(first_way(adj, from, to, steps as nat) + back@.reverse().drop_first() =~= first_way(
                    adj,
                    from,
                    to,
                    steps as nat,
                ));
                while k > 0
                    invariant
                        k <= steps <= MAX_HOPS,
                        adj == edge_lists(self.edges_out@),
                        traces(seen@, adj, from, MAX_HOPS as nat),
                        seen@ == walked(adj, from, MAX_HOPS as nat),
                        at_distance(adj, from, cur, k as nat),
                        first_way(adj, from, to, steps as nat) == first_way(adj, from, cur, k as nat)
                            + back@.reverse().drop_first(),
                        back@.len() == steps - k + 1,
                        back@[0] == to,
                        back@.last() == cur,
                        forall|j: int|
                            0 <= j < back@.len() - 1 ==> linked(adj, back@[j + 1], #[trigger] back@[j]),
                    decreases k,
                {
                    let u = step_back(&self.edges_out, &seen, from, cur, k);
                    let ghost was = back@;
                    back.push(u);
                    assert(first_way(adj, from, cur, k as nat) + was.reverse().drop_first() =~= first_way(
                        adj,
                        from,
                        u,
                        (k - 1) as nat,
                    ) + back@.reverse().drop_first());
                    assert forall|j: int| 0 <= j < back@.len() - 1 implies linked(
                        adj,
                        back@[j + 1],
                        #[trigger] back@[j],
                    ) by {
                        if j < was.len() - 1 {
                            assert(linked(adj, was[j + 1], was[j]));
                        }
                    }
                    cur = u;
                    k = k - 1;
                }
                assert(cur == from);
                let mut path: Vec<SymbolId> = Vec::new();
                let mut n: usize = back.len();
                while n > 0
                    invariant
                        n <= back.len(),
                        path@.len() == back@.len() - n,
                        forall|j: int|
                            0 <= j < path@.len() ==> #[trigger] path@[j] == back@[back@.len() - 1 - j],
                    decreases n,
                {
                    path.push(back[n - 1]);
                    n = n - 1;
                }
                assert forall|j: int| 0 <= j < path@.len() - 1 implies linked(
                    adj,
                    #[trigger] path@[j],
                    path@[j + 1],
                ) by {
                    let m = back@.len() - 2 - j;
                    assert(linked(adj, back@[m + 1], back@[m]));
                    assert(path@[j + 1] == back@[m]);
                }
                assert(path@ =~= seq![from] + back@.reverse().drop_first());
                Some(path)
            },
        }
    }
}

proof fn lemma_some_distance(
    adj: Map<SymbolId, Seq<Edge>>,
    start: SymbolId,
    v: SymbolId,
    d: nat,
)
    requires
        ball(adj, start, d).contains(v),
    ensures
        exists|k: nat| k <= d && #[trigger] at_distance(adj, start, v, k),
    decreases d,
{
    if d > 0 && ball(adj, start, (d - 1) as nat).contains(v) {
        lemma_some_distance(adj, start, v, (d - 1) as nat);
    } else {
        assert(at_distance(adj, start, v, d));
    }
}

proof fn lemma_fresh(list: Seq<SymbolId>, seen: Set<SymbolId>)
    ensures
        fresh(list, seen).no_duplicates(),
        forall|v: SymbolId| #[trigger] fresh(list, seen).contains(v) <==> list.contains(v) && !seen.contains(v),
    decreases list.len(),
{
    if list.len() > 0 {
        let t = list.drop_last();
        let x = list.last();
        let before = fresh(t, seen);
        let now = fresh(list, seen);
        lemma_fresh(t, seen);
        assert forall|v: SymbolId| #[trigger] now.contains(v) <==> list.contains(v) && !seen.contains(v) by {
            assert(list.contains(v) <==> t.contains(v) || v == x) by {
                if t.contains(v) {
                    let i = choose|i: int| 0 <= i < t.len() && t[i] == v;
                    assert(list[i] == v);
                }
                if list.contains(v) && v != x {
                    let i = choose|i: int| 0 <= i < list.len() && list[i] == v;
                    assert(t[i] == v);
                }
                assert(list[list.len() - 1] == x);
            }
            assert(before.push(x).contains(v) <==> before.contains(v) || v == x) by {
                if before.contains(v) {
                    let i = choose|i: int| 0 <= i < before.len() && before[i] == v;
                    assert(before.push(x)[i] == v);
                }
                assert(before.push(x)[before.len() as int] == x);
            }
        }
    }
}

proof fn lemma_targets_of_all(adj: Map<SymbolId, Seq<Edge>>, from: Seq<SymbolId>, v: SymbolId)
    ensures
        targets_of_all(adj, from).contains(v) <==> exists|i: int|
            0 <= i < from.len() && linked(adj, #[trigger] from[i], v),
    decreases from.len(),
{
    let all = targets_of_all(adj, from);
    if from.len() > 0 {
        let t = from.drop_last();
        let front = targets_of_all(adj, t);
        let more = targets(adj, from.last());
        lemma_targets_of_all(adj, t, v);
        if all.contains(v) {
            let i = choose|i: int| 0 <= i < all.len() && all[i] == v;
            if i < front.len() {
                assert(front[i] == v);
                let k = choose|k: int| 0 <= k < t.len() && linked(adj, #[trigger] t[k], v);
                assert(linked(adj, from[k], v));
            } else {
                assert(edges_of(adj, from.last())[i - front.len()].to == v);
                assert(linked(adj, from[from.len() - 1], v));
            }
        }
        if exists|i: int| 0 <= i < from.len() && linked(adj, #[trigger] from[i], v) {
            let i = choose|i: int| 0 <= i < from.len() && linked(adj, #[trigger] from[i], v);
            if i < t.len() {
                assert(linked(adj, t[i], v));
                let k = choose|k: int| 0 <= k < front.len() && front[k] == v;
                assert(all[k] == v);
            } else {
                let k = choose|k: int|
                    0 <= k < edges_of(adj, from[i]).len() && (#[trigger] edges_of(adj, from[i])[k]).to == v;
                assert(more[k] == v);
                assert(all[front.len() + k] == v);
            }
        }
    }
}

/// A level holds what is at its distance, each symbol once.
pub proof fn levels_hold_what_is_at_their_distance(adj: Map<SymbolId, Seq<Edge>>, start: SymbolId, d: nat)
    ensures
        level(adj, start, d).no_duplicates(),
        forall|v: SymbolId| #[trigger] level(adj, start, d).contains(v) <==> at_distance(adj, start, v, d),
    decreases d,
{
    if d == 0 {
        assert forall|v: SymbolId| #[trigger] level(adj, start, d).contains(v) <==> at_distance(adj, start, v, d) by {
            assert(level(adj, start, 0)[0] == start);
        }
    } else {
        let before = level(adj, start, (d - 1) as nat);
        let b = ball(adj, start, (d - 1) as nat);
        levels_hold_what_is_at_their_distance(adj, start, (d - 1) as nat);
        lemma_fresh(targets_of_all(adj, before), b);
        assert forall|v: SymbolId| #[trigger] level(adj, start, d).contains(v) <==> at_distance(adj, start, v, d) by {
            lemma_targets_of_all(adj, before, v);
            if level(adj, start, d).contains(v) {
                let i = choose|i: int| 0 <= i < before.len() && linked(adj, #[trigger] before[i], v);
                assert(before.contains(before[i]));
                assert(at_distance(adj, start, before[i], (d - 1) as nat));
                lemma_ball_step(adj, start, (d - 1) as nat, before[i], v);
            }
            if at_distance(adj, start, v, d) {
                let u = choose|u: SymbolId| b.contains(u) && #[trigger] linked(adj, u, v);
                if d >= 2 && ball(adj, start, (d - 2) as nat).contains(u) {
                    lemma_ball_step(adj, start, (d - 2) as nat, u, v);
                }
                assert(at_distance(adj, start, u, (d - 1) as nat));
                assert(before.contains(u));
                let i = choose|i: int| 0 <= i < before.len() && before[i] == u;
                assert(linked(adj, before[i], v));
            }
        }
    }
}

/// A walk names everything that is near enough, each symbol once, nearest first.
pub proof fn walks_trace(adj: Map<SymbolId, Seq<Edge>>, start: SymbolId, d: usize)
    ensures
        traces(walked(adj, start, d as nat), adj, start, d as nat),
    decreases d,
{
    if d > 0 {
        walks_trace(adj, start, (d - 1) as usize);
        levels_hold_what_is_at_their_distance(adj, start, d as nat);
        lemma_traces_step(walked(adj, start, (d - 1) as nat), level(adj, start, d as nat), adj, start, d);
    }
}

proof fn lemma_ball_from_front(
    adj: Map<SymbolId, Seq<Edge>>,
    start: SymbolId,
    w: SymbolId,
    v: SymbolId,
    d: nat,
)
    requires
        linked(adj, start, w),
        ball(adj, w, d).contains(v),
    ensures
        ball(adj, start, d + 1).contains(v),
    decreases d,
{
    if d == 0 {
        assert(ball(adj, start, 0).contains(start));
        lemma_ball_step(adj, start, 0, start, w);
    } else {
        let b = ball(adj, w, (d - 1) as nat);
        if b.contains(v) {
            lemma_ball_from_front(adj, start, w, v, (d - 1) as nat);
            lemma_ball_grows(adj, start, d, d + 1);
        } else {
            let u = choose|u: SymbolId| b.contains(u) && #[trigger] linked(adj, u, v);
            lemma_ball_from_front(adj, start, w, u, (d - 1) as nat);
            lemma_ball_step(adj, start, d, u, v);
        }
    }
}

proof fn lemma_ball_mirrored(
    adj: Map<SymbolId, Seq<Edge>>,
    back: Map<SymbolId, Seq<Edge>>,
    a: SymbolId,
    b: SymbolId,
    d: nat,
)
    requires
        forall|u: SymbolId, v: SymbolId| #[trigger] linked(adj, u, v) ==> linked(back, v, u),
        ball(adj, a, d).contains(b),
    ensures
        ball(back, b, d).contains(a),
    decreases d,
{
    if d > 0 {
        let near = ball(adj, a, (d - 1) as nat);
        if near.contains(b) {
            lemma_ball_mirrored(adj, back, a, b, (d - 1) as nat);
            lemma_ball_grows(back, b, (d - 1) as nat, d);
        } else {
            let u = choose|u: SymbolId| near.contains(u) && #[trigger] linked(adj, u, b);
            lemma_ball_mirrored(adj, back, a, u, (d - 1) as nat);
            lemma_ball_from_front(back, b, u, a, (d - 1) as nat);
        }
    }
}

proof fn lemma_links_mirror(a: Map<SymbolId, Seq<Edge>>, b: Map<SymbolId, Seq<Edge>>, u: SymbolId, v: SymbolId)
    requires
        mirrors(a, b),
    ensures
        linked(a, u, v) ==> linked(b, v, u),
{
    if linked(a, u, v) {
        let i = choose|i: int| 0 <= i < edges_of(a, u).len() && (#[trigger] edges_of(a, u)[i]).to == v;
        let e = edges_of(a, u)[i];
        assert(edges_of(a, u).contains(e));
        let f = Edge { to: u, ..e };
        lemma_mirrored(a, b, u, e);
        assert(edges_of(b, v).contains(f));
        let k = choose|k: int| 0 <= k < edges_of(b, v).len() && edges_of(b, v)[k] == f;
        assert(edges_of(b, v)[k].to == u);
    }
}

/// Callers and callees are the same calls seen from the two ends: one symbol is among
/// the callers of another, at a distance, where the other is among its callees, at
/// the same distance.
pub proof fn callers_mirror_callees(
    out: Map<SymbolId, Seq<Edge>>,
    into: Map<SymbolId, Seq<Edge>>,
    caller: SymbolId,
    callee: SymbolId,
    d: usize,
    depth: usize,
)
    requires
        balanced(out, into),
    ensures
        walked(into, callee, depth as nat).contains((caller, d)) <==> walked(out, caller, depth as nat).contains(
            (callee, d),
        ),
{
    assert forall|u: SymbolId, v: SymbolId| #[trigger] linked(out, u, v) <==> linked(into, v, u) by {
        lemma_links_mirror(out, into, u, v);
        lemma_links_mirror(into, out, v, u);
    }
    assert forall|k: nat| ball(into, callee, k).contains(caller) <==> #[trigger] ball(out, caller, k).contains(callee) by {
        if ball(into, callee, k).contains(caller) {
            lemma_ball_mirrored(into, out, callee, caller, k);
        }
        if ball(out, caller, k).contains(callee) {
            lemma_ball_mirrored(out, into, caller, callee, k);
        }
    }
    assert(at_distance(into, callee, caller, d as nat) <==> at_distance(out, caller, callee, d as nat));
    lemma_walk_has(into, callee, caller, d, depth);
    lemma_walk_has(out, caller, callee, d, depth);
}

proof fn lemma_walk_has(adj: Map<SymbolId, Seq<Edge>>, start: SymbolId, v: SymbolId, d: usize, depth: usize)
    ensures
        walked(adj, start, depth as nat).contains((v, d)) <==> 1 <= d <= depth && at_distance(
            adj,
            start,
            v,
            d as nat,
        ),
{
    walks_trace(adj, start, depth);
    let all = walked(adj, start, depth as nat);
    if all.contains((v, d)) {
        let i = choose|i: int| 0 <= i < all.len() && all[i] == (v, d);
        assert(at_distance(adj, start, all[i].0, all[i].1 as nat));
    }
}

/// No way between the two ends of a shortest way, over whichever symbols, has fewer
/// symbols; and a shortest way is one, step by step along edges.
pub proof fn no_way_is_shorter(
    p: Seq<SymbolId>,
    q: Seq<SymbolId>,
    adj: Map<SymbolId, Seq<Edge>>,
    from: SymbolId,
    to: SymbolId,
    i: int,
)
    requires
        is_shortest_path(p, adj, from, to),
        q.len() > 0,
        q[0] == from,
        q.last() == to,
        forall|j: int| 0 <= j < q.len() - 1 ==> linked(adj, #[trigger] q[j], q[j + 1]),
    ensures
        p.len() <= q.len(),
        p[0] == from && p.last() == to,
        0 <= i < p.len() - 1 ==> exists|k: int|
            0 <= k < edges_of(adj, p[i]).len() && (#[trigger] edges_of(adj, p[i])[k]).to == p[i + 1],
{
    if 0 <= i < p.len() - 1 {
        assert(linked(adj, p[i], p[i + 1]));
    }
    lemma_steps_stay_near(q, adj, from, (q.len() - 1) as nat);
    if q.len() < p.len() {
        lemma_ball_grows(adj, from, (q.len() - 1) as nat, (p.len() - 2) as nat);
    }
}

proof fn lemma_steps_stay_near(q: Seq<SymbolId>, adj: Map<SymbolId, Seq<Edge>>, from: SymbolId, n: nat)
    requires
        n < q.len(),
        q[0] == from,
        forall|j: int| 0 <= j < q.len() - 1 ==> linked(adj, #[trigger] q[j], q[j + 1]),
    ensures
        ball(adj, from, n).contains(q[n as int]),
    decreases n,
{
    if n > 0 {
        lemma_steps_stay_near(q, adj, from, (n - 1) as nat);
        let u = q[n - 1];
        assert(linked(adj, u, q[n as int]));
        lemma_ball_step(adj, from, (n - 1) as nat, u, q[n as int]);
    }
}

} // verus!
