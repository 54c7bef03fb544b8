//! Breadth-first search for a shortest walk, with the proof that the walk it
//! finds is a shortest one and that it finds one wherever there is any.

use crate::graph::{copied, index_views, list_views, GraphView};
use std::collections::VecDeque;
use vstd::prelude::*;

verus! {

/// Vertex `v` has been reached by a walk of at most `len` vertices.
spec fn reached_within(order: Seq<int>, walks: Seq<Seq<int>>, v: int, len: nat) -> bool {
    exists|k: int| 0 <= k < order.len() && #[trigger] order[k] == v && walks[k].len() <= len
}

/// The state of a breadth-first search from `from`: `order` lists the
/// vertices reached so far, each once, `walks` holds for each the walk by
/// which it was reached, the walks never get shorter along the list, and the
/// first `done` vertices have been expanded, so that each of their children
/// has been reached by a walk at most one longer than their own.
spec fn searched(
    g: GraphView,
    from: int,
    order: Seq<int>,
    walks: Seq<Seq<int>>,
    done: int,
) -> bool {
    &&& order.len() == walks.len()
    &&& 0 <= done <= order.len()
    &&& order.len() > 0
    &&& walks[0].len() == 1
    &&& order.no_duplicates()
    &&& forall|k: int| 0 <= k < order.len() ==> g.connects(#[trigger] walks[k], from, order[k])
    &&& forall|a: int, b: int|
        0 <= a <= b < walks.len() ==> (#[trigger] walks[a]).len() <= (#[trigger] walks[b]).len()
    &&& forall|k: int, c: int|
        0 <= k < done && #[trigger] g.has_edge(order[k], c) ==> reached_within(
            order,
            walks,
            c,
            walks[k].len() + 1,
        )
}

/// Breadth-first search misses nothing and finds nothing late: the end of
/// any walk from the start has been reached by a walk that is no longer,
/// unless the walk is longer than the one of the next vertex to expand.
proof fn lemma_walk_reached(
    g: GraphView,
    from: int,
    order: Seq<int>,
    walks: Seq<Seq<int>>,
    done: int,
    walk: Seq<int>,
)
    requires
        searched(g, from, order, walks, done),
        g.is_walk(walk),
        walk[0] == from,
    ensures
        reached_within(order, walks, walk[walk.len() - 1], walk.len()) || (done
            < order.len() && walk.len() > walks[done].len()),
    decreases walk.len(),
{
    if walk.len() == 1 {
        assert(g.connects(walks[0], from, order[0]));
        assert(order[0] == from && walks[0].len() <= 1);
    } else {
        let shorter = walk.drop_last();
        assert(g.is_walk(shorter)) by {
            assert forall|k: int| 0 <= k < shorter.len() - 1 implies g.has_edge(
                #[trigger] shorter[k],
                shorter[k + 1],
            ) by {
                assert(g.has_edge(walk[k], walk[k + 1]));
            }
            assert forall|k: int| 0 <= k < shorter.len() implies 0 <= #[trigger] shorter[k]
                < g.vertices.len() by {
                assert(0 <= walk[k] < g.vertices.len());
            }
        }
        lemma_walk_reached(g, from, order, walks, done, shorter);
        let last = walk[walk.len() - 1];
        let before_last = shorter[shorter.len() - 1];
        assert(before_last == walk[walk.len() - 2]);
        assert(g.has_edge(walk[walk.len() - 2], walk[walk.len() - 2 + 1]));
        if reached_within(order, walks, before_last, shorter.len()) {
            let k = choose|k: int|
                0 <= k < order.len() && #[trigger] order[k] == before_last && walks[k].len()
                    <= shorter.len();
            if k < done {
                assert(g.has_edge(order[k], last));
                assert(reached_within(order, walks, last, walks[k].len() + 1));
                let k2 = choose|k2: int|
                    0 <= k2 < order.len() && #[trigger] order[k2] == last && walks[k2].len()
                        <= walks[k].len() + 1;
                assert(order[k2] == last && walks[k2].len() <= walk.len());
            } else {
                assert(walks[done].len() <= walks[k].len());
            }
        }
    }
}

/// The state of a search while the vertex at position `h` of `order` is
/// being expanded: the first `upto` of its children have been looked at, and
/// no walk is more than one vertex longer than the one to the vertex under
/// expansion.
spec fn expanding(
    g: GraphView,
    from: int,
    order: Seq<int>,
    walks: Seq<Seq<int>>,
    h: int,
    upto: int,
) -> bool {
    &&& searched(g, from, order, walks, h)
    &&& h < order.len()
    &&& 0 <= order[h] < g.children.len()
    &&& 0 <= upto <= g.children[order[h]].len()
    &&& forall|k: int| 0 <= k < walks.len() ==> (#[trigger] walks[k]).len() <= walks[h].len() + 1
    &&& forall|i: int|
        0 <= i < upto ==> reached_within(
            order,
            walks,
            #[trigger] g.children[order[h]][i],
            walks[h].len() + 1,
        )
}

/// Looking at a child that has been reached before changes nothing.
proof fn lemma_expand_known(
    g: GraphView,
    from: int,
    order: Seq<int>,
    walks: Seq<Seq<int>>,
    h: int,
    upto: int,
)
    requires
        expanding(g, from, order, walks, h, upto),
        upto < g.children[order[h]].len(),
        order.contains(g.children[order[h]][upto]),
    ensures
        expanding(g, from, order, walks, h, upto + 1),
{
    let child = g.children[order[h]][upto];
    let w = choose|w: int| 0 <= w < order.len() && order[w] == child;
    assert(order[w] == child && walks[w].len() <= walks[h].len() + 1);
    assert(reached_within(order, walks, child, walks[h].len() + 1));
}

/// Looking at a child that has not been reached before adds it to the end
/// of the search order, with the walk to its parent extended by it.
proof fn lemma_expand_new(
    g: GraphView,
    from: int,
    order: Seq<int>,
    walks: Seq<Seq<int>>,
    h: int,
    upto: int,
)
    requires
        g.valid(),
        expanding(g, from, order, walks, h, upto),
        upto < g.children[order[h]].len(),
        !order.contains(g.children[order[h]][upto]),
    ensures
        expanding(
            g,
            from,
            order.push(g.children[order[h]][upto]),
            walks.push(walks[h].push(g.children[order[h]][upto])),
            h,
            upto + 1,
        ),
{
    let at = order[h];
    let child = g.children[at][upto];
    let new_walk = walks[h].push(child);
    let order2 = order.push(child);
    let walks2 = walks.push(new_walk);
    assert(g.connects(walks[h], from, order[h]));
    assert(0 <= g.children[at][upto] < g.vertices.len());
    assert(g.is_walk(new_walk)) by {
        assert forall|k: int| 0 <= k < new_walk.len() - 1 implies g.has_edge(
            #[trigger] new_walk[k],
            new_walk[k + 1],
        ) by {
            if k < walks[h].len() - 1 {
                assert(g.has_edge(walks[h][k], walks[h][k + 1]));
            } else {
                assert(new_walk[k] == at);
                assert(g.children[at].contains(g.children[at][upto]));
            }
        }
        assert forall|k: int| 0 <= k < new_walk.len() implies 0 <= #[trigger] new_walk[k]
            < g.vertices.len() by {
            if k < walks[h].len() {
                assert(0 <= walks[h][k] < g.vertices.len());
            }
        }
    }
    assert(g.connects(new_walk, from, child));
    assert(order2.no_duplicates()) by {
        assert forall|i: int, j: int|
            0 <= i < order2.len() && 0 <= j < order2.len() && i != j implies order2[i]
            != order2[j] by {
            if i < order.len() {
                assert(order.contains(order[i]));
            }
            if j < order.len() {
                assert(order.contains(order[j]));
            }
        }
    }
    assert forall|k: int| 0 <= k < order2.len() implies g.connects(
        #[trigger] walks2[k],
        from,
        order2[k],
    ) by {
        if k < order.len() {
            assert(g.connects(walks[k], from, order[k]));
        }
    }
    assert forall|a: int, b: int| 0 <= a <= b < walks2.len() implies (#[trigger] walks2[a]).len()
        <= (#[trigger] walks2[b]).len() by {
        if b < walks.len() {
            assert(walks[a].len() <= walks[b].len());
        } else if a < walks.len() {
            assert(walks[a].len() <= walks[h].len() + 1);
        }
    }
    assert forall|k: int, t: int|
        0 <= k < h && #[trigger] g.has_edge(order2[k], t) implies reached_within(
        order2,
        walks2,
        t,
        walks2[k].len() + 1,
    ) by {
        assert(g.has_edge(order[k], t));
        assert(reached_within(order, walks, t, walks[k].len() + 1));
        let w = choose|w: int|
            0 <= w < order.len() && #[trigger] order[w] == t && walks[w].len() <= walks[k].len()
                + 1;
        assert(order2[w] == t && walks2[w].len() <= walks2[k].len() + 1);
    }
    assert(searched(g, from, order2, walks2, h));
    assert forall|k: int| 0 <= k < walks2.len() implies (#[trigger] walks2[k]).len()
        <= walks2[h].len() + 1 by {
        if k < walks.len() {
            assert(walks[k].len() <= walks[h].len() + 1);
        }
    }
    assert forall|i: int| 0 <= i < upto + 1 implies reached_within(
        order2,
        walks2,
        #[trigger] g.children[order2[h]][i],
        walks2[h].len() + 1,
    ) by {
        if i < upto {
            let t = g.children[at][i];
            assert(reached_within(order, walks, t, walks[h].len() + 1));
            let w = choose|w: int|
                0 <= w < order.len() && #[trigger] order[w] == t && walks[w].len()
                    <= walks[h].len() + 1;
            assert(order2[w] == t && walks2[w].len() <= walks2[h].len() + 1);
        } else {
            let w = order2.len() - 1;
            assert(order2[w] == child && walks2[w].len() <= walks2[h].len() + 1);
        }
    }
}

/// Once all children of the vertex under expansion have been looked at, the
/// vertex counts as expanded.
proof fn lemma_expand_done(
    g: GraphView,
    from: int,
    order: Seq<int>,
    walks: Seq<Seq<int>>,
    h: int,
)
    requires
        expanding(g, from, order, walks, h, g.children[order[h]].len() as int),
    ensures
        searched(g, from, order, walks, h + 1),
        forall|k: int|
            0 <= k < walks.len() && h + 1 < walks.len() ==> (#[trigger] walks[k]).len() <= walks[h
                + 1].len() + 1,
{
    let at = order[h];
    assert forall|k: int, t: int|
        0 <= k < h + 1 && #[trigger] g.has_edge(order[k], t) implies reached_within(
        order,
        walks,
        t,
        walks[k].len() + 1,
    ) by {
        if k == h {
            let i = choose|i: int| 0 <= i < g.children[at].len() && g.children[at][i] == t;
            assert(reached_within(order, walks, g.children[at][i], walks[h].len() + 1));
        }
    }
    assert forall|k: int| 0 <= k < walks.len() && h + 1 < walks.len() implies (
    #[trigger] walks[k]).len() <= walks[h + 1].len() + 1 by {
        assert(walks[k].len() <= walks[h].len() + 1);
        assert(walks[h].len() <= walks[h + 1].len());
    }
}

/// A list of distinct numbers below `n` has at most `n` entries.
proof fn lemma_distinct_bounded(order: Seq<int>, n: int)
    requires
        0 <= n,
        order.no_duplicates(),
        forall|k: int| 0 <= k < order.len() ==> 0 <= #[trigger] order[k] < n,
    ensures
        order.len() <= n,
{
    if order.len() > 0 {
        assert(0 <= order[0] < n);
        order.unique_seq_to_set();
        let range = vstd::set_lib::set_int_range(0, n);
        vstd::set_lib::lemma_int_range(0, n);
        assert(order.to_set().subset_of(range)) by {
            assert forall|v: int| order.to_set().contains(v) implies range.contains(v) by {
                let k = choose|k: int| 0 <= k < order.len() && order[k] == v;
                assert(0 <= order[k] < n);
            }
        }
        vstd::set_lib::lemma_len_subset(order.to_set(), range);
    }
}

/// A copy of `walk` with `next` added at its end.
fn extended(walk: &Vec<usize>, next: usize) -> (longer: Vec<usize>)
    ensures
        longer@ == walk@.push(next),
{
    let mut longer = copied(walk);
    longer.push(next);
    longer
}

/// Breadth-first search from `from` for `to` over the adjacency lists
/// `edges` of the graph `g`: a shortest walk, or `None` where no walk leads
/// there. Every queued entry carries the whole walk to its vertex, so that
/// the walk to `to` is at hand when `to` leaves the queue; a vertex is marked
/// when it is queued, so that none is queued twice.
pub(crate) fn shortest_walk(
    edges: &Vec<Vec<usize>>,
    from: usize,
    to: usize,
    Ghost(g): Ghost<GraphView>,
) -> (found: Option<Vec<usize>>)
    requires
        g.valid(),
        g.children == list_views(edges@),
        from < g.vertices.len(),
        to < g.vertices.len(),
    ensures
        match found {
            Some(walk) => g.is_shortest(index_views(walk@), from as int, to as int),
            None => forall|walk: Seq<int>| !#[trigger] g.connects(walk, from as int, to as int),
        },
{
    let n: usize = edges.len();
    let mut visited: Vec<bool> = Vec::new();
    let mut v: usize = 0;
    while v < n
        invariant
            v <= n,
            visited.len() == v,
            forall|k: int| 0 <= k < v ==> !visited[k],
        decreases n - v,
    {
        visited.push(false);
        v += 1;
    }
    let mut queue: VecDeque<(usize, Vec<usize>)> = VecDeque::new();
    let mut first: Vec<usize> = Vec::new();
    first.push(from);
    queue.push_back((from, first));
    visited[from] = true;
    let ghost mut order: Seq<int> = seq![from as int];
    let ghost mut walks: Seq<Seq<int>> = seq![seq![from as int]];
    let ghost mut done: int = 0;
    proof {
        assert(index_views(queue@[0].1@) =~= walks[0]);
        assert(g.connects(walks[0], from as int, order[0]));
    }
    while queue.len() > 0
        invariant
            g.children == list_views(edges@),
            g.valid(),
            n == g.vertices.len(),
            n == edges.len(),
            from < n,
            to < n,
            searched(g, from as int, order, walks, done),
            queue@.len() == order.len() - done,
            forall|k: int|
                0 <= k < queue@.len() ==> (#[trigger] queue@[k]).0 == order[done + k]
                    && index_views(queue@[k].1@) == walks[done + k],
            visited.len() == n,
            forall|v: int| 0 <= v < n ==> (#[trigger] visited[v] <==> order.contains(v)),
            order.len() <= n,
            forall|k: int|
                0 <= k < walks.len() && done < walks.len() ==> (#[trigger] walks[k]).len()
                    <= walks[done].len() + 1,
            forall|k: int| 0 <= k < done ==> #[trigger] order[k] != to,
        decreases n - done,
    {
        let entry = queue.pop_front().unwrap();
        let at = entry.0;
        let walk = entry.1;
        proof {
            assert(at == order[done] && index_views(walk@) == walks[done]);
            assert(g.connects(walks[done], from as int, order[done]));
        }
        if at == to {
            proof {
                assert forall|other: Seq<int>| #[trigger]
                    g.connects(other, from as int, to as int) implies walks[done].len()
                    <= other.len() by {
                    lemma_walk_reached(g, from as int, order, walks, done, other);
                }
            }
            return Some(walk);
        }
        let ghost h = done;
        let count: usize = edges[at].len();
        let mut c: usize = 0;
        proof {
            assert(g.children[at as int] == index_views(edges@[at as int]@));
            assert(0 <= walks[h][walks[h].len() - 1] < g.vertices.len());
        }
        while c < count
            invariant
                g.children == list_views(edges@),
                g.valid(),
                n == g.vertices.len(),
                n == edges.len(),
                at < n,
                at == order[h],
                index_views(walk@) == walks[h],
                count == edges[at as int].len(),
                g.children[at as int] == index_views(edges@[at as int]@),
                c <= count,
                expanding(g, from as int, order, walks, h, c as int),
                queue@.len() == order.len() - (h + 1),
                forall|k: int|
                    0 <= k < queue@.len() ==> (#[trigger] queue@[k]).0 == order[h + 1 + k]
                        && index_views(queue@[k].1@) == walks[h + 1 + k],
                visited.len() == n,
                forall|v: int| 0 <= v < n ==> (#[trigger] visited[v] <==> order.contains(v)),
                order.len() <= n,
                forall|k: int| 0 <= k < h ==> #[trigger] order[k] != to,
            decreases count - c,
        {
            let child: usize = edges[at][c];
            proof {
                assert(g.children[at as int][c as int] == child);
                assert(0 <= g.children[at as int][c as int] < g.vertices.len());
            }
            if !visited[child] {
                let longer = extended(&walk, child);
                let ghost old_order = order;
                let ghost old_queue = queue@;
                visited[child] = true;
                queue.push_back((child, longer));
                proof {
                    lemma_expand_new(g, from as int, order, walks, h, c as int);
                    assert(index_views(longer@) =~= walks[h].push(child as int));
                    walks = walks.push(walks[h].push(child as int));
                    order = order.push(child as int);
                    assert forall|k: int| 0 <= k < queue@.len() implies (
                    #[trigger] queue@[k]).0 == order[h + 1 + k] && index_views(queue@[k].1@)
                        == walks[h + 1 + k] by {
                        if k < old_queue.len() {
                            assert(queue@[k] == old_queue[k]);
                        }
                    }
                    assert forall|v: int| 0 <= v < n implies (#[trigger] visited[v]
                        <==> order.contains(v)) by {
                        if old_order.contains(v) {
                            let w = choose|w: int| 0 <= w < old_order.len() && old_order[w] == v;
                            assert(order[w] == v);
                        }
                        if order.contains(v) && v != child {
                            let w = choose|w: int| 0 <= w < order.len() && order[w] == v;
                            assert(old_order[w] == v);
                        }
                        assert(order[order.len() - 1] == child);
                    }
                    assert(order.len() <= n) by {
                        assert forall|k: int| 0 <= k < order.len() implies 0
                            <= #[trigger] order[k] < n by {
                            assert(g.connects(walks[k], from as int, order[k]));
                            assert(0 <= walks[k][walks[k].len() - 1] < g.vertices.len());
                        }
                        lemma_distinct_bounded(order, n as int);
                    }
                }
            } else {
                proof {
                    lemma_expand_known(g, from as int, order, walks, h, c as int);
                }
            }
            c += 1;
        }
        proof {
            lemma_expand_done(g, from as int, order, walks, h);
            done = h + 1;
        }
    }
    proof {
        assert forall|other: Seq<int>| !#[trigger] g.connects(
            other,
            from as int,
            to as int,
        ) by {
            if g.connects(other, from as int, to as int) {
                lemma_walk_reached(g, from as int, order, walks, done, other);
                let w = choose|w: int|
                    0 <= w < order.len() && #[trigger] order[w] == to as int && walks[w].len()
                        <= other.len();
                assert(order[w] != to);
            }
        }
    }
    None
}

} // verus!
