use vstd::prelude::*;
use std::collections::HashMap;
use crate::types::Stay;

verus! {

broadcast use vstd::std_specs::hash::group_hash_axioms;

/// The edges leaving each date, as sequences.
pub open spec fn graph_view(m: Map<usize, Vec<(usize, Stay)>>) -> Map<usize, Seq<(usize, Stay)>> {
    Map::new(|d: usize| m.contains_key(d), |d: usize| m[d]@)
}

/// Every edge moves forward in time and lands on a date of the graph.
pub open spec fn graph_wf(g: Map<usize, Seq<(usize, Stay)>>) -> bool {
    forall|d: usize, i: int|
        g.contains_key(d) && 0 <= i < g[d].len() ==> #[trigger] g[d][i].0 > d
            && g.contains_key(g[d][i].0)
}

/// `p` lists the guests met on some walk from `d` to a date with no edges out;
/// empty edges are walked but leave nothing in `p`.
pub open spec fn is_path(g: Map<usize, Seq<(usize, Stay)>>, d: usize, p: Seq<Stay>) -> bool
    decreases usize::MAX - d,
{
    if g[d].len() == 0 {
        p.len() == 0
    } else {
        exists|i: int|
            #![trigger g[d][i]]
            0 <= i < g[d].len() && g[d][i].0 > d && match g[d][i].1 {
                Stay::Empty => is_path(g, g[d][i].0, p),
                Stay::GuestId(_) => p.len() > 0 && p[0] == g[d][i].1 && is_path(
                    g,
                    g[d][i].0,
                    p.drop_first(),
                ),
            }
    }
}

/// `p` lists the guests met along the edge `e` out of `d` and then on a path
/// from its target.
pub open spec fn step_path(g: Map<usize, Seq<(usize, Stay)>>, d: usize, e: (usize, Stay), p: Seq<Stay>) -> bool {
    &&& e.0 > d
    &&& match e.1 {
        Stay::Empty => is_path(g, e.0, p),
        Stay::GuestId(_) => p.len() > 0 && p[0] == e.1 && is_path(g, e.0, p.drop_first()),
    }
}

/// The walk kept after weighing the first `k` edges out of `d`: the walk through
/// an edge replaces the one kept so far unless it meets fewer guests, so the
/// last longest walk in edge order is kept.
pub open spec fn kept_walk(g: Map<usize, Seq<(usize, Stay)>>, d: usize, k: int) -> Seq<Stay>
    decreases usize::MAX - d, k,
{
    if k <= 0 || k > g[d].len() {
        seq![]
    } else {
        let e = g[d][k - 1];
        let through = if e.0 > d {
            match e.1 {
                Stay::Empty => kept_walk(g, e.0, g[e.0].len() as int),
                Stay::GuestId(_) => seq![e.1] + kept_walk(g, e.0, g[e.0].len() as int),
            }
        } else {
            seq![]
        };
        if k == 1 {
            through
        } else {
            let prev = kept_walk(g, d, k - 1);
            if through.len() >= prev.len() {
                through
            } else {
                prev
            }
        }
    }
}

/// The walk from `d` that the search returns.
pub open spec fn chosen_walk(g: Map<usize, Seq<(usize, Stay)>>, d: usize) -> Seq<Stay> {
    kept_walk(g, d, g[d].len() as int)
}

/// A path from `d` that meets the most guests.
pub open spec fn is_longest_path(g: Map<usize, Seq<(usize, Stay)>>, d: usize, p: Seq<Stay>) -> bool {
    &&& is_path(g, d, p)
    &&& forall|q: Seq<Stay>| #[trigger] is_path(g, d, q) ==> q.len() <= p.len()
}

/// Each walk remembered for a date is the one the search returns from there.
pub open spec fn memo_sound(g: Map<usize, Seq<(usize, Stay)>>, memo: Map<usize, Vec<Stay>>) -> bool {
    forall|x: usize|
        #[trigger] memo.contains_key(x) ==> is_longest_path(g, x, memo[x]@) && memo[x]@ == chosen_walk(g, x)
}

fn longest_from(
    d: usize,
    m: &HashMap<usize, Vec<(usize, Stay)>>,
    memo: &mut HashMap<usize, Vec<Stay>>,
) -> (r: Vec<Stay>)
    requires
        graph_wf(graph_view(m@)),
        m@.contains_key(d),
        memo_sound(graph_view(m@), old(memo)@),
    ensures
        is_longest_path(graph_view(m@), d, r@),
        r@ == chosen_walk(graph_view(m@), d),
        memo_sound(graph_view(m@), final(memo)@),
    decreases usize::MAX - d,
{
    let ghost g = graph_view(m@);
    match memo.get(&d) {
        Some(v) => {
            let r = v.clone();
            proof {
                assert(r@ =~= v@);
            }
            return r;
        },
        None => {},
    }
    let edges = m.get(&d).unwrap();
    assert(edges@ == g[d]);
    if edges.len() == 0 {
        return Vec::new();
    }
    let mut best: Vec<Stay> = Vec::new();
    let mut k: usize = 0;
    while k < edges.len()
        invariant
            g == graph_view(m@),
            graph_wf(g),
            g.contains_key(d),
            edges@ == g[d],
            edges@.len() > 0,
            k <= edges@.len(),
            memo_sound(g, memo@),
            k > 0 ==> is_path(g, d, best@),
            k > 0 ==> best@ == kept_walk(g, d, k as int),
            forall|j: int, q: Seq<Stay>|
                0 <= j < k && #[trigger] step_path(g, d, g[d][j], q) ==> q.len() <= best@.len(),
        decreases edges@.len() - k,
    {
        let (t, stay) = edges[k];
        assert(g[d][k as int].0 > d && g.contains_key(g[d][k as int].0));
        let sub = longest_from(t, m, memo);
        let mut cand: Vec<Stay> = Vec::new();
        match stay {
            Stay::Empty => {},
            Stay::GuestId(_) => {
                cand.push(stay);
            },
        }
        let mut i: usize = 0;
        let ghost pre = cand@;
        while i < sub.len()
            invariant
                i <= sub@.len(),
                cand@ == pre + sub@.subrange(0, i as int),
            decreases sub@.len() - i,
        {
            cand.push(sub[i]);
            i = i + 1;
        }
        proof {
            assert(sub@.subrange(0, sub@.len() as int) =~= sub@);
            match stay {
                Stay::Empty => {
                    assert(cand@ =~= sub@);
                },
                Stay::GuestId(_) => {
                    assert(cand@.drop_first() =~= sub@);
                },
            }
            assert(step_path(g, d, g[d][k as int], cand@));
            let through = match stay {
                Stay::Empty => kept_walk(g, t, g[t].len() as int),
                Stay::GuestId(_) => seq![stay] + kept_walk(g, t, g[t].len() as int),
            };
            assert(cand@ =~= through);
            assert(kept_walk(g, d, k + 1) == (if k == 0 {
                through
            } else if through.len() >= kept_walk(g, d, k as int).len() {
                through
            } else {
                kept_walk(g, d, k as int)
            }));
            assert(g[d].len() != 0);
            assert(is_path(g, d, cand@));
            assert forall|q: Seq<Stay>| #[trigger] step_path(g, d, g[d][k as int], q) implies q.len()
                <= cand@.len() by {
                match stay {
                    Stay::Empty => {
                        assert(is_path(g, t, q));
                    },
                    Stay::GuestId(_) => {
                        assert(is_path(g, t, q.drop_first()));
                    },
                }
            }
        }
        if k == 0 || cand.len() >= best.len() {
            best = cand;
        }
        k = k + 1;
    }
    proof {
        assert forall|q: Seq<Stay>| #[trigger] is_path(g, d, q) implies q.len() <= best@.len() by {
            assert(g[d].len() > 0);
            let j = choose|j: int| #![trigger g[d][j]] 0 <= j < g[d].len() && step_path(g, d, g[d][j], q);
            assert(step_path(g, d, g[d][j], q));
        }
    }
    let kept = best.clone();
    proof {
        assert(kept@ =~= best@);
    }
    memo.insert(d, kept);
    best
}

/// Among the walks from `entry_point` to a date with no edges out, one that
/// meets the most guests, as the guests it meets in order; of several such
/// walks, the last in edge order at the first date where they part.
pub fn longest_path_in_graph(entry_point: usize, adjacency_map: &HashMap<usize, Vec<(usize, Stay)>>) -> (r: Vec<Stay>)
    requires
        graph_wf(graph_view(adjacency_map@)),
        adjacency_map@.contains_key(entry_point),
    ensures
        is_longest_path(graph_view(adjacency_map@), entry_point, r@),
        r@ == chosen_walk(graph_view(adjacency_map@), entry_point),
{
    let mut memo: HashMap<usize, Vec<Stay>> = HashMap::new();
    longest_from(entry_point, adjacency_map, &mut memo)
}

} // verus!
