use vstd::prelude::*;
use std::collections::HashMap;
use crate::types::{Guest, Stay};
use crate::path::{graph_view, graph_wf};

verus! {

broadcast use vstd::std_specs::hash::group_hash_axioms;

/// Every stay ends strictly after it starts.
pub open spec fn valid_stays(gs: Seq<Guest>) -> bool {
    forall|j: int| 0 <= j < gs.len() ==> #[trigger] gs[j].start < gs[j].end
}

/// `x` is a start or end date of one of the first `n` guests.
pub open spec fn date_below(gs: Seq<Guest>, n: int, x: usize) -> bool
    decreases n,
{
    if n <= 0 {
        false
    } else {
        date_below(gs, n - 1, x) || gs[n - 1].start == x || gs[n - 1].end == x
    }
}

/// `x` is a start or end date of some guest.
pub open spec fn is_date(gs: Seq<Guest>, x: usize) -> bool {
    date_below(gs, gs.len() as int, x)
}

/// Where some date of the first `n` guests lies after `d`, a least such date exists.
pub proof fn lemma_least_above(gs: Seq<Guest>, n: int, d: usize, x: usize) -> (o: usize)
    requires
        date_below(gs, n, x),
        d < x,
    ensures
        date_below(gs, n, o),
        d < o,
        forall|y: usize| #[trigger] date_below(gs, n, y) && d < y ==> o <= y,
    decreases n,
{
    let a = gs[n - 1].start;
    let b = gs[n - 1].end;
    if exists|y: usize| #[trigger] date_below(gs, n - 1, y) && d < y {
        let y = choose|y: usize| #[trigger] date_below(gs, n - 1, y) && d < y;
        let p = lemma_least_above(gs, n - 1, d, y);
        let o1 = if d < a && a < p { a } else { p };
        let o = if d < b && b < o1 { b } else { o1 };
        assert forall|z: usize| #[trigger] date_below(gs, n, z) && d < z implies o <= z by {
            if date_below(gs, n - 1, z) {
                assert(p <= z);
            }
        }
        o
    } else {
        assert(!date_below(gs, n - 1, x));
        assert(x == a || x == b);
        let o1 = if d < a { a } else { b };
        let o = if d < b && b < o1 { b } else { o1 };
        assert forall|z: usize| #[trigger] date_below(gs, n, z) && d < z implies o <= z by {
            assert(!date_below(gs, n - 1, z));
        }
        o
    }
}

/// Each guest starting on `d` has its edge out of `d`.
pub proof fn lemma_starts_at_complete(gs: Seq<Guest>, d: usize, j: int) -> (i: int)
    requires
        0 <= j < gs.len(),
        gs[j].start == d,
    ensures
        0 <= i < starts_at(gs, d).len(),
        starts_at(gs, d)[i] == (gs[j].end, Stay::GuestId(gs[j].id)),
    decreases gs.len(),
{
    let pre = gs.drop_last();
    if j == gs.len() - 1 {
        starts_at(pre, d).len() as int
    } else {
        let i = lemma_starts_at_complete(pre, d, j);
        assert(gs[j] == pre[j]);
        i
    }
}

/// Both dates of each of the first `n` guests count as dates.
pub proof fn lemma_date_below(gs: Seq<Guest>, n: int, j: int)
    requires
        0 <= j < n,
    ensures
        date_below(gs, n, gs[j].start),
        date_below(gs, n, gs[j].end),
    decreases n,
{
    if j < n - 1 {
        lemma_date_below(gs, n - 1, j);
    }
}

/// `d` is the earliest date of all.
pub open spec fn is_entry(gs: Seq<Guest>, d: usize) -> bool {
    &&& is_date(gs, d)
    &&& forall|x: usize| #[trigger] is_date(gs, x) ==> d <= x
}

/// The earliest date of all.
pub open spec fn entry_date(gs: Seq<Guest>) -> usize {
    choose|d: usize| is_entry(gs, d)
}

/// `o` is the date that comes right after `d`.
pub open spec fn follows(gs: Seq<Guest>, d: usize, o: usize) -> bool {
    &&& is_date(gs, o)
    &&& d < o
    &&& forall|x: usize| #[trigger] is_date(gs, x) && d < x ==> o <= x
}

/// One edge to each guest starting on `d`, to the guest's end date, in input order.
pub open spec fn starts_at(gs: Seq<Guest>, d: usize) -> Seq<(usize, Stay)>
    decreases gs.len(),
{
    if gs.len() == 0 {
        seq![]
    } else {
        let rest = starts_at(gs.drop_last(), d);
        let g = gs.last();
        if g.start == d {
            rest.push((g.end, Stay::GuestId(g.id)))
        } else {
            rest
        }
    }
}

/// An empty edge from `d` to the next date, where there is one: a bed may
/// stay free from one date to the next.
pub open spec fn bridge(gs: Seq<Guest>, d: usize) -> Seq<(usize, Stay)> {
    if exists|o: usize| follows(gs, d, o) {
        seq![(choose|o: usize| follows(gs, d, o), Stay::Empty)]
    } else {
        seq![]
    }
}

/// The graph of the stays: each date leads to the end of each stay that
/// starts on it, then to the next date, so that no walk stops before the
/// last date.
pub open spec fn date_graph(gs: Seq<Guest>) -> Map<usize, Seq<(usize, Stay)>> {
    Map::new(|d: usize| is_date(gs, d), |d: usize| starts_at(gs, d) + bridge(gs, d))
}

/// `e` is the edge of a guest of `gs` that starts on `d`.
pub open spec fn guest_edge(gs: Seq<Guest>, d: usize, e: (usize, Stay)) -> bool {
    exists|j: int|
        0 <= j < gs.len() && #[trigger] gs[j].start == d && e == (gs[j].end, Stay::GuestId(gs[j].id))
}

/// Each guest edge out of `d` belongs to a guest starting on `d`.
pub proof fn lemma_starts_at(gs: Seq<Guest>, d: usize)
    ensures
        forall|i: int| 0 <= i < starts_at(gs, d).len() ==> guest_edge(gs, d, #[trigger] starts_at(gs, d)[i]),
    decreases gs.len(),
{
    if gs.len() > 0 {
        let pre = gs.drop_last();
        lemma_starts_at(pre, d);
        assert forall|i: int| 0 <= i < starts_at(gs, d).len() implies guest_edge(
            gs,
            d,
            #[trigger] starts_at(gs, d)[i],
        ) by {
            if i < starts_at(pre, d).len() {
                assert(guest_edge(pre, d, starts_at(pre, d)[i]));
                let j = choose|j: int|
                    0 <= j < pre.len() && #[trigger] pre[j].start == d && starts_at(pre, d)[i] == (
                    pre[j].end,
                    Stay::GuestId(pre[j].id),
                );
                assert(gs[j] == pre[j]);
            } else {
                assert(gs[gs.len() - 1] == gs.last());
            }
        }
    }
}

/// The graph of valid stays has every edge moving forward onto a date of it.
pub proof fn lemma_date_graph_wf(gs: Seq<Guest>)
    requires
        valid_stays(gs),
    ensures
        graph_wf(date_graph(gs)),
{
    let g = date_graph(gs);
    assert forall|d: usize, i: int| g.contains_key(d) && 0 <= i < g[d].len() implies #[trigger] g[d][i].0
        > d && g.contains_key(g[d][i].0) by {
        lemma_starts_at(gs, d);
        let s = starts_at(gs, d);
        if i < s.len() {
            assert(g[d][i] == s[i]);
            assert(guest_edge(gs, d, s[i]));
            let j = choose|j: int|
                0 <= j < gs.len() && #[trigger] gs[j].start == d && s[i] == (
                gs[j].end,
                Stay::GuestId(gs[j].id),
            );
            assert(gs[j].start < gs[j].end);
            lemma_date_below(gs, gs.len() as int, j);
        } else {
            let o = choose|o: usize| follows(gs, d, o);
            assert(g[d][i] == (o, Stay::Empty));
        }
    }
}

fn next_date(gs: &[Guest], d: usize) -> (r: Option<usize>)
    ensures
        match r {
            Some(o) => follows(gs@, d, o),
            None => forall|x: usize| #[trigger] is_date(gs@, x) ==> x <= d,
        },
{
    let mut best: Option<usize> = None;
    let mut j: usize = 0;
    while j < gs.len()
        invariant
            j <= gs@.len(),
            match best {
                Some(o) => date_below(gs@, j as int, o) && d < o && forall|x: usize|
                    #[trigger] date_below(gs@, j as int, x) && d < x ==> o <= x,
                None => forall|x: usize| #[trigger] date_below(gs@, j as int, x) ==> x <= d,
            },
        decreases gs@.len() - j,
    {
        let g = gs[j];
        let ghost old_best = best;
        if d < g.start {
            match best {
                Some(o) => {
                    if g.start < o {
                        best = Some(g.start);
                    }
                },
                None => {
                    best = Some(g.start);
                },
            }
        }
        if d < g.end {
            match best {
                Some(o) => {
                    if g.end < o {
                        best = Some(g.end);
                    }
                },
                None => {
                    best = Some(g.end);
                },
            }
        }
        proof {
            assert forall|x: usize| #[trigger] date_below(gs@, j as int + 1, x) implies date_below(
                gs@,
                j as int,
                x,
            ) || gs@[j as int].start == x || gs@[j as int].end == x by {}
        }
        j = j + 1;
    }
    best
}

fn first_date(gs: &[Guest]) -> (r: usize)
    requires
        gs@.len() > 0,
    ensures
        is_entry(gs@, r),
{
    let mut best: usize = gs[0].start;
    let mut j: usize = 0;
    while j < gs.len()
        invariant
            gs@.len() > 0,
            j <= gs@.len(),
            best == gs@[0].start || date_below(gs@, j as int, best),
            forall|x: usize| #[trigger] date_below(gs@, j as int, x) ==> best <= x,
        decreases gs@.len() - j,
    {
        let g = gs[j];
        if g.start < best {
            best = g.start;
        }
        if g.end < best {
            best = g.end;
        }
        proof {
            assert forall|x: usize| #[trigger] date_below(gs@, j as int + 1, x) implies date_below(
                gs@,
                j as int,
                x,
            ) || gs@[j as int].start == x || gs@[j as int].end == x by {}
            assert(date_below(gs@, j as int + 1, best) || best == gs@[0].start);
        }
        j = j + 1;
    }
    proof {
        if best == gs@[0].start {
            lemma_date_below(gs@, gs@.len() as int, 0);
        }
    }
    best
}

fn starting_edges(gs: &[Guest], d: usize) -> (r: Vec<(usize, Stay)>)
    ensures
        r@ == starts_at(gs@, d),
{
    let mut r: Vec<(usize, Stay)> = Vec::new();
    let mut j: usize = 0;
    while j < gs.len()
        invariant
            j <= gs@.len(),
            r@ == starts_at(gs@.take(j as int), d),
        decreases gs@.len() - j,
    {
        let g = gs[j];
        proof {
            assert(gs@.take(j as int + 1).drop_last() =~= gs@.take(j as int));
            assert(gs@.take(j as int + 1).last() == g);
        }
        if g.start == d {
            r.push((g.end, Stay::GuestId(g.id)));
        }
        j = j + 1;
    }
    proof {
        assert(gs@.take(gs@.len() as int) =~= gs@);
    }
    r
}

fn edges_from(gs: &[Guest], d: usize) -> (r: Vec<(usize, Stay)>)
    ensures
        r@ == starts_at(gs@, d) + bridge(gs@, d),
{
    let mut r = starting_edges(gs, d);
    let ghost s = r@;
    match next_date(gs, d) {
        Some(o) => {
            proof {
                assert forall|p: usize| follows(gs@, d, p) implies p == o by {
                    assert(is_date(gs@, p) && is_date(gs@, o));
                }
            }
            r.push((o, Stay::Empty));
            proof {
                assert(r@ =~= s + bridge(gs@, d));
            }
        },
        None => {
            proof {
                assert forall|p: usize| !follows(gs@, d, p) by {
                    if follows(gs@, d, p) {
                        assert(is_date(gs@, p));
                    }
                }
                assert(r@ =~= s + bridge(gs@, d));
            }
        },
    }
    r
}

/// The earliest date of the stays, and the graph of the stays over their dates.
pub fn build_schedules_graph(guests: &[Guest]) -> (r: (usize, HashMap<usize, Vec<(usize, Stay)>>))
    requires
        guests@.len() > 0,
        valid_stays(guests@),
    ensures
        is_entry(guests@, r.0),
        r.0 == entry_date(guests@),
        r.1@.contains_key(r.0),
        graph_view(r.1@) == date_graph(guests@),
        graph_wf(graph_view(r.1@)),
{
    let ghost gs = guests@;
    let mut m: HashMap<usize, Vec<(usize, Stay)>> = HashMap::new();
    let mut j: usize = 0;
    while j < guests.len()
        invariant
            gs == guests@,
            j <= gs.len(),
            forall|x: usize|
                #![trigger m@.contains_key(x)]
                #![trigger date_below(gs, j as int, x)]
                m@.contains_key(x) <==> date_below(gs, j as int, x),
            forall|x: usize| #[trigger] m@.contains_key(x) ==> m@[x]@ == starts_at(gs, x) + bridge(gs, x),
        decreases gs.len() - j,
    {
        let g = guests[j];
        if !m.contains_key(&g.start) {
            let e = edges_from(guests, g.start);
            m.insert(g.start, e);
        }
        if !m.contains_key(&g.end) {
            let e = edges_from(guests, g.end);
            m.insert(g.end, e);
        }
        proof {
            assert forall|x: usize| #[trigger] date_below(gs, j as int + 1, x) implies date_below(
                gs,
                j as int,
                x,
            ) || gs[j as int].start == x || gs[j as int].end == x by {}
            assert forall|x: usize|
                #![trigger m@.contains_key(x)]
                #![trigger date_below(gs, j as int + 1, x)]
                m@.contains_key(x) <==> date_below(gs, j as int + 1, x) by {}
        }
        j = j + 1;
    }
    let entry = first_date(guests);
    proof {
        assert(graph_view(m@) =~= date_graph(gs));
        lemma_date_graph_wf(gs);
        let c = entry_date(gs);
        assert(is_entry(gs, c));
        assert(c <= entry && entry <= c);
        assert(graph_view(m@).contains_key(entry));
    }
    (entry, m)
}

} // verus!
