use vstd::prelude::*;
use crate::types::{BedSchedule, Guest, Stay};
use crate::graph::{
    bridge, date_graph, guest_edge, entry_date, follows, is_date, is_entry, lemma_date_below,
    lemma_date_graph_wf, lemma_least_above, lemma_starts_at, lemma_starts_at_complete, starts_at,
    valid_stays,
};
use crate::path::{is_longest_path, is_path};
use crate::schedule::{
    fills_greedily, lemma_remaining, lemma_without_stays, remaining, valid_guests, without_stays,
};

verus! {

/// `idx` names, for each stay of `p`, the guest of `gs` it hosts; those guests
/// start no earlier than `d` and follow one another without overlap.
pub open spec fn chain_of(gs: Seq<Guest>, d: usize, p: Seq<Stay>, idx: Seq<int>) -> bool {
    &&& idx.len() == p.len()
    &&& forall|i: int|
        0 <= i < p.len() ==> 0 <= #[trigger] idx[i] < gs.len() && p[i] == Stay::GuestId(gs[idx[i]].id)
            && gs[idx[i]].start >= d
    &&& forall|i: int, k: int| 0 <= i < k < p.len() ==> gs[#[trigger] idx[i]].end <= gs[#[trigger] idx[k]].start
}

/// The stays met on a walk through the graph of valid stays are guests of it,
/// in time order and without overlap.
pub proof fn lemma_path_chain(gs: Seq<Guest>, d: usize, p: Seq<Stay>) -> (idx: Seq<int>)
    requires
        valid_stays(gs),
        is_date(gs, d),
        is_path(date_graph(gs), d, p),
    ensures
        chain_of(gs, d, p, idx),
    decreases usize::MAX - d,
{
    let g = date_graph(gs);
    lemma_date_graph_wf(gs);
    if g[d].len() == 0 {
        Seq::empty()
    } else {
        let i = choose|i: int|
            #![trigger g[d][i]]
            0 <= i < g[d].len() && g[d][i].0 > d && match g[d][i].1 {
                Stay::Empty => is_path(g, g[d][i].0, p),
                Stay::GuestId(_) => p.len() > 0 && p[0] == g[d][i].1 && is_path(
                    g,
                    g[d][i].0,
                    p.drop_first(),
                ),
            };
        let e = g[d][i];
        assert(g.contains_key(e.0));
        let s = starts_at(gs, d);
        if i < s.len() {
            lemma_starts_at(gs, d);
            assert(g[d][i] == s[i]);
            assert(guest_edge(gs, d, s[i]));
            let j = choose|j: int|
                0 <= j < gs.len() && #[trigger] gs[j].start == d && s[i] == (
                gs[j].end,
                Stay::GuestId(gs[j].id),
            );
            let rest = lemma_path_chain(gs, e.0, p.drop_first());
            let idx = seq![j].add(rest);
            assert forall|a: int| 0 <= a < p.len() implies 0 <= #[trigger] idx[a] < gs.len() && p[a]
                == Stay::GuestId(gs[idx[a]].id) && gs[idx[a]].start >= d by {
                if a > 0 {
                    assert(idx[a] == rest[a - 1]);
                    assert(p[a] == p.drop_first()[a - 1]);
                    assert(gs[j].start < gs[j].end);
                }
            }
            assert forall|a: int, k: int| 0 <= a < k < p.len() implies gs[#[trigger] idx[a]].end
                <= gs[#[trigger] idx[k]].start by {
                assert(idx[k] == rest[k - 1]);
                if a > 0 {
                    assert(idx[a] == rest[a - 1]);
                }
            }
            idx
        } else {
            lemma_path_chain(gs, e.0, p)
        }
    }
}

/// `s` hosts one of the guests of `gs`.
pub open spec fn hosts_one_of(gs: Seq<Guest>, s: Stay) -> bool {
    exists|j: int| 0 <= j < gs.len() && s == Stay::GuestId(#[trigger] gs[j].id)
}

/// No guest id shows up twice among the stays of `res`, and every stay hosts
/// a guest of `gs`.
pub open spec fn placed_once(gs: Seq<Guest>, res: Seq<BedSchedule>) -> bool {
    &&& forall|b: int, i: int|
        0 <= b < res.len() && 0 <= i < res[b].schedule@.len() ==> hosts_one_of(gs, #[trigger] res[b].schedule@[i])
    &&& forall|b1: int, i1: int, b2: int, i2: int|
        0 <= b1 < res.len() && 0 <= b2 < res.len() && 0 <= i1 < res[b1].schedule@.len() && 0 <= i2
            < res[b2].schedule@.len() && (b1 != b2 || i1 != i2) ==> #[trigger] res[b1].schedule@[i1]
            != #[trigger] res[b2].schedule@[i2]
}

/// A chain through valid guests with distinct ids names each guest once.
pub proof fn lemma_chain_distinct(gs: Seq<Guest>, d: usize, p: Seq<Stay>, idx: Seq<int>)
    requires
        valid_guests(gs),
        chain_of(gs, d, p, idx),
    ensures
        forall|a: int, k: int| 0 <= a < k < p.len() ==> #[trigger] p[a] != #[trigger] p[k],
{
    assert forall|a: int, k: int| 0 <= a < k < p.len() implies #[trigger] p[a] != #[trigger] p[k] by {
        let x = idx[a];
        let y = idx[k];
        assert(gs[x].start < gs[x].end);
        assert(gs[x].end <= gs[y].start);
        assert(x != y);
        if x < y {
            assert(gs[x].id != gs[y].id);
        } else {
            assert(gs[y].id != gs[x].id);
        }
    }
}

/// Each stay of bed `b` hosts a distinct guest among those left for it.
proof fn lemma_bed_stays(gs: Seq<Guest>, res: Seq<BedSchedule>, b: int)
    requires
        valid_guests(gs),
        0 <= b < res.len(),
        fills_greedily(gs, res, b),
    ensures
        forall|i: int|
            #![trigger res[b].schedule@[i]]
            0 <= i < res[b].schedule@.len() ==> exists|k: int|
                #![trigger remaining(gs, res, b as nat)[k]]
                0 <= k < remaining(gs, res, b as nat).len() && res[b].schedule@[i]
                    == Stay::GuestId(remaining(gs, res, b as nat)[k].id),
        forall|a: int, k: int|
            0 <= a < k < res[b].schedule@.len() ==> #[trigger] res[b].schedule@[a]
                != #[trigger] res[b].schedule@[k],
{
    let rem = remaining(gs, res, b as nat);
    let p = res[b].schedule@;
    lemma_remaining(gs, res, b as nat);
    if rem.len() > 0 {
        let e = entry_date(rem);
        let idx = lemma_path_chain(rem, e, p);
        lemma_chain_distinct(rem, e, p, idx);
        assert forall|i: int| #![trigger p[i]] 0 <= i < p.len() implies exists|k: int|
            #![trigger rem[k]]
            0 <= k < rem.len() && p[i] == Stay::GuestId(rem[k].id) by {
            assert(0 <= idx[i] < rem.len());
        }
    }
}

/// No guest is hosted twice, within one bed or across beds, and every
/// hosted guest is one of `gs`.
pub proof fn lemma_placed_once(gs: Seq<Guest>, res: Seq<BedSchedule>)
    requires
        valid_guests(gs),
        forall|b: int| 0 <= b < res.len() ==> #[trigger] fills_greedily(gs, res, b),
    ensures
        placed_once(gs, res),
{
    assert forall|b: int, i: int|
        0 <= b < res.len() && 0 <= i < res[b].schedule@.len() implies hosts_one_of(gs, #[trigger] res[b].schedule@[i]) by {
        lemma_bed_stays(gs, res, b);
        lemma_remaining(gs, res, b as nat);
        let rem = remaining(gs, res, b as nat);
        let k = choose|k: int| #![trigger rem[k]] 0 <= k < rem.len() && res[b].schedule@[i] == Stay::GuestId(rem[k].id);
        assert(gs.contains(rem[k]));
        let j = choose|j: int| 0 <= j < gs.len() && gs[j] == rem[k];
        assert(res[b].schedule@[i] == Stay::GuestId(gs[j].id));
    }
    assert forall|b1: int, i1: int, b2: int, i2: int|
        0 <= b1 < res.len() && 0 <= b2 < res.len() && 0 <= i1 < res[b1].schedule@.len() && 0 <= i2
            < res[b2].schedule@.len() && (b1 != b2 || i1 != i2) implies #[trigger] res[b1].schedule@[i1]
            != #[trigger] res[b2].schedule@[i2] by {
        if b1 == b2 {
            lemma_bed_stays(gs, res, b1);
            if i1 > i2 {
                assert(res[b1].schedule@[i2] != res[b1].schedule@[i1]);
            }
        } else {
            let (lo, il, hi, ih) = if b1 < b2 { (b1, i1, b2, i2) } else { (b2, i2, b1, i1) };
            lemma_bed_stays(gs, res, hi);
            lemma_remaining(gs, res, hi as nat);
            let rem = remaining(gs, res, hi as nat);
            let k = choose|k: int| #![trigger rem[k]] 0 <= k < rem.len() && res[hi].schedule@[ih] == Stay::GuestId(rem[k].id);
            assert(!res[lo].schedule@.contains(Stay::GuestId(rem[k].id)));
            assert(res[lo].schedule@[il] != res[hi].schedule@[ih]);
        }
    }
}

/// No two stays overlap; one may end on the day another starts.
pub open spec fn disjoint_stays(gs: Seq<Guest>) -> bool {
    forall|a: int, b: int|
        0 <= a < gs.len() && 0 <= b < gs.len() && a != b ==> #[trigger] gs[a].end <= #[trigger] gs[b].start
            || gs[b].end <= gs[a].start
}

/// Where no two stays overlap, some walk from date `d` hosts every guest
/// starting on or after `d`.
pub proof fn lemma_full_path(gs: Seq<Guest>, d: usize) -> (p: Seq<Stay>)
    requires
        valid_stays(gs),
        disjoint_stays(gs),
        is_date(gs, d),
    ensures
        is_path(date_graph(gs), d, p),
        forall|k: int| 0 <= k < gs.len() && gs[k].start >= d ==> p.contains(Stay::GuestId(#[trigger] gs[k].id)),
    decreases usize::MAX - d,
{
    let g = date_graph(gs);
    lemma_date_graph_wf(gs);
    let s = starts_at(gs, d);
    if exists|j: int| 0 <= j < gs.len() && #[trigger] gs[j].start == d {
        let j = choose|j: int| 0 <= j < gs.len() && #[trigger] gs[j].start == d;
        let i = lemma_starts_at_complete(gs, d, j);
        assert(g[d][i] == s[i]);
        let e = gs[j].end;
        assert(gs[j].start < gs[j].end);
        lemma_date_below(gs, gs.len() as int, j);
        let rest = lemma_full_path(gs, e);
        let p = seq![Stay::GuestId(gs[j].id)].add(rest);
        assert(p.drop_first() =~= rest);
        assert(g[d][i].0 > d);
        assert(is_path(g, d, p));
        assert forall|k: int| 0 <= k < gs.len() && gs[k].start >= d implies p.contains(
            Stay::GuestId(#[trigger] gs[k].id),
        ) by {
            if k == j {
                assert(p[0] == Stay::GuestId(gs[k].id));
            } else {
                assert(gs[k].start < gs[k].end);
                assert(gs[j].end <= gs[k].start || gs[k].end <= gs[j].start);
                assert(rest.contains(Stay::GuestId(gs[k].id)));
                let x = choose|x: int| 0 <= x < rest.len() && rest[x] == Stay::GuestId(gs[k].id);
                assert(p[x + 1] == rest[x]);
            }
        }
        p
    } else {
        lemma_starts_at(gs, d);
        assert(s.len() == 0) by {
            if s.len() > 0 {
                assert(guest_edge(gs, d, s[0]));
            }
        }
        if exists|o: usize| follows(gs, d, o) {
            let o = choose|o: usize| follows(gs, d, o);
            assert forall|q: usize| follows(gs, d, q) implies q == o by {
                assert(is_date(gs, q) && is_date(gs, o));
            }
            assert(bridge(gs, d) == seq![(o, Stay::Empty)]);
            assert(g[d][0] == (o, Stay::Empty));
            let rest = lemma_full_path(gs, o);
            assert(is_path(g, d, rest));
            assert forall|k: int| 0 <= k < gs.len() && gs[k].start >= d implies rest.contains(
                Stay::GuestId(#[trigger] gs[k].id),
            ) by {
                lemma_date_below(gs, gs.len() as int, k);
                assert(is_date(gs, gs[k].start));
                assert(gs[k].start != d);
            }
            rest
        } else {
            assert(bridge(gs, d).len() == 0) by {

            }
            assert(g[d].len() == 0);
            let p = Seq::<Stay>::empty();
            assert forall|k: int| 0 <= k < gs.len() && gs[k].start >= d implies p.contains(
                Stay::GuestId(#[trigger] gs[k].id),
            ) by {
                lemma_date_below(gs, gs.len() as int, k);
                assert(gs[k].start > d);
                let o = lemma_least_above(gs, gs.len() as int, d, gs[k].start);
                assert(follows(gs, d, o));
            }
            p
        }
    }
}

/// The stays that host each guest of `gs`, in input order.
pub open spec fn guest_stays(gs: Seq<Guest>) -> Seq<Stay> {
    Seq::new(gs.len(), |k: int| Stay::GuestId(gs[k].id))
}

/// `q` hosts every guest of `gs` once, in time order: a guest placed before
/// another ends no later than the other starts.
pub open spec fn hosts_all_in_order(gs: Seq<Guest>, q: Seq<Stay>) -> bool {
    &&& q.len() == gs.len()
    &&& forall|k: int| 0 <= k < gs.len() ==> q.contains(Stay::GuestId(#[trigger] gs[k].id))
    &&& forall|a: int, k: int, x: int, y: int|
        #![trigger q[a], q[k], gs[x], gs[y]]
        0 <= a < k < gs.len() && 0 <= x < gs.len() && 0 <= y < gs.len() && q[a] == Stay::GuestId(gs[x].id)
            && q[k] == Stay::GuestId(gs[y].id) ==> gs[x].end <= gs[y].start
}

/// Where no two stays overlap, the first bed hosts every guest, each once,
/// and in time order: a guest placed before another ends no later than the
/// other starts.
pub proof fn lemma_one_bed_hosts_all(gs: Seq<Guest>, res: Seq<BedSchedule>)
    requires
        valid_guests(gs),
        disjoint_stays(gs),
        gs.len() > 0,
        res.len() > 0,
        fills_greedily(gs, res, 0),
    ensures
        hosts_all_in_order(gs, res[0].schedule@),
{
    broadcast use vstd::set::group_set_axioms, vstd::seq_lib::seq_to_set_is_finite;

    let q = res[0].schedule@;
    assert(remaining(gs, res, 0) == gs);
    let e = entry_date(gs);
    let g = date_graph(gs);
    let ids = guest_stays(gs);
    // a walk through every guest exists
    let p = lemma_full_path(gs, e);
    assert forall|k: int| 0 <= k < gs.len() implies #[trigger] gs[k].start >= e by {
        lemma_date_below(gs, gs.len() as int, k);
        assert(is_date(gs, gs[k].start));
    }
    assert(ids.no_duplicates()) by {
        assert forall|a: int, b: int| 0 <= a < ids.len() && 0 <= b < ids.len() && a != b implies ids[a]
            != ids[b] by {
            if a < b {
                assert(gs[a].id != gs[b].id);
            } else {
                assert(gs[b].id != gs[a].id);
            }
        }
    }
    ids.unique_seq_to_set();
    assert(ids.to_set().subset_of(p.to_set())) by {
        assert forall|s: Stay| ids.to_set().contains(s) implies p.to_set().contains(s) by {
            let k = choose|k: int| 0 <= k < ids.len() && ids[k] == s;
            assert(p.contains(Stay::GuestId(gs[k].id)));
        }
    }
    vstd::set_lib::lemma_len_subset(ids.to_set(), p.to_set());
    p.lemma_cardinality_of_set();
    assert(is_path(g, e, p));
    assert(q.len() >= p.len());
    // the chosen walk is a chain of distinct guests
    let idx = lemma_path_chain(gs, e, q);
    lemma_chain_distinct(gs, e, q, idx);
    assert(q.no_duplicates()) by {
        assert forall|a: int, b: int| 0 <= a < q.len() && 0 <= b < q.len() && a != b implies q[a]
            != q[b] by {
            if a > b {
                assert(q[b] != q[a]);
            }
        }
    }
    q.unique_seq_to_set();
    assert(q.to_set().subset_of(ids.to_set())) by {
        assert forall|s: Stay| q.to_set().contains(s) implies ids.to_set().contains(s) by {
            let i = choose|i: int| 0 <= i < q.len() && q[i] == s;
            assert(ids[idx[i]] == s);
        }
    }
    vstd::set_lib::lemma_len_subset(q.to_set(), ids.to_set());
    assert(q.len() == gs.len());
    assert forall|k: int| 0 <= k < gs.len() implies q.contains(Stay::GuestId(#[trigger] gs[k].id)) by {
        let s = Stay::GuestId(gs[k].id);
        if !q.contains(s) {
            assert(ids[k] == s);
            assert(q.to_set().subset_of(ids.to_set().remove(s)));
            vstd::set_lib::lemma_len_subset(q.to_set(), ids.to_set().remove(s));
        }
    }
    assert forall|a: int, k: int, x: int, y: int|
        #![trigger q[a], q[k], gs[x], gs[y]]
        0 <= a < k < gs.len() && 0 <= x < gs.len() && 0 <= y < gs.len() && q[a]
            == Stay::GuestId(gs[x].id) && q[k] == Stay::GuestId(gs[y].id) implies gs[x].end
        <= gs[y].start by {
        let ia = idx[a];
        let ik = idx[k];
        if ia != x {
            if ia < x {
                assert(gs[ia].id != gs[x].id);
            } else {
                assert(gs[x].id != gs[ia].id);
            }
        }
        if ik != y {
            if ik < y {
                assert(gs[ik].id != gs[y].id);
            } else {
                assert(gs[y].id != gs[ik].id);
            }
        }
        assert(gs[idx[a]].end <= gs[idx[k]].start);
    }
}

/// `c` picks guests of `gs` that one bed can host one after another: each
/// ends no later than every later one starts.
pub open spec fn is_chain(gs: Seq<Guest>, c: Seq<int>) -> bool {
    &&& forall|i: int| 0 <= i < c.len() ==> 0 <= #[trigger] c[i] < gs.len()
    &&& forall|i: int, k: int| 0 <= i < k < c.len() ==> gs[#[trigger] c[i]].end <= gs[#[trigger] c[k]].start
}

/// The stays that host the guests that `c` picks, in its order.
pub open spec fn chain_stays(gs: Seq<Guest>, c: Seq<int>) -> Seq<Stay> {
    Seq::new(c.len(), |i: int| Stay::GuestId(gs[c[i]].id))
}

/// `q` hosts a chain of guests of `gs`, and no chain of them is longer.
pub open spec fn is_largest_chain(gs: Seq<Guest>, q: Seq<Stay>) -> bool {
    &&& exists|c: Seq<int>| is_chain(gs, c) && q == #[trigger] chain_stays(gs, c)
    &&& forall|c: Seq<int>| #[trigger] is_chain(gs, c) ==> c.len() <= q.len()
}

/// Every chain of guests starting on or after date `d` is hosted by a walk from `d`.
pub proof fn lemma_chain_path(gs: Seq<Guest>, d: usize, c: Seq<int>) -> (p: Seq<Stay>)
    requires
        valid_stays(gs),
        is_date(gs, d),
        is_chain(gs, c),
        forall|i: int| 0 <= i < c.len() ==> gs[#[trigger] c[i]].start >= d,
    ensures
        is_path(date_graph(gs), d, p),
        p.len() == c.len(),
    decreases usize::MAX - d,
{
    let g = date_graph(gs);
    lemma_date_graph_wf(gs);
    let s = starts_at(gs, d);
    if c.len() > 0 && gs[c[0]].start == d {
        let j = c[0];
        let i = lemma_starts_at_complete(gs, d, j);
        assert(g[d][i] == s[i]);
        let e = gs[j].end;
        assert(gs[j].start < gs[j].end);
        lemma_date_below(gs, gs.len() as int, j);
        let rest_c = c.drop_first();
        assert forall|a: int| 0 <= a < rest_c.len() implies gs[#[trigger] rest_c[a]].start >= e by {
            assert(rest_c[a] == c[a + 1]);
        }
        assert forall|a: int, k: int| 0 <= a < k < rest_c.len() implies gs[#[trigger] rest_c[a]].end
            <= gs[#[trigger] rest_c[k]].start by {
            assert(rest_c[a] == c[a + 1] && rest_c[k] == c[k + 1]);
        }
        let rest = lemma_chain_path(gs, e, rest_c);
        let p = seq![Stay::GuestId(gs[j].id)].add(rest);
        assert(p.drop_first() =~= rest);
        assert(g[d][i].0 > d);
        assert(is_path(g, d, p));
        p
    } else {
        // every picked guest starts after `d`
        assert forall|a: int| 0 <= a < c.len() implies gs[#[trigger] c[a]].start > d by {
            if a > 0 {
                assert(gs[c[0]].start < gs[c[0]].end);
                assert(gs[c[0]].end <= gs[c[a]].start);
            }
        }
        if exists|o: usize| follows(gs, d, o) {
            let o = choose|o: usize| follows(gs, d, o);
            assert forall|q: usize| follows(gs, d, q) implies q == o by {
                assert(is_date(gs, q) && is_date(gs, o));
            }
            assert(bridge(gs, d) == seq![(o, Stay::Empty)]);
            assert(g[d][s.len() as int] == (o, Stay::Empty));
            assert forall|a: int| 0 <= a < c.len() implies gs[#[trigger] c[a]].start >= o by {
                lemma_date_below(gs, gs.len() as int, c[a]);
                assert(is_date(gs, gs[c[a]].start));
            }
            let rest = lemma_chain_path(gs, o, c);
            assert(is_path(g, d, rest));
            rest
        } else {
            assert(c.len() == 0) by {
                if c.len() > 0 {
                    lemma_date_below(gs, gs.len() as int, c[0]);
                    let o = lemma_least_above(gs, gs.len() as int, d, gs[c[0]].start);
                    assert(follows(gs, d, o));
                }
            }
            lemma_starts_at(gs, d);
            assert(s.len() == 0) by {
                if s.len() > 0 {
                    assert(guest_edge(gs, d, s[0]));
                    let j = choose|j: int|
                        0 <= j < gs.len() && #[trigger] gs[j].start == d && s[0] == (
                        gs[j].end,
                        Stay::GuestId(gs[j].id),
                    );
                    assert(gs[j].start < gs[j].end);
                    lemma_date_below(gs, gs.len() as int, j);
                    let o = lemma_least_above(gs, gs.len() as int, d, gs[j].end);
                    assert(follows(gs, d, o));
                }
            }
            assert(g[d].len() == 0);
            Seq::empty()
        }
    }
}

/// In the graph of valid stays, a longest walk from the earliest date hosts
/// a largest chain of the guests.
pub proof fn lemma_longest_is_largest_chain(gs: Seq<Guest>, q: Seq<Stay>)
    requires
        valid_stays(gs),
        is_entry(gs, entry_date(gs)),
        is_longest_path(date_graph(gs), entry_date(gs), q),
    ensures
        is_largest_chain(gs, q),
{
    let e = entry_date(gs);
    let idx = lemma_path_chain(gs, e, q);
    assert(is_chain(gs, idx));
    assert(q =~= chain_stays(gs, idx));
    assert forall|c: Seq<int>| #[trigger] is_chain(gs, c) implies c.len() <= q.len() by {
        assert forall|i: int| 0 <= i < c.len() implies gs[#[trigger] c[i]].start >= e by {
            lemma_date_below(gs, gs.len() as int, c[i]);
            assert(is_date(gs, gs[c[i]].start));
        }
        let p = lemma_chain_path(gs, e, c);
    }
}

/// Each bed hosts at least as many guests as the bed after it: what the later
/// bed hosts is a chain among the guests left for the earlier one.
pub proof fn lemma_beds_non_increasing(gs: Seq<Guest>, res: Seq<BedSchedule>, b: int)
    requires
        valid_guests(gs),
        0 <= b,
        b + 1 < res.len(),
        fills_greedily(gs, res, b),
        fills_greedily(gs, res, b + 1),
    ensures
        res[b + 1].schedule@.len() <= res[b].schedule@.len(),
{
    let r0 = remaining(gs, res, b as nat);
    let r1 = remaining(gs, res, (b + 1) as nat);
    let p = res[b].schedule@;
    assert(r1 == without_stays(r0, p));
    lemma_without_stays(r0, p);
    if r1.len() > 0 {
        let c1 = choose|c: Seq<int>| is_chain(r1, c) && res[b + 1].schedule@ == #[trigger] chain_stays(r1, c);
        assert(res[b + 1].schedule@.len() == c1.len());
        let c0 = Seq::new(
            c1.len(),
            |i: int| choose|j: int| 0 <= j < r0.len() && #[trigger] r0[j] == r1[c1[i]],
        );
        assert forall|i: int| 0 <= i < c0.len() implies 0 <= #[trigger] c0[i] < r0.len() && r0[c0[i]]
            == r1[c1[i]] by {
            assert(0 <= c1[i] < r1.len());
            assert(exists|j: int| 0 <= j < r0.len() && #[trigger] without_stays(r0, p)[c1[i]] == r0[j] && !p.contains(Stay::GuestId(r0[j].id)));
        }
        assert forall|i: int, k: int| 0 <= i < k < c0.len() implies r0[#[trigger] c0[i]].end
            <= r0[#[trigger] c0[k]].start by {
            assert(r0[c0[i]] == r1[c1[i]]);
            assert(r0[c0[k]] == r1[c1[k]]);
        }
        assert(is_chain(r0, c0));
        assert(r0.len() > 0) by {
            if r0.len() == 0 {
                assert(without_stays(r0, p) == Seq::<Guest>::empty());
            }
        }
    }
}

} // verus!
