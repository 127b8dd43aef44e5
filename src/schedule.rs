use vstd::prelude::*;
use crate::types::{BedSchedule, Guest, Stay, ValidationError};
use crate::graph::{build_schedules_graph, date_graph, entry_date, is_entry, valid_stays};
use crate::path::{chosen_walk, is_longest_path, longest_path_in_graph};
use crate::laws::{
    disjoint_stays, hosts_all_in_order, is_largest_chain, lemma_longest_is_largest_chain,
    lemma_beds_non_increasing, lemma_one_bed_hosts_all, lemma_placed_once, placed_once,
};

verus! {

/// No two guests share an id.
pub open spec fn ids_distinct(gs: Seq<Guest>) -> bool {
    forall|a: int, b: int| 0 <= a < b < gs.len() ==> #[trigger] gs[a].id != #[trigger] gs[b].id
}

/// Stays that end after they start, under ids that tell the guests apart.
pub open spec fn valid_guests(gs: Seq<Guest>) -> bool {
    valid_stays(gs) && ids_distinct(gs)
}

/// The guests of `gs` whose id `p` does not hold, in their order.
pub open spec fn without_stays(gs: Seq<Guest>, p: Seq<Stay>) -> Seq<Guest>
    decreases gs.len(),
{
    if gs.len() == 0 {
        seq![]
    } else {
        let rest = without_stays(gs.drop_last(), p);
        if p.contains(Stay::GuestId(gs.last().id)) {
            rest
        } else {
            rest.push(gs.last())
        }
    }
}

/// The guests left unplaced once the first `b` schedules of `res` are made.
pub open spec fn remaining(gs: Seq<Guest>, res: Seq<BedSchedule>, b: nat) -> Seq<Guest>
    decreases b,
{
    if b == 0 {
        gs
    } else {
        without_stays(remaining(gs, res, (b - 1) as nat), res[b - 1].schedule@)
    }
}

/// Bed `b` hosts a largest chain of the guests left for it: the walk that the
/// search keeps through their graph; with no guests left it stays empty.
pub open spec fn fills_greedily(gs: Seq<Guest>, res: Seq<BedSchedule>, b: int) -> bool {
    let rem = remaining(gs, res, b as nat);
    if rem.len() == 0 {
        res[b].schedule@.len() == 0
    } else {
        &&& is_entry(rem, entry_date(rem))
        &&& is_longest_path(date_graph(rem), entry_date(rem), res[b].schedule@)
        &&& res[b].schedule@ == chosen_walk(date_graph(rem), entry_date(rem))
        &&& is_largest_chain(rem, res[b].schedule@)
    }
}

/// Each guest left is one of `gs` that `p` does not host; valid stays and
/// distinct ids carry over.
pub proof fn lemma_without_stays(gs: Seq<Guest>, p: Seq<Stay>)
    ensures
        forall|i: int|
            0 <= i < without_stays(gs, p).len() ==> exists|j: int|
                0 <= j < gs.len() && #[trigger] without_stays(gs, p)[i] == gs[j]
                    && !p.contains(Stay::GuestId(gs[j].id)),
        valid_stays(gs) ==> valid_stays(without_stays(gs, p)),
        ids_distinct(gs) ==> ids_distinct(without_stays(gs, p)),
    decreases gs.len(),
{
    if gs.len() > 0 {
        let pre = gs.drop_last();
        lemma_without_stays(pre, p);
        let w = without_stays(gs, p);
        assert forall|i: int| 0 <= i < w.len() implies exists|j: int|
            0 <= j < gs.len() && #[trigger] w[i] == gs[j] && !p.contains(Stay::GuestId(gs[j].id)) by {
            if i < without_stays(pre, p).len() {
                let j = choose|j: int|
                    0 <= j < pre.len() && #[trigger] without_stays(pre, p)[i] == pre[j]
                        && !p.contains(Stay::GuestId(pre[j].id));
                assert(gs[j] == pre[j]);
            } else {
                assert(w[i] == gs[gs.len() - 1]);
            }
        }
        if valid_stays(gs) {
            assert forall|i: int| 0 <= i < w.len() implies #[trigger] w[i].start < w[i].end by {
                let j = choose|j: int|
                    0 <= j < gs.len() && #[trigger] w[i] == gs[j] && !p.contains(Stay::GuestId(gs[j].id));
            }
        }
        if ids_distinct(gs) {
            let r = without_stays(pre, p);
            assert forall|a: int, b: int| 0 <= a < b < w.len() implies #[trigger] w[a].id
                != #[trigger] w[b].id by {
                let ja = choose|j: int|
                    0 <= j < pre.len() && #[trigger] r[a] == pre[j] && !p.contains(Stay::GuestId(pre[j].id));
                assert(w[a] == r[a]);
                assert(gs[ja] == pre[ja]);
                if b < r.len() {
                    assert(w[b] == r[b]);
                    let jb = choose|j: int|
                        0 <= j < pre.len() && #[trigger] r[b] == pre[j] && !p.contains(Stay::GuestId(pre[j].id));
                    assert(gs[jb] == pre[jb]);
                    assert(ids_distinct(pre));
                } else {
                    assert(w[b] == gs[gs.len() - 1]);
                }
            }
        }
    }
}

/// The guests left before bed `b` are valid guests of `gs`, and none of
/// them is hosted by an earlier bed.
pub proof fn lemma_remaining(gs: Seq<Guest>, res: Seq<BedSchedule>, b: nat)
    requires
        valid_guests(gs),
        b <= res.len(),
    ensures
        valid_guests(remaining(gs, res, b)),
        forall|i: int|
            0 <= i < remaining(gs, res, b).len() ==> gs.contains(#[trigger] remaining(gs, res, b)[i]),
        forall|i: int, c: int|
            0 <= i < remaining(gs, res, b).len() && 0 <= c < b ==> !(#[trigger] res[c].schedule@).contains(
                Stay::GuestId(#[trigger] remaining(gs, res, b)[i].id),
            ),
    decreases b,
{
    if b > 0 {
        let pb = (b - 1) as nat;
        lemma_remaining(gs, res, pb);
        let pre = remaining(gs, res, pb);
        let p = res[b - 1].schedule@;
        lemma_without_stays(pre, p);
        let rem = remaining(gs, res, b);
        assert(rem == without_stays(pre, p));
        assert forall|i: int|
            0 <= i < remaining(gs, res, b).len() implies gs.contains(#[trigger] remaining(gs, res, b)[i]) by {
            let k = choose|k: int| 0 <= k < pre.len() && #[trigger] rem[i] == pre[k] && !p.contains(Stay::GuestId(pre[k].id));
            assert(gs.contains(pre[k]));
            assert(rem[i] == pre[k]);
        }
        assert forall|i: int, c: int| 0 <= i < rem.len() && 0 <= c < b implies !(
        #[trigger] res[c].schedule@).contains(Stay::GuestId(#[trigger] rem[i].id)) by {
            let k = choose|k: int| 0 <= k < pre.len() && #[trigger] rem[i] == pre[k] && !p.contains(Stay::GuestId(pre[k].id));
            if c < b - 1 {
                assert(!res[c].schedule@.contains(Stay::GuestId(pre[k].id)));
            }
        }
        assert(valid_guests(rem));
    } else {
        assert(remaining(gs, res, b) == gs);
        assert forall|i: int|
            0 <= i < remaining(gs, res, b).len() implies gs.contains(#[trigger] remaining(gs, res, b)[i]) by {
            assert(remaining(gs, res, b)[i] == gs[i]);
        }
    }
}

/// The guests left before bed `b` depend on the schedules before it alone.
pub proof fn lemma_remaining_prefix(gs: Seq<Guest>, r1: Seq<BedSchedule>, r2: Seq<BedSchedule>, b: nat)
    requires
        b <= r1.len(),
        b <= r2.len(),
        forall|i: int| 0 <= i < b ==> #[trigger] r1[i].schedule@ == r2[i].schedule@,
    ensures
        remaining(gs, r1, b) == remaining(gs, r2, b),
    decreases b,
{
    if b > 0 {
        lemma_remaining_prefix(gs, r1, r2, (b - 1) as nat);
        assert(r1[b - 1].schedule@ == r2[b - 1].schedule@);
    }
}

fn holds_stay(p: &Vec<Stay>, s: Stay) -> (r: bool)
    ensures
        r == p@.contains(s),
{
    let mut i: usize = 0;
    while i < p.len()
        invariant
            i <= p@.len(),
            forall|k: int| 0 <= k < i ==> p@[k] != s,
        decreases p@.len() - i,
    {
        if p[i] == s {
            return true;
        }
        i = i + 1;
    }
    false
}

fn drop_placed(gs: &Vec<Guest>, p: &Vec<Stay>) -> (r: Vec<Guest>)
    ensures
        r@ == without_stays(gs@, p@),
{
    let mut r: Vec<Guest> = Vec::new();
    let mut j: usize = 0;
    while j < gs.len()
        invariant
            j <= gs@.len(),
            r@ == without_stays(gs@.take(j as int), p@),
        decreases gs@.len() - j,
    {
        let g = gs[j];
        proof {
            assert(gs@.take(j as int + 1).drop_last() =~= gs@.take(j as int));
            assert(gs@.take(j as int + 1).last() == g);
        }
        if !holds_stay(p, Stay::GuestId(g.id)) {
            r.push(g);
        }
        j = j + 1;
    }
    proof {
        assert(gs@.take(gs@.len() as int) =~= gs@);
    }
    r
}

/// Fills beds `1..=bed_count` in turn, each with a largest chain of the guests
/// not placed yet, so no bed hosts more than the one before it; guests left
/// over are not placed. No guest is placed twice, and where no two stays
/// overlap the first bed hosts them all.
pub fn solve_bed_scheduling(bed_count: usize, guests: Vec<Guest>) -> (r: Vec<BedSchedule>)
    requires
        valid_guests(guests@),
    ensures
        r@.len() == if guests@.len() == 0 || bed_count == 0 {
            0
        } else {
            bed_count as int
        },
        forall|b: int| 0 <= b < r@.len() ==> #[trigger] r@[b].bed_id == b + 1,
        forall|b: int| 0 <= b < r@.len() ==> #[trigger] fills_greedily(guests@, r@, b),
        placed_once(guests@, r@),
        forall|b: int|
            0 <= b && b + 1 < r@.len() ==> #[trigger] r@[b + 1].schedule@.len() <= r@[b].schedule@.len(),
        disjoint_stays(guests@) && guests@.len() > 0 && bed_count > 0 ==> hosts_all_in_order(
            guests@,
            r@[0].schedule@,
        ),
{
    let mut res: Vec<BedSchedule> = Vec::new();
    if guests.len() == 0 || bed_count == 0 {
        return res;
    }
    let ghost gs = guests@;
    let mut rem = guests;
    let mut k: usize = 0;
    while k < bed_count
        invariant
            res@.len() == k,
            k <= bed_count,
            rem@ == remaining(gs, res@, k as nat),
            valid_stays(rem@),
            forall|b: int| 0 <= b < k ==> #[trigger] res@[b].bed_id == b + 1,
            forall|b: int| 0 <= b < k ==> #[trigger] fills_greedily(gs, res@, b),
        decreases bed_count - k,
    {
        let ghost before = res@;
        let sched: Vec<Stay>;
        if rem.len() == 0 {
            sched = Vec::new();
        } else {
            let (entry, graph) = build_schedules_graph(rem.as_slice());
            sched = longest_path_in_graph(entry, &graph);
            proof {
                lemma_longest_is_largest_chain(rem@, sched@);
            }
        }
        let next = drop_placed(&rem, &sched);
        proof {
            lemma_without_stays(rem@, sched@);
        }
        res.push(BedSchedule { bed_id: k + 1, schedule: sched });
        proof {
            assert forall|b: int| 0 <= b <= k implies #[trigger] remaining(gs, res@, b as nat) == remaining(
                gs,
                before,
                b as nat,
            ) by {
                assert forall|i: int| 0 <= i < b implies #[trigger] res@[i].schedule@
                    == before[i].schedule@ by {
                    assert(res@[i] == before[i]);
                }
                lemma_remaining_prefix(gs, res@, before, b as nat);
            }
            assert forall|b: int| 0 <= b < k + 1 implies #[trigger] fills_greedily(gs, res@, b) by {
                if b < k {
                    assert(fills_greedily(gs, before, b));
                    assert(res@[b] == before[b]);
                }
            }
            assert(remaining(gs, res@, (k + 1) as nat) == without_stays(
                remaining(gs, res@, k as nat),
                res@[k as int].schedule@,
            ));
        }
        rem = next;
        k = k + 1;
    }
    proof {
        lemma_placed_once(gs, res@);
        assert forall|b: int| 0 <= b && b + 1 < res@.len() implies #[trigger] res@[b + 1].schedule@.len()
            <= res@[b].schedule@.len() by {
            lemma_beds_non_increasing(gs, res@, b);
        }
        if disjoint_stays(gs) {
            assert(fills_greedily(gs, res@, 0));
            lemma_one_bed_hosts_all(gs, res@);
        }
    }
    res
}

/// The guests that no schedule of `schedules` hosts, in their input order.
pub fn unscheduled(guests: &Vec<Guest>, schedules: &Vec<BedSchedule>) -> (r: Vec<Guest>)
    ensures
        r@ == remaining(guests@, schedules@, schedules@.len()),
{
    let mut rem: Vec<Guest> = guests.clone();
    proof {
        assert(rem@ =~= guests@);
    }
    let mut b: usize = 0;
    while b < schedules.len()
        invariant
            b <= schedules@.len(),
            rem@ == remaining(guests@, schedules@, b as nat),
        decreases schedules@.len() - b,
    {
        rem = drop_placed(&rem, &schedules[b].schedule);
        b = b + 1;
    }
    rem
}

/// Checks that every stay ends after it starts, then that no two guests
/// share an id.
pub fn validate_guests(guests: &Vec<Guest>) -> (r: Result<(), ValidationError>)
    ensures
        r is Ok <==> valid_guests(guests@),
        r matches Err(ValidationError::EmptyStay(id)) ==> exists|j: int|
            0 <= j < guests@.len() && #[trigger] guests@[j].id == id && guests@[j].start >= guests@[j].end,
        r matches Err(ValidationError::DuplicateId(id)) ==> valid_stays(guests@) && exists|a: int, b: int|
            0 <= a < b < guests@.len() && #[trigger] guests@[a].id == id && #[trigger] guests@[b].id == id,
{
    let n = guests.len();
    let mut j: usize = 0;
    while j < n
        invariant
            n == guests@.len(),
            j <= n,
            forall|k: int| 0 <= k < j ==> #[trigger] guests@[k].start < guests@[k].end,
        decreases n - j,
    {
        if guests[j].start >= guests[j].end {
            return Err(ValidationError::EmptyStay(guests[j].id));
        }
        j = j + 1;
    }
    let mut a: usize = 0;
    while a < n
        invariant
            n == guests@.len(),
            a <= n,
            valid_stays(guests@),
            forall|x: int, y: int| 0 <= x < a && x < y < n ==> #[trigger] guests@[x].id != #[trigger] guests@[y].id,
        decreases n - a,
    {
        let mut b: usize = a + 1;
        while b < n
            invariant
                n == guests@.len(),
                a < n,
                a < b <= n,
                valid_stays(guests@),
                forall|y: int| a < y < b ==> guests@[a as int].id != #[trigger] guests@[y].id,
            decreases n - b,
        {
            if guests[a].id == guests[b].id {
                return Err(ValidationError::DuplicateId(guests[a].id));
            }
            b = b + 1;
        }
        a = a + 1;
    }
    Ok(())
}

/// Schedules the guests after checking them: an error where a stay does not
/// end after it starts or two guests share an id, else the schedules of
/// `solve_bed_scheduling`.
pub fn solve(bed_count: usize, guests: Vec<Guest>) -> (r: Result<Vec<BedSchedule>, ValidationError>)
    ensures
        r is Ok <==> valid_guests(guests@),
        r matches Err(e) ==> match e {
            ValidationError::EmptyStay(id) => exists|j: int|
                0 <= j < guests@.len() && #[trigger] guests@[j].id == id && guests@[j].start >= guests@[j].end,
            ValidationError::DuplicateId(id) => valid_stays(guests@) && exists|a: int, b: int|
                0 <= a < b < guests@.len() && #[trigger] guests@[a].id == id && #[trigger] guests@[b].id == id,
        },
        r matches Ok(res) ==> {
            &&& res@.len() == if guests@.len() == 0 || bed_count == 0 {
                0
            } else {
                bed_count as int
            }
            &&& forall|b: int| 0 <= b < res@.len() ==> #[trigger] res@[b].bed_id == b + 1
            &&& forall|b: int| 0 <= b < res@.len() ==> #[trigger] fills_greedily(guests@, res@, b)
            &&& placed_once(guests@, res@)
            &&& forall|b: int|
                0 <= b && b + 1 < res@.len() ==> #[trigger] res@[b + 1].schedule@.len() <= res@[b].schedule@.len()
            &&& disjoint_stays(guests@) && guests@.len() > 0 && bed_count > 0 ==> hosts_all_in_order(
                guests@,
                res@[0].schedule@,
            )
        },
{
    match validate_guests(&guests) {
        Err(e) => Err(e),
        Ok(()) => Ok(solve_bed_scheduling(bed_count, guests)),
    }
}

} // verus!
