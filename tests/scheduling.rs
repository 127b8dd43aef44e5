use bed_scheduling::graph::build_schedules_graph;
use bed_scheduling::path::longest_path_in_graph;
use bed_scheduling::schedule::{solve, solve_bed_scheduling, unscheduled, validate_guests};
use bed_scheduling::types::Stay::{Empty, GuestId};
use bed_scheduling::types::{BedSchedule, Guest, Stay, ValidationError};

fn hosted(s: &BedSchedule) -> Vec<usize> {
    s.schedule
        .iter()
        .filter_map(|s| match s {
            Empty => None,
            GuestId(id) => Some(*id),
        })
        .collect()
}

#[test]
fn no_guests_no_schedules() {
    let schedules = solve_bed_scheduling(1, Vec::new());
    let expected: Vec<BedSchedule> = Vec::new();
    assert_eq!(schedules, expected);
}

#[test]
fn overlapping_guests_use_different_beds() {
    let guests = vec![
        Guest::new(1, 1, 5),
        Guest::new(2, 1, 5),
        Guest::new(3, 5, 10),
    ];
    let schedules = solve_bed_scheduling(2, guests);
    let expected: Vec<BedSchedule> = vec![
        BedSchedule::new(1, vec![GuestId(2), GuestId(3)]),
        BedSchedule::new(2, vec![GuestId(1)]),
    ];
    assert_eq!(schedules, expected);
}

#[test]
fn schedule_all_guests_in_single_bed_if_no_overlap() {
    let guests = vec![
        Guest::new(1, 1, 5),
        Guest::new(2, 5, 9),
        Guest::new(3, 9, 11),
        Guest::new(4, 11, 12),
    ];
    let schedules = solve_bed_scheduling(1, guests);
    let expected: Vec<BedSchedule> = vec![BedSchedule::new(
        1,
        vec![GuestId(1), GuestId(2), GuestId(3), GuestId(4)],
    )];
    assert_eq!(schedules, expected);
}

#[test]
fn maximise_number_of_host_per_bed() {
    let guests = vec![
        Guest::new(1, 1, 5),
        Guest::new(2, 5, 9),
        Guest::new(3, 8, 10),
        Guest::new(4, 9, 11),
        Guest::new(5, 11, 12),
    ];
    let schedules = solve_bed_scheduling(1, guests);
    let expected: Vec<BedSchedule> = vec![BedSchedule::new(
        1,
        vec![GuestId(1), GuestId(2), GuestId(4), GuestId(5)],
    )];
    assert_eq!(schedules, expected);
}

#[test]
fn maximise_number_of_host_per_bed_bis() {
    let guests = vec![
        Guest::new(1, 1, 5),
        Guest::new(2, 5, 9),
        Guest::new(3, 8, 10),
        Guest::new(4, 9, 11),
        Guest::new(5, 11, 12),
    ];
    let schedules = solve_bed_scheduling(2, guests);
    let expected: Vec<BedSchedule> = vec![
        BedSchedule::new(1, vec![GuestId(1), GuestId(2), GuestId(4), GuestId(5)]),
        BedSchedule::new(2, vec![GuestId(3)]),
    ];
    assert_eq!(schedules, expected);
}

#[test]
fn empty_beds_possible() {
    let guests = vec![
        Guest::new(1, 1, 5),
        Guest::new(2, 5, 9),
        Guest::new(3, 8, 10),
        Guest::new(4, 9, 11),
        Guest::new(5, 11, 12),
    ];
    let schedules = solve_bed_scheduling(3, guests);
    let expected: Vec<BedSchedule> = vec![
        BedSchedule::new(1, vec![GuestId(1), GuestId(2), GuestId(4), GuestId(5)]),
        BedSchedule::new(2, vec![GuestId(3)]),
        BedSchedule::new(3, Vec::new()),
    ];
    assert_eq!(schedules, expected);
}

#[test]
fn maximises_number_hosts_over_bed_occupation_one_bed() {
    let guests = vec![
        Guest::new(1, 1, 10),
        Guest::new(2, 10, 20),
        Guest::new(3, 1, 5),
        Guest::new(4, 5, 10),
        Guest::new(5, 10, 15),
        Guest::new(6, 15, 20),
    ];
    let schedules = solve_bed_scheduling(1, guests);
    let expected: Vec<BedSchedule> = vec![BedSchedule::new(
        1,
        vec![GuestId(3), GuestId(4), GuestId(5), GuestId(6)],
    )];
    assert_eq!(schedules, expected);
}

#[test]
fn maximises_number_hosts_over_bed_occupation_two_beds() {
    let guests = vec![
        Guest::new(1, 1, 10),
        Guest::new(2, 10, 20),
        Guest::new(3, 1, 5),
        Guest::new(4, 5, 10),
        Guest::new(5, 10, 15),
        Guest::new(6, 15, 20),
    ];
    let schedules = solve_bed_scheduling(2, guests);
    let expected: Vec<BedSchedule> = vec![
        BedSchedule::new(1, vec![GuestId(3), GuestId(4), GuestId(5), GuestId(6)]),
        BedSchedule::new(2, vec![GuestId(1), GuestId(2)]),
    ];
    assert_eq!(schedules, expected);
}

#[test]
fn all_guests_fit_in_one_bed_without_overlap() {
    let max = 1000;
    let mut guests: Vec<Guest> = Vec::new();
    for i in 1..=max {
        let g = Guest::new(i, i, i + 1);
        guests.push(g);
    }
    let expected_scheduled_guests: Vec<usize> = guests.iter().map(|g| g.id).collect();
    let schedules = solve_bed_scheduling(1, guests);
    assert_eq!(schedules.len(), 1);
    let first_schedule = schedules.first().unwrap();
    let scheduled_guests: Vec<usize> = hosted(first_schedule);
    assert_eq!(scheduled_guests, expected_scheduled_guests);
}

#[test]
fn zero_beds_give_no_schedules() {
    let guests = vec![Guest::new(1, 1, 5), Guest::new(2, 2, 6)];
    let schedules = solve_bed_scheduling(0, guests);
    assert!(schedules.is_empty());
}

#[test]
fn no_guest_is_placed_twice() {
    let guests = vec![
        Guest::new(1, 1, 10),
        Guest::new(2, 10, 20),
        Guest::new(3, 1, 5),
        Guest::new(4, 5, 10),
        Guest::new(5, 10, 15),
        Guest::new(6, 15, 20),
        Guest::new(7, 3, 12),
    ];
    let schedules = solve_bed_scheduling(4, guests);
    let mut seen: Vec<usize> = Vec::new();
    for s in &schedules {
        for id in hosted(s) {
            assert!(!seen.contains(&id));
            seen.push(id);
        }
    }
    seen.sort();
    assert_eq!(seen, vec![1, 2, 3, 4, 5, 6, 7]);
}

#[test]
fn earlier_beds_host_at_least_as_many() {
    let guests = vec![
        Guest::new(1, 1, 5),
        Guest::new(2, 5, 9),
        Guest::new(3, 8, 10),
        Guest::new(4, 9, 11),
        Guest::new(5, 11, 12),
        Guest::new(6, 2, 11),
    ];
    let schedules = solve_bed_scheduling(3, guests);
    assert_eq!(schedules.len(), 3);
    for w in schedules.windows(2) {
        assert!(hosted(&w[0]).len() >= hosted(&w[1]).len());
    }
    let ids: Vec<usize> = schedules.iter().map(|s| s.bed_id).collect();
    assert_eq!(ids, vec![1, 2, 3]);
}

#[test]
fn three_mutually_overlapping_guests_need_three_beds() {
    let guests = vec![
        Guest::new(1, 1, 6),
        Guest::new(2, 2, 7),
        Guest::new(3, 3, 8),
    ];
    let two = solve_bed_scheduling(2, guests.clone());
    let placed_in_two: usize = two.iter().map(|s| hosted(s).len()).sum();
    assert_eq!(placed_in_two, 2);
    let three = solve_bed_scheduling(3, guests);
    let placed_in_three: usize = three.iter().map(|s| hosted(s).len()).sum();
    assert_eq!(placed_in_three, 3);
}

#[test]
fn equal_stays_split_over_two_beds() {
    let guests = vec![
        Guest::new(1, 1, 5),
        Guest::new(2, 1, 5),
        Guest::new(3, 5, 10),
    ];
    let schedules = solve_bed_scheduling(2, guests);
    assert_eq!(hosted(&schedules[0]).len(), 2);
    assert_eq!(hosted(&schedules[1]).len(), 1);
}

#[test]
fn bed_schedule_equality_compares_stays() {
    let a = BedSchedule::new(1, vec![GuestId(1)]);
    let b = BedSchedule::new(1, vec![GuestId(2)]);
    let c = BedSchedule::new(2, vec![GuestId(1)]);
    let d = BedSchedule::new(1, vec![GuestId(1)]);
    let e: Stay = Empty;
    assert_ne!(a, b);
    assert_ne!(a, c);
    assert_eq!(a, d);
    assert_ne!(e, GuestId(1));
}

#[test]
fn disjoint_stays_given_out_of_order_are_hosted_in_time_order() {
    let guests = vec![
        Guest::new(1, 3, 4),
        Guest::new(2, 1, 2),
        Guest::new(3, 2, 3),
    ];
    let schedules = solve_bed_scheduling(1, guests);
    let expected: Vec<BedSchedule> =
        vec![BedSchedule::new(1, vec![GuestId(2), GuestId(3), GuestId(1)])];
    assert_eq!(schedules, expected);
}

#[test]
fn no_bed_hosts_more_than_the_bed_before() {
    let guests = vec![
        Guest::new(1, 6, 10),
        Guest::new(2, 1, 8),
        Guest::new(3, 10, 11),
        Guest::new(4, 10, 12),
        Guest::new(5, 3, 8),
        Guest::new(6, 8, 9),
    ];
    let schedules = solve_bed_scheduling(6, guests);
    let expected: Vec<BedSchedule> = vec![
        BedSchedule::new(1, vec![GuestId(5), GuestId(6), GuestId(4)]),
        BedSchedule::new(2, vec![GuestId(1), GuestId(3)]),
        BedSchedule::new(3, vec![GuestId(2)]),
        BedSchedule::new(4, Vec::new()),
        BedSchedule::new(5, Vec::new()),
        BedSchedule::new(6, Vec::new()),
    ];
    assert_eq!(schedules, expected);
}

#[test]
fn two_beds_host_stays_that_overlap_at_most_pairwise() {
    let guests = vec![
        Guest::new(1, 2, 7),
        Guest::new(2, 5, 6),
        Guest::new(3, 10, 12),
        Guest::new(4, 7, 11),
        Guest::new(5, 2, 5),
    ];
    let schedules = solve_bed_scheduling(2, guests);
    let expected: Vec<BedSchedule> = vec![
        BedSchedule::new(1, vec![GuestId(5), GuestId(2), GuestId(3)]),
        BedSchedule::new(2, vec![GuestId(1), GuestId(4)]),
    ];
    assert_eq!(schedules, expected);
}

#[test]
fn a_bed_stays_free_after_an_end_date_to_reach_later_stays() {
    let guests = vec![
        Guest::new(1, 0, 1),
        Guest::new(2, 1, 3),
        Guest::new(3, 0, 4),
        Guest::new(4, 5, 6),
    ];
    let schedules = solve_bed_scheduling(1, guests);
    let expected: Vec<BedSchedule> =
        vec![BedSchedule::new(1, vec![GuestId(1), GuestId(2), GuestId(4)])];
    assert_eq!(schedules, expected);
}

#[test]
fn the_first_bed_takes_the_largest_chain() {
    let guests = vec![
        Guest::new(1, 0, 1),
        Guest::new(2, 1, 3),
        Guest::new(3, 0, 4),
        Guest::new(4, 5, 6),
        Guest::new(5, 5, 6),
    ];
    let schedules = solve_bed_scheduling(2, guests);
    let expected: Vec<BedSchedule> = vec![
        BedSchedule::new(1, vec![GuestId(1), GuestId(2), GuestId(5)]),
        BedSchedule::new(2, vec![GuestId(3), GuestId(4)]),
    ];
    assert_eq!(schedules, expected);
}

#[test]
fn the_chain_kept_on_a_tie_can_leave_a_guest_without_a_bed() {
    let guests = vec![
        Guest::new(1, 0, 9),
        Guest::new(2, 5, 7),
        Guest::new(3, 9, 11),
        Guest::new(4, 8, 11),
    ];
    let schedules = solve_bed_scheduling(2, guests);
    let expected: Vec<BedSchedule> = vec![
        BedSchedule::new(1, vec![GuestId(2), GuestId(3)]),
        BedSchedule::new(2, vec![GuestId(4)]),
    ];
    assert_eq!(schedules, expected);
}

#[test]
fn graph_links_stays_and_each_date_to_the_next() {
    let guests = vec![
        Guest::new(1, 1, 5),
        Guest::new(2, 3, 9),
        Guest::new(3, 5, 7),
    ];
    let (entry, graph) = build_schedules_graph(&guests);
    assert_eq!(entry, 1);
    assert_eq!(graph.len(), 5);
    assert_eq!(graph[&1], vec![(5, GuestId(1)), (3, Empty)]);
    assert_eq!(graph[&3], vec![(9, GuestId(2)), (5, Empty)]);
    assert_eq!(graph[&5], vec![(7, GuestId(3)), (7, Empty)]);
    assert_eq!(graph[&7], vec![(9, Empty)]);
    assert!(graph[&9].is_empty());
    let path = longest_path_in_graph(entry, &graph);
    assert_eq!(path, vec![GuestId(1), GuestId(3)]);
}

#[test]
fn graph_of_one_guest_has_one_edge() {
    let guests = vec![Guest::new(7, 4, 6)];
    let (entry, graph) = build_schedules_graph(&guests);
    assert_eq!(entry, 4);
    assert_eq!(graph[&4], vec![(6, GuestId(7)), (6, Empty)]);
    assert!(graph[&6].is_empty());
    assert_eq!(longest_path_in_graph(entry, &graph), vec![GuestId(7)]);
}

#[test]
fn validation_accepts_well_formed_guests() {
    let guests = vec![Guest::new(1, 1, 5), Guest::new(2, 5, 9)];
    assert_eq!(validate_guests(&guests), Ok(()));
    let schedules = solve(1, guests).unwrap();
    assert_eq!(
        schedules,
        vec![BedSchedule::new(1, vec![GuestId(1), GuestId(2)])]
    );
}

#[test]
fn validation_rejects_a_stay_that_does_not_end_after_it_starts() {
    let guests = vec![Guest::new(1, 1, 5), Guest::new(2, 6, 6)];
    assert_eq!(validate_guests(&guests), Err(ValidationError::EmptyStay(2)));
    assert_eq!(solve(1, guests), Err(ValidationError::EmptyStay(2)));
    let reversed = vec![Guest::new(3, 9, 4)];
    assert_eq!(solve(2, reversed), Err(ValidationError::EmptyStay(3)));
}

#[test]
fn validation_rejects_duplicate_ids() {
    let guests = vec![
        Guest::new(1, 1, 5),
        Guest::new(2, 5, 9),
        Guest::new(1, 9, 12),
    ];
    assert_eq!(validate_guests(&guests), Err(ValidationError::DuplicateId(1)));
    assert_eq!(solve(1, guests), Err(ValidationError::DuplicateId(1)));
}

#[test]
fn checked_solve_with_no_guests_gives_nothing() {
    assert_eq!(solve(3, Vec::new()), Ok(Vec::new()));
}

#[test]
fn guests_without_a_bed_are_reported() {
    let guests = vec![
        Guest::new(1, 1, 5),
        Guest::new(2, 5, 9),
        Guest::new(3, 8, 10),
        Guest::new(4, 9, 11),
        Guest::new(5, 11, 12),
    ];
    let schedules = solve_bed_scheduling(1, guests.clone());
    assert_eq!(unscheduled(&guests, &schedules), vec![Guest::new(3, 8, 10)]);
    let all = solve_bed_scheduling(2, guests.clone());
    assert!(unscheduled(&guests, &all).is_empty());
}
