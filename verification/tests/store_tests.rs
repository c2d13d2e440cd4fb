use loggbok::checkpoints::Checkpoints;
use loggbok::date::Date;
use loggbok::killring::Killring;
use loggbok::meals::Meals;
use loggbok::trip::Trip;
use loggbok::trips::Trips;

fn d(year: u32, month: u32, day: u32) -> Date {
    Date { year, month, day }
}

fn trip(id: u128, date: Date, from: &str, to: &str, tenths: u32, minutes: u32) -> Trip {
    Trip {
        id,
        date,
        from: from.to_string(),
        to: to.to_string(),
        distance_tenths: tenths,
        time_minutes: minutes,
        reason: "Möte".to_string(),
        returning: false,
    }
}

#[test]
fn add_sorts_ascending_by_date() {
    let mut trips = Trips::new();
    trips.add(trip(1, d(2024, 3, 10), "A", "B", 100, 30));
    trips.add(trip(2, d(2024, 1, 5), "C", "D", 50, 10));
    trips.add(trip(3, d(2024, 2, 20), "E", "F", 70, 20));
    let dates: Vec<(u32, u32, u32)> = trips
        .trips
        .iter()
        .map(|t| (t.date.year, t.date.month, t.date.day))
        .collect();
    assert_eq!(dates, vec![(2024, 1, 5), (2024, 2, 20), (2024, 3, 10)]);
}

#[test]
fn add_is_stable_for_equal_dates() {
    let mut trips = Trips::new();
    trips.add(trip(1, d(2024, 5, 1), "first", "B", 10, 1));
    trips.add(trip(2, d(2024, 5, 1), "second", "B", 10, 1));
    trips.add(trip(3, d(2024, 4, 1), "earlier", "B", 10, 1));
    trips.add(trip(4, d(2024, 5, 1), "third", "B", 10, 1));
    let ids: Vec<u128> = trips.trips.iter().map(|t| t.id).collect();
    assert_eq!(ids, vec![3, 1, 2, 4]);
}

#[test]
fn remove_deletes_by_id_and_tolerates_absence() {
    let mut trips = Trips::new();
    trips.add(trip(1, d(2024, 1, 1), "A", "B", 10, 1));
    trips.add(trip(2, d(2024, 1, 2), "C", "D", 10, 1));
    trips.remove(1);
    assert_eq!(trips.trips.len(), 1);
    assert_eq!(trips.trips[0].id, 2);
    trips.remove(99);
    assert_eq!(trips.trips.len(), 1);
}

#[test]
fn recent_returns_last_n_newest_first() {
    let mut trips = Trips::new();
    trips.add(trip(1, d(2024, 1, 1), "A", "B", 10, 1));
    trips.add(trip(2, d(2024, 1, 2), "C", "D", 10, 1));
    trips.add(trip(3, d(2024, 1, 3), "E", "F", 10, 1));
    let recent = trips.recent(2);
    let ids: Vec<u128> = recent.iter().map(|t| t.id).collect();
    assert_eq!(ids, vec![3, 2]);
    let all = trips.recent(10);
    assert_eq!(all.len(), 3);
    assert_eq!(all[0].id, 3);
    assert_eq!(all[2].id, 1);
}

#[test]
fn first_date_is_earliest() {
    let mut trips = Trips::new();
    assert!(trips.first_date().is_none());
    trips.add(trip(1, d(2024, 6, 1), "A", "B", 10, 1));
    trips.add(trip(2, d(2024, 2, 1), "C", "D", 10, 1));
    assert_eq!(trips.first_date(), Some(d(2024, 2, 1)));
}

#[test]
fn favorites_ranks_by_count_and_keeps_direction() {
    let mut trips = Trips::new();
    let mut id: u128 = 0;
    let mut log = |from: &str, to: &str, day: u32, trips: &mut Trips| {
        id += 1;
        trips.add(trip(id, d(2024, 1, day), from, to, 10, 5));
    };
    log("A", "B", 1, &mut trips);
    log("A", "B", 2, &mut trips);
    log("A", "B", 3, &mut trips);
    log("C", "D", 4, &mut trips);
    log("C", "D", 5, &mut trips);
    log("C", "D", 6, &mut trips);
    log("C", "D", 7, &mut trips);
    log("C", "D", 8, &mut trips);
    log("B", "A", 9, &mut trips);
    let favs = trips.favorites();
    assert_eq!(favs.len(), 3);
    assert_eq!((favs[0].from.as_str(), favs[0].to.as_str()), ("C", "D"));
    assert_eq!((favs[1].from.as_str(), favs[1].to.as_str()), ("A", "B"));
    assert_eq!((favs[2].from.as_str(), favs[2].to.as_str()), ("B", "A"));
    // the representative is the first logged trip of its pair
    assert_eq!(favs[0].id, 4);
    assert_eq!(favs[1].id, 1);
}

#[test]
fn favorites_cuts_to_five_and_breaks_ties_by_first_appearance() {
    let mut trips = Trips::new();
    let names = ["P", "Q", "R", "S", "T", "U"];
    let mut id: u128 = 0;
    for (k, name) in names.iter().enumerate() {
        id += 1;
        trips.add(trip(id, d(2024, 2, (k + 1) as u32), name, "Z", 10, 5));
    }
    let favs = trips.favorites();
    assert_eq!(favs.len(), 5);
    // all counts equal: first appearance decides
    let froms: Vec<&str> = favs.iter().map(|t| t.from.as_str()).collect();
    assert_eq!(froms, vec!["P", "Q", "R", "S", "T"]);
}

#[test]
fn meals_toggle_twice_is_identity() {
    let mut meals = Meals::new();
    meals.add(d(2024, 3, 1));
    meals.add(d(2024, 3, 5));
    let before: Vec<Date> = meals.points.clone();
    meals.toggle(d(2024, 3, 3));
    meals.toggle(d(2024, 3, 3));
    assert_eq!(meals.points, before);
    meals.toggle(d(2024, 3, 5));
    meals.toggle(d(2024, 3, 5));
    assert_eq!(meals.points, before);
}

#[test]
fn meals_add_is_idempotent_and_sorted() {
    let mut meals = Meals::new();
    meals.add(d(2024, 3, 5));
    meals.add(d(2024, 3, 1));
    meals.add(d(2024, 3, 5));
    assert_eq!(meals.points, vec![d(2024, 3, 1), d(2024, 3, 5)]);
    assert!(meals.has(d(2024, 3, 1)));
    assert!(!meals.has(d(2024, 3, 2)));
    meals.remove(d(2024, 3, 1));
    assert!(!meals.has(d(2024, 3, 1)));
}

#[test]
fn meals_in_period_is_open_start_closed_end() {
    let mut meals = Meals::new();
    meals.add(d(2024, 3, 1));
    meals.add(d(2024, 3, 10));
    meals.add(d(2024, 3, 20));
    // (1 March, 20 March]: the boundary start day is out, the end day in
    assert_eq!(meals.in_period(&d(2024, 3, 1), &d(2024, 3, 20)), 2);
    assert_eq!(meals.in_period(&d(2024, 2, 28), &d(2024, 3, 31)), 3);
    assert_eq!(meals.in_period(&d(2024, 3, 20), &d(2024, 3, 25)), 0);
}

#[test]
fn killring_marks_ids_idempotently() {
    let mut ring = Killring::new();
    assert!(!ring.contains(&7));
    ring.add(7);
    ring.add(7);
    ring.add(9);
    assert!(ring.contains(&7));
    assert!(ring.contains(&9));
    assert!(!ring.contains(&8));
    assert_eq!(ring.marked.len(), 2);
}

#[test]
fn checkpoints_store_is_a_sorted_set() {
    let mut cps = Checkpoints::new();
    cps.add(d(2024, 6, 1));
    cps.add(d(2024, 1, 1));
    cps.add(d(2024, 6, 1));
    assert_eq!(cps.dates, vec![d(2024, 1, 1), d(2024, 6, 1)]);
    assert!(cps.has(d(2024, 1, 1)));
    cps.remove(d(2024, 1, 1));
    assert!(!cps.has(d(2024, 1, 1)));
}

#[test]
fn interval_bounds_pairs_adjacent_boundaries_newest_first() {
    let mut cps = Checkpoints::new();
    cps.add(d(2024, 2, 1));
    cps.add(d(2024, 4, 1));
    let today = d(2024, 5, 15);
    let earliest = Some(d(2024, 1, 10));
    let pairs = cps.interval_bounds(earliest, today);
    // boundaries: 9 Jan (day before earliest trip), 1 Feb, 1 Apr, 15 May
    assert_eq!(
        pairs,
        vec![
            (d(2024, 4, 1), d(2024, 5, 15)),
            (d(2024, 2, 1), d(2024, 4, 1)),
            (d(2024, 1, 9), d(2024, 2, 1)),
        ]
    );
}

#[test]
fn interval_bounds_skips_today_when_not_after_latest_checkpoint() {
    let mut cps = Checkpoints::new();
    cps.add(d(2024, 4, 1));
    let pairs = cps.interval_bounds(Some(d(2024, 1, 10)), d(2024, 4, 1));
    assert_eq!(pairs, vec![(d(2024, 1, 9), d(2024, 4, 1))]);
}

#[test]
fn interval_bounds_without_trips_or_checkpoints() {
    let cps = Checkpoints::new();
    let today = d(2024, 5, 15);
    // lower bound: the day before today
    let pairs = cps.interval_bounds(None, today);
    assert_eq!(pairs, vec![(d(2024, 5, 14), d(2024, 5, 15))]);
}

#[test]
fn interval_bounds_handles_year_rollover_in_lower_bound() {
    let cps = Checkpoints::new();
    let pairs = cps.interval_bounds(Some(d(2024, 1, 1)), d(2024, 2, 1));
    assert_eq!(pairs, vec![(d(2023, 12, 31), d(2024, 2, 1))]);
}

#[test]
fn from_vec_normalizes_loaded_state() {
    let loaded = vec![
        trip(1, d(2024, 3, 10), "A", "B", 100, 30),
        trip(2, d(2024, 1, 5), "C", "D", 50, 10),
        trip(3, d(2024, 1, 5), "E", "F", 70, 20),
    ];
    let trips = Trips::from_vec(loaded);
    let ids: Vec<u128> = trips.trips.iter().map(|t| t.id).collect();
    assert_eq!(ids, vec![2, 3, 1]);
}

#[test]
fn recent_zero_is_empty() {
    let mut trips = Trips::new();
    trips.add(trip(1, d(2024, 1, 1), "A", "B", 10, 1));
    assert!(trips.recent(0).is_empty());
}
