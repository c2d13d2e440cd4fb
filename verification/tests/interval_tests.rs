use loggbok::date::Date;
use loggbok::interval::minutes_to_hours_tenths;
use loggbok::meals::Meals;
use loggbok::summary::month_statistics;
use loggbok::trip::Trip;
use loggbok::trips::Trips;

fn d(year: u32, month: u32, day: u32) -> Date {
    Date { year, month, day }
}

fn trip(id: u128, date: Date, tenths: u32, minutes: u32, returning: bool) -> Trip {
    Trip {
        id,
        date,
        from: "A".to_string(),
        to: "B".to_string(),
        distance_tenths: tenths,
        time_minutes: minutes,
        reason: "Möte".to_string(),
        returning,
    }
}

#[test]
fn aggregate_filters_open_start_closed_end_reverse_chronological() {
    let mut trips = Trips::new();
    trips.add(trip(1, d(2024, 3, 1), 100, 30, false));
    trips.add(trip(2, d(2024, 3, 10), 50, 20, false));
    trips.add(trip(3, d(2024, 3, 20), 70, 10, false));
    let meals = Meals::new();
    let summary = trips.aggregate_interval(&meals, &d(2024, 3, 1), &d(2024, 3, 20));
    // 1 March is the open start: trip 1 is out, trips 2 and 3 in, newest first
    let ids: Vec<u128> = summary.trips.iter().map(|t| t.id).collect();
    assert_eq!(ids, vec![3, 2]);
    assert_eq!(summary.distance_tenths, 120);
    assert_eq!(summary.time_minutes, 30);
    assert_eq!(summary.meal_count, 0);
}

#[test]
fn aggregate_doubles_returning_trips_on_read() {
    let mut trips = Trips::new();
    trips.add(trip(1, d(2024, 3, 5), 125, 30, true));
    trips.add(trip(2, d(2024, 3, 6), 100, 30, false));
    let meals = Meals::new();
    let summary = trips.aggregate_interval(&meals, &d(2024, 3, 1), &d(2024, 3, 31));
    assert_eq!(summary.distance_tenths, 2 * 125 + 100);
}

#[test]
fn aggregate_counts_meals_in_period() {
    let trips = Trips::new();
    let mut meals = Meals::new();
    meals.add(d(2024, 3, 1));
    meals.add(d(2024, 3, 15));
    meals.add(d(2024, 4, 2));
    let summary = trips.aggregate_interval(&meals, &d(2024, 3, 1), &d(2024, 3, 31));
    assert_eq!(summary.meal_count, 1);
}

#[test]
fn adjacent_intervals_partition_the_trips() {
    let mut trips = Trips::new();
    for day in 1..=28 {
        trips.add(trip(day as u128, d(2024, 3, day), 10, 10, false));
    }
    let meals = Meals::new();
    let a = d(2024, 3, 1);
    let b = d(2024, 3, 14);
    let c = d(2024, 3, 28);
    let left = trips.aggregate_interval(&meals, &a, &b);
    let right = trips.aggregate_interval(&meals, &b, &c);
    let whole = trips.aggregate_interval(&meals, &a, &c);
    // no overlap, no gap: the two halves concatenate to the whole
    let mut joined: Vec<u128> = right.trips.iter().map(|t| t.id).collect();
    joined.extend(left.trips.iter().map(|t| t.id));
    let whole_ids: Vec<u128> = whole.trips.iter().map(|t| t.id).collect();
    assert_eq!(joined, whole_ids);
    assert_eq!(
        left.distance_tenths + right.distance_tenths,
        whole.distance_tenths
    );
    assert_eq!(left.trips.len() + right.trips.len(), whole.trips.len());
}

#[test]
fn interval_distance_ignores_insertion_order() {
    let t1 = trip(1, d(2024, 3, 5), 100, 30, false);
    let t2 = trip(2, d(2024, 3, 10), 50, 20, true);
    let t3 = trip(3, d(2024, 3, 15), 70, 10, false);
    let meals = Meals::new();
    let mut one = Trips::new();
    one.add(t1.clone());
    one.add(t2.clone());
    one.add(t3.clone());
    let mut other = Trips::new();
    other.add(t3);
    other.add(t2);
    other.add(t1);
    let s1 = one.aggregate_interval(&meals, &d(2024, 3, 1), &d(2024, 3, 31));
    let s2 = other.aggregate_interval(&meals, &d(2024, 3, 1), &d(2024, 3, 31));
    assert_eq!(s1.distance_tenths, s2.distance_tenths);
    assert_eq!(s1.distance_tenths, 100 + 2 * 50 + 70);
    // and the returned lists are both in the one reverse-chronological order
    let ids1: Vec<u128> = s1.trips.iter().map(|t| t.id).collect();
    let ids2: Vec<u128> = s2.trips.iter().map(|t| t.id).collect();
    assert_eq!(ids1, vec![3, 2, 1]);
    assert_eq!(ids1, ids2);
}

#[test]
fn hours_tenths_round_half_up() {
    assert_eq!(minutes_to_hours_tenths(90), 15);
    assert_eq!(minutes_to_hours_tenths(50), 8);
    assert_eq!(minutes_to_hours_tenths(0), 0);
    assert_eq!(minutes_to_hours_tenths(3), 1);
    assert_eq!(minutes_to_hours_tenths(2), 0);
    assert_eq!(minutes_to_hours_tenths(60), 10);
}

#[test]
fn group_by_month_groups_newest_first() {
    let mut trips = Trips::new();
    trips.add(trip(1, d(2023, 12, 30), 10, 5, false));
    trips.add(trip(2, d(2024, 1, 5), 10, 5, false));
    trips.add(trip(3, d(2024, 1, 20), 10, 5, false));
    trips.add(trip(4, d(2024, 2, 2), 10, 5, false));
    let groups = trips.group_by_month();
    assert_eq!(groups.len(), 3);
    assert_eq!((groups[0].month.year, groups[0].month.month), (2024, 2));
    assert_eq!((groups[1].month.year, groups[1].month.month), (2024, 1));
    assert_eq!((groups[2].month.year, groups[2].month.month), (2023, 12));
    let jan_ids: Vec<u128> = groups[1].trips.iter().map(|t| t.id).collect();
    assert_eq!(jan_ids, vec![3, 2]);
}

#[test]
fn month_statistics_totals_distance_and_time() {
    let group = vec![
        trip(1, d(2024, 1, 5), 100, 30, false),
        trip(2, d(2024, 1, 6), 50, 45, true),
    ];
    let stats = month_statistics(&group);
    assert_eq!(stats.distance_tenths, 100 + 2 * 50);
    assert_eq!(stats.time_minutes, 75);
}

#[test]
fn aggregate_of_empty_store_is_empty() {
    let trips = Trips::new();
    let meals = Meals::new();
    let summary = trips.aggregate_interval(&meals, &d(2024, 1, 1), &d(2024, 12, 31));
    assert!(summary.trips.is_empty());
    assert_eq!(summary.distance_tenths, 0);
    assert_eq!(summary.time_minutes, 0);
    assert_eq!(summary.meal_count, 0);
}
