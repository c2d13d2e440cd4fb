use loggbok::customtrips::{resolve_travel, CustomTrips};
use loggbok::date::Date;
use loggbok::destinations::{
    destinations, travel, Distance, Duration, OriginRow, Travel, TravelDest, TravelTable,
};
use loggbok::trip::Trip;

fn travel_data(text: &str, metres: u32, seconds: u32) -> Travel {
    Travel::new(
        Distance::new(text.to_string(), metres),
        Duration::new(format!("{} min", seconds / 60), seconds),
    )
}

fn table() -> TravelTable {
    TravelTable {
        rows: vec![
            OriginRow {
                from: "Hemma".to_string(),
                dests: vec![
                    TravelDest {
                        to: "Kontoret".to_string(),
                        travel: travel_data("12.3 km", 12345, 1800),
                    },
                    TravelDest {
                        to: "Station".to_string(),
                        travel: travel_data("2 km", 2000, 600),
                    },
                ],
            },
            OriginRow {
                from: "Kontoret".to_string(),
                dests: vec![TravelDest {
                    to: "Hemma".to_string(),
                    travel: travel_data("12.4 km", 12400, 1860),
                }],
            },
        ],
    }
}

#[test]
fn km_tenths_rounds_metres_to_one_decimal() {
    let t = travel_data("12.3 km", 12345, 1800);
    assert_eq!(t.km_tenths(), 123);
    assert_eq!(loggbok::text::tenths_to_string(t.km_tenths() as u64), "12,3");
    assert_eq!(travel_data("", 12350, 0).km_tenths(), 124);
    assert_eq!(travel_data("", 12349, 0).km_tenths(), 123);
    assert_eq!(travel_data("", 0, 0).km_tenths(), 0);
}

#[test]
fn minutes_floors_seconds() {
    assert_eq!(travel_data("", 0, 1800).minutes(), 30);
    assert_eq!(travel_data("", 0, 1859).minutes(), 30);
    assert_eq!(travel_data("", 0, 59).minutes(), 0);
}

#[test]
fn travel_lookup_is_directional_and_exact() {
    let table = table();
    let hit = travel(&table, "Hemma", "Kontoret").unwrap();
    assert_eq!(hit.distance.value, 12345);
    let back = travel(&table, "Kontoret", "Hemma").unwrap();
    assert_eq!(back.distance.value, 12400);
    assert!(travel(&table, "Station", "Hemma").is_none());
    assert!(travel(&table, "hemma", "Kontoret").is_none());
    assert!(travel(&table, "Hemma", "Nowhere").is_none());
}

#[test]
fn destinations_lists_origins_in_table_order() {
    let table = table();
    assert_eq!(destinations(&table), vec!["Hemma", "Kontoret"]);
    assert!(destinations(&TravelTable::new()).is_empty());
}

fn custom_trip(from: &str, to: &str, tenths: u32, minutes: u32) -> Trip {
    Trip {
        id: 1,
        date: Date { year: 2024, month: 1, day: 5 },
        from: from.to_string(),
        to: to.to_string(),
        distance_tenths: tenths,
        time_minutes: minutes,
        reason: "Möte".to_string(),
        returning: false,
    }
}

#[test]
fn custom_trips_add_creates_and_overwrites_keys() {
    let mut custom = CustomTrips::new();
    assert!(custom.get("A", "B").is_none());
    custom.add(&custom_trip("A", "B", 125, 30));
    let first = custom.get("A", "B").unwrap();
    assert_eq!(first.distance.value, 12500);
    assert_eq!(first.distance.text, "12,5 km");
    assert_eq!(first.duration.value, 1800);
    assert_eq!(first.duration.text, "30 min");
    // directional: the reverse key stays empty
    assert!(custom.get("B", "A").is_none());
    // a second add under the same key overwrites it
    custom.add(&custom_trip("A", "B", 70, 15));
    let second = custom.get("A", "B").unwrap();
    assert_eq!(second.distance.value, 7000);
    // other keys read as before
    custom.add(&custom_trip("A", "C", 10, 5));
    assert_eq!(custom.get("A", "B").unwrap().distance.value, 7000);
    assert_eq!(custom.get("A", "C").unwrap().distance.value, 1000);
    custom.add(&custom_trip("D", "E", 20, 5));
    assert_eq!(custom.get("D", "E").unwrap().distance.value, 2000);
    assert_eq!(custom.get("A", "B").unwrap().distance.value, 7000);
}

#[test]
fn resolve_tries_custom_both_ways_then_table() {
    let table = table();
    let mut custom = CustomTrips::new();
    custom.add(&custom_trip("Hemma", "Kontoret", 99, 9));
    // the custom entry shadows the bundled table
    assert_eq!(
        resolve_travel(&custom, &table, "Hemma", "Kontoret")
            .unwrap()
            .distance
            .value,
        9900
    );
    // the reverse direction of a custom entry is found second
    assert_eq!(
        resolve_travel(&custom, &table, "Kontoret", "Hemma")
            .unwrap()
            .distance
            .value,
        9900
    );
    // unknown to the memory: the bundled table answers
    assert_eq!(
        resolve_travel(&custom, &table, "Hemma", "Station")
            .unwrap()
            .distance
            .value,
        2000
    );
    assert!(resolve_travel(&custom, &table, "X", "Y").is_none());
}
