use norimaki_db::codec::event_round_trip;
use norimaki_db::KeyValueStore;
use norimaki_db::engine::{format_year_month, parse_year_month};
use norimaki_db::{BoatRaceEngine, MemoryStore, MonthlySchedule, RaceEvent, StoreError};

#[test]
fn test_parse_year_month() {
    assert_eq!(parse_year_month("2025-09").unwrap(), 202509);
    assert_eq!(parse_year_month("2024-12").unwrap(), 202412);
    assert!(parse_year_month("invalid").is_err());
    assert!(parse_year_month("2025-13").is_err());
}

#[test]
fn test_format_year_month() {
    assert_eq!(format_year_month(202509), "2025-09");
    assert_eq!(format_year_month(202412), "2024-12");
}

#[test]
fn test_put_get_monthly_schedule() {
    let store = MemoryStore::new();
    let mut engine = BoatRaceEngine::new(store);

    let schedule = MonthlySchedule {
        year_month: "2025-09".to_string(),
        events: vec![RaceEvent {
            venue_id: 4,
            venue_name: "平和島".to_string(),
            event_name: "トーキョー・ベイ・カップ".to_string(),
            grade: "G1".to_string(),
            start_date: "2025-09-10".to_string(),
            duration_days: 7,
        }],
    };

    engine.put_monthly_schedule(&schedule).unwrap();

    let retrieved = engine.get_monthly_schedule(202509).unwrap();
    assert_eq!(retrieved.year_month, "2025-09");
    assert_eq!(retrieved.events.len(), 1);
    assert_eq!(retrieved.events[0].venue_name, "平和島");
}

#[test]
fn test_register_tournament_to_months() {
    let store = MemoryStore::new();
    let mut engine = BoatRaceEngine::new(store);

    let tournament = RaceEvent {
        venue_id: 4,
        venue_name: "平和島".to_string(),
        event_name: "年末年始杯".to_string(),
        grade: "G1".to_string(),
        start_date: "2025-12-28".to_string(),
        duration_days: 10,
    };

    engine.register_tournament_to_months(&tournament).unwrap();

    let dec_schedule = engine.get_monthly_schedule(202512).unwrap();
    assert_eq!(dec_schedule.events.len(), 1);
    assert_eq!(dec_schedule.events[0].event_name, "年末年始杯");

    let jan_schedule = engine.get_monthly_schedule(202601).unwrap();
    assert_eq!(jan_schedule.events.len(), 1);
    assert_eq!(jan_schedule.events[0].event_name, "年末年始杯");
}

#[test]
fn test_statistics() {
    let store = MemoryStore::new();
    let mut engine = BoatRaceEngine::new(store);

    let schedule = MonthlySchedule {
        year_month: "2025-09".to_string(),
        events: vec![RaceEvent {
            venue_id: 4,
            venue_name: "平和島".to_string(),
            event_name: "トーキョー・ベイ・カップ".to_string(),
            grade: "G1".to_string(),
            start_date: "2025-09-10".to_string(),
            duration_days: 7,
        }],
    };

    engine.put_monthly_schedule(&schedule).unwrap();
    engine.put_race_data("tokyo_bay_cup", 1694524800000, "race1").unwrap();
    engine.put_race_data("tokyo_bay_cup", 1694524800001, "race2").unwrap();

    let (monthly_count, tournament_count, race_count) = engine.get_statistics().unwrap();
    assert_eq!(monthly_count, 1);
    assert_eq!(tournament_count, 1);
    assert_eq!(race_count, 2);
}

#[test]
fn test_race_data_roundtrip() {
    let store = MemoryStore::new();
    let mut engine = BoatRaceEngine::new(store);

    engine.put_race_data("tokyo_bay_cup", 1694524800000, "first race").unwrap();

    let value = engine.get_race_data("tokyo_bay_cup", 1694524800000).unwrap();
    assert_eq!(value, "first race");

    let races = engine.get_tournament_races("tokyo_bay_cup").unwrap();
    assert_eq!(races.len(), 1);
    assert_eq!(races[0], "first race");
}

#[test]
fn test_race_data_not_found() {
    let store = MemoryStore::new();
    let engine = BoatRaceEngine::new(store);
    let err = engine.get_race_data("tokyo_bay_cup", 42).unwrap_err();
    assert_eq!(err, StoreError::NotFound);
}

#[test]
fn test_tournament_races_sorted_by_timestamp() {
    let store = MemoryStore::new();
    let mut engine = BoatRaceEngine::new(store);

    engine.put_race_data("cup", 2000, "second").unwrap();
    engine.put_race_data("cup", 1000, "first").unwrap();
    engine.put_race_data("cup", 3000, "third").unwrap();
    // another tournament's records stay outside the range
    engine.put_race_data("cupboard", 500, "other").unwrap();

    let races = engine.get_tournament_races("cup").unwrap();
    assert_eq!(races, vec!["first", "second", "third"]);
}

#[test]
fn test_monthly_schedule_sorted_by_start_date() {
    let store = MemoryStore::new();
    let mut engine = BoatRaceEngine::new(store);

    let schedule = MonthlySchedule {
        year_month: "2025-09".to_string(),
        events: vec![
            RaceEvent {
                venue_id: 2,
                venue_name: "Later Venue".to_string(),
                event_name: "Late Cup".to_string(),
                grade: "G2".to_string(),
                start_date: "2025-09-20".to_string(),
                duration_days: 3,
            },
            RaceEvent {
                venue_id: 1,
                venue_name: "Early Venue".to_string(),
                event_name: "Early Cup".to_string(),
                grade: "G1".to_string(),
                start_date: "2025-09-05".to_string(),
                duration_days: 3,
            },
        ],
    };

    engine.put_monthly_schedule(&schedule).unwrap();
    let retrieved = engine.get_monthly_schedule(202509).unwrap();
    assert_eq!(retrieved.events.len(), 2);
    assert_eq!(retrieved.events[0].start_date, "2025-09-05");
    assert_eq!(retrieved.events[1].start_date, "2025-09-20");
}

#[test]
fn test_event_round_trip() {
    let event = RaceEvent {
        venue_id: 4,
        venue_name: "平和島".to_string(),
        event_name: "トーキョー・ベイ・カップ".to_string(),
        grade: "G1".to_string(),
        start_date: "2025-09-10".to_string(),
        duration_days: 7,
    };
    let back = event_round_trip(&event);
    assert_eq!(back, event);
}

#[test]
fn test_put_empty_schedule_succeeds() {
    let store = MemoryStore::new();
    let mut engine = BoatRaceEngine::new(store);
    let schedule = MonthlySchedule { year_month: "2025-09".to_string(), events: vec![] };
    assert!(engine.put_monthly_schedule(&schedule).is_ok());
    let (monthly_count, tournament_count, race_count) = engine.get_statistics().unwrap();
    assert_eq!((monthly_count, tournament_count, race_count), (0, 0, 0));
}

#[test]
fn test_put_monthly_schedule_invalid_tag() {
    let store = MemoryStore::new();
    let mut engine = BoatRaceEngine::new(store);
    let schedule = MonthlySchedule { year_month: "2025/09".to_string(), events: vec![] };
    assert_eq!(engine.put_monthly_schedule(&schedule).unwrap_err(), StoreError::InvalidValue);
}

#[test]
fn test_register_tournament_invalid_date() {
    let store = MemoryStore::new();
    let mut engine = BoatRaceEngine::new(store);
    let tournament = RaceEvent {
        venue_id: 1,
        venue_name: "Venue".to_string(),
        event_name: "Cup".to_string(),
        grade: "G1".to_string(),
        start_date: "not-a-date".to_string(),
        duration_days: 3,
    };
    assert_eq!(
        engine.register_tournament_to_months(&tournament).unwrap_err(),
        StoreError::InvalidValue
    );
}

#[test]
fn test_corrupt_value_fails_decoding() {
    let mut store = MemoryStore::new();
    store
        .put("M202509\x00garbled".to_string(), "not-base64!".to_string())
        .unwrap();
    let engine = BoatRaceEngine::new(store);
    match engine.get_monthly_schedule(202509) {
        Err(StoreError::SerializationError(_)) => {}
        other => panic!("expected a serialization error, got {:?}", other),
    }
}

#[test]
fn test_statistics_ignore_data_only_tournaments() {
    let store = MemoryStore::new();
    let mut engine = BoatRaceEngine::new(store);
    // a tournament that only ever wrote timed records is not counted as a
    // group: the group count is derived from the monthly view alone
    engine.put_race_data("silent_cup", 1, "r").unwrap();
    let (monthly_count, tournament_count, race_count) = engine.get_statistics().unwrap();
    assert_eq!(monthly_count, 0);
    assert_eq!(tournament_count, 0);
    assert_eq!(race_count, 1);
}
