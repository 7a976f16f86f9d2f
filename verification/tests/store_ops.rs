use norimaki_db::{KeyValueStore, MemoryStore, MonthlySchedule, RaceEvent};

fn sample_data() -> MonthlySchedule {
    MonthlySchedule {
        year_month: "2025-09".to_string(),
        events: vec![
            RaceEvent {
                venue_id: 1,
                venue_name: "桐生".to_string(),
                event_name: "バスケで群馬を熱くする群馬クレインサンダーズカップ".to_string(),
                grade: "一般".to_string(),
                start_date: "2025-09-11".to_string(),
                duration_days: 6,
            },
            RaceEvent {
                venue_id: 4,
                venue_name: "平和島".to_string(),
                event_name: "開設７１周年記念トーキョー・ベイ・カップ".to_string(),
                grade: "G1".to_string(),
                start_date: "2025-09-10".to_string(),
                duration_days: 7,
            },
            RaceEvent {
                venue_id: 12,
                venue_name: "住之江".to_string(),
                event_name: "第５３回高松宮記念特別競走".to_string(),
                grade: "G1".to_string(),
                start_date: "2025-09-13".to_string(),
                duration_days: 6,
            },
        ],
    }
}

#[test]
fn test_memory_store_basic_operations() {
    let mut store = MemoryStore::new();

    assert!(store.put("key1".to_string(), "value1".to_string()).is_ok());

    let result = store.get("key1").unwrap();
    assert_eq!(result, Some("value1".to_string()));

    assert!(store.delete("key1").is_ok());
    let result = store.get("key1").unwrap();
    assert_eq!(result, None);
}

#[test]
fn test_memory_store_invalid_key() {
    let mut store = MemoryStore::new();

    assert!(store.put("".to_string(), "value".to_string()).is_err());
    assert!(store.get("").is_err());
    assert!(store.delete("").is_err());
}

#[test]
fn test_memory_store_keys_and_clear() {
    let mut store = MemoryStore::new();

    store.put("key1".to_string(), "value1".to_string()).unwrap();
    store.put("key2".to_string(), "value2".to_string()).unwrap();

    let keys = store.keys().unwrap();
    assert_eq!(keys.len(), 2);
    assert!(keys.contains(&"key1".to_string()));
    assert!(keys.contains(&"key2".to_string()));

    store.clear().unwrap();
    assert_eq!(store.keys().unwrap().len(), 0);
}

#[test]
fn test_memory_store_scan_with_sample_data() {
    let mut store = MemoryStore::new();
    let data = sample_data();

    for event in &data.events {
        let key = format!("M202509\x00{}", event.venue_name);
        let value = format!("{}-{}", event.event_name, event.grade);
        store.put(key, value).unwrap();
    }

    store
        .put("M202510\x00autumn_cup".to_string(), "秋季大会-G2".to_string())
        .unwrap();

    let results = store.scan("M202509", "M202510").unwrap();
    assert_eq!(results.len(), 3);

    let values: Vec<String> = results.iter().map(|(_, v)| v.clone()).collect();
    assert!(values.iter().any(|v| v.contains("群馬クレインサンダーズカップ")));
    assert!(values.iter().any(|v| v.contains("トーキョー・ベイ・カップ")));
    assert!(values.iter().any(|v| v.contains("高松宮記念")));

    assert!(!values.iter().any(|v| v.contains("秋季大会")));
}

#[test]
fn test_scan_invalid_keys() {
    let store = MemoryStore::new();

    assert!(store.scan("", "end").is_err());
    assert!(store.scan("start", "").is_err());
    assert!(store.scan("", "").is_err());
}

#[test]
fn test_put_overwrites_and_get_follows() {
    let mut store = MemoryStore::new();
    store.put("k".to_string(), "v1".to_string()).unwrap();
    assert_eq!(store.get("k").unwrap(), Some("v1".to_string()));
    store.put("k".to_string(), "v2".to_string()).unwrap();
    assert_eq!(store.get("k").unwrap(), Some("v2".to_string()));
    store.delete("k").unwrap();
    assert_eq!(store.get("k").unwrap(), None);
    // deleting again is idempotent
    store.delete("k").unwrap();
    assert_eq!(store.get("k").unwrap(), None);
}

#[test]
fn test_scan_is_half_open() {
    let mut store = MemoryStore::new();
    store.put("a".to_string(), "1".to_string()).unwrap();
    store.put("b".to_string(), "2".to_string()).unwrap();
    store.put("c".to_string(), "3".to_string()).unwrap();

    let mut results = store.scan("a", "c").unwrap();
    results.sort();
    let keys: Vec<&str> = results.iter().map(|(k, _)| k.as_str()).collect();
    assert_eq!(keys, vec!["a", "b"]);

    // the lower bound is inclusive even when no key equals it
    let results = store.scan("aa", "c").unwrap();
    assert_eq!(results.len(), 1);
    assert_eq!(results[0].0, "b");
}
