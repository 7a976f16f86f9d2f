use norimaki_db::key::{monthly_scan_range, tournament_scan_range};
use norimaki_db::{generate_tournament_id, monthly_key, tournament_key};

#[test]
fn test_monthly_key() {
    let key = monthly_key(202509, "tokyo_bay_cup");
    assert_eq!(key, "M202509\x00tokyo_bay_cup");
}

#[test]
fn test_tournament_key() {
    let key = tournament_key("tokyo_bay_cup", 1694524800000);
    assert_eq!(key, "Ttokyo_bay_cup\x000000018a898c7c00");
}

#[test]
fn test_monthly_scan_range() {
    let (start, end) = monthly_scan_range(202509);
    assert_eq!(start, "M202509");
    assert_eq!(end, "M202510");
}

#[test]
fn test_tournament_scan_range() {
    let (start, end) = tournament_scan_range("tokyo_bay_cup");
    assert_eq!(start, "Ttokyo_bay_cup\x00");
    assert_eq!(end, "Ttokyo_bay_cup\x01");
}

#[test]
fn test_generate_tournament_id() {
    let id = generate_tournament_id("平和島", "トーキョー・ベイ・カップ");
    assert!(!id.contains("平"));
    assert!(!id.contains("島"));
    assert!(!id.contains("ト"));
    assert!(!id.contains("ー"));
    assert_eq!(id, "venue_9_event_36");
}

#[test]
fn test_generate_tournament_id_ascii() {
    let id = generate_tournament_id("Tokyo", "Bay Cup 2025");
    assert_eq!(id, "tokyo_bay_cup_2025");
}

#[test]
fn test_generate_tournament_id_mixed_fallback() {
    // One side keeps a usable ASCII fragment, the other falls back to its
    // byte length: three characters of three UTF-8 bytes each make nine.
    let id = generate_tournament_id("Tokyo", "平和島");
    assert_eq!(id, "tokyo_event_9");
}

#[test]
fn test_generate_tournament_id_collapses_underscores() {
    let id = generate_tournament_id("  Edo   Bay ", " Cup  2025 ");
    assert_eq!(id, "edo_bay_cup_2025");
}

#[test]
fn test_generate_tournament_id_fragment_boundary() {
    // a three-character fragment is kept, a two-character one falls back
    assert_eq!(generate_tournament_id("abc", "de"), "abc_event_2");
    assert_eq!(generate_tournament_id("ab", "cde"), "venue_2_cde");
}

#[test]
fn test_monthly_scan_range_december() {
    // The upper bound of a December range is the tag of an impossible
    // month: never a real key, but sortably greater than all of them.
    let (start, end) = monthly_scan_range(202512);
    assert_eq!(start, "M202512");
    assert_eq!(end, "M202513");
    let key = monthly_key(202512, "year_end_cup");
    assert!(start.as_str() <= key.as_str());
    assert!(key.as_str() < end.as_str());
}
