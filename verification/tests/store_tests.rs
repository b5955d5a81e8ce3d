use dispatch_log::query::{list_log, list_servers};
use dispatch_log::record::Log;
use dispatch_log::store::LogStore;

fn rec(server: &str, station: &str, player: &str, date: i64) -> Log {
    Log {
        server: server.to_string(),
        station: station.to_string(),
        player: player.to_string(),
        date,
    }
}

#[test]
fn retention_removes_old_and_keeps_new() {
    let mut store = LogStore::new();
    store.insert(rec("en1", "KO", "1", 100));
    store.insert(rec("en1", "LZ", "2", 200));
    store.insert(rec("en1", "KO", "BOT", 300));
    store.insert(rec("de1", "BW", "3", 400));
    store.delete_older_than(200);
    let remaining = store.records();
    assert_eq!(remaining.len(), 2);
    assert!(remaining.iter().all(|l| l.date > 200));
    assert_eq!(remaining[0], rec("en1", "KO", "BOT", 300));
    assert_eq!(remaining[1], rec("de1", "BW", "3", 400));
}

#[test]
fn retention_cutoff_is_inclusive() {
    let mut store = LogStore::new();
    store.insert(rec("en1", "KO", "1", 100));
    store.delete_older_than(100);
    assert_eq!(store.records().len(), 0);
}

#[test]
fn history_is_ordered_by_station_then_date() {
    let mut store = LogStore::new();
    store.insert(rec("en1", "WR", "5", 10));
    store.insert(rec("en1", "KO", "1", 30));
    store.insert(rec("en1", "LZ", "9", 20));
    store.insert(rec("en1", "KO", "BOT", 40));
    store.insert(rec("de1", "AA", "7", 5));
    let log = list_log(&store, &"en1".to_string());
    assert_eq!(log.len(), 4);
    assert_eq!(log[0], rec("en1", "KO", "1", 30));
    assert_eq!(log[1], rec("en1", "KO", "BOT", 40));
    assert_eq!(log[2], rec("en1", "LZ", "9", 20));
    assert_eq!(log[3], rec("en1", "WR", "5", 10));
}

#[test]
fn unknown_server_yields_empty_history() {
    let mut store = LogStore::new();
    store.insert(rec("en1", "KO", "1", 30));
    assert!(list_log(&store, &"does-not-exist".to_string()).is_empty());
    assert!(list_log(&LogStore::new(), &"en1".to_string()).is_empty());
}

#[test]
fn server_listing_matches_nonempty_histories() {
    let mut store = LogStore::new();
    store.insert(rec("en1", "KO", "1", 30));
    store.insert(rec("de1", "BW", "2", 10));
    store.insert(rec("en1", "LZ", "3", 40));
    let servers = list_servers(&store);
    assert_eq!(servers, vec!["en1".to_string(), "de1".to_string()]);
    for s in &servers {
        assert!(!list_log(&store, s).is_empty());
    }
    assert!(list_log(&store, &"fr1".to_string()).is_empty());
}

#[test]
fn latest_for_picks_the_last_record_of_the_key() {
    let mut store = LogStore::new();
    store.insert(rec("en1", "KO", "1", 10));
    store.insert(rec("en1", "LZ", "2", 20));
    store.insert(rec("en1", "KO", "BOT", 30));
    let last = store
        .latest_for(&"en1".to_string(), &"KO".to_string())
        .expect("key was logged");
    assert_eq!(last, rec("en1", "KO", "BOT", 30));
    assert!(store.latest_for(&"en1".to_string(), &"XX".to_string()).is_none());
    assert!(store.latest_for(&"de1".to_string(), &"KO".to_string()).is_none());
}

#[test]
fn store_does_not_deduplicate_by_itself() {
    let mut store = LogStore::new();
    store.insert(rec("en1", "KO", "1", 10));
    store.insert(rec("en1", "KO", "1", 10));
    assert_eq!(store.records().len(), 2);
}

#[test]
fn station_order_is_byte_lexicographic() {
    let mut store = LogStore::new();
    store.insert(rec("en1", "b", "1", 1));
    store.insert(rec("en1", "A", "2", 2));
    store.insert(rec("en1", "Ba", "3", 3));
    store.insert(rec("en1", "B", "4", 4));
    let log = list_log(&store, &"en1".to_string());
    let stations: Vec<&str> = log.iter().map(|l| l.station.as_str()).collect();
    assert_eq!(stations, vec!["A", "B", "Ba", "b"]);
}
