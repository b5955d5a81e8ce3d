use dispatch_log::engine::{run_cycle, ServerObservation, RETENTION_SECS};
use dispatch_log::query::{list_log, list_servers};
use dispatch_log::record::Log;
use dispatch_log::store::LogStore;
use dispatch_log::world::{Player, Station};

fn station(prefix: &str, dispatchers: &[&str]) -> Station {
    Station {
        name: format!("{prefix} station"),
        prefix: prefix.to_string(),
        dispatched_by: dispatchers
            .iter()
            .map(|d| Player { steam_id: d.to_string() })
            .collect(),
    }
}

fn observation(server: &str, stations: Vec<Station>) -> ServerObservation {
    ServerObservation { server_code: server.to_string(), stations }
}

#[test]
fn scenario_dispatcher_comes_and_goes() {
    let mut store = LogStore::new();
    // Poll 1: station KO has no dispatcher; nothing must be logged.
    run_cycle(&mut store, &vec![observation("en1", vec![station("KO", &[])])], 1000);
    assert_eq!(store.records().len(), 0);

    // Poll 2: KO is now dispatched by 765000; one record appears.
    run_cycle(&mut store, &vec![observation("en1", vec![station("KO", &["765000"])])], 1005);
    assert_eq!(store.records().len(), 1);

    // Poll 3: same dispatcher; still one record.
    run_cycle(&mut store, &vec![observation("en1", vec![station("KO", &["765000"])])], 1010);
    assert_eq!(store.records().len(), 1);

    // Poll 4: the dispatcher leaves; a BOT record is appended.
    run_cycle(&mut store, &vec![observation("en1", vec![station("KO", &[])])], 1015);
    let log = list_log(&store, &"en1".to_string());
    assert_eq!(log.len(), 2);
    assert_eq!(
        log[0],
        Log {
            server: "en1".to_string(),
            station: "KO".to_string(),
            player: "765000".to_string(),
            date: 1005,
        }
    );
    assert_eq!(
        log[1],
        Log {
            server: "en1".to_string(),
            station: "KO".to_string(),
            player: "BOT".to_string(),
            date: 1015,
        }
    );
}

#[test]
fn unchanged_controller_writes_nothing() {
    let mut store = LogStore::new();
    let obs = || vec![observation("de1", vec![station("BW", &["111"])])];
    run_cycle(&mut store, &obs(), 50);
    let before = list_log(&store, &"de1".to_string()).len();
    run_cycle(&mut store, &obs(), 55);
    let after = list_log(&store, &"de1".to_string()).len();
    assert_eq!(before, 1);
    assert_eq!(after, before);
}

#[test]
fn change_from_bot_appends_exactly_one_record() {
    let mut store = LogStore::new();
    run_cycle(&mut store, &vec![observation("en1", vec![station("KO", &["42"])])], 100);
    run_cycle(&mut store, &vec![observation("en1", vec![station("KO", &[])])], 105);
    // Previously logged as BOT (uncontrolled), now controlled by P1.
    run_cycle(&mut store, &vec![observation("en1", vec![station("KO", &["P1"])])], 110);
    let log = list_log(&store, &"en1".to_string());
    assert_eq!(log.len(), 3);
    assert_eq!(log[2].player, "P1");
    assert!(log[2].date >= log[1].date);
}

#[test]
fn first_observation_uncontrolled_is_suppressed() {
    let mut store = LogStore::new();
    run_cycle(
        &mut store,
        &vec![observation("en3", vec![station("LZ", &[]), station("WR", &[])])],
        7,
    );
    assert_eq!(store.records().len(), 0);
    assert!(list_servers(&store).is_empty());
}

#[test]
fn first_observation_controlled_is_logged() {
    let mut store = LogStore::new();
    run_cycle(&mut store, &vec![observation("en3", vec![station("LZ", &["900"])])], 7);
    let log = list_log(&store, &"en3".to_string());
    assert_eq!(log.len(), 1);
    assert_eq!(log[0].player, "900");
    assert_eq!(log[0].station, "LZ");
    assert_eq!(log[0].date, 7);
}

#[test]
fn only_first_dispatcher_counts() {
    let mut store = LogStore::new();
    run_cycle(&mut store, &vec![observation("en1", vec![station("KO", &["first", "second"])])], 3);
    let log = list_log(&store, &"en1".to_string());
    assert_eq!(log.len(), 1);
    assert_eq!(log[0].player, "first");
}

#[test]
fn failed_fetch_cycle_still_prunes_and_loop_goes_on() {
    let mut store = LogStore::new();
    let t0: i64 = 1_700_000_000;
    run_cycle(&mut store, &vec![observation("en1", vec![station("KO", &["765000"])])], t0);
    assert_eq!(store.records().len(), 1);

    // A cycle whose upstream fetch failed entirely passes no observations;
    // the retention sweep must still run.
    let later = t0 + RETENTION_SECS + 1;
    run_cycle(&mut store, &vec![], later);
    assert_eq!(store.records().len(), 0);

    // The loop keeps working on the next tick.
    run_cycle(&mut store, &vec![observation("en1", vec![station("KO", &["765000"])])], later + 5);
    assert_eq!(store.records().len(), 1);
}

#[test]
fn one_failed_server_does_not_stop_the_others() {
    let mut store = LogStore::new();
    // Server de1's station fetch failed this cycle, so it simply is not in
    // the observation list; en1 is still reconciled.
    run_cycle(&mut store, &vec![observation("en1", vec![station("KO", &["1"])])], 10);
    let servers = list_servers(&store);
    assert_eq!(servers, vec!["en1".to_string()]);
}
