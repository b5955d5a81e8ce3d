//! The reconciliation engine: each cycle it compares every observed
//! station's controller against the last recorded one, appends a record only
//! on change, and then sweeps records past the retention window.  The sweep
//! runs even when the fetch produced nothing, so a failed cycle still prunes.

use vstd::prelude::*;
use crate::record::{bot, bot_string, Log, LogV};
use crate::store::{
    dates_at_most, kept_after, key_history, latest_of, lemma_latest_in,
    lemma_latest_is_history_last, lemma_prune_preserves_wf, lemma_retention, matches_key,
    wf_key_history, wf_log, LogStore,
};
use crate::world::{controller, station_views, Station, StationV};

verus! {

/// Seconds in the retention window: records this old or older are swept.
pub const RETENTION_SECS: i64 = 3 * 24 * 3600;

/// Seconds the engine sleeps between polling cycles.
pub const POLL_INTERVAL_SECS: u64 = 5;

/// The player recorded most recently for a key, or the BOT sentinel when
/// the key was never logged: an absent history reads as "uncontrolled".
pub open spec fn last_player(s: Seq<LogV>, sv: Seq<char>, st: Seq<char>) -> Seq<char> {
    match latest_of(s, sv, st) {
        Some(l) => l.player,
        None => bot(),
    }
}

/// One observation: append a record exactly when the observed controller
/// differs from the last recorded one.
pub open spec fn observe(
    s: Seq<LogV>,
    sv: Seq<char>,
    st: Seq<char>,
    actual: Seq<char>,
    now: int,
) -> Seq<LogV> {
    if actual == last_player(s, sv, st) {
        s
    } else {
        s.push(LogV { server: sv, station: st, player: actual, date: now })
    }
}

/// Observing all stations of one server, first to last.
pub open spec fn reconcile_stations(
    s: Seq<LogV>,
    sv: Seq<char>,
    stations: Seq<StationV>,
    now: int,
) -> Seq<LogV>
    decreases stations.len(),
{
    if stations.len() == 0 {
        s
    } else {
        reconcile_stations(
            observe(s, sv, stations[0].prefix, controller(stations[0].dispatched_by), now),
            sv,
            stations.skip(1),
            now,
        )
    }
}

/// One successfully fetched server together with its fetched stations.
/// Servers whose fetch failed simply do not appear in a cycle's list.
pub struct ServerObservation {
    pub server_code: String,
    pub stations: Vec<Station>,
}

/// Mathematical image of a [`ServerObservation`].
#[verifier::ext_equal]
pub ghost struct ServerObservationV {
    pub server_code: Seq<char>,
    pub stations: Seq<StationV>,
}

impl View for ServerObservation {
    type V = ServerObservationV;

    open spec fn view(&self) -> ServerObservationV {
        ServerObservationV {
            server_code: self.server_code@,
            stations: station_views(self.stations@),
        }
    }
}

/// The images of a sequence of observations.
pub open spec fn observation_views(s: Seq<ServerObservation>) -> Seq<ServerObservationV> {
    s.map_values(|x: ServerObservation| x@)
}

/// `observation_views` keeps the length.
pub broadcast proof fn lemma_observation_views_len(s: Seq<ServerObservation>)
    ensures
        #[trigger] observation_views(s).len() == s.len(),
{
}

/// `observation_views` maps element-wise.
pub broadcast proof fn lemma_observation_views_index(s: Seq<ServerObservation>, i: int)
    requires
        0 <= i < s.len(),
    ensures
        #[trigger] observation_views(s)[i] == s[i]@,
{
}

/// Reconciling every observed server of one cycle, first to last.
pub open spec fn reconcile_world(
    s: Seq<LogV>,
    obs: Seq<ServerObservationV>,
    now: int,
) -> Seq<LogV>
    decreases obs.len(),
{
    if obs.len() == 0 {
        s
    } else {
        reconcile_world(
            reconcile_stations(s, obs[0].server_code, obs[0].stations, now),
            obs.skip(1),
            now,
        )
    }
}

/// A full cycle: reconcile whatever was fetched, then sweep the retention
/// window.  An empty observation list (a failed upstream fetch) still
/// sweeps.
pub open spec fn cycle(
    s: Seq<LogV>,
    obs: Seq<ServerObservationV>,
    now: int,
    retention: int,
) -> Seq<LogV> {
    kept_after(reconcile_world(s, obs, now), now - retention)
}

/// Records one station's observed controller if it differs from the last
/// recorded one; otherwise leaves the log untouched.
pub fn observe_station(
    store: &mut LogStore,
    server: &String,
    station: &String,
    actual: &String,
    now: i64,
)
    ensures
        final(store)@ == observe(old(store)@, server@, station@, actual@, now as int),
{
    let last = store.latest_for(server, station);
    let changed = match &last {
        Some(l) => !l.player.eq(actual),
        None => !actual.eq(&bot_string()),
    };
    if changed {
        store.insert(
            Log {
                server: server.clone(),
                station: station.clone(),
                player: actual.clone(),
                date: now,
            },
        );
    }
}

/// Derives one station's controller and records it on change.
pub fn reconcile_station(store: &mut LogStore, server_code: &String, station: &Station, now: i64)
    ensures
        final(store)@ == observe(
            old(store)@,
            server_code@,
            station@.prefix,
            controller(station@.dispatched_by),
            now as int,
        ),
{
    let actual = station.controller_of();
    observe_station(store, server_code, &station.prefix, &actual, now);
}

/// Reconciles every station of one fetched server.
#[verifier::loop_isolation(false)]
pub fn reconcile_server(store: &mut LogStore, server_code: &String, stations: &Vec<Station>, now: i64)
    ensures
        final(store)@ == reconcile_stations(
            old(store)@,
            server_code@,
            station_views(stations@),
            now as int,
        ),
{
    broadcast use crate::world::lemma_station_views_len, crate::world::lemma_station_views_index;

    let ghost vs = station_views(stations@);
    let ghost goal = reconcile_stations(old(store)@, server_code@, vs, now as int);
    proof {
        assert(vs.skip(0) =~= vs);
    }
    let n = stations.len();
    let mut i: usize = 0;
    while i < n
        invariant
            i <= n,
            reconcile_stations(store@, server_code@, vs.skip(i as int), now as int) == goal,
        decreases n - i,
    {
        proof {
            assert(vs.skip(i as int)[0] == vs[i as int]);
            assert(vs.skip(i as int).skip(1) =~= vs.skip(i + 1));
        }
        reconcile_station(store, server_code, &stations[i], now);
        i = i + 1;
    }
    proof {
        assert(vs.skip(n as int) =~= Seq::<StationV>::empty());
    }
}

/// Runs one full reconciliation cycle over everything fetched this tick,
/// then sweeps records older than the retention window.  The sweep runs
/// unconditionally: a cycle whose fetches all failed passes an empty list
/// and still prunes.
#[verifier::loop_isolation(false)]
pub fn run_cycle(store: &mut LogStore, observations: &Vec<ServerObservation>, now: i64)
    requires
        now >= i64::MIN + RETENTION_SECS,
    ensures
        final(store)@ == cycle(
            old(store)@,
            observation_views(observations@),
            now as int,
            RETENTION_SECS as int,
        ),
{
    broadcast use lemma_observation_views_len, lemma_observation_views_index;

    let ghost obs = observation_views(observations@);
    let ghost goal = reconcile_world(old(store)@, obs, now as int);
    proof {
        assert(obs.skip(0) =~= obs);
    }
    let n = observations.len();
    let mut i: usize = 0;
    while i < n
        invariant
            i <= n,
            reconcile_world(store@, obs.skip(i as int), now as int) == goal,
        decreases n - i,
    {
        proof {
            assert(obs.skip(i as int)[0] == obs[i as int]);
            assert(obs.skip(i as int).skip(1) =~= obs.skip(i + 1));
        }
        let observation = &observations[i];
        reconcile_server(store, &observation.server_code, &observation.stations, now);
        i = i + 1;
    }
    proof {
        assert(obs.skip(n as int) =~= Seq::<ServerObservationV>::empty());
    }
    store.delete_older_than(now - RETENTION_SECS);
}

/// Law (no-op stability): when a station's controller is unchanged since
/// the last record, observing it writes nothing.
pub proof fn lemma_no_op_stability(
    s: Seq<LogV>,
    sv: Seq<char>,
    st: Seq<char>,
    actual: Seq<char>,
    now: int,
)
    requires
        actual == last_player(s, sv, st),
    ensures
        observe(s, sv, st, actual, now) == s,
{
}

/// Law (change detection): when the observed controller differs from the
/// last recorded one, exactly one record is appended — for that key, with
/// the observed player, timestamped `now`, no earlier than every record
/// already present, the previous one for the key included.
pub proof fn lemma_change_detection(
    s: Seq<LogV>,
    sv: Seq<char>,
    st: Seq<char>,
    actual: Seq<char>,
    now: int,
)
    requires
        actual != last_player(s, sv, st),
        dates_at_most(s, now),
    ensures
        observe(s, sv, st, actual, now) == s.push(
            LogV { server: sv, station: st, player: actual, date: now },
        ),
        key_history(observe(s, sv, st, actual, now), sv, st) == key_history(s, sv, st).push(
            LogV { server: sv, station: st, player: actual, date: now },
        ),
        latest_of(s, sv, st) is Some ==> latest_of(s, sv, st)->Some_0.date <= now,
{
    reveal(Seq::filter);
    let rec = LogV { server: sv, station: st, player: actual, date: now };
    let t = s.push(rec);
    assert(t.drop_last() =~= s);
    assert(t.last() == rec);
    if latest_of(s, sv, st) is Some {
        let l = latest_of(s, sv, st)->Some_0;
        lemma_latest_in(s, sv, st);
        let k = choose|k: int| 0 <= k < s.len() && s[k] == l;
        assert(s[k].date <= now);
    }
}

/// Law (first-observation suppression): a station never logged before,
/// first observed uncontrolled, produces no record.
pub proof fn lemma_first_observation(s: Seq<LogV>, sv: Seq<char>, st: Seq<char>, now: int)
    requires
        key_history(s, sv, st).len() == 0,
    ensures
        observe(s, sv, st, bot(), now) == s,
{
    lemma_latest_is_history_last(s, sv, st);
}

/// Law (data-model invariant): a well-formed log with timestamps at most
/// `now` stays well formed under one observation at `now` — per key the
/// timestamps still never decrease and no two consecutive records repeat a
/// player.
pub proof fn lemma_observe_preserves_wf(
    s: Seq<LogV>,
    sv: Seq<char>,
    st: Seq<char>,
    actual: Seq<char>,
    now: int,
)
    requires
        wf_log(s),
        dates_at_most(s, now),
    ensures
        wf_log(observe(s, sv, st, actual, now)),
        dates_at_most(observe(s, sv, st, actual, now), now),
{
    broadcast use vstd::seq_lib::group_filter_ensures;

    reveal(Seq::filter);
    if actual != last_player(s, sv, st) {
        let rec = LogV { server: sv, station: st, player: actual, date: now };
        let t = s.push(rec);
        assert(t.drop_last() =~= s);
        assert(t.last() == rec);
        assert forall|sv2: Seq<char>, st2: Seq<char>| #[trigger] wf_key_history(
            key_history(t, sv2, st2),
        ) by {
            let kh = key_history(s, sv2, st2);
            assert(wf_key_history(kh));
            if matches_key(rec, sv2, st2) {
                let k2 = key_history(t, sv2, st2);
                assert(k2 == kh.push(rec));
                assert forall|i: int| 0 <= i < kh.len() implies (#[trigger] kh[i]).date
                    <= now by {
                    s.lemma_filter_contains_rev(
                        |l: LogV| matches_key(l, sv2, st2),
                        kh[i],
                    );
                    let k = choose|k: int| 0 <= k < s.len() && s[k] == kh[i];
                    assert(s[k].date <= now);
                }
                lemma_latest_is_history_last(s, sv2, st2);
                assert forall|i: int, j: int|
                    0 <= i < j < k2.len() && j == i + 1 implies (#[trigger] k2[i]).player != (
                #[trigger] k2[j]).player by {
                    if j == k2.len() - 1 {
                        assert(k2[i] == kh[i]);
                        assert(kh[i] == kh.last());
                        assert(last_player(s, sv2, st2) == kh.last().player);
                    }
                }
            } else {
                assert(key_history(t, sv2, st2) == kh);
            }
        }
    }
}

/// Reconciling one server's stations keeps the data-model invariant and
/// writes no timestamp beyond `now`.
pub proof fn lemma_reconcile_stations_preserves_wf(
    s: Seq<LogV>,
    sv: Seq<char>,
    stations: Seq<StationV>,
    now: int,
)
    requires
        wf_log(s),
        dates_at_most(s, now),
    ensures
        wf_log(reconcile_stations(s, sv, stations, now)),
        dates_at_most(reconcile_stations(s, sv, stations, now), now),
    decreases stations.len(),
{
    if stations.len() > 0 {
        let st = stations[0];
        lemma_observe_preserves_wf(s, sv, st.prefix, controller(st.dispatched_by), now);
        lemma_reconcile_stations_preserves_wf(
            observe(s, sv, st.prefix, controller(st.dispatched_by), now),
            sv,
            stations.skip(1),
            now,
        );
    }
}

/// Reconciling a whole cycle's observations keeps the data-model invariant.
pub proof fn lemma_reconcile_world_preserves_wf(
    s: Seq<LogV>,
    obs: Seq<ServerObservationV>,
    now: int,
)
    requires
        wf_log(s),
        dates_at_most(s, now),
    ensures
        wf_log(reconcile_world(s, obs, now)),
        dates_at_most(reconcile_world(s, obs, now), now),
    decreases obs.len(),
{
    if obs.len() > 0 {
        lemma_reconcile_stations_preserves_wf(s, obs[0].server_code, obs[0].stations, now);
        lemma_reconcile_world_preserves_wf(
            reconcile_stations(s, obs[0].server_code, obs[0].stations, now),
            obs.skip(1),
            now,
        );
    }
}

/// Law (data-model invariant, whole cycle): a full cycle — reconciliation
/// followed by the retention sweep — keeps every key's history well formed,
/// and leaves no timestamp beyond `now`.
pub proof fn lemma_cycle_preserves_wf(
    s: Seq<LogV>,
    obs: Seq<ServerObservationV>,
    now: int,
    retention: int,
)
    requires
        wf_log(s),
        dates_at_most(s, now),
    ensures
        wf_log(cycle(s, obs, now, retention)),
        dates_at_most(cycle(s, obs, now, retention), now),
{
    lemma_reconcile_world_preserves_wf(s, obs, now);
    let t = reconcile_world(s, obs, now);
    lemma_prune_preserves_wf(t, now - retention);
    lemma_retention(t, now - retention);
    let kept = kept_after(t, now - retention);
    assert forall|i: int| 0 <= i < kept.len() implies (#[trigger] kept[i]).date <= now by {
        let k = choose|k: int| 0 <= k < t.len() && t[k] == kept[i];
        assert(t[k].date <= now);
    }
}

} // verus!
