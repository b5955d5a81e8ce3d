//! The transient world state as the upstream API reports it each cycle:
//! servers, stations and their dispatchers.  Nothing here is persisted; the
//! reconciliation engine reads it and writes occupancy records.

use vstd::prelude::*;
use crate::record::bot;

verus! {

/// A dispatching player, identified by steam id.
pub struct Player {
    pub steam_id: String,
}

/// A game server.  Only active servers are polled for stations.
pub struct Server {
    pub server_name: String,
    pub server_code: String,
    pub is_active: bool,
}

/// The upstream reply that carries the server list.
pub struct ServerResponse {
    pub result: bool,
    pub data: Vec<Server>,
}

/// A dispatch station.  The upstream reports a list of dispatchers; the
/// engine keeps only the first entry as the canonical controller.
pub struct Station {
    pub name: String,
    pub prefix: String,
    pub dispatched_by: Vec<Player>,
}

/// The upstream reply that carries one server's stations.
pub struct StationResponse {
    pub result: bool,
    pub data: Vec<Station>,
}

/// The steam profile reply: the players asked about.
pub struct SteamPlayers {
    pub players: Vec<SteamPlayer>,
}

/// One steam player with the profile entries found for it.
pub struct SteamPlayer {
    pub steam_id: String,
    pub steam_info: Vec<SteamInfo>,
}

/// One steam profile entry.
pub struct SteamInfo {
    pub personaname: String,
}

/// Mathematical image of a [`Server`].
#[verifier::ext_equal]
pub ghost struct ServerV {
    pub server_name: Seq<char>,
    pub server_code: Seq<char>,
    pub is_active: bool,
}

impl View for Server {
    type V = ServerV;

    open spec fn view(&self) -> ServerV {
        ServerV {
            server_name: self.server_name@,
            server_code: self.server_code@,
            is_active: self.is_active,
        }
    }
}

/// Mathematical image of a [`Station`]: its dispatchers are their steam ids.
#[verifier::ext_equal]
pub ghost struct StationV {
    pub name: Seq<char>,
    pub prefix: Seq<char>,
    pub dispatched_by: Seq<Seq<char>>,
}

impl View for Station {
    type V = StationV;

    open spec fn view(&self) -> StationV {
        StationV {
            name: self.name@,
            prefix: self.prefix@,
            dispatched_by: self.dispatched_by@.map_values(|p: Player| p.steam_id@),
        }
    }
}

/// The images of a sequence of servers.
pub open spec fn server_views(s: Seq<Server>) -> Seq<ServerV> {
    s.map_values(|x: Server| x@)
}

/// `server_views` keeps the length.
pub broadcast proof fn lemma_server_views_len(s: Seq<Server>)
    ensures
        #[trigger] server_views(s).len() == s.len(),
{
}

/// `server_views` maps element-wise.
pub broadcast proof fn lemma_server_views_index(s: Seq<Server>, i: int)
    requires
        0 <= i < s.len(),
    ensures
        #[trigger] server_views(s)[i] == s[i]@,
{
}

/// The images of a sequence of stations.
pub open spec fn station_views(s: Seq<Station>) -> Seq<StationV> {
    s.map_values(|x: Station| x@)
}

/// `station_views` keeps the length.
pub broadcast proof fn lemma_station_views_len(s: Seq<Station>)
    ensures
        #[trigger] station_views(s).len() == s.len(),
{
}

/// `station_views` maps element-wise.
pub broadcast proof fn lemma_station_views_index(s: Seq<Station>, i: int)
    requires
        0 <= i < s.len(),
    ensures
        #[trigger] station_views(s)[i] == s[i]@,
{
}

/// A station's controller: the first dispatcher, or the BOT sentinel when
/// no one dispatches.  The upstream models several simultaneous
/// dispatchers; only the first is kept, deliberately.
pub open spec fn controller(dispatched_by: Seq<Seq<char>>) -> Seq<char> {
    if dispatched_by.len() > 0 {
        dispatched_by[0]
    } else {
        bot()
    }
}

impl Station {
    /// The station's current controller as a string.
    pub fn controller_of(&self) -> (r: String)
        ensures
            r@ == controller(self@.dispatched_by),
    {
        if self.dispatched_by.len() > 0 {
            let p = &self.dispatched_by[0];
            proof {
                assert(self@.dispatched_by[0] == p.steam_id@);
            }
            p.steam_id.clone()
        } else {
            crate::record::bot_string()
        }
    }
}

impl Server {
    /// An exact copy of the server entry.
    pub fn duplicate(&self) -> (r: Server)
        ensures
            r@ == self@,
    {
        Server {
            server_name: self.server_name.clone(),
            server_code: self.server_code.clone(),
            is_active: self.is_active,
        }
    }
}

/// The servers worth polling: exactly the active ones, in order.  The
/// upstream list must be narrowed this way before stations are fetched.
#[verifier::loop_isolation(false)]
pub fn active_servers(servers: &Vec<Server>) -> (r: Vec<Server>)
    ensures
        server_views(r@) == server_views(servers@).filter(|s: ServerV| s.is_active),
{
    broadcast use lemma_server_views_len, lemma_server_views_index;

    let ghost s = server_views(servers@);
    let ghost pred = |x: ServerV| x.is_active;
    let n = servers.len();
    let mut out: Vec<Server> = Vec::new();
    let mut i: usize = 0;
    while i < n
        invariant
            i <= n,
            server_views(out@) == s.take(i as int).filter(pred),
        decreases n - i,
    {
        proof {
            crate::store::lemma_filter_take_step(s, pred, i as int);
        }
        let sv = &servers[i];
        if sv.is_active {
            let ghost o0 = server_views(out@);
            out.push(sv.duplicate());
            proof {
                assert(server_views(out@) =~= o0.push(s[i as int]));
            }
        }
        i = i + 1;
    }
    proof {
        assert(s.take(n as int) =~= s);
    }
    out
}

} // verus!
