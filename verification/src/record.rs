//! The persisted occupancy record and its mathematical image.

use vstd::prelude::*;

verus! {

/// Sentinel controller value meaning "no one controls the station".
pub open spec fn bot() -> Seq<char> {
    "BOT"@
}

/// One occupancy event: as of instant `date` (Unix seconds, UTC), `station`
/// on `server` became controlled by `player` (`"BOT"` meaning uncontrolled).
/// Records are only ever appended by the reconciliation engine and deleted
/// by the retention sweep; they are never updated.
#[derive(Debug, Clone, PartialEq)]
pub struct Log {
    pub server: String,
    pub station: String,
    pub player: String,
    pub date: i64,
}

/// Mathematical image of a [`Log`] record.
#[verifier::ext_equal]
pub ghost struct LogV {
    pub server: Seq<char>,
    pub station: Seq<char>,
    pub player: Seq<char>,
    pub date: int,
}

impl View for Log {
    type V = LogV;

    open spec fn view(&self) -> LogV {
        LogV {
            server: self.server@,
            station: self.station@,
            player: self.player@,
            date: self.date as int,
        }
    }
}

/// The BOT sentinel as a string value.
pub fn bot_string() -> (r: String)
    ensures
        r@ == bot(),
{
    "BOT".to_owned()
}

impl Log {
    /// An exact copy of the record.
    pub fn duplicate(&self) -> (r: Log)
        ensures
            r@ == self@,
    {
        Log {
            server: self.server.clone(),
            station: self.station.clone(),
            player: self.player.clone(),
            date: self.date,
        }
    }
}

} // verus!
