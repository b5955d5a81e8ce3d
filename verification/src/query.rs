//! The read-only query surface served to the API layer: every server that
//! ever logged an event, and one server's full ordered history.

use vstd::prelude::*;
use crate::record::Log;
use crate::store::{
    has_server, lemma_has_server_iff_history, listed, server_history, sorted_log, views, LogStore,
};

verus! {

/// Every server that has ever produced a record, once each.  The order is
/// first appearance, which is stable but carries no meaning.
pub fn list_servers(store: &LogStore) -> (r: Vec<String>)
    ensures
        forall|i: int, j: int| 0 <= i < j < r@.len() ==> (#[trigger] r@[i])@ != (#[trigger] r@[j])@,
        forall|i: int| 0 <= i < r@.len() ==> has_server(store@, (#[trigger] r@[i])@),
        forall|k: int| 0 <= k < store@.len() ==> listed(r@, (#[trigger] store@[k]).server),
{
    store.distinct_servers()
}

/// One server's full history, ordered by station then timestamp.  A server
/// never logged yields an empty sequence, not an error.
pub fn list_log(store: &LogStore, server: &String) -> (r: Vec<Log>)
    ensures
        sorted_log(views(r@)),
        views(r@).to_multiset() == server_history(store@, server@).to_multiset(),
        server_history(store@, server@).len() == 0 ==> r@.len() == 0,
{
    broadcast use crate::store::lemma_views_len;

    let r = store.records_for(server);
    proof {
        views(r@).to_multiset_ensures();
        server_history(store@, server@).to_multiset_ensures();
    }
    r
}

/// Law (server listing): a listing with the shape `list_servers` guarantees
/// carries a server code exactly when that server's history is non-empty.
pub proof fn lemma_server_listing(s: Seq<crate::record::LogV>, names: Seq<String>)
    requires
        forall|i: int| 0 <= i < names.len() ==> has_server(s, (#[trigger] names[i])@),
        forall|k: int| 0 <= k < s.len() ==> listed(names, (#[trigger] s[k]).server),
    ensures
        forall|sv: Seq<char>| #[trigger] listed(names, sv) <==> server_history(s, sv).len() > 0,
{
    assert forall|sv: Seq<char>| #[trigger] listed(names, sv) <==> server_history(s, sv).len()
        > 0 by {
        lemma_has_server_iff_history(s, sv);
        if listed(names, sv) {
            let i = choose|i: int| 0 <= i < names.len() && (#[trigger] names[i])@ == sv;
            assert(has_server(s, names[i]@));
        }
        if server_history(s, sv).len() > 0 {
            let k = choose|k: int| 0 <= k < s.len() && (#[trigger] s[k]).server == sv;
            assert(listed(names, s[k].server));
        }
    }
}

} // verus!
