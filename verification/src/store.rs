//! The append-only occupancy log store: insert, most recent record for a
//! key, distinct servers, one server's history ordered by station then time,
//! and the retention sweep.

use vstd::prelude::*;
use crate::order::{log_le, log_le_exec, lemma_log_le_total, lemma_log_le_transitive};
use crate::record::{Log, LogV};

verus! {

/// The mathematical image of a sequence of records.
pub open spec fn views(s: Seq<Log>) -> Seq<LogV> {
    s.map_values(|l: Log| l@)
}

/// `views` keeps the length.
pub broadcast proof fn lemma_views_len(s: Seq<Log>)
    ensures
        #[trigger] views(s).len() == s.len(),
{
}

/// `views` maps element-wise.
pub broadcast proof fn lemma_views_index(s: Seq<Log>, i: int)
    requires
        0 <= i < s.len(),
    ensures
        #[trigger] views(s)[i] == s[i]@,
{
}

/// Does record `l` belong to the key `(sv, st)`?
pub open spec fn matches_key(l: LogV, sv: Seq<char>, st: Seq<char>) -> bool {
    l.server == sv && l.station == st
}

/// The most recent record for `(sv, st)`: the last one in insertion order.
pub open spec fn latest_of(s: Seq<LogV>, sv: Seq<char>, st: Seq<char>) -> Option<LogV>
    decreases s.len(),
{
    if s.len() == 0 {
        None
    } else if matches_key(s.last(), sv, st) {
        Some(s.last())
    } else {
        latest_of(s.drop_last(), sv, st)
    }
}

/// All records of one server, in insertion order.
pub open spec fn server_history(s: Seq<LogV>, sv: Seq<char>) -> Seq<LogV> {
    s.filter(|l: LogV| l.server == sv)
}

/// All records of one `(server, station)` key, in insertion order.
pub open spec fn key_history(s: Seq<LogV>, sv: Seq<char>, st: Seq<char>) -> Seq<LogV> {
    s.filter(|l: LogV| matches_key(l, sv, st))
}

/// Has some record of server `sv` ever been inserted?
pub open spec fn has_server(s: Seq<LogV>, sv: Seq<char>) -> bool {
    exists|k: int| 0 <= k < s.len() && (#[trigger] s[k]).server == sv
}

/// Does the list of names carry `sv`?
pub open spec fn listed(names: Seq<String>, sv: Seq<char>) -> bool {
    exists|i: int| 0 <= i < names.len() && (#[trigger] names[i])@ == sv
}

/// Non-decreasing in the `(station, date)` order.
pub open spec fn sorted_log(s: Seq<LogV>) -> bool {
    forall|i: int, j: int| 0 <= i < j < s.len() ==> log_le(#[trigger] s[i], #[trigger] s[j])
}

/// Every record carries a timestamp at most `t`.
pub open spec fn dates_at_most(s: Seq<LogV>, t: int) -> bool {
    forall|i: int| 0 <= i < s.len() ==> (#[trigger] s[i]).date <= t
}

/// The records that survive a retention sweep with cutoff `cutoff`.
pub open spec fn kept_after(s: Seq<LogV>, cutoff: int) -> Seq<LogV> {
    s.filter(|l: LogV| l.date > cutoff)
}

/// One key's history is well formed: timestamps never decrease, and no two
/// consecutive records repeat the same player (the engine writes only on
/// change).
pub open spec fn wf_key_history(k: Seq<LogV>) -> bool {
    &&& forall|i: int, j: int| 0 <= i < j < k.len() ==> (#[trigger] k[i]).date <= (#[trigger] k[j]).date
    &&& forall|i: int, j: int|
        0 <= i < j < k.len() && j == i + 1 ==> (#[trigger] k[i]).player != (#[trigger] k[j]).player
}

/// The store invariant of the data model: every key's history is well formed.
pub open spec fn wf_log(s: Seq<LogV>) -> bool {
    forall|sv: Seq<char>, st: Seq<char>| #[trigger] wf_key_history(key_history(s, sv, st))
}

/// Filtering a prefix one element further keeps the filtered prefix and
/// appends the new element exactly when it satisfies the predicate.
pub proof fn lemma_filter_take_step<A>(s: Seq<A>, pred: spec_fn(A) -> bool, i: int)
    requires
        0 <= i < s.len(),
    ensures
        s.take(i + 1).filter(pred) == if pred(s[i]) {
            s.take(i).filter(pred).push(s[i])
        } else {
            s.take(i).filter(pred)
        },
{
    reveal(Seq::filter);
    assert(s.take(i + 1).drop_last() =~= s.take(i));
    assert(s.take(i + 1).last() == s[i]);
}

/// Inserting anywhere into a sequence adds exactly one copy to its multiset.
pub proof fn lemma_to_multiset_insert<A>(s: Seq<A>, i: int, x: A)
    requires
        0 <= i <= s.len(),
    ensures
        s.insert(i, x).to_multiset() == s.to_multiset().insert(x),
{
    broadcast use vstd::seq_lib::group_to_multiset_ensures;
    broadcast use vstd::multiset::group_multiset_axioms;

    let t = s.insert(i, x);
    assert(t.remove(i) =~= s);
    assert(t[i] == x);
    t.to_multiset_ensures();
    assert(t.remove(i).to_multiset() =~= t.to_multiset().remove(t[i]));
    assert(t.contains(x));
    assert(t.to_multiset().count(x) > 0);
    assert(t.to_multiset() =~= s.to_multiset().insert(x));
}

/// Filtering twice is filtering by the conjunction.
proof fn lemma_filter_compose<A>(s: Seq<A>, p: spec_fn(A) -> bool, q: spec_fn(A) -> bool)
    ensures
        s.filter(p).filter(q) == s.filter(|x: A| p(x) && q(x)),
    decreases s.len(),
{
    reveal(Seq::filter);
    if s.len() > 0 {
        lemma_filter_compose(s.drop_last(), p, q);
        let sub = s.drop_last();
        if p(s.last()) {
            assert(s.filter(p) == sub.filter(p).push(s.last()));
            assert(s.filter(p).drop_last() =~= sub.filter(p));
        }
    }
}

/// Predicates that agree everywhere filter alike.
proof fn lemma_filter_ext<A>(s: Seq<A>, p: spec_fn(A) -> bool, q: spec_fn(A) -> bool)
    requires
        forall|x: A| #[trigger] p(x) == #[trigger] q(x),
    ensures
        s.filter(p) == s.filter(q),
    decreases s.len(),
{
    reveal(Seq::filter);
    if s.len() > 0 {
        lemma_filter_ext(s.drop_last(), p, q);
    }
}

/// A predicate true of every element filters to the sequence itself.
proof fn lemma_filter_all<A>(s: Seq<A>, p: spec_fn(A) -> bool)
    requires
        forall|i: int| 0 <= i < s.len() ==> p(#[trigger] s[i]),
    ensures
        s.filter(p) == s,
    decreases s.len(),
{
    reveal(Seq::filter);
    if s.len() > 0 {
        assert(forall|i: int| 0 <= i < s.drop_last().len() ==> p(#[trigger] s.drop_last()[i]));
        lemma_filter_all(s.drop_last(), p);
        assert(s.filter(p) =~= s);
    }
}

/// On a sequence whose dates never decrease, keeping the records past a
/// cutoff keeps a suffix: the swept records form a prefix.
proof fn lemma_date_filter_is_suffix(k: Seq<LogV>, c: int)
    requires
        forall|i: int, j: int| 0 <= i < j < k.len() ==> (#[trigger] k[i]).date <= (#[trigger] k[j]).date,
    ensures
        exists|m: int| 0 <= m <= k.len() && k.filter(|l: LogV| l.date > c) == k.skip(m),
    decreases k.len(),
{
    reveal_with_fuel(Seq::filter, 2);
    let p = |l: LogV| l.date > c;
    if k.len() == 0 {
        assert(k.filter(p) =~= k.skip(0));
        assert(0 <= 0 <= k.len() && k.filter(p) == k.skip(0));
    } else if k[0].date > c {
        lemma_filter_all(k, p);
        assert(k.skip(0) =~= k);
        assert(0 <= 0 <= k.len() && k.filter(p) == k.skip(0));
    } else {
        let rest = k.skip(1);
        assert(k =~= seq![k[0]] + rest);
        Seq::filter_distributes_over_add(seq![k[0]], rest, p);
        assert(seq![k[0]].filter(p) =~= Seq::<LogV>::empty());
        assert(k.filter(p) =~= rest.filter(p));
        assert forall|i: int, j: int| 0 <= i < j < rest.len() implies (#[trigger] rest[i]).date
            <= (#[trigger] rest[j]).date by {
            assert(k[i + 1].date <= k[j + 1].date);
        }
        lemma_date_filter_is_suffix(rest, c);
        let m = choose|m: int| 0 <= m <= rest.len() && rest.filter(p) == rest.skip(m);
        assert(rest.skip(m) =~= k.skip(m + 1));
        assert(0 <= m + 1 <= k.len() && k.filter(p) == k.skip(m + 1));
    }
}

/// Law (retention keeps the invariant): sweeping old records preserves a
/// well-formed log.  Per key the sweep removes a prefix of the history, so
/// timestamps stay non-decreasing and consecutive players still differ.
pub proof fn lemma_prune_preserves_wf(s: Seq<LogV>, cutoff: int)
    requires
        wf_log(s),
    ensures
        wf_log(kept_after(s, cutoff)),
{
    let date_ok = |l: LogV| l.date > cutoff;
    assert forall|sv: Seq<char>, st: Seq<char>| #[trigger] wf_key_history(
        key_history(kept_after(s, cutoff), sv, st),
    ) by {
        let key_ok = |l: LogV| matches_key(l, sv, st);
        let both = |l: LogV| date_ok(l) && key_ok(l);
        lemma_filter_compose(s, date_ok, key_ok);
        lemma_filter_compose(s, key_ok, date_ok);
        lemma_filter_ext(s, both, |l: LogV| key_ok(l) && date_ok(l));
        assert(key_history(kept_after(s, cutoff), sv, st) == key_history(s, sv, st).filter(
            date_ok,
        ));
        let k = key_history(s, sv, st);
        assert(wf_key_history(k));
        lemma_date_filter_is_suffix(k, cutoff);
        let m = choose|m: int| 0 <= m <= k.len() && k.filter(date_ok) == k.skip(m);
        let k2 = k.skip(m);
        assert forall|i: int, j: int| 0 <= i < j < k2.len() implies (#[trigger] k2[i]).date <= (
        #[trigger] k2[j]).date by {
            assert(k[i + m].date <= k[j + m].date);
        }
        assert forall|i: int, j: int| 0 <= i < j < k2.len() && j == i + 1 implies (
        #[trigger] k2[i]).player != (#[trigger] k2[j]).player by {
            assert(k[i + m].player != k[j + m].player);
        }
    }
}

/// Law (retention): after a sweep with cutoff `cutoff`, no record with
/// `date <= cutoff` remains, every newer record survives, and nothing new
/// appears.
pub proof fn lemma_retention(s: Seq<LogV>, cutoff: int)
    ensures
        forall|i: int|
            0 <= i < kept_after(s, cutoff).len() ==> (#[trigger] kept_after(s, cutoff)[i]).date
                > cutoff,
        forall|i: int|
            0 <= i < kept_after(s, cutoff).len() ==> s.contains(#[trigger] kept_after(s, cutoff)[i]),
        forall|k: int|
            0 <= k < s.len() && (#[trigger] s[k]).date > cutoff ==> kept_after(s, cutoff).contains(
                s[k],
            ),
{
    broadcast use vstd::seq_lib::group_filter_ensures;

    let kept = kept_after(s, cutoff);
    assert forall|i: int| 0 <= i < kept.len() implies s.contains(#[trigger] kept[i]) by {
        s.lemma_filter_contains_rev(|l: LogV| l.date > cutoff, kept[i]);
    }
}

/// The most recent record for a key is the last element of that key's
/// history, if there is any.
pub proof fn lemma_latest_is_history_last(s: Seq<LogV>, sv: Seq<char>, st: Seq<char>)
    ensures
        latest_of(s, sv, st) == if key_history(s, sv, st).len() > 0 {
            Some(key_history(s, sv, st).last())
        } else {
            None::<LogV>
        },
    decreases s.len(),
{
    reveal(Seq::filter);
    if s.len() > 0 {
        lemma_latest_is_history_last(s.drop_last(), sv, st);
    }
}

/// A most recent record, when there is one, lies in the store and belongs to
/// the key.
pub proof fn lemma_latest_in(s: Seq<LogV>, sv: Seq<char>, st: Seq<char>)
    requires
        latest_of(s, sv, st) is Some,
    ensures
        s.contains(latest_of(s, sv, st)->Some_0),
        matches_key(latest_of(s, sv, st)->Some_0, sv, st),
    decreases s.len(),
{
    if matches_key(s.last(), sv, st) {
        assert(s[s.len() - 1] == s.last());
    } else {
        lemma_latest_in(s.drop_last(), sv, st);
        let l = latest_of(s, sv, st)->Some_0;
        let k = choose|k: int| 0 <= k < s.drop_last().len() && s.drop_last()[k] == l;
        assert(s[k] == l);
    }
}

/// A server appears in some record exactly when its history is non-empty.
pub proof fn lemma_has_server_iff_history(s: Seq<LogV>, sv: Seq<char>)
    ensures
        has_server(s, sv) <==> server_history(s, sv).len() > 0,
{
    broadcast use vstd::seq_lib::group_filter_ensures;

    let h = server_history(s, sv);
    if has_server(s, sv) {
        let k = choose|k: int| 0 <= k < s.len() && (#[trigger] s[k]).server == sv;
        assert(h.contains(s[k]));
    }
    if h.len() > 0 {
        assert(h.contains(h[0]));
        s.lemma_filter_contains_rev(|l: LogV| l.server == sv, h[0]);
        let k = choose|k: int| 0 <= k < s.len() && s[k] == h[0];
        assert(s[k].server == sv);
    }
}

/// The append-only occupancy log.  Its view is the sequence of record
/// images in insertion order.
pub struct LogStore {
    records: Vec<Log>,
}

impl View for LogStore {
    type V = Seq<LogV>;

    closed spec fn view(&self) -> Seq<LogV> {
        views(self.records@)
    }
}

impl LogStore {
    /// An empty log.
    pub fn new() -> (r: LogStore)
        ensures
            r@ == Seq::<LogV>::empty(),
    {
        let r = LogStore { records: Vec::new() };
        proof {
            assert(r@ =~= Seq::<LogV>::empty());
        }
        r
    }

    /// Appends one record.  No deduplication happens at this layer.
    pub fn insert(&mut self, rec: Log)
        ensures
            final(self)@ == old(self)@.push(rec@),
    {
        let ghost s0 = self@;
        let ghost r = rec@;
        self.records.push(rec);
        proof {
            assert(self@ =~= s0.push(r));
        }
    }

    /// The records in insertion order.
    pub fn records(&self) -> (r: &Vec<Log>)
        ensures
            views(r@) == self@,
    {
        &self.records
    }

    /// The most recent record for `(server, station)`, or `None` if the key
    /// was never logged.
    #[verifier::loop_isolation(false)]
    pub fn latest_for(&self, server: &String, station: &String) -> (r: Option<Log>)
        ensures
            match r {
                Some(l) => latest_of(self@, server@, station@) == Some(l@),
                None => latest_of(self@, server@, station@) is None,
            },
    {
        let ghost s = self@;
        let n = self.records.len();
        let mut found: Option<Log> = None;
        let mut i: usize = 0;
        while i < n
            invariant
                n == self.records.len(),
                i <= n,
                s == self@,
                match found {
                    Some(l) => latest_of(s.take(i as int), server@, station@) == Some(l@),
                    None => latest_of(s.take(i as int), server@, station@) is None,
                },
            decreases n - i,
        {
            proof {
                assert(s.take(i + 1).drop_last() =~= s.take(i as int));
                assert(s.take(i + 1).last() == s[i as int]);
            }
            let rec = &self.records[i];
            if rec.server.eq(server) && rec.station.eq(station) {
                found = Some(rec.duplicate());
            }
            i = i + 1;
        }
        proof {
            assert(s.take(n as int) =~= s);
        }
        found
    }

    /// Removes every record with `date <= cutoff`; newer records survive in
    /// their original order.
    #[verifier::loop_isolation(false)]
    pub fn delete_older_than(&mut self, cutoff: i64)
        ensures
            final(self)@ == kept_after(old(self)@, cutoff as int),
    {
        broadcast use lemma_views_len, lemma_views_index;

        let ghost s = old(self)@;
        let ghost pred = |l: LogV| l.date > cutoff as int;
        let n = self.records.len();
        let mut kept: Vec<Log> = Vec::new();
        let mut i: usize = 0;
        while i < n
            invariant
                *self == *old(self),
                n == self.records.len(),
                i <= n,
                views(kept@) == s.take(i as int).filter(pred),
            decreases n - i,
        {
            proof {
                lemma_filter_take_step(s, pred, i as int);
            }
            let rec = &self.records[i];
            if rec.date > cutoff {
                let ghost k0 = views(kept@);
                kept.push(rec.duplicate());
                proof {
                    assert(views(kept@) =~= k0.push(s[i as int]));
                }
            }
            i = i + 1;
        }
        proof {
            assert(s.take(n as int) =~= s);
        }
        self.records = kept;
    }

    /// Every server that has ever produced a record, once each, in first
    /// appearance order.
    #[verifier::loop_isolation(false)]
    pub fn distinct_servers(&self) -> (r: Vec<String>)
        ensures
            forall|i: int, j: int| 0 <= i < j < r@.len() ==> (#[trigger] r@[i])@ != (#[trigger] r@[j])@,
            forall|i: int| 0 <= i < r@.len() ==> has_server(self@, (#[trigger] r@[i])@),
            forall|k: int| 0 <= k < self@.len() ==> listed(r@, (#[trigger] self@[k]).server),
    {
        broadcast use lemma_views_len, lemma_views_index;

        let ghost s = self@;
        let n = self.records.len();
        let mut out: Vec<String> = Vec::new();
        let mut i: usize = 0;
        while i < n
            invariant
                n == self.records.len(),
                s == self@,
                i <= n,
                forall|a: int, b: int|
                    0 <= a < b < out@.len() ==> (#[trigger] out@[a])@ != (#[trigger] out@[b])@,
                forall|a: int| 0 <= a < out@.len() ==> has_server(s, (#[trigger] out@[a])@),
                forall|k: int| 0 <= k < i ==> listed(out@, (#[trigger] s[k]).server),
            decreases n - i,
        {
            let rec = &self.records[i];
            let mut present = false;
            let m = out.len();
            let mut j: usize = 0;
            while j < m
                invariant
                    m == out.len(),
                    j <= m,
                    present <==> exists|a: int| 0 <= a < j && (#[trigger] out@[a])@ == rec.server@,
                decreases m - j,
            {
                if out[j].eq(&rec.server) {
                    present = true;
                }
                j = j + 1;
            }
            if !present {
                let ghost o0 = out@;
                out.push(rec.server.clone());
                proof {
                    assert(out@[o0.len() as int]@ == s[i as int].server);
                    assert(forall|a: int| 0 <= a < o0.len() ==> out@[a] == o0[a]);
                }
            }
            proof {
                assert(s[i as int].server == rec.server@);
                assert(listed(out@, s[i as int].server));
            }
            i = i + 1;
        }
        out
    }

    /// One server's full history, ordered by station (code-point
    /// lexicographic) ascending, then timestamp ascending.  The records are
    /// exactly those of `server_history`, as a multiset.
    #[verifier::loop_isolation(false)]
    pub fn records_for(&self, server: &String) -> (r: Vec<Log>)
        ensures
            sorted_log(views(r@)),
            views(r@).to_multiset() == server_history(self@, server@).to_multiset(),
    {
        broadcast use vstd::seq_lib::group_to_multiset_ensures;
        broadcast use lemma_views_len, lemma_views_index;

        let ghost s = self@;
        let ghost pred = |l: LogV| l.server == server@;
        let n = self.records.len();
        let mut out: Vec<Log> = Vec::new();
        let mut i: usize = 0;
        while i < n
            invariant
                n == self.records.len(),
                s == self@,
                i <= n,
                sorted_log(views(out@)),
                views(out@).to_multiset() == s.take(i as int).filter(pred).to_multiset(),
            decreases n - i,
        {
            proof {
                lemma_filter_take_step(s, pred, i as int);
            }
            let rec = &self.records[i];
            if rec.server.eq(server) {
                insert_sorted(&mut out, rec.duplicate());
                proof {
                    s.take(i as int).filter(pred).to_multiset_ensures();
                }
            }
            i = i + 1;
        }
        proof {
            assert(s.take(n as int) =~= s);
        }
        out
    }
}

/// Inserts `rec` into a `(station, date)`-sorted vector, keeping it sorted.
#[verifier::loop_isolation(false)]
fn insert_sorted(out: &mut Vec<Log>, rec: Log)
    requires
        sorted_log(views(old(out)@)),
    ensures
        sorted_log(views(final(out)@)),
        views(final(out)@).to_multiset() == views(old(out)@).to_multiset().insert(rec@),
{
    broadcast use lemma_views_len, lemma_views_index;

    let ghost v0 = views(old(out)@);
    let ghost r = rec@;
    let n = out.len();
    let mut idx: usize = 0;
    let mut searching = true;
    while searching
        invariant
            idx <= n,
            forall|j: int| 0 <= j < idx ==> log_le(#[trigger] v0[j], r),
            !searching ==> (idx == n || !log_le(v0[idx as int], r)),
        decreases n - idx + (if searching { 1int } else { 0int }),
    {
        if idx >= n {
            searching = false;
        } else if !log_le_exec(&out[idx], &rec) {
            searching = false;
        } else {
            idx = idx + 1;
        }
    }
    proof {
        if idx < n {
            lemma_log_le_total(v0[idx as int], r);
        }
        assert forall|j: int| idx <= j < n implies log_le(r, #[trigger] v0[j]) by {
            if j > idx {
                lemma_log_le_transitive(r, v0[idx as int], v0[j]);
            }
        }
    }
    out.insert(idx, rec);
    proof {
        assert(out@ == old(out)@.insert(idx as int, rec));
        old(out)@.insert_ensures(idx as int, rec);
        v0.insert_ensures(idx as int, r);
        assert(views(out@) =~= v0.insert(idx as int, r)) by {
            assert forall|k: int| 0 <= k < out@.len() implies views(out@)[k] == v0.insert(
                idx as int,
                r,
            )[k] by {
                if k < idx {
                    assert(out@[k] == old(out)@[k]);
                } else if k == idx {
                    assert(out@[k] == rec);
                } else {
                    assert(out@[k] == old(out)@[k - 1]);
                }
            }
        }
        let vnew = views(out@);
        assert forall|i: int, j: int| 0 <= i < j < vnew.len() implies log_le(
            #[trigger] vnew[i],
            #[trigger] vnew[j],
        ) by {
            if j < idx {
            } else if i < idx && j == idx {
                assert(log_le(v0[i], r));
            } else if i < idx && j > idx {
                assert(log_le(v0[i], v0[j - 1]));
            } else if i == idx {
                assert(log_le(r, v0[j - 1]));
            } else {
                assert(log_le(v0[i - 1], v0[j - 1]));
            }
        }
        lemma_to_multiset_insert(v0, idx as int, r);
    }
}

} // verus!
