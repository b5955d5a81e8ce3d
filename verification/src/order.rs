//! The order in which one server's history is served back: station name
//! (code-point-lexicographic) ascending, then timestamp ascending.

use vstd::prelude::*;
use crate::record::LogV;

verus! {

/// Strict code-point-lexicographic order on character sequences.
pub open spec fn lex_lt(a: Seq<char>, b: Seq<char>) -> bool
    decreases a.len(),
{
    if b.len() == 0 {
        false
    } else if a.len() == 0 {
        true
    } else if a[0] == b[0] {
        lex_lt(a.skip(1), b.skip(1))
    } else {
        (a[0] as u32) < (b[0] as u32)
    }
}

/// Non-strict order on records by `(station, date)`; `server` and `player`
/// do not take part, so this is a total preorder, not a total order.
pub open spec fn log_le(a: LogV, b: LogV) -> bool {
    if a.station == b.station {
        a.date <= b.date
    } else {
        lex_lt(a.station, b.station)
    }
}

pub proof fn lemma_lex_lt_trichotomy(a: Seq<char>, b: Seq<char>)
    ensures
        lex_lt(a, b) || lex_lt(b, a) || a == b,
    decreases a.len(),
{
    if b.len() == 0 || a.len() == 0 {
        if a.len() == 0 && b.len() == 0 {
            assert(a =~= b);
        }
    } else if a[0] == b[0] {
        lemma_lex_lt_trichotomy(a.skip(1), b.skip(1));
        if !lex_lt(a, b) && !lex_lt(b, a) {
            assert(a.skip(1) == b.skip(1));
            assert(a.len() == b.len());
            assert forall|j: int| 0 <= j < a.len() implies a[j] == b[j] by {
                if j > 0 {
                    assert(a.skip(1)[j - 1] == b.skip(1)[j - 1]);
                }
            }
            assert(a =~= b);
        }
    } else {
        if (a[0] as u32) == (b[0] as u32) {
            vstd::utf8::char_u32_cast(a[0], a[0] as u32);
            vstd::utf8::char_u32_cast(b[0], b[0] as u32);
        }
    }
}

pub proof fn lemma_lex_lt_irreflexive(a: Seq<char>)
    ensures
        !lex_lt(a, a),
    decreases a.len(),
{
    if a.len() > 0 {
        lemma_lex_lt_irreflexive(a.skip(1));
    }
}

pub proof fn lemma_lex_lt_transitive(a: Seq<char>, b: Seq<char>, c: Seq<char>)
    requires
        lex_lt(a, b),
        lex_lt(b, c),
    ensures
        lex_lt(a, c),
    decreases a.len(),
{
    if a.len() == 0 {
        assert(b.len() > 0 && c.len() > 0);
    } else {
        assert(b.len() > 0 && c.len() > 0);
        if a[0] == b[0] {
            if b[0] == c[0] {
                lemma_lex_lt_transitive(a.skip(1), b.skip(1), c.skip(1));
            }
        }
    }
}

/// Any two records are comparable.
pub proof fn lemma_log_le_total(a: LogV, b: LogV)
    ensures
        log_le(a, b) || log_le(b, a),
{
    if a.station != b.station {
        lemma_lex_lt_trichotomy(a.station, b.station);
    }
}

pub proof fn lemma_log_le_transitive(a: LogV, b: LogV, c: LogV)
    requires
        log_le(a, b),
        log_le(b, c),
    ensures
        log_le(a, c),
{
    if a.station == b.station {
        if b.station != c.station {
            assert(a.station != c.station);
        }
    } else if b.station == c.station {
        assert(a.station != c.station);
    } else if a.station == c.station {
        lemma_lex_lt_transitive(a.station, b.station, c.station);
        lemma_lex_lt_irreflexive(a.station);
    } else {
        lemma_lex_lt_transitive(a.station, b.station, c.station);
    }
}

/// Equal prefixes do not decide the lexicographic comparison.
proof fn lemma_lex_lt_common_prefix(a: Seq<char>, b: Seq<char>, k: int)
    requires
        0 <= k <= a.len(),
        k <= b.len(),
        forall|j: int| 0 <= j < k ==> a[j] == b[j],
    ensures
        lex_lt(a, b) == lex_lt(a.skip(k), b.skip(k)),
    decreases k,
{
    if k > 0 {
        assert(a.len() > 0 && b.len() > 0);
        assert(a[0] == b[0]);
        assert forall|j: int| 0 <= j < k - 1 implies a.skip(1)[j] == b.skip(1)[j] by {
            assert(a[j + 1] == b[j + 1]);
        }
        lemma_lex_lt_common_prefix(a.skip(1), b.skip(1), k - 1);
        assert(a.skip(1).skip(k - 1) =~= a.skip(k));
        assert(b.skip(1).skip(k - 1) =~= b.skip(k));
    } else {
        assert(a.skip(0) =~= a);
        assert(b.skip(0) =~= b);
    }
}

/// Does `a` come strictly before `b` in code-point-lexicographic order?
pub fn str_lex_lt(a: &str, b: &str) -> (r: bool)
    ensures
        r == lex_lt(a@, b@),
{
    let alen = a.unicode_len();
    let blen = b.unicode_len();
    let mut i: usize = 0;
    loop
        invariant
            alen == a@.len(),
            blen == b@.len(),
            i <= alen,
            i <= blen,
            forall|j: int| 0 <= j < i ==> a@[j] == b@[j],
        decreases alen - i,
    {
        proof {
            lemma_lex_lt_common_prefix(a@, b@, i as int);
        }
        if i >= blen {
            return false;
        }
        if i >= alen {
            return true;
        }
        let ca = a.get_char(i);
        let cb = b.get_char(i);
        if ca as u32 != cb as u32 {
            assert(a@.skip(i as int)[0] == a@[i as int]);
            assert(b@.skip(i as int)[0] == b@[i as int]);
            return (ca as u32) < (cb as u32);
        }
        assert(ca == cb);
        i = i + 1;
    }
}

/// Does `a` come before (or tie with) `b` in the `(station, date)` order?
pub fn log_le_exec(a: &crate::record::Log, b: &crate::record::Log) -> (r: bool)
    ensures
        r == log_le(a@, b@),
{
    if a.station.eq(&b.station) {
        a.date <= b.date
    } else {
        str_lex_lt(a.station.as_str(), b.station.as_str())
    }
}

} // verus!
