//! Whether a file must be converted again.
use vstd::prelude::*;
use crate::ledger::Ledger;

verus! {

/// A file is stale when the ledger has no record of its canonical path, or
/// when its modification time (whole seconds) is later than the record.
pub open spec fn stale_spec(m: Map<Seq<char>, i64>, key: Seq<char>, mtime: i64) -> bool {
    !m.contains_key(key) || mtime > m[key]
}

/// Is the file with canonical path `key` and modification time `mtime`
/// stale with respect to `ledger`?
pub fn is_stale(ledger: &Ledger, key: &String, mtime: i64) -> (r: bool)
    requires
        ledger.wf(),
    ensures
        r == stale_spec(ledger@, key@, mtime),
{
    match ledger.get(key) {
        Some(t) => mtime > t,
        None => true,
    }
}

/// A file without a record is stale; a file whose record is not earlier
/// than its modification time is fresh; a file modified after its record
/// was made is stale.
pub proof fn lemma_staleness(m: Map<Seq<char>, i64>, key: Seq<char>, mtime: i64)
    ensures
        !m.contains_key(key) ==> stale_spec(m, key, mtime),
        m.contains_key(key) && m[key] >= mtime ==> !stale_spec(m, key, mtime),
        m.contains_key(key) && mtime > m[key] ==> stale_spec(m, key, mtime),
{
}

} // verus!
