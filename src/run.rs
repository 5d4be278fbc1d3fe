//! One step of a run: what to do with one file found by the scan, and how
//! the ledger changes.
use vstd::prelude::*;
use crate::ledger::{no_line_breaks, render_records, text_map, lemma_render_parse, Ledger};
use crate::stale::{is_stale, stale_spec};

verus! {

/// What a run does with one file.
#[derive(Clone, Copy, Debug, PartialEq, Eq, Structural)]
pub enum Decision {
    /// The file is gone, or its modification time cannot be read: report it
    /// and leave the ledger as it is.
    Skip,
    /// The file is stale: convert it.
    Compile,
    /// The file has not changed since it was last seen.
    Fresh,
}

/// The decision for the file with canonical path `key`; `mtime` is its
/// modification time, None where it cannot be had.
pub open spec fn decide_spec(m: Map<Seq<char>, i64>, key: Seq<char>, mtime: Option<i64>) -> Decision {
    match mtime {
        None => Decision::Skip,
        Some(t) => if stale_spec(m, key, t) { Decision::Compile } else { Decision::Fresh },
    }
}

/// The ledger after visiting that file at time `now`: every file that is
/// there gets `now`, whether or not it was converted.
pub open spec fn visit_spec(
    m: Map<Seq<char>, i64>,
    key: Seq<char>,
    mtime: Option<i64>,
    now: i64,
) -> Map<Seq<char>, i64> {
    match mtime {
        None => m,
        Some(_) => m.insert(key, now),
    }
}

/// One visit: canonical path, modification time, and the clock's reading.
pub type Visit = (Seq<char>, Option<i64>, i64);

/// The ledger after a sequence of visits, in order.
pub open spec fn after_visits(m: Map<Seq<char>, i64>, vs: Seq<Visit>) -> Map<Seq<char>, i64>
    decreases vs.len(),
{
    if vs.len() == 0 {
        m
    } else {
        let v = vs.last();
        visit_spec(after_visits(m, vs.drop_last()), v.0, v.1, v.2)
    }
}

/// Relies on `chrono::Utc::now` and `DateTime::timestamp`: the current time
/// in whole seconds since the Unix epoch. Nothing is promised of its value.
#[verifier::external_body]
fn now_seconds() -> (t: i64) {
    chrono::Utc::now().timestamp()
}

/// Decides what to do with the file with canonical path `key` and
/// modification time `mtime`, and records `now` for it when it is there.
pub fn visit(ledger: &mut Ledger, key: String, mtime: Option<i64>, now: i64) -> (d: Decision)
    requires
        old(ledger).wf(),
    ensures
        final(ledger).wf(),
        d == decide_spec(old(ledger)@, key@, mtime),
        final(ledger)@ == visit_spec(old(ledger)@, key@, mtime, now),
{
    match mtime {
        None => Decision::Skip,
        Some(t) => {
            let stale = is_stale(ledger, &key, t);
            ledger.insert(key, now);
            if stale {
                Decision::Compile
            } else {
                Decision::Fresh
            }
        },
    }
}

/// `visit` at the current time of the system clock.
pub fn visit_now(ledger: &mut Ledger, key: String, mtime: Option<i64>) -> (d: Decision)
    requires
        old(ledger).wf(),
    ensures
        final(ledger).wf(),
        d == decide_spec(old(ledger)@, key@, mtime),
        exists|now: i64| final(ledger)@ == visit_spec(old(ledger)@, key@, mtime, now),
{
    let now = now_seconds();
    visit(ledger, key, mtime, now)
}

/// Every visit of `key` found the file with modification time `mtime`, and a
/// clock that was not behind it; at least one such visit was made.
pub open spec fn visited_unchanged(vs: Seq<Visit>, key: Seq<char>, mtime: i64) -> bool {
    &&& exists|i: int| 0 <= i < vs.len() && (#[trigger] vs[i]).0 == key && vs[i].1 is Some
    &&& forall|i: int| 0 <= i < vs.len() && (#[trigger] vs[i]).0 == key && vs[i].1 is Some ==> vs[i].1
        == Some(mtime) && vs[i].2 >= mtime
}

proof fn lemma_after_visits_recorded(m: Map<Seq<char>, i64>, vs: Seq<Visit>, key: Seq<char>, mtime: i64)
    requires
        visited_unchanged(vs, key, mtime),
    ensures
        after_visits(m, vs).contains_key(key),
        after_visits(m, vs)[key] >= mtime,
    decreases vs.len(),
{
    let v = vs.last();
    let rest = vs.drop_last();
    if v.0 == key && v.1 is Some {
        assert(vs[vs.len() - 1] == v);
    } else {
        let i = choose|i: int| 0 <= i < vs.len() && (#[trigger] vs[i]).0 == key && vs[i].1 is Some;
        assert(i < vs.len() - 1);
        assert(rest[i] == vs[i]);
        assert forall|j: int| 0 <= j < rest.len() && (#[trigger] rest[j]).0 == key && rest[j].1 is Some
            implies rest[j].1 == Some(mtime) && rest[j].2 >= mtime by {
            assert(rest[j] == vs[j]);
        }
        lemma_after_visits_recorded(m, rest, key, mtime);
    }
}

/// A second run right after a first one, with no file changed in between,
/// finds every file that the first run saw fresh: the first run's ledger,
/// written out and read back, records for each such file a time no earlier
/// than its modification time, as long as the clock was not behind it.
pub proof fn lemma_second_run_fresh(
    start: Map<Seq<char>, i64>,
    vs: Seq<Visit>,
    saved: Ledger,
    key: Seq<char>,
    mtime: i64,
)
    requires
        saved.wf(),
        saved@ == after_visits(start, vs),
        forall|i: int| 0 <= i < saved.records().len() ==> no_line_breaks(#[trigger] saved.records()[i].0),
        visited_unchanged(vs, key, mtime),
    ensures
        decide_spec(text_map(render_records(saved.records())), key, Some(mtime)) == Decision::Fresh,
{
    lemma_after_visits_recorded(start, vs, key, mtime);
    lemma_render_parse(saved.records());
}

} // verus!
