//! The ledger: for each canonical path, the time at which it was last seen.
use vstd::prelude::*;
use crate::stamp::{int_text, parse_stamp, parse_stamp_spec, push_stamp};
use crate::stamp::lemma_int_text_round_trip;
use crate::text::{chars_of, last_index_of, lemma_last_index_of, string_of};

verus! {

/// One record of the ledger: a canonical path and a timestamp.
pub type Record = (Seq<char>, i64);

/// No two records share a path.
pub open spec fn unique_keys(r: Seq<Record>) -> bool {
    forall|i: int, j: int| 0 <= i < j < r.len() ==> (#[trigger] r[i]).0 != (#[trigger] r[j]).0
}

/// Does some record have path `k`?
pub open spec fn has_key(r: Seq<Record>, k: Seq<char>) -> bool {
    exists|i: int| 0 <= i < r.len() && (#[trigger] r[i]).0 == k
}

/// The mapping that a list of records with distinct paths stands for.
pub open spec fn records_map(r: Seq<Record>) -> Map<Seq<char>, i64> {
    Map::new(
        |k: Seq<char>| has_key(r, k),
        |k: Seq<char>| r[choose|i: int| 0 <= i < r.len() && (#[trigger] r[i]).0 == k].1,
    )
}

/// The ledger of one source tree. Each path has at most one record.
pub struct Ledger {
    entries: Vec<(String, i64)>,
}

impl View for Ledger {
    type V = Map<Seq<char>, i64>;

    open spec fn view(&self) -> Map<Seq<char>, i64> {
        records_map(self.records())
    }
}

proof fn lemma_records_map_at(r: Seq<Record>, i: int)
    requires
        unique_keys(r),
        0 <= i < r.len(),
    ensures
        records_map(r).contains_key(r[i].0),
        records_map(r)[r[i].0] == r[i].1,
{
    let k = r[i].0;
    assert(has_key(r, k));
    let j = choose|j: int| 0 <= j < r.len() && (#[trigger] r[j]).0 == k;
    if j < i {
        assert(r[j].0 != r[i].0);
    } else if j > i {
        assert(r[i].0 != r[j].0);
    }
}

impl Ledger {
    /// The records, in the order in which their paths were first recorded.
    pub closed spec fn records(&self) -> Seq<Record> {
        self.entries@.map_values(|e: (String, i64)| (e.0@, e.1))
    }

    /// Each path has at most one record.
    pub open spec fn wf(&self) -> bool {
        unique_keys(self.records())
    }

    /// An empty ledger.
    pub fn new() -> (r: Ledger)
        ensures
            r.wf(),
            r.records() == Seq::<Record>::empty(),
            r@ == Map::<Seq<char>, i64>::empty(),
    {
        let r = Ledger { entries: Vec::new() };
        assert(r.records() =~= Seq::<Record>::empty());
        assert(r@ =~= Map::<Seq<char>, i64>::empty());
        r
    }

    /// The number of records.
    pub fn len(&self) -> (n: usize)
        requires
            self.wf(),
        ensures
            n == self.records().len(),
            n == self@.len(),
    {
        proof {
            self.lemma_dom_len();
        }
        self.entries.len()
    }

    proof fn lemma_dom_len(&self)
        requires
            self.wf(),
        ensures
            self@.len() == self.records().len(),
    {
        let r = self.records();
        let f = |i: int| r[i].0;
        let idx = Set::new(|i: int| 0 <= i < r.len());
        assert forall|k: Seq<char>| #[trigger] self@.dom().contains(k) == idx.map(f).contains(k) by {
            if self@.dom().contains(k) {
                let j = choose|j: int| 0 <= j < r.len() && (#[trigger] r[j]).0 == k;
                assert(idx.contains(j) && f(j) == k);
            }
            if idx.map(f).contains(k) {
                let j = choose|j: int| idx.contains(j) && f(j) == k;
                assert(r[j].0 == k);
            }
        }
        assert(self@.dom() =~= idx.map(f));
        vstd::set_lib::lemma_int_range(0, r.len() as int);
        assert(idx =~= vstd::set_lib::set_int_range(0, r.len() as int));
        assert forall|a: int, b: int| idx.contains(a) && idx.contains(b) && #[trigger] f(a) == #[trigger] f(b)
            implies a == b by {
            if a < b {
                assert(r[a].0 != r[b].0);
            } else if b < a {
                assert(r[b].0 != r[a].0);
            }
        }
        assert(vstd::relations::injective_on(f, idx));
        vstd::set_lib::lemma_map_size(idx, self@.dom(), f);
    }

    /// The index of the record for `key`, if there is one.
    fn find(&self, key: &String) -> (r: Option<usize>)
        requires
            self.wf(),
        ensures
            match r {
                Some(i) => i < self.records().len() && self.records()[i as int].0 == key@,
                None => !has_key(self.records(), key@),
            },
    {
        let mut i: usize = 0;
        while i < self.entries.len()
            invariant
                i <= self.entries@.len(),
                forall|j: int| 0 <= j < i ==> (#[trigger] self.records()[j]).0 != key@,
            decreases self.entries@.len() - i,
        {
            if self.entries[i].0 == *key {
                return Some(i);
            }
            i = i + 1;
        }
        None
    }

    /// The timestamp recorded for `key`, if any.
    pub fn get(&self, key: &String) -> (r: Option<i64>)
        requires
            self.wf(),
        ensures
            r == (if self@.contains_key(key@) { Some(self@[key@]) } else { None::<i64> }),
    {
        match self.find(key) {
            Some(i) => {
                proof {
                    lemma_records_map_at(self.records(), i as int);
                }
                Some(self.entries[i].1)
            },
            None => None,
        }
    }

    /// Records `t` for `key`, replacing any earlier record of the same path.
    pub fn insert(&mut self, key: String, t: i64)
        requires
            old(self).wf(),
        ensures
            final(self).wf(),
            final(self)@ == old(self)@.insert(key@, t),
    {
        let ghost k = key@;
        let ghost r0 = self.records();
        match self.find(&key) {
            Some(i) => {
                self.entries.set(i, (key, t));
                proof {
                    let r1 = self.records();
                    assert(r1 =~= r0.update(i as int, (k, t)));
                    assert(unique_keys(r1)) by {
                        assert forall|a: int, b: int| 0 <= a < b < r1.len() implies
                            (#[trigger] r1[a]).0 != (#[trigger] r1[b]).0 by {
                            assert(r0[a].0 != r0[b].0);
                        }
                    }
                    assert forall|q: Seq<char>| has_key(r1, q) == (q == k || has_key(r0, q)) by {
                        if has_key(r0, q) {
                            let j = choose|j: int| 0 <= j < r0.len() && (#[trigger] r0[j]).0 == q;
                            assert(r1[j].0 == q || j == i);
                            assert(r1[i as int].0 == k);
                        }
                        if has_key(r1, q) {
                            let j = choose|j: int| 0 <= j < r1.len() && (#[trigger] r1[j]).0 == q;
                            if j != i {
                                assert(r0[j].0 == q);
                            }
                        }
                        if q == k {
                            assert(r1[i as int].0 == k);
                        }
                    }
                    assert forall|q: Seq<char>| has_key(r1, q) implies records_map(r1)[q] == (
                        if q == k { t } else { records_map(r0)[q] }) by {
                        let j = choose|j: int| 0 <= j < r1.len() && (#[trigger] r1[j]).0 == q;
                        lemma_records_map_at(r1, j);
                        if j != i {
                            lemma_records_map_at(r0, j);
                        }
                    }
                    assert(self@ =~= old(self)@.insert(k, t));
                }
            },
            None => {
                self.entries.push((key, t));
                proof {
                    let r1 = self.records();
                    assert(r1 =~= r0.push((k, t)));
                    assert(unique_keys(r1)) by {
                        assert forall|a: int, b: int| 0 <= a < b < r1.len() implies
                            (#[trigger] r1[a]).0 != (#[trigger] r1[b]).0 by {
                            if b < r0.len() {
                                assert(r0[a].0 != r0[b].0);
                            } else {
                                assert(r0[a].0 == r1[a].0);
                            }
                        }
                    }
                    lemma_records_map_push(r0, (k, t));
                    assert(self@ =~= old(self)@.insert(k, t));
                }
            },
        }
    }
}

/// `s` holds no line break.
pub open spec fn no_line_breaks(s: Seq<char>) -> bool {
    forall|c: int| 0 <= c < s.len() ==> #[trigger] s[c] != '\n'
}

/// The record that one line of the ledger file holds: the path before its
/// last `;` and the timestamp after it. A line without a `;`, or whose
/// timestamp is not an integer that fits in an `i64`, holds none.
pub open spec fn parse_record(line: Seq<char>) -> Option<Record> {
    match last_index_of(line, ';') {
        Some(j) => match parse_stamp_spec(line.subrange(j + 1, line.len() as int)) {
            Some(t) => Some((line.subrange(0, j), t)),
            None => None,
        },
        None => None,
    }
}

/// `m` with the record of `line`, if it holds one, put in.
pub open spec fn apply_line(m: Map<Seq<char>, i64>, line: Seq<char>) -> Map<Seq<char>, i64> {
    match parse_record(line) {
        Some(r) => m.insert(r.0, r.1),
        None => m,
    }
}

/// The text after the last line break of `t`.
pub open spec fn current_line(t: Seq<char>) -> Seq<char>
    decreases t.len(),
{
    if t.len() == 0 {
        Seq::empty()
    } else if t.last() == '\n' {
        Seq::empty()
    } else {
        current_line(t.drop_last()).push(t.last())
    }
}

/// The mapping that the complete lines of `t` give, read first to last, a
/// later line for a path overriding an earlier one.
pub open spec fn done_map(t: Seq<char>) -> Map<Seq<char>, i64>
    decreases t.len(),
{
    if t.len() == 0 {
        Map::empty()
    } else if t.last() == '\n' {
        apply_line(done_map(t.drop_last()), current_line(t.drop_last()))
    } else {
        done_map(t.drop_last())
    }
}

/// The mapping that the ledger file text `t` gives.
pub open spec fn text_map(t: Seq<char>) -> Map<Seq<char>, i64> {
    apply_line(done_map(t), current_line(t))
}

/// The line of the ledger file for one record.
pub open spec fn record_line(r: Record) -> Seq<char> {
    r.0 + seq![';'] + int_text(r.1 as int) + seq!['\n']
}

/// The ledger file text for a list of records, one line each, in order.
pub open spec fn render_records(rs: Seq<Record>) -> Seq<char>
    decreases rs.len(),
{
    if rs.len() == 0 {
        Seq::empty()
    } else {
        render_records(rs.drop_last()) + record_line(rs.last())
    }
}

proof fn lemma_records_map_push(rs: Seq<Record>, r: Record)
    requires
        unique_keys(rs.push(r)),
    ensures
        unique_keys(rs),
        records_map(rs.push(r)) == records_map(rs).insert(r.0, r.1),
{
    let r1 = rs.push(r);
    assert forall|a: int, b: int| 0 <= a < b < rs.len() implies
        (#[trigger] rs[a]).0 != (#[trigger] rs[b]).0 by {
        assert(r1[a] == rs[a] && r1[b] == rs[b]);
    }
    assert forall|q: Seq<char>| has_key(r1, q) == (q == r.0 || has_key(rs, q)) by {
        if has_key(rs, q) {
            let j = choose|j: int| 0 <= j < rs.len() && (#[trigger] rs[j]).0 == q;
            assert(r1[j].0 == q);
        }
        if has_key(r1, q) {
            let j = choose|j: int| 0 <= j < r1.len() && (#[trigger] r1[j]).0 == q;
            if j < rs.len() {
                assert(rs[j].0 == q);
            }
        }
        if q == r.0 {
            assert(r1[rs.len() as int].0 == r.0);
        }
    }
    assert forall|q: Seq<char>| has_key(r1, q) implies records_map(r1)[q] == (
        if q == r.0 { r.1 } else { records_map(rs)[q] }) by {
        let j = choose|j: int| 0 <= j < r1.len() && (#[trigger] r1[j]).0 == q;
        lemma_records_map_at(r1, j);
        if j < rs.len() {
            assert(rs[j] == r1[j]);
            assert(r1[j].0 != r1[rs.len() as int].0);
            lemma_records_map_at(rs, j);
        }
    }
    assert(records_map(r1) =~= records_map(rs).insert(r.0, r.1));
}

/// Text that ends a line, followed by a piece without line breaks, leaves
/// the complete lines as they were.
proof fn lemma_append_piece(t: Seq<char>, l: Seq<char>)
    requires
        current_line(t) == Seq::<char>::empty(),
        forall|i: int| 0 <= i < l.len() ==> #[trigger] l[i] != '\n',
    ensures
        done_map(t + l) == done_map(t),
        current_line(t + l) == l,
    decreases l.len(),
{
    if l.len() == 0 {
        assert(t + l =~= t);
    } else {
        let l0 = l.drop_last();
        assert(l0.len() < l.len());
        assert forall|i: int| 0 <= i < l0.len() implies #[trigger] l0[i] != '\n' by {
            assert(l0[i] == l[i]);
        }
        lemma_append_piece(t, l0);
        assert((t + l).drop_last() =~= t + l0);
        assert((t + l).last() == l.last());
        assert(l0.push(l.last()) =~= l);
    }
}

/// The text of a key, `;` and a timestamp holds that record.
proof fn lemma_parse_record_line(k: Seq<char>, v: i64)
    ensures
        parse_record(k + seq![';'] + int_text(v as int)) == Some((k, v)),
{
    let line = k + seq![';'] + int_text(v as int);
    let n = int_text(v as int);
    lemma_int_text_round_trip(v as int);
    crate::stamp::lemma_int_text_chars(v as int);
    lemma_last_index_of(line, ';');
    let j = k.len() as int;
    assert(line[j] == ';');
    match last_index_of(line, ';') {
        Some(p) => {
            if p > j {
                assert(line[p] == n[p - j - 1]);
            } else if p < j {
                assert(line[j] != ';');
            }
        },
        None => {},
    }
    assert(line.subrange(j + 1, line.len() as int) =~= n);
    assert(line.subrange(0, j) =~= k);
}

/// A key without line breaks: the rendered records read back as the same
/// mapping.
proof fn lemma_render_done(rs: Seq<Record>)
    requires
        unique_keys(rs),
        forall|i: int| 0 <= i < rs.len() ==> no_line_breaks(#[trigger] rs[i].0),
    ensures
        done_map(render_records(rs)) == records_map(rs),
        current_line(render_records(rs)) == Seq::<char>::empty(),
    decreases rs.len(),
{
    if rs.len() == 0 {
        assert(records_map(rs) =~= Map::<Seq<char>, i64>::empty());
    } else {
        let r0 = rs.drop_last();
        let r = rs.last();
        assert(rs =~= r0.push(r));
        lemma_records_map_push(r0, r);
        assert forall|i: int| 0 <= i < r0.len() implies no_line_breaks(#[trigger] r0[i].0) by {
            assert(r0[i] == rs[i]);
        }
        lemma_render_done(r0);
        let t = render_records(r0);
        let piece = r.0 + seq![';'] + int_text(r.1 as int);
        crate::stamp::lemma_int_text_chars(r.1 as int);
        assert forall|i: int| 0 <= i < piece.len() implies #[trigger] piece[i] != '\n' by {
            if i < r.0.len() {
                assert(no_line_breaks(rs[rs.len() - 1].0));
                assert(r.0[i] != '\n');
            } else if i > r.0.len() {
                assert(piece[i] == int_text(r.1 as int)[i - r.0.len() - 1]);
            }
        }
        lemma_append_piece(t, piece);
        let full = render_records(rs);
        assert(full =~= (t + piece).push('\n'));
        assert(full.drop_last() =~= t + piece);
        lemma_parse_record_line(r.0, r.1);
    }
}

/// Writing a ledger's records out and reading the text back gives the same
/// mapping, whenever no path holds a line break.
pub proof fn lemma_render_parse(rs: Seq<Record>)
    requires
        unique_keys(rs),
        forall|i: int| 0 <= i < rs.len() ==> no_line_breaks(#[trigger] rs[i].0),
    ensures
        text_map(render_records(rs)) == records_map(rs),
{
    lemma_render_done(rs);
    lemma_last_index_of(Seq::<char>::empty(), ';');
}

impl Ledger {
    /// Puts in the record that the line `cs[from..to]` holds, if it holds one.
    fn add_line(&mut self, cs: &Vec<char>, from: usize, to: usize)
        requires
            old(self).wf(),
            from <= to <= cs@.len(),
        ensures
            final(self).wf(),
            final(self)@ == apply_line(old(self)@, cs@.subrange(from as int, to as int)),
    {
        let ghost line = cs@.subrange(from as int, to as int);
        proof {
            lemma_last_index_of(line, ';');
        }
        let mut j: usize = to;
        while j > from
            invariant
                from <= j <= to <= cs@.len(),
                forall|q: int| j <= q < to ==> #[trigger] cs@[q] != ';',
            ensures
                from <= j <= to,
                forall|q: int| j <= q < to ==> #[trigger] cs@[q] != ';',
                j > from ==> cs@[j - 1] == ';',
            decreases j - from,
        {
            if cs[j - 1] == ';' {
                break;
            }
            j = j - 1;
        }
        if j == from {
            proof {
                assert forall|q: int| 0 <= q < line.len() implies #[trigger] line[q] != ';' by {
                    assert(line[q] == cs@[from + q]);
                }
                match last_index_of(line, ';') {
                    Some(p) => {
                        assert(line[p] == ';');
                    },
                    None => {},
                }
            }
            return;
        }
        let semi = j - 1;
        proof {
            assert(cs@[semi as int] == ';');
            let at = semi - from;
            assert(line[at] == ';');
            match last_index_of(line, ';') {
                Some(p) => {
                    if p > at {
                        assert(line[p] == cs@[from + p]);
                    } else if p < at {
                        assert(line[at] != ';');
                    }
                },
                None => {},
            }
            assert(line.subrange(at + 1, line.len() as int) =~= cs@.subrange(j as int, to as int));
            assert(line.subrange(0, at) =~= cs@.subrange(from as int, semi as int));
        }
        match parse_stamp(cs.as_slice(), j, to) {
            Some(t) => {
                let key = string_of(cs.as_slice(), from, semi);
                self.insert(key, t);
            },
            None => {},
        }
    }

    /// Reads the ledger file text `text`: one record per line, a path and a
    /// timestamp separated by the line's last `;`. Lines that hold no record
    /// are passed over; a later line for a path overrides an earlier one.
    pub fn parse(text: &str) -> (r: Ledger)
        ensures
            r.wf(),
            r@ == text_map(text@),
    {
        let cs = chars_of(text);
        let mut led = Ledger::new();
        let mut ls: usize = 0;
        let mut i: usize = 0;
        proof {
            assert(cs@.subrange(0, 0) =~= Seq::<char>::empty());
        }
        while i < cs.len()
            invariant
                ls <= i <= cs@.len(),
                led.wf(),
                led@ == done_map(cs@.subrange(0, i as int)),
                current_line(cs@.subrange(0, i as int)) == cs@.subrange(ls as int, i as int),
            decreases cs@.len() - i,
        {
            let ghost before = cs@.subrange(0, i as int);
            proof {
                let after = cs@.subrange(0, i + 1);
                assert(after.drop_last() =~= before);
                assert(after.last() == cs@[i as int]);
            }
            if cs[i] == '\n' {
                led.add_line(&cs, ls, i);
                ls = i + 1;
                proof {
                    assert(cs@.subrange(ls as int, i + 1) =~= Seq::<char>::empty());
                }
            } else {
                proof {
                    assert(cs@.subrange(ls as int, i + 1) =~= cs@.subrange(ls as int, i as int).push(cs@[i as int]));
                }
            }
            i = i + 1;
        }
        led.add_line(&cs, ls, cs.len());
        proof {
            assert(cs@.subrange(0, cs@.len() as int) =~= text@);
        }
        led
    }

    /// The ledger file text: one line per record, in the order of
    /// `records()`, each the path, `;`, and the timestamp in decimal.
    pub fn render(&self) -> (r: String)
        ensures
            r@ == render_records(self.records()),
    {
        let mut out: Vec<char> = Vec::new();
        let mut i: usize = 0;
        proof {
            assert(self.records().subrange(0, 0) =~= Seq::<Record>::empty());
        }
        while i < self.entries.len()
            invariant
                i <= self.entries@.len(),
                out@ == render_records(self.records().subrange(0, i as int)),
            decreases self.entries@.len() - i,
        {
            let mut k = chars_of(self.entries[i].0.as_str());
            out.append(&mut k);
            out.push(';');
            push_stamp(self.entries[i].1, &mut out);
            out.push('\n');
            proof {
                let rs = self.records().subrange(0, i + 1);
                assert(rs.drop_last() =~= self.records().subrange(0, i as int));
                assert(rs.last() == self.records()[i as int]);
                assert(out@ =~= render_records(rs));
            }
            i = i + 1;
        }
        proof {
            assert(self.records().subrange(0, i as int) =~= self.records());
        }
        string_of(out.as_slice(), 0, out.len())
    }
}

} // verus!
