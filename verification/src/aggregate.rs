//! Aggregation of measurement records into per-event running sums and means.
//!
//! The measurement command emits one JSON record per measured event on its
//! diagnostic stream.  Each line is parsed independently; a malformed line
//! is dropped and the run continues.  One running sum is kept per event,
//! started at zero on first sight; after all trials every sum is divided by
//! the full trial count, so an event whose record was dropped in some trial
//! has its mean understated rather than recomputed over fewer samples.

use crate::value::{
    f64_quot_bits, f64_sum_bits, is_finite_bits, num_rep, number_quot, number_sum, zero_number,
};
use vstd::assert_seqs_equal;
use vstd::pervasive::VecAdditionalExecFns;
use vstd::prelude::*;

verus! {

/// One measurement record: an event identifier and the recorded value.
pub struct Record {
    pub event: String,
    pub value: serde_json::Number,
}

/// What one diagnostic line of the measurement command parses to: the event
/// name and the value's bit pattern for a well-formed record line, `None`
/// for a malformed one.
pub uninterp spec fn parsed_line(line: Seq<char>) -> Option<(Seq<char>, u64)>;

/// Relies on `serde_json::from_str` for one line of the measurement
/// command's diagnostic output: a JSON object whose field `event` is a
/// string and whose field `counter-value` is a number or a numeric string
/// (read through `str::parse` and `Number::from_f64`); any other line is
/// reported as `None`.
#[verifier::external_body]
pub fn parse_record_line(line: &str) -> (r: Option<Record>)
    ensures
        match r {
            Some(rec) => parsed_line(line@) == Some((rec.event@, num_rep(rec.value))),
            None => parsed_line(line@) is None,
        },
{
    let v: serde_json::Value = match serde_json::from_str(line) {
        Ok(v) => v,
        Err(_) => return None,
    };
    let event = v.get("event")?.as_str()?.to_string();
    let value = match v.get("counter-value")? {
        serde_json::Value::Number(n) => n.clone(),
        serde_json::Value::String(s) => serde_json::Number::from_f64(s.parse().ok()?)?,
        _ => return None,
    };
    Some(Record { event, value })
}

/// The event name and value bit pattern of one aggregate entry.
pub open spec fn entry_model(p: (String, serde_json::Number)) -> (Seq<char>, u64) {
    (p.0@, num_rep(p.1))
}

/// No two entries share an event name.
pub open spec fn distinct_keys(m: Seq<(Seq<char>, u64)>) -> bool {
    forall|i: int, j: int| 0 <= i < j < m.len() ==> m[i].0 != m[j].0
}

/// Every running sum is a finite double.
pub open spec fn finite_values(m: Seq<(Seq<char>, u64)>) -> bool {
    forall|i: int| 0 <= i < m.len() ==> is_finite_bits(#[trigger] m[i].1)
}

pub open spec fn has_key(m: Seq<(Seq<char>, u64)>, e: Seq<char>) -> bool {
    exists|i: int| 0 <= i < m.len() && m[i].0 == e
}

pub open spec fn key_at(m: Seq<(Seq<char>, u64)>, e: Seq<char>) -> int {
    choose|i: int| 0 <= i < m.len() && m[i].0 == e
}

/// The running sum recorded for event `e`, if any.
pub open spec fn lookup(m: Seq<(Seq<char>, u64)>, e: Seq<char>) -> Option<u64> {
    if has_key(m, e) {
        Some(m[key_at(m, e)].1)
    } else {
        None
    }
}

/// One observed value folded into a running sum: the IEEE double sum,
/// unless that sum leaves the finite range, in which case the contribution
/// is dropped and the sum stands.
pub open spec fn sum_step(acc: u64, v: u64) -> u64 {
    if is_finite_bits(f64_sum_bits(acc, v)) {
        f64_sum_bits(acc, v)
    } else {
        acc
    }
}

/// The aggregate after recording value `v` for event `e`: the event's
/// running sum is advanced by `v`, or created from zero at the end when the
/// event is new.
pub open spec fn bump(m: Seq<(Seq<char>, u64)>, e: Seq<char>, v: u64) -> Seq<(Seq<char>, u64)> {
    if has_key(m, e) {
        m.update(key_at(m, e), (e, sum_step(m[key_at(m, e)].1, v)))
    } else {
        m.push((e, sum_step(0, v)))
    }
}

/// The aggregate after one diagnostic line: unchanged when the line is
/// malformed.
pub open spec fn consume_line(m: Seq<(Seq<char>, u64)>, line: Seq<char>) -> Seq<(Seq<char>, u64)> {
    match parsed_line(line) {
        Some(p) => bump(m, p.0, p.1),
        None => m,
    }
}

/// The aggregate after a sequence of diagnostic lines, in order.
pub open spec fn consumed(m: Seq<(Seq<char>, u64)>, lines: Seq<Seq<char>>) -> Seq<
    (Seq<char>, u64),
>
    decreases lines.len(),
{
    if lines.len() == 0 {
        m
    } else {
        consumed(consume_line(m, lines[0]), lines.skip(1))
    }
}

/// The values recorded for event `e` by the well-formed lines among
/// `lines`, in order.
pub open spec fn event_values(lines: Seq<Seq<char>>, e: Seq<char>) -> Seq<u64>
    decreases lines.len(),
{
    if lines.len() == 0 {
        Seq::empty()
    } else {
        let rest = event_values(lines.skip(1), e);
        match parsed_line(lines[0]) {
            Some(p) => if p.0 == e {
                seq![p.1] + rest
            } else {
                rest
            },
            None => rest,
        }
    }
}

/// `vs` folded into the running sum `acc`, one [`sum_step`] per value.
pub open spec fn folded_sum(acc: u64, vs: Seq<u64>) -> u64
    decreases vs.len(),
{
    if vs.len() == 0 {
        acc
    } else {
        folded_sum(sum_step(acc, vs[0]), vs.skip(1))
    }
}

/// The per-event running sums over all batches and trials of one run.
pub struct Aggregate {
    entries: Vec<(String, serde_json::Number)>,
}

impl View for Aggregate {
    type V = Seq<(Seq<char>, u64)>;

    closed spec fn view(&self) -> Seq<(Seq<char>, u64)> {
        self.entries@.map_values(|p: (String, serde_json::Number)| entry_model(p))
    }
}

impl Aggregate {
    pub open spec fn wf(&self) -> bool {
        distinct_keys(self@) && finite_values(self@)
    }

    pub fn new() -> (a: Aggregate)
        ensures
            a.wf(),
            a@ == Seq::<(Seq<char>, u64)>::empty(),
    {
        let a = Aggregate { entries: Vec::new() };
        proof {
            assert(a@ =~= Seq::<(Seq<char>, u64)>::empty());
        }
        a
    }

    /// Folds one record into the aggregate.
    pub fn add_record(&mut self, rec: Record)
        requires
            old(self).wf(),
        ensures
            final(self).wf(),
            final(self)@ == bump(old(self)@, rec.event@, num_rep(rec.value)),
    {
        let ghost m = old(self)@;
        let ghost e = rec.event@;
        let ghost v = num_rep(rec.value);
        let mut i: usize = 0;
        while i < self.entries.len()
            invariant
                *self == *old(self),
                m == self@,
                i <= self.entries.len(),
                m.len() == self.entries@.len(),
                distinct_keys(m),
                finite_values(m),
                forall|l: int| 0 <= l < i ==> #[trigger] m[l].0 != e,
                e == rec.event@,
                v == num_rep(rec.value),
            decreases self.entries.len() - i,
        {
            if self.entries[i].0 == rec.event {
                proof {
                    assert(m[i as int].0 == e);
                    assert(has_key(m, e));
                    let j = key_at(m, e);
                    assert(0 <= j < m.len() && m[j].0 == e);
                    assert(j == i) by {
                        if j < i {
                            assert(m[j].0 != e);
                        }
                        if i < j {
                            assert(m[i as int].0 != m[j].0);
                        }
                    }
                }
                let updated = number_sum(&self.entries[i].1, &rec.value);
                proof {
                    assert(num_rep(self.entries@[i as int].1) == m[i as int].1);
                    assert(num_rep(updated) == sum_step(m[i as int].1, v));
                }
                let key = self.entries[i].0.clone();
                self.entries.set(i, (key, updated));
                proof {
                    assert_seqs_equal!(self@ == bump(m, e, v), l => {
                        if l != i {
                            assert(self@[l] == m[l]);
                        }
                    });
                    assert(final(self).wf()) by {
                        assert(forall|l: int|
                            0 <= l < self@.len() && l != i ==> self@[l] == m[l]);
                    }
                }
                return ;
            }
            i += 1;
        }
        proof {
            assert(!has_key(m, e));
        }
        let z = zero_number();
        let first = number_sum(&z, &rec.value);
        proof {
            assert(is_finite_bits(0u64)) by (bit_vector);
            assert(num_rep(first) == sum_step(0, v));
        }
        let ghost pre_len = self.entries@.len();
        self.entries.push((rec.event, first));
        proof {
            assert_seqs_equal!(self@ == bump(m, e, v), l => {
                if l < pre_len {
                    assert(self@[l] == m[l]);
                }
            });
            assert(final(self).wf()) by {
                assert(forall|l: int| 0 <= l < m.len() ==> self@[l] == m[l]);
                assert(self@[m.len() as int] == (e, sum_step(0, v)));
            }
        }
    }

    /// Parses one diagnostic line and folds it in; a malformed line leaves
    /// the aggregate untouched.
    pub fn add_line(&mut self, line: &str)
        requires
            old(self).wf(),
        ensures
            final(self).wf(),
            final(self)@ == consume_line(old(self)@, line@),
    {
        match parse_record_line(line) {
            Some(rec) => {
                self.add_record(rec);
            },
            None => {},
        }
    }

    /// Folds in a sequence of diagnostic lines, in order.
    pub fn add_lines(&mut self, lines: &Vec<String>)
        requires
            old(self).wf(),
        ensures
            final(self).wf(),
            final(self)@ == consumed(old(self)@, lines.deep_view()),
    {
        let ghost all = lines.deep_view();
        let ghost m0 = old(self)@;
        let mut i: usize = 0;
        proof {
            assert(all.skip(0) =~= all);
        }
        while i < lines.len()
            invariant
                self.wf(),
                i <= lines.len(),
                all == lines.deep_view(),
                all.len() == lines@.len(),
                consumed(m0, all) == consumed(self@, all.skip(i as int)),
            decreases lines.len() - i,
        {
            let ghost pre = self@;
            let ghost rest = all.skip(i as int);
            self.add_line(lines[i].as_str());
            proof {
                assert(rest.len() > 0);
                assert(rest[0] == all[i as int]);
                assert(all[i as int] == lines@[i as int]@);
                assert(rest.skip(1) =~= all.skip(i as int + 1));
                assert(consumed(pre, rest) == consumed(consume_line(pre, rest[0]), rest.skip(1)));
            }
            i += 1;
        }
        proof {
            assert(all.skip(lines@.len() as int) =~= Seq::<Seq<char>>::empty());
        }
    }

    /// Divides every running sum by the full trial count, producing the
    /// per-event means of one run, in first-seen order.
    pub fn means(&self, trials: u32) -> (r: Vec<(String, serde_json::Number)>)
        requires
            self.wf(),
            1 <= trials,
        ensures
            r@.map_values(|p: (String, serde_json::Number)| entry_model(p)) == self@.map_values(
                |q: (Seq<char>, u64)| (q.0, f64_quot_bits(q.1, trials)),
            ),
    {
        let ghost goal = self@.map_values(|q: (Seq<char>, u64)| (q.0, f64_quot_bits(q.1, trials)));
        let mut r: Vec<(String, serde_json::Number)> = Vec::new();
        let mut i: usize = 0;
        while i < self.entries.len()
            invariant
                self.wf(),
                1 <= trials,
                i <= self.entries.len(),
                goal == self@.map_values(|q: (Seq<char>, u64)| (q.0, f64_quot_bits(q.1, trials))),
                self@.len() == self.entries@.len(),
                r@.len() == i,
                forall|l: int|
                    0 <= l < i ==> entry_model(#[trigger] r@[l]) == goal[l],
            decreases self.entries.len() - i,
        {
            let key = self.entries[i].0.clone();
            proof {
                assert(self@[i as int].1 == num_rep(self.entries@[i as int].1));
                assert(is_finite_bits(self@[i as int].1));
            }
            let q = number_quot(&self.entries[i].1, trials);
            r.push((key, q));
            i += 1;
        }
        proof {
            assert_seqs_equal!(
                r@.map_values(|p: (String, serde_json::Number)| entry_model(p)) == goal,
                l => {}
            );
        }
        r
    }
}

/// Recording a value moves only its own event's entry: the event's running
/// sum is advanced by one [`sum_step`] (from zero when the event is new),
/// and every other event's sum is untouched.
pub proof fn lemma_bump_lookup(m: Seq<(Seq<char>, u64)>, e: Seq<char>, v: u64, q: Seq<char>)
    requires
        distinct_keys(m),
    ensures
        distinct_keys(bump(m, e, v)),
        lookup(bump(m, e, v), e) == Some(
            sum_step(
                match lookup(m, e) {
                    Some(a) => a,
                    None => 0,
                },
                v,
            ),
        ),
        q != e ==> lookup(bump(m, e, v), q) == lookup(m, q),
{
    let b = bump(m, e, v);
    if has_key(m, e) {
        let i = key_at(m, e);
        assert(0 <= i < m.len() && m[i].0 == e);
        assert(distinct_keys(b)) by {
            assert(forall|l: int| 0 <= l < b.len() && l != i ==> b[l] == m[l]);
        }
        assert(has_key(b, e)) by {
            assert(b[i].0 == e);
        }
        lemma_key_at_unique(b, e, i);
        if q != e {
            lemma_lookup_other(m, b, i, q);
        }
    } else {
        assert(forall|l: int| 0 <= l < m.len() ==> #[trigger] m[l].0 != e);
        let i = m.len() as int;
        assert(b[i].0 == e);
        assert(distinct_keys(b)) by {
            assert(forall|l: int| 0 <= l < m.len() ==> b[l] == m[l]);
        }
        assert(has_key(b, e));
        lemma_key_at_unique(b, e, i);
        if q != e {
            lemma_lookup_other(m, b, i, q);
        }
    }
}

/// With distinct keys, the witness that `key_at` picks is the one index
/// whose entry carries the key.
proof fn lemma_key_at_unique(m: Seq<(Seq<char>, u64)>, e: Seq<char>, i: int)
    requires
        distinct_keys(m),
        0 <= i < m.len(),
        m[i].0 == e,
    ensures
        has_key(m, e),
        key_at(m, e) == i,
{
    assert(has_key(m, e));
    let j = key_at(m, e);
    assert(0 <= j < m.len() && m[j].0 == e);
    if j < i {
        assert(m[j].0 != m[i].0);
    }
    if i < j {
        assert(m[i].0 != m[j].0);
    }
}

/// A sequence changed at most at index `i`, whose entry there carries a key
/// other than `q` in both versions, looks up `q` the same way before and
/// after.
proof fn lemma_lookup_other(m: Seq<(Seq<char>, u64)>, b: Seq<(Seq<char>, u64)>, i: int, q: Seq<char>)
    requires
        distinct_keys(m),
        distinct_keys(b),
        0 <= i < b.len(),
        m.len() <= b.len(),
        forall|l: int| 0 <= l < b.len() && l != i ==> l < m.len() && b[l] == m[l],
        b[i].0 != q,
        i < m.len() ==> m[i].0 != q,
    ensures
        lookup(b, q) == lookup(m, q),
{
    if has_key(m, q) {
        let l = key_at(m, q);
        assert(0 <= l < m.len() && m[l].0 == q);
        assert(l != i);
        assert(b[l].0 == q);
        lemma_key_at_unique(m, q, l);
        lemma_key_at_unique(b, q, l);
    } else {
        assert(forall|l: int| 0 <= l < m.len() ==> #[trigger] m[l].0 != q);
        assert(!has_key(b, q)) by {
            assert(forall|l: int| 0 <= l < b.len() ==> #[trigger] b[l].0 != q);
        }
    }
}

/// Each event's running sum depends only on that event's own well-formed
/// record lines: after consuming any line sequence, the sum for `e` is
/// exactly the values recorded for `e`, in order, folded from the sum it
/// started with (from zero when `e` is new).  Lines of other events and
/// malformed lines do not touch it, so one corrupted line cannot disturb
/// any other event's aggregate.
pub proof fn lemma_per_event_sum(m: Seq<(Seq<char>, u64)>, lines: Seq<Seq<char>>, e: Seq<char>)
    requires
        distinct_keys(m),
    ensures
        distinct_keys(consumed(m, lines)),
        lookup(consumed(m, lines), e) == {
            let vs = event_values(lines, e);
            match lookup(m, e) {
                Some(a) => Some(folded_sum(a, vs)),
                None => if vs.len() == 0 {
                    None::<u64>
                } else {
                    Some(folded_sum(0, vs))
                },
            }
        },
    decreases lines.len(),
{
    if lines.len() == 0 {
    } else {
        let head = lines[0];
        let rest = lines.skip(1);
        let m1 = consume_line(m, head);
        match parsed_line(head) {
            Some(p) => {
                lemma_bump_lookup(m, p.0, p.1, e);
                lemma_per_event_sum(m1, rest, e);
                if p.0 == e {
                    let vs = event_values(lines, e);
                    let rvs = event_values(rest, e);
                    assert(vs == seq![p.1] + rvs);
                    assert(vs.len() > 0);
                    assert(vs[0] == p.1);
                    assert(vs.skip(1) =~= rvs);
                    let base = sum_step(
                        match lookup(m, e) {
                            Some(a) => a,
                            None => 0,
                        },
                        p.1,
                    );
                    assert(lookup(m1, e) == Some(base));
                    assert forall|a: u64| #[trigger] folded_sum(a, vs) == folded_sum(
                        sum_step(a, p.1),
                        rvs,
                    ) by {
                        assert(folded_sum(a, vs) == folded_sum(sum_step(a, vs[0]), vs.skip(1)));
                    }
                } else {
                    assert(lookup(m1, e) == lookup(m, e));
                    assert(event_values(lines, e) == event_values(rest, e));
                }
            },
            None => {
                assert(m1 == m);
                lemma_per_event_sum(m1, rest, e);
                assert(event_values(lines, e) == event_values(rest, e));
            },
        }
    }
}

/// Dividing every running sum by the trial count moves no keys: the mapped
/// aggregate looks an event up to the quotient of what the aggregate held.
proof fn lemma_lookup_quot(m: Seq<(Seq<char>, u64)>, trials: u32, e: Seq<char>)
    requires
        distinct_keys(m),
    ensures
        ({
            let out = m.map_values(|q: (Seq<char>, u64)| (q.0, f64_quot_bits(q.1, trials)));
            lookup(out, e) == match lookup(m, e) {
                Some(a) => Some(f64_quot_bits(a, trials)),
                None => None::<u64>,
            }
        }),
{
    let out = m.map_values(|q: (Seq<char>, u64)| (q.0, f64_quot_bits(q.1, trials)));
    assert(out.len() == m.len());
    assert(forall|l: int| 0 <= l < m.len() ==> (#[trigger] out[l]).0 == m[l].0);
    if has_key(m, e) {
        let i = key_at(m, e);
        assert(0 <= i < m.len() && m[i].0 == e);
        assert(distinct_keys(out));
        lemma_key_at_unique(m, e, i);
        lemma_key_at_unique(out, e, i);
    } else {
        assert(forall|l: int| 0 <= l < m.len() ==> #[trigger] m[l].0 != e);
        assert(!has_key(out, e)) by {
            assert(forall|l: int| 0 <= l < out.len() ==> (#[trigger] out[l]).0 != e);
        }
    }
}

/// The mean reported for an event after a full run, starting from an empty
/// aggregate: the values that the event's own well-formed lines recorded,
/// folded into a running sum from zero, divided by the full trial count —
/// whatever other events' lines held, and with malformed lines ignored.  An
/// event no well-formed line named is absent from the report.
pub proof fn lemma_reported_mean(lines: Seq<Seq<char>>, trials: u32, e: Seq<char>)
    ensures
        ({
            let sums = consumed(Seq::<(Seq<char>, u64)>::empty(), lines);
            let out = sums.map_values(|q: (Seq<char>, u64)| (q.0, f64_quot_bits(q.1, trials)));
            let vs = event_values(lines, e);
            lookup(out, e) == if vs.len() == 0 {
                None::<u64>
            } else {
                Some(f64_quot_bits(folded_sum(0, vs), trials))
            }
        }),
{
    let empty = Seq::<(Seq<char>, u64)>::empty();
    assert(!has_key(empty, e));
    lemma_per_event_sum(empty, lines, e);
    lemma_lookup_quot(consumed(empty, lines), trials, e);
}

/// Consuming two line sequences one after the other is consuming their
/// concatenation: feeding the aggregate batch by batch and trial by trial
/// gives the same result as feeding the whole diagnostic stream in order.
pub proof fn lemma_consumed_append(m: Seq<(Seq<char>, u64)>, a: Seq<Seq<char>>, b: Seq<Seq<char>>)
    ensures
        consumed(m, a + b) == consumed(consumed(m, a), b),
    decreases a.len(),
{
    if a.len() == 0 {
        assert(a + b =~= b);
    } else {
        assert((a + b)[0] == a[0]);
        assert((a + b).skip(1) =~= a.skip(1) + b);
        lemma_consumed_append(consume_line(m, a[0]), a.skip(1), b);
    }
}

/// Every event in the aggregate got there from some well-formed record line
/// (or stood in the aggregate already): the reported key set is a subset of
/// the events that the measured lines name.
pub proof fn lemma_keys_come_from_lines(
    m: Seq<(Seq<char>, u64)>,
    lines: Seq<Seq<char>>,
    e: Seq<char>,
)
    requires
        has_key(consumed(m, lines), e),
    ensures
        has_key(m, e) || exists|i: int|
            0 <= i < lines.len() && ((#[trigger] parsed_line(lines[i])) matches Some(p) && p.0
                == e),
    decreases lines.len(),
{
    if lines.len() == 0 {
    } else {
        let head = lines[0];
        let rest = lines.skip(1);
        let m1 = consume_line(m, head);
        lemma_keys_come_from_lines(m1, rest, e);
        if has_key(m1, e) && !has_key(m, e) {
            match parsed_line(head) {
                Some(p) => {
                    if p.0 != e {
                        let j = key_at(m1, e);
                        assert(0 <= j < m1.len() && m1[j].0 == e);
                        if has_key(m, p.0) {
                            let u = key_at(m, p.0);
                            assert(m1 == m.update(u, (p.0, sum_step(m[u].1, p.1))));
                            assert(j != u);
                            assert(m[j].0 == e);
                        } else {
                            assert(m1 == m.push((p.0, sum_step(0, p.1))));
                            assert(j < m.len());
                            assert(m[j].0 == e);
                        }
                        assert(has_key(m, e));
                    } else {
                        assert(parsed_line(lines[0]) matches Some(q) && q.0 == e);
                    }
                },
                None => {},
            }
        }
        if !has_key(m1, e) {
            let w = choose|i: int|
                0 <= i < rest.len() && ((#[trigger] parsed_line(rest[i])) matches Some(p) && p.0
                    == e);
            assert(rest[w] == lines[w + 1]);
        }
    }
}

/// A malformed line is inert: consuming a line sequence with one unparseable
/// line gives the same aggregate as consuming the sequence without it, so a
/// single corrupted line aborts nothing.
pub proof fn lemma_malformed_line_ignored(
    m: Seq<(Seq<char>, u64)>,
    lines: Seq<Seq<char>>,
    i: int,
)
    requires
        0 <= i < lines.len(),
        parsed_line(lines[i]) is None,
    ensures
        consumed(m, lines) == consumed(m, lines.remove(i)),
    decreases lines.len(),
{
    if i == 0 {
        assert(consume_line(m, lines[0]) == m);
        assert(lines.remove(0) =~= lines.skip(1));
    } else {
        let m1 = consume_line(m, lines[0]);
        assert(lines.remove(i).skip(1) =~= lines.skip(1).remove(i - 1));
        assert(lines.remove(i)[0] == lines[0]);
        lemma_malformed_line_ignored(m1, lines.skip(1), i - 1);
    }
}

} // verus!
