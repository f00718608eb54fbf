//! Partitioning the event universe into counter-sized batches.
//!
//! Events are measured in consecutive chunks of at most the counter budget,
//! in catalog order; the last chunk may be smaller.  The same partition is
//! used for every trial.

use vstd::assert_seqs_equal;
use vstd::prelude::*;
use vstd::string::StringExecFns;

verus! {

/// The batching of `s` under budget `k`: consecutive chunks of length `k`,
/// in order, the last one holding whatever remains.
pub open spec fn chunked<T>(s: Seq<T>, k: int) -> Seq<Seq<T>>
    decreases s.len(),
    when 1 <= k
{
    if s.len() == 0 {
        Seq::empty()
    } else if s.len() <= k {
        seq![s]
    } else {
        seq![s.take(k)] + chunked(s.skip(k), k)
    }
}

/// Batching partitions the input exactly: with a positive budget `k` there
/// are `ceil(len/k)` batches; every batch holds at most `k` events and every
/// batch but the last exactly `k`; the last is never empty; and the batches
/// concatenate back to the input, so no event is omitted, duplicated, or
/// reordered.
pub proof fn lemma_batching_partitions<T>(s: Seq<T>, k: int)
    requires
        1 <= k,
    ensures
        chunked(s, k).len() == (s.len() + k - 1) / k,
        forall|i: int| 0 <= i < chunked(s, k).len() ==> #[trigger] chunked(s, k)[i].len() <= k,
        forall|i: int|
            0 <= i < chunked(s, k).len() - 1 ==> #[trigger] chunked(s, k)[i].len() == k,
        chunked(s, k).len() > 0 ==> chunked(s, k)[chunked(s, k).len() - 1].len() >= 1,
        chunked(s, k).flatten() == s,
    decreases s.len(),
{
    if s.len() == 0 {
        assert(chunked(s, k) =~= Seq::<Seq<T>>::empty());
        assert((0 + k - 1) / k == 0) by (nonlinear_arith)
            requires 1 <= k;
        assert(chunked(s, k).flatten() =~= s);
    } else if s.len() <= k {
        assert(chunked(s, k) =~= seq![s]);
        assert((s.len() + k - 1) / k == 1) by (nonlinear_arith)
            requires 1 <= k && 1 <= s.len() <= k;
        seq![s].lemma_flatten_one_element();
        assert(chunked(s, k).flatten() =~= s);
    } else {
        let head = s.take(k);
        let tail = s.skip(k);
        lemma_batching_partitions(tail, k);
        assert(chunked(s, k) =~= seq![head] + chunked(tail, k));
        assert(chunked(s, k).len() == 1 + (tail.len() + k - 1) / k);
        assert(1 + (s.len() - k + k - 1) / k == (s.len() + k - 1) / k) by (nonlinear_arith)
            requires 1 <= k && k < s.len();
        assert((seq![head] + chunked(tail, k)).flatten() =~= head + chunked(tail, k).flatten()) by {
            vstd::seq_lib::lemma_flatten_concat(seq![head], chunked(tail, k));
            seq![head].lemma_flatten_one_element();
        }
        assert(head + tail =~= s);
    }
}

/// Splits `events` into consecutive batches of at most `counters` events
/// each, preserving order; the last batch may be smaller.
pub fn batches(events: &Vec<String>, counters: usize) -> (bs: Vec<Vec<String>>)
    requires
        1 <= counters,
    ensures
        bs.deep_view() == chunked(events.deep_view(), counters as int),
{
    let ghost full = events.deep_view();
    let ghost k = counters as int;
    let mut bs: Vec<Vec<String>> = Vec::new();
    let mut i: usize = 0;
    proof {
        assert(full.skip(0) =~= full);
        assert(bs.deep_view() + chunked(full, k) =~= chunked(full, k));
    }
    while i < events.len()
        invariant
            1 <= counters,
            k == counters as int,
            full == events.deep_view(),
            i <= events.len(),
            full.len() == events.len(),
            chunked(full, k) == bs.deep_view() + chunked(full.skip(i as int), k),
        decreases events.len() - i,
    {
        let end = if events.len() - i >= counters {
            i + counters
        } else {
            events.len()
        };
        let mut b: Vec<String> = Vec::new();
        let mut j = i;
        while j < end
            invariant
                i <= j <= end <= events.len(),
                full == events.deep_view(),
                full.len() == events.len(),
                b.deep_view() == full.subrange(i as int, j as int),
            decreases end - j,
        {
            let ghost pre = b.deep_view();
            b.push(events[j].clone());
            proof {
                assert(b@.len() == pre.len() + 1);
                assert(b.deep_view().len() == b@.len());
                assert(pre.len() == j - i);
                assert(full.subrange(i as int, j as int + 1).len() == j + 1 - i);
                assert_seqs_equal!(b.deep_view() == full.subrange(i as int, j as int + 1), l => {
                    if l < pre.len() {
                        assert(b.deep_view()[l] == pre[l]);
                    } else {
                        assert(b@[l] == events@[j as int]);
                        assert(b.deep_view()[l] == events@[j as int].deep_view());
                    }
                });
            }
            j += 1;
        }
        let ghost rest = full.skip(i as int);
        let ghost bv = b.deep_view();
        let ghost bsv = bs.deep_view();
        proof {
            assert(rest.len() > 0);
            if rest.len() <= k {
                assert(end == events.len());
                assert(bv =~= rest);
                assert(chunked(rest, k) =~= seq![rest]);
            } else {
                assert(end == i + counters);
                assert(bv =~= rest.take(k));
                assert(rest.skip(k) =~= full.skip(end as int));
            }
            assert((bsv + seq![bv]) + chunked(full.skip(end as int), k) =~= bsv + (seq![bv]
                + chunked(full.skip(end as int), k)));
        }
        bs.push(b);
        proof {
            assert forall|l: int| 0 <= l < bs.deep_view().len() implies bs.deep_view()[l] == (bsv
                + seq![bv])[l] by {
                if l < bsv.len() {
                    assert(bs.deep_view()[l] == bsv[l]);
                }
            }
            assert(bs.deep_view() =~= bsv + seq![bv]);
        }
        i = end;
    }
    proof {
        assert(full.skip(i as int) =~= Seq::<Seq<char>>::empty());
        assert(chunked(full, k) =~= bs.deep_view());
    }
    bs
}

/// The identifiers of `s` joined with one comma between neighbours.
pub open spec fn joined(s: Seq<Seq<char>>) -> Seq<char>
    decreases s.len(),
{
    if s.len() == 0 {
        Seq::empty()
    } else if s.len() == 1 {
        s[0]
    } else {
        joined(s.drop_last()) + seq![','] + s.last()
    }
}

/// Joins one batch's event identifiers into the comma-separated list that
/// the measurement command takes.
pub fn comma_join(events: &Vec<String>) -> (r: String)
    ensures
        r@ == joined(events.deep_view()),
{
    let ghost full = events.deep_view();
    let mut r = String::new();
    let mut i: usize = 0;
    proof {
        assert(full.take(0) =~= Seq::<Seq<char>>::empty());
    }
    while i < events.len()
        invariant
            i <= events.len(),
            full == events.deep_view(),
            full.len() == events.len(),
            r@ == joined(full.take(i as int)),
        decreases events.len() - i,
    {
        if i > 0 {
            r.append(",");
        }
        r.append(events[i].as_str());
        proof {
            let t = full.take(i as int + 1);
            assert(t.drop_last() =~= full.take(i as int));
            assert(t.last() == full[i as int]);
            if i == 0 {
                assert(r@ =~= full[0]);
            } else {
                reveal_strlit(",");
                assert(","@ =~= seq![',']);
                assert(r@ =~= joined(full.take(i as int)) + seq![','] + full[i as int]);
            }
        }
        i += 1;
    }
    proof {
        assert(full.take(events@.len() as int) =~= full);
    }
    r
}

} // verus!
