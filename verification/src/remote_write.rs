//! Remote-write time series: before a series is sent, its labels are ordered by name and its
//! samples by timestamp.
use crate::distribution::{
    chars_le, lemma_chars_le_reflexive, lemma_chars_le_total, lemma_chars_le_transitive,
    lemma_filter_insert, lemma_filter_take_next, str_le,
};
use vstd::prelude::*;

verus! {

/// A label of a time series.
pub struct WriteLabel {
    pub name: String,
    pub value: String,
}

/// A time series: its labels, and its samples as `(value, timestamp)`.
pub struct TimeSeries<V> {
    pub labels: Vec<WriteLabel>,
    pub samples: Vec<(V, i64)>,
}

/// The labels named `n`.
pub open spec fn named(n: Seq<char>) -> spec_fn(WriteLabel) -> bool {
    |l: WriteLabel| l.name@ == n
}

/// The samples taken at `t`.
pub open spec fn taken_at<V>(t: i64) -> spec_fn((V, i64)) -> bool {
    |s: (V, i64)| s.1 == t
}

/// The labels are in order of their names.
pub open spec fn labels_sorted(ls: Seq<WriteLabel>) -> bool {
    forall|i: int, j: int| 0 <= i < j < ls.len() ==> chars_le(ls[i].name@, ls[j].name@)
}

/// The samples are in order of their timestamps.
pub open spec fn samples_sorted<V>(ss: Seq<(V, i64)>) -> bool {
    forall|i: int, j: int| 0 <= i < j < ss.len() ==> ss[i].1 <= ss[j].1
}

fn sort_labels(labels: Vec<WriteLabel>) -> (r: Vec<WriteLabel>)
    ensures
        r@.to_multiset() == labels@.to_multiset(),
        labels_sorted(r@),
        forall|q: Seq<char>| #[trigger] r@.filter(named(q)) == labels@.filter(named(q)),
{
    broadcast use vstd::seq_lib::group_to_multiset_ensures;
    let ghost all = labels@;
    let mut rest = labels;
    let mut rev: Vec<WriteLabel> = Vec::new();
    proof {
        assert(rest@.to_multiset().add(rev@.to_multiset()) =~= all.to_multiset());
        assert(all.take(all.len() as int) =~= all);
    }
    while rest.len() > 0
        invariant
            rest@.to_multiset().add(rev@.to_multiset()) == all.to_multiset(),
            rest@ == all.take(rest@.len() as int),
            rest@.len() + rev@.len() == all.len(),
            forall|i: int| 0 <= i < rev@.len() ==> #[trigger] rev@[i] == all[all.len() - 1 - i],
        decreases rest.len(),
    {
        let ghost r0 = rest@;
        let ghost v0 = rev@;
        let x = rest.pop().unwrap();
        rev.push(x);
        proof {
            assert(r0 =~= rest@.push(rev@.last()));
            assert(rev@ =~= v0.push(rev@.last()));
            assert(rest@ =~= all.take(rest@.len() as int));
            assert(rev@.last() == r0[r0.len() - 1]);
            vstd::seq_lib::to_multiset_build(rest@, rev@.last());
            vstd::seq_lib::to_multiset_build(v0, rev@.last());
            assert(rest@.to_multiset().add(rev@.to_multiset()) =~= r0.to_multiset().add(v0.to_multiset()));
        }
    }
    let mut out: Vec<WriteLabel> = Vec::new();
    proof {
        assert(rev@.to_multiset().add(out@.to_multiset()) =~= all.to_multiset());
        assert forall|q: Seq<char>| #[trigger] out@.filter(named(q)) == all.take(0).filter(named(q)) by {
            reveal(Seq::filter);
            assert(all.take(0) =~= out@);
        }
    }
    while rev.len() > 0
        invariant
            rev@.to_multiset().add(out@.to_multiset()) == all.to_multiset(),
            rev@.len() + out@.len() == all.len(),
            forall|i: int| 0 <= i < rev@.len() ==> #[trigger] rev@[i] == all[all.len() - 1 - i],
            forall|q: Seq<char>| #[trigger] out@.filter(named(q)) == all.take(out@.len() as int).filter(named(q)),
            labels_sorted(out@),
        decreases rev.len(),
    {
        let ghost v0 = rev@;
        let ghost o0 = out@;
        let x = rev.pop().unwrap();
        proof {
            assert(v0 =~= rev@.push(x));
            assert(x == v0[v0.len() - 1]);
            assert(x == all[o0.len() as int]);
            vstd::seq_lib::to_multiset_build(rev@, x);
        }
        let mut k: usize = 0;
        while k < out.len() && str_le(out[k].name.as_str(), x.name.as_str())
            invariant
                k <= out@.len(),
                forall|j: int| 0 <= j < k ==> chars_le(#[trigger] out@[j].name@, x.name@),
            decreases out@.len() - k,
        {
            k = k + 1;
        }
        let ghost before = out@;
        proof {
            if k < out@.len() {
                lemma_chars_le_total(out@[k as int].name@, x.name@);
            }
        }
        out.insert(k, x);
        proof {
            assert(before == o0);
            vstd::seq_lib::to_multiset_insert(before, k as int, out@[k as int]);
            assert(out@ == before.insert(k as int, out@[k as int]));
            assert(rev@.to_multiset().add(out@.to_multiset()) =~= v0.to_multiset().add(o0.to_multiset()));
            assert forall|i: int, j: int| 0 <= i < j < out@.len() implies chars_le(
                out@[i].name@,
                out@[j].name@,
            ) by {
                if j < k {
                    assert(out@[i] == before[i] && out@[j] == before[j]);
                } else if j == k {
                    assert(out@[i] == before[i]);
                } else if i == k {
                    assert(out@[j] == before[j - 1]);
                    if j - 1 > k {
                        lemma_chars_le_transitive(x.name@, before[k as int].name@, before[j - 1].name@);
                    }
                } else if i < k {
                    assert(out@[i] == before[i] && out@[j] == before[j - 1]);
                } else {
                    assert(out@[i] == before[i - 1] && out@[j] == before[j - 1]);
                }
            }
            let xv = out@[k as int];
            assert forall|q: Seq<char>| #[trigger] out@.filter(named(q)) == all.take(out@.len() as int).filter(
                named(q),
            ) by {
                let p = named(q);
                if p(xv) {
                    assert forall|j: int| k <= j < before.len() implies !p(#[trigger] before[j]) by {
                        if p(before[j]) {
                            lemma_chars_le_reflexive(before[j].name@);
                            if j > k {
                                assert(chars_le(before[k as int].name@, before[j].name@));
                            }
                        }
                    }
                }
                lemma_filter_insert(before, k as int, xv, p);
                lemma_filter_take_next(all, o0.len() as int, p);
            }
        }
    }
    proof {
        assert(all.take(all.len() as int) =~= all);
    }
    out
}

fn sort_samples<V>(samples: Vec<(V, i64)>) -> (r: Vec<(V, i64)>)
    ensures
        r@.to_multiset() == samples@.to_multiset(),
        samples_sorted(r@),
        forall|q: i64| #[trigger] r@.filter(taken_at::<V>(q)) == samples@.filter(taken_at::<V>(q)),
{
    broadcast use vstd::seq_lib::group_to_multiset_ensures;
    let ghost all = samples@;
    let mut rest = samples;
    let mut rev: Vec<(V, i64)> = Vec::new();
    proof {
        assert(rest@.to_multiset().add(rev@.to_multiset()) =~= all.to_multiset());
        assert(all.take(all.len() as int) =~= all);
    }
    while rest.len() > 0
        invariant
            rest@.to_multiset().add(rev@.to_multiset()) == all.to_multiset(),
            rest@ == all.take(rest@.len() as int),
            rest@.len() + rev@.len() == all.len(),
            forall|i: int| 0 <= i < rev@.len() ==> #[trigger] rev@[i] == all[all.len() - 1 - i],
        decreases rest.len(),
    {
        let ghost r0 = rest@;
        let ghost v0 = rev@;
        let x = rest.pop().unwrap();
        rev.push(x);
        proof {
            assert(r0 =~= rest@.push(rev@.last()));
            assert(rev@ =~= v0.push(rev@.last()));
            assert(rest@ =~= all.take(rest@.len() as int));
            assert(rev@.last() == r0[r0.len() - 1]);
            vstd::seq_lib::to_multiset_build(rest@, rev@.last());
            vstd::seq_lib::to_multiset_build(v0, rev@.last());
            assert(rest@.to_multiset().add(rev@.to_multiset()) =~= r0.to_multiset().add(v0.to_multiset()));
        }
    }
    let mut out: Vec<(V, i64)> = Vec::new();
    proof {
        assert(rev@.to_multiset().add(out@.to_multiset()) =~= all.to_multiset());
        assert forall|q: i64| #[trigger] out@.filter(taken_at::<V>(q)) == all.take(0).filter(taken_at::<V>(q)) by {
            reveal(Seq::filter);
            assert(all.take(0) =~= out@);
        }
    }
    while rev.len() > 0
        invariant
            rev@.to_multiset().add(out@.to_multiset()) == all.to_multiset(),
            rev@.len() + out@.len() == all.len(),
            forall|i: int| 0 <= i < rev@.len() ==> #[trigger] rev@[i] == all[all.len() - 1 - i],
            forall|q: i64| #[trigger] out@.filter(taken_at::<V>(q)) == all.take(out@.len() as int).filter(taken_at::<V>(q)),
            samples_sorted(out@),
        decreases rev.len(),
    {
        let ghost v0 = rev@;
        let ghost o0 = out@;
        let x = rev.pop().unwrap();
        proof {
            assert(v0 =~= rev@.push(x));
            assert(x == v0[v0.len() - 1]);
            assert(x == all[o0.len() as int]);
            vstd::seq_lib::to_multiset_build(rev@, x);
        }
        let mut k: usize = 0;
        while k < out.len() && out[k].1 <= x.1
            invariant
                k <= out@.len(),
                forall|j: int| 0 <= j < k ==> (#[trigger] out@[j]).1 <= x.1,
            decreases out@.len() - k,
        {
            k = k + 1;
        }
        let ghost before = out@;
        out.insert(k, x);
        proof {
            assert(before == o0);
            vstd::seq_lib::to_multiset_insert(before, k as int, out@[k as int]);
            assert(out@ == before.insert(k as int, out@[k as int]));
            assert(rev@.to_multiset().add(out@.to_multiset()) =~= v0.to_multiset().add(o0.to_multiset()));
            assert forall|i: int, j: int| 0 <= i < j < out@.len() implies out@[i].1 <= out@[j].1 by {
                if j < k {
                    assert(out@[i] == before[i] && out@[j] == before[j]);
                } else if j == k {
                    assert(out@[i] == before[i]);
                } else if i == k {
                    assert(out@[j] == before[j - 1]);
                } else if i < k {
                    assert(out@[i] == before[i] && out@[j] == before[j - 1]);
                } else {
                    assert(out@[i] == before[i - 1] && out@[j] == before[j - 1]);
                }
            }
            let xv = out@[k as int];
            assert forall|q: i64| #[trigger] out@.filter(taken_at::<V>(q)) == all.take(out@.len() as int).filter(
                taken_at::<V>(q),
            ) by {
                let p = taken_at::<V>(q);
                if p(xv) {
                    assert forall|j: int| k <= j < before.len() implies !p(#[trigger] before[j]) by {
                        if p(before[j]) && j > k {
                            assert(before[k as int].1 <= before[j].1);
                        }
                    }
                }
                lemma_filter_insert(before, k as int, xv, p);
                lemma_filter_take_next(all, o0.len() as int, p);
            }
        }
    }
    proof {
        assert(all.take(all.len() as int) =~= all);
    }
    out
}

impl<V> TimeSeries<V> {
    /// Sorts the labels by name, and the samples by timestamp, as the remote-write
    /// specification requires. Labels and samples are only reordered, and the sort is stable:
    /// labels of one name, and samples of one timestamp, keep their order.
    pub fn sort_labels_and_samples(&mut self)
        ensures
            final(self).labels@.to_multiset() == old(self).labels@.to_multiset(),
            final(self).samples@.to_multiset() == old(self).samples@.to_multiset(),
            labels_sorted(final(self).labels@),
            samples_sorted(final(self).samples@),
            forall|n: Seq<char>| #[trigger] final(self).labels@.filter(named(n)) == old(self).labels@.filter(named(n)),
            forall|t: i64| #[trigger] final(self).samples@.filter(taken_at::<V>(t)) == old(self).samples@.filter(
                taken_at::<V>(t),
            ),
    {
        let mut labels: Vec<WriteLabel> = Vec::new();
        std::mem::swap(&mut labels, &mut self.labels);
        self.labels = sort_labels(labels);
        let mut samples: Vec<(V, i64)> = Vec::new();
        std::mem::swap(&mut samples, &mut self.samples);
        self.samples = sort_samples(samples);
    }
}

} // verus!
