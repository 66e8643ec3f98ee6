//! Format-agnostic pieces of a rendered Prometheus snapshot: metric kinds, label pairs, and the
//! sparse span encoding of native histogram buckets.
use std::collections::BTreeMap;
use vstd::prelude::*;
use vstd::std_specs::btree::{group_btree_axioms, spec_btree_map_iter};
use vstd::std_specs::iter::IteratorSpec;
use vstd::std_specs::cmp::OrdSpec;

verus! {

broadcast use group_btree_axioms;

/// A single label key-value pair attached to a metric sample.
pub struct LabelPair {
    /// The label name (e.g. `"method"`).
    pub label: String,
    /// The label value (e.g. `"GET"`).
    pub value: String,
}

/// The Prometheus metric type of a metric family.
#[derive(PartialEq, Eq, Structural, Clone, Copy)]
pub enum MetricKind {
    /// A monotonically increasing counter.
    Counter,
    /// A gauge that can go up and down.
    Gauge,
    /// A client-side summary with pre-computed quantiles.
    Summary,
    /// A classic or native Prometheus histogram.
    Histogram,
}

/// A contiguous run of populated buckets in a native histogram, encoded as an offset from the
/// previous span's end and a length.
pub struct BucketSpan {
    /// Signed offset from the expected next bucket index to the start of this span.
    pub offset: i32,
    /// Number of consecutive buckets in this span.
    pub length: u32,
}

/// Splits rendered label pairs (`(label, value)`) into [`LabelPair`]s, in order.
pub fn get_labels(labels: Vec<(String, String)>) -> (r: Vec<LabelPair>)
    ensures
        r@.len() == labels@.len(),
        forall|i: int|
            0 <= i < r@.len() ==> (#[trigger] r@[i]).label == labels@[i].0 && r@[i].value
                == labels@[i].1,
{
    let mut out: Vec<LabelPair> = Vec::new();
    let mut rest = labels;
    let ghost orig = rest@;
    let mut rev: Vec<(String, String)> = Vec::new();
    // Take the pairs out back to front, then emit them front to back.
    while rest.len() > 0
        invariant
            rest@.len() + rev@.len() == orig.len(),
            forall|k: int| 0 <= k < rest@.len() ==> #[trigger] rest@[k] == orig[k],
            forall|k: int|
                0 <= k < rev@.len() ==> #[trigger] rev@[k] == orig[orig.len() - 1 - k],
        decreases rest.len(),
    {
        let p = rest.pop().unwrap();
        rev.push(p);
    }
    while rev.len() > 0
        invariant
            out@.len() + rev@.len() == orig.len(),
            forall|k: int|
                0 <= k < rev@.len() ==> #[trigger] rev@[k] == orig[orig.len() - 1 - k],
            forall|k: int|
                0 <= k < out@.len() ==> (#[trigger] out@[k]).label == orig[k].0 && out@[k].value
                    == orig[k].1,
        decreases rev.len(),
    {
        let (label, value) = rev.pop().unwrap();
        out.push(LabelPair { label, value });
    }
    out
}

// ---------------------------------------------------------------------------------------------
// Native histogram span encoding
// ---------------------------------------------------------------------------------------------

/// Encoder state: spans as `(offset, length)`, deltas, the previous count, and the next
/// expected bucket index.
pub type SpanState = (Seq<(int, int)>, Seq<int>, int, int);

/// The deltas for a gap of `d` empty buckets bridged inside a span: the first one cancels the
/// previous count, the others are zero.
pub open spec fn gap_deltas(d: int, prev: int) -> Seq<int> {
    if d <= 0 {
        Seq::empty()
    } else {
        seq![-prev] + Seq::new((d - 1) as nat, |k: int| 0int)
    }
}

/// The spans with the last one lengthened by `n`.
pub open spec fn lengthen_last(spans: Seq<(int, int)>, n: int) -> Seq<(int, int)> {
    spans.update(spans.len() - 1, (spans.last().0, spans.last().1 + n))
}

/// One bucket `(i, c)` added to the encoding. A gap of more than two buckets (or the first
/// bucket) starts a new span; a smaller gap is bridged with empty buckets in the last span.
pub open spec fn encode_step(st: SpanState, i: int, c: int) -> SpanState {
    let (spans, deltas, prev, next) = st;
    let d = i - next;
    if spans.len() == 0 || d > 2 {
        (spans.push((d, 1)), deltas.push(c - prev), c, i + 1)
    } else {
        let prev2 = if d > 0 {
            0
        } else {
            prev
        };
        (lengthen_last(spans, d + 1), deltas + gap_deltas(d, prev) + seq![c - prev2], c, i + 1)
    }
}

/// The encoding of the buckets `s`, given in increasing index order.
pub open spec fn encode(s: Seq<(i32, u64)>) -> SpanState
    decreases s.len(),
{
    if s.len() == 0 {
        (Seq::empty(), Seq::empty(), 0, 0)
    } else {
        encode_step(encode(s.drop_last()), s.last().0 as int, s.last().1 as int)
    }
}

/// `s` lists exactly the buckets of `m`.
pub open spec fn lists_buckets(s: Seq<(i32, u64)>, m: Map<i32, u64>) -> bool {
    &&& s.len() == m.dom().len()
    &&& forall|k: int| 0 <= k < s.len() ==> m.contains_key((#[trigger] s[k]).0) && m[s[k].0] == s[k].1
}

/// The items of a map iterator as plain pairs.
pub open spec fn pairs_of(v: Seq<(&i32, &u64)>) -> Seq<(i32, u64)> {
    v.map_values(|kv: (&i32, &u64)| (*kv.0, *kv.1))
}

/// Strictly increasing indices.
pub open spec fn strictly_increasing(s: Seq<(i32, u64)>) -> bool {
    forall|a: int, b: int| 0 <= a < b < s.len() ==> s[a].0 < s[b].0
}

proof fn lemma_sorted_buckets_facts(m: &BTreeMap<i32, u64>, v: Seq<(&i32, &u64)>)
    requires
        v == spec_btree_map_iter(m).remaining(),
        vstd::std_specs::btree::key_obeys_cmp_spec::<i32>() ==> vstd::std_specs::btree::increasing_seq(
            v.map_values(|kv: (&i32, &u64)| *kv.0),
        ),
    ensures
        strictly_increasing(pairs_of(v)),
        lists_buckets(pairs_of(v), m@),
        forall|key: i32|
            #[trigger] m@.contains_key(key) ==> exists|j: int|
                0 <= j < pairs_of(v).len() && pairs_of(v)[j].0 == key,
{
    broadcast use vstd::laws_cmp::group_laws_cmp;
    assert(vstd::laws_cmp::obeys_cmp::<i32>());
    let keys = v.map_values(|kv: (&i32, &u64)| *kv.0);
    let s = pairs_of(v);
    assert forall|a: int, b: int| 0 <= a < b < s.len() implies s[a].0 < s[b].0 by {
        assert(keys[a] == s[a].0 && keys[b] == s[b].0);
        assert(keys[a].cmp_spec(&keys[b]) is Less);
    }
    assert forall|k: int| 0 <= k < s.len() implies m@.contains_key((#[trigger] s[k]).0)
        && m@[s[k].0] == s[k].1 by {
        assert(m@.contains_key(*v[k].0) && m@[*v[k].0] == *v[k].1);
    }
    assert forall|key: i32| #[trigger] m@.contains_key(key) implies exists|j: int|
        0 <= j < s.len() && s[j].0 == key by {
        assert(v.contains((&key, &m@[key])));
        let j = choose|j: int| 0 <= j < v.len() && v[j] == (&key, &m@[key]);
        assert(s[j].0 == key);
    }
}

/// Neighbouring bucket indices of `m` (with no index between them) are at most `2^31` apart,
/// so that the gap between them fits an `i32`.
pub open spec fn gaps_fit(m: Map<i32, u64>) -> bool {
    forall|a: i32, b: i32| #[trigger] neighbours(m, a, b) ==> b - a <= 0x8000_0000
}

/// `a` and `b` are indices of `m`, `a < b`, and no index of `m` lies between them.
pub open spec fn neighbours(m: Map<i32, u64>, a: i32, b: i32) -> bool {
    &&& m.contains_key(a)
    &&& m.contains_key(b)
    &&& a < b
    &&& forall|c: i32| #[trigger] m.contains_key(c) ==> !(a < c < b)
}

/// The spans as `(offset, length)` pairs.
pub open spec fn spans_view(v: Seq<BucketSpan>) -> Seq<(int, int)> {
    v.map_values(|b: BucketSpan| (b.offset as int, b.length as int))
}

/// The deltas as integers.
pub open spec fn deltas_view(v: Seq<i64>) -> Seq<int> {
    v.map_values(|d: i64| d as int)
}

/// Bounds that keep the exec encoding free of overflow.
pub open spec fn encode_bounded(st: SpanState, n: int) -> bool {
    let (spans, deltas, prev, next) = st;
    &&& 0 <= prev <= i64::MAX
    &&& forall|k: int| 0 <= k < spans.len() ==> 0 <= (#[trigger] spans[k]).1 <= next - i32::MIN
    &&& forall|k: int| 0 <= k < spans.len() ==> i32::MIN <= (#[trigger] spans[k]).0 <= i32::MAX
    &&& forall|k: int| 0 <= k < deltas.len() ==> -i64::MAX <= #[trigger] deltas[k] <= i64::MAX
}

proof fn lemma_encode_step_bounded(st: SpanState, n: int, i: int, c: int)
    requires
        encode_bounded(st, n),
        0 <= c <= i64::MAX,
        st.0.len() == 0 ==> st.3 == 0,
        st.0.len() > 0 ==> st.3 <= i && i - st.3 <= i32::MAX,
        i32::MIN <= i < i32::MAX,
        n >= 0,
    ensures
        encode_bounded(encode_step(st, i, c), n + 1),
        encode_step(st, i, c).0.len() > 0,
{
    let (spans, deltas, prev, next) = st;
    let d = i - next;
    let r = encode_step(st, i, c);
    if spans.len() == 0 || d > 2 {
        assert forall|k: int| 0 <= k < r.0.len() implies 0 <= (#[trigger] r.0[k]).1 <= r.3 - i32::MIN by {
            if k < spans.len() {
                assert(r.0[k] == spans[k]);
            }
        }
        assert forall|k: int| 0 <= k < r.0.len() implies i32::MIN <= (#[trigger] r.0[k]).0 <= i32::MAX by {
            if k < spans.len() {
                assert(r.0[k] == spans[k]);
            }
        }
        assert forall|k: int| 0 <= k < r.1.len() implies -i64::MAX <= #[trigger] r.1[k] <= i64::MAX by {
            if k < deltas.len() {
                assert(r.1[k] == deltas[k]);
            }
        }
    } else {
        let prev2 = if d > 0 { 0 } else { prev };
        let g = gap_deltas(d, prev);
        assert forall|k: int| 0 <= k < g.len() implies -i64::MAX <= #[trigger] g[k] <= i64::MAX by {
            if k > 0 {
                assert(g[k] == 0);
            }
        }
        let nd = deltas + g + seq![c - prev2];
        assert(nd == r.1);
        assert forall|k: int| 0 <= k < nd.len() implies -i64::MAX <= #[trigger] nd[k] <= i64::MAX by {
            if k < deltas.len() {
                assert(nd[k] == deltas[k]);
            } else if k < deltas.len() + g.len() {
                assert(nd[k] == g[k - deltas.len()]);
            }
        }
        assert forall|k: int| 0 <= k < r.0.len() implies 0 <= (#[trigger] r.0[k]).1 <= r.3 - i32::MIN by {
            if k < spans.len() - 1 {
                assert(r.0[k] == spans[k]);
            } else {
                assert(spans.last() == spans[spans.len() - 1]);
            }
        }
        assert forall|k: int| 0 <= k < r.0.len() implies i32::MIN <= (#[trigger] r.0[k]).0 <= i32::MAX by {
            if k < spans.len() - 1 {
                assert(r.0[k] == spans[k]);
            } else {
                assert(spans.last() == spans[spans.len() - 1]);
            }
        }
    }
}

proof fn lemma_encode_bounds(s: Seq<(i32, u64)>)
    requires
        strictly_increasing(s),
        forall|k: int| 0 < k < s.len() ==> #[trigger] s[k].0 - s[k - 1].0 <= 0x8000_0000,
        forall|k: int| 0 <= k < s.len() ==> (#[trigger] s[k]).1 <= i64::MAX,
        forall|k: int| 0 <= k < s.len() ==> (#[trigger] s[k]).0 != i32::MAX,
    ensures
        encode_bounded(encode(s), s.len() as int),
        s.len() == 0 ==> encode(s).0.len() == 0 && encode(s).3 == 0 && encode(s).2 == 0,
        s.len() > 0 ==> encode(s).3 == s.last().0 + 1 && encode(s).2 == s.last().1 && encode(
            s,
        ).0.len() > 0,
    decreases s.len(),
{
    if s.len() > 0 {
        let p = s.drop_last();
        assert(strictly_increasing(p)) by {
            assert forall|a: int, b: int| 0 <= a < b < p.len() implies p[a].0 < p[b].0 by {
                assert(p[a] == s[a] && p[b] == s[b]);
            }
        }
        assert forall|k: int| 0 <= k < p.len() implies (#[trigger] p[k]).1 <= i64::MAX by {
            assert(p[k] == s[k]);
        }
        assert forall|k: int| 0 <= k < p.len() implies (#[trigger] p[k]).0 != i32::MAX by {
            assert(p[k] == s[k]);
        }
        assert forall|k: int| 0 < k < p.len() implies #[trigger] p[k].0 - p[k - 1].0 <= 0x8000_0000 by {
            assert(p[k] == s[k] && p[k - 1] == s[k - 1]);
            assert(s[k].0 - s[k - 1].0 <= 0x8000_0000);
        }
        lemma_encode_bounds(p);
        if p.len() > 0 {
            assert(p.last() == s[s.len() - 2]);
            assert(s[s.len() - 2].0 < s.last().0);
            assert(s[s.len() - 1].0 - s[s.len() - 2].0 <= 0x8000_0000);
        }
        assert(s.last() == s[s.len() - 1]);
        lemma_encode_step_bounded(encode(p), p.len() as int, s.last().0 as int, s.last().1 as int);
    }
}

proof fn lemma_all_bucket_facts(buckets: &BTreeMap<i32, u64>, all: Seq<(i32, u64)>)
    requires
        strictly_increasing(all),
        lists_buckets(all, buckets@),
        forall|key: i32|
            #[trigger] buckets@.contains_key(key) ==> exists|j: int|
                0 <= j < all.len() && all[j].0 == key,
        !buckets@.contains_key(i32::MAX),
        forall|k: i32| #[trigger] buckets@.contains_key(k) ==> buckets@[k] <= i64::MAX,
        gaps_fit(buckets@),
    ensures
        forall|k: int| 0 <= k < all.len() ==> (#[trigger] all[k]).1 <= i64::MAX,
        forall|k: int| 0 <= k < all.len() ==> (#[trigger] all[k]).0 != i32::MAX,
        forall|k: int| 0 < k < all.len() ==> #[trigger] all[k].0 - all[k - 1].0 <= 0x8000_0000,
{
        assert forall|k: int| 0 <= k < all.len() implies (#[trigger] all[k]).1 <= i64::MAX
            && all[k].0 != i32::MAX by {
            assert(buckets@.contains_key(all[k].0));
        }
        assert forall|k: int| 0 < k < all.len() implies #[trigger] all[k].0 - all[k - 1].0
            <= 0x8000_0000 by {
            let a = all[k - 1].0;
            let b = all[k].0;
            assert(buckets@.contains_key(a) && buckets@.contains_key(b));
            assert forall|c: i32| #[trigger] buckets@.contains_key(c) implies !(a < c < b) by {
                let j = choose|j: int| 0 <= j < all.len() && all[j].0 == c;
                if a < c < b {
                    if j < k {
                        assert(all[j].0 <= all[k - 1].0) by {
                            if j < k - 1 {
                                assert(all[j].0 < all[k - 1].0);
                            }
                        }
                    } else {
                        assert(all[k].0 <= all[j].0) by {
                            if j > k {
                                assert(all[k].0 < all[j].0);
                            }
                        }
                    }
                }
            }
            assert(neighbours(buckets@, a, b));
        }
}

proof fn lemma_prefix_facts(all: Seq<(i32, u64)>, k: int)
    requires
        0 <= k < all.len(),
        strictly_increasing(all),
        forall|q: int| 0 <= q < all.len() ==> (#[trigger] all[q]).1 <= i64::MAX,
        forall|q: int| 0 <= q < all.len() ==> (#[trigger] all[q]).0 != i32::MAX,
        forall|q: int| 0 < q < all.len() ==> #[trigger] all[q].0 - all[q - 1].0 <= 0x8000_0000,
    ensures
        encode_bounded(encode(all.take(k)), k),
        encode_bounded(encode(all.take(k + 1)), k + 1),
        k == 0 ==> encode(all.take(k)).0.len() == 0 && encode(all.take(k)).3 == 0 && encode(all.take(k)).2 == 0,
        k > 0 ==> encode(all.take(k)).3 == all[k - 1].0 + 1 && encode(all.take(k)).2 == all[k - 1].1 && encode(all.take(k)).0.len() > 0,
{
            assert(strictly_increasing(all.take(k))) by {
                assert forall|a: int, b: int| 0 <= a < b < all.take(k).len() implies all.take(
                    k,
                )[a].0 < all.take(k)[b].0 by {
                    assert(all.take(k)[a] == all[a] && all.take(k)[b] == all[b]);
                }
            }
            assert forall|q: int| 0 <= q < all.take(k).len() implies (#[trigger] all.take(k)[q]).1
                <= i64::MAX && all.take(k)[q].0 != i32::MAX by {
                assert(all.take(k)[q] == all[q]);
            }
            assert forall|q: int| 0 < q < all.take(k).len() implies #[trigger] all.take(k)[q].0
                - all.take(k)[q - 1].0 <= 0x8000_0000 by {
                assert(all.take(k)[q] == all[q] && all.take(k)[q - 1] == all[q - 1]);
                assert(all[q].0 - all[q - 1].0 <= 0x8000_0000);
            }
            let t2 = all.take(k + 1);
            assert forall|q: int| 0 < q < t2.len() implies #[trigger] t2[q].0 - t2[q - 1].0
                <= 0x8000_0000 by {
                assert(t2[q] == all[q] && t2[q - 1] == all[q - 1]);
                assert(all[q].0 - all[q - 1].0 <= 0x8000_0000);
            }
            assert forall|q: int| 0 <= q < t2.len() implies (#[trigger] t2[q]).1 <= i64::MAX
                && t2[q].0 != i32::MAX by {
                assert(t2[q] == all[q]);
            }
            let t1 = all.take(k + 1);
            assert(strictly_increasing(t1)) by {
                assert forall|a: int, b: int| 0 <= a < b < t1.len() implies t1[a].0 < t1[b].0 by {
                    assert(t1[a] == all[a] && t1[b] == all[b]);
                }
            }
            lemma_encode_bounds(all.take(k));
            lemma_encode_bounds(all.take(k + 1));
    if k > 0 {
        assert(all.take(k).last() == all[k - 1]);
    }
}

proof fn lemma_encoding_shape(s: Seq<(i32, u64)>)
    ensures
        encode(s).0.len() == 0 <==> s.len() == 0,
        encode(s).1.len() >= s.len(),
        forall|k: int| 0 < k < encode(s).0.len() ==> (#[trigger] encode(s).0[k]).0 > 2,
    decreases s.len(),
{
    if s.len() > 0 {
        let p = s.drop_last();
        lemma_encoding_shape(p);
        let st = encode(p);
        let r = encode(s);
        assert(r == encode_step(st, s.last().0 as int, s.last().1 as int));
        assert forall|k: int| 0 < k < r.0.len() implies (#[trigger] r.0[k]).0 > 2 by {
            if k < st.0.len() {
                if st.0.len() > 0 && k == st.0.len() - 1 {
                    assert(st.0.last() == st.0[k]);
                }
                assert(r.0[k].0 == st.0[k].0);
            }
        }
    }
}

/// The total length of spans.
pub open spec fn span_lengths_sum(spans: Seq<(int, int)>) -> int
    decreases spans.len(),
{
    if spans.len() == 0 {
        0
    } else {
        span_lengths_sum(spans.drop_last()) + spans.last().1
    }
}

proof fn lemma_span_lengths(s: Seq<(i32, u64)>)
    requires
        strictly_increasing(s),
    ensures
        span_lengths_sum(encode(s).0) == encode(s).1.len(),
        s.len() > 0 ==> encode(s).3 == s.last().0 + 1,
    decreases s.len(),
{
    if s.len() > 0 {
        let p = s.drop_last();
        assert(strictly_increasing(p)) by {
            assert forall|a: int, b: int| 0 <= a < b < p.len() implies p[a].0 < p[b].0 by {
                assert(p[a] == s[a] && p[b] == s[b]);
            }
        }
        lemma_span_lengths(p);
        let (spans, deltas, prev, next) = encode(p);
        let i = s.last().0 as int;
        let c = s.last().1 as int;
        let d = i - next;
        if spans.len() > 0 && d <= 2 {
            assert(p.len() > 0);
            assert(p.last() == s[s.len() - 2]);
            assert(d >= 0);
            let l = lengthen_last(spans, d + 1);
            assert(l.drop_last() =~= spans.drop_last());
            assert(gap_deltas(d, prev).len() == d);
        } else {
            assert(spans.push((d, 1)).drop_last() =~= spans);
        }
    }
}

proof fn lemma_spans_offsets(v: Seq<BucketSpan>)
    requires
        forall|k: int| 0 < k < spans_view(v).len() ==> (#[trigger] spans_view(v)[k]).0 > 2,
    ensures
        forall|k: int| 0 < k < v.len() ==> (#[trigger] v[k]).offset > 2,
{
    assert forall|k: int| 0 < k < v.len() implies (#[trigger] v[k]).offset > 2 by {
        assert(spans_view(v)[k] == (v[k].offset as int, v[k].length as int));
    }
}

proof fn lemma_make_buckets_result(all: Seq<(i32, u64)>, spans: Seq<BucketSpan>, deltas: Seq<i64>)
    requires
        strictly_increasing(all),
        spans_view(spans) == encode(all).0,
        deltas_view(deltas) == encode(all).1,
    ensures
        spans.len() == 0 <==> all.len() == 0,
        deltas.len() == 0 <==> all.len() == 0,
        forall|k: int| 0 < k < spans.len() ==> (#[trigger] spans[k]).offset > 2,
        span_lengths_sum(spans_view(spans)) == deltas.len(),
        decode(spans_view(spans), deltas_view(deltas)).0 == with_bridged_gaps(all),
{
    lemma_encoding_decodes(all);
    lemma_encoding_shape(all);
    lemma_span_lengths(all);
    assert(deltas_view(deltas).len() == deltas.len());
    assert(spans_view(spans).len() == spans.len());
    lemma_spans_offsets(spans);
}

/// Encodes native histogram buckets (bucket index to count) as spans and delta-encoded counts.
///
/// The buckets are visited in increasing index order. The first bucket, and every bucket that
/// follows a gap of more than two empty buckets, starts a new span whose offset is the distance
/// from the next expected index; smaller gaps are bridged inside the current span with empty
/// buckets. Each bucket contributes the difference between its count and the previous count.
#[verifier::rlimit(100)]
#[verifier::spinoff_prover]
pub fn make_buckets(buckets: BTreeMap<i32, u64>) -> (r: (Vec<BucketSpan>, Vec<i64>))
    requires
        !buckets@.contains_key(i32::MAX),
        forall|k: i32| #[trigger] buckets@.contains_key(k) ==> buckets@[k] <= i64::MAX,
        gaps_fit(buckets@),
    ensures
        r.0@.len() == 0 <==> buckets@.dom().len() == 0,
        r.1@.len() == 0 <==> buckets@.dom().len() == 0,
        forall|k: int| 0 < k < r.0@.len() ==> (#[trigger] r.0@[k]).offset > 2,
        span_lengths_sum(spans_view(r.0@)) == r.1@.len(),
        exists|s: Seq<(i32, u64)>|
            {
                &&& strictly_increasing(s)
                &&& lists_buckets(s, buckets@)
                &&& spans_view(r.0@) == encode(s).0
                &&& deltas_view(r.1@) == encode(s).1
                &&& decode(spans_view(r.0@), deltas_view(r.1@)).0 == with_bridged_gaps(s)
            },
{
    let mut spans: Vec<BucketSpan> = Vec::new();
    let mut deltas: Vec<i64> = Vec::new();
    let mut prev_count: i64 = 0;
    let mut next_i: i32 = 0;
    let mut first = true;
    let iter = buckets.iter();
    let ghost all = pairs_of(iter.remaining());
    proof {
        lemma_sorted_buckets_facts(&buckets, iter.remaining());
        lemma_all_bucket_facts(&buckets, all);
    }
    for (i, count) in it: iter
        invariant
            strictly_increasing(all),
            lists_buckets(all, buckets@),
            forall|k: int| 0 <= k < all.len() ==> (#[trigger] all[k]).1 <= i64::MAX,
            forall|k: int| 0 <= k < all.len() ==> (#[trigger] all[k]).0 != i32::MAX,
            forall|k: int| 0 < k < all.len() ==> #[trigger] all[k].0 - all[k - 1].0 <= 0x8000_0000,
            it.seq().map_values(|kv: (&i32, &u64)| (*kv.0, *kv.1)) == all,
            first == (it.index() == 0),
            ({
                let (sp, de, pc, ni) = encode(all.take(it.index() as int));
                &&& spans_view(spans@) == sp
                &&& deltas_view(deltas@) == de
                &&& prev_count == pc
                &&& next_i == ni
            }),
    {
        let ghost k = it.index() as int;
        proof {
            let t = all.take(k + 1);
            assert(t.drop_last() =~= all.take(k));
            assert(t.last() == all[k]);
            assert(all[k] == (*i, *count));
            lemma_prefix_facts(all, k);
            if k > 0 {
                assert(all.take(k).last() == all[k - 1]);
                assert(all[k - 1].0 < all[k].0);
                assert(all[k].0 - all[k - 1].0 <= 0x8000_0000);
            }
        }
        let count = *count as i64;
        let i = *i;
        let i_delta = i - next_i;
        if first || i_delta > 2 {
            first = false;
            spans.push(BucketSpan { offset: i_delta, length: 0 });
        } else {
            let mut g: i32 = 0;
            while g < i_delta
                invariant
                    0 <= g <= i_delta <= 2,
                    spans@.len() > 0,
                    ({
                        let (sp, de, pc, ni) = encode(all.take(k));
                        &&& spans_view(spans@) == lengthen_last(sp, g as int)
                        &&& deltas_view(deltas@) == de + gap_deltas(g as int, pc)
                        &&& prev_count == (if g > 0 { 0 } else { pc })
                        &&& encode_bounded(encode(all.take(k)), k)
                        &&& sp.len() > 0
                    }),
                    i - next_i == i_delta,
                    i < i32::MAX,
                    next_i == encode(all.take(k)).3,
                decreases i_delta - g,
            {
                let last = spans.len() - 1;
                let old_span = spans[last].length;
                let off = spans[last].offset;
                let ghost before = spans@;
                proof {
                    let (sp, de, pc, ni) = encode(all.take(k));
                    assert(spans_view(spans@).len() == spans@.len());
                    assert(spans_view(spans@)[last as int] == (
                    spans@[last as int].offset as int,
                    spans@[last as int].length as int,
                    ));
                    assert(spans_view(spans@)[last as int] == lengthen_last(sp, g as int)[last as int]);
                    assert(sp[sp.len() - 1].1 <= ni - i32::MIN);
                    assert(old_span == sp[sp.len() - 1].1 + g);
                }
                spans.set(last, BucketSpan { offset: off, length: old_span + 1 });
                let ghost dbefore = deltas@;
                let neg = -prev_count;
                deltas.push(neg);
                proof {
                    assert(deltas_view(deltas@) =~= deltas_view(dbefore).push(neg as int));
                    assert(spans_view(spans@) =~= spans_view(before).update(
                        last as int,
                        (off as int, old_span + 1),
                    ));
                    let (sp, de, pc, ni) = encode(all.take(k));
                    assert(gap_deltas(g as int + 1, pc) =~= gap_deltas(g as int, pc).push(
                        if g == 0 { -pc } else { 0 },
                    ));
                    assert(spans_view(spans@) =~= lengthen_last(sp, g as int + 1));
                    assert(deltas_view(deltas@) =~= de + gap_deltas(g as int + 1, pc));
                }
                prev_count = 0;
                g = g + 1;
            }
        }
        let last = spans.len() - 1;
        let old_len = spans[last].length;
        let off = spans[last].offset;
        let ghost before = spans@;
        proof {
            let (sp, de, pc, ni) = encode(all.take(k));
            assert(spans_view(spans@).len() == spans@.len());
            assert(spans_view(spans@)[last as int] == (
            spans@[last as int].offset as int,
            spans@[last as int].length as int,
            ));
            if i_delta > 2 || k == 0 {
                assert(spans_view(spans@)[last as int].1 == 0);
            } else {
                assert(spans_view(spans@)[last as int] == lengthen_last(sp, i_delta as int)[last as int]);
                assert(sp[sp.len() - 1].1 <= ni - i32::MIN);
            }
        }
        spans.set(last, BucketSpan { offset: off, length: old_len + 1 });
        proof {
            assert(spans_view(spans@) =~= spans_view(before).update(
                last as int,
                (off as int, old_len + 1),
            ));
        }
        deltas.push(count - prev_count);
        prev_count = count;
        next_i = i + 1;
        proof {
            assert(spans_view(spans@) =~= encode(all.take(k + 1)).0);
            assert(deltas_view(deltas@) =~= encode(all.take(k + 1)).1);
        }
    }
    proof {
        assert(all.take(all.len() as int) =~= all);
        lemma_make_buckets_result(all, spans@, deltas@);
    }
    (spans, deltas)
}

// ---------------------------------------------------------------------------------------------
// Halving the bucket resolution
// ---------------------------------------------------------------------------------------------

/// The bucket index at half the resolution: buckets `2j - 1` and `2j` become bucket `j`.
pub open spec fn halved_index(k: int) -> int {
    (k + 1) / 2
}

/// The count of bucket `k` of `m`, or zero when there is no such bucket.
pub open spec fn count_or_zero(m: Map<i32, u64>, k: int) -> int {
    if i32::MIN <= k <= i32::MAX && m.contains_key(k as i32) {
        m[k as i32] as int
    } else {
        0
    }
}

/// Whether `m` has bucket `k`.
pub open spec fn has_bucket(m: Map<i32, u64>, k: int) -> bool {
    i32::MIN <= k <= i32::MAX && m.contains_key(k as i32)
}

/// The count of bucket `j` at half the resolution: the counts of buckets `2j - 1` and `2j`.
pub open spec fn halved_count(m: Map<i32, u64>, j: int) -> int {
    count_or_zero(m, 2 * j - 1) + count_or_zero(m, 2 * j)
}

/// Whether there is a bucket `j` at half the resolution.
pub open spec fn has_halved(m: Map<i32, u64>, j: int) -> bool {
    has_bucket(m, 2 * j - 1) || has_bucket(m, 2 * j)
}

/// The buckets can be halved: there is no bucket `i32::MAX`, and each merged count fits.
pub open spec fn can_halve(m: Map<i32, u64>) -> bool {
    &&& !m.contains_key(i32::MAX)
    &&& forall|k: i32| #[trigger] m.contains_key(k) ==> halved_count(m, halved_index(k as int)) <= u64::MAX
}

/// `r` is `m` at half the resolution: bucket `j` is there when bucket `2j - 1` or `2j` was, and
/// holds their counts added up.
pub open spec fn is_halving(r: Map<i32, u64>, m: Map<i32, u64>) -> bool {
    &&& forall|j: i32| #[trigger] r.contains_key(j) <==> has_halved(m, j as int)
    &&& forall|j: i32| #[trigger] r.contains_key(j) ==> r[j] == halved_count(m, j as int)
}

/// Bucket `k` of `m` has been visited when the visit has reached `bound`.
spec fn visited(m: Map<i32, u64>, k: int, bound: int) -> bool {
    has_bucket(m, k) && k <= bound
}

spec fn visited_count(m: Map<i32, u64>, k: int, bound: int) -> int {
    if visited(m, k, bound) {
        m[k as i32] as int
    } else {
        0
    }
}

spec fn bound_at(all: Seq<(i32, u64)>, i: int) -> int {
    if i == 0 {
        i32::MIN - 1
    } else {
        all[i - 1].0 as int
    }
}

fn halved_key(k: i32) -> (r: i32)
    requires
        k < i32::MAX,
    ensures
        r as int == halved_index(k as int),
{
    let kk: i64 = k as i64;
    if kk > 0 {
        ((kk + 1) / 2) as i32
    } else {
        let q: i64 = (-kk) / 2;
        proof {
            let n = -(kk as int);
            assert(n == 2 * q + n % 2 && 0 <= n % 2 < 2) by (nonlinear_arith)
                requires
                    n >= 0,
                    q == n / 2,
            ;
            assert((kk + 1) / 2 == -q) by (nonlinear_arith)
                requires
                    -(kk as int) == 2 * q + (-(kk as int)) % 2,
                    0 <= (-(kk as int)) % 2 < 2,
            ;
        }
        (-q) as i32
    }
}

proof fn lemma_i32_keys_ordered()
    ensures
        vstd::laws_cmp::obeys_cmp::<i32>(),
        vstd::std_specs::btree::key_obeys_cmp_spec::<i32>(),
{
    broadcast use vstd::laws_cmp::group_laws_cmp;
    broadcast use vstd::std_specs::btree::axiom_key_obeys_cmp_spec_meaning;
    assert(vstd::laws_cmp::obeys_cmp::<i32>());
}

proof fn lemma_no_bucket_between(m: Map<i32, u64>, all: Seq<(i32, u64)>, i: int)
    requires
        strictly_increasing(all),
        lists_buckets(all, m),
        0 <= i < all.len(),
        forall|key: i32|
            #[trigger] m.contains_key(key) ==> exists|j: int| 0 <= j < all.len() && all[j].0 == key,
    ensures
        forall|key: i32| #[trigger] m.contains_key(key) ==> key <= bound_at(all, i) || key >= all[i].0,
{
    assert forall|key: i32| #[trigger] m.contains_key(key) implies key <= bound_at(all, i) || key
        >= all[i].0 by {
        let j = choose|j: int| 0 <= j < all.len() && all[j].0 == key;
        if j < i {
            if j < i - 1 {
                assert(all[j].0 < all[i - 1].0);
            }
        } else if j > i {
            assert(all[i].0 < all[j].0);
        }
    }
}

/// Halves the resolution of native histogram buckets: buckets `2j - 1` and `2j` are merged
/// into bucket `j`, their counts added up.
pub fn halve_bucket_resolution(buckets: BTreeMap<i32, u64>) -> (r: BTreeMap<i32, u64>)
    requires
        can_halve(buckets@),
    ensures
        is_halving(r@, buckets@),
{
    let ghost m = buckets@;
    let mut out: BTreeMap<i32, u64> = BTreeMap::new();
    let iter = buckets.iter();
    let ghost all = pairs_of(iter.remaining());
    proof {
        lemma_sorted_buckets_facts(&buckets, iter.remaining());
    }
    for (k, count) in it: iter
        invariant
            m == buckets@,
            strictly_increasing(all),
            lists_buckets(all, m),
            forall|key: i32|
                #[trigger] m.contains_key(key) ==> exists|j: int| 0 <= j < all.len() && all[j].0 == key,
            !m.contains_key(i32::MAX),
            forall|k: i32|
                #[trigger] m.contains_key(k) ==> halved_count(m, halved_index(k as int)) <= u64::MAX,
            it.seq().map_values(|kv: (&i32, &u64)| (*kv.0, *kv.1)) == all,
            forall|j: i32|
                #[trigger] out@.contains_key(j) <==> (visited(m, 2 * j - 1, bound_at(all, it.index() as int))
                    || visited(m, 2 * j, bound_at(all, it.index() as int))),
            forall|j: i32|
                #[trigger] out@.contains_key(j) ==> out@[j] == visited_count(m, 2 * j - 1, bound_at(all, it.index() as int))
                    + visited_count(m, 2 * j, bound_at(all, it.index() as int)),
    {
        let ghost i = it.index() as int;
        let ghost b0 = bound_at(all, i);
        proof {
            assert(all[i] == (*k, *count));
            assert(m.contains_key(*k) && m[*k] == *count);
            lemma_no_bucket_between(m, all, i);
            lemma_i32_keys_ordered();
            if i > 0 {
                assert(all[i - 1].0 < all[i].0);
            }
        }
        let nk = halved_key(*k);
        let prev: u64 = match out.get(&nk) {
            Some(v) => *v,
            None => 0,
        };
        proof {
            let kk = *k as int;
            let j = nk as int;
            assert(kk == 2 * j - 1 || kk == 2 * j);
            let other = if kk == 2 * j { 2 * j - 1 } else { 2 * j };
            assert(!visited(m, kk, b0));
            assert(prev == visited_count(m, other, b0));
            assert(visited_count(m, other, b0) <= count_or_zero(m, other));
            assert(halved_count(m, j) <= u64::MAX);
        }
        out.insert(nk, prev + *count);
        proof {
            let b1 = *k as int;
            assert(bound_at(all, i + 1) == b1);
            assert forall|x: int| #[trigger] visited(m, x, b1) <==> visited(m, x, b0) || x == b1 by {
                if has_bucket(m, x) {
                    assert(m.contains_key(x as i32));
                }
            }
            assert forall|x: int| #[trigger] visited_count(m, x, b1) == visited_count(m, x, b0) + (
            if x == b1 {
                m[*k] as int
            } else {
                0
            }) by {
                assert(visited(m, x, b1) <==> visited(m, x, b0) || x == b1);
                if x == b1 {
                    assert(!visited(m, x, b0));
                }
            }
        }
    }
    proof {
        let n = all.len() as int;
        assert forall|x: int| #[trigger] has_bucket(m, x) implies visited(m, x, bound_at(all, n)) by {
            let key = x as i32;
            assert(m.contains_key(key));
            let j = choose|j: int| 0 <= j < all.len() && all[j].0 == key;
            if j < n - 1 {
                assert(all[j].0 < all[n - 1].0);
            }
        }
        assert forall|j: i32| #[trigger] out@.contains_key(j) implies out@[j] == halved_count(m, j as int) by {
            assert(has_bucket(m, 2 * j - 1) ==> visited(m, 2 * j - 1, bound_at(all, n)));
            assert(has_bucket(m, 2 * j) ==> visited(m, 2 * j, bound_at(all, n)));
        }
        assert forall|j: i32| #[trigger] out@.contains_key(j) <==> has_halved(m, j as int) by {
            assert(has_bucket(m, 2 * j - 1) ==> visited(m, 2 * j - 1, bound_at(all, n)));
            assert(has_bucket(m, 2 * j) ==> visited(m, 2 * j, bound_at(all, n)));
        }
    }
    out
}

/// The lowest schema of a native histogram: its resolution is not reduced below it.
pub const MIN_SCHEMA: i32 = -4;

/// The buckets of a native histogram: its schema, and its positive and negative buckets.
pub struct NativeBuckets {
    pub schema: i32,
    pub positive: BTreeMap<i32, u64>,
    pub negative: BTreeMap<i32, u64>,
}

/// Reduces the resolution of native histogram buckets: at the lowest schema nothing changes;
/// otherwise the schema goes down by one (doubling the bucket width) and the positive and the
/// negative buckets are each halved (see [`halve_bucket_resolution`]).
pub fn reduce_bucket_resolution(b: NativeBuckets) -> (r: NativeBuckets)
    requires
        b.schema > MIN_SCHEMA ==> can_halve(b.positive@) && can_halve(b.negative@),
    ensures
        b.schema <= MIN_SCHEMA ==> r.schema == b.schema && r.positive@ == b.positive@
            && r.negative@ == b.negative@,
        b.schema > MIN_SCHEMA ==> r.schema == b.schema - 1 && is_halving(r.positive@, b.positive@)
            && is_halving(r.negative@, b.negative@),
{
    if b.schema <= MIN_SCHEMA {
        return b;
    }
    NativeBuckets {
        schema: b.schema - 1,
        positive: halve_bucket_resolution(b.positive),
        negative: halve_bucket_resolution(b.negative),
    }
}

fn count_at(m: &BTreeMap<i32, u64>, k: i64) -> (r: u64)
    ensures
        r as int == count_or_zero(m@, k as int),
{
    proof {
        lemma_i32_keys_ordered();
    }
    if k < i32::MIN as i64 || k > i32::MAX as i64 {
        return 0;
    }
    match m.get(&(k as i32)) {
        Some(c) => *c,
        None => 0,
    }
}

/// Whether the buckets can be halved (see [`can_halve`]).
pub fn can_halve_buckets(m: &BTreeMap<i32, u64>) -> (r: bool)
    ensures
        r == can_halve(m@),
{
    let ghost mm = m@;
    let iter = m.iter();
    let ghost all = pairs_of(iter.remaining());
    proof {
        lemma_sorted_buckets_facts(m, iter.remaining());
    }
    for (k, c) in it: iter
        invariant
            mm == m@,
            lists_buckets(all, mm),
            forall|key: i32|
                #[trigger] mm.contains_key(key) ==> exists|j: int| 0 <= j < all.len() && all[j].0 == key,
            it.seq().map_values(|kv: (&i32, &u64)| (*kv.0, *kv.1)) == all,
            forall|q: int|
                0 <= q < it.index() ==> all[q].0 != i32::MAX && halved_count(mm, halved_index(all[q].0 as int))
                    <= u64::MAX,
    {
        let ghost i = it.index() as int;
        proof {
            assert(all[i] == (*k, *c));
            assert(mm.contains_key(*k) && mm[*k] == *c);
        }
        if *k == i32::MAX {
            return false;
        }
        let j = halved_key(*k);
        let kk: i64 = *k as i64;
        let jj: i64 = j as i64;
        let partner: i64 = if kk == 2 * jj { 2 * jj - 1 } else { 2 * jj };
        let pc = count_at(m, partner);
        proof {
            assert(kk == 2 * jj - 1 || kk == 2 * jj);
            assert(count_or_zero(mm, kk as int) == *c as int);
        }
        if pc > u64::MAX - *c {
            return false;
        }
    }
    proof {
        assert forall|k: i32| #[trigger] mm.contains_key(k) implies halved_count(mm, halved_index(k as int))
            <= u64::MAX by {
            let q = choose|q: int| 0 <= q < all.len() && all[q].0 == k;
        }
        if mm.contains_key(i32::MAX) {
            let q = choose|q: int| 0 <= q < all.len() && all[q].0 == i32::MAX;
        }
    }
    true
}

/// Whether an observation may be recorded with [`record_in_bucket`]: the chosen bucket's
/// count can go up by one, and, where the resolution would be reduced, both sides can be
/// halved.
pub fn record_fits(b: &NativeBuckets, negative: bool, key: i32, max_buckets: u32) -> (r: bool)
    ensures
        r == ({
            let side = if negative { b.negative@ } else { b.positive@ };
            let pos = if negative { b.positive@ } else { bumped(b.positive@, key) };
            let neg = if negative { bumped(b.negative@, key) } else { b.negative@ };
            &&& side.contains_key(key) ==> side[key] < u64::MAX
            &&& b.schema > MIN_SCHEMA && max_buckets > 0 && bucket_total(pos, neg) > max_buckets
                ==> can_halve(pos) && can_halve(neg)
        }),
{
    proof {
        lemma_i32_keys_ordered();
    }
    let side = if negative { &b.negative } else { &b.positive };
    let current = count_at(side, key as i64);
    if side.contains_key(&key) && current == u64::MAX {
        return false;
    }
    let mut bumped_side = side.clone();
    bump_bucket(&mut bumped_side, key);
    let other = if negative { &b.positive } else { &b.negative };
    if b.schema <= MIN_SCHEMA || max_buckets == 0 {
        return true;
    }
    let limit = max_buckets as usize;
    let a = bumped_side.len();
    let o = other.len();
    if !(a > limit || o > limit - a) {
        return true;
    }
    can_halve_buckets(&bumped_side) && can_halve_buckets(other)
}

/// Bucket `key` of `m` with one more observation: its count plus one, or one for a new bucket.
pub open spec fn bumped(m: Map<i32, u64>, key: i32) -> Map<i32, u64> {
    m.insert(key, if m.contains_key(key) { (m[key] + 1) as u64 } else { 1u64 })
}

fn bump_bucket(m: &mut BTreeMap<i32, u64>, key: i32) -> (added: bool)
    requires
        old(m)@.contains_key(key) ==> old(m)@[key] < u64::MAX,
    ensures
        final(m)@ == bumped(old(m)@, key),
        added == !old(m)@.contains_key(key),
{
    proof {
        lemma_i32_keys_ordered();
    }
    let (count, added): (u64, bool) = match m.get(&key) {
        Some(c) => (*c + 1, false),
        None => (1, true),
    };
    proof {
        if old(m)@.contains_key(key) {
            assert(count == old(m)@[key] + 1);
        }
    }
    m.insert(key, count);
    added
}

/// The number of buckets on both sides.
pub open spec fn bucket_total(pos: Map<i32, u64>, neg: Map<i32, u64>) -> nat {
    pos.len() + neg.len()
}

/// Records an observation in bucket `key` of the negative side (`negative`) or the positive
/// one: the bucket's count goes up by one, or the bucket is added with a count of one. When a
/// bucket was added, a limit is set (`max_buckets` is not zero) and the buckets on both sides
/// then number more than the limit, the resolution is reduced (see
/// [`reduce_bucket_resolution`]). Returns whether a bucket was added.
pub fn record_in_bucket(b: &mut NativeBuckets, negative: bool, key: i32, max_buckets: u32) -> (added: bool)
    requires
        ({
            let side = if negative { old(b).negative@ } else { old(b).positive@ };
            side.contains_key(key) ==> side[key] < u64::MAX
        }),
        ({
            let pos = if negative { old(b).positive@ } else { bumped(old(b).positive@, key) };
            let neg = if negative { bumped(old(b).negative@, key) } else { old(b).negative@ };
            old(b).schema > MIN_SCHEMA && max_buckets > 0 && bucket_total(pos, neg) > max_buckets
                ==> can_halve(pos) && can_halve(neg)
        }),
    ensures
        ({
            let side = if negative { old(b).negative@ } else { old(b).positive@ };
            let pos = if negative { old(b).positive@ } else { bumped(old(b).positive@, key) };
            let neg = if negative { bumped(old(b).negative@, key) } else { old(b).negative@ };
            let reduce = added && max_buckets > 0 && bucket_total(pos, neg) > max_buckets
                && old(b).schema > MIN_SCHEMA;
            &&& added == !side.contains_key(key)
            &&& reduce ==> final(b).schema == old(b).schema - 1 && is_halving(final(b).positive@, pos)
                && is_halving(final(b).negative@, neg)
            &&& !reduce ==> final(b).schema == old(b).schema && final(b).positive@ == pos
                && final(b).negative@ == neg
        }),
{
    let added = if negative {
        bump_bucket(&mut b.negative, key)
    } else {
        bump_bucket(&mut b.positive, key)
    };
    if !added || max_buckets == 0 {
        return added;
    }
    proof {
        lemma_i32_keys_ordered();
    }
    let pos_len = b.positive.len();
    let neg_len = b.negative.len();
    let limit = max_buckets as usize;
    let over = pos_len > limit || neg_len > limit - pos_len;
    if !over {
        return added;
    }
    let mut taken = NativeBuckets { schema: b.schema, positive: BTreeMap::new(), negative: BTreeMap::new() };
    std::mem::swap(&mut taken.positive, &mut b.positive);
    std::mem::swap(&mut taken.negative, &mut b.negative);
    *b = reduce_bucket_resolution(taken);
    added
}

// ---------------------------------------------------------------------------------------------
// Decoding spans and deltas
// ---------------------------------------------------------------------------------------------

/// Reading buckets from deltas: each delta gives the next bucket, at the next index, with the
/// previous count plus the delta. The state is the buckets read, the next index and the last
/// count.
pub open spec fn read_run(st: (Seq<(int, int)>, int, int), ds: Seq<int>) -> (Seq<(int, int)>, int, int)
    decreases ds.len(),
{
    if ds.len() == 0 {
        st
    } else {
        let (b, next, count) = read_run(st, ds.drop_last());
        (b.push((next, count + ds.last())), next + 1, count + ds.last())
    }
}

/// The number of buckets the spans cover.
pub open spec fn spans_len(spans: Seq<(int, int)>) -> int
    decreases spans.len(),
{
    if spans.len() == 0 {
        0
    } else {
        spans_len(spans.drop_last()) + spans.last().1
    }
}

/// Decoding spans and deltas: each span starts `offset` buckets after the end of the previous
/// one (the first, `offset` after index 0) and reads `length` deltas; counts run on across
/// spans. The result is the buckets as `(index, count)`, the next index and the last count.
pub open spec fn decode(spans: Seq<(int, int)>, deltas: Seq<int>) -> (Seq<(int, int)>, int, int)
    decreases spans.len(),
{
    if spans.len() == 0 {
        (Seq::empty(), 0, 0)
    } else {
        let before = spans.drop_last();
        let n = spans_len(before);
        let (b, next, count) = decode(before, deltas.take(n));
        read_run((b, next + spans.last().0, count), deltas.subrange(n, n + spans.last().1))
    }
}

/// `d` empty buckets from index `from`.
pub open spec fn empty_buckets(from: int, d: int) -> Seq<(int, int)> {
    if d <= 0 {
        Seq::empty()
    } else {
        Seq::new(d as nat, |k: int| (from + k, 0int))
    }
}

/// The buckets of `s` (in increasing index order) as decoding gives them back: each bucket with
/// its count, and the gaps of at most two buckets between neighbours filled with empty buckets.
pub open spec fn with_bridged_gaps(s: Seq<(i32, u64)>) -> Seq<(int, int)>
    decreases s.len(),
{
    if s.len() == 0 {
        Seq::empty()
    } else {
        let p = s.drop_last();
        let i = s.last().0 as int;
        let fill = if p.len() > 0 && i - (p.last().0 + 1) <= 2 {
            empty_buckets(p.last().0 + 1, i - (p.last().0 + 1))
        } else {
            Seq::empty()
        };
        with_bridged_gaps(p) + fill + seq![(i, s.last().1 as int)]
    }
}

proof fn lemma_read_run_append(st: (Seq<(int, int)>, int, int), a: Seq<int>, b: Seq<int>)
    ensures
        read_run(st, a + b) == read_run(read_run(st, a), b),
    decreases b.len(),
{
    if b.len() == 0 {
        assert(a + b =~= a);
    } else {
        assert((a + b).drop_last() =~= a + b.drop_last());
        assert((a + b).last() == b.last());
        lemma_read_run_append(st, a, b.drop_last());
    }
}

proof fn lemma_read_one(st: (Seq<(int, int)>, int, int), a: int)
    ensures
        read_run(st, seq![a]) == (st.0.push((st.1, st.2 + a)), st.1 + 1, st.2 + a),
{
    assert(seq![a].drop_last() =~= Seq::<int>::empty());
    assert(read_run(st, seq![a].drop_last()) == st);
}

proof fn lemma_read_gap(st: (Seq<(int, int)>, int, int), d: int)
    requires
        d >= 1,
    ensures
        read_run(st, gap_deltas(d, st.2)) == (st.0 + empty_buckets(st.1, d), st.1 + d, 0int),
    decreases d,
{
    let g = gap_deltas(d, st.2);
    if d == 1 {
        assert(g =~= seq![-st.2]);
        lemma_read_one(st, -st.2);
        assert(st.0.push((st.1, 0int)) =~= st.0 + empty_buckets(st.1, d));
    } else {
        assert(g.drop_last() =~= gap_deltas(d - 1, st.2));
        lemma_read_gap(st, d - 1);
        assert(g.last() == 0);
        assert((st.0 + empty_buckets(st.1, d - 1)).push((st.1 + d - 1, 0int)) =~= st.0
            + empty_buckets(st.1, d));
    }
}

proof fn lemma_spans_len_lengthen(spans: Seq<(int, int)>, k: int)
    requires
        spans.len() > 0,
    ensures
        lengthen_last(spans, k).drop_last() == spans.drop_last(),
        lengthen_last(spans, k).last() == (spans.last().0, spans.last().1 + k),
        spans_len(lengthen_last(spans, k)) == spans_len(spans) + k,
{
    assert(lengthen_last(spans, k).drop_last() =~= spans.drop_last());
}

proof fn lemma_spans_len_nonneg(spans: Seq<(int, int)>)
    requires
        forall|k: int| 0 <= k < spans.len() ==> (#[trigger] spans[k]).1 >= 1,
    ensures
        spans_len(spans) >= 0,
    decreases spans.len(),
{
    if spans.len() > 0 {
        assert forall|k: int| 0 <= k < spans.drop_last().len() implies (
        #[trigger] spans.drop_last()[k]).1 >= 1 by {
            assert(spans.drop_last()[k] == spans[k]);
        }
        lemma_spans_len_nonneg(spans.drop_last());
        assert(spans.last() == spans[spans.len() - 1]);
    }
}

proof fn lemma_encode_shape(s: Seq<(i32, u64)>)
    requires
        strictly_increasing(s),
    ensures
        s.len() == 0 ==> encode(s).0.len() == 0 && encode(s).2 == 0 && encode(s).3 == 0,
        s.len() > 0 ==> encode(s).0.len() > 0 && encode(s).2 == s.last().1 && encode(s).3
            == s.last().0 + 1,
        forall|k: int| 0 <= k < encode(s).0.len() ==> (#[trigger] encode(s).0[k]).1 >= 1,
    decreases s.len(),
{
    if s.len() > 0 {
        let p = s.drop_last();
        assert(strictly_increasing(p)) by {
            assert forall|a: int, b: int| 0 <= a < b < p.len() implies p[a].0 < p[b].0 by {
                assert(p[a] == s[a] && p[b] == s[b]);
            }
        }
        lemma_encode_shape(p);
        let spans = encode(p).0;
        let r = encode(s).0;
        if p.len() > 0 {
            assert(p.last() == s[s.len() - 2]);
            assert(s.last() == s[s.len() - 1]);
        }
        assert forall|k: int| 0 <= k < r.len() implies (#[trigger] r[k]).1 >= 1 by {
            if k < spans.len() {
                assert(spans[k].1 >= 1);
            }
        }
    }
}

/// Decoding what the encoder produced gives back the buckets, each at its index with its
/// count, with small gaps bridged by empty buckets; the decoder ends after the last bucket,
/// with its count.
pub proof fn lemma_encoding_decodes(s: Seq<(i32, u64)>)
    requires
        strictly_increasing(s),
    ensures
        spans_len(encode(s).0) == encode(s).1.len(),
        decode(encode(s).0, encode(s).1) == (with_bridged_gaps(s), encode(s).3, encode(s).2),
    decreases s.len(),
{
    if s.len() > 0 {
        let p = s.drop_last();
        assert(strictly_increasing(p)) by {
            assert forall|a: int, b: int| 0 <= a < b < p.len() implies p[a].0 < p[b].0 by {
                assert(p[a] == s[a] && p[b] == s[b]);
            }
        }
        lemma_encoding_decodes(p);
        lemma_encode_shape(p);
        lemma_spans_len_nonneg(encode(p).0);
        let (spans, deltas, prev, next) = encode(p);
        let i = s.last().0 as int;
        let c = s.last().1 as int;
        let d = i - next;
        let e = with_bridged_gaps(p);
        if p.len() > 0 {
            assert(p.last() == s[s.len() - 2]);
            assert(s.last() == s[s.len() - 1]);
            assert(d >= 0);
        }
        let r = encode(s);
        if spans.len() == 0 || d > 2 {
            // A new span.
            assert(r.0 == spans.push((d, 1)));
            assert(r.0.drop_last() =~= spans);
            assert(r.1.take(deltas.len() as int) =~= deltas);
            assert(r.1.subrange(deltas.len() as int, deltas.len() as int + 1) =~= seq![c - prev]);
            lemma_read_one((e, next + d, prev), c - prev);
            assert(r.0.last() == (d, 1int));
            assert(with_bridged_gaps(s) =~= e + seq![(i, c)]);
        } else {
            // The last span is lengthened.
            let prev2 = if d > 0 { 0 } else { prev };
            let g = gap_deltas(d, prev);
            let extra = g + seq![c - prev2];
            assert(r.0 == lengthen_last(spans, d + 1));
            assert(r.1 == deltas + g + seq![c - prev2]);
            assert(r.1 =~= deltas + extra);
            lemma_spans_len_lengthen(spans, d + 1);
            let before = spans.drop_last();
            let n = spans_len(before);
            let (ls_off, ls_len) = spans.last();
            assert(spans.last() == spans[spans.len() - 1]);
            assert(ls_len >= 1);
            assert forall|k: int| 0 <= k < before.len() implies (#[trigger] before[k]).1 >= 1 by {
                assert(before[k] == spans[k]);
            }
            lemma_spans_len_nonneg(before);
            // The decoding of the spans before the last is unchanged.
            assert(deltas.len() == n + ls_len);
            assert(r.1.take(n) =~= deltas.take(n));
            let start = decode(before, deltas.take(n));
            let st0 = (start.0, start.1 + ls_off, start.2);
            assert(r.1.subrange(n, n + ls_len + d + 1) =~= deltas.subrange(n, n + ls_len) + extra);
            lemma_read_run_append(st0, deltas.subrange(n, n + ls_len), extra);
            assert(read_run(st0, deltas.subrange(n, n + ls_len)) == (e, next, prev));
            lemma_read_run_append((e, next, prev), g, seq![c - prev2]);
            if d > 0 {
                lemma_read_gap((e, next, prev), d);
            } else {
                assert(g =~= Seq::<int>::empty());
            }
            lemma_read_one((e + empty_buckets(next, d), next + d, prev2), c - prev2);
            assert(p.len() > 0);
            assert(with_bridged_gaps(s) =~= e + empty_buckets(next, d) + seq![(i, c)]);
            if d == 0 {
                assert(e + empty_buckets(next, d) =~= e);
            }
        }
    }
}

} // verus!
