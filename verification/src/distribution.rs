//! Choosing how a distribution metric is aggregated: as a native histogram, a histogram with
//! overridden or global buckets, or a summary.
use crate::formatting::Matcher;
use crate::labels::str_eq;
use vstd::prelude::*;

verus! {

/// Some matcher of `ms` matches `name`.
pub open spec fn any_match(ms: Seq<Matcher>, name: Seq<char>) -> bool {
    exists|i: int| 0 <= i < ms.len() && #[trigger] ms[i].spec_matches(name)
}

/// `i` is the first matcher of `ms` that matches `name`.
pub open spec fn is_first_match(ms: Seq<Matcher>, name: Seq<char>, i: int) -> bool {
    &&& 0 <= i < ms.len()
    &&& ms[i].spec_matches(name)
    &&& forall|j: int| 0 <= j < i ==> !(#[trigger] ms[j].spec_matches(name))
}

/// The first matcher that matches the name, if any.
pub fn first_match(ms: &[Matcher], name: &str) -> (r: Option<usize>)
    ensures
        match r {
            Some(i) => is_first_match(ms@, name@, i as int),
            None => !any_match(ms@, name@),
        },
{
    let mut i: usize = 0;
    while i < ms.len()
        invariant
            i <= ms@.len(),
            forall|j: int| 0 <= j < i ==> !(#[trigger] ms@[j].spec_matches(name@)),
        decreases ms@.len() - i,
    {
        if ms[i].matches(name) {
            return Some(i);
        }
        i = i + 1;
    }
    None
}

/// How a distribution is built for a metric.
pub enum DistributionChoice {
    /// A native histogram, with the configuration of the native histogram override at this
    /// position.
    NativeHistogram(usize),
    /// A histogram with the buckets of the bucket override at this position.
    BucketOverride(usize),
    /// A histogram with the global buckets.
    GlobalBuckets,
    /// A summary.
    Summary,
}

/// The part of a distribution configuration that decides which kind of distribution a metric
/// gets: the native histogram overrides, whether global buckets are set, and the bucket
/// overrides, each override list in its order of precedence.
pub struct DistributionSelector {
    pub native_histogram_overrides: Option<Vec<Matcher>>,
    pub has_buckets: bool,
    pub bucket_overrides: Option<Vec<Matcher>>,
}

impl DistributionSelector {
    /// Some native histogram override matches the name.
    pub open spec fn native_matches(&self, name: Seq<char>) -> bool {
        match self.native_histogram_overrides {
            Some(ms) => any_match(ms@, name),
            None => false,
        }
    }

    /// Some bucket override matches the name.
    pub open spec fn bucket_override_matches(&self, name: Seq<char>) -> bool {
        match self.bucket_overrides {
            Some(ms) => any_match(ms@, name),
            None => false,
        }
    }

    /// The distribution type of a metric: `native_histogram` when a native histogram override
    /// matches it, `histogram` when global buckets are set or a bucket override matches it,
    /// `summary` otherwise.
    pub open spec fn spec_distribution_type(&self, name: Seq<char>) -> Seq<char> {
        if self.native_matches(name) {
            "native_histogram"@
        } else if self.has_buckets || self.bucket_override_matches(name) {
            "histogram"@
        } else {
            "summary"@
        }
    }

    /// Returns the distribution type for the given metric name.
    pub fn get_distribution_type(&self, name: &str) -> (r: &'static str)
        ensures
            r@ == self.spec_distribution_type(name@),
    {
        if let Some(overrides) = &self.native_histogram_overrides {
            if first_match(overrides.as_slice(), name).is_some() {
                return "native_histogram";
            }
        }
        if self.has_buckets {
            return "histogram";
        }
        if let Some(overrides) = &self.bucket_overrides {
            if first_match(overrides.as_slice(), name).is_some() {
                return "histogram";
            }
        }
        "summary"
    }

    /// Returns how the distribution for the given metric name is built: the first matching
    /// native histogram override, else the first matching bucket override, else the global
    /// buckets if set, else a summary.
    pub fn get_distribution(&self, name: &str) -> (r: DistributionChoice)
        ensures
            match r {
                DistributionChoice::NativeHistogram(i) => self.native_histogram_overrides is Some
                    && is_first_match(self.native_histogram_overrides->0@, name@, i as int),
                DistributionChoice::BucketOverride(i) => !self.native_matches(name@)
                    && self.bucket_overrides is Some && is_first_match(
                    self.bucket_overrides->0@,
                    name@,
                    i as int,
                ),
                DistributionChoice::GlobalBuckets => !self.native_matches(name@)
                    && !self.bucket_override_matches(name@) && self.has_buckets,
                DistributionChoice::Summary => !self.native_matches(name@)
                    && !self.bucket_override_matches(name@) && !self.has_buckets,
            },
    {
        if let Some(overrides) = &self.native_histogram_overrides {
            if let Some(i) = first_match(overrides.as_slice(), name) {
                return DistributionChoice::NativeHistogram(i);
            }
        }
        if let Some(overrides) = &self.bucket_overrides {
            if let Some(i) = first_match(overrides.as_slice(), name) {
                return DistributionChoice::BucketOverride(i);
            }
        }
        if self.has_buckets {
            DistributionChoice::GlobalBuckets
        } else {
            DistributionChoice::Summary
        }
    }
}

/// The type a distribution is rendered as agrees with how it is built: a native histogram
/// is rendered as `native_histogram`, any histogram as `histogram`, a summary as `summary`.
pub proof fn lemma_distribution_type_agrees(sel: DistributionSelector, name: Seq<char>)
    ensures
        sel.spec_distribution_type(name) == "native_histogram"@ <==> sel.native_matches(name),
        !sel.native_matches(name) ==> (sel.spec_distribution_type(name) == "summary"@ <==> (
        !sel.has_buckets && !sel.bucket_override_matches(name))),
{
    reveal_strlit("native_histogram");
    reveal_strlit("histogram");
    reveal_strlit("summary");
    assert("native_histogram"@.len() == 16);
    assert("histogram"@.len() == 9);
    assert("summary"@.len() == 7);
}

// ---------------------------------------------------------------------------------------------
// Ordering overrides by their matchers
// ---------------------------------------------------------------------------------------------

/// The rank of a matcher's kind: full matches first, then prefixes, then suffixes.
pub open spec fn kind_rank(m: Matcher) -> int {
    match m {
        Matcher::Full(_) => 0,
        Matcher::Prefix(_) => 1,
        Matcher::Suffix(_) => 2,
    }
}

/// The pattern of a matcher.
pub open spec fn pattern(m: Matcher) -> Seq<char> {
    match m {
        Matcher::Full(p) => p@,
        Matcher::Prefix(p) => p@,
        Matcher::Suffix(p) => p@,
    }
}

/// `a` comes no later than `b` in lexicographic order by code point (the order of their
/// UTF-8 bytes).
pub open spec fn chars_le(a: Seq<char>, b: Seq<char>) -> bool
    decreases a.len(),
{
    if a.len() == 0 {
        true
    } else if b.len() == 0 {
        false
    } else if a[0] != b[0] {
        a[0] < b[0]
    } else {
        chars_le(a.skip(1), b.skip(1))
    }
}

/// Matchers in order: by kind, then by pattern.
pub open spec fn matcher_le(a: Matcher, b: Matcher) -> bool {
    kind_rank(a) < kind_rank(b) || (kind_rank(a) == kind_rank(b) && chars_le(pattern(a), pattern(b)))
}

pub(crate) proof fn lemma_chars_le_total(a: Seq<char>, b: Seq<char>)
    ensures
        chars_le(a, b) || chars_le(b, a),
    decreases a.len(),
{
    if a.len() > 0 && b.len() > 0 && a[0] == b[0] {
        lemma_chars_le_total(a.skip(1), b.skip(1));
    }
}

pub(crate) proof fn lemma_chars_le_reflexive(a: Seq<char>)
    ensures
        chars_le(a, a),
    decreases a.len(),
{
    if a.len() > 0 {
        lemma_chars_le_reflexive(a.skip(1));
    }
}

pub(crate) proof fn lemma_chars_le_transitive(a: Seq<char>, b: Seq<char>, c: Seq<char>)
    requires
        chars_le(a, b),
        chars_le(b, c),
    ensures
        chars_le(a, c),
    decreases a.len(),
{
    if a.len() > 0 && b.len() > 0 && c.len() > 0 && a[0] == b[0] && b[0] == c[0] {
        lemma_chars_le_transitive(a.skip(1), b.skip(1), c.skip(1));
    }
}

proof fn lemma_matcher_le_total_transitive(a: Matcher, b: Matcher, c: Matcher)
    ensures
        matcher_le(a, b) || matcher_le(b, a),
        matcher_le(a, b) && matcher_le(b, c) ==> matcher_le(a, c),
{
    lemma_chars_le_total(pattern(a), pattern(b));
    if matcher_le(a, b) && matcher_le(b, c) && kind_rank(a) == kind_rank(c) {
        lemma_chars_le_transitive(pattern(a), pattern(b), pattern(c));
    }
}

fn pattern_str(m: &Matcher) -> (r: &str)
    ensures
        r@ == pattern(*m),
{
    match m {
        Matcher::Full(p) => p.as_str(),
        Matcher::Prefix(p) => p.as_str(),
        Matcher::Suffix(p) => p.as_str(),
    }
}

fn rank_of(m: &Matcher) -> (r: u8)
    ensures
        r as int == kind_rank(*m),
{
    match m {
        Matcher::Full(_) => 0,
        Matcher::Prefix(_) => 1,
        Matcher::Suffix(_) => 2,
    }
}

pub(crate) fn str_le(a: &str, b: &str) -> (r: bool)
    ensures
        r == chars_le(a@, b@),
{
    let a_len = a.unicode_len();
    let b_len = b.unicode_len();
    let mut i: usize = 0;
    proof {
        assert(a@.skip(0) =~= a@);
        assert(b@.skip(0) =~= b@);
    }
    while i < a_len && i < b_len
        invariant
            i <= a_len == a@.len(),
            i <= b_len == b@.len(),
            chars_le(a@, b@) == chars_le(a@.skip(i as int), b@.skip(i as int)),
        decreases a_len - i,
    {
        let x = a.get_char(i);
        let y = b.get_char(i);
        proof {
            assert(a@.skip(i as int)[0] == x);
            assert(b@.skip(i as int)[0] == y);
            assert(a@.skip(i as int).skip(1) =~= a@.skip(i + 1));
            assert(b@.skip(i as int).skip(1) =~= b@.skip(i + 1));
        }
        if x != y {
            return x < y;
        }
        i = i + 1;
    }
    i == a_len
}

/// Whether matcher `a` comes no later than matcher `b`.
pub fn matcher_in_order(a: &Matcher, b: &Matcher) -> (r: bool)
    ensures
        r == matcher_le(*a, *b),
{
    let ra = rank_of(a);
    let rb = rank_of(b);
    if ra != rb {
        ra < rb
    } else {
        str_le(pattern_str(a), pattern_str(b))
    }
}

/// Inserting `x` at `k`, where no later item passes `p`, keeps the items that pass `p` in
/// order, `x` last among them.
pub(crate) proof fn lemma_filter_insert<A>(s: Seq<A>, k: int, x: A, p: spec_fn(A) -> bool)
    requires
        0 <= k <= s.len(),
        p(x) ==> forall|j: int| k <= j < s.len() ==> !p(#[trigger] s[j]),
    ensures
        s.insert(k, x).filter(p) == if p(x) {
            s.filter(p).push(x)
        } else {
            s.filter(p)
        },
{
    broadcast use Seq::filter_distributes_over_add;
    let a = s.take(k);
    let b = s.skip(k);
    assert(s.insert(k, x) =~= a + seq![x] + b);
    assert(s =~= a + b);
    let one = seq![x];
    assert(one.filter(p) == if p(x) { seq![x] } else { Seq::<A>::empty() }) by {
        reveal(Seq::filter);
        assert(one.drop_last() =~= Seq::<A>::empty());
        assert(Seq::<A>::empty().filter(p) == Seq::<A>::empty());
        assert(one.drop_last().filter(p) == Seq::<A>::empty());
        assert(one.last() == x);
        assert(Seq::<A>::empty().push(x) =~= seq![x]);
    }
    if p(x) {
        assert(b.filter(p) =~= Seq::<A>::empty()) by {
            if b.filter(p).len() > 0 {
                b.lemma_filter_pred(p, 0);
                b.lemma_filter_contains_rev(p, b.filter(p)[0]);
                let j = choose|j: int| 0 <= j < b.len() && b[j] == b.filter(p)[0];
                assert(s[k + j] == b[j]);
            }
        }
        assert(a.filter(p) + seq![x] + Seq::<A>::empty() =~= (a.filter(p) + Seq::<A>::empty()).push(x));
    } else {
        assert(a.filter(p) + Seq::<A>::empty() + b.filter(p) =~= a.filter(p) + b.filter(p));
    }
}

/// Taking one more item of `s` adds it to the items that pass `p` when it passes.
pub(crate) proof fn lemma_filter_take_next<A>(s: Seq<A>, m: int, p: spec_fn(A) -> bool)
    requires
        0 <= m < s.len(),
    ensures
        s.take(m + 1).filter(p) == if p(s[m]) {
            s.take(m).filter(p).push(s[m])
        } else {
            s.take(m).filter(p)
        },
{
    reveal(Seq::filter);
    assert(s.take(m + 1).drop_last() =~= s.take(m));
    assert(s.take(m + 1).last() == s[m]);
}

/// The entries whose matcher has the kind and pattern of `m`.
pub open spec fn same_matcher<T>(m: Matcher) -> spec_fn((Matcher, T)) -> bool {
    |e: (Matcher, T)| kind_rank(e.0) == kind_rank(m) && pattern(e.0) == pattern(m)
}

/// The matchers of `entries` are in order.
pub open spec fn sorted_by_matcher<T>(entries: Seq<(Matcher, T)>) -> bool {
    forall|i: int, j: int| 0 <= i < j < entries.len() ==> matcher_le(entries[i].0, entries[j].0)
}

/// Orders overrides by their matchers: full matches first, then prefixes, then suffixes, each
/// by pattern in lexicographic order; overrides with equal matchers keep their order.
pub fn sort_by_matcher<T>(entries: Vec<(Matcher, T)>) -> (r: Vec<(Matcher, T)>)
    ensures
        r@.to_multiset() == entries@.to_multiset(),
        sorted_by_matcher(r@),
        forall|m: Matcher| #[trigger] r@.filter(same_matcher::<T>(m)) == entries@.filter(same_matcher::<T>(m)),
{
    broadcast use vstd::seq_lib::group_to_multiset_ensures;
    let ghost all = entries@;
    let mut rest = entries;
    let mut rev: Vec<(Matcher, T)> = Vec::new();
    proof {
        assert(rest@.to_multiset().add(rev@.to_multiset()) =~= all.to_multiset());
    }
    proof {
        assert(all.take(all.len() as int) =~= all);
    }
    while rest.len() > 0
        invariant
            rest@.to_multiset().add(rev@.to_multiset()) == all.to_multiset(),
            rest@ == all.take(rest@.len() as int),
            rest@.len() + rev@.len() == all.len(),
            forall|i: int| 0 <= i < rev@.len() ==> #[trigger] rev@[i] == all[all.len() - 1 - i],
        decreases rest.len(),
    {
        let ghost r0 = rest@;
        let ghost v0 = rev@;
        let x = rest.pop().unwrap();
        rev.push(x);
        proof {
            assert(r0 =~= rest@.push(rev@.last()));
            assert(rev@ =~= v0.push(rev@.last()));
            assert(rest@ =~= all.take(rest@.len() as int));
            assert(rev@.last() == r0[r0.len() - 1]);
            vstd::seq_lib::to_multiset_build(rest@, rev@.last());
            vstd::seq_lib::to_multiset_build(v0, rev@.last());
            assert(rest@.to_multiset().add(rev@.to_multiset()) =~= r0.to_multiset().add(v0.to_multiset()));
        }
    }
    let mut out: Vec<(Matcher, T)> = Vec::new();
    proof {
        assert(rev@.to_multiset().add(out@.to_multiset()) =~= all.to_multiset());
        assert forall|mm: Matcher| #[trigger] out@.filter(same_matcher::<T>(mm)) == all.take(0).filter(
            same_matcher::<T>(mm),
        ) by {
            reveal(Seq::filter);
            assert(all.take(0) =~= out@);
        }
    }
    while rev.len() > 0
        invariant
            rev@.to_multiset().add(out@.to_multiset()) == all.to_multiset(),
            sorted_by_matcher(out@),
            rev@.len() + out@.len() == all.len(),
            forall|i: int| 0 <= i < rev@.len() ==> #[trigger] rev@[i] == all[all.len() - 1 - i],
            forall|mm: Matcher| #[trigger] out@.filter(same_matcher::<T>(mm)) == all.take(out@.len() as int).filter(
                same_matcher::<T>(mm),
            ),
        decreases rev.len(),
    {
        let ghost v0 = rev@;
        let ghost o0 = out@;
        let x = rev.pop().unwrap();
        proof {
            assert(v0 =~= rev@.push(x));
            assert(x == v0[v0.len() - 1]);
            assert(x == all[o0.len() as int]);
            vstd::seq_lib::to_multiset_build(rev@, x);
        }
        let mut k: usize = 0;
        while k < out.len() && matcher_in_order(&out[k].0, &x.0)
            invariant
                k <= out@.len(),
                forall|j: int| 0 <= j < k ==> matcher_le(#[trigger] out@[j].0, x.0),
            decreases out@.len() - k,
        {
            k = k + 1;
        }
        let ghost before = out@;
        proof {
            if k < out@.len() {
                lemma_matcher_le_total_transitive(out@[k as int].0, x.0, x.0);
                assert(matcher_le(x.0, before[k as int].0));
            }
        }
        out.insert(k, x);
        proof {
            assert(before == o0);
            vstd::seq_lib::to_multiset_insert(before, k as int, out@[k as int]);
            assert(out@ == before.insert(k as int, out@[k as int]));
            assert(rev@.to_multiset().add(out@.to_multiset()) =~= v0.to_multiset().add(o0.to_multiset()));
            assert forall|i: int, j: int| 0 <= i < j < out@.len() implies matcher_le(
                out@[i].0,
                out@[j].0,
            ) by {
                if j < k {
                    assert(out@[i] == before[i] && out@[j] == before[j]);
                } else if j == k {
                    assert(out@[i] == before[i]);
                } else if i == k {
                    assert(out@[j] == before[j - 1]);
                    if j - 1 > k {
                        lemma_matcher_le_total_transitive(x.0, before[k as int].0, before[j - 1].0);
                    }
                } else if i < k {
                    assert(out@[i] == before[i] && out@[j] == before[j - 1]);
                } else {
                    assert(out@[i] == before[i - 1] && out@[j] == before[j - 1]);
                }
            }
            let xv = out@[k as int];
            assert(xv == x);
            assert forall|mm: Matcher| #[trigger] out@.filter(same_matcher::<T>(mm)) == all.take(
                out@.len() as int,
            ).filter(same_matcher::<T>(mm)) by {
                let p = same_matcher::<T>(mm);
                if p(xv) {
                    assert forall|j: int| k <= j < before.len() implies !p(#[trigger] before[j]) by {
                        if p(before[j]) {
                            lemma_chars_le_reflexive(pattern(before[j].0));
                            assert(matcher_le(before[j].0, xv.0));
                            if j > k {
                                assert(matcher_le(before[k as int].0, before[j].0));
                                lemma_matcher_le_total_transitive(before[k as int].0, before[j].0, xv.0);
                            }
                        }
                    }
                }
                lemma_filter_insert(before, k as int, xv, p);
                lemma_filter_take_next(all, o0.len() as int, p);
            }
        }
    }
    proof {
        assert(all.take(all.len() as int) =~= all);
    }
    out
}

} // verus!
