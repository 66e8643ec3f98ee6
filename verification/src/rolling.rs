//! A rolling summary: values are kept in time buckets of a fixed width, the newest bucket first,
//! so that old values can expire. Times are nanoseconds on a monotonic clock.
use vstd::prelude::*;

verus! {

/// A summary of values, as kept in each bucket.
///
/// A sketch for which `obeys_sketch_spec` holds builds its empty summary as `spec_empty`, adds
/// as `spec_add_n` and merges as `spec_merge`. By default it does not hold, and nothing is known of what these
/// operations give.
pub trait Sketch<V>: Sized {
    /// Whether `empty`, `add_n` and `merge` follow `spec_empty`, `spec_add_n` and `spec_merge`.
    open spec fn obeys_sketch_spec() -> bool {
        false
    }

    /// The empty summary.
    open spec fn spec_empty() -> Self {
        arbitrary()
    }

    /// The summary `s` with `value` added `n` times.
    open spec fn spec_add_n(s: Self, value: V, n: usize) -> Self {
        arbitrary()
    }

    /// The summary of the values of `a` and of `b`.
    open spec fn spec_merge(a: Self, b: Self) -> Self {
        arbitrary()
    }

    /// An empty summary.
    fn empty() -> (r: Self)
        ensures
            Self::obeys_sketch_spec() ==> r == Self::spec_empty(),
    ;

    /// Adds `value`, `n` times.
    fn add_n(&mut self, value: V, n: usize)
        ensures
            Self::obeys_sketch_spec() ==> *final(self) == Self::spec_add_n(*old(self), value, n),
    ;

    /// Adds the values of `other`.
    fn merge(&mut self, other: &Self)
        ensures
            Self::obeys_sketch_spec() ==> *final(self) == Self::spec_merge(*old(self), *other),
    ;
}

/// The summaries of `buckets` merged in turn, the first bucket first, into an empty summary.
pub open spec fn merged<V, S: Sketch<V>>(buckets: Seq<Bucket<S>>) -> S
    decreases buckets.len(),
{
    if buckets.len() == 0 {
        S::spec_empty()
    } else {
        S::spec_merge(merged::<V, S>(buckets.drop_last()), buckets.last().summary)
    }
}

/// A bucket: the time it begins, and the summary of its values.
pub struct Bucket<S> {
    pub begin: u64,
    pub summary: S,
}

/// Where an added value went.
pub enum Placement {
    /// Into the existing bucket at this position.
    Existing(usize),
    /// Into a new first bucket, the rolling summary having been empty or expired.
    First,
    /// Into a new newest bucket, beginning at this time.
    NewHead(u64),
    /// Nowhere: the value is older than the newest bucket but fits no bucket.
    Dropped,
}

/// The bucket search: `i` is the first bucket, newest first, that holds `now`, and no newer
/// bucket ends before `now`.
pub open spec fn holds_at(begins: Seq<u64>, width: u64, now: u64, i: int) -> bool {
    &&& 0 <= i < begins.len()
    &&& begins[i] <= now < begins[i] + width
    &&& forall|j: int| 0 <= j < i ==> !(now > begins[j] + width) && !(begins[j] <= now < begins[j] + width)
}

/// The buckets that begin after the cutoff.
pub open spec fn after_cutoff<S>(buckets: Seq<Bucket<S>>, cutoff: u64) -> Seq<Bucket<S>>
    decreases buckets.len(),
{
    if buckets.len() == 0 {
        Seq::empty()
    } else {
        let rest = after_cutoff(buckets.drop_last(), cutoff);
        if buckets.last().begin > cutoff {
            rest.push(buckets.last())
        } else {
            rest
        }
    }
}

/// The buckets left once those that began a whole window (`max_age`) or more before `now`
/// have expired.
pub open spec fn unexpired<S>(buckets: Seq<Bucket<S>>, now: u64, max_age: u64) -> Seq<Bucket<S>> {
    if now >= max_age {
        after_cutoff(buckets, (now - max_age) as u64)
    } else {
        buckets
    }
}

/// The first `n` buckets, or all of them when there are no more.
pub open spec fn newest<S>(buckets: Seq<Bucket<S>>, n: int) -> Seq<Bucket<S>> {
    if buckets.len() <= n {
        buckets
    } else {
        buckets.take(n)
    }
}

/// Strictly decreasing begins: the newest bucket first.
pub open spec fn newest_first(begins: Seq<u64>) -> bool {
    forall|a: int, b: int| 0 <= a < b < begins.len() ==> begins[a] > begins[b]
}


proof fn lemma_after_cutoff_prefix<S>(buckets: Seq<Bucket<S>>, cutoff: u64, k: int)
    requires
        newest_first(begins_of(buckets)),
        0 <= k <= buckets.len(),
        forall|j: int| 0 <= j < k ==> (#[trigger] buckets[j]).begin > cutoff,
        k < buckets.len() ==> buckets[k].begin <= cutoff,
    ensures
        after_cutoff(buckets, cutoff) == buckets.take(k),
    decreases buckets.len(),
{
    if buckets.len() > 0 {
        let p = buckets.drop_last();
        assert(newest_first(begins_of(p))) by {
            assert forall|a: int, b: int| 0 <= a < b < begins_of(p).len() implies begins_of(p)[a]
                > begins_of(p)[b] by {
                assert(begins_of(p)[a] == begins_of(buckets)[a]);
                assert(begins_of(p)[b] == begins_of(buckets)[b]);
            }
        }
        let n = buckets.len() - 1;
        if k == buckets.len() {
            assert forall|j: int| 0 <= j < n implies (#[trigger] p[j]).begin > cutoff by {
                assert(p[j] == buckets[j]);
            }
            lemma_after_cutoff_prefix(p, cutoff, n);
            assert(buckets[n].begin > cutoff);
            assert(p.take(n).push(buckets.last()) =~= buckets.take(k));
        } else {
            let k2 = if k < n { k } else { n };
            assert forall|j: int| 0 <= j < k2 implies (#[trigger] p[j]).begin > cutoff by {
                assert(p[j] == buckets[j]);
            }
            if k < n {
                assert(p[k] == buckets[k]);
            }
            lemma_after_cutoff_prefix(p, cutoff, k2);
            // The last bucket is the oldest, so it is no newer than the one at `k`.
            assert(begins_of(buckets)[k] == buckets[k].begin);
            if k < n {
                assert(begins_of(buckets)[n] == buckets[n].begin);
                assert(buckets[n].begin < buckets[k].begin);
            }
            assert(!(buckets.last().begin > cutoff));
            assert(p.take(k2) =~= buckets.take(k));
        }
    }
}

/// Where `add_n(value, n, now)` put the value, taking `old_s` to `new_s` and returning `r`.
///
/// - `Existing(i)`: bucket `i` holds `now` (the search finds it), and only its summary
///   changed, by adding the value `n` times;
/// - `First`: no bucket holds `now` and none is left after expiry; the only bucket begins at
///   `now` and holds the value `n` times;
/// - `NewHead(b)`: no bucket holds `now`, and `now` is after the newest bucket left after
///   expiry; a new newest bucket, beginning at `b` (a whole number of widths after the newest
///   one's begin, and holding `now`), holds the value `n` times, followed by the newest of the
///   buckets left, so that there are at most as many buckets as configured;
/// - `Dropped`: either `n` is zero and nothing changed, or no bucket holds `now`, which is not
///   after the newest bucket left, and only the expired buckets are gone.
pub open spec fn placed<V, S: Sketch<V>>(
    old_s: RollingSummary<S>,
    new_s: RollingSummary<S>,
    value: V,
    n: usize,
    now: u64,
    r: Placement,
) -> bool {
    let old_b = old_s.spec_buckets();
    let new_b = new_s.spec_buckets();
    let width = old_s.spec_width();
    let kept = unexpired(old_b, now, old_s.spec_max_age());
    let found = exists|i: int| holds_at(begins_of(old_b), width, now, i);
    let added = S::spec_add_n(S::spec_empty(), value, n);
    match r {
        Placement::Existing(i) => n > 0 && holds_at(begins_of(old_b), width, now, i as int)
            && begins_of(new_b) == begins_of(old_b) && (forall|k: int|
            0 <= k < old_b.len() && k != i ==> new_b[k] == old_b[k]) && (S::obeys_sketch_spec()
            ==> new_b[i as int].summary == S::spec_add_n(old_b[i as int].summary, value, n)),
        Placement::First => n > 0 && !found && kept.len() == 0 && new_b.len() == 1
            && new_b[0].begin == now && (S::obeys_sketch_spec() ==> new_b[0].summary == added),
        Placement::NewHead(b) => n > 0 && !found && kept.len() > 0 && b > kept[0].begin
            && b <= now < b + width && (b - kept[0].begin) % (width as int) == 0
            && new_b.len() >= 1 && new_b[0].begin == b && new_b.skip(1) == newest(
            kept,
            old_s.spec_max_buckets() - 1,
        ) && (S::obeys_sketch_spec() ==> new_b[0].summary == added),
        Placement::Dropped => (n == 0 && new_b == old_b) || (n > 0 && !found && kept.len()
            > 0 && now <= kept[0].begin && new_b == kept),
    }
}

/// A rolling summary of values in time buckets.
pub struct RollingSummary<S> {
    buckets: Vec<Bucket<S>>,
    max_buckets: usize,
    bucket_duration: u64,
    max_bucket_duration: u64,
    count: u64,
}

/// The begins of buckets.
pub open spec fn begins_of<S>(buckets: Seq<Bucket<S>>) -> Seq<u64> {
    buckets.map_values(|b: Bucket<S>| b.begin)
}

impl<S> RollingSummary<S> {
    /// The buckets, newest first.
    pub closed spec fn spec_buckets(&self) -> Seq<Bucket<S>> {
        self.buckets@
    }

    /// The width of a bucket.
    pub closed spec fn spec_width(&self) -> u64 {
        self.bucket_duration
    }

    /// How many buckets are kept.
    pub closed spec fn spec_max_buckets(&self) -> usize {
        self.max_buckets
    }

    /// How long a bucket is kept: the width times the number of buckets.
    pub closed spec fn spec_max_age(&self) -> u64 {
        self.max_bucket_duration
    }

    /// The number of values added so far.
    pub closed spec fn spec_count(&self) -> u64 {
        self.count
    }

    /// The buckets are newest first, at most as many as configured, and each ends within the
    /// clock's range.
    pub closed spec fn wf(&self) -> bool {
        &&& self.bucket_duration > 0
        &&& self.max_buckets > 0
        &&& self.max_bucket_duration == self.bucket_duration * self.max_buckets
        &&& self.buckets@.len() <= self.max_buckets
        &&& newest_first(begins_of(self.buckets@))
        &&& forall|k: int| 0 <= k < self.buckets@.len() ==> (#[trigger] self.buckets@[k]).begin
            + self.bucket_duration <= u64::MAX
    }

    /// Creates a rolling summary of `buckets` buckets of `bucket_duration` nanoseconds each.
    pub fn new(buckets: u32, bucket_duration: u64) -> (r: RollingSummary<S>)
        requires
            buckets > 0,
            bucket_duration > 0,
            bucket_duration * buckets <= u64::MAX,
        ensures
            r.wf(),
            r.spec_buckets().len() == 0,
            r.spec_count() == 0,
            r.spec_width() == bucket_duration,
            r.spec_max_buckets() == buckets,
            r.spec_max_age() == bucket_duration * buckets,
    {
        let max_bucket_duration: u64 = bucket_duration * (buckets as u64);
        let r = RollingSummary {
            buckets: Vec::new(),
            max_buckets: buckets as usize,
            bucket_duration,
            max_bucket_duration,
            count: 0,
        };
        assert(begins_of(r.buckets@) =~= Seq::<u64>::empty());
        r
    }

    /// The buckets, newest first.
    pub fn buckets(&self) -> (r: &Vec<Bucket<S>>)
        ensures
            r@ == self.spec_buckets(),
    {
        &self.buckets
    }

    /// The width of a bucket, in nanoseconds.
    pub fn bucket_width(&self) -> (r: u64)
        ensures
            r == self.spec_width(),
    {
        self.bucket_duration
    }

    /// The total number of values added.
    pub fn count(&self) -> (r: u64)
        ensures
            r == self.spec_count(),
    {
        self.count
    }

    /// Whether no value was ever added.
    pub fn is_empty(&self) -> (r: bool)
        ensures
            r == (self.spec_count() == 0),
    {
        self.count == 0
    }

    /// The bucket that holds `now`, searching newest first and stopping at the first bucket that
    /// ended before `now`.
    fn find_bucket(&self, now: u64) -> (r: Option<usize>)
        requires
            self.wf(),
        ensures
            match r {
                Some(i) => holds_at(begins_of(self.buckets@), self.bucket_duration, now, i as int),
                None => (forall|i: int| !holds_at(begins_of(self.buckets@), self.bucket_duration, now, i))
                    && (self.buckets@.len() > 0 ==> !(self.buckets@[0].begin <= now
                    < self.buckets@[0].begin + self.bucket_duration)),
            },
    {
        let ghost bs = begins_of(self.buckets@);
        let mut i: usize = 0;
        while i < self.buckets.len()
            invariant
                self.wf(),
                bs == begins_of(self.buckets@),
                i <= self.buckets@.len(),
                forall|j: int|
                    0 <= j < i ==> !(now > bs[j] + self.bucket_duration) && !(bs[j] <= now < bs[j]
                        + self.bucket_duration),
            decreases self.buckets@.len() - i,
        {
            let begin = self.buckets[i].begin;
            let end = begin + self.bucket_duration;
            if now > end {
                proof {
                    assert(bs[i as int] == begin);
                    assert forall|k: int| !holds_at(bs, self.bucket_duration, now, k) by {
                        if k > i {
                            assert(now > bs[i as int] + self.bucket_duration);
                        } else if k == i {
                        }
                    }
                    assert(bs[0] == self.buckets@[0].begin);
                }
                return None;
            }
            if now >= begin && now < end {
                proof {
                    assert(bs[i as int] == begin);
                    assert(holds_at(bs, self.bucket_duration, now, i as int));
                }
                return Some(i);
            }
            i = i + 1;
        }
        proof {
            assert forall|k: int| !holds_at(bs, self.bucket_duration, now, k) by {
                if 0 <= k < bs.len() {
                    assert(!(bs[k] <= now < bs[k] + self.bucket_duration));
                }
            }
            if self.buckets@.len() > 0 {
                assert(bs[0] == self.buckets@[0].begin);
            }
        }
        None
    }
}

/// The default number of buckets.
pub const DEFAULT_SUMMARY_BUCKET_COUNT: u32 = 3;

/// The default bucket width: twenty seconds.
pub const DEFAULT_SUMMARY_BUCKET_NANOS: u64 = 20_000_000_000;

proof fn lemma_holds_at_unique(begins: Seq<u64>, width: u64, now: u64, i: int, j: int)
    requires
        holds_at(begins, width, now, i),
        holds_at(begins, width, now, j),
    ensures
        i == j,
{
}

proof fn lemma_after_cutoff_all_kept<S>(buckets: Seq<Bucket<S>>, cutoff: u64)
    requires
        forall|k: int| 0 <= k < buckets.len() ==> (#[trigger] buckets[k]).begin > cutoff,
    ensures
        after_cutoff(buckets, cutoff) == buckets,
    decreases buckets.len(),
{
    if buckets.len() > 0 {
        let p = buckets.drop_last();
        assert forall|k: int| 0 <= k < p.len() implies (#[trigger] p[k]).begin > cutoff by {
            assert(p[k] == buckets[k]);
        }
        lemma_after_cutoff_all_kept(p, cutoff);
        assert(buckets.last() == buckets[buckets.len() - 1]);
        assert(p.push(buckets.last()) =~= buckets);
    }
}

proof fn lemma_after_cutoff_is_prefix<S>(buckets: Seq<Bucket<S>>, cutoff: u64)
    requires
        newest_first(begins_of(buckets)),
    ensures
        after_cutoff(buckets, cutoff).len() <= buckets.len(),
        after_cutoff(buckets, cutoff) == buckets.take(after_cutoff(buckets, cutoff).len() as int),
        forall|k: int|
            0 <= k < after_cutoff(buckets, cutoff).len() ==> (#[trigger] after_cutoff(buckets, cutoff)[k]).begin
                > cutoff,
    decreases buckets.len(),
{
    if buckets.len() > 0 {
        let p = buckets.drop_last();
        let n = buckets.len() - 1;
        assert(newest_first(begins_of(p))) by {
            assert forall|a: int, b: int| 0 <= a < b < begins_of(p).len() implies begins_of(p)[a]
                > begins_of(p)[b] by {
                assert(begins_of(p)[a] == begins_of(buckets)[a]);
                assert(begins_of(p)[b] == begins_of(buckets)[b]);
            }
        }
        lemma_after_cutoff_is_prefix(p, cutoff);
        let r = after_cutoff(p, cutoff);
        if buckets.last().begin > cutoff {
            assert forall|k: int| 0 <= k < p.len() implies (#[trigger] p[k]).begin > cutoff by {
                assert(begins_of(buckets)[k] == buckets[k].begin);
                assert(begins_of(buckets)[n] == buckets[n].begin);
                assert(p[k] == buckets[k]);
            }
            lemma_after_cutoff_all_kept(p, cutoff);
            assert(r.push(buckets.last()) =~= buckets.take(buckets.len() as int));
        } else {
            assert(p.take(r.len() as int) =~= buckets.take(r.len() as int));
        }
    }
}

proof fn lemma_unexpired_twice<S>(buckets: Seq<Bucket<S>>, now: u64, max_age: u64)
    requires
        newest_first(begins_of(buckets)),
    ensures
        unexpired(unexpired(buckets, now, max_age), now, max_age) == unexpired(buckets, now, max_age),
        unexpired(buckets, now, max_age) == buckets.take(unexpired(buckets, now, max_age).len() as int),
        unexpired(buckets, now, max_age).len() <= buckets.len(),
{
    if now >= max_age {
        let c = (now - max_age) as u64;
        lemma_after_cutoff_is_prefix(buckets, c);
        lemma_after_cutoff_all_kept(after_cutoff(buckets, c), c);
    } else {
        assert(buckets.take(buckets.len() as int) =~= buckets);
    }
}

proof fn lemma_aligned_begin_unique(k0: int, width: int, now: int, b1: int, b2: int)
    requires
        width > 0,
        b1 <= now < b1 + width,
        b2 <= now < b2 + width,
        (b1 - k0) % width == 0,
        (b2 - k0) % width == 0,
    ensures
        b1 == b2,
{
    let q1 = (b1 - k0) / width;
    let q2 = (b2 - k0) / width;
    assert(b1 - k0 == width * q1 + (b1 - k0) % width) by (nonlinear_arith)
        requires
            width > 0,
            q1 == (b1 - k0) / width,
    ;
    assert(b2 - k0 == width * q2 + (b2 - k0) % width) by (nonlinear_arith)
        requires
            width > 0,
            q2 == (b2 - k0) / width,
    ;
    assert(q1 == q2) by (nonlinear_arith)
        requires
            width > 0,
            b1 - k0 == width * q1,
            b2 - k0 == width * q2,
            b1 - b2 < width,
            b2 - b1 < width,
    ;
}

/// Adding a value `a` times and then `b` times at one time leaves the same buckets as adding it
/// `a + b` times at once, for a sketch where adding `a` then `b` times is adding `a + b` times:
/// so adding `n` times is as adding once, `n` times over.
pub proof fn lemma_add_n_splits<V, S: Sketch<V>>(
    s0: RollingSummary<S>,
    s1: RollingSummary<S>,
    s2: RollingSummary<S>,
    s3: RollingSummary<S>,
    value: V,
    a: usize,
    b: usize,
    now: u64,
    r1: Placement,
    r2: Placement,
    r3: Placement,
)
    requires
        s0.wf(),
        S::obeys_sketch_spec(),
        a > 0,
        b > 0,
        a + b <= usize::MAX,
        forall|x: S| S::spec_add_n(S::spec_add_n(x, value, a), value, b) == S::spec_add_n(x, value, (a + b) as usize),
        s1.spec_width() == s0.spec_width(),
        s1.spec_max_age() == s0.spec_max_age(),
        s1.spec_max_buckets() == s0.spec_max_buckets(),
        s1.wf(),
        placed::<V, S>(s0, s1, value, a, now, r1),
        placed::<V, S>(s1, s2, value, b, now, r2),
        placed::<V, S>(s0, s3, value, (a + b) as usize, now, r3),
    ensures
        s2.spec_buckets() == s3.spec_buckets(),
{
    let b0 = s0.spec_buckets();
    let b1 = s1.spec_buckets();
    let b2 = s2.spec_buckets();
    let b3 = s3.spec_buckets();
    let w = s0.spec_width();
    let age = s0.spec_max_age();
    let kept = unexpired(b0, now, age);
    match r1 {
        Placement::Existing(i) => {
            let i = i as int;
            assert(exists|k: int| holds_at(begins_of(b0), w, now, k));
            assert(holds_at(begins_of(b1), w, now, i));
            match r2 {
                Placement::Existing(i2) => {
                    lemma_holds_at_unique(begins_of(b1), w, now, i, i2 as int);
                },
                _ => {},
            }
            match r3 {
                Placement::Existing(i3) => {
                    lemma_holds_at_unique(begins_of(b0), w, now, i, i3 as int);
                },
                _ => {},
            }
            assert(begins_of(b0).len() == b0.len());
            assert(begins_of(b2).len() == b2.len());
            assert(begins_of(b3).len() == b3.len());
            assert forall|k: int| 0 <= k < b2.len() implies #[trigger] b2[k] == b3[k] by {
                assert(begins_of(b2)[k] == b2[k].begin);
                assert(begins_of(b3)[k] == b3[k].begin);
                assert(begins_of(b1)[k] == b1[k].begin);
                assert(begins_of(b0)[k] == b0[k].begin);
            }
            assert(b2 =~= b3);
        },
        Placement::First => {
            assert(begins_of(b1)[0] == b1[0].begin);
            assert(holds_at(begins_of(b1), w, now, 0));
            match r2 {
                Placement::Existing(i2) => {
                    lemma_holds_at_unique(begins_of(b1), w, now, 0, i2 as int);
                },
                _ => {},
            }
            assert(begins_of(b2).len() == b2.len());
            assert(begins_of(b2)[0] == b2[0].begin);
            assert(b2 =~= b3);
        },
        Placement::NewHead(bb) => {
            assert(begins_of(b1)[0] == b1[0].begin);
            assert(holds_at(begins_of(b1), w, now, 0));
            match r2 {
                Placement::Existing(i2) => {
                    lemma_holds_at_unique(begins_of(b1), w, now, 0, i2 as int);
                },
                _ => {},
            }
            match r3 {
                Placement::NewHead(b3b) => {
                    lemma_aligned_begin_unique(kept[0].begin as int, w as int, now as int, bb as int, b3b as int);
                },
                _ => {},
            }
            assert(begins_of(b2).len() == b2.len());
            assert(begins_of(b1).len() == b1.len());
            assert(b1.skip(1).len() == b3.skip(1).len());
            assert(b2.len() == b3.len());
            assert forall|k: int| 0 <= k < b2.len() implies #[trigger] b2[k] == b3[k] by {
                assert(begins_of(b2)[k] == b2[k].begin);
                assert(begins_of(b1)[k] == b1[k].begin);
                if k > 0 {
                    assert(b1.skip(1)[k - 1] == b1[k]);
                    assert(b3.skip(1)[k - 1] == b3[k]);
                }
            }
            assert(b2 =~= b3);
        },
        Placement::Dropped => {
            lemma_unexpired_twice(b0, now, age);
            assert(b1 == kept);
            assert(!exists|k: int| holds_at(begins_of(b1), w, now, k)) by {
                if exists|k: int| holds_at(begins_of(b1), w, now, k) {
                    let k = choose|k: int| holds_at(begins_of(b1), w, now, k);
                    assert(b1.len() <= b0.len());
                    assert forall|j: int| 0 <= j <= k implies begins_of(b1)[j] == begins_of(b0)[j] by {
                        assert(b1[j] == b0.take(b1.len() as int)[j]);
                    }
                    assert(holds_at(begins_of(b0), w, now, k));
                }
            }
            assert(unexpired(b1, now, age) == kept);
            assert(b2 == b3);
        },
    }
}

impl<S> Default for RollingSummary<S> {
    /// Three buckets of twenty seconds.
    fn default() -> (r: RollingSummary<S>)
        ensures
            r.wf(),
            r.spec_buckets().len() == 0,
            r.spec_count() == 0,
            r.spec_width() == DEFAULT_SUMMARY_BUCKET_NANOS,
            r.spec_max_buckets() == DEFAULT_SUMMARY_BUCKET_COUNT,
    {
        RollingSummary::new(DEFAULT_SUMMARY_BUCKET_COUNT, DEFAULT_SUMMARY_BUCKET_NANOS)
    }
}

impl<S> RollingSummary<S> {
    /// Expires the buckets that began at or before the cutoff.
    fn expire(&mut self, cutoff: u64)
        requires
            old(self).wf(),
        ensures
            final(self).wf(),
            final(self).spec_buckets() == after_cutoff(old(self).spec_buckets(), cutoff),
            final(self).spec_buckets().len() <= old(self).spec_buckets().len(),
            final(self).spec_buckets() == old(self).spec_buckets().take(
                final(self).spec_buckets().len() as int,
            ),
            final(self).spec_count() == old(self).spec_count(),
            final(self).spec_width() == old(self).spec_width(),
            final(self).spec_max_buckets() == old(self).spec_max_buckets(),
            final(self).spec_max_age() == old(self).spec_max_age(),
    {
        let mut k: usize = 0;
        while k < self.buckets.len() && self.buckets[k].begin > cutoff
            invariant
                k <= self.buckets@.len(),
                self.buckets@ == old(self).buckets@,
                forall|j: int| 0 <= j < k ==> (#[trigger] self.buckets@[j]).begin > cutoff,
            decreases self.buckets@.len() - k,
        {
            k = k + 1;
        }
        proof {
            lemma_after_cutoff_prefix(self.buckets@, cutoff, k as int);
        }
        self.buckets.truncate(k);
        proof {
            assert(self.buckets@ =~= old(self).buckets@.take(k as int));
            assert forall|a: int, b: int| 0 <= a < b < begins_of(self.buckets@).len() implies begins_of(
                self.buckets@,
            )[a] > begins_of(self.buckets@)[b] by {
                assert(begins_of(self.buckets@)[a] == begins_of(old(self).buckets@)[a]);
                assert(begins_of(self.buckets@)[b] == begins_of(old(self).buckets@)[b]);
            }
            assert forall|j: int| 0 <= j < self.buckets@.len() implies (#[trigger] self.buckets@[j]).begin
                + self.bucket_duration <= u64::MAX by {
                assert(self.buckets@[j] == old(self).buckets@[j]);
            }
        }
    }

    /// Adds `value`, `n` times, at the time `now`.
    ///
    /// The count goes up by `n` whatever happens to the value. The value goes into the newest
    /// bucket that holds `now`, searching newest first and stopping at a bucket that ended
    /// before `now`. Otherwise, the buckets that began a whole window before `now` expire; then
    /// the value starts the first bucket, at `now`, if none is left; or, if it is newer than
    /// the newest bucket, a new newest bucket, aligned on the newest one's begin, with the oldest
    /// buckets dropped to keep the number of buckets; or else, being older than the newest bucket
    /// but in none, it is dropped.
    pub fn add_n<V>(&mut self, value: V, n: usize, now: u64) -> (r: Placement)
        where S: Sketch<V>,
        requires
            old(self).wf(),
            old(self).spec_count() + n <= u64::MAX,
            now + old(self).spec_width() <= u64::MAX,
        ensures
            final(self).wf(),
            final(self).spec_count() == old(self).spec_count() + n,
            final(self).spec_width() == old(self).spec_width(),
            final(self).spec_max_buckets() == old(self).spec_max_buckets(),
            final(self).spec_max_age() == old(self).spec_max_age(),
            placed::<V, S>(*old(self), *final(self), value, n, now, r),
            // A value that was kept is in a bucket that holds its time, where the search finds it.
            !(r is Dropped) ==> exists|i: int|
                holds_at(begins_of(final(self).spec_buckets()), final(self).spec_width(), now, i),
    {
        if n == 0 {
            return Placement::Dropped;
        }
        self.count = self.count + n as u64;
        let ghost old_b = self.buckets@;
        match self.find_bucket(now) {
            Some(i) => {
                let mut bucket = self.buckets.remove(i);
                bucket.summary.add_n(value, n);
                self.buckets.insert(i, bucket);
                proof {
                    assert(begins_of(self.buckets@) =~= begins_of(old_b));
                    assert forall|k: int| 0 <= k < self.buckets@.len() implies (
                    #[trigger] self.buckets@[k]).begin + self.bucket_duration <= u64::MAX by {
                        assert(self.buckets@[k].begin == begins_of(self.buckets@)[k]);
                        assert(begins_of(old_b)[k] == old_b[k].begin);
                    }
                    assert forall|a: int, b: int| 0 <= a < b < begins_of(self.buckets@).len() implies begins_of(
                        self.buckets@,
                    )[a] > begins_of(self.buckets@)[b] by {
                    }
                }
                assert(holds_at(begins_of(self.buckets@), self.bucket_duration, now, i as int));
                assert(holds_at(begins_of(self.spec_buckets()), self.spec_width(), now, i as int));
                return Placement::Existing(i);
            },
            None => {},
        }
        let ghost head_before = if old_b.len() > 0 { old_b[0].begin } else { 0 };
        if now >= self.max_bucket_duration {
            self.expire(now - self.max_bucket_duration);
        }
        let ghost kept = self.buckets@;
        proof {
            assert(kept == unexpired(old_b, now, self.max_bucket_duration));
            if kept.len() > 0 {
                // Expiry keeps the newest buckets, so the newest one is kept.
                if now >= self.max_bucket_duration {
                    assert(kept == old_b.take(kept.len() as int));
                    assert(old_b.take(kept.len() as int)[0] == old_b[0]);
                }
                assert(kept[0] == old_b[0]);
            }
        }
        let mut summary = S::empty();
        summary.add_n(value, n);
        if self.buckets.len() == 0 {
            self.buckets.push(Bucket { begin: now, summary });
            proof {
                assert(begins_of(self.buckets@) =~= seq![now]);
                assert(holds_at(begins_of(self.buckets@), self.bucket_duration, now, 0));
                assert(holds_at(begins_of(self.spec_buckets()), self.spec_width(), now, 0));
            }
            return Placement::First;
        }
        let reftime = self.buckets[0].begin;
        if now > reftime {
            let width = self.bucket_duration;
            proof {
                assert(reftime == head_before);
                assert(now >= reftime + width);
            }
            let mut begin: u64 = reftime + width;
            let mut end: u64 = begin + width;
            proof {
                assert((begin - reftime) % (width as int) == 0) by (nonlinear_arith)
                    requires
                        begin - reftime == width,
                        width > 0,
                ;
            }
            while now < begin || now >= end
                invariant
                    reftime < begin <= now,
                    end == begin + width,
                    now + width <= u64::MAX,
                    width > 0,
                    (begin - reftime) % (width as int) == 0,
                decreases now - begin,
            {
                proof {
                    assert(((begin + width) - reftime) % (width as int) == 0) by (nonlinear_arith)
                        requires
                            (begin - reftime) % (width as int) == 0,
                            width > 0,
                            begin > reftime,
                    ;
                }
                begin = begin + width;
                end = end + width;
            }
            self.buckets.truncate(self.max_buckets - 1);
            let ghost truncated = self.buckets@;
            self.buckets.insert(0, Bucket { begin, summary });
            proof {
                assert(truncated =~= newest(kept, self.max_buckets - 1));
                assert(self.buckets@.skip(1) =~= truncated);
                assert(begins_of(self.buckets@)[0] == begin);
                assert forall|a: int, b: int| 0 <= a < b < begins_of(self.buckets@).len() implies begins_of(
                    self.buckets@,
                )[a] > begins_of(self.buckets@)[b] by {
                    assert(begins_of(self.buckets@)[b] == kept[b - 1].begin);
                    assert(begins_of(kept)[b - 1] == kept[b - 1].begin);
                    if a > 0 {
                        assert(begins_of(self.buckets@)[a] == kept[a - 1].begin);
                        assert(begins_of(kept)[a - 1] == kept[a - 1].begin);
                    } else {
                        assert(begins_of(kept)[0] == reftime);
                    }
                }
                assert forall|j: int| 0 <= j < self.buckets@.len() implies (
                #[trigger] self.buckets@[j]).begin + self.bucket_duration <= u64::MAX by {
                    if j > 0 {
                        assert(self.buckets@[j] == kept[j - 1]);
                    }
                }
            }
            assert(holds_at(begins_of(self.buckets@), self.bucket_duration, now, 0));
            assert(holds_at(begins_of(self.spec_buckets()), self.spec_width(), now, 0));
            return Placement::NewHead(begin);
        }
        Placement::Dropped
    }

    /// Adds `value` once at the time `now` (see [`RollingSummary::add_n`]).
    pub fn add<V>(&mut self, value: V, now: u64) -> (r: Placement)
        where S: Sketch<V>,
        requires
            old(self).wf(),
            old(self).spec_count() + 1 <= u64::MAX,
            now + old(self).spec_width() <= u64::MAX,
        ensures
            final(self).wf(),
            final(self).spec_count() == old(self).spec_count() + 1,
            final(self).spec_width() == old(self).spec_width(),
            final(self).spec_max_buckets() == old(self).spec_max_buckets(),
            final(self).spec_max_age() == old(self).spec_max_age(),
            placed::<V, S>(*old(self), *final(self), value, 1, now, r),
            !(r is Dropped) ==> exists|i: int|
                holds_at(begins_of(final(self).spec_buckets()), final(self).spec_width(), now, i),
            r is Dropped ==> final(self).spec_buckets().len() > 0 && now <= final(self).spec_buckets()[0].begin,
    {
        self.add_n(value, 1, now)
    }

    /// The merged summary of the buckets that have not expired at `now`.
    pub fn snapshot<V>(&self, now: u64) -> (r: S)
        where S: Sketch<V>,
        ensures
            S::obeys_sketch_spec() ==> r == merged::<V, S>(
                unexpired(self.spec_buckets(), now, self.spec_max_age()),
            ),
    {
        let mut acc = S::empty();
        let ghost bs = self.buckets@;
        let mut i: usize = 0;
        while i < self.buckets.len()
            invariant
                i <= bs.len(),
                bs == self.buckets@,
                S::obeys_sketch_spec() ==> acc == merged::<V, S>(
                    unexpired(bs.take(i as int), now, self.max_bucket_duration),
                ),
            decreases bs.len() - i,
        {
            let keep = if now >= self.max_bucket_duration {
                self.buckets[i].begin > now - self.max_bucket_duration
            } else {
                true
            };
            if keep {
                acc.merge(&self.buckets[i].summary);
            }
            proof {
                let t = bs.take(i + 1);
                assert(t.drop_last() =~= bs.take(i as int));
                assert(t.last() == bs[i as int]);
                let u = unexpired(bs.take(i as int), now, self.max_bucket_duration);
                if keep {
                    assert(unexpired(t, now, self.max_bucket_duration).drop_last() =~= u);
                } else {
                    assert(unexpired(t, now, self.max_bucket_duration) == u);
                }
            }
            i = i + 1;
        }
        proof {
            assert(bs.take(bs.len() as int) =~= bs);
        }
        acc
    }
}

} // verus!
