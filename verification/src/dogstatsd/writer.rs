//! Building DogStatsD payloads: newline-delimited metrics packed into payloads no longer than a
//! maximum length, optionally each preceded by a little-endian `u32` length prefix.
use crate::labels::{KeyLabel, MetricKey};
use vstd::bytes::{spec_u32_to_le_bytes, u32_to_le_bytes};
use vstd::prelude::*;
use vstd::utf8::encode_utf8;

verus! {

broadcast use vstd::string::group_string_axioms;

/// Whether `a + b + c + d` exceeds `max`, computed without overflow.
fn sum_exceeds(a: usize, b: usize, c: usize, d: usize, max: usize) -> (r: bool)
    ensures
        r == (a + b + c + d > max),
{
    if a > max {
        return true;
    }
    let r1 = max - a;
    if b > r1 {
        return true;
    }
    let r2 = r1 - b;
    if c > r2 {
        return true;
    }
    d > r2 - c
}

/// Appends bytes to a buffer.
fn append_bytes(v: &mut Vec<u8>, s: &[u8])
    ensures
        final(v)@ == old(v)@ + s@,
{
    let ghost start = v@;
    let mut i: usize = 0;
    while i < s.len()
        invariant
            i <= s@.len(),
            v@ == start + s@.take(i as int),
        decreases s.len() - i,
    {
        v.push(s[i]);
        proof {
            assert(s@.take(i as int + 1) =~= s@.take(i as int).push(s@[i as int]));
        }
        i = i + 1;
    }
    proof {
        assert(s@.take(s@.len() as int) =~= s@);
    }
}

/// The UTF-8 bytes of a string slice.
fn str_bytes(s: &str) -> (r: &[u8])
    ensures
        r@ == encode_utf8(s@),
{
    s.as_bytes()
}

// ---------------------------------------------------------------------------------------------
// Numbers
// ---------------------------------------------------------------------------------------------

/// The decimal digits of `n`, most significant first, as ASCII bytes.
pub open spec fn decimal_bytes(n: nat) -> Seq<u8>
    decreases n,
{
    if n < 10 {
        seq![(48 + n) as u8]
    } else {
        decimal_bytes(n / 10).push((48 + n % 10) as u8)
    }
}

/// `itoa::Buffer::format` for a `u64`: the decimal representation of `value`, without sign or
/// leading zeros.
#[verifier::external_body]
fn format_integer(value: u64) -> (r: Vec<u8>)
    ensures
        r@ == decimal_bytes(value as nat),
{
    let mut buf = itoa::Buffer::new();
    buf.format(value).as_bytes().to_vec()
}

// ---------------------------------------------------------------------------------------------
// Metric types and write results
// ---------------------------------------------------------------------------------------------

/// The DogStatsD metric types.
#[derive(Clone, Copy)]
pub enum MetricType {
    Counter,
    Gauge,
    Histogram,
    Distribution,
}

impl MetricType {
    /// The type marker written after the values: `|c`, `|g`, `|h` or `|d`.
    pub open spec fn spec_bytes(self) -> Seq<u8> {
        match self {
            MetricType::Counter => seq![124u8, 99u8],
            MetricType::Gauge => seq![124u8, 103u8],
            MetricType::Histogram => seq![124u8, 104u8],
            MetricType::Distribution => seq![124u8, 100u8],
        }
    }

    /// The type marker written after the values: `|c`, `|g`, `|h` or `|d`.
    pub fn as_bytes(self) -> (r: Vec<u8>)
        ensures
            r@ == self.spec_bytes(),
    {
        match self {
            MetricType::Counter => vec![124u8, 99u8],
            MetricType::Gauge => vec![124u8, 103u8],
            MetricType::Histogram => vec![124u8, 104u8],
            MetricType::Distribution => vec![124u8, 100u8],
        }
    }
}

/// The outcome of a write: payloads (metric lines) written and points dropped.
pub struct WriteResult {
    payloads_written: u64,
    points_dropped: u64,
}

impl View for WriteResult {
    type V = (u64, u64);

    closed spec fn view(&self) -> (u64, u64) {
        (self.payloads_written, self.points_dropped)
    }
}

impl WriteResult {
    /// `payloads_written` payloads written, nothing dropped.
    pub fn success(payloads_written: u64) -> (r: WriteResult)
        ensures
            r@ == (payloads_written, 0u64),
    {
        WriteResult { payloads_written, points_dropped: 0 }
    }

    /// Nothing written, `points_dropped` points dropped.
    pub fn failure(points_dropped: u64) -> (r: WriteResult)
        ensures
            r@ == (0u64, points_dropped),
    {
        WriteResult { payloads_written: 0, points_dropped }
    }

    /// Nothing written, nothing dropped.
    pub fn new() -> (r: WriteResult)
        ensures
            r@ == (0u64, 0u64),
    {
        WriteResult { payloads_written: 0, points_dropped: 0 }
    }

    fn increment_payloads_written(&mut self)
        requires
            old(self)@.0 < u64::MAX,
        ensures
            final(self)@ == ((old(self)@.0 + 1) as u64, old(self)@.1),
    {
        self.payloads_written = self.payloads_written + 1;
    }

    fn increment_points_dropped(&mut self)
        requires
            old(self)@.1 < u64::MAX,
        ensures
            final(self)@ == (old(self)@.0, (old(self)@.1 + 1) as u64),
    {
        self.points_dropped = self.points_dropped + 1;
    }

    fn increment_points_dropped_by(&mut self, count: u64)
        requires
            old(self)@.1 + count <= u64::MAX,
        ensures
            final(self)@ == (old(self)@.0, (old(self)@.1 + count) as u64),
    {
        self.points_dropped = self.points_dropped + count;
    }

    /// Whether any point was dropped.
    pub fn any_failures(&self) -> (r: bool)
        ensures
            r == (self@.1 != 0),
    {
        self.points_dropped != 0
    }

    /// The number of payloads written.
    pub fn payloads_written(&self) -> (r: u64)
        ensures
            r == self@.0,
    {
        self.payloads_written
    }

    /// The number of points dropped.
    pub fn points_dropped(&self) -> (r: u64)
        ensures
            r == self@.1,
    {
        self.points_dropped
    }
}

// ---------------------------------------------------------------------------------------------
// Metric header and trailer
// ---------------------------------------------------------------------------------------------

/// A tag: `key`, or `key:value` when the value is not empty.
pub open spec fn tag_bytes(l: KeyLabel) -> Seq<u8> {
    if l.value@.len() == 0 {
        encode_utf8(l.key@)
    } else {
        encode_utf8(l.key@) + seq![58u8] + encode_utf8(l.value@)
    }
}

/// The tag section: `|#` followed by the comma-separated tags, or nothing without tags.
pub open spec fn tags_bytes(tags: Seq<KeyLabel>) -> Seq<u8>
    decreases tags.len(),
{
    if tags.len() == 0 {
        Seq::empty()
    } else {
        tags_bytes(tags.drop_last()) + (if tags.len() == 1 {
            seq![124u8, 35u8]
        } else {
            seq![44u8]
        }) + tag_bytes(tags.last())
    }
}

/// A label without a value is written as a bare tag, its key alone with no `:` after it; a
/// label with a value is that bare tag followed by `:` and the value. So a counter whose only
/// label has no value, written without a sample rate or timestamp, ends in `|c|#key` and a
/// newline.
pub proof fn lemma_bare_tags(bare: KeyLabel, valued: KeyLabel)
    ensures
        bare.value@.len() == 0 ==> tag_bytes(bare) == encode_utf8(bare.key@),
        bare.value@.len() == 0 && valued.key@ == bare.key@ && valued.value@.len() > 0 ==> tag_bytes(valued)
            == tag_bytes(bare) + seq![58u8] + encode_utf8(valued.value@),
        bare.value@.len() == 0 ==> trailer_bytes(MetricType::Counter, None, seq![bare], None) == seq![
            124u8,
            99u8,
            124u8,
            35u8,
        ] + encode_utf8(bare.key@) + seq![10u8],
{
    let one = seq![bare];
    assert(one.drop_last() =~= Seq::<KeyLabel>::empty());
    assert(one.last() == bare);
    assert(tags_bytes(Seq::<KeyLabel>::empty()) == Seq::<u8>::empty());
    if bare.value@.len() == 0 {
        assert(tags_bytes(one) =~= seq![124u8, 35u8] + encode_utf8(bare.key@));
        assert(trailer_bytes(MetricType::Counter, None, one, None) =~= seq![124u8, 99u8, 124u8, 35u8]
            + encode_utf8(bare.key@) + seq![10u8]);
    }
}

/// The header of a metric line: the optional prefix and a dot, then the name.
pub open spec fn header_bytes(prefix: Option<Seq<char>>, name: Seq<char>) -> Seq<u8> {
    match prefix {
        Some(p) => encode_utf8(p) + seq![46u8] + encode_utf8(name),
        None => encode_utf8(name),
    }
}

/// The trailer of a metric line: type, optional sample rate (`|@rate`), tags (the key's, then
/// the global ones), optional timestamp (`|Tts`), and a newline.
pub open spec fn trailer_bytes(
    metric_type: MetricType,
    sample_rate: Option<Seq<u8>>,
    tags: Seq<KeyLabel>,
    timestamp: Option<u64>,
) -> Seq<u8> {
    metric_type.spec_bytes() + (match sample_rate {
        Some(r) => seq![124u8, 64u8] + r,
        None => Seq::empty(),
    }) + tags_bytes(tags) + (match timestamp {
        Some(t) => seq![124u8, 84u8] + decimal_bytes(t as nat),
        None => Seq::empty(),
    }) + seq![10u8]
}

fn write_tag(buf: &mut Vec<u8>, label: &KeyLabel)
    ensures
        final(buf)@ == old(buf)@ + tag_bytes(*label),
{
    append_bytes(buf, str_bytes(label.key.as_str()));
    if label.value.as_str().is_empty() {
        return ;
    }
    buf.push(58u8);
    append_bytes(buf, str_bytes(label.value.as_str()));
    proof {
        assert(final(buf)@ =~= old(buf)@ + tag_bytes(*label));
    }
}

fn clone_label(l: &KeyLabel) -> (r: KeyLabel)
    ensures
        r.key@ == l.key@,
        r.value@ == l.value@,
{
    KeyLabel { key: l.key.clone(), value: l.value.clone() }
}

/// The tags of a key's labels followed by the global tags.
pub open spec fn all_tags(key: MetricKey, global_tags: Seq<KeyLabel>) -> Seq<KeyLabel> {
    key.labels@ + global_tags
}

/// Two label sequences with the same keys and values, in order.
pub open spec fn same_labels(a: Seq<KeyLabel>, b: Seq<KeyLabel>) -> bool {
    &&& a.len() == b.len()
    &&& forall|i: int| 0 <= i < a.len() ==> (#[trigger] a[i]).key@ == b[i].key@ && a[i].value@ == b[i].value@
}

proof fn lemma_tags_prefix(s: Seq<KeyLabel>, k: int)
    requires
        0 <= k <= s.len(),
    ensures
        tags_bytes(s.take(k)).is_prefix_of(tags_bytes(s)),
    decreases s.len(),
{
    if k < s.len() {
        lemma_tags_prefix(s.drop_last(), k);
        assert(s.drop_last().take(k) =~= s.take(k));
        let a = tags_bytes(s.take(k));
        let b = tags_bytes(s.drop_last());
        assert(tags_bytes(s).subrange(0, a.len() as int) =~= b.subrange(0, a.len() as int));
    } else {
        assert(s.take(k) =~= s);
        assert(tags_bytes(s).subrange(0, tags_bytes(s).len() as int) =~= tags_bytes(s));
    }
}

/// The trailer bytes written for all tags at once.
proof fn lemma_tags_split(all: Seq<KeyLabel>, n: int)
    requires
        0 <= n <= all.len(),
    ensures
        tags_bytes(all.take(n)) + tags_bytes(all).subrange(
            tags_bytes(all.take(n)).len() as int,
            tags_bytes(all).len() as int,
        ) == tags_bytes(all),
{
    lemma_tags_prefix(all, n);
    let a = tags_bytes(all.take(n));
    let b = tags_bytes(all);
    assert(a + b.subrange(a.len() as int, b.len() as int) =~= b);
}

proof fn lemma_tags_bytes_same(a: Seq<KeyLabel>, b: Seq<KeyLabel>)
    requires
        same_labels(a, b),
    ensures
        tags_bytes(a) == tags_bytes(b),
    decreases a.len(),
{
    if a.len() > 0 {
        assert(same_labels(a.drop_last(), b.drop_last())) by {
            assert forall|i: int| 0 <= i < a.drop_last().len() implies (#[trigger] a.drop_last()[i]).key@
                == b.drop_last()[i].key@ && a.drop_last()[i].value@ == b.drop_last()[i].value@ by {
                assert(a.drop_last()[i] == a[i] && b.drop_last()[i] == b[i]);
            }
        }
        lemma_tags_bytes_same(a.drop_last(), b.drop_last());
        assert(a.last() == a[a.len() - 1] && b.last() == b[b.len() - 1]);
    }
}

// ---------------------------------------------------------------------------------------------
// The payload writer
// ---------------------------------------------------------------------------------------------

/// The abstract state of a [`PayloadWriter`].
pub struct WriterState {
    /// The maximum length of a payload (not counting a length prefix).
    pub max_payload_len: nat,
    /// Whether each payload is preceded by its length.
    pub with_length_prefix: bool,
    /// The finished payloads, oldest first.
    pub payloads: Seq<Seq<u8>>,
    /// The payload being filled.
    pub current: Seq<u8>,
    /// The uncommitted metric: header, values and trailer.
    pub header: Seq<u8>,
    pub values: Seq<u8>,
    pub trailer: Seq<u8>,
    /// Tags added to every metric.
    pub global_tags: Seq<KeyLabel>,
}

impl WriterState {
    /// The uncommitted metric line.
    pub open spec fn uncommitted(self) -> Seq<u8> {
        self.header + self.values + self.trailer
    }

    /// The state with the current payload finished, if it holds anything.
    pub open spec fn finalized(self) -> WriterState {
        if self.current.len() == 0 {
            self
        } else {
            WriterState { payloads: self.payloads.push(self.current), current: Seq::empty(), ..self }
        }
    }

    /// Committing the uncommitted metric: it is discarded (`false`) when longer than a payload
    /// may be; otherwise it goes into the current payload, after finishing that payload first
    /// when the metric would not fit into it. The values are cleared on success.
    pub open spec fn committed(self) -> (bool, WriterState) {
        let unc = self.uncommitted();
        if unc.len() > self.max_payload_len {
            (false, self)
        } else if self.current.len() + unc.len() > self.max_payload_len {
            (
                true,
                WriterState {
                    payloads: self.payloads.push(self.current),
                    current: unc,
                    values: Seq::empty(),
                    ..self
                },
            )
        } else {
            (true, WriterState { current: self.current + unc, values: Seq::empty(), ..self })
        }
    }

    /// Every payload, finished or current, fits the maximum length, and finished payloads are
    /// not empty.
    pub open spec fn payloads_fit(self) -> bool {
        &&& forall|i: int|
            0 <= i < self.payloads.len() ==> 0 < (#[trigger] self.payloads[i]).len()
                <= self.max_payload_len
        &&& self.current.len() <= self.max_payload_len
    }
}

/// The payloads back to back.
pub open spec fn concat_payloads(ps: Seq<Seq<u8>>) -> Seq<u8>
    decreases ps.len(),
{
    if ps.len() == 0 {
        Seq::empty()
    } else {
        concat_payloads(ps.drop_last()) + ps.last()
    }
}

/// Everything committed so far, in order: the finished payloads, then the current one.
pub open spec fn written_bytes(w: WriterState) -> Seq<u8> {
    concat_payloads(w.payloads) + w.current
}

/// A payload of whole metric lines: empty, or ending with a newline.
pub open spec fn whole_lines(p: Seq<u8>) -> bool {
    p.len() == 0 || p.last() == 10u8
}

/// Every payload, finished or current, holds whole metric lines.
pub open spec fn all_whole_lines(w: WriterState) -> bool {
    &&& forall|i: int| 0 <= i < w.payloads.len() ==> whole_lines(#[trigger] w.payloads[i])
    &&& whole_lines(w.current)
}

proof fn lemma_concat_payloads_push(ps: Seq<Seq<u8>>, p: Seq<u8>)
    ensures
        concat_payloads(ps.push(p)) == concat_payloads(ps) + p,
{
    assert(ps.push(p).drop_last() =~= ps);
}

/// Committing a metric line either drops it, changing nothing, when it is longer than a
/// payload may be; or appends it whole to what was written, after everything written before.
/// Finished payloads are never changed, every payload still fits, and payloads of whole lines
/// stay so when the line ends with a newline.
pub proof fn lemma_commit_appends_line(w: WriterState)
    requires
        w.payloads_fit(),
    ensures
        ({
            let (ok, w2) = w.committed();
            &&& ok <==> w.uncommitted().len() <= w.max_payload_len
            &&& ok ==> written_bytes(w2) == written_bytes(w) + w.uncommitted()
            &&& !ok ==> w2 == w
            &&& w2.payloads.take(w.payloads.len() as int) == w.payloads
            &&& w2.payloads_fit()
            &&& all_whole_lines(w) && whole_lines(w.uncommitted()) ==> all_whole_lines(w2)
        }),
{
    let unc = w.uncommitted();
    let (ok, w2) = w.committed();
    if ok {
        if w.current.len() + unc.len() > w.max_payload_len {
            lemma_concat_payloads_push(w.payloads, w.current);
            assert(w2.payloads.take(w.payloads.len() as int) =~= w.payloads);
            assert(written_bytes(w2) =~= written_bytes(w) + unc);
            assert forall|i: int| 0 <= i < w2.payloads.len() implies 0 < (
            #[trigger] w2.payloads[i]).len() <= w2.max_payload_len by {
                if i < w.payloads.len() {
                    assert(w2.payloads[i] == w.payloads[i]);
                }
            }
            if all_whole_lines(w) && whole_lines(unc) {
                assert forall|i: int| 0 <= i < w2.payloads.len() implies whole_lines(
                    #[trigger] w2.payloads[i],
                ) by {
                    if i < w.payloads.len() {
                        assert(w2.payloads[i] == w.payloads[i]);
                    }
                }
            }
        } else {
            assert(w2.payloads.take(w.payloads.len() as int) =~= w.payloads);
            assert(written_bytes(w2) =~= written_bytes(w) + unc);
            if all_whole_lines(w) && whole_lines(unc) {
                if unc.len() > 0 {
                    assert(w2.current.last() == unc.last());
                } else {
                    assert(w2.current =~= w.current);
                }
            }
        }
    } else {
        assert(w2.payloads.take(w.payloads.len() as int) =~= w.payloads);
    }
}

/// Finishing the current payload changes nothing of what was written: the current payload, if
/// it holds anything, becomes the last finished one.
pub proof fn lemma_finalized_keeps_bytes(w: WriterState)
    requires
        w.payloads_fit(),
    ensures
        written_bytes(w.finalized()) == written_bytes(w),
        w.finalized().payloads_fit(),
        w.finalized().current.len() == 0,
        all_whole_lines(w) ==> all_whole_lines(w.finalized()),
{
    if w.current.len() > 0 {
        lemma_concat_payloads_push(w.payloads, w.current);
        assert(written_bytes(w.finalized()) =~= written_bytes(w));
        let f = w.finalized();
        assert forall|i: int| 0 <= i < f.payloads.len() implies 0 < (#[trigger] f.payloads[i]).len()
            <= f.max_payload_len by {
            if i < w.payloads.len() {
                assert(f.payloads[i] == w.payloads[i]);
            }
        }
        if all_whole_lines(w) {
            assert forall|i: int| 0 <= i < f.payloads.len() implies whole_lines(#[trigger] f.payloads[i]) by {
                if i < w.payloads.len() {
                    assert(f.payloads[i] == w.payloads[i]);
                }
            }
        }
    }
}

/// The payloads handed out are everything written, in order: each is non-empty, fits the
/// maximum length, and, where the writer held whole metric lines, holds whole metric lines.
pub proof fn lemma_handed_out_payloads(w: WriterState)
    requires
        w.payloads_fit(),
    ensures
        concat_payloads(w.finalized().payloads) == written_bytes(w),
        forall|i: int|
            0 <= i < w.finalized().payloads.len() ==> 0 < (#[trigger] w.finalized().payloads[i]).len()
                <= w.max_payload_len,
        all_whole_lines(w) ==> forall|i: int|
            0 <= i < w.finalized().payloads.len() ==> whole_lines(#[trigger] w.finalized().payloads[i]),
{
    lemma_finalized_keeps_bytes(w);
    let f = w.finalized();
    assert(written_bytes(f) =~= concat_payloads(f.payloads));
}

/// Every metric line that a write prepares ends with a newline.
pub proof fn lemma_prepared_line_ends_with_newline(
    w: WriterState,
    key: MetricKey,
    metric_type: MetricType,
    timestamp: Option<u64>,
    sample_rate: Option<Seq<u8>>,
    prefix: Option<Seq<char>>,
    values: Seq<u8>,
)
    ensures
        ({
            let p = prepared(w, key, metric_type, timestamp, sample_rate, prefix);
            let line = p.header + values + p.trailer;
            whole_lines(line) && line.len() > 0
        }),
{
    let p = prepared(w, key, metric_type, timestamp, sample_rate, prefix);
    let t = p.trailer;
    assert(t.last() == 10u8);
    assert((p.header + values + t).last() == t.last());
}

/// A frame: the payload, preceded by its length when length prefixes are used.
pub open spec fn frame_of(payload: Seq<u8>, with_length_prefix: bool) -> Seq<u8> {
    if with_length_prefix {
        spec_u32_to_le_bytes(payload.len() as u32) + payload
    } else {
        payload
    }
}

/// The frames of `payloads`, back to back.
pub open spec fn concat_frames(payloads: Seq<Seq<u8>>, with_length_prefix: bool) -> Seq<u8>
    decreases payloads.len(),
{
    if payloads.len() == 0 {
        Seq::empty()
    } else {
        concat_frames(payloads.drop_last(), with_length_prefix) + frame_of(
            payloads.last(),
            with_length_prefix,
        )
    }
}

/// Writes metrics into payloads for efficient network I/O.
///
/// Metrics are newline delimited, so several can share one payload. Every payload holds one or
/// more complete metrics and never exceeds the maximum payload length. With length prefixes,
/// each payload is preceded by its length as a little-endian `u32`, which does not count
/// towards the payload length.
pub struct PayloadWriter {
    max_payload_len: usize,
    payloads_buf: Vec<u8>,
    offsets: Vec<usize>,
    header_buf: Vec<u8>,
    values_buf: Vec<u8>,
    trailer_buf: Vec<u8>,
    with_length_prefix: bool,
    global_tags: Vec<KeyLabel>,
    finished: Ghost<Seq<Seq<u8>>>,
    current: Ghost<Seq<u8>>,
}

impl View for PayloadWriter {
    type V = WriterState;

    closed spec fn view(&self) -> WriterState {
        WriterState {
            max_payload_len: self.max_payload_len as nat,
            with_length_prefix: self.with_length_prefix,
            payloads: self.finished@,
            current: self.current@,
            header: self.header_buf@,
            values: self.values_buf@,
            trailer: self.trailer_buf@,
            global_tags: self.global_tags@,
        }
    }
}

impl PayloadWriter {
    closed spec fn pfx(&self) -> int {
        if self.with_length_prefix {
            4
        } else {
            0
        }
    }

    closed spec fn done_len(&self) -> int {
        concat_frames(self.finished@, self.with_length_prefix).len() as int
    }

    /// The writer's buffers are consistent with its payloads: the payload buffer holds the
    /// frames of the finished payloads, room for a length prefix, and the current payload; each
    /// recorded offset is the end of a finished frame.
    pub closed spec fn wf(&self) -> bool {
        let c = self.done_len();
        let ps = self.finished@;
        &&& 6 <= self.max_payload_len <= u32::MAX
        &&& forall|i: int| 0 <= i < ps.len() ==> 0 < (#[trigger] ps[i]).len() <= self.max_payload_len
        &&& self.current@.len() <= self.max_payload_len
        &&& self.offsets@.len() == ps.len()
        &&& forall|i: int|
            0 <= i < ps.len() ==> #[trigger] self.offsets@[i] == concat_frames(
                ps.take(i + 1),
                self.with_length_prefix,
            ).len()
        &&& self.payloads_buf@.len() == c + self.pfx() + self.current@.len()
        &&& self.payloads_buf@.subrange(0, c) == concat_frames(ps, self.with_length_prefix)
        &&& self.payloads_buf@.subrange(c + self.pfx(), self.payloads_buf@.len() as int) == self.current@
    }
}

/// Every payload of a well-formed writer fits the maximum length.
pub proof fn lemma_payloads_fit(w: &PayloadWriter)
    requires
        w.wf(),
    ensures
        w@.payloads_fit(),
        6 <= w@.max_payload_len <= u32::MAX,
{
}

proof fn lemma_concat_push(ps: Seq<Seq<u8>>, x: Seq<u8>, prefix: bool)
    ensures
        concat_frames(ps.push(x), prefix) == concat_frames(ps, prefix) + frame_of(x, prefix),
{
    assert(ps.push(x).drop_last() =~= ps);
}

impl PayloadWriter {
    /// Creates a writer with the given maximum payload length.
    ///
    /// With `with_length_prefix`, each payload is preceded by a 4-byte length prefix that does
    /// not count towards the payload length. The maximum length must fit a `u32` and allow the
    /// smallest valid metric (`a:0|c\n`, 6 bytes).
    pub fn new(max_payload_len: usize, with_length_prefix: bool) -> (r: PayloadWriter)
        requires
            6 <= max_payload_len <= u32::MAX,
        ensures
            r.wf(),
            r@ == (WriterState {
                max_payload_len: max_payload_len as nat,
                with_length_prefix,
                payloads: Seq::empty(),
                current: Seq::empty(),
                header: Seq::empty(),
                values: Seq::empty(),
                trailer: Seq::empty(),
                global_tags: Seq::empty(),
            }),
    {
        let mut writer = PayloadWriter {
            max_payload_len,
            payloads_buf: Vec::new(),
            offsets: Vec::new(),
            header_buf: Vec::new(),
            values_buf: Vec::new(),
            trailer_buf: Vec::new(),
            with_length_prefix,
            global_tags: Vec::new(),
            finished: Ghost(Seq::empty()),
            current: Ghost(Seq::empty()),
        };
        writer.prepare_for_write();
        proof {
            assert(writer.payloads_buf@.subrange(0, 0) =~= Seq::<u8>::empty());
            assert(writer.payloads_buf@.subrange(writer.pfx(), writer.payloads_buf@.len() as int)
                =~= Seq::<u8>::empty());
        }
        writer
    }

    /// Sets the global labels added to every metric.
    pub fn with_global_labels(self, global_labels: &[KeyLabel]) -> (r: PayloadWriter)
        requires
            self.wf(),
        ensures
            r.wf(),
            r@ == (WriterState { global_tags: r@.global_tags, ..self@ }),
            same_labels(r@.global_tags, global_labels@),
    {
        let mut tags: Vec<KeyLabel> = Vec::new();
        let mut i: usize = 0;
        while i < global_labels.len()
            invariant
                i <= global_labels@.len(),
                tags@.len() == i,
                forall|k: int|
                    0 <= k < i ==> (#[trigger] tags@[k]).key@ == global_labels@[k].key@
                        && tags@[k].value@ == global_labels@[k].value@,
            decreases global_labels.len() - i,
        {
            tags.push(clone_label(&global_labels[i]));
            i = i + 1;
        }
        let mut w = self;
        w.global_tags = tags;
        w
    }

    fn last_offset(&self) -> (r: usize)
        requires
            self.wf(),
        ensures
            r == self.done_len(),
    {
        if self.offsets.len() == 0 {
            0
        } else {
            proof {
                let ps = self.finished@;
                assert(ps.take(ps.len() as int) =~= ps);
            }
            self.offsets[self.offsets.len() - 1]
        }
    }

    /// The number of bytes in the current payload.
    fn current_payload_len(&self) -> (r: usize)
        requires
            self.wf(),
        ensures
            r == self@.current.len(),
    {
        let last_offset = self.last_offset();
        let maybe_length_prefix_len: usize = if self.with_length_prefix {
            4
        } else {
            0
        };
        self.payloads_buf.len() - last_offset - maybe_length_prefix_len
    }

    fn prepare_for_write(&mut self)
        ensures
            final(self).payloads_buf@ == old(self).payloads_buf@ + (if old(self).with_length_prefix {
                seq![0u8, 0u8, 0u8, 0u8]
            } else {
                Seq::empty()
            }),
            final(self).offsets == old(self).offsets,
            final(self).max_payload_len == old(self).max_payload_len,
            final(self).with_length_prefix == old(self).with_length_prefix,
            final(self).header_buf == old(self).header_buf,
            final(self).values_buf == old(self).values_buf,
            final(self).trailer_buf == old(self).trailer_buf,
            final(self).global_tags == old(self).global_tags,
            final(self).finished == old(self).finished,
            final(self).current == old(self).current,
    {
        if self.with_length_prefix {
            self.payloads_buf.push(0);
            self.payloads_buf.push(0);
            self.payloads_buf.push(0);
            self.payloads_buf.push(0);
            proof {
                assert(self.payloads_buf@ =~= old(self).payloads_buf@ + seq![0u8, 0u8, 0u8, 0u8]);
            }
        } else {
            proof {
                assert(self.payloads_buf@ =~= old(self).payloads_buf@ + Seq::<u8>::empty());
            }
        }
    }

    /// Finishes the current payload, if it holds anything, and starts a new one, filling in the
    /// finished payload's length prefix.
    fn finalize_current_payload(&mut self)
        requires
            old(self).wf(),
        ensures
            final(self).wf(),
            final(self)@ == old(self)@.finalized(),
    {
        let current_payload_len = self.current_payload_len();
        if current_payload_len == 0 {
            return ;
        }
        let ghost buf0 = self.payloads_buf@;
        let ghost c = self.done_len();
        let ghost ps = self.finished@;
        let ghost cur = self.current@;
        let current_last_offset = self.last_offset();
        if self.with_length_prefix {
            let len_bytes = u32_to_le_bytes(current_payload_len as u32);
            let blen = self.payloads_buf.len();
            proof {
                assert(self.pfx() == 4);
                assert(self.payloads_buf@.len() == self.done_len() + self.pfx() + self.current@.len());
                assert(current_last_offset == self.done_len());
                assert(current_last_offset + 4 <= self.payloads_buf@.len());
            }
            let o1 = current_last_offset + 1;
            let o2 = current_last_offset + 2;
            let o3 = current_last_offset + 3;
            self.payloads_buf.set(current_last_offset, len_bytes[0]);
            self.payloads_buf.set(o1, len_bytes[1]);
            self.payloads_buf.set(o2, len_bytes[2]);
            self.payloads_buf.set(o3, len_bytes[3]);
            proof {
                assert(self.payloads_buf@ =~= concat_frames(ps, true) + len_bytes@ + cur) by {
                    assert(buf0 =~= buf0.subrange(0, c) + buf0.subrange(c, c + 4) + buf0.subrange(c + 4, buf0.len() as int));
                }
            }
        } else {
            proof {
                assert(self.payloads_buf@ =~= concat_frames(ps, false) + cur) by {
                    assert(buf0 =~= buf0.subrange(0, c) + buf0.subrange(c, buf0.len() as int));
                }
            }
        }
        proof {
            lemma_concat_push(ps, cur, self.with_length_prefix);
            assert(self.payloads_buf@ =~= concat_frames(ps.push(cur), self.with_length_prefix));
        }
        let end = self.payloads_buf.len();
        self.offsets.push(end);
        self.finished = Ghost(ps.push(cur));
        self.current = Ghost(Seq::empty());
        self.prepare_for_write();
        proof {
            let nps = ps.push(cur);
            let n = nps.len();
            assert forall|i: int| 0 <= i < n implies #[trigger] self.offsets@[i] == concat_frames(
                nps.take(i + 1),
                self.with_length_prefix,
            ).len() by {
                if i < n - 1 {
                    assert(nps.take(i + 1) =~= ps.take(i + 1));
                } else {
                    assert(nps.take(i + 1) =~= nps);
                }
            }
            assert forall|i: int| 0 <= i < n implies 0 < (#[trigger] nps[i]).len() <= self.max_payload_len by {
                if i < n - 1 {
                    assert(nps[i] == ps[i]);
                }
            }
            let c2 = self.done_len();
            assert(self.payloads_buf@.subrange(0, c2) =~= concat_frames(nps, self.with_length_prefix));
            assert(self.payloads_buf@.subrange(c2 + self.pfx(), self.payloads_buf@.len() as int) =~= Seq::<u8>::empty());
        }
    }

    /// Commits the uncommitted metric to the current payload; see [`WriterState::committed`].
    ///
    /// Returns `true` if the metric was committed, `false` if it was discarded for being longer
    /// than a payload may be.
    fn commit(&mut self) -> (r: bool)
        requires
            old(self).wf(),
        ensures
            final(self).wf(),
            (r, final(self)@) == old(self)@.committed(),
    {
        if sum_exceeds(self.header_buf.len(), self.values_buf.len(), self.trailer_buf.len(), 0, self.max_payload_len) {
            return false;
        }
        let uncommitted_len = self.header_buf.len() + self.values_buf.len() + self.trailer_buf.len();
        let current_payload_len = self.current_payload_len();
        if sum_exceeds(current_payload_len, uncommitted_len, 0, 0, self.max_payload_len) {
            self.finalize_current_payload();
        }
        let ghost buf1 = self.payloads_buf@;
        let ghost c = self.done_len();
        let ghost unc = self@.uncommitted();
        append_bytes(&mut self.payloads_buf, self.header_buf.as_slice());
        append_bytes(&mut self.payloads_buf, self.values_buf.as_slice());
        append_bytes(&mut self.payloads_buf, self.trailer_buf.as_slice());
        self.current = Ghost(self.current@ + unc);
        self.values_buf.clear();
        proof {
            assert(self.payloads_buf@ =~= buf1 + unc);
            assert(self.payloads_buf@.subrange(0, c) =~= buf1.subrange(0, c));
            assert(self.payloads_buf@.subrange(c + self.pfx(), self.payloads_buf@.len() as int)
                =~= buf1.subrange(c + self.pfx(), buf1.len() as int) + unc);
        }
        true
    }

    /// Whether adding a value of `len` bytes, with its colon, to the uncommitted metric would
    /// exceed the maximum length.
    fn would_write_exceed_limit(&self, len: usize) -> (r: bool)
        requires
            self.wf(),
        ensures
            r == (self@.uncommitted().len() + len + 1 > self@.max_payload_len),
    {
        sum_exceeds(self.header_buf.len(), self.values_buf.len(), self.trailer_buf.len(), len, self.max_payload_len - 1)
    }
}

// ---------------------------------------------------------------------------------------------
// Writing metrics
// ---------------------------------------------------------------------------------------------

/// The character view of an optional string.
pub open spec fn opt_chars(p: Option<&str>) -> Option<Seq<char>> {
    match p {
        Some(s) => Some(s@),
        None => None,
    }
}

/// The byte view of an optional byte slice.
pub open spec fn opt_bytes(p: Option<&[u8]>) -> Option<Seq<u8>> {
    match p {
        Some(s) => Some(s@),
        None => None,
    }
}

/// The writer with a new metric header and trailer.
pub open spec fn with_line(w: WriterState, header: Seq<u8>, trailer: Seq<u8>) -> WriterState {
    WriterState { header, trailer, ..w }
}

/// Writing one value: the metric is dropped, without touching the payloads, if it cannot fit
/// the uncommitted metric; otherwise the value (`:value`) replaces the uncommitted values and
/// the metric is committed. One payload written on success, one point dropped otherwise.
pub open spec fn spec_write_single(w: WriterState, value: Seq<u8>) -> (WriterState, (u64, u64)) {
    if w.uncommitted().len() + value.len() + 1 > w.max_payload_len {
        (w, (0u64, 1u64))
    } else {
        let (ok, w2) = (WriterState { values: seq![58u8] + value, ..w }).committed();
        (w2, if ok { (1u64, 0u64) } else { (0u64, 1u64) })
    }
}

/// Progress through a multi-value write: the writer, uncommitted points, metric lines written,
/// points dropped, and points committed.
pub struct MultiState {
    pub w: WriterState,
    pub uncommitted_points: nat,
    pub written: nat,
    pub dropped: nat,
    pub committed_points: nat,
}

/// The uncommitted metric is committed; its points count as written or as dropped.
pub open spec fn multi_commit(st: MultiState) -> MultiState {
    let (ok, w2) = st.w.committed();
    if ok {
        MultiState {
            w: w2,
            uncommitted_points: 0,
            written: st.written + 1,
            committed_points: st.committed_points + st.uncommitted_points,
            ..st
        }
    } else {
        MultiState { w: w2, uncommitted_points: 0, dropped: st.dropped + st.uncommitted_points, ..st }
    }
}

/// One value of a multi-value write. A value that could not fit a metric line on its own is
/// dropped. Otherwise, when it would not fit the uncommitted metric, that metric is committed
/// first; then the value (`:value`) is added to the uncommitted values.
pub open spec fn multi_step(st: MultiState, v: Seq<u8>) -> MultiState {
    let w = st.w;
    if w.header.len() + v.len() + 1 + w.trailer.len() > w.max_payload_len {
        MultiState { dropped: st.dropped + 1, ..st }
    } else {
        let st2 = if w.uncommitted().len() + v.len() + 1 > w.max_payload_len {
            multi_commit(st)
        } else {
            st
        };
        MultiState {
            w: WriterState { values: st2.w.values + seq![58u8] + v, ..st2.w },
            uncommitted_points: st2.uncommitted_points + 1,
            ..st2
        }
    }
}

/// The values processed in order.
pub open spec fn multi_fold(st: MultiState, vs: Seq<Seq<u8>>) -> MultiState
    decreases vs.len(),
{
    if vs.len() == 0 {
        st
    } else {
        multi_step(multi_fold(st, vs.drop_last()), vs.last())
    }
}

/// The remaining uncommitted points, if any, are committed.
pub open spec fn multi_finish(st: MultiState) -> MultiState {
    if st.uncommitted_points > 0 {
        multi_commit(st)
    } else {
        st
    }
}

/// Writing several values as one or more metric lines. When not even the smallest value (`:0`)
/// fits, every point is dropped. The result is `(lines written, points dropped)`.
pub open spec fn spec_write_multiple(w: WriterState, vs: Seq<Seq<u8>>) -> (MultiState, (u64, u64)) {
    let init = MultiState {
        w,
        uncommitted_points: 0,
        written: 0,
        dropped: 0,
        committed_points: 0,
    };
    if w.uncommitted().len() + 2 > w.max_payload_len {
        (MultiState { dropped: vs.len(), ..init }, (0u64, vs.len() as u64))
    } else {
        let st = multi_finish(multi_fold(init, vs));
        (st, (st.written as u64, st.dropped as u64))
    }
}

/// The byte views of a slice of byte vectors.
pub open spec fn bytes_view(vs: Seq<Vec<u8>>) -> Seq<Seq<u8>> {
    vs.map_values(|v: Vec<u8>| v@)
}

proof fn lemma_multi_fold_counts(st: MultiState, vs: Seq<Seq<u8>>)
    ensures
        multi_fold(st, vs).committed_points + multi_fold(st, vs).dropped + multi_fold(
            st,
            vs,
        ).uncommitted_points == st.committed_points + st.dropped + st.uncommitted_points + vs.len(),
        multi_fold(st, vs).written <= st.written + vs.len(),
        multi_fold(st, vs).w.max_payload_len == st.w.max_payload_len,
        multi_fold(st, vs).w.header == st.w.header,
        multi_fold(st, vs).w.trailer == st.w.trailer,
    decreases vs.len(),
{
    if vs.len() > 0 {
        lemma_multi_fold_counts(st, vs.drop_last());
    }
}

/// Every point handed to a multi-value write is either committed into a metric line or
/// counted as dropped.
pub proof fn lemma_write_multiple_accounts_for_every_point(w: WriterState, vs: Seq<Seq<u8>>)
    ensures
        spec_write_multiple(w, vs).0.committed_points + spec_write_multiple(w, vs).0.dropped
            == vs.len(),
{
    let init = MultiState { w, uncommitted_points: 0, written: 0, dropped: 0, committed_points: 0 };
    lemma_multi_fold_counts(init, vs);
}

/// Values as written in a metric line: each preceded by a colon.
pub open spec fn colon_values(vs: Seq<Seq<u8>>) -> Seq<u8>
    decreases vs.len(),
{
    if vs.len() == 0 {
        Seq::empty()
    } else {
        colon_values(vs.drop_last()) + seq![58u8] + vs.last()
    }
}

/// The uncommitted values of a multi-value write are its uncommitted points, each preceded by a
/// colon.
pub open spec fn colon_form(st: MultiState) -> bool {
    exists|ps: Seq<Seq<u8>>| ps.len() == st.uncommitted_points && st.w.values == colon_values(ps)
}

/// One value of a multi-value write either commits no metric line, changing nothing of what was
/// written, or commits exactly one: the header, one or more colon-prefixed values, and the
/// trailer, no longer than a payload may be, appended after everything written before. Either
/// way the uncommitted values stay colon-prefixed points.
pub proof fn lemma_multi_step_lines(st: MultiState, v: Seq<u8>)
    requires
        colon_form(st),
        st.w.payloads_fit(),
        st.w.uncommitted().len() <= st.w.max_payload_len,
    ensures
        ({
            let st2 = multi_step(st, v);
            &&& colon_form(st2)
            &&& st2.w.payloads_fit()
            &&& st2.w.uncommitted().len() <= st2.w.max_payload_len
            &&& st2.written == st.written ==> written_bytes(st2.w) == written_bytes(st.w)
            &&& st2.written != st.written ==> {
                &&& st2.written == st.written + 1
                &&& st.uncommitted_points > 0
                &&& (exists|ps: Seq<Seq<u8>>| ps.len() > 0 && st.w.values == colon_values(ps))
                &&& written_bytes(st2.w) == written_bytes(st.w) + (st.w.header + st.w.values + st.w.trailer)
                &&& (st.w.header + st.w.values + st.w.trailer).len() <= st.w.max_payload_len
            }
        }),
{
    let w = st.w;
    let ps = choose|ps: Seq<Seq<u8>>| ps.len() == st.uncommitted_points && st.w.values == colon_values(ps);
    if w.header.len() + v.len() + 1 + w.trailer.len() > w.max_payload_len {
    } else {
        let commit = w.uncommitted().len() + v.len() + 1 > w.max_payload_len;
        let st2 = if commit { multi_commit(st) } else { st };
        lemma_commit_appends_line(w);
        let ps2: Seq<Seq<u8>> = if commit { Seq::empty() } else { ps };
        if commit {
            if st.uncommitted_points == 0 {
                assert(ps.len() == 0);
                assert(w.values == Seq::<u8>::empty());
                assert(false);
            }
            assert(w.committed().0);
        }
        assert(st2.w.values == colon_values(ps2));
        let ps3 = ps2.push(v);
        assert(ps3.drop_last() =~= ps2);
        let st3 = multi_step(st, v);
        assert(st3.w.values == colon_values(ps3));
        assert(colon_form(st3));
        if commit {
            assert(exists|q: Seq<Seq<u8>>| q.len() > 0 && st.w.values == colon_values(q)) by {
                assert(ps.len() > 0);
            }
        }
    }
}

impl PayloadWriter {
    fn write_metric_header(&mut self, prefix: Option<&str>, key: &MetricKey)
        requires
            old(self).wf(),
        ensures
            final(self).wf(),
            final(self)@ == (WriterState {
                header: header_bytes(opt_chars(prefix), key.name@),
                ..old(self)@
            }),
    {
        self.header_buf.clear();
        if let Some(prefix) = prefix {
            append_bytes(&mut self.header_buf, str_bytes(prefix));
            self.header_buf.push(46u8);
        }
        append_bytes(&mut self.header_buf, str_bytes(key.name.as_str()));
        proof {
            assert(self.header_buf@ =~= header_bytes(opt_chars(prefix), key.name@));
        }
    }

    fn write_tags(trailer: &mut Vec<u8>, tags: &[KeyLabel], wrote_before: usize, Ghost(all): Ghost<Seq<KeyLabel>>)
        requires
            wrote_before + tags@.len() == all.len(),
            all.subrange(wrote_before as int, all.len() as int) == tags@,
        ensures
            tags_bytes(all).len() >= tags_bytes(all.take(wrote_before as int)).len(),
            final(trailer)@ == old(trailer)@ + tags_bytes(all).subrange(
                tags_bytes(all.take(wrote_before as int)).len() as int,
                tags_bytes(all).len() as int,
            ),
    {
        let ghost base = tags_bytes(all.take(wrote_before as int));
        let ghost start = trailer@;
        let mut i: usize = 0;
        proof {
            assert(all.take(wrote_before + 0) =~= all.take(wrote_before as int));
        }
        while i < tags.len()
            invariant
                i <= tags@.len(),
                wrote_before + tags@.len() == all.len(),
                all.subrange(wrote_before as int, all.len() as int) == tags@,
                base == tags_bytes(all.take(wrote_before as int)),
                tags_bytes(all.take(wrote_before + i)).len() >= base.len(),
                base.is_prefix_of(tags_bytes(all.take(wrote_before + i))),
                trailer@ == start + tags_bytes(all.take(wrote_before + i)).subrange(
                    base.len() as int,
                    tags_bytes(all.take(wrote_before + i)).len() as int,
                ),
            decreases tags.len() - i,
        {
            let ghost k = wrote_before + i;
            let ghost prev_tags = tags_bytes(all.take(k as int));
            if wrote_before > 0 || i > 0 {
                trailer.push(44u8);
            } else {
                trailer.push(124u8);
                trailer.push(35u8);
            }
            write_tag(trailer, &tags[i]);
            proof {
                let t = all.take(k + 1);
                assert(t.drop_last() =~= all.take(k as int));
                assert(t.last() == tags@[i as int]) by {
                    assert(all.subrange(wrote_before as int, all.len() as int)[i as int] == all[k as int]);
                }
                let sep = if k == 0 { seq![124u8, 35u8] } else { seq![44u8] };
                assert(tags_bytes(t) == prev_tags + sep + tag_bytes(tags@[i as int]));
                assert(base.is_prefix_of(tags_bytes(t))) by {
                    assert(tags_bytes(t).subrange(0, base.len() as int) =~= prev_tags.subrange(0, base.len() as int));
                }
                assert(trailer@ =~= start + tags_bytes(t).subrange(
                    base.len() as int,
                    tags_bytes(t).len() as int,
                ));
            }
            i = i + 1;
        }
        proof {
            assert(all.take(all.len() as int) =~= all);
        }
    }

    fn write_all_tags(trailer: &mut Vec<u8>, key: &MetricKey, globals: &Vec<KeyLabel>)
        ensures
            final(trailer)@ == old(trailer)@ + tags_bytes(all_tags(*key, globals@)),
    {
        let ghost head = trailer@;
        let ghost all = all_tags(*key, globals@);
        let n = key.labels.len();
        let ghost mid_all = all.take(n as int);
        proof {
            assert(mid_all =~= key.labels@);
            assert(mid_all.take(0) =~= Seq::<KeyLabel>::empty());
            assert(mid_all.subrange(0, mid_all.len() as int) =~= key.labels@);
        }
        Self::write_tags(trailer, key.labels.as_slice(), 0, Ghost(mid_all));
        proof {
            assert(mid_all.take(mid_all.len() as int) =~= mid_all);
            assert(tags_bytes(mid_all.take(0)) =~= Seq::<u8>::empty());
            assert(tags_bytes(mid_all).subrange(0, tags_bytes(mid_all).len() as int) =~= tags_bytes(mid_all));
            assert(trailer@ =~= head + tags_bytes(mid_all));
            assert(all.subrange(n as int, all.len() as int) =~= globals@);
        }
        Self::write_tags(trailer, globals.as_slice(), n, Ghost(all));
        proof {
            lemma_tags_split(all, n as int);
            assert(trailer@ =~= head + tags_bytes(all));
        }
    }

    fn write_metric_trailer(
        &mut self,
        key: &MetricKey,
        metric_type: MetricType,
        maybe_timestamp: Option<u64>,
        maybe_sample_rate: Option<&[u8]>,
    )
        requires
            old(self).wf(),
        ensures
            final(self).wf(),
            final(self)@ == (WriterState {
                trailer: trailer_bytes(
                    metric_type,
                    opt_bytes(maybe_sample_rate),
                    all_tags(*key, old(self)@.global_tags),
                    maybe_timestamp,
                ),
                ..old(self)@
            }),
    {
        self.trailer_buf.clear();
        let type_bytes = metric_type.as_bytes();
        append_bytes(&mut self.trailer_buf, type_bytes.as_slice());
        if let Some(sample_rate) = maybe_sample_rate {
            self.trailer_buf.push(124u8);
            self.trailer_buf.push(64u8);
            append_bytes(&mut self.trailer_buf, sample_rate);
        }
        let ghost head = self.trailer_buf@;
        proof {
            assert(head =~= metric_type.spec_bytes() + (match opt_bytes(maybe_sample_rate) {
                Some(r) => seq![124u8, 64u8] + r,
                None => Seq::empty(),
            }));
        }
        Self::write_all_tags(&mut self.trailer_buf, key, &self.global_tags);
        let ghost tagged = self.trailer_buf@;
        if let Some(timestamp) = maybe_timestamp {
            let ts = format_integer(timestamp);
            self.trailer_buf.push(124u8);
            self.trailer_buf.push(84u8);
            append_bytes(&mut self.trailer_buf, ts.as_slice());
        }
        self.trailer_buf.push(10u8);
        proof {
            let tsb: Seq<u8> = match maybe_timestamp {
                Some(t) => seq![124u8, 84u8] + decimal_bytes(t as nat),
                None => Seq::empty(),
            };
            assert(self.trailer_buf@ =~= tagged + tsb + seq![10u8]);
        }
    }
}

/// The writer with the header and trailer of a metric line for `key`.
pub open spec fn prepared(
    w: WriterState,
    key: MetricKey,
    metric_type: MetricType,
    timestamp: Option<u64>,
    sample_rate: Option<Seq<u8>>,
    prefix: Option<Seq<char>>,
) -> WriterState {
    with_line(
        w,
        header_bytes(prefix, key.name@),
        trailer_bytes(metric_type, sample_rate, all_tags(key, w.global_tags), timestamp),
    )
}

impl PayloadWriter {
    fn try_write_single(
        &mut self,
        key: &MetricKey,
        metric_value: &[u8],
        metric_type: MetricType,
        maybe_timestamp: Option<u64>,
        prefix: Option<&str>,
    ) -> (r: WriteResult)
        requires
            old(self).wf(),
        ensures
            final(self).wf(),
            (final(self)@, r@) == spec_write_single(
                prepared(old(self)@, *key, metric_type, maybe_timestamp, None, opt_chars(prefix)),
                metric_value@,
            ),
    {
        self.write_metric_header(prefix, key);
        self.write_metric_trailer(key, metric_type, maybe_timestamp, None);
        if self.would_write_exceed_limit(metric_value.len()) {
            return WriteResult::failure(1);
        }
        self.values_buf.clear();
        self.values_buf.push(58u8);
        append_bytes(&mut self.values_buf, metric_value);
        proof {
            assert(self.values_buf@ =~= seq![58u8] + metric_value@);
        }
        if self.commit() {
            WriteResult::success(1)
        } else {
            WriteResult::failure(1)
        }
    }

    fn try_write_multiple(
        &mut self,
        key: &MetricKey,
        metric_values: &[Vec<u8>],
        metric_type: MetricType,
        maybe_sample_rate: Option<&[u8]>,
        prefix: Option<&str>,
    ) -> (r: WriteResult)
        requires
            old(self).wf(),
            metric_values@.len() < u64::MAX,
        ensures
            final(self).wf(),
            (final(self)@, r@) == ({
                let (st, res) = spec_write_multiple(
                    prepared(old(self)@, *key, metric_type, None, opt_bytes(maybe_sample_rate), opt_chars(prefix)),
                    bytes_view(metric_values@),
                );
                (st.w, res)
            }),
    {
        self.write_metric_header(prefix, key);
        self.write_metric_trailer(key, metric_type, None, maybe_sample_rate);
        let ghost w1 = self@;
        let ghost vs = bytes_view(metric_values@);
        if self.would_write_exceed_limit(1) {
            return WriteResult::failure(metric_values.len() as u64);
        }
        let ghost init = MultiState {
            w: w1,
            uncommitted_points: 0,
            written: 0,
            dropped: 0,
            committed_points: 0,
        };
        let ghost mut committed: nat = 0;
        let mut result = WriteResult::new();
        let mut uncommitted_points: u64 = 0;
        let mut i: usize = 0;
        while i < metric_values.len()
            invariant
                i <= metric_values@.len(),
                vs == bytes_view(metric_values@),
                self.wf(),
                multi_fold(init, vs.take(i as int)) == (MultiState {
                    w: self@,
                    uncommitted_points: uncommitted_points as nat,
                    written: result@.0 as nat,
                    dropped: result@.1 as nat,
                    committed_points: committed,
                }),
                committed + result@.1 + uncommitted_points == i,
                result@.0 <= i,
                metric_values@.len() < u64::MAX,
            decreases metric_values.len() - i,
        {
            let metric_value = metric_values[i].as_slice();
            proof {
                let t = vs.take(i as int + 1);
                assert(t.drop_last() =~= vs.take(i as int));
                assert(t.last() == metric_value@);
            }
            if sum_exceeds(self.header_buf.len(), metric_value.len(), self.trailer_buf.len(), 0, self.max_payload_len - 1) {
                result.increment_points_dropped();
                i = i + 1;
                continue;
            }
            if self.would_write_exceed_limit(metric_value.len()) {
                let ghost before = self@;
                if self.commit() {
                    result.increment_payloads_written();
                    proof {
                        committed = (committed + uncommitted_points) as nat;
                    }
                } else {
                    result.increment_points_dropped_by(uncommitted_points);
                }
                uncommitted_points = 0;
            }
            let ghost vals0 = self.values_buf@;
            self.values_buf.push(58u8);
            append_bytes(&mut self.values_buf, metric_value);
            proof {
                assert(self.values_buf@ =~= vals0 + seq![58u8] + metric_value@);
            }
            uncommitted_points = uncommitted_points + 1;
            i = i + 1;
        }
        proof {
            assert(vs.take(metric_values@.len() as int) =~= vs);
        }
        if uncommitted_points > 0 {
            if self.commit() {
                result.increment_payloads_written();
            } else {
                result.increment_points_dropped_by(uncommitted_points);
            }
        }
        result
    }
}

impl PayloadWriter {
    /// Writes a counter: `name:value|c`, with the tags and optional timestamp.
    pub fn write_counter(
        &mut self,
        key: &MetricKey,
        value: u64,
        timestamp: Option<u64>,
        prefix: Option<&str>,
    ) -> (r: WriteResult)
        requires
            old(self).wf(),
        ensures
            final(self).wf(),
            (final(self)@, r@) == spec_write_single(
                prepared(old(self)@, *key, MetricType::Counter, timestamp, None, opt_chars(prefix)),
                decimal_bytes(value as nat),
            ),
    {
        let text = format_integer(value);
        self.try_write_single(key, text.as_slice(), MetricType::Counter, timestamp, prefix)
    }

    /// Writes a gauge: `name:value|g`, with the tags and optional timestamp. The value is given
    /// already rendered as text.
    pub fn write_gauge(
        &mut self,
        key: &MetricKey,
        value: &[u8],
        timestamp: Option<u64>,
        prefix: Option<&str>,
    ) -> (r: WriteResult)
        requires
            old(self).wf(),
        ensures
            final(self).wf(),
            (final(self)@, r@) == spec_write_single(
                prepared(old(self)@, *key, MetricType::Gauge, timestamp, None, opt_chars(prefix)),
                value@,
            ),
    {
        self.try_write_single(key, value, MetricType::Gauge, timestamp, prefix)
    }

    /// Writes histogram values: `name:v1:v2:...|h`, split over as many metric lines as the
    /// maximum payload length requires. The values (and the sample rate) are given already
    /// rendered as text.
    pub fn write_histogram(
        &mut self,
        key: &MetricKey,
        values: &[Vec<u8>],
        maybe_sample_rate: Option<&[u8]>,
        prefix: Option<&str>,
    ) -> (r: WriteResult)
        requires
            old(self).wf(),
            values@.len() < u64::MAX,
        ensures
            final(self).wf(),
            (final(self)@, r@) == ({
                let (st, res) = spec_write_multiple(
                    prepared(old(self)@, *key, MetricType::Histogram, None, opt_bytes(maybe_sample_rate), opt_chars(prefix)),
                    bytes_view(values@),
                );
                (st.w, res)
            }),
    {
        self.try_write_multiple(key, values, MetricType::Histogram, maybe_sample_rate, prefix)
    }

    /// Writes distribution values: `name:v1:v2:...|d`, as [`PayloadWriter::write_histogram`].
    pub fn write_distribution(
        &mut self,
        key: &MetricKey,
        values: &[Vec<u8>],
        maybe_sample_rate: Option<&[u8]>,
        prefix: Option<&str>,
    ) -> (r: WriteResult)
        requires
            old(self).wf(),
            values@.len() < u64::MAX,
        ensures
            final(self).wf(),
            (final(self)@, r@) == ({
                let (st, res) = spec_write_multiple(
                    prepared(old(self)@, *key, MetricType::Distribution, None, opt_bytes(maybe_sample_rate), opt_chars(prefix)),
                    bytes_view(values@),
                );
                (st.w, res)
            }),
    {
        self.try_write_multiple(key, values, MetricType::Distribution, maybe_sample_rate, prefix)
    }
}

/// The metric line being written ends with the newline of its trailer.
pub open spec fn trailer_ends_line(w: WriterState) -> bool {
    w.trailer.len() > 0 && w.trailer.last() == 10u8
}

proof fn lemma_uncommitted_whole(w: WriterState)
    requires
        trailer_ends_line(w),
    ensures
        whole_lines(w.uncommitted()),
{
    assert(w.uncommitted().last() == w.trailer.last());
}

proof fn lemma_multi_fold_whole_lines(st: MultiState, vs: Seq<Seq<u8>>)
    requires
        st.w.payloads_fit(),
        all_whole_lines(st.w),
        trailer_ends_line(st.w),
    ensures
        multi_fold(st, vs).w.payloads_fit(),
        all_whole_lines(multi_fold(st, vs).w),
        multi_fold(st, vs).w.trailer == st.w.trailer,
    decreases vs.len(),
{
    if vs.len() > 0 {
        lemma_multi_fold_whole_lines(st, vs.drop_last());
        let s1 = multi_fold(st, vs.drop_last());
        lemma_uncommitted_whole(s1.w);
        lemma_commit_appends_line(s1.w);
    }
}

/// Writes keep payloads of whole metric lines: when every payload of the writer holds whole
/// lines, so does every payload after writing a single value, or several values, of a metric.
pub proof fn lemma_writes_keep_whole_lines(
    w: WriterState,
    key: MetricKey,
    metric_type: MetricType,
    timestamp: Option<u64>,
    sample_rate: Option<Seq<u8>>,
    prefix: Option<Seq<char>>,
    value: Seq<u8>,
    values: Seq<Seq<u8>>,
)
    requires
        w.payloads_fit(),
        all_whole_lines(w),
    ensures
        all_whole_lines(spec_write_single(prepared(w, key, metric_type, timestamp, None, prefix), value).0),
        all_whole_lines(spec_write_multiple(prepared(w, key, metric_type, None, sample_rate, prefix), values).0.w),
{
    let p1 = prepared(w, key, metric_type, timestamp, None, prefix);
    let w1 = WriterState { values: seq![58u8] + value, ..p1 };
    lemma_prepared_line_ends_with_newline(w, key, metric_type, timestamp, None, prefix, seq![58u8] + value);
    lemma_commit_appends_line(w1);
    let p2 = prepared(w, key, metric_type, None, sample_rate, prefix);
    assert(p2.trailer.last() == 10u8);
    let init = MultiState { w: p2, uncommitted_points: 0, written: 0, dropped: 0, committed_points: 0 };
    lemma_multi_fold_whole_lines(init, values);
    let f = multi_fold(init, values);
    lemma_uncommitted_whole(f.w);
    lemma_commit_appends_line(f.w);
}

// ---------------------------------------------------------------------------------------------
// Handing out payloads
// ---------------------------------------------------------------------------------------------

/// The payloads written by a [`PayloadWriter`], handed out in order.
pub struct Payloads {
    payloads_buf: Vec<u8>,
    start: usize,
    offsets: Vec<usize>,
    next: usize,
    frames: Ghost<Seq<Seq<u8>>>,
}

impl Payloads {
    closed spec fn start_of(&self, i: int) -> int {
        if i == 0 {
            0
        } else {
            self.offsets@[i - 1] as int
        }
    }

    /// The frames are laid out back to back in the buffer, and `next` counts those handed out.
    pub closed spec fn wf(&self) -> bool {
        &&& self.offsets@.len() == self.frames@.len()
        &&& self.next <= self.offsets@.len()
        &&& self.start == self.start_of(self.next as int)
        &&& forall|i: int|
            0 <= i < self.offsets@.len() ==> self.start_of(i) <= #[trigger] self.offsets@[i]
                <= self.payloads_buf@.len()
        &&& forall|i: int|
            0 <= i < self.offsets@.len() ==> self.payloads_buf@.subrange(
                self.start_of(i),
                #[trigger] self.offsets@[i] as int,
            ) == self.frames@[i]
    }
}

impl View for Payloads {
    type V = Seq<Seq<u8>>;

    /// The frames not handed out yet.
    closed spec fn view(&self) -> Seq<Seq<u8>> {
        self.frames@.skip(self.next as int)
    }
}

/// The frames of the given payloads.
pub open spec fn frames_of(payloads: Seq<Seq<u8>>, with_length_prefix: bool) -> Seq<Seq<u8>> {
    payloads.map_values(|p: Seq<u8>| frame_of(p, with_length_prefix))
}

proof fn lemma_concat_prefix(ps: Seq<Seq<u8>>, k: int, prefix: bool)
    requires
        0 <= k <= ps.len(),
    ensures
        concat_frames(ps.take(k), prefix).is_prefix_of(concat_frames(ps, prefix)),
    decreases ps.len(),
{
    if k < ps.len() {
        lemma_concat_prefix(ps.drop_last(), k, prefix);
        assert(ps.drop_last().take(k) =~= ps.take(k));
        let a = concat_frames(ps.take(k), prefix);
        let b = concat_frames(ps.drop_last(), prefix);
        assert(concat_frames(ps, prefix).subrange(0, a.len() as int) =~= b.subrange(0, a.len() as int));
    } else {
        assert(ps.take(k) =~= ps);
        assert(concat_frames(ps, prefix).subrange(0, concat_frames(ps, prefix).len() as int)
            =~= concat_frames(ps, prefix));
    }
}

proof fn lemma_frame_in_concat(ps: Seq<Seq<u8>>, k: int, prefix: bool)
    requires
        0 <= k < ps.len(),
    ensures
        concat_frames(ps.take(k), prefix).len() <= concat_frames(ps.take(k + 1), prefix).len()
            <= concat_frames(ps, prefix).len(),
        concat_frames(ps, prefix).subrange(
            concat_frames(ps.take(k), prefix).len() as int,
            concat_frames(ps.take(k + 1), prefix).len() as int,
        ) == frame_of(ps[k], prefix),
{
    lemma_concat_prefix(ps, k + 1, prefix);
    let t = ps.take(k + 1);
    assert(t.drop_last() =~= ps.take(k));
    assert(t.last() == ps[k]);
    let a = concat_frames(ps.take(k), prefix);
    let b = concat_frames(t, prefix);
    let c = concat_frames(ps, prefix);
    assert(b == a + frame_of(ps[k], prefix));
    assert(c.subrange(a.len() as int, b.len() as int) =~= b.subrange(a.len() as int, b.len() as int));
}

impl PayloadWriter {
    proof fn lemma_cleared_wf(&self)
        requires
            6 <= self.max_payload_len <= u32::MAX,
            self.finished@ == Seq::<Seq<u8>>::empty(),
            self.current@ == Seq::<u8>::empty(),
            self.offsets@.len() == 0,
            self.payloads_buf@ == Seq::<u8>::empty() + (if self.with_length_prefix {
                seq![0u8, 0u8, 0u8, 0u8]
            } else {
                Seq::empty()
            }),
        ensures
            self.wf(),
    {
        assert(self.done_len() == 0);
        assert(self.payloads_buf@.subrange(0, 0) =~= Seq::<u8>::empty());
        assert(self.payloads_buf@.subrange(self.pfx(), self.payloads_buf@.len() as int) =~= Seq::<u8>::empty());
    }

    /// Hands out all payloads written so far, finishing the current one, and empties the
    /// writer: its buffers are all cleared, and it is ready for the next writes (with room for
    /// the next length prefix, if length prefixes are used).
    pub fn payloads(&mut self) -> (r: Payloads)
        requires
            old(self).wf(),
        ensures
            r.wf(),
            r@ == frames_of(old(self)@.finalized().payloads, old(self)@.with_length_prefix),
            final(self)@ == (WriterState {
                payloads: Seq::empty(),
                current: Seq::empty(),
                header: Seq::empty(),
                values: Seq::empty(),
                trailer: Seq::empty(),
                ..old(self)@
            }),
            final(self).wf(),
    {
        self.finalize_current_payload();
        self.header_buf.clear();
        self.values_buf.clear();
        self.trailer_buf.clear();
        let ghost ps = self.finished@;
        let ghost prefix = self.with_length_prefix;
        proof {
            let c = self.done_len();
            assert forall|i: int| 0 <= i < ps.len() implies #[trigger] self.offsets@[i] <= c by {
                lemma_frame_in_concat(ps, i, prefix);
                assert(ps.take(i + 1).len() == i + 1);
            }
        }
        let mut buf: Vec<u8> = Vec::new();
        let mut offsets: Vec<usize> = Vec::new();
        std::mem::swap(&mut buf, &mut self.payloads_buf);
        std::mem::swap(&mut offsets, &mut self.offsets);
        self.finished = Ghost(Seq::empty());
        self.current = Ghost(Seq::empty());
        self.prepare_for_write();
        let r = Payloads {
            payloads_buf: buf,
            start: 0,
            offsets,
            next: 0,
            frames: Ghost(frames_of(ps, prefix)),
        };
        proof {
            let c = concat_frames(ps, prefix);
            assert(r.payloads_buf@.subrange(0, c.len() as int) == c);
            assert forall|i: int| 0 <= i < r.offsets@.len() implies r.start_of(i) <= #[trigger] r.offsets@[i]
                <= r.payloads_buf@.len() && r.payloads_buf@.subrange(r.start_of(i), r.offsets@[i] as int)
                == r.frames@[i] by {
                lemma_frame_in_concat(ps, i, prefix);
                if i > 0 {
                    assert(r.offsets@[i - 1] == concat_frames(ps.take(i), prefix).len());
                } else {
                    assert(ps.take(0) =~= Seq::<Seq<u8>>::empty());
                }
                assert(r.payloads_buf@.subrange(r.start_of(i), r.offsets@[i] as int) =~= c.subrange(
                    r.start_of(i),
                    r.offsets@[i] as int,
                ));
            }
            assert(r@ =~= frames_of(ps, prefix));
            self.lemma_cleared_wf();
        }
        r
    }
}

impl Payloads {
    /// The number of payloads not handed out yet.
    pub fn len(&self) -> (r: usize)
        requires
            self.wf(),
        ensures
            r == self@.len(),
    {
        self.offsets.len() - self.next
    }

    /// The next payload (with its length prefix, if any), or `None` when all have been handed
    /// out.
    pub fn next_payload(&mut self) -> (r: Option<Vec<u8>>)
        requires
            old(self).wf(),
        ensures
            final(self).wf(),
            old(self)@.len() == 0 ==> r is None && final(self)@ == old(self)@,
            old(self)@.len() > 0 ==> (r matches Some(p) && p@ == old(self)@[0] && final(self)@
                == old(self)@.drop_first()),
    {
        if self.next >= self.offsets.len() {
            return None;
        }
        let offset = self.offsets[self.next];
        let mut out: Vec<u8> = Vec::new();
        let mut j = self.start;
        let ghost frame = self.frames@[self.next as int];
        while j < offset
            invariant
                self.start <= j <= offset <= self.payloads_buf@.len(),
                out@ == self.payloads_buf@.subrange(self.start as int, j as int),
            decreases offset - j,
        {
            out.push(self.payloads_buf[j]);
            proof {
                assert(self.payloads_buf@.subrange(self.start as int, j + 1) =~= self.payloads_buf@.subrange(
                    self.start as int,
                    j as int,
                ).push(self.payloads_buf@[j as int]));
            }
            j = j + 1;
        }
        let ghost old_view = self@;
        self.start = offset;
        self.next = self.next + 1;
        proof {
            assert(self@ =~= old_view.drop_first());
        }
        Some(out)
    }
}

} // verus!
