//! Rendering a metrics snapshot in the Prometheus text exposition format.
//!
//! Counters come first, then gauges, then distributions. Each metric family gets its help line
//! (when a description is registered), its type line, one line per sample (several for
//! distributions) and a blank line. Distributions built as native histograms have no text form
//! and are left out.
use crate::distribution::DistributionSelector;
use crate::formatting::{
    join_labels, opt_pair_view, opt_str_view, push_char, spec_escape, spec_help_line, spec_metric_line,
    spec_type_line, strings_view, write_help_line, write_metric_line, write_type_line,
};
use crate::labels::str_eq;
use vstd::prelude::*;

verus! {

broadcast use vstd::string::group_string_axioms;

// ---------------------------------------------------------------------------------------------
// Decimal numbers
// ---------------------------------------------------------------------------------------------

/// The ASCII digit for `d` (below ten).
pub open spec fn digit_char(d: nat) -> char {
    ((48 + d) as u8) as char
}

/// The decimal representation of `n`, without sign or leading zeros.
pub open spec fn decimal_chars(n: nat) -> Seq<char>
    decreases n,
{
    if n < 10 {
        seq![digit_char(n)]
    } else {
        decimal_chars(n / 10).push(digit_char(n % 10))
    }
}

fn push_decimal(s: &mut String, n: u64)
    ensures
        final(s)@ == old(s)@ + decimal_chars(n as nat),
    decreases n,
{
    if n >= 10 {
        push_decimal(s, n / 10);
    }
    let d: u8 = (n % 10) as u8;
    push_char(s, (48u8 + d) as char);
    proof {
        assert(s@ =~= old(s)@ + decimal_chars(n as nat));
    }
}

/// The decimal representation of `n`.
pub fn decimal_string(n: u64) -> (r: String)
    ensures
        r@ == decimal_chars(n as nat),
{
    let mut s = String::new();
    push_decimal(&mut s, n);
    proof {
        assert(s@ =~= decimal_chars(n as nat));
    }
    s
}

// ---------------------------------------------------------------------------------------------
// The snapshot
// ---------------------------------------------------------------------------------------------

/// The samples of one metric name: the rendered labels of each label set, with its value.
pub struct Family<V> {
    pub name: String,
    pub samples: Vec<(Vec<String>, V)>,
}

/// A counter's samples.
pub type CounterFamily = Family<u64>;

/// A gauge's samples, with their values rendered as text.
pub type GaugeFamily = Family<String>;

/// A distribution's sample, with its numbers rendered as text.
pub enum RenderedDistribution {
    /// Each quantile with its value, the sum and the count.
    Summary { quantiles: Vec<(String, String)>, sum: String, count: u64 },
    /// Each bucket's upper bound with its cumulative count, the sum and the count.
    Histogram { buckets: Vec<(String, u64)>, sum: String, count: u64 },
    /// A native histogram, which has no text form.
    NativeHistogram,
}

/// A distribution's samples.
pub type DistributionFamily = Family<RenderedDistribution>;

// ---------------------------------------------------------------------------------------------
// What is rendered
// ---------------------------------------------------------------------------------------------

/// The description registered for `name`: that of the first entry with that name.
pub open spec fn description_of(descs: Seq<(String, String)>, name: Seq<char>) -> Option<Seq<char>>
    decreases descs.len(),
{
    if descs.len() == 0 {
        None
    } else if descs[0].0@ == name {
        Some(descs[0].1@)
    } else {
        description_of(descs.drop_first(), name)
    }
}

/// The help line, if there is a description.
pub open spec fn help_text(name: Seq<char>, desc: Option<Seq<char>>) -> Seq<char> {
    match desc {
        Some(d) => spec_help_line(name, d),
        None => Seq::empty(),
    }
}

/// The lines of counter samples.
pub open spec fn counter_samples_text(
    name: Seq<char>,
    suffix: Option<Seq<char>>,
    samples: Seq<(Vec<String>, u64)>,
) -> Seq<char>
    decreases samples.len(),
{
    if samples.len() == 0 {
        Seq::empty()
    } else {
        counter_samples_text(name, suffix, samples.drop_last()) + spec_metric_line(
            name,
            suffix,
            strings_view(samples.last().0@),
            None,
            decimal_chars(samples.last().1 as nat),
        )
    }
}

/// The lines of gauge samples.
pub open spec fn gauge_samples_text(name: Seq<char>, samples: Seq<(Vec<String>, String)>) -> Seq<
    char,
>
    decreases samples.len(),
{
    if samples.len() == 0 {
        Seq::empty()
    } else {
        gauge_samples_text(name, samples.drop_last()) + spec_metric_line(
            name,
            None,
            strings_view(samples.last().0@),
            None,
            samples.last().1@,
        )
    }
}

/// The lines of a summary's quantiles.
pub open spec fn quantile_lines(
    name: Seq<char>,
    labels: Seq<Seq<char>>,
    quantiles: Seq<(String, String)>,
) -> Seq<char>
    decreases quantiles.len(),
{
    if quantiles.len() == 0 {
        Seq::empty()
    } else {
        quantile_lines(name, labels, quantiles.drop_last()) + spec_metric_line(
            name,
            None,
            labels,
            Some(("quantile"@, quantiles.last().0@)),
            quantiles.last().1@,
        )
    }
}

/// The lines of a histogram's buckets.
pub open spec fn bucket_lines(name: Seq<char>, labels: Seq<Seq<char>>, buckets: Seq<(String, u64)>) -> Seq<
    char,
>
    decreases buckets.len(),
{
    if buckets.len() == 0 {
        Seq::empty()
    } else {
        bucket_lines(name, labels, buckets.drop_last()) + spec_metric_line(
            name,
            Some("bucket"@),
            labels,
            Some(("le"@, buckets.last().0@)),
            decimal_chars(buckets.last().1 as nat),
        )
    }
}

/// The sum and count lines of a distribution.
pub open spec fn sum_count_lines(
    name: Seq<char>,
    labels: Seq<Seq<char>>,
    sum: Seq<char>,
    count: u64,
) -> Seq<char> {
    spec_metric_line(name, Some("sum"@), labels, None, sum) + spec_metric_line(
        name,
        Some("count"@),
        labels,
        None,
        decimal_chars(count as nat),
    )
}

/// The lines of one distribution sample: a summary's quantiles, or a histogram's buckets and
/// its `+Inf` bucket, followed by the sum and the count; nothing for a native histogram.
pub open spec fn distribution_sample_text(
    name: Seq<char>,
    labels: Seq<Seq<char>>,
    d: RenderedDistribution,
) -> Seq<char> {
    match d {
        RenderedDistribution::Summary { quantiles, sum, count } => quantile_lines(
            name,
            labels,
            quantiles@,
        ) + sum_count_lines(name, labels, sum@, count),
        RenderedDistribution::Histogram { buckets, sum, count } => bucket_lines(
            name,
            labels,
            buckets@,
        ) + spec_metric_line(
            name,
            Some("bucket"@),
            labels,
            Some(("le"@, "+Inf"@)),
            decimal_chars(count as nat),
        ) + sum_count_lines(name, labels, sum@, count),
        RenderedDistribution::NativeHistogram => Seq::empty(),
    }
}

/// The lines of distribution samples.
pub open spec fn distribution_samples_text(
    name: Seq<char>,
    samples: Seq<(Vec<String>, RenderedDistribution)>,
) -> Seq<char>
    decreases samples.len(),
{
    if samples.len() == 0 {
        Seq::empty()
    } else {
        distribution_samples_text(name, samples.drop_last()) + distribution_sample_text(
            name,
            strings_view(samples.last().0@),
            samples.last().1,
        )
    }
}

/// A counter family: help line, type line, samples (with the counter suffix), blank line.
pub open spec fn counter_family_text(
    f: CounterFamily,
    descs: Seq<(String, String)>,
    suffix: Option<Seq<char>>,
) -> Seq<char> {
    help_text(f.name@, description_of(descs, f.name@)) + spec_type_line(f.name@, "counter"@)
        + counter_samples_text(f.name@, suffix, f.samples@) + seq!['\n']
}

/// A gauge family: help line, type line, samples, blank line.
pub open spec fn gauge_family_text(f: GaugeFamily, descs: Seq<(String, String)>) -> Seq<char> {
    help_text(f.name@, description_of(descs, f.name@)) + spec_type_line(f.name@, "gauge"@)
        + gauge_samples_text(f.name@, f.samples@) + seq!['\n']
}

/// A distribution family: nothing when it is built as a native histogram, otherwise help
/// line, type line (with its distribution type), samples, blank line.
pub open spec fn distribution_family_text(
    f: DistributionFamily,
    descs: Seq<(String, String)>,
    sel: DistributionSelector,
) -> Seq<char> {
    let dtype = sel.spec_distribution_type(f.name@);
    if dtype == "native_histogram"@ {
        Seq::empty()
    } else {
        help_text(f.name@, description_of(descs, f.name@)) + spec_type_line(f.name@, dtype)
            + distribution_samples_text(f.name@, f.samples@) + seq!['\n']
    }
}

/// All counter families, in order.
pub open spec fn counters_text(
    fs: Seq<CounterFamily>,
    descs: Seq<(String, String)>,
    suffix: Option<Seq<char>>,
) -> Seq<char>
    decreases fs.len(),
{
    if fs.len() == 0 {
        Seq::empty()
    } else {
        counters_text(fs.drop_last(), descs, suffix) + counter_family_text(fs.last(), descs, suffix)
    }
}

/// All gauge families, in order.
pub open spec fn gauges_text(fs: Seq<GaugeFamily>, descs: Seq<(String, String)>) -> Seq<char>
    decreases fs.len(),
{
    if fs.len() == 0 {
        Seq::empty()
    } else {
        gauges_text(fs.drop_last(), descs) + gauge_family_text(fs.last(), descs)
    }
}

/// All distribution families, in order.
pub open spec fn distributions_text(
    fs: Seq<DistributionFamily>,
    descs: Seq<(String, String)>,
    sel: DistributionSelector,
) -> Seq<char>
    decreases fs.len(),
{
    if fs.len() == 0 {
        Seq::empty()
    } else {
        distributions_text(fs.drop_last(), descs, sel) + distribution_family_text(
            fs.last(),
            descs,
            sel,
        )
    }
}

/// The whole exposition.
pub open spec fn exposition_text(
    counters: Seq<CounterFamily>,
    gauges: Seq<GaugeFamily>,
    distributions: Seq<DistributionFamily>,
    descs: Seq<(String, String)>,
    counter_suffix: Option<Seq<char>>,
    sel: DistributionSelector,
) -> Seq<char> {
    counters_text(counters, descs, counter_suffix) + gauges_text(gauges, descs)
        + distributions_text(distributions, descs, sel)
}

// ---------------------------------------------------------------------------------------------
// Rendering
// ---------------------------------------------------------------------------------------------

/// The description registered for `name`.
fn find_description<'a>(descs: &'a [(String, String)], name: &str) -> (r: Option<&'a String>)
    ensures
        match r {
            Some(d) => description_of(descs@, name@) == Some(d@),
            None => description_of(descs@, name@) is None,
        },
{
    let mut i: usize = 0;
    assert(descs@.skip(0) =~= descs@);
    while i < descs.len()
        invariant
            i <= descs@.len(),
            description_of(descs@, name@) == description_of(descs@.skip(i as int), name@),
        decreases descs@.len() - i,
    {
        proof {
            assert(descs@.skip(i as int).drop_first() =~= descs@.skip(i + 1));
        }
        if str_eq(descs[i].0.as_str(), name) {
            return Some(&descs[i].1);
        }
        i = i + 1;
    }
    None
}

fn write_help(buffer: &mut String, name: &str, descs: &[(String, String)])
    ensures
        final(buffer)@ == old(buffer)@ + help_text(name@, description_of(descs@, name@)),
{
    match find_description(descs, name) {
        Some(desc) => write_help_line(buffer, name, desc.as_str()),
        None => {
            assert(buffer@ =~= old(buffer)@ + help_text(name@, description_of(descs@, name@)));
        },
    }
}

fn write_counter_samples(
    buffer: &mut String,
    name: &str,
    suffix: Option<&str>,
    samples: &[(Vec<String>, u64)],
)
    ensures
        final(buffer)@ == old(buffer)@ + counter_samples_text(name@, opt_str_view(suffix), samples@),
{
    let ghost start = buffer@;
    let mut i: usize = 0;
    while i < samples.len()
        invariant
            i <= samples@.len(),
            buffer@ == start + counter_samples_text(
                name@,
                opt_str_view(suffix),
                samples@.take(i as int),
            ),
        decreases samples@.len() - i,
    {
        let value = decimal_string(samples[i].1);
        write_metric_line(buffer, name, suffix, samples[i].0.as_slice(), None, value.as_str());
        proof {
            let t = samples@.take(i + 1);
            assert(t.drop_last() =~= samples@.take(i as int));
            assert(t.last() == samples@[i as int]);
            assert(buffer@ =~= start + counter_samples_text(name@, opt_str_view(suffix), t));
        }
        i = i + 1;
    }
    proof {
        assert(samples@.take(samples@.len() as int) =~= samples@);
    }
}

fn write_gauge_samples(buffer: &mut String, name: &str, samples: &[(Vec<String>, String)])
    ensures
        final(buffer)@ == old(buffer)@ + gauge_samples_text(name@, samples@),
{
    let ghost start = buffer@;
    let mut i: usize = 0;
    while i < samples.len()
        invariant
            i <= samples@.len(),
            buffer@ == start + gauge_samples_text(name@, samples@.take(i as int)),
        decreases samples@.len() - i,
    {
        write_metric_line(buffer, name, None, samples[i].0.as_slice(), None, samples[i].1.as_str());
        proof {
            let t = samples@.take(i + 1);
            assert(t.drop_last() =~= samples@.take(i as int));
            assert(t.last() == samples@[i as int]);
            assert(buffer@ =~= start + gauge_samples_text(name@, t));
        }
        i = i + 1;
    }
    proof {
        assert(samples@.take(samples@.len() as int) =~= samples@);
    }
}

fn write_quantile_lines(
    buffer: &mut String,
    name: &str,
    labels: &[String],
    quantiles: &[(String, String)],
)
    ensures
        final(buffer)@ == old(buffer)@ + quantile_lines(name@, strings_view(labels@), quantiles@),
{
    let ghost start = buffer@;
    let mut i: usize = 0;
    while i < quantiles.len()
        invariant
            i <= quantiles@.len(),
            buffer@ == start + quantile_lines(
                name@,
                strings_view(labels@),
                quantiles@.take(i as int),
            ),
        decreases quantiles@.len() - i,
    {
        write_metric_line(
            buffer,
            name,
            None,
            labels,
            Some(("quantile", quantiles[i].0.as_str())),
            quantiles[i].1.as_str(),
        );
        proof {
            let t = quantiles@.take(i + 1);
            assert(t.drop_last() =~= quantiles@.take(i as int));
            assert(t.last() == quantiles@[i as int]);
            assert(buffer@ =~= start + quantile_lines(name@, strings_view(labels@), t));
        }
        i = i + 1;
    }
    proof {
        assert(quantiles@.take(quantiles@.len() as int) =~= quantiles@);
    }
}

fn write_bucket_lines(buffer: &mut String, name: &str, labels: &[String], buckets: &[(String, u64)])
    ensures
        final(buffer)@ == old(buffer)@ + bucket_lines(name@, strings_view(labels@), buckets@),
{
    let ghost start = buffer@;
    let mut i: usize = 0;
    while i < buckets.len()
        invariant
            i <= buckets@.len(),
            buffer@ == start + bucket_lines(name@, strings_view(labels@), buckets@.take(i as int)),
        decreases buckets@.len() - i,
    {
        let count = decimal_string(buckets[i].1);
        write_metric_line(
            buffer,
            name,
            Some("bucket"),
            labels,
            Some(("le", buckets[i].0.as_str())),
            count.as_str(),
        );
        proof {
            let t = buckets@.take(i + 1);
            assert(t.drop_last() =~= buckets@.take(i as int));
            assert(t.last() == buckets@[i as int]);
            assert(buffer@ =~= start + bucket_lines(name@, strings_view(labels@), t));
        }
        i = i + 1;
    }
    proof {
        assert(buckets@.take(buckets@.len() as int) =~= buckets@);
    }
}

fn write_sum_count(buffer: &mut String, name: &str, labels: &[String], sum: &str, count: u64)
    ensures
        final(buffer)@ == old(buffer)@ + sum_count_lines(name@, strings_view(labels@), sum@, count),
{
    write_metric_line(buffer, name, Some("sum"), labels, None, sum);
    let count_text = decimal_string(count);
    write_metric_line(buffer, name, Some("count"), labels, None, count_text.as_str());
    proof {
        assert(buffer@ =~= old(buffer)@ + sum_count_lines(name@, strings_view(labels@), sum@, count));
    }
}

fn write_distribution_sample(
    buffer: &mut String,
    name: &str,
    labels: &[String],
    d: &RenderedDistribution,
)
    ensures
        final(buffer)@ == old(buffer)@ + distribution_sample_text(name@, strings_view(labels@), *d),
{
    match d {
        RenderedDistribution::Summary { quantiles, sum, count } => {
            write_quantile_lines(buffer, name, labels, quantiles.as_slice());
            write_sum_count(buffer, name, labels, sum.as_str(), *count);
        },
        RenderedDistribution::Histogram { buckets, sum, count } => {
            write_bucket_lines(buffer, name, labels, buckets.as_slice());
            let count_text = decimal_string(*count);
            write_metric_line(
                buffer,
                name,
                Some("bucket"),
                labels,
                Some(("le", "+Inf")),
                count_text.as_str(),
            );
            write_sum_count(buffer, name, labels, sum.as_str(), *count);
        },
        RenderedDistribution::NativeHistogram => {},
    }
    proof {
        assert(buffer@ =~= old(buffer)@ + distribution_sample_text(
            name@,
            strings_view(labels@),
            *d,
        ));
    }
}

fn write_distribution_samples(
    buffer: &mut String,
    name: &str,
    samples: &[(Vec<String>, RenderedDistribution)],
)
    ensures
        final(buffer)@ == old(buffer)@ + distribution_samples_text(name@, samples@),
{
    let ghost start = buffer@;
    let mut i: usize = 0;
    while i < samples.len()
        invariant
            i <= samples@.len(),
            buffer@ == start + distribution_samples_text(name@, samples@.take(i as int)),
        decreases samples@.len() - i,
    {
        write_distribution_sample(buffer, name, samples[i].0.as_slice(), &samples[i].1);
        proof {
            let t = samples@.take(i + 1);
            assert(t.drop_last() =~= samples@.take(i as int));
            assert(t.last() == samples@[i as int]);
            assert(buffer@ =~= start + distribution_samples_text(name@, t));
        }
        i = i + 1;
    }
    proof {
        assert(samples@.take(samples@.len() as int) =~= samples@);
    }
}

fn write_counter_family(
    buffer: &mut String,
    f: &CounterFamily,
    descs: &[(String, String)],
    suffix: Option<&str>,
)
    ensures
        final(buffer)@ == old(buffer)@ + counter_family_text(*f, descs@, opt_str_view(suffix)),
{
    write_help(buffer, f.name.as_str(), descs);
    write_type_line(buffer, f.name.as_str(), "counter");
    write_counter_samples(buffer, f.name.as_str(), suffix, f.samples.as_slice());
    push_char(buffer, '\n');
    proof {
        assert(buffer@ =~= old(buffer)@ + counter_family_text(*f, descs@, opt_str_view(suffix)));
    }
}

fn write_gauge_family(buffer: &mut String, f: &GaugeFamily, descs: &[(String, String)])
    ensures
        final(buffer)@ == old(buffer)@ + gauge_family_text(*f, descs@),
{
    write_help(buffer, f.name.as_str(), descs);
    write_type_line(buffer, f.name.as_str(), "gauge");
    write_gauge_samples(buffer, f.name.as_str(), f.samples.as_slice());
    push_char(buffer, '\n');
    proof {
        assert(buffer@ =~= old(buffer)@ + gauge_family_text(*f, descs@));
    }
}

fn write_distribution_family(
    buffer: &mut String,
    f: &DistributionFamily,
    descs: &[(String, String)],
    sel: &DistributionSelector,
)
    ensures
        final(buffer)@ == old(buffer)@ + distribution_family_text(*f, descs@, *sel),
{
    let distribution_type = sel.get_distribution_type(f.name.as_str());
    if str_eq(distribution_type, "native_histogram") {
        assert(buffer@ =~= old(buffer)@ + distribution_family_text(*f, descs@, *sel));
        return;
    }
    write_help(buffer, f.name.as_str(), descs);
    write_type_line(buffer, f.name.as_str(), distribution_type);
    write_distribution_samples(buffer, f.name.as_str(), f.samples.as_slice());
    push_char(buffer, '\n');
    proof {
        assert(buffer@ =~= old(buffer)@ + distribution_family_text(*f, descs@, *sel));
    }
}

/// Renders a snapshot in the Prometheus text exposition format: the counter families (their
/// samples named with `counter_suffix`, if given), then the gauge families, then the
/// distribution families that are not native histograms, each family with its help line when
/// `descriptions` holds its name, its type line, its samples and a blank line.
pub fn render_exposition(
    counters: &[CounterFamily],
    gauges: &[GaugeFamily],
    distributions: &[DistributionFamily],
    descriptions: &[(String, String)],
    counter_suffix: Option<&str>,
    selector: &DistributionSelector,
) -> (r: String)
    ensures
        r@ == exposition_text(
            counters@,
            gauges@,
            distributions@,
            descriptions@,
            opt_str_view(counter_suffix),
            *selector,
        ),
{
    let mut out = String::new();
    let mut i: usize = 0;
    while i < counters.len()
        invariant
            i <= counters@.len(),
            out@ == counters_text(counters@.take(i as int), descriptions@, opt_str_view(counter_suffix)),
        decreases counters@.len() - i,
    {
        write_counter_family(&mut out, &counters[i], descriptions, counter_suffix);
        proof {
            let t = counters@.take(i + 1);
            assert(t.drop_last() =~= counters@.take(i as int));
            assert(t.last() == counters@[i as int]);
        }
        i = i + 1;
    }
    proof {
        assert(counters@.take(counters@.len() as int) =~= counters@);
    }
    let ghost after_counters = out@;
    let mut i: usize = 0;
    while i < gauges.len()
        invariant
            i <= gauges@.len(),
            out@ == after_counters + gauges_text(gauges@.take(i as int), descriptions@),
        decreases gauges@.len() - i,
    {
        write_gauge_family(&mut out, &gauges[i], descriptions);
        proof {
            let t = gauges@.take(i + 1);
            assert(t.drop_last() =~= gauges@.take(i as int));
            assert(t.last() == gauges@[i as int]);
            assert(out@ =~= after_counters + gauges_text(t, descriptions@));
        }
        i = i + 1;
    }
    proof {
        assert(gauges@.take(gauges@.len() as int) =~= gauges@);
    }
    let ghost after_gauges = out@;
    let mut i: usize = 0;
    while i < distributions.len()
        invariant
            i <= distributions@.len(),
            out@ == after_gauges + distributions_text(
                distributions@.take(i as int),
                descriptions@,
                *selector,
            ),
        decreases distributions@.len() - i,
    {
        write_distribution_family(&mut out, &distributions[i], descriptions, selector);
        proof {
            let t = distributions@.take(i + 1);
            assert(t.drop_last() =~= distributions@.take(i as int));
            assert(t.last() == distributions@[i as int]);
            assert(out@ =~= after_gauges + distributions_text(t, descriptions@, *selector));
        }
        i = i + 1;
    }
    proof {
        assert(distributions@.take(distributions@.len() as int) =~= distributions@);
        assert(out@ =~= exposition_text(
            counters@,
            gauges@,
            distributions@,
            descriptions@,
            opt_str_view(counter_suffix),
            *selector,
        ));
    }
    out
}

// ---------------------------------------------------------------------------------------------
// Laws of the text
// ---------------------------------------------------------------------------------------------

/// The text of quantile `q` with value `v` of a summary sample named `name` with `labels`:
/// the name, then in braces the sample's labels followed by `quantile="q"`, a space, the value
/// and a newline.
pub open spec fn labeled_quantile_line(name: Seq<char>, labels: Seq<Seq<char>>, q: Seq<char>, v: Seq<char>) -> Seq<
    char,
> {
    name + seq!['{'] + (if labels.len() == 0 {
        Seq::empty()
    } else {
        join_labels(labels) + seq![',']
    }) + seq!['q', 'u', 'a', 'n', 't', 'i', 'l', 'e', '=', '"'] + q + seq!['"', '}', ' '] + v + seq!['\n']
}

/// `part` occurs in `text`.
pub open spec fn occurs_in(part: Seq<char>, text: Seq<char>) -> bool {
    exists|off: int| 0 <= off && off + part.len() <= text.len() && #[trigger] text.subrange(off, off + part.len()) == part
}

/// Every quantile line of a summary sample carries that sample's labels: for each quantile
/// `(q, v)`, the sample's text holds `name{labels,quantile="q"} v` (`name{quantile="q"} v`
/// without labels).
pub proof fn lemma_quantile_lines_keep_labels(
    name: Seq<char>,
    labels: Seq<Seq<char>>,
    qs: Seq<(String, String)>,
    i: int,
)
    requires
        0 <= i < qs.len(),
    ensures
        occurs_in(labeled_quantile_line(name, labels, qs[i].0@, qs[i].1@), quantile_lines(name, labels, qs)),
{
    let qt = |t: Seq<(String, String)>| quantile_lines(name, labels, t);
    let qf = |x: (String, String)| spec_metric_line(name, None, labels, Some(("quantile"@, x.0@)), x.1@);
    assert forall|t: Seq<(String, String)>| t.len() > 0 implies #[trigger] qt(t) == qt(t.drop_last()) + qf(
        t.last(),
    ) by {}
    lemma_occurs_in_fold(qt, qf, qs, i);
    lemma_quantile_line(name, labels, qs[i].0@, qs[i].1@);
}

proof fn lemma_quantile_line(name: Seq<char>, labels: Seq<Seq<char>>, q: Seq<char>, v: Seq<char>)
    ensures
        spec_metric_line(name, None, labels, Some(("quantile"@, q)), v) == labeled_quantile_line(name, labels, q, v),
{
    reveal_strlit("quantile");
    assert(spec_metric_line(name, None, labels, Some(("quantile"@, q)), v) =~= labeled_quantile_line(
        name,
        labels,
        q,
        v,
    ));
}

/// `i` is the first registered description of `name`.
pub open spec fn first_description(descs: Seq<(String, String)>, name: Seq<char>, i: int) -> bool {
    &&& 0 <= i < descs.len()
    &&& descs[i].0@ == name
    &&& forall|j: int| 0 <= j < i ==> descs[j].0@ != name
}

proof fn lemma_description_found(descs: Seq<(String, String)>, name: Seq<char>, i: int)
    requires
        first_description(descs, name, i),
    ensures
        description_of(descs, name) == Some(descs[i].1@),
    decreases descs.len(),
{
    if i > 0 {
        let rest = descs.drop_first();
        assert(descs[0].0@ != name);
        assert forall|j: int| 0 <= j < i - 1 implies rest[j].0@ != name by {
            assert(rest[j] == descs[j + 1]);
        }
        assert(rest[i - 1] == descs[i]);
        lemma_description_found(rest, name, i - 1);
    }
}

/// The help line of a family with a registered description: `# HELP name description`, the
/// description escaped as descriptions are.
pub open spec fn help_line_of(name: Seq<char>, desc: Seq<char>) -> Seq<char> {
    seq!['#', ' ', 'H', 'E', 'L', 'P', ' '] + name + seq![' '] + spec_escape(desc, true) + seq!['\n']
}

/// Every family whose name has a registered description opens with its help line, holding the
/// first description registered under that name: counter and gauge families, and distribution
/// families that are rendered at all (not native histograms).
pub proof fn lemma_families_open_with_help(
    c: CounterFamily,
    g: GaugeFamily,
    d: DistributionFamily,
    descs: Seq<(String, String)>,
    suffix: Option<Seq<char>>,
    sel: DistributionSelector,
    ic: int,
    ig: int,
    id: int,
)
    requires
        first_description(descs, c.name@, ic),
        first_description(descs, g.name@, ig),
        first_description(descs, d.name@, id),
    ensures
        counter_family_text(c, descs, suffix).subrange(0, help_line_of(c.name@, descs[ic].1@).len() as int)
            == help_line_of(c.name@, descs[ic].1@),
        gauge_family_text(g, descs).subrange(0, help_line_of(g.name@, descs[ig].1@).len() as int)
            == help_line_of(g.name@, descs[ig].1@),
        sel.spec_distribution_type(d.name@) != "native_histogram"@ ==> distribution_family_text(
            d,
            descs,
            sel,
        ).subrange(0, help_line_of(d.name@, descs[id].1@).len() as int) == help_line_of(d.name@, descs[id].1@),
{
    lemma_description_found(descs, c.name@, ic);
    lemma_description_found(descs, g.name@, ig);
    lemma_description_found(descs, d.name@, id);
    let hc = help_line_of(c.name@, descs[ic].1@);
    let tc = counter_family_text(c, descs, suffix);
    assert(tc.subrange(0, hc.len() as int) =~= hc);
    let hg = help_line_of(g.name@, descs[ig].1@);
    let tg = gauge_family_text(g, descs);
    assert(tg.subrange(0, hg.len() as int) =~= hg);
    if sel.spec_distribution_type(d.name@) != "native_histogram"@ {
        let hd = help_line_of(d.name@, descs[id].1@);
        let td = distribution_family_text(d, descs, sel);
        assert(td.subrange(0, hd.len() as int) =~= hd);
    }
}

proof fn lemma_occurs_in_fold<A>(text: spec_fn(Seq<A>) -> Seq<char>, f: spec_fn(A) -> Seq<char>, s: Seq<A>, i: int)
    requires
        0 <= i < s.len(),
        forall|t: Seq<A>| t.len() > 0 ==> #[trigger] text(t) == text(t.drop_last()) + f(t.last()),
    ensures
        occurs_in(f(s[i]), text(s)),
    decreases s.len(),
{
    let whole = text(s);
    let p = s.drop_last();
    assert(whole == text(p) + f(s.last()));
    if i == s.len() - 1 {
        let off = text(p).len() as int;
        assert(whole.subrange(off, off + f(s[i]).len()) =~= f(s[i]));
    } else {
        lemma_occurs_in_fold(text, f, p, i);
        assert(p[i] == s[i]);
        let part = f(s[i]);
        let off = choose|off: int| 0 <= off && off + part.len() <= text(p).len() && #[trigger] text(p).subrange(
            off,
            off + part.len(),
        ) == part;
        assert(whole.subrange(off, off + part.len()) =~= text(p).subrange(off, off + part.len()));
    }
}

/// A metric line with no additional label: the name (with `_suffix`), the labels in braces
/// when there are any, a space, the value and a newline.
pub open spec fn plain_labeled_line(name: Seq<char>, labels: Seq<Seq<char>>, value: Seq<char>) -> Seq<char> {
    name + (if labels.len() == 0 {
        Seq::empty()
    } else {
        seq!['{'] + join_labels(labels) + seq!['}']
    }) + seq![' '] + value + seq!['\n']
}

/// The name with a suffix: `name_suffix`.
pub open spec fn suffixed_name(name: Seq<char>, suffix: Option<Seq<char>>) -> Seq<char> {
    match suffix {
        Some(x) => name + seq!['_'] + x,
        None => name,
    }
}

/// Every counter and gauge sample is rendered with its own labels: the text of a family's
/// samples holds, for each sample, `name{labels} value` (the bare name without labels; counter
/// names with their suffix).
pub proof fn lemma_samples_keep_labels(
    name: Seq<char>,
    suffix: Option<Seq<char>>,
    counters: Seq<(Vec<String>, u64)>,
    gauges: Seq<(Vec<String>, String)>,
    i: int,
    j: int,
)
    ensures
        0 <= i < counters.len() ==> occurs_in(
            plain_labeled_line(
                suffixed_name(name, suffix),
                strings_view(counters[i].0@),
                decimal_chars(counters[i].1 as nat),
            ),
            counter_samples_text(name, suffix, counters),
        ),
        0 <= j < gauges.len() ==> occurs_in(
            plain_labeled_line(name, strings_view(gauges[j].0@), gauges[j].1@),
            gauge_samples_text(name, gauges),
        ),
{
    let ct = |t: Seq<(Vec<String>, u64)>| counter_samples_text(name, suffix, t);
    let cf = |x: (Vec<String>, u64)|
        spec_metric_line(name, suffix, strings_view(x.0@), None, decimal_chars(x.1 as nat));
    assert forall|t: Seq<(Vec<String>, u64)>| t.len() > 0 implies #[trigger] ct(t) == ct(t.drop_last()) + cf(
        t.last(),
    ) by {}
    if 0 <= i < counters.len() {
        lemma_occurs_in_fold(ct, cf, counters, i);
        let x = counters[i];
        lemma_plain_line(name, suffix, strings_view(x.0@), decimal_chars(x.1 as nat));
    }
    let gt = |t: Seq<(Vec<String>, String)>| gauge_samples_text(name, t);
    let gf = |x: (Vec<String>, String)| spec_metric_line(name, None, strings_view(x.0@), None, x.1@);
    assert forall|t: Seq<(Vec<String>, String)>| t.len() > 0 implies #[trigger] gt(t) == gt(t.drop_last()) + gf(
        t.last(),
    ) by {}
    if 0 <= j < gauges.len() {
        lemma_occurs_in_fold(gt, gf, gauges, j);
        let x = gauges[j];
        lemma_plain_line(name, None, strings_view(x.0@), x.1@);
    }
}

/// The text of bucket `le` with count `c` of a histogram sample named `name` with `labels`:
/// `name_bucket{labels,le="le"} c`.
pub open spec fn labeled_bucket_line(name: Seq<char>, labels: Seq<Seq<char>>, le: Seq<char>, c: u64) -> Seq<char> {
    name + seq!['_', 'b', 'u', 'c', 'k', 'e', 't', '{'] + (if labels.len() == 0 {
        Seq::empty()
    } else {
        join_labels(labels) + seq![',']
    }) + seq!['l', 'e', '=', '"'] + le + seq!['"', '}', ' '] + decimal_chars(c as nat) + seq!['\n']
}

proof fn lemma_plain_line(name: Seq<char>, suffix: Option<Seq<char>>, labels: Seq<Seq<char>>, value: Seq<char>)
    ensures
        spec_metric_line(name, suffix, labels, None, value) == plain_labeled_line(
            suffixed_name(name, suffix),
            labels,
            value,
        ),
{
    assert(spec_metric_line(name, suffix, labels, None, value) =~= plain_labeled_line(
        suffixed_name(name, suffix),
        labels,
        value,
    ));
}

proof fn lemma_bucket_line(name: Seq<char>, labels: Seq<Seq<char>>, le: Seq<char>, c: u64)
    ensures
        spec_metric_line(name, Some("bucket"@), labels, Some(("le"@, le)), decimal_chars(c as nat))
            == labeled_bucket_line(name, labels, le, c),
{
    reveal_strlit("bucket");
    reveal_strlit("le");
    assert(spec_metric_line(name, Some("bucket"@), labels, Some(("le"@, le)), decimal_chars(c as nat))
        =~= labeled_bucket_line(name, labels, le, c));
}

/// Every bucket line of a histogram sample carries that sample's labels, and its sum and count
/// lines do too: `name_bucket{labels,le="b"} c` for each bucket, `name_sum{labels} sum` and
/// `name_count{labels} count`.
pub proof fn lemma_distribution_lines_keep_labels(
    name: Seq<char>,
    labels: Seq<Seq<char>>,
    buckets: Seq<(String, u64)>,
    sum: Seq<char>,
    count: u64,
    i: int,
)
    ensures
        0 <= i < buckets.len() ==> occurs_in(
            labeled_bucket_line(name, labels, buckets[i].0@, buckets[i].1),
            bucket_lines(name, labels, buckets),
        ),
        sum_count_lines(name, labels, sum, count) == plain_labeled_line(
            name + seq!['_', 's', 'u', 'm'],
            labels,
            sum,
        ) + plain_labeled_line(name + seq!['_', 'c', 'o', 'u', 'n', 't'], labels, decimal_chars(count as nat)),
{
    let bt = |t: Seq<(String, u64)>| bucket_lines(name, labels, t);
    let bf = |x: (String, u64)|
        spec_metric_line(name, Some("bucket"@), labels, Some(("le"@, x.0@)), decimal_chars(x.1 as nat));
    assert forall|t: Seq<(String, u64)>| t.len() > 0 implies #[trigger] bt(t) == bt(t.drop_last()) + bf(
        t.last(),
    ) by {}
    if 0 <= i < buckets.len() {
        lemma_occurs_in_fold(bt, bf, buckets, i);
        let x = buckets[i];
        lemma_bucket_line(name, labels, x.0@, x.1);
    }
    lemma_plain_line(name, Some("sum"@), labels, sum);
    lemma_plain_line(name, Some("count"@), labels, decimal_chars(count as nat));
    reveal_strlit("sum");
    reveal_strlit("count");
    assert(suffixed_name(name, Some("sum"@)) =~= name + seq!['_', 's', 'u', 'm']);
    assert(suffixed_name(name, Some("count"@)) =~= name + seq!['_', 'c', 'o', 'u', 'n', 't']);
}

} // verus!
