//! Observed metrics in the Prometheus exposition format: names and labels as the observer writes
//! them, counters summed and gauges kept at their latest value, and their text.
use crate::exposition::{decimal_chars, decimal_string, occurs_in, Family};
use crate::formatting::{push_char, push_str, strings_view};
use crate::labels::{str_ends_with, str_eq, to_string, MetricKey};
use crate::snapshot::{
    families_view, first_named, first_with_labels, lemma_least_named, lemma_least_with_labels,
    same_labels, FamilyView,
};
use vstd::prelude::*;

verus! {

broadcast use vstd::string::group_string_axioms;

// ---------------------------------------------------------------------------------------------
// Names and labels
// ---------------------------------------------------------------------------------------------

/// A character of an observed metric name: `.`, `=`, `{`, `}`, `+` and `-` become `_`.
pub open spec fn observed_name_char(c: char) -> char {
    if c == '.' || c == '=' || c == '{' || c == '}' || c == '+' || c == '-' {
        '_'
    } else {
        c
    }
}

/// An observed metric name.
pub open spec fn spec_observed_name(s: Seq<char>) -> Seq<char> {
    s.map_values(|c: char| observed_name_char(c))
}

/// A character of a label value, escaped: a backslash, a double quote and a newline are
/// written as `\\`, `\"` and `\n`.
pub open spec fn escaped_char(c: char) -> Seq<char> {
    if c == '\\' {
        seq!['\\', '\\']
    } else if c == '"' {
        seq!['\\', '"']
    } else if c == '\n' {
        seq!['\\', 'n']
    } else {
        seq![c]
    }
}

/// A label value, escaped.
pub open spec fn spec_escaped_value(s: Seq<char>) -> Seq<char>
    decreases s.len(),
{
    if s.len() == 0 {
        Seq::empty()
    } else {
        spec_escaped_value(s.drop_last()) + escaped_char(s.last())
    }
}

/// A label as the observer writes it: `key="escaped value"`.
pub open spec fn spec_observed_label(pair: (Seq<char>, Seq<char>)) -> Seq<char> {
    pair.0 + seq!['=', '"'] + spec_escaped_value(pair.1) + seq!['"']
}

/// The labels joined by commas.
pub open spec fn joined(labels: Seq<Seq<char>>) -> Seq<char>
    decreases labels.len(),
{
    if labels.len() == 0 {
        Seq::empty()
    } else if labels.len() == 1 {
        labels[0]
    } else {
        joined(labels.drop_last()) + seq![','] + labels.last()
    }
}

/// A name with its labels: `name{label,label}`, or the bare name without labels.
pub open spec fn spec_labeled_name(name: Seq<char>, labels: Seq<Seq<char>>) -> Seq<char> {
    if labels.len() == 0 {
        name
    } else {
        name + seq!['{'] + joined(labels) + seq!['}']
    }
}

/// Writes an observed metric name: `.`, `=`, `{`, `}`, `+` and `-` become `_`.
pub fn observed_name(name: &str) -> (r: String)
    ensures
        r@ == spec_observed_name(name@),
{
    let mut out = String::new();
    for c in it: name.chars()
        invariant
            it.seq() == name@,
            out@ == spec_observed_name(it.seq().take(it.index() as int)),
    {
        let mapped = if c == '.' || c == '=' || c == '{' || c == '}' || c == '+' || c == '-' {
            '_'
        } else {
            c
        };
        push_char(&mut out, mapped);
        proof {
            assert(spec_observed_name(it.seq().take(it.index() as int + 1)) =~= spec_observed_name(
                it.seq().take(it.index() as int),
            ).push(mapped));
        }
    }
    proof {
        assert(name@.take(name@.len() as int) =~= name@);
    }
    out
}

/// Escapes a label value.
pub fn escaped_value(value: &str) -> (r: String)
    ensures
        r@ == spec_escaped_value(value@),
{
    let mut out = String::new();
    for c in it: value.chars()
        invariant
            it.seq() == value@,
            out@ == spec_escaped_value(it.seq().take(it.index() as int)),
    {
        if c == '\\' {
            push_char(&mut out, '\\');
            push_char(&mut out, '\\');
        } else if c == '"' {
            push_char(&mut out, '\\');
            push_char(&mut out, '"');
        } else if c == '\n' {
            push_char(&mut out, '\\');
            push_char(&mut out, 'n');
        } else {
            push_char(&mut out, c);
        }
        proof {
            let t = it.seq().take(it.index() as int + 1);
            assert(t.drop_last() =~= it.seq().take(it.index() as int));
            assert(t.last() == c);
            assert(out@ =~= spec_escaped_value(t));
        }
    }
    proof {
        assert(value@.take(value@.len() as int) =~= value@);
    }
    out
}

/// The observed name and labels of a key.
pub fn observed_key_parts(key: &MetricKey) -> (r: (String, Vec<String>))
    ensures
        r.0@ == spec_observed_name(key.name@),
        r.1@.len() == key.labels@.len(),
        forall|i: int|
            0 <= i < r.1@.len() ==> (#[trigger] r.1@[i])@ == spec_observed_label(
                key.label_pairs()[i],
            ),
{
    let name = observed_name(key.name.as_str());
    let mut labels: Vec<String> = Vec::new();
    let mut i: usize = 0;
    while i < key.labels.len()
        invariant
            i <= key.labels@.len(),
            labels@.len() == i,
            forall|j: int|
                0 <= j < i ==> (#[trigger] labels@[j])@ == spec_observed_label(
                    key.label_pairs()[j],
                ),
        decreases key.labels@.len() - i,
    {
        let label = &key.labels[i];
        let mut rendered = String::new();
        push_str(&mut rendered, label.key.as_str());
        push_char(&mut rendered, '=');
        push_char(&mut rendered, '"');
        let value = escaped_value(label.value.as_str());
        push_str(&mut rendered, value.as_str());
        push_char(&mut rendered, '"');
        proof {
            assert(rendered@ =~= spec_observed_label(key.label_pairs()[i as int]));
        }
        labels.push(rendered);
        i = i + 1;
    }
    (name, labels)
}

/// Writes a name with its labels: `name{label,label}`, or the bare name without labels.
pub fn render_labeled_name(name: &str, labels: &[String]) -> (r: String)
    ensures
        r@ == spec_labeled_name(name@, strings_view(labels@)),
{
    let mut out = String::new();
    push_str(&mut out, name);
    if labels.len() == 0 {
        proof {
            assert(out@ =~= name@);
            assert(strings_view(labels@).len() == 0);
        }
        return out;
    }
    push_char(&mut out, '{');
    let ghost head = out@;
    let ghost lv = strings_view(labels@);
    let mut i: usize = 0;
    while i < labels.len()
        invariant
            i <= labels@.len(),
            lv == strings_view(labels@),
            out@ == head + joined(lv.take(i as int)),
        decreases labels@.len() - i,
    {
        let ghost before = out@;
        if i != 0 {
            push_char(&mut out, ',');
        }
        push_str(&mut out, labels[i].as_str());
        proof {
            let t = lv.take(i + 1);
            assert(t.drop_last() =~= lv.take(i as int));
            assert(t.last() == labels@[i as int]@);
            if i == 0 {
                assert(t =~= seq![labels@[0]@]);
            }
            assert(out@ =~= head + joined(t));
        }
        i = i + 1;
    }
    push_char(&mut out, '}');
    proof {
        assert(lv.take(labels@.len() as int) =~= lv);
        assert(out@ =~= name@ + seq!['{'] + joined(lv) + seq!['}']);
    }
    out
}

// ---------------------------------------------------------------------------------------------
// Summing counters
// ---------------------------------------------------------------------------------------------

/// The value recorded under a name and a label set, if any.
pub open spec fn sample_value(fs: Seq<FamilyView<u64>>, name: Seq<char>, labels: Seq<Seq<char>>) -> Option<
    u64,
> {
    if exists|i: int| first_named(fs, name, i) {
        let i = choose|i: int| first_named(fs, name, i);
        let s = fs[i].1;
        if exists|j: int| first_with_labels(s, labels, j) {
            let j = choose|j: int| first_with_labels(s, labels, j);
            Some(s[j].1)
        } else {
            None
        }
    } else {
        None
    }
}

/// Adding `value` to the sample with `labels`: the first sample with those labels has it added;
/// without one, a sample with the value is appended.
pub open spec fn add_to_samples(samples: Seq<(Seq<Seq<char>>, u64)>, labels: Seq<Seq<char>>, value: u64) -> Seq<
    (Seq<Seq<char>>, u64),
> {
    if exists|j: int| first_with_labels(samples, labels, j) {
        let j = choose|j: int| first_with_labels(samples, labels, j);
        samples.update(j, (labels, (samples[j].1 + value) as u64))
    } else {
        samples.push((labels, value))
    }
}

/// Adding a value under a name and a label set: in the first family with that name (appended
/// when there is none), the sample with that label set has the value added.
pub open spec fn add_in_families(
    fs: Seq<FamilyView<u64>>,
    name: Seq<char>,
    labels: Seq<Seq<char>>,
    value: u64,
) -> Seq<FamilyView<u64>> {
    if exists|i: int| first_named(fs, name, i) {
        let i = choose|i: int| first_named(fs, name, i);
        fs.update(i, (name, add_to_samples(fs[i].1, labels, value)))
    } else {
        fs.push((name, seq![(labels, value)]))
    }
}

fn add_sample(samples: &mut Vec<(Vec<String>, u64)>, labels: Vec<String>, value: u64)
    requires
        ({
            let sv = old(samples)@.map_values(|s: (Vec<String>, u64)| (strings_view(s.0@), s.1));
            let lv = strings_view(labels@);
            forall|j: int| first_with_labels(sv, lv, j) ==> sv[j].1 + value <= u64::MAX
        }),
    ensures
        final(samples)@.map_values(|s: (Vec<String>, u64)| (strings_view(s.0@), s.1)) == add_to_samples(
            old(samples)@.map_values(|s: (Vec<String>, u64)| (strings_view(s.0@), s.1)),
            strings_view(labels@),
            value,
        ),
{
    let ghost sv = old(samples)@.map_values(|s: (Vec<String>, u64)| (strings_view(s.0@), s.1));
    let ghost lv = strings_view(labels@);
    let mut i: usize = 0;
    while i < samples.len()
        invariant
            i <= samples@.len(),
            samples@ == old(samples)@,
            sv == old(samples)@.map_values(|s: (Vec<String>, u64)| (strings_view(s.0@), s.1)),
            lv == strings_view(labels@),
            forall|j: int| 0 <= j < i ==> sv[j].0 != lv,
            forall|j: int| first_with_labels(sv, lv, j) ==> sv[j].1 + value <= u64::MAX,
        decreases samples@.len() - i,
    {
        if same_labels(&samples[i].0, &labels) {
            proof {
                assert(first_with_labels(sv, lv, i as int));
                let k = choose|k: int| first_with_labels(sv, lv, k);
                if k < i {
                } else if k > i {
                    assert(sv[i as int].0 == lv);
                }
            }
            let (_, current) = samples.remove(i);
            samples.insert(i, (labels, current + value));
            proof {
                assert(samples@.map_values(|s: (Vec<String>, u64)| (strings_view(s.0@), s.1)) =~= sv.update(
                    i as int,
                    (lv, (sv[i as int].1 + value) as u64),
                ));
            }
            return;
        }
        i = i + 1;
    }
    proof {
        assert forall|k: int| !first_with_labels(sv, lv, k) by {
            if 0 <= k < i {
            }
        }
    }
    samples.push((labels, value));
    proof {
        assert(samples@.map_values(|s: (Vec<String>, u64)| (strings_view(s.0@), s.1)) =~= sv.push(
            (lv, value),
        ));
    }
}

/// Adds a counter value under a name and a label set (see [`add_in_families`]).
pub fn add_counter_sample(families: &mut Vec<Family<u64>>, name: String, labels: Vec<String>, value: u64)
    requires
        match sample_value(families_view(old(families)@), name@, strings_view(labels@)) {
            Some(v) => v + value <= u64::MAX,
            None => true,
        },
    ensures
        families_view(final(families)@) == add_in_families(
            families_view(old(families)@),
            name@,
            strings_view(labels@),
            value,
        ),
{
    let ghost fv = families_view(old(families)@);
    let ghost lv = strings_view(labels@);
    let mut i: usize = 0;
    while i < families.len()
        invariant
            i <= families@.len(),
            families@ == old(families)@,
            fv == families_view(old(families)@),
            lv == strings_view(labels@),
            forall|j: int| 0 <= j < i ==> fv[j].0 != name@,
            match sample_value(fv, name@, lv) {
                Some(v) => v + value <= u64::MAX,
                None => true,
            },
        decreases families@.len() - i,
    {
        if str_eq(families[i].name.as_str(), name.as_str()) {
            proof {
                assert(first_named(fv, name@, i as int));
                let k = choose|k: int| first_named(fv, name@, k);
                if k < i {
                } else if k > i {
                    assert(fv[i as int].0 == name@);
                }
            }
            let mut family = families.remove(i);
            proof {
                let s = fv[i as int].1;
                assert(family_samples_view(family) == s);
                assert forall|j: int| first_with_labels(s, lv, j) implies s[j].1 + value <= u64::MAX by {
                    let j2 = choose|j2: int| first_with_labels(s, lv, j2);
                    if j2 < j {
                        assert(s[j2].0 != lv);
                    } else if j2 > j {
                        assert(s[j].0 != lv);
                    }
                }
            }
            add_sample(&mut family.samples, labels, value);
            families.insert(i, family);
            proof {
                assert(families_view(families@) =~= fv.update(
                    i as int,
                    (name@, add_to_samples(fv[i as int].1, lv, value)),
                ));
            }
            return;
        }
        i = i + 1;
    }
    proof {
        assert forall|k: int| !first_named(fv, name@, k) by {
            if 0 <= k < i {
            }
        }
    }
    let mut samples: Vec<(Vec<String>, u64)> = Vec::new();
    samples.push((labels, value));
    let family = Family { name, samples };
    proof {
        assert(family_samples_view(family) =~= seq![(lv, value)]);
    }
    families.push(family);
    proof {
        assert(families_view(families@) =~= fv.push((name@, seq![(lv, value)])));
    }
}

/// The samples of a family as characters.
pub open spec fn family_samples_view(f: Family<u64>) -> Seq<(Seq<Seq<char>>, u64)> {
    f.samples@.map_values(|s: (Vec<String>, u64)| (strings_view(s.0@), s.1))
}

// ---------------------------------------------------------------------------------------------
// Text
// ---------------------------------------------------------------------------------------------

/// The decimal representation of a signed value.
pub open spec fn signed_decimal(v: i64) -> Seq<char> {
    if v < 0 {
        seq!['-'] + decimal_chars((-(v as int)) as nat)
    } else {
        decimal_chars(v as nat)
    }
}

/// The decimal representation of a signed value.
pub fn signed_decimal_string(v: i64) -> (r: String)
    ensures
        r@ == signed_decimal(v),
{
    if v < 0 {
        let magnitude: u64 = (-(v as i128)) as u64;
        let digits = decimal_string(magnitude);
        let mut out = String::new();
        push_char(&mut out, '-');
        push_str(&mut out, digits.as_str());
        proof {
            assert(out@ =~= signed_decimal(v));
        }
        out
    } else {
        decimal_string(v as u64)
    }
}

/// The lines of counter samples: `name{labels} value`.
pub open spec fn observed_counter_lines(name: Seq<char>, samples: Seq<(Vec<String>, u64)>) -> Seq<char>
    decreases samples.len(),
{
    if samples.len() == 0 {
        Seq::empty()
    } else {
        observed_counter_lines(name, samples.drop_last()) + spec_labeled_name(
            name,
            strings_view(samples.last().0@),
        ) + seq![' '] + decimal_chars(samples.last().1 as nat) + seq!['\n']
    }
}

/// The lines of gauge samples: `name{labels} value`.
pub open spec fn observed_gauge_lines(name: Seq<char>, samples: Seq<(Vec<String>, i64)>) -> Seq<char>
    decreases samples.len(),
{
    if samples.len() == 0 {
        Seq::empty()
    } else {
        observed_gauge_lines(name, samples.drop_last()) + spec_labeled_name(
            name,
            strings_view(samples.last().0@),
        ) + seq![' '] + signed_decimal(samples.last().1) + seq!['\n']
    }
}

/// The line of an observed sample: the name, in braces its labels when it has any, a space,
/// the value and a newline.
pub open spec fn sample_line(name: Seq<char>, labels: Seq<Seq<char>>, value: Seq<char>) -> Seq<char> {
    name + (if labels.len() == 0 {
        Seq::empty()
    } else {
        seq!['{'] + joined(labels) + seq!['}']
    }) + seq![' '] + value + seq!['\n']
}

proof fn lemma_counter_lines_prefix(name: Seq<char>, samples: Seq<(Vec<String>, u64)>, n: int)
    requires
        0 <= n <= samples.len(),
    ensures
        observed_counter_lines(name, samples.take(n)).len() <= observed_counter_lines(name, samples).len(),
        observed_counter_lines(name, samples).subrange(0, observed_counter_lines(name, samples.take(n)).len() as int)
            == observed_counter_lines(name, samples.take(n)),
    decreases samples.len(),
{
    let full = observed_counter_lines(name, samples);
    if n == samples.len() {
        assert(samples.take(n) =~= samples);
        assert(full.subrange(0, full.len() as int) =~= full);
    } else {
        let p = samples.drop_last();
        assert(p.take(n) =~= samples.take(n));
        lemma_counter_lines_prefix(name, p, n);
        let a = observed_counter_lines(name, p);
        let b = observed_counter_lines(name, samples.take(n));
        assert(full.subrange(0, b.len() as int) =~= a.subrange(0, b.len() as int));
    }
}

proof fn lemma_gauge_lines_prefix(name: Seq<char>, samples: Seq<(Vec<String>, i64)>, n: int)
    requires
        0 <= n <= samples.len(),
    ensures
        observed_gauge_lines(name, samples.take(n)).len() <= observed_gauge_lines(name, samples).len(),
        observed_gauge_lines(name, samples).subrange(0, observed_gauge_lines(name, samples.take(n)).len() as int)
            == observed_gauge_lines(name, samples.take(n)),
    decreases samples.len(),
{
    let full = observed_gauge_lines(name, samples);
    if n == samples.len() {
        assert(samples.take(n) =~= samples);
        assert(full.subrange(0, full.len() as int) =~= full);
    } else {
        let p = samples.drop_last();
        assert(p.take(n) =~= samples.take(n));
        lemma_gauge_lines_prefix(name, p, n);
        let a = observed_gauge_lines(name, p);
        let b = observed_gauge_lines(name, samples.take(n));
        assert(full.subrange(0, b.len() as int) =~= a.subrange(0, b.len() as int));
    }
}

/// Every observed counter and gauge sample is written with its own labels: the text of a
/// family holds, for each sample, `name{labels} value` (the bare name without labels).
pub proof fn lemma_observed_lines_keep_labels(
    name: Seq<char>,
    counters: Seq<(Vec<String>, u64)>,
    gauges: Seq<(Vec<String>, i64)>,
    i: int,
    j: int,
)
    ensures
        0 <= i < counters.len() ==> occurs_in(
            sample_line(name, strings_view(counters[i].0@), decimal_chars(counters[i].1 as nat)),
            observed_counter_lines(name, counters),
        ),
        0 <= j < gauges.len() ==> occurs_in(
            sample_line(name, strings_view(gauges[j].0@), signed_decimal(gauges[j].1)),
            observed_gauge_lines(name, gauges),
        ),
{
    if 0 <= i < counters.len() {
        let text = observed_counter_lines(name, counters);
        let line = sample_line(name, strings_view(counters[i].0@), decimal_chars(counters[i].1 as nat));
        lemma_counter_lines_prefix(name, counters, i + 1);
        let t1 = counters.take(i + 1);
        assert(t1.drop_last() =~= counters.take(i));
        assert(t1.last() == counters[i]);
        let before = observed_counter_lines(name, counters.take(i));
        let upto = observed_counter_lines(name, t1);
        assert(upto =~= before + line);
        let off = before.len() as int;
        assert(text.subrange(off, off + line.len()) =~= upto.subrange(off, off + line.len()));
        assert(text.subrange(off, off + line.len()) == line);
    }
    if 0 <= j < gauges.len() {
        let text = observed_gauge_lines(name, gauges);
        let line = sample_line(name, strings_view(gauges[j].0@), signed_decimal(gauges[j].1));
        lemma_gauge_lines_prefix(name, gauges, j + 1);
        let t1 = gauges.take(j + 1);
        assert(t1.drop_last() =~= gauges.take(j));
        assert(t1.last() == gauges[j]);
        let before = observed_gauge_lines(name, gauges.take(j));
        let upto = observed_gauge_lines(name, t1);
        assert(upto =~= before + line);
        let off = before.len() as int;
        assert(text.subrange(off, off + line.len()) =~= upto.subrange(off, off + line.len()));
        assert(text.subrange(off, off + line.len()) == line);
    }
}

/// The type line that opens a family: a blank line, then `# TYPE name kind`.
pub open spec fn observed_type_line(name: Seq<char>, kind: Seq<char>) -> Seq<char> {
    seq!['\n', '#', ' ', 'T', 'Y', 'P', 'E', ' '] + name + seq![' '] + kind + seq!['\n']
}

/// The counter families.
pub open spec fn observed_counters(fs: Seq<Family<u64>>) -> Seq<char>
    decreases fs.len(),
{
    if fs.len() == 0 {
        Seq::empty()
    } else {
        observed_counters(fs.drop_last()) + observed_type_line(fs.last().name@, "counter"@)
            + observed_counter_lines(fs.last().name@, fs.last().samples@)
    }
}

/// The gauge families.
pub open spec fn observed_gauges(fs: Seq<Family<i64>>) -> Seq<char>
    decreases fs.len(),
{
    if fs.len() == 0 {
        Seq::empty()
    } else {
        observed_gauges(fs.drop_last()) + observed_type_line(fs.last().name@, "gauge"@)
            + observed_gauge_lines(fs.last().name@, fs.last().samples@)
    }
}

fn write_type_line(out: &mut String, name: &str, kind: &str)
    ensures
        final(out)@ == old(out)@ + observed_type_line(name@, kind@),
{
    push_char(out, '\n');
    push_char(out, '#');
    push_char(out, ' ');
    push_char(out, 'T');
    push_char(out, 'Y');
    push_char(out, 'P');
    push_char(out, 'E');
    push_char(out, ' ');
    push_str(out, name);
    push_char(out, ' ');
    push_str(out, kind);
    push_char(out, '\n');
    proof {
        assert(out@ =~= old(out)@ + observed_type_line(name@, kind@));
    }
}

fn write_counter_family(out: &mut String, f: &Family<u64>)
    ensures
        final(out)@ == old(out)@ + observed_type_line(f.name@, "counter"@) + observed_counter_lines(
            f.name@,
            f.samples@,
        ),
{
    write_type_line(out, f.name.as_str(), "counter");
    let ghost start = out@;
    let mut i: usize = 0;
    while i < f.samples.len()
        invariant
            i <= f.samples@.len(),
            out@ == start + observed_counter_lines(f.name@, f.samples@.take(i as int)),
        decreases f.samples@.len() - i,
    {
        let line = render_labeled_name(f.name.as_str(), f.samples[i].0.as_slice());
        push_str(out, line.as_str());
        push_char(out, ' ');
        let value = decimal_string(f.samples[i].1);
        push_str(out, value.as_str());
        push_char(out, '\n');
        proof {
            let t = f.samples@.take(i + 1);
            assert(t.drop_last() =~= f.samples@.take(i as int));
            assert(t.last() == f.samples@[i as int]);
            assert(out@ =~= start + observed_counter_lines(f.name@, t));
        }
        i = i + 1;
    }
    proof {
        assert(f.samples@.take(f.samples@.len() as int) =~= f.samples@);
    }
}

fn write_gauge_family(out: &mut String, f: &Family<i64>)
    ensures
        final(out)@ == old(out)@ + observed_type_line(f.name@, "gauge"@) + observed_gauge_lines(
            f.name@,
            f.samples@,
        ),
{
    write_type_line(out, f.name.as_str(), "gauge");
    let ghost start = out@;
    let mut i: usize = 0;
    while i < f.samples.len()
        invariant
            i <= f.samples@.len(),
            out@ == start + observed_gauge_lines(f.name@, f.samples@.take(i as int)),
        decreases f.samples@.len() - i,
    {
        let line = render_labeled_name(f.name.as_str(), f.samples[i].0.as_slice());
        push_str(out, line.as_str());
        push_char(out, ' ');
        let value = signed_decimal_string(f.samples[i].1);
        push_str(out, value.as_str());
        push_char(out, '\n');
        proof {
            let t = f.samples@.take(i + 1);
            assert(t.drop_last() =~= f.samples@.take(i as int));
            assert(t.last() == f.samples@[i as int]);
            assert(out@ =~= start + observed_gauge_lines(f.name@, t));
        }
        i = i + 1;
    }
    proof {
        assert(f.samples@.take(f.samples@.len() as int) =~= f.samples@);
    }
}

/// The observed counters and gauges in the exposition format, after `header`: each family
/// opens with a blank line and its type line, followed by one line per label set.
pub fn render_observed(header: &str, counters: &[Family<u64>], gauges: &[Family<i64>]) -> (r: String)
    ensures
        r@ == header@ + observed_counters(counters@) + observed_gauges(gauges@),
{
    let mut out = String::new();
    push_str(&mut out, header);
    let ghost head = out@;
    let mut i: usize = 0;
    while i < counters.len()
        invariant
            i <= counters@.len(),
            out@ == head + observed_counters(counters@.take(i as int)),
        decreases counters@.len() - i,
    {
        write_counter_family(&mut out, &counters[i]);
        proof {
            let t = counters@.take(i + 1);
            assert(t.drop_last() =~= counters@.take(i as int));
            assert(t.last() == counters@[i as int]);
            assert(out@ =~= head + observed_counters(t));
        }
        i = i + 1;
    }
    proof {
        assert(counters@.take(counters@.len() as int) =~= counters@);
    }
    let ghost mid = out@;
    let mut i: usize = 0;
    while i < gauges.len()
        invariant
            i <= gauges@.len(),
            out@ == mid + observed_gauges(gauges@.take(i as int)),
        decreases gauges@.len() - i,
    {
        write_gauge_family(&mut out, &gauges[i]);
        proof {
            let t = gauges@.take(i + 1);
            assert(t.drop_last() =~= gauges@.take(i as int));
            assert(t.last() == gauges@[i as int]);
            assert(out@ =~= mid + observed_gauges(t));
        }
        i = i + 1;
    }
    proof {
        assert(gauges@.take(gauges@.len() as int) =~= gauges@);
        assert(out@ =~= header@ + observed_counters(counters@) + observed_gauges(gauges@));
    }
    out
}

proof fn lemma_add_twice(s: Seq<(Seq<Seq<char>>, u64)>, l: Seq<Seq<char>>, a: u64, b: u64)
    requires
        a + b <= u64::MAX,
        forall|j: int| first_with_labels(s, l, j) ==> s[j].1 + a + b <= u64::MAX,
    ensures
        add_to_samples(add_to_samples(s, l, a), l, b) == add_to_samples(s, l, (a + b) as u64),
{
    if exists|j: int| first_with_labels(s, l, j) {
        let j = choose|j: int| first_with_labels(s, l, j);
        let s1 = s.update(j, (l, (s[j].1 + a) as u64));
        assert(first_with_labels(s1, l, j));
        let k = choose|k: int| first_with_labels(s1, l, k);
        if k < j {
            assert(s1[k].0 == s[k].0);
        } else if k > j {
            assert(s1[j].0 == l);
        }
        assert(s1.update(j, (l, (s1[j].1 + b) as u64)) =~= s.update(j, (l, (s[j].1 + (a + b)) as u64)));
    } else {
        let s1 = s.push((l, a));
        let n = s.len() as int;
        assert forall|j: int| 0 <= j < n implies s1[j].0 != l by {
            if s1[j].0 == l {
                lemma_least_with_labels(s, l, j);
            }
        }
        assert(first_with_labels(s1, l, n));
        let k = choose|k: int| first_with_labels(s1, l, k);
        if k < n {
            assert(s1[k].0 != l);
        }
        assert(s1.update(n, (l, (s1[n].1 + b) as u64)) =~= s.push((l, (a + b) as u64)));
    }
}

/// Counters are summed: adding `a` and then `b` under the same name and label set gives what
/// adding `a + b` gives (as long as the sums fit).
pub proof fn lemma_counter_values_add_up(
    fs: Seq<FamilyView<u64>>,
    name: Seq<char>,
    labels: Seq<Seq<char>>,
    a: u64,
    b: u64,
)
    requires
        match sample_value(fs, name, labels) {
            Some(v) => v + a + b <= u64::MAX,
            None => a + b <= u64::MAX,
        },
    ensures
        add_in_families(add_in_families(fs, name, labels, a), name, labels, b) == add_in_families(
            fs,
            name,
            labels,
            (a + b) as u64,
        ),
{
    let f1 = add_in_families(fs, name, labels, a);
    if exists|i: int| first_named(fs, name, i) {
        let i = choose|i: int| first_named(fs, name, i);
        assert(first_named(f1, name, i));
        let k = choose|k: int| first_named(f1, name, k);
        if k < i {
            assert(f1[k].0 == fs[k].0);
        } else if k > i {
            assert(f1[i].0 == name);
        }
        let s = fs[i].1;
        assert forall|j: int| first_with_labels(s, labels, j) implies s[j].1 + a + b <= u64::MAX by {
            let j2 = choose|j2: int| first_with_labels(s, labels, j2);
            if j2 < j {
                assert(s[j2].0 != labels);
            } else if j2 > j {
                assert(s[j].0 != labels);
            }
        }
        if !(exists|j: int| first_with_labels(s, labels, j)) {
            assert(sample_value(fs, name, labels) is None);
        }
        lemma_add_twice(s, labels, a, b);
        assert(f1.update(i, (name, add_to_samples(f1[i].1, labels, b))) =~= fs.update(
            i,
            (name, add_to_samples(s, labels, (a + b) as u64)),
        ));
    } else {
        let n = fs.len() as int;
        assert forall|j: int| 0 <= j < n implies f1[j].0 != name by {
            if f1[j].0 == name {
                lemma_least_named(fs, name, j);
            }
        }
        assert(first_named(f1, name, n));
        let k = choose|k: int| first_named(f1, name, k);
        if k < n {
            assert(f1[k].0 != name);
        }
        let s1: Seq<(Seq<Seq<char>>, u64)> = seq![(labels, a)];
        assert(first_with_labels(s1, labels, 0));
        let m = choose|m: int| first_with_labels(s1, labels, m);
        assert(m == 0);
        assert(add_to_samples(s1, labels, b) =~= seq![(labels, (a + b) as u64)]);
        assert(f1.update(n, (name, add_to_samples(f1[n].1, labels, b))) =~= fs.push(
            (name, seq![(labels, (a + b) as u64)]),
        ));
    }
}

// ---------------------------------------------------------------------------------------------
// Histograms
// ---------------------------------------------------------------------------------------------

/// Override `i` applies to `name`: its key is a suffix of the name.
pub open spec fn is_suffix_override(os: Seq<(String, Vec<u64>)>, name: Seq<char>, i: int) -> bool {
    0 <= i < os.len() && os[i].0@.is_suffix_of(name)
}

/// Override `i` is the one that applies to `name`: the longest key that is a suffix of the
/// name (the first of them, should two keys of that length be given).
pub open spec fn is_best_override(os: Seq<(String, Vec<u64>)>, name: Seq<char>, i: int) -> bool {
    &&& is_suffix_override(os, name, i)
    &&& forall|j: int| is_suffix_override(os, name, j) ==> os[j].0@.len() <= os[i].0@.len()
    &&& forall|j: int| 0 <= j < i && is_suffix_override(os, name, j) ==> os[j].0@.len() < os[i].0@.len()
}

/// At most one override is the one that applies.
pub proof fn lemma_best_override_unique(os: Seq<(String, Vec<u64>)>, name: Seq<char>, i: int, j: int)
    requires
        is_best_override(os, name, i),
        is_best_override(os, name, j),
    ensures
        i == j,
{
    if i < j {
        assert(os[i].0@.len() < os[j].0@.len());
    } else if j < i {
        assert(os[j].0@.len() < os[i].0@.len());
    }
}

/// Chooses the bucket override for a metric: the override whose key is the longest suffix of
/// the name, or `None` when no key is a suffix of it.
pub fn select_bucket_override(overrides: &[(String, Vec<u64>)], name: &str) -> (r: Option<usize>)
    ensures
        match r {
            Some(i) => is_best_override(overrides@, name@, i as int),
            None => forall|j: int| !is_suffix_override(overrides@, name@, j),
        },
{
    let mut best: Option<usize> = None;
    let mut i: usize = 0;
    while i < overrides.len()
        invariant
            i <= overrides@.len(),
            match best {
                Some(b) => b < i && is_suffix_override(overrides@, name@, b as int)
                    && (forall|j: int| 0 <= j < i && is_suffix_override(overrides@, name@, j)
                        ==> overrides@[j].0@.len() <= overrides@[b as int].0@.len())
                    && (forall|j: int| 0 <= j < b && is_suffix_override(overrides@, name@, j)
                        ==> overrides@[j].0@.len() < overrides@[b as int].0@.len()),
                None => forall|j: int| 0 <= j < i ==> !is_suffix_override(overrides@, name@, j),
            },
        decreases overrides@.len() - i,
    {
        if str_ends_with(name, overrides[i].0.as_str()) {
            match best {
                Some(b) => {
                    if overrides[i].0.unicode_len() > overrides[b].0.unicode_len() {
                        best = Some(i);
                    }
                },
                None => {
                    best = Some(i);
                },
            }
        }
        i = i + 1;
    }
    best
}

/// The buckets for a metric: those of the override whose key is the longest suffix of the
/// name, or the default buckets when no key is a suffix of it.
pub fn select_buckets<'a>(overrides: &'a [(String, Vec<u64>)], default: &'a [u64], name: &str) -> (r: &'a [u64])
    ensures
        (forall|j: int| !is_suffix_override(overrides@, name@, j)) ==> r@ == default@,
        forall|i: int| is_best_override(overrides@, name@, i) ==> r@ == overrides@[i].1@,
{
    match select_bucket_override(overrides, name) {
        Some(i) => {
            proof {
                assert forall|k: int| is_best_override(overrides@, name@, k) implies k == i by {
                    lemma_best_override_unique(overrides@, name@, k, i as int);
                }
            }
            overrides[i].1.as_slice()
        },
        None => default,
    }
}

/// The type line of an observed distribution: a summary without buckets, a histogram with them.
pub open spec fn distribution_type_line(name: Seq<char>, buckets: Seq<u64>) -> Seq<char> {
    observed_type_line(name, if buckets.len() == 0 { "summary"@ } else { "histogram"@ })
}

/// Writes the type line of an observed distribution: `summary` without buckets, `histogram`
/// with them.
pub fn render_distribution_type_line(name: &str, buckets: &[u64]) -> (r: String)
    ensures
        r@ == distribution_type_line(name@, buckets@),
{
    let mut out = String::new();
    if buckets.len() == 0 {
        write_type_line(&mut out, name, "summary");
    } else {
        write_type_line(&mut out, name, "histogram");
    }
    proof {
        assert(out@ =~= distribution_type_line(name@, buckets@));
    }
    out
}

/// The `le` label of a bucket bound: `le="bound"`.
pub open spec fn le_label(bound: Seq<char>) -> Seq<char> {
    "le=\""@ + bound + "\""@
}

/// A line `name{labels} value`.
pub open spec fn value_line(name: Seq<char>, labels: Seq<Seq<char>>, value: u64) -> Seq<char> {
    spec_labeled_name(name, labels) + seq![' '] + decimal_chars(value as nat) + seq!['\n']
}

/// The bucket lines of a histogram series: one `name_bucket{labels,le="bound"} count` per
/// bucket.
pub open spec fn bucket_lines(name: Seq<char>, labels: Seq<Seq<char>>, buckets: Seq<u64>, counts: Seq<u64>) -> Seq<
    char,
>
    decreases buckets.len(),
{
    if buckets.len() == 0 {
        Seq::empty()
    } else {
        bucket_lines(name, labels, buckets.drop_last(), counts) + value_line(
            name + "_bucket"@,
            labels.push(le_label(decimal_chars(buckets.last() as nat))),
            counts[buckets.len() - 1],
        )
    }
}

/// The sum and count lines of a distribution series.
pub open spec fn totals_lines(name: Seq<char>, labels: Seq<Seq<char>>, sum: u64, count: u64) -> Seq<char> {
    value_line(name + "_sum"@, labels, sum) + value_line(name + "_count"@, labels, count)
}

/// A histogram series as handed to the text: its labels, the number of values up to each
/// bucket bound (one per bucket, in the order of the buckets), the sum of its values and their
/// number.
pub struct HistogramSeries {
    pub labels: Vec<String>,
    pub bucket_counts: Vec<u64>,
    pub sum: u64,
    pub count: u64,
}

/// The lines of a histogram series: its bucket lines, the `le="Inf+"` line with the number of
/// values, then its sum and count lines.
pub open spec fn histogram_series_text(name: Seq<char>, buckets: Seq<u64>, s: HistogramSeries) -> Seq<char> {
    let labels = strings_view(s.labels@);
    bucket_lines(name, labels, buckets, s.bucket_counts@) + value_line(
        name + "_bucket"@,
        labels.push(le_label("Inf+"@)),
        s.count,
    ) + totals_lines(name, labels, s.sum, s.count)
}

/// The series of a histogram family, in order.
pub open spec fn histogram_series_texts(name: Seq<char>, buckets: Seq<u64>, series: Seq<HistogramSeries>) -> Seq<
    char,
>
    decreases series.len(),
{
    if series.len() == 0 {
        Seq::empty()
    } else {
        histogram_series_texts(name, buckets, series.drop_last()) + histogram_series_text(
            name,
            buckets,
            series.last(),
        )
    }
}

/// A histogram family: its type line, then each series.
pub open spec fn histogram_family_text(name: Seq<char>, buckets: Seq<u64>, series: Seq<HistogramSeries>) -> Seq<
    char,
> {
    distribution_type_line(name, buckets) + histogram_series_texts(name, buckets, series)
}

fn suffixed(name: &str, suffix: &str) -> (r: String)
    ensures
        r@ == name@ + suffix@,
{
    let mut out = String::new();
    push_str(&mut out, name);
    push_str(&mut out, suffix);
    proof {
        assert(out@ =~= name@ + suffix@);
    }
    out
}

fn with_label(labels: &[String], extra: String) -> (r: Vec<String>)
    ensures
        strings_view(r@) == strings_view(labels@).push(extra@),
{
    let mut out: Vec<String> = Vec::new();
    let mut i: usize = 0;
    while i < labels.len()
        invariant
            i <= labels@.len(),
            strings_view(out@) == strings_view(labels@).take(i as int),
        decreases labels@.len() - i,
    {
        let ghost o0 = out@;
        out.push(to_string(labels[i].as_str()));
        proof {
            assert(out@ == o0.push(out@.last()));
            assert(out@.last()@ == labels@[i as int]@);
            assert(strings_view(out@) =~= strings_view(o0).push(labels@[i as int]@));
            assert(strings_view(out@) =~= strings_view(labels@).take(i + 1));
        }
        i = i + 1;
    }
    let ghost before = out@;
    out.push(extra);
    proof {
        assert(strings_view(labels@).take(labels@.len() as int) =~= strings_view(labels@));
        assert(strings_view(out@) =~= strings_view(before).push(out@.last()@));
    }
    out
}

fn write_value_line(out: &mut String, name: &str, labels: &[String], value: u64)
    ensures
        final(out)@ == old(out)@ + value_line(name@, strings_view(labels@), value),
{
    let line = render_labeled_name(name, labels);
    push_str(out, line.as_str());
    push_char(out, ' ');
    let digits = decimal_string(value);
    push_str(out, digits.as_str());
    push_char(out, '\n');
    proof {
        assert(out@ =~= old(out)@ + value_line(name@, strings_view(labels@), value));
    }
}

fn le_string(bound: &str) -> (r: String)
    ensures
        r@ == le_label(bound@),
{
    let mut l = String::new();
    push_str(&mut l, "le=\"");
    push_str(&mut l, bound);
    push_str(&mut l, "\"");
    proof {
        assert(l@ =~= le_label(bound@));
    }
    l
}

/// Writes the sum and count lines of a distribution series: `name_sum{labels} sum` and
/// `name_count{labels} count`.
pub fn render_totals(name: &str, labels: &[String], sum: u64, count: u64) -> (r: String)
    ensures
        r@ == totals_lines(name@, strings_view(labels@), sum, count),
{
    let mut out = String::new();
    let sum_name = suffixed(name, "_sum");
    write_value_line(&mut out, sum_name.as_str(), labels, sum);
    let count_name = suffixed(name, "_count");
    write_value_line(&mut out, count_name.as_str(), labels, count);
    proof {
        assert(out@ =~= totals_lines(name@, strings_view(labels@), sum, count));
    }
    out
}

/// Writes a histogram series: for each bucket, `name_bucket{labels,le="bound"} count`; then
/// `name_bucket{labels,le="Inf+"} count` with the number of values; then the sum and count
/// lines.
pub fn render_histogram_series(name: &str, buckets: &[u64], series: &HistogramSeries) -> (r: String)
    requires
        series.bucket_counts@.len() == buckets@.len(),
    ensures
        r@ == histogram_series_text(name@, buckets@, *series),
{
    let mut out = String::new();
    let bucket_name = suffixed(name, "_bucket");
    let ghost labels = strings_view(series.labels@);
    let mut k: usize = 0;
    while k < buckets.len()
        invariant
            k <= buckets@.len(),
            series.bucket_counts@.len() == buckets@.len(),
            labels == strings_view(series.labels@),
            bucket_name@ == name@ + "_bucket"@,
            out@ == bucket_lines(name@, labels, buckets@.take(k as int), series.bucket_counts@),
        decreases buckets@.len() - k,
    {
        let bound = decimal_string(buckets[k]);
        let le = le_string(bound.as_str());
        let with_le = with_label(series.labels.as_slice(), le);
        write_value_line(&mut out, bucket_name.as_str(), with_le.as_slice(), series.bucket_counts[k]);
        proof {
            let t = buckets@.take(k + 1);
            assert(t.drop_last() =~= buckets@.take(k as int));
            assert(t.last() == buckets@[k as int]);
            assert(out@ =~= bucket_lines(name@, labels, t, series.bucket_counts@));
        }
        k = k + 1;
    }
    proof {
        assert(buckets@.take(buckets@.len() as int) =~= buckets@);
    }
    let inf = le_string("Inf+");
    let with_inf = with_label(series.labels.as_slice(), inf);
    write_value_line(&mut out, bucket_name.as_str(), with_inf.as_slice(), series.count);
    let totals = render_totals(name, series.labels.as_slice(), series.sum, series.count);
    push_str(&mut out, totals.as_str());
    proof {
        assert(out@ =~= histogram_series_text(name@, buckets@, *series));
    }
    out
}

/// Writes a histogram family: its type line, then each series in order.
pub fn render_histogram_family(name: &str, buckets: &[u64], series: &[HistogramSeries]) -> (r: String)
    requires
        buckets@.len() > 0,
        forall|i: int| 0 <= i < series@.len() ==> (#[trigger] series@[i]).bucket_counts@.len() == buckets@.len(),
    ensures
        r@ == histogram_family_text(name@, buckets@, series@),
{
    let mut out = render_distribution_type_line(name, buckets);
    let ghost head = out@;
    let mut i: usize = 0;
    while i < series.len()
        invariant
            i <= series@.len(),
            forall|i: int| 0 <= i < series@.len() ==> (#[trigger] series@[i]).bucket_counts@.len() == buckets@.len(),
            head == distribution_type_line(name@, buckets@),
            out@ == head + histogram_series_texts(name@, buckets@, series@.take(i as int)),
        decreases series@.len() - i,
    {
        let text = render_histogram_series(name, buckets, &series[i]);
        push_str(&mut out, text.as_str());
        proof {
            let t = series@.take(i + 1);
            assert(t.drop_last() =~= series@.take(i as int));
            assert(t.last() == series@[i as int]);
            assert(out@ =~= head + histogram_series_texts(name@, buckets@, t));
        }
        i = i + 1;
    }
    proof {
        assert(series@.take(series@.len() as int) =~= series@);
    }
    out
}

proof fn lemma_bucket_lines_prefix(
    name: Seq<char>,
    labels: Seq<Seq<char>>,
    buckets: Seq<u64>,
    counts: Seq<u64>,
    n: int,
)
    requires
        0 <= n <= buckets.len(),
    ensures
        bucket_lines(name, labels, buckets.take(n), counts).len() <= bucket_lines(name, labels, buckets, counts).len(),
        bucket_lines(name, labels, buckets, counts).subrange(
            0,
            bucket_lines(name, labels, buckets.take(n), counts).len() as int,
        ) == bucket_lines(name, labels, buckets.take(n), counts),
    decreases buckets.len(),
{
    let full = bucket_lines(name, labels, buckets, counts);
    if n == buckets.len() {
        assert(buckets.take(n) =~= buckets);
        assert(full.subrange(0, full.len() as int) =~= full);
    } else {
        let p = buckets.drop_last();
        assert(p.take(n) =~= buckets.take(n));
        lemma_bucket_lines_prefix(name, labels, p, counts, n);
        let a = bucket_lines(name, labels, p, counts);
        let b = bucket_lines(name, labels, buckets.take(n), counts);
        assert(full.subrange(0, b.len() as int) =~= a.subrange(0, b.len() as int));
    }
}

/// Every line of an observed histogram series carries the series' labels: for each bucket `b`
/// with count `c`, the text holds `name_bucket{labels,le="b"} c`; the sum and count lines are
/// `name_sum{labels} sum` and `name_count{labels} count`.
pub proof fn lemma_histogram_series_keep_labels(
    name: Seq<char>,
    labels: Seq<Seq<char>>,
    buckets: Seq<u64>,
    counts: Seq<u64>,
    sum: u64,
    count: u64,
    k: int,
)
    requires
        counts.len() == buckets.len(),
    ensures
        0 <= k < buckets.len() ==> occurs_in(
            sample_line(
                name + seq!['_', 'b', 'u', 'c', 'k', 'e', 't'],
                labels.push(le_label(decimal_chars(buckets[k] as nat))),
                decimal_chars(counts[k] as nat),
            ),
            bucket_lines(name, labels, buckets, counts),
        ),
        totals_lines(name, labels, sum, count) == sample_line(
            name + seq!['_', 's', 'u', 'm'],
            labels,
            decimal_chars(sum as nat),
        ) + sample_line(name + seq!['_', 'c', 'o', 'u', 'n', 't'], labels, decimal_chars(count as nat)),
{
    reveal_strlit("_bucket");
    reveal_strlit("_sum");
    reveal_strlit("_count");
    if 0 <= k < buckets.len() {
        let text = bucket_lines(name, labels, buckets, counts);
        let line = sample_line(
            name + seq!['_', 'b', 'u', 'c', 'k', 'e', 't'],
            labels.push(le_label(decimal_chars(buckets[k] as nat))),
            decimal_chars(counts[k] as nat),
        );
        lemma_bucket_lines_prefix(name, labels, buckets, counts, k + 1);
        let t1 = buckets.take(k + 1);
        assert(t1.drop_last() =~= buckets.take(k));
        assert(t1.last() == buckets[k]);
        let before = bucket_lines(name, labels, buckets.take(k), counts);
        let upto = bucket_lines(name, labels, t1, counts);
        assert("_bucket"@ =~= seq!['_', 'b', 'u', 'c', 'k', 'e', 't']);
        assert(upto =~= before + line);
        let off = before.len() as int;
        assert(upto.subrange(off, off + line.len()) =~= line);
        assert(text.subrange(off, off + line.len()) =~= upto.subrange(off, off + line.len()));
        assert(text.subrange(off, off + line.len()) == line);
    }
    assert("_sum"@ =~= seq!['_', 's', 'u', 'm']);
    assert("_count"@ =~= seq!['_', 'c', 'o', 'u', 'n', 't']);
    assert(totals_lines(name, labels, sum, count) =~= sample_line(
        name + seq!['_', 's', 'u', 'm'],
        labels,
        decimal_chars(sum as nat),
    ) + sample_line(name + seq!['_', 'c', 'o', 'u', 'n', 't'], labels, decimal_chars(count as nat)));
}

} // verus!
