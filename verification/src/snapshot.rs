//! Gathering metric values into families by name and label set, as a snapshot to render.
use crate::exposition::Family;
use crate::formatting::strings_view;
use crate::labels::str_eq;
use vstd::prelude::*;

verus! {

/// A family as characters: its name and its samples.
pub type FamilyView<V> = (Seq<char>, Seq<(Seq<Seq<char>>, V)>);

/// The view of a family.
pub open spec fn family_view<V>(f: Family<V>) -> FamilyView<V> {
    (f.name@, f.samples@.map_values(|s: (Vec<String>, V)| (strings_view(s.0@), s.1)))
}

/// The views of families.
pub open spec fn families_view<V>(fs: Seq<Family<V>>) -> Seq<FamilyView<V>> {
    fs.map_values(|f: Family<V>| family_view(f))
}

/// `i` is the first sample of `samples` with the labels `labels`.
pub open spec fn first_with_labels<V>(samples: Seq<(Seq<Seq<char>>, V)>, labels: Seq<Seq<char>>, i: int) -> bool {
    &&& 0 <= i < samples.len()
    &&& samples[i].0 == labels
    &&& forall|j: int| 0 <= j < i ==> samples[j].0 != labels
}

/// Setting the value of the sample with `labels`: the first sample with those labels takes
/// the value; without one, a sample is appended.
pub open spec fn upsert_sample<V>(samples: Seq<(Seq<Seq<char>>, V)>, labels: Seq<Seq<char>>, value: V) -> Seq<
    (Seq<Seq<char>>, V),
> {
    if exists|i: int| first_with_labels(samples, labels, i) {
        let i = choose|i: int| first_with_labels(samples, labels, i);
        samples.update(i, (labels, value))
    } else {
        samples.push((labels, value))
    }
}

/// `i` is the first family of `fs` named `name`.
pub open spec fn first_named<V>(fs: Seq<FamilyView<V>>, name: Seq<char>, i: int) -> bool {
    &&& 0 <= i < fs.len()
    &&& fs[i].0 == name
    &&& forall|j: int| 0 <= j < i ==> fs[j].0 != name
}

/// Recording a value under a name and a label set: in the first family with that name (a new
/// family is appended when there is none), the sample with that label set takes the value.
pub open spec fn record_in_families<V>(
    fs: Seq<FamilyView<V>>,
    name: Seq<char>,
    labels: Seq<Seq<char>>,
    value: V,
) -> Seq<FamilyView<V>> {
    if exists|i: int| first_named(fs, name, i) {
        let i = choose|i: int| first_named(fs, name, i);
        fs.update(i, (name, upsert_sample(fs[i].1, labels, value)))
    } else {
        fs.push((name, seq![(labels, value)]))
    }
}

/// Whether two label sets are the same.
pub fn same_labels(a: &Vec<String>, b: &Vec<String>) -> (r: bool)
    ensures
        r == (strings_view(a@) == strings_view(b@)),
{
    if a.len() != b.len() {
        assert(strings_view(a@).len() != strings_view(b@).len());
        return false;
    }
    let mut i: usize = 0;
    while i < a.len()
        invariant
            i <= a@.len(),
            a@.len() == b@.len(),
            forall|j: int| 0 <= j < i ==> a@[j]@ == b@[j]@,
        decreases a@.len() - i,
    {
        if !str_eq(a[i].as_str(), b[i].as_str()) {
            assert(strings_view(a@)[i as int] != strings_view(b@)[i as int]);
            return false;
        }
        i = i + 1;
    }
    assert(strings_view(a@) =~= strings_view(b@));
    true
}

fn set_sample<V>(samples: &mut Vec<(Vec<String>, V)>, labels: Vec<String>, value: V)
    ensures
        final(samples)@.map_values(|s: (Vec<String>, V)| (strings_view(s.0@), s.1)) == upsert_sample(
            old(samples)@.map_values(|s: (Vec<String>, V)| (strings_view(s.0@), s.1)),
            strings_view(labels@),
            value,
        ),
{
    let ghost sv = old(samples)@.map_values(|s: (Vec<String>, V)| (strings_view(s.0@), s.1));
    let ghost lv = strings_view(labels@);
    let mut i: usize = 0;
    while i < samples.len()
        invariant
            i <= samples@.len(),
            samples@ == old(samples)@,
            sv == old(samples)@.map_values(|s: (Vec<String>, V)| (strings_view(s.0@), s.1)),
            lv == strings_view(labels@),
            forall|j: int| 0 <= j < i ==> sv[j].0 != lv,
        decreases samples@.len() - i,
    {
        if same_labels(&samples[i].0, &labels) {
            proof {
                assert(first_with_labels(sv, lv, i as int));
                let k = choose|k: int| first_with_labels(sv, lv, k);
                if k < i {
                } else if k > i {
                    assert(sv[i as int].0 == lv);
                }
            }
            let old_sample = samples.remove(i);
            samples.insert(i, (labels, value));
            proof {
                assert(samples@.map_values(|s: (Vec<String>, V)| (strings_view(s.0@), s.1)) =~= sv.update(
                    i as int,
                    (lv, value),
                ));
            }
            return;
        }
        i = i + 1;
    }
    proof {
        assert forall|k: int| !first_with_labels(sv, lv, k) by {
            if 0 <= k < i {
            }
        }
    }
    samples.push((labels, value));
    proof {
        assert(samples@.map_values(|s: (Vec<String>, V)| (strings_view(s.0@), s.1)) =~= sv.push(
            (lv, value),
        ));
    }
}

/// Records a value under a name and a label set (see [`record_in_families`]).
pub fn record_sample<V>(families: &mut Vec<Family<V>>, name: String, labels: Vec<String>, value: V)
    ensures
        families_view(final(families)@) == record_in_families(
            families_view(old(families)@),
            name@,
            strings_view(labels@),
            value,
        ),
{
    let ghost fv = families_view(old(families)@);
    let ghost lv = strings_view(labels@);
    let mut i: usize = 0;
    while i < families.len()
        invariant
            i <= families@.len(),
            families@ == old(families)@,
            fv == families_view(old(families)@),
            lv == strings_view(labels@),
            forall|j: int| 0 <= j < i ==> fv[j].0 != name@,
        decreases families@.len() - i,
    {
        if str_eq(families[i].name.as_str(), name.as_str()) {
            proof {
                assert(first_named(fv, name@, i as int));
                let k = choose|k: int| first_named(fv, name@, k);
                if k < i {
                } else if k > i {
                    assert(fv[i as int].0 == name@);
                }
            }
            let mut family = families.remove(i);
            set_sample(&mut family.samples, labels, value);
            families.insert(i, family);
            proof {
                assert(families_view(families@) =~= fv.update(
                    i as int,
                    (name@, upsert_sample(fv[i as int].1, lv, value)),
                ));
            }
            return;
        }
        i = i + 1;
    }
    proof {
        assert forall|k: int| !first_named(fv, name@, k) by {
            if 0 <= k < i {
            }
        }
    }
    let mut samples: Vec<(Vec<String>, V)> = Vec::new();
    samples.push((labels, value));
    let family = Family { name, samples };
    proof {
        assert(family_view(family).1 =~= seq![(lv, value)]);
    }
    families.push(family);
    proof {
        assert(families_view(families@) =~= fv.push((name@, seq![(lv, value)])));
    }
}

/// Removing the sample with `labels`: the first sample with those labels is removed and the
/// last sample takes its place; without one, nothing changes.
pub open spec fn swap_remove_sample<V>(samples: Seq<(Seq<Seq<char>>, V)>, labels: Seq<Seq<char>>) -> Seq<
    (Seq<Seq<char>>, V),
> {
    if exists|i: int| first_with_labels(samples, labels, i) {
        let i = choose|i: int| first_with_labels(samples, labels, i);
        samples.update(i, samples.last()).drop_last()
    } else {
        samples
    }
}

/// Forgetting a name and label set: the sample is removed from the first family with that
/// name, and a family left without samples is removed altogether.
pub open spec fn forget_in_families<V>(fs: Seq<FamilyView<V>>, name: Seq<char>, labels: Seq<Seq<char>>) -> Seq<
    FamilyView<V>,
> {
    if exists|i: int| first_named(fs, name, i) {
        let i = choose|i: int| first_named(fs, name, i);
        let rest = swap_remove_sample(fs[i].1, labels);
        if rest.len() == 0 {
            fs.remove(i)
        } else {
            fs.update(i, (name, rest))
        }
    } else {
        fs
    }
}

fn remove_sample<V>(samples: &mut Vec<(Vec<String>, V)>, labels: &Vec<String>)
    ensures
        final(samples)@.map_values(|s: (Vec<String>, V)| (strings_view(s.0@), s.1)) == swap_remove_sample(
            old(samples)@.map_values(|s: (Vec<String>, V)| (strings_view(s.0@), s.1)),
            strings_view(labels@),
        ),
{
    let ghost sv = old(samples)@.map_values(|s: (Vec<String>, V)| (strings_view(s.0@), s.1));
    let ghost lv = strings_view(labels@);
    let mut i: usize = 0;
    while i < samples.len()
        invariant
            i <= samples@.len(),
            samples@ == old(samples)@,
            sv == old(samples)@.map_values(|s: (Vec<String>, V)| (strings_view(s.0@), s.1)),
            lv == strings_view(labels@),
            forall|j: int| 0 <= j < i ==> sv[j].0 != lv,
        decreases samples@.len() - i,
    {
        if same_labels(&samples[i].0, labels) {
            proof {
                assert(first_with_labels(sv, lv, i as int));
                let k = choose|k: int| first_with_labels(sv, lv, k);
                if k < i {
                } else if k > i {
                    assert(sv[i as int].0 == lv);
                }
            }
            let ghost before = samples@;
            let _removed = samples.swap_remove(i);
            proof {
                assert(samples@.map_values(|s: (Vec<String>, V)| (strings_view(s.0@), s.1)) =~= sv.update(
                    i as int,
                    sv.last(),
                ).drop_last());
            }
            return;
        }
        i = i + 1;
    }
    proof {
        assert forall|k: int| !first_with_labels(sv, lv, k) by {
            if 0 <= k < i {
            }
        }
    }
}

/// Forgets the sample under a name and a label set (see [`forget_in_families`]).
pub fn forget_sample<V>(families: &mut Vec<Family<V>>, name: &str, labels: &Vec<String>)
    ensures
        families_view(final(families)@) == forget_in_families(
            families_view(old(families)@),
            name@,
            strings_view(labels@),
        ),
{
    let ghost fv = families_view(old(families)@);
    let ghost lv = strings_view(labels@);
    let mut i: usize = 0;
    while i < families.len()
        invariant
            i <= families@.len(),
            families@ == old(families)@,
            fv == families_view(old(families)@),
            lv == strings_view(labels@),
            forall|j: int| 0 <= j < i ==> fv[j].0 != name@,
        decreases families@.len() - i,
    {
        if str_eq(families[i].name.as_str(), name) {
            proof {
                assert(first_named(fv, name@, i as int));
                let k = choose|k: int| first_named(fv, name@, k);
                if k < i {
                } else if k > i {
                    assert(fv[i as int].0 == name@);
                }
            }
            let mut family = families.remove(i);
            remove_sample(&mut family.samples, labels);
            let ghost rest = swap_remove_sample(fv[i as int].1, lv);
            if family.samples.len() == 0 {
                proof {
                    assert(family_view(family).1.len() == 0);
                    assert(families_view(families@) =~= fv.remove(i as int));
                }
            } else {
                families.insert(i, family);
                proof {
                    assert(families_view(families@) =~= fv.update(i as int, (name@, rest)));
                }
            }
            return;
        }
        i = i + 1;
    }
    proof {
        assert forall|k: int| !first_named(fv, name@, k) by {
            if 0 <= k < i {
            }
        }
    }
}

/// Finds the sample under a name and a label set: the first family with the name, and in it
/// the first sample with the label set; `None` when there is no such sample.
pub fn find_sample<V>(families: &Vec<Family<V>>, name: &str, labels: &Vec<String>) -> (r: Option<(usize, usize)>)
    ensures
        match r {
            Some((i, j)) => first_named(families_view(families@), name@, i as int) && first_with_labels(
                families_view(families@)[i as int].1,
                strings_view(labels@),
                j as int,
            ),
            None => forall|i: int, j: int|
                first_named(families_view(families@), name@, i) ==> !first_with_labels(
                    families_view(families@)[i].1,
                    strings_view(labels@),
                    j,
                ),
        },
{
    let ghost fv = families_view(families@);
    let ghost lv = strings_view(labels@);
    let mut i: usize = 0;
    while i < families.len()
        invariant
            i <= families@.len(),
            fv == families_view(families@),
            lv == strings_view(labels@),
            forall|k: int| 0 <= k < i ==> fv[k].0 != name@,
        decreases families@.len() - i,
    {
        if str_eq(families[i].name.as_str(), name) {
            let samples = &families[i].samples;
            let ghost sv = fv[i as int].1;
            proof {
                assert(fv[i as int] == family_view(families@[i as int]));
            }
            let mut j: usize = 0;
            while j < samples.len()
                invariant
                    i < families@.len(),
                    j <= samples@.len(),
                    samples@ == families@[i as int].samples@,
                    sv == fv[i as int].1,
                    sv == samples@.map_values(|s: (Vec<String>, V)| (strings_view(s.0@), s.1)),
                    fv == families_view(families@),
                    lv == strings_view(labels@),
                    fv[i as int].0 == name@,
                    forall|k: int| 0 <= k < i ==> fv[k].0 != name@,
                    forall|k: int| 0 <= k < j ==> sv[k].0 != lv,
                decreases samples@.len() - j,
            {
                if same_labels(&samples[j].0, labels) {
                    assert(sv[j as int].0 == strings_view(samples@[j as int].0@));
                    return Some((i, j));
                }
                assert(sv[j as int].0 == strings_view(samples@[j as int].0@));
                j = j + 1;
            }
            proof {
                assert forall|a: int, b: int| first_named(fv, name@, a) implies !first_with_labels(
                    fv[a].1,
                    lv,
                    b,
                ) by {
                    if a < i {
                    } else if a > i {
                        assert(fv[i as int].0 == name@);
                    }
                }
            }
            return None;
        }
        i = i + 1;
    }
    None
}

proof fn lemma_upsert_twice<V>(s: Seq<(Seq<Seq<char>>, V)>, l: Seq<Seq<char>>, v1: V, v2: V)
    ensures
        upsert_sample(upsert_sample(s, l, v1), l, v2) == upsert_sample(s, l, v2),
{
    if exists|j: int| first_with_labels(s, l, j) {
        let j = choose|j: int| first_with_labels(s, l, j);
        let s1 = s.update(j, (l, v1));
        assert(first_with_labels(s1, l, j));
        let k = choose|k: int| first_with_labels(s1, l, k);
        if k < j {
            assert(s1[k].0 == s[k].0);
        } else if k > j {
            assert(s1[j].0 == l);
        }
        assert(s1.update(j, (l, v2)) =~= s.update(j, (l, v2)));
    } else {
        let s1 = s.push((l, v1));
        let n = s.len() as int;
        assert forall|j: int| 0 <= j < n implies s1[j].0 != l by {
            if s1[j].0 == l {
                lemma_least_with_labels(s, l, j);
            }
        }
        assert(first_with_labels(s1, l, n));
        let k = choose|k: int| first_with_labels(s1, l, k);
        if k < n {
            assert(s1[k].0 != l);
        }
        assert(s1.update(n, (l, v2)) =~= s.push((l, v2)));
    }
}

pub(crate) proof fn lemma_least_with_labels<V>(s: Seq<(Seq<Seq<char>>, V)>, l: Seq<Seq<char>>, j: int)
    requires
        0 <= j < s.len(),
        s[j].0 == l,
    ensures
        exists|m: int| first_with_labels(s, l, m),
    decreases j,
{
    if exists|q: int| 0 <= q < j && s[q].0 == l {
        let q = choose|q: int| 0 <= q < j && s[q].0 == l;
        lemma_least_with_labels(s, l, q);
    } else {
        assert(first_with_labels(s, l, j));
    }
}

pub(crate) proof fn lemma_least_named<V>(fs: Seq<FamilyView<V>>, name: Seq<char>, j: int)
    requires
        0 <= j < fs.len(),
        fs[j].0 == name,
    ensures
        exists|m: int| first_named(fs, name, m),
    decreases j,
{
    if exists|q: int| 0 <= q < j && fs[q].0 == name {
        let q = choose|q: int| 0 <= q < j && fs[q].0 == name;
        lemma_least_named(fs, name, q);
    } else {
        assert(first_named(fs, name, j));
    }
}

/// The latest value wins: recording a second value under the same name and label set gives
/// the snapshot that recording only the second would have given.
pub proof fn lemma_latest_value_wins<V>(
    fs: Seq<FamilyView<V>>,
    name: Seq<char>,
    labels: Seq<Seq<char>>,
    v1: V,
    v2: V,
)
    ensures
        record_in_families(record_in_families(fs, name, labels, v1), name, labels, v2)
            == record_in_families(fs, name, labels, v2),
{
    let f1 = record_in_families(fs, name, labels, v1);
    if exists|i: int| first_named(fs, name, i) {
        let i = choose|i: int| first_named(fs, name, i);
        assert(first_named(f1, name, i));
        let k = choose|k: int| first_named(f1, name, k);
        if k < i {
            assert(f1[k].0 == fs[k].0);
        } else if k > i {
            assert(f1[i].0 == name);
        }
        lemma_upsert_twice(fs[i].1, labels, v1, v2);
        assert(f1.update(i, (name, upsert_sample(f1[i].1, labels, v2))) =~= fs.update(
            i,
            (name, upsert_sample(fs[i].1, labels, v2)),
        ));
    } else {
        let n = fs.len() as int;
        assert forall|j: int| 0 <= j < n implies f1[j].0 != name by {
            if f1[j].0 == name {
                lemma_least_named(fs, name, j);
            }
        }
        assert(first_named(f1, name, n));
        let k = choose|k: int| first_named(f1, name, k);
        if k < n {
            assert(f1[k].0 != name);
        }
        let s1: Seq<(Seq<Seq<char>>, V)> = seq![(labels, v1)];
        assert(first_with_labels(s1, labels, 0));
        let m = choose|m: int| first_with_labels(s1, labels, m);
        assert(m == 0);
        assert(upsert_sample(s1, labels, v2) =~= seq![(labels, v2)]);
        assert(f1.update(n, (name, upsert_sample(f1[n].1, labels, v2))) =~= fs.push(
            (name, seq![(labels, v2)]),
        ));
    }
}

} // verus!
