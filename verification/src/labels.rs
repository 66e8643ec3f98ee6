//! Metric keys and labels, and the ordered label map they are merged into.
use indexmap::IndexMap;
use vstd::prelude::*;

verus! {

/// A label attached to a metric: a key and a value.
pub struct KeyLabel {
    pub key: String,
    pub value: String,
}

/// The identity of a metric: its name and its labels, in order.
pub struct MetricKey {
    pub name: String,
    pub labels: Vec<KeyLabel>,
}

impl KeyLabel {
    /// The label as a pair of character sequences.
    pub open spec fn pair(self) -> (Seq<char>, Seq<char>) {
        (self.key@, self.value@)
    }

    /// Creates a label.
    pub fn new(key: String, value: String) -> (r: KeyLabel)
        ensures
            r.key@ == key@,
            r.value@ == value@,
    {
        KeyLabel { key, value }
    }
}

impl MetricKey {
    /// The labels as pairs of character sequences, in order.
    pub open spec fn label_pairs(self) -> Seq<(Seq<char>, Seq<char>)> {
        self.labels@.map_values(|l: KeyLabel| l.pair())
    }

    /// Creates a key from a name and labels.
    pub fn from_parts(name: String, labels: Vec<KeyLabel>) -> (r: MetricKey)
        ensures
            r.name@ == name@,
            r.labels@ == labels@,
    {
        MetricKey { name, labels }
    }

    /// Creates a key with a name and no labels.
    pub fn from_name(name: String) -> (r: MetricKey)
        ensures
            r.name@ == name@,
            r.labels@.len() == 0,
    {
        MetricKey { name, labels: Vec::new() }
    }
}

impl KeyLabel {
    /// A copy of the label.
    pub fn duplicate(&self) -> (r: KeyLabel)
        ensures
            r.pair() == self.pair(),
    {
        KeyLabel { key: self.key.clone(), value: self.value.clone() }
    }
}

impl MetricKey {
    /// A copy of the key.
    pub fn duplicate(&self) -> (r: MetricKey)
        ensures
            key_view(r) == key_view(*self),
    {
        let mut labels: Vec<KeyLabel> = Vec::new();
        let mut i: usize = 0;
        while i < self.labels.len()
            invariant
                i <= self.labels@.len(),
                labels@.len() == i,
                forall|j: int| 0 <= j < i ==> (#[trigger] labels@[j]).pair() == self.labels@[j].pair(),
            decreases self.labels@.len() - i,
        {
            labels.push(self.labels[i].duplicate());
            i = i + 1;
        }
        let r = MetricKey { name: self.name.clone(), labels };
        assert(r.label_pairs() =~= self.label_pairs());
        r
    }
}

/// What identifies a key: its name and its labels in order. Two keys are equal when these are.
pub type KeyView = (Seq<char>, Seq<(Seq<char>, Seq<char>)>);

/// The identity of a key.
pub open spec fn key_view(k: MetricKey) -> KeyView {
    (k.name@, k.label_pairs())
}

/// Whether two keys have the same name and the same labels in the same order.
pub fn keys_equal(a: &MetricKey, b: &MetricKey) -> (r: bool)
    ensures
        r == (key_view(*a) == key_view(*b)),
{
    if !str_eq(a.name.as_str(), b.name.as_str()) {
        return false;
    }
    if a.labels.len() != b.labels.len() {
        assert(a.label_pairs().len() != b.label_pairs().len());
        return false;
    }
    let mut i: usize = 0;
    while i < a.labels.len()
        invariant
            i <= a.labels@.len(),
            a.labels@.len() == b.labels@.len(),
            a.name@ == b.name@,
            forall|j: int| 0 <= j < i ==> a.label_pairs()[j] == b.label_pairs()[j],
        decreases a.labels@.len() - i,
    {
        let same_key = str_eq(a.labels[i].key.as_str(), b.labels[i].key.as_str());
        let same_value = str_eq(a.labels[i].value.as_str(), b.labels[i].value.as_str());
        if !same_key || !same_value {
            assert(a.label_pairs()[i as int] != b.label_pairs()[i as int]);
            return false;
        }
        i = i + 1;
    }
    assert(a.label_pairs() =~= b.label_pairs());
    true
}

// ---------------------------------------------------------------------------------------------
// Ordered label map (`indexmap::IndexMap<String, String>`)
// ---------------------------------------------------------------------------------------------

#[verifier::external_type_specification]
#[verifier::external_body]
#[verifier::reject_recursive_types(K)]
#[verifier::reject_recursive_types(V)]
#[verifier::reject_recursive_types(S)]
pub struct ExIndexMap<K, V, S>(IndexMap<K, V, S>);

/// The entries of a label map, in their order.
pub uninterp spec fn label_map_entries(m: IndexMap<String, String>) -> Seq<(Seq<char>, Seq<char>)>;

/// No key occurs twice.
pub open spec fn keys_unique(e: Seq<(Seq<char>, Seq<char>)>) -> bool {
    forall|i: int, j: int| 0 <= i < e.len() && 0 <= j < e.len() && i != j ==> e[i].0 != e[j].0
}

/// Some entry has the key `k`.
pub open spec fn has_key(e: Seq<(Seq<char>, Seq<char>)>, k: Seq<char>) -> bool {
    exists|i: int| 0 <= i < e.len() && #[trigger] e[i].0 == k
}

/// The entries after inserting `(k, v)`: an existing key keeps its place and takes the new
/// value, a new key is appended last.
pub open spec fn entries_insert(
    e: Seq<(Seq<char>, Seq<char>)>,
    k: Seq<char>,
    v: Seq<char>,
) -> Seq<(Seq<char>, Seq<char>)> {
    if has_key(e, k) {
        let i = choose|i: int| 0 <= i < e.len() && #[trigger] e[i].0 == k;
        e.update(i, (k, v))
    } else {
        e.push((k, v))
    }
}

/// `IndexMap::new`: an empty map.
#[verifier::external_body]
pub(crate) fn label_map_new() -> (m: IndexMap<String, String>)
    ensures
        label_map_entries(m) == Seq::<(Seq<char>, Seq<char>)>::empty(),
{
    IndexMap::new()
}

/// `IndexMap::clone`: the same entries in the same order; as in any `IndexMap`, no key occurs
/// twice.
#[verifier::external_body]
pub(crate) fn label_map_clone(m: &IndexMap<String, String>) -> (r: IndexMap<String, String>)
    ensures
        label_map_entries(r) == label_map_entries(*m),
        keys_unique(label_map_entries(r)),
{
    m.clone()
}

/// `IndexMap::insert`: an existing key keeps its place and takes the new value; a new key is
/// appended last.
#[verifier::external_body]
pub(crate) fn label_map_insert(m: &mut IndexMap<String, String>, key: String, value: String)
    ensures
        label_map_entries(*final(m)) == entries_insert(label_map_entries(*old(m)), key@, value@),
{
    m.insert(key, value);
}

/// `IndexMap::iter`, each entry copied out as a pair of strings, in order.
#[verifier::external_body]
pub(crate) fn label_map_to_vec(m: &IndexMap<String, String>) -> (r: Vec<(String, String)>)
    ensures
        r@.len() == label_map_entries(*m).len(),
        forall|i: int|
            0 <= i < r@.len() ==> (#[trigger] r@[i]).0@ == label_map_entries(*m)[i].0 && r@[i].1@
                == label_map_entries(*m)[i].1,
{
    m.iter().map(|(k, v)| (k.clone(), v.clone())).collect()
}

// ---------------------------------------------------------------------------------------------
// String comparisons
// ---------------------------------------------------------------------------------------------

/// Whether the characters of `s` from `offset` on begin with those of `p`.
fn chars_match_at(s: &str, offset: usize, p: &str) -> (r: bool)
    requires
        offset + p@.len() <= s@.len(),
    ensures
        r == (s@.subrange(offset as int, offset + p@.len()) == p@),
{
    let n = p.unicode_len();
    let sl = s.unicode_len();
    let mut i: usize = 0;
    while i < n
        invariant
            i <= n == p@.len(),
            sl == s@.len(),
            offset + p@.len() <= s@.len(),
            forall|j: int| 0 <= j < i ==> s@[offset + j] == p@[j],
        decreases n - i,
    {
        if s.get_char(offset + i) != p.get_char(i) {
            assert(s@.subrange(offset as int, offset + p@.len())[i as int] != p@[i as int]);
            return false;
        }
        i = i + 1;
    }
    assert(s@.subrange(offset as int, offset + p@.len()) =~= p@);
    true
}

/// Whether `s` starts with `prefix`, as `str::starts_with` with a string pattern.
pub(crate) fn str_starts_with(s: &str, prefix: &str) -> (r: bool)
    ensures
        r == prefix@.is_prefix_of(s@),
{
    if prefix.unicode_len() > s.unicode_len() {
        return false;
    }
    chars_match_at(s, 0, prefix)
}

/// Whether `s` ends with `suffix`, as `str::ends_with` with a string pattern.
pub(crate) fn str_ends_with(s: &str, suffix: &str) -> (r: bool)
    ensures
        r == suffix@.is_suffix_of(s@),
{
    let n = s.unicode_len();
    let m = suffix.unicode_len();
    if m > n {
        return false;
    }
    chars_match_at(s, n - m, suffix)
}

/// Whether `a` and `b` are the same string.
pub(crate) fn str_eq(a: &str, b: &str) -> (r: bool)
    ensures
        r == (a@ == b@),
{
    if a.unicode_len() != b.unicode_len() {
        return false;
    }
    let r = chars_match_at(a, 0, b);
    assert(a@.subrange(0, a@.len() as int) =~= a@);
    r
}

/// `String::from(&str)`.
pub fn to_string(s: &str) -> (r: String)
    ensures
        r@ == s@,
{
    String::from_str(s)
}

} // verus!
