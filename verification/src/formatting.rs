//! Helpers for rendering metrics in the Prometheus text exposition format.
//!
//! Strings are modelled by their character sequences (`String::view`), and every
//! helper states exactly which characters it emits.
use vstd::prelude::*;
use vstd::string::StringExecFns;
use indexmap::IndexMap;
use crate::labels::{
    entries_insert, has_key, keys_unique, label_map_clone, label_map_entries, label_map_insert, label_map_new,
    label_map_to_vec, str_ends_with, str_eq, str_starts_with, MetricKey,
};

verus! {

broadcast use vstd::string::group_string_axioms;

// ---------------------------------------------------------------------------------------------
// Character classes
// ---------------------------------------------------------------------------------------------

/// `[a-zA-Z]`
pub open spec fn is_ascii_alpha(c: char) -> bool {
    ('a' <= c && c <= 'z') || ('A' <= c && c <= 'Z')
}

/// `[0-9]`
pub open spec fn is_ascii_digit(c: char) -> bool {
    '0' <= c && c <= '9'
}

/// `[a-zA-Z0-9]`
pub open spec fn is_ascii_alnum(c: char) -> bool {
    is_ascii_alpha(c) || is_ascii_digit(c)
}

/// The first character of a metric name must match `[a-zA-Z_:]`.
pub open spec fn valid_metric_name_start(c: char) -> bool {
    is_ascii_alpha(c) || c == '_' || c == ':'
}

/// Later characters of a metric name must match `[a-zA-Z0-9_:]`.
pub open spec fn valid_metric_name_char(c: char) -> bool {
    is_ascii_alnum(c) || c == '_' || c == ':'
}

/// The first character of a label key must match `[a-zA-Z_]`.
pub open spec fn valid_label_key_start(c: char) -> bool {
    is_ascii_alpha(c) || c == '_'
}

/// Later characters of a label key must match `[a-zA-Z0-9_]`.
pub open spec fn valid_label_key_char(c: char) -> bool {
    is_ascii_alnum(c) || c == '_'
}

/// A metric name that is valid under the Prometheus data model.
pub open spec fn is_valid_metric_name(s: Seq<char>) -> bool {
    &&& s.len() > 0 ==> valid_metric_name_start(s[0])
    &&& forall|i: int| 0 <= i < s.len() ==> valid_metric_name_char(#[trigger] s[i])
}

/// A label key that is valid under the Prometheus data model.
pub open spec fn is_valid_label_key(s: Seq<char>) -> bool {
    &&& s.len() > 0 ==> valid_label_key_start(s[0])
    &&& forall|i: int| 0 <= i < s.len() ==> valid_label_key_char(#[trigger] s[i])
}

fn ascii_alpha(c: char) -> (r: bool)
    ensures
        r == is_ascii_alpha(c),
{
    ('a' <= c && c <= 'z') || ('A' <= c && c <= 'Z')
}

fn ascii_alnum(c: char) -> (r: bool)
    ensures
        r == is_ascii_alnum(c),
{
    ascii_alpha(c) || ('0' <= c && c <= '9')
}

/// Returns `true` if `c` may not start a metric name.
pub fn invalid_metric_name_start_character(c: char) -> (r: bool)
    ensures
        r == !valid_metric_name_start(c),
{
    !(ascii_alpha(c) || c == '_' || c == ':')
}

/// Returns `true` if `c` may not appear in a metric name.
pub fn invalid_metric_name_character(c: char) -> (r: bool)
    ensures
        r == !valid_metric_name_char(c),
{
    !(ascii_alnum(c) || c == '_' || c == ':')
}

/// Returns `true` if `c` may not start a label key.
pub fn invalid_label_key_start_character(c: char) -> (r: bool)
    ensures
        r == !valid_label_key_start(c),
{
    !(ascii_alpha(c) || c == '_')
}

/// Returns `true` if `c` may not appear in a label key.
pub fn invalid_label_key_character(c: char) -> (r: bool)
    ensures
        r == !valid_label_key_char(c),
{
    !(ascii_alnum(c) || c == '_')
}

// ---------------------------------------------------------------------------------------------
// String building
// ---------------------------------------------------------------------------------------------

/// Appends one character to a string (`String::push`).
#[verifier::external_body]
pub(crate) fn push_char(s: &mut String, c: char)
    ensures
        final(s)@ == old(s)@.push(c),
{
    s.push(c);
}

/// Appends a string slice.
pub(crate) fn push_str(s: &mut String, t: &str)
    ensures
        final(s)@ == old(s)@ + t@,
{
    s.append(t);
}

// ---------------------------------------------------------------------------------------------
// Name and label key sanitization
// ---------------------------------------------------------------------------------------------

/// The character at position `i` of a sanitized metric name whose input character is `c`.
pub open spec fn metric_name_char_at(i: int, c: char) -> char {
    if (i == 0 && valid_metric_name_start(c)) || (i != 0 && valid_metric_name_char(c)) {
        c
    } else {
        '_'
    }
}

/// The character at position `i` of a sanitized label key whose input character is `c`.
pub open spec fn label_key_char_at(i: int, c: char) -> char {
    if (i == 0 && valid_label_key_start(c)) || (i != 0 && valid_label_key_char(c)) {
        c
    } else {
        '_'
    }
}

/// Every invalid character of `s` replaced by `_`.
pub open spec fn spec_sanitize_metric_name(s: Seq<char>) -> Seq<char> {
    Seq::new(s.len(), |i: int| metric_name_char_at(i, s[i]))
}

/// Every invalid character of `s` replaced by `_`.
pub open spec fn spec_sanitize_label_key(s: Seq<char>) -> Seq<char> {
    Seq::new(s.len(), |i: int| label_key_char_at(i, s[i]))
}

/// Sanitizes a metric name to be valid under the Prometheus data model: the first character
/// must be `[a-zA-Z_:]`, the others `[a-zA-Z0-9_:]`; every other character becomes `_`.
pub fn sanitize_metric_name(name: &str) -> (out: String)
    ensures
        out@ == spec_sanitize_metric_name(name@),
        is_valid_metric_name(out@),
{
    let mut out = String::new();
    let mut first = true;
    for c in it: name.chars()
        invariant
            it.seq() == name@,
            first == (it.index() == 0),
            out@ =~= spec_sanitize_metric_name(name@).take(it.index() as int),
    {
        let invalid = if first {
            invalid_metric_name_start_character(c)
        } else {
            invalid_metric_name_character(c)
        };
        if invalid {
            push_char(&mut out, '_');
        } else {
            push_char(&mut out, c);
        }
        first = false;
    }
    proof {
        lemma_sanitized_metric_name_valid(name@);
    }
    out
}

/// Sanitizes a label key to be valid under the Prometheus data model: the first character
/// must be `[a-zA-Z_]`, the others `[a-zA-Z0-9_]`; every other character becomes `_`.
pub fn sanitize_label_key(key: &str) -> (out: String)
    ensures
        out@ == spec_sanitize_label_key(key@),
        is_valid_label_key(out@),
{
    let mut out = String::new();
    let mut first = true;
    for c in it: key.chars()
        invariant
            it.seq() == key@,
            first == (it.index() == 0),
            out@ =~= spec_sanitize_label_key(key@).take(it.index() as int),
    {
        let invalid = if first {
            invalid_label_key_start_character(c)
        } else {
            invalid_label_key_character(c)
        };
        if invalid {
            push_char(&mut out, '_');
        } else {
            push_char(&mut out, c);
        }
        first = false;
    }
    proof {
        lemma_sanitized_label_key_valid(key@);
    }
    out
}

/// A sanitized metric name is always a valid metric name.
pub proof fn lemma_sanitized_metric_name_valid(s: Seq<char>)
    ensures
        is_valid_metric_name(spec_sanitize_metric_name(s)),
{
    let out = spec_sanitize_metric_name(s);
    assert forall|i: int| 0 <= i < out.len() implies valid_metric_name_char(#[trigger] out[i]) by {
    }
}

/// A sanitized label key is always a valid label key.
pub proof fn lemma_sanitized_label_key_valid(s: Seq<char>)
    ensures
        is_valid_label_key(spec_sanitize_label_key(s)),
{
    let out = spec_sanitize_label_key(s);
    assert forall|i: int| 0 <= i < out.len() implies valid_label_key_char(#[trigger] out[i]) by {
    }
}

/// Sanitizing a metric name keeps its length, leaves a valid name unchanged, and is
/// idempotent.
pub proof fn lemma_sanitize_metric_name_laws(s: Seq<char>)
    ensures
        spec_sanitize_metric_name(s).len() == s.len(),
        is_valid_metric_name(s) ==> spec_sanitize_metric_name(s) == s,
        spec_sanitize_metric_name(spec_sanitize_metric_name(s)) == spec_sanitize_metric_name(s),
{
    lemma_sanitized_metric_name_valid(s);
    let t = spec_sanitize_metric_name(s);
    assert(spec_sanitize_metric_name(t) =~= t);
    if is_valid_metric_name(s) {
        assert(t =~= s);
    }
}

/// Sanitizing a label key keeps its length, leaves a valid key unchanged, and is idempotent.
pub proof fn lemma_sanitize_label_key_laws(s: Seq<char>)
    ensures
        spec_sanitize_label_key(s).len() == s.len(),
        is_valid_label_key(s) ==> spec_sanitize_label_key(s) == s,
        spec_sanitize_label_key(spec_sanitize_label_key(s)) == spec_sanitize_label_key(s),
{
    lemma_sanitized_label_key_valid(s);
    let t = spec_sanitize_label_key(s);
    assert(spec_sanitize_label_key(t) =~= t);
    if is_valid_label_key(s) {
        assert(t =~= s);
    }
}

// ---------------------------------------------------------------------------------------------
// Label value and description escaping
// ---------------------------------------------------------------------------------------------

/// `\\` followed by `\\` (an escaped backslash).
pub open spec fn escaped_backslash() -> Seq<char> {
    seq!['\\', '\\']
}

/// What one input character adds to the escaped output, given whether a backslash is being
/// held back, and whether a backslash is held back afterwards.
///
/// A newline becomes `\n`; a double quote becomes `\"` in label values (and is kept in
/// descriptions); a backslash is held back until the next character shows whether it escapes
/// something, and a held-back backslash that escapes nothing is written as `\\`.
pub open spec fn escape_step(c: char, held: bool, is_desc: bool) -> (Seq<char>, bool) {
    if c == '\n' {
        (seq!['\\', 'n'], held)
    } else if c == '"' && !is_desc {
        (seq!['\\', '"'], false)
    } else if c == '\\' {
        (if held { escaped_backslash() } else { Seq::empty() }, !held)
    } else {
        ((if held { escaped_backslash() } else { Seq::empty() }).push(c), false)
    }
}

/// The escaped output of `s`, and whether a backslash is still held back at its end.
pub open spec fn escape_prefix(s: Seq<char>, is_desc: bool) -> (Seq<char>, bool)
    decreases s.len(),
{
    if s.len() == 0 {
        (Seq::empty(), false)
    } else {
        let (out, held) = escape_prefix(s.drop_last(), is_desc);
        let (chunk, held2) = escape_step(s.last(), held, is_desc);
        (out + chunk, held2)
    }
}

/// The escaped form of `s`: a dangling held-back backslash is written as `\\`.
pub open spec fn spec_escape(s: Seq<char>, is_desc: bool) -> Seq<char> {
    let (out, held) = escape_prefix(s, is_desc);
    if held {
        out + escaped_backslash()
    } else {
        out
    }
}

/// Every double quote is immediately preceded by a backslash.
pub open spec fn quotes_escaped(s: Seq<char>) -> bool {
    forall|j: int| 0 <= j < s.len() && #[trigger] s[j] == '"' ==> j > 0 && s[j - 1] == '\\'
}

proof fn lemma_concat_props(a: Seq<char>, b: Seq<char>)
    requires
        !a.contains('\n'),
        !b.contains('\n'),
    ensures
        !(a + b).contains('\n'),
        quotes_escaped(a) && quotes_escaped(b) ==> quotes_escaped(a + b),
{
    let ab = a + b;
    if ab.contains('\n') {
        let j = choose|j: int| 0 <= j < ab.len() && ab[j] == '\n';
        if j < a.len() {
            assert(a[j] == '\n');
        } else {
            assert(b[j - a.len()] == '\n');
        }
    }
    if quotes_escaped(a) && quotes_escaped(b) {
        assert forall|j: int| 0 <= j < ab.len() && #[trigger] ab[j] == '"' implies j > 0 && ab[j
            - 1] == '\\' by {
            if j < a.len() {
                assert(a[j] == '"');
            } else {
                assert(b[j - a.len()] == '"');
            }
        }
    }
}

proof fn lemma_escape_prefix_props(s: Seq<char>, is_desc: bool)
    ensures
        !escape_prefix(s, is_desc).0.contains('\n'),
        !is_desc ==> quotes_escaped(escape_prefix(s, is_desc).0),
    decreases s.len(),
{
    if s.len() > 0 {
        lemma_escape_prefix_props(s.drop_last(), is_desc);
        let (out, held) = escape_prefix(s.drop_last(), is_desc);
        let (chunk, held2) = escape_step(s.last(), held, is_desc);
        assert(!chunk.contains('\n')) by {
            if chunk.contains('\n') {
                let j = choose|j: int| 0 <= j < chunk.len() && chunk[j] == '\n';
                assert(chunk[j] == '\n');
            }
        }
        if !is_desc {
            assert(quotes_escaped(chunk)) by {
                assert forall|j: int| 0 <= j < chunk.len() && #[trigger] chunk[j] == '"' implies j
                    > 0 && chunk[j - 1] == '\\' by {
                }
            }
        }
        lemma_concat_props(out, chunk);
    }
}

/// Escaping never leaves a raw newline, and in label values every double quote is escaped.
pub proof fn lemma_escape_props(s: Seq<char>, is_desc: bool)
    ensures
        !spec_escape(s, is_desc).contains('\n'),
        !is_desc ==> quotes_escaped(spec_escape(s, is_desc)),
{
    lemma_escape_prefix_props(s, is_desc);
    let (out, held) = escape_prefix(s, is_desc);
    if held {
        let e = escaped_backslash();
        assert(!e.contains('\n')) by {
            if e.contains('\n') {
                let j = choose|j: int| 0 <= j < e.len() && e[j] == '\n';
                assert(e[j] == '\n');
            }
        }
        assert(quotes_escaped(e));
        lemma_concat_props(out, e);
    }
}

/// A string holding no newline, double quote or backslash is left unchanged by escaping.
pub proof fn lemma_escape_plain_unchanged(s: Seq<char>, is_desc: bool)
    requires
        forall|i: int| 0 <= i < s.len() ==> #[trigger] s[i] != '\n' && s[i] != '"' && s[i] != '\\',
    ensures
        escape_prefix(s, is_desc) == (s, false),
        spec_escape(s, is_desc) == s,
    decreases s.len(),
{
    if s.len() > 0 {
        let p = s.drop_last();
        assert forall|i: int| 0 <= i < p.len() implies #[trigger] p[i] != '\n' && p[i] != '"'
            && p[i] != '\\' by {
            assert(p[i] == s[i]);
        }
        lemma_escape_plain_unchanged(p, is_desc);
        assert(s.last() == s[s.len() - 1]);
        assert(p.push(s.last()) =~= s);
        assert(Seq::<char>::empty().push(s.last()) =~= seq![s.last()]);
        assert(p + seq![s.last()] =~= s);
    }
}

/// Whether `s` reads, left to right, as a sequence of escapes and plain characters: `\\`,
/// `\n`, `\"` (label values only), a double quote (descriptions only), or any character other
/// than a backslash, a double quote and a newline.
pub open spec fn well_escaped(s: Seq<char>, is_desc: bool) -> bool
    decreases s.len(),
{
    if s.len() == 0 {
        true
    } else if s[0] == '\\' {
        s.len() >= 2 && (s[1] == '\\' || s[1] == 'n' || (s[1] == '"' && !is_desc))
            && well_escaped(s.skip(2), is_desc)
    } else if s[0] == '\n' {
        false
    } else if s[0] == '"' {
        is_desc && well_escaped(s.skip(1), is_desc)
    } else {
        well_escaped(s.skip(1), is_desc)
    }
}

proof fn lemma_well_escaped_concat(a: Seq<char>, b: Seq<char>, is_desc: bool)
    requires
        well_escaped(a, is_desc),
        well_escaped(b, is_desc),
    ensures
        well_escaped(a + b, is_desc),
    decreases a.len(),
{
    if a.len() > 0 {
        let k: int = if a[0] == '\\' { 2 } else { 1 };
        lemma_well_escaped_concat(a.skip(k), b, is_desc);
        assert((a + b).skip(k) =~= a.skip(k) + b);
        assert((a + b)[0] == a[0]);
        if k == 2 {
            assert((a + b)[1] == a[1]);
        }
    }
}

proof fn lemma_escape_step_well_escaped(c: char, held: bool, is_desc: bool)
    ensures
        well_escaped(escape_step(c, held, is_desc).0, is_desc),
        well_escaped(escaped_backslash(), is_desc),
{
    let e = escaped_backslash();
    assert(e.skip(2) =~= Seq::<char>::empty());
    assert(well_escaped(Seq::<char>::empty(), is_desc));
    assert(e[0] == '\\' && e[1] == '\\');
    assert(well_escaped(e, is_desc));
    let chunk = escape_step(c, held, is_desc).0;
    if c == '\n' {
        assert(chunk.skip(2) =~= Seq::<char>::empty());
        assert(chunk[0] == '\\' && chunk[1] == 'n');
    } else if c == '"' && !is_desc {
        assert(chunk.skip(2) =~= Seq::<char>::empty());
        assert(chunk[0] == '\\' && chunk[1] == '"');
    } else if c == '\\' {
    } else {
        let one = seq![c];
        assert(one.skip(1) =~= Seq::<char>::empty());
        assert(one[0] == c);
        assert(well_escaped(one, is_desc));
        if held {
            assert(chunk =~= e + one);
            lemma_well_escaped_concat(e, one, is_desc);
        } else {
            assert(chunk =~= one);
        }
    }
}

proof fn lemma_escape_prefix_well_escaped(s: Seq<char>, is_desc: bool)
    ensures
        well_escaped(escape_prefix(s, is_desc).0, is_desc),
    decreases s.len(),
{
    if s.len() > 0 {
        lemma_escape_prefix_well_escaped(s.drop_last(), is_desc);
        let (out, held) = escape_prefix(s.drop_last(), is_desc);
        lemma_escape_step_well_escaped(s.last(), held, is_desc);
        lemma_well_escaped_concat(out, escape_step(s.last(), held, is_desc).0, is_desc);
    }
}

/// Escaped text reads as a sequence of escapes and plain characters: every backslash starts
/// `\\`, `\n` or (in label values) `\"`, and no raw newline is left; in label values no raw
/// double quote is left either.
pub proof fn lemma_escape_well_escaped(s: Seq<char>, is_desc: bool)
    ensures
        well_escaped(spec_escape(s, is_desc), is_desc),
{
    lemma_escape_prefix_well_escaped(s, is_desc);
    let (out, held) = escape_prefix(s, is_desc);
    if held {
        lemma_escape_step_well_escaped('a', false, is_desc);
        lemma_well_escaped_concat(out, escaped_backslash(), is_desc);
    }
}

/// `s` with every escaped backslash (`\\`) removed, read left to right as
/// `str::replace("\\\\", "")` does.
pub open spec fn remove_escaped_backslashes(s: Seq<char>) -> Seq<char>
    decreases s.len(),
{
    if s.len() < 2 {
        s
    } else if s[0] == '\\' && s[1] == '\\' {
        remove_escaped_backslashes(s.skip(2))
    } else {
        seq![s[0]] + remove_escaped_backslashes(s.skip(1))
    }
}

/// `t` reads as `\n`, `\"` and characters other than a backslash, a double quote and a newline.
spec fn escapes_only(t: Seq<char>) -> bool
    decreases t.len(),
{
    if t.len() == 0 {
        true
    } else if t[0] == '\\' {
        t.len() >= 2 && (t[1] == 'n' || t[1] == '"') && escapes_only(t.skip(2))
    } else if t[0] == '"' || t[0] == '\n' {
        false
    } else {
        escapes_only(t.skip(1))
    }
}

/// What is left of escaped label-value text once its escaped backslashes are removed: it holds
/// no newline, does not start with a double quote, every double quote is preceded by a
/// backslash, and every backslash is followed by a double quote or `n`.
pub open spec fn escaped_quotes_and_newlines(t: Seq<char>) -> bool {
    &&& forall|j: int| 0 <= j < t.len() ==> #[trigger] t[j] != '\n'
    &&& (t.len() > 0 ==> t[0] != '"')
    &&& forall|j: int| 0 < j < t.len() && #[trigger] t[j] == '"' ==> t[j - 1] == '\\'
    &&& forall|j: int| 0 <= j < t.len() && #[trigger] t[j] == '\\' ==> j + 1 < t.len() && (t[j + 1]
        == '"' || t[j + 1] == 'n')
}

proof fn lemma_remove_first_kept(s: Seq<char>)
    requires
        s.len() > 0,
        !(s.len() >= 2 && s[0] == '\\' && s[1] == '\\'),
    ensures
        remove_escaped_backslashes(s) == seq![s[0]] + remove_escaped_backslashes(s.skip(1)),
{
    if s.len() < 2 {
        assert(s.skip(1) =~= Seq::<char>::empty());
        assert(seq![s[0]] + Seq::<char>::empty() =~= s);
    }
}

proof fn lemma_removed_escapes_only(s: Seq<char>)
    requires
        well_escaped(s, false),
    ensures
        escapes_only(remove_escaped_backslashes(s)),
    decreases s.len(),
{
    if s.len() > 0 {
        if s[0] == '\\' {
            lemma_removed_escapes_only(s.skip(2));
            if s[1] != '\\' {
                lemma_remove_first_kept(s);
                let s1 = s.skip(1);
                lemma_remove_first_kept(s1);
                assert(s1.skip(1) =~= s.skip(2));
                let t = remove_escaped_backslashes(s);
                let u = remove_escaped_backslashes(s.skip(2));
                assert(t =~= seq![s[0], s[1]] + u);
                assert(t.skip(2) =~= u);
            }
        } else {
            lemma_removed_escapes_only(s.skip(1));
            lemma_remove_first_kept(s);
            let t = remove_escaped_backslashes(s);
            assert(t.skip(1) =~= remove_escaped_backslashes(s.skip(1)));
        }
    }
}

proof fn lemma_escapes_only_props(t: Seq<char>)
    requires
        escapes_only(t),
    ensures
        escaped_quotes_and_newlines(t),
    decreases t.len(),
{
    if t.len() > 0 {
        let k: int = if t[0] == '\\' { 2 } else { 1 };
        let u = t.skip(k);
        lemma_escapes_only_props(u);
        assert forall|j: int| 0 <= j < t.len() implies #[trigger] t[j] != '\n' by {
            if j >= k {
                assert(t[j] == u[j - k]);
            }
        }
        assert forall|j: int| 0 < j < t.len() && #[trigger] t[j] == '"' implies t[j - 1] == '\\' by {
            if j >= k {
                assert(t[j] == u[j - k]);
                if j > k {
                    assert(t[j - 1] == u[j - 1 - k]);
                }
            }
        }
        assert forall|j: int| 0 <= j < t.len() && #[trigger] t[j] == '\\' implies j + 1 < t.len() && (
        t[j + 1] == '"' || t[j + 1] == 'n') by {
            if j >= k {
                assert(t[j] == u[j - k]);
                assert(t[j + 1] == u[j + 1 - k]);
            }
        }
    }
}

/// Escaped label values are escaped throughout: once the escaped backslashes are removed, no
/// newline is left, every double quote is preceded by a backslash (and none comes first), and
/// every backslash escapes a double quote or `n`.
pub proof fn lemma_label_value_escapes(value: Seq<char>)
    ensures
        escaped_quotes_and_newlines(remove_escaped_backslashes(spec_escape(value, false))),
{
    lemma_escape_well_escaped(value, false);
    lemma_removed_escapes_only(spec_escape(value, false));
    lemma_escapes_only_props(remove_escaped_backslashes(spec_escape(value, false)));
}

/// The number of occurrences of `c` in `s`.
pub open spec fn count_char(s: Seq<char>, c: char) -> nat
    decreases s.len(),
{
    if s.len() == 0 {
        0
    } else {
        count_char(s.drop_last(), c) + if s.last() == c {
            1nat
        } else {
            0nat
        }
    }
}

proof fn lemma_count_concat(a: Seq<char>, b: Seq<char>, c: char)
    ensures
        count_char(a + b, c) == count_char(a, c) + count_char(b, c),
    decreases b.len(),
{
    if b.len() == 0 {
        assert(a + b =~= a);
    } else {
        lemma_count_concat(a, b.drop_last(), c);
        assert((a + b).drop_last() =~= a + b.drop_last());
    }
}

proof fn lemma_backslashes_no_quote()
    ensures
        count_char(seq!['\\'], '"') == 0,
        count_char(escaped_backslash(), '"') == 0,
        count_char(Seq::<char>::empty(), '"') == 0,
{
    let one = seq!['\\'];
    assert(one.drop_last() =~= Seq::<char>::empty());
    assert(one.last() == '\\');
    assert(count_char(Seq::<char>::empty(), '"') == 0);
    assert(count_char(one, '"') == count_char(one.drop_last(), '"'));
    let e = escaped_backslash();
    assert(e.drop_last() =~= one);
    assert(e.last() == '\\');
    assert(count_char(e, '"') == count_char(e.drop_last(), '"'));
}

proof fn lemma_description_prefix_quotes(s: Seq<char>)
    ensures
        count_char(escape_prefix(s, true).0, '"') == count_char(s, '"'),
    decreases s.len(),
{
    if s.len() > 0 {
        lemma_description_prefix_quotes(s.drop_last());
        let (out, held) = escape_prefix(s.drop_last(), true);
        let chunk = escape_step(s.last(), held, true).0;
        lemma_count_concat(out, chunk, '"');
        let e = escaped_backslash();
        lemma_backslashes_no_quote();
        let c = s.last();
        if c == '\n' {
            assert(chunk.drop_last() =~= seq!['\\']);
            assert(chunk.last() == 'n');
        } else if c == '\\' {
            if !held {
                assert(chunk =~= Seq::<char>::empty());
            }
        } else {
            let pre: Seq<char> = if held { e } else { Seq::empty() };
            assert(chunk.drop_last() =~= pre);
            assert(chunk.last() == c);
            assert(count_char(pre, '"') == 0);
        }
    }
}

proof fn lemma_escape_same_without_quotes(s: Seq<char>)
    requires
        !s.contains('"'),
    ensures
        escape_prefix(s, true) == escape_prefix(s, false),
    decreases s.len(),
{
    if s.len() > 0 {
        let p = s.drop_last();
        assert(!p.contains('"')) by {
            if p.contains('"') {
                let j = choose|j: int| 0 <= j < p.len() && p[j] == '"';
                assert(s[j] == '"');
            }
        }
        lemma_escape_same_without_quotes(p);
        assert(s[s.len() - 1] == s.last());
    }
}

/// A description keeps its double quotes: escaping it leaves as many as it had, and where it
/// has none, it is escaped as a label value would be.
pub proof fn lemma_description_quotes(s: Seq<char>)
    ensures
        count_char(spec_escape(s, true), '"') == count_char(s, '"'),
        !s.contains('"') ==> spec_escape(s, true) == spec_escape(s, false),
{
    lemma_description_prefix_quotes(s);
    let (out, held) = escape_prefix(s, true);
    if held {
        lemma_count_concat(out, escaped_backslash(), '"');
        lemma_backslashes_no_quote();
    }
    if !s.contains('"') {
        lemma_escape_same_without_quotes(s);
    }
}

fn sanitize_label_value_or_description(value: &str, is_desc: bool) -> (out: String)
    ensures
        out@ == spec_escape(value@, is_desc),
{
    let mut sanitized = String::new();
    let mut previous_backslash = false;
    for c in it: value.chars()
        invariant
            it.seq() == value@,
            escape_prefix(value@.take(it.index() as int), is_desc) == (
            sanitized@,
            previous_backslash,
            ),
    {
        proof {
            let i = it.index() as int;
            assert(value@.take(i + 1).drop_last() =~= value@.take(i));
            assert(value@.take(i + 1).last() == c);
        }
        if c == '\n' {
            push_char(&mut sanitized, '\\');
            push_char(&mut sanitized, 'n');
            proof {
                assert(seq!['\\', 'n'] =~= Seq::<char>::empty().push('\\').push('n'));
            }
        } else if c == '"' && !is_desc {
            previous_backslash = false;
            push_char(&mut sanitized, '\\');
            push_char(&mut sanitized, '"');
        } else if c == '\\' {
            if previous_backslash {
                push_char(&mut sanitized, '\\');
                push_char(&mut sanitized, '\\');
            }
            previous_backslash = !previous_backslash;
        } else {
            if previous_backslash {
                previous_backslash = false;
                push_char(&mut sanitized, '\\');
                push_char(&mut sanitized, '\\');
            }
            push_char(&mut sanitized, c);
        }
    }
    proof {
        assert(value@.take(value@.len() as int) =~= value@);
    }
    if previous_backslash {
        push_char(&mut sanitized, '\\');
        push_char(&mut sanitized, '\\');
    }
    sanitized
}

/// Sanitizes a label value: newlines become `\n`, double quotes become `\"`, and lone
/// backslashes become `\\` (an already escaped `\\` is kept as it is).
pub fn sanitize_label_value(value: &str) -> (out: String)
    ensures
        out@ == spec_escape(value@, false),
        !out@.contains('\n'),
        quotes_escaped(out@),
        well_escaped(out@, false),
{
    proof {
        lemma_escape_props(value@, false);
        lemma_escape_well_escaped(value@, false);
    }
    sanitize_label_value_or_description(value, false)
}

/// Sanitizes a metric description: as label values, except that double quotes are kept.
pub fn sanitize_description(value: &str) -> (out: String)
    ensures
        out@ == spec_escape(value@, true),
        !out@.contains('\n'),
        well_escaped(out@, true),
        count_char(out@, '"') == count_char(value@, '"'),
{
    proof {
        lemma_escape_props(value@, true);
        lemma_escape_well_escaped(value@, true);
        lemma_description_quotes(value@);
    }
    sanitize_label_value_or_description(value, true)
}

// ---------------------------------------------------------------------------------------------
// Exposition lines
// ---------------------------------------------------------------------------------------------

/// `# HELP <name> <sanitized description>\n`
pub open spec fn spec_help_line(name: Seq<char>, desc: Seq<char>) -> Seq<char> {
    seq!['#', ' ', 'H', 'E', 'L', 'P', ' '] + name + seq![' '] + spec_escape(desc, true) + seq!['\n']
}

/// `# TYPE <name> <type>\n`
pub open spec fn spec_type_line(name: Seq<char>, metric_type: Seq<char>) -> Seq<char> {
    seq!['#', ' ', 'T', 'Y', 'P', 'E', ' '] + name + seq![' '] + metric_type + seq!['\n']
}

/// The labels joined by commas.
pub open spec fn join_labels(labels: Seq<Seq<char>>) -> Seq<char>
    decreases labels.len(),
{
    if labels.len() == 0 {
        Seq::empty()
    } else if labels.len() == 1 {
        labels[0]
    } else {
        join_labels(labels.drop_last()) + seq![','] + labels.last()
    }
}

/// `<key>="<value>"`
pub open spec fn spec_label_pair(key: Seq<char>, value: Seq<char>) -> Seq<char> {
    key + seq!['=', '"'] + value + seq!['"']
}

/// The label block of a metric line: empty when there is nothing to put in it, otherwise the
/// labels and the additional label, comma separated, in braces.
pub open spec fn spec_label_block(
    labels: Seq<Seq<char>>,
    additional_label: Option<(Seq<char>, Seq<char>)>,
) -> Seq<char> {
    if labels.len() == 0 && additional_label is None {
        Seq::empty()
    } else {
        let extra = match additional_label {
            Some((k, v)) => (if labels.len() == 0 {
                Seq::empty()
            } else {
                seq![',']
            }) + spec_label_pair(k, v),
            None => Seq::empty(),
        };
        seq!['{'] + join_labels(labels) + extra + seq!['}']
    }
}

/// `<name>[_<suffix>][{labels}] <value>\n`
pub open spec fn spec_metric_line(
    name: Seq<char>,
    suffix: Option<Seq<char>>,
    labels: Seq<Seq<char>>,
    additional_label: Option<(Seq<char>, Seq<char>)>,
    value: Seq<char>,
) -> Seq<char> {
    name + (match suffix {
        Some(s) => seq!['_'] + s,
        None => Seq::empty(),
    }) + spec_label_block(labels, additional_label) + seq![' '] + value + seq!['\n']
}

/// The character views of a slice of strings.
pub open spec fn strings_view(v: Seq<String>) -> Seq<Seq<char>> {
    v.map_values(|s: String| s@)
}

/// The character views of an optional label pair.
pub open spec fn opt_pair_view(p: Option<(&str, &str)>) -> Option<(Seq<char>, Seq<char>)> {
    match p {
        Some((k, v)) => Some((k@, v@)),
        None => None,
    }
}

/// The character view of an optional string.
pub open spec fn opt_str_view(p: Option<&str>) -> Option<Seq<char>> {
    match p {
        Some(s) => Some(s@),
        None => None,
    }
}

/// Writes a help (description) line in the Prometheus exposition format.
pub fn write_help_line(buffer: &mut String, name: &str, desc: &str)
    ensures
        final(buffer)@ == old(buffer)@ + spec_help_line(name@, desc@),
{
    push_char(buffer, '#');
    push_char(buffer, ' ');
    push_char(buffer, 'H');
    push_char(buffer, 'E');
    push_char(buffer, 'L');
    push_char(buffer, 'P');
    push_char(buffer, ' ');
    push_str(buffer, name);
    push_char(buffer, ' ');
    let sanitized = sanitize_description(desc);
    push_str(buffer, sanitized.as_str());
    push_char(buffer, '\n');
    proof {
        assert(buffer@ =~= old(buffer)@ + spec_help_line(name@, desc@));
    }
}

/// Writes a metric type line in the Prometheus exposition format.
pub fn write_type_line(buffer: &mut String, name: &str, metric_type: &str)
    ensures
        final(buffer)@ == old(buffer)@ + spec_type_line(name@, metric_type@),
{
    push_char(buffer, '#');
    push_char(buffer, ' ');
    push_char(buffer, 'T');
    push_char(buffer, 'Y');
    push_char(buffer, 'P');
    push_char(buffer, 'E');
    push_char(buffer, ' ');
    push_str(buffer, name);
    push_char(buffer, ' ');
    push_str(buffer, metric_type);
    push_char(buffer, '\n');
    proof {
        assert(buffer@ =~= old(buffer)@ + spec_type_line(name@, metric_type@));
    }
}

/// Writes a metric line in the Prometheus exposition format.
///
/// When `suffix` is given it is appended to `name` after an underscore; `additional_label`
/// (such as `le` for histogram buckets or `quantile` for summaries) comes after `labels`.
/// The label value and the metric value are given already rendered as text.
pub fn write_metric_line(
    buffer: &mut String,
    name: &str,
    suffix: Option<&str>,
    labels: &[String],
    additional_label: Option<(&str, &str)>,
    value: &str,
)
    ensures
        final(buffer)@ == old(buffer)@ + spec_metric_line(
            name@,
            opt_str_view(suffix),
            strings_view(labels@),
            opt_pair_view(additional_label),
            value@,
        ),
{
    let ghost start = buffer@;
    push_str(buffer, name);
    if let Some(suffix) = suffix {
        push_char(buffer, '_');
        push_str(buffer, suffix);
    }
    let ghost head = buffer@;
    proof {
        assert(head =~= start + name@ + (match opt_str_view(suffix) {
            Some(s) => seq!['_'] + s,
            None => Seq::empty(),
        }));
    }
    write_label_block(buffer, labels, additional_label);
    let ghost mid = buffer@;
    push_char(buffer, ' ');
    push_str(buffer, value);
    push_char(buffer, '\n');
    proof {
        assert(buffer@ =~= mid + seq![' '] + value@ + seq!['\n']);
        assert(buffer@ =~= old(buffer)@ + spec_metric_line(
            name@,
            opt_str_view(suffix),
            strings_view(labels@),
            opt_pair_view(additional_label),
            value@,
        ));
    }
}

fn write_joined_labels(buffer: &mut String, labels: &[String])
    ensures
        final(buffer)@ == old(buffer)@ + join_labels(strings_view(labels@)),
{
    let ghost lv = strings_view(labels@);
    let ghost head = buffer@;
    let mut i: usize = 0;
    while i < labels.len()
        invariant
            i <= labels.len(),
            lv == strings_view(labels@),
            buffer@ == head + join_labels(lv.take(i as int)),
        decreases labels.len() - i,
    {
        let ghost before = buffer@;
        if i != 0 {
            push_char(buffer, ',');
        }
        push_str(buffer, labels[i].as_str());
        proof {
            let t = lv.take(i as int + 1);
            assert(t.drop_last() =~= lv.take(i as int));
            assert(t.last() == labels@[i as int]@);
            if i == 0 {
                assert(t =~= seq![labels@[0]@]);
                assert(lv.take(0) =~= Seq::<Seq<char>>::empty());
                assert(buffer@ =~= head + join_labels(t));
            } else {
                assert(buffer@ =~= before + seq![','] + labels@[i as int]@);
            }
        }
        i = i + 1;
    }
    proof {
        assert(lv.take(labels.len() as int) =~= lv);
    }
}

fn write_label_block(buffer: &mut String, labels: &[String], additional_label: Option<(&str, &str)>)
    ensures
        final(buffer)@ == old(buffer)@ + spec_label_block(
            strings_view(labels@),
            opt_pair_view(additional_label),
        ),
{
    if labels.len() != 0 || additional_label.is_some() {
        let ghost start = buffer@;
        push_char(buffer, '{');
        write_joined_labels(buffer, labels);
        let ghost joined = buffer@;
        if let Some((lname, lvalue)) = additional_label {
            if labels.len() != 0 {
                push_char(buffer, ',');
            }
            let ghost sep = buffer@;
            push_str(buffer, lname);
            push_char(buffer, '=');
            push_char(buffer, '"');
            push_str(buffer, lvalue);
            push_char(buffer, '"');
            proof {
                assert(buffer@ =~= sep + spec_label_pair(lname@, lvalue@));
            }
        }
        let ghost extra_end = buffer@;
        push_char(buffer, '}');
        proof {
            assert(buffer@ =~= extra_end + seq!['}']);
            assert(buffer@ =~= old(buffer)@ + spec_label_block(
                strings_view(labels@),
                opt_pair_view(additional_label),
            ));
        }
    } else {
        proof {
            assert(labels@.len() == 0);
            assert(old(buffer)@ + Seq::<char>::empty() =~= old(buffer)@);
        }
    }
}

// ---------------------------------------------------------------------------------------------
// Keys
// ---------------------------------------------------------------------------------------------

/// The label entries after inserting `labels`, in order, into `defaults`.
pub open spec fn merge_labels(
    defaults: Seq<(Seq<char>, Seq<char>)>,
    labels: Seq<(Seq<char>, Seq<char>)>,
) -> Seq<(Seq<char>, Seq<char>)>
    decreases labels.len(),
{
    if labels.len() == 0 {
        defaults
    } else {
        let prev = merge_labels(defaults, labels.drop_last());
        entries_insert(prev, labels.last().0, labels.last().1)
    }
}

/// The value of the key `k` among label entries with distinct keys.
pub open spec fn lookup_label(e: Seq<(Seq<char>, Seq<char>)>, k: Seq<char>) -> Option<Seq<char>> {
    if has_key(e, k) {
        Some(e[choose|i: int| 0 <= i < e.len() && #[trigger] e[i].0 == k].1)
    } else {
        None
    }
}

/// The value of the last of `labels` with the key `k`.
pub open spec fn last_label_value(labels: Seq<(Seq<char>, Seq<char>)>, k: Seq<char>) -> Option<
    Seq<char>,
>
    decreases labels.len(),
{
    if labels.len() == 0 {
        None
    } else if labels.last().0 == k {
        Some(labels.last().1)
    } else {
        last_label_value(labels.drop_last(), k)
    }
}

proof fn lemma_lookup_at(e: Seq<(Seq<char>, Seq<char>)>, k: Seq<char>, i: int)
    requires
        keys_unique(e),
        0 <= i < e.len(),
        e[i].0 == k,
    ensures
        lookup_label(e, k) == Some(e[i].1),
{
    assert(has_key(e, k));
    let j = choose|j: int| 0 <= j < e.len() && #[trigger] e[j].0 == k;
    assert(j == i);
}

proof fn lemma_insert_lookup(e: Seq<(Seq<char>, Seq<char>)>, k2: Seq<char>, v2: Seq<char>, k: Seq<char>)
    requires
        keys_unique(e),
    ensures
        keys_unique(entries_insert(e, k2, v2)),
        lookup_label(entries_insert(e, k2, v2), k) == if k == k2 {
            Some(v2)
        } else {
            lookup_label(e, k)
        },
{
    let e2 = entries_insert(e, k2, v2);
    if has_key(e, k2) {
        let i = choose|i: int| 0 <= i < e.len() && #[trigger] e[i].0 == k2;
        assert(e2 == e.update(i, (k2, v2)));
        assert(keys_unique(e2)) by {
            assert forall|a: int, b: int| 0 <= a < e2.len() && 0 <= b < e2.len() && a != b implies e2[a].0
                != e2[b].0 by {
                assert(e2[a].0 == e[a].0 && e2[b].0 == e[b].0);
            }
        }
        if k == k2 {
            lemma_lookup_at(e2, k, i);
        } else if has_key(e, k) {
            let j = choose|j: int| 0 <= j < e.len() && #[trigger] e[j].0 == k;
            assert(e2[j] == e[j]);
            lemma_lookup_at(e2, k, j);
            lemma_lookup_at(e, k, j);
        } else {
            assert forall|j: int| 0 <= j < e2.len() implies #[trigger] e2[j].0 != k by {
                assert(e2[j].0 == e[j].0);
            }
        }
    } else {
        assert(e2 == e.push((k2, v2)));
        assert(keys_unique(e2)) by {
            assert forall|a: int, b: int| 0 <= a < e2.len() && 0 <= b < e2.len() && a != b implies e2[a].0
                != e2[b].0 by {
                if a < e.len() && b < e.len() {
                    assert(e2[a] == e[a] && e2[b] == e[b]);
                } else if a < e.len() {
                    assert(e2[a] == e[a]);
                } else if b < e.len() {
                    assert(e2[b] == e[b]);
                }
            }
        }
        if k == k2 {
            lemma_lookup_at(e2, k, e.len() as int);
        } else if has_key(e, k) {
            let j = choose|j: int| 0 <= j < e.len() && #[trigger] e[j].0 == k;
            assert(e2[j] == e[j]);
            lemma_lookup_at(e2, k, j);
            lemma_lookup_at(e, k, j);
        } else {
            assert forall|j: int| 0 <= j < e2.len() implies #[trigger] e2[j].0 != k by {
                if j < e.len() {
                    assert(e2[j] == e[j]);
                }
            }
        }
    }
}

/// Merging a key's labels into default labels with distinct keys: the keys stay distinct, a key
/// the labels set takes the value of the last label that sets it, and any other key keeps its
/// default value.
pub proof fn lemma_key_labels_override_defaults(
    defaults: Seq<(Seq<char>, Seq<char>)>,
    labels: Seq<(Seq<char>, Seq<char>)>,
    k: Seq<char>,
)
    requires
        keys_unique(defaults),
    ensures
        keys_unique(merge_labels(defaults, labels)),
        lookup_label(merge_labels(defaults, labels), k) == match last_label_value(labels, k) {
            Some(v) => Some(v),
            None => lookup_label(defaults, k),
        },
    decreases labels.len(),
{
    if labels.len() > 0 {
        lemma_key_labels_override_defaults(defaults, labels.drop_last(), k);
        lemma_insert_lookup(
            merge_labels(defaults, labels.drop_last()),
            labels.last().0,
            labels.last().1,
            k,
        );
    }
}

/// A rendered label `key="value"`, with the key sanitized and the value escaped.
pub open spec fn spec_rendered_label(pair: (Seq<char>, Seq<char>)) -> Seq<char> {
    spec_label_pair(spec_sanitize_label_key(pair.0), spec_escape(pair.1, false))
}

/// The entries of the optional default label map.
pub open spec fn default_entries(m: Option<&IndexMap<String, String>>) -> Seq<(Seq<char>, Seq<char>)> {
    match m {
        Some(m) => label_map_entries(*m),
        None => Seq::empty(),
    }
}

/// Breaks a key into its sanitized name and its rendered labels.
///
/// The key's labels are inserted, in order, into a copy of the default labels: a label whose
/// key is already there replaces its value in place, a new one is appended. Each resulting
/// entry is rendered as `key="value"` with the key sanitized and the value escaped.
pub fn key_to_parts(key: &MetricKey, default_labels: Option<&IndexMap<String, String>>) -> (r: (
    String,
    Vec<String>,
))
    ensures
        r.0@ == spec_sanitize_metric_name(key.name@),
        r.1@.len() == merge_labels(default_entries(default_labels), key.label_pairs()).len(),
        forall|i: int|
            0 <= i < r.1@.len() ==> (#[trigger] r.1@[i])@ == spec_rendered_label(
                merge_labels(default_entries(default_labels), key.label_pairs())[i],
            ),
{
    let name = sanitize_metric_name(key.name.as_str());
    let mut values = match default_labels {
        Some(m) => label_map_clone(m),
        None => label_map_new(),
    };
    let ghost defaults = default_entries(default_labels);
    let ghost pairs = key.label_pairs();
    let mut i: usize = 0;
    while i < key.labels.len()
        invariant
            i <= key.labels@.len(),
            pairs == key.label_pairs(),
            label_map_entries(values) == merge_labels(defaults, pairs.take(i as int)),
        decreases key.labels.len() - i,
    {
        let label = &key.labels[i];
        label_map_insert(&mut values, label.key.clone(), label.value.clone());
        proof {
            let t = pairs.take(i as int + 1);
            assert(t.drop_last() =~= pairs.take(i as int));
            assert(t.last() == label.pair());
        }
        i = i + 1;
    }
    proof {
        assert(pairs.take(key.labels@.len() as int) =~= pairs);
    }
    let entries = label_map_to_vec(&values);
    let ghost merged = label_map_entries(values);
    let mut labels: Vec<String> = Vec::new();
    let mut j: usize = 0;
    while j < entries.len()
        invariant
            j <= entries@.len(),
            entries@.len() == merged.len(),
            forall|k: int|
                0 <= k < entries@.len() ==> (#[trigger] entries@[k]).0@ == merged[k].0
                    && entries@[k].1@ == merged[k].1,
            labels@.len() == j,
            forall|k: int|
                0 <= k < j ==> (#[trigger] labels@[k])@ == spec_rendered_label(merged[k]),
        decreases entries.len() - j,
    {
        let (k, v) = &entries[j];
        let mut rendered = sanitize_label_key(k.as_str());
        push_char(&mut rendered, '=');
        push_char(&mut rendered, '"');
        let value = sanitize_label_value(v.as_str());
        push_str(&mut rendered, value.as_str());
        push_char(&mut rendered, '"');
        proof {
            assert(entries@[j as int].0@ == merged[j as int].0);
            assert(rendered@ =~= spec_rendered_label(merged[j as int]));
        }
        labels.push(rendered);
        j = j + 1;
    }
    (name, labels)
}

/// Appends `_<suffix>` to a name, unless the name already ends with the suffix.
pub fn add_suffix_to_name(name: String, suffix: Option<&str>) -> (r: String)
    ensures
        r@ == match suffix {
            Some(s) => if s@.is_suffix_of(name@) {
                name@
            } else {
                name@ + seq!['_'] + s@
            },
            None => name@,
        },
{
    match suffix {
        Some(s) => {
            if str_ends_with(name.as_str(), s) {
                name
            } else {
                let mut out = name;
                push_char(&mut out, '_');
                push_str(&mut out, s);
                out
            }
        },
        None => name,
    }
}

// ---------------------------------------------------------------------------------------------
// Matchers
// ---------------------------------------------------------------------------------------------

/// Matches a metric name in a specific way.
///
/// Used for specifying overrides for buckets, allowing a default set of histogram buckets to be
/// specified while adjusting the buckets that get used for specific metrics.
#[derive(Clone, Debug, Eq, Hash, Ord, PartialEq, PartialOrd)]
pub enum Matcher {
    /// Matches the entire metric name.
    Full(String),
    /// Matches the beginning of the metric name.
    Prefix(String),
    /// Matches the end of the metric name.
    Suffix(String),
}

impl Matcher {
    /// Whether this matcher matches the name `key`.
    pub open spec fn spec_matches(&self, key: Seq<char>) -> bool {
        match self {
            Matcher::Prefix(p) => p@.is_prefix_of(key),
            Matcher::Suffix(s) => s@.is_suffix_of(key),
            Matcher::Full(f) => key == f@,
        }
    }

    /// Checks if the given key matches this matcher.
    pub fn matches(&self, key: &str) -> (r: bool)
        ensures
            r == self.spec_matches(key@),
    {
        match self {
            Matcher::Prefix(prefix) => str_starts_with(key, prefix.as_str()),
            Matcher::Suffix(suffix) => str_ends_with(key, suffix.as_str()),
            Matcher::Full(full) => str_eq(key, full.as_str()),
        }
    }

    /// Creates a sanitized version of this matcher: the same kind, with its pattern sanitized
    /// as a metric name.
    pub fn sanitized(self) -> (r: Matcher)
        ensures
            match (self, r) {
                (Matcher::Prefix(a), Matcher::Prefix(b)) => b@ == spec_sanitize_metric_name(a@),
                (Matcher::Suffix(a), Matcher::Suffix(b)) => b@ == spec_sanitize_metric_name(a@),
                (Matcher::Full(a), Matcher::Full(b)) => b@ == spec_sanitize_metric_name(a@),
                _ => false,
            },
    {
        match self {
            Matcher::Prefix(prefix) => Matcher::Prefix(sanitize_metric_name(prefix.as_str())),
            Matcher::Suffix(suffix) => Matcher::Suffix(sanitize_metric_name(suffix.as_str())),
            Matcher::Full(full) => Matcher::Full(sanitize_metric_name(full.as_str())),
        }
    }
}

} // verus!
