//! Ingredient markers: `@name` or `@name{annotation}` inside recipe text.

use vstd::prelude::*;
use crate::text::{chars_of, lower_of, lowercase, string_from, trim_white, trimmed};

verus! {

/// Characters that may stand in an ingredient name: any but `{`, `@` and a newline.
pub open spec fn is_name_char(c: char) -> bool {
    c != '{' && c != '@' && c != '\n'
}

/// Number of name characters in a row from position `i`.
pub open spec fn name_len(s: Seq<char>, i: int) -> nat
    decreases s.len() - i,
{
    if 0 <= i < s.len() && is_name_char(s[i]) {
        1 + name_len(s, i + 1)
    } else {
        0
    }
}

/// Number of characters from position `i` before the first `stop` (or the end).
pub open spec fn span_to(s: Seq<char>, i: int, stop: char) -> nat
    decreases s.len() - i,
{
    if 0 <= i < s.len() && s[i] != stop {
        1 + span_to(s, i + 1, stop)
    } else {
        0
    }
}

/// Length of the `{...}` annotation that starts at position `j`, braces
/// included; 0 where none starts there or its brace is never closed.
pub open spec fn note_len(s: Seq<char>, j: int) -> nat {
    if 0 <= j < s.len() && s[j] == '{' && j + 1 + span_to(s, j + 1, '}') < s.len() {
        span_to(s, j + 1, '}') + 2
    } else {
        0
    }
}

/// The names of the markers in `s` from position `i` on, as written:
/// each `@` followed by at least one name character starts a marker, whose
/// name is the longest run of name characters; an annotation right after it
/// is skipped, and the search resumes after the marker.
pub open spec fn raw_names_from(s: Seq<char>, i: int) -> Seq<Seq<char>>
    decreases if i < s.len() { s.len() - i } else { 0 },
{
    if i < 0 || i >= s.len() {
        seq![]
    } else if s[i] == '@' && name_len(s, i + 1) > 0 {
        let n = name_len(s, i + 1);
        seq![s.subrange(i + 1, i + 1 + n)] + raw_names_from(s, i + 1 + n + note_len(s, i + 1 + n))
    } else {
        raw_names_from(s, i + 1)
    }
}

/// The names of all markers in `s`, first to last, as written.
pub open spec fn raw_names(s: Seq<char>) -> Seq<Seq<char>> {
    raw_names_from(s, 0)
}

/// An ingredient name as the index keys it: trimmed, then lower-cased.
pub open spec fn normalize(n: Seq<char>) -> Seq<char> {
    lower_of(trimmed(n))
}

/// The normalized ingredient names of text `s`, in order of appearance.
pub open spec fn ingredient_names(s: Seq<char>) -> Seq<Seq<char>> {
    raw_names(s).map_values(|n: Seq<char>| normalize(n))
}

proof fn lemma_name_run(s: Seq<char>, i: int, k: int)
    requires
        0 <= i <= k <= s.len(),
        forall|j: int| i <= j < k ==> is_name_char(#[trigger] s[j]),
        k == s.len() || !is_name_char(s[k]),
    ensures
        name_len(s, i) == k - i,
    decreases k - i,
{
    if i < k {
        lemma_name_run(s, i + 1, k);
    }
}

proof fn lemma_span_run(s: Seq<char>, i: int, k: int, stop: char)
    requires
        0 <= i <= k <= s.len(),
        forall|j: int| i <= j < k ==> #[trigger] s[j] != stop,
        k == s.len() || s[k] == stop,
    ensures
        span_to(s, i, stop) == k - i,
    decreases k - i,
{
    if i < k {
        lemma_span_run(s, i + 1, k, stop);
    }
}

/// A text that is one marker, `@X` or `@X{A}` (with `X` made of name
/// characters and `A` free of `}`), yields exactly one ingredient: `X`
/// trimmed and lower-cased; the annotation never becomes part of it.
pub proof fn lemma_marker_name(x: Seq<char>, a: Seq<char>)
    requires
        x.len() > 0,
        forall|i: int| 0 <= i < x.len() ==> is_name_char(#[trigger] x[i]),
        forall|i: int| 0 <= i < a.len() ==> #[trigger] a[i] != '}',
    ensures
        ingredient_names(seq!['@'] + x) == seq![normalize(x)],
        ingredient_names(seq!['@'] + x + seq!['{'] + a + seq!['}']) == seq![normalize(x)],
{
    let n = x.len() as int;
    let s1 = seq!['@'] + x;
    assert forall|j: int| 1 <= j < s1.len() implies is_name_char(#[trigger] s1[j]) by {
        assert(s1[j] == x[j - 1]);
    }
    lemma_name_run(s1, 1, s1.len() as int);
    assert(s1.subrange(1, 1 + n) =~= x);
    assert(raw_names_from(s1, 1 + n) == Seq::<Seq<char>>::empty());
    assert(raw_names(s1) =~= seq![x]);
    assert(ingredient_names(s1) =~= seq![normalize(x)]);
    let s2 = seq!['@'] + x + seq!['{'] + a + seq!['}'];
    assert forall|j: int| 1 <= j < 1 + n implies is_name_char(#[trigger] s2[j]) by {
        assert(s2[j] == x[j - 1]);
    }
    assert(s2[1 + n] == '{');
    lemma_name_run(s2, 1, 1 + n);
    assert forall|j: int| 2 + n <= j < 2 + n + a.len() implies #[trigger] s2[j] != '}' by {
        assert(s2[j] == a[j - 2 - n]);
    }
    lemma_span_run(s2, 2 + n, 2 + n + a.len(), '}');
    assert(note_len(s2, 1 + n) == a.len() + 2);
    assert(s2.subrange(1, 1 + n) =~= x);
    assert(raw_names_from(s2, s2.len() as int) == Seq::<Seq<char>>::empty());
    assert(raw_names(s2) =~= seq![x]);
    assert(ingredient_names(s2) =~= seq![normalize(x)]);
}

/// A recipe file and the ingredients found in it.
pub struct Recipe {
    /// Path of the recipe file.
    pub path: String,
    /// Normalized ingredient names, in order of appearance, repeats kept.
    pub ingredients: Vec<String>,
}

fn name_run(v: &Vec<char>, i: usize) -> (n: usize)
    requires
        i <= v.len(),
    ensures
        n == name_len(v@, i as int),
        i + n <= v.len(),
{
    let mut j: usize = i;
    while j < v.len() && v[j] != '{' && v[j] != '@' && v[j] != '\n'
        invariant
            i <= j <= v.len(),
            name_len(v@, i as int) == (j - i) + name_len(v@, j as int),
        decreases v.len() - j,
    {
        j += 1;
    }
    j - i
}

pub(crate) fn span_run(v: &Vec<char>, i: usize, stop: char) -> (n: usize)
    requires
        i <= v.len(),
    ensures
        n == span_to(v@, i as int, stop),
        i + n <= v.len(),
{
    let mut j: usize = i;
    while j < v.len() && v[j] != stop
        invariant
            i <= j <= v.len(),
            span_to(v@, i as int, stop) == (j - i) + span_to(v@, j as int, stop),
        decreases v.len() - j,
    {
        j += 1;
    }
    j - i
}

fn note_run(v: &Vec<char>, j: usize) -> (n: usize)
    requires
        j <= v.len(),
    ensures
        n == note_len(v@, j as int),
        j + n <= v.len(),
{
    if j < v.len() && v[j] == '{' {
        let k = span_run(v, j + 1, '}');
        if j + 1 + k < v.len() {
            k + 2
        } else {
            0
        }
    } else {
        0
    }
}

/// The marker names in `content`, first to last, exactly as written.
pub fn marker_names(content: &str) -> (r: Vec<String>)
    ensures
        r.deep_view() == raw_names(content@),
{
    let v = chars_of(content);
    let mut r: Vec<String> = Vec::new();
    let mut i: usize = 0;
    while i < v.len()
        invariant
            i <= v.len(),
            v@ == content@,
            r.deep_view() + raw_names_from(v@, i as int) == raw_names(v@),
        decreases v.len() - i,
    {
        let ghost before = r.deep_view();
        if v[i] == '@' {
            let n = name_run(&v, i + 1);
            if n > 0 {
                let name = string_from(&v, i + 1, i + 1 + n);
                r.push(name);
                let skip = note_run(&v, i + 1 + n);
                assert(r.deep_view() =~= before.push(name@));
                assert(before + raw_names_from(v@, i as int) =~= r.deep_view()
                    + raw_names_from(v@, (i + 1 + n + skip) as int));
                i = i + 1 + n + skip;
            } else {
                i += 1;
            }
        } else {
            i += 1;
        }
    }
    assert(raw_names_from(v@, i as int) =~= seq![]);
    assert(r.deep_view() + seq![] =~= r.deep_view());
    r
}

/// An ingredient name as the index keys it: surrounding whitespace removed,
/// then lower-cased.
pub fn normalize_name(name: &str) -> (r: String)
    ensures
        r@ == normalize(name@),
{
    lowercase(trim_white(name))
}

/// The normalized ingredient names in `content`, in order of appearance.
pub fn extract_ingredients(content: &str) -> (r: Vec<String>)
    ensures
        r.deep_view() == ingredient_names(content@),
{
    let raw = marker_names(content);
    let mut r: Vec<String> = Vec::new();
    assert(r.deep_view() =~= raw_names(content@).subrange(0, 0).map_values(
        |n: Seq<char>| normalize(n),
    ));
    let mut i: usize = 0;
    while i < raw.len()
        invariant
            i <= raw.len(),
            raw.deep_view() == raw_names(content@),
            r.deep_view() == raw_names(content@).subrange(0, i as int).map_values(
                |n: Seq<char>| normalize(n),
            ),
        decreases raw.len() - i,
    {
        let ghost prev = r.deep_view();
        let ghost whole = raw_names(content@);
        let name = normalize_name(raw[i].as_str());
        assert(raw.deep_view()[i as int] == raw[i as int]@);
        r.push(name);
        assert(r.deep_view() =~= prev.push(name@));
        assert(whole.subrange(0, i + 1).map_values(|n: Seq<char>| normalize(n)) =~= whole.subrange(
            0,
            i as int,
        ).map_values(|n: Seq<char>| normalize(n)).push(normalize(whole[i as int])));
        i += 1;
    }
    assert(raw_names(content@).subrange(0, i as int) =~= raw_names(content@));
    r
}

/// The recipe at `path` with text `content`, or `None` where the text holds
/// no ingredient marker.
pub fn recipe_from(path: &str, content: &str) -> (r: Option<Recipe>)
    ensures
        r is None <==> ingredient_names(content@).len() == 0,
        r matches Some(rec) ==> rec.path@ == path@ && rec.ingredients.deep_view()
            == ingredient_names(content@),
{
    let ingredients = extract_ingredients(content);
    if ingredients.len() == 0 {
        None
    } else {
        Some(Recipe { path: path.to_string(), ingredients })
    }
}

} // verus!
