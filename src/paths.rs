//! Recipe paths: '/'-separated components, file names and extensions, and
//! the URL under which a recipe is published.

use vstd::prelude::*;
use crate::extract::{span_run, span_to};
use crate::text::{chars_of, string_from};

verus! {

/// The components of `s` from position `i` on: the text between separators,
/// with empty ones and `.` dropped, but for a `.` that starts the path.
pub open spec fn comps_from(s: Seq<char>, i: int) -> Seq<Seq<char>>
    decreases if i < s.len() { s.len() - i } else { 0 },
{
    if i < 0 || i >= s.len() {
        seq![]
    } else {
        let n = span_to(s, i, '/');
        let seg = s.subrange(i, i + n);
        let rest = comps_from(s, i + n + 1);
        if seg.len() == 0 || (seg == seq!['.'] && i > 0) {
            rest
        } else {
            seq![seg] + rest
        }
    }
}

/// The components of path `s`.
pub open spec fn components(s: Seq<char>) -> Seq<Seq<char>> {
    comps_from(s, 0)
}

/// A path that starts at the root.
pub open spec fn is_absolute(s: Seq<char>) -> bool {
    s.len() > 0 && s[0] == '/'
}

/// A component that names a file or directory (neither `.` nor `..`).
pub open spec fn is_named(c: Seq<char>) -> bool {
    c != seq!['.'] && c != seq!['.', '.']
}

/// Position of the last `.` in `name`, or -1 where there is none.
pub open spec fn last_dot(name: Seq<char>) -> int
    decreases name.len(),
{
    if name.len() == 0 {
        -1
    } else if name.last() == '.' {
        name.len() - 1
    } else {
        last_dot(name.drop_last())
    }
}

/// The file name without its extension; a name whose only dot leads it has none.
pub open spec fn stem(name: Seq<char>) -> Seq<char> {
    if last_dot(name) <= 0 {
        name
    } else {
        name.subrange(0, last_dot(name))
    }
}

/// The extension of a file name: the text after its last dot, where that
/// dot is not the name's first character.
pub open spec fn extension(name: Seq<char>) -> Option<Seq<char>> {
    if last_dot(name) <= 0 {
        None
    } else {
        Some(name.subrange(last_dot(name) + 1, name.len() as int))
    }
}

/// The last component of path `s`, where it names something.
pub open spec fn file_name(s: Seq<char>) -> Option<Seq<char>> {
    let cs = components(s);
    if cs.len() > 0 && is_named(cs.last()) {
        Some(cs.last())
    } else {
        None
    }
}

/// The extension of recipe files.
pub open spec fn recipe_ext() -> Seq<char> {
    seq!['c', 'o', 'o', 'k']
}

/// A path whose file name has exactly the recipe extension.
pub open spec fn is_recipe(s: Seq<char>) -> bool {
    match file_name(s) {
        Some(n) => extension(n) == Some(recipe_ext()),
        None => false,
    }
}

fn components_of(v: &Vec<char>) -> (r: Vec<String>)
    ensures
        r.deep_view() == components(v@),
{
    let mut out: Vec<String> = Vec::new();
    let mut i: usize = 0;
    while i < v.len()
        invariant
            i <= v.len(),
            out.deep_view() + comps_from(v@, i as int) == components(v@),
        decreases v.len() - i,
    {
        let ghost before = out.deep_view();
        let n = span_run(v, i, '/');
        let ghost seg = v@.subrange(i as int, i + n);
        let dot = n == 1 && v[i] == '.';
        assert(dot <==> seg == seq!['.']) by {
            if n == 1 {
                assert(seg.len() == 1 && seg[0] == v@[i as int]);
                if v@[i as int] == '.' {
                    assert(seg =~= seq!['.']);
                }
            }
        }
        let next = if i + n < v.len() {
            i + n + 1
        } else {
            v.len()
        };
        assert(comps_from(v@, next as int) == comps_from(v@, i + n + 1));
        if n > 0 && !(dot && i > 0) {
            let s = string_from(v, i, i + n);
            out.push(s);
            assert(out.deep_view() =~= before.push(seg));
            assert(before + comps_from(v@, i as int) =~= out.deep_view() + comps_from(
                v@,
                next as int,
            ));
        }
        i = next;
    }
    assert(out.deep_view() + comps_from(v@, i as int) =~= out.deep_view());
    out
}

/// The components of `path`.
pub fn path_components(path: &str) -> (r: Vec<String>)
    ensures
        r.deep_view() == components(path@),
{
    let v = chars_of(path);
    components_of(&v)
}

pub(crate) fn is_named_comp(c: &Vec<char>) -> (r: bool)
    ensures
        r == is_named(c@),
{
    if c.len() == 1 && c[0] == '.' {
        assert(c@ =~= seq!['.']);
        false
    } else if c.len() == 2 && c[0] == '.' && c[1] == '.' {
        assert(c@ =~= seq!['.', '.']);
        false
    } else {
        true
    }
}

proof fn lemma_last_dot(name: Seq<char>)
    ensures
        -1 <= last_dot(name) < name.len(),
        last_dot(name) >= 0 ==> name[last_dot(name)] == '.',
    decreases name.len(),
{
    if name.len() > 0 && name.last() != '.' {
        lemma_last_dot(name.drop_last());
    }
}

/// One past the position of the last dot of `v`, or 0 where there is none.
fn dot_end(v: &Vec<char>) -> (r: usize)
    ensures
        r as int == last_dot(v@) + 1,
        r <= v.len(),
{
    proof {
        lemma_last_dot(v@);
    }
    let mut j: usize = v.len();
    assert(v@.subrange(0, j as int) =~= v@);
    while j > 0 && v[j - 1] != '.'
        invariant
            j <= v.len(),
            last_dot(v@) == last_dot(v@.subrange(0, j as int)),
        decreases j,
    {
        assert(v@.subrange(0, j as int).drop_last() =~= v@.subrange(0, j - 1));
        j -= 1;
    }
    j
}

pub(crate) fn stem_chars(name: &Vec<char>) -> (r: Vec<char>)
    ensures
        r@ == stem(name@),
{
    let e = dot_end(name);
    if e <= 1 {
        name.clone()
    } else {
        let mut r: Vec<char> = Vec::new();
        let mut i: usize = 0;
        while i < e - 1
            invariant
                e - 1 <= name.len(),
                i <= e - 1,
                r@ == name@.subrange(0, i as int),
            decreases e - 1 - i,
        {
            r.push(name[i]);
            i += 1;
            assert(r@ =~= name@.subrange(0, i as int));
        }
        r
    }
}

/// Whether `path` names a recipe file: its file name's extension is exactly
/// `cook` (so `a.cook.bak` and `a.Cook` are not recipes).
pub fn is_recipe_path(path: &str) -> (r: bool)
    ensures
        r == is_recipe(path@),
{
    let cs = path_components(path);
    if cs.len() == 0 {
        return false;
    }
    let last = chars_of(cs[cs.len() - 1].as_str());
    assert(last@ == components(path@).last());
    if !is_named_comp(&last) {
        return false;
    }
    let e = dot_end(&last);
    if e <= 1 {
        return false;
    }
    let ghost ext = last@.subrange(e as int, last@.len() as int);
    if last.len() - e == 4 && last[e] == 'c' && last[e + 1] == 'o' && last[e + 2] == 'o' && last[e
        + 3] == 'k' {
        assert(ext =~= recipe_ext());
        true
    } else {
        assert(ext != recipe_ext()) by {
            if ext.len() == 4 {
                assert(ext[0] == last@[e as int]);
                assert(ext[1] == last@[e + 1]);
                assert(ext[2] == last@[e + 2]);
                assert(ext[3] == last@[e + 3]);
            }
        }
        false
    }
}

} // verus!
